//! Determinism: what is found depends on the frames alone.
//!
//! The contracts of this library say what a reaction between two frames is,
//! and which reactions a chunk of frames gives. This module proves that they
//! leave no choice: two answers that meet them are the same answer.
use crate::algo::lists_reactions;
use crate::conservation::{lemma_listed_fragment, lemma_listed_seed, reached_from};
use crate::molecule::{lemma_connected_sym, lemma_connected_trans, MoleculeView};
use crate::pairs::lists_numbers;
use crate::reaction::{
    bonds_gained, fragments_view, is_reaction_between, lists_fragments, product_seeds,
    reactant_seeds, Transformation,
};
use vstd::prelude::*;

verus! {

/// Whether the numbers are in ascending order, none twice.
pub open spec fn rising(numbers: Seq<int>) -> bool {
    forall|i: int, j: int| 0 <= i < j < numbers.len() ==> numbers[i] < numbers[j]
}

/// Two ascending lists with the same members are the same list.
pub proof fn lemma_rising_unique(a: Seq<int>, b: Seq<int>)
    requires
        rising(a),
        rising(b),
        forall|w: int| a.contains(w) <==> b.contains(w),
    ensures
        a == b,
    decreases a.len(),
{
    if a.len() == 0 {
        if b.len() > 0 {
            assert(b.contains(b[0]));
        }
        assert(a =~= b);
    } else if b.len() == 0 {
        assert(a.contains(a[0]));
    } else {
        let x = a.last();
        let y = b.last();
        assert(a.contains(x));
        assert(b.contains(y));
        let j = choose|j: int| 0 <= j < b.len() && b[j] == x;
        let i = choose|i: int| 0 <= i < a.len() && a[i] == y;
        assert(x == y);
        let shorter = a.drop_last();
        let other = b.drop_last();
        assert forall|w: int| shorter.contains(w) <==> other.contains(w) by {
            if shorter.contains(w) {
                let i = choose|i: int| 0 <= i < shorter.len() && shorter[i] == w;
                assert(a[i] == w);
                assert(a.contains(w));
                let j = choose|j: int| 0 <= j < b.len() && b[j] == w;
                assert(other[j] == w);
            }
            if other.contains(w) {
                let j = choose|j: int| 0 <= j < other.len() && other[j] == w;
                assert(b[j] == w);
                assert(b.contains(w));
                let i = choose|i: int| 0 <= i < a.len() && a[i] == w;
                assert(shorter[i] == w);
            }
        }
        lemma_rising_unique(shorter, other);
        assert(a =~= shorter.push(x));
        assert(b =~= other.push(y));
    }
}

/// A set of numbers has one ascending listing only.
pub proof fn lemma_listing_unique(a: Seq<int>, b: Seq<int>, members: Set<int>)
    requires
        lists_numbers(a, members),
        lists_numbers(b, members),
    ensures
        a == b,
{
    assert forall|w: int| a.contains(w) <==> b.contains(w) by {
        if a.contains(w) {
            let i = choose|i: int| 0 <= i < a.len() && a[i] == w;
            assert(members.contains(a[i]));
        }
        if b.contains(w) {
            let j = choose|j: int| 0 <= j < b.len() && b[j] == w;
            assert(members.contains(b[j]));
        }
    }
    lemma_rising_unique(a, b);
}

/// The first atoms of `fragments`, in their order.
pub open spec fn first_atoms(fragments: Seq<Seq<int>>) -> Seq<int> {
    Seq::new(fragments.len(), |k: int| fragments[k][0])
}

/// A fragment of one listing starts with the same atom as a fragment of any
/// other listing for the same seeds.
proof fn lemma_first_atom_shared(
    one: Seq<Seq<int>>,
    other: Seq<Seq<int>>,
    mol: MoleculeView,
    seeds: Set<int>,
    k: int,
)
    requires
        lists_fragments(one, mol, seeds),
        lists_fragments(other, mol, seeds),
        0 <= k < one.len(),
    ensures
        first_atoms(other).contains(one[k][0]),
{
    lemma_listed_fragment(one, mol, seeds, k);
    let a = one[k][0];
    assert(reached_from(mol, seeds, a));
    let s = choose|s: int| seeds.contains(s) && #[trigger] mol.connected(s, a);
    lemma_listed_seed(other, mol, seeds, s);
    let j = choose|j: int| 0 <= j < other.len() && (#[trigger] other[j]).contains(s);
    lemma_listed_fragment(other, mol, seeds, j);
    let b = other[j][0];
    assert(mol.connected(b, s));
    lemma_connected_trans(mol, b, s, a);
    assert(other[j].contains(a));
    lemma_connected_sym(mol, b, a);
    assert(one[k].contains(b));
    let at = choose|i: int| 0 <= i < other[j].len() && other[j][i] == a;
    assert(b <= other[j][at]);
    let back = choose|i: int| 0 <= i < one[k].len() && one[k][i] == b;
    assert(a <= one[k][back]);
    assert(first_atoms(other)[j] == a);
}

/// The first atoms of listed fragments ascend.
proof fn lemma_first_atoms_rise(fragments: Seq<Seq<int>>, mol: MoleculeView, seeds: Set<int>)
    requires
        lists_fragments(fragments, mol, seeds),
    ensures
        rising(first_atoms(fragments)),
{
    let firsts = first_atoms(fragments);
    assert forall|i: int, j: int| 0 <= i < j < firsts.len() implies firsts[i] < firsts[j] by {
        lemma_listed_fragment(fragments, mol, seeds, j);
    }
}

/// The fragments of a frame that hold one of `seeds` have one listing only.
pub proof fn lemma_fragments_determined(
    one: Seq<Seq<int>>,
    other: Seq<Seq<int>>,
    mol: MoleculeView,
    seeds: Set<int>,
)
    requires
        lists_fragments(one, mol, seeds),
        lists_fragments(other, mol, seeds),
    ensures
        one == other,
{
    let firsts = first_atoms(one);
    let others = first_atoms(other);
    lemma_first_atoms_rise(one, mol, seeds);
    lemma_first_atoms_rise(other, mol, seeds);
    assert forall|w: int| firsts.contains(w) <==> others.contains(w) by {
        if firsts.contains(w) {
            let k = choose|k: int| 0 <= k < firsts.len() && firsts[k] == w;
            lemma_first_atom_shared(one, other, mol, seeds, k);
        }
        if others.contains(w) {
            let k = choose|k: int| 0 <= k < others.len() && others[k] == w;
            lemma_first_atom_shared(other, one, mol, seeds, k);
        }
    }
    lemma_rising_unique(firsts, others);
    assert(one.len() == firsts.len());
    assert(other.len() == others.len());
    assert forall|k: int| 0 <= k < one.len() implies one[k] == other[k] by {
        assert(firsts[k] == others[k]);
        lemma_listed_fragment(one, mol, seeds, k);
        lemma_listed_fragment(other, mol, seeds, k);
        lemma_listing_unique(one[k], other[k], mol.fragment(one[k][0]));
    }
    assert(one =~= other);
}

/// Whether two records say the same: the same frame, the same fragments on
/// both sides and the same compositions.
pub open spec fn same_record(a: Transformation, b: Transformation) -> bool {
    &&& a.local_frame == b.local_frame
    &&& a.global_frame@ == b.global_frame@
    &&& fragments_view(a.reactants@) == fragments_view(b.reactants@)
    &&& fragments_view(a.products@) == fragments_view(b.products@)
    &&& a.reactants_composition@ == b.reactants_composition@
    &&& a.products_composition@ == b.products_composition@
}

/// Two frames have one reaction between them: whatever describes it holds
/// the same fragments and the same compositions.
pub proof fn lemma_reaction_determined(
    a: Transformation,
    b: Transformation,
    before: MoleculeView,
    after: MoleculeView,
)
    requires
        is_reaction_between(a, before, after),
        is_reaction_between(b, before, after),
    ensures
        fragments_view(a.reactants@) == fragments_view(b.reactants@),
        fragments_view(a.products@) == fragments_view(b.products@),
        a.reactants_composition@ == b.reactants_composition@,
        a.products_composition@ == b.products_composition@,
{
    let forming = bonds_gained(before, after);
    let breaking = bonds_gained(after, before);
    lemma_fragments_determined(
        fragments_view(a.reactants@),
        fragments_view(b.reactants@),
        before,
        reactant_seeds(forming, breaking),
    );
    lemma_fragments_determined(
        fragments_view(a.products@),
        fragments_view(b.products@),
        after,
        product_seeds(forming, breaking),
    );
}

/// The frames in which the reactions happen, in their order.
pub open spec fn local_frames(reactions: Seq<Transformation>) -> Seq<int> {
    Seq::new(reactions.len(), |k: int| reactions[k].local_frame as int)
}

/// The frames of a chunk give one list of records only: two lists of the
/// reactions of the same frames at the same transitions are equally long and
/// agree record by record.
pub proof fn lemma_reactions_determined(
    one: Seq<Transformation>,
    other: Seq<Transformation>,
    frames: Seq<MoleculeView>,
    positions: Set<int>,
)
    requires
        lists_reactions(one, frames, positions),
        lists_reactions(other, frames, positions),
    ensures
        one.len() == other.len(),
        forall|k: int| 0 <= k < one.len() ==> same_record(#[trigger] one[k], other[k]),
{
    let these = local_frames(one);
    let those = local_frames(other);
    assert(rising(these)) by {
        assert forall|i: int, j: int| 0 <= i < j < these.len() implies these[i] < these[j] by {
            assert(one[i].local_frame < one[j].local_frame);
        }
    }
    assert(rising(those)) by {
        assert forall|i: int, j: int| 0 <= i < j < those.len() implies those[i] < those[j] by {
            assert(other[i].local_frame < other[j].local_frame);
        }
    }
    assert forall|w: int| these.contains(w) <==> those.contains(w) by {
        if these.contains(w) {
            let k = choose|k: int| 0 <= k < these.len() && these[k] == w;
            assert(one[k].local_frame == w);
            assert(positions.contains(w - 1));
            let h = choose|h: int|
                0 <= h < other.len() && (#[trigger] other[h]).local_frame == (w - 1) + 1;
            assert(those[h] == w);
        }
        if those.contains(w) {
            let k = choose|k: int| 0 <= k < those.len() && those[k] == w;
            assert(other[k].local_frame == w);
            assert(positions.contains(w - 1));
            let h = choose|h: int|
                0 <= h < one.len() && (#[trigger] one[h]).local_frame == (w - 1) + 1;
            assert(these[h] == w);
        }
    }
    lemma_rising_unique(these, those);
    assert(one.len() == these.len());
    assert(other.len() == those.len());
    assert forall|k: int| 0 <= k < one.len() implies same_record(#[trigger] one[k], other[k]) by {
        assert(these[k] == those[k]);
        let j = one[k].local_frame as int;
        assert(other[k].local_frame == j);
        lemma_reaction_determined(one[k], other[k], frames[j - 1], frames[j]);
    }
}

} // verus!
