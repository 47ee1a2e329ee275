//! Conservation of atoms: what reacts is what results.
//!
//! The fragments that react are fragments of the frame before a transition,
//! those that result are fragments of the frame after it. The two frames
//! differ in the bonds that form and break, and the fragments are chosen by
//! the atoms of these bonds. This module proves that both sides hold the
//! same atoms, each once, and so the same elements.
use crate::molecule::{
    lemma_connected_refl, lemma_connected_step, lemma_connected_sym, lemma_connected_trans,
    MoleculeView,
};
use crate::pairs::lists_numbers;
use crate::reaction::{
    bonds_gained, fragments_view, is_reaction_between, lists_fragments, product_seeds,
    reactant_seeds, starts, symbols_at, touches, Transformation,
};
use vstd::prelude::*;
use vstd::seq_lib::lemma_no_dup_in_concat;

verus! {

/// The atoms of all of `fragments`, fragment by fragment.
pub open spec fn fragment_atoms(fragments: Seq<Seq<int>>) -> Seq<int>
    decreases fragments.len(),
{
    if fragments.len() == 0 {
        Seq::empty()
    } else {
        fragment_atoms(fragments.drop_last()) + fragments.last()
    }
}

/// Whether `w` is connected, in `mol`, with one of `seeds`.
pub open spec fn reached_from(mol: MoleculeView, seeds: Set<int>, w: int) -> bool {
    exists|s: int| seeds.contains(s) && #[trigger] mol.connected(s, w)
}

/// A walk in `one` from `walk[0]` either is a walk in `other` as far as
/// `upto`, or passes an atom of a bond that `other` lacks, as far as which
/// it is a walk in `other`.
proof fn lemma_walk_transfer(one: MoleculeView, other: MoleculeView, walk: Seq<int>, upto: int)
    requires
        one.is_walk(walk),
        0 <= upto < walk.len(),
    ensures
        other.connected(walk[0], walk[upto]) || exists|x: int|
            touches(bonds_gained(other, one), x) && #[trigger] other.connected(walk[0], x),
    decreases upto,
{
    let lost = bonds_gained(other, one);
    if upto == 0 {
        lemma_connected_refl(other, walk[0]);
    } else {
        lemma_walk_transfer(one, other, walk, upto - 1);
        if other.connected(walk[0], walk[upto - 1]) {
            let x = walk[upto - 1];
            let y = walk[upto];
            assert(one.bonded(x, y));
            if other.bonded(x, y) {
                lemma_connected_step(other, walk[0], x, y);
            } else {
                if one.bonds.contains((x, y)) {
                    assert(lost.contains((x, y)));
                } else {
                    assert(lost.contains((y, x)));
                }
                assert(touches(lost, x));
            }
        }
    }
}

/// An atom connected in `one` with an atom of a changing bond is connected
/// in `other` with an atom of a changing bond, the atoms being chosen as
/// seeds are: in `one` both atoms of the bonds that `other` adds and the
/// first atom of those that it lacks, in `other` the reverse.
pub proof fn lemma_reached_both(one: MoleculeView, other: MoleculeView, w: int)
    requires
        reached_from(one, reactant_seeds(bonds_gained(one, other), bonds_gained(other, one)), w),
    ensures
        reached_from(other, reactant_seeds(bonds_gained(other, one), bonds_gained(one, other)), w),
{
    let gained = bonds_gained(one, other);
    let lost = bonds_gained(other, one);
    let goal = reactant_seeds(lost, gained);
    let s = choose|s: int| reactant_seeds(gained, lost).contains(s) && #[trigger] one.connected(s, w);
    lemma_connected_sym(one, s, w);
    let walk = choose|walk: Seq<int>| #[trigger]
        one.is_walk(walk) && walk[0] == w && walk.last() == s;
    lemma_walk_transfer(one, other, walk, walk.len() - 1);
    if other.connected(w, s) {
        lemma_connected_sym(other, w, s);
        if starts(lost, s) {
            let b = choose|b: int| lost.contains((s, b));
            assert(lost.contains((s, b)));
            assert(touches(lost, s));
            assert(goal.contains(s));
            assert(other.connected(s, w));
        } else {
            let b = choose|b: int|
                #![trigger gained.contains((s, b))]
                #![trigger gained.contains((b, s))]
                gained.contains((s, b)) || gained.contains((b, s));
            let p = if gained.contains((s, b)) {
                (s, b)
            } else {
                (b, s)
            };
            assert(gained.contains((p.0, p.1)));
            assert(starts(gained, p.0));
            assert(goal.contains(p.0));
            lemma_connected_refl(other, p.0);
            if p.0 != s {
                assert(other.bonded(p.0, s));
                lemma_connected_step(other, p.0, p.0, s);
            }
            lemma_connected_trans(other, p.0, s, w);
            assert(other.connected(p.0, w));
        }
    } else {
        let x = choose|x: int| touches(lost, x) && #[trigger] other.connected(w, x);
        lemma_connected_sym(other, w, x);
        assert(goal.contains(x));
        assert(other.connected(x, w));
    }
}

/// An atom is among the atoms of `fragments` exactly if one of them holds it.
pub proof fn lemma_atoms_of_fragments(fragments: Seq<Seq<int>>, w: int)
    ensures
        fragment_atoms(fragments).contains(w) <==> exists|k: int|
            0 <= k < fragments.len() && (#[trigger] fragments[k]).contains(w),
    decreases fragments.len(),
{
    if fragments.len() > 0 {
        let before = fragments.drop_last();
        let last = fragments.last();
        lemma_atoms_of_fragments(before, w);
        let all = fragment_atoms(fragments);
        let head = fragment_atoms(before);
        if all.contains(w) {
            let i = choose|i: int| 0 <= i < all.len() && all[i] == w;
            if i < head.len() {
                assert(head[i] == w);
                let k = choose|k: int| 0 <= k < before.len() && (#[trigger] before[k]).contains(w);
                assert(fragments[k] == before[k]);
            } else {
                assert(last[i - head.len()] == w);
                assert(fragments[fragments.len() - 1].contains(w));
            }
        }
        if exists|k: int| 0 <= k < fragments.len() && (#[trigger] fragments[k]).contains(w) {
            let k = choose|k: int| 0 <= k < fragments.len() && (#[trigger] fragments[k]).contains(w);
            if k < before.len() {
                assert(before[k].contains(w));
                let i = choose|i: int| 0 <= i < head.len() && head[i] == w;
                assert(all[i] == w);
            } else {
                let i = choose|i: int| 0 <= i < last.len() && last[i] == w;
                assert(all[head.len() + i] == w);
            }
        }
    }
}

/// What listing says of one fragment: it holds exactly the atoms connected
/// with its first atom, each once and in ascending order, its first atom is
/// its smallest, this atom is connected with a seed, and the fragments before
/// it start with smaller atoms.
pub proof fn lemma_listed_fragment(
    fragments: Seq<Seq<int>>,
    mol: MoleculeView,
    seeds: Set<int>,
    k: int,
)
    requires
        lists_fragments(fragments, mol, seeds),
        0 <= k < fragments.len(),
    ensures
        fragments[k].len() > 0,
        fragments[k].no_duplicates(),
        lists_numbers(fragments[k], mol.fragment(fragments[k][0])),
        forall|w: int| fragments[k].contains(w) <==> mol.connected(fragments[k][0], w),
        forall|i: int| 0 <= i < fragments[k].len() ==> fragments[k][0] <= #[trigger] fragments[k][i],
        reached_from(mol, seeds, fragments[k][0]),
        forall|j: int| 0 <= j < k ==> (#[trigger] fragments[j])[0] < fragments[k][0],
{
    reveal(lists_fragments);
    let one = fragments[k];
    assert(lists_numbers(one, mol.fragment(one[0])));
    assert forall|w: int| one.contains(w) <==> mol.connected(one[0], w) by {
        if one.contains(w) {
            let i = choose|i: int| 0 <= i < one.len() && one[i] == w;
            assert(mol.fragment(one[0]).contains(one[i]));
        }
        if mol.connected(one[0], w) {
            assert(mol.fragment(one[0]).contains(w));
        }
    }
    let s = choose|s: int| seeds.contains(s) && #[trigger] mol.connected(one[0], s);
    lemma_connected_sym(mol, one[0], s);
    lemma_connected_refl(mol, s);
    lemma_connected_trans(mol, s, one[0], one[0]);
    assert(seeds.contains(s) && mol.connected(s, one[0]));
}

/// What listing says of a seed: one of the fragments holds it.
pub proof fn lemma_listed_seed(fragments: Seq<Seq<int>>, mol: MoleculeView, seeds: Set<int>, s: int)
    requires
        lists_fragments(fragments, mol, seeds),
        seeds.contains(s),
    ensures
        exists|k: int| 0 <= k < fragments.len() && (#[trigger] fragments[k]).contains(s),
{
    reveal(lists_fragments);
}

/// The atoms of listed fragments are those connected with a seed, and none
/// of them is listed twice.
pub proof fn lemma_listed_atoms(fragments: Seq<Seq<int>>, mol: MoleculeView, seeds: Set<int>)
    requires
        lists_fragments(fragments, mol, seeds),
    ensures
        fragment_atoms(fragments).no_duplicates(),
        forall|w: int| fragment_atoms(fragments).contains(w) <==> reached_from(mol, seeds, w),
{
    assert forall|w: int| fragment_atoms(fragments).contains(w) <==> reached_from(
        mol,
        seeds,
        w,
    ) by {
        lemma_atoms_of_fragments(fragments, w);
        if exists|k: int| 0 <= k < fragments.len() && (#[trigger] fragments[k]).contains(w) {
            let k = choose|k: int| 0 <= k < fragments.len() && (#[trigger] fragments[k]).contains(w);
            lemma_listed_fragment(fragments, mol, seeds, k);
            let first = fragments[k][0];
            let s = choose|s: int| seeds.contains(s) && #[trigger] mol.connected(s, first);
            lemma_connected_trans(mol, s, first, w);
            assert(seeds.contains(s) && mol.connected(s, w));
        }
        if reached_from(mol, seeds, w) {
            let s = choose|s: int| seeds.contains(s) && #[trigger] mol.connected(s, w);
            lemma_listed_seed(fragments, mol, seeds, s);
            let k = choose|k: int| 0 <= k < fragments.len() && (#[trigger] fragments[k]).contains(s);
            lemma_listed_fragment(fragments, mol, seeds, k);
            let first = fragments[k][0];
            lemma_connected_trans(mol, first, s, w);
            assert(fragments[k].contains(w));
        }
    }
    lemma_listed_distinct(fragments, mol, seeds, fragments.len() as int);
    assert(fragments.take(fragments.len() as int) =~= fragments);
}

/// No atom is listed twice among the first `upto` of the listed fragments.
proof fn lemma_listed_distinct(
    fragments: Seq<Seq<int>>,
    mol: MoleculeView,
    seeds: Set<int>,
    upto: int,
)
    requires
        lists_fragments(fragments, mol, seeds),
        0 <= upto <= fragments.len(),
    ensures
        fragment_atoms(fragments.take(upto)).no_duplicates(),
    decreases upto,
{
    if upto > 0 {
        lemma_listed_distinct(fragments, mol, seeds, upto - 1);
        let taken = fragments.take(upto);
        let shorter = fragments.take(upto - 1);
        assert(taken.drop_last() =~= shorter);
        let head = fragment_atoms(shorter);
        let last = fragments[upto - 1];
        assert(taken.last() == last);
        lemma_listed_fragment(fragments, mol, seeds, upto - 1);
        assert forall|i: int, j: int| 0 <= i < head.len() && 0 <= j < last.len() implies head[i]
            != last[j] by {
            if head[i] == last[j] {
                let w = head[i];
                assert(head.contains(w));
                assert(last.contains(w));
                lemma_atoms_of_fragments(shorter, w);
                let k = choose|k: int| 0 <= k < shorter.len() && (#[trigger] shorter[k]).contains(w);
                assert(shorter[k] == fragments[k]);
                lemma_shared_atom(fragments, mol, seeds, k, upto - 1, w);
            }
        }
        lemma_no_dup_in_concat(head, last);
    }
}

/// Two different listed fragments share no atom.
proof fn lemma_shared_atom(
    fragments: Seq<Seq<int>>,
    mol: MoleculeView,
    seeds: Set<int>,
    j: int,
    k: int,
    w: int,
)
    requires
        lists_fragments(fragments, mol, seeds),
        0 <= j < k < fragments.len(),
        fragments[j].contains(w),
    ensures
        !fragments[k].contains(w),
{
    lemma_listed_fragment(fragments, mol, seeds, j);
    lemma_listed_fragment(fragments, mol, seeds, k);
    let one = fragments[j];
    let other = fragments[k];
    if other.contains(w) {
        // the two fragments share an atom, so the first atom of the one is
        // among the atoms of the other, and not smaller than its first
        lemma_connected_sym(mol, one[0], w);
        lemma_connected_trans(mol, other[0], w, one[0]);
        assert(other.contains(one[0]));
        let b = choose|b: int| 0 <= b < other.len() && other[b] == one[0];
        assert(other[0] <= other[b]);
    }
}

/// Two lists without repetitions that hold the same members hold them
/// equally often.
pub proof fn lemma_same_members(a: Seq<int>, b: Seq<int>)
    requires
        a.no_duplicates(),
        b.no_duplicates(),
        forall|w: int| a.contains(w) <==> b.contains(w),
    ensures
        a.to_multiset() == b.to_multiset(),
{
    a.to_multiset_ensures();
    b.to_multiset_ensures();
    a.lemma_multiset_has_no_duplicates();
    b.lemma_multiset_has_no_duplicates();
    assert forall|w: int| a.to_multiset().count(w) == b.to_multiset().count(w) by {
        if a.contains(w) {
            assert(a.to_multiset().contains(w));
            assert(b.to_multiset().contains(w));
        }
    }
    assert(a.to_multiset() =~= b.to_multiset());
}

/// Lists that hold the same atoms equally often hold the same elements
/// equally often.
pub proof fn lemma_same_elements(a: Seq<int>, b: Seq<int>, symbols: Seq<Seq<char>>)
    requires
        a.to_multiset() == b.to_multiset(),
    ensures
        symbols_at(symbols, a).to_multiset() == symbols_at(symbols, b).to_multiset(),
    decreases a.len(),
{
    a.to_multiset_ensures();
    b.to_multiset_ensures();
    if a.len() == 0 {
        assert(b.len() == 0);
        assert(symbols_at(symbols, a) =~= symbols_at(symbols, b));
    } else {
        let x = a.last();
        let last = a.len() - 1;
        let shorter = a.remove(last);
        assert(a[last] == x);
        assert(a.contains(x));
        assert(a.to_multiset().count(x) > 0);
        assert(b.to_multiset().count(x) > 0);
        assert(b.contains(x));
        let i = choose|i: int| 0 <= i < b.len() && b[i] == x;
        let rest = b.remove(i);
        assert(shorter.to_multiset() =~= a.to_multiset().remove(x));
        assert(rest.to_multiset() =~= b.to_multiset().remove(x));
        assert(shorter.len() < a.len());
        lemma_same_elements(shorter, rest, symbols);
        let of_a = symbols_at(symbols, a);
        let of_b = symbols_at(symbols, b);
        let e = symbols[x - 1];
        of_a.to_multiset_ensures();
        of_b.to_multiset_ensures();
        assert(of_a.remove(last) =~= symbols_at(symbols, shorter));
        assert(of_b.remove(i) =~= symbols_at(symbols, rest));
        assert(of_a[last] == e && of_b[i] == e);
        assert(of_a.remove(last).to_multiset() =~= of_a.to_multiset().remove(e));
        assert(of_b.remove(i).to_multiset() =~= of_b.to_multiset().remove(e));
        assert(of_a.contains(e) && of_b.contains(e));
        assert(of_a.to_multiset().count(e) > 0 && of_b.to_multiset().count(e) > 0);
        assert forall|t: Seq<char>| of_a.to_multiset().count(t) == of_b.to_multiset().count(t) by {
            assert(of_a.to_multiset().remove(e).count(t) == of_b.to_multiset().remove(e).count(t));
        }
        assert(of_a.to_multiset() =~= of_b.to_multiset());
    }
}

/// Conservation: the atoms of the reactants of a reaction and the atoms of
/// its products are the same, each counted as often as it occurs, which is
/// once; and so are their elements.
pub proof fn lemma_conservation(reaction: Transformation, before: MoleculeView, after: MoleculeView)
    requires
        is_reaction_between(reaction, before, after),
        before.symbols == after.symbols,
    ensures
        fragment_atoms(fragments_view(reaction.reactants@)).no_duplicates(),
        fragment_atoms(fragments_view(reaction.products@)).no_duplicates(),
        fragment_atoms(fragments_view(reaction.reactants@)).to_multiset() == fragment_atoms(
            fragments_view(reaction.products@),
        ).to_multiset(),
        symbols_at(
            before.symbols,
            fragment_atoms(fragments_view(reaction.reactants@)),
        ).to_multiset() == symbols_at(
            after.symbols,
            fragment_atoms(fragments_view(reaction.products@)),
        ).to_multiset(),
{
    let forming = bonds_gained(before, after);
    let breaking = bonds_gained(after, before);
    let reacting = fragment_atoms(fragments_view(reaction.reactants@));
    let resulting = fragment_atoms(fragments_view(reaction.products@));
    lemma_listed_atoms(
        fragments_view(reaction.reactants@),
        before,
        reactant_seeds(forming, breaking),
    );
    lemma_listed_atoms(fragments_view(reaction.products@), after, product_seeds(forming, breaking));
    assert forall|w: int| reacting.contains(w) <==> resulting.contains(w) by {
        if reacting.contains(w) {
            lemma_reached_both(before, after, w);
        }
        if resulting.contains(w) {
            lemma_reached_both(after, before, w);
        }
    }
    lemma_same_members(reacting, resulting);
    lemma_same_elements(reacting, resulting, before.symbols);
}

} // verus!
