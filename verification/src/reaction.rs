//! Reactions between two frames: which bonds form and break from one to the
//! other, and which fragments take part.
use crate::determinism::lemma_reaction_determined;
use crate::formula::{composition_text, formula_text, get_composition, get_reduced_formula};
use crate::molecule::{
    lemma_connected_refl, lemma_connected_sym, lemma_fragment_shared, Molecule, MoleculeView,
};
use crate::pairs::{lists_numbers, lists_pairs, numbers_view, pair_lt, pairs_view};
use crate::text::texts_of;
use vstd::prelude::*;
use vstd::string::*;

verus! {

/// Why a request was turned down.
#[derive(Debug, Clone, Copy, PartialEq, Eq, Structural)]
pub enum Error {
    /// The chunk size is not above twice the noise event life plus one, or
    /// the reading step is zero.
    InvalidConfig,
    /// A frame does not hold the same atoms as the frames before it.
    InconsistentTrajectory,
    /// Two frames compared for a reaction do not hold the same atoms.
    IncompatibleGraphs,
    /// A step was asked of the scheduler that its state does not allow.
    OutOfTurn,
    /// The fingerprints given for a reaction are not one for each fragment.
    FingerprintCount,
}

impl Error {
    /// What `message` says of the error.
    pub open spec fn message_text(self) -> Seq<char> {
        match self {
            Error::InvalidConfig => "invalid chunk_size/noise_event_life parameters"@,
            Error::InconsistentTrajectory => "atoms changed between frames"@,
            Error::IncompatibleGraphs => "invalid molecule pair for reaction!"@,
            Error::OutOfTurn => "the scheduler is not in the state for this step"@,
            Error::FingerprintCount => "not one fingerprint for each fragment"@,
        }
    }

    /// A short description of the error.
    pub fn message(&self) -> (text: String)
        ensures
            text@ == self.message_text(),
    {
        match self {
            Error::InvalidConfig => String::from_str(
                "invalid chunk_size/noise_event_life parameters",
            ),
            Error::InconsistentTrajectory => String::from_str("atoms changed between frames"),
            Error::IncompatibleGraphs => String::from_str("invalid molecule pair for reaction!"),
            Error::OutOfTurn => String::from_str("the scheduler is not in the state for this step"),
            Error::FingerprintCount => String::from_str("not one fingerprint for each fragment"),
        }
    }
}

/// What happens in one transition between two frames: the fragments before
/// and after it.
#[derive(Debug, Clone, Default)]
pub struct Transformation {
    /// Number of the frame after the transition, within its chunk.
    pub local_frame: usize,
    /// Label of the frame after the transition, within the trajectory.
    pub global_frame: String,
    /// Atoms of each fragment that reacts.
    pub reactants: Vec<Vec<usize>>,
    /// Atoms of each fragment that results.
    pub products: Vec<Vec<usize>>,
    /// The formulas of the reactants, joined by ` + `.
    pub reactants_composition: String,
    /// The formulas of the products, joined by ` + `.
    pub products_composition: String,
}

/// One detected reaction: a transformation with the fingerprint of each of
/// its fragments.
#[derive(Debug, Clone, Default)]
pub struct Reaction {
    /// Number of the frame after the reaction, within its chunk.
    pub local_frame: usize,
    /// Label of the frame after the reaction, within the trajectory.
    pub global_frame: String,
    /// Atoms of each fragment that reacts.
    pub reactants: Vec<Vec<usize>>,
    /// Atoms of each fragment that results.
    pub products: Vec<Vec<usize>>,
    /// The formulas of the reactants, joined by ` + `.
    pub reactants_composition: String,
    /// The formulas of the products, joined by ` + `.
    pub products_composition: String,
    /// One fingerprint for each reactant, in their order.
    pub reactants_fingerprints: Vec<String>,
    /// One fingerprint for each product, in their order.
    pub products_fingerprints: Vec<String>,
}

impl Reaction {
    /// Whether the reaction is `found` with the fingerprints `reactants` of
    /// the fragments that react and `products` of those that result, one
    /// for each fragment.
    pub open spec fn completes(
        self,
        found: Transformation,
        reactants: Seq<String>,
        products: Seq<String>,
    ) -> bool {
        &&& self.local_frame == found.local_frame
        &&& self.global_frame@ == found.global_frame@
        &&& self.reactants@ == found.reactants@
        &&& self.products@ == found.products@
        &&& self.reactants_composition@ == found.reactants_composition@
        &&& self.products_composition@ == found.products_composition@
        &&& self.reactants_fingerprints@ == reactants
        &&& self.products_fingerprints@ == products
        &&& self.reactants_fingerprints@.len() == self.reactants@.len()
        &&& self.products_fingerprints@.len() == self.products@.len()
    }
}

/// Makes the record of a reaction from what was found of it and the
/// fingerprints of its fragments, `reactants` for the fragments that react
/// and `products` for those that result, in the order of the fragments.
/// Fails where there is not one fingerprint for each fragment.
pub fn with_fingerprints(found: Transformation, reactants: Vec<String>, products: Vec<String>) -> (done:
    Result<Reaction, Error>)
    ensures
        done is Ok <==> reactants@.len() == found.reactants@.len() && products@.len()
            == found.products@.len(),
        done matches Err(e) ==> e == Error::FingerprintCount,
        done matches Ok(reaction) ==> reaction.completes(found, reactants@, products@),
{
    if reactants.len() != found.reactants.len() || products.len() != found.products.len() {
        return Err(Error::FingerprintCount);
    }
    Ok(
        Reaction {
            local_frame: found.local_frame,
            global_frame: found.global_frame,
            reactants: found.reactants,
            products: found.products,
            reactants_composition: found.reactants_composition,
            products_composition: found.products_composition,
            reactants_fingerprints: reactants,
            products_fingerprints: products,
        },
    )
}

/// The bonds of `after` that `before` does not hold.
pub open spec fn bonds_gained(before: MoleculeView, after: MoleculeView) -> Set<(int, int)> {
    after.bonds.difference(before.bonds)
}

/// Whether one of `bonds` holds atom `a`.
pub open spec fn touches(bonds: Set<(int, int)>, a: int) -> bool {
    exists|b: int|
        #![trigger bonds.contains((a, b))]
        #![trigger bonds.contains((b, a))]
        bonds.contains((a, b)) || bonds.contains((b, a))
}

/// Whether `a` is the first atom of one of `bonds`.
pub open spec fn starts(bonds: Set<(int, int)>, a: int) -> bool {
    exists|b: int| bonds.contains((a, b))
}

/// The atoms whose fragments, in the frame before, take part in a reaction:
/// both atoms of every forming bond, and the first atom of every breaking
/// bond.
pub open spec fn reactant_seeds(forming: Set<(int, int)>, breaking: Set<(int, int)>) -> Set<int> {
    Set::new(|a: int| touches(forming, a) || starts(breaking, a))
}

/// The atoms whose fragments, in the frame after, take part in a reaction:
/// the first atom of every forming bond, and both atoms of every breaking
/// bond.
pub open spec fn product_seeds(forming: Set<(int, int)>, breaking: Set<(int, int)>) -> Set<int> {
    reactant_seeds(breaking, forming)
}

/// Fragments held in machine integers, as lists of mathematical integers.
pub open spec fn fragments_view(fragments: Seq<Vec<usize>>) -> Seq<Seq<int>> {
    Seq::new(fragments.len(), |k: int| numbers_view(fragments[k]@))
}

/// Whether `fragments` lists the fragments of `mol` that hold one of
/// `seeds`: each fragment once, its atoms ascending, the fragments in the
/// order of their smallest atoms.
#[verifier::opaque]
pub open spec fn lists_fragments(
    fragments: Seq<Seq<int>>,
    mol: MoleculeView,
    seeds: Set<int>,
) -> bool {
    &&& forall|k: int|
        0 <= k < fragments.len() ==> (#[trigger] fragments[k]).len() > 0 && lists_numbers(
            fragments[k],
            mol.fragment(fragments[k][0]),
        ) && exists|s: int| seeds.contains(s) && #[trigger] mol.connected(fragments[k][0], s)
    &&& forall|j: int, k: int|
        0 <= j < k < fragments.len() ==> (#[trigger] fragments[j])[0] < (#[trigger] fragments[k])[0]
    &&& forall|s: int|
        seeds.contains(s) ==> exists|k: int|
            0 <= k < fragments.len() && (#[trigger] fragments[k]).contains(s)
}

/// Element symbols of the atoms `atoms`, in their order.
pub open spec fn symbols_at(symbols: Seq<Seq<char>>, atoms: Seq<int>) -> Seq<Seq<char>> {
    Seq::new(atoms.len(), |i: int| symbols[atoms[i] - 1])
}

/// Formula of each of `fragments`, in their order.
pub open spec fn fragment_formulas(symbols: Seq<Seq<char>>, fragments: Seq<Seq<int>>) -> Seq<
    Seq<char>,
> {
    Seq::new(fragments.len(), |k: int| formula_text(symbols_at(symbols, fragments[k])))
}

/// Whether `reaction` describes what happens from frame `before` to frame
/// `after`, but for the number and the label of its frame. Where no bond
/// forms or breaks, all of it is empty.
pub open spec fn is_reaction_between(
    reaction: Transformation,
    before: MoleculeView,
    after: MoleculeView,
) -> bool {
    let forming = bonds_gained(before, after);
    let breaking = bonds_gained(after, before);
    let reactants = fragments_view(reaction.reactants@);
    let products = fragments_view(reaction.products@);
    &&& lists_fragments(reactants, before, reactant_seeds(forming, breaking))
    &&& lists_fragments(products, after, product_seeds(forming, breaking))
    &&& reaction.reactants_composition@ == composition_text(
        fragment_formulas(before.symbols, reactants),
    )
    &&& reaction.products_composition@ == composition_text(
        fragment_formulas(after.symbols, products),
    )
}

/// Finds the bonds that differ between two frames: those that `mol2` holds
/// and `mol1` does not (forming), and those that `mol1` holds and `mol2`
/// does not (breaking); each list in ascending order.
pub fn get_bonding_changes(mol1: &Molecule, mol2: &Molecule) -> (changes: (
    Vec<[usize; 2]>,
    Vec<[usize; 2]>,
))
    ensures
        lists_pairs(pairs_view(changes.0@), bonds_gained(mol1@, mol2@)),
        lists_pairs(pairs_view(changes.1@), bonds_gained(mol2@, mol1@)),
{
    let forming = bonds_missing(mol1, mol2);
    let breaking = bonds_missing(mol2, mol1);
    (forming, breaking)
}

/// The bonds of `theirs` that `ours` does not hold, in ascending order.
fn bonds_missing(ours: &Molecule, theirs: &Molecule) -> (missing: Vec<[usize; 2]>)
    ensures
        lists_pairs(pairs_view(missing@), bonds_gained(ours@, theirs@)),
{
    let bonds = theirs.bonds();
    let _ = theirs.natoms();
    let _ = ours.natoms();
    let ghost listed = pairs_view(bonds@);
    let ghost goal = bonds_gained(ours@, theirs@);
    let mut missing: Vec<[usize; 2]> = Vec::new();
    let ghost mut picked: Seq<int> = Seq::empty();
    let mut k: usize = 0;
    while k < bonds.len()
        invariant
            listed == pairs_view(bonds@),
            lists_pairs(listed, theirs@.bonds),
            theirs@.wf(),
            ours@.wf(),
            goal == bonds_gained(ours@, theirs@),
            k <= bonds@.len(),
            picked.len() == missing@.len(),
            forall|j: int|
                0 <= j < picked.len() ==> 0 <= #[trigger] picked[j] < k && pairs_view(missing@)[j]
                    == listed[picked[j]] && goal.contains(listed[picked[j]]),
            forall|i: int, j: int| 0 <= i < j < picked.len() ==> picked[i] < picked[j],
            forall|h: int| 0 <= h < k && goal.contains(#[trigger] listed[h]) ==> picked.contains(h),
        decreases bonds@.len() - k,
    {
        let bond = bonds[k];
        proof {
            assert(theirs@.bonds.contains(listed[k as int]));
            assert(listed[k as int] == (bond[0] as int, bond[1] as int));
        }
        if ours.has_bond(bond[0], bond[1]) {
            assert(ours@.bonds.contains(listed[k as int]));
        } else {
            let ghost held = picked;
            missing.push(bond);
            proof {
                picked = picked.push(k as int);
                assert forall|h: int|
                    0 <= h < k + 1 && goal.contains(#[trigger] listed[h]) implies picked.contains(
                    h,
                ) by {
                    if h < k {
                        let j = choose|j: int| 0 <= j < held.len() && held[j] == h;
                        assert(picked[j] == h);
                    } else {
                        assert(picked[held.len() as int] == h);
                    }
                }
            }
        }
        k += 1;
    }
    proof {
        let found = pairs_view(missing@);
        assert forall|i: int, j: int| 0 <= i < j < found.len() implies pair_lt(found[i], found[j]) by {
            assert(picked[i] < picked[j]);
            assert(pair_lt(listed[picked[i]], listed[picked[j]]));
        }
        assert forall|k: int| 0 <= k < found.len() implies goal.contains(#[trigger] found[k]) by {
            assert(goal.contains(listed[picked[k]]));
        }
        assert forall|p: (int, int)| goal.contains(p) implies found.contains(p) by {
            assert(listed.contains(p));
            let h = choose|h: int| 0 <= h < listed.len() && listed[h] == p;
            let j = choose|j: int| 0 <= j < picked.len() && picked[j] == h;
            assert(found[j] == p);
        }
    }
    missing
}

/// The fragments that take part in a reaction, and the bonds that change.
#[derive(Debug)]
pub struct Mechanism {
    /// Atoms of each fragment that reacts.
    pub reactants: Vec<Vec<usize>>,
    /// Atoms of each fragment that results.
    pub products: Vec<Vec<usize>>,
    /// The bonds that form.
    pub forming: Vec<[usize; 2]>,
    /// The bonds that break.
    pub breaking: Vec<[usize; 2]>,
}

/// Lists the atoms whose fragments take part: both atoms of each bond in
/// `both`, and the first atom of each bond in `first`.
fn seeds_of(
    both: &Vec<[usize; 2]>,
    first: &Vec<[usize; 2]>,
    Ghost(forming): Ghost<Set<(int, int)>>,
    Ghost(breaking): Ghost<Set<(int, int)>>,
) -> (seeds: Vec<usize>)
    requires
        lists_pairs(pairs_view(both@), forming),
        lists_pairs(pairs_view(first@), breaking),
    ensures
        numbers_view(seeds@).to_set() == reactant_seeds(forming, breaking),
{
    let ghost listed_both = pairs_view(both@);
    let ghost listed_first = pairs_view(first@);
    let mut seeds: Vec<usize> = Vec::new();
    let mut k: usize = 0;
    while k < both.len()
        invariant
            k <= both@.len(),
            listed_both == pairs_view(both@),
            seeds@.len() == 2 * k,
            forall|j: int|
                0 <= j < k ==> seeds@[2 * j] == (#[trigger] both@[j])[0] && seeds@[2 * j + 1]
                    == both@[j][1],
        decreases both@.len() - k,
    {
        seeds.push(both[k][0]);
        seeds.push(both[k][1]);
        k += 1;
    }
    let ghost mid = seeds@.len() as int;
    let mut k: usize = 0;
    while k < first.len()
        invariant
            k <= first@.len(),
            mid == 2 * both@.len(),
            seeds@.len() == mid + k,
            forall|j: int|
                0 <= j < both@.len() ==> seeds@[2 * j] == (#[trigger] both@[j])[0] && seeds@[2 * j
                    + 1] == both@[j][1],
            forall|j: int| 0 <= j < k ==> seeds@[mid + j] == (#[trigger] first@[j])[0],
        decreases first@.len() - k,
    {
        seeds.push(first[k][0]);
        k += 1;
    }
    proof {
        let listed = numbers_view(seeds@);
        let goal = reactant_seeds(forming, breaking);
        assert forall|a: int| listed.to_set().contains(a) <==> goal.contains(a) by {
            if listed.contains(a) {
                let i = choose|i: int| 0 <= i < listed.len() && listed[i] == a;
                if i < mid {
                    let j = i / 2;
                    let p = listed_both[j];
                    assert(both@[j][0] == seeds@[2 * j]);
                    assert(forming.contains(p));
                    assert(forming.contains((p.0, p.1)));
                    assert(touches(forming, a));
                } else {
                    let j = i - mid;
                    let p = listed_first[j];
                    assert(first@[j][0] == seeds@[mid + j]);
                    assert(breaking.contains((a, p.1)));
                    assert(starts(breaking, a));
                }
            }
            if touches(forming, a) {
                let b = choose|b: int|
                    #![trigger forming.contains((a, b))]
                    #![trigger forming.contains((b, a))]
                    forming.contains((a, b)) || forming.contains((b, a));
                let p = if forming.contains((a, b)) {
                    (a, b)
                } else {
                    (b, a)
                };
                assert(listed_both.contains(p));
                let j = choose|j: int| 0 <= j < listed_both.len() && listed_both[j] == p;
                assert(both@[j][0] == seeds@[2 * j]);
                assert(listed[2 * j] == p.0 && listed[2 * j + 1] == p.1);
            }
            if starts(breaking, a) {
                let b = choose|b: int| breaking.contains((a, b));
                assert(listed_first.contains((a, b)));
                let j = choose|j: int| 0 <= j < listed_first.len() && listed_first[j] == (a, b);
                assert(first@[j][0] == seeds@[mid + j]);
                assert(listed[mid + j] == a);
            }
        }
        assert(listed.to_set() =~= goal);
    }
    seeds
}

/// Whether one of `fragments` holds atom `a`.
spec fn holds_atom(fragments: Seq<Vec<usize>>, a: int) -> bool {
    exists|k: int| 0 <= k < fragments.len() && numbers_view((#[trigger] fragments[k])@).contains(a)
}

/// Lists the fragments of `mol` that hold one of `seeds`, see
/// `lists_fragments`.
fn collect_fragments(mol: &Molecule, seeds: &Vec<usize>) -> (fragments: Vec<Vec<usize>>)
    requires
        forall|k: int| 0 <= k < seeds@.len() ==> mol@.has_atom(#[trigger] seeds@[k] as int),
    ensures
        lists_fragments(fragments_view(fragments@), mol@, numbers_view(seeds@).to_set()),
        forall|k: int, i: int|
            0 <= k < fragments@.len() && 0 <= i < fragments@[k]@.len() ==> mol@.has_atom(
                #[trigger] fragments@[k]@[i] as int,
            ),
{
    let ghost goal = numbers_view(seeds@).to_set();
    let mut fragments: Vec<Vec<usize>> = Vec::new();
    let mut i: usize = 0;
    while i < seeds.len()
        invariant
            i <= seeds@.len(),
            goal == numbers_view(seeds@).to_set(),
            forall|k: int| 0 <= k < seeds@.len() ==> mol@.has_atom(#[trigger] seeds@[k] as int),
            forall|k: int|
                0 <= k < fragments@.len() ==> (#[trigger] fragments@[k])@.len() > 0
                    && lists_numbers(
                    numbers_view(fragments@[k]@),
                    mol@.fragment(fragments@[k]@[0] as int),
                ) && exists|s: int|
                    goal.contains(s) && #[trigger] mol@.connected(fragments@[k]@[0] as int, s),
            forall|j: int, k: int|
                0 <= j < k < fragments@.len() ==> (#[trigger] fragments@[j])@[0] < (
                #[trigger] fragments@[k])@[0],
            forall|h: int| 0 <= h < i ==> holds_atom(fragments@, #[trigger] seeds@[h] as int),
            forall|k: int, i: int|
                0 <= k < fragments@.len() && 0 <= i < fragments@[k]@.len() ==> mol@.has_atom(
                    #[trigger] fragments@[k]@[i] as int,
                ),
        decreases seeds@.len() - i,
    {
        let seed = seeds[i];
        let fragment = mol.connected_fragment_atoms(seed);
        let ghost atoms = numbers_view(fragment@);
        let ghost held = fragments@;
        proof {
            lemma_connected_refl(mol@, seed as int);
            assert(atoms.contains(seed as int));
            assert(atoms.len() > 0);
            assert(mol@.fragment(seed as int).contains(atoms[0]));
            lemma_fragment_shared(mol@, seed as int, atoms[0]);
            lemma_connected_sym(mol@, seed as int, atoms[0]);
            assert(numbers_view(seeds@)[i as int] == seed);
            assert(goal.contains(seed as int));
        }
        let first = fragment[0];
        let mut k: usize = 0;
        while k < fragments.len() && fragments[k][0] < first
            invariant
                k <= fragments@.len(),
                fragments@ == held,
                forall|j: int| 0 <= j < fragments@.len() ==> (#[trigger] fragments@[j])@.len() > 0,
                forall|j: int| 0 <= j < k ==> (#[trigger] fragments@[j])@[0] < first,
            decreases fragments@.len() - k,
        {
            k += 1;
        }
        if k < fragments.len() && fragments[k][0] == first {
            proof {
                // the fragment found is listed already
                let listed = numbers_view(held[k as int]@);
                assert(mol@.fragment(held[k as int]@[0] as int).contains(seed as int));
                assert(listed.contains(seed as int));
                assert(holds_atom(fragments@, seeds@[i as int] as int));
            }
        } else {
            fragments.insert(k, fragment);
            proof {
                let grown = fragments@;
                assert(grown[k as int]@ == fragment@);
                assert forall|j: int| 0 <= j < grown.len() implies (#[trigger] grown[j])@.len() > 0
                    && lists_numbers(
                    numbers_view(grown[j]@),
                    mol@.fragment(grown[j]@[0] as int),
                ) && exists|s: int|
                    goal.contains(s) && #[trigger] mol@.connected(grown[j]@[0] as int, s) by {
                    if j < k {
                        assert(grown[j] == held[j]);
                    } else if j > k {
                        assert(grown[j] == held[j - 1]);
                    } else {
                        assert(mol@.connected(atoms[0], seed as int));
                    }
                }
                assert forall|j: int, h: int| 0 <= j < h < grown.len() implies (
                #[trigger] grown[j])@[0] < (#[trigger] grown[h])@[0] by {
                    if h < k {
                        assert(grown[j] == held[j] && grown[h] == held[h]);
                    } else if h == k {
                        assert(grown[j] == held[j]);
                    } else if j < k {
                        assert(grown[j] == held[j] && grown[h] == held[h - 1]);
                    } else if j == k {
                        assert(grown[h] == held[h - 1]);
                        if h - 1 > k {
                            assert(held[k as int]@[0] < held[h - 1]@[0]);
                        }
                    } else {
                        assert(grown[j] == held[j - 1] && grown[h] == held[h - 1]);
                    }
                }
                assert forall|h: int| 0 <= h < i + 1 implies holds_atom(
                    grown,
                    #[trigger] seeds@[h] as int,
                ) by {
                    if h < i {
                        assert(holds_atom(held, seeds@[h] as int));
                        let j = choose|j: int|
                            0 <= j < held.len() && numbers_view((#[trigger] held[j])@).contains(
                                seeds@[h] as int,
                            );
                        if j < k {
                            assert(grown[j] == held[j]);
                        } else {
                            assert(grown[j + 1] == held[j]);
                        }
                    } else {
                        assert(numbers_view(grown[k as int]@).contains(seed as int));
                    }
                }
                assert forall|j: int, i: int|
                    0 <= j < grown.len() && 0 <= i < grown[j]@.len() implies mol@.has_atom(
                    #[trigger] grown[j]@[i] as int,
                ) by {
                    if j < k {
                        assert(grown[j] == held[j]);
                    } else if j > k {
                        assert(grown[j] == held[j - 1]);
                    }
                }
            }
        }
        i += 1;
    }
    proof {
        reveal(lists_fragments);
        let listed = fragments_view(fragments@);
        assert forall|k: int| 0 <= k < listed.len() implies (#[trigger] listed[k]).len() > 0
            && lists_numbers(listed[k], mol@.fragment(listed[k][0])) && exists|s: int|
            goal.contains(s) && #[trigger] mol@.connected(listed[k][0], s) by {
            assert(fragments@[k]@.len() > 0);
            let s = choose|s: int|
                goal.contains(s) && #[trigger] mol@.connected(fragments@[k]@[0] as int, s);
            assert(mol@.connected(listed[k][0], s));
        }
        assert forall|j: int, k: int| 0 <= j < k < listed.len() implies (#[trigger] listed[j])[0] < (
        #[trigger] listed[k])[0] by {
            assert(fragments@[j]@[0] < fragments@[k]@[0]);
        }
        assert forall|s: int| goal.contains(s) implies exists|k: int|
            0 <= k < listed.len() && (#[trigger] listed[k]).contains(s) by {
            let h = choose|h: int| 0 <= h < seeds@.len() && numbers_view(seeds@)[h] == s;
            assert(holds_atom(fragments@, seeds@[h] as int));
            let k = choose|k: int|
                0 <= k < fragments@.len() && numbers_view((#[trigger] fragments@[k])@).contains(
                    seeds@[h] as int,
                );
            assert(listed[k].contains(s));
        }
    }
    fragments
}

/// An atom of a bond of one of two frames with the same atoms is an atom of
/// both.
proof fn lemma_seed_is_atom(
    one: MoleculeView,
    other: MoleculeView,
    both: Set<(int, int)>,
    first: Set<(int, int)>,
    a: int,
)
    requires
        one.wf(),
        other.wf(),
        one.symbols == other.symbols,
        both.subset_of(one.bonds.union(other.bonds)),
        first.subset_of(one.bonds.union(other.bonds)),
        reactant_seeds(both, first).contains(a),
    ensures
        one.has_atom(a),
        other.has_atom(a),
{
    if touches(both, a) {
        let b = choose|b: int|
            #![trigger both.contains((a, b))]
            #![trigger both.contains((b, a))]
            both.contains((a, b)) || both.contains((b, a));
        let p = if both.contains((a, b)) {
            (a, b)
        } else {
            (b, a)
        };
        assert(one.bonds.union(other.bonds).contains(p));
    } else {
        let b = choose|b: int| first.contains((a, b));
        assert(one.bonds.union(other.bonds).contains((a, b)));
    }
}

/// Detects the reaction between `mol1` and `mol2` from the changes of bond
/// connectivity: the fragments of `mol1` that react, those of `mol2` that
/// result, and the bonds that form and break. Fails where the two do not
/// hold the same atoms.
pub fn get_reaction_mechanism(mol1: &Molecule, mol2: &Molecule) -> (found: Result<Mechanism, Error>)
    ensures
        found is Err <==> mol1@.symbols != mol2@.symbols,
        found matches Err(e) ==> e == Error::IncompatibleGraphs,
        found matches Ok(m) ==> {
            let forming = bonds_gained(mol1@, mol2@);
            let breaking = bonds_gained(mol2@, mol1@);
            &&& lists_pairs(pairs_view(m.forming@), forming)
            &&& lists_pairs(pairs_view(m.breaking@), breaking)
            &&& lists_fragments(
                fragments_view(m.reactants@),
                mol1@,
                reactant_seeds(forming, breaking),
            )
            &&& lists_fragments(fragments_view(m.products@), mol2@, product_seeds(forming, breaking))
            &&& forall|k: int, i: int|
                0 <= k < m.reactants@.len() && 0 <= i < m.reactants@[k]@.len() ==> mol1@.has_atom(
                    #[trigger] m.reactants@[k]@[i] as int,
                )
            &&& forall|k: int, i: int|
                0 <= k < m.products@.len() && 0 <= i < m.products@[k]@.len() ==> mol2@.has_atom(
                    #[trigger] m.products@[k]@[i] as int,
                )
        },
{
    if !mol1.matching_configuration(mol2) {
        return Err(Error::IncompatibleGraphs);
    }
    let (forming, breaking) = get_bonding_changes(mol1, mol2);
    let ghost gained = bonds_gained(mol1@, mol2@);
    let ghost lost = bonds_gained(mol2@, mol1@);
    let _ = mol1.natoms();
    let _ = mol2.natoms();
    let seeds1 = seeds_of(&forming, &breaking, Ghost(gained), Ghost(lost));
    let seeds2 = seeds_of(&breaking, &forming, Ghost(lost), Ghost(gained));
    proof {
        assert forall|k: int| 0 <= k < seeds1@.len() implies mol1@.has_atom(
            #[trigger] seeds1@[k] as int,
        ) by {
            let a = numbers_view(seeds1@)[k];
            assert(numbers_view(seeds1@).to_set().contains(a));
            lemma_seed_is_atom(mol1@, mol2@, gained, lost, a);
        }
        assert forall|k: int| 0 <= k < seeds2@.len() implies mol2@.has_atom(
            #[trigger] seeds2@[k] as int,
        ) by {
            let a = numbers_view(seeds2@)[k];
            assert(numbers_view(seeds2@).to_set().contains(a));
            lemma_seed_is_atom(mol1@, mol2@, lost, gained, a);
        }
    }
    let reactants = collect_fragments(mol1, &seeds1);
    let products = collect_fragments(mol2, &seeds2);
    Ok(Mechanism { reactants, products, forming, breaking })
}

/// The formula of the atoms `atoms` of `mol`.
fn fragment_formula(mol: &Molecule, atoms: &Vec<usize>) -> (formula: String)
    requires
        forall|i: int| 0 <= i < atoms@.len() ==> mol@.has_atom(#[trigger] atoms@[i] as int),
    ensures
        formula@ == formula_text(symbols_at(mol@.symbols, numbers_view(atoms@))),
{
    let mut symbols: Vec<&str> = Vec::new();
    let mut i: usize = 0;
    while i < atoms.len()
        invariant
            i <= atoms@.len(),
            symbols@.len() == i,
            forall|j: int| 0 <= j < atoms@.len() ==> mol@.has_atom(#[trigger] atoms@[j] as int),
            forall|j: int| 0 <= j < i ==> (#[trigger] symbols@[j])@ == mol@.symbols[atoms@[j] - 1],
        decreases atoms@.len() - i,
    {
        symbols.push(mol.symbol(atoms[i]).as_str());
        i += 1;
    }
    assert(texts_of(symbols@) =~= symbols_at(mol@.symbols, numbers_view(atoms@)));
    get_reduced_formula(symbols.as_slice())
}

/// The composition of the fragments `fragments` of `mol`: their different
/// formulas in alphabetical order, joined by ` + `.
fn fragments_composition(mol: &Molecule, fragments: &Vec<Vec<usize>>) -> (composition: String)
    requires
        forall|k: int, i: int|
            0 <= k < fragments@.len() && 0 <= i < fragments@[k]@.len() ==> mol@.has_atom(
                #[trigger] fragments@[k]@[i] as int,
            ),
    ensures
        composition@ == composition_text(
            fragment_formulas(mol@.symbols, fragments_view(fragments@)),
        ),
{
    let ghost goal = fragment_formulas(mol@.symbols, fragments_view(fragments@));
    let mut formulas: Vec<String> = Vec::new();
    let mut k: usize = 0;
    while k < fragments.len()
        invariant
            k <= fragments@.len(),
            formulas@.len() == k,
            goal == fragment_formulas(mol@.symbols, fragments_view(fragments@)),
            forall|k: int, i: int|
                0 <= k < fragments@.len() && 0 <= i < fragments@[k]@.len() ==> mol@.has_atom(
                    #[trigger] fragments@[k]@[i] as int,
                ),
            forall|j: int| 0 <= j < k ==> (#[trigger] formulas@[j])@ == goal[j],
        decreases fragments@.len() - k,
    {
        formulas.push(fragment_formula(mol, &fragments[k]));
        k += 1;
    }
    let mut texts: Vec<&str> = Vec::new();
    let mut k: usize = 0;
    while k < formulas.len()
        invariant
            k <= formulas@.len(),
            texts@.len() == k,
            forall|j: int| 0 <= j < k ==> (#[trigger] texts@[j])@ == formulas@[j]@,
        decreases formulas@.len() - k,
    {
        texts.push(formulas[k].as_str());
        k += 1;
    }
    assert(texts_of(texts@) =~= goal);
    get_composition(texts.as_slice())
}

/// Finds the reaction from frame `mol1` to frame `mol2`: the fragments that
/// react and those that result, and their compositions. The number and the
/// label of the frame are left at zero and empty. Where no bond forms or
/// breaks, there are no fragments. Fails where the two frames do not hold
/// the same atoms.
pub fn get_reaction(mol1: &Molecule, mol2: &Molecule) -> (found: Result<Transformation, Error>)
    ensures
        found is Err <==> mol1@.symbols != mol2@.symbols,
        found matches Err(e) ==> e == Error::IncompatibleGraphs,
        found matches Ok(reaction) ==> is_reaction_between(reaction, mol1@, mol2@)
            && reaction.local_frame == 0 && reaction.global_frame@.len() == 0,
{
    let mechanism = match get_reaction_mechanism(mol1, mol2) {
        Ok(mechanism) => mechanism,
        Err(e) => {
            return Err(e);
        },
    };
    let reactants_composition = fragments_composition(mol1, &mechanism.reactants);
    let products_composition = fragments_composition(mol2, &mechanism.products);
    Ok(
        Transformation {
            local_frame: 0,
            global_frame: String::new(),
            reactants: mechanism.reactants,
            products: mechanism.products,
            reactants_composition,
            products_composition,
        },
    )
}

/// The text of a reaction: the composition of the reactants, ` => `, the
/// composition of the products; empty where there are no reactants or no
/// products.
pub open spec fn reaction_text(reactants: Seq<char>, products: Seq<char>, either_empty: bool) -> Seq<
    char,
> {
    if either_empty {
        Seq::empty()
    } else {
        reactants + seq![' ', '=', '>', ' '] + products
    }
}

/// Renders a reaction as one line, see `reaction_text`.
fn reaction_line(reaction: &Transformation) -> (text: String)
    ensures
        text@ == reaction_text(
            reaction.reactants_composition@,
            reaction.products_composition@,
            reaction.reactants@.len() == 0 || reaction.products@.len() == 0,
        ),
{
    let mut text = String::new();
    if reaction.reactants.len() > 0 && reaction.products.len() > 0 {
        text.append(reaction.reactants_composition.as_str());
        proof {
            reveal_strlit(" => ");
        }
        text.append(" => ");
        text.append(reaction.products_composition.as_str());
        assert(text@ =~= reaction.reactants_composition@ + seq![' ', '=', '>', ' ']
            + reaction.products_composition@);
    } else {
        assert(text@ =~= Seq::<char>::empty());
    }
    text
}

/// Return chemical reaction composition between `mol1` and `mol2` by
/// analysis of bond changes between `mol1` and `mol2`: the composition of
/// the reactants, ` => `, and the composition of the products. Empty where
/// no bond forms or breaks.
pub fn get_reaction_composition(mol1: &Molecule, mol2: &Molecule) -> (found: Result<String, Error>)
    ensures
        found is Err <==> mol1@.symbols != mol2@.symbols,
        found matches Err(e) ==> e == Error::IncompatibleGraphs,
        found matches Ok(text) ==> exists|reaction: Transformation|
            is_reaction_between(reaction, mol1@, mol2@) && text@ == reaction_text(
                reaction.reactants_composition@,
                reaction.products_composition@,
                reaction.reactants@.len() == 0 || reaction.products@.len() == 0,
            ),
        found matches Ok(text) ==> forall|reaction: Transformation| #[trigger]
            is_reaction_between(reaction, mol1@, mol2@) ==> text@ == reaction_text(
                reaction.reactants_composition@,
                reaction.products_composition@,
                reaction.reactants@.len() == 0 || reaction.products@.len() == 0,
            ),
{
    let reaction = match get_reaction(mol1, mol2) {
        Ok(reaction) => reaction,
        Err(e) => {
            return Err(e);
        },
    };
    let text = reaction_line(&reaction);
    proof {
        assert forall|other: Transformation| #[trigger]
            is_reaction_between(other, mol1@, mol2@) implies text@ == reaction_text(
            other.reactants_composition@,
            other.products_composition@,
            other.reactants@.len() == 0 || other.products@.len() == 0,
        ) by {
            lemma_reaction_determined(reaction, other, mol1@, mol2@);
            assert(fragments_view(reaction.reactants@).len() == fragments_view(
                other.reactants@,
            ).len());
            assert(fragments_view(reaction.products@).len() == fragments_view(
                other.products@,
            ).len());
        }
    }
    Ok(text)
}

/// Fragments are listed exactly where there is a seed.
pub proof fn lemma_fragments_empty(fragments: Seq<Seq<int>>, mol: MoleculeView, seeds: Set<int>)
    requires
        lists_fragments(fragments, mol, seeds),
    ensures
        fragments.len() > 0 <==> exists|s: int| seeds.contains(s),
{
    reveal(lists_fragments);
    if fragments.len() > 0 {
        let f = fragments[0];
        let s = choose|s: int| seeds.contains(s) && #[trigger] mol.connected(f[0], s);
        assert(seeds.contains(s));
    }
    if exists|s: int| seeds.contains(s) {
        let s = choose|s: int| seeds.contains(s);
        let k = choose|k: int| 0 <= k < fragments.len() && (#[trigger] fragments[k]).contains(s);
    }
}

/// There is a seed exactly where a bond forms or breaks.
pub proof fn lemma_seeds_empty(forming: Set<(int, int)>, breaking: Set<(int, int)>)
    ensures
        (exists|s: int| reactant_seeds(forming, breaking).contains(s)) <==> (exists|p: (int, int)|
            forming.contains(p) || breaking.contains(p)),
{
    if exists|s: int| reactant_seeds(forming, breaking).contains(s) {
        let s = choose|s: int| reactant_seeds(forming, breaking).contains(s);
        if touches(forming, s) {
            let b = choose|b: int|
                #![trigger forming.contains((s, b))]
                #![trigger forming.contains((b, s))]
                forming.contains((s, b)) || forming.contains((b, s));
            let p = if forming.contains((s, b)) {
                (s, b)
            } else {
                (b, s)
            };
            assert(forming.contains(p) || breaking.contains(p));
        } else {
            let b = choose|b: int| breaking.contains((s, b));
            assert(forming.contains((s, b)) || breaking.contains((s, b)));
        }
    }
    if exists|p: (int, int)| forming.contains(p) || breaking.contains(p) {
        let p = choose|p: (int, int)| forming.contains(p) || breaking.contains(p);
        if forming.contains(p) {
            assert(forming.contains((p.0, p.1)));
            assert(touches(forming, p.0));
        } else {
            assert(breaking.contains((p.0, p.1)));
            assert(starts(breaking, p.0));
        }
        assert(reactant_seeds(forming, breaking).contains(p.0));
    }
}

/// A reaction holds reactants, and products, exactly if the bonds of the
/// two frames differ.
pub proof fn lemma_reaction_empty(reaction: Transformation, before: MoleculeView, after: MoleculeView)
    requires
        is_reaction_between(reaction, before, after),
    ensures
        reaction.reactants@.len() > 0 <==> before.bonds != after.bonds,
        reaction.products@.len() > 0 <==> before.bonds != after.bonds,
{
    let forming = bonds_gained(before, after);
    let breaking = bonds_gained(after, before);
    lemma_fragments_empty(
        fragments_view(reaction.reactants@),
        before,
        reactant_seeds(forming, breaking),
    );
    lemma_fragments_empty(fragments_view(reaction.products@), after, product_seeds(forming, breaking));
    lemma_seeds_empty(forming, breaking);
    lemma_seeds_empty(breaking, forming);
    if before.bonds != after.bonds {
        assert(!(before.bonds =~= after.bonds));
        let p = choose|p: (int, int)| before.bonds.contains(p) != after.bonds.contains(p);
        assert(forming.contains(p) || breaking.contains(p));
    }
    if exists|p: (int, int)| forming.contains(p) || breaking.contains(p) {
        let p = choose|p: (int, int)| forming.contains(p) || breaking.contains(p);
        assert(before.bonds.contains(p) != after.bonds.contains(p));
    }
}

} // verus!
