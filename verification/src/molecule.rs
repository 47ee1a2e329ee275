//! The atoms of one frame and the bonds between them.
//!
//! Atoms are numbered from 1 in the order of the frame, and keep their number
//! and their element through a trajectory. A bond is an unordered pair of two
//! different atoms; it is held in canonical form.
use crate::pairs::{canonical, lists_numbers, lists_pairs, numbers_view, ordered, pair_lt, pairs_view};
use vstd::prelude::*;
use vstd::set_lib::{lemma_int_range, lemma_len_subset, set_int_range};

verus! {

/// What a `Molecule` holds.
pub struct MoleculeView {
    /// Label of the frame.
    pub title: Seq<char>,
    /// Element symbol of each atom; that of atom `a` stands at `a - 1`.
    pub symbols: Seq<Seq<char>>,
    /// The bonds, each as the pair of its atoms in canonical form.
    pub bonds: Set<(int, int)>,
}

impl MoleculeView {
    /// Number of atoms.
    pub open spec fn natoms(self) -> nat {
        self.symbols.len()
    }

    /// Whether `a` is the number of an atom.
    pub open spec fn has_atom(self, a: int) -> bool {
        1 <= a <= self.natoms()
    }

    /// Finitely many bonds, each between two different atoms, the smaller
    /// number first.
    pub open spec fn wf(self) -> bool {
        &&& self.bonds.finite()
        &&& forall|p: (int, int)| #[trigger] self.bonds.contains(p) ==> 1 <= p.0 < p.1 <= self.natoms()
    }

    /// Whether atoms `a` and `b` are bonded to each other.
    pub open spec fn bonded(self, a: int, b: int) -> bool {
        self.bonds.contains((a, b)) || self.bonds.contains((b, a))
    }

    /// Whether each atom of `walk` is bonded to the next one.
    pub open spec fn is_walk(self, walk: Seq<int>) -> bool {
        &&& walk.len() >= 1
        &&& forall|i: int| 0 <= i < walk.len() - 1 ==> self.bonded(#[trigger] walk[i], walk[i + 1])
    }

    /// Whether a walk along bonds leads from `a` to `b`.
    pub open spec fn connected(self, a: int, b: int) -> bool {
        exists|walk: Seq<int>| #[trigger] self.is_walk(walk) && walk[0] == a && walk.last() == b
    }

    /// The fragment of `a`: all atoms connected with it.
    pub open spec fn fragment(self, a: int) -> Set<int> {
        Set::new(|b: int| self.connected(a, b))
    }

    /// Whether `members` is closed under bonds: every atom bonded to a
    /// member is a member.
    pub open spec fn closed_under_bonds(self, members: Set<int>) -> bool {
        forall|x: int, y: int| members.contains(x) && #[trigger] self.bonded(x, y) ==> members.contains(y)
    }
}

/// Every atom is connected with itself.
pub proof fn lemma_connected_refl(mol: MoleculeView, a: int)
    ensures
        mol.connected(a, a),
{
    let walk = seq![a];
    assert(mol.is_walk(walk) && walk[0] == a && walk.last() == a);
}

/// A walk can be extended by a bond at its end.
pub proof fn lemma_connected_step(mol: MoleculeView, a: int, b: int, c: int)
    requires
        mol.connected(a, b),
        mol.bonded(b, c),
    ensures
        mol.connected(a, c),
{
    let walk = choose|walk: Seq<int>| #[trigger] mol.is_walk(walk) && walk[0] == a && walk.last() == b;
    let longer = walk.push(c);
    assert forall|i: int| 0 <= i < longer.len() - 1 implies mol.bonded(
        #[trigger] longer[i],
        longer[i + 1],
    ) by {
        if i < walk.len() - 1 {
            assert(mol.bonded(walk[i], walk[i + 1]));
        }
    }
    assert(mol.is_walk(longer) && longer[0] == a && longer.last() == c);
}

/// A set that holds `a` and is closed under bonds holds the fragment of `a`.
pub proof fn lemma_closed_holds_fragment(mol: MoleculeView, a: int, members: Set<int>)
    requires
        members.contains(a),
        mol.closed_under_bonds(members),
    ensures
        forall|b: int| mol.connected(a, b) ==> members.contains(b),
{
    assert forall|b: int| mol.connected(a, b) implies members.contains(b) by {
        let walk = choose|walk: Seq<int>| #[trigger]
            mol.is_walk(walk) && walk[0] == a && walk.last() == b;
        lemma_walk_stays(mol, walk, members, walk.len() - 1);
    }
}

/// A walk that starts in a set closed under bonds stays in it.
proof fn lemma_walk_stays(mol: MoleculeView, walk: Seq<int>, members: Set<int>, upto: int)
    requires
        mol.is_walk(walk),
        members.contains(walk[0]),
        mol.closed_under_bonds(members),
        0 <= upto < walk.len(),
    ensures
        members.contains(walk[upto]),
    decreases upto,
{
    if upto > 0 {
        lemma_walk_stays(mol, walk, members, upto - 1);
        assert(mol.bonded(walk[upto - 1], walk[upto]));
    }
}

/// Being connected is symmetric.
pub proof fn lemma_connected_sym(mol: MoleculeView, a: int, b: int)
    requires
        mol.connected(a, b),
    ensures
        mol.connected(b, a),
{
    let walk = choose|walk: Seq<int>| #[trigger] mol.is_walk(walk) && walk[0] == a && walk.last() == b;
    let back = walk.reverse();
    assert forall|i: int| 0 <= i < back.len() - 1 implies mol.bonded(#[trigger] back[i], back[i + 1]) by {
        let j = walk.len() - 2 - i;
        assert(mol.bonded(walk[j], walk[j + 1]));
    }
    assert(mol.is_walk(back) && back[0] == b && back.last() == a);
}

/// Being connected is transitive.
pub proof fn lemma_connected_trans(mol: MoleculeView, a: int, b: int, c: int)
    requires
        mol.connected(a, b),
        mol.connected(b, c),
    ensures
        mol.connected(a, c),
{
    let members = mol.fragment(a);
    assert(mol.closed_under_bonds(members)) by {
        assert forall|x: int, y: int| members.contains(x) && #[trigger] mol.bonded(x, y) implies members.contains(
            y,
        ) by {
            lemma_connected_step(mol, a, x, y);
        }
    }
    assert(members.contains(b));
    lemma_closed_holds_fragment(mol, b, members);
    assert(members.contains(c));
}

/// Atoms connected with each other have the same fragment.
pub proof fn lemma_fragment_shared(mol: MoleculeView, a: int, b: int)
    requires
        mol.connected(a, b),
    ensures
        mol.fragment(a) == mol.fragment(b),
{
    lemma_connected_sym(mol, a, b);
    assert forall|c: int| mol.fragment(a).contains(c) <==> mol.fragment(b).contains(c) by {
        if mol.connected(a, c) {
            lemma_connected_trans(mol, b, a, c);
        }
        if mol.connected(b, c) {
            lemma_connected_trans(mol, a, b, c);
        }
    }
    assert(mol.fragment(a) =~= mol.fragment(b));
}

/// A list of different numbers, all from `lo` up to but not including `hi`,
/// holds at most `hi - lo` numbers.
pub proof fn lemma_distinct_in_range(numbers: Seq<int>, lo: int, hi: int)
    requires
        lo <= hi,
        numbers.no_duplicates(),
        forall|k: int| 0 <= k < numbers.len() ==> lo <= #[trigger] numbers[k] < hi,
    ensures
        numbers.len() <= hi - lo,
{
    numbers.unique_seq_to_set();
    lemma_int_range(lo, hi);
    assert(numbers.to_set().subset_of(set_int_range(lo, hi)));
    lemma_len_subset(numbers.to_set(), set_int_range(lo, hi));
}

/// Element symbols held as strings, as sequences of characters.
pub open spec fn symbols_of(symbols: Seq<String>) -> Seq<Seq<char>> {
    Seq::new(symbols.len(), |i: int| symbols[i]@)
}

/// The atoms of one frame, with their elements, and the bonds between them.
#[derive(Debug)]
pub struct Molecule {
    // label of the frame
    title: String,
    // element symbol of each atom, that of atom `a` at `a - 1`
    symbols: Vec<String>,
    // the bonds in canonical form and in ascending order
    bonds: Vec<(usize, usize)>,
}

spec fn bond_at(bonds: Seq<(usize, usize)>, k: int) -> (int, int) {
    (bonds[k].0 as int, bonds[k].1 as int)
}

spec fn bonds_wf(bonds: Seq<(usize, usize)>, natoms: nat) -> bool {
    &&& forall|k: int| 0 <= k < bonds.len() ==> 1 <= (#[trigger] bonds[k]).0 < bonds[k].1 <= natoms
    &&& forall|j: int, k: int|
        0 <= j < k < bonds.len() ==> pair_lt(#[trigger] bond_at(bonds, j), #[trigger] bond_at(bonds, k))
}

spec fn bonds_set(bonds: Seq<(usize, usize)>) -> Set<(int, int)> {
    Set::new(|p: (int, int)| exists|k: int| 0 <= k < bonds.len() && #[trigger] bond_at(bonds, k) == p)
}

/// The set of well-formed bonds is finite and holds only bonds between atoms.
proof fn lemma_bonds_set(bonds: Seq<(usize, usize)>, natoms: nat)
    requires
        bonds_wf(bonds, natoms),
    ensures
        bonds_set(bonds).finite(),
        bonds_set(bonds).len() == bonds.len(),
        forall|p: (int, int)| #[trigger] bonds_set(bonds).contains(p) ==> 1 <= p.0 < p.1 <= natoms,
{
    let listed = Seq::new(bonds.len(), |k: int| bond_at(bonds, k));
    assert forall|j: int, k: int| 0 <= j < listed.len() && 0 <= k < listed.len() && j != k implies listed[j]
        != listed[k] by {
        if j < k {
            assert(pair_lt(bond_at(bonds, j), bond_at(bonds, k)));
        } else {
            assert(pair_lt(bond_at(bonds, k), bond_at(bonds, j)));
        }
    }
    assert forall|p: (int, int)| bonds_set(bonds).contains(p) <==> listed.to_set().contains(p) by {
        if bonds_set(bonds).contains(p) {
            let k = choose|k: int| 0 <= k < bonds.len() && #[trigger] bond_at(bonds, k) == p;
            assert(listed[k] == p);
        }
        if listed.contains(p) {
            let k = choose|k: int| 0 <= k < listed.len() && listed[k] == p;
            assert(bond_at(bonds, k) == p);
        }
    }
    assert(bonds_set(bonds) =~= listed.to_set());
    listed.unique_seq_to_set();
    assert forall|p: (int, int)| #[trigger] bonds_set(bonds).contains(p) implies 1 <= p.0 < p.1
        <= natoms by {
        let k = choose|k: int| 0 <= k < bonds.len() && #[trigger] bond_at(bonds, k) == p;
        assert(1 <= bonds[k].0 < bonds[k].1 <= natoms);
    }
}

impl View for Molecule {
    type V = MoleculeView;

    closed spec fn view(&self) -> MoleculeView {
        MoleculeView {
            title: self.title@,
            symbols: symbols_of(self.symbols@),
            bonds: bonds_set(self.bonds@),
        }
    }
}

/// Finds the bond `(a, b)`: whether it is held, and its index, or else the
/// index at which it would stand.
fn find_bond(bonds: &Vec<(usize, usize)>, a: usize, b: usize, Ghost(natoms): Ghost<nat>) -> (found: (
    bool,
    usize,
))
    requires
        bonds_wf(bonds@, natoms),
    ensures
        found.1 <= bonds@.len(),
        found.0 ==> found.1 < bonds@.len() && bond_at(bonds@, found.1 as int) == (a as int, b as int),
        found.0 == bonds_set(bonds@).contains((a as int, b as int)),
        forall|k: int| 0 <= k < found.1 ==> pair_lt(#[trigger] bond_at(bonds@, k), (a as int, b as int)),
        !found.0 ==> forall|k: int|
            found.1 <= k < bonds@.len() ==> pair_lt((a as int, b as int), #[trigger] bond_at(bonds@, k)),
{
    let ghost key = (a as int, b as int);
    let mut lo: usize = 0;
    let mut hi: usize = bonds.len();
    while lo < hi
        invariant
            bonds_wf(bonds@, natoms),
            key == (a as int, b as int),
            lo <= hi <= bonds@.len(),
            forall|k: int| 0 <= k < lo ==> pair_lt(#[trigger] bond_at(bonds@, k), key),
            forall|k: int| hi <= k < bonds@.len() ==> pair_lt(key, #[trigger] bond_at(bonds@, k)),
        decreases hi - lo,
    {
        let mid = lo + (hi - lo) / 2;
        let bond = bonds[mid];
        assert(bond_at(bonds@, mid as int) == (bond.0 as int, bond.1 as int));
        if bond.0 == a && bond.1 == b {
            proof {
                assert forall|k: int| 0 <= k < mid implies pair_lt(
                    #[trigger] bond_at(bonds@, k),
                    key,
                ) by {
                    assert(pair_lt(bond_at(bonds@, k), bond_at(bonds@, mid as int)));
                }
            }
            return (true, mid);
        } else if bond.0 < a || (bond.0 == a && bond.1 < b) {
            proof {
                assert forall|k: int| 0 <= k < mid + 1 implies pair_lt(
                    #[trigger] bond_at(bonds@, k),
                    key,
                ) by {
                    if k < mid {
                        assert(pair_lt(bond_at(bonds@, k), bond_at(bonds@, mid as int)));
                    }
                }
            }
            lo = mid + 1;
        } else {
            proof {
                assert forall|k: int| mid <= k < bonds@.len() implies pair_lt(
                    key,
                    #[trigger] bond_at(bonds@, k),
                ) by {
                    if mid < k {
                        assert(pair_lt(bond_at(bonds@, mid as int), bond_at(bonds@, k)));
                    }
                }
            }
            hi = mid;
        }
    }
    proof {
        if bonds_set(bonds@).contains(key) {
            let k = choose|k: int| 0 <= k < bonds@.len() && #[trigger] bond_at(bonds@, k) == key;
            if k < lo {
                assert(pair_lt(bond_at(bonds@, k), key));
            } else {
                assert(pair_lt(key, bond_at(bonds@, k)));
            }
        }
    }
    (false, lo)
}

impl Molecule {
    #[verifier::type_invariant]
    spec fn well_formed(self) -> bool {
        bonds_wf(self.bonds@, self.symbols@.len())
    }

    /// A molecule of atoms with the given elements, numbered from 1 in their
    /// order, and no bonds.
    pub fn new(title: String, symbols: Vec<String>) -> (mol: Self)
        ensures
            mol@.title == title@,
            mol@.symbols == symbols_of(symbols@),
            mol@.bonds == Set::<(int, int)>::empty(),
            mol@.wf(),
    {
        let mol = Molecule { title, symbols, bonds: Vec::new() };
        assert(mol@.bonds =~= Set::<(int, int)>::empty());
        assert(mol@.symbols =~= symbols_of(symbols@));
        mol
    }

    /// Return the number of atoms in the molecule.
    pub fn natoms(&self) -> (n: usize)
        ensures
            n == self@.natoms(),
            self@.wf(),
    {
        proof {
            use_type_invariant(self);
            lemma_bonds_set(self.bonds@, self.symbols@.len());
        }
        self.symbols.len()
    }

    /// Return the number of bonds in the molecule.
    pub fn nbonds(&self) -> (n: usize)
        ensures
            n == self@.bonds.len(),
            self@.wf(),
    {
        proof {
            use_type_invariant(self);
            lemma_bonds_set(self.bonds@, self.symbols@.len());
        }
        self.bonds.len()
    }

    /// The label of the frame.
    pub fn title(&self) -> (title: &String)
        ensures
            title@ == self@.title,
    {
        &self.title
    }

    /// Set the label of the frame.
    pub fn set_title(&mut self, title: String)
        ensures
            final(self)@ == (MoleculeView { title: title@, ..old(self)@ }),
    {
        proof {
            use_type_invariant(&*self);
        }
        self.title = title;
    }

    /// The element symbol of atom `a`.
    pub fn symbol(&self, a: usize) -> (symbol: &String)
        requires
            self@.has_atom(a as int),
        ensures
            symbol@ == self@.symbols[a - 1],
    {
        &self.symbols[a - 1]
    }

    /// Returns true if the molecule contains a bond between atom `sn1` and
    /// atom `sn2`.
    pub fn has_bond(&self, sn1: usize, sn2: usize) -> (held: bool)
        ensures
            held == self@.bonded(sn1 as int, sn2 as int),
    {
        proof {
            use_type_invariant(self);
            lemma_bonds_set(self.bonds@, self.symbols@.len());
        }
        let pair = ordered([sn1, sn2]);
        let (found, _) = find_bond(&self.bonds, pair[0], pair[1], Ghost(self.symbols@.len()));
        found
    }

    /// Add a bond between atom `a` and atom `b`. Nothing changes where the
    /// two are bonded already.
    pub fn add_bond(&mut self, a: usize, b: usize)
        requires
            old(self)@.has_atom(a as int),
            old(self)@.has_atom(b as int),
            a != b,
        ensures
            final(self)@ == (MoleculeView {
                bonds: old(self)@.bonds.insert(canonical([a, b])),
                ..old(self)@
            }),
    {
        proof {
            use_type_invariant(&*self);
        }
        let pair = ordered([a, b]);
        let ghost natoms = self.symbols@.len();
        let mut bonds: Vec<(usize, usize)> = Vec::new();
        std::mem::swap(&mut bonds, &mut self.bonds);
        let ghost before = bonds@;
        let (found, idx) = find_bond(&bonds, pair[0], pair[1], Ghost(natoms));
        if !found {
            bonds.insert(idx, (pair[0], pair[1]));
            proof {
                let after = bonds@;
                let key = canonical([a, b]);
                assert(bond_at(after, idx as int) == key);
                assert forall|j: int, k: int| 0 <= j < k < after.len() implies pair_lt(
                    #[trigger] bond_at(after, j),
                    #[trigger] bond_at(after, k),
                ) by {
                    if k < idx {
                        assert(pair_lt(bond_at(before, j), bond_at(before, k)));
                    } else if k == idx {
                        assert(bond_at(after, j) == bond_at(before, j));
                    } else if j < idx {
                        assert(pair_lt(bond_at(before, j), bond_at(before, k - 1)));
                    } else if j == idx {
                        assert(bond_at(after, k) == bond_at(before, k - 1));
                    } else {
                        assert(pair_lt(bond_at(before, j - 1), bond_at(before, k - 1)));
                    }
                }
                assert forall|p: (int, int)| bonds_set(after).contains(p) <==> bonds_set(
                    before,
                ).insert(key).contains(p) by {
                    if bonds_set(after).contains(p) {
                        let k = choose|k: int| 0 <= k < after.len() && #[trigger] bond_at(after, k) == p;
                        if k < idx {
                            assert(bond_at(before, k) == p);
                        } else if k > idx {
                            assert(bond_at(before, k - 1) == p);
                        }
                    }
                    if bonds_set(before).contains(p) {
                        let k = choose|k: int|
                            0 <= k < before.len() && #[trigger] bond_at(before, k) == p;
                        if k < idx {
                            assert(bond_at(after, k) == p);
                        } else {
                            assert(bond_at(after, k + 1) == p);
                        }
                    }
                }
                assert(bonds_set(after) =~= bonds_set(before).insert(key));
            }
        } else {
            assert(bonds_set(before) =~= bonds_set(before).insert(canonical([a, b])));
        }
        self.bonds = bonds;
    }

    /// Remove the bond between atom `a` and atom `b`. Nothing changes where
    /// there is none.
    pub fn remove_bond(&mut self, a: usize, b: usize)
        ensures
            final(self)@ == (MoleculeView {
                bonds: old(self)@.bonds.remove(canonical([a, b])),
                ..old(self)@
            }),
    {
        proof {
            use_type_invariant(&*self);
        }
        let pair = ordered([a, b]);
        let ghost natoms = self.symbols@.len();
        let mut bonds: Vec<(usize, usize)> = Vec::new();
        std::mem::swap(&mut bonds, &mut self.bonds);
        let ghost before = bonds@;
        let (found, idx) = find_bond(&bonds, pair[0], pair[1], Ghost(natoms));
        if found {
            bonds.remove(idx);
            proof {
                let after = bonds@;
                let key = canonical([a, b]);
                assert forall|j: int, k: int| 0 <= j < k < after.len() implies pair_lt(
                    #[trigger] bond_at(after, j),
                    #[trigger] bond_at(after, k),
                ) by {
                    if k < idx {
                        assert(pair_lt(bond_at(before, j), bond_at(before, k)));
                    } else if j < idx {
                        assert(pair_lt(bond_at(before, j), bond_at(before, k + 1)));
                    } else {
                        assert(pair_lt(bond_at(before, j + 1), bond_at(before, k + 1)));
                    }
                }
                assert forall|k: int| 0 <= k < after.len() implies 1 <= (#[trigger] after[k]).0
                    < after[k].1 <= natoms by {
                    if k < idx {
                        assert(after[k] == before[k]);
                    } else {
                        assert(after[k] == before[k + 1]);
                    }
                }
                assert forall|p: (int, int)| bonds_set(after).contains(p) <==> bonds_set(
                    before,
                ).remove(key).contains(p) by {
                    if bonds_set(after).contains(p) {
                        let k = choose|k: int| 0 <= k < after.len() && #[trigger] bond_at(after, k) == p;
                        if k < idx {
                            assert(bond_at(before, k) == p);
                            assert(pair_lt(bond_at(before, k), bond_at(before, idx as int)));
                        } else {
                            assert(bond_at(before, k + 1) == p);
                            assert(pair_lt(bond_at(before, idx as int), bond_at(before, k + 1)));
                        }
                    }
                    if bonds_set(before).contains(p) && p != key {
                        let k = choose|k: int|
                            0 <= k < before.len() && #[trigger] bond_at(before, k) == p;
                        if k < idx {
                            assert(bond_at(after, k) == p);
                        } else {
                            assert(bond_at(after, k - 1) == p);
                        }
                    }
                }
                assert(bonds_set(after) =~= bonds_set(before).remove(key));
            }
        } else {
            assert(bonds_set(before) =~= bonds_set(before).remove(canonical([a, b])));
        }
        self.bonds = bonds;
    }

    /// The bonds, each once and in canonical form, in ascending order.
    pub fn bonds(&self) -> (bonds: Vec<[usize; 2]>)
        ensures
            lists_pairs(pairs_view(bonds@), self@.bonds),
            bonds@.len() == self@.bonds.len(),
    {
        proof {
            use_type_invariant(self);
            lemma_bonds_set(self.bonds@, self.symbols@.len());
        }
        let mut bonds: Vec<[usize; 2]> = Vec::new();
        let mut k: usize = 0;
        while k < self.bonds.len()
            invariant
                k <= self.bonds@.len(),
                bonds@.len() == k,
                forall|j: int|
                    0 <= j < k ==> (#[trigger] bonds@[j])[0] == self.bonds@[j].0 && bonds@[j][1]
                        == self.bonds@[j].1,
            decreases self.bonds@.len() - k,
        {
            let bond = self.bonds[k];
            bonds.push([bond.0, bond.1]);
            k += 1;
        }
        proof {
            let listed = pairs_view(bonds@);
            assert forall|j: int| 0 <= j < listed.len() implies listed[j] == bond_at(self.bonds@, j) by {}
            assert forall|j: int, k: int| 0 <= j < k < listed.len() implies pair_lt(
                listed[j],
                listed[k],
            ) by {
                assert(pair_lt(bond_at(self.bonds@, j), bond_at(self.bonds@, k)));
            }
            assert forall|p: (int, int)| self@.bonds.contains(p) implies listed.contains(p) by {
                let k = choose|k: int|
                    0 <= k < self.bonds@.len() && #[trigger] bond_at(self.bonds@, k) == p;
                assert(listed[k] == p);
            }
        }
        bonds
    }
}

impl Molecule {
    /// Return all atoms that are connected in the same fragment as atom `a`,
    /// `a` itself among them, in ascending order.
    pub fn connected_fragment_atoms(&self, a: usize) -> (atoms: Vec<usize>)
        requires
            self@.has_atom(a as int),
        ensures
            lists_numbers(numbers_view(atoms@), self@.fragment(a as int)),
            forall|k: int| 0 <= k < atoms@.len() ==> self@.has_atom(#[trigger] atoms@[k] as int),
    {
        proof {
            use_type_invariant(self);
            lemma_bonds_set(self.bonds@, self.symbols@.len());
            lemma_connected_refl(self@, a as int);
        }
        let natoms = self.symbols.len();
        let ghost mol = self@;
        // reached[b - 1] tells whether atom b is known to be connected with a
        let mut reached: Vec<bool> = Vec::new();
        while reached.len() < natoms
            invariant
                reached@.len() <= natoms,
                forall|i: int| 0 <= i < reached@.len() ==> !reached@[i],
            decreases natoms - reached@.len(),
        {
            reached.push(false);
        }
        // the atoms reached, in the order in which they were found
        let mut found: Vec<usize> = Vec::new();
        reached[a - 1] = true;
        found.push(a);
        proof {
            let listed = numbers_view(found@);
            assert(listed[0] == a);
            assert forall|b: int| 1 <= b <= natoms && #[trigger] reached@[b - 1] implies listed.contains(
                b,
            ) by {
                assert(b == a);
            }
        }
        let mut head: usize = 0;
        while head < found.len()
            invariant
                mol == self@,
                mol.wf(),
                bonds_wf(self.bonds@, natoms as nat),
                natoms == self.symbols@.len(),
                reached@.len() == natoms,
                1 <= a <= natoms && reached@[a - 1],
                head <= found@.len() <= natoms,
                numbers_view(found@).no_duplicates(),
                forall|k: int|
                    0 <= k < found@.len() ==> 1 <= #[trigger] found@[k] <= natoms && reached@[found@[k]
                        - 1] && mol.connected(a as int, found@[k] as int),
                forall|b: int| 1 <= b <= natoms && #[trigger] reached@[b - 1] ==> numbers_view(found@).contains(b),
                forall|k: int, b: int|
                    0 <= k < head && #[trigger] mol.bonded(found@[k] as int, b) ==> 1 <= b <= natoms
                        && reached@[b - 1],
            decreases natoms - head,
        {
            let here = found[head];
            let mut j: usize = 0;
            while j < self.bonds.len()
                invariant
                    mol == self@,
                    mol.wf(),
                    bonds_wf(self.bonds@, natoms as nat),
                    natoms == self.symbols@.len(),
                    reached@.len() == natoms,
                    1 <= a <= natoms && reached@[a - 1],
                    head < found@.len() <= natoms,
                    here == found@[head as int],
                    j <= self.bonds@.len(),
                    numbers_view(found@).no_duplicates(),
                    forall|k: int|
                        0 <= k < found@.len() ==> 1 <= #[trigger] found@[k] <= natoms
                            && reached@[found@[k] - 1] && mol.connected(a as int, found@[k] as int),
                    forall|b: int|
                        1 <= b <= natoms && #[trigger] reached@[b - 1] ==> numbers_view(found@).contains(
                            b,
                        ),
                    forall|k: int, b: int|
                        0 <= k < head && #[trigger] mol.bonded(found@[k] as int, b) ==> 1 <= b
                            <= natoms && reached@[b - 1],
                    forall|i: int|
                        0 <= i < j ==> ((#[trigger] self.bonds@[i]).0 == here ==> reached@[self.bonds@[i].1
                            - 1]) && (self.bonds@[i].1 == here ==> reached@[self.bonds@[i].0 - 1]),
                decreases self.bonds@.len() - j,
            {
                let bond = self.bonds[j];
                let other = if bond.0 == here {
                    bond.1
                } else if bond.1 == here {
                    bond.0
                } else {
                    here
                };
                if other != here && !reached[other - 1] {
                    let ghost listed = numbers_view(found@);
                    proof {
                        assert(bond_at(self.bonds@, j as int) == (bond.0 as int, bond.1 as int));
                        assert(mol.bonds.contains((bond.0 as int, bond.1 as int)));
                        assert(mol.bonded(here as int, other as int));
                        lemma_connected_step(mol, a as int, here as int, other as int);
                        assert(!listed.contains(other as int)) by {
                            if listed.contains(other as int) {
                                let k = choose|k: int| 0 <= k < listed.len() && listed[k] == other;
                                assert(reached@[found@[k] - 1]);
                            }
                        }
                    }
                    reached[other - 1] = true;
                    found.push(other);
                    proof {
                        let longer = numbers_view(found@);
                        assert(longer =~= listed.push(other as int));
                        assert forall|b: int|
                            1 <= b <= natoms && #[trigger] reached@[b - 1] implies longer.contains(
                            b,
                        ) by {
                            if b == other {
                                assert(longer[listed.len() as int] == b);
                            } else {
                                let k = choose|k: int| 0 <= k < listed.len() && listed[k] == b;
                                assert(longer[k] == b);
                            }
                        }
                        lemma_distinct_in_range(longer, 1, natoms + 1);
                    }
                }
                j += 1;
            }
            proof {
                assert forall|k: int, b: int|
                    0 <= k < head + 1 && #[trigger] mol.bonded(found@[k] as int, b) implies 1 <= b
                    <= natoms && reached@[b - 1] by {
                    if k == head {
                        let p = if mol.bonds.contains((here as int, b)) {
                            (here as int, b)
                        } else {
                            (b, here as int)
                        };
                        let i = choose|i: int|
                            0 <= i < self.bonds@.len() && #[trigger] bond_at(self.bonds@, i) == p;
                        assert(1 <= self.bonds@[i].0 < self.bonds@[i].1 <= natoms);
                    }
                }
            }
            head += 1;
        }
        let mut atoms: Vec<usize> = Vec::new();
        let mut b: usize = 0;
        while b < natoms
            invariant
                reached@.len() == natoms,
                1 <= a <= natoms && reached@[a - 1],
                b <= natoms,
                forall|k: int| 0 <= k < atoms@.len() ==> 1 <= #[trigger] atoms@[k] <= b && reached@[atoms@[k] - 1],
                forall|j: int, k: int| 0 <= j < k < atoms@.len() ==> atoms@[j] < atoms@[k],
                forall|c: int|
                    1 <= c <= b && #[trigger] reached@[c - 1] ==> numbers_view(atoms@).contains(c),
            decreases natoms - b,
        {
            if reached[b] {
                let ghost listed = numbers_view(atoms@);
                atoms.push(b + 1);
                proof {
                    let longer = numbers_view(atoms@);
                    assert forall|c: int|
                        1 <= c <= b + 1 && #[trigger] reached@[c - 1] implies longer.contains(c) by {
                        if c == b + 1 {
                            assert(longer[listed.len() as int] == c);
                        } else {
                            let k = choose|k: int| 0 <= k < listed.len() && listed[k] == c;
                            assert(longer[k] == c);
                        }
                    }
                }
            }
            b += 1;
        }
        proof {
            let members = Set::new(|c: int| 1 <= c <= natoms && reached@[c - 1]);
            assert(members.contains(a as int));
            assert(mol.closed_under_bonds(members)) by {
                assert forall|x: int, y: int| members.contains(x) && #[trigger] mol.bonded(
                    x,
                    y,
                ) implies members.contains(y) by {
                    let k = choose|k: int|
                        0 <= k < numbers_view(found@).len() && numbers_view(found@)[k] == x;
                    assert(mol.bonded(found@[k] as int, y));
                }
            }
            lemma_closed_holds_fragment(mol, a as int, members);
            let listed = numbers_view(atoms@);
            assert forall|k: int| 0 <= k < listed.len() implies mol.fragment(a as int).contains(
                #[trigger] listed[k],
            ) by {
                let c = listed[k];
                assert(reached@[atoms@[k] - 1]);
                let i = choose|i: int|
                    0 <= i < numbers_view(found@).len() && numbers_view(found@)[i] == c;
                assert(mol.connected(a as int, found@[i] as int));
            }
            assert forall|c: int| mol.fragment(a as int).contains(c) implies listed.contains(c) by {
                assert(members.contains(c));
            }
        }
        atoms
    }

    /// The bonds between two atoms of `atoms`, in ascending order: the bonds
    /// of the part of the molecule that these atoms make.
    pub fn bonds_within(&self, atoms: &Vec<usize>) -> (bonds: Vec<[usize; 2]>)
        ensures
            lists_pairs(
                pairs_view(bonds@),
                Set::new(
                    |p: (int, int)|
                        self@.bonds.contains(p) && numbers_view(atoms@).contains(p.0)
                            && numbers_view(atoms@).contains(p.1),
                ),
            ),
    {
        let all = self.bonds();
        let ghost listed = pairs_view(all@);
        let ghost members = numbers_view(atoms@);
        let ghost goal = Set::new(
            |p: (int, int)| self@.bonds.contains(p) && members.contains(p.0) && members.contains(p.1),
        );
        let mut bonds: Vec<[usize; 2]> = Vec::new();
        let ghost mut picked: Seq<int> = Seq::empty();
        let mut k: usize = 0;
        while k < all.len()
            invariant
                listed == pairs_view(all@),
                members == numbers_view(atoms@),
                lists_pairs(listed, self@.bonds),
                goal == Set::new(
                    |p: (int, int)|
                        self@.bonds.contains(p) && members.contains(p.0) && members.contains(p.1),
                ),
                k <= all@.len(),
                picked.len() == bonds@.len(),
                forall|j: int|
                    0 <= j < picked.len() ==> 0 <= #[trigger] picked[j] < k && pairs_view(bonds@)[j]
                        == listed[picked[j]] && goal.contains(listed[picked[j]]),
                forall|i: int, j: int| 0 <= i < j < picked.len() ==> picked[i] < picked[j],
                forall|h: int| 0 <= h < k && goal.contains(#[trigger] listed[h]) ==> picked.contains(h),
            decreases all@.len() - k,
        {
            let bond = all[k];
            proof {
                assert(self@.bonds.contains(listed[k as int]));
                assert(listed[k as int] == (bond[0] as int, bond[1] as int));
            }
            if holds_number(atoms, bond[0]) && holds_number(atoms, bond[1]) {
                let ghost held = picked;
                bonds.push(bond);
                proof {
                    picked = picked.push(k as int);
                    assert forall|h: int|
                        0 <= h < k + 1 && goal.contains(#[trigger] listed[h]) implies picked.contains(
                        h,
                    ) by {
                        if h < k {
                            let j = choose|j: int| 0 <= j < held.len() && held[j] == h;
                            assert(picked[j] == h);
                        } else {
                            assert(picked[held.len() as int] == h);
                        }
                    }
                }
            }
            k += 1;
        }
        proof {
            let found = pairs_view(bonds@);
            assert forall|i: int, j: int| 0 <= i < j < found.len() implies pair_lt(
                found[i],
                found[j],
            ) by {
                assert(picked[i] < picked[j]);
                assert(pair_lt(listed[picked[i]], listed[picked[j]]));
            }
            assert forall|k: int| 0 <= k < found.len() implies goal.contains(#[trigger] found[k]) by {
                assert(goal.contains(listed[picked[k]]));
            }
            assert forall|p: (int, int)| goal.contains(p) implies found.contains(p) by {
                assert(listed.contains(p));
                let h = choose|h: int| 0 <= h < listed.len() && listed[h] == p;
                let j = choose|j: int| 0 <= j < picked.len() && picked[j] == h;
                assert(found[j] == p);
            }
        }
        bonds
    }

    /// Whether `other` holds the same atoms: as many, with the same elements.
    pub fn matching_configuration(&self, other: &Molecule) -> (same: bool)
        ensures
            same == (self@.symbols == other@.symbols),
    {
        if self.symbols.len() != other.symbols.len() {
            assert(self@.symbols.len() != other@.symbols.len());
            return false;
        }
        let mut i: usize = 0;
        while i < self.symbols.len()
            invariant
                self.symbols@.len() == other.symbols@.len(),
                i <= self.symbols@.len(),
                forall|j: int| 0 <= j < i ==> self.symbols@[j]@ == other.symbols@[j]@,
            decreases self.symbols@.len() - i,
        {
            if self.symbols[i] != other.symbols[i] {
                assert(self@.symbols[i as int] != other@.symbols[i as int]);
                return false;
            }
            i += 1;
        }
        assert(self@.symbols =~= other@.symbols);
        true
    }
}

impl Clone for Molecule {
    fn clone(&self) -> (copy: Self)
        ensures
            copy@ == self@,
    {
        proof {
            use_type_invariant(self);
        }
        let mut symbols: Vec<String> = Vec::new();
        let mut i: usize = 0;
        while i < self.symbols.len()
            invariant
                i <= self.symbols@.len(),
                symbols@.len() == i,
                forall|j: int| 0 <= j < i ==> symbols@[j]@ == self.symbols@[j]@,
            decreases self.symbols@.len() - i,
        {
            symbols.push(self.symbols[i].clone());
            i += 1;
        }
        let mut bonds: Vec<(usize, usize)> = Vec::new();
        let mut k: usize = 0;
        while k < self.bonds.len()
            invariant
                k <= self.bonds@.len(),
                bonds@.len() == k,
                forall|j: int| 0 <= j < k ==> bonds@[j] == self.bonds@[j],
            decreases self.bonds@.len() - k,
        {
            bonds.push(self.bonds[k]);
            k += 1;
        }
        assert(bonds@ =~= self.bonds@);
        let copy = Molecule { title: self.title.clone(), symbols, bonds };
        assert(copy@.symbols =~= self@.symbols);
        copy
    }
}

/// Whether `number` is one of `numbers`.
pub fn holds_number(numbers: &Vec<usize>, number: usize) -> (held: bool)
    ensures
        held == numbers_view(numbers@).contains(number as int),
{
    let mut i: usize = 0;
    while i < numbers.len()
        invariant
            i <= numbers@.len(),
            forall|j: int| 0 <= j < i ==> numbers@[j] != number,
        decreases numbers@.len() - i,
    {
        if numbers[i] == number {
            assert(numbers_view(numbers@)[i as int] == number);
            return true;
        }
        i += 1;
    }
    proof {
        let listed = numbers_view(numbers@);
        if listed.contains(number as int) {
            let j = choose|j: int| 0 <= j < listed.len() && listed[j] == number;
            assert(numbers@[j] != number);
        }
    }
    false
}

/// What each of `mols` holds.
pub open spec fn frames_view(mols: Seq<Molecule>) -> Seq<MoleculeView> {
    Seq::new(mols.len(), |f: int| mols[f]@)
}

} // verus!
