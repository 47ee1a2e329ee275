//! Unordered pairs of atoms in canonical form, and ascending listings.
use vstd::prelude::*;

verus! {

/// Canonical form of an unordered pair of atoms: the smaller number first.
pub open spec fn canonical(key: [usize; 2]) -> (int, int) {
    if key[0] <= key[1] {
        (key[0] as int, key[1] as int)
    } else {
        (key[1] as int, key[0] as int)
    }
}

/// Order of canonical pairs: by the first atom, then by the second.
pub open spec fn pair_lt(a: (int, int), b: (int, int)) -> bool {
    a.0 < b.0 || (a.0 == b.0 && a.1 < b.1)
}

/// Puts a pair of atoms in canonical form: the smaller number first.
pub fn ordered(key: [usize; 2]) -> (pair: [usize; 2])
    ensures
        (pair[0] as int, pair[1] as int) == canonical(key),
        pair[0] <= pair[1],
{
    if key[0] <= key[1] {
        key
    } else {
        [key[1], key[0]]
    }
}

/// Pairs held in machine integers, as pairs of mathematical integers.
pub open spec fn pairs_view(pairs: Seq<[usize; 2]>) -> Seq<(int, int)> {
    Seq::new(pairs.len(), |k: int| (pairs[k][0] as int, pairs[k][1] as int))
}

/// Whether `pairs` lists the members of `keys`, each once, in ascending
/// order.
pub open spec fn lists_pairs(pairs: Seq<(int, int)>, keys: Set<(int, int)>) -> bool {
    &&& forall|j: int, k: int| 0 <= j < k < pairs.len() ==> pair_lt(pairs[j], pairs[k])
    &&& forall|k: int| 0 <= k < pairs.len() ==> keys.contains(#[trigger] pairs[k])
    &&& forall|key: (int, int)| keys.contains(key) ==> pairs.contains(key)
}

/// Whether `numbers` lists the members of `members`, each once, in ascending
/// order.
pub open spec fn lists_numbers(numbers: Seq<int>, members: Set<int>) -> bool {
    &&& forall|j: int, k: int| 0 <= j < k < numbers.len() ==> numbers[j] < numbers[k]
    &&& forall|k: int| 0 <= k < numbers.len() ==> members.contains(#[trigger] numbers[k])
    &&& forall|p: int| members.contains(p) ==> numbers.contains(p)
}

/// Numbers held in machine integers, as mathematical integers.
pub open spec fn numbers_view(numbers: Seq<usize>) -> Seq<int> {
    Seq::new(numbers.len(), |k: int| numbers[k] as int)
}

} // verus!
