//! Chemical formulas of sets of atoms, and compositions of sets of
//! fragments.
use crate::text::{
    concat_texts, count_of, decimal_text, distinct_sorted, join_texts, push_decimal, tally,
    texts_of,
};
use vstd::prelude::*;
use vstd::string::*;

verus! {

/// An element as it stands in the formula of atoms with the elements
/// `symbols`: its symbol, followed by the number of its atoms where there is
/// more than one.
pub open spec fn element_text(symbols: Seq<Seq<char>>, element: Seq<char>) -> Seq<char> {
    let n = count_of(symbols, element);
    if n > 1 {
        element + decimal_text(n)
    } else {
        element
    }
}

/// The elements of a formula, each with its count, in the order of the
/// formula: carbon first, hydrogen last, the others alphabetically between
/// them.
pub open spec fn formula_parts(symbols: Seq<Seq<char>>) -> Seq<Seq<char>> {
    let elements = distinct_sorted(symbols, true);
    Seq::new(elements.len(), |k: int| element_text(symbols, elements[k]))
}

/// The formula of atoms with the elements `symbols`.
pub open spec fn formula_text(symbols: Seq<Seq<char>>) -> Seq<char> {
    concat_texts(formula_parts(symbols))
}

/// The composition of fragments with the given formulas: the different
/// formulas in alphabetical order, joined by ` + `.
pub open spec fn composition_text(formulas: Seq<Seq<char>>) -> Seq<char> {
    join_texts(distinct_sorted(formulas, false), seq![' ', '+', ' '])
}

/// Returns the formula of a set of atoms from their element symbols: each
/// element once, followed by the number of its atoms unless that is 1; carbon
/// comes first, hydrogen last, all other elements in alphabetical order
/// between them.
pub fn get_reduced_formula(symbols: &[&str]) -> (formula: String)
    ensures
        formula@ == formula_text(texts_of(symbols@)),
{
    let (firsts, counts) = tally(symbols, true);
    let ghost parts = formula_parts(texts_of(symbols@));
    let mut formula = String::new();
    let mut k: usize = 0;
    assert(parts.take(0) =~= Seq::<Seq<char>>::empty());
    while k < firsts.len()
        invariant
            parts == formula_parts(texts_of(symbols@)),
            parts.len() == firsts@.len(),
            counts@.len() == firsts@.len(),
            k <= firsts@.len(),
            forall|j: int|
                0 <= j < firsts@.len() ==> (#[trigger] firsts@[j]) < symbols@.len()
                    && symbols@[firsts@[j] as int]@ == distinct_sorted(texts_of(symbols@), true)[j],
            forall|j: int|
                0 <= j < counts@.len() ==> #[trigger] counts@[j] == count_of(
                    texts_of(symbols@),
                    distinct_sorted(texts_of(symbols@), true)[j],
                ),
            formula@ == concat_texts(parts.take(k as int)),
        decreases firsts@.len() - k,
    {
        let ghost before = formula@;
        formula.append(symbols[firsts[k]]);
        if counts[k] > 1 {
            push_decimal(&mut formula, counts[k]);
        }
        proof {
            assert(formula@ =~= before + parts[k as int]);
            assert(parts.take(k + 1).drop_last() =~= parts.take(k as int));
            assert(parts.take(k + 1).last() == parts[k as int]);
        }
        k += 1;
    }
    assert(parts.take(k as int) =~= parts);
    formula
}

/// Returns the composition of fragments from their formulas: each formula
/// once, in alphabetical order, joined by ` + `. For two fragments with the
/// formulas `H2` and `CH4`, returns `CH4 + H2`.
pub fn get_composition(formulas: &[&str]) -> (composition: String)
    ensures
        composition@ == composition_text(texts_of(formulas@)),
{
    let (firsts, _) = tally(formulas, false);
    let ghost listed = distinct_sorted(texts_of(formulas@), false);
    let ghost plus = seq![' ', '+', ' '];
    let mut composition = String::new();
    let mut k: usize = 0;
    assert(listed.take(0) =~= Seq::<Seq<char>>::empty());
    while k < firsts.len()
        invariant
            listed == distinct_sorted(texts_of(formulas@), false),
            listed.len() == firsts@.len(),
            plus == seq![' ', '+', ' '],
            k <= firsts@.len(),
            forall|j: int|
                0 <= j < firsts@.len() ==> (#[trigger] firsts@[j]) < formulas@.len()
                    && formulas@[firsts@[j] as int]@ == listed[j],
            composition@ == join_texts(listed.take(k as int), plus),
        decreases firsts@.len() - k,
    {
        let ghost before = composition@;
        if k > 0 {
            proof {
                reveal_strlit(" + ");
            }
            composition.append(" + ");
            assert(composition@ =~= before + plus);
        }
        composition.append(formulas[firsts[k]]);
        proof {
            assert(listed.take(k + 1).drop_last() =~= listed.take(k as int));
            assert(listed.take(k + 1).last() == listed[k as int]);
            if k == 0 {
                assert(composition@ =~= listed[0]);
                assert(listed.take(1)[0] == listed[0]);
            } else {
                assert(composition@ =~= before + plus + listed[k as int]);
            }
        }
        k += 1;
    }
    assert(listed.take(k as int) =~= listed);
    composition
}

} // verus!
