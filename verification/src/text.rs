//! Ordering, tallying and numbering of short texts: what chemical formulas and
//! compositions are made of.
use vstd::prelude::*;
use vstd::string::*;

verus! {

/// Alphabetical order of texts: character by character, a text before each
/// of its extensions.
pub open spec fn text_lt(a: Seq<char>, b: Seq<char>) -> bool
    decreases a.len(),
{
    if b.len() == 0 {
        false
    } else if a.len() == 0 {
        true
    } else if a[0] != b[0] {
        (a[0] as u32) < (b[0] as u32)
    } else {
        text_lt(a.drop_first(), b.drop_first())
    }
}

/// Place of an element in formulas: carbon first, hydrogen last, all others
/// in between. Without `ranked` every text has the same place.
pub open spec fn rank(item: Seq<char>, ranked: bool) -> int {
    if ranked && item == seq!['C'] {
        0
    } else if ranked && item == seq!['H'] {
        2
    } else {
        1
    }
}

/// Order of items: by place, then alphabetically.
pub open spec fn item_lt(a: Seq<char>, b: Seq<char>, ranked: bool) -> bool {
    rank(a, ranked) < rank(b, ranked) || (rank(a, ranked) == rank(b, ranked) && text_lt(a, b))
}

/// Index of the first of `elems`, at or after `from`, that does not come
/// before `item`; the length of `elems` where all do.
pub open spec fn first_not_less(elems: Seq<Seq<char>>, item: Seq<char>, ranked: bool, from: int) -> int
    decreases elems.len() - from,
{
    if 0 <= from < elems.len() && item_lt(elems[from], item, ranked) {
        first_not_less(elems, item, ranked, from + 1)
    } else {
        from
    }
}

/// The ordered list `elems` with `item` put in its place, unless that place
/// holds `item` already.
pub open spec fn with_member(elems: Seq<Seq<char>>, item: Seq<char>, ranked: bool) -> Seq<Seq<char>> {
    let k = first_not_less(elems, item, ranked, 0);
    if k < elems.len() && elems[k] == item {
        elems
    } else {
        elems.insert(k, item)
    }
}

/// The different texts among `items`, in order.
pub open spec fn distinct_sorted(items: Seq<Seq<char>>, ranked: bool) -> Seq<Seq<char>>
    decreases items.len(),
{
    if items.len() == 0 {
        Seq::empty()
    } else {
        with_member(distinct_sorted(items.drop_last(), ranked), items.last(), ranked)
    }
}

/// How often `item` occurs among `items`.
pub open spec fn count_of(items: Seq<Seq<char>>, item: Seq<char>) -> nat
    decreases items.len(),
{
    if items.len() == 0 {
        0
    } else {
        count_of(items.drop_last(), item) + (if items.last() == item {
            1nat
        } else {
            0nat
        })
    }
}

/// The character of a decimal digit.
pub open spec fn digit_char(d: int) -> char {
    if d == 0 {
        '0'
    } else if d == 1 {
        '1'
    } else if d == 2 {
        '2'
    } else if d == 3 {
        '3'
    } else if d == 4 {
        '4'
    } else if d == 5 {
        '5'
    } else if d == 6 {
        '6'
    } else if d == 7 {
        '7'
    } else if d == 8 {
        '8'
    } else {
        '9'
    }
}

/// A natural number in decimal notation.
pub open spec fn decimal_text(n: nat) -> Seq<char>
    decreases n,
{
    if n < 10 {
        seq![digit_char(n as int)]
    } else {
        decimal_text(n / 10).push(digit_char((n % 10) as int))
    }
}

/// Texts, one after the other.
pub open spec fn concat_texts(texts: Seq<Seq<char>>) -> Seq<char>
    decreases texts.len(),
{
    if texts.len() == 0 {
        Seq::empty()
    } else {
        concat_texts(texts.drop_last()) + texts.last()
    }
}

/// Texts, one after the other, with `separator` between neighbours.
pub open spec fn join_texts(texts: Seq<Seq<char>>, separator: Seq<char>) -> Seq<char>
    decreases texts.len(),
{
    if texts.len() == 0 {
        Seq::empty()
    } else if texts.len() == 1 {
        texts[0]
    } else {
        join_texts(texts.drop_last(), separator) + separator + texts.last()
    }
}

/// Texts held as strings, as sequences of characters.
pub open spec fn texts_of(items: Seq<&str>) -> Seq<Seq<char>> {
    Seq::new(items.len(), |i: int| items[i]@)
}

/// Whether `a` and `b` are the same text.
pub fn same_text(a: &str, b: &str) -> (same: bool)
    ensures
        same == (a@ == b@),
{
    let n = a.unicode_len();
    if n != b.unicode_len() {
        return false;
    }
    let mut i: usize = 0;
    while i < n
        invariant
            n == a@.len(),
            n == b@.len(),
            i <= n,
            forall|j: int| 0 <= j < i ==> a@[j] == b@[j],
        decreases n - i,
    {
        if a.get_char(i) != b.get_char(i) {
            return false;
        }
        i += 1;
    }
    assert(a@ =~= b@);
    true
}

/// Whether `a` comes before `b` in alphabetical order.
pub fn text_less(a: &str, b: &str) -> (less: bool)
    ensures
        less == text_lt(a@, b@),
{
    let na = a.unicode_len();
    let nb = b.unicode_len();
    let mut i: usize = 0;
    assert(a@.skip(0) =~= a@ && b@.skip(0) =~= b@);
    while i < na && i < nb
        invariant
            na == a@.len(),
            nb == b@.len(),
            i <= na,
            i <= nb,
            text_lt(a@, b@) == text_lt(a@.skip(i as int), b@.skip(i as int)),
        decreases na - i,
    {
        let ca = a.get_char(i);
        let cb = b.get_char(i);
        proof {
            let ra = a@.skip(i as int);
            let rb = b@.skip(i as int);
            assert(ra[0] == ca && rb[0] == cb);
            assert(ra.drop_first() =~= a@.skip(i + 1));
            assert(rb.drop_first() =~= b@.skip(i + 1));
        }
        if ca != cb {
            return (ca as u32) < (cb as u32);
        }
        i += 1;
    }
    i < nb
}

/// Whether `a` comes before `b` in the order of items.
pub fn item_less(a: &str, b: &str, ranked: bool) -> (less: bool)
    ensures
        less == item_lt(a@, b@, ranked),
{
    let ra = place(a, ranked);
    let rb = place(b, ranked);
    if ra != rb {
        ra < rb
    } else {
        text_less(a, b)
    }
}

/// The place of `item`, see `rank`.
fn place(item: &str, ranked: bool) -> (r: u8)
    ensures
        r == rank(item@, ranked),
{
    if ranked && item.unicode_len() == 1 {
        let c = item.get_char(0);
        if c == 'C' {
            assert(item@ =~= seq!['C']);
            0
        } else if c == 'H' {
            assert(item@ =~= seq!['H']);
            2
        } else {
            1
        }
    } else {
        1
    }
}

/// Appends the decimal notation of `n` to `text`.
pub fn push_decimal(text: &mut String, n: usize)
    ensures
        final(text)@ == old(text)@ + decimal_text(n as nat),
    decreases n,
{
    if n >= 10 {
        push_decimal(text, n / 10);
    }
    let ghost before = text@;
    let d = n % 10;
    if d == 0 {
        proof {
            reveal_strlit("0");
        }
        text.append("0");
    } else if d == 1 {
        proof {
            reveal_strlit("1");
        }
        text.append("1");
    } else if d == 2 {
        proof {
            reveal_strlit("2");
        }
        text.append("2");
    } else if d == 3 {
        proof {
            reveal_strlit("3");
        }
        text.append("3");
    } else if d == 4 {
        proof {
            reveal_strlit("4");
        }
        text.append("4");
    } else if d == 5 {
        proof {
            reveal_strlit("5");
        }
        text.append("5");
    } else if d == 6 {
        proof {
            reveal_strlit("6");
        }
        text.append("6");
    } else if d == 7 {
        proof {
            reveal_strlit("7");
        }
        text.append("7");
    } else if d == 8 {
        proof {
            reveal_strlit("8");
        }
        text.append("8");
    } else {
        proof {
            reveal_strlit("9");
        }
        text.append("9");
    }
    assert(text@ =~= before.push(digit_char(d as int)));
    assert(text@ =~= old(text)@ + decimal_text(n as nat));
}

/// The decimal notation of `n`.
pub fn decimal(n: usize) -> (text: String)
    ensures
        text@ == decimal_text(n as nat),
{
    let mut text = String::new();
    push_decimal(&mut text, n);
    assert(text@ =~= decimal_text(n as nat));
    text
}

/// Finds the different texts among `items`, in order. Returns, for each, the
/// index of one of its occurrences, and how often it occurs.
pub fn tally(items: &[&str], ranked: bool) -> (found: (Vec<usize>, Vec<usize>))
    ensures
        found.0@.len() == distinct_sorted(texts_of(items@), ranked).len(),
        found.1@.len() == found.0@.len(),
        forall|k: int|
            0 <= k < found.0@.len() ==> (#[trigger] found.0@[k]) < items@.len()
                && items@[found.0@[k] as int]@ == distinct_sorted(texts_of(items@), ranked)[k],
        forall|k: int|
            0 <= k < found.1@.len() ==> #[trigger] found.1@[k] == count_of(
                texts_of(items@),
                distinct_sorted(texts_of(items@), ranked)[k],
            ),
{
    let ghost texts = texts_of(items@);
    let mut firsts: Vec<usize> = Vec::new();
    let mut counts: Vec<usize> = Vec::new();
    let n = items.len();
    let mut i: usize = 0;
    assert(texts.take(0) =~= Seq::<Seq<char>>::empty());
    while i < n
        invariant
            n == items@.len(),
            texts == texts_of(items@),
            i <= n,
            firsts@.len() == distinct_sorted(texts.take(i as int), ranked).len(),
            counts@.len() == firsts@.len(),
            forall|k: int|
                0 <= k < firsts@.len() ==> (#[trigger] firsts@[k]) < i && texts[firsts@[k] as int]
                    == distinct_sorted(texts.take(i as int), ranked)[k],
            forall|k: int|
                0 <= k < counts@.len() ==> 1 <= #[trigger] counts@[k] <= i && counts@[k] == count_of(
                    texts.take(i as int),
                    distinct_sorted(texts.take(i as int), ranked)[k],
                ),
        decreases n - i,
    {
        let item = items[i];
        let ghost seen = texts.take(i as int);
        let ghost elems = distinct_sorted(seen, ranked);
        proof {
            assert(texts.take(i + 1).drop_last() =~= seen);
            assert(texts.take(i + 1).last() == item@);
        }
        let mut k: usize = 0;
        while k < firsts.len() && item_less(items[firsts[k]], item, ranked)
            invariant
                n == items@.len(),
                texts == texts_of(items@),
                i < n,
                item@ == texts[i as int],
                elems.len() == firsts@.len(),
                k <= firsts@.len(),
                forall|j: int|
                    0 <= j < firsts@.len() ==> (#[trigger] firsts@[j]) < i && texts[firsts@[j] as int]
                        == elems[j],
                first_not_less(elems, item@, ranked, 0) == first_not_less(elems, item@, ranked, k as int),
            decreases firsts@.len() - k,
        {
            k += 1;
        }
        let ghost grown = with_member(elems, item@, ranked);
        proof {
            lemma_distinct_sorted(seen, ranked);
            lemma_with_member(elems, item@, ranked);
            lemma_first_not_less(elems, item@, ranked, k as int);
        }
        if k < firsts.len() && same_text(items[firsts[k]], item) {
            counts[k] = counts[k] + 1;
            proof {
                assert(grown == elems);
            }
        } else {
            firsts.insert(k, i);
            counts.insert(k, 1);
            proof {
                assert(grown == elems.insert(k as int, item@));
                assert(!elems.contains(item@));
                assert(!seen.contains(item@));
                lemma_count_of_absent(seen, item@);
            }
        }
        i += 1;
    }
    assert(texts.take(n as int) =~= texts);
    (firsts, counts)
}

/// No text comes before itself.
pub proof fn lemma_text_lt_irreflexive(a: Seq<char>)
    ensures
        !text_lt(a, a),
    decreases a.len(),
{
    if a.len() > 0 {
        lemma_text_lt_irreflexive(a.drop_first());
    }
}

/// Of two different texts one comes before the other.
pub proof fn lemma_text_lt_total(a: Seq<char>, b: Seq<char>)
    ensures
        text_lt(a, b) || a == b || text_lt(b, a),
    decreases a.len(),
{
    if a.len() == 0 || b.len() == 0 {
        if a.len() == 0 && b.len() == 0 {
            assert(a =~= b);
        }
    } else if a[0] == b[0] {
        lemma_text_lt_total(a.drop_first(), b.drop_first());
        if a.drop_first() == b.drop_first() {
            assert(a =~= seq![a[0]] + a.drop_first());
            assert(b =~= seq![b[0]] + b.drop_first());
        }
    } else {
        // different characters have different code points
        vstd::utf8::char_u32_cast(a[0], a[0] as u32);
        vstd::utf8::char_u32_cast(b[0], b[0] as u32);
    }
}

/// The alphabetical order is transitive.
pub proof fn lemma_text_lt_trans(a: Seq<char>, b: Seq<char>, c: Seq<char>)
    requires
        text_lt(a, b),
        text_lt(b, c),
    ensures
        text_lt(a, c),
    decreases a.len(),
{
    if a.len() > 0 && a[0] == b[0] && b[0] == c[0] {
        lemma_text_lt_trans(a.drop_first(), b.drop_first(), c.drop_first());
    }
}

/// The order of items is a strict total order.
pub proof fn lemma_item_lt(a: Seq<char>, b: Seq<char>, c: Seq<char>, ranked: bool)
    ensures
        !item_lt(a, a, ranked),
        item_lt(a, b, ranked) || a == b || item_lt(b, a, ranked),
        item_lt(a, b, ranked) && item_lt(b, c, ranked) ==> item_lt(a, c, ranked),
{
    lemma_text_lt_irreflexive(a);
    lemma_text_lt_total(a, b);
    if text_lt(a, b) && text_lt(b, c) {
        lemma_text_lt_trans(a, b, c);
    }
}

/// Whether each of `elems` comes before all that follow it.
pub open spec fn ascending(elems: Seq<Seq<char>>, ranked: bool) -> bool {
    forall|j: int, k: int| 0 <= j < k < elems.len() ==> item_lt(elems[j], elems[k], ranked)
}

/// The search for the place of `item` passes exactly the texts that come
/// before it.
proof fn lemma_first_not_less(elems: Seq<Seq<char>>, item: Seq<char>, ranked: bool, from: int)
    requires
        0 <= from <= elems.len(),
    ensures
        from <= first_not_less(elems, item, ranked, from) <= elems.len(),
        forall|j: int|
            from <= j < first_not_less(elems, item, ranked, from) ==> item_lt(
                #[trigger] elems[j],
                item,
                ranked,
            ),
        first_not_less(elems, item, ranked, from) < elems.len() ==> !item_lt(
            elems[first_not_less(elems, item, ranked, from)],
            item,
            ranked,
        ),
    decreases elems.len() - from,
{
    if from < elems.len() && item_lt(elems[from], item, ranked) {
        lemma_first_not_less(elems, item, ranked, from + 1);
    }
}

/// Putting a text in its place keeps an ascending list ascending, and adds
/// this text to its members and no other.
pub proof fn lemma_with_member(elems: Seq<Seq<char>>, item: Seq<char>, ranked: bool)
    requires
        ascending(elems, ranked),
    ensures
        ascending(with_member(elems, item, ranked), ranked),
        forall|e: Seq<char>|
            with_member(elems, item, ranked).contains(e) <==> elems.contains(e) || e == item,
        elems.contains(item) <==> with_member(elems, item, ranked) == elems,
{
    let k = first_not_less(elems, item, ranked, 0);
    let grown = with_member(elems, item, ranked);
    lemma_first_not_less(elems, item, ranked, 0);
    if k < elems.len() && elems[k] == item {
    } else {
        assert(!elems.contains(item)) by {
            if elems.contains(item) {
                let j = choose|j: int| 0 <= j < elems.len() && elems[j] == item;
                lemma_item_lt(item, item, item, ranked);
                if j > k {
                    assert(item_lt(elems[k], elems[j], ranked));
                }
            }
        }
        assert forall|i: int, j: int| 0 <= i < j < grown.len() implies item_lt(
            grown[i],
            grown[j],
            ranked,
        ) by {
            if j < k {
                assert(item_lt(elems[i], elems[j], ranked));
            } else if j == k {
                assert(grown[i] == elems[i]);
            } else if i == k {
                assert(grown[j] == elems[j - 1]);
                lemma_item_lt(elems[k], item, item, ranked);
                if j - 1 > k {
                    assert(item_lt(elems[k], elems[j - 1], ranked));
                    lemma_item_lt(item, elems[k], elems[j - 1], ranked);
                }
            } else if i < k {
                assert(item_lt(elems[i], elems[j - 1], ranked));
            } else {
                assert(item_lt(elems[i - 1], elems[j - 1], ranked));
            }
        }
        assert forall|e: Seq<char>| grown.contains(e) <==> elems.contains(e) || e == item by {
            if grown.contains(e) {
                let j = choose|j: int| 0 <= j < grown.len() && grown[j] == e;
                if j < k {
                    assert(elems[j] == e);
                } else if j > k {
                    assert(elems[j - 1] == e);
                }
            }
            if elems.contains(e) {
                let j = choose|j: int| 0 <= j < elems.len() && elems[j] == e;
                if j < k {
                    assert(grown[j] == e);
                } else {
                    assert(grown[j + 1] == e);
                }
            }
            if e == item {
                assert(grown[k] == e);
            }
        }
        assert(grown.len() != elems.len());
    }
}

/// The different texts among `items` are listed in ascending order, each
/// once (carbon first and hydrogen last where they are ranked), and they are
/// exactly the texts that occur among `items`.
pub proof fn lemma_distinct_sorted(items: Seq<Seq<char>>, ranked: bool)
    ensures
        ascending(distinct_sorted(items, ranked), ranked),
        forall|e: Seq<char>| distinct_sorted(items, ranked).contains(e) <==> items.contains(e),
    decreases items.len(),
{
    if items.len() > 0 {
        let before = items.drop_last();
        lemma_distinct_sorted(before, ranked);
        lemma_with_member(distinct_sorted(before, ranked), items.last(), ranked);
        assert forall|e: Seq<char>| items.contains(e) <==> before.contains(e) || e
            == items.last() by {
            if items.contains(e) {
                let j = choose|j: int| 0 <= j < items.len() && items[j] == e;
                if j < before.len() {
                    assert(before[j] == e);
                }
            }
            if before.contains(e) {
                let j = choose|j: int| 0 <= j < before.len() && before[j] == e;
                assert(items[j] == e);
            }
            if e == items.last() {
                assert(items[items.len() - 1] == e);
            }
        }
    }
}

/// A text that does not occur among `items` is counted zero times.
pub proof fn lemma_count_of_absent(items: Seq<Seq<char>>, item: Seq<char>)
    requires
        !items.contains(item),
    ensures
        count_of(items, item) == 0,
    decreases items.len(),
{
    if items.len() > 0 {
        assert(items[items.len() - 1] != item);
        assert forall|j: int| 0 <= j < items.drop_last().len() implies items.drop_last()[j]
            != item by {
            assert(items[j] != item);
        }
        lemma_count_of_absent(items.drop_last(), item);
    }
}

/// The digit that a character stands for; 0 for any character that is no
/// digit.
pub open spec fn digit_value(c: char) -> nat {
    if c == '1' {
        1
    } else if c == '2' {
        2
    } else if c == '3' {
        3
    } else if c == '4' {
        4
    } else if c == '5' {
        5
    } else if c == '6' {
        6
    } else if c == '7' {
        7
    } else if c == '8' {
        8
    } else if c == '9' {
        9
    } else {
        0
    }
}

/// The number that a text in decimal notation stands for.
pub open spec fn decimal_value(text: Seq<char>) -> nat
    decreases text.len(),
{
    if text.len() == 0 {
        0
    } else {
        decimal_value(text.drop_last()) * 10 + digit_value(text.last())
    }
}

/// A number in decimal notation stands for that number: different numbers
/// have different notations.
pub proof fn lemma_decimal_value(n: nat)
    ensures
        decimal_value(decimal_text(n)) == n,
    decreases n,
{
    let text = decimal_text(n);
    if n < 10 {
        assert(text.drop_last() =~= Seq::<char>::empty());
        assert(decimal_value(text.drop_last()) == 0);
        assert(digit_value(digit_char(n as int)) == n);
    } else {
        lemma_decimal_value(n / 10);
        assert(text.drop_last() =~= decimal_text(n / 10));
        assert(digit_value(digit_char((n % 10) as int)) == n % 10);
    }
    assert(decimal_value(text) == decimal_value(text.drop_last()) * 10 + digit_value(text.last()));
}

} // verus!
