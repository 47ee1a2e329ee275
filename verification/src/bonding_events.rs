//! Bonding events recorded as numbers, one list for each pair of atoms: `1`
//! where the bond forms from one frame to the next, `-1` where it breaks, `0`
//! where it stays as it is.
use crate::events::{
    lemma_skip_filler, lemma_skip_filler_over, noise_span, noise_starts_at, spans_view, BREAKING,
    FORMING,
};
use crate::pairs::{lists_pairs, pair_lt, pairs_view};
use crate::text::{decimal_text, push_decimal};
use vstd::prelude::*;
use vstd::string::*;

verus! {

/// Code of a transition that leaves the bonding state as it is, in the text
/// of numbered events: `N`.
pub const NEUTRAL: u8 = 78;

/// Whether a noise pattern of either kind starts at `start`: a break, at
/// most `n_space` neutral codes, a formation; or a formation, at most
/// `n_space` neutral codes, a break.
pub open spec fn either_starts_at(code: Seq<u8>, n_space: nat, start: int) -> bool {
    noise_starts_at(code, NEUTRAL, BREAKING, FORMING, n_space, start) || noise_starts_at(
        code,
        NEUTRAL,
        FORMING,
        BREAKING,
        n_space,
        start,
    )
}

/// Spans of the noise patterns of either kind found at or after `from`,
/// reading from the left, each search starting where the last pattern ended.
pub open spec fn either_spans_from(code: Seq<u8>, n_space: nat, from: int) -> Seq<(int, int)>
    decreases code.len() - from,
{
    if from < 0 || from >= code.len() {
        Seq::empty()
    } else if either_starts_at(code, n_space, from) {
        proof {
            lemma_skip_filler(code, NEUTRAL, from + 1);
        }
        seq![noise_span(code, NEUTRAL, from)] + either_spans_from(
            code,
            n_space,
            noise_span(code, NEUTRAL, from).1,
        )
    } else {
        either_spans_from(code, n_space, from + 1)
    }
}

/// Finds the noise patterns of either kind in the text of events `code`, in
/// which `B` is a break, `F` a formation and `N` neither: a break followed by
/// a formation, or a formation followed by a break, with at most `n_space`
/// `N` between the two. Returns the start and the end (exclusive) of each,
/// reading from the left, each search starting where the last pattern ended.
pub fn find_noise_codes(code: &str, n_space: usize) -> (spans: Vec<(usize, usize)>)
    ensures
        spans_view(spans@) == either_spans_from(code.spec_bytes(), n_space as nat, 0),
{
    scan_either(code.as_bytes(), n_space)
}

/// Whether a pattern `first`, fillers, `second` starts at `start`, and where
/// it ends.
fn pattern_at(code: &[u8], first: u8, second: u8, n_space: usize, start: usize) -> (found: Option<
    usize,
>)
    requires
        start < code@.len(),
    ensures
        found is Some <==> noise_starts_at(code@, NEUTRAL, first, second, n_space as nat, start as int),
        found matches Some(end) ==> (start as int, end as int) == noise_span(
            code@,
            NEUTRAL,
            start as int,
        ) && start + 2 <= end <= code@.len(),
{
    if code[start] != first {
        return None;
    }
    let len = code.len();
    let mut stop: usize = start + 1;
    while stop < len && code[stop] == NEUTRAL && stop - start - 1 < n_space
        invariant
            len == code@.len(),
            start < stop <= len,
            stop - start - 1 <= n_space,
            forall|j: int| start < j < stop ==> code@[j] == NEUTRAL,
        decreases len - stop,
    {
        stop += 1;
    }
    proof {
        lemma_skip_filler_over(code@, NEUTRAL, start + 1, stop as int);
        lemma_skip_filler(code@, NEUTRAL, stop as int);
    }
    if stop < len && code[stop] != NEUTRAL && code[stop] == second {
        Some(stop + 1)
    } else {
        None
    }
}

fn scan_either(code: &[u8], n_space: usize) -> (spans: Vec<(usize, usize)>)
    ensures
        spans_view(spans@) == either_spans_from(code@, n_space as nat, 0),
        forall|k: int| 0 <= k < spans@.len() ==> (#[trigger] spans@[k]).0 + 2 <= spans@[k].1 <= code@.len(),
        forall|j: int, k: int| 0 <= j < k < spans@.len() ==> spans@[j].1 <= spans@[k].0,
{
    let len = code.len();
    let ghost life = n_space as nat;
    let mut spans: Vec<(usize, usize)> = Vec::new();
    let mut start: usize = 0;
    assert(spans_view(spans@) + either_spans_from(code@, life, 0) =~= either_spans_from(
        code@,
        life,
        0,
    ));
    while start < len
        invariant
            len == code@.len(),
            life == n_space,
            start <= len,
            spans_view(spans@) + either_spans_from(code@, life, start as int) == either_spans_from(
                code@,
                life,
                0,
            ),
            forall|k: int|
                0 <= k < spans@.len() ==> (#[trigger] spans@[k]).0 + 2 <= spans@[k].1 <= start,
            forall|j: int, k: int| 0 <= j < k < spans@.len() ==> spans@[j].1 <= spans@[k].0,
        decreases len - start,
    {
        let ghost before = spans_view(spans@);
        let found = match pattern_at(code, BREAKING, FORMING, n_space, start) {
            Some(end) => Some(end),
            None => pattern_at(code, FORMING, BREAKING, n_space, start),
        };
        match found {
            Some(end) => {
                spans.push((start, end));
                proof {
                    let span = noise_span(code@, NEUTRAL, start as int);
                    assert(spans_view(spans@) =~= before.push(span));
                    assert(before.push(span) + either_spans_from(code@, life, end as int) =~= before
                        + (seq![span] + either_spans_from(code@, life, end as int)));
                }
                start = end;
            },
            None => {
                start += 1;
            },
        }
    }
    assert(spans_view(spans@) + either_spans_from(code@, life, start as int) =~= spans_view(
        spans@,
    ));
    spans
}

/// Whether `event` is the number of an event: `1` for a formation, `-1` for
/// a break, `0` for neither.
pub open spec fn is_event(event: i32) -> bool {
    event == 1 || event == -1 || event == 0
}

/// Code of a numbered event: `F` for `1`, `B` for `-1`, `N` for `0`.
pub open spec fn number_code(event: i32) -> u8 {
    if event == 1 {
        FORMING
    } else if event == -1 {
        BREAKING
    } else {
        NEUTRAL
    }
}

/// Codes of numbered events.
pub open spec fn number_codes(events: Seq<i32>) -> Seq<u8> {
    Seq::new(events.len(), |i: int| number_code(events[i]))
}

/// Whether `i` is the first or the last position of one of `spans`.
pub open spec fn at_span_end(spans: Seq<(int, int)>, i: int) -> bool {
    exists|k: int| 0 <= k < spans.len() && ((#[trigger] spans[k]).0 == i || spans[k].1 - 1 == i)
}

/// The events with those at the two ends of every span set to `0`.
pub open spec fn cleared(events: Seq<i32>, spans: Seq<(int, int)>) -> Seq<i32> {
    Seq::new(
        events.len(),
        |i: int|
            if at_span_end(spans, i) {
                0i32
            } else {
                events[i]
            },
    )
}

/// The two ends of every span, each with the event found there, in the
/// order of the spans.
pub open spec fn span_ends(events: Seq<i32>, spans: Seq<(int, int)>) -> Seq<(int, i32)>
    decreases spans.len(),
{
    if spans.len() == 0 {
        Seq::empty()
    } else {
        span_ends(events, spans.drop_last()).push((spans.last().0, events[spans.last().0])).push(
            (spans.last().1 - 1, events[spans.last().1 - 1]),
        )
    }
}

/// Whether an event other than `0` lies outside the margins of `n_space`
/// events at the two ends.
pub open spec fn has_event_within(events: Seq<i32>, n_space: int) -> bool {
    exists|i: int| n_space <= i < events.len() - n_space && #[trigger] events[i] != 0
}

/// Those of `records` whose position is after the first `n_space` events or
/// before the last `n_space`.
pub open spec fn records_kept(records: Seq<(int, i32)>, len: int, n_space: int) -> Seq<(int, i32)> {
    records.filter(|r: (int, i32)| r.0 > n_space || r.0 < len - n_space)
}

/// Records held in machine integers, as records of mathematical integers.
pub open spec fn records_view(records: Seq<(usize, i32)>) -> Seq<(int, i32)> {
    Seq::new(records.len(), |k: int| (records[k].0 as int, records[k].1))
}

/// Find and remove matched noise event pattern: where a break is followed by
/// a formation, or a formation by a break, with at most `n_space` events `0`
/// between them, both are set to `0`. Returns whether an event other than
/// `0` is left outside the margins of `n_space` events at the two ends, and
/// the events that were set to `0`, each with its position.
///
/// Every event is `1`, `-1` or `0`, and the margins fit in the events.
pub fn remove_noise_bonding_events(bonding_events: &mut Vec<i32>, n_space: usize) -> (removed: (
    bool,
    Vec<(usize, i32)>,
))
    requires
        n_space + n_space <= old(bonding_events)@.len(),
        forall|i: int|
            0 <= i < old(bonding_events)@.len() ==> is_event(#[trigger] old(bonding_events)@[i]),
    ensures
        final(bonding_events)@ == cleared(
            old(bonding_events)@,
            either_spans_from(number_codes(old(bonding_events)@), n_space as nat, 0),
        ),
        removed.0 == has_event_within(final(bonding_events)@, n_space as int),
        records_view(removed.1@) == records_kept(
            span_ends(
                old(bonding_events)@,
                either_spans_from(number_codes(old(bonding_events)@), n_space as nat, 0),
            ),
            old(bonding_events)@.len() as int,
            n_space as int,
        ),
{
    let ghost initial = bonding_events@;
    let ghost codes = number_codes(initial);
    let length = bonding_events.len();
    // Convert events to codes
    let mut event_codes: Vec<u8> = Vec::new();
    let mut i: usize = 0;
    while i < length
        invariant
            length == bonding_events@.len(),
            bonding_events@ == initial,
            i <= length,
            event_codes@.len() == i,
            forall|j: int| 0 <= j < i ==> event_codes@[j] == number_code(initial[j]),
        decreases length - i,
    {
        let event = bonding_events[i];
        let code = if event == 1 {
            FORMING
        } else if event == -1 {
            BREAKING
        } else {
            NEUTRAL
        };
        event_codes.push(code);
        i += 1;
    }
    assert(event_codes@ =~= codes);
    // Find noise codes
    let matched_positions = scan_either(event_codes.as_slice(), n_space);
    let ghost spans = spans_view(matched_positions@);
    // Replace matched F/B (+1/-1) with N (0)
    let mut positions_with_noises: Vec<(usize, i32)> = Vec::new();
    let mut m: usize = 0;
    assert(bonding_events@ =~= cleared(initial, spans.take(0)));
    while m < matched_positions.len()
        invariant
            spans == spans_view(matched_positions@),
            length == initial.len(),
            bonding_events@.len() == length,
            m <= matched_positions@.len(),
            forall|k: int|
                0 <= k < matched_positions@.len() ==> (#[trigger] matched_positions@[k]).0 + 2
                    <= matched_positions@[k].1 <= length,
            forall|j: int, k: int|
                0 <= j < k < matched_positions@.len() ==> matched_positions@[j].1
                    <= matched_positions@[k].0,
            bonding_events@ == cleared(initial, spans.take(m as int)),
            records_view(positions_with_noises@) == span_ends(initial, spans.take(m as int)),
        decreases matched_positions@.len() - m,
    {
        let (start, end) = matched_positions[m];
        let ghost done = spans.take(m as int);
        let ghost held = records_view(positions_with_noises@);
        proof {
            assert(spans[m as int] == (start as int, end as int));
            assert(!at_span_end(done, start as int) && !at_span_end(done, end - 1)) by {
                if at_span_end(done, start as int) || at_span_end(done, end - 1) {
                    let i = if at_span_end(done, start as int) {
                        start as int
                    } else {
                        end - 1
                    };
                    let k = choose|k: int|
                        0 <= k < done.len() && ((#[trigger] done[k]).0 == i || done[k].1 - 1 == i);
                    assert(done[k] == spans[k]);
                    assert(matched_positions@[k].1 <= matched_positions@[m as int].0);
                }
            }
        }
        positions_with_noises.push((start, bonding_events[start]));
        bonding_events[start] = 0;
        positions_with_noises.push((end - 1, bonding_events[end - 1]));
        bonding_events[end - 1] = 0;
        proof {
            let more = spans.take(m + 1);
            assert(more.drop_last() =~= done);
            assert(more.last() == (start as int, end as int));
            assert(records_view(positions_with_noises@) =~= held.push(
                (start as int, initial[start as int]),
            ).push((end - 1, initial[end - 1])));
            assert forall|i: int| 0 <= i < length implies bonding_events@[i] == cleared(
                initial,
                more,
            )[i] by {
                if at_span_end(more, i) {
                    let k = choose|k: int|
                        0 <= k < more.len() && ((#[trigger] more[k]).0 == i || more[k].1 - 1 == i);
                    if k < m {
                        assert(done[k] == more[k]);
                        assert(at_span_end(done, i));
                    }
                } else {
                    assert(more[m as int] == (start as int, end as int));
                    if at_span_end(done, i) {
                        let k = choose|k: int|
                            0 <= k < done.len() && ((#[trigger] done[k]).0 == i || done[k].1 - 1
                                == i);
                        assert(more[k] == done[k]);
                    }
                }
            }
            assert(bonding_events@ =~= cleared(initial, more));
        }
        m += 1;
    }
    assert(spans.take(m as int) =~= spans);
    // NOTE: buffer region in both sides should not be affected by noise removing
    let mut has_reaction = false;
    let mut x: usize = n_space;
    while x < length - n_space && !has_reaction
        invariant
            bonding_events@.len() == length,
            n_space + n_space <= length,
            n_space <= x <= length - n_space,
            has_reaction ==> has_event_within(bonding_events@, n_space as int),
            !has_reaction ==> forall|j: int| n_space <= j < x ==> bonding_events@[j] == 0,
        decreases length - n_space - x + (if has_reaction {
            0int
        } else {
            1int
        }),
    {
        if bonding_events[x] != 0 {
            has_reaction = true;
        } else {
            x += 1;
        }
    }
    // Excluding frames in buffer region
    let ghost records = records_view(positions_with_noises@);
    let mut frames: Vec<(usize, i32)> = Vec::new();
    let mut r: usize = 0;
    assert(records.take(0) =~= Seq::<(int, i32)>::empty());
    while r < positions_with_noises.len()
        invariant
            records == records_view(positions_with_noises@),
            r <= positions_with_noises@.len(),
            n_space + n_space <= length,
            records_view(frames@) == records_kept(
                records.take(r as int),
                length as int,
                n_space as int,
            ),
        decreases positions_with_noises@.len() - r,
    {
        let (i, event) = positions_with_noises[r];
        let ghost before = records_view(frames@);
        proof {
            let keep = |r: (int, i32)| r.0 > n_space || r.0 < length - n_space;
            assert(records.take(r + 1) =~= records.take(r as int).push(records[r as int]));
            lemma_filter_push(records.take(r as int), records[r as int], keep);
        }
        if i > n_space || i < length - n_space {
            frames.push((i, event));
            assert(records_view(frames@) =~= before.push(records[r as int]));
        }
        r += 1;
    }
    assert(records.take(r as int) =~= records);
    (has_reaction, frames)
}

/// Filtering a list with one more item at its end.
proof fn lemma_filter_push(items: Seq<(int, i32)>, last: (int, i32), keep: spec_fn((int, i32)) -> bool)
    ensures
        items.push(last).filter(keep) == (if keep(last) {
            items.filter(keep).push(last)
        } else {
            items.filter(keep)
        }),
{
    reveal(Seq::filter);
    assert(items.push(last).drop_last() =~= items);
}

/// The events of one pair of atoms.
#[derive(Debug)]
struct PairEvents {
    u: usize,
    v: usize,
    events: Vec<i32>,
}

/// Bonding events for each pair of atoms
#[derive(Debug)]
pub struct BondingEvents {
    // one entry per pair, in ascending order of the pairs
    rows: Vec<PairEvents>,
}

spec fn key_of(row: PairEvents) -> (int, int) {
    (row.u as int, row.v as int)
}

spec fn rows_wf(rows: Seq<PairEvents>) -> bool {
    &&& forall|i: int| 0 <= i < rows.len() ==> (#[trigger] rows[i]).u <= rows[i].v
    &&& forall|i: int, j: int|
        0 <= i < j < rows.len() ==> pair_lt(#[trigger] key_of(rows[i]), #[trigger] key_of(rows[j]))
}

spec fn has_key(rows: Seq<PairEvents>, key: (int, int)) -> bool {
    exists|i: int| 0 <= i < rows.len() && #[trigger] key_of(rows[i]) == key
}

spec fn row_index(rows: Seq<PairEvents>, key: (int, int)) -> int {
    choose|i: int| 0 <= i < rows.len() && #[trigger] key_of(rows[i]) == key
}

spec fn rows_view(rows: Seq<PairEvents>) -> Map<(int, int), Seq<i32>> {
    Map::new(|k: (int, int)| has_key(rows, k), |k: (int, int)| rows[row_index(rows, k)].events@)
}

/// In well-formed rows a key is held by one row only.
proof fn lemma_row_index(rows: Seq<PairEvents>, i: int)
    requires
        rows_wf(rows),
        0 <= i < rows.len(),
    ensures
        has_key(rows, key_of(rows[i])),
        row_index(rows, key_of(rows[i])) == i,
{
    let j = row_index(rows, key_of(rows[i]));
    assert(key_of(rows[i]) == key_of(rows[i]));
    if j < i {
        assert(pair_lt(key_of(rows[j]), key_of(rows[i])));
    } else if i < j {
        assert(pair_lt(key_of(rows[i]), key_of(rows[j])));
    }
}

/// Well-formed rows hold as many pairs as there are rows.
proof fn lemma_rows_len(rows: Seq<PairEvents>)
    requires
        rows_wf(rows),
    ensures
        rows_view(rows).dom().finite(),
        rows_view(rows).dom().len() == rows.len(),
{
    let keys = Seq::new(rows.len(), |i: int| key_of(rows[i]));
    assert forall|i: int, j: int| 0 <= i < keys.len() && 0 <= j < keys.len() && i != j implies keys[i]
        != keys[j] by {
        if i < j {
            assert(pair_lt(key_of(rows[i]), key_of(rows[j])));
        } else {
            assert(pair_lt(key_of(rows[j]), key_of(rows[i])));
        }
    }
    assert forall|k: (int, int)| rows_view(rows).dom().contains(k) <==> keys.to_set().contains(
        k,
    ) by {
        if has_key(rows, k) {
            let i = row_index(rows, k);
            assert(keys[i] == k);
        }
        if keys.contains(k) {
            let i = choose|i: int| 0 <= i < keys.len() && keys[i] == k;
            assert(key_of(rows[i]) == k);
        }
    }
    assert(rows_view(rows).dom() =~= keys.to_set());
    keys.unique_seq_to_set();
}

impl View for BondingEvents {
    type V = Map<(int, int), Seq<i32>>;

    closed spec fn view(&self) -> Map<(int, int), Seq<i32>> {
        rows_view(self.rows@)
    }
}

/// The pair of `u` and `v`, the smaller first.
pub open spec fn pair_of(u: usize, v: usize) -> (int, int) {
    if u < v {
        (u as int, v as int)
    } else {
        (v as int, u as int)
    }
}

/// Finds the row of `(u, v)`: whether there is one, and its index, or else
/// the index at which a row for it would stand.
fn locate(rows: &Vec<PairEvents>, u: usize, v: usize) -> (found: (bool, usize))
    requires
        rows_wf(rows@),
    ensures
        found.1 <= rows@.len(),
        found.0 ==> found.1 < rows@.len() && key_of(rows@[found.1 as int]) == (u as int, v as int),
        found.0 == has_key(rows@, (u as int, v as int)),
        forall|i: int| 0 <= i < found.1 ==> pair_lt(#[trigger] key_of(rows@[i]), (u as int, v as int)),
        !found.0 ==> forall|i: int|
            found.1 <= i < rows@.len() ==> pair_lt((u as int, v as int), #[trigger] key_of(rows@[i])),
{
    let ghost key = (u as int, v as int);
    let mut at: usize = 0;
    while at < rows.len() && (rows[at].u < u || (rows[at].u == u && rows[at].v < v))
        invariant
            rows_wf(rows@),
            key == (u as int, v as int),
            at <= rows@.len(),
            forall|i: int| 0 <= i < at ==> pair_lt(#[trigger] key_of(rows@[i]), key),
        decreases rows@.len() - at,
    {
        at += 1;
    }
    let found = at < rows.len() && rows[at].u == u && rows[at].v == v;
    proof {
        if found {
            lemma_row_index(rows@, at as int);
        } else {
            assert forall|i: int| at <= i < rows@.len() implies pair_lt(
                key,
                #[trigger] key_of(rows@[i]),
            ) by {
                if at < i {
                    assert(pair_lt(key_of(rows@[at as int]), key_of(rows@[i])));
                }
            }
            if has_key(rows@, key) {
                let i = row_index(rows@, key);
                if i < at {
                    assert(pair_lt(key_of(rows@[i]), key));
                } else {
                    assert(pair_lt(key, key_of(rows@[i])));
                }
            }
        }
    }
    (found, at)
}

impl BondingEvents {
    #[verifier::type_invariant]
    spec fn well_formed(self) -> bool {
        rows_wf(self.rows@)
    }

    /// Bonding events of no pair.
    pub fn new() -> (events: Self)
        ensures
            events@ == Map::<(int, int), Seq<i32>>::empty(),
    {
        let events = BondingEvents { rows: Vec::new() };
        assert(events@ =~= Map::<(int, int), Seq<i32>>::empty());
        events
    }

    /// Insert bonding event value of atom pair `u` and `v`
    pub fn insert(&mut self, u: usize, v: usize, value: Vec<i32>)
        ensures
            final(self)@ == old(self)@.insert(pair_of(u, v), value@),
    {
        proof {
            use_type_invariant(&*self);
        }
        let (a, b) = if u < v {
            (u, v)
        } else {
            (v, u)
        };
        let mut rows: Vec<PairEvents> = Vec::new();
        std::mem::swap(&mut rows, &mut self.rows);
        let ghost before = rows@;
        let ghost key = (a as int, b as int);
        let ghost goal = rows_view(before).insert(key, value@);
        let (found, at) = locate(&rows, a, b);
        if found {
            rows[at].events = value;
            proof {
                let after = rows@;
                assert forall|i: int| 0 <= i < after.len() implies key_of(#[trigger] after[i])
                    == key_of(before[i]) by {}
                assert forall|i: int, j: int| 0 <= i < j < after.len() implies pair_lt(
                    #[trigger] key_of(after[i]),
                    #[trigger] key_of(after[j]),
                ) by {
                    assert(pair_lt(key_of(before[i]), key_of(before[j])));
                }
                assert forall|k: (int, int)| has_key(after, k) == goal.dom().contains(k) by {
                    if has_key(after, k) {
                        let i = row_index(after, k);
                        assert(key_of(before[i]) == k);
                    }
                    if has_key(before, k) {
                        let i = row_index(before, k);
                        assert(key_of(after[i]) == k);
                    }
                    if k == key {
                        assert(key_of(after[at as int]) == k);
                    }
                }
                assert forall|k: (int, int)| has_key(after, k) implies rows_view(after)[k]
                    == goal[k] by {
                    let i = row_index(after, k);
                    lemma_row_index(after, i);
                    assert(key_of(before[i]) == k);
                    lemma_row_index(before, i);
                }
                assert(rows_view(after) =~= goal);
            }
        } else {
            rows.insert(at, PairEvents { u: a, v: b, events: value });
            proof {
                let after = rows@;
                assert(key_of(after[at as int]) == key);
                assert forall|i: int, j: int| 0 <= i < j < after.len() implies pair_lt(
                    #[trigger] key_of(after[i]),
                    #[trigger] key_of(after[j]),
                ) by {
                    if j < at {
                        assert(pair_lt(key_of(before[i]), key_of(before[j])));
                    } else if j == at {
                        assert(after[i] == before[i]);
                    } else if i < at {
                        assert(pair_lt(key_of(before[i]), key_of(before[j - 1])));
                    } else if i == at {
                        assert(after[j] == before[j - 1]);
                    } else {
                        assert(pair_lt(key_of(before[i - 1]), key_of(before[j - 1])));
                    }
                }
                assert forall|k: (int, int)| has_key(after, k) == goal.dom().contains(k) by {
                    if has_key(after, k) {
                        let i = row_index(after, k);
                        if i < at {
                            assert(key_of(before[i]) == k);
                        } else if i > at {
                            assert(key_of(before[i - 1]) == k);
                        }
                    }
                    if has_key(before, k) {
                        let i = row_index(before, k);
                        if i < at {
                            assert(key_of(after[i]) == k);
                        } else {
                            assert(key_of(after[i + 1]) == k);
                        }
                    }
                    if k == key {
                        assert(key_of(after[at as int]) == k);
                    }
                }
                assert forall|k: (int, int)| has_key(after, k) implies rows_view(after)[k]
                    == goal[k] by {
                    let i = row_index(after, k);
                    lemma_row_index(after, i);
                    if i < at {
                        assert(key_of(before[i]) == k);
                        lemma_row_index(before, i);
                    } else if i > at {
                        assert(key_of(before[i - 1]) == k);
                        lemma_row_index(before, i - 1);
                    }
                }
                assert(rows_view(after) =~= goal);
            }
        }
        self.rows = rows;
    }

    /// Return the bonding event value for atom pair `u` and `v`
    pub fn get(&self, u: usize, v: usize) -> (value: Option<&Vec<i32>>)
        ensures
            value is Some <==> self@.dom().contains(pair_of(u, v)),
            value matches Some(events) ==> events@ == self@[pair_of(u, v)],
    {
        proof {
            use_type_invariant(self);
        }
        let (a, b) = if u < v {
            (u, v)
        } else {
            (v, u)
        };
        let (found, at) = locate(&self.rows, a, b);
        if found {
            proof {
                lemma_row_index(self.rows@, at as int);
            }
            Some(&self.rows[at].events)
        } else {
            None
        }
    }

    /// The bonding events size
    pub fn len(&self) -> (n: usize)
        ensures
            n == self@.dom().len(),
            self@.dom().finite(),
    {
        proof {
            use_type_invariant(self);
            lemma_rows_len(self.rows@);
        }
        self.rows.len()
    }
}

/// A number in decimal notation, with zeros before it where it has less than
/// three digits.
pub open spec fn padded_text(n: nat) -> Seq<char> {
    if n < 10 {
        "00"@ + decimal_text(n)
    } else if n < 100 {
        "0"@ + decimal_text(n)
    } else {
        decimal_text(n)
    }
}

/// The sign of an event: an arrow up for a formation, an arrow down for a
/// break, a dash for neither.
pub open spec fn signal_text(event: i32) -> Seq<char> {
    if event == 1 {
        "↑"@
    } else if event == -1 {
        "↓"@
    } else {
        "-"@
    }
}

/// The signs of the first `upto` of `events`.
pub open spec fn signals_text(events: Seq<i32>, upto: int) -> Seq<char>
    decreases upto,
{
    if upto <= 0 {
        Seq::empty()
    } else {
        signals_text(events, upto - 1) + signal_text(events[upto - 1])
    }
}

/// The line of one pair: its two atoms and the signs of its events.
pub open spec fn pair_line(pair: (int, int), events: Seq<i32>) -> Seq<char> {
    padded_text(pair.0 as nat) + "-"@ + padded_text(pair.1 as nat) + ": "@ + signals_text(
        events,
        events.len() as int,
    ) + "\n"@
}

/// The lines of the first `upto` of `pairs`.
pub open spec fn pair_lines(pairs: Seq<(int, int)>, events: Map<(int, int), Seq<i32>>, upto: int) -> Seq<
    char,
>
    decreases upto,
{
    if upto <= 0 {
        Seq::empty()
    } else {
        pair_lines(pairs, events, upto - 1) + pair_line(pairs[upto - 1], events[pairs[upto - 1]])
    }
}

/// The atoms of the first `upto` of `pairs`, separated by commas.
pub open spec fn pair_atoms(pairs: Seq<(int, int)>, upto: int) -> Seq<char>
    decreases upto,
{
    if upto <= 0 {
        Seq::empty()
    } else {
        pair_atoms(pairs, upto - 1) + (if upto > 1 {
            ","@
        } else {
            Seq::empty()
        }) + decimal_text(pairs[upto - 1].0 as nat) + ","@ + decimal_text(pairs[upto - 1].1 as nat)
    }
}

/// The report on the events of `pairs`.
pub open spec fn report_text(pairs: Seq<(int, int)>, events: Map<(int, int), Seq<i32>>) -> Seq<char> {
    if pairs.len() == 0 {
        "No chemical events\n"@
    } else {
        "bond pair: reaction codes\n"@ + pair_lines(pairs, events, pairs.len() as int)
            + "If view reaction atoms in jmol, you can use below commands:\n"@ + "select atomno=["@
            + pair_atoms(pairs, pairs.len() as int) + "]\nselectionhalo\nlabel %i\n"@
    }
}

/// Appends `n` in decimal notation, with at least three digits.
fn push_padded(text: &mut String, n: usize)
    ensures
        final(text)@ == old(text)@ + padded_text(n as nat),
{
    let ghost before = text@;
    if n < 10 {
        text.append("00");
    } else if n < 100 {
        text.append("0");
    }
    push_decimal(text, n);
    assert(text@ =~= before + padded_text(n as nat));
}

impl BondingEvents {
    /// The pairs in ascending order, as `pairs` returns them.
    pub closed spec fn listed_pairs(&self) -> Seq<(int, int)> {
        Seq::new(self.rows@.len(), |i: int| key_of(self.rows@[i]))
    }

    /// The pairs for which events are held, each once, in ascending order.
    pub fn pairs(&self) -> (pairs: Vec<[usize; 2]>)
        ensures
            pairs_view(pairs@) == self.listed_pairs(),
            lists_pairs(self.listed_pairs(), self@.dom()),
            forall|k: int| 0 <= k < pairs@.len() ==> (#[trigger] pairs@[k])[0] <= pairs@[k][1],
    {
        proof {
            use_type_invariant(self);
        }
        let mut pairs: Vec<[usize; 2]> = Vec::new();
        let mut i: usize = 0;
        while i < self.rows.len()
            invariant
                i <= self.rows@.len(),
                rows_wf(self.rows@),
                pairs@.len() == i,
                forall|j: int|
                    0 <= j < i ==> (#[trigger] pairs@[j])[0] == self.rows@[j].u && pairs@[j][1]
                        == self.rows@[j].v,
            decreases self.rows@.len() - i,
        {
            pairs.push([self.rows[i].u, self.rows[i].v]);
            i += 1;
        }
        proof {
            let listed = self.listed_pairs();
            assert(pairs_view(pairs@) =~= listed);
            assert forall|j: int, k: int| 0 <= j < k < listed.len() implies pair_lt(
                listed[j],
                listed[k],
            ) by {
                assert(pair_lt(key_of(self.rows@[j]), key_of(self.rows@[k])));
            }
            assert forall|k: int| 0 <= k < listed.len() implies self@.dom().contains(
                #[trigger] listed[k],
            ) by {
                lemma_row_index(self.rows@, k);
            }
            assert forall|key: (int, int)| self@.dom().contains(key) implies listed.contains(key) by {
                let i = row_index(self.rows@, key);
                assert(listed[i] == key);
            }
        }
        pairs
    }

    /// Print chemical events for manual inspection: returns the report, one
    /// line for each pair with its two atoms and the signs of its events,
    /// and the commands that select these atoms in a viewer.
    pub fn print(&self) -> (report: String)
        ensures
            report@ == report_text(self.listed_pairs(), self@),
    {
        proof {
            use_type_invariant(self);
        }
        let ghost pairs = self.listed_pairs();
        let ghost events = self@;
        let n = self.rows.len();
        let mut report = String::new();
        if n == 0 {
            report.append("No chemical events\n");
            assert(report@ =~= report_text(pairs, events));
            return report;
        }
        report.append("bond pair: reaction codes\n");
        let mut i: usize = 0;
        while i < n
            invariant
                n == self.rows@.len(),
                rows_wf(self.rows@),
                pairs == self.listed_pairs(),
                events == self@,
                i <= n,
                report@ == "bond pair: reaction codes\n"@ + pair_lines(pairs, events, i as int),
            decreases n - i,
        {
            let row = &self.rows[i];
            let ghost before = report@;
            proof {
                lemma_row_index(self.rows@, i as int);
                assert(pairs[i as int] == key_of(*row));
                assert(events[pairs[i as int]] == row.events@);
            }
            push_padded(&mut report, row.u);
            report.append("-");
            push_padded(&mut report, row.v);
            report.append(": ");
            let ghost head = report@;
            let mut k: usize = 0;
            while k < row.events.len()
                invariant
                    k <= row.events@.len(),
                    report@ == head + signals_text(row.events@, k as int),
                decreases row.events@.len() - k,
            {
                let ghost sofar = report@;
                let event = row.events[k];
                if event == 1 {
                    report.append("↑");
                } else if event == -1 {
                    report.append("↓");
                } else {
                    report.append("-");
                }
                assert(report@ =~= head + signals_text(row.events@, k + 1));
                k += 1;
            }
            report.append("\n");
            assert(report@ =~= before + pair_line(pairs[i as int], events[pairs[i as int]]));
            assert(report@ =~= "bond pair: reaction codes\n"@ + pair_lines(pairs, events, i + 1));
            i += 1;
        }
        report.append("If view reaction atoms in jmol, you can use below commands:\n");
        report.append("select atomno=[");
        let ghost head = report@;
        let mut i: usize = 0;
        while i < n
            invariant
                n == self.rows@.len(),
                pairs == self.listed_pairs(),
                i <= n,
                report@ == head + pair_atoms(pairs, i as int),
            decreases n - i,
        {
            let row = &self.rows[i];
            assert(pairs[i as int] == key_of(*row));
            if i > 0 {
                report.append(",");
            }
            push_decimal(&mut report, row.u);
            report.append(",");
            push_decimal(&mut report, row.v);
            assert(report@ =~= head + pair_atoms(pairs, i + 1));
            i += 1;
        }
        report.append("]\nselectionhalo\nlabel %i\n");
        assert(report@ =~= report_text(pairs, events));
        report
    }
}

impl Default for BondingEvents {
    fn default() -> (events: Self)
        ensures
            events@ == Map::<(int, int), Seq<i32>>::empty(),
    {
        BondingEvents::new()
    }
}

} // verus!
