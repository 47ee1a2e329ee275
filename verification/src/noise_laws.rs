//! What noise removal leaves behind.
//!
//! One pass of noise removal looks for patterns of one kind: a break
//! followed by a formation, or a formation followed by a break. This module
//! proves that after a pass no pattern of that kind is left with a frame to
//! invert, and from this, when a second pass changes nothing.
use crate::events::{
    event_code, event_codes, fixed_states, flip_from, flips_of, in_interior,
    lemma_noise_spans_contain,
    lemma_noise_spans_upto, lemma_skip_filler, lemma_skip_filler_over, noise_codes, noise_flips,
    noise_span, noise_spans, noise_starts_at, skip_filler, span_flips, toggled, BREAKING, FORMING,
    STEADY,
};
use vstd::prelude::*;

verus! {

/// Whether `first` and `second` are the two events of one kind of pattern.
pub open spec fn is_kind(first: u8, second: u8) -> bool {
    (first == BREAKING && second == FORMING) || (first == FORMING && second == BREAKING)
}

/// The bonding state between the two events of a pattern that starts with
/// `first`: unbonded after a break, bonded after a formation.
pub open spec fn state_within(first: u8) -> bool {
    first == FORMING
}

/// The frames that a pass for the patterns `first`, `second` inverts.
pub open spec fn pass_flips(states: Seq<bool>, first: u8, second: u8, life: nat) -> Seq<int> {
    flips_of(
        noise_spans(event_codes(states), STEADY, first, second, life),
        states.len() as int,
        life as int,
    )
}

/// The timeline after a pass for the patterns `first`, `second`.
pub open spec fn after_pass(states: Seq<bool>, first: u8, second: u8, life: nat) -> Seq<bool> {
    toggled(states, pass_flips(states, first, second, life))
}

/// Whether noise removal acts on the formations followed by a break: they
/// are more numerous than the breaks followed by a formation.
pub open spec fn prefers_form_break(states: Seq<bool>, life: nat) -> bool {
    noise_spans(event_codes(states), STEADY, BREAKING, FORMING, life).len() < noise_spans(
        event_codes(states),
        STEADY,
        FORMING,
        BREAKING,
        life,
    ).len()
}

/// Whether a second pass of noise removal acts on the same kind of pattern
/// as the first.
pub open spec fn keeps_kind(states: Seq<bool>, life: nat) -> bool {
    prefers_form_break(fixed_states(states, life), life) == prefers_form_break(states, life)
}

/// The frames that a second pass would invert if it acted on the kind of
/// pattern that the first pass did not act on.
pub open spec fn other_kind_flips(states: Seq<bool>, life: nat) -> Seq<int> {
    if prefers_form_break(states, life) {
        pass_flips(fixed_states(states, life), BREAKING, FORMING, life)
    } else {
        pass_flips(fixed_states(states, life), FORMING, BREAKING, life)
    }
}

/// Whether span `k` of `spans` lets frame `f` be inverted.
pub open spec fn covers(spans: Seq<(int, int)>, len: int, life: int, f: int, k: int) -> bool {
    0 <= k < spans.len() && spans[k].0 < f < spans[k].1 && in_interior(len, life, f)
}

/// A frame that is inverted lies within one of the spans, outside the
/// margins.
pub proof fn lemma_flip_has_span(spans: Seq<(int, int)>, len: int, life: int, f: int) -> (k: int)
    requires
        flips_of(spans, len, life).contains(f),
    ensures
        covers(spans, len, life, f, k),
    decreases spans.len(),
{
    let all = flips_of(spans, len, life);
    let i = choose|i: int| 0 <= i < all.len() && all[i] == f;
    let head = flips_of(spans.drop_last(), len, life);
    let last = span_flips(spans.last(), len, life);
    if i < head.len() {
        assert(head[i] == f);
        let k = lemma_flip_has_span(spans.drop_last(), len, life, f);
        assert(spans.drop_last()[k] == spans[k]);
        k
    } else {
        assert(last[i - head.len()] == f);
        spans.len() - 1
    }
}

/// A frame within a span and outside the margins is inverted.
pub proof fn lemma_span_gives_flip(spans: Seq<(int, int)>, len: int, life: int, f: int, k: int)
    requires
        covers(spans, len, life, f, k),
    ensures
        flips_of(spans, len, life).contains(f),
    decreases spans.len(),
{
    let all = flips_of(spans, len, life);
    let head = flips_of(spans.drop_last(), len, life);
    let last = span_flips(spans.last(), len, life);
    if k < spans.len() - 1 {
        assert(spans.drop_last()[k] == spans[k]);
        lemma_span_gives_flip(spans.drop_last(), len, life, f, k);
        let i = choose|i: int| 0 <= i < head.len() && head[i] == f;
        assert(all[i] == f);
    } else {
        let lo = flip_from(spans.last(), life);
        assert(last[f - lo] == f);
        assert(all[head.len() + (f - lo)] == f);
    }
}

/// Frames between which all events are steady are in the same state.
proof fn lemma_steady_run(states: Seq<bool>, from: int, to: int)
    requires
        0 <= from <= to < states.len(),
        forall|j: int| from <= j < to ==> #[trigger] event_codes(states)[j] == STEADY,
    ensures
        forall|f: int| from <= f <= to ==> states[f] == states[from],
    decreases to - from,
{
    if from < to {
        lemma_steady_run(states, from, to - 1);
        assert(event_codes(states)[to - 1] == STEADY);
    }
}

/// The states of a pattern: the frame of its first event and the frame
/// after its second event are in one state, all frames between them in the
/// other.
pub proof fn lemma_span_states(states: Seq<bool>, first: u8, second: u8, life: nat, start: int)
    requires
        is_kind(first, second),
        noise_starts_at(event_codes(states), STEADY, first, second, life, start),
    ensures
        ({
            let end = noise_span(event_codes(states), STEADY, start).1;
            &&& 0 <= start
            &&& start + 2 <= end <= states.len() - 1
            &&& end - start - 2 <= life
            &&& states[start] == !state_within(first)
            &&& states[end] == !state_within(first)
            &&& forall|f: int| start < f < end ==> #[trigger] states[f] == state_within(first)
        }),
{
    let code = event_codes(states);
    let stop = skip_filler(code, STEADY, start + 1);
    lemma_skip_filler(code, STEADY, start + 1);
    assert(code[start] == event_code(states[start], states[start + 1]));
    assert(code[stop] == event_code(states[stop], states[stop + 1]));
    lemma_steady_run(states, start + 1, stop);
}

/// Frames in the states of a pattern make a pattern.
pub proof fn lemma_states_span(
    states: Seq<bool>,
    first: u8,
    second: u8,
    life: nat,
    start: int,
    end: int,
)
    requires
        is_kind(first, second),
        0 <= start,
        start + 2 <= end <= states.len() - 1,
        end - start - 2 <= life,
        states[start] == !state_within(first),
        states[end] == !state_within(first),
        forall|f: int| start < f < end ==> #[trigger] states[f] == state_within(first),
    ensures
        noise_starts_at(event_codes(states), STEADY, first, second, life, start),
        noise_span(event_codes(states), STEADY, start) == (start, end),
{
    let code = event_codes(states);
    assert(code[start] == event_code(states[start], states[start + 1]));
    assert(states[start + 1] == state_within(first));
    assert(states[end - 1] == state_within(first));
    assert(code[end - 1] == event_code(states[end - 1], states[end]));
    assert forall|j: int| start + 1 <= j < end - 1 implies code[j] == STEADY by {
        assert(states[j] == state_within(first));
        assert(states[j + 1] == state_within(first));
    }
    lemma_skip_filler_over(code, STEADY, start + 1, end - 1);
    assert(skip_filler(code, STEADY, end - 1) == end - 1);
}

/// After a pass for one kind of pattern, a second pass for the same kind
/// finds no frame to invert.
pub proof fn lemma_pass_settles(states: Seq<bool>, first: u8, second: u8, life: nat)
    requires
        is_kind(first, second),
    ensures
        pass_flips(after_pass(states, first, second, life), first, second, life).len() == 0,
{
    let len = states.len() as int;
    let within = state_within(first);
    let code = event_codes(states);
    let spans = noise_spans(code, STEADY, first, second, life);
    let flips = pass_flips(states, first, second, life);
    let settled = after_pass(states, first, second, life);
    let code2 = event_codes(settled);
    let spans2 = noise_spans(code2, STEADY, first, second, life);
    let flips2 = pass_flips(settled, first, second, life);
    lemma_noise_spans_upto(code, STEADY, first, second, life, code.len() as int);
    lemma_noise_spans_upto(code2, STEADY, first, second, life, code2.len() as int);
    if flips2.len() > 0 {
        let i = flips2[0];
        assert(flips2.contains(i));
        let found = lemma_flip_has_span(spans2, len, life as int, i);
        let left = spans2[found].0;
        let right = spans2[found].1;
        lemma_span_states(settled, first, second, life, left);
        // a frame that the first pass inverted was within a pattern
        assert forall|f: int| 0 <= f < len && flips.contains(f) implies states[f] == within
            && settled[f] == !within by {
            let k = lemma_flip_has_span(spans, len, life as int, f);
            lemma_span_states(states, first, second, life, spans[k].0);
        }
        // so the frames between the two events were not inverted
        assert forall|f: int| left < f < right implies !flips.contains(f) && states[f] == within by {
            assert(settled[f] == within);
        }
        if flips.contains(left) {
            let k = lemma_flip_has_span(spans, len, life as int, left);
            let e = spans[k].1;
            lemma_span_states(states, first, second, life, spans[k].0);
            if e < right {
                assert(states[e] == within);
            }
            lemma_span_gives_flip(spans, len, life as int, i, k);
        } else if flips.contains(right) {
            let k = lemma_flip_has_span(spans, len, life as int, right);
            let p = spans[k].0;
            lemma_span_states(states, first, second, life, p);
            if p > left {
                assert(states[p] == within);
            }
            lemma_span_gives_flip(spans, len, life as int, i, k);
        } else {
            // the pattern was there before the pass, which inverted `i`
            assert(states[left] == settled[left]);
            assert(states[right] == settled[right]);
            lemma_states_span(states, first, second, life, left, right);
            lemma_noise_spans_contain(code, STEADY, first, second, life, code.len() as int, left);
            let k = choose|k: int| 0 <= k < spans.len() && spans[k] == (left, right);
            lemma_span_gives_flip(spans, len, life as int, i, k);
        }
        assert(flips.contains(i));
    }
}

/// Noise removal is a pass for the kind of pattern that it prefers.
pub proof fn lemma_fixed_is_pass(states: Seq<bool>, life: nat)
    ensures
        prefers_form_break(states, life) ==> noise_flips(states, life) == pass_flips(
            states,
            FORMING,
            BREAKING,
            life,
        ) && fixed_states(states, life) == after_pass(states, FORMING, BREAKING, life),
        !prefers_form_break(states, life) ==> noise_flips(states, life) == pass_flips(
            states,
            BREAKING,
            FORMING,
            life,
        ) && fixed_states(states, life) == after_pass(states, BREAKING, FORMING, life),
{
}

/// Where the second pass of noise removal acts on the same kind of pattern
/// as the first, it inverts nothing.
pub proof fn lemma_second_pass(states: Seq<bool>, life: nat)
    requires
        keeps_kind(states, life),
    ensures
        noise_flips(fixed_states(states, life), life).len() == 0,
{
    let fixed = fixed_states(states, life);
    lemma_fixed_is_pass(states, life);
    lemma_fixed_is_pass(fixed, life);
    if prefers_form_break(states, life) {
        lemma_pass_settles(states, FORMING, BREAKING, life);
    } else {
        lemma_pass_settles(states, BREAKING, FORMING, life);
    }
}

/// Noise removal applied twice gives the same timeline as applied once,
/// exactly if the second pass acts on the same kind of pattern as the first,
/// or the patterns of the other kind that the first pass leaves have no
/// frame outside the margins.
pub proof fn lemma_noise_idempotent(states: Seq<bool>, life: nat)
    ensures
        fixed_states(fixed_states(states, life), life) == fixed_states(states, life) <==> (
        keeps_kind(states, life) || other_kind_flips(states, life).len() == 0),
{
    let fixed = fixed_states(states, life);
    let again = noise_flips(fixed, life);
    lemma_fixed_is_pass(states, life);
    lemma_fixed_is_pass(fixed, life);
    if keeps_kind(states, life) {
        lemma_second_pass(states, life);
    } else {
        assert(again == other_kind_flips(states, life));
    }
    if again.len() == 0 {
        assert(fixed_states(fixed, life) =~= fixed);
    } else {
        let f = again[0];
        assert(again.contains(f));
        let spans = noise_codes(event_codes(fixed), life);
        let k = lemma_flip_has_span(spans, fixed.len() as int, life as int, f);
        assert(fixed_states(fixed, life)[f] != fixed[f]);
    }
}

} // verus!
