//! Bonding events of one atom pair and the removal of short-lived noise.
//!
//! A timeline is a sequence of bonding states, one per frame. Between two
//! neighbouring frames the bond forms, breaks or stays as it is; the codes of
//! these transitions, one per pair of neighbouring frames, are the events of
//! the timeline. A bond that breaks and forms again (or forms and breaks
//! again) within a few frames is thermal noise, and the states in between
//! are inverted to remove it.
use crate::pairs::numbers_view;
use vstd::prelude::*;
use vstd::string::*;
use vstd::utf8::*;

verus! {

/// Code of a transition in which the bond forms: `F`.
pub const FORMING: u8 = 70;

/// Code of a transition in which the bond breaks: `B`.
pub const BREAKING: u8 = 66;

/// Code of a transition that leaves the bonding state as it is: `-`.
pub const STEADY: u8 = 45;

/// Code of the transition from a frame in state `a` to one in state `b`.
pub open spec fn event_code(a: bool, b: bool) -> u8 {
    if !a && b {
        FORMING
    } else if a && !b {
        BREAKING
    } else {
        STEADY
    }
}

/// The same transition as a character.
pub open spec fn event_char(a: bool, b: bool) -> char {
    if !a && b {
        'F'
    } else if a && !b {
        'B'
    } else {
        '-'
    }
}

/// Number of events of a timeline of `len` frames.
pub open spec fn event_count(len: nat) -> nat {
    if len == 0 {
        0
    } else {
        (len - 1) as nat
    }
}

/// Event codes of a timeline: entry `i` is the transition from frame `i` to
/// frame `i + 1`.
pub open spec fn event_codes(states: Seq<bool>) -> Seq<u8> {
    Seq::new(event_count(states.len()), |i: int| event_code(states[i], states[i + 1]))
}

/// Events of a timeline as text over the alphabet `-`, `F`, `B`.
pub open spec fn events_text(states: Seq<bool>) -> Seq<char> {
    Seq::new(event_count(states.len()), |i: int| event_char(states[i], states[i + 1]))
}

/// Index of the first code at or after `from` that is not `filler`, or the
/// length of `code` where only fillers follow.
pub open spec fn skip_filler(code: Seq<u8>, filler: u8, from: int) -> int
    decreases code.len() - from,
{
    if 0 <= from < code.len() && code[from] == filler {
        skip_filler(code, filler, from + 1)
    } else {
        from
    }
}

/// Whether a noise pattern starts at `start`: the code `first`, then at most
/// `n_space` fillers, then the code `second`.
pub open spec fn noise_starts_at(
    code: Seq<u8>,
    filler: u8,
    first: u8,
    second: u8,
    n_space: nat,
    start: int,
) -> bool {
    let stop = skip_filler(code, filler, start + 1);
    &&& 0 <= start < code.len()
    &&& code[start] == first
    &&& stop < code.len()
    &&& code[stop] == second
    &&& stop - start - 1 <= n_space
}

/// Span of the pattern that starts at `start`: its start and its end, the end
/// exclusive.
pub open spec fn noise_span(code: Seq<u8>, filler: u8, start: int) -> (int, int) {
    (start, skip_filler(code, filler, start + 1) + 1)
}

/// Spans of the patterns that start before `upto`, in ascending order.
pub open spec fn noise_spans_upto(
    code: Seq<u8>,
    filler: u8,
    first: u8,
    second: u8,
    n_space: nat,
    upto: int,
) -> Seq<(int, int)>
    decreases upto,
{
    if upto <= 0 {
        Seq::empty()
    } else {
        let before = noise_spans_upto(code, filler, first, second, n_space, upto - 1);
        if noise_starts_at(code, filler, first, second, n_space, upto - 1) {
            before.push(noise_span(code, filler, upto - 1))
        } else {
            before
        }
    }
}

/// Spans of all patterns `first`, fillers, `second` in `code`, in ascending
/// order.
pub open spec fn noise_spans(code: Seq<u8>, filler: u8, first: u8, second: u8, n_space: nat) -> Seq<
    (int, int),
> {
    noise_spans_upto(code, filler, first, second, n_space, code.len() as int)
}

/// The spans that noise removal acts on: those of a break followed by a
/// formation, unless formations followed by a break are more numerous.
pub open spec fn noise_codes(code: Seq<u8>, n_space: nat) -> Seq<(int, int)> {
    let break_form = noise_spans(code, STEADY, BREAKING, FORMING, n_space);
    let form_break = noise_spans(code, STEADY, FORMING, BREAKING, n_space);
    if break_form.len() < form_break.len() {
        form_break
    } else {
        break_form
    }
}

/// Whether frame `i` of a timeline of `len` frames lies outside the two
/// margins of `life` frames each.
pub open spec fn in_interior(len: int, life: int, i: int) -> bool {
    life <= i < len - life
}

/// First frame that `span` lets invert.
pub open spec fn flip_from(span: (int, int), life: int) -> int {
    if span.0 + 1 < life {
        life
    } else {
        span.0 + 1
    }
}

/// End, exclusive, of the frames that `span` lets invert.
pub open spec fn flip_to(span: (int, int), len: int, life: int) -> int {
    if span.1 < len - life {
        span.1
    } else {
        len - life
    }
}

/// Frames inverted for one span: those after its first event up to its last
/// that lie in the interior, ascending.
pub open spec fn span_flips(span: (int, int), len: int, life: int) -> Seq<int> {
    let lo = flip_from(span, life);
    let hi = flip_to(span, len, life);
    if lo < hi {
        Seq::new((hi - lo) as nat, |k: int| lo + k)
    } else {
        Seq::empty()
    }
}

/// Frames inverted for a list of spans, span by span.
pub open spec fn flips_of(spans: Seq<(int, int)>, len: int, life: int) -> Seq<int>
    decreases spans.len(),
{
    if spans.len() == 0 {
        Seq::empty()
    } else {
        flips_of(spans.drop_last(), len, life) + span_flips(spans.last(), len, life)
    }
}

/// Frames of a timeline that noise removal inverts.
pub open spec fn noise_flips(states: Seq<bool>, life: nat) -> Seq<int> {
    flips_of(noise_codes(event_codes(states), life), states.len() as int, life as int)
}

/// `states` with the state of each frame in `frames` inverted.
pub open spec fn toggled(states: Seq<bool>, frames: Seq<int>) -> Seq<bool> {
    Seq::new(
        states.len(),
        |i: int|
            if frames.contains(i) {
                !states[i]
            } else {
                states[i]
            },
    )
}

/// The timeline that noise removal leaves.
pub open spec fn fixed_states(states: Seq<bool>, life: nat) -> Seq<bool> {
    toggled(states, noise_flips(states, life))
}

/// Positions of the events of a timeline that are not steady, ascending.
pub open spec fn reactive_events_upto(states: Seq<bool>, upto: int) -> Seq<int>
    decreases upto,
{
    if upto <= 0 {
        Seq::empty()
    } else {
        let before = reactive_events_upto(states, upto - 1);
        if event_code(states[upto - 1], states[upto]) != STEADY {
            before.push(upto - 1)
        } else {
            before
        }
    }
}

/// Positions of all events of a timeline that are not steady, ascending.
pub open spec fn reactive_events(states: Seq<bool>) -> Seq<int> {
    reactive_events_upto(states, event_count(states.len()) as int)
}

/// Spans held in machine integers, as spans of mathematical integers.
pub open spec fn spans_view(spans: Seq<(usize, usize)>) -> Seq<(int, int)> {
    Seq::new(spans.len(), |k: int| (spans[k].0 as int, spans[k].1 as int))
}



/// Every code that `skip_filler` passes over is a filler, and the code at
/// which it stops is not.
pub proof fn lemma_skip_filler(code: Seq<u8>, filler: u8, from: int)
    requires
        0 <= from,
    ensures
        from <= skip_filler(code, filler, from),
        from <= code.len() ==> skip_filler(code, filler, from) <= code.len(),
        forall|j: int| from <= j < skip_filler(code, filler, from) ==> code[j] == filler,
        skip_filler(code, filler, from) < code.len() ==> code[skip_filler(code, filler, from)] != filler,
    decreases code.len() - from,
{
    if from < code.len() && code[from] == filler {
        lemma_skip_filler(code, filler, from + 1);
    }
}

/// Skipping from `from` passes `upto` where all codes between them are
/// fillers.
pub proof fn lemma_skip_filler_over(code: Seq<u8>, filler: u8, from: int, upto: int)
    requires
        0 <= from <= upto <= code.len(),
        forall|j: int| from <= j < upto ==> code[j] == filler,
    ensures
        skip_filler(code, filler, from) == skip_filler(code, filler, upto),
    decreases upto - from,
{
    if from < upto {
        lemma_skip_filler_over(code, filler, from + 1, upto);
    }
}

/// Spans found before `upto` start before `upto`, lie inside `code`, and
/// appear in the order of their starts.
pub proof fn lemma_noise_spans_upto(code: Seq<u8>, filler: u8, first: u8, second: u8, n_space: nat, upto: int)
    requires
        upto <= code.len(),
    ensures
        forall|k: int|
            0 <= k < noise_spans_upto(code, filler, first, second, n_space, upto).len() ==> {
                let span = #[trigger] noise_spans_upto(code, filler, first, second, n_space, upto)[k];
                &&& 0 <= span.0 < upto
                &&& span.0 + 2 <= span.1 <= code.len()
                &&& span.1 - span.0 - 2 <= n_space
                &&& noise_starts_at(code, filler, first, second, n_space, span.0)
                &&& span == noise_span(code, filler, span.0)
            },
        forall|j: int, k: int|
            0 <= j < k < noise_spans_upto(code, filler, first, second, n_space, upto).len() ==> (
            #[trigger] noise_spans_upto(code, filler, first, second, n_space, upto)[j]).0 < (
            #[trigger] noise_spans_upto(code, filler, first, second, n_space, upto)[k]).0,
    decreases upto,
{
    if upto > 0 {
        lemma_noise_spans_upto(code, filler, first, second, n_space, upto - 1);
        lemma_skip_filler(code, filler, upto);
        let here = noise_spans_upto(code, filler, first, second, n_space, upto);
        let before = noise_spans_upto(code, filler, first, second, n_space, upto - 1);
        assert forall|k: int| 0 <= k < here.len() implies {
            let span = #[trigger] here[k];
            &&& 0 <= span.0 < upto
            &&& span.0 + 2 <= span.1 <= code.len()
            &&& span.1 - span.0 - 2 <= n_space
            &&& noise_starts_at(code, filler, first, second, n_space, span.0)
            &&& span == noise_span(code, filler, span.0)
        } by {
            if k < before.len() {
                assert(here[k] == before[k]);
            }
        }
        assert forall|j: int, k: int| 0 <= j < k < here.len() implies (#[trigger] here[j]).0 < (
        #[trigger] here[k]).0 by {
            assert(here[j] == before[j]);
            if k < before.len() {
                assert(here[k] == before[k]);
            }
        }
    }
}

/// A pattern that starts at `start` is among the spans found before `upto`
/// exactly if `start` is before `upto`.
pub proof fn lemma_noise_spans_contain(
    code: Seq<u8>,
    filler: u8,
    first: u8,
    second: u8,
    n_space: nat,
    upto: int,
    start: int,
)
    requires
        noise_starts_at(code, filler, first, second, n_space, start),
        start < upto,
    ensures
        noise_spans_upto(code, filler, first, second, n_space, upto).contains(noise_span(code, filler, start)),
    decreases upto,
{
    let here = noise_spans_upto(code, filler, first, second, n_space, upto);
    if start == upto - 1 {
        assert(here.last() == noise_span(code, filler, start));
    } else {
        lemma_noise_spans_contain(code, filler, first, second, n_space, upto - 1, start);
        let before = noise_spans_upto(code, filler, first, second, n_space, upto - 1);
        let k = choose|k: int| 0 <= k < before.len() && before[k] == noise_span(code, filler, start);
        assert(here[k] == noise_span(code, filler, start));
    }
}

/// Spans of a pattern whose two ends differ, the first no filler, do not
/// overlap: each ends before the next one starts.
pub proof fn lemma_noise_spans_apart(code: Seq<u8>, filler: u8, first: u8, second: u8, n_space: nat)
    requires
        first != second,
        first != filler,
    ensures
        forall|j: int, k: int|
            0 <= j < k < noise_spans(code, filler, first, second, n_space).len() ==> (
            #[trigger] noise_spans(code, filler, first, second, n_space)[j]).1 <= (
            #[trigger] noise_spans(code, filler, first, second, n_space)[k]).0,
{
    let spans = noise_spans(code, filler, first, second, n_space);
    lemma_noise_spans_upto(code, filler, first, second, n_space, code.len() as int);
    assert forall|j: int, k: int| 0 <= j < k < spans.len() implies (#[trigger] spans[j]).1 <= (
    #[trigger] spans[k]).0 by {
        let a = spans[j];
        let b = spans[k];
        lemma_skip_filler(code, filler, a.0 + 1);
        if b.0 < a.1 {
            // the later start would be a filler or the earlier span's last code
            assert(code[b.0] == filler || b.0 == a.1 - 1);
        }
    }
}

/// The spans that noise removal acts on lie inside `code`, hold at least two
/// events each, and do not overlap.
pub proof fn lemma_noise_codes(code: Seq<u8>, n_space: nat)
    ensures
        forall|k: int|
            0 <= k < noise_codes(code, n_space).len() ==> {
                let span = #[trigger] noise_codes(code, n_space)[k];
                &&& 0 <= span.0
                &&& span.0 + 2 <= span.1 <= code.len()
                &&& span.1 - span.0 - 2 <= n_space
            },
        forall|j: int, k: int|
            0 <= j < k < noise_codes(code, n_space).len() ==> (#[trigger] noise_codes(
                code,
                n_space,
            )[j]).1 <= (#[trigger] noise_codes(code, n_space)[k]).0,
{
    lemma_noise_spans_upto(code, STEADY, BREAKING, FORMING, n_space, code.len() as int);
    lemma_noise_spans_upto(code, STEADY, FORMING, BREAKING, n_space, code.len() as int);
    lemma_noise_spans_apart(code, STEADY, BREAKING, FORMING, n_space);
    lemma_noise_spans_apart(code, STEADY, FORMING, BREAKING, n_space);
}

/// The text of the events of a timeline holds only `-`, `F` and `B`, and its
/// bytes are the event codes.
pub proof fn lemma_events_text(states: Seq<bool>)
    ensures
        events_text(states).len() == event_count(states.len()),
        forall|i: int|
            0 <= i < events_text(states).len() ==> {
                let c = #[trigger] events_text(states)[i];
                c == '-' || c == 'F' || c == 'B'
            },
        is_ascii_chars(events_text(states)),
        encode_utf8(events_text(states)) == event_codes(states),
{
    let text = events_text(states);
    assert(is_ascii_chars(text));
    is_ascii_chars_encode_utf8(text);
    assert(encode_utf8(text) =~= event_codes(states));
}


/// Renders the events of a timeline as text: `F` where the bond forms from
/// one frame to the next, `B` where it breaks, `-` otherwise.
pub fn states_to_events(states: &[bool]) -> (code: String)
    ensures
        code@ == events_text(states@),
        code@.len() == event_count(states@.len()),
        forall|i: int| 0 <= i < code@.len() ==> code@[i] == '-' || code@[i] == 'F' || code@[i] == 'B',
{
    let mut code = String::new();
    let nframes = states.len();
    if nframes == 0 {
        assert(code@ =~= events_text(states@));
        return code;
    }
    let mut i: usize = 0;
    while i + 1 < nframes
        invariant
            nframes == states@.len(),
            i + 1 <= nframes,
            code@ == events_text(states@).subrange(0, i as int),
        decreases nframes - i,
    {
        let state1 = states[i];
        let state2 = states[i + 1];
        if !state1 && state2 {
            proof {
                reveal_strlit("F");
            }
            code.append("F");
        } else if state1 && !state2 {
            proof {
                reveal_strlit("B");
            }
            code.append("B");
        } else {
            proof {
                reveal_strlit("-");
            }
            code.append("-");
        }
        assert(code@ =~= events_text(states@).subrange(0, i + 1));
        i += 1;
    }
    assert(code@ =~= events_text(states@));
    proof {
        lemma_events_text(states@);
    }
    code
}

/// Finds the spans of the pattern `first`, at most `n_space` fillers,
/// `second` in `code`.
pub fn scan_noise_spans(code: &[u8], filler: u8, first: u8, second: u8, n_space: usize) -> (spans: Vec<
    (usize, usize),
>)
    ensures
        spans_view(spans@) == noise_spans(code@, filler, first, second, n_space as nat),
{
    let len = code.len();
    let mut spans: Vec<(usize, usize)> = Vec::new();
    let mut start: usize = 0;
    assert(spans_view(spans@) =~= noise_spans_upto(code@, filler, first, second, n_space as nat, 0));
    while start < len
        invariant
            len == code@.len(),
            start <= len,
            spans_view(spans@) == noise_spans_upto(
                code@,
                filler,
                first,
                second,
                n_space as nat,
                start as int,
            ),
        decreases len - start,
    {
        let ghost before = spans_view(spans@);
        if code[start] == first {
            let mut stop: usize = start + 1;
            while stop < len && code[stop] == filler && stop - start - 1 < n_space
                invariant
                    len == code@.len(),
                    start < stop <= len,
                    stop - start - 1 <= n_space,
                    forall|j: int| start < j < stop ==> code@[j] == filler,
                decreases len - stop,
            {
                stop += 1;
            }
            proof {
                lemma_skip_filler_over(code@, filler, start + 1, stop as int);
                lemma_skip_filler(code@, filler, stop as int);
            }
            if stop < len && code[stop] != filler && code[stop] == second {
                assert(noise_starts_at(code@, filler, first, second, n_space as nat, start as int));
                spans.push((start, stop + 1));
                assert(spans_view(spans@) =~= before.push(noise_span(code@, filler, start as int)));
            } else {
                assert(!noise_starts_at(code@, filler, first, second, n_space as nat, start as int));
            }
        }
        start += 1;
    }
    spans
}

/// Finds the noise patterns in the text of events `code`: a break followed
/// by a formation, or a formation followed by a break, with at most `n_space`
/// steady events between the two. Returns the start and the end (exclusive)
/// of each pattern of the kind that occurs more often, in ascending order;
/// where both occur equally often, those of a break followed by a formation.
pub fn find_noise_codes(code: &str, n_space: usize) -> (spans: Vec<(usize, usize)>)
    ensures
        spans_view(spans@) == noise_codes(code.spec_bytes(), n_space as nat),
{
    let bytes = code.as_bytes();
    let positions1 = scan_noise_spans(bytes, STEADY, BREAKING, FORMING, n_space);
    let positions2 = scan_noise_spans(bytes, STEADY, FORMING, BREAKING, n_space);
    if positions1.len() < positions2.len() {
        positions2
    } else {
        positions1
    }
}

/// Frames of `span` inverted so far when the frames before `upto` are done.
pub open spec fn span_flips_upto(span: (int, int), len: int, life: int, upto: int) -> Seq<int> {
    let lo = flip_from(span, life);
    let hi = if upto < flip_to(span, len, life) {
        upto
    } else {
        flip_to(span, len, life)
    };
    if lo < hi {
        Seq::new((hi - lo) as nat, |k: int| lo + k)
    } else {
        Seq::empty()
    }
}

/// Removes noise from a timeline: in every noise pattern of its events (see
/// `find_noise_codes`, with `noise_event_life` as the number of steady events
/// allowed) the states between the two events are inverted, except in the
/// first and the last `noise_event_life` frames of the timeline, which are
/// left as they are. Returns the inverted frames in ascending order.
///
/// The timeline holds frames outside the two margins: more than twice
/// `noise_event_life`.
pub fn fix_noise_states(states: &mut [bool], noise_event_life: usize) -> (inverted: Vec<usize>)
    requires
        2 * noise_event_life < old(states)@.len(),
    ensures
        final(states)@ == fixed_states(old(states)@, noise_event_life as nat),
        numbers_view(inverted@) == noise_flips(old(states)@, noise_event_life as nat),
        forall|k: int|
            0 <= k < inverted@.len() ==> noise_event_life <= #[trigger] inverted@[k]
                < old(states)@.len() - noise_event_life,
        forall|j: int, k: int| 0 <= j < k < inverted@.len() ==> inverted@[j] < inverted@[k],
{
    let ecode = states_to_events(states);
    let matched = find_noise_codes(ecode.as_str(), noise_event_life);
    let ghost initial = states@;
    let ghost spans = noise_codes(event_codes(initial), noise_event_life as nat);
    let ghost len = initial.len() as int;
    let ghost life = noise_event_life as int;
    proof {
        lemma_events_text(initial);
        lemma_noise_codes(event_codes(initial), noise_event_life as nat);
    }
    let istart = noise_event_life;
    let iend = states.len() - noise_event_life;
    let mut inverted: Vec<usize> = Vec::new();
    let mut m: usize = 0;
    assert(numbers_view(inverted@) =~= flips_of(spans.take(0), len, life));
    assert(states@ =~= toggled(initial, numbers_view(inverted@)));
    while m < matched.len()
        invariant
            spans_view(matched@) == spans,
            spans == noise_codes(event_codes(initial), noise_event_life as nat),
            len == initial.len(),
            life == noise_event_life,
            istart == noise_event_life,
            iend == len - life,
            states@.len() == len,
            m <= matched@.len(),
            forall|k: int|
                0 <= k < spans.len() ==> 0 <= (#[trigger] spans[k]).0 && spans[k].0 + 2
                    <= spans[k].1 <= len - 1,
            forall|j: int, k: int|
                0 <= j < k < spans.len() ==> (#[trigger] spans[j]).1 <= (#[trigger] spans[k]).0,
            numbers_view(inverted@) == flips_of(spans.take(m as int), len, life),
            states@ == toggled(initial, numbers_view(inverted@)),
            forall|k: int| 0 <= k < inverted@.len() ==> life <= #[trigger] inverted@[k] < len - life,
            forall|j: int, k: int| 0 <= j < k < inverted@.len() ==> inverted@[j] < inverted@[k],
            m > 0 ==> forall|k: int|
                0 <= k < inverted@.len() ==> #[trigger] inverted@[k] < spans[m - 1].1,
        decreases matched@.len() - m,
    {
        let (start, end) = matched[m];
        let ghost span = spans[m as int];
        let ghost done = numbers_view(inverted@);
        assert(span == (start as int, end as int));
        assert(m > 0 ==> spans[m - 1].1 <= span.0);
        let mut i: usize = start + 1;
        assert(done + span_flips_upto(span, len, life, i as int) =~= done);
        while i < end
            invariant
                span == (start as int, end as int),
                start + 2 <= end <= len - 1,
                start + 1 <= i <= end,
                len == initial.len(),
                life == noise_event_life,
                istart == noise_event_life,
                iend == len - life,
                states@.len() == len,
                numbers_view(inverted@) == done + span_flips_upto(span, len, life, i as int),
                states@ == toggled(initial, numbers_view(inverted@)),
                forall|k: int|
                    0 <= k < inverted@.len() ==> life <= #[trigger] inverted@[k] < len - life,
                forall|j: int, k: int| 0 <= j < k < inverted@.len() ==> inverted@[j] < inverted@[k],
                forall|k: int| 0 <= k < inverted@.len() ==> #[trigger] inverted@[k] < i,
            decreases end - i,
        {
            let ghost sofar = numbers_view(inverted@);
            if i >= istart && i < iend {
                assert(!sofar.contains(i as int)) by {
                    if sofar.contains(i as int) {
                        let k = choose|k: int| 0 <= k < sofar.len() && sofar[k] == i as int;
                        assert(inverted@[k] < i);
                    }
                }
                states[i] = !states[i];
                inverted.push(i);
                assert(numbers_view(inverted@) =~= sofar.push(i as int));
                assert(sofar.push(i as int) =~= done + span_flips_upto(span, len, life, i + 1));
                assert(states@ =~= toggled(initial, numbers_view(inverted@))) by {
                    assert forall|j: int| 0 <= j < len implies states@[j] == toggled(
                        initial,
                        sofar.push(i as int),
                    )[j] by {
                        if j == i {
                            assert(sofar.push(i as int)[sofar.len() as int] == i as int);
                        } else if sofar.contains(j) {
                            let k = choose|k: int| 0 <= k < sofar.len() && sofar[k] == j;
                            assert(sofar.push(i as int)[k] == j);
                        }
                    }
                }
            } else {
                assert(span_flips_upto(span, len, life, i + 1) =~= span_flips_upto(
                    span,
                    len,
                    life,
                    i as int,
                ));
            }
            i += 1;
        }
        proof {
            assert(span_flips_upto(span, len, life, end as int) =~= span_flips(span, len, life));
            assert(spans.take(m + 1).drop_last() =~= spans.take(m as int));
            assert(spans.take(m + 1).last() == span);
        }
        m += 1;
    }
    assert(spans.take(m as int) =~= spans);
    inverted
}

/// Finds the transitions of a timeline in which the bond forms or breaks:
/// for each, the frame before it and the frame after it, in ascending order.
/// The timeline holds a frame at least.
pub fn find_reactive_changes(states: &[bool]) -> (changes: Vec<[usize; 2]>)
    requires
        states@.len() > 0,
    ensures
        changes@.len() == reactive_events(states@).len(),
        forall|k: int|
            0 <= k < changes@.len() ==> (#[trigger] changes@[k])[0] == reactive_events(states@)[k]
                && changes@[k][1] == changes@[k][0] + 1,
{
    let nframes = states.len();
    let mut changes: Vec<[usize; 2]> = Vec::new();
    let mut p: usize = 0;
    while p + 1 < nframes
        invariant
            nframes == states@.len(),
            p + 1 <= nframes,
            changes@.len() == reactive_events_upto(states@, p as int).len(),
            forall|k: int|
                0 <= k < changes@.len() ==> (#[trigger] changes@[k])[0] == reactive_events_upto(
                    states@,
                    p as int,
                )[k] && changes@[k][1] == changes@[k][0] + 1,
        decreases nframes - p,
    {
        if states[p] != states[p + 1] {
            changes.push([p, p + 1]);
        }
        p += 1;
    }
    changes
}

} // verus!
