//! Bonding states of every pair of atoms in every frame of a chunk.
use crate::events::{
    event_count, events_text, fix_noise_states, fixed_states, noise_flips, states_to_events,
};
use crate::molecule::{frames_view, Molecule, MoleculeView};
use crate::pairs::{canonical, lists_numbers, lists_pairs, numbers_view, ordered, pair_lt, pairs_view};
use vstd::prelude::*;

verus! {

/// A timeline brought to `nframes` frames: frames it does not hold are
/// unbonded, frames beyond `nframes` are dropped.
pub open spec fn padded(states: Seq<bool>, nframes: nat) -> Seq<bool> {
    Seq::new(nframes, |i: int| i < states.len() && states[i])
}

/// Whether a timeline holds both a bonded and an unbonded frame.
pub open spec fn is_active(states: Seq<bool>) -> bool {
    states.contains(true) && states.contains(false)
}

/// Whether the bond forms or breaks between two neighbouring frames that both
/// lie outside the margins of `life` frames at the two ends of the timeline.
pub open spec fn has_interior_event(states: Seq<bool>, life: int) -> bool {
    exists|p: int| interior_event_at(states, life, p)
}

/// Whether the bond forms or breaks from frame `p` to frame `p + 1`, both
/// outside the margins of `life` frames.
pub open spec fn interior_event_at(states: Seq<bool>, life: int, p: int) -> bool {
    life <= p && p + 1 < states.len() - life && states[p] != states[p + 1]
}

/// What a `BondingStates` holds: the number of frames and, for each pair of
/// atoms seen, its timeline over these frames.
pub struct StatesView {
    /// Number of frames: one more than the largest frame number ever set.
    pub nframes: nat,
    /// Timeline of each pair seen, keyed by the pair in canonical form.
    pub timelines: Map<(int, int), Seq<bool>>,
}

impl StatesView {
    /// Finitely many pairs, each in canonical form and with a timeline of
    /// `nframes` frames.
    pub open spec fn wf(self) -> bool {
        &&& self.timelines.dom().finite()
        &&& forall|k: (int, int)| #[trigger]
            self.timelines.dom().contains(k) ==> 0 <= k.0 <= k.1 <= usize::MAX
                && self.timelines[k].len() == self.nframes
    }

    /// Timeline of a pair; that of a pair never seen is unbonded throughout.
    pub open spec fn timeline(self, key: (int, int)) -> Seq<bool> {
        if self.timelines.dom().contains(key) {
            self.timelines[key]
        } else {
            Seq::new(self.nframes, |i: int| false)
        }
    }

    /// State of a pair in a frame; unbonded for a frame that does not exist.
    pub open spec fn state(self, frame: int, key: (int, int)) -> bool {
        0 <= frame < self.nframes && self.timeline(key)[frame]
    }

    /// The states after `state` is recorded for `key` in frame `frame`.
    pub open spec fn with_frame(self, frame: int, key: (int, int), state: bool) -> StatesView {
        let nframes = if frame + 1 > self.nframes {
            (frame + 1) as nat
        } else {
            self.nframes
        };
        StatesView {
            nframes,
            timelines: Map::new(
                |k: (int, int)| self.timelines.dom().contains(k) || k == key,
                |k: (int, int)|
                    if k == key {
                        padded(self.timeline(k), nframes).update(frame, state)
                    } else {
                        padded(self.timelines[k], nframes)
                    },
            ),
        }
    }

    /// The states with the timeline of `key` replaced, where `key` was seen.
    pub open spec fn with_timeline(self, key: (int, int), states: Seq<bool>) -> StatesView {
        if self.timelines.dom().contains(key) {
            StatesView { nframes: self.nframes, timelines: self.timelines.insert(key, states) }
        } else {
            self
        }
    }

    /// The states without the pairs whose timeline never changes.
    pub open spec fn active_only(self) -> StatesView {
        StatesView {
            nframes: self.nframes,
            timelines: Map::new(
                |k: (int, int)| self.timelines.dom().contains(k) && is_active(self.timelines[k]),
                |k: (int, int)| self.timelines[k],
            ),
        }
    }
}

/// One pair of atoms with the states recorded for it. Frames after the last
/// one held are unbonded.
#[derive(Debug)]
struct PairTimeline {
    u: usize,
    v: usize,
    states: Vec<bool>,
}

/// Bonding states (bonded or unbonded) for each pair of atoms in each frame.
#[derive(Debug)]
pub struct BondingStates {
    // the total number of frames with bonding states
    nframes: usize,
    // one entry per pair seen, in ascending order of the pairs
    rows: Vec<PairTimeline>,
}

spec fn key_of(row: PairTimeline) -> (int, int) {
    (row.u as int, row.v as int)
}

spec fn rows_wf(rows: Seq<PairTimeline>, nframes: nat) -> bool {
    &&& forall|i: int|
        0 <= i < rows.len() ==> (#[trigger] rows[i]).u <= rows[i].v && rows[i].states@.len()
            <= nframes
    &&& forall|i: int, j: int|
        0 <= i < j < rows.len() ==> pair_lt(#[trigger] key_of(rows[i]), #[trigger] key_of(rows[j]))
}

spec fn has_key(rows: Seq<PairTimeline>, key: (int, int)) -> bool {
    exists|i: int| 0 <= i < rows.len() && #[trigger] key_of(rows[i]) == key
}

spec fn row_index(rows: Seq<PairTimeline>, key: (int, int)) -> int {
    choose|i: int| 0 <= i < rows.len() && #[trigger] key_of(rows[i]) == key
}

spec fn rows_view(rows: Seq<PairTimeline>, nframes: nat) -> StatesView {
    StatesView {
        nframes,
        timelines: Map::new(
            |k: (int, int)| has_key(rows, k),
            |k: (int, int)| padded(rows[row_index(rows, k)].states@, nframes),
        ),
    }
}

spec fn keys_of(rows: Seq<PairTimeline>) -> Seq<(int, int)> {
    Seq::new(rows.len(), |i: int| key_of(rows[i]))
}

/// In well-formed rows a key is held by one row only.
proof fn lemma_row_index(rows: Seq<PairTimeline>, nframes: nat, i: int)
    requires
        rows_wf(rows, nframes),
        0 <= i < rows.len(),
    ensures
        has_key(rows, key_of(rows[i])),
        row_index(rows, key_of(rows[i])) == i,
{
    let j = row_index(rows, key_of(rows[i]));
    assert(key_of(rows[i]) == key_of(rows[i]));
    if j < i {
        assert(pair_lt(key_of(rows[j]), key_of(rows[i])));
    } else if i < j {
        assert(pair_lt(key_of(rows[i]), key_of(rows[j])));
    }
}

/// The view of well-formed rows is well formed, and holds as many pairs as
/// there are rows.
proof fn lemma_rows_view(rows: Seq<PairTimeline>, nframes: nat)
    requires
        rows_wf(rows, nframes),
    ensures
        rows_view(rows, nframes).wf(),
        rows_view(rows, nframes).timelines.dom() == keys_of(rows).to_set(),
        keys_of(rows).no_duplicates(),
        rows_view(rows, nframes).timelines.dom().len() == rows.len(),
{
    let view = rows_view(rows, nframes);
    let keys = keys_of(rows);
    assert forall|i: int, j: int| 0 <= i < keys.len() && 0 <= j < keys.len() && i != j implies keys[i]
        != keys[j] by {
        if i < j {
            assert(pair_lt(key_of(rows[i]), key_of(rows[j])));
        } else {
            assert(pair_lt(key_of(rows[j]), key_of(rows[i])));
        }
    }
    assert forall|k: (int, int)| view.timelines.dom().contains(k) <==> keys.to_set().contains(
        k,
    ) by {
        if has_key(rows, k) {
            let i = row_index(rows, k);
            assert(keys[i] == k);
        }
        if keys.contains(k) {
            let i = choose|i: int| 0 <= i < keys.len() && keys[i] == k;
            assert(key_of(rows[i]) == k);
        }
    }
    assert(view.timelines.dom() =~= keys.to_set());
    keys.unique_seq_to_set();
    assert forall|k: (int, int)| #[trigger] view.timelines.dom().contains(k) implies 0 <= k.0 <= k.1
        <= usize::MAX && view.timelines[k].len() == view.nframes by {
        let i = row_index(rows, k);
        assert(key_of(rows[i]) == k);
    }
}

impl View for BondingStates {
    type V = StatesView;

    closed spec fn view(&self) -> StatesView {
        rows_view(self.rows@, self.nframes as nat)
    }
}

/// Finds the row of `(u, v)`: whether there is one, and its index, or else
/// the index at which a row for it would stand.
fn locate(rows: &Vec<PairTimeline>, u: usize, v: usize, Ghost(nframes): Ghost<nat>) -> (found: (
    bool,
    usize,
))
    requires
        rows_wf(rows@, nframes),
    ensures
        found.1 <= rows@.len(),
        found.0 ==> found.1 < rows@.len() && key_of(rows@[found.1 as int]) == (u as int, v as int),
        found.0 == has_key(rows@, (u as int, v as int)),
        forall|i: int| 0 <= i < found.1 ==> pair_lt(#[trigger] key_of(rows@[i]), (u as int, v as int)),
        !found.0 ==> forall|i: int|
            found.1 <= i < rows@.len() ==> pair_lt((u as int, v as int), #[trigger] key_of(rows@[i])),
{
    let ghost key = (u as int, v as int);
    let mut lo: usize = 0;
    let mut hi: usize = rows.len();
    while lo < hi
        invariant
            rows_wf(rows@, nframes),
            key == (u as int, v as int),
            lo <= hi <= rows@.len(),
            forall|i: int| 0 <= i < lo ==> pair_lt(#[trigger] key_of(rows@[i]), key),
            forall|i: int| hi <= i < rows@.len() ==> pair_lt(key, #[trigger] key_of(rows@[i])),
        decreases hi - lo,
    {
        let mid = lo + (hi - lo) / 2;
        let row = &rows[mid];
        if row.u == u && row.v == v {
            proof {
                lemma_row_index(rows@, nframes, mid as int);
                assert forall|i: int| 0 <= i < mid implies pair_lt(
                    #[trigger] key_of(rows@[i]),
                    key,
                ) by {
                    assert(pair_lt(key_of(rows@[i]), key_of(rows@[mid as int])));
                }
            }
            return (true, mid);
        } else if row.u < u || (row.u == u && row.v < v) {
            proof {
                assert forall|i: int| 0 <= i < mid + 1 implies pair_lt(
                    #[trigger] key_of(rows@[i]),
                    key,
                ) by {
                    if i < mid {
                        assert(pair_lt(key_of(rows@[i]), key_of(rows@[mid as int])));
                    }
                }
            }
            lo = mid + 1;
        } else {
            proof {
                assert forall|i: int| mid <= i < rows@.len() implies pair_lt(
                    key,
                    #[trigger] key_of(rows@[i]),
                ) by {
                    if mid < i {
                        assert(pair_lt(key_of(rows@[mid as int]), key_of(rows@[i])));
                    }
                }
            }
            hi = mid;
        }
    }
    proof {
        if has_key(rows@, key) {
            let i = row_index(rows@, key);
            if i < lo {
                assert(pair_lt(key_of(rows@[i]), key));
            } else {
                assert(pair_lt(key, key_of(rows@[i])));
            }
        }
    }
    (false, lo)
}


/// The state of a pair is the same whichever of its two atoms is named first.
pub proof fn lemma_state_symmetric(states: StatesView, frame: int, u: usize, v: usize)
    ensures
        states.state(frame, canonical([u, v])) == states.state(frame, canonical([v, u])),
{
}

/// A state recorded for a pair replaces the one recorded before for the same
/// frame under the other order of its two atoms.
pub proof fn lemma_with_frame_overrides(
    states: StatesView,
    frame: int,
    u: usize,
    v: usize,
    state: bool,
)
    requires
        0 <= frame,
    ensures
        states.with_frame(frame, canonical([u, v]), state).with_frame(
            frame,
            canonical([v, u]),
            !state,
        ).state(frame, canonical([u, v])) == !state,
{
}

/// Recording a state never lowers the number of frames, keeps the states
/// well formed, and leaves every other pair and frame as it was.
pub proof fn lemma_with_frame(states: StatesView, frame: int, key: (int, int), state: bool)
    requires
        states.wf(),
        0 <= frame,
        0 <= key.0 <= key.1 <= usize::MAX,
    ensures
        states.with_frame(frame, key, state).wf(),
        states.with_frame(frame, key, state).nframes >= states.nframes,
        states.with_frame(frame, key, state).state(frame, key) == state,
        forall|f: int, k: (int, int)|
            !(f == frame && k == key) ==> states.with_frame(frame, key, state).state(f, k)
                == states.state(f, k),
{
    let after = states.with_frame(frame, key, state);
    assert(after.timelines.dom() =~= states.timelines.dom().insert(key));
}

/// Changing one row's states, within `nframes`, keeps the rows well formed.
proof fn lemma_rows_update(
    old_rows: Seq<PairTimeline>,
    new_rows: Seq<PairTimeline>,
    nframes: nat,
    idx: int,
)
    requires
        rows_wf(old_rows, nframes),
        0 <= idx < old_rows.len(),
        new_rows.len() == old_rows.len(),
        forall|i: int| 0 <= i < old_rows.len() && i != idx ==> new_rows[i] == old_rows[i],
        key_of(new_rows[idx]) == key_of(old_rows[idx]),
        new_rows[idx].states@.len() <= nframes,
    ensures
        rows_wf(new_rows, nframes),
        forall|k: (int, int)| has_key(new_rows, k) == has_key(old_rows, k),
        forall|k: (int, int)| has_key(old_rows, k) ==> row_index(new_rows, k) == row_index(old_rows, k),
{
    assert forall|i: int| 0 <= i < new_rows.len() implies key_of(#[trigger] new_rows[i]) == key_of(
        old_rows[i],
    ) by {}
    assert forall|i: int, j: int| 0 <= i < j < new_rows.len() implies pair_lt(
        #[trigger] key_of(new_rows[i]),
        #[trigger] key_of(new_rows[j]),
    ) by {
        assert(pair_lt(key_of(old_rows[i]), key_of(old_rows[j])));
    }
    assert forall|k: (int, int)| has_key(new_rows, k) == has_key(old_rows, k) by {
        if has_key(new_rows, k) {
            let i = row_index(new_rows, k);
            assert(key_of(old_rows[i]) == k);
        }
        if has_key(old_rows, k) {
            let i = row_index(old_rows, k);
            assert(key_of(new_rows[i]) == k);
        }
    }
    assert forall|k: (int, int)| has_key(old_rows, k) implies row_index(new_rows, k) == row_index(
        old_rows,
        k,
    ) by {
        let i = row_index(old_rows, k);
        assert(key_of(new_rows[i]) == k);
        lemma_row_index(new_rows, nframes, i);
    }
}

/// Records `state` for the pair `(u, v)` in frame `frame`.
fn record(
    rows: &mut Vec<PairTimeline>,
    nframes: usize,
    frame: usize,
    u: usize,
    v: usize,
    state: bool,
) -> (grown: usize)
    requires
        rows_wf(old(rows)@, nframes as nat),
        u <= v,
        frame < usize::MAX,
    ensures
        grown == (if frame + 1 > nframes {
            frame + 1
        } else {
            nframes as int
        }),
        rows_wf(final(rows)@, grown as nat),
        rows_view(final(rows)@, grown as nat) == rows_view(old(rows)@, nframes as nat).with_frame(
            frame as int,
            (u as int, v as int),
            state,
        ),
{
    let ghost key = (u as int, v as int);
    let ghost before = rows@;
    let ghost was = rows_view(before, nframes as nat);
    let grown = if frame + 1 > nframes {
        frame + 1
    } else {
        nframes
    };
    let (found, idx) = locate(rows, u, v, Ghost(nframes as nat));
    if found {
        proof {
            lemma_row_index(before, nframes as nat, idx as int);
        }
        let ghost held = before[idx as int].states@;
        while rows[idx].states.len() <= frame
            invariant
                idx < before.len(),
                rows@.len() == before.len(),
                forall|i: int| 0 <= i < before.len() && i != idx ==> rows@[i] == before[i],
                key_of(rows@[idx as int]) == key,
                held == before[idx as int].states@,
                held.len() <= rows@[idx as int].states@.len(),
                rows@[idx as int].states@.len() <= grown,
                held.len() <= nframes <= grown,
                frame < grown,
                forall|i: int| 0 <= i < held.len() ==> rows@[idx as int].states@[i] == held[i],
                forall|i: int|
                    held.len() <= i < rows@[idx as int].states@.len()
                        ==> !rows@[idx as int].states@[i],
            decreases frame + 1 - rows@[idx as int].states@.len(),
        {
            rows[idx].states.push(false);
        }
        rows[idx].states[frame] = state;
        proof {
            let after = rows@;
            assert forall|i: int| 0 <= i < before.len() implies (#[trigger] before[i]).states@.len()
                <= grown by {}
            lemma_rows_update(before, after, grown as nat, idx as int);
            let now = rows_view(after, grown as nat);
            let goal = was.with_frame(frame as int, key, state);
            assert forall|k: (int, int)| #[trigger] now.timelines.dom().contains(k) implies now.timelines[k]
                =~= goal.timelines[k] by {
                let i = row_index(before, k);
                assert(key_of(before[i]) == k);
                lemma_row_index(before, nframes as nat, i);
            }
            assert(now.timelines =~= goal.timelines);
        }
    } else {
        let mut states: Vec<bool> = Vec::new();
        while states.len() < frame
            invariant
                states@.len() <= frame,
                forall|i: int| 0 <= i < states@.len() ==> !states@[i],
            decreases frame - states@.len(),
        {
            states.push(false);
        }
        states.push(state);
        let row = PairTimeline { u, v, states };
        rows.insert(idx, row);
        proof {
            let after = rows@;
            assert forall|i: int| 0 <= i < before.len() implies (#[trigger] before[i]).states@.len()
                <= grown by {}
            assert forall|i: int, j: int| 0 <= i < j < after.len() implies pair_lt(
                #[trigger] key_of(after[i]),
                #[trigger] key_of(after[j]),
            ) by {
                if j < idx {
                    assert(pair_lt(key_of(before[i]), key_of(before[j])));
                } else if j == idx {
                    assert(after[i] == before[i]);
                } else if i < idx {
                    assert(pair_lt(key_of(before[i]), key_of(before[j - 1])));
                } else if i == idx {
                    assert(after[j] == before[j - 1]);
                } else {
                    assert(pair_lt(key_of(before[i - 1]), key_of(before[j - 1])));
                }
            }
            assert(rows_wf(after, grown as nat));
            let now = rows_view(after, grown as nat);
            let goal = was.with_frame(frame as int, key, state);
            assert(key_of(after[idx as int]) == key);
            assert forall|k: (int, int)| now.timelines.dom().contains(k)
                <==> goal.timelines.dom().contains(k) by {
                if has_key(after, k) {
                    let i = row_index(after, k);
                    if i < idx {
                        assert(key_of(before[i]) == k);
                    } else if i > idx {
                        assert(key_of(before[i - 1]) == k);
                    }
                }
                if has_key(before, k) {
                    let i = row_index(before, k);
                    if i < idx {
                        assert(key_of(after[i]) == k);
                    } else {
                        assert(key_of(after[i + 1]) == k);
                    }
                }
            }
            assert forall|k: (int, int)| #[trigger] now.timelines.dom().contains(k) implies now.timelines[k]
                =~= goal.timelines[k] by {
                if k == key {
                    lemma_row_index(after, grown as nat, idx as int);
                } else {
                    let i = row_index(before, k);
                    assert(key_of(before[i]) == k);
                    if i < idx {
                        assert(key_of(after[i]) == k);
                        lemma_row_index(after, grown as nat, i);
                    } else {
                        assert(key_of(after[i + 1]) == k);
                        lemma_row_index(after, grown as nat, i + 1);
                    }
                }
            }
            assert(now.timelines =~= goal.timelines);
        }
    }
    grown
}

impl BondingStates {
    #[verifier::type_invariant]
    spec fn well_formed(self) -> bool {
        rows_wf(self.rows@, self.nframes as nat)
    }

    /// Bonding states of no frame and no pair.
    pub fn new() -> (states: Self)
        ensures
            states@.nframes == 0,
            states@.timelines == Map::<(int, int), Seq<bool>>::empty(),
    {
        let states = BondingStates { nframes: 0, rows: Vec::new() };
        assert(states@.timelines =~= Map::<(int, int), Seq<bool>>::empty());
        states
    }

    /// Insert bonding state of frame `frame_index` for bond `key` between
    /// atom `u` and `v`.
    pub fn set_frame(&mut self, frame_index: usize, key: [usize; 2], state: bool)
        requires
            frame_index < usize::MAX,
        ensures
            final(self)@ == old(self)@.with_frame(frame_index as int, canonical(key), state),
            final(self)@.state(frame_index as int, canonical(key)) == state,
            final(self)@.nframes >= old(self)@.nframes,
            final(self)@.nframes > frame_index,
    {
        proof {
            use_type_invariant(&*self);
        }
        let pair = ordered(key);
        let mut rows: Vec<PairTimeline> = Vec::new();
        std::mem::swap(&mut rows, &mut self.rows);
        let nframes = record(&mut rows, self.nframes, frame_index, pair[0], pair[1], state);
        self.nframes = nframes;
        self.rows = rows;
    }

    /// Get bonding state of frame `frame_index` for bond `key` between atom
    /// `u` and `v`. A pair never seen, and a frame never set, is unbonded.
    pub fn get_frame(&self, frame_index: usize, key: [usize; 2]) -> (state: bool)
        ensures
            state == self@.state(frame_index as int, canonical(key)),
    {
        proof {
            use_type_invariant(self);
        }
        let pair = ordered(key);
        let (found, idx) = locate(&self.rows, pair[0], pair[1], Ghost(self.nframes as nat));
        if found {
            proof {
                lemma_row_index(self.rows@, self.nframes as nat, idx as int);
            }
            let row = &self.rows[idx];
            if frame_index < row.states.len() {
                row.states[frame_index]
            } else {
                false
            }
        } else {
            false
        }
    }

    /// The number of bonding pairs.
    pub fn len(&self) -> (n: usize)
        ensures
            n == self@.timelines.dom().len(),
            self@.wf(),
    {
        proof {
            use_type_invariant(self);
            lemma_rows_view(self.rows@, self.nframes as nat);
        }
        self.rows.len()
    }

    /// The number of frames for each bonding pair.
    pub fn nframes(&self) -> (n: usize)
        ensures
            n == self@.nframes,
            self@.wf(),
    {
        proof {
            use_type_invariant(self);
            lemma_rows_view(self.rows@, self.nframes as nat);
        }
        self.nframes
    }
}

impl StatesView {
    /// The pairs whose bond forms or breaks between two frames outside the
    /// margins of `life` frames.
    pub open spec fn reactive_pairs(self, life: int) -> Set<(int, int)> {
        Set::new(
            |k: (int, int)|
                self.timelines.dom().contains(k) && has_interior_event(self.timelines[k], life),
        )
    }

    /// The frames after which some bond forms or breaks, the frame and its
    /// successor both outside the margins of `life` frames.
    pub open spec fn reactive_frames(self, life: int) -> Set<int> {
        Set::new(
            |p: int|
                exists|k: (int, int)|
                    self.timelines.dom().contains(k) && interior_event_at(
                        #[trigger] self.timelines[k],
                        life,
                        p,
                    ),
        )
    }
}

spec fn row_state(row: PairTimeline, frame: int) -> bool {
    frame < row.states@.len() && row.states@[frame]
}

fn state_of(row: &PairTimeline, frame: usize) -> (state: bool)
    ensures
        state == row_state(*row, frame as int),
{
    if frame < row.states.len() {
        row.states[frame]
    } else {
        false
    }
}

/// Whether the states of `row`, brought to `nframes` frames, hold both a
/// bonded and an unbonded frame.
fn row_is_active(row: &PairTimeline, nframes: usize) -> (active: bool)
    requires
        row.states@.len() <= nframes,
    ensures
        active == is_active(padded(row.states@, nframes as nat)),
{
    let ghost line = padded(row.states@, nframes as nat);
    let mut bonded = false;
    let mut unbonded = row.states.len() < nframes;
    proof {
        if unbonded {
            assert(line[row.states@.len() as int] == false);
        }
    }
    let mut i: usize = 0;
    while i < row.states.len()
        invariant
            i <= row.states@.len() <= nframes,
            line == padded(row.states@, nframes as nat),
            bonded ==> line.contains(true),
            unbonded ==> line.contains(false),
            !bonded ==> forall|j: int| 0 <= j < i ==> !line[j],
            !unbonded ==> row.states@.len() == nframes && forall|j: int| 0 <= j < i ==> line[j],
        decreases row.states@.len() - i,
    {
        if row.states[i] {
            bonded = true;
            assert(line[i as int] == true);
        } else {
            unbonded = true;
            assert(line[i as int] == false);
        }
        i += 1;
    }
    proof {
        if !bonded && line.contains(true) {
            let j = choose|j: int| 0 <= j < line.len() && line[j] == true;
            assert(!line[j]);
        }
        if !unbonded && line.contains(false) {
            let j = choose|j: int| 0 <= j < line.len() && line[j] == false;
            assert(line[j]);
        }
    }
    bonded && unbonded
}

/// Whether the bond of `row` forms or breaks from frame `p` to `p + 1`.
fn row_changes_at(row: &PairTimeline, p: usize) -> (changes: bool)
    requires
        p < usize::MAX,
    ensures
        changes == (row_state(*row, p as int) != row_state(*row, p + 1)),
{
    state_of(row, p) != state_of(row, p + 1)
}

/// Whether the bond of `row` forms or breaks between two frames outside the
/// margins.
fn row_is_reactive(row: &PairTimeline, nframes: usize, life: usize) -> (reactive: bool)
    requires
        row.states@.len() <= nframes,
    ensures
        reactive == has_interior_event(padded(row.states@, nframes as nat), life as int),
{
    let ghost line = padded(row.states@, nframes as nat);
    if nframes < life || nframes - life < 1 {
        assert(!has_interior_event(line, life as int)) by {
            if has_interior_event(line, life as int) {
                let p = choose|p: int| interior_event_at(line, life as int, p);
                assert(interior_event_at(line, life as int, p));
            }
        }
        return false;
    }
    let last = nframes - life - 1;
    let mut p: usize = life;
    while p < last
        invariant
            life <= p,
            last == nframes - life - 1,
            row.states@.len() <= nframes,
            line == padded(row.states@, nframes as nat),
            forall|q: int| life <= q < p ==> !interior_event_at(line, life as int, q),
        decreases last - p,
    {
        if row_changes_at(row, p) {
            assert(interior_event_at(line, life as int, p as int));
            return true;
        }
        p += 1;
    }
    assert(!has_interior_event(line, life as int)) by {
        if has_interior_event(line, life as int) {
            let q = choose|q: int| interior_event_at(line, life as int, q);
            assert(interior_event_at(line, life as int, q));
        }
    }
    false
}

impl BondingStates {
    /// Return bonding states code for pair u--v: its state in each frame.
    pub fn bonding_states_code(&self, key: [usize; 2]) -> (code: Vec<bool>)
        ensures
            code@ == self@.timeline(canonical(key)),
            code@.len() == self@.nframes,
    {
        proof {
            use_type_invariant(self);
        }
        let pair = ordered(key);
        let (found, idx) = locate(&self.rows, pair[0], pair[1], Ghost(self.nframes as nat));
        let mut code: Vec<bool> = Vec::new();
        let mut i: usize = 0;
        if found {
            proof {
                lemma_row_index(self.rows@, self.nframes as nat, idx as int);
            }
            let row = &self.rows[idx];
            while i < self.nframes
                invariant
                    i <= self.nframes,
                    code@.len() == i,
                    forall|j: int| 0 <= j < i ==> code@[j] == row_state(*row, j),
                decreases self.nframes - i,
            {
                code.push(state_of(row, i));
                i += 1;
            }
            proof {
                let line = self@.timeline(canonical(key));
                assert(*row == self.rows@[idx as int]);
                assert(self@.timelines.dom().contains(canonical(key)));
                assert(line == padded(row.states@, self.nframes as nat));
                assert(code@.len() == line.len());
                assert forall|j: int| 0 <= j < line.len() implies code@[j] == line[j] by {
                    assert(code@[j] == row_state(*row, j));
                }
                assert(code@ =~= line);
            }
        } else {
            while i < self.nframes
                invariant
                    i <= self.nframes,
                    code@.len() == i,
                    forall|j: int| 0 <= j < i ==> !code@[j],
                decreases self.nframes - i,
            {
                code.push(false);
                i += 1;
            }
            assert(code@ =~= self@.timeline(canonical(key)));
        }
        code
    }

    /// Return human readable bonding events code for pair of atom `key`
    /// u--v: one character for each pair of neighbouring frames, `F` where
    /// the bond forms, `B` where it breaks, `-` where it stays as it is.
    pub fn bonding_events_code(&self, key: [usize; 2]) -> (code: String)
        ensures
            code@ == events_text(self@.timeline(canonical(key))),
            code@.len() == event_count(self@.nframes),
            forall|i: int|
                0 <= i < code@.len() ==> code@[i] == '-' || code@[i] == 'F' || code@[i] == 'B',
    {
        let states = self.bonding_states_code(key);
        states_to_events(states.as_slice())
    }

    /// Returns the bonding pairs, each once and in canonical form, in
    /// ascending order.
    pub fn bonding_pairs(&self) -> (pairs: Vec<[usize; 2]>)
        ensures
            lists_pairs(pairs_view(pairs@), self@.timelines.dom()),
            pairs@.len() == self@.timelines.dom().len(),
    {
        proof {
            use_type_invariant(self);
            lemma_rows_view(self.rows@, self.nframes as nat);
        }
        let mut pairs: Vec<[usize; 2]> = Vec::new();
        let mut i: usize = 0;
        while i < self.rows.len()
            invariant
                i <= self.rows@.len(),
                pairs@.len() == i,
                forall|j: int|
                    0 <= j < i ==> (#[trigger] pairs@[j])[0] == self.rows@[j].u && pairs@[j][1]
                        == self.rows@[j].v,
            decreases self.rows@.len() - i,
        {
            let row = &self.rows[i];
            pairs.push([row.u, row.v]);
            i += 1;
        }
        proof {
            let listed = pairs_view(pairs@);
            let keys = self@.timelines.dom();
            assert(listed =~= keys_of(self.rows@));
            assert forall|j: int, k: int| 0 <= j < k < listed.len() implies pair_lt(
                listed[j],
                listed[k],
            ) by {
                assert(pair_lt(key_of(self.rows@[j]), key_of(self.rows@[k])));
            }
        }
        pairs
    }

    /// Remove bonding pairs with no bond breaking or forming changes: those
    /// bonded in every frame and those unbonded in every frame. Returns the
    /// number of removed bonding pairs.
    pub fn remove_inactive_bonding_pairs(&mut self) -> (n_removed: usize)
        ensures
            final(self)@ == old(self)@.active_only(),
            n_removed == old(self)@.timelines.dom().len() - final(self)@.timelines.dom().len(),
            forall|k: (int, int)| #[trigger]
                final(self)@.timelines.dom().contains(k) ==> final(self)@.timelines[k].contains(
                    true,
                ) && final(self)@.timelines[k].contains(false),
    {
        proof {
            use_type_invariant(&*self);
            lemma_rows_view(self.rows@, self.nframes as nat);
        }
        let nframes = self.nframes;
        let mut rows: Vec<PairTimeline> = Vec::new();
        std::mem::swap(&mut rows, &mut self.rows);
        let ghost before = rows@;
        let mut kept: Vec<PairTimeline> = Vec::new();
        let ghost mut origin: Seq<int> = Seq::empty();
        let mut n_removed: usize = 0;
        let mut i: usize = 0;
        while i < rows.len()
            invariant
                rows_wf(before, nframes as nat),
                rows@.len() == before.len(),
                i <= rows@.len(),
                forall|j: int| i <= j < rows@.len() ==> rows@[j] == before[j],
                kept@.len() + n_removed == i,
                origin.len() == kept@.len(),
                forall|j: int|
                    0 <= j < origin.len() ==> 0 <= #[trigger] origin[j] < i && key_of(kept@[j])
                        == key_of(before[origin[j]]) && kept@[j].states@
                        == before[origin[j]].states@ && is_active(
                        padded(before[origin[j]].states@, nframes as nat),
                    ),
                forall|j: int, k: int| 0 <= j < k < origin.len() ==> origin[j] < origin[k],
                forall|h: int|
                    0 <= h < i && is_active(padded(#[trigger] before[h].states@, nframes as nat))
                        ==> origin.contains(h),
            decreases rows@.len() - i,
        {
            let ghost held = origin;
            assert(rows@[i as int] == before[i as int]);
            assert(before[i as int].states@.len() <= nframes);
            if row_is_active(&rows[i], nframes) {
                let u = rows[i].u;
                let v = rows[i].v;
                let mut states: Vec<bool> = Vec::new();
                std::mem::swap(&mut states, &mut rows[i].states);
                kept.push(PairTimeline { u, v, states });
                proof {
                    origin = origin.push(i as int);
                    assert forall|h: int|
                        0 <= h < i + 1 && is_active(
                            padded(#[trigger] before[h].states@, nframes as nat),
                        ) implies origin.contains(h) by {
                        if h < i {
                            let j = choose|j: int| 0 <= j < held.len() && held[j] == h;
                            assert(origin[j] == h);
                        } else {
                            assert(origin[held.len() as int] == h);
                        }
                    }
                }
            } else {
                n_removed += 1;
            }
            i += 1;
        }
        proof {
            let was = rows_view(before, nframes as nat);
            let now = rows_view(kept@, nframes as nat);
            let goal = was.active_only();
            assert forall|j: int| 0 <= j < kept@.len() implies (#[trigger] kept@[j]).u <= kept@[j].v
                && kept@[j].states@.len() <= nframes by {
                assert(key_of(kept@[j]) == key_of(before[origin[j]]));
            }
            assert forall|j: int, k: int| 0 <= j < k < kept@.len() implies pair_lt(
                #[trigger] key_of(kept@[j]),
                #[trigger] key_of(kept@[k]),
            ) by {
                assert(origin[j] < origin[k]);
                assert(pair_lt(key_of(before[origin[j]]), key_of(before[origin[k]])));
            }
            lemma_rows_view(kept@, nframes as nat);
            assert forall|k: (int, int)| now.timelines.dom().contains(k)
                <==> goal.timelines.dom().contains(k) by {
                if has_key(kept@, k) {
                    let j = row_index(kept@, k);
                    lemma_row_index(before, nframes as nat, origin[j]);
                }
                if has_key(before, k) && is_active(was.timelines[k]) {
                    let h = row_index(before, k);
                    assert(key_of(before[h]) == k);
                    let j = choose|j: int| 0 <= j < origin.len() && origin[j] == h;
                    assert(key_of(kept@[j]) == k);
                }
            }
            assert forall|k: (int, int)| #[trigger] now.timelines.dom().contains(k) implies now.timelines[k]
                == goal.timelines[k] by {
                let j = row_index(kept@, k);
                lemma_row_index(before, nframes as nat, origin[j]);
            }
            assert(now.timelines =~= goal.timelines);
        }
        self.rows = kept;
        n_removed
    }

    /// Remove noise events for atom pair in `key` with a short
    /// `noise_event_life`. Returns the frames whose bonding state was
    /// inverted, in ascending order.
    ///
    /// The states of the first and of the last `noise_event_life` frames are
    /// not affected by the removing. There are frames between them: more
    /// than twice `noise_event_life` in all.
    pub fn remove_noise_events(&mut self, key: [usize; 2], noise_event_life: usize) -> (inverted:
        Vec<usize>)
        requires
            2 * noise_event_life < old(self)@.nframes,
        ensures
            numbers_view(inverted@) == noise_flips(
                old(self)@.timeline(canonical(key)),
                noise_event_life as nat,
            ),
            final(self)@ == old(self)@.with_timeline(
                canonical(key),
                fixed_states(old(self)@.timeline(canonical(key)), noise_event_life as nat),
            ),
            forall|k: int|
                0 <= k < inverted@.len() ==> noise_event_life <= #[trigger] inverted@[k]
                    < old(self)@.nframes - noise_event_life,
            forall|j: int, k: int| 0 <= j < k < inverted@.len() ==> inverted@[j] < inverted@[k],
    {
        proof {
            use_type_invariant(&*self);
        }
        let mut states = self.bonding_states_code(key);
        let inverted = fix_noise_states(states.as_mut_slice(), noise_event_life);
        let pair = ordered(key);
        let mut rows: Vec<PairTimeline> = Vec::new();
        std::mem::swap(&mut rows, &mut self.rows);
        let ghost before = rows@;
        let (found, idx) = locate(&rows, pair[0], pair[1], Ghost(self.nframes as nat));
        if found {
            rows[idx].states = states;
            proof {
                let nframes = self.nframes as nat;
                lemma_row_index(before, nframes, idx as int);
                lemma_rows_update(before, rows@, nframes, idx as int);
                let was = rows_view(before, nframes);
                let now = rows_view(rows@, nframes);
                let goal = was.with_timeline(canonical(key), states@);
                assert forall|k: (int, int)| #[trigger] now.timelines.dom().contains(k) implies now.timelines[k]
                    =~= goal.timelines[k] by {
                    let i = row_index(before, k);
                    assert(key_of(before[i]) == k);
                    lemma_row_index(before, nframes, i);
                }
                assert(now.timelines =~= goal.timelines);
            }
        }
        self.rows = rows;
        inverted
    }

    /// Find reactive bonds in valid frame region in context of
    /// `noise_event_life`: the pairs whose bond forms or breaks between two
    /// frames that both lie outside the first and the last
    /// `noise_event_life` frames. Returns them in ascending order. The
    /// frames are more than twice `noise_event_life`.
    pub fn find_reactive_bonds(&self, noise_event_life: usize) -> (bonds: Vec<[usize; 2]>)
        requires
            2 * noise_event_life < self@.nframes,
        ensures
            lists_pairs(pairs_view(bonds@), self@.reactive_pairs(noise_event_life as int)),
    {
        proof {
            use_type_invariant(self);
        }
        let ghost nframes = self.nframes as nat;
        let ghost life = noise_event_life as int;
        let mut bonds: Vec<[usize; 2]> = Vec::new();
        let ghost mut picked: Seq<int> = Seq::empty();
        let mut i: usize = 0;
        while i < self.rows.len()
            invariant
                rows_wf(self.rows@, nframes),
                nframes == self.nframes,
                life == noise_event_life,
                i <= self.rows@.len(),
                picked.len() == bonds@.len(),
                forall|j: int|
                    0 <= j < picked.len() ==> 0 <= #[trigger] picked[j] < i && pairs_view(bonds@)[j]
                        == key_of(self.rows@[picked[j]]) && has_interior_event(
                        padded(self.rows@[picked[j]].states@, nframes),
                        life,
                    ),
                forall|j: int, k: int| 0 <= j < k < picked.len() ==> picked[j] < picked[k],
                forall|h: int|
                    0 <= h < i && has_interior_event(
                        padded(#[trigger] self.rows@[h].states@, nframes),
                        life,
                    ) ==> picked.contains(h),
            decreases self.rows@.len() - i,
        {
            let row = &self.rows[i];
            if row_is_reactive(row, self.nframes, noise_event_life) {
                let ghost held = picked;
                bonds.push([row.u, row.v]);
                proof {
                    picked = picked.push(i as int);
                    assert forall|h: int|
                        0 <= h < i + 1 && has_interior_event(
                            padded(#[trigger] self.rows@[h].states@, nframes),
                            life,
                        ) implies picked.contains(h) by {
                        if h < i {
                            let j = choose|j: int| 0 <= j < held.len() && held[j] == h;
                            assert(picked[j] == h);
                        } else {
                            assert(picked[held.len() as int] == h);
                        }
                    }
                }
            }
            i += 1;
        }
        proof {
            let listed = pairs_view(bonds@);
            let keys = self@.reactive_pairs(life);
            assert forall|j: int, k: int| 0 <= j < k < listed.len() implies pair_lt(
                listed[j],
                listed[k],
            ) by {
                assert(picked[j] < picked[k]);
                assert(pair_lt(key_of(self.rows@[picked[j]]), key_of(self.rows@[picked[k]])));
            }
            assert forall|k: int| 0 <= k < listed.len() implies keys.contains(
                #[trigger] listed[k],
            ) by {
                lemma_row_index(self.rows@, nframes, picked[k]);
            }
            assert forall|key: (int, int)| keys.contains(key) implies listed.contains(key) by {
                let h = row_index(self.rows@, key);
                assert(key_of(self.rows@[h]) == key);
                lemma_row_index(self.rows@, nframes, h);
                let j = choose|j: int| 0 <= j < picked.len() && picked[j] == h;
                assert(listed[j] == key);
            }
        }
        bonds
    }

    /// Find the transitions in which some bond forms or breaks, the frame
    /// before and the frame after both outside the first and the last
    /// `noise_event_life` frames. Returns, for each, the frame before it and
    /// the frame after it, in ascending order. The frames are more than
    /// twice `noise_event_life`.
    pub fn find_reactive_frames(&self, noise_event_life: usize) -> (frames: Vec<[usize; 2]>)
        requires
            2 * noise_event_life < self@.nframes,
        ensures
            lists_numbers(
                Seq::new(frames@.len(), |k: int| frames@[k][0] as int),
                self@.reactive_frames(noise_event_life as int),
            ),
            forall|k: int|
                0 <= k < frames@.len() ==> (#[trigger] frames@[k])[1] == frames@[k][0] + 1
                    && noise_event_life <= frames@[k][0] && frames@[k][1] < self@.nframes
                    - noise_event_life,
    {
        proof {
            use_type_invariant(self);
        }
        let ghost nframes = self.nframes as nat;
        let ghost life = noise_event_life as int;
        let ghost positions = self@.reactive_frames(life);
        let mut frames: Vec<[usize; 2]> = Vec::new();
        let last = self.nframes - noise_event_life - 1;
        let mut p: usize = noise_event_life;
        while p < last
            invariant
                rows_wf(self.rows@, nframes),
                nframes == self.nframes,
                life == noise_event_life,
                positions == self@.reactive_frames(life),
                last == nframes - life - 1,
                life <= p,
                forall|j: int, k: int| 0 <= j < k < frames@.len() ==> frames@[j][0] < frames@[k][0],
                forall|k: int|
                    0 <= k < frames@.len() ==> (#[trigger] frames@[k])[1] == frames@[k][0] + 1
                        && life <= frames@[k][0] < p && positions.contains(frames@[k][0] as int),
                forall|q: int|
                    life <= q < p && positions.contains(q) ==> exists|k: int|
                        0 <= k < frames@.len() && (#[trigger] frames@[k])[0] == q,
            decreases last - p,
        {
            let mut changes = false;
            let mut i: usize = 0;
            while i < self.rows.len() && !changes
                invariant
                    rows_wf(self.rows@, nframes),
                    nframes == self.nframes,
                    i <= self.rows@.len(),
                    p < last,
                    last == nframes - life - 1,
                    life == noise_event_life,
                    life <= p,
                    !changes ==> forall|h: int|
                        0 <= h < i ==> !interior_event_at(
                            padded(#[trigger] self.rows@[h].states@, nframes),
                            life,
                            p as int,
                        ),
                    changes ==> exists|h: int|
                        0 <= h < self.rows@.len() && interior_event_at(
                            padded(#[trigger] self.rows@[h].states@, nframes),
                            life,
                            p as int,
                        ),
                decreases self.rows@.len() - i,
            {
                if row_changes_at(&self.rows[i], p) {
                    changes = true;
                    assert(interior_event_at(
                        padded(self.rows@[i as int].states@, nframes),
                        life,
                        p as int,
                    ));
                }
                i += 1;
            }
            let ghost held = frames@;
            proof {
                if changes {
                    let h = choose|h: int|
                        0 <= h < self.rows@.len() && interior_event_at(
                            padded(#[trigger] self.rows@[h].states@, nframes),
                            life,
                            p as int,
                        );
                    lemma_row_index(self.rows@, nframes, h);
                    assert(self@.timelines.dom().contains(key_of(self.rows@[h])));
                    assert(interior_event_at(self@.timelines[key_of(self.rows@[h])], life, p as int));
                    assert(positions.contains(p as int));
                } else {
                    if positions.contains(p as int) {
                        let k = choose|k: (int, int)|
                            self@.timelines.dom().contains(k) && interior_event_at(
                                #[trigger] self@.timelines[k],
                                life,
                                p as int,
                            );
                        let h = row_index(self.rows@, k);
                        assert(key_of(self.rows@[h]) == k);
                        assert(false);
                    }
                }
            }
            if changes {
                frames.push([p, p + 1]);
                proof {
                    assert forall|q: int|
                        life <= q < p + 1 && positions.contains(q) implies exists|k: int|
                        0 <= k < frames@.len() && (#[trigger] frames@[k])[0] == q by {
                        if q < p {
                            let k = choose|k: int| 0 <= k < held.len() && (#[trigger] held[k])[0] == q;
                            assert(frames@[k][0] == q);
                        } else {
                            assert(frames@[held.len() as int][0] == q);
                        }
                    }
                }
            }
            p += 1;
        }
        proof {
            let listed = Seq::new(frames@.len(), |k: int| frames@[k][0] as int);
            assert forall|q: int| positions.contains(q) implies listed.contains(q) by {
                let k = choose|k: (int, int)|
                    self@.timelines.dom().contains(k) && interior_event_at(
                        #[trigger] self@.timelines[k],
                        life,
                        q,
                    );
                let j = choose|j: int| 0 <= j < frames@.len() && (#[trigger] frames@[j])[0] == q;
                assert(listed[j] == q);
            }
        }
        frames
    }
}

/// Whether the atoms of `key` are bonded in frame `frame` of `mols`.
pub open spec fn bonded_in(mols: Seq<MoleculeView>, frame: int, key: (int, int)) -> bool {
    0 <= frame < mols.len() && mols[frame].bonds.contains(key)
}

/// The bonding states of the frames `mols`: as many frames as there are
/// molecules, and a timeline for each pair bonded in some frame, which tells
/// for every frame whether the pair is bonded there.
pub open spec fn chunk_states(mols: Seq<MoleculeView>) -> StatesView {
    StatesView {
        nframes: mols.len(),
        timelines: Map::new(
            |key: (int, int)| exists|f: int| bonded_in(mols, f, key),
            |key: (int, int)| Seq::new(mols.len(), |f: int| bonded_in(mols, f, key)),
        ),
    }
}

impl BondingStates {
    /// Lets the states span `nframes` frames at least; the frames added are
    /// unbonded.
    fn extend_frames(&mut self, nframes: usize)
        ensures
            final(self)@.nframes == (if nframes > old(self)@.nframes {
                nframes as nat
            } else {
                old(self)@.nframes
            }),
            final(self)@.timelines.dom() == old(self)@.timelines.dom(),
            forall|f: int, key: (int, int)| final(self)@.state(f, key) == old(self)@.state(f, key),
            old(self)@.wf() ==> final(self)@.wf(),
    {
        proof {
            use_type_invariant(&*self);
            lemma_rows_view(self.rows@, self.nframes as nat);
        }
        if nframes > self.nframes {
            let ghost was = self@;
            self.nframes = nframes;
            proof {
                let now = self@;
                lemma_rows_view(self.rows@, self.nframes as nat);
                assert(now.timelines.dom() =~= was.timelines.dom());
                assert forall|f: int, key: (int, int)| now.state(f, key) == was.state(f, key) by {
                    if was.timelines.dom().contains(key) {
                        assert(was.timelines[key].len() == was.nframes);
                    }
                }
            }
        }
    }

    /// Construct `BondingStates` from bonds of each `Molecule` in `mols`,
    /// one frame for each.
    pub fn from_molecules(mols: &[Molecule]) -> (states: Self)
        ensures
            states@ == chunk_states(frames_view(mols@)),
            states@.wf(),
    {
        let ghost frames = frames_view(mols@);
        let mut states = BondingStates::new();
        let nmols = mols.len();
        let mut iframe: usize = 0;
        assert(states@.timelines.dom() =~= Set::<(int, int)>::empty());
        while iframe < nmols
            invariant
                nmols == mols@.len(),
                frames == frames_view(mols@),
                iframe <= mols@.len(),
                states@.wf(),
                states@.nframes <= iframe,
                forall|key: (int, int)|
                    states@.timelines.dom().contains(key) <==> exists|f: int|
                        f < iframe && bonded_in(frames, f, key),
                forall|f: int, key: (int, int)|
                    #[trigger] states@.state(f, key) == (f < iframe && bonded_in(frames, f, key)),
            decreases mols@.len() - iframe,
        {
            let bonds = mols[iframe].bonds();
            let ghost listed = pairs_view(bonds@);
            let ghost held = frames[iframe as int].bonds;
            let _ = mols[iframe].natoms();
            let mut k: usize = 0;
            while k < bonds.len()
                invariant
                    nmols == mols@.len(),
                    frames == frames_view(mols@),
                    iframe < mols@.len(),
                    k <= bonds@.len(),
                    listed == pairs_view(bonds@),
                    held == frames[iframe as int].bonds,
                    frames[iframe as int].wf(),
                    lists_pairs(listed, held),
                    states@.wf(),
                    states@.nframes <= iframe + 1,
                    forall|key: (int, int)|
                        states@.timelines.dom().contains(key) <==> (exists|f: int|
                            f < iframe && bonded_in(frames, f, key)) || (exists|j: int|
                            0 <= j < k && listed[j] == key),
                    forall|f: int, key: (int, int)|
                        #[trigger] states@.state(f, key) == ((f < iframe && bonded_in(frames, f, key))
                            || (f == iframe && exists|j: int| 0 <= j < k && listed[j] == key)),
                decreases bonds@.len() - k,
            {
                let ghost was = states@;
                let ghost key = canonical(bonds@[k as int]);
                proof {
                    assert(held.contains(listed[k as int]));
                    assert(key == listed[k as int]);
                    lemma_with_frame(was, iframe as int, key, true);
                }
                states.set_frame(iframe, bonds[k], true);
                proof {
                    let now = states@;
                    assert(now.timelines.dom() =~= was.timelines.dom().insert(key));
                    assert forall|f: int, key2: (int, int)|
                        now.state(f, key2) == ((f < iframe && bonded_in(frames, f, key2)) || (f
                            == iframe && exists|j: int| 0 <= j < k + 1 && listed[j] == key2)) by {
                        if f == iframe && key2 == key {
                            assert(listed[k as int] == key2);
                            assert(now.state(f, key2));
                        } else {
                            assert(now.state(f, key2) == was.state(f, key2));
                            assert(was.state(f, key2) == ((f < iframe && bonded_in(frames, f, key2))
                                || (f == iframe && exists|j: int| 0 <= j < k && listed[j] == key2)));
                            if f == iframe {
                                if exists|j: int| 0 <= j < k + 1 && listed[j] == key2 {
                                    let j = choose|j: int| 0 <= j < k + 1 && listed[j] == key2;
                                    assert(0 <= j < k && listed[j] == key2);
                                }
                                if exists|j: int| 0 <= j < k && listed[j] == key2 {
                                    let j = choose|j: int| 0 <= j < k && listed[j] == key2;
                                    assert(0 <= j < k + 1 && listed[j] == key2);
                                }
                            }
                        }
                    }
                    assert forall|key2: (int, int)|
                        now.timelines.dom().contains(key2) <==> (exists|f: int|
                            f < iframe && bonded_in(frames, f, key2)) || (exists|j: int|
                            0 <= j < k + 1 && listed[j] == key2) by {
                        if key2 == key {
                            assert(listed[k as int] == key2);
                        } else {
                            if exists|j: int| 0 <= j < k + 1 && listed[j] == key2 {
                                let j = choose|j: int| 0 <= j < k + 1 && listed[j] == key2;
                                assert(j < k);
                            }
                        }
                    }
                }
                k += 1;
            }
            proof {
                let now = states@;
                assert forall|key: (int, int)|
                    now.timelines.dom().contains(key) <==> exists|f: int|
                        f < iframe + 1 && bonded_in(frames, f, key) by {
                    if now.timelines.dom().contains(key) {
                        if exists|f: int| f < iframe && bonded_in(frames, f, key) {
                            let f = choose|f: int| f < iframe && bonded_in(frames, f, key);
                            assert(f < iframe + 1 && bonded_in(frames, f, key));
                        } else {
                            let j = choose|j: int| 0 <= j < k && listed[j] == key;
                            assert(held.contains(listed[j]));
                            assert(bonded_in(frames, iframe as int, key));
                        }
                    }
                    if exists|f: int| f < iframe + 1 && bonded_in(frames, f, key) {
                        let f = choose|f: int| f < iframe + 1 && bonded_in(frames, f, key);
                        if f < iframe {
                            assert(f < iframe && bonded_in(frames, f, key));
                        } else {
                            assert(listed.contains(key));
                            let j = choose|j: int| 0 <= j < listed.len() && listed[j] == key;
                            assert(0 <= j < k && listed[j] == key);
                        }
                    }
                }
                assert forall|f: int, key: (int, int)|
                    now.state(f, key) == (f < iframe + 1 && bonded_in(frames, f, key)) by {
                    if f == iframe {
                        if bonded_in(frames, f, key) {
                            assert(listed.contains(key));
                            let j = choose|j: int| 0 <= j < listed.len() && listed[j] == key;
                            assert(0 <= j < k && listed[j] == key);
                        }
                        if exists|j: int| 0 <= j < k && listed[j] == key {
                            let j = choose|j: int| 0 <= j < k && listed[j] == key;
                            assert(held.contains(listed[j]));
                        }
                    }
                }
            }
            iframe += 1;
        }
        states.extend_frames(nmols);
        proof {
            let goal = chunk_states(frames);
            assert forall|key: (int, int)|
                states@.timelines.dom().contains(key) <==> goal.timelines.dom().contains(key) by {
                if states@.timelines.dom().contains(key) {
                    let f = choose|f: int| f < iframe && bonded_in(frames, f, key);
                    assert(bonded_in(frames, f, key));
                }
                if exists|f: int| bonded_in(frames, f, key) {
                    let f = choose|f: int| bonded_in(frames, f, key);
                    assert(f < iframe && bonded_in(frames, f, key));
                }
            }
            assert forall|key: (int, int)| #[trigger]
                states@.timelines.dom().contains(key) implies states@.timelines[key]
                =~= goal.timelines[key] by {
                assert forall|f: int| 0 <= f < states@.nframes implies states@.timelines[key][f]
                    == bonded_in(frames, f, key) by {
                    assert(states@.state(f, key) == bonded_in(frames, f, key));
                }
            }
            assert(states@.timelines =~= goal.timelines);
        }
        states
    }
}

impl Clone for BondingStates {
    fn clone(&self) -> (copy: Self)
        ensures
            copy@ == self@,
    {
        proof {
            use_type_invariant(self);
        }
        let mut rows: Vec<PairTimeline> = Vec::new();
        let mut i: usize = 0;
        while i < self.rows.len()
            invariant
                i <= self.rows@.len(),
                rows@.len() == i,
                forall|j: int|
                    0 <= j < i ==> key_of(#[trigger] rows@[j]) == key_of(self.rows@[j])
                        && rows@[j].states@ == self.rows@[j].states@,
            decreases self.rows@.len() - i,
        {
            let row = &self.rows[i];
            let states = row.states.clone();
            assert(states@ =~= row.states@);
            rows.push(PairTimeline { u: row.u, v: row.v, states });
            i += 1;
        }
        proof {
            assert forall|i: int, j: int| 0 <= i < j < rows@.len() implies pair_lt(
                #[trigger] key_of(rows@[i]),
                #[trigger] key_of(rows@[j]),
            ) by {
                assert(pair_lt(key_of(self.rows@[i]), key_of(self.rows@[j])));
            }
            let ours = rows_view(self.rows@, self.nframes as nat);
            let theirs = rows_view(rows@, self.nframes as nat);
            assert forall|k: (int, int)| has_key(rows@, k) == has_key(self.rows@, k) by {
                if has_key(rows@, k) {
                    let i = row_index(rows@, k);
                    assert(key_of(self.rows@[i]) == k);
                }
                if has_key(self.rows@, k) {
                    let i = row_index(self.rows@, k);
                    assert(key_of(rows@[i]) == k);
                }
            }
            assert forall|k: (int, int)| #[trigger] ours.timelines.dom().contains(k) implies ours.timelines[k]
                == theirs.timelines[k] by {
                let i = row_index(self.rows@, k);
                assert(key_of(rows@[i]) == k);
                lemma_row_index(rows@, self.nframes as nat, i);
            }
            assert(ours.timelines =~= theirs.timelines);
        }
        BondingStates { nframes: self.nframes, rows }
    }
}

impl Default for BondingStates {
    fn default() -> (states: Self)
        ensures
            states@.nframes == 0,
            states@.timelines == Map::<(int, int), Seq<bool>>::empty(),
    {
        BondingStates::new()
    }
}

} // verus!
