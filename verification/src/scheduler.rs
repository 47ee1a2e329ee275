//! The streaming of a trajectory in overlapping chunks.
//!
//! Frames arrive one by one, each with its bonds. They are numbered from 0
//! and collected in a window. When the window holds a chunk, the chunk is
//! processed and all but its last frames leave the window; these last ones,
//! as many as the noise event life, open the next chunk. At the end of the
//! trajectory what is left in the window is processed as a last, shorter
//! chunk if it is long enough.
use crate::algo::{
    active_states, denoised, get_repaired_reactions, lists_reactions, repaired_frames, same_atoms,
};
use crate::molecule::{frames_view, Molecule, MoleculeView};
use crate::options::ReactionOptions;
use crate::reaction::{Error, Transformation};
use crate::states::{interior_event_at, StatesView};
use crate::text::{decimal, decimal_text, decimal_value, lemma_decimal_value};
use vstd::prelude::*;

verus! {

/// What the scheduler is doing.
#[derive(Debug, Clone, Copy, PartialEq, Eq, Structural)]
pub enum SchedulerState {
    /// The window takes frames.
    Filling,
    /// The window holds a chunk, which is to be processed.
    Processing,
    /// The trajectory has ended: what is left in the window is to be
    /// processed, and nothing more is taken.
    Draining,
}

/// What a `ChunkScheduler` holds.
pub struct SchedulerView {
    /// The options it was made with.
    pub options: ReactionOptions,
    /// The frames in the window.
    pub window: Seq<MoleculeView>,
    /// Number, within the trajectory, of the first frame in the window.
    pub base: nat,
    /// What it is doing.
    pub state: SchedulerState,
    /// The frames of the chunk processed last, as they were after the
    /// repair.
    pub repaired: Seq<MoleculeView>,
    /// The elements of the atoms of the first frame of the trajectory, once
    /// one was taken: those that every later frame has to hold.
    pub atoms: Option<Seq<Seq<char>>>,
}

impl SchedulerView {
    /// The noise event life, which is also the number of frames that two
    /// neighbouring chunks share.
    pub open spec fn life(self) -> nat {
        self.options.noise_event_life as nat
    }

    /// Number of frames taken so far.
    pub open spec fn frames_seen(self) -> nat {
        self.base + self.window.len()
    }

    /// The options are valid, the frames in the window hold the atoms of
    /// the first frame of the trajectory and are labelled with their numbers,
    /// and the window holds a chunk exactly while one is to be processed.
    pub open spec fn wf(self) -> bool {
        &&& self.options.valid()
        &&& self.base > 0 ==> self.atoms is Some
        &&& forall|p: int|
            0 <= p < self.window.len() ==> self.atoms is Some && (#[trigger] self.window[p]).symbols
                == self.atoms->0
        &&& forall|p: int|
            0 <= p < self.window.len() ==> (#[trigger] self.window[p]).title == decimal_text(
                (self.base + p) as nat,
            )
        &&& self.window.len() <= self.options.chunk_size
        &&& self.state == SchedulerState::Processing ==> self.window.len()
            == self.options.chunk_size
        &&& self.state == SchedulerState::Filling ==> self.window.len() < self.options.chunk_size
        &&& self.frames_seen() <= usize::MAX
    }

    /// Number, within the trajectory, of the last frame before which no
    /// further reaction will be reported.
    pub open spec fn frontier(self) -> nat {
        self.base + self.life()
    }

    /// Whether the window is long enough to be processed as a chunk.
    pub open spec fn long_enough(self) -> bool {
        self.window.len() > 2 * self.life() + 1
    }

    /// The reactions that processing the window gives, see
    /// `get_chemical_reactions`, each labelled with the number of its frame
    /// within the trajectory.
    pub open spec fn window_reactions(self, reactions: Seq<Transformation>) -> bool {
        &&& lists_reactions(
            reactions,
            repaired_frames(self.window, self.life()),
            denoised(active_states(self.window), self.life()).reactive_frames(self.life() as int),
        )
        &&& forall|k: int|
            0 <= k < reactions.len() ==> (#[trigger] reactions[k]).global_frame@ == decimal_text(
                (self.base + reactions[k].local_frame) as nat,
            ) && self.frontier() < self.base + reactions[k].local_frame < self.base
                + self.window.len() - self.life()
    }
}

/// Takes the frames of a trajectory and gives the reactions of its chunks.
#[derive(Debug)]
pub struct ChunkScheduler {
    options: ReactionOptions,
    window: Vec<Molecule>,
    base: usize,
    state: SchedulerState,
    repaired: Vec<Molecule>,
    first: Option<Molecule>,
}

impl View for ChunkScheduler {
    type V = SchedulerView;

    closed spec fn view(&self) -> SchedulerView {
        SchedulerView {
            options: self.options,
            window: frames_view(self.window@),
            base: self.base as nat,
            state: self.state,
            repaired: frames_view(self.repaired@),
            atoms: match self.first {
                Some(first) => Some(first@.symbols),
                None => None,
            },
        }
    }
}

impl ChunkScheduler {
    #[verifier::type_invariant]
    spec fn well_formed(self) -> bool {
        self@.wf()
    }

    /// A scheduler with an empty window. Fails where the options are not
    /// valid.
    pub fn new(options: ReactionOptions) -> (made: Result<Self, Error>)
        ensures
            made is Ok <==> options.valid(),
            made matches Err(e) ==> e == Error::InvalidConfig,
            made matches Ok(scheduler) ==> scheduler@ == (SchedulerView {
                options,
                window: Seq::empty(),
                base: 0,
                state: SchedulerState::Filling,
                repaired: Seq::empty(),
                atoms: None,
            }) && scheduler@.wf(),
    {
        match options.validate() {
            Ok(()) => {},
            Err(e) => {
                return Err(e);
            },
        }
        let scheduler = ChunkScheduler {
            options,
            window: Vec::new(),
            base: 0,
            state: SchedulerState::Filling,
            repaired: Vec::new(),
            first: None,
        };
        assert(scheduler@.window =~= Seq::empty());
        assert(scheduler@.repaired =~= Seq::empty());
        Ok(scheduler)
    }

    /// What the scheduler is doing.
    pub fn state(&self) -> (state: SchedulerState)
        ensures
            state == self@.state,
            self@.wf(),
    {
        proof {
            use_type_invariant(self);
        }
        self.state
    }

    /// The options the scheduler was made with.
    pub fn options(&self) -> (options: ReactionOptions)
        ensures
            options == self@.options,
    {
        self.options
    }

    /// Number of frames in the window.
    pub fn window_len(&self) -> (n: usize)
        ensures
            n == self@.window.len(),
    {
        self.window.len()
    }

    /// Number of frames taken so far.
    pub fn frames_seen(&self) -> (n: usize)
        ensures
            n == self@.frames_seen(),
    {
        proof {
            use_type_invariant(self);
        }
        self.base + self.window.len()
    }

    /// A frame of the chunk processed last, as it was after the repair, by
    /// its number within that chunk: the frame that reactions were read
    /// from. None where the chunk held no such frame, or none was processed.
    pub fn repaired_frame(&self, local_frame: usize) -> (frame: Option<&Molecule>)
        ensures
            frame is Some <==> local_frame < self@.repaired.len(),
            frame matches Some(mol) ==> mol@ == self@.repaired[local_frame as int],
    {
        if local_frame < self.repaired.len() {
            Some(&self.repaired[local_frame])
        } else {
            None
        }
    }

    /// Takes the next frame of the trajectory, bonds included. The frame is
    /// labelled with its number within the trajectory and joins the window.
    /// Returns the state after that: `Processing` where the window now holds
    /// a chunk, which is to be processed before the next frame is taken.
    ///
    /// Fails, and takes nothing, where the scheduler is not filling, or
    /// where the frame does not hold the same atoms as the first frame of
    /// the trajectory.
    pub fn push_frame(&mut self, mol: Molecule) -> (pushed: Result<SchedulerState, Error>)
        requires
            old(self)@.frames_seen() < usize::MAX,
        ensures
            final(self)@.wf(),
            pushed is Ok <==> old(self)@.state == SchedulerState::Filling && (old(
                self,
            )@.atoms matches Some(atoms) ==> mol@.symbols == atoms),
            pushed matches Err(e) ==> final(self)@ == old(self)@ && e == (if old(self)@.state
                == SchedulerState::Filling {
                Error::InconsistentTrajectory
            } else {
                Error::OutOfTurn
            }),
            pushed matches Ok(state) ==> final(self)@ == (SchedulerView {
                window: old(self)@.window.push(
                    MoleculeView {
                        title: decimal_text(old(self)@.frames_seen()),
                        ..mol@
                    },
                ),
                state,
                atoms: Some(mol@.symbols),
                ..old(self)@
            }) && state == (if old(self)@.window.len() + 1 == old(self)@.options.chunk_size {
                SchedulerState::Processing
            } else {
                SchedulerState::Filling
            }),
    {
        proof {
            use_type_invariant(&*self);
        }
        if self.state != SchedulerState::Filling {
            return Err(Error::OutOfTurn);
        }
        let same = match &self.first {
            Some(first) => mol.matching_configuration(first),
            None => true,
        };
        if !same {
            return Err(Error::InconsistentTrajectory);
        }
        let ghost before = self@;
        let mut mol = mol;
        mol.set_title(decimal(self.base + self.window.len()));
        let options = self.options;
        let base = self.base;
        let mut taken = ChunkScheduler {
            options,
            window: Vec::new(),
            base: 0,
            state: SchedulerState::Draining,
            repaired: Vec::new(),
            first: None,
        };
        assert(taken@.window =~= Seq::empty());
        std::mem::swap(self, &mut taken);
        let mut window = taken.window;
        let repaired = taken.repaired;
        let first = match taken.first {
            Some(first) => Some(first),
            None => Some(mol.clone()),
        };
        window.push(mol);
        let state = if window.len() == options.chunk_size {
            SchedulerState::Processing
        } else {
            SchedulerState::Filling
        };
        proof {
            let grown = frames_view(window@);
            assert(grown =~= before.window.push(mol@));
            assert forall|f: int| 0 <= f < grown.len() implies (#[trigger] grown[f]).symbols
                == mol@.symbols by {
                if f < before.window.len() {
                    assert(grown[f] == before.window[f]);
                }
            }
        }
        *self = ChunkScheduler { options, window, base, state, repaired, first };
        Ok(state)
    }

    /// Ends the trajectory: no more frames are taken, and what is left in
    /// the window is to be processed. Fails where a chunk is waiting to be
    /// processed, or the trajectory has ended already.
    pub fn end_of_stream(&mut self) -> (ended: Result<(), Error>)
        ensures
            final(self)@.wf(),
            ended is Ok <==> old(self)@.state == SchedulerState::Filling,
            ended matches Err(e) ==> e == Error::OutOfTurn && final(self)@ == old(self)@,
            ended is Ok ==> final(self)@ == (SchedulerView {
                state: SchedulerState::Draining,
                ..old(self)@
            }),
    {
        proof {
            use_type_invariant(&*self);
        }
        if self.state != SchedulerState::Filling {
            return Err(Error::OutOfTurn);
        }
        let ghost before = self@;
        let mut taken = ChunkScheduler {
            options: self.options,
            window: Vec::new(),
            base: 0,
            state: SchedulerState::Draining,
            repaired: Vec::new(),
            first: None,
        };
        assert(taken@.window =~= Seq::empty());
        std::mem::swap(self, &mut taken);
        proof {
            assert(taken@ == before);
            if taken.window@.len() > 0 {
                assert(before.window[0].symbols == before.atoms->0);
            }
        }
        *self = ChunkScheduler {
            options: taken.options,
            window: taken.window,
            base: taken.base,
            state: SchedulerState::Draining,
            repaired: taken.repaired,
            first: taken.first,
        };
        Ok(())
    }

    /// Processes the window and returns its reactions, in the order of their
    /// frames.
    ///
    /// While a chunk is waiting, the chunk is processed; then all frames but
    /// the last ones, as many as the noise event life, leave the window, and
    /// the scheduler goes back to filling. After the end of the trajectory,
    /// what is left in the window is processed if it holds more than twice
    /// the noise event life plus one frames, and dropped without a reaction
    /// if not; the window is empty afterwards. Fails where the scheduler is
    /// filling.
    pub fn process_chunk(&mut self) -> (processed: Result<Vec<Transformation>, Error>)
        ensures
            final(self)@.wf(),
            processed is Ok <==> old(self)@.state != SchedulerState::Filling,
            processed matches Err(e) ==> e == Error::OutOfTurn && final(self)@ == old(self)@,
            processed matches Ok(reactions) ==> {
                let was = old(self)@;
                let now = final(self)@;
                &&& now.options == was.options
                &&& now.atoms == was.atoms
                &&& was.state == SchedulerState::Processing ==> {
                    &&& was.window_reactions(reactions@)
                    &&& now.repaired == repaired_frames(was.window, was.life())
                    &&& now.state == SchedulerState::Filling
                    &&& now.window == was.window.skip(was.window.len() - was.life())
                    &&& now.base == was.base + was.window.len() - was.life()
                }
                &&& was.state == SchedulerState::Draining ==> {
                    &&& if was.long_enough() {
                        was.window_reactions(reactions@) && now.repaired == repaired_frames(
                            was.window,
                            was.life(),
                        )
                    } else {
                        reactions@.len() == 0 && now.repaired.len() == 0
                    }
                    &&& now.state == SchedulerState::Draining
                    &&& now.window.len() == 0
                    &&& now.base == was.base + was.window.len()
                }
                &&& forall|k: int|
                    0 <= k < reactions@.len() ==> was.frontier() < was.base + (
                    #[trigger] reactions@[k]).local_frame <= now.frontier()
                &&& was.frontier() <= now.frontier()
            },
    {
        proof {
            use_type_invariant(&*self);
        }
        if self.state == SchedulerState::Filling {
            return Err(Error::OutOfTurn);
        }
        let ghost was = self@;
        let options = self.options;
        let base = self.base;
        let life = options.noise_event_life;
        let draining = self.state == SchedulerState::Draining;
        let mut taken = ChunkScheduler {
            options,
            window: Vec::new(),
            base: 0,
            state: SchedulerState::Draining,
            repaired: Vec::new(),
            first: None,
        };
        assert(taken@.window =~= Seq::empty());
        std::mem::swap(self, &mut taken);
        let mut window = taken.window;
        let first = taken.first;
        assert(same_atoms(was.window)) by {
            assert forall|f: int| 0 <= f < was.window.len() implies (#[trigger] was.window[f]).symbols
                == was.window[0].symbols by {
                assert(was.window[0].symbols == was.atoms->0);
            }
        }
        let nframes = window.len();
        let mut reactions: Vec<Transformation> = Vec::new();
        let mut repaired: Vec<Molecule> = Vec::new();
        if !draining || nframes > 2 * life + 1 {
            match get_repaired_reactions(window.as_slice(), life) {
                Ok((found, frames)) => {
                    reactions = found;
                    repaired = frames;
                },
                Err(_) => {
                    // The frames in the window hold the same atoms.
                    proof {
                        assert(false);
                    }
                },
            }
        } else {
            assert(frames_view(repaired@) =~= Seq::empty());
        }
        proof {
            let positions = denoised(active_states(was.window), was.life()).reactive_frames(
                was.life() as int,
            );
            let repaired = repaired_frames(was.window, was.life());
            if !draining || was.long_enough() {
                assert forall|k: int| 0 <= k < reactions@.len() implies (
                #[trigger] reactions@[k]).global_frame@ == decimal_text(
                    (was.base + reactions@[k].local_frame) as nat,
                ) && was.frontier() < was.base + reactions@[k].local_frame < was.base
                    + was.window.len() - was.life() by {
                    let j = reactions@[k].local_frame as int;
                    assert(positions.contains(j - 1));
                    lemma_reactive_frames_interior(active_states(was.window), was.life(), j - 1);
                    assert(repaired[j].title == was.window[j].title);
                }
            }
        }
        proof {
            assert(taken@.atoms == was.atoms);
            if nframes > 0 {
                assert(was.window[0].symbols == was.atoms->0);
            }
        }
        if draining {
            *self = ChunkScheduler {
                options,
                window: Vec::new(),
                base: base + nframes,
                state: SchedulerState::Draining,
                repaired,
                first,
            };
            assert(self@.window =~= Seq::empty());
        } else {
            let rest = window.split_off(nframes - life);
            proof {
                assert(frames_view(rest@) =~= was.window.skip(nframes - life));
                let kept = frames_view(rest@);
                assert forall|f: int| 0 <= f < kept.len() implies (#[trigger] kept[f]).symbols
                    == was.atoms->0 by {
                    assert(kept[f] == was.window[nframes - life + f]);
                }
                assert forall|p: int| 0 <= p < kept.len() implies (#[trigger] kept[p]).title
                    == decimal_text((base + (nframes - life) + p) as nat) by {
                    assert(kept[p] == was.window[nframes - life + p]);
                }
            }
            *self = ChunkScheduler {
                options,
                window: rest,
                base: base + (nframes - life),
                state: SchedulerState::Filling,
                repaired,
                first,
            };
        }
        Ok(reactions)
    }
}

/// A transition that noise removal leaves reactive lies outside the margins.
pub proof fn lemma_reactive_frames_interior(states: StatesView, life: nat, p: int)
    requires
        states.wf(),
        denoised(states, life).reactive_frames(life as int).contains(p),
    ensures
        life <= p,
        p + 1 < states.nframes - life,
{
    let clean = denoised(states, life);
    let k = choose|k: (int, int)|
        clean.timelines.dom().contains(k) && interior_event_at(
            #[trigger] clean.timelines[k],
            life as int,
            p,
        );
    assert(clean.timelines[k].len() == states.timelines[k].len());
}

/// The records of a trajectory come in the order of their frames: a record
/// that a scheduler gives when it has come to `after` carries an earlier
/// frame than any record that it gives later, when it starts from `later`.
pub proof fn lemma_records_in_order(
    earlier: SchedulerView,
    after: SchedulerView,
    later: SchedulerView,
    first: Transformation,
    second: Transformation,
)
    requires
        earlier.base + first.local_frame <= after.frontier(),
        after.frontier() <= later.frontier(),
        later.frontier() < later.base + second.local_frame,
        first.global_frame@ == decimal_text((earlier.base + first.local_frame) as nat),
        second.global_frame@ == decimal_text((later.base + second.local_frame) as nat),
    ensures
        earlier.base + first.local_frame < later.base + second.local_frame,
        decimal_value(first.global_frame@) < decimal_value(second.global_frame@),
{
    lemma_decimal_value((earlier.base + first.local_frame) as nat);
    lemma_decimal_value((later.base + second.local_frame) as nat);
}

} // verus!
