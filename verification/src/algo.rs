//! Reactions within one chunk of frames: the bonding states of its frames
//! are cleared of inactive pairs and of noise, the frames are repaired
//! accordingly, and each transition that is left is read as a reaction.
use crate::events::{fixed_states, noise_flips};
use crate::molecule::{frames_view, Molecule, MoleculeView};
use crate::options::ReactionOptions;
use crate::pairs::{canonical, lists_numbers, lists_pairs, numbers_view, pair_lt, pairs_view};
use crate::reaction::{get_reaction, is_reaction_between, lemma_reaction_empty, Error, Transformation};
use crate::states::{bonded_in, chunk_states, interior_event_at, BondingStates, StatesView};
use vstd::prelude::*;

verus! {

/// The states with every timeline cleared of noise.
pub open spec fn denoised(states: StatesView, life: nat) -> StatesView {
    StatesView {
        nframes: states.nframes,
        timelines: Map::new(
            |key: (int, int)| states.timelines.dom().contains(key),
            |key: (int, int)| fixed_states(states.timelines[key], life),
        ),
    }
}

/// The pairs whose state in frame `frame` is inverted when noise is removed.
pub open spec fn flipped_at(states: StatesView, life: nat, frame: int) -> Set<(int, int)> {
    Set::new(
        |key: (int, int)|
            states.timelines.dom().contains(key) && noise_flips(states.timelines[key], life).contains(
                frame,
            ),
    )
}

/// `bonds` with every member of `flipped` toggled: taken out where it was
/// held, put in where it was not.
pub open spec fn toggled_bonds(bonds: Set<(int, int)>, flipped: Set<(int, int)>) -> Set<(int, int)> {
    Set::new(|p: (int, int)| bonds.contains(p) != flipped.contains(p))
}

/// Pairs with the frames in which each is to be repaired.
pub type Repairs = Vec<([usize; 2], Vec<usize>)>;

/// The pair of entry `k` of `repairs`, in canonical form.
pub open spec fn repair_key(repairs: Seq<([usize; 2], Vec<usize>)>, k: int) -> (int, int) {
    canonical(repairs[k].0)
}

/// The frames of entry `k` of `repairs`.
pub open spec fn repair_frames(repairs: Seq<([usize; 2], Vec<usize>)>, k: int) -> Seq<int> {
    numbers_view(repairs[k].1@)
}

/// The pairs that `repairs` names for frame `frame`.
pub open spec fn repaired_at(repairs: Seq<([usize; 2], Vec<usize>)>, frame: int) -> Set<(int, int)> {
    Set::new(
        |p: (int, int)|
            exists|k: int|
                0 <= k < repairs.len() && #[trigger] repair_key(repairs, k) == p && repair_frames(
                    repairs,
                    k,
                ).contains(frame),
    )
}

/// Builds the bonding states of the frames `mols` and removes the pairs that
/// never change.
pub fn remove_inactive_bonding_pairs(mols: &[Molecule]) -> (states: BondingStates)
    ensures
        states@ == chunk_states(frames_view(mols@)).active_only(),
        states@.wf(),
        states@.nframes <= mols@.len(),
{
    let mut states = BondingStates::from_molecules(mols);
    let _ = states.remove_inactive_bonding_pairs();
    let _ = states.nframes();
    states
}

/// Removes the noise from the timeline of every pair. Returns, for each
/// pair, in the order of the pairs, the frames whose state was inverted: the
/// frames in which the bond between its atoms is to be repaired. Where there
/// is a pair, the frames are more than twice `noise_event_life`.
pub fn remove_noise_bonding_events(states: &mut BondingStates, noise_event_life: usize) -> (repairs:
    Repairs)
    requires
        old(states)@.timelines.dom().len() == 0 || 2 * noise_event_life < old(states)@.nframes,
    ensures
        final(states)@ == denoised(old(states)@, noise_event_life as nat),
        lists_pairs(
            Seq::new(repairs@.len(), |k: int| repair_key(repairs@, k)),
            old(states)@.timelines.dom(),
        ),
        forall|k: int|
            0 <= k < repairs@.len() ==> (#[trigger] repairs@[k]).0[0] <= repairs@[k].0[1]
                && repair_frames(repairs@, k) == noise_flips(
                old(states)@.timelines[repair_key(repairs@, k)],
                noise_event_life as nat,
            ),
        forall|k: int, h: int|
            0 <= k < repairs@.len() && 0 <= h < repairs@[k].1@.len() ==> noise_event_life
                <= #[trigger] repairs@[k].1@[h] < old(states)@.nframes - noise_event_life,
        forall|k: int| 0 <= k < repairs@.len() ==> (#[trigger] repair_frames(repairs@, k)).no_duplicates(),
{
    let keys = states.bonding_pairs();
    let _ = states.nframes();
    let ghost was = states@;
    let ghost life = noise_event_life as nat;
    let ghost listed = pairs_view(keys@);
    let mut repairs: Repairs = Vec::new();
    let mut i: usize = 0;
    while i < keys.len()
        invariant
            i <= keys@.len(),
            listed == pairs_view(keys@),
            lists_pairs(listed, was.timelines.dom()),
            was.wf(),
            keys@.len() == was.timelines.dom().len(),
            was.timelines.dom().len() == 0 || 2 * noise_event_life < was.nframes,
            life == noise_event_life,
            states@.nframes == was.nframes,
            states@.timelines.dom() == was.timelines.dom(),
            repairs@.len() == i,
            forall|k: int|
                0 <= k < i ==> (#[trigger] repairs@[k]).0[0] <= repairs@[k].0[1] && repair_key(
                    repairs@,
                    k,
                ) == listed[k] && repair_frames(repairs@, k) == noise_flips(
                    was.timelines[listed[k]],
                    life,
                ),
            forall|k: int, h: int|
                0 <= k < i && 0 <= h < repairs@[k].1@.len() ==> noise_event_life
                    <= #[trigger] repairs@[k].1@[h] < was.nframes - noise_event_life,
            forall|k: int| 0 <= k < i ==> (#[trigger] repair_frames(repairs@, k)).no_duplicates(),
            forall|k: int|
                0 <= k < i ==> states@.timelines[#[trigger] listed[k]] == fixed_states(
                    was.timelines[listed[k]],
                    life,
                ),
            forall|k: int|
                i <= k < listed.len() ==> states@.timelines[#[trigger] listed[k]]
                    == was.timelines[listed[k]],
        decreases keys@.len() - i,
    {
        let key = keys[i];
        let ghost before = states@;
        proof {
            assert(was.timelines.dom().contains(listed[i as int]));
            assert(canonical(key) == listed[i as int]);
        }
        let frames = states.remove_noise_events(key, noise_event_life);
        let ghost held = repairs@;
        repairs.push((key, frames));
        proof {
            let now = states@;
            assert forall|k: int| 0 <= k < i + 1 implies (#[trigger] repair_frames(
                repairs@,
                k,
            )).no_duplicates() by {
                if k < i {
                    assert(repairs@[k] == held[k]);
                    assert(repair_frames(repairs@, k) == repair_frames(held, k));
                }
            }
            assert forall|k: int, h: int|
                0 <= k < i + 1 && 0 <= h < repairs@[k].1@.len() implies noise_event_life
                <= #[trigger] repairs@[k].1@[h] < was.nframes - noise_event_life by {
                if k < i {
                    assert(repairs@[k] == held[k]);
                }
            }
            assert(now.timelines.dom() =~= was.timelines.dom());
            assert forall|k: int| 0 <= k < i + 1 implies now.timelines[#[trigger] listed[k]]
                == fixed_states(was.timelines[listed[k]], life) by {
                if k < i {
                    assert(pair_lt(listed[k], listed[i as int]));
                }
            }
            assert forall|k: int| i + 1 <= k < listed.len() implies now.timelines[#[trigger] listed[k]]
                == was.timelines[listed[k]] by {
                assert(pair_lt(listed[i as int], listed[k]));
            }
        }
        i += 1;
    }
    proof {
        let goal = denoised(was, life);
        assert forall|key: (int, int)| #[trigger]
            goal.timelines.dom().contains(key) implies states@.timelines[key]
            == goal.timelines[key] by {
            assert(listed.contains(key));
            let k = choose|k: int| 0 <= k < listed.len() && listed[k] == key;
            assert(states@.timelines[listed[k]] == fixed_states(was.timelines[listed[k]], life));
        }
        assert(states@.timelines =~= goal.timelines);
        assert(Seq::new(repairs@.len(), |k: int| repair_key(repairs@, k)) =~= listed);
    }
    repairs
}

/// The pairs repaired in frame `frame` when the entries of `repairs` before
/// entry `k`, and the first `h` frames of entry `k`, are done.
spec fn done_at(repairs: Seq<([usize; 2], Vec<usize>)>, k: int, h: int, frame: int) -> Set<(int, int)> {
    Set::new(
        |p: (int, int)|
            exists|j: int|
                0 <= j < repairs.len() && #[trigger] repair_key(repairs, j) == p && (if j < k {
                    repair_frames(repairs, j).contains(frame)
                } else {
                    j == k && repair_frames(repairs, j).take(h).contains(frame)
                }),
    )
}

/// Whether `repairs` can be carried out on `mols`: every frame named exists
/// and holds the two atoms of the pair, which differ; no pair is named
/// twice, and no frame twice for one pair.
pub open spec fn repairs_fit(repairs: Seq<([usize; 2], Vec<usize>)>, mols: Seq<Molecule>) -> bool {
    &&& forall|k: int, h: int|
        0 <= k < repairs.len() && 0 <= h < repairs[k].1@.len() ==> {
            let f = #[trigger] repairs[k].1@[h];
            &&& f < mols.len()
            &&& mols[f as int]@.has_atom(repairs[k].0[0] as int)
            &&& mols[f as int]@.has_atom(repairs[k].0[1] as int)
            &&& repairs[k].0[0] != repairs[k].0[1]
        }
    &&& forall|j: int, k: int|
        0 <= j < k < repairs.len() ==> #[trigger] repair_key(repairs, j) != #[trigger] repair_key(
            repairs,
            k,
        )
    &&& forall|k: int| 0 <= k < repairs.len() ==> (#[trigger] repair_frames(repairs, k)).no_duplicates()
}

/// Repairs the frames after noise removal: for each pair and each frame
/// named with it, the bond between the two atoms is removed from the frame
/// where it is held, and added where it is not.
pub fn repair_bonding_states(mols: &mut [Molecule], bonds_to_repair: &[([usize; 2], Vec<usize>)])
    requires
        repairs_fit(bonds_to_repair@, old(mols)@),
    ensures
        final(mols)@.len() == old(mols)@.len(),
        forall|f: int|
            0 <= f < old(mols)@.len() ==> (#[trigger] final(mols)@[f])@ == (MoleculeView {
                bonds: toggled_bonds(old(mols)@[f]@.bonds, repaired_at(bonds_to_repair@, f)),
                ..old(mols)@[f]@
            }),
{
    let ghost repairs = bonds_to_repair@;
    let ghost start = mols@;
    let mut k: usize = 0;
    proof {
        assert forall|f: int| 0 <= f < start.len() implies (#[trigger] mols@[f])@.bonds
            =~= toggled_bonds(start[f]@.bonds, done_at(repairs, 0, 0, f)) by {}
    }
    while k < bonds_to_repair.len()
        invariant
            repairs == bonds_to_repair@,
            repairs_fit(repairs, start),
            k <= repairs.len(),
            mols@.len() == start.len(),
            forall|f: int|
                0 <= f < start.len() ==> (#[trigger] mols@[f])@ == (MoleculeView {
                    bonds: toggled_bonds(start[f]@.bonds, done_at(repairs, k as int, 0, f)),
                    ..start[f]@
                }),
        decreases repairs.len() - k,
    {
        let u = bonds_to_repair[k].0[0];
        let v = bonds_to_repair[k].0[1];
        let ghost key = repair_key(repairs, k as int);
        let ghost frames = repair_frames(repairs, k as int);
        let mut h: usize = 0;
        while h < bonds_to_repair[k].1.len()
            invariant
                repairs == bonds_to_repair@,
                repairs_fit(repairs, start),
                k < repairs.len(),
                u == repairs[k as int].0[0],
                v == repairs[k as int].0[1],
                key == repair_key(repairs, k as int),
                frames == repair_frames(repairs, k as int),
                h <= repairs[k as int].1@.len(),
                mols@.len() == start.len(),
                forall|f: int|
                    0 <= f < start.len() ==> (#[trigger] mols@[f])@ == (MoleculeView {
                        bonds: toggled_bonds(
                            start[f]@.bonds,
                            done_at(repairs, k as int, h as int, f),
                        ),
                        ..start[f]@
                    }),
            decreases repairs[k as int].1@.len() - h,
        {
            let i = bonds_to_repair[k].1[h];
            let ghost before = mols@;
            let ghost held = before[i as int]@.bonds;
            proof {
                assert(repairs[k as int].1@[h as int] == i);
                assert(frames[h as int] == i);
            }
            let _ = mols[i].natoms();
            let bonded = mols[i].has_bond(u, v);
            if bonded {
                mols[i].remove_bond(u, v);
            } else {
                mols[i].add_bond(u, v);
            }
            proof {
                let now = mols@;
                assert(canonical([u, v]) == key);
                let was_done = done_at(repairs, k as int, h as int, i as int);
                let now_done = done_at(repairs, k as int, h + 1, i as int);
                assert(!was_done.contains(key)) by {
                    if was_done.contains(key) {
                        let j = choose|j: int|
                            0 <= j < repairs.len() && #[trigger] repair_key(repairs, j) == key && (if j
                                < k {
                                repair_frames(repairs, j).contains(i as int)
                            } else {
                                j == k && repair_frames(repairs, j).take(h as int).contains(
                                    i as int,
                                )
                            });
                        if j == k {
                            let shorter = frames.take(h as int);
                            let g = choose|g: int| 0 <= g < shorter.len() && shorter[g] == i as int;
                            assert(frames[g] == frames[h as int]);
                        }
                    }
                }
                assert(frames.take(h + 1) =~= frames.take(h as int).push(i as int));
                assert forall|f: int, p: (int, int)|
                    0 <= f < start.len() implies done_at(repairs, k as int, h + 1, f).contains(p) == (
                done_at(repairs, k as int, h as int, f).contains(p) || (f == i && p == key)) by {
                    let before_set = done_at(repairs, k as int, h as int, f);
                    let after_set = done_at(repairs, k as int, h + 1, f);
                    if after_set.contains(p) {
                        let j = choose|j: int|
                            0 <= j < repairs.len() && #[trigger] repair_key(repairs, j) == p && (if j
                                < k {
                                repair_frames(repairs, j).contains(f)
                            } else {
                                j == k && repair_frames(repairs, j).take(h + 1).contains(f)
                            });
                        if j == k && !(f == i) {
                            let longer = frames.take(h + 1);
                            let g = choose|g: int| 0 <= g < longer.len() && longer[g] == f;
                            assert(frames.take(h as int)[g] == f);
                        }
                        assert(repair_key(repairs, j) == p);
                    }
                    if before_set.contains(p) {
                        let j = choose|j: int|
                            0 <= j < repairs.len() && #[trigger] repair_key(repairs, j) == p && (if j
                                < k {
                                repair_frames(repairs, j).contains(f)
                            } else {
                                j == k && repair_frames(repairs, j).take(h as int).contains(f)
                            });
                        if j == k {
                            let shorter = frames.take(h as int);
                            let g = choose|g: int| 0 <= g < shorter.len() && shorter[g] == f;
                            assert(frames.take(h + 1)[g] == f);
                        }
                        assert(repair_key(repairs, j) == p);
                    }
                    if f == i && p == key {
                        assert(frames.take(h + 1)[h as int] == i);
                        assert(repair_key(repairs, k as int) == p);
                    }
                }
                assert forall|f: int| 0 <= f < start.len() implies (#[trigger] now[f])@ == (
                MoleculeView {
                    bonds: toggled_bonds(start[f]@.bonds, done_at(repairs, k as int, h + 1, f)),
                    ..start[f]@
                }) by {
                    if f != i {
                        assert(now[f] == before[f]);
                    } else {
                        assert(bonded == held.contains(key));
                        assert forall|p: (int, int)| now[f]@.bonds.contains(p) == (held.contains(p)
                            != (p == key)) by {}
                    }
                    assert forall|p: (int, int)| now[f]@.bonds.contains(p) == toggled_bonds(
                        start[f]@.bonds,
                        done_at(repairs, k as int, h + 1, f),
                    ).contains(p) by {
                        assert(done_at(repairs, k as int, h + 1, f).contains(p) == (done_at(
                            repairs,
                            k as int,
                            h as int,
                            f,
                        ).contains(p) || (f == i && p == key)));
                    }
                    assert(now[f]@.bonds =~= toggled_bonds(
                        start[f]@.bonds,
                        done_at(repairs, k as int, h + 1, f),
                    ));
                }
            }
            h += 1;
        }
        proof {
            assert(frames.take(frames.len() as int) =~= frames);
            assert forall|f: int| 0 <= f < start.len() implies (#[trigger] mols@[f])@ == (
            MoleculeView {
                bonds: toggled_bonds(start[f]@.bonds, done_at(repairs, k + 1, 0, f)),
                ..start[f]@
            }) by {
                let ended = done_at(repairs, k as int, frames.len() as int, f);
                let next = done_at(repairs, k + 1, 0, f);
                assert forall|p: (int, int)| ended.contains(p) == next.contains(p) by {
                    if ended.contains(p) {
                        let j = choose|j: int|
                            0 <= j < repairs.len() && #[trigger] repair_key(repairs, j) == p && (if j
                                < k {
                                repair_frames(repairs, j).contains(f)
                            } else {
                                j == k && repair_frames(repairs, j).take(frames.len() as int).contains(
                                    f,
                                )
                            });
                        assert(repair_key(repairs, j) == p);
                    }
                    if next.contains(p) {
                        let j = choose|j: int|
                            0 <= j < repairs.len() && #[trigger] repair_key(repairs, j) == p && (if j
                                < k + 1 {
                                repair_frames(repairs, j).contains(f)
                            } else {
                                j == k + 1 && repair_frames(repairs, j).take(0).contains(f)
                            });
                        assert(repair_key(repairs, j) == p);
                    }
                }
                assert(ended =~= next);
            }
        }
        k += 1;
    }
    proof {
        assert forall|f: int| 0 <= f < start.len() implies (#[trigger] mols@[f])@ == (MoleculeView {
            bonds: toggled_bonds(start[f]@.bonds, repaired_at(repairs, f)),
            ..start[f]@
        }) by {
            let ended = done_at(repairs, repairs.len() as int, 0, f);
            let goal = repaired_at(repairs, f);
            assert forall|p: (int, int)| ended.contains(p) == goal.contains(p) by {
                if ended.contains(p) {
                    let j = choose|j: int|
                        0 <= j < repairs.len() && #[trigger] repair_key(repairs, j) == p && (if j
                            < repairs.len() {
                            repair_frames(repairs, j).contains(f)
                        } else {
                            j == repairs.len() && repair_frames(repairs, j).take(0).contains(f)
                        });
                    assert(repair_key(repairs, j) == p);
                }
                if goal.contains(p) {
                    let j = choose|j: int|
                        0 <= j < repairs.len() && #[trigger] repair_key(repairs, j) == p
                            && repair_frames(repairs, j).contains(f);
                    assert(repair_key(repairs, j) == p);
                }
            }
            assert(ended =~= goal);
        }
    }
}

/// Whether `reactions` lists, in the order of the frames, the reaction of
/// every transition of `frames` that starts at one of `positions` and in
/// which a bond forms or breaks: each with the number, within `frames`, and
/// the label of the frame after the transition.
pub open spec fn lists_reactions(
    reactions: Seq<Transformation>,
    frames: Seq<MoleculeView>,
    positions: Set<int>,
) -> bool {
    &&& forall|k: int|
        0 <= k < reactions.len() ==> {
            let j = (#[trigger] reactions[k]).local_frame as int;
            &&& 1 <= j < frames.len()
            &&& positions.contains(j - 1)
            &&& frames[j - 1].bonds != frames[j].bonds
            &&& is_reaction_between(reactions[k], frames[j - 1], frames[j])
            &&& reactions[k].global_frame@ == frames[j].title
        }
    &&& forall|i: int, k: int|
        0 <= i < k < reactions.len() ==> (#[trigger] reactions[i]).local_frame < (
        #[trigger] reactions[k]).local_frame
    &&& forall|p: int|
        #[trigger] positions.contains(p) && 0 <= p && p + 1 < frames.len() && frames[p].bonds
            != frames[p + 1].bonds ==> exists|k: int|
            0 <= k < reactions.len() && (#[trigger] reactions[k]).local_frame == p + 1
}

/// Finds the reactions of a chunk from its frames and their bonding states:
/// for each transition between two frames outside the margins of
/// `noise_event_life` frames in which, by `states`, some bond forms or
/// breaks, the reaction between the two frames, unless their bonds do not
/// differ. Fails where two such frames do not hold the same atoms.
///
/// The states are those of frames among `mols`, more than twice
/// `noise_event_life`.
pub fn find_reactions(mols: &[Molecule], states: &BondingStates, noise_event_life: usize) -> (found:
    Result<Vec<Transformation>, Error>)
    requires
        states@.nframes <= mols@.len(),
        2 * noise_event_life < states@.nframes,
    ensures
        found is Err <==> exists|p: int|
            #[trigger] states@.reactive_frames(noise_event_life as int).contains(p)
                && mols@[p]@.symbols != mols@[p + 1]@.symbols,
        found matches Err(e) ==> e == Error::IncompatibleGraphs,
        found matches Ok(reactions) ==> lists_reactions(
            reactions@,
            frames_view(mols@),
            states@.reactive_frames(noise_event_life as int),
        ),
{
    let mol_indices = states.find_reactive_frames(noise_event_life);
    let ghost positions = states@.reactive_frames(noise_event_life as int);
    let ghost frames = frames_view(mols@);
    let ghost listed = Seq::new(mol_indices@.len(), |k: int| mol_indices@[k][0] as int);
    let mut reactions: Vec<Transformation> = Vec::new();
    let mut n: usize = 0;
    while n < mol_indices.len()
        invariant
            n <= mol_indices@.len(),
            states@.nframes <= mols@.len(),
            positions == states@.reactive_frames(noise_event_life as int),
            frames == frames_view(mols@),
            listed == Seq::new(mol_indices@.len(), |k: int| mol_indices@[k][0] as int),
            lists_numbers(listed, positions),
            forall|k: int|
                0 <= k < mol_indices@.len() ==> (#[trigger] mol_indices@[k])[1] == mol_indices@[k][0]
                    + 1 && mol_indices@[k][1] < states@.nframes,
            forall|k: int| 0 <= k < n ==> mols@[listed[k]]@.symbols == mols@[listed[k] + 1]@.symbols,
            forall|k: int|
                0 <= k < reactions@.len() ==> {
                    let j = (#[trigger] reactions@[k]).local_frame as int;
                    &&& 1 <= j < frames.len()
                    &&& positions.contains(j - 1)
                    &&& frames[j - 1].bonds != frames[j].bonds
                    &&& is_reaction_between(reactions@[k], frames[j - 1], frames[j])
                    &&& reactions@[k].global_frame@ == frames[j].title
                    &&& n > 0 && j <= listed[n - 1] + 1
                },
            forall|i: int, k: int|
                0 <= i < k < reactions@.len() ==> (#[trigger] reactions@[i]).local_frame < (
                #[trigger] reactions@[k]).local_frame,
            forall|k: int|
                0 <= k < n && frames[listed[k]].bonds != frames[listed[k] + 1].bonds ==> exists|
                    i: int,
                |
                    0 <= i < reactions@.len() && (#[trigger] reactions@[i]).local_frame
                        == listed[k] + 1,
        decreases mol_indices@.len() - n,
    {
        let i = mol_indices[n][0];
        let j = mol_indices[n][1];
        proof {
            assert(listed[n as int] == i);
            assert(positions.contains(listed[n as int]));
            if n > 0 {
                assert(listed[n - 1] < listed[n as int]);
            }
        }
        let mut reaction = match get_reaction(&mols[i], &mols[j]) {
            Ok(reaction) => reaction,
            Err(e) => {
                assert(positions.contains(i as int) && mols@[i as int]@.symbols != mols@[i
                    + 1]@.symbols);
                return Err(e);
            },
        };
        proof {
            lemma_reaction_empty(reaction, mols@[i as int]@, mols@[j as int]@);
        }
        let ghost held = reactions@;
        if reaction.reactants.len() > 0 && reaction.products.len() > 0 {
            reaction.local_frame = j;
            reaction.global_frame = mols[j].title().clone();
            reactions.push(reaction);
            proof {
                assert forall|k: int|
                    0 <= k < n + 1 && frames[listed[k]].bonds != frames[listed[k] + 1].bonds implies exists|
                    h: int,
                |
                    0 <= h < reactions@.len() && (#[trigger] reactions@[h]).local_frame
                        == listed[k] + 1 by {
                    if k < n {
                        let h = choose|h: int|
                            0 <= h < held.len() && (#[trigger] held[h]).local_frame == listed[k]
                                + 1;
                        assert(reactions@[h] == held[h]);
                    } else {
                        assert(reactions@[held.len() as int].local_frame == listed[k] + 1);
                    }
                }
            }
        } else {
            proof {
                assert forall|k: int|
                    0 <= k < n + 1 && frames[listed[k]].bonds != frames[listed[k] + 1].bonds implies exists|
                    h: int,
                |
                    0 <= h < reactions@.len() && (#[trigger] reactions@[h]).local_frame
                        == listed[k] + 1 by {
                    let h = choose|h: int|
                        0 <= h < held.len() && (#[trigger] held[h]).local_frame == listed[k] + 1;
                    assert(reactions@[h] == held[h]);
                }
            }
        }
        n += 1;
    }
    proof {
        assert forall|p: int|
            #[trigger] positions.contains(p) && 0 <= p && p + 1 < frames.len() && frames[p].bonds
                != frames[p + 1].bonds implies exists|k: int|
            0 <= k < reactions@.len() && (#[trigger] reactions@[k]).local_frame == p + 1 by {
            assert(listed.contains(p));
            let k = choose|k: int| 0 <= k < listed.len() && listed[k] == p;
            assert(frames[listed[k]].bonds != frames[listed[k] + 1].bonds);
        }
        if exists|p: int| #[trigger]
            positions.contains(p) && mols@[p]@.symbols != mols@[p + 1]@.symbols {
            let p = choose|p: int| #[trigger]
                positions.contains(p) && mols@[p]@.symbols != mols@[p + 1]@.symbols;
            assert(listed.contains(p));
            let k = choose|k: int| 0 <= k < listed.len() && listed[k] == p;
            assert(mols@[listed[k]]@.symbols == mols@[listed[k] + 1]@.symbols);
        }
    }
    Ok(reactions)
}

/// The bonding states of `frames` without the pairs that never change.
pub open spec fn active_states(frames: Seq<MoleculeView>) -> StatesView {
    chunk_states(frames).active_only()
}

/// The frames as they are after the repair that follows noise removal: in
/// each frame, the bond of every pair whose state noise removal inverts
/// there is toggled.
pub open spec fn repaired_frames(frames: Seq<MoleculeView>, life: nat) -> Seq<MoleculeView> {
    Seq::new(
        frames.len(),
        |f: int|
            MoleculeView {
                bonds: toggled_bonds(frames[f].bonds, flipped_at(active_states(frames), life, f)),
                ..frames[f]
            },
    )
}

/// Whether all of `frames` hold the same atoms as the first.
pub open spec fn same_atoms(frames: Seq<MoleculeView>) -> bool {
    forall|f: int| 0 <= f < frames.len() ==> (#[trigger] frames[f]).symbols == frames[0].symbols
}

/// Finds the chemical reactions in the frames `mols` of one chunk. The pairs
/// whose bonding state never changes are set aside, noise is removed from
/// the timelines of the others, the bonds of the frames are repaired
/// accordingly, and every transition that is left, outside the margins of
/// `noise_event_life` frames, gives a reaction. Fails where the frames do
/// not all hold the same atoms.
///
/// The chunk holds frames outside the two margins: more than twice
/// `noise_event_life`.
pub fn get_chemical_reactions(mols: &[Molecule], noise_event_life: usize) -> (found: Result<
    Vec<Transformation>,
    Error,
>)
    requires
        2 * noise_event_life < mols@.len(),
    ensures
        found is Ok <==> same_atoms(frames_view(mols@)),
        found matches Err(e) ==> e == Error::InconsistentTrajectory,
        found is Ok ==> active_states(frames_view(mols@)).wf() && active_states(
            frames_view(mols@),
        ).nframes <= mols@.len(),
        found matches Ok(reactions) ==> lists_reactions(
            reactions@,
            repaired_frames(frames_view(mols@), noise_event_life as nat),
            denoised(
                active_states(frames_view(mols@)),
                noise_event_life as nat,
            ).reactive_frames(noise_event_life as int),
        ),
{
    match get_repaired_reactions(mols, noise_event_life) {
        Ok((reactions, _)) => Ok(reactions),
        Err(e) => Err(e),
    }
}

/// Finds the chemical reactions in the frames `mols` of one chunk, as
/// `get_chemical_reactions` does, and returns with them the frames as they
/// are after the repair: the frames that the reactions were read from.
pub fn get_repaired_reactions(mols: &[Molecule], noise_event_life: usize) -> (found: Result<
    (Vec<Transformation>, Vec<Molecule>),
    Error,
>)
    requires
        2 * noise_event_life < mols@.len(),
    ensures
        found is Ok <==> same_atoms(frames_view(mols@)),
        found matches Err(e) ==> e == Error::InconsistentTrajectory,
        found is Ok ==> active_states(frames_view(mols@)).wf() && active_states(
            frames_view(mols@),
        ).nframes <= mols@.len(),
        found matches Ok(both) ==> lists_reactions(
            both.0@,
            repaired_frames(frames_view(mols@), noise_event_life as nat),
            denoised(
                active_states(frames_view(mols@)),
                noise_event_life as nat,
            ).reactive_frames(noise_event_life as int),
        ) && frames_view(both.1@) == repaired_frames(frames_view(mols@), noise_event_life as nat),
{
    let ghost given = frames_view(mols@);
    let ghost life = noise_event_life as nat;
    let mut frames: Vec<Molecule> = Vec::new();
    let mut f: usize = 0;
    while f < mols.len()
        invariant
            f <= mols@.len(),
            given == frames_view(mols@),
            frames@.len() == f,
            forall|i: int| 0 <= i < f ==> (#[trigger] frames@[i])@ == given[i],
            forall|i: int| 0 <= i < f ==> (#[trigger] given[i]).symbols == given[0].symbols,
            forall|i: int| 0 <= i < f ==> (#[trigger] given[i]).wf(),
        decreases mols@.len() - f,
    {
        if !mols[f].matching_configuration(&mols[0]) {
            assert(given[f as int].symbols != given[0].symbols);
            return Err(Error::InconsistentTrajectory);
        }
        let _ = mols[f].natoms();
        frames.push(mols[f].clone());
        f += 1;
    }
    assert(frames_view(frames@) =~= given);
    let mut states = remove_inactive_bonding_pairs(frames.as_slice());
    let ghost active = states@;
    let bonds_to_repair = remove_noise_bonding_events(&mut states, noise_event_life);
    proof {
        let repairs = bonds_to_repair@;
        let keys = Seq::new(repairs.len(), |k: int| repair_key(repairs, k));
        assert forall|k: int, h: int|
            0 <= k < repairs.len() && 0 <= h < repairs[k].1@.len() implies {
            let i = #[trigger] repairs[k].1@[h];
            &&& i < frames@.len()
            &&& frames@[i as int]@.has_atom(repairs[k].0[0] as int)
            &&& frames@[i as int]@.has_atom(repairs[k].0[1] as int)
            &&& repairs[k].0[0] != repairs[k].0[1]
        } by {
            let key = keys[k];
            assert(active.timelines.dom().contains(key));
            assert(chunk_states(given).timelines.dom().contains(key));
            let g = choose|g: int| bonded_in(given, g, key);
            assert(given[g].bonds.contains(key));
            assert(given[g].symbols == given[0].symbols);
            let i = repairs[k].1@[h];
            assert(given[i as int].symbols == given[0].symbols);
        }
        assert forall|j: int, k: int| 0 <= j < k < repairs.len() implies #[trigger] repair_key(
            repairs,
            j,
        ) != #[trigger] repair_key(repairs, k) by {
            assert(pair_lt(keys[j], keys[k]));
        }
    }
    repair_bonding_states(frames.as_mut_slice(), bonds_to_repair.as_slice());
    proof {
        let repairs = bonds_to_repair@;
        let keys = Seq::new(repairs.len(), |k: int| repair_key(repairs, k));
        let goal = repaired_frames(given, life);
        assert forall|i: int| 0 <= i < given.len() implies frames_view(frames@)[i] == goal[i] by {
            let named = repaired_at(repairs, i);
            let flipped = flipped_at(active, life, i);
            assert forall|p: (int, int)| named.contains(p) == flipped.contains(p) by {
                if named.contains(p) {
                    let k = choose|k: int|
                        0 <= k < repairs.len() && #[trigger] repair_key(repairs, k) == p
                            && repair_frames(repairs, k).contains(i);
                    assert(active.timelines.dom().contains(keys[k]));
                }
                if flipped.contains(p) {
                    assert(keys.contains(p));
                    let k = choose|k: int| 0 <= k < keys.len() && keys[k] == p;
                    assert(repair_key(repairs, k) == p);
                }
            }
            assert(named =~= flipped);
        }
        assert(frames_view(frames@) =~= goal);
        assert forall|p: int| #[trigger]
            states@.reactive_frames(noise_event_life as int).contains(
                p,
            ) implies frames@[p]@.symbols == frames@[p + 1]@.symbols by {
            let k = choose|k: (int, int)|
                states@.timelines.dom().contains(k) && interior_event_at(
                    #[trigger] states@.timelines[k],
                    noise_event_life as int,
                    p,
                );
            assert(0 <= p && p + 1 < states@.nframes);
            assert(frames_view(frames@)[p].symbols == given[p].symbols);
            assert(frames_view(frames@)[p + 1].symbols == given[p + 1].symbols);
        }
    }
    match find_reactions(frames.as_slice(), &states, noise_event_life) {
        Ok(reactions) => Ok((reactions, frames)),
        Err(_) => {
            // All the frames hold the same atoms, so no two neighbours differ.
            proof {
                assert(false);
            }
            Err(Error::InconsistentTrajectory)
        },
    }
}

/// Finds the chemical reactions in this chunk of frames, with the noise
/// event life that `options` give, of which the chunk holds more than twice
/// as many frames.
pub fn process_mol_chunk(chunk: &[Molecule], options: &ReactionOptions) -> (found: Result<
    Vec<Transformation>,
    Error,
>)
    requires
        2 * options.noise_event_life < chunk@.len(),
    ensures
        found is Ok <==> same_atoms(frames_view(chunk@)),
        found matches Err(e) ==> e == Error::InconsistentTrajectory,
        found is Ok ==> active_states(frames_view(chunk@)).wf() && active_states(
            frames_view(chunk@),
        ).nframes <= chunk@.len(),
        found matches Ok(reactions) ==> lists_reactions(
            reactions@,
            repaired_frames(frames_view(chunk@), options.noise_event_life as nat),
            denoised(
                active_states(frames_view(chunk@)),
                options.noise_event_life as nat,
            ).reactive_frames(options.noise_event_life as int),
        ),
{
    get_chemical_reactions(chunk, options.noise_event_life)
}

/// After the repair the frames agree with the bonding states cleared of
/// noise: a pair that the states hold is bonded in a repaired frame exactly
/// where its timeline says so, and every other pair is bonded as it was.
pub proof fn lemma_repaired_agree(frames: Seq<MoleculeView>, life: nat, f: int, key: (int, int))
    requires
        0 <= f < frames.len(),
    ensures
        active_states(frames).timelines.dom().contains(key) ==> repaired_frames(
            frames,
            life,
        )[f].bonds.contains(key) == denoised(active_states(frames), life).timelines[key][f],
        !active_states(frames).timelines.dom().contains(key) ==> repaired_frames(
            frames,
            life,
        )[f].bonds.contains(key) == frames[f].bonds.contains(key),
{
    let active = active_states(frames);
    if active.timelines.dom().contains(key) {
        assert(chunk_states(frames).timelines.dom().contains(key));
        let line = active.timelines[key];
        assert(line[f] == bonded_in(frames, f, key));
    }
}

/// Between two repaired frames the bonds differ wherever the bonding states
/// cleared of noise hold a transition: every such transition gives a
/// reaction with reactants and products.
pub proof fn lemma_transitions_react(frames: Seq<MoleculeView>, life: nat, p: int)
    requires
        denoised(active_states(frames), life).reactive_frames(life as int).contains(p),
    ensures
        0 <= p,
        p + 1 < frames.len(),
        repaired_frames(frames, life)[p].bonds != repaired_frames(frames, life)[p + 1].bonds,
{
    let clean = denoised(active_states(frames), life);
    let key = choose|key: (int, int)|
        clean.timelines.dom().contains(key) && interior_event_at(
            #[trigger] clean.timelines[key],
            life as int,
            p,
        );
    assert(clean.timelines[key].len() == frames.len());
    lemma_repaired_agree(frames, life, p, key);
    lemma_repaired_agree(frames, life, p + 1, key);
}

} // verus!
