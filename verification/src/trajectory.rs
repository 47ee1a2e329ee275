//! The frames of a trajectory in which bonds form or break, and the events
//! of each pair of atoms over these frames.
use crate::algo::same_atoms;
use crate::bonding_events::{
    cleared, either_spans_from, has_event_within, number_codes, remove_noise_bonding_events,
    BondingEvents,
};
use crate::molecule::{frames_view, Molecule, MoleculeView};
use crate::pairs::{lists_pairs, pair_lt, pairs_view};
use crate::reaction::{bonds_gained, get_bonding_changes, Error};
use vstd::prelude::*;

verus! {

/// A frame in which bonds form or break, with these bonds.
#[derive(Debug)]
pub struct ReactiveFrame {
    mol: Molecule,
    forming: Vec<[usize; 2]>,
    breaking: Vec<[usize; 2]>,
}

/// What a `ReactiveFrame` holds.
pub struct ReactiveFrameView {
    /// The frame.
    pub mol: MoleculeView,
    /// The bonds that it holds and the frame before it does not.
    pub forming: Set<(int, int)>,
    /// The bonds that the frame before it holds and it does not.
    pub breaking: Set<(int, int)>,
}

impl View for ReactiveFrame {
    type V = ReactiveFrameView;

    closed spec fn view(&self) -> ReactiveFrameView {
        ReactiveFrameView {
            mol: self.mol@,
            forming: pairs_view(self.forming@).to_set(),
            breaking: pairs_view(self.breaking@).to_set(),
        }
    }
}

impl ReactiveFrame {
    #[verifier::type_invariant]
    spec fn well_formed(self) -> bool {
        &&& rising_bonds(self.forming@)
        &&& rising_bonds(self.breaking@)
    }

    /// The frame.
    pub fn mol(&self) -> (mol: &Molecule)
        ensures
            mol@ == self@.mol,
    {
        &self.mol
    }

    /// The bonds that form, in ascending order.
    pub fn forming(&self) -> (bonds: &Vec<[usize; 2]>)
        ensures
            lists_pairs(pairs_view(bonds@), self@.forming),
            forall|k: int| 0 <= k < bonds@.len() ==> (#[trigger] bonds@[k])[0] < bonds@[k][1],
    {
        proof {
            use_type_invariant(self);
        }
        &self.forming
    }

    /// The bonds that break, in ascending order.
    pub fn breaking(&self) -> (bonds: &Vec<[usize; 2]>)
        ensures
            lists_pairs(pairs_view(bonds@), self@.breaking),
            forall|k: int| 0 <= k < bonds@.len() ==> (#[trigger] bonds@[k])[0] < bonds@[k][1],
    {
        proof {
            use_type_invariant(self);
        }
        &self.breaking
    }
}

/// Whether each of `bonds` names its smaller atom first, and they stand in
/// ascending order.
spec fn rising_bonds(bonds: Seq<[usize; 2]>) -> bool {
    &&& forall|k: int| 0 <= k < bonds.len() ==> (#[trigger] bonds[k])[0] < bonds[k][1]
    &&& forall|j: int, k: int|
        0 <= j < k < bonds.len() ==> pair_lt(pairs_view(bonds)[j], pairs_view(bonds)[k])
}

/// What each of `frames` holds.
pub open spec fn reactive_views(frames: Seq<ReactiveFrame>) -> Seq<ReactiveFrameView> {
    Seq::new(frames.len(), |i: int| frames[i]@)
}

/// The reactive frames among the first `upto` of `mols`: those whose bonds
/// differ from the bonds of the frame before.
pub open spec fn active_frames(mols: Seq<MoleculeView>, upto: int) -> Seq<ReactiveFrameView>
    decreases upto,
{
    if upto <= 1 {
        Seq::empty()
    } else {
        let found = active_frames(mols, upto - 1);
        if mols[upto - 2].bonds != mols[upto - 1].bonds {
            found.push(
                ReactiveFrameView {
                    mol: mols[upto - 1],
                    forming: bonds_gained(mols[upto - 2], mols[upto - 1]),
                    breaking: bonds_gained(mols[upto - 1], mols[upto - 2]),
                },
            )
        } else {
            found
        }
    }
}

/// Finds the frames in which bonds form or break from the frame before, and
/// records these bonds with each.
pub fn get_active_molecules(mols: &[Molecule]) -> (frames: Vec<ReactiveFrame>)
    requires
        mols@.len() > 0,
    ensures
        reactive_views(frames@) == active_frames(frames_view(mols@), mols@.len() as int),
{
    let ghost given = frames_view(mols@);
    let mut frames: Vec<ReactiveFrame> = Vec::new();
    let n = mols.len();
    let mut i: usize = 1;
    assert(reactive_views(frames@) =~= active_frames(given, 1));
    while i < n
        invariant
            n == mols@.len(),
            given == frames_view(mols@),
            1 <= i <= n,
            reactive_views(frames@) == active_frames(given, i as int),
        decreases n - i,
    {
        let mol1 = &mols[i - 1];
        let mol2 = &mols[i];
        // calculate bonding changes and record them
        let (forming, breaking) = get_bonding_changes(mol1, mol2);
        let ghost gained = bonds_gained(mol1@, mol2@);
        let ghost lost = bonds_gained(mol2@, mol1@);
        let ghost before = reactive_views(frames@);
        let _ = mol1.natoms();
        let _ = mol2.natoms();
        proof {
            assert forall|k: int| 0 <= k < forming@.len() implies (#[trigger] forming@[k])[0]
                < forming@[k][1] by {
                assert(gained.contains(pairs_view(forming@)[k]));
            }
            assert forall|k: int| 0 <= k < breaking@.len() implies (#[trigger] breaking@[k])[0]
                < breaking@[k][1] by {
                assert(lost.contains(pairs_view(breaking@)[k]));
            }
            assert(pairs_view(forming@).to_set() =~= gained);
            assert(pairs_view(breaking@).to_set() =~= lost);
            if forming@.len() == 0 && breaking@.len() == 0 {
                assert(mol1@.bonds =~= mol2@.bonds) by {
                    assert forall|p: (int, int)| mol1@.bonds.contains(p) == mol2@.bonds.contains(
                        p,
                    ) by {
                        if mol1@.bonds.contains(p) != mol2@.bonds.contains(p) {
                            assert(gained.contains(p) || lost.contains(p));
                            assert(pairs_view(forming@).contains(p) || pairs_view(
                                breaking@,
                            ).contains(p));
                        }
                    }
                }
            } else {
                if forming@.len() > 0 {
                    assert(gained.contains(pairs_view(forming@)[0]));
                } else {
                    assert(lost.contains(pairs_view(breaking@)[0]));
                }
                assert(mol1@.bonds != mol2@.bonds);
            }
        }
        if forming.len() > 0 || breaking.len() > 0 {
            frames.push(ReactiveFrame { mol: mol2.clone(), forming, breaking });
            assert(reactive_views(frames@) =~= before.push(
                ReactiveFrameView { mol: mol2@, forming: gained, breaking: lost },
            ));
        }
        i += 1;
    }
    frames
}

/// Finds the frames in which bonds form or break, as `get_active_molecules`
/// does, for a trajectory: fails where the frames do not all hold the same
/// atoms.
pub fn get_bonding_events_trajectory(mols: &[Molecule]) -> (found: Result<Vec<ReactiveFrame>, Error>)
    requires
        mols@.len() > 0,
    ensures
        found is Ok <==> same_atoms(frames_view(mols@)),
        found matches Err(e) ==> e == Error::InconsistentTrajectory,
        found matches Ok(frames) ==> reactive_views(frames@) == active_frames(
            frames_view(mols@),
            mols@.len() as int,
        ),
{
    let ghost given = frames_view(mols@);
    let mut f: usize = 0;
    while f < mols.len()
        invariant
            f <= mols@.len(),
            given == frames_view(mols@),
            forall|i: int| 0 <= i < f ==> (#[trigger] given[i]).symbols == given[0].symbols,
        decreases mols@.len() - f,
    {
        if !mols[f].matching_configuration(&mols[0]) {
            assert(given[f as int].symbols != given[0].symbols);
            return Err(Error::InconsistentTrajectory);
        }
        f += 1;
    }
    Ok(get_active_molecules(mols))
}

/// The event of a pair in a reactive frame: `-1` where its bond breaks, `1`
/// where it forms, `0` otherwise.
pub open spec fn event_in(frame: ReactiveFrameView, pair: (int, int)) -> i32 {
    if frame.breaking.contains(pair) {
        -1i32
    } else if frame.forming.contains(pair) {
        1i32
    } else {
        0i32
    }
}

/// The events of a pair over the frames of a trajectory.
pub open spec fn column_events(traj: Seq<ReactiveFrameView>, pair: (int, int)) -> Seq<i32> {
    Seq::new(traj.len(), |i: int| event_in(traj[i], pair))
}

/// Whether the bond of `pair` forms or breaks in frame `i` of `traj`.
pub open spec fn changes_in(traj: Seq<ReactiveFrameView>, pair: (int, int), i: int) -> bool {
    0 <= i < traj.len() && (traj[i].forming.contains(pair) || traj[i].breaking.contains(pair))
}

/// Whether the bond of `pair` forms or breaks in some frame of `traj`.
pub open spec fn has_column(traj: Seq<ReactiveFrameView>, pair: (int, int)) -> bool {
    exists|i: int| changes_in(traj, pair, i)
}

/// The events of a pair cleared of noise.
pub open spec fn cleared_column(traj: Seq<ReactiveFrameView>, pair: (int, int), life: nat) -> Seq<
    i32,
> {
    cleared(
        column_events(traj, pair),
        either_spans_from(number_codes(column_events(traj, pair)), life, 0),
    )
}

/// The bonding events of a trajectory of reactive frames: the events of each
/// pair whose bond forms or breaks in some frame. With a noise event life,
/// the events are cleared of noise, and only the pairs are kept that still
/// have an event outside the margins.
pub open spec fn bonding_events_of(traj: Seq<ReactiveFrameView>, life: Option<usize>) -> Map<
    (int, int),
    Seq<i32>,
> {
    match life {
        None => Map::new(
            |pair: (int, int)| has_column(traj, pair),
            |pair: (int, int)| column_events(traj, pair),
        ),
        Some(life) => Map::new(
            |pair: (int, int)|
                has_column(traj, pair) && has_event_within(
                    cleared_column(traj, pair, life as nat),
                    life as int,
                ),
            |pair: (int, int)| cleared_column(traj, pair, life as nat),
        ),
    }
}

/// Whether `pair` is one of `pairs`.
fn holds_pair(pairs: &Vec<[usize; 2]>, pair: [usize; 2]) -> (held: bool)
    ensures
        held == pairs_view(pairs@).contains((pair[0] as int, pair[1] as int)),
{
    let mut i: usize = 0;
    while i < pairs.len()
        invariant
            i <= pairs@.len(),
            forall|j: int|
                0 <= j < i ==> pairs_view(pairs@)[j] != (pair[0] as int, pair[1] as int),
        decreases pairs@.len() - i,
    {
        if pairs[i][0] == pair[0] && pairs[i][1] == pair[1] {
            assert(pairs_view(pairs@)[i as int] == (pair[0] as int, pair[1] as int));
            return true;
        }
        i += 1;
    }
    false
}

/// The events of `pair` over the frames of `traj`.
fn column_of(traj: &[ReactiveFrame], pair: [usize; 2]) -> (values: Vec<i32>)
    ensures
        values@ == column_events(reactive_views(traj@), (pair[0] as int, pair[1] as int)),
{
    let mut values: Vec<i32> = Vec::new();
    let mut row: usize = 0;
    while row < traj.len()
        invariant
            row <= traj@.len(),
            values@.len() == row,
            forall|i: int|
                0 <= i < row ==> values@[i] == event_in(
                    #[trigger] reactive_views(traj@)[i],
                    (pair[0] as int, pair[1] as int),
                ),
        decreases traj@.len() - row,
    {
        let frame = &traj[row];
        assert(reactive_views(traj@)[row as int] == frame@);
        let value = if holds_pair(&frame.breaking, pair) {
            -1
        } else if holds_pair(&frame.forming, pair) {
            1
        } else {
            0
        };
        values.push(value);
        row += 1;
    }
    assert(values@ =~= column_events(reactive_views(traj@), (pair[0] as int, pair[1] as int)));
    values
}

/// Opens a column, without events, for each of `pairs`.
fn add_columns(columns: &mut BondingEvents, pairs: &Vec<[usize; 2]>)
    requires
        forall|j: int| 0 <= j < pairs@.len() ==> (#[trigger] pairs@[j])[0] < pairs@[j][1],
    ensures
        forall|p: (int, int)|
            final(columns)@.dom().contains(p) <==> old(columns)@.dom().contains(p) || pairs_view(
                pairs@,
            ).contains(p),
{
    let ghost start = columns@.dom();
    let ghost listed = pairs_view(pairs@);
    let mut k: usize = 0;
    while k < pairs.len()
        invariant
            k <= pairs@.len(),
            listed == pairs_view(pairs@),
            forall|j: int| 0 <= j < pairs@.len() ==> (#[trigger] pairs@[j])[0] < pairs@[j][1],
            forall|p: (int, int)|
                #![trigger columns@.dom().contains(p)]
                columns@.dom().contains(p) <==> start.contains(p) || listed.take(k as int).contains(
                    p,
                ),
        decreases pairs@.len() - k,
    {
        let pair = pairs[k];
        let ghost key = listed[k as int];
        let ghost held = columns@.dom();
        assert(key == (pair[0] as int, pair[1] as int));
        columns.insert(pair[0], pair[1], Vec::new());
        proof {
            assert(columns@.dom() =~= held.insert(key));
            let shorter = listed.take(k as int);
            let longer = listed.take(k + 1);
            assert forall|p: (int, int)| longer.contains(p) <==> shorter.contains(p) || p == key by {
                if longer.contains(p) {
                    let j = choose|j: int| 0 <= j < longer.len() && longer[j] == p;
                    if j < k {
                        assert(shorter[j] == p);
                    }
                }
                if shorter.contains(p) {
                    let j = choose|j: int| 0 <= j < shorter.len() && shorter[j] == p;
                    assert(longer[j] == p);
                }
                if p == key {
                    assert(longer[k as int] == p);
                }
            }
            assert forall|p: (int, int)|
                columns@.dom().contains(p) <==> start.contains(p) || longer.contains(p) by {
                assert(columns@.dom().contains(p) <==> held.contains(p) || p == key);
                assert(held.contains(p) <==> start.contains(p) || shorter.contains(p));
            }
        }
        k += 1;
    }
    assert(listed.take(k as int) =~= listed);
}

/// Collects the bonding events of each pair of atoms over the reactive
/// frames `traj`, see `bonding_events_of`. Where there are frames, a noise
/// event life that is given is at most half their number.
pub fn get_bonding_events(traj: &[ReactiveFrame], noise_event_life: Option<usize>) -> (events:
    BondingEvents)
    requires
        noise_event_life matches Some(life) ==> traj@.len() == 0 || life + life <= traj@.len(),
    ensures
        events@ == bonding_events_of(reactive_views(traj@), noise_event_life),
{
    let ghost views = reactive_views(traj@);
    // one column for each pair whose bond forms or breaks in some frame
    let mut columns = BondingEvents::new();
    let mut row: usize = 0;
    while row < traj.len()
        invariant
            row <= traj@.len(),
            views == reactive_views(traj@),
            forall|p: (int, int)|
                columns@.dom().contains(p) <==> exists|i: int| i < row && changes_in(views, p, i),
        decreases traj@.len() - row,
    {
        let frame = &traj[row];
        let ghost start = columns@.dom();
        proof {
            use_type_invariant(frame);
            assert(views[row as int] == frame@);
        }
        add_columns(&mut columns, &frame.forming);
        let ghost mid = columns@.dom();
        add_columns(&mut columns, &frame.breaking);
        proof {
            assert forall|p: (int, int)|
                columns@.dom().contains(p) <==> exists|i: int|
                    i < row + 1 && changes_in(views, p, i) by {
                let here = frame@.forming.contains(p) || frame@.breaking.contains(p);
                assert(frame@.forming.contains(p) == pairs_view(frame.forming@).contains(p));
                assert(frame@.breaking.contains(p) == pairs_view(frame.breaking@).contains(p));
                assert(mid.contains(p) <==> start.contains(p) || pairs_view(
                    frame.forming@,
                ).contains(p));
                assert(columns@.dom().contains(p) <==> mid.contains(p) || pairs_view(
                    frame.breaking@,
                ).contains(p));
                assert(columns@.dom().contains(p) <==> start.contains(p) || here);
                assert(here <==> changes_in(views, p, row as int));
                if start.contains(p) {
                    let i = choose|i: int| i < row && changes_in(views, p, i);
                    assert(i < row + 1 && changes_in(views, p, i));
                }
                if here {
                    assert(row < row + 1 && changes_in(views, p, row as int));
                }
                if exists|i: int| i < row + 1 && changes_in(views, p, i) {
                    let i = choose|i: int| i < row + 1 && changes_in(views, p, i);
                    if i < row {
                        assert(i < row && changes_in(views, p, i));
                    }
                }
            }
        }
        row += 1;
    }
    let keys = columns.pairs();
    let ghost listed = pairs_view(keys@);
    let ghost goal = bonding_events_of(views, noise_event_life);
    proof {
        assert forall|p: (int, int)| columns@.dom().contains(p) <==> has_column(views, p) by {
            if columns@.dom().contains(p) {
                let i = choose|i: int| i < row && changes_in(views, p, i);
                assert(changes_in(views, p, i));
            }
            if has_column(views, p) {
                let i = choose|i: int| changes_in(views, p, i);
                assert(i < row && changes_in(views, p, i));
            }
        }
    }
    let mut d = BondingEvents::new();
    let mut c: usize = 0;
    while c < keys.len()
        invariant
            c <= keys@.len(),
            views == reactive_views(traj@),
            listed == pairs_view(keys@),
            lists_pairs(listed, columns@.dom()),
            forall|k: int| 0 <= k < keys@.len() ==> (#[trigger] keys@[k])[0] <= keys@[k][1],
            forall|p: (int, int)| columns@.dom().contains(p) <==> has_column(views, p),
            goal == bonding_events_of(views, noise_event_life),
            noise_event_life matches Some(life) ==> traj@.len() == 0 || life + life <= traj@.len(),
            forall|p: (int, int)|
                d@.dom().contains(p) <==> goal.dom().contains(p) && listed.take(c as int).contains(p),
            forall|p: (int, int)| #[trigger] d@.dom().contains(p) ==> d@[p] == goal[p],
        decreases keys@.len() - c,
    {
        let col = keys[c];
        let ghost key = listed[c as int];
        let ghost held = d@;
        let mut values = column_of(traj, col);
        proof {
            assert(key == (col[0] as int, col[1] as int));
            assert(col[0] <= col[1]);
            assert(columns@.dom().contains(listed[c as int]));
            assert(has_column(views, key));
            let at = choose|i: int| changes_in(views, key, i);
            assert(0 <= at < traj@.len());
            assert(!listed.take(c as int).contains(key)) by {
                if listed.take(c as int).contains(key) {
                    let j = choose|j: int|
                        0 <= j < listed.take(c as int).len() && listed.take(c as int)[j] == key;
                    assert(pair_lt(listed[j], listed[c as int]));
                }
            }
        }
        match noise_event_life {
            Some(life) => {
                let (has_reaction, _) = remove_noise_bonding_events(&mut values, life);
                assert(values@ == cleared_column(views, key, life as nat));
                if has_reaction {
                    d.insert(col[0], col[1], values);
                    assert(d@ =~= held.insert(key, cleared_column(views, key, life as nat)));
                    assert(goal.dom().contains(key));
                } else {
                    assert(!goal.dom().contains(key));
                }
            },
            None => {
                d.insert(col[0], col[1], values);
                assert(d@ =~= held.insert(key, column_events(views, key)));
                assert(goal.dom().contains(key));
            },
        }
        proof {
            let shorter = listed.take(c as int);
            let longer = listed.take(c + 1);
            assert forall|p: (int, int)| longer.contains(p) <==> shorter.contains(p) || p == key by {
                if longer.contains(p) {
                    let j = choose|j: int| 0 <= j < longer.len() && longer[j] == p;
                    if j < c {
                        assert(shorter[j] == p);
                    }
                }
                if shorter.contains(p) {
                    let j = choose|j: int| 0 <= j < shorter.len() && shorter[j] == p;
                    assert(longer[j] == p);
                }
                if p == key {
                    assert(longer[c as int] == p);
                }
            }
            assert forall|p: (int, int)|
                d@.dom().contains(p) <==> goal.dom().contains(p) && longer.contains(p) by {
                if p != key {
                    assert(d@.dom().contains(p) == held.dom().contains(p));
                }
            }
        }
        c += 1;
    }
    proof {
        assert(listed.take(c as int) =~= listed);
        assert forall|p: (int, int)| d@.dom().contains(p) <==> goal.dom().contains(p) by {
            if goal.dom().contains(p) {
                assert(has_column(views, p));
                assert(listed.contains(p));
            }
        }
        assert(d@ =~= goal);
    }
    d
}

} // verus!
