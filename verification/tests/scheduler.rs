use trajectory_analysis::algo::process_mol_chunk;
use trajectory_analysis::molecule::Molecule;
use trajectory_analysis::options::ReactionOptions;
use trajectory_analysis::reaction::{Error, Transformation};
use trajectory_analysis::scheduler::{ChunkScheduler, SchedulerState};

fn molecule(symbols: &[&str], bonds: &[[usize; 2]]) -> Molecule {
    let symbols: Vec<String> = symbols.iter().map(|s| s.to_string()).collect();
    let mut mol = Molecule::new(String::new(), symbols);
    for &[u, v] in bonds {
        mol.add_bond(u, v);
    }
    mol
}

fn options(chunk_size: usize, noise_event_life: usize) -> ReactionOptions {
    ReactionOptions { chunk_size, noise_event_life, ..Default::default() }
}

/// Runs a whole trajectory through a scheduler, as a driver would.
fn run(frames: Vec<Molecule>, options: ReactionOptions) -> Vec<Transformation> {
    let mut scheduler = ChunkScheduler::new(options).unwrap();
    let mut found = Vec::new();
    for mol in frames {
        if scheduler.push_frame(mol).unwrap() == SchedulerState::Processing {
            found.extend(scheduler.process_chunk().unwrap());
        }
    }
    scheduler.end_of_stream().unwrap();
    found.extend(scheduler.process_chunk().unwrap());
    found
}

/// Two hydrogen atoms, bonded in the frames for which `bonded` says so.
fn hydrogen_frames(nframes: usize, bonded: impl Fn(usize) -> bool) -> Vec<Molecule> {
    (0..nframes)
        .map(|i| if bonded(i) { molecule(&["H", "H"], &[[1, 2]]) } else { molecule(&["H", "H"], &[]) })
        .collect()
}

fn rows(reactions: &[Transformation]) -> Vec<String> {
    reactions.iter().map(|r| format!("{:?}", r)).collect()
}

#[test]
fn default_options() {
    let options = ReactionOptions::default();
    assert_eq!(options.read_trajectory_step_by, 1);
    assert_eq!(options.noise_event_life, 20);
    assert!(!options.write_reaction_species);
    assert_eq!(options.chunk_size, 200);
    assert!(options.read_lattice_extxyz);
    assert!(options.validate().is_ok());
}

#[test]
fn invalid_options_are_refused() {
    assert_eq!(options(41, 20).validate(), Err(Error::InvalidConfig));
    assert_eq!(options(42, 20).validate(), Ok(()));
    assert_eq!(options(1, 0).validate(), Err(Error::InvalidConfig));
    assert_eq!(options(2, 0).validate(), Ok(()));
    assert_eq!(options(usize::MAX, usize::MAX).validate(), Err(Error::InvalidConfig));
    let stepless = ReactionOptions { read_trajectory_step_by: 0, ..Default::default() };
    assert_eq!(stepless.validate(), Err(Error::InvalidConfig));
    assert!(matches!(ChunkScheduler::new(options(41, 20)), Err(Error::InvalidConfig)));
    assert!(matches!(ChunkScheduler::new(stepless), Err(Error::InvalidConfig)));
}

#[test]
fn isolated_transition() {
    let reactions = run(hydrogen_frames(30, |i| i < 15), options(30, 5));
    assert_eq!(reactions.len(), 1);
    let reaction = &reactions[0];
    assert_eq!(reaction.local_frame, 15);
    assert_eq!(reaction.global_frame, "15");
    assert_eq!(reaction.reactants, vec![vec![1, 2]]);
    assert_eq!(reaction.products, vec![vec![1], vec![2]]);
    assert_eq!(reaction.reactants_composition, "H2");
    assert_eq!(reaction.products_composition, "H");
}

#[test]
fn single_frame_flicker() {
    let reactions = run(hydrogen_frames(30, |i| i != 10), options(30, 2));
    assert!(reactions.is_empty());
}

#[test]
fn flicker_at_the_edge() {
    let reactions = run(hydrogen_frames(30, |i| i != 3), options(30, 5));
    assert!(reactions.is_empty());
    let reactions = run(hydrogen_frames(100, |i| i != 3), options(30, 5));
    assert!(reactions.is_empty());
}

#[test]
fn ring_closure() {
    let frames: Vec<Molecule> = (0..40)
        .map(|i| {
            if i < 20 {
                molecule(&["C", "C", "C"], &[[1, 2], [2, 3]])
            } else {
                molecule(&["C", "C", "C"], &[[1, 2], [2, 3], [1, 3]])
            }
        })
        .collect();
    let reactions = run(frames, options(40, 5));
    assert_eq!(reactions.len(), 1);
    assert_eq!(reactions[0].local_frame, 20);
    assert_eq!(reactions[0].global_frame, "20");
    assert_eq!(reactions[0].reactants, vec![vec![1, 2, 3]]);
    assert_eq!(reactions[0].products, vec![vec![1, 2, 3]]);
    assert_eq!(reactions[0].reactants_composition, "C3");
    assert_eq!(reactions[0].products_composition, "C3");
}

#[test]
fn chunk_boundary() {
    let reactions = run(hydrogen_frames(400, |i| i < 205), options(200, 20));
    assert_eq!(reactions.len(), 1);
    assert_eq!(reactions[0].global_frame, "205");
    // the second chunk starts at frame 180
    assert_eq!(reactions[0].local_frame, 25);
}

#[test]
fn records_come_in_the_order_of_their_frames() {
    // the bond changes every 17 frames
    let frames = hydrogen_frames(500, |i| (i / 17) % 2 == 0);
    let reactions = run(frames, options(60, 4));
    assert!(reactions.len() > 10);
    let labels: Vec<usize> = reactions.iter().map(|r| r.global_frame.parse().unwrap()).collect();
    for pair in labels.windows(2) {
        assert!(pair[0] < pair[1]);
    }
    for label in labels {
        assert_eq!(label % 17, 0);
    }
}

#[test]
fn two_runs_agree() {
    let frames = || -> Vec<Molecule> {
        (0..300)
            .map(|i| {
                let mut bonds = vec![[1, 2]];
                if (i / 40) % 2 == 1 {
                    bonds.push([2, 3]);
                }
                if i % 50 > 44 {
                    bonds.push([3, 4]);
                }
                molecule(&["C", "O", "H", "H"], &bonds)
            })
            .collect()
    };
    let first = run(frames(), options(100, 10));
    let second = run(frames(), options(100, 10));
    assert!(!first.is_empty());
    assert_eq!(rows(&first), rows(&second));
}

#[test]
fn scheduler_states() {
    let mut scheduler = ChunkScheduler::new(options(4, 1)).unwrap();
    assert_eq!(scheduler.state(), SchedulerState::Filling);
    assert_eq!(scheduler.options().chunk_size, 4);
    assert_eq!(scheduler.process_chunk().unwrap_err(), Error::OutOfTurn);
    for i in 0..3 {
        let state = scheduler.push_frame(molecule(&["H", "H"], &[])).unwrap();
        assert_eq!(state, SchedulerState::Filling);
        assert_eq!(scheduler.window_len(), i + 1);
    }
    let state = scheduler.push_frame(molecule(&["H", "H"], &[])).unwrap();
    assert_eq!(state, SchedulerState::Processing);
    assert_eq!(scheduler.state(), SchedulerState::Processing);
    // a chunk is waiting: nothing else is taken
    assert_eq!(scheduler.push_frame(molecule(&["H", "H"], &[])).unwrap_err(), Error::OutOfTurn);
    assert_eq!(scheduler.end_of_stream().unwrap_err(), Error::OutOfTurn);
    assert_eq!(scheduler.window_len(), 4);
    assert!(scheduler.process_chunk().unwrap().is_empty());
    assert_eq!(scheduler.state(), SchedulerState::Filling);
    // as many frames as the noise event life stay for the next chunk
    assert_eq!(scheduler.window_len(), 1);
    assert_eq!(scheduler.frames_seen(), 4);
    assert_eq!(
        scheduler.push_frame(molecule(&["H", "He"], &[])).unwrap_err(),
        Error::InconsistentTrajectory
    );
    assert_eq!(scheduler.window_len(), 1);
    scheduler.end_of_stream().unwrap();
    assert_eq!(scheduler.state(), SchedulerState::Draining);
    assert_eq!(scheduler.push_frame(molecule(&["H", "H"], &[])).unwrap_err(), Error::OutOfTurn);
    assert_eq!(scheduler.end_of_stream().unwrap_err(), Error::OutOfTurn);
    assert!(scheduler.process_chunk().unwrap().is_empty());
    assert_eq!(scheduler.window_len(), 0);
    assert_eq!(scheduler.frames_seen(), 4);
}

#[test]
fn last_chunk_is_processed_if_long_enough() {
    // 30 frames make one chunk, 5 stay, 12 more make a last chunk of 17
    let reactions = run(hydrogen_frames(42, |i| i < 35), options(30, 5));
    assert_eq!(reactions.len(), 1);
    assert_eq!(reactions[0].global_frame, "35");
    assert_eq!(reactions[0].local_frame, 10);
    // a last chunk of 11 frames is too short for a noise event life of 5
    let reactions = run(hydrogen_frames(36, |i| i < 31), options(30, 5));
    assert!(reactions.is_empty());
    // 12 frames are enough
    let reactions = run(hydrogen_frames(37, |i| i < 31), options(30, 5));
    assert_eq!(reactions.len(), 1);
    assert_eq!(reactions[0].global_frame, "31");
}

#[test]
fn chunk_with_its_options() {
    let mols = hydrogen_frames(30, |i| i >= 12);
    let reactions = process_mol_chunk(&mols, &options(30, 5)).unwrap();
    assert_eq!(reactions.len(), 1);
    assert_eq!(reactions[0].local_frame, 12);
    assert_eq!(reactions[0].reactants_composition, "H");
    assert_eq!(reactions[0].products_composition, "H2");
    // in the margin of 13 frames the transition does not count
    assert!(process_mol_chunk(&mols, &options(30, 13)).unwrap().is_empty());
}

#[test]
fn atoms_of_the_first_frame_bind_every_later_frame() {
    // without overlap the window is empty after each chunk
    let mut scheduler = ChunkScheduler::new(options(2, 0)).unwrap();
    assert_eq!(scheduler.push_frame(molecule(&["H", "H"], &[])).unwrap(), SchedulerState::Filling);
    assert_eq!(
        scheduler.push_frame(molecule(&["H", "H"], &[[1, 2]])).unwrap(),
        SchedulerState::Processing
    );
    assert_eq!(scheduler.process_chunk().unwrap().len(), 1);
    assert_eq!(scheduler.window_len(), 0);
    assert_eq!(
        scheduler.push_frame(molecule(&["H", "He"], &[])).unwrap_err(),
        Error::InconsistentTrajectory
    );
    assert_eq!(scheduler.push_frame(molecule(&["H"], &[])).unwrap_err(), Error::InconsistentTrajectory);
    assert_eq!(scheduler.frames_seen(), 2);
    assert_eq!(scheduler.push_frame(molecule(&["H", "H"], &[])).unwrap(), SchedulerState::Filling);
    // the first frame of a trajectory may hold any atoms
    let mut scheduler = ChunkScheduler::new(options(2, 0)).unwrap();
    assert_eq!(scheduler.push_frame(molecule(&["H", "He"], &[])).unwrap(), SchedulerState::Filling);
}
