use trajectory_analysis::bonding_events::BondingEvents;
use trajectory_analysis::molecule::Molecule;
use trajectory_analysis::reaction::Error;
use trajectory_analysis::trajectory::{
    get_active_molecules, get_bonding_events, get_bonding_events_trajectory,
};

fn water(bonds: &[[usize; 2]]) -> Molecule {
    let symbols = vec!["O".to_string(), "H".to_string(), "H".to_string()];
    let mut mol = Molecule::new(String::new(), symbols);
    for &[u, v] in bonds {
        mol.add_bond(u, v);
    }
    mol
}

fn frames() -> Vec<Molecule> {
    vec![
        water(&[[1, 2], [1, 3]]),
        water(&[[1, 2], [1, 3]]),
        water(&[[1, 2]]),
        water(&[[1, 2], [2, 3]]),
        water(&[[1, 2], [2, 3]]),
        water(&[[1, 2], [1, 3]]),
        water(&[[1, 3]]),
    ]
}

#[test]
fn reactive_frames_of_a_trajectory() {
    let active = get_active_molecules(&frames());
    assert_eq!(active.len(), 4);
    assert_eq!(active[0].forming(), &Vec::<[usize; 2]>::new());
    assert_eq!(active[0].breaking(), &vec![[1, 3]]);
    assert_eq!(active[0].mol().bonds(), vec![[1, 2]]);
    assert_eq!(active[1].forming(), &vec![[2, 3]]);
    assert_eq!(active[1].breaking(), &Vec::<[usize; 2]>::new());
    assert_eq!(active[2].forming(), &vec![[1, 3]]);
    assert_eq!(active[2].breaking(), &vec![[2, 3]]);
    assert_eq!(active[3].breaking(), &vec![[1, 2]]);
    assert!(get_active_molecules(&frames()[..2]).is_empty());
    assert!(get_active_molecules(&frames()[..1]).is_empty());
}

#[test]
fn trajectory_needs_the_same_atoms() {
    let mut mixed = frames();
    mixed.push(Molecule::new(String::new(), vec!["O".to_string()]));
    assert!(matches!(get_bonding_events_trajectory(&mixed), Err(Error::InconsistentTrajectory)));
    assert_eq!(get_bonding_events_trajectory(&frames()).unwrap().len(), 4);
}

#[test]
fn bonding_events_of_reactive_frames() {
    let traj = get_bonding_events_trajectory(&frames()).unwrap();
    let events = get_bonding_events(&traj, None);
    assert_eq!(events.len(), 3);
    assert_eq!(events.get(1, 2), Some(&vec![0, 0, 0, -1]));
    assert_eq!(events.get(1, 3), Some(&vec![-1, 0, 1, 0]));
    assert_eq!(events.get(3, 2), Some(&vec![0, 1, -1, 0]));
    assert_eq!(events.pairs(), vec![[1, 2], [1, 3], [2, 3]]);
    // with noise removal: the break and formation of 1-3, and the
    // formation and break of 2-3, cancel out
    let events = get_bonding_events(&traj, Some(1));
    assert_eq!(events.len(), 0);
    let events = get_bonding_events(&traj, Some(0));
    assert_eq!(events.pairs(), vec![[1, 2], [1, 3]]);
    assert_eq!(events.get(1, 2), Some(&vec![0, 0, 0, -1]));
    assert_eq!(events.get(1, 3), Some(&vec![-1, 0, 1, 0]));
    assert_eq!(get_bonding_events(&[], None).len(), 0);
    assert_eq!(get_bonding_events(&[], Some(5)).len(), 0);
}

#[test]
fn report_of_bonding_events() {
    let events = BondingEvents::new();
    assert_eq!(events.print(), "No chemical events\n");
    let mut events = BondingEvents::new();
    events.insert(12, 3, vec![0, 1, -1]);
    events.insert(1, 208, vec![-1]);
    let expected = "bond pair: reaction codes\n\
                    001-208: ↓\n\
                    003-012: -↑↓\n\
                    If view reaction atoms in jmol, you can use below commands:\n\
                    select atomno=[1,208,3,12]\nselectionhalo\nlabel %i\n";
    assert_eq!(events.print(), expected);
}
