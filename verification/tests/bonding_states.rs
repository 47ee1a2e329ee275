use trajectory_analysis::events::{
    find_noise_codes, find_reactive_changes, fix_noise_states, states_to_events,
};
use trajectory_analysis::molecule::Molecule;
use trajectory_analysis::pairs::ordered;
use trajectory_analysis::states::BondingStates;

fn timeline(text: &str) -> Vec<bool> {
    text.chars().map(|x| x == '+').collect()
}

fn fill(states: &mut BondingStates, key: [usize; 2], text: &str) {
    for (i, bonded) in timeline(text).into_iter().enumerate() {
        states.set_frame(i, key, bonded);
    }
}

#[test]
fn test_find_noise_codes() {
    let xx = find_noise_codes("-B---F-B-F--B--F---B", 5);
    println!("{:?}", xx);

    let mut states: Vec<_> = "+++--+++---+++++"
        .chars()
        .map(|x| if x == '+' { true } else { false })
        .collect();
    let ecode = states_to_events(&states);
    assert_eq!(ecode, "--B-F--B--F----");

    let pairs = find_noise_codes(&ecode, 1);
    assert_eq!(pairs.len(), 1);
    let pairs = find_noise_codes(&ecode, 0);
    assert_eq!(pairs.len(), 0);

    let pairs = find_noise_codes(&ecode, 2);
    assert_eq!(pairs.len(), 2);
    let (u, v) = pairs[0];
    assert_eq!(&ecode[u..v], "B-F");
    let (u, v) = pairs[1];
    assert_eq!(&ecode[u..v], "B--F");

    fix_noise_states(&mut states, 1);
    let ecode = states_to_events(&states);
    assert_eq!(ecode, "-------B--F----");

    let frames = find_reactive_changes(&states);
    assert_eq!(frames.len(), 2);
    for [i, j] in frames {
        assert_ne!(states[i], states[j]);
    }
}

#[test]
fn noise_codes_exact_spans() {
    let spans = find_noise_codes("-B---F-B-F--B--F---B", 5);
    assert_eq!(spans, vec![(1, 6), (7, 10), (12, 16)]);
    // formations followed by breaks are the majority here
    let spans = find_noise_codes("F-B--F-B", 1);
    assert_eq!(spans, vec![(0, 3), (5, 8)]);
    // equally many of both kinds: breaks followed by formations win
    let spans = find_noise_codes("BF---FB--", 1);
    assert_eq!(spans, vec![(0, 2)]);
    // a character that is no event between the two ends spoils the pattern
    assert_eq!(find_noise_codes("BxF", 5), vec![]);
    assert_eq!(find_noise_codes("", 5), vec![]);
}

#[test]
fn events_of_short_timelines() {
    assert_eq!(states_to_events(&[]), "");
    assert_eq!(states_to_events(&[true]), "");
    assert_eq!(states_to_events(&[true, false]), "B");
    assert_eq!(states_to_events(&[false, true, true, false]), "F-B");
}

#[test]
fn noise_removal_keeps_margins() {
    // flicker at frame 1, inside the left margin of 2 frames
    let mut states = timeline("+-++++++++");
    let flipped = fix_noise_states(&mut states, 2);
    assert_eq!(flipped, Vec::<usize>::new());
    assert_eq!(states, timeline("+-++++++++"));
    // a flicker that reaches into the left margin is inverted only outside it
    let mut states = timeline("+---++++++");
    let flipped = fix_noise_states(&mut states, 2);
    assert_eq!(flipped, vec![2, 3]);
    assert_eq!(states, timeline("+-++++++++"));
    for i in flipped {
        assert!(2 <= i && i < 10 - 2);
    }
    // the shortest timeline for margins of 2 frames: one frame between them
    let mut states = timeline("++-++");
    assert_eq!(fix_noise_states(&mut states, 2), vec![2]);
    assert_eq!(states, timeline("+++++"));
    let mut states = timeline("+-+++");
    assert_eq!(fix_noise_states(&mut states, 2), Vec::<usize>::new());
    assert_eq!(states, timeline("+-+++"));
}

#[test]
fn noise_removal_twice_on_a_plain_flicker() {
    let mut once = timeline("++++++-+++++++");
    fix_noise_states(&mut once, 2);
    let mut twice = once.clone();
    let flipped = fix_noise_states(&mut twice, 2);
    assert_eq!(flipped, Vec::<usize>::new());
    assert_eq!(once, twice);
    assert_eq!(once, timeline("++++++++++++++"));
}

#[test]
fn noise_removal_twice_where_the_kinds_tie() {
    // one break-formation and one formation-break pattern: the first pass
    // removes the former, the second pass then finds only the latter
    let mut states = timeline("+-+++---+---++");
    assert_eq!(states_to_events(&states), "BF--B--FB--F-");
    let first = fix_noise_states(&mut states, 1);
    assert_eq!(first, vec![1]);
    assert_eq!(states_to_events(&states), "----B--FB--F-");
    let second = fix_noise_states(&mut states, 1);
    assert_eq!(second, vec![8]);
    assert_eq!(states_to_events(&states), "----B------F-");
}

#[test]
fn reactive_changes_of_a_timeline() {
    assert_eq!(find_reactive_changes(&timeline("++--+")), vec![[1, 2], [3, 4]]);
    assert_eq!(find_reactive_changes(&timeline("+++")), Vec::<[usize; 2]>::new());
    assert_eq!(find_reactive_changes(&timeline("-")), Vec::<[usize; 2]>::new());
}

#[test]
fn pairs_are_canonical() {
    assert_eq!(ordered([5, 3]), [3, 5]);
    assert_eq!(ordered([3, 5]), [3, 5]);
    assert_eq!(ordered([4, 4]), [4, 4]);
    let mut states = BondingStates::default();
    states.set_frame(3, [7, 2], true);
    assert!(states.get_frame(3, [7, 2]));
    assert!(states.get_frame(3, [2, 7]));
    states.set_frame(3, [2, 7], false);
    assert!(!states.get_frame(3, [7, 2]));
    assert_eq!(states.len(), 1);
    assert_eq!(states.bonding_pairs(), vec![[2, 7]]);
}

#[test]
fn unknown_pairs_and_frames_are_unbonded() {
    let mut states = BondingStates::new();
    assert_eq!(states.nframes(), 0);
    assert!(!states.get_frame(0, [1, 2]));
    states.set_frame(4, [1, 2], true);
    assert_eq!(states.nframes(), 5);
    assert!(!states.get_frame(3, [1, 2]));
    assert!(states.get_frame(4, [1, 2]));
    assert!(!states.get_frame(5, [1, 2]));
    assert!(!states.get_frame(4, [1, 3]));
    states.set_frame(1, [1, 2], true);
    assert_eq!(states.nframes(), 5);
    assert_eq!(states.bonding_states_code([2, 1]), vec![false, true, false, false, true]);
    assert_eq!(states.bonding_states_code([8, 9]), vec![false; 5]);
}

#[test]
fn pairs_come_in_ascending_order() {
    let mut states = BondingStates::new();
    states.set_frame(0, [9, 3], true);
    states.set_frame(0, [1, 12], true);
    states.set_frame(0, [3, 4], true);
    states.set_frame(0, [1, 2], true);
    assert_eq!(states.bonding_pairs(), vec![[1, 2], [1, 12], [3, 4], [3, 9]]);
    let copy = states.clone();
    assert_eq!(copy.bonding_pairs(), states.bonding_pairs());
    assert_eq!(copy.nframes(), 1);
}

#[test]
fn events_code_of_a_pair() {
    let mut states = BondingStates::new();
    fill(&mut states, [1, 2], "++--+");
    fill(&mut states, [3, 4], "-----");
    let code = states.bonding_events_code([2, 1]);
    assert_eq!(code, "-B-F");
    assert_eq!(code.len(), states.nframes() - 1);
    assert!(code.chars().all(|c| c == '-' || c == 'F' || c == 'B'));
    assert_eq!(states.bonding_events_code([3, 4]), "----");
    assert_eq!(states.bonding_events_code([5, 6]), "----");
}

#[test]
fn inactive_pairs_are_removed() {
    let mut states = BondingStates::new();
    for u in 1..=1000 {
        fill(&mut states, [u, u + 1000], "++++++++++");
    }
    fill(&mut states, [3000, 3001], "----------");
    assert_eq!(states.len(), 1001);
    assert_eq!(states.remove_inactive_bonding_pairs(), 1001);
    assert_eq!(states.len(), 0);
    assert_eq!(states.nframes(), 10);
    assert_eq!(states.find_reactive_bonds(2), Vec::<[usize; 2]>::new());
    assert_eq!(states.find_reactive_frames(2), Vec::<[usize; 2]>::new());
}

#[test]
fn active_pairs_hold_both_states() {
    let mut states = BondingStates::new();
    fill(&mut states, [1, 2], "++++++");
    fill(&mut states, [1, 3], "+++--+");
    fill(&mut states, [2, 3], "------");
    fill(&mut states, [4, 5], "-+++++");
    assert_eq!(states.remove_inactive_bonding_pairs(), 2);
    assert_eq!(states.bonding_pairs(), vec![[1, 3], [4, 5]]);
    for key in states.bonding_pairs() {
        let code = states.bonding_states_code(key);
        assert!(code.contains(&true) && code.contains(&false));
    }
    assert_eq!(states.bonding_states_code([1, 3]), timeline("+++--+"));
}

#[test]
fn a_short_timeline_counts_missing_frames_as_unbonded() {
    let mut states = BondingStates::new();
    states.set_frame(0, [1, 2], true);
    states.set_frame(3, [5, 6], true);
    // [1, 2] is bonded in the only frame set for it, but unbonded later
    assert_eq!(states.remove_inactive_bonding_pairs(), 0);
    assert_eq!(states.bonding_events_code([1, 2]), "B--");
}

#[test]
fn noise_events_of_a_pair() {
    let mut states = BondingStates::new();
    fill(&mut states, [1, 2], "++++++-+++++++");
    fill(&mut states, [1, 3], "+++++++-------");
    let flipped = states.remove_noise_events([2, 1], 2);
    assert_eq!(flipped, vec![6]);
    assert_eq!(states.bonding_states_code([1, 2]), timeline("++++++++++++++"));
    assert_eq!(states.bonding_states_code([1, 3]), timeline("+++++++-------"));
    // a pair never seen has no events, and is not taken up
    assert_eq!(states.remove_noise_events([7, 8], 2), Vec::<usize>::new());
    assert_eq!(states.len(), 2);
    assert_eq!(states.nframes(), 14);
}

#[test]
fn reactive_bonds_and_frames() {
    let mut states = BondingStates::new();
    fill(&mut states, [1, 2], "++++++------");
    fill(&mut states, [3, 4], "-+++++++++++");
    fill(&mut states, [5, 6], "---+++++++--");
    fill(&mut states, [7, 8], "++++++------");
    assert_eq!(states.find_reactive_bonds(2), vec![[1, 2], [5, 6], [7, 8]]);
    assert_eq!(states.find_reactive_frames(2), vec![[2, 3], [5, 6]]);
    assert_eq!(states.find_reactive_bonds(0), vec![[1, 2], [3, 4], [5, 6], [7, 8]]);
    assert_eq!(states.find_reactive_frames(0), vec![[0, 1], [2, 3], [5, 6], [9, 10]]);
    assert_eq!(states.find_reactive_bonds(5), vec![[1, 2], [7, 8]]);
    assert_eq!(states.find_reactive_frames(5), vec![[5, 6]]);
    assert_eq!(states.find_reactive_bonds(4), vec![[1, 2], [7, 8]]);
    assert_eq!(states.find_reactive_frames(4), vec![[5, 6]]);
}

#[test]
fn states_from_molecules() {
    let symbols: Vec<String> = vec!["C".to_string(), "O".to_string(), "H".to_string()];
    let mut mols = Vec::new();
    for i in 0..4 {
        let mut mol = Molecule::new(format!("{}", i), symbols.clone());
        if i < 2 {
            mol.add_bond(2, 1);
        }
        if i == 1 {
            mol.add_bond(1, 3);
        }
        mols.push(mol);
    }
    let states = BondingStates::from_molecules(&mols);
    assert_eq!(states.nframes(), 4);
    assert_eq!(states.bonding_pairs(), vec![[1, 2], [1, 3]]);
    assert_eq!(states.bonding_states_code([1, 2]), vec![true, true, false, false]);
    assert_eq!(states.bonding_states_code([1, 3]), vec![false, true, false, false]);
    assert!(!states.get_frame(1, [2, 3]));
    let empty = BondingStates::from_molecules(&[]);
    assert_eq!(empty.nframes(), 0);
    assert_eq!(empty.len(), 0);
}
