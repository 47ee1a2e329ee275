use trajectory_analysis::bonding_events::{
    find_noise_codes, remove_noise_bonding_events, BondingEvents,
};

#[test]
fn test_find_noise_events() {
    let s = "NNNBNFNNNNBNNFNNNN";
    let pairs = find_noise_codes(s, 2);
    assert_eq!(pairs.len(), 2);
    let (u, v) = pairs[0];
    assert_eq!(&s[u..v], "BNF");
    let (u, v) = pairs[1];
    assert_eq!(&s[u..v], "BNNF");
    let pairs = find_noise_codes(s, 1);
    assert_eq!(pairs.len(), 1);
    let pairs = find_noise_codes(s, 0);
    assert_eq!(pairs.len(), 0);
}

#[test]
fn noise_patterns_of_either_kind() {
    // read from the left: the formation is used up by the first pattern
    assert_eq!(find_noise_codes("BFB", 1), vec![(0, 2)]);
    assert_eq!(find_noise_codes("FNBNNBF", 1), vec![(0, 3), (5, 7)]);
    assert_eq!(find_noise_codes("FNNB", 1), vec![]);
    assert_eq!(find_noise_codes("B-F", 1), vec![]);
}

#[test]
fn numbered_noise_events_are_cleared() {
    let mut events = vec![0, 0, 0, -1, 0, 1, 0, 0, 0, 0, 1, 0, 0, 0, 0, 0];
    let (has_reaction, frames) = remove_noise_bonding_events(&mut events, 2);
    assert_eq!(events, vec![0, 0, 0, 0, 0, 0, 0, 0, 0, 0, 1, 0, 0, 0, 0, 0]);
    assert!(has_reaction);
    assert_eq!(frames, vec![(3, -1), (5, 1)]);

    let mut events = vec![0, 0, 0, 1, -1, 0, 0, 0];
    let (has_reaction, frames) = remove_noise_bonding_events(&mut events, 3);
    assert_eq!(events, vec![0; 8]);
    assert!(!has_reaction);
    assert_eq!(frames, vec![(3, 1), (4, -1)]);

    // an event in the margin is no reaction
    let mut events = vec![1, 0, 0, 0, 0, 0];
    let (has_reaction, frames) = remove_noise_bonding_events(&mut events, 2);
    assert!(!has_reaction);
    assert_eq!(frames, vec![]);
    assert_eq!(events, vec![1, 0, 0, 0, 0, 0]);
}

#[test]
fn bonding_events_by_pair() {
    let mut events = BondingEvents::default();
    assert_eq!(events.len(), 0);
    assert_eq!(events.get(1, 2), None);
    events.insert(5, 2, vec![0, 1, -1]);
    events.insert(1, 9, vec![1]);
    assert_eq!(events.len(), 2);
    assert_eq!(events.get(2, 5), Some(&vec![0, 1, -1]));
    assert_eq!(events.get(5, 2), Some(&vec![0, 1, -1]));
    assert_eq!(events.get(9, 1), Some(&vec![1]));
    assert_eq!(events.get(2, 9), None);
    events.insert(2, 5, vec![-1]);
    assert_eq!(events.len(), 2);
    assert_eq!(events.get(5, 2), Some(&vec![-1]));
}
