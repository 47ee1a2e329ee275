use trajectory_analysis::algo::{
    get_chemical_reactions, remove_inactive_bonding_pairs, remove_noise_bonding_events,
    repair_bonding_states,
};
use trajectory_analysis::molecule::Molecule;
use trajectory_analysis::reaction::{
    get_bonding_changes, get_reaction, get_reaction_composition, get_reaction_mechanism,
    with_fingerprints, Error,
};

fn molecule(symbols: &[&str], bonds: &[[usize; 2]]) -> Molecule {
    let symbols: Vec<String> = symbols.iter().map(|s| s.to_string()).collect();
    let mut mol = Molecule::new(String::new(), symbols);
    for &[u, v] in bonds {
        mol.add_bond(u, v);
    }
    mol
}

/// Two hydrogen atoms, bonded in the frames for which `bonded` says so.
fn hydrogen_frames(nframes: usize, bonded: impl Fn(usize) -> bool) -> Vec<Molecule> {
    (0..nframes)
        .map(|i| if bonded(i) { molecule(&["H", "H"], &[[1, 2]]) } else { molecule(&["H", "H"], &[]) })
        .collect()
}

#[test]
fn molecule_bonds() {
    let mut mol = molecule(&["C", "H", "H", "O"], &[[2, 1], [1, 3]]);
    assert_eq!(mol.natoms(), 4);
    assert_eq!(mol.nbonds(), 2);
    assert!(mol.has_bond(1, 2) && mol.has_bond(2, 1));
    assert!(!mol.has_bond(2, 3));
    assert!(!mol.has_bond(1, 9));
    assert_eq!(mol.bonds(), vec![[1, 2], [1, 3]]);
    mol.add_bond(3, 1);
    assert_eq!(mol.nbonds(), 2);
    mol.add_bond(4, 1);
    assert_eq!(mol.bonds(), vec![[1, 2], [1, 3], [1, 4]]);
    mol.remove_bond(2, 1);
    mol.remove_bond(2, 4);
    assert_eq!(mol.bonds(), vec![[1, 3], [1, 4]]);
    assert_eq!(mol.symbol(4), "O");
    mol.set_title("frame 7".to_string());
    assert_eq!(mol.title(), "frame 7");
    let copy = mol.clone();
    assert_eq!(copy.bonds(), mol.bonds());
    assert_eq!(copy.title(), "frame 7");
    assert!(copy.matching_configuration(&mol));
    assert!(!copy.matching_configuration(&molecule(&["C", "H", "H"], &[])));
    assert!(!copy.matching_configuration(&molecule(&["C", "H", "H", "N"], &[])));
}

#[test]
fn molecule_fragments() {
    // CH4 and a water molecule, as in a graph of two connected components
    let mol = molecule(
        &["C", "H", "H", "H", "H", "O", "H", "H"],
        &[[1, 2], [1, 3], [1, 4], [1, 5], [6, 7], [6, 8]],
    );
    assert_eq!(mol.connected_fragment_atoms(3), vec![1, 2, 3, 4, 5]);
    assert_eq!(mol.connected_fragment_atoms(1), vec![1, 2, 3, 4, 5]);
    assert_eq!(mol.connected_fragment_atoms(8), vec![6, 7, 8]);
    let chain = molecule(&["C"; 6], &[[5, 6], [1, 2], [4, 5], [2, 3]]);
    assert_eq!(chain.connected_fragment_atoms(6), vec![4, 5, 6]);
    assert_eq!(chain.connected_fragment_atoms(2), vec![1, 2, 3]);
    let lone = molecule(&["He"], &[]);
    assert_eq!(lone.connected_fragment_atoms(1), vec![1]);
}

#[test]
fn bonding_changes_between_frames() {
    let before = molecule(&["C", "O", "H", "H"], &[[1, 2], [1, 3]]);
    let after = molecule(&["C", "O", "H", "H"], &[[1, 2], [2, 4], [3, 4]]);
    let (forming, breaking) = get_bonding_changes(&before, &after);
    assert_eq!(forming, vec![[2, 4], [3, 4]]);
    assert_eq!(breaking, vec![[1, 3]]);
    let (forming, breaking) = get_bonding_changes(&before, &before);
    assert!(forming.is_empty() && breaking.is_empty());
}

#[test]
fn reaction_of_a_breaking_bond() {
    let before = molecule(&["H", "H"], &[[1, 2]]);
    let after = molecule(&["H", "H"], &[]);
    let reaction = get_reaction(&before, &after).unwrap();
    assert_eq!(reaction.reactants, vec![vec![1, 2]]);
    assert_eq!(reaction.products, vec![vec![1], vec![2]]);
    assert_eq!(reaction.reactants_composition, "H2");
    assert_eq!(reaction.products_composition, "H");
    assert_eq!(get_reaction_composition(&before, &after).unwrap(), "H2 => H");
    assert_eq!(get_reaction_composition(&after, &before).unwrap(), "H => H2");
}

#[test]
fn reaction_of_a_ring_closure() {
    let chain = molecule(&["C", "C", "C"], &[[1, 2], [2, 3]]);
    let ring = molecule(&["C", "C", "C"], &[[1, 2], [2, 3], [1, 3]]);
    let reaction = get_reaction(&chain, &ring).unwrap();
    assert_eq!(reaction.reactants, vec![vec![1, 2, 3]]);
    assert_eq!(reaction.products, vec![vec![1, 2, 3]]);
    assert_eq!(reaction.reactants_composition, "C3");
    assert_eq!(reaction.products_composition, "C3");
    let mechanism = get_reaction_mechanism(&chain, &ring).unwrap();
    assert_eq!(mechanism.forming, vec![[1, 3]]);
    assert!(mechanism.breaking.is_empty());
}

#[test]
fn reaction_with_several_fragments() {
    // H2 + CH3 + O  =>  CH4 + OH: the atoms are C H H H H H O
    let symbols = ["C", "H", "H", "H", "H", "H", "O"];
    let before = molecule(&symbols, &[[1, 2], [1, 3], [1, 4], [5, 6]]);
    let after = molecule(&symbols, &[[1, 2], [1, 3], [1, 4], [1, 5], [6, 7]]);
    let reaction = get_reaction(&before, &after).unwrap();
    assert_eq!(reaction.reactants, vec![vec![1, 2, 3, 4], vec![5, 6], vec![7]]);
    assert_eq!(reaction.products, vec![vec![1, 2, 3, 4, 5], vec![6, 7]]);
    assert_eq!(reaction.reactants_composition, "CH3 + H2 + O");
    assert_eq!(reaction.products_composition, "CH4 + OH");
    // every atom that reacts is found again among the products
    let mut reacting: Vec<usize> = reaction.reactants.concat();
    let mut resulting: Vec<usize> = reaction.products.concat();
    reacting.sort();
    resulting.sort();
    assert_eq!(reacting, resulting);
    let elements = |atoms: &Vec<usize>| {
        let mut found: Vec<&str> = atoms.iter().map(|&a| symbols[a - 1]).collect();
        found.sort();
        found
    };
    assert_eq!(elements(&reacting), elements(&resulting));
}

#[test]
fn no_reaction_without_changes() {
    let mol = molecule(&["O", "H", "H"], &[[1, 2], [1, 3]]);
    let reaction = get_reaction(&mol, &mol).unwrap();
    assert!(reaction.reactants.is_empty() && reaction.products.is_empty());
    assert_eq!(reaction.reactants_composition, "");
    assert_eq!(get_reaction_composition(&mol, &mol).unwrap(), "");
}

#[test]
fn different_atoms_cannot_react() {
    let one = molecule(&["O", "H", "H"], &[[1, 2]]);
    let other = molecule(&["O", "H"], &[]);
    assert_eq!(get_reaction(&one, &other).unwrap_err(), Error::IncompatibleGraphs);
    assert!(matches!(get_reaction_mechanism(&one, &other), Err(Error::IncompatibleGraphs)));
    let other = molecule(&["O", "H", "D"], &[[1, 2]]);
    assert_eq!(get_reaction_composition(&one, &other).unwrap_err(), Error::IncompatibleGraphs);
    assert_eq!(Error::IncompatibleGraphs.message(), "invalid molecule pair for reaction!");
    assert_eq!(Error::InvalidConfig.message(), "invalid chunk_size/noise_event_life parameters");
    assert_eq!(Error::InconsistentTrajectory.message(), "atoms changed between frames");
    assert_eq!(Error::OutOfTurn.message(), "the scheduler is not in the state for this step");
}

#[test]
fn frames_are_repaired_after_noise_removal() {
    let mut mols = hydrogen_frames(12, |i| i != 5);
    let mut states = remove_inactive_bonding_pairs(&mols);
    assert_eq!(states.len(), 1);
    let repairs = remove_noise_bonding_events(&mut states, 2);
    assert_eq!(repairs, vec![([1, 2], vec![5])]);
    repair_bonding_states(&mut mols, &repairs);
    assert!(mols.iter().all(|mol| mol.has_bond(1, 2)));
    assert_eq!(states.bonding_events_code([1, 2]), "-----------");
}

#[test]
fn repair_toggles_bonds() {
    let mut mols = vec![
        molecule(&["O", "H", "H"], &[[1, 2]]),
        molecule(&["O", "H", "H"], &[[1, 2], [1, 3]]),
        molecule(&["O", "H", "H"], &[]),
    ];
    let repairs = vec![([1, 2], vec![0, 2]), ([3, 1], vec![1])];
    repair_bonding_states(&mut mols, &repairs);
    assert_eq!(mols[0].bonds(), Vec::<[usize; 2]>::new());
    assert_eq!(mols[1].bonds(), vec![[1, 2]]);
    assert_eq!(mols[2].bonds(), vec![[1, 2]]);
}

#[test]
fn reactions_of_one_chunk() {
    let mols = hydrogen_frames(30, |i| i < 15);
    let reactions = get_chemical_reactions(&mols, 5).unwrap();
    assert_eq!(reactions.len(), 1);
    assert_eq!(reactions[0].local_frame, 15);
    assert_eq!(reactions[0].reactants, vec![vec![1, 2]]);
    assert_eq!(reactions[0].products, vec![vec![1], vec![2]]);
    // a frame with other atoms spoils the chunk
    let mut mixed = hydrogen_frames(30, |i| i < 15);
    mixed[20] = molecule(&["H", "He"], &[]);
    assert_eq!(get_chemical_reactions(&mixed, 5).unwrap_err(), Error::InconsistentTrajectory);
    // the shortest chunk for margins of 5 frames
    assert!(get_chemical_reactions(&mols[..11], 5).unwrap().is_empty());
    let reactions = get_chemical_reactions(&mols[9..21], 5).unwrap();
    assert_eq!(reactions.len(), 1);
    assert_eq!(reactions[0].local_frame, 6);
}

#[test]
fn reaction_with_its_fingerprints() {
    let before = molecule(&["H", "H"], &[[1, 2]]);
    let after = molecule(&["H", "H"], &[]);
    let mut found = get_reaction(&before, &after).unwrap();
    found.local_frame = 7;
    found.global_frame = "107".to_string();
    let names = |names: &[&str]| names.iter().map(|s| s.to_string()).collect::<Vec<String>>();
    let reaction = with_fingerprints(found.clone(), names(&["a"]), names(&["b", "c"])).unwrap();
    assert_eq!(reaction.local_frame, 7);
    assert_eq!(reaction.global_frame, "107");
    assert_eq!(reaction.reactants, vec![vec![1, 2]]);
    assert_eq!(reaction.products, vec![vec![1], vec![2]]);
    assert_eq!(reaction.reactants_composition, "H2");
    assert_eq!(reaction.products_composition, "H");
    assert_eq!(reaction.reactants_fingerprints, names(&["a"]));
    assert_eq!(reaction.products_fingerprints, names(&["b", "c"]));
    // one fingerprint for each fragment, no fewer and no more
    let short = with_fingerprints(found.clone(), names(&["a"]), names(&["b"]));
    assert_eq!(short.unwrap_err(), Error::FingerprintCount);
    let long = with_fingerprints(found.clone(), names(&["a", "x"]), names(&["b", "c"]));
    assert_eq!(long.unwrap_err(), Error::FingerprintCount);
    let none = with_fingerprints(found, vec![], vec![]);
    assert_eq!(none.unwrap_err(), Error::FingerprintCount);
    assert_eq!(Error::FingerprintCount.message(), "not one fingerprint for each fragment");
}
