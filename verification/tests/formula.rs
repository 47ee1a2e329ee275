use trajectory_analysis::formula::{get_composition, get_reduced_formula};
use trajectory_analysis::text::{decimal, item_less, same_text, tally, text_less};

#[test]
fn test_formula() {
    let symbols = vec!["C", "H", "C", "H", "H", "H"];
    let formula = get_reduced_formula(&symbols);
    assert!(formula == "C2H4".to_string());
    let symbols = vec!["C", "H", "C", "H", "H", "O", "H", "O"];
    let formula = get_reduced_formula(&symbols);
    println!("{:?}", formula);
    assert!(formula == "C2O2H4".to_string());
}

#[test]
fn formulas_put_carbon_first_and_hydrogen_last() {
    assert_eq!(get_reduced_formula(&[]), "");
    assert_eq!(get_reduced_formula(&["H"]), "H");
    assert_eq!(get_reduced_formula(&["H", "H"]), "H2");
    assert_eq!(get_reduced_formula(&["H", "O", "H"]), "OH2");
    assert_eq!(get_reduced_formula(&["O", "Al", "O", "Ni", "O", "Al"]), "Al2NiO3");
    assert_eq!(get_reduced_formula(&["H", "Ca", "C", "Cl", "B"]), "CBCaClH");
    let many = vec!["C"; 12];
    assert_eq!(get_reduced_formula(&many), "C12");
    let more = vec!["Si"; 104];
    assert_eq!(get_reduced_formula(&more), "Si104");
}

#[test]
fn compositions_list_each_formula_once() {
    assert_eq!(get_composition(&[]), "");
    assert_eq!(get_composition(&["H2"]), "H2");
    assert_eq!(get_composition(&["H2", "CH4"]), "CH4 + H2");
    assert_eq!(get_composition(&["H", "H"]), "H");
    assert_eq!(get_composition(&["OH2", "C2H4", "OH2", "Al"]), "Al + C2H4 + OH2");
}

#[test]
fn decimal_notation() {
    assert_eq!(decimal(0), "0");
    assert_eq!(decimal(7), "7");
    assert_eq!(decimal(10), "10");
    assert_eq!(decimal(205), "205");
    assert_eq!(decimal(1234567890), "1234567890");
    assert_eq!(decimal(usize::MAX), format!("{}", usize::MAX));
}

#[test]
fn order_of_texts() {
    assert!(text_less("", "A"));
    assert!(!text_less("A", ""));
    assert!(!text_less("A", "A"));
    assert!(text_less("Al", "Au"));
    assert!(text_less("C", "Ca"));
    assert!(text_less("B", "C"));
    assert!(!text_less("Ca", "C"));
    assert!(same_text("Ni", "Ni"));
    assert!(!same_text("Ni", "N"));
    // ranked: carbon before everything, hydrogen after everything
    assert!(item_less("C", "Al", true));
    assert!(item_less("Zr", "H", true));
    assert!(!item_less("H", "He", true));
    assert!(item_less("H", "He", false));
    assert!(!item_less("C", "Al", false));
}

#[test]
fn tally_counts_each_text() {
    let items = vec!["O", "H", "O", "C", "O"];
    let (firsts, counts) = tally(&items, true);
    let found: Vec<&str> = firsts.iter().map(|&i| items[i]).collect();
    assert_eq!(found, vec!["C", "O", "H"]);
    assert_eq!(counts, vec![1, 3, 1]);
    let (firsts, counts) = tally(&items, false);
    let found: Vec<&str> = firsts.iter().map(|&i| items[i]).collect();
    assert_eq!(found, vec!["C", "H", "O"]);
    assert_eq!(counts, vec![1, 1, 3]);
}
