use chemtool::elem::{group_elems, group_elems_checked, molecule_to_string, name_less, sorted_names, PerElem};
use chemtool::parser::Parser;

fn dummy_elem(name: &str, coef: u32) -> PerElem {
    PerElem { name: name.to_string(), coef, pos: 0, len: 1 }
}

#[test]
fn group() {
    let result = group_elems(vec![dummy_elem("C", 1), dummy_elem("H", 1), dummy_elem("C", 1)]);
    let expected = vec![dummy_elem("C", 2), dummy_elem("H", 1)];
    assert_eq!(result, expected);
}

#[test]
fn molecule_display() {
    let molecule = vec![dummy_elem("C", 2), dummy_elem("H", 3)];
    let result = molecule_to_string(&molecule);
    let expected = "C2H3";
    assert_eq!(result, expected);
}

#[test]
fn molecule_display_coefs() {
    let molecule = vec![dummy_elem("C", 1), dummy_elem("H", 3)];
    let result = molecule_to_string(&molecule);
    let expected = "CH3";
    assert_eq!(result, expected);
}

#[test]
fn grouping_sorts_by_name_and_keeps_first_position() {
    let molecule = vec![
        PerElem { name: "O".to_string(), coef: 1, pos: 0, len: 1 },
        PerElem { name: "He".to_string(), coef: 2, pos: 1, len: 2 },
        PerElem { name: "H".to_string(), coef: 3, pos: 4, len: 1 },
        PerElem { name: "O".to_string(), coef: 4, pos: 6, len: 1 },
        PerElem { name: "He".to_string(), coef: 5, pos: 8, len: 2 },
    ];
    let expected = vec![
        PerElem { name: "H".to_string(), coef: 3, pos: 4, len: 1 },
        PerElem { name: "He".to_string(), coef: 7, pos: 1, len: 2 },
        PerElem { name: "O".to_string(), coef: 5, pos: 0, len: 1 },
    ];
    assert_eq!(group_elems(molecule), expected);
}

#[test]
fn grouping_is_idempotent() {
    let molecule = Parser::new("CH3CH2(OH)CH2Cl3Ca").parse_molecule().unwrap();
    let once = group_elems(molecule);
    let copy: Vec<PerElem> = once.iter().cloned().collect();
    let twice = group_elems(copy);
    assert_eq!(once, twice);
    assert_eq!(molecule_to_string(&once), "C3CaCl3H8O");
}

#[test]
fn grouping_keeps_the_number_of_atoms() {
    let molecule = Parser::new("(CH3)2CH(CH3)3").parse_molecule().unwrap();
    let before: u64 = molecule.iter().map(|e| e.coef as u64).sum();
    let grouped = group_elems(molecule);
    let after: u64 = grouped.iter().map(|e| e.coef as u64).sum();
    assert_eq!(before, 22);
    assert_eq!(after, 22);
}

#[test]
fn grouping_of_nothing() {
    assert_eq!(group_elems(Vec::new()), Vec::new());
}

#[test]
fn checked_grouping_gives_up_beyond_32_bits() {
    let fits = vec![dummy_elem("C", 4294967294), dummy_elem("H", 7), dummy_elem("C", 1)];
    assert_eq!(
        group_elems_checked(fits),
        Some(vec![dummy_elem("C", 4294967295), dummy_elem("H", 7)])
    );
    let too_many = vec![dummy_elem("C", 4294967295), dummy_elem("H", 7), dummy_elem("C", 1)];
    assert_eq!(group_elems_checked(too_many), None);
}

#[test]
fn round_trip_of_a_formula() {
    let molecule = Parser::new("CH3CH3").parse_molecule().unwrap();
    let grouped = group_elems(molecule);
    assert_eq!(grouped, vec![
        PerElem { name: "C".to_string(), coef: 2, pos: 0, len: 1 },
        PerElem { name: "H".to_string(), coef: 6, pos: 1, len: 1 },
    ]);
    let text = molecule_to_string(&grouped);
    assert_eq!(text, "C2H6");
    let mut parser = Parser::new(&text);
    let again = group_elems(parser.parse_molecule().unwrap());
    assert!(parser.is_done());
    assert_eq!(molecule_to_string(&again), "C2H6");
    let names: Vec<(String, u32)> = again.into_iter().map(|e| (e.name, e.coef)).collect();
    assert_eq!(names, vec![("C".to_string(), 2), ("H".to_string(), 6)]);
}

#[test]
fn parenthesized_group_equals_flat_formula() {
    let molecule = Parser::new("(CH3)2").parse_molecule().unwrap();
    let grouped = group_elems(molecule);
    assert_eq!(molecule_to_string(&grouped), "C2H6");
}

#[test]
fn display_writes_large_and_small_coefficients() {
    let molecule = vec![dummy_elem("C", 4294967295), dummy_elem("H", 0), dummy_elem("O", 10)];
    assert_eq!(molecule_to_string(&molecule), "C4294967295HO10");
    assert_eq!(molecule_to_string(&Vec::new()), "");
}

#[test]
fn names_are_ordered_as_strings_are() {
    let names = ["", "C", "Ca", "Cl", "H", "He", "O", "\u{c9}", "\u{c9}a", "a"];
    for a in names.iter() {
        for b in names.iter() {
            assert_eq!(name_less(a, b), a < b, "{:?} {:?}", a, b);
        }
    }
}

#[test]
fn sorted_names_lists_each_once() {
    let molecule = Parser::new("OHeHOHeC").parse_molecule().unwrap();
    assert_eq!(sorted_names(&molecule), vec!["C", "H", "He", "O"]);
}
