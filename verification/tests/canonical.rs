use chemtool::canonical::reads_back;
use chemtool::command::mass_cmd;
use chemtool::elem::{molecule_to_string, PerElem};
use chemtool::parser::Parser;
use chemtool::text::{holds, CharClass};

fn atoms(molecule: &[PerElem]) -> Vec<(String, u32)> {
    molecule.iter().map(|e| (e.name.clone(), e.coef)).collect()
}

#[test]
fn written_formulas_are_read_back() {
    let formulas = [
        "C", "CH4", "H2O", "CH3CH3", "(CH3)2", "C6H12O6", "NaCl", "Ca(OH)2", "Al2(SO4)3",
        "((CH3)2CH)2O", "He4294967295", "Uuo", "OHC", "\u{c9}\u{e9}2H",
    ];
    for formula in formulas.iter() {
        let grouped = mass_cmd(&[formula.to_string()]).unwrap();
        let text = molecule_to_string(&grouped);
        let again = mass_cmd(&[text.clone()]).unwrap();
        assert_eq!(atoms(&again), atoms(&grouped), "{}", formula);
        assert_eq!(molecule_to_string(&again), text, "{}", formula);
    }
}

#[test]
fn canonical_formulas_are_written_as_they_are() {
    for formula in ["C2H6", "CHO", "H2O", "C6H12O6", "ClNa", "CaH2O2", "Al2O12S3"] {
        let grouped = mass_cmd(&[formula.to_string()]).unwrap();
        assert_eq!(molecule_to_string(&grouped), formula);
    }
}

#[test]
fn coefficient_zero_is_not_read_back() {
    let grouped = mass_cmd(&["C0H2".to_string()]).unwrap();
    assert_eq!(atoms(&grouped), vec![("C".to_string(), 0), ("H".to_string(), 2)]);
    let text = molecule_to_string(&grouped);
    assert_eq!(text, "CH2");
    let again = mass_cmd(&[text]).unwrap();
    assert_eq!(atoms(&again), vec![("C".to_string(), 1), ("H".to_string(), 2)]);
}

#[test]
fn digits_are_numeric_and_letters_are_apart() {
    for digit in '0'..='9' {
        assert!(holds(CharClass::Numeric, digit));
        assert!(!holds(CharClass::Lowercase, digit));
    }
    for letter in ('A'..='Z').chain(['\u{c9}', '\u{394}'].into_iter()) {
        assert!(letter.is_uppercase() && letter.is_alphabetic());
        assert!(!holds(CharClass::Lowercase, letter));
        assert!(!holds(CharClass::Numeric, letter));
    }
}

fn molecule(list: &[(&str, u32)]) -> Vec<PerElem> {
    list.iter().map(|(name, coef)| PerElem { name: name.to_string(), coef: *coef, pos: 0, len: 1 }).collect()
}

#[test]
fn molecules_that_are_read_back() {
    let molecules = [
        molecule(&[("C", 1)]),
        molecule(&[("C", 2), ("H", 6)]),
        molecule(&[("H", 2), ("O", 1), ("H", 4294967295)]),
        molecule(&[("Uuo", 10), ("\u{c9}\u{e9}", 3), ("Na", 1)]),
    ];
    for g in molecules.iter() {
        assert!(reads_back(g));
        let text = molecule_to_string(g);
        let mut parser = Parser::new(&text);
        let read = parser.parse_molecule().unwrap();
        assert_eq!(atoms(&read), atoms(g), "{}", text);
        assert!(parser.is_done());
    }
}

#[test]
fn molecules_that_are_not_read_back() {
    assert!(!reads_back(&Vec::new()));
    assert!(!reads_back(&molecule(&[("C", 0)])));
    assert!(!reads_back(&molecule(&[("C", 1), ("H", 0)])));
    assert!(!reads_back(&molecule(&[("c", 1)])));
    assert!(!reads_back(&molecule(&[("", 1)])));
    assert!(!reads_back(&molecule(&[("CH", 1)])));
    assert!(!reads_back(&molecule(&[("C2", 1)])));
    assert!(!reads_back(&molecule(&[("(", 1)])));
    assert!(!reads_back(&molecule(&[("C", 1), ("H e", 2)])));
}
