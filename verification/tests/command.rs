use chemtool::command::{balance_cmd, mass_cmd};
use chemtool::elem::PerElem;
use chemtool::error::{CTError, CTErrorKind};

fn args(list: &[&str]) -> Vec<String> {
    list.iter().map(|s| s.to_string()).collect()
}

fn usage(desc: &str) -> CTError {
    CTError { kind: CTErrorKind::UsageError, desc: desc.to_string(), pos: None }
}

#[test]
fn mass_wants_one_formula() {
    assert_eq!(mass_cmd(&args(&[])), Err(usage("Missing formula.")));
    assert_eq!(mass_cmd(&args(&["C", "H"])), Err(usage("Too many arguments.")));
}

#[test]
fn mass_groups_the_formula() {
    let expected = vec![
        PerElem { name: "C".to_string(), coef: 2, pos: 0, len: 1 },
        PerElem { name: "H".to_string(), coef: 6, pos: 1, len: 1 },
    ];
    assert_eq!(mass_cmd(&args(&["CH3CH3"])), Ok(expected));
}

#[test]
fn mass_takes_whitespace_at_the_end_only() {
    assert!(mass_cmd(&args(&["CH4  "])).is_ok());
    let err = mass_cmd(&args(&["CH4 O"])).unwrap_err();
    assert_eq!(err.kind, CTErrorKind::InputError);
    assert_eq!(err.desc, "A molecule must not contain whitespace");
    assert_eq!(err.pos, None);
    let err = mass_cmd(&args(&[" CH4"])).unwrap_err();
    assert_eq!(err.desc, "Missing uppercase letter at the beginning of the element");
    assert_eq!(err.pos, Some((0, 1)));
}

#[test]
fn mass_passes_on_what_the_parser_finds() {
    let err = mass_cmd(&args(&["CH4+O"])).unwrap_err();
    assert_eq!(err.desc, "A molecule must not contain whitespace");
    let err = mass_cmd(&args(&["C%"])).unwrap_err();
    assert_eq!(err.desc, "Unexpected character");
    assert_eq!(err.pos, Some((1, 1)));
}

#[test]
fn mass_counts_in_32_bits() {
    let err = mass_cmd(&args(&["C4294967295C"])).unwrap_err();
    assert_eq!(err.kind, CTErrorKind::InputError);
    assert_eq!(err.desc, "A molecule must not hold more than 4294967295 atoms of an element");
    assert_eq!(err.pos, None);
    assert!(mass_cmd(&args(&["C4294967294C"])).is_ok());
}

#[test]
fn balance_wants_one_reaction() {
    assert_eq!(balance_cmd(&args(&[])), Err(usage("Missing reaction.")));
    assert_eq!(balance_cmd(&args(&["C", "H"])), Err(usage("Too many arguments.")));
}

#[test]
fn balance_writes_the_reaction() {
    assert_eq!(
        balance_cmd(&args(&["C3H8 + O2 -> CO2 + H2O"])),
        Ok("1 C3H8 + 5 O2 -> 3 CO2 + 4 H2O".to_string())
    );
    assert_eq!(balance_cmd(&args(&["H2+O2->H2O"])), Ok("2 H2 + 1 O2 -> 2 H2O".to_string()));
    assert_eq!(
        balance_cmd(&args(&["(CH3)2 + Cl2  ->  C2H5Cl + HCl  "])),
        Ok("1 C2H6 + 1 Cl2 -> 1 C2H5Cl + 1 HCl".to_string())
    );
}

#[test]
fn balance_passes_on_errors() {
    let err = balance_cmd(&args(&["C + H"])).unwrap_err();
    assert_eq!(err.desc, "Missing arrow (->) in chemical reaction");
    let err = balance_cmd(&args(&["C + H -> C"])).unwrap_err();
    assert_eq!(err.kind, CTErrorKind::InputError);
    assert_eq!(err.pos, Some((4, 1)));
    let err = balance_cmd(&args(&["H2O -> H2O"])).unwrap_err();
    assert_eq!(err.kind, CTErrorKind::InputError);
    assert_eq!(err.desc, "Could not balance reaction");
    assert_eq!(err.pos, None);
}
