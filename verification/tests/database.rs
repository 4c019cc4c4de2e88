use chemtool::database::{ElemData, ElemDatabase};
use chemtool::elem::PerElem;
use chemtool::error::CTErrorKind;

fn record(short_name: &str, long_name: &str, mass: &str, atomic_num: u16) -> ElemData {
    ElemData {
        short_name: short_name.to_string(),
        long_name: long_name.to_string(),
        mass: mass.to_string(),
        atomic_num,
    }
}

fn named(name: &str) -> PerElem {
    PerElem { name: name.to_string(), coef: 1, pos: 0, len: 2 }
}

#[test]
fn database_multiple_elems() {
    let db = ElemDatabase::open("A;1;Abba;2\nB;3;Beta;4\n");
    let raw_result = db.get_data(&vec![
        PerElem { name: "B".to_string(), coef: 1, pos: 0, len: 1 },
        PerElem { name: "A".to_string(), coef: 1, pos: 1, len: 1 },
    ]);
    let expected = vec![record("B", "Beta", "3", 4), record("A", "Abba", "1", 2)];
    assert_eq!(Ok(expected), raw_result);
    let masses: Vec<f64> =
        raw_result.unwrap().iter().map(|data| data.mass.parse::<f64>().unwrap()).collect();
    assert_eq!(masses, vec![3.0, 1.0]);
}

#[test]
fn find_elem() {
    let db = ElemDatabase::open("A;0;Abba;0\nB;123.456789;Beta;12\nC;0;Coop;0\n");
    let raw_result =
        db.get_single_data(&PerElem { name: "B".to_string(), coef: 1, pos: 0, len: 2 });
    let expected = record("B", "Beta", "123.456789", 12);
    assert_eq!(Ok(expected), raw_result);
    assert_eq!(raw_result.unwrap().mass.parse::<f64>(), Ok(123.456789));
}

#[test]
fn database_missing_elem() {
    let db = ElemDatabase::open("A;123.456789;Abba;12\n");
    let result = db.get_single_data(&PerElem { name: "B".to_string(), coef: 1, pos: 0, len: 2 });
    assert!(result.is_err());
}

#[test]
fn missing_field() {
    let db = ElemDatabase::open("A;");
    let result = db.get_single_data(&PerElem { name: "A".to_string(), coef: 1, pos: 0, len: 2 });
    assert!(result.is_err());
}

#[test]
fn field_corrupted() {
    let db = ElemDatabase::open("A;not a number;Abba;12\n");
    let result = db.get_single_data(&PerElem { name: "A".to_string(), coef: 1, pos: 0, len: 2 });
    assert!(result.is_err());
}

#[test]
fn absent_element_is_a_database_error() {
    let db = ElemDatabase::open("A;123.456789;Abba;12\n");
    let err = db.get_single_data(&named("Bx")).unwrap_err();
    assert_eq!(err.kind, CTErrorKind::DatabaseError);
    assert_eq!(err.desc, "Could not find element: Bx");
    assert_eq!(err.pos, None);
}

#[test]
fn line_without_break_is_no_line() {
    let db = ElemDatabase::open("A;1;Abba;2\nB;3;Beta;4");
    assert!(db.get_single_data(&named("A")).is_ok());
    let err = db.get_single_data(&named("B")).unwrap_err();
    assert_eq!(err.desc, "Could not find element: B");
    assert!(ElemDatabase::open("").get_single_data(&named("A")).is_err());
}

#[test]
fn too_few_fields() {
    let db = ElemDatabase::open("A;1;Abba\nB\n");
    let err = db.get_single_data(&named("A")).unwrap_err();
    assert_eq!(err.kind, CTErrorKind::DatabaseError);
    assert_eq!(err.desc, "Missing field in database");
    let err = db.get_single_data(&named("B")).unwrap_err();
    assert_eq!(err.desc, "Missing field in database");
}

#[test]
fn corrupted_fields() {
    let db = ElemDatabase::open("A;one;Abba;2\nB;3;Beta;four\nC;3;Coop;65536\nD;3;Dodo;-1\n");
    for name in ["A", "B", "C", "D"] {
        let err = db.get_single_data(&named(name)).unwrap_err();
        assert_eq!(err.kind, CTErrorKind::DatabaseError);
        assert_eq!(err.desc, "Field in database corrupted");
    }
}

#[test]
fn key_is_the_whole_first_field() {
    let db = ElemDatabase::open("Be;9.012182;Beryllium;4\nB;10.811;Boron;5\n");
    assert_eq!(db.get_single_data(&named("B")), Ok(record("B", "Boron", "10.811", 5)));
    assert_eq!(db.get_single_data(&named("Be")), Ok(record("Be", "Beryllium", "9.012182", 4)));
    assert!(db.get_single_data(&named("")).is_err());
}

#[test]
fn first_line_with_the_key_counts() {
    let db = ElemDatabase::open("A;1;Abba;2\nA;3;Again;4\n");
    assert_eq!(db.get_single_data(&named("A")), Ok(record("A", "Abba", "1", 2)));
}

#[test]
fn whitespace_around_a_line_is_dropped() {
    let db = ElemDatabase::open("A;1.5;Abba;+2 \r\nB ;1;Beta;2\n \tC;1;Coop;2\n");
    assert_eq!(db.get_single_data(&named("A")), Ok(record("A", "Abba", "1.5", 2)));
    // The key is read from the line as it stands.
    assert!(db.get_single_data(&named("B")).is_err());
    assert!(db.get_single_data(&named("C")).is_err());
    assert_eq!(db.get_single_data(&named("B ")), Ok(record("B ", "Beta", "1", 2)));
}

#[test]
fn more_than_four_fields() {
    let db = ElemDatabase::open("A;1;Abba;65535;more;;\n");
    assert_eq!(db.get_single_data(&named("A")), Ok(record("A", "Abba", "1", 65535)));
}

#[test]
fn first_error_ends_the_lookup() {
    let db = ElemDatabase::open("A;1;Abba;2\nB;x;Beta;4\n");
    let err = db.get_data(&vec![named("A"), named("B"), named("C")]).unwrap_err();
    assert_eq!(err.desc, "Field in database corrupted");
    let err = db.get_data(&vec![named("A"), named("C"), named("B")]).unwrap_err();
    assert_eq!(err.desc, "Could not find element: C");
    assert_eq!(db.get_data(&Vec::new()), Ok(Vec::new()));
}

#[test]
fn mass_is_accepted_as_floating_point_numbers_are() {
    let texts = [
        "0", "1", "12.011", "1.", ".5", "+1.5", "-0.25", "1e3", "1E3", "1e+3", "1.5e-3", ".5e1",
        "1.e1", "inf", "-inf", "+Infinity", "INFINITY", "nan", "NaN", "-nan", "", ".", "+", "-",
        "e5", "1e", "1e+", "1e1.5", "1.2.3", "1 ", " 1", "1_0", "0x10", "in", "infinit", "nanx",
        "++1", "1f", "١", "1.5E", "..", ".e1", "+.e1", "1e-", "--1", "infinityy", "i",
    ];
    for text in texts.iter() {
        let db = ElemDatabase::open(&format!("A;{};Abba;1\n", text));
        let accepted = db.get_single_data(&named("A")).is_ok();
        assert_eq!(accepted, text.parse::<f64>().is_ok(), "{:?}", text);
    }
}

#[test]
fn methane_weighs_what_its_atoms_weigh() {
    let db = ElemDatabase::open("H;1.008;Hydrogen;1\nC;12.011;Carbon;6\n");
    let molecule = vec![
        PerElem { name: "C".to_string(), coef: 1, pos: 0, len: 1 },
        PerElem { name: "H".to_string(), coef: 4, pos: 1, len: 1 },
    ];
    let data = db.get_data(&molecule).unwrap();
    let total: f64 = data
        .iter()
        .zip(molecule.iter())
        .map(|(data, elem)| data.mass.parse::<f64>().unwrap() * elem.coef as f64)
        .sum();
    assert!((total - 16.043).abs() < 1e-9);
}
