use chemtool::elem::PerElem;
use chemtool::error::CTErrorKind;
use chemtool::parser::Parser;

fn elem(name: &str, coef: u32, pos: usize, len: usize) -> PerElem {
    PerElem { name: name.to_string(), coef, pos, len }
}

#[test]
fn elems() {
    let mut parser = Parser::new("CHeH");
    let raw_result = parser.parse_molecule();
    let expected = vec![
        PerElem { name: "C".to_string(), coef: 1, pos: 0, len: 1 },
        PerElem { name: "He".to_string(), coef: 1, pos: 1, len: 2 },
        PerElem { name: "H".to_string(), coef: 1, pos: 3, len: 1 },
    ];
    match raw_result {
        Ok(result) => assert_eq!(result, expected),
        Err(e) => panic!("{:?}", e),
    }
}

#[test]
fn coefs() {
    let mut parser = Parser::new("C23");
    let raw_result = parser.parse_molecule();
    let expected = vec![PerElem { name: "C".to_string(), coef: 23, pos: 0, len: 1 }];
    match raw_result {
        Ok(result) => assert_eq!(result, expected),
        Err(e) => panic!("{:?}", e),
    }
}

#[test]
fn parens() {
    let mut parser = Parser::new("(CH3)2");
    let raw_result = parser.parse_molecule();
    let expected = vec![
        PerElem { name: "C".to_string(), coef: 2, pos: 1, len: 1 },
        PerElem { name: "H".to_string(), coef: 6, pos: 2, len: 1 },
    ];
    match raw_result {
        Ok(result) => assert_eq!(result, expected),
        Err(e) => panic!("{:?}", e),
    }
}

#[test]
fn parser_multiple_elems() {
    let mut parser = Parser::new("C + H");
    let raw_result = parser.parse_side();
    let expected = vec![
        vec![PerElem { name: "C".to_string(), coef: 1, pos: 0, len: 1 }],
        vec![PerElem { name: "H".to_string(), coef: 1, pos: 4, len: 1 }],
    ];
    match raw_result {
        Ok(result) => assert_eq!(result, expected),
        Err(e) => panic!("{:?}", e),
    }
}

#[test]
fn reaction() {
    let mut parser = Parser::new("C -> H");
    let raw_result = parser.parse_reaction();
    let expected = (
        vec![vec![PerElem { name: "C".to_string(), coef: 1, pos: 0, len: 1 }]],
        vec![vec![PerElem { name: "H".to_string(), coef: 1, pos: 5, len: 1 }]],
    );
    match raw_result {
        Ok(result) => assert_eq!(result, expected),
        Err(e) => panic!("{:?}", e),
    }
}

#[test]
fn empty() {
    let mut parser = Parser::new("");
    assert!(parser.parse_molecule().is_err());
    assert!(parser.parse_reaction().is_err());
}

#[test]
fn no_uppercase() {
    let mut parser = Parser::new("c");
    assert!(parser.parse_molecule().is_err());
    assert!(parser.parse_reaction().is_err());
}

#[test]
fn missing_close_paren() {
    let mut parser = Parser::new("(C");
    assert!(parser.parse_molecule().is_err());
    assert!(parser.parse_reaction().is_err());
}

#[test]
fn missing_open_paren() {
    let mut parser = Parser::new("C)");
    assert!(parser.parse_molecule().is_err());
    assert!(parser.parse_reaction().is_err());
}

#[test]
fn invald_char() {
    let mut parser = Parser::new("%");
    assert!(parser.parse_molecule().is_err());
    assert!(parser.parse_reaction().is_err());
}

#[test]
fn is_done() {
    let parser = Parser::new("    ");
    assert!(parser.is_done());
}

#[test]
fn not_done() {
    let parser = Parser::new("    C");
    assert!(!parser.is_done());
}

#[test]
fn invald_num() {
    let mut parser = Parser::new("C999999999999999999999");
    assert!(parser.parse_molecule().is_err());
    assert!(parser.parse_reaction().is_err());
}

#[test]
fn dangling_plus() {
    let mut parser = Parser::new("C + -> H");
    assert!(parser.parse_reaction().is_err());
}

#[test]
fn empty_input_names_the_missing_element() {
    let err = Parser::new("").parse_molecule().unwrap_err();
    assert_eq!(err.kind, CTErrorKind::InputError);
    assert_eq!(err.desc, "Found no periodic element");
    assert_eq!(err.pos, Some((0, 1)));
}

#[test]
fn lowercase_start_points_at_the_letter() {
    let err = Parser::new("Hc(o)").parse_molecule().unwrap_err();
    assert_eq!(err.kind, CTErrorKind::InputError);
    assert_eq!(err.desc, "Missing uppercase letter at the beginning of the element");
    assert_eq!(err.pos, Some((3, 1)));
}

#[test]
fn lowercase_start_of_two_bytes_has_length_two() {
    let err = Parser::new("\u{e9}").parse_molecule().unwrap_err();
    assert_eq!(err.desc, "Missing uppercase letter at the beginning of the element");
    assert_eq!(err.pos, Some((0, 2)));
}

#[test]
fn unmatched_opening_parenthesis_at_end() {
    let err = Parser::new("(C").parse_molecule().unwrap_err();
    assert_eq!(err.kind, CTErrorKind::InputError);
    assert_eq!(err.desc, "Missing closing parentheses");
    assert_eq!(err.pos, Some((1, 1)));
}

#[test]
fn unmatched_opening_parenthesis_before_plus() {
    let err = Parser::new("(C + H").parse_molecule().unwrap_err();
    assert_eq!(err.desc, "Missing closing parentheses");
    assert_eq!(err.pos, Some((2, 1)));
}

#[test]
fn unmatched_closing_parenthesis() {
    let err = Parser::new("C)").parse_molecule().unwrap_err();
    assert_eq!(err.kind, CTErrorKind::InputError);
    assert_eq!(err.desc, "Missing opening parentheses");
    assert_eq!(err.pos, Some((1, 1)));
}

#[test]
fn illegal_character_after_element() {
    let err = Parser::new("C%").parse_molecule().unwrap_err();
    assert_eq!(err.kind, CTErrorKind::InputError);
    assert_eq!(err.desc, "Unexpected character");
    assert_eq!(err.pos, Some((1, 1)));
}

#[test]
fn coefficient_beyond_32_bits() {
    let err = Parser::new("C4294967296").parse_molecule().unwrap_err();
    assert_eq!(err.kind, CTErrorKind::InputError);
    assert_eq!(err.desc, "Could not parse coefficient");
    assert_eq!(err.pos, Some((1, 10)));
}

#[test]
fn largest_coefficient() {
    let result = Parser::new("C4294967295").parse_molecule().unwrap();
    assert_eq!(result, vec![elem("C", 4294967295, 0, 1)]);
}

#[test]
fn coefficient_of_other_digits_is_refused() {
    // U+0663 is a digit, but no decimal digit of ASCII.
    let err = Parser::new("C\u{663}").parse_molecule().unwrap_err();
    assert_eq!(err.desc, "Could not parse coefficient");
    assert_eq!(err.pos, Some((1, 2)));
}

#[test]
fn product_of_coefficients_beyond_32_bits() {
    let err = Parser::new("(C65536)65536").parse_molecule().unwrap_err();
    assert_eq!(err.kind, CTErrorKind::InputError);
    assert_eq!(err.desc, "Could not parse coefficient");
    assert_eq!(err.pos, Some((8, 5)));
}

#[test]
fn nested_groups_multiply() {
    let result = Parser::new("((CH3)2O)3Na").parse_molecule().unwrap();
    let expected = vec![
        elem("C", 6, 2, 1),
        elem("H", 18, 3, 1),
        elem("O", 3, 7, 1),
        elem("Na", 1, 10, 2),
    ];
    assert_eq!(result, expected);
}

#[test]
fn coefficient_zero_is_kept() {
    let result = Parser::new("C0").parse_molecule().unwrap();
    assert_eq!(result, vec![elem("C", 0, 0, 1)]);
}

#[test]
fn names_beyond_ascii_count_bytes() {
    // U+00C9 is an uppercase letter of two bytes, U+00E9 a lowercase one.
    let result = Parser::new("\u{c9}\u{e9}2H").parse_molecule().unwrap();
    let expected = vec![elem("\u{c9}\u{e9}", 2, 0, 4), elem("H", 1, 5, 1)];
    assert_eq!(result, expected);
}

#[test]
fn molecule_stops_at_whitespace() {
    let mut parser = Parser::new("CH4 O");
    let result = parser.parse_molecule().unwrap();
    assert_eq!(result, vec![elem("C", 1, 0, 1), elem("H", 4, 1, 1)]);
    assert!(!parser.is_done());
}

#[test]
fn parser_goes_on_where_it_stopped() {
    let mut parser = Parser::new("C O");
    assert_eq!(parser.parse_molecule().unwrap(), vec![elem("C", 1, 0, 1)]);
    assert!(parser.parse_molecule().is_err());
    let mut parser = Parser::new("C+O");
    assert_eq!(parser.parse_molecule().unwrap(), vec![elem("C", 1, 0, 1)]);
    assert_eq!(
        parser.parse_side().unwrap_err().desc,
        "Missing uppercase letter at the beginning of the element"
    );
}

#[test]
fn missing_arrow_points_behind_the_left_side() {
    let err = Parser::new("C + H  ").parse_reaction().unwrap_err();
    assert_eq!(err.kind, CTErrorKind::InputError);
    assert_eq!(err.desc, "Missing arrow (->) in chemical reaction");
    assert_eq!(err.pos, Some((7, 1)));
    let err = Parser::new("C - H").parse_reaction().unwrap_err();
    assert_eq!(err.desc, "Missing arrow (->) in chemical reaction");
    assert_eq!(err.pos, Some((2, 1)));
}

#[test]
fn arrow_without_right_side() {
    let err = Parser::new("C ->").parse_reaction().unwrap_err();
    assert_eq!(err.desc, "Found no periodic element");
    assert_eq!(err.pos, Some((4, 1)));
}

#[test]
fn reaction_with_several_molecules() {
    let result = Parser::new("C3H8+O2->CO2 +  H2O").parse_reaction().unwrap();
    let expected = (
        vec![vec![elem("C", 3, 0, 1), elem("H", 8, 2, 1)], vec![elem("O", 2, 5, 1)]],
        vec![
            vec![elem("C", 1, 9, 1), elem("O", 2, 10, 1)],
            vec![elem("H", 2, 16, 1), elem("O", 1, 18, 1)],
        ],
    );
    assert_eq!(result, expected);
}

#[test]
fn done_after_the_last_molecule() {
    let mut parser = Parser::new("H2O \t\n");
    assert!(parser.parse_molecule().is_ok());
    assert!(parser.is_done());
    assert!(Parser::new("").is_done());
}
