use chemtool::balance::balance_reaction;
use chemtool::elem::PerElem;
use chemtool::error::CTErrorKind::InputError;
use chemtool::error::{CTError, CTErrorKind};
use chemtool::parser::Parser;

fn dummy_elem(name: &str, coef: u32) -> PerElem {
    PerElem { name: name.to_string(), coef, pos: 0, len: 1 }
}

fn balanced(text: &str) -> Result<Vec<u32>, CTError> {
    let reaction = Parser::new(text).parse_reaction().unwrap();
    balance_reaction(&reaction)
}

#[test]
fn balance() {
    // attempt to balance C3H8 + O2 -> CO2 + H2O
    let reaction = (
        vec![vec![dummy_elem("C", 3), dummy_elem("H", 8)], vec![dummy_elem("O", 2)]],
        vec![
            vec![dummy_elem("C", 1), dummy_elem("O", 2)],
            vec![dummy_elem("H", 2), dummy_elem("O", 1)],
        ],
    );
    let result = balance_reaction(&reaction);
    let expected = Ok(vec![1, 5, 3, 4]);
    assert_eq!(result, expected);
}

#[test]
fn no_balance_needed() {
    let reaction = (
        vec![vec![dummy_elem("C", 1)], vec![dummy_elem("H", 1)]],
        vec![vec![dummy_elem("C", 1)], vec![dummy_elem("H", 1)]],
    );
    let result = balance_reaction(&reaction);
    let expected = Ok(vec![1, 1, 1, 1]);
    assert_eq!(result, expected);
}

#[test]
fn balance_missing_elem() {
    let reaction = (
        vec![vec![dummy_elem("C", 1)], vec![dummy_elem("H", 1)]],
        vec![vec![dummy_elem("C", 1)]],
    );
    let result = balance_reaction(&reaction);
    println!("{:?}", result);
    assert!(result.is_err());
    assert_eq!(result.err().unwrap().kind, InputError);
}

#[test]
fn propane_burns_with_equal_atoms_on_both_sides() {
    let coefs = balanced("C3H8 + O2 -> CO2 + H2O").unwrap();
    assert_eq!(coefs, vec![1, 5, 3, 4]);
    // C: 3 = 3, H: 8 = 8, O: 10 = 6 + 4
    assert_eq!(coefs[0] * 3, coefs[2] * 1);
    assert_eq!(coefs[0] * 8, coefs[3] * 2);
    assert_eq!(coefs[1] * 2, coefs[2] * 2 + coefs[3] * 1);
}

#[test]
fn element_on_one_side_only() {
    // Carbon stands on the left side only and hydrogen on the right side only.
    let err = balanced("C -> H").unwrap_err();
    assert_eq!(err.kind, CTErrorKind::InputError);
    assert_eq!(err.desc, "An element in C is missing on the other side of the reaction");
    assert_eq!(err.pos, Some((0, 1)));
}

#[test]
fn missing_element_names_the_molecule() {
    let err = balanced("C + H -> C").unwrap_err();
    assert_eq!(err.kind, CTErrorKind::InputError);
    assert_eq!(err.desc, "An element in H is missing on the other side of the reaction");
    assert_eq!(err.pos, Some((4, 1)));
}

#[test]
fn missing_element_in_the_first_molecule() {
    let err = balanced("He2 + C -> C").unwrap_err();
    assert_eq!(err.kind, CTErrorKind::InputError);
    assert_eq!(err.desc, "An element in He2 is missing on the other side of the reaction");
    assert_eq!(err.pos, Some((0, 2)));
}

#[test]
fn missing_element_spans_the_molecule() {
    // Neither HO nor O can take part; HO is the first of them.
    let err = balanced("C +  (HO)2 -> O + C").unwrap_err();
    assert_eq!(err.kind, CTErrorKind::InputError);
    assert_eq!(err.desc, "An element in H2O2 is missing on the other side of the reaction");
    assert_eq!(err.pos, Some((6, 2)));
}

#[test]
fn water_needs_fractions_on_the_way() {
    assert_eq!(balanced("H2 + O2 -> H2O").unwrap(), vec![2, 1, 2]);
}

#[test]
fn atoms_of_one_element_count_together() {
    // CH3CH3 holds two atoms of carbon and six of hydrogen.
    assert_eq!(balanced("CH3CH3 + Cl2 -> C2H5Cl + HCl").unwrap(), vec![1, 1, 1, 1]);
    assert_eq!(balanced("(CH3)2 + Cl2 -> C2H5Cl + HCl").unwrap(), vec![1, 1, 1, 1]);
}

#[test]
fn pivoting_exchanges_rows() {
    assert_eq!(balanced("CH4 + O2 -> CO2 + H2O").unwrap(), vec![1, 2, 1, 2]);
}

#[test]
fn quotients_are_rounded_towards_zero() {
    // The solution is 2, 3/2, 1; divided by the least of them, 3/2 becomes 1.
    assert_eq!(balanced("Fe + O2 -> Fe2O3").unwrap(), vec![2, 1, 1]);
    // The solution is 1/3, 7/6, 2/3, 1.
    assert_eq!(balanced("CH3CH3 + O2 -> CO2 + H2O").unwrap(), vec![1, 3, 2, 3]);
}

#[test]
fn column_without_pivot() {
    let err = balanced("H2O -> H2O").unwrap_err();
    assert_eq!(err.kind, CTErrorKind::InputError);
    assert_eq!(err.desc, "Could not balance reaction");
    assert_eq!(err.pos, None);
    let err = balanced("H2O + C -> C").unwrap_err();
    assert_eq!(err.kind, CTErrorKind::InputError);
    assert_eq!(err.desc, "Could not balance reaction");
    assert_eq!(err.pos, None);
    // The second column has nothing but zero at and below the diagonal.
    let err = balanced("C -> C + H").unwrap_err();
    assert_eq!(err.kind, CTErrorKind::InputError);
    assert_eq!(err.desc, "Could not balance reaction");
    assert_eq!(err.pos, None);
}

#[test]
fn quotient_beyond_32_bits_is_the_largest_number() {
    let big = 4294967295;
    let heavy: Vec<PerElem> = (0..3).map(|_| dummy_elem("C", big)).collect();
    let reaction = (vec![heavy], vec![vec![dummy_elem("C", 1)]]);
    assert_eq!(balance_reaction(&reaction), Ok(vec![1, 4294967295]));
}

#[test]
fn familiar_reactions() {
    assert_eq!(balanced("N2 + H2 -> NH3").unwrap(), vec![1, 3, 2]);
    assert_eq!(balanced("Na + Cl2 -> NaCl").unwrap(), vec![2, 1, 2]);
    assert_eq!(balanced("C6H12O6 + O2 -> CO2 + H2O").unwrap(), vec![1, 6, 6, 6]);
}

#[test]
fn numbers_beyond_64_bits_end_the_balancing() {
    let err = balanced(
        "C4294967291H4294967279 + O4294967231 -> C4294967197O4294967189 + H4294967161O4294967143",
    )
    .unwrap_err();
    assert_eq!(err.kind, CTErrorKind::BalanceError);
    assert_eq!(err.desc, "Could not balance reaction: the numbers grow too large");
    assert_eq!(err.pos, None);
}

#[test]
fn more_left_after_the_reaction_is_not_read() {
    let reaction = Parser::new("H2 + O2 -> H2O ; air").parse_reaction().unwrap();
    assert_eq!(balance_reaction(&reaction), Ok(vec![2, 1, 2]));
}
