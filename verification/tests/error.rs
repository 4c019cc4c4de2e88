use chemtool::error::{CTError, CTErrorKind};

#[test]
fn input_error_points_at_the_input() {
    let err = CTError::new(CTErrorKind::InputError, "Unexpected character", Some((2, 3)));
    let input = "CH%%%".to_string();
    assert_eq!(
        err.report_lines(Some(&input)),
        vec!["Unexpected character", "    CH%%%", "      ^~~"]
    );
}

#[test]
fn marker_of_length_one_or_none_is_a_caret() {
    let input = "C)".to_string();
    let err = CTError::new(CTErrorKind::InputError, "Missing opening parentheses", Some((1, 1)));
    assert_eq!(
        err.report_lines(Some(&input)),
        vec!["Missing opening parentheses", "    C)", "     ^"]
    );
    let err = CTError::new(CTErrorKind::InputError, "Found no periodic element", Some((0, 0)));
    assert_eq!(
        err.report_lines(Some(&String::new())),
        vec!["Found no periodic element", "    ", "    ^"]
    );
}

#[test]
fn other_errors_are_their_description() {
    let input = "anything".to_string();
    let err = CTError::new(CTErrorKind::InputError, "A molecule must not contain whitespace", None);
    assert_eq!(err.report_lines(Some(&input)), vec!["A molecule must not contain whitespace"]);
    let err = CTError::new(CTErrorKind::InputError, "Unexpected character", Some((2, 3)));
    assert_eq!(err.report_lines(None), vec!["Unexpected character"]);
    for kind in [CTErrorKind::BalanceError, CTErrorKind::DatabaseError, CTErrorKind::UsageError] {
        let err = CTError::new(kind, "Something", Some((1, 1)));
        assert_eq!(err.report_lines(Some(&input)), vec!["Something"]);
    }
}

#[test]
fn new_keeps_its_arguments() {
    let err = CTError::new(CTErrorKind::DatabaseError, "Missing field in database", None);
    assert_eq!(
        err,
        CTError {
            kind: CTErrorKind::DatabaseError,
            desc: "Missing field in database".to_string(),
            pos: None
        }
    );
}
