use chemtool::rational::Rational;

fn frac(num: i64, den: i64) -> Rational {
    Rational::new(num, den).unwrap()
}

fn parts(r: Option<Rational>) -> Option<(i64, i64)> {
    r.map(|x| (x.numer(), x.denom()))
}

#[test]
fn fractions_are_kept_in_lowest_terms() {
    assert_eq!(parts(Rational::new(6, 4)), Some((3, 2)));
    assert_eq!(parts(Rational::new(6, -4)), Some((-3, 2)));
    assert_eq!(parts(Rational::new(-6, -4)), Some((3, 2)));
    assert_eq!(parts(Rational::new(0, -7)), Some((0, 1)));
    assert_eq!(parts(Rational::new(1, 0)), None);
    assert_eq!(parts(Rational::new(i64::MIN, 2)), Some((i64::MIN / 2, 1)));
    assert_eq!(parts(Rational::new(i64::MIN, 1)), None);
    assert_eq!(parts(Rational::new(1, i64::MIN)), None);
    assert_eq!(parts(Rational::new(i64::MIN, i64::MIN)), Some((1, 1)));
}

#[test]
fn whole_numbers() {
    assert_eq!(parts(Rational::from_integer(-5)), Some((-5, 1)));
    assert_eq!(parts(Rational::from_integer(i64::MAX)), Some((i64::MAX, 1)));
    assert_eq!(parts(Rational::from_integer(i64::MIN)), None);
    assert!(frac(0, 3).is_zero());
    assert!(!frac(1, 3).is_zero());
}

#[test]
fn sums_and_differences() {
    assert_eq!(parts(frac(1, 2).plus(&frac(1, 3))), Some((5, 6)));
    assert_eq!(parts(frac(1, 2).plus(&frac(-1, 2))), Some((0, 1)));
    assert_eq!(parts(frac(1, 6).plus(&frac(1, 3))), Some((1, 2)));
    assert_eq!(parts(frac(1, 2).minus(&frac(1, 3))), Some((1, 6)));
    assert_eq!(parts(frac(1, 3).minus(&frac(1, 2))), Some((-1, 6)));
    assert_eq!(parts(frac(i64::MAX, 1).plus(&frac(1, 1))), None);
    assert_eq!(parts(frac(-i64::MAX, 1).minus(&frac(1, 1))), None);
    assert_eq!(parts(frac(1, i64::MAX).plus(&frac(1, 2))), None);
    assert_eq!(parts(frac(i64::MAX, 2).plus(&frac(i64::MAX, 2))), Some((i64::MAX, 1)));
}

#[test]
fn products_and_quotients() {
    assert_eq!(parts(frac(2, 3).times(&frac(3, 4))), Some((1, 2)));
    assert_eq!(parts(frac(-2, 3).times(&frac(3, 4))), Some((-1, 2)));
    assert_eq!(parts(frac(2, 3).divided_by(&frac(-4, 3))), Some((-1, 2)));
    assert_eq!(parts(frac(0, 1).divided_by(&frac(-4, 3))), Some((0, 1)));
    assert_eq!(parts(frac(i64::MAX, 1).times(&frac(2, 1))), None);
    assert_eq!(parts(frac(i64::MAX, 1).times(&frac(1, i64::MAX))), Some((1, 1)));
    assert_eq!(parts(frac(1, i64::MAX).divided_by(&frac(2, 1))), None);
    assert_eq!(parts(Some(frac(3, 7).negated())), Some((-3, 7)));
}

#[test]
fn order_of_fractions() {
    assert!(frac(1, 3).less_than(&frac(1, 2)));
    assert!(!frac(1, 2).less_than(&frac(1, 2)));
    assert!(frac(-1, 2).less_than(&frac(1, 3)));
    assert!(!frac(-1, 2).abs_less_than(&frac(1, 3)));
    assert!(frac(1, 3).abs_less_than(&frac(-1, 2)));
    assert!(!frac(1, 2).abs_less_than(&frac(-1, 2)));
    assert!(frac(i64::MAX - 1, i64::MAX).less_than(&frac(1, 1)));
}

#[test]
fn quotients_as_whole_numbers() {
    assert_eq!(frac(3, 2).ratio_to(&frac(1, 2)), 3);
    assert_eq!(frac(3, 2).ratio_to(&frac(1, 1)), 1);
    assert_eq!(frac(7, 6).ratio_to(&frac(1, 3)), 3);
    assert_eq!(frac(-3, 2).ratio_to(&frac(1, 2)), 0);
    assert_eq!(frac(-3, 2).ratio_to(&frac(-1, 2)), 3);
    assert_eq!(frac(1, 4).ratio_to(&frac(-1, 2)), 0);
    assert_eq!(frac(0, 1).ratio_to(&frac(5, 1)), 0);
    assert_eq!(frac(4294967295, 1).ratio_to(&frac(1, 1)), 4294967295);
    assert_eq!(frac(4294967296, 1).ratio_to(&frac(1, 1)), 4294967295);
    assert_eq!(frac(i64::MAX, 1).ratio_to(&frac(1, i64::MAX)), 4294967295);
}
