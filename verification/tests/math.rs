use gamekit::math::divisors::{gcd, lcm};
use gamekit::math::fractions::{Frac32, FractionError};
use gamekit::math::{greater, lesser};

fn frac(numerator: i32, denominator: u32) -> Frac32 {
    Frac32::from_ratio(numerator, denominator).unwrap()
}

#[test]
fn it_works() {
    assert_eq!(2 + 2, 4);
}

#[test]
fn gcd_test() {
    let f2over3 = frac(2, 3);
    let f6over9 = frac(6, 9);

    assert_eq!(f2over3.gcd(f6over9), 3);
}

#[test]
fn lcm_test() {
    let f2over3 = frac(2, 3);
    let f6over9 = frac(6, 9);

    assert_eq!(f2over3.lcm(f6over9), Ok(9));
}

#[test]
fn greater_picks_the_larger() {
    assert_eq!(greater(3, 9), 9);
    assert_eq!(greater(9, 3), 9);
    assert_eq!(greater(-1, -2), -1);
    assert_eq!(greater("b", "a"), "b");
}

#[test]
fn lesser_picks_the_smaller() {
    assert_eq!(lesser(3, 9), 3);
    assert_eq!(lesser(9, 3), 3);
    assert_eq!(lesser(-1, -2), -2);
    assert_eq!(lesser("b", "a"), "a");
}

#[test]
fn greater_and_lesser_return_the_second_on_a_tie() {
    // The two zeros are equal, and the sign tells them apart.
    assert!(greater(0.0f64, -0.0f64).is_sign_negative());
    assert!(greater(-0.0f64, 0.0f64).is_sign_positive());
    assert!(lesser(0.0f64, -0.0f64).is_sign_negative());
    assert!(lesser(-0.0f64, 0.0f64).is_sign_positive());
}

#[test]
fn greater_and_lesser_return_the_second_when_unordered() {
    assert_eq!(greater(f64::NAN, 1.0), 1.0);
    assert_eq!(lesser(f64::NAN, 1.0), 1.0);
    assert!(greater(1.0, f64::NAN).is_nan());
    assert!(lesser(1.0, f64::NAN).is_nan());
}

#[test]
fn gcd_of_plain_numbers() {
    assert_eq!(gcd(3, 9), 3);
    assert_eq!(gcd(9, 3), 3);
    assert_eq!(gcd(12, 18), 6);
    assert_eq!(gcd(17, 5), 1);
    assert_eq!(gcd(7, 7), 7);
    assert_eq!(gcd(0, 5), 5);
    assert_eq!(gcd(5, 0), 5);
    assert_eq!(gcd(0, 0), 0);
    assert_eq!(gcd(u32::MAX, u32::MAX - 1), 1);
    assert_eq!(gcd(1 << 31, 1 << 20), 1 << 20);
}

#[test]
fn lcm_of_plain_numbers() {
    assert_eq!(lcm(3, 9), Some(9));
    assert_eq!(lcm(4, 6), Some(12));
    assert_eq!(lcm(1, 1), Some(1));
    assert_eq!(lcm(17, 5), Some(85));
    assert_eq!(lcm(u32::MAX, u32::MAX), Some(u32::MAX));
    assert_eq!(lcm(65536, 65535), Some(4294901760));
    assert_eq!(lcm(65536, 65537), None);
    assert_eq!(lcm(u32::MAX, 2), None);
    assert_eq!(lcm(0, 5), Some(0));
    assert_eq!(lcm(5, 0), Some(0));
    assert_eq!(lcm(0, 0), Some(0));
}

#[test]
fn gcd_divides_both_and_lcm_is_the_product_over_it() {
    let pairs = [(2u32, 3u32), (6, 9), (10, 4), (35, 49), (1, 8), (360, 84)];
    for (a, b) in pairs {
        let g = gcd(a, b);
        assert_eq!(a % g, 0);
        assert_eq!(b % g, 0);
        for d in (g + 1)..=a.min(b) {
            assert!(a % d != 0 || b % d != 0);
        }
        let l = lcm(a, b).unwrap();
        assert_eq!(l, a * b / g);
        for m in 1..l {
            assert!(m % a != 0 || m % b != 0);
        }
    }
}

#[test]
fn from_ratio_keeps_both_parts() {
    let f = frac(-7, 21);
    assert_eq!(f.numerator(), -7);
    assert_eq!(f.denominator(), 21);
}

#[test]
fn from_ratio_refuses_a_zero_denominator() {
    assert_eq!(Frac32::from_ratio(1, 0), Err(FractionError::InvalidFraction));
    assert_eq!(Frac32::from_ratio(0, 0), Err(FractionError::InvalidFraction));
}

#[test]
fn gcd_and_lcm_of_denominators() {
    assert_eq!(frac(1, 4).gcd(frac(5, 6)), 2);
    assert_eq!(frac(1, 4).lcm(frac(5, 6)), Ok(12));
    assert_eq!(frac(-1, 7).gcd(frac(0, 7)), 7);
    assert_eq!(frac(-1, 7).lcm(frac(0, 7)), Ok(7));
}

#[test]
fn lcm_reports_overflow() {
    assert_eq!(
        frac(1, 65536).lcm(frac(1, 65537)),
        Err(FractionError::ArithmeticOverflow)
    );
}

#[test]
fn multiply_is_exact() {
    let mut f = frac(1, 3);
    assert_eq!(f.mul(frac(-2, 1)), Ok(()));
    assert_eq!(f, frac(-2, 3));
}

#[test]
fn multiply_does_not_simplify() {
    let mut f = frac(2, 4);
    assert_eq!(f.mul(frac(2, 2)), Ok(()));
    assert_eq!((f.numerator(), f.denominator()), (4, 8));
}

#[test]
fn multiply_reports_overflow_and_keeps_the_fraction() {
    let mut f = frac(65536, 3);
    assert_eq!(f.mul(frac(32768, 1)), Err(FractionError::ArithmeticOverflow));
    assert_eq!(f, frac(65536, 3));

    let mut g = frac(1, 65536);
    assert_eq!(g.mul(frac(1, 65536)), Err(FractionError::ArithmeticOverflow));
    assert_eq!(g, frac(1, 65536));

    let mut h = frac(-65536, 1);
    assert_eq!(h.mul(frac(32768, 1)), Ok(()));
    assert_eq!(h, frac(i32::MIN, 1));
}

#[test]
fn divide_is_exact() {
    let mut f = frac(2, 3);
    assert_eq!(f.div(frac(-2, 1)), Ok(()));
    assert!(f.same_value(&frac(-1, 3)));
    assert_eq!((f.numerator(), f.denominator()), (-2, 6));
    f.simplify();
    assert_eq!(f, frac(-1, 3));
}

#[test]
fn divide_turns_the_divisor_upside_down() {
    let mut f = frac(3, 4);
    assert_eq!(f.div(frac(5, 7)), Ok(()));
    assert_eq!((f.numerator(), f.denominator()), (21, 20));

    let mut g = frac(-3, 4);
    assert_eq!(g.div(frac(-5, 7)), Ok(()));
    assert_eq!((g.numerator(), g.denominator()), (21, 20));
}

#[test]
fn divide_undoes_multiply() {
    let start = frac(-5, 12);
    let by = frac(-7, 9);
    let mut f = start;
    assert_eq!(f.mul(by), Ok(()));
    assert_eq!(f.div(by), Ok(()));
    assert!(f.same_value(&start));
}

#[test]
fn divide_refuses_zero() {
    let mut f = frac(2, 3);
    assert_eq!(f.div(frac(0, 5)), Err(FractionError::InvalidFraction));
    assert_eq!(f, frac(2, 3));
}

#[test]
fn divide_reports_overflow_and_keeps_the_fraction() {
    let mut f = frac(65536, 1);
    assert_eq!(f.div(frac(1, 65536)), Err(FractionError::ArithmeticOverflow));
    assert_eq!(f, frac(65536, 1));

    let mut g = frac(1, 3);
    assert_eq!(g.div(frac(i32::MIN, 1)), Err(FractionError::ArithmeticOverflow));
    assert_eq!(g, frac(1, 3));

    let mut h = frac(1, 1);
    assert_eq!(h.div(frac(i32::MIN, 1)), Ok(()));
    assert_eq!((h.numerator(), h.denominator()), (-1, 2147483648));
}

#[test]
fn simplify_brings_to_lowest_terms() {
    let mut f = frac(6, 9);
    f.simplify();
    assert_eq!(f, frac(2, 3));

    let mut g = frac(-12, 18);
    g.simplify();
    assert_eq!(g, frac(-2, 3));

    let mut z = frac(0, 12);
    z.simplify();
    assert_eq!(z, frac(0, 1));

    let mut low = frac(i32::MIN, 4294967294);
    low.simplify();
    assert_eq!(low, frac(-1073741824, 2147483647));

    let mut done = frac(7, 5);
    done.simplify();
    assert_eq!(done, frac(7, 5));
}

#[test]
fn same_value_ignores_the_form() {
    assert!(frac(2, 3).same_value(&frac(6, 9)));
    assert!(frac(-2, 6).same_value(&frac(-1, 3)));
    assert!(frac(0, 1).same_value(&frac(0, 77)));
    assert!(!frac(2, 3).same_value(&frac(-2, 3)));
    assert!(!frac(1, 3).same_value(&frac(1, 4)));
    assert!(!frac(i32::MAX, u32::MAX).same_value(&frac(i32::MAX - 1, u32::MAX)));
}
