use polyfactor::rational::Rat;
use polyfactor::rationalize::{rationalize, round_den};

fn rat(n: i64, d: i64) -> Rat {
    Rat { num: n, den: d }
}

#[test]
fn snap_keeps_simple_fractions() {
    // A value whose denominator is within the bound is returned as it is.
    assert_eq!(rationalize(rat(2, 3), 1000), Some(rat(2, 3)));
    assert_eq!(rationalize(rat(-7, 1), 1000), Some(rat(-7, 1)));
    assert_eq!(rationalize(rat(0, 1), 1000), Some(rat(0, 1)));
}

#[test]
fn snap_finds_nearby_simple_fraction() {
    // -1 + 1/2^20 snaps back to -1, and 1/3 + tiny snaps to 1/3.
    let near_minus_one = rat(-1048575, 1048576);
    assert_eq!(rationalize(near_minus_one, 1000), Some(rat(-1, 1)));
    let near_third = rat(349526, 1048576);
    assert_eq!(rationalize(near_third, 1000), Some(rat(1, 3)));
}

#[test]
fn snap_is_idempotent() {
    for x in [
        rat(-1048575, 1048576),
        rat(349526, 1048576),
        rat(355, 113),
        rat(1000003, 1048573),
        rat(-600000, 1048577),
    ] {
        let once = rationalize(x, 1000).unwrap();
        assert_eq!(rationalize(once, 1000), Some(once));
    }
}

#[test]
fn snap_output_is_in_lowest_terms_with_positive_denominator() {
    for x in [
        rat(349526, 1048576),
        rat(-1048575, 1048576),
        rat(524288, 1048575),
    ] {
        let y = rationalize(x, 1000).unwrap();
        assert!(y.den > 0);
        assert!(y.den <= 1000);
        assert_eq!(gcd(y.num.unsigned_abs(), y.den as u64), 1);
    }
}

fn gcd(a: u64, b: u64) -> u64 {
    if b == 0 {
        a
    } else {
        gcd(b, a % b)
    }
}

#[test]
fn rounding_to_working_precision() {
    // 1/3 rounded to denominator 16 is 5/16; -1/3 rounds to -5/16.
    assert_eq!(round_den(rat(1, 3), 16), Some(rat(5, 16)));
    assert_eq!(round_den(rat(-1, 3), 16), Some(rat(-5, 16)));
    // An exact multiple reduces: 1/2 at denominator 16 stays 1/2.
    assert_eq!(round_den(rat(1, 2), 16), Some(rat(1, 2)));
}
