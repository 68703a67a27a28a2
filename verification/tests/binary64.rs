use oxide_federation::ranking::{find_highest, find_lowest, rank};
use oxide_federation::Binary64;

fn same_as_hardware(num: u32, den: u32) {
    let expected = (num as f64 / den as f64).to_bits();
    assert_eq!(Binary64::ratio(num, den).to_bits(), expected, "{} / {}", num, den);
}

#[test]
fn ratio_is_hardware_division() {
    for num in 0..300u32 {
        for den in 1..300u32 {
            same_as_hardware(num, den);
        }
    }
    let edges = [1, 2, 3, 0x7FFF_FFFF, 0x8000_0000, 0x8000_0001, u32::MAX - 1, u32::MAX];
    for num in edges {
        for den in edges {
            same_as_hardware(num, den);
        }
    }
    let mut state: u64 = 0x9E37_79B9_7F4A_7C15;
    for _ in 0..200_000 {
        state = state.wrapping_mul(6364136223846793005).wrapping_add(1442695040888963407);
        let num = (state >> 32) as u32;
        state = state.wrapping_mul(6364136223846793005).wrapping_add(1442695040888963407);
        let den = (state >> 32) as u32;
        if den != 0 {
            same_as_hardware(num, den);
            same_as_hardware(num >> 20, den >> 19 | 1);
        }
    }
}

#[test]
fn ratio_has_exact_patterns() {
    assert_eq!(Binary64::ratio(0, 7).to_bits(), 0);
    assert_eq!(Binary64::ratio(7, 7).to_bits(), 0x3FF0_0000_0000_0000);
    assert_eq!(Binary64::ratio(1, 2).to_bits(), 0x3FE0_0000_0000_0000);
    assert_eq!(Binary64::ratio(80, 100).to_bits(), 0.8f64.to_bits());
    assert_eq!(Binary64::ratio(4, 5).to_bits(), Binary64::ratio(80, 100).to_bits());
}

#[test]
fn order_is_hardware_order() {
    let numbers = [
        0.0,
        -0.0,
        0.8,
        -0.8,
        1.0,
        f64::MIN_POSITIVE / 2.0,
        -f64::MIN_POSITIVE / 2.0,
        f64::MAX,
        f64::MIN,
        f64::INFINITY,
        f64::NEG_INFINITY,
        f64::NAN,
        -f64::NAN,
    ];
    for a in numbers {
        for b in numbers {
            let (x, y) = (Binary64::from_bits(a.to_bits()), Binary64::from_bits(b.to_bits()));
            assert_eq!(x.at_least(y), a >= b, "{} >= {}", a, b);
            assert_eq!(x == y, a == b, "{} == {}", a, b);
        }
    }
}

#[test]
fn ranking_is_by_score_and_then_by_place() {
    let scores = vec![Some(3), None, Some(-1), Some(3), Some(2), Some(-1), None];
    assert_eq!(rank(&scores), vec![2, 5, 4, 0, 3]);
    assert_eq!(find_lowest(&scores), Some(2));
    assert_eq!(find_highest(&scores), Some(3));
    let none = vec![None, None];
    assert!(rank(&none).is_empty());
    assert_eq!(find_lowest(&none), None);
    assert_eq!(find_highest(&none), None);
}
