use gazetteer_entity_parser::single::{quotient_above, quotient_at_least};
use gazetteer_entity_parser::utils::check_threshold;
use gazetteer_entity_parser::Single;

fn single(value: f32) -> Single {
    Single::from_bits(value.to_bits())
}

fn agrees(a: u64, b: u64, t: f32) {
    let quotient = a as f32 / b as f32;
    assert_eq!(quotient_at_least(a, b, single(t)), quotient >= t, "{} / {} >= {}", a, b, t);
    assert_eq!(quotient_above(a, b, single(t)), quotient > t, "{} / {} > {}", a, b, t);
}

fn thresholds() -> Vec<f32> {
    vec![
        0.0,
        -0.0,
        1.0,
        -1.0,
        0.1,
        0.2,
        0.3,
        0.5,
        0.51,
        0.6,
        0.7,
        0.9,
        0.99999994,
        1.0000001,
        1.5,
        2.0,
        1000.0,
        16777216.0,
        1.0e-10,
        1.0e-38,
        1.0e-45,
        -1.0e-45,
        f32::MIN_POSITIVE,
        f32::MAX,
        f32::MIN,
        f32::INFINITY,
        f32::NEG_INFINITY,
        f32::NAN,
        -f32::NAN,
    ]
}

#[test]
fn small_quotients_are_those_of_single_precision() {
    for a in 0..40 {
        for b in 0..40 {
            for t in thresholds() {
                agrees(a, b, t);
            }
        }
    }
}

#[test]
fn quotients_are_compared_with_themselves_and_their_neighbours() {
    let mut a: u64 = 1;
    let mut b: u64 = 1;
    for _ in 0..20_000 {
        a = (a * 6_364_136_223 + 1_442_695_041) % 8_589_934_592;
        b = (b * 2_862_933_555 + 3_037_000_493) % 8_589_934_592;
        for shift in [0, 9, 20, 28] {
            let x = a >> shift;
            let y = b >> shift;
            if y == 0 {
                continue;
            }
            let q = x as f32 / y as f32;
            agrees(x, y, q);
            if q > 0.0 {
                agrees(x, y, f32::from_bits(q.to_bits() + 1));
                agrees(x, y, f32::from_bits(q.to_bits() - 1));
            }
        }
    }
}

#[test]
fn large_numbers_are_rounded_first() {
    let values: Vec<u64> = vec![
        16_777_215,
        16_777_216,
        16_777_217,
        16_777_218,
        16_777_219,
        33_554_433,
        33_554_434,
        33_554_435,
        33_554_438,
        2_147_483_647,
        2_147_483_648,
        2_147_483_649,
        4_294_967_167,
        4_294_967_168,
        4_294_967_169,
        4_294_967_295,
        4_294_967_296,
        8_589_934_591,
    ];
    for a in &values {
        for b in &values {
            for t in thresholds() {
                agrees(*a, *b, t);
            }
            let q = *a as f32 / *b as f32;
            agrees(*a, *b, q);
            agrees(*a, *b, f32::from_bits(q.to_bits() + 1));
        }
    }
}

#[test]
fn threshold_is_on_the_fraction_of_decoded_tokens() {
    assert!(check_threshold(2, 1, single(0.6)));
    assert!(!check_threshold(2, 1, single(0.7)));
    assert!(check_threshold(1, 1, single(0.5)));
    assert!(check_threshold(0, 3, single(0.0)));
    assert!(!check_threshold(0, 3, single(0.1)));
    assert!(check_threshold(3, 0, single(1.0)));
    assert!(!check_threshold(u32::MAX - 1_000, 1_000, single(1.0)));
    assert!(check_threshold(u32::MAX - 1, 1, single(1.0)));
    // Nothing out of nothing is no fraction.
    assert!(!check_threshold(0, 0, single(0.0)));
    assert!(!check_threshold(1, 0, single(f32::NAN)));
}
