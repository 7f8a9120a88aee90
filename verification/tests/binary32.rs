use retinaface_post::binary32::{exceeds, not_a_number, INFINITY, SIGN_BIT};

fn samples() -> Vec<f32> {
    vec![
        0.0,
        -0.0,
        f32::MIN_POSITIVE,
        -f32::MIN_POSITIVE,
        f32::from_bits(1),
        f32::from_bits(SIGN_BIT | 1),
        0.1,
        0.4,
        0.699_999_9,
        0.7,
        0.700_000_1,
        0.9,
        1.0,
        -1.0,
        1.5,
        -1.5,
        640.0,
        -640.0,
        f32::MAX,
        f32::MIN,
        f32::INFINITY,
        f32::NEG_INFINITY,
        f32::NAN,
        -f32::NAN,
        f32::from_bits(0x7f80_0001),
        f32::from_bits(0xffff_ffff),
    ]
}

#[test]
fn exceeds_agrees_with_the_order_of_the_numbers() {
    for a in samples() {
        for b in samples() {
            assert_eq!(
                exceeds(a.to_bits(), b.to_bits()),
                a > b,
                "{:?} ({:#x}) > {:?} ({:#x})",
                a,
                a.to_bits(),
                b,
                b.to_bits()
            );
        }
    }
}

#[test]
fn not_a_number_agrees_with_the_numbers() {
    for a in samples() {
        assert_eq!(not_a_number(a.to_bits()), a.is_nan(), "{:?}", a);
    }
    assert!(!not_a_number(INFINITY));
    assert!(not_a_number(INFINITY + 1));
    assert!(!not_a_number(SIGN_BIT | INFINITY));
    assert!(not_a_number((SIGN_BIT | INFINITY) + 1));
}

#[test]
fn the_two_zeros_are_one_number() {
    assert!(!exceeds(0, SIGN_BIT));
    assert!(!exceeds(SIGN_BIT, 0));
    assert!(exceeds(1, SIGN_BIT));
    assert!(exceeds(0, SIGN_BIT | 1));
}

#[test]
fn nothing_exceeds_and_nothing_is_exceeded_by_what_is_no_number() {
    let nan = f32::NAN.to_bits();
    for a in samples() {
        assert!(!exceeds(a.to_bits(), nan));
        assert!(!exceeds(nan, a.to_bits()));
    }
}

#[test]
fn exceeds_scans_neighbouring_patterns() {
    // every step of one unit in the last place over a few ranges
    for start in [0u32, 0x3f33_3300, 0x7f7f_ff00, SIGN_BIT, 0xbf33_3300] {
        for bits in start..start + 512 {
            let (a, b) = (f32::from_bits(bits), f32::from_bits(bits + 1));
            assert_eq!(exceeds(bits + 1, bits), b > a);
            assert_eq!(exceeds(bits, bits + 1), a > b);
            assert!(!exceeds(bits, bits));
        }
    }
}
