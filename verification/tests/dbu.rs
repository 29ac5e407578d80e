use vyges_fin::dbu::{round_dbu, to_dbu};

const LENGTHS: [f64; 40] = [
    0.0, -0.0, 0.07, 0.3, 0.58, 0.1, 0.2, 1.0, 2.0, 3.0, 0.005, 0.0005, 0.00049999, 1.0005, 1.0015,
    2.675, 1e-9, 1e-300, 5e-324, 123.4567, 999.9995, 1e3, 1e6, 2147483.647, 2147483.648, 4e9, 1e300,
    1.7e308, -0.07, -0.3, -1.0005, -2147483.648, -2147483.649, -1e300, 0.1234567890123,
    7.0000000000000009, 4503599627370497.5, 0.29999999999999999, 12345678.9, -5e-324,
];

const SCALES: [i32; 12] = [
    1000, 2000, 100, 200, 1, 3, 7, 4096, 10000, 20000, 2147483647, 0,
];

#[test]
fn lengths_are_cut_toward_zero_as_the_machine_does() {
    for l in LENGTHS {
        for s in SCALES {
            assert_eq!(
                to_dbu(l.to_bits(), s),
                (l * s as f64) as i32,
                "{l} at {s}"
            );
            assert_eq!(
                to_dbu(l.to_bits(), -s),
                (l * (-s) as f64) as i32,
                "{l} at -{s}"
            );
        }
    }
}

#[test]
fn lengths_are_rounded_half_away_from_zero_as_the_machine_does() {
    for l in LENGTHS {
        for s in SCALES {
            assert_eq!(
                round_dbu(l.to_bits(), s),
                (l * s as f64).round() as i32,
                "{l} at {s}"
            );
        }
    }
    assert_eq!(round_dbu((0.0005f64).to_bits(), 1000), 1);
    assert_eq!(round_dbu((-0.0005f64).to_bits(), 1000), -1);
    assert_eq!(round_dbu((0.00049f64).to_bits(), 1000), 0);
    assert_eq!(round_dbu((1.5f64).to_bits(), 1), 2);
    assert_eq!(round_dbu((2.5f64).to_bits(), 1), 3);
}

#[test]
fn a_seeded_walk_over_lengths_agrees_with_the_machine() {
    let mut bits: u64 = 0x3ff0_0000_0000_0001;
    for n in 0..20000 {
        bits = bits
            .wrapping_mul(6364136223846793005)
            .wrapping_add(1442695040888963407);
        let l = f64::from_bits(bits);
        let s = 1 + (n * 37) % 5000;
        assert_eq!(to_dbu(bits, s), (l * s as f64) as i32, "{bits:x} at {s}");
        assert_eq!(
            round_dbu(bits, s),
            (l * s as f64).round() as i32,
            "{bits:x} at {s}"
        );
        // Lengths of an ordinary size.
        let m = ((bits >> 12) as f64) / 1e9;
        assert_eq!(to_dbu(m.to_bits(), s), (m * s as f64) as i32, "{m} at {s}");
        assert_eq!(
            round_dbu(m.to_bits(), s),
            (m * s as f64).round() as i32,
            "{m} at {s}"
        );
    }
}

#[test]
fn what_is_no_number_is_zero_and_what_is_too_large_saturates() {
    assert_eq!(to_dbu(f64::NAN.to_bits(), 1000), 0);
    assert_eq!(to_dbu(f64::INFINITY.to_bits(), 0), 0);
    assert_eq!(to_dbu(f64::INFINITY.to_bits(), 1000), i32::MAX);
    assert_eq!(to_dbu(f64::NEG_INFINITY.to_bits(), 1000), i32::MIN);
    assert_eq!(round_dbu(f64::NAN.to_bits(), 1000), 0);
    assert_eq!(round_dbu(f64::NEG_INFINITY.to_bits(), 1), i32::MIN);
}
