use sito::measure::Measure;

const SAMPLES: [f64; 12] = [
    f64::NEG_INFINITY,
    f64::MIN,
    -41.6,
    -1e-310,
    0.0,
    1e-310,
    f64::MIN_POSITIVE,
    1.8,
    1.8000000000000003,
    84.5,
    f64::MAX,
    f64::INFINITY,
];

#[test]
fn keys_order_as_numbers() {
    for a in SAMPLES {
        for b in SAMPLES {
            let ka = Measure::from_bits(a.to_bits()).order_key();
            let kb = Measure::from_bits(b.to_bits()).order_key();
            assert_eq!(ka.cmp(&kb), a.partial_cmp(&b).unwrap(), "{a} {b}");
        }
    }
}

#[test]
fn bits_come_back() {
    for a in SAMPLES {
        assert_eq!(Measure::from_bits(a.to_bits()).to_bits(), a.to_bits());
    }
    for bits in [(-0.0f64).to_bits(), f64::NAN.to_bits(), u64::MAX, 0x7FF0_0000_0000_0001] {
        assert_eq!(Measure::from_bits(bits).to_bits(), bits);
    }
}

#[test]
fn measures_compare_as_doubles() {
    let mut values = SAMPLES.to_vec();
    values.extend([-0.0, f64::NAN, -f64::NAN, f64::from_bits(0x7FF0_0000_0000_0001)]);
    for &a in &values {
        for &b in &values {
            let less = Measure::from_bits(a.to_bits()).less_than(Measure::from_bits(b.to_bits()));
            assert_eq!(less, a < b, "{a} {b}");
        }
    }
}
