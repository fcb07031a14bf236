use tfidf_search::score::{key_bits, score_key};

fn key(x: f64) -> u64 {
    score_key(x.to_bits()).unwrap()
}

#[test]
fn key_of_zero_is_the_middle() {
    assert_eq!(score_key(0), Some(0x8000_0000_0000_0000));
    assert_eq!(key(0.0), 0x8000_0000_0000_0000);
    assert_eq!(key(-0.0), 0x8000_0000_0000_0000);
}

#[test]
fn key_of_one() {
    assert_eq!(key(1.0), 0x8000_0000_0000_0000 + 0x3FF0_0000_0000_0000);
    assert_eq!(key(-1.0), 0x8000_0000_0000_0000 - 0x3FF0_0000_0000_0000);
}

#[test]
fn infinities_and_nans_have_no_key() {
    assert_eq!(score_key(f64::INFINITY.to_bits()), None);
    assert_eq!(score_key(f64::NEG_INFINITY.to_bits()), None);
    assert_eq!(score_key(f64::NAN.to_bits()), None);
    assert_eq!(score_key(0x7FF0_0000_0000_0001), None);
    assert_eq!(score_key(0xFFFF_FFFF_FFFF_FFFF), None);
}

#[test]
fn keys_order_as_the_doubles_do() {
    let values = [
        f64::MIN,
        -1.0e300,
        -2.5,
        -1.0,
        -f64::MIN_POSITIVE,
        -5e-324,
        0.0,
        5e-324,
        f64::MIN_POSITIVE,
        0.1,
        0.30000000000000004,
        0.3333333333333333,
        0.33333333333333337,
        0.5,
        1.0,
        1.0000000000000002,
        2.0,
        1.0e300,
        f64::MAX,
    ];
    for i in 0..values.len() {
        for j in 0..values.len() {
            assert_eq!(key(values[i]) < key(values[j]), values[i] < values[j]);
            assert_eq!(key(values[i]) == key(values[j]), values[i] == values[j]);
        }
    }
}

#[test]
fn key_gives_back_the_bits() {
    let values = [0.0, 5e-324, 0.25, 1.0, 0.9421556246632359, f64::MAX, -5e-324, -0.75, f64::MIN];
    for x in values.iter() {
        assert_eq!(key_bits(key(*x)), x.to_bits());
    }
    assert_eq!(key_bits(key(-0.0)), 0);
    assert_eq!(key_bits(0x8000_0000_0000_0000), 0);
    assert_eq!(key_bits(0x7FFF_FFFF_FFFF_FFFF), 0x8000_0000_0000_0001);
}
