use ray_tracer::ordkey::{bits_from_key, key_from_bits};

#[test]
fn keys_follow_the_order_of_doubles() {
    let values = [
        f64::NEG_INFINITY,
        -1.0e300,
        -2.5,
        -1.0,
        -1.0e-300,
        -0.0,
        0.0,
        1.0e-300,
        0.5,
        1.0,
        7.25,
        1.0e300,
        f64::INFINITY,
    ];
    for w in values.windows(2) {
        assert!(key_from_bits(w[0].to_bits()) < key_from_bits(w[1].to_bits()));
    }
}

#[test]
fn keys_round_trip_to_the_same_double() {
    for x in [-3.75f64, -0.0, 0.0, 2.0, 1.0e-10, -1.0e10] {
        let k = key_from_bits(x.to_bits());
        assert_eq!(f64::from_bits(bits_from_key(k)).to_bits(), x.to_bits());
    }
}

#[test]
fn key_of_one_is_exact() {
    assert_eq!(key_from_bits(1.0f64.to_bits()), 0xbff0_0000_0000_0000);
    assert_eq!(key_from_bits((-1.0f64).to_bits()), 0x400f_ffff_ffff_ffff);
}
