use textprims::types::float::Fp8;

#[test]
fn test_bits_round_trip() {
    for bits in [0u8, 1, 0x7f, 0x80, 0xff, 0b0011_1010] {
        assert_eq!(Fp8::from_bits(bits).to_bits(), bits);
    }
    assert_eq!(Fp8::from_bits(7), Fp8::from_bits(7));
    assert!(Fp8::from_bits(7) != Fp8::from_bits(8));
}
