use omg_audio::single::Single;

#[test]
fn whole_numbers_convert_like_the_machine() {
    for n in [0u64, 1, 2, 3, 100, 16_777_216, 16_777_217, 16_777_219, 1 << 40, u64::MAX] {
        assert_eq!(Single::from_u64(n).0, (n as f32).to_bits());
    }
}
