use wavefield::texture::push_le_bytes;

#[test]
fn bytes_come_lowest_first() {
    let mut out = vec![9u8];
    push_le_bytes(&mut out, 0x0403_0201);
    push_le_bytes(&mut out, 0);
    push_le_bytes(&mut out, u32::MAX);
    assert_eq!(out, vec![9, 1, 2, 3, 4, 0, 0, 0, 0, 255, 255, 255, 255]);
}

#[test]
fn bytes_are_those_of_the_number() {
    for h in [0.0f32, -0.0, 0.5, 1.0, -1.0, 0.4, 123456.79, f32::MIN_POSITIVE, f32::MAX] {
        let mut out = Vec::new();
        push_le_bytes(&mut out, h.to_bits());
        assert_eq!(out, h.to_le_bytes());
    }
}
