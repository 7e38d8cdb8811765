use bintree::bits::read_bits;

#[test]
fn low_bits_come_first() {
    let data = [0b1010_0110, 0x01];
    assert_eq!(read_bits(&data, 0, 4), Ok((6, 4)));
    assert_eq!(read_bits(&data, 4, 4), Ok((10, 8)));
    assert_eq!(read_bits(&data, 4, 8), Ok((0x1a, 12)));
    assert_eq!(read_bits(&data, 0, 16), Ok((0x01a6, 16)));
}

#[test]
fn adjacent_fields_make_up_the_field_over_both() {
    let data = [0x12, 0x34, 0x56, 0x78, 0x9a];
    for a in 0..20u32 {
        for b in 0..20u32 {
            let (first, middle) = read_bits(&data, 0, a).unwrap();
            let (second, end) = read_bits(&data, middle, b).unwrap();
            assert_eq!(read_bits(&data, 0, a + b), Ok((first + (second << a), end)));
            assert!(first < 1 << a);
        }
    }
}

#[test]
fn sixty_four_bits_at_any_offset() {
    let data = [0xff, 0x01, 0x02, 0x03, 0x04, 0x05, 0x06, 0x07, 0x08, 0x09];
    assert_eq!(read_bits(&data, 8, 64), Ok((0x0807_0605_0403_0201, 72)));
    assert_eq!(read_bits(&data, 4, 64), Ok((0x8070_6050_4030_201f, 68)));
    assert_eq!(read_bits(&data, 79, 1), Ok((0, 80)));
}

#[test]
fn read_past_the_end_gives_a_message() {
    assert_eq!(
        read_bits(&[1], 4, 8),
        Err("Read failed: data len bits 8 bit_offset 4 attempt read num_bits: 8".to_string())
    );
    assert_eq!(
        read_bits(&[], 0, 1),
        Err("Read failed: data len bits 0 bit_offset 0 attempt read num_bits: 1".to_string())
    );
    assert_eq!(
        read_bits(&[7], 12, 64),
        Err("Read failed: data len bits 8 bit_offset 12 attempt read num_bits: 64".to_string())
    );
}

#[test]
fn no_bits_can_be_read_at_the_end() {
    assert_eq!(read_bits(&[1], 8, 0), Ok((0, 8)));
    assert_eq!(read_bits(&[], 0, 0), Ok((0, 0)));
}
