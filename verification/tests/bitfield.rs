use torentino_pure::bitfield::{empty_bitfield, set_bit, test_bit};

#[test]
fn setting_a_bit_leaves_the_others() {
    let mut bits = empty_bitfield(11);
    assert_eq!(bits, vec![0, 0]);
    set_bit(&mut bits, 3);
    set_bit(&mut bits, 8);
    set_bit(&mut bits, 16);
    assert_eq!(bits, vec![0b0001_0000, 0b1000_0000]);
    for i in 0..20 {
        assert_eq!(test_bit(&bits, i), i == 3 || i == 8);
    }
    assert!(empty_bitfield(0).is_empty());
}
