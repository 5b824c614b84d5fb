use nexos::bitmap_allocator::BitMap;

#[test]
fn test_set_bit() {
    let mut bitmap_data = [0u8; 2];
    BitMap::new(&mut bitmap_data).set(2);
    assert_eq!(bitmap_data, [0b00100000, 0]);
    BitMap::new(&mut bitmap_data).set(13);
    assert_eq!(bitmap_data, [0b00100000, 0b00000100]);
}

#[test]
fn test_get_bit() {
    let mut bitmap_data = [0b00101000u8; 2];
    let bitmap = BitMap::new(&mut bitmap_data);
    assert_eq!(bitmap.try_get(4), Some(true));
    assert_eq!(bitmap.try_get(13), Some(false));
    assert_eq!(bitmap.try_get(2), Some(true));
}

#[test]
fn test_out_of_bounds_set() {
    let mut bitmap_data = [0u8; 2];
    let mut bitmap = BitMap::new(&mut bitmap_data);
    // Index out of bounds, should return false
    assert_eq!(bitmap.try_set(20), false);
}

#[test]
fn set_then_get_is_true_and_clear_then_get_is_false() {
    let mut data = [0b01010101u8; 4];
    let mut bitmap = BitMap::new(&mut data);
    for i in 0..32 {
        bitmap.set(i);
        assert!(bitmap.get(i));
        bitmap.clear(i);
        assert!(!bitmap.get(i));
    }
}

#[test]
fn clear_of_a_clear_bit_leaves_it_clear() {
    let mut data = [0u8; 1];
    let mut bitmap = BitMap::new(&mut data);
    bitmap.clear(3);
    assert!(!bitmap.get(3));
    assert!(bitmap.try_clear(3));
    assert_eq!(bitmap.try_get(3), Some(false));
    assert_eq!(data, [0]);
}

#[test]
fn set_touches_one_bit_at_byte_and_mask() {
    for i in 0..24usize {
        let mut data = [0u8; 3];
        BitMap::new(&mut data).set(i);
        let mut expected = [0u8; 3];
        expected[i / 8] = 0x80 >> (i % 8);
        assert_eq!(data, expected);
    }
    let mut data = [0xffu8; 3];
    BitMap::new(&mut data).clear(9);
    assert_eq!(data, [0xff, 0b10111111, 0xff]);
}

#[test]
fn cfg_sets_and_clears() {
    let mut data = [0u8; 2];
    let mut bitmap = BitMap::new(&mut data);
    bitmap.cfg(0, true);
    bitmap.cfg(15, true);
    assert!(bitmap.try_cfg(7, true));
    bitmap.cfg(0, false);
    assert!(bitmap.try_cfg(0, false));
    assert_eq!(data, [0b00000001, 0b00000001]);
}

#[test]
fn out_of_range_access_changes_nothing() {
    let mut data = [0b10000001u8; 2];
    let mut bitmap = BitMap::new(&mut data);
    assert_eq!(bitmap.try_get(16), None);
    assert_eq!(bitmap.try_get(usize::MAX), None);
    assert!(!bitmap.try_set(16));
    assert!(!bitmap.try_clear(16));
    assert!(!bitmap.try_cfg(1000, true));
    assert!(!bitmap.try_cfg(1000, false));
    assert_eq!(bitmap.try_get(15), Some(true));
    assert_eq!(data, [0b10000001u8; 2]);
}
