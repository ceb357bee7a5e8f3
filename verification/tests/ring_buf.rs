use echo::ring_buf::{PytreeRingBuf, RingDefect};

#[test]
fn test_new_basic() {
    let buf = PytreeRingBuf::new(vec![16, 32], 12, 4);
    assert_eq!(buf.capacity(), 12);
    assert_eq!(buf.num_arrays(), 2);
}

#[test]
fn test_capacity_not_multiple_of_batch_size() {
    assert_eq!(PytreeRingBuf::defect(&vec![8], 5, 3), Some(RingDefect::RaggedCapacity));
}

#[test]
fn test_capacity_zero() {
    assert_eq!(PytreeRingBuf::defect(&vec![8], 0, 1), Some(RingDefect::NoCapacity));
}

#[test]
fn test_empty_slot_bytes() {
    assert_eq!(PytreeRingBuf::defect(&vec![], 4, 2), Some(RingDefect::NoArrays));
}

#[test]
fn test_batch_size_zero_is_ragged() {
    assert_eq!(PytreeRingBuf::defect(&vec![8], 4, 0), Some(RingDefect::RaggedCapacity));
}

#[test]
fn test_sound_dimensions_have_no_defect() {
    assert_eq!(PytreeRingBuf::defect(&vec![16, 32], 12, 4), None);
}

#[test]
fn test_slots_start_zeroed() {
    let buf = PytreeRingBuf::new(vec![3, 5], 4, 2);
    for slot in 0..4 {
        assert_eq!(buf.slot_ref(slot, 0), &[0, 0, 0]);
        assert_eq!(buf.slot_ref(slot, 1), &[0, 0, 0, 0, 0]);
    }
}

#[test]
fn test_slot_mut_and_slot_ref() {
    let mut buf = PytreeRingBuf::new(vec![4], 8, 4);

    // Write to slot 2, array 0
    let data: [u8; 4] = [0xAA, 0xBB, 0xCC, 0xDD];
    buf.slot_mut(2, 0).copy_from_slice(&data);

    // Read back via slot_ref
    let view = buf.slot_ref(2, 0);
    assert_eq!(view, &[0xAA, 0xBB, 0xCC, 0xDD]);
}

#[test]
fn test_slots_are_non_overlapping() {
    let mut buf = PytreeRingBuf::new(vec![4], 8, 4);

    let data0: [u8; 4] = [0x11, 0x22, 0x33, 0x44];
    let data1: [u8; 4] = [0xAA, 0xBB, 0xCC, 0xDD];

    buf.slot_mut(0, 0).copy_from_slice(&data0);
    buf.slot_mut(1, 0).copy_from_slice(&data1);

    assert_eq!(buf.slot_ref(0, 0), &[0x11, 0x22, 0x33, 0x44]);
    assert_eq!(buf.slot_ref(1, 0), &[0xAA, 0xBB, 0xCC, 0xDD]);
}

#[test]
fn test_range_ptr_contiguous() {
    // slot_bytes = 4, capacity = 4, batch_size = 2
    let mut buf = PytreeRingBuf::new(vec![4], 4, 2);

    // Write to slot 0 and slot 1
    let data0: [u8; 4] = [0x01, 0x02, 0x03, 0x04];
    let data1: [u8; 4] = [0x05, 0x06, 0x07, 0x08];
    buf.slot_mut(0, 0).copy_from_slice(&data0);
    buf.slot_mut(1, 0).copy_from_slice(&data1);

    let (offset, total_len) = buf.range_ptr(0, 0, 2);
    assert_eq!(offset, 0);
    assert_eq!(total_len, 8);

    let slice = buf.range_bytes(0, 0, 2);
    assert_eq!(slice, &[0x01, 0x02, 0x03, 0x04, 0x05, 0x06, 0x07, 0x08]);
}

#[test]
fn test_range_ptr_offset() {
    // slot_bytes = 4, capacity = 6, batch_size = 3
    let mut buf = PytreeRingBuf::new(vec![4], 6, 3);

    // Write distinct data to all 6 slots
    for slot in 0..6usize {
        let val = (slot as u8 + 1) * 0x11;
        let data = [val; 4];
        buf.slot_mut(slot, 0).copy_from_slice(&data);
    }

    // range_ptr starting at slot 3, count 3
    let (offset, total_len) = buf.range_ptr(0, 3, 3);
    assert_eq!(offset, 12);
    assert_eq!(total_len, 12);

    let slice = buf.range_bytes(0, 3, 3);

    // slot 3 = 0x44, slot 4 = 0x55, slot 5 = 0x66, each repeated 4 times
    let expected: Vec<u8> = [0x44u8; 4]
        .iter()
        .chain([0x55u8; 4].iter())
        .chain([0x66u8; 4].iter())
        .copied()
        .collect();
    assert_eq!(slice, expected.as_slice());
}

#[test]
fn test_short_write_keeps_the_rest_of_the_slot() {
    let mut buf = PytreeRingBuf::new(vec![4, 2], 4, 2);
    buf.write_slot(1, 0, &[1, 2, 3, 4]);
    buf.write_slot(1, 0, &[9, 8]);
    assert_eq!(buf.slot_ref(1, 0), &[9, 8, 3, 4]);
    assert_eq!(buf.slot_ref(0, 0), &[0, 0, 0, 0]);
    assert_eq!(buf.slot_ref(2, 0), &[0, 0, 0, 0]);
    assert_eq!(buf.slot_ref(1, 1), &[0, 0], "the other array of the slot is untouched");
}
