use m3tabletool::{
    decode_slot, offset_of_end, pack_table, read_header, read_u32_le, unpack_table, PackError,
    Slot, UnpackError,
};

fn le(v: u32) -> [u8; 4] {
    v.to_le_bytes()
}

/// A table with three slots: offsets `[0, 0, 40]`, total size 50.
fn sparse_table() -> Vec<u8> {
    let mut t = Vec::new();
    t.extend_from_slice(&le(3));
    t.extend_from_slice(&le(0));
    t.extend_from_slice(&le(0));
    t.extend_from_slice(&le(40));
    t.extend_from_slice(&le(50));
    while t.len() < 50 {
        let b = t.len() as u8;
        t.push(b);
    }
    t
}

fn sample_slots() -> Vec<Slot> {
    vec![Slot::Present(vec![1, 2, 3]), Slot::Absent, Slot::Present(vec![9])]
}

#[test]
fn pack_lays_out_exact_bytes() {
    let t = pack_table(&sample_slots()).unwrap();
    let expected: Vec<u8> = vec![
        3, 0, 0, 0, 20, 0, 0, 0, 0, 0, 0, 0, 23, 0, 0, 0, 24, 0, 0, 0, 1, 2, 3, 9,
    ];
    assert_eq!(t, expected);
}

#[test]
fn pack_then_unpack_round_trip() {
    let slots = sample_slots();
    let t = pack_table(&slots).unwrap();
    assert_eq!(unpack_table(&t).unwrap(), slots);
}

#[test]
fn round_trip_all_absent_and_single() {
    let slots = vec![Slot::Absent, Slot::Absent];
    let t = pack_table(&slots).unwrap();
    assert_eq!(t.len(), 16);
    assert_eq!(unpack_table(&t).unwrap(), slots);
    let one = vec![Slot::Present(vec![7; 300])];
    let t = pack_table(&one).unwrap();
    assert_eq!(unpack_table(&t).unwrap(), one);
}

#[test]
fn pack_of_no_slots() {
    let t = pack_table(&Vec::new()).unwrap();
    assert_eq!(t, vec![0, 0, 0, 0, 8, 0, 0, 0]);
    assert_eq!(unpack_table(&t).unwrap(), Vec::new());
}

#[test]
fn unpack_twice_gives_same_slots() {
    let t = sparse_table();
    let a = unpack_table(&t).unwrap();
    let b = unpack_table(&t).unwrap();
    assert_eq!(a, b);
}

#[test]
fn sentinel_is_table_length() {
    let t = pack_table(&sample_slots()).unwrap();
    let n = read_u32_le(&t, 0) as usize;
    assert_eq!(read_u32_le(&t, 4 + 4 * n) as usize, t.len());
    let t = pack_table(&vec![Slot::Present(vec![5; 1000]), Slot::Absent]).unwrap();
    assert_eq!(read_u32_le(&t, 12) as usize, t.len());
    assert_eq!(t.len(), 1016);
}

#[test]
fn absent_slots_before_present_one() {
    let t = sparse_table();
    let slots = unpack_table(&t).unwrap();
    assert_eq!(slots.len(), 3);
    assert_eq!(slots[0], Slot::Absent);
    assert_eq!(slots[1], Slot::Absent);
    assert_eq!(slots[2], Slot::Present(t[40..50].to_vec()));
}

#[test]
fn end_scans_past_zero_offsets() {
    let t = sparse_table();
    assert_eq!(offset_of_end(0, 3, &t), 40);
    assert_eq!(offset_of_end(1, 3, &t), 40);
    assert_eq!(offset_of_end(2, 3, &t), 50);
}

#[test]
fn decode_slot_one_by_one() {
    let t = sparse_table();
    let n = read_header(&t).unwrap();
    assert_eq!(n, 3);
    assert_eq!(decode_slot(&t, n, 1), Ok(Slot::Absent));
    assert_eq!(decode_slot(&t, n, 2), Ok(Slot::Present(t[40..50].to_vec())));
}

#[test]
fn size_mismatch_rejected() {
    let mut t = sparse_table();
    t.push(0);
    assert_eq!(
        unpack_table(&t),
        Err(UnpackError::SizeMismatch { declared: 50, actual: 51 })
    );
    let mut t = sparse_table();
    t[16] = 49;
    assert_eq!(
        unpack_table(&t),
        Err(UnpackError::SizeMismatch { declared: 49, actual: 50 })
    );
}

#[test]
fn truncated_header_rejected() {
    assert_eq!(unpack_table(&[]), Err(UnpackError::Truncated));
    assert_eq!(unpack_table(&[1, 0, 0]), Err(UnpackError::Truncated));
    assert_eq!(unpack_table(&[1, 0, 0, 0, 0, 0, 0, 0]), Err(UnpackError::Truncated));
}

#[test]
fn too_many_entries_rejected() {
    let mut t = Vec::new();
    t.extend_from_slice(&le(65536));
    t.extend_from_slice(&le(8));
    assert_eq!(unpack_table(&t), Err(UnpackError::TooManyEntries(65536)));
}

#[test]
fn empty_entry_rejected() {
    let mut t = Vec::new();
    t.extend_from_slice(&le(2));
    t.extend_from_slice(&le(16));
    t.extend_from_slice(&le(16));
    t.extend_from_slice(&le(20));
    t.extend_from_slice(&[1, 2, 3, 4]);
    assert_eq!(unpack_table(&t), Err(UnpackError::EmptyEntry(0)));
}

#[test]
fn empty_present_slot_refused_by_pack() {
    let slots = vec![Slot::Present(vec![1]), Slot::Present(Vec::new())];
    assert_eq!(pack_table(&slots), Err(PackError::EmptySlot(1)));
    let slots = vec![Slot::Present(Vec::new()), Slot::Absent, Slot::Present(Vec::new())];
    assert_eq!(pack_table(&slots), Err(PackError::EmptySlot(0)));
}

#[test]
fn too_many_slots_refused_by_pack() {
    let mut slots: Vec<Slot> = Vec::new();
    for _ in 0..65536 {
        slots.push(Slot::Absent);
    }
    assert_eq!(pack_table(&slots), Err(PackError::TooManySlots(65536)));
    slots.pop();
    let t = pack_table(&slots).unwrap();
    assert_eq!(t.len(), 4 * 65535 + 8);
    assert_eq!(unpack_table(&t).unwrap().len(), 65535);
    slots.push(Slot::Present(Vec::new()));
    assert_eq!(pack_table(&slots), Err(PackError::TooManySlots(65536)));
}

#[test]
fn entry_past_end_rejected() {
    let mut t = Vec::new();
    t.extend_from_slice(&le(2));
    t.extend_from_slice(&le(16));
    t.extend_from_slice(&le(100));
    t.extend_from_slice(&le(20));
    t.extend_from_slice(&[1, 2, 3, 4]);
    assert_eq!(unpack_table(&t), Err(UnpackError::EntryOutOfBounds(0)));
}

#[test]
fn pack_error_variants_are_distinct() {
    assert_ne!(PackError::TooLarge, PackError::NoNumberedFiles);
    assert_ne!(PackError::TooManySlots(65536), PackError::EmptySlot(0));
}
