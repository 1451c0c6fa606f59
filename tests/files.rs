use m3tabletool::{classify_name, order_files, parse_index, slot_file_name, PackError, SlotFile};

fn names(list: &[&str]) -> Vec<Vec<u8>> {
    list.iter().map(|s| s.as_bytes().to_vec()).collect()
}

#[test]
fn gap_is_reported_at_missing_index() {
    let r = order_files(&names(&["0.bin", "2.bin"]));
    assert_eq!(r, Err(PackError::Misnumbered { expected: 1, found: 1 }));
}

#[test]
fn duplicate_is_reported_at_next_index() {
    let r = order_files(&names(&["0.bin", "0.ignore"]));
    assert_eq!(r, Err(PackError::Misnumbered { expected: 1, found: 1 }));
    let r = order_files(&names(&["0.ignore", "1.bin", "0.bin"]));
    assert_eq!(r, Err(PackError::Misnumbered { expected: 1, found: 2 }));
}

#[test]
fn missing_first_index_reported() {
    let r = order_files(&names(&["1.bin"]));
    assert_eq!(r, Err(PackError::Misnumbered { expected: 0, found: 0 }));
}

#[test]
fn no_numbered_files() {
    assert_eq!(order_files(&names(&[])), Err(PackError::NoNumberedFiles));
    assert_eq!(order_files(&names(&["README.md", "x.bin"])), Err(PackError::NoNumberedFiles));
}

#[test]
fn order_sorts_and_skips_other_names() {
    let r = order_files(&names(&["2.bin", "README", "0.ignore", "1.bin", "notes.txt"])).unwrap();
    assert_eq!(
        r,
        vec![
            SlotFile { index: 0, absent: true, source: 2 },
            SlotFile { index: 1, absent: false, source: 3 },
            SlotFile { index: 2, absent: false, source: 0 },
        ]
    );
}

#[test]
fn parse_index_cases() {
    assert_eq!(parse_index(b"0"), Some(0));
    assert_eq!(parse_index(b"007"), Some(7));
    assert_eq!(parse_index(b"+12"), Some(12));
    assert_eq!(parse_index(b"65535"), Some(65535));
    assert_eq!(parse_index(b"65536"), None);
    assert_eq!(parse_index(b"1000000"), None);
    assert_eq!(parse_index(b"-1"), None);
    assert_eq!(parse_index(b"+"), None);
    assert_eq!(parse_index(b""), None);
    assert_eq!(parse_index(b"1a"), None);
}

#[test]
fn classify_name_cases() {
    assert_eq!(classify_name(b"3.bin"), Some((3, false)));
    assert_eq!(classify_name(b"3.ignore"), Some((3, true)));
    assert_eq!(classify_name(b"3.IGNORE"), Some((3, false)));
    assert_eq!(classify_name(b"3"), Some((3, false)));
    assert_eq!(classify_name(b"3."), Some((3, false)));
    assert_eq!(classify_name(b"1.tar.ignore"), None);
    assert_eq!(classify_name(b".ignore"), None);
    assert_eq!(classify_name(b".."), None);
    assert_eq!(classify_name(b"README"), None);
}

#[test]
fn slot_file_names() {
    assert_eq!(slot_file_name(12, true), b"12.bin".to_vec());
    assert_eq!(slot_file_name(0, false), b"0.ignore".to_vec());
    assert_eq!(slot_file_name(65535, true), b"65535.bin".to_vec());
    assert_eq!(classify_name(&slot_file_name(407, false)), Some((407, true)));
}

#[test]
fn unpacked_names_order_back() {
    let list: Vec<Vec<u8>> = (0u16..12).map(|i| slot_file_name(i, i % 3 != 0)).rev().collect();
    let r = order_files(&list).unwrap();
    for (k, f) in r.iter().enumerate() {
        assert_eq!(f.index as usize, k);
        assert_eq!(f.absent, k % 3 == 0);
        assert_eq!(f.source, 11 - k);
    }
}
