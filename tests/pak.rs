use cars_pak::pak::{
    encode_archive, extract_member, pack, parse_boxes, Member, PackError, PakError, ZeroSizeRule,
};

fn member(name: &str, data: &[u8]) -> Member {
    Member { name: name.as_bytes().to_vec(), data: data.to_vec() }
}

fn two_members() -> Vec<Member> {
    vec![member("a.txt", b"hello"), member("sub/b.txt", b"abc")]
}

#[test]
fn two_member_archive_offsets() {
    let archive = pack(&two_members()).unwrap();
    let dir = parse_boxes(&archive).unwrap();
    assert_eq!(dir.entry_count, 2);
    assert_eq!(dir.data_start, 4 + 2 * 108);
    assert_eq!(dir.entries.len(), 2);
    assert_eq!(dir.entries[0].file_name, b"a.txt".to_vec());
    assert_eq!(dir.entries[1].file_name, b"sub/b.txt".to_vec());
    assert_eq!(dir.entries[0].offset, 0);
    assert_eq!(dir.entries[1].offset, 5);
    assert_eq!(dir.entries[0].size, 5);
    assert_eq!(dir.entries[1].size, 3);
    assert_eq!(dir.entries[0].start, 4 + 2 * 108 + 0);
    assert_eq!(dir.entries[1].start, 4 + 2 * 108 + 5);
    assert_eq!(extract_member(&archive, &dir.entries[0], ZeroSizeRule::Empty), b"hello".to_vec());
    assert_eq!(extract_member(&archive, &dir.entries[1], ZeroSizeRule::Empty), b"abc".to_vec());
}

#[test]
fn encoded_layout_is_exact() {
    let archive = encode_archive(&two_members());
    assert_eq!(archive.len(), 4 + 2 * 108 + 8);
    assert_eq!(&archive[0..4], &[2, 0, 0, 0]);
    assert_eq!(&archive[4..9], b"a.txt");
    assert_eq!(archive[9], 0);
    assert!(archive[10..104].iter().all(|&b| b == 0xCC));
    assert_eq!(&archive[104..108], &[0, 0, 0, 0]);
    assert_eq!(&archive[108..112], &[5, 0, 0, 0]);
    let second = 4 + 108;
    assert_eq!(&archive[second..second + 9], b"sub/b.txt");
    assert_eq!(archive[second + 9], 0);
    assert!(archive[second + 10..second + 100].iter().all(|&b| b == 0xCC));
    assert_eq!(&archive[second + 100..second + 104], &[5, 0, 0, 0]);
    assert_eq!(&archive[second + 104..second + 108], &[3, 0, 0, 0]);
    assert_eq!(&archive[220..], b"helloabc");
}

#[test]
fn decode_then_encode_reproduces_archive() {
    let original = pack(&vec![
        member("x/one.bin", &[1, 2, 3]),
        member("empty", &[]),
        member("two", &[9; 40]),
    ])
    .unwrap();
    let dir = parse_boxes(&original).unwrap();
    let members: Vec<Member> = dir
        .entries
        .iter()
        .map(|e| Member {
            name: e.file_name.clone(),
            data: extract_member(&original, e, ZeroSizeRule::Empty),
        })
        .collect();
    assert_eq!(pack(&members).unwrap(), original);
}

#[test]
fn empty_archive() {
    let archive = pack(&vec![]).unwrap();
    assert_eq!(archive, vec![0, 0, 0, 0]);
    let dir = parse_boxes(&archive).unwrap();
    assert_eq!(dir.entry_count, 0);
    assert_eq!(dir.data_start, 4);
}

#[test]
fn short_header_is_malformed() {
    assert_eq!(parse_boxes(&[1, 0, 0]).unwrap_err(), PakError::MalformedHeader);
    assert_eq!(parse_boxes(&[]).unwrap_err(), PakError::MalformedHeader);
}

#[test]
fn table_past_end_is_malformed() {
    let mut archive = pack(&two_members()).unwrap();
    archive[0] = 3;
    assert_eq!(parse_boxes(&archive).unwrap_err(), PakError::MalformedHeader);
    let archive = pack(&two_members()).unwrap();
    assert_eq!(parse_boxes(&archive[..4 + 108 + 50]).unwrap_err(), PakError::MalformedHeader);
}

#[test]
fn name_without_terminator_is_malformed() {
    let mut archive = pack(&two_members()).unwrap();
    for b in &mut archive[4..104] {
        *b = b'x';
    }
    assert_eq!(parse_boxes(&archive).unwrap_err(), PakError::MalformedHeader);
}

#[test]
fn payload_past_end_is_truncated() {
    let archive = pack(&two_members()).unwrap();
    assert_eq!(parse_boxes(&archive[..archive.len() - 1]).unwrap_err(), PakError::TruncatedPayload);
    let mut archive = pack(&two_members()).unwrap();
    archive[4 + 108 + 100] = 6;
    assert_eq!(parse_boxes(&archive).unwrap_err(), PakError::TruncatedPayload);
}

#[test]
fn padding_is_ignored_on_read() {
    let mut archive = pack(&two_members()).unwrap();
    for b in &mut archive[10..104] {
        *b = 0;
    }
    let dir = parse_boxes(&archive).unwrap();
    assert_eq!(dir.entries[0].file_name, b"a.txt".to_vec());
}

#[test]
fn zero_size_rules() {
    let archive = pack(&vec![member("e", &[]), member("f", &[7, 8])]).unwrap();
    let dir = parse_boxes(&archive).unwrap();
    assert_eq!(extract_member(&archive, &dir.entries[0], ZeroSizeRule::Empty), Vec::<u8>::new());
    assert_eq!(extract_member(&archive, &dir.entries[0], ZeroSizeRule::ToEnd), vec![7, 8]);
    assert_eq!(extract_member(&archive, &dir.entries[1], ZeroSizeRule::ToEnd), vec![7, 8]);
}

#[test]
fn pack_refuses_bad_names() {
    let long = "n".repeat(100);
    assert_eq!(pack(&vec![member("ok", &[]), member(&long, &[])]).unwrap_err(), PackError::BadName(1));
    let longest = "n".repeat(99);
    assert!(pack(&vec![member(&longest, &[1])]).is_ok());
    assert_eq!(pack(&vec![member("a\0b", &[])]).unwrap_err(), PackError::BadName(0));
}
