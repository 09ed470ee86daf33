use bigpack::{archive_fits, build_archive, FileData, FormatError, Kind};

const HEADER_LEN: usize = 16;

fn be32(b: &[u8]) -> u32 {
    ((b[0] as u32) << 24) | ((b[1] as u32) << 16) | ((b[2] as u32) << 8) | (b[3] as u32)
}

fn file(name: &str, data: &[u8]) -> FileData {
    FileData::new(name.as_bytes().to_vec(), data.to_vec())
}

#[test]
fn empty_directory_packs_to_bare_header() {
    let buf = build_archive(Kind::Big4, Vec::new(), None).unwrap();
    assert_eq!(buf.len(), HEADER_LEN);
    assert_eq!(&buf[0..4], b"BIG4");
    assert_eq!(&buf[4..8], &[0, 0, 0, 0]);
    assert_eq!(be32(&buf[8..12]), 0);
    assert_eq!(be32(&buf[12..16]), HEADER_LEN as u32);
}

#[test]
fn empty_directory_data_start_shifts_with_side_channel() {
    let secret = [7u8; 5];
    let buf = build_archive(Kind::Big4, Vec::new(), Some(&secret)).unwrap();
    assert_eq!(buf.len(), HEADER_LEN + 5);
    assert_eq!(be32(&buf[8..12]), 0);
    assert_eq!(be32(&buf[12..16]), (HEADER_LEN + 5) as u32);
    assert_eq!(&buf[16..21], &secret);
}

#[test]
fn bigf_magic_tag() {
    let buf = build_archive(Kind::BigF, Vec::new(), None).unwrap();
    assert_eq!(&buf[0..4], b"BIGF");
}

#[test]
fn unknown_kind_is_refused() {
    let files = vec![file("a", b"xyz")];
    let r = build_archive(Kind::Unknown, files, None);
    assert_eq!(r, Err(FormatError::UnrecognizedKind));
}

#[test]
fn three_files_are_sorted_and_contiguous() {
    // Lengths {20, 5, 10} must come out in table order {5, 10, 20}.
    let files = vec![
        file("a", &[1u8; 20]),
        file("b", &[2u8; 5]),
        file("c", &[3u8; 10]),
    ];
    let buf = build_archive(Kind::Big4, files, None).unwrap();
    // Each record is 4 + 4 + 1 (name) + 1 (NUL) = 10 bytes.
    let table_size = 30;
    let d = (HEADER_LEN + table_size) as u32;
    assert_eq!(be32(&buf[8..12]), 3);
    assert_eq!(be32(&buf[12..16]), d);
    // Record 0: offset d, length 5, name "b".
    assert_eq!(be32(&buf[16..20]), d);
    assert_eq!(be32(&buf[20..24]), 5);
    assert_eq!(buf[24], b'b');
    assert_eq!(buf[25], 0);
    // Record 1: offset d + 5, length 10, name "c".
    assert_eq!(be32(&buf[26..30]), d + 5);
    assert_eq!(be32(&buf[30..34]), 10);
    assert_eq!(buf[34], b'c');
    assert_eq!(buf[35], 0);
    // Record 2: offset d + 15, length 20, name "a".
    assert_eq!(be32(&buf[36..40]), d + 15);
    assert_eq!(be32(&buf[40..44]), 20);
    assert_eq!(buf[44], b'a');
    assert_eq!(buf[45], 0);
    // Data region: contents concatenated in table order, no padding.
    assert_eq!(&buf[46..51], &[2u8; 5]);
    assert_eq!(&buf[51..61], &[3u8; 10]);
    assert_eq!(&buf[61..81], &[1u8; 20]);
    assert_eq!(buf.len(), 81);
}

#[test]
fn every_entry_round_trips_through_its_table_range() {
    let contents: [&[u8]; 3] = [b"hello world, this is long", b"hi", b"medium length"];
    let files = vec![
        file("first", contents[0]),
        file("second", contents[1]),
        file("third", contents[2]),
    ];
    let originals: Vec<Vec<u8>> = contents.iter().map(|c| c.to_vec()).collect();
    let buf = build_archive(Kind::Big4, files, None).unwrap();
    let count = be32(&buf[8..12]) as usize;
    assert_eq!(count, 3);
    let mut pos = HEADER_LEN;
    let mut recovered: Vec<Vec<u8>> = Vec::new();
    for _ in 0..count {
        let off = be32(&buf[pos..pos + 4]) as usize;
        let len = be32(&buf[pos + 4..pos + 8]) as usize;
        recovered.push(buf[off..off + len].to_vec());
        pos += 8;
        while buf[pos] != 0 {
            pos += 1;
        }
        pos += 1;
    }
    // Every original content must be recovered exactly, in sorted order.
    assert_eq!(recovered[0], originals[1]);
    assert_eq!(recovered[1], originals[2]);
    assert_eq!(recovered[2], originals[0]);
}

#[test]
fn side_channel_shifts_data_start_by_its_length() {
    let files = || {
        vec![
            file("a", &[1u8; 20]),
            file("b", &[2u8; 5]),
            file("c", &[3u8; 10]),
        ]
    };
    let secret = [0xABu8; 16];
    let plain = build_archive(Kind::Big4, files(), None).unwrap();
    let with = build_archive(Kind::Big4, files(), Some(&secret)).unwrap();
    let d0 = be32(&plain[12..16]);
    let d1 = be32(&with[12..16]);
    assert_eq!(d1, d0 + 16);
    // Same entry count, same lengths and names in the same order.
    assert_eq!(be32(&plain[8..12]), be32(&with[8..12]));
    for rec in 0..3 {
        let p = HEADER_LEN + rec * 10;
        // Offsets shift by exactly 16 as well.
        assert_eq!(be32(&with[p..p + 4]), be32(&plain[p..p + 4]) + 16);
        assert_eq!(&with[p + 4..p + 10], &plain[p + 4..p + 10]);
    }
    // The block itself sits verbatim between table and data region.
    let table_end = HEADER_LEN + 30;
    assert_eq!(&with[table_end..table_end + 16], &secret);
    // The data regions are identical.
    assert_eq!(&with[d1 as usize..], &plain[d0 as usize..]);
}

#[test]
fn equal_lengths_keep_input_order() {
    let files = vec![file("n1", b"xx"), file("n2", b"yy"), file("n0", b"z")];
    let buf = build_archive(Kind::Big4, files, None).unwrap();
    // Table order: "n0" (len 1), then "n1" and "n2" stably.
    let names: Vec<u8> = vec![buf[24], buf[25], buf[35], buf[36], buf[46], buf[47]];
    assert_eq!(&names, &[b'n', b'0', b'n', b'1', b'n', b'2']);
}

#[test]
fn entry_count_is_big_endian() {
    // A data_start above 255 exposes the byte order of the header
    // fields: 16 + 0 + 300 = 316 = 0x013C.
    let secret = [9u8; 300];
    let buf = build_archive(Kind::Big4, Vec::new(), Some(&secret)).unwrap();
    assert_eq!(&buf[12..16], &[0, 0, 0x01, 0x3C]);
}

#[test]
fn fits_accepts_small_and_rejects_oversized() {
    let files = vec![file("a", b"abc")];
    assert!(archive_fits(&files, 0));
    assert!(archive_fits(&files, 1024));
    assert!(!archive_fits(&files, usize::MAX));
    assert!(!archive_fits(&Vec::new(), u32::MAX as usize));
}
