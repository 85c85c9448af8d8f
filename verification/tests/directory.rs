use fat32_impl::bytes::{bytes_equal, copy_range, read_u16_le, read_u32_le};
use fat32_impl::file_system::directory::{
    assemble_lfn, byte_to_u16_vec, lfn_checksum, process_data_entry, process_lfn_entry,
    short_name_to_string,
};
use fat32_impl::file_system::path::{find_file, split_path, str_is};
use fat32_impl::file_system::{DirOffsets, FatDir, FileInfo, LfnOffsets, LongFileName};
use fat32_impl::text::{decode_utf16_units, decode_utf8_bytes, decode_utf8_or_empty};

#[test]
fn little_endian_reads() {
    let data = [0x01u8, 0x02, 0x03, 0x04, 0xFF];
    assert_eq!(read_u16_le(&data, 0), 0x0201);
    assert_eq!(read_u16_le(&data, 3), 0xFF04);
    assert_eq!(read_u32_le(&data, 0), 0x0403_0201);
    assert_eq!(read_u32_le(&data, 1), 0xFF04_0302);
    assert_eq!(copy_range(&data, 1, 3), vec![2, 3]);
    assert!(bytes_equal(&data[..2], &[1, 2]));
    assert!(!bytes_equal(&data[..2], &[1, 3]));
    assert!(!bytes_equal(&data[..2], &[1]));
}

#[test]
fn checksum_of_a_short_name() {
    assert_eq!(lfn_checksum(&[0u8; 11]), 0);
    let mut one = [0u8; 11];
    one[10] = 1;
    assert_eq!(lfn_checksum(&one), 1);
    let mut first = [0u8; 11];
    first[0] = 1;
    assert_eq!(lfn_checksum(&first), 0x40);
    assert_eq!(lfn_checksum(b"TEST    TXT"), 0x8F);
    assert_eq!(lfn_checksum(b"TEST_DIR   "), 0x55);
}

#[test]
fn short_names_as_text() {
    assert_eq!(short_name_to_string(b"FILE    TXT"), "FILE.TXT");
    assert_eq!(short_name_to_string(b"NOEXT      "), "NOEXT");
    assert_eq!(short_name_to_string(b"A B     C  "), "A B.C");
    assert_eq!(short_name_to_string(b"           "), "");
    assert_eq!(short_name_to_string(b"        TXT"), ".TXT");
    assert_eq!(short_name_to_string(b"..         "), "..");
    let mut bad = *b"FILE    TXT";
    bad[1] = 0xFF;
    assert_eq!(short_name_to_string(&bad), ".TXT");
    let mut bad_ext = *b"FILE    TXT";
    bad_ext[9] = 0xFF;
    assert_eq!(short_name_to_string(&bad_ext), "FILE");
}

#[test]
fn code_units_of_bytes() {
    assert_eq!(byte_to_u16_vec(&[0x41, 0x00, 0xE9, 0x00, 0x3D, 0xD8]), vec![0x41, 0xE9, 0xD83D]);
    assert_eq!(byte_to_u16_vec(&[0x41, 0x00, 0x42]), vec![0x41]);
    assert!(byte_to_u16_vec(&[]).is_empty());
}

#[test]
fn text_decoding() {
    assert_eq!(decode_utf8_bytes(vec![0x63, 0xC3, 0xA9]), Some("cé".to_string()));
    assert_eq!(decode_utf8_bytes(vec![0xC3]), None);
    assert_eq!(decode_utf8_or_empty(vec![0x41]), "A");
    assert_eq!(decode_utf8_or_empty(vec![0xFF]), "");
    assert_eq!(decode_utf16_units(&[0x63, 0xE9]), Some("cé".to_string()));
    assert_eq!(decode_utf16_units(&[0xD83D, 0xDE00]), Some("\u{1F600}".to_string()));
    assert_eq!(decode_utf16_units(&[0xD83D]), None);
    assert_eq!(decode_utf16_units(&[0xDE00, 0xD83D]), None);
    assert_eq!(decode_utf16_units(&[]), Some(String::new()));
}

#[test]
fn entries_taken_apart() {
    let mut data = [0u8; 32];
    for (i, b) in data.iter_mut().enumerate() {
        *b = i as u8 + 1;
    }
    let entry = FatDir::new(&data);
    assert_eq!(entry.name, [1, 2, 3, 4, 5, 6, 7, 8, 9, 10, 11]);
    assert_eq!(entry.attr, 12);
    assert_eq!(entry.first_cluster_high, 0x1615);
    assert_eq!(entry.first_cluster_low, 0x1C1B);
    assert_eq!(entry.size, 0x201F_1E1D);
    let long = LongFileName::new(&data);
    assert_eq!(long.seq_num, 1);
    assert_eq!(long.name_1, [2, 3, 4, 5, 6, 7, 8, 9, 10, 11]);
    assert_eq!(long.attr, 12);
    assert_eq!(long.l_type, 13);
    assert_eq!(long.chksum, 14);
    assert_eq!(long.name_2, [15, 16, 17, 18, 19, 20, 21, 22, 23, 24, 25, 26]);
    assert_eq!(long.reserved_fch, 0x1C1B);
    assert_eq!(long.name_3, [29, 30, 31, 32]);
    assert_eq!(DirOffsets::Attr.offset(), 11);
    assert_eq!(DirOffsets::Name.offset(), 0);
    assert_eq!(DirOffsets::FstClusHI.offset(), 20);
    assert_eq!(DirOffsets::FstClusLO.offset(), 26);
    assert_eq!(DirOffsets::FileSize.offset(), 28);
    assert_eq!(LfnOffsets::ChkSum.offset(), 13);
    assert_eq!(LfnOffsets::Name3.offset(), 28);
}

fn lfn_entry(first: u8, checksum: u8, unit: u16) -> [u8; 32] {
    let mut e = [0u8; 32];
    e[0] = first;
    e[11] = 0x0F;
    e[13] = checksum;
    for i in 0..13usize {
        let at = if i < 5 {
            1 + 2 * i
        } else if i < 11 {
            14 + 2 * (i - 5)
        } else {
            28 + 2 * (i - 11)
        };
        e[at..at + 2].copy_from_slice(&unit.to_le_bytes());
    }
    e
}

#[test]
fn fragments_are_kept_by_sequence_number() {
    let mut fragments: Vec<(u8, Vec<u16>)> = Vec::new();
    let mut checksum: Option<u8> = None;
    process_lfn_entry(&lfn_entry(0x42, 7, 0x62), &mut fragments, &mut checksum);
    assert_eq!(checksum, Some(7));
    assert_eq!(fragments, vec![(2, vec![0x62; 13])]);
    process_lfn_entry(&lfn_entry(0x01, 9, 0x61), &mut fragments, &mut checksum);
    assert_eq!(checksum, Some(7));
    assert_eq!(fragments, vec![(2, vec![0x62; 13]), (1, vec![0x61; 13])]);
    process_lfn_entry(&lfn_entry(0x02, 9, 0x63), &mut fragments, &mut checksum);
    assert_eq!(fragments, vec![(2, vec![0x63; 13]), (1, vec![0x61; 13])]);
    process_lfn_entry(&lfn_entry(0x41, 5, 0x64), &mut fragments, &mut checksum);
    assert_eq!(checksum, Some(5));
    assert_eq!(fragments, vec![(1, vec![0x64; 13])]);
    process_lfn_entry(&lfn_entry(0xA3, 5, 0x65), &mut fragments, &mut checksum);
    assert_eq!(fragments, vec![(1, vec![0x64; 13]), (3, vec![0x65; 13])]);
}

#[test]
fn fragments_are_put_together_in_order() {
    assert_eq!(assemble_lfn(&Vec::new()), None);
    let fragments = vec![(2u8, vec![0x63u16, 0, 0xFFFF]), (1u8, vec![0x61u16, 0xFFFF, 0x62])];
    assert_eq!(assemble_lfn(&fragments), Some("abc".to_string()));
    let cut = vec![(1u8, vec![0x61u16, 0, 0x62]), (2u8, vec![0x63u16])];
    assert_eq!(assemble_lfn(&cut), Some("a".to_string()));
    let same = vec![(1u8, vec![0x61u16]), (1u8, vec![0x62u16]), (0u8, vec![0x7A])];
    assert_eq!(assemble_lfn(&same), Some("zab".to_string()));
    let high = vec![(200u8, vec![0x62u16]), (31u8, vec![0x61u16])];
    assert_eq!(assemble_lfn(&high), Some("ab".to_string()));
    let broken = vec![(1u8, vec![0xD800u16])];
    assert_eq!(assemble_lfn(&broken), None);
    let empty = vec![(1u8, vec![0u16])];
    assert_eq!(assemble_lfn(&empty), Some(String::new()));
}

fn standard(name: &[u8; 11], attr: u8) -> [u8; 32] {
    let mut e = [0u8; 32];
    e[..11].copy_from_slice(name);
    e[11] = attr;
    e[26] = 9;
    e[28] = 3;
    e
}

#[test]
fn standard_entries_with_and_without_a_long_name() {
    let short = b"TEST    TXT";
    let mut fragments = vec![(1u8, vec![0x6Fu16, 0x6B, 0])];
    let mut checksum = Some(lfn_checksum(short));
    let info = process_data_entry(&standard(short, 0x20), &mut fragments, &mut checksum, 0x10);
    assert!(info == Some(FileInfo::new("ok".to_string(), false, 3, 9)));
    assert_eq!(fragments.len(), 1);

    let mut checksum = Some(lfn_checksum(short).wrapping_add(1));
    let info = process_data_entry(&standard(short, 0x10), &mut fragments, &mut checksum, 0x10);
    assert!(info == Some(FileInfo::new("TEST.TXT".to_string(), true, 3, 9)));
    assert!(fragments.is_empty());

    let mut fragments = vec![(1u8, vec![0x6Fu16])];
    let mut checksum = None;
    let info = process_data_entry(&standard(short, 0x20), &mut fragments, &mut checksum, 0x20);
    assert!(info == Some(FileInfo::new("TEST.TXT".to_string(), true, 3, 9)));
    assert!(fragments.is_empty());

    let mut fragments = vec![(1u8, vec![0x6Fu16])];
    let mut checksum = Some(lfn_checksum(short));
    let info = process_data_entry(&standard(short, 0x28), &mut fragments, &mut checksum, 0x10);
    assert!(info.is_none());
    assert_eq!(fragments.len(), 1);
    assert_eq!(checksum, Some(lfn_checksum(short)));
}

#[test]
fn paths_split_at_slashes() {
    let parts = split_path(b"/a//bc/./../d/");
    let expected: Vec<Vec<u8>> =
        vec![b"a".to_vec(), b"bc".to_vec(), b".".to_vec(), b"..".to_vec(), b"d".to_vec()];
    assert_eq!(parts, expected);
    assert!(split_path(b"").is_empty());
    assert!(split_path(b"///").is_empty());
    assert_eq!(split_path(b"one"), vec![b"one".to_vec()]);
}

#[test]
fn names_are_found_byte_for_byte() {
    let files = vec![
        FileInfo::new("a".to_string(), false, 1, 3),
        FileInfo::new("é".to_string(), false, 2, 4),
        FileInfo::new("a".to_string(), true, 3, 5),
    ];
    assert_eq!(find_file(&files, b"a"), Some(0));
    assert_eq!(find_file(&files, "é".as_bytes()), Some(1));
    assert_eq!(find_file(&files, b"A"), None);
    assert_eq!(find_file(&files, b""), None);
    assert!(str_is("..", ".."));
    assert!(!str_is(".", ".."));
    let copy = files[1].clone();
    assert!(copy == files[1]);
    assert!(files[0] != files[2]);
}
