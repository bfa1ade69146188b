use hex_dump::{
    address_to_hex, byte_to_hex, byte_to_string, data_row, dump_bytes, gen_block, join_strings,
    locations_header, lowercase_ascii, CommandLine, DumpSession, Render,
};

#[test]
fn hex_pairs_have_two_digits_and_read_back() {
    for b in 0..=255u8 {
        let s = byte_to_hex(&b);
        assert_eq!(s.len(), 2);
        assert_eq!(u8::from_str_radix(&s, 16).unwrap(), b);
    }
    assert_eq!("FF", byte_to_hex(&255u8));
    assert_eq!("AB", byte_to_hex(&0xabu8));
}

#[test]
fn addresses_are_fixed_width_and_ordered() {
    let samples: [u32; 8] = [0, 1, 15, 16, 255, 4096, 3735928559, u32::MAX];
    for w in samples.windows(2) {
        let a = address_to_hex(w[0]);
        let b = address_to_hex(w[1]);
        assert_eq!(a.len(), 10);
        assert!(a.starts_with("0x"));
        assert!(a <= b);
    }
    assert_eq!("0xffffffff", address_to_hex(u32::MAX));
}

#[test]
fn printable_bytes_show_as_themselves() {
    assert_eq!(" ", byte_to_string(&0x20u8));
    assert_eq!("~", byte_to_string(&0x7eu8));
    assert_eq!("!", byte_to_string(&0x21u8));
    assert_eq!(".", byte_to_string(&0x1fu8));
    assert_eq!(".", byte_to_string(&0x7fu8));
    assert_eq!(".", byte_to_string(&0xe9u8));
    assert_eq!(".", byte_to_string(&0xffu8));
}

#[test]
fn short_rows_are_padded_for_each_width() {
    let row = data_row(0, &[0x41], 8);
    assert_eq!("0x00000000  41 .. .. .. .. .. .. ..  A.......\n", row);
    let row = data_row(8, &[0x00, 0x7f, 0x2e], 32);
    let hex = "00 7F 2E .. .. .. .. ..  .. .. .. .. .. .. .. ..  .. .. .. .. .. .. .. ..  .. .. .. .. .. .. .. ..";
    let text = format!("...{}", ".".repeat(29));
    assert_eq!(format!("0x00000008  {}  {}\n", hex, text), row);
    let full: Vec<u8> = (0u8..64).map(|i| i + 0x40).collect();
    let row = data_row(0, &full, 64);
    assert!(!row.contains(".."));
    let tail = &row[row.len() - 65..row.len() - 1];
    assert_eq!(tail.len(), 64);
    assert!(tail.starts_with("@ABCDEFGHIJKLMNOPQRSTUVWXYZ[\\]^_`abc"));
}

#[test]
fn header_for_sixty_four_columns() {
    let h = locations_header(64);
    assert!(h.starts_with("            00 01 02 03 04 05 06 07  08"));
    assert!(h.contains("38 39 3a 3b 3c 3d 3e 3f"));
    assert!(h.ends_with(&format!("3f  {}\n", " ".repeat(64))));
    assert_eq!(h, h.to_lowercase());
}

#[test]
fn empty_input_dumps_only_the_header() {
    assert_eq!(locations_header(16), dump_bytes(&[], 16));
    assert_eq!(locations_header(8), dump_bytes(&[], 8));
}

#[test]
fn whole_rows_have_no_padding() {
    let data: Vec<u8> = (0u8..32).map(|i| i + 0x30).collect();
    let out = dump_bytes(&data, 16);
    let expected = format!(
        "{}\n{}{}",
        locations_header(16),
        data_row(0, &data[0..16], 16),
        data_row(16, &data[16..32], 16)
    );
    assert_eq!(expected, out);
    assert!(!out.contains(".."));
}

#[test]
fn last_short_chunk_is_padded() {
    let data: Vec<u8> = (0u8..10).collect();
    let out = dump_bytes(&data, 8);
    let expected = format!(
        "{}\n{}{}",
        locations_header(8),
        data_row(0, &data[0..8], 8),
        data_row(8, &data[8..10], 8)
    );
    assert_eq!(expected, out);
    assert!(out.ends_with("0x00000008  08 09 .. .. .. .. .. ..  ........\n"));
}

#[test]
fn section_break_every_sixteen_full_rows() {
    let data = vec![0u8; 8 * 17];
    let out = dump_bytes(&data, 8);
    let breaks: Vec<&str> = out.split("\n\n").collect();
    assert_eq!(breaks.len(), 3);
    assert!(breaks[2].starts_with("0x00000080"));
}

#[test]
fn session_steps() {
    let mut s = DumpSession::new(16);
    assert_eq!(locations_header(16), s.header());
    assert!(s.next(&[]).is_none());
    assert_eq!(s.address, 0);
    let first = s.next(b"0123").unwrap();
    assert_eq!(format!("\n{}", data_row(0, b"0123", 16)), first);
    assert_eq!(s.address, 4);
    let second = s.next(b"45").unwrap();
    assert_eq!(data_row(4, b"45", 16), second);
    assert_eq!(s.address, 6);
    s.address = 256;
    let third = s.next(b"x").unwrap();
    assert!(third.starts_with("\n0x00000100  78 .."));
}

#[test]
fn blocks_and_joins() {
    let blocks = gen_block(&[1, 2, 3], Render::Hex, 16, " ", "..");
    assert_eq!(
        vec!["01 02 03 .. .. .. .. ..".to_string(), ".. .. .. .. .. .. .. ..".to_string()],
        blocks
    );
    let texts = gen_block(b"Hi\n", Render::Text, 8, "", ".");
    assert_eq!(vec!["Hi......".to_string()], texts);
    let parts = vec!["a".to_string(), "bc".to_string(), "d".to_string()];
    assert_eq!("a--bc--d", join_strings(&parts, "--"));
    assert_eq!("", join_strings(&Vec::new(), "--"));
}

#[test]
fn lowercase_folds_ascii_letters_only() {
    assert_eq!("0xab cdef-z", lowercase_ascii("0xAB CDEF-Z"));
    assert_eq!("É", lowercase_ascii("É"));
}

#[test]
fn column_widths_allowed() {
    for c in [8usize, 16, 32, 64] {
        assert!(CommandLine { input: "f".to_string(), columns: c }.valid());
    }
    for c in [0usize, 1, 12, 24, 128] {
        assert!(!CommandLine { input: "f".to_string(), columns: c }.valid());
    }
}
