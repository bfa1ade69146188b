use hex_dump::{address_to_hex, byte_to_hex, byte_to_string, create_row, data_row, locations_header};

#[test]
fn test_byte_to_char() {
    assert_eq!(".", byte_to_string(&0u8));
    assert_eq!("A", byte_to_string(&65u8));
}

#[test]
fn test_byte_to_hex() {
    assert_eq!("00", byte_to_hex(&0u8));
    assert_eq!("0F", byte_to_hex(&15u8));
    assert_eq!("10", byte_to_hex(&16u8));
}

#[test]
fn test_address_to_hex() {
    assert_eq!("0x00000000", address_to_hex(0));
    assert_eq!("0x00000010", address_to_hex(16));
    assert_eq!("0x000000ff", address_to_hex(255));
    assert_eq!("0xdeadbeef", address_to_hex(3735928559));
}

#[test]
fn test_header_8() {
    assert_eq!("            00 01 02 03 04 05 06 07          \n", locations_header(8));
}

#[test]
fn test_header_16() {
    assert_eq!(
        "            00 01 02 03 04 05 06 07  08 09 0a 0b 0c 0d 0e 0f                  \n",
        locations_header(16)
    );
}

#[test]
fn test_header_32() {
    assert_eq!("            00 01 02 03 04 05 06 07  08 09 0a 0b 0c 0d 0e 0f  10 11 12 13 14 15 16 17  18 19 1a 1b 1c 1d 1e 1f                                  \n", locations_header(32));
}

#[test]
fn test_row() {
    let data: [u8; 16] = [
        48 + 0, 48 + 1, 48 + 2, 48 + 3, 48 + 4, 48 + 5, 48 + 6, 48 + 7, 48 + 8, 48 + 9, 55 + 10,
        55 + 11, 55 + 12, 55 + 13, 55 + 14, 55 + 15,
    ];
    assert_eq!(
        "0xdeadbeef  30 31 32 33 34 35 36 37  38 39 41 42 43 44 45 46  0123456789ABCDEF\n",
        data_row(3735928559, &data, 16)
    );
}

#[test]
fn test_short_row() {
    let data: [u8; 4] = [48 + 0, 48 + 1, 48 + 2, 48 + 3];
    assert_eq!(
        "0xdeadbeef  30 31 32 33 .. .. .. ..  .. .. .. .. .. .. .. ..  0123............\n",
        data_row(3735928559, &data, 16)
    );

    let data: [u8; 12] = [
        48 + 0, 48 + 1, 48 + 2, 48 + 3, 48 + 4, 48 + 5, 48 + 6, 48 + 7, 48 + 8, 48 + 9, 55 + 10,
        55 + 11,
    ];
    assert_eq!(
        "0xdeadbeef  30 31 32 33 34 35 36 37  38 39 41 42 .. .. .. ..  0123456789AB....\n",
        data_row(3735928559, &data, 16)
    );
}

#[test]
fn test_create_row() {
    assert_eq!("address  data  text\n", create_row("address", "data", "text"));
}
