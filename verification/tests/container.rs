use huffman_compression::{CodeTable, HuffmanCompression, HuffmanError};

fn coder() -> HuffmanCompression {
    HuffmanCompression {
        src: "in.txt".to_string(),
        dst: "out.bin".to_string(),
    }
}

#[test]
fn encode_writes_the_container_layout() {
    let bytes = coder().encode("abb").unwrap();
    // a is the lighter leaf and goes left: a = 0, b = 1; three symbols;
    // the text is 011, filled up to 01100000.
    let expected: Vec<u8> = vec![
        b'H', b'U', b'F', b'F', 0, 0, 0, 8, 1, b'a', 1, b'0', 1, b'b', 1, b'1', 0, 0, 0, 0, 0, 0,
        0, 3, 0x60,
    ];
    assert_eq!(bytes, expected);
}

#[test]
fn encode_writes_the_count_most_significant_byte_first() {
    let text = "ab".repeat(150);
    let bytes = coder().encode(&text).unwrap();
    assert_eq!(&bytes[16..24], &[0, 0, 0, 0, 0, 0, 0x01, 0x2C]);
    assert_eq!(coder().decode(&bytes), Ok(text));
}

#[test]
fn write_header_appends_magic_length_and_entries() {
    let mut table = CodeTable::new();
    table.insert('\u{20ac}', vec![true, false, true]);
    table.insert('A', vec![false]);
    let mut bytes = vec![7u8];
    coder().write_header(&mut bytes, &table);
    let expected: Vec<u8> = vec![
        7, b'H', b'U', b'F', b'F', 0, 0, 0, 12, 1, b'A', 1, b'0', 3, 0xE2, 0x82, 0xAC, 3, b'1',
        b'0', b'1',
    ];
    assert_eq!(bytes, expected);
}

#[test]
fn write_header_writes_the_length_most_significant_byte_first() {
    let mut table = CodeTable::new();
    for i in 0..100u32 {
        let symbol = char::from_u32(0x100 + i).unwrap();
        table.insert(symbol, vec![true; 8]);
    }
    let mut bytes = Vec::new();
    coder().write_header(&mut bytes, &table);
    // each entry: 1 + 2 + 1 + 8 bytes
    assert_eq!(&bytes[4..8], &[0, 0, 0x04, 0xB0]);
    assert_eq!(bytes.len(), 8 + 1200);
}

#[test]
fn encode_content_packs_the_codes() {
    let mut table = CodeTable::new();
    table.insert('a', vec![true]);
    table.insert('b', vec![false, true]);
    table.insert('c', vec![false, false]);
    // 1 01 00 1 1 01 | 00 filled up with six bits
    let bytes = coder().encode_content("abcaabc", &table).unwrap();
    assert_eq!(bytes, vec![0b1010_0110, 0b1000_0000]);
    let bytes = coder().encode_content("", &table).unwrap();
    assert_eq!(bytes, Vec::<u8>::new());
    let bytes = coder().encode_content("aaaaaaaa", &table).unwrap();
    assert_eq!(bytes, vec![0xFF]);
}

#[test]
fn encode_content_misses_a_code() {
    let mut table = CodeTable::new();
    table.insert('a', vec![true]);
    let result = coder().encode_content("ab", &table);
    assert_eq!(result, Err(HuffmanError::MissingCode));
    assert!(HuffmanError::MissingCode.is_encoding_error());
    assert!(!HuffmanError::MissingCode.is_format_error());
}

#[test]
fn decode_rejects_a_wrong_magic() {
    let mut bytes = coder().encode("abb").unwrap();
    bytes[0] = b'X';
    assert_eq!(coder().decode(&bytes), Err(HuffmanError::BadMagic));
    assert_eq!(coder().decode(b"HU"), Err(HuffmanError::BadMagic));
    assert_eq!(coder().decode(b""), Err(HuffmanError::BadMagic));
    assert_eq!(coder().decode(b"huff\0\0\0\0"), Err(HuffmanError::BadMagic));
    assert!(HuffmanError::BadMagic.is_format_error());
    assert!(!HuffmanError::BadMagic.is_encoding_error());
    assert_eq!(HuffmanError::BadMagic.message(), "not huffman compression file!");
}

#[test]
fn decode_rejects_a_container_that_ends_early() {
    let bytes = coder().encode("abb").unwrap();
    assert_eq!(bytes.len(), 25);
    // inside the head, inside the count, and before the bits of the text
    for len in 4..25 {
        assert_eq!(coder().decode(&bytes[..len]), Err(HuffmanError::Truncated));
    }
    assert_eq!(coder().decode(&bytes), Ok("abb".to_string()));
    assert!(HuffmanError::Truncated.is_format_error());
}

#[test]
fn decode_rejects_a_table_length_off_an_entry() {
    let mut bytes = coder().encode("abb").unwrap();
    bytes[7] = 7;
    assert_eq!(coder().decode(&bytes), Err(HuffmanError::BadTable));
    bytes[7] = 3;
    assert_eq!(coder().decode(&bytes), Err(HuffmanError::BadTable));
    assert!(HuffmanError::BadTable.is_format_error());
    assert!(!HuffmanError::BadTable.is_text_error());
}

#[test]
fn decode_rejects_an_entry_without_a_symbol() {
    let bytes: Vec<u8> = vec![b'H', b'U', b'F', b'F', 0, 0, 0, 3, 0, 1, b'0', 0x00];
    assert_eq!(coder().decode(&bytes), Err(HuffmanError::BadTable));
}

#[test]
fn decode_rejects_bytes_that_are_not_utf8() {
    let symbol: Vec<u8> = vec![b'H', b'U', b'F', b'F', 0, 0, 0, 4, 1, 0xFF, 1, b'0', 0x00];
    assert_eq!(coder().decode(&symbol), Err(HuffmanError::BadText));
    let cut: Vec<u8> = vec![b'H', b'U', b'F', b'F', 0, 0, 0, 5, 2, 0xE2, 0x82, 1, b'0'];
    assert_eq!(coder().decode(&cut), Err(HuffmanError::BadText));
    let code: Vec<u8> = vec![b'H', b'U', b'F', b'F', 0, 0, 0, 4, 1, b'a', 1, 0x80, 0x00];
    assert_eq!(coder().decode(&code), Err(HuffmanError::BadText));
    assert!(HuffmanError::BadText.is_text_error());
    assert!(HuffmanError::BadText.is_format_error());
}

#[test]
fn decode_takes_the_first_character_of_a_longer_symbol() {
    let bytes: Vec<u8> = vec![
        b'H', b'U', b'F', b'F', 0, 0, 0, 5, 2, b'x', b'y', 1, b'1', 0, 0, 0, 0, 0, 0, 0, 2,
        0b1100_0000,
    ];
    assert_eq!(coder().decode(&bytes), Ok("xx".to_string()));
}

#[test]
fn decode_reads_symbols_of_several_bytes() {
    let bytes: Vec<u8> = vec![
        b'H', b'U', b'F', b'F', 0, 0, 0, 14, 3, 0xE2, 0x82, 0xAC, 1, b'1', 4, 0xF0, 0x9F, 0x98,
        0x80, 2, b'0', b'1', 0, 0, 0, 0, 0, 0, 0, 5, 0b1011_1010,
    ];
    let text = "\u{20ac}\u{1f600}\u{20ac}\u{20ac}\u{1f600}";
    assert_eq!(coder().decode(&bytes), Ok(text.to_string()));
}

/// A container with the codes a = 11 and b = 10, `count` symbols and
/// the payload 1110 0111.
fn two_codes(count: u8) -> Vec<u8> {
    vec![
        b'H', b'U', b'F', b'F', 0, 0, 0, 10, 1, b'a', 2, b'1', b'1', 1, b'b', 2, b'1', b'0', 0, 0,
        0, 0, 0, 0, 0, count, 0b1110_0111,
    ]
}

#[test]
fn decode_reads_as_many_symbols_as_the_container_says() {
    assert_eq!(coder().decode(&two_codes(2)), Ok("ab".to_string()));
    assert_eq!(coder().decode(&two_codes(1)), Ok("a".to_string()));
    assert_eq!(coder().decode(&two_codes(0)), Ok(String::new()));
}

#[test]
fn decode_refuses_bits_that_spell_too_few_symbols() {
    // after 11 10 the bits go on with 01, which no code begins with
    assert_eq!(coder().decode(&two_codes(3)), Err(HuffmanError::Truncated));
    let mut bytes = two_codes(3);
    bytes.pop();
    assert_eq!(coder().decode(&bytes), Err(HuffmanError::Truncated));
}

#[test]
fn decode_does_not_read_the_filling() {
    // a = 0, b = 1: six 0 bits fill the byte and are no symbols
    let bytes = coder().encode("ab").unwrap();
    assert_eq!(bytes[bytes.len() - 1], 0b0100_0000);
    assert_eq!(coder().decode(&bytes), Ok("ab".to_string()));
}

#[test]
fn decode_gives_the_symbol_of_an_empty_code_each_time() {
    let bytes: Vec<u8> = vec![
        b'H', b'U', b'F', b'F', 0, 0, 0, 3, 1, b'a', 0, 0, 0, 0, 0, 0, 0, 0, 4,
    ];
    assert_eq!(coder().decode(&bytes), Ok("aaaa".to_string()));
}

#[test]
fn decode_prefers_the_later_of_two_entries() {
    // the code 1 stands twice: the later entry wins, as in a map
    let bytes: Vec<u8> = vec![
        b'H', b'U', b'F', b'F', 0, 0, 0, 8, 1, b'a', 1, b'1', 1, b'b', 1, b'1', 0, 0, 0, 0, 0, 0,
        0, 2, 0b1100_0000,
    ];
    assert_eq!(coder().decode(&bytes), Ok("bb".to_string()));
}

#[test]
fn decode_passes_by_a_code_that_is_no_bit_string() {
    let mut bytes: Vec<u8> = vec![
        b'H', b'U', b'F', b'F', 0, 0, 0, 9, 1, b'a', 1, b'1', 1, b'b', 2, b'0', b'2', 0, 0, 0, 0,
        0, 0, 0, 1, 0b1000_0000,
    ];
    assert_eq!(coder().decode(&bytes), Ok("a".to_string()));
    bytes[24] = 2;
    assert_eq!(coder().decode(&bytes), Err(HuffmanError::Truncated));
}

#[test]
fn decode_of_a_container_without_symbols_is_empty() {
    let head: Vec<u8> = vec![b'H', b'U', b'F', b'F', 0, 0, 0, 0];
    assert_eq!(coder().decode(&head), Err(HuffmanError::Truncated));
    let bytes: Vec<u8> = vec![b'H', b'U', b'F', b'F', 0, 0, 0, 0, 0, 0, 0, 0, 0, 0, 0, 0];
    assert_eq!(coder().decode(&bytes), Ok(String::new()));
    let bytes: Vec<u8> = vec![b'H', b'U', b'F', b'F', 0, 0, 0, 0, 0, 0, 0, 0, 0, 0, 0, 0, 0xAB];
    assert_eq!(coder().decode(&bytes), Ok(String::new()));
    let bytes: Vec<u8> = vec![b'H', b'U', b'F', b'F', 0, 0, 0, 0, 0, 0, 0, 0, 0, 0, 0, 1, 0xAB];
    assert_eq!(coder().decode(&bytes), Err(HuffmanError::Truncated));
}

#[test]
fn decode_reads_a_long_table() {
    let mut text = String::new();
    for i in 0..300u32 {
        let symbol = char::from_u32(0x4E00 + i).unwrap();
        for _ in 0..(i % 5 + 1) {
            text.push(symbol);
        }
    }
    let bytes = coder().encode(&text).unwrap();
    // more than 255 bytes of table: the length needs its second byte
    assert!(bytes[6] > 0);
    assert_eq!(coder().decode(&bytes), Ok(text));
}
