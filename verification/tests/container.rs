use rune_codec::container::{binary_to_words, hex_to_words, parse_binary_file};
use rune_codec::word::Word;

#[test]
fn test_bin_file_loader() {
    let bytes = b"MWvm\x01\x00\x00";
    let file = parse_binary_file(bytes.to_vec()).unwrap();
    assert_eq!(file.header, b"MWvm\x01\x00\x00");
    assert_eq!(file.memory, b"");
    assert_eq!(file.code, b"");

    let bytes = b"MWvm\x01\x07\x08\x01\x02";
    let file = parse_binary_file(bytes.to_vec()).unwrap();
    assert_eq!(file.header, b"MWvm\x01\x07\x08");
    assert_eq!(file.memory, b"\x01");
    assert_eq!(file.code, b"\x02");

    let bytes = b"MWvm\x01\x07\x0b12345678";
    let file = parse_binary_file(bytes.to_vec()).unwrap();
    assert_eq!(file.header, b"MWvm\x01\x07\x0b");
    assert_eq!(file.memory, b"1234");
    assert_eq!(file.code, b"5678");
}

#[test]
fn test_hex_to_words() {
    let hex_string = "12345678".to_string();
    let words = hex_to_words(hex_string).unwrap();
    assert_eq!(words.len(), 2);
    assert_eq!(words[0].value(), 0x1234);
    assert_eq!(words[1].value(), 0x5678);
}

#[test]
fn test_binary_to_words() {
    let input = vec![0x12, 0x34, 0x56, 0x78];
    let words = binary_to_words(input);
    assert_eq!(words.len(), 2);
    assert_eq!(words[0].value(), 0x1234);
    assert_eq!(words[1].value(), 0x5678);
}

fn refused(bytes: &[u8]) -> String {
    match parse_binary_file(bytes.to_vec()) {
        Ok(_) => panic!("accepted"),
        Err(message) => message,
    }
}

#[test]
fn containers_that_are_refused() {
    assert_eq!(refused(b""), "Malformed header, file too short.");
    assert_eq!(refused(b"MWvm\x01\x00"), "Malformed header, file too short.");
    assert_eq!(refused(b"MWvn\x01\x00\x00"), "Invalid magic number.");
    assert_eq!(refused(b"mWvm\x01\x00\x00"), "Invalid magic number.");
    assert_eq!(refused(b"MWvm\x02\x00\x00"), "Unsupported version 2.");
    assert_eq!(refused(b"MWvm\x03\x07\x08"), "Unsupported version 3.");
    assert_eq!(refused(b"MWvm\xff\x00\x00"), "Unsupported version 255.");
    assert_eq!(refused(b"MWvm\x01\x08\x00"), "Malformed header, region out of range.");
    assert_eq!(refused(b"MWvm\x01\x00\x08"), "Malformed header, region out of range.");
    assert_eq!(refused(b"MWvm\x01\x09\x08\x00\x00"), "Malformed header, region out of range.");
}

#[test]
fn containers_with_one_region() {
    let file = parse_binary_file(b"MWvm\x00\x07\x00abc".to_vec()).unwrap();
    assert_eq!(file.memory_start, 7);
    assert_eq!(file.code_start, 0);
    assert_eq!(file.memory, b"abc");
    assert_eq!(file.code, b"");
    let file = parse_binary_file(b"MWvm\x00\x00\x08abc".to_vec()).unwrap();
    assert_eq!(file.memory, b"");
    assert_eq!(file.code, b"bc");
    let file = parse_binary_file(b"MWvm\x01\x07\x07".to_vec()).unwrap();
    assert_eq!(file.memory, b"");
    assert_eq!(file.code, b"");
}

#[test]
fn an_odd_byte_at_the_end_is_dropped() {
    assert_eq!(binary_to_words(vec![0xab, 0xcd, 0xef]), vec![Word::new(0xabcd)]);
    assert_eq!(binary_to_words(vec![0xab]), Vec::<Word>::new());
    assert_eq!(binary_to_words(Vec::new()), Vec::<Word>::new());
    assert_eq!(binary_to_words(vec![0, 1, 0xff, 0xff]), vec![Word::new(1), Word::new(0xffff)]);
}

#[test]
fn hex_text_ignores_white_space() {
    let words = hex_to_words(" 12 34\n56\t78 \r\n".to_string()).unwrap();
    assert_eq!(words, vec![Word::new(0x1234), Word::new(0x5678)]);
    assert_eq!(hex_to_words("".to_string()).unwrap(), Vec::<Word>::new());
    assert_eq!(hex_to_words(" \n ".to_string()).unwrap(), Vec::<Word>::new());
    assert_eq!(hex_to_words("DeadBEEF".to_string()).unwrap(), vec![Word::new(0xdead), Word::new(0xbeef)]);
}

#[test]
fn a_short_last_group_is_filled_with_zeros() {
    assert_eq!(hex_to_words("1".to_string()).unwrap(), vec![Word::new(0x1000)]);
    assert_eq!(hex_to_words("12".to_string()).unwrap(), vec![Word::new(0x1200)]);
    assert_eq!(hex_to_words("123".to_string()).unwrap(), vec![Word::new(0x1230)]);
    assert_eq!(
        hex_to_words("12345".to_string()).unwrap(),
        vec![Word::new(0x1234), Word::new(0x5000)]
    );
}

#[test]
fn hex_text_with_another_character_is_refused() {
    assert_eq!(hex_to_words("12g4".to_string()), Err("Invalid hex digit.".to_string()));
    assert_eq!(hex_to_words("0x1234".to_string()), Err("Invalid hex digit.".to_string()));
    assert_eq!(hex_to_words("ᛜᛞᛖᛜ".to_string()), Err("Invalid hex digit.".to_string()));
    assert_eq!(hex_to_words("+123".to_string()), Err("Invalid hex digit.".to_string()));
}
