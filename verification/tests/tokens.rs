use rune_codec::command::{words_to_runes, words_to_string};
use rune_codec::tokens::{
    char_to_rune, encode_words, rune_to_char, string_to_rune, to_word, WordGroup,
    WordGroupConstructor, WordReader,
};
use rune_codec::word::Word;

fn words_of(values: Vec<u16>) -> Vec<Word> {
    values.into_iter().map(Word::new).collect()
}

#[test]
fn test_word_groups() {
    assert_eq!(string_to_rune(&WordGroup::ZeroChain(3).to_string()), "ᛃᚠ");
    assert_eq!(string_to_rune(&WordGroup::Word(Word::new(0xdead)).to_string()), "ᛜᛞᛖᛜ");
    assert_eq!(string_to_rune(&WordGroup::HighNibble(0x5000, None).to_string()), "ᛇᚲ");
    assert_eq!(string_to_rune(&WordGroup::LowNibble(0xf, None).to_string()), "ᛟ×");
    assert_eq!(string_to_rune(&WordGroup::HighByte(0x3300, None).to_string()), "ᛃᛃᚲ");
    assert_eq!(string_to_rune(&WordGroup::LowByte(0x42, None).to_string()), "ᛈᛁ×");
    assert_eq!(string_to_rune(&WordGroup::HighNibble(0x5000, Some(4)).to_string()), "ᛇᚲᛈᚱ");
    assert_eq!(string_to_rune(&WordGroup::LowNibble(0xf, Some(2)).to_string()), "ᛟ×ᛁᚱ");
    assert_eq!(string_to_rune(&WordGroup::HighByte(0x3300, Some(6)).to_string()), "ᛃᛃᚲᛉᚱ");
    assert_eq!(string_to_rune(&WordGroup::LowByte(0x42, Some(5)).to_string()), "ᛈᛁ×ᛇᚱ");
}

#[test]
fn test_word_group_reader() {
    let words = vec![
        Word::new(0x0000),
        Word::new(0x0001),
        Word::new(0x0001),
        Word::new(0x0002),
        Word::new(0x0002),
        Word::new(0x0002),
    ];

    let mut reader = WordReader::new(words.clone());

    assert_eq!(reader.next(), Some(Word::new(0x0000)));
    assert_eq!(reader.peek(), Some(Word::new(0x0001)));
    assert_eq!(reader.count_ahead(|w| w == Word::new(0x0001)), 2);
}

#[test]
fn test_vector() {
    let v = Word::new(0xdead);
    assert_eq!(v.to_string(), "dead");
}

#[test]
fn test_runes() {
    let rune = char_to_rune('a');
    assert_eq!(rune, Some('ᛖ'));
    let runes = "This is a test. 1234567890";
    let output = string_to_rune(runes);
    assert_eq!(output, "This is ᛖ tᛞst. ᚾᛁᛃᛈᛇᛉᛊᛏᛒᚺ");
}

#[test]
fn test_alignments() {
    let input: Vec<Word> = vec![0x3000, 0x0110, 0x8006, 0xf].into_iter().map(Word::new).collect();
    let output: String = words_to_runes(input, false);
    assert_eq!(output, "ᛃᚲᚺᚾᚾᚺᛏᚺᚺᛉᛟ×");
}

#[test]
fn test_zeroes() {
    let input: Vec<Word> = vec![0, 0, 0, 0].into_iter().map(Word::new).collect();
    let output: String = words_to_runes(input, false);
    assert_eq!(output, "ᛈᚠ");
}

#[test]
fn test_repeats() {
    let input: Vec<Word> =
        vec![0xffff, 0xffff, 0xffff, 0xffff].into_iter().map(Word::new).collect();
    let output: String = words_to_runes(input, false);
    assert_eq!(output, "ᛟᛟᛟᛟᛃᚱ");

    let input: Vec<Word> =
        vec![0x348c, 0x348c, 0x348c, 0x348c].into_iter().map(Word::new).collect();
    let output: String = words_to_runes(input, false);
    assert_eq!(output, "ᛃᛈᛏᛚᛃᚱ");
}

#[test]
fn rune_tables_are_inverse() {
    let plain = "0123456789abcdef*z<>";
    let runes = "ᚺᚾᛁᛃᛈᛇᛉᛊᛏᛒᛖᛗᛚᛜᛞᛟᚱᚠᚲ×";
    for (c, r) in plain.chars().zip(runes.chars()) {
        assert_eq!(char_to_rune(c), Some(r));
        assert_eq!(rune_to_char(r), Some(c));
    }
    assert_eq!(char_to_rune('F'), Some('ᛟ'));
    assert_eq!(char_to_rune('_'), None);
    assert_eq!(char_to_rune('g'), None);
    assert_eq!(rune_to_char('a'), None);
    assert_eq!(rune_to_char('ᚢ'), None);
}

#[test]
fn reader_walks_and_stops_at_the_end() {
    let mut reader = WordReader::new(words_of(vec![7, 7, 8]));
    assert_eq!(reader.count_ahead(|w| w == Word::new(7)), 2);
    assert_eq!(reader.count_ahead(|w| w == Word::new(8)), 0);
    reader.advance(2);
    assert_eq!(reader.peek(), Some(Word::new(8)));
    assert_eq!(reader.count_ahead(|_| true), 1);
    reader.advance(usize::MAX);
    assert_eq!(reader.peek(), None);
    assert_eq!(reader.next(), None);
    assert_eq!(reader.count_ahead(|_| true), 0);
    let mut empty = WordReader::new(Vec::new());
    assert_eq!(empty.next(), None);
}

fn kinds(groups: &[WordGroup]) -> Vec<String> {
    groups.iter().map(|g| format!("{:?}", g)).collect()
}

#[test]
fn groups_follow_the_order_of_the_forms() {
    let groups = encode_words(words_of(vec![
        0, 0x5000, 0x3300, 0x000f, 0x0042, 0x0110, 0, 0, 0xf000, 0xf000, 0x1234, 0x1234, 0x1234,
    ]));
    assert_eq!(
        kinds(&groups),
        vec![
            "Zero",
            "HighNibble(20480, None)",
            "HighByte(13056, None)",
            "LowNibble(15, None)",
            "LowByte(66, None)",
            "Word(Word(272))",
            "ZeroChain(2)",
            "HighNibble(61440, Some(1))",
            "WordChain(Word(4660), 2)",
        ]
    );
    assert_eq!(words_to_string(groups, false), "ᚾᚠᛇᚲᛃᛃᚲᛟ×ᛈᛁ×ᚺᚾᚾᚺᛁᚠᛟᚲᚾᚱᚾᛁᛃᛈᛁᚱ");
}

#[test]
fn constructor_keeps_what_it_built() {
    let mut ctor = WordGroupConstructor::new(words_of(vec![1, 1, 0x0a00]));
    let first = ctor.construct().unwrap();
    let second = ctor.construct().unwrap();
    assert_eq!(kinds(&first), vec!["LowNibble(1, Some(1))", "HighByte(2560, None)"]);
    assert_eq!(kinds(&first), kinds(&second));
    assert!(WordGroupConstructor::new(Vec::new()).construct().unwrap().is_empty());
}

#[test]
fn counts_are_written_in_hexadecimal() {
    assert_eq!(WordGroup::ZeroChain(26).to_string(), "ᚾᛖᚠ");
    assert_eq!(WordGroup::WordChain(Word::new(0xbeef), 255).to_string(), "ᛗᛞᛞᛟᛟᛟᚱ");
    assert_eq!(WordGroup::LowByte(0x10, Some(16)).to_string(), "ᚾᚺ×ᚾᚺᚱ");
    assert_eq!(WordGroup::HighByte(0x0100, None).to_string(), "ᚺᚾᚲ");
    assert_eq!(WordGroup::Zero.to_string(), "ᚾᚠ");
}

#[test]
fn colour_alternates_between_groups() {
    let groups = encode_words(words_of(vec![0x5000, 0xf, 0xf, 0]));
    assert_eq!(
        words_to_string(groups, true),
        "\x1B[97mᛇᚲ\x1B[0m\x1B[34mᛟ×ᚾᚱ\x1B[0m\x1B[97mᚾᚠ\x1B[0m"
    );
}

#[test]
fn word_from_four_runes() {
    assert_eq!(to_word("ᛜᛞᛖᛜ"), Ok(Word::new(0xdead)));
    assert_eq!(to_word("ᛜ ᛞ-ᛖ ᛜ"), Ok(Word::new(0xdead)));
    assert_eq!(to_word("ᚺᚺᚺᚾ"), Ok(Word::new(1)));
    assert_eq!(to_word("dead"), Err("Invalid word length: 0".to_string()));
    assert_eq!(to_word("ᛜᛞᛖ"), Err("Invalid word length: 3".to_string()));
    assert_eq!(to_word("ᛜᛞᛖᛜᚺᚺᚺᚺᚺᚺᚺᚺ"), Err("Invalid word length: 12".to_string()));
    assert_eq!(to_word("ᛜᛞᚱᛖᛜ"), Ok(Word::new(0xdead)));
}

#[test]
fn word_conversions() {
    assert_eq!(Word::from(0x1234u16), Word::new(0x1234));
    assert_eq!(u16::from(Word::new(0x1234)), 0x1234);
    assert_eq!(Word::from(0x12345i32), Word::new(0x2345));
    assert_eq!(Word::from(-1i32), Word::new(0xffff));
    assert_eq!(Word::from(64isize), Word::new(0x40));
    assert_eq!(Word::from(-2isize), Word::new(0xfffe));
    let back: u16 = Word::new(9).into();
    assert_eq!(back, 9);
    assert_eq!(Word::new(7).value(), 7);
    assert_eq!(Word::new(7).to_string(), "0007");
    assert_eq!(Word::from_hex("beef"), Some(Word::new(0xbeef)));
    assert_eq!(Word::from_hex("BEEF"), Some(Word::new(0xbeef)));
    assert_eq!(Word::from_hex("12"), Some(Word::new(0x12)));
    assert_eq!(Word::from_hex("12345"), Some(Word::new(0x2345)));
    assert_eq!(Word::from_hex(""), Some(Word::new(0)));
    assert_eq!(Word::from_hex("12g4"), None);
    assert_eq!(Word::from_hex("ᛜᛞᛖᛜ"), None);
}
