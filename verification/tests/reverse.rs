use rune_codec::command::{make_rune_offset, words_to_runes};
use rune_codec::reverse::{reverse_write, Decoder};
use rune_codec::word::Word;

fn decode(text: &str) -> Vec<u16> {
    reverse_write(text.to_string()).iter().map(|w| w.value()).collect()
}

fn round_trip(values: Vec<u16>) {
    let words: Vec<Word> = values.iter().map(|v| Word::new(*v)).collect();
    let text = words_to_runes(words, false);
    assert_eq!(decode(&text), values, "{}", text);
}

#[test]
fn nothing_written_gives_no_words() {
    assert_eq!(decode(""), Vec::<u16>::new());
    assert_eq!(decode("  \n"), Vec::<u16>::new());
    assert_eq!(decode("ᛇᚢ"), Vec::<u16>::new());
    assert_eq!(decode("ᚨᚨ"), Vec::<u16>::new());
}

#[test]
fn four_digits_write_a_word() {
    assert_eq!(decode("12345678"), vec![0x1234, 0x5678]);
    assert_eq!(decode("ᛜᛞᛖᛜ"), vec![0xdead]);
    assert_eq!(decode("DEADbeef"), vec![0xdead, 0xbeef]);
    assert_eq!(decode("uvwxUVWXyzYZ"), vec![0xabcd, 0xabcd, 0xefef]);
    assert_eq!(decode("ᚺ1ᛁ3"), vec![0x0123]);
}

#[test]
fn digits_left_over_are_written_left_aligned() {
    assert_eq!(decode("1"), vec![0x1000]);
    assert_eq!(decode("12"), vec![0x1200]);
    assert_eq!(decode("123"), vec![0x1230]);
    assert_eq!(decode("ffff12"), vec![0xffff, 0x1200]);
}

#[test]
fn alignment_markers() {
    assert_eq!(decode("ᛇᚲ"), vec![0x5000]);
    assert_eq!(decode("5<"), vec![0x5000]);
    assert_eq!(decode("ᛟ×"), vec![0x000f]);
    assert_eq!(decode("f>"), vec![0x000f]);
    assert_eq!(decode("33<42>"), vec![0x3300, 0x0042]);
    assert_eq!(decode("123<123>"), vec![0x1230, 0x0123]);
    assert_eq!(decode("<>"), vec![0, 0]);
}

#[test]
fn zero_fill_and_repeat() {
    assert_eq!(decode("ᛈᚠ"), vec![0, 0, 0, 0]);
    assert_eq!(decode("ᚠ"), vec![0]);
    assert_eq!(decode("0ᚠ"), vec![0]);
    assert_eq!(decode("ffff3*"), vec![0xffff; 4]);
    assert_eq!(decode("ᛟᛟᛟᛟᛃᚱ"), vec![0xffff; 4]);
    assert_eq!(decode("5<*"), vec![0x5000, 0x5000]);
    assert_eq!(decode("*"), vec![0]);
    assert_eq!(decode("abcd2ᚠ*"), vec![0xabcd, 0, 0, 0xabcd]);
    assert_eq!(decode("10ᚠ").len(), 16);
    assert_eq!(decode("100ᚠ").len(), 256);
}

#[test]
fn skips_move_the_cursor_without_writing() {
    assert_eq!(decode("2_abcd"), vec![0, 0, 0xabcd]);
    assert_eq!(decode("ᛁᚢabcd"), vec![0, 0, 0xabcd]);
    assert_eq!(decode("_abcd"), vec![0, 0xabcd]);
    assert_eq!(decode("1111ᚨ2222"), vec![0x1111, 0, 0x2222]);
    assert_eq!(decode("12ᚨ34"), vec![0, 0x1234]);
    assert_eq!(decode("1111"), vec![0x1111]);
    assert_eq!(decode("11115_"), vec![0x1111]);
}

#[test]
fn the_cursor_wraps_round_the_memory() {
    assert_eq!(decode("fff_2_abcd"), vec![0, 0xabcd]);
    assert_eq!(decode("fff_1_abcd"), vec![0xabcd]);
    let mut text = String::from("1111");
    text.push_str("fff_");
    text.push_str("2222");
    assert_eq!(decode(&text), vec![0x2222]);
    let wrapped = decode("fffᚢ1111");
    assert_eq!(wrapped.len(), 4096);
    assert_eq!(wrapped[4095], 0x1111);
    let over = decode("fffᚢ11112222");
    assert_eq!(over.len(), 4096);
    assert_eq!(over[0], 0x2222);
    assert_eq!(over[4095], 0x1111);
    let mut steps = String::new();
    for _ in 0..4097 {
        steps.push('ᚨ');
    }
    steps.push_str("beef");
    assert_eq!(decode(&steps), vec![0, 0xbeef]);
    assert_eq!(decode("fffᚠ").len(), 4095);
    assert_eq!(decode("fffᚠ2ᚠ").len(), 4096);
    assert_eq!(decode("fffᚠ2ᚠbeef")[1], 0xbeef);
}

#[test]
fn a_character_without_meaning_changes_nothing() {
    assert_eq!(decode("12 34"), decode("1234"));
    assert_eq!(decode("12g34"), vec![0x1234]);
    assert_eq!(decode("ᛇ!ᚲ"), decode("ᛇᚲ"));
    assert_eq!(decode("ab\ncd\tᛃ?ᚱ"), decode("abcdᛃᚱ"));
}

#[test]
fn decoder_step_by_step() {
    let mut decoder = Decoder::new();
    for c in "ᛟ×ᛁᚱ".chars() {
        decoder.step(c);
    }
    let words = decoder.finish();
    assert_eq!(words, vec![Word::new(0xf); 3]);
}

#[test]
fn round_trip_of_zeros() {
    round_trip(vec![]);
    round_trip(vec![0]);
    round_trip(vec![0; 2]);
    round_trip(vec![0; 17]);
    round_trip(vec![0; 4095]);
}

#[test]
fn round_trip_of_equal_words() {
    round_trip(vec![0xffff; 4]);
    round_trip(vec![0x348c; 300]);
    round_trip(vec![0xbeef; 4096]);
    round_trip(vec![0x0001; 4096]);
    round_trip(vec![0x7000; 16]);
}

#[test]
fn round_trip_of_mixed_runs() {
    round_trip(vec![0, 0, 1, 1, 1, 0x1234, 0, 0x1234, 0x1234, 0xf000, 0, 0, 0]);
    round_trip(vec![0x5000, 0x3300, 0x000f, 0x0042, 0xdead, 0]);
    round_trip(vec![0x5000, 0x5000, 0x3300, 0x3300, 0xf, 0xf, 0x42, 0x42, 0xdead, 0xdead, 0, 0]);
    round_trip(vec![0x0100, 0x0010, 0x0001, 0x1000, 0x0ff0, 0x00ff, 0xff00, 0x0f00]);
    let mut all: Vec<u16> = (0..4096u32).map(|i| ((i * 37) % 0x10000) as u16).collect();
    round_trip(all.clone());
    all[4095] = 0;
    all[4094] = 0;
    round_trip(all);
    let mut tail = vec![0u16; 4096];
    tail[0] = 9;
    round_trip(tail);
}

#[test]
fn a_memory_full_of_zeros_is_not_read_back() {
    let words: Vec<Word> = vec![Word::new(0); 4096];
    let text = words_to_runes(words, false);
    assert_eq!(text, "ᚾᚺᚺᚺᚠ");
    assert_eq!(decode(&text), vec![0x1000, 0]);
}

#[test]
fn offsets_are_read_as_moves() {
    for offset in [0u16, 1, 0xfff, 0x1000, 0x1001, 0x2000, 0xffff] {
        let mut text = make_rune_offset(offset);
        text.push_str("beef");
        let words = decode(&text);
        let at = (offset % 4096) as usize;
        assert_eq!(words.len(), at + 1);
        assert_eq!(words[at], 0xbeef);
    }
}
