use rune_codec::command::{
    chat_commands, chunked_commands, make_rune_offset, single_command, words_to_runes,
    write_command,
};
use rune_codec::word::Word;

fn words_of(values: Vec<u16>) -> Vec<Word> {
    values.into_iter().map(Word::new).collect()
}

#[test]
fn text_write_command() {
    assert_eq!(write_command(true,  false, 0,     Some("ᚾᛁᛃᛈ".to_string()), None), "!vm clear write ᚾᛁᛃᛈ");
    assert_eq!(write_command(true,  false, 0,     None, Some("ᚾᛁᛃᛈ".to_string())), "!vm clear code ᚾᛁᛃᛈ");
    assert_eq!(write_command(true,  true,  0,     Some("ᚾᛁᛃᛈ".to_string()), None), "!vm clear write ᚾᛁᛃᛈ ! reset");
    assert_eq!(write_command(true,  true,  0,     None, Some("ᚾᛁᛃᛈ".to_string())), "!vm clear code ᚾᛁᛃᛈ ! reset");
    assert_eq!(write_command(true,  true,  0,     Some("1234".to_string()), Some("5678".to_string())), "!vm clear write 1234 ! code 5678 ! reset");
    assert_eq!(write_command(true,  true,  0x40,  Some("1234".to_string()), None), "!vm clear write ᛈᚺᚢ1234 ! reset");
    assert_eq!(write_command(true,  true,  0x200, Some("ᚾᛁᛃᛈ".to_string()), None), "!vm clear write ᛁᚺᚺᚢᚾᛁᛃᛈ ! reset");
}

#[test]
fn test_make_rune_offset() {
    assert_eq!(make_rune_offset(0x000), "");
    assert_eq!(make_rune_offset(0x001), "ᚾᚢ");
    assert_eq!(make_rune_offset(0x00f), "ᛟᚢ");
    assert_eq!(make_rune_offset(0x010), "ᚾᚺᚢ");
    assert_eq!(make_rune_offset(0x100), "ᚾᚺᚺᚢ");
    assert_eq!(make_rune_offset(0x123), "ᚾᛁᛃᚢ");
    assert_eq!(make_rune_offset(0x2000), "ᛟᛟᛟᚢᛟᛟᛟᚢᛁᚢ");
}

#[test]
fn offset_splits_at_three_digits() {
    assert_eq!(make_rune_offset(0xfff), "ᛟᛟᛟᚢ");
    assert_eq!(make_rune_offset(0x1000), "ᛟᛟᛟᚢᚾᚢ");
    assert_eq!(make_rune_offset(0x1ffe), "ᛟᛟᛟᚢᛟᛟᛟᚢ");
}

#[test]
fn command_without_clauses() {
    assert_eq!(write_command(false, false, 0, None, None), "!vm ");
    assert_eq!(write_command(false, true, 0, None, None), "!vm  ! reset");
    assert_eq!(write_command(true, false, 5, None, Some("1".to_string())), "!vm clear ");
    assert_eq!(
        write_command(false, false, 5, Some("1".to_string()), Some("2".to_string())),
        "!vm "
    );
    assert_eq!(write_command(false, false, 5, Some("1".to_string()), None), "!vm write ᛇᚢ1");
}

#[test]
fn sixty_four_words_take_one_command() {
    let words = words_of(vec![0xffff; 64]);
    assert_eq!(
        chat_commands(&words, words.clone(), Vec::new(), false),
        "!vm clear write ᛟᛟᛟᛟᛃᛟᚱ ! reset"
    );
}

#[test]
fn sixty_five_words_take_two_commands() {
    let words = words_of(vec![0xffff; 65]);
    assert_eq!(
        chat_commands(&words, words.clone(), Vec::new(), false),
        "!vm clear write ᛟᛟᛟᛟᛃᛟᚱ\n!vm write ᛈᚺᚢᛟᛟᛟᛟ ! restart"
    );
}

#[test]
fn memory_words_at_the_start_of_the_code_are_written_behind_a_skip() {
    assert_eq!(
        write_command(false, false, 64, Some("ᚾᛁᛃᛈ".to_string()), None),
        "!vm write ᛈᚺᚢᚾᛁᛃᛈ"
    );
    assert_eq!(
        write_command(false, false, 63, Some("ᚾᛁᛃᛈ".to_string()), None),
        "!vm write ᛃᛟᚢᚾᛁᛃᛈ"
    );
    assert_eq!(
        write_command(false, false, 64, None, Some("ᚾᛁᛃᛈ".to_string())),
        "!vm "
    );
}

#[test]
fn two_commands_are_what_write_command_gives_for_each() {
    let mut values = vec![0x1234u16; 65];
    values[61] = 0;
    values[64] = 0xbeef;
    let words = words_of(values.clone());
    values[61] = 0x40;
    let first = words_to_runes(words_of(values[..64].to_vec()), false);
    let second = words_to_runes(words_of(values[64..].to_vec()), false);
    let mut expected = write_command(true, false, 0, Some(first), None);
    expected.push('\n');
    expected.push_str(&write_command(false, false, 64, Some(second), None));
    expected.push_str(" ! restart");
    assert_eq!(chat_commands(&words, words.clone(), Vec::new(), false), expected);
    assert_eq!(
        expected,
        "!vm clear write ᚾᛁᛃᛈᛃᛚᚱᛈᚺ×ᚾᛁᛃᛈᚾᚱ\n!vm write ᛈᚺᚢᛗᛞᛞᛟ ! restart"
    );
}

#[test]
fn three_commands_count_their_offsets() {
    let words = words_of(vec![0x1234; 130]);
    assert_eq!(
        chunked_commands(&words, false),
        "!vm clear write ᚾᛁᛃᛈᛃᛟᚱ\n!vm write ᛈᚺᚢᚾᛁᛃᛈᛃᛟᚱ\n!vm write ᛏᚺᚢᚾᛁᛃᛈᚾᚱ ! restart"
    );
}

#[test]
fn a_zero_program_counter_is_sent_as_the_start_of_the_code() {
    let words = words_of(vec![0; 65]);
    assert_eq!(
        chunked_commands(&words, false),
        "!vm clear write ᛃᛜᚠᛈᚺ×ᛁᚠ\n!vm write ᛈᚺᚢᚾᚠ ! restart"
    );
}

#[test]
fn any_other_program_counter_is_left_alone() {
    let mut values = vec![0u16; 65];
    values[61] = 0x0050;
    assert_eq!(
        chunked_commands(&words_of(values), false),
        "!vm clear write ᛃᛜᚠᛇᚺ×ᛁᚠ\n!vm write ᛈᚺᚢᚾᚠ ! restart"
    );
    let mut values = vec![0u16; 130];
    values[64 + 61] = 0;
    values[60] = 1;
    values[61] = 2;
    assert_eq!(
        chunked_commands(&words_of(values), false),
        "!vm clear write ᛃᛚᚠᚾ×ᛁ×ᛁᚠ\n!vm write ᛈᚺᚢᛈᚺᚠ\n!vm write ᛏᚺᚢᛁᚠ ! restart"
    );
}

#[test]
fn one_command_with_memory_and_code() {
    assert_eq!(
        single_command(words_of(vec![0x1234]), words_of(vec![0x5000, 0x5000]), false),
        "!vm clear write ᚾᛁᛃᛈ ! code ᛇᚲᚾᚱ ! reset"
    );
    assert_eq!(
        single_command(Vec::new(), words_of(vec![0xf]), false),
        "!vm clear code ᛟ× ! reset"
    );
    assert_eq!(single_command(Vec::new(), Vec::new(), false), "");
    assert_eq!(
        single_command(words_of(vec![0xf]), Vec::new(), true),
        "!vm clear write \x1B[97mᛟ×\x1B[0m ! reset"
    );
}
