use vstd::prelude::*;
use crate::hex::{hex_char, hex_min, push_hex};
use crate::text::push_char;
use crate::tokens::{
    encode, encode_words, rendered_groups, string_to_rune, to_runes, WordGroup, SKIP_RUNE,
};
use crate::word::Word;

verus! {

/// The most words that one command carries.
pub const CHUNK_LIMIT: usize = 64;

/// The most that one skip moves the cursor: what three digits can say.
pub const SKIP_LIMIT: usize = 0xfff;

/// The index of the word that holds the program counter.
pub const PC_SLOT: usize = 0x3d;

/// The program counter that is sent in place of zero.
pub const PC_START: u16 = 0x40;

/// The text that moves the cursor `offset` words on: skips of at most
/// `SKIP_LIMIT` words each, the largest first, as many as the offset takes.
pub open spec fn offset_text(offset: nat) -> Seq<char>
    decreases offset,
{
    if offset == 0 {
        Seq::empty()
    } else {
        let skip = if offset < SKIP_LIMIT {
            offset
        } else {
            SKIP_LIMIT as nat
        };
        to_runes(hex_min(skip)).push(SKIP_RUNE) + offset_text((offset - skip) as nat)
    }
}

/// Appends the text that moves the cursor `offset` words on.
pub fn push_offset(out: &mut String, offset: usize)
    ensures
        final(out)@ == old(out)@ + offset_text(offset as nat),
{
    let mut left: usize = offset;
    while left > 0
        invariant
            out@ + offset_text(left as nat) == old(out)@ + offset_text(offset as nat),
        decreases left,
    {
        let skip: usize = if left < SKIP_LIMIT {
            left
        } else {
            SKIP_LIMIT
        };
        let ghost before = out@;
        let mut number = String::new();
        push_hex(&mut number, skip);
        let runes = string_to_rune(number.as_str());
        out.append(runes.as_str());
        push_char(out, SKIP_RUNE);
        left -= skip;
        assert(out@ + offset_text(left as nat) == before + offset_text((left + skip) as nat));
    }
}

/// The text that moves the cursor `offset` words on.
pub fn make_rune_offset(offset: u16) -> (out: String)
    ensures
        out@ == offset_text(offset as nat),
{
    let mut out = String::new();
    push_offset(&mut out, offset as usize);
    out
}

/// The text that turns the terminal's colour to bright white.
pub open spec fn ansi_white() -> Seq<char> {
    "\x1B[97m"@
}

/// The text that turns the terminal's colour to blue.
pub open spec fn ansi_blue() -> Seq<char> {
    "\x1B[34m"@
}

/// The text that turns the terminal's colour back.
pub open spec fn ansi_reset() -> Seq<char> {
    "\x1B[0m"@
}

/// The group at index `at` as it is sent; in colour, white where `at` is even
/// and blue where it is odd, with the colour turned back behind it.
pub open spec fn decorated_group(g: WordGroup, at: int, color: bool) -> Seq<char> {
    if color {
        (if at % 2 == 0 {
            ansi_white()
        } else {
            ansi_blue()
        }) + g.rendered() + ansi_reset()
    } else {
        g.rendered()
    }
}

/// The groups as they are sent, one after another, in colour or plain.
pub open spec fn decorated_groups(groups: Seq<WordGroup>, color: bool) -> Seq<char>
    decreases groups.len(),
{
    if groups.len() == 0 {
        Seq::empty()
    } else {
        decorated_groups(groups.drop_last(), color) + decorated_group(
            groups.last(),
            groups.len() - 1,
            color,
        )
    }
}

/// Without colour the groups are sent as they are.
pub proof fn lemma_plain_groups(groups: Seq<WordGroup>)
    ensures
        decorated_groups(groups, false) == rendered_groups(groups),
    decreases groups.len(),
{
    if groups.len() > 0 {
        lemma_plain_groups(groups.drop_last());
    }
}

/// The groups as they are sent, one after another.
pub fn words_to_string(words: Vec<WordGroup>, color: bool) -> (out: String)
    ensures
        out@ == decorated_groups(words@, color),
{
    let mut out = String::new();
    let mut bright = true;
    let mut i: usize = 0;
    while i < words.len()
        invariant
            i <= words@.len(),
            bright == (i % 2 == 0),
            out@ == decorated_groups(words@.take(i as int), color),
        decreases words@.len() - i,
    {
        let ghost before = out@;
        if color {
            out.append(
                if bright {
                    "\x1B[97m"
                } else {
                    "\x1B[34m"
                },
            );
        }
        let group = words[i].to_string();
        out.append(group.as_str());
        if color {
            out.append("\x1B[0m");
        }
        bright = !bright;
        i += 1;
        assert(words@.take(i as int).drop_last() == words@.take(i - 1));
        assert(out@ == before + decorated_group(words@[i - 1], i - 1, color));
    }
    assert(words@.take(words@.len() as int) == words@);
    out
}

/// The text of a clause, where there is one.
pub open spec fn clause_text(clause: Option<String>) -> Option<Seq<char>> {
    match clause {
        Some(text) => Some(text@),
        None => None,
    }
}

/// The clause that sends memory words to the address `offset`: `write`, the
/// skips that lead there, none for address zero, and the words.
pub open spec fn write_clause(offset: nat, words: Seq<char>) -> Seq<char> {
    "write "@ + offset_text(offset) + words
}

/// The clauses of a command. Memory words alone follow `write` and the skips
/// that lead to the offset, whatever the offset is. With no offset the code
/// words follow `code`, behind the memory words where both are given. Code
/// words at an offset give no clause.
pub open spec fn clauses_text(offset: u16, mem: Option<Seq<char>>, code: Option<Seq<char>>) -> Seq<
    char,
> {
    match (mem, code) {
        (Some(m), Some(c)) => if offset == 0 {
            "write "@ + m + " ! code "@ + c
        } else {
            Seq::empty()
        },
        (Some(m), None) => write_clause(offset as nat, m),
        (None, Some(c)) => if offset == 0 {
            "code "@ + c
        } else {
            Seq::empty()
        },
        (None, None) => Seq::empty(),
    }
}

/// A whole command: the call, with `clear` where the memory is to be cleared
/// first, the clauses, and `reset` behind them where asked for.
pub open spec fn command_text(
    clear: bool,
    reset: bool,
    offset: u16,
    mem: Option<Seq<char>>,
    code: Option<Seq<char>>,
) -> Seq<char> {
    (if clear {
        "!vm clear "@
    } else {
        "!vm "@
    }) + clauses_text(offset, mem, code) + (if reset {
        " ! reset"@
    } else {
        Seq::empty()
    })
}

/// Appends the clause that sends memory words to the address `offset`.
fn push_write_clause(out: &mut String, offset: usize, words: &str)
    ensures
        final(out)@ == old(out)@ + write_clause(offset as nat, words@),
{
    let ghost before = out@;
    out.append("write ");
    push_offset(out, offset);
    out.append(words);
    assert(out@ == before + write_clause(offset as nat, words@));
}

/// One command that sends the given texts of memory and code words.
pub fn write_command(
    clear: bool,
    reset: bool,
    offset: u16,
    mem: Option<String>,
    code: Option<String>,
) -> (out: String)
    ensures
        out@ == command_text(clear, reset, offset, clause_text(mem), clause_text(code)),
{
    let mut out = String::new();
    out.append(
        if clear {
            "!vm clear "
        } else {
            "!vm "
        },
    );
    let ghost head = out@;
    match (mem, code) {
        (Some(m), Some(c)) => {
            if offset == 0 {
                out.append("write ");
                out.append(m.as_str());
                out.append(" ! code ");
                out.append(c.as_str());
            }
        },
        (Some(m), None) => {
            push_write_clause(&mut out, offset as usize, m.as_str());
        },
        (None, Some(c)) => {
            if offset == 0 {
                out.append("code ");
                out.append(c.as_str());
            }
        },
        (None, None) => {},
    }
    assert(out@ == head + clauses_text(offset, clause_text(mem), clause_text(code)));
    if reset {
        out.append(" ! reset");
    }
    out
}

/// How many commands it takes to send `len` words.
pub open spec fn chunk_count(len: nat) -> nat {
    (len + CHUNK_LIMIT - 1) as nat / (CHUNK_LIMIT as nat)
}

/// The words of the command at index `at`: the next `CHUNK_LIMIT` words, or
/// those that are left. In the first command a program counter of zero is
/// replaced by `PC_START`; every other word is sent as it is.
pub open spec fn chunk_words(words: Seq<Word>, at: nat) -> Seq<Word> {
    let start = at * CHUNK_LIMIT;
    let end = if start + CHUNK_LIMIT < words.len() {
        start + CHUNK_LIMIT
    } else {
        words.len() as int
    };
    let chunk = words.subrange(start as int, end);
    if start >= words.len() {
        Seq::empty()
    } else if at == 0 && chunk.len() > PC_SLOT && chunk[PC_SLOT as int]@ == 0 {
        chunk.update(PC_SLOT as int, Word(PC_START))
    } else {
        chunk
    }
}

/// The words of the command at index `at`, as they are sent.
pub open spec fn chunk_payload(words: Seq<Word>, at: nat, color: bool) -> Seq<char> {
    decorated_groups(encode(chunk_words(words, at)), color)
}

/// The command at index `at` of a transfer in several commands: the first
/// clears the memory, every later one stands on a line of its own, and each
/// writes its words to the address behind the words sent before it.
pub open spec fn chunk_command(words: Seq<Word>, at: nat, color: bool) -> Seq<char> {
    (if at == 0 {
        Seq::empty()
    } else {
        "\n"@
    }) + (if at == 0 {
        "!vm clear "@
    } else {
        "!vm "@
    }) + write_clause(at * (CHUNK_LIMIT as nat), chunk_payload(words, at, color))
}

/// The first `count` commands of a transfer in several commands.
pub open spec fn chunk_commands(words: Seq<Word>, count: nat, color: bool) -> Seq<char>
    decreases count,
{
    if count == 0 {
        Seq::empty()
    } else {
        chunk_commands(words, (count - 1) as nat, color) + chunk_command(
            words,
            (count - 1) as nat,
            color,
        )
    }
}

/// A transfer in several commands, with the restart behind the last.
pub open spec fn chunked_text(words: Seq<Word>, color: bool) -> Seq<char> {
    chunk_commands(words, chunk_count(words.len()), color) + " ! restart"@
}

/// A transfer in one command: the memory words and the code words, each where
/// there are any, and nothing where there are none at all.
pub open spec fn single_text(mem: Seq<Word>, code: Seq<Word>, color: bool) -> Seq<char> {
    let m = if mem.len() > 0 {
        Some(decorated_groups(encode(mem), color))
    } else {
        None
    };
    let c = if code.len() > 0 {
        Some(decorated_groups(encode(code), color))
    } else {
        None
    };
    if m.is_none() && c.is_none() {
        Seq::empty()
    } else {
        command_text(true, true, 0, m, c)
    }
}

/// The commands that send an image: one command where the image has at most
/// `CHUNK_LIMIT` words, several where it has more.
pub open spec fn chat_text(words: Seq<Word>, mem: Seq<Word>, code: Seq<Word>, color: bool) -> Seq<
    char,
> {
    if words.len() > CHUNK_LIMIT {
        chunked_text(words, color)
    } else {
        single_text(mem, code, color)
    }
}

/// Only the program counter of the first command is ever changed, and only
/// from zero.
pub proof fn lemma_chunk_words(words: Seq<Word>, at: nat, k: int)
    requires
        0 <= k < chunk_words(words, at).len(),
    ensures
        at * CHUNK_LIMIT + k < words.len(),
        chunk_words(words, at)[k] == if at == 0 && k == PC_SLOT && words[k]@ == 0 {
            Word(PC_START)
        } else {
            words[at * CHUNK_LIMIT + k]
        },
{
}

/// A command of a transfer in several commands is the command that
/// `write_command` gives for the same words at the same offset, without a
/// reset, and with a clear in the first only.
pub proof fn lemma_chunk_is_command(words: Seq<Word>, at: nat, color: bool)
    requires
        at * CHUNK_LIMIT <= u16::MAX,
    ensures
        chunk_command(words, at, color) == (if at == 0 {
            Seq::empty()
        } else {
            "\n"@
        }) + command_text(
            at == 0,
            false,
            (at * CHUNK_LIMIT) as u16,
            Some(chunk_payload(words, at, color)),
            None,
        ),
{
    let head = if at == 0 {
        "!vm clear "@
    } else {
        "!vm "@
    };
    let clause = write_clause(at * (CHUNK_LIMIT as nat), chunk_payload(words, at, color));
    assert(head + clause + Seq::<char>::empty() == head + clause);
    if at == 0 {
        assert(Seq::<char>::empty() + head + clause == Seq::<char>::empty() + (head + clause));
    } else {
        assert("\n"@ + head + clause == "\n"@ + (head + clause));
    }
}

/// The skips that lead to the address behind one full command: the runes of
/// `40` and the skip rune.
pub proof fn lemma_second_offset()
    ensures
        offset_text(CHUNK_LIMIT as nat) == seq!['ᛈ', 'ᚺ', SKIP_RUNE],
{
    assert(offset_text(0) == Seq::<char>::empty());
    assert(hex_min(64) == seq![hex_char(4), hex_char(0)]) by {
        assert(hex_min(4) == seq![hex_char(4)]);
        assert(hex_min(64) == hex_min(4).push(hex_char(0)));
    }
    assert(to_runes(hex_min(64)) == seq!['ᛈ', 'ᚺ']);
    assert(offset_text(64) == to_runes(hex_min(64)).push(SKIP_RUNE) + offset_text(0));
}

/// Up to `CHUNK_LIMIT` words go out in one command, which knows no offset. One
/// word more makes two commands on two lines: the first sends `CHUNK_LIMIT`
/// words to address zero and clears the memory before, the second sends the
/// rest behind the skips of `CHUNK_LIMIT` words, and the restart follows.
pub proof fn lemma_chunk_boundary(words: Seq<Word>, mem: Seq<Word>, code: Seq<Word>, color: bool)
    ensures
        words.len() <= CHUNK_LIMIT ==> chat_text(words, mem, code, color) == single_text(
            mem,
            code,
            color,
        ),
        CHUNK_LIMIT < words.len() <= 2 * CHUNK_LIMIT ==> chat_text(words, mem, code, color)
            == command_text(true, false, 0, Some(chunk_payload(words, 0, color)), None) + "\n"@
            + command_text(
            false,
            false,
            CHUNK_LIMIT as u16,
            Some(chunk_payload(words, 1, color)),
            None,
        ) + " ! restart"@,
        command_text(true, false, 0, Some(chunk_payload(words, 0, color)), None) == "!vm clear "@
            + "write "@ + chunk_payload(words, 0, color),
        command_text(false, false, CHUNK_LIMIT as u16, Some(chunk_payload(words, 1, color)), None)
            == "!vm "@ + "write "@ + seq!['ᛈ', 'ᚺ', SKIP_RUNE] + chunk_payload(words, 1, color),
{
    let first = command_text(true, false, 0, Some(chunk_payload(words, 0, color)), None);
    let second = command_text(
        false,
        false,
        CHUNK_LIMIT as u16,
        Some(chunk_payload(words, 1, color)),
        None,
    );
    lemma_chunk_is_command(words, 0, color);
    lemma_chunk_is_command(words, 1, color);
    lemma_second_offset();
    if CHUNK_LIMIT < words.len() <= 2 * CHUNK_LIMIT {
        assert(chunk_count(words.len()) == 2);
        assert(chunk_commands(words, 2, color) == chunk_commands(words, 1, color) + chunk_command(
            words,
            1,
            color,
        ));
        assert(chunk_commands(words, 1, color) == chunk_commands(words, 0, color) + chunk_command(
            words,
            0,
            color,
        ));
        assert(chunk_command(words, 0, color) == first);
        assert(chunk_commands(words, 1, color) == first);
        assert(first + ("\n"@ + second) == first + "\n"@ + second);
    }
    assert(offset_text(0) == Seq::<char>::empty());
    assert("write "@ + offset_text(0) + chunk_payload(words, 0, color) == "write "@
        + chunk_payload(words, 0, color));
    assert(first == "!vm clear "@ + ("write "@ + chunk_payload(words, 0, color)));
    assert("!vm clear "@ + ("write "@ + chunk_payload(words, 0, color)) == "!vm clear "@
        + "write "@ + chunk_payload(words, 0, color));
    let skips = seq!['ᛈ', 'ᚺ', SKIP_RUNE];
    assert(second == "!vm "@ + ("write "@ + skips + chunk_payload(words, 1, color)));
    assert("!vm "@ + ("write "@ + skips + chunk_payload(words, 1, color)) == "!vm "@ + "write "@
        + skips + chunk_payload(words, 1, color));
}

fn chunk_of(words: &Vec<Word>, at: usize, start: usize) -> (chunk: Vec<Word>)
    requires
        start == at * CHUNK_LIMIT,
        start < words@.len(),
    ensures
        chunk@ == chunk_words(words@, at as nat),
{
    let end: usize = if words.len() - start > CHUNK_LIMIT {
        start + CHUNK_LIMIT
    } else {
        words.len()
    };
    let mut chunk: Vec<Word> = Vec::new();
    let mut i: usize = start;
    while i < end
        invariant
            start <= i <= end <= words@.len(),
            chunk@ == words@.subrange(start as int, i as int),
        decreases end - i,
    {
        chunk.push(words[i]);
        i += 1;
        assert(chunk@ == words@.subrange(start as int, i as int));
    }
    if at == 0 && chunk.len() > PC_SLOT && chunk[PC_SLOT].value() == 0 {
        chunk.set(PC_SLOT, Word::new(PC_START));
    }
    chunk
}

/// The words as a transfer in several commands of at most `CHUNK_LIMIT` words.
pub fn chunked_commands(words: &Vec<Word>, color: bool) -> (out: String)
    ensures
        out@ == chunked_text(words@, color),
{
    let mut out = String::new();
    let mut at: usize = 0;
    let mut start: usize = 0;
    while start < words.len()
        invariant
            start <= words@.len(),
            start < words@.len() ==> start == at * CHUNK_LIMIT,
            start == words@.len() ==> at == chunk_count(words@.len() as nat),
            at <= chunk_count(words@.len() as nat),
            out@ == chunk_commands(words@, at as nat, color),
        decreases words@.len() - start,
    {
        let ghost before = out@;
        let chunk = chunk_of(words, at, start);
        let text = words_to_string(encode_words(chunk), color);
        if at > 0 {
            out.append("\n");
        }
        out.append(
            if at == 0 {
                "!vm clear "
            } else {
                "!vm "
            },
        );
        push_write_clause(&mut out, start, text.as_str());
        assert(out@ == before + chunk_command(words@, at as nat, color));
        if words.len() - start > CHUNK_LIMIT {
            start += CHUNK_LIMIT;
        } else {
            start = words.len();
        }
        at += 1;
    }
    out.append(" ! restart");
    out
}

/// The words as one command.
pub fn single_command(mem_words: Vec<Word>, code_words: Vec<Word>, color: bool) -> (out: String)
    ensures
        out@ == single_text(mem_words@, code_words@, color),
{
    let mem = if mem_words.len() > 0 {
        Some(words_to_string(encode_words(mem_words), color))
    } else {
        None
    };
    let code = if code_words.len() > 0 {
        Some(words_to_string(encode_words(code_words), color))
    } else {
        None
    };
    if mem.is_none() && code.is_none() {
        String::new()
    } else {
        write_command(true, true, 0, mem, code)
    }
}

/// The commands that send an image of `words`, which is made of the memory
/// words and the code words.
pub fn chat_commands(
    words: &Vec<Word>,
    mem_words: Vec<Word>,
    code_words: Vec<Word>,
    color: bool,
) -> (out: String)
    ensures
        out@ == chat_text(words@, mem_words@, code_words@, color),
{
    if words.len() > CHUNK_LIMIT {
        chunked_commands(words, color)
    } else {
        single_command(mem_words, code_words, color)
    }
}

/// The words as runes, with no command round them.
pub fn words_to_runes(words: Vec<Word>, color: bool) -> (out: String)
    ensures
        out@ == decorated_groups(encode(words@), color),
{
    words_to_string(encode_words(words), color)
}

} // verus!
