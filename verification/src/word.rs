use vstd::prelude::*;
use crate::hex::{hex4, hex_digit_value, hex_value, push_hex4};

verus! {

/// One 16-bit word of a memory or code image.
#[derive(Debug, Clone, Copy, PartialEq, Eq, Structural)]
pub struct Word(pub u16);

impl View for Word {
    type V = u16;

    open spec fn view(&self) -> u16 {
        self.0
    }
}

/// The views of a sequence of words.
pub open spec fn values(words: Seq<Word>) -> Seq<u16> {
    words.map_values(|w: Word| w@)
}

impl Word {
    pub fn new(value: u16) -> (w: Word)
        ensures
            w@ == value,
    {
        Word(value)
    }

    pub fn value(&self) -> (v: u16)
        ensures
            v == self@,
    {
        self.0
    }

    /// The word in four lowercase hexadecimal digits.
    pub fn to_string(&self) -> (out: String)
        ensures
            out@ == hex4(self@),
    {
        let mut out = String::new();
        push_hex4(&mut out, self.0);
        out
    }

    /// The word that a text of hexadecimal digits stands for; `None` where a
    /// character of the text is no such digit. Of more than four digits the
    /// last four count.
    pub fn from_hex(value: &str) -> (out: Option<Word>)
        ensures
            out == match hex_number(value@) {
                Some(n) => Some(Word((n % 0x10000) as u16)),
                None => None,
            },
    {
        let mut word: u16 = 0;
        for c in it: value.chars()
            invariant
                it.seq() == value@,
                hex_number(value@.take(it.index())) matches Some(n) && word == n % 0x10000,
        {
            proof {
                assert(value@.take(it.index() + 1).drop_last() == value@.take(it.index()));
                if hex_number(value@.take(it.index() + 1)).is_none() {
                    lemma_hex_number_prefix(value@, it.index() + 1);
                }
            }
            match hex_digit_value(c) {
                Some(d) => {
                    word = (word % 4096) * 16 + d;
                },
                None => {
                    return None;
                },
            }
        }
        assert(value@.take(value@.len() as int) == value@);
        Some(Word(word))
    }
}

/// The number that a text of hexadecimal digits stands for; `None` where a
/// character of the text is no such digit.
pub open spec fn hex_number(text: Seq<char>) -> Option<nat>
    decreases text.len(),
{
    if text.len() == 0 {
        Some(0)
    } else {
        match (hex_number(text.drop_last()), hex_value(text.last())) {
            (Some(n), Some(d)) => Some(n * 16 + d as nat),
            _ => None,
        }
    }
}

/// A text with a character that is no digit stands for no number, whatever
/// follows.
proof fn lemma_hex_number_prefix(text: Seq<char>, len: int)
    requires
        0 <= len <= text.len(),
        hex_number(text.take(len)).is_none(),
    ensures
        hex_number(text).is_none(),
    decreases text.len() - len,
{
    if len < text.len() {
        assert(text.take(len + 1).drop_last() == text.take(len));
        lemma_hex_number_prefix(text, len + 1);
    } else {
        assert(text.take(len) == text);
    }
}

impl From<u16> for Word {
    fn from(value: u16) -> (w: Word) {
        Word(value)
    }
}

impl vstd::std_specs::convert::FromSpecImpl<u16> for Word {
    open spec fn obeys_from_spec() -> bool {
        true
    }

    open spec fn from_spec(value: u16) -> Word {
        Word(value)
    }
}

impl From<Word> for u16 {
    fn from(word: Word) -> (v: u16) {
        word.0
    }
}

impl vstd::std_specs::convert::FromSpecImpl<Word> for u16 {
    open spec fn obeys_from_spec() -> bool {
        true
    }

    open spec fn from_spec(word: Word) -> u16 {
        word.0
    }
}

impl From<i32> for Word {
    fn from(value: i32) -> (w: Word) {
        Word(#[verifier::truncate] (value as u16))
    }
}

impl vstd::std_specs::convert::FromSpecImpl<i32> for Word {
    open spec fn obeys_from_spec() -> bool {
        true
    }

    open spec fn from_spec(value: i32) -> Word {
        Word(value as u16)
    }
}

impl From<isize> for Word {
    fn from(value: isize) -> (w: Word) {
        Word(#[verifier::truncate] (value as u16))
    }
}

impl vstd::std_specs::convert::FromSpecImpl<isize> for Word {
    open spec fn obeys_from_spec() -> bool {
        true
    }

    open spec fn from_spec(value: isize) -> Word {
        Word(value as u16)
    }
}

} // verus!
