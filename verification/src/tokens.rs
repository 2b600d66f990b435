use vstd::prelude::*;
use crate::hex::{
    hex4, hex_digit_value, hex_min, hex_pad, hex_value, push_hex, push_hex4, push_hex_pad,
};
use crate::text::{dec_min, push_char, push_dec};
use crate::word::Word;

verus! {

/// The rune that marks an offset skip.
pub const SKIP_RUNE: char = 'ᚢ';

/// The rune that moves the cursor one word on without writing.
pub const STEP_RUNE: char = 'ᚨ';

/// The rune that stands for a hexadecimal digit or a control marker; `None` for
/// any other character. Both cases of the letters `a` to `f` have a rune.
pub open spec fn rune_of(c: char) -> Option<char> {
    if c == '0' {
        Some('ᚺ')
    } else if c == '1' {
        Some('ᚾ')
    } else if c == '2' {
        Some('ᛁ')
    } else if c == '3' {
        Some('ᛃ')
    } else if c == '4' {
        Some('ᛈ')
    } else if c == '5' {
        Some('ᛇ')
    } else if c == '6' {
        Some('ᛉ')
    } else if c == '7' {
        Some('ᛊ')
    } else if c == '8' {
        Some('ᛏ')
    } else if c == '9' {
        Some('ᛒ')
    } else if c == 'a' || c == 'A' {
        Some('ᛖ')
    } else if c == 'b' || c == 'B' {
        Some('ᛗ')
    } else if c == 'c' || c == 'C' {
        Some('ᛚ')
    } else if c == 'd' || c == 'D' {
        Some('ᛜ')
    } else if c == 'e' || c == 'E' {
        Some('ᛞ')
    } else if c == 'f' || c == 'F' {
        Some('ᛟ')
    } else if c == '*' {
        Some('ᚱ')
    } else if c == 'z' {
        Some('ᚠ')
    } else if c == '<' {
        Some('ᚲ')
    } else if c == '>' {
        Some('×')
    } else {
        None
    }
}

/// The character that a rune stands for, letters in lower case; `None` for any
/// character that is no rune of the alphabet.
pub open spec fn char_of_rune(r: char) -> Option<char> {
    if r == 'ᚺ' {
        Some('0')
    } else if r == 'ᚾ' {
        Some('1')
    } else if r == 'ᛁ' {
        Some('2')
    } else if r == 'ᛃ' {
        Some('3')
    } else if r == 'ᛈ' {
        Some('4')
    } else if r == 'ᛇ' {
        Some('5')
    } else if r == 'ᛉ' {
        Some('6')
    } else if r == 'ᛊ' {
        Some('7')
    } else if r == 'ᛏ' {
        Some('8')
    } else if r == 'ᛒ' {
        Some('9')
    } else if r == 'ᛖ' {
        Some('a')
    } else if r == 'ᛗ' {
        Some('b')
    } else if r == 'ᛚ' {
        Some('c')
    } else if r == 'ᛜ' {
        Some('d')
    } else if r == 'ᛞ' {
        Some('e')
    } else if r == 'ᛟ' {
        Some('f')
    } else if r == 'ᚱ' {
        Some('*')
    } else if r == 'ᚠ' {
        Some('z')
    } else if r == 'ᚲ' {
        Some('<')
    } else if r == '×' {
        Some('>')
    } else {
        None
    }
}

/// The rune of `c` where it has one, else `c` itself.
pub open spec fn rune_or_same(c: char) -> char {
    match rune_of(c) {
        Some(r) => r,
        None => c,
    }
}

/// A text with every character that has a rune replaced by it.
pub open spec fn to_runes(s: Seq<char>) -> Seq<char> {
    s.map_values(|c: char| rune_or_same(c))
}

pub fn char_to_rune(c: char) -> (r: Option<char>)
    ensures
        r == rune_of(c),
{
    match c {
        '0' => Some('ᚺ'),
        '1' => Some('ᚾ'),
        '2' => Some('ᛁ'),
        '3' => Some('ᛃ'),
        '4' => Some('ᛈ'),
        '5' => Some('ᛇ'),
        '6' => Some('ᛉ'),
        '7' => Some('ᛊ'),
        '8' => Some('ᛏ'),
        '9' => Some('ᛒ'),
        'a' | 'A' => Some('ᛖ'),
        'b' | 'B' => Some('ᛗ'),
        'c' | 'C' => Some('ᛚ'),
        'd' | 'D' => Some('ᛜ'),
        'e' | 'E' => Some('ᛞ'),
        'f' | 'F' => Some('ᛟ'),
        '*' => Some('ᚱ'),
        'z' => Some('ᚠ'),
        '<' => Some('ᚲ'),
        '>' => Some('×'),
        _ => None,
    }
}

pub fn rune_to_char(c: char) -> (r: Option<char>)
    ensures
        r == char_of_rune(c),
{
    match c {
        'ᚺ' => Some('0'),
        'ᚾ' => Some('1'),
        'ᛁ' => Some('2'),
        'ᛃ' => Some('3'),
        'ᛈ' => Some('4'),
        'ᛇ' => Some('5'),
        'ᛉ' => Some('6'),
        'ᛊ' => Some('7'),
        'ᛏ' => Some('8'),
        'ᛒ' => Some('9'),
        'ᛖ' => Some('a'),
        'ᛗ' => Some('b'),
        'ᛚ' => Some('c'),
        'ᛜ' => Some('d'),
        'ᛞ' => Some('e'),
        'ᛟ' => Some('f'),
        'ᚱ' => Some('*'),
        'ᚠ' => Some('z'),
        'ᚲ' => Some('<'),
        '×' => Some('>'),
        _ => None,
    }
}

/// Reading a rune back gives the character it was made from, letters in lower
/// case: the two tables are inverse to each other.
pub proof fn lemma_rune_inverse(c: char)
    ensures
        rune_of(c) matches Some(r) ==> char_of_rune(r) is Some && rune_of(char_of_rune(r)->0)
            == Some(r),
        rune_of(c) matches Some(r) ==> (char_of_rune(r) == Some(c) || ('A' <= c <= 'F'
            && char_of_rune(r)->0 as int == c as int + 32)),
        char_of_rune(c) matches Some(p) ==> rune_of(p) == Some(c),
{
}

pub fn string_to_rune(s: &str) -> (out: String)
    ensures
        out@ == to_runes(s@),
{
    let mut out = String::new();
    for c in it: s.chars()
        invariant
            it.seq() == s@,
            out@ == to_runes(s@.take(it.index())),
    {
        match char_to_rune(c) {
            Some(r) => push_char(&mut out, r),
            None => push_char(&mut out, c),
        }
        assert(s@.take(it.index() + 1) == s@.take(it.index()).push(s@[it.index()]));
        assert(to_runes(s@.take(it.index() + 1)) == to_runes(s@.take(it.index())).push(
            rune_or_same(s@[it.index()]),
        ));
    }
    assert(s@.take(s@.len() as int) == s@);
    out
}

/// The value of a digit rune; `None` for any other character.
pub open spec fn rune_value(c: char) -> Option<u16> {
    match char_of_rune(c) {
        Some(p) => hex_value(p),
        None => None,
    }
}

/// The values of the digit runes of a text, in order; every other character
/// is passed over.
pub open spec fn rune_digits(text: Seq<char>) -> Seq<u16>
    decreases text.len(),
{
    if text.len() == 0 {
        Seq::empty()
    } else {
        match rune_value(text.last()) {
            Some(d) => rune_digits(text.drop_last()).push(d),
            None => rune_digits(text.drop_last()),
        }
    }
}

/// Reads a word from a text that holds four digit runes, whatever else it
/// holds. A text with another number of digit runes is refused.
pub fn to_word(s: &str) -> (out: Result<Word, String>)
    ensures
        match out {
            Ok(word) => {
                let digits = rune_digits(s@);
                &&& digits.len() == 4
                &&& word@ == digits[0] * 4096 + digits[1] * 256 + digits[2] * 16 + digits[3]
            },
            Err(message) => rune_digits(s@).len() != 4 && message@ == "Invalid word length: "@
                + dec_min(rune_digits(s@).len()),
        },
{
    let mut digits: Vec<u16> = Vec::new();
    for c in it: s.chars()
        invariant
            it.seq() == s@,
            digits@ == rune_digits(s@.take(it.index())),
            forall|k: int| 0 <= k < digits@.len() ==> #[trigger] digits@[k] < 16,
    {
        assert(s@.take(it.index() + 1).drop_last() == s@.take(it.index()));
        match rune_to_char(c) {
            Some(p) => match hex_digit_value(p) {
                Some(d) => {
                    digits.push(d);
                },
                None => {},
            },
            None => {},
        }
    }
    assert(s@.take(s@.len() as int) == s@);
    if digits.len() == 4 {
        Ok(Word::new(digits[0] * 4096 + digits[1] * 256 + digits[2] * 16 + digits[3]))
    } else {
        let mut message = "Invalid word length: ".to_string();
        push_dec(&mut message, digits.len());
        Err(message)
    }
}

/// One run of equal words, in the shortest form that the text offers for it.
#[derive(Debug, Clone, Copy)]
pub enum WordGroup {
    /// A single zero word.
    Zero,
    /// That many zero words, two or more.
    ZeroChain(usize),
    /// One word that has no shorter form.
    Word(Word),
    /// A word that has no shorter form, and how often it comes again.
    WordChain(Word, usize),
    /// A value below 16, and how often it comes again.
    LowNibble(u16, Option<usize>),
    /// A value below 256, and how often it comes again.
    LowByte(u16, Option<usize>),
    /// A multiple of 256, and how often it comes again.
    HighByte(u16, Option<usize>),
    /// A multiple of 4096, and how often it comes again.
    HighNibble(u16, Option<usize>),
}

/// The text that asks for `extra` further copies of the word just written.
pub open spec fn repeat_text(extra: Option<usize>) -> Seq<char> {
    match extra {
        Some(n) => hex_min(n as nat).push('*'),
        None => Seq::empty(),
    }
}

/// How many further copies `extra` asks for.
pub open spec fn repeat_count(extra: Option<usize>) -> nat {
    match extra {
        Some(n) => n as nat,
        None => 0,
    }
}

impl WordGroup {
    /// The group in hexadecimal digits and markers, before the runes are put in.
    pub open spec fn text(self) -> Seq<char> {
        match self {
            WordGroup::Zero => seq!['1', 'z'],
            WordGroup::ZeroChain(n) => hex_min(n as nat).push('z'),
            WordGroup::Word(w) => hex4(w@),
            WordGroup::WordChain(w, n) => hex4(w@) + hex_min(n as nat).push('*'),
            WordGroup::LowNibble(v, extra) => hex_min(v as nat).push('>') + repeat_text(extra),
            WordGroup::LowByte(v, extra) => hex_pad(v as nat, 2).push('>') + repeat_text(extra),
            WordGroup::HighByte(v, extra) => hex_pad(v as nat / 256, 2).push('<') + repeat_text(
                extra,
            ),
            WordGroup::HighNibble(v, extra) => hex_min(v as nat / 4096).push('<') + repeat_text(
                extra,
            ),
        }
    }

    /// The group as it is sent: its text in runes.
    pub open spec fn rendered(self) -> Seq<char> {
        to_runes(self.text())
    }

    /// The word that the group repeats.
    pub open spec fn word(self) -> u16 {
        match self {
            WordGroup::Zero => 0,
            WordGroup::ZeroChain(_) => 0,
            WordGroup::Word(w) => w@,
            WordGroup::WordChain(w, _) => w@,
            WordGroup::LowNibble(v, _) => v,
            WordGroup::LowByte(v, _) => v,
            WordGroup::HighByte(v, _) => v,
            WordGroup::HighNibble(v, _) => v,
        }
    }

    /// How many words the group stands for.
    pub open spec fn count(self) -> nat {
        match self {
            WordGroup::Zero => 1,
            WordGroup::ZeroChain(n) => n as nat,
            WordGroup::Word(_) => 1,
            WordGroup::WordChain(_, n) => 1 + n as nat,
            WordGroup::LowNibble(_, extra) => 1 + repeat_count(extra),
            WordGroup::LowByte(_, extra) => 1 + repeat_count(extra),
            WordGroup::HighByte(_, extra) => 1 + repeat_count(extra),
            WordGroup::HighNibble(_, extra) => 1 + repeat_count(extra),
        }
    }

    /// The run of words that the group stands for.
    pub open spec fn expand(self) -> Seq<u16> {
        Seq::new(self.count(), |i: int| self.word())
    }

    /// The group is of the form that its kind promises: a chain has at least two
    /// words, a shorthand holds a non-zero value whose other digits are zero, and
    /// a plain word has no shorthand.
    pub open spec fn wf(self) -> bool {
        match self {
            WordGroup::Zero => true,
            WordGroup::ZeroChain(n) => n >= 2,
            WordGroup::Word(w) => !has_shorthand(w@),
            WordGroup::WordChain(w, n) => !has_shorthand(w@) && n >= 1,
            WordGroup::LowNibble(v, extra) => 0 < v < 16 && extra != Some(0usize),
            WordGroup::LowByte(v, extra) => 16 <= v < 256 && extra != Some(0usize),
            WordGroup::HighByte(v, extra) => v % 256 == 0 && v % 4096 != 0 && extra != Some(
                0usize,
            ),
            WordGroup::HighNibble(v, extra) => v != 0 && v % 4096 == 0 && extra != Some(0usize),
        }
    }

    /// Every count of the group can be written in three hexadecimal digits, the
    /// most that a marker takes.
    pub open spec fn fits(self) -> bool {
        match self {
            WordGroup::Zero => true,
            WordGroup::ZeroChain(n) => n <= 0xfff,
            WordGroup::Word(_) => true,
            WordGroup::WordChain(_, n) => n <= 0xfff,
            WordGroup::LowNibble(_, extra) => repeat_count(extra) <= 0xfff,
            WordGroup::LowByte(_, extra) => repeat_count(extra) <= 0xfff,
            WordGroup::HighByte(_, extra) => repeat_count(extra) <= 0xfff,
            WordGroup::HighNibble(_, extra) => repeat_count(extra) <= 0xfff,
        }
    }

    /// The group as it is sent.
    pub fn to_string(&self) -> (out: String)
        ensures
            out@ == self.rendered(),
    {
        let mut hex = String::new();
        match *self {
            WordGroup::Zero => {
                push_char(&mut hex, '1');
                push_char(&mut hex, 'z');
            },
            WordGroup::ZeroChain(n) => {
                push_hex(&mut hex, n);
                push_char(&mut hex, 'z');
            },
            WordGroup::Word(w) => {
                push_hex4(&mut hex, w.value());
            },
            WordGroup::WordChain(w, n) => {
                push_hex4(&mut hex, w.value());
                push_hex(&mut hex, n);
                push_char(&mut hex, '*');
            },
            WordGroup::LowNibble(v, extra) => {
                push_hex(&mut hex, v as usize);
                push_char(&mut hex, '>');
                push_repeat(&mut hex, extra);
            },
            WordGroup::LowByte(v, extra) => {
                push_hex_pad(&mut hex, v as usize, 2);
                push_char(&mut hex, '>');
                push_repeat(&mut hex, extra);
            },
            WordGroup::HighByte(v, extra) => {
                push_hex_pad(&mut hex, (v / 256) as usize, 2);
                push_char(&mut hex, '<');
                push_repeat(&mut hex, extra);
            },
            WordGroup::HighNibble(v, extra) => {
                push_hex(&mut hex, (v / 4096) as usize);
                push_char(&mut hex, '<');
                push_repeat(&mut hex, extra);
            },
        }
        assert(hex@ == self.text());
        string_to_rune(hex.as_str())
    }
}

/// Whether a word has a form of fewer than four digits: zero, or all its set
/// bits in the highest or the lowest one or two digits.
pub open spec fn has_shorthand(v: u16) -> bool {
    v % 256 == 0 || v < 256
}

fn push_repeat(out: &mut String, extra: Option<usize>)
    ensures
        final(out)@ == old(out)@ + repeat_text(extra),
{
    let ghost before = out@;
    match extra {
        Some(n) => {
            push_hex(out, n);
            push_char(out, '*');
        },
        None => {},
    }
    assert(out@ == before + repeat_text(extra));
}

/// The groups as they are sent, one after another.
pub open spec fn rendered_groups(groups: Seq<WordGroup>) -> Seq<char>
    decreases groups.len(),
{
    if groups.len() == 0 {
        Seq::empty()
    } else {
        rendered_groups(groups.drop_last()) + groups.last().rendered()
    }
}

/// The words that the groups stand for, one run after another.
pub open spec fn expanded_groups(groups: Seq<WordGroup>) -> Seq<u16>
    decreases groups.len(),
{
    if groups.len() == 0 {
        Seq::empty()
    } else {
        expanded_groups(groups.drop_last()) + groups.last().expand()
    }
}

/// How many words from index `from` on equal `x`, up to the first that differs.
pub open spec fn run_length(words: Seq<Word>, from: int, x: Word) -> nat
    decreases words.len() - from,
{
    if 0 <= from < words.len() && words[from] == x {
        1 + run_length(words, from + 1, x)
    } else {
        0
    }
}

/// The group for word `w` followed by `extra` further copies of itself.
pub open spec fn group_of(w: Word, extra: nat) -> WordGroup {
    let v = w@;
    let again = if extra > 0 {
        Some(extra as usize)
    } else {
        None
    };
    if v == 0 {
        if extra == 0 {
            WordGroup::Zero
        } else {
            WordGroup::ZeroChain((extra + 1) as usize)
        }
    } else if v % 4096 == 0 {
        WordGroup::HighNibble(v, again)
    } else if v % 256 == 0 {
        WordGroup::HighByte(v, again)
    } else if v < 16 {
        WordGroup::LowNibble(v, again)
    } else if v < 256 {
        WordGroup::LowByte(v, again)
    } else if extra == 0 {
        WordGroup::Word(w)
    } else {
        WordGroup::WordChain(w, extra as usize)
    }
}

/// The groups of the words from index `from` on: one group for each maximal run
/// of equal words, in order.
pub open spec fn groups_from(words: Seq<Word>, from: nat) -> Seq<WordGroup>
    decreases
            if from <= words.len() {
                words.len() - from
            } else {
                0
            },
{
    if from >= words.len() {
        Seq::empty()
    } else {
        let first = words[from as int];
        let extra = run_length(words, from as int + 1, first);
        seq![group_of(first, extra)] + groups_from(words, from + 1 + extra)
    }
}

/// The groups of a whole sequence of words.
pub open spec fn encode(words: Seq<Word>) -> Seq<WordGroup> {
    groups_from(words, 0)
}

/// A run never reaches past the end of the words.
pub proof fn lemma_run_length_bound(words: Seq<Word>, from: int, x: Word)
    requires
        0 <= from <= words.len(),
    ensures
        from + run_length(words, from, x) <= words.len(),
        forall|i: int| from <= i < from + run_length(words, from, x) ==> words[i] == x,
        from + run_length(words, from, x) < words.len() ==> words[from + run_length(
            words,
            from,
            x,
        )] != x,
    decreases words.len() - from,
{
    if from < words.len() && words[from] == x {
        lemma_run_length_bound(words, from + 1, x);
    }
}

/// A stretch of `count` words equal to `x` that ends before a different word,
/// or at the end, is the run at `from`.
pub proof fn lemma_run_length_is(words: Seq<Word>, from: int, x: Word, count: nat)
    requires
        0 <= from,
        from + count <= words.len(),
        forall|i: int| from <= i < from + count ==> words[i] == x,
        from + count < words.len() ==> words[from + count] != x,
    ensures
        run_length(words, from, x) == count,
    decreases count,
{
    if count > 0 {
        lemma_run_length_is(words, from + 1, x, (count - 1) as nat);
    }
}

/// A cursor over a sequence of words.
pub struct WordReader {
    words: Vec<Word>,
    index: usize,
}

impl WordReader {
    /// The words that the reader walks over.
    pub closed spec fn words(&self) -> Seq<Word> {
        self.words@
    }

    /// The index of the word that comes next; the number of words when none is left.
    pub closed spec fn position(&self) -> int {
        if self.index <= self.words@.len() {
            self.index as int
        } else {
            self.words@.len() as int
        }
    }

    pub fn new(words: Vec<Word>) -> (reader: WordReader)
        ensures
            reader.words() == words@,
            reader.position() == 0,
    {
        WordReader { words, index: 0 }
    }

    /// The word at the cursor, which then moves one word on.
    pub fn next(&mut self) -> (word: Option<Word>)
        ensures
            final(self).words() == old(self).words(),
            0 <= old(self).position() <= old(self).words().len(),
            old(self).position() < old(self).words().len() ==> word == Some(
                old(self).words()[old(self).position()],
            ) && final(self).position() == old(self).position() + 1,
            old(self).position() == old(self).words().len() ==> word.is_none()
                && final(self).position() == old(self).position(),
    {
        if self.index >= self.words.len() {
            return None;
        }
        let word = self.words[self.index];
        self.index += 1;
        Some(word)
    }

    /// Moves the cursor `count` words on, or to the end if fewer are left.
    pub fn advance(&mut self, count: usize)
        ensures
            final(self).words() == old(self).words(),
            final(self).position() == if old(self).position() + count <= old(self).words().len() {
                old(self).position() + count
            } else {
                old(self).words().len() as int
            },
    {
        assert(self.words@.len() == self.words.len());
        if count > usize::MAX - self.index {
            self.index = usize::MAX;
        } else {
            self.index += count;
        }
    }

    /// The word at the cursor, which stays.
    pub fn peek(&self) -> (word: Option<Word>)
        ensures
            0 <= self.position() <= self.words().len(),
            self.position() < self.words().len() ==> word == Some(self.words()[self.position()]),
            self.position() == self.words().len() ==> word.is_none(),
    {
        if self.index >= self.words.len() {
            return None;
        }
        Some(self.words[self.index])
    }

    /// How many words from the cursor on pass `test`, up to the first that fails it.
    pub fn count_ahead<F: Fn(Word) -> bool>(&self, test: F) -> (count: usize)
        requires
            forall|w: Word| test.requires((w,)),
        ensures
            0 <= self.position() <= self.position() + count <= self.words().len() <= usize::MAX,
            forall|i: int|
                self.position() <= i < self.position() + count ==> test.ensures(
                    (#[trigger] self.words()[i],),
                    true,
                ),
            self.position() + count < self.words().len() ==> test.ensures(
                (self.words()[self.position() + count],),
                false,
            ),
    {
        let mut count: usize = 0;
        if self.index >= self.words.len() {
            return count;
        }
        let mut i: usize = self.index;
        while i < self.words.len()
            invariant
                self.index <= i <= self.words@.len(),
                i == self.index + count,
                forall|w: Word| test.requires((w,)),
                forall|k: int|
                    self.index <= k < i ==> test.ensures((#[trigger] self.words@[k],), true),
            ensures
                self.index + count <= self.words@.len(),
                forall|k: int|
                    self.index <= k < self.index + count ==> test.ensures(
                        (#[trigger] self.words@[k],),
                        true,
                    ),
                self.index + count < self.words@.len() ==> test.ensures(
                    (self.words@[self.index + count],),
                    false,
                ),
            decreases self.words@.len() - i,
        {
            if test(self.words[i]) {
                count += 1;
            } else {
                break;
            }
            i += 1;
        }
        count
    }
}

/// Builds the groups of a sequence of words.
pub struct WordGroupConstructor {
    reader: WordReader,
    groups: Vec<WordGroup>,
}

impl WordGroupConstructor {
    /// The words to encode.
    pub closed spec fn words(&self) -> Seq<Word> {
        self.reader.words()
    }

    /// The index of the first word that no group stands for yet.
    pub closed spec fn position(&self) -> int {
        self.reader.position()
    }

    /// The groups built so far.
    pub closed spec fn groups(&self) -> Seq<WordGroup> {
        self.groups@
    }

    pub fn new(words: Vec<Word>) -> (ctor: WordGroupConstructor)
        ensures
            ctor.words() == words@,
            ctor.position() == 0,
            ctor.groups() == Seq::<WordGroup>::empty(),
    {
        WordGroupConstructor { reader: WordReader::new(words), groups: Vec::new() }
    }

    /// Encodes the words that are left and returns all groups built so far.
    pub fn construct(&mut self) -> (out: Option<Vec<WordGroup>>)
        ensures
            final(self).words() == old(self).words(),
            final(self).position() == old(self).words().len(),
            final(self).groups() == old(self).groups() + groups_from(
                old(self).words(),
                old(self).position() as nat,
            ),
            out matches Some(groups) && groups@ == final(self).groups(),
    {
        let ghost words = self.reader.words();
        let ghost total = self.groups@ + groups_from(words, self.reader.position() as nat);
        loop
            invariant
                self.reader.words() == words,
                0 <= self.reader.position() <= words.len(),
                total == self.groups@ + groups_from(words, self.reader.position() as nat),
            ensures
                self.reader.words() == words,
                self.reader.position() == words.len(),
                total == self.groups@,
            decreases words.len() - self.reader.position(),
        {
            let ghost at = self.reader.position();
            let word = match self.reader.next() {
                Some(word) => word,
                None => {
                    break;
                },
            };
            let test = |w: Word| -> (same: bool)
                ensures
                    same == (w == word),
                { w == word };
            let repeats = self.reader.count_ahead(test);
            proof {
                lemma_run_length_is(words, at + 1, word, repeats as nat);
            }
            let group = classify(word, repeats);
            self.groups.push(group);
            self.reader.advance(repeats);
            assert(total == self.groups@ + groups_from(words, self.reader.position() as nat));
        }
        let mut out: Vec<WordGroup> = Vec::new();
        let mut i: usize = 0;
        while i < self.groups.len()
            invariant
                i <= self.groups@.len(),
                out@ == self.groups@.take(i as int),
            decreases self.groups@.len() - i,
        {
            out.push(self.groups[i]);
            i += 1;
            assert(self.groups@.take(i as int) == self.groups@.take(i - 1).push(
                self.groups@[i - 1],
            ));
        }
        assert(self.groups@.take(self.groups@.len() as int) == self.groups@);
        Some(out)
    }
}

/// The groups of a sequence of words.
pub fn encode_words(words: Vec<Word>) -> (groups: Vec<WordGroup>)
    ensures
        groups@ == encode(words@),
{
    let mut ctor = WordGroupConstructor::new(words);
    ctor.construct().unwrap()
}

/// The group for `word` followed by `repeats` further copies of itself.
fn classify(word: Word, repeats: usize) -> (group: WordGroup)
    requires
        repeats < usize::MAX,
    ensures
        group == group_of(word, repeats as nat),
{
    let v = word.value();
    let again = if repeats > 0 {
        Some(repeats)
    } else {
        None
    };
    if v == 0 {
        if repeats == 0 {
            WordGroup::Zero
        } else {
            WordGroup::ZeroChain(repeats + 1)
        }
    } else if v % 4096 == 0 {
        WordGroup::HighNibble(v, again)
    } else if v % 256 == 0 {
        WordGroup::HighByte(v, again)
    } else if v < 16 {
        WordGroup::LowNibble(v, again)
    } else if v < 256 {
        WordGroup::LowByte(v, again)
    } else if repeats == 0 {
        WordGroup::Word(word)
    } else {
        WordGroup::WordChain(word, repeats)
    }
}

} // verus!
