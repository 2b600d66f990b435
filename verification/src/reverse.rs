use vstd::prelude::*;
use crate::tokens::{SKIP_RUNE, STEP_RUNE};
use crate::word::{values, Word};

verus! {

/// The number of words that the decoder can address.
pub const MEMORY_WORDS: usize = 4096;

/// What one character of the input asks the decoder to do.
pub enum Symbol {
    /// A hexadecimal digit, with its value.
    Digit(u16),
    /// Move the cursor on without writing.
    Skip,
    /// Move the cursor one word on and leave the entered digits alone.
    Step,
    /// Write zero words.
    ZeroFill,
    /// Write the last word again.
    Repeat,
    /// Write the entered digits as the low digits of a word.
    RightAlign,
    /// Write the entered digits as the high digits of a word.
    LeftAlign,
    /// Nothing: the character is passed over.
    Other,
}

/// The meaning of a character. The digits are `0` to `9`, `a` to `f` and `u` to
/// `z` in either case (the last six count as ten to fifteen), and the sixteen
/// digit runes. Since `z` is a digit, zero fill is asked for by its rune alone;
/// the other markers are read as runes and as plain characters.
pub open spec fn symbol_of(c: char) -> Symbol {
    if '0' <= c <= '9' {
        Symbol::Digit((c as int - '0' as int) as u16)
    } else if 'A' <= c <= 'F' {
        Symbol::Digit((c as int - 'A' as int + 10) as u16)
    } else if 'a' <= c <= 'f' {
        Symbol::Digit((c as int - 'a' as int + 10) as u16)
    } else if 'U' <= c <= 'Z' {
        Symbol::Digit((c as int - 'U' as int + 10) as u16)
    } else if 'u' <= c <= 'z' {
        Symbol::Digit((c as int - 'u' as int + 10) as u16)
    } else if c == 'ᚺ' {
        Symbol::Digit(0)
    } else if c == 'ᚾ' {
        Symbol::Digit(1)
    } else if c == 'ᛁ' {
        Symbol::Digit(2)
    } else if c == 'ᛃ' {
        Symbol::Digit(3)
    } else if c == 'ᛈ' {
        Symbol::Digit(4)
    } else if c == 'ᛇ' {
        Symbol::Digit(5)
    } else if c == 'ᛉ' {
        Symbol::Digit(6)
    } else if c == 'ᛊ' {
        Symbol::Digit(7)
    } else if c == 'ᛏ' {
        Symbol::Digit(8)
    } else if c == 'ᛒ' {
        Symbol::Digit(9)
    } else if c == 'ᛖ' {
        Symbol::Digit(10)
    } else if c == 'ᛗ' {
        Symbol::Digit(11)
    } else if c == 'ᛚ' {
        Symbol::Digit(12)
    } else if c == 'ᛜ' {
        Symbol::Digit(13)
    } else if c == 'ᛞ' {
        Symbol::Digit(14)
    } else if c == 'ᛟ' {
        Symbol::Digit(15)
    } else if c == SKIP_RUNE || c == '_' {
        Symbol::Skip
    } else if c == STEP_RUNE {
        Symbol::Step
    } else if c == 'ᚠ' {
        Symbol::ZeroFill
    } else if c == 'ᚱ' || c == '*' {
        Symbol::Repeat
    } else if c == '×' || c == '>' {
        Symbol::RightAlign
    } else if c == 'ᚲ' || c == '<' {
        Symbol::LeftAlign
    } else {
        Symbol::Other
    }
}

/// The state of a decoding: the memory written so far, the cursor, the digits
/// entered since the last write (read as one number, and how many they are),
/// the last word written and the highest address written to.
pub struct DecodeState {
    pub memory: Seq<u16>,
    pub addr: nat,
    pub entered: nat,
    pub digits: nat,
    pub last: u16,
    pub high: nat,
    pub written: bool,
}

/// What a number of `digits` digits is multiplied by to stand in the highest
/// places of a word of four digits.
pub open spec fn scale(digits: nat) -> nat {
    if digits == 1 {
        4096
    } else if digits == 2 {
        256
    } else if digits == 3 {
        16
    } else {
        1
    }
}

/// The least number that `digits` hexadecimal digits cannot hold.
pub open spec fn limit(digits: nat) -> nat {
    if digits == 0 {
        1
    } else if digits == 1 {
        16
    } else if digits == 2 {
        256
    } else {
        4096
    }
}

impl DecodeState {
    /// The state before any input: a cleared memory, nothing written.
    pub open spec fn initial() -> DecodeState {
        DecodeState {
            memory: Seq::new(MEMORY_WORDS as nat, |i: int| 0u16),
            addr: 0,
            entered: 0,
            digits: 0,
            last: 0,
            high: 0,
            written: false,
        }
    }

    /// The cursor and the mark are addresses, and at most three digits wait.
    pub open spec fn wf(self) -> bool {
        &&& self.memory.len() == MEMORY_WORDS
        &&& self.addr < MEMORY_WORDS
        &&& self.high < MEMORY_WORDS
        &&& self.digits <= 3
        &&& self.entered < limit(self.digits)
    }

    /// The state with the cursor moved `n` words on, round the end of the memory.
    pub open spec fn moved(self, n: nat) -> DecodeState {
        DecodeState { addr: (self.addr + n) % (MEMORY_WORDS as nat), ..self }
    }

    /// The state with no digits entered.
    pub open spec fn cleared(self) -> DecodeState {
        DecodeState { entered: 0, digits: 0, ..self }
    }

    /// The state after `v` is written at the cursor, which moves one word on.
    pub open spec fn write(self, v: u16) -> DecodeState {
        DecodeState {
            memory: self.memory.update(self.addr as int, v),
            high: if self.addr > self.high {
                self.addr
            } else {
                self.high
            },
            written: true,
            ..self
        }.moved(1)
    }

    /// The state after `v` is written `n` times.
    pub open spec fn write_many(self, v: u16, n: nat) -> DecodeState
        decreases n,
    {
        if n == 0 {
            self
        } else {
            self.write(v).write_many(v, (n - 1) as nat)
        }
    }

    /// The state after `v` is written and kept as the last word written.
    pub open spec fn write_new(self, v: u16) -> DecodeState {
        DecodeState { last: v, ..self }.write(v)
    }

    /// The word whose highest digits are the entered ones, the others zero.
    pub open spec fn left_aligned(self) -> nat {
        self.entered * scale(self.digits)
    }

    /// The count that a marker takes from the entered digits: their number, and
    /// one where none was entered or the number is zero.
    pub open spec fn count(self) -> nat {
        if self.entered == 0 {
            1
        } else {
            self.entered
        }
    }

    /// The state after one character of input.
    pub open spec fn step(self, c: char) -> DecodeState {
        match symbol_of(c) {
            Symbol::Digit(d) => {
                let entered = self.entered * 16 + d as nat;
                if self.digits >= 3 {
                    self.write_new(entered as u16).cleared()
                } else {
                    DecodeState { entered, digits: self.digits + 1, ..self }
                }
            },
            Symbol::Skip => self.moved(self.count()).cleared(),
            Symbol::Step => self.moved(1),
            Symbol::ZeroFill => self.write_many(0, self.count()).cleared(),
            Symbol::Repeat => self.write_many(self.last, self.count()).cleared(),
            Symbol::RightAlign => self.write_new(self.entered as u16).cleared(),
            Symbol::LeftAlign => self.write_new(self.left_aligned() as u16).cleared(),
            Symbol::Other => self,
        }
    }

    /// The state after a whole input, character by character.
    pub open spec fn run(self, input: Seq<char>) -> DecodeState
        decreases input.len(),
    {
        if input.len() == 0 {
            self
        } else {
            self.run(input.drop_last()).step(input.last())
        }
    }

    /// The state at the end of the input: digits that still wait are written as
    /// the high digits of one more word.
    pub open spec fn finish(self) -> DecodeState {
        if self.digits > 0 {
            self.write(self.left_aligned() as u16)
        } else {
            self
        }
    }

    /// The words from address zero up to the highest address written to; none
    /// where nothing was written.
    pub open spec fn output(self) -> Seq<u16> {
        if self.written {
            self.memory.take(self.high as int + 1)
        } else {
            Seq::empty()
        }
    }
}

/// The words that a text decodes to.
pub open spec fn decode(input: Seq<char>) -> Seq<u16> {
    DecodeState::initial().run(input).finish().output()
}

/// Every step keeps a state well formed.
pub proof fn lemma_step_wf(s: DecodeState, c: char)
    requires
        s.wf(),
    ensures
        s.step(c).wf(),
{
    match symbol_of(c) {
        Symbol::ZeroFill => lemma_write_many_wf(s, 0, s.count()),
        Symbol::Repeat => lemma_write_many_wf(s, s.last, s.count()),
        _ => {},
    }
}

/// Writing keeps a state well formed, and leaves the entered digits alone.
pub proof fn lemma_write_many_wf(s: DecodeState, v: u16, n: nat)
    requires
        s.wf(),
    ensures
        s.write_many(v, n).wf(),
        s.write_many(v, n).entered == s.entered,
        s.write_many(v, n).digits == s.digits,
        s.write_many(v, n).last == s.last,
    decreases n,
{
    if n > 0 {
        lemma_write_many_wf(s.write(v), v, (n - 1) as nat);
    }
}

/// Every input keeps a state well formed.
pub proof fn lemma_run_wf(s: DecodeState, input: Seq<char>)
    requires
        s.wf(),
    ensures
        s.run(input).wf(),
    decreases input.len(),
{
    if input.len() > 0 {
        lemma_run_wf(s, input.drop_last());
        lemma_step_wf(s.run(input.drop_last()), input.last());
    }
}

/// Reading one input after another is reading the two as one.
pub proof fn lemma_run_concat(s: DecodeState, a: Seq<char>, b: Seq<char>)
    ensures
        s.run(a + b) == s.run(a).run(b),
    decreases b.len(),
{
    if b.len() == 0 {
        assert(a + b == a);
    } else {
        lemma_run_concat(s, a, b.drop_last());
        assert((a + b).drop_last() == a + b.drop_last());
    }
}

/// Reading an input and then one character is a run and a step.
pub proof fn lemma_run_push(s: DecodeState, a: Seq<char>, c: char)
    ensures
        s.run(a.push(c)) == s.run(a).step(c),
{
    assert(a.push(c).drop_last() == a);
}

/// A character without a meaning changes nothing: an input with such a
/// character anywhere in it decodes to what the input without it decodes to.
pub proof fn lemma_ignored_character(before: Seq<char>, c: char, after: Seq<char>)
    requires
        symbol_of(c) == Symbol::Other,
    ensures
        decode(before.push(c) + after) == decode(before + after),
{
    let s = DecodeState::initial();
    lemma_run_push(s, before, c);
    lemma_run_concat(s, before.push(c), after);
    lemma_run_concat(s, before, after);
}

/// The cursor never leaves the memory, whatever is read, and the words handed
/// out are as many as the highest address written to and one more: never more
/// than the memory holds, however often the cursor went round.
pub proof fn lemma_decode_length(input: Seq<char>)
    ensures
        ({
            let end = DecodeState::initial().run(input).finish();
            &&& end.addr < MEMORY_WORDS
            &&& end.high < MEMORY_WORDS
            &&& decode(input).len() == if end.written {
                end.high + 1
            } else {
                0
            }
        }),
        decode(input).len() <= MEMORY_WORDS,
{
    lemma_run_wf(DecodeState::initial(), input);
}

/// A skip of `n` words moves the cursor to the address `n` further on, counted
/// round the end of the memory, and writes nothing.
pub proof fn lemma_skip_wraps(s: DecodeState, c: char)
    requires
        s.wf(),
        symbol_of(c) == Symbol::Skip,
    ensures
        s.step(c).addr == (s.addr + s.count()) % (MEMORY_WORDS as nat),
        s.step(c).addr < MEMORY_WORDS,
        s.step(c).memory == s.memory,
        s.step(c).high == s.high,
        s.step(c).written == s.written,
{
}

/// The meaning of a character.
pub fn classify(c: char) -> (symbol: Symbol)
    ensures
        symbol == symbol_of(c),
        symbol matches Symbol::Digit(d) ==> d < 16,
{
    let n: u32 = c as u32;
    if 48 <= n && n <= 57 {
        Symbol::Digit((n - 48) as u16)
    } else if 65 <= n && n <= 70 {
        Symbol::Digit((n - 55) as u16)
    } else if 97 <= n && n <= 102 {
        Symbol::Digit((n - 87) as u16)
    } else if 85 <= n && n <= 90 {
        Symbol::Digit((n - 75) as u16)
    } else if 117 <= n && n <= 122 {
        Symbol::Digit((n - 107) as u16)
    } else {
        match c {
            'ᚺ' => Symbol::Digit(0),
            'ᚾ' => Symbol::Digit(1),
            'ᛁ' => Symbol::Digit(2),
            'ᛃ' => Symbol::Digit(3),
            'ᛈ' => Symbol::Digit(4),
            'ᛇ' => Symbol::Digit(5),
            'ᛉ' => Symbol::Digit(6),
            'ᛊ' => Symbol::Digit(7),
            'ᛏ' => Symbol::Digit(8),
            'ᛒ' => Symbol::Digit(9),
            'ᛖ' => Symbol::Digit(10),
            'ᛗ' => Symbol::Digit(11),
            'ᛚ' => Symbol::Digit(12),
            'ᛜ' => Symbol::Digit(13),
            'ᛞ' => Symbol::Digit(14),
            'ᛟ' => Symbol::Digit(15),
            'ᚢ' | '_' => Symbol::Skip,
            'ᚨ' => Symbol::Step,
            'ᚠ' => Symbol::ZeroFill,
            'ᚱ' | '*' => Symbol::Repeat,
            '×' | '>' => Symbol::RightAlign,
            'ᚲ' | '<' => Symbol::LeftAlign,
            _ => Symbol::Other,
        }
    }
}

/// A decoding in progress.
pub struct Decoder {
    memory: Vec<u16>,
    addr: usize,
    entered: u16,
    digits: u8,
    last: u16,
    high: usize,
    written: bool,
}

impl View for Decoder {
    type V = DecodeState;

    closed spec fn view(&self) -> DecodeState {
        DecodeState {
            memory: self.memory@,
            addr: self.addr as nat,
            entered: self.entered as nat,
            digits: self.digits as nat,
            last: self.last,
            high: self.high as nat,
            written: self.written,
        }
    }
}

impl Decoder {
    /// A decoder that has read nothing.
    pub fn new() -> (decoder: Decoder)
        ensures
            decoder@ == DecodeState::initial(),
            decoder@.wf(),
    {
        let decoder = Decoder {
            memory: vec![0u16; MEMORY_WORDS],
            addr: 0,
            entered: 0,
            digits: 0,
            last: 0,
            high: 0,
            written: false,
        };
        assert(decoder.memory@ =~= DecodeState::initial().memory);
        decoder
    }

    fn write(&mut self, v: u16)
        requires
            old(self)@.wf(),
        ensures
            final(self)@ == old(self)@.write(v),
            final(self)@.wf(),
    {
        self.memory.set(self.addr, v);
        if self.addr > self.high {
            self.high = self.addr;
        }
        self.written = true;
        self.addr = (self.addr + 1) % MEMORY_WORDS;
    }

    fn write_many(&mut self, v: u16, n: u16)
        requires
            old(self)@.wf(),
        ensures
            final(self)@ == old(self)@.write_many(v, n as nat),
            final(self)@.wf(),
    {
        let mut left: u16 = n;
        while left > 0
            invariant
                self@.wf(),
                self@.write_many(v, left as nat) == old(self)@.write_many(v, n as nat),
            decreases left,
        {
            self.write(v);
            left -= 1;
        }
    }

    fn count(&self) -> (n: u16)
        requires
            self@.wf(),
        ensures
            n == self@.count(),
    {
        if self.entered == 0 {
            1
        } else {
            self.entered
        }
    }

    fn left_aligned(&self) -> (v: u16)
        requires
            self@.wf(),
        ensures
            v == self@.left_aligned(),
    {
        if self.digits == 1 {
            assert(self@.left_aligned() == self.entered * 4096);
            self.entered * 4096
        } else if self.digits == 2 {
            assert(self@.left_aligned() == self.entered * 256);
            self.entered * 256
        } else if self.digits == 3 {
            assert(self@.left_aligned() == self.entered * 16);
            self.entered * 16
        } else {
            assert(self@.left_aligned() == self.entered * 1);
            self.entered
        }
    }

    fn clear(&mut self)
        requires
            old(self)@.wf(),
        ensures
            final(self)@ == old(self)@.cleared(),
            final(self)@.wf(),
    {
        self.entered = 0;
        self.digits = 0;
    }

    /// Reads one character.
    pub fn step(&mut self, c: char)
        requires
            old(self)@.wf(),
        ensures
            final(self)@ == old(self)@.step(c),
            final(self)@.wf(),
    {
        proof {
            lemma_step_wf(self@, c);
        }
        match classify(c) {
            Symbol::Digit(d) => {
                let entered: u16 = self.entered * 16 + d;
                if self.digits >= 3 {
                    self.last = entered;
                    self.write(entered);
                    self.clear();
                } else {
                    self.entered = entered;
                    self.digits += 1;
                }
            },
            Symbol::Skip => {
                self.addr = (self.addr + self.count() as usize) % MEMORY_WORDS;
                self.clear();
            },
            Symbol::Step => {
                self.addr = (self.addr + 1) % MEMORY_WORDS;
            },
            Symbol::ZeroFill => {
                let n = self.count();
                self.write_many(0, n);
                self.clear();
            },
            Symbol::Repeat => {
                let n = self.count();
                self.write_many(self.last, n);
                self.clear();
            },
            Symbol::RightAlign => {
                let v = self.entered;
                self.last = v;
                self.write(v);
                self.clear();
            },
            Symbol::LeftAlign => {
                let v = self.left_aligned();
                self.last = v;
                self.write(v);
                self.clear();
            },
            Symbol::Other => {},
        }
    }

    /// Ends the input and hands out the words written.
    pub fn finish(self) -> (words: Vec<Word>)
        requires
            self@.wf(),
        ensures
            values(words@) == self@.finish().output(),
    {
        let mut decoder = self;
        if decoder.digits > 0 {
            let v = decoder.left_aligned();
            decoder.write(v);
        }
        let mut words: Vec<Word> = Vec::new();
        if decoder.written {
            let mut i: usize = 0;
            while i <= decoder.high
                invariant
                    decoder@.wf(),
                    i <= decoder.high + 1,
                    words@.len() == i,
                    forall|k: int| 0 <= k < i ==> (#[trigger] words@[k])@ == decoder.memory@[k],
                decreases decoder.high + 1 - i,
            {
                words.push(Word::new(decoder.memory[i]));
                i += 1;
            }
        }
        assert(values(words@) =~= self@.finish().output());
        words
    }
}

/// Decodes a text of runes, hexadecimal digits and markers into the words it
/// writes. No input is refused: a character without a meaning is passed over.
pub fn reverse_write(omnom: String) -> (words: Vec<Word>)
    ensures
        values(words@) == decode(omnom@),
{
    let mut decoder = Decoder::new();
    let input = omnom.as_str();
    for c in it: input.chars()
        invariant
            it.seq() == omnom@,
            decoder@.wf(),
            decoder@ == DecodeState::initial().run(omnom@.take(it.index())),
    {
        assert(omnom@.take(it.index() + 1).drop_last() == omnom@.take(it.index()));
        decoder.step(c);
    }
    assert(omnom@.take(omnom@.len() as int) == omnom@);
    decoder.finish()
}

} // verus!
