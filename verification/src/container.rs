use vstd::prelude::*;
use crate::hex::{hex_digit_value, hex_value};
use crate::text::{dec_min, push_dec};
use crate::word::Word;

verus! {

/// The length of a container's header: the magic, the version and two offsets.
pub const HEADER_LEN: usize = 7;

/// The byte offset at which the code stands in an image.
pub const CODE_BASE: usize = 0x80;

/// A container taken apart: its header, the offsets that the header gives for
/// the memory region and the code region, and the bytes of the two regions.
pub struct BinaryFile {
    pub header: Vec<u8>,
    pub memory_start: usize,
    pub code_start: usize,
    pub memory: Vec<u8>,
    pub code: Vec<u8>,
}

/// The four bytes that a container begins with: `MWvm`.
pub open spec fn magic() -> Seq<u8> {
    seq![0x4du8, 0x57u8, 0x76u8, 0x6du8]
}

/// The two offsets lie inside the container and in order. An offset of zero
/// says that the region is missing.
pub open spec fn regions_fit(len: nat, mem_start: nat, code_start: nat) -> bool {
    &&& code_start != 0 ==> code_start <= len
    &&& mem_start != 0 && code_start == 0 ==> mem_start <= len
    &&& mem_start != 0 && code_start != 0 ==> mem_start <= code_start
}

/// The length of the memory region: up to the code region, or up to the end
/// where there is no code.
pub open spec fn memory_len(len: nat, mem_start: nat, code_start: nat) -> nat {
    if mem_start == 0 {
        0
    } else if code_start == 0 {
        (len - mem_start) as nat
    } else {
        (code_start - mem_start) as nat
    }
}

/// The length of the code region: up to the end of the container.
pub open spec fn code_len(len: nat, code_start: nat) -> nat {
    if code_start == 0 {
        0
    } else {
        (len - code_start) as nat
    }
}

/// Why a container is refused, if it is.
pub open spec fn container_error(bytes: Seq<u8>) -> Option<Seq<char>> {
    if bytes.len() < HEADER_LEN {
        Some("Malformed header, file too short."@)
    } else if bytes.take(4) != magic() {
        Some("Invalid magic number."@)
    } else if bytes[4] > 1 {
        Some("Unsupported version "@ + dec_min(bytes[4] as nat) + "."@)
    } else if !regions_fit(bytes.len(), bytes[5] as nat, bytes[6] as nat) {
        Some("Malformed header, region out of range."@)
    } else {
        None
    }
}

impl BinaryFile {
    /// The file holds what the container `bytes` gives: the header, the two
    /// offsets, and the bytes of each region.
    pub open spec fn parsed_from(&self, bytes: Seq<u8>) -> bool {
        let mem_start = bytes[5] as nat;
        let code_start = bytes[6] as nat;
        &&& self.header@ == bytes.take(HEADER_LEN as int)
        &&& self.memory_start == mem_start
        &&& self.code_start == code_start
        &&& self.memory@ == bytes.subrange(
            mem_start as int,
            (mem_start + memory_len(bytes.len(), mem_start, code_start)) as int,
        )
        &&& self.code@ == bytes.subrange(
            code_start as int,
            (code_start + code_len(bytes.len(), code_start)) as int,
        )
    }
}

/// The length of the image of a file with the given offsets and regions: none
/// without offsets, the memory alone where there is no code, and else up to
/// the end of the code, which stands at `CODE_BASE`.
pub open spec fn image_len(memory_start: nat, code_start: nat, memory: nat, code: nat) -> nat {
    if memory_start == 0 && code_start == 0 {
        0
    } else if code_start == 0 {
        memory
    } else {
        CODE_BASE as nat + code
    }
}

/// The image of a file, where its regions fit into one: the memory from the
/// first byte on, the code from `CODE_BASE` on and over the memory where the
/// two meet, and zeros between them.
pub open spec fn image_of(
    memory_start: nat,
    code_start: nat,
    memory: Seq<u8>,
    code: Seq<u8>,
) -> Option<Seq<u8>> {
    let len = image_len(memory_start, code_start, memory.len(), code.len());
    if memory.len() > len || (code.len() > 0 && CODE_BASE + code.len() > len) || len
        > usize::MAX {
        None
    } else {
        Some(
            Seq::new(
                len,
                |i: int|
                    if CODE_BASE <= i < CODE_BASE + code.len() {
                        code[i - CODE_BASE]
                    } else if i < memory.len() {
                        memory[i]
                    } else {
                        0u8
                    },
            ),
        )
    }
}

impl BinaryFile {
    /// The image that the file stands for; `None` where its regions do not fit
    /// into the image that its offsets ask for.
    pub fn image(&self) -> (out: Option<Vec<u8>>)
        ensures
            match out {
                Some(bytes) => Some(bytes@),
                None => None,
            } == image_of(
                self.memory_start as nat,
                self.code_start as nat,
                self.memory@,
                self.code@,
            ),
    {
        let memory_len = self.memory.len();
        let code_len = self.code.len();
        let len: usize = if self.memory_start == 0 && self.code_start == 0 {
            0
        } else if self.code_start == 0 {
            memory_len
        } else if code_len <= usize::MAX - CODE_BASE {
            CODE_BASE + code_len
        } else {
            return None;
        };
        if memory_len > len || (code_len > 0 && (code_len > usize::MAX - CODE_BASE || CODE_BASE
            + code_len > len)) {
            return None;
        }
        let mut bytes: Vec<u8> = vec![0u8; len];
        let mut i: usize = 0;
        while i < memory_len
            invariant
                memory_len == self.memory@.len(),
                memory_len <= len,
                bytes@.len() == len,
                i <= memory_len,
                forall|k: int|
                    0 <= k < len ==> #[trigger] bytes@[k] == if k < i {
                        self.memory@[k]
                    } else {
                        0u8
                    },
            decreases memory_len - i,
        {
            bytes.set(i, self.memory[i]);
            i += 1;
        }
        let mut j: usize = 0;
        while j < code_len
            invariant
                memory_len == self.memory@.len(),
                code_len == self.code@.len(),
                code_len > 0 ==> CODE_BASE + code_len <= len,
                bytes@.len() == len,
                j <= code_len,
                forall|k: int|
                    0 <= k < len ==> #[trigger] bytes@[k] == if CODE_BASE <= k < CODE_BASE + j {
                        self.code@[k - CODE_BASE]
                    } else if k < memory_len {
                        self.memory@[k]
                    } else {
                        0u8
                    },
            decreases code_len - j,
        {
            bytes.set(j + CODE_BASE, self.code[j]);
            j += 1;
        }
        assert(bytes@ =~= image_of(
            self.memory_start as nat,
            self.code_start as nat,
            self.memory@,
            self.code@,
        )->0);
        Some(bytes)
    }
}

/// The bytes from `from` up to `to`.
fn copy_range(bytes: &Vec<u8>, from: usize, to: usize) -> (out: Vec<u8>)
    requires
        from <= to <= bytes@.len(),
    ensures
        out@ == bytes@.subrange(from as int, to as int),
{
    let mut out: Vec<u8> = Vec::new();
    let mut i: usize = from;
    while i < to
        invariant
            from <= i <= to <= bytes@.len(),
            out@ == bytes@.subrange(from as int, i as int),
        decreases to - i,
    {
        out.push(bytes[i]);
        i += 1;
        assert(out@ == bytes@.subrange(from as int, i as int));
    }
    out
}

/// Takes a container apart. It is refused where it is shorter than a header,
/// does not begin with the magic, has a version other than 0 or 1, or gives
/// offsets that lie outside it or in the wrong order.
pub fn parse_binary_file(bytes: Vec<u8>) -> (out: Result<BinaryFile, String>)
    ensures
        match out {
            Ok(file) => container_error(bytes@).is_none() && file.parsed_from(bytes@),
            Err(message) => container_error(bytes@) == Some(message@),
        },
{
    let len = bytes.len();
    if len < HEADER_LEN {
        return Err("Malformed header, file too short.".to_string());
    }
    if !(bytes[0] == 0x4d && bytes[1] == 0x57 && bytes[2] == 0x76 && bytes[3] == 0x6d) {
        assert(bytes@.take(4) != magic()) by {
            if bytes@.take(4) == magic() {
                assert(bytes@.take(4)[0] == magic()[0]);
                assert(bytes@.take(4)[1] == magic()[1]);
                assert(bytes@.take(4)[2] == magic()[2]);
                assert(bytes@.take(4)[3] == magic()[3]);
            }
        }
        return Err("Invalid magic number.".to_string());
    }
    assert(bytes@.take(4) =~= magic());
    let version = bytes[4];
    if version > 1 {
        let mut message = "Unsupported version ".to_string();
        push_dec(&mut message, version as usize);
        message.append(".");
        return Err(message);
    }
    let mem_start = bytes[5] as usize;
    let code_start = bytes[6] as usize;
    if (code_start != 0 && code_start > len) || (mem_start != 0 && code_start == 0 && mem_start
        > len) || (mem_start != 0 && code_start != 0 && mem_start > code_start) {
        return Err("Malformed header, region out of range.".to_string());
    }
    let mem_size = if mem_start == 0 {
        0
    } else if code_start == 0 {
        len - mem_start
    } else {
        code_start - mem_start
    };
    let code_size = if code_start == 0 {
        0
    } else {
        len - code_start
    };
    let header = copy_range(&bytes, 0, HEADER_LEN);
    let memory = copy_range(&bytes, mem_start, mem_start + mem_size);
    let code = copy_range(&bytes, code_start, code_start + code_size);
    Ok(BinaryFile { header, memory_start: mem_start, code_start, memory, code })
}

/// The word that two bytes make, the high byte first.
pub open spec fn word_of_bytes(high: u8, low: u8) -> u16 {
    (high as nat * 256 + low as nat) as u16
}

/// The words that the bytes make, two bytes to a word, the high byte first; a
/// byte left over at the end is dropped.
pub open spec fn bytes_as_words(bytes: Seq<u8>) -> Seq<u16> {
    Seq::new(bytes.len() / 2, |i: int| word_of_bytes(bytes[2 * i], bytes[2 * i + 1]))
}

pub fn binary_to_words(input: Vec<u8>) -> (words: Vec<Word>)
    ensures
        crate::word::values(words@) == bytes_as_words(input@),
{
    let mut words: Vec<Word> = Vec::new();
    let count: usize = input.len() / 2;
    let mut i: usize = 0;
    while i < count
        invariant
            count == input@.len() / 2,
            input@.len() <= usize::MAX,
            i <= count,
            words@.len() == i,
            forall|k: int|
                0 <= k < i ==> (#[trigger] words@[k])@ == word_of_bytes(
                    input@[2 * k],
                    input@[2 * k + 1],
                ),
        decreases count - i,
    {
        let high = input[2 * i] as u16;
        let low = input[2 * i + 1] as u16;
        words.push(Word::new(high * 256 + low));
        i += 1;
    }
    assert(crate::word::values(words@) =~= bytes_as_words(input@));
    words
}

/// Whether a character is white space: it separates digits and counts for
/// nothing else.
pub open spec fn is_space(c: char) -> bool {
    let n = c as int;
    ||| 0x09 <= n <= 0x0d
    ||| n == 0x20
    ||| n == 0x85
    ||| n == 0xa0
    ||| n == 0x1680
    ||| 0x2000 <= n <= 0x200a
    ||| n == 0x2028
    ||| n == 0x2029
    ||| n == 0x202f
    ||| n == 0x205f
    ||| n == 0x3000
}

/// The values of the hexadecimal digits of a text, white space left out;
/// `None` where the text holds anything else.
pub open spec fn digits_of(text: Seq<char>) -> Option<Seq<u16>>
    decreases text.len(),
{
    if text.len() == 0 {
        Some(Seq::empty())
    } else {
        match digits_of(text.drop_last()) {
            Some(digits) => if is_space(text.last()) {
                Some(digits)
            } else {
                match hex_value(text.last()) {
                    Some(d) => Some(digits.push(d)),
                    None => None,
                }
            },
            None => None,
        }
    }
}

/// The digit at index `at`, and zero behind the last digit.
pub open spec fn digit_or_zero(digits: Seq<u16>, at: int) -> nat {
    if 0 <= at < digits.len() {
        digits[at] as nat
    } else {
        0
    }
}

/// The words that the digits make, four digits to a word, the highest first;
/// the last word is filled up with zeros on the right.
pub open spec fn digits_as_words(digits: Seq<u16>) -> Seq<u16> {
    Seq::new(
        (digits.len() + 3) / 4,
        |i: int|
            (digit_or_zero(digits, 4 * i) * 4096 + digit_or_zero(digits, 4 * i + 1) * 256
                + digit_or_zero(digits, 4 * i + 2) * 16 + digit_or_zero(digits, 4 * i + 3)) as u16,
    )
}

/// Every digit is below sixteen.
pub open spec fn all_digits(digits: Seq<u16>) -> bool {
    forall|k: int| 0 <= k < digits.len() ==> #[trigger] digits[k] < 16
}

fn space(c: char) -> (b: bool)
    ensures
        b == is_space(c),
{
    let n: u32 = c as u32;
    (0x09 <= n && n <= 0x0d) || n == 0x20 || n == 0x85 || n == 0xa0 || n == 0x1680 || (0x2000 <= n
        && n <= 0x200a) || n == 0x2028 || n == 0x2029 || n == 0x202f || n == 0x205f || n == 0x3000
}

fn digit_at(digits: &Vec<u16>, at: usize) -> (d: u16)
    requires
        all_digits(digits@),
    ensures
        d == digit_or_zero(digits@, at as int),
        d < 16,
{
    if at < digits.len() {
        digits[at]
    } else {
        0
    }
}

/// Reads a text of hexadecimal digits as words, four digits to a word. White
/// space counts for nothing; any other character that is no digit has the text
/// refused.
pub fn hex_to_words(hex_string: String) -> (out: Result<Vec<Word>, String>)
    ensures
        match out {
            Ok(words) => digits_of(hex_string@) matches Some(digits) && crate::word::values(words@)
                == digits_as_words(digits),
            Err(message) => digits_of(hex_string@).is_none() && message@
                == "Invalid hex digit."@,
        },
{
    let mut digits: Vec<u16> = Vec::new();
    let text = hex_string.as_str();
    for c in it: text.chars()
        invariant
            it.seq() == hex_string@,
            digits_of(hex_string@.take(it.index())) == Some(digits@),
            all_digits(digits@),
    {
        proof {
            assert(hex_string@.take(it.index() + 1).drop_last() == hex_string@.take(it.index()));
            if digits_of(hex_string@.take(it.index() + 1)).is_none() {
                lemma_digits_of_prefix(hex_string@, it.index() + 1);
            }
        }
        if !space(c) {
            match hex_digit_value(c) {
                Some(d) => {
                    digits.push(d);
                },
                None => {
                    return Err("Invalid hex digit.".to_string());
                },
            }
        }
    }
    assert(hex_string@.take(hex_string@.len() as int) == hex_string@);
    let count: usize = digits.len() / 4 + if digits.len() % 4 > 0 {
        1usize
    } else {
        0usize
    };
    let mut words: Vec<Word> = Vec::new();
    let mut i: usize = 0;
    while i < count
        invariant
            all_digits(digits@),
            count == (digits@.len() + 3) / 4,
            digits@.len() <= usize::MAX,
            i <= count,
            words@.len() == i,
            forall|k: int| 0 <= k < i ==> (#[trigger] words@[k])@ == digits_as_words(digits@)[k],
        decreases count - i,
    {
        let base: usize = 4 * i;
        let d0 = digit_at(&digits, base);
        let d1 = digit_at(&digits, base + 1);
        let d2 = digit_at(&digits, base + 2);
        let d3 = digit_at(&digits, base + 3);
        words.push(Word::new(d0 * 4096 + d1 * 256 + d2 * 16 + d3));
        i += 1;
    }
    assert(crate::word::values(words@) =~= digits_as_words(digits@));
    Ok(words)
}

/// A text that holds something other than digits and white space holds it in
/// every longer text too.
proof fn lemma_digits_of_prefix(text: Seq<char>, len: int)
    requires
        0 <= len <= text.len(),
        digits_of(text.take(len)).is_none(),
    ensures
        digits_of(text).is_none(),
    decreases text.len() - len,
{
    if len < text.len() {
        assert(text.take(len + 1).drop_last() == text.take(len));
        lemma_digits_of_prefix(text, len + 1);
    } else {
        assert(text.take(len) == text);
    }
}

} // verus!
