use vstd::prelude::*;
use crate::command::{decorated_groups, lemma_plain_groups, offset_text, SKIP_LIMIT};
use crate::hex::{hex4, hex_char, hex_min, hex_pad};
use crate::reverse::{
    decode, lemma_run_concat, lemma_run_push, lemma_write_many_wf, symbol_of, DecodeState, Symbol,
    MEMORY_WORDS,
};
use crate::tokens::{
    encode, expanded_groups, group_of, groups_from, lemma_run_length_bound, rendered_groups,
    repeat_count,
    repeat_text, rune_or_same, run_length, to_runes, WordGroup, SKIP_RUNE,
};
use crate::word::{values, Word};

verus! {

/// The rune of a hexadecimal digit is read as that digit.
pub proof fn lemma_digit_rune(d: int)
    requires
        0 <= d < 16,
    ensures
        symbol_of(rune_or_same(hex_char(d))) == Symbol::Digit(d as u16),
{
}

/// The runes of a number below 4096 in its shortest form are read as that
/// number, entered in as many digits as the form has.
pub proof fn lemma_run_number(s: DecodeState, n: nat)
    requires
        s.wf(),
        s.digits == 0,
        n < 4096,
    ensures
        s.run(to_runes(hex_min(n))) == (DecodeState {
            entered: n,
            digits: hex_min(n).len(),
            ..s
        }),
        hex_min(n).len() == if n < 16 {
            1nat
        } else if n < 256 {
            2nat
        } else {
            3nat
        },
    decreases n,
{
    let last = hex_char((n % 16) as int);
    lemma_digit_rune((n % 16) as int);
    if n < 16 {
        assert(to_runes(hex_min(n)) == Seq::<char>::empty().push(rune_or_same(last)));
        lemma_run_push(s, Seq::empty(), rune_or_same(last));
    } else {
        lemma_run_number(s, n / 16);
        assert(to_runes(hex_min(n)) == to_runes(hex_min(n / 16)).push(rune_or_same(last)));
        lemma_run_push(s, to_runes(hex_min(n / 16)), rune_or_same(last));
    }
}

/// The runes of a number below 256 in two digits are read as that number,
/// entered in two digits.
pub proof fn lemma_run_pair(s: DecodeState, n: nat)
    requires
        s.wf(),
        s.digits == 0,
        n < 256,
    ensures
        s.run(to_runes(hex_pad(n, 2))) == (DecodeState { entered: n, digits: 2, ..s }),
{
    if n < 16 {
        let pair = Seq::<char>::empty().push('0').push(hex_char(n as int));
        assert(hex_pad(n, 2) == pair);
        let first = Seq::<char>::empty().push(rune_or_same('0'));
        assert(to_runes(pair) == first.push(rune_or_same(hex_char(n as int))));
        lemma_digit_rune(0);
        lemma_digit_rune(n as int);
        lemma_run_push(s, Seq::empty(), rune_or_same('0'));
        lemma_run_push(s, first, rune_or_same(hex_char(n as int)));
    } else {
        lemma_run_number(s, n);
    }
}

/// The runes of the four digits of a word are read as a write of that word.
pub proof fn lemma_run_word(s: DecodeState, v: u16)
    requires
        s.wf(),
        s.digits == 0,
    ensures
        s.run(to_runes(hex4(v))) == s.write_new(v).cleared(),
{
    let d0 = v as int / 4096;
    let d1 = v as int / 256 % 16;
    let d2 = v as int / 16 % 16;
    let d3 = v as int % 16;
    lemma_digit_rune(d0);
    lemma_digit_rune(d1);
    lemma_digit_rune(d2);
    lemma_digit_rune(d3);
    let r0 = rune_or_same(hex_char(d0));
    let r1 = rune_or_same(hex_char(d1));
    let r2 = rune_or_same(hex_char(d2));
    let r3 = rune_or_same(hex_char(d3));
    let e = Seq::<char>::empty();
    assert(to_runes(hex4(v)) == e.push(r0).push(r1).push(r2).push(r3));
    lemma_run_push(s, e, r0);
    lemma_run_push(s, e.push(r0), r1);
    lemma_run_push(s, e.push(r0).push(r1), r2);
    lemma_run_push(s, e.push(r0).push(r1).push(r2), r3);
    let s1 = s.step(r0);
    let s2 = s1.step(r1);
    let s3 = s2.step(r2);
    assert(s1.entered == d0);
    assert(s2.entered == d0 * 16 + d1);
    assert(s3.entered == (d0 * 16 + d1) * 16 + d2);
    assert(((d0 * 16 + d1) * 16 + d2) * 16 + d3 == v);
}

/// Runes are put in character by character.
pub proof fn lemma_runes_concat(a: Seq<char>, b: Seq<char>)
    ensures
        to_runes(a + b) == to_runes(a) + to_runes(b),
{
    assert(to_runes(a + b) =~= to_runes(a) + to_runes(b));
}

/// Runes are put in character by character.
pub proof fn lemma_runes_push(a: Seq<char>, c: char)
    ensures
        to_runes(a.push(c)) == to_runes(a).push(rune_or_same(c)),
{
    assert(to_runes(a.push(c)) =~= to_runes(a).push(rune_or_same(c)));
}

/// What `n` writes of `v` do where they stay below the end of the memory: the
/// words from the cursor on hold `v`, the others are as before, and the cursor
/// stands behind them.
pub proof fn lemma_write_many_effect(s: DecodeState, v: u16, n: nat)
    requires
        s.wf(),
        n >= 1,
        s.addr + n <= MEMORY_WORDS,
    ensures
        s.write_many(v, n).wf(),
        s.write_many(v, n).addr == (s.addr + n) % (MEMORY_WORDS as nat),
        s.write_many(v, n).written,
        s.write_many(v, n).high == if s.high > s.addr + n - 1 {
            s.high
        } else {
            (s.addr + n - 1) as nat
        },
        s.write_many(v, n).entered == s.entered,
        s.write_many(v, n).digits == s.digits,
        s.write_many(v, n).last == s.last,
        forall|k: int|
            0 <= k < MEMORY_WORDS ==> #[trigger] s.write_many(v, n).memory[k] == if s.addr <= k
                < s.addr + n {
                v
            } else {
                s.memory[k]
            },
    decreases n,
{
    if n > 1 {
        lemma_write_many_effect(s.write(v), v, (n - 1) as nat);
        assert(s.write_many(v, n) == s.write(v).write_many(v, (n - 1) as nat));
    } else {
        assert(s.write_many(v, 1) == s.write(v).write_many(v, 0));
    }
}

/// Writing passes by the entered digits and the last word written.
pub proof fn lemma_write_many_frame(s: DecodeState, v: u16, n: nat, e: nat, d: nat, l: u16)
    ensures
        (DecodeState { entered: e, digits: d, last: l, ..s }).write_many(v, n) == (DecodeState {
            entered: e,
            digits: d,
            last: l,
            ..s.write_many(v, n)
        }),
    decreases n,
{
    if n > 0 {
        lemma_write_many_frame(s.write(v), v, (n - 1) as nat, e, d, l);
        assert((DecodeState { entered: e, digits: d, last: l, ..s }).write(v) == (DecodeState {
            entered: e,
            digits: d,
            last: l,
            ..s.write(v)
        }));
    }
}

/// The state after the words of a group are written: a group of zero words
/// leaves the last word written as it was, any other sets it.
pub open spec fn after_group(s: DecodeState, g: WordGroup) -> DecodeState {
    match g {
        WordGroup::Zero => s.write_many(0, g.count()),
        WordGroup::ZeroChain(_) => s.write_many(0, g.count()),
        _ => (DecodeState { last: g.word(), ..s }).write_many(g.word(), g.count()),
    }
}

/// The runes that ask for further copies are read as that many writes of the
/// last word written.
pub proof fn lemma_run_repeat(s: DecodeState, extra: Option<usize>)
    requires
        s.wf(),
        s.digits == 0,
        extra != Some(0usize),
        repeat_count(extra) <= 0xfff,
    ensures
        s.run(to_runes(repeat_text(extra))) == s.write_many(s.last, repeat_count(extra)),
{
    match extra {
        Some(n) => {
            let number = hex_min(n as nat);
            lemma_run_number(s, n as nat);
            lemma_runes_push(number, '*');
            lemma_run_push(s, to_runes(number), rune_or_same('*'));
            lemma_write_many_frame(s, s.last, n as nat, n as nat, number.len(), s.last);
            lemma_write_many_frame(s, s.last, n as nat, 0, 0, s.last);
        },
        None => {
            assert(to_runes(repeat_text(extra)) == Seq::<char>::empty());
        },
    }
}

/// A written word followed by copies of itself is one run of writes.
proof fn lemma_run_shorthand(
    s: DecodeState,
    head: Seq<char>,
    marker: char,
    v: u16,
    extra: Option<usize>,
)
    requires
        s.wf(),
        s.digits == 0,
        extra != Some(0usize),
        repeat_count(extra) <= 0xfff,
        s.run(to_runes(head)).step(rune_or_same(marker)) == s.write_new(v).cleared(),
    ensures
        s.run(to_runes(head.push(marker) + repeat_text(extra))) == (DecodeState {
            last: v,
            ..s
        }).write_many(v, 1 + repeat_count(extra)),
{
    let written = s.write_new(v).cleared();
    lemma_runes_concat(head.push(marker), repeat_text(extra));
    lemma_runes_push(head, marker);
    lemma_run_push(s, to_runes(head), rune_or_same(marker));
    lemma_run_concat(s, to_runes(head.push(marker)), to_runes(repeat_text(extra)));
    assert(written == (DecodeState { last: v, ..s }).write(v));
    lemma_write_many_wf(DecodeState { last: v, ..s }, v, 1);
    lemma_run_repeat(written, extra);
}

/// The runes of a group are read as the writes of the words it stands for.
pub proof fn lemma_run_group(s: DecodeState, g: WordGroup)
    requires
        s.wf(),
        s.digits == 0,
        g.wf(),
        g.fits(),
    ensures
        s.run(g.rendered()) == after_group(s, g),
{
    match g {
        WordGroup::Zero => {
            let one = Seq::<char>::empty().push('1');
            assert(g.text() == one.push('z'));
            assert(hex_min(1) == one);
            lemma_run_number(s, 1);
            lemma_runes_push(one, 'z');
            lemma_run_push(s, to_runes(one), rune_or_same('z'));
            lemma_write_many_frame(s, 0, 1, 1, 1, s.last);
            lemma_write_many_frame(s, 0, 1, 0, 0, s.last);
        },
        WordGroup::ZeroChain(n) => {
            let number = hex_min(n as nat);
            lemma_run_number(s, n as nat);
            lemma_runes_push(number, 'z');
            lemma_run_push(s, to_runes(number), rune_or_same('z'));
            lemma_write_many_frame(s, 0, n as nat, n as nat, number.len(), s.last);
            lemma_write_many_frame(s, 0, n as nat, 0, 0, s.last);
        },
        WordGroup::Word(w) => {
            lemma_run_word(s, w@);
            assert((DecodeState { last: w@, ..s }).write_many(w@, 1) == (DecodeState {
                last: w@,
                ..s
            }).write(w@).write_many(w@, 0));
        },
        WordGroup::WordChain(w, n) => {
            let written = s.write_new(w@).cleared();
            lemma_run_word(s, w@);
            lemma_runes_concat(hex4(w@), hex_min(n as nat).push('*'));
            lemma_run_concat(s, to_runes(hex4(w@)), to_runes(hex_min(n as nat).push('*')));
            lemma_write_many_wf(DecodeState { last: w@, ..s }, w@, 1);
            assert(written == (DecodeState { last: w@, ..s }).write(w@));
            lemma_run_repeat(written, Some(n));
        },
        WordGroup::LowNibble(v, extra) => {
            lemma_run_number(s, v as nat);
            assert(symbol_of(rune_or_same('>')) == Symbol::RightAlign);
            lemma_run_shorthand(s, hex_min(v as nat), '>', v, extra);
        },
        WordGroup::LowByte(v, extra) => {
            lemma_run_pair(s, v as nat);
            assert(symbol_of(rune_or_same('>')) == Symbol::RightAlign);
            lemma_run_shorthand(s, hex_pad(v as nat, 2), '>', v, extra);
        },
        WordGroup::HighByte(v, extra) => {
            let pair = v as nat / 256;
            lemma_run_pair(s, pair);
            let entered = s.run(to_runes(hex_pad(pair, 2)));
            assert(entered.left_aligned() == pair * 256 == v);
            assert(symbol_of(rune_or_same('<')) == Symbol::LeftAlign);
            lemma_run_shorthand(s, hex_pad(v as nat / 256, 2), '<', v, extra);
        },
        WordGroup::HighNibble(v, extra) => {
            let digit = v as nat / 4096;
            lemma_run_number(s, digit);
            let entered = s.run(to_runes(hex_min(digit)));
            assert(entered.left_aligned() == digit * 4096 == v);
            assert(symbol_of(rune_or_same('<')) == Symbol::LeftAlign);
            lemma_run_shorthand(s, hex_min(v as nat / 4096), '<', v, extra);
        },
    }
}

/// The text of groups that follow one another is the text of the first ones
/// followed by the text of the others.
pub proof fn lemma_rendered_concat(a: Seq<WordGroup>, b: Seq<WordGroup>)
    ensures
        rendered_groups(a + b) == rendered_groups(a) + rendered_groups(b),
    decreases b.len(),
{
    if b.len() == 0 {
        assert(a + b == a);
        assert(rendered_groups(a) + rendered_groups(b) == rendered_groups(a));
    } else {
        lemma_rendered_concat(a, b.drop_last());
        assert((a + b).drop_last() == a + b.drop_last());
        assert(rendered_groups(a) + (rendered_groups(b.drop_last()) + b.last().rendered()) == (
        rendered_groups(a) + rendered_groups(b.drop_last())) + b.last().rendered());
    }
}

/// The state holds the first `count` of the words from address zero on, has
/// written nothing else, and waits for the next group.
pub open spec fn holds_prefix(s: DecodeState, words: Seq<Word>, count: nat) -> bool {
    &&& s.wf()
    &&& s.digits == 0
    &&& s.addr == count % (MEMORY_WORDS as nat)
    &&& s.written == (count > 0)
    &&& s.high == if count > 0 {
        count - 1
    } else {
        0
    }
    &&& forall|k: int| 0 <= k < count ==> s.memory[k] == (#[trigger] words[k])@
}

/// The words fill the memory and all of them are zero: the one sequence, among
/// those that the memory can hold, whose text is not read back as it was,
/// since its single count takes four digits.
pub open spec fn full_of_zeros(words: Seq<Word>) -> bool {
    words.len() == MEMORY_WORDS && forall|k: int| 0 <= k < words.len() ==> (#[trigger] words[k])@
        == 0
}

/// The first group of the words from `from` on is well formed, and its counts
/// fit where the words fit the memory and are not all zero.
pub proof fn lemma_first_group(words: Seq<Word>, from: nat)
    requires
        from < words.len() <= usize::MAX,
    ensures
        ({
            let extra = run_length(words, from as int + 1, words[from as int]);
            let g = group_of(words[from as int], extra);
            &&& g.wf()
            &&& g.word() == words[from as int]@
            &&& g.count() == 1 + extra
            &&& from + 1 + extra <= words.len()
            &&& forall|k: int| from <= k < from + 1 + extra ==> words[k] == words[from as int]
            &&& words.len() <= MEMORY_WORDS && !full_of_zeros(words) ==> g.fits()
        }),
{
    let first = words[from as int];
    let extra = run_length(words, from as int + 1, first);
    lemma_run_length_bound(words, from as int + 1, first);
    let g = group_of(first, extra);
    if words.len() <= MEMORY_WORDS && !full_of_zeros(words) {
        if first@ == 0 && extra + 1 > 0xfff {
            assert(from == 0 && words.len() == MEMORY_WORDS);
            assert forall|k: int| 0 <= k < words.len() implies (#[trigger] words[k])@ == 0 by {
                assert(words[k] == first);
            }
            assert(full_of_zeros(words));
        }
    }
}

/// Reading the text of the groups of the words from `from` on, in a state that
/// holds the words before, leaves a state that holds them all.
pub proof fn lemma_run_groups(s: DecodeState, words: Seq<Word>, from: nat)
    requires
        words.len() <= MEMORY_WORDS,
        !full_of_zeros(words),
        from <= words.len(),
        holds_prefix(s, words, from),
    ensures
        holds_prefix(s.run(rendered_groups(groups_from(words, from))), words, words.len()),
    decreases words.len() - from,
{
    if from < words.len() {
        let first = words[from as int];
        let extra = run_length(words, from as int + 1, first);
        let g = group_of(first, extra);
        let next = from + 1 + extra;
        let rest = groups_from(words, next);
        lemma_first_group(words, from);
        lemma_run_group(s, g);
        let t = after_group(s, g);
        let base = if first@ == 0 {
            s
        } else {
            DecodeState { last: first@, ..s }
        };
        assert(t == base.write_many(first@, g.count()));
        assert(base.wf() && base.addr == from);
        lemma_write_many_effect(base, first@, g.count());
        assert(t.addr == next % (MEMORY_WORDS as nat));
        assert(t.high == next - 1);
        assert forall|k: int| 0 <= k < next implies t.memory[k] == (#[trigger] words[k])@ by {
            if k >= from {
                assert(words[k] == first);
            } else {
                assert(t.memory[k] == s.memory[k]);
            }
        }
        assert(holds_prefix(t, words, next));
        lemma_run_groups(t, words, next);
        assert(rendered_groups(seq![g]) == g.rendered()) by {
            assert(seq![g].drop_last() == Seq::<WordGroup>::empty());
            assert(rendered_groups(seq![g]) == rendered_groups(Seq::<WordGroup>::empty())
                + g.rendered());
        }
        lemma_rendered_concat(seq![g], rest);
        lemma_run_concat(s, g.rendered(), rendered_groups(rest));
    }
}

/// Round trip: the text of the groups of any words that fit the memory, and are
/// not a memory full of zeros, decodes to those words.
pub proof fn theorem_round_trip(words: Seq<Word>)
    requires
        words.len() <= MEMORY_WORDS,
        !full_of_zeros(words),
    ensures
        decode(rendered_groups(encode(words))) == values(words),
{
    let s = DecodeState::initial();
    lemma_run_groups(s, words, 0);
    let t = s.run(rendered_groups(encode(words)));
    assert(t.finish() == t);
    assert(t.output() =~= values(words));
}

/// The text that is sent for words without colour decodes to those words.
pub proof fn theorem_round_trip_plain(words: Seq<Word>)
    requires
        words.len() <= MEMORY_WORDS,
        !full_of_zeros(words),
    ensures
        decode(decorated_groups(encode(words), false)) == values(words),
{
    lemma_plain_groups(encode(words));
    theorem_round_trip(words);
}

/// The runs of groups that follow one another are the runs of the first ones
/// followed by the runs of the others.
pub proof fn lemma_expanded_concat(a: Seq<WordGroup>, b: Seq<WordGroup>)
    ensures
        expanded_groups(a + b) == expanded_groups(a) + expanded_groups(b),
    decreases b.len(),
{
    if b.len() == 0 {
        assert(a + b == a);
        assert(expanded_groups(a) + expanded_groups(b) == expanded_groups(a));
    } else {
        lemma_expanded_concat(a, b.drop_last());
        assert((a + b).drop_last() == a + b.drop_last());
        assert(expanded_groups(a) + (expanded_groups(b.drop_last()) + b.last().expand()) == (
        expanded_groups(a) + expanded_groups(b.drop_last())) + b.last().expand());
    }
}

/// The groups of the words from `from` on are well formed, and the runs they
/// stand for, one after another, are those words.
pub proof fn lemma_groups_expand(words: Seq<Word>, from: nat)
    requires
        from <= words.len() <= usize::MAX,
    ensures
        expanded_groups(groups_from(words, from)) == values(words.skip(from as int)),
        forall|k: int|
            0 <= k < groups_from(words, from).len() ==> (#[trigger] groups_from(
                words,
                from,
            )[k]).wf(),
    decreases words.len() - from,
{
    if from < words.len() {
        let first = words[from as int];
        let extra = run_length(words, from as int + 1, first);
        let g = group_of(first, extra);
        let next = from + 1 + extra;
        let rest = groups_from(words, next);
        lemma_first_group(words, from);
        lemma_groups_expand(words, next);
        assert(expanded_groups(seq![g]) == g.expand()) by {
            assert(seq![g].drop_last() == Seq::<WordGroup>::empty());
            assert(expanded_groups(seq![g]) == expanded_groups(Seq::<WordGroup>::empty())
                + g.expand());
        }
        lemma_expanded_concat(seq![g], rest);
        assert(g.expand() + values(words.skip(next as int)) =~= values(words.skip(from as int)))
            by {
            assert forall|k: int| 0 <= k < g.count() implies g.expand()[k] == values(
                words.skip(from as int),
            )[k] by {
                assert(words[from + k] == first);
            }
        }
    } else {
        assert(values(words.skip(from as int)) =~= Seq::<u16>::empty());
    }
}

/// The groups of any words are well formed, and the runs they stand for, one
/// after another, are those words.
pub proof fn theorem_encode_expands(words: Seq<Word>)
    requires
        words.len() <= usize::MAX,
    ensures
        expanded_groups(encode(words)) == values(words),
        forall|k: int| 0 <= k < encode(words).len() ==> (#[trigger] encode(words)[k]).wf(),
{
    lemma_groups_expand(words, 0);
    assert(words.skip(0) == words);
}

/// The skips of an offset are read as one move of the cursor by that offset,
/// counted round the end of the memory; nothing is written.
pub proof fn lemma_offset_moves(s: DecodeState, offset: nat)
    requires
        s.wf(),
        s.digits == 0,
    ensures
        s.run(offset_text(offset)) == s.moved(offset),
    decreases offset,
{
    if offset == 0 {
        assert(s.moved(0) == s);
    } else {
        let skip = if offset < SKIP_LIMIT {
            offset
        } else {
            SKIP_LIMIT as nat
        };
        let rest = (offset - skip) as nat;
        let number = to_runes(hex_min(skip));
        lemma_run_number(s, skip);
        lemma_run_push(s, number, SKIP_RUNE);
        let t = s.run(number.push(SKIP_RUNE));
        assert(t == s.moved(skip));
        lemma_offset_moves(t, rest);
        lemma_run_concat(s, number.push(SKIP_RUNE), offset_text(rest));
        assert(t.moved(rest) == s.moved(offset));
    }
}

} // verus!
