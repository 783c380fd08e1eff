//! Laws of the pipeline, stated and proved against the functional models.
//!
//! The central one: on a well-formed input whose counters run 1..N in steps
//! of one, the tokenizer reports zero issues and emits exactly `4*N + 1`
//! tokens, four per block in the documented quadruple order plus `Eof`.
use vstd::prelude::*;

use crate::lexer::arrow;
use crate::lexer::first_empty_from;
use crate::lexer::lemma_first_empty_at;
use crate::lexer::counter_events;
use crate::lexer::normalize_lines;
use crate::lexer::pad_events;
use crate::lexer::spec_decode_time;
use crate::lexer::spec_lex;
use crate::lexer::spec_lex_from;
use crate::lexer::spec_tokenize;
use crate::lexer::spec_ts_pad;
use crate::lexer::ts_fields;
use crate::lexer::LexError;
use crate::lexer::LexState;
use crate::lexer::TokenV;
use crate::logging::LogEvent;
use crate::parser::spec_parse;
use crate::render::digit_char;
use crate::render::two_digits;
use crate::text::dec_val;
use crate::text::digit_val;
use crate::text::find_pat_from;
use crate::text::is_digit;
use crate::text::is_digits;
use crate::text::is_space;
use crate::text::lemma_find_pat_skip;
use crate::text::lemma_trim_end_at;
use crate::text::lemma_trim_start_at;
use crate::text::parses_u64;
use crate::text::parses_usize;
use crate::text::pat_at;
use crate::text::split_on;
use crate::text::trim_spec;

verus! {

/// A value below 1000 as three zero-padded decimal digits.
pub open spec fn three_digits(n: int) -> Seq<char> {
    seq![digit_char(n / 100), digit_char((n / 10) % 10), digit_char(n % 10)]
}

/// A canonical timestamp `HH:MM:SS,mmm`.
pub open spec fn ts_text(h: int, m: int, s: int, ms: int) -> Seq<char> {
    two_digits(h) + seq![':'] + two_digits(m) + seq![':'] + two_digits(s) + seq![',']
        + three_digits(ms)
}

/// Milliseconds encoded by the four timestamp fields.
pub open spec fn ms_total(h: int, m: int, s: int, ms: int) -> int {
    h * 3600000 + m * 60000 + s * 1000 + ms
}

/// One well-formed block of the input grammar, before its trailing blank
/// line: a counter line, the two timestamps of its time-range line, and its
/// text lines.
pub ghost struct BlockSpec {
    pub counter: Seq<char>,
    pub h1: int,
    pub m1: int,
    pub s1: int,
    pub ms1: int,
    pub h2: int,
    pub m2: int,
    pub s2: int,
    pub ms2: int,
    pub text: Seq<Seq<char>>,
}

/// The block is well-formed as the `k`-th block (zero-based): its counter is
/// the clean integer `k + 1`, its timestamp fields are canonically bounded,
/// and it has one or more non-empty text lines.
pub open spec fn wf_block(b: BlockSpec, k: int) -> bool {
    &&& is_digits(b.counter)
    &&& dec_val(b.counter) == k + 1
    &&& 0 <= k && k + 1 <= usize::MAX
    &&& 0 <= b.h1 < 100 && 0 <= b.m1 < 100 && 0 <= b.s1 < 100 && 0 <= b.ms1 < 1000
    &&& 0 <= b.h2 < 100 && 0 <= b.m2 < 100 && 0 <= b.s2 < 100 && 0 <= b.ms2 < 1000
    &&& b.text.len() >= 1
    &&& forall|i: int| 0 <= i < b.text.len() ==> (#[trigger] b.text[i]).len() > 0
}

/// The time-range line of a block.
pub open spec fn time_line(b: BlockSpec) -> Seq<char> {
    ts_text(b.h1, b.m1, b.s1, b.ms1) + seq![' '] + arrow() + seq![' '] + ts_text(
        b.h2,
        b.m2,
        b.s2,
        b.ms2,
    )
}

/// The raw lines of one block, trailing blank line included.
pub open spec fn block_lines(b: BlockSpec) -> Seq<Seq<char>> {
    seq![b.counter, time_line(b)] + b.text + seq![Seq::<char>::empty()]
}

/// The raw lines of a sequence of blocks.
pub open spec fn blocks_lines(bs: Seq<BlockSpec>) -> Seq<Seq<char>>
    decreases bs.len(),
{
    if bs.len() == 0 {
        seq![]
    } else {
        block_lines(bs[0]) + blocks_lines(bs.drop_first())
    }
}

/// The four tokens of one block whose counter line sits at index `i`.
pub open spec fn block_tokens(b: BlockSpec, i: int) -> Seq<TokenV> {
    seq![
        TokenV::Count(dec_val(b.counter) as usize, (i + 1) as usize),
        TokenV::StartTime(ms_total(b.h1, b.m1, b.s1, b.ms1) as u64, (i + 2) as usize),
        TokenV::EndTime(ms_total(b.h2, b.m2, b.s2, b.ms2) as u64, (i + 2) as usize),
        TokenV::Subtitle(b.text, (i + 3) as usize),
    ]
}

/// The tokens of a sequence of blocks whose first line sits at index `i`.
pub open spec fn blocks_tokens(bs: Seq<BlockSpec>, i: int) -> Seq<TokenV>
    decreases bs.len(),
{
    if bs.len() == 0 {
        seq![]
    } else {
        block_tokens(bs[0], i) + blocks_tokens(bs.drop_first(), i + 3 + bs[0].text.len())
    }
}

/// A digit character is a digit, carries its value, and is none of the
/// separator or whitespace characters the lexer cares about.
pub proof fn lemma_digit_char(d: int)
    requires
        0 <= d <= 9,
    ensures
        is_digit(digit_char(d)),
        digit_val(digit_char(d)) == d,
        digit_char(d) != '-' && digit_char(d) != '>' && digit_char(d) != ':' && digit_char(d)
            != ',',
        !is_space(digit_char(d)),
{
}

/// A two-digit rendering is a digit string carrying its value.
pub proof fn lemma_two_digits(n: int)
    requires
        0 <= n < 100,
    ensures
        two_digits(n).len() == 2,
        is_digits(two_digits(n)),
        dec_val(two_digits(n)) == n,
{
    lemma_digit_char(n / 10);
    lemma_digit_char(n % 10);
    let t = two_digits(n);
    assert(t[0] == digit_char(n / 10) && t[1] == digit_char(n % 10));
    assert(t.drop_last() =~= seq![digit_char(n / 10)]);
    assert(seq![digit_char(n / 10)].drop_last() =~= Seq::<char>::empty());
    assert(dec_val(Seq::<char>::empty()) == 0);
    assert(dec_val(seq![digit_char(n / 10)]) == n / 10);
    assert(dec_val(t) == (n / 10) * 10 + n % 10);
}

/// A three-digit rendering is a digit string carrying its value.
pub proof fn lemma_three_digits(n: int)
    requires
        0 <= n < 1000,
    ensures
        three_digits(n).len() == 3,
        is_digits(three_digits(n)),
        dec_val(three_digits(n)) == n,
{
    lemma_digit_char(n / 100);
    lemma_digit_char((n / 10) % 10);
    lemma_digit_char(n % 10);
    let t = three_digits(n);
    assert(t[0] == digit_char(n / 100) && t[1] == digit_char((n / 10) % 10) && t[2] == digit_char(
        n % 10,
    ));
    assert(t.drop_last() =~= seq![digit_char(n / 100), digit_char((n / 10) % 10)]);
    lemma_two_digits(n / 10);
    assert(two_digits(n / 10) =~= t.drop_last());
    assert(dec_val(t) == (n / 10) * 10 + n % 10) by {
        assert((n / 10) / 10 == n / 100) by (nonlinear_arith)
            requires
                0 <= n < 1000,
        ;
    }
}

/// Every character of a canonical timestamp is a digit, `:` or `,`: never
/// the arrow's characters nor whitespace.
pub proof fn lemma_ts_text_chars(h: int, m: int, s: int, ms: int)
    requires
        0 <= h < 100 && 0 <= m < 100 && 0 <= s < 100 && 0 <= ms < 1000,
    ensures
        ts_text(h, m, s, ms).len() == 12,
        forall|i: int|
            0 <= i < 12 ==> ((#[trigger] ts_text(h, m, s, ms)[i]) != '-' && ts_text(h, m, s, ms)[i]
                != '>' && !is_space(ts_text(h, m, s, ms)[i])),
{
    let t = ts_text(h, m, s, ms);
    lemma_digit_char(h / 10);
    lemma_digit_char(h % 10);
    lemma_digit_char(m / 10);
    lemma_digit_char(m % 10);
    lemma_digit_char(s / 10);
    lemma_digit_char(s % 10);
    lemma_digit_char(ms / 100);
    lemma_digit_char((ms / 10) % 10);
    lemma_digit_char(ms % 10);
    assert forall|i: int| 0 <= i < 12 implies ((#[trigger] t[i]) != '-' && t[i] != '>' && !is_space(
        t[i],
    )) by {
        assert(!is_space(':')) by {
        }
        assert(!is_space(',')) by {
        }
        if i == 2 || i == 5 {
            assert(t[i] == ':');
        } else if i == 8 {
            assert(t[i] == ',');
        }
    }
}

/// When no position of `s` at or after `i` matches `pat`, there is no find.
pub proof fn lemma_find_none(s: Seq<char>, pat: Seq<char>, i: int)
    requires
        forall|p: int| i <= p ==> !(#[trigger] pat_at(s, pat, p)),
    ensures
        find_pat_from(s, pat, i) == -1,
    decreases s.len() - i,
{
    if !(pat.len() == 0 || i < 0 || i + pat.len() > s.len()) {
        lemma_find_none(s, pat, i + 1);
    }
}

/// Splitting `a + [sep] + rest` on the single character `sep`, when `a`
/// avoids `sep`, peels off `a` as the first part.
pub proof fn lemma_split_char_step(a: Seq<char>, rest: Seq<char>, sep: char)
    requires
        forall|i: int| 0 <= i < a.len() ==> (#[trigger] a[i]) != sep,
    ensures
        split_on(a + seq![sep] + rest, seq![sep]) == seq![a] + split_on(rest, seq![sep]),
{
    let s = a + seq![sep] + rest;
    let pat = seq![sep];
    assert(pat_at(s, pat, a.len() as int)) by {
        assert(s.subrange(a.len() as int, a.len() as int + 1) =~= pat);
    }
    assert forall|p: int| 0 <= p < a.len() implies !(#[trigger] pat_at(s, pat, p)) by {
        if pat_at(s, pat, p) {
            assert(s.subrange(p, p + 1)[0] == s[p]);
            assert(s[p] == a[p]);
        }
    }
    lemma_find_pat_skip(s, pat, 0, a.len() as int);
    assert(find_pat_from(s, pat, 0) == a.len());
    assert(s.subrange(0, a.len() as int) =~= a);
    assert(s.subrange(a.len() as int + 1, s.len() as int) =~= rest);
}

/// Splitting a sequence that avoids `sep` gives back the one part.
pub proof fn lemma_split_char_none(s: Seq<char>, sep: char)
    requires
        forall|i: int| 0 <= i < s.len() ==> (#[trigger] s[i]) != sep,
    ensures
        split_on(s, seq![sep]) == seq![s],
{
    let pat = seq![sep];
    assert forall|p: int| 0 <= p implies !(#[trigger] pat_at(s, pat, p)) by {
        if pat_at(s, pat, p) {
            assert(s.subrange(p, p + 1)[0] == s[p]);
        }
    }
    lemma_find_none(s, pat, 0);
}

/// A canonical timestamp decodes to its encoded milliseconds, with no
/// padding issue under either strictness.
pub proof fn lemma_decode_ts_text(h: int, m: int, s: int, ms: int, line: usize, strict: bool)
    requires
        0 <= h < 100 && 0 <= m < 100 && 0 <= s < 100 && 0 <= ms < 1000,
    ensures
        spec_decode_time(ts_text(h, m, s, ms), line) == Ok::<u64, LexError>(
            ms_total(h, m, s, ms) as u64,
        ),
        spec_ts_pad(ts_text(h, m, s, ms), strict) == 0,
{
    let t = ts_text(h, m, s, ms);
    let hh = two_digits(h);
    let mm = two_digits(m);
    let ss = two_digits(s);
    let mss = three_digits(ms);
    lemma_digit_char(h / 10);
    lemma_digit_char(h % 10);
    lemma_digit_char(m / 10);
    lemma_digit_char(m % 10);
    lemma_digit_char(s / 10);
    lemma_digit_char(s % 10);
    lemma_digit_char(ms / 100);
    lemma_digit_char((ms / 10) % 10);
    lemma_digit_char(ms % 10);
    // the colon split: hh, mm, and the rest
    let tail = ss + seq![','] + mss;
    assert(t =~= hh + seq![':'] + (mm + seq![':'] + tail));
    lemma_split_char_step(hh, mm + seq![':'] + tail, ':');
    lemma_split_char_step(mm, tail, ':');
    assert forall|i: int| 0 <= i < tail.len() implies (#[trigger] tail[i]) != ':' by {}
    lemma_split_char_none(tail, ':');
    assert(split_on(t, seq![':']) == seq![hh, mm, tail]) by {
        assert(seq![hh] + (seq![mm] + seq![tail]) =~= seq![hh, mm, tail]);
    }
    // the comma split of the third field
    lemma_split_char_step(ss, mss, ',');
    assert forall|i: int| 0 <= i < mss.len() implies (#[trigger] mss[i]) != ',' by {}
    lemma_split_char_none(mss, ',');
    assert(split_on(tail, seq![',']) == seq![ss, mss]) by {
        assert(seq![ss] + seq![mss] =~= seq![ss, mss]);
    }
    assert(ts_fields(t) == Some((hh, mm, ss, mss)));
    // the fields parse to their encoded values
    lemma_two_digits(h);
    lemma_two_digits(m);
    lemma_two_digits(s);
    lemma_three_digits(ms);
    assert(parses_u64(hh) && parses_u64(mm) && parses_u64(ss) && parses_u64(mss));
}

/// Splitting a time-range line on the arrow yields the two padded
/// timestamp halves.
pub proof fn lemma_split_arrow(a: Seq<char>, b: Seq<char>)
    requires
        forall|i: int| 0 <= i < a.len() ==> (#[trigger] a[i]) != '-',
        forall|i: int| 0 <= i < b.len() ==> (#[trigger] b[i]) != '-',
    ensures
        split_on(a + arrow() + b, arrow()) == seq![a, b],
{
    let s = a + arrow() + b;
    let pat = arrow();
    let la = a.len() as int;
    assert(pat_at(s, pat, la)) by {
        assert(s.subrange(la, la + 3) =~= pat);
    }
    assert forall|p: int| 0 <= p < la implies !(#[trigger] pat_at(s, pat, p)) by {
        if pat_at(s, pat, p) {
            assert(s.subrange(p, p + 3)[0] == s[p]);
            assert(s[p] == a[p]);
        }
    }
    lemma_find_pat_skip(s, pat, 0, la);
    assert(find_pat_from(s, pat, 0) == la);
    assert(s.subrange(0, la) =~= a);
    assert(s.subrange(la + 3, s.len() as int) =~= b);
    assert forall|q: int| 0 <= q implies !(#[trigger] pat_at(b, pat, q)) by {
        if pat_at(b, pat, q) {
            assert(b.subrange(q, q + 3)[0] == b[q]);
        }
    }
    lemma_find_none(b, pat, 0);
    assert(split_on(b, pat) == seq![b]);
    assert(split_on(s.subrange(la + 3, s.len() as int), pat) == seq![b]);
    assert(split_on(s, pat) == seq![s.subrange(0, la)] + split_on(
        s.subrange(la + 3, s.len() as int),
        pat,
    ));
    assert(seq![a] + seq![b] =~= seq![a, b]);
}

/// A non-empty whitespace-free core with one space appended trims to itself.
pub proof fn lemma_trim_tail_space(a: Seq<char>)
    requires
        a.len() > 0,
        forall|i: int| 0 <= i < a.len() ==> !is_space(#[trigger] a[i]),
    ensures
        trim_spec(a + seq![' ']) == a,
{
    let s = a + seq![' '];
    lemma_trim_start_at(s, 0);
    assert(s.subrange(0, s.len() as int) =~= s);
    lemma_trim_end_at(s, a.len() as int);
    assert(s.subrange(0, a.len() as int) =~= a);
}

/// A non-empty whitespace-free core with one space prepended trims to
/// itself.
pub proof fn lemma_trim_head_space(b: Seq<char>)
    requires
        b.len() > 0,
        forall|i: int| 0 <= i < b.len() ==> !is_space(#[trigger] b[i]),
    ensures
        trim_spec(seq![' '] + b) == b,
{
    let s = seq![' '] + b;
    lemma_trim_start_at(s, 1);
    assert(s.subrange(1, s.len() as int) =~= b);
    lemma_trim_end_at(b, b.len() as int);
    assert(b.subrange(0, b.len() as int) =~= b);
}

/// Lexing well-formed blocks from the counter state emits exactly their
/// tokens, adds no issue and records no warning, whatever the previously
/// accepted counter's line `kl` was: the induction behind the top-level law.
#[verifier::rlimit(100)]
pub proof fn lemma_lex_blocks_from(
    lines: Seq<Seq<char>>,
    i: int,
    bs: Seq<BlockSpec>,
    k: usize,
    kl: usize,
    issues: nat,
    strict: bool,
)
    requires
        0 <= i <= lines.len(),
        lines.subrange(i, lines.len() as int) == blocks_lines(bs),
        forall|j: int| 0 <= j < bs.len() ==> wf_block(#[trigger] bs[j], k + j),
    ensures
        spec_lex_from(lines, i, LexState::Counter, k, kl, issues, strict) == Ok::<
            (Seq<TokenV>, nat, Seq<LogEvent>),
            LexError,
        >((blocks_tokens(bs, i) + seq![TokenV::Eof], issues, seq![])),
    decreases bs.len(),
{
    let suffix = lines.subrange(i, lines.len() as int);
    if bs.len() == 0 {
        assert(suffix.len() == 0);
        assert(i == lines.len());
        assert(blocks_tokens(bs, i) + seq![TokenV::Eof] =~= seq![TokenV::Eof]);
    } else {
        let b = bs[0];
        assert(wf_block(b, k as int));
        let bl = block_lines(b);
        let tlen = b.text.len() as int;
        // the lines of the head block, read off the suffix equality
        assert(blocks_lines(bs) == bl + blocks_lines(bs.drop_first()));
        assert(bl.len() == 3 + tlen);
        assert(bl[0] == b.counter);
        assert(bl[1] == time_line(b));
        assert(suffix[0] == bl[0]);
        assert(suffix[1] == bl[1]);
        assert(lines[i] == b.counter);
        assert(lines[i + 1] == time_line(b));
        assert forall|j: int| 0 <= j < tlen implies lines[i + 2 + j] == #[trigger] b.text[j] by {
            assert(suffix[2 + j] == bl[2 + j]);
            assert(bl[2 + j] == b.text[j]);
        }
        assert(lines[i + 2 + tlen].len() == 0) by {
            assert(suffix[2 + tlen] == bl[2 + tlen]);
            assert(bl[2 + tlen] =~= Seq::<char>::empty());
        }
        assert(i + 3 + tlen <= lines.len()) by {
            assert(suffix.len() >= bl.len());
        }
        // counter step
        assert(parses_usize(lines[i]));
        assert(dec_val(lines[i]) == k + 1);
        // time step
        let ts1 = ts_text(b.h1, b.m1, b.s1, b.ms1);
        let ts2 = ts_text(b.h2, b.m2, b.s2, b.ms2);
        let left = ts1 + seq![' '];
        let right = seq![' '] + ts2;
        lemma_ts_text_chars(b.h1, b.m1, b.s1, b.ms1);
        lemma_ts_text_chars(b.h2, b.m2, b.s2, b.ms2);
        assert forall|p: int| 0 <= p < left.len() implies (#[trigger] left[p]) != '-' by {
            if p < 12 {
                assert(left[p] == ts1[p]);
            }
        }
        assert forall|p: int| 0 <= p < right.len() implies (#[trigger] right[p]) != '-' by {
            if p >= 1 {
                assert(right[p] == ts2[p - 1]);
            }
        }
        assert(time_line(b) =~= left + arrow() + right);
        lemma_split_arrow(left, right);
        assert(split_on(lines[i + 1], arrow()) == seq![left, right]);
        assert forall|p: int| 0 <= p < ts1.len() implies !is_space(#[trigger] ts1[p]) by {}
        assert forall|p: int| 0 <= p < ts2.len() implies !is_space(#[trigger] ts2[p]) by {}
        lemma_trim_tail_space(ts1);
        lemma_trim_head_space(ts2);
        assert(trim_spec(seq![left, right][0]) == ts1);
        assert(trim_spec(seq![left, right][1]) == ts2);
        let line2: usize = (i + 2) as usize;
        lemma_decode_ts_text(b.h1, b.m1, b.s1, b.ms1, line2, strict);
        lemma_decode_ts_text(b.h2, b.m2, b.s2, b.ms2, line2, strict);
        // sub step: the text runs to the first empty line
        assert forall|p: int| i + 2 <= p < i + 2 + tlen implies #[trigger] lines[p].len() > 0 by {
            assert(lines[p] == b.text[p - i - 2]);
        }
        lemma_first_empty_at(lines, i + 2, i + 2 + tlen);
        assert(first_empty_from(lines, i + 2) == i + 2 + tlen);
        assert(lines.subrange(i + 2, i + 2 + tlen) =~= b.text);
        // recurse over the remaining blocks
        let rest = bs.drop_first();
        assert forall|j: int| 0 <= j < rest.len() implies wf_block(
            #[trigger] rest[j],
            k + 1 + j,
        ) by {
            assert(rest[j] == bs[j + 1]);
        }
        assert(lines.subrange(i + 3 + tlen, lines.len() as int) =~= blocks_lines(rest)) by {
            assert(suffix =~= bl + blocks_lines(rest));
            assert forall|p: int|
                0 <= p < lines.len() - (i + 3 + tlen) implies #[trigger] lines.subrange(
                i + 3 + tlen,
                lines.len() as int,
            )[p] == blocks_lines(rest)[p] by {
                assert(suffix[3 + tlen + p] == blocks_lines(rest)[p]);
            }
        }
        assert(k + 1 + rest.len() <= usize::MAX) by {
            if rest.len() > 0 {
                assert(wf_block(rest[rest.len() - 1], k + rest.len() as int));
            }
        }
        let ln1: usize = (i + 1) as usize;
        lemma_lex_blocks_from(lines, i + 3 + tlen, rest, (k + 1) as usize, ln1, issues, strict);
        // assemble the token sequence, unfolding one state at a time
        let toks_rest = blocks_tokens(rest, i + 3 + tlen);
        let kn: usize = (k + 1) as usize;
        let tok_c = TokenV::Count(kn, ln1);
        let tok_s = TokenV::StartTime(ms_total(b.h1, b.m1, b.s1, b.ms1) as u64, (i + 2) as usize);
        let tok_e = TokenV::EndTime(ms_total(b.h2, b.m2, b.s2, b.ms2) as u64, (i + 2) as usize);
        let tok_t = TokenV::Subtitle(b.text, (i + 3) as usize);
        let after = spec_lex_from(lines, i + 3 + tlen, LexState::Counter, kn, ln1, issues, strict);
        assert(after == Ok::<(Seq<TokenV>, nat, Seq<LogEvent>), LexError>(
            (toks_rest + seq![TokenV::Eof], issues, seq![]),
        ));
        let step_sub = spec_lex_from(lines, i + 2, LexState::Sub, kn, ln1, issues, strict);
        assert(step_sub == Ok::<(Seq<TokenV>, nat, Seq<LogEvent>), LexError>(
            (seq![tok_t] + (toks_rest + seq![TokenV::Eof]), issues, seq![]),
        )) by {
            assert(lines.subrange(i + 2, i + 2 + tlen) == b.text);
            assert(i + 2 + tlen < lines.len());
        }
        let step_time = spec_lex_from(lines, i + 1, LexState::Time, kn, ln1, issues, strict);
        assert(step_time == Ok::<(Seq<TokenV>, nat, Seq<LogEvent>), LexError>(
            (seq![tok_s, tok_e] + (seq![tok_t] + (toks_rest + seq![TokenV::Eof])), issues, seq![]),
        )) by {
            assert(spec_ts_pad(ts1, strict) == 0 && spec_ts_pad(ts2, strict) == 0);
            assert(issues + spec_ts_pad(ts1, strict) + spec_ts_pad(ts2, strict) == issues);
            assert(pad_events(ts1, (i + 2) as usize, strict) =~= Seq::<LogEvent>::empty());
            assert(pad_events(ts2, (i + 2) as usize, strict) =~= Seq::<LogEvent>::empty());
            assert((pad_events(ts1, (i + 2) as usize, strict) + pad_events(
                ts2,
                (i + 2) as usize,
                strict,
            )) + Seq::<LogEvent>::empty() =~= Seq::<LogEvent>::empty());
        }
        let step_counter = spec_lex_from(lines, i, LexState::Counter, k, kl, issues, strict);
        assert(step_counter == Ok::<(Seq<TokenV>, nat, Seq<LogEvent>), LexError>(
            (
                seq![tok_c] + (seq![tok_s, tok_e] + (seq![tok_t] + (toks_rest + seq![
                    TokenV::Eof,
                ]))),
                issues,
                seq![],
            ),
        )) by {
            assert(dec_val(lines[i]) as usize == kn);
            // the counter continues the sequence, so no jump is recorded;
            // and when the sentinel pair is still (0, 0) the counter is 1,
            // so no first-counter note is recorded either
            assert(counter_events(kn, ln1, k, kl, strict) =~= Seq::<LogEvent>::empty());
            assert(counter_events(kn, ln1, k, kl, strict) + Seq::<LogEvent>::empty()
                =~= Seq::<LogEvent>::empty());
        }
        assert(blocks_tokens(bs, i) == block_tokens(b, i) + toks_rest);
        assert(seq![tok_c] + (seq![tok_s, tok_e] + (seq![tok_t] + (toks_rest + seq![TokenV::Eof])))
            =~= blocks_tokens(bs, i) + seq![TokenV::Eof]);
    }
}

/// The tokens of `n` blocks number `4 * n`.
pub proof fn lemma_blocks_tokens_len(bs: Seq<BlockSpec>, i: int)
    ensures
        blocks_tokens(bs, i).len() == 4 * bs.len(),
    decreases bs.len(),
{
    if bs.len() > 0 {
        lemma_blocks_tokens_len(bs.drop_first(), i + 3 + bs[0].text.len());
    }
}

/// On well-formed input whose counters run 1..N in steps
/// of one, the tokenizer reports zero issues, records no warnings, and
/// returns exactly `4*N + 1` tokens: `Count`, `StartTime`, `EndTime`,
/// `Subtitle` for each block, in input order, and one final `Eof`. This
/// holds under either strictness.
pub proof fn lemma_well_formed_lex(bs: Seq<BlockSpec>, strict: bool)
    requires
        bs.len() >= 1,
        forall|j: int| 0 <= j < bs.len() ==> wf_block(#[trigger] bs[j], j),
    ensures
        ({
            let r = spec_tokenize(blocks_lines(bs), strict);
            &&& r is Ok
            &&& r->Ok_0.1 == 0
            &&& r->Ok_0.0.len() == 4 * bs.len() + 1
            &&& r->Ok_0.0 == blocks_tokens(bs, 0) + seq![TokenV::Eof]
            &&& r->Ok_0.0.last() == TokenV::Eof
        }),
{
    let lines = blocks_lines(bs);
    let b0 = bs[0];
    assert(wf_block(b0, 0));
    assert(lines.len() >= block_lines(b0).len()) by {
        assert(lines == block_lines(b0) + blocks_lines(bs.drop_first()));
    }
    // the input is already normalized: no byte-order mark, trailing blank
    assert(lines[0] == b0.counter) by {
        assert(block_lines(b0)[0] == b0.counter);
    }
    assert(lines[0].len() > 0);
    assert(lines[0][0] != '\u{feff}') by {
        assert(is_digit(lines[0][0]));
    }
    lemma_blocks_last_empty(bs);
    assert(lines.last().len() == 0);
    assert(normalize_lines(lines) == lines);
    assert(lines.subrange(0, lines.len() as int) =~= lines);
    lemma_lex_blocks_from(lines, 0, bs, 0, 0, 0, strict);
    lemma_blocks_tokens_len(bs, 0);
    let r = spec_tokenize(lines, strict);
    assert(r == spec_lex(lines, strict));
    assert(r == spec_lex_from(lines, 0, LexState::Counter, 0, 0, 0, strict));
    assert(r is Ok);
    assert(r->Ok_0.0 == blocks_tokens(bs, 0) + seq![TokenV::Eof]);
    assert(r->Ok_0.1 == 0);
    assert(r->Ok_0.2 == Seq::<LogEvent>::empty());
    assert(r->Ok_0.0.len() == 4 * bs.len() + 1);
    assert(r->Ok_0.0.last() == TokenV::Eof);
}

/// The last raw line of a non-empty block sequence is the final blank line.
proof fn lemma_blocks_last_empty(bs: Seq<BlockSpec>)
    requires
        bs.len() >= 1,
    ensures
        blocks_lines(bs).len() >= 1,
        blocks_lines(bs).last().len() == 0,
    decreases bs.len(),
{
    let rest = bs.drop_first();
    if rest.len() == 0 {
        assert(blocks_lines(bs) == block_lines(bs[0]) + blocks_lines(rest));
        assert(blocks_lines(rest) =~= Seq::<Seq<char>>::empty());
        assert(blocks_lines(bs) =~= block_lines(bs[0]));
        assert(block_lines(bs[0]).last() =~= Seq::<char>::empty());
    } else {
        lemma_blocks_last_empty(rest);
        assert(blocks_lines(bs) == block_lines(bs[0]) + blocks_lines(rest));
        assert(blocks_lines(bs).last() == blocks_lines(rest).last());
    }
}

/// The pipeline is deterministic: on identical raw input
/// and flags, two runs yield identical token sequences, identical records
/// and text-line totals, and identical issue counts at both stages. Together
/// with the exact contracts of `Lexer::lex` and `Parser::parse`, which pin
/// each run to these models, two executions of the pipeline agree.
pub proof fn lemma_pipeline_deterministic(raw1: Seq<Seq<char>>, raw2: Seq<Seq<char>>, strict: bool)
    requires
        raw1 == raw2,
    ensures
        spec_tokenize(raw1, strict) == spec_tokenize(raw2, strict),
        spec_tokenize(raw1, strict) is Ok ==> spec_parse(
            spec_tokenize(raw1, strict)->Ok_0.0,
            strict,
        ) == spec_parse(spec_tokenize(raw2, strict)->Ok_0.0, strict),
{
}

} // verus!
