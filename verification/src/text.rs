//! Character-level utilities shared by the lexer: decimal parsing,
//! whitespace trimming, and splitting on a separator pattern.
use vstd::prelude::*;
use vstd::slice::slice_subrange;
use vstd::slice::slice_to_vec;
use vstd::string::StrSliceExecFns;

verus! {

/// The characters with the Unicode `White_Space` property, as stripped from
/// the ends of each half of a time-range line.
pub open spec fn is_space(c: char) -> bool {
    ||| c == ' '
    ||| c == '\t'
    ||| c == '\n'
    ||| c == '\u{b}'
    ||| c == '\u{c}'
    ||| c == '\r'
    ||| c == '\u{85}'
    ||| c == '\u{a0}'
    ||| c == '\u{1680}'
    ||| ('\u{2000}' <= c && c <= '\u{200a}')
    ||| c == '\u{2028}'
    ||| c == '\u{2029}'
    ||| c == '\u{202f}'
    ||| c == '\u{205f}'
    ||| c == '\u{3000}'
}

/// Runtime test for [`is_space`].
pub fn is_space_char(c: char) -> (r: bool)
    ensures
        r == is_space(c),
{
    c == ' ' || c == '\t' || c == '\n' || c == '\u{b}' || c == '\u{c}' || c == '\r' || c
        == '\u{85}' || c == '\u{a0}' || c == '\u{1680}' || ('\u{2000}' <= c && c <= '\u{200a}') || c
        == '\u{2028}' || c == '\u{2029}' || c == '\u{202f}' || c == '\u{205f}' || c == '\u{3000}'
}

/// The sequence with leading whitespace removed.
pub open spec fn trim_start_rec(s: Seq<char>) -> Seq<char>
    decreases s.len(),
{
    if s.len() > 0 && is_space(s[0]) {
        trim_start_rec(s.drop_first())
    } else {
        s
    }
}

/// The sequence with trailing whitespace removed.
pub open spec fn trim_end_rec(s: Seq<char>) -> Seq<char>
    decreases s.len(),
{
    if s.len() > 0 && is_space(s.last()) {
        trim_end_rec(s.drop_last())
    } else {
        s
    }
}

/// The sequence with whitespace removed from both ends.
pub open spec fn trim_spec(s: Seq<char>) -> Seq<char> {
    trim_end_rec(trim_start_rec(s))
}

pub proof fn lemma_trim_start_at(s: Seq<char>, a: int)
    requires
        0 <= a <= s.len(),
        forall|j: int| 0 <= j < a ==> is_space(#[trigger] s[j]),
        a < s.len() ==> !is_space(s[a]),
    ensures
        trim_start_rec(s) == s.subrange(a, s.len() as int),
    decreases a,
{
    if a == 0 {
        assert(s.subrange(0, s.len() as int) =~= s);
    } else {
        lemma_trim_start_at(s.drop_first(), a - 1);
        assert(s.drop_first().subrange(a - 1, s.drop_first().len() as int) =~= s.subrange(
            a,
            s.len() as int,
        ));
    }
}

pub proof fn lemma_trim_end_at(s: Seq<char>, b: int)
    requires
        0 <= b <= s.len(),
        forall|j: int| b <= j < s.len() ==> is_space(#[trigger] s[j]),
        b > 0 ==> !is_space(s[b - 1]),
    ensures
        trim_end_rec(s) == s.subrange(0, b),
    decreases s.len() - b,
{
    if b == s.len() {
        if s.len() == 0 {
            assert(s.subrange(0, 0) =~= s);
        } else {
            assert(s.subrange(0, b) =~= s);
        }
    } else {
        lemma_trim_end_at(s.drop_last(), b);
        assert(s.drop_last().subrange(0, b) =~= s.subrange(0, b));
    }
}

/// Copy of `v` with whitespace removed from both ends.
pub fn trim_chars(v: &[char]) -> (r: Vec<char>)
    ensures
        r@ == trim_spec(v@),
{
    let mut a: usize = 0;
    while a < v.len() && is_space_char(v[a])
        invariant
            0 <= a <= v@.len(),
            forall|j: int| 0 <= j < a ==> is_space(#[trigger] v@[j]),
        decreases v@.len() - a,
    {
        a = a + 1;
    }
    let mut b: usize = v.len();
    while b > a && is_space_char(v[b - 1])
        invariant
            a <= b <= v@.len(),
            forall|j: int| b <= j < v@.len() ==> is_space(#[trigger] v@[j]),
        decreases b,
    {
        b = b - 1;
    }
    proof {
        lemma_trim_start_at(v@, a as int);
        let t = v@.subrange(a as int, v@.len() as int);
        lemma_trim_end_at(t, b - a);
        assert(t.subrange(0, b - a) =~= v@.subrange(a as int, b as int));
    }
    slice_to_vec(slice_subrange(v, a, b))
}

/// `pat` occurs in `s` starting at position `i`.
pub open spec fn pat_at(s: Seq<char>, pat: Seq<char>, i: int) -> bool {
    0 <= i && i + pat.len() <= s.len() && s.subrange(i, i + pat.len() as int) == pat
}

/// Position of the first occurrence of a non-empty `pat` in `s` at or after
/// `i`, or -1 when there is none.
pub open spec fn find_pat_from(s: Seq<char>, pat: Seq<char>, i: int) -> int
    decreases s.len() - i,
{
    if pat.len() == 0 || i < 0 || i + pat.len() > s.len() {
        -1
    } else if pat_at(s, pat, i) {
        i
    } else {
        find_pat_from(s, pat, i + 1)
    }
}

/// A non-negative find result is the least match position at or after `from`.
pub proof fn lemma_find_pat_bounds(s: Seq<char>, pat: Seq<char>, from: int)
    requires
        find_pat_from(s, pat, from) >= 0,
    ensures
        from <= find_pat_from(s, pat, from),
        pat_at(s, pat, find_pat_from(s, pat, from)),
        forall|k: int| from <= k < find_pat_from(s, pat, from) ==> !pat_at(s, pat, k),
    decreases s.len() - from,
{
    if !(pat.len() == 0 || from < 0 || from + pat.len() > s.len()) && !pat_at(s, pat, from) {
        lemma_find_pat_bounds(s, pat, from + 1);
    }
}

/// Skipping over positions without a match does not change the find result.
pub proof fn lemma_find_pat_skip(s: Seq<char>, pat: Seq<char>, from: int, i: int)
    requires
        0 <= from <= i,
        forall|k: int| from <= k < i ==> !pat_at(s, pat, k),
    ensures
        find_pat_from(s, pat, from) == find_pat_from(s, pat, i),
    decreases i - from,
{
    if from < i {
        if pat.len() == 0 || from + pat.len() > s.len() {
            assert(find_pat_from(s, pat, from) == -1);
            assert(find_pat_from(s, pat, i) == -1);
        } else {
            lemma_find_pat_skip(s, pat, from + 1, i);
        }
    }
}

/// Find the first occurrence of `pat` in `v` at or after `from`.
pub fn find_pat(v: &[char], pat: &[char], from: usize) -> (r: Option<usize>)
    requires
        from <= v@.len(),
    ensures
        match r {
            Some(f) => find_pat_from(v@, pat@, from as int) == f && from <= f && f + pat@.len()
                <= v@.len() && pat_at(v@, pat@, f as int),
            None => find_pat_from(v@, pat@, from as int) == -1,
        },
{
    let n = v.len();
    if pat.len() == 0 || pat.len() > n {
        return None;
    }
    let mut i: usize = from;
    while i <= n - pat.len()
        invariant
            n == v@.len(),
            1 <= pat@.len() <= v@.len(),
            from <= i <= v@.len(),
            forall|k: int| from <= k < i ==> !pat_at(v@, pat@, k),
        decreases v@.len() - i,
    {
        let mut j: usize = 0;
        let mut matched: bool = true;
        while j < pat.len()
            invariant
                n == v@.len(),
                pat@.len() <= v@.len(),
                i + pat@.len() <= v@.len(),
                0 <= j <= pat@.len(),
                matched <==> (forall|k: int| 0 <= k < j ==> v@[i + k] == pat@[k]),
            decreases pat@.len() - j,
        {
            if v[i + j] != pat[j] {
                matched = false;
                j = pat.len();
            } else {
                j = j + 1;
            }
        }
        if matched {
            proof {
                assert(v@.subrange(i as int, i + pat@.len() as int) =~= pat@);
                lemma_find_pat_skip(v@, pat@, from as int, i as int);
            }
            return Some(i);
        }
        proof {
            assert(v@.subrange(i as int, i + pat@.len() as int) != pat@);
        }
        i = i + 1;
    }
    proof {
        lemma_find_pat_skip(v@, pat@, from as int, i as int);
    }
    None
}

/// The parts of `s` separated by occurrences of `pat`, scanned left to
/// right without overlap, separators removed; one part when `pat` is absent.
pub open spec fn split_on(s: Seq<char>, pat: Seq<char>) -> Seq<Seq<char>>
    decreases s.len(),
    via split_on_decreases
{
    if pat.len() == 0 {
        seq![s]
    } else {
        let f = find_pat_from(s, pat, 0);
        if f < 0 {
            seq![s]
        } else {
            seq![s.subrange(0, f)] + split_on(
                s.subrange(f + pat.len() as int, s.len() as int),
                pat,
            )
        }
    }
}

#[via_fn]
proof fn split_on_decreases(s: Seq<char>, pat: Seq<char>) {
    if pat.len() != 0 {
        let f = find_pat_from(s, pat, 0);
        if f >= 0 {
            lemma_find_pat_bounds(s, pat, 0);
        }
    }
}

fn split_chars_into(v: &[char], pat: &[char], parts: &mut Vec<Vec<char>>)
    requires
        pat@.len() >= 1,
    ensures
        final(parts).deep_view() == old(parts).deep_view() + split_on(v@, pat@),
    decreases v@.len(),
{
    match find_pat(v, pat, 0) {
        None => {
            parts.push(slice_to_vec(v));
            proof {
                assert(split_on(v@, pat@) =~= seq![v@]);
                assert(parts.deep_view() =~~= old(parts).deep_view() + split_on(v@, pat@));
            }
        },
        Some(f) => {
            let head = slice_to_vec(slice_subrange(v, 0, f));
            parts.push(head);
            let ghost mid = parts.deep_view();
            let n = v.len();
            let rest = slice_subrange(v, f + pat.len(), n);
            split_chars_into(rest, pat, parts);
            proof {
                assert(mid =~~= old(parts).deep_view() + seq![v@.subrange(0, f as int)]);
                assert(parts.deep_view() =~~= old(parts).deep_view() + split_on(v@, pat@));
            }
        },
    }
}

/// The parts of `v` separated by occurrences of `pat`.
pub fn split_chars(v: &[char], pat: &[char]) -> (parts: Vec<Vec<char>>)
    requires
        pat@.len() >= 1,
    ensures
        parts.deep_view() == split_on(v@, pat@),
{
    let mut parts: Vec<Vec<char>> = Vec::new();
    split_chars_into(v, pat, &mut parts);
    proof {
        assert(parts.deep_view() =~~= split_on(v@, pat@));
    }
    parts
}

/// For a vector of characters the deep view is the view itself.
pub broadcast proof fn lemma_vec_char_deep_view(v: Vec<char>)
    ensures
        #[trigger] v.deep_view() == v@,
{
    assert(v.deep_view() =~= v@);
}

/// The characters of `s`, one per element.
pub fn chars_vec(s: &str) -> (r: Vec<char>)
    ensures
        r@ == s@,
{
    let n = s.unicode_len();
    let mut r: Vec<char> = Vec::new();
    let mut i: usize = 0;
    while i < n
        invariant
            0 <= i <= n,
            n == s@.len(),
            r@ == s@.subrange(0, i as int),
        decreases n - i,
    {
        let c = s.get_char(i);
        r.push(c);
        proof {
            assert(r@ =~= s@.subrange(0, i + 1));
        }
        i = i + 1;
    }
    proof {
        assert(s@.subrange(0, n as int) =~= s@);
    }
    r
}

/// A decimal digit character.
pub open spec fn is_digit(c: char) -> bool {
    '0' <= c && c <= '9'
}

/// Numeric value of a digit character.
pub open spec fn digit_val(c: char) -> nat {
    (c as nat - '0' as nat) as nat
}

/// A non-empty sequence made only of decimal digits: the "clean integer"
/// form the lexer accepts.
pub open spec fn is_digits(s: Seq<char>) -> bool {
    s.len() > 0 && forall|i: int| 0 <= i < s.len() ==> is_digit(#[trigger] s[i])
}

/// Value of a digit sequence read in base ten.
pub open spec fn dec_val(s: Seq<char>) -> nat
    decreases s.len(),
{
    if s.len() == 0 {
        0
    } else {
        dec_val(s.drop_last()) * 10 + digit_val(s.last())
    }
}

/// A sequence parses as a `u64` when it is all digits and its value fits.
pub open spec fn parses_u64(s: Seq<char>) -> bool {
    is_digits(s) && dec_val(s) <= u64::MAX
}

/// A sequence parses as a `usize` when it is all digits and its value fits.
pub open spec fn parses_usize(s: Seq<char>) -> bool {
    is_digits(s) && dec_val(s) <= usize::MAX
}

/// Appending more digits never decreases the value of the prefix.
pub proof fn lemma_dec_val_prefix(s: Seq<char>, i: int)
    requires
        0 <= i <= s.len(),
    ensures
        dec_val(s) >= dec_val(s.subrange(0, i)),
    decreases s.len() - i,
{
    if i < s.len() {
        lemma_dec_val_prefix(s, i + 1);
        let p = s.subrange(0, i);
        let q = s.subrange(0, i + 1);
        assert(q.drop_last() =~= p);
        assert(dec_val(q) == dec_val(p) * 10 + digit_val(q.last()));
        assert(dec_val(p) * 10 >= dec_val(p)) by (nonlinear_arith);
    } else {
        assert(s.subrange(0, i) =~= s);
    }
}

/// Parse a digit-only slice of characters as a `u64`, detecting overflow.
pub fn parse_u64_chars(v: &[char]) -> (r: Option<u64>)
    ensures
        r is Some <==> parses_u64(v@),
        r is Some ==> r->0 == dec_val(v@),
{
    if v.len() == 0 {
        return None;
    }
    let mut acc: u64 = 0;
    let mut i: usize = 0;
    while i < v.len()
        invariant
            0 <= i <= v.len(),
            v.len() > 0,
            forall|j: int| 0 <= j < i ==> is_digit(#[trigger] v@[j]),
            acc == dec_val(v@.subrange(0, i as int)),
        decreases v.len() - i,
    {
        let c = v[i];
        if c < '0' || c > '9' {
            return None;
        }
        let d: u64 = (c as u32 - '0' as u32) as u64;
        assert(d == digit_val(v@[i as int]));
        if acc > (u64::MAX - d) / 10 {
            proof {
                let q = v@.subrange(0, i + 1);
                assert(q.drop_last() =~= v@.subrange(0, i as int));
                assert(dec_val(q) == acc * 10 + d);
                assert(acc * 10 + d > u64::MAX) by (nonlinear_arith)
                    requires
                        acc > (u64::MAX - d) / 10,
                        d <= 9,
                ;
                lemma_dec_val_prefix(v@, i + 1);
            }
            return None;
        }
        proof {
            let q = v@.subrange(0, i + 1);
            assert(q.drop_last() =~= v@.subrange(0, i as int));
            assert(acc * 10 + d <= u64::MAX) by (nonlinear_arith)
                requires
                    acc <= (u64::MAX - d) / 10,
                    d <= 9,
            ;
        }
        acc = acc * 10 + d;
        i = i + 1;
    }
    proof {
        assert(v@.subrange(0, v@.len() as int) =~= v@);
    }
    Some(acc)
}

/// Parse a digit-only slice of characters as a `usize`, detecting overflow.
pub fn parse_usize_chars(v: &[char]) -> (r: Option<usize>)
    ensures
        r is Some <==> parses_usize(v@),
        r is Some ==> r->0 == dec_val(v@),
{
    if v.len() == 0 {
        return None;
    }
    let mut acc: usize = 0;
    let mut i: usize = 0;
    while i < v.len()
        invariant
            0 <= i <= v.len(),
            v.len() > 0,
            forall|j: int| 0 <= j < i ==> is_digit(#[trigger] v@[j]),
            acc == dec_val(v@.subrange(0, i as int)),
        decreases v.len() - i,
    {
        let c = v[i];
        if c < '0' || c > '9' {
            return None;
        }
        let d: usize = (c as u32 - '0' as u32) as usize;
        assert(d == digit_val(v@[i as int]));
        if acc > (usize::MAX - d) / 10 {
            proof {
                let q = v@.subrange(0, i + 1);
                assert(q.drop_last() =~= v@.subrange(0, i as int));
                assert(dec_val(q) == acc * 10 + d);
                assert(acc * 10 + d > usize::MAX) by (nonlinear_arith)
                    requires
                        acc > (usize::MAX - d) / 10,
                        d <= 9,
                ;
                lemma_dec_val_prefix(v@, i + 1);
            }
            return None;
        }
        proof {
            let q = v@.subrange(0, i + 1);
            assert(q.drop_last() =~= v@.subrange(0, i as int));
            assert(acc * 10 + d <= usize::MAX) by (nonlinear_arith)
                requires
                    acc <= (usize::MAX - d) / 10,
                    d <= 9,
            ;
        }
        acc = acc * 10 + d;
        i = i + 1;
    }
    proof {
        assert(v@.subrange(0, v@.len() as int) =~= v@);
    }
    Some(acc)
}

} // verus!
