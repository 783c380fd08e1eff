//! The tokenizer: turns the raw lines of a `.srt` file into a typed token
//! stream while checking low-level structural and timestamp conventions.
//!
//! The exact behaviour is given by [`spec_lex`], a recursive model of the
//! three-state traversal (`Counter` -> `Time` -> `Sub`), and [`Lexer::lex`]
//! is proved to return exactly what the model says.
use vstd::prelude::*;

use crate::logging::LogEvent;
use crate::text::chars_vec;
use crate::text::dec_val;
use crate::text::find_pat_from;
use crate::text::parse_usize_chars;
use crate::text::parses_u64;
use crate::text::parses_usize;
use crate::text::split_chars;
use crate::text::split_on;
use crate::text::trim_chars;
use crate::text::trim_spec;
use vstd::string::StrSliceExecFns;

verus! {

broadcast use crate::text::lemma_vec_char_deep_view;

/// One token of the stream, each tagged with its one-based source line.
#[derive(Debug, PartialEq)]
pub enum Token {
    /// A sequential block counter.
    Count(usize, usize),
    /// Start of a time range, in milliseconds.
    StartTime(u64, usize),
    /// End of a time range, in milliseconds.
    EndTime(u64, usize),
    /// The text lines of one block, with the line the block's text began on.
    Subtitle((Vec<String>, usize)),
    /// End of the stream; always the final token.
    Eof,
}

/// Mathematical value of a [`Token`]: text is a sequence of character
/// sequences.
pub enum TokenV {
    Count(usize, usize),
    StartTime(u64, usize),
    EndTime(u64, usize),
    Subtitle(Seq<Seq<char>>, usize),
    Eof,
}

impl View for Token {
    type V = TokenV;

    open spec fn view(&self) -> TokenV {
        match self {
            Token::Count(v, l) => TokenV::Count(*v, *l),
            Token::StartTime(ms, l) => TokenV::StartTime(*ms, *l),
            Token::EndTime(ms, l) => TokenV::EndTime(*ms, *l),
            Token::Subtitle(t) => TokenV::Subtitle(t.0.deep_view(), t.1),
            Token::Eof => TokenV::Eof,
        }
    }
}

impl DeepView for Token {
    type V = TokenV;

    open spec fn deep_view(&self) -> TokenV {
        self.view()
    }
}

/// The fatal conditions that abort the pipeline, each carrying the
/// one-based line it was found on.
#[derive(Debug, Clone, Copy, PartialEq, Eq, Structural)]
pub enum LexError {
    /// The input line sequence was empty.
    EmptyInput,
    /// A counter line is not a clean unsigned integer.
    MalformedCounter(usize),
    /// A time-range line does not split on `-->` into exactly two parts.
    MalformedTimeRange(usize),
    /// A timestamp lacks exactly three colon fields or exactly two comma
    /// sub-fields.
    InvalidTimestampShape(usize),
    /// A numeric timestamp field does not parse as an unsigned 64-bit
    /// integer, or the decoded total does not fit in one.
    InvalidTimestampNumber(usize),
}

/// The three states of the lexer's traversal.
#[derive(PartialEq)]
pub enum LexState {
    Counter,
    Time,
    Sub,
}

/// The raw lines as the lexer sees them: a trailing blank line is re-added
/// when missing, and a leading byte-order mark is stripped.
pub open spec fn normalize_lines(lines: Seq<Seq<char>>) -> Seq<Seq<char>>
    recommends
        lines.len() > 0,
{
    let padded = if lines.len() > 0 && lines.last().len() > 0 {
        lines.push(Seq::empty())
    } else {
        lines
    };
    if padded.len() > 0 && padded[0].len() > 0 && padded[0][0] == '\u{feff}' {
        padded.update(0, padded[0].drop_first())
    } else {
        padded
    }
}

/// The four numeric fields of a timestamp `HH:MM:SS,mmm`: exactly three
/// colon-separated fields, the last split on a comma into exactly two.
pub open spec fn ts_fields(s: Seq<char>) -> Option<(Seq<char>, Seq<char>, Seq<char>, Seq<char>)> {
    let dials = split_on(s, seq![':']);
    if dials.len() != 3 {
        None
    } else {
        let subs = split_on(dials[2], seq![',']);
        if subs.len() != 2 {
            None
        } else {
            Some((dials[0], dials[1], subs[0], subs[1]))
        }
    }
}

/// Canonical zero-padded field widths: 2, 2, 2 and 3 digits.
pub open spec fn pad_ok(f: (Seq<char>, Seq<char>, Seq<char>, Seq<char>)) -> bool {
    f.0.len() == 2 && f.1.len() == 2 && f.2.len() == 2 && f.3.len() == 3
}

/// The one non-fatal issue a timestamp can contribute: non-canonical
/// padding, counted only under strictness and only when the shape is sound.
pub open spec fn spec_ts_pad(s: Seq<char>, strict: bool) -> nat {
    match ts_fields(s) {
        Some(f) => if strict && !pad_ok(f) {
            1
        } else {
            0
        },
        None => 0,
    }
}

/// Decode a timestamp into milliseconds:
/// hours*3,600,000 + minutes*60,000 + seconds*1,000 + milliseconds.
/// A total beyond the unsigned 64-bit range is treated as a failed numeric
/// field.
pub open spec fn spec_decode_time(s: Seq<char>, line: usize) -> Result<u64, LexError> {
    match ts_fields(s) {
        None => Err(LexError::InvalidTimestampShape(line)),
        Some((hh, mm, ss, ms)) => {
            if parses_u64(hh) && parses_u64(mm) && parses_u64(ss) && parses_u64(ms) {
                let total = dec_val(hh) * 3600000 + dec_val(mm) * 60000 + dec_val(ss) * 1000
                    + dec_val(ms);
                if total <= u64::MAX {
                    Ok(total as u64)
                } else {
                    Err(LexError::InvalidTimestampNumber(line))
                }
            } else {
                Err(LexError::InvalidTimestampNumber(line))
            }
        },
    }
}

/// Index of the first empty line at or after `i`, or `lines.len()`.
pub open spec fn first_empty_from(lines: Seq<Seq<char>>, i: int) -> int
    decreases lines.len() - i,
{
    if i < 0 || i >= lines.len() {
        i
    } else if lines[i].len() == 0 {
        i
    } else {
        first_empty_from(lines, i + 1)
    }
}

/// The first empty line lies between `i` and the end.
pub proof fn lemma_first_empty_bounds(lines: Seq<Seq<char>>, i: int)
    requires
        0 <= i <= lines.len(),
    ensures
        i <= first_empty_from(lines, i) <= lines.len(),
        forall|k: int| i <= k < first_empty_from(lines, i) ==> lines[k].len() > 0,
        first_empty_from(lines, i) < lines.len() ==> lines[first_empty_from(lines, i)].len() == 0,
    decreases lines.len() - i,
{
    if i < lines.len() && lines[i].len() != 0 {
        lemma_first_empty_bounds(lines, i + 1);
    }
}

/// When no line in `[start, j)` is empty and `j` holds an empty line (or is
/// the end), the first empty line from `start` is exactly `j`.
pub proof fn lemma_first_empty_at(lines: Seq<Seq<char>>, start: int, j: int)
    requires
        0 <= start <= j <= lines.len(),
        forall|k: int| start <= k < j ==> #[trigger] lines[k].len() > 0,
        j < lines.len() ==> lines[j].len() == 0,
    ensures
        first_empty_from(lines, start) == j,
    decreases j - start,
{
    if start < j {
        lemma_first_empty_at(lines, start + 1, j);
    }
}

/// The separator of a time-range line.
pub open spec fn arrow() -> Seq<char> {
    seq!['-', '-', '>']
}

/// The warning a padded-width check on one timestamp contributes: one
/// padding event exactly when one padding issue is counted.
pub open spec fn pad_events(s: Seq<char>, line: usize, strict: bool) -> Seq<LogEvent> {
    if spec_ts_pad(s, strict) == 1 {
        seq![LogEvent::PaddingIssue { line }]
    } else {
        seq![]
    }
}

/// The warnings one accepted counter contributes: a counter-jump warning
/// naming both values and lines exactly when a discontinuity issue is
/// counted, and, under strictness, a note when the first counter seen (the
/// sentinel pair is still `(0, 0)`) is not one.
pub open spec fn counter_events(
    v: usize,
    line_no: usize,
    last_v: usize,
    last_l: usize,
    strict: bool,
) -> Seq<LogEvent> {
    let cj: Seq<LogEvent> = if v == last_v + 1 {
        seq![]
    } else {
        seq![LogEvent::CounterJump { line: line_no, last_value: last_v, last_line: last_l, value: v }]
    };
    let fc: Seq<LogEvent> = if strict && last_v == 0 && last_l == 0 && v != 1 {
        seq![LogEvent::FirstCounterNotOne { line: line_no, value: v }]
    } else {
        seq![]
    };
    cj + fc
}

/// The tokens emitted, the final issue count and the recorded warnings when
/// lexing `lines` from position `i` in state `st`, with `(last_v, last_l)`
/// the previously accepted counter value and its line and `issues` the
/// issues found so far; or the fatal error met first.
pub open spec fn spec_lex_from(
    lines: Seq<Seq<char>>,
    i: int,
    st: LexState,
    last_v: usize,
    last_l: usize,
    issues: nat,
    strict: bool,
) -> Result<(Seq<TokenV>, nat, Seq<LogEvent>), LexError>
    decreases lines.len() - i,
    via spec_lex_from_decreases
{
    if i < 0 || i >= lines.len() {
        Ok((seq![TokenV::Eof], issues, seq![]))
    } else {
        let line_no = (i + 1) as usize;
        match st {
            LexState::Counter => {
                if !parses_usize(lines[i]) {
                    Err(LexError::MalformedCounter(line_no))
                } else {
                    let v = dec_val(lines[i]) as usize;
                    let iss = if v == last_v + 1 {
                        issues
                    } else {
                        issues + 1
                    };
                    let evs = counter_events(v, line_no, last_v, last_l, strict);
                    match spec_lex_from(lines, i + 1, LexState::Time, v, line_no, iss, strict) {
                        Ok((toks, n, logs)) => Ok(
                            (seq![TokenV::Count(v, line_no)] + toks, n, evs + logs),
                        ),
                        Err(e) => Err(e),
                    }
                }
            },
            LexState::Time => {
                let parts = split_on(lines[i], arrow());
                if parts.len() != 2 {
                    Err(LexError::MalformedTimeRange(line_no))
                } else {
                    let t0 = trim_spec(parts[0]);
                    let t1 = trim_spec(parts[1]);
                    match spec_decode_time(t0, line_no) {
                        Err(e) => Err(e),
                        Ok(b) => match spec_decode_time(t1, line_no) {
                            Err(e) => Err(e),
                            Ok(en) => {
                                let iss = issues + spec_ts_pad(t0, strict) + spec_ts_pad(
                                    t1,
                                    strict,
                                );
                                let evs = pad_events(t0, line_no, strict) + pad_events(
                                    t1,
                                    line_no,
                                    strict,
                                );
                                match spec_lex_from(
                                    lines,
                                    i + 1,
                                    LexState::Sub,
                                    last_v,
                                    last_l,
                                    iss,
                                    strict,
                                ) {
                                    Ok((toks, n, logs)) => Ok(
                                        (
                                            seq![
                                                TokenV::StartTime(b, line_no),
                                                TokenV::EndTime(en, line_no),
                                            ] + toks,
                                            n,
                                            evs + logs,
                                        ),
                                    ),
                                    Err(e) => Err(e),
                                }
                            },
                        },
                    }
                }
            },
            LexState::Sub => {
                let j = first_empty_from(lines, i);
                let text = lines.subrange(i, j);
                let next = if j < lines.len() {
                    j + 1
                } else {
                    j
                };
                match spec_lex_from(lines, next, LexState::Counter, last_v, last_l, issues, strict) {
                    Ok((toks, n, logs)) => Ok(
                        (seq![TokenV::Subtitle(text, line_no)] + toks, n, logs),
                    ),
                    Err(e) => Err(e),
                }
            },
        }
    }
}

#[via_fn]
proof fn spec_lex_from_decreases(
    lines: Seq<Seq<char>>,
    i: int,
    st: LexState,
    last_v: usize,
    last_l: usize,
    issues: nat,
    strict: bool,
) {
    if 0 <= i < lines.len() {
        match st {
            LexState::Sub => {
                lemma_first_empty_bounds(lines, i);
            },
            _ => {
            },
        }
    }
}

/// Lexing a whole (normalized) line sequence: the documented traversal from
/// the first line, state `Counter`, the sentinel counter pair `(0, 0)` and
/// no issues.
pub open spec fn spec_lex(lines: Seq<Seq<char>>, strict: bool) -> Result<
    (Seq<TokenV>, nat, Seq<LogEvent>),
    LexError,
> {
    spec_lex_from(lines, 0, LexState::Counter, 0, 0, 0, strict)
}

/// What the whole tokenizing stage yields on raw input lines: empty input is
/// refused, anything else is normalized and lexed.
pub open spec fn spec_tokenize(raw: Seq<Seq<char>>, strict: bool) -> Result<
    (Seq<TokenV>, nat, Seq<LogEvent>),
    LexError,
> {
    if raw.len() == 0 {
        Err(LexError::EmptyInput)
    } else {
        spec_lex(normalize_lines(raw), strict)
    }
}

/// The informational notes construction records while normalizing the raw
/// lines, each only under verbosity: the re-added trailing blank line, then
/// the stripped byte-order mark.
pub open spec fn normalize_events(raw: Seq<Seq<char>>, verbose: bool) -> Seq<LogEvent>
    recommends
        raw.len() > 0,
{
    let blank: Seq<LogEvent> = if verbose && raw.len() > 0 && raw.last().len() > 0 {
        seq![LogEvent::ExtraBlankLine]
    } else {
        seq![]
    };
    let padded = if raw.len() > 0 && raw.last().len() > 0 {
        raw.push(Seq::empty())
    } else {
        raw
    };
    let bom: Seq<LogEvent> = if verbose && padded.len() > 0 && padded[0].len() > 0 && padded[0][0]
        == '\u{feff}' {
        seq![LogEvent::BomDetected]
    } else {
        seq![]
    };
    blank + bom
}

/// Strip one leading byte-order mark character, if present.
fn remove_bom(s: &mut String)
    ensures
        old(s)@.len() > 0 && old(s)@[0] == '\u{feff}' ==> final(s)@ == old(s)@.drop_first(),
        !(old(s)@.len() > 0 && old(s)@[0] == '\u{feff}') ==> final(s)@ == old(s)@,
{
    let n = s.as_str().unicode_len();
    if n > 0 && s.as_str().get_char(0) == '\u{feff}' {
        let t = s.as_str().substring_char(1, n).to_owned();
        proof {
            assert(t@ =~= old(s)@.drop_first());
        }
        *s = t;
    }
}

/// Combine the four numeric fields of a timestamp into total milliseconds,
/// absent when a field does not parse or the total overflows.
fn combine_time_fields(hh: &Vec<char>, mm: &Vec<char>, ss: &Vec<char>, ms: &Vec<char>) -> (r:
    Option<u64>)
    ensures
        r is Some <==> (parses_u64(hh@) && parses_u64(mm@) && parses_u64(ss@) && parses_u64(ms@)
            && dec_val(hh@) * 3600000 + dec_val(mm@) * 60000 + dec_val(ss@) * 1000 + dec_val(ms@)
            <= u64::MAX),
        r is Some ==> r->0 == dec_val(hh@) * 3600000 + dec_val(mm@) * 60000 + dec_val(ss@) * 1000
            + dec_val(ms@),
{
    let ms_v = match crate::text::parse_u64_chars(ms.as_slice()) {
        Some(v) => v,
        None => {
            return None;
        },
    };
    let hh_v = match crate::text::parse_u64_chars(hh.as_slice()) {
        Some(v) => v,
        None => {
            return None;
        },
    };
    let mm_v = match crate::text::parse_u64_chars(mm.as_slice()) {
        Some(v) => v,
        None => {
            return None;
        },
    };
    let ss_v = match crate::text::parse_u64_chars(ss.as_slice()) {
        Some(v) => v,
        None => {
            return None;
        },
    };
    let total: u128 = (hh_v as u128) * 3600000 + (mm_v as u128) * 60000 + (ss_v as u128) * 1000 + (
    ms_v as u128);
    if total > u64::MAX as u128 {
        return None;
    }
    Some(total as u64)
}

/// Environment for tokenizing a `.srt` file.
pub struct Lexer {
    input: Vec<String>,
    curr_loc: Option<usize>,
    state: LexState,
    verbose: bool,
    strict: bool,
    issues: usize,
    last_count: (usize, usize),  // count, line
    logs: Vec<LogEvent>,
}

impl Lexer {
    /// The lines the lexer traverses.
    pub closed spec fn lines(&self) -> Seq<Seq<char>> {
        self.input.deep_view()
    }

    /// The current position, absent once past the end.
    pub closed spec fn loc(&self) -> Option<usize> {
        self.curr_loc
    }

    /// The current traversal state.
    pub closed spec fn lex_state(&self) -> LexState {
        self.state
    }

    /// The strictness flag given at construction.
    pub closed spec fn is_strict(&self) -> bool {
        self.strict
    }

    /// The verbosity flag given at construction.
    pub closed spec fn is_verbose(&self) -> bool {
        self.verbose
    }

    /// Non-fatal issues found so far.
    pub closed spec fn issue_count(&self) -> nat {
        self.issues as nat
    }

    /// The previously accepted counter value and its line.
    pub closed spec fn last(&self) -> (usize, usize) {
        self.last_count
    }

    /// The one-based number of the current line.
    pub closed spec fn line_no_spec(&self) -> usize {
        match self.curr_loc {
            Some(c) => (c + 1) as usize,
            None => 0,
        }
    }

    /// The diagnostics recorded so far.
    pub closed spec fn log_events(&self) -> Seq<LogEvent> {
        self.logs@
    }

    /// Construction establishes this and every step keeps it: the input ends
    /// with an empty line and the cursor stays in bounds.
    pub closed spec fn wf(&self) -> bool {
        &&& self.lines().len() >= 1
        &&& self.lines().last().len() == 0
        &&& match self.curr_loc {
            Some(i) => i < self.lines().len(),
            None => true,
        }
    }

    /// A lexer as `new` hands it out, before any traversal.
    pub closed spec fn ready(&self) -> bool {
        &&& self.curr_loc == Some(0usize)
        &&& self.state == LexState::Counter
        &&& self.issues == 0
        &&& self.last_count == (0usize, 0usize)
    }

    /// The diagnostics recorded so far, for a logging sink to render.
    pub fn logs(&self) -> (r: &Vec<LogEvent>)
        ensures
            r@ == self.log_events(),
    {
        &self.logs
    }

    /// Create a new instance of the lexer.
    ///
    /// Fails exactly when the line sequence is empty. Otherwise the lines
    /// are normalized: a trailing blank line is re-added when missing (noted
    /// under verbosity), and a leading byte-order mark is stripped (noted
    /// under verbosity); the recorded notes are exactly
    /// [`normalize_events`].
    pub fn new(input: Vec<String>, verbose: bool, strict: bool) -> (r: Result<Self, LexError>)
        ensures
            match r {
                Ok(l) => {
                    &&& input@.len() > 0
                    &&& l.wf()
                    &&& l.ready()
                    &&& l.lines() == normalize_lines(input.deep_view())
                    &&& l.log_events() == normalize_events(input.deep_view(), verbose)
                    &&& l.is_strict() == strict
                    &&& l.is_verbose() == verbose
                },
                Err(e) => e == LexError::EmptyInput && input@.len() == 0,
            },
    {
        let mut input = input;
        let mut logs: Vec<LogEvent> = Vec::new();

        if input.len() == 0 {
            return Err(LexError::EmptyInput);
        }
        let ghost raw = input.deep_view();

        if !input[input.len() - 1].as_str().is_empty() {
            if verbose {
                logs.push(LogEvent::ExtraBlankLine);
            }
            input.push(String::new());
        }
        let ghost padded = input.deep_view();
        proof {
            if raw.last().len() > 0 {
                assert(padded =~~= raw.push(Seq::empty()));
            } else {
                assert(padded =~~= raw);
            }
        }

        let first_len = input[0].as_str().unicode_len();
        if first_len > 0 && input[0].as_str().get_char(0) == '\u{feff}' {
            let mut first = input.remove(0);
            remove_bom(&mut first);
            input.insert(0, first);
            if verbose {
                logs.push(LogEvent::BomDetected);
            }
            proof {
                assert(input.deep_view() =~~= padded.update(0, padded[0].drop_first()));
            }
        }
        proof {
            assert(input.deep_view() =~~= normalize_lines(raw));
            assert(logs@ =~= normalize_events(raw, verbose));
        }

        Ok(
            Self {
                curr_loc: Some(0),
                state: LexState::Counter,
                issues: 0,
                input,
                verbose,
                strict,
                last_count: (0, 0),
                logs,
            },
        )
    }

    /// Step the cursor forward, to absent once past the last line.
    fn advance(&mut self)
        requires
            old(self).loc() is Some,
            old(self).wf(),
        ensures
            final(self).loc() == if old(self).loc()->Some_0 + 1 < old(self).lines().len() {
                Some((old(self).loc()->Some_0 + 1) as usize)
            } else {
                None::<usize>
            },
            final(self).lines() == old(self).lines(),
            final(self).lex_state() == old(self).lex_state(),
            final(self).is_strict() == old(self).is_strict(),
            final(self).is_verbose() == old(self).is_verbose(),
            final(self).issue_count() == old(self).issue_count(),
            final(self).last() == old(self).last(),
            final(self).log_events() == old(self).log_events(),
            final(self).wf(),
    {
        let cur = match self.curr_loc {
            Some(c) => c,
            None => {
                proof {
                    assert(false);
                }
                0
            },
        };
        let n = self.input.len();
        if cur < n - 1 {
            self.curr_loc = Some(cur + 1);
        } else {
            self.curr_loc = None;
        }
    }

    /// Count one issue and record one padding warning when the four numeric
    /// fields deviate from the canonical `00:00:00,000` widths.
    fn check_time_digit_padding(&mut self, hh: &Vec<char>, mm: &Vec<char>, ss: &Vec<char>, ms: &Vec<char>)
        requires
            old(self).loc() is Some,
            old(self).wf(),
            old(self).issue_count() < usize::MAX,
        ensures
            final(self).issue_count() == old(self).issue_count() + (if hh@.len() == 2 && mm@.len()
                == 2 && ss@.len() == 2 && ms@.len() == 3 {
                0nat
            } else {
                1nat
            }),
            final(self).log_events() == old(self).log_events() + (if hh@.len() == 2 && mm@.len()
                == 2 && ss@.len() == 2 && ms@.len() == 3 {
                Seq::<LogEvent>::empty()
            } else {
                seq![LogEvent::PaddingIssue { line: old(self).line_no_spec() }]
            }),
            final(self).lines() == old(self).lines(),
            final(self).loc() == old(self).loc(),
            final(self).lex_state() == old(self).lex_state(),
            final(self).is_strict() == old(self).is_strict(),
            final(self).is_verbose() == old(self).is_verbose(),
            final(self).last() == old(self).last(),
            final(self).wf(),
    {
        let ghost logs0 = self.log_events();
        if !(hh.len() == 2 && mm.len() == 2 && ss.len() == 2 && ms.len() == 3) {
            let cl = match self.curr_loc {
                Some(c) => c,
                None => {
                    proof {
                        assert(false);
                    }
                    0
                },
            };
            let n = self.input.len();
            self.logs.push(LogEvent::PaddingIssue { line: cl + 1 });
            self.issues = self.issues + 1;
            proof {
                assert(self.log_events() =~= logs0 + seq![
                    LogEvent::PaddingIssue { line: old(self).line_no_spec() },
                ]);
            }
        } else {
            proof {
                assert(self.log_events() =~= logs0 + Seq::<LogEvent>::empty());
            }
        }
    }

    /// Decode one timestamp `HH:MM:SS,mmm` into milliseconds, exactly as
    /// [`spec_decode_time`] says, counting a padding issue and recording its
    /// warning under strictness.
    fn lex_time(&mut self, time: &Vec<char>) -> (r: Result<u64, LexError>)
        requires
            old(self).loc() is Some,
            old(self).wf(),
            old(self).issue_count() < usize::MAX,
        ensures
            r == spec_decode_time(time@, old(self).line_no_spec()),
            final(self).issue_count() == old(self).issue_count() + (if old(self).is_strict() {
                spec_ts_pad(time@, true)
            } else {
                0nat
            }),
            final(self).log_events() == old(self).log_events() + pad_events(
                time@,
                old(self).line_no_spec(),
                old(self).is_strict(),
            ),
            final(self).lines() == old(self).lines(),
            final(self).loc() == old(self).loc(),
            final(self).lex_state() == old(self).lex_state(),
            final(self).is_strict() == old(self).is_strict(),
            final(self).is_verbose() == old(self).is_verbose(),
            final(self).last() == old(self).last(),
            final(self).wf(),
    {
        let cl = match self.curr_loc {
            Some(c) => c,
            None => {
                proof {
                    assert(false);
                }
                0
            },
        };
        let n = self.input.len();
        let line_no = cl + 1;

        let mut colon: Vec<char> = Vec::new();
        colon.push(':');
        let dials = split_chars(time.as_slice(), colon.as_slice());
        proof {
            assert(colon@ =~= seq![':']);
        }
        if dials.len() != 3 {
            proof {
                assert(self.log_events() =~= old(self).log_events() + pad_events(
                    time@,
                    old(self).line_no_spec(),
                    old(self).is_strict(),
                ));
            }
            return Err(LexError::InvalidTimestampShape(line_no));
        }

        let mut comma: Vec<char> = Vec::new();
        comma.push(',');
        let subs = split_chars(dials[2].as_slice(), comma.as_slice());
        proof {
            assert(comma@ =~= seq![',']);
        }
        if subs.len() != 2 {
            proof {
                assert(ts_fields(time@) is None);
                assert(self.log_events() =~= old(self).log_events() + pad_events(
                    time@,
                    old(self).line_no_spec(),
                    old(self).is_strict(),
                ));
            }
            return Err(LexError::InvalidTimestampShape(line_no));
        }

        if self.strict {
            self.check_time_digit_padding(&dials[0], &dials[1], &subs[0], &subs[1]);
        }
        proof {
            assert(self.log_events() =~= old(self).log_events() + pad_events(
                time@,
                old(self).line_no_spec(),
                old(self).is_strict(),
            ));
        }

        match combine_time_fields(&dials[0], &dials[1], &subs[0], &subs[1]) {
            Some(v) => Ok(v),
            None => Err(LexError::InvalidTimestampNumber(line_no)),
        }
    }

    /// One traversal step in state `Counter`: parse the current line as a
    /// sequential counter, check continuity, emit `Count`, move to `Time`.
    fn step_counter(&mut self, tokens: &mut Vec<Token>) -> (r: Result<(), LexError>)
        requires
            old(self).wf(),
            old(self).loc() is Some,
            old(self).lex_state() == LexState::Counter,
            old(self).issue_count() <= old(self).loc()->Some_0,
        ensures
            final(self).wf(),
            final(self).lines() == old(self).lines(),
            final(self).is_strict() == old(self).is_strict(),
            ({
                let glines = old(self).lines();
                let pos0 = old(self).loc()->Some_0 as int;
                let pre = spec_lex_from(
                    glines,
                    pos0,
                    LexState::Counter,
                    old(self).last().0,
                    old(self).last().1,
                    old(self).issue_count(),
                    old(self).is_strict(),
                );
                match r {
                    Ok(()) => {
                        let posn = match final(self).loc() {
                            Some(i) => i as int,
                            None => glines.len() as int,
                        };
                        let cont = spec_lex_from(
                            glines,
                            posn,
                            final(self).lex_state(),
                            final(self).last().0,
                            final(self).last().1,
                            final(self).issue_count(),
                            old(self).is_strict(),
                        );
                        &&& old(tokens)@.len() <= final(tokens)@.len()
                        &&& final(tokens).deep_view().subrange(0, old(tokens)@.len() as int)
                            == old(tokens).deep_view()
                        &&& old(self).log_events().len() <= final(self).log_events().len()
                        &&& final(self).log_events().subrange(
                            0,
                            old(self).log_events().len() as int,
                        ) == old(self).log_events()
                        &&& pre == (match cont {
                            Ok(p) => Ok::<(Seq<TokenV>, nat, Seq<LogEvent>), LexError>(
                                (
                                    final(tokens).deep_view().skip(old(tokens)@.len() as int)
                                        + p.0,
                                    p.1,
                                    final(self).log_events().skip(
                                        old(self).log_events().len() as int,
                                    ) + p.2,
                                ),
                            ),
                            Err(e) => Err::<(Seq<TokenV>, nat, Seq<LogEvent>), LexError>(e),
                        })
                        &&& match final(self).loc() {
                            Some(i) => i < glines.len() && final(self).issue_count() <= i + (
                            if final(self).lex_state() is Sub {
                                1int
                            } else {
                                0int
                            }),
                            None => true,
                        }
                        &&& posn > pos0
                    },
                    Err(e) => pre == Err::<(Seq<TokenV>, nat, Seq<LogEvent>), LexError>(e),
                }
            }),
    {
        let cl = match self.curr_loc {
            Some(c) => c,
            None => {
                proof {
                    assert(false);
                }
                0
            },
        };
        let n = self.input.len();
        let ghost glines = self.lines();
        let ghost pos0 = cl as int;
        let ghost last0 = self.last().0;
        let ghost lastl0 = self.last().1;
        let ghost iss0 = self.issue_count();
        let ghost toks0 = tokens.deep_view();
        let ghost logs0 = self.log_events();
        let ghost ln: usize = (cl + 1) as usize;
        proof {
            assert(glines[pos0] == self.input@[pos0]@);
        }
        let cv = chars_vec(self.input[cl].as_str());
        match parse_usize_chars(cv.as_slice()) {
            Some(result) => {
                let is_cont = result >= 1 && result - 1 == self.last_count.0;
                if !is_cont {
                    self.issues = self.issues + 1;
                    self.logs.push(
                        LogEvent::CounterJump {
                            line: cl + 1,
                            last_value: self.last_count.0,
                            last_line: self.last_count.1,
                            value: result,
                        },
                    );
                }
                if self.strict && self.last_count.0 == 0 && self.last_count.1 == 0 && result != 1 {
                    self.logs.push(LogEvent::FirstCounterNotOne { line: cl + 1, value: result });
                }
                self.last_count = (result, cl + 1);
                tokens.push(Token::Count(result, cl + 1));
                self.state = LexState::Time;
                self.advance();
                proof {
                    let iss1: nat = if result == last0 + 1 {
                        iss0
                    } else {
                        (iss0 + 1) as nat
                    };
                    assert(parses_usize(glines[pos0]));
                    assert(dec_val(glines[pos0]) == result);
                    assert(self.issue_count() == iss1);
                    let cont1 = spec_lex_from(
                        glines,
                        pos0 + 1,
                        LexState::Time,
                        result,
                        ln,
                        iss1,
                        old(self).is_strict(),
                    );
                    assert(tokens.deep_view() =~~= toks0.push(TokenV::Count(result, ln)));
                    assert(tokens.deep_view().subrange(0, toks0.len() as int) =~~= toks0);
                    assert(tokens.deep_view().skip(toks0.len() as int) =~~= seq![
                        TokenV::Count(result, ln),
                    ]);
                    assert(self.log_events() =~= logs0 + counter_events(
                        result,
                        ln,
                        last0,
                        lastl0,
                        old(self).is_strict(),
                    ));
                    assert(self.log_events().subrange(0, logs0.len() as int) =~= logs0);
                    assert(self.log_events().skip(logs0.len() as int) =~= counter_events(
                        result,
                        ln,
                        last0,
                        lastl0,
                        old(self).is_strict(),
                    ));
                }
            },
            None => {
                proof {
                    assert(!parses_usize(glines[pos0]));
                }
                return Err(LexError::MalformedCounter(cl + 1));
            },
        }
        Ok(())
    }

    /// One traversal step in state `Time`: split the current line on the
    /// arrow, decode both timestamps, emit `StartTime` and `EndTime`, move
    /// to `Sub`.
    fn step_time(&mut self, tokens: &mut Vec<Token>) -> (r: Result<(), LexError>)
        requires
            old(self).wf(),
            old(self).loc() is Some,
            old(self).lex_state() == LexState::Time,
            old(self).issue_count() <= old(self).loc()->Some_0,
        ensures
            final(self).wf(),
            final(self).lines() == old(self).lines(),
            final(self).is_strict() == old(self).is_strict(),
            ({
                let glines = old(self).lines();
                let pos0 = old(self).loc()->Some_0 as int;
                let pre = spec_lex_from(
                    glines,
                    pos0,
                    LexState::Time,
                    old(self).last().0,
                    old(self).last().1,
                    old(self).issue_count(),
                    old(self).is_strict(),
                );
                match r {
                    Ok(()) => {
                        let posn = match final(self).loc() {
                            Some(i) => i as int,
                            None => glines.len() as int,
                        };
                        let cont = spec_lex_from(
                            glines,
                            posn,
                            final(self).lex_state(),
                            final(self).last().0,
                            final(self).last().1,
                            final(self).issue_count(),
                            old(self).is_strict(),
                        );
                        &&& old(tokens)@.len() <= final(tokens)@.len()
                        &&& final(tokens).deep_view().subrange(0, old(tokens)@.len() as int)
                            == old(tokens).deep_view()
                        &&& old(self).log_events().len() <= final(self).log_events().len()
                        &&& final(self).log_events().subrange(
                            0,
                            old(self).log_events().len() as int,
                        ) == old(self).log_events()
                        &&& pre == (match cont {
                            Ok(p) => Ok::<(Seq<TokenV>, nat, Seq<LogEvent>), LexError>(
                                (
                                    final(tokens).deep_view().skip(old(tokens)@.len() as int)
                                        + p.0,
                                    p.1,
                                    final(self).log_events().skip(
                                        old(self).log_events().len() as int,
                                    ) + p.2,
                                ),
                            ),
                            Err(e) => Err::<(Seq<TokenV>, nat, Seq<LogEvent>), LexError>(e),
                        })
                        &&& match final(self).loc() {
                            Some(i) => i < glines.len() && final(self).issue_count() <= i + (
                            if final(self).lex_state() is Sub {
                                1int
                            } else {
                                0int
                            }),
                            None => true,
                        }
                        &&& posn > pos0
                    },
                    Err(e) => pre == Err::<(Seq<TokenV>, nat, Seq<LogEvent>), LexError>(e),
                }
            }),
    {
        let cl = match self.curr_loc {
            Some(c) => c,
            None => {
                proof {
                    assert(false);
                }
                0
            },
        };
        let n = self.input.len();
        let ghost glines = self.lines();
        let ghost gstrict = self.is_strict();
        let ghost pos0 = cl as int;
        let ghost iss0 = self.issue_count();
        let ghost toks0 = tokens.deep_view();
        let ghost logs0 = self.log_events();
        let ghost ln: usize = (cl + 1) as usize;
        proof {
            assert(glines[pos0] == self.input@[pos0]@);
        }
        let cv = chars_vec(self.input[cl].as_str());
        let mut pat: Vec<char> = Vec::new();
        pat.push('-');
        pat.push('-');
        pat.push('>');
        let times = split_chars(cv.as_slice(), pat.as_slice());
        proof {
            assert(pat@ =~= arrow());
            assert(times.deep_view() == split_on(glines[pos0], arrow()));
        }
        if times.len() != 2 {
            return Err(LexError::MalformedTimeRange(cl + 1));
        }
        proof {
            // the line holds the separator, so it is not the (empty) last one
            if find_pat_from(glines[pos0], arrow(), 0) < 0 {
                assert(split_on(glines[pos0], arrow()).len() == 1);
            }
            crate::text::lemma_find_pat_bounds(glines[pos0], arrow(), 0);
            assert(glines[pos0].len() >= 3);
            assert(glines[glines.len() - 1].len() == 0);
            assert(pos0 < glines.len() - 1);
        }
        let t0 = trim_chars(times[0].as_slice());
        let t1 = trim_chars(times[1].as_slice());
        let ghost s0 = trim_spec(split_on(glines[pos0], arrow())[0]);
        let ghost s1 = trim_spec(split_on(glines[pos0], arrow())[1]);
        proof {
            assert(t0@ == s0);
            assert(t1@ == s1);
        }
        let begin = match self.lex_time(&t0) {
            Ok(v) => v,
            Err(e) => {
                return Err(e);
            },
        };
        let end = match self.lex_time(&t1) {
            Ok(v) => v,
            Err(e) => {
                return Err(e);
            },
        };
        tokens.push(Token::StartTime(begin, cl + 1));
        tokens.push(Token::EndTime(end, cl + 1));
        self.state = LexState::Sub;
        self.advance();
        proof {
            let iss1: nat = iss0 + spec_ts_pad(s0, gstrict) + spec_ts_pad(s1, gstrict);
            assert(spec_ts_pad(s0, gstrict) == if gstrict {
                spec_ts_pad(s0, true)
            } else {
                0nat
            });
            assert(spec_ts_pad(s1, gstrict) == if gstrict {
                spec_ts_pad(s1, true)
            } else {
                0nat
            });
            assert(self.issue_count() == iss1);
            assert(tokens.deep_view() =~~= toks0.push(TokenV::StartTime(begin, ln)).push(
                TokenV::EndTime(end, ln),
            ));
            assert(tokens.deep_view().subrange(0, toks0.len() as int) =~~= toks0);
            assert(tokens.deep_view().skip(toks0.len() as int) =~~= seq![
                TokenV::StartTime(begin, ln),
                TokenV::EndTime(end, ln),
            ]);
            assert(self.log_events() =~= logs0 + (pad_events(s0, ln, gstrict) + pad_events(
                s1,
                ln,
                gstrict,
            )));
            assert(self.log_events().subrange(0, logs0.len() as int) =~= logs0);
            assert(self.log_events().skip(logs0.len() as int) =~= pad_events(s0, ln, gstrict)
                + pad_events(s1, ln, gstrict));
        }
        Ok(())
    }

    /// One traversal step in state `Sub`: accumulate text lines up to and
    /// including the next empty line, emit one `Subtitle`, move to `Counter`.
    fn step_sub(&mut self, tokens: &mut Vec<Token>)
        requires
            old(self).wf(),
            old(self).loc() is Some,
            old(self).lex_state() == LexState::Sub,
            old(self).issue_count() <= old(self).loc()->Some_0 + 1,
        ensures
            final(self).wf(),
            final(self).lines() == old(self).lines(),
            final(self).is_strict() == old(self).is_strict(),
            ({
                let glines = old(self).lines();
                let pos0 = old(self).loc()->Some_0 as int;
                let pre = spec_lex_from(
                    glines,
                    pos0,
                    LexState::Sub,
                    old(self).last().0,
                    old(self).last().1,
                    old(self).issue_count(),
                    old(self).is_strict(),
                );
                let posn = match final(self).loc() {
                    Some(i) => i as int,
                    None => glines.len() as int,
                };
                let cont = spec_lex_from(
                    glines,
                    posn,
                    final(self).lex_state(),
                    final(self).last().0,
                    final(self).last().1,
                    final(self).issue_count(),
                    old(self).is_strict(),
                );
                &&& old(tokens)@.len() <= final(tokens)@.len()
                &&& final(tokens).deep_view().subrange(0, old(tokens)@.len() as int) == old(
                    tokens,
                ).deep_view()
                &&& final(self).log_events() == old(self).log_events()
                &&& pre == (match cont {
                    Ok(p) => Ok::<(Seq<TokenV>, nat, Seq<LogEvent>), LexError>(
                        (
                            final(tokens).deep_view().skip(old(tokens)@.len() as int) + p.0,
                            p.1,
                            p.2,
                        ),
                    ),
                    Err(e) => Err::<(Seq<TokenV>, nat, Seq<LogEvent>), LexError>(e),
                })
                &&& match final(self).loc() {
                    Some(i) => i < glines.len() && final(self).issue_count() <= i + (
                    if final(self).lex_state() is Sub {
                        1int
                    } else {
                        0int
                    }),
                    None => true,
                }
                &&& posn > pos0
            }),
    {
        let cl = match self.curr_loc {
            Some(c) => c,
            None => {
                proof {
                    assert(false);
                }
                0
            },
        };
        let n = self.input.len();
        let ghost glines = self.lines();
        let ghost start = cl as int;
        let ghost iss0 = self.issue_count();
        let ghost toks0 = tokens.deep_view();
        let ghost glast = self.last();
        let ghost glogs0 = self.log_events();
        let ghost ln: usize = (cl + 1) as usize;
        let mut text: Vec<String> = Vec::new();
        let mut done: bool = false;
        proof {
            assert(text.deep_view() =~~= glines.subrange(start, start));
        }
        while !done
            invariant
                self.wf(),
                self.lines() == glines,
                self.is_strict() == old(self).is_strict(),
                self.lex_state() == LexState::Sub,
                self.issue_count() == iss0,
                self.last() == glast,
                self.log_events() == glogs0,
                glines.len() <= usize::MAX,
                0 <= start < glines.len(),
                !done ==> (self.loc() is Some && start <= self.loc()->Some_0 < glines.len()
                    && text.deep_view() == glines.subrange(start, self.loc()->Some_0 as int) && (
                forall|k: int|
                    start <= k < self.loc()->Some_0 ==> #[trigger] glines[k].len() > 0)),
                done ==> ({
                    let j = first_empty_from(glines, start);
                    &&& j < glines.len()
                    &&& text.deep_view() == glines.subrange(start, j)
                    &&& self.loc() == (if j + 1 < glines.len() {
                        Some((j + 1) as usize)
                    } else {
                        None::<usize>
                    })
                }),
            decreases (if done {
                0int
            } else {
                glines.len() - self.loc()->Some_0
            }),
        {
            let c2 = match self.curr_loc {
                Some(c) => c,
                None => {
                    proof {
                        assert(false);
                    }
                    0
                },
            };
            let ghost textpre = text.deep_view();
            let line = self.input[c2].clone();
            proof {
                assert(line@ == glines[c2 as int]);
            }
            let was_empty = line.as_str().is_empty();
            self.advance();
            if was_empty {
                proof {
                    lemma_first_empty_at(glines, start, c2 as int);
                }
                done = true;
            } else {
                proof {
                    assert(glines[glines.len() - 1].len() == 0);
                    assert(glines[c2 as int].len() > 0);
                    assert(c2 as int != glines.len() - 1);
                    assert(self.loc() == Some((c2 + 1) as usize));
                }
                text.push(line);
                proof {
                    assert(text.deep_view() =~~= textpre.push(line@));
                    assert(text.deep_view() =~~= glines.subrange(start, c2 + 1));
                }
            }
        }
        tokens.push(Token::Subtitle((text, cl + 1)));
        self.state = LexState::Counter;
        proof {
            lemma_first_empty_bounds(glines, start);
            let j = first_empty_from(glines, start);
            assert(tokens.deep_view() =~~= toks0.push(
                TokenV::Subtitle(glines.subrange(start, j), ln),
            ));
            assert(tokens.deep_view().subrange(0, toks0.len() as int) =~~= toks0);
            assert(tokens.deep_view().skip(toks0.len() as int) =~~= seq![
                TokenV::Subtitle(glines.subrange(start, j), ln),
            ]);
        }
    }

    /// Generate tokens from a `.srt` file.
    ///
    /// Returns exactly what [`spec_lex`] says of the lexer's lines: the token
    /// stream (ending in `Eof`) and the count of non-fatal issues on success,
    /// or the first fatal error. On success the warnings the model dictates
    /// are appended to the recorded diagnostics.
    #[verifier::rlimit(100)]
    pub fn lex(&mut self) -> (r: Result<(Vec<Token>, usize), LexError>)
        requires
            old(self).wf(),
            old(self).ready(),
        ensures
            ({
                let sr = spec_lex(old(self).lines(), old(self).is_strict());
                match r {
                    Ok(p) => {
                        &&& sr is Ok
                        &&& p.0.deep_view() == sr->Ok_0.0
                        &&& p.1 as nat == sr->Ok_0.1
                        &&& final(self).log_events() == old(self).log_events() + sr->Ok_0.2
                    },
                    Err(e) => sr == Err::<(Seq<TokenV>, nat, Seq<LogEvent>), LexError>(e),
                }
            }),
    {
        let mut tokens: Vec<Token> = Vec::new();
        let ghost glines = self.lines();
        let ghost gstrict = self.is_strict();
        let ghost glogs = self.log_events();
        proof {
            assert(tokens.deep_view() =~~= Seq::<TokenV>::empty());
            assert(self.log_events().skip(glogs.len() as int) =~= Seq::<LogEvent>::empty());
            assert(self.log_events().subrange(0, glogs.len() as int) =~= glogs);
            if spec_lex(glines, gstrict) is Ok {
                assert(Seq::<TokenV>::empty() + spec_lex(glines, gstrict)->Ok_0.0 =~~= spec_lex(
                    glines,
                    gstrict,
                )->Ok_0.0);
                assert(Seq::<LogEvent>::empty() + spec_lex(glines, gstrict)->Ok_0.2 =~= spec_lex(
                    glines,
                    gstrict,
                )->Ok_0.2);
            }
        }
        #[verifier::loop_isolation(false)]
        loop
            invariant
                self.wf(),
                self.lines() == glines,
                self.is_strict() == gstrict,
                match self.loc() {
                    Some(i) => i < glines.len() && self.issue_count() <= i + (
                    if self.lex_state() is Sub {
                        1int
                    } else {
                        0int
                    }),
                    None => true,
                },
                glogs.len() <= self.log_events().len(),
                self.log_events().subrange(0, glogs.len() as int) == glogs,
                ({
                    let pos = match self.loc() {
                        Some(i) => i as int,
                        None => glines.len() as int,
                    };
                    let cont = spec_lex_from(
                        glines,
                        pos,
                        self.lex_state(),
                        self.last().0,
                        self.last().1,
                        self.issue_count(),
                        gstrict,
                    );
                    let full = spec_lex(glines, gstrict);
                    match cont {
                        Ok(p) => {
                            &&& full is Ok
                            &&& full->Ok_0.0 == tokens.deep_view() + p.0
                            &&& full->Ok_0.1 == p.1
                            &&& full->Ok_0.2 == self.log_events().skip(glogs.len() as int) + p.2
                        },
                        Err(e) => full == Err::<(Seq<TokenV>, nat, Seq<LogEvent>), LexError>(e),
                    }
                }),
            decreases (match self.loc() {
                Some(i) => glines.len() - i,
                None => 0int,
            }),
        {
            let in_bounds = match self.curr_loc {
                Some(_) => true,
                None => false,
            };
            if !in_bounds {
                break;
            }
            let ghost toks0 = tokens.deep_view();
            let ghost logsp = self.log_events();
            let step = match self.state {
                LexState::Counter => self.step_counter(&mut tokens),
                LexState::Time => self.step_time(&mut tokens),
                LexState::Sub => {
                    self.step_sub(&mut tokens);
                    Ok(())
                },
            };
            match step {
                Ok(()) => {
                    proof {
                        let emitted = tokens.deep_view().skip(toks0.len() as int);
                        assert(tokens.deep_view() =~~= toks0 + emitted);
                        let logsem = self.log_events().skip(logsp.len() as int);
                        assert(self.log_events() =~= logsp + logsem);
                        assert(self.log_events().subrange(0, glogs.len() as int) =~= glogs);
                        assert(self.log_events().skip(glogs.len() as int) =~= logsp.skip(
                            glogs.len() as int,
                        ) + logsem);
                        let pos = match self.loc() {
                            Some(i) => i as int,
                            None => glines.len() as int,
                        };
                        let cont = spec_lex_from(
                            glines,
                            pos,
                            self.lex_state(),
                            self.last().0,
                            self.last().1,
                            self.issue_count(),
                            gstrict,
                        );
                        if cont is Ok {
                            assert(toks0 + (emitted + cont->Ok_0.0) =~~= tokens.deep_view()
                                + cont->Ok_0.0);
                            assert(logsp.skip(glogs.len() as int) + (logsem + cont->Ok_0.2)
                                =~= self.log_events().skip(glogs.len() as int) + cont->Ok_0.2);
                        }
                    }
                },
                Err(e) => {
                    return Err(e);
                },
            }
        }
        let ghost toksf = tokens.deep_view();
        tokens.push(Token::Eof);
        let issues = self.issues;
        proof {
            let full = spec_lex(glines, gstrict);
            let pre = spec_lex_from(
                glines,
                glines.len() as int,
                self.lex_state(),
                self.last().0,
                self.last().1,
                self.issue_count(),
                gstrict,
            );
            assert(pre == Ok::<(Seq<TokenV>, nat, Seq<LogEvent>), LexError>(
                (seq![TokenV::Eof], self.issue_count(), seq![]),
            ));
            assert(tokens.deep_view() =~~= toksf.push(TokenV::Eof));
            assert(toksf + seq![TokenV::Eof] =~~= tokens.deep_view());
            assert(full->Ok_0.0 == tokens.deep_view());
            assert(self.log_events().skip(glogs.len() as int) + Seq::<LogEvent>::empty()
                =~= self.log_events().skip(glogs.len() as int));
            assert(self.log_events() =~= glogs + full->Ok_0.2);
        }
        Ok((tokens, issues))
    }
}

} // verus!
