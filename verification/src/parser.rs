//! The record builder: consumes the token stream and produces subtitle
//! records, a total text-line count, and a count of non-fatal issues found
//! while checking cross-line consistency and inline markup balance.
//!
//! The exact behaviour is given by [`spec_parse`], and [`Parser::parse`] is
//! proved to return exactly what the model says.
use vstd::prelude::*;

use crate::lexer::Token;
use crate::lexer::TokenV;
use crate::logging::LogEvent;
use crate::text::chars_vec;

verus! {

/// One parsed record/subtitle. Fields start unset and are filled as tokens
/// arrive; `start` and `end` are in milliseconds.
#[derive(Debug, Clone)]
pub struct Subtitle {
    pub id: Option<usize>,
    pub start: Option<u64>,
    pub end: Option<u64>,
    pub text: Option<Vec<String>>,
}

/// Mathematical value of a [`Subtitle`].
pub struct SubtitleV {
    pub id: Option<usize>,
    pub start: Option<u64>,
    pub end: Option<u64>,
    pub text: Option<Seq<Seq<char>>>,
}

impl View for Subtitle {
    type V = SubtitleV;

    open spec fn view(&self) -> SubtitleV {
        SubtitleV {
            id: self.id,
            start: self.start,
            end: self.end,
            text: match &self.text {
                Some(t) => Some(t.deep_view()),
                None => None,
            },
        }
    }
}

impl DeepView for Subtitle {
    type V = SubtitleV;

    open spec fn deep_view(&self) -> SubtitleV {
        self.view()
    }
}

impl Subtitle {
    /// Whether every field of the record has been set.
    pub fn is_complete(&self) -> (r: bool)
        ensures
            r == (self@.id is Some && self@.start is Some && self@.end is Some && self@.text
                is Some),
    {
        self.id.is_some() && self.start.is_some() && self.end.is_some() && self.text.is_some()
    }
}

/// A three-character opening tag `<i>`, `<b>` or `<u>` begins at `i`.
pub open spec fn open_tag_at(s: Seq<char>, i: int) -> bool {
    &&& 0 <= i && i + 3 <= s.len()
    &&& s[i] == '<'
    &&& (s[i + 1] == 'i' || s[i + 1] == 'b' || s[i + 1] == 'u')
    &&& s[i + 2] == '>'
}

/// A four-character closing tag `</i>`, `</b>` or `</u>` begins at `i`.
pub open spec fn close_tag_at(s: Seq<char>, i: int) -> bool {
    &&& 0 <= i && i + 4 <= s.len()
    &&& s[i] == '<'
    &&& s[i + 1] == '/'
    &&& (s[i + 2] == 'i' || s[i + 2] == 'b' || s[i + 2] == 'u')
    &&& s[i + 3] == '>'
}

/// The one-based line number `start + idx`, saturating at the largest
/// representable line.
pub open spec fn sat_line(start: usize, idx: int) -> usize {
    if start + idx > usize::MAX {
        usize::MAX
    } else {
        (start + idx) as usize
    }
}

/// The scan state of the markup checker: the lines of the tags still open
/// (a stack), the stray-closing-tag issues counted so far, and the warnings
/// recorded so far.
pub open spec fn scan_line_from(
    s: Seq<char>,
    i: int,
    ln: usize,
    st: (Seq<usize>, nat, Seq<LogEvent>),
) -> (Seq<usize>, nat, Seq<LogEvent>)
    decreases s.len() - i,
{
    if i < 0 || i >= s.len() {
        st
    } else if open_tag_at(s, i) {
        scan_line_from(s, i + 1, ln, (st.0.push(ln), st.1, st.2))
    } else if close_tag_at(s, i) {
        if st.0.len() == 0 {
            scan_line_from(
                s,
                i + 1,
                ln,
                (st.0, st.1 + 1, st.2.push(LogEvent::StrayClosingTag { line: ln })),
            )
        } else {
            scan_line_from(s, i + 1, ln, (st.0.drop_last(), st.1, st.2))
        }
    } else {
        scan_line_from(s, i + 1, ln, st)
    }
}

/// The scan state after the lines from index `k` on, each at its line
/// number relative to `start`.
pub open spec fn scan_lines_from(
    lines: Seq<Seq<char>>,
    k: int,
    start: usize,
    st: (Seq<usize>, nat, Seq<LogEvent>),
) -> (Seq<usize>, nat, Seq<LogEvent>)
    decreases lines.len() - k,
{
    if k < 0 || k >= lines.len() {
        st
    } else {
        scan_lines_from(lines, k + 1, start, scan_line_from(lines[k], 0, sat_line(start, k), st))
    }
}

/// The scan of one subtitle's text whose first line is line `start`.
pub open spec fn markup_scan(lines: Seq<Seq<char>>, start: usize) -> (
    Seq<usize>,
    nat,
    Seq<LogEvent>,
) {
    scan_lines_from(lines, 0, start, (Seq::<usize>::empty(), 0, Seq::<LogEvent>::empty()))
}

/// The markup issues of one subtitle's text: the stray-closing-tag issues
/// found while scanning, plus one when any tag is still open at the end.
pub open spec fn markup_issues(lines: Seq<Seq<char>>, start: usize) -> nat {
    let r = markup_scan(lines, start);
    if r.0.len() > 0 {
        r.1 + 1
    } else {
        r.1
    }
}

/// One unclosed-markup warning for each tag still open, in the order the
/// tags were opened.
pub open spec fn unclosed_events(stack: Seq<usize>) -> Seq<LogEvent> {
    Seq::new(stack.len(), |i: int| LogEvent::UnclosedMarkup { line: stack[i] })
}

/// The warnings of one subtitle's markup scan: each stray closing tag at
/// its point of encounter, then one unclosed-markup warning per open tag.
pub open spec fn markup_events(lines: Seq<Seq<char>>, start: usize) -> Seq<LogEvent> {
    let r = markup_scan(lines, start);
    r.2 + unclosed_events(r.0)
}

/// Scanning a line never lowers the issue count below its start.
pub proof fn lemma_scan_line_mono(s: Seq<char>, i: int, ln: usize, st: (Seq<usize>, nat, Seq<LogEvent>))
    ensures
        scan_line_from(s, i, ln, st).1 >= st.1,
    decreases s.len() - i,
{
    if !(i < 0 || i >= s.len()) {
        if open_tag_at(s, i) {
            lemma_scan_line_mono(s, i + 1, ln, (st.0.push(ln), st.1, st.2));
        } else if close_tag_at(s, i) {
            if st.0.len() == 0 {
                lemma_scan_line_mono(
                    s,
                    i + 1,
                    ln,
                    (st.0, st.1 + 1, st.2.push(LogEvent::StrayClosingTag { line: ln })),
                );
            } else {
                lemma_scan_line_mono(s, i + 1, ln, (st.0.drop_last(), st.1, st.2));
            }
        } else {
            lemma_scan_line_mono(s, i + 1, ln, st);
        }
    }
}

/// Scanning lines never lowers the issue count below its start.
pub proof fn lemma_scan_lines_mono(
    lines: Seq<Seq<char>>,
    k: int,
    start: usize,
    st: (Seq<usize>, nat, Seq<LogEvent>),
)
    ensures
        scan_lines_from(lines, k, start, st).1 >= st.1,
    decreases lines.len() - k,
{
    if !(k < 0 || k >= lines.len()) {
        let r = scan_line_from(lines[k], 0, sat_line(start, k), st);
        lemma_scan_line_mono(lines[k], 0, sat_line(start, k), st);
        lemma_scan_lines_mono(lines, k + 1, start, r);
    }
}

/// A record with every field unset.
pub open spec fn empty_subv() -> SubtitleV {
    SubtitleV { id: None, start: None, end: None, text: None }
}

/// The warning of the strict equal-timestamps check on one `EndTime` token:
/// emitted only when the block's id and start were set by earlier tokens
/// (on a stream that never set them there is nothing to report) and the
/// start equals the arriving end. It is informational: no issue is counted.
pub open spec fn equal_ts_events(buf: SubtitleV, ms: u64, line: usize, strict: bool) -> Seq<
    LogEvent,
> {
    if strict && buf.id is Some && buf.start is Some && buf.start->Some_0 == ms {
        seq![LogEvent::EqualTimestamps { id: buf.id->Some_0, line }]
    } else {
        seq![]
    }
}

/// The records, total text-line count, final issue count, and recorded
/// warnings of parsing the tokens from position `i`, with working buffer
/// `buf` and the accumulated `total` and `issues` so far. Traversal stops at
/// `Eof` or the stream's end; the buffer is sealed into the output on each
/// `Subtitle` token.
pub open spec fn spec_parse_from(
    toks: Seq<TokenV>,
    i: int,
    buf: SubtitleV,
    total: nat,
    issues: nat,
    strict: bool,
) -> (Seq<SubtitleV>, nat, nat, Seq<LogEvent>)
    decreases toks.len() - i,
{
    if i < 0 || i >= toks.len() {
        (seq![], total, issues, seq![])
    } else {
        match toks[i] {
            TokenV::Count(v, _) => spec_parse_from(
                toks,
                i + 1,
                SubtitleV { id: Some(v), start: buf.start, end: buf.end, text: buf.text },
                total,
                issues,
                strict,
            ),
            TokenV::StartTime(ms, _) => spec_parse_from(
                toks,
                i + 1,
                SubtitleV { id: buf.id, start: Some(ms), end: buf.end, text: buf.text },
                total,
                issues,
                strict,
            ),
            TokenV::EndTime(ms, line) => {
                let r = spec_parse_from(
                    toks,
                    i + 1,
                    SubtitleV { id: buf.id, start: buf.start, end: Some(ms), text: buf.text },
                    total,
                    issues,
                    strict,
                );
                (r.0, r.1, r.2, equal_ts_events(buf, ms, line, strict) + r.3)
            },
            TokenV::Subtitle(text, line) => {
                let iss2 = issues + (if strict {
                    markup_issues(text, line)
                } else {
                    0nat
                });
                let mev = if strict {
                    markup_events(text, line)
                } else {
                    seq![]
                };
                let sealed = SubtitleV {
                    id: buf.id,
                    start: buf.start,
                    end: buf.end,
                    text: Some(text),
                };
                let r = spec_parse_from(
                    toks,
                    i + 1,
                    empty_subv(),
                    total + text.len(),
                    iss2,
                    strict,
                );
                (seq![sealed] + r.0, r.1, r.2, mev + r.3)
            },
            TokenV::Eof => (seq![], total, issues, seq![]),
        }
    }
}

/// Parsing a whole token stream: from the first token with an all-unset
/// buffer and zero accumulated lines and issues.
pub open spec fn spec_parse(toks: Seq<TokenV>, strict: bool) -> (
    Seq<SubtitleV>,
    nat,
    nat,
    Seq<LogEvent>,
) {
    spec_parse_from(toks, 0, empty_subv(), 0, 0, strict)
}

/// Parsing never lowers the line total or the issue count below their
/// starting values.
pub proof fn lemma_spec_parse_mono(
    toks: Seq<TokenV>,
    i: int,
    buf: SubtitleV,
    total: nat,
    issues: nat,
    strict: bool,
)
    ensures
        spec_parse_from(toks, i, buf, total, issues, strict).1 >= total,
        spec_parse_from(toks, i, buf, total, issues, strict).2 >= issues,
    decreases toks.len() - i,
{
    if !(i < 0 || i >= toks.len()) {
        match toks[i] {
            TokenV::Count(v, _) => {
                lemma_spec_parse_mono(
                    toks,
                    i + 1,
                    SubtitleV { id: Some(v), start: buf.start, end: buf.end, text: buf.text },
                    total,
                    issues,
                    strict,
                );
            },
            TokenV::StartTime(ms, _) => {
                lemma_spec_parse_mono(
                    toks,
                    i + 1,
                    SubtitleV { id: buf.id, start: Some(ms), end: buf.end, text: buf.text },
                    total,
                    issues,
                    strict,
                );
            },
            TokenV::EndTime(ms, _) => {
                lemma_spec_parse_mono(
                    toks,
                    i + 1,
                    SubtitleV { id: buf.id, start: buf.start, end: Some(ms), text: buf.text },
                    total,
                    issues,
                    strict,
                );
            },
            TokenV::Subtitle(text, line) => {
                let iss2 = issues + (if strict {
                    markup_issues(text, line)
                } else {
                    0nat
                });
                lemma_spec_parse_mono(toks, i + 1, empty_subv(), total + text.len(), iss2, strict);
            },
            TokenV::Eof => {
            },
        }
    }
}

/// Environment for parsing tokens generated earlier into structured data.
pub struct Parser {
    input: Vec<Token>,
    curr_loc: Option<usize>,
    strict: bool,
    issues: usize,
    logs: Vec<LogEvent>,
}

impl Parser {
    /// The tokens the parser traverses.
    pub closed spec fn toks(&self) -> Seq<TokenV> {
        self.input.deep_view()
    }

    /// The current position, absent once past the end.
    pub closed spec fn loc(&self) -> Option<usize> {
        self.curr_loc
    }

    /// The strictness flag given at construction.
    pub closed spec fn is_strict(&self) -> bool {
        self.strict
    }

    /// Non-fatal issues found so far.
    pub closed spec fn issue_count(&self) -> nat {
        self.issues as nat
    }

    /// The diagnostics recorded so far.
    pub closed spec fn log_events(&self) -> Seq<LogEvent> {
        self.logs@
    }

    /// A parser as `new` hands it out, before any traversal.
    pub closed spec fn ready(&self) -> bool {
        &&& self.curr_loc == Some(0usize)
        &&& self.issues == 0
    }

    /// The diagnostics recorded so far, for a logging sink to render.
    pub fn logs(&self) -> (r: &Vec<LogEvent>)
        ensures
            r@ == self.log_events(),
    {
        &self.logs
    }

    /// Create a new instance of the parser.
    pub fn new(input: Vec<Token>, strict: bool) -> (r: Self)
        ensures
            r.ready(),
            r.toks() == input.deep_view(),
            r.is_strict() == strict,
            r.issue_count() == 0,
            r.log_events() == Seq::<LogEvent>::empty(),
    {
        Self { curr_loc: Some(0), input, strict, issues: 0, logs: Vec::new() }
    }

    /// Step the cursor forward, to absent once past the last token.
    fn advance(&mut self)
        requires
            old(self).loc() is Some,
            old(self).loc()->Some_0 < old(self).toks().len(),
        ensures
            final(self).loc() == if old(self).loc()->Some_0 + 1 < old(self).toks().len() {
                Some((old(self).loc()->Some_0 + 1) as usize)
            } else {
                None::<usize>
            },
            final(self).toks() == old(self).toks(),
            final(self).is_strict() == old(self).is_strict(),
            final(self).issue_count() == old(self).issue_count(),
            final(self).log_events() == old(self).log_events(),
    {
        let cur = match self.curr_loc {
            Some(c) => c,
            None => {
                proof {
                    assert(false);
                }
                0
            },
        };
        let n = self.input.len();
        if cur < n - 1 {
            self.curr_loc = Some(cur + 1);
        } else {
            self.curr_loc = None;
        }
    }

    /// Check inline markup balance across one subtitle's text lines, adding
    /// exactly the issues [`markup_issues`] counts and recording exactly the
    /// warnings [`markup_events`] dictates: a stray-closing-tag warning at
    /// each point of encounter and one unclosed-markup warning per tag left
    /// open. `input.1` is the line the block's text began on.
    fn check_markup_validity(&mut self, input: (Vec<String>, usize))
        requires
            old(self).issue_count() + markup_issues(input.0.deep_view(), input.1) <= usize::MAX,
        ensures
            final(self).issue_count() == old(self).issue_count() + markup_issues(
                input.0.deep_view(),
                input.1,
            ),
            final(self).log_events() == old(self).log_events() + markup_events(
                input.0.deep_view(),
                input.1,
            ),
            final(self).toks() == old(self).toks(),
            final(self).loc() == old(self).loc(),
            final(self).is_strict() == old(self).is_strict(),
    {
        let lines = input.0;
        let start_line = input.1;
        let ghost glines = lines.deep_view();
        let ghost iss0 = self.issue_count();
        let ghost logs0 = self.log_events();
        let ghost full = markup_scan(glines, start_line);
        let mut open: Vec<usize> = Vec::new();
        let mut k: usize = 0;
        proof {
            assert(self.log_events().skip(logs0.len() as int) =~= Seq::<LogEvent>::empty());
        }
        #[verifier::loop_isolation(false)]
        while k < lines.len()
            invariant
                0 <= k <= lines@.len(),
                self.toks() == old(self).toks(),
                self.loc() == old(self).loc(),
                self.is_strict() == old(self).is_strict(),
                self.issue_count() >= iss0,
                logs0.is_prefix_of(self.log_events()),
                scan_lines_from(
                    glines,
                    k as int,
                    start_line,
                    (
                        open@,
                        (self.issue_count() - iss0) as nat,
                        self.log_events().skip(logs0.len() as int),
                    ),
                ) == full,
            decreases lines@.len() - k,
        {
            let chars = chars_vec(lines[k].as_str());
            let ghost gline = glines[k as int];
            let ghost lnk = sat_line(start_line, k as int);
            proof {
                assert(chars@ == gline);
            }
            let mut i: usize = 0;
            #[verifier::loop_isolation(false)]
            while i < chars.len()
                invariant
                    0 <= i <= chars@.len(),
                    k < lines@.len(),
                    self.toks() == old(self).toks(),
                    self.loc() == old(self).loc(),
                    self.is_strict() == old(self).is_strict(),
                    self.issue_count() >= iss0,
                    logs0.is_prefix_of(self.log_events()),
                    scan_lines_from(
                        glines,
                        k + 1,
                        start_line,
                        scan_line_from(
                            gline,
                            i as int,
                            lnk,
                            (
                                open@,
                                (self.issue_count() - iss0) as nat,
                                self.log_events().skip(logs0.len() as int),
                            ),
                        ),
                    ) == full,
                decreases chars@.len() - i,
            {
                let is_open = chars.len() >= 3 && i <= chars.len() - 3 && chars[i] == '<' && (
                chars[i + 1] == 'i' || chars[i + 1] == 'b' || chars[i + 1] == 'u') && chars[i + 2]
                    == '>';
                let is_close = !is_open && chars.len() >= 4 && i <= chars.len() - 4 && chars[i]
                    == '<' && chars[i + 1] == '/' && (chars[i + 2] == 'i' || chars[i + 2] == 'b'
                    || chars[i + 2] == 'u') && chars[i + 3] == '>';
                let ln = if k <= usize::MAX - start_line {
                    start_line + k
                } else {
                    usize::MAX
                };
                proof {
                    assert(ln == lnk);
                }
                if is_open {
                    proof {
                        assert(open_tag_at(gline, i as int));
                    }
                    open.push(ln);
                } else if is_close {
                    proof {
                        assert(!open_tag_at(gline, i as int));
                        assert(close_tag_at(gline, i as int));
                    }
                    if open.len() == 0 {
                        proof {
                            let delta = (self.issue_count() - iss0) as nat;
                            let ev = self.log_events().skip(logs0.len() as int);
                            let st2 = (open@, (delta + 1) as nat, ev.push(
                                LogEvent::StrayClosingTag { line: lnk },
                            ));
                            lemma_scan_line_mono(gline, i + 1, lnk, st2);
                            let r2 = scan_line_from(gline, i + 1, lnk, st2);
                            lemma_scan_lines_mono(glines, k + 1, start_line, r2);
                        }
                        let ghost evpre = self.log_events().skip(logs0.len() as int);
                        self.logs.push(LogEvent::StrayClosingTag { line: ln });
                        self.issues = self.issues + 1;
                        proof {
                            assert(self.log_events().skip(logs0.len() as int) =~= evpre.push(
                                LogEvent::StrayClosingTag { line: lnk },
                            ));
                        }
                    } else {
                        let popped = open.pop();
                    }
                } else {
                    proof {
                        assert(!open_tag_at(gline, i as int));
                        assert(!close_tag_at(gline, i as int));
                    }
                }
                i = i + 1;
            }
            k = k + 1;
        }
        proof {
            assert((
                open@,
                (self.issue_count() - iss0) as nat,
                self.log_events().skip(logs0.len() as int),
            ) == full);
        }
        if open.len() > 0 {
            proof {
                assert(markup_issues(glines, start_line) == full.1 + 1);
            }
            self.issues = self.issues + 1;
            let mut j: usize = 0;
            let ghost issf = self.issue_count();
            let ghost logsm = self.log_events();
            while j < open.len()
                invariant
                    0 <= j <= open@.len(),
                    self.toks() == old(self).toks(),
                    self.loc() == old(self).loc(),
                    self.is_strict() == old(self).is_strict(),
                    self.issue_count() == issf,
                    self.log_events() == logsm + unclosed_events(open@).subrange(0, j as int),
                decreases open@.len() - j,
            {
                let ln = open[j];
                self.logs.push(LogEvent::UnclosedMarkup { line: ln });
                proof {
                    assert(self.log_events() =~= logsm + unclosed_events(open@).subrange(
                        0,
                        j + 1,
                    ));
                }
                j = j + 1;
            }
            proof {
                assert(unclosed_events(open@).subrange(0, open@.len() as int) =~= unclosed_events(
                    open@,
                ));
                assert(self.log_events() =~= logs0 + markup_events(glines, start_line));
            }
        } else {
            proof {
                assert(unclosed_events(open@) =~= Seq::<LogEvent>::empty());
                assert(self.log_events() =~= logs0 + markup_events(glines, start_line));
            }
        }
    }

    /// Parse the tokens and produce a structured list of all
    /// records/subtitles, the total count of text lines read, and the count
    /// of non-fatal issues, exactly as [`spec_parse`] says; the warnings it
    /// dictates are appended to the recorded diagnostics, and the tokens and
    /// the strictness flag are left untouched.
    ///
    /// The token stream must be non-empty (the lexer always ends one with
    /// `Eof`), and the modelled totals must fit the machine's word size.
    pub fn parse(&mut self) -> (r: (Vec<Subtitle>, usize, usize))
        requires
            old(self).ready(),
            old(self).toks().len() >= 1,
            spec_parse(old(self).toks(), old(self).is_strict()).1 <= usize::MAX,
            spec_parse(old(self).toks(), old(self).is_strict()).2 <= usize::MAX,
        ensures
            ({
                let sp = spec_parse(old(self).toks(), old(self).is_strict());
                &&& r.0.deep_view() == sp.0
                &&& r.1 as nat == sp.1
                &&& r.2 as nat == sp.2
                &&& final(self).log_events() == old(self).log_events() + sp.3
            }),
            final(self).toks() == old(self).toks(),
            final(self).is_strict() == old(self).is_strict(),
    {
        let mut subtitles: Vec<Subtitle> = Vec::new();
        let mut total_lines: usize = 0;
        let mut sub_buf: Subtitle = Subtitle { id: None, start: None, end: None, text: None };
        let ghost gtoks = self.toks();
        let ghost gstrict = self.is_strict();
        let ghost glogs = self.log_events();
        let ghost full = spec_parse(gtoks, gstrict);
        proof {
            assert(sub_buf@ == empty_subv());
            assert(subtitles.deep_view() =~= Seq::<SubtitleV>::empty());
            assert(Seq::<SubtitleV>::empty() + full.0 =~~= full.0);
            assert(self.log_events().skip(glogs.len() as int) =~= Seq::<LogEvent>::empty());
            assert(self.log_events().subrange(0, glogs.len() as int) =~= glogs);
            assert(Seq::<LogEvent>::empty() + full.3 =~= full.3);
        }
        #[verifier::loop_isolation(false)]
        loop
            invariant
                self.toks() == gtoks,
                self.is_strict() == gstrict,
                match self.loc() {
                    Some(i) => i < gtoks.len(),
                    None => true,
                },
                glogs.len() <= self.log_events().len(),
                self.log_events().subrange(0, glogs.len() as int) == glogs,
                ({
                    let pos = match self.loc() {
                        Some(i) => i as int,
                        None => gtoks.len() as int,
                    };
                    let cont = spec_parse_from(
                        gtoks,
                        pos,
                        sub_buf@,
                        total_lines as nat,
                        self.issue_count(),
                        gstrict,
                    );
                    full == (
                        subtitles.deep_view() + cont.0,
                        cont.1,
                        cont.2,
                        self.log_events().skip(glogs.len() as int) + cont.3,
                    )
                }),
            decreases (match self.loc() {
                Some(i) => gtoks.len() - i,
                None => 0int,
            }),
        {
            let cl = match self.curr_loc {
                Some(c) => c,
                None => {
                    break ;
                },
            };
            let n = self.input.len();
            let ghost pos0 = cl as int;
            let ghost buf0 = sub_buf@;
            let ghost subs0 = subtitles.deep_view();
            let ghost total0 = total_lines as nat;
            let ghost iss0 = self.issue_count();
            proof {
                assert(gtoks[pos0] == self.input@[pos0].deep_view());
            }
            match &self.input[cl] {
                Token::Count(num, _) => {
                    let v = *num;
                    sub_buf.id = Some(v);
                    self.advance();
                    proof {
                        assert(sub_buf@ == SubtitleV {
                            id: Some(v),
                            start: buf0.start,
                            end: buf0.end,
                            text: buf0.text,
                        });
                        assert(spec_parse_from(gtoks, pos0, buf0, total0, iss0, gstrict)
                            == spec_parse_from(gtoks, pos0 + 1, sub_buf@, total0, iss0, gstrict));
                    }
                },
                Token::StartTime(ms, _) => {
                    let m = *ms;
                    sub_buf.start = Some(m);
                    self.advance();
                    proof {
                        assert(sub_buf@ == SubtitleV {
                            id: buf0.id,
                            start: Some(m),
                            end: buf0.end,
                            text: buf0.text,
                        });
                        assert(spec_parse_from(gtoks, pos0, buf0, total0, iss0, gstrict)
                            == spec_parse_from(gtoks, pos0 + 1, sub_buf@, total0, iss0, gstrict));
                    }
                },
                Token::EndTime(ms, line) => {
                    let m = *ms;
                    let lno = *line;
                    let ghost ev0 = self.log_events().skip(glogs.len() as int);
                    // the equal-timestamps note needs the id and start that
                    // earlier tokens of a well-shaped block set; on a stream
                    // that never set them there is nothing to report
                    if self.strict {
                        match (sub_buf.id, sub_buf.start) {
                            (Some(idv), Some(st)) => {
                                if st == m {
                                    self.logs.push(
                                        LogEvent::EqualTimestamps { id: idv, line: lno },
                                    );
                                }
                            },
                            _ => {
                            },
                        }
                    }
                    sub_buf.end = Some(m);
                    self.advance();
                    proof {
                        assert(sub_buf@ == SubtitleV {
                            id: buf0.id,
                            start: buf0.start,
                            end: Some(m),
                            text: buf0.text,
                        });
                        assert(self.log_events().subrange(0, glogs.len() as int) =~= glogs);
                        assert(self.log_events().skip(glogs.len() as int) =~= ev0
                            + equal_ts_events(buf0, m, lno, gstrict));
                        let cont1 = spec_parse_from(
                            gtoks,
                            pos0 + 1,
                            sub_buf@,
                            total0,
                            iss0,
                            gstrict,
                        );
                        assert((ev0 + equal_ts_events(buf0, m, lno, gstrict)) + cont1.3 =~= ev0
                            + (equal_ts_events(buf0, m, lno, gstrict) + cont1.3));
                    }
                },
                Token::Subtitle(t) => {
                    let tlines: Vec<String> = t.0.clone();
                    let tline: usize = t.1;
                    let ghost gtext = gtoks[pos0]->Subtitle_0;
                    let ghost ev0 = self.log_events().skip(glogs.len() as int);
                    proof {
                        assert(tlines.deep_view() =~= gtext);
                        let iss2: nat = self.issue_count() + (if gstrict {
                            markup_issues(gtext, tline)
                        } else {
                            0nat
                        });
                        lemma_spec_parse_mono(
                            gtoks,
                            pos0 + 1,
                            empty_subv(),
                            (total_lines + gtext.len()) as nat,
                            iss2,
                            gstrict,
                        );
                    }
                    let tlen = tlines.len();
                    total_lines = total_lines + tlen;
                    sub_buf.text = Some(tlines.clone());
                    if self.strict {
                        self.check_markup_validity((tlines, tline));
                    }
                    subtitles.push(sub_buf);
                    sub_buf = Subtitle { id: None, start: None, end: None, text: None };
                    self.advance();
                    proof {
                        let sealed = SubtitleV {
                            id: buf0.id,
                            start: buf0.start,
                            end: buf0.end,
                            text: Some(gtext),
                        };
                        assert(subtitles@.last()@ == sealed);
                        assert(subtitles.deep_view() =~~= subs0.push(sealed));
                        assert(sub_buf@ == empty_subv());
                        let mev: Seq<LogEvent> = if gstrict {
                            markup_events(gtext, tline)
                        } else {
                            Seq::<LogEvent>::empty()
                        };
                        assert(self.log_events().subrange(0, glogs.len() as int) =~= glogs);
                        assert(self.log_events().skip(glogs.len() as int) =~= ev0 + mev);
                        let cont1 = spec_parse_from(
                            gtoks,
                            pos0 + 1,
                            empty_subv(),
                            total_lines as nat,
                            self.issue_count(),
                            gstrict,
                        );
                        assert(subs0 + (seq![sealed] + cont1.0) =~~= subtitles.deep_view()
                            + cont1.0);
                        assert((ev0 + mev) + cont1.3 =~= ev0 + (mev + cont1.3));
                    }
                },
                Token::Eof => {
                    proof {
                        assert(subtitles.deep_view() + Seq::<SubtitleV>::empty()
                            =~~= subtitles.deep_view());
                        assert(self.log_events().skip(glogs.len() as int)
                            + Seq::<LogEvent>::empty() =~= self.log_events().skip(
                            glogs.len() as int,
                        ));
                        assert(self.log_events() =~= glogs + full.3);
                    }
                    return (subtitles, total_lines, self.issues);
                },
            }
        }
        proof {
            assert(subtitles.deep_view() + Seq::<SubtitleV>::empty() =~~= subtitles.deep_view());
            assert(self.log_events().skip(glogs.len() as int) + Seq::<LogEvent>::empty()
                =~= self.log_events().skip(glogs.len() as int));
            assert(self.log_events() =~= glogs + full.3);
        }
        (subtitles, total_lines, self.issues)
    }
}

} // verus!
