//! Presentation helpers for a viewer: humanized start times, one flattened
//! display line per subtitle text line, and a scroll-position model.
use vstd::prelude::*;

use crate::parser::Subtitle;
use crate::parser::SubtitleV;
use vstd::string::StringExecFns;

verus! {

/// The character for one decimal digit.
pub open spec fn digit_char(d: int) -> char {
    if d == 0 {
        '0'
    } else if d == 1 {
        '1'
    } else if d == 2 {
        '2'
    } else if d == 3 {
        '3'
    } else if d == 4 {
        '4'
    } else if d == 5 {
        '5'
    } else if d == 6 {
        '6'
    } else if d == 7 {
        '7'
    } else if d == 8 {
        '8'
    } else {
        '9'
    }
}

/// A value below 100 as two zero-padded decimal digits.
pub open spec fn two_digits(n: int) -> Seq<char> {
    seq![digit_char(n / 10), digit_char(n % 10)]
}

/// A duration in seconds as `HH:MM:SS`, the hours wrapped at one day.
pub open spec fn humanize_spec(secs: u64) -> Seq<char> {
    let h = ((secs as int) % 86400) / 3600;
    let m = ((secs as int) % 3600) / 60;
    let s = (secs as int) % 60;
    two_digits(h) + seq![':'] + two_digits(m) + seq![':'] + two_digits(s)
}

/// One decimal digit as a string slice.
fn digit_str(d: u64) -> (r: &'static str)
    requires
        d < 10,
    ensures
        r@ == seq![digit_char(d as int)],
{
    proof {
        reveal_strlit("0");
        reveal_strlit("1");
        reveal_strlit("2");
        reveal_strlit("3");
        reveal_strlit("4");
        reveal_strlit("5");
        reveal_strlit("6");
        reveal_strlit("7");
        reveal_strlit("8");
        reveal_strlit("9");
    }
    match d {
        0 => "0",
        1 => "1",
        2 => "2",
        3 => "3",
        4 => "4",
        5 => "5",
        6 => "6",
        7 => "7",
        8 => "8",
        _ => "9",
    }
}

/// A duration in seconds as `HH:MM:SS`.
pub fn humanize(secs: u64) -> (r: String)
    ensures
        r@ == humanize_spec(secs),
{
    let hours = (secs % 86400) / 3600;
    let minutes = (secs % 3600) / 60;
    let seconds = secs % 60;
    let mut out = String::new();
    out.append(digit_str(hours / 10));
    out.append(digit_str(hours % 10));
    out.append(":");
    out.append(digit_str(minutes / 10));
    out.append(digit_str(minutes % 10));
    out.append(":");
    out.append(digit_str(seconds / 10));
    out.append(digit_str(seconds % 10));
    proof {
        reveal_strlit(":");
        assert(out@ =~= humanize_spec(secs));
    }
    out
}

/// One display line: the humanized start time, two spaces, the text line.
pub open spec fn render_line(start_ms: u64, line: Seq<char>) -> Seq<char> {
    humanize_spec((start_ms / 1000) as u64) + seq![' ', ' '] + line
}

/// The display lines of one subtitle: one per text line, or none when the
/// record carries no text.
pub open spec fn render_sub(s: SubtitleV) -> Seq<Seq<char>> {
    match s.text {
        Some(t) => Seq::new(t.len(), |i: int| render_line(s.start->Some_0, t[i])),
        None => seq![],
    }
}

/// All display lines of a list of subtitles, in order.
pub open spec fn flatten_spec(subs: Seq<SubtitleV>) -> Seq<Seq<char>>
    decreases subs.len(),
{
    if subs.len() == 0 {
        seq![]
    } else {
        render_sub(subs[0]) + flatten_spec(subs.drop_first())
    }
}

proof fn lemma_flatten_skip(subs: Seq<SubtitleV>, k: int)
    requires
        0 <= k < subs.len(),
    ensures
        flatten_spec(subs.skip(k)) == render_sub(subs[k]) + flatten_spec(subs.skip(k + 1)),
{
    let t = subs.skip(k);
    assert(t.len() > 0);
    assert(t[0] == subs[k]);
    assert(t.drop_first() =~= subs.skip(k + 1));
}

/// Turn subtitles into display lines, one per text line, each prefixed with
/// the humanized start time. Every record must carry a start time.
#[verifier::rlimit(60)]
pub fn flatten(nested: Vec<Subtitle>) -> (r: Vec<String>)
    requires
        forall|i: int|
            0 <= i < nested@.len() ==> (#[trigger] nested.deep_view()[i]).start is Some,
    ensures
        r.deep_view() == flatten_spec(nested.deep_view()),
{
    let ghost gsubs = nested.deep_view();
    let mut out: Vec<String> = Vec::new();
    let mut k: usize = 0;
    proof {
        assert(gsubs.skip(0) =~= gsubs);
        assert(out.deep_view() + flatten_spec(gsubs.skip(0)) =~~= flatten_spec(gsubs));
    }
    #[verifier::loop_isolation(false)]
    while k < nested.len()
        invariant
            0 <= k <= nested@.len(),
            flatten_spec(gsubs) == out.deep_view() + flatten_spec(gsubs.skip(k as int)),
        decreases nested@.len() - k,
    {
        let sub = &nested[k];
        let ghost out0 = out.deep_view();
        proof {
            lemma_flatten_skip(gsubs, k as int);
        }
        match &sub.text {
            Some(t) => {
                let ms = match sub.start {
                    Some(m) => m,
                    None => {
                        proof {
                            assert(false);
                        }
                        0
                    },
                };
                let tm = humanize(ms / 1000);
                let ghost head = render_sub(gsubs[k as int]);
                let mut j: usize = 0;
                proof {
                    assert(head.subrange(0, 0) =~= Seq::<Seq<char>>::empty());
                    assert(out.deep_view() =~~= out0 + head.subrange(0, 0));
                }
                while j < t.len()
                    invariant
                        0 <= j <= t@.len(),
                        head.len() == t@.len(),
                        out.deep_view() == out0 + head.subrange(0, j as int),
                        forall|i: int| 0 <= i < head.len() ==> head[i] == render_line(ms, t@[i]@),
                        tm@ == humanize_spec(ms / 1000),
                    decreases t@.len() - j,
                {
                    let mut line_out = tm.clone();
                    line_out.append("  ");
                    line_out.append(t[j].as_str());
                    proof {
                        reveal_strlit("  ");
                        assert(line_out@ =~= render_line(ms, t@[j as int]@));
                    }
                    proof {
                        assert(head[j as int] == render_line(ms, t@[j as int]@));
                    }
                    let ghost outpre = out.deep_view();
                    let ghost lv = line_out@;
                    out.push(line_out);
                    proof {
                        assert(out.deep_view().len() == outpre.len() + 1);
                        assert(forall|i: int|
                            0 <= i < outpre.len() ==> out.deep_view()[i] == #[trigger] outpre[i]);
                        assert(out.deep_view()[outpre.len() as int] == lv);
                        let rhs = out0 + head.subrange(0, j + 1);
                        assert(rhs.len() == outpre.len() + 1);
                        assert forall|i: int|
                            0 <= i < out.deep_view().len() implies out.deep_view()[i] == rhs[i] by {
                            if i < out0.len() {
                                assert(outpre[i] == out0[i]);
                                assert(rhs[i] == out0[i]);
                            } else if i < outpre.len() {
                                assert(outpre[i] == head.subrange(0, j as int)[i - out0.len()]);
                                assert(rhs[i] == head.subrange(0, j + 1)[i - out0.len()]);
                            } else {
                                assert(rhs[i] == head.subrange(0, j + 1)[j as int]);
                            }
                        }
                        assert(out.deep_view() =~= rhs);
                    }
                    j = j + 1;
                }
                proof {
                    assert(head.subrange(0, head.len() as int) =~= head);
                    assert(out.deep_view() =~~= (out0 + head));
                }
            },
            None => {
                proof {
                    assert(render_sub(gsubs[k as int]) =~= Seq::<Seq<char>>::empty());
                    assert(out.deep_view() =~~= out0 + render_sub(gsubs[k as int]));
                }
            },
        }
        k = k + 1;
        proof {
            assert(out.deep_view() + flatten_spec(gsubs.skip(k as int)) =~~= flatten_spec(gsubs));
        }
    }
    proof {
        assert(gsubs.skip(nested@.len() as int) =~= Seq::<SubtitleV>::empty());
        assert(out.deep_view() + flatten_spec(gsubs.skip(nested@.len() as int))
            =~~= out.deep_view());
    }
    out
}

/// A viewer's scroll position over a fixed number of display lines.
pub struct Pager {
    pub scroll_pos: usize,
    pub max: usize,
}

impl Pager {
    /// A pager at the top of `lines` display lines.
    pub fn new(lines: usize) -> (r: Pager)
        ensures
            r.scroll_pos == 0,
            r.max == lines,
    {
        Pager { scroll_pos: 0, max: lines }
    }

    /// Scroll one line down, stopping at the last line.
    pub fn add(&mut self)
        ensures
            final(self).max == old(self).max,
            final(self).scroll_pos == if old(self).scroll_pos + 2 <= old(self).max {
                (old(self).scroll_pos + 1) as usize
            } else {
                old(self).scroll_pos
            },
    {
        if self.max >= 2 && self.scroll_pos <= self.max - 2 {
            self.scroll_pos = self.scroll_pos + 1;
        }
    }

    /// Scroll one line up, stopping at the top.
    pub fn sub(&mut self)
        ensures
            final(self).max == old(self).max,
            final(self).scroll_pos == if old(self).scroll_pos > 0 {
                (old(self).scroll_pos - 1) as usize
            } else {
                0
            },
    {
        if self.scroll_pos > 0 {
            self.scroll_pos = self.scroll_pos - 1;
        }
    }
}

} // verus!
