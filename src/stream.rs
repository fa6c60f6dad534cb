//! The record stream: pairs each header line with the sequence line after it and
//! turns the pair into output lines.

use crate::collapse::{collapse_dinuct, collapsed};
use crate::nucleotide::push_char;
use crate::threshold::{collapse_dinuct_threshold, exceeds_threshold, Threshold};
use vstd::prelude::*;

verus! {

broadcast use vstd::string::group_string_axioms;

/// A header line starts with the record marker `@`.
pub open spec fn is_header(line: Seq<char>) -> bool {
    line.len() > 0 && line[0] == '@'
}

/// The output header for input header `h`: `>` before it and, for a collapsed
/// record, `_dc` after it.
pub open spec fn header_out(h: Seq<char>, tagged: bool) -> Seq<char> {
    if tagged {
        seq!['>'] + h + seq!['_', 'd', 'c']
    } else {
        seq!['>'] + h
    }
}

/// The output lines for header `h` followed by sequence line `s`: with a zero
/// threshold the tagged header and the collapsed sequence; otherwise nothing for a
/// rejected read, and the plain header and unchanged sequence for an accepted one.
pub open spec fn record_out(h: Seq<char>, s: Seq<char>, t: Threshold) -> Seq<Seq<char>> {
    if t.num == 0 {
        seq![header_out(h, true), collapsed(s)]
    } else if exceeds_threshold(s, t) {
        Seq::empty()
    } else {
        seq![header_out(h, false), s]
    }
}

/// One line read in state `pending` (the header awaiting its sequence line, if
/// any): the next state and the lines it emits.
pub open spec fn step(pending: Option<Seq<char>>, line: Seq<char>, t: Threshold) -> (Option<
    Seq<char>,
>, Seq<Seq<char>>) {
    if is_header(line) {
        (Some(line), Seq::empty())
    } else {
        match pending {
            Some(h) => (None, record_out(h, line, t)),
            None => (None, Seq::empty()),
        }
    }
}

/// The state after reading `lines` from state `p`.
pub open spec fn state_after(p: Option<Seq<char>>, lines: Seq<Seq<char>>, t: Threshold) -> Option<
    Seq<char>,
>
    decreases lines.len(),
{
    if lines.len() == 0 {
        p
    } else {
        step(state_after(p, lines.drop_last(), t), lines.last(), t).0
    }
}

/// Everything emitted while reading `lines` from state `p`.
pub open spec fn emitted_from(p: Option<Seq<char>>, lines: Seq<Seq<char>>, t: Threshold) -> Seq<
    Seq<char>,
>
    decreases lines.len(),
{
    if lines.len() == 0 {
        Seq::empty()
    } else {
        emitted_from(p, lines.drop_last(), t) + step(
            state_after(p, lines.drop_last(), t),
            lines.last(),
            t,
        ).1
    }
}

/// Everything emitted for a whole stream of lines.
pub open spec fn emitted(lines: Seq<Seq<char>>, t: Threshold) -> Seq<Seq<char>> {
    emitted_from(None, lines, t)
}

/// The streaming driver: the threshold of the run and the pending header.
pub struct RecordStream {
    threshold: Threshold,
    pending: Option<String>,
}

impl RecordStream {
    /// The threshold of the run.
    pub closed spec fn threshold_of(&self) -> Threshold {
        self.threshold
    }

    /// The header awaiting its sequence line, if any.
    pub closed spec fn pending_of(&self) -> Option<Seq<char>> {
        match self.pending {
            Some(h) => Some(h@),
            None => None,
        }
    }

    /// The threshold is well formed.
    pub closed spec fn wf(&self) -> bool {
        self.threshold.wf()
    }

    /// A driver that has read nothing yet.
    pub fn new(threshold: Threshold) -> (r: RecordStream)
        requires
            threshold.wf(),
        ensures
            r.wf(),
            r.threshold_of() == threshold,
            r.pending_of() is None,
    {
        RecordStream { threshold, pending: None }
    }

    /// Reads one line; returns the lines to emit for it (none or two).
    pub fn feed_line(&mut self, line: &str) -> (out: Vec<String>)
        requires
            old(self).wf(),
        ensures
            final(self).wf(),
            final(self).threshold_of() == old(self).threshold_of(),
            final(self).pending_of() == step(
                old(self).pending_of(),
                line@,
                old(self).threshold_of(),
            ).0,
            out.deep_view() == step(old(self).pending_of(), line@, old(self).threshold_of()).1,
    {
        let mut it = line.chars();
        let first = it.next();
        let header = match first {
            Some(c) => c == '@',
            None => false,
        };
        if header {
            self.pending = Some(String::from_str(line));
            return Vec::new();
        }
        let pending = self.pending.take();
        match pending {
            None => Vec::new(),
            Some(h) => record_lines(&h, line, &self.threshold),
        }
    }
}

/// The output lines for header `h` and sequence line `s`.
fn record_lines(h: &String, s: &str, t: &Threshold) -> (out: Vec<String>)
    requires
        t.wf(),
    ensures
        out.deep_view() == record_out(h@, s@, *t),
{
    if t.is_zero() {
        let collapsed_line = collapse_dinuct(s);
        let mut head = String::new();
        push_char(&mut head, '>');
        head.append(h.as_str());
        push_char(&mut head, '_');
        push_char(&mut head, 'd');
        push_char(&mut head, 'c');
        assert(head@ =~= header_out(h@, true));
        let mut out: Vec<String> = Vec::new();
        out.push(head);
        out.push(collapsed_line);
        proof {
            assert(out.deep_view()[0] == header_out(h@, true));
            assert(out.deep_view() =~= record_out(h@, s@, *t));
        }
        out
    } else {
        match collapse_dinuct_threshold(s, t) {
            None => Vec::new(),
            Some(kept) => {
                let mut head = String::new();
                push_char(&mut head, '>');
                head.append(h.as_str());
                let mut out: Vec<String> = Vec::new();
                out.push(head);
                out.push(kept);
                proof {
                    assert(out.deep_view() =~= record_out(h@, s@, *t));
                }
                out
            },
        }
    }
}

/// Runs a whole stream of lines through a fresh driver and gathers what it emits.
pub fn process_lines(lines: &Vec<String>, threshold: &Threshold) -> (out: Vec<String>)
    requires
        threshold.wf(),
    ensures
        out.deep_view() == emitted(lines.deep_view(), *threshold),
{
    let mut stream = RecordStream::new(*threshold);
    let mut out: Vec<String> = Vec::new();
    let mut i: usize = 0;
    while i < lines.len()
        invariant
            i <= lines.len(),
            stream.wf(),
            stream.threshold_of() == *threshold,
            stream.pending_of() == state_after(None, lines.deep_view().take(i as int), *threshold),
            out.deep_view() == emitted(lines.deep_view().take(i as int), *threshold),
        decreases lines.len() - i,
    {
        let ghost before = lines.deep_view().take(i as int);
        let ghost out_before = out.deep_view();
        let mut lines_out = stream.feed_line(lines[i].as_str());
        out.append(&mut lines_out);
        proof {
            let now = lines.deep_view().take(i + 1);
            assert(now.drop_last() =~= before);
            assert(now.last() == lines[i as int]@);
            assert(out.deep_view() =~= out_before + step(
                state_after(None, before, *threshold),
                lines[i as int]@,
                *threshold,
            ).1);
        }
        i = i + 1;
    }
    assert(lines.deep_view().take(lines.len() as int) =~= lines.deep_view());
    out
}

/// Reading `a` and then `b` emits what reading `a` emits, followed by what reading
/// `b` emits from the state that `a` left.
pub proof fn lemma_emitted_concat(
    p: Option<Seq<char>>,
    a: Seq<Seq<char>>,
    b: Seq<Seq<char>>,
    t: Threshold,
)
    ensures
        state_after(p, a + b, t) == state_after(state_after(p, a, t), b, t),
        emitted_from(p, a + b, t) == emitted_from(p, a, t) + emitted_from(
            state_after(p, a, t),
            b,
            t,
        ),
    decreases b.len(),
{
    if b.len() == 0 {
        assert(a + b =~= a);
        assert(emitted_from(p, a, t) + Seq::<Seq<char>>::empty() =~= emitted_from(p, a, t));
    } else {
        lemma_emitted_concat(p, a, b.drop_last(), t);
        assert((a + b).drop_last() =~= a + b.drop_last());
        assert((a + b).last() == b.last());
        let q = state_after(p, a, t);
        let e = step(state_after(q, b.drop_last(), t), b.last(), t).1;
        assert(emitted_from(p, a, t) + emitted_from(q, b.drop_last(), t) + e =~= emitted_from(
            p,
            a,
            t,
        ) + (emitted_from(q, b.drop_last(), t) + e));
    }
}

/// A header followed by a sequence line emits exactly the record's output: with a
/// zero threshold the header tagged `_dc` and the collapsed sequence; above zero,
/// nothing for a rejected read and the plain header with the unchanged sequence
/// for an accepted one.
pub proof fn lemma_record_emitted(lines: Seq<Seq<char>>, h: Seq<char>, s: Seq<char>, t: Threshold)
    requires
        is_header(h),
        !is_header(s),
    ensures
        emitted(lines + seq![h, s], t) == emitted(lines, t) + record_out(h, s, t),
        t.num == 0 ==> emitted(lines + seq![h, s], t) == emitted(lines, t) + seq![
            header_out(h, true),
            collapsed(s),
        ],
        t.num > 0 && exceeds_threshold(s, t) ==> emitted(lines + seq![h, s], t) == emitted(
            lines,
            t,
        ),
        t.num > 0 && !exceeds_threshold(s, t) ==> emitted(lines + seq![h, s], t) == emitted(
            lines,
            t,
        ) + seq![header_out(h, false), s],
{
    let pair = seq![h, s];
    lemma_emitted_concat(None, lines, pair, t);
    let q = state_after(None, lines, t);
    assert(pair.drop_last() =~= seq![h]);
    assert(seq![h].drop_last() =~= Seq::<Seq<char>>::empty());
    assert(seq![h].last() == h);
    assert(pair.last() == s);
    assert(emitted_from(q, seq![h].drop_last(), t) == Seq::<Seq<char>>::empty());
    assert(state_after(q, seq![h].drop_last(), t) == q);
    assert(state_after(q, seq![h], t) == Some(h));
    assert(emitted_from(q, seq![h], t) =~= Seq::<Seq<char>>::empty());
    assert(emitted_from(q, pair, t) =~= record_out(h, s, t));
    if t.num > 0 && exceeds_threshold(s, t) {
        assert(emitted(lines, t) + Seq::<Seq<char>>::empty() =~= emitted(lines, t));
    }
}

/// Lines read before any header emit nothing: dropping them changes no output.
pub proof fn lemma_headerless_prefix_silent(
    pre: Seq<Seq<char>>,
    rest: Seq<Seq<char>>,
    t: Threshold,
)
    requires
        forall|i: int| 0 <= i < pre.len() ==> !is_header(#[trigger] pre[i]),
    ensures
        emitted(pre + rest, t) == emitted(rest, t),
{
    lemma_headerless_silent(pre, t);
    lemma_emitted_concat(None, pre, rest, t);
    assert(Seq::<Seq<char>>::empty() + emitted(rest, t) =~= emitted(rest, t));
}

proof fn lemma_headerless_silent(pre: Seq<Seq<char>>, t: Threshold)
    requires
        forall|i: int| 0 <= i < pre.len() ==> !is_header(#[trigger] pre[i]),
    ensures
        state_after(None, pre, t) is None,
        emitted(pre, t) == Seq::<Seq<char>>::empty(),
    decreases pre.len(),
{
    if pre.len() > 0 {
        let init = pre.drop_last();
        assert forall|i: int| 0 <= i < init.len() implies !is_header(#[trigger] init[i]) by {
            assert(init[i] == pre[i]);
        }
        lemma_headerless_silent(init, t);
        assert(!is_header(pre[pre.len() - 1]));
        assert(emitted(pre, t) =~= Seq::<Seq<char>>::empty());
    }
}

/// A header with no sequence line after it before the stream ends emits nothing.
pub proof fn lemma_trailing_header_silent(lines: Seq<Seq<char>>, h: Seq<char>, t: Threshold)
    requires
        is_header(h),
    ensures
        emitted(lines.push(h), t) == emitted(lines, t),
{
    assert(lines.push(h).drop_last() =~= lines);
    assert(emitted(lines.push(h), t) =~= emitted(lines, t));
}

} // verus!
