//! The tape's line discipline: how bytes split into lines, what a line
//! that does not parse means, how an append is framed and numbered.
use vstd::prelude::*;

use super::event::{AppendEvent, Memevent};
use crate::text::{decimal, push_decimal, push_str, string_of};

verus! {

/// A line of the tape: its byte range, whether a newline ends it, and
/// whether it holds nothing but ASCII whitespace.
#[derive(Debug, Clone, Copy, PartialEq, Eq, Structural)]
pub struct TapeLine {
    pub start: usize,
    pub end: usize,
    pub terminated: bool,
    pub blank: bool,
}

/// `u8::is_ascii_whitespace`.
pub open spec fn ascii_space(b: u8) -> bool {
    b == 0x20 || b == 0x09 || b == 0x0a || b == 0x0c || b == 0x0d
}

/// The first newline at or after `from`, or the end.
pub open spec fn next_newline(bytes: Seq<u8>, from: int) -> int
    decreases bytes.len() - from,
{
    if from >= bytes.len() || from < 0 {
        bytes.len() as int
    } else if bytes[from] == 0x0a {
        from
    } else {
        next_newline(bytes, from + 1)
    }
}

/// The lines from `from` on: each runs through its newline; the last may
/// lack one.
pub open spec fn lines_from(bytes: Seq<u8>, from: int) -> Seq<(int, int, bool)>
    decreases bytes.len() - from,
{
    if from >= bytes.len() || from < 0 {
        Seq::empty()
    } else {
        let e = next_newline(bytes, from);
        if e < bytes.len() {
            proof { lemma_next_newline(bytes, from); }
            seq![(from, e + 1, true)] + lines_from(bytes, e + 1)
        } else {
            seq![(from, bytes.len() as int, false)]
        }
    }
}

pub open spec fn all_space(bytes: Seq<u8>, a: int, b: int) -> bool {
    forall|i: int| a <= i < b ==> ascii_space(#[trigger] bytes[i])
}

pub proof fn lemma_next_newline(bytes: Seq<u8>, from: int)
    requires
        0 <= from <= bytes.len(),
    ensures
        from <= next_newline(bytes, from) <= bytes.len(),
        forall|i: int| from <= i < next_newline(bytes, from) ==> bytes[i] != 0x0a,
        next_newline(bytes, from) < bytes.len() ==> bytes[next_newline(bytes, from)] == 0x0a,
    decreases bytes.len() - from,
{
    if from < bytes.len() && bytes[from] != 0x0a {
        lemma_next_newline(bytes, from + 1);
    }
}

/// The lines of the tape's bytes.
pub fn tape_lines(bytes: &[u8]) -> (r: Vec<TapeLine>)
    ensures
        r@.len() == lines_from(bytes@, 0).len(),
        forall|k: int| 0 <= k < r@.len() ==> {
            let l = #[trigger] r@[k];
            &&& (l.start as int, l.end as int, l.terminated) == lines_from(bytes@, 0)[k]
            &&& l.blank == all_space(bytes@, l.start as int, l.end as int)
        },
{
    let n = bytes.len();
    let mut out: Vec<TapeLine> = Vec::new();
    let mut start: usize = 0;
    assert(lines_from(bytes@, 0) =~= out@.map_values(|l: TapeLine| (l.start as int, l.end as int, l.terminated)) + lines_from(bytes@, 0));
    while start < n
        invariant
            n == bytes@.len(),
            start <= n,
            lines_from(bytes@, 0) == out@.map_values(|l: TapeLine| (l.start as int, l.end as int, l.terminated)) + lines_from(bytes@, start as int),
            forall|k: int| 0 <= k < out@.len() ==> (#[trigger] out@[k]).blank == all_space(bytes@, out@[k].start as int, out@[k].end as int),
        decreases n - start,
    {
        let mut p: usize = start;
        let mut blank = true;
        while p < n && bytes[p] != 0x0a
            invariant
                n == bytes@.len(),
                start <= p <= n,
                next_newline(bytes@, start as int) == next_newline(bytes@, p as int),
                blank == all_space(bytes@, start as int, p as int),
            decreases n - p,
        {
            let b = bytes[p];
            if !(b == 0x20 || b == 0x09 || b == 0x0a || b == 0x0c || b == 0x0d) {
                blank = false;
            }
            p = p + 1;
        }
        proof { lemma_next_newline(bytes@, start as int); }
        let ghost before = out@;
        if p < n {
            let nl_blank = blank;
            out.push(TapeLine { start, end: p + 1, terminated: true, blank: nl_blank });
            proof {
                assert(all_space(bytes@, start as int, p + 1) == blank);
                assert(out@.map_values(|l: TapeLine| (l.start as int, l.end as int, l.terminated))
                    =~= before.map_values(|l: TapeLine| (l.start as int, l.end as int, l.terminated)).push((start as int, p + 1, true)));
            }
            start = p + 1;
        } else {
            out.push(TapeLine { start, end: n, terminated: false, blank });
            proof {
                assert(out@.map_values(|l: TapeLine| (l.start as int, l.end as int, l.terminated))
                    =~= before.map_values(|l: TapeLine| (l.start as int, l.end as int, l.terminated)).push((start as int, n as int, false)));
            }
            start = n;
        }
    }
    assert(out@.map_values(|l: TapeLine| (l.start as int, l.end as int, l.terminated)) + lines_from(bytes@, n as int) =~= out@.map_values(|l: TapeLine| (l.start as int, l.end as int, l.terminated)));
    out
}

/// What the scan does with a line.
#[derive(Debug, Clone, Copy, PartialEq, Eq, Structural)]
pub enum LineVerdict {
    /// Whitespace only: nothing there.
    Skip,
    /// Parsed: an event, once it validates.
    Event,
    /// An unterminated last line that does not parse: a crash-torn tail,
    /// moved aside and never served.
    Quarantine,
    /// A line that does not parse elsewhere corrupts the tape; the line's
    /// 1-based number.
    Corrupt(usize),
}

/// Judges line number `line_no` given whether it parsed as an event.
pub fn judge(line: &TapeLine, line_no: usize, parsed: bool) -> (r: LineVerdict)
    ensures
        r == if line.blank {
            LineVerdict::Skip
        } else if parsed {
            LineVerdict::Event
        } else if !line.terminated {
            LineVerdict::Quarantine
        } else {
            LineVerdict::Corrupt(line_no)
        },
{
    if line.blank {
        LineVerdict::Skip
    } else if parsed {
        LineVerdict::Event
    } else if !line.terminated {
        LineVerdict::Quarantine
    } else {
        LineVerdict::Corrupt(line_no)
    }
}

/// After a scan, the next append must start a new line when the tape's
/// last byte is not a newline (unless its torn tail was moved aside).
pub fn needs_newline(bytes: &[u8], healed: bool) -> (r: bool)
    ensures
        r == (!healed && bytes@.len() > 0 && bytes@.last() != 0x0a),
{
    !healed && bytes.len() > 0 && bytes[bytes.len() - 1] != 0x0a
}

/// The sequence number of the next event: one past the last, from 1.
pub fn next_seq(events: &[Memevent]) -> (r: u64)
    requires
        events@.len() > 0 ==> events@.last().seq < u64::MAX,
    ensures
        r == if events@.len() == 0 { 1 } else { events@.last().seq + 1 },
{
    if events.len() == 0 { 1 } else { events[events.len() - 1].seq + 1 }
}

/// The sequence number an append takes after a scan of the tape: one past
/// the last event's, or 1 on an empty tape; none where the last number
/// cannot grow.
pub fn seq_after(events: &[Memevent]) -> (r: Option<u64>)
    ensures
        events@.len() == 0 ==> r == Some(1u64),
        events@.len() > 0 ==> r == if events@.last().seq == u64::MAX { None } else { Some((events@.last().seq + 1) as u64) },
{
    if events.len() > 0 && events[events.len() - 1].seq == u64::MAX {
        None
    } else {
        Some(next_seq(events))
    }
}

/// The next sequence number an append may take without a rescan, after an
/// append of number `seq`: one more once the line is written; none where
/// the write failed (the tape may hold a torn line and must be scanned and
/// healed first) or where no number follows.
pub fn seq_after_write(seq: u64, written: bool) -> (r: Option<u64>)
    ensures
        r == if !written || seq == u64::MAX { None } else { Some((seq + 1) as u64) },
{
    if !written || seq == u64::MAX { None } else { Some(seq + 1) }
}

/// An event as the tape stores it: version 1, its id, number and stamp,
/// in its session.
pub fn stamp(input: AppendEvent, id: String, seq: u64, ts: String) -> (r: Memevent)
    ensures
        r.v == 1,
        r.id == id,
        r.seq == seq,
        r.ts == ts,
        r.from == input.from,
        r.from_kind == input.from_kind,
        r.kind == input.kind,
        r.session == Some(input.session),
        r.content == input.content,
        r.tags == input.tags,
        r.refs == input.refs,
        r.act == input.act,
{
    Memevent {
        v: 1,
        id,
        seq,
        ts,
        from: input.from,
        from_kind: input.from_kind,
        kind: input.kind,
        session: Some(input.session),
        content: input.content,
        tags: input.tags,
        refs: input.refs,
        act: input.act,
    }
}

/// The bytes an append writes for one serialized event: a newline first
/// when the tape's last line lacks one, then the event and its newline.
pub fn frame_line(json: &str, needs_newline: bool) -> (r: String)
    ensures
        r@ == (if needs_newline { "\n"@ } else { Seq::empty() }) + json@ + "\n"@,
{
    let mut out: Vec<char> = Vec::new();
    if needs_newline {
        push_str(&mut out, "\n");
    }
    push_str(&mut out, json);
    push_str(&mut out, "\n");
    string_of(out.as_slice())
}

/// The header written before a quarantined tail.
pub fn quarantine_header(ts: &str, torn_len: usize) -> (r: String)
    ensures
        r@ == "# quarantined "@ + ts@ + " ("@ + decimal(torn_len as nat) + " bytes)\n"@,
{
    let mut out: Vec<char> = Vec::new();
    push_str(&mut out, "# quarantined ");
    push_str(&mut out, ts);
    push_str(&mut out, " (");
    push_decimal(torn_len as u64, &mut out);
    push_str(&mut out, " bytes)\n");
    string_of(out.as_slice())
}

/// The verdict on line `i` (numbered from 1 in the verdict).
pub open spec fn verdict(l: TapeLine, i: int, parsed: bool) -> LineVerdict {
    if l.blank {
        LineVerdict::Skip
    } else if parsed {
        LineVerdict::Event
    } else if !l.terminated {
        LineVerdict::Quarantine
    } else {
        LineVerdict::Corrupt((i + 1) as usize)
    }
}

/// Why a scan fails: a corrupt line (its 1-based number), or an event that
/// does not validate (the problem).
pub enum ScanFail {
    Line(usize),
    Invalid(Seq<char>),
}

pub open spec fn text_of(o: Option<String>) -> Option<Seq<char>> {
    match o {
        Some(s) => Some(s@),
        None => None,
    }
}

/// A scan of the lines from `i` on, given whether each parsed as an event
/// and, for those that did, the problem `validate` found: the indices of
/// the event lines in order and the torn tail where the scan stopped; or
/// the first failure met in line order.
pub open spec fn scanned(lines: Seq<TapeLine>, parsed: Seq<bool>, problems: Seq<Option<Seq<char>>>, i: int) -> Result<(Seq<usize>, Option<usize>), ScanFail>
    decreases lines.len() - i,
{
    if i >= lines.len() || i < 0 {
        Ok((Seq::empty(), None))
    } else {
        match verdict(lines[i], i, parsed[i]) {
            LineVerdict::Skip => scanned(lines, parsed, problems, i + 1),
            LineVerdict::Event => match problems[i] {
                Some(m) => Err(ScanFail::Invalid(m)),
                None => match scanned(lines, parsed, problems, i + 1) {
                    Ok((es, t)) => Ok((seq![i as usize] + es, t)),
                    Err(f) => Err(f),
                },
            },
            LineVerdict::Quarantine => Ok((Seq::empty(), Some(i as usize))),
            LineVerdict::Corrupt(n) => Err(ScanFail::Line(n)),
        }
    }
}

pub open spec fn after(es: Seq<usize>, r: Result<(Seq<usize>, Option<usize>), ScanFail>) -> Result<(Seq<usize>, Option<usize>), ScanFail> {
    match r {
        Ok((e2, t)) => Ok((es + e2, t)),
        Err(f) => Err(f),
    }
}

/// What a scan of the tape's lines comes to.
#[derive(Debug, PartialEq, Eq)]
pub enum Scan {
    /// The lines holding events, in order, and the torn tail to move
    /// aside, if the scan met one.
    Lines { events: Vec<usize>, torn: Option<usize> },
    /// The 1-based number of a line that does not parse and is not the
    /// torn tail.
    Corrupt(usize),
    /// An event line that does not validate: the problem.
    Invalid(String),
}

/// Scans the tape's lines in order, given whether each parsed as an event
/// and what `Memevent::validate` said of each that did: blank lines are
/// skipped; the scan stops at a torn tail, at the first corrupt line, or at
/// the first event that does not validate.
pub fn scan(lines: &[TapeLine], parsed: &[bool], problems: &[Option<String>]) -> (r: Scan)
    requires
        lines@.len() == parsed@.len(),
        lines@.len() == problems@.len(),
    ensures
        match scanned(lines@, parsed@, problems@.map_values(|p: Option<String>| text_of(p)), 0) {
            Ok((es, t)) => r matches Scan::Lines { events, torn } && events@ == es && torn == t,
            Err(ScanFail::Line(n)) => r == Scan::Corrupt(n),
            Err(ScanFail::Invalid(m)) => r matches Scan::Invalid(x) && x@ == m,
        },
{
    let ghost ps = problems@.map_values(|p: Option<String>| text_of(p));
    let mut events: Vec<usize> = Vec::new();
    let mut i: usize = 0;
    while i < lines.len()
        invariant
            lines@.len() == parsed@.len(),
            lines@.len() == problems@.len(),
            ps == problems@.map_values(|p: Option<String>| text_of(p)),
            i <= lines@.len(),
            scanned(lines@, parsed@, ps, 0) == after(events@, scanned(lines@, parsed@, ps, i as int)),
        decreases lines.len() - i,
    {
        let v = judge(&lines[i], i + 1, parsed[i]);
        match v {
            LineVerdict::Skip => {},
            LineVerdict::Event => {
                match &problems[i] {
                    Some(m) => {
                        assert(ps[i as int] == Some(m@));
                        return Scan::Invalid(m.clone());
                    },
                    None => {
                        assert(ps[i as int] is None);
                    },
                }
                let ghost before = events@;
                events.push(i);
                proof {
                    match scanned(lines@, parsed@, ps, i + 1) {
                        Ok((e2, t)) => {
                            assert(before + (seq![i as usize] + e2) =~= events@ + e2);
                        },
                        Err(f) => {},
                    }
                }
            },
            LineVerdict::Quarantine => {
                assert(events@ + Seq::<usize>::empty() =~= events@);
                return Scan::Lines { events, torn: Some(i) };
            },
            LineVerdict::Corrupt(n) => {
                return Scan::Corrupt(n);
            },
        }
        i = i + 1;
    }
    assert(events@ + Seq::<usize>::empty() =~= events@);
    Scan::Lines { events, torn: None }
}

/// `ls` with its last line closed by a newline, where it lacked one.
pub open spec fn close_last(ls: Seq<(int, int, bool)>) -> Seq<(int, int, bool)> {
    if ls.len() > 0 && !ls.last().2 {
        ls.drop_last().push((ls.last().0, ls.last().1 + 1, true))
    } else {
        ls
    }
}

/// The tape after an append of `payload`: a newline first where
/// `needs_newline` asks for one, then the payload and its newline.
pub open spec fn framed(bytes: Seq<u8>, payload: Seq<u8>) -> Seq<u8> {
    (if bytes.len() > 0 && bytes.last() != 0x0a { bytes.push(0x0a) } else { bytes }) + payload.push(0x0a)
}

proof fn lemma_newline_skips(s: Seq<u8>, f: int, m: int)
    requires
        0 <= f <= m <= s.len(),
        forall|i: int| f <= i < m ==> s[i] != 0x0a,
    ensures
        next_newline(s, f) == next_newline(s, m),
    decreases m - f,
{
    if f < m {
        lemma_newline_skips(s, f + 1, m);
    }
}

proof fn lemma_newline_in_prefix(a: Seq<u8>, c: Seq<u8>, f: int)
    requires
        0 <= f <= a.len(),
        next_newline(a, f) < a.len(),
    ensures
        next_newline(a + c, f) == next_newline(a, f),
    decreases a.len() - f,
{
    if a[f] != 0x0a {
        lemma_newline_in_prefix(a, c, f + 1);
    }
}

/// In a tape that ends with a newline, a line starting at `f` ends by
/// the tape's end.
proof fn lemma_closed_line(a: Seq<u8>, f: int)
    requires
        a.len() > 0,
        a.last() == 0x0a,
        0 <= f < a.len(),
    ensures
        next_newline(a, f) < a.len(),
{
    lemma_next_newline(a, f);
    if next_newline(a, f) == a.len() {
        assert(a[a.len() - 1] != 0x0a);
    }
}

proof fn lemma_lines_split(a: Seq<u8>, c: Seq<u8>, f: int)
    requires
        a.len() > 0,
        a.last() == 0x0a,
        0 <= f <= a.len(),
    ensures
        lines_from(a + c, f) == lines_from(a, f) + lines_from(a + c, a.len() as int),
    decreases a.len() - f,
{
    if f == a.len() {
        assert(lines_from(a, f) + lines_from(a + c, a.len() as int) =~= lines_from(a + c, a.len() as int));
    } else {
        lemma_closed_line(a, f);
        lemma_next_newline(a, f);
        lemma_newline_in_prefix(a, c, f);
        let e = next_newline(a, f);
        lemma_lines_split(a, c, e + 1);
        assert(lines_from(a + c, f) == seq![(f, e + 1, true)] + lines_from(a + c, e + 1));
        assert(lines_from(a, f) == seq![(f, e + 1, true)] + lines_from(a, e + 1));
        assert(seq![(f, e + 1, true)] + (lines_from(a, e + 1) + lines_from(a + c, a.len() as int))
            =~= (seq![(f, e + 1, true)] + lines_from(a, e + 1)) + lines_from(a + c, a.len() as int));
    }
}

proof fn lemma_last_closed(a: Seq<u8>, f: int)
    requires
        a.len() > 0,
        a.last() == 0x0a,
        0 <= f <= a.len(),
    ensures
        close_last(lines_from(a, f)) == lines_from(a, f),
    decreases a.len() - f,
{
    if f < a.len() {
        lemma_closed_line(a, f);
        lemma_next_newline(a, f);
        let e = next_newline(a, f);
        lemma_last_closed(a, e + 1);
        let rest = lines_from(a, e + 1);
        assert(lines_from(a, f) == seq![(f, e + 1, true)] + rest);
        if rest.len() > 0 {
            assert((seq![(f, e + 1, true)] + rest).last() == rest.last());
        }
    }
}

proof fn lemma_newline_closes(b: Seq<u8>, f: int)
    requires
        b.len() > 0,
        b.last() != 0x0a,
        0 <= f < b.len(),
    ensures
        lines_from(b.push(0x0a), f) == close_last(lines_from(b, f)),
    decreases b.len() - f,
{
    let a = b.push(0x0a);
    lemma_next_newline(b, f);
    let e = next_newline(b, f);
    if e < b.len() {
        assert(a =~= b + seq![0x0au8]);
        lemma_newline_in_prefix(b, seq![0x0au8], f);
        assert(e + 1 < b.len());
        lemma_newline_closes(b, e + 1);
        let rest = lines_from(b, e + 1);
        assert(lines_from(b, f) == seq![(f, e + 1, true)] + rest);
        assert(lines_from(a, f) == seq![(f, e + 1, true)] + lines_from(a, e + 1));
        assert(close_last(seq![(f, e + 1, true)] + rest) =~= seq![(f, e + 1, true)] + close_last(rest));
    } else {
        lemma_newline_skips(a, f, b.len() as int);
        assert(next_newline(a, b.len() as int) == b.len());
        assert(lines_from(a, b.len() + 1int) == Seq::<(int, int, bool)>::empty());
        assert(lines_from(a, f) =~= seq![(f, b.len() + 1int, true)]);
        assert(lines_from(b, f) == seq![(f, b.len() as int, false)]);
    }
}

proof fn lemma_one_line(b: Seq<u8>, payload: Seq<u8>)
    requires
        forall|i: int| 0 <= i < payload.len() ==> payload[i] != 0x0a,
    ensures
        lines_from(b + payload.push(0x0a), b.len() as int)
            == seq![(b.len() as int, (b.len() + payload.len() + 1) as int, true)],
{
    let x = b + payload.push(0x0a);
    let m: int = (b.len() + payload.len()) as int;
    assert forall|i: int| b.len() <= i < m implies x[i] != 0x0a by {
        assert(x[i] == payload[i - b.len()]);
    }
    lemma_newline_skips(x, b.len() as int, m);
    assert(x[m] == 0x0a);
    assert(lines_from(x, m + 1) == Seq::<(int, int, bool)>::empty());
    assert(lines_from(x, b.len() as int) =~= seq![(b.len() as int, m + 1, true)]);
}

/// An append never merges with what the tape held: for a payload without
/// a newline, the framed tape's lines are the old ones, the last closed
/// where it was torn or unterminated, and then exactly one new line
/// holding the payload.
pub proof fn lemma_append_adds_one_line(bytes: Seq<u8>, payload: Seq<u8>)
    requires
        forall|i: int| 0 <= i < payload.len() ==> payload[i] != 0x0a,
    ensures
        lines_from(framed(bytes, payload), 0) == close_last(lines_from(bytes, 0)).push(
            ((framed(bytes, payload).len() - payload.len() - 1) as int, framed(bytes, payload).len() as int, true),
        ),
{
    let c = payload.push(0x0a);
    let n = framed(bytes, payload).len();
    if bytes.len() == 0 {
        assert(framed(bytes, payload) =~= Seq::<u8>::empty() + c);
        lemma_one_line(Seq::<u8>::empty(), payload);
        assert(lines_from(bytes, 0) == Seq::<(int, int, bool)>::empty());
        assert(Seq::<(int, int, bool)>::empty().push((0int, n as int, true)) =~= seq![(0int, n as int, true)]);
    } else {
        let b = if bytes.last() != 0x0a { bytes.push(0x0a) } else { bytes };
        assert(framed(bytes, payload) == b + c);
        assert(b.last() == 0x0a);
        lemma_lines_split(b, c, 0);
        lemma_one_line(b, payload);
        if bytes.last() != 0x0a {
            lemma_newline_closes(bytes, 0);
        } else {
            lemma_last_closed(bytes, 0);
        }
        assert(lines_from(b, 0) == close_last(lines_from(bytes, 0)));
        assert(lines_from(b, 0) + seq![(b.len() as int, n as int, true)]
            =~= lines_from(b, 0).push((b.len() as int, n as int, true)));
    }
}

proof fn lemma_scan_extends(
    lines: Seq<TapeLine>,
    parsed: Seq<bool>,
    problems: Seq<Option<Seq<char>>>,
    lines2: Seq<TapeLine>,
    i: int,
)
    requires
        lines.len() == parsed.len(),
        lines.len() == problems.len(),
        lines2.len() == lines.len() + 1,
        forall|k: int| 0 <= k < lines.len() ==> (#[trigger] lines2[k]).blank == lines[k].blank,
        !lines2[lines.len() as int].blank,
        0 <= i <= lines.len(),
        scanned(lines, parsed, problems, i) matches Ok((_, None)),
    ensures
        scanned(lines, parsed, problems, i) matches Ok((es, None)) && scanned(lines2, parsed.push(true), problems.push(None), i)
            == Ok::<(Seq<usize>, Option<usize>), ScanFail>((es.push(lines.len() as usize), None)),
    decreases lines.len() - i,
{
    let p2 = parsed.push(true);
    let q2 = problems.push(None);
    let n = lines.len() as int;
    if i == n {
        assert(verdict(lines2[n], n, p2[n]) == LineVerdict::Event);
        assert(q2[n] is None);
        assert(scanned(lines2, p2, q2, n + 1) == Ok::<(Seq<usize>, Option<usize>), ScanFail>((Seq::empty(), None)));
        assert(seq![n as usize] + Seq::<usize>::empty() =~= Seq::<usize>::empty().push(n as usize));
    } else {
        assert(p2[i] == parsed[i]);
        assert(q2[i] == problems[i]);
        match verdict(lines[i], i, parsed[i]) {
            LineVerdict::Skip => {
                assert(verdict(lines2[i], i, p2[i]) == LineVerdict::Skip);
                lemma_scan_extends(lines, parsed, problems, lines2, i + 1);
            },
            LineVerdict::Event => {
                assert(verdict(lines2[i], i, p2[i]) == LineVerdict::Event);
                lemma_scan_extends(lines, parsed, problems, lines2, i + 1);
                let es1 = scanned(lines, parsed, problems, i + 1)->Ok_0.0;
                assert(seq![i as usize] + es1.push(n as usize) =~= (seq![i as usize] + es1).push(n as usize));
            },
            LineVerdict::Quarantine => {},
            LineVerdict::Corrupt(_) => {},
        }
    }
}

/// What an append adds is read back: where a scan of the tape met no
/// torn tail, a tape with the same lines and one more, non-blank, line
/// that parses as an event and validates scans to the same events and
/// then that line.
pub proof fn lemma_append_is_read_back(
    lines: Seq<TapeLine>,
    parsed: Seq<bool>,
    problems: Seq<Option<Seq<char>>>,
    lines2: Seq<TapeLine>,
)
    requires
        lines.len() == parsed.len(),
        lines.len() == problems.len(),
        lines2.len() == lines.len() + 1,
        forall|k: int| 0 <= k < lines.len() ==> (#[trigger] lines2[k]).blank == lines[k].blank,
        !lines2[lines.len() as int].blank,
        scanned(lines, parsed, problems, 0) matches Ok((_, None)),
    ensures
        scanned(lines, parsed, problems, 0) matches Ok((es, None)) && scanned(lines2, parsed.push(true), problems.push(None), 0)
            == Ok::<(Seq<usize>, Option<usize>), ScanFail>((es.push(lines.len() as usize), None)),
{
    lemma_scan_extends(lines, parsed, problems, lines2, 0);
}

} // verus!
