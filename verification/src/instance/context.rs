//! Two-layer context for one session. The tape stays the record; frozen
//! markdown cuts cite event ids; a sidecar index of rows counts how often
//! each event was brought back and can be rebuilt from the tape and cuts.
use vstd::prelude::*;

use crate::json::{json_quoted, quote_json};
use crate::lines::{has_prefix, has_suffix, lines, lines_of, strings_of, trim, trim_chars};
use crate::memstream::event::{AppendEvent, FromKind, Kind, Memevent};
use crate::order::{chars_lt, str_lt};
use crate::text::{chars_of, concat2, decimal, push_decimal, push_str, str_eq, string_of, utf8_bytes};
use crate::workplace::id::{hex, hex_of, sha256, sha256_digest};

verus! {

#[derive(Debug, Clone, Copy, PartialEq, Eq, Structural)]
pub enum AssembleMode {
    Continue,
    Independent,
}

/// One entry of an assembled context: a recent event, the hottest cut
/// segment, or a summary segment that cites recent events.
#[derive(Debug)]
pub struct Piece {
    pub kind: &'static str,
    pub event_id: Option<String>,
    pub segment: Option<String>,
    pub text: String,
}

#[derive(Debug)]
pub struct Assembly {
    pub prompt: String,
    pub config: String,
    pub context: Vec<Piece>,
}

/// Index row: how often an event was brought back, and the cut segment
/// that cites it.
#[derive(Debug)]
pub struct Row {
    pub event_id: String,
    pub weak: u64,
    pub segment: Option<String>,
}

/// A segment of a frozen cut: its id (`<file>#<heading>`), its text and
/// the ids of the events it cites.
#[derive(Debug)]
pub struct Segment {
    pub id: String,
    pub text: String,
    pub sources: Vec<String>,
}

/// Byte length of a text, as `str::len` reports it.
pub open spec fn text_len(s: Seq<char>) -> nat {
    (utf8_bytes(s).len() as usize) as nat
}

/// Whether `tags` holds `t`.
pub open spec fn tagged(tags: Seq<String>, t: Seq<char>) -> bool {
    exists|i: int| 0 <= i < tags.len() && #[trigger] tags[i]@ == t
}

pub open spec fn is_compress(e: Memevent) -> bool {
    tagged(e.tags@, "compress"@)
}

/// Where the uncompressed tail begins: just after the last compress
/// event, or at the start.
pub open spec fn cut_start(events: Seq<Memevent>) -> int
    decreases events.len(),
{
    if events.len() == 0 {
        0
    } else if is_compress(events.last()) {
        events.len() as int
    } else {
        cut_start(events.drop_last())
    }
}

/// Whether `tags` holds `t`.
pub fn has_tag(tags: &Vec<String>, t: &str) -> (r: bool)
    ensures
        r == tagged(tags@, t@),
{
    let mut i: usize = 0;
    while i < tags.len()
        invariant
            i <= tags@.len(),
            forall|k: int| 0 <= k < i ==> tags@[k]@ != t@,
        decreases tags.len() - i,
    {
        if str_eq(tags[i].as_str(), t) {
            return true;
        }
        i = i + 1;
    }
    false
}

pub proof fn lemma_cut_start_bounds(events: Seq<Memevent>)
    ensures
        0 <= cut_start(events) <= events.len(),
        forall|k: int| cut_start(events) <= k < events.len() ==> !is_compress(#[trigger] events[k]),
        cut_start(events) > 0 ==> is_compress(events[cut_start(events) - 1]),
    decreases events.len(),
{
    if events.len() > 0 && !is_compress(events.last()) {
        let pre = events.drop_last();
        lemma_cut_start_bounds(pre);
        assert forall|k: int| cut_start(events) <= k < events.len() implies !is_compress(#[trigger] events[k]) by {
            if k < events.len() - 1 {
                assert(events[k] == pre[k]);
            }
        }
        if cut_start(events) > 0 {
            assert(events[cut_start(events) - 1] == pre[cut_start(events) - 1]);
        }
    }
}

/// Where the uncompressed tail of `events` begins. Every event from there
/// on is uncompressed; the one before it, if any, is the last cut.
pub fn uncompressed_start(events: &[Memevent]) -> (r: usize)
    ensures
        r == cut_start(events@),
{
    let mut i = events.len();
    assert(events@.subrange(0, i as int) =~= events@);
    while i > 0
        invariant
            i <= events@.len(),
            cut_start(events@) == cut_start(events@.subrange(0, i as int)),
        decreases i,
    {
        let ghost pre = events@.subrange(0, i as int);
        assert(pre.last() == events@[i - 1]);
        assert(pre.drop_last() =~= events@.subrange(0, i - 1));
        if has_tag(&events[i - 1].tags, "compress") {
            return i;
        }
        i = i - 1;
    }
    0
}

/// The uncompressed tail: the events after the last cut, none of which
/// is itself a cut.
pub fn uncompressed(events: &[Memevent]) -> (r: &[Memevent])
    ensures
        r@ == events@.subrange(cut_start(events@), events@.len() as int),
        forall|k: int| 0 <= k < r@.len() ==> !is_compress(#[trigger] r@[k]),
{
    let start = uncompressed_start(events);
    proof { lemma_cut_start_bounds(events@); }
    let (_, tail) = events.split_at(start);
    assert forall|k: int| 0 <= k < tail@.len() implies !is_compress(#[trigger] tail@[k]) by {
        assert(tail@[k] == events@[start + k]);
    }
    tail
}

/// Whether a piece of `len` bytes fits when `used` of `budget` are taken.
pub open spec fn fits(used: int, len: int, budget: int) -> bool {
    used + len <= budget
}

/// How many of `lens`, taken in order from `used`, fit in `budget` before
/// the first that does not.
pub open spec fn greedy(lens: Seq<nat>, used: int, budget: int) -> nat
    decreases lens.len(),
{
    if lens.len() == 0 {
        0
    } else if fits(used, lens[0] as int, budget) {
        1 + greedy(lens.drop_first(), used + lens[0], budget)
    } else {
        0
    }
}

/// The bytes that the first `n` of `lens` take.
pub open spec fn total(lens: Seq<nat>, n: int) -> int
    decreases n,
{
    if n <= 0 { 0 } else { total(lens, n - 1) + lens[n - 1] }
}

/// Adds `piece` when it fits in what is left of `budget`; says whether it
/// did.
pub fn push_piece(pieces: &mut Vec<Piece>, used: &mut usize, budget: usize, piece: Piece) -> (r: bool)
    requires
        *old(used) <= budget,
        old(pieces)@.len() == 0 ==> *old(used) == 0,
    ensures
        r == fits(*old(used) as int, text_len(piece.text@) as int, budget as int),
        r ==> final(pieces)@ == old(pieces)@.push(piece) && *final(used) == *old(used) + text_len(piece.text@),
        !r ==> final(pieces)@ == old(pieces)@ && *final(used) == *old(used),
{
    let len = piece.text.as_str().len();
    if len > budget.saturating_sub(*used) && pieces.len() != 0 {
        return false;
    }
    if len > budget && pieces.len() == 0 {
        return false;
    }
    *used = *used + len;
    pieces.push(piece);
    true
}

} // verus!

verus! {

impl Clone for Row {
    fn clone(&self) -> (r: Self)
        ensures
            r == *self,
    {
        Row {
            event_id: self.event_id.clone(),
            weak: self.weak,
            segment: match &self.segment { Some(s) => Some(s.clone()), None => None },
        }
    }
}

/// Rows in strictly increasing id order (so no id twice).
pub open spec fn sorted_rows(rows: Seq<Row>) -> bool {
    forall|i: int, j: int| 0 <= i < j < rows.len() ==> chars_lt(#[trigger] rows[i].event_id@, #[trigger] rows[j].event_id@)
}

/// Whether some row is for `id`.
pub open spec fn has_row(rows: Seq<Row>, id: Seq<char>) -> bool {
    exists|k: int| 0 <= k < rows.len() && #[trigger] rows[k].event_id@ == id
}

/// Whether some event has `id`.
pub open spec fn has_event(events: Seq<Memevent>, id: Seq<char>) -> bool {
    exists|k: int| 0 <= k < events.len() && #[trigger] events[k].id@ == id
}

/// The last row for `id`, if any.
pub open spec fn last_row(rows: Seq<Row>, id: Seq<char>) -> Option<Row>
    decreases rows.len(),
{
    if rows.len() == 0 {
        None
    } else if rows.last().event_id@ == id {
        Some(rows.last())
    } else {
        last_row(rows.drop_last(), id)
    }
}

/// `r` is the synced row for its id: the last loaded row for it, or a
/// fresh row (never brought back, uncited) for an event with no row.
pub open spec fn synced_row(rows: Seq<Row>, r: Row) -> bool {
    match last_row(rows, r.event_id@) {
        Some(x) => r.weak == x.weak && r.segment == x.segment,
        None => r.weak == 0 && r.segment is None,
    }
}

/// The index after sync: one row per id that a loaded row or an event
/// has, in id order, each the last loaded row for that id or a fresh one.
pub open spec fn synced_index(rows: Seq<Row>, events: Seq<Memevent>, out: Seq<Row>) -> bool {
    &&& sorted_rows(out)
    &&& forall|k: int| 0 <= k < out.len() ==> (has_row(rows, #[trigger] out[k].event_id@) || has_event(events, out[k].event_id@))
    &&& forall|k: int| 0 <= k < out.len() ==> synced_row(rows, #[trigger] out[k])
    &&& forall|id: Seq<char>| (has_row(rows, id) || has_event(events, id)) ==> #[trigger] has_row(out, id)
}

pub proof fn lemma_last_row_found(rows: Seq<Row>, id: Seq<char>)
    ensures
        last_row(rows, id) is Some <==> has_row(rows, id),
        last_row(rows, id) matches Some(x) ==> x.event_id@ == id,
    decreases rows.len(),
{
    if rows.len() > 0 {
        let pre = rows.drop_last();
        lemma_last_row_found(pre, id);
        if has_row(pre, id) {
            let k = choose|k: int| 0 <= k < pre.len() && #[trigger] pre[k].event_id@ == id;
            assert(rows[k].event_id@ == id);
        }
        if has_row(rows, id) && rows.last().event_id@ != id {
            let k = choose|k: int| 0 <= k < rows.len() && #[trigger] rows[k].event_id@ == id;
            assert(k < rows.len() - 1);
            assert(pre[k].event_id@ == id);
        }
        if rows.last().event_id@ == id {
            assert(rows[rows.len() - 1].event_id@ == id);
        }
    }
}

/// Where a row for `id` sits in sorted `out`: the first slot not before
/// `id`, and whether that slot already holds `id`.
fn find_slot(out: &Vec<Row>, id: &str) -> (r: (usize, bool))
    requires
        sorted_rows(out@),
    ensures
        r.0 <= out@.len(),
        forall|k: int| 0 <= k < r.0 ==> chars_lt(#[trigger] out@[k].event_id@, id@),
        forall|k: int| r.0 <= k < out@.len() ==> !chars_lt(#[trigger] out@[k].event_id@, id@),
        r.1 == (r.0 < out@.len() && out@[r.0 as int].event_id@ == id@),
        !r.1 ==> forall|k: int| r.0 <= k < out@.len() ==> chars_lt(id@, #[trigger] out@[k].event_id@),
{
    let mut p: usize = 0;
    while p < out.len() && str_lt(out[p].event_id.as_str(), id)
        invariant
            p <= out@.len(),
            forall|k: int| 0 <= k < p ==> chars_lt(#[trigger] out@[k].event_id@, id@),
        decreases out.len() - p,
    {
        p = p + 1;
    }
    let found = p < out.len() && str_eq(out[p].event_id.as_str(), id);
    proof {
        assert forall|k: int| p <= k < out@.len() implies !chars_lt(#[trigger] out@[k].event_id@, id@) by {
            if k > p {
                if chars_lt(out@[k].event_id@, id@) {
                    crate::order::lemma_lt_transitive(out@[p as int].event_id@, out@[k].event_id@, id@);
                }
            }
        }
        if !found {
            assert forall|k: int| p <= k < out@.len() implies chars_lt(id@, #[trigger] out@[k].event_id@) by {
                crate::order::lemma_lt_total(id@, out@[p as int].event_id@);
                if k > p {
                    crate::order::lemma_lt_transitive(id@, out@[p as int].event_id@, out@[k].event_id@);
                }
            }
        }
    }
    (p, found)
}

} // verus!

verus! {

proof fn lemma_insert_sorted(out: Seq<Row>, p: int, r: Row)
    requires
        sorted_rows(out),
        0 <= p <= out.len(),
        forall|k: int| 0 <= k < p ==> chars_lt(#[trigger] out[k].event_id@, r.event_id@),
        forall|k: int| p <= k < out.len() ==> chars_lt(r.event_id@, #[trigger] out[k].event_id@),
    ensures
        sorted_rows(out.insert(p, r)),
{
    let n = out.insert(p, r);
    assert forall|i: int, j: int| 0 <= i < j < n.len() implies chars_lt(#[trigger] n[i].event_id@, #[trigger] n[j].event_id@) by {
        if i < p && j < p {
            assert(n[i] == out[i] && n[j] == out[j]);
        } else if i < p && j == p {
            assert(n[i] == out[i]);
        } else if i < p {
            assert(n[i] == out[i] && n[j] == out[j - 1]);
        } else if i == p {
            assert(n[j] == out[j - 1]);
        } else {
            assert(n[i] == out[i - 1] && n[j] == out[j - 1]);
        }
    }
}

proof fn lemma_sorted_unique(out: Seq<Row>, a: int, b: int)
    requires
        sorted_rows(out),
        0 <= a < out.len(),
        0 <= b < out.len(),
        out[a].event_id@ == out[b].event_id@,
    ensures
        a == b,
{
    if a < b {
        assert(chars_lt(out[a].event_id@, out[b].event_id@));
        crate::order::lemma_lt_irreflexive(out[a].event_id@);
    } else if b < a {
        assert(chars_lt(out[b].event_id@, out[a].event_id@));
        crate::order::lemma_lt_irreflexive(out[a].event_id@);
    }
}

proof fn lemma_last_row_push(pre: Seq<Row>, r: Row, id: Seq<char>)
    ensures
        last_row(pre.push(r), id) == if r.event_id@ == id { Some(r) } else { last_row(pre, id) },
{
    assert(pre.push(r).drop_last() =~= pre);
}

/// Brings the index in line with the tape: one row per id, the last
/// loaded row winning, a fresh row for each event that has none, in id
/// order.
pub fn sync_rows(events: &[Memevent], rows: Vec<Row>) -> (out: Vec<Row>)
    ensures
        synced_index(rows@, events@, out@),
{
    let mut out: Vec<Row> = Vec::new();
    let mut i: usize = 0;
    while i < rows.len()
        invariant
            i <= rows@.len(),
            sorted_rows(out@),
            forall|k: int| 0 <= k < out@.len() ==> has_row(rows@.subrange(0, i as int), #[trigger] out@[k].event_id@),
            forall|k: int| 0 <= k < out@.len() ==> synced_row(rows@.subrange(0, i as int), #[trigger] out@[k]),
            forall|id: Seq<char>| has_row(rows@.subrange(0, i as int), id) ==> #[trigger] has_row(out@, id),
        decreases rows.len() - i,
    {
        let row = rows[i].clone();
        let ghost pre = rows@.subrange(0, i as int);
        let ghost post = rows@.subrange(0, i + 1);
        assert(post =~= pre.push(row));
        let ghost old_out = out@;
        let (p, found) = find_slot(&out, row.event_id.as_str());
        if found {
            out.set(p, row);
        } else {
            out.insert(p, row);
            proof { lemma_insert_sorted(old_out, p as int, row); }
        }
        proof {
            assert(sorted_rows(out@));
            assert forall|k: int| 0 <= k < out@.len() implies has_row(post, #[trigger] out@[k].event_id@) && synced_row(post, out@[k]) by {
                lemma_last_row_push(pre, row, out@[k].event_id@);
                if out@[k].event_id@ == row.event_id@ {
                    assert(post[i as int] == row);
                    if found {
                        lemma_sorted_unique(out@, k, p as int);
                    } else {
                        lemma_sorted_unique(out@, k, p as int);
                    }
                } else {
                    let j: int = if found { k } else if k < p { k } else { k - 1 };
                    assert(out@[k] == old_out[j]);
                    let w = choose|w: int| 0 <= w < pre.len() && #[trigger] pre[w].event_id@ == old_out[j].event_id@;
                    assert(post[w] == pre[w]);
                }
            }
            assert forall|id: Seq<char>| has_row(post, id) implies #[trigger] has_row(out@, id) by {
                if id == row.event_id@ {
                    assert(out@[p as int].event_id@ == id);
                } else {
                    let w = choose|w: int| 0 <= w < post.len() && #[trigger] post[w].event_id@ == id;
                    assert(pre[w] == post[w]);
                    assert(has_row(pre, id));
                    assert(has_row(old_out, id));
                    let k = choose|k: int| 0 <= k < old_out.len() && #[trigger] old_out[k].event_id@ == id;
                    if found {
                        assert(out@[k] == old_out[k] || k == p);
                        if k == p {
                            assert(old_out[k].event_id@ == row.event_id@);
                        }
                        assert(out@[k].event_id@ == id);
                    } else if k < p {
                        assert(out@[k] == old_out[k]);
                    } else {
                        assert(out@[k + 1] == old_out[k]);
                    }
                }
            }
        }
        i = i + 1;
    }
    assert(rows@.subrange(0, rows@.len() as int) =~= rows@);
    let mut j: usize = 0;
    while j < events.len()
        invariant
            j <= events@.len(),
            sorted_rows(out@),
            forall|k: int| 0 <= k < out@.len() ==> (has_row(rows@, #[trigger] out@[k].event_id@) || has_event(events@.subrange(0, j as int), out@[k].event_id@)),
            forall|k: int| 0 <= k < out@.len() ==> synced_row(rows@, #[trigger] out@[k]),
            forall|id: Seq<char>| (has_row(rows@, id) || has_event(events@.subrange(0, j as int), id)) ==> #[trigger] has_row(out@, id),
        decreases events.len() - j,
    {
        let ghost pre = events@.subrange(0, j as int);
        let ghost post = events@.subrange(0, j + 1);
        let ghost old_out = out@;
        let (p, found) = find_slot(&out, events[j].id.as_str());
        let ghost eid = events@[j as int].id@;
        assert(post[j as int].id@ == eid);
        assert forall|id: Seq<char>| has_event(pre, id) implies has_event(post, id) by {
            let w = choose|w: int| 0 <= w < pre.len() && #[trigger] pre[w].id@ == id;
            assert(post[w] == pre[w]);
        }
        if !found {
            proof {
                assert(!has_row(old_out, eid)) by {
                    if has_row(old_out, eid) {
                        let k = choose|k: int| 0 <= k < old_out.len() && #[trigger] old_out[k].event_id@ == eid;
                        if k < p {
                            crate::order::lemma_lt_irreflexive(eid);
                        } else {
                            crate::order::lemma_lt_irreflexive(eid);
                        }
                    }
                }
                lemma_last_row_found(rows@, eid);
            }
            let fresh = Row { event_id: events[j].id.clone(), weak: 0, segment: None };
            out.insert(p, fresh);
            proof { lemma_insert_sorted(old_out, p as int, fresh); }
        }
        proof {
            assert forall|k: int| 0 <= k < out@.len() implies (has_row(rows@, #[trigger] out@[k].event_id@) || has_event(post, out@[k].event_id@)) && synced_row(rows@, out@[k]) by {
                if !found && k == p {
                } else {
                    let o: int = if found || k < p { k } else { k - 1 };
                    assert(out@[k] == old_out[o]);
                    if !has_row(rows@, old_out[o].event_id@) {
                        let w = choose|w: int| 0 <= w < pre.len() && #[trigger] pre[w].id@ == old_out[o].event_id@;
                        assert(post[w] == pre[w]);
                    }
                }
            }
            assert forall|id: Seq<char>| (has_row(rows@, id) || has_event(post, id)) implies #[trigger] has_row(out@, id) by {
                if id == eid {
                    assert(out@[p as int].event_id@ == id);
                } else {
                    if !has_row(rows@, id) {
                        let w = choose|w: int| 0 <= w < post.len() && #[trigger] post[w].id@ == id;
                        assert(w < j);
                        assert(pre[w] == post[w]);
                        assert(has_event(pre, id));
                    }
                    assert(has_row(old_out, id));
                    let k = choose|k: int| 0 <= k < old_out.len() && #[trigger] old_out[k].event_id@ == id;
                    if found || k < p {
                        assert(out@[k] == old_out[k]);
                    } else {
                        assert(out@[k + 1] == old_out[k]);
                    }
                }
            }
        }
        j = j + 1;
    }
    assert(events@.subrange(0, events@.len() as int) =~= events@);
    out
}

} // verus!

verus! {

/// How often the event `id` was brought back: the first row for it, or 0.
pub open spec fn row_weak(rows: Seq<Row>, id: Seq<char>) -> nat
    decreases rows.len(),
{
    if rows.len() == 0 {
        0
    } else if rows[0].event_id@ == id {
        rows[0].weak as nat
    } else {
        row_weak(rows.drop_first(), id)
    }
}

/// A segment's heat: the most any of its sources was brought back.
pub open spec fn heat(rows: Seq<Row>, sources: Seq<String>) -> nat
    decreases sources.len(),
{
    if sources.len() == 0 {
        0
    } else {
        let h = heat(rows, sources.drop_last());
        let w = row_weak(rows, sources.last()@);
        if h < w { w } else { h }
    }
}

/// How often an event was brought back is what its first row counts, or 0
/// where no row is for it.
pub proof fn lemma_row_weak_first(rows: Seq<Row>, id: Seq<char>)
    ensures
        (forall|k: int| 0 <= k < rows.len() ==> #[trigger] rows[k].event_id@ != id) ==> row_weak(rows, id) == 0,
        forall|k: int| 0 <= k < rows.len() && #[trigger] rows[k].event_id@ == id
            && (forall|j: int| 0 <= j < k ==> rows[j].event_id@ != id) ==> row_weak(rows, id) == rows[k].weak,
    decreases rows.len(),
{
    if rows.len() > 0 {
        lemma_row_weak_first(rows.drop_first(), id);
        assert forall|k: int| 0 <= k < rows.len() && #[trigger] rows[k].event_id@ == id
            && (forall|j: int| 0 <= j < k ==> rows[j].event_id@ != id) implies row_weak(rows, id) == rows[k].weak by {
            if k > 0 {
                assert(rows[0].event_id@ != id);
                assert(rows.drop_first()[k - 1] == rows[k]);
                assert forall|j: int| 0 <= j < k - 1 implies rows.drop_first()[j].event_id@ != id by {
                    assert(rows.drop_first()[j] == rows[j + 1]);
                }
            }
        }
        if forall|k: int| 0 <= k < rows.len() ==> #[trigger] rows[k].event_id@ != id {
            assert(rows[0].event_id@ != id);
            assert forall|k: int| 0 <= k < rows.drop_first().len() implies #[trigger] rows.drop_first()[k].event_id@ != id by {
                assert(rows.drop_first()[k] == rows[k + 1]);
            }
        }
    }
}

/// A segment's heat is the largest count among its sources: no source
/// was brought back more often, and some source was brought back that
/// often (or the heat is 0).
pub proof fn lemma_heat_is_max(rows: Seq<Row>, sources: Seq<String>)
    ensures
        forall|i: int| 0 <= i < sources.len() ==> row_weak(rows, #[trigger] sources[i]@) <= heat(rows, sources),
        heat(rows, sources) == 0 || exists|i: int| 0 <= i < sources.len() && row_weak(rows, #[trigger] sources[i]@) == heat(rows, sources),
    decreases sources.len(),
{
    if sources.len() > 0 {
        lemma_heat_is_max(rows, sources.drop_last());
        assert forall|i: int| 0 <= i < sources.len() implies row_weak(rows, #[trigger] sources[i]@) <= heat(rows, sources) by {
            if i < sources.len() - 1 {
                assert(sources.drop_last()[i] == sources[i]);
            }
        }
        if heat(rows, sources) != 0 && heat(rows, sources) == heat(rows, sources.drop_last()) {
            let i = choose|i: int| 0 <= i < sources.drop_last().len() && row_weak(rows, #[trigger] sources.drop_last()[i]@) == heat(rows, sources.drop_last());
            assert(sources[i] == sources.drop_last()[i]);
        }
    }
}

/// `a` is colder than `b`: less heat, or as much heat and a smaller id.
pub open spec fn colder(rows: Seq<Row>, a: Segment, b: Segment) -> bool {
    let ha = heat(rows, a.sources@);
    let hb = heat(rows, b.sources@);
    ha < hb || (ha == hb && chars_lt(a.id@, b.id@))
}

/// The hottest of the first `n` segments; among equally hot ones with the
/// same id, the first.
pub open spec fn hottest(rows: Seq<Row>, segs: Seq<Segment>, n: int) -> int
    decreases n,
{
    if n <= 1 {
        0
    } else {
        let b = hottest(rows, segs, n - 1);
        if colder(rows, segs[b], segs[n - 1]) { n - 1 } else { b }
    }
}

proof fn lemma_colder_transitive(rows: Seq<Row>, a: Segment, b: Segment, c: Segment)
    requires
        colder(rows, a, b),
        colder(rows, b, c),
    ensures
        colder(rows, a, c),
{
    if heat(rows, a.sources@) == heat(rows, b.sources@) && heat(rows, b.sources@) == heat(rows, c.sources@) {
        crate::order::lemma_lt_transitive(a.id@, b.id@, c.id@);
    }
}

proof fn lemma_colder_total(rows: Seq<Row>, a: Segment, b: Segment)
    ensures
        !colder(rows, a, b) ==> (colder(rows, b, a) || (heat(rows, a.sources@) == heat(rows, b.sources@) && a.id@ == b.id@)),
        !(colder(rows, a, b) && colder(rows, b, a)),
{
    crate::order::lemma_lt_total(a.id@, b.id@);
}

/// No segment is hotter than the hottest, and every one before it is
/// strictly colder: the hottest is the first of the hottest.
pub proof fn lemma_hottest_first_max(rows: Seq<Row>, segs: Seq<Segment>, n: int)
    requires
        1 <= n <= segs.len(),
    ensures
        0 <= hottest(rows, segs, n) < n,
        forall|j: int| 0 <= j < n ==> !colder(rows, segs[hottest(rows, segs, n)], #[trigger] segs[j]),
        forall|j: int| 0 <= j < hottest(rows, segs, n) ==> colder(rows, #[trigger] segs[j], segs[hottest(rows, segs, n)]),
    decreases n,
{
    if n > 1 {
        lemma_hottest_first_max(rows, segs, n - 1);
        let b = hottest(rows, segs, n - 1);
        let h = hottest(rows, segs, n);
        if colder(rows, segs[b], segs[n - 1]) {
            assert forall|j: int| 0 <= j < n implies !colder(rows, segs[h], #[trigger] segs[j]) by {
                lemma_colder_total(rows, segs[h], segs[j]);
                if j < n - 1 {
                    lemma_colder_total(rows, segs[b], segs[j]);
                    if colder(rows, segs[h], segs[j]) {
                        lemma_colder_transitive(rows, segs[b], segs[h], segs[j]);
                    }
                }
            }
            assert forall|j: int| 0 <= j < h implies colder(rows, #[trigger] segs[j], segs[h]) by {
                lemma_colder_total(rows, segs[b], segs[j]);
                if j != b && !colder(rows, segs[j], segs[b]) {
                    // as hot as b, with b's id
                } else if j != b {
                    lemma_colder_transitive(rows, segs[j], segs[b], segs[h]);
                }
                if !colder(rows, segs[j], segs[h]) {
                    lemma_colder_total(rows, segs[j], segs[b]);
                }
            }
        } else {
            assert forall|j: int| 0 <= j < n implies !colder(rows, segs[h], #[trigger] segs[j]) by {
                if j == n - 1 {
                    assert(!colder(rows, segs[b], segs[n - 1]));
                }
            }
        }
    } else {
        crate::order::lemma_lt_irreflexive(segs[0].id@);
        assert(hottest(rows, segs, n) == 0);
    }
}

fn row_weak_of(rows: &[Row], id: &str) -> (r: u64)
    ensures
        r == row_weak(rows@, id@),
{
    let mut i: usize = 0;
    assert(rows@.skip(0) =~= rows@);
    while i < rows.len()
        invariant
            i <= rows@.len(),
            row_weak(rows@, id@) == row_weak(rows@.skip(i as int), id@),
        decreases rows.len() - i,
    {
        assert(rows@.skip(i as int)[0] == rows@[i as int]);
        if str_eq(rows[i].event_id.as_str(), id) {
            return rows[i].weak;
        }
        assert(rows@.skip(i as int).drop_first() =~= rows@.skip(i + 1));
        i = i + 1;
    }
    0
}

/// The heat of a segment with the given sources.
pub fn weak_of(rows: &[Row], sources: &[String]) -> (r: u64)
    ensures
        r == heat(rows@, sources@),
{
    let mut m: u64 = 0;
    let mut i: usize = 0;
    assert(sources@.subrange(0, 0) =~= Seq::<String>::empty());
    while i < sources.len()
        invariant
            i <= sources@.len(),
            m == heat(rows@, sources@.subrange(0, i as int)),
        decreases sources.len() - i,
    {
        let w = row_weak_of(rows, sources[i].as_str());
        assert(sources@.subrange(0, i + 1).drop_last() =~= sources@.subrange(0, i as int));
        if m < w {
            m = w;
        }
        i = i + 1;
    }
    assert(sources@.subrange(0, sources@.len() as int) =~= sources@);
    m
}

/// The hot segment is a hottest one: no segment's heat is above its
/// heat; among the equally hot it has the greatest id, and it is the
/// first segment with that heat and id.
pub proof fn lemma_hottest_is_hottest(rows: Seq<Row>, segs: Seq<Segment>)
    requires
        segs.len() > 0,
    ensures
        ({
            let h = hottest(rows, segs, segs.len() as int);
            &&& 0 <= h < segs.len()
            &&& forall|j: int| 0 <= j < segs.len() ==> heat(rows, (#[trigger] segs[j]).sources@) <= heat(rows, segs[h].sources@)
            &&& forall|j: int| 0 <= j < segs.len() && heat(rows, (#[trigger] segs[j]).sources@) == heat(rows, segs[h].sources@)
                ==> !chars_lt(segs[h].id@, segs[j].id@)
            &&& forall|j: int| 0 <= j < h ==> heat(rows, (#[trigger] segs[j]).sources@) < heat(rows, segs[h].sources@)
                || (heat(rows, segs[j].sources@) == heat(rows, segs[h].sources@) && chars_lt(segs[j].id@, segs[h].id@))
        }),
{
    lemma_hottest_first_max(rows, segs, segs.len() as int);
    let h = hottest(rows, segs, segs.len() as int);
    assert forall|j: int| 0 <= j < segs.len() implies heat(rows, (#[trigger] segs[j]).sources@) <= heat(rows, segs[h].sources@) by {
        assert(!colder(rows, segs[h], segs[j]));
    }
    assert forall|j: int| 0 <= j < segs.len() && heat(rows, (#[trigger] segs[j]).sources@) == heat(rows, segs[h].sources@)
        implies !chars_lt(segs[h].id@, segs[j].id@) by {
        assert(!colder(rows, segs[h], segs[j]));
    }
    assert forall|j: int| 0 <= j < h implies heat(rows, (#[trigger] segs[j]).sources@) < heat(rows, segs[h].sources@)
        || (heat(rows, segs[j].sources@) == heat(rows, segs[h].sources@) && chars_lt(segs[j].id@, segs[h].id@)) by {
        assert(colder(rows, segs[j], segs[h]));
    }
}

/// The index of the hottest segment.
pub fn hottest_index(rows: &[Row], segs: &[Segment]) -> (r: usize)
    requires
        segs@.len() > 0,
    ensures
        r == hottest(rows@, segs@, segs@.len() as int),
        forall|j: int| 0 <= j < segs@.len() ==> heat(rows@, (#[trigger] segs@[j]).sources@) <= heat(rows@, segs@[r as int].sources@),
{
    let mut best: usize = 0;
    let mut best_heat = weak_of(rows, segs[0].sources.as_slice());
    let mut j: usize = 1;
    while j < segs.len()
        invariant
            1 <= j <= segs@.len(),
            best == hottest(rows@, segs@, j as int),
            best < j,
            best_heat == heat(rows@, segs@[best as int].sources@),
        decreases segs.len() - j,
    {
        let h = weak_of(rows, segs[j].sources.as_slice());
        if best_heat < h || (best_heat == h && str_lt(segs[best].id.as_str(), segs[j].id.as_str())) {
            best = j;
            best_heat = h;
        }
        j = j + 1;
    }
    proof { lemma_hottest_is_hottest(rows@, segs@); }
    best
}

} // verus!

verus! {

pub open spec fn content_lens(span: Seq<Memevent>) -> Seq<nat> {
    span.map_values(|e: Memevent| text_len(e.content@))
}

/// How many recent events are brought back: the longest run from the
/// start of the tail that fits the budget.
pub open spec fn recent_taken(span: Seq<Memevent>, budget: int) -> nat {
    greedy(content_lens(span), 0, budget)
}

pub open spec fn after_recent(span: Seq<Memevent>, budget: int) -> int {
    total(content_lens(span), recent_taken(span, budget) as int)
}

/// The hottest segment, when there is one and it fits after the recent
/// events.
pub open spec fn hot_index(rows: Seq<Row>, segs: Seq<Segment>, span: Seq<Memevent>, budget: int) -> Option<int> {
    if segs.len() == 0 {
        None
    } else {
        let h = hottest(rows, segs, segs.len() as int);
        if fits(after_recent(span, budget), text_len(segs[h].text@) as int, budget) { Some(h) } else { None }
    }
}

pub open spec fn hot_id(rows: Seq<Row>, segs: Seq<Segment>, span: Seq<Memevent>, budget: int) -> Option<Seq<char>> {
    match hot_index(rows, segs, span, budget) {
        Some(h) => Some(segs[h].id@),
        None => None,
    }
}

pub open spec fn after_hot(rows: Seq<Row>, segs: Seq<Segment>, span: Seq<Memevent>, budget: int) -> int {
    match hot_index(rows, segs, span, budget) {
        Some(h) => after_recent(span, budget) + text_len(segs[h].text@),
        None => after_recent(span, budget),
    }
}

/// Whether the segment cites the event `id`.
pub open spec fn cites(seg: Segment, id: Seq<char>) -> bool {
    exists|i: int| 0 <= i < seg.sources@.len() && #[trigger] seg.sources@[i]@ == id
}

/// Whether the segment cites some event of the tail.
pub open spec fn cites_recent(seg: Segment, span: Seq<Memevent>) -> bool {
    exists|i: int| 0 <= i < seg.sources@.len() && has_event(span, #[trigger] seg.sources@[i]@)
}

/// A summary candidate cites the tail and is not the hot segment.
pub open spec fn summary_candidate(seg: Segment, span: Seq<Memevent>, hot: Option<Seq<char>>) -> bool {
    cites_recent(seg, span) && hot != Some(seg.id@)
}

/// The summary segments taken, from `from` on: candidates in order while
/// they fit, stopping at the first that does not.
pub open spec fn take_summaries(
    segs: Seq<Segment>,
    from: int,
    span: Seq<Memevent>,
    hot: Option<Seq<char>>,
    used: int,
    budget: int,
) -> Seq<int>
    decreases segs.len() - from,
{
    if from < 0 || from >= segs.len() {
        Seq::empty()
    } else if !summary_candidate(segs[from], span, hot) {
        take_summaries(segs, from + 1, span, hot, used, budget)
    } else if fits(used, text_len(segs[from].text@) as int, budget) {
        seq![from] + take_summaries(segs, from + 1, span, hot, used + text_len(segs[from].text@), budget)
    } else {
        Seq::empty()
    }
}

pub open spec fn summaries(rows: Seq<Row>, segs: Seq<Segment>, span: Seq<Memevent>, budget: int) -> Seq<int> {
    take_summaries(segs, 0, span, hot_id(rows, segs, span, budget), after_hot(rows, segs, span, budget), budget)
}

pub open spec fn recent_piece(p: Piece, e: Memevent) -> bool {
    &&& p.kind@ == "recent"@
    &&& p.event_id == Some(e.id)
    &&& p.segment is None
    &&& p.text == e.content
}

pub open spec fn segment_piece(p: Piece, kind: Seq<char>, s: Segment) -> bool {
    &&& p.kind@ == kind
    &&& p.event_id is None
    &&& p.segment == Some(s.id)
    &&& p.text == s.text
}

pub open spec fn opt_text(o: Option<String>) -> Option<Seq<char>> {
    match o {
        Some(s) => Some(s@),
        None => None,
    }
}

/// Whether `v` holds the text `id`.
pub open spec fn holds(v: Seq<String>, id: Seq<char>) -> bool {
    exists|i: int| 0 <= i < v.len() && #[trigger] v[i]@ == id
}

/// The events an assembly brings back: the recent events taken and every
/// event the taken segments cite.
pub open spec fn brought_back(rows: Seq<Row>, segs: Seq<Segment>, span: Seq<Memevent>, budget: int, id: Seq<char>) -> bool {
    let sums = summaries(rows, segs, span, budget);
    ||| exists|t: int| 0 <= t < recent_taken(span, budget) && #[trigger] span[t].id@ == id
    ||| (hot_index(rows, segs, span, budget) matches Some(h) && cites(segs[h], id))
    ||| exists|t: int| 0 <= t < sums.len() && cites(segs[#[trigger] sums[t]], id)
}

proof fn lemma_greedy_bounds(lens: Seq<nat>, used: int, budget: int)
    ensures
        greedy(lens, used, budget) <= lens.len(),
    decreases lens.len(),
{
    if lens.len() > 0 && fits(used, lens[0] as int, budget) {
        lemma_greedy_bounds(lens.drop_first(), used + lens[0], budget);
    }
}

/// Adds every source of a segment to `selected`.
fn add_sources(selected: &mut Vec<String>, seg: &Segment)
    ensures
        forall|id: Seq<char>| #[trigger] holds(final(selected)@, id) <==> (holds(old(selected)@, id) || cites(*seg, id)),
{
    let mut i: usize = 0;
    while i < seg.sources.len()
        invariant
            i <= seg.sources@.len(),
            forall|id: Seq<char>| #[trigger] holds(selected@, id) <==> (holds(old(selected)@, id)
                || exists|t: int| 0 <= t < i && #[trigger] seg.sources@[t]@ == id),
        decreases seg.sources.len() - i,
    {
        let ghost before = selected@;
        selected.push(seg.sources[i].clone());
        proof {
            assert forall|id: Seq<char>| #[trigger] holds(selected@, id) <==> (holds(old(selected)@, id)
                || exists|t: int| 0 <= t < i + 1 && #[trigger] seg.sources@[t]@ == id) by {
                if holds(selected@, id) {
                    let w = choose|w: int| 0 <= w < selected@.len() && #[trigger] selected@[w]@ == id;
                    if w < before.len() {
                        assert(before[w] == selected@[w]);
                        assert(holds(before, id));
                    } else {
                        assert(seg.sources@[i as int]@ == id);
                    }
                }
                if holds(old(selected)@, id) {
                    assert(holds(before, id));
                    let w = choose|w: int| 0 <= w < before.len() && #[trigger] before[w]@ == id;
                    assert(selected@[w] == before[w]);
                }
                if exists|t: int| 0 <= t < i + 1 && #[trigger] seg.sources@[t]@ == id {
                    let t = choose|t: int| 0 <= t < i + 1 && #[trigger] seg.sources@[t]@ == id;
                    if t < i {
                        assert(holds(before, id));
                        let w = choose|w: int| 0 <= w < before.len() && #[trigger] before[w]@ == id;
                        assert(selected@[w] == before[w]);
                    } else {
                        assert(selected@[before.len() as int]@ == id);
                    }
                }
            }
        }
        i = i + 1;
    }
}

/// Whether the segment cites some event of the tail.
fn cites_tail(seg: &Segment, span: &[Memevent]) -> (r: bool)
    ensures
        r == cites_recent(*seg, span@),
{
    let mut i: usize = 0;
    while i < seg.sources.len()
        invariant
            i <= seg.sources@.len(),
            forall|t: int| 0 <= t < i ==> !has_event(span@, #[trigger] seg.sources@[t]@),
        decreases seg.sources.len() - i,
    {
        let mut k: usize = 0;
        while k < span.len()
            invariant
                i < seg.sources@.len(),
                k <= span@.len(),
                forall|t: int| 0 <= t < k ==> span@[t].id@ != seg.sources@[i as int]@,
            decreases span.len() - k,
        {
            if str_eq(span[k].id.as_str(), seg.sources[i].as_str()) {
                assert(has_event(span@, seg.sources@[i as int]@));
                return true;
            }
            k = k + 1;
        }
        i = i + 1;
    }
    false
}

} // verus!

verus! {

/// The pieces an assembly picks: the recent events that fit, in order;
/// then the hottest segment if it fits; then the summaries taken.
pub open spec fn selection(pieces: Seq<Piece>, span: Seq<Memevent>, segs: Seq<Segment>, rows: Seq<Row>, budget: int) -> bool {
    let rc = recent_taken(span, budget) as int;
    let ht: int = if hot_index(rows, segs, span, budget) is Some { 1 } else { 0 };
    let sums = summaries(rows, segs, span, budget);
    &&& pieces.len() == rc + ht + sums.len()
    &&& forall|k: int| 0 <= k < rc ==> recent_piece(#[trigger] pieces[k], span[k])
    &&& hot_index(rows, segs, span, budget) matches Some(h) ==> segment_piece(pieces[rc], "hot"@, segs[h])
    &&& forall|t: int| 0 <= t < sums.len() ==> segment_piece(#[trigger] pieces[rc + ht + t], "summary"@, segs[sums[t]])
}

/// What an assembly picks from the tail and the cuts: the recent events
/// that fit, then the hottest segment if it fits, then each segment that
/// cites the tail while they fit; and the ids of the events brought back.
pub fn select_pieces(span: &[Memevent], segs: &[Segment], rows: &[Row], budget: usize) -> (r: (Vec<Piece>, Vec<String>))
    ensures
        selection(r.0@, span@, segs@, rows@, budget as int),
        forall|id: Seq<char>| #[trigger] holds(r.1@, id) <==> brought_back(rows@, segs@, span@, budget as int, id),
{
    let ghost lens = content_lens(span@);
    let ghost rc = recent_taken(span@, budget as int) as int;
    let mut pieces: Vec<Piece> = Vec::new();
    let mut used: usize = 0;
    let mut selected: Vec<String> = Vec::new();
    let mut k: usize = 0;
    let mut go = true;
    assert(lens.skip(0) =~= lens);
    while go && k < span.len()
        invariant
            k <= span@.len(),
            lens == content_lens(span@),
            rc == recent_taken(span@, budget as int),
            used <= budget,
            pieces@.len() == k,
            used == total(lens, k as int),
            pieces@.len() == 0 ==> used == 0,
            go ==> rc == k + greedy(lens.skip(k as int), used as int, budget as int),
            !go ==> rc == k,
            forall|t: int| 0 <= t < k ==> recent_piece(#[trigger] pieces@[t], span@[t]),
            forall|id: Seq<char>| #[trigger] holds(selected@, id) <==> exists|t: int| 0 <= t < k && #[trigger] span@[t].id@ == id,
        decreases (span.len() - k) as int + if go { 1int } else { 0int },
    {
        let piece = Piece { kind: "recent", event_id: Some(span[k].id.clone()), segment: None, text: span[k].content.clone() };
        assert(lens.skip(k as int)[0] == lens[k as int]);
        assert(lens.skip(k as int).drop_first() =~= lens.skip(k + 1));
        let ghost before = pieces@;
        if push_piece(&mut pieces, &mut used, budget, piece) {
            let ghost sel_before = selected@;
            selected.push(span[k].id.clone());
            proof {
                assert forall|id: Seq<char>| #[trigger] holds(selected@, id) <==> exists|t: int| 0 <= t < k + 1 && #[trigger] span@[t].id@ == id by {
                    if holds(selected@, id) {
                        let w = choose|w: int| 0 <= w < selected@.len() && #[trigger] selected@[w]@ == id;
                        if w < sel_before.len() {
                            assert(sel_before[w] == selected@[w]);
                            assert(holds(sel_before, id));
                        } else {
                            assert(span@[k as int].id@ == id);
                        }
                    }
                    if exists|t: int| 0 <= t < k + 1 && #[trigger] span@[t].id@ == id {
                        let t = choose|t: int| 0 <= t < k + 1 && #[trigger] span@[t].id@ == id;
                        if t < k {
                            assert(holds(sel_before, id));
                            let w = choose|w: int| 0 <= w < sel_before.len() && #[trigger] sel_before[w]@ == id;
                            assert(selected@[w] == sel_before[w]);
                        } else {
                            assert(selected@[sel_before.len() as int]@ == id);
                        }
                    }
                }
                assert forall|t: int| 0 <= t < k + 1 implies recent_piece(#[trigger] pieces@[t], span@[t]) by {
                    if t < k {
                        assert(pieces@[t] == before[t]);
                    }
                }
            }
            k = k + 1;
        } else {
            go = false;
        }
    }
    proof {
        if go {
            assert(lens.skip(k as int).len() == 0);
        }
    }
    assert(used == after_recent(span@, budget as int));
    let ghost hot = hot_index(rows@, segs@, span@, budget as int);
    let ghost ht: int = if hot is Some { 1 } else { 0 };
    let mut hot_name: Option<String> = None;
    if segs.len() > 0 {
        let h = hottest_index(rows, segs);
        proof { lemma_hottest_first_max(rows@, segs@, segs@.len() as int); }
        let piece = Piece { kind: "hot", event_id: None, segment: Some(segs[h].id.clone()), text: segs[h].text.clone() };
        let ghost before = pieces@;
        if push_piece(&mut pieces, &mut used, budget, piece) {
            hot_name = Some(segs[h].id.clone());
            add_sources(&mut selected, &segs[h]);
            proof {
                assert forall|t: int| 0 <= t < rc implies recent_piece(#[trigger] pieces@[t], span@[t]) by {
                    assert(pieces@[t] == before[t]);
                }
            }
        }
    }
    assert(opt_text(hot_name) == hot_id(rows@, segs@, span@, budget as int)) by {
        if hot_name is Some {
            assert(hot_name->0@ == segs@[hot->0].id@);
        }
    }
    assert(used == after_hot(rows@, segs@, span@, budget as int));
    let ghost sums = summaries(rows@, segs@, span@, budget as int);
    let ghost hid = hot_id(rows@, segs@, span@, budget as int);
    let ghost mut taken: Seq<int> = Seq::empty();
    let ghost base = pieces@;
    let mut j: usize = 0;
    go = true;
    assert(sums == taken + take_summaries(segs@, 0, span@, hid, used as int, budget as int));
    while go && j < segs.len()
        invariant
            j <= segs@.len(),
            hid == opt_text(hot_name),
            sums == summaries(rows@, segs@, span@, budget as int),
            hid == hot_id(rows@, segs@, span@, budget as int),
            used <= budget,
            pieces@.len() > 0 ==> used <= budget,
            pieces@.len() == 0 ==> used == 0,
            pieces@.len() == base.len() + taken.len(),
            base.len() == rc + ht,
            forall|t: int| 0 <= t < base.len() ==> #[trigger] pieces@[t] == base[t],
            forall|t: int| 0 <= t < taken.len() ==> 0 <= #[trigger] taken[t] < segs@.len(),
            forall|t: int| 0 <= t < taken.len() ==> segment_piece(#[trigger] pieces@[base.len() + t], "summary"@, segs@[taken[t]]),
            go ==> sums == taken + take_summaries(segs@, j as int, span@, hid, used as int, budget as int),
            !go ==> sums == taken,
            forall|id: Seq<char>| #[trigger] holds(selected@, id) <==> (
                (exists|t: int| 0 <= t < rc && #[trigger] span@[t].id@ == id)
                || (hot matches Some(h) && cites(segs@[h], id))
                || (exists|t: int| 0 <= t < taken.len() && cites(segs@[#[trigger] taken[t]], id))),
        decreases (segs.len() - j) as int + if go { 1int } else { 0int },
    {
        let candidate = cites_tail(&segs[j], span) && match &hot_name {
            Some(x) => !str_eq(x.as_str(), segs[j].id.as_str()),
            None => true,
        };
        assert(candidate == summary_candidate(segs@[j as int], span@, hid));
        if candidate {
            let piece = Piece { kind: "summary", event_id: None, segment: Some(segs[j].id.clone()), text: segs[j].text.clone() };
            let ghost before = pieces@;
            let ghost used0 = used as int;
            if push_piece(&mut pieces, &mut used, budget, piece) {
                let ghost sel_before = selected@;
                add_sources(&mut selected, &segs[j]);
                proof {
                    let old_taken = taken;
                    taken = taken.push(j as int);
                    assert(take_summaries(segs@, j as int, span@, hid, used0, budget as int)
                        == seq![j as int] + take_summaries(segs@, j + 1, span@, hid, used as int, budget as int));
                    assert(sums =~= taken + take_summaries(segs@, j + 1, span@, hid, used as int, budget as int));
                    assert forall|t: int| 0 <= t < base.len() implies #[trigger] pieces@[t] == base[t] by {
                        assert(pieces@[t] == before[t]);
                    }
                    assert forall|t: int| 0 <= t < taken.len() implies segment_piece(#[trigger] pieces@[base.len() + t], "summary"@, segs@[taken[t]]) by {
                        if t < old_taken.len() {
                            assert(pieces@[base.len() + t] == before[base.len() + t]);
                            assert(taken[t] == old_taken[t]);
                        }
                    }
                    assert forall|id: Seq<char>| #[trigger] holds(selected@, id) <==> (
                        (exists|t: int| 0 <= t < rc && #[trigger] span@[t].id@ == id)
                        || (hot matches Some(h) && cites(segs@[h], id))
                        || (exists|t: int| 0 <= t < taken.len() && cites(segs@[#[trigger] taken[t]], id))) by {
                        if exists|t: int| 0 <= t < taken.len() && cites(segs@[#[trigger] taken[t]], id) {
                            let t = choose|t: int| 0 <= t < taken.len() && cites(segs@[#[trigger] taken[t]], id);
                            if t < old_taken.len() {
                                assert(old_taken[t] == taken[t]);
                            }
                        }
                        if exists|t: int| 0 <= t < old_taken.len() && cites(segs@[#[trigger] old_taken[t]], id) {
                            let t = choose|t: int| 0 <= t < old_taken.len() && cites(segs@[#[trigger] old_taken[t]], id);
                            assert(old_taken[t] == taken[t]);
                        }
                        if cites(segs@[j as int], id) {
                            assert(taken[old_taken.len() as int] == j);
                        }
                    }
                }
                j = j + 1;
            } else {
                go = false;
            }
        } else {
            assert(take_summaries(segs@, j as int, span@, hid, used as int, budget as int)
                == take_summaries(segs@, j + 1, span@, hid, used as int, budget as int));
            j = j + 1;
        }
    }
    proof {
        if go {
            assert(take_summaries(segs@, j as int, span@, hid, used as int, budget as int).len() == 0);
            assert(sums =~= taken);
        }
        assert forall|t: int| 0 <= t < sums.len() implies segment_piece(#[trigger] pieces@[rc + ht + t], "summary"@, segs@[sums[t]]) by {
            assert(taken[t] == sums[t]);
        }
        assert forall|k: int| 0 <= k < rc implies recent_piece(#[trigger] pieces@[k], span@[k]) by {
            assert(pieces@[k] == base[k]);
        }
        if hot is Some {
            assert(pieces@[rc] == base[rc]);
        }
        assert forall|id: Seq<char>| #[trigger] holds(selected@, id) <==> brought_back(rows@, segs@, span@, budget as int, id) by {
            if exists|t: int| 0 <= t < sums.len() && cites(segs@[#[trigger] sums[t]], id) {
                let t = choose|t: int| 0 <= t < sums.len() && cites(segs@[#[trigger] sums[t]], id);
                assert(taken[t] == sums[t]);
            }
            if exists|t: int| 0 <= t < taken.len() && cites(segs@[#[trigger] taken[t]], id) {
                let t = choose|t: int| 0 <= t < taken.len() && cites(segs@[#[trigger] taken[t]], id);
                assert(taken[t] == sums[t]);
            }
        }
    }
    (pieces, selected)
}

} // verus!

verus! {

/// Every row brought back counts once more; nothing else changes.
pub open spec fn bumped(before: Seq<Row>, after: Seq<Row>, brought: spec_fn(Seq<char>) -> bool) -> bool {
    &&& after.len() == before.len()
    &&& forall|k: int| 0 <= k < after.len() ==> {
        &&& #[trigger] after[k].event_id == before[k].event_id
        &&& after[k].segment == before[k].segment
        &&& after[k].weak == before[k].weak + if brought(before[k].event_id@) { 1int } else { 0int }
    }
}

/// Counts each row whose event is in `selected` once more.
pub fn bump_rows(rows: Vec<Row>, selected: &Vec<String>) -> (r: Vec<Row>)
    requires
        forall|k: int| 0 <= k < rows@.len() && holds(selected@, #[trigger] rows@[k].event_id@) ==> rows@[k].weak < u64::MAX,
    ensures
        bumped(rows@, r@, |id: Seq<char>| holds(selected@, id)),
{
    let mut out: Vec<Row> = Vec::new();
    let mut k: usize = 0;
    while k < rows.len()
        invariant
            k <= rows@.len(),
            forall|t: int| 0 <= t < rows@.len() && holds(selected@, #[trigger] rows@[t].event_id@) ==> rows@[t].weak < u64::MAX,
            out@.len() == k,
            forall|t: int| 0 <= t < k ==> {
                &&& #[trigger] out@[t].event_id == rows@[t].event_id
                &&& out@[t].segment == rows@[t].segment
                &&& out@[t].weak == rows@[t].weak + if holds(selected@, rows@[t].event_id@) { 1int } else { 0int }
            },
        decreases rows.len() - k,
    {
        let mut hit = false;
        let mut i: usize = 0;
        while i < selected.len()
            invariant
                k < rows@.len(),
                i <= selected@.len(),
                hit == exists|t: int| 0 <= t < i && #[trigger] selected@[t]@ == rows@[k as int].event_id@,
            decreases selected.len() - i,
        {
            if str_eq(selected[i].as_str(), rows[k].event_id.as_str()) {
                hit = true;
            }
            i = i + 1;
        }
        let mut row = rows[k].clone();
        if hit {
            row.weak = row.weak + 1;
        }
        out.push(row);
        k = k + 1;
    }
    out
}

/// The assembly after sync: what the selection picks from the tail and
/// the cuts, and the synced index with the brought-back rows counted.
pub open spec fn continued(a: Assembly, out: Seq<Row>, idx: Seq<Row>, events: Seq<Memevent>, segs: Seq<Segment>, budget: int) -> bool {
    let span = events.subrange(cut_start(events), events.len() as int);
    &&& selection(a.context@, span, segs, idx, budget)
    &&& bumped(idx, out, |id: Seq<char>| brought_back(idx, segs, span, budget, id))
}

/// Every row of the synced index that a continued assembly brings back
/// can be counted once more.
pub open spec fn counts_have_room(rows: Seq<Row>, events: Seq<Memevent>, segs: Seq<Segment>, budget: int) -> bool {
    let span = events.subrange(cut_start(events), events.len() as int);
    forall|idx: Seq<Row>, k: int|
        #![trigger synced_index(rows, events, idx), idx[k]]
        synced_index(rows, events, idx) && 0 <= k < idx.len() && brought_back(idx, segs, span, budget, idx[k].event_id@)
            ==> idx[k].weak < u64::MAX
}

/// Assembles a session's context. An independent task gets the prompt
/// and config alone and leaves the index as it was; a continued one gets
/// the recent tail, the hottest cut and the summaries of the tail within
/// `budget` bytes, and the index, synced with the tape, counts every
/// event brought back once more.
pub fn assemble(
    prompt: String,
    config: String,
    mode: AssembleMode,
    events: &[Memevent],
    rows: Vec<Row>,
    segments: &[Segment],
    budget: usize,
) -> (r: (Assembly, Option<Vec<Row>>))
    requires
        mode == AssembleMode::Continue ==> counts_have_room(rows@, events@, segments@, budget as int),
    ensures
        r.0.prompt == prompt,
        r.0.config == config,
        mode == AssembleMode::Independent ==> r.0.context@.len() == 0 && r.1 is None,
        mode == AssembleMode::Continue ==> (r.1 matches Some(out) && exists|idx: Seq<Row>| #[trigger] synced_index(rows@, events@, idx)
            && continued(r.0, out@, idx, events@, segments@, budget as int)),
{
    if mode == AssembleMode::Independent {
        return (Assembly { prompt, config, context: Vec::new() }, None);
    }
    let ghost rows_view = rows@;
    let idx = sync_rows(events, rows);
    let span = uncompressed(events);
    let (pieces, selected) = select_pieces(span, segments, idx.as_slice(), budget);
    let ghost idx_view = idx@;
    proof {
        let s = events@.subrange(cut_start(events@), events@.len() as int);
        assert(span@ == s);
        assert forall|k: int| 0 <= k < idx_view.len() && holds(selected@, #[trigger] idx_view[k].event_id@) implies idx_view[k].weak < u64::MAX by {
            assert(brought_back(idx_view, segments@, s, budget as int, idx_view[k].event_id@));
            assert(synced_index(rows_view, events@, idx_view));
        }
    }
    let out = bump_rows(idx, &selected);
    let a = Assembly { prompt, config, context: pieces };
    proof {
        let s = events@.subrange(cut_start(events@), events@.len() as int);
        assert(span@ == s);
        assert(bumped(idx_view, out@, |id: Seq<char>| brought_back(idx_view, segments@, s, budget as int, id)));
        assert(continued(a, out@, idx_view, events@, segments@, budget as int));
    }
    (a, Some(out))
}

} // verus!

verus! {

/// The segment whose rows cite `id` once the index is rebuilt: the last
/// segment that cites it.
pub open spec fn citing(segs: Seq<Segment>, id: Seq<char>) -> Option<Seq<char>>
    decreases segs.len(),
{
    if segs.len() == 0 {
        None
    } else if cites(segs.last(), id) {
        Some(segs.last().id@)
    } else {
        citing(segs.drop_last(), id)
    }
}

/// A rebuilt index: one fresh row per event, in tape order, each naming
/// the segment that cites its event.
pub open spec fn rebuilt(events: Seq<Memevent>, segs: Seq<Segment>, rows: Seq<Row>) -> bool {
    &&& rows.len() == events.len()
    &&& forall|k: int| 0 <= k < rows.len() ==> {
        &&& #[trigger] rows[k].event_id == events[k].id
        &&& rows[k].weak == 0
        &&& opt_text(rows[k].segment) == citing(segs, events[k].id@)
    }
}

/// Whether the segment cites `id`.
fn seg_cites(seg: &Segment, id: &str) -> (r: bool)
    ensures
        r == cites(*seg, id@),
{
    let mut i: usize = 0;
    while i < seg.sources.len()
        invariant
            i <= seg.sources@.len(),
            forall|t: int| 0 <= t < i ==> #[trigger] seg.sources@[t]@ != id@,
        decreases seg.sources.len() - i,
    {
        if str_eq(seg.sources[i].as_str(), id) {
            return true;
        }
        i = i + 1;
    }
    false
}

/// The id of the last segment citing `id`.
fn citing_segment(segs: &[Segment], id: &str) -> (r: Option<String>)
    ensures
        opt_text(r) == citing(segs@, id@),
{
    let mut j = segs.len();
    assert(segs@.subrange(0, j as int) =~= segs@);
    while j > 0
        invariant
            j <= segs@.len(),
            citing(segs@, id@) == citing(segs@.subrange(0, j as int), id@),
        decreases j,
    {
        let ghost pre = segs@.subrange(0, j as int);
        assert(pre.last() == segs@[j - 1]);
        assert(pre.drop_last() =~= segs@.subrange(0, j - 1));
        if seg_cites(&segs[j - 1], id) {
            return Some(segs[j - 1].id.clone());
        }
        j = j - 1;
    }
    None
}

/// The index rebuilt from the tape and the cuts.
pub fn rebuild_index(events: &[Memevent], segs: &[Segment]) -> (r: Vec<Row>)
    ensures
        rebuilt(events@, segs@, r@),
{
    let mut out: Vec<Row> = Vec::new();
    let mut k: usize = 0;
    while k < events.len()
        invariant
            k <= events@.len(),
            out@.len() == k,
            forall|t: int| 0 <= t < k ==> {
                &&& #[trigger] out@[t].event_id == events@[t].id
                &&& out@[t].weak == 0
                &&& opt_text(out@[t].segment) == citing(segs@, events@[t].id@)
            },
        decreases events.len() - k,
    {
        let segment = citing_segment(segs, events[k].id.as_str());
        let ghost before = out@;
        out.push(Row { event_id: events[k].id.clone(), weak: 0, segment });
        assert forall|t: int| 0 <= t < k + 1 implies {
            &&& #[trigger] out@[t].event_id == events@[t].id
            &&& out@[t].weak == 0
            &&& opt_text(out@[t].segment) == citing(segs@, events@[t].id@)
        } by {
            if t < k {
                assert(out@[t] == before[t]);
            }
        }
        k = k + 1;
    }
    out
}

/// A rebuilt index names a citing segment for every event that some cut
/// cites.
pub proof fn lemma_rebuild_keeps_citations(events: Seq<Memevent>, segs: Seq<Segment>, rows: Seq<Row>, j: int, k: int)
    requires
        rebuilt(events, segs, rows),
        0 <= j < segs.len(),
        0 <= k < events.len(),
        cites(segs[j], events[k].id@),
    ensures
        rows[k].segment is Some,
{
    lemma_citing_found(segs, events[k].id@, j);
    assert(rows[k].event_id == events[k].id);
}

proof fn lemma_citing_found(segs: Seq<Segment>, id: Seq<char>, j: int)
    requires
        0 <= j < segs.len(),
        cites(segs[j], id),
    ensures
        citing(segs, id) is Some,
    decreases segs.len(),
{
    if j < segs.len() - 1 && !cites(segs.last(), id) {
        assert(segs.drop_last()[j] == segs[j]);
        lemma_citing_found(segs.drop_last(), id, j);
    }
}

} // verus!

verus! {

/// The sources comment of one cut section: the event, contributing all.
pub open spec fn sources_json(id: Seq<char>) -> Seq<char> {
    "[{\"contribution\":1.0,\"event_id\":"@ + json_quoted(id) + "}]"@
}

/// Section `i` of a cut: a heading, the sources comment and the event text.
pub open spec fn section(i: nat, e: Memevent) -> Seq<char> {
    "## s"@ + decimal(i) + "\n<!-- "@ + sources_json(e.id@) + " -->\n"@ + e.content@ + "\n\n"@
}

pub open spec fn sections(span: Seq<Memevent>, n: int) -> Seq<char>
    decreases n,
{
    if n <= 0 { Seq::empty() } else { sections(span, n - 1) + section((n - 1) as nat, span[n - 1]) }
}

/// The markdown of a cut: a title, then one section per event.
pub open spec fn cut_text(span: Seq<Memevent>) -> Seq<char> {
    "# cut\n\n"@ + sections(span, span.len() as int)
}

/// Ids as a JSON list of strings.
pub open spec fn json_ids(span: Seq<Memevent>, n: int) -> Seq<char>
    decreases n,
{
    if n <= 0 {
        Seq::empty()
    } else if n == 1 {
        json_quoted(span[0].id@)
    } else {
        json_ids(span, n - 1) + ","@ + json_quoted(span[n - 1].id@)
    }
}

/// The text of the compress action: the cited events and the cut's hash.
pub open spec fn cut_record(span: Seq<Memevent>, sha: Seq<char>) -> Seq<char> {
    "{\"events\":["@ + json_ids(span, span.len() as int) + "],\"md_sha256\":"@ + json_quoted(sha) + "}"@
}

/// The markdown body of a cut of `span`.
pub fn cut_body(span: &[Memevent]) -> (r: String)
    ensures
        r@ == cut_text(span@),
{
    let mut out: Vec<char> = Vec::new();
    push_str(&mut out, "# cut\n\n");
    let mut i: usize = 0;
    while i < span.len()
        invariant
            i <= span@.len(),
            out@ == "# cut\n\n"@ + sections(span@, i as int),
        decreases span.len() - i,
    {
        let ghost before = out@;
        push_str(&mut out, "## s");
        push_decimal(i as u64, &mut out);
        push_str(&mut out, "\n<!-- ");
        push_str(&mut out, "[{\"contribution\":1.0,\"event_id\":");
        let q = quote_json(span[i].id.as_str());
        push_str(&mut out, q.as_str());
        push_str(&mut out, "}]");
        push_str(&mut out, " -->\n");
        push_str(&mut out, span[i].content.as_str());
        push_str(&mut out, "\n\n");
        assert(out@ =~= before + section(i as nat, span@[i as int]));
        i = i + 1;
    }
    string_of(out.as_slice())
}

/// The hash of a cut body and the file it is stored under.
pub fn cut_name(body: &str) -> (r: (String, String))
    ensures
        r.0@ == hex_of(sha256(utf8_bytes(body@))),
        r.0@.len() == 64,
        r.1@ == r.0@ + ".md"@,
{
    let digest = sha256_digest(body.as_bytes());
    let sha = hex(&digest);
    let name = concat2(sha.as_str(), ".md");
    (sha, name)
}

/// The ids of the events of a span, in order.
pub fn ids_of(span: &[Memevent]) -> (r: Vec<String>)
    ensures
        r@.len() == span@.len(),
        forall|k: int| 0 <= k < r@.len() ==> #[trigger] r@[k] == span@[k].id,
{
    let mut out: Vec<String> = Vec::new();
    let mut k: usize = 0;
    while k < span.len()
        invariant
            k <= span@.len(),
            out@.len() == k,
            forall|t: int| 0 <= t < k ==> #[trigger] out@[t] == span@[t].id,
        decreases span.len() - k,
    {
        out.push(span[k].id.clone());
        k = k + 1;
    }
    out
}

/// `r` is the compress action recording a cut of `span` stored as `sha`,
/// anchored on `anchor`: from the anchor's author and session, tagged
/// `compress`, citing each event of the span in order.
pub open spec fn is_cut_event(r: AppendEvent, anchor: Memevent, span: Seq<Memevent>, sha: Seq<char>) -> bool {
    &&& r.from == anchor.from
    &&& r.from_kind == FromKind::Agent
    &&& r.kind == Kind::Action
    &&& r.session@ == match anchor.session { Some(s) => s@, None => Seq::empty() }
    &&& r.content@ == cut_record(span, sha)
    &&& r.tags@.len() == 1 && r.tags@[0]@ == "compress"@
    &&& r.refs@.len() == span.len()
    &&& forall|k: int| 0 <= k < r.refs@.len() ==> #[trigger] r.refs@[k] == span[k].id
    &&& r.act is None
}

/// The compress action that records a cut of `span` stored as `sha`.
pub fn cut_event(anchor: &Memevent, span: &[Memevent], sha: &str) -> (r: AppendEvent)
    ensures
        is_cut_event(r, *anchor, span@, sha@),
{
    let mut out: Vec<char> = Vec::new();
    push_str(&mut out, "{\"events\":[");
    let mut i: usize = 0;
    while i < span.len()
        invariant
            i <= span@.len(),
            out@ == "{\"events\":["@ + json_ids(span@, i as int),
        decreases span.len() - i,
    {
        let ghost before = out@;
        if i > 0 {
            push_str(&mut out, ",");
        }
        let q = quote_json(span[i].id.as_str());
        push_str(&mut out, q.as_str());
        assert(out@ =~= "{\"events\":["@ + json_ids(span@, i + 1));
        i = i + 1;
    }
    push_str(&mut out, "],\"md_sha256\":");
    let q = quote_json(sha);
    push_str(&mut out, q.as_str());
    push_str(&mut out, "}");
    let mut tags: Vec<String> = Vec::new();
    tags.push("compress".to_owned());
    AppendEvent {
        from: anchor.from.clone(),
        from_kind: FromKind::Agent,
        kind: Kind::Action,
        session: match &anchor.session { Some(s) => s.clone(), None => String::new() },
        content: string_of(out.as_slice()),
        tags,
        refs: ids_of(span),
        act: None,
    }
}

/// A cut of a tape's uncompressed tail: the markdown body, the hex SHA-256
/// of its bytes, the file name it is stored under, and the compress
/// action that records it.
pub struct Cut {
    pub body: String,
    pub sha: String,
    pub name: String,
    pub event: AppendEvent,
}

/// Cuts the uncompressed tail of `events`, anchored on its last event;
/// `Empty` when nothing follows the last cut.
pub fn cut_of(events: &[Memevent]) -> (r: Result<Cut, ContextError>)
    ensures
        ({
            let span = events@.subrange(cut_start(events@), events@.len() as int);
            &&& span.len() == 0 ==> r == Err::<Cut, ContextError>(ContextError::Empty)
            &&& span.len() > 0 ==> (r matches Ok(c) && {
                &&& c.body@ == cut_text(span)
                &&& c.sha@ == hex_of(sha256(utf8_bytes(c.body@)))
                &&& c.sha@.len() == 64
                &&& c.name@ == c.sha@ + ".md"@
                &&& is_cut_event(c.event, span.last(), span, c.sha@)
            })
        }),
{
    let span = uncompressed(events);
    if span.len() == 0 {
        return Err(ContextError::Empty);
    }
    let anchor = &span[span.len() - 1];
    let body = cut_body(span);
    let (sha, name) = cut_name(body.as_str());
    let event = cut_event(anchor, span, sha.as_str());
    Ok(Cut { body, sha, name, event })
}

/// Once a cut is on the tape nothing follows the last cut: a length check
/// right after it answers no, and another cut is refused as empty. The
/// tape stores an append with the tags it was given.
pub proof fn lemma_cut_closes_the_tail(events: Seq<Memevent>, c: AppendEvent, e: Memevent)
    requires
        c.tags@.len() == 1 && c.tags@[0]@ == "compress"@,
        e.tags == c.tags,
    ensures
        events.push(e).subrange(cut_start(events.push(e)), events.push(e).len() as int).len() == 0,
{
    assert(e.tags@[0]@ == "compress"@);
    assert(is_compress(e));
    assert(events.push(e).last() == e);
}

/// The utterance that records a user summary, anchored on the session's
/// last event; `Empty` when the session has no events.
pub fn record_summary(prior: &[Memevent], text: &str) -> (r: Result<AppendEvent, ContextError>)
    ensures
        prior@.len() == 0 <==> r == Err::<AppendEvent, ContextError>(ContextError::Empty),
        r matches Ok(e) ==> {
            let anchor = prior@.last();
            &&& e.from == anchor.from
            &&& e.from_kind == anchor.from_kind
            &&& e.kind == Kind::Utterance
            &&& e.session@ == match anchor.session { Some(s) => s@, None => Seq::empty() }
            &&& e.content@ == text@
            &&& e.tags@.len() == 1 && e.tags@[0]@ == "summary"@
            &&& e.refs@.len() == 0
            &&& e.act is None
        },
{
    if prior.len() == 0 {
        return Err(ContextError::Empty);
    }
    let anchor = &prior[prior.len() - 1];
    let mut tags: Vec<String> = Vec::new();
    tags.push("summary".to_owned());
    Ok(AppendEvent {
        from: anchor.from.clone(),
        from_kind: anchor.from_kind,
        kind: Kind::Utterance,
        session: match &anchor.session { Some(s) => s.clone(), None => String::new() },
        content: text.to_owned(),
        tags,
        refs: Vec::new(),
        act: None,
    })
}

/// The bytes of the first `n` events' texts.
pub open spec fn span_text_len(span: Seq<Memevent>, n: int) -> int
    decreases n,
{
    if n <= 0 { 0 } else { span_text_len(span, n - 1) + text_len(span[n - 1].content@) }
}

/// Whether the uncompressed tail of a session is long enough to cut: not
/// empty, and its texts take at least `max_chars` bytes.
pub fn cut_if_long(events: &[Memevent], max_chars: usize) -> (r: bool)
    ensures
        ({
            let span = events@.subrange(cut_start(events@), events@.len() as int);
            r == (span.len() > 0 && span_text_len(span, span.len() as int) >= max_chars)
        }),
{
    let span = uncompressed(events);
    let mut n: usize = 0;
    let mut i: usize = 0;
    while i < span.len()
        invariant
            i <= span@.len(),
            n == if span_text_len(span@, i as int) > usize::MAX { usize::MAX as int } else { span_text_len(span@, i as int) },
            span_text_len(span@, i as int) >= 0,
        decreases span.len() - i,
    {
        n = n.saturating_add(span[i].content.as_str().len());
        i = i + 1;
    }
    !(n < max_chars || span.len() == 0)
}

} // verus!

verus! {

/// Errors of the context's own logic.
#[derive(Debug, Clone, Copy, PartialEq, Eq, Structural)]
pub enum ContextError {
    /// The session has no events to anchor on, or the tail is empty.
    Empty,
    /// A cut section names no sources.
    BadMd,
}

/// A section read back from a cut: its id, its trimmed text and the raw
/// JSON of its sources comment.
#[derive(Debug)]
pub struct CutSection {
    pub id: String,
    pub text: String,
    pub sources: String,
}

pub struct MdState {
    pub open: Option<(Seq<char>, Seq<char>)>,
    pub body: Seq<char>,
    pub done: Seq<(Seq<char>, Seq<char>, Seq<char>)>,
}

pub open spec fn starts(s: Seq<char>, p: Seq<char>) -> bool {
    p.len() <= s.len() && s.subrange(0, p.len() as int) == p
}

pub open spec fn ends(s: Seq<char>, p: Seq<char>) -> bool {
    p.len() <= s.len() && s.subrange(s.len() - p.len(), s.len() as int) == p
}

/// The sections read so far, with the open one closed.
pub open spec fn closed(st: MdState) -> Seq<(Seq<char>, Seq<char>, Seq<char>)> {
    match st.open {
        Some((id, src)) => st.done.push((id, trim(st.body), src)),
        None => st.done,
    }
}

/// One line of a cut: a `## ` heading opens a section named
/// `<file>#<heading>`; a `<!-- ... -->` line sets the open section's
/// sources; any other line inside a section adds to its text.
pub open spec fn md_step(st: MdState, line: Seq<char>, file: Seq<char>) -> MdState {
    if starts(line, "## "@) {
        MdState { open: Some((file + "#"@ + line.skip(3), Seq::empty())), body: Seq::empty(), done: closed(st) }
    } else if starts(line, "<!-- "@) && ends(line.skip(5), " -->"@) {
        match st.open {
            Some((id, _)) => MdState { open: Some((id, line.subrange(5, line.len() - 4))), body: st.body, done: st.done },
            None => st,
        }
    } else if st.open is Some {
        MdState { open: st.open, body: st.body + line + "\n"@, done: st.done }
    } else {
        st
    }
}

pub open spec fn md_fold(ls: Seq<Seq<char>>, file: Seq<char>) -> MdState
    decreases ls.len(),
{
    if ls.len() == 0 {
        MdState { open: None, body: Seq::empty(), done: Seq::empty() }
    } else {
        md_step(md_fold(ls.drop_last(), file), ls.last(), file)
    }
}

/// The sections of a cut file.
pub open spec fn md_sections(text: Seq<char>, file: Seq<char>) -> Seq<(Seq<char>, Seq<char>, Seq<char>)> {
    closed(md_fold(lines(text), file))
}

pub open spec fn section_view(s: CutSection) -> (Seq<char>, Seq<char>, Seq<char>) {
    (s.id@, s.text@, s.sources@)
}

/// Reads the sections of a cut file named `file`. A section whose
/// sources comment is missing or empty makes the file bad.
pub fn parse_md(text: &str, file: &str) -> (r: Result<Vec<CutSection>, ContextError>)
    ensures
        r is Err <==> exists|k: int| 0 <= k < md_sections(text@, file@).len() && (#[trigger] md_sections(text@, file@)[k]).2.len() == 0,
        r matches Err(e) ==> e == ContextError::BadMd,
        r matches Ok(v) ==> v@.map_values(|s: CutSection| section_view(s)) == md_sections(text@, file@),
{
    let cs = chars_of(text);
    let ls = lines_of(cs.as_slice());
    let fcs = chars_of(file);
    let mut open_id: Option<String> = None;
    let mut open_src: Vec<char> = Vec::new();
    let mut body: Vec<char> = Vec::new();
    let mut done: Vec<CutSection> = Vec::new();
    let ghost file_v = file@;
    let mut i: usize = 0;
    while i < ls.len()
        invariant
            i <= ls@.len(),
            strings_of(ls@) == lines(text@),
            fcs@ == file@,
            ({
                let st = md_fold(strings_of(ls@).subrange(0, i as int), file@);
                &&& st.open == match open_id { Some(x) => Some((x@, open_src@)), None => None::<(Seq<char>, Seq<char>)> }
                &&& st.body == body@
                &&& st.done == done@.map_values(|s: CutSection| section_view(s))
            }),
        decreases ls.len() - i,
    {
        let ghost pre = strings_of(ls@).subrange(0, i as int);
        assert(strings_of(ls@).subrange(0, i + 1).drop_last() =~= pre);
        assert(strings_of(ls@).subrange(0, i + 1).last() == ls@[i as int]@);
        let line = chars_of(ls[i].as_str());
        let heading = has_prefix(line.as_slice(), &['#', '#', ' ']);
        assert(seq!['#', '#', ' '] == "## "@) by { reveal_strlit("## "); }
        if heading {
            match open_id {
                Some(id) => {
                    let ghost before = done@;
                    let t = trim_chars(body.as_slice());
                    done.push(CutSection { id, text: t, sources: string_of(open_src.as_slice()) });
                    assert(done@.map_values(|s: CutSection| section_view(s)) =~= before.map_values(|s: CutSection| section_view(s)).push(section_view(done@.last())));
                },
                None => {},
            }
            let mut name: Vec<char> = Vec::new();
            let mut k: usize = 0;
            while k < fcs.len()
                invariant
                    k <= fcs@.len(),
                    name@ == fcs@.subrange(0, k as int),
                decreases fcs.len() - k,
            {
                name.push(fcs[k]);
                assert(name@ =~= fcs@.subrange(0, k + 1));
                k = k + 1;
            }
            name.push('#');
            let ghost base = name@;
            let mut k: usize = 3;
            while k < line.len()
                invariant
                    3 <= k <= line@.len(),
                    name@ == base + line@.subrange(3, k as int),
                decreases line.len() - k,
            {
                name.push(line[k]);
                assert(name@ =~= base + line@.subrange(3, k + 1));
                k = k + 1;
            }
            assert(name@ =~= file@ + "#"@ + line@.skip(3)) by {
                reveal_strlit("#");
                assert(fcs@.subrange(0, fcs@.len() as int) =~= fcs@);
            }
            open_id = Some(string_of(name.as_slice()));
            open_src = Vec::new();
            body = Vec::new();
        } else {
            let comment = has_prefix(line.as_slice(), &['<', '!', '-', '-', ' ']);
            assert(seq!['<', '!', '-', '-', ' '] == "<!-- "@) by { reveal_strlit("<!-- "); }
            assert(seq![' ', '-', '-', '>'] == " -->"@) by { reveal_strlit(" -->"); }
            let mut closing = false;
            if comment {
                let mut rest: Vec<char> = Vec::new();
                let mut k: usize = 5;
                while k < line.len()
                    invariant
                        5 <= k <= line@.len(),
                        rest@ == line@.subrange(5, k as int),
                    decreases line.len() - k,
                {
                    rest.push(line[k]);
                    assert(rest@ =~= line@.subrange(5, k + 1));
                    k = k + 1;
                }
                assert(rest@ =~= line@.skip(5));
                closing = has_suffix(rest.as_slice(), &[' ', '-', '-', '>']);
            }
            if comment && closing {
                if open_id.is_some() {
                    let mut src: Vec<char> = Vec::new();
                    let mut k: usize = 5;
                    while k < line.len() - 4
                        invariant
                            5 <= k <= line@.len() - 4,
                            src@ == line@.subrange(5, k as int),
                        decreases line.len() - 4 - k,
                    {
                        src.push(line[k]);
                        assert(src@ =~= line@.subrange(5, k + 1));
                        k = k + 1;
                    }
                    open_src = src;
                }
            } else if open_id.is_some() {
                let ghost b0 = body@;
                let mut k: usize = 0;
                while k < line.len()
                    invariant
                        k <= line@.len(),
                        body@ == b0 + line@.subrange(0, k as int),
                    decreases line.len() - k,
                {
                    body.push(line[k]);
                    assert(body@ =~= b0 + line@.subrange(0, k + 1));
                    k = k + 1;
                }
                body.push('\n');
                assert(body@ =~= b0 + line@ + "\n"@) by {
                    reveal_strlit("\n");
                    assert(line@.subrange(0, line@.len() as int) =~= line@);
                }
            }
        }
        i = i + 1;
    }
    assert(strings_of(ls@).subrange(0, ls@.len() as int) =~= lines(text@));
    match open_id {
        Some(id) => {
            let ghost before = done@;
            let t = trim_chars(body.as_slice());
            done.push(CutSection { id, text: t, sources: string_of(open_src.as_slice()) });
            assert(done@.map_values(|s: CutSection| section_view(s)) =~= before.map_values(|s: CutSection| section_view(s)).push(section_view(done@.last())));
        },
        None => {},
    }
    let ghost secs = md_sections(text@, file@);
    assert(done@.map_values(|s: CutSection| section_view(s)) == secs);
    let mut k: usize = 0;
    while k < done.len()
        invariant
            k <= done@.len(),
            secs == md_sections(text@, file@),
            done@.map_values(|s: CutSection| section_view(s)) == secs,
            forall|t: int| 0 <= t < k ==> (#[trigger] secs[t]).2.len() > 0,
        decreases done.len() - k,
    {
        assert(secs[k as int] == section_view(done@[k as int]));
        if done[k].sources.as_str().is_empty() {
            assert(secs[k as int].2.len() == 0);
            assert(md_sections(text@, file@)[k as int].2.len() == 0);
            return Err(ContextError::BadMd);
        }
        k = k + 1;
    }
    Ok(done)
}

} // verus!
