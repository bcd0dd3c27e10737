//! The steward's decisions that do not need its runtime: how a turn's
//! mail arrives, what a child product points at, and which seats a
//! session's tape restores.
use vstd::prelude::*;

use crate::workplace::id::{hex, hex_of, sha256, sha256_digest};
use crate::workplace::resource::{parse_uuid, uuid_parsed, uuid_string, uuid_text};
use crate::json::{json_quoted, json_string_fields, quote_json, string_fields, texts_of};
use crate::instance::context::{has_tag, tagged};
use crate::memstream::event::Memevent;
use crate::text::{push_str, str_eq, string_of};
use crate::act::sentence::{ActSentence, BareFile};
use crate::act::tag::Permit;
use crate::principal::card::{AgentCard, ToolGrant};

verus! {

#[derive(Debug, Clone, Copy, PartialEq, Eq, Structural)]
pub enum Arrival {
    /// Mail to the worker that already holds the turn.
    Steered,
    /// Held on the steward until the pool is idle.
    Queued,
}

#[derive(Debug, Clone, Copy, PartialEq, Eq, Structural)]
pub enum TurnKind {
    Work,
    Collect,
}

/// Where submitted work goes: straight to a worker whose turn is running,
/// else onto the steward's queue.
pub fn arrival(worker_running: bool) -> (r: Arrival)
    ensures
        r == if worker_running { Arrival::Steered } else { Arrival::Queued },
{
    if worker_running { Arrival::Steered } else { Arrival::Queued }
}

/// Pointers to a child product. Bodies stay in the child session.
#[derive(Debug, PartialEq, Eq)]
pub struct ProductPtr {
    pub child_session: String,
    pub tape_sha256: String,
    pub md_sha256: Option<String>,
    pub tree_id: Option<String>,
    pub subwp_sha256: Option<String>,
}

impl ProductPtr {
    /// Points at a child session's product by the hash of its tape bytes.
    pub fn from_tape_file(
        child_session: String,
        tape: &[u8],
        md_sha256: Option<String>,
        tree_id: Option<String>,
        subwp_sha256: Option<String>,
    ) -> (r: Self)
        ensures
            r.child_session == child_session,
            r.tape_sha256@ == hex_of(sha256(tape@)),
            r.tape_sha256@.len() == 64,
            r.md_sha256 == md_sha256,
            r.tree_id == tree_id,
            r.subwp_sha256 == subwp_sha256,
    {
        let digest = sha256_digest(tape);
        ProductPtr { child_session, tape_sha256: hex(&digest), md_sha256, tree_id, subwp_sha256 }
    }
}

/// A seat as the steward's tape restores it.
#[derive(Debug, PartialEq, Eq)]
pub struct RestoredSeat {
    pub id: u128,
    pub parent: u128,
    pub lite: bool,
    pub subwp: Option<String>,
}

impl Clone for RestoredSeat {
    fn clone(&self) -> (r: Self)
        ensures
            r == *self,
    {
        RestoredSeat {
            id: self.id,
            parent: self.parent,
            lite: self.lite,
            subwp: match &self.subwp { Some(s) => Some(s.clone()), None => None },
        }
    }
}

/// What a tape event says about seats: who wrote it, and the fields of a
/// spawn, release or cancel record it carries (each as the text it holds,
/// if it holds text).
#[derive(Debug)]
pub struct SeatLine {
    pub from: String,
    pub spawn: bool,
    pub worker: Option<String>,
    pub parent: Option<String>,
    pub seat: Option<String>,
    pub subwp: Option<String>,
    pub release: bool,
    pub release_id: Option<String>,
    pub cancel: bool,
    pub cancel_to: Option<String>,
}

} // verus!

verus! {

/// Errors of the steward's own rules.
#[derive(Debug, PartialEq, Eq)]
pub enum StewardError {
    GrantNotDenied(String),
    OutsideBound(String),
    SignalDenied(&'static str),
    LiteFile,
    WiderThanParent,
    NoSubwp(u128),
    Idle,
    Busy,
    Empty,
    NotMounted(u128),
    /// A seat record on the tape is not JSON.
    Json,
}

/// Seats in strictly increasing id order.
pub open spec fn by_id(seats: Seq<RestoredSeat>) -> bool {
    forall|i: int, j: int| 0 <= i < j < seats.len() ==> #[trigger] seats[i].id < #[trigger] seats[j].id
}

/// The seat with `id`, if any.
pub open spec fn lookup(seats: Seq<RestoredSeat>, id: u128) -> Option<RestoredSeat>
    decreases seats.len(),
{
    if seats.len() == 0 {
        None
    } else if seats[0].id == id {
        Some(seats[0])
    } else {
        lookup(seats.drop_first(), id)
    }
}

/// `id` falls with `root`: it is `root`, or a known seat whose parent
/// falls with `root` (following at most `k` parents).
pub open spec fn falls(seats: Seq<RestoredSeat>, root: u128, id: u128, k: nat) -> bool
    decreases k,
{
    id == root || (k > 0 && (lookup(seats, id) matches Some(s) && falls(seats, root, s.parent, (k - 1) as nat)))
}

/// The seats left when `root` and every seat under it go.
pub open spec fn dropped(seats: Seq<RestoredSeat>, root: u128) -> Seq<RestoredSeat> {
    seats.filter(|x: RestoredSeat| !falls(seats, root, x.id, seats.len()))
}

/// Following parents from `id` through known seats reaches a seat whose
/// parent is `steward` within `k` steps.
pub open spec fn chain_reaches(seats: Seq<RestoredSeat>, id: u128, steward: u128, k: nat) -> bool
    decreases k,
{
    k > 0 && (lookup(seats, id) matches Some(s) && (s.parent == steward || chain_reaches(seats, s.parent, steward, (k - 1) as nat)))
}

/// `s` put in its place: replacing the seat with its id, or inserted in
/// id order.
pub open spec fn put_seat(seats: Seq<RestoredSeat>, s: RestoredSeat) -> Seq<RestoredSeat>
    decreases seats.len(),
{
    if seats.len() == 0 {
        seq![s]
    } else if s.id < seats[0].id {
        seq![s] + seats
    } else if s.id == seats[0].id {
        seq![s] + seats.drop_first()
    } else {
        seq![seats[0]] + put_seat(seats.drop_first(), s)
    }
}

proof fn lemma_lookup_at(seats: Seq<RestoredSeat>, i: int)
    requires
        by_id(seats),
        0 <= i < seats.len(),
    ensures
        lookup(seats, seats[i].id) == Some(seats[i]),
    decreases seats.len(),
{
    if i > 0 {
        assert(seats[0].id < seats[i].id);
        assert(by_id(seats.drop_first()));
        assert(seats.drop_first()[i - 1] == seats[i]);
        lemma_lookup_at(seats.drop_first(), i - 1);
    }
}

proof fn lemma_lookup_none(seats: Seq<RestoredSeat>, id: u128)
    requires
        forall|i: int| 0 <= i < seats.len() ==> #[trigger] seats[i].id != id,
    ensures
        lookup(seats, id) is None,
    decreases seats.len(),
{
    if seats.len() > 0 {
        assert(seats[0].id != id);
        assert forall|i: int| 0 <= i < seats.drop_first().len() implies #[trigger] seats.drop_first()[i].id != id by {
            assert(seats.drop_first()[i] == seats[i + 1]);
        }
        lemma_lookup_none(seats.drop_first(), id);
    }
}

proof fn lemma_put_seat(seats: Seq<RestoredSeat>, s: RestoredSeat, p: int)
    requires
        by_id(seats),
        0 <= p <= seats.len(),
        forall|k: int| 0 <= k < p ==> #[trigger] seats[k].id < s.id,
        p < seats.len() ==> s.id <= seats[p].id,
    ensures
        put_seat(seats, s) == if p < seats.len() && seats[p].id == s.id { seats.update(p, s) } else { seats.insert(p, s) },
    decreases seats.len(),
{
    if seats.len() == 0 {
        assert(seq![s] =~= seats.insert(p, s));
    } else if p == 0 {
        if s.id < seats[0].id {
            assert(seq![s] + seats =~= seats.insert(0, s));
        } else {
            assert(seq![s] + seats.drop_first() =~= seats.update(0, s));
        }
    } else {
        let rest = seats.drop_first();
        assert(by_id(rest)) by {
            assert forall|i: int, j: int| 0 <= i < j < rest.len() implies #[trigger] rest[i].id < #[trigger] rest[j].id by {
                assert(rest[i] == seats[i + 1] && rest[j] == seats[j + 1]);
            }
        }
        assert forall|k: int| 0 <= k < p - 1 implies #[trigger] rest[k].id < s.id by {
            assert(rest[k] == seats[k + 1]);
        }
        if p < seats.len() {
            assert(rest[p - 1] == seats[p]);
        }
        lemma_put_seat(rest, s, p - 1);
        assert(seats[0].id < s.id);
        if p < seats.len() && seats[p].id == s.id {
            assert(seq![seats[0]] + rest.update(p - 1, s) =~= seats.update(p, s));
        } else {
            assert(seq![seats[0]] + rest.insert(p - 1, s) =~= seats.insert(p, s));
        }
    }
}

proof fn lemma_placed_by_id(seats: Seq<RestoredSeat>, s: RestoredSeat, p: int)
    requires
        by_id(seats),
        0 <= p <= seats.len(),
        forall|k: int| 0 <= k < p ==> #[trigger] seats[k].id < s.id,
        p < seats.len() ==> s.id <= seats[p].id,
    ensures
        by_id(if p < seats.len() && seats[p].id == s.id { seats.update(p, s) } else { seats.insert(p, s) }),
{
    let r = if p < seats.len() && seats[p].id == s.id { seats.update(p, s) } else { seats.insert(p, s) };
    assert forall|i: int, j: int| 0 <= i < j < r.len() implies #[trigger] r[i].id < #[trigger] r[j].id by {
        if p < seats.len() && seats[p].id == s.id {
            if i == p {
                assert(seats[p].id < seats[j].id);
            } else if j == p {
                assert(seats[i].id < seats[p].id);
            }
        } else {
            if i < p && j < p {
            } else if i < p && j == p {
            } else if i < p {
                assert(r[j] == seats[j - 1]);
            } else if i == p {
                assert(r[j] == seats[j - 1]);
                if j - 1 > p {
                    assert(seats[p].id < seats[j - 1].id);
                }
            } else {
                assert(r[i] == seats[i - 1] && r[j] == seats[j - 1]);
            }
        }
    }
}

/// Puts a seat in its place in id order.
fn place_seat(seats: &mut Vec<RestoredSeat>, s: RestoredSeat)
    requires
        by_id(old(seats)@),
    ensures
        final(seats)@ == put_seat(old(seats)@, s),
        by_id(final(seats)@),
{
    let mut p: usize = 0;
    while p < seats.len() && seats[p].id < s.id
        invariant
            p <= seats@.len(),
            forall|k: int| 0 <= k < p ==> #[trigger] seats@[k].id < s.id,
        decreases seats.len() - p,
    {
        p = p + 1;
    }
    proof {
        lemma_put_seat(seats@, s, p as int);
        lemma_placed_by_id(seats@, s, p as int);
    }
    if p < seats.len() && seats[p].id == s.id {
        seats.set(p, s);
    } else {
        seats.insert(p, s);
    }
}

/// Marks, for each seat, whether it falls with `root` within `k + 1` parents.
fn falls_step(seats: &Vec<RestoredSeat>, root: u128, k: Ghost<nat>, prev: &Vec<bool>) -> (r: Vec<bool>)
    requires
        by_id(seats@),
        prev@.len() == seats@.len(),
        forall|j: int| 0 <= j < seats@.len() ==> #[trigger] prev@[j] == falls(seats@, root, seats@[j].id, k@),
    ensures
        r@.len() == seats@.len(),
        forall|j: int| 0 <= j < seats@.len() ==> #[trigger] r@[j] == falls(seats@, root, seats@[j].id, k@ + 1),
{
    let mut out: Vec<bool> = Vec::new();
    let mut j: usize = 0;
    while j < seats.len()
        invariant
            by_id(seats@),
            j <= seats@.len(),
            prev@.len() == seats@.len(),
            forall|t: int| 0 <= t < seats@.len() ==> #[trigger] prev@[t] == falls(seats@, root, seats@[t].id, k@),
            out@.len() == j,
            forall|t: int| 0 <= t < j ==> #[trigger] out@[t] == falls(seats@, root, seats@[t].id, k@ + 1),
        decreases seats.len() - j,
    {
        let parent = seats[j].parent;
        let mut up = parent == root;
        let mut i: usize = 0;
        while i < seats.len()
            invariant
                j < seats@.len(),
                i <= seats@.len(),
                parent == seats@[j as int].parent,
                prev@.len() == seats@.len(),
                forall|t: int| 0 <= t < seats@.len() ==> #[trigger] prev@[t] == falls(seats@, root, seats@[t].id, k@),
                up == (parent == root || exists|t: int| 0 <= t < i && #[trigger] seats@[t].id == parent && prev@[t]),
            decreases seats.len() - i,
        {
            if seats[i].id == parent && prev[i] {
                up = true;
            }
            i = i + 1;
        }
        proof {
            lemma_lookup_at(seats@, j as int);
            assert(falls(seats@, root, seats@[j as int].id, k@ + 1) == (seats@[j as int].id == root || falls(seats@, root, parent, k@)));
            if exists|t: int| 0 <= t < seats@.len() && #[trigger] seats@[t].id == parent {
                let t = choose|t: int| 0 <= t < seats@.len() && #[trigger] seats@[t].id == parent;
                lemma_lookup_at(seats@, t);
                assert(prev@[t] == falls(seats@, root, parent, k@));
                assert forall|w: int| 0 <= w < seats@.len() && #[trigger] seats@[w].id == parent implies w == t by {
                    if w < t { assert(seats@[w].id < seats@[t].id); } else if t < w { assert(seats@[t].id < seats@[w].id); }
                }
                assert(up == (parent == root || prev@[t]));
            } else {
                lemma_lookup_none(seats@, parent);
                assert(falls(seats@, root, parent, k@) == (parent == root));
            }
        }
        let me = seats[j].id == root || up;
        out.push(me);
        j = j + 1;
    }
    out
}

/// Drops `root` and every seat under it.
pub fn remove_subtree(seats: &mut Vec<RestoredSeat>, root: u128)
    requires
        by_id(old(seats)@),
    ensures
        final(seats)@ == dropped(old(seats)@, root),
        by_id(final(seats)@),
{
    let n = seats.len();
    let mut f: Vec<bool> = Vec::new();
    let mut j: usize = 0;
    while j < n
        invariant
            n == seats@.len(),
            j <= n,
            f@.len() == j,
            forall|t: int| 0 <= t < j ==> #[trigger] f@[t] == falls(seats@, root, seats@[t].id, 0),
        decreases n - j,
    {
        f.push(seats[j].id == root);
        j = j + 1;
    }
    let mut k: usize = 0;
    while k < n
        invariant
            n == seats@.len(),
            by_id(seats@),
            k <= n,
            f@.len() == n,
            forall|t: int| 0 <= t < n ==> #[trigger] f@[t] == falls(seats@, root, seats@[t].id, k as nat),
        decreases n - k,
    {
        f = falls_step(seats, root, Ghost(k as nat), &f);
        k = k + 1;
    }
    let ghost all = seats@;
    let ghost pred = |x: RestoredSeat| !falls(all, root, x.id, all.len());
    let mut kept: Vec<RestoredSeat> = Vec::new();
    let mut i: usize = 0;
    while i < n
        invariant
            n == seats@.len(),
            seats@ == all,
            by_id(all),
            f@.len() == n,
            forall|t: int| 0 <= t < n ==> #[trigger] f@[t] == falls(all, root, all[t].id, n as nat),
            pred == (|x: RestoredSeat| !falls(all, root, x.id, all.len())),
            i <= n,
            kept@ == all.subrange(0, i as int).filter(pred),
        decreases n - i,
    {
        assert(all.subrange(0, i + 1).drop_last() =~= all.subrange(0, i as int));
        if !f[i] {
            kept.push(seats[i].clone());
        }
        assert(kept@ =~= all.subrange(0, i + 1).filter(pred)) by {
            reveal(Seq::filter);
        }
        i = i + 1;
    }
    assert(all.subrange(0, n as int) =~= all);
    proof { lemma_filter_by_id(all, pred); }
    *seats = kept;
}

proof fn lemma_filter_by_id(s: Seq<RestoredSeat>, p: spec_fn(RestoredSeat) -> bool)
    requires
        by_id(s),
    ensures
        by_id(s.filter(p)),
    decreases s.len(),
{
    reveal(Seq::filter);
    if s.len() > 0 {
        let pre = s.drop_last();
        assert(by_id(pre));
        lemma_filter_by_id(pre, p);
        let fp = pre.filter(p);
        if p(s.last()) {
            assert forall|i: int| 0 <= i < fp.len() implies #[trigger] fp[i].id < s.last().id by {
                assert(fp.contains(fp[i]));
                pre.lemma_filter_contains_rev(p, fp[i]);
                let w = choose|w: int| 0 <= w < pre.len() && pre[w] == fp[i];
                assert(s[w] == pre[w]);
                assert(s[w].id < s[s.len() - 1].id);
            }
        }
    }
}

} // verus!

verus! {

/// Where the seat with `id` is, if anywhere.
fn find_seat(seats: &Vec<RestoredSeat>, id: u128) -> (r: Option<usize>)
    ensures
        match lookup(seats@, id) {
            Some(s) => r matches Some(i) && i < seats@.len() && seats@[i as int] == s,
            None => r is None,
        },
{
    let mut i: usize = 0;
    assert(seats@.skip(0) =~= seats@);
    while i < seats.len()
        invariant
            i <= seats@.len(),
            lookup(seats@, id) == lookup(seats@.skip(i as int), id),
        decreases seats.len() - i,
    {
        assert(seats@.skip(i as int)[0] == seats@[i as int]);
        if seats[i].id == id {
            return Some(i);
        }
        assert(seats@.skip(i as int).drop_first() =~= seats@.skip(i + 1));
        i = i + 1;
    }
    None
}

/// Whether following parents from `id` reaches a child of `steward`
/// within one step more than there are seats.
pub fn parent_chain_reaches(id: u128, seats: &Vec<RestoredSeat>, steward: u128) -> (r: bool)
    ensures
        r == chain_reaches(seats@, id, steward, (seats@.len() + 1) as nat),
{
    let mut cursor = id;
    let mut left: usize = seats.len();
    loop
        invariant
            left <= seats@.len(),
            chain_reaches(seats@, id, steward, (seats@.len() + 1) as nat) == chain_reaches(seats@, cursor, steward, (left + 1) as nat),
        decreases left,
    {
        match find_seat(seats, cursor) {
            None => {
                return false;
            },
            Some(i) => {
                if seats[i].parent == steward {
                    return true;
                }
                if left == 0 {
                    assert(!chain_reaches(seats@, seats@[i as int].parent, steward, 0));
                    return false;
                }
                cursor = seats[i].parent;
                left = left - 1;
            },
        }
    }
}

pub struct Restoring {
    pub seats: Seq<RestoredSeat>,
    pub steward: Option<u128>,
    pub failed: Option<u128>,
}

pub open spec fn opt_uuid(o: Option<String>) -> Option<u128> {
    match o {
        Some(t) => uuid_parsed(t@),
        None => None,
    }
}

pub open spec fn is_text(o: Option<String>, t: Seq<char>) -> bool {
    o matches Some(x) && x@ == t
}

pub open spec fn text_or_empty(o: Option<String>) -> Seq<char> {
    match o {
        Some(x) => x@,
        None => Seq::empty(),
    }
}

/// The seat a spawn record makes: the worker under its named parent, or
/// under the steward when the parent does not parse.
pub open spec fn spawned(l: SeatLine, steward: u128, id: u128) -> RestoredSeat {
    RestoredSeat {
        id,
        parent: match opt_uuid(l.parent) { Some(p) => p, None => steward },
        lite: is_text(l.seat, "lite"@),
        subwp: l.subwp,
    }
}

/// One tape event, from a sender that is a uuid: a spawn seats its
/// worker (a worker id that does not parse fails the restore); a release
/// or a cancel drops the named seat and everything under it.
pub open spec fn seat_step(st: Restoring, l: SeatLine) -> Restoring {
    if st.failed is Some {
        st
    } else {
        match uuid_parsed(l.from@) {
            None => st,
            Some(s) => {
                let st1 = if !l.spawn {
                    st
                } else {
                    match uuid_parsed(text_or_empty(l.worker)) {
                        None => Restoring { seats: st.seats, steward: Some(s), failed: Some(s) },
                        Some(id) => Restoring { seats: put_seat(st.seats, spawned(l, s, id)), steward: Some(s), failed: None },
                    }
                };
                if st1.failed is Some {
                    st1
                } else {
                    let st2 = match (l.release, opt_uuid(l.release_id)) {
                        (true, Some(id)) => Restoring { seats: dropped(st1.seats, id), steward: st1.steward, failed: None },
                        _ => st1,
                    };
                    match (l.cancel, opt_uuid(l.cancel_to)) {
                        (true, Some(id)) => Restoring { seats: dropped(st2.seats, id), steward: st2.steward, failed: None },
                        _ => st2,
                    }
                }
            },
        }
    }
}

pub open spec fn seat_fold(lines: Seq<SeatLine>) -> Restoring
    decreases lines.len(),
{
    if lines.len() == 0 {
        Restoring { seats: Seq::empty(), steward: None, failed: None }
    } else {
        seat_step(seat_fold(lines.drop_last()), lines.last())
    }
}

/// The seats a tape restores: those still seated at its end whose parent
/// chain leads back to the steward, in id order; none when nothing was
/// ever spawned.
pub open spec fn restored(lines: Seq<SeatLine>) -> Result<Seq<RestoredSeat>, u128> {
    let st = seat_fold(lines);
    match st.failed {
        Some(s) => Err(s),
        None => match st.steward {
            None => Ok(Seq::empty()),
            Some(w) => Ok(st.seats.filter(|x: RestoredSeat| chain_reaches(st.seats, x.id, w, (st.seats.len() + 1) as nat))),
        },
    }
}

fn text_or_empty_of(o: &Option<String>) -> (r: String)
    ensures
        r@ == text_or_empty(*o),
{
    match o {
        Some(s) => s.clone(),
        None => String::new(),
    }
}

fn opt_uuid_of(o: &Option<String>) -> (r: Option<u128>)
    ensures
        r == opt_uuid(*o),
{
    match o {
        Some(t) => parse_uuid(t.as_str()),
        None => None,
    }
}

/// The record fields a seat line reads, in order.
pub open spec fn seat_keys() -> Seq<Seq<char>> {
    seq!["worker"@, "parent"@, "seat"@, "subwp"@, "id"@, "to"@]
}

pub open spec fn text_opt(o: Option<String>) -> Option<Seq<char>> {
    match o {
        Some(s) => Some(s@),
        None => None,
    }
}

/// Whether an event's record must be read: it is from a sender that is a
/// uuid and tagged spawn, release or cancel.
pub open spec fn carries_seat_record(ev: Memevent) -> bool {
    &&& uuid_parsed(ev.from@) is Some
    &&& (tagged(ev.tags@, "spawn"@) || tagged(ev.tags@, "release"@) || tagged(ev.tags@, "cancel"@))
}

/// The event's seat record must be read and is not JSON.
pub open spec fn undecodable(ev: Memevent) -> bool {
    carries_seat_record(ev) && json_string_fields(ev.content@, seat_keys()) is None
}

/// `l` is the seat line of `ev`: its sender and tags, and where it carries
/// a seat record, the record's string fields.
pub open spec fn decodes_to(ev: Memevent, l: SeatLine) -> bool {
    &&& l.from == ev.from
    &&& l.spawn == tagged(ev.tags@, "spawn"@)
    &&& l.release == tagged(ev.tags@, "release"@)
    &&& l.cancel == tagged(ev.tags@, "cancel"@)
    &&& if carries_seat_record(ev) {
        json_string_fields(ev.content@, seat_keys()) matches Some(fs) && fs.len() == 6
            && text_opt(l.worker) == fs[0] && text_opt(l.parent) == fs[1] && text_opt(l.seat) == fs[2]
            && text_opt(l.subwp) == fs[3] && text_opt(l.release_id) == fs[4] && text_opt(l.cancel_to) == fs[5]
    } else {
        l.worker is None && l.parent is None && l.seat is None && l.subwp is None && l.release_id is None && l.cancel_to is None
    }
}

/// What a tape event says about seats; `Json` where it carries a seat
/// record that is not JSON.
pub fn seat_line(ev: &Memevent) -> (r: Result<SeatLine, StewardError>)
    ensures
        undecodable(*ev) ==> r == Err::<SeatLine, StewardError>(StewardError::Json),
        !undecodable(*ev) ==> (r matches Ok(l) && decodes_to(*ev, l)),
{
    let spawn = has_tag(&ev.tags, "spawn");
    let release = has_tag(&ev.tags, "release");
    let cancel = has_tag(&ev.tags, "cancel");
    if parse_uuid(ev.from.as_str()).is_some() && (spawn || release || cancel) {
        let keys: [&str; 6] = ["worker", "parent", "seat", "subwp", "id", "to"];
        proof {
            reveal_strlit("worker");
            reveal_strlit("parent");
            reveal_strlit("seat");
            reveal_strlit("subwp");
            reveal_strlit("id");
            reveal_strlit("to");
            assert(keys@.map_values(|k: &str| k@) =~= seat_keys());
        }
        match string_fields(ev.content.as_str(), keys.as_slice()) {
            None => Err(StewardError::Json),
            Some(fs) => {
                let ghost v = fs@;
                let mut fs = fs;
                let to = fs.pop().unwrap();
                let id = fs.pop().unwrap();
                let subwp = fs.pop().unwrap();
                let seat = fs.pop().unwrap();
                let parent = fs.pop().unwrap();
                let worker = fs.pop().unwrap();
                assert(texts_of(v)[0] == text_opt(worker));
                assert(texts_of(v)[1] == text_opt(parent));
                assert(texts_of(v)[2] == text_opt(seat));
                assert(texts_of(v)[3] == text_opt(subwp));
                assert(texts_of(v)[4] == text_opt(id));
                assert(texts_of(v)[5] == text_opt(to));
                Ok(SeatLine {
                    from: ev.from.clone(),
                    spawn,
                    worker,
                    parent,
                    seat,
                    subwp,
                    release,
                    release_id: id,
                    cancel,
                    cancel_to: to,
                })
            },
        }
    } else {
        Ok(SeatLine {
            from: ev.from.clone(),
            spawn,
            worker: None,
            parent: None,
            seat: None,
            subwp: None,
            release,
            release_id: None,
            cancel,
            cancel_to: None,
        })
    }
}

/// The index of the first event whose seat record is not JSON, from `i`
/// on, or the number of events.
pub open spec fn first_undecodable(events: Seq<Memevent>, i: int) -> int
    decreases events.len() - i,
{
    if i < 0 || i >= events.len() {
        events.len() as int
    } else if undecodable(events[i]) {
        i
    } else {
        first_undecodable(events, i + 1)
    }
}

/// Restores the seats of a session from its tape events, read in order:
/// the first seat record that is not JSON fails the restore with `Json`,
/// unless a spawn before it already failed it.
pub fn restore_from_events(events: &[Memevent]) -> (r: Result<Vec<RestoredSeat>, StewardError>)
    ensures
        exists|lines: Seq<SeatLine>| {
            &&& lines.len() == first_undecodable(events@, 0)
            &&& forall|i: int| 0 <= i < lines.len() ==> decodes_to(events@[i], #[trigger] lines[i])
            &&& match restored(lines) {
                Err(s) => r == Err::<Vec<RestoredSeat>, StewardError>(StewardError::NotMounted(s)),
                Ok(v) => if lines.len() < events@.len() {
                    r == Err::<Vec<RestoredSeat>, StewardError>(StewardError::Json)
                } else {
                    r matches Ok(x) && x@ == v && by_id(x@)
                },
            }
        },
{
    let mut lines: Vec<SeatLine> = Vec::new();
    let mut i: usize = 0;
    let mut broken = false;
    while i < events.len()
        invariant_except_break
            i <= events@.len(),
            lines@.len() == i,
            forall|j: int| 0 <= j < i ==> decodes_to(events@[j], #[trigger] lines@[j]),
            first_undecodable(events@, 0) == first_undecodable(events@, i as int),
            !broken,
        ensures
            lines@.len() == first_undecodable(events@, 0),
            forall|j: int| 0 <= j < lines@.len() ==> decodes_to(events@[j], #[trigger] lines@[j]),
            broken == (lines@.len() < events@.len()),
        decreases events.len() - i,
    {
        match seat_line(&events[i]) {
            Ok(l) => {
                lines.push(l);
            },
            Err(_) => {
                broken = true;
                break;
            },
        }
        i = i + 1;
    }
    let r = restore_seats(lines.as_slice());
    match r {
        Err(e) => Err(e),
        Ok(v) => if broken { Err(StewardError::Json) } else { Ok(v) },
    }
}

/// Restores the seats of a session from its tape events; a spawn whose
/// worker id does not parse fails with the steward not mounted.
pub fn restore_seats(lines: &[SeatLine]) -> (r: Result<Vec<RestoredSeat>, StewardError>)
    ensures
        match restored(lines@) {
            Err(s) => r == Err::<Vec<RestoredSeat>, StewardError>(StewardError::NotMounted(s)),
            Ok(v) => r matches Ok(x) && x@ == v && by_id(x@),
        },
{
    let mut seats: Vec<RestoredSeat> = Vec::new();
    let mut steward: Option<u128> = None;
    let mut k: usize = 0;
    assert(lines@.subrange(0, 0) =~= Seq::<SeatLine>::empty());
    while k < lines.len()
        invariant
            k <= lines@.len(),
            by_id(seats@),
            ({
                let st = seat_fold(lines@.subrange(0, k as int));
                &&& st.failed is None
                &&& st.seats == seats@
                &&& st.steward == steward
            }),
        decreases lines.len() - k,
    {
        assert(lines@.subrange(0, k + 1).drop_last() =~= lines@.subrange(0, k as int));
        assert(lines@.subrange(0, k + 1).last() == lines@[k as int]);
        let l = &lines[k];
        match parse_uuid(l.from.as_str()) {
            None => {},
            Some(s) => {
                if l.spawn {
                    steward = Some(s);
                    let worker = text_or_empty_of(&l.worker);
                    match parse_uuid(worker.as_str()) {
                        None => {
                            proof {
                                lemma_fold_stuck(lines@, k as int + 1);
                            }
                            return Err(StewardError::NotMounted(s));
                        },
                        Some(id) => {
                            let parent = match opt_uuid_of(&l.parent) { Some(p) => p, None => s };
                            let lite = match &l.seat { Some(t) => str_eq(t.as_str(), "lite"), None => false };
                            let subwp = match &l.subwp { Some(t) => Some(t.clone()), None => None };
                            place_seat(&mut seats, RestoredSeat { id, parent, lite, subwp });
                        },
                    }
                }
                if l.release {
                    match opt_uuid_of(&l.release_id) {
                        Some(id) => remove_subtree(&mut seats, id),
                        None => {},
                    }
                }
                if l.cancel {
                    match opt_uuid_of(&l.cancel_to) {
                        Some(id) => remove_subtree(&mut seats, id),
                        None => {},
                    }
                }
            },
        }
        k = k + 1;
    }
    assert(lines@.subrange(0, lines@.len() as int) =~= lines@);
    match steward {
        None => Ok(Vec::new()),
        Some(w) => {
            let ghost all = seats@;
            let ghost pred = |x: RestoredSeat| chain_reaches(all, x.id, w, (all.len() + 1) as nat);
            let mut kept: Vec<RestoredSeat> = Vec::new();
            let mut i: usize = 0;
            while i < seats.len()
                invariant
                    seats@ == all,
                    by_id(all),
                    pred == (|x: RestoredSeat| chain_reaches(all, x.id, w, (all.len() + 1) as nat)),
                    i <= all.len(),
                    kept@ == all.subrange(0, i as int).filter(pred),
                decreases seats.len() - i,
            {
                assert(all.subrange(0, i + 1).drop_last() =~= all.subrange(0, i as int));
                if parent_chain_reaches(seats[i].id, &seats, w) {
                    kept.push(seats[i].clone());
                }
                assert(kept@ =~= all.subrange(0, i + 1).filter(pred)) by {
                    reveal(Seq::filter);
                }
                i = i + 1;
            }
            assert(all.subrange(0, all.len() as int) =~= all);
            proof { lemma_filter_by_id(all, pred); }
            Ok(kept)
        },
    }
}

proof fn lemma_fold_stuck(lines: Seq<SeatLine>, k: int)
    requires
        0 <= k <= lines.len(),
        seat_fold(lines.subrange(0, k)).failed is Some,
    ensures
        seat_fold(lines) == seat_fold(lines.subrange(0, k)),
    decreases lines.len() - k,
{
    if k < lines.len() {
        assert(lines.subrange(0, k + 1).drop_last() =~= lines.subrange(0, k));
        lemma_fold_stuck(lines, k + 1);
    } else {
        assert(lines.subrange(0, k) =~= lines);
    }
}

} // verus!

verus! {

/// A charter that grants no file access: a bare sentence with no file
/// face, or a forget.
pub open spec fn fileless(bound: ActSentence) -> bool {
    (bound matches ActSentence::Bare { file, .. } && file == BareFile::Nothing) || bound is Forget
}

/// Whether a lite seat's charter grants no file access.
pub fn bound_is_fileless(bound: &ActSentence) -> (r: bool)
    ensures
        r == fileless(*bound),
{
    match bound {
        ActSentence::Bare { file, .. } => *file == BareFile::Nothing,
        ActSentence::Forget { .. } => true,
        _ => false,
    }
}

/// The first grant that is not forbidden, if any.
pub open spec fn open_grant(grants: Seq<ToolGrant>) -> Option<Seq<char>>
    decreases grants.len(),
{
    if grants.len() == 0 {
        None
    } else if grants[0].tag.permit != Permit::Forbidden {
        Some(grants[0].name@)
    } else {
        open_grant(grants.drop_first())
    }
}

/// The steward acts on the world only through its children: every tool
/// grant on its own card must be forbidden.
pub fn deny_world_grants(card: &AgentCard) -> (r: Result<(), StewardError>)
    ensures
        match open_grant(card.tools@) {
            None => r is Ok,
            Some(n) => (r matches Err(StewardError::GrantNotDenied(m)) && m@ == n),
        },
{
    let mut i: usize = 0;
    assert(card.tools@.skip(0) =~= card.tools@);
    while i < card.tools.len()
        invariant
            i <= card.tools@.len(),
            open_grant(card.tools@) == open_grant(card.tools@.skip(i as int)),
        decreases card.tools.len() - i,
    {
        assert(card.tools@.skip(i as int)[0] == card.tools@[i as int]);
        if card.tools[i].tag.permit != Permit::Forbidden {
            return Err(StewardError::GrantNotDenied(card.tools[i].name.clone()));
        }
        assert(card.tools@.skip(i as int).drop_first() =~= card.tools@.skip(i + 1));
        i = i + 1;
    }
    Ok(())
}

/// A message held for a worker until the pool is idle.
#[derive(Debug, PartialEq, Eq)]
pub struct Intent {
    pub worker: u128,
    pub text: String,
}

/// Takes the oldest held message, once no turn is running.
pub fn pop_intent(running: usize, queue: &mut Vec<Intent>) -> (r: Result<Intent, StewardError>)
    ensures
        running > 0 ==> r == Err::<Intent, StewardError>(StewardError::Busy) && final(queue)@ == old(queue)@,
        running == 0 && old(queue)@.len() == 0 ==> r == Err::<Intent, StewardError>(StewardError::Empty) && final(queue)@ == old(queue)@,
        running == 0 && old(queue)@.len() > 0 ==> r == Ok::<Intent, StewardError>(old(queue)@[0]) && final(queue)@ == old(queue)@.drop_first(),
{
    if running > 0 {
        return Err(StewardError::Busy);
    }
    if queue.len() == 0 {
        return Err(StewardError::Empty);
    }
    let first = queue.remove(0);
    assert(queue@ =~= old(queue)@.drop_first());
    Ok(first)
}

/// Only a seat's parent may cancel it.
pub fn cancel_check(actual_parent: Option<u128>, parent: u128) -> (r: Result<(), StewardError>)
    ensures
        actual_parent == Some(parent) ==> r is Ok,
        actual_parent != Some(parent) ==> r == Err::<(), StewardError>(StewardError::SignalDenied("cancel")),
{
    match actual_parent {
        Some(p) => if p == parent { Ok(()) } else { Err(StewardError::SignalDenied("cancel")) },
        None => Err(StewardError::SignalDenied("cancel")),
    }
}

/// A JSON value for an optional text: its string literal, or `null`.
pub open spec fn json_opt(o: Option<String>) -> Seq<char> {
    match o {
        Some(s) => json_quoted(s@),
        None => "null"@,
    }
}

fn push_json_opt(out: &mut Vec<char>, o: &Option<String>)
    ensures
        final(out)@ == old(out)@ + json_opt(*o),
{
    match o {
        Some(s) => {
            let q = quote_json(s.as_str());
            push_str(out, q.as_str());
        },
        None => push_str(out, "null"),
    }
}

fn push_quoted(out: &mut Vec<char>, s: &str)
    ensures
        final(out)@ == old(out)@ + json_quoted(s@),
{
    let q = quote_json(s);
    push_str(out, q.as_str());
}

/// The record of a collected product on the steward's tape: the pointers
/// alone, keys in order.
pub fn link_record(p: &ProductPtr) -> (r: String)
    ensures
        r@ == "{\"child_session\":"@ + json_quoted(p.child_session@)
            + ",\"md_sha256\":"@ + json_opt(p.md_sha256)
            + ",\"subwp_sha256\":"@ + json_opt(p.subwp_sha256)
            + ",\"tape_sha256\":"@ + json_quoted(p.tape_sha256@)
            + ",\"tree_id\":"@ + json_opt(p.tree_id) + "}"@,
{
    let mut out: Vec<char> = Vec::new();
    push_str(&mut out, "{\"child_session\":");
    push_quoted(&mut out, p.child_session.as_str());
    push_str(&mut out, ",\"md_sha256\":");
    push_json_opt(&mut out, &p.md_sha256);
    push_str(&mut out, ",\"subwp_sha256\":");
    push_json_opt(&mut out, &p.subwp_sha256);
    push_str(&mut out, ",\"tape_sha256\":");
    push_quoted(&mut out, p.tape_sha256.as_str());
    push_str(&mut out, ",\"tree_id\":");
    push_json_opt(&mut out, &p.tree_id);
    push_str(&mut out, "}");
    string_of(out.as_slice())
}

/// The items of a JSON list of strings, comma separated.
pub open spec fn json_items(xs: Seq<String>) -> Seq<char>
    decreases xs.len(),
{
    if xs.len() == 0 {
        Seq::empty()
    } else if xs.len() == 1 {
        json_quoted(xs[0]@)
    } else {
        json_items(xs.drop_last()) + ","@ + json_quoted(xs.last()@)
    }
}

/// The record that defines a named view as a list of link ids.
pub fn view_record(name: &str, links: &[String]) -> (r: String)
    ensures
        r@ == "{\"links\":["@ + json_items(links@) + "],\"name\":"@ + json_quoted(name@) + "}"@,
{
    let mut out: Vec<char> = Vec::new();
    push_str(&mut out, "{\"links\":[");
    let ghost head = out@;
    let mut i: usize = 0;
    while i < links.len()
        invariant
            i <= links@.len(),
            out@ == head + json_items(links@.subrange(0, i as int)),
        decreases links.len() - i,
    {
        let ghost pre = links@.subrange(0, i as int);
        assert(links@.subrange(0, i + 1).drop_last() =~= pre);
        if i > 0 {
            push_str(&mut out, ",");
        }
        push_quoted(&mut out, links[i].as_str());
        proof {
            let now = links@.subrange(0, i + 1);
            assert(now.last() == links@[i as int]);
            if i == 0 {
                assert(pre.len() == 0);
                assert(json_items(pre) =~= Seq::<char>::empty());
            }
        }
        i = i + 1;
    }
    assert(links@.subrange(0, links@.len() as int) =~= links@);
    push_str(&mut out, "],\"name\":");
    push_quoted(&mut out, name);
    push_str(&mut out, "}");
    string_of(out.as_slice())
}

/// The record of a release: the seat whose subtree is dropped.
pub fn release_record(id: u128) -> (r: String)
    ensures
        r@ == "{\"id\":"@ + json_quoted(uuid_text(id)) + "}"@,
{
    let text = uuid_string(id);
    let mut out: Vec<char> = Vec::new();
    push_str(&mut out, "{\"id\":");
    push_quoted(&mut out, text.as_str());
    push_str(&mut out, "}");
    string_of(out.as_slice())
}

/// The two records of a signal between two seats: on the sender's tape it
/// names the receiver (`to`), on the receiver's the sender (`from`).
pub fn signal_records(from: u128, to: u128, text: &str) -> (r: (String, String))
    ensures
        r.0@ == "{\"text\":"@ + json_quoted(text@) + ",\"to\":"@ + json_quoted(uuid_text(to)) + "}"@,
        r.1@ == "{\"from\":"@ + json_quoted(uuid_text(from)) + ",\"text\":"@ + json_quoted(text@) + "}"@,
{
    let to_text = uuid_string(to);
    let from_text = uuid_string(from);
    let mut a: Vec<char> = Vec::new();
    push_str(&mut a, "{\"text\":");
    push_quoted(&mut a, text);
    push_str(&mut a, ",\"to\":");
    push_quoted(&mut a, to_text.as_str());
    push_str(&mut a, "}");
    let mut b: Vec<char> = Vec::new();
    push_str(&mut b, "{\"from\":");
    push_quoted(&mut b, from_text.as_str());
    push_str(&mut b, ",\"text\":");
    push_quoted(&mut b, text);
    push_str(&mut b, "}");
    (string_of(a.as_slice()), string_of(b.as_slice()))
}

/// The record of mail handed to a session.
pub fn mail_record(to_session: &str, text: &str) -> (r: String)
    ensures
        r@ == "{\"text\":"@ + json_quoted(text@) + ",\"to_session\":"@ + json_quoted(to_session@) + "}"@,
{
    let mut out: Vec<char> = Vec::new();
    push_str(&mut out, "{\"text\":");
    push_quoted(&mut out, text);
    push_str(&mut out, ",\"to_session\":");
    push_quoted(&mut out, to_session);
    push_str(&mut out, "}");
    string_of(out.as_slice())
}

} // verus!
