//! The workplace store's rules: ref names, lead-only changes, and how
//! tree objects map names to entries.
use vstd::prelude::*;

use super::id::{hex_of, lemma_hex_round_trip, object_id_text, ObjectId};
use super::resource::{kind_name, ResourceKind};
use crate::json::{json_quoted, quote_json};
use crate::order::{chars_lt, str_lt};
use crate::text::{chars_of, push_str, str_eq, string_of};

verus! {

#[derive(Debug, PartialEq, Eq)]
pub enum WorkplaceError {
    Msg(String),
    NotLead,
    UnknownRef(String),
    NotATree,
}

/// The path of the workers governance file: `.workplace/workers.wp`.
pub fn workers_file() -> (r: Vec<String>)
    ensures
        r@.len() == 2 && r@[0]@ == ".workplace"@ && r@[1]@ == "workers.wp"@,
{
    let mut v: Vec<String> = Vec::new();
    v.push(".workplace".to_owned());
    v.push("workers.wp".to_owned());
    v
}

/// The path of the permit governance file: `.workplace/permit.wp`.
pub fn permit_file() -> (r: Vec<String>)
    ensures
        r@.len() == 2 && r@[0]@ == ".workplace"@ && r@[1]@ == "permit.wp"@,
{
    let mut v: Vec<String> = Vec::new();
    v.push(".workplace".to_owned());
    v.push("permit.wp".to_owned());
    v
}

/// A named entry of a tree object: its kind and its object id as hex.
#[derive(Debug, PartialEq, Eq)]
pub struct TreeEntry {
    pub kind: ResourceKind,
    pub id: String,
}

impl Clone for TreeEntry {
    fn clone(&self) -> (r: Self)
        ensures
            r == *self,
    {
        TreeEntry { kind: self.kind, id: self.id.clone() }
    }
}

/// A tree object: entries by name, in name order.
#[derive(Debug)]
pub struct Tree {
    pub entries: Vec<(String, TreeEntry)>,
}

/// The state a file write moves from and to, and the blob it wrote.
#[derive(Debug, Clone, Copy)]
pub struct Commit {
    pub from_head: ObjectId,
    pub to_head: ObjectId,
    pub blob: ObjectId,
}

/// The pieces as owned strings.
pub fn owned(parts: &[&str]) -> (r: Vec<String>)
    ensures
        r@.len() == parts@.len(),
        forall|k: int| 0 <= k < r@.len() ==> #[trigger] r@[k]@ == parts@[k]@,
{
    let mut out: Vec<String> = Vec::new();
    let mut i: usize = 0;
    while i < parts.len()
        invariant
            i <= parts@.len(),
            out@.len() == i,
            forall|k: int| 0 <= k < i ==> #[trigger] out@[k]@ == parts@[k]@,
        decreases parts.len() - i,
    {
        out.push(parts[i].to_owned());
        i = i + 1;
    }
    out
}

/// `char::is_ascii_alphanumeric`, `-` or `_`.
pub open spec fn ref_char(c: char) -> bool {
    ('0' <= c <= '9') || ('a' <= c <= 'z') || ('A' <= c <= 'Z') || c == '-' || c == '_'
}

/// A ref name: not empty, no `/`, no `..`, only ASCII letters, digits,
/// `-` and `_`.
pub open spec fn ref_ok(name: Seq<char>) -> bool {
    &&& name.len() > 0
    &&& !name.contains('/')
    &&& !(exists|i: int| 0 <= i < name.len() - 1 && name[i] == '.' && #[trigger] name[i + 1] == '.')
    &&& forall|i: int| 0 <= i < name.len() ==> ref_char(#[trigger] name[i])
}

pub fn validate_ref(name: &str) -> (r: Result<(), WorkplaceError>)
    ensures
        ref_ok(name@) ==> r is Ok,
        !ref_ok(name@) ==> (r matches Err(WorkplaceError::Msg(m)) && m@ == "invalid ref name"@),
{
    let cs = chars_of(name);
    if cs.len() == 0 {
        return Err(WorkplaceError::Msg("invalid ref name".to_owned()));
    }
    let mut i: usize = 0;
    while i < cs.len()
        invariant
            cs@ == name@,
            i <= cs@.len(),
            forall|k: int| 0 <= k < i ==> ref_char(#[trigger] cs@[k]),
        decreases cs.len() - i,
    {
        let c = cs[i];
        let ok = ('0' <= c && c <= '9') || ('a' <= c && c <= 'z') || ('A' <= c && c <= 'Z') || c == '-' || c == '_';
        if !ok {
            return Err(WorkplaceError::Msg("invalid ref name".to_owned()));
        }
        i = i + 1;
    }
    // only letters, digits, '-' and '_' remain: no '/' and no '.'
    assert(!name@.contains('/'));
    assert(!(exists|i: int| 0 <= i < name@.len() - 1 && name@[i] == '.' && #[trigger] name@[i + 1] == '.'));
    Ok(())
}

/// Only the lead agent may change a workplace.
pub fn require_lead(lead: u128, caller: u128) -> (r: Result<(), WorkplaceError>)
    ensures
        caller == lead ==> r is Ok,
        caller != lead ==> r == Err::<(), WorkplaceError>(WorkplaceError::NotLead),
{
    if caller != lead { Err(WorkplaceError::NotLead) } else { Ok(()) }
}

/// What a file write needs before it touches the store: the lead, and a
/// path with at least one piece.
pub fn check_write(lead: u128, caller: u128, path: &[String]) -> (r: Result<(), WorkplaceError>)
    ensures
        caller != lead ==> r == Err::<(), WorkplaceError>(WorkplaceError::NotLead),
        caller == lead && path@.len() == 0 ==> (r matches Err(WorkplaceError::Msg(m)) && m@ == "file path is empty"@),
        caller == lead && path@.len() > 0 ==> r is Ok,
{
    require_lead(lead, caller)?;
    if path.len() == 0 {
        return Err(WorkplaceError::Msg("file path is empty".to_owned()));
    }
    Ok(())
}

/// Entries in strictly increasing name order.
pub open spec fn by_name(es: Seq<(String, TreeEntry)>) -> bool {
    forall|i: int, j: int| 0 <= i < j < es.len() ==> chars_lt(#[trigger] es[i].0@, #[trigger] es[j].0@)
}

/// The entry named `name`, if any.
pub open spec fn entry_of(es: Seq<(String, TreeEntry)>, name: Seq<char>) -> Option<TreeEntry>
    decreases es.len(),
{
    if es.len() == 0 {
        None
    } else if es[0].0@ == name {
        Some(es[0].1)
    } else {
        entry_of(es.drop_first(), name)
    }
}

impl Tree {
    /// The entry named `name`.
    pub fn get(&self, name: &str) -> (r: Option<TreeEntry>)
        ensures
            r == entry_of(self.entries@, name@),
    {
        let mut i: usize = 0;
        assert(self.entries@.skip(0) =~= self.entries@);
        while i < self.entries.len()
            invariant
                i <= self.entries@.len(),
                entry_of(self.entries@, name@) == entry_of(self.entries@.skip(i as int), name@),
            decreases self.entries.len() - i,
        {
            assert(self.entries@.skip(i as int)[0] == self.entries@[i as int]);
            if str_eq(self.entries[i].0.as_str(), name) {
                return Some(self.entries[i].1.clone());
            }
            assert(self.entries@.skip(i as int).drop_first() =~= self.entries@.skip(i + 1));
            i = i + 1;
        }
        None
    }

    /// Puts `entry` under `name`, replacing any entry of that name.
    pub fn insert(&mut self, name: String, entry: TreeEntry)
        requires
            by_name(old(self).entries@),
        ensures
            by_name(final(self).entries@),
            entry_of(final(self).entries@, name@) == Some(entry),
            forall|n: Seq<char>| n != name@ ==> entry_of(final(self).entries@, n) == #[trigger] entry_of(old(self).entries@, n),
    {
        let ghost old_es = self.entries@;
        let mut p: usize = 0;
        while p < self.entries.len() && str_lt(self.entries[p].0.as_str(), name.as_str())
            invariant
                p <= self.entries@.len(),
                self.entries@ == old_es,
                forall|k: int| 0 <= k < p ==> chars_lt(#[trigger] self.entries@[k].0@, name@),
            decreases self.entries.len() - p,
        {
            p = p + 1;
        }
        let found = p < self.entries.len() && str_eq(self.entries[p].0.as_str(), name.as_str());
        proof {
            if !found {
                assert forall|k: int| p <= k < old_es.len() implies chars_lt(name@, #[trigger] old_es[k].0@) by {
                    crate::order::lemma_lt_total(name@, old_es[p as int].0@);
                    if k > p {
                        crate::order::lemma_lt_transitive(name@, old_es[p as int].0@, old_es[k].0@);
                    }
                }
            }
        }
        let ghost nm = name@;
        let ghost ent = entry;
        if found {
            self.entries.set(p, (name, entry));
        } else {
            self.entries.insert(p, (name, entry));
        }
        proof {
            let es = self.entries@;
            assert(by_name(es)) by {
                assert forall|i: int, j: int| 0 <= i < j < es.len() implies chars_lt(#[trigger] es[i].0@, #[trigger] es[j].0@) by {
                    if found {
                        if i == p { assert(old_es[i].0@ == nm); }
                        if j == p { assert(old_es[j].0@ == nm); }
                    } else {
                        if i < p && j > p {
                            assert(es[j] == old_es[j - 1]);
                        } else if i == p {
                            assert(es[j] == old_es[j - 1]);
                        } else if i > p {
                            assert(es[i] == old_es[i - 1] && es[j] == old_es[j - 1]);
                        }
                    }
                }
            }
            lemma_entry_of_sorted(es, p as int);
            assert forall|n: Seq<char>| n != nm implies entry_of(es, n) == #[trigger] entry_of(old_es, n) by {
                lemma_entry_of_index(es, n);
                lemma_entry_of_index(old_es, n);
                if entry_of(old_es, n) is Some {
                    let k = choose|k: int| 0 <= k < old_es.len() && old_es[k].0@ == n && old_es[k].1 == entry_of(old_es, n)->0
                        && forall|t: int| 0 <= t < k ==> #[trigger] old_es[t].0@ != n;
                    let k2: int = if found || k < p { k } else { k + 1 };
                    assert(es[k2] == old_es[k]);
                    lemma_entry_of_sorted(es, k2);
                } else if entry_of(es, n) is Some {
                    let k = choose|k: int| 0 <= k < es.len() && es[k].0@ == n && es[k].1 == entry_of(es, n)->0
                        && forall|t: int| 0 <= t < k ==> #[trigger] es[t].0@ != n;
                    assert(k != p);
                    let k0: int = if found || k < p { k } else { k - 1 };
                    assert(es[k] == old_es[k0]);
                }
            }
        }
    }
}

proof fn lemma_entry_of_sorted(es: Seq<(String, TreeEntry)>, p: int)
    requires
        by_name(es),
        0 <= p < es.len(),
    ensures
        entry_of(es, es[p].0@) == Some(es[p].1),
    decreases es.len(),
{
    if p > 0 {
        assert(chars_lt(es[0].0@, es[p].0@));
        crate::order::lemma_lt_irreflexive(es[p].0@);
        let rest = es.drop_first();
        assert(by_name(rest));
        assert(rest[p - 1] == es[p]);
        lemma_entry_of_sorted(rest, p - 1);
    }
}

proof fn lemma_entry_of_index(es: Seq<(String, TreeEntry)>, n: Seq<char>)
    ensures
        entry_of(es, n) matches Some(e) ==> exists|k: int| 0 <= k < es.len() && es[k].0@ == n && es[k].1 == e
            && forall|t: int| 0 <= t < k ==> #[trigger] es[t].0@ != n,
        entry_of(es, n) is None ==> forall|k: int| 0 <= k < es.len() ==> #[trigger] es[k].0@ != n,
    decreases es.len(),
{
    if es.len() > 0 {
        let rest = es.drop_first();
        lemma_entry_of_index(rest, n);
        if es[0].0@ != n {
            if entry_of(rest, n) is Some {
                let k = choose|k: int| 0 <= k < rest.len() && rest[k].0@ == n && rest[k].1 == entry_of(rest, n)->0
                    && forall|t: int| 0 <= t < k ==> #[trigger] rest[t].0@ != n;
                assert(es[k + 1] == rest[k]);
                assert forall|t: int| 0 <= t < k + 1 implies #[trigger] es[t].0@ != n by {
                    if t > 0 { assert(es[t] == rest[t - 1]); }
                }
            } else {
                assert forall|k: int| 0 <= k < es.len() implies #[trigger] es[k].0@ != n by {
                    if k > 0 { assert(es[k] == rest[k - 1]); }
                }
            }
        }
    }
}

} // verus!

verus! {

/// One step of a path lookup through tree objects.
#[derive(Debug)]
pub enum Step {
    /// No entry of that name: the path names nothing.
    Missing,
    /// The last piece names this object.
    Found(ObjectId),
    /// A tree to look in for the next piece.
    Descend(ObjectId),
}

/// Looks `name` up in `tree`; `last` says whether it is the path's last
/// piece. Any piece before the last must name a tree.
pub fn lookup_step(tree: &Tree, name: &str, last: bool) -> (r: Result<Step, WorkplaceError>)
    ensures
        match entry_of(tree.entries@, name@) {
            None => r matches Ok(Step::Missing),
            Some(e) => match object_id_text(e.id@) {
                Err(m) => (r matches Err(WorkplaceError::Msg(x)) && x@ == m),
                Ok(bytes) => if last {
                    (r matches Ok(Step::Found(id)) && id.0@ == bytes)
                } else if e.kind != ResourceKind::Tree {
                    (r matches Err(WorkplaceError::Msg(x)) && x@ == "path prefix is not a tree"@)
                } else {
                    (r matches Ok(Step::Descend(id)) && id.0@ == bytes)
                },
            },
        },
{
    let entry = match tree.get(name) {
        None => {
            return Ok(Step::Missing);
        },
        Some(e) => e,
    };
    let id = match ObjectId::from_hex(entry.id.as_str()) {
        Ok(id) => id,
        Err(m) => {
            return Err(WorkplaceError::Msg(m));
        },
    };
    if last {
        return Ok(Step::Found(id));
    }
    if entry.kind != ResourceKind::Tree {
        return Err(WorkplaceError::Msg("path prefix is not a tree".to_owned()));
    }
    Ok(Step::Descend(id))
}

/// Where a write goes below `name` in `tree`: into the tree it names
/// (`Some`), or into a new empty tree (`None`); never under a file.
pub fn nest_step(tree: &Tree, name: &str) -> (r: Result<Option<ObjectId>, WorkplaceError>)
    ensures
        match entry_of(tree.entries@, name@) {
            None => r matches Ok(None),
            Some(e) => if e.kind != ResourceKind::Tree {
                (r matches Err(WorkplaceError::Msg(x)) && x@ == "cannot nest under a file"@)
            } else {
                match object_id_text(e.id@) {
                    Err(m) => (r matches Err(WorkplaceError::Msg(x)) && x@ == m),
                    Ok(bytes) => (r matches Ok(Some(id)) && id.0@ == bytes),
                }
            },
        },
{
    match tree.get(name) {
        None => Ok(None),
        Some(e) => {
            if e.kind != ResourceKind::Tree {
                return Err(WorkplaceError::Msg("cannot nest under a file".to_owned()));
            }
            match ObjectId::from_hex(e.id.as_str()) {
                Ok(id) => Ok(Some(id)),
                Err(m) => Err(WorkplaceError::Msg(m)),
            }
        },
    }
}

/// What a write puts in a tree reads back. Once `insert` has put the
/// entry for object `b` of kind `kind` under `name`, a lookup of `name`
/// finds that entry and reads `b` from it: as the object found when `name`
/// is the path's last piece, and, for a tree, as the tree to descend into
/// otherwise. Other names keep their entries.
pub proof fn lemma_read_after_insert(
    before: Seq<(String, TreeEntry)>,
    after: Seq<(String, TreeEntry)>,
    name: Seq<char>,
    kind: ResourceKind,
    b: Seq<u8>,
)
    requires
        b.len() == 32,
        entry_of(after, name) matches Some(e) && e.kind == kind && e.id@ == hex_of(b),
        forall|n: Seq<char>| n != name ==> entry_of(after, n) == #[trigger] entry_of(before, n),
    ensures
        entry_of(after, name) matches Some(e) && e.kind == kind && object_id_text(e.id@) == Ok::<Seq<u8>, Seq<char>>(b),
        forall|n: Seq<char>| n != name ==> entry_of(after, n) == #[trigger] entry_of(before, n),
{
    lemma_hex_round_trip(b);
}

/// The entry naming an object of the given kind by its hex id.
pub fn entry_for(kind: ResourceKind, id: &ObjectId) -> (r: TreeEntry)
    ensures
        r.kind == kind,
        r.id@ == super::id::hex_of(id.0@),
{
    TreeEntry { kind, id: id.hex() }
}

/// One member of a tree object's JSON: the name, then the entry's kind
/// and id.
pub open spec fn member_json(e: (String, TreeEntry)) -> Seq<char> {
    json_quoted(e.0@) + ":{\"kind\":"@ + json_quoted(kind_name(e.1.kind)) + ",\"id\":"@ + json_quoted(e.1.id@) + "}"@
}

/// The members of the first `n` entries, comma separated.
pub open spec fn members_json(es: Seq<(String, TreeEntry)>, n: int) -> Seq<char>
    decreases n,
{
    if n <= 0 {
        Seq::empty()
    } else if n == 1 {
        member_json(es[0])
    } else {
        members_json(es, n - 1) + ","@ + member_json(es[n - 1])
    }
}

impl Tree {
    /// The JSON a tree object is stored and hashed as: its entries by
    /// name, in name order.
    pub fn payload(&self) -> (r: String)
        ensures
            r@ == "{\"entries\":{"@ + members_json(self.entries@, self.entries@.len() as int) + "}}"@,
    {
        let mut out: Vec<char> = Vec::new();
        push_str(&mut out, "{\"entries\":{");
        let ghost head = out@;
        let mut i: usize = 0;
        while i < self.entries.len()
            invariant
                i <= self.entries@.len(),
                out@ == head + members_json(self.entries@, i as int),
            decreases self.entries.len() - i,
        {
            if i > 0 {
                push_str(&mut out, ",");
            }
            let e = &self.entries[i];
            let q = quote_json(e.0.as_str());
            push_str(&mut out, q.as_str());
            push_str(&mut out, ":{\"kind\":");
            let k = quote_json(e.1.kind.as_str());
            push_str(&mut out, k.as_str());
            push_str(&mut out, ",\"id\":");
            let id = quote_json(e.1.id.as_str());
            push_str(&mut out, id.as_str());
            push_str(&mut out, "}");
            i = i + 1;
        }
        push_str(&mut out, "}}");
        string_of(out.as_slice())
    }
}

} // verus!
