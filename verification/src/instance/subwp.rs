//! A worker session's own path log: who may read or write which path,
//! and which blob a path currently names.
use vstd::prelude::*;

use crate::act::tag::{FileFacet, Permit};
use crate::instance::wp::{is_text, path_ok, SubLine};
use crate::json::{json_quoted, quote_json};
use crate::text::{chars_of, push_str, str_eq, string_of};
use crate::workplace::id::{hex, hex_of, sha256, sha256_digest};
use crate::lines::has_prefix;

verus! {

#[derive(Debug, PartialEq, Eq)]
pub enum SubWpError {
    /// The grant does not allow this operation on this path.
    Denied,
    NotFound(String),
    BadPath(String),
    /// A log line that cannot be read.
    Log(String),
}

#[derive(Debug, Clone, Copy, PartialEq, Eq, Structural)]
pub enum Op {
    Read,
    Write,
}

/// `path` is `root` or lies below it.
pub open spec fn is_under(root: Seq<char>, path: Seq<char>) -> bool {
    path == root || (root.len() + 1 <= path.len() && path.subrange(0, (root.len() + 1) as int) == root.push('/'))
}

pub fn under(root: &str, path: &str) -> (r: bool)
    ensures
        r == is_under(root@, path@),
{
    if str_eq(path, root) {
        return true;
    }
    let mut pre = chars_of(root);
    pre.push('/');
    let p = chars_of(path);
    has_prefix(p.as_slice(), pre.as_slice())
}

/// Whether a grant lets `op` touch `path`: never when forbidden; an
/// unbounded face allows anything, a read, write or read-write face only
/// its own kind of op at or below its path, and no face nothing.
pub open spec fn allowed(op: Op, path: Seq<char>, permit: Permit, face: FileFacet) -> bool {
    permit != Permit::Forbidden && match face {
        FileFacet::Nothing => false,
        FileFacet::Unbounded => true,
        FileFacet::Read { path: root, .. } => op == Op::Read && is_under(root@, path),
        FileFacet::Write { path: root, .. } => op == Op::Write && is_under(root@, path),
        FileFacet::ReadWrite { path: root, .. } => is_under(root@, path),
    }
}

pub fn allow(op: Op, path: &str, permit: Permit, face: &FileFacet) -> (r: Result<(), SubWpError>)
    ensures
        allowed(op, path@, permit, *face) ==> r is Ok,
        !allowed(op, path@, permit, *face) ==> r == Err::<(), SubWpError>(SubWpError::Denied),
{
    if permit == Permit::Forbidden {
        return Err(SubWpError::Denied);
    }
    let ok = match face {
        FileFacet::Nothing => false,
        FileFacet::Unbounded => true,
        FileFacet::Read { path: root, .. } => op == Op::Read && under(root.as_str(), path),
        FileFacet::Write { path: root, .. } => op == Op::Write && under(root.as_str(), path),
        FileFacet::ReadWrite { path: root, .. } => under(root.as_str(), path),
    };
    if ok { Ok(()) } else { Err(SubWpError::Denied) }
}

/// A path inside the sub-workplace, refused when it could escape it.
pub fn clean_path(path: &str) -> (r: Result<String, SubWpError>)
    ensures
        path_ok(path@) ==> (r matches Ok(p) && p@ == path@),
        !path_ok(path@) ==> (r matches Err(SubWpError::BadPath(p)) && p@ == path@),
{
    match crate::instance::wp::clean_path(path) {
        Ok(p) => Ok(p),
        Err(_) => Err(SubWpError::BadPath(path.to_owned())),
    }
}

/// Reading the log backwards, the first line about `path` decides: a
/// write names its blob, a tombstone means the path is gone.
pub enum Live {
    Blob(Seq<char>),
    Gone,
    NoSha,
    BadOp,
    BadLine(Seq<char>),
}

pub open spec fn live_of(log: Seq<Result<SubLine, String>>, path: Seq<char>) -> Live
    decreases log.len(),
{
    if log.len() == 0 {
        Live::Gone
    } else {
        match log.last() {
            Err(e) => Live::BadLine(e@),
            Ok(l) => if !is_text(l.path, path) {
                live_of(log.drop_last(), path)
            } else if is_text(l.op, "write"@) {
                match l.sha256 { Some(s) => Live::Blob(s@), None => Live::NoSha }
            } else if is_text(l.op, "tombstone"@) {
                Live::Gone
            } else {
                Live::BadOp
            },
        }
    }
}

/// The blob `path` currently names in the log (its lines, each read or
/// refused with a message).
pub fn live_sha(log: &[Result<SubLine, String>], path: &str) -> (r: Result<String, SubWpError>)
    ensures
        match live_of(log@, path@) {
            Live::Blob(s) => r matches Ok(x) && x@ == s,
            Live::Gone => r matches Err(SubWpError::NotFound(p)) && p@ == path@,
            Live::NoSha => r matches Err(SubWpError::Log(m)) && m@ == "write missing sha256"@,
            Live::BadOp => r matches Err(SubWpError::Log(m)) && m@ == "unknown op"@,
            Live::BadLine(e) => r matches Err(SubWpError::Log(m)) && m@ == e,
        },
{
    let mut j = log.len();
    assert(log@.subrange(0, j as int) =~= log@);
    while j > 0
        invariant
            j <= log@.len(),
            live_of(log@, path@) == live_of(log@.subrange(0, j as int), path@),
        decreases j,
    {
        let ghost pre = log@.subrange(0, j as int);
        assert(pre.last() == log@[j - 1]);
        assert(pre.drop_last() =~= log@.subrange(0, j - 1));
        match &log[j - 1] {
            Err(e) => {
                return Err(SubWpError::Log(e.clone()));
            },
            Ok(l) => {
                let here = match &l.path { Some(p) => str_eq(p.as_str(), path), None => false };
                if here {
                    let write = match &l.op { Some(o) => str_eq(o.as_str(), "write"), None => false };
                    let tomb = match &l.op { Some(o) => str_eq(o.as_str(), "tombstone"), None => false };
                    if write {
                        return match &l.sha256 {
                            Some(s) => Ok(s.clone()),
                            None => Err(SubWpError::Log("write missing sha256".to_owned())),
                        };
                    } else if tomb {
                        return Err(SubWpError::NotFound(path.to_owned()));
                    } else {
                        return Err(SubWpError::Log("unknown op".to_owned()));
                    }
                }
            },
        }
        j = j - 1;
    }
    Err(SubWpError::NotFound(path.to_owned()))
}

/// The log line of a write: its op, path and blob, keys in order.
pub open spec fn write_line(path: Seq<char>, sha: Seq<char>) -> Seq<char> {
    "{\"op\":\"write\",\"path\":"@ + json_quoted(path) + ",\"sha256\":"@ + json_quoted(sha) + "}"@
}

/// The log line of a tombstone.
pub open spec fn tombstone_line(path: Seq<char>) -> Seq<char> {
    "{\"op\":\"tombstone\",\"path\":"@ + json_quoted(path) + "}"@
}

/// A write into the sub-workplace: the path must be clean and the grant
/// must allow writing it. Gives the blob's name (the hex SHA-256 of the
/// bytes) and the log line to append.
pub fn write_record(path: &str, bytes: &[u8], permit: Permit, face: &FileFacet) -> (r: Result<(String, String), SubWpError>)
    ensures
        !path_ok(path@) ==> (r matches Err(SubWpError::BadPath(p)) && p@ == path@),
        path_ok(path@) && !allowed(Op::Write, path@, permit, *face) ==> r == Err::<(String, String), SubWpError>(SubWpError::Denied),
        path_ok(path@) && allowed(Op::Write, path@, permit, *face) ==> (r matches Ok((sha, line))
            && sha@ == hex_of(sha256(bytes@)) && line@ == write_line(path@, sha@)),
{
    let path = clean_path(path)?;
    allow(Op::Write, path.as_str(), permit, face)?;
    let digest = sha256_digest(bytes);
    let sha = hex(&digest);
    let mut out: Vec<char> = Vec::new();
    push_str(&mut out, "{\"op\":\"write\",\"path\":");
    let q = quote_json(path.as_str());
    push_str(&mut out, q.as_str());
    push_str(&mut out, ",\"sha256\":");
    let h = quote_json(sha.as_str());
    push_str(&mut out, h.as_str());
    push_str(&mut out, "}");
    Ok((sha, string_of(out.as_slice())))
}

/// A tombstone in the sub-workplace: the path must be clean and the grant
/// must allow writing it. Gives the log line to append.
pub fn tombstone_record(path: &str, permit: Permit, face: &FileFacet) -> (r: Result<String, SubWpError>)
    ensures
        !path_ok(path@) ==> (r matches Err(SubWpError::BadPath(p)) && p@ == path@),
        path_ok(path@) && !allowed(Op::Write, path@, permit, *face) ==> r == Err::<String, SubWpError>(SubWpError::Denied),
        path_ok(path@) && allowed(Op::Write, path@, permit, *face) ==> (r matches Ok(line) && line@ == tombstone_line(path@)),
{
    let path = clean_path(path)?;
    allow(Op::Write, path.as_str(), permit, face)?;
    let mut out: Vec<char> = Vec::new();
    push_str(&mut out, "{\"op\":\"tombstone\",\"path\":");
    let q = quote_json(path.as_str());
    push_str(&mut out, q.as_str());
    push_str(&mut out, "}");
    Ok(string_of(out.as_slice()))
}

/// A read from the sub-workplace: the path must be clean, the grant must
/// allow reading it, and the log must name its blob.
pub fn read_blob(log: &[Result<SubLine, String>], path: &str, permit: Permit, face: &FileFacet) -> (r: Result<String, SubWpError>)
    ensures
        !path_ok(path@) ==> (r matches Err(SubWpError::BadPath(p)) && p@ == path@),
        path_ok(path@) && !allowed(Op::Read, path@, permit, *face) ==> r == Err::<String, SubWpError>(SubWpError::Denied),
        path_ok(path@) && allowed(Op::Read, path@, permit, *face) ==> match live_of(log@, path@) {
            Live::Blob(s) => r matches Ok(x) && x@ == s,
            Live::Gone => r matches Err(SubWpError::NotFound(p)) && p@ == path@,
            Live::NoSha => r matches Err(SubWpError::Log(m)) && m@ == "write missing sha256"@,
            Live::BadOp => r matches Err(SubWpError::Log(m)) && m@ == "unknown op"@,
            Live::BadLine(e) => r matches Err(SubWpError::Log(m)) && m@ == e,
        },
{
    let path = clean_path(path)?;
    allow(Op::Read, path.as_str(), permit, face)?;
    live_sha(log, path.as_str())
}

/// The digest that links a sub-workplace's log from a product pointer:
/// the hex SHA-256 of the log's bytes.
pub fn log_digest(log_bytes: &[u8]) -> (r: String)
    ensures
        r@ == hex_of(sha256(log_bytes@)),
        r@.len() == 64,
{
    let digest = sha256_digest(log_bytes);
    hex(&digest)
}

/// A read after a write of `path` gives the blob that write named.
pub proof fn lemma_read_after_write(log: Seq<Result<SubLine, String>>, l: SubLine, path: Seq<char>)
    requires
        is_text(l.path, path),
        is_text(l.op, "write"@),
        l.sha256 is Some,
    ensures
        live_of(log.push(Ok(l)), path) == Live::Blob(l.sha256->0@),
{
    assert(log.push(Ok(l)).last() == Ok::<SubLine, String>(l));
}

/// A read after a tombstone of `path` finds nothing there.
pub proof fn lemma_read_after_tombstone(log: Seq<Result<SubLine, String>>, l: SubLine, path: Seq<char>)
    requires
        is_text(l.path, path),
        is_text(l.op, "tombstone"@),
    ensures
        live_of(log.push(Ok(l)), path) == Live::Gone,
{
    assert(log.push(Ok(l)).last() == Ok::<SubLine, String>(l));
    reveal_strlit("write");
    reveal_strlit("tombstone");
    assert("write"@.len() != "tombstone"@.len());
    assert(!is_text(l.op, "write"@));
}

/// A line about another path leaves what `path` names unchanged.
pub proof fn lemma_other_path_untouched(log: Seq<Result<SubLine, String>>, l: SubLine, path: Seq<char>)
    requires
        !is_text(l.path, path),
    ensures
        live_of(log.push(Ok(l)), path) == live_of(log, path),
{
    assert(log.push(Ok(l)).last() == Ok::<SubLine, String>(l));
    assert(log.push(Ok(l)).drop_last() =~= log);
}

} // verus!
