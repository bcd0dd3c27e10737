//! The steward's workplace: a log of published views. A sub-workplace
//! writes versions of files under true names; closing it folds its log
//! into the next view, unless two true names claim one path.
use vstd::prelude::*;

use crate::order::{chars_lt, str_lt};
use crate::workplace::id::{hex, hex_of, sha256, sha256_digest};
use crate::workplace::resource::{parse_uuid, uuid_parsed, uuid_string, uuid_text};
use crate::json::{json_quoted, quote_json};
use crate::text::{decimal, push_decimal, push_str, split, split_chars, str_eq, string_of, views_of};

verus! {

#[derive(Debug, Clone, Copy, PartialEq, Eq, Structural)]
pub enum WriteMode {
    /// Reuse the true name. `base` must be the current version of that name.
    Continue { base: u32 },
    /// Mint a new true name even if the path is already taken.
    Create,
}

/// One version of one true name.
#[derive(Debug, PartialEq, Eq)]
pub struct VerId {
    pub true_name: String,
    pub version: u32,
}

/// `dependent` was written against `depends_on`.
#[derive(Debug, PartialEq, Eq)]
pub struct DepEdge {
    pub dependent: VerId,
    pub depends_on: VerId,
}

/// Two true names claim one path.
#[derive(Debug, PartialEq, Eq)]
pub struct Conflict {
    pub path: String,
    pub existing: String,
    pub incoming: String,
}

#[derive(Debug, PartialEq, Eq)]
pub enum CloseOut {
    Empty,
    Published(String),
    Conflict(Conflict),
}

#[derive(Debug, PartialEq, Eq)]
pub enum Resolve {
    /// This true name occupies `path` in the new view. The other name does not.
    Allow { true_name: String, path: String },
    Reject,
}

/// A file of a view: a version of a true name at a path, by content hash.
#[derive(Debug, PartialEq, Eq)]
pub struct FileRec {
    pub true_name: String,
    pub version: u32,
    pub path: String,
    pub sha256: String,
}

/// A published view: its id, its files and the dependencies declared
/// when it was published.
#[derive(Debug)]
pub struct ViewRec {
    pub id: String,
    pub files: Vec<FileRec>,
    pub edges: Vec<DepEdge>,
}

/// A line of a sub-workplace's log, field by field as far as each is
/// present with the right JSON type.
#[derive(Debug)]
pub struct SubLine {
    pub op: Option<String>,
    pub path: Option<String>,
    pub true_name: Option<String>,
    pub version: Option<u64>,
    pub sha256: Option<String>,
}

/// Errors of the workplace's own logic.
#[derive(Debug, PartialEq, Eq)]
pub enum WpError {
    NotRegistered(String),
    Pending(String),
    NoCurrent(String),
    StaleBase { true_name: String, current: u32, base: u32 },
    BadPath(String),
    Cycle,
    MissingDep,
    NoView,
    MissingVersion { true_name: String, version: u32 },
    BadChoice,
}

impl Clone for VerId {
    fn clone(&self) -> (r: Self)
        ensures
            r == *self,
    {
        VerId { true_name: self.true_name.clone(), version: self.version }
    }
}

impl Clone for DepEdge {
    fn clone(&self) -> (r: Self)
        ensures
            r == *self,
    {
        DepEdge { dependent: self.dependent.clone(), depends_on: self.depends_on.clone() }
    }
}

impl Clone for Conflict {
    fn clone(&self) -> (r: Self)
        ensures
            r == *self,
    {
        Conflict { path: self.path.clone(), existing: self.existing.clone(), incoming: self.incoming.clone() }
    }
}

impl Clone for FileRec {
    fn clone(&self) -> (r: Self)
        ensures
            r == *self,
    {
        FileRec { true_name: self.true_name.clone(), version: self.version, path: self.path.clone(), sha256: self.sha256.clone() }
    }
}

/// A piece of a workplace path: not empty, `.` or `..`.
pub open spec fn piece_ok(p: Seq<char>) -> bool {
    p.len() > 0 && p != "."@ && p != ".."@
}

/// A relative path with `/` between ordinary pieces and no backslash.
pub open spec fn path_ok(p: Seq<char>) -> bool {
    &&& p.len() > 0
    &&& p[0] != '/'
    &&& !p.contains('\\')
    &&& forall|i: int| 0 <= i < split(p, '/').len() ==> piece_ok(#[trigger] split(p, '/')[i])
}

/// A path inside a sub-workplace, refused when it could escape it.
pub fn clean_path(path: &str) -> (r: Result<String, WpError>)
    ensures
        path_ok(path@) ==> (r matches Ok(p) && p@ == path@),
        !path_ok(path@) ==> (r matches Err(WpError::BadPath(p)) && p@ == path@),
{
    let cs = crate::text::chars_of(path);
    if cs.len() == 0 || cs[0] == '/' || crate::text::contains_char(cs.as_slice(), '\\') {
        return Err(WpError::BadPath(path.to_owned()));
    }
    let parts = split_chars(cs.as_slice(), '/');
    let mut i: usize = 0;
    while i < parts.len()
        invariant
            i <= parts@.len(),
            views_of(parts@) == split(path@, '/'),
            forall|k: int| 0 <= k < i ==> piece_ok(#[trigger] split(path@, '/')[k]),
        decreases parts.len() - i,
    {
        let p = &parts[i];
        assert(p@ == split(path@, '/')[i as int]);
        let dot = p.len() == 1 && p[0] == '.';
        let dots = p.len() == 2 && p[0] == '.' && p[1] == '.';
        proof {
            reveal_strlit(".");
            reveal_strlit("..");
            if dot {
                assert(p@ =~= "."@);
            }
            if dots {
                assert(p@ =~= ".."@);
            }
            if p@ == "."@ {
                assert(p@[0] == "."@[0]);
            }
            if p@ == ".."@ {
                assert(p@[0] == ".."@[0] && p@[1] == ".."@[1]);
            }
        }
        if p.len() == 0 || dot || dots {
            return Err(WpError::BadPath(path.to_owned()));
        }
        i = i + 1;
    }
    Ok(path.to_owned())
}

/// The id of the view after `n` views: `v<n+1>`.
pub open spec fn view_id(n: nat) -> Seq<char> {
    "v"@ + decimal(n + 1)
}

pub fn next_view_id(views: &[ViewRec]) -> (r: String)
    requires
        views@.len() < u64::MAX,
    ensures
        r@ == view_id(views@.len()),
{
    let mut out: Vec<char> = Vec::new();
    out.push('v');
    push_decimal((views.len() as u64) + 1, &mut out);
    assert(out@ =~= "v"@ + decimal((views@.len() + 1) as nat)) by { reveal_strlit("v"); }
    string_of(out.as_slice())
}

/// A file of a view with the given true name and version.
pub open spec fn is_version(f: FileRec, name: Seq<char>, version: u32) -> bool {
    f.true_name@ == name && f.version == version
}

/// The first file of `files` that is that version.
pub open spec fn version_in(files: Seq<FileRec>, name: Seq<char>, version: u32) -> Option<FileRec>
    decreases files.len(),
{
    if files.len() == 0 {
        None
    } else if is_version(files[0], name, version) {
        Some(files[0])
    } else {
        version_in(files.drop_first(), name, version)
    }
}

/// The version as the latest view that has it records it.
pub open spec fn version_of(views: Seq<ViewRec>, name: Seq<char>, version: u32) -> Option<FileRec>
    decreases views.len(),
{
    if views.len() == 0 {
        None
    } else {
        match version_in(views.last().files@, name, version) {
            Some(f) => Some(f),
            None => version_of(views.drop_last(), name, version),
        }
    }
}

fn find_in(files: &[FileRec], true_name: &str, version: u32) -> (r: Option<FileRec>)
    ensures
        r == version_in(files@, true_name@, version),
{
    let mut i: usize = 0;
    assert(files@.skip(0) =~= files@);
    while i < files.len()
        invariant
            i <= files@.len(),
            version_in(files@, true_name@, version) == version_in(files@.skip(i as int), true_name@, version),
        decreases files.len() - i,
    {
        assert(files@.skip(i as int)[0] == files@[i as int]);
        if files[i].version == version && str_eq(files[i].true_name.as_str(), true_name) {
            return Some(files[i].clone());
        }
        assert(files@.skip(i as int).drop_first() =~= files@.skip(i + 1));
        i = i + 1;
    }
    None
}

/// A historical version: version 0 never exists; otherwise the latest
/// view that holds it.
pub fn find_version(views: &[ViewRec], true_name: &str, version: u32) -> (r: Result<FileRec, WpError>)
    ensures
        version == 0 ==> (r matches Err(WpError::MissingVersion { true_name: n, version: v }) && n@ == true_name@ && v == 0),
        version != 0 ==> match version_of(views@, true_name@, version) {
            Some(f) => r == Ok::<FileRec, WpError>(f),
            None => r matches Err(WpError::MissingVersion { true_name: n, version: v }) && n@ == true_name@ && v == version,
        },
{
    if version == 0 {
        return Err(WpError::MissingVersion { true_name: true_name.to_owned(), version: 0 });
    }
    let mut j = views.len();
    assert(views@.subrange(0, j as int) =~= views@);
    while j > 0
        invariant
            j <= views@.len(),
            version != 0,
            version_of(views@, true_name@, version) == version_of(views@.subrange(0, j as int), true_name@, version),
        decreases j,
    {
        let ghost pre = views@.subrange(0, j as int);
        assert(pre.last() == views@[j - 1]);
        assert(pre.drop_last() =~= views@.subrange(0, j - 1));
        match find_in(views[j - 1].files.as_slice(), true_name, version) {
            Some(f) => {
                return Ok(f);
            },
            None => {},
        }
        j = j - 1;
    }
    Err(WpError::MissingVersion { true_name: true_name.to_owned(), version })
}

/// A historical version takes its name's and its path's place.
pub open spec fn applied(files: Seq<FileRec>, h: FileRec) -> Seq<FileRec> {
    files.filter(|f: FileRec| f.true_name@ != h.true_name@ && f.path@ != h.path@).push(h)
}

/// Puts a historical version back: every file of the same name or path
/// leaves, in order, and the version joins at the end.
pub fn apply_version(files: &mut Vec<FileRec>, historical: &FileRec)
    ensures
        final(files)@ == applied(old(files)@, *historical),
{
    let mut kept: Vec<FileRec> = Vec::new();
    let mut i: usize = 0;
    let ghost pred = |f: FileRec| f.true_name@ != historical.true_name@ && f.path@ != historical.path@;
    while i < files.len()
        invariant
            i <= files@.len(),
            kept@ == files@.subrange(0, i as int).filter(pred),
            pred == (|f: FileRec| f.true_name@ != historical.true_name@ && f.path@ != historical.path@),
        decreases files.len() - i,
    {
        let f = &files[i];
        assert(files@.subrange(0, i + 1).drop_last() =~= files@.subrange(0, i as int));
        let keep = !str_eq(f.true_name.as_str(), historical.true_name.as_str()) && !str_eq(f.path.as_str(), historical.path.as_str());
        if keep {
            kept.push(f.clone());
        }
        assert(kept@ =~= files@.subrange(0, i + 1).filter(pred)) by {
            reveal(Seq::filter);
        }
        i = i + 1;
    }
    assert(files@.subrange(0, files@.len() as int) =~= files@);
    kept.push(historical.clone());
    *files = kept;
}

} // verus!

verus! {

/// The field holds exactly the text `t`.
pub open spec fn is_text(o: Option<String>, t: Seq<char>) -> bool {
    o matches Some(x) && x@ == t
}

fn opt_is(o: &Option<String>, t: &str) -> (r: bool)
    ensures
        r == is_text(*o, t@),
{
    match o {
        Some(x) => str_eq(x.as_str(), t),
        None => false,
    }
}

/// The true name and version a log line writes at `path`, if it is a
/// complete write there.
pub open spec fn write_at(l: SubLine, path: Seq<char>) -> Option<(Seq<char>, u32)> {
    if is_text(l.path, path) && is_text(l.op, "write"@) && l.true_name is Some && l.version is Some {
        Some((l.true_name->0@, l.version->0 as u32))
    } else {
        None
    }
}

/// The last complete write at `path` in the log.
pub open spec fn last_write_of(log: Seq<SubLine>, path: Seq<char>) -> Option<(Seq<char>, u32)>
    decreases log.len(),
{
    if log.len() == 0 {
        None
    } else {
        match write_at(log.last(), path) {
            Some(w) => Some(w),
            None => last_write_of(log.drop_last(), path),
        }
    }
}

pub open spec fn pair_view(p: Option<(String, u32)>) -> Option<(Seq<char>, u32)> {
    match p {
        Some((n, v)) => Some((n@, v)),
        None => None,
    }
}

/// The true name and version last written at `path` in the log.
pub fn last_write(log: &[SubLine], path: &str) -> (r: Option<(String, u32)>)
    ensures
        pair_view(r) == last_write_of(log@, path@),
{
    let mut j = log.len();
    assert(log@.subrange(0, j as int) =~= log@);
    while j > 0
        invariant
            j <= log@.len(),
            last_write_of(log@, path@) == last_write_of(log@.subrange(0, j as int), path@),
        decreases j,
    {
        let ghost pre = log@.subrange(0, j as int);
        assert(pre.last() == log@[j - 1]);
        assert(pre.drop_last() =~= log@.subrange(0, j - 1));
        let l = &log[j - 1];
        if opt_is(&l.path, path) && opt_is(&l.op, "write") {
            match (&l.true_name, l.version) {
                (Some(n), Some(v)) => {
                    return Some((n.clone(), v as u32));
                },
                _ => {},
            }
        }
        j = j - 1;
    }
    None
}

/// The first file of `files` at `path`.
pub open spec fn file_at(files: Seq<FileRec>, path: Seq<char>) -> Option<FileRec>
    decreases files.len(),
{
    if files.len() == 0 {
        None
    } else if files[0].path@ == path {
        Some(files[0])
    } else {
        file_at(files.drop_first(), path)
    }
}

fn find_at(files: &[FileRec], path: &str) -> (r: Option<FileRec>)
    ensures
        r == file_at(files@, path@),
{
    let mut i: usize = 0;
    assert(files@.skip(0) =~= files@);
    while i < files.len()
        invariant
            i <= files@.len(),
            file_at(files@, path@) == file_at(files@.skip(i as int), path@),
        decreases files.len() - i,
    {
        assert(files@.skip(i as int)[0] == files@[i as int]);
        if str_eq(files[i].path.as_str(), path) {
            return Some(files[i].clone());
        }
        assert(files@.skip(i as int).drop_first() =~= files@.skip(i + 1));
        i = i + 1;
    }
    None
}

/// What `path` currently is: the last write in the log, else the file
/// at it in the latest view.
pub open spec fn current_at(views: Seq<ViewRec>, log: Seq<SubLine>, path: Seq<char>) -> Option<(Seq<char>, u32)> {
    match last_write_of(log, path) {
        Some(w) => Some(w),
        None => if views.len() == 0 {
            None
        } else {
            match file_at(views.last().files@, path) {
                Some(f) => Some((f.true_name@, f.version)),
                None => None,
            }
        },
    }
}

/// The true name and version currently at `path`.
pub fn current_of(views: &[ViewRec], log: &[SubLine], path: &str) -> (r: Result<(String, u32), WpError>)
    ensures
        match current_at(views@, log@, path@) {
            Some(c) => r matches Ok(x) && x.0@ == c.0 && x.1 == c.1,
            None => r matches Err(WpError::NoCurrent(p)) && p@ == path@,
        },
{
    match last_write(log, path) {
        Some(w) => {
            return Ok(w);
        },
        None => {},
    }
    if views.len() == 0 {
        return Err(WpError::NoCurrent(path.to_owned()));
    }
    match find_at(views[views.len() - 1].files.as_slice(), path) {
        Some(f) => Ok((f.true_name, f.version)),
        None => Err(WpError::NoCurrent(path.to_owned())),
    }
}

/// The true name currently at `path`: what a tombstone removes.
pub fn inherited_name(views: &[ViewRec], log: &[SubLine], path: &str) -> (r: Result<String, WpError>)
    ensures
        match current_at(views@, log@, path@) {
            Some(c) => r matches Ok(x) && x@ == c.0,
            None => r matches Err(WpError::NoCurrent(p)) && p@ == path@,
        },
{
    match current_of(views, log, path) {
        Ok((n, _)) => Ok(n),
        Err(e) => Err(e),
    }
}

pub open spec fn max_nat(a: nat, b: nat) -> nat {
    if a < b { b } else { a }
}

/// The highest version of `name` in the files.
pub open spec fn files_max(files: Seq<FileRec>, name: Seq<char>) -> nat
    decreases files.len(),
{
    if files.len() == 0 {
        0
    } else {
        let m = files_max(files.drop_last(), name);
        if files.last().true_name@ == name { max_nat(m, files.last().version as nat) } else { m }
    }
}

/// The highest version of `name` in any view.
pub open spec fn views_max(views: Seq<ViewRec>, name: Seq<char>) -> nat
    decreases views.len(),
{
    if views.len() == 0 {
        0
    } else {
        max_nat(views_max(views.drop_last(), name), files_max(views.last().files@, name))
    }
}

/// The highest version of `name` in the log (a line with no version
/// counts as 0).
pub open spec fn log_max(log: Seq<SubLine>, name: Seq<char>) -> nat
    decreases log.len(),
{
    if log.len() == 0 {
        0
    } else {
        let m = log_max(log.drop_last(), name);
        if is_text(log.last().true_name, name) {
            max_nat(m, (match log.last().version { Some(v) => v, None => 0 }) as u32 as nat)
        } else {
            m
        }
    }
}

/// The highest version of `name` anywhere.
pub open spec fn highest(views: Seq<ViewRec>, log: Seq<SubLine>, name: Seq<char>) -> nat {
    max_nat(views_max(views, name), log_max(log, name))
}

proof fn lemma_files_max_bounds(files: Seq<FileRec>, name: Seq<char>)
    ensures
        forall|b: int| 0 <= b < files.len() && #[trigger] files[b].true_name@ == name ==> files[b].version <= files_max(files, name),
        files_max(files, name) == 0 || exists|b: int| 0 <= b < files.len() && #[trigger] files[b].true_name@ == name
            && files[b].version == files_max(files, name),
    decreases files.len(),
{
    if files.len() > 0 {
        lemma_files_max_bounds(files.drop_last(), name);
        assert forall|b: int| 0 <= b < files.len() && #[trigger] files[b].true_name@ == name implies files[b].version <= files_max(files, name) by {
            if b < files.len() - 1 {
                assert(files.drop_last()[b] == files[b]);
            }
        }
        if files_max(files, name) != 0 && files_max(files, name) == files_max(files.drop_last(), name) {
            let b = choose|b: int| 0 <= b < files.drop_last().len() && #[trigger] files.drop_last()[b].true_name@ == name
                && files.drop_last()[b].version == files_max(files.drop_last(), name);
            assert(files[b] == files.drop_last()[b]);
        }
    }
}

proof fn lemma_views_max_bounds(views: Seq<ViewRec>, name: Seq<char>)
    ensures
        forall|a: int, b: int| 0 <= a < views.len() && 0 <= b < views[a].files@.len() && #[trigger] views[a].files@[b].true_name@ == name
            ==> views[a].files@[b].version <= views_max(views, name),
        views_max(views, name) == 0 || exists|a: int, b: int| 0 <= a < views.len() && 0 <= b < views[a].files@.len()
            && #[trigger] views[a].files@[b].true_name@ == name && views[a].files@[b].version == views_max(views, name),
    decreases views.len(),
{
    if views.len() > 0 {
        lemma_views_max_bounds(views.drop_last(), name);
        lemma_files_max_bounds(views.last().files@, name);
        let a0 = views.len() - 1;
        assert(views[a0] == views.last());
        assert forall|a: int, b: int| 0 <= a < views.len() && 0 <= b < views[a].files@.len() && #[trigger] views[a].files@[b].true_name@ == name
            implies views[a].files@[b].version <= views_max(views, name) by {
            if a < a0 {
                assert(views.drop_last()[a] == views[a]);
            }
        }
        if views_max(views, name) != 0 {
            if views_max(views, name) == views_max(views.drop_last(), name) {
                let (a, b) = choose|a: int, b: int| 0 <= a < views.drop_last().len() && 0 <= b < views.drop_last()[a].files@.len()
                    && #[trigger] views.drop_last()[a].files@[b].true_name@ == name && views.drop_last()[a].files@[b].version == views_max(views.drop_last(), name);
                assert(views[a] == views.drop_last()[a]);
            } else {
                let b = choose|b: int| 0 <= b < views.last().files@.len() && #[trigger] views.last().files@[b].true_name@ == name
                    && views.last().files@[b].version == files_max(views.last().files@, name);
                assert(views[a0].files@[b] == views.last().files@[b]);
            }
        }
    }
}

proof fn lemma_log_max_bounds(log: Seq<SubLine>, name: Seq<char>)
    ensures
        forall|i: int| 0 <= i < log.len() && (#[trigger] log[i].true_name matches Some(x) && x@ == name)
            ==> (log[i].version matches Some(w) ==> (w as u32) <= log_max(log, name)),
        log_max(log, name) == 0 || exists|i: int| 0 <= i < log.len() && (#[trigger] log[i].true_name matches Some(x) && x@ == name)
            && (log[i].version matches Some(w) && (w as u32) == log_max(log, name)),
    decreases log.len(),
{
    if log.len() > 0 {
        lemma_log_max_bounds(log.drop_last(), name);
        assert forall|i: int| 0 <= i < log.len() && (#[trigger] log[i].true_name matches Some(x) && x@ == name)
            implies (log[i].version matches Some(w) ==> (w as u32) <= log_max(log, name)) by {
            if i < log.len() - 1 {
                assert(log.drop_last()[i] == log[i]);
            }
        }
        if log_max(log, name) != 0 && log_max(log, name) == log_max(log.drop_last(), name) {
            let i = choose|i: int| 0 <= i < log.drop_last().len() && (#[trigger] log.drop_last()[i].true_name matches Some(x) && x@ == name)
                && (log.drop_last()[i].version matches Some(w) && (w as u32) == log_max(log.drop_last(), name));
            assert(log[i] == log.drop_last()[i]);
        }
    }
}

/// A write is numbered past every version its true name already has: the
/// highest version is at least each version of the name that a view holds
/// or the sub-workplace log records, and is one of them (or 0 where there
/// is none), so the next version, one past it, is new.
pub proof fn lemma_highest_is_the_highest(views: Seq<ViewRec>, log: Seq<SubLine>, name: Seq<char>)
    ensures
        forall|a: int, b: int| 0 <= a < views.len() && 0 <= b < views[a].files@.len() && #[trigger] views[a].files@[b].true_name@ == name
            ==> views[a].files@[b].version < highest(views, log, name) + 1,
        forall|i: int| 0 <= i < log.len() && (#[trigger] log[i].true_name matches Some(x) && x@ == name)
            ==> (log[i].version matches Some(w) ==> (w as u32) < highest(views, log, name) + 1),
        highest(views, log, name) == 0
            || (exists|a: int, b: int| 0 <= a < views.len() && 0 <= b < views[a].files@.len()
                && #[trigger] views[a].files@[b].true_name@ == name && views[a].files@[b].version == highest(views, log, name))
            || (exists|i: int| 0 <= i < log.len() && (#[trigger] log[i].true_name matches Some(x) && x@ == name)
                && (log[i].version matches Some(w) && (w as u32) == highest(views, log, name))),
{
    lemma_views_max_bounds(views, name);
    lemma_log_max_bounds(log, name);
}

/// The next version of `name`: one past the highest in any view or the log.
pub fn next_version(views: &[ViewRec], log: &[SubLine], true_name: &str) -> (r: u32)
    requires
        highest(views@, log@, true_name@) < u32::MAX,
    ensures
        r == highest(views@, log@, true_name@) + 1,
{
    highest_version(views, log, true_name) + 1
}

/// The highest version of `name` in any view or the log.
pub fn highest_version(views: &[ViewRec], log: &[SubLine], true_name: &str) -> (r: u32)
    ensures
        r == highest(views@, log@, true_name@),
{
    let mut max: u32 = 0;
    let mut i: usize = 0;
    assert(views@.subrange(0, 0) =~= Seq::<ViewRec>::empty());
    while i < views.len()
        invariant
            i <= views@.len(),
            max == views_max(views@.subrange(0, i as int), true_name@),
        decreases views.len() - i,
    {
        let files = &views[i].files;
        let mut m: u32 = 0;
        let mut k: usize = 0;
        assert(files@.subrange(0, 0) =~= Seq::<FileRec>::empty());
        while k < files.len()
            invariant
                k <= files@.len(),
                m == files_max(files@.subrange(0, k as int), true_name@),
            decreases files.len() - k,
        {
            assert(files@.subrange(0, k + 1).drop_last() =~= files@.subrange(0, k as int));
            if str_eq(files[k].true_name.as_str(), true_name) && m < files[k].version {
                m = files[k].version;
            }
            k = k + 1;
        }
        assert(files@.subrange(0, files@.len() as int) =~= files@);
        assert(views@.subrange(0, i + 1).drop_last() =~= views@.subrange(0, i as int));
        if max < m {
            max = m;
        }
        i = i + 1;
    }
    assert(views@.subrange(0, views@.len() as int) =~= views@);
    let mut lm: u32 = 0;
    let mut k: usize = 0;
    assert(log@.subrange(0, 0) =~= Seq::<SubLine>::empty());
    while k < log.len()
        invariant
            k <= log@.len(),
            lm == log_max(log@.subrange(0, k as int), true_name@),
        decreases log.len() - k,
    {
        assert(log@.subrange(0, k + 1).drop_last() =~= log@.subrange(0, k as int));
        if opt_is(&log[k].true_name, true_name) {
            let v: u32 = match log[k].version { Some(v) => v as u32, None => 0 };
            if lm < v {
                lm = v;
            }
        }
        k = k + 1;
    }
    assert(log@.subrange(0, log@.len() as int) =~= log@);
    if max < lm {
        max = lm;
    }
    max
}

/// Whether a write at `path` in `mode` leaves room for one more version
/// of the true name it lands on.
pub fn version_room(views: &[ViewRec], log: &[SubLine], path: &str, mode: WriteMode, minted: &str) -> (r: bool)
    ensures
        r == match write_name(views@, log@, path@, mode, minted@) {
            Some(n) => highest(views@, log@, n) < u32::MAX,
            None => true,
        },
{
    match mode {
        WriteMode::Continue { .. } => match current_of(views, log, path) {
            Ok((name, _)) => highest_version(views, log, name.as_str()) < u32::MAX,
            Err(_) => true,
        },
        WriteMode::Create => highest_version(views, log, minted) < u32::MAX,
    }
}

} // verus!

verus! {

pub struct FileView {
    pub true_name: Seq<char>,
    pub version: u32,
    pub path: Seq<char>,
    pub sha256: Seq<char>,
}

impl View for FileRec {
    type V = FileView;

    open spec fn view(&self) -> FileView {
        FileView { true_name: self.true_name@, version: self.version, path: self.path@, sha256: self.sha256@ }
    }
}

pub open spec fn text_or_empty(o: Option<String>) -> Seq<char> {
    match o {
        Some(s) => s@,
        None => Seq::empty(),
    }
}

/// The file a write line records (missing fields read as empty or 0).
pub open spec fn line_rec(l: SubLine) -> FileView {
    FileView {
        true_name: text_or_empty(l.true_name),
        version: (match l.version { Some(v) => v, None => 0 }) as u32,
        path: text_or_empty(l.path),
        sha256: text_or_empty(l.sha256),
    }
}

/// Files by path, and the first conflict met.
pub struct Folded {
    pub files: Map<Seq<char>, FileView>,
    pub conflict: Option<(Seq<char>, Seq<char>, Seq<char>)>,
}

/// The files of a view by path; a later file at a path replaces an earlier.
pub open spec fn files_map(files: Seq<FileRec>) -> Map<Seq<char>, FileView>
    decreases files.len(),
{
    if files.len() == 0 {
        Map::empty()
    } else {
        files_map(files.drop_last()).insert(files.last().path@, files.last()@)
    }
}

/// One log line: a tombstone drops its path; a write puts its file at its
/// path, and is the first conflict when another true name held the path.
pub open spec fn fold_step(st: Folded, l: SubLine) -> Folded {
    let path = text_or_empty(l.path);
    if is_text(l.op, "tombstone"@) {
        Folded { files: st.files.remove(path), conflict: st.conflict }
    } else if is_text(l.op, "write"@) {
        let rec = line_rec(l);
        let conflict = if st.files.contains_key(path) && st.files[path].true_name != rec.true_name && st.conflict is None {
            Some((path, st.files[path].true_name, rec.true_name))
        } else {
            st.conflict
        };
        Folded { files: st.files.insert(path, rec), conflict }
    } else {
        st
    }
}

pub open spec fn fold_log(init: Folded, log: Seq<SubLine>) -> Folded
    decreases log.len(),
{
    if log.len() == 0 { init } else { fold_step(fold_log(init, log.drop_last()), log.last()) }
}

/// What closing folds: the current view's files, then the log.
pub open spec fn reduced(current: Option<&ViewRec>, log: Seq<SubLine>) -> Folded {
    let init = match current {
        Some(v) => files_map(v.files@),
        None => Map::empty(),
    };
    fold_log(Folded { files: init, conflict: None }, log)
}

proof fn lemma_fold_tombstone(init: Folded, log: Seq<SubLine>, k: int, p: Seq<char>)
    requires
        0 <= k < log.len(),
        p.len() > 0,
        log[k].op matches Some(x) && x@ == "tombstone"@,
        log[k].path matches Some(x) && x@ == p,
        forall|j: int| k < j < log.len() && (#[trigger] log[j].path matches Some(x) && x@ == p) ==> !(log[j].op matches Some(y) && y@ == "write"@),
    ensures
        !fold_log(init, log).files.contains_key(p),
    decreases log.len(),
{
    let prev = fold_log(init, log.drop_last());
    if k < log.len() - 1 {
        lemma_fold_tombstone(init, log.drop_last(), k, p);
    }
    let l = log.last();
    assert(fold_log(init, log) == fold_step(prev, l));
    if !is_text(l.op, "tombstone"@) && is_text(l.op, "write"@) {
        assert(text_or_empty(l.path) != p);
    }
}

/// Closing never publishes a path tombstoned after its last write: where
/// a log line tombstones `p` and no later line writes `p`, the files the
/// log reduces to have nothing at `p`, whatever the current view held, and
/// no listing of them names `p`.
pub proof fn lemma_tombstone_leaves_no_file(current: Option<&ViewRec>, log: Seq<SubLine>, k: int, p: Seq<char>)
    requires
        0 <= k < log.len(),
        p.len() > 0,
        log[k].op matches Some(x) && x@ == "tombstone"@,
        log[k].path matches Some(x) && x@ == p,
        forall|j: int| k < j < log.len() && (#[trigger] log[j].path matches Some(x) && x@ == p) ==> !(log[j].op matches Some(y) && y@ == "write"@),
    ensures
        !reduced(current, log).files.contains_key(p),
        forall|fs: Seq<FileRec>, i: int| lists_map(fs, reduced(current, log).files) && 0 <= i < fs.len() ==> fs[i].path@ != p,
{
    let init = match current {
        Some(v) => files_map(v.files@),
        None => Map::empty(),
    };
    lemma_fold_tombstone(Folded { files: init, conflict: None }, log, k, p);
}

/// Files in strictly increasing path order (so no path twice).
pub open spec fn by_path(files: Seq<FileRec>) -> bool {
    forall|i: int, j: int| 0 <= i < j < files.len() ==> chars_lt(#[trigger] files[i].path@, #[trigger] files[j].path@)
}

/// `files`, in path order, are exactly the map.
pub open spec fn lists_map(files: Seq<FileRec>, m: Map<Seq<char>, FileView>) -> bool {
    &&& by_path(files)
    &&& forall|k: int| 0 <= k < files.len() ==> m.contains_key(#[trigger] files[k].path@) && m[files[k].path@] == files[k]@
    &&& forall|p: Seq<char>| #[trigger] m.contains_key(p) ==> exists|k: int| 0 <= k < files.len() && files[k].path@ == p
}

pub open spec fn conflict_view(c: Option<Conflict>) -> Option<(Seq<char>, Seq<char>, Seq<char>)> {
    match c {
        Some(x) => Some((x.path@, x.existing@, x.incoming@)),
        None => None,
    }
}

proof fn lemma_by_path_unique(files: Seq<FileRec>, a: int, b: int)
    requires
        by_path(files),
        0 <= a < files.len(),
        0 <= b < files.len(),
        files[a].path@ == files[b].path@,
    ensures
        a == b,
{
    if a < b {
        assert(chars_lt(files[a].path@, files[b].path@));
        crate::order::lemma_lt_irreflexive(files[a].path@);
    } else if b < a {
        assert(chars_lt(files[b].path@, files[a].path@));
        crate::order::lemma_lt_irreflexive(files[a].path@);
    }
}

/// Where a file at `path` sits in path-ordered `files`.
fn path_slot(files: &Vec<FileRec>, path: &str) -> (r: (usize, bool))
    requires
        by_path(files@),
    ensures
        r.0 <= files@.len(),
        forall|k: int| 0 <= k < r.0 ==> chars_lt(#[trigger] files@[k].path@, path@),
        r.1 == (r.0 < files@.len() && files@[r.0 as int].path@ == path@),
        !r.1 ==> forall|k: int| r.0 <= k < files@.len() ==> chars_lt(path@, #[trigger] files@[k].path@),
{
    let mut p: usize = 0;
    while p < files.len() && str_lt(files[p].path.as_str(), path)
        invariant
            p <= files@.len(),
            forall|k: int| 0 <= k < p ==> chars_lt(#[trigger] files@[k].path@, path@),
        decreases files.len() - p,
    {
        p = p + 1;
    }
    let found = p < files.len() && str_eq(files[p].path.as_str(), path);
    proof {
        if !found {
            assert forall|k: int| p <= k < files@.len() implies chars_lt(path@, #[trigger] files@[k].path@) by {
                crate::order::lemma_lt_total(path@, files@[p as int].path@);
                if k > p {
                    crate::order::lemma_lt_transitive(path@, files@[p as int].path@, files@[k].path@);
                }
            }
        }
    }
    (p, found)
}

/// Puts `rec` at its path, replacing what was there.
fn put_file(files: &mut Vec<FileRec>, rec: FileRec, m: Ghost<Map<Seq<char>, FileView>>)
    requires
        lists_map(old(files)@, m@),
    ensures
        lists_map(final(files)@, m@.insert(rec.path@, rec@)),
{
    let ghost old_files = files@;
    let ghost path = rec.path@;
    let (p, found) = path_slot(files, rec.path.as_str());
    let ghost r = rec;
    if found {
        files.set(p, rec);
    } else {
        files.insert(p, rec);
    }
    proof {
        let nm = m@.insert(path, r@);
        let nf = files@;
        assert(by_path(nf)) by {
            assert forall|i: int, j: int| 0 <= i < j < nf.len() implies chars_lt(#[trigger] nf[i].path@, #[trigger] nf[j].path@) by {
                if found {
                    if i == p {
                        assert(old_files[i].path@ == path);
                    }
                    if j == p {
                        assert(old_files[j].path@ == path);
                    }
                } else {
                    if i < p && j < p {
                    } else if i < p && j == p {
                    } else if i < p {
                        assert(nf[j] == old_files[j - 1]);
                    } else if i == p {
                        assert(nf[j] == old_files[j - 1]);
                    } else {
                        assert(nf[i] == old_files[i - 1] && nf[j] == old_files[j - 1]);
                    }
                }
            }
        }
        assert forall|k: int| 0 <= k < nf.len() implies nm.contains_key(#[trigger] nf[k].path@) && nm[nf[k].path@] == nf[k]@ by {
            if nf[k].path@ != path {
                let o: int = if found || k < p { k } else { k - 1 };
                assert(nf[k] == old_files[o]);
            } else {
                lemma_by_path_unique(nf, k, p as int);
            }
        }
        assert forall|q: Seq<char>| #[trigger] nm.contains_key(q) implies exists|k: int| 0 <= k < nf.len() && nf[k].path@ == q by {
            if q == path {
                assert(nf[p as int].path@ == q);
            } else {
                assert(m@.contains_key(q));
                let k = choose|k: int| 0 <= k < old_files.len() && old_files[k].path@ == q;
                if found {
                    assert(k != p);
                    assert(nf[k] == old_files[k]);
                } else if k < p {
                    assert(nf[k] == old_files[k]);
                } else {
                    assert(nf[k + 1] == old_files[k]);
                }
            }
        }
    }
}

/// Drops the file at `path`, if any.
fn drop_file(files: &mut Vec<FileRec>, path: &str, m: Ghost<Map<Seq<char>, FileView>>)
    requires
        lists_map(old(files)@, m@),
    ensures
        lists_map(final(files)@, m@.remove(path@)),
{
    let ghost old_files = files@;
    let (p, found) = path_slot(files, path);
    if found {
        files.remove(p);
    }
    proof {
        let nm = m@.remove(path@);
        let nf = files@;
        assert(by_path(nf)) by {
            if found {
                assert forall|i: int, j: int| 0 <= i < j < nf.len() implies chars_lt(#[trigger] nf[i].path@, #[trigger] nf[j].path@) by {
                    let oi: int = if i < p { i } else { i + 1 };
                    let oj: int = if j < p { j } else { j + 1 };
                    assert(nf[i] == old_files[oi] && nf[j] == old_files[oj]);
                }
            }
        }
        assert forall|k: int| 0 <= k < nf.len() implies nm.contains_key(#[trigger] nf[k].path@) && nm[nf[k].path@] == nf[k]@ by {
            let o: int = if !found || k < p { k } else { k + 1 };
            assert(nf[k] == old_files[o]);
            if found {
                if old_files[o].path@ == path@ {
                    lemma_by_path_unique(old_files, o, p as int);
                }
            } else {
                if old_files[o].path@ == path@ {
                    if o < p {
                        crate::order::lemma_lt_irreflexive(path@);
                    } else {
                        crate::order::lemma_lt_irreflexive(path@);
                    }
                }
            }
        }
        assert forall|q: Seq<char>| #[trigger] nm.contains_key(q) implies exists|k: int| 0 <= k < nf.len() && nf[k].path@ == q by {
            assert(m@.contains_key(q));
            let k = choose|k: int| 0 <= k < old_files.len() && old_files[k].path@ == q;
            if found {
                assert(k != p);
                if k < p {
                    assert(nf[k] == old_files[k]);
                } else {
                    assert(nf[k - 1] == old_files[k]);
                }
            } else {
                assert(nf[k] == old_files[k]);
            }
        }
    }
}

} // verus!

verus! {

fn text_or_empty_of(o: &Option<String>) -> (r: String)
    ensures
        r@ == text_or_empty(*o),
{
    match o {
        Some(s) => s.clone(),
        None => String::new(),
    }
}

/// What closing a sub-workplace folds: the current view's files with the
/// log applied, in path order, and the first path two true names claimed.
pub fn reduce(current: Option<&ViewRec>, log: &[SubLine]) -> (r: (Vec<FileRec>, Option<Conflict>))
    ensures
        lists_map(r.0@, reduced(current, log@).files),
        conflict_view(r.1) == reduced(current, log@).conflict,
{
    let mut files: Vec<FileRec> = Vec::new();
    let ghost init: Map<Seq<char>, FileView> = match current {
        Some(v) => files_map(v.files@),
        None => Map::empty(),
    };
    match current {
        Some(view) => {
            let mut i: usize = 0;
            assert(view.files@.subrange(0, 0) =~= Seq::<FileRec>::empty());
            while i < view.files.len()
                invariant
                    i <= view.files@.len(),
                    lists_map(files@, files_map(view.files@.subrange(0, i as int))),
                decreases view.files.len() - i,
            {
                let ghost m = files_map(view.files@.subrange(0, i as int));
                assert(view.files@.subrange(0, i + 1).drop_last() =~= view.files@.subrange(0, i as int));
                put_file(&mut files, view.files[i].clone(), Ghost(m));
                i = i + 1;
            }
            assert(view.files@.subrange(0, view.files@.len() as int) =~= view.files@);
        },
        None => {
            assert(lists_map(files@, Map::empty()));
        },
    }
    let mut conflict: Option<Conflict> = None;
    let mut k: usize = 0;
    assert(log@.subrange(0, 0) =~= Seq::<SubLine>::empty());
    while k < log.len()
        invariant
            k <= log@.len(),
            ({
                let st = fold_log(Folded { files: init, conflict: None }, log@.subrange(0, k as int));
                &&& lists_map(files@, st.files)
                &&& conflict_view(conflict) == st.conflict
            }),
        decreases log.len() - k,
    {
        let ghost st = fold_log(Folded { files: init, conflict: None }, log@.subrange(0, k as int));
        assert(log@.subrange(0, k + 1).drop_last() =~= log@.subrange(0, k as int));
        assert(log@.subrange(0, k + 1).last() == log@[k as int]);
        let l = &log[k];
        let path = text_or_empty_of(&l.path);
        if opt_is(&l.op, "tombstone") {
            drop_file(&mut files, path.as_str(), Ghost(st.files));
        } else if opt_is(&l.op, "write") {
            let rec = FileRec {
                true_name: text_or_empty_of(&l.true_name),
                version: match l.version { Some(v) => v as u32, None => 0 },
                path: path.clone(),
                sha256: text_or_empty_of(&l.sha256),
            };
            let (p, found) = path_slot(&files, path.as_str());
            proof {
                if found {
                    assert(st.files.contains_key(path@));
                    assert(st.files[path@] == files@[p as int]@);
                } else if st.files.contains_key(path@) {
                    let w = choose|w: int| 0 <= w < files@.len() && files@[w].path@ == path@;
                    if w < p {
                        crate::order::lemma_lt_irreflexive(path@);
                    } else {
                        crate::order::lemma_lt_irreflexive(path@);
                    }
                }
            }
            if found && conflict.is_none() && !str_eq(files[p].true_name.as_str(), rec.true_name.as_str()) {
                conflict = Some(Conflict { path: path.clone(), existing: files[p].true_name.clone(), incoming: rec.true_name.clone() });
            }
            put_file(&mut files, rec, Ghost(st.files));
        }
        k = k + 1;
    }
    assert(log@.subrange(0, log@.len() as int) =~= log@);
    (files, conflict)
}

} // verus!

verus! {

/// The file a conflict resolution puts at `path` for `name`: its last
/// write in the log, else its file in the current view.
pub open spec fn chosen_line(log: Seq<SubLine>, name: Seq<char>) -> Option<SubLine>
    decreases log.len(),
{
    if log.len() == 0 {
        None
    } else if is_text(log.last().op, "write"@) && is_text(log.last().true_name, name) {
        Some(log.last())
    } else {
        chosen_line(log.drop_last(), name)
    }
}

/// The first file of `files` with the true name `name`.
pub open spec fn named(files: Seq<FileRec>, name: Seq<char>) -> Option<FileRec>
    decreases files.len(),
{
    if files.len() == 0 {
        None
    } else if files[0].true_name@ == name {
        Some(files[0])
    } else {
        named(files.drop_first(), name)
    }
}

pub open spec fn chosen(current: Option<&ViewRec>, log: Seq<SubLine>, name: Seq<char>, path: Seq<char>) -> Option<FileView> {
    match chosen_line(log, name) {
        Some(l) => Some(FileView {
            true_name: name,
            version: (match l.version { Some(v) => v, None => 0 }) as u32,
            path,
            sha256: text_or_empty(l.sha256),
        }),
        None => match current {
            Some(v) => match named(v.files@, name) {
                Some(f) => Some(FileView { true_name: f.true_name@, version: f.version, path, sha256: f.sha256@ }),
                None => None,
            },
            None => None,
        },
    }
}

/// The file the allowed true name brings to `path`.
pub fn chosen_rec(current: Option<&ViewRec>, log: &[SubLine], true_name: &str, path: &str) -> (r: Result<FileRec, WpError>)
    ensures
        match chosen(current, log@, true_name@, path@) {
            Some(f) => r matches Ok(x) && x@ == f,
            None => r matches Err(WpError::MissingVersion { true_name: n, version: v }) && n@ == true_name@ && v == 0,
        },
{
    let mut j = log.len();
    assert(log@.subrange(0, j as int) =~= log@);
    while j > 0
        invariant
            j <= log@.len(),
            chosen_line(log@, true_name@) == chosen_line(log@.subrange(0, j as int), true_name@),
        decreases j,
    {
        let ghost pre = log@.subrange(0, j as int);
        assert(pre.last() == log@[j - 1]);
        assert(pre.drop_last() =~= log@.subrange(0, j - 1));
        let l = &log[j - 1];
        if opt_is(&l.op, "write") && opt_is(&l.true_name, true_name) {
            return Ok(FileRec {
                true_name: true_name.to_owned(),
                version: match l.version { Some(v) => v as u32, None => 0 },
                path: path.to_owned(),
                sha256: text_or_empty_of(&l.sha256),
            });
        }
        j = j - 1;
    }
    assert(chosen_line(log@.subrange(0, 0), true_name@) is None);
    match current {
        Some(v) => {
            let mut i: usize = 0;
            assert(v.files@.skip(0) =~= v.files@);
            while i < v.files.len()
                invariant
                    i <= v.files@.len(),
                    chosen_line(log@, true_name@) is None,
                    current == Some(v),
                    named(v.files@, true_name@) == named(v.files@.skip(i as int), true_name@),
                decreases v.files.len() - i,
            {
                assert(v.files@.skip(i as int)[0] == v.files@[i as int]);
                if str_eq(v.files[i].true_name.as_str(), true_name) {
                    let mut f = v.files[i].clone();
                    f.path = path.to_owned();
                    return Ok(f);
                }
                assert(v.files@.skip(i as int).drop_first() =~= v.files@.skip(i + 1));
                i = i + 1;
            }
            Err(WpError::MissingVersion { true_name: true_name.to_owned(), version: 0 })
        },
        None => Err(WpError::MissingVersion { true_name: true_name.to_owned(), version: 0 }),
    }
}

/// Whether some file is that version of that name.
pub open spec fn has_version(files: Seq<FileRec>, v: VerId) -> bool {
    exists|k: int| 0 <= k < files.len() && #[trigger] files[k].true_name@ == v.true_name@ && files[k].version == v.version
}

/// Every edge joins two versions that the files hold.
pub open spec fn edges_known(files: Seq<FileRec>, edges: Seq<DepEdge>) -> bool {
    forall|i: int| 0 <= i < edges.len() ==> has_version(files, (#[trigger] edges[i]).dependent) && has_version(files, edges[i].depends_on)
}

/// Edge `j` can be the last step of a walk of at most `k` steps from `a`
/// along the dependency edges (dependent to depended-on true name).
pub open spec fn in_reach(edges: Seq<DepEdge>, a: Seq<char>, k: nat, j: int) -> bool
    decreases k,
{
    &&& k > 0
    &&& 0 <= j < edges.len()
    &&& (edges[j].dependent.true_name@ == a
        || exists|i: int| 0 <= i < edges.len() && in_reach(edges, a, (k - 1) as nat, i)
            && #[trigger] edges[i].depends_on.true_name@ == edges[j].dependent.true_name@)
}

/// A walk of at most `k` steps leads from `a` to `b`.
pub open spec fn reaches(edges: Seq<DepEdge>, a: Seq<char>, b: Seq<char>, k: nat) -> bool {
    exists|j: int| 0 <= j < edges.len() && in_reach(edges, a, k, j) && #[trigger] edges[j].depends_on.true_name@ == b
}

/// Some true name depends on itself through the edges: a walk that comes
/// back to where it started. (A shortest such walk takes no edge twice,
/// so it has at most as many steps as there are edges.)
pub open spec fn has_cycle(edges: Seq<DepEdge>) -> bool {
    exists|i: int| 0 <= i < edges.len()
        && reaches(edges, (#[trigger] edges[i]).dependent.true_name@, edges[i].dependent.true_name@, edges.len() as nat)
}

fn knows_version(files: &[FileRec], v: &VerId) -> (r: bool)
    ensures
        r == has_version(files@, *v),
{
    let mut k: usize = 0;
    while k < files.len()
        invariant
            k <= files@.len(),
            forall|t: int| 0 <= t < k ==> !(#[trigger] files@[t].true_name@ == v.true_name@ && files@[t].version == v.version),
        decreases files.len() - k,
    {
        if files[k].version == v.version && str_eq(files[k].true_name.as_str(), v.true_name.as_str()) {
            return true;
        }
        k = k + 1;
    }
    false
}

/// The edges usable within `k + 1` steps from `a`, given those usable
/// within `k`.
fn widen(edges: &[DepEdge], a: &str, k: Ghost<nat>, prev: &Vec<bool>) -> (r: Vec<bool>)
    requires
        prev@.len() == edges@.len(),
        forall|j: int| 0 <= j < edges@.len() ==> #[trigger] prev@[j] == in_reach(edges@, a@, k@, j),
    ensures
        r@.len() == edges@.len(),
        forall|j: int| 0 <= j < edges@.len() ==> #[trigger] r@[j] == in_reach(edges@, a@, k@ + 1, j),
{
    let mut out: Vec<bool> = Vec::new();
    let mut j: usize = 0;
    while j < edges.len()
        invariant
            j <= edges@.len(),
            prev@.len() == edges@.len(),
            forall|t: int| 0 <= t < edges@.len() ==> #[trigger] prev@[t] == in_reach(edges@, a@, k@, t),
            out@.len() == j,
            forall|t: int| 0 <= t < j ==> #[trigger] out@[t] == in_reach(edges@, a@, k@ + 1, t),
        decreases edges.len() - j,
    {
        let mut hit = str_eq(edges[j].dependent.true_name.as_str(), a);
        let mut i: usize = 0;
        while i < edges.len()
            invariant
                j < edges@.len(),
                i <= edges@.len(),
                prev@.len() == edges@.len(),
                forall|t: int| 0 <= t < edges@.len() ==> #[trigger] prev@[t] == in_reach(edges@, a@, k@, t),
                hit == (edges@[j as int].dependent.true_name@ == a@
                    || exists|t: int| 0 <= t < i && in_reach(edges@, a@, k@, t)
                        && #[trigger] edges@[t].depends_on.true_name@ == edges@[j as int].dependent.true_name@),
            decreases edges.len() - i,
        {
            if prev[i] && str_eq(edges[i].depends_on.true_name.as_str(), edges[j].dependent.true_name.as_str()) {
                hit = true;
            }
            i = i + 1;
        }
        out.push(hit);
        assert(out@[j as int] == in_reach(edges@, a@, k@ + 1, j as int));
        j = j + 1;
    }
    out
}

/// Whether a walk of at most as many steps as there are edges leads from
/// `a` back to `a`.
fn returns_to(edges: &[DepEdge], a: &str) -> (r: bool)
    ensures
        r == reaches(edges@, a@, a@, edges@.len() as nat),
{
    let n = edges.len();
    let mut f: Vec<bool> = Vec::new();
    let mut j: usize = 0;
    while j < n
        invariant
            n == edges@.len(),
            j <= n,
            f@.len() == j,
            forall|t: int| 0 <= t < j ==> #[trigger] f@[t] == in_reach(edges@, a@, 0, t),
        decreases n - j,
    {
        f.push(false);
        j = j + 1;
    }
    let mut k: usize = 0;
    while k < n
        invariant
            n == edges@.len(),
            k <= n,
            f@.len() == n,
            forall|t: int| 0 <= t < n ==> #[trigger] f@[t] == in_reach(edges@, a@, k as nat, t),
        decreases n - k,
    {
        f = widen(edges, a, Ghost(k as nat), &f);
        k = k + 1;
    }
    let mut j: usize = 0;
    while j < n
        invariant
            n == edges@.len(),
            j <= n,
            f@.len() == n,
            forall|t: int| 0 <= t < n ==> #[trigger] f@[t] == in_reach(edges@, a@, n as nat, t),
            forall|t: int| 0 <= t < j ==> !(in_reach(edges@, a@, n as nat, t) && #[trigger] edges@[t].depends_on.true_name@ == a@),
        decreases n - j,
    {
        if f[j] && str_eq(edges[j].depends_on.true_name.as_str(), a) {
            return true;
        }
        j = j + 1;
    }
    false
}

/// Declared dependencies must join versions the new view holds and must
/// not loop.
pub fn check_edges(files: &[FileRec], extra: &[DepEdge]) -> (r: Result<(), WpError>)
    ensures
        !edges_known(files@, extra@) ==> r == Err::<(), WpError>(WpError::MissingDep),
        edges_known(files@, extra@) && has_cycle(extra@) ==> r == Err::<(), WpError>(WpError::Cycle),
        edges_known(files@, extra@) && !has_cycle(extra@) ==> r is Ok,
{
    let mut i: usize = 0;
    while i < extra.len()
        invariant
            i <= extra@.len(),
            forall|t: int| 0 <= t < i ==> has_version(files@, (#[trigger] extra@[t]).dependent) && has_version(files@, extra@[t].depends_on),
        decreases extra.len() - i,
    {
        if !knows_version(files, &extra[i].dependent) || !knows_version(files, &extra[i].depends_on) {
            return Err(WpError::MissingDep);
        }
        i = i + 1;
    }
    let mut i: usize = 0;
    while i < extra.len()
        invariant
            i <= extra@.len(),
            edges_known(files@, extra@),
            forall|t: int| 0 <= t < i ==> !reaches(extra@, (#[trigger] extra@[t]).dependent.true_name@, extra@[t].dependent.true_name@, extra@.len() as nat),
        decreases extra.len() - i,
    {
        if returns_to(extra, extra[i].dependent.true_name.as_str()) {
            return Err(WpError::Cycle);
        }
        i = i + 1;
    }
    Ok(())
}

} // verus!

verus! {

/// Files in path order, equal paths in any order.
pub open spec fn path_sorted(files: Seq<FileRec>) -> bool {
    forall|i: int, j: int| 0 <= i < j < files.len() ==> !chars_lt(#[trigger] files[j].path@, #[trigger] files[i].path@)
}

proof fn lemma_lt_le(a: Seq<char>, b: Seq<char>, c: Seq<char>)
    requires
        chars_lt(a, b),
        !chars_lt(c, b),
    ensures
        chars_lt(a, c),
{
    crate::order::lemma_lt_total(b, c);
    if b != c {
        crate::order::lemma_lt_transitive(a, b, c);
    }
}

/// The files sorted by path; files with one path keep their order.
pub fn sort_by_path(files: Vec<FileRec>) -> (r: Vec<FileRec>)
    ensures
        path_sorted(r@),
        r@.to_multiset() == files@.to_multiset(),
{
    let mut out: Vec<FileRec> = Vec::new();
    let mut i: usize = 0;
    assert(out@ =~= files@.subrange(0, 0));
    while i < files.len()
        invariant
            i <= files@.len(),
            path_sorted(out@),
            out@.to_multiset() == files@.subrange(0, i as int).to_multiset(),
        decreases files.len() - i,
    {
        let x = files[i].clone();
        let mut p: usize = 0;
        while p < out.len() && !str_lt(x.path.as_str(), out[p].path.as_str())
            invariant
                p <= out@.len(),
                forall|k: int| 0 <= k < p ==> !chars_lt(x.path@, #[trigger] out@[k].path@),
            decreases out.len() - p,
        {
            p = p + 1;
        }
        let ghost before = out@;
        proof {
            assert forall|k: int| p <= k < before.len() implies chars_lt(x.path@, #[trigger] before[k].path@) by {
                if k > p {
                    lemma_lt_le(x.path@, before[p as int].path@, before[k].path@);
                }
            }
        }
        out.insert(p, x);
        proof {
            vstd::seq_lib::to_multiset_insert(before, p as int, x);
            assert(files@.subrange(0, i + 1) =~= files@.subrange(0, i as int).push(files@[i as int]));
            vstd::seq_lib::to_multiset_build(files@.subrange(0, i as int), files@[i as int]);
            assert forall|a: int, b: int| 0 <= a < b < out@.len() implies !chars_lt(#[trigger] out@[b].path@, #[trigger] out@[a].path@) by {
                if a < p && b < p {
                    assert(out@[a] == before[a] && out@[b] == before[b]);
                } else if a < p && b == p {
                    assert(out@[a] == before[a]);
                } else if a < p {
                    assert(out@[a] == before[a] && out@[b] == before[b - 1]);
                    crate::order::lemma_lt_total(before[b - 1].path@, before[a].path@);
                } else if a == p {
                    assert(out@[b] == before[b - 1]);
                    crate::order::lemma_lt_total(before[b - 1].path@, x.path@);
                } else {
                    assert(out@[a] == before[a - 1] && out@[b] == before[b - 1]);
                }
            }
        }
        i = i + 1;
    }
    assert(files@.subrange(0, files@.len() as int) =~= files@);
    out
}

} // verus!

verus! {

/// What closing a sub-workplace comes to.
pub enum ClosePlan {
    /// Nothing was written: unmount, publish nothing.
    Empty,
    /// Two true names claim a path: wait for a resolution.
    Conflict(Conflict),
    /// Publish these files, in path order, as the next view.
    Publish(Vec<FileRec>),
}

/// The map holds version `v` at some path.
pub open spec fn map_has_version(m: Map<Seq<char>, FileView>, v: VerId) -> bool {
    exists|p: Seq<char>| #[trigger] m.contains_key(p) && m[p].true_name == v.true_name@ && m[p].version == v.version
}

/// Every edge joins two versions that the map holds.
pub open spec fn edges_known_in(m: Map<Seq<char>, FileView>, edges: Seq<DepEdge>) -> bool {
    forall|i: int| 0 <= i < edges.len() ==> map_has_version(m, (#[trigger] edges[i]).dependent) && map_has_version(m, edges[i].depends_on)
}

/// A listing of a map holds exactly the map's versions.
proof fn lemma_listing_versions(fs: Seq<FileRec>, m: Map<Seq<char>, FileView>, edges: Seq<DepEdge>)
    requires
        lists_map(fs, m),
    ensures
        edges_known(fs, edges) == edges_known_in(m, edges),
{
    assert forall|v: VerId| has_version(fs, v) <==> map_has_version(m, v) by {
        if has_version(fs, v) {
            let k = choose|k: int| 0 <= k < fs.len() && #[trigger] fs[k].true_name@ == v.true_name@ && fs[k].version == v.version;
            assert(m.contains_key(fs[k].path@));
        }
        if map_has_version(m, v) {
            let p = choose|p: Seq<char>| #[trigger] m.contains_key(p) && m[p].true_name == v.true_name@ && m[p].version == v.version;
            let k = choose|k: int| 0 <= k < fs.len() && fs[k].path@ == p;
            assert(fs[k]@ == m[p]);
            assert(fs[k].true_name@ == v.true_name@ && fs[k].version == v.version);
        }
    }
    if edges_known(fs, edges) {
        assert forall|i: int| 0 <= i < edges.len() implies map_has_version(m, (#[trigger] edges[i]).dependent) && map_has_version(m, edges[i].depends_on) by {
            assert(has_version(fs, edges[i].dependent) && has_version(fs, edges[i].depends_on));
        }
    }
    if edges_known_in(m, edges) {
        assert forall|i: int| 0 <= i < edges.len() implies has_version(fs, (#[trigger] edges[i]).dependent) && has_version(fs, edges[i].depends_on) by {
            assert(map_has_version(m, edges[i].dependent) && map_has_version(m, edges[i].depends_on));
        }
    }
}

/// Line `k` of the log tombstones the path `p`, and no later line writes it.
pub open spec fn tombstoned_last(log: Seq<SubLine>, k: int, p: Seq<char>) -> bool {
    &&& 0 <= k < log.len()
    &&& p.len() > 0
    &&& log[k].op matches Some(x) && x@ == "tombstone"@
    &&& log[k].path matches Some(x) && x@ == p
    &&& forall|j: int| k < j < log.len() && (#[trigger] log[j].path matches Some(x) && x@ == p) ==> !(log[j].op matches Some(y) && y@ == "write"@)
}

/// Closes a sub-workplace with the given log over the current view: an
/// empty log publishes nothing; a conflict waits for a resolution; else an
/// edge with an unknown endpoint is `MissingDep`, a cycle among the edges
/// is `Cycle`, and otherwise the reduced files are published in path order.
pub fn close_plan(current: Option<&ViewRec>, log: &[SubLine], extra: &[DepEdge]) -> (r: Result<ClosePlan, WpError>)
    ensures
        log@.len() == 0 ==> r matches Ok(ClosePlan::Empty),
        log@.len() > 0 ==> match reduced(current, log@).conflict {
            Some(c) => (r matches Ok(ClosePlan::Conflict(x)) && (x.path@, x.existing@, x.incoming@) == c),
            None => {
                let m = reduced(current, log@).files;
                &&& !edges_known_in(m, extra@) ==> r == Err::<ClosePlan, WpError>(WpError::MissingDep)
                &&& edges_known_in(m, extra@) && has_cycle(extra@) ==> r == Err::<ClosePlan, WpError>(WpError::Cycle)
                &&& edges_known_in(m, extra@) && !has_cycle(extra@) ==> (r matches Ok(ClosePlan::Publish(files)) && lists_map(files@, m))
            },
        },
        forall|k: int, p: Seq<char>| #[trigger] tombstoned_last(log@, k, p)
            ==> (r matches Ok(ClosePlan::Publish(files)) ==> forall|i: int| 0 <= i < files@.len() ==> files@[i].path@ != p),
{
    if log.len() == 0 {
        return Ok(ClosePlan::Empty);
    }
    let (files, conflict) = reduce(current, log);
    match conflict {
        Some(c) => Ok(ClosePlan::Conflict(c)),
        None => {
            proof {
                lemma_listing_versions(files@, reduced(current, log@).files, extra@);
                assert forall|k: int, p: Seq<char>| #[trigger] tombstoned_last(log@, k, p)
                    implies forall|i: int| 0 <= i < files@.len() ==> files@[i].path@ != p by {
                    lemma_tombstone_leaves_no_file(current, log@, k, p);
                }
            }
            match check_edges(files.as_slice(), extra) {
                Ok(()) => Ok(ClosePlan::Publish(files)),
                Err(e) => Err(e),
            }
        },
    }
}

/// The files a resolution publishes: the current view's files except
/// those of the chosen name or at the path, then the chosen file, sorted
/// by path.
pub open spec fn resolved(current: Option<&ViewRec>, name: Seq<char>, path: Seq<char>, chosen: FileRec) -> Seq<FileRec> {
    let files = match current { Some(v) => v.files@, None => Seq::empty() };
    files.filter(|f: FileRec| f.true_name@ != name && f.path@ != path).push(chosen)
}

/// Resolves a pending conflict. Rejecting drops the sub-workplace;
/// allowing one of the two names publishes a view where that name holds
/// the path.
pub fn resolve_plan(current: Option<&ViewRec>, log: &[SubLine], conflict: &Conflict, choice: Resolve) -> (r: Result<Option<Vec<FileRec>>, WpError>)
    ensures
        choice is Reject ==> r matches Ok(None),
        choice matches Resolve::Allow { true_name, path } ==> {
            &&& (true_name@ != conflict.existing@ && true_name@ != conflict.incoming@) ==> r == Err::<Option<Vec<FileRec>>, WpError>(WpError::BadChoice)
            &&& (true_name@ == conflict.existing@ || true_name@ == conflict.incoming@) && !path_ok(path@) ==> (r matches Err(WpError::BadPath(_)))
            &&& (true_name@ == conflict.existing@ || true_name@ == conflict.incoming@) && path_ok(path@) ==> match chosen(current, log@, true_name@, path@) {
                None => (r matches Err(WpError::MissingVersion { .. })),
                Some(c) => (r matches Ok(Some(files)) && path_sorted(files@)
                    && exists|x: FileRec| x@ == c && files@.to_multiset() == #[trigger] resolved(current, true_name@, path@, x).to_multiset()),
            }
        },
{
    match choice {
        Resolve::Reject => Ok(None),
        Resolve::Allow { true_name, path } => {
            if !str_eq(true_name.as_str(), conflict.existing.as_str()) && !str_eq(true_name.as_str(), conflict.incoming.as_str()) {
                return Err(WpError::BadChoice);
            }
            let path = clean_path(path.as_str())?;
            let mut files: Vec<FileRec> = Vec::new();
            match current {
                Some(v) => {
                    let mut i: usize = 0;
                    let ghost pred = |f: FileRec| f.true_name@ != true_name@ && f.path@ != path@;
                    while i < v.files.len()
                        invariant
                            i <= v.files@.len(),
                            files@ == v.files@.subrange(0, i as int).filter(pred),
                            pred == (|f: FileRec| f.true_name@ != true_name@ && f.path@ != path@),
                        decreases v.files.len() - i,
                    {
                        assert(v.files@.subrange(0, i + 1).drop_last() =~= v.files@.subrange(0, i as int));
                        if !str_eq(v.files[i].true_name.as_str(), true_name.as_str()) && !str_eq(v.files[i].path.as_str(), path.as_str()) {
                            files.push(v.files[i].clone());
                        }
                        assert(files@ =~= v.files@.subrange(0, i + 1).filter(pred)) by {
                            reveal(Seq::filter);
                        }
                        i = i + 1;
                    }
                    assert(v.files@.subrange(0, v.files@.len() as int) =~= v.files@);
                },
                None => {
                    assert(files@ =~= Seq::<FileRec>::empty().filter(|f: FileRec| f.true_name@ != true_name@ && f.path@ != path@));
                },
            }
            let c = chosen_rec(current, log, true_name.as_str(), path.as_str())?;
            let ghost cc = c;
            files.push(c);
            let ghost pushed = files@;
            assert(pushed == resolved(current, true_name@, path@, cc));
            let sorted = sort_by_path(files);
            Ok(Some(sorted))
        },
    }
}

/// The log line a write appends.
pub struct WritePlan {
    pub path: String,
    pub sha256: String,
    pub true_name: String,
    pub version: u32,
    pub base: Option<u32>,
}

/// The true name a write lands on: the current one at the path for a
/// continue, the freshly minted one for a create.
pub open spec fn write_name(views: Seq<ViewRec>, log: Seq<SubLine>, path: Seq<char>, mode: WriteMode, minted: Seq<char>) -> Option<Seq<char>> {
    match mode {
        WriteMode::Continue { .. } => match current_at(views, log, path) {
            Some(c) => Some(c.0),
            None => None,
        },
        WriteMode::Create => Some(minted),
    }
}

/// Plans a write of `bytes` at `path` in a sub-workplace: the path must
/// be clean and the sub-workplace not waiting on a conflict; a continue
/// must name the current version; the version is the next of its name.
pub fn write_plan(
    views: &[ViewRec],
    log: &[SubLine],
    sub: &str,
    pending: bool,
    path: &str,
    bytes: &[u8],
    mode: WriteMode,
    minted: &str,
) -> (r: Result<WritePlan, WpError>)
    requires
        write_name(views@, log@, path@, mode, minted@) matches Some(n) ==> highest(views@, log@, n) < u32::MAX,
    ensures
        !path_ok(path@) ==> (r matches Err(WpError::BadPath(p)) && p@ == path@),
        path_ok(path@) && pending ==> (r matches Err(WpError::Pending(s)) && s@ == sub@),
        path_ok(path@) && !pending ==> match mode {
            WriteMode::Continue { base } => match current_at(views@, log@, path@) {
                None => (r matches Err(WpError::NoCurrent(p)) && p@ == path@),
                Some(c) => if c.1 != base {
                    (r matches Err(WpError::StaleBase { true_name, current, base: b }) && true_name@ == c.0 && current == c.1 && b == base)
                } else {
                    (r matches Ok(w) && w.true_name@ == c.0 && w.base == Some(base))
                },
            },
            WriteMode::Create => (r matches Ok(w) && w.true_name@ == minted@ && w.base is None),
        },
        r matches Ok(w) ==> {
            &&& w.path@ == path@
            &&& w.sha256@ == hex_of(sha256(bytes@))
            &&& w.version == highest(views@, log@, w.true_name@) + 1
            &&& forall|a: int, b: int| 0 <= a < views@.len() && 0 <= b < views@[a].files@.len()
                && #[trigger] views@[a].files@[b].true_name@ == w.true_name@ ==> views@[a].files@[b].version < w.version
            &&& forall|i: int| 0 <= i < log@.len() && (#[trigger] log@[i].true_name matches Some(x) && x@ == w.true_name@)
                ==> (log@[i].version matches Some(v) ==> (v as u32) < w.version)
        },
{
    let path = match clean_path(path) {
        Ok(p) => p,
        Err(e) => {
            return Err(e);
        },
    };
    if pending {
        return Err(WpError::Pending(sub.to_owned()));
    }
    let true_name = match mode {
        WriteMode::Continue { base } => {
            let (name, current) = current_of(views, log, path.as_str())?;
            if current != base {
                return Err(WpError::StaleBase { true_name: name, current, base });
            }
            name
        },
        WriteMode::Create => minted.to_owned(),
    };
    let version = next_version(views, log, true_name.as_str());
    proof { lemma_highest_is_the_highest(views@, log@, true_name@); }
    let digest = sha256_digest(bytes);
    let sha = hex(&digest);
    let base = match mode {
        WriteMode::Continue { base } => Some(base),
        WriteMode::Create => None,
    };
    Ok(WritePlan { path, sha256: sha, true_name, version, base })
}

/// Plans a tombstone at `path`: the path must be clean, the
/// sub-workplace not waiting, and some true name must hold the path.
pub fn tombstone_plan(views: &[ViewRec], log: &[SubLine], sub: &str, pending: bool, path: &str) -> (r: Result<(String, String), WpError>)
    ensures
        !path_ok(path@) ==> (r matches Err(WpError::BadPath(p)) && p@ == path@),
        path_ok(path@) && pending ==> (r matches Err(WpError::Pending(s)) && s@ == sub@),
        path_ok(path@) && !pending ==> match current_at(views@, log@, path@) {
            Some(c) => (r matches Ok((p, n)) && p@ == path@ && n@ == c.0),
            None => (r matches Err(WpError::NoCurrent(p)) && p@ == path@),
        },
{
    let path = clean_path(path)?;
    if pending {
        return Err(WpError::Pending(sub.to_owned()));
    }
    let name = inherited_name(views, log, path.as_str())?;
    Ok((path, name))
}

} // verus!

verus! {

pub enum CascadeFail {
    Cycle,
    Missing(Seq<char>, u32),
}

/// The state of a cascading rollback: the files so far, the versions
/// whose dependents are still to visit, the names visited, and a failure.
#[verifier::ext_equal]
pub struct Cascade {
    pub next: Seq<FileRec>,
    pub stack: Seq<(Seq<char>, u32)>,
    pub seen: Set<Seq<char>>,
    pub fail: Option<CascadeFail>,
}

/// One edge, while visiting the dependents of `(n, v)`: a dependent of
/// that version rolls back to its own previous version (or leaves when it
/// had none) and is visited in turn; meeting a name twice is a cycle.
pub open spec fn edge_step(views: Seq<ViewRec>, n: Seq<char>, v: u32, st: Cascade, e: DepEdge) -> Cascade {
    if st.fail is Some || !(e.depends_on.true_name@ == n && e.depends_on.version == v) {
        st
    } else {
        let dep = e.dependent.true_name@;
        let ver = e.dependent.version;
        if st.seen.contains(dep) {
            Cascade { next: st.next, stack: st.stack, seen: st.seen, fail: Some(CascadeFail::Cycle) }
        } else if ver <= 1 {
            Cascade {
                next: drop_named(st.next, dep),
                stack: st.stack.push((dep, ver)),
                seen: st.seen.insert(dep),
                fail: None,
            }
        } else {
            match version_of(views, dep, (ver - 1) as u32) {
                Some(p) => Cascade { next: applied(st.next, p), stack: st.stack.push((dep, ver)), seen: st.seen.insert(dep), fail: None },
                None => Cascade { next: st.next, stack: st.stack, seen: st.seen, fail: Some(CascadeFail::Missing(dep, (ver - 1) as u32)) },
            }
        }
    }
}

proof fn lemma_version_in_found(files: Seq<FileRec>, name: Seq<char>, version: u32)
    ensures
        (exists|b: int| 0 <= b < files.len() && files[b].true_name@ == name && files[b].version == version)
            <==> version_in(files, name, version) is Some,
        version_in(files, name, version) matches Some(f) ==> f.true_name@ == name && f.version == version,
    decreases files.len(),
{
    if files.len() > 0 {
        lemma_version_in_found(files.drop_first(), name, version);
        if exists|b: int| 0 <= b < files.len() && files[b].true_name@ == name && files[b].version == version {
            let b = choose|b: int| 0 <= b < files.len() && files[b].true_name@ == name && files[b].version == version;
            if b > 0 {
                assert(files.drop_first()[b - 1] == files[b]);
            }
        }
        if version_in(files.drop_first(), name, version) is Some {
            let b = choose|b: int| 0 <= b < files.drop_first().len() && files.drop_first()[b].true_name@ == name && files.drop_first()[b].version == version;
            assert(files[b + 1] == files.drop_first()[b]);
        }
    }
}

proof fn lemma_version_of_found(views: Seq<ViewRec>, name: Seq<char>, version: u32)
    ensures
        (exists|a: int, b: int| 0 <= a < views.len() && 0 <= b < views[a].files@.len()
            && views[a].files@[b].true_name@ == name && views[a].files@[b].version == version)
            <==> version_of(views, name, version) is Some,
        version_of(views, name, version) matches Some(f) ==> f.true_name@ == name && f.version == version,
    decreases views.len(),
{
    if views.len() > 0 {
        lemma_version_of_found(views.drop_last(), name, version);
        lemma_version_in_found(views.last().files@, name, version);
        let a0 = views.len() - 1;
        if exists|a: int, b: int| 0 <= a < views.len() && 0 <= b < views[a].files@.len()
            && views[a].files@[b].true_name@ == name && views[a].files@[b].version == version {
            let (a, b) = choose|a: int, b: int| 0 <= a < views.len() && 0 <= b < views[a].files@.len()
                && views[a].files@[b].true_name@ == name && views[a].files@[b].version == version;
            if a < a0 {
                assert(views.drop_last()[a] == views[a]);
            } else {
                assert(views.last() == views[a]);
            }
        }
        if version_of(views.drop_last(), name, version) is Some {
            let (a, b) = choose|a: int, b: int| 0 <= a < views.drop_last().len() && 0 <= b < views.drop_last()[a].files@.len()
                && views.drop_last()[a].files@[b].true_name@ == name && views.drop_last()[a].files@[b].version == version;
            assert(views[a] == views.drop_last()[a]);
        }
        if version_in(views.last().files@, name, version) is Some {
            let b = choose|b: int| 0 <= b < views.last().files@.len() && views.last().files@[b].true_name@ == name && views.last().files@[b].version == version;
            assert(views[a0] == views.last());
        }
    }
}

/// One step of a cascade, on an edge into the leaving version `(n, v)`
/// from a dependent not yet visited: a dependent at version 1 leaves the
/// new view; a dependent at a later version stays, rolled back to its
/// previous version where some view holds that version, and the cascade
/// fails naming that version where none does.
pub proof fn lemma_cascade_step(views: Seq<ViewRec>, n: Seq<char>, v: u32, st: Cascade, e: DepEdge)
    requires
        st.fail is None,
        e.depends_on.true_name@ == n,
        e.depends_on.version == v,
        !st.seen.contains(e.dependent.true_name@),
    ensures
        ({
            let out = edge_step(views, n, v, st, e);
            let dep = e.dependent.true_name@;
            let ver = e.dependent.version;
            let held = exists|a: int, b: int| 0 <= a < views.len() && 0 <= b < views[a].files@.len()
                && #[trigger] views[a].files@[b].true_name@ == dep && views[a].files@[b].version == ver - 1;
            &&& ver <= 1 ==> out.fail is None && forall|i: int| 0 <= i < out.next.len() ==> out.next[i].true_name@ != dep
            &&& ver > 1 && held ==> out.fail is None
                && exists|i: int| 0 <= i < out.next.len() && out.next[i].true_name@ == dep && out.next[i].version == ver - 1
            &&& ver > 1 && !held ==> out.fail == Some(CascadeFail::Missing(dep, (ver - 1) as u32))
        }),
{
    let dep = e.dependent.true_name@;
    let ver = e.dependent.version;
    let out = edge_step(views, n, v, st, e);
    if ver <= 1 {
        assert(out.next == drop_named(st.next, dep));
        lemma_drop_named(st.next, dep);
    } else {
        lemma_version_of_found(views, dep, (ver - 1) as u32);
        match version_of(views, dep, (ver - 1) as u32) {
            Some(p) => {
                assert(out.next == applied(st.next, p));
                assert(out.next[out.next.len() - 1] == p);
            },
            None => {},
        }
    }
}

/// The files without those of the true name `name`.
pub open spec fn drop_named(files: Seq<FileRec>, name: Seq<char>) -> Seq<FileRec> {
    files.filter(|f: FileRec| f.true_name@ != name)
}

proof fn lemma_drop_named(files: Seq<FileRec>, name: Seq<char>)
    ensures
        forall|i: int| 0 <= i < drop_named(files, name).len() ==> #[trigger] drop_named(files, name)[i].true_name@ != name,
{
    files.filter_lemma(|f: FileRec| f.true_name@ != name);
}

pub open spec fn edges_fold(views: Seq<ViewRec>, edges: Seq<DepEdge>, n: Seq<char>, v: u32, st: Cascade, k: int) -> Cascade
    decreases k,
{
    if k <= 0 { st } else { edge_step(views, n, v, edges_fold(views, edges, n, v, st, k - 1), edges[k - 1]) }
}

/// Visits versions from the top of the stack until it is empty or a
/// step fails (at most `fuel` visits).
pub open spec fn run(views: Seq<ViewRec>, edges: Seq<DepEdge>, st: Cascade, fuel: nat) -> Cascade
    decreases fuel,
{
    if fuel == 0 || st.fail is Some || st.stack.len() == 0 {
        st
    } else {
        let (n, v) = st.stack.last();
        let popped = Cascade { next: st.next, stack: st.stack.drop_last(), seen: st.seen, fail: None };
        run(views, edges, edges_fold(views, edges, n, v, popped, edges.len() as int), (fuel - 1) as nat)
    }
}

pub open spec fn count_true(v: Seq<bool>) -> nat
    decreases v.len(),
{
    if v.len() == 0 { 0 } else { count_true(v.drop_last()) + if v.last() { 1nat } else { 0nat } }
}

pub proof fn lemma_count_true_bound(v: Seq<bool>)
    ensures
        count_true(v) <= v.len(),
    decreases v.len(),
{
    if v.len() > 0 {
        lemma_count_true_bound(v.drop_last());
    }
}

pub proof fn lemma_count_true_set(v: Seq<bool>, i: int)
    requires
        0 <= i < v.len(),
        !v[i],
    ensures
        count_true(v.update(i, true)) == count_true(v) + 1,
    decreases v.len(),
{
    let w = v.update(i, true);
    if i == v.len() - 1 {
        assert(w.drop_last() =~= v.drop_last());
    } else {
        assert(w.drop_last() =~= v.drop_last().update(i, true));
        lemma_count_true_set(v.drop_last(), i);
    }
}

pub open spec fn stack_view(s: Seq<(String, u32)>) -> Seq<(Seq<char>, u32)> {
    s.map_values(|p: (String, u32)| (p.0@, p.1))
}

pub open spec fn seen_set(s: Seq<String>) -> Set<Seq<char>> {
    Set::new(|x: Seq<char>| exists|i: int| 0 <= i < s.len() && s[i]@ == x)
}

fn seen_has(seen: &Vec<String>, x: &str) -> (r: bool)
    ensures
        r == seen_set(seen@).contains(x@),
{
    let mut i: usize = 0;
    while i < seen.len()
        invariant
            i <= seen@.len(),
            forall|t: int| 0 <= t < i ==> #[trigger] seen@[t]@ != x@,
        decreases seen.len() - i,
    {
        if str_eq(seen[i].as_str(), x) {
            assert(seen@[i as int]@ == x@);
            return true;
        }
        i = i + 1;
    }
    false
}

/// Drops every file of the true name `name`.
fn drop_name(files: &mut Vec<FileRec>, name: &str)
    ensures
        final(files)@ == drop_named(old(files)@, name@),
{
    let mut kept: Vec<FileRec> = Vec::new();
    let mut i: usize = 0;
    let ghost pred = |f: FileRec| f.true_name@ != name@;
    while i < files.len()
        invariant
            i <= files@.len(),
            kept@ == files@.subrange(0, i as int).filter(pred),
            pred == (|f: FileRec| f.true_name@ != name@),
        decreases files.len() - i,
    {
        assert(files@.subrange(0, i + 1).drop_last() =~= files@.subrange(0, i as int));
        if !str_eq(files[i].true_name.as_str(), name) {
            kept.push(files[i].clone());
        }
        assert(kept@ =~= files@.subrange(0, i + 1).filter(pred)) by {
            reveal(Seq::filter);
        }
        i = i + 1;
    }
    assert(files@.subrange(0, files@.len() as int) =~= files@);
    *files = kept;
}

} // verus!

verus! {

proof fn lemma_fold_failed(views: Seq<ViewRec>, edges: Seq<DepEdge>, n: Seq<char>, v: u32, st: Cascade, j: int, k: int)
    requires
        0 <= j <= k,
        edges_fold(views, edges, n, v, st, j).fail is Some,
    ensures
        edges_fold(views, edges, n, v, st, k) == edges_fold(views, edges, n, v, st, j),
    decreases k - j,
{
    if k > j {
        lemma_fold_failed(views, edges, n, v, st, j, k - 1);
    }
}

pub open spec fn cascade_state(next: Seq<FileRec>, stack: Seq<(String, u32)>, seen: Seq<String>) -> Cascade {
    Cascade { next, stack: stack_view(stack), seen: seen_set(seen), fail: None }
}

/// Rolls back, in turn, every version that depends on a rolled-back one.
pub fn cascade_from(views: &[ViewRec], edges: &[DepEdge], files: Vec<FileRec>, name: &str, leaving: u32) -> (r: Result<Vec<FileRec>, WpError>)
    requires
        edges@.len() < usize::MAX,
    ensures
        ({
            let init = Cascade { next: files@, stack: seq![(name@, leaving)], seen: set![name@], fail: None };
            let fin = run(views@, edges@, init, (edges@.len() + 1) as nat);
            match fin.fail {
                Some(CascadeFail::Cycle) => r == Err::<Vec<FileRec>, WpError>(WpError::Cycle),
                Some(CascadeFail::Missing(n, v)) => (r matches Err(WpError::MissingVersion { true_name, version }) && true_name@ == n && version == v),
                None => (r matches Ok(files) && files@ == fin.next),
            }
        }),
{
    let ghost next_in = files;
    let ghost init = Cascade { next: files@, stack: seq![(name@, leaving)], seen: set![name@], fail: None };
    let ghost fuel0 = (edges@.len() + 1) as nat;
    let ghost target = run(views@, edges@, init, fuel0);
    let e = edges.len();
    let mut next = files;
    let mut stack: Vec<(String, u32)> = Vec::new();
    stack.push((name.to_owned(), leaving));
    let mut seen: Vec<String> = Vec::new();
    seen.push(name.to_owned());
    let mut pushed: Vec<bool> = Vec::new();
    let mut i: usize = 0;
    while i < e
        invariant
            e == edges@.len(),
            i <= e,
            pushed@.len() == i,
            forall|t: int| 0 <= t < i ==> !#[trigger] pushed@[t],
        decreases e - i,
    {
        pushed.push(false);
        i = i + 1;
    }
    proof {
        assert(count_true(pushed@) == 0) by {
            lemma_count_zero(pushed@);
        }
        assert(cascade_state(next@, stack@, seen@) =~= init) by {
            assert(stack_view(stack@) =~= seq![(name@, leaving)]);
            assert(seen_set(seen@) =~= set![name@]) by {
                assert forall|x: Seq<char>| seen_set(seen@).contains(x) <==> set![name@].contains(x) by {
                    if seen_set(seen@).contains(x) {
                        let t = choose|t: int| 0 <= t < seen@.len() && seen@[t]@ == x;
                        assert(t == 0);
                    }
                    if x == name@ {
                        assert(seen@[0]@ == x);
                    }
                }
            }
        }
    }
    let ghost mut pops: nat = 0;
    while stack.len() > 0
        invariant
            e == edges@.len(),
            e < usize::MAX,
            pushed@.len() == e,
            pops + stack@.len() == 1 + count_true(pushed@),
            pops <= fuel0,
            fuel0 == e + 1,
            init == (Cascade { next: next_in@, stack: seq![(name@, leaving)], seen: set![name@], fail: None }),
            next_in@ == files@,
            target == run(views@, edges@, init, fuel0),
            target == run(views@, edges@, cascade_state(next@, stack@, seen@), (fuel0 - pops) as nat),
            forall|t: int| 0 <= t < e && #[trigger] pushed@[t] ==> seen_set(seen@).contains(edges@[t].dependent.true_name@),
        decreases e - count_true(pushed@), stack@.len(),
    {
        proof { lemma_count_true_bound(pushed@); }
        let ghost cur = cascade_state(next@, stack@, seen@);
        let (n, v) = stack.pop().unwrap();
        let ghost popped = Cascade { next: cur.next, stack: cur.stack.drop_last(), seen: cur.seen, fail: None };
        proof {
            assert(stack_view(stack@) =~= cur.stack.drop_last());
            assert(cur.stack.last() == (n@, v));
            assert((fuel0 - pops) as nat > 0);
        }
        let ghost after = edges_fold(views@, edges@, n@, v, popped, e as int);
        assert(target == run(views@, edges@, after, (fuel0 - pops - 1) as nat));
        let ghost count0 = count_true(pushed@);
        let mut k: usize = 0;
        assert(cascade_state(next@, stack@, seen@) =~= edges_fold(views@, edges@, n@, v, popped, 0));
        while k < e
            invariant
                e == edges@.len(),
                k <= e,
                pushed@.len() == e,
                popped.fail is None,
                target == run(views@, edges@, init, fuel0),
                init == (Cascade { next: next_in@, stack: seq![(name@, leaving)], seen: set![name@], fail: None }),
                next_in@ == files@,
                fuel0 == e + 1,
                after == edges_fold(views@, edges@, n@, v, popped, e as int),
                target == run(views@, edges@, after, (fuel0 - pops - 1) as nat),
                cascade_state(next@, stack@, seen@) == edges_fold(views@, edges@, n@, v, popped, k as int),
                count_true(pushed@) == count0 + (stack@.len() - popped.stack.len()),
                stack@.len() >= popped.stack.len(),
                pops + cur.stack.len() == 1 + count0,
                cur.stack.len() == popped.stack.len() + 1,
                forall|t: int| 0 <= t < e && #[trigger] pushed@[t] ==> seen_set(seen@).contains(edges@[t].dependent.true_name@),
            decreases e - k,
        {
            let ghost before = cascade_state(next@, stack@, seen@);
            assert(edges_fold(views@, edges@, n@, v, popped, k + 1) == edge_step(views@, n@, v, before, edges@[k as int]));
            let edge = &edges[k];
            if edge.depends_on.version == v && str_eq(edge.depends_on.true_name.as_str(), n.as_str()) {
                let dep = &edge.dependent.true_name;
                let ver = edge.dependent.version;
                let ghost next_before = next@;
                let ghost step = edge_step(views@, n@, v, before, edges@[k as int]);
                if seen_has(&seen, dep.as_str()) {
                    proof {
                        assert(edge_step(views@, n@, v, before, edges@[k as int]).fail == Some(CascadeFail::Cycle));
                        lemma_fold_failed(views@, edges@, n@, v, popped, k + 1, e as int);
                        assert(after.fail == Some(CascadeFail::Cycle));
                        assert(run(views@, edges@, after, (fuel0 - pops - 1) as nat) == after);
                        assert(target.fail == Some(CascadeFail::Cycle));
                        assert(run(views@, edges@, init, fuel0).fail == Some(CascadeFail::Cycle));
                    }
                    return Err(WpError::Cycle);
                }
                proof {
                    if pushed@[k as int] {
                        assert(seen_set(seen@).contains(edges@[k as int].dependent.true_name@));
                    }
                }
                if ver <= 1 {
                    drop_name(&mut next, dep.as_str());
                } else {
                    match find_version(views, dep.as_str(), ver - 1) {
                        Ok(prev) => {
                            apply_version(&mut next, &prev);
                        },
                        Err(err) => {
                            proof {
                                assert(edge_step(views@, n@, v, before, edges@[k as int]).fail == Some(CascadeFail::Missing(dep@, (ver - 1) as u32)));
                                lemma_fold_failed(views@, edges@, n@, v, popped, k + 1, e as int);
                                assert(run(views@, edges@, after, (fuel0 - pops - 1) as nat) == after);
                            }
                            return Err(err);
                        },
                    }
                }
                let ghost seen_before = seen@;
                seen.push(dep.clone());
                let ghost stack_before = stack@;
                stack.push((dep.clone(), ver));
                proof {
                    lemma_count_true_set(pushed@, k as int);
                }
                pushed.set(k, true);
                proof {
                    assert(seen_set(seen@) =~= seen_set(seen_before).insert(dep@)) by {
                        assert forall|x: Seq<char>| seen_set(seen@).contains(x) <==> seen_set(seen_before).insert(dep@).contains(x) by {
                            if seen_set(seen@).contains(x) {
                                let t = choose|t: int| 0 <= t < seen@.len() && seen@[t]@ == x;
                                if t < seen_before.len() {
                                    assert(seen_before[t] == seen@[t]);
                                }
                            }
                            if seen_set(seen_before).contains(x) {
                                let t = choose|t: int| 0 <= t < seen_before.len() && seen_before[t]@ == x;
                                assert(seen@[t] == seen_before[t]);
                            }
                            if x == dep@ {
                                assert(seen@[seen_before.len() as int]@ == x);
                            }
                        }
                    }
                    assert(stack_view(stack@) =~= stack_view(stack_before).push((dep@, ver)));
                    assert(!before.seen.contains(dep@));
                    assert(step.stack == before.stack.push((dep@, ver)));
                    assert(step.seen == before.seen.insert(dep@));
                    assert(step.fail is None);
                    assert(step.next == next@);
                    assert(cascade_state(next@, stack@, seen@) =~= edges_fold(views@, edges@, n@, v, popped, k + 1));
                    assert forall|t: int| 0 <= t < e && #[trigger] pushed@[t] implies seen_set(seen@).contains(edges@[t].dependent.true_name@) by {
                        if t != k {
                            assert(seen_set(seen_before).contains(edges@[t].dependent.true_name@));
                        }
                    }
                }
            } else {
                assert(cascade_state(next@, stack@, seen@) =~= edges_fold(views@, edges@, n@, v, popped, k + 1));
            }
            k = k + 1;
        }
        proof {
            pops = pops + 1;
            lemma_count_true_bound(pushed@);
        }
    }
    assert(cascade_state(next@, stack@, seen@).stack.len() == 0);
    Ok(next)
}

pub proof fn lemma_count_zero(v: Seq<bool>)
    requires
        forall|t: int| 0 <= t < v.len() ==> !#[trigger] v[t],
    ensures
        count_true(v) == 0,
    decreases v.len(),
{
    if v.len() > 0 {
        assert(!v[v.len() - 1]);
        lemma_count_zero(v.drop_last());
    }
}

} // verus!

verus! {

/// The version of the first file named `name`.
fn version_named(files: &[FileRec], name: &str) -> (r: Option<u32>)
    ensures
        match named(files@, name@) {
            Some(f) => r == Some(f.version),
            None => r is None,
        },
{
    let mut j: usize = 0;
    assert(files@.skip(0) =~= files@);
    while j < files.len()
        invariant
            j <= files@.len(),
            named(files@, name@) == named(files@.skip(j as int), name@),
        decreases files.len() - j,
    {
        assert(files@.skip(j as int)[0] == files@[j as int]);
        if str_eq(files[j].true_name.as_str(), name) {
            return Some(files[j].version);
        }
        assert(files@.skip(j as int).drop_first() =~= files@.skip(j + 1));
        j = j + 1;
    }
    None
}

/// Rolls `true_name` back to `to_version` on top of the latest view; with
/// `cascade`, every version written against the leaving one rolls back
/// too. Gives the files of the new view in path order and the edges it
/// keeps.
pub fn rollback_plan(views: &[ViewRec], true_name: &str, to_version: u32, cascade: bool) -> (r: Result<(Vec<FileRec>, Vec<DepEdge>), WpError>)
    requires
        views@.len() > 0 ==> views@.last().edges@.len() < usize::MAX,
    ensures
        views@.len() == 0 ==> r == Err::<(Vec<FileRec>, Vec<DepEdge>), WpError>(WpError::NoView),
        views@.len() > 0 ==> {
            let current = views@.last();
            match (if to_version == 0 { None } else { version_of(views@, true_name@, to_version) }) {
                None => (r matches Err(WpError::MissingVersion { true_name: n, version: v }) && n@ == true_name@ && v == to_version),
                Some(h) => {
                    let start = applied(current.files@, h);
                    if !cascade {
                        r matches Ok((files, edges)) && path_sorted(files@) && edges@ == current.edges@
                            && files@.to_multiset() == start.to_multiset()
                    } else {
                        match named(current.files@, true_name@) {
                            None => r == Err::<(Vec<FileRec>, Vec<DepEdge>), WpError>(WpError::NoView),
                            Some(f) => {
                                let fin = run(views@, current.edges@,
                                    Cascade { next: start, stack: seq![(true_name@, f.version)], seen: set![true_name@], fail: None },
                                    (current.edges@.len() + 1) as nat);
                                match fin.fail {
                                    Some(CascadeFail::Cycle) => r == Err::<(Vec<FileRec>, Vec<DepEdge>), WpError>(WpError::Cycle),
                                    Some(CascadeFail::Missing(n, v)) => (r matches Err(WpError::MissingVersion { true_name: m, version: w }) && m@ == n && w == v),
                                    None => (r matches Ok((files, edges)) && path_sorted(files@) && edges@ == current.edges@
                                        && files@.to_multiset() == fin.next.to_multiset()),
                                }
                            },
                        }
                    }
                },
            }
        },
{
    if views.len() == 0 {
        return Err(WpError::NoView);
    }
    let current = &views[views.len() - 1];
    let historical = find_version(views, true_name, to_version)?;
    let mut next: Vec<FileRec> = Vec::new();
    let mut i: usize = 0;
    while i < current.files.len()
        invariant
            i <= current.files@.len(),
            next@ == current.files@.subrange(0, i as int),
        decreases current.files.len() - i,
    {
        next.push(current.files[i].clone());
        assert(next@ =~= current.files@.subrange(0, i + 1));
        i = i + 1;
    }
    assert(current.files@.subrange(0, current.files@.len() as int) =~= current.files@);
    apply_version(&mut next, &historical);
    if cascade {
        let leaving = version_named(current.files.as_slice(), true_name);
        let leaving = match leaving {
            Some(v) => v,
            None => {
                return Err(WpError::NoView);
            },
        };
        next = cascade_from(views, current.edges.as_slice(), next, true_name, leaving)?;
    }
    let sorted = sort_by_path(next);
    let mut edges: Vec<DepEdge> = Vec::new();
    let mut k: usize = 0;
    while k < current.edges.len()
        invariant
            k <= current.edges@.len(),
            edges@ == current.edges@.subrange(0, k as int),
        decreases current.edges.len() - k,
    {
        edges.push(current.edges[k].clone());
        assert(edges@ =~= current.edges@.subrange(0, k + 1));
        k = k + 1;
    }
    assert(current.edges@.subrange(0, current.edges@.len() as int) =~= current.edges@);
    Ok((sorted, edges))
}


/// One line of the mount log, as read: its `op`, `id`, `worker` and
/// `session` fields, each where it was a string.
#[derive(Debug)]
pub struct TreeLine {
    pub op: Option<String>,
    pub id: Option<String>,
    pub worker: Option<String>,
    pub session: Option<String>,
}

/// A live sub-workplace: its id, the worker writing in it and the worker's
/// session directory.
#[derive(Debug)]
pub struct LiveSub {
    pub id: String,
    pub worker: u128,
    pub session: String,
}

/// A field's text, empty where it was missing.
pub open spec fn field_text(o: Option<String>) -> Seq<char> {
    match o {
        Some(s) => s@,
        None => Seq::empty(),
    }
}

/// The live sub-workplaces after one line: `mount` puts (or replaces) its
/// id, `unmount` takes its id out, anything else changes nothing. A mount
/// whose worker does not parse fails with the worker's text.
pub open spec fn mount_step(m: Map<Seq<char>, (u128, Seq<char>)>, l: TreeLine) -> Result<Map<Seq<char>, (u128, Seq<char>)>, Seq<char>> {
    if l.op is Some && l.op->0@ == "mount"@ {
        match uuid_parsed(field_text(l.worker)) {
            Some(w) => Ok(m.insert(field_text(l.id), (w, field_text(l.session)))),
            None => Err(field_text(l.worker)),
        }
    } else if l.op is Some && l.op->0@ == "unmount"@ {
        match l.id {
            Some(i) => Ok(m.remove(i@)),
            None => Ok(m),
        }
    } else {
        Ok(m)
    }
}

/// The live sub-workplaces after a whole log.
pub open spec fn replay(lines: Seq<TreeLine>) -> Result<Map<Seq<char>, (u128, Seq<char>)>, Seq<char>>
    decreases lines.len(),
{
    if lines.len() == 0 {
        Ok(Map::empty())
    } else {
        match replay(lines.drop_last()) {
            Ok(m) => mount_step(m, lines.last()),
            Err(e) => Err(e),
        }
    }
}

/// No id occurs twice.
pub open spec fn ids_distinct(v: Seq<LiveSub>) -> bool {
    forall|a: int, b: int| 0 <= a < b < v.len() ==> #[trigger] v[a].id@ != #[trigger] v[b].id@
}

/// An index whose entry carries `id`, where there is one.
pub open spec fn sub_slot(v: Seq<LiveSub>, id: Seq<char>) -> int {
    choose|i: int| 0 <= i < v.len() && #[trigger] v[i].id@ == id
}

/// The sub-workplaces of a list, by id.
pub open spec fn sub_map(v: Seq<LiveSub>) -> Map<Seq<char>, (u128, Seq<char>)> {
    Map::new(
        |k: Seq<char>| exists|i: int| 0 <= i < v.len() && #[trigger] v[i].id@ == k,
        |k: Seq<char>| (v[sub_slot(v, k)].worker, v[sub_slot(v, k)].session@),
    )
}

proof fn lemma_sub_slot(v: Seq<LiveSub>, i: int)
    requires
        ids_distinct(v),
        0 <= i < v.len(),
    ensures
        sub_slot(v, v[i].id@) == i,
        sub_map(v).contains_key(v[i].id@),
        sub_map(v)[v[i].id@] == (v[i].worker, v[i].session@),
{
    let k = v[i].id@;
    assert(exists|j: int| 0 <= j < v.len() && #[trigger] v[j].id@ == k);
    let j = sub_slot(v, k);
    if j < i {
        assert(v[j].id@ != v[i].id@);
    } else if j > i {
        assert(v[i].id@ != v[j].id@);
    }
}

/// Where `id` stands in the list.
fn sub_position(v: &Vec<LiveSub>, id: &str) -> (r: Option<usize>)
    ensures
        match r {
            Some(p) => p < v@.len() && v@[p as int].id@ == id@,
            None => forall|i: int| 0 <= i < v@.len() ==> (#[trigger] v@[i]).id@ != id@,
        },
{
    let mut i: usize = 0;
    while i < v.len()
        invariant
            i <= v@.len(),
            forall|k: int| 0 <= k < i ==> (#[trigger] v@[k]).id@ != id@,
        decreases v.len() - i,
    {
        if str_eq(v[i].id.as_str(), id) {
            return Some(i);
        }
        i = i + 1;
    }
    None
}

/// Puts `id` in the list, replacing an entry of that id.
fn put_sub(v: &mut Vec<LiveSub>, id: String, worker: u128, session: String)
    requires
        ids_distinct(old(v)@),
    ensures
        ids_distinct(final(v)@),
        sub_map(final(v)@) == sub_map(old(v)@).insert(id@, (worker, session@)),
{
    let ghost old_v = v@;
    let ghost k = id@;
    let ghost val = (worker, session@);
    match sub_position(v, id.as_str()) {
        Some(p) => {
            v.set(p, LiveSub { id, worker, session });
            proof {
                let nv = v@;
                assert forall|a: int, b: int| 0 <= a < b < nv.len() implies #[trigger] nv[a].id@ != #[trigger] nv[b].id@ by {
                    if a != p && b != p {
                        assert(nv[a] == old_v[a] && nv[b] == old_v[b]);
                    } else if a == p {
                        assert(nv[b] == old_v[b]);
                    } else {
                        assert(nv[a] == old_v[a]);
                    }
                }
                lemma_sub_slot(nv, p as int);
                assert forall|key: Seq<char>| #[trigger] sub_map(nv).contains_key(key) <==> sub_map(old_v).insert(k, val).contains_key(key) by {
                    if sub_map(nv).contains_key(key) {
                        let j = choose|j: int| 0 <= j < nv.len() && #[trigger] nv[j].id@ == key;
                        if j != p { assert(old_v[j].id@ == key); }
                    }
                    if sub_map(old_v).contains_key(key) && key != k {
                        let j = choose|j: int| 0 <= j < old_v.len() && #[trigger] old_v[j].id@ == key;
                        assert(j != p);
                        assert(nv[j].id@ == key);
                    }
                }
                assert forall|key: Seq<char>| #[trigger] sub_map(nv).contains_key(key) implies sub_map(nv)[key] == sub_map(old_v).insert(k, val)[key] by {
                    if key != k {
                        let j = choose|j: int| 0 <= j < nv.len() && #[trigger] nv[j].id@ == key;
                        assert(j != p);
                        assert(nv[j] == old_v[j]);
                        lemma_sub_slot(nv, j);
                        lemma_sub_slot(old_v, j);
                    }
                }
                assert(sub_map(nv) =~= sub_map(old_v).insert(k, val));
            }
        },
        None => {
            v.push(LiveSub { id, worker, session });
            proof {
                let nv = v@;
                let p = old_v.len() as int;
                assert forall|a: int, b: int| 0 <= a < b < nv.len() implies #[trigger] nv[a].id@ != #[trigger] nv[b].id@ by {
                    if b == p {
                        assert(nv[a] == old_v[a]);
                    } else {
                        assert(nv[a] == old_v[a] && nv[b] == old_v[b]);
                    }
                }
                lemma_sub_slot(nv, p);
                assert forall|key: Seq<char>| #[trigger] sub_map(nv).contains_key(key) <==> sub_map(old_v).insert(k, val).contains_key(key) by {
                    if sub_map(nv).contains_key(key) {
                        let j = choose|j: int| 0 <= j < nv.len() && #[trigger] nv[j].id@ == key;
                        if j != p { assert(old_v[j].id@ == key); }
                    }
                    if sub_map(old_v).contains_key(key) && key != k {
                        let j = choose|j: int| 0 <= j < old_v.len() && #[trigger] old_v[j].id@ == key;
                        assert(nv[j].id@ == key);
                    }
                }
                assert forall|key: Seq<char>| #[trigger] sub_map(nv).contains_key(key) implies sub_map(nv)[key] == sub_map(old_v).insert(k, val)[key] by {
                    if key != k {
                        let j = choose|j: int| 0 <= j < nv.len() && #[trigger] nv[j].id@ == key;
                        assert(j != p);
                        assert(nv[j] == old_v[j]);
                        lemma_sub_slot(nv, j);
                        lemma_sub_slot(old_v, j);
                    }
                }
                assert(sub_map(nv) =~= sub_map(old_v).insert(k, val));
            }
        },
    }
}

/// Takes `id` out of the list.
fn drop_sub(v: &mut Vec<LiveSub>, id: &str)
    requires
        ids_distinct(old(v)@),
    ensures
        ids_distinct(final(v)@),
        sub_map(final(v)@) == sub_map(old(v)@).remove(id@),
{
    let ghost old_v = v@;
    let ghost k = id@;
    match sub_position(v, id) {
        Some(p) => {
            v.remove(p);
            proof {
                let nv = v@;
                assert forall|t: int| 0 <= t < nv.len() implies #[trigger] nv[t] == (if t < p { old_v[t] } else { old_v[t + 1] }) by {}
                assert forall|a: int, b: int| 0 <= a < b < nv.len() implies #[trigger] nv[a].id@ != #[trigger] nv[b].id@ by {
                    let a2 = if a < p { a } else { a + 1 };
                    let b2 = if b < p { b } else { b + 1 };
                    assert(nv[a] == old_v[a2] && nv[b] == old_v[b2]);
                }
                assert forall|key: Seq<char>| #[trigger] sub_map(nv).contains_key(key) <==> sub_map(old_v).remove(k).contains_key(key) by {
                    if sub_map(nv).contains_key(key) {
                        let j = choose|j: int| 0 <= j < nv.len() && #[trigger] nv[j].id@ == key;
                        let j2 = if j < p { j } else { j + 1 };
                        assert(old_v[j2].id@ == key);
                        assert(j2 != p);
                        if key == k {
                            if j2 < p { assert(old_v[j2].id@ != old_v[p as int].id@); } else { assert(old_v[p as int].id@ != old_v[j2].id@); }
                        }
                    }
                    if sub_map(old_v).contains_key(key) && key != k {
                        let j = choose|j: int| 0 <= j < old_v.len() && #[trigger] old_v[j].id@ == key;
                        assert(j != p);
                        if j < p { assert(nv[j].id@ == key); } else { assert(nv[j - 1].id@ == key); }
                    }
                }
                assert forall|key: Seq<char>| #[trigger] sub_map(nv).contains_key(key) implies sub_map(nv)[key] == sub_map(old_v).remove(k)[key] by {
                    let j = choose|j: int| 0 <= j < nv.len() && #[trigger] nv[j].id@ == key;
                    let j2 = if j < p { j } else { j + 1 };
                    assert(nv[j] == old_v[j2]);
                    lemma_sub_slot(nv, j);
                    lemma_sub_slot(old_v, j2);
                }
                assert(sub_map(nv) =~= sub_map(old_v).remove(k));
            }
        },
        None => {
            proof {
                assert(!sub_map(old_v).contains_key(k));
                assert(sub_map(old_v) =~= sub_map(old_v).remove(k));
            }
        },
    }
}

/// The live sub-workplaces a mount log leaves, or `NotRegistered` with the
/// text of the first worker that does not parse.
pub fn replay_mounts(lines: &[TreeLine]) -> (r: Result<Vec<LiveSub>, WpError>)
    ensures
        match replay(lines@) {
            Ok(m) => r matches Ok(v) && ids_distinct(v@) && sub_map(v@) == m,
            Err(t) => r matches Err(WpError::NotRegistered(e)) && e@ == t,
        },
{
    let mut live: Vec<LiveSub> = Vec::new();
    let mut i: usize = 0;
    assert(sub_map(live@) =~= Map::<Seq<char>, (u128, Seq<char>)>::empty());
    while i < lines.len()
        invariant
            i <= lines@.len(),
            ids_distinct(live@),
            replay(lines@.subrange(0, i as int)) == Ok::<Map<Seq<char>, (u128, Seq<char>)>, Seq<char>>(sub_map(live@)),
        decreases lines.len() - i,
    {
        let l = &lines[i];
        assert(lines@.subrange(0, i + 1).drop_last() =~= lines@.subrange(0, i as int));
        let ghost m = sub_map(live@);
        let is_mount = match &l.op { Some(op) => str_eq(op.as_str(), "mount"), None => false };
        let is_unmount = match &l.op { Some(op) => str_eq(op.as_str(), "unmount"), None => false };
        if is_mount {
            let worker_text: String = match &l.worker { Some(w) => w.clone(), None => String::new() };
            match parse_uuid(worker_text.as_str()) {
                Some(w) => {
                    let id: String = match &l.id { Some(x) => x.clone(), None => String::new() };
                    let session: String = match &l.session { Some(x) => x.clone(), None => String::new() };
                    put_sub(&mut live, id, w, session);
                },
                None => {
                    proof { lemma_replay_fails(lines@, i as int); }
                    return Err(WpError::NotRegistered(worker_text));
                },
            }
        } else if is_unmount {
            match &l.id {
                Some(x) => { drop_sub(&mut live, x.as_str()); },
                None => {},
            }
        }
        i = i + 1;
    }
    assert(lines@.subrange(0, lines@.len() as int) =~= lines@);
    Ok(live)
}

/// A log whose prefix fails, or that fails at its next line, fails with the
/// same text however it goes on.
proof fn lemma_replay_fails(lines: Seq<TreeLine>, i: int)
    requires
        0 <= i < lines.len(),
        replay(lines.subrange(0, i)) is Ok,
        mount_step(replay(lines.subrange(0, i))->Ok_0, lines[i]) is Err,
    ensures
        replay(lines) == mount_step(replay(lines.subrange(0, i))->Ok_0, lines[i]),
    decreases lines.len() - i,
{
    let e = mount_step(replay(lines.subrange(0, i))->Ok_0, lines[i]);
    assert(lines.subrange(0, i + 1).drop_last() =~= lines.subrange(0, i));
    lemma_replay_stays_failed(lines, i + 1, e->Err_0);
}

proof fn lemma_replay_stays_failed(lines: Seq<TreeLine>, j: int, t: Seq<char>)
    requires
        0 < j <= lines.len(),
        replay(lines.subrange(0, j)) == Err::<Map<Seq<char>, (u128, Seq<char>)>, Seq<char>>(t),
    ensures
        replay(lines) == Err::<Map<Seq<char>, (u128, Seq<char>)>, Seq<char>>(t),
    decreases lines.len() - j,
{
    if j == lines.len() {
        assert(lines.subrange(0, j) =~= lines);
    } else {
        assert(lines.subrange(0, j + 1).drop_last() =~= lines.subrange(0, j));
        lemma_replay_stays_failed(lines, j + 1, t);
    }
}

/// The log line of a planned write: its base (`null` for a create), op,
/// path, blob, true name and version, keys in order.
pub open spec fn planned_line(w: WritePlan) -> Seq<char> {
    "{\"base\":"@ + (match w.base { Some(b) => decimal(b as nat), None => "null"@ })
        + ",\"op\":\"write\",\"path\":"@ + json_quoted(w.path@)
        + ",\"sha256\":"@ + json_quoted(w.sha256@)
        + ",\"true_name\":"@ + json_quoted(w.true_name@)
        + ",\"version\":"@ + decimal(w.version as nat) + "}"@
}

impl WritePlan {
    /// The line a write appends to its sub-workplace log.
    pub fn line(&self) -> (r: String)
        ensures
            r@ == planned_line(*self),
    {
        let mut out: Vec<char> = Vec::new();
        push_str(&mut out, "{\"base\":");
        match self.base {
            Some(b) => push_decimal(b as u64, &mut out),
            None => push_str(&mut out, "null"),
        }
        push_str(&mut out, ",\"op\":\"write\",\"path\":");
        let q = quote_json(self.path.as_str());
        push_str(&mut out, q.as_str());
        push_str(&mut out, ",\"sha256\":");
        let q = quote_json(self.sha256.as_str());
        push_str(&mut out, q.as_str());
        push_str(&mut out, ",\"true_name\":");
        let q = quote_json(self.true_name.as_str());
        push_str(&mut out, q.as_str());
        push_str(&mut out, ",\"version\":");
        push_decimal(self.version as u64, &mut out);
        push_str(&mut out, "}");
        string_of(out.as_slice())
    }
}

/// The log line of a tombstone on `path` of `true_name`.
pub fn tombstone_line(path: &str, true_name: &str) -> (r: String)
    ensures
        r@ == "{\"op\":\"tombstone\",\"path\":"@ + json_quoted(path@) + ",\"true_name\":"@ + json_quoted(true_name@) + "}"@,
{
    let mut out: Vec<char> = Vec::new();
    push_str(&mut out, "{\"op\":\"tombstone\",\"path\":");
    let q = quote_json(path);
    push_str(&mut out, q.as_str());
    push_str(&mut out, ",\"true_name\":");
    let q = quote_json(true_name);
    push_str(&mut out, q.as_str());
    push_str(&mut out, "}");
    string_of(out.as_slice())
}

/// The mount-log line registering sub-workplace `id` for a worker and its
/// session directory.
pub fn mount_line(id: &str, worker: u128, session: &str) -> (r: String)
    ensures
        r@ == "{\"id\":"@ + json_quoted(id@) + ",\"op\":\"mount\",\"session\":"@ + json_quoted(session@)
            + ",\"worker\":"@ + json_quoted(uuid_text(worker)) + "}"@,
{
    let w = uuid_string(worker);
    let mut out: Vec<char> = Vec::new();
    push_str(&mut out, "{\"id\":");
    let q = quote_json(id);
    push_str(&mut out, q.as_str());
    push_str(&mut out, ",\"op\":\"mount\",\"session\":");
    let q = quote_json(session);
    push_str(&mut out, q.as_str());
    push_str(&mut out, ",\"worker\":");
    let q = quote_json(w.as_str());
    push_str(&mut out, q.as_str());
    push_str(&mut out, "}");
    string_of(out.as_slice())
}

/// The mount-log line dropping sub-workplace `id`.
pub fn unmount_line(id: &str) -> (r: String)
    ensures
        r@ == "{\"id\":"@ + json_quoted(id@) + ",\"op\":\"unmount\"}"@,
{
    let mut out: Vec<char> = Vec::new();
    push_str(&mut out, "{\"id\":");
    let q = quote_json(id);
    push_str(&mut out, q.as_str());
    push_str(&mut out, ",\"op\":\"unmount\"}");
    string_of(out.as_slice())
}

/// A complete write logged at `path` makes it current at that write's
/// true name and version, whatever the views say; a continue based on
/// that version lands on the same true name.
pub proof fn lemma_continue_after_write(views: Seq<ViewRec>, log: Seq<SubLine>, l: SubLine, path: Seq<char>, minted: Seq<char>)
    requires
        is_text(l.path, path),
        is_text(l.op, "write"@),
        l.true_name is Some,
        l.version is Some,
    ensures
        current_at(views, log.push(l), path) == Some((l.true_name->0@, l.version->0 as u32)),
        write_name(views, log.push(l), path, WriteMode::Continue { base: l.version->0 as u32 }, minted) == Some(l.true_name->0@),
{
    assert(log.push(l).last() == l);
}

} // verus!
