//! The effect an act's tag declares, recorded on the observation.
use vstd::prelude::*;

use super::tag::{memory_op_name, FileFacet, MemoryFacet, ToolTag};
use crate::text::{clone_opt, clone_strings};

verus! {

#[derive(Debug, PartialEq, Eq)]
pub struct Effect {
    pub reads: Vec<String>,
    pub writes: Vec<String>,
    pub unbounded: bool,
    pub workplace: Option<String>,
    pub memory: String,
    pub from_head: Option<String>,
    pub to_head: Option<String>,
    pub blob: Option<String>,
}

impl Clone for Effect {
    fn clone(&self) -> (r: Self)
        ensures
            r.reads@ == self.reads@,
            r.writes@ == self.writes@,
            r.unbounded == self.unbounded,
            r.workplace == self.workplace,
            r.memory == self.memory,
            r.from_head == self.from_head,
            r.to_head == self.to_head,
            r.blob == self.blob,
    {
        Effect {
            reads: clone_strings(&self.reads),
            writes: clone_strings(&self.writes),
            unbounded: self.unbounded,
            workplace: clone_opt(&self.workplace),
            memory: self.memory.clone(),
            from_head: clone_opt(&self.from_head),
            to_head: clone_opt(&self.to_head),
            blob: clone_opt(&self.blob),
        }
    }
}

/// Paths a file face reads.
pub open spec fn face_reads(f: FileFacet) -> Seq<String> {
    match f {
        FileFacet::Read { path, .. } => seq![path],
        FileFacet::ReadWrite { path, .. } => seq![path],
        _ => Seq::empty(),
    }
}

/// Paths a file face writes.
pub open spec fn face_writes(f: FileFacet) -> Seq<String> {
    match f {
        FileFacet::Write { path, .. } => seq![path],
        FileFacet::ReadWrite { path, .. } => seq![path],
        _ => Seq::empty(),
    }
}

/// `e` is the effect sensed from `tag` in `workplace`: its file face's
/// read and write paths, whether it is unbounded, the workplace and its
/// memory op; no heads or blob yet.
pub open spec fn sensed(e: Effect, tag: ToolTag, workplace: Option<String>) -> bool {
    &&& e.reads@ == face_reads(tag.file)
    &&& e.writes@ == face_writes(tag.file)
    &&& e.unbounded == (tag.file is Unbounded)
    &&& e.workplace == workplace
    &&& e.memory@ == memory_op_name(tag.memory)
    &&& e.from_head is None
    &&& e.to_head is None
    &&& e.blob is None
}

/// The effect sensed from a tag: its file face's read and write paths,
/// whether it is unbounded, the workplace it ran in and its memory op; no
/// heads or blob yet.
pub fn effect_from_tag(tag: &ToolTag, workplace: Option<String>) -> (e: Effect)
    ensures
        sensed(e, *tag, workplace),
{
    let memory = tag.memory.op_name().to_owned();
    match &tag.file {
        FileFacet::Nothing => Effect {
            reads: Vec::new(), writes: Vec::new(), unbounded: false, workplace, memory,
            from_head: None, to_head: None, blob: None,
        },
        FileFacet::Unbounded => Effect {
            reads: Vec::new(), writes: Vec::new(), unbounded: true, workplace, memory,
            from_head: None, to_head: None, blob: None,
        },
        FileFacet::Read { path, .. } => {
            let mut reads = Vec::new();
            reads.push(path.clone());
            assert(reads@ =~= face_reads(tag.file));
            Effect {
                reads, writes: Vec::new(), unbounded: false, workplace, memory,
                from_head: None, to_head: None, blob: None,
            }
        },
        FileFacet::Write { path, .. } => {
            let mut writes = Vec::new();
            writes.push(path.clone());
            assert(writes@ =~= face_writes(tag.file));
            Effect {
                reads: Vec::new(), writes, unbounded: false, workplace, memory,
                from_head: None, to_head: None, blob: None,
            }
        },
        FileFacet::ReadWrite { path, .. } => {
            let mut reads = Vec::new();
            reads.push(path.clone());
            let mut writes = Vec::new();
            writes.push(path.clone());
            assert(reads@ =~= face_reads(tag.file));
            assert(writes@ =~= face_writes(tag.file));
            Effect {
                reads, writes, unbounded: false, workplace, memory,
                from_head: None, to_head: None, blob: None,
            }
        },
    }
}

} // verus!
