//! Per-tool permission tag: a file face, a permit and a memory face.
use vstd::prelude::*;

verus! {

/// How an act may proceed: ask first, never, or go ahead.
#[derive(Debug, Clone, Copy, PartialEq, Eq, Structural)]
pub enum Permit {
    Ask,
    Forbidden,
    Go,
}

/// What a tool may do to workplace files.
#[derive(Debug, PartialEq, Eq)]
pub enum FileFacet {
    Nothing,
    Unbounded,
    Read { path: String, recursive: bool },
    Write { path: String, recursive: bool },
    ReadWrite { path: String, recursive: bool },
}

/// What a tool may do to memory.
#[derive(Debug, PartialEq, Eq)]
pub enum MemoryFacet {
    Ignore,
    Remember { aspect: Option<String> },
    Forget { remember_id: String },
}

pub open spec fn memory_op_name(m: MemoryFacet) -> Seq<char> {
    match m {
        MemoryFacet::Ignore => "ignore"@,
        MemoryFacet::Remember { .. } => "remember"@,
        MemoryFacet::Forget { .. } => "forget"@,
    }
}

impl MemoryFacet {
    /// The facet's op keyword.
    pub fn op_name(&self) -> (r: &'static str)
        ensures
            r@ == memory_op_name(*self),
    {
        match self {
            MemoryFacet::Ignore => "ignore",
            MemoryFacet::Remember { .. } => "remember",
            MemoryFacet::Forget { .. } => "forget",
        }
    }
}

#[derive(Debug, PartialEq, Eq)]
pub struct ToolTag {
    pub file: FileFacet,
    pub permit: Permit,
    pub memory: MemoryFacet,
}

/// The tag of an act that touches nothing: no file access, go, ignore memory.
pub open spec fn none_tag() -> ToolTag {
    ToolTag { file: FileFacet::Nothing, permit: Permit::Go, memory: MemoryFacet::Ignore }
}

/// A file face that names `path`, with the given access, not recursive.
pub open spec fn names_path(f: FileFacet, p: Seq<char>) -> bool {
    match f {
        FileFacet::Read { path, recursive } => path@ == p && !recursive,
        FileFacet::Write { path, recursive } => path@ == p && !recursive,
        FileFacet::ReadWrite { path, recursive } => path@ == p && !recursive,
        _ => false,
    }
}

impl ToolTag {
    /// No file access, go, ignore memory.
    pub fn none() -> (r: Self)
        ensures
            r.file == FileFacet::Nothing,
            r.permit == Permit::Go,
            r.memory == MemoryFacet::Ignore,
    {
        ToolTag { file: FileFacet::Nothing, permit: Permit::Go, memory: MemoryFacet::Ignore }
    }

    /// No file access, the given permit, ignore memory.
    pub fn none_permit(permit: Permit) -> (r: Self)
        ensures
            r.file == FileFacet::Nothing,
            r.permit == permit,
            r.memory == MemoryFacet::Ignore,
    {
        ToolTag { file: FileFacet::Nothing, permit, memory: MemoryFacet::Ignore }
    }

    /// A remember tool: returns the fact text, admission writes the clip.
    pub fn remember() -> (r: Self)
        ensures
            r.file == FileFacet::Nothing,
            r.permit == Permit::Go,
            r.memory == (MemoryFacet::Remember { aspect: None }),
    {
        ToolTag { file: FileFacet::Nothing, permit: Permit::Go, memory: MemoryFacet::Remember { aspect: None } }
    }

    /// Unbounded file access; asks first.
    pub fn unbounded() -> (r: Self)
        ensures
            r.file == FileFacet::Unbounded,
            r.permit == Permit::Ask,
            r.memory == MemoryFacet::Ignore,
    {
        ToolTag { file: FileFacet::Unbounded, permit: Permit::Ask, memory: MemoryFacet::Ignore }
    }

    /// Reads `path`; goes ahead.
    pub fn read(path: String) -> (r: Self)
        ensures
            r.file is Read,
            names_path(r.file, path@),
            r.permit == Permit::Go,
            r.memory == MemoryFacet::Ignore,
    {
        ToolTag { file: FileFacet::Read { path, recursive: false }, permit: Permit::Go, memory: MemoryFacet::Ignore }
    }

    /// Writes `path`; asks first.
    pub fn write(path: String) -> (r: Self)
        ensures
            r.file is Write,
            names_path(r.file, path@),
            r.permit == Permit::Ask,
            r.memory == MemoryFacet::Ignore,
    {
        ToolTag { file: FileFacet::Write { path, recursive: false }, permit: Permit::Ask, memory: MemoryFacet::Ignore }
    }

    /// Reads and writes `path`; asks first.
    pub fn read_write(path: String) -> (r: Self)
        ensures
            r.file is ReadWrite,
            names_path(r.file, path@),
            r.permit == Permit::Ask,
            r.memory == MemoryFacet::Ignore,
    {
        ToolTag { file: FileFacet::ReadWrite { path, recursive: false }, permit: Permit::Ask, memory: MemoryFacet::Ignore }
    }
}

impl Clone for FileFacet {
    fn clone(&self) -> (r: Self)
        ensures
            r == *self,
    {
        match self {
            FileFacet::Nothing => FileFacet::Nothing,
            FileFacet::Unbounded => FileFacet::Unbounded,
            FileFacet::Read { path, recursive } => FileFacet::Read { path: path.clone(), recursive: *recursive },
            FileFacet::Write { path, recursive } => FileFacet::Write { path: path.clone(), recursive: *recursive },
            FileFacet::ReadWrite { path, recursive } => FileFacet::ReadWrite { path: path.clone(), recursive: *recursive },
        }
    }
}

impl Clone for MemoryFacet {
    fn clone(&self) -> (r: Self)
        ensures
            r == *self,
    {
        match self {
            MemoryFacet::Ignore => MemoryFacet::Ignore,
            MemoryFacet::Remember { aspect } => MemoryFacet::Remember {
                aspect: match aspect { Some(a) => Some(a.clone()), None => None },
            },
            MemoryFacet::Forget { remember_id } => MemoryFacet::Forget { remember_id: remember_id.clone() },
        }
    }
}

impl Clone for ToolTag {
    fn clone(&self) -> (r: Self)
        ensures
            r == *self,
    {
        ToolTag { file: self.file.clone(), permit: self.permit, memory: self.memory.clone() }
    }
}

} // verus!

verus! {

pub enum FileFacetView {
    Nothing,
    Unbounded,
    Read { path: Seq<char>, recursive: bool },
    Write { path: Seq<char>, recursive: bool },
    ReadWrite { path: Seq<char>, recursive: bool },
}

impl View for FileFacet {
    type V = FileFacetView;

    open spec fn view(&self) -> FileFacetView {
        match *self {
            FileFacet::Nothing => FileFacetView::Nothing,
            FileFacet::Unbounded => FileFacetView::Unbounded,
            FileFacet::Read { path, recursive } => FileFacetView::Read { path: path@, recursive },
            FileFacet::Write { path, recursive } => FileFacetView::Write { path: path@, recursive },
            FileFacet::ReadWrite { path, recursive } => FileFacetView::ReadWrite { path: path@, recursive },
        }
    }
}

pub enum MemoryFacetView {
    Ignore,
    Remember { aspect: Option<Seq<char>> },
    Forget { remember_id: Seq<char> },
}

impl View for MemoryFacet {
    type V = MemoryFacetView;

    open spec fn view(&self) -> MemoryFacetView {
        match *self {
            MemoryFacet::Ignore => MemoryFacetView::Ignore,
            MemoryFacet::Remember { aspect } => MemoryFacetView::Remember {
                aspect: match aspect { Some(a) => Some(a@), None => None },
            },
            MemoryFacet::Forget { remember_id } => MemoryFacetView::Forget { remember_id: remember_id@ },
        }
    }
}

} // verus!
