//! Act sentences: orthogonal faces composed so illegal combinations cannot
//! be built.
use vstd::prelude::*;

use super::tag::{FileFacet, MemoryFacet, Permit, ToolTag};
use crate::text::{clone_opt, push_str, string_of};
use crate::workplace::resource::{resource_text, Resource};

verus! {

#[derive(Debug, Clone, Copy, PartialEq, Eq, Structural)]
pub enum SentenceError {
    MissingResource,
    UnboundedWithResource,
    ForgetWithFile,
    ForgetWithResource,
}

pub open spec fn sentence_error_text(e: SentenceError) -> Seq<char> {
    match e {
        SentenceError::MissingResource => "read/write act requires a workplace resource"@,
        SentenceError::UnboundedWithResource => "unbounded act cannot name a resource"@,
        SentenceError::ForgetWithFile => "forget cannot touch workplace files"@,
        SentenceError::ForgetWithResource => "forget does not take a resource"@,
    }
}

impl SentenceError {
    /// The error's message.
    pub fn message(&self) -> (r: String)
        ensures
            r@ == sentence_error_text(*self),
    {
        match self {
            SentenceError::MissingResource => "read/write act requires a workplace resource".to_owned(),
            SentenceError::UnboundedWithResource => "unbounded act cannot name a resource".to_owned(),
            SentenceError::ForgetWithFile => "forget cannot touch workplace files".to_owned(),
            SentenceError::ForgetWithResource => "forget does not take a resource".to_owned(),
        }
    }
}

#[derive(Debug, Clone, Copy, PartialEq, Eq, Structural)]
pub enum BareFile {
    Nothing,
    Unbounded,
}

#[derive(Debug, Clone, Copy, PartialEq, Eq, Structural)]
pub enum Access {
    R { recursive: bool },
    W { recursive: bool },
    Rw { recursive: bool },
}

#[derive(Debug, Clone, PartialEq, Eq)]
pub enum Ingest {
    Ignore,
    Remember { aspect: Option<String> },
}

#[derive(Debug, Clone, PartialEq, Eq)]
pub enum ActSentence {
    Bare { permit: Permit, file: BareFile, memory: Ingest },
    OnResource { permit: Permit, resource: Resource, access: Access, memory: Ingest },
    Forget { permit: Permit, remember_id: String },
}

/// The ingest face a memory facet other than forget asks for.
pub open spec fn ingest_of(m: MemoryFacet) -> Ingest {
    match m {
        MemoryFacet::Remember { aspect } => Ingest::Remember { aspect },
        _ => Ingest::Ignore,
    }
}

/// The sentence a tag seeds, given the resource the act names.
pub open spec fn seed_sentence(tag: ToolTag, resource: Option<Resource>) -> Result<ActSentence, SentenceError> {
    match tag.memory {
        MemoryFacet::Forget { remember_id } => {
            if !(tag.file is Nothing) {
                Err(SentenceError::ForgetWithFile)
            } else if resource is Some {
                Err(SentenceError::ForgetWithResource)
            } else {
                Ok(ActSentence::Forget { permit: tag.permit, remember_id })
            }
        },
        _ => {
            let ingest = ingest_of(tag.memory);
            match tag.file {
                FileFacet::Nothing => Ok(ActSentence::Bare { permit: tag.permit, file: BareFile::Nothing, memory: ingest }),
                FileFacet::Unbounded => if resource is Some {
                    Err(SentenceError::UnboundedWithResource)
                } else {
                    Ok(ActSentence::Bare { permit: tag.permit, file: BareFile::Unbounded, memory: ingest })
                },
                FileFacet::Read { recursive, .. } => match resource {
                    Some(r) => Ok(ActSentence::OnResource { permit: tag.permit, resource: r, access: Access::R { recursive }, memory: ingest }),
                    None => Err(SentenceError::MissingResource),
                },
                FileFacet::Write { recursive, .. } => match resource {
                    Some(r) => Ok(ActSentence::OnResource { permit: tag.permit, resource: r, access: Access::W { recursive }, memory: ingest }),
                    None => Err(SentenceError::MissingResource),
                },
                FileFacet::ReadWrite { recursive, .. } => match resource {
                    Some(r) => Ok(ActSentence::OnResource { permit: tag.permit, resource: r, access: Access::Rw { recursive }, memory: ingest }),
                    None => Err(SentenceError::MissingResource),
                },
            }
        },
    }
}

pub open spec fn permit_text(p: Permit) -> Seq<char> {
    match p {
        Permit::Ask => "ask"@,
        Permit::Go => "go"@,
        Permit::Forbidden => "forbidden"@,
    }
}

pub open spec fn ingest_text(m: Ingest) -> Seq<char> {
    match m {
        Ingest::Ignore => "ignore"@,
        Ingest::Remember { aspect } => match aspect {
            Some(a) => "remember:"@ + a@,
            None => "remember"@,
        },
    }
}

pub open spec fn access_text(a: Access) -> Seq<char> {
    match a {
        Access::R { recursive } => if recursive { "read..."@ } else { "read"@ },
        Access::W { recursive } => if recursive { "write..."@ } else { "write"@ },
        Access::Rw { recursive } => if recursive { "rw..."@ } else { "rw"@ },
    }
}

/// The sentence's one-line display.
pub open spec fn sentence_text(s: ActSentence) -> Seq<char> {
    match s {
        ActSentence::Bare { permit, file, memory } => permit_text(permit) + "; "@
            + (if file is Nothing { "none"@ } else { "unbounded"@ }) + "; "@ + ingest_text(memory),
        ActSentence::OnResource { permit, resource, access, memory } => permit_text(permit) + "; "@
            + access_text(access) + " "@ + resource_text(resource@) + "; "@ + ingest_text(memory),
        ActSentence::Forget { permit, remember_id } => permit_text(permit) + "; forget "@ + remember_id@,
    }
}

fn permit_str(p: Permit) -> (r: &'static str)
    ensures
        r@ == permit_text(p),
{
    match p {
        Permit::Ask => "ask",
        Permit::Go => "go",
        Permit::Forbidden => "forbidden",
    }
}

fn access_str(a: Access) -> (r: &'static str)
    ensures
        r@ == access_text(a),
{
    match a {
        Access::R { recursive } => if recursive { "read..." } else { "read" },
        Access::W { recursive } => if recursive { "write..." } else { "write" },
        Access::Rw { recursive } => if recursive { "rw..." } else { "rw" },
    }
}

fn push_ingest(out: &mut Vec<char>, m: &Ingest)
    ensures
        final(out)@ == old(out)@ + ingest_text(*m),
{
    match m {
        Ingest::Ignore => push_str(out, "ignore"),
        Ingest::Remember { aspect } => match aspect {
            Some(a) => {
                push_str(out, "remember:");
                push_str(out, a.as_str());
                assert(final(out)@ =~= old(out)@ + ingest_text(*m));
            },
            None => push_str(out, "remember"),
        },
    }
}

impl ActSentence {
    pub fn bare(permit: Permit, file: BareFile, memory: Ingest) -> (r: Self)
        ensures
            r == (ActSentence::Bare { permit, file, memory }),
    {
        ActSentence::Bare { permit, file, memory }
    }

    pub fn on_resource(permit: Permit, resource: Resource, access: Access, memory: Ingest) -> (r: Self)
        ensures
            r == (ActSentence::OnResource { permit, resource, access, memory }),
    {
        ActSentence::OnResource { permit, resource, access, memory }
    }

    pub fn forget(permit: Permit, remember_id: String) -> (r: Self)
        ensures
            r == (ActSentence::Forget { permit, remember_id }),
    {
        ActSentence::Forget { permit, remember_id }
    }

    /// The sentence a tool's tag seeds for an act on `resource`. Forget
    /// touches no file and names no resource; unbounded names no
    /// resource; read and write need one; a face-less tag ignores one.
    pub fn from_seed(tag: &ToolTag, resource: Option<Resource>) -> (r: Result<Self, SentenceError>)
        ensures
            r == seed_sentence(*tag, resource),
    {
        if let MemoryFacet::Forget { remember_id } = &tag.memory {
            if !matches!(tag.file, FileFacet::Nothing) {
                return Err(SentenceError::ForgetWithFile);
            }
            if resource.is_some() {
                return Err(SentenceError::ForgetWithResource);
            }
            return Ok(ActSentence::Forget { permit: tag.permit, remember_id: remember_id.clone() });
        }
        let ingest = match &tag.memory {
            MemoryFacet::Remember { aspect } => Ingest::Remember { aspect: clone_opt(aspect) },
            _ => Ingest::Ignore,
        };
        match &tag.file {
            FileFacet::Nothing => Ok(ActSentence::Bare { permit: tag.permit, file: BareFile::Nothing, memory: ingest }),
            FileFacet::Unbounded => {
                if resource.is_some() {
                    Err(SentenceError::UnboundedWithResource)
                } else {
                    Ok(ActSentence::Bare { permit: tag.permit, file: BareFile::Unbounded, memory: ingest })
                }
            },
            FileFacet::Read { recursive, .. } => match resource {
                Some(r) => Ok(ActSentence::OnResource { permit: tag.permit, resource: r, access: Access::R { recursive: *recursive }, memory: ingest }),
                None => Err(SentenceError::MissingResource),
            },
            FileFacet::Write { recursive, .. } => match resource {
                Some(r) => Ok(ActSentence::OnResource { permit: tag.permit, resource: r, access: Access::W { recursive: *recursive }, memory: ingest }),
                None => Err(SentenceError::MissingResource),
            },
            FileFacet::ReadWrite { recursive, .. } => match resource {
                Some(r) => Ok(ActSentence::OnResource { permit: tag.permit, resource: r, access: Access::Rw { recursive: *recursive }, memory: ingest }),
                None => Err(SentenceError::MissingResource),
            },
        }
    }

    pub fn permit(&self) -> (p: Permit)
        ensures
            p == (match *self {
                ActSentence::Bare { permit, .. } => permit,
                ActSentence::OnResource { permit, .. } => permit,
                ActSentence::Forget { permit, .. } => permit,
            }),
    {
        match self {
            ActSentence::Bare { permit, .. } => *permit,
            ActSentence::OnResource { permit, .. } => *permit,
            ActSentence::Forget { permit, .. } => *permit,
        }
    }

    pub fn resource(&self) -> (r: Option<&Resource>)
        ensures
            match *self {
                ActSentence::OnResource { resource, .. } => r == Some(&resource),
                _ => r is None,
            },
    {
        match self {
            ActSentence::OnResource { resource, .. } => Some(resource),
            _ => None,
        }
    }

    /// The sentence's one-line display text.
    pub fn render(&self) -> (r: String)
        ensures
            r@ == sentence_text(*self),
    {
        let mut out: Vec<char> = Vec::new();
        match self {
            ActSentence::Bare { permit, file, memory } => {
                push_str(&mut out, permit_str(*permit));
                push_str(&mut out, "; ");
                match file {
                    BareFile::Nothing => push_str(&mut out, "none"),
                    BareFile::Unbounded => push_str(&mut out, "unbounded"),
                }
                push_str(&mut out, "; ");
                push_ingest(&mut out, memory);
            },
            ActSentence::OnResource { permit, resource, access, memory } => {
                push_str(&mut out, permit_str(*permit));
                push_str(&mut out, "; ");
                push_str(&mut out, access_str(*access));
                push_str(&mut out, " ");
                let rt = resource.render();
                push_str(&mut out, rt.as_str());
                push_str(&mut out, "; ");
                push_ingest(&mut out, memory);
            },
            ActSentence::Forget { permit, remember_id } => {
                push_str(&mut out, permit_str(*permit));
                push_str(&mut out, "; forget ");
                push_str(&mut out, remember_id.as_str());
            },
        }
        assert(out@ =~= sentence_text(*self));
        string_of(out.as_slice())
    }
}

} // verus!
