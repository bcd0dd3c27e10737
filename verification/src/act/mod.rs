//! The act vocabulary: kinds, tags, sentences and their sensed effects.
use vstd::prelude::*;

pub mod registry;
pub mod sense;
pub mod sentence;
pub mod tag;
pub mod tool;

pub use registry::{RegistryError, Tier, ToolRegistry};
pub use sense::{effect_from_tag, Effect};
pub use sentence::{Access, ActSentence, BareFile, Ingest, SentenceError};
pub use tag::{FileFacet, MemoryFacet, Permit, ToolTag};
pub use tool::{tag_of, ToolActResult, ToolCall, ToolMessage};

use crate::workplace::Resource;

verus! {

/// Intent-domain vocabulary. Invoke covers all non-deterministic external
/// calls, generic tool use and model calls alike.
#[derive(Debug, Clone, Copy, PartialEq, Eq, Structural)]
pub enum ActKind {
    Utterance,
    Invoke,
    Mount,
    Unmount,
    Forbid,
    Allow,
    Remember,
    Forget,
}

pub open spec fn act_kind_name(k: ActKind) -> Seq<char> {
    match k {
        ActKind::Utterance => "utterance"@,
        ActKind::Invoke => "invoke"@,
        ActKind::Mount => "mount"@,
        ActKind::Unmount => "unmount"@,
        ActKind::Forbid => "forbid"@,
        ActKind::Allow => "allow"@,
        ActKind::Remember => "remember"@,
        ActKind::Forget => "forget"@,
    }
}

impl ActKind {
    /// The kind's wire name.
    pub fn as_str(self) -> (r: &'static str)
        ensures
            r@ == act_kind_name(self),
    {
        match self {
            ActKind::Utterance => "utterance",
            ActKind::Invoke => "invoke",
            ActKind::Mount => "mount",
            ActKind::Unmount => "unmount",
            ActKind::Forbid => "forbid",
            ActKind::Allow => "allow",
            ActKind::Remember => "remember",
            ActKind::Forget => "forget",
        }
    }
}

/// What an act is about: its kind, the tag it runs under, where it runs
/// and, when a tool carries it, the tool's name.
#[derive(Debug)]
pub struct ActEnvelope {
    pub kind: ActKind,
    pub tag: ToolTag,
    pub workplace: Option<String>,
    pub resource: Option<Resource>,
    pub tool: Option<String>,
}

} // verus!
