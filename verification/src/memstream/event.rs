//! Memory events and the act record they carry.
use vstd::prelude::*;

use crate::act::sense::Effect;
use crate::act::tag::ToolTag;
use crate::act::{act_kind_name, ActEnvelope};
use crate::text::clone_opt;
use crate::workplace::resource::{Resource, ResourceView};

verus! {

#[derive(Debug, Clone, Copy, PartialEq, Eq, Structural)]
pub enum Kind {
    Utterance,
    Action,
    Observation,
}

#[derive(Debug, Clone, Copy, PartialEq, Eq, Structural)]
pub enum FromKind {
    Human,
    Agent,
    Unknown,
}

/// One line of the tape.
#[derive(Debug)]
pub struct Memevent {
    pub v: u32,
    pub id: String,
    pub seq: u64,
    pub ts: String,
    pub from: String,
    pub from_kind: FromKind,
    pub kind: Kind,
    pub session: Option<String>,
    pub content: String,
    pub tags: Vec<String>,
    pub refs: Vec<String>,
    pub act: Option<ActOnEvent>,
}

/// Act envelope on a memevent. Older lines omit it.
#[derive(Debug)]
pub struct ActOnEvent {
    pub kind: String,
    pub tag: ToolTag,
    pub workplace: Option<String>,
    pub resource: Option<Resource>,
    pub tool: Option<String>,
    pub effect: Option<Effect>,
}

/// An event as handed to the store, before it is numbered and stamped.
#[derive(Debug)]
pub struct AppendEvent {
    pub from: String,
    pub from_kind: FromKind,
    pub kind: Kind,
    pub session: String,
    pub content: String,
    pub tags: Vec<String>,
    pub refs: Vec<String>,
    pub act: Option<ActOnEvent>,
}

pub open spec fn resource_view_of(r: Option<Resource>) -> Option<ResourceView> {
    match r {
        Some(x) => Some(x@),
        None => None,
    }
}

fn clone_resource(r: &Option<Resource>) -> (c: Option<Resource>)
    ensures
        resource_view_of(c) == resource_view_of(*r),
{
    match r {
        Some(x) => Some(x.clone()),
        None => None,
    }
}

/// The act record copies the envelope: kind name, tag, workplace,
/// resource and tool.
pub open spec fn copies_envelope(a: ActOnEvent, env: ActEnvelope) -> bool {
    &&& a.kind@ == act_kind_name(env.kind)
    &&& a.tag == env.tag
    &&& a.workplace == env.workplace
    &&& resource_view_of(a.resource) == resource_view_of(env.resource)
    &&& a.tool == env.tool
}

impl ActOnEvent {
    /// The act record of an intent: the envelope, no effect yet.
    pub fn intent(env: &ActEnvelope) -> (r: Self)
        ensures
            copies_envelope(r, *env),
            r.effect is None,
    {
        ActOnEvent {
            kind: env.kind.as_str().to_owned(),
            tag: env.tag.clone(),
            workplace: clone_opt(&env.workplace),
            resource: clone_resource(&env.resource),
            tool: clone_opt(&env.tool),
            effect: None,
        }
    }

    /// The act record of an outcome: the envelope and the sensed effect.
    pub fn with_effect(env: &ActEnvelope, effect: Effect) -> (r: Self)
        ensures
            copies_envelope(r, *env),
            r.effect == Some(effect),
    {
        ActOnEvent {
            kind: env.kind.as_str().to_owned(),
            tag: env.tag.clone(),
            workplace: clone_opt(&env.workplace),
            resource: clone_resource(&env.resource),
            tool: clone_opt(&env.tool),
            effect: Some(effect),
        }
    }
}

/// Why a line fails validation, if it does.
pub open spec fn memevent_problem(v: u32, id: Seq<char>) -> Option<Seq<char>> {
    if v != 1 {
        Some("memory event v must be 1"@)
    } else if id.len() == 0 {
        Some("memory event id must be a string"@)
    } else {
        None
    }
}

impl Memevent {
    /// A line is valid when it is version 1 and has an id.
    pub fn validate(&self) -> (r: Result<(), String>)
        ensures
            match memevent_problem(self.v, self.id@) {
                None => r is Ok,
                Some(m) => r matches Err(e) && e@ == m,
            },
    {
        if self.v != 1 {
            return Err("memory event v must be 1".to_owned());
        }
        if self.id.as_str().is_empty() {
            return Err("memory event id must be a string".to_owned());
        }
        Ok(())
    }
}

} // verus!
