//! A tool call as an act: the envelope it runs under, what is refused
//! before the tool runs, and the events and message it leaves behind.
use vstd::prelude::*;

use super::tag::{Permit, ToolTag};
use super::{ActEnvelope, ActKind};
use super::sense::{effect_from_tag, sensed};
use crate::memstream::event::{copies_envelope, ActOnEvent, AppendEvent, FromKind, Kind, Memevent};
use crate::text::{concat2, concat3_text};

verus! {

#[verifier::external_type_specification]
#[verifier::external_body]
pub struct ExJsonValue(serde_json::Value);

/// A call the model asked for.
#[derive(Debug)]
pub struct ToolCall {
    pub id: String,
    pub name: String,
    pub arguments: String,
}

impl Clone for ToolCall {
    fn clone(&self) -> (r: Self)
        ensures
            r == *self,
    {
        ToolCall { id: self.id.clone(), name: self.name.clone(), arguments: self.arguments.clone() }
    }
}

/// The tool's answer as the model sees it.
#[derive(Debug)]
pub struct ToolMessage {
    pub tool_call_id: String,
    pub content: String,
}

/// The tape events of one tool act (absent without a store) and the
/// message handed back to the model.
pub struct ToolActResult {
    pub action: Option<Memevent>,
    pub observation: Option<Memevent>,
    pub message: ToolMessage,
}

pub open spec fn unbounded_tag() -> ToolTag {
    ToolTag { file: super::tag::FileFacet::Unbounded, permit: Permit::Ask, memory: super::tag::MemoryFacet::Ignore }
}

/// The tag an act runs under: the tool's own seed, or unbounded (asking
/// first) when the tool has none or is unknown.
pub fn tag_of(seed: Option<ToolTag>) -> (r: ToolTag)
    ensures
        r == match seed {
            Some(t) => t,
            None => unbounded_tag(),
        },
{
    match seed {
        Some(t) => t,
        None => ToolTag::unbounded(),
    }
}

/// The envelope of a tool act: an invoke under `tag`, carried by the
/// named tool, outside any workplace.
pub fn tool_envelope(call: &ToolCall, tag: ToolTag) -> (r: ActEnvelope)
    ensures
        r.kind == ActKind::Invoke,
        r.tag == tag,
        r.workplace is None,
        r.resource is None,
        r.tool == Some(call.name),
{
    ActEnvelope { kind: ActKind::Invoke, tag, workplace: None, resource: None, tool: Some(call.name.clone()) }
}

/// The action line's text: the tool name, a space, the raw arguments.
pub fn action_content(call: &ToolCall) -> (r: String)
    ensures
        r@ == call.name@ + " "@ + call.arguments@,
{
    concat3_text(call.name.as_str(), " ", call.arguments.as_str())
}

/// The observation cites the action it answers, when there is one.
pub fn observation_refs(action: &Option<Memevent>) -> (r: Vec<String>)
    ensures
        r@ == match action {
            Some(a) => seq![a.id],
            None => Seq::<String>::empty(),
        },
{
    let mut refs: Vec<String> = Vec::new();
    match action {
        Some(a) => {
            refs.push(a.id.clone());
        },
        None => {},
    }
    refs
}

/// The event an agent appends for one step of a tool act.
pub fn agent_event(
    agent_id: &str,
    session: &str,
    kind: Kind,
    content: String,
    refs: Vec<String>,
    act: Option<ActOnEvent>,
) -> (r: AppendEvent)
    ensures
        r.from@ == agent_id@,
        r.from_kind == FromKind::Agent,
        r.kind == kind,
        r.session@ == session@,
        r.content == content,
        r.tags@.len() == 0,
        r.refs == refs,
        r.act == act,
{
    AppendEvent {
        from: agent_id.to_owned(),
        from_kind: FromKind::Agent,
        kind,
        session: session.to_owned(),
        content,
        tags: Vec::new(),
        refs,
        act,
    }
}


/// The intent of a tool act: an action by the agent in its session,
/// holding the call's text and the act's envelope, with no effect yet.
pub fn intent_event(agent_id: &str, session: &str, call: &ToolCall, env: &ActEnvelope) -> (r: AppendEvent)
    ensures
        r.from@ == agent_id@,
        r.from_kind == FromKind::Agent,
        r.kind == Kind::Action,
        r.session@ == session@,
        r.content@ == call.name@ + " "@ + call.arguments@,
        r.tags@.len() == 0,
        r.refs@.len() == 0,
        r.act matches Some(a) && copies_envelope(a, *env) && a.effect is None,
{
    agent_event(agent_id, session, Kind::Action, action_content(call), Vec::new(), Some(ActOnEvent::intent(env)))
}

/// The effect of a tool act: an observation by the agent holding what the
/// tool answered, citing the intent it answers where that is on the tape,
/// with the intent's envelope and the effect its tag declares.
pub fn effect_event(
    agent_id: &str,
    session: &str,
    env: &ActEnvelope,
    action: &Option<Memevent>,
    content: String,
) -> (r: AppendEvent)
    ensures
        r.from@ == agent_id@,
        r.from_kind == FromKind::Agent,
        r.kind == Kind::Observation,
        r.session@ == session@,
        r.content == content,
        r.tags@.len() == 0,
        r.refs@ == match action {
            Some(a) => seq![a.id],
            None => Seq::<String>::empty(),
        },
        r.act matches Some(a) && copies_envelope(a, *env) && (a.effect matches Some(e) && sensed(e, env.tag, None)),
{
    let effect = effect_from_tag(&env.tag, None);
    agent_event(agent_id, session, Kind::Observation, content, observation_refs(action), Some(ActOnEvent::with_effect(env, effect)))
}
/// The message the model gets back for `call`.
pub fn tool_message(call: &ToolCall, content: String) -> (r: ToolMessage)
    ensures
        r.tool_call_id == call.id,
        r.content == content,
{
    ToolMessage { tool_call_id: call.id.clone(), content }
}

/// Why a call is refused before its arguments are read, if it is: an
/// unknown tool, or a tag that forbids the act.
pub open spec fn refusal(name: Seq<char>, known: bool, permit: Permit) -> Option<Seq<char>> {
    if !known {
        Some("unknown tool: "@ + name)
    } else if permit == Permit::Forbidden {
        Some("forbidden"@)
    } else {
        None
    }
}

/// Only an unknown tool or a forbidding permit is refused: a known tool
/// under an `Ask` or `Go` permit never is; an unknown one is refused by
/// name, whatever its permit; a known one under `Forbidden` always is.
pub proof fn lemma_refused_only_when_unknown_or_forbidden(name: Seq<char>, known: bool, permit: Permit)
    ensures
        known && permit != Permit::Forbidden ==> refusal(name, known, permit) is None,
        !known ==> refusal(name, known, permit) == Some("unknown tool: "@ + name),
        known && permit == Permit::Forbidden ==> refusal(name, known, permit) == Some("forbidden"@),
{
}

/// The refusal of a call, checked before anything runs.
pub fn refuse(call: &ToolCall, known: bool, tag: &ToolTag) -> (r: Option<String>)
    ensures
        match refusal(call.name@, known, tag.permit) {
            None => r is None,
            Some(m) => r matches Some(s) && s@ == m,
        },
        known && tag.permit != Permit::Forbidden ==> r is None,
        !known ==> (r matches Some(s) && s@ == "unknown tool: "@ + call.name@),
        known && tag.permit == Permit::Forbidden ==> (r matches Some(s) && s@ == "forbidden"@),
{
    if !known {
        return Some(concat2("unknown tool: ", call.name.as_str()));
    }
    if tag.permit == Permit::Forbidden {
        return Some("forbidden".to_owned());
    }
    None
}

/// What `serde_json` reads `text` as: nothing where it is not JSON, else
/// whether the value is a JSON object.
pub uninterp spec fn json_shape(text: Seq<char>) -> Option<bool>;

/// `serde_json::from_str` into a `Value`: a value exactly when the text
/// is JSON, with whether it is an object. What the value holds is not
/// stated here.
#[verifier::external_body]
fn parse_json(raw: &str) -> (r: Option<(serde_json::Value, bool)>)
    ensures
        match r {
            Some((_, o)) => json_shape(raw@) == Some(o),
            None => json_shape(raw@) is None,
        },
{
    match serde_json::from_str::<serde_json::Value>(raw) {
        Ok(serde_json::Value::Object(m)) => Some((serde_json::Value::Object(m), true)),
        Ok(v) => Some((v, false)),
        Err(_) => None,
    }
}

/// A call's raw arguments read as a JSON object. Text that is not JSON
/// is refused with one message; JSON that is not an object with another.
pub fn parse_args(raw: &str) -> (r: Result<serde_json::Value, String>)
    ensures
        json_shape(raw@) is None ==> (r matches Err(e) && e@ == "tool arguments are not valid JSON"@),
        json_shape(raw@) == Some(false) ==> (r matches Err(e) && e@ == "tool arguments must be a JSON object"@),
        json_shape(raw@) == Some(true) ==> r is Ok,
{
    match parse_json(raw) {
        None => Err("tool arguments are not valid JSON".to_owned()),
        Some((v, object)) => {
            if !object {
                Err("tool arguments must be a JSON object".to_owned())
            } else {
                Ok(v)
            }
        },
    }
}

/// What a tool act does once the tool is looked up: answer at once with
/// a refusal, or run the tool on its parsed arguments.
pub enum CallPlan {
    Answer(String),
    Run(serde_json::Value),
}

/// Plans a call: a refusal first, then bad arguments, else a run.
pub fn plan_call(call: &ToolCall, known: bool, tag: &ToolTag) -> (r: CallPlan)
    ensures
        match refusal(call.name@, known, tag.permit) {
            Some(m) => r matches CallPlan::Answer(s) && s@ == m,
            None => {
                &&& json_shape(call.arguments@) is None ==> (r matches CallPlan::Answer(s) && s@ == "tool arguments are not valid JSON"@)
                &&& json_shape(call.arguments@) == Some(false) ==> (r matches CallPlan::Answer(s) && s@ == "tool arguments must be a JSON object"@)
                &&& json_shape(call.arguments@) == Some(true) ==> r is Run
            },
        },
        known && tag.permit != Permit::Forbidden && json_shape(call.arguments@) == Some(true) ==> r is Run,
{
    match refuse(call, known, tag) {
        Some(m) => CallPlan::Answer(m),
        None => match parse_args(call.arguments.as_str()) {
            Ok(v) => CallPlan::Run(v),
            Err(e) => CallPlan::Answer(e),
        },
    }
}

} // verus!
