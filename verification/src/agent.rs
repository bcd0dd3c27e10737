//! The agent loop's bookkeeping: the chat transcript, what a model reply
//! adds to it, and when the loop is idle.
use vstd::prelude::*;

use crate::act::tag::{none_tag, ToolTag};
use crate::act::tool::{ToolCall, ToolMessage};
use crate::act::{ActEnvelope, ActKind};
use crate::memstream::event::{ActOnEvent, AppendEvent, FromKind, Kind};
use crate::text::str_eq;

verus! {

#[derive(Debug)]
pub struct WireFunction {
    pub name: String,
    pub arguments: String,
}

/// A tool call as it travels in the chat transcript.
#[derive(Debug)]
pub struct WireToolCall {
    pub id: String,
    pub type_: String,
    pub function: WireFunction,
}

#[derive(Debug)]
pub struct ChatMessage {
    pub role: String,
    pub content: Option<String>,
    pub tool_calls: Option<Vec<WireToolCall>>,
    pub tool_call_id: Option<String>,
}

/// A model reply: its text and the tool calls it asks for.
#[derive(Debug)]
pub struct Assistant {
    pub content: String,
    pub tool_calls: Vec<ToolCall>,
}

pub struct AgentState {
    pub messages: Vec<ChatMessage>,
}

/// An assistant message that asks for no tool.
pub open spec fn is_final_assistant(m: ChatMessage) -> bool {
    &&& m.role@ == "assistant"@
    &&& match m.tool_calls {
        None => true,
        Some(cs) => cs@.len() == 0,
    }
}

/// The loop is idle when the transcript ends with a final assistant message.
pub open spec fn ends_idle(ms: Seq<ChatMessage>) -> bool {
    ms.len() > 0 && is_final_assistant(ms.last())
}

/// The text of the last assistant message (empty when it has none, or
/// when no assistant has spoken).
pub open spec fn last_assistant_of(ms: Seq<ChatMessage>) -> Seq<char>
    decreases ms.len(),
{
    if ms.len() == 0 {
        Seq::empty()
    } else if ms.last().role@ == "assistant"@ {
        match ms.last().content {
            Some(c) => c@,
            None => Seq::empty(),
        }
    } else {
        last_assistant_of(ms.drop_last())
    }
}

/// `w` is `c` on the wire.
pub open spec fn wires(w: WireToolCall, c: ToolCall) -> bool {
    &&& w.id == c.id
    &&& w.type_@ == "function"@
    &&& w.function.name == c.name
    &&& w.function.arguments == c.arguments
}

/// The transcript entry of a model reply: text only when there is some,
/// calls only when there are some.
pub open spec fn reply_message(m: ChatMessage, a: Assistant) -> bool {
    &&& m.role@ == "assistant"@
    &&& if a.content@.len() == 0 { m.content is None } else { m.content == Some(a.content) }
    &&& if a.tool_calls@.len() == 0 {
        m.tool_calls is None
    } else {
        m.tool_calls matches Some(ws) && ws@.len() == a.tool_calls@.len()
            && forall|i: int| 0 <= i < ws@.len() ==> #[trigger] wires(ws@[i], a.tool_calls@[i])
    }
    &&& m.tool_call_id is None
}

/// Whether the transcript ends with an assistant message that asks for
/// no tool.
pub fn last_is_final_assistant(state: &AgentState) -> (r: bool)
    ensures
        r == ends_idle(state.messages@),
{
    let n = state.messages.len();
    if n == 0 {
        return false;
    }
    let last = &state.messages[n - 1];
    if !str_eq(last.role.as_str(), "assistant") {
        return false;
    }
    match &last.tool_calls {
        None => true,
        Some(cs) => cs.len() == 0,
    }
}

/// The text of the last assistant message, or empty.
pub fn last_assistant_text(state: &AgentState) -> (r: String)
    ensures
        r@ == last_assistant_of(state.messages@),
{
    let mut i = state.messages.len();
    assert(state.messages@.subrange(0, i as int) =~= state.messages@);
    while i > 0
        invariant
            i <= state.messages.len(),
            last_assistant_of(state.messages@) == last_assistant_of(state.messages@.subrange(0, i as int)),
        decreases i,
    {
        let m = &state.messages[i - 1];
        assert(state.messages@.subrange(0, i as int).drop_last() =~= state.messages@.subrange(0, i - 1));
        if str_eq(m.role.as_str(), "assistant") {
            return match &m.content {
                Some(c) => c.clone(),
                None => String::new(),
            };
        }
        i = i - 1;
    }
    String::new()
}

/// The wire form of a tool call.
pub fn wire_call(c: &ToolCall) -> (w: WireToolCall)
    ensures
        wires(w, *c),
{
    WireToolCall {
        id: c.id.clone(),
        type_: "function".to_owned(),
        function: WireFunction { name: c.name.clone(), arguments: c.arguments.clone() },
    }
}

/// The transcript entry of a model reply.
pub fn assistant_message(a: &Assistant) -> (m: ChatMessage)
    ensures
        reply_message(m, *a),
{
    let content = if a.content.as_str().is_empty() { None } else { Some(a.content.clone()) };
    let tool_calls = if a.tool_calls.len() == 0 {
        None
    } else {
        let mut ws: Vec<WireToolCall> = Vec::new();
        let mut i: usize = 0;
        while i < a.tool_calls.len()
            invariant
                i <= a.tool_calls.len(),
                ws@.len() == i,
                forall|k: int| 0 <= k < i ==> #[trigger] wires(ws@[k], a.tool_calls@[k]),
            decreases a.tool_calls.len() - i,
        {
            ws.push(wire_call(&a.tool_calls[i]));
            i = i + 1;
        }
        Some(ws)
    };
    ChatMessage { role: "assistant".to_owned(), content, tool_calls, tool_call_id: None }
}

/// The transcript entry of a tool's answer.
pub fn tool_reply(msg: ToolMessage) -> (m: ChatMessage)
    ensures
        m.role@ == "tool"@,
        m.content == Some(msg.content),
        m.tool_calls is None,
        m.tool_call_id == Some(msg.tool_call_id),
{
    ChatMessage { role: "tool".to_owned(), content: Some(msg.content), tool_calls: None, tool_call_id: Some(msg.tool_call_id) }
}

/// The transcript after a model reply.
pub fn record_reply(state: AgentState, a: &Assistant) -> (r: AgentState)
    ensures
        r.messages@.len() == state.messages@.len() + 1,
        r.messages@.drop_last() == state.messages@,
        reply_message(r.messages@.last(), *a),
{
    let mut messages = state.messages;
    messages.push(assistant_message(a));
    proof {
        assert(messages@.drop_last() =~= state.messages@);
    }
    AgentState { messages }
}

/// The transcript after a tool answered.
pub fn record_tool_reply(state: AgentState, msg: ToolMessage) -> (r: AgentState)
    ensures
        r.messages@.len() == state.messages@.len() + 1,
        r.messages@.drop_last() == state.messages@,
        r.messages@.last().role@ == "tool"@,
        r.messages@.last().content == Some(msg.content),
        r.messages@.last().tool_call_id == Some(msg.tool_call_id),
{
    let mut messages = state.messages;
    let ghost m = msg;
    messages.push(tool_reply(msg));
    proof {
        assert(messages@.drop_last() =~= state.messages@);
    }
    AgentState { messages }
}

/// A reply that asks for no tool leaves the loop idle; one that asks for
/// a tool does not.
pub proof fn lemma_reply_idle(state: Seq<ChatMessage>, m: ChatMessage, a: Assistant)
    requires
        reply_message(m, a),
    ensures
        ends_idle(state.push(m)) <==> a.tool_calls@.len() == 0,
{
    assert(state.push(m).last() == m);
}

/// A tool's answer never leaves the loop idle.
pub proof fn lemma_tool_reply_not_idle(state: Seq<ChatMessage>, m: ChatMessage)
    requires
        m.role@ == "tool"@,
    ensures
        !ends_idle(state.push(m)),
{
    assert(state.push(m).last() == m);
    assert("tool"@ != "assistant"@) by {
        reveal_strlit("tool");
        reveal_strlit("assistant");
        assert("tool"@[0] != "assistant"@[0]);
    }
}

/// The utterance event an agent appends for what it said.
pub fn utterance_event(agent_id: &str, session: &str, content: &str) -> (r: AppendEvent)
    ensures
        r.from@ == agent_id@,
        r.from_kind == FromKind::Agent,
        r.kind == Kind::Utterance,
        r.session@ == session@,
        r.content@ == content@,
        r.tags@.len() == 0,
        r.refs@.len() == 0,
        r.act matches Some(a) && a.kind@ == "utterance"@ && a.tag == none_tag()
            && a.workplace is None && a.resource is None && a.tool is None && a.effect is None,
{
    let env = ActEnvelope { kind: ActKind::Utterance, tag: ToolTag::none(), workplace: None, resource: None, tool: None };
    AppendEvent {
        from: agent_id.to_owned(),
        from_kind: FromKind::Agent,
        kind: Kind::Utterance,
        session: session.to_owned(),
        content: content.to_owned(),
        tags: Vec::new(),
        refs: Vec::new(),
        act: Some(ActOnEvent::intent(&env)),
    }
}

/// What the loop does after a step.
#[derive(Debug, Clone, Copy, PartialEq, Eq, Structural)]
pub enum LoopVerdict {
    /// The transcript ends with a final assistant message: stop.
    Idle,
    /// Steps remain: take another.
    Again,
    /// The step limit is spent without the agent going idle.
    Exceeded,
}

/// The loop's decision after `taken` of at most `max_steps` steps.
pub fn loop_verdict(state: &AgentState, taken: u32, max_steps: u32) -> (r: LoopVerdict)
    ensures
        ends_idle(state.messages@) ==> r == LoopVerdict::Idle,
        !ends_idle(state.messages@) && taken < max_steps ==> r == LoopVerdict::Again,
        !ends_idle(state.messages@) && taken >= max_steps ==> r == LoopVerdict::Exceeded,
{
    if last_is_final_assistant(state) {
        LoopVerdict::Idle
    } else if taken < max_steps {
        LoopVerdict::Again
    } else {
        LoopVerdict::Exceeded
    }
}

} // verus!
