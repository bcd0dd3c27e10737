//! What the chat-completions client decides around its HTTP call: the
//! endpoint it posts to, which setting wins, and how a reply becomes an
//! `Assistant`.
use vstd::prelude::*;

use crate::act::tool::ToolCall;
use crate::agent::{Assistant, WireToolCall};
use crate::text::{chars_of, push_str, string_of};

verus! {

#[derive(Debug, Clone, PartialEq, Eq)]
pub enum ModelError {
    /// A setting that neither the environment nor the file gives.
    Missing(String),
    /// The reply has no choice to read.
    EmptyChoices,
}

/// `s` without the `/` characters at its end.
pub open spec fn trim_slashes(s: Seq<char>) -> Seq<char>
    decreases s.len(),
{
    if s.len() > 0 && s.last() == '/' { trim_slashes(s.drop_last()) } else { s }
}

/// The endpoint under `base_url`: its trailing slashes dropped, then
/// `/chat/completions`.
pub fn completions_url(base_url: &str) -> (r: String)
    ensures
        r@ == trim_slashes(base_url@) + "/chat/completions"@,
{
    let cs = chars_of(base_url);
    let mut n = cs.len();
    assert(cs@.subrange(0, n as int) =~= cs@);
    while n > 0 && cs[n - 1] == '/'
        invariant
            n <= cs@.len(),
            cs@ == base_url@,
            trim_slashes(cs@) == trim_slashes(cs@.subrange(0, n as int)),
        decreases n,
    {
        assert(cs@.subrange(0, n as int).drop_last() =~= cs@.subrange(0, n - 1));
        n = n - 1;
    }
    let mut out: Vec<char> = Vec::new();
    let mut i: usize = 0;
    while i < n
        invariant
            i <= n <= cs@.len(),
            out@ == cs@.subrange(0, i as int),
        decreases n - i,
    {
        out.push(cs[i]);
        assert(cs@.subrange(0, i + 1) =~= cs@.subrange(0, i as int).push(cs@[i as int]));
        i = i + 1;
    }
    push_str(&mut out, "/chat/completions");
    string_of(&out)
}

/// A setting from the environment when it is set there, else from the
/// settings file; `Missing(what)` when neither has it.
pub fn pick_setting(env: Option<String>, file: Option<String>, what: &str) -> (r: Result<String, ModelError>)
    ensures
        env matches Some(e) ==> r == Ok::<String, ModelError>(e),
        env is None ==> (file matches Some(f) ==> r == Ok::<String, ModelError>(f)),
        env is None && file is None ==> (r matches Err(ModelError::Missing(m)) && m@ == what@),
{
    match env {
        Some(e) => Ok(e),
        None => match file {
            Some(f) => Ok(f),
            None => Err(ModelError::Missing(what.to_owned())),
        },
    }
}

/// The call a wire call asks for; a call that came without an id gets
/// `fresh`.
pub open spec fn call_of(w: WireToolCall, fresh: String) -> ToolCall {
    ToolCall {
        id: if w.id@.len() == 0 { fresh } else { w.id },
        name: w.function.name,
        arguments: w.function.arguments,
    }
}

/// The `Assistant` of a reply's first choice: its text (empty when it has
/// none) and its tool calls, in order, each missing id replaced by the
/// fresh id at the same place.
pub fn assistant_of(content: Option<String>, calls: Vec<WireToolCall>, fresh: Vec<String>) -> (r: Assistant)
    requires
        fresh@.len() == calls@.len(),
    ensures
        r.content@ == match content { Some(c) => c@, None => Seq::empty() },
        r.tool_calls@.len() == calls@.len(),
        forall|k: int| 0 <= k < calls@.len() ==> #[trigger] r.tool_calls@[k] == call_of(calls@[k], fresh@[k]),
{
    let ghost cs = calls@;
    let ghost fs = fresh@;
    let mut out: Vec<ToolCall> = Vec::new();
    let mut calls = calls;
    let mut fresh = fresh;
    let mut k: usize = 0;
    let n = calls.len();
    while k < n
        invariant
            n == cs.len(),
            fs.len() == cs.len(),
            k <= n,
            calls@ == cs.subrange(k as int, n as int),
            fresh@ == fs.subrange(k as int, n as int),
            out@.len() == k,
            forall|t: int| 0 <= t < k ==> #[trigger] out@[t] == call_of(cs[t], fs[t]),
        decreases n - k,
    {
        let w = calls.remove(0);
        let f = fresh.remove(0);
        assert(calls@ =~= cs.subrange(k + 1, n as int));
        assert(fresh@ =~= fs.subrange(k + 1, n as int));
        let ghost wk = w;
        let ghost fk = f;
        let id = if w.id.as_str().unicode_len() == 0 { f } else { w.id };
        out.push(ToolCall { id, name: w.function.name, arguments: w.function.arguments });
        assert(out@[k as int] == call_of(wk, fk));
        k = k + 1;
    }
    let text = match content {
        Some(c) => c,
        None => String::new(),
    };
    Assistant { content: text, tool_calls: out }
}

} // verus!
