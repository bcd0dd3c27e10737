//! Agent cards: the complete, immutable identity of an agent, and the hash
//! that names a card: the SHA-256 of its JSON, fields in declaration order.
use vstd::prelude::*;

use crate::act::tag::{FileFacet, MemoryFacet, Permit, ToolTag};
use crate::json::{json_quoted, quote_json};
use crate::text::{decimal, push_decimal, push_str, string_of, utf8_bytes};
use crate::workplace::id::{hex, hex_of, sha256, sha256_digest};
use crate::workplace::resource::{uuid_string, uuid_text};

verus! {

/// Model access spec. Never carries the api key. Extra request fields
/// are kept as their compact JSON text.
#[derive(Debug)]
pub struct ModelSpec {
    pub base_url: String,
    pub model: String,
    pub extra_body: Option<String>,
}

/// A tool a card grants, under the tag it runs with.
#[derive(Debug, PartialEq, Eq)]
pub struct ToolGrant {
    pub name: String,
    pub tag: ToolTag,
}

impl Clone for ToolGrant {
    fn clone(&self) -> (r: Self)
        ensures
            r == *self,
    {
        ToolGrant { name: self.name.clone(), tag: self.tag.clone() }
    }
}

/// Composite shape. Only Leaf exists.
#[derive(Debug, Clone, Copy, PartialEq, Eq, Structural)]
pub enum Topology {
    Leaf,
}

/// Identity of an agent: id, model, prompt, grants, topology, kernel and
/// the card it supersedes.
#[derive(Debug)]
pub struct AgentCard {
    pub v: u32,
    pub id: u128,
    pub model: ModelSpec,
    pub prompt: String,
    pub tools: Vec<ToolGrant>,
    pub topology: Topology,
    pub kernel: String,
    pub supersedes: Option<String>,
}

pub open spec fn bool_json(b: bool) -> Seq<char> {
    if b { "true"@ } else { "false"@ }
}

pub open spec fn faced_json(op: Seq<char>, path: String, recursive: bool) -> Seq<char> {
    "{\"op\":\""@ + op + "\",\"path\":"@ + json_quoted(path@) + ",\"recursive\":"@ + bool_json(recursive) + "}"@
}

/// A file face as JSON: tagged by `op`.
pub open spec fn file_json(f: FileFacet) -> Seq<char> {
    match f {
        FileFacet::Nothing => "{\"op\":\"none\"}"@,
        FileFacet::Unbounded => "{\"op\":\"unbounded\"}"@,
        FileFacet::Read { path, recursive } => faced_json("r"@, path, recursive),
        FileFacet::Write { path, recursive } => faced_json("w"@, path, recursive),
        FileFacet::ReadWrite { path, recursive } => faced_json("rw"@, path, recursive),
    }
}

/// A memory face as JSON: tagged by `op`; an absent aspect is left out.
pub open spec fn memory_json(m: MemoryFacet) -> Seq<char> {
    match m {
        MemoryFacet::Ignore => "{\"op\":\"ignore\"}"@,
        MemoryFacet::Remember { aspect } => match aspect {
            Some(a) => "{\"op\":\"remember\",\"aspect\":"@ + json_quoted(a@) + "}"@,
            None => "{\"op\":\"remember\"}"@,
        },
        MemoryFacet::Forget { remember_id } => "{\"op\":\"forget\",\"rememberId\":"@ + json_quoted(remember_id@) + "}"@,
    }
}

pub open spec fn permit_json(p: Permit) -> Seq<char> {
    match p {
        Permit::Ask => "\"ask\""@,
        Permit::Forbidden => "\"forbidden\""@,
        Permit::Go => "\"go\""@,
    }
}

pub open spec fn tag_json(t: ToolTag) -> Seq<char> {
    "{\"file\":"@ + file_json(t.file) + ",\"permit\":"@ + permit_json(t.permit) + ",\"memory\":"@ + memory_json(t.memory) + "}"@
}

pub open spec fn grant_json(g: ToolGrant) -> Seq<char> {
    "{\"name\":"@ + json_quoted(g.name@) + ",\"tag\":"@ + tag_json(g.tag) + "}"@
}

/// The first `n` grants as JSON items, comma separated.
pub open spec fn grants_json(gs: Seq<ToolGrant>, n: int) -> Seq<char>
    decreases n,
{
    if n <= 0 {
        Seq::empty()
    } else if n == 1 {
        grant_json(gs[0])
    } else {
        grants_json(gs, n - 1) + ","@ + grant_json(gs[n - 1])
    }
}

pub open spec fn model_json(m: ModelSpec) -> Seq<char> {
    "{\"base_url\":"@ + json_quoted(m.base_url@) + ",\"model\":"@ + json_quoted(m.model@)
        + (match m.extra_body { Some(x) => ",\"extra_body\":"@ + x@, None => Seq::empty() }) + "}"@
}

/// The JSON a card is stored and hashed as: its fields in declaration
/// order, an absent `supersedes` left out.
pub open spec fn card_json(c: AgentCard) -> Seq<char> {
    "{\"v\":"@ + decimal(c.v as nat) + ",\"id\":"@ + json_quoted(uuid_text(c.id))
        + ",\"model\":"@ + model_json(c.model) + ",\"prompt\":"@ + json_quoted(c.prompt@)
        + ",\"tools\":["@ + grants_json(c.tools@, c.tools@.len() as int) + "]"@
        + ",\"topology\":{\"type\":\"leaf\"},\"kernel\":"@ + json_quoted(c.kernel@)
        + (match c.supersedes { Some(h) => ",\"supersedes\":"@ + json_quoted(h@), None => Seq::empty() }) + "}"@
}

fn push_quoted(out: &mut Vec<char>, s: &str)
    ensures
        final(out)@ == old(out)@ + json_quoted(s@),
{
    let q = quote_json(s);
    push_str(out, q.as_str());
}

fn push_faced(out: &mut Vec<char>, op: &str, path: &String, recursive: bool)
    ensures
        final(out)@ == old(out)@ + faced_json(op@, *path, recursive),
{
    push_str(out, "{\"op\":\"");
    push_str(out, op);
    push_str(out, "\",\"path\":");
    push_quoted(out, path.as_str());
    push_str(out, ",\"recursive\":");
    if recursive { push_str(out, "true") } else { push_str(out, "false") }
    push_str(out, "}");
}

fn push_file(out: &mut Vec<char>, f: &FileFacet)
    ensures
        final(out)@ == old(out)@ + file_json(*f),
{
    match f {
        FileFacet::Nothing => push_str(out, "{\"op\":\"none\"}"),
        FileFacet::Unbounded => push_str(out, "{\"op\":\"unbounded\"}"),
        FileFacet::Read { path, recursive } => push_faced(out, "r", path, *recursive),
        FileFacet::Write { path, recursive } => push_faced(out, "w", path, *recursive),
        FileFacet::ReadWrite { path, recursive } => push_faced(out, "rw", path, *recursive),
    }
}

fn push_permit(out: &mut Vec<char>, p: Permit)
    ensures
        final(out)@ == old(out)@ + permit_json(p),
{
    match p {
        Permit::Ask => push_str(out, "\"ask\""),
        Permit::Forbidden => push_str(out, "\"forbidden\""),
        Permit::Go => push_str(out, "\"go\""),
    }
}

fn push_memory(out: &mut Vec<char>, m: &MemoryFacet)
    ensures
        final(out)@ == old(out)@ + memory_json(*m),
{
    match m {
        MemoryFacet::Ignore => push_str(out, "{\"op\":\"ignore\"}"),
        MemoryFacet::Remember { aspect } => match aspect {
            Some(a) => {
                let ghost o = out@;
                push_str(out, "{\"op\":\"remember\",\"aspect\":");
                push_quoted(out, a.as_str());
                push_str(out, "}");
                assert(out@ =~= o + memory_json(*m));
            },
            None => push_str(out, "{\"op\":\"remember\"}"),
        },
        MemoryFacet::Forget { remember_id } => {
            let ghost o = out@;
            push_str(out, "{\"op\":\"forget\",\"rememberId\":");
            push_quoted(out, remember_id.as_str());
            push_str(out, "}");
            assert(out@ =~= o + memory_json(*m));
        },
    }
}

fn push_grant(out: &mut Vec<char>, g: &ToolGrant)
    ensures
        final(out)@ == old(out)@ + grant_json(*g),
{
    let ghost o = out@;
    push_str(out, "{\"name\":");
    push_quoted(out, g.name.as_str());
    push_str(out, ",\"tag\":");
    let ghost t0 = out@;
    push_str(out, "{\"file\":");
    push_file(out, &g.tag.file);
    push_str(out, ",\"permit\":");
    push_permit(out, g.tag.permit);
    push_str(out, ",\"memory\":");
    push_memory(out, &g.tag.memory);
    push_str(out, "}");
    assert(out@ =~= t0 + tag_json(g.tag));
    push_str(out, "}");
    assert(out@ =~= o + grant_json(*g));
}

fn push_model(out: &mut Vec<char>, m: &ModelSpec)
    ensures
        final(out)@ == old(out)@ + model_json(*m),
{
    let ghost o = out@;
    push_str(out, "{\"base_url\":");
    push_quoted(out, m.base_url.as_str());
    push_str(out, ",\"model\":");
    push_quoted(out, m.model.as_str());
    match &m.extra_body {
        Some(x) => {
            push_str(out, ",\"extra_body\":");
            push_str(out, x.as_str());
        },
        None => {},
    }
    push_str(out, "}");
    assert(out@ =~= o + model_json(*m));
}

impl AgentCard {
    /// The card's JSON text.
    #[verifier::rlimit(40)]
    pub fn to_json(&self) -> (r: String)
        ensures
            r@ == card_json(*self),
    {
        let mut out: Vec<char> = Vec::new();
        push_str(&mut out, "{\"v\":");
        push_decimal(self.v as u64, &mut out);
        push_str(&mut out, ",\"id\":");
        let id = uuid_string(self.id);
        push_quoted(&mut out, id.as_str());
        push_str(&mut out, ",\"model\":");
        push_model(&mut out, &self.model);
        push_str(&mut out, ",\"prompt\":");
        push_quoted(&mut out, self.prompt.as_str());
        push_str(&mut out, ",\"tools\":[");
        let ghost head = out@;
        let mut i: usize = 0;
        while i < self.tools.len()
            invariant
                i <= self.tools@.len(),
                out@ == head + grants_json(self.tools@, i as int),
            decreases self.tools.len() - i,
        {
            let ghost before = out@;
            if i > 0 {
                push_str(&mut out, ",");
            }
            push_grant(&mut out, &self.tools[i]);
            proof {
                if i == 0 {
                    assert(out@ =~= head + grants_json(self.tools@, 1));
                } else {
                    assert(out@ =~= head + grants_json(self.tools@, i + 1));
                }
            }
            i = i + 1;
        }
        let ghost tools_done = out@;
        push_str(&mut out, "]");
        push_str(&mut out, ",\"topology\":{\"type\":\"leaf\"},\"kernel\":");
        push_quoted(&mut out, self.kernel.as_str());
        match &self.supersedes {
            Some(h) => {
                push_str(&mut out, ",\"supersedes\":");
                push_quoted(&mut out, h.as_str());
            },
            None => {},
        }
        push_str(&mut out, "}");
        assert(out@ =~= card_json(*self));
        string_of(out.as_slice())
    }

    /// The card's hash: lowercase hex of the SHA-256 of its JSON.
    pub fn hash(&self) -> (r: String)
        ensures
            r@ == hex_of(sha256(utf8_bytes(card_json(*self)))),
            r@.len() == 64,
    {
        let text = self.to_json();
        let digest = sha256_digest(text.as_str().as_bytes());
        hex(&digest)
    }
}

} // verus!
