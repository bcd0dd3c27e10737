//! Principals: agent cards, their registry lineage, the tool grants a
//! card builds, and the stable id of an agent's stdin counterpart.
use vstd::prelude::*;

pub mod card;
pub mod factory;
pub mod registry;

pub use card::{AgentCard, ModelSpec, ToolGrant, Topology};

use crate::lines::{trim, trim_chars};
use crate::text::{chars_of, push_str};
use crate::workplace::resource::{parse_uuid, push_uuid_text, uuid_parsed, uuid_text};

verus! {

/// The RFC 4122 DNS namespace.
pub const DNS_NAMESPACE: u128 = 0x6ba7b8109dad11d180b400c04fd430c8u128;

/// The name-based (SHA-1) uuid of `name` in `namespace`.
pub uninterp spec fn uuid_v5(namespace: u128, name: Seq<u8>) -> u128;

/// `uuid::Uuid::new_v5`: the version 5 uuid of a name in a namespace, a
/// function of the two alone.
#[verifier::external_body]
fn new_v5(namespace: u128, name: &[u8]) -> (r: u128)
    ensures
        r == uuid_v5(namespace, name@),
{
    uuid::Uuid::new_v5(&uuid::Uuid::from_u128(namespace), name).as_u128()
}

/// The namespace of stdin counterparts.
pub open spec fn stdin_namespace_of() -> u128 {
    uuid_v5(DNS_NAMESPACE, crate::text::utf8_bytes("an-agent.stdin"@))
}

/// The id of the human at an agent's stdin: a name-based uuid of
/// `<agent id>/stdin`, stable across runs and distinct per agent.
pub fn stdin_counterpart_id(agent_id: u128) -> (r: u128)
    ensures
        r == uuid_v5(stdin_namespace_of(), crate::text::utf8_bytes(uuid_text(agent_id) + "/stdin"@)),
{
    let ns = new_v5(DNS_NAMESPACE, "an-agent.stdin".as_bytes());
    let mut name: Vec<char> = Vec::new();
    push_uuid_text(agent_id, &mut name);
    push_str(&mut name, "/stdin");
    let text = crate::text::string_of(name.as_slice());
    new_v5(ns, text.as_str().as_bytes())
}

#[verifier::external_type_specification]
#[verifier::external_body]
pub struct ExIoError(std::io::Error);

/// Keeping an agent's id failed on the file system.
#[derive(Debug)]
pub enum PrincipalError {
    Io(std::io::Error),
}

/// The id kept in an agent-id file: its text, trimmed, as a uuid; none
/// when it is not one (a new id is made then).
pub fn stored_agent_id(raw: &str) -> (r: Option<u128>)
    ensures
        r == uuid_parsed(trim(raw@)),
{
    let cs = chars_of(raw);
    let t = trim_chars(cs.as_slice());
    parse_uuid(t.as_str())
}

} // verus!
