//! A live agent: the identity its card builds, bound to one private
//! session of that same agent.
use vstd::prelude::*;

use crate::principal::card::{card_json, AgentCard, ToolGrant};
use crate::principal::factory::{build, grant_problem, FactoryError, RuntimePlan};
use crate::text::utf8_bytes;
use crate::workplace::id::{hex_of, sha256};
use crate::workplace::resource::{parse_uuid, uuid_parsed, uuid_text};

verus! {

#[derive(Debug, PartialEq, Eq)]
pub enum AgentError {
    /// The built agent id is not a uuid.
    AgentId(String),
    /// The session belongs to another agent.
    SessionMismatch { expected: u128, found: u128 },
}

/// Why a card does not become a live agent.
#[derive(Debug, PartialEq, Eq)]
pub enum InstanceError {
    Factory(FactoryError),
    Agent(AgentError),
}

/// The scheduled unit of the loop: who it is, what its card hashed to,
/// its prompt and grants, and the session it runs in.
pub struct Agent {
    pub id: u128,
    pub id_str: String,
    pub card_hash: String,
    pub prompt: String,
    pub grants: Vec<ToolGrant>,
    pub session: u128,
}

impl Agent {
    /// Binds what a card built to session `session` of agent
    /// `session_agent`: the built id must be a uuid, and the session that
    /// agent's own.
    pub fn from_runtime(rt: RuntimePlan, session: u128, session_agent: u128) -> (r: Result<Agent, AgentError>)
        ensures
            match uuid_parsed(rt.agent_id@) {
                None => r matches Err(AgentError::AgentId(s)) && s@ == rt.agent_id@,
                Some(id) => if id != session_agent {
                    r == Err::<Agent, AgentError>(AgentError::SessionMismatch { expected: id, found: session_agent })
                } else {
                    r matches Ok(a) && a.id == id && a.id_str@ == rt.agent_id@ && a.card_hash@ == rt.card_hash@
                        && a.prompt@ == rt.prompt@ && a.grants@ == rt.grants@ && a.session == session
                },
            },
            forall|u: u128| #[trigger] uuid_text(u) == rt.agent_id@ ==> uuid_parsed(rt.agent_id@) == Some(u),
    {
        let id = match parse_uuid(rt.agent_id.as_str()) {
            Some(id) => id,
            None => {
                return Err(AgentError::AgentId(rt.agent_id));
            },
        };
        if id != session_agent {
            return Err(AgentError::SessionMismatch { expected: id, found: session_agent });
        }
        Ok(Agent {
            id,
            id_str: rt.agent_id,
            card_hash: rt.card_hash,
            prompt: rt.prompt,
            grants: rt.grants,
            session,
        })
    }

    /// A card made a live agent in session `session`, a session of the
    /// card's own agent: the card is hashed, built, and bound. Only the
    /// build can refuse.
    pub fn for_card(card: &AgentCard, session: u128) -> (r: Result<Agent, InstanceError>)
        ensures
            match grant_problem(card.tools@) {
                Some((n, true)) => r matches Err(InstanceError::Factory(FactoryError::UnknownTool(m))) && m@ == n,
                Some((n, false)) => r matches Err(InstanceError::Factory(FactoryError::UnsupportedFace(m))) && m@ == n,
                None => r matches Ok(a) && a.id == card.id && a.session == session
                    && a.card_hash@ == hex_of(sha256(utf8_bytes(card_json(*card))))
                    && a.prompt@ == card.prompt@ && a.grants@ == card.tools@,
            },
    {
        let hash = card.hash();
        match build(card, hash.as_str()) {
            Err(e) => Err(InstanceError::Factory(e)),
            Ok(rt) => {
                let ghost name = rt.agent_id@;
                assert(uuid_text(card.id) == name);
                match Agent::from_runtime(rt, session, card.id) {
                    Ok(a) => Ok(a),
                    Err(e) => Err(InstanceError::Agent(e)),
                }
            },
        }
    }
}

} // verus!
