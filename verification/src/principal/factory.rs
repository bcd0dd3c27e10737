//! What a card builds: the granted tools, checked against the tools this
//! kernel can construct and the faces its runtime can wire.
use vstd::prelude::*;

use super::card::{AgentCard, ToolGrant};
use crate::act::tag::FileFacet;
use crate::text::str_eq;
use crate::workplace::resource::{uuid_string, uuid_text};

verus! {

#[derive(Debug, PartialEq, Eq)]
pub enum FactoryError {
    /// The card grants a tool this kernel cannot construct.
    UnknownTool(String),
    /// The grant names a file face the runtime cannot wire yet.
    UnsupportedFace(String),
}

/// The tools this kernel can construct.
pub open spec fn known_tool(name: Seq<char>) -> bool {
    name == "bash"@
}

/// A face that names a path.
pub open spec fn path_face(f: FileFacet) -> bool {
    f is Read || f is Write || f is ReadWrite
}

/// The first grant that fails, and how.
pub open spec fn grant_problem(grants: Seq<ToolGrant>) -> Option<(Seq<char>, bool)>
    decreases grants.len(),
{
    if grants.len() == 0 {
        None
    } else if !known_tool(grants[0].name@) {
        Some((grants[0].name@, true))
    } else if path_face(grants[0].tag.file) {
        Some((grants[0].name@, false))
    } else {
        grant_problem(grants.drop_first())
    }
}

/// Identity, prompt and grants of the runtime a card builds.
#[derive(Debug)]
pub struct RuntimePlan {
    pub card_hash: String,
    pub agent_id: String,
    pub prompt: String,
    pub grants: Vec<ToolGrant>,
}

/// Builds what a card grants: every grant must name a known tool and no
/// file face that names a path; the first that does not fails the build.
pub fn build(card: &AgentCard, card_hash: &str) -> (r: Result<RuntimePlan, FactoryError>)
    ensures
        match grant_problem(card.tools@) {
            Some((n, true)) => (r matches Err(FactoryError::UnknownTool(m)) && m@ == n),
            Some((n, false)) => (r matches Err(FactoryError::UnsupportedFace(m)) && m@ == n),
            None => (r matches Ok(p) && p.card_hash@ == card_hash@ && p.agent_id@ == uuid_text(card.id)
                && p.prompt == card.prompt && p.grants@ == card.tools@),
        },
{
    let mut grants: Vec<ToolGrant> = Vec::new();
    let mut i: usize = 0;
    assert(card.tools@.skip(0) =~= card.tools@);
    while i < card.tools.len()
        invariant
            i <= card.tools@.len(),
            grant_problem(card.tools@) == grant_problem(card.tools@.skip(i as int)),
            grants@ == card.tools@.subrange(0, i as int),
        decreases card.tools.len() - i,
    {
        let g = &card.tools[i];
        assert(card.tools@.skip(i as int)[0] == card.tools@[i as int]);
        if !str_eq(g.name.as_str(), "bash") {
            return Err(FactoryError::UnknownTool(g.name.clone()));
        }
        let faced = match &g.tag.file {
            FileFacet::Read { .. } | FileFacet::Write { .. } | FileFacet::ReadWrite { .. } => true,
            _ => false,
        };
        if faced {
            return Err(FactoryError::UnsupportedFace(g.name.clone()));
        }
        grants.push(g.clone());
        assert(grants@ =~= card.tools@.subrange(0, i + 1));
        assert(card.tools@.skip(i as int).drop_first() =~= card.tools@.skip(i + 1));
        i = i + 1;
    }
    assert(card.tools@.subrange(0, card.tools@.len() as int) =~= card.tools@);
    Ok(RuntimePlan { card_hash: card_hash.to_owned(), agent_id: uuid_string(card.id), prompt: card.prompt.clone(), grants })
}

} // verus!
