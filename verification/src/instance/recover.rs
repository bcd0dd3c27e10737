//! Rebuilding the prompt, config and context projections from the tape.
//! A missing source event is an error: the prompt is not invented.
use vstd::prelude::*;

use crate::instance::context::tagged;
use crate::memstream::event::Memevent;
use crate::text::str_eq;

verus! {

#[derive(Debug, Clone, Copy, PartialEq, Eq)]
pub enum RecoverError {
    /// The tape has no event for this projection.
    Missing(&'static str),
}

/// The content of the last event tagged `name`, if any.
pub open spec fn last_tagged(events: Seq<Memevent>, name: Seq<char>) -> Option<Seq<char>>
    decreases events.len(),
{
    if events.len() == 0 {
        None
    } else if tagged(events.last().tags@, name) {
        Some(events.last().content@)
    } else {
        last_tagged(events.drop_last(), name)
    }
}

/// The text a missing projection file is rebuilt with: the content of the
/// last event tagged with its name; an empty prompt counts as missing.
pub fn projection_content(events: &[Memevent], name: &'static str) -> (r: Result<String, RecoverError>)
    ensures
        match last_tagged(events@, name@) {
            None => r == Err::<String, RecoverError>(RecoverError::Missing(name)),
            Some(c) => if name@ == "prompt"@ && c.len() == 0 {
                r == Err::<String, RecoverError>(RecoverError::Missing(name))
            } else {
                r matches Ok(s) && s@ == c
            },
        },
{
    let mut j = events.len();
    assert(events@.subrange(0, j as int) =~= events@);
    while j > 0
        invariant
            j <= events@.len(),
            last_tagged(events@, name@) == last_tagged(events@.subrange(0, j as int), name@),
        decreases j,
    {
        let ghost pre = events@.subrange(0, j as int);
        assert(pre.last() == events@[j - 1]);
        assert(pre.drop_last() =~= events@.subrange(0, j - 1));
        if crate::instance::context::has_tag(&events[j - 1].tags, name) {
            let content = events[j - 1].content.clone();
            if str_eq(name, "prompt") && content.as_str().is_empty() {
                return Err(RecoverError::Missing(name));
            }
            return Ok(content);
        }
        j = j - 1;
    }
    Err(RecoverError::Missing(name))
}

} // verus!

verus! {

/// What happens to one projection: kept when its file is there
/// (`Some(None)`), rebuilt with a text (`Some(Some(text))`), or missing
/// from the tape (`None`).
pub open spec fn outcome(events: Seq<Memevent>, name: Seq<char>, present: bool) -> Option<Option<Seq<char>>> {
    if present {
        Some(None)
    } else {
        match last_tagged(events, name) {
            None => None,
            Some(c) => if name == "prompt"@ && c.len() == 0 { None } else { Some(Some(c)) },
        }
    }
}

pub open spec fn written(o: Option<Option<Seq<char>>>, name: Seq<char>) -> Seq<(Seq<char>, Seq<char>)> {
    match o {
        Some(Some(c)) => seq![(name, c)],
        _ => Seq::empty(),
    }
}

pub open spec fn writes_view(v: Seq<(&'static str, String)>) -> Seq<(Seq<char>, Seq<char>)> {
    v.map_values(|w: (&'static str, String)| (w.0@, w.1@))
}

/// Rebuilds the absent projections in order (prompt, config, context):
/// the files to write, in order, and the error that stopped the rebuild,
/// if one did (files before it are still written).
pub fn recover(events: &[Memevent], has_prompt: bool, has_config: bool, has_context: bool)
    -> (r: (Vec<(&'static str, String)>, Option<RecoverError>))
    ensures
        ({
            let p = outcome(events@, "prompt"@, has_prompt);
            let c = outcome(events@, "config"@, has_config);
            let x = outcome(events@, "context"@, has_context);
            &&& writes_view(r.0@) == if p is None {
                Seq::empty()
            } else if c is None {
                written(p, "prompt"@)
            } else if x is None {
                written(p, "prompt"@) + written(c, "config"@)
            } else {
                written(p, "prompt"@) + written(c, "config"@) + written(x, "context"@)
            }
            &&& match r.1 {
                None => p is Some && c is Some && x is Some,
                Some(RecoverError::Missing(n)) => if p is None { n@ == "prompt"@ } else if c is None { n@ == "config"@ } else { x is None && n@ == "context"@ },
            }
        }),
{
    let mut writes: Vec<(&'static str, String)> = Vec::new();
    if !has_prompt {
        match projection_content(events, "prompt") {
            Ok(s) => writes.push(("prompt", s)),
            Err(e) => {
                assert(writes_view(writes@) =~= Seq::empty());
                return (writes, Some(e));
            },
        }
    }
    assert(writes_view(writes@) =~= written(outcome(events@, "prompt"@, has_prompt), "prompt"@));
    let ghost w1 = writes@;
    if !has_config {
        match projection_content(events, "config") {
            Ok(s) => writes.push(("config", s)),
            Err(e) => {
                proof { reveal_strlit("prompt"); reveal_strlit("config"); assert("config"@[0] != "prompt"@[0]); }
                return (writes, Some(e));
            },
        }
    }
    proof { reveal_strlit("prompt"); reveal_strlit("config"); reveal_strlit("context"); assert("config"@[0] != "prompt"@[0]); assert("context"@[0] != "prompt"@[0]); }
    assert(writes_view(writes@) =~= writes_view(w1) + written(outcome(events@, "config"@, has_config), "config"@));
    let ghost w2 = writes@;
    if !has_context {
        match projection_content(events, "context") {
            Ok(s) => writes.push(("context", s)),
            Err(e) => {
                return (writes, Some(e));
            },
        }
    }
    assert(writes_view(writes@) =~= writes_view(w2) + written(outcome(events@, "context"@, has_context), "context"@));
    (writes, None)
}

} // verus!
