//! The registry's rules: which ids and hashes name a card, and the
//! lineage of supersedes edges from HEAD back to the first card.
use vstd::prelude::*;

use crate::text::{chars_of, clone_opt, str_eq, utf8_bytes};
use crate::workplace::resource::{parse_uuid, uuid_parsed};

verus! {

#[derive(Debug, PartialEq, Eq)]
pub enum RegistryError {
    NotFound(String, String),
    BrokenLineage(String),
    InvalidId(String),
    InvalidHash(String),
}

/// An agent id must be a uuid.
pub fn check_agent_id(id: &str) -> (r: Result<(), RegistryError>)
    ensures
        uuid_parsed(id@) is Some ==> r is Ok,
        uuid_parsed(id@) is None ==> (r matches Err(RegistryError::InvalidId(s)) && s@ == id@),
{
    match parse_uuid(id) {
        Some(_) => Ok(()),
        None => Err(RegistryError::InvalidId(id.to_owned())),
    }
}

/// A card hash: 64 lowercase hex digits.
pub open spec fn hash_ok(h: Seq<char>) -> bool {
    &&& (utf8_bytes(h).len() as usize) == 64
    &&& forall|i: int| 0 <= i < h.len() ==> ('0' <= #[trigger] h[i] <= '9') || ('a' <= h[i] <= 'f')
}

pub fn check_hash(hash: &str) -> (r: Result<(), RegistryError>)
    ensures
        hash_ok(hash@) ==> r is Ok,
        !hash_ok(hash@) ==> (r matches Err(RegistryError::InvalidHash(s)) && s@ == hash@),
{
    let cs = chars_of(hash);
    let mut ok = hash.len() == 64;
    let mut i: usize = 0;
    while i < cs.len()
        invariant
            i <= cs@.len(),
            cs@ == hash@,
            ok == ((utf8_bytes(hash@).len() as usize) == 64
                && forall|k: int| 0 <= k < i ==> ('0' <= #[trigger] cs@[k] <= '9') || ('a' <= cs@[k] <= 'f')),
        decreases cs.len() - i,
    {
        let c = cs[i];
        if !(('0' <= c && c <= '9') || ('a' <= c && c <= 'f')) {
            ok = false;
        }
        i = i + 1;
    }
    if !ok {
        return Err(RegistryError::InvalidHash(hash.to_owned()));
    }
    Ok(())
}

pub open spec fn opt_view(o: Option<String>) -> Option<Seq<char>> {
    match o {
        Some(s) => Some(s@),
        None => None,
    }
}

/// A stored card: its hash and the hash it supersedes.
#[derive(Debug)]
pub struct CardLink {
    pub hash: String,
    pub supersedes: Option<String>,
}

/// The link stored under `hash`, if any.
pub open spec fn link_of(cards: Seq<CardLink>, hash: Seq<char>) -> Option<CardLink>
    decreases cards.len(),
{
    if cards.len() == 0 {
        None
    } else if cards[0].hash@ == hash {
        Some(cards[0])
    } else {
        link_of(cards.drop_first(), hash)
    }
}

/// The lineage from `cursor`, following at most `k` supersedes edges:
/// the hashes in order, or the first hash with no stored card.
pub open spec fn walk(cards: Seq<CardLink>, cursor: Option<Seq<char>>, k: nat) -> Result<Seq<Seq<char>>, Seq<char>>
    decreases k,
{
    match cursor {
        None => Ok(Seq::empty()),
        Some(h) => if k == 0 {
            Ok(Seq::empty())
        } else {
            match link_of(cards, h) {
                None => Err(h),
                Some(c) => match walk(cards, opt_view(c.supersedes), (k - 1) as nat) {
                    Ok(rest) => Ok(seq![h] + rest),
                    Err(e) => Err(e),
                },
            }
        },
    }
}

/// The walk from `cursor` ends (reaches a card that supersedes nothing,
/// or a missing one) within `k` edges.
pub open spec fn ends_within(cards: Seq<CardLink>, cursor: Option<Seq<char>>, k: nat) -> bool
    decreases k,
{
    match cursor {
        None => true,
        Some(h) => match link_of(cards, h) {
            None => true,
            Some(c) => k > 0 && ends_within(cards, opt_view(c.supersedes), (k - 1) as nat),
        },
    }
}

fn find_link(cards: &[CardLink], hash: &str) -> (r: Option<usize>)
    ensures
        match link_of(cards@, hash@) {
            Some(c) => r matches Some(i) && i < cards@.len() && cards@[i as int] == c,
            None => r is None,
        },
{
    let mut i: usize = 0;
    assert(cards@.skip(0) =~= cards@);
    while i < cards.len()
        invariant
            i <= cards@.len(),
            link_of(cards@, hash@) == link_of(cards@.skip(i as int), hash@),
        decreases cards.len() - i,
    {
        assert(cards@.skip(i as int)[0] == cards@[i as int]);
        if str_eq(cards[i].hash.as_str(), hash) {
            return Some(i);
        }
        assert(cards@.skip(i as int).drop_first() =~= cards@.skip(i + 1));
        i = i + 1;
    }
    None
}

/// A lineage that ends is the supersedes chain, head first: empty exactly
/// when there is no head, starting at the head, and each card in it
/// supersedes the next, the last superseding nothing.
pub proof fn lemma_lineage_chain(cards: Seq<CardLink>, cursor: Option<Seq<char>>, k: nat)
    requires
        ends_within(cards, cursor, k),
        walk(cards, cursor, k + 1) is Ok,
    ensures
        ({
            let hs = walk(cards, cursor, k + 1)->Ok_0;
            &&& (hs.len() == 0 <==> cursor is None)
            &&& cursor matches Some(h) ==> hs[0] == h
            &&& forall|i: int| 0 <= i < hs.len() ==> (link_of(cards, #[trigger] hs[i]) matches Some(c)
                && opt_view(c.supersedes) == if i + 1 < hs.len() { Some(hs[i + 1]) } else { None::<Seq<char>> })
        }),
    decreases k,
{
    match cursor {
        None => {},
        Some(h) => {
            let c = link_of(cards, h)->0;
            let sup = opt_view(c.supersedes);
            let hs = walk(cards, cursor, k + 1)->Ok_0;
            if k == 0 {
                assert(sup is None);
                assert(walk(cards, sup, 0) == Ok::<Seq<Seq<char>>, Seq<char>>(Seq::empty()));
                assert(hs =~= seq![h]);
            } else {
                let k1 = (k - 1) as nat;
                assert(ends_within(cards, sup, k1));
                lemma_lineage_chain(cards, sup, k1);
                let rest = walk(cards, sup, k)->Ok_0;
                assert(hs == seq![h] + rest);
                assert forall|i: int| 0 <= i < hs.len() implies (link_of(cards, #[trigger] hs[i]) matches Some(c2)
                    && opt_view(c2.supersedes) == if i + 1 < hs.len() { Some(hs[i + 1]) } else { None::<Seq<char>> }) by {
                    if i > 0 {
                        assert(hs[i] == rest[i - 1]);
                        if i + 1 < hs.len() {
                            assert(hs[i + 1] == rest[i]);
                        }
                    } else if rest.len() > 0 {
                        assert(hs[1] == rest[0]);
                    }
                }
            }
        },
    }
}

/// HEAD-first lineage, walking supersedes edges back to the first card;
/// a hash with no stored card breaks the lineage.
pub fn lineage(head: Option<String>, cards: &[CardLink]) -> (r: Result<Vec<String>, RegistryError>)
    requires
        ends_within(cards@, opt_view(head), cards@.len() as nat),
    ensures
        match walk(cards@, opt_view(head), cards@.len() as nat + 1) {
            Ok(hs) => (r matches Ok(v) && v@.map_values(|s: String| s@) == hs),
            Err(h) => (r matches Err(RegistryError::BrokenLineage(m)) && m@ == h),
        },
{
    let ghost n = cards@.len() as nat + 1;
    let ghost head_v = opt_view(head);
    let mut chain: Vec<String> = Vec::new();
    let mut cursor = head;
    let ghost mut left: nat = n;
    proof { lemma_ends_within_mono(cards@, head_v, cards@.len() as nat, (n - 1) as nat); }
    while cursor.is_some()
        invariant
            n == cards@.len() as nat + 1,
            head_v == opt_view(head),
            left <= n,
            left >= 1,
            ends_within(cards@, opt_view(cursor), (left - 1) as nat),
            ({
                let here = walk(cards@, opt_view(cursor), left);
                let whole = walk(cards@, head_v, n);
                match here {
                    Ok(rest) => whole == Ok::<Seq<Seq<char>>, Seq<char>>(chain@.map_values(|s: String| s@) + rest),
                    Err(e) => whole == Err::<Seq<Seq<char>>, Seq<char>>(e),
                }
            }),
        decreases left,
    {
        let hash = match &cursor { Some(h) => h.clone(), None => String::new() };
        assert(opt_view(cursor) == Some(hash@));
        match find_link(cards, hash.as_str()) {
            None => {
                assert(walk(cards@, Some(hash@), left) == Err::<Seq<Seq<char>>, Seq<char>>(hash@));
                return Err(RegistryError::BrokenLineage(hash));
            },
            Some(i) => {
                let next = match &cards[i].supersedes { Some(s) => Some(s.clone()), None => None };
                assert(opt_view(next) == opt_view(cards@[i as int].supersedes));
                let ghost before = chain@;
                let ghost h = hash@;
                chain.push(hash);
                proof {
                    assert(chain@.map_values(|s: String| s@) =~= before.map_values(|s: String| s@).push(h));
                    assert(left >= 2);
                    let nv = opt_view(next);
                    assert(walk(cards@, Some(h), left) == match walk(cards@, nv, (left - 1) as nat) {
                        Ok(rest) => Ok(seq![h] + rest),
                        Err(e) => Err::<Seq<Seq<char>>, Seq<char>>(e),
                    });
                    match walk(cards@, nv, (left - 1) as nat) {
                        Ok(rest) => {
                            assert(before.map_values(|s: String| s@) + (seq![h] + rest) =~= chain@.map_values(|s: String| s@) + rest);
                        },
                        Err(e) => {},
                    }
                    left = (left - 1) as nat;
                }
                cursor = next;
            },
        }
    }
    proof {
        assert(chain@.map_values(|s: String| s@) + Seq::<Seq<char>>::empty() =~= chain@.map_values(|s: String| s@));
    }
    Ok(chain)
}

proof fn lemma_ends_within_mono(cards: Seq<CardLink>, cursor: Option<Seq<char>>, k: nat, m: nat)
    requires
        ends_within(cards, cursor, k),
        k <= m,
    ensures
        ends_within(cards, cursor, m),
    decreases k,
{
    match cursor {
        None => {},
        Some(h) => match link_of(cards, h) {
            None => {},
            Some(c) => {
                lemma_ends_within_mono(cards, opt_view(c.supersedes), (k - 1) as nat, (m - 1) as nat);
            },
        },
    }
}

/// Whether the walk from `head` ends within as many edges as there are
/// stored cards (it does unless supersedes edges close a cycle).
pub fn lineage_ends(head: &Option<String>, cards: &[CardLink]) -> (r: bool)
    ensures
        r == ends_within(cards@, opt_view(*head), cards@.len() as nat),
{
    let mut cursor: Option<String> = clone_opt(head);
    let mut k: usize = cards.len();
    loop
        invariant
            k <= cards@.len(),
            ends_within(cards@, opt_view(*head), cards@.len() as nat) == ends_within(cards@, opt_view(cursor), k as nat),
        decreases k,
    {
        let h = match &cursor {
            None => {
                return true;
            },
            Some(h) => h.clone(),
        };
        match find_link(cards, h.as_str()) {
            None => {
                return true;
            },
            Some(i) => {
                if k == 0 {
                    return false;
                }
                cursor = clone_opt(&cards[i].supersedes);
                k = k - 1;
            },
        }
    }
}

} // verus!
