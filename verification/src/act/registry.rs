//! The live set of tools of one scope, by name. A name is registered at
//! most once: a second registration under it fails instead of replacing the
//! first, so the tape never cites a tool other than the one admitted.
use vstd::prelude::*;

use crate::order::{chars_lt, lemma_lt_irreflexive, lemma_lt_total, lemma_lt_transitive, str_lt};
use crate::text::str_eq;

verus! {

/// Trust tier of a registered tool, most trusted first.
#[derive(Debug, Clone, Copy, PartialEq, Eq, Structural, PartialOrd, Ord, Hash)]
pub enum Tier {
    Builtin,
    Script,
    Wasm,
    External,
}

#[derive(Debug, Clone, PartialEq, Eq)]
pub enum RegistryError {
    /// The name is taken.
    Duplicate(String),
}

struct Entry<T> {
    name: String,
    tier: Tier,
    tool: T,
}

/// Tools by name, in name order.
pub struct ToolRegistry<T> {
    entries: Vec<Entry<T>>,
}

/// Names in strictly increasing order, so none occurs twice.
pub open spec fn name_sorted<T>(s: Seq<(Seq<char>, Tier, T)>) -> bool {
    forall|i: int, j: int| 0 <= i < j < s.len() ==> chars_lt(#[trigger] s[i].0, #[trigger] s[j].0)
}

/// Whether some entry carries `name`.
pub open spec fn named<T>(s: Seq<(Seq<char>, Tier, T)>, name: Seq<char>) -> bool {
    exists|i: int| 0 <= i < s.len() && #[trigger] s[i].0 == name
}

/// An index whose entry carries `name`, where there is one.
pub open spec fn slot_of<T>(s: Seq<(Seq<char>, Tier, T)>, name: Seq<char>) -> int {
    choose|i: int| 0 <= i < s.len() && #[trigger] s[i].0 == name
}

/// The tier and tool registered under `name`.
pub open spec fn lookup<T>(s: Seq<(Seq<char>, Tier, T)>, name: Seq<char>) -> Option<(Tier, T)> {
    if named(s, name) {
        let i = slot_of(s, name);
        Some((s[i].1, s[i].2))
    } else {
        None
    }
}

/// In a name-sorted sequence the entry at `i` is the one its name looks up.
pub proof fn lemma_lookup_at<T>(s: Seq<(Seq<char>, Tier, T)>, i: int)
    requires
        name_sorted(s),
        0 <= i < s.len(),
    ensures
        lookup(s, s[i].0) == Some((s[i].1, s[i].2)),
{
    let n = s[i].0;
    assert(named(s, n));
    let j = slot_of(s, n);
    if j != i {
        lemma_lt_irreflexive(n);
        if j < i {
            assert(chars_lt(s[j].0, s[i].0));
        } else {
            assert(chars_lt(s[i].0, s[j].0));
        }
    }
}

impl<T> View for ToolRegistry<T> {
    type V = Seq<(Seq<char>, Tier, T)>;

    closed spec fn view(&self) -> Seq<(Seq<char>, Tier, T)> {
        self.entries@.map_values(|e: Entry<T>| (e.name@, e.tier, e.tool))
    }
}

impl<T> ToolRegistry<T> {
    /// The registry's invariant: entries in strictly increasing name order.
    pub open spec fn wf(&self) -> bool {
        name_sorted(self@)
    }

    pub fn new() -> (r: Self)
        ensures
            r.wf(),
            r@ == Seq::<(Seq<char>, Tier, T)>::empty(),
    {
        let r = ToolRegistry { entries: Vec::new() };
        assert(r@ =~= Seq::<(Seq<char>, Tier, T)>::empty());
        r
    }

    /// Registers `tool` under `name` with `tier`. A taken name fails with
    /// `Duplicate` and leaves the registry as it was.
    pub fn register(&mut self, name: String, tier: Tier, tool: T) -> (r: Result<(), RegistryError>)
        requires
            old(self).wf(),
        ensures
            final(self).wf(),
            named(old(self)@, name@) ==> (r matches Err(RegistryError::Duplicate(n)) && n@ == name@),
            named(old(self)@, name@) ==> final(self)@ == old(self)@,
            !named(old(self)@, name@) ==> r is Ok,
            r is Ok ==> final(self)@.len() == old(self)@.len() + 1,
            r is Ok ==> lookup(final(self)@, name@) == Some((tier, tool)),
            r is Ok ==> forall|n: Seq<char>| n != name@ ==> #[trigger] lookup(final(self)@, n) == lookup(old(self)@, n),
    {
        let ghost old_v = self@;
        let mut p: usize = 0;
        while p < self.entries.len() && str_lt(self.entries[p].name.as_str(), name.as_str())
            invariant
                p <= self.entries@.len(),
                self@ == old_v,
                old_v.len() == self.entries@.len(),
                forall|k: int| 0 <= k < p ==> chars_lt(#[trigger] old_v[k].0, name@),
            decreases self.entries.len() - p,
        {
            assert(old_v[p as int].0 == self.entries@[p as int].name@);
            p = p + 1;
        }
        if p < self.entries.len() && str_eq(self.entries[p].name.as_str(), name.as_str()) {
            assert(old_v[p as int].0 == name@);
            return Err(RegistryError::Duplicate(name));
        }
        proof {
            if p < old_v.len() {
                assert(old_v[p as int].0 == self.entries@[p as int].name@);
                lemma_lt_total(name@, old_v[p as int].0);
            }
            assert forall|k: int| p <= k < old_v.len() implies chars_lt(name@, #[trigger] old_v[k].0) by {
                if k > p {
                    lemma_lt_transitive(name@, old_v[p as int].0, old_v[k].0);
                }
            }
            assert(!named(old_v, name@)) by {
                if named(old_v, name@) {
                    let k = choose|k: int| 0 <= k < old_v.len() && #[trigger] old_v[k].0 == name@;
                    lemma_lt_irreflexive(name@);
                }
            }
        }
        let ghost nm = name@;
        self.entries.insert(p, Entry { name, tier, tool });
        proof {
            let v = self@;
            assert(v.len() == old_v.len() + 1);
            assert forall|k: int| 0 <= k < v.len() implies #[trigger] v[k] == (if k < p { old_v[k] } else if k == p { (nm, tier, tool) } else { old_v[k - 1] }) by {
                assert(v[k] == (self.entries@[k].name@, self.entries@[k].tier, self.entries@[k].tool));
            }
            assert forall|i: int, j: int| 0 <= i < j < v.len() implies chars_lt(#[trigger] v[i].0, #[trigger] v[j].0) by {
                if j < p {
                    assert(v[i] == old_v[i] && v[j] == old_v[j]);
                } else if j == p {
                    assert(v[i] == old_v[i]);
                } else if i < p {
                    assert(v[i] == old_v[i] && v[j] == old_v[j - 1]);
                    assert(chars_lt(old_v[i].0, nm));
                    assert(chars_lt(nm, old_v[j - 1].0));
                    lemma_lt_transitive(old_v[i].0, nm, old_v[j - 1].0);
                } else if i == p {
                    assert(v[j] == old_v[j - 1]);
                } else {
                    assert(v[i] == old_v[i - 1] && v[j] == old_v[j - 1]);
                }
            }
            assert(v[p as int] == (nm, tier, tool));
            lemma_lookup_at(v, p as int);
            assert forall|n: Seq<char>| n != nm implies #[trigger] lookup(v, n) == lookup(old_v, n) by {
                if named(old_v, n) {
                    let k = choose|k: int| 0 <= k < old_v.len() && #[trigger] old_v[k].0 == n;
                    lemma_lookup_at(old_v, k);
                    let k2 = if k < p { k } else { k + 1 };
                    assert(v[k2] == old_v[k]);
                    lemma_lookup_at(v, k2);
                } else if named(v, n) {
                    let k = choose|k: int| 0 <= k < v.len() && #[trigger] v[k].0 == n;
                    if k < p {
                        assert(old_v[k].0 == n);
                    } else if k > p {
                        assert(old_v[k - 1].0 == n);
                    }
                }
            }
        }
        Ok(())
    }

    /// Where `name` stands, if it is registered.
    fn position(&self, name: &str) -> (r: Option<usize>)
        requires
            self.wf(),
        ensures
            match r {
                Some(i) => i < self@.len() && self@[i as int].0 == name@,
                None => !named(self@, name@),
            },
    {
        let mut i: usize = 0;
        while i < self.entries.len()
            invariant
                i <= self.entries@.len(),
                self@.len() == self.entries@.len(),
                forall|k: int| 0 <= k < i ==> (#[trigger] self@[k]).0 != name@,
            decreases self.entries.len() - i,
        {
            assert(self@[i as int].0 == self.entries@[i as int].name@);
            if str_eq(self.entries[i].name.as_str(), name) {
                return Some(i);
            }
            i = i + 1;
        }
        None
    }

    /// The tool registered under `name`.
    pub fn get(&self, name: &str) -> (r: Option<&T>)
        requires
            self.wf(),
        ensures
            match lookup(self@, name@) {
                Some((_, t)) => r == Some(&t),
                None => r is None,
            },
    {
        match self.position(name) {
            Some(i) => {
                proof { lemma_lookup_at(self@, i as int); }
                assert(self@[i as int].2 == self.entries@[i as int].tool);
                Some(&self.entries[i].tool)
            },
            None => None,
        }
    }

    /// The tier `name` was registered with.
    pub fn tier_of(&self, name: &str) -> (r: Option<Tier>)
        requires
            self.wf(),
        ensures
            match lookup(self@, name@) {
                Some((t, _)) => r == Some(t),
                None => r is None,
            },
    {
        match self.position(name) {
            Some(i) => {
                proof { lemma_lookup_at(self@, i as int); }
                assert(self@[i as int].1 == self.entries@[i as int].tier);
                Some(self.entries[i].tier)
            },
            None => None,
        }
    }

    /// The registered names, in sorted order.
    pub fn names(&self) -> (r: Vec<String>)
        ensures
            r@.len() == self@.len(),
            forall|k: int| 0 <= k < r@.len() ==> #[trigger] r@[k]@ == self@[k].0,
    {
        let mut out: Vec<String> = Vec::new();
        let mut i: usize = 0;
        while i < self.entries.len()
            invariant
                i <= self.entries@.len(),
                self@.len() == self.entries@.len(),
                out@.len() == i,
                forall|k: int| 0 <= k < i ==> #[trigger] out@[k]@ == self@[k].0,
            decreases self.entries.len() - i,
        {
            assert(self@[i as int].0 == self.entries@[i as int].name@);
            out.push(self.entries[i].name.clone());
            i = i + 1;
        }
        out
    }

    /// The registered tools, in name order.
    pub fn snapshot(&self) -> (r: Vec<&T>)
        ensures
            r@.len() == self@.len(),
            forall|k: int| 0 <= k < r@.len() ==> *#[trigger] r@[k] == self@[k].2,
    {
        let mut out: Vec<&T> = Vec::new();
        let mut i: usize = 0;
        while i < self.entries.len()
            invariant
                i <= self.entries@.len(),
                self@.len() == self.entries@.len(),
                out@.len() == i,
                forall|k: int| 0 <= k < i ==> *#[trigger] out@[k] == self@[k].2,
            decreases self.entries.len() - i,
        {
            assert(self@[i as int].2 == self.entries@[i as int].tool);
            out.push(&self.entries[i].tool);
            i = i + 1;
        }
        out
    }

    pub fn len(&self) -> (r: usize)
        ensures
            r == self@.len(),
    {
        self.entries.len()
    }

    pub fn is_empty(&self) -> (r: bool)
        ensures
            r == (self@.len() == 0),
    {
        self.entries.len() == 0
    }

    /// Takes `name` out of the registry; says whether it was there.
    pub fn unregister(&mut self, name: &str) -> (r: bool)
        requires
            old(self).wf(),
        ensures
            final(self).wf(),
            r == named(old(self)@, name@),
            !named(final(self)@, name@),
            lookup(final(self)@, name@) is None,
            forall|n: Seq<char>| n != name@ ==> #[trigger] lookup(final(self)@, n) == lookup(old(self)@, n),
            r ==> final(self)@.len() + 1 == old(self)@.len(),
            !r ==> final(self)@ == old(self)@,
    {
        let ghost old_v = self@;
        match self.position(name) {
            Some(p) => {
                self.entries.remove(p);
                proof {
                    let v = self@;
                    assert(v.len() + 1 == old_v.len());
                    assert forall|k: int| 0 <= k < v.len() implies #[trigger] v[k] == (if k < p { old_v[k] } else { old_v[k + 1] }) by {
                        assert(v[k] == (self.entries@[k].name@, self.entries@[k].tier, self.entries@[k].tool));
                    }
                    assert forall|i: int, j: int| 0 <= i < j < v.len() implies chars_lt(#[trigger] v[i].0, #[trigger] v[j].0) by {
                        let i2 = if i < p { i } else { i + 1 };
                        let j2 = if j < p { j } else { j + 1 };
                        assert(v[i] == old_v[i2] && v[j] == old_v[j2]);
                    }
                    assert(named(old_v, name@)) by { assert(old_v[p as int].0 == name@); }
                    assert(!named(v, name@)) by {
                        if named(v, name@) {
                            let k = choose|k: int| 0 <= k < v.len() && #[trigger] v[k].0 == name@;
                            let k2 = if k < p { k } else { k + 1 };
                            assert(old_v[k2].0 == name@);
                            lemma_lt_irreflexive(name@);
                            if k2 < p {
                                assert(chars_lt(old_v[k2].0, old_v[p as int].0));
                            } else {
                                assert(chars_lt(old_v[p as int].0, old_v[k2].0));
                            }
                        }
                    }
                    assert forall|n: Seq<char>| n != name@ implies #[trigger] lookup(v, n) == lookup(old_v, n) by {
                        if named(v, n) {
                            let k = choose|k: int| 0 <= k < v.len() && #[trigger] v[k].0 == n;
                            let k2 = if k < p { k } else { k + 1 };
                            assert(old_v[k2] == v[k]);
                            lemma_lookup_at(v, k);
                            lemma_lookup_at(old_v, k2);
                        } else if named(old_v, n) {
                            let k = choose|k: int| 0 <= k < old_v.len() && #[trigger] old_v[k].0 == n;
                            assert(k != p);
                            if k < p {
                                assert(v[k] == old_v[k]);
                            } else {
                                assert(v[k - 1] == old_v[k]);
                            }
                        }
                    }
                }
                true
            },
            None => false,
        }
    }
}

} // verus!
