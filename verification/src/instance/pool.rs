//! Bounded turn slots: at most `limit` agents hold a turn at once, and an
//! agent holds at most one.
use vstd::prelude::*;

verus! {

#[derive(Debug, Clone, Copy, PartialEq, Eq, Structural)]
pub enum PoolError {
    ZeroLimit,
    AtCapacity(usize),
    Busy(u128),
    NotMounted(u128),
}

/// The agents holding a turn, under a limit.
pub struct Pool {
    limit: usize,
    running: Vec<u128>,
}

impl Pool {
    /// The pool's invariant: at least one slot, no agent twice, no more
    /// turns than slots.
    pub closed spec fn inv(&self) -> bool {
        &&& self.limit >= 1
        &&& self.running@.len() <= self.limit
        &&& distinct(self.running@)
    }

    /// Which agents hold a turn.
    pub closed spec fn holders(&self) -> Set<u128> {
        self.running@.to_set()
    }

    pub closed spec fn slots(&self) -> nat {
        self.limit as nat
    }

    pub fn new(limit: usize) -> (r: Result<Self, PoolError>)
        ensures
            limit == 0 ==> r == Err::<Self, PoolError>(PoolError::ZeroLimit),
            limit > 0 ==> (r matches Ok(p) && p.inv() && p.slots() == limit && p.holders() == Set::<u128>::empty()),
    {
        if limit == 0 {
            return Err(PoolError::ZeroLimit);
        }
        let p = Pool { limit, running: Vec::new() };
        assert(p.running@.to_set() =~= Set::<u128>::empty());
        Ok(p)
    }

    pub fn limit(&self) -> (r: usize)
        ensures
            r == self.slots(),
    {
        self.limit
    }

    /// How many turns are running.
    pub fn running(&self) -> (r: usize)
        requires
            self.inv(),
        ensures
            r == self.holders().len(),
            r <= self.slots(),
    {
        proof { self.running@.unique_seq_to_set(); }
        self.running.len()
    }

    /// Whether `id` holds a turn.
    pub fn is_running(&self, id: u128) -> (r: bool)
        ensures
            r == self.holders().contains(id),
    {
        let mut i: usize = 0;
        while i < self.running.len()
            invariant
                i <= self.running@.len(),
                forall|k: int| 0 <= k < i ==> self.running@[k] != id,
            decreases self.running.len() - i,
        {
            if self.running[i] == id {
                assert(self.running@.to_set().contains(id));
                return true;
            }
            i = i + 1;
        }
        false
    }

    /// Gives `id` a turn: it must be mounted, not already in a turn, and a
    /// slot must be free.
    pub fn begin_turn(&mut self, id: u128, mounted: bool) -> (r: Result<(), PoolError>)
        requires
            old(self).inv(),
        ensures
            final(self).inv(),
            final(self).slots() == old(self).slots(),
            !mounted ==> r == Err::<(), PoolError>(PoolError::NotMounted(id)),
            mounted && old(self).holders().contains(id) ==> r == Err::<(), PoolError>(PoolError::Busy(id)),
            mounted && !old(self).holders().contains(id) && old(self).holders().len() >= old(self).slots()
                ==> r == Err::<(), PoolError>(PoolError::AtCapacity(old(self).slots() as usize)),
            r is Err ==> final(self).holders() == old(self).holders(),
            r is Ok ==> final(self).holders() == old(self).holders().insert(id),
            mounted && !old(self).holders().contains(id) && old(self).holders().len() < old(self).slots() ==> r is Ok,
    {
        proof { self.running@.unique_seq_to_set(); }
        if !mounted {
            return Err(PoolError::NotMounted(id));
        }
        if self.is_running(id) {
            return Err(PoolError::Busy(id));
        }
        if self.running.len() >= self.limit {
            return Err(PoolError::AtCapacity(self.limit));
        }
        let ghost before = self.running@;
        self.running.push(id);
        proof {
            assert(self.running@.to_set() =~= before.to_set().insert(id)) by {
                assert forall|x: u128| self.running@.to_set().contains(x) <==> before.to_set().insert(id).contains(x) by {
                    if self.running@.contains(x) {
                        let k = choose|k: int| 0 <= k < self.running@.len() && self.running@[k] == x;
                        if k < before.len() { assert(before[k] == x); }
                    }
                    if before.contains(x) {
                        let k = choose|k: int| 0 <= k < before.len() && before[k] == x;
                        assert(self.running@[k] == x);
                    }
                    if x == id {
                        assert(self.running@[before.len() as int] == id);
                    }
                }
            }
            assert forall|a: int, b: int| 0 <= a < b < self.running@.len() implies #[trigger] self.running@[a] != #[trigger] self.running@[b] by {
                if b == before.len() {
                    assert(before.contains(before[a]));
                    assert(before.to_set().contains(before[a]));
                }
            }
        }
        Ok(())
    }

    /// Where `id` stands among the running agents.
    fn position(&self, id: u128) -> (r: Option<usize>)
        ensures
            match r {
                Some(j) => j < self.running@.len() && self.running@[j as int] == id,
                None => !self.running@.contains(id),
            },
    {
        let mut i: usize = 0;
        while i < self.running.len()
            invariant
                i <= self.running@.len(),
                forall|k: int| 0 <= k < i ==> self.running@[k] != id,
            decreases self.running.len() - i,
        {
            if self.running[i] == id {
                return Some(i);
            }
            i = i + 1;
        }
        None
    }

    /// Frees the slot `id` holds, if it holds one.
    pub fn end_turn(&mut self, id: u128)
        requires
            old(self).inv(),
        ensures
            final(self).inv(),
            final(self).slots() == old(self).slots(),
            final(self).holders() == old(self).holders().remove(id),
    {
        match self.position(id) {
            Some(j) => {
                let ghost before = self.running@;
                self.running.remove(j);
                proof { lemma_remove_distinct(before, j as int); }
            },
            None => {
                assert(self.running@.to_set().remove(id) =~= self.running@.to_set());
            },
        }
    }
}

/// No element of `s` occurs twice.
pub open spec fn distinct(s: Seq<u128>) -> bool {
    forall|a: int, b: int| 0 <= a < b < s.len() ==> #[trigger] s[a] != #[trigger] s[b]
}

/// Taking one element out of a sequence without repeats keeps it without
/// repeats, and takes exactly that element out of its set.
proof fn lemma_remove_distinct(s: Seq<u128>, j: int)
    requires
        distinct(s),
        0 <= j < s.len(),
    ensures
        distinct(s.remove(j)),
        s.remove(j).to_set() == s.to_set().remove(s[j]),
{
    let r = s.remove(j);
    assert forall|a: int, b: int| 0 <= a < b < r.len() implies #[trigger] r[a] != #[trigger] r[b] by {
        let a2 = if a < j { a } else { a + 1 };
        let b2 = if b < j { b } else { b + 1 };
        assert(r[a] == s[a2]);
        assert(r[b] == s[b2]);
    }
    assert forall|x: u128| r.to_set().contains(x) <==> s.to_set().remove(s[j]).contains(x) by {
        if r.contains(x) {
            let k = choose|k: int| 0 <= k < r.len() && r[k] == x;
            let k2 = if k < j { k } else { k + 1 };
            assert(s[k2] == x);
            assert(s.contains(x));
        }
        if s.contains(x) && x != s[j] {
            let k = choose|k: int| 0 <= k < s.len() && s[k] == x;
            if k < j {
                assert(r[k] == x);
            } else {
                assert(r[k - 1] == x);
            }
        }
    }
    assert(r.to_set() =~= s.to_set().remove(s[j]));
}

} // verus!
