//! The live registration tree: who is mounted under whom. Mounting needs
//! a mounted parent; removing a seat removes its whole subtree, so a
//! child never outlives its parent.
use vstd::prelude::*;
use vstd::seq_lib::lemma_seq_concat_contains_all_elements;

verus! {

#[derive(Debug, Clone, Copy, PartialEq, Eq, Structural)]
pub enum TreeError {
    Duplicate(u128),
    UnknownParent(u128),
    NotFound(u128),
}

/// A mounted seat: its id, its parent, and its children in id order.
#[derive(Debug)]
pub struct Node {
    pub id: u128,
    pub parent: Option<u128>,
    pub children: Vec<u128>,
}

/// Mounted seats, in mount order.
pub struct Tree {
    pub nodes: Vec<Node>,
}

pub open spec fn has_id(nodes: Seq<Node>, id: u128) -> bool {
    exists|j: int| 0 <= j < nodes.len() && #[trigger] nodes[j].id == id
}

pub open spec fn strictly_up(v: Seq<u128>) -> bool {
    forall|a: int, b: int| 0 <= a < b < v.len() ==> #[trigger] v[a] < #[trigger] v[b]
}

/// The tree is well formed: ids are unique; a parent was mounted before
/// its child; a node's children are exactly the nodes naming it as
/// parent, in id order.
pub open spec fn wf(nodes: Seq<Node>) -> bool {
    &&& forall|i: int, j: int| 0 <= i < j < nodes.len() ==> #[trigger] nodes[i].id != #[trigger] nodes[j].id
    &&& forall|i: int| 0 <= i < nodes.len() && (#[trigger] nodes[i]).parent is Some ==>
            exists|j: int| 0 <= j < i && nodes[j].id == nodes[i].parent->0
    &&& forall|i: int| 0 <= i < nodes.len() ==> strictly_up((#[trigger] nodes[i]).children@)
    &&& forall|i: int, c: u128| 0 <= i < nodes.len() ==> (#[trigger] nodes[i].children@.contains(c) <==>
            exists|j: int| 0 <= j < nodes.len() && nodes[j].id == c && nodes[j].parent == Some(nodes[i].id))
}

/// The first node before `j` with id `p`, or -1.
pub open spec fn find_before(nodes: Seq<Node>, p: u128, j: int) -> int
    decreases j,
{
    if j <= 0 {
        -1
    } else {
        let r = find_before(nodes, p, j - 1);
        if r >= 0 { r } else if nodes[j - 1].id == p { j - 1 } else { -1 }
    }
}

pub proof fn lemma_find_before(nodes: Seq<Node>, p: u128, j: int)
    ensures
        -1 <= find_before(nodes, p, j) < (if j > 0 { j } else { 0 }),
        find_before(nodes, p, j) >= 0 ==> nodes[find_before(nodes, p, j)].id == p,
        find_before(nodes, p, j) < 0 ==> forall|k: int| 0 <= k < j ==> #[trigger] nodes[k].id != p,
        forall|k: int| 0 <= k < j && #[trigger] nodes[k].id == p ==> find_before(nodes, p, j) <= k,
    decreases j,
{
    if j > 0 {
        lemma_find_before(nodes, p, j - 1);
    }
}

/// Node `i` is `id` or lies under it.
pub open spec fn under(nodes: Seq<Node>, id: u128, i: int) -> bool
    decreases i,
{
    if 0 <= i < nodes.len() {
        nodes[i].id == id || match nodes[i].parent {
            Some(p) => {
                let j = find_before(nodes, p, i);
                proof { lemma_find_before(nodes, p, i); }
                j >= 0 && under(nodes, id, j)
            },
            None => false,
        }
    } else {
        false
    }
}

/// In a well-formed tree the node before `i` with its parent's id is its
/// parent.
pub proof fn lemma_parent_index(nodes: Seq<Node>, i: int)
    requires
        wf(nodes),
        0 <= i < nodes.len(),
        nodes[i].parent is Some,
    ensures
        0 <= find_before(nodes, nodes[i].parent->0, i) < i,
        forall|k: int| 0 <= k < nodes.len() && #[trigger] nodes[k].id == nodes[i].parent->0 ==> k == find_before(nodes, nodes[i].parent->0, i),
{
    let p = nodes[i].parent->0;
    lemma_find_before(nodes, p, i);
    let j = choose|j: int| 0 <= j < i && nodes[j].id == nodes[i].parent->0;
    assert(nodes[j].id == p);
    let f = find_before(nodes, p, i);
    assert forall|k: int| 0 <= k < nodes.len() && #[trigger] nodes[k].id == p implies k == f by {
        if k != f {
            if k < f { assert(nodes[k].id != nodes[f].id); } else { assert(nodes[f].id != nodes[k].id); }
        }
    }
}

impl Tree {
    pub fn new() -> (r: Self)
        ensures
            r.nodes@.len() == 0,
            wf(r.nodes@),
    {
        Tree { nodes: Vec::new() }
    }

    /// Where the node with `id` is.
    pub fn index_of(&self, id: u128) -> (r: Option<usize>)
        ensures
            match r {
                Some(i) => i < self.nodes@.len() && self.nodes@[i as int].id == id,
                None => !has_id(self.nodes@, id),
            },
    {
        let mut i: usize = 0;
        while i < self.nodes.len()
            invariant
                i <= self.nodes@.len(),
                forall|k: int| 0 <= k < i ==> #[trigger] self.nodes@[k].id != id,
            decreases self.nodes.len() - i,
        {
            if self.nodes[i].id == id {
                return Some(i);
            }
            i = i + 1;
        }
        None
    }

    pub fn len(&self) -> (r: usize)
        ensures
            r == self.nodes@.len(),
    {
        self.nodes.len()
    }

    pub fn is_empty(&self) -> (r: bool)
        ensures
            r == (self.nodes@.len() == 0),
    {
        self.nodes.len() == 0
    }

    /// The parent of a mounted node.
    pub fn parent(&self, id: u128) -> (r: Result<Option<u128>, TreeError>)
        ensures
            !has_id(self.nodes@, id) ==> r == Err::<Option<u128>, TreeError>(TreeError::NotFound(id)),
            r matches Ok(p) ==> exists|i: int| 0 <= i < self.nodes@.len() && self.nodes@[i].id == id && self.nodes@[i].parent == p,
            has_id(self.nodes@, id) ==> r is Ok,
    {
        match self.index_of(id) {
            Some(i) => Ok(self.nodes[i].parent),
            None => Err(TreeError::NotFound(id)),
        }
    }

    /// The children of a mounted node, in id order.
    pub fn children(&self, id: u128) -> (r: Result<Vec<u128>, TreeError>)
        ensures
            !has_id(self.nodes@, id) ==> r == Err::<Vec<u128>, TreeError>(TreeError::NotFound(id)),
            r matches Ok(c) ==> exists|i: int| 0 <= i < self.nodes@.len() && self.nodes@[i].id == id && self.nodes@[i].children@ == c@,
            has_id(self.nodes@, id) ==> r is Ok,
    {
        match self.index_of(id) {
            Some(i) => {
                let mut out: Vec<u128> = Vec::new();
                let mut k: usize = 0;
                while k < self.nodes[i].children.len()
                    invariant
                        i < self.nodes@.len(),
                        k <= self.nodes@[i as int].children@.len(),
                        out@ == self.nodes@[i as int].children@.subrange(0, k as int),
                    decreases self.nodes@[i as int].children@.len() - k,
                {
                    out.push(self.nodes[i].children[k]);
                    assert(out@ =~= self.nodes@[i as int].children@.subrange(0, k + 1));
                    k = k + 1;
                }
                assert(self.nodes@[i as int].children@.subrange(0, k as int) =~= self.nodes@[i as int].children@);
                Ok(out)
            },
            None => Err(TreeError::NotFound(id)),
        }
    }
}

fn insert_sorted(v: &mut Vec<u128>, x: u128)
    requires
        strictly_up(old(v)@),
        !old(v)@.contains(x),
    ensures
        strictly_up(final(v)@),
        forall|c: u128| #[trigger] final(v)@.contains(c) <==> (old(v)@.contains(c) || c == x),
{
    let ghost before = v@;
    let mut p: usize = 0;
    while p < v.len() && v[p] < x
        invariant
            p <= v@.len(),
            v@ == before,
            forall|k: int| 0 <= k < p ==> #[trigger] v@[k] < x,
        decreases v.len() - p,
    {
        p = p + 1;
    }
    proof {
        assert forall|k: int| p <= k < before.len() implies x < #[trigger] before[k] by {
            assert(before[k] != x);
            if k > p {
                assert(before[p as int] < before[k]);
            }
            assert(before[p as int] >= x);
            assert(before[p as int] != x) by { assert(before.contains(before[p as int])); }
        }
    }
    v.insert(p, x);
    proof {
        let nv = v@;
        assert forall|a: int, b: int| 0 <= a < b < nv.len() implies #[trigger] nv[a] < #[trigger] nv[b] by {
            if a < p && b > p {
                assert(nv[b] == before[b - 1]);
            } else if a == p {
                assert(nv[b] == before[b - 1]);
            } else if a > p {
                assert(nv[a] == before[a - 1] && nv[b] == before[b - 1]);
            }
        }
        assert forall|c: u128| #[trigger] nv.contains(c) <==> (before.contains(c) || c == x) by {
            if nv.contains(c) {
                let k = choose|k: int| 0 <= k < nv.len() && nv[k] == c;
                if k < p { assert(before[k] == c); } else if k > p { assert(before[k - 1] == c); }
            }
            if before.contains(c) {
                let k = choose|k: int| 0 <= k < before.len() && before[k] == c;
                if k < p { assert(nv[k] == c); } else { assert(nv[k + 1] == c); }
            }
            if c == x {
                assert(nv[p as int] == x);
            }
        }
    }
}

} // verus!

verus! {

fn copy_ids(v: &Vec<u128>) -> (r: Vec<u128>)
    ensures
        r@ == v@,
{
    let mut out: Vec<u128> = Vec::new();
    let mut k: usize = 0;
    while k < v.len()
        invariant
            k <= v@.len(),
            out@ == v@.subrange(0, k as int),
        decreases v.len() - k,
    {
        out.push(v[k]);
        assert(out@ =~= v@.subrange(0, k + 1));
        k = k + 1;
    }
    assert(v@.subrange(0, v@.len() as int) =~= v@);
    out
}

impl Tree {
    /// Mounts `id` under `parent` (or as a root). Refused when `id` is
    /// already mounted or the parent is not.
    pub fn mount(&mut self, id: u128, parent: Option<u128>) -> (r: Result<(), TreeError>)
        requires
            wf(old(self).nodes@),
        ensures
            wf(final(self).nodes@),
            has_id(old(self).nodes@, id) ==> r == Err::<(), TreeError>(TreeError::Duplicate(id)) && final(self).nodes@ == old(self).nodes@,
            !has_id(old(self).nodes@, id) && (parent matches Some(p) && !has_id(old(self).nodes@, p)) ==>
                r == Err::<(), TreeError>(TreeError::UnknownParent(parent->0)) && final(self).nodes@ == old(self).nodes@,
            r is Ok ==> {
                &&& !has_id(old(self).nodes@, id)
                &&& (parent matches Some(p) ==> has_id(old(self).nodes@, p))
                &&& final(self).nodes@.len() == old(self).nodes@.len() + 1
                &&& final(self).nodes@.last().id == id
                &&& final(self).nodes@.last().parent == parent
                &&& final(self).nodes@.last().children@.len() == 0
                &&& forall|i: int| 0 <= i < old(self).nodes@.len() ==> {
                    let a = #[trigger] final(self).nodes@[i];
                    let b = old(self).nodes@[i];
                    &&& a.id == b.id
                    &&& a.parent == b.parent
                    &&& forall|c: u128| #[trigger] a.children@.contains(c) <==> (b.children@.contains(c) || (parent == Some(b.id) && c == id))
                }
            },
            !has_id(old(self).nodes@, id) && (parent matches Some(p) ==> has_id(old(self).nodes@, p)) ==> r is Ok,
    {
        let ghost old_nodes = self.nodes@;
        if self.index_of(id).is_some() {
            return Err(TreeError::Duplicate(id));
        }
        match parent {
            Some(p) => {
                let q = match self.index_of(p) {
                    Some(q) => q,
                    None => {
                        return Err(TreeError::UnknownParent(p));
                    },
                };
                let mut ch = copy_ids(&self.nodes[q].children);
                proof {
                    assert(!ch@.contains(id)) by {
                        if ch@.contains(id) {
                            assert(old_nodes[q as int].children@.contains(id));
                            let j = choose|j: int| 0 <= j < old_nodes.len() && old_nodes[j].id == id && old_nodes[j].parent == Some(old_nodes[q as int].id);
                        }
                    }
                }
                insert_sorted(&mut ch, id);
                let nq = Node { id: self.nodes[q].id, parent: self.nodes[q].parent, children: ch };
                self.nodes.set(q, nq);
            },
            None => {},
        }
        self.nodes.push(Node { id, parent, children: Vec::new() });
        proof {
            let nn = self.nodes@;
            let n = old_nodes.len() as int;
            assert forall|i: int| 0 <= i < n implies {
                let a = #[trigger] nn[i];
                let b = old_nodes[i];
                &&& a.id == b.id
                &&& a.parent == b.parent
                &&& forall|c: u128| #[trigger] a.children@.contains(c) <==> (b.children@.contains(c) || (parent == Some(b.id) && c == id))
            } by {
                if parent is Some && old_nodes[i].id == parent->0 {
                    // the only node with that id is the parent's slot
                }
            }
            assert(wf(nn)) by {
                assert forall|i: int, j: int| 0 <= i < j < nn.len() implies #[trigger] nn[i].id != #[trigger] nn[j].id by {
                    if j == n {
                        assert(old_nodes[i].id != id);
                    }
                }
                assert forall|i: int| 0 <= i < nn.len() && (#[trigger] nn[i]).parent is Some implies
                    exists|j: int| 0 <= j < i && nn[j].id == nn[i].parent->0 by {
                    if i < n {
                        let j = choose|j: int| 0 <= j < i && old_nodes[j].id == old_nodes[i].parent->0;
                        assert(nn[j].id == old_nodes[j].id);
                    } else {
                        let q = choose|q: int| 0 <= q < n && #[trigger] old_nodes[q].id == parent->0;
                        assert(nn[q].id == old_nodes[q].id);
                    }
                }
                assert forall|i: int| 0 <= i < nn.len() implies strictly_up((#[trigger] nn[i]).children@) by {
                    if i < n && !(parent is Some && old_nodes[i].id == parent->0) {
                        assert(nn[i].children@ == old_nodes[i].children@);
                    }
                }
                assert forall|i: int, c: u128| 0 <= i < nn.len() implies (#[trigger] nn[i].children@.contains(c) <==>
                    exists|j: int| 0 <= j < nn.len() && nn[j].id == c && nn[j].parent == Some(nn[i].id)) by {
                    if i < n {
                        if nn[i].children@.contains(c) {
                            if old_nodes[i].children@.contains(c) {
                                let j = choose|j: int| 0 <= j < old_nodes.len() && old_nodes[j].id == c && old_nodes[j].parent == Some(old_nodes[i].id);
                                assert(nn[j].id == c && nn[j].parent == Some(nn[i].id));
                            } else {
                                assert(nn[n].id == c && nn[n].parent == Some(nn[i].id));
                            }
                        }
                        if exists|j: int| 0 <= j < nn.len() && nn[j].id == c && nn[j].parent == Some(nn[i].id) {
                            let j = choose|j: int| 0 <= j < nn.len() && nn[j].id == c && nn[j].parent == Some(nn[i].id);
                            if j < n {
                                assert(old_nodes[j].id == c && old_nodes[j].parent == Some(old_nodes[i].id));
                                assert(old_nodes[i].children@.contains(c));
                            }
                        }
                    } else {
                        assert(nn[i].children@.len() == 0);
                        if exists|j: int| 0 <= j < nn.len() && nn[j].id == c && nn[j].parent == Some(nn[i].id) {
                            let j = choose|j: int| 0 <= j < nn.len() && nn[j].id == c && nn[j].parent == Some(nn[i].id);
                            if j < n {
                                let k = choose|k: int| 0 <= k < j && old_nodes[k].id == old_nodes[j].parent->0;
                                assert(old_nodes[k].id == id);
                                assert(has_id(old_nodes, id));
                            } else {
                                assert(parent == Some(id));
                                let q = choose|q: int| 0 <= q < n && #[trigger] old_nodes[q].id == id;
                                assert(has_id(old_nodes, id));
                            }
                        }
                    }
                }
            }
        }
        Ok(())
    }
}

} // verus!

verus! {

/// Kept node `t` comes from a surviving node among the first `n`.
pub open spec fn covers(f: Seq<bool>, pos: Seq<int>, n: int, t: int) -> bool {
    exists|k: int| 0 <= k < n && !f[k] && #[trigger] pos[k] == t
}

/// `v` without `x`.
fn without(v: &Vec<u128>, x: u128) -> (r: Vec<u128>)
    requires
        strictly_up(v@),
    ensures
        strictly_up(r@),
        forall|c: u128| #[trigger] r@.contains(c) <==> (v@.contains(c) && c != x),
{
    let mut out: Vec<u128> = Vec::new();
    let mut k: usize = 0;
    while k < v.len()
        invariant
            k <= v@.len(),
            strictly_up(v@),
            strictly_up(out@),
            forall|t: int| 0 <= t < out@.len() ==> exists|s: int| 0 <= s < k && v@[s] == #[trigger] out@[t],
            forall|c: u128| #[trigger] out@.contains(c) <==> (v@.subrange(0, k as int).contains(c) && c != x),
        decreases v.len() - k,
    {
        let ghost before = out@;
        if v[k] != x {
            out.push(v[k]);
        }
        proof {
            assert forall|a: int, b: int| 0 <= a < b < out@.len() implies #[trigger] out@[a] < #[trigger] out@[b] by {
                if b == before.len() && v[k as int] != x {
                    let s = choose|s: int| 0 <= s < k && v@[s] == before[a];
                    assert(v@[s] < v@[k as int]);
                }
            }
            assert forall|t: int| 0 <= t < out@.len() implies exists|s: int| 0 <= s < k + 1 && v@[s] == #[trigger] out@[t] by {
                if t < before.len() {
                    let s = choose|s: int| 0 <= s < k && v@[s] == before[t];
                    assert(out@[t] == before[t]);
                } else {
                    assert(v@[k as int] == out@[t]);
                }
            }
            assert forall|c: u128| #[trigger] out@.contains(c) <==> (v@.subrange(0, k + 1).contains(c) && c != x) by {
                if out@.contains(c) {
                    let t = choose|t: int| 0 <= t < out@.len() && out@[t] == c;
                    if t < before.len() {
                        assert(before[t] == c);
                        assert(before.contains(c));
                        let w = choose|w: int| 0 <= w < k && #[trigger] v@.subrange(0, k as int)[w] == c;
                        assert(v@.subrange(0, k + 1)[w] == c);
                    } else {
                        assert(v@.subrange(0, k + 1)[k as int] == c);
                    }
                }
                if v@.subrange(0, k + 1).contains(c) && c != x {
                    let w = choose|w: int| 0 <= w < k + 1 && #[trigger] v@.subrange(0, k + 1)[w] == c;
                    if w < k {
                        assert(v@.subrange(0, k as int)[w] == c);
                        assert(before.contains(c));
                        let t = choose|t: int| 0 <= t < before.len() && before[t] == c;
                        assert(out@[t] == c);
                    } else {
                        assert(out@[before.len() as int] == c);
                    }
                }
            }
        }
        k = k + 1;
    }
    assert(v@.subrange(0, v@.len() as int) =~= v@);
    out
}

impl Tree {
    /// Whether node `i` is `id` or under it, for each node.
    fn under_flags(&self, id: u128) -> (r: Vec<bool>)
        requires
            wf(self.nodes@),
        ensures
            r@.len() == self.nodes@.len(),
            forall|i: int| 0 <= i < r@.len() ==> #[trigger] r@[i] == under(self.nodes@, id, i),
    {
        let mut f: Vec<bool> = Vec::new();
        let mut i: usize = 0;
        while i < self.nodes.len()
            invariant
                wf(self.nodes@),
                i <= self.nodes@.len(),
                f@.len() == i,
                forall|t: int| 0 <= t < i ==> #[trigger] f@[t] == under(self.nodes@, id, t),
            decreases self.nodes.len() - i,
        {
            let mut me = self.nodes[i].id == id;
            match self.nodes[i].parent {
                Some(p) => {
                    proof { lemma_parent_index(self.nodes@, i as int); }
                    let mut j: usize = 0;
                    while j < i
                        invariant
                            wf(self.nodes@),
                            i < self.nodes@.len(),
                            j <= i,
                            f@.len() == i,
                            forall|t: int| 0 <= t < i ==> #[trigger] f@[t] == under(self.nodes@, id, t),
                            self.nodes@[i as int].parent == Some(p),
                            0 <= find_before(self.nodes@, p, i as int) < i,
                            forall|k: int| 0 <= k < self.nodes@.len() && #[trigger] self.nodes@[k].id == p ==> k == find_before(self.nodes@, p, i as int),
                            me == (self.nodes@[i as int].id == id
                                || (find_before(self.nodes@, p, i as int) < j && under(self.nodes@, id, find_before(self.nodes@, p, i as int)))),
                        decreases i - j,
                    {
                        if self.nodes[j].id == p && f[j] {
                            me = true;
                        }
                        j = j + 1;
                    }
                },
                None => {},
            }
            f.push(me);
            i = i + 1;
        }
        f
    }

    /// Removes `id` and everything under it; false when `id` is not mounted.
    pub fn remove(&mut self, id: u128) -> (r: bool)
        requires
            wf(old(self).nodes@),
        ensures
            wf(final(self).nodes@),
            r == has_id(old(self).nodes@, id),
            !r ==> final(self).nodes@ == old(self).nodes@,
            forall|n: u128| #[trigger] has_id(final(self).nodes@, n) <==>
                exists|i: int| 0 <= i < old(self).nodes@.len() && old(self).nodes@[i].id == n && !under(old(self).nodes@, id, i),
    {
        if self.index_of(id).is_none() {
            proof {
                assert forall|n: u128| #[trigger] has_id(self.nodes@, n) <==>
                    exists|i: int| 0 <= i < self.nodes@.len() && self.nodes@[i].id == n && !under(self.nodes@, id, i) by {
                    if has_id(self.nodes@, n) {
                        let i = choose|i: int| 0 <= i < self.nodes@.len() && #[trigger] self.nodes@[i].id == n;
                        lemma_under_needs_id(self.nodes@, id, i);
                    }
                }
            }
            return false;
        }
        let ghost old_nodes = self.nodes@;
        let f = self.under_flags(id);
        let mut kept: Vec<Node> = Vec::new();
        let ghost mut pos: Seq<int> = Seq::empty();
        let mut i: usize = 0;
        while i < self.nodes.len()
            invariant
                self.nodes@ == old_nodes,
                wf(old_nodes),
                i <= old_nodes.len(),
                f@.len() == old_nodes.len(),
                forall|t: int| 0 <= t < f@.len() ==> #[trigger] f@[t] == under(old_nodes, id, t),
                pos.len() == i,
                forall|k: int| 0 <= k < i && !f@[k] ==> 0 <= #[trigger] pos[k] < kept@.len(),
                forall|k: int| 0 <= k < i && !f@[k] ==> {
                    let a = kept@[#[trigger] pos[k]];
                    let b = old_nodes[k];
                    &&& a.id == b.id
                    &&& a.parent == b.parent
                    &&& strictly_up(a.children@)
                    &&& forall|c: u128| #[trigger] a.children@.contains(c) <==> (b.children@.contains(c) && c != id)
                },
                forall|k1: int, k2: int| 0 <= k1 < k2 < i && !f@[k1] && !f@[k2] ==> #[trigger] pos[k1] < #[trigger] pos[k2],
                forall|t: int| 0 <= t < kept@.len() ==> #[trigger] covers(f@, pos, i as int, t),
            decreases old_nodes.len() - i,
        {
            let ghost pos0 = pos;
            let ghost kept0 = kept@;
            if !f[i] {
                let n = &self.nodes[i];
                let ch = without(&n.children, id);
                proof { pos = pos.push(kept@.len() as int); }
                kept.push(Node { id: n.id, parent: n.parent, children: ch });
            } else {
                proof { pos = pos.push(0); }
            }
            proof {
                assert forall|t: int| 0 <= t < kept@.len() implies #[trigger] covers(f@, pos, i + 1, t) by {
                    if t < kept0.len() {
                        assert(covers(f@, pos0, i as int, t));
                        let k = choose|k: int| 0 <= k < i && !f@[k] && #[trigger] pos0[k] == t;
                        assert(pos[k] == pos0[k]);
                    } else {
                        assert(pos[i as int] == t);
                    }
                }
                assert forall|k: int| 0 <= k < i + 1 && !f@[k] implies 0 <= #[trigger] pos[k] < kept@.len() by {
                    if k < i { assert(pos[k] == pos0[k]); }
                }
                assert forall|k: int| 0 <= k < i + 1 && !f@[k] implies {
                    let a = kept@[#[trigger] pos[k]];
                    let b = old_nodes[k];
                    &&& a.id == b.id
                    &&& a.parent == b.parent
                    &&& strictly_up(a.children@)
                    &&& forall|c: u128| #[trigger] a.children@.contains(c) <==> (b.children@.contains(c) && c != id)
                } by {
                    if k < i {
                        assert(pos[k] == pos0[k]);
                        assert(kept@[pos0[k]] == kept0[pos0[k]]);
                    }
                }
                assert forall|k1: int, k2: int| 0 <= k1 < k2 < i + 1 && !f@[k1] && !f@[k2] implies #[trigger] pos[k1] < #[trigger] pos[k2] by {
                    assert(pos[k1] == pos0[k1]);
                    if k2 < i { assert(pos[k2] == pos0[k2]); }
                }
            }
            i = i + 1;
        }
        proof {
            lemma_remove_wf(old_nodes, id, f@, pos, kept@);
        }
        self.nodes = kept;
        true
    }
}

proof fn lemma_under_needs_id(nodes: Seq<Node>, id: u128, i: int)
    requires
        !has_id(nodes, id),
    ensures
        !under(nodes, id, i),
    decreases i,
{
    if 0 <= i < nodes.len() {
        if nodes[i].id == id {
            assert(has_id(nodes, id));
        }
        if nodes[i].parent is Some {
            let p = nodes[i].parent->0;
            lemma_find_before(nodes, p, i);
            let j = find_before(nodes, p, i);
            if j >= 0 {
                lemma_under_needs_id(nodes, id, j);
            }
        }
    }
}

proof fn lemma_remove_wf(old_nodes: Seq<Node>, id: u128, f: Seq<bool>, pos: Seq<int>, kept: Seq<Node>)
    requires
        wf(old_nodes),
        f.len() == old_nodes.len(),
        forall|t: int| 0 <= t < f.len() ==> #[trigger] f[t] == under(old_nodes, id, t),
        pos.len() == old_nodes.len(),
        forall|k: int| 0 <= k < old_nodes.len() && !f[k] ==> 0 <= #[trigger] pos[k] < kept.len(),
        forall|k: int| 0 <= k < old_nodes.len() && !f[k] ==> {
            let a = kept[#[trigger] pos[k]];
            let b = old_nodes[k];
            &&& a.id == b.id
            &&& a.parent == b.parent
            &&& strictly_up(a.children@)
            &&& forall|c: u128| #[trigger] a.children@.contains(c) <==> (b.children@.contains(c) && c != id)
        },
        forall|k1: int, k2: int| 0 <= k1 < k2 < old_nodes.len() && !f[k1] && !f[k2] ==> #[trigger] pos[k1] < #[trigger] pos[k2],
        forall|t: int| 0 <= t < kept.len() ==> #[trigger] covers(f, pos, old_nodes.len() as int, t),
    ensures
        wf(kept),
        forall|n: u128| #[trigger] has_id(kept, n) <==>
            exists|i: int| 0 <= i < old_nodes.len() && old_nodes[i].id == n && !under(old_nodes, id, i),
{
    // A survivor's parent survives, and sits before it.
    assert forall|k: int| 0 <= k < old_nodes.len() && !f[k] && (#[trigger] old_nodes[k]).parent is Some implies
        exists|j: int| 0 <= j < k && !f[j] && old_nodes[j].id == old_nodes[k].parent->0 by {
        lemma_parent_index(old_nodes, k);
        let j = find_before(old_nodes, old_nodes[k].parent->0, k);
        if f[j] {
            assert(under(old_nodes, id, k));
        }
    }
    assert forall|a: int, b: int| 0 <= a < b < kept.len() implies #[trigger] kept[a].id != #[trigger] kept[b].id by {
        assert(covers(f, pos, old_nodes.len() as int, a));
        let ka = choose|k: int| 0 <= k < old_nodes.len() && !f[k] && #[trigger] pos[k] == a;
        assert(covers(f, pos, old_nodes.len() as int, b));
        let kb = choose|k: int| 0 <= k < old_nodes.len() && !f[k] && #[trigger] pos[k] == b;
        assert(ka != kb);
        if ka < kb {
            assert(old_nodes[ka].id != old_nodes[kb].id);
        } else {
            assert(old_nodes[kb].id != old_nodes[ka].id);
        }
    }
    assert forall|t: int| 0 <= t < kept.len() && (#[trigger] kept[t]).parent is Some implies
        exists|j: int| 0 <= j < t && kept[j].id == kept[t].parent->0 by {
        assert(covers(f, pos, old_nodes.len() as int, t));
        let k = choose|k: int| 0 <= k < old_nodes.len() && !f[k] && #[trigger] pos[k] == t;
        assert(old_nodes[k].parent is Some);
        let j = choose|j: int| 0 <= j < k && !f[j] && old_nodes[j].id == old_nodes[k].parent->0;
        assert(pos[j] < pos[k]);
        assert(kept[pos[j]].id == old_nodes[j].id);
    }
    assert forall|t: int| 0 <= t < kept.len() implies strictly_up((#[trigger] kept[t]).children@) by {
        assert(covers(f, pos, old_nodes.len() as int, t));
        let k = choose|k: int| 0 <= k < old_nodes.len() && !f[k] && #[trigger] pos[k] == t;
    }
    assert forall|t: int, c: u128| 0 <= t < kept.len() implies (#[trigger] kept[t].children@.contains(c) <==>
        exists|j: int| 0 <= j < kept.len() && kept[j].id == c && kept[j].parent == Some(kept[t].id)) by {
        assert(covers(f, pos, old_nodes.len() as int, t));
        let k = choose|k: int| 0 <= k < old_nodes.len() && !f[k] && #[trigger] pos[k] == t;
        if kept[t].children@.contains(c) {
            assert(old_nodes[k].children@.contains(c) && c != id);
            let j = choose|j: int| 0 <= j < old_nodes.len() && old_nodes[j].id == c && old_nodes[j].parent == Some(old_nodes[k].id);
            if f[j] {
                lemma_parent_index(old_nodes, j);
                assert(find_before(old_nodes, old_nodes[j].parent->0, j) == k);
                assert(under(old_nodes, id, k));
            }
            assert(kept[pos[j]].id == c && kept[pos[j]].parent == Some(kept[t].id));
        }
        if exists|j: int| 0 <= j < kept.len() && kept[j].id == c && kept[j].parent == Some(kept[t].id) {
            let j = choose|j: int| 0 <= j < kept.len() && kept[j].id == c && kept[j].parent == Some(kept[t].id);
            assert(covers(f, pos, old_nodes.len() as int, j));
            let kj = choose|kk: int| 0 <= kk < old_nodes.len() && !f[kk] && #[trigger] pos[kk] == j;
            assert(old_nodes[kj].id == c && old_nodes[kj].parent == Some(old_nodes[k].id));
            assert(old_nodes[k].children@.contains(c));
            assert(c != id) by {
                if c == id { assert(under(old_nodes, id, kj)); }
            }
        }
    }
    assert forall|n: u128| #[trigger] has_id(kept, n) <==>
        exists|i: int| 0 <= i < old_nodes.len() && old_nodes[i].id == n && !under(old_nodes, id, i) by {
        if has_id(kept, n) {
            let t = choose|t: int| 0 <= t < kept.len() && #[trigger] kept[t].id == n;
            assert(covers(f, pos, old_nodes.len() as int, t));
            let k = choose|k: int| 0 <= k < old_nodes.len() && !f[k] && #[trigger] pos[k] == t;
            assert(old_nodes[k].id == n && !under(old_nodes, id, k));
        }
        if exists|i: int| 0 <= i < old_nodes.len() && old_nodes[i].id == n && !under(old_nodes, id, i) {
            let i = choose|i: int| 0 <= i < old_nodes.len() && old_nodes[i].id == n && !under(old_nodes, id, i);
            assert(kept[pos[i]].id == n);
        }
    }
}

} // verus!

verus! {

/// The index of the node with `id`, in a tree with unique ids.
pub open spec fn idx(nodes: Seq<Node>, id: u128) -> int {
    choose|k: int| 0 <= k < nodes.len() && nodes[k].id == id
}

/// The parent of the node listed at `t` is listed before it.
pub open spec fn parent_before(nodes: Seq<Node>, out: Seq<u128>, t: int) -> bool {
    exists|s: int| 0 <= s < t && nodes[idx(nodes, out[t])].parent == Some(#[trigger] out[s])
}

proof fn lemma_idx(nodes: Seq<Node>, k: int)
    requires
        wf(nodes),
        0 <= k < nodes.len(),
    ensures
        idx(nodes, nodes[k].id) == k,
{
    let j = idx(nodes, nodes[k].id);
    assert(0 <= j < nodes.len() && nodes[j].id == nodes[k].id);
    if j != k {
        if j < k { assert(nodes[j].id != nodes[k].id); } else { assert(nodes[k].id != nodes[j].id); }
    }
}

/// The children of the node with id `x`.
pub open spec fn children_of(nodes: Seq<Node>, x: u128) -> Seq<u128> {
    nodes[idx(nodes, x)].children@
}

/// The children of each listed node in turn, concatenated.
pub open spec fn flat_children(nodes: Seq<Node>, s: Seq<u128>) -> Seq<u128>
    decreases s.len(),
{
    if s.len() == 0 {
        Seq::empty()
    } else {
        flat_children(nodes, s.drop_last()) + children_of(nodes, s.last())
    }
}

proof fn lemma_flat_children_contains(nodes: Seq<Node>, s: Seq<u128>, x: u128)
    requires
        flat_children(nodes, s).contains(x),
    ensures
        exists|t: int| 0 <= t < s.len() && #[trigger] children_of(nodes, s[t]).contains(x),
    decreases s.len(),
{
    if s.len() > 0 {
        lemma_seq_concat_contains_all_elements(flat_children(nodes, s.drop_last()), children_of(nodes, s.last()), x);
        if flat_children(nodes, s.drop_last()).contains(x) {
            lemma_flat_children_contains(nodes, s.drop_last(), x);
            let t = choose|t: int| 0 <= t < s.drop_last().len() && #[trigger] children_of(nodes, s.drop_last()[t]).contains(x);
            assert(s.drop_last()[t] == s[t]);
        } else {
            assert(children_of(nodes, s[s.len() - 1]).contains(x));
        }
    }
}

/// Everything under `id` sits at or after it.
proof fn lemma_under_after(nodes: Seq<Node>, id: u128, k: int, r: int)
    requires
        wf(nodes),
        0 <= r < nodes.len(),
        nodes[r].id == id,
        under(nodes, id, k),
    ensures
        k >= r,
    decreases k,
{
    if nodes[k].id == id {
        if k < r { assert(nodes[k].id != nodes[r].id); }
        if k > r { assert(nodes[r].id != nodes[k].id); }
    } else {
        lemma_parent_index(nodes, k);
        let j = find_before(nodes, nodes[k].parent->0, k);
        lemma_under_after(nodes, id, j, r);
    }
}

impl Tree {
    /// `id` and everything under it, breadth first: `id`, then its
    /// children in id order, then theirs.
    pub fn descendants(&self, id: u128) -> (r: Result<Vec<u128>, TreeError>)
        requires
            wf(self.nodes@),
        ensures
            !has_id(self.nodes@, id) ==> r == Err::<Vec<u128>, TreeError>(TreeError::NotFound(id)),
            has_id(self.nodes@, id) ==> r is Ok,
            r matches Ok(v) ==> {
                &&& v@.len() > 0 && v@[0] == id
                &&& forall|a: int, b: int| 0 <= a < b < v@.len() ==> #[trigger] v@[a] != #[trigger] v@[b]
                &&& forall|n: u128| #[trigger] v@.contains(n) <==> exists|k: int| 0 <= k < self.nodes@.len() && self.nodes@[k].id == n && under(self.nodes@, id, k)
                &&& forall|t: int| 0 < t < v@.len() ==> #[trigger] parent_before(self.nodes@, v@, t)
                &&& v@ == seq![id] + flat_children(self.nodes@, v@)
            },
    {
        let ghost ns = self.nodes@;
        let root = match self.index_of(id) {
            Some(r) => r,
            None => {
                return Err(TreeError::NotFound(id));
            },
        };
        let n = self.nodes.len();
        let mut listed: Vec<bool> = Vec::new();
        let mut z: usize = 0;
        while z < n
            invariant
                n == ns.len(),
                z <= n,
                listed@.len() == z,
                forall|t: int| 0 <= t < z ==> !#[trigger] listed@[t],
            decreases n - z,
        {
            listed.push(false);
            z = z + 1;
        }
        proof {
            crate::instance::wp::lemma_count_zero(listed@);
            crate::instance::wp::lemma_count_true_set(listed@, root as int);
            lemma_idx(ns, root as int);
        }
        listed.set(root, true);
        let mut out: Vec<u128> = Vec::new();
        out.push(id);
        let mut i: usize = 0;
        while i < out.len()
            invariant
                ns == self.nodes@,
                wf(ns),
                n == ns.len(),
                0 <= root < n,
                ns[root as int].id == id,
                listed@.len() == n,
                i <= out@.len(),
                out@.len() > 0 && out@[0] == id,
                crate::instance::wp::count_true(listed@) == out@.len(),
                forall|t: int| 0 <= t < out@.len() ==> {
                    &&& 0 <= idx(ns, #[trigger] out@[t]) < n
                    &&& ns[idx(ns, out@[t])].id == out@[t]
                    &&& listed@[idx(ns, out@[t])]
                    &&& under(ns, id, idx(ns, out@[t]))
                },
                forall|k: int| 0 <= k < n && #[trigger] listed@[k] ==> out@.contains(ns[k].id),
                forall|a: int, b: int| 0 <= a < b < out@.len() ==> #[trigger] out@[a] != #[trigger] out@[b],
                forall|s: int, c: u128| 0 <= s < i && #[trigger] ns[idx(ns, out@[s])].children@.contains(c) ==> out@.contains(c),
                forall|t: int| 0 < t < out@.len() ==> #[trigger] parent_before(ns, out@, t),
                out@ == seq![id] + flat_children(ns, out@.take(i as int)),
            decreases n - crate::instance::wp::count_true(listed@), out@.len() - i,
        {
            let k = self.index_of(out[i]).unwrap();
            proof { lemma_idx(ns, k as int); }
            let ghost len0 = out@.len();
            let ghost done = out@.take(i as int);
            assert(out@ =~= seq![id] + flat_children(ns, done) + ns[k as int].children@.take(0));
            let mut m: usize = 0;
            while m < self.nodes[k].children.len()
                invariant
                    ns == self.nodes@,
                    wf(ns),
                    n == ns.len(),
                    k < n,
                    i < out@.len(),
                    ns[k as int].id == out@[i as int],
                    m <= ns[k as int].children@.len(),
                    listed@.len() == n,
                    out@.len() > 0 && out@[0] == id,
                    crate::instance::wp::count_true(listed@) == out@.len(),
                    forall|t: int| 0 <= t < out@.len() ==> {
                        &&& 0 <= idx(ns, #[trigger] out@[t]) < n
                        &&& ns[idx(ns, out@[t])].id == out@[t]
                        &&& listed@[idx(ns, out@[t])]
                        &&& under(ns, id, idx(ns, out@[t]))
                    },
                    forall|q: int| 0 <= q < n && #[trigger] listed@[q] ==> out@.contains(ns[q].id),
                    forall|a: int, b: int| 0 <= a < b < out@.len() ==> #[trigger] out@[a] != #[trigger] out@[b],
                    forall|s: int, c: u128| 0 <= s < i && #[trigger] ns[idx(ns, out@[s])].children@.contains(c) ==> out@.contains(c),
                    forall|q: int| 0 <= q < m ==> out@.contains(#[trigger] ns[k as int].children@[q]),
                    out@.len() >= len0,
                    forall|t: int| 0 < t < out@.len() ==> #[trigger] parent_before(ns, out@, t),
                    0 <= root < n,
                    ns[root as int].id == id,
                    idx(ns, out@[i as int]) == k,
                    done == out@.take(i as int),
                    out@ == seq![id] + flat_children(ns, done) + ns[k as int].children@.take(m as int),
                decreases ns[k as int].children@.len() - m,
            {
                let c = self.nodes[k].children[m];
                proof {
                    assert(ns[k as int].children@[m as int] == c);
                    assert(ns[k as int].children@.contains(c));
                }
                let ci = self.index_of(c).unwrap();
                proof {
                    lemma_idx(ns, ci as int);
                    assert(ns[ci as int].parent == Some(out@[i as int])) by {
                        let j = choose|j: int| 0 <= j < ns.len() && ns[j].id == c && ns[j].parent == Some(ns[k as int].id);
                        lemma_idx(ns, j);
                    }
                    lemma_idx(ns, k as int);
                    assert(under(ns, id, ci as int)) by {
                        lemma_parent_index(ns, ci as int);
                        assert(find_before(ns, out@[i as int], ci as int) == idx(ns, out@[i as int]));
                    }
                }
                if !listed[ci] {
                    proof { crate::instance::wp::lemma_count_true_set(listed@, ci as int); }
                    listed.set(ci, true);
                    let ghost before = out@;
                    out.push(c);
                    proof {
                        assert(out@.take(i as int) =~= before.take(i as int));
                        assert(ns[k as int].children@.take(m + 1) =~= ns[k as int].children@.take(m as int).push(c));
                        assert(out@ =~= seq![id] + flat_children(ns, done) + ns[k as int].children@.take(m + 1));
                        assert forall|x: u128| before.contains(x) implies out@.contains(x) by {
                            let t = choose|t: int| 0 <= t < before.len() && before[t] == x;
                            assert(out@[t] == x);
                        }
                        assert(out@[before.len() as int] == c);
                        assert forall|q: int| 0 <= q < n && #[trigger] listed@[q] implies out@.contains(ns[q].id) by {
                            if q != ci {
                                assert(before.contains(ns[q].id));
                            }
                        }
                        assert forall|q: int| 0 <= q < m + 1 implies out@.contains(#[trigger] ns[k as int].children@[q]) by {
                            if q < m {
                                assert(before.contains(ns[k as int].children@[q]));
                            }
                        }
                        assert forall|a: int, b: int| 0 <= a < b < out@.len() implies #[trigger] out@[a] != #[trigger] out@[b] by {
                            if b == before.len() && out@[a] == c {
                                assert(idx(ns, c) == ci);
                            }
                        }
                        assert forall|t: int| 0 < t < out@.len() implies #[trigger] parent_before(ns, out@, t) by {
                            if t < before.len() {
                                assert(parent_before(ns, before, t));
                                let s0 = choose|s0: int| 0 <= s0 < t && ns[idx(ns, before[t])].parent == Some(#[trigger] before[s0]);
                                assert(out@[s0] == before[s0]);
                            } else {
                                assert(out@[t] == c);
                                assert(idx(ns, c) == ci);
                                assert(out@[i as int] == before[i as int]);
                                assert(ns[idx(ns, out@[t])].parent == Some(out@[i as int]));
                            }
                        }
                    }
                } else {
                    proof {
                        assert(out@.contains(ns[ci as int].id));
                        lemma_fresh_child(ns, id, root as int, out@, done, i as int, k as int, m as int, ci as int);
                        assert forall|q: int| 0 <= q < m + 1 implies out@.contains(#[trigger] ns[k as int].children@[q]) by {
                        }
                    }
                }
                m = m + 1;
            }
            proof {
                assert(ns[k as int].children@.take(m as int) =~= ns[k as int].children@);
                assert(out@.take(i + 1).drop_last() =~= done);
                assert(out@.take(i + 1).last() == out@[i as int]);
                assert(flat_children(ns, out@.take(i + 1)) == flat_children(ns, done) + children_of(ns, out@[i as int]));
                assert(out@ =~= seq![id] + flat_children(ns, out@.take(i + 1)));
                crate::instance::wp::lemma_count_true_bound(listed@);
                lemma_idx(ns, k as int);
                assert forall|s2: int, c2: u128| 0 <= s2 < i + 1 && #[trigger] ns[idx(ns, out@[s2])].children@.contains(c2) implies out@.contains(c2) by {
                    if s2 == i {
                        let q = choose|q: int| 0 <= q < ns[k as int].children@.len() && ns[k as int].children@[q] == c2;
                        assert(out@.contains(ns[k as int].children@[q]));
                    }
                }
            }
            i = i + 1;
        }
        proof {
            assert(out@.take(out@.len() as int) =~= out@);
            assert forall|nid: u128| #[trigger] out@.contains(nid) <==> exists|q: int| 0 <= q < ns.len() && ns[q].id == nid && under(ns, id, q) by {
                if out@.contains(nid) {
                    let t = choose|t: int| 0 <= t < out@.len() && out@[t] == nid;
                    assert(ns[idx(ns, out@[t])].id == nid);
                }
                if exists|q: int| 0 <= q < ns.len() && ns[q].id == nid && under(ns, id, q) {
                    let q = choose|q: int| 0 <= q < ns.len() && ns[q].id == nid && under(ns, id, q);
                    lemma_bfs_complete(ns, id, root as int, out@, q);
                }
            }
        }
        Ok(out)
    }
}

/// In a breadth-first listing of a well-formed tree, the `m`-th child of
/// the node being expanded is not listed yet.
proof fn lemma_fresh_child(ns: Seq<Node>, id: u128, root: int, out: Seq<u128>, done: Seq<u128>, i: int, k: int, m: int, ci: int)
    requires
        wf(ns),
        0 <= root < ns.len(),
        ns[root].id == id,
        0 <= i < out.len(),
        0 <= k < ns.len(),
        0 <= ci < ns.len(),
        0 <= m < ns[k].children@.len(),
        ns[k].id == out[i],
        idx(ns, out[i]) == k,
        ns[ci].id == ns[k].children@[m],
        ns[ci].parent == Some(out[i]),
        done == out.take(i),
        out == seq![id] + flat_children(ns, done) + ns[k].children@.take(m),
        forall|t: int| 0 <= t < out.len() ==> {
            &&& 0 <= idx(ns, #[trigger] out[t]) < ns.len()
            &&& ns[idx(ns, out[t])].id == out[t]
            &&& under(ns, id, idx(ns, out[t]))
        },
        forall|a: int, b: int| 0 <= a < b < out.len() ==> #[trigger] out[a] != #[trigger] out[b],
    ensures
        !out.contains(ns[ci].id),
{
    let c = ns[ci].id;
    if out.contains(c) {
        let f = flat_children(ns, done);
        let tk = ns[k].children@.take(m);
        lemma_seq_concat_contains_all_elements(seq![id] + f, tk, c);
        lemma_seq_concat_contains_all_elements(seq![id], f, c);
        if c == id {
            lemma_idx(ns, root);
            assert(ns[root].parent == Some(ns[k].id));
            let q = choose|q: int| 0 <= q < root && ns[q].id == ns[root].parent->0;
            if q != k {
                if q < k { assert(ns[q].id != ns[k].id); } else { assert(ns[k].id != ns[q].id); }
            }
            lemma_under_after(ns, id, k, root);
        } else if f.contains(c) {
            lemma_flat_children_contains(ns, done, c);
            let t = choose|t: int| 0 <= t < done.len() && #[trigger] children_of(ns, done[t]).contains(c);
            assert(done[t] == out[t]);
            let pt = idx(ns, out[t]);
            assert(ns[pt].children@.contains(c));
            let j = choose|j: int| 0 <= j < ns.len() && ns[j].id == c && ns[j].parent == Some(ns[pt].id);
            if j != ci {
                if j < ci { assert(ns[j].id != ns[ci].id); } else { assert(ns[ci].id != ns[j].id); }
            }
            assert(out[t] == out[i]);
        } else {
            assert(tk.contains(c));
            let p = choose|p: int| 0 <= p < tk.len() && tk[p] == c;
            assert(ns[k].children@[p] == ns[k].children@[m]);
            assert(strictly_up(ns[k].children@));
        }
    }
}

/// Once every listed node's children are listed, everything under the
/// root is listed.
proof fn lemma_bfs_complete(ns: Seq<Node>, id: u128, root: int, out: Seq<u128>, q: int)
    requires
        wf(ns),
        0 <= root < ns.len(),
        ns[root].id == id,
        out.len() > 0 && out[0] == id,
        forall|t: int| 0 <= t < out.len() ==> 0 <= idx(ns, #[trigger] out[t]) < ns.len() && ns[idx(ns, out[t])].id == out[t],
        forall|s: int, c: u128| 0 <= s < out.len() && #[trigger] ns[idx(ns, out[s])].children@.contains(c) ==> out.contains(c),
        0 <= q < ns.len(),
        under(ns, id, q),
    ensures
        out.contains(ns[q].id),
    decreases q,
{
    if ns[q].id == id {
        assert(out[0] == ns[q].id);
    } else {
        lemma_parent_index(ns, q);
        let j = find_before(ns, ns[q].parent->0, q);
        lemma_bfs_complete(ns, id, root, out, j);
        let s = choose|s: int| 0 <= s < out.len() && out[s] == ns[j].id;
        lemma_idx(ns, j);
        assert(idx(ns, out[s]) == j);
        assert(ns[j].children@.contains(ns[q].id));
    }
}

/// The ids from node `i` up to its root: the node, its parent, and so on.
pub open spec fn ancestry(nodes: Seq<Node>, i: int) -> Seq<u128>
    decreases i,
{
    if 0 <= i < nodes.len() {
        match nodes[i].parent {
            Some(p) => {
                let j = find_before(nodes, p, i);
                proof { lemma_find_before(nodes, p, i); }
                if j >= 0 { seq![nodes[i].id] + ancestry(nodes, j) } else { seq![nodes[i].id] }
            },
            None => seq![nodes[i].id],
        }
    } else {
        Seq::empty()
    }
}

/// A seat's chain up to its root names `id` exactly when the seat lies
/// under `id`: a flag set on `id` reaches every lease below it and no
/// other.
pub proof fn lemma_ancestry_under(nodes: Seq<Node>, id: u128, i: int)
    requires
        0 <= i < nodes.len(),
    ensures
        ancestry(nodes, i).contains(id) <==> under(nodes, id, i),
    decreases i,
{
    lemma_find_before(nodes, nodes[i].parent->0, i);
    match nodes[i].parent {
        Some(p) => {
            let j = find_before(nodes, p, i);
            if j >= 0 {
                lemma_ancestry_under(nodes, id, j);
                let a = ancestry(nodes, i);
                let rest = ancestry(nodes, j);
                assert(a == seq![nodes[i].id] + rest);
                if rest.contains(id) {
                    let k = choose|k: int| 0 <= k < rest.len() && rest[k] == id;
                    assert(a[k + 1] == id);
                }
                if a.contains(id) && nodes[i].id != id {
                    let k = choose|k: int| 0 <= k < a.len() && a[k] == id;
                    assert(k > 0);
                    assert(rest[k - 1] == id);
                }
                if nodes[i].id == id {
                    assert(a[0] == id);
                }
            } else {
                assert(ancestry(nodes, i) == seq![nodes[i].id]);
                if ancestry(nodes, i).contains(id) {
                    assert(ancestry(nodes, i)[0] == id);
                }
                if nodes[i].id == id {
                    assert(ancestry(nodes, i)[0] == id);
                }
            }
        },
        None => {
            assert(ancestry(nodes, i) == seq![nodes[i].id]);
            if ancestry(nodes, i).contains(id) {
                assert(ancestry(nodes, i)[0] == id);
            }
            if nodes[i].id == id {
                assert(ancestry(nodes, i)[0] == id);
            }
        },
    }
}

impl Tree {
    /// The ids from `id` up to its root, `id` first: what a lease on `id`
    /// watches for a cancel.
    pub fn ancestry(&self, id: u128) -> (r: Result<Vec<u128>, TreeError>)
        requires
            wf(self.nodes@),
        ensures
            !has_id(self.nodes@, id) ==> r == Err::<Vec<u128>, TreeError>(TreeError::NotFound(id)),
            has_id(self.nodes@, id) ==> (r matches Ok(v) && exists|i: int| 0 <= i < self.nodes@.len()
                && self.nodes@[i].id == id && v@ == #[trigger] ancestry(self.nodes@, i)),
    {
        let ghost ns = self.nodes@;
        let start = match self.index_of(id) {
            Some(i) => i,
            None => {
                return Err(TreeError::NotFound(id));
            },
        };
        let mut out: Vec<u128> = Vec::new();
        let mut cur = start;
        assert(out@ + ancestry(ns, cur as int) =~= ancestry(ns, start as int));
        loop
            invariant_except_break
                cur < ns.len(),
                out@ + ancestry(ns, cur as int) == ancestry(ns, start as int),
            invariant
                ns == self.nodes@,
                wf(ns),
            ensures
                out@ == ancestry(ns, start as int),
            decreases cur,
        {
            let ghost before = out@;
            out.push(self.nodes[cur].id);
            match self.nodes[cur].parent {
                None => {
                    assert(ancestry(ns, cur as int) == seq![ns[cur as int].id]);
                    assert(out@ =~= before + ancestry(ns, cur as int));
                    assert(out@ == ancestry(ns, start as int));
                    break;
                },
                Some(p) => {
                    proof { lemma_parent_index(ns, cur as int); }
                    let j = match self.index_of(p) {
                        Some(j) => j,
                        None => {
                            proof {
                                let f = find_before(ns, p, cur as int);
                                assert(ns[f].id == p);
                                assert(false);
                            }
                            break;
                        },
                    };
                    proof {
                        let f = find_before(ns, p, cur as int);
                        assert(j == f);
                        assert(ancestry(ns, cur as int) == seq![ns[cur as int].id] + ancestry(ns, j as int));
                        assert(before + ancestry(ns, cur as int) =~= out@ + ancestry(ns, j as int));
                    }
                    cur = j;
                },
            }
        }
        Ok(out)
    }
}

/// The cancel records that a cancel of node `i` makes, in order: the
/// subtree of each child in turn (children in id order), then the edge
/// from `i`'s parent to `i`, where it has a parent.
pub open spec fn cancel_trail(nodes: Seq<Node>, i: int) -> Seq<(u128, u128)>
    decreases nodes.len() - i, 1int, 0int,
{
    if 0 <= i < nodes.len() {
        children_trail(nodes, i, 0) + match nodes[i].parent {
            Some(p) => seq![(p, nodes[i].id)],
            None => Seq::empty(),
        }
    } else {
        Seq::empty()
    }
}

/// The cancel records of the subtrees of node `i`'s children from the
/// `k`-th on.
pub open spec fn children_trail(nodes: Seq<Node>, i: int, k: int) -> Seq<(u128, u128)>
    decreases nodes.len() - i, 0int, nodes[i].children@.len() - k,
{
    if 0 <= i < nodes.len() && 0 <= k < nodes[i].children@.len() {
        let c = idx(nodes, nodes[i].children@[k]);
        (if i < c < nodes.len() { cancel_trail(nodes, c) } else { Seq::empty() })
            + children_trail(nodes, i, k + 1)
    } else {
        Seq::empty()
    }
}

/// A listed child of node `i` sits after `i`.
proof fn lemma_child_after(nodes: Seq<Node>, i: int, c: int)
    requires
        wf(nodes),
        0 <= i < nodes.len(),
        0 <= c < nodes.len(),
        nodes[i].children@.contains(nodes[c].id),
    ensures
        i < c,
        nodes[c].parent == Some(nodes[i].id),
{
    let j = choose|j: int| 0 <= j < nodes.len() && nodes[j].id == nodes[c].id && nodes[j].parent == Some(nodes[i].id);
    if j != c {
        if j < c { assert(nodes[j].id != nodes[c].id); } else { assert(nodes[c].id != nodes[j].id); }
    }
    assert(nodes[c].parent is Some);
    let q = choose|q: int| 0 <= q < c && nodes[q].id == nodes[c].parent->0;
    if q != i {
        if q < i { assert(nodes[q].id != nodes[i].id); } else { assert(nodes[i].id != nodes[q].id); }
    }
}

impl Tree {
    fn cancel_trail_into(&self, i: usize, out: &mut Vec<(u128, u128)>)
        requires
            wf(self.nodes@),
            i < self.nodes@.len(),
        ensures
            final(out)@ == old(out)@ + cancel_trail(self.nodes@, i as int),
        decreases self.nodes@.len() - i,
    {
        let ghost ns = self.nodes@;
        let ghost start = out@;
        let n = self.nodes[i].children.len();
        let mut k: usize = 0;
        assert(out@ + children_trail(ns, i as int, 0) =~= start + children_trail(ns, i as int, 0));
        while k < n
            invariant
                ns == self.nodes@,
                wf(ns),
                i < ns.len(),
                n == ns[i as int].children@.len(),
                k <= n,
                out@ + children_trail(ns, i as int, k as int) == start + children_trail(ns, i as int, 0),
            decreases n - k,
        {
            let cid = self.nodes[i].children[k];
            assert(ns[i as int].children@.contains(cid));
            let c = match self.index_of(cid) {
                Some(c) => c,
                None => {
                    proof {
                        let j = choose|j: int| 0 <= j < ns.len() && ns[j].id == cid && ns[j].parent == Some(ns[i as int].id);
                        assert(has_id(ns, cid));
                    }
                    return;
                },
            };
            proof {
                lemma_child_after(ns, i as int, c as int);
                lemma_idx(ns, c as int);
            }
            let ghost before = out@;
            self.cancel_trail_into(c, out);
            proof {
                assert(children_trail(ns, i as int, k as int)
                    == cancel_trail(ns, c as int) + children_trail(ns, i as int, k + 1));
                assert(before + children_trail(ns, i as int, k as int)
                    =~= out@ + children_trail(ns, i as int, k + 1));
            }
            k = k + 1;
        }
        let ghost mid = out@;
        assert(mid =~= start + children_trail(ns, i as int, 0));
        match self.nodes[i].parent {
            Some(p) => {
                out.push((p, self.nodes[i].id));
                assert(out@ =~= start + cancel_trail(ns, i as int));
            },
            None => {
                assert(out@ =~= start + cancel_trail(ns, i as int));
            },
        }
    }

    /// The (parent, child) cancel records that cancelling `id` makes down
    /// its subtree, in the order they are made: each child's subtree first,
    /// then the edge into `id` itself.
    pub fn cancel_edges(&self, id: u128) -> (r: Result<Vec<(u128, u128)>, TreeError>)
        requires
            wf(self.nodes@),
        ensures
            !has_id(self.nodes@, id) ==> r == Err::<Vec<(u128, u128)>, TreeError>(TreeError::NotFound(id)),
            has_id(self.nodes@, id) ==> (r matches Ok(v) && exists|i: int| 0 <= i < self.nodes@.len()
                && self.nodes@[i].id == id && v@ == #[trigger] cancel_trail(self.nodes@, i)),
    {
        match self.index_of(id) {
            Some(i) => {
                let mut out: Vec<(u128, u128)> = Vec::new();
                self.cancel_trail_into(i, &mut out);
                assert(out@ =~= cancel_trail(self.nodes@, i as int));
                Ok(out)
            },
            None => Err(TreeError::NotFound(id)),
        }
    }
}

/// Lying under is transitive: what lies under the node at `c` lies under
/// whatever `c` lies under.
proof fn lemma_under_trans(nodes: Seq<Node>, c: int, b: u128, k: int)
    requires
        wf(nodes),
        0 <= c < nodes.len(),
        0 <= k < nodes.len(),
        under(nodes, b, c),
        under(nodes, nodes[c].id, k),
    ensures
        under(nodes, b, k),
    decreases k,
{
    if nodes[k].id == nodes[c].id {
        if k != c {
            if k < c { assert(nodes[k].id != nodes[c].id); } else { assert(nodes[c].id != nodes[k].id); }
        }
    } else {
        lemma_parent_index(nodes, k);
        let j = find_before(nodes, nodes[k].parent->0, k);
        lemma_under_trans(nodes, c, b, j);
    }
}

/// A child lies under its parent.
proof fn lemma_child_under(nodes: Seq<Node>, i: int, c: int)
    requires
        wf(nodes),
        0 <= i < nodes.len(),
        0 <= c < nodes.len(),
        nodes[c].parent == Some(nodes[i].id),
    ensures
        under(nodes, nodes[i].id, c),
{
    lemma_parent_index(nodes, c);
    assert(under(nodes, nodes[i].id, i));
}

/// The child listed `k`-th under node `i` is mounted.
proof fn lemma_listed_child(nodes: Seq<Node>, i: int, k: int)
    requires
        wf(nodes),
        0 <= i < nodes.len(),
        0 <= k < nodes[i].children@.len(),
    ensures
        0 <= idx(nodes, nodes[i].children@[k]) < nodes.len(),
        nodes[idx(nodes, nodes[i].children@[k])].id == nodes[i].children@[k],
{
    assert(nodes[i].children@.contains(nodes[i].children@[k]));
    let j = choose|j: int| 0 <= j < nodes.len() && nodes[j].id == nodes[i].children@[k] && nodes[j].parent == Some(nodes[i].id);
    assert(nodes[j].id == nodes[i].children@[k]);
}

proof fn lemma_trail_sound(nodes: Seq<Node>, i: int, e: (u128, u128))
    requires
        wf(nodes),
        0 <= i < nodes.len(),
        cancel_trail(nodes, i).contains(e),
    ensures
        exists|q: int| 0 <= q < nodes.len() && nodes[q].id == e.1 && nodes[q].parent == Some(e.0)
            && #[trigger] under(nodes, nodes[i].id, q),
    decreases nodes.len() - i, 1int, 0int,
{
    let tail = match nodes[i].parent {
        Some(p) => seq![(p, nodes[i].id)],
        None => Seq::<(u128, u128)>::empty(),
    };
    lemma_seq_concat_contains_all_elements(children_trail(nodes, i, 0), tail, e);
    if children_trail(nodes, i, 0).contains(e) {
        lemma_children_trail_sound(nodes, i, 0, e);
    } else {
        assert(tail[0] == e);
        assert(under(nodes, nodes[i].id, i));
    }
}

proof fn lemma_children_trail_sound(nodes: Seq<Node>, i: int, k: int, e: (u128, u128))
    requires
        wf(nodes),
        0 <= i < nodes.len(),
        0 <= k,
        children_trail(nodes, i, k).contains(e),
    ensures
        exists|q: int| 0 <= q < nodes.len() && nodes[q].id == e.1 && nodes[q].parent == Some(e.0)
            && #[trigger] under(nodes, nodes[i].id, q),
    decreases nodes.len() - i, 0int, nodes[i].children@.len() - k,
{
    if k < nodes[i].children@.len() {
        lemma_listed_child(nodes, i, k);
        let c = idx(nodes, nodes[i].children@[k]);
        assert(nodes[i].children@.contains(nodes[c].id));
        lemma_child_after(nodes, i, c);
        lemma_seq_concat_contains_all_elements(cancel_trail(nodes, c), children_trail(nodes, i, k + 1), e);
        if cancel_trail(nodes, c).contains(e) {
            lemma_trail_sound(nodes, c, e);
            let q = choose|q: int| 0 <= q < nodes.len() && nodes[q].id == e.1 && nodes[q].parent == Some(e.0)
                && #[trigger] under(nodes, nodes[c].id, q);
            lemma_child_under(nodes, i, c);
            lemma_under_trans(nodes, c, nodes[i].id, q);
        } else {
            lemma_children_trail_sound(nodes, i, k + 1, e);
        }
    }
}

proof fn lemma_children_trail_grows(nodes: Seq<Node>, i: int, k: int, m: int, e: (u128, u128))
    requires
        wf(nodes),
        0 <= i < nodes.len(),
        0 <= k <= m,
        children_trail(nodes, i, m).contains(e),
    ensures
        children_trail(nodes, i, k).contains(e),
    decreases m - k,
{
    if k < m {
        lemma_children_trail_grows(nodes, i, k + 1, m, e);
        if k < nodes[i].children@.len() {
            let c = idx(nodes, nodes[i].children@[k]);
            let head = if i < c < nodes.len() { cancel_trail(nodes, c) } else { Seq::empty() };
            lemma_seq_concat_contains_all_elements(head, children_trail(nodes, i, k + 1), e);
        }
    }
}

/// What a cancel of a child records, a cancel of its parent records too.
proof fn lemma_child_trail_in(nodes: Seq<Node>, j: int, c: int, e: (u128, u128))
    requires
        wf(nodes),
        0 <= j < nodes.len(),
        0 <= c < nodes.len(),
        nodes[c].parent == Some(nodes[j].id),
        cancel_trail(nodes, c).contains(e),
    ensures
        cancel_trail(nodes, j).contains(e),
{
    assert(nodes[j].children@.contains(nodes[c].id));
    let m = choose|m: int| 0 <= m < nodes[j].children@.len() && nodes[j].children@[m] == nodes[c].id;
    lemma_idx(nodes, c);
    lemma_child_after(nodes, j, c);
    lemma_seq_concat_contains_all_elements(cancel_trail(nodes, c), children_trail(nodes, j, m + 1), e);
    lemma_children_trail_grows(nodes, j, 0, m, e);
    let tail = match nodes[j].parent {
        Some(p) => seq![(p, nodes[j].id)],
        None => Seq::<(u128, u128)>::empty(),
    };
    lemma_seq_concat_contains_all_elements(children_trail(nodes, j, 0), tail, e);
}

proof fn lemma_trail_within(nodes: Seq<Node>, i: int, j: int, e: (u128, u128))
    requires
        wf(nodes),
        0 <= i < nodes.len(),
        0 <= j < nodes.len(),
        under(nodes, nodes[i].id, j),
        cancel_trail(nodes, j).contains(e),
    ensures
        cancel_trail(nodes, i).contains(e),
    decreases j,
{
    if nodes[j].id == nodes[i].id {
        if j != i {
            if j < i { assert(nodes[j].id != nodes[i].id); } else { assert(nodes[i].id != nodes[j].id); }
        }
    } else {
        lemma_parent_index(nodes, j);
        let q = find_before(nodes, nodes[j].parent->0, j);
        lemma_child_trail_in(nodes, q, j, e);
        lemma_trail_within(nodes, i, q, e);
    }
}

/// A cancel of the seat at `i` reaches exactly its subtree: every record
/// it makes is the edge from a seat's parent to a seat lying under it,
/// and every seat lying under it that has a parent gets that record.
pub proof fn lemma_cancel_reaches_subtree(nodes: Seq<Node>, i: int)
    requires
        wf(nodes),
        0 <= i < nodes.len(),
    ensures
        forall|e: (u128, u128)| #[trigger] cancel_trail(nodes, i).contains(e) ==>
            exists|q: int| 0 <= q < nodes.len() && nodes[q].id == e.1 && nodes[q].parent == Some(e.0)
                && #[trigger] under(nodes, nodes[i].id, q),
        forall|k: int| 0 <= k < nodes.len() && #[trigger] under(nodes, nodes[i].id, k) && nodes[k].parent is Some
            ==> cancel_trail(nodes, i).contains((nodes[k].parent->0, nodes[k].id)),
{
    assert forall|e: (u128, u128)| #[trigger] cancel_trail(nodes, i).contains(e) implies
        exists|q: int| 0 <= q < nodes.len() && nodes[q].id == e.1 && nodes[q].parent == Some(e.0)
            && #[trigger] under(nodes, nodes[i].id, q) by {
        lemma_trail_sound(nodes, i, e);
    }
    assert forall|k: int| 0 <= k < nodes.len() && #[trigger] under(nodes, nodes[i].id, k) && nodes[k].parent is Some
        implies cancel_trail(nodes, i).contains((nodes[k].parent->0, nodes[k].id)) by {
        let e = (nodes[k].parent->0, nodes[k].id);
        let t = cancel_trail(nodes, k);
        let tail = seq![e];
        assert(t == children_trail(nodes, k, 0) + tail);
        assert(t[t.len() - 1] == e);
        lemma_trail_within(nodes, i, k, e);
    }
}

} // verus!
