//! The trie-shaped store: one node per identifier segment.
//!
//! A sequence store can also keep each character in a trie keyed by
//! position segments, with subtree sizes for rank queries. The flat ordered
//! list in `store` is the primary representation; this module offers the
//! tree-shaped one over the same position model.

use vstd::prelude::*;

use crate::{Depth, IdType, PeerId, Timestamp};

verus! {

/// One segment of a trie path; ordered by digit, then author, then time.
#[derive(Clone, Copy, Debug, PartialEq, Eq, Structural)]
pub struct Position {
    pub digit: IdType,
    pub peer_id: PeerId,
    pub time: Timestamp,
}

/// Strict order on trie positions.
pub open spec fn pos_lt(a: Position, b: Position) -> bool {
    a.digit < b.digit
        || (a.digit == b.digit && a.peer_id < b.peer_id)
        || (a.digit == b.digit && a.peer_id == b.peer_id && a.time < b.time)
}

/// What one trie node stands for in the document.
pub enum NodeKind {
    Char(char),
    Bos,
    Eos,
}

/// One trie node: an optional character, its ordered children, its level,
/// and the number of nodes in its subtree.
pub struct NodeCRDT {
    pub data: Option<char>,
    pub children: Vec<(Position, NodeCRDT)>,
    pub depth: Depth,
    pub subtree_size: usize,
}

/// The number of nodes in the subtrees of `cs[i..]`.
pub open spec fn count_from(cs: Seq<(Position, NodeCRDT)>, i: int) -> nat
    decreases cs, cs.len() - i, 0int,
{
    if i < 0 || i >= cs.len() {
        0
    } else {
        count(cs[i].1) + count_from(cs, i + 1)
    }
}

/// The number of nodes in the subtree rooted at `t`, `t` included.
pub open spec fn count(t: NodeCRDT) -> nat
    decreases t, 0int, 1int,
{
    1 + count_from(t.children@, 0)
}

/// Children are strictly ordered by their positions.
pub open spec fn children_sorted(cs: Seq<(Position, NodeCRDT)>) -> bool {
    forall|i: int, j: int| 0 <= i < j < cs.len() ==> pos_lt(cs[i].0, cs[j].0)
}

/// Structural soundness of a trie node: ordered children, coherent levels,
/// and a subtree size that counts the subtree's nodes exactly.
pub open spec fn node_wf(t: NodeCRDT) -> bool
    decreases t,
{
    &&& children_sorted(t.children@)
    &&& forall|i: int| 0 <= i < t.children@.len() ==> node_wf(#[trigger] t.children@[i].1)
    &&& forall|i: int|
        0 <= i < t.children@.len() ==> (#[trigger] t.children@[i].1).depth == t.depth + 1
    &&& t.subtree_size == count(t)
}

/// The character stored at `path` below `t`, if a node exists there.
pub open spec fn data_at(t: NodeCRDT, path: Seq<Position>) -> Option<char>
    decreases t, path.len(),
{
    if path.len() == 0 {
        t.data
    } else if exists|i: int| 0 <= i < t.children@.len() && t.children@[i].0 == path[0] {
        data_at(
            t.children@[choose|i: int|
                0 <= i < t.children@.len() && t.children@[i].0 == path[0]].1,
            path.drop_first(),
        )
    } else {
        None
    }
}

/// Whether a node exists at `path` below `t`.
pub open spec fn has_node(t: NodeCRDT, path: Seq<Position>) -> bool
    decreases t, path.len(),
{
    if path.len() == 0 {
        true
    } else if exists|i: int| 0 <= i < t.children@.len() && t.children@[i].0 == path[0] {
        has_node(
            t.children@[choose|i: int|
                0 <= i < t.children@.len() && t.children@[i].0 == path[0]].1,
            path.drop_first(),
        )
    } else {
        false
    }
}

/// The characters of the subtree at `cs[i..]`, in order.
pub open spec fn chars_from(cs: Seq<(Position, NodeCRDT)>, i: int) -> Seq<char>
    decreases cs, cs.len() - i, 0int,
{
    if i < 0 || i >= cs.len() {
        Seq::empty()
    } else {
        chars(cs[i].1) + chars_from(cs, i + 1)
    }
}

/// The characters of the subtree rooted at `t`: the node's own character,
/// then each child's characters in position order.
pub open spec fn chars(t: NodeCRDT) -> Seq<char>
    decreases t, 0int, 1int,
{
    (match t.data {
        Some(c) => seq![c],
        None => Seq::empty(),
    }) + chars_from(t.children@, 0)
}

/// With distinct child keys, the child looked up for `cs[j].0` is `cs[j]`.
pub proof fn lemma_child_unique(t: NodeCRDT, path: Seq<Position>, j: int)
    requires
        children_sorted(t.children@),
        0 <= j < t.children@.len(),
        path.len() >= 1,
        t.children@[j].0 == path[0],
    ensures
        data_at(t, path) == data_at(t.children@[j].1, path.drop_first()),
        has_node(t, path) == has_node(t.children@[j].1, path.drop_first()),
{
    let c = choose|i: int| 0 <= i < t.children@.len() && t.children@[i].0 == path[0];
    if c != j {
        if c < j {
            assert(pos_lt(t.children@[c].0, t.children@[j].0));
        } else {
            assert(pos_lt(t.children@[j].0, t.children@[c].0));
        }
    }
}

/// A child's subtree is at most one node smaller than the whole count.
pub proof fn lemma_count_child(cs: Seq<(Position, NodeCRDT)>, lo: int, j: int)
    requires
        0 <= lo <= j < cs.len(),
    ensures
        count(cs[j].1) <= count_from(cs, lo),
    decreases j - lo,
{
    if lo < j {
        lemma_count_child(cs, lo + 1, j);
    }
}

/// Replacing the subtree of one child changes the count by that subtree's
/// change alone.
pub proof fn lemma_count_update(
    cs: Seq<(Position, NodeCRDT)>,
    ds: Seq<(Position, NodeCRDT)>,
    j: int,
    lo: int,
)
    requires
        cs.len() == ds.len(),
        0 <= j < cs.len(),
        forall|i: int| 0 <= i < cs.len() && i != j ==> cs[i] == ds[i],
        0 <= lo <= cs.len(),
    ensures
        lo <= j ==> count_from(ds, lo) - count_from(cs, lo) == count(ds[j].1) - count(cs[j].1),
        lo > j ==> count_from(ds, lo) == count_from(cs, lo),
    decreases cs.len() - lo,
{
    if lo < cs.len() {
        lemma_count_update(cs, ds, j, lo + 1);
    }
}

/// The counts shift by one position across an insertion.
pub proof fn lemma_count_shift_ins(
    cs: Seq<(Position, NodeCRDT)>,
    j: int,
    e: (Position, NodeCRDT),
    m: int,
)
    requires
        0 <= j <= cs.len(),
        j <= m <= cs.len(),
    ensures
        count_from(cs.insert(j, e), m + 1) == count_from(cs, m),
    decreases cs.len() - m,
{
    let ds = cs.insert(j, e);
    if m < cs.len() {
        assert(ds[m + 1] == cs[m]);
        lemma_count_shift_ins(cs, j, e, m + 1);
    }
}

/// Inserting a child adds its subtree to the count.
pub proof fn lemma_count_insert(
    cs: Seq<(Position, NodeCRDT)>,
    j: int,
    e: (Position, NodeCRDT),
    lo: int,
)
    requires
        0 <= lo <= j <= cs.len(),
    ensures
        count_from(cs.insert(j, e), lo) == count_from(cs, lo) + count(e.1),
    decreases j - lo,
{
    let ds = cs.insert(j, e);
    if lo == j {
        assert(ds[j] == e);
        lemma_count_shift_ins(cs, j, e, j);
    } else {
        assert(ds[lo] == cs[lo]);
        lemma_count_insert(cs, j, e, lo + 1);
    }
}

/// The counts shift by one position across a removal.
pub proof fn lemma_count_shift_rem(cs: Seq<(Position, NodeCRDT)>, j: int, m: int)
    requires
        0 <= j < cs.len(),
        j <= m <= cs.len() - 1,
    ensures
        count_from(cs.remove(j), m) == count_from(cs, m + 1),
    decreases cs.len() - m,
{
    let ds = cs.remove(j);
    if m < cs.len() - 1 {
        assert(ds[m] == cs[m + 1]);
        lemma_count_shift_rem(cs, j, m + 1);
    }
}

/// Removing a child takes its subtree out of the count.
pub proof fn lemma_count_remove(cs: Seq<(Position, NodeCRDT)>, j: int, lo: int)
    requires
        0 <= lo <= j < cs.len(),
    ensures
        count_from(cs.remove(j), lo) == count_from(cs, lo) - count(cs[j].1),
    decreases j - lo,
{
    let ds = cs.remove(j);
    if lo == j {
        lemma_count_shift_rem(cs, j, j);
    } else {
        assert(ds[lo] == cs[lo]);
        lemma_count_remove(cs, j, lo + 1);
    }
}

impl NodeCRDT {
    /// A fresh leaf holding one character at the given level.
    pub fn new(data: char, depth: Depth) -> (r: Self)
        ensures
            r.data == Some(data),
            r.children@.len() == 0,
            r.depth == depth,
            r.subtree_size == 1,
            node_wf(r),
            count(r) == 1,
            chars(r) =~= seq![data],
    {
        let r = NodeCRDT { depth, data: Some(data), children: Vec::new(), subtree_size: 1 };
        proof {
            assert(count_from(r.children@, 0) == 0);
            assert(chars_from(r.children@, 0) =~= Seq::<char>::empty());
        }
        r
    }

    /// The exclusive upper bound on digits minted at a level.
    pub fn max_digit(depth: Depth) -> (r: IdType)
        requires
            depth <= 27,
        ensures
            r == (1u32 << ((4 + depth) as u32)),
    {
        1u32 << ((4 + depth) as u32)
    }

    /// Stores `data` in a fresh node at `path` below this node; every
    /// proper prefix of the path must already have a node, and the path
    /// itself must not.
    pub fn insert(&mut self, path: &Vec<Position>, data: char)
        requires
            node_wf(*old(self)),
            path@.len() >= 1,
            forall|j: int|
                0 < j < path@.len() ==> has_node(*old(self), path@.subrange(0, j)),
            !has_node(*old(self), path@),
            count(*old(self)) < usize::MAX,
            old(self).depth + path@.len() < usize::MAX,
        ensures
            node_wf(*final(self)),
            final(self).depth == old(self).depth,
            final(self).data == old(self).data,
            count(*final(self)) == count(*old(self)) + 1,
            final(self).subtree_size == old(self).subtree_size + 1,
            data_at(*final(self), path@) == Some(data),
            has_node(*final(self), path@),
            forall|p: Seq<Position>|
                p != path@ ==> #[trigger] data_at(*final(self), p) == data_at(*old(self), p),
    {
        proof {
            assert(path@.subrange(0, path@.len() as int) =~= path@);
            assert forall|m: int|
                0 < m < path@.len() implies has_node(
                *old(self),
                #[trigger] path@.subrange(0, path@.len() as int).subrange(0, m),
            ) by {
                assert(path@.subrange(0, path@.len() as int).subrange(0, m) =~= path@.subrange(
                    0,
                    m,
                ));
            }
        }
        self.insert_from(path, 0, data);
    }

    /// The recursive worker for `insert`: acts on the path suffix from `k`.
    fn insert_from(&mut self, path: &Vec<Position>, k: usize, data: char)
        requires
            node_wf(*old(self)),
            k < path@.len(),
            forall|m: int|
                0 < m < path@.len() - k ==> has_node(
                    *old(self),
                    #[trigger] path@.subrange(k as int, path@.len() as int).subrange(0, m),
                ),
            !has_node(*old(self), path@.subrange(k as int, path@.len() as int)),
            count(*old(self)) < usize::MAX,
            old(self).depth + (path@.len() - k) < usize::MAX,
        ensures
            node_wf(*final(self)),
            final(self).depth == old(self).depth,
            final(self).data == old(self).data,
            count(*final(self)) == count(*old(self)) + 1,
            final(self).subtree_size == old(self).subtree_size + 1,
            data_at(*final(self), path@.subrange(k as int, path@.len() as int)) == Some(data),
            has_node(*final(self), path@.subrange(k as int, path@.len() as int)),
            forall|p: Seq<Position>|
                p != path@.subrange(k as int, path@.len() as int) ==> #[trigger] data_at(
                    *final(self),
                    p,
                ) == data_at(*old(self), p),
        decreases path@.len() - k,
    {
        let ghost sfx = path@.subrange(k as int, path@.len() as int);
        let ghost pre = *self;
        let plen = path.len();
        let key = path[k];
        proof {
            assert(sfx[0] == key);
        }
        let n = self.children.len();
        let mut j: usize = 0;
        while j < n && pos_lt_exec(&self.children[j].0, &key)
            invariant
                *self == pre,
                n == self.children@.len(),
                j <= n,
                node_wf(*self),
                forall|i: int| 0 <= i < j ==> pos_lt((#[trigger] self.children@[i]).0, key),
            decreases n - j,
        {
            j += 1;
        }
        let found = j < n && self.children[j].0 == key;
        proof {
            if found {
                assert(self.children@[j as int].0 == key);
            } else {
                assert forall|i: int|
                    j <= i < n implies pos_lt(key, (#[trigger] self.children@[i]).0) by {
                    if i == j {
                        assert(!pos_lt(self.children@[i].0, key));
                        assert(self.children@[i].0 != key);
                    } else {
                        assert(!pos_lt(self.children@[j as int].0, key));
                        assert(pos_lt(self.children@[j as int].0, self.children@[i].0));
                    }
                }
                // no child carries the key at all
                if exists|i: int|
                    0 <= i < self.children@.len() && self.children@[i].0 == key {
                    let i = choose|i: int|
                        0 <= i < self.children@.len() && self.children@[i].0 == key;
                }
            }
        }
        self.subtree_size = self.subtree_size + 1;
        if k + 1 == plen {
            proof {
                // the path's last segment must be absent
                if found {
                    lemma_child_unique(pre, sfx, j as int);
                    assert(sfx.drop_first().len() == 0);
                }
                assert(!found);
            }
            let node = NodeCRDT::new(data, self.depth + 1);
            let ghost e = (key, node);
            let ghost mid = *self;
            self.children.insert(j, (key, node));
            proof {
                assert(self.children@ =~= pre.children@.insert(j as int, e));
                lemma_count_insert(pre.children@, j as int, e, 0);
                assert(count(*self) == count(pre) + 1);
                assert forall|a: int, b: int|
                    0 <= a < b < self.children@.len() implies pos_lt(
                    self.children@[a].0,
                    self.children@[b].0,
                ) by {
                    lemma_insert_pointwise(pre.children@, j as int, e, a);
                    lemma_insert_pointwise(pre.children@, j as int, e, b);
                }
                assert forall|i: int|
                    0 <= i < self.children@.len() implies node_wf(
                    (#[trigger] self.children@[i]).1,
                ) && self.children@[i].1.depth == self.depth + 1 by {
                    lemma_insert_pointwise(pre.children@, j as int, e, i);
                }
                assert(node_wf(*self));
                assert(self.children@[j as int].0 == sfx[0]);
                lemma_child_unique(*self, sfx, j as int);
                assert(data_at(node, sfx.drop_first()) == Some(data));
                assert(has_node(node, sfx.drop_first()));
                assert forall|p: Seq<Position>|
                    p != sfx implies #[trigger] data_at(*self, p) == data_at(pre, p) by {
                    if p.len() == 0 {
                    } else if p[0] == key {
                        // the fresh leaf holds nothing below itself, and the
                        // key was absent before
                        assert(p.len() >= 1 && p != sfx && sfx.len() == 1);
                        lemma_child_unique(*self, p, j as int);
                        assert(p.drop_first().len() >= 1 || p =~= sfx);
                        assert(data_at(node, p.drop_first()) == None::<char>);
                        assert(data_at(pre, p) == None::<char>);
                    } else {
                        lemma_lookup_frame_insert(pre.children@, j as int, e, *self, pre, p);
                    }
                }
            }
        } else {
            proof {
                // the one-segment prefix exists, so the child is present
                let one = sfx.subrange(0, 1);
                assert(has_node(pre, one));
                assert(one[0] == key);
                if !found {
                    assert(!has_node(pre, one));
                }
            }
            let mut entry = self.children.remove(j);
            proof {
                lemma_child_unique(pre, sfx, j as int);
                lemma_count_child(pre.children@, 0, j as int);
                assert(count(entry.1) < usize::MAX);
                assert forall|m: int|
                    0 < m < path@.len() - (k + 1) implies has_node(
                    entry.1,
                    #[trigger] path@.subrange(k as int + 1, path@.len() as int).subrange(0, m),
                ) by {
                    assert(has_node(pre, sfx.subrange(0, m + 1)));
                    assert(sfx.subrange(0, m + 1)[0] == key);
                    lemma_child_unique(pre, sfx.subrange(0, m + 1), j as int);
                    assert(sfx.subrange(0, m + 1).drop_first() =~= path@.subrange(
                        k as int + 1,
                        path@.len() as int,
                    ).subrange(0, m));
                }
                assert(sfx.drop_first() =~= path@.subrange(k as int + 1, path@.len() as int));
                assert(!has_node(entry.1, path@.subrange(k as int + 1, path@.len() as int)));
            }
            let ghost child_pre = entry.1;
            entry.1.insert_from(path, k + 1, data);
            let ghost child_post = entry.1;
            let ghost ekey = entry.0;
            proof {
                assert(ekey == key);
            }
            self.children.insert(j, entry);
            proof {
                assert(self.children@ =~= pre.children@.update(
                    j as int,
                    (key, child_post),
                ));
                lemma_count_update(
                    pre.children@,
                    self.children@,
                    j as int,
                    0,
                );
                assert(count(*self) == count(pre) + 1);
                assert forall|a: int, b: int|
                    0 <= a < b < self.children@.len() implies pos_lt(
                    self.children@[a].0,
                    self.children@[b].0,
                ) by {
                    assert(self.children@[a].0 == pre.children@[a].0);
                    assert(self.children@[b].0 == pre.children@[b].0);
                }
                assert forall|i: int|
                    0 <= i < self.children@.len() implies node_wf(
                    (#[trigger] self.children@[i]).1,
                ) && self.children@[i].1.depth == self.depth + 1 by {
                    if i != j {
                        assert(self.children@[i] == pre.children@[i]);
                    }
                }
                assert(node_wf(*self));
                lemma_child_unique(*self, sfx, j as int);
                assert(sfx.drop_first() =~= path@.subrange(k as int + 1, path@.len() as int));
                assert(data_at(*self, sfx) == Some(data));
                assert(has_node(*self, sfx));
                assert forall|p: Seq<Position>|
                    p != sfx implies #[trigger] data_at(*self, p) == data_at(pre, p) by {
                    if p.len() == 0 {
                    } else if p[0] == key {
                        lemma_child_unique(*self, p, j as int);
                        lemma_child_unique(pre, p, j as int);
                        if p.drop_first() == sfx.drop_first() {
                            assert forall|i: int| 0 <= i < p.len() implies p[i] == sfx[i] by {
                                if i > 0 {
                                    assert(p[i] == p.drop_first()[i - 1]);
                                    assert(sfx[i] == sfx.drop_first()[i - 1]);
                                }
                            }
                            assert(p =~= sfx);
                        }
                        assert(data_at(child_post, p.drop_first()) == data_at(
                            child_pre,
                            p.drop_first(),
                        ));
                    } else {
                        lemma_lookup_frame_update(pre.children@, j as int, *self, pre, p);
                    }
                }
            }
        }
    }
    /// Deletes the character at `path` below this node: the node there
    /// loses its character and, if it has no children, leaves the trie.
    pub fn remove(&mut self, path: &Vec<Position>)
        requires
            node_wf(*old(self)),
            path@.len() >= 1,
            has_node(*old(self), path@),
        ensures
            node_wf(*final(self)),
            final(self).depth == old(self).depth,
            final(self).data == old(self).data,
            data_at(*final(self), path@) == None::<char>,
            forall|p: Seq<Position>|
                p != path@ ==> #[trigger] data_at(*final(self), p) == data_at(*old(self), p),
            count(*old(self)) - 1 <= count(*final(self)) <= count(*old(self)),
    {
        proof {
            assert(path@.subrange(0, path@.len() as int) =~= path@);
        }
        self.remove_from(path, 0);
    }

    /// The recursive worker for `remove`: acts on the path suffix from `k`
    /// and reports whether a node actually left the trie.
    fn remove_from(&mut self, path: &Vec<Position>, k: usize) -> (shrunk: bool)
        requires
            node_wf(*old(self)),
            k < path@.len(),
            has_node(*old(self), path@.subrange(k as int, path@.len() as int)),
        ensures
            node_wf(*final(self)),
            final(self).depth == old(self).depth,
            final(self).data == old(self).data,
            data_at(*final(self), path@.subrange(k as int, path@.len() as int)) == None::<char>,
            forall|p: Seq<Position>|
                p != path@.subrange(k as int, path@.len() as int) ==> #[trigger] data_at(
                    *final(self),
                    p,
                ) == data_at(*old(self), p),
            shrunk ==> count(*final(self)) == count(*old(self)) - 1,
            !shrunk ==> count(*final(self)) == count(*old(self)),
        decreases path@.len() - k,
    {
        let ghost sfx = path@.subrange(k as int, path@.len() as int);
        let ghost pre = *self;
        let plen = path.len();
        let key = path[k];
        proof {
            assert(sfx[0] == key);
        }
        let n = self.children.len();
        let mut j: usize = 0;
        while j < n && !(self.children[j].0 == key)
            invariant
                *self == pre,
                n == self.children@.len(),
                j <= n,
                forall|i: int| 0 <= i < j ==> (#[trigger] self.children@[i]).0 != key,
            decreases n - j,
        {
            j += 1;
        }
        proof {
            if j == n {
                // the addressed node exists, so its first segment has a child
                if exists|i: int|
                    0 <= i < pre.children@.len() && pre.children@[i].0 == sfx[0] {
                    let i = choose|i: int|
                        0 <= i < pre.children@.len() && pre.children@[i].0 == sfx[0];
                }
                assert(!has_node(pre, sfx));
            }
            assert(j < n);
            assert(self.children@[j as int].0 == key);
            lemma_child_unique(pre, sfx, j as int);
        }
        if k + 1 == plen {
            if self.children[j].1.children.len() == 0 {
                // a childless node leaves the trie entirely
                let ghost victim = self.children@[j as int].1;
                self.children.remove(j);
                self.subtree_size = self.subtree_size - 1;
                proof {
                    assert(self.children@ =~= pre.children@.remove(j as int));
                    lemma_count_remove(pre.children@, j as int, 0);
                    assert(count(victim) == 1);
                    assert(count(*self) == count(pre) - 1);
                    assert forall|a: int, b: int|
                        0 <= a < b < self.children@.len() implies pos_lt(
                        self.children@[a].0,
                        self.children@[b].0,
                    ) by {
                        if b < j {
                        } else if a < j {
                            assert(self.children@[b] == pre.children@[b + 1]);
                        } else {
                            assert(self.children@[a] == pre.children@[a + 1]);
                            assert(self.children@[b] == pre.children@[b + 1]);
                        }
                    }
                    assert forall|i: int|
                        0 <= i < self.children@.len() implies node_wf(
                        (#[trigger] self.children@[i]).1,
                    ) && self.children@[i].1.depth == self.depth + 1 by {
                        if i < j {
                            assert(self.children@[i] == pre.children@[i]);
                        } else {
                            assert(self.children@[i] == pre.children@[i + 1]);
                        }
                    }
                    assert(node_wf(*self));
                    // no child carries the key any more
                    if exists|i: int|
                        0 <= i < self.children@.len() && self.children@[i].0 == sfx[0] {
                        let i = choose|i: int|
                            0 <= i < self.children@.len() && self.children@[i].0 == sfx[0];
                        if i < j {
                            assert(pre.children@[i].0 == key);
                            assert(pos_lt(pre.children@[i].0, pre.children@[j as int].0));
                        } else {
                            assert(pre.children@[i + 1].0 == key);
                            assert(pos_lt(pre.children@[j as int].0, pre.children@[i + 1].0));
                        }
                    }
                    assert(data_at(*self, sfx) == None::<char>);
                    assert forall|p: Seq<Position>|
                        p != sfx implies #[trigger] data_at(*self, p) == data_at(pre, p) by {
                        if p.len() == 0 {
                        } else if p[0] == key {
                            // below the removed childless node nothing was
                            // stored, and nothing is now
                            lemma_child_unique(pre, p, j as int);
                            if p.len() == 1 {
                                assert(p =~= sfx);
                            }
                            assert(p.drop_first().len() >= 1);
                            assert(data_at(victim, p.drop_first()) == None::<char>);
                            if exists|i: int|
                                0 <= i < self.children@.len() && self.children@[i].0 == p[0] {
                                let i = choose|i: int|
                                    0 <= i < self.children@.len() && self.children@[i].0 == p[0];
                                if i < j {
                                    assert(pre.children@[i].0 == key);
                                    assert(pos_lt(
                                        pre.children@[i].0,
                                        pre.children@[j as int].0,
                                    ));
                                } else {
                                    assert(pre.children@[i + 1].0 == key);
                                    assert(pos_lt(
                                        pre.children@[j as int].0,
                                        pre.children@[i + 1].0,
                                    ));
                                }
                            }
                            assert(data_at(*self, p) == None::<char>);
                        } else {
                            lemma_lookup_frame_remove(pre.children@, j as int, *self, pre, p);
                        }
                    }
                }
                true
            } else {
                // the node keeps its place but loses its character
                let mut entry = self.children.remove(j);
                let ghost child_pre = entry.1;
                entry.1.data = None;
                let ghost child_post = entry.1;
                self.children.insert(j, entry);
                proof {
                    assert(self.children@ =~= pre.children@.update(
                        j as int,
                        (key, child_post),
                    ));
                    assert(child_post.children@ == child_pre.children@);
                    assert(child_post.subtree_size == child_pre.subtree_size);
                    assert(count(child_post) == count(child_pre));
                    assert(node_wf(child_pre));
                    assert(node_wf(child_post));
                    lemma_count_update(pre.children@, self.children@, j as int, 0);
                    assert(count(*self) == count(pre));
                    assert forall|a: int, b: int|
                        0 <= a < b < self.children@.len() implies pos_lt(
                        self.children@[a].0,
                        self.children@[b].0,
                    ) by {
                        assert(self.children@[a].0 == pre.children@[a].0);
                        assert(self.children@[b].0 == pre.children@[b].0);
                    }
                    assert forall|i: int|
                        0 <= i < self.children@.len() implies node_wf(
                        (#[trigger] self.children@[i]).1,
                    ) && self.children@[i].1.depth == self.depth + 1 by {
                        if i != j {
                            assert(self.children@[i] == pre.children@[i]);
                        }
                    }
                    assert(node_wf(*self));
                    lemma_child_unique(*self, sfx, j as int);
                    assert(data_at(*self, sfx) == None::<char>);
                    assert forall|p: Seq<Position>|
                        p != sfx implies #[trigger] data_at(*self, p) == data_at(pre, p) by {
                        if p.len() == 0 {
                        } else if p[0] == key {
                            lemma_child_unique(*self, p, j as int);
                            lemma_child_unique(pre, p, j as int);
                            if p.len() == 1 {
                                assert(p =~= sfx);
                            }
                            assert(p.drop_first().len() >= 1);
                            lemma_data_at_same_children(child_post, child_pre, p.drop_first());
                        } else {
                            lemma_lookup_frame_update(pre.children@, j as int, *self, pre, p);
                        }
                    }
                }
                false
            }
        } else {
            let mut entry = self.children.remove(j);
            proof {
                assert(sfx.drop_first() =~= path@.subrange(k as int + 1, path@.len() as int));
                lemma_count_child(pre.children@, 0, j as int);
            }
            let ghost child_pre = entry.1;
            let sh = entry.1.remove_from(path, k + 1);
            let ghost child_post = entry.1;
            self.children.insert(j, entry);
            if sh {
                self.subtree_size = self.subtree_size - 1;
            }
            proof {
                assert(self.children@ =~= pre.children@.update(j as int, (key, child_post)));
                lemma_count_update(pre.children@, self.children@, j as int, 0);
                assert forall|a: int, b: int|
                    0 <= a < b < self.children@.len() implies pos_lt(
                    self.children@[a].0,
                    self.children@[b].0,
                ) by {
                    assert(self.children@[a].0 == pre.children@[a].0);
                    assert(self.children@[b].0 == pre.children@[b].0);
                }
                assert forall|i: int|
                    0 <= i < self.children@.len() implies node_wf(
                    (#[trigger] self.children@[i]).1,
                ) && self.children@[i].1.depth == self.depth + 1 by {
                    if i != j {
                        assert(self.children@[i] == pre.children@[i]);
                    }
                }
                assert(node_wf(*self));
                lemma_child_unique(*self, sfx, j as int);
                assert(data_at(*self, sfx) == None::<char>);
                assert forall|p: Seq<Position>|
                    p != sfx implies #[trigger] data_at(*self, p) == data_at(pre, p) by {
                    if p.len() == 0 {
                    } else if p[0] == key {
                        lemma_child_unique(*self, p, j as int);
                        lemma_child_unique(pre, p, j as int);
                        if p.drop_first() == sfx.drop_first() {
                            assert forall|i: int| 0 <= i < p.len() implies p[i] == sfx[i] by {
                                if i > 0 {
                                    assert(p[i] == p.drop_first()[i - 1]);
                                    assert(sfx[i] == sfx.drop_first()[i - 1]);
                                }
                            }
                            assert(p =~= sfx);
                        }
                        assert(data_at(child_post, p.drop_first()) == data_at(
                            child_pre,
                            p.drop_first(),
                        ));
                    } else {
                        lemma_lookup_frame_update(pre.children@, j as int, *self, pre, p);
                    }
                }
            }
            sh
        }
    }

    /// A depth-first walk over the subtree, starting at this node.
    pub fn iter<'a>(&'a self) -> (r: NodeCRDTIterator<'a>)
        ensures
            r.stack@.len() == 1,
            *r.stack@[0] == *self,
    {
        let mut stack: Vec<&'a NodeCRDT> = Vec::new();
        stack.push(self);
        NodeCRDTIterator { stack }
    }
}

/// An explicit-stack, depth-first, node-before-children walk of a trie.
pub struct NodeCRDTIterator<'a> {
    pub stack: Vec<&'a NodeCRDT>,
}

impl<'a> NodeCRDTIterator<'a> {
    /// Yields the next node: the top of the stack, whose children are
    /// queued up in position order behind it.
    pub fn next(&mut self) -> (r: Option<&'a NodeCRDT>)
        ensures
            old(self).stack@.len() == 0 ==> r is None && *final(self) == *old(self),
            old(self).stack@.len() > 0 ==> {
                let node = old(self).stack@[old(self).stack@.len() - 1];
                &&& r == Some(node)
                &&& final(self).stack@.len() == old(self).stack@.len() - 1
                    + node.children@.len()
                &&& forall|i: int|
                    0 <= i < old(self).stack@.len() - 1 ==> final(self).stack@[i] == old(
                        self,
                    ).stack@[i]
                &&& forall|i: int|
                    0 <= i < node.children@.len() ==> *(#[trigger] final(self).stack@[
                        old(self).stack@.len() - 1 + i]) == node.children@[node.children@.len()
                        - 1 - i].1
            },
    {
        if self.stack.len() == 0 {
            return None;
        }
        let node = match self.stack.pop() {
            Some(n) => n,
            None => {
                proof {
                    assert(false);
                }
                return None;
            },
        };
        let n = node.children.len();
        let mut i: usize = 0;
        while i < n
            invariant
                n == node.children@.len(),
                i <= n,
                self.stack@.len() == old(self).stack@.len() - 1 + i,
                old(self).stack@.len() >= 1,
                node == old(self).stack@[old(self).stack@.len() - 1],
                forall|k: int|
                    0 <= k < old(self).stack@.len() - 1 ==> self.stack@[k] == old(
                        self,
                    ).stack@[k],
                forall|k: int|
                    0 <= k < i ==> *(#[trigger] self.stack@[old(self).stack@.len() - 1 + k])
                        == node.children@[node.children@.len() - 1 - k].1,
            decreases n - i,
        {
            self.stack.push(&node.children[n - 1 - i].1);
            i += 1;
        }
        Some(node)
    }
}

/// Indexing across an insertion: positions shift by one past the point.
pub proof fn lemma_insert_pointwise(
    cs: Seq<(Position, NodeCRDT)>,
    j: int,
    e: (Position, NodeCRDT),
    i: int,
)
    requires
        0 <= j <= cs.len(),
        0 <= i < cs.len() + 1,
    ensures
        i < j ==> cs.insert(j, e)[i] == cs[i],
        i == j ==> cs.insert(j, e)[i] == e,
        i > j ==> cs.insert(j, e)[i] == cs[i - 1],
{
}

/// A lookup for a key other than the inserted one resolves as before.
pub proof fn lemma_lookup_frame_insert(
    cs: Seq<(Position, NodeCRDT)>,
    j: int,
    e: (Position, NodeCRDT),
    t_new: NodeCRDT,
    t_old: NodeCRDT,
    p: Seq<Position>,
)
    requires
        0 <= j <= cs.len(),
        t_old.children@ == cs,
        t_new.children@ == cs.insert(j, e),
        t_new.data == t_old.data,
        children_sorted(cs),
        children_sorted(cs.insert(j, e)),
        p.len() >= 1,
        p[0] != e.0,
    ensures
        data_at(t_new, p) == data_at(t_old, p),
{
    let ds = cs.insert(j, e);
    if exists|i: int| 0 <= i < cs.len() && cs[i].0 == p[0] {
        let i = choose|i: int| 0 <= i < cs.len() && cs[i].0 == p[0];
        lemma_child_unique(t_old, p, i);
        if i < j {
            assert(ds[i] == cs[i]);
            lemma_child_unique(t_new, p, i);
        } else {
            assert(ds[i + 1] == cs[i]);
            lemma_child_unique(t_new, p, i + 1);
        }
    } else {
        if exists|i: int| 0 <= i < ds.len() && ds[i].0 == p[0] {
            let i = choose|i: int| 0 <= i < ds.len() && ds[i].0 == p[0];
            if i < j {
                assert(cs[i].0 == p[0]);
            } else if i == j {
                assert(ds[i] == e);
            } else {
                assert(cs[i - 1].0 == p[0]);
            }
        }
    }
}

/// A lookup for a key other than the updated one resolves as before.
pub proof fn lemma_lookup_frame_update(
    cs: Seq<(Position, NodeCRDT)>,
    j: int,
    t_new: NodeCRDT,
    t_old: NodeCRDT,
    p: Seq<Position>,
)
    requires
        0 <= j < cs.len(),
        t_old.children@ == cs,
        t_new.children@.len() == cs.len(),
        forall|i: int| 0 <= i < cs.len() && i != j ==> t_new.children@[i] == cs[i],
        t_new.children@[j].0 == cs[j].0,
        t_new.data == t_old.data,
        children_sorted(cs),
        children_sorted(t_new.children@),
        p.len() >= 1,
        p[0] != cs[j].0,
    ensures
        data_at(t_new, p) == data_at(t_old, p),
{
    if exists|i: int| 0 <= i < cs.len() && cs[i].0 == p[0] {
        let i = choose|i: int| 0 <= i < cs.len() && cs[i].0 == p[0];
        lemma_child_unique(t_old, p, i);
        assert(i != j);
        assert(t_new.children@[i] == cs[i]);
        lemma_child_unique(t_new, p, i);
    } else {
        if exists|i: int| 0 <= i < t_new.children@.len() && t_new.children@[i].0 == p[0] {
            let i = choose|i: int|
                0 <= i < t_new.children@.len() && t_new.children@[i].0 == p[0];
            if i != j {
                assert(cs[i].0 == p[0]);
            }
        }
    }
}

/// Paths below a node resolve the same way through equal child lists.
pub proof fn lemma_data_at_same_children(c1: NodeCRDT, c2: NodeCRDT, p: Seq<Position>)
    requires
        c1.children@ == c2.children@,
        children_sorted(c1.children@),
        p.len() >= 1,
    ensures
        data_at(c1, p) == data_at(c2, p),
{
    if exists|i: int| 0 <= i < c1.children@.len() && c1.children@[i].0 == p[0] {
        let i = choose|i: int| 0 <= i < c1.children@.len() && c1.children@[i].0 == p[0];
        lemma_child_unique(c1, p, i);
        lemma_child_unique(c2, p, i);
    } else {
        if exists|i: int| 0 <= i < c2.children@.len() && c2.children@[i].0 == p[0] {
            let i = choose|i: int| 0 <= i < c2.children@.len() && c2.children@[i].0 == p[0];
            assert(c1.children@[i].0 == p[0]);
        }
    }
}

/// A lookup for a key other than the removed one resolves as before.
pub proof fn lemma_lookup_frame_remove(
    cs: Seq<(Position, NodeCRDT)>,
    j: int,
    t_new: NodeCRDT,
    t_old: NodeCRDT,
    p: Seq<Position>,
)
    requires
        0 <= j < cs.len(),
        t_old.children@ == cs,
        t_new.children@ == cs.remove(j),
        t_new.data == t_old.data,
        children_sorted(cs),
        p.len() >= 1,
        p[0] != cs[j].0,
    ensures
        data_at(t_new, p) == data_at(t_old, p),
{
    let ds = cs.remove(j);
    assert forall|a: int, b: int| 0 <= a < b < ds.len() implies pos_lt(ds[a].0, ds[b].0) by {
        if b < j {
        } else if a < j {
            assert(ds[b] == cs[b + 1]);
        } else {
            assert(ds[a] == cs[a + 1]);
            assert(ds[b] == cs[b + 1]);
        }
    }
    if exists|i: int| 0 <= i < cs.len() && cs[i].0 == p[0] {
        let i = choose|i: int| 0 <= i < cs.len() && cs[i].0 == p[0];
        lemma_child_unique(t_old, p, i);
        assert(i != j);
        if i < j {
            assert(ds[i] == cs[i]);
            lemma_child_unique(t_new, p, i);
        } else {
            assert(ds[i - 1] == cs[i]);
            lemma_child_unique(t_new, p, i - 1);
        }
    } else {
        if exists|i: int| 0 <= i < ds.len() && ds[i].0 == p[0] {
            let i = choose|i: int| 0 <= i < ds.len() && ds[i].0 == p[0];
            if i < j {
                assert(cs[i].0 == p[0]);
            } else {
                assert(cs[i + 1].0 == p[0]);
            }
        }
    }
}

/// Compares two trie positions; exact with respect to `pos_lt`.
pub fn pos_lt_exec(a: &Position, b: &Position) -> (r: bool)
    ensures
        r == pos_lt(*a, *b),
{
    if a.digit != b.digit {
        a.digit < b.digit
    } else if a.peer_id != b.peer_id {
        a.peer_id < b.peer_id
    } else {
        a.time < b.time
    }
}

} // verus!
