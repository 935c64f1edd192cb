//! The trie-shaped sequence store, bounded by two sentinel branches.

use vstd::prelude::*;

use crate::node_crdt::{
    chars, chars_from, count, data_at, has_node, node_wf, NodeCRDT, Position,
};
use crate::string_push;
use crate::{MAX_POSITION_DIGIT, MIN_POSITION_DIGIT, RESERVED_PEER};

verus! {

/// A trie-shaped document: a root node whose children hold the content and
/// whose data slot stays empty.
pub struct TreeCRDT {
    pub root: NodeCRDT,
}

/// Well-formedness of the trie store: a sound root at level zero that
/// carries no character of its own.
pub open spec fn tree_wf(t: TreeCRDT) -> bool {
    &&& node_wf(t.root)
    &&& t.root.data is None
    &&& t.root.depth == 0
}

impl Default for TreeCRDT {
    /// An empty trie document: the root with the two sentinel branches.
    fn default() -> (r: Self)
        ensures
            tree_wf(r),
            chars(r.root) =~= Seq::<char>::empty(),
            has_node(r.root, seq![bos_position()]),
            has_node(r.root, seq![eos_position()]),
    {
        let bos = NodeCRDT {
            data: None,
            children: Vec::new(),
            depth: 1,
            subtree_size: 1,
        };
        let eos = NodeCRDT {
            data: None,
            children: Vec::new(),
            depth: 1,
            subtree_size: 1,
        };
        let mut children: Vec<(Position, NodeCRDT)> = Vec::new();
        children.push((Position { digit: MIN_POSITION_DIGIT, peer_id: RESERVED_PEER, time: 0 }, bos));
        children.push((Position { digit: MAX_POSITION_DIGIT, peer_id: RESERVED_PEER, time: 0 }, eos));
        let root = NodeCRDT { data: None, children, depth: 0, subtree_size: 3 };
        let r = TreeCRDT { root };
        proof {
            assert(count(r.root.children@[0].1) == 1);
            assert(count(r.root.children@[1].1) == 1);
            assert(crate::node_crdt::count_from(r.root.children@, 2) == 0);
            assert(crate::node_crdt::count_from(r.root.children@, 1) == 1);
            assert(crate::node_crdt::count_from(r.root.children@, 0) == 2);
            assert(count(r.root) == 3);
            assert(node_wf(r.root.children@[0].1));
            assert(node_wf(r.root.children@[1].1));
            assert(chars(r.root.children@[0].1) =~= Seq::<char>::empty());
            assert(chars(r.root.children@[1].1) =~= Seq::<char>::empty());
            assert(chars_from(r.root.children@, 2) =~= Seq::<char>::empty());
            assert(chars_from(r.root.children@, 1) =~= Seq::<char>::empty());
            assert(chars_from(r.root.children@, 0) =~= Seq::<char>::empty());
            assert(chars(r.root) =~= Seq::<char>::empty());
            assert(r.root.children@[0].0 == bos_position());
            assert(has_node(r.root, seq![bos_position()])) by {
                crate::node_crdt::lemma_child_unique(r.root, seq![bos_position()], 0);
                assert(seq![bos_position()].drop_first() =~= Seq::<Position>::empty());
            }
            assert(has_node(r.root, seq![eos_position()])) by {
                crate::node_crdt::lemma_child_unique(r.root, seq![eos_position()], 1);
                assert(seq![eos_position()].drop_first() =~= Seq::<Position>::empty());
            }
        }
        r
    }
}

/// The begin sentinel's trie position.
pub open spec fn bos_position() -> Position {
    Position { digit: MIN_POSITION_DIGIT, peer_id: RESERVED_PEER, time: 0 }
}

/// The end sentinel's trie position.
pub open spec fn eos_position() -> Position {
    Position { digit: MAX_POSITION_DIGIT, peer_id: RESERVED_PEER, time: 0 }
}

impl TreeCRDT {
    /// The begin sentinel's one-segment path.
    pub fn bos_path(&self) -> (r: Vec<Position>)
        ensures
            r@ =~= seq![bos_position()],
    {
        let mut r: Vec<Position> = Vec::new();
        r.push(Position { digit: MIN_POSITION_DIGIT, peer_id: RESERVED_PEER, time: 0 });
        r
    }

    /// The end sentinel's one-segment path.
    pub fn eos_path(&self) -> (r: Vec<Position>)
        ensures
            r@ =~= seq![eos_position()],
    {
        let mut r: Vec<Position> = Vec::new();
        r.push(Position { digit: MAX_POSITION_DIGIT, peer_id: RESERVED_PEER, time: 0 });
        r
    }

    /// Stores `data` at `path`; the path's proper prefixes must already
    /// have nodes and the path itself must be free.
    pub fn insert(&mut self, path: &Vec<Position>, data: char)
        requires
            tree_wf(*old(self)),
            path@.len() >= 1,
            forall|j: int| 0 < j < path@.len() ==> has_node(old(self).root, path@.subrange(0, j)),
            !has_node(old(self).root, path@),
            count(old(self).root) < usize::MAX,
            path@.len() < usize::MAX,
        ensures
            tree_wf(*final(self)),
            data_at(final(self).root, path@) == Some(data),
            has_node(final(self).root, path@),
            forall|p: Seq<Position>|
                p != path@ ==> #[trigger] data_at(final(self).root, p) == data_at(
                    old(self).root,
                    p,
                ),
            count(final(self).root) == count(old(self).root) + 1,
    {
        self.root.insert(path, data);
    }

    /// Deletes the character at `path`; a node must exist there.
    pub fn remove(&mut self, path: &Vec<Position>)
        requires
            tree_wf(*old(self)),
            path@.len() >= 1,
            has_node(old(self).root, path@),
        ensures
            tree_wf(*final(self)),
            data_at(final(self).root, path@) == None::<char>,
            forall|p: Seq<Position>|
                p != path@ ==> #[trigger] data_at(final(self).root, p) == data_at(
                    old(self).root,
                    p,
                ),
            count(old(self).root) - 1 <= count(final(self).root) <= count(old(self).root),
    {
        self.root.remove(path);
    }

    /// The stored characters in position order.
    pub fn collect_string(&self) -> (r: String)
        ensures
            r@ == chars(self.root),
    {
        let mut out = String::new();
        collect_node(&self.root, &mut out);
        out
    }
}

/// Writes the characters of `t`'s subtree, in order, onto `out`.
fn collect_node(t: &NodeCRDT, out: &mut String)
    ensures
        final(out)@ == old(out)@ + chars(*t),
    decreases *t,
{
    let ghost base = out@;
    match t.data {
        Some(c) => {
            string_push(out, c);
        },
        None => {},
    }
    let ghost head = out@;
    let n = t.children.len();
    let mut i: usize = 0;
    while i < n
        invariant
            n == t.children@.len(),
            i <= n,
            out@ + chars_from(t.children@, i as int) == head + chars_from(t.children@, 0),
        decreases n - i,
    {
        collect_node(&t.children[i].1, out);
        i += 1;
    }
    proof {
        assert(chars_from(t.children@, n as int) =~= Seq::<char>::empty());
        assert(out@ + chars_from(t.children@, n as int) =~= out@);
        assert(out@ =~= base + chars(*t));
    }
}

} // verus!
