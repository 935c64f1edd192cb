//! Identifier segments and the total order on identifier paths.
//!
//! An identifier (`Vec<NodeKey>`) is a non-empty path of segments. Paths are
//! ordered lexicographically; segments compare by digit, then author, then
//! logical time. This order is the document's left-to-right order.

use vstd::prelude::*;

use crate::{Digit, PeerId, Timestamp, MAX_POSITION_DIGIT, MIN_POSITION_DIGIT, RESERVED_PEER};

verus! {

/// One segment of an identifier path.
#[derive(Clone, Copy, Debug, PartialEq, Eq, Structural)]
pub struct NodeKey {
    pub digit: Digit,
    pub peer_id: PeerId,
    pub time: Timestamp,
}

impl NodeKey {
    /// Builds a segment from its three components.
    pub fn new(digit: Digit, peer_id: PeerId, time: Timestamp) -> (r: Self)
        ensures
            r == (NodeKey { digit, peer_id, time }),
    {
        NodeKey { digit, peer_id, time }
    }
}

/// Strict order on segments: digit first, then author, then logical time.
pub open spec fn key_lt(a: NodeKey, b: NodeKey) -> bool {
    a.digit < b.digit
        || (a.digit == b.digit && a.peer_id < b.peer_id)
        || (a.digit == b.digit && a.peer_id == b.peer_id && a.time < b.time)
}

/// Strict lexicographic order on identifier paths: the first differing
/// segment decides; a proper prefix comes first.
pub open spec fn id_lt(a: Seq<NodeKey>, b: Seq<NodeKey>) -> bool
    decreases a.len(),
{
    if b.len() == 0 {
        false
    } else if a.len() == 0 {
        true
    } else if a[0] == b[0] {
        id_lt(a.drop_first(), b.drop_first())
    } else {
        key_lt(a[0], b[0])
    }
}

/// The begin sentinel's path: the single all-minimum segment.
pub open spec fn bos_id() -> Seq<NodeKey> {
    seq![NodeKey { digit: MIN_POSITION_DIGIT, peer_id: RESERVED_PEER, time: 0 }]
}

/// The end sentinel's path: the single segment with the largest digit.
pub open spec fn eos_id() -> Seq<NodeKey> {
    seq![NodeKey { digit: MAX_POSITION_DIGIT, peer_id: RESERVED_PEER, time: 0 }]
}

/// `id_lt` never relates a path to itself.
pub proof fn lemma_id_lt_irrefl(a: Seq<NodeKey>)
    ensures
        !id_lt(a, a),
    decreases a.len(),
{
    if a.len() > 0 {
        lemma_id_lt_irrefl(a.drop_first());
    }
}

/// Two distinct paths are ordered one way or the other, never both.
pub proof fn lemma_id_lt_trichotomy(a: Seq<NodeKey>, b: Seq<NodeKey>)
    ensures
        a == b || id_lt(a, b) || id_lt(b, a),
        !(id_lt(a, b) && id_lt(b, a)),
    decreases a.len(),
{
    if a.len() == 0 || b.len() == 0 {
        if a.len() == 0 && b.len() == 0 {
            assert(a =~= b);
        }
    } else if a[0] == b[0] {
        lemma_id_lt_trichotomy(a.drop_first(), b.drop_first());
        if a.drop_first() == b.drop_first() {
            assert forall|i: int| 0 <= i < a.len() implies a[i] == b[i] by {
                if i > 0 {
                    assert(a[i] == a.drop_first()[i - 1]);
                    assert(b[i] == b.drop_first()[i - 1]);
                }
            }
            assert(a =~= b);
        }
    }
}

/// `id_lt` is transitive.
pub proof fn lemma_id_lt_trans(a: Seq<NodeKey>, b: Seq<NodeKey>, c: Seq<NodeKey>)
    requires
        id_lt(a, b),
        id_lt(b, c),
    ensures
        id_lt(a, c),
    decreases a.len(),
{
    if a.len() == 0 || b.len() == 0 || c.len() == 0 {
    } else if a[0] == b[0] && b[0] == c[0] {
        lemma_id_lt_trans(a.drop_first(), b.drop_first(), c.drop_first());
    }
}

/// Compares two segments; exact with respect to `key_lt`.
pub fn key_lt_exec(a: &NodeKey, b: &NodeKey) -> (r: bool)
    ensures
        r == key_lt(*a, *b),
{
    if a.digit != b.digit {
        a.digit < b.digit
    } else if a.peer_id != b.peer_id {
        a.peer_id < b.peer_id
    } else {
        a.time < b.time
    }
}

/// Compares two identifier paths; exact with respect to `id_lt`.
pub fn id_lt_exec(a: &Vec<NodeKey>, b: &Vec<NodeKey>) -> (r: bool)
    ensures
        r == id_lt(a@, b@),
{
    let mut i: usize = 0;
    proof {
        assert(a@.skip(0) =~= a@);
        assert(b@.skip(0) =~= b@);
    }
    loop
        invariant
            i <= a.len(),
            i <= b.len(),
            forall|k: int| 0 <= k < i ==> a@[k] == b@[k],
            id_lt(a@, b@) == id_lt(a@.skip(i as int), b@.skip(i as int)),
        decreases a@.len() - i,
    {
        if i == b.len() {
            proof {
                assert(b@.skip(i as int).len() == 0);
            }
            return false;
        }
        if i == a.len() {
            proof {
                assert(a@.skip(i as int).len() == 0);
                assert(b@.skip(i as int).len() > 0);
            }
            return true;
        }
        let (ka, kb) = (a[i], b[i]);
        if ka.digit == kb.digit && ka.peer_id == kb.peer_id && ka.time == kb.time {
            proof {
                let sa = a@.skip(i as int);
                let sb = b@.skip(i as int);
                assert(sa[0] == a@[i as int]);
                assert(sb[0] == b@[i as int]);
                assert(a@[i as int] == b@[i as int]);
                assert(sa.drop_first() =~= a@.skip(i + 1));
                assert(sb.drop_first() =~= b@.skip(i + 1));
            }
            i += 1;
        } else {
            proof {
                let sa = a@.skip(i as int);
                let sb = b@.skip(i as int);
                assert(sa[0] == a@[i as int]);
                assert(sb[0] == b@[i as int]);
                assert(sa[0] != sb[0]);
            }
            return key_lt_exec(&ka, &kb);
        }
    }
}

/// Tests two identifier paths for equality.
pub fn id_eq_exec(a: &Vec<NodeKey>, b: &Vec<NodeKey>) -> (r: bool)
    ensures
        r == (a@ == b@),
{
    if a.len() != b.len() {
        proof {
            assert(a@ != b@);
        }
        return false;
    }
    let mut i: usize = 0;
    while i < a.len()
        invariant
            i <= a.len(),
            a.len() == b.len(),
            forall|k: int| 0 <= k < i ==> a@[k] == b@[k],
        decreases a@.len() - i,
    {
        let (ka, kb) = (a[i], b[i]);
        if !(ka.digit == kb.digit && ka.peer_id == kb.peer_id && ka.time == kb.time) {
            proof {
                assert(a@[i as int] != b@[i as int]);
            }
            return false;
        }
        i += 1;
    }
    proof {
        assert(a@ =~= b@);
    }
    true
}

} // verus!
