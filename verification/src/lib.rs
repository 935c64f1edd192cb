//! A sequence CRDT engine for collaborative plain-text editing.
//!
//! Replicas insert and delete single bytes concurrently; every edit is keyed
//! by a globally ordered identifier, so states exchanged in any order, with
//! duplication, converge to the same document.

pub mod allocator;
pub mod keys;
pub mod laws;
pub mod node_crdt;
pub mod numeric;
pub mod protocol;
pub mod side;
pub mod store;
pub mod tree_crdt;

use vstd::prelude::*;

verus! {

/// A digit of an identifier path.
pub type Digit = u32;

/// A replica identifier; `0` is reserved for the sentinel entries.
pub type PeerId = u8;

/// A logical timestamp drawn from a replica's local clock.
pub type Timestamp = u64;

/// A digit of a trie position (the trie-shaped store's name for a digit).
pub type IdType = u32;

/// A level in the trie-shaped store.
pub type Depth = usize;

/// Smallest digit; the begin sentinel's only digit.
pub const MIN_POSITION_DIGIT: Digit = 0;

/// Largest digit; the end sentinel's only digit.
pub const MAX_POSITION_DIGIT: Digit = 0xffff_ffff;

/// Peer number owned by the two sentinel entries.
pub const RESERVED_PEER: PeerId = 0;

/// Default cap on how far one allocation may step into a free interval.
pub const DEFAULT_BOUNDARY: Digit = 16;

/// Relies on String::push: appends exactly the one character.
#[verifier::external_body]
pub(crate) fn string_push(s: &mut String, c: char)
    ensures
        final(s)@ == old(s)@.push(c),
{
    s.push(c);
}

} // verus!
