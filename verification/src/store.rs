//! The ordered sequence store: the document itself.
//!
//! A store is a list of `(identifier, payload byte)` entries, strictly
//! ordered by the identifier order and permanently bounded by the two
//! sentinel entries, together with the tombstone set of identifiers that
//! have been deleted and may never return.

use vstd::prelude::*;

use crate::allocator::allocate_between;
use crate::keys::{bos_id, eos_id, id_eq_exec, id_lt, id_lt_exec, lemma_id_lt_trichotomy, NodeKey};
use crate::numeric::sep;
use crate::numeric::sep_exec;
use crate::side::Side;
use crate::string_push;
use crate::{Timestamp, DEFAULT_BOUNDARY, MAX_POSITION_DIGIT, MIN_POSITION_DIGIT, RESERVED_PEER};

verus! {

/// The ways a store operation can be refused. The store is left unchanged
/// whenever one of these is returned.
#[derive(Clone, Copy, Debug, PartialEq, Eq, Structural)]
pub enum StoreError {
    /// An offset lies beyond the live document.
    PositionOutOfRange,
    /// The entry addressed may never be removed: it is a sentinel.
    InvalidRemoval,
    /// A local insert produced an identifier the store already holds.
    DuplicateIdentifier,
    /// A remote delete names an identifier that is neither live nor
    /// tombstoned.
    IdentifierNotFound,
    /// A remote identifier does not lie strictly between the sentinels.
    MalformedIdentifier,
    /// An internal consistency violation: the two neighbours of the
    /// requested offset leave no free slot at any depth, so no identifier
    /// can be allocated between them. This indicates replica-state
    /// divergence, not bad input, and callers should treat it as fatal.
    InternalViolation,
}

/// A sequence of identifiers in strictly ascending order.
pub open spec fn sorted_strict(s: Seq<Seq<NodeKey>>) -> bool {
    forall|i: int, j: int| 0 <= i < j < s.len() ==> id_lt(s[i], s[j])
}

/// Whether an entry list holds the identifier `id`.
pub open spec fn has_id(s: Seq<(Seq<NodeKey>, u8)>, id: Seq<NodeKey>) -> bool {
    exists|i: int| 0 <= i < s.len() && s[i].0 == id
}

/// The payload an entry list associates with `id`.
pub open spec fn payload_of(s: Seq<(Seq<NodeKey>, u8)>, id: Seq<NodeKey>) -> u8 {
    s[choose|i: int| 0 <= i < s.len() && s[i].0 == id].1
}

/// An identifier fit to be stored: strictly inside the sentinel bounds.
pub open spec fn in_bounds(id: Seq<NodeKey>) -> bool {
    id_lt(bos_id(), id) && id_lt(id, eos_id())
}

/// The machine-limit conditions under which an allocation between two
/// neighbours can run: a free slot exists at some depth, and both paths
/// leave room for one more depth in a `usize`.
pub open spec fn alloc_ready(p: Seq<NodeKey>, q: Seq<NodeKey>) -> bool {
    sep(p, q) && p.len() < usize::MAX - 1 && q.len() < usize::MAX - 1
}

/// The identifier-and-payload pairs held by a vector of entries.
pub open spec fn entry_views(v: Seq<(Vec<NodeKey>, u8)>) -> Seq<(Seq<NodeKey>, u8)> {
    v.map_values(|e: (Vec<NodeKey>, u8)| (e.0@, e.1))
}

/// The identifiers of an entry list, in order.
pub open spec fn ids_of(s: Seq<(Seq<NodeKey>, u8)>) -> Seq<Seq<NodeKey>> {
    s.map_values(|e: (Seq<NodeKey>, u8)| e.0)
}

/// What a persisted blob must describe for `Doc::load_state` to accept it:
/// exactly the shape every well-formed store exports.
pub open spec fn load_ok(es: Seq<(Seq<NodeKey>, u8)>, ts: Seq<Seq<NodeKey>>) -> bool {
    &&& es.len() >= 2
    &&& es[0].0 == bos_id()
    &&& es[es.len() - 1].0 == eos_id()
    &&& sorted_strict(ids_of(es))
    &&& sorted_strict(ts)
    &&& forall|i: int| 0 <= i < ts.len() ==> in_bounds(#[trigger] ts[i])
}

/// The document store of one replica.
#[derive(Clone)]
pub struct Doc {
    id_list: Vec<(Vec<NodeKey>, u8)>,
    cmentary: Vec<Vec<NodeKey>>,
    strategy: Vec<Option<bool>>,
    boundary: u32,
}

impl Doc {
    /// The store's entries: identifier paths with their payload bytes, in
    /// document order, sentinels included.
    pub closed spec fn entries(self) -> Seq<(Seq<NodeKey>, u8)> {
        entry_views(self.id_list@)
    }

    /// The identifiers of `entries`, in document order.
    pub open spec fn ids(self) -> Seq<Seq<NodeKey>> {
        ids_of(self.entries())
    }

    /// The live document content: the payload bytes between the sentinels.
    pub open spec fn content(self) -> Seq<u8> {
        self.entries().subrange(1, self.entries().len() - 1).map_values(
            |e: (Seq<NodeKey>, u8)| e.1,
        )
    }

    /// The tombstoned identifiers, in ascending order.
    pub closed spec fn tomb_seq(self) -> Seq<Seq<NodeKey>> {
        id_views(self.cmentary@)
    }

    /// Whether `id` is tombstoned.
    pub open spec fn has_tomb(self, id: Seq<NodeKey>) -> bool {
        self.tomb_seq().contains(id)
    }

    /// The configured cap on allocation steps.
    pub closed spec fn boundary_spec(self) -> u32 {
        self.boundary
    }

    /// The per-depth growth strategies fixed so far.
    pub closed spec fn strategy_spec(self) -> Seq<Option<bool>> {
        self.strategy@
    }

    /// Well-formedness: the entries are strictly ordered and bounded by the
    /// sentinels, the tombstones are a strictly ordered set that never
    /// holds a sentinel, and the boundary is usable.
    pub open spec fn wf(self) -> bool {
        &&& self.entries().len() >= 2
        &&& sorted_strict(self.ids())
        &&& self.ids()[0] == bos_id()
        &&& self.ids()[self.entries().len() - 1] == eos_id()
        &&& sorted_strict(self.tomb_seq())
        &&& forall|i: int|
            0 <= i < self.tomb_seq().len() ==> in_bounds(#[trigger] self.tomb_seq()[i])
        &&& 1 <= self.boundary_spec() <= 0xffff_fff0
    }

    /// A fresh, empty document: the two sentinels and nothing else.
    pub fn new() -> (r: Self)
        ensures
            r.wf(),
            r.entries() =~= seq![(bos_id(), 0u8), (eos_id(), 0u8)],
            r.tomb_seq() =~= Seq::<Seq<NodeKey>>::empty(),
            r.boundary_spec() == DEFAULT_BOUNDARY,
            r.strategy_spec() =~= Seq::<Option<bool>>::empty(),
    {
        Self::with_boundary(DEFAULT_BOUNDARY)
    }

    /// An empty document with a chosen allocation boundary.
    pub fn with_boundary(boundary: u32) -> (r: Self)
        requires
            1 <= boundary <= 0xffff_fff0,
        ensures
            r.wf(),
            r.entries() =~= seq![(bos_id(), 0u8), (eos_id(), 0u8)],
            r.tomb_seq() =~= Seq::<Seq<NodeKey>>::empty(),
            r.boundary_spec() == boundary,
            r.strategy_spec() =~= Seq::<Option<bool>>::empty(),
    {
        let mut bos: Vec<NodeKey> = Vec::new();
        bos.push(NodeKey { digit: MIN_POSITION_DIGIT, peer_id: RESERVED_PEER, time: 0 });
        let mut eos: Vec<NodeKey> = Vec::new();
        eos.push(NodeKey { digit: MAX_POSITION_DIGIT, peer_id: RESERVED_PEER, time: 0 });
        proof {
            assert(bos@ =~= bos_id());
            assert(eos@ =~= eos_id());
        }
        let mut id_list: Vec<(Vec<NodeKey>, u8)> = Vec::new();
        id_list.push((bos, 0));
        id_list.push((eos, 0));
        let r = Doc { id_list, cmentary: Vec::new(), strategy: Vec::new(), boundary };
        proof {
            assert(r.entries() =~= seq![(bos_id(), 0u8), (eos_id(), 0u8)]);
            assert(r.ids() =~= seq![bos_id(), eos_id()]);
        }
        r
    }

    /// The begin sentinel's identifier.
    pub fn bos_id(&self) -> (r: Vec<NodeKey>)
        ensures
            r@ == bos_id(),
    {
        let mut bos: Vec<NodeKey> = Vec::new();
        bos.push(NodeKey { digit: MIN_POSITION_DIGIT, peer_id: RESERVED_PEER, time: 0 });
        proof {
            assert(bos@ =~= bos_id());
        }
        bos
    }

    /// The end sentinel's identifier.
    pub fn eos_id(&self) -> (r: Vec<NodeKey>)
        ensures
            r@ == eos_id(),
    {
        let mut eos: Vec<NodeKey> = Vec::new();
        eos.push(NodeKey { digit: MAX_POSITION_DIGIT, peer_id: RESERVED_PEER, time: 0 });
        proof {
            assert(eos@ =~= eos_id());
        }
        eos
    }

    /// How many live (non-sentinel) entries the document holds.
    pub fn live_len(&self) -> (r: usize)
        requires
            self.wf(),
        ensures
            r == self.entries().len() - 2,
    {
        self.id_list.len() - 2
    }

    /// Finds `id` in the entry list: either its index, or the index where
    /// it would have to be inserted to keep the order.
    fn locate(&self, id: &Vec<NodeKey>) -> (r: (bool, usize))
        requires
            self.wf(),
        ensures
            r.1 <= self.entries().len(),
            r.0 ==> r.1 < self.entries().len() && self.entries()[r.1 as int].0 == id@,
            !r.0 ==> forall|k: int| 0 <= k < r.1 ==> id_lt(#[trigger] self.ids()[k], id@),
            !r.0 ==> forall|k: int|
                r.1 <= k < self.entries().len() ==> id_lt(id@, #[trigger] self.ids()[k]),
            r.0 == has_id(self.entries(), id@),
    {
        let n = self.id_list.len();
        let mut lo: usize = 0;
        let mut hi: usize = n;
        while lo < hi
            invariant
                self.wf(),
                lo <= hi <= n,
                n == self.entries().len(),
                forall|k: int| 0 <= k < lo ==> id_lt(#[trigger] self.ids()[k], id@),
                forall|k: int| hi <= k < n ==> !id_lt(#[trigger] self.ids()[k], id@),
            decreases hi - lo,
        {
            let mid = lo + (hi - lo) / 2;
            if id_lt_exec(&self.id_list[mid].0, id) {
                proof {
                    assert forall|k: int| 0 <= k < mid + 1 implies id_lt(
                        #[trigger] self.ids()[k],
                        id@,
                    ) by {
                        if k < mid {
                            crate::keys::lemma_id_lt_trans(self.ids()[k], self.ids()[mid as int], id@);
                        }
                    }
                }
                lo = mid + 1;
            } else {
                proof {
                    assert forall|k: int| mid <= k < n implies !id_lt(
                        #[trigger] self.ids()[k],
                        id@,
                    ) by {
                        if k > mid {
                            lemma_id_lt_trichotomy(self.ids()[k], id@);
                            if id_lt(self.ids()[k], id@) {
                                crate::keys::lemma_id_lt_trans(
                                    self.ids()[mid as int],
                                    self.ids()[k],
                                    id@,
                                );
                            }
                        }
                    }
                }
                hi = mid;
            }
        }
        if lo < n && id_eq_exec(&self.id_list[lo].0, id) {
            proof {
                assert(self.entries()[lo as int].0 == id@);
                assert(has_id(self.entries(), id@));
            }
            (true, lo)
        } else {
            proof {
                assert forall|k: int| lo <= k < n implies id_lt(id@, #[trigger] self.ids()[k]) by {
                    lemma_id_lt_trichotomy(self.ids()[k], id@);
                    if k > lo {
                        if self.ids()[k] == id@ {
                            lemma_id_lt_trichotomy(self.ids()[lo as int], id@);
                            crate::keys::lemma_id_lt_trans(
                                id@,
                                self.ids()[lo as int],
                                self.ids()[k],
                            );
                            crate::keys::lemma_id_lt_irrefl(id@);
                        }
                    }
                }
                if has_id(self.entries(), id@) {
                    let i = choose|i: int|
                        0 <= i < self.entries().len() && self.entries()[i].0 == id@;
                    assert(self.ids()[i] == id@);
                    if i < lo {
                        crate::keys::lemma_id_lt_irrefl(id@);
                    } else {
                        crate::keys::lemma_id_lt_irrefl(id@);
                    }
                }
            }
            (false, lo)
        }
    }

    /// Applies a remote insert: stores `(id, data)` unless the identifier
    /// is already present (a duplicate delivery) or lies outside the
    /// sentinel bounds (a malformed identifier).
    pub fn insert_id(&mut self, id: Vec<NodeKey>, data: u8) -> (r: Result<(), StoreError>)
        requires
            old(self).wf(),
        ensures
            final(self).wf(),
            r is Ok <==> in_bounds(id@) && !has_id(old(self).entries(), id@),
            r == Err::<(), StoreError>(StoreError::MalformedIdentifier) <==> !in_bounds(id@),
            r == Err::<(), StoreError>(StoreError::DuplicateIdentifier) <==> in_bounds(id@)
                && has_id(old(self).entries(), id@),
            r is Err ==> *final(self) == *old(self),
            r is Ok ==> exists|i: int|
                0 < i < old(self).entries().len() && final(self).entries() == old(self).entries().insert(i, (id@, data)),
            final(self).tomb_seq() == old(self).tomb_seq(),
            final(self).boundary_spec() == old(self).boundary_spec(),
            final(self).strategy_spec() == old(self).strategy_spec(),
    {
        let bos = self.bos_id();
        let eos = self.eos_id();
        if !(id_lt_exec(&bos, &id) && id_lt_exec(&id, &eos)) {
            return Err(StoreError::MalformedIdentifier);
        }
        let (found, idx) = self.locate(&id);
        if found {
            return Err(StoreError::DuplicateIdentifier);
        }
        proof {
            // the sentinels pin the insertion point strictly inside
            assert(self.ids()[0] == bos_id());
            assert(self.ids()[self.entries().len() - 1] == eos_id());
            if idx == 0 {
                assert(id_lt(id@, self.ids()[0]));
                crate::keys::lemma_id_lt_trans(bos_id(), id@, bos_id());
                crate::keys::lemma_id_lt_irrefl(bos_id());
            }
            if idx == self.entries().len() {
                assert(id_lt(self.ids()[self.entries().len() - 1], id@));
                crate::keys::lemma_id_lt_trans(eos_id(), id@, eos_id());
                crate::keys::lemma_id_lt_irrefl(eos_id());
            }
        }
        let ghost pre = *self;
        self.id_list.insert(idx, (id, data));
        proof {
            assert(self.entries() =~= pre.entries().insert(idx as int, (id@, data)));
            assert(self.ids() =~= pre.ids().insert(idx as int, id@));
            lemma_sorted_insert(pre.ids(), idx as int, id@);
            assert(self.ids()[0] == bos_id());
            assert(self.ids()[self.entries().len() - 1] == eos_id());
            assert(self.tomb_seq() == pre.tomb_seq());
        }
        Ok(())
    }
    /// Finds `id` among the tombstones, or the index where it would keep
    /// the tombstone order.
    fn tomb_locate(&self, id: &Vec<NodeKey>) -> (r: (bool, usize))
        requires
            self.wf(),
        ensures
            r.1 <= self.tomb_seq().len(),
            r.0 ==> r.1 < self.tomb_seq().len() && self.tomb_seq()[r.1 as int] == id@,
            !r.0 ==> forall|k: int| 0 <= k < r.1 ==> id_lt(#[trigger] self.tomb_seq()[k], id@),
            !r.0 ==> forall|k: int|
                r.1 <= k < self.tomb_seq().len() ==> id_lt(id@, #[trigger] self.tomb_seq()[k]),
            r.0 == self.has_tomb(id@),
    {
        let n = self.cmentary.len();
        let mut lo: usize = 0;
        let mut hi: usize = n;
        while lo < hi
            invariant
                self.wf(),
                lo <= hi <= n,
                n == self.tomb_seq().len(),
                forall|k: int| 0 <= k < lo ==> id_lt(#[trigger] self.tomb_seq()[k], id@),
                forall|k: int| hi <= k < n ==> !id_lt(#[trigger] self.tomb_seq()[k], id@),
            decreases hi - lo,
        {
            let mid = lo + (hi - lo) / 2;
            if id_lt_exec(&self.cmentary[mid], id) {
                proof {
                    assert forall|k: int| 0 <= k < mid + 1 implies id_lt(
                        #[trigger] self.tomb_seq()[k],
                        id@,
                    ) by {
                        if k < mid {
                            crate::keys::lemma_id_lt_trans(
                                self.tomb_seq()[k],
                                self.tomb_seq()[mid as int],
                                id@,
                            );
                        }
                    }
                }
                lo = mid + 1;
            } else {
                proof {
                    assert forall|k: int| mid <= k < n implies !id_lt(
                        #[trigger] self.tomb_seq()[k],
                        id@,
                    ) by {
                        if k > mid {
                            lemma_id_lt_trichotomy(self.tomb_seq()[k], id@);
                            if id_lt(self.tomb_seq()[k], id@) {
                                crate::keys::lemma_id_lt_trans(
                                    self.tomb_seq()[mid as int],
                                    self.tomb_seq()[k],
                                    id@,
                                );
                            }
                        }
                    }
                }
                hi = mid;
            }
        }
        if lo < n && id_eq_exec(&self.cmentary[lo], id) {
            proof {
                assert(self.tomb_seq()[lo as int] == id@);
                assert(self.has_tomb(id@));
            }
            (true, lo)
        } else {
            proof {
                assert forall|k: int| lo <= k < n implies id_lt(
                    id@,
                    #[trigger] self.tomb_seq()[k],
                ) by {
                    lemma_id_lt_trichotomy(self.tomb_seq()[k], id@);
                    if self.tomb_seq()[k] == id@ && k > lo {
                        lemma_id_lt_trichotomy(self.tomb_seq()[lo as int], id@);
                        crate::keys::lemma_id_lt_trans(
                            id@,
                            self.tomb_seq()[lo as int],
                            self.tomb_seq()[k],
                        );
                        crate::keys::lemma_id_lt_irrefl(id@);
                    }
                }
                if self.has_tomb(id@) {
                    let i = choose|i: int|
                        0 <= i < self.tomb_seq().len() && self.tomb_seq()[i] == id@;
                    crate::keys::lemma_id_lt_irrefl(id@);
                }
            }
            (false, lo)
        }
    }

    /// Adds `id` to the tombstone set; a sentinel is refused, an identifier
    /// already tombstoned is left as it is.
    pub fn insert_cmentary(&mut self, id: Vec<NodeKey>) -> (r: Result<(), StoreError>)
        requires
            old(self).wf(),
        ensures
            final(self).wf(),
            r is Ok <==> in_bounds(id@),
            r == Err::<(), StoreError>(StoreError::InvalidRemoval) <==> !in_bounds(id@),
            r is Err ==> *final(self) == *old(self),
            r is Ok ==> forall|x: Seq<NodeKey>|
                final(self).has_tomb(x) <==> old(self).has_tomb(x) || x == id@,
            final(self).entries() == old(self).entries(),
            final(self).boundary_spec() == old(self).boundary_spec(),
            final(self).strategy_spec() == old(self).strategy_spec(),
    {
        let bos = self.bos_id();
        let eos = self.eos_id();
        if !(id_lt_exec(&bos, &id) && id_lt_exec(&id, &eos)) {
            return Err(StoreError::InvalidRemoval);
        }
        let (found, tidx) = self.tomb_locate(&id);
        if found {
            proof {
                assert(self.tomb_seq()[tidx as int] == id@);
                assert(self.has_tomb(id@));
            }
            return Ok(());
        }
        let ghost pre = *self;
        self.cmentary.insert(tidx, id);
        proof {
            assert(self.tomb_seq() =~= pre.tomb_seq().insert(tidx as int, id@));
            lemma_sorted_insert(pre.tomb_seq(), tidx as int, id@);
            assert forall|x: Seq<NodeKey>|
                self.has_tomb(x) <==> pre.has_tomb(x) || x == id@ by {
                lemma_membership_insert(pre.tomb_seq(), tidx as int, id@, x);
            }
            assert(self.entries() == pre.entries());
        }
        Ok(())
    }

    /// Applies a remote delete: the identifier is tombstoned and, if live,
    /// removed. Deleting an already-tombstoned identifier again is a
    /// successful no-op; deleting a sentinel is refused; an identifier that
    /// is neither live nor tombstoned is unknown.
    pub fn remove_id(&mut self, id: Vec<NodeKey>) -> (r: Result<(), StoreError>)
        requires
            old(self).wf(),
        ensures
            final(self).wf(),
            r is Ok <==> in_bounds(id@) && (has_id(old(self).entries(), id@) || old(self).has_tomb(id@)),
            r == Err::<(), StoreError>(StoreError::InvalidRemoval) <==> !in_bounds(id@),
            r == Err::<(), StoreError>(StoreError::IdentifierNotFound) <==> in_bounds(id@)
                && !has_id(old(self).entries(), id@) && !old(self).has_tomb(id@),
            r is Err ==> *final(self) == *old(self),
            r is Ok ==> forall|x: Seq<NodeKey>|
                final(self).has_tomb(x) <==> old(self).has_tomb(x) || x == id@,
            r is Ok && has_id(old(self).entries(), id@) ==> exists|i: int|
                0 < i < old(self).entries().len() - 1 && old(self).entries()[i].0 == id@ && final(self).entries() == old(self).entries().remove(i),
            r is Ok && !has_id(old(self).entries(), id@) ==> final(self).entries() == old(self).entries(),
            final(self).boundary_spec() == old(self).boundary_spec(),
            final(self).strategy_spec() == old(self).strategy_spec(),
    {
        let bos = self.bos_id();
        let eos = self.eos_id();
        if !(id_lt_exec(&bos, &id) && id_lt_exec(&id, &eos)) {
            return Err(StoreError::InvalidRemoval);
        }
        let (found, idx) = self.locate(&id);
        if found {
            proof {
                // the found entry is interior: a sentinel's identifier
                // differs from a strictly bounded one
                crate::keys::lemma_id_lt_irrefl(id@);
                if idx == 0 {
                    assert(self.entries()[0].0 == bos_id());
                }
                if idx == self.entries().len() - 1 {
                    assert(self.entries()[self.entries().len() - 1].0 == eos_id());
                }
            }
            let ghost pre = *self;
            self.id_list.remove(idx);
            proof {
                assert(self.entries() =~= pre.entries().remove(idx as int));
                assert(self.ids() =~= pre.ids().remove(idx as int));
                lemma_sorted_remove(pre.ids(), idx as int);
                assert(self.ids()[0] == pre.ids()[0]);
                assert(self.ids()[self.entries().len() - 1] == pre.ids()[pre.entries().len() - 1]);
                assert(self.tomb_seq() == pre.tomb_seq());
            }
            let (tfound, tidx) = self.tomb_locate(&id);
            if tfound {
                proof {
                    assert(self.has_tomb(id@));
                    assert(self.tomb_seq() == old(self).tomb_seq());
                    assert forall|x: Seq<NodeKey>|
                        self.has_tomb(x) <==> old(self).has_tomb(x) || x == id@ by {
                        assert(self.tomb_seq().contains(x) == old(self).tomb_seq().contains(x));
                    }
                }
                return Ok(());
            }
            let ghost mid = *self;
            self.cmentary.insert(tidx, id);
            proof {
                assert(self.tomb_seq() =~= mid.tomb_seq().insert(tidx as int, id@));
                lemma_sorted_insert(mid.tomb_seq(), tidx as int, id@);
                assert(mid.tomb_seq() == old(self).tomb_seq());
                assert forall|x: Seq<NodeKey>|
                    self.has_tomb(x) <==> old(self).has_tomb(x) || x == id@ by {
                    lemma_membership_insert(mid.tomb_seq(), tidx as int, id@, x);
                    assert(mid.tomb_seq().contains(x) == old(self).tomb_seq().contains(x));
                    assert(self.tomb_seq().contains(x) == mid.tomb_seq().insert(
                        tidx as int,
                        id@,
                    ).contains(x));
                }
                assert(self.entries() == mid.entries());
            }
            Ok(())
        } else {
            let (tfound, _tidx) = self.tomb_locate(&id);
            if tfound {
                proof {
                    assert(self.has_tomb(id@));
                    assert forall|x: Seq<NodeKey>|
                        self.has_tomb(x) <==> old(self).has_tomb(x) || x == id@ by {
                        assert(self.tomb_seq().contains(x) == old(self).tomb_seq().contains(x));
                    }
                }
                Ok(())
            } else {
                Err(StoreError::IdentifierNotFound)
            }
        }
    }

    /// The rank of `id` in the full entry list, sentinels included.
    pub fn get_position(&self, id: &Vec<NodeKey>) -> (r: Option<usize>)
        requires
            self.wf(),
        ensures
            match r {
                Some(i) => i < self.entries().len() && self.entries()[i as int].0 == id@,
                None => !has_id(self.entries(), id@),
            },
            r is Some <==> has_id(self.entries(), id@),
    {
        let (found, idx) = self.locate(id);
        if found {
            Some(idx)
        } else {
            None
        }
    }

    /// The live document content in identifier order, sentinels excluded.
    pub fn collect_ascii(&self) -> (r: Vec<u8>)
        requires
            self.wf(),
        ensures
            r@ == self.content(),
    {
        let n = self.id_list.len();
        let mut r: Vec<u8> = Vec::new();
        let mut i: usize = 1;
        while i < n - 1
            invariant
                self.wf(),
                n == self.entries().len(),
                1 <= i <= n - 1,
                r@.len() == i - 1,
                forall|k: int| 0 <= k < i - 1 ==> r@[k] == self.entries()[k + 1].1,
            decreases n - i,
        {
            r.push(self.id_list[i].1);
            i += 1;
        }
        proof {
            assert(r@ =~= self.content());
        }
        r
    }

    /// The live document content as text, one character per payload byte.
    pub fn collect_string(&self) -> (r: String)
        requires
            self.wf(),
        ensures
            r@ == self.content().map_values(|b: u8| b as char),
    {
        let n = self.id_list.len();
        let mut r = String::new();
        let mut i: usize = 1;
        while i < n - 1
            invariant
                self.wf(),
                n == self.entries().len(),
                1 <= i <= n - 1,
                r@.len() == i - 1,
                forall|k: int| 0 <= k < i - 1 ==> r@[k] == self.entries()[k + 1].1 as char,
            decreases n - i,
        {
            string_push(&mut r, self.id_list[i].1 as char);
            i += 1;
        }
        proof {
            assert(r@ =~= self.content().map_values(|b: u8| b as char));
        }
        r
    }
    /// Mints a fresh identifier strictly between `p` and `q`, using and
    /// extending the store's per-depth strategy cache.
    pub fn generate_id(&mut self, p: &Vec<NodeKey>, q: &Vec<NodeKey>, side: &mut Side) -> (r:
        Vec<NodeKey>)
        requires
            old(self).wf(),
            sep(p@, q@),
            id_lt(p@, q@),
            p@.len() < usize::MAX - 1,
            q@.len() < usize::MAX - 1,
            old(side).time < Timestamp::MAX,
        ensures
            final(self).wf(),
            id_lt(p@, r@),
            id_lt(r@, q@),
            sep(p@, r@),
            sep(r@, q@),
            r@.len() >= 1,
            r@.len() <= crate::numeric::max_len(p@, q@) + 1,
            // the allocation depth is the first depth whose prefix values
            // leave a free slot between the neighbours
            crate::numeric::id_val(p@, r@.len() as int) + 2 <= crate::numeric::id_val(
                q@,
                r@.len() as int,
            ),
            forall|e: int|
                0 <= e < r@.len() ==> crate::numeric::id_val(q@, e) - crate::numeric::id_val(
                    p@,
                    e,
                ) <= 1,
            // whole segments are reused from a neighbour wherever the digit
            // matches positionally; the rest carry this replica's authorship
            // and the clock value consumed by this allocation
            forall|k: int|
                0 <= k < r@.len() ==> r@[k] == crate::allocator::built_segment(
                    crate::numeric::digits_of(r@),
                    p@,
                    q@,
                    old(side).peer_id,
                    old(side).time,
                    k,
                ),
            // the new prefix value lies strictly inside the gap, at most
            // `boundary` away from the neighbour on the grown side, whose
            // choice is the strategy cached for this depth
            crate::numeric::id_val(p@, r@.len() as int) < crate::numeric::id_val(
                r@,
                r@.len() as int,
            ),
            crate::numeric::id_val(r@, r@.len() as int) < crate::numeric::id_val(
                q@,
                r@.len() as int,
            ),
            final(self).strategy_spec().len() >= r@.len(),
            final(self).strategy_spec()[r@.len() - 1] is Some,
            final(self).strategy_spec()[r@.len() - 1] == Some(true)
                ==> crate::numeric::id_val(r@, r@.len() as int) - crate::numeric::id_val(
                p@,
                r@.len() as int,
            ) <= old(self).boundary_spec(),
            final(self).strategy_spec()[r@.len() - 1] == Some(false)
                ==> crate::numeric::id_val(q@, r@.len() as int) - crate::numeric::id_val(
                r@,
                r@.len() as int,
            ) <= old(self).boundary_spec(),
            forall|k: int|
                0 <= k < old(self).strategy_spec().len() && old(self).strategy_spec()[k] is Some
                    ==> final(self).strategy_spec()[k] == old(self).strategy_spec()[k],
            final(self).entries() == old(self).entries(),
            final(self).tomb_seq() == old(self).tomb_seq(),
            final(self).boundary_spec() == old(self).boundary_spec(),
            final(side).peer_id == old(side).peer_id,
            final(side).time == old(side).time + 1,
    {
        let b = self.boundary;
        allocate_between(p, q, side, &mut self.strategy, b)
    }

    /// A local insert: resolves the offset to its two neighbouring
    /// identifiers, mints an identifier between them, and stores the
    /// payload under it. The returned identifier is what a replica
    /// broadcasts.
    pub fn insert_absolute(&mut self, position: usize, data: u8, side: &mut Side) -> (r: Result<
        Vec<NodeKey>,
        StoreError,
    >)
        requires
            old(self).wf(),
            old(side).time < Timestamp::MAX,
        ensures
            final(self).wf(),
            r is Ok <==> position + 2 <= old(self).entries().len() && alloc_ready(
                old(self).ids()[position as int],
                old(self).ids()[position + 1],
            ),
            r == Err::<Vec<NodeKey>, StoreError>(StoreError::PositionOutOfRange) <==> position + 2
                > old(self).entries().len(),
            r == Err::<Vec<NodeKey>, StoreError>(StoreError::InternalViolation) <==> position + 2
                <= old(self).entries().len() && !alloc_ready(
                old(self).ids()[position as int],
                old(self).ids()[position + 1],
            ),
            r is Err ==> *final(self) == *old(self) && *final(side) == *old(side),
            r matches Ok(id) ==> id_lt(old(self).ids()[position as int], id@) && id_lt(
                id@,
                old(self).ids()[position + 1],
            ),
            r matches Ok(id) ==> sep(old(self).ids()[position as int], id@) && sep(
                id@,
                old(self).ids()[position + 1],
            ),
            r matches Ok(id) ==> id@.len() <= crate::numeric::max_len(
                old(self).ids()[position as int],
                old(self).ids()[position + 1],
            ) + 1,
            r matches Ok(id) ==> final(self).entries() == old(self).entries().insert(
                position + 1,
                (id@, data),
            ),
            r is Ok ==> final(side).time == old(side).time + 1 && final(side).peer_id == old(
                side,
            ).peer_id,
            final(self).tomb_seq() == old(self).tomb_seq(),
            final(self).boundary_spec() == old(self).boundary_spec(),
    {
        let n = self.id_list.len();
        if position > n - 2 {
            return Err(StoreError::PositionOutOfRange);
        }
        let before = copy_id(&self.id_list[position].0);
        let after = copy_id(&self.id_list[position + 1].0);
        if !(before.len() < usize::MAX - 1 && after.len() < usize::MAX - 1) {
            return Err(StoreError::InternalViolation);
        }
        if !sep_exec(&before, &after) {
            return Err(StoreError::InternalViolation);
        }
        proof {
            assert(before@ == self.ids()[position as int]);
            assert(after@ == self.ids()[position + 1]);
        }
        let b = self.boundary;
        let id = allocate_between(&before, &after, side, &mut self.strategy, b);
        let ret = copy_id(&id);
        let ghost pre = *old(self);
        proof {
            assert(self.entries() == pre.entries());
            assert(self.ids() == pre.ids());
        }
        self.id_list.insert(position + 1, (id, data));
        proof {
            assert(self.entries() =~= pre.entries().insert(position + 1, (ret@, data)));
            assert(self.ids() =~= pre.ids().insert(position + 1, ret@));
            assert forall|k: int| 0 <= k < position + 1 implies id_lt(
                #[trigger] pre.ids()[k],
                ret@,
            ) by {
                if k < position {
                    crate::keys::lemma_id_lt_trans(pre.ids()[k], before@, ret@);
                }
            }
            assert forall|k: int| position + 1 <= k < pre.ids().len() implies id_lt(
                ret@,
                #[trigger] pre.ids()[k],
            ) by {
                if k > position + 1 {
                    crate::keys::lemma_id_lt_trans(ret@, after@, pre.ids()[k]);
                }
            }
            lemma_sorted_insert(pre.ids(), position + 1, ret@);
            assert(self.ids()[0] == pre.ids()[0]);
            assert(self.ids()[self.entries().len() - 1] == pre.ids()[pre.entries().len() - 1]);
            assert(self.tomb_seq() == pre.tomb_seq());
        }
        Ok(ret)
    }

    /// Removes the entry at `position` in the full list (the begin sentinel
    /// sits at position zero and may never be removed), tombstoning its
    /// identifier. The returned identifier is what a replica broadcasts.
    pub fn remove_at(&mut self, position: usize) -> (r: Result<Vec<NodeKey>, StoreError>)
        requires
            old(self).wf(),
        ensures
            final(self).wf(),
            r == Err::<Vec<NodeKey>, StoreError>(StoreError::InvalidRemoval) <==> position == 0,
            r == Err::<Vec<NodeKey>, StoreError>(StoreError::PositionOutOfRange) <==> position >= 1
                && position + 2 > old(self).entries().len(),
            r is Ok <==> 1 <= position && position + 2 <= old(self).entries().len(),
            r is Err ==> *final(self) == *old(self),
            r matches Ok(id) ==> id@ == old(self).ids()[position as int] && final(self).entries()
                == old(self).entries().remove(position as int),
            r matches Ok(id) ==> (forall|x: Seq<NodeKey>|
                final(self).has_tomb(x) <==> old(self).has_tomb(x) || x == id@),
            final(self).boundary_spec() == old(self).boundary_spec(),
            final(self).strategy_spec() == old(self).strategy_spec(),
    {
        if position == 0 {
            return Err(StoreError::InvalidRemoval);
        }
        let n = self.id_list.len();
        if position > n - 2 {
            return Err(StoreError::PositionOutOfRange);
        }
        let ghost pre = *self;
        let (removed, _payload) = self.id_list.remove(position);
        proof {
            assert(self.entries() =~= pre.entries().remove(position as int));
            assert(self.ids() =~= pre.ids().remove(position as int));
            lemma_sorted_remove(pre.ids(), position as int);
            assert(self.ids()[0] == pre.ids()[0]);
            assert(self.ids()[self.entries().len() - 1] == pre.ids()[pre.entries().len() - 1]);
            assert(self.tomb_seq() == pre.tomb_seq());
            // the removed identifier sits strictly between the sentinels
            assert(removed@ == pre.entries()[position as int].0);
            assert(removed@ == pre.ids()[position as int]);
            assert(id_lt(pre.ids()[0], removed@));
            assert(id_lt(removed@, pre.ids()[pre.ids().len() - 1]));
            assert(in_bounds(removed@));
        }
        let ret = copy_id(&removed);
        let (tfound, tidx) = self.tomb_locate(&removed);
        if tfound {
            proof {
                assert(self.has_tomb(removed@));
                assert forall|x: Seq<NodeKey>|
                    self.has_tomb(x) <==> old(self).has_tomb(x) || x == removed@ by {
                    assert(self.tomb_seq().contains(x) == old(self).tomb_seq().contains(x));
                }
            }
            return Ok(ret);
        }
        let ghost mid = *self;
        self.cmentary.insert(tidx, removed);
        proof {
            assert(self.tomb_seq() =~= mid.tomb_seq().insert(tidx as int, ret@));
            lemma_sorted_insert(mid.tomb_seq(), tidx as int, ret@);
            assert(mid.tomb_seq() == old(self).tomb_seq());
            assert forall|x: Seq<NodeKey>|
                self.has_tomb(x) <==> old(self).has_tomb(x) || x == ret@ by {
                lemma_membership_insert(mid.tomb_seq(), tidx as int, ret@, x);
                assert(self.tomb_seq().contains(x) == mid.tomb_seq().insert(
                    tidx as int,
                    ret@,
                ).contains(x));
            }
            assert(self.entries() == mid.entries());
        }
        Ok(ret)
    }

    /// Removes the live entry at document offset `position` (offset zero is
    /// the first live character).
    pub fn remove_absolute(&mut self, position: usize) -> (r: Result<Vec<NodeKey>, StoreError>)
        requires
            old(self).wf(),
        ensures
            final(self).wf(),
            r == Err::<Vec<NodeKey>, StoreError>(StoreError::PositionOutOfRange) <==> position + 3
                > old(self).entries().len(),
            r is Ok <==> position + 3 <= old(self).entries().len(),
            r is Err ==> *final(self) == *old(self),
            r matches Ok(id) ==> id@ == old(self).ids()[position + 1] && final(self).entries()
                == old(self).entries().remove(position + 1),
            r matches Ok(id) ==> (forall|x: Seq<NodeKey>|
                final(self).has_tomb(x) <==> old(self).has_tomb(x) || x == id@),
            final(self).boundary_spec() == old(self).boundary_spec(),
            final(self).strategy_spec() == old(self).strategy_spec(),
    {
        let n = self.id_list.len();
        if position >= n - 2 {
            return Err(StoreError::PositionOutOfRange);
        }
        self.remove_at(position + 1)
    }

    /// The full state for persistence: every entry and every tombstone.
    pub fn export_state(&self) -> (r: (Vec<(Vec<NodeKey>, u8)>, Vec<Vec<NodeKey>>))
        ensures
            entry_views(r.0@) == self.entries(),
            id_views(r.1@) == self.tomb_seq(),
    {
        let mut es: Vec<(Vec<NodeKey>, u8)> = Vec::new();
        let mut i: usize = 0;
        while i < self.id_list.len()
            invariant
                i <= self.id_list@.len(),
                es@.len() == i,
                forall|k: int|
                    0 <= k < i ==> (#[trigger] es@[k]).0@ == self.id_list@[k].0@ && es@[k].1
                        == self.id_list@[k].1,
            decreases self.id_list@.len() - i,
        {
            es.push((copy_id(&self.id_list[i].0), self.id_list[i].1));
            i += 1;
        }
        let mut ts: Vec<Vec<NodeKey>> = Vec::new();
        let mut j: usize = 0;
        while j < self.cmentary.len()
            invariant
                j <= self.cmentary@.len(),
                ts@.len() == j,
                forall|k: int| 0 <= k < j ==> (#[trigger] ts@[k])@ == self.cmentary@[k]@,
            decreases self.cmentary@.len() - j,
        {
            ts.push(copy_id(&self.cmentary[j]));
            j += 1;
        }
        proof {
            assert(entry_views(es@) =~= self.entries());
            assert(id_views(ts@) =~= self.tomb_seq());
        }
        (es, ts)
    }

    /// Rebuilds a store from persisted entries and tombstones, validating
    /// everything a well-formed store guarantees; a blob that does not
    /// describe one is rejected as a load failure.
    pub fn load_state(entries: Vec<(Vec<NodeKey>, u8)>, tombs: Vec<Vec<NodeKey>>) -> (r: Result<
        Doc,
        StoreError,
    >)
        ensures
            r is Ok <==> load_ok(entry_views(entries@), id_views(tombs@)),
            r is Err ==> r == Err::<Doc, StoreError>(StoreError::MalformedIdentifier),
            r matches Ok(d) ==> d.wf() && d.entries() == entry_views(entries@) && d.tomb_seq()
                == id_views(tombs@) && d.boundary_spec() == DEFAULT_BOUNDARY,
    {
        let ghost es = entry_views(entries@);
        let ghost ts = id_views(tombs@);
        let n = entries.len();
        if n < 2 {
            return Err(StoreError::MalformedIdentifier);
        }
        let bos = NodeKey { digit: MIN_POSITION_DIGIT, peer_id: RESERVED_PEER, time: 0 };
        let eos = NodeKey { digit: MAX_POSITION_DIGIT, peer_id: RESERVED_PEER, time: 0 };
        let mut sentinel: Vec<NodeKey> = Vec::new();
        sentinel.push(bos);
        proof {
            assert(sentinel@ =~= bos_id());
        }
        if !id_eq_exec(&entries[0].0, &sentinel) {
            return Err(StoreError::MalformedIdentifier);
        }
        let mut sentinel_end: Vec<NodeKey> = Vec::new();
        sentinel_end.push(eos);
        proof {
            assert(sentinel_end@ =~= eos_id());
        }
        if !id_eq_exec(&entries[n - 1].0, &sentinel_end) {
            return Err(StoreError::MalformedIdentifier);
        }
        let mut i: usize = 1;
        while i < n
            invariant
                1 <= i <= n,
                n == entries@.len(),
                es == entry_views(entries@),
                ts == id_views(tombs@),
                forall|a: int, b: int|
                    0 <= a < b < i ==> id_lt(
                        #[trigger] entry_views(entries@)[a].0,
                        #[trigger] entry_views(entries@)[b].0,
                    ),
            decreases n - i,
        {
            if !id_lt_exec(&entries[i - 1].0, &entries[i].0) {
                proof {
                    assert(ids_of(es)[i - 1] == es[i - 1].0);
                    assert(ids_of(es)[i as int] == es[i as int].0);
                    assert(!id_lt(ids_of(es)[i - 1], ids_of(es)[i as int]));
                    assert(!load_ok(es, ts)) by {
                        if sorted_strict(ids_of(es)) {
                            assert(id_lt(ids_of(es)[i - 1], ids_of(es)[i as int]));
                        }
                    }
                }
                return Err(StoreError::MalformedIdentifier);
            }
            proof {
                assert forall|a: int, b: int|
                    0 <= a < b < i + 1 implies id_lt(
                    #[trigger] entry_views(entries@)[a].0,
                    #[trigger] entry_views(entries@)[b].0,
                ) by {
                    if b == i && a < i - 1 {
                        crate::keys::lemma_id_lt_trans(
                            entry_views(entries@)[a].0,
                            entry_views(entries@)[i - 1].0,
                            entry_views(entries@)[i as int].0,
                        );
                    }
                }
            }
            i += 1;
        }
        let mut j: usize = 1;
        let m = tombs.len();
        while j < m
            invariant
                m == tombs@.len(),
                1 <= j <= m || m == 0,
                es == entry_views(entries@),
                ts == id_views(tombs@),
                forall|a: int, b: int|
                    0 <= a < b < j ==> id_lt(
                        #[trigger] id_views(tombs@)[a],
                        #[trigger] id_views(tombs@)[b],
                    ),
            decreases m - j,
        {
            if !id_lt_exec(&tombs[j - 1], &tombs[j]) {
                proof {
                    assert(ts[j - 1] == tombs@[j - 1]@);
                    assert(ts[j as int] == tombs@[j as int]@);
                    assert(!id_lt(ts[j - 1], ts[j as int]));
                    assert(!load_ok(es, ts)) by {
                        if sorted_strict(ts) {
                            assert(id_lt(ts[j - 1], ts[j as int]));
                        }
                    }
                }
                return Err(StoreError::MalformedIdentifier);
            }
            proof {
                assert forall|a: int, b: int|
                    0 <= a < b < j + 1 implies id_lt(
                    #[trigger] id_views(tombs@)[a],
                    #[trigger] id_views(tombs@)[b],
                ) by {
                    if b == j && a < j - 1 {
                        crate::keys::lemma_id_lt_trans(
                            id_views(tombs@)[a],
                            id_views(tombs@)[j - 1],
                            id_views(tombs@)[j as int],
                        );
                    }
                }
            }
            j += 1;
        }
        let mut t: usize = 0;
        while t < m
            invariant
                m == tombs@.len(),
                t <= m,
                sentinel@ == bos_id(),
                sentinel_end@ == eos_id(),
                es == entry_views(entries@),
                ts == id_views(tombs@),
                forall|k: int| 0 <= k < t ==> in_bounds(#[trigger] id_views(tombs@)[k]),
            decreases m - t,
        {
            if !(id_lt_exec(&sentinel, &tombs[t]) && id_lt_exec(&tombs[t], &sentinel_end)) {
                proof {
                    assert(ts[t as int] == tombs@[t as int]@);
                    assert(!in_bounds(ts[t as int]));
                    assert(!load_ok(es, ts)) by {
                        if load_ok(es, ts) {
                            assert(in_bounds(ts[t as int]));
                        }
                    }
                }
                return Err(StoreError::MalformedIdentifier);
            }
            proof {
                assert(id_views(tombs@)[t as int] == tombs@[t as int]@);
                assert(in_bounds(id_views(tombs@)[t as int]));
            }
            t += 1;
        }
        let d = Doc { id_list: entries, cmentary: tombs, strategy: Vec::new(), boundary:
            DEFAULT_BOUNDARY };
        proof {
            assert(d.entries() == entry_views(entries@));
            assert(d.ids()[0] == entry_views(entries@)[0].0);
            assert(d.ids()[d.entries().len() - 1] == entry_views(entries@)[n - 1].0);
        }
        Ok(d)
    }

    /// Reconciles this replica's state with another replica's snapshot: the
    /// tombstones become the union of both sides', and the live entries
    /// become the ordered union of both sides' entries, deduplicated by
    /// identifier with this replica's payload kept, and purged of every
    /// tombstoned identifier.
    pub fn merge_state(&mut self, other: Doc)
        requires
            old(self).wf(),
            other.wf(),
        ensures
            final(self).wf(),
            merge_post(*old(self), other, *final(self)),
            final(self).boundary_spec() == old(self).boundary_spec(),
            final(self).strategy_spec() == old(self).strategy_spec(),
    {
        let ghost a = *old(self);
        let ghost b = other;
        let merged_tombs = merge_tomb_vecs(&self.cmentary, &other.cmentary);
        let merged = merge_entry_vecs(&self.id_list, &other.id_list);
        let filtered = filter_tombs(&merged, &merged_tombs);
        let ghost me = entry_views(merged@);
        let ghost fe = entry_views(filtered@);
        let ghost ts = id_views(merged_tombs@);
        self.id_list = filtered;
        self.cmentary = merged_tombs;
        proof {
            assert(self.entries() == fe);
            assert(self.tomb_seq() == ts);
            // tombstone clauses of the contract and of well-formedness
            assert forall|i: int| 0 <= i < ts.len() implies in_bounds(#[trigger] ts[i]) by {
                assert(ts.contains(ts[i]));
                if a.tomb_seq().contains(ts[i]) {
                    let k = choose|k: int|
                        0 <= k < a.tomb_seq().len() && a.tomb_seq()[k] == ts[i];
                } else {
                    let k = choose|k: int|
                        0 <= k < b.tomb_seq().len() && b.tomb_seq()[k] == ts[i];
                }
            }
            // the sentinels survive: both sides hold them and neither side
            // may tombstone them
            assert(a.entries()[0].0 == bos_id());
            assert(has_id(a.entries(), bos_id()));
            assert(a.entries()[a.entries().len() - 1].0 == eos_id());
            assert(has_id(a.entries(), eos_id()));
            crate::keys::lemma_id_lt_irrefl(bos_id());
            crate::keys::lemma_id_lt_irrefl(eos_id());
            if ts.contains(bos_id()) {
                assert(in_bounds(bos_id()));
            }
            if ts.contains(eos_id()) {
                assert(in_bounds(eos_id()));
            }
            assert(has_id(fe, bos_id()));
            assert(has_id(fe, eos_id()));
            // every surviving identifier lies between the sentinels
            assert forall|k: int| 0 <= k < fe.len() implies (fe[k].0 == bos_id() || id_lt(
                bos_id(),
                fe[k].0,
            )) && (fe[k].0 == eos_id() || id_lt(fe[k].0, eos_id())) by {
                assert(fe[k].0 == ids_of(fe)[k]);
                assert(has_id(fe, fe[k].0));
                lemma_wf_entry_bounds(a, b, fe[k].0);
            }
            let kb = choose|i: int| 0 <= i < fe.len() && fe[i].0 == bos_id();
            let ke = choose|i: int| 0 <= i < fe.len() && fe[i].0 == eos_id();
            assert(ids_of(fe)[kb] == bos_id());
            assert(ids_of(fe)[ke] == eos_id());
            if kb != 0 {
                assert(id_lt(ids_of(fe)[0], ids_of(fe)[kb]));
                if ids_of(fe)[0] == bos_id() {
                } else {
                    crate::keys::lemma_id_lt_trans(bos_id(), ids_of(fe)[0], bos_id());
                }
            }
            assert(self.ids()[0] == bos_id());
            if ke != fe.len() - 1 {
                assert(id_lt(ids_of(fe)[ke], ids_of(fe)[fe.len() - 1]));
                if ids_of(fe)[fe.len() - 1] == eos_id() {
                    crate::keys::lemma_id_lt_irrefl(eos_id());
                } else {
                    crate::keys::lemma_id_lt_trans(eos_id(), ids_of(fe)[fe.len() - 1], eos_id());
                }
            }
            assert(self.ids()[self.entries().len() - 1] == eos_id());
            assert(kb != ke);
            assert(self.entries().len() >= 2);
            // payload provenance: this replica's byte wins on shared ids
            assert forall|x: Seq<NodeKey>|
                has_id(fe, x) && has_id(a.entries(), x) implies #[trigger] payload_of(fe, x)
                == payload_of(a.entries(), x) by {
                let k = choose|i: int| 0 <= i < fe.len() && fe[i].0 == x;
                lemma_payload_unique(fe, k);
                assert(me.contains(fe[k]));
                let km = choose|i: int| 0 <= i < me.len() && me[i] == fe[k];
                assert(me[km].0 == x);
                assert(a.entries().contains(me[km]));
                let ka = choose|i: int| 0 <= i < a.entries().len() && a.entries()[i] == me[km];
                lemma_payload_unique(a.entries(), ka);
            }
            assert forall|x: Seq<NodeKey>|
                has_id(fe, x) && !has_id(a.entries(), x) implies #[trigger] payload_of(fe, x)
                == payload_of(b.entries(), x) by {
                let k = choose|i: int| 0 <= i < fe.len() && fe[i].0 == x;
                lemma_payload_unique(fe, k);
                assert(me.contains(fe[k]));
                let km = choose|i: int| 0 <= i < me.len() && me[i] == fe[k];
                assert(me[km].0 == x);
                if a.entries().contains(me[km]) {
                    let ka = choose|i: int|
                        0 <= i < a.entries().len() && a.entries()[i] == me[km];
                    assert(has_id(a.entries(), x));
                }
                assert(b.entries().contains(me[km]));
                let kb2 = choose|i: int| 0 <= i < b.entries().len() && b.entries()[i] == me[km];
                lemma_payload_unique(b.entries(), kb2);
            }
        }
    }
}

/// What a merged store promises, relative to the two states that went in:
/// the tombstones are the union; an identifier is live exactly when one side
/// held it live and neither side tombstoned it; and the payload of a live
/// identifier is the first state's wherever the first state held it.
pub open spec fn merge_post(a: Doc, b: Doc, m: Doc) -> bool {
    &&& (forall|x: Seq<NodeKey>| #[trigger] m.has_tomb(x) <==> a.has_tomb(x) || b.has_tomb(x))
    &&& (forall|x: Seq<NodeKey>|
        #[trigger] has_id(m.entries(), x) <==> ((has_id(a.entries(), x) || has_id(
            b.entries(),
            x,
        )) && !(a.has_tomb(x) || b.has_tomb(x))))
    &&& (forall|x: Seq<NodeKey>|
        has_id(m.entries(), x) && has_id(a.entries(), x) ==> #[trigger] payload_of(m.entries(), x)
            == payload_of(a.entries(), x))
    &&& (forall|x: Seq<NodeKey>|
        has_id(m.entries(), x) && !has_id(a.entries(), x) ==> #[trigger] payload_of(
            m.entries(),
            x,
        ) == payload_of(b.entries(), x))
}

/// In a well-formed store, every identifier held lies on or between the
/// sentinels.
proof fn lemma_wf_entry_bounds(a: Doc, b: Doc, x: Seq<NodeKey>)
    requires
        a.wf(),
        b.wf(),
        has_id(a.entries(), x) || has_id(b.entries(), x),
    ensures
        x == bos_id() || id_lt(bos_id(), x),
        x == eos_id() || id_lt(x, eos_id()),
{
    if has_id(a.entries(), x) {
        let i = choose|i: int| 0 <= i < a.entries().len() && a.entries()[i].0 == x;
        assert(a.ids()[i] == x);
        if i > 0 {
            assert(id_lt(a.ids()[0], a.ids()[i]));
        }
        if i < a.entries().len() - 1 {
            assert(id_lt(a.ids()[i], a.ids()[a.entries().len() - 1]));
        }
    } else {
        let i = choose|i: int| 0 <= i < b.entries().len() && b.entries()[i].0 == x;
        assert(b.ids()[i] == x);
        if i > 0 {
            assert(id_lt(b.ids()[0], b.ids()[i]));
        }
        if i < b.entries().len() - 1 {
            assert(id_lt(b.ids()[i], b.ids()[b.entries().len() - 1]));
        }
    }
}

/// In a strictly ordered entry list, the payload looked up for an entry's
/// identifier is that entry's payload.
pub proof fn lemma_payload_unique(s: Seq<(Seq<NodeKey>, u8)>, k: int)
    requires
        sorted_strict(ids_of(s)),
        0 <= k < s.len(),
    ensures
        has_id(s, s[k].0),
        payload_of(s, s[k].0) == s[k].1,
{
    assert(s[k].0 == s[k].0);
    let c = choose|i: int| 0 <= i < s.len() && s[i].0 == s[k].0;
    if c != k {
        assert(ids_of(s)[c] == s[k].0);
        assert(ids_of(s)[k] == s[k].0);
        if c < k {
            assert(id_lt(ids_of(s)[c], ids_of(s)[k]));
        } else {
            assert(id_lt(ids_of(s)[k], ids_of(s)[c]));
        }
        crate::keys::lemma_id_lt_irrefl(s[k].0);
    }
}

/// Copies an identifier path.
fn copy_id(v: &Vec<NodeKey>) -> (r: Vec<NodeKey>)
    ensures
        r@ == v@,
{
    let mut r: Vec<NodeKey> = Vec::new();
    let mut i: usize = 0;
    while i < v.len()
        invariant
            i <= v@.len(),
            r@.len() == i,
            forall|k: int| 0 <= k < i ==> r@[k] == v@[k],
        decreases v@.len() - i,
    {
        r.push(v[i]);
        i += 1;
    }
    proof {
        assert(r@ =~= v@);
    }
    r
}

/// The identifier paths held by a vector of identifiers.
pub open spec fn id_views(v: Seq<Vec<NodeKey>>) -> Seq<Seq<NodeKey>> {
    v.map_values(|w: Vec<NodeKey>| w@)
}

/// Whether a vector of identifiers holds `id`.
fn vec_contains_id(v: &Vec<Vec<NodeKey>>, id: &Vec<NodeKey>) -> (r: bool)
    ensures
        r == id_views(v@).contains(id@),
{
    let mut i: usize = 0;
    while i < v.len()
        invariant
            i <= v@.len(),
            forall|k: int| 0 <= k < i ==> id_views(v@)[k] != id@,
        decreases v@.len() - i,
    {
        if id_eq_exec(&v[i], id) {
            proof {
                assert(id_views(v@)[i as int] == id@);
            }
            return true;
        }
        i += 1;
    }
    proof {
        if id_views(v@).contains(id@) {
            let k = choose|k: int| 0 <= k < id_views(v@).len() && id_views(v@)[k] == id@;
        }
    }
    false
}

/// Merges two ascending identifier vectors into their ascending union.
fn merge_tomb_vecs(a: &Vec<Vec<NodeKey>>, b: &Vec<Vec<NodeKey>>) -> (r: Vec<Vec<NodeKey>>)
    requires
        sorted_strict(id_views(a@)),
        sorted_strict(id_views(b@)),
    ensures
        sorted_strict(id_views(r@)),
        forall|x: Seq<NodeKey>|
            #[trigger] id_views(r@).contains(x) <==> id_views(a@).contains(x) || id_views(
                b@,
            ).contains(x),
{
    let av = a;
    let bv = b;
    let mut r: Vec<Vec<NodeKey>> = Vec::new();
    let mut i: usize = 0;
    let mut j: usize = 0;
    while i < av.len() || j < bv.len()
        invariant
            sorted_strict(id_views(av@)),
            sorted_strict(id_views(bv@)),
            i <= av@.len(),
            j <= bv@.len(),
            sorted_strict(id_views(r@)),
            forall|u: int, t: int|
                0 <= u < r@.len() && i <= t < av@.len() ==> id_lt(
                    #[trigger] id_views(r@)[u],
                    #[trigger] id_views(av@)[t],
                ),
            forall|u: int, t: int|
                0 <= u < r@.len() && j <= t < bv@.len() ==> id_lt(
                    #[trigger] id_views(r@)[u],
                    #[trigger] id_views(bv@)[t],
                ),
            forall|x: Seq<NodeKey>|
                #[trigger] id_views(r@).contains(x) <==> id_views(av@).take(i as int).contains(x)
                    || id_views(bv@).take(j as int).contains(x),
        decreases av@.len() - i + bv@.len() - j,
    {
        let take_a: bool;
        let both: bool;
        if i >= av.len() {
            take_a = false;
            both = false;
        } else if j >= bv.len() {
            take_a = true;
            both = false;
        } else if id_eq_exec(&av[i], &bv[j]) {
            take_a = true;
            both = true;
        } else if id_lt_exec(&av[i], &bv[j]) {
            take_a = true;
            both = false;
        } else {
            proof {
                lemma_id_lt_trichotomy(id_views(av@)[i as int], id_views(bv@)[j as int]);
            }
            take_a = false;
            both = false;
        }
        let ghost r_old = r@;
        let ghost i_old = i as int;
        let ghost j_old = j as int;
        if take_a {
            r.push(copy_id(&av[i]));
            i += 1;
            if both {
                j += 1;
            }
        } else {
            r.push(copy_id(&bv[j]));
            j += 1;
        }
        proof {
            let pushed = id_views(r@)[r@.len() - 1];
            assert(id_views(r@) =~= id_views(r_old).push(pushed));
            // order: everything already in the result precedes what is
            // still to come on both sides
            assert forall|u: int, t: int|
                0 <= u < r@.len() && i <= t < av@.len() implies id_lt(
                #[trigger] id_views(r@)[u],
                #[trigger] id_views(av@)[t],
            ) by {
                if u < r_old.len() {
                    assert(id_views(r@)[u] == id_views(r_old)[u]);
                } else {
                    assert(id_views(r@)[u] == pushed);
                    if take_a {
                        assert(pushed == id_views(av@)[i_old]);
                    } else {
                        assert(pushed == id_views(bv@)[j_old]);
                        lemma_id_lt_trichotomy(id_views(av@)[i_old], id_views(bv@)[j_old]);
                        assert(id_lt(id_views(bv@)[j_old], id_views(av@)[i_old]));
                        if t > i_old {
                            crate::keys::lemma_id_lt_trans(
                                id_views(bv@)[j_old],
                                id_views(av@)[i_old],
                                id_views(av@)[t],
                            );
                        }
                    }
                }
            }
            assert forall|u: int, t: int|
                0 <= u < r@.len() && j <= t < bv@.len() implies id_lt(
                #[trigger] id_views(r@)[u],
                #[trigger] id_views(bv@)[t],
            ) by {
                if u < r_old.len() {
                    assert(id_views(r@)[u] == id_views(r_old)[u]);
                } else {
                    assert(id_views(r@)[u] == pushed);
                    if take_a && !both {
                        assert(pushed == id_views(av@)[i_old]);
                        assert(id_lt(id_views(av@)[i_old], id_views(bv@)[j_old]));
                        if t > j_old {
                            crate::keys::lemma_id_lt_trans(
                                id_views(av@)[i_old],
                                id_views(bv@)[j_old],
                                id_views(bv@)[t],
                            );
                        }
                    } else if take_a && both {
                        assert(pushed == id_views(av@)[i_old]);
                        assert(pushed == id_views(bv@)[j_old]);
                    } else {
                        assert(pushed == id_views(bv@)[j_old]);
                    }
                }
            }
            assert forall|u: int, t: int|
                0 <= u < t < r@.len() implies id_lt(id_views(r@)[u], id_views(r@)[t]) by {
                if t < r_old.len() {
                    assert(id_views(r@)[u] == id_views(r_old)[u]);
                    assert(id_views(r@)[t] == id_views(r_old)[t]);
                } else {
                    assert(id_views(r@)[u] == id_views(r_old)[u]);
                    assert(id_views(r@)[t] == pushed);
                    if take_a {
                        assert(id_lt(id_views(r_old)[u], id_views(av@)[i_old]));
                    } else {
                        assert(id_lt(id_views(r_old)[u], id_views(bv@)[j_old]));
                    }
                }
            }
            // membership: the result so far covers exactly the consumed
            // prefixes of both inputs
            assert forall|x: Seq<NodeKey>|
                #[trigger] id_views(r@).contains(x) <==> id_views(av@).take(i as int).contains(x)
                    || id_views(bv@).take(j as int).contains(x) by {
                if id_views(r@).contains(x) {
                    let u = choose|u: int|
                        0 <= u < id_views(r@).len() && id_views(r@)[u] == x;
                    if u < r_old.len() {
                        assert(id_views(r_old).contains(x));
                        if id_views(av@).take(i_old).contains(x) {
                            let t = choose|t: int|
                                0 <= t < i_old && id_views(av@).take(i_old)[t] == x;
                            assert(id_views(av@).take(i as int)[t] == x);
                        } else {
                            let t = choose|t: int|
                                0 <= t < j_old && id_views(bv@).take(j_old)[t] == x;
                            assert(id_views(bv@).take(j as int)[t] == x);
                        }
                    } else {
                        if take_a {
                            assert(id_views(av@).take(i as int)[i_old] == x);
                        } else {
                            assert(id_views(bv@).take(j as int)[j_old] == x);
                        }
                    }
                }
                if id_views(av@).take(i as int).contains(x) {
                    let t = choose|t: int| 0 <= t < i && id_views(av@).take(i as int)[t] == x;
                    if t < i_old {
                        assert(id_views(av@).take(i_old)[t] == x);
                        assert(id_views(r_old).contains(x));
                        let u = choose|u: int|
                            0 <= u < id_views(r_old).len() && id_views(r_old)[u] == x;
                        assert(id_views(r@)[u] == x);
                    } else {
                        assert(take_a && t == i_old);
                        assert(id_views(r@)[r@.len() - 1] == x);
                    }
                }
                if id_views(bv@).take(j as int).contains(x) {
                    let t = choose|t: int| 0 <= t < j && id_views(bv@).take(j as int)[t] == x;
                    if t < j_old {
                        assert(id_views(bv@).take(j_old)[t] == x);
                        assert(id_views(r_old).contains(x));
                        let u = choose|u: int|
                            0 <= u < id_views(r_old).len() && id_views(r_old)[u] == x;
                        assert(id_views(r@)[u] == x);
                    } else {
                        assert(t == j_old && j == j_old + 1);
                        assert(id_views(r@)[r@.len() - 1] == x);
                    }
                }
            }
        }
    }
    proof {
        assert(id_views(av@).take(av@.len() as int) =~= id_views(av@));
        assert(id_views(bv@).take(bv@.len() as int) =~= id_views(bv@));
    }
    r
}

/// Merges two strictly ordered entry vectors into their ordered union,
/// deduplicated by identifier; on a shared identifier the left entry wins.
fn merge_entry_vecs(a: &Vec<(Vec<NodeKey>, u8)>, b: &Vec<(Vec<NodeKey>, u8)>) -> (r: Vec<
    (Vec<NodeKey>, u8),
>)
    requires
        sorted_strict(ids_of(entry_views(a@))),
        sorted_strict(ids_of(entry_views(b@))),
    ensures
        sorted_strict(ids_of(entry_views(r@))),
        forall|x: Seq<NodeKey>|
            #[trigger] has_id(entry_views(r@), x) <==> has_id(entry_views(a@), x) || has_id(
                entry_views(b@),
                x,
            ),
        forall|k: int|
            0 <= k < r@.len() ==> entry_views(a@).contains(#[trigger] entry_views(r@)[k])
                || entry_views(b@).contains(entry_views(r@)[k]),
        forall|k: int|
            0 <= k < r@.len() && has_id(entry_views(a@), entry_views(r@)[k].0) ==> entry_views(
                a@,
            ).contains(#[trigger] entry_views(r@)[k]),
{
    let ghost avs = entry_views(a@);
    let ghost bvs = entry_views(b@);
    let mut r: Vec<(Vec<NodeKey>, u8)> = Vec::new();
    let mut i: usize = 0;
    let mut j: usize = 0;
    while i < a.len() || j < b.len()
        invariant
            avs == entry_views(a@),
            bvs == entry_views(b@),
            sorted_strict(ids_of(avs)),
            sorted_strict(ids_of(bvs)),
            i <= a@.len(),
            j <= b@.len(),
            sorted_strict(ids_of(entry_views(r@))),
            forall|u: int, t: int|
                0 <= u < r@.len() && i <= t < avs.len() ==> id_lt(
                    #[trigger] entry_views(r@)[u].0,
                    #[trigger] avs[t].0,
                ),
            forall|u: int, t: int|
                0 <= u < r@.len() && j <= t < bvs.len() ==> id_lt(
                    #[trigger] entry_views(r@)[u].0,
                    #[trigger] bvs[t].0,
                ),
            forall|x: Seq<NodeKey>|
                #[trigger] has_id(entry_views(r@), x) <==> has_id(avs.take(i as int), x) || has_id(
                    bvs.take(j as int),
                    x,
                ),
            forall|k: int|
                0 <= k < r@.len() ==> avs.contains(#[trigger] entry_views(r@)[k]) || bvs.contains(
                    entry_views(r@)[k],
                ),
            forall|k: int|
                0 <= k < r@.len() && has_id(avs, entry_views(r@)[k].0) ==> avs.contains(
                    #[trigger] entry_views(r@)[k],
                ),
        decreases a@.len() - i + b@.len() - j,
    {
        let take_a: bool;
        let both: bool;
        if i >= a.len() {
            take_a = false;
            both = false;
        } else if j >= b.len() {
            take_a = true;
            both = false;
        } else if id_eq_exec(&a[i].0, &b[j].0) {
            take_a = true;
            both = true;
        } else if id_lt_exec(&a[i].0, &b[j].0) {
            take_a = true;
            both = false;
        } else {
            proof {
                lemma_id_lt_trichotomy(avs[i as int].0, bvs[j as int].0);
            }
            take_a = false;
            both = false;
        }
        let ghost r_old = r@;
        let ghost i_old = i as int;
        let ghost j_old = j as int;
        if take_a {
            r.push((copy_id(&a[i].0), a[i].1));
            i += 1;
            if both {
                j += 1;
            }
        } else {
            r.push((copy_id(&b[j].0), b[j].1));
            j += 1;
        }
        proof {
            let rv = entry_views(r@);
            let rov = entry_views(r_old);
            let pushed = rv[rv.len() - 1];
            assert(rv =~= rov.push(pushed));
            if take_a {
                assert(pushed == avs[i_old]);
                assert(avs.contains(pushed));
                if both {
                    assert(pushed.0 == bvs[j_old].0);
                }
            } else {
                assert(pushed == bvs[j_old]);
                assert(bvs.contains(pushed));
                if i_old < avs.len() {
                    lemma_id_lt_trichotomy(avs[i_old].0, bvs[j_old].0);
                    assert(id_lt(bvs[j_old].0, avs[i_old].0));
                }
            }
            // order: the result so far precedes what is still to come
            assert forall|u: int, t: int|
                0 <= u < r@.len() && i <= t < avs.len() implies id_lt(
                #[trigger] entry_views(r@)[u].0,
                #[trigger] avs[t].0,
            ) by {
                if u < rov.len() {
                    assert(rv[u] == rov[u]);
                } else {
                    assert(rv[u] == pushed);
                    if take_a {
                        assert(ids_of(avs)[i_old] == avs[i_old].0);
                        assert(ids_of(avs)[t] == avs[t].0);
                    } else {
                        if t > i_old {
                            assert(ids_of(avs)[i_old] == avs[i_old].0);
                            assert(ids_of(avs)[t] == avs[t].0);
                            crate::keys::lemma_id_lt_trans(
                                bvs[j_old].0,
                                avs[i_old].0,
                                avs[t].0,
                            );
                        }
                    }
                }
            }
            assert forall|u: int, t: int|
                0 <= u < r@.len() && j <= t < bvs.len() implies id_lt(
                #[trigger] entry_views(r@)[u].0,
                #[trigger] bvs[t].0,
            ) by {
                if u < rov.len() {
                    assert(rv[u] == rov[u]);
                } else {
                    assert(rv[u] == pushed);
                    assert(ids_of(bvs)[t] == bvs[t].0);
                    if take_a && !both {
                        if t > j_old {
                            assert(ids_of(bvs)[j_old] == bvs[j_old].0);
                            crate::keys::lemma_id_lt_trans(
                                avs[i_old].0,
                                bvs[j_old].0,
                                bvs[t].0,
                            );
                        }
                    } else if take_a && both {
                        assert(ids_of(bvs)[j_old] == bvs[j_old].0);
                    } else {
                        assert(ids_of(bvs)[j_old] == bvs[j_old].0);
                    }
                }
            }
            assert forall|u: int, t: int|
                0 <= u < t < rv.len() implies id_lt(ids_of(rv)[u], ids_of(rv)[t]) by {
                assert(ids_of(rv)[u] == rv[u].0);
                assert(ids_of(rv)[t] == rv[t].0);
                if t < rov.len() {
                    assert(rv[u] == rov[u]);
                    assert(rv[t] == rov[t]);
                    assert(ids_of(rov)[u] == rov[u].0);
                    assert(ids_of(rov)[t] == rov[t].0);
                } else {
                    assert(rv[u] == rov[u]);
                    assert(rv[t] == pushed);
                }
            }
            // membership over the consumed prefixes
            assert forall|x: Seq<NodeKey>|
                #[trigger] has_id(entry_views(r@), x) <==> has_id(avs.take(i as int), x) || has_id(
                    bvs.take(j as int),
                    x,
                ) by {
                if has_id(rv, x) {
                    let u = choose|u: int| 0 <= u < rv.len() && rv[u].0 == x;
                    if u < rov.len() {
                        assert(has_id(rov, x));
                        if has_id(avs.take(i_old), x) {
                            let t = choose|t: int|
                                0 <= t < i_old && avs.take(i_old)[t].0 == x;
                            assert(avs.take(i as int)[t].0 == x);
                        } else {
                            let t = choose|t: int|
                                0 <= t < j_old && bvs.take(j_old)[t].0 == x;
                            assert(bvs.take(j as int)[t].0 == x);
                        }
                    } else {
                        if take_a {
                            assert(avs.take(i as int)[i_old].0 == x);
                        } else {
                            assert(bvs.take(j as int)[j_old].0 == x);
                        }
                    }
                }
                if has_id(avs.take(i as int), x) {
                    let t = choose|t: int| 0 <= t < i && avs.take(i as int)[t].0 == x;
                    if t < i_old {
                        assert(avs.take(i_old)[t].0 == x);
                        assert(has_id(avs.take(i_old), x));
                        assert(has_id(rov, x));
                        let u = choose|u: int| 0 <= u < rov.len() && rov[u].0 == x;
                        assert(rv[u].0 == x);
                    } else {
                        assert(take_a && t == i_old);
                        assert(rv[rv.len() - 1].0 == x);
                    }
                }
                if has_id(bvs.take(j as int), x) {
                    let t = choose|t: int| 0 <= t < j && bvs.take(j as int)[t].0 == x;
                    if t < j_old {
                        assert(bvs.take(j_old)[t].0 == x);
                        assert(has_id(bvs.take(j_old), x));
                        assert(has_id(rov, x));
                        let u = choose|u: int| 0 <= u < rov.len() && rov[u].0 == x;
                        assert(rv[u].0 == x);
                    } else {
                        assert(t == j_old && j == j_old + 1);
                        assert(rv[rv.len() - 1].0 == x);
                    }
                }
            }
            // on a shared identifier the left entry is the one kept
            assert forall|k: int|
                0 <= k < rv.len() && has_id(avs, rv[k].0) implies avs.contains(
                #[trigger] entry_views(r@)[k],
            ) by {
                if k < rov.len() {
                    assert(rv[k] == rov[k]);
                } else {
                    assert(rv[k] == pushed);
                    if !take_a {
                        // the identifier just taken from the right cannot
                        // occur anywhere on the left
                        let t = choose|t: int| 0 <= t < avs.len() && avs[t].0 == pushed.0;
                        if t >= i_old {
                            assert(ids_of(avs)[i_old] == avs[i_old].0);
                            assert(ids_of(avs)[t] == avs[t].0);
                            if t > i_old {
                                crate::keys::lemma_id_lt_trans(
                                    bvs[j_old].0,
                                    avs[i_old].0,
                                    avs[t].0,
                                );
                            }
                            crate::keys::lemma_id_lt_irrefl(pushed.0);
                        } else {
                            assert(avs.take(i_old)[t].0 == pushed.0);
                            assert(has_id(avs.take(i_old), pushed.0));
                            assert(has_id(rov, pushed.0));
                            let u = choose|u: int| 0 <= u < rov.len() && rov[u].0 == pushed.0;
                            assert(id_lt(rov[u].0, bvs[j_old].0));
                            crate::keys::lemma_id_lt_irrefl(pushed.0);
                        }
                    }
                }
            }
        }
    }
    proof {
        assert(avs.take(a@.len() as int) =~= avs);
        assert(bvs.take(b@.len() as int) =~= bvs);
    }
    r
}

/// Keeps, in order, the entries whose identifiers are not tombstoned.
fn filter_tombs(m: &Vec<(Vec<NodeKey>, u8)>, t: &Vec<Vec<NodeKey>>) -> (r: Vec<(Vec<NodeKey>, u8)>)
    requires
        sorted_strict(ids_of(entry_views(m@))),
    ensures
        sorted_strict(ids_of(entry_views(r@))),
        forall|x: Seq<NodeKey>|
            #[trigger] has_id(entry_views(r@), x) <==> has_id(entry_views(m@), x) && !id_views(
                t@,
            ).contains(x),
        forall|k: int|
            0 <= k < r@.len() ==> entry_views(m@).contains(#[trigger] entry_views(r@)[k]),
{
    let ghost mvs = entry_views(m@);
    let ghost tvs = id_views(t@);
    let mut r: Vec<(Vec<NodeKey>, u8)> = Vec::new();
    let mut i: usize = 0;
    while i < m.len()
        invariant
            mvs == entry_views(m@),
            tvs == id_views(t@),
            sorted_strict(ids_of(mvs)),
            i <= m@.len(),
            sorted_strict(ids_of(entry_views(r@))),
            forall|u: int, s: int|
                0 <= u < r@.len() && i <= s < mvs.len() ==> id_lt(
                    #[trigger] entry_views(r@)[u].0,
                    #[trigger] mvs[s].0,
                ),
            forall|x: Seq<NodeKey>|
                #[trigger] has_id(entry_views(r@), x) <==> has_id(mvs.take(i as int), x)
                    && !tvs.contains(x),
            forall|k: int| 0 <= k < r@.len() ==> mvs.contains(#[trigger] entry_views(r@)[k]),
        decreases m@.len() - i,
    {
        let ghost r_old = r@;
        let ghost i_old = i as int;
        let tombed = vec_contains_id(t, &m[i].0);
        if !tombed {
            r.push((copy_id(&m[i].0), m[i].1));
        }
        i += 1;
        proof {
            let rv = entry_views(r@);
            let rov = entry_views(r_old);
            if !tombed {
                let pushed = rv[rv.len() - 1];
                assert(rv =~= rov.push(pushed));
                assert(pushed == mvs[i_old]);
                assert(mvs.contains(pushed));
                assert forall|u: int, s: int|
                    0 <= u < r@.len() && i <= s < mvs.len() implies id_lt(
                    #[trigger] entry_views(r@)[u].0,
                    #[trigger] mvs[s].0,
                ) by {
                    if u < rov.len() {
                        assert(rv[u] == rov[u]);
                    } else {
                        assert(rv[u] == pushed);
                        assert(ids_of(mvs)[i_old] == mvs[i_old].0);
                        assert(ids_of(mvs)[s] == mvs[s].0);
                    }
                }
                assert forall|u: int, s: int|
                    0 <= u < s < rv.len() implies id_lt(ids_of(rv)[u], ids_of(rv)[s]) by {
                    assert(ids_of(rv)[u] == rv[u].0);
                    assert(ids_of(rv)[s] == rv[s].0);
                    if s < rov.len() {
                        assert(rv[u] == rov[u]);
                        assert(rv[s] == rov[s]);
                        assert(ids_of(rov)[u] == rov[u].0);
                        assert(ids_of(rov)[s] == rov[s].0);
                    } else {
                        assert(rv[u] == rov[u]);
                        assert(rv[s] == pushed);
                        assert(mvs[i_old].0 == ids_of(mvs)[i_old]);
                    }
                }
            } else {
                assert(rv == rov);
            }
            assert forall|x: Seq<NodeKey>|
                #[trigger] has_id(entry_views(r@), x) <==> has_id(mvs.take(i as int), x)
                    && !tvs.contains(x) by {
                if has_id(rv, x) {
                    let u = choose|u: int| 0 <= u < rv.len() && rv[u].0 == x;
                    if u < rov.len() {
                        assert(has_id(rov, x));
                        let s = choose|s: int| 0 <= s < i_old && mvs.take(i_old)[s].0 == x;
                        assert(mvs.take(i as int)[s].0 == x);
                    } else {
                        assert(!tombed && rv[u] == mvs[i_old]);
                        assert(mvs.take(i as int)[i_old].0 == x);
                    }
                }
                if has_id(mvs.take(i as int), x) && !tvs.contains(x) {
                    let s = choose|s: int| 0 <= s < i && mvs.take(i as int)[s].0 == x;
                    if s < i_old {
                        assert(mvs.take(i_old)[s].0 == x);
                        assert(has_id(mvs.take(i_old), x));
                        assert(has_id(rov, x));
                        let u = choose|u: int| 0 <= u < rov.len() && rov[u].0 == x;
                        assert(rv[u].0 == x);
                    } else {
                        assert(mvs[i_old].0 == x);
                        assert(!tombed);
                        assert(rv[rv.len() - 1].0 == x);
                    }
                }
            }
        }
    }
    proof {
        assert(mvs.take(m@.len() as int) =~= mvs);
    }
    r
}

/// Removing one element keeps a sequence strictly ordered.
pub proof fn lemma_sorted_remove(s: Seq<Seq<NodeKey>>, at: int)
    requires
        sorted_strict(s),
        0 <= at < s.len(),
    ensures
        sorted_strict(s.remove(at)),
{
    let t = s.remove(at);
    assert forall|i: int, j: int| 0 <= i < j < t.len() implies id_lt(t[i], t[j]) by {
        if j < at {
        } else if i < at {
            assert(t[j] == s[j + 1]);
        } else {
            assert(t[i] == s[i + 1]);
            assert(t[j] == s[j + 1]);
        }
    }
}

/// What a sequence holds after inserting `v`: everything it held, and `v`.
pub proof fn lemma_membership_insert(s: Seq<Seq<NodeKey>>, at: int, v: Seq<NodeKey>, x: Seq<NodeKey>)
    requires
        0 <= at <= s.len(),
    ensures
        s.insert(at, v).contains(x) <==> s.contains(x) || x == v,
{
    let t = s.insert(at, v);
    if t.contains(x) {
        let i = choose|i: int| 0 <= i < t.len() && t[i] == x;
        if i < at {
            assert(s[i] == x);
        } else if i == at {
            assert(x == v);
        } else {
            assert(s[i - 1] == x);
        }
    }
    if s.contains(x) {
        let i = choose|i: int| 0 <= i < s.len() && s[i] == x;
        if i < at {
            assert(t[i] == x);
        } else {
            assert(t[i + 1] == x);
        }
    }
    if x == v {
        assert(t[at] == x);
    }
}

/// Inserting a value at a point that respects the order keeps the sequence
/// strictly ordered.
pub proof fn lemma_sorted_insert(s: Seq<Seq<NodeKey>>, at: int, v: Seq<NodeKey>)
    requires
        sorted_strict(s),
        0 <= at <= s.len(),
        forall|k: int| 0 <= k < at ==> id_lt(#[trigger] s[k], v),
        forall|k: int| at <= k < s.len() ==> id_lt(v, #[trigger] s[k]),
    ensures
        sorted_strict(s.insert(at, v)),
{
    let t = s.insert(at, v);
    assert forall|i: int, j: int| 0 <= i < j < t.len() implies id_lt(t[i], t[j]) by {
        if i < at && j < at {
            assert(t[i] == s[i]);
            assert(t[j] == s[j]);
        } else if i < at && j == at {
            assert(t[i] == s[i]);
        } else if i < at && j > at {
            assert(t[i] == s[i]);
            assert(t[j] == s[j - 1]);
        } else if i == at {
            assert(t[j] == s[j - 1]);
        } else {
            assert(t[i] == s[i - 1]);
            assert(t[j] == s[j - 1]);
        }
    }
}

} // verus!
