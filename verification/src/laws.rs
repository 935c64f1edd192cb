//! The convergence laws of the store, stated and proved once for all
//! well-formed states, over the same views that the operations' contracts
//! use.

use vstd::prelude::*;

use crate::keys::{bos_id, eos_id, id_lt, lemma_id_lt_irrefl, lemma_id_lt_trans, NodeKey};
use crate::numeric::{max_len, sep};
use crate::store::{
    alloc_ready, has_id, ids_of, in_bounds, lemma_payload_unique, load_ok, merge_post,
    payload_of, sorted_strict, Doc,
};

verus! {

/// Total order law: in any well-formed store the identifiers form a strict
/// chain from the begin sentinel to the end sentinel, so any identifiers a
/// run of inserts has produced satisfy, once sorted, BOS < id_1 < ... <
/// id_n < EOS, and no two live entries compare equal.
pub proof fn lemma_store_total_order(d: Doc)
    requires
        d.wf(),
    ensures
        d.ids()[0] == bos_id(),
        d.ids()[d.ids().len() - 1] == eos_id(),
        forall|i: int, j: int| 0 <= i < j < d.ids().len() ==> id_lt(d.ids()[i], d.ids()[j]),
        forall|i: int, j: int|
            0 <= i < j < d.ids().len() ==> #[trigger] d.ids()[i] != #[trigger] d.ids()[j],
{
    assert forall|i: int, j: int|
        0 <= i < j < d.ids().len() implies #[trigger] d.ids()[i] != #[trigger] d.ids()[j] by {
        assert(id_lt(d.ids()[i], d.ids()[j]));
        if d.ids()[i] == d.ids()[j] {
            lemma_id_lt_irrefl(d.ids()[i]);
        }
    }
}

/// Remote-insert idempotence law: once a remote insert of `id` has been
/// applied, the store holds `id`, so by `insert_id`'s contract a second
/// application of the same insert returns `DuplicateIdentifier` and leaves
/// the store exactly as one application left it.
pub proof fn lemma_remote_insert_idempotent(d0: Doc, d1: Doc, id: Seq<NodeKey>, data: u8)
    requires
        d0.wf(),
        in_bounds(id),
        !has_id(d0.entries(), id),
        exists|i: int|
            0 < i < d0.entries().len() && d1.entries() == d0.entries().insert(i, (id, data)),
    ensures
        has_id(d1.entries(), id),
{
    let i = choose|i: int|
        0 < i < d0.entries().len() && d1.entries() == d0.entries().insert(i, (id, data));
    assert(d1.entries()[i].0 == id);
}

/// Remote-remove idempotence law: once a remote remove of `id` has been
/// applied, `id` is tombstoned and no longer live, so by `remove_id`'s
/// contract a second application of the same remove succeeds again as a
/// no-op: the entries and the tombstones are exactly those one application
/// left.
pub proof fn lemma_remote_remove_idempotent(d0: Doc, d1: Doc, id: Seq<NodeKey>)
    requires
        d0.wf(),
        d1.wf(),
        in_bounds(id),
        has_id(d0.entries(), id) || d0.has_tomb(id),
        forall|x: Seq<NodeKey>| d1.has_tomb(x) <==> d0.has_tomb(x) || x == id,
        has_id(d0.entries(), id) ==> exists|i: int|
            0 < i < d0.entries().len() - 1 && d0.entries()[i].0 == id && d1.entries()
                == d0.entries().remove(i),
        !has_id(d0.entries(), id) ==> d1.entries() == d0.entries(),
    ensures
        d1.has_tomb(id),
        !has_id(d1.entries(), id),
        forall|x: Seq<NodeKey>| (d1.has_tomb(x) || x == id) <==> d1.has_tomb(x),
{
    if has_id(d0.entries(), id) {
        let i = choose|i: int|
            0 < i < d0.entries().len() - 1 && d0.entries()[i].0 == id && d1.entries()
                == d0.entries().remove(i);
        if has_id(d1.entries(), id) {
            let u = choose|u: int| 0 <= u < d1.entries().len() && d1.entries()[u].0 == id;
            // the surviving occurrence would be a second occurrence in d0
            let v: int = if u < i {
                u
            } else {
                u + 1
            };
            assert(d0.entries()[v].0 == id);
            assert(ids_of(d0.entries())[v] == id);
            assert(ids_of(d0.entries())[i] == id);
            if v < i {
                assert(id_lt(ids_of(d0.entries())[v], ids_of(d0.entries())[i]));
            } else {
                assert(id_lt(ids_of(d0.entries())[i], ids_of(d0.entries())[v]));
            }
            lemma_id_lt_irrefl(id);
        }
    } else {
        if has_id(d1.entries(), id) {
            assert(has_id(d0.entries(), id));
        }
    }
}

/// Two strictly ordered identifier sequences with the same members are the
/// same sequence.
pub proof fn lemma_sorted_ids_unique(s: Seq<Seq<NodeKey>>, t: Seq<Seq<NodeKey>>)
    requires
        sorted_strict(s),
        sorted_strict(t),
        forall|x: Seq<NodeKey>| s.contains(x) <==> t.contains(x),
    ensures
        s == t,
    decreases s.len(),
{
    if s.len() == 0 {
        if t.len() > 0 {
            assert(t.contains(t[0]));
            assert(s.contains(t[0]));
        }
        assert(s =~= t);
    } else {
        assert(s.contains(s[0]));
        assert(t.contains(s[0]));
        if t.len() == 0 {
            assert(t.contains(s[0]));
        }
        let k = choose|k: int| 0 <= k < t.len() && t[k] == s[0];
        assert(t.contains(t[0]));
        assert(s.contains(t[0]));
        let m = choose|m: int| 0 <= m < s.len() && s[m] == t[0];
        if k > 0 {
            assert(id_lt(t[0], t[k]));
            if m == 0 {
                lemma_id_lt_irrefl(t[0]);
            } else {
                assert(id_lt(s[0], s[m]));
                lemma_id_lt_trans(s[0], s[m], s[0]);
                lemma_id_lt_irrefl(s[0]);
            }
        }
        assert(t[0] == s[0]);
        let sd = s.drop_first();
        let td = t.drop_first();
        assert forall|i: int, j: int| 0 <= i < j < sd.len() implies id_lt(sd[i], sd[j]) by {
            assert(sd[i] == s[i + 1]);
            assert(sd[j] == s[j + 1]);
        }
        assert forall|i: int, j: int| 0 <= i < j < td.len() implies id_lt(td[i], td[j]) by {
            assert(td[i] == t[i + 1]);
            assert(td[j] == t[j + 1]);
        }
        assert forall|x: Seq<NodeKey>| sd.contains(x) <==> td.contains(x) by {
            if sd.contains(x) {
                let i = choose|i: int| 0 <= i < sd.len() && sd[i] == x;
                assert(s[i + 1] == x);
                assert(s.contains(x));
                assert(t.contains(x));
                let j = choose|j: int| 0 <= j < t.len() && t[j] == x;
                if j == 0 {
                    assert(id_lt(s[0], s[i + 1]));
                    lemma_id_lt_irrefl(x);
                }
                assert(td[j - 1] == x);
                assert(td.contains(x));
            }
            if td.contains(x) {
                let i = choose|i: int| 0 <= i < td.len() && td[i] == x;
                assert(t[i + 1] == x);
                assert(t.contains(x));
                assert(s.contains(x));
                let j = choose|j: int| 0 <= j < s.len() && s[j] == x;
                if j == 0 {
                    assert(id_lt(t[0], t[i + 1]));
                    lemma_id_lt_irrefl(x);
                }
                assert(sd[j - 1] == x);
                assert(sd.contains(x));
            }
        }
        lemma_sorted_ids_unique(sd, td);
        assert forall|i: int| 0 <= i < s.len() implies s[i] == t[i] by {
            if i > 0 {
                assert(s[i] == sd[i - 1]);
                assert(t[i] == td[i - 1]);
            }
        }
        assert(s =~= t);
    }
}

/// Two strictly ordered entry lists that hold the same identifiers with the
/// same payloads are the same list.
pub proof fn lemma_sorted_entries_unique(s: Seq<(Seq<NodeKey>, u8)>, t: Seq<(Seq<NodeKey>, u8)>)
    requires
        sorted_strict(ids_of(s)),
        sorted_strict(ids_of(t)),
        forall|x: Seq<NodeKey>| #[trigger] has_id(s, x) <==> has_id(t, x),
        forall|x: Seq<NodeKey>|
            has_id(s, x) ==> #[trigger] payload_of(s, x) == payload_of(t, x),
    ensures
        s == t,
    decreases s.len(),
{
    if s.len() == 0 {
        if t.len() > 0 {
            assert(t[0].0 == t[0].0);
            assert(has_id(t, t[0].0));
            assert(has_id(s, t[0].0));
        }
        assert(s =~= t);
    } else {
        lemma_payload_unique(s, 0);
        assert(has_id(t, s[0].0));
        let k = choose|k: int| 0 <= k < t.len() && t[k].0 == s[0].0;
        lemma_payload_unique(t, 0);
        assert(has_id(s, t[0].0));
        let m = choose|m: int| 0 <= m < s.len() && s[m].0 == t[0].0;
        if k > 0 {
            assert(ids_of(t)[0] == t[0].0);
            assert(ids_of(t)[k] == t[k].0);
            assert(id_lt(t[0].0, t[k].0));
            if m == 0 {
                lemma_id_lt_irrefl(t[0].0);
            } else {
                assert(ids_of(s)[0] == s[0].0);
                assert(ids_of(s)[m] == s[m].0);
                assert(id_lt(s[0].0, s[m].0));
                lemma_id_lt_trans(s[0].0, s[m].0, s[0].0);
                lemma_id_lt_irrefl(s[0].0);
            }
        }
        assert(t[0].0 == s[0].0);
        lemma_payload_unique(t, k);
        assert(payload_of(t, s[0].0) == t[0].1);
        assert(s[0] == t[0]);
        let sd = s.drop_first();
        let td = t.drop_first();
        assert forall|i: int, j: int|
            0 <= i < j < sd.len() implies id_lt(ids_of(sd)[i], ids_of(sd)[j]) by {
            assert(ids_of(sd)[i] == sd[i].0);
            assert(ids_of(sd)[j] == sd[j].0);
            assert(sd[i] == s[i + 1]);
            assert(sd[j] == s[j + 1]);
            assert(ids_of(s)[i + 1] == s[i + 1].0);
            assert(ids_of(s)[j + 1] == s[j + 1].0);
        }
        assert forall|i: int, j: int|
            0 <= i < j < td.len() implies id_lt(ids_of(td)[i], ids_of(td)[j]) by {
            assert(ids_of(td)[i] == td[i].0);
            assert(ids_of(td)[j] == td[j].0);
            assert(td[i] == t[i + 1]);
            assert(td[j] == t[j + 1]);
            assert(ids_of(t)[i + 1] == t[i + 1].0);
            assert(ids_of(t)[j + 1] == t[j + 1].0);
        }
        assert forall|x: Seq<NodeKey>| #[trigger] has_id(sd, x) <==> has_id(td, x) by {
            if has_id(sd, x) {
                let i = choose|i: int| 0 <= i < sd.len() && sd[i].0 == x;
                assert(s[i + 1].0 == x);
                assert(has_id(s, x));
                assert(has_id(t, x));
                let j = choose|j: int| 0 <= j < t.len() && t[j].0 == x;
                if j == 0 {
                    assert(ids_of(s)[0] == s[0].0);
                    assert(ids_of(s)[i + 1] == s[i + 1].0);
                    assert(id_lt(s[0].0, s[i + 1].0));
                    lemma_id_lt_irrefl(x);
                }
                assert(td[j - 1].0 == x);
                assert(has_id(td, x));
            }
            if has_id(td, x) {
                let i = choose|i: int| 0 <= i < td.len() && td[i].0 == x;
                assert(t[i + 1].0 == x);
                assert(has_id(t, x));
                assert(has_id(s, x));
                let j = choose|j: int| 0 <= j < s.len() && s[j].0 == x;
                if j == 0 {
                    assert(ids_of(t)[0] == t[0].0);
                    assert(ids_of(t)[i + 1] == t[i + 1].0);
                    assert(id_lt(t[0].0, t[i + 1].0));
                    lemma_id_lt_irrefl(x);
                }
                assert(sd[j - 1].0 == x);
                assert(has_id(sd, x));
            }
        }
        assert forall|x: Seq<NodeKey>|
            has_id(sd, x) implies #[trigger] payload_of(sd, x) == payload_of(td, x) by {
            let i = choose|i: int| 0 <= i < sd.len() && sd[i].0 == x;
            lemma_payload_unique(sd, i);
            assert(s[i + 1].0 == x);
            assert(has_id(s, x));
            lemma_payload_unique(s, i + 1);
            assert(has_id(td, x));
            let j = choose|j: int| 0 <= j < td.len() && td[j].0 == x;
            lemma_payload_unique(td, j);
            assert(t[j + 1].0 == x);
            lemma_payload_unique(t, j + 1);
        }
        lemma_sorted_entries_unique(sd, td);
        assert forall|i: int| 0 <= i < s.len() implies s[i] == t[i] by {
            if i > 0 {
                assert(s[i] == sd[i - 1]);
                assert(t[i] == td[i - 1]);
            }
        }
        assert(s =~= t);
    }
}

/// Merge convergence law, commutativity: when two replicas each merge the
/// other's state, and their payloads agree wherever both hold the same
/// identifier (as they do for edits made independently from a common
/// state), the two merged stores are identical.
pub proof fn lemma_merge_commutes(a: Doc, b: Doc, ab: Doc, ba: Doc)
    requires
        a.wf(),
        b.wf(),
        ab.wf(),
        ba.wf(),
        merge_post(a, b, ab),
        merge_post(b, a, ba),
        forall|x: Seq<NodeKey>|
            has_id(a.entries(), x) && has_id(b.entries(), x) ==> #[trigger] payload_of(
                a.entries(),
                x,
            ) == payload_of(b.entries(), x),
    ensures
        ab.entries() == ba.entries(),
        ab.tomb_seq() == ba.tomb_seq(),
{
    assert forall|x: Seq<NodeKey>| #[trigger] has_id(ab.entries(), x) <==> has_id(
        ba.entries(),
        x,
    ) by {
        assert(has_id(ab.entries(), x) <==> ((has_id(a.entries(), x) || has_id(b.entries(), x))
            && !(a.has_tomb(x) || b.has_tomb(x))));
        assert(has_id(ba.entries(), x) <==> ((has_id(b.entries(), x) || has_id(a.entries(), x))
            && !(b.has_tomb(x) || a.has_tomb(x))));
    }
    assert forall|x: Seq<NodeKey>|
        has_id(ab.entries(), x) implies #[trigger] payload_of(ab.entries(), x) == payload_of(
        ba.entries(),
        x,
    ) by {
        assert(has_id(ba.entries(), x));
        if has_id(a.entries(), x) && has_id(b.entries(), x) {
            assert(payload_of(ab.entries(), x) == payload_of(a.entries(), x));
            assert(payload_of(ba.entries(), x) == payload_of(b.entries(), x));
        } else if has_id(a.entries(), x) {
            assert(payload_of(ab.entries(), x) == payload_of(a.entries(), x));
            assert(payload_of(ba.entries(), x) == payload_of(a.entries(), x));
        } else {
            assert(has_id(b.entries(), x));
            assert(payload_of(ab.entries(), x) == payload_of(b.entries(), x));
            assert(payload_of(ba.entries(), x) == payload_of(b.entries(), x));
        }
    }
    lemma_sorted_entries_unique(ab.entries(), ba.entries());
    assert forall|x: Seq<NodeKey>| ab.tomb_seq().contains(x) <==> ba.tomb_seq().contains(x) by {
        assert(ab.has_tomb(x) <==> a.has_tomb(x) || b.has_tomb(x));
        assert(ba.has_tomb(x) <==> b.has_tomb(x) || a.has_tomb(x));
    }
    lemma_sorted_ids_unique(ab.tomb_seq(), ba.tomb_seq());
}

/// Merge convergence law, idempotence: merging a merged state with one of
/// its own inputs changes nothing.
pub proof fn lemma_merge_idempotent(a: Doc, b: Doc, ab: Doc, aba: Doc)
    requires
        a.wf(),
        b.wf(),
        ab.wf(),
        aba.wf(),
        merge_post(a, b, ab),
        merge_post(ab, a, aba),
    ensures
        aba.entries() == ab.entries(),
        aba.tomb_seq() == ab.tomb_seq(),
{
    assert forall|x: Seq<NodeKey>| #[trigger] has_id(aba.entries(), x) <==> has_id(
        ab.entries(),
        x,
    ) by {
        assert(has_id(aba.entries(), x) <==> ((has_id(ab.entries(), x) || has_id(
            a.entries(),
            x,
        )) && !(ab.has_tomb(x) || a.has_tomb(x))));
        assert(ab.has_tomb(x) <==> a.has_tomb(x) || b.has_tomb(x));
        assert(has_id(ab.entries(), x) <==> ((has_id(a.entries(), x) || has_id(b.entries(), x))
            && !(a.has_tomb(x) || b.has_tomb(x))));
    }
    assert forall|x: Seq<NodeKey>|
        has_id(aba.entries(), x) implies #[trigger] payload_of(aba.entries(), x) == payload_of(
        ab.entries(),
        x,
    ) by {
        assert(has_id(ab.entries(), x));
        assert(payload_of(aba.entries(), x) == payload_of(ab.entries(), x));
    }
    lemma_sorted_entries_unique(aba.entries(), ab.entries());
    assert forall|x: Seq<NodeKey>| aba.tomb_seq().contains(x) <==> ab.tomb_seq().contains(x) by {
        assert(aba.has_tomb(x) <==> ab.has_tomb(x) || a.has_tomb(x));
        assert(ab.has_tomb(x) <==> a.has_tomb(x) || b.has_tomb(x));
    }
    lemma_sorted_ids_unique(aba.tomb_seq(), ab.tomb_seq());
}

/// Persistence round-trip law: what a well-formed store exports is exactly
/// a blob that `load_state` accepts — so, by the contracts of
/// `export_state` and `load_state`, loading an exported state returns `Ok`
/// with the same entries and the same tombstones.
pub proof fn lemma_export_load_round_trip(d: Doc)
    requires
        d.wf(),
    ensures
        load_ok(d.entries(), d.tomb_seq()),
{
    assert(ids_of(d.entries())[0] == d.entries()[0].0);
    assert(ids_of(d.entries())[d.entries().len() - 1] == d.entries()[d.entries().len() - 1].0);
}

/// Boundary adjacency law: a freshly minted identifier is at most one
/// segment deeper than its longer neighbour, and both adjacencies it
/// creates are themselves ready for a further allocation — so inserting
/// repeatedly at one offset can never exhaust the allocator, and the paths
/// grow by at most one segment per insertion.
pub proof fn lemma_allocation_stays_ready(p: Seq<NodeKey>, q: Seq<NodeKey>, id: Seq<NodeKey>)
    requires
        sep(p, id),
        sep(id, q),
        id.len() <= max_len(p, q) + 1,
        p.len() < usize::MAX - 2,
        q.len() < usize::MAX - 2,
    ensures
        alloc_ready(p, id),
        alloc_ready(id, q),
{
}

} // verus!
