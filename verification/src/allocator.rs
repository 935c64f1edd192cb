//! The interval allocator: mints an identifier strictly between two others.
//!
//! The two neighbours' digit paths are read as big-endian prefix values,
//! depth by depth, until the first depth whose prefix values leave at least
//! one integer strictly between them. A bounded random step into that gap
//! gives the new path's value; segments of the neighbours are reused
//! wherever the new path's digits coincide with theirs, so at most one
//! freshly stamped segment appears and the path order follows the numeric
//! order.

use vstd::prelude::*;

use crate::keys::{id_lt, key_lt, NodeKey};
use crate::numeric::{
    dig, digits_add_small, digits_of, digits_sub_small, first_diff, id_val,
    lemma_digit_order, lemma_first_diff_props, lemma_gap_monotone, lemma_gap_widens_past_end,
    lemma_pow_pos, lemma_prefix_equal, lemma_range_zero, lemma_sep_iff_strict, lemma_split,
    lemma_val_pref_bounds, max_len, pow_r, radix, sep, val_pref, val_range,
};
use crate::side::Side;
use crate::{PeerId, Timestamp};

verus! {

/// Relies on rand::random_range: a uniform draw from a non-empty inclusive
/// range always lies within that range.
#[verifier::external_body]
fn draw_in_range(lo: u32, hi: u32) -> (r: u32)
    requires
        lo <= hi,
    ensures
        lo <= r && r <= hi,
{
    rand::random_range(lo..=hi)
}

/// Witness form of `lt_all_ext`: position `j` decides that `a` comes before
/// `r` and before every extension of `r`.
pub open spec fn lt_all_ext_at(a: Seq<NodeKey>, r: Seq<NodeKey>, j: int) -> bool {
    0 <= j <= r.len() && a.subrange(0, j) == r.subrange(0, j) && ((j == a.len() && j < r.len()) || (
    j < a.len() && j < r.len() && key_lt(a[j], r[j])))
}

/// `a` is ordered before `r` and before every identifier that extends `r`.
pub open spec fn lt_all_ext(a: Seq<NodeKey>, r: Seq<NodeKey>) -> bool {
    exists|j: int| lt_all_ext_at(a, r, j)
}

/// Witness form of `gt_all_ext`: position `j` decides that `r` and every
/// extension of `r` come before `b`.
pub open spec fn gt_all_ext_at(b: Seq<NodeKey>, r: Seq<NodeKey>, j: int) -> bool {
    0 <= j < r.len() && j < b.len() && b.subrange(0, j) == r.subrange(0, j) && key_lt(r[j], b[j])
}

/// `r` and every identifier that extends `r` are ordered before `b`.
pub open spec fn gt_all_ext(b: Seq<NodeKey>, r: Seq<NodeKey>) -> bool {
    exists|j: int| gt_all_ext_at(b, r, j)
}

/// A shared prefix can be skipped when comparing identifiers.
pub proof fn lemma_id_lt_common_prefix(a: Seq<NodeKey>, b: Seq<NodeKey>, j: int)
    requires
        0 <= j <= a.len(),
        j <= b.len(),
        a.subrange(0, j) == b.subrange(0, j),
    ensures
        id_lt(a, b) == id_lt(a.skip(j), b.skip(j)),
    decreases j,
{
    if j == 0 {
        assert(a.skip(0) =~= a);
        assert(b.skip(0) =~= b);
    } else {
        assert(a[0] == a.subrange(0, j)[0]);
        assert(b[0] == b.subrange(0, j)[0]);
        assert(a.drop_first().subrange(0, j - 1) =~= a.subrange(0, j).drop_first());
        assert(b.drop_first().subrange(0, j - 1) =~= b.subrange(0, j).drop_first());
        lemma_id_lt_common_prefix(a.drop_first(), b.drop_first(), j - 1);
        assert(a.drop_first().skip(j - 1) =~= a.skip(j));
        assert(b.drop_first().skip(j - 1) =~= b.skip(j));
    }
}

/// Where two ordered identifiers first diverge, the keys there are ordered.
pub proof fn lemma_id_lt_at_divergence(a: Seq<NodeKey>, b: Seq<NodeKey>, j: int)
    requires
        id_lt(a, b),
        0 <= j < a.len(),
        j < b.len(),
        a.subrange(0, j) == b.subrange(0, j),
        a[j] != b[j],
    ensures
        key_lt(a[j], b[j]),
{
    lemma_id_lt_common_prefix(a, b, j);
    assert(a.skip(j)[0] == a[j]);
    assert(b.skip(j)[0] == b[j]);
}

/// A decided order against `a` survives extending `r`.
pub proof fn lemma_lt_all_ext_push(a: Seq<NodeKey>, r: Seq<NodeKey>, x: NodeKey)
    requires
        lt_all_ext(a, r),
    ensures
        lt_all_ext(a, r.push(x)),
{
    let j = choose|j: int| lt_all_ext_at(a, r, j);
    assert(r.push(x).subrange(0, j) =~= r.subrange(0, j));
    assert(lt_all_ext_at(a, r.push(x), j));
}

/// A decided order against `b` survives extending `r`.
pub proof fn lemma_gt_all_ext_push(b: Seq<NodeKey>, r: Seq<NodeKey>, x: NodeKey)
    requires
        gt_all_ext(b, r),
    ensures
        gt_all_ext(b, r.push(x)),
{
    let j = choose|j: int| gt_all_ext_at(b, r, j);
    assert(r.push(x).subrange(0, j) =~= r.subrange(0, j));
    assert(r.push(x)[j] == r[j]);
    assert(gt_all_ext_at(b, r.push(x), j));
}

/// A decided order against `a` in particular orders `a` before `r` itself.
pub proof fn lemma_lt_all_ext_sound(a: Seq<NodeKey>, r: Seq<NodeKey>)
    requires
        lt_all_ext(a, r),
    ensures
        id_lt(a, r),
{
    let j = choose|j: int| lt_all_ext_at(a, r, j);
    lemma_id_lt_common_prefix(a, r, j);
    if j < a.len() {
        assert(a.skip(j)[0] == a[j]);
        assert(r.skip(j)[0] == r[j]);
    } else {
        assert(a.skip(j).len() == 0);
        assert(r.skip(j).len() > 0);
    }
}

/// A decided order against `b` in particular orders `r` itself before `b`.
pub proof fn lemma_gt_all_ext_sound(b: Seq<NodeKey>, r: Seq<NodeKey>)
    requires
        gt_all_ext(b, r),
    ensures
        id_lt(r, b),
{
    let j = choose|j: int| gt_all_ext_at(b, r, j);
    lemma_id_lt_common_prefix(r, b, j);
    assert(r.skip(j)[0] == r[j]);
    assert(b.skip(j)[0] == b[j]);
}

/// A proper prefix is ordered before the identifier it opens.
pub proof fn lemma_id_lt_proper_prefix(r: Seq<NodeKey>, q: Seq<NodeKey>)
    requires
        r.len() < q.len(),
        r == q.subrange(0, r.len() as int),
    ensures
        id_lt(r, q),
{
    assert(r.subrange(0, r.len() as int) =~= r);
    lemma_id_lt_common_prefix(r, q, r.len() as int);
    assert(r.skip(r.len() as int).len() == 0);
    assert(q.skip(r.len() as int).len() > 0);
}

/// Finds the allocation depth between `p` and `q`: the first depth whose
/// prefix values leave a free slot. Returns the two padded digit prefixes at
/// that depth and the step bound `min(boundary, slots)` on how far into the
/// gap an allocation may land.
fn find_interval(p: &Vec<NodeKey>, q: &Vec<NodeKey>, boundary: u32) -> (res: (
    Vec<u32>,
    Vec<u32>,
    u32,
    usize,
))
    requires
        sep(p@, q@),
        1 <= boundary <= 0xffff_fff0,
        p@.len() < usize::MAX - 1,
        q@.len() < usize::MAX - 1,
    ensures
        ({
            let (pd, qd, step, d) = res;
            &&& d >= 1
            &&& d <= max_len(p@, q@) + 1
            &&& pd@.len() == d
            &&& qd@.len() == d
            &&& forall|k: int| 0 <= k < d ==> pd@[k] == dig(digits_of(p@), k)
            &&& forall|k: int| 0 <= k < d ==> qd@[k] == dig(digits_of(q@), k)
            &&& val_pref(pd@, d as int) == id_val(p@, d as int)
            &&& val_pref(qd@, d as int) == id_val(q@, d as int)
            &&& id_val(p@, d as int) + 2 <= id_val(q@, d as int)
            &&& forall|e: int| 0 <= e < d ==> id_val(q@, e) - id_val(p@, e) <= 1
            &&& 1 <= step <= boundary
            &&& step as int <= id_val(q@, d as int) - id_val(p@, d as int) - 1
            &&& (id_val(q@, d as int) - id_val(p@, d as int) - 1 < boundary ==> step as int
                == id_val(q@, d as int) - id_val(p@, d as int) - 1)
        }),
{
    let ghost pds = digits_of(p@);
    let ghost qds = digits_of(q@);
    let ghost dstar: int = max_len(p@, q@) + 1;
    proof {
        lemma_sep_iff_strict(p@, q@);
        lemma_gap_widens_past_end(pds, qds, max_len(p@, q@));
    }
    let cap: u64 = boundary as u64 + 1;
    let mut depth: usize = 0;
    let mut dcap: u64 = 0;
    let mut pd: Vec<u32> = Vec::new();
    let mut qd: Vec<u32> = Vec::new();
    while dcap < 2
        invariant
            sep(p@, q@),
            pds == digits_of(p@),
            qds == digits_of(q@),
            dstar == max_len(p@, q@) + 1,
            id_val(p@, dstar) + 2 <= id_val(q@, dstar),
            p@.len() < usize::MAX - 1,
            q@.len() < usize::MAX - 1,
            1 <= boundary <= 0xffff_fff0,
            cap == boundary as u64 + 1,
            depth == pd@.len(),
            depth == qd@.len(),
            forall|k: int| 0 <= k < depth ==> pd@[k] == dig(pds, k),
            forall|k: int| 0 <= k < depth ==> qd@[k] == dig(qds, k),
            0 <= id_val(q@, depth as int) - id_val(p@, depth as int),
            dcap as int == if id_val(q@, depth as int) - id_val(p@, depth as int) <= cap as int {
                id_val(q@, depth as int) - id_val(p@, depth as int)
            } else {
                cap as int
            },
            forall|e: int| 0 <= e < depth ==> id_val(q@, e) - id_val(p@, e) <= 1,
            depth <= dstar,
        decreases dstar - depth,
    {
        proof {
            // the loop cannot reach the witness depth while the gap is small
            if depth as int == dstar {
                assert(false);
            }
            // usize::MAX - 1 bounds dstar, so depth + 1 fits
            assert(dstar <= usize::MAX as int);
        }
        let pdig: u32 = if depth < p.len() {
            p[depth].digit
        } else {
            0
        };
        let qdig: u32 = if depth < q.len() {
            q[depth].digit
        } else {
            0
        };
        proof {
            assert(pdig == dig(pds, depth as int));
            assert(qdig == dig(qds, depth as int));
        }
        let ghost diff_old = id_val(q@, depth as int) - id_val(p@, depth as int);
        let ghost diff_new = id_val(q@, depth as int + 1) - id_val(p@, depth as int + 1);
        proof {
            assert(diff_new == diff_old * radix() + qdig - pdig);
            if diff_new <= -1 {
                lemma_gap_monotone(qds, pds, depth as int + 1, dstar, 1);
                assert(false);
            }
            if dcap == 0 && qdig < pdig {
                assert(diff_old == 0);
                assert(diff_old * radix() == 0) by (nonlinear_arith)
                    requires
                        diff_old == 0,
                ;
                assert(false);
            }
        }
        let base: u64 = dcap * 0x1_0000_0000;
        let t: u64 = base + qdig as u64 - pdig as u64;
        proof {
            if dcap as int == diff_old {
                assert(t as int == diff_new);
            } else {
                // the capped value stays at the cap once the true gap passes it
                assert(dcap == cap);
                assert(cap as int <= diff_old);
                assert(cap as int * radix() <= diff_old * radix()) by (nonlinear_arith)
                    requires
                        cap as int <= diff_old,
                ;
                assert(cap as int * radix() - radix() + 1 >= cap as int) by (nonlinear_arith)
                    requires
                        cap >= 1,
                ;
                assert(t as int >= cap as int);
                assert(t as int <= diff_new);
            }
        }
        if t > cap {
            dcap = cap;
        } else {
            dcap = t;
        }
        pd.push(pdig);
        qd.push(qdig);
        depth = depth + 1;
    }
    proof {
        assert(depth >= 1);
        lemma_prefix_equal(pd@, pds, depth as int);
        lemma_prefix_equal(qd@, qds, depth as int);
    }
    let step: u32;
    if dcap >= cap {
        step = boundary;
        proof {
            assert(id_val(q@, depth as int) - id_val(p@, depth as int) >= cap as int);
        }
    } else {
        step = (dcap - 1) as u32;
    }
    (pd, qd, step, depth)
}

/// The segment a built identifier carries at position `i`: the neighbour
/// `p`'s whole segment where the digit matches it positionally, else `q`'s
/// where it matches, else a fresh segment stamped with the caller's
/// authorship and clock value.
pub open spec fn built_segment(
    digits: Seq<u32>,
    p: Seq<NodeKey>,
    q: Seq<NodeKey>,
    peer: PeerId,
    time: Timestamp,
    i: int,
) -> NodeKey {
    if 0 <= i < p.len() && p[i].digit == digits[i] {
        p[i]
    } else if 0 <= i < q.len() && q[i].digit == digits[i] {
        q[i]
    } else {
        NodeKey { digit: digits[i], peer_id: peer, time }
    }
}

/// Builds the identifier whose digits are `digits`, reusing a neighbour's
/// whole segment wherever the digit matches it positionally, and stamping
/// the remaining positions with the caller's authorship. The result is
/// ordered strictly between `p` and `q`.
fn construct_id(
    digits: &Vec<u32>,
    p: &Vec<NodeKey>,
    q: &Vec<NodeKey>,
    peer: PeerId,
    time: Timestamp,
) -> (r: Vec<NodeKey>)
    requires
        digits@.len() >= 1,
        id_lt(p@, q@),
        id_val(p@, digits@.len() as int) < val_pref(digits@, digits@.len() as int),
        val_pref(digits@, digits@.len() as int) < id_val(q@, digits@.len() as int),
        forall|e: int| 0 <= e < digits@.len() ==> id_val(q@, e) - id_val(p@, e) <= 1,
    ensures
        r@.len() == digits@.len(),
        forall|k: int| 0 <= k < r@.len() ==> r@[k].digit == digits@[k],
        forall|k: int|
            0 <= k < r@.len() ==> r@[k] == built_segment(digits@, p@, q@, peer, time, k),
        id_lt(p@, r@),
        id_lt(r@, q@),
{
    let d = digits.len();
    let ghost ds = digits@;
    let ghost pds = digits_of(p@);
    let ghost qds = digits_of(q@);
    let mut r: Vec<NodeKey> = Vec::new();
    let mut i: usize = 0;
    while i < d
        invariant
            d == digits@.len(),
            d >= 1,
            ds == digits@,
            pds == digits_of(p@),
            qds == digits_of(q@),
            id_lt(p@, q@),
            val_pref(pds, d as int) < val_pref(ds, d as int),
            val_pref(ds, d as int) < val_pref(qds, d as int),
            forall|e: int| 0 <= e < d ==> id_val(q@, e) - id_val(p@, e) <= 1,
            i <= d,
            r@.len() == i,
            forall|k: int| 0 <= k < i ==> r@[k].digit == ds[k],
            forall|k: int| 0 <= k < i ==> r@[k] == built_segment(ds, p@, q@, peer, time, k),
            (i <= p@.len() && r@ == p@.subrange(0, i as int)) || (lt_all_ext(p@, r@) && (
            p@.len() < i || first_diff(pds, ds, 0, d as int) < i)),
            (i <= q@.len() && r@ == q@.subrange(0, i as int)) || gt_all_ext(q@, r@),
        decreases d - i,
    {
        let ghost r_old = r@;
        let ghost ri = i as int;
        let ghost pe = i <= p@.len() && r@ == p@.subrange(0, ri);
        let ghost qe = i <= q@.len() && r@ == q@.subrange(0, ri);
        let dg = digits[i];
        let seg: NodeKey;
        if i < p.len() && p[i].digit == dg {
            seg = p[i];
        } else if i < q.len() && q[i].digit == dg {
            seg = q[i];
        } else {
            seg = NodeKey { digit: dg, peer_id: peer, time };
        }
        r.push(seg);
        proof {
            let rn = r_old.push(seg);
            assert(r@ == rn);
            assert(seg.digit == dg);
            assert(dg == dig(ds, ri));
            assert(seg == built_segment(ds, p@, q@, peer, time, ri));
            lemma_first_diff_props(pds, ds, 0, d as int);
            lemma_first_diff_props(ds, qds, 0, d as int);
            lemma_digit_order(pds, ds, d as int);
            lemma_digit_order(ds, qds, d as int);
            let fdp = first_diff(pds, ds, 0, d as int);
            let fdq = first_diff(ds, qds, 0, d as int);
            // digits recorded so far agree with the neighbours' digits
            // wherever the prefix is still exact
            if pe {
                assert forall|k: int| 0 <= k < ri implies dig(pds, k) == dig(ds, k) by {
                    assert(r_old[k] == p@.subrange(0, ri)[k]);
                    assert(r_old[k].digit == ds[k]);
                }
            }
            if qe {
                assert forall|k: int| 0 <= k < ri implies dig(ds, k) == dig(qds, k) by {
                    assert(r_old[k] == q@.subrange(0, ri)[k]);
                    assert(r_old[k].digit == ds[k]);
                }
            }
            // P side
            if !pe {
                lemma_lt_all_ext_push(p@, r_old, seg);
            } else if ri == p@.len() {
                assert(p@.subrange(0, ri) =~= p@);
                assert(rn.subrange(0, ri) =~= r_old);
                assert(lt_all_ext_at(p@, rn, ri));
            } else if p@[ri].digit == dg {
                // the segment taken is p's own
                assert(seg == p@[ri]);
                assert(rn =~= p@.subrange(0, ri + 1));
            } else {
                // digits first diverge from p's exactly here, and numerically
                // upward, so p is decided smaller whatever follows
                assert(dig(pds, ri) != dig(ds, ri));
                assert(fdp == ri) by {
                    if fdp < ri {
                        assert(dig(pds, fdp) == dig(ds, fdp));
                    }
                    if fdp > ri {
                        assert(dig(pds, ri) == dig(ds, ri));
                    }
                }
                assert(dig(pds, fdp) < dig(ds, fdp));
                assert(key_lt(p@[ri], seg));
                assert(p@.subrange(0, ri) =~= rn.subrange(0, ri));
                assert(lt_all_ext_at(p@, rn, ri));
            }
            // Q side
            if !qe {
                lemma_gt_all_ext_push(q@, r_old, seg);
            } else if ri == q@.len() {
                // the digits would then dominate q's value: impossible
                assert forall|k: int| 0 <= k < ri implies dig(ds, k) == dig(qds, k) by {}
                lemma_prefix_equal(ds, qds, ri);
                lemma_split(ds, ri, d as int);
                lemma_split(qds, ri, d as int);
                lemma_range_zero(qds, ri, d as int);
                crate::numeric::lemma_val_range_bounds(ds, ri, d as int);
                assert(false);
            } else if q@[ri].digit != dg {
                // digits first diverge from q's exactly here, numerically
                // downward, so everything extending r stays below q
                assert(dig(ds, ri) != dig(qds, ri));
                assert(fdq == ri) by {
                    if fdq < ri {
                        assert(dig(ds, fdq) == dig(qds, fdq));
                    }
                    if fdq > ri {
                        assert(dig(ds, ri) == dig(qds, ri));
                    }
                }
                assert(dig(ds, fdq) < dig(qds, fdq));
                assert(key_lt(seg, q@[ri]));
                assert(q@.subrange(0, ri) =~= rn.subrange(0, ri));
                assert(rn[ri] == seg);
                assert(gt_all_ext_at(q@, rn, ri));
            } else {
                // q's digit matches here
                if !(i < p.len() && p@[ri].digit == dg) {
                    // q's segment was taken whole
                    assert(seg == q@[ri]);
                    assert(rn =~= q@.subrange(0, ri + 1));
                } else {
                    // p's segment was taken although q's digit matches too
                    assert(seg == p@[ri]);
                    if p@[ri] == q@[ri] {
                        assert(rn =~= q@.subrange(0, ri + 1));
                    } else if pe {
                        // p and q agree up to here and split at this very
                        // key, so the key order follows the path order
                        assert(p@.subrange(0, ri) =~= q@.subrange(0, ri));
                        lemma_id_lt_at_divergence(p@, q@, ri);
                        assert(key_lt(p@[ri], q@[ri]));
                        assert(q@.subrange(0, ri) =~= rn.subrange(0, ri));
                        assert(rn[ri] == seg);
                        assert(gt_all_ext_at(q@, rn, ri));
                    } else {
                        // p's digits diverged below the digits earlier while
                        // q's still match them: the prefix gap would already
                        // exceed one slot before the allocation depth
                        assert(p@.len() >= ri);
                        assert(fdp < ri);
                        assert(dig(pds, fdp) < dig(ds, fdp));
                        assert forall|k: int| 0 <= k < fdp implies dig(pds, k) == dig(qds, k) by {
                            assert(dig(pds, k) == dig(ds, k));
                        }
                        lemma_prefix_equal(pds, qds, fdp);
                        assert(dig(qds, fdp) == dig(ds, fdp));
                        assert(val_pref(qds, fdp + 1) - val_pref(pds, fdp + 1) >= 1);
                        if ri + 1 < d {
                            lemma_gap_monotone(pds, qds, fdp + 1, ri, 1);
                            assert(val_pref(qds, ri + 1) == val_pref(qds, ri) * radix() + dig(
                                qds,
                                ri,
                            ));
                            assert(val_pref(pds, ri + 1) == val_pref(pds, ri) * radix() + dig(
                                pds,
                                ri,
                            ));
                            assert(dig(qds, ri) == dig(pds, ri));
                            assert((val_pref(qds, ri) - val_pref(pds, ri)) * radix() >= radix())
                                by (nonlinear_arith)
                                requires
                                    val_pref(qds, ri) - val_pref(pds, ri) >= 1,
                            ;
                            assert(val_pref(qds, ri) * radix() - val_pref(pds, ri) * radix() == (
                            val_pref(qds, ri) - val_pref(pds, ri)) * radix()) by (nonlinear_arith);
                            assert(val_pref(qds, ri + 1) - val_pref(pds, ri + 1) >= radix());
                            assert(id_val(q@, ri + 1) == val_pref(qds, ri + 1));
                            assert(id_val(p@, ri + 1) == val_pref(pds, ri + 1));
                            assert(id_val(q@, ri + 1) - id_val(p@, ri + 1) <= 1);
                            assert(false);
                        } else {
                            assert(ri + 1 == d);
                            assert forall|k: int| 0 <= k < d implies dig(ds, k) == dig(qds, k)
                                by {}
                            lemma_prefix_equal(ds, qds, d as int);
                            assert(false);
                        }
                    }
                }
            }
        }
        i += 1;
    }
    proof {
        // the prefixes cannot still be exact at full depth: the values would
        // then coincide, which the strict bounds rule out
        if i <= p@.len() && r@ == p@.subrange(0, i as int) {
            assert forall|k: int| 0 <= k < d implies dig(pds, k) == dig(ds, k) by {
                assert(r@[k] == p@.subrange(0, i as int)[k]);
                assert(r@[k].digit == ds[k]);
            }
            lemma_prefix_equal(pds, ds, d as int);
            assert(false);
        }
        lemma_lt_all_ext_sound(p@, r@);
        if i <= q@.len() && r@ == q@.subrange(0, i as int) {
            if d == q@.len() {
                assert forall|k: int| 0 <= k < d implies dig(ds, k) == dig(qds, k) by {
                    assert(r@[k] == q@.subrange(0, i as int)[k]);
                    assert(r@[k].digit == ds[k]);
                }
                lemma_prefix_equal(ds, qds, d as int);
                assert(false);
            } else {
                lemma_id_lt_proper_prefix(r@, q@);
            }
        } else {
            lemma_gt_all_ext_sound(q@, r@);
        }
    }
    r
}

/// Mints a fresh identifier strictly between `p` and `q`.
///
/// The allocation depth is the first depth at which the neighbours leave a
/// free slot; the depth's growth direction is fixed pseudo-randomly the
/// first time the depth is used and cached in `strategy` for the session's
/// lifetime; the step into the gap is drawn uniformly from `[1, min(boundary,
/// slots)]`.
pub fn allocate_between(
    p: &Vec<NodeKey>,
    q: &Vec<NodeKey>,
    side: &mut Side,
    strategy: &mut Vec<Option<bool>>,
    boundary: u32,
) -> (r: Vec<NodeKey>)
    requires
        sep(p@, q@),
        id_lt(p@, q@),
        1 <= boundary <= 0xffff_fff0,
        old(side).time < Timestamp::MAX,
        p@.len() < usize::MAX - 1,
        q@.len() < usize::MAX - 1,
    ensures
        id_lt(p@, r@),
        id_lt(r@, q@),
        sep(p@, r@),
        sep(r@, q@),
        r@.len() >= 1,
        r@.len() <= max_len(p@, q@) + 1,
        id_val(p@, r@.len() as int) + 2 <= id_val(q@, r@.len() as int),
        forall|e: int| 0 <= e < r@.len() ==> id_val(q@, e) - id_val(p@, e) <= 1,
        // whole segments are reused from a neighbour wherever the digit
        // matches positionally; the rest carry the caller's authorship and
        // the clock value consumed by this allocation
        forall|k: int|
            0 <= k < r@.len() ==> r@[k] == crate::allocator::built_segment(
                digits_of(r@),
                p@,
                q@,
                old(side).peer_id,
                old(side).time,
                k,
            ),
        // the new prefix value lies strictly inside the gap, at most
        // `boundary` away from the neighbour on the grown side, whose choice
        // is the strategy cached for this depth
        id_val(p@, r@.len() as int) < id_val(r@, r@.len() as int),
        id_val(r@, r@.len() as int) < id_val(q@, r@.len() as int),
        final(strategy)@.len() >= r@.len(),
        final(strategy)@[r@.len() - 1] is Some,
        final(strategy)@[r@.len() - 1] == Some(true) ==> id_val(r@, r@.len() as int) - id_val(
            p@,
            r@.len() as int,
        ) <= boundary,
        final(strategy)@[r@.len() - 1] == Some(false) ==> id_val(q@, r@.len() as int) - id_val(
            r@,
            r@.len() as int,
        ) <= boundary,
        final(side).peer_id == old(side).peer_id,
        final(side).time == old(side).time + 1,
        final(strategy)@.len() >= old(strategy)@.len(),
        forall|k: int|
            0 <= k < old(strategy)@.len() && old(strategy)@[k] is Some ==> final(strategy)@[k]
                == old(strategy)@[k],
{
    let (pd, qd, step, depth) = find_interval(p, q, boundary);
    let ghost strat0 = strategy@;
    while strategy.len() < depth
        invariant
            strategy@.len() >= strat0.len() || strategy@.len() <= depth,
            strategy@.subrange(0, strat0.len() as int) == strat0 || strat0.len()
                > strategy@.len(),
            forall|k: int| strat0.len() <= k < strategy@.len() ==> strategy@[k] is None,
            strategy@.len() >= strat0.len(),
        decreases depth - strategy@.len(),
    {
        let ghost before = strategy@;
        strategy.push(None);
        proof {
            assert(strategy@.subrange(0, strat0.len() as int) =~= before.subrange(
                0,
                strat0.len() as int,
            ));
        }
    }
    let grow_left: bool;
    let existing = strategy[depth - 1];
    match existing {
        Some(b) => {
            grow_left = b;
        },
        None => {
            let b = draw_in_range(0, 1) == 0;
            strategy.set(depth - 1, Some(b));
            grow_left = b;
        },
    }
    let val = draw_in_range(1, step);
    let ghost d = depth as int;
    proof {
        lemma_val_pref_bounds(qd@, d);
        lemma_val_pref_bounds(pd@, d);
    }
    let digits: Vec<u32>;
    if grow_left {
        digits = digits_add_small(&pd, val);
    } else {
        digits = digits_sub_small(&qd, val);
    }
    proof {
        assert(id_val(p@, d) < val_pref(digits@, d));
        assert(val_pref(digits@, d) < id_val(q@, d));
    }
    let time = side.time_inc();
    let peer = side.peer_id();
    let r = construct_id(&digits, p, q, peer, time);
    proof {
        let rds = digits_of(r@);
        assert forall|k: int| 0 <= k < d implies dig(rds, k) == dig(digits@, k) by {
            assert(r@[k].digit == digits@[k]);
        }
        lemma_prefix_equal(rds, digits@, d);
        // the new path's value sits strictly inside the gap at its own
        // depth, so a free slot opens against each neighbour a little deeper
        let mp = max_len(p@, r@);
        lemma_gap_monotone(digits_of(p@), rds, d, mp, 1);
        lemma_gap_widens_past_end(digits_of(p@), rds, mp);
        assert(id_val(p@, mp + 1) + 2 <= id_val(r@, mp + 1));
        assert(sep(p@, r@));
        let mq = max_len(r@, q@);
        lemma_gap_monotone(rds, digits_of(q@), d, mq, 1);
        lemma_gap_widens_past_end(rds, digits_of(q@), mq);
        assert(id_val(r@, mq + 1) + 2 <= id_val(q@, mq + 1));
        assert(sep(r@, q@));
        // the digit path read back from the result is the one constructed
        assert(rds.len() == digits@.len());
        assert forall|k: int| 0 <= k < rds.len() implies rds[k] == digits@[k] by {
            assert(r@[k].digit == digits@[k]);
        }
        assert(rds =~= digits@);
        assert forall|k: int|
            0 <= k < r@.len() implies r@[k] == crate::allocator::built_segment(
            rds,
            p@,
            q@,
            peer,
            time,
            k,
        ) by {
            assert(r@[k] == crate::allocator::built_segment(digits@, p@, q@, peer, time, k));
        }
        // the cached strategy entry records the grown side and its cap
        assert(strategy@[d - 1] == Some(grow_left));
        assert(id_val(r@, d) == val_pref(digits@, d));
        if grow_left {
            assert(val_pref(digits@, d) == id_val(p@, d) + val);
        } else {
            assert(val_pref(digits@, d) == id_val(q@, d) - val);
        }
    }
    r
}

} // verus!
