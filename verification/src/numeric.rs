//! The numeric model of identifier paths.
//!
//! The digit sequence of an identifier, zero-padded to a depth `d`, is read
//! as the big-endian base-2^32 value of that prefix. The allocator reasons
//! about the free slots between two identifiers through these prefix values.

use vstd::prelude::*;

use crate::keys::NodeKey;

verus! {

/// The base of the digit representation: each digit is one `u32`.
pub open spec fn radix() -> int {
    0x1_0000_0000
}

/// `radix()` to the power `k`.
pub open spec fn pow_r(k: nat) -> int
    decreases k,
{
    if k == 0 {
        1
    } else {
        radix() * pow_r((k - 1) as nat)
    }
}

/// The digit of `ds` at position `i`, zero beyond the end.
pub open spec fn dig(ds: Seq<u32>, i: int) -> u32 {
    if 0 <= i < ds.len() {
        ds[i]
    } else {
        0
    }
}

/// Big-endian value of the first `d` (zero-padded) digits of `ds`.
pub open spec fn val_pref(ds: Seq<u32>, d: int) -> int
    decreases d,
{
    if d <= 0 {
        0
    } else {
        val_pref(ds, d - 1) * radix() + dig(ds, d - 1)
    }
}

/// Big-endian value of the (zero-padded) digits of `ds` in positions `m..d`.
pub open spec fn val_range(ds: Seq<u32>, m: int, d: int) -> int
    decreases d - m,
{
    if m >= d {
        0
    } else {
        val_range(ds, m, d - 1) * radix() + dig(ds, d - 1)
    }
}

/// The digit path of an identifier.
pub open spec fn digits_of(id: Seq<NodeKey>) -> Seq<u32> {
    id.map_values(|k: NodeKey| k.digit)
}

/// Prefix value of an identifier's digit path at depth `d`.
pub open spec fn id_val(id: Seq<NodeKey>, d: int) -> int {
    val_pref(digits_of(id), d)
}

/// Two identifiers leave a free slot: at some depth, at least one integer
/// lies strictly between their prefix values. The allocator requires this of
/// its neighbours and guarantees it of its output.
pub open spec fn sep(a: Seq<NodeKey>, b: Seq<NodeKey>) -> bool {
    exists|d: int| 0 <= d && id_val(a, d) + 2 <= id_val(b, d)
}

/// The first position in `[i, d)` where the padded digits of `a` and `b`
/// differ, or `d` when there is none.
pub open spec fn first_diff(a: Seq<u32>, b: Seq<u32>, i: int, d: int) -> int
    decreases d - i,
{
    if i >= d {
        d
    } else if dig(a, i) != dig(b, i) {
        i
    } else {
        first_diff(a, b, i + 1, d)
    }
}

pub proof fn lemma_pow_pos(k: nat)
    ensures
        pow_r(k) >= 1,
    decreases k,
{
    if k > 0 {
        lemma_pow_pos((k - 1) as nat);
    }
}

/// A `d`-digit prefix value lies in `[0, radix()^d)`.
pub proof fn lemma_val_pref_bounds(ds: Seq<u32>, d: int)
    requires
        d >= 0,
    ensures
        0 <= val_pref(ds, d) < pow_r(d as nat),
    decreases d,
{
    if d > 0 {
        lemma_val_pref_bounds(ds, d - 1);
        lemma_pow_pos((d - 1) as nat);
        assert(val_pref(ds, d - 1) * radix() + dig(ds, d - 1) < pow_r((d - 1) as nat) * radix())
            by (nonlinear_arith)
            requires
                val_pref(ds, d - 1) < pow_r((d - 1) as nat),
                dig(ds, d - 1) < radix(),
        ;
        assert(val_pref(ds, d - 1) * radix() >= 0) by (nonlinear_arith)
            requires
                val_pref(ds, d - 1) >= 0,
        ;
        assert(pow_r(d as nat) == radix() * pow_r((d - 1) as nat));
    }
}

/// A digit range's value lies in `[0, radix()^(d - m))`.
pub proof fn lemma_val_range_bounds(ds: Seq<u32>, m: int, d: int)
    requires
        m <= d,
    ensures
        0 <= val_range(ds, m, d) < pow_r((d - m) as nat),
    decreases d - m,
{
    if m < d {
        lemma_val_range_bounds(ds, m, d - 1);
        lemma_pow_pos((d - 1 - m) as nat);
        assert(val_range(ds, m, d - 1) * radix() + dig(ds, d - 1) < pow_r((d - 1 - m) as nat)
            * radix()) by (nonlinear_arith)
            requires
                val_range(ds, m, d - 1) < pow_r((d - 1 - m) as nat),
                dig(ds, d - 1) < radix(),
        ;
        assert(val_range(ds, m, d - 1) * radix() >= 0) by (nonlinear_arith)
            requires
                val_range(ds, m, d - 1) >= 0,
        ;
        assert(pow_r((d - m) as nat) == radix() * pow_r((d - 1 - m) as nat));
    }
}

/// A prefix value splits at any middle position `m`.
pub proof fn lemma_split(ds: Seq<u32>, m: int, d: int)
    requires
        0 <= m <= d,
    ensures
        val_pref(ds, d) == val_pref(ds, m) * pow_r((d - m) as nat) + val_range(ds, m, d),
    decreases d - m,
{
    if m == d {
        assert(val_pref(ds, m) * 1 == val_pref(ds, m)) by (nonlinear_arith);
    } else {
        lemma_split(ds, m, d - 1);
        assert((val_pref(ds, m) * pow_r((d - 1 - m) as nat) + val_range(ds, m, d - 1)) * radix()
            == val_pref(ds, m) * (pow_r((d - 1 - m) as nat) * radix()) + val_range(ds, m, d - 1)
            * radix()) by (nonlinear_arith);
        assert(pow_r((d - m) as nat) == radix() * pow_r((d - 1 - m) as nat));
        assert(pow_r((d - 1 - m) as nat) * radix() == radix() * pow_r((d - 1 - m) as nat))
            by (nonlinear_arith);
    }
}

/// A digit range peels its leading digit off the front.
pub proof fn lemma_range_front(ds: Seq<u32>, m: int, d: int)
    requires
        m < d,
    ensures
        val_range(ds, m, d) == dig(ds, m) * pow_r((d - m - 1) as nat) + val_range(ds, m + 1, d),
    decreases d - m,
{
    if m + 1 == d {
        assert(val_range(ds, m, d - 1) == 0);
        assert(val_range(ds, m + 1, d) == 0);
        assert(val_range(ds, m, d) == val_range(ds, m, d - 1) * radix() + dig(ds, d - 1));
        assert(pow_r((d - m - 1) as nat) == 1);
        assert(dig(ds, m) * 1 == dig(ds, m)) by (nonlinear_arith);
    } else {
        lemma_range_front(ds, m, d - 1);
        let g = dig(ds, m) as int;
        let p2 = pow_r((d - m - 2) as nat);
        let v1 = val_range(ds, m + 1, d - 1);
        let last = dig(ds, d - 1) as int;
        assert(val_range(ds, m, d - 1) == g * p2 + v1);
        assert(val_range(ds, m, d) == (g * p2 + v1) * radix() + last);
        assert((g * p2 + v1) * radix() + last == g * (radix() * p2) + (v1 * radix() + last))
            by (nonlinear_arith);
        assert(pow_r((d - m - 1) as nat) == radix() * p2);
        assert(val_range(ds, m + 1, d) == v1 * radix() + last);
    }
}

/// A range past the end of the digits has value zero.
pub proof fn lemma_range_zero(ds: Seq<u32>, m: int, d: int)
    requires
        m <= d,
        ds.len() <= m,
    ensures
        val_range(ds, m, d) == 0,
    decreases d - m,
{
    if m < d {
        lemma_range_zero(ds, m, d - 1);
    }
}

/// Equal padded digits over `[0, d)` give equal prefix values.
pub proof fn lemma_prefix_equal(a: Seq<u32>, b: Seq<u32>, d: int)
    requires
        forall|i: int| 0 <= i < d ==> dig(a, i) == dig(b, i),
    ensures
        val_pref(a, d) == val_pref(b, d),
    decreases d,
{
    if d > 0 {
        lemma_prefix_equal(a, b, d - 1);
    }
}

/// Where `first_diff` points: equal digits before it, a difference at it.
pub proof fn lemma_first_diff_props(a: Seq<u32>, b: Seq<u32>, i: int, d: int)
    requires
        i <= d,
    ensures
        i <= first_diff(a, b, i, d) <= d,
        forall|k: int| i <= k < first_diff(a, b, i, d) ==> dig(a, k) == dig(b, k),
        first_diff(a, b, i, d) < d ==> dig(a, first_diff(a, b, i, d)) != dig(
            b,
            first_diff(a, b, i, d),
        ),
    decreases d - i,
{
    if i < d && dig(a, i) == dig(b, i) {
        lemma_first_diff_props(a, b, i + 1, d);
    }
}

/// The order of two `d`-digit prefix values is the order of the padded
/// digits at their first difference.
pub proof fn lemma_digit_order(a: Seq<u32>, b: Seq<u32>, d: int)
    requires
        0 <= d,
    ensures
        val_pref(a, d) < val_pref(b, d) <==> (first_diff(a, b, 0, d) < d && dig(
            a,
            first_diff(a, b, 0, d),
        ) < dig(b, first_diff(a, b, 0, d))),
{
    let j = first_diff(a, b, 0, d);
    lemma_first_diff_props(a, b, 0, d);
    if j == d {
        lemma_prefix_equal(a, b, d);
    } else {
        lemma_prefix_equal(a, b, j);
        lemma_split(a, j, d);
        lemma_split(b, j, d);
        lemma_range_front(a, j, d);
        lemma_range_front(b, j, d);
        lemma_val_range_bounds(a, j + 1, d);
        lemma_val_range_bounds(b, j + 1, d);
        let p = pow_r((d - j - 1) as nat);
        lemma_pow_pos((d - j - 1) as nat);
        if dig(a, j) < dig(b, j) {
            assert(dig(a, j) * p + (p - 1) < dig(b, j) * p) by (nonlinear_arith)
                requires
                    dig(a, j) < dig(b, j),
                    p >= 1,
            ;
        } else {
            assert(dig(b, j) * p + (p - 1) < dig(a, j) * p) by (nonlinear_arith)
                requires
                    dig(b, j) < dig(a, j),
                    p >= 1,
            ;
        }
    }
}

/// A prefix-value gap of at least `k >= 1` never shrinks with depth.
pub proof fn lemma_gap_step(a: Seq<u32>, b: Seq<u32>, d: int, k: int)
    requires
        0 <= d,
        k >= 1,
        val_pref(a, d) + k <= val_pref(b, d),
    ensures
        val_pref(a, d + 1) + k <= val_pref(b, d + 1),
{
    assert(val_pref(a, d) * radix() + radix() <= val_pref(b, d) * radix() - (k - 1) * radix())
        by (nonlinear_arith)
        requires
            val_pref(a, d) + k <= val_pref(b, d),
            k >= 1,
    ;
    assert((k - 1) * radix() >= k - 1) by (nonlinear_arith)
        requires
            k >= 1,
    ;
}

/// A prefix-value gap of at least `k >= 1` holds at every later depth.
pub proof fn lemma_gap_monotone(a: Seq<u32>, b: Seq<u32>, d1: int, d2: int, k: int)
    requires
        0 <= d1 <= d2,
        k >= 1,
        val_pref(a, d1) + k <= val_pref(b, d1),
    ensures
        val_pref(a, d2) + k <= val_pref(b, d2),
    decreases d2 - d1,
{
    if d1 < d2 {
        lemma_gap_step(a, b, d1, k);
        lemma_gap_monotone(a, b, d1 + 1, d2, k);
    }
}

/// A digit range depends only on the digits inside it.
pub proof fn lemma_range_congruent(a: Seq<u32>, b: Seq<u32>, m: int, d: int)
    requires
        m <= d,
        forall|k: int| m <= k < d ==> dig(a, k) == dig(b, k),
    ensures
        val_range(a, m, d) == val_range(b, m, d),
    decreases d - m,
{
    if m < d {
        lemma_range_congruent(a, b, m, d - 1);
    }
}

/// The range over all positions is the prefix value.
pub proof fn lemma_range_is_pref(ds: Seq<u32>, d: int)
    requires
        0 <= d,
    ensures
        val_range(ds, 0, d) == val_pref(ds, d),
    decreases d,
{
    if d > 0 {
        lemma_range_is_pref(ds, d - 1);
    }
}

/// Past the end of the digits, the prefix value only gains zero digits.
pub proof fn lemma_val_past_len(ds: Seq<u32>, m: int, e: int)
    requires
        ds.len() <= m <= e,
        0 <= m,
    ensures
        val_pref(ds, e) == val_pref(ds, m) * pow_r((e - m) as nat),
{
    lemma_split(ds, m, e);
    lemma_range_zero(ds, m, e);
}

/// Once both digit sequences are exhausted, a gap of one becomes a free slot
/// one depth later.
pub proof fn lemma_gap_widens_past_end(a: Seq<u32>, b: Seq<u32>, d: int)
    requires
        0 <= d,
        a.len() <= d,
        val_pref(a, d) + 1 <= val_pref(b, d),
    ensures
        val_pref(a, d + 1) + 2 <= val_pref(b, d + 1),
{
    assert(dig(a, d) == 0);
    assert(val_pref(a, d) * radix() + 2 <= val_pref(b, d) * radix()) by (nonlinear_arith)
        requires
            val_pref(a, d) + 1 <= val_pref(b, d),
    ;
}

/// Two identifiers leave a free slot exactly when their prefix values are
/// strictly ordered once both digit paths have been read in full.
pub proof fn lemma_sep_iff_strict(a: Seq<NodeKey>, b: Seq<NodeKey>)
    ensures
        sep(a, b) <==> id_val(a, max_len(a, b)) < id_val(b, max_len(a, b)),
{
    let da = digits_of(a);
    let db = digits_of(b);
    let m = max_len(a, b);
    if val_pref(da, m) < val_pref(db, m) {
        lemma_gap_widens_past_end(da, db, m);
        assert(id_val(a, m + 1) + 2 <= id_val(b, m + 1));
        assert(sep(a, b));
    }
    if sep(a, b) {
        let d = choose|d: int| 0 <= d && id_val(a, d) + 2 <= id_val(b, d);
        if d <= m {
            lemma_gap_monotone(da, db, d, m, 2);
        } else {
            if val_pref(da, m) >= val_pref(db, m) {
                lemma_val_past_len(da, m, d);
                lemma_val_past_len(db, m, d);
                lemma_pow_pos((d - m) as nat);
                assert(val_pref(db, m) * pow_r((d - m) as nat) <= val_pref(da, m) * pow_r(
                    (d - m) as nat,
                )) by (nonlinear_arith)
                    requires
                        val_pref(db, m) <= val_pref(da, m),
                        pow_r((d - m) as nat) >= 1,
                ;
            }
        }
    }
}

/// The longer of two identifiers' lengths.
pub open spec fn max_len(a: Seq<NodeKey>, b: Seq<NodeKey>) -> int {
    if a.len() >= b.len() {
        a.len() as int
    } else {
        b.len() as int
    }
}

/// Decides whether two identifiers leave a free slot at some depth; exact
/// with respect to `sep`.
pub fn sep_exec(a: &Vec<NodeKey>, b: &Vec<NodeKey>) -> (r: bool)
    ensures
        r == sep(a@, b@),
{
    let m: usize = if a.len() >= b.len() {
        a.len()
    } else {
        b.len()
    };
    proof {
        lemma_sep_iff_strict(a@, b@);
        lemma_digit_order(digits_of(a@), digits_of(b@), m as int);
        lemma_first_diff_props(digits_of(a@), digits_of(b@), 0, m as int);
    }
    let ghost j = first_diff(digits_of(a@), digits_of(b@), 0, m as int);
    let mut i: usize = 0;
    while i < m
        invariant
            0 <= i <= m,
            m == max_len(a@, b@),
            forall|k: int| 0 <= k < i ==> dig(digits_of(a@), k) == dig(digits_of(b@), k),
            i <= j <= m,
            forall|k: int| 0 <= k < j ==> dig(digits_of(a@), k) == dig(digits_of(b@), k),
            j < m ==> dig(digits_of(a@), j) != dig(digits_of(b@), j),
            sep(a@, b@) <==> (j < m && dig(digits_of(a@), j) < dig(digits_of(b@), j)),
        decreases m - i,
    {
        let da: u32 = if i < a.len() {
            a[i].digit
        } else {
            0
        };
        let db: u32 = if i < b.len() {
            b[i].digit
        } else {
            0
        };
        proof {
            assert(da == dig(digits_of(a@), i as int));
            assert(db == dig(digits_of(b@), i as int));
        }
        if da != db {
            proof {
                assert(j == i);
            }
            return da < db;
        }
        i += 1;
    }
    proof {
        assert(j == m);
    }
    false
}

/// Adds a small value to a big-endian digit vector, carrying leftwards; the
/// sum must still fit in the same number of digits.
pub fn digits_add_small(ds: &Vec<u32>, v: u32) -> (r: Vec<u32>)
    requires
        val_pref(ds@, ds@.len() as int) + v < pow_r(ds@.len() as nat),
    ensures
        r@.len() == ds@.len(),
        val_pref(r@, r@.len() as int) == val_pref(ds@, ds@.len() as int) + v,
{
    let n = ds.len();
    let mut r: Vec<u32> = Vec::new();
    let mut k: usize = 0;
    while k < n
        invariant
            k <= n,
            n == ds@.len(),
            r@.len() == k,
            forall|j: int| 0 <= j < k ==> r@[j] == ds@[j],
        decreases n - k,
    {
        r.push(ds[k]);
        k += 1;
    }
    let mut i: usize = n;
    let mut carry: u64 = v as u64;
    proof {
        assert(val_range(r@, n as int, n as int) == 0);
        assert(val_range(ds@, n as int, n as int) == 0);
        assert(carry * 1 == carry) by (nonlinear_arith);
    }
    while i > 0 && carry > 0
        invariant
            i <= n,
            n == ds@.len(),
            r@.len() == n,
            carry <= 0xffff_ffff,
            forall|j: int| 0 <= j < i ==> r@[j] == ds@[j],
            val_range(r@, i as int, n as int) + carry * pow_r((n - i) as nat) == val_range(
                ds@,
                i as int,
                n as int,
            ) + v,
        decreases i,
    {
        i -= 1;
        let ghost r_old = r@;
        let ghost carry_old = carry;
        let s: u64 = r[i] as u64 + carry;
        let low: u32 = (s % 0x1_0000_0000) as u32;
        r.set(i, low);
        carry = s / 0x1_0000_0000;
        proof {
            let ri = i as int;
            let p = pow_r((n - i - 1) as nat);
            lemma_pow_pos((n - i - 1) as nat);
            vstd::arithmetic::div_mod::lemma_fundamental_div_mod(s as int, 0x1_0000_0000);
            vstd::arithmetic::div_mod::lemma_mod_bound(s as int, 0x1_0000_0000);
            assert(s == carry * 0x1_0000_0000 + low);
            if carry >= 2 {
                assert(carry * 0x1_0000_0000 >= 0x2_0000_0000) by (nonlinear_arith)
                    requires
                        carry >= 2,
                ;
                assert(false);
            }
            assert(forall|k: int| ri + 1 <= k < n ==> dig(r@, k) == dig(r_old, k));
            lemma_range_congruent(r@, r_old, ri + 1, n as int);
            lemma_range_front(r@, ri, n as int);
            lemma_range_front(ds@, ri, n as int);
            assert(dig(r@, ri) == low);
            assert(dig(ds@, ri) == r_old[ri]);
            assert(pow_r((n - i) as nat) == radix() * p);
            // the digit written plus the carried-out part equals the digit
            // read plus the carried-in part, scaled to position i
            assert(low * p + (carry * (radix() * p)) == (r_old[ri] + carry_old) * p)
                by (nonlinear_arith)
                requires
                    r_old[ri] + carry_old == carry * radix() + low,
            ;
            assert((r_old[ri] + carry_old) * p == r_old[ri] * p + carry_old * p)
                by (nonlinear_arith);
        }
    }
    proof {
        if carry > 0 {
            lemma_val_range_bounds(r@, i as int, n as int);
            lemma_range_is_pref(ds@, n as int);
            if i > 0 {
            } else {
                lemma_pow_pos(n as nat);
                assert(carry * pow_r(n as nat) >= pow_r(n as nat)) by (nonlinear_arith)
                    requires
                        carry >= 1,
                        pow_r(n as nat) >= 1,
                ;
                assert(false);
            }
        }
        assert(carry == 0);
        assert(carry * pow_r((n - i) as nat) == 0) by (nonlinear_arith)
            requires
                carry == 0,
        ;
        lemma_prefix_equal(r@, ds@, i as int);
        lemma_split(r@, i as int, n as int);
        lemma_split(ds@, i as int, n as int);
    }
    r
}

/// Subtracts a small value from a big-endian digit vector, borrowing
/// leftwards; the value must cover the subtraction.
pub fn digits_sub_small(ds: &Vec<u32>, v: u32) -> (r: Vec<u32>)
    requires
        v <= val_pref(ds@, ds@.len() as int),
    ensures
        r@.len() == ds@.len(),
        val_pref(r@, r@.len() as int) == val_pref(ds@, ds@.len() as int) - v,
{
    let n = ds.len();
    let mut r: Vec<u32> = Vec::new();
    let mut k: usize = 0;
    while k < n
        invariant
            k <= n,
            n == ds@.len(),
            r@.len() == k,
            forall|j: int| 0 <= j < k ==> r@[j] == ds@[j],
        decreases n - k,
    {
        r.push(ds[k]);
        k += 1;
    }
    let mut i: usize = n;
    let mut borrow: u64 = v as u64;
    proof {
        assert(val_range(r@, n as int, n as int) == 0);
        assert(val_range(ds@, n as int, n as int) == 0);
        assert(borrow * 1 == borrow) by (nonlinear_arith);
    }
    while i > 0 && borrow > 0
        invariant
            i <= n,
            n == ds@.len(),
            r@.len() == n,
            borrow <= 0xffff_ffff,
            forall|j: int| 0 <= j < i ==> r@[j] == ds@[j],
            val_range(r@, i as int, n as int) + v == val_range(ds@, i as int, n as int) + borrow
                * pow_r((n - i) as nat),
        decreases i,
    {
        i -= 1;
        let ghost r_old = r@;
        let ghost borrow_old = borrow;
        let cur: u64 = r[i] as u64;
        let low: u32;
        if cur >= borrow {
            low = (cur - borrow) as u32;
            borrow = 0;
        } else {
            low = (cur + 0x1_0000_0000 - borrow) as u32;
            borrow = 1;
        }
        r.set(i, low);
        proof {
            let ri = i as int;
            let p = pow_r((n - i - 1) as nat);
            lemma_pow_pos((n - i - 1) as nat);
            assert(low + borrow_old == cur + borrow * radix());
            assert(forall|k: int| ri + 1 <= k < n ==> dig(r@, k) == dig(r_old, k));
            lemma_range_congruent(r@, r_old, ri + 1, n as int);
            lemma_range_front(r@, ri, n as int);
            lemma_range_front(ds@, ri, n as int);
            assert(dig(r@, ri) == low);
            assert(dig(ds@, ri) == r_old[ri]);
            assert(pow_r((n - i) as nat) == radix() * p);
            // the digit written plus the borrow carried in equals the digit
            // read plus the borrow carried out, scaled to position i
            assert(low * p + borrow_old * p == cur * p + borrow * (radix() * p))
                by (nonlinear_arith)
                requires
                    low + borrow_old == cur + borrow * radix(),
            ;
            assert(cur == r_old[ri]);
        }
    }
    proof {
        if borrow > 0 {
            lemma_val_range_bounds(r@, i as int, n as int);
            lemma_range_is_pref(ds@, n as int);
            lemma_val_range_bounds(ds@, i as int, n as int);
            if i > 0 {
            } else {
                lemma_pow_pos(n as nat);
                assert(borrow * pow_r(n as nat) >= pow_r(n as nat)) by (nonlinear_arith)
                    requires
                        borrow >= 1,
                        pow_r(n as nat) >= 1,
                ;
                assert(false);
            }
        }
        assert(borrow == 0);
        assert(borrow * pow_r((n - i) as nat) == 0) by (nonlinear_arith)
            requires
                borrow == 0,
        ;
        lemma_prefix_equal(r@, ds@, i as int);
        lemma_split(r@, i as int, n as int);
        lemma_split(ds@, i as int, n as int);
    }
    r
}

} // verus!
