//! The implicit forest index: a flat, append-only segment forest of
//! aggregates over a track's blocks, answering arbitrary half-open
//! range-combines in logarithmic time.
//!
//! The flat array `vals` interleaves leaves and internal nodes in order.
//! The leaf `i` sits at position `2*i`; the internal node summarizing the
//! `k` leaves `[l, l+k)` (with `k` a power of two dividing `l`) sits at
//! position `2*l + k - 1`. After `n` pushes the array holds `2*n - 1` slots;
//! odd slots whose subtree is not complete yet hold the aggregate of the
//! filled prefix of their leaf range, and are finished by later pushes.

use crate::index::{Aggregate, TrackIndex};
use crate::trace::{BlockPool, Track, TraceBlock};
use vstd::arithmetic::div_mod::lemma_fundamental_div_mod;
use vstd::prelude::*;

verus! {

/// The largest power of two dividing `x`: the value of the least set bit of
/// `x`. Zero for arguments without a least set bit.
pub open spec fn lsp(x: int) -> int
    decreases x,
{
    if x <= 0 {
        0
    } else if x % 2 == 1 {
        1
    } else {
        2 * lsp(x / 2)
    }
}

/// Whether `x` is a power of two.
pub open spec fn is_pow2(x: int) -> bool
    decreases x,
{
    if x <= 0 {
        false
    } else if x == 1 {
        true
    } else {
        x % 2 == 0 && is_pow2(x / 2)
    }
}

/// `lsp(x)` is a power of two that divides `x` with an odd quotient.
pub proof fn lemma_lsp_props(x: int)
    requires
        x >= 1,
    ensures
        1 <= lsp(x) <= x,
        is_pow2(lsp(x)),
        x % lsp(x) == 0,
        (x / lsp(x)) % 2 == 1,
    decreases x,
{
    if x % 2 == 1 {
        assert(x % 1 == 0);
        assert(x / 1 == x);
    } else {
        let h = x / 2;
        lemma_fundamental_div_mod(x, 2);
        assert(x == 2 * h);
        lemma_lsp_props(h);
        let l = lsp(h);
        let q = h / l;
        lemma_fundamental_div_mod(h, l);
        assert(h == l * q);
        assert(x == (2 * l) * q) by (nonlinear_arith)
            requires
                x == 2 * h,
                h == l * q,
        ;
        assert(x % (2 * l) == 0 && x / (2 * l) == q) by (nonlinear_arith)
            requires
                x == (2 * l) * q,
                l >= 1,
                q >= 0,
        ;
        assert((2 * l) / 2 == l);
        assert(is_pow2(2 * l));
        assert(lsp(x) == 2 * l);
    }
}

/// A power of two that divides `x` with an odd quotient is `lsp(x)`.
pub proof fn lemma_lsp_unique(x: int, m: int)
    requires
        x >= 1,
        is_pow2(m),
        x % m == 0,
        (x / m) % 2 == 1,
    ensures
        lsp(x) == m,
    decreases m,
{
    let q = x / m;
    lemma_fundamental_div_mod(x, m);
    assert(x == m * q);
    if m == 1 {
        assert(x / 1 == x);
        assert(x % 2 == 1);
    } else {
        let h = m / 2;
        assert(m == 2 * h && is_pow2(h) && h >= 1);
        assert(x == 2 * (h * q)) by (nonlinear_arith)
            requires
                x == m * q,
                m == 2 * h,
        ;
        assert(x % 2 == 0 && x / 2 == h * q) by (nonlinear_arith)
            requires
                x == 2 * (h * q),
                h * q >= 0,
        ;
        assert((x / 2) % h == 0 && (x / 2) / h == q) by (nonlinear_arith)
            requires
                x / 2 == h * q,
                h >= 1,
                q >= 0,
        ;
        assert(x / 2 >= 1) by (nonlinear_arith)
            requires
                x / 2 == h * q,
                h >= 1,
                q >= 1,
        ;
        lemma_lsp_unique(x / 2, h);
        assert(lsp(x) == 2 * lsp(x / 2));
    }
}

/// A doubling search that stops at `sz` has found `lsp(k)`.
pub proof fn lemma_lsp_from_exit(k: int, sz: int)
    requires
        k >= 1,
        is_pow2(sz),
        k % sz == 0,
        !(2 * sz <= k && k % (2 * sz) == 0),
    ensures
        lsp(k) == sz,
{
    let q = k / sz;
    lemma_fundamental_div_mod(k, sz);
    assert(k == sz * q);
    assert(q >= 1) by (nonlinear_arith)
        requires
            k == sz * q,
            k >= 1,
            sz >= 1,
    ;
    if q % 2 == 0 {
        let t = q / 2;
        lemma_fundamental_div_mod(q, 2);
        assert(q == 2 * t && t >= 1);
        assert(k == (2 * sz) * t) by (nonlinear_arith)
            requires
                k == sz * q,
                q == 2 * t,
        ;
        assert(k % (2 * sz) == 0 && 2 * sz <= k) by (nonlinear_arith)
            requires
                k == (2 * sz) * t,
                sz >= 1,
                t >= 1,
        ;
    }
    lemma_lsp_unique(k, sz);
}

/// The least set bit of an odd multiple of a power of two is that power.
pub proof fn lemma_lsp_of_odd_multiple(x: int, m: int, t: int)
    requires
        x == m * t,
        m >= 1,
        t >= 1,
        t % 2 == 1,
        is_pow2(m),
    ensures
        lsp(x) == m,
{
    assert(x % m == 0 && x / m == t) by (nonlinear_arith)
        requires
            x == m * t,
            m >= 1,
            t >= 0,
    ;
    assert(x >= 1) by (nonlinear_arith)
        requires
            x == m * t,
            m >= 1,
            t >= 1,
    ;
    lemma_lsp_unique(x, m);
}

/// A smaller power of two divides a larger one.
pub proof fn lemma_pow2_divides(a: int, b: int)
    requires
        is_pow2(a),
        is_pow2(b),
        a <= b,
    ensures
        b % a == 0,
    decreases b,
{
    if a == 1 {
        assert(b % 1 == 0);
    } else {
        let a2 = a / 2;
        let b2 = b / 2;
        assert(a == 2 * a2 && b == 2 * b2);
        lemma_pow2_divides(a2, b2);
        let s = b2 / a2;
        lemma_fundamental_div_mod(b2, a2);
        assert(b2 == a2 * s);
        assert(b == a * s) by (nonlinear_arith)
            requires
                b == 2 * b2,
                b2 == a2 * s,
                a == 2 * a2,
        ;
        assert(b % a == 0) by (nonlinear_arith)
            requires
                b == a * s,
                a >= 1,
                s >= 0,
        ;
    }
}

/// The combine of the leaves `[l, r)`, folded from the left.
pub open spec fn agg_range<A: Aggregate>(leaves: Seq<A>, l: int, r: int) -> A
    decreases r - l,
{
    if r <= l {
        A::spec_empty()
    } else if r == l + 1 {
        leaves[l]
    } else {
        A::spec_combine(agg_range(leaves, l, r - 1), leaves[r - 1])
    }
}

/// A range fold only reads the leaves of its range.
pub proof fn lemma_agg_range_agree<A: Aggregate>(s1: Seq<A>, s2: Seq<A>, l: int, r: int)
    requires
        forall|i: int| l <= i < r ==> s1[i] == s2[i],
    ensures
        agg_range(s1, l, r) == agg_range(s2, l, r),
    decreases r - l,
{
    if r > l {
        lemma_agg_range_agree(s1, s2, l, r - 1);
    }
}

/// A range fold splits at any interior point into a combine of the two
/// partial folds.
pub proof fn lemma_agg_range_split<A: Aggregate>(s: Seq<A>, l: int, m: int, r: int)
    requires
        l <= m <= r,
    ensures
        agg_range(s, l, r) == A::spec_combine(agg_range(s, l, m), agg_range(s, m, r)),
    decreases r - m,
{
    if m == r {
        A::lemma_combine_identity(agg_range(s, l, m));
    } else if m == r - 1 {
        if l == m {
            A::lemma_combine_identity(agg_range(s, m, r));
        }
    } else {
        lemma_agg_range_split(s, l, m, r - 1);
        A::lemma_combine_assoc(agg_range(s, l, m), agg_range(s, m, r - 1), s[r - 1]);
        if m == r - 2 && l == m {
            A::lemma_combine_identity(agg_range(s, m, r - 1));
        }
    }
}

/// The size, in leaves, of the subtree rooted at flat position `p`.
pub open spec fn node_size(p: int) -> int {
    lsp(p + 1)
}

/// The first leaf of the subtree rooted at flat position `p`.
pub open spec fn node_low(p: int) -> int {
    (p + 1 - lsp(p + 1)) / 2
}

/// What the slot at flat position `p` holds: the fold of its completed leaf
/// range, or of the filled prefix of its range while the subtree is still
/// growing.
#[verifier::opaque]
pub open spec fn node_val<A: Aggregate>(leaves: Seq<A>, p: int) -> A {
    let low = node_low(p);
    let size = node_size(p);
    if low + size <= leaves.len() {
        agg_range(leaves, low, low + size)
    } else {
        agg_range(leaves, low, (p + 1) / 2)
    }
}

/// Every flat position is the root of one aligned subtree: `p = 2*c + k - 1`
/// for its own leaf start `c` and power-of-two size `k`, with `k` dividing `c`.
pub proof fn lemma_node_decompose(p: int)
    requires
        p >= 0,
    ensures
        is_pow2(node_size(p)),
        1 <= node_size(p),
        0 <= node_low(p),
        node_low(p) % node_size(p) == 0,
        p == 2 * node_low(p) + node_size(p) - 1,
{
    lemma_lsp_props(p + 1);
    let k = lsp(p + 1);
    let qq = (p + 1) / k;
    lemma_fundamental_div_mod(p + 1, k);
    assert(p + 1 == k * qq);
    assert(qq >= 1) by (nonlinear_arith)
        requires
            p + 1 == k * qq,
            p + 1 >= 1,
            k >= 1,
    ;
    let h = qq / 2;
    lemma_fundamental_div_mod(qq, 2);
    assert(qq == 2 * h + 1);
    assert(p + 1 - k == k * (2 * h)) by (nonlinear_arith)
        requires
            p + 1 == k * qq,
            qq == 2 * h + 1,
    ;
    assert((p + 1 - k) / 2 == k * h) by (nonlinear_arith)
        requires
            p + 1 - k == k * (2 * h),
            k * h >= 0,
    ;
    assert((k * h) % k == 0) by (nonlinear_arith)
        requires
            k >= 1,
            h >= 0,
    ;
    assert(2 * (k * h) + k - 1 == p) by (nonlinear_arith)
        requires
            p + 1 - k == k * (2 * h),
    ;
}

/// The root of the complete aligned subtree of `k` leaves starting at leaf
/// `c` sits at position `2*c + k - 1` and holds the fold of `[c, c + k)`.
pub proof fn lemma_aligned_node<A: Aggregate>(leaves: Seq<A>, c: int, k: int)
    requires
        0 <= c,
        1 <= k,
        is_pow2(k),
        c % k == 0,
        c + k <= leaves.len(),
    ensures
        node_val(leaves, 2 * c + k - 1) == agg_range(leaves, c, c + k),
        node_size(2 * c + k - 1) == k,
        node_low(2 * c + k - 1) == c,
{
    reveal(node_val);
    let p = 2 * c + k - 1;
    let q = c / k;
    lemma_fundamental_div_mod(c, k);
    assert(c == k * q);
    assert(q >= 0) by (nonlinear_arith)
        requires
            c == k * q,
            c >= 0,
            k >= 1,
    ;
    assert(p + 1 == k * (2 * q + 1)) by (nonlinear_arith)
        requires
            p + 1 == 2 * c + k,
            c == k * q,
    ;
    lemma_lsp_of_odd_multiple(p + 1, k, 2 * q + 1);
    assert((2 * c) / 2 == c);
}

/// The root of an aligned subtree of `k` leaves starting at leaf `c` whose
/// range sticks out past the present leaves holds the fold of the filled
/// half of its range, `[c, c + k/2)`.
pub proof fn lemma_partial_node<A: Aggregate>(leaves: Seq<A>, c: int, k: int)
    requires
        0 <= c,
        2 <= k,
        is_pow2(k),
        c % k == 0,
        c + k > leaves.len(),
    ensures
        node_val(leaves, 2 * c + k - 1) == agg_range(leaves, c, c + k / 2),
        node_size(2 * c + k - 1) == k,
        node_low(2 * c + k - 1) == c,
{
    reveal(node_val);
    let p = 2 * c + k - 1;
    let q = c / k;
    lemma_fundamental_div_mod(c, k);
    assert(c == k * q);
    assert(q >= 0) by (nonlinear_arith)
        requires
            c == k * q,
            c >= 0,
            k >= 1,
    ;
    assert(p + 1 == k * (2 * q + 1)) by (nonlinear_arith)
        requires
            p + 1 == 2 * c + k,
            c == k * q,
    ;
    lemma_lsp_of_odd_multiple(p + 1, k, 2 * q + 1);
    assert((2 * c) / 2 == c);
    assert((p + 1) / 2 == c + k / 2) by (nonlinear_arith)
        requires
            p + 1 == 2 * c + k,
            k % 2 == 0,
            c >= 0,
            k >= 2,
    ;
}

/// A multiple of `m` leaves no remainder.
pub proof fn lemma_mul_mod_zero(m: int, t: int)
    requires
        m >= 1,
        t >= 0,
    ensures
        (m * t) % m == 0,
{
    assert((m * t) % m == 0) by (nonlinear_arith)
        requires
            m >= 1,
            t >= 0,
    ;
}

/// After a push has finished every subtree whose size divides the new leaf
/// count `k`, each slot strictly below the last finished one keeps the value
/// it had before the push: its subtree either was already complete, or is
/// still missing leaves, so its fold reads only old leaves.
pub proof fn lemma_untouched_slot<A: Aggregate>(old_leaves: Seq<A>, new_leaves: Seq<A>, sz: int, p: int)
    requires
        old_leaves == new_leaves.drop_last(),
        new_leaves.len() >= 1,
        is_pow2(sz),
        1 <= sz <= new_leaves.len(),
        new_leaves.len() as int % sz == 0,
        !(2 * sz <= new_leaves.len() && new_leaves.len() as int % (2 * sz) == 0),
        0 <= p < 2 * new_leaves.len() - sz - 1,
        p < 2 * (new_leaves.len() - 1) - 1,
    ensures
        node_val(old_leaves, p) == node_val(new_leaves, p),
{
    let n = old_leaves.len() as int;
    let k = new_leaves.len() as int;
    lemma_node_decompose(p);
    let c = node_low(p);
    let kk = node_size(p);
    assert(forall|i: int| 0 <= i < n ==> old_leaves[i] == new_leaves[i]);
    if c + kk <= n {
        lemma_aligned_node(old_leaves, c, kk);
        lemma_aligned_node(new_leaves, c, kk);
        lemma_agg_range_agree(old_leaves, new_leaves, c, c + kk);
    } else if c + kk == k {
        // This slot would be a node finished by the push, yet it lies below
        // the last finished one: impossible, since its size would divide k.
        assert(kk > sz) by {
            assert(p == 2 * c + kk - 1 == 2 * (k - kk) + kk - 1 == 2 * k - kk - 1);
            assert(p < 2 * k - sz - 1);
        }
        let t = c / kk;
        lemma_fundamental_div_mod(c, kk);
        assert(c == kk * t);
        assert(t >= 0) by (nonlinear_arith)
            requires
                c == kk * t,
                c >= 0,
                kk >= 1,
        ;
        assert(k == kk * (t + 1)) by (nonlinear_arith)
            requires
                c == kk * t,
                c + kk == k,
        ;
        lemma_pow2_divides(sz, kk);
        assert(kk % sz == 0);
        let d = kk / sz;
        lemma_fundamental_div_mod(kk, sz);
        assert(kk == sz * d);
        assert(d >= 2) by (nonlinear_arith)
            requires
                kk == sz * d,
                kk > sz,
                sz >= 1,
        ;
        assert(kk >= 2 * sz) by (nonlinear_arith)
            requires
                kk == sz * d,
                d >= 2,
                sz >= 1,
        ;
        assert(is_pow2(2 * sz)) by {
            assert((2 * sz) / 2 == sz);
        }
        lemma_pow2_divides(2 * sz, kk);
        let e = kk / (2 * sz);
        lemma_fundamental_div_mod(kk, 2 * sz);
        assert(kk == (2 * sz) * e);
        assert(k == (2 * sz) * (e * (t + 1))) by (nonlinear_arith)
            requires
                k == kk * (t + 1),
                kk == (2 * sz) * e,
        ;
        assert(e * (t + 1) >= 0) by (nonlinear_arith)
            requires
                e >= 0,
                t >= 0,
        ;
        lemma_mul_mod_zero(2 * sz, e * (t + 1));
        assert(2 * sz <= k);
        assert(false);
    } else {
        // Still incomplete under both leaf counts.
        assert(c + kk > k);
        assert(kk >= 2) by {
            if kk == 1 {
                assert(c >= k);
                assert(p == 2 * c >= 2 * k);
            }
        }
        lemma_partial_node(old_leaves, c, kk);
        lemma_partial_node(new_leaves, c, kk);
        assert(c + kk / 2 == (p + 1) / 2);
        assert((p + 1) / 2 <= n) by {
            assert(p + 1 <= 2 * n);
        }
        lemma_agg_range_agree(old_leaves, new_leaves, c, c + kk / 2);
    }
}

/// A slot strictly between a finished node and its parent roots a subtree
/// that lies inside already-complete territory, so finishing the parent does
/// not change what it holds.
pub proof fn lemma_inner_slot_untouched<A: Aggregate>(
    old_leaves: Seq<A>,
    new_leaves: Seq<A>,
    sz: int,
    p: int,
)
    requires
        old_leaves == new_leaves.drop_last(),
        new_leaves.len() >= 1,
        is_pow2(sz),
        1 <= sz <= new_leaves.len(),
        new_leaves.len() as int % (2 * sz) == 0,
        2 * new_leaves.len() - 2 * sz - 1 < p < 2 * new_leaves.len() - sz - 1,
    ensures
        node_val(old_leaves, p) == node_val(new_leaves, p),
{
    let k = new_leaves.len() as int;
    let n = k - 1;
    lemma_node_decompose(p);
    lemma_lsp_props(p + 1);
    let c = node_low(p);
    let kk = node_size(p);
    assert(kk < sz) by {
        if kk >= sz {
            lemma_pow2_divides(sz, kk);
            let x = kk / sz;
            lemma_fundamental_div_mod(kk, sz);
            assert(kk == sz * x);
            let y = (p + 1) / kk;
            lemma_fundamental_div_mod(p + 1, kk);
            assert(p + 1 == kk * y);
            assert(p + 1 == sz * (x * y)) by (nonlinear_arith)
                requires
                    p + 1 == kk * y,
                    kk == sz * x,
            ;
            assert(x * y >= 0) by (nonlinear_arith)
                requires
                    p + 1 == sz * (x * y),
                    p + 1 >= 1,
                    sz >= 1,
            ;
            lemma_mul_mod_zero(sz, x * y);
            assert((p + 1) % sz == 0) by (nonlinear_arith)
                requires
                    p + 1 == sz * (x * y),
                    (sz * (x * y)) % sz == 0,
            ;
            // Yet p + 1 sits strictly between two multiples of sz.
            let z = k / (2 * sz);
            lemma_fundamental_div_mod(k, 2 * sz);
            assert(k == (2 * sz) * z);
            let r = p + 1 - (2 * k - 2 * sz);
            assert(0 < r < sz);
            assert(p + 1 == sz * (4 * z - 2) + r) by (nonlinear_arith)
                requires
                    k == (2 * sz) * z,
                    r == p + 1 - (2 * k - 2 * sz),
            ;
            vstd::arithmetic::div_mod::lemma_fundamental_div_mod_converse(
                p + 1,
                sz,
                4 * z - 2,
                r,
            );
            assert(false);
        }
    }
    assert(2 * (c + kk) <= 2 * n) by {
        assert(p + 1 == 2 * c + kk);
        assert(p + 1 <= 2 * k - sz - 1);
    }
    lemma_aligned_node(old_leaves, c, kk);
    lemma_aligned_node(new_leaves, c, kk);
    lemma_agg_range_agree(old_leaves, new_leaves, c, c + kk);
}

/// An incrementally built flat segment forest of aggregates, one leaf per
/// indexed block. After `n` pushes `vals` holds exactly `2*n - 1` aggregates.
pub struct IForestIndex<A: Aggregate> {
    pub vals: Vec<A>,
}

impl<A: Aggregate> IForestIndex<A> {
    /// How many leaves (blocks) have been indexed.
    pub open spec fn leaf_count(&self) -> int {
        (self.vals@.len() + 1) as int / 2
    }

    /// The leaf aggregates, in push order.
    pub open spec fn leaves(&self) -> Seq<A> {
        Seq::new(self.leaf_count() as nat, |i: int| self.vals@[2 * i])
    }

    /// The forest invariant: `vals` has exactly `2*n - 1` slots and every
    /// slot holds the fold of the filled prefix of its leaf range.
    pub open spec fn wf(&self) -> bool {
        &&& self.vals@.len() == if self.leaves().len() == 0 {
            0int
        } else {
            2 * self.leaves().len() - 1
        }
        &&& forall|p: int|
            0 <= p < self.vals@.len() ==> #[trigger] self.vals@[p] == node_val(self.leaves(), p)
    }

    /// An empty index.
    pub fn new() -> (r: Self)
        ensures
            r.wf(),
            r.leaves() == Seq::<A>::empty(),
            r.vals@.len() == 0,
    {
        let r = IForestIndex { vals: Vec::new() };
        proof {
            assert(r.leaves() =~= Seq::<A>::empty());
        }
        r
    }

    /// Indexes one more block: appends its aggregate as a leaf and finishes
    /// every internal node that the new leaf completes.
    #[verifier::loop_isolation(false)]
    #[verifier::rlimit(100)]
    pub fn push(&mut self, block: &TraceBlock)
        requires
            old(self).wf(),
            block.wf(),
            old(self).leaves().len() < usize::MAX as int / 2,
        ensures
            final(self).wf(),
            final(self).leaves() == old(self).leaves().push(A::spec_from_block(block@)),
            final(self).vals@.len() == 2 * (old(self).leaves().len() + 1) - 1,
    {
        let ghost old_leaves = self.leaves();
        let ghost n = old_leaves.len() as int;
        let a = A::from_block(block);
        let ghost new_leaves = old_leaves.push(A::spec_from_block(block@));

        if self.vals.len() > 0 {
            // Reserve the slot of the enclosing incomplete subtree: it holds
            // the fold of the last completed subtree of lsp(n) leaves.
            let n_count = (self.vals.len() + 1) / 2;
            let mut m: usize = 1;
            while m <= n_count / 2 && n_count % (2 * m) == 0
                invariant
                    1 <= m <= n_count,
                    is_pow2(m as int),
                    n_count as int % m as int == 0,
                decreases n_count - m,
            {
                proof {
                    assert((2 * m as int) / 2 == m as int);
                }
                m = 2 * m;
            }
            proof {
                lemma_lsp_from_exit(n_count as int, m as int);
                let mi = m as int;
                assert((n - mi) % mi == 0) by {
                    let q = n / mi;
                    lemma_fundamental_div_mod(n, mi);
                    assert(n - mi == mi * (q - 1)) by (nonlinear_arith)
                        requires
                            n == mi * q,
                    ;
                    assert(q - 1 >= 0) by (nonlinear_arith)
                        requires
                            n == mi * q,
                            n >= mi,
                            mi >= 1,
                    ;
                    lemma_mul_mod_zero(mi, q - 1);
                }
                lemma_aligned_node(old_leaves, n - mi, mi);
            }
            let idx = self.vals.len() - m;
            let pending = self.vals[idx];
            self.vals.push(pending);
            proof {
                assert(self.vals@[2 * n - 1] == agg_range(old_leaves, n - m as int, n));
            }
        }
        self.vals.push(a);

        let ghost base = self.vals@;
        let k_count = (self.vals.len() + 1) / 2;
        let ghost k = k_count as int;
        proof {
            assert(k == n + 1);
            assert(base.len() == 2 * k - 1);
            assert(base[2 * k - 2] == new_leaves.last());
            assert(agg_range(new_leaves, k - 1, k) == new_leaves[k - 1]);
        }
        let mut cur = self.vals.len() - 1;
        let mut sz: usize = 1;
        while sz <= k_count / 2 && k_count % (2 * sz) == 0
            invariant
                1 <= sz <= k,
                is_pow2(sz as int),
                k % (sz as int) == 0,
                cur as int == 2 * k - (sz as int) - 1,
                self.vals@.len() == 2 * k - 1,
                self.vals@[cur as int] == agg_range(new_leaves, k - sz as int, k),
                forall|p: int| 0 <= p < cur as int ==> #[trigger] self.vals@[p] == base[p],
                forall|p: int|
                    (cur as int) < p < 2 * k - 1 ==> #[trigger] self.vals@[p] == node_val(
                        new_leaves,
                        p,
                    ),
            decreases k - sz,
        {
            let ghost szi = sz as int;
            let prev = cur - sz;
            proof {
                let p = prev as int;
                assert(p == 2 * k - 2 * szi - 1);
                // The slot being finished holds the fold of the left half of
                // its range, [k - 2*sz, k - sz).
                assert(self.vals@[p] == base[p]);
                if szi == 1 {
                    // It is the slot reserved just above: n = k - 1 is odd
                    // here since the loop guard gives 2 | k.
                    assert(n % 2 == 1) by (nonlinear_arith)
                        requires
                            k % 2 == 0,
                            n == k - 1,
                    ;
                    assert(lsp(n) == 1);
                    assert(base[p] == agg_range(old_leaves, n - 1, n));
                } else {
                    assert(p < 2 * n - 1);
                    assert(base[p] == node_val(old_leaves, p));
                    // p + 1 = 2k - 2sz with 2sz dividing k: the node spans
                    // the 2sz leaves [k - 2sz, k), and its filled prefix
                    // before this push ended at k - sz.
                    assert(is_pow2(2 * szi)) by {
                        assert((2 * szi) / 2 == szi);
                    }
                    assert((k - 2 * szi) % (2 * szi) == 0) by {
                        let q2 = k / (2 * szi);
                        lemma_fundamental_div_mod(k, 2 * szi);
                        assert(k - 2 * szi == (2 * szi) * (q2 - 1)) by (nonlinear_arith)
                            requires
                                k == (2 * szi) * q2,
                        ;
                        assert(q2 - 1 >= 0) by (nonlinear_arith)
                            requires
                                k == (2 * szi) * q2,
                                k >= 2 * szi,
                                szi >= 1,
                        ;
                        lemma_mul_mod_zero(2 * szi, q2 - 1);
                    }
                    lemma_partial_node(old_leaves, k - 2 * szi, 2 * szi);
                    assert(base[p] == agg_range(old_leaves, k - 2 * szi, k - szi));
                }
                lemma_agg_range_agree(old_leaves, new_leaves, k - 2 * szi, k - szi);
                assert(self.vals@[p] == agg_range(new_leaves, k - 2 * szi, k - szi));
            }
            let combined = self.vals[prev].combine(&self.vals[cur]);
            proof {
                lemma_agg_range_split(new_leaves, k - 2 * szi, k - szi, k);
                // The slot just left behind is now the completed node over
                // [k - sz, k).
                assert((k - szi) % szi == 0) by {
                    let q3 = k / szi;
                    lemma_fundamental_div_mod(k, szi);
                    assert(k - szi == szi * (q3 - 1)) by (nonlinear_arith)
                        requires
                            k == szi * q3,
                    ;
                    assert(q3 - 1 >= 0) by (nonlinear_arith)
                        requires
                            k == szi * q3,
                            k >= szi,
                            szi >= 1,
                    ;
                    lemma_mul_mod_zero(szi, q3 - 1);
                }
                lemma_aligned_node(new_leaves, k - szi, szi);
                assert(node_val(new_leaves, cur as int) == agg_range(new_leaves, k - szi, k));
            }
            let ghost pre = self.vals@;
            self.vals[prev] = combined;
            proof {
                assert((2 * sz as int) / 2 == sz as int);
                assert(self.vals@[prev as int] == agg_range(new_leaves, k - 2 * szi, k));
                assert forall|p: int| (prev as int) < p < 2 * k - 1 implies self.vals@[p]
                    == node_val(new_leaves, p) by {
                    assert(self.vals@[p] == pre[p]);
                    if p == cur as int {
                        assert(pre[p] == agg_range(new_leaves, k - szi, k));
                    } else if p < cur as int {
                        assert(pre[p] == base[p]);
                        assert(p < 2 * n - 1);
                        assert(base[p] == node_val(old_leaves, p));
                        assert(old_leaves =~= new_leaves.drop_last());
                        lemma_inner_slot_untouched(old_leaves, new_leaves, szi, p);
                    }
                }
                assert forall|p: int| 0 <= p < prev as int implies self.vals@[p] == base[p] by {
                    assert(self.vals@[p] == pre[p]);
                }
            }
            cur = prev;
            sz = 2 * sz;
        }
        proof {
            let szi = sz as int;
            lemma_lsp_from_exit(k, szi);
            let c = cur as int;
            // The walked-to slot is the completed node over [k - sz, k).
            assert((k - szi) % szi == 0) by {
                let q3 = k / szi;
                lemma_fundamental_div_mod(k, szi);
                assert(k - szi == szi * (q3 - 1)) by (nonlinear_arith)
                    requires
                        k == szi * q3,
                ;
                assert(q3 - 1 >= 0) by (nonlinear_arith)
                    requires
                        k == szi * q3,
                        k >= szi,
                        szi >= 1,
                ;
                lemma_mul_mod_zero(szi, q3 - 1);
            }
            lemma_aligned_node(new_leaves, k - szi, szi);
            assert(self.vals@[c] == node_val(new_leaves, c));

            // Every slot below the walked-to one kept its pre-push fold,
            // which the new leaf does not change.
            assert forall|p: int| 0 <= p < c implies self.vals@[p] == node_val(new_leaves, p) by {
                assert(self.vals@[p] == base[p]);
                assert(old_leaves =~= new_leaves.drop_last());
                if p < 2 * n - 1 {
                    assert(base[p] == node_val(old_leaves, p));
                    lemma_untouched_slot(old_leaves, new_leaves, szi, p);
                } else {
                    // The reserved slot: it sits below the walked-to slot
                    // only when no subtree was finished, and then its own
                    // subtree is still incomplete.
                    assert(p == 2 * n - 1 && szi == 1 && n >= 1);
                    assert(base[p] == agg_range(old_leaves, n - lsp(n), n));
                    lemma_lsp_props(n);
                    assert(n % 2 == 0) by {
                        if n % 2 == 1 {
                            assert(k % 2 == 0) by (nonlinear_arith)
                                requires
                                    n % 2 == 1,
                                    k == n + 1,
                            ;
                            assert(false);
                        }
                    }
                    assert(lsp(n) >= 2) by {
                        if lsp(n) == 1 {
                            assert((n / lsp(n)) % 2 == 1);
                            assert(n / 1 == n);
                        }
                    }
                    assert((n - lsp(n)) % (2 * lsp(n)) == 0) by {
                        let q = n / lsp(n);
                        lemma_fundamental_div_mod(n, lsp(n));
                        assert(n - lsp(n) == (2 * lsp(n)) * ((q - 1) / 2)) by (nonlinear_arith)
                            requires
                                n == lsp(n) * q,
                                q % 2 == 1,
                        ;
                        assert((q - 1) / 2 >= 0) by (nonlinear_arith)
                            requires
                                n == lsp(n) * q,
                                n >= 1,
                                lsp(n) >= 1,
                                q % 2 == 1,
                        ;
                        lemma_mul_mod_zero(2 * lsp(n), (q - 1) / 2);
                    }
                    assert(is_pow2(2 * lsp(n))) by {
                        assert((2 * lsp(n)) / 2 == lsp(n));
                    }
                    lemma_partial_node(new_leaves, n - lsp(n), 2 * lsp(n));
                    assert(2 * (n - lsp(n)) + 2 * lsp(n) - 1 == p);
                    assert(node_val(new_leaves, p) == agg_range(new_leaves, n - lsp(n), n));
                    lemma_agg_range_agree(old_leaves, new_leaves, n - lsp(n), n);
                }
            }
            // The leaves embedded in the final array are exactly the old
            // leaves plus the new one.
            assert forall|i: int| 0 <= i < k implies self.vals@[2 * i] == new_leaves[i] by {
                lemma_aligned_node(new_leaves, i, 1);
                assert(i % 1 == 0);
                assert(agg_range(new_leaves, i, i + 1) == new_leaves[i]);
                assert(self.vals@[2 * i] == node_val(new_leaves, 2 * i));
            }
            assert(final(self).leaves() =~= new_leaves);
            assert(final(self).wf());
        }
    }

    /// Combines the aggregates of the leaf range `[r.start, r.end)`. Querying
    /// outside the indexed range is a range violation, which callers must
    /// rule out.
    #[verifier::loop_isolation(false)]
    #[verifier::rlimit(60)]
    pub fn range_query(&self, r: core::ops::Range<usize>) -> (out: A)
        requires
            self.wf(),
            r.start <= r.end,
            r.end as int <= self.leaf_count(),
        ensures
            out == agg_range(self.leaves(), r.start as int, r.end as int),
    {
        let start = r.start;
        let end = r.end;
        let total = self.vals.len();
        let mut cur = start;
        let mut acc = A::empty();
        proof {
            A::lemma_combine_identity(acc);
        }
        while cur < end
            invariant
                start <= cur <= end,
                acc == agg_range(self.leaves(), start as int, cur as int),
            decreases end - cur,
        {
            // The largest power-of-two-aligned subtree that starts at `cur`
            // and stays inside the range; its root sits at 2*cur + k - 1.
            let mut k: usize = 1;
            while k <= (end - cur) / 2 && cur % (2 * k) == 0
                invariant
                    1 <= k,
                    k as int <= end as int - cur as int,
                    is_pow2(k as int),
                    cur as int % k as int == 0,
                decreases end - cur - k,
            {
                proof {
                    assert((2 * k as int) / 2 == k as int);
                }
                k = 2 * k;
            }
            proof {
                lemma_aligned_node(self.leaves(), cur as int, k as int);
                lemma_agg_range_split(
                    self.leaves(),
                    start as int,
                    cur as int,
                    cur as int + k as int,
                );
            }
            proof {
                assert(cur as int + k as int <= end as int);
                assert(2 * (cur as int) + k as int - 1 < total as int);
            }
            let pos = 2 * cur + k - 1;
            acc = acc.combine(&self.vals[pos]);
            cur = cur + k;
        }
        acc
    }
}

impl<A: Aggregate> TrackIndex<A> for IForestIndex<A> {
    /// The index is well formed, holds one leaf per track block, and each
    /// leaf is the aggregate of its block's events.
    open spec fn models(&self, track: Track, pool: BlockPool) -> bool {
        &&& self.wf()
        &&& self.leaves().len() == track.block_locs@.len()
        &&& forall|i: int|
            0 <= i < track.block_locs@.len() ==> #[trigger] self.leaves()[i]
                == A::spec_from_block(pool.blocks@[track.block_locs@[i] as int]@)
    }

    /// Walks the track's blocks in order and pushes each one.
    #[verifier::loop_isolation(false)]
    fn build(track: &Track, pool: &BlockPool) -> (r: Self) {
        let mut forest = IForestIndex::<A>::new();
        let mut i: usize = 0;
        while i < track.block_locs.len()
            invariant
                i <= track.block_locs@.len(),
                forest.wf(),
                forest.leaves().len() == i as int,
                forall|j: int|
                    0 <= j < i as int ==> #[trigger] forest.leaves()[j] == A::spec_from_block(
                        pool.blocks@[track.block_locs@[j] as int]@,
                    ),
            decreases track.block_locs@.len() - i,
        {
            let loc = track.block_locs[i];
            forest.push(&pool.blocks[loc as usize]);
            i = i + 1;
        }
        forest
    }
}

/// Indexes built over the same leaf sequence hold identical aggregates,
/// slot for slot: the array is a function of the pushed blocks alone.
pub proof fn lemma_index_deterministic<A: Aggregate>(i1: &IForestIndex<A>, i2: &IForestIndex<A>)
    requires
        i1.wf(),
        i2.wf(),
        i1.leaves() == i2.leaves(),
    ensures
        i1.vals@ == i2.vals@,
{
    assert(i1.vals@ =~= i2.vals@);
}

/// A query over an empty range yields the identity aggregate.
pub proof fn lemma_empty_range<A: Aggregate>(leaves: Seq<A>, at: int)
    ensures
        agg_range(leaves, at, at) == A::spec_empty(),
{
}

} // verus!
