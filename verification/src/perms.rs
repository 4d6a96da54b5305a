//! Inversion counting for integer sequences, and the parity theory of
//! permutation composition: the sign of a product of permutations is the
//! product of the signs.

use vstd::prelude::*;

verus! {

/// True iff some position of `p` holds the value `v`.
pub open spec fn has_val(p: Seq<int>, v: int) -> bool {
    exists|i: int| 0 <= i < p.len() && #[trigger] p[i] == v
}

/// True iff `p` is a permutation of the values `0 .. n`.
pub open spec fn is_perm_seq(p: Seq<int>, n: int) -> bool {
    &&& p.len() == n
    &&& (forall|i: int| 0 <= i < n ==> 0 <= #[trigger] p[i] < n)
    &&& (forall|i: int, j: int| 0 <= i < j < n ==> p[i] != p[j])
    &&& (forall|v: int| 0 <= v < n ==> #[trigger] has_val(p, v))
}

/// True iff no two positions of `s` hold the same value.
pub open spec fn distinct_seq(s: Seq<int>) -> bool {
    forall|i: int, j: int| 0 <= i < j < s.len() ==> s[i] != s[j]
}

/// How many positions `i < j` hold an entry greater than `x`.
pub open spec fn cnt_gt_upto(s: Seq<int>, j: int, x: int) -> nat
    decreases j,
{
    if j <= 0 {
        0
    } else {
        cnt_gt_upto(s, j - 1, x) + (if s[j - 1] > x { 1nat } else { 0nat })
    }
}

/// How many inverted pairs (an earlier position holding a greater value)
/// lie entirely below position `j`.
pub open spec fn invs_upto(s: Seq<int>, j: int) -> nat
    decreases j,
{
    if j <= 0 {
        0
    } else {
        invs_upto(s, j - 1) + cnt_gt_upto(s, j - 1, s[j - 1])
    }
}

/// The number of inverted pairs of `s`.
pub open spec fn inv_count(s: Seq<int>) -> nat {
    invs_upto(s, s.len() as int)
}

/// Whether `s` is an odd permutation: an odd number of inverted pairs.
pub open spec fn inv_parity(s: Seq<int>) -> bool {
    inv_count(s) % 2 == 1
}

/// Index composition: entry `i` of the result is `a`'s entry at position `b[i]`.
pub open spec fn compose_ids(a: Seq<int>, b: Seq<int>) -> Seq<int> {
    Seq::new(b.len(), |i: int| a[b[i]])
}

/// The identity permutation of `0 .. n`.
pub open spec fn ident_ids(n: int) -> Seq<int> {
    Seq::new(n as nat, |i: int| i)
}

/// Swap the adjacent entries at positions `k` and `k + 1`.
pub open spec fn swap_adj(s: Seq<int>, k: int) -> Seq<int> {
    s.update(k, s[k + 1]).update(k + 1, s[k])
}

/// Every entry shifted by `d`.
pub open spec fn shift_seq(s: Seq<int>, d: int) -> Seq<int> {
    Seq::new(s.len(), |i: int| s[i] + d)
}

/// `cnt_gt_upto` reads only the entries below `j`.
pub proof fn lemma_cnt_congruent(s1: Seq<int>, s2: Seq<int>, j: int, x: int)
    requires
        forall|i: int| 0 <= i < j ==> s1[i] == s2[i],
    ensures
        cnt_gt_upto(s1, j, x) == cnt_gt_upto(s2, j, x),
    decreases j,
{
    if j > 0 {
        lemma_cnt_congruent(s1, s2, j - 1, x);
    }
}

/// `invs_upto` reads only the entries below `j`.
pub proof fn lemma_invs_congruent(s1: Seq<int>, s2: Seq<int>, j: int)
    requires
        forall|i: int| 0 <= i < j ==> s1[i] == s2[i],
    ensures
        invs_upto(s1, j) == invs_upto(s2, j),
    decreases j,
{
    if j > 0 {
        lemma_invs_congruent(s1, s2, j - 1);
        lemma_cnt_congruent(s1, s2, j - 1, s1[j - 1]);
    }
}

/// Counting across a concatenation splits at the boundary.
pub proof fn lemma_cnt_concat(a: Seq<int>, b: Seq<int>, j: int, x: int)
    requires
        0 <= j <= b.len(),
    ensures
        cnt_gt_upto(a + b, a.len() + j, x) == cnt_gt_upto(a, a.len() as int, x)
            + cnt_gt_upto(b, j, x),
    decreases j,
{
    if j == 0 {
        lemma_cnt_congruent(a + b, a, a.len() as int, x);
    } else {
        lemma_cnt_concat(a, b, j - 1, x);
        assert((a + b)[a.len() + j - 1] == b[j - 1]);
    }
}

/// If no entry below `j` exceeds `x`, the count is zero.
pub proof fn lemma_cnt_zero(s: Seq<int>, j: int, x: int)
    requires
        forall|i: int| 0 <= i < j ==> s[i] <= x,
    ensures
        cnt_gt_upto(s, j, x) == 0,
    decreases j,
{
    if j > 0 {
        lemma_cnt_zero(s, j - 1, x);
    }
}

proof fn lemma_invs_concat_j(a: Seq<int>, b: Seq<int>, c: int, j: int)
    requires
        forall|i: int| 0 <= i < a.len() ==> a[i] < c,
        forall|i: int| 0 <= i < b.len() ==> b[i] >= c,
        0 <= j <= b.len(),
    ensures
        invs_upto(a + b, a.len() + j) == inv_count(a) + invs_upto(b, j),
    decreases j,
{
    if j == 0 {
        lemma_invs_congruent(a + b, a, a.len() as int);
    } else {
        lemma_invs_concat_j(a, b, c, j - 1);
        assert((a + b)[a.len() + j - 1] == b[j - 1]);
        lemma_cnt_concat(a, b, j - 1, b[j - 1]);
        lemma_cnt_zero(a, a.len() as int, b[j - 1]);
    }
}

/// When every entry of `a` lies below every entry of `b`, no cross pair is
/// inverted: the inversions of the concatenation are those of the parts.
pub proof fn lemma_invs_concat_split(a: Seq<int>, b: Seq<int>, c: int)
    requires
        forall|i: int| 0 <= i < a.len() ==> a[i] < c,
        forall|i: int| 0 <= i < b.len() ==> b[i] >= c,
    ensures
        inv_count(a + b) == inv_count(a) + inv_count(b),
{
    lemma_invs_concat_j(a, b, c, b.len() as int);
}

proof fn lemma_cnt_shift(s: Seq<int>, d: int, j: int, x: int)
    requires
        0 <= j <= s.len(),
    ensures
        cnt_gt_upto(shift_seq(s, d), j, x + d) == cnt_gt_upto(s, j, x),
    decreases j,
{
    if j > 0 {
        lemma_cnt_shift(s, d, j - 1, x);
    }
}

proof fn lemma_invs_shift_j(s: Seq<int>, d: int, j: int)
    requires
        0 <= j <= s.len(),
    ensures
        invs_upto(shift_seq(s, d), j) == invs_upto(s, j),
    decreases j,
{
    if j > 0 {
        lemma_invs_shift_j(s, d, j - 1);
        assert(shift_seq(s, d)[j - 1] == s[j - 1] + d);
        lemma_cnt_shift(s, d, j - 1, s[j - 1]);
    }
}

/// Shifting all entries by the same amount keeps the inversion count.
pub proof fn lemma_invs_shift(s: Seq<int>, d: int)
    ensures
        inv_count(shift_seq(s, d)) == inv_count(s),
{
    lemma_invs_shift_j(s, d, s.len() as int);
}

/// The count below `j` is at most `j`.
pub proof fn lemma_cnt_le(s: Seq<int>, j: int, x: int)
    requires
        j >= 0,
    ensures
        cnt_gt_upto(s, j, x) <= j,
    decreases j,
{
    if j > 0 {
        lemma_cnt_le(s, j - 1, x);
    }
}

proof fn lemma_cnt_swap(s: Seq<int>, k: int, j: int, x: int)
    requires
        0 <= k,
        k + 2 <= j <= s.len(),
    ensures
        cnt_gt_upto(swap_adj(s, k), j, x) == cnt_gt_upto(s, j, x),
    decreases j,
{
    let s2 = swap_adj(s, k);
    if j == k + 2 {
        lemma_cnt_congruent(s2, s, k, x);
        assert(cnt_gt_upto(s2, k + 2, x) == cnt_gt_upto(s2, k + 1, x) + (if s2[k + 1] > x {
            1nat
        } else {
            0nat
        }));
        assert(cnt_gt_upto(s2, k + 1, x) == cnt_gt_upto(s2, k, x) + (if s2[k] > x {
            1nat
        } else {
            0nat
        }));
        assert(cnt_gt_upto(s, k + 2, x) == cnt_gt_upto(s, k + 1, x) + (if s[k + 1] > x {
            1nat
        } else {
            0nat
        }));
        assert(cnt_gt_upto(s, k + 1, x) == cnt_gt_upto(s, k, x) + (if s[k] > x {
            1nat
        } else {
            0nat
        }));
    } else {
        lemma_cnt_swap(s, k, j - 1, x);
        assert(s2[j - 1] == s[j - 1]);
    }
}

proof fn lemma_invs_swap(s: Seq<int>, k: int, j: int)
    requires
        0 <= k,
        k + 2 <= j <= s.len(),
    ensures
        invs_upto(swap_adj(s, k), j) + (if s[k] > s[k + 1] {
            1nat
        } else {
            0nat
        }) == invs_upto(s, j) + (if s[k + 1] > s[k] {
            1nat
        } else {
            0nat
        }),
    decreases j,
{
    let s2 = swap_adj(s, k);
    if j == k + 2 {
        lemma_invs_congruent(s2, s, k);
        lemma_cnt_congruent(s2, s, k, s[k]);
        lemma_cnt_congruent(s2, s, k, s[k + 1]);
        assert(invs_upto(s2, k + 2) == invs_upto(s2, k + 1) + cnt_gt_upto(s2, k + 1, s2[k + 1]));
        assert(invs_upto(s2, k + 1) == invs_upto(s2, k) + cnt_gt_upto(s2, k, s2[k]));
        assert(invs_upto(s, k + 2) == invs_upto(s, k + 1) + cnt_gt_upto(s, k + 1, s[k + 1]));
        assert(invs_upto(s, k + 1) == invs_upto(s, k) + cnt_gt_upto(s, k, s[k]));
        assert(cnt_gt_upto(s2, k + 1, s2[k + 1]) == cnt_gt_upto(s2, k, s2[k + 1]) + (if s2[k]
            > s2[k + 1] {
            1nat
        } else {
            0nat
        }));
        assert(cnt_gt_upto(s, k + 1, s[k + 1]) == cnt_gt_upto(s, k, s[k + 1]) + (if s[k] > s[k
            + 1] {
            1nat
        } else {
            0nat
        }));
        assert(s2[k] == s[k + 1] && s2[k + 1] == s[k]);
    } else {
        lemma_invs_swap(s, k, j - 1);
        lemma_cnt_swap(s, k, j - 1, s[j - 1]);
        assert(s2[j - 1] == s[j - 1]);
    }
}

/// Swapping an adjacent unequal pair changes the inversion count by
/// exactly one.
pub proof fn lemma_swap_count(s: Seq<int>, k: int)
    requires
        0 <= k,
        k + 1 < s.len(),
    ensures
        swap_adj(s, k).len() == s.len(),
        s[k] > s[k + 1] ==> inv_count(swap_adj(s, k)) + 1 == inv_count(s),
        s[k] < s[k + 1] ==> inv_count(swap_adj(s, k)) == inv_count(s) + 1,
        s[k] == s[k + 1] ==> inv_count(swap_adj(s, k)) == inv_count(s),
{
    lemma_invs_swap(s, k, s.len() as int);
}

proof fn lemma_sorted_pair(s: Seq<int>, i: int, j: int)
    requires
        forall|k: int| 0 <= k < s.len() - 1 ==> #[trigger] s[k] <= s[k + 1],
        0 <= i <= j < s.len(),
    ensures
        s[i] <= s[j],
    decreases j - i,
{
    if i < j {
        lemma_sorted_pair(s, i, j - 1);
    }
}

proof fn lemma_sorted_invs_j(s: Seq<int>, j: int)
    requires
        forall|k: int| 0 <= k < s.len() - 1 ==> #[trigger] s[k] <= s[k + 1],
        0 <= j <= s.len(),
    ensures
        invs_upto(s, j) == 0,
    decreases j,
{
    if j > 0 {
        lemma_sorted_invs_j(s, j - 1);
        assert forall|i: int| 0 <= i < j - 1 implies #[trigger] s[i] <= s[j - 1] by {
            lemma_sorted_pair(s, i, j - 1);
        }
        lemma_cnt_zero(s, j - 1, s[j - 1]);
    }
}

/// An adjacently sorted sequence has no inversions.
pub proof fn lemma_sorted_invs_zero(s: Seq<int>)
    requires
        forall|k: int| 0 <= k < s.len() - 1 ==> #[trigger] s[k] <= s[k + 1],
    ensures
        inv_count(s) == 0,
{
    lemma_sorted_invs_j(s, s.len() as int);
}

proof fn lemma_incr_low(p: Seq<int>, n: int, i: int)
    requires
        is_perm_seq(p, n),
        forall|k: int| 0 <= k < n - 1 ==> #[trigger] p[k] <= p[k + 1],
        0 <= i < n,
    ensures
        p[i] >= i,
    decreases i,
{
    if i > 0 {
        lemma_incr_low(p, n, i - 1);
    }
}

proof fn lemma_incr_high(p: Seq<int>, n: int, i: int)
    requires
        is_perm_seq(p, n),
        forall|k: int| 0 <= k < n - 1 ==> #[trigger] p[k] <= p[k + 1],
        0 <= i < n,
    ensures
        p[i] <= i,
    decreases n - i,
{
    if i < n - 1 {
        lemma_incr_high(p, n, i + 1);
        assert(p[i] != p[i + 1]);
    }
}

/// A sorted permutation of `0 .. n` is the identity.
pub proof fn lemma_sorted_perm_ident(p: Seq<int>, n: int)
    requires
        is_perm_seq(p, n),
        forall|k: int| 0 <= k < n - 1 ==> #[trigger] p[k] <= p[k + 1],
    ensures
        p =~= ident_ids(n),
{
    assert forall|i: int| 0 <= i < n implies p[i] == i by {
        lemma_incr_low(p, n, i);
        lemma_incr_high(p, n, i);
    }
}

proof fn lemma_swap_perm(b: Seq<int>, n: int, k: int)
    requires
        is_perm_seq(b, n),
        0 <= k < n - 1,
        b[k] > b[k + 1],
    ensures
        is_perm_seq(swap_adj(b, k), n),
        inv_count(swap_adj(b, k)) + 1 == inv_count(b),
{
    let b2 = swap_adj(b, k);
    assert forall|v: int| 0 <= v < n implies #[trigger] has_val(b2, v) by {
        assert(has_val(b, v));
        let w = choose|w: int| 0 <= w < b.len() && b[w] == v;
        if w == k {
            assert(b2[k + 1] == v);
        } else if w == k + 1 {
            assert(b2[k] == v);
        } else {
            assert(b2[w] == v);
        }
    }
    assert(b[k] != b[k + 1]);
    lemma_swap_count(b, k);
}

/// The sign of a composition of permutations is the product of the signs:
/// composing with `b` flips the inversion parity of `a` exactly when `b`
/// itself is odd.
pub proof fn lemma_compose_parity(a: Seq<int>, b: Seq<int>)
    requires
        distinct_seq(a),
        is_perm_seq(b, a.len() as int),
    ensures
        inv_parity(compose_ids(a, b)) == (inv_parity(a) != inv_parity(b)),
    decreases inv_count(b),
{
    let n = a.len() as int;
    let c = compose_ids(a, b);
    if exists|k: int| 0 <= k < n - 1 && #[trigger] b[k] > b[k + 1] {
        let k = choose|k: int| 0 <= k < n - 1 && #[trigger] b[k] > b[k + 1];
        let b2 = swap_adj(b, k);
        lemma_swap_perm(b, n, k);
        lemma_compose_parity(a, b2);
        assert(compose_ids(a, b2) =~= swap_adj(c, k));
        assert(c[k] == a[b[k]] && c[k + 1] == a[b[k + 1]]);
        assert(c[k] != c[k + 1]);
        lemma_swap_count(c, k);
    } else {
        assert forall|k: int| 0 <= k < n - 1 implies #[trigger] b[k] <= b[k + 1] by {
            if b[k] > b[k + 1] {
                assert(0 <= k < n - 1 && b[k] > b[k + 1]);
            }
        }
        lemma_sorted_invs_zero(b);
        lemma_sorted_perm_ident(b, n);
        assert(c =~= a);
    }
}

/// Injectivity forces surjectivity on a finite range: a duplicate-free
/// sequence of `n` values drawn from `0 .. n` hits every such value.
pub proof fn lemma_inj_is_perm(p: Seq<int>, n: int)
    requires
        p.len() == n,
        forall|i: int| 0 <= i < n ==> 0 <= #[trigger] p[i] < n,
        forall|i: int, j: int| 0 <= i < j < n ==> p[i] != p[j],
    ensures
        is_perm_seq(p, n),
{
    broadcast use vstd::set::group_set_axioms;
    broadcast use vstd::seq_lib::seq_to_set_is_finite;

    let a = p.to_set();
    let b = vstd::set_lib::set_int_range(0, n);
    assert(p.no_duplicates());
    p.unique_seq_to_set();
    vstd::set_lib::lemma_int_range(0, n);
    assert forall|v: int| a.contains(v) implies b.contains(v) by {
        let w = choose|i: int| 0 <= i < p.len() && p[i] == v;
        assert(0 <= p[w] < n);
    }
    assert forall|v: int| 0 <= v < n implies #[trigger] has_val(p, v) by {
        if !p.contains(v) {
            assert(a.subset_of(b.remove(v)));
            assert(b.remove(v).len() == n - 1);
            vstd::set_lib::lemma_len_subset(a, b.remove(v));
            assert(false);
        }
        let w = choose|i: int| 0 <= i < p.len() && p[i] == v;
        assert(p[w] == v);
    }
}

/// The inversion count below `j` is at most `20 * j` for the short
/// sequences this kernel works with.
pub proof fn lemma_invs_le(s: Seq<int>, j: int)
    requires
        0 <= j <= 20,
    ensures
        invs_upto(s, j) <= 20 * j,
    decreases j,
{
    if j > 0 {
        lemma_invs_le(s, j - 1);
        lemma_cnt_le(s, j - 1, s[j - 1]);
    }
}

} // verus!
