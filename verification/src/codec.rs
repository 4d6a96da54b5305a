//! Combinatorial codecs: the base-3 corner-orientation coordinate and the
//! factorial-number-system edge-permutation coordinate.

use vstd::prelude::*;
use crate::cube::{Cube, EdgeLane, lemma_pow256_pos};
use crate::types::{Cori, Eperm};
use crate::model::{
    byte_id, byte_ori, pack, ids_of, oris_below, wf_lane, pow256, u64_byte,
    lemma_pack_fields,
};
use crate::perms::{is_perm_seq, has_val, ident_ids};
use vstd::arithmetic::div_mod::{
    lemma_breakdown, lemma_small_mod, lemma_fundamental_div_mod,
    lemma_mod_multiples_vanish, lemma_multiply_divide_lt, lemma_div_pos_is_pos,
    lemma_hoist_over_denominator, lemma_basic_div, lemma_mod_division_less_than_divisor,
};
use vstd::arithmetic::mul::{
    lemma_mul_inequality, lemma_mul_is_associative, lemma_mul_is_commutative,
    lemma_mul_nonnegative, lemma_mul_is_distributive_add,
};

verus! {

/// 3 to the power `k`.
pub open spec fn pow3(k: nat) -> int
    decreases k,
{
    if k == 0 {
        1
    } else {
        3 * pow3((k - 1) as nat)
    }
}

/// 4 to the power `k`.
pub open spec fn pow4(k: nat) -> int
    decreases k,
{
    if k == 0 {
        1
    } else {
        4 * pow4((k - 1) as nat)
    }
}

pub proof fn lemma_pow3_pos(k: nat)
    ensures
        pow3(k) >= 1,
    decreases k,
{
    if k > 0 {
        lemma_pow3_pos((k - 1) as nat);
    }
}

pub proof fn lemma_pow3_mono(a: nat, b: nat)
    requires
        a <= b,
    ensures
        pow3(a) <= pow3(b),
    decreases b,
{
    if a < b {
        lemma_pow3_mono(a, (b - 1) as nat);
        lemma_pow3_pos((b - 1) as nat);
    }
}

pub proof fn lemma_pow4_pos(k: nat)
    ensures
        pow4(k) >= 1,
    decreases k,
{
    if k > 0 {
        lemma_pow4_pos((k - 1) as nat);
    }
}

pub proof fn lemma_pow4_mono(a: nat, b: nat)
    requires
        a <= b,
    ensures
        pow4(a) <= pow4(b),
    decreases b,
{
    if a < b {
        lemma_pow4_mono(a, (b - 1) as nat);
        lemma_pow4_pos((b - 1) as nat);
    }
}

/// The corner-orientation rank of corners `1 .. k`: each orientation times
/// its base-3 place value.  Corner 0 carries no weight: its orientation is
/// determined by the others through the mod-3 parity constraint.
pub open spec fn co_rank_upto(s: Seq<u8>, k: int) -> int
    decreases k,
{
    if k <= 1 {
        0
    } else {
        co_rank_upto(s, k - 1) + byte_ori(s[k - 1]) * pow3((k - 2) as nat)
    }
}

/// The base-3 corner-orientation coordinate of a corner lane, in `0 .. 2187`.
pub open spec fn co_rank(s: Seq<u8>) -> int {
    co_rank_upto(s, 8)
}

/// The raw packing of all 8 corner orientations, two bits per corner.
pub open spec fn co_raw_upto(s: Seq<u8>, k: int) -> int
    decreases k,
{
    if k <= 0 {
        0
    } else {
        co_raw_upto(s, k - 1) + byte_ori(s[k - 1]) * pow4((k - 1) as nat)
    }
}

pub open spec fn co_raw(s: Seq<u8>) -> int {
    co_raw_upto(s, 8)
}

/// Base-3 digit `i - 1` of the ordinal `n`: the orientation of corner `i`
/// (for `i >= 1`) that the unranking produces.
pub open spec fn co_digit(n: int, i: int) -> int {
    n / pow3((i - 1) as nat) % 3
}

/// The sum of the orientations of corners `1 .. k` taken from the ordinal.
pub open spec fn co_digit_sum(n: int, k: int) -> int
    decreases k,
{
    if k <= 1 {
        0
    } else {
        co_digit_sum(n, k - 1) + co_digit(n, k - 1)
    }
}

/// The orientation of corner 0 forced by the constraint that all eight
/// orientations sum to 0 mod 3.
pub open spec fn co_fix(n: int) -> int {
    (0 - co_digit_sum(n, 8)) % 3
}

/// The corner lane produced by unranking the ordinal `n`: orientations only,
/// every identity field zero.
pub open spec fn unrank_co(n: int) -> Seq<u8> {
    Seq::new(
        8,
        |i: int|
            if i == 0 {
                pack(0, co_fix(n))
            } else {
                pack(0, co_digit(n, i))
            },
    )
}

/// `co_rank_upto` stays below its place value.
proof fn lemma_co_rank_upto_bound(s: Seq<u8>, k: int)
    requires
        s.len() == 8,
        oris_below(s, 3),
        1 <= k <= 8,
    ensures
        0 <= co_rank_upto(s, k) <= pow3((k - 1) as nat) - 1,
    decreases k,
{
    if k > 1 {
        lemma_co_rank_upto_bound(s, k - 1);
        lemma_pow3_pos((k - 2) as nat);
        assert(byte_ori(s[k - 1]) * pow3((k - 2) as nat) <= 2 * pow3((k - 2) as nat)) by {
            lemma_mul_inequality(byte_ori(s[k - 1]), 2, pow3((k - 2) as nat));
        }
        assert(byte_ori(s[k - 1]) * pow3((k - 2) as nat) >= 0) by {
            lemma_mul_nonnegative(byte_ori(s[k - 1]), pow3((k - 2) as nat));
        }
    }
}

/// `co_raw_upto` stays below its place value.
proof fn lemma_co_raw_upto_bound(s: Seq<u8>, k: int)
    requires
        s.len() == 8,
        oris_below(s, 3),
        0 <= k <= 8,
    ensures
        0 <= co_raw_upto(s, k) <= pow4(k as nat) - 1,
    decreases k,
{
    if k > 0 {
        lemma_co_raw_upto_bound(s, k - 1);
        lemma_pow4_pos((k - 1) as nat);
        assert(byte_ori(s[k - 1]) * pow4((k - 1) as nat) <= 2 * pow4((k - 1) as nat)) by {
            lemma_mul_inequality(byte_ori(s[k - 1]), 2, pow4((k - 1) as nat));
        }
        assert(byte_ori(s[k - 1]) * pow4((k - 1) as nat) >= 0) by {
            lemma_mul_nonnegative(byte_ori(s[k - 1]), pow4((k - 1) as nat));
        }
    }
}

impl Cube {
    /// The base-3 corner-orientation coordinate of this state, in `0 .. 2187`.
    pub fn corner_orient(&self) -> (r: Cori)
        requires
            self@.corners.len() == 8,
            oris_below(self@.corners, 3),
        ensures
            r.0 as int == co_rank(self@.corners),
            r.0 < 2187,
    {
        let ghost s = self@.corners;
        let mut acc: u32 = 0;
        let mut w: u32 = 1;
        let mut i: usize = 1;
        while i < 8
            invariant
                self@.corners == s,
                s.len() == 8,
                oris_below(s, 3),
                1 <= i <= 8,
                w as int == pow3((i - 1) as nat),
                acc as int == co_rank_upto(s, i as int),
            decreases 8 - i,
        {
            proof {
                lemma_pow3_mono((i - 1) as nat, 6);
                assert(pow3(6) == 729) by {
                    reveal_with_fuel(pow3, 8);
                }
                lemma_co_rank_upto_bound(s, i as int);
                lemma_co_rank_upto_bound(s, i as int + 1);
                lemma_pow3_mono(i as nat, 7);
                assert(pow3(7) == 2187) by {
                    reveal_with_fuel(pow3, 9);
                }
                assert(byte_ori(s[i as int]) * (w as int) <= 2 * (w as int)) by {
                    lemma_mul_inequality(byte_ori(s[i as int]), 2, w as int);
                }
                lemma_mul_nonnegative(byte_ori(s[i as int]), w as int);
            }
            acc = acc + (self.cv.0[i] / 16) as u32 * w;
            w = w * 3;
            i = i + 1;
        }
        proof {
            lemma_co_rank_upto_bound(s, 8);
            assert(pow3(7) == 2187) by {
                reveal_with_fuel(pow3, 9);
            }
        }
        Cori(acc)
    }

    /// The raw corner-orientation packing: two bits per corner, in slot order.
    pub fn corner_orient_raw(&self) -> (r: Cori)
        requires
            self@.corners.len() == 8,
            oris_below(self@.corners, 3),
        ensures
            r.0 as int == co_raw(self@.corners),
            r.0 < 65536,
    {
        let ghost s = self@.corners;
        let mut acc: u32 = 0;
        let mut w: u32 = 1;
        let mut i: usize = 0;
        while i < 8
            invariant
                self@.corners == s,
                s.len() == 8,
                oris_below(s, 3),
                i <= 8,
                w as int == pow4(i as nat),
                acc as int == co_raw_upto(s, i as int),
            decreases 8 - i,
        {
            proof {
                lemma_pow4_mono(i as nat, 7);
                assert(pow4(7) == 16384) by {
                    reveal_with_fuel(pow4, 9);
                }
                lemma_co_raw_upto_bound(s, i as int);
                lemma_co_raw_upto_bound(s, i as int + 1);
                lemma_pow4_mono((i + 1) as nat, 8);
                assert(pow4(8) == 65536) by {
                    reveal_with_fuel(pow4, 10);
                }
                assert(byte_ori(s[i as int]) * (w as int) <= 2 * (w as int)) by {
                    lemma_mul_inequality(byte_ori(s[i as int]), 2, w as int);
                }
                lemma_mul_nonnegative(byte_ori(s[i as int]), w as int);
            }
            acc = acc + (self.cv.0[i] / 16) as u32 * w;
            w = w * 4;
            i = i + 1;
        }
        proof {
            lemma_co_raw_upto_bound(s, 8);
            assert(pow4(8) == 65536) by {
                reveal_with_fuel(pow4, 10);
            }
        }
        Cori(acc)
    }
}

/// The value of the first `k` bytes of a lane read as a little-endian number.
pub open spec fn lane_num(s: Seq<u8>, k: int) -> int
    decreases k,
{
    if k <= 0 {
        0
    } else {
        lane_num(s, k - 1) + s[k - 1] * pow256((k - 1) as nat)
    }
}

proof fn lemma_pow256_adds(a: nat, b: nat)
    ensures
        pow256(a + b) == pow256(a) * pow256(b),
    decreases a,
{
    if a == 0 {
        lemma_pow256_pos(b);
    } else {
        lemma_pow256_adds((a - 1) as nat, b);
        lemma_mul_is_associative(256, pow256((a - 1) as nat), pow256(b));
    }
}

/// A number assembled from bytes decomposes back into those bytes.
proof fn lemma_lane_num_bytes(s: Seq<u8>, k: int)
    requires
        0 <= k <= s.len(),
    ensures
        0 <= lane_num(s, k) < pow256(k as nat),
        forall|i: int| 0 <= i < k ==> (lane_num(s, k) / pow256(i as nat)) % 256 == s[i] as int,
    decreases k,
{
    if k == 0 {
    } else {
        lemma_lane_num_bytes(s, k - 1);
        let a = lane_num(s, k - 1);
        let b = s[k - 1] as int;
        let p = pow256((k - 1) as nat);
        lemma_pow256_pos((k - 1) as nat);
        assert(b * p <= 255 * p) by {
            lemma_mul_inequality(b, 255, p);
        }
        lemma_mul_nonnegative(b, p);
        assert(pow256(k as nat) == 256 * p);
        assert forall|i: int| 0 <= i < k implies (lane_num(s, k) / pow256(i as nat)) % 256
            == s[i] as int by {
            let pi = pow256(i as nat);
            lemma_pow256_pos(i as nat);
            if i == k - 1 {
                lemma_hoist_over_denominator(a, b, p as nat);
                lemma_basic_div(a, p);
                assert((a + b * p) / p == b);
                lemma_small_mod(b as nat, 256);
            } else {
                let e = (k - 1 - i) as nat;
                lemma_pow256_adds(i as nat, e);
                assert(p == pow256(e) * pi) by {
                    lemma_mul_is_commutative(pi, pow256(e));
                }
                assert(b * p == (b * pow256(e)) * pi) by {
                    lemma_mul_is_associative(b, pow256(e), pi);
                }
                lemma_hoist_over_denominator(a, b * pow256(e), pi as nat);
                assert((a + (b * pow256(e)) * pi) / pi == a / pi + b * pow256(e));
                assert(pow256(e) == 256 * pow256((e - 1) as nat));
                assert(b * pow256(e) == 256 * (b * pow256((e - 1) as nat))) by {
                    lemma_mul_is_associative(b, 256, pow256((e - 1) as nat));
                    lemma_mul_is_commutative(b, 256);
                    lemma_mul_is_associative(256, b, pow256((e - 1) as nat));
                }
                lemma_mod_multiples_vanish(b * pow256((e - 1) as nat), a / pi, 256);
            }
        }
    }
}

/// Assemble 8 bytes into a 64-bit value, least significant byte first.
fn u64_of_bytes(bytes: &Vec<u8>) -> (r: u64)
    requires
        bytes@.len() == 8,
    ensures
        forall|i: int| 0 <= i < 8 ==> u64_byte(r, i) == bytes@[i],
{
    let mut r: u64 = 0;
    let mut mult: u64 = 1;
    let mut k: usize = 0;
    while k < 8
        invariant
            bytes@.len() == 8,
            k <= 8,
            r as int == lane_num(bytes@, k as int),
            k < 8 ==> mult as int == pow256(k as nat),
        decreases 8 - k,
    {
        proof {
            lemma_lane_num_bytes(bytes@, k as int);
            lemma_lane_num_bytes(bytes@, k as int + 1);
            lemma_pow256_pos(k as nat);
            assert(pow256(8) == 0x1_0000_0000_0000_0000) by {
                reveal_with_fuel(pow256, 10);
            }
            lemma_pow256_mono(k as nat + 1, 8);
            assert(bytes@[k as int] * (mult as int) <= 255 * (mult as int)) by {
                lemma_mul_inequality(bytes@[k as int] as int, 255, mult as int);
            }
            lemma_mul_nonnegative(bytes@[k as int] as int, mult as int);
            if k < 7 {
                lemma_pow256_mono(k as nat + 1, 7);
                assert(pow256(7) == 0x100_0000_0000_0000) by {
                    reveal_with_fuel(pow256, 9);
                }
            }
        }
        r = r + (bytes[k] as u64) * mult;
        if k < 7 {
            mult = mult * 256;
        }
        k = k + 1;
    }
    proof {
        lemma_lane_num_bytes(bytes@, 8);
        assert forall|i: int| 0 <= i < 8 implies u64_byte(r, i) == bytes@[i] by {
            assert((r as int / pow256(i as nat)) % 256 == bytes@[i] as int);
        }
    }
    r
}

proof fn lemma_pow256_mono(a: nat, b: nat)
    requires
        a <= b,
    ensures
        pow256(a) <= pow256(b),
    decreases b,
{
    if a < b {
        lemma_pow256_mono(a, (b - 1) as nat);
        lemma_pow256_pos((b - 1) as nat);
    }
}

/// Unrank a corner-orientation ordinal into a packed corner lane holding
/// orientations only: byte `i` of the result is entry `i`, with identity 0.
pub fn unrank_corner_orient(cori: Cori) -> (r: u64)
    requires
        cori.0 < 2187,
    ensures
        forall|i: int| 0 <= i < 8 ==> u64_byte(r, i) == unrank_co(cori.0 as int)[i],
{
    let n = cori.0;
    let ghost ni = n as int;
    let mut digits: Vec<u8> = Vec::new();
    digits.push(0);
    let mut p: u32 = 1;
    let mut ssum: u32 = 0;
    let mut i: usize = 1;
    while i < 8
        invariant
            n < 2187,
            ni == n as int,
            1 <= i <= 8,
            digits@.len() == i,
            p as int == pow3((i - 1) as nat),
            digits@[0] == 0u8,
            forall|k: int| 1 <= k < i ==> digits@[k] as int == co_digit(ni, k),
            forall|k: int| 1 <= k < i ==> digits@[k] < 3,
            ssum as int == co_digit_sum(ni, i as int),
            ssum as int <= 2 * (i as int - 1),
        decreases 8 - i,
    {
        proof {
            lemma_pow3_pos((i - 1) as nat);
            lemma_pow3_mono((i - 1) as nat, 6);
            assert(pow3(6) == 729) by {
                reveal_with_fuel(pow3, 8);
            }
        }
        let d = (n / p) % 3;
        digits.push(d as u8);
        ssum = ssum + d;
        p = p * 3;
        i = i + 1;
    }
    let f = (3 - (ssum % 3)) % 3;
    proof {
        lemma_fundamental_div_mod(ssum as int, 3);
        lemma_mod_multiples_vanish(0 - (ssum as int / 3), 0 - (ssum as int % 3), 3);
        assert(f as int == co_fix(ni));
    }
    let mut bytes: Vec<u8> = Vec::new();
    bytes.push(16 * (f as u8));
    let mut i: usize = 1;
    while i < 8
        invariant
            1 <= i <= 8,
            bytes@.len() == i,
            digits@.len() == 8,
            forall|k: int| 1 <= k < 8 ==> digits@[k] as int == co_digit(ni, k),
            forall|k: int| 1 <= k < 8 ==> digits@[k] < 3,
            bytes@[0] == unrank_co(ni)[0],
            forall|k: int| 1 <= k < i ==> bytes@[k] == unrank_co(ni)[k],
        decreases 8 - i,
    {
        bytes.push(16 * digits[i]);
        i = i + 1;
    }
    u64_of_bytes(&bytes)
}

/// The unranked orientations always sum to 0 mod 3: the forced orientation
/// of corner 0 balances the seven digits.
pub proof fn lemma_unrank_co_balanced(n: int)
    requires
        0 <= n,
    ensures
        (co_fix(n) + co_digit_sum(n, 8)) % 3 == 0,
{
    let s = co_digit_sum(n, 8);
    lemma_fundamental_div_mod(s, 3);
    lemma_mod_division_less_than_divisor(s, 3);
    lemma_mod_division_less_than_divisor(0 - s, 3);
    lemma_mod_multiples_vanish(0 - (s / 3), 0 - (s % 3), 3);
    lemma_mod_multiples_vanish(s / 3, co_fix(n) + s % 3, 3);
}

/// Unranking then ranking a corner-orientation ordinal returns it: the
/// base-3 digits written by `unrank_co` are exactly what `co_rank` reads.
pub proof fn lemma_corner_orient_round_trip(n: int)
    requires
        0 <= n < 2187,
    ensures
        co_rank(unrank_co(n)) == n,
{
    lemma_co_round(n, 8);
    assert(pow3(7) == 2187) by {
        reveal_with_fuel(pow3, 9);
    }
    lemma_small_mod(n as nat, 2187);
}

/// `k` factorial.
pub open spec fn fact(k: nat) -> int
    decreases k,
{
    if k == 0 {
        1
    } else {
        k * fact((k - 1) as nat)
    }
}

pub proof fn lemma_fact_pos(k: nat)
    ensures
        fact(k) >= 1,
    decreases k,
{
    if k > 0 {
        lemma_fact_pos((k - 1) as nat);
        lemma_mul_inequality(1, k as int, fact((k - 1) as nat));
    }
}

pub proof fn lemma_fact_mono(a: nat, b: nat)
    requires
        a <= b,
    ensures
        fact(a) <= fact(b),
    decreases b,
{
    if a < b {
        lemma_fact_mono(a, (b - 1) as nat);
        lemma_fact_pos((b - 1) as nat);
        lemma_mul_inequality(1, b as int, fact((b - 1) as nat));
    }
}

pub proof fn lemma_fact_12()
    ensures
        fact(11) == 39916800,
        fact(12) == 479001600,
{
    assert(fact(0) == 1);
    assert(fact(1) == 1);
    assert(fact(2) == 2);
    assert(fact(3) == 6);
    assert(fact(4) == 24);
    assert(fact(5) == 120);
    assert(fact(6) == 720);
    assert(fact(7) == 5040);
    assert(fact(8) == 40320);
    assert(fact(9) == 362880);
    assert(fact(10) == 3628800);
    assert(fact(11) == 39916800);
    assert(fact(12) == 479001600);
}

/// A lane's bytes as plain integers.
pub open spec fn to_ints(s: Seq<u8>) -> Seq<int> {
    Seq::new(s.len(), |i: int| s[i] as int)
}

/// Decode an ordinal in the factorial number system against the pool of
/// still-unused identities `rem`: each digit picks one remaining identity.
pub open spec fn unrank_ids(n: int, rem: Seq<int>) -> Seq<int>
    decreases rem.len(),
{
    if rem.len() == 0 {
        Seq::empty()
    } else {
        let k = (rem.len() - 1) as nat;
        let d = if 0 <= n / fact(k) < rem.len() {
            n / fact(k)
        } else {
            0
        };
        seq![rem[d]] + unrank_ids(n % fact(k), rem.remove(d))
    }
}

/// The position of the value `v` in `s`.
pub open spec fn idx_in(s: Seq<int>, v: int) -> int {
    choose|i: int| 0 <= i < s.len() && s[i] == v
}

/// Rank a permutation against the pool of still-unused identities `rem`:
/// the inverse of `unrank_ids`, digit by digit.
pub open spec fn rank_ids(p: Seq<int>, rem: Seq<int>) -> int
    decreases p.len(),
{
    if p.len() == 0 {
        0
    } else {
        let d = if 0 <= idx_in(rem, p[0]) < rem.len() {
            idx_in(rem, p[0])
        } else {
            0
        };
        d * fact((rem.len() - 1) as nat) + rank_ids(p.drop_first(), rem.remove(d))
    }
}

/// Removing one entry of a duplicate-free sequence keeps it duplicate-free
/// and drops exactly that entry's value.
proof fn lemma_remove_props(s: Seq<int>, d: int)
    requires
        0 <= d < s.len(),
        s.no_duplicates(),
    ensures
        s.remove(d).len() == s.len() - 1,
        s.remove(d).no_duplicates(),
        forall|v: int| #[trigger] s.remove(d).contains(v) <==> (s.contains(v) && v != s[d]),
{
    let r = s.remove(d);
    s.remove_ensures(d);
    assert forall|v: int| #[trigger] r.contains(v) <==> (s.contains(v) && v != s[d]) by {
        if r.contains(v) {
            let i = choose|i: int| 0 <= i < r.len() && r[i] == v;
            if i < d {
                assert(s[i] == v);
            } else {
                assert(s[i + 1] == v);
            }
        }
        if s.contains(v) && v != s[d] {
            let i = choose|i: int| 0 <= i < s.len() && s[i] == v;
            if i < d {
                assert(r[i] == v);
            } else {
                assert(i > d);
                assert(r[i - 1] == v);
            }
        }
    }
    assert forall|i: int, j: int|
        0 <= i < r.len() && 0 <= j < r.len() && i != j implies r[i] != r[j] by {
        let oi = if i < d { i } else { i + 1 };
        let oj = if j < d { j } else { j + 1 };
        assert(r[i] == s[oi] && r[j] == s[oj]);
    }
}

/// The identity pool holds exactly the values `0 .. n`, each once.
proof fn lemma_ident_ids_props(n: int)
    requires
        0 <= n,
    ensures
        ident_ids(n).len() == n,
        ident_ids(n).no_duplicates(),
        forall|v: int| #[trigger] ident_ids(n).contains(v) <==> 0 <= v < n,
{
    let s = ident_ids(n);
    assert forall|v: int| #[trigger] s.contains(v) <==> 0 <= v < n by {
        if s.contains(v) {
            let i = choose|i: int| 0 <= i < s.len() && s[i] == v;
            assert(s[i] == i);
        }
        if 0 <= v < n {
            assert(s[v] == v);
        }
    }
}

/// Unranking against a duplicate-free pool uses each pool value exactly once.
proof fn lemma_unrank_props(n: int, rem: Seq<int>)
    requires
        0 <= n < fact(rem.len() as nat),
        rem.no_duplicates(),
    ensures
        unrank_ids(n, rem).len() == rem.len(),
        unrank_ids(n, rem).no_duplicates(),
        forall|v: int| #[trigger] unrank_ids(n, rem).contains(v) <==> rem.contains(v),
    decreases rem.len(),
{
    let u = unrank_ids(n, rem);
    if rem.len() == 0 {
        assert forall|v: int| #[trigger] u.contains(v) <==> rem.contains(v) by {
            if u.contains(v) {
                let i = choose|i: int| 0 <= i < u.len() && u[i] == v;
            }
            if rem.contains(v) {
                let i = choose|i: int| 0 <= i < rem.len() && rem[i] == v;
            }
        }
    } else {
        let k = (rem.len() - 1) as nat;
        lemma_fact_pos(k);
        assert(fact(rem.len() as nat) == rem.len() * fact(k));
        lemma_mul_is_commutative(rem.len() as int, fact(k));
        lemma_multiply_divide_lt(n, fact(k), rem.len() as int);
        lemma_div_pos_is_pos(n, fact(k));
        lemma_mod_division_less_than_divisor(n, fact(k));
        let d = n / fact(k);
        assert(0 <= d < rem.len());
        lemma_remove_props(rem, d);
        lemma_unrank_props(n % fact(k), rem.remove(d));
        let rest = unrank_ids(n % fact(k), rem.remove(d));
        assert(u == seq![rem[d]] + rest);
        assert(u[0] == rem[d]);
        assert(!rest.contains(rem[d]));
        assert forall|i: int, j: int|
            0 <= i < u.len() && 0 <= j < u.len() && i != j implies u[i] != u[j] by {
            if i == 0 {
                assert(u[j] == rest[j - 1]);
                if u[j] == rem[d] {
                    assert(rest.contains(rem[d]));
                }
            } else if j == 0 {
                assert(u[i] == rest[i - 1]);
                if u[i] == rem[d] {
                    assert(rest.contains(rem[d]));
                }
            } else {
                assert(u[i] == rest[i - 1] && u[j] == rest[j - 1]);
            }
        }
        assert forall|v: int| #[trigger] u.contains(v) <==> rem.contains(v) by {
            if u.contains(v) {
                let i = choose|i: int| 0 <= i < u.len() && u[i] == v;
                if i == 0 {
                    assert(rem[d] == v);
                } else {
                    assert(rest[i - 1] == v);
                    assert(rest.contains(v));
                    assert(rem.remove(d).contains(v));
                }
            }
            if rem.contains(v) {
                if v == rem[d] {
                    assert(u[0] == v);
                } else {
                    assert(rem.remove(d).contains(v));
                    assert(rest.contains(v));
                    let i = choose|i: int| 0 <= i < rest.len() && rest[i] == v;
                    assert(u[i + 1] == v);
                }
            }
        }
    }
}

/// Ranking what was unranked returns the ordinal.
proof fn lemma_rank_unrank(n: int, rem: Seq<int>)
    requires
        0 <= n < fact(rem.len() as nat),
        rem.no_duplicates(),
    ensures
        rank_ids(unrank_ids(n, rem), rem) == n,
    decreases rem.len(),
{
    if rem.len() == 0 {
    } else {
        let k = (rem.len() - 1) as nat;
        lemma_fact_pos(k);
        assert(fact(rem.len() as nat) == rem.len() * fact(k));
        lemma_mul_is_commutative(rem.len() as int, fact(k));
        lemma_multiply_divide_lt(n, fact(k), rem.len() as int);
        lemma_div_pos_is_pos(n, fact(k));
        lemma_mod_division_less_than_divisor(n, fact(k));
        let d = n / fact(k);
        let u = unrank_ids(n, rem);
        let rest = unrank_ids(n % fact(k), rem.remove(d));
        assert(u == seq![rem[d]] + rest);
        assert(u[0] == rem[d]);
        let ii = idx_in(rem, rem[d]);
        assert(0 <= ii < rem.len() && rem[ii] == rem[d]) by {
            assert(0 <= d < rem.len() && rem[d] == rem[d]);
        }
        assert(ii == d);
        assert(u.drop_first() =~= rest);
        lemma_remove_props(rem, d);
        lemma_rank_unrank(n % fact(k), rem.remove(d));
        lemma_fundamental_div_mod(n, fact(k));
        lemma_mul_is_commutative(fact(k), d);
    }
}

/// The rank of any arrangement of the pool stays below `fact(pool size)`.
proof fn lemma_rank_bound(p: Seq<int>, rem: Seq<int>)
    requires
        p.len() == rem.len(),
        rem.no_duplicates(),
        p.no_duplicates(),
        forall|j: int| 0 <= j < p.len() ==> rem.contains(#[trigger] p[j]),
    ensures
        0 <= rank_ids(p, rem) <= fact(rem.len() as nat) - 1,
    decreases p.len(),
{
    if p.len() == 0 {
    } else {
        let k = (rem.len() - 1) as nat;
        lemma_fact_pos(k);
        assert(rem.contains(p[0]));
        let w = choose|i: int| 0 <= i < rem.len() && rem[i] == p[0];
        let ii = idx_in(rem, p[0]);
        assert(0 <= ii < rem.len() && rem[ii] == p[0]) by {
            assert(0 <= w < rem.len() && rem[w] == p[0]);
        }
        lemma_remove_props(rem, ii);
        let pd = p.drop_first();
        assert forall|j: int|
            0 <= j < pd.len() implies rem.remove(ii).contains(#[trigger] pd[j]) by {
            assert(pd[j] == p[j + 1]);
            assert(p[j + 1] != p[0]);
            assert(rem.contains(p[j + 1]));
        }
        assert forall|i: int, j: int|
            0 <= i < pd.len() && 0 <= j < pd.len() && i != j implies pd[i] != pd[j] by {
            assert(pd[i] == p[i + 1] && pd[j] == p[j + 1]);
        }
        lemma_rank_bound(pd, rem.remove(ii));
        lemma_mul_inequality(ii, rem.len() - 1, fact(k));
        lemma_mul_nonnegative(ii, fact(k));
        assert(fact(rem.len() as nat) == rem.len() * fact(k));
        assert((rem.len() - 1) * fact(k) + fact(k) == rem.len() * fact(k)) by {
            lemma_mul_is_commutative(rem.len() - 1, fact(k));
            lemma_mul_is_distributive_add(fact(k), rem.len() - 1, 1);
            lemma_mul_is_commutative(rem.len() as int, fact(k));
        }
    }
}

/// A duplicate-free sequence holding exactly the values `0 .. n` is a
/// permutation of them.
proof fn lemma_props_to_perm(p: Seq<int>, n: int)
    requires
        0 <= n,
        p.len() == n,
        p.no_duplicates(),
        forall|v: int| #[trigger] p.contains(v) <==> 0 <= v < n,
    ensures
        is_perm_seq(p, n),
{
    assert forall|i: int| 0 <= i < n implies 0 <= #[trigger] p[i] < n by {
        assert(p.contains(p[i]));
    }
    assert forall|v: int| 0 <= v < n implies #[trigger] has_val(p, v) by {
        assert(p.contains(v));
        let i = choose|i: int| 0 <= i < p.len() && p[i] == v;
        assert(p[i] == v);
    }
}

/// Unranking any ordinal in `0 .. 12!` yields a permutation of the 12 edge
/// identities, and ranking that permutation returns the same ordinal.
pub proof fn lemma_edge_perm_round_trip(n: int)
    requires
        0 <= n < 479001600,
    ensures
        is_perm_seq(unrank_ids(n, ident_ids(12)), 12),
        rank_ids(unrank_ids(n, ident_ids(12)), ident_ids(12)) == n,
{
    lemma_fact_12();
    lemma_ident_ids_props(12);
    lemma_unrank_props(n, ident_ids(12));
    assert forall|v: int| #[trigger] unrank_ids(n, ident_ids(12)).contains(v) <==> 0 <= v < 12 by {
        assert(unrank_ids(n, ident_ids(12)).contains(v) <==> ident_ids(12).contains(v));
    }
    lemma_props_to_perm(unrank_ids(n, ident_ids(12)), 12);
    lemma_rank_unrank(n, ident_ids(12));
}

/// `k` factorial, computed in 32 bits (fits for `k <= 12`).
fn fact_u32(k: u32) -> (r: u32)
    requires
        k <= 12,
    ensures
        r as int == fact(k as nat),
        r >= 1,
{
    let mut acc: u32 = 1;
    let mut j: u32 = 0;
    while j < k
        invariant
            j <= k <= 12,
            acc as int == fact(j as nat),
        decreases k - j,
    {
        proof {
            lemma_fact_mono((j + 1) as nat, 12);
            lemma_fact_12();
            lemma_fact_pos(j as nat);
            assert(fact((j + 1) as nat) == (j + 1) * fact(j as nat));
            lemma_mul_is_commutative(fact(j as nat), j as int + 1);
        }
        acc = acc * (j + 1);
        j = j + 1;
    }
    proof {
        lemma_fact_pos(k as nat);
    }
    acc
}

impl Cube {
    /// Overwrite the edge lane with the permutation of ordinal `eperm` in
    /// `0 .. 12!`, decoded in the factorial number system.  Every edge
    /// orientation is reset to 0; the corner lane is untouched.
    pub fn set_edge_perm(&mut self, eperm: Eperm)
        requires
            eperm.0 < 479001600,
        ensures
            final(self)@.corners == old(self)@.corners,
            ids_of(final(self)@.edges) == unrank_ids(eperm.0 as int, ident_ids(12)),
            forall|i: int| 0 <= i < 12 ==> byte_ori(#[trigger] final(self)@.edges[i]) == 0,
            wf_lane(final(self)@.edges, 12, 2),
    {
        let ghost n0 = eperm.0 as int;
        let ghost full = unrank_ids(n0, ident_ids(12));
        proof {
            lemma_fact_12();
            lemma_ident_ids_props(12);
            lemma_unrank_props(n0, ident_ids(12));
        }
        let mut rem: Vec<u8> = Vec::new();
        let mut k: usize = 0;
        while k < 12
            invariant
                self@ == old(self)@,
                k <= 12,
                rem@.len() == k,
                forall|i: int| 0 <= i < k ==> rem@[i] == i as u8,
            decreases 12 - k,
        {
            rem.push(k as u8);
            k = k + 1;
        }
        proof {
            assert(to_ints(rem@) =~= ident_ids(12));
        }
        let mut out: Vec<u8> = Vec::new();
        let mut cur: u32 = eperm.0;
        let mut i: usize = 0;
        while i < 12
            invariant
                self@ == old(self)@,
                i <= 12,
                out@.len() == i,
                rem@.len() == 12 - i,
                forall|j: int| 0 <= j < rem@.len() ==> rem@[j] < 12,
                forall|j: int| 0 <= j < i ==> out@[j] < 12,
                to_ints(rem@).no_duplicates(),
                (cur as int) < fact((12 - i) as nat),
                full == unrank_ids(n0, ident_ids(12)),
                to_ints(out@) + unrank_ids(cur as int, to_ints(rem@)) == full,
            decreases 12 - i,
        {
            let ghost rem0 = rem@;
            let ghost out0 = out@;
            let ghost cur0 = cur as int;
            let ghost ri = to_ints(rem0);
            let kk = 11 - i;
            let f = fact_u32(kk as u32);
            proof {
                lemma_fact_pos(kk as nat);
                assert(fact((12 - i) as nat) == (12 - i) * fact(kk as nat));
                lemma_mul_is_commutative((12 - i) as int, fact(kk as nat));
                lemma_multiply_divide_lt(cur0, fact(kk as nat), (12 - i) as int);
                lemma_div_pos_is_pos(cur0, fact(kk as nat));
                lemma_mod_division_less_than_divisor(cur0, fact(kk as nat));
            }
            let d = (cur / f) as usize;
            let v = rem[d];
            out.push(v);
            let _removed = rem.remove(d);
            cur = cur % f;
            i = i + 1;
            proof {
                lemma_remove_props(ri, d as int);
                ri.remove_ensures(d as int);
                rem0.remove_ensures(d as int);
                assert(to_ints(rem@) =~= ri.remove(d as int));
                let rest = unrank_ids(cur as int, to_ints(rem@));
                assert(unrank_ids(cur0, ri) == seq![ri[d as int]] + rest);
                assert(to_ints(out@) + rest =~= to_ints(out0) + unrank_ids(cur0, ri));
            }
        }
        proof {
            assert(cur == 0);
            assert(to_ints(out@) + unrank_ids(0, to_ints(rem@)) =~= to_ints(out@));
            assert(to_ints(out@) == full);
        }
        self.ev = EdgeLane(out);
        proof {
            assert(ids_of(self@.edges) =~= to_ints(self.ev.0@));
            lemma_props_to_perm_edges(full);
        }
    }

    /// The factorial-number-system rank of this state's edge permutation:
    /// the inverse of `set_edge_perm`, independent of orientation.
    pub fn edge_perm_rank(&self) -> (r: Eperm)
        requires
            wf_lane(self@.edges, 12, 2),
        ensures
            r.0 as int == rank_ids(ids_of(self@.edges), ident_ids(12)),
            r.0 < 479001600,
    {
        let ghost p = ids_of(self@.edges);
        let ghost rank_full = rank_ids(p, ident_ids(12));
        proof {
            lemma_fact_12();
            lemma_ident_ids_props(12);
            assert forall|j: int| 0 <= j < 12 implies ident_ids(12).contains(#[trigger] p[j]) by {
                assert(0 <= p[j] < 12);
            }
            lemma_rank_bound(p, ident_ids(12));
        }
        let mut rem: Vec<u8> = Vec::new();
        let mut k: usize = 0;
        while k < 12
            invariant
                k <= 12,
                rem@.len() == k,
                forall|i: int| 0 <= i < k ==> rem@[i] == i as u8,
            decreases 12 - k,
        {
            rem.push(k as u8);
            k = k + 1;
        }
        proof {
            assert(to_ints(rem@) =~= ident_ids(12));
            assert(p.skip(0) =~= p);
        }
        let mut acc: u32 = 0;
        let mut i: usize = 0;
        while i < 12
            invariant
                wf_lane(self@.edges, 12, 2),
                p == ids_of(self@.edges),
                rank_full == rank_ids(p, ident_ids(12)),
                0 <= rank_full < 479001600,
                i <= 12,
                rem@.len() == 12 - i,
                to_ints(rem@).no_duplicates(),
                forall|j: int| i <= j < 12 ==> to_ints(rem@).contains(#[trigger] p[j]),
                acc as int + rank_ids(p.skip(i as int), to_ints(rem@)) == rank_full,
            decreases 12 - i,
        {
            let ghost rem0 = rem@;
            let ghost ri = to_ints(rem0);
            let ghost ps = p.skip(i as int);
            let vb = self.ev.0[i] % 16;
            proof {
                assert(ri.contains(p[i as int]));
                let w = choose|w: int| 0 <= w < ri.len() && ri[w] == p[i as int];
                assert(p[i as int] == byte_id(self@.edges[i as int]));
                assert(rem0[w] == vb);
            }
            let d = find_val_pos(&rem, vb);
            let f = fact_u32((11 - i) as u32);
            proof {
                lemma_fact_12();
                lemma_fact_pos((11 - i) as nat);
                lemma_fact_mono((11 - i) as nat, 11);
                assert(ri[d as int] == vb as int);
                assert(p[i as int] == vb as int);
                let ii = idx_in(ri, p[i as int]);
                assert(0 <= ii < ri.len() && ri[ii] == p[i as int]) by {
                    assert(ri[d as int] == p[i as int]);
                }
                assert(ii == d as int);
                assert(ps.len() == 12 - i);
                assert(ps[0] == p[i as int]);
                assert(ps.drop_first() =~= p.skip(i as int + 1));
                lemma_remove_props(ri, d as int);
                assert forall|j: int|
                    0 <= j < p.skip(i as int + 1).len() implies ri.remove(d as int).contains(
                    #[trigger] p.skip(i as int + 1)[j]) by {
                    assert(p.skip(i as int + 1)[j] == p[i as int + 1 + j]);
                    assert(ri.contains(p[i as int + 1 + j]));
                    assert(p[i as int + 1 + j] != p[i as int]);
                }
                assert forall|a: int, b: int|
                    0 <= a < p.skip(i as int + 1).len() && 0 <= b < p.skip(i as int + 1).len()
                    && a != b implies #[trigger] p.skip(i as int + 1)[a]
                    != #[trigger] p.skip(i as int + 1)[b] by {
                    assert(p.skip(i as int + 1)[a] == p[i as int + 1 + a]);
                    assert(p.skip(i as int + 1)[b] == p[i as int + 1 + b]);
                }
                lemma_rank_bound(p.skip(i as int + 1), ri.remove(d as int));
                assert(rank_ids(ps, ri) == d as int * fact((11 - i) as nat)
                    + rank_ids(p.skip(i as int + 1), ri.remove(d as int)));
                lemma_mul_nonnegative(d as int, fact((11 - i) as nat));
                assert(d as int * fact((11 - i) as nat) <= 11 * fact(11)) by {
                    lemma_mul_inequality(d as int, 11, fact((11 - i) as nat));
                    lemma_mul_inequality(fact((11 - i) as nat), fact(11), 11);
                    lemma_mul_is_commutative(11, fact((11 - i) as nat));
                    lemma_mul_is_commutative(fact(11), 11);
                }
            }
            acc = acc + (d as u32) * f;
            let _removed = rem.remove(d);
            i = i + 1;
            proof {
                rem0.remove_ensures(d as int);
                ri.remove_ensures(d as int);
                assert(to_ints(rem@) =~= ri.remove(d as int));
            }
        }
        proof {
            assert(p.skip(12).len() == 0);
        }
        Eperm(acc)
    }
}

/// The decoded edge identities form a well-formed orientation-free lane.
proof fn lemma_props_to_perm_edges(full: Seq<int>)
    requires
        full.len() == 12,
        full.no_duplicates(),
        forall|v: int| #[trigger] full.contains(v) <==> ident_ids(12).contains(v),
    ensures
        is_perm_seq(full, 12),
{
    lemma_ident_ids_props(12);
    assert forall|v: int| #[trigger] full.contains(v) <==> 0 <= v < 12 by {
        assert(full.contains(v) <==> ident_ids(12).contains(v));
    }
    lemma_props_to_perm(full, 12);
}

/// The position of the byte `v` in `s`.
fn find_val_pos(s: &Vec<u8>, v: u8) -> (r: usize)
    requires
        exists|j: int| 0 <= j < s@.len() && s@[j] == v,
    ensures
        r < s@.len(),
        s@[r as int] == v,
{
    let mut j: usize = 0;
    while j < s.len()
        invariant
            j <= s@.len(),
            forall|k: int| 0 <= k < j ==> s@[k] != v,
            exists|k: int| 0 <= k < s@.len() && s@[k] == v,
        decreases s@.len() - j,
    {
        if s[j] == v {
            return j;
        }
        j = j + 1;
    }
    proof {
        assert(false);
    }
    0
}

proof fn lemma_co_round(n: int, k: int)
    requires
        0 <= n,
        1 <= k <= 8,
    ensures
        co_rank_upto(unrank_co(n), k) == n % pow3((k - 1) as nat),
    decreases k,
{
    if k == 1 {
        assert(n % 1 == 0) by {
            lemma_small_mod(0, 1);
            lemma_mod_multiples_vanish(n, 0, 1);
        }
    } else {
        lemma_co_round(n, k - 1);
        let p = pow3((k - 2) as nat);
        lemma_pow3_pos((k - 2) as nat);
        lemma_div_pos_is_pos(n, p);
        lemma_mod_division_less_than_divisor(n / p, 3);
        lemma_pack_fields(0, co_digit(n, k - 1));
        assert(byte_ori(unrank_co(n)[k - 1]) == co_digit(n, k - 1));
        lemma_breakdown(n, p, 3);
        assert(pow3((k - 1) as nat) == 3 * p);
        assert(p * ((n / p) % 3) == ((n / p) % 3) * p) by {
            lemma_mul_is_commutative(p, (n / p) % 3);
        }
    }
}

} // verus!
