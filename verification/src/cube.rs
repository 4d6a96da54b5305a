//! The packed cube state and its constructors and accessors.

use vstd::prelude::*;
use crate::model::{
    ids_of, wf, wf_lane, ident, ident_lane, lit_cube, pow256, u64_byte, pow2k, bit_of,
    lane_bitmask, CubeV,
};
use crate::perms::has_val;
use vstd::arithmetic::div_mod::{lemma_div_denominator, lemma_div_pos_is_pos};
use vstd::arithmetic::mul::{lemma_mul_inequality, lemma_mul_nonnegative};

verus! {

/// The 12 packed edge entries of a state.
#[derive(Clone, Debug)]
pub struct EdgeLane(pub Vec<u8>);

/// The 8 packed corner entries of a state.
#[derive(Clone, Debug)]
pub struct CornerLane(pub Vec<u8>);

/// A single packed edge entry: orientation in bit 4, identity in bits 0-3.
#[derive(Clone, Copy, Debug, PartialEq, Eq, Structural)]
pub struct Edge(pub u8);

/// A single packed corner entry: orientation in bits 4-5, identity in bits 0-2.
#[derive(Clone, Copy, Debug, PartialEq, Eq, Structural)]
pub struct Corner(pub u8);

/// A cube state: an edge lane and a corner lane of packed entries.
#[derive(Clone, Debug)]
pub struct Cube {
    pub ev: EdgeLane,
    pub cv: CornerLane,
}

impl View for Cube {
    type V = CubeV;

    open spec fn view(&self) -> CubeV {
        CubeV { edges: self.ev.0@, corners: self.cv.0@ }
    }
}

/// `pow256` is positive.
pub proof fn lemma_pow256_pos(k: nat)
    ensures
        pow256(k) >= 1,
    decreases k,
{
    if k > 0 {
        lemma_pow256_pos((k - 1) as nat);
    }
}

/// The bytes of a 64-bit literal, least significant first.
fn bytes_of_u64(x: u64) -> (r: Vec<u8>)
    ensures
        r@.len() == 8,
        forall|i: int| 0 <= i < 8 ==> r@[i] == u64_byte(x, i),
{
    let mut r: Vec<u8> = Vec::new();
    let mut y: u64 = x;
    let mut k: usize = 0;
    while k < 8
        invariant
            k <= 8,
            r@.len() == k,
            y as int == x as int / pow256(k as nat),
            forall|i: int| 0 <= i < k ==> r@[i] == u64_byte(x, i),
        decreases 8 - k,
    {
        proof {
            lemma_pow256_pos(k as nat);
            assert(pow256((k + 1) as nat) == 256 * pow256(k as nat));
            lemma_div_denominator(x as int, pow256(k as nat), 256);
            assert(y as int % 256 == u64_byte(x, k as int) as int);
        }
        r.push((y % 256) as u8);
        y = y / 256;
        k = k + 1;
    }
    r
}

impl Cube {
    /// The identity state: each slot holds its own piece, unoriented.
    pub fn identity() -> (r: Cube)
        ensures
            r@ == ident(),
            wf(r@),
    {
        let mut ev: Vec<u8> = Vec::new();
        let mut k: usize = 0;
        while k < 12
            invariant
                k <= 12,
                ev@.len() == k,
                forall|i: int| 0 <= i < k ==> ev@[i] == i as u8,
            decreases 12 - k,
        {
            ev.push(k as u8);
            k = k + 1;
        }
        let mut cv: Vec<u8> = Vec::new();
        let mut k: usize = 0;
        while k < 8
            invariant
                k <= 8,
                cv@.len() == k,
                forall|i: int| 0 <= i < k ==> cv@[i] == i as u8,
            decreases 8 - k,
        {
            cv.push(k as u8);
            k = k + 1;
        }
        let r = Cube { ev: EdgeLane(ev), cv: CornerLane(cv) };
        proof {
            assert(r@.edges =~= ident_lane(12));
            assert(r@.corners =~= ident_lane(8));
            lemma_ident_wf();
        }
        r
    }

    /// Build a state from three 64-bit lane literals: the 8 corner bytes,
    /// the 4 high edge bytes, and the 8 low edge bytes.
    pub fn new(corners: u64, edges_high: u64, edges_low: u64) -> (r: Cube)
        ensures
            r@ == lit_cube(corners, edges_high, edges_low),
    {
        let mut ev = bytes_of_u64(edges_low);
        let eh = bytes_of_u64(edges_high);
        let mut k: usize = 0;
        while k < 4
            invariant
                k <= 4,
                ev@.len() == 8 + k,
                forall|i: int| 0 <= i < 8 ==> ev@[i] == u64_byte(edges_low, i),
                forall|i: int| 8 <= i < 8 + k ==> ev@[i] == u64_byte(edges_high, i - 8),
                eh@.len() == 8,
                forall|i: int| 0 <= i < 8 ==> eh@[i] == u64_byte(edges_high, i),
            decreases 4 - k,
        {
            ev.push(eh[k]);
            k = k + 1;
        }
        let cv = bytes_of_u64(corners);
        let r = Cube { ev: EdgeLane(ev), cv: CornerLane(cv) };
        proof {
            assert(r@.edges =~= lit_cube(corners, edges_high, edges_low).edges);
            assert(r@.corners =~= lit_cube(corners, edges_high, edges_low).corners);
        }
        r
    }

    /// Read-only view of the edge lane.
    pub fn edge_lane_ref(&self) -> (r: &EdgeLane)
        ensures
            r.0@ == self@.edges,
    {
        &self.ev
    }

    /// Read-only view of the corner lane.
    pub fn corner_lane_ref(&self) -> (r: &CornerLane)
        ensures
            r.0@ == self@.corners,
    {
        &self.cv
    }

    /// The 12 edge entries, as typed records.
    pub fn edges(&self) -> (r: Vec<Edge>)
        requires
            self@.edges.len() == 12,
        ensures
            r@.len() == 12,
            forall|i: int| 0 <= i < 12 ==> (#[trigger] r@[i]).0 == self@.edges[i],
    {
        let mut r: Vec<Edge> = Vec::new();
        let mut k: usize = 0;
        while k < 12
            invariant
                k <= 12,
                self@.edges.len() == 12,
                r@.len() == k,
                forall|i: int| 0 <= i < k ==> (#[trigger] r@[i]).0 == self@.edges[i],
            decreases 12 - k,
        {
            r.push(Edge(self.ev.0[k]));
            k = k + 1;
        }
        r
    }

    /// The 8 corner entries, as typed records.
    pub fn corners(&self) -> (r: Vec<Corner>)
        requires
            self@.corners.len() == 8,
        ensures
            r@.len() == 8,
            forall|i: int| 0 <= i < 8 ==> (#[trigger] r@[i]).0 == self@.corners[i],
    {
        let mut r: Vec<Corner> = Vec::new();
        let mut k: usize = 0;
        while k < 8
            invariant
                k <= 8,
                self@.corners.len() == 8,
                r@.len() == k,
                forall|i: int| 0 <= i < k ==> (#[trigger] r@[i]).0 == self@.corners[i],
            decreases 8 - k,
        {
            r.push(Corner(self.cv.0[k]));
            k = k + 1;
        }
        r
    }
}

proof fn lemma_pow2k_pos(k: nat)
    ensures
        pow2k(k) >= 1,
    decreases k,
{
    if k > 0 {
        lemma_pow2k_pos((k - 1) as nat);
    }
}

proof fn lemma_pow2k_mono(a: nat, b: nat)
    requires
        a <= b,
    ensures
        pow2k(a) <= pow2k(b),
    decreases b,
{
    if a < b {
        lemma_pow2k_mono(a, (b - 1) as nat);
        lemma_pow2k_pos((b - 1) as nat);
    }
}

proof fn lemma_pow2k_vals()
    ensures
        pow2k(8) == 256,
        pow2k(12) == 4096,
{
    assert(pow2k(0) == 1);
    assert(pow2k(1) == 2);
    assert(pow2k(2) == 4);
    assert(pow2k(3) == 8);
    assert(pow2k(4) == 16);
    assert(pow2k(5) == 32);
    assert(pow2k(6) == 64);
    assert(pow2k(7) == 128);
    assert(pow2k(8) == 256);
    assert(pow2k(9) == 512);
    assert(pow2k(10) == 1024);
    assert(pow2k(11) == 2048);
    assert(pow2k(12) == 4096);
}

proof fn lemma_lane_bitmask_bound(s: Seq<u8>, bit: nat, k: int)
    requires
        0 <= k <= s.len(),
    ensures
        0 <= lane_bitmask(s, bit, k) <= pow2k(k as nat) - 1,
    decreases k,
{
    if k > 0 {
        lemma_lane_bitmask_bound(s, bit, k - 1);
        lemma_pow2k_pos((k - 1) as nat);
        lemma_pow2k_pos(bit);
        lemma_div_pos_is_pos(s[k - 1] as int, pow2k(bit));
        assert(0 <= bit_of(s[k - 1], bit) <= 1);
        assert(bit_of(s[k - 1], bit) * pow2k((k - 1) as nat) <= 1 * pow2k((k - 1) as nat)) by {
            lemma_mul_inequality(bit_of(s[k - 1], bit), 1, pow2k((k - 1) as nat));
        }
        lemma_mul_nonnegative(bit_of(s[k - 1], bit), pow2k((k - 1) as nat));
    }
}

/// 2 to the power `k`, computed in 32 bits.
fn pow2_u32(k: u32) -> (r: u32)
    requires
        k <= 12,
    ensures
        r as int == pow2k(k as nat),
        r >= 1,
{
    let mut r: u32 = 1;
    let mut j: u32 = 0;
    while j < k
        invariant
            j <= k <= 12,
            r as int == pow2k(j as nat),
        decreases k - j,
    {
        proof {
            lemma_pow2k_vals();
            lemma_pow2k_mono((j + 1) as nat, 12);
        }
        r = r * 2;
        j = j + 1;
    }
    proof {
        lemma_pow2k_pos(k as nat);
    }
    r
}

/// Gather bit `bit` of every entry of a lane: bit `i` of the result is bit
/// `bit` of entry `i`.
fn gather_bits(s: &Vec<u8>, bit: u8) -> (r: u32)
    requires
        bit < 8,
        s@.len() <= 12,
    ensures
        r as int == lane_bitmask(s@, bit as nat, s@.len() as int),
        r as int <= pow2k(s@.len() as nat) - 1,
{
    let p = pow2_u32(bit as u32);
    let mut r: u32 = 0;
    let mut w: u32 = 1;
    let mut i: usize = 0;
    while i < s.len()
        invariant
            bit < 8,
            s@.len() <= 12,
            p as int == pow2k(bit as nat),
            p >= 1,
            i <= s@.len(),
            w as int == pow2k(i as nat),
            r as int == lane_bitmask(s@, bit as nat, i as int),
        decreases s@.len() - i,
    {
        proof {
            lemma_pow2k_vals();
            lemma_pow2k_mono(i as nat, 12);
            lemma_pow2k_mono((i + 1) as nat, 12);
            lemma_lane_bitmask_bound(s@, bit as nat, i as int);
            lemma_lane_bitmask_bound(s@, bit as nat, i as int + 1);
            lemma_div_pos_is_pos(s@[i as int] as int, pow2k(bit as nat));
            assert(bit_of(s@[i as int], bit as nat) * (w as int) <= 1 * (w as int)) by {
                lemma_mul_inequality(bit_of(s@[i as int], bit as nat), 1, w as int);
            }
            lemma_mul_nonnegative(bit_of(s@[i as int], bit as nat), w as int);
        }
        let d = (s[i] as u32 / p) % 2;
        r = r + d * w;
        w = w * 2;
        i = i + 1;
    }
    proof {
        lemma_lane_bitmask_bound(s@, bit as nat, s@.len() as int);
    }
    r
}

impl Cube {
    /// Gather bit `bit` of every edge entry: bit `i` of the result is bit
    /// `bit` of edge slot `i` (bit 4 yields the edge-orientation mask).
    pub fn edge_bitmask(&self, bit: u8) -> (r: u32)
        requires
            bit < 8,
            self@.edges.len() == 12,
        ensures
            r as int == lane_bitmask(self@.edges, bit as nat, 12),
            r < 4096,
    {
        proof {
            lemma_pow2k_vals();
        }
        gather_bits(&self.ev.0, bit)
    }

    /// Gather bit `bit` of every corner entry: bit `i` of the result is bit
    /// `bit` of corner slot `i`.
    pub fn corner_bitmask(&self, bit: u8) -> (r: u32)
        requires
            bit < 8,
            self@.corners.len() == 8,
        ensures
            r as int == lane_bitmask(self@.corners, bit as nat, 8),
            r < 256,
    {
        proof {
            lemma_pow2k_vals();
            lemma_pow2k_mono(8, 12);
        }
        gather_bits(&self.cv.0, bit)
    }
}

/// The identity state is well-formed.
pub proof fn lemma_ident_wf()
    ensures
        wf(ident()),
{
    lemma_ident_lane_wf(12);
    lemma_ident_lane_wf(8);
}

proof fn lemma_ident_lane_wf(n: int)
    requires
        0 <= n <= 16,
    ensures
        wf_lane(ident_lane(n), n, 2),
        wf_lane(ident_lane(n), n, 3),
        ids_of(ident_lane(n)) =~= crate::perms::ident_ids(n),
{
    let s = ident_lane(n);
    let p = ids_of(s);
    assert forall|i: int| 0 <= i < n implies #[trigger] p[i] == i by {
        assert(s[i] == i as u8);
    }
    assert forall|v: int| 0 <= v < n implies #[trigger] has_val(p, v) by {
        assert(p[v] == v);
    }
}

} // verus!
