//! The mathematical model of a packed cube state.
//!
//! Each lane entry is one byte: the low 4 bits hold the identity of the piece
//! sitting in that slot, the bits above them hold its orientation (mod 2 for
//! edges, mod 3 for corners).  A state is the pair of its edge lane
//! (12 entries) and its corner lane (8 entries).

use vstd::prelude::*;
use crate::perms::{
    is_perm_seq, inv_parity, inv_count, shift_seq, lemma_invs_concat_split, lemma_invs_shift,
    lemma_inj_is_perm,
};
use vstd::arithmetic::div_mod::{
    lemma_fundamental_div_mod, lemma_fundamental_div_mod_converse,
};

verus! {

/// Abstract value of a cube state: the packed edge and corner entry bytes.
#[verifier::ext_equal]
pub ghost struct CubeV {
    pub edges: Seq<u8>,
    pub corners: Seq<u8>,
}

/// The identity field of a packed entry (its low 4 bits).
pub open spec fn byte_id(b: u8) -> int {
    b as int % 16
}

/// The orientation field of a packed entry (the bits above the low 4).
pub open spec fn byte_ori(b: u8) -> int {
    b as int / 16
}

/// Pack an identity and an orientation into one entry byte.
pub open spec fn pack(id: int, ori: int) -> u8 {
    (id + 16 * ori) as u8
}

/// The identity fields of a whole lane.
pub open spec fn ids_of(s: Seq<u8>) -> Seq<int> {
    s.map(|i: int, b: u8| byte_id(b))
}

/// Every orientation field of the lane lies below `m`.
pub open spec fn oris_below(s: Seq<u8>, m: int) -> bool {
    forall|i: int| 0 <= i < s.len() ==> byte_ori(#[trigger] s[i]) < m
}

/// A well-formed lane of `n` entries with orientations below `m`:
/// the identity fields form a permutation of `0 .. n`.
pub open spec fn wf_lane(s: Seq<u8>, n: int, m: int) -> bool {
    &&& s.len() == n
    &&& oris_below(s, m)
    &&& is_perm_seq(ids_of(s), n)
}

/// A well-formed state: 12 edge entries mod 2, 8 corner entries mod 3.
pub open spec fn wf(c: CubeV) -> bool {
    wf_lane(c.edges, 12, 2) && wf_lane(c.corners, 8, 3)
}

/// A lane of the identity state: entry `i` holds identity `i`, orientation 0.
pub open spec fn ident_lane(n: int) -> Seq<u8> {
    Seq::new(n as nat, |i: int| i as u8)
}

/// The identity state.
pub open spec fn ident() -> CubeV {
    CubeV { edges: ident_lane(12), corners: ident_lane(8) }
}

/// One entry of a composed lane: permute `a` by `b`'s identity field and
/// add the orientations mod `m`.
pub open spec fn compose_entry(a: Seq<u8>, b: Seq<u8>, i: int, m: int) -> u8 {
    pack(
        byte_id(a[byte_id(b[i])]),
        (byte_ori(a[byte_id(b[i])]) + byte_ori(b[i])) % m,
    )
}

pub open spec fn compose_lane(a: Seq<u8>, b: Seq<u8>, m: int) -> Seq<u8> {
    Seq::new(b.len(), |i: int| compose_entry(a, b, i, m))
}

/// Group composition: apply `a`, then `b`.
pub open spec fn compose_v(a: CubeV, b: CubeV) -> CubeV {
    CubeV {
        edges: compose_lane(a.edges, b.edges, 2),
        corners: compose_lane(a.corners, b.corners, 3),
    }
}

/// One entry of a mirror-composed lane: same permutation step, but the
/// orientations are subtracted mod `m`.
pub open spec fn compose_mirror_entry(a: Seq<u8>, b: Seq<u8>, i: int, m: int) -> u8 {
    pack(
        byte_id(a[byte_id(b[i])]),
        (byte_ori(a[byte_id(b[i])]) - byte_ori(b[i])) % m,
    )
}

pub open spec fn compose_mirror_lane(a: Seq<u8>, b: Seq<u8>, m: int) -> Seq<u8> {
    Seq::new(b.len(), |i: int| compose_mirror_entry(a, b, i, m))
}

/// Composition against an orientation-reversing (mirror) element.
pub open spec fn compose_mirror_v(a: CubeV, b: CubeV) -> CubeV {
    CubeV {
        edges: compose_mirror_lane(a.edges, b.edges, 2),
        corners: compose_mirror_lane(a.corners, b.corners, 3),
    }
}

/// The position of the entry whose identity field is `v`.
pub open spec fn inv_pos(s: Seq<u8>, v: int) -> int {
    choose|j: int| 0 <= j < s.len() && byte_id(s[j]) == v
}

/// One entry of an inverted lane: the inverse permutation, carrying the
/// negated orientation of the source slot.
pub open spec fn invert_entry(s: Seq<u8>, i: int, m: int) -> u8 {
    pack(inv_pos(s, i), (m - byte_ori(s[inv_pos(s, i)])) % m)
}

pub open spec fn invert_lane(s: Seq<u8>, m: int) -> Seq<u8> {
    Seq::new(s.len(), |i: int| invert_entry(s, i, m))
}

/// The group inverse of a state.
pub open spec fn invert_v(c: CubeV) -> CubeV {
    CubeV { edges: invert_lane(c.edges, 2), corners: invert_lane(c.corners, 3) }
}

/// The combined 20-slot permutation: edge identities followed by corner
/// identities shifted past them.
pub open spec fn combined_ids(c: CubeV) -> Seq<int> {
    ids_of(c.edges) + shift_seq(ids_of(c.corners), 12)
}

/// A state's permutation sign: true iff the combined 20-slot permutation is odd.
pub open spec fn parity_v(c: CubeV) -> bool {
    inv_parity(combined_ids(c))
}

/// Reverse-lexicographic comparison of the entries below position `k`:
/// the highest unequal entry decides.
pub open spec fn rev_lt_upto(x: Seq<u8>, y: Seq<u8>, k: int) -> bool
    decreases k,
{
    if k <= 0 {
        false
    } else if x[k - 1] != y[k - 1] {
        x[k - 1] < y[k - 1]
    } else {
        rev_lt_upto(x, y, k - 1)
    }
}

/// Strict order on states: decided by the highest unequal corner entry,
/// then by the highest unequal edge entry.
pub open spec fn lt_v(a: CubeV, b: CubeV) -> bool {
    rev_lt_upto(a.edges + a.corners, b.edges + b.corners, 20)
}

/// Bit `i` of an orientation-selector word.
pub open spec fn sel_bit(e: u32, i: u32) -> bool {
    (e >> i) & 1 == 1
}

/// An entry with its orientation bit flipped (edges only: orientation mod 2).
pub open spec fn flip_ori(b: u8) -> u8 {
    pack(byte_id(b), 1 - byte_ori(b))
}

/// 2 to the power `k`.
pub open spec fn pow2k(k: nat) -> int
    decreases k,
{
    if k == 0 {
        1
    } else {
        2 * pow2k((k - 1) as nat)
    }
}

/// Bit `bit` of the byte `b`.
pub open spec fn bit_of(b: u8, bit: nat) -> int {
    (b as int / pow2k(bit)) % 2
}

/// Bit `bit` of each of the first `k` entries, gathered into one word:
/// bit `i` of the result is bit `bit` of entry `i`.
pub open spec fn lane_bitmask(s: Seq<u8>, bit: nat, k: int) -> int
    decreases k,
{
    if k <= 0 {
        0
    } else {
        lane_bitmask(s, bit, k - 1) + bit_of(s[k - 1], bit) * pow2k((k - 1) as nat)
    }
}

/// 256 to the power `k`.
pub open spec fn pow256(k: nat) -> int
    decreases k,
{
    if k == 0 {
        1
    } else {
        256 * pow256((k - 1) as nat)
    }
}

/// Byte `i` of a 64-bit literal, counting from the least significant byte.
pub open spec fn u64_byte(x: u64, i: int) -> u8 {
    ((x as int / pow256(i as nat)) % 256) as u8
}

/// The state described by the three 64-bit lane literals of a constructor
/// call: 8 corner bytes, the 4 high edge bytes, and the 8 low edge bytes.
pub open spec fn lit_cube(corners: u64, edges_high: u64, edges_low: u64) -> CubeV {
    CubeV {
        edges: Seq::new(
            12,
            |i: int|
                if i < 8 {
                    u64_byte(edges_low, i)
                } else {
                    u64_byte(edges_high, i - 8)
                },
        ),
        corners: Seq::new(8, |i: int| u64_byte(corners, i)),
    }
}

/// The first eight powers of 256, written out for byte-level evaluation of
/// concrete lane literals.
pub proof fn lemma_pow256_vals()
    ensures
        pow256(0) == 1,
        pow256(1) == 0x100,
        pow256(2) == 0x1_0000,
        pow256(3) == 0x100_0000,
        pow256(4) == 0x1_0000_0000,
        pow256(5) == 0x100_0000_0000,
        pow256(6) == 0x1_0000_0000_0000,
        pow256(7) == 0x100_0000_0000_0000,
{
    assert(pow256(0) == 1);
    assert(pow256(1) == 0x100);
    assert(pow256(2) == 0x1_0000);
    assert(pow256(3) == 0x100_0000);
    assert(pow256(4) == 0x1_0000_0000);
    assert(pow256(5) == 0x100_0000_0000);
    assert(pow256(6) == 0x1_0000_0000_0000);
    assert(pow256(7) == 0x100_0000_0000_0000);
}

/// A lane whose identity fields are in range and pairwise distinct, with
/// orientations below `m`, is well-formed.
pub proof fn lemma_lane_wf_from_fields(s: Seq<u8>, n: int, m: int)
    requires
        s.len() == n,
        forall|i: int| 0 <= i < n ==> byte_ori(#[trigger] s[i]) < m,
        forall|i: int| 0 <= i < n ==> 0 <= byte_id(#[trigger] s[i]) < n,
        forall|i: int, j: int| 0 <= i < j < n ==> byte_id(s[i]) != byte_id(s[j]),
    ensures
        wf_lane(s, n, m),
{
    let p = ids_of(s);
    assert forall|i: int| 0 <= i < n implies 0 <= #[trigger] p[i] < n by {
        assert(p[i] == byte_id(s[i]));
    }
    assert forall|i: int, j: int| 0 <= i < j < n implies p[i] != p[j] by {
        assert(p[i] == byte_id(s[i]) && p[j] == byte_id(s[j]));
    }
    lemma_inj_is_perm(p, n);
}

/// Packing then reading the fields back is the identity on in-range fields.
pub proof fn lemma_pack_fields(id: int, ori: int)
    requires
        0 <= id < 16,
        0 <= ori < 16,
    ensures
        byte_id(pack(id, ori)) == id,
        byte_ori(pack(id, ori)) == ori,
{
    assert(pack(id, ori) as int == id + 16 * ori);
    lemma_fundamental_div_mod_converse(id + 16 * ori, 16, ori, id);
}

/// For a well-formed state no cross-lane pair of the combined permutation is
/// inverted: its inversion count is the sum of the two lanes' counts.
pub proof fn lemma_combined_split(c: CubeV)
    requires
        wf(c),
    ensures
        inv_count(combined_ids(c)) == inv_count(ids_of(c.edges)) + inv_count(ids_of(c.corners)),
{
    let a = ids_of(c.edges);
    let b = shift_seq(ids_of(c.corners), 12);
    assert forall|i: int| 0 <= i < b.len() implies b[i] >= 12 by {
        assert(0 <= ids_of(c.corners)[i] < 8);
    }
    lemma_invs_concat_split(a, b, 12);
    lemma_invs_shift(ids_of(c.corners), 12);
}

/// Every entry byte is the packing of its two fields, which are in range.
pub proof fn lemma_entry_fields(b: u8)
    ensures
        0 <= byte_id(b) < 16,
        0 <= byte_ori(b) < 16,
        pack(byte_id(b), byte_ori(b)) == b,
{
    lemma_fundamental_div_mod(b as int, 16);
}

} // verus!
