//! Static move and symmetry tables: the 18 face-turn generators, the
//! 48-element whole-cube symmetry group, its inverse table, and the map of
//! each move under the 6-element symmetry subgroup used to fold move tables.

use vstd::prelude::*;
use crate::cube::Cube;
use crate::model::{
    lit_cube, CubeV, wf, byte_id, byte_ori, lemma_lane_wf_from_fields, lemma_pow256_vals,
};

verus! {

/// The three lane literals of move `k` of the move table
/// (U, U2, U', R, R2, R', F, F2, F', D, D2, D', L, L2, L', B, B2, B').
pub open spec fn move_lit(k: int) -> CubeV {
    if k == 0 { lit_cube(0x0706050402010003, 0x0b0a0908, 0x0706050402010003) }
    else if k == 1 { lit_cube(0x0706050401000302, 0x0b0a0908, 0x0706050401000302) }
    else if k == 2 { lit_cube(0x0706050400030201, 0x0b0a0908, 0x0706050400030201) }
    else if k == 3 { lit_cube(0x2306051710020124, 0x000a0904, 0x0706050b03020108) }
    else if k == 4 { lit_cube(0x0006050304020107, 0x080a090b, 0x0706050003020104) }
    else if k == 5 { lit_cube(0x2406051017020123, 0x040a0900, 0x070605080302010b) }
    else if k == 6 { lit_cube(0x0706142003022511, 0x0b0a1511, 0x0706180403021900) }
    else if k == 7 { lit_cube(0x0706000103020405, 0x0b0a0809, 0x0706010403020500) }
    else if k == 8 { lit_cube(0x0706112503022014, 0x0b0a1115, 0x0706190403021800) }
    else if k == 9 { lit_cube(0x0407060503020100, 0x0b0a0908, 0x0407060503020100) }
    else if k == 10 { lit_cube(0x0504070603020100, 0x0b0a0908, 0x0504070603020100) }
    else if k == 11 { lit_cube(0x0605040703020100, 0x0b0a0908, 0x0605040703020100) }
    else if k == 12 { lit_cube(0x0715210403261200, 0x0b060208, 0x07090504030a0100) }
    else if k == 13 { lit_cube(0x0701020403050600, 0x0b090a08, 0x0702050403060100) }
    else if k == 14 { lit_cube(0x0712260403211500, 0x0b020608, 0x070a050403090100) }
    else if k == 15 { lit_cube(0x1622050427130100, 0x17130908, 0x1a0605041b020100) }
    else if k == 16 { lit_cube(0x0203050406070100, 0x0a0b0908, 0x0306050407020100) }
    else { lit_cube(0x1327050422160100, 0x13170908, 0x1b0605041a020100) }
}

/// The three lane literals of symmetry element `k`: the product
/// `S_URF3^a * S_U4^b * S_F2^c * S_LR2^d` at index `16 a + 4 b + 2 c + d`.
pub open spec fn sym_lit(k: int) -> CubeV {
    if k == 0 { lit_cube(0x0706050403020100, 0x0b0a0908, 0x0706050403020100) }
    else if k == 1 { lit_cube(0x0607040502030001, 0x0a0b0809, 0x0704050603000102) }
    else if k == 2 { lit_cube(0x0203000106070405, 0x0a0b0809, 0x0300010207040506) }
    else if k == 3 { lit_cube(0x0302010007060504, 0x0b0a0908, 0x0302010007060504) }
    else if k == 4 { lit_cube(0x0605040702010003, 0x1a19181b, 0x0605040702010003) }
    else if k == 5 { lit_cube(0x0506070401020300, 0x191a1b18, 0x0607040502030001) }
    else if k == 6 { lit_cube(0x0102030005060704, 0x191a1b18, 0x0203000106070405) }
    else if k == 7 { lit_cube(0x0201000306050407, 0x1a19181b, 0x0201000306050407) }
    else if k == 8 { lit_cube(0x0504070601000302, 0x09080b0a, 0x0504070601000302) }
    else if k == 9 { lit_cube(0x0405060700010203, 0x08090a0b, 0x0506070401020300) }
    else if k == 10 { lit_cube(0x0001020304050607, 0x08090a0b, 0x0102030005060704) }
    else if k == 11 { lit_cube(0x0100030205040706, 0x09080b0a, 0x0100030205040706) }
    else if k == 12 { lit_cube(0x0407060500030201, 0x181b1a19, 0x0407060500030201) }
    else if k == 13 { lit_cube(0x0704050603000102, 0x1b18191a, 0x0405060700010203) }
    else if k == 14 { lit_cube(0x0300010207040506, 0x1b18191a, 0x0001020304050607) }
    else if k == 15 { lit_cube(0x0003020104070605, 0x181b1a19, 0x0003020104070605) }
    else if k == 16 { lit_cube(0x1226172321152410, 0x12161410, 0x0a170b1309150811) }
    else if k == 17 { lit_cube(0x2612231715211024, 0x16121014, 0x0a130b1709110815) }
    else if k == 18 { lit_cube(0x1521102426122317, 0x16121014, 0x091108150a130b17) }
    else if k == 19 { lit_cube(0x2115241012261723, 0x12161410, 0x091508110a170b13) }
    else if k == 20 { lit_cube(0x2617231215241021, 0x06040002, 0x170b130a15081109) }
    else if k == 21 { lit_cube(0x1726122324152110, 0x04060200, 0x170a130b15091108) }
    else if k == 22 { lit_cube(0x2415211017261223, 0x04060200, 0x15091108170a130b) }
    else if k == 23 { lit_cube(0x1524102126172312, 0x06040002, 0x15081109170b130a) }
    else if k == 24 { lit_cube(0x1723122624102115, 0x14101216, 0x0b130a1708110915) }
    else if k == 25 { lit_cube(0x2317261210241521, 0x10141612, 0x0b170a1308150911) }
    else if k == 26 { lit_cube(0x1024152123172612, 0x10141612, 0x081509110b170a13) }
    else if k == 27 { lit_cube(0x2410211517231226, 0x14101216, 0x081109150b130a17) }
    else if k == 28 { lit_cube(0x2312261710211524, 0x00020604, 0x130a170b11091508) }
    else if k == 29 { lit_cube(0x1223172621102415, 0x02000406, 0x130b170a11081509) }
    else if k == 30 { lit_cube(0x2110241512231726, 0x02000406, 0x11081509130b170a) }
    else if k == 31 { lit_cube(0x1021152423122617, 0x00020604, 0x11091508130a170b) }
    else if k == 32 { lit_cube(0x2516221114271320, 0x05070301, 0x161a1219141b1018) }
    else if k == 33 { lit_cube(0x1625112227142013, 0x07050103, 0x1619121a1418101b) }
    else if k == 34 { lit_cube(0x2714201316251122, 0x07050103, 0x1418101b1619121a) }
    else if k == 35 { lit_cube(0x1427132025162211, 0x05070301, 0x141b1018161a1219) }
    else if k == 36 { lit_cube(0x1622112527132014, 0x17131115, 0x1a1219161b101814) }
    else if k == 37 { lit_cube(0x2216251113271420, 0x13171511, 0x1a1619121b141810) }
    else if k == 38 { lit_cube(0x1327142022162511, 0x13171511, 0x1b1418101a161912) }
    else if k == 39 { lit_cube(0x2713201416221125, 0x17131115, 0x1b1018141a121916) }
    else if k == 40 { lit_cube(0x2211251613201427, 0x03010507, 0x1219161a1018141b) }
    else if k == 41 { lit_cube(0x1122162520132714, 0x01030705, 0x121a1619101b1418) }
    else if k == 42 { lit_cube(0x2013271411221625, 0x01030705, 0x101b1418121a1619) }
    else if k == 43 { lit_cube(0x1320142722112516, 0x03010507, 0x1018141b1219161a) }
    else if k == 44 { lit_cube(0x1125162220142713, 0x11151713, 0x19161a1218141b10) }
    else if k == 45 { lit_cube(0x2511221614201327, 0x15111317, 0x19121a1618101b14) }
    else if k == 46 { lit_cube(0x1420132725112216, 0x15111317, 0x18101b1419121a16) }
    else { lit_cube(0x2014271311251622, 0x11151713, 0x18141b1019161a12) }
}

/// The index of each symmetry element's group inverse.
pub open spec fn sym_inv_lit() -> Seq<u8> {
    seq![
        0u8, 1, 2, 3, 12, 5, 6, 15, 8, 9, 10, 11, 4, 13, 14, 7, 32, 35, 42, 41, 20, 21, 28, 29,
        34, 33, 40, 43, 22, 23, 30, 31, 16, 25, 24, 17, 38, 37, 36, 39, 26, 19, 18, 27, 44, 47,
        46, 45,
    ]
}

/// Row `m` of the move-under-symmetry table.  Columns 0..3 hold the image
/// of move `m` conjugated by `S_URF3^k`; columns 3..6 hold the inverse of
/// that conjugated move; the last two columns are unused padding.
pub open spec fn move_sym_lit(m: int) -> Seq<u8> {
    if m == 0 { seq![0u8, 6, 3, 2, 8, 5, 0, 0] }
    else if m == 1 { seq![1u8, 7, 4, 1, 7, 4, 0, 0] }
    else if m == 2 { seq![2u8, 8, 5, 0, 6, 3, 0, 0] }
    else if m == 3 { seq![3u8, 0, 6, 5, 2, 8, 0, 0] }
    else if m == 4 { seq![4u8, 1, 7, 4, 1, 7, 0, 0] }
    else if m == 5 { seq![5u8, 2, 8, 3, 0, 6, 0, 0] }
    else if m == 6 { seq![6u8, 3, 0, 8, 5, 2, 0, 0] }
    else if m == 7 { seq![7u8, 4, 1, 7, 4, 1, 0, 0] }
    else if m == 8 { seq![8u8, 5, 2, 6, 3, 0, 0, 0] }
    else if m == 9 { seq![9u8, 15, 12, 11, 17, 14, 0, 0] }
    else if m == 10 { seq![10u8, 16, 13, 10, 16, 13, 0, 0] }
    else if m == 11 { seq![11u8, 17, 14, 9, 15, 12, 0, 0] }
    else if m == 12 { seq![12u8, 9, 15, 14, 11, 17, 0, 0] }
    else if m == 13 { seq![13u8, 10, 16, 13, 10, 16, 0, 0] }
    else if m == 14 { seq![14u8, 11, 17, 12, 9, 15, 0, 0] }
    else if m == 15 { seq![15u8, 12, 9, 17, 14, 11, 0, 0] }
    else if m == 16 { seq![16u8, 13, 10, 16, 13, 10, 0, 0] }
    else { seq![17u8, 14, 11, 15, 12, 9, 0, 0] }
}

/// True iff no entry below position `j` has identity field `v`.
spec fn id_absent(s: Seq<u8>, j: int, v: int) -> bool
    decreases j,
{
    if j <= 0 {
        true
    } else {
        byte_id(s[j - 1]) != v && id_absent(s, j - 1, v)
    }
}

/// Entry-by-entry well-formedness of the first `j` entries of a lane of `n`
/// slots: identities in range and pairwise distinct, orientations below `m`.
/// Written as a recursion so that it evaluates outright on a concrete lane.
spec fn lane_ok(s: Seq<u8>, j: int, n: int, m: int) -> bool
    decreases j,
{
    if j <= 0 {
        true
    } else {
        lane_ok(s, j - 1, n, m) && 0 <= byte_id(s[j - 1]) < n && byte_ori(s[j - 1]) < m
            && id_absent(s, j - 1, byte_id(s[j - 1]))
    }
}

proof fn lemma_id_absent(s: Seq<u8>, j: int, v: int)
    requires
        id_absent(s, j, v),
    ensures
        forall|i: int| 0 <= i < j ==> byte_id(#[trigger] s[i]) != v,
    decreases j,
{
    if j > 0 {
        lemma_id_absent(s, j - 1, v);
    }
}

proof fn lemma_lane_ok(s: Seq<u8>, j: int, n: int, m: int)
    requires
        0 <= j,
        lane_ok(s, j, n, m),
    ensures
        forall|i: int| 0 <= i < j ==> byte_ori(#[trigger] s[i]) < m && 0 <= byte_id(s[i]) < n,
        forall|i1: int, i2: int| 0 <= i1 < i2 < j ==> byte_id(s[i1]) != byte_id(s[i2]),
    decreases j,
{
    if j > 0 {
        lemma_lane_ok(s, j - 1, n, m);
        lemma_id_absent(s, j - 1, byte_id(s[j - 1]));
    }
}

/// A state whose two lanes pass the entry-by-entry check is well-formed.
proof fn lemma_state_wf(c: CubeV)
    requires
        c.edges.len() == 12,
        c.corners.len() == 8,
        lane_ok(c.edges, 12, 12, 2),
        lane_ok(c.corners, 8, 8, 3),
    ensures
        wf(c),
{
    lemma_lane_ok(c.edges, 12, 12, 2);
    lemma_lane_ok(c.corners, 8, 8, 3);
    lemma_lane_wf_from_fields(c.edges, 12, 2);
    lemma_lane_wf_from_fields(c.corners, 8, 3);
}

/// Every move generator is a well-formed state.
#[verifier::rlimit(100)]
#[verifier::spinoff_prover]
pub proof fn lemma_move_lit_wf(k: int)
    requires
        0 <= k < 18,
    ensures
        wf(move_lit(k)),
{
    lemma_pow256_vals();
    reveal_with_fuel(lane_ok, 13);
    reveal_with_fuel(id_absent, 13);
    if k == 0 {
        lemma_state_wf(move_lit(0));
    } else if k == 1 {
        lemma_state_wf(move_lit(1));
    } else if k == 2 {
        lemma_state_wf(move_lit(2));
    } else if k == 3 {
        lemma_state_wf(move_lit(3));
    } else if k == 4 {
        lemma_state_wf(move_lit(4));
    } else if k == 5 {
        lemma_state_wf(move_lit(5));
    } else if k == 6 {
        lemma_state_wf(move_lit(6));
    } else if k == 7 {
        lemma_state_wf(move_lit(7));
    } else if k == 8 {
        lemma_state_wf(move_lit(8));
    } else if k == 9 {
        lemma_state_wf(move_lit(9));
    } else if k == 10 {
        lemma_state_wf(move_lit(10));
    } else if k == 11 {
        lemma_state_wf(move_lit(11));
    } else if k == 12 {
        lemma_state_wf(move_lit(12));
    } else if k == 13 {
        lemma_state_wf(move_lit(13));
    } else if k == 14 {
        lemma_state_wf(move_lit(14));
    } else if k == 15 {
        lemma_state_wf(move_lit(15));
    } else if k == 16 {
        lemma_state_wf(move_lit(16));
    } else {
        lemma_state_wf(move_lit(17));
    }
}

#[verifier::rlimit(100)]
#[verifier::spinoff_prover]
proof fn lemma_sym_lit_wf_a(k: int)
    requires
        0 <= k < 12,
    ensures
        wf(sym_lit(k)),
{
    lemma_pow256_vals();
    reveal_with_fuel(lane_ok, 13);
    reveal_with_fuel(id_absent, 13);
    if k == 0 {
        lemma_state_wf(sym_lit(0));
    } else if k == 1 {
        lemma_state_wf(sym_lit(1));
    } else if k == 2 {
        lemma_state_wf(sym_lit(2));
    } else if k == 3 {
        lemma_state_wf(sym_lit(3));
    } else if k == 4 {
        lemma_state_wf(sym_lit(4));
    } else if k == 5 {
        lemma_state_wf(sym_lit(5));
    } else if k == 6 {
        lemma_state_wf(sym_lit(6));
    } else if k == 7 {
        lemma_state_wf(sym_lit(7));
    } else if k == 8 {
        lemma_state_wf(sym_lit(8));
    } else if k == 9 {
        lemma_state_wf(sym_lit(9));
    } else if k == 10 {
        lemma_state_wf(sym_lit(10));
    } else {
        lemma_state_wf(sym_lit(11));
    }
}

#[verifier::rlimit(100)]
#[verifier::spinoff_prover]
proof fn lemma_sym_lit_wf_b(k: int)
    requires
        12 <= k < 24,
    ensures
        wf(sym_lit(k)),
{
    lemma_pow256_vals();
    reveal_with_fuel(lane_ok, 13);
    reveal_with_fuel(id_absent, 13);
    if k == 12 {
        lemma_state_wf(sym_lit(12));
    } else if k == 13 {
        lemma_state_wf(sym_lit(13));
    } else if k == 14 {
        lemma_state_wf(sym_lit(14));
    } else if k == 15 {
        lemma_state_wf(sym_lit(15));
    } else if k == 16 {
        lemma_state_wf(sym_lit(16));
    } else if k == 17 {
        lemma_state_wf(sym_lit(17));
    } else if k == 18 {
        lemma_state_wf(sym_lit(18));
    } else if k == 19 {
        lemma_state_wf(sym_lit(19));
    } else if k == 20 {
        lemma_state_wf(sym_lit(20));
    } else if k == 21 {
        lemma_state_wf(sym_lit(21));
    } else if k == 22 {
        lemma_state_wf(sym_lit(22));
    } else {
        lemma_state_wf(sym_lit(23));
    }
}

#[verifier::rlimit(100)]
#[verifier::spinoff_prover]
proof fn lemma_sym_lit_wf_c(k: int)
    requires
        24 <= k < 36,
    ensures
        wf(sym_lit(k)),
{
    lemma_pow256_vals();
    reveal_with_fuel(lane_ok, 13);
    reveal_with_fuel(id_absent, 13);
    if k == 24 {
        lemma_state_wf(sym_lit(24));
    } else if k == 25 {
        lemma_state_wf(sym_lit(25));
    } else if k == 26 {
        lemma_state_wf(sym_lit(26));
    } else if k == 27 {
        lemma_state_wf(sym_lit(27));
    } else if k == 28 {
        lemma_state_wf(sym_lit(28));
    } else if k == 29 {
        lemma_state_wf(sym_lit(29));
    } else if k == 30 {
        lemma_state_wf(sym_lit(30));
    } else if k == 31 {
        lemma_state_wf(sym_lit(31));
    } else if k == 32 {
        lemma_state_wf(sym_lit(32));
    } else if k == 33 {
        lemma_state_wf(sym_lit(33));
    } else if k == 34 {
        lemma_state_wf(sym_lit(34));
    } else {
        lemma_state_wf(sym_lit(35));
    }
}

#[verifier::rlimit(100)]
#[verifier::spinoff_prover]
proof fn lemma_sym_lit_wf_d(k: int)
    requires
        36 <= k < 48,
    ensures
        wf(sym_lit(k)),
{
    lemma_pow256_vals();
    reveal_with_fuel(lane_ok, 13);
    reveal_with_fuel(id_absent, 13);
    if k == 36 {
        lemma_state_wf(sym_lit(36));
    } else if k == 37 {
        lemma_state_wf(sym_lit(37));
    } else if k == 38 {
        lemma_state_wf(sym_lit(38));
    } else if k == 39 {
        lemma_state_wf(sym_lit(39));
    } else if k == 40 {
        lemma_state_wf(sym_lit(40));
    } else if k == 41 {
        lemma_state_wf(sym_lit(41));
    } else if k == 42 {
        lemma_state_wf(sym_lit(42));
    } else if k == 43 {
        lemma_state_wf(sym_lit(43));
    } else if k == 44 {
        lemma_state_wf(sym_lit(44));
    } else if k == 45 {
        lemma_state_wf(sym_lit(45));
    } else if k == 46 {
        lemma_state_wf(sym_lit(46));
    } else {
        lemma_state_wf(sym_lit(47));
    }
}

/// Every symmetry element is a well-formed state.
pub proof fn lemma_sym_lit_wf(k: int)
    requires
        0 <= k < 48,
    ensures
        wf(sym_lit(k)),
{
    if k < 12 {
        lemma_sym_lit_wf_a(k);
    } else if k < 24 {
        lemma_sym_lit_wf_b(k);
    } else if k < 36 {
        lemma_sym_lit_wf_c(k);
    } else {
        lemma_sym_lit_wf_d(k);
    }
}

impl Cube {
    /// 120-degree clockwise rotation about the URF-DBL corner axis.
    pub fn S_URF3() -> (r: Cube)
        ensures
            r@ == sym_lit(16),
            wf(r@),
    {
        proof {
            lemma_sym_lit_wf(16);
        }
        Cube::new(0x1226172321152410, 0x12161410, 0x0a170b1309150811)
    }

    /// The inverse of `S_URF3`: its square, element 32 of `sym`.
    pub fn S_URF3i() -> (r: Cube)
        ensures
            r@ == sym_lit(32),
            wf(r@),
    {
        proof {
            lemma_sym_lit_wf(32);
        }
        Cube::new(0x2516221114271320, 0x05070301, 0x161a1219141b1018)
    }

    /// 90-degree clockwise rotation about the U-D face axis.
    pub fn S_U4() -> (r: Cube)
        ensures
            r@ == sym_lit(4),
            wf(r@),
    {
        proof {
            lemma_sym_lit_wf(4);
        }
        Cube::new(0x0605040702010003, 0x1a19181b, 0x0605040702010003)
    }

    /// Reflection exchanging left and right.
    pub fn S_LR2() -> (r: Cube)
        ensures
            r@ == sym_lit(1),
            wf(r@),
    {
        proof {
            lemma_sym_lit_wf(1);
        }
        Cube::new(0x0607040502030001, 0x0a0b0809, 0x0704050603000102)
    }

    /// 180-degree rotation about the F-B face axis.
    pub fn S_F2() -> (r: Cube)
        ensures
            r@ == sym_lit(2),
            wf(r@),
    {
        proof {
            lemma_sym_lit_wf(2);
        }
        Cube::new(0x0203000106070405, 0x0a0b0809, 0x0300010207040506)
    }

    /// 90-degree clockwise twist of the U face.
    pub fn M_U() -> (r: Cube)
        ensures
            r@ == move_lit(0),
            wf(r@),
    {
        proof {
            lemma_move_lit_wf(0);
        }
        Cube::new(0x0706050402010003, 0x0b0a0908, 0x0706050402010003)
    }

    /// The 18 face-turn generators:
    /// U, U2, U', R, R2, R', F, F2, F', D, D2, D', L, L2, L', B, B2, B'.
    pub fn moves() -> (r: Vec<Cube>)
        ensures
            r@.len() == 18,
            forall|k: int| 0 <= k < 18 ==> (#[trigger] r@[k])@ == move_lit(k),
            forall|k: int| 0 <= k < 18 ==> wf((#[trigger] r@[k])@),
    {
        let r = vec![
            Cube::new(0x0706050402010003, 0x0b0a0908, 0x0706050402010003),
            Cube::new(0x0706050401000302, 0x0b0a0908, 0x0706050401000302),
            Cube::new(0x0706050400030201, 0x0b0a0908, 0x0706050400030201),
            Cube::new(0x2306051710020124, 0x000a0904, 0x0706050b03020108),
            Cube::new(0x0006050304020107, 0x080a090b, 0x0706050003020104),
            Cube::new(0x2406051017020123, 0x040a0900, 0x070605080302010b),
            Cube::new(0x0706142003022511, 0x0b0a1511, 0x0706180403021900),
            Cube::new(0x0706000103020405, 0x0b0a0809, 0x0706010403020500),
            Cube::new(0x0706112503022014, 0x0b0a1115, 0x0706190403021800),
            Cube::new(0x0407060503020100, 0x0b0a0908, 0x0407060503020100),
            Cube::new(0x0504070603020100, 0x0b0a0908, 0x0504070603020100),
            Cube::new(0x0605040703020100, 0x0b0a0908, 0x0605040703020100),
            Cube::new(0x0715210403261200, 0x0b060208, 0x07090504030a0100),
            Cube::new(0x0701020403050600, 0x0b090a08, 0x0702050403060100),
            Cube::new(0x0712260403211500, 0x0b020608, 0x070a050403090100),
            Cube::new(0x1622050427130100, 0x17130908, 0x1a0605041b020100),
            Cube::new(0x0203050406070100, 0x0a0b0908, 0x0306050407020100),
            Cube::new(0x1327050422160100, 0x13170908, 0x1b0605041a020100),
        ];
        proof {
            assert forall|k: int| 0 <= k < 18 implies wf((#[trigger] r@[k])@) by {
                lemma_move_lit_wf(k);
            }
        }
        r
    }

    /// The move-folding table: each move's image under conjugation by the
    /// powers of `S_URF3` (columns 0..3), and the inverses of those images
    /// (columns 3..6).
    pub fn move_sym_6() -> (r: Vec<Vec<u8>>)
        ensures
            r@.len() == 18,
            forall|m: int| 0 <= m < 18 ==> (#[trigger] r@[m])@ == move_sym_lit(m),
    {
        vec![
            vec![0u8, 6, 3, 2, 8, 5, 0, 0],
            vec![1u8, 7, 4, 1, 7, 4, 0, 0],
            vec![2u8, 8, 5, 0, 6, 3, 0, 0],
            vec![3u8, 0, 6, 5, 2, 8, 0, 0],
            vec![4u8, 1, 7, 4, 1, 7, 0, 0],
            vec![5u8, 2, 8, 3, 0, 6, 0, 0],
            vec![6u8, 3, 0, 8, 5, 2, 0, 0],
            vec![7u8, 4, 1, 7, 4, 1, 0, 0],
            vec![8u8, 5, 2, 6, 3, 0, 0, 0],
            vec![9u8, 15, 12, 11, 17, 14, 0, 0],
            vec![10u8, 16, 13, 10, 16, 13, 0, 0],
            vec![11u8, 17, 14, 9, 15, 12, 0, 0],
            vec![12u8, 9, 15, 14, 11, 17, 0, 0],
            vec![13u8, 10, 16, 13, 10, 16, 0, 0],
            vec![14u8, 11, 17, 12, 9, 15, 0, 0],
            vec![15u8, 12, 9, 17, 14, 11, 0, 0],
            vec![16u8, 13, 10, 16, 13, 10, 0, 0],
            vec![17u8, 14, 11, 15, 12, 9, 0, 0],
        ]
    }

    /// The 48 symmetry elements, indexed as
    /// `S_URF3^a * S_U4^b * S_F2^c * S_LR2^d` at `16 a + 4 b + 2 c + d`.
    pub fn sym() -> (r: Vec<Cube>)
        ensures
            r@.len() == 48,
            forall|k: int| 0 <= k < 48 ==> (#[trigger] r@[k])@ == sym_lit(k),
            forall|k: int| 0 <= k < 48 ==> wf((#[trigger] r@[k])@),
    {
        let r = vec![
            Cube::new(0x0706050403020100, 0x0b0a0908, 0x0706050403020100),
            Cube::new(0x0607040502030001, 0x0a0b0809, 0x0704050603000102),
            Cube::new(0x0203000106070405, 0x0a0b0809, 0x0300010207040506),
            Cube::new(0x0302010007060504, 0x0b0a0908, 0x0302010007060504),
            Cube::new(0x0605040702010003, 0x1a19181b, 0x0605040702010003),
            Cube::new(0x0506070401020300, 0x191a1b18, 0x0607040502030001),
            Cube::new(0x0102030005060704, 0x191a1b18, 0x0203000106070405),
            Cube::new(0x0201000306050407, 0x1a19181b, 0x0201000306050407),
            Cube::new(0x0504070601000302, 0x09080b0a, 0x0504070601000302),
            Cube::new(0x0405060700010203, 0x08090a0b, 0x0506070401020300),
            Cube::new(0x0001020304050607, 0x08090a0b, 0x0102030005060704),
            Cube::new(0x0100030205040706, 0x09080b0a, 0x0100030205040706),
            Cube::new(0x0407060500030201, 0x181b1a19, 0x0407060500030201),
            Cube::new(0x0704050603000102, 0x1b18191a, 0x0405060700010203),
            Cube::new(0x0300010207040506, 0x1b18191a, 0x0001020304050607),
            Cube::new(0x0003020104070605, 0x181b1a19, 0x0003020104070605),
            Cube::new(0x1226172321152410, 0x12161410, 0x0a170b1309150811),
            Cube::new(0x2612231715211024, 0x16121014, 0x0a130b1709110815),
            Cube::new(0x1521102426122317, 0x16121014, 0x091108150a130b17),
            Cube::new(0x2115241012261723, 0x12161410, 0x091508110a170b13),
            Cube::new(0x2617231215241021, 0x06040002, 0x170b130a15081109),
            Cube::new(0x1726122324152110, 0x04060200, 0x170a130b15091108),
            Cube::new(0x2415211017261223, 0x04060200, 0x15091108170a130b),
            Cube::new(0x1524102126172312, 0x06040002, 0x15081109170b130a),
            Cube::new(0x1723122624102115, 0x14101216, 0x0b130a1708110915),
            Cube::new(0x2317261210241521, 0x10141612, 0x0b170a1308150911),
            Cube::new(0x1024152123172612, 0x10141612, 0x081509110b170a13),
            Cube::new(0x2410211517231226, 0x14101216, 0x081109150b130a17),
            Cube::new(0x2312261710211524, 0x00020604, 0x130a170b11091508),
            Cube::new(0x1223172621102415, 0x02000406, 0x130b170a11081509),
            Cube::new(0x2110241512231726, 0x02000406, 0x11081509130b170a),
            Cube::new(0x1021152423122617, 0x00020604, 0x11091508130a170b),
            Cube::new(0x2516221114271320, 0x05070301, 0x161a1219141b1018),
            Cube::new(0x1625112227142013, 0x07050103, 0x1619121a1418101b),
            Cube::new(0x2714201316251122, 0x07050103, 0x1418101b1619121a),
            Cube::new(0x1427132025162211, 0x05070301, 0x141b1018161a1219),
            Cube::new(0x1622112527132014, 0x17131115, 0x1a1219161b101814),
            Cube::new(0x2216251113271420, 0x13171511, 0x1a1619121b141810),
            Cube::new(0x1327142022162511, 0x13171511, 0x1b1418101a161912),
            Cube::new(0x2713201416221125, 0x17131115, 0x1b1018141a121916),
            Cube::new(0x2211251613201427, 0x03010507, 0x1219161a1018141b),
            Cube::new(0x1122162520132714, 0x01030705, 0x121a1619101b1418),
            Cube::new(0x2013271411221625, 0x01030705, 0x101b1418121a1619),
            Cube::new(0x1320142722112516, 0x03010507, 0x1018141b1219161a),
            Cube::new(0x1125162220142713, 0x11151713, 0x19161a1218141b10),
            Cube::new(0x2511221614201327, 0x15111317, 0x19121a1618101b14),
            Cube::new(0x1420132725112216, 0x15111317, 0x18101b1419121a16),
            Cube::new(0x2014271311251622, 0x11151713, 0x18141b1019161a12),
        ];
        proof {
            assert forall|k: int| 0 <= k < 48 implies wf((#[trigger] r@[k])@) by {
                lemma_sym_lit_wf(k);
            }
        }
        r
    }

    /// The inverse-symmetry index table: `sym()[sym_inv()[i]]` is the group
    /// inverse of `sym()[i]`.
    pub fn sym_inv() -> (r: Vec<u8>)
        ensures
            r@ == sym_inv_lit(),
    {
        let r = vec![
            0u8, 1, 2, 3, 12, 5, 6, 15, 8, 9, 10, 11, 4, 13, 14, 7, 32, 35, 42, 41, 20, 21, 28,
            29, 34, 33, 40, 43, 22, 23, 30, 31, 16, 25, 24, 17, 38, 37, 36, 39, 26, 19, 18, 27,
            44, 47, 46, 45,
        ];
        proof {
            assert(r@ =~= sym_inv_lit());
        }
        r
    }
}

} // verus!

