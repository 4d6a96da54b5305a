use cubalt::cube::Cube;
use cubalt::codec::unrank_corner_orient;
use cubalt::types::{Cori, Eori, Eperm};

// the identity lanes as 64-bit literals
const ID_CORNERS: u64 = 0x0706050403020100;
const ID_EDGES_HIGH: u64 = 0x0b0a0908;
const ID_EDGES_LOW: u64 = 0x0706050403020100;

fn cube_with_corner_rank(n: u32) -> Cube {
    // identity permutation carrying the unranked orientations
    let ori = unrank_corner_orient(Cori(n));
    Cube::new(ori | ID_CORNERS, ID_EDGES_HIGH, ID_EDGES_LOW)
}

#[test]
fn corner_orient_of_identity_is_zero() {
    assert_eq!(Cube::identity().corner_orient().0, 0);
    assert_eq!(Cube::identity().corner_orient_raw().0, 0);
}

#[test]
fn corner_orient_of_r_move() {
    // R twists corners 0, 3, 4, 7 by 2, 1, 1, 2: rank reads corners 1..=7
    let moves = Cube::moves();
    assert_eq!(moves[3].corner_orient().0, 9 + 27 + 2 * 729);
    assert_eq!(moves[3].corner_orient_raw().0, 2 + 64 + 256 + 2 * 16384);
}

#[test]
fn unrank_corner_orient_of_zero_is_all_zero() {
    assert_eq!(unrank_corner_orient(Cori(0)), 0);
}

#[test]
fn unrank_corner_orient_digits() {
    // ordinal 5 = 2*1 + 1*3: corner 1 twisted 2, corner 2 twisted 1,
    // corner 0 balances to 0 mod 3
    let v = unrank_corner_orient(Cori(5));
    let bytes: Vec<u8> = (0..8).map(|i| (v >> (8 * i)) as u8).collect();
    assert_eq!(bytes, vec![0, 0x20, 0x10, 0, 0, 0, 0, 0]);
}

#[test]
fn unrank_corner_orient_balances_mod_3() {
    for n in [0u32, 1, 2, 3, 500, 1093, 2186] {
        let v = unrank_corner_orient(Cori(n));
        let sum: u32 = (0..8).map(|i| ((v >> (8 * i + 4)) & 3) as u32).sum();
        assert_eq!(sum % 3, 0);
    }
}

#[test]
fn corner_orient_round_trip() {
    for n in [0u32, 1, 2, 3, 728, 729, 1000, 2185, 2186] {
        assert_eq!(cube_with_corner_rank(n).corner_orient().0, n);
    }
}

#[test]
fn set_edge_perm_of_zero_is_identity() {
    let mut c = Cube::identity();
    c.set_edge_perm(Eperm(0));
    assert_eq!(c.ev.0, vec![0, 1, 2, 3, 4, 5, 6, 7, 8, 9, 10, 11]);
}

#[test]
fn set_edge_perm_of_one_swaps_last_pair() {
    let mut c = Cube::identity();
    c.set_edge_perm(Eperm(1));
    assert_eq!(c.ev.0, vec![0, 1, 2, 3, 4, 5, 6, 7, 8, 9, 11, 10]);
}

#[test]
fn set_edge_perm_keeps_corners_and_clears_orientation() {
    let mut c = Cube::moves()[3].clone();
    let corners_before = c.cv.0.clone();
    c.set_edge_perm(Eperm(123456789));
    assert_eq!(c.cv.0, corners_before);
    for i in 0..12 {
        assert_eq!(c.ev.0[i] & 0xf0, 0);
    }
}

#[test]
fn set_edge_perm_yields_a_permutation() {
    for n in [0u32, 1, 39916800, 123456789, 479001599] {
        let mut c = Cube::identity();
        c.set_edge_perm(Eperm(n));
        let mut seen = [false; 12];
        for i in 0..12 {
            let id = (c.ev.0[i] & 0xf) as usize;
            assert!(id < 12);
            assert!(!seen[id]);
            seen[id] = true;
        }
    }
}

#[test]
fn edge_perm_round_trip() {
    for n in [0u32, 1, 2, 11, 479001599, 39916800, 362880, 123456789, 98765432] {
        let mut c = Cube::identity();
        c.set_edge_perm(Eperm(n));
        assert_eq!(c.edge_perm_rank().0, n);
    }
}

#[test]
fn edge_perm_rank_ignores_orientation() {
    let mut c = Cube::identity();
    c.set_edge_perm(Eperm(777777));
    let before = c.edge_perm_rank().0;
    c.xor_edge_orient(Eori(0xfff));
    assert_eq!(c.edge_perm_rank().0, before);
}
