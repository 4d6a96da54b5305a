use cubalt::cube::Cube;
use cubalt::algebra::{compose, compose_mirror, equals, less_than};
use cubalt::types::Eori;

#[test]
fn identity_is_neutral() {
    let id = Cube::identity();
    let r = &Cube::moves()[3];
    assert!(equals(&compose(&id, &id), &id));
    assert!(equals(&compose(r, &id), r));
    assert!(equals(&compose(&id, r), r));
}

#[test]
fn identity_bytes() {
    let id = Cube::identity();
    assert_eq!(id.ev.0, vec![0, 1, 2, 3, 4, 5, 6, 7, 8, 9, 10, 11]);
    assert_eq!(id.cv.0, vec![0, 1, 2, 3, 4, 5, 6, 7]);
}

#[test]
fn u_four_times_is_identity() {
    let id = Cube::identity();
    let u = Cube::M_U();
    let mut c = Cube::identity();
    for _ in 0..4 {
        c = compose(&c, &u);
    }
    assert!(equals(&c, &id));
}

#[test]
fn u_then_u_prime_is_identity() {
    let id = Cube::identity();
    let moves = Cube::moves();
    let c = compose(&compose(&id, &moves[0]), &moves[2]);
    assert!(equals(&c, &id));
}

#[test]
fn invert_of_u_is_u_prime() {
    let moves = Cube::moves();
    assert!(equals(&moves[0].invert(), &moves[2]));
    assert!(equals(&moves[3].invert(), &moves[5]));
}

#[test]
fn compose_with_inverse_is_identity() {
    let id = Cube::identity();
    let moves = Cube::moves();
    for m in &moves {
        let mi = m.invert();
        assert!(equals(&compose(m, &mi), &id));
        assert!(equals(&compose(&mi, m), &id));
    }
}

#[test]
fn invert_twice_returns_the_state() {
    let moves = Cube::moves();
    for m in &moves {
        assert!(equals(&m.invert().invert(), m));
    }
}

#[test]
fn compose_is_associative() {
    let moves = Cube::moves();
    let (u, r, f) = (&moves[0], &moves[3], &moves[6]);
    let lhs = compose(&compose(u, r), f);
    let rhs = compose(u, &compose(r, f));
    assert!(equals(&lhs, &rhs));
}

#[test]
fn parity_of_identity_is_even() {
    assert!(!Cube::identity().parity());
}

#[test]
fn parity_of_quarter_turn_is_even() {
    // a face turn 4-cycles edges and 4-cycles corners: both odd, together even
    let moves = Cube::moves();
    assert!(!moves[0].parity());
    assert!(!moves[3].parity());
}

#[test]
fn parity_of_one_transposition_is_odd() {
    // swap the last two edges: an odd permutation
    let mut c = Cube::identity();
    c.ev.0[10] = 11;
    c.ev.0[11] = 10;
    assert!(c.parity());
}

#[test]
fn parity_is_multiplicative() {
    let moves = Cube::moves();
    let mut c = Cube::identity();
    c.ev.0[10] = 11;
    c.ev.0[11] = 10;
    let d = compose(&c, &moves[0]);
    assert_eq!(d.parity(), c.parity() ^ moves[0].parity());
}

#[test]
fn xor_edge_orient_flips_selected_slots() {
    let mut c = Cube::identity();
    c.xor_edge_orient(Eori(0b101));
    assert_eq!(c.ev.0[0], 0x10);
    assert_eq!(c.ev.0[1], 0x01);
    assert_eq!(c.ev.0[2], 0x12);
    assert_eq!(c.ev.0[3], 0x03);
    c.xor_edge_orient(Eori(0b101));
    assert!(equals(&c, &Cube::identity()));
}

#[test]
fn compose_mirror_negates_corner_orientations() {
    // mirror-composing the identity with R negates R's corner twists
    let id = Cube::identity();
    let moves = Cube::moves();
    let got = compose_mirror(&id, &moves[3]);
    let expected = Cube::new(0x1306052720020114, 0x000a0904, 0x0706050b03020108);
    assert!(equals(&got, &expected));
}

#[test]
fn less_than_is_irreflexive() {
    let id = Cube::identity();
    assert!(!less_than(&id, &id));
    let r = &Cube::moves()[3];
    assert!(!less_than(r, r));
}

#[test]
fn less_than_compares_the_highest_unequal_entry() {
    let id = Cube::identity();
    // swapping the two highest edges lowers the entry at slot 11
    let mut a = Cube::identity();
    a.ev.0[10] = 11;
    a.ev.0[11] = 10;
    assert!(less_than(&a, &id));
    assert!(!less_than(&id, &a));
}

#[test]
fn less_than_ranks_corners_above_edges() {
    // a larger corner entry outweighs smaller edge entries
    let id = Cube::identity();
    let mut a = Cube::identity();
    a.ev.0[10] = 11;
    a.ev.0[11] = 10;
    a.cv.0[7] = 0x17;
    assert!(less_than(&id, &a));
    assert!(!less_than(&a, &id));
}

#[test]
fn bitmasks_gather_one_bit_per_slot() {
    let id = Cube::identity();
    // bit 0 of the identity's slot indices: the odd slots
    assert_eq!(id.edge_bitmask(0), 0b1010_1010_1010);
    assert_eq!(id.corner_bitmask(0), 0b1010_1010);
    // no orientation bits are set on the identity
    assert_eq!(id.edge_bitmask(4), 0);
    assert_eq!(id.corner_bitmask(4), 0);
    assert_eq!(id.corner_bitmask(5), 0);
}

#[test]
fn edge_bitmask_reads_the_orientation_bit() {
    let mut c = Cube::identity();
    c.xor_edge_orient(Eori(0b1010));
    assert_eq!(c.edge_bitmask(4), 0b1010);
}

#[test]
fn corner_bitmask_reads_the_orientation_bits() {
    // R twists corners 0, 3, 4, 7 by 2, 1, 1, 2
    let r = &Cube::moves()[3];
    assert_eq!(r.corner_bitmask(4), 0b0001_1000);
    assert_eq!(r.corner_bitmask(5), 0b1000_0001);
}

#[test]
fn lane_accessors_expose_the_packed_bytes() {
    let r = &Cube::moves()[3];
    assert_eq!(r.edge_lane_ref().0, r.ev.0);
    assert_eq!(r.corner_lane_ref().0, r.cv.0);
    let edges = r.edges();
    let corners = r.corners();
    assert_eq!(edges.len(), 12);
    assert_eq!(corners.len(), 8);
    for i in 0..12 {
        assert_eq!(edges[i].0, r.ev.0[i]);
    }
    for i in 0..8 {
        assert_eq!(corners[i].0, r.cv.0[i]);
    }
}
