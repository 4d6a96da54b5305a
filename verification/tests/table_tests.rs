use cubalt::cube::Cube;
use cubalt::algebra::{compose, compose_mirror, equals};

fn find_index(set: &Vec<Cube>, c: &Cube) -> Option<usize> {
    for (k, s) in set.iter().enumerate() {
        if equals(s, c) {
            return Some(k);
        }
    }
    None
}

// Symmetry elements at odd indices contain the left-right reflection; a
// product with such an element on the left is taken with compose_mirror,
// which subtracts the orientations instead of adding them.
fn sym_product(syms: &Vec<Cube>, i: usize, j: usize) -> Cube {
    if i % 2 == 1 {
        compose_mirror(&syms[i], &syms[j])
    } else {
        compose(&syms[i], &syms[j])
    }
}

#[test]
fn named_elements_match_the_tables() {
    let syms = Cube::sym();
    assert!(equals(&Cube::S_LR2(), &syms[1]));
    assert!(equals(&Cube::S_F2(), &syms[2]));
    assert!(equals(&Cube::S_U4(), &syms[4]));
    assert!(equals(&Cube::S_URF3(), &syms[16]));
    assert!(equals(&Cube::M_U(), &Cube::moves()[0]));
    assert!(equals(&syms[0], &Cube::identity()));
}

#[test]
fn s_urf3i_is_the_inverse_of_s_urf3() {
    // the inverse of the 3-fold rotation is its square, element 32
    let syms = Cube::sym();
    let id = Cube::identity();
    let a = Cube::S_URF3();
    let b = Cube::S_URF3i();
    assert!(equals(&b, &syms[32]));
    assert!(equals(&a.invert(), &b));
    assert!(equals(&compose(&a, &b), &id));
    assert!(equals(&compose(&b, &a), &id));
    assert_eq!(Cube::sym_inv()[16], 32);
}

#[test]
fn symmetries_are_closed_under_composition() {
    let syms = Cube::sym();
    for i in 0..48 {
        for j in 0..48 {
            let c = sym_product(&syms, i, j);
            if find_index(&syms, &c).is_none() {
                panic!("product of symmetries {} and {} left the set", i, j);
            }
        }
    }
}

#[test]
fn sym_inv_gives_the_group_inverse() {
    let syms = Cube::sym();
    let inv = Cube::sym_inv();
    let id = Cube::identity();
    assert_eq!(inv.len(), 48);
    for i in 0..48 {
        let j = inv[i] as usize;
        assert!(equals(&sym_product(&syms, i, j), &id), "symmetry {}", i);
        assert!(equals(&sym_product(&syms, j, i), &id), "symmetry {}", i);
    }
}

#[test]
fn symmetry_elements_are_distinct() {
    let syms = Cube::sym();
    for i in 0..48 {
        for j in (i + 1)..48 {
            assert!(!equals(&syms[i], &syms[j]), "{} equals {}", i, j);
        }
    }
}

#[test]
fn move_sym_6_matches_direct_conjugation() {
    // columns 0..3 conjugate each move by a power of S_URF3 (elements 0, 16
    // and 32); columns 3..6 conjugate the same way and then invert the move
    let moves = Cube::moves();
    let syms = Cube::sym();
    let inv = Cube::sym_inv();
    let tbl = Cube::move_sym_6();
    let cols: [usize; 3] = [0, 16, 32];
    for m in 0..18usize {
        for col in 0..6usize {
            let s = cols[col % 3];
            let si = inv[s] as usize;
            let conj = compose(&compose(&syms[s], &moves[m]), &syms[si]);
            let expected = &moves[tbl[m][col] as usize];
            if col < 3 {
                assert!(equals(&conj, expected), "move {} column {}", m, col);
            } else {
                assert!(equals(&conj.invert(), expected), "move {} column {}", m, col);
            }
        }
    }
}
