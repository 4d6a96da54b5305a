//! The group laws of the cube algebra: the identity laws, the inverse laws,
//! involution of inversion, associativity, and the multiplicativity of the
//! permutation sign under composition.

use vstd::prelude::*;
use crate::model::{
    byte_id, byte_ori, pack, ids_of, wf, wf_lane, ident, ident_lane, compose_entry,
    compose_lane, compose_v, inv_pos, invert_lane, invert_v, combined_ids,
    parity_v, CubeV, lemma_pack_fields, lemma_entry_fields,
};
use crate::perms::{
    is_perm_seq, has_val, distinct_seq, compose_ids, shift_seq, inv_parity,
    lemma_compose_parity, lemma_sorted_invs_zero,
};
use vstd::arithmetic::div_mod::{lemma_small_mod, lemma_add_mod_noop};

verus! {

/// Case analysis for the small orientation moduli 2 and 3: negation mod `m`
/// cancels under addition and is itself an involution.
proof fn lemma_ori_cancel(o: int, m: int)
    requires
        0 <= o < m,
        2 <= m <= 3,
    ensures
        0 <= (m - o) % m < m,
        (o + (m - o) % m) % m == 0,
        ((m - o) % m + o) % m == 0,
        (m - (m - o) % m) % m == o,
{
    if m == 2 {
        if o == 0 {
        } else {
            assert(o == 1);
        }
    } else {
        assert(m == 3);
        if o == 0 {
        } else if o == 1 {
        } else {
            assert(o == 2);
        }
    }
}

/// Per-entry facts about an inverted lane.
proof fn lemma_invert_facts(s: Seq<u8>, n: int, m: int)
    requires
        wf_lane(s, n, m),
        0 <= n <= 16,
        2 <= m <= 3,
    ensures
        invert_lane(s, m).len() == n,
        forall|i: int|
            #![trigger invert_lane(s, m)[i]]
            #![trigger inv_pos(s, i)]
            0 <= i < n ==> 0 <= inv_pos(s, i) < n && byte_id(s[inv_pos(s, i)]) == i
                && byte_id(invert_lane(s, m)[i]) == inv_pos(s, i)
                && byte_ori(invert_lane(s, m)[i]) == (m - byte_ori(s[inv_pos(s, i)])) % m
                && 0 <= byte_ori(invert_lane(s, m)[i]) < m,
{
    assert forall|i: int|
        #![trigger invert_lane(s, m)[i]]
        #![trigger inv_pos(s, i)]
        0 <= i < n
        implies 0 <= inv_pos(s, i) < n && byte_id(s[inv_pos(s, i)]) == i
            && byte_id(invert_lane(s, m)[i]) == inv_pos(s, i)
            && byte_ori(invert_lane(s, m)[i]) == (m - byte_ori(s[inv_pos(s, i)])) % m
            && 0 <= byte_ori(invert_lane(s, m)[i]) < m by {
        assert(has_val(ids_of(s), i));
        let w = choose|w: int| 0 <= w < ids_of(s).len() && ids_of(s)[w] == i;
        assert(byte_id(s[w]) == i);
        let q = inv_pos(s, i);
        assert(0 <= q < s.len() && byte_id(s[q]) == i) by {
            assert(0 <= w < s.len() && byte_id(s[w]) == i);
        }
        lemma_entry_fields(s[q]);
        lemma_ori_cancel(byte_ori(s[q]), m);
        let ori = (m - byte_ori(s[q])) % m;
        lemma_pack_fields(q, ori);
    }
}

proof fn lemma_lane_identity(s: Seq<u8>, n: int, m: int)
    requires
        wf_lane(s, n, m),
        0 <= n <= 16,
        2 <= m <= 3,
    ensures
        compose_lane(s, ident_lane(n), m) =~= s,
        compose_lane(ident_lane(n), s, m) =~= s,
{
    assert forall|i: int| 0 <= i < n implies compose_lane(s, ident_lane(n), m)[i] == s[i] by {
        assert(ident_lane(n)[i] == i as u8);
        assert(byte_id(i as u8) == i && byte_ori(i as u8) == 0);
        lemma_entry_fields(s[i]);
        lemma_small_mod(byte_ori(s[i]) as nat, m as nat);
    }
    assert forall|i: int| 0 <= i < n implies compose_lane(ident_lane(n), s, m)[i] == s[i] by {
        assert(ids_of(s)[i] == byte_id(s[i]));
        let j = byte_id(s[i]);
        assert(0 <= j < n);
        assert(ident_lane(n)[j] == j as u8);
        assert(byte_id(j as u8) == j && byte_ori(j as u8) == 0);
        lemma_entry_fields(s[i]);
        lemma_small_mod(byte_ori(s[i]) as nat, m as nat);
    }
}

/// Composition with the identity on either side returns the state unchanged.
pub proof fn lemma_compose_identity(x: CubeV)
    requires
        wf(x),
    ensures
        compose_v(x, ident()) == x,
        compose_v(ident(), x) == x,
{
    crate::cube::lemma_ident_wf();
    lemma_lane_identity(x.edges, 12, 2);
    lemma_lane_identity(x.corners, 8, 3);
    assert(compose_v(x, ident()) =~= x);
    assert(compose_v(ident(), x) =~= x);
}

proof fn lemma_lane_inverse(s: Seq<u8>, n: int, m: int)
    requires
        wf_lane(s, n, m),
        0 <= n <= 16,
        2 <= m <= 3,
    ensures
        compose_lane(s, invert_lane(s, m), m) =~= ident_lane(n),
        compose_lane(invert_lane(s, m), s, m) =~= ident_lane(n),
{
    let z = invert_lane(s, m);
    lemma_invert_facts(s, n, m);
    assert forall|i: int|
        0 <= i < n implies compose_lane(s, z, m)[i] == ident_lane(n)[i] by {
        let q = inv_pos(s, i);
        assert(byte_id(z[i]) == q && byte_ori(z[i]) == (m - byte_ori(s[q])) % m);
        lemma_entry_fields(s[q]);
        let o = byte_ori(s[q]);
        lemma_ori_cancel(o, m);
        lemma_pack_fields(i, 0);
        assert(pack(i, 0) == i as u8);
    }
    assert forall|i: int|
        0 <= i < n implies compose_lane(z, s, m)[i] == ident_lane(n)[i] by {
        assert(ids_of(s)[i] == byte_id(s[i]));
        let j = byte_id(s[i]);
        assert(0 <= j < n);
        let q = inv_pos(s, j);
        assert(byte_id(z[j]) == q && byte_ori(z[j]) == (m - byte_ori(s[q])) % m);
        assert(ids_of(s)[q] == j && ids_of(s)[i] == j);
        assert(q == i);
        lemma_entry_fields(s[i]);
        let o = byte_ori(s[i]);
        lemma_ori_cancel(o, m);
        lemma_pack_fields(i, 0);
        assert(pack(i, 0) == i as u8);
    }
}

/// Composing a state with its inverse on either side yields the identity.
pub proof fn lemma_compose_inverse(x: CubeV)
    requires
        wf(x),
    ensures
        compose_v(x, invert_v(x)) == ident(),
        compose_v(invert_v(x), x) == ident(),
{
    lemma_lane_inverse(x.edges, 12, 2);
    lemma_lane_inverse(x.corners, 8, 3);
    assert(compose_v(x, invert_v(x)) =~= ident());
    assert(compose_v(invert_v(x), x) =~= ident());
}

proof fn lemma_lane_invert_twice(s: Seq<u8>, n: int, m: int)
    requires
        wf_lane(s, n, m),
        0 <= n <= 16,
        2 <= m <= 3,
    ensures
        invert_lane(invert_lane(s, m), m) =~= s,
{
    let z = invert_lane(s, m);
    crate::algebra::lemma_invert_lane_wf(s, n, m);
    lemma_invert_facts(s, n, m);
    lemma_invert_facts(z, n, m);
    assert forall|i: int| 0 <= i < n implies invert_lane(z, m)[i] == s[i] by {
        assert(ids_of(s)[i] == byte_id(s[i]));
        let pi = byte_id(s[i]);
        assert(0 <= pi < n);
        // z's entry at pi points back at position i
        let q = inv_pos(s, pi);
        assert(byte_id(z[pi]) == q && byte_ori(z[pi]) == (m - byte_ori(s[q])) % m);
        assert(ids_of(s)[q] == pi && ids_of(s)[i] == pi);
        assert(q == i);
        // the inverse of z at position i picks z's slot with identity i: that is pi
        let q2 = inv_pos(z, i);
        assert(byte_id(z[q2]) == i);
        assert(ids_of(z)[q2] == i && ids_of(z)[pi] == i);
        assert(q2 == pi);
        lemma_entry_fields(s[i]);
        let o = byte_ori(s[i]);
        lemma_ori_cancel(o, m);
    }
}

/// Inverting twice returns the original state.
pub proof fn lemma_invert_twice(x: CubeV)
    requires
        wf(x),
    ensures
        invert_v(invert_v(x)) == x,
{
    lemma_lane_invert_twice(x.edges, 12, 2);
    lemma_lane_invert_twice(x.corners, 8, 3);
    assert(invert_v(invert_v(x)) =~= x);
}

proof fn lemma_lane_assoc(a: Seq<u8>, b: Seq<u8>, c: Seq<u8>, n: int, m: int)
    requires
        wf_lane(a, n, m),
        wf_lane(b, n, m),
        wf_lane(c, n, m),
        0 <= n <= 16,
        2 <= m <= 3,
    ensures
        compose_lane(compose_lane(a, b, m), c, m) =~= compose_lane(a, compose_lane(b, c, m), m),
{
    let ab = compose_lane(a, b, m);
    let bc = compose_lane(b, c, m);
    assert forall|i: int|
        0 <= i < n implies compose_lane(ab, c, m)[i] == compose_lane(a, bc, m)[i] by {
        assert(ids_of(c)[i] == byte_id(c[i]));
        let j = byte_id(c[i]);
        assert(0 <= j < n);
        assert(ids_of(b)[j] == byte_id(b[j]));
        let k = byte_id(b[j]);
        assert(0 <= k < n);
        assert(ids_of(a)[k] == byte_id(a[k]));
        let oa = byte_ori(a[k]);
        let ob = byte_ori(b[j]);
        let oc = byte_ori(c[i]);
        lemma_entry_fields(a[k]);
        lemma_entry_fields(b[j]);
        lemma_entry_fields(c[i]);
        assert(ab[j] == pack(byte_id(a[k]), (oa + ob) % m));
        lemma_pack_fields(byte_id(a[k]), (oa + ob) % m);
        assert(bc[i] == pack(k, (ob + oc) % m));
        lemma_pack_fields(k, (ob + oc) % m);
        assert(((oa + ob) % m + oc) % m == (oa + ob + oc) % m) by {
            lemma_small_mod(oc as nat, m as nat);
            lemma_add_mod_noop(oa + ob, oc, m);
        }
        assert((oa + (ob + oc) % m) % m == (oa + ob + oc) % m) by {
            lemma_small_mod(oa as nat, m as nat);
            lemma_add_mod_noop(oa, ob + oc, m);
        }
    }
}

/// Composition is associative.
pub proof fn lemma_compose_assoc(x: CubeV, y: CubeV, z: CubeV)
    requires
        wf(x),
        wf(y),
        wf(z),
    ensures
        compose_v(compose_v(x, y), z) == compose_v(x, compose_v(y, z)),
{
    lemma_lane_assoc(x.edges, y.edges, z.edges, 12, 2);
    lemma_lane_assoc(x.corners, y.corners, z.corners, 8, 3);
    assert(compose_v(compose_v(x, y), z) =~= compose_v(x, compose_v(y, z)));
}

/// For a well-formed state the combined 20-slot identity sequence is a
/// permutation of `0 .. 20`, and composition of states is composition of
/// those permutations.
proof fn lemma_combined_compose(x: CubeV, y: CubeV)
    requires
        wf(x),
        wf(y),
    ensures
        combined_ids(x).len() == 20,
        is_perm_seq(combined_ids(y), 20),
        distinct_seq(combined_ids(x)),
        combined_ids(compose_v(x, y)) =~= compose_ids(combined_ids(x), combined_ids(y)),
{
    lemma_combined_perm(x);
    lemma_combined_perm(y);
    let cx = combined_ids(x);
    let cy = combined_ids(y);
    let cz = combined_ids(compose_v(x, y));
    assert forall|i: int| 0 <= i < 20 implies cz[i] == compose_ids(cx, cy)[i] by {
        if i < 12 {
            assert(ids_of(y.edges)[i] == byte_id(y.edges[i]));
            let j = byte_id(y.edges[i]);
            assert(0 <= j < 12);
            assert(cy[i] == j);
            assert(ids_of(x.edges)[j] == byte_id(x.edges[j]));
            lemma_pack_fields(
                byte_id(x.edges[j]),
                (byte_ori(x.edges[j]) + byte_ori(y.edges[i])) % 2,
            );
            assert(cz[i] == ids_of(compose_lane(x.edges, y.edges, 2))[i]);
            assert(cz[i] == byte_id(compose_entry(x.edges, y.edges, i, 2)));
            assert(cx[j] == byte_id(x.edges[j]));
        } else {
            let i2 = i - 12;
            assert(ids_of(y.corners)[i2] == byte_id(y.corners[i2]));
            let j = byte_id(y.corners[i2]);
            assert(0 <= j < 8);
            assert(cy[i] == shift_seq(ids_of(y.corners), 12)[i2]);
            assert(cy[i] == j + 12);
            assert(ids_of(x.corners)[j] == byte_id(x.corners[j]));
            lemma_pack_fields(
                byte_id(x.corners[j]),
                (byte_ori(x.corners[j]) + byte_ori(y.corners[i2])) % 3,
            );
            assert(cz[i] == shift_seq(ids_of(compose_lane(x.corners, y.corners, 3)), 12)[i2]);
            assert(cz[i] == byte_id(compose_entry(x.corners, y.corners, i2, 3)) + 12);
            assert(cx[j + 12] == byte_id(x.corners[j]) + 12);
        }
    }
}

proof fn lemma_combined_perm(x: CubeV)
    requires
        wf(x),
    ensures
        is_perm_seq(combined_ids(x), 20),
{
    let c = combined_ids(x);
    let pe = ids_of(x.edges);
    let pc = ids_of(x.corners);
    assert forall|i: int| 0 <= i < 20 implies 0 <= #[trigger] c[i] < 20 by {
        if i < 12 {
            assert(c[i] == pe[i]);
        } else {
            assert(c[i] == pc[i - 12] + 12);
        }
    }
    assert forall|i: int, j: int| 0 <= i < j < 20 implies c[i] != c[j] by {
        if j < 12 {
            assert(c[i] == pe[i] && c[j] == pe[j]);
        } else if i >= 12 {
            assert(c[i] == pc[i - 12] + 12 && c[j] == pc[j - 12] + 12);
        } else {
            assert(c[i] == pe[i] && c[j] == pc[j - 12] + 12);
            assert(pe[i] < 12);
        }
    }
    assert forall|v: int| 0 <= v < 20 implies #[trigger] has_val(c, v) by {
        if v < 12 {
            assert(has_val(pe, v));
            let w = choose|w: int| 0 <= w < pe.len() && pe[w] == v;
            assert(c[w] == v);
        } else {
            assert(has_val(pc, v - 12));
            let w = choose|w: int| 0 <= w < pc.len() && pc[w] == v - 12;
            assert(c[w + 12] == pc[w] + 12);
            assert(c[w + 12] == v);
        }
    }
}

/// The identity state is an even permutation.
pub proof fn lemma_parity_identity()
    ensures
        parity_v(ident()) == false,
{
    let c = combined_ids(ident());
    assert forall|i: int| 0 <= i < c.len() implies #[trigger] c[i] == i by {
        if i < 12 {
            assert(c[i] == byte_id(ident_lane(12)[i]));
            assert(ident_lane(12)[i] == i as u8);
        } else {
            assert(c[i] == byte_id(ident_lane(8)[i - 12]) + 12);
            assert(ident_lane(8)[i - 12] == (i - 12) as u8);
        }
    }
    assert forall|k: int| 0 <= k < c.len() - 1 implies #[trigger] c[k] <= c[k + 1] by {
        assert(c[k] == k && c[k + 1] == k + 1);
    }
    lemma_sorted_invs_zero(c);
}

/// The sign of a composed state is the product of the signs: the parity of
/// `compose(x, y)` is the exclusive or of the parities of `x` and `y`.
pub proof fn lemma_parity_compose(x: CubeV, y: CubeV)
    requires
        wf(x),
        wf(y),
    ensures
        parity_v(compose_v(x, y)) == (parity_v(x) != parity_v(y)),
{
    lemma_combined_compose(x, y);
    lemma_compose_parity(combined_ids(x), combined_ids(y));
    assert(inv_parity(combined_ids(compose_v(x, y)))
        == inv_parity(compose_ids(combined_ids(x), combined_ids(y))));
}

} // verus!


