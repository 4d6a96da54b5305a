//! The group algebra on cube states: composition (plain and mirror),
//! inversion, permutation parity, orientation flips, and state equality.

use vstd::prelude::*;
use crate::cube::{Cube, EdgeLane, CornerLane};
use crate::types::Eori;
use crate::model::{
    byte_id, byte_ori, ids_of, wf, wf_lane, sel_bit, flip_ori,
    compose_entry, compose_lane, compose_mirror_entry, compose_mirror_lane,
    compose_v, compose_mirror_v, inv_pos, invert_entry, invert_lane, invert_v,
    parity_v, lt_v, rev_lt_upto,
    lemma_pack_fields, lemma_entry_fields, lemma_combined_split,
};
use crate::perms::{
    has_val, cnt_gt_upto, invs_upto, inv_count,
    lemma_cnt_le, lemma_invs_le,
};
use vstd::arithmetic::div_mod::lemma_mod_add_multiples_vanish;

verus! {

/// Both composition variants on one lane: permute `a`'s entries by `b`'s
/// identity fields, then add (or, mirrored, subtract) the orientations mod `m`.
fn compose_lane_exec(a: &Vec<u8>, b: &Vec<u8>, m: u8, mirror: bool) -> (r: Vec<u8>)
    requires
        m == 2 || m == 3,
        forall|i: int| 0 <= i < b@.len() ==> 0 <= byte_id(#[trigger] b@[i]) < a@.len(),
        forall|i: int| 0 <= i < a@.len() ==> byte_ori(#[trigger] a@[i]) < m,
        forall|i: int| 0 <= i < b@.len() ==> byte_ori(#[trigger] b@[i]) < m,
    ensures
        r@ == if mirror {
            compose_mirror_lane(a@, b@, m as int)
        } else {
            compose_lane(a@, b@, m as int)
        },
{
    let mut r: Vec<u8> = Vec::new();
    let mut i: usize = 0;
    while i < b.len()
        invariant
            m == 2 || m == 3,
            forall|k: int| 0 <= k < b@.len() ==> 0 <= byte_id(#[trigger] b@[k]) < a@.len(),
            forall|k: int| 0 <= k < a@.len() ==> byte_ori(#[trigger] a@[k]) < m,
            forall|k: int| 0 <= k < b@.len() ==> byte_ori(#[trigger] b@[k]) < m,
            i <= b@.len(),
            r@.len() == i,
            forall|k: int| 0 <= k < i ==> r@[k] == (if mirror {
                compose_mirror_entry(a@, b@, k, m as int)
            } else {
                compose_entry(a@, b@, k, m as int)
            }),
        decreases b@.len() - i,
    {
        let bi = b[i];
        let e = a[(bi % 16) as usize];
        let id = e % 16;
        let oa = e / 16;
        let ob = bi / 16;
        let ori = if mirror {
            (oa + m - ob) % m
        } else {
            (oa + ob) % m
        };
        proof {
            if mirror {
                lemma_mod_add_multiples_vanish(byte_ori(e) - byte_ori(bi), m as int);
            }
        }
        r.push(id + 16 * ori);
        i = i + 1;
    }
    proof {
        if mirror {
            assert(r@ =~= compose_mirror_lane(a@, b@, m as int));
        } else {
            assert(r@ =~= compose_lane(a@, b@, m as int));
        }
    }
    r
}

/// The identity fields of a well-formed lane lie below the lane length.
proof fn lemma_wf_lane_bounds(s: Seq<u8>, n: int, m: int)
    requires
        wf_lane(s, n, m),
    ensures
        forall|i: int| 0 <= i < n ==> 0 <= byte_id(#[trigger] s[i]) < n,
{
    assert forall|i: int| 0 <= i < n implies 0 <= byte_id(#[trigger] s[i]) < n by {
        assert(ids_of(s)[i] == byte_id(s[i]));
    }
}

/// A composed lane of a well-formed pair is well-formed: the identity fields
/// of the result are the composition of the two permutations.
proof fn lemma_compose_lane_wf(a: Seq<u8>, b: Seq<u8>, n: int, m: int, mirror: bool)
    requires
        wf_lane(a, n, m),
        wf_lane(b, n, m),
        0 <= n <= 16,
        2 <= m <= 3,
    ensures
        wf_lane(if mirror { compose_mirror_lane(a, b, m) } else { compose_lane(a, b, m) }, n, m),
{
    let r = if mirror { compose_mirror_lane(a, b, m) } else { compose_lane(a, b, m) };
    let pa = ids_of(a);
    let pb = ids_of(b);
    let pr = ids_of(r);
    assert forall|i: int| 0 <= i < n implies #[trigger] pr[i] == pa[pb[i]] && byte_ori(r[i]) < m by {
        assert(0 <= pb[i] < n);
        let id = byte_id(a[byte_id(b[i])]);
        let ori = if mirror {
            (byte_ori(a[byte_id(b[i])]) - byte_ori(b[i])) % m
        } else {
            (byte_ori(a[byte_id(b[i])]) + byte_ori(b[i])) % m
        };
        assert(0 <= id < 16);
        assert(0 <= ori < m);
        lemma_pack_fields(id, ori);
    }
    assert forall|i: int, j: int| 0 <= i < j < n implies pr[i] != pr[j] by {
        assert(pb[i] != pb[j]);
    }
    assert forall|v: int| 0 <= v < n implies #[trigger] has_val(pr, v) by {
        assert(has_val(pa, v));
        let k = choose|k: int| 0 <= k < pa.len() && pa[k] == v;
        assert(has_val(pb, k));
        let i = choose|i: int| 0 <= i < pb.len() && pb[i] == k;
        assert(pr[i] == v);
    }
}

/// Compose two states: the result of applying `a`, then `b`.
pub fn compose(a: &Cube, b: &Cube) -> (r: Cube)
    requires
        wf(a@),
        wf(b@),
    ensures
        r@ == compose_v(a@, b@),
        wf(r@),
{
    proof {
        lemma_wf_lane_bounds(b@.edges, 12, 2);
        lemma_wf_lane_bounds(b@.corners, 8, 3);
    }
    let ev = compose_lane_exec(&a.ev.0, &b.ev.0, 2, false);
    let cv = compose_lane_exec(&a.cv.0, &b.cv.0, 3, false);
    proof {
        lemma_compose_lane_wf(a@.edges, b@.edges, 12, 2, false);
        lemma_compose_lane_wf(a@.corners, b@.corners, 8, 3, false);
    }
    Cube { ev: EdgeLane(ev), cv: CornerLane(cv) }
}

/// Compose against an orientation-reversing (mirror) element: the same
/// permutation step, with the orientations subtracted.
pub fn compose_mirror(a: &Cube, b: &Cube) -> (r: Cube)
    requires
        wf(a@),
        wf(b@),
    ensures
        r@ == compose_mirror_v(a@, b@),
        wf(r@),
{
    proof {
        lemma_wf_lane_bounds(b@.edges, 12, 2);
        lemma_wf_lane_bounds(b@.corners, 8, 3);
    }
    let ev = compose_lane_exec(&a.ev.0, &b.ev.0, 2, true);
    let cv = compose_lane_exec(&a.cv.0, &b.cv.0, 3, true);
    proof {
        lemma_compose_lane_wf(a@.edges, b@.edges, 12, 2, true);
        lemma_compose_lane_wf(a@.corners, b@.corners, 8, 3, true);
    }
    Cube { ev: EdgeLane(ev), cv: CornerLane(cv) }
}

/// The position of the entry of `s` whose identity field is `v`.
fn find_id_pos(s: &Vec<u8>, v: u8) -> (r: usize)
    requires
        exists|j: int| 0 <= j < s@.len() && byte_id(#[trigger] s@[j]) == v as int,
    ensures
        r < s@.len(),
        byte_id(s@[r as int]) == v as int,
{
    let mut j: usize = 0;
    while j < s.len()
        invariant
            j <= s@.len(),
            forall|k: int| 0 <= k < j ==> byte_id(#[trigger] s@[k]) != v as int,
            exists|k: int| 0 <= k < s@.len() && byte_id(#[trigger] s@[k]) == v as int,
        decreases s@.len() - j,
    {
        if s[j] % 16 == v {
            return j;
        }
        j = j + 1;
    }
    proof {
        assert(false);
    }
    0
}

/// Invert one lane: brute-force search for each identity's source slot,
/// negate its orientation mod `m`, and attach it at the destination.
fn invert_lane_exec(s: &Vec<u8>, m: u8) -> (r: Vec<u8>)
    requires
        m == 2 || m == 3,
        wf_lane(s@, s@.len() as int, m as int),
        s@.len() <= 16,
    ensures
        r@ == invert_lane(s@, m as int),
{
    let n = s.len();
    let mut r: Vec<u8> = Vec::new();
    let mut i: usize = 0;
    while i < n
        invariant
            m == 2 || m == 3,
            wf_lane(s@, s@.len() as int, m as int),
            n == s@.len() <= 16,
            i <= n,
            r@.len() == i,
            forall|k: int| 0 <= k < i ==> r@[k] == invert_entry(s@, k, m as int),
        decreases n - i,
    {
        proof {
            let p = ids_of(s@);
            assert(has_val(p, i as int));
            let w = choose|w: int| 0 <= w < p.len() && p[w] == i as int;
            assert(byte_id(s@[w]) == i as int);
        }
        let j = find_id_pos(s, i as u8);
        let ori = s[j] / 16;
        let nb = (j as u8) + 16 * ((m - ori) % m);
        proof {
            let q = inv_pos(s@, i as int);
            assert(0 <= q < s@.len() && byte_id(s@[q]) == i as int) by {
                assert(0 <= j < s@.len() && byte_id(s@[j as int]) == i as int);
            }
            let p = ids_of(s@);
            assert(p[q] == i as int && p[j as int] == i as int);
            assert(j as int == q);
            assert(nb == invert_entry(s@, i as int, m as int));
        }
        r.push(nb);
        i = i + 1;
    }
    proof {
        assert(r@ =~= invert_lane(s@, m as int));
    }
    r
}

/// An inverted lane of a well-formed lane is well-formed, and its identity
/// fields are the inverse permutation.
pub proof fn lemma_invert_lane_wf(s: Seq<u8>, n: int, m: int)
    requires
        wf_lane(s, n, m),
        0 <= n <= 16,
        2 <= m <= 3,
    ensures
        wf_lane(invert_lane(s, m), n, m),
{
    let r = invert_lane(s, m);
    let p = ids_of(s);
    let pr = ids_of(r);
    assert forall|i: int|
        #![trigger pr[i]]
        #![trigger r[i]]
        0 <= i < n implies 0 <= pr[i] < n && byte_id(s[pr[i]]) == i && byte_ori(r[i]) < m by {
        assert(has_val(p, i));
        let w = choose|w: int| 0 <= w < p.len() && p[w] == i;
        let q = inv_pos(s, i);
        assert(0 <= q < n && byte_id(s[q]) == i) by {
            assert(0 <= w < s.len() && byte_id(s[w]) == i);
        }
        let ori = (m - byte_ori(s[q])) % m;
        assert(0 <= ori < m);
        lemma_pack_fields(q, ori);
    }
    assert forall|i: int, j: int| 0 <= i < j < n implies pr[i] != pr[j] by {
        if pr[i] == pr[j] {
            assert(byte_id(s[pr[i]]) == i && byte_id(s[pr[j]]) == j);
        }
    }
    assert forall|v: int| 0 <= v < n implies #[trigger] has_val(pr, v) by {
        let i = p[v];
        assert(0 <= i < n);
        assert(byte_id(s[pr[i]]) == i && byte_id(s[v]) == i);
        assert(p[pr[i]] == p[v]);
        assert(pr[i] == v);
    }
}

/// Count the inverted pairs of one lane's identity fields.
fn lane_inversions(s: &Vec<u8>) -> (r: u32)
    requires
        s@.len() <= 20,
    ensures
        r as nat == inv_count(ids_of(s@)),
        r <= 400,
{
    let ghost p = ids_of(s@);
    let n = s.len();
    let mut c: u32 = 0;
    let mut j: usize = 0;
    while j < n
        invariant
            n == s@.len() <= 20,
            p == ids_of(s@),
            j <= n,
            c as nat == invs_upto(p, j as int),
            c <= 400,
        decreases n - j,
    {
        let mut i: usize = 0;
        while i < j
            invariant
                n == s@.len() <= 20,
                p == ids_of(s@),
                i <= j < n,
                c as nat == invs_upto(p, j as int) + cnt_gt_upto(p, i as int, p[j as int]),
                c <= 420,
            decreases j - i,
        {
            proof {
                lemma_invs_le(p, j as int);
                lemma_cnt_le(p, i as int, p[j as int]);
            }
            if s[i] % 16 > s[j] % 16 {
                c = c + 1;
            }
            i = i + 1;
        }
        proof {
            lemma_invs_le(p, j as int + 1);
        }
        j = j + 1;
    }
    proof {
        lemma_invs_le(p, n as int);
    }
    c
}

impl Cube {
    /// Parity of the combined edge + corner permutation: true iff it is odd.
    pub fn parity(&self) -> (r: bool)
        requires
            wf(self@),
        ensures
            r == parity_v(self@),
    {
        let ce = lane_inversions(&self.ev.0);
        let cc = lane_inversions(&self.cv.0);
        proof {
            lemma_combined_split(self@);
        }
        (ce + cc) % 2 == 1
    }

    /// Compose this state with `other`: apply `self`, then `other`.
    pub fn compose(&self, other: &Cube) -> (r: Cube)
        requires
            wf(self@),
            wf(other@),
        ensures
            r@ == compose_v(self@, other@),
            wf(r@),
    {
        compose(self, other)
    }

    /// Mirror-compose this state with `other`.
    pub fn compose_mirror(&self, other: &Cube) -> (r: Cube)
        requires
            wf(self@),
            wf(other@),
        ensures
            r@ == compose_mirror_v(self@, other@),
            wf(r@),
    {
        compose_mirror(self, other)
    }

    /// The group inverse of this state.
    pub fn invert(&self) -> (r: Cube)
        requires
            wf(self@),
        ensures
            r@ == invert_v(self@),
            wf(r@),
    {
        let ev = invert_lane_exec(&self.ev.0, 2);
        let cv = invert_lane_exec(&self.cv.0, 3);
        proof {
            lemma_invert_lane_wf(self@.edges, 12, 2);
            lemma_invert_lane_wf(self@.corners, 8, 3);
        }
        Cube { ev: EdgeLane(ev), cv: CornerLane(cv) }
    }

    /// Flip the orientation bit of exactly the edge slots selected by the
    /// low 12 bits of `eori`, leaving every identity field untouched.
    pub fn xor_edge_orient(&mut self, eori: Eori)
        requires
            wf(old(self)@),
        ensures
            final(self)@.corners == old(self)@.corners,
            final(self)@.edges.len() == 12,
            forall|i: int|
                0 <= i < 12 ==> final(self)@.edges[i] == (if sel_bit(eori.0, i as u32) {
                    flip_ori(old(self)@.edges[i])
                } else {
                    old(self)@.edges[i]
                }),
            wf(final(self)@),
    {
        let mut out: Vec<u8> = Vec::new();
        let mut k: usize = 0;
        while k < 12
            invariant
                wf(old(self)@),
                self@ == old(self)@,
                k <= 12,
                out@.len() == k,
                forall|i: int|
                    0 <= i < k ==> out@[i] == (if sel_bit(eori.0, i as u32) {
                        flip_ori(old(self)@.edges[i])
                    } else {
                        old(self)@.edges[i]
                    }),
                forall|i: int| 0 <= i < k ==> byte_id(#[trigger] out@[i])
                    == byte_id(old(self)@.edges[i]) && byte_ori(out@[i]) < 2,
            decreases 12 - k,
        {
            let b = self.ev.0[k];
            let sel = (eori.0 >> (k as u32)) & 1 == 1;
            let nb = if sel {
                proof {
                    lemma_entry_fields(b);
                    lemma_pack_fields(byte_id(b), 1 - byte_ori(b));
                }
                if b >= 16 {
                    b - 16
                } else {
                    b + 16
                }
            } else {
                b
            };
            out.push(nb);
            k = k + 1;
        }
        self.ev = EdgeLane(out);
        proof {
            assert(ids_of(self@.edges) =~= ids_of(old(self)@.edges));
        }
    }
}

/// Whether `a` orders strictly before `b`: the highest unequal corner entry
/// decides, then the highest unequal edge entry.
pub fn less_than(a: &Cube, b: &Cube) -> (r: bool)
    requires
        a@.edges.len() == 12,
        b@.edges.len() == 12,
        a@.corners.len() == 8,
        b@.corners.len() == 8,
    ensures
        r == lt_v(a@, b@),
{
    let ghost ca = a@.edges + a@.corners;
    let ghost cb = b@.edges + b@.corners;
    let mut k: usize = 20;
    while k > 0
        invariant
            a@.edges.len() == 12,
            b@.edges.len() == 12,
            a@.corners.len() == 8,
            b@.corners.len() == 8,
            ca == a@.edges + a@.corners,
            cb == b@.edges + b@.corners,
            k <= 20,
            lt_v(a@, b@) == rev_lt_upto(ca, cb, k as int),
        decreases k,
    {
        k = k - 1;
        let av = if k < 12 {
            a.ev.0[k]
        } else {
            a.cv.0[k - 12]
        };
        let bv = if k < 12 {
            b.ev.0[k]
        } else {
            b.cv.0[k - 12]
        };
        proof {
            assert(ca[k as int] == av && cb[k as int] == bv);
        }
        if av != bv {
            return av < bv;
        }
    }
    false
}

/// Whether two states hold exactly the same packed entries.
pub fn equals(a: &Cube, b: &Cube) -> (r: bool)
    ensures
        r == (a@ == b@),
{
    if a.ev.0.len() != b.ev.0.len() || a.cv.0.len() != b.cv.0.len() {
        return false;
    }
    let mut k: usize = 0;
    while k < a.ev.0.len()
        invariant
            a@.edges.len() == b@.edges.len(),
            a@.corners.len() == b@.corners.len(),
            k <= a@.edges.len(),
            forall|i: int| 0 <= i < k ==> a@.edges[i] == b@.edges[i],
        decreases a@.edges.len() - k,
    {
        if a.ev.0[k] != b.ev.0[k] {
            return false;
        }
        k = k + 1;
    }
    let mut k: usize = 0;
    while k < a.cv.0.len()
        invariant
            a@.edges =~= b@.edges,
            a@.corners.len() == b@.corners.len(),
            k <= a@.corners.len(),
            forall|i: int| 0 <= i < k ==> a@.corners[i] == b@.corners[i],
        decreases a@.corners.len() - k,
    {
        if a.cv.0[k] != b.cv.0[k] {
            return false;
        }
        k = k + 1;
    }
    proof {
        assert(a@.corners =~= b@.corners);
        assert(a@ =~= b@);
    }
    true
}

} // verus!
