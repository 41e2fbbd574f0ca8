//! Greedy meshing: merges adjacent coplanar faces of the same material
//! into larger rectangles.
use crate::names::{block_base_name, get_block_base_name, get_material_name, material_name};
use vstd::prelude::*;

verus! {

// ─── rectangles on a 2D mask ─────────────────────────────────────────
/// A rectangle of mask cells: `w` cells along u from `u`, `h` cells along
/// v from `v`.
#[derive(Clone, Copy, Debug, PartialEq, Eq, Structural)]
pub struct Rect {
    pub u: usize,
    pub v: usize,
    pub w: usize,
    pub h: usize,
}

/// The mask cell `(u, v)` of a mask stored row by row (`u * vs + v`).
pub open spec fn mask_at(mask: Seq<Option<usize>>, vs: int, u: int, v: int) -> Option<usize> {
    mask[u * vs + v]
}

pub open spec fn in_rect(r: Rect, u: int, v: int) -> bool {
    r.u <= u < r.u + r.w && r.v <= v < r.v + r.h
}

/// Some rectangle of `rs` holds cell `(u, v)`.
pub open spec fn covered(rs: Seq<Rect>, u: int, v: int) -> bool {
    exists|k: int| 0 <= k < rs.len() && #[trigger] in_rect(rs[k], u, v)
}

/// Cell `(u, v)` holds material `m` and no rectangle of `rs` holds it.
pub open spec fn free(mask: Seq<Option<usize>>, vs: int, rs: Seq<Rect>, m: Option<usize>, u: int, v: int) -> bool {
    mask_at(mask, vs, u, v) == m && !covered(rs, u, v)
}

/// Rectangle `k` is what the greedy scan takes given the rectangles
/// before it: it starts at the first cell (in row order: u, then v) that
/// holds a material and is not yet covered; it is as wide along u as
/// that material runs free from there, and then as high along v as the
/// whole width runs free.
pub open spec fn greedy_step(mask: Seq<Option<usize>>, us: int, vs: int, rs: Seq<Rect>, k: int) -> bool {
    let r = rs[k];
    let before = rs.take(k);
    let m = mask_at(mask, vs, r.u as int, r.v as int);
    &&& r.w >= 1 && r.h >= 1
    &&& r.u + r.w <= us && r.v + r.h <= vs
    &&& m is Some
    &&& forall|u: int, v: int|
        0 <= u < us && 0 <= v < vs && (u < r.u || (u == r.u && v < r.v)) ==> #[trigger] mask_at(mask, vs, u, v) is None
            || covered(before, u, v)
    &&& forall|i: int, j: int| 0 <= i < r.w && 0 <= j < r.h ==> #[trigger] free(mask, vs, before, m, r.u + i, r.v + j)
    &&& (r.u + r.w == us || !free(mask, vs, before, m, r.u + r.w, r.v as int))
    &&& (r.v + r.h == vs || exists|i: int| 0 <= i < r.w && !#[trigger] free(mask, vs, before, m, r.u + i, r.v + r.h))
}

/// `rs` is the greedy cover of the mask: each rectangle is the greedy
/// step after those before it, and together they cover every cell that
/// holds a material.
pub open spec fn is_greedy_cover(mask: Seq<Option<usize>>, us: int, vs: int, rs: Seq<Rect>) -> bool {
    &&& forall|k: int| 0 <= k < rs.len() ==> #[trigger] greedy_step(mask, us, vs, rs, k)
    &&& forall|u: int, v: int| 0 <= u < us && 0 <= v < vs && #[trigger] mask_at(mask, vs, u, v) is Some ==> covered(rs, u, v)
}

proof fn lemma_cell_index(u: int, v: int, us: int, vs: int)
    requires
        0 <= u < us,
        0 <= v < vs,
    ensures
        0 <= u * vs + v < us * vs,
        u * vs + vs <= us * vs,
{
    vstd::arithmetic::mul::lemma_mul_inequality(u + 1, us, vs);
    vstd::arithmetic::mul::lemma_mul_nonnegative(u, vs);
    assert((u + 1) * vs == u * vs + vs) by (nonlinear_arith);
}

proof fn lemma_cell_index_unique(u1: int, v1: int, u2: int, v2: int, vs: int)
    requires
        0 <= v1 < vs,
        0 <= v2 < vs,
        0 <= u1,
        0 <= u2,
        u1 * vs + v1 == u2 * vs + v2,
    ensures
        u1 == u2,
        v1 == v2,
{
    if u1 < u2 {
        assert(u1 * vs + vs <= u2 * vs) by (nonlinear_arith)
            requires
                u1 < u2,
                0 < vs,
        ;
    } else if u2 < u1 {
        assert(u2 * vs + vs <= u1 * vs) by (nonlinear_arith)
            requires
                u2 < u1,
                0 < vs,
        ;
    }
}

proof fn lemma_covered_push(rs: Seq<Rect>, r: Rect, u: int, v: int)
    ensures
        covered(rs.push(r), u, v) <==> (covered(rs, u, v) || in_rect(r, u, v)),
{
    let rs2 = rs.push(r);
    if covered(rs, u, v) {
        let k = choose|k: int| 0 <= k < rs.len() && #[trigger] in_rect(rs[k], u, v);
        assert(rs2[k] == rs[k]);
    }
    if in_rect(r, u, v) {
        assert(rs2[rs.len() as int] == r);
    }
    if covered(rs2, u, v) {
        let k = choose|k: int| 0 <= k < rs2.len() && #[trigger] in_rect(rs2[k], u, v);
        if k < rs.len() {
            assert(rs2[k] == rs[k]);
        }
    }
}

/// Two greedy steps after the same rectangles are the same rectangle.
proof fn lemma_step_unique(mask: Seq<Option<usize>>, us: int, vs: int, r1: Seq<Rect>, r2: Seq<Rect>, k: int)
    requires
        0 <= k < r1.len(),
        0 <= k < r2.len(),
        r1.take(k) == r2.take(k),
        greedy_step(mask, us, vs, r1, k),
        greedy_step(mask, us, vs, r2, k),
    ensures
        r1[k] == r2[k],
{
    let a = r1[k];
    let b = r2[k];
    let before = r1.take(k);
    let ma = mask_at(mask, vs, a.u as int, a.v as int);
    let mb = mask_at(mask, vs, b.u as int, b.v as int);
    assert(free(mask, vs, before, ma, a.u + 0, a.v + 0));
    assert(free(mask, vs, before, mb, b.u + 0, b.v + 0));
    if a.u < b.u || (a.u == b.u && a.v < b.v) {
        assert(mask_at(mask, vs, a.u as int, a.v as int) is None || covered(before, a.u as int, a.v as int));
    }
    if b.u < a.u || (b.u == a.u && b.v < a.v) {
        assert(mask_at(mask, vs, b.u as int, b.v as int) is None || covered(before, b.u as int, b.v as int));
    }
    assert(a.u == b.u && a.v == b.v);
    if a.w < b.w {
        assert(free(mask, vs, before, mb, b.u + a.w, b.v + 0));
    }
    if b.w < a.w {
        assert(free(mask, vs, before, ma, a.u + b.w, a.v + 0));
    }
    assert(a.w == b.w);
    if a.h < b.h {
        if a.v + a.h != vs {
            let i = choose|i: int| 0 <= i < a.w && !#[trigger] free(mask, vs, before, ma, a.u + i, a.v + a.h);
            assert(free(mask, vs, before, mb, b.u + i, b.v + a.h));
        }
    }
    if b.h < a.h {
        if b.v + b.h != vs {
            let i = choose|i: int| 0 <= i < b.w && !#[trigger] free(mask, vs, before, mb, b.u + i, b.v + b.h);
            assert(free(mask, vs, before, ma, a.u + i, a.v + b.h));
        }
    }
}

proof fn lemma_prefix_equal(mask: Seq<Option<usize>>, us: int, vs: int, r1: Seq<Rect>, r2: Seq<Rect>, k: int)
    requires
        is_greedy_cover(mask, us, vs, r1),
        is_greedy_cover(mask, us, vs, r2),
        0 <= k <= r1.len(),
        k <= r2.len(),
    ensures
        r1.take(k) == r2.take(k),
    decreases k,
{
    if k > 0 {
        lemma_prefix_equal(mask, us, vs, r1, r2, k - 1);
        lemma_step_unique(mask, us, vs, r1, r2, k - 1);
        assert(r1.take(k) =~= r1.take(k - 1).push(r1[k - 1]));
        assert(r2.take(k) =~= r2.take(k - 1).push(r2[k - 1]));
    } else {
        assert(r1.take(0) =~= r2.take(0));
    }
}

/// The greedy cover of a mask is unique.
pub proof fn lemma_greedy_cover_unique(mask: Seq<Option<usize>>, us: int, vs: int, r1: Seq<Rect>, r2: Seq<Rect>)
    requires
        is_greedy_cover(mask, us, vs, r1),
        is_greedy_cover(mask, us, vs, r2),
    ensures
        r1 == r2,
{
    let n = if r1.len() < r2.len() { r1.len() as int } else { r2.len() as int };
    lemma_prefix_equal(mask, us, vs, r1, r2, n);
    if r1.len() < r2.len() {
        let b = r2[n];
        assert(greedy_step(mask, us, vs, r2, n));
        assert(r1.take(n) =~= r1);
        let m = mask_at(mask, vs, b.u as int, b.v as int);
        assert(free(mask, vs, r2.take(n), m, b.u + 0, b.v + 0));
        assert(covered(r1, b.u as int, b.v as int));
    } else if r2.len() < r1.len() {
        let b = r1[n];
        assert(greedy_step(mask, us, vs, r1, n));
        assert(r2.take(n) =~= r2);
        let m = mask_at(mask, vs, b.u as int, b.v as int);
        assert(free(mask, vs, r1.take(n), m, b.u + 0, b.v + 0));
        assert(covered(r2, b.u as int, b.v as int));
    }
    assert(r1.take(n) =~= r1);
    assert(r2.take(n) =~= r2);
}

/// The greedy cover of a mask (it exists and is unique).
pub open spec fn greedy_rects(mask: Seq<Option<usize>>, us: int, vs: int) -> Seq<Rect> {
    choose|rs: Seq<Rect>| is_greedy_cover(mask, us, vs, rs)
}

/// The visited flag of cell `(u, v)`.
pub open spec fn vis_at(visited: Seq<bool>, vs: int, u: int, v: int) -> bool {
    visited[u * vs + v]
}

proof fn lemma_step_push(mask: Seq<Option<usize>>, us: int, vs: int, rs: Seq<Rect>, r: Rect, k: int)
    requires
        0 <= k < rs.len(),
        greedy_step(mask, us, vs, rs, k),
    ensures
        greedy_step(mask, us, vs, rs.push(r), k),
{
    assert(rs.push(r).take(k) =~= rs.take(k));
    assert(rs.push(r)[k] == rs[k]);
}

/// Whether the `w` cells from `(u, v)` along u all hold material `m` and
/// are not yet visited.
fn row_free(mask: &Vec<Option<usize>>, visited: &Vec<bool>, vs: usize, u: usize, w: usize, v: usize, m: usize, us: Ghost<int>) -> (b: bool)
    requires
        mask@.len() == us@ * vs,
        visited@.len() == us@ * vs,
        u + w <= us@,
        us@ <= usize::MAX,
        v < vs,
    ensures
        b == forall|i: int| 0 <= i < w ==> #[trigger] mask_at(mask@, vs as int, u + i, v as int) == Some(m) && !vis_at(visited@, vs as int, u + i, v as int),
{
    let total = mask.len();
    let mut du: usize = 0;
    while du < w
        invariant
            total == mask@.len(),
            mask@.len() == us@ * vs,
            visited@.len() == us@ * vs,
            u + w <= us@,
            us@ <= usize::MAX,
            v < vs,
            0 <= du <= w,
            forall|i: int| 0 <= i < du ==> #[trigger] mask_at(mask@, vs as int, u + i, v as int) == Some(m) && !vis_at(visited@, vs as int, u + i, v as int),
        decreases w - du,
    {
        proof {
            lemma_cell_index((u + du) as int, v as int, us@, vs as int);
            assert((u + du) * vs <= total);
        }
        let ni = (u + du) * vs + v;
        let ok = match mask[ni] {
            Some(x) => x == m,
            None => false,
        };
        if !ok || visited[ni] {
            proof {
                assert(!(mask_at(mask@, vs as int, u + du, v as int) == Some(m) && !vis_at(visited@, vs as int, u + du, v as int)));
            }
            return false;
        }
        du += 1;
    }
    true
}

/// The greedy cover of a mask of `us` by `vs` cells stored row by row:
/// scanning cells in order, each cell that holds a material and is not yet
/// covered starts a rectangle, grown first along u and then along v over
/// free cells of the same material.
pub fn greedy_merge(mask: &Vec<Option<usize>>, us: usize, vs: usize) -> (rs: Vec<Rect>)
    requires
        mask@.len() == us * vs,
    ensures
        is_greedy_cover(mask@, us as int, vs as int, rs@),
        rs@ == greedy_rects(mask@, us as int, vs as int),
{
    let n = mask.len();
    let mut visited: Vec<bool> = vec![false; n];
    let mut rs: Vec<Rect> = Vec::new();
    proof {
        assert forall|a: int, b: int| 0 <= a < us && 0 <= b < vs implies #[trigger] vis_at(visited@, vs as int, a, b) == covered(rs@, a, b) by {
            lemma_cell_index(a, b, us as int, vs as int);
        }
    }
    let mut u: usize = 0;
    while u < us
        invariant
            n == us * vs,
            mask@.len() == n,
            visited@.len() == n,
            0 <= u <= us,
            forall|k: int| 0 <= k < rs@.len() ==> #[trigger] greedy_step(mask@, us as int, vs as int, rs@, k),
            forall|a: int, b: int| 0 <= a < us && 0 <= b < vs ==> #[trigger] vis_at(visited@, vs as int, a, b) == covered(rs@, a, b),
            forall|a: int, b: int| 0 <= a < u && 0 <= b < vs ==> #[trigger] mask_at(mask@, vs as int, a, b) is None || covered(rs@, a, b),
        decreases us - u,
    {
        let mut v: usize = 0;
        while v < vs
            invariant
                n == us * vs,
                mask@.len() == n,
                visited@.len() == n,
                0 <= u < us,
                0 <= v <= vs,
                forall|k: int| 0 <= k < rs@.len() ==> #[trigger] greedy_step(mask@, us as int, vs as int, rs@, k),
                forall|a: int, b: int| 0 <= a < us && 0 <= b < vs ==> #[trigger] vis_at(visited@, vs as int, a, b) == covered(rs@, a, b),
                forall|a: int, b: int| 0 <= a < us && 0 <= b < vs && (a < u || (a == u && b < v)) ==> #[trigger] mask_at(mask@, vs as int, a, b) is None || covered(rs@, a, b),
            decreases vs - v,
        {
            proof {
                lemma_cell_index(u as int, v as int, us as int, vs as int);
            }
            let idx = u * vs + v;
            if visited[idx] || mask[idx].is_none() {
                proof {
                    assert(vis_at(visited@, vs as int, u as int, v as int) || mask_at(mask@, vs as int, u as int, v as int) is None);
                }
                v += 1;
                continue;
            }
            let m = mask[idx].unwrap();
            let ghost before = rs@;
            let ghost mat = Some(m);
            // Grow along u.
            let mut w: usize = 1;
            proof {
                assert(free(mask@, vs as int, before, mat, u + 0, v as int)) by {
                    assert(!vis_at(visited@, vs as int, u as int, v as int));
                }
            }
            while u + w < us
                invariant
                    n == us * vs,
                    mask@.len() == n,
                    visited@.len() == n,
                    0 <= u < us,
                    0 <= v < vs,
                    1 <= w,
                    u + w <= us,
                    before == rs@,
                    mat == Some(m),
                    forall|a: int, b: int| 0 <= a < us && 0 <= b < vs ==> #[trigger] vis_at(visited@, vs as int, a, b) == covered(rs@, a, b),
                    forall|i: int| 0 <= i < w ==> #[trigger] free(mask@, vs as int, before, mat, u + i, v as int),
                ensures
                    u + w == us || !free(mask@, vs as int, before, mat, u + w, v as int),
                decreases us - u - w,
            {
                proof {
                    lemma_cell_index((u + w) as int, v as int, us as int, vs as int);
                }
                let ni = (u + w) * vs + v;
                let same = match mask[ni] {
                    Some(x) => x == m,
                    None => false,
                };
                if same && !visited[ni] {
                    proof {
                        assert(vis_at(visited@, vs as int, (u + w) as int, v as int) == covered(rs@, (u + w) as int, v as int));
                        assert(free(mask@, vs as int, before, mat, u + w, v as int));
                    }
                    w += 1;
                } else {
                    proof {
                        assert(vis_at(visited@, vs as int, (u + w) as int, v as int) == covered(rs@, (u + w) as int, v as int));
                        assert(!free(mask@, vs as int, before, mat, u + w, v as int));
                    }
                    break;
                }
            }
            let ghost w_ok = u + w == us || !free(mask@, vs as int, before, mat, u + w, v as int);
            // Grow along v.
            let mut h: usize = 1;
            proof {
                assert forall|i: int, j: int| 0 <= i < w && 0 <= j < h implies #[trigger] free(mask@, vs as int, before, mat, u + i, v + j) by {
                    assert(free(mask@, vs as int, before, mat, u + i, v as int));
                }
            }
            while v + h < vs && row_free(&mask, &visited, vs, u, w, v + h, m, Ghost(us as int))
                invariant
                    n == us * vs,
                    mask@.len() == n,
                    visited@.len() == n,
                    0 <= u < us,
                    0 <= v < vs,
                    1 <= w,
                    u + w <= us,
                    1 <= h,
                    v + h <= vs,
                    before == rs@,
                    mat == Some(m),
                    forall|a: int, b: int| 0 <= a < us && 0 <= b < vs ==> #[trigger] vis_at(visited@, vs as int, a, b) == covered(rs@, a, b),
                    forall|i: int, j: int| 0 <= i < w && 0 <= j < h ==> #[trigger] free(mask@, vs as int, before, mat, u + i, v + j),
                decreases vs - v - h,
            {
                proof {
                    assert forall|i: int, j: int| 0 <= i < w && 0 <= j < h + 1 implies #[trigger] free(mask@, vs as int, before, mat, u + i, v + j) by {
                        if j == h {
                            assert(mask_at(mask@, vs as int, u + i, (v + h) as int) == Some(m) && !vis_at(visited@, vs as int, u + i, (v + h) as int));
                            assert(vis_at(visited@, vs as int, u + i, (v + h) as int) == covered(rs@, u + i, (v + h) as int));
                        }
                    }
                }
                h += 1;
            }
            proof {
                if v + h < vs {
                    let r = v + h;
                    assert(!(forall|i: int| 0 <= i < w ==> #[trigger] mask_at(mask@, vs as int, u + i, r as int) == Some(m) && !vis_at(visited@, vs as int, u + i, r as int)));
                    let i = choose|i: int| 0 <= i < w && !(#[trigger] mask_at(mask@, vs as int, u + i, r as int) == Some(m) && !vis_at(visited@, vs as int, u + i, r as int));
                    assert(vis_at(visited@, vs as int, u + i, r as int) == covered(rs@, u + i, r as int));
                    assert(!free(mask@, vs as int, before, mat, u + i, v + h));
                }
            }
            let ghost h_ok = v + h == vs || exists|i: int| 0 <= i < w && !#[trigger] free(mask@, vs as int, before, mat, u + i, v + h);
            let rect = Rect { u, v, w, h };
            // Mark the rectangle visited.
            let mut du: usize = 0;
            while du < w
                invariant
                    n == us * vs,
                    mask@.len() == n,
                    visited@.len() == n,
                    0 <= u < us,
                    0 <= v < vs,
                    u + w <= us,
                    v + h <= vs,
                    rect == (Rect { u, v, w, h }),
                    before == rs@,
                    0 <= du <= w,
                    forall|a: int, b: int| 0 <= a < us && 0 <= b < vs ==> #[trigger] vis_at(visited@, vs as int, a, b) == (covered(rs@, a, b) || (in_rect(rect, a, b) && a < u + du)),
                decreases w - du,
            {
                let mut dv: usize = 0;
                while dv < h
                    invariant
                        n == us * vs,
                        mask@.len() == n,
                        visited@.len() == n,
                        0 <= u < us,
                        0 <= v < vs,
                        u + w <= us,
                        v + h <= vs,
                        0 <= du < w,
                        0 <= dv <= h,
                        rect == (Rect { u, v, w, h }),
                        before == rs@,
                        forall|a: int, b: int| 0 <= a < us && 0 <= b < vs ==> #[trigger] vis_at(visited@, vs as int, a, b) == (covered(rs@, a, b) || (in_rect(rect, a, b) && (a < u + du || (a == u + du && b < v + dv)))),
                    decreases h - dv,
                {
                    proof {
                        lemma_cell_index((u + du) as int, (v + dv) as int, us as int, vs as int);
                    }
                    let ci = (u + du) * vs + (v + dv);
                    let ghost old_vis = visited@;
                    visited.set(ci, true);
                    proof {
                        assert forall|a: int, b: int| 0 <= a < us && 0 <= b < vs implies #[trigger] vis_at(visited@, vs as int, a, b) == (covered(rs@, a, b) || (in_rect(rect, a, b) && (a < u + du || (a == u + du && b < v + dv + 1)))) by {
                            lemma_cell_index(a, b, us as int, vs as int);
                            if a * vs + b == ci {
                                lemma_cell_index_unique(a, b, (u + du) as int, (v + dv) as int, vs as int);
                            } else {
                                assert(old_vis[a * vs + b] == visited@[a * vs + b]);
                                assert(vis_at(old_vis, vs as int, a, b) == (covered(rs@, a, b) || (in_rect(rect, a, b) && (a < u + du || (a == u + du && b < v + dv)))));
                                if a == u + du && b == v + dv {
                                    assert(a * vs + b == ci);
                                }
                            }
                        }
                    }
                    dv += 1;
                }
                du += 1;
            }
            rs.push(rect);
            proof {
                assert(rs@ == before.push(rect));
                assert forall|a: int, b: int| 0 <= a < us && 0 <= b < vs implies #[trigger] vis_at(visited@, vs as int, a, b) == covered(rs@, a, b) by {
                    lemma_covered_push(before, rect, a, b);
                }
                assert forall|k: int| 0 <= k < rs@.len() implies #[trigger] greedy_step(mask@, us as int, vs as int, rs@, k) by {
                    if k < before.len() {
                        lemma_step_push(mask@, us as int, vs as int, before, rect, k);
                    } else {
                        assert(rs@.take(k) =~= before);
                        assert(rs@[k] == rect);
                        assert(mask_at(mask@, vs as int, u as int, v as int) == mat);
                        assert(rect.w >= 1 && rect.h >= 1);
                        assert(rect.u + rect.w <= us && rect.v + rect.h <= vs);
                        assert(forall|a: int, b: int|
                            0 <= a < us && 0 <= b < vs && (a < rect.u || (a == rect.u && b < rect.v)) ==> #[trigger] mask_at(mask@, vs as int, a, b) is None
                                || covered(before, a, b));
                        assert(rect.u + rect.w == us || !free(mask@, vs as int, before, mat, rect.u + rect.w, rect.v as int));
                        assert forall|i: int, j: int| 0 <= i < rect.w && 0 <= j < rect.h implies #[trigger] free(mask@, vs as int, before, mat, rect.u + i, rect.v + j) by {
                            assert(free(mask@, vs as int, before, mat, u + i, v + j));
                        }
                        if !(rect.v + rect.h == vs) {
                            let i = choose|i: int| 0 <= i < w && !#[trigger] free(mask@, vs as int, before, mat, u + i, v + h);
                            assert(!free(mask@, vs as int, before, mat, rect.u + i, rect.v + rect.h));
                        }
                    }
                }
                assert forall|a: int, b: int| 0 <= a < us && 0 <= b < vs && (a < u || (a == u && b < v + 1)) implies #[trigger] mask_at(mask@, vs as int, a, b) is None || covered(rs@, a, b) by {
                    lemma_covered_push(before, rect, a, b);
                    if a == u && b == v {
                        assert(in_rect(rect, a, b));
                    }
                }
            }
            v += 1;
        }
        u += 1;
    }
    proof {
        assert(is_greedy_cover(mask@, us as int, vs as int, rs@));
        lemma_greedy_cover_unique(mask@, us as int, vs as int, rs@, greedy_rects(mask@, us as int, vs as int));
    }
    rs
}

// ─── faces of a block ────────────────────────────────────────────────
/// One of the six face directions of a block: the axis across the face
/// (slice axis), the two axes along it (u and v), the outward normal and
/// the offset to the neighbour block, and whether it faces the positive
/// direction.  Axes are 0 (x), 1 (y), 2 (z) in Minecraft space.
#[derive(Clone, Copy)]
pub struct FaceDef {
    pub slice_axis: usize,
    pub u_axis: usize,
    pub v_axis: usize,
    pub normal_mc: (i32, i32, i32),
    pub neighbor_offset: (i32, i32, i32),
    pub pos_dir: bool,
}

/// The six face directions, in the order +x, -x, +y, -y, +z, -z.
pub open spec fn face_def_spec(d: int) -> FaceDef {
    if d == 0 {
        FaceDef { slice_axis: 0, u_axis: 2, v_axis: 1, normal_mc: (1i32, 0i32, 0i32), neighbor_offset: (1i32, 0i32, 0i32), pos_dir: true }
    } else if d == 1 {
        FaceDef { slice_axis: 0, u_axis: 2, v_axis: 1, normal_mc: (-1i32, 0i32, 0i32), neighbor_offset: (-1i32, 0i32, 0i32), pos_dir: false }
    } else if d == 2 {
        FaceDef { slice_axis: 1, u_axis: 0, v_axis: 2, normal_mc: (0i32, 1i32, 0i32), neighbor_offset: (0i32, 1i32, 0i32), pos_dir: true }
    } else if d == 3 {
        FaceDef { slice_axis: 1, u_axis: 0, v_axis: 2, normal_mc: (0i32, -1i32, 0i32), neighbor_offset: (0i32, -1i32, 0i32), pos_dir: false }
    } else if d == 4 {
        FaceDef { slice_axis: 2, u_axis: 1, v_axis: 0, normal_mc: (0i32, 0i32, 1i32), neighbor_offset: (0i32, 0i32, 1i32), pos_dir: true }
    } else {
        FaceDef { slice_axis: 2, u_axis: 1, v_axis: 0, normal_mc: (0i32, 0i32, -1i32), neighbor_offset: (0i32, 0i32, -1i32), pos_dir: false }
    }
}

/// The name of face direction `d`.
pub open spec fn face_dir_spec(d: int) -> Seq<char> {
    if d == 0 {
        "+x"@
    } else if d == 1 {
        "-x"@
    } else if d == 2 {
        "+y"@
    } else if d == 3 {
        "-y"@
    } else if d == 4 {
        "+z"@
    } else {
        "-z"@
    }
}

/// Face direction `d` (0 to 5).
pub fn face_def(d: usize) -> (r: FaceDef)
    requires
        d < 6,
    ensures
        r == face_def_spec(d as int),
{
    if d == 0 {
        FaceDef { slice_axis: 0, u_axis: 2, v_axis: 1, normal_mc: (1i32, 0i32, 0i32), neighbor_offset: (1i32, 0i32, 0i32), pos_dir: true }
    } else if d == 1 {
        FaceDef { slice_axis: 0, u_axis: 2, v_axis: 1, normal_mc: (-1i32, 0i32, 0i32), neighbor_offset: (-1i32, 0i32, 0i32), pos_dir: false }
    } else if d == 2 {
        FaceDef { slice_axis: 1, u_axis: 0, v_axis: 2, normal_mc: (0i32, 1i32, 0i32), neighbor_offset: (0i32, 1i32, 0i32), pos_dir: true }
    } else if d == 3 {
        FaceDef { slice_axis: 1, u_axis: 0, v_axis: 2, normal_mc: (0i32, -1i32, 0i32), neighbor_offset: (0i32, -1i32, 0i32), pos_dir: false }
    } else if d == 4 {
        FaceDef { slice_axis: 2, u_axis: 1, v_axis: 0, normal_mc: (0i32, 0i32, 1i32), neighbor_offset: (0i32, 0i32, 1i32), pos_dir: true }
    } else {
        FaceDef { slice_axis: 2, u_axis: 1, v_axis: 0, normal_mc: (0i32, 0i32, -1i32), neighbor_offset: (0i32, 0i32, -1i32), pos_dir: false }
    }
}

/// The name of face direction `d` (0 to 5): "+x", "-x", "+y", "-y",
/// "+z" or "-z".
pub fn face_dir_name(d: usize) -> (r: &'static str)
    requires
        d < 6,
    ensures
        r@ == face_dir_spec(d as int),
{
    if d == 0 {
        "+x"
    } else if d == 1 {
        "-x"
    } else if d == 2 {
        "+y"
    } else if d == 3 {
        "-y"
    } else if d == 4 {
        "+z"
    } else {
        "-z"
    }
}

/// The coordinate along axis `a` of the point at `s` on the slice axis
/// and `(u, v)` on the face axes.
pub open spec fn axis_pick(fd: FaceDef, a: int, s: int, u: int, v: int) -> int {
    if a == fd.slice_axis {
        s
    } else if a == fd.u_axis {
        u
    } else {
        v
    }
}

fn pick(fd: &FaceDef, a: usize, s: usize, u: usize, v: usize) -> (r: usize)
    ensures
        r == axis_pick(*fd, a as int, s as int, u as int, v as int),
{
    if a == fd.slice_axis {
        s
    } else if a == fd.u_axis {
        u
    } else {
        v
    }
}

/// The four corners (in Minecraft block units) of the quad covering u in
/// `[u_start, u_end)` and v in `[v_start, v_end)` on slice `slice_val` of
/// face direction `fd`: on the far side of the slice for a positive face,
/// the near side otherwise; listed so that the quad winds outward.
pub open spec fn quad_verts_spec(fd: FaceDef, slice_val: int, u_start: int, v_start: int, u_end: int, v_end: int) -> Seq<(usize, usize, usize)> {
    let d = if fd.pos_dir { slice_val + 1 } else { slice_val };
    let c = |u: int, v: int| (axis_pick(fd, 0, d, u, v) as usize, axis_pick(fd, 1, d, u, v) as usize, axis_pick(fd, 2, d, u, v) as usize);
    let c0 = c(u_start, v_start);
    let c1 = c(u_end, v_start);
    let c2 = c(u_end, v_end);
    let c3 = c(u_start, v_end);
    if fd.pos_dir {
        seq![c0, c3, c2, c1]
    } else {
        seq![c0, c1, c2, c3]
    }
}

/// The corners of a quad on a face slice; see `quad_verts_spec`.
pub fn build_quad_verts(slice_val: usize, u_start: usize, v_start: usize, u_end: usize, v_end: usize, face_def: &FaceDef) -> (verts: Vec<(usize, usize, usize)>)
    requires
        face_def.pos_dir ==> slice_val < usize::MAX,
    ensures
        verts@ == quad_verts_spec(*face_def, slice_val as int, u_start as int, v_start as int, u_end as int, v_end as int),
{
    let d = if face_def.pos_dir {
        slice_val + 1
    } else {
        slice_val
    };
    let corners = [(u_start, v_start), (u_end, v_start), (u_end, v_end), (u_start, v_end)];
    let mut verts: Vec<(usize, usize, usize)> = Vec::new();
    let mut i: usize = 0;
    while i < 4
        invariant
            0 <= i <= 4,
            verts@.len() == i,
            corners@ == seq![(u_start, v_start), (u_end, v_start), (u_end, v_end), (u_start, v_end)],
            forall|k: int| 0 <= k < i ==> #[trigger] verts@[k] == (
                axis_pick(*face_def, 0, d as int, corners@[k].0 as int, corners@[k].1 as int) as usize,
                axis_pick(*face_def, 1, d as int, corners@[k].0 as int, corners@[k].1 as int) as usize,
                axis_pick(*face_def, 2, d as int, corners@[k].0 as int, corners@[k].1 as int) as usize,
            ),
        decreases 4 - i,
    {
        let (u, v) = corners[i];
        verts.push((pick(face_def, 0, d, u, v), pick(face_def, 1, d, u, v), pick(face_def, 2, d, u, v)));
        i += 1;
    }
    if face_def.pos_dir {
        let reordered = vec![verts[0], verts[3], verts[2], verts[1]];
        proof {
            assert(reordered@ =~= quad_verts_spec(*face_def, slice_val as int, u_start as int, v_start as int, u_end as int, v_end as int));
        }
        reordered
    } else {
        proof {
            assert(verts@ =~= quad_verts_spec(*face_def, slice_val as int, u_start as int, v_start as int, u_end as int, v_end as int));
        }
        verts
    }
}

// ─── palette ─────────────────────────────────────────────────────────
/// The palette has an entry with key `i`.
pub open spec fn has_key(pal: Seq<(i32, String)>, i: int) -> bool {
    exists|e: int| 0 <= e < pal.len() && #[trigger] pal[e].0 == i
}

/// The name of the palette entry with key `i`.
pub open spec fn name_of(pal: Seq<(i32, String)>, i: int) -> Seq<char> {
    let e = choose|e: int| 0 <= e < pal.len() && #[trigger] pal[e].0 == i;
    pal[e].1@
}

/// The base name of the palette entry with key `i`.
pub open spec fn base_of(pal: Seq<(i32, String)>, i: int) -> Seq<char> {
    block_base_name(name_of(pal, i))
}

/// One of the names equals `s`.
pub open spec fn in_names(names: Seq<String>, s: Seq<char>) -> bool {
    exists|j: int| 0 <= j < names.len() && #[trigger] names[j]@ == s
}

/// Palette index `i` gets geometry: a non-negative key whose base name
/// is in the set of names that need geometry.
pub open spec fn generates(pal: Seq<(i32, String)>, gen: Seq<String>, i: int) -> bool {
    0 <= i && has_key(pal, i) && in_names(gen, base_of(pal, i))
}

/// Palette index `i` hides the faces next to it: a non-negative key whose
/// base name or full name is in the set of solid names.
pub open spec fn culls(pal: Seq<(i32, String)>, solid: Seq<String>, i: int) -> bool {
    0 <= i && has_key(pal, i) && (in_names(solid, base_of(pal, i)) || in_names(solid, name_of(pal, i)))
}

/// `j` is the material class of palette index `i`: the smallest key with
/// the same base name.
pub open spec fn is_class_of(pal: Seq<(i32, String)>, i: int, j: int) -> bool {
    &&& 0 <= j
    &&& has_key(pal, j)
    &&& base_of(pal, j) == base_of(pal, i)
    &&& forall|j2: int| 0 <= j2 < j && #[trigger] has_key(pal, j2) ==> base_of(pal, j2) != base_of(pal, i)
}

/// Palette keys are distinct.
pub open spec fn keys_distinct(pal: Seq<(i32, String)>) -> bool {
    forall|e1: int, e2: int| 0 <= e1 < pal.len() && 0 <= e2 < pal.len() && e1 != e2 ==> #[trigger] pal[e1].0 != #[trigger] pal[e2].0
}

/// Lookup tables indexed by palette key, from 0 to the largest key:
/// whether the key gets geometry, whether it is solid, its base name, and
/// its material class.
pub struct PaletteTables {
    pub max_idx: usize,
    pub generate: Vec<bool>,
    pub solid: Vec<bool>,
    pub base: Vec<Option<String>>,
    pub class: Vec<usize>,
}

/// The tables describe the palette and the two name sets.
pub open spec fn tables_ok(t: PaletteTables, pal: Seq<(i32, String)>, gen: Seq<String>, solid: Seq<String>) -> bool {
    let n = t.max_idx + 1;
    &&& t.generate@.len() == n
    &&& t.solid@.len() == n
    &&& t.base@.len() == n
    &&& t.class@.len() == n
    &&& forall|e: int| 0 <= e < pal.len() && #[trigger] pal[e].0 >= 0 ==> pal[e].0 <= t.max_idx
    &&& forall|i: int| 0 <= i < n ==> #[trigger] t.generate@[i] == generates(pal, gen, i)
    &&& forall|i: int| 0 <= i < n ==> #[trigger] t.solid@[i] == culls(pal, solid, i)
    &&& forall|i: int| 0 <= i < n ==> match #[trigger] t.base@[i] {
        Some(b) => has_key(pal, i) && b@ == base_of(pal, i),
        None => !has_key(pal, i),
    }
    &&& forall|i: int| 0 <= i < n && has_key(pal, i) ==> {
        let c = #[trigger] t.class@[i] as int;
        &&& 0 <= c < n
        &&& is_class_of(pal, i, c)
    }
}

/// Some of the first `e` palette entries has key `i`.
pub open spec fn entry_before(pal: Seq<(i32, String)>, e: int, i: int) -> bool {
    exists|e2: int| 0 <= e2 < e && #[trigger] pal[e2].0 == i
}

/// Table slot `i` is filled for the entries before `e`, and empty
/// otherwise.
pub open spec fn slot_filled(pal: Seq<(i32, String)>, gen: Seq<String>, solid: Seq<String>, generate: Seq<bool>, solid_t: Seq<bool>, base: Seq<Option<String>>, e: int, i: int) -> bool {
    if entry_before(pal, e, i) {
        generate[i] == generates(pal, gen, i) && solid_t[i] == culls(pal, solid, i) && base[i] is Some && base[i]->0@ == base_of(pal, i)
    } else {
        !generate[i] && !solid_t[i] && base[i] is None
    }
}

/// Whether one of the names equals `s`.
fn names_contain(names: &Vec<String>, s: &String) -> (b: bool)
    ensures
        b == in_names(names@, s@),
{
    let n = names.len();
    let mut j: usize = 0;
    while j < n
        invariant
            n == names@.len(),
            0 <= j <= n,
            forall|k: int| 0 <= k < j ==> #[trigger] names@[k]@ != s@,
        decreases n - j,
    {
        if names[j] == *s {
            assert(names@[j as int]@ == s@);
            return true;
        }
        j += 1;
    }
    false
}

proof fn lemma_name_of(pal: Seq<(i32, String)>, e: int)
    requires
        keys_distinct(pal),
        0 <= e < pal.len(),
    ensures
        has_key(pal, pal[e].0 as int),
        name_of(pal, pal[e].0 as int) == pal[e].1@,
{
    let i = pal[e].0 as int;
    assert(pal[e].0 == i);
    let e2 = choose|e2: int| 0 <= e2 < pal.len() && #[trigger] pal[e2].0 == i;
    if e2 != e {
        assert(pal[e].0 != pal[e2].0);
    }
}

/// The first slot whose base name equals `b` (slot `i` is one).
fn first_with_base(base: &Vec<Option<String>>, b: &String, i: Ghost<int>) -> (j: usize)
    requires
        0 <= i@ < base@.len(),
        base@[i@] == Some(*b),
    ensures
        j < base@.len(),
        base@[j as int] is Some && base@[j as int]->0@ == b@,
        forall|j2: int| 0 <= j2 < j ==> match #[trigger] base@[j2] {
            Some(x) => x@ != b@,
            None => true,
        },
{
    let n = base.len();
    let mut j: usize = 0;
    while j < n
        invariant
            n == base@.len(),
            0 <= i@ < n,
            base@[i@] == Some(*b),
            0 <= j <= n,
            forall|j2: int| 0 <= j2 < j ==> match #[trigger] base@[j2] {
                Some(x) => x@ != b@,
                None => true,
            },
        decreases n - j,
    {
        let same = match &base[j] {
            Some(x) => *x == *b,
            None => false,
        };
        if same {
            return j;
        }
        j += 1;
    }
    proof {
        assert(base@[i@] is Some);
    }
    0
}

/// The lookup tables of a palette (distinct keys, at least one of them
/// non-negative unless the palette is empty) and of the two name sets.
pub fn build_palette_tables(pal: &Vec<(i32, String)>, gen: &Vec<String>, solid: &Vec<String>) -> (t: PaletteTables)
    requires
        keys_distinct(pal@),
        pal@.len() == 0 || exists|e: int| 0 <= e < pal@.len() && #[trigger] pal@[e].0 >= 0,
    ensures
        tables_ok(t, pal@, gen@, solid@),
{
    let np = pal.len();
    // The largest key (0 for an empty palette).
    let mut max_key: i32 = 0;
    if np > 0 {
        max_key = pal[0].0;
    }
    let mut e: usize = 1;
    while e < np
        invariant
            np == pal@.len(),
            1 <= e <= np || np == 0,
            np == 0 ==> max_key == 0,
            np > 0 ==> exists|e2: int| 0 <= e2 < e && pal@[e2].0 == max_key,
            forall|e2: int| 0 <= e2 < e && e2 < np ==> #[trigger] pal@[e2].0 <= max_key,
        decreases np - e,
    {
        if pal[e].0 > max_key {
            max_key = pal[e].0;
        }
        e += 1;
    }
    proof {
        if np > 0 {
            let e0 = choose|e0: int| 0 <= e0 < pal@.len() && #[trigger] pal@[e0].0 >= 0;
            assert(pal@[e0].0 <= max_key);
        }
        assert(max_key >= 0);
    }
    let max_idx = max_key as usize;
    assert(max_idx == max_key);
    let n = max_idx + 1;
    let mut generate: Vec<bool> = Vec::new();
    let mut solid_t: Vec<bool> = Vec::new();
    let mut base: Vec<Option<String>> = Vec::new();
    let mut z: usize = 0;
    while z < n
        invariant
            0 <= z <= n,
            generate@.len() == z,
            solid_t@.len() == z,
            base@.len() == z,
            forall|i: int| 0 <= i < z ==> !(#[trigger] generate@[i]) && !solid_t@[i] && base@[i] is None,
        decreases n - z,
    {
        generate.push(false);
        solid_t.push(false);
        base.push(None);
        z += 1;
    }
    proof {
        assert forall|i: int| 0 <= i < n implies #[trigger] slot_filled(pal@, gen@, solid@, generate@, solid_t@, base@, 0, i) by {
            assert(!entry_before(pal@, 0, i));
            assert(!generate@[i]);
        }
    }
    let mut e: usize = 0;
    while e < np
        invariant
            np == pal@.len(),
            keys_distinct(pal@),
            n == max_idx + 1,
            max_idx == max_key,
            0 <= max_key,
            forall|e2: int| 0 <= e2 < np ==> #[trigger] pal@[e2].0 <= max_key,
            0 <= e <= np,
            generate@.len() == n,
            solid_t@.len() == n,
            base@.len() == n,
            forall|i: int| 0 <= i < n ==> #[trigger] slot_filled(pal@, gen@, solid@, generate@, solid_t@, base@, e as int, i),
        decreases np - e,
    {
        let idx = pal[e].0;
        if idx >= 0 {
            let i = idx as usize;
            let name = &pal[e].1;
            let b = get_block_base_name(name.as_str());
            let g = names_contain(gen, &b);
            let sl = names_contain(solid, &b) || names_contain(solid, name);
            proof {
                lemma_name_of(pal@, e as int);
            }
            let ghost old_gen = generate@;
            let ghost old_sol = solid_t@;
            let ghost old_base = base@;
            generate.set(i, g);
            solid_t.set(i, sl);
            base.set(i, Some(b));
            proof {
                assert forall|k: int| 0 <= k < n implies #[trigger] slot_filled(pal@, gen@, solid@, generate@, solid_t@, base@, e + 1, k) by {
                    assert(slot_filled(pal@, gen@, solid@, old_gen, old_sol, old_base, e as int, k));
                    if k == i {
                        assert(pal@[e as int].0 == k);
                        assert(entry_before(pal@, e + 1, k));
                    } else {
                        if entry_before(pal@, e + 1, k) {
                            let e2 = choose|e2: int| 0 <= e2 < e + 1 && #[trigger] pal@[e2].0 == k;
                            assert(e2 < e);
                            assert(entry_before(pal@, e as int, k));
                        } else {
                            assert(!entry_before(pal@, e as int, k));
                        }
                        assert(generate@[k] == old_gen[k]);
                        assert(solid_t@[k] == old_sol[k]);
                        assert(base@[k] == old_base[k]);
                    }
                }
            }
        } else {
            proof {
                assert forall|k: int| 0 <= k < n implies #[trigger] slot_filled(pal@, gen@, solid@, generate@, solid_t@, base@, e + 1, k) by {
                    assert(slot_filled(pal@, gen@, solid@, generate@, solid_t@, base@, e as int, k));
                    if entry_before(pal@, e + 1, k) {
                        let e2 = choose|e2: int| 0 <= e2 < e + 1 && #[trigger] pal@[e2].0 == k;
                        assert(e2 < e);
                        assert(entry_before(pal@, e as int, k));
                    } else {
                        assert(!entry_before(pal@, e as int, k));
                    }
                }
            }
        }
        e += 1;
    }
    proof {
        assert forall|k: int| 0 <= k < n implies {
            &&& #[trigger] generate@[k] == generates(pal@, gen@, k)
            &&& solid_t@[k] == culls(pal@, solid@, k)
            &&& match base@[k] {
                Some(b) => has_key(pal@, k) && b@ == base_of(pal@, k),
                None => !has_key(pal@, k),
            }
        } by {
            assert(slot_filled(pal@, gen@, solid@, generate@, solid_t@, base@, np as int, k));
            if entry_before(pal@, np as int, k) {
                let e2 = choose|e2: int| 0 <= e2 < np && #[trigger] pal@[e2].0 == k;
                assert(has_key(pal@, k));
            } else {
                assert(!has_key(pal@, k));
            }
        }
        assert forall|k: int| 0 <= k < n implies match #[trigger] base@[k] {
                Some(b) => has_key(pal@, k) && b@ == base_of(pal@, k),
                None => !has_key(pal@, k),
            } by {
            assert(generate@[k] == generates(pal@, gen@, k));
        }
    }
    // Material classes: the smallest key with the same base name.
    let mut class: Vec<usize> = Vec::new();
    let mut i: usize = 0;
    while i < n
        invariant
            n == max_idx + 1,
            base@.len() == n,
            0 <= i <= n,
            class@.len() == i,
            forall|k: int| 0 <= k < n ==> match #[trigger] base@[k] {
                Some(b) => has_key(pal@, k) && b@ == base_of(pal@, k),
                None => !has_key(pal@, k),
            },
            forall|k: int| 0 <= k < i && has_key(pal@, k) ==> {
                let c = #[trigger] class@[k] as int;
                &&& 0 <= c < n
                &&& is_class_of(pal@, k, c)
            },
        decreases n - i,
    {
        let mut c: usize = 0;
        match &base[i] {
            Some(bi) => {
                proof {
                    assert(has_key(pal@, i as int));
                }
                c = first_with_base(&base, bi, Ghost(i as int));
                proof {
                    assert forall|j2: int| 0 <= j2 < c && #[trigger] has_key(pal@, j2) implies base_of(pal@, j2) != base_of(pal@, i as int) by {
                        assert(base@[j2] is Some);
                    }
                    assert(base@[c as int] is Some);
                }
            },
            None => {},
        }
        class.push(c);
        proof {
            assert forall|k: int| 0 <= k < i + 1 && has_key(pal@, k) implies {
                let c2 = #[trigger] class@[k] as int;
                &&& 0 <= c2 < n
                &&& is_class_of(pal@, k, c2)
            } by {
                if k == i {
                    assert(base@[k] is Some);
                }
            }
        }
        i += 1;
    }
    let t = PaletteTables { max_idx, generate, solid: solid_t, base, class };
    proof {
        assert forall|e2: int| 0 <= e2 < pal@.len() && #[trigger] pal@[e2].0 >= 0 implies pal@[e2].0 <= t.max_idx by {}
        assert forall|k: int| 0 <= k < n implies #[trigger] t.generate@[k] == generates(pal@, gen@, k) by {}
        assert forall|k: int| 0 <= k < n implies #[trigger] t.solid@[k] == culls(pal@, solid@, k) by {
            assert(t.generate@[k] == generates(pal@, gen@, k));
        }
    }
    t
}

// ─── the block grid ──────────────────────────────────────────────────
/// The size of the grid along axis `a`.
pub open spec fn axis_size(w: int, h: int, l: int, a: int) -> int {
    if a == 0 {
        w
    } else if a == 1 {
        h
    } else {
        l
    }
}

/// The flat index of block `(x, y, z)` in a grid of height `h` and length
/// `l` stored x-major: `x * h * l + y * l + z`.
pub open spec fn grid_index(x: int, y: int, z: int, h: int, l: int) -> int {
    x * h * l + y * l + z
}

proof fn lemma_grid_index(x: int, y: int, z: int, w: int, h: int, l: int)
    requires
        0 <= x < w,
        0 <= y < h,
        0 <= z < l,
    ensures
        0 <= grid_index(x, y, z, h, l) < w * h * l,
{
    vstd::arithmetic::mul::lemma_mul_inequality(y + 1, h, l);
    assert((y + 1) * l == y * l + l) by (nonlinear_arith);
    vstd::arithmetic::mul::lemma_mul_nonnegative(y, l);
    vstd::arithmetic::mul::lemma_mul_nonnegative(x, h);
    vstd::arithmetic::mul::lemma_mul_nonnegative(x * h, l);
    vstd::arithmetic::mul::lemma_mul_inequality(x + 1, w, h * l);
    assert((x + 1) * (h * l) == x * h * l + h * l) by (nonlinear_arith);
    assert(w * (h * l) == w * h * l) by (nonlinear_arith);
}

/// Inside a grid of `w * h * l` cells, the index of a cell and its
/// partial product `x * h` stay below the cell count.
proof fn lemma_grid_idx_fits(x: int, y: int, z: int, w: int, h: int, l: int)
    requires
        0 <= x < w,
        0 <= y < h,
        0 <= z < l,
    ensures
        0 <= x * h <= w * h * l,
        0 <= grid_index(x, y, z, h, l) < w * h * l,
{
    lemma_grid_index(x, y, z, w, h, l);
    vstd::arithmetic::mul::lemma_mul_nonnegative(x, h);
    assert(x * h <= x * h * l) by (nonlinear_arith)
        requires
            l >= 1,
            x * h >= 0,
    ;
    vstd::arithmetic::mul::lemma_mul_nonnegative(y, l);
    vstd::arithmetic::mul::lemma_mul_nonnegative(x * h, l);
}

/// The flat index of block `(x, y, z)`: `x * height * length + y *
/// length + z`.
pub fn grid_idx(x: usize, y: usize, z: usize, height: usize, length: usize) -> (r: usize)
    requires
        x * height <= usize::MAX,
        x * height * length + y * length + z <= usize::MAX,
    ensures
        r == grid_index(x as int, y as int, z as int, height as int, length as int),
{
    proof {
        vstd::arithmetic::mul::lemma_mul_nonnegative(x as int, height as int);
        vstd::arithmetic::mul::lemma_mul_nonnegative((x * height) as int, length as int);
        vstd::arithmetic::mul::lemma_mul_nonnegative(y as int, length as int);
    }
    x * height * length + y * length + z
}

/// The block id at `(x, y, z)`.
pub open spec fn block_at(blocks: Seq<i32>, h: int, l: int, x: int, y: int, z: int) -> int {
    blocks[grid_index(x, y, z, h, l)] as int
}

/// The tables are consistent: their lengths agree, and every key that
/// gets geometry has a class whose base name is known.
pub open spec fn tables_wf(t: PaletteTables) -> bool {
    let n = t.max_idx + 1;
    &&& t.generate@.len() == n
    &&& t.solid@.len() == n
    &&& t.base@.len() == n
    &&& t.class@.len() == n
    &&& forall|i: int| 0 <= i < n && #[trigger] t.generate@[i] ==> t.class@[i] < n && t.base@[t.class@[i] as int] is Some
}

/// What a cell of the face mask holds: for slice `s` of face direction
/// `d`, the cell `(u, v)` holds the material class of its block when the
/// block gets geometry and its neighbour across the face is not a solid
/// block inside the grid; otherwise nothing.
pub open spec fn cell_class(t: PaletteTables, blocks: Seq<i32>, w: int, h: int, l: int, d: int, s: int, u: int, v: int) -> Option<usize> {
    let fd = face_def_spec(d);
    let x = axis_pick(fd, 0, s, u, v);
    let y = axis_pick(fd, 1, s, u, v);
    let z = axis_pick(fd, 2, s, u, v);
    let id = block_at(blocks, h, l, x, y, z);
    let nx = x + fd.neighbor_offset.0;
    let ny = y + fd.neighbor_offset.1;
    let nz = z + fd.neighbor_offset.2;
    let hidden = 0 <= nx < w && 0 <= ny < h && 0 <= nz < l && {
        let nid = block_at(blocks, h, l, nx, ny, nz);
        0 <= nid <= t.max_idx && t.solid@[nid]
    };
    if 0 <= id <= t.max_idx && t.generate@[id] && !hidden {
        Some(t.class@[id])
    } else {
        None
    }
}

/// The u and v sizes of the masks of face direction `d`.
pub open spec fn mask_us(w: int, h: int, l: int, d: int) -> int {
    axis_size(w, h, l, face_def_spec(d).u_axis as int)
}

pub open spec fn mask_vs(w: int, h: int, l: int, d: int) -> int {
    axis_size(w, h, l, face_def_spec(d).v_axis as int)
}

/// The number of slices of face direction `d`.
pub open spec fn num_slices(w: int, h: int, l: int, d: int) -> int {
    axis_size(w, h, l, face_def_spec(d).slice_axis as int)
}

/// The mask of slice `s` of face direction `d`, row by row.
pub open spec fn slice_mask(t: PaletteTables, blocks: Seq<i32>, w: int, h: int, l: int, d: int, s: int) -> Seq<Option<usize>> {
    let us = mask_us(w, h, l, d);
    let vs = mask_vs(w, h, l, d);
    Seq::new((us * vs) as nat, |i: int| cell_class(t, blocks, w, h, l, d, s, i / vs, i % vs))
}

/// The grid sizes are in range: the grid fits in the block list and every
/// coordinate fits in an `i32`.
pub open spec fn grid_ok(blocks: Seq<i32>, w: int, h: int, l: int) -> bool {
    &&& 0 <= w <= i32::MAX
    &&& 0 <= h <= i32::MAX
    &&& 0 <= l <= i32::MAX
    &&& w * h * l <= blocks.len()
}

proof fn lemma_axis_sizes(w: int, h: int, l: int, d: int)
    requires
        0 <= d < 6,
    ensures
        ({
            let fd = face_def_spec(d);
            &&& fd.slice_axis < 3 && fd.u_axis < 3 && fd.v_axis < 3
            &&& fd.slice_axis != fd.u_axis && fd.slice_axis != fd.v_axis && fd.u_axis != fd.v_axis
        }),
{
}

/// The mask of one slice: for each cell, in row order, the material class
/// of its block, or nothing when no face is drawn there.
fn build_slice_mask(t: &PaletteTables, blocks: &Vec<i32>, width: usize, height: usize, length: usize, d: usize, s: usize) -> (mask: Vec<Option<usize>>)
    requires
        tables_wf(*t),
        grid_ok(blocks@, width as int, height as int, length as int),
        d < 6,
        s < num_slices(width as int, height as int, length as int, d as int),
    ensures
        mask@ == slice_mask(*t, blocks@, width as int, height as int, length as int, d as int, s as int),
{
    let fd = face_def(d);
    let sizes = [width, height, length];
    let u_size = sizes[fd.u_axis];
    let v_size = sizes[fd.v_axis];
    let ghost gw = width as int;
    let ghost gh = height as int;
    let ghost gl = length as int;
    proof {
        lemma_axis_sizes(gw, gh, gl, d as int);
        assert(u_size == mask_us(gw, gh, gl, d as int));
        assert(v_size == mask_vs(gw, gh, gl, d as int));
    }
    let ghost spec_mask = slice_mask(*t, blocks@, gw, gh, gl, d as int, s as int);
    let mut mask: Vec<Option<usize>> = Vec::new();
    let mut u: usize = 0;
    while u < u_size
        invariant
            tables_wf(*t),
            grid_ok(blocks@, gw, gh, gl),
            gw == width && gh == height && gl == length,
            d < 6,
            fd == face_def_spec(d as int),
            s < num_slices(gw, gh, gl, d as int),
            u_size == mask_us(gw, gh, gl, d as int),
            v_size == mask_vs(gw, gh, gl, d as int),
            0 <= u <= u_size,
            mask@.len() == u * v_size,
            forall|a: int, b: int| 0 <= a < u && 0 <= b < v_size ==> #[trigger] mask_at(mask@, v_size as int, a, b) == cell_class(*t, blocks@, gw, gh, gl, d as int, s as int, a, b),
        decreases u_size - u,
    {
        let mut v: usize = 0;
        while v < v_size
            invariant
                tables_wf(*t),
                grid_ok(blocks@, gw, gh, gl),
                gw == width && gh == height && gl == length,
                d < 6,
                fd == face_def_spec(d as int),
                s < num_slices(gw, gh, gl, d as int),
                u_size == mask_us(gw, gh, gl, d as int),
                v_size == mask_vs(gw, gh, gl, d as int),
                0 <= u < u_size,
                0 <= v <= v_size,
                mask@.len() == u * v_size + v,
                forall|a: int, b: int| 0 <= a < u_size && 0 <= b < v_size && (a < u || (a == u && b < v)) ==> #[trigger] mask_at(mask@, v_size as int, a, b) == cell_class(*t, blocks@, gw, gh, gl, d as int, s as int, a, b),
            decreases v_size - v,
        {
            let cell = mask_cell(t, blocks, width, height, length, &fd, d, s, u, v);
            let ghost old_mask = mask@;
            mask.push(cell);
            proof {
                assert forall|a: int, b: int| 0 <= a < u_size && 0 <= b < v_size && (a < u || (a == u && b < v + 1)) implies #[trigger] mask_at(mask@, v_size as int, a, b) == cell_class(*t, blocks@, gw, gh, gl, d as int, s as int, a, b) by {
                    lemma_cell_index(a, b, u_size as int, v_size as int);
                    if a == u && b == v {
                        assert(a * v_size + b == old_mask.len());
                    } else {
                        if a < u {
                            vstd::arithmetic::mul::lemma_mul_inequality(a + 1, u as int, v_size as int);
                            assert((a + 1) * v_size == a * v_size + v_size) by (nonlinear_arith);
                        }
                        assert(a * v_size + b < old_mask.len());
                        assert(mask_at(old_mask, v_size as int, a, b) == cell_class(*t, blocks@, gw, gh, gl, d as int, s as int, a, b));
                    }
                }
            }
            v += 1;
        }
        proof {
            assert((u + 1) * v_size == u * v_size + v_size) by (nonlinear_arith);
        }
        u += 1;
    }
    proof {
        let us = u_size as int;
        let vs = v_size as int;
        assert(mask@.len() == us * vs);
        assert forall|i: int| 0 <= i < mask@.len() implies mask@[i] == spec_mask[i] by {
            if vs > 0 {
                vstd::arithmetic::div_mod::lemma_fundamental_div_mod(i, vs);
                vstd::arithmetic::div_mod::lemma_mod_bound(i, vs);
                let a = i / vs;
                let b = i % vs;
                assert(0 <= a) by (nonlinear_arith)
                    requires
                        0 <= i,
                        0 < vs,
                        a == i / vs,
                ;
                assert(a < us) by (nonlinear_arith)
                    requires
                        i < us * vs,
                        0 < vs,
                        a == i / vs,
                        i == vs * a + b,
                        0 <= b < vs,
                ;
                assert(i == a * vs + b) by (nonlinear_arith)
                    requires
                        i == vs * a + b,
                ;
                assert(mask_at(mask@, vs, a, b) == cell_class(*t, blocks@, gw, gh, gl, d as int, s as int, a, b));
            } else {
                assert(us * vs == 0) by (nonlinear_arith)
                    requires
                        vs == 0,
                ;
            }
        }
        assert(mask@ =~= spec_mask);
    }
    mask
}

/// One mask cell: see `cell_class`.
fn mask_cell(t: &PaletteTables, blocks: &Vec<i32>, width: usize, height: usize, length: usize, fd: &FaceDef, d: usize, s: usize, u: usize, v: usize) -> (cell: Option<usize>)
    requires
        tables_wf(*t),
        grid_ok(blocks@, width as int, height as int, length as int),
        d < 6,
        *fd == face_def_spec(d as int),
        s < num_slices(width as int, height as int, length as int, d as int),
        u < mask_us(width as int, height as int, length as int, d as int),
        v < mask_vs(width as int, height as int, length as int, d as int),
    ensures
        cell == cell_class(*t, blocks@, width as int, height as int, length as int, d as int, s as int, u as int, v as int),
{
    let ghost gw = width as int;
    let nb = blocks.len();
    proof {
        lemma_axis_sizes(width as int, height as int, length as int, d as int);
        assert(gw * height * length <= nb);
    }
    let x = pick(fd, 0, s, u, v);
    let y = pick(fd, 1, s, u, v);
    let z = pick(fd, 2, s, u, v);
    proof {
        assert(x < width && y < height && z < length);
        lemma_grid_idx_fits(x as int, y as int, z as int, width as int, height as int, length as int);
    }
    let block_id = blocks[grid_idx(x, y, z, height, length)];
    if block_id < 0 || block_id as usize > t.max_idx || !t.generate[block_id as usize] {
        return None;
    }
    let noff = fd.neighbor_offset;
    let nx = x as i32 + noff.0;
    let ny = y as i32 + noff.1;
    let nz = z as i32 + noff.2;
    if nx >= 0 && (nx as usize) < width && ny >= 0 && (ny as usize) < height && nz >= 0 && (nz as usize) < length {
        proof {
            lemma_grid_idx_fits(nx as int, ny as int, nz as int, width as int, height as int, length as int);
        }
        let n_id = blocks[grid_idx(nx as usize, ny as usize, nz as usize, height, length)];
        if n_id >= 0 && (n_id as usize) <= t.max_idx && t.solid[n_id as usize] {
            return None;
        }
    }
    Some(t.class[block_id as usize])
}

// ─── merged quads ────────────────────────────────────────────────────
/// A merged quad: its four corners in Minecraft block units, its face
/// direction (0 to 5: +x, -x, +y, -y, +z, -z) and its material name.
pub struct GridQuad {
    pub vertices: Vec<(usize, usize, usize)>,
    pub face: usize,
    pub block_type: String,
}

/// The greedy rectangles of slice `s` of face direction `d`.
pub open spec fn slice_rects(t: PaletteTables, blocks: Seq<i32>, w: int, h: int, l: int, d: int, s: int) -> Seq<Rect> {
    greedy_rects(slice_mask(t, blocks, w, h, l, d, s), mask_us(w, h, l, d), mask_vs(w, h, l, d))
}

/// The rectangles of the first `s_end` slices of face direction `d`, each
/// with its slice, in slice order.
pub open spec fn face_rects(t: PaletteTables, blocks: Seq<i32>, w: int, h: int, l: int, d: int, s_end: int) -> Seq<(int, Rect)>
    decreases s_end,
{
    if s_end <= 0 {
        Seq::empty()
    } else {
        face_rects(t, blocks, w, h, l, d, s_end - 1) + slice_rects(t, blocks, w, h, l, d, s_end - 1).map_values(|r: Rect| (s_end - 1, r))
    }
}

/// `q` is the quad of rectangle `r` on slice `s` of face direction `d`.
pub open spec fn quad_ok(q: GridQuad, t: PaletteTables, blocks: Seq<i32>, w: int, h: int, l: int, d: int, s: int, r: Rect) -> bool {
    let c = mask_at(slice_mask(t, blocks, w, h, l, d, s), mask_vs(w, h, l, d), r.u as int, r.v as int)->0;
    &&& q.face == d
    &&& q.vertices@ == quad_verts_spec(face_def_spec(d), s, r.u as int, r.v as int, (r.u + r.w) as int, (r.v + r.h) as int)
    &&& q.block_type@ == material_name(t.base@[c as int]->0@)
}

/// `qs` are the quads of face direction `d`, slice by slice.
pub open spec fn face_quads_ok(qs: Seq<GridQuad>, t: PaletteTables, blocks: Seq<i32>, w: int, h: int, l: int, d: int) -> bool {
    let fr = face_rects(t, blocks, w, h, l, d, num_slices(w, h, l, d));
    &&& qs.len() == fr.len()
    &&& forall|i: int| 0 <= i < qs.len() ==> #[trigger] quad_ok(qs[i], t, blocks, w, h, l, d, fr[i].0, fr[i].1)
}

/// The merged quads of one face direction: for each slice in order, the
/// greedy rectangles of its mask, each as a quad with its corners and its
/// material name.
pub fn generate_face_quads(t: &PaletteTables, blocks: &Vec<i32>, width: usize, height: usize, length: usize, d: usize) -> (qs: Vec<GridQuad>)
    requires
        tables_wf(*t),
        grid_ok(blocks@, width as int, height as int, length as int),
        d < 6,
    ensures
        face_quads_ok(qs@, *t, blocks@, width as int, height as int, length as int, d as int),
{
    let ghost gw = width as int;
    let ghost gh = height as int;
    let ghost gl = length as int;
    let fd = face_def(d);
    let sizes = [width, height, length];
    proof {
        lemma_axis_sizes(gw, gh, gl, d as int);
    }
    let slice_size = sizes[fd.slice_axis];
    let u_size = sizes[fd.u_axis];
    let v_size = sizes[fd.v_axis];
    proof {
        assert(slice_size == num_slices(gw, gh, gl, d as int));
        assert(u_size == mask_us(gw, gh, gl, d as int));
        assert(v_size == mask_vs(gw, gh, gl, d as int));
    }
    let mut qs: Vec<GridQuad> = Vec::new();
    let mut s: usize = 0;
    while s < slice_size
        invariant
            tables_wf(*t),
            grid_ok(blocks@, gw, gh, gl),
            gw == width && gh == height && gl == length,
            d < 6,
            fd == face_def_spec(d as int),
            slice_size == num_slices(gw, gh, gl, d as int),
            u_size == mask_us(gw, gh, gl, d as int),
            v_size == mask_vs(gw, gh, gl, d as int),
            0 <= s <= slice_size,
            qs@.len() == face_rects(*t, blocks@, gw, gh, gl, d as int, s as int).len(),
            forall|i: int| 0 <= i < qs@.len() ==> #[trigger] quad_ok(qs@[i], *t, blocks@, gw, gh, gl, d as int, face_rects(*t, blocks@, gw, gh, gl, d as int, s as int)[i].0, face_rects(*t, blocks@, gw, gh, gl, d as int, s as int)[i].1),
        decreases slice_size - s,
    {
        let mask = build_slice_mask(t, blocks, width, height, length, d, s);
        let rs = greedy_merge(&mask, u_size, v_size);
        let ml = mask.len();
        let ghost fr = face_rects(*t, blocks@, gw, gh, gl, d as int, s as int);
        let ghost base_len = qs@.len();
        let nr = rs.len();
        let mut k: usize = 0;
        while k < nr
            invariant
                tables_wf(*t),
                grid_ok(blocks@, gw, gh, gl),
                gw == width && gh == height && gl == length,
                d < 6,
                fd == face_def_spec(d as int),
                s < slice_size,
                slice_size == num_slices(gw, gh, gl, d as int),
                u_size == mask_us(gw, gh, gl, d as int),
                v_size == mask_vs(gw, gh, gl, d as int),
                mask@ == slice_mask(*t, blocks@, gw, gh, gl, d as int, s as int),
                is_greedy_cover(mask@, u_size as int, v_size as int, rs@),
                ml == mask@.len(),
                rs@ == slice_rects(*t, blocks@, gw, gh, gl, d as int, s as int),
                nr == rs@.len(),
                fr == face_rects(*t, blocks@, gw, gh, gl, d as int, s as int),
                base_len == fr.len(),
                0 <= k <= nr,
                qs@.len() == base_len + k,
                forall|i: int| 0 <= i < base_len ==> #[trigger] quad_ok(qs@[i], *t, blocks@, gw, gh, gl, d as int, fr[i].0, fr[i].1),
                forall|j: int| 0 <= j < k ==> #[trigger] quad_ok(qs@[base_len + j], *t, blocks@, gw, gh, gl, d as int, s as int, rs@[j]),
            decreases nr - k,
        {
            let r = rs[k];
            proof {
                assert(greedy_step(mask@, u_size as int, v_size as int, rs@, k as int));
                lemma_cell_index(r.u as int, r.v as int, u_size as int, v_size as int);
                assert(r.u * v_size + r.v < ml);
            }
            let verts = build_quad_verts(s, r.u, r.v, r.u + r.w, r.v + r.h, &fd);
            let ci = r.u * v_size + r.v;
            let c = mask[ci].unwrap();
            proof {
                let i = ci as int;
                let vs = v_size as int;
                vstd::arithmetic::div_mod::lemma_fundamental_div_mod_converse(i, vs, r.u as int, r.v as int);
                assert(mask@[i] == cell_class(*t, blocks@, gw, gh, gl, d as int, s as int, r.u as int, r.v as int));
            }
            let name = match &t.base[c] {
                Some(b) => get_material_name(b.as_str()),
                None => {
                    proof {
                        assert(false);
                    }
                    String::new()
                },
            };
            let ghost old_qs = qs@;
            qs.push(GridQuad { vertices: verts, face: d, block_type: name });
            proof {
                assert forall|i: int| 0 <= i < base_len implies #[trigger] quad_ok(qs@[i], *t, blocks@, gw, gh, gl, d as int, fr[i].0, fr[i].1) by {
                    assert(qs@[i] == old_qs[i]);
                }
                assert forall|j: int| 0 <= j < k + 1 implies #[trigger] quad_ok(qs@[base_len + j], *t, blocks@, gw, gh, gl, d as int, s as int, rs@[j]) by {
                    if j < k {
                        assert(qs@[base_len + j] == old_qs[base_len + j]);
                    } else {
                        assert(mask_at(mask@, v_size as int, r.u as int, r.v as int) == Some(c));
                    }
                }
            }
            k += 1;
        }
        proof {
            let fr2 = face_rects(*t, blocks@, gw, gh, gl, d as int, s + 1);
            assert(fr2 == fr + rs@.map_values(|r: Rect| (s as int, r)));
            assert forall|i: int| 0 <= i < qs@.len() implies #[trigger] quad_ok(qs@[i], *t, blocks@, gw, gh, gl, d as int, fr2[i].0, fr2[i].1) by {
                if i >= base_len {
                    let j = i - base_len;
                    assert(quad_ok(qs@[base_len + j], *t, blocks@, gw, gh, gl, d as int, s as int, rs@[j]));
                    assert(fr2[i] == (s as int, rs@[j]));
                } else {
                    assert(fr2[i] == fr[i]);
                }
            }
        }
        s += 1;
    }
    qs
}

/// The rectangles of the first `d_end` face directions, each with its
/// direction and slice, in direction order.
pub open spec fn all_rects(t: PaletteTables, blocks: Seq<i32>, w: int, h: int, l: int, d_end: int) -> Seq<(int, int, Rect)>
    decreases d_end,
{
    if d_end <= 0 {
        Seq::empty()
    } else {
        all_rects(t, blocks, w, h, l, d_end - 1) + face_rects(t, blocks, w, h, l, d_end - 1, num_slices(w, h, l, d_end - 1)).map_values(
            |x: (int, Rect)| (d_end - 1, x.0, x.1),
        )
    }
}

/// `qs` are the quads of all six face directions, in order.
pub open spec fn all_quads_ok(qs: Seq<GridQuad>, t: PaletteTables, blocks: Seq<i32>, w: int, h: int, l: int) -> bool {
    let ar = all_rects(t, blocks, w, h, l, 6);
    &&& qs.len() == ar.len()
    &&& forall|i: int| 0 <= i < qs.len() ==> #[trigger] quad_ok(qs[i], t, blocks, w, h, l, ar[i].0, ar[i].1, ar[i].2)
}

proof fn lemma_tables_wf(t: PaletteTables, pal: Seq<(i32, String)>, gen: Seq<String>, solid: Seq<String>)
    requires
        tables_ok(t, pal, gen, solid),
    ensures
        tables_wf(t),
{
    assert forall|i: int| 0 <= i < t.max_idx + 1 && #[trigger] t.generate@[i] implies t.class@[i] < t.max_idx + 1 && t.base@[t.class@[i] as int] is Some by {
        assert(generates(pal, gen, i));
        let c = t.class@[i] as int;
        assert(is_class_of(pal, i, c));
        match t.base@[c] {
            Some(b) => {},
            None => {
                assert(!has_key(pal, c));
            },
        }
    }
}

/// One step of a scan over the six face directions that reports its
/// progress: report `done` of `total`, or mesh one direction, or stop.
#[derive(Clone, Copy, Debug, PartialEq, Eq, Structural)]
pub enum ScanAction {
    Report(u32, u32),
    Generate(usize),
    Finish,
}

/// What the scan does at step `k`: before each direction `d` it reports
/// `d + 1` of 6 and then meshes `d`; after the last it reports 6 of 6 and
/// stops.
pub open spec fn scan_action(k: nat) -> ScanAction {
    if k < 12 {
        if k % 2 == 0 {
            ScanAction::Report((k / 2 + 1) as u32, 6)
        } else {
            ScanAction::Generate((k / 2) as usize)
        }
    } else if k == 12 {
        ScanAction::Report(6, 6)
    } else {
        ScanAction::Finish
    }
}

/// The step after `k` steps of the scan; the caller reports, meshes, or
/// stops as told, and stops as well when a report fails.
pub fn scan_step(k: usize) -> (a: ScanAction)
    ensures
        a == scan_action(k as nat),
{
    if k < 12 {
        if k % 2 == 0 {
            ScanAction::Report((k / 2 + 1) as u32, 6)
        } else {
            ScanAction::Generate(k / 2)
        }
    } else if k == 12 {
        ScanAction::Report(6, 6)
    } else {
        ScanAction::Finish
    }
}

/// Greedy-meshed quads of a block grid: for each of the six face
/// directions (+x, -x, +y, -y, +z, -z), each slice across it, the greedy
/// rectangles of the faces drawn there.  A face is drawn where its block
/// is in the palette with a base name that needs geometry and its
/// neighbour across the face is not a solid block of the grid; faces of
/// blocks with the same base name merge.
///
/// `blocks` holds palette keys, x-major (`x * height * length + y *
/// length + z`).  The palette's keys are distinct (it is a map) and, when
/// it is not empty, its largest key is not negative.
pub fn generate_greedy_quads(
    blocks: &Vec<i32>,
    palette: &Vec<(i32, String)>,
    width: usize,
    height: usize,
    length: usize,
    should_generate: &Vec<String>,
    solid_for_culling: &Vec<String>,
) -> (qs: Vec<GridQuad>)
    requires
        grid_ok(blocks@, width as int, height as int, length as int),
        keys_distinct(palette@),
        palette@.len() == 0 || exists|e: int| 0 <= e < palette@.len() && #[trigger] palette@[e].0 >= 0,
    ensures
        exists|t: PaletteTables|
            #[trigger] tables_ok(t, palette@, should_generate@, solid_for_culling@) && all_quads_ok(
                qs@,
                t,
                blocks@,
                width as int,
                height as int,
                length as int,
            ),
{
    let t = build_palette_tables(palette, should_generate, solid_for_culling);
    proof {
        lemma_tables_wf(t, palette@, should_generate@, solid_for_culling@);
    }
    let ghost gw = width as int;
    let ghost gh = height as int;
    let ghost gl = length as int;
    let mut qs: Vec<GridQuad> = Vec::new();
    let mut d: usize = 0;
    while d < 6
        invariant
            tables_wf(t),
            grid_ok(blocks@, gw, gh, gl),
            gw == width && gh == height && gl == length,
            0 <= d <= 6,
            qs@.len() == all_rects(t, blocks@, gw, gh, gl, d as int).len(),
            forall|i: int| 0 <= i < qs@.len() ==> #[trigger] quad_ok(qs@[i], t, blocks@, gw, gh, gl, all_rects(t, blocks@, gw, gh, gl, d as int)[i].0, all_rects(t, blocks@, gw, gh, gl, d as int)[i].1, all_rects(t, blocks@, gw, gh, gl, d as int)[i].2),
        decreases 6 - d,
    {
        let mut fq = generate_face_quads(&t, blocks, width, height, length, d);
        let ghost ar = all_rects(t, blocks@, gw, gh, gl, d as int);
        let ghost fr = face_rects(t, blocks@, gw, gh, gl, d as int, num_slices(gw, gh, gl, d as int));
        let ghost old_qs = qs@;
        let ghost fq0 = fq@;
        qs.append(&mut fq);
        proof {
            let ar2 = all_rects(t, blocks@, gw, gh, gl, d + 1);
            assert(ar2 == ar + fr.map_values(|x: (int, Rect)| (d as int, x.0, x.1)));
            assert(qs@ == old_qs + fq0);
            assert forall|i: int| 0 <= i < qs@.len() implies #[trigger] quad_ok(qs@[i], t, blocks@, gw, gh, gl, ar2[i].0, ar2[i].1, ar2[i].2) by {
                if i < old_qs.len() {
                    assert(ar2[i] == ar[i]);
                    assert(qs@[i] == old_qs[i]);
                } else {
                    let j = i - old_qs.len();
                    assert(quad_ok(fq0[j], t, blocks@, gw, gh, gl, d as int, fr[j].0, fr[j].1));
                    assert(qs@[i] == fq0[j]);
                    assert(ar2[i] == (d as int, fr[j].0, fr[j].1));
                }
            }
        }
        d += 1;
    }
    proof {
        assert(tables_ok(t, palette@, should_generate@, solid_for_culling@));
    }
    qs
}

// ─── laws ────────────────────────────────────────────────────────────
/// What a mask cell means in terms of the palette: a face is drawn
/// exactly when its block's key is in the palette with a base name that
/// needs geometry, and its neighbour across the face is not a solid block
/// inside the grid (hidden faces are culled).  A drawn face holds the
/// material class of its block (the smallest key with the same base
/// name), whose base name is the block's.
pub proof fn lemma_cell_meaning(
    t: PaletteTables,
    pal: Seq<(i32, String)>,
    gen: Seq<String>,
    solid: Seq<String>,
    blocks: Seq<i32>,
    w: int,
    h: int,
    l: int,
    d: int,
    s: int,
    u: int,
    v: int,
)
    requires
        tables_ok(t, pal, gen, solid),
    ensures
        ({
            let fd = face_def_spec(d);
            let x = axis_pick(fd, 0, s, u, v);
            let y = axis_pick(fd, 1, s, u, v);
            let z = axis_pick(fd, 2, s, u, v);
            let id = block_at(blocks, h, l, x, y, z);
            let nx = x + fd.neighbor_offset.0;
            let ny = y + fd.neighbor_offset.1;
            let nz = z + fd.neighbor_offset.2;
            let hidden = 0 <= nx < w && 0 <= ny < h && 0 <= nz < l && culls(pal, solid, block_at(blocks, h, l, nx, ny, nz));
            let cell = cell_class(t, blocks, w, h, l, d, s, u, v);
            &&& (cell is Some <==> generates(pal, gen, id) && !hidden)
            &&& (cell is Some ==> is_class_of(pal, id, cell->0 as int) && t.base@[cell->0 as int] is Some && t.base@[cell->0 as int]->0@ == base_of(pal, id))
        }),
{
    let fd = face_def_spec(d);
    let x = axis_pick(fd, 0, s, u, v);
    let y = axis_pick(fd, 1, s, u, v);
    let z = axis_pick(fd, 2, s, u, v);
    let id = block_at(blocks, h, l, x, y, z);
    let nx = x + fd.neighbor_offset.0;
    let ny = y + fd.neighbor_offset.1;
    let nz = z + fd.neighbor_offset.2;
    let nid = block_at(blocks, h, l, nx, ny, nz);
    if generates(pal, gen, id) {
        let e = choose|e: int| 0 <= e < pal.len() && #[trigger] pal[e].0 == id;
        assert(pal[e].0 >= 0);
        assert(id <= t.max_idx);
        assert(t.generate@[id] == generates(pal, gen, id));
        let c = t.class@[id] as int;
        assert(is_class_of(pal, id, c));
        assert(t.base@[c] is Some);
    }
    if 0 <= id <= t.max_idx && t.generate@[id] {
        assert(t.generate@[id] == generates(pal, gen, id));
    }
    if culls(pal, solid, nid) {
        let e = choose|e: int| 0 <= e < pal.len() && #[trigger] pal[e].0 == nid;
        assert(pal[e].0 >= 0);
        assert(t.solid@[nid] == culls(pal, solid, nid));
    }
    if 0 <= nid <= t.max_idx && t.solid@[nid] {
        assert(t.solid@[nid] == culls(pal, solid, nid));
    }
}

/// The component of a triple along axis `a` (0 for x, 1 for y, 2 for z).
pub open spec fn along(p: (i32, i32, i32), a: int) -> int {
    if a == 0 {
        p.0 as int
    } else if a == 1 {
        p.1 as int
    } else {
        p.2 as int
    }
}

/// The letter that names axis `a`.
pub open spec fn axis_letter(a: int) -> char {
    if a == 0 {
        'x'
    } else if a == 1 {
        'y'
    } else {
        'z'
    }
}

/// The six face directions are the six outward unit steps of a block:
/// each uses three different axes; its normal is the unit step along its
/// slice axis, toward the positive side exactly for a positive face; the
/// neighbour whose solidity culls the face lies one such step outward
/// (the offset equals the normal); its name is the sign and the letter of
/// that step; and no two directions share an axis and a sign.
pub proof fn lemma_face_directions()
    ensures
        forall|d: int|
            0 <= d < 6 ==> {
                let fd = #[trigger] face_def_spec(d);
                &&& fd.slice_axis < 3 && fd.u_axis < 3 && fd.v_axis < 3
                &&& fd.slice_axis != fd.u_axis && fd.slice_axis != fd.v_axis && fd.u_axis != fd.v_axis
                &&& fd.neighbor_offset == fd.normal_mc
                &&& forall|a: int|
                    0 <= a < 3 ==> #[trigger] along(fd.normal_mc, a) == if a == fd.slice_axis {
                        if fd.pos_dir {
                            1int
                        } else {
                            -1int
                        }
                    } else {
                        0int
                    }
                &&& face_dir_spec(d) == seq![if fd.pos_dir { '+' } else { '-' }, axis_letter(fd.slice_axis as int)]
            },
        forall|d1: int, d2: int|
            0 <= d1 < 6 && 0 <= d2 < 6 && d1 != d2 ==> #[trigger] face_def_spec(d1).slice_axis != #[trigger] face_def_spec(d2).slice_axis
                || face_def_spec(d1).pos_dir != face_def_spec(d2).pos_dir,
{
    reveal_strlit("+x");
    reveal_strlit("-x");
    reveal_strlit("+y");
    reveal_strlit("-y");
    reveal_strlit("+z");
    reveal_strlit("-z");
    assert(face_dir_spec(0) =~= seq!['+', 'x']);
    assert(face_dir_spec(1) =~= seq!['-', 'x']);
    assert(face_dir_spec(2) =~= seq!['+', 'y']);
    assert(face_dir_spec(3) =~= seq!['-', 'y']);
    assert(face_dir_spec(4) =~= seq!['+', 'z']);
    assert(face_dir_spec(5) =~= seq!['-', 'z']);
}

/// The difference of two corners.
pub open spec fn corner_diff(a: (usize, usize, usize), b: (usize, usize, usize)) -> (int, int, int) {
    (a.0 - b.0, a.1 - b.1, a.2 - b.2)
}

/// The cross product of two vectors.
pub open spec fn cross(a: (int, int, int), b: (int, int, int)) -> (int, int, int) {
    (a.1 * b.2 - a.2 * b.1, a.2 * b.0 - a.0 * b.2, a.0 * b.1 - a.1 * b.0)
}

/// The coordinate of a corner along axis `a`.
pub open spec fn corner_along(c: (usize, usize, usize), a: int) -> int {
    if a == 0 {
        c.0 as int
    } else if a == 1 {
        c.1 as int
    } else {
        c.2 as int
    }
}

/// A quad on a slice lies on the outward side of the blocks of that slice
/// (one further along the slice axis for a positive face), spans the
/// rectangle given on its face axes, and winds outward: the cross product
/// of its first two edges from the first corner is the normal of its
/// direction scaled by the rectangle's area.
pub proof fn lemma_quad_winds_outward(d: int, s: int, u0: int, v0: int, u1: int, v1: int)
    requires
        0 <= d < 6,
        0 <= s,
        s + 1 <= usize::MAX,
        0 <= u0 <= u1 <= usize::MAX,
        0 <= v0 <= v1 <= usize::MAX,
    ensures
        ({
            let fd = face_def_spec(d);
            let q = quad_verts_spec(fd, s, u0, v0, u1, v1);
            let n = fd.normal_mc;
            let area = (u1 - u0) * (v1 - v0);
            &&& q.len() == 4
            &&& forall|i: int| 0 <= i < 4 ==> #[trigger] corner_along(q[i], fd.slice_axis as int) == if fd.pos_dir { s + 1 } else { s }
            &&& corner_along(q[0], fd.u_axis as int) == u0 && corner_along(q[0], fd.v_axis as int) == v0
            &&& corner_along(q[2], fd.u_axis as int) == u1 && corner_along(q[2], fd.v_axis as int) == v1
            &&& cross(corner_diff(q[1], q[0]), corner_diff(q[2], q[0])) == (area * n.0, area * n.1, area * n.2)
        }),
{
    let fd = face_def_spec(d);
    let q = quad_verts_spec(fd, s, u0, v0, u1, v1);
    let du = u1 - u0;
    let dv = v1 - v0;
    let sd = if fd.pos_dir { s + 1 } else { s };
    let area = du * dv;
    assert(du * dv == dv * du) by (nonlinear_arith);
    let e = cross(corner_diff(q[1], q[0]), corner_diff(q[2], q[0]));
    if d == 0 {
        // corners (x, y, z) = (sd, v, u), order c0, c3, c2, c1
        assert(corner_diff(q[1], q[0]) == (0int, dv, 0int));
        assert(corner_diff(q[2], q[0]) == (0int, dv, du));
        assert(e == (dv * du - 0 * dv, 0 * 0 - 0 * du, 0 * dv - dv * 0));
    } else if d == 1 {
        assert(corner_diff(q[1], q[0]) == (0int, 0int, du));
        assert(corner_diff(q[2], q[0]) == (0int, dv, du));
        assert(e == (0 * du - du * dv, du * 0 - 0 * du, 0 * dv - 0 * 0));
    } else if d == 2 {
        // corners (x, y, z) = (u, sd, v), order c0, c3, c2, c1
        assert(corner_diff(q[1], q[0]) == (0int, 0int, dv));
        assert(corner_diff(q[2], q[0]) == (du, 0int, dv));
        assert(e == (0 * dv - dv * 0, dv * du - 0 * dv, 0 * 0 - 0 * du));
    } else if d == 3 {
        assert(corner_diff(q[1], q[0]) == (du, 0int, 0int));
        assert(corner_diff(q[2], q[0]) == (du, 0int, dv));
        assert(e == (0 * dv - 0 * 0, 0 * du - du * dv, du * 0 - 0 * du));
    } else if d == 4 {
        // corners (x, y, z) = (v, u, sd), order c0, c3, c2, c1
        assert(corner_diff(q[1], q[0]) == (dv, 0int, 0int));
        assert(corner_diff(q[2], q[0]) == (dv, du, 0int));
        assert(e == (0 * 0 - 0 * du, 0 * dv - dv * 0, dv * du - 0 * dv));
    } else {
        assert(corner_diff(q[1], q[0]) == (0int, du, 0int));
        assert(corner_diff(q[2], q[0]) == (dv, du, 0int));
        assert(e == (du * 0 - 0 * du, 0 * dv - 0 * 0, 0 * du - du * dv));
    }
    assert(0 * du == 0 && 0 * dv == 0 && du * 0 == 0 && dv * 0 == 0 && 0int * 0int == 0) by (nonlinear_arith);
    assert(area * 1 == area && area * 0 == 0 && area * -1 == -area) by (nonlinear_arith);
}

proof fn lemma_rect_cell(mask: Seq<Option<usize>>, us: int, vs: int, rs: Seq<Rect>, k: int, u: int, v: int)
    requires
        is_greedy_cover(mask, us, vs, rs),
        0 <= k < rs.len(),
        in_rect(rs[k], u, v),
    ensures
        0 <= u < us && 0 <= v < vs && mask_at(mask, vs, u, v) is Some
            && mask_at(mask, vs, u, v) == mask_at(mask, vs, rs[k].u as int, rs[k].v as int),
{
    assert(greedy_step(mask, us, vs, rs, k));
    let r = rs[k];
    let m = mask_at(mask, vs, r.u as int, r.v as int);
    assert(free(mask, vs, rs.take(k), m, r.u + (u - r.u), r.v + (v - r.v)));
}

proof fn lemma_rects_disjoint(mask: Seq<Option<usize>>, us: int, vs: int, rs: Seq<Rect>, k1: int, k2: int, u: int, v: int)
    requires
        is_greedy_cover(mask, us, vs, rs),
        0 <= k1 < k2 < rs.len(),
        in_rect(rs[k1], u, v),
    ensures
        !in_rect(rs[k2], u, v),
{
    if in_rect(rs[k2], u, v) {
        assert(greedy_step(mask, us, vs, rs, k2));
        let r = rs[k2];
        let m = mask_at(mask, vs, r.u as int, r.v as int);
        assert(free(mask, vs, rs.take(k2), m, r.u + (u - r.u), r.v + (v - r.v)));
        assert(rs.take(k2)[k1] == rs[k1]);
        assert(covered(rs.take(k2), u, v));
    }
}

/// The greedy cover partitions the drawn faces: every cell that holds a
/// material lies in exactly one rectangle, no rectangle holds an empty
/// cell, and all cells of a rectangle hold the same material.
pub proof fn lemma_greedy_cover_partitions(mask: Seq<Option<usize>>, us: int, vs: int, rs: Seq<Rect>)
    requires
        is_greedy_cover(mask, us, vs, rs),
    ensures
        forall|u: int, v: int| 0 <= u < us && 0 <= v < vs && #[trigger] mask_at(mask, vs, u, v) is Some ==> covered(rs, u, v),
        forall|k: int, u: int, v: int|
            0 <= k < rs.len() && #[trigger] in_rect(rs[k], u, v) ==> 0 <= u < us && 0 <= v < vs && mask_at(mask, vs, u, v) is Some
                && mask_at(mask, vs, u, v) == mask_at(mask, vs, rs[k].u as int, rs[k].v as int),
        forall|k1: int, k2: int, u: int, v: int|
            0 <= k1 < k2 < rs.len() && #[trigger] in_rect(rs[k1], u, v) ==> !#[trigger] in_rect(rs[k2], u, v),
{
    assert forall|k: int, u: int, v: int| 0 <= k < rs.len() && #[trigger] in_rect(rs[k], u, v) implies 0 <= u < us && 0 <= v < vs && mask_at(mask, vs, u, v) is Some
        && mask_at(mask, vs, u, v) == mask_at(mask, vs, rs[k].u as int, rs[k].v as int) by {
        lemma_rect_cell(mask, us, vs, rs, k, u, v);
    }
    assert forall|k1: int, k2: int, u: int, v: int| 0 <= k1 < k2 < rs.len() && #[trigger] in_rect(rs[k1], u, v) implies !#[trigger] in_rect(rs[k2], u, v) by {
        lemma_rects_disjoint(mask, us, vs, rs, k1, k2, u, v);
    }
}

} // verus!
