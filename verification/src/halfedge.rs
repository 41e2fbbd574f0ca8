//! Half-edge mesh builder.
//!
//! Turns a list of polygonal faces (each a cycle of rounded vertex
//! positions) into the half-edge topology that Source 2 polygon meshes
//! use.  Half-edges are stored as consecutive twin pairs:
//! `[he0, twin0, he1, twin1, ...]`, so the twin of `h` is `h ^ 1`.
use crate::fxmap::{group_of_contents, group_of_get, group_of_insert, group_of_new, incoming_lists_contents, incoming_lists_get, incoming_lists_insert, incoming_lists_new, incoming_lists_remove, outgoing_sets_contents, outgoing_sets_get, outgoing_sets_insert, outgoing_sets_keys, outgoing_sets_new, edge_lists_contents, edge_lists_get, edge_lists_insert, edge_lists_new, edge_lists_remove, EdgeKey, EdgeLists, vertex_ids_contains, vertex_ids_contents, vertex_ids_get, vertex_ids_insert, vertex_ids_new, VertexIds, VertexKey};
use std::collections::BTreeSet;
use vstd::prelude::*;

verus! {

// ─── corner numbering ────────────────────────────────────────────────
/// Number of corners in the faces before face `f`: the flat index of
/// face `f`'s first corner.
pub open spec fn corner_offset(faces: Seq<Vec<VertexKey>>, f: int) -> int
    decreases f,
{
    if f <= 0 {
        0
    } else {
        corner_offset(faces, f - 1) + faces[f - 1]@.len()
    }
}

/// Number of corners of all faces.
pub open spec fn total_corners(faces: Seq<Vec<VertexKey>>) -> int {
    corner_offset(faces, faces.len() as int)
}

/// `(f, k)` names a corner: face `f`, its `k`-th vertex.
pub open spec fn is_corner(faces: Seq<Vec<VertexKey>>, f: int, k: int) -> bool {
    0 <= f < faces.len() && 0 <= k < faces[f]@.len()
}

proof fn lemma_offset_mono(faces: Seq<Vec<VertexKey>>, f1: int, f2: int)
    requires
        0 <= f1 <= f2 <= faces.len(),
    ensures
        corner_offset(faces, f1) <= corner_offset(faces, f2),
    decreases f2 - f1,
{
    if f1 < f2 {
        lemma_offset_mono(faces, f1, f2 - 1);
    }
}

proof fn lemma_offset_nonneg(faces: Seq<Vec<VertexKey>>, f: int)
    requires
        0 <= f <= faces.len(),
    ensures
        0 <= corner_offset(faces, f),
{
    lemma_offset_mono(faces, 0, f);
}

/// Distinct corners have distinct flat indices.
proof fn lemma_corner_flat_unique(faces: Seq<Vec<VertexKey>>, f1: int, k1: int, f2: int, k2: int)
    requires
        is_corner(faces, f1, k1),
        is_corner(faces, f2, k2),
        corner_offset(faces, f1) + k1 == corner_offset(faces, f2) + k2,
    ensures
        f1 == f2,
        k1 == k2,
{
    if f1 < f2 {
        lemma_offset_mono(faces, f1 + 1, f2);
    } else if f2 < f1 {
        lemma_offset_mono(faces, f2 + 1, f1);
    }
}

/// The flat arrays hold corner `(f, k)` at its flat index.
pub open spec fn flat_ok(
    faces: Seq<Vec<VertexKey>>,
    keys: Seq<VertexKey>,
    cface: Seq<usize>,
    f: int,
    k: int,
) -> bool {
    &&& keys[corner_offset(faces, f) + k] == faces[f]@[k]
    &&& cface[corner_offset(faces, f) + k] == f
}

/// The flattened corners: their keys, the face of each, and the first
/// flat index of each face.
fn flatten_corners(faces: &Vec<Vec<VertexKey>>) -> (res: (Vec<VertexKey>, Vec<usize>, Vec<usize>))
    requires
        total_corners(faces@) <= i32::MAX,
    ensures
        res.0@.len() == total_corners(faces@),
        res.1@.len() == total_corners(faces@),
        res.2@.len() == faces@.len(),
        forall|f: int|
            0 <= f < faces@.len() ==> #[trigger] res.2@[f] == corner_offset(faces@, f),
        forall|f: int, k: int|
            is_corner(faces@, f, k) ==> #[trigger] flat_ok(faces@, res.0@, res.1@, f, k),
        forall|p: int|
            0 <= p < total_corners(faces@) ==> {
                let f = #[trigger] res.1@[p] as int;
                &&& 0 <= f < faces@.len()
                &&& corner_offset(faces@, f) <= p < corner_offset(faces@, f) + faces@[f]@.len()
                &&& res.0@[p] == faces@[f]@[p - corner_offset(faces@, f)]
            },
{
    let mut keys: Vec<VertexKey> = Vec::new();
    let mut cface: Vec<usize> = Vec::new();
    let mut first: Vec<usize> = Vec::new();
    let nf = faces.len();
    let mut fi: usize = 0;
    while fi < nf
        invariant
            nf == faces@.len(),
            0 <= fi <= nf,
            total_corners(faces@) <= i32::MAX,
            keys@.len() == corner_offset(faces@, fi as int),
            cface@.len() == keys@.len(),
            first@.len() == fi,
            forall|f: int| 0 <= f < fi ==> #[trigger] first@[f] == corner_offset(faces@, f),
            forall|f: int, k: int|
                is_corner(faces@, f, k) && f < fi ==> #[trigger] flat_ok(faces@, keys@, cface@, f, k),
            forall|p: int|
                0 <= p < keys@.len() ==> {
                    let f = #[trigger] cface@[p] as int;
                    &&& 0 <= f < fi
                    &&& corner_offset(faces@, f) <= p < corner_offset(faces@, f)
                        + faces@[f]@.len()
                    &&& keys@[p] == faces@[f]@[p - corner_offset(faces@, f)]
                },
        decreases nf - fi,
    {
        proof {
            lemma_offset_mono(faces@, fi as int + 1, nf as int);
        }
        let face = &faces[fi];
        first.push(keys.len());
        let n = face.len();
        let ghost base = keys@.len();
        let mut k: usize = 0;
        while k < n
            invariant
                nf == faces@.len(),
                0 <= fi < nf,
                face == faces@[fi as int],
                n == face@.len(),
                0 <= k <= n,
                base == corner_offset(faces@, fi as int),
                base + n <= total_corners(faces@),
                total_corners(faces@) <= i32::MAX,
                keys@.len() == base + k,
                cface@.len() == keys@.len(),
                first@.len() == fi + 1,
                forall|f: int| 0 <= f <= fi ==> #[trigger] first@[f] == corner_offset(faces@, f),
                forall|f: int, kk: int|
                    is_corner(faces@, f, kk) && (f < fi || (f == fi && kk < k))
                        ==> #[trigger] flat_ok(faces@, keys@, cface@, f, kk),
                forall|p: int|
                    0 <= p < keys@.len() ==> {
                        let f = #[trigger] cface@[p] as int;
                        &&& 0 <= f <= fi
                        &&& corner_offset(faces@, f) <= p < corner_offset(faces@, f)
                            + faces@[f]@.len()
                        &&& keys@[p] == faces@[f]@[p - corner_offset(faces@, f)]
                    },
            decreases n - k,
        {
            let ghost old_keys = keys@;
            let ghost old_cface = cface@;
            keys.push(face[k]);
            cface.push(fi);
            k += 1;
            proof {
                assert forall|f: int, kk: int|
                    is_corner(faces@, f, kk) && (f < fi || (f == fi && kk < k)) implies #[trigger] flat_ok(
                        faces@,
                        keys@,
                        cface@,
                        f,
                        kk,
                    ) by {
                    lemma_offset_nonneg(faces@, f);
                    if f < fi || kk < k - 1 {
                        if f < fi {
                            lemma_offset_mono(faces@, f + 1, fi as int);
                        }
                        assert(flat_ok(faces@, old_keys, old_cface, f, kk));
                    }
                }
            }
        }
        fi += 1;
    }
    (keys, cface, first)
}

/// The vertices in order of first appearance: a map from each key to its
/// vertex id, and for each vertex the flat corner where its key first
/// appears.
fn collect_vertices(keys: &Vec<VertexKey>) -> (res: (VertexIds, Vec<usize>))
    requires
        keys@.len() <= i32::MAX,
    ensures
        res.1@.len() <= keys@.len(),
        forall|v: int| 0 <= v < res.1@.len() ==> #[trigger] res.1@[v] < keys@.len(),
        forall|v: int, w: int|
            0 <= v < w < res.1@.len() ==> #[trigger] res.1@[v] < #[trigger] res.1@[w],
        forall|v: int, q: int|
            0 <= v < res.1@.len() && 0 <= q < res.1@[v] ==> #[trigger] keys@[q] != keys@[#[trigger] res.1@[v] as int],
        forall|p: int|
            0 <= p < keys@.len() ==> {
                let m = vertex_ids_contents(res.0);
                &&& m.contains_key(#[trigger] keys@[p])
                &&& 0 <= m[keys@[p]] < res.1@.len()
                &&& keys@[res.1@[m[keys@[p]] as int] as int] == keys@[p]
            },
{
    let mut map = vertex_ids_new();
    let mut src: Vec<usize> = Vec::new();
    let n = keys.len();
    let mut i: usize = 0;
    while i < n
        invariant
            n == keys@.len(),
            n <= i32::MAX,
            0 <= i <= n,
            src@.len() <= i,
            forall|v: int| 0 <= v < src@.len() ==> #[trigger] src@[v] < i,
            forall|v: int, w: int|
                0 <= v < w < src@.len() ==> #[trigger] src@[v] < #[trigger] src@[w],
            forall|v: int, q: int|
                0 <= v < src@.len() && 0 <= q < src@[v] ==> #[trigger] keys@[q] != keys@[#[trigger] src@[v] as int],
            forall|k: VertexKey|
                #[trigger] vertex_ids_contents(map).contains_key(k) ==> {
                    let m = vertex_ids_contents(map);
                    &&& 0 <= m[k] < src@.len()
                    &&& keys@[src@[m[k] as int] as int] == k
                },
            forall|p: int|
                0 <= p < i ==> vertex_ids_contents(map).contains_key(#[trigger] keys@[p]),
        decreases n - i,
    {
        let key = keys[i];
        if !vertex_ids_contains(&map, &key) {
            let idx = src.len() as i32;
            vertex_ids_insert(&mut map, key, idx);
            src.push(i);
        }
        i += 1;
    }
    (map, src)
}

proof fn lemma_mod_in_range(k: int, n: int)
    requires
        0 < n,
    ensures
        0 <= k % n < n,
{
    assert(0 <= k % n < n) by (nonlinear_arith)
        requires
            0 < n,
    ;
}

/// The flat index of the corner after corner `k` of face `f`, going round
/// the face.
pub open spec fn next_corner(faces: Seq<Vec<VertexKey>>, f: int, k: int) -> int {
    corner_offset(faces, f) + (k + 1) % (faces[f]@.len() as int)
}

/// The corner edge arrays are right at corner `(f, k)`.
pub open spec fn corner_edge_ok(
    faces: Seq<Vec<VertexKey>>,
    m: Map<VertexKey, i32>,
    from: Seq<usize>,
    to: Seq<usize>,
    next: Seq<usize>,
    f: int,
    k: int,
) -> bool {
    let p = corner_offset(faces, f) + k;
    let n = faces[f]@.len() as int;
    &&& from[p] == m[faces[f]@[k]]
    &&& next[p] == next_corner(faces, f, k)
    &&& to[p] == m[faces[f]@[(k + 1) % n]]
}

/// For each flat corner: the vertex id of its key (where the half-edge
/// starts), the vertex id of the next corner (where it ends), and the
/// flat index of the next corner (the half-edge that follows it).
fn corner_edges(faces: &Vec<Vec<VertexKey>>, map: &VertexIds, nv: usize) -> (res: (
    Vec<usize>,
    Vec<usize>,
    Vec<usize>,
))
    requires
        total_corners(faces@) <= i32::MAX,
        forall|f: int, k: int|
            is_corner(faces@, f, k) ==> {
                let m = vertex_ids_contents(*map);
                &&& m.contains_key(#[trigger] faces@[f]@[k])
                &&& 0 <= m[faces@[f]@[k]] < nv
            },
    ensures
        res.0@.len() == total_corners(faces@),
        res.1@.len() == total_corners(faces@),
        res.2@.len() == total_corners(faces@),
        forall|f: int, k: int|
            is_corner(faces@, f, k) ==> #[trigger] corner_edge_ok(
                faces@,
                vertex_ids_contents(*map),
                res.0@,
                res.1@,
                res.2@,
                f,
                k,
            ),
        forall|p: int|
            0 <= p < total_corners(faces@) ==> #[trigger] res.0@[p] < nv && res.1@[p] < nv
                && res.2@[p] < total_corners(faces@),
{
    let mut from: Vec<usize> = Vec::new();
    let mut to: Vec<usize> = Vec::new();
    let mut next: Vec<usize> = Vec::new();
    let ghost m = vertex_ids_contents(*map);
    let nf = faces.len();
    let mut fi: usize = 0;
    while fi < nf
        invariant
            nf == faces@.len(),
            0 <= fi <= nf,
            m == vertex_ids_contents(*map),
            total_corners(faces@) <= i32::MAX,
            forall|f: int, k: int|
                is_corner(faces@, f, k) ==> {
                    &&& m.contains_key(#[trigger] faces@[f]@[k])
                    &&& 0 <= m[faces@[f]@[k]] < nv
                },
            from@.len() == corner_offset(faces@, fi as int),
            to@.len() == from@.len(),
            next@.len() == from@.len(),
            forall|f: int, k: int|
                is_corner(faces@, f, k) && f < fi ==> #[trigger] corner_edge_ok(
                    faces@,
                    m,
                    from@,
                    to@,
                    next@,
                    f,
                    k,
                ),
            forall|p: int|
                0 <= p < from@.len() ==> #[trigger] from@[p] < nv && to@[p] < nv && next@[p]
                    < from@.len(),
        decreases nf - fi,
    {
        proof {
            lemma_offset_mono(faces@, fi as int + 1, nf as int);
            lemma_offset_nonneg(faces@, fi as int);
        }
        let face = &faces[fi];
        let n = face.len();
        let first = from.len();
        let mut v_indices: Vec<usize> = Vec::new();
        let mut j: usize = 0;
        while j < n
            invariant
                nf == faces@.len(),
                0 <= fi < nf,
                face == faces@[fi as int],
                n == face@.len(),
                0 <= j <= n,
                v_indices@.len() == j,
                m == vertex_ids_contents(*map),
                forall|f: int, k: int|
                    is_corner(faces@, f, k) ==> {
                        &&& m.contains_key(#[trigger] faces@[f]@[k])
                        &&& 0 <= m[faces@[f]@[k]] < nv
                    },
                forall|k: int| 0 <= k < j ==> #[trigger] v_indices@[k] == m[face@[k]],
                forall|k: int| 0 <= k < j ==> #[trigger] v_indices@[k] < nv,
            decreases n - j,
        {
            assert(is_corner(faces@, fi as int, j as int));
            let id = vertex_ids_get(map, &face[j]);
            v_indices.push(id as usize);
            j += 1;
        }
        let ghost base = from@.len();
        let mut ei: usize = 0;
        while ei < n
            invariant
                nf == faces@.len(),
                0 <= fi < nf,
                face == faces@[fi as int],
                n == face@.len(),
                m == vertex_ids_contents(*map),
                v_indices@.len() == n,
                forall|k: int| 0 <= k < n ==> #[trigger] v_indices@[k] == m[face@[k]],
                forall|k: int| 0 <= k < n ==> #[trigger] v_indices@[k] < nv,
                0 <= ei <= n,
                base == first,
                base == corner_offset(faces@, fi as int),
                base + n <= total_corners(faces@),
                total_corners(faces@) <= i32::MAX,
                from@.len() == base + ei,
                to@.len() == from@.len(),
                next@.len() == from@.len(),
                forall|f: int, k: int|
                    is_corner(faces@, f, k) && (f < fi || (f == fi && k < ei))
                        ==> #[trigger] corner_edge_ok(faces@, m, from@, to@, next@, f, k),
                forall|p: int|
                    0 <= p < from@.len() ==> #[trigger] from@[p] < nv && to@[p] < nv && next@[p]
                        < base + n,
            decreases n - ei,
        {
            let ghost old_from = from@;
            let ghost old_to = to@;
            let ghost old_next = next@;
            proof {
                lemma_mod_in_range(ei as int + 1, n as int);
            }
            from.push(v_indices[ei]);
            to.push(v_indices[(ei + 1) % n]);
            next.push(first + (ei + 1) % n);
            ei += 1;
            proof {
                assert forall|f: int, k: int|
                    is_corner(faces@, f, k) && (f < fi || (f == fi && k < ei)) implies #[trigger] corner_edge_ok(
                        faces@,
                        m,
                        from@,
                        to@,
                        next@,
                        f,
                        k,
                    ) by {
                    lemma_offset_nonneg(faces@, f);
                    let pp = corner_offset(faces@, f) + k;
                    if f < fi || k < ei - 1 {
                        if f < fi {
                            lemma_offset_mono(faces@, f + 1, fi as int);
                        }
                        assert(corner_edge_ok(faces@, m, old_from, old_to, old_next, f, k));
                        assert(old_from[pp] == from@[pp]);
                        assert(old_to[pp] == to@[pp]);
                        assert(old_next[pp] == next@[pp]);
                    } else {
                        assert(pp == base + ei - 1);
                    }
                }
                assert forall|p: int| 0 <= p < from@.len() implies #[trigger] from@[p] < nv
                    && to@[p] < nv && next@[p] < base + n by {
                    if p < from@.len() - 1 {
                        assert(old_from[p] < nv && old_to[p] < nv && old_next[p] < base + n);
                    }
                }
            }
        }
        fi += 1;
    }
    proof {
        assert forall|f: int, k: int| is_corner(faces@, f, k) implies #[trigger] corner_edge_ok(
            faces@,
            m,
            from@,
            to@,
            next@,
            f,
            k,
        ) && to@[corner_offset(faces@, f) + k] == from@[next_corner(faces@, f, k)] by {
            let n = faces@[f]@.len() as int;
            let k2 = (k + 1) % n;
            lemma_mod_in_range(k + 1, n);
            assert(is_corner(faces@, f, k2));
            assert(corner_edge_ok(faces@, m, from@, to@, next@, f, k2));
        }
    }
    (from, to, next)
}

/// The directed edge key of half-edge `p`.
pub open spec fn edge_key(from: Seq<usize>, to: Seq<usize>, p: int) -> EdgeKey {
    (from[p] as i32, to[p] as i32)
}

/// An edge-list map holds, under each key, exactly the half-edges with
/// that key, in increasing order.
pub open spec fn edge_lists_ok(m: Map<EdgeKey, Seq<usize>>, from: Seq<usize>, to: Seq<usize>, n: int) -> bool {
    &&& forall|key: EdgeKey, t: int|
        #[trigger] m.contains_key(key) && 0 <= t < m[key].len() ==> {
            let p = #[trigger] m[key][t] as int;
            0 <= p < n && edge_key(from, to, p) == key
        }
    &&& forall|p: int| 0 <= p < n ==> #[trigger] listed(m, from, to, p)
    &&& forall|key: EdgeKey, t: int, u: int|
        m.contains_key(key) && 0 <= t < u < m[key].len() ==> #[trigger] m[key][t] < #[trigger] m[key][u]
}

/// Half-edge `p` appears in the list under its own key.
pub open spec fn listed(m: Map<EdgeKey, Seq<usize>>, from: Seq<usize>, to: Seq<usize>, p: int) -> bool {
    m.contains_key(edge_key(from, to, p)) && m[edge_key(from, to, p)].contains(p as usize)
}

/// Groups the half-edges by their (from, to) vertex ids.
fn build_edge_lists(from: &Vec<usize>, to: &Vec<usize>) -> (m: EdgeLists)
    requires
        from@.len() == to@.len(),
        forall|p: int| 0 <= p < from@.len() ==> #[trigger] from@[p] <= i32::MAX && to@[p] <= i32::MAX,
    ensures
        edge_lists_ok(edge_lists_contents(m), from@, to@, from@.len() as int),
{
    let mut m = edge_lists_new();
    let n = from.len();
    let mut i: usize = 0;
    while i < n
        invariant
            n == from@.len(),
            n == to@.len(),
            0 <= i <= n,
            forall|p: int| 0 <= p < n ==> #[trigger] from@[p] <= i32::MAX && to@[p] <= i32::MAX,
            forall|key: EdgeKey, t: int|
                #[trigger] edge_lists_contents(m).contains_key(key) && 0 <= t < edge_lists_contents(m)[key].len() ==> {
                    let p = #[trigger] edge_lists_contents(m)[key][t] as int;
                    0 <= p < i && edge_key(from@, to@, p) == key
                },
            forall|p: int| 0 <= p < i ==> #[trigger] listed(edge_lists_contents(m), from@, to@, p),
            forall|key: EdgeKey, t: int, u: int|
                edge_lists_contents(m).contains_key(key) && 0 <= t < u < edge_lists_contents(m)[key].len()
                    ==> #[trigger] edge_lists_contents(m)[key][t] < #[trigger] edge_lists_contents(m)[key][u],
        decreases n - i,
    {
        let key: EdgeKey = (from[i] as i32, to[i] as i32);
        let ghost old_m = edge_lists_contents(m);
        let mut list = match edge_lists_remove(&mut m, &key) {
            Some(l) => l,
            None => Vec::new(),
        };
        let ghost old_list = list@;
        list.push(i);
        edge_lists_insert(&mut m, key, list);
        proof {
            let nm = edge_lists_contents(m);
            assert(nm == old_m.insert(key, old_list.push(i)));
            assert forall|k2: EdgeKey, t: int|
                #[trigger] nm.contains_key(k2) && 0 <= t < nm[k2].len() implies {
                    let p = #[trigger] nm[k2][t] as int;
                    0 <= p < i + 1 && edge_key(from@, to@, p) == k2
                } by {
                if k2 == key {
                    if t < old_list.len() {
                        assert(nm[k2][t] == old_m[k2][t]);
                    }
                } else {
                    assert(nm[k2] == old_m[k2]);
                }
            }
            assert forall|k2: EdgeKey, t: int, u: int|
                nm.contains_key(k2) && 0 <= t < u < nm[k2].len() implies #[trigger] nm[k2][t] < #[trigger] nm[k2][u] by {
                if k2 == key {
                    if u < old_list.len() {
                        assert(nm[k2][t] == old_m[k2][t]);
                        assert(nm[k2][u] == old_m[k2][u]);
                    } else {
                        assert(nm[k2][u] == i);
                        if old_m.contains_key(key) {
                            assert(old_list == old_m[key]);
                            assert(nm[k2][t] == old_m[k2][t]);
                            assert(old_m[k2][t] < i);
                        }
                    }
                } else {
                    assert(nm[k2] == old_m[k2]);
                }
            }
            assert forall|p: int| 0 <= p < i + 1 implies #[trigger] listed(nm, from@, to@, p) by {
                if p < i {
                    let k2 = edge_key(from@, to@, p);
                    assert(listed(old_m, from@, to@, p));
                    if k2 == key {
                        let t = choose|t: int| 0 <= t < old_m[k2].len() && old_m[k2][t] == p as usize;
                        assert(nm[k2][t] == p as usize);
                    }
                } else {
                    assert(nm[key][old_list.len() as int] == i);
                }
            }
        }
        i += 1;
    }
    m
}

/// Face half-edge `j` is free to pair with `i`: another, not yet paired,
/// half-edge running the other way between the same two vertices.
pub open spec fn rev_free<T>(p: Seq<Option<usize>>, from: Seq<T>, to: Seq<T>, i: int, j: int) -> bool {
    &&& 0 <= j < p.len()
    &&& j != i
    &&& p[j] is None
    &&& from[j] == to[i]
    &&& to[j] == from[i]
}

/// The first half-edge at or after `j` that is free to pair with `i`.
pub open spec fn first_rev_free_from<T>(p: Seq<Option<usize>>, from: Seq<T>, to: Seq<T>, i: int, j: int) -> Option<int>
    decreases p.len() - j,
{
    if j < 0 || j >= p.len() {
        None
    } else if rev_free(p, from, to, i, j) {
        Some(j)
    } else {
        first_rev_free_from(p, from, to, i, j + 1)
    }
}

/// The twins after the first `i` face half-edges have been taken in
/// index order: each one not yet paired is paired with the first
/// half-edge free to pair with it, if there is one.
pub open spec fn greedy_partner<T>(from: Seq<T>, to: Seq<T>, i: nat) -> Seq<Option<usize>>
    decreases i,
{
    if i == 0 {
        Seq::new(from.len(), |q: int| None)
    } else {
        let p = greedy_partner(from, to, (i - 1) as nat);
        let a = i - 1;
        if a >= p.len() || p[a] is Some {
            p
        } else {
            match first_rev_free_from(p, from, to, a, 0) {
                Some(j) => p.update(a, Some(j as usize)).update(j, Some(a as usize)),
                None => p,
            }
        }
    }
}

proof fn lemma_first_rev_free<T>(p: Seq<Option<usize>>, from: Seq<T>, to: Seq<T>, i: int, j: int)
    requires
        0 <= j <= p.len(),
    ensures
        match first_rev_free_from(p, from, to, i, j) {
            Some(x) => j <= x < p.len() && rev_free(p, from, to, i, x) && forall|y: int| j <= y < x ==> !#[trigger] rev_free(p, from, to, i, y),
            None => forall|y: int| j <= y < p.len() ==> !#[trigger] rev_free(p, from, to, i, y),
        },
    decreases p.len() - j,
{
    if j < p.len() && !rev_free(p, from, to, i, j) {
        lemma_first_rev_free(p, from, to, i, j + 1);
    }
}

/// The pairing depends only on which half-edges run between the same
/// two ends: two labellings of the ends that agree on that pair up the
/// same way.
proof fn lemma_greedy_same<A, B>(fa: Seq<A>, ta: Seq<A>, fb: Seq<B>, tb: Seq<B>, i: nat)
    requires
        fa.len() == ta.len(),
        fb.len() == fa.len(),
        tb.len() == fa.len(),
        forall|x: int, y: int| 0 <= x < fa.len() && 0 <= y < fa.len() ==> (#[trigger] fa[y] == #[trigger] ta[x] <==> fb[y] == tb[x]),
    ensures
        greedy_partner(fa, ta, i) == greedy_partner(fb, tb, i),
    decreases i,
{
    if i > 0 {
        lemma_greedy_same(fa, ta, fb, tb, (i - 1) as nat);
        let p = greedy_partner(fa, ta, (i - 1) as nat);
        let a = i - 1;
        assert(p.len() == fa.len()) by {
            lemma_greedy_len(fa, ta, (i - 1) as nat);
        }
        if a < p.len() && p[a] is None {
            lemma_first_same(p, fa, ta, fb, tb, a, 0);
        }
    }
}

proof fn lemma_greedy_len<T>(from: Seq<T>, to: Seq<T>, i: nat)
    ensures
        greedy_partner(from, to, i).len() == from.len(),
    decreases i,
{
    if i > 0 {
        lemma_greedy_len(from, to, (i - 1) as nat);
        let p = greedy_partner(from, to, (i - 1) as nat);
        let a = i - 1;
        if a < p.len() && p[a] is None {
            lemma_first_rev_free(p, from, to, a, 0);
        }
    }
}

proof fn lemma_first_same<A, B>(p: Seq<Option<usize>>, fa: Seq<A>, ta: Seq<A>, fb: Seq<B>, tb: Seq<B>, i: int, j: int)
    requires
        p.len() == fa.len(),
        fa.len() == ta.len(),
        fb.len() == fa.len(),
        tb.len() == fa.len(),
        0 <= i < fa.len(),
        0 <= j,
        forall|x: int, y: int| 0 <= x < fa.len() && 0 <= y < fa.len() ==> (#[trigger] fa[y] == #[trigger] ta[x] <==> fb[y] == tb[x]),
    ensures
        first_rev_free_from(p, fa, ta, i, j) == first_rev_free_from(p, fb, tb, i, j),
    decreases p.len() - j,
{
    if j < p.len() {
        assert(fa[j] == ta[i] <==> fb[j] == tb[i]);
        assert(fa[i] == ta[j] <==> fb[i] == tb[j]);
        assert(rev_free(p, fa, ta, i, j) == rev_free(p, fb, tb, i, j));
        lemma_first_same(p, fa, ta, fb, tb, i, j + 1);
    }
}

// ─── corner keys in input order ──────────────────────────────────────
/// The position keys of all corners, face after face.
pub open spec fn flat_keys(fs: Seq<Vec<VertexKey>>) -> Seq<VertexKey>
    decreases fs.len(),
{
    if fs.len() == 0 {
        Seq::empty()
    } else {
        flat_keys(fs.drop_last()) + fs.last()@
    }
}

/// For each corner of a face, the key of the corner after it (round the
/// face).
pub open spec fn next_keys(face: Seq<VertexKey>) -> Seq<VertexKey> {
    Seq::new(face.len(), |k: int| face[(k + 1) % (face.len() as int)])
}

/// For each corner, face after face, the key of the corner after it.
pub open spec fn flat_next_keys(fs: Seq<Vec<VertexKey>>) -> Seq<VertexKey>
    decreases fs.len(),
{
    if fs.len() == 0 {
        Seq::empty()
    } else {
        flat_next_keys(fs.drop_last()) + next_keys(fs.last()@)
    }
}

/// The twins of the face half-edges, by the keys at their ends: each
/// corner's half-edge runs from its key to the next corner's.
pub open spec fn key_partner(fs: Seq<Vec<VertexKey>>) -> Seq<Option<usize>> {
    greedy_partner(flat_keys(fs), flat_next_keys(fs), total_corners(fs) as nat)
}

proof fn lemma_offset_prefix(fs: Seq<Vec<VertexKey>>, f: int)
    requires
        0 <= f < fs.len(),
    ensures
        corner_offset(fs.drop_last(), f) == corner_offset(fs, f),
    decreases f,
{
    if f > 0 {
        lemma_offset_prefix(fs, f - 1);
    }
}

#[verifier::spinoff_prover]
proof fn lemma_flat_keys(fs: Seq<Vec<VertexKey>>)
    ensures
        flat_keys(fs).len() == total_corners(fs),
        flat_next_keys(fs).len() == total_corners(fs),
        forall|f: int, k: int|
            is_corner(fs, f, k) ==> flat_keys(fs)[corner_offset(fs, f) + k] == #[trigger] fs[f]@[k]
                && flat_next_keys(fs)[corner_offset(fs, f) + k] == fs[f]@[(k + 1) % (fs[f]@.len() as int)],
    decreases fs.len(),
{
    if fs.len() > 0 {
        let g = fs.drop_last();
        let last = fs.len() - 1;
        lemma_flat_keys(g);
        lemma_offset_prefix(fs, last);
        assert(total_corners(g) == corner_offset(fs, last));
        assert forall|f: int, k: int|
            is_corner(fs, f, k) implies flat_keys(fs)[corner_offset(fs, f) + k] == #[trigger] fs[f]@[k]
                && flat_next_keys(fs)[corner_offset(fs, f) + k] == fs[f]@[(k + 1) % (fs[f]@.len() as int)] by {
            lemma_offset_nonneg(fs, f);
            if f < last {
                lemma_offset_prefix(fs, f);
                assert(is_corner(g, f, k));
                assert(g[f] == fs[f]);
                lemma_offset_mono(g, f + 1, last);
            } else {
                let n = fs[f]@.len() as int;
                lemma_mod_in_range(k + 1, n);
            }
        }
    }
}

#[verifier::spinoff_prover]
proof fn lemma_flat_point(
    fs: Seq<Vec<VertexKey>>,
    keys: Seq<VertexKey>,
    cface: Seq<usize>,
    first: Seq<usize>,
    ids: Map<VertexKey, i32>,
    src0: Seq<usize>,
    from: Seq<usize>,
    to: Seq<usize>,
    nextc: Seq<usize>,
    p: int,
)
    requires
        flat_facts(fs, keys, cface, first),
        id_facts(keys, ids, src0),
        edge_facts(fs, ids, from, to, nextc, src0.len() as int),
        0 <= p < total_corners(fs),
    ensures
        ids.contains_key(flat_keys(fs)[p]),
        from[p] == ids[flat_keys(fs)[p]] as int,
        ids.contains_key(flat_next_keys(fs)[p]),
        to[p] == ids[flat_next_keys(fs)[p]] as int,
        keys[src0[ids[flat_keys(fs)[p]] as int] as int] == flat_keys(fs)[p],
        keys[src0[ids[flat_next_keys(fs)[p]] as int] as int] == flat_next_keys(fs)[p],
{
    reveal(flat_facts);
    reveal(id_facts);
    reveal(edge_facts);
    lemma_flat_keys(fs);
    let fk = flat_keys(fs);
    let tk = flat_next_keys(fs);
    let f = cface[p] as int;
    let k = p - corner_offset(fs, f);
    assert(is_corner(fs, f, k));
    assert(corner_edge_ok(fs, ids, from, to, nextc, f, k));
    assert(fk[p] == fs[f]@[k]);
    let n = fs[f]@.len() as int;
    lemma_mod_in_range(k + 1, n);
    let q = corner_offset(fs, f) + (k + 1) % n;
    assert(is_corner(fs, f, (k + 1) % n));
    assert(flat_ok(fs, keys, cface, f, (k + 1) % n));
    lemma_offset_nonneg(fs, f);
    lemma_offset_mono(fs, f + 1, fs.len() as int);
    assert(keys[q] == tk[p]);
    assert(keys[p] == fk[p]);
}

/// Half-edge pairs by vertex ids are pairs by keys.
#[verifier::spinoff_prover]
proof fn lemma_partner_by_keys(
    fs: Seq<Vec<VertexKey>>,
    keys: Seq<VertexKey>,
    cface: Seq<usize>,
    first: Seq<usize>,
    ids: Map<VertexKey, i32>,
    src0: Seq<usize>,
    from: Seq<usize>,
    to: Seq<usize>,
    nextc: Seq<usize>,
    partner: Seq<Option<usize>>,
)
    requires
        flat_facts(fs, keys, cface, first),
        id_facts(keys, ids, src0),
        edge_facts(fs, ids, from, to, nextc, src0.len() as int),
        partner == greedy_partner(from, to, total_corners(fs) as nat),
    ensures
        partner == key_partner(fs),
{
    let total = total_corners(fs);
    let fk = flat_keys(fs);
    let tk = flat_next_keys(fs);
    lemma_flat_keys(fs);
    assert(from.len() == total && to.len() == total) by {
        reveal(edge_facts);
    }
    assert forall|x: int, y: int| 0 <= x < total && 0 <= y < total implies (#[trigger] from[y] == #[trigger] to[x] <==> fk[y] == tk[x]) by {
        lemma_flat_point(fs, keys, cface, first, ids, src0, from, to, nextc, x);
        lemma_flat_point(fs, keys, cface, first, ids, src0, from, to, nextc, y);
    }
    lemma_greedy_same(from, to, fk, tk, total as nat);
}

/// The first candidate that is not `i` and has no partner yet.
fn first_free_candidate(cands: &Vec<usize>, partner: &Vec<Option<usize>>, i: usize) -> (r: Option<usize>)
    requires
        forall|u: int| 0 <= u < cands@.len() ==> #[trigger] cands@[u] < partner@.len(),
    ensures
        match r {
            Some(j) => exists|t: int|
                0 <= t < cands@.len() && #[trigger] cands@[t] == j && j != i && j < partner@.len() && partner@[j as int] is None
                    && forall|u: int| 0 <= u < t ==> (#[trigger] cands@[u] == i || partner@[cands@[u] as int] is Some),
            None => forall|u: int| 0 <= u < cands@.len() ==> (#[trigger] cands@[u] == i || partner@[cands@[u] as int] is Some),
        },
{
    let nc = cands.len();
    let mut t: usize = 0;
    while t < nc
        invariant
            nc == cands@.len(),
            0 <= t <= nc,
            forall|u: int| 0 <= u < cands@.len() ==> #[trigger] cands@[u] < partner@.len(),
            forall|u: int| 0 <= u < t ==> (#[trigger] cands@[u] == i || partner@[cands@[u] as int] is Some),
        decreases nc - t,
    {
        let j = cands[t];
        if partner[j].is_none() && j != i {
            assert(cands@[t as int] == j);
            return Some(j);
        }
        t += 1;
    }
    None
}

/// Each half-edge's twin among the face half-edges, if it has one.
///
/// Half-edges are taken in index order; each one not yet paired takes the
/// first unpaired half-edge running the other way between the same two
/// vertices.  The pairing is a maximal matching of reverse edges.
fn pair_half_edges(from: &Vec<usize>, to: &Vec<usize>, lists: &EdgeLists) -> (partner: Vec<Option<usize>>)
    requires
        from@.len() == to@.len(),
        forall|p: int| 0 <= p < from@.len() ==> #[trigger] from@[p] <= i32::MAX && to@[p] <= i32::MAX,
        edge_lists_ok(edge_lists_contents(*lists), from@, to@, from@.len() as int),
    ensures
        partner@.len() == from@.len(),
        forall|i: int|
            0 <= i < partner@.len() && #[trigger] partner@[i] is Some ==> {
                let j = partner@[i]->0 as int;
                &&& 0 <= j < partner@.len()
                &&& j != i
                &&& partner@[j] == Some(i as usize)
                &&& from@[j] == to@[i]
                &&& to@[j] == from@[i]
            },
        forall|i: int, j: int|
            0 <= i < partner@.len() && 0 <= j < partner@.len() && i != j && #[trigger] partner@[i] is None
                && #[trigger] partner@[j] is None ==> !(from@[j] == to@[i] && to@[j] == from@[i]),
        partner@ == greedy_partner(from@, to@, from@.len() as nat),
{
    let n = from.len();
    let mut partner: Vec<Option<usize>> = Vec::new();
    let mut z: usize = 0;
    while z < n
        invariant
            0 <= z <= n,
            partner@.len() == z,
            forall|i: int| 0 <= i < z ==> #[trigger] partner@[i] is None,
        decreases n - z,
    {
        partner.push(None);
        z += 1;
    }
    let ghost m = edge_lists_contents(*lists);
    let mut i: usize = 0;
    while i < n
        invariant
            n == from@.len(),
            n == to@.len(),
            0 <= i <= n,
            partner@.len() == n,
            m == edge_lists_contents(*lists),
            forall|p: int| 0 <= p < n ==> #[trigger] from@[p] <= i32::MAX && to@[p] <= i32::MAX,
            edge_lists_ok(m, from@, to@, n as int),
            forall|a: int|
                0 <= a < n && #[trigger] partner@[a] is Some ==> {
                    let b = partner@[a]->0 as int;
                    &&& 0 <= b < n
                    &&& b != a
                    &&& partner@[b] == Some(a as usize)
                    &&& from@[b] == to@[a]
                    &&& to@[b] == from@[a]
                },
            forall|a: int, b: int|
                0 <= a < i && 0 <= b < n && a != b && #[trigger] partner@[a] is None
                    && from@[b] == to@[a] && to@[b] == from@[a] ==> #[trigger] partner@[b] is Some,
            partner@ == greedy_partner(from@, to@, i as nat),
        decreases n - i,
    {
        let ghost p0 = partner@;
        proof {
            assert(greedy_partner(from@, to@, (i + 1) as nat) == if p0[i as int] is Some {
                p0
            } else {
                match first_rev_free_from(p0, from@, to@, i as int, 0) {
                    Some(j) => p0.update(i as int, Some(j as usize)).update(j, Some(i as usize)),
                    None => p0,
                }
            });
            lemma_first_rev_free(p0, from@, to@, i as int, 0);
        }
        if partner[i].is_none() {
            let key: EdgeKey = (to[i] as i32, from[i] as i32);
            match edge_lists_get(lists, &key) {
                Some(cands) => {
                    proof {
                        assert forall|u: int| 0 <= u < cands@.len() implies {
                            let c = #[trigger] cands@[u] as int;
                            0 <= c < n && from@[c] == to@[i as int] && to@[c] == from@[i as int]
                        } by {
                            assert(m[key][u] == cands@[u]);
                        }
                    }
                    match first_free_candidate(cands, &partner, i) {
                        Some(j) => {
                            proof {
                                let t = choose|t: int|
                                    0 <= t < cands@.len() && #[trigger] cands@[t] == j && j != i && j < p0.len() && p0[j as int] is None
                                        && forall|u: int| 0 <= u < t ==> (#[trigger] cands@[u] == i || p0[cands@[u] as int] is Some);
                                assert(rev_free(p0, from@, to@, i as int, j as int));
                                assert forall|y: int| 0 <= y < j implies !#[trigger] rev_free(p0, from@, to@, i as int, y) by {
                                    if rev_free(p0, from@, to@, i as int, y) {
                                        assert(listed(m, from@, to@, y));
                                        assert(edge_key(from@, to@, y) == key);
                                        let u = choose|u: int| 0 <= u < cands@.len() && cands@[u] == y as usize;
                                        if u > t {
                                            assert(cands@[t] < cands@[u]);
                                        }
                                        assert(u != t);
                                        assert(cands@[u] as int == i as int || p0[cands@[u] as int] is Some);
                                    }
                                }
                                assert(first_rev_free_from(p0, from@, to@, i as int, 0) == Some(j as int));
                            }
                            partner.set(i, Some(j));
                            partner.set(j, Some(i));
                        },
                        None => {
                            proof {
                                assert forall|b: int|
                                    0 <= b < n && b != i && from@[b] == to@[i as int] && to@[b] == from@[i as int] implies #[trigger] partner@[b] is Some by {
                                    assert(listed(m, from@, to@, b));
                                    assert(edge_key(from@, to@, b) == key);
                                    let u = choose|u: int| 0 <= u < cands@.len() && cands@[u] == b as usize;
                                    assert(cands@[u] as int == i as int || partner@[cands@[u] as int] is Some);
                                }
                                assert forall|y: int| 0 <= y < n implies !#[trigger] rev_free(p0, from@, to@, i as int, y) by {
                                    if rev_free(p0, from@, to@, i as int, y) {
                                        assert(partner@[y] is Some);
                                    }
                                }
                            }
                        },
                    }
                },
                None => {
                    proof {
                        assert forall|b: int|
                            0 <= b < n && b != i && from@[b] == to@[i as int] && to@[b] == from@[i as int] implies #[trigger] partner@[b] is Some by {
                            assert(listed(m, from@, to@, b));
                            assert(edge_key(from@, to@, b) == key);
                        }
                        assert forall|y: int| 0 <= y < n implies !#[trigger] rev_free(p0, from@, to@, i as int, y) by {
                            if rev_free(p0, from@, to@, i as int, y) {
                                assert(listed(m, from@, to@, y));
                                assert(edge_key(from@, to@, y) == key);
                            }
                        }
                    }
                },
            }
        }
        i += 1;
    }
    partner
}

/// The twin slot of slot `h`: pairs are `(2q, 2q + 1)`.
pub open spec fn twin_slot(h: int) -> int {
    if h % 2 == 0 {
        h + 1
    } else {
        h - 1
    }
}

/// What the slot assignment guarantees of face half-edge slots.
pub open spec fn partner_ok(partner: Seq<Option<usize>>, from: Seq<usize>, to: Seq<usize>) -> bool {
    forall|i: int|
        0 <= i < partner.len() && #[trigger] partner[i] is Some ==> {
            let j = partner[i]->0 as int;
            &&& 0 <= j < partner.len()
            &&& j != i
            &&& partner[j] == Some(i as usize)
            &&& from[j] == to[i]
            &&& to[j] == from[i]
        }
}

/// How many face half-edges below `i` are the lower end of their pair.
#[verifier::opaque]
pub open spec fn count_lower_ends(partner: Seq<Option<usize>>, i: int) -> nat
    decreases i,
{
    if i <= 0 {
        0
    } else {
        count_lower_ends(partner, i - 1) + if partner[i - 1] matches Some(j) && i - 1 < j {
            1nat
        } else {
            0nat
        }
    }
}

/// How many face half-edges below `i` have no twin among the faces.
#[verifier::opaque]
pub open spec fn count_unpaired(partner: Seq<Option<usize>>, i: int) -> nat
    decreases i,
{
    if i <= 0 {
        0
    } else {
        count_unpaired(partner, i - 1) + if partner[i - 1] is None {
            1nat
        } else {
            0nat
        }
    }
}

/// The slot of face half-edge `p`.  Pairs come first, in the order of
/// their lower ends: the lower end takes the even slot, its twin the odd
/// one after it.  Then each unpaired half-edge, in index order, takes an
/// even slot, followed by its boundary twin.
pub open spec fn slot_of(partner: Seq<Option<usize>>, p: int) -> int {
    match partner[p] {
        Some(j) => if p < j {
            2 * count_lower_ends(partner, p) as int
        } else {
            2 * count_lower_ends(partner, j as int) as int + 1
        },
        None => 2 * count_lower_ends(partner, partner.len() as int) as int + 2 * count_unpaired(partner, p) as int,
    }
}

/// The number of half-edges: two per pair, two per unpaired face
/// half-edge.
pub open spec fn slot_count(partner: Seq<Option<usize>>) -> int {
    2 * count_lower_ends(partner, partner.len() as int) as int + 2 * count_unpaired(partner, partner.len() as int) as int
}

/// One more half-edge adds one to the count it belongs to.
proof fn lemma_count_step(partner: Seq<Option<usize>>, i: int)
    requires
        0 <= i,
    ensures
        count_lower_ends(partner, i + 1) == count_lower_ends(partner, i) + if partner[i] matches Some(j) && i < j {
            1nat
        } else {
            0nat
        },
        count_unpaired(partner, i + 1) == count_unpaired(partner, i) + if partner[i] is None {
            1nat
        } else {
            0nat
        },
        count_lower_ends(partner, 0) == 0,
        count_unpaired(partner, 0) == 0,
{
    reveal(count_lower_ends);
    reveal(count_unpaired);
}

proof fn lemma_counts_bounded(partner: Seq<Option<usize>>, i: int)
    requires
        0 <= i,
    ensures
        count_lower_ends(partner, i) <= i,
        count_unpaired(partner, i) <= i,
        count_lower_ends(partner, i) + count_unpaired(partner, i) <= i,
    decreases i,
{
    reveal(count_lower_ends);
    reveal(count_unpaired);
    if i > 0 {
        lemma_counts_bounded(partner, i - 1);
    }
}

/// What the slot passes establish.
#[verifier::spinoff_prover]
proof fn lemma_slots_final(
    partner: Seq<Option<usize>>,
    fin: Seq<Option<usize>>,
    bnd: Seq<usize>,
    twins: Seq<(usize, usize)>,
    owner: Seq<int>,
    slot: Seq<usize>,
    c0: int,
    c: int,
)
    requires
        partner.len() <= 0x3fff_ffff,
        forall|p: int| 0 <= p < partner.len() && #[trigger] partner[p] is Some ==> partner[p]->0 < partner.len(),
        fin.len() == partner.len(),
        slot.len() == partner.len(),
        forall|q: int| 0 <= q < partner.len() ==> #[trigger] fin[q] is Some,
        forall|q: int| 0 <= q < partner.len() ==> Some(#[trigger] slot[q]) == fin[q],
        forall|u: int| 0 <= u < bnd.len() ==> #[trigger] bnd[u] < partner.len() && partner[bnd[u] as int] is None,
        forall|u: int, w: int| 0 <= u < w < bnd.len() ==> #[trigger] bnd[u] < #[trigger] bnd[w],
        forall|p: int| 0 <= p < partner.len() && #[trigger] partner[p] is None ==> bnd.contains(p as usize),
        c0 % 2 == 0,
        0 <= c0 <= 2 * partner.len(),
        c == c0 + 2 * bnd.len(),
        owner.len() == c,
        twins.len() == bnd.len(),
        bnd.len() <= partner.len(),
        forall|u: int| 0 <= u < twins.len() ==> #[trigger] twins[u] == (bnd[u], (c0 + 2 * u + 1) as usize),
        forall|p: int| 0 <= p < partner.len() && #[trigger] partner[p] is Some ==> fin[p] is Some && fin[p]->0 < c0,
        forall|u: int| 0 <= u < bnd.len() ==> #[trigger] fin[bnd[u] as int] == Some((c0 + 2 * u) as usize),
        forall|p: int, q: int| 0 <= p < partner.len() && 0 <= q < partner.len() && p != q && #[trigger] fin[p] is Some && #[trigger] fin[q] is Some ==> fin[p]->0 != fin[q]->0,
        forall|p: int| 0 <= p < partner.len() && #[trigger] partner[p] is Some ==> fin[partner[p]->0 as int] == Some(twin_slot(fin[p]->0 as int) as usize),
        forall|x: int| 0 <= x < c ==> {
            let o = #[trigger] owner[x];
            &&& 0 <= o < partner.len()
            &&& (fin[o] == Some(x as usize) || (partner[o] is None && x >= c0 && fin[o] == Some((x - 1) as usize) && exists|u: int| 0 <= u < twins.len() && #[trigger] twins[u] == (o as usize, x as usize)))
        },
    ensures
        ({
            let nhe = c;
            let n = partner.len() as int;
            &&& slot.len() == n
            &&& nhe as int % 2 == 0
            &&& nhe <= 4 * n
            &&& forall|p: int| 0 <= p < n ==> #[trigger] slot[p] < nhe
            &&& forall|p: int, q: int| 0 <= p < n && 0 <= q < n && p != q ==> #[trigger] slot[p] != #[trigger] slot[q]
            &&& forall|p: int| 0 <= p < n && #[trigger] partner[p] is Some ==> slot[partner[p]->0 as int] == twin_slot(slot[p] as int)
            &&& forall|p: int| 0 <= p < n && #[trigger] partner[p] is None ==> slot[p] as int % 2 == 0
            &&& forall|t: int| 0 <= t < twins.len() ==> {
                let (i, b) = #[trigger] twins[t];
                &&& 0 <= i < n
                &&& partner[i as int] is None
                &&& b == slot[i as int] + 1
            }
            &&& forall|t: int, u: int| 0 <= t < u < twins.len() ==> (#[trigger] twins[t]).0 != (#[trigger] twins[u]).0
            &&& owner.len() == nhe
            &&& forall|x: int| 0 <= x < nhe ==> {
                let o = #[trigger] owner[x];
                &&& 0 <= o < n
                &&& (slot[o] == x || (partner[o] is None && slot[o] + 1 == x && exists|t: int| 0 <= t < twins.len() && #[trigger] twins[t] == (o as usize, x as usize)))
            }
        }),
{
    let n = partner.len() as int;
    let nb = bnd.len() as int;
    assert forall|q: int| 0 <= q < n implies fin[q] == Some(#[trigger] slot[q]) by {}
    assert forall|q: int| 0 <= q < n implies #[trigger] slot[q] < c by {
        assert(fin[q] is Some);
        if partner[q] is None {
            let u = choose|u: int| 0 <= u < bnd.len() && bnd[u] == q as usize;
            assert(0 <= c0 + 2 * u < c <= 4 * partner.len());
            assert(fin[bnd[u] as int] == Some((c0 + 2 * u) as usize));
        }
    }
    assert forall|q: int| 0 <= q < n && #[trigger] partner[q] is None implies slot[q] as int % 2 == 0 by {
        let u = choose|u: int| 0 <= u < bnd.len() && bnd[u] == q as usize;
        assert(0 <= c0 + 2 * u < c <= 4 * partner.len());
        assert(fin[bnd[u] as int] == Some((c0 + 2 * u) as usize));
    }
    assert forall|q: int| 0 <= q < n && #[trigger] partner[q] is Some implies slot[partner[q]->0 as int] == twin_slot(slot[q] as int) by {
        assert(fin[q] is Some);
        assert(fin[partner[q]->0 as int] == Some(twin_slot(fin[q]->0 as int) as usize));
    }
    assert forall|a: int, b: int| 0 <= a < n && 0 <= b < n && a != b implies #[trigger] slot[a] != #[trigger] slot[b] by {
        assert(fin[a] is Some && fin[b] is Some);
    }
    assert forall|u: int| 0 <= u < twins.len() implies {
            let (i, b) = #[trigger] twins[u];
            &&& 0 <= i < n
            &&& partner[i as int] is None
            &&& b == slot[i as int] + 1
        } by {
        assert(0 <= c0 + 2 * u < c <= 4 * partner.len());
        assert(fin[bnd[u] as int] == Some((c0 + 2 * u) as usize));
    }
    assert forall|a: int, b: int| 0 <= a < b < twins.len() implies (#[trigger] twins[a]).0 != (#[trigger] twins[b]).0 by {
        assert(bnd[a] < bnd[b]);
    }
    assert forall|x: int| 0 <= x < c implies {
            let o = #[trigger] owner[x];
            &&& 0 <= o < n
            &&& (slot[o] == x || (partner[o] is None && slot[o] + 1 == x && exists|t: int| 0 <= t < twins.len() && #[trigger] twins[t] == (o as usize, x as usize)))
        } by {
        let o = owner[x];
        assert(fin[o] == Some(slot[o]));
    }
}

/// The slots are those of `slot_of`, and there are `slot_count` of them.
#[verifier::spinoff_prover]
proof fn lemma_slots_exact(
    partner: Seq<Option<usize>>,
    fin: Seq<Option<usize>>,
    bnd: Seq<usize>,
    slot: Seq<usize>,
    c0: int,
    c: int,
)
    requires
        partner.len() <= 0x3fff_ffff,
        forall|p: int| 0 <= p < partner.len() && #[trigger] partner[p] is Some ==> partner[p]->0 < partner.len(),
        fin.len() == partner.len(),
        slot.len() == partner.len(),
        forall|q: int| 0 <= q < partner.len() ==> Some(#[trigger] slot[q]) == fin[q],
        forall|u: int| 0 <= u < bnd.len() ==> #[trigger] bnd[u] < partner.len() && partner[bnd[u] as int] is None,
        forall|p: int| 0 <= p < partner.len() && #[trigger] partner[p] is None ==> bnd.contains(p as usize),
        c == c0 + 2 * bnd.len(),
        0 <= c0,
        c <= 0xffff_ffff,
        forall|u: int| 0 <= u < bnd.len() ==> #[trigger] fin[bnd[u] as int] == Some((c0 + 2 * u) as usize),
        c0 == 2 * count_lower_ends(partner, partner.len() as int),
        bnd.len() == count_unpaired(partner, partner.len() as int),
        forall|u: int| 0 <= u < bnd.len() ==> count_unpaired(partner, #[trigger] bnd[u] as int) == u,
        forall|p: int| 0 <= p < partner.len() && #[trigger] partner[p] is Some ==> fin[p] == Some(slot_of(partner, p) as usize),
    ensures
        forall|p: int| 0 <= p < partner.len() ==> #[trigger] slot[p] as int == slot_of(partner, p),
        c == slot_count(partner),
{
    assert forall|q: int| 0 <= q < partner.len() implies #[trigger] slot[q] as int == slot_of(partner, q) by {
        assert(fin[q] == Some(slot[q]));
        if partner[q] is None {
            let u = choose|u: int| 0 <= u < bnd.len() && bnd[u] == q as usize;
            assert(0 <= c0 + 2 * u < c);
            assert(fin[bnd[u] as int] == Some((c0 + 2 * u) as usize));
            assert(count_unpaired(partner, q) == u);
        } else {
            let j = partner[q]->0 as int;
            lemma_counts_bounded(partner, q);
            lemma_counts_bounded(partner, j);
            assert(0 <= slot_of(partner, q) <= 2 * partner.len() + 1);
            assert(fin[q] == Some(slot_of(partner, q) as usize));
        }
    }
}


/// Final slots of the face half-edges.  Paired half-edges take the two
/// slots of a pair, in index order of the lower of the two; then each
/// unpaired one, in index order, takes the even slot of a new pair whose
/// odd slot is its boundary twin.  Returns the slot of each face
/// half-edge, the boundary twins as (face half-edge, twin slot), the
/// number of slots, and (ghost) the owner of each slot.
#[verifier::rlimit(100)]
#[verifier::spinoff_prover]
fn assign_slots(partner: &Vec<Option<usize>>, from: Ghost<Seq<usize>>, to: Ghost<Seq<usize>>) -> (res: (Vec<usize>, Vec<(usize, usize)>, usize, Ghost<Seq<int>>))
    requires
        partner@.len() <= 0x3fff_ffff,
        from@.len() == partner@.len(),
        to@.len() == partner@.len(),
        partner_ok(partner@, from@, to@),
    ensures
        ({
            let (slot, twins, nhe, owner) = res;
            let n = partner@.len() as int;
            &&& slot@.len() == n
            &&& nhe as int % 2 == 0
            &&& nhe <= 4 * n
            &&& forall|p: int| 0 <= p < n ==> #[trigger] slot@[p] < nhe
            &&& forall|p: int, q: int| 0 <= p < n && 0 <= q < n && p != q ==> #[trigger] slot@[p] != #[trigger] slot@[q]
            &&& forall|p: int| 0 <= p < n && #[trigger] partner@[p] is Some ==> slot@[partner@[p]->0 as int] == twin_slot(slot@[p] as int)
            &&& forall|p: int| 0 <= p < n && #[trigger] partner@[p] is None ==> slot@[p] as int % 2 == 0
            &&& forall|t: int| 0 <= t < twins@.len() ==> {
                let (i, b) = #[trigger] twins@[t];
                &&& 0 <= i < n
                &&& partner@[i as int] is None
                &&& b == slot@[i as int] + 1
            }
            &&& forall|t: int, u: int| 0 <= t < u < twins@.len() ==> (#[trigger] twins@[t]).0 != (#[trigger] twins@[u]).0
            &&& owner@.len() == nhe
            &&& forall|x: int| 0 <= x < nhe ==> {
                let o = #[trigger] owner@[x];
                &&& 0 <= o < n
                &&& (slot@[o] == x || (partner@[o] is None && slot@[o] + 1 == x && exists|t: int| 0 <= t < twins@.len() && #[trigger] twins@[t] == (o as usize, x as usize)))
            }
            &&& forall|p: int| 0 <= p < n ==> #[trigger] slot@[p] as int == slot_of(partner@, p)
            &&& nhe as int == slot_count(partner@)
        }),
{
    let n = partner.len();
    let mut fin: Vec<Option<usize>> = Vec::new();
    let mut z: usize = 0;
    while z < n
        invariant
            0 <= z <= n,
            fin@.len() == z,
            forall|i: int| 0 <= i < z ==> #[trigger] fin@[i] is None,
        decreases n - z,
    {
        fin.push(None);
        z += 1;
    }
    proof {
        lemma_count_step(partner@, 0);
    }
    let mut c: usize = 0;
    let ghost mut owner: Seq<int> = Seq::empty();
    // Paired face half-edges.
    let mut i: usize = 0;
    while i < n
        invariant
            n == partner@.len(),
            n <= 0x3fff_ffff,
            from@.len() == n,
            to@.len() == n,
            partner_ok(partner@, from@, to@),
            0 <= i <= n,
            fin@.len() == n,
            c as int % 2 == 0,
            c <= 2 * i,
            owner.len() == c,
            forall|p: int| 0 <= p < n ==> (#[trigger] fin@[p] is Some <==> (partner@[p] is Some && (p < i || partner@[p]->0 < i))),
            forall|p: int| 0 <= p < n && #[trigger] fin@[p] is Some ==> fin@[p]->0 < c,
            forall|p: int, q: int| 0 <= p < n && 0 <= q < n && p != q && #[trigger] fin@[p] is Some && #[trigger] fin@[q] is Some ==> fin@[p]->0 != fin@[q]->0,
            forall|p: int| 0 <= p < n && #[trigger] fin@[p] is Some ==> fin@[partner@[p]->0 as int] == Some(twin_slot(fin@[p]->0 as int) as usize),
            forall|x: int| 0 <= x < c ==> {
                let o = #[trigger] owner[x];
                0 <= o < n && fin@[o] == Some(x as usize)
            },
            c == 2 * count_lower_ends(partner@, i as int),
            forall|p: int| 0 <= p < n && #[trigger] fin@[p] is Some ==> fin@[p] == Some(slot_of(partner@, p) as usize),
        decreases n - i,
    {
        proof {
            lemma_counts_bounded(partner@, i as int);
            lemma_count_step(partner@, i as int);
        }
        if fin[i].is_none() {
            match partner[i] {
                Some(j) => {
                    let ghost old_fin = fin@;
                    fin.set(i, Some(c));
                    fin.set(j, Some(c + 1));
                    proof {
                        owner = owner.push(i as int).push(j as int);
                        assert forall|x: int| 0 <= x < c + 2 implies {
                            let o = #[trigger] owner[x];
                            0 <= o < n && fin@[o] == Some(x as usize)
                        } by {
                            if x < c {
                                assert(old_fin[owner[x]] == Some(x as usize));
                            }
                        }
                        assert forall|p: int| 0 <= p < n && #[trigger] fin@[p] is Some implies fin@[partner@[p]->0 as int] == Some(twin_slot(fin@[p]->0 as int) as usize) by {
                            if p != i && p != j {
                                assert(old_fin[p] is Some);
                                let q = partner@[p]->0 as int;
                                assert(q != i && q != j);
                            }
                        }
                        assert(i < j);
                        assert(partner@[j as int] == Some(i));
                        assert forall|p: int| 0 <= p < n && #[trigger] fin@[p] is Some implies fin@[p] == Some(slot_of(partner@, p) as usize) by {
                            if p != i && p != j {
                                assert(old_fin[p] is Some);
                            }
                        }
                    }
                    c += 2;
                },
                None => {},
            }
        }
        i += 1;
    }
    // Unpaired face half-edges, each followed by its boundary twin.
    proof {
        lemma_count_step(partner@, 0);
    }
    let mut bnd: Vec<usize> = Vec::new();
    let mut k: usize = 0;
    while k < n
        invariant
            n == partner@.len(),
            0 <= k <= n,
            forall|t: int| 0 <= t < bnd@.len() ==> #[trigger] bnd@[t] < k && partner@[bnd@[t] as int] is None,
            forall|t: int, u: int| 0 <= t < u < bnd@.len() ==> #[trigger] bnd@[t] < #[trigger] bnd@[u],
            forall|p: int| 0 <= p < k && #[trigger] partner@[p] is None ==> bnd@.contains(p as usize),
            bnd@.len() <= k,
            bnd@.len() == count_unpaired(partner@, k as int),
            forall|t: int| 0 <= t < bnd@.len() ==> count_unpaired(partner@, #[trigger] bnd@[t] as int) == t,
        decreases n - k,
    {
        let ghost old_bnd = bnd@;
        proof {
            lemma_count_step(partner@, k as int);
        }
        if partner[k].is_none() {
            bnd.push(k);
        }
        proof {
            assert forall|p: int| 0 <= p < k + 1 && #[trigger] partner@[p] is None implies bnd@.contains(p as usize) by {
                if p < k {
                    let u = choose|u: int| 0 <= u < old_bnd.len() && old_bnd[u] == p as usize;
                    assert(bnd@[u] == p as usize);
                } else {
                    assert(bnd@[bnd@.len() - 1] == p as usize);
                }
            }
        }
        k += 1;
    }
    let mut twins: Vec<(usize, usize)> = Vec::new();
    let ghost c0 = c;
    let nb = bnd.len();
    let mut t: usize = 0;
    while t < nb
        invariant
            n == partner@.len(),
            n <= 0x3fff_ffff,
            partner_ok(partner@, from@, to@),
            nb == bnd@.len(),
            nb <= n,
            forall|u: int| 0 <= u < bnd@.len() ==> #[trigger] bnd@[u] < n && partner@[bnd@[u] as int] is None,
            forall|u: int, w: int| 0 <= u < w < bnd@.len() ==> #[trigger] bnd@[u] < #[trigger] bnd@[w],
            forall|p: int| 0 <= p < n && #[trigger] partner@[p] is None ==> bnd@.contains(p as usize),
            0 <= t <= nb,
            fin@.len() == n,
            c0 as int % 2 == 0,
            c0 <= 2 * n,
            c == c0 + 2 * t,
            owner.len() == c,
            twins@.len() == t,
            forall|u: int| 0 <= u < t ==> #[trigger] twins@[u] == (bnd@[u], (c0 + 2 * u + 1) as usize),
            forall|p: int| 0 <= p < n && #[trigger] partner@[p] is Some ==> fin@[p] is Some && fin@[p]->0 < c0,
            forall|u: int| 0 <= u < nb ==> (#[trigger] fin@[bnd@[u] as int] is Some <==> u < t),
            forall|u: int| 0 <= u < t ==> #[trigger] fin@[bnd@[u] as int] == Some((c0 + 2 * u) as usize),
            forall|p: int, q: int| 0 <= p < n && 0 <= q < n && p != q && #[trigger] fin@[p] is Some && #[trigger] fin@[q] is Some ==> fin@[p]->0 != fin@[q]->0,
            forall|p: int| 0 <= p < n && #[trigger] partner@[p] is Some ==> fin@[partner@[p]->0 as int] == Some(twin_slot(fin@[p]->0 as int) as usize),
            forall|x: int| 0 <= x < c ==> {
                let o = #[trigger] owner[x];
                &&& 0 <= o < n
                &&& (fin@[o] == Some(x as usize) || (partner@[o] is None && x >= c0 && fin@[o] == Some((x - 1) as usize) && exists|u: int| 0 <= u < twins@.len() && #[trigger] twins@[u] == (o as usize, x as usize)))
            },
            c0 == 2 * count_lower_ends(partner@, n as int),
            nb == count_unpaired(partner@, n as int),
            forall|u: int| 0 <= u < nb ==> count_unpaired(partner@, #[trigger] bnd@[u] as int) == u,
            forall|p: int| 0 <= p < n && #[trigger] partner@[p] is Some ==> fin@[p] == Some(slot_of(partner@, p) as usize),
        decreases nb - t,
    {
        let i = bnd[t];
        let ghost old_fin = fin@;
        let ghost old_twins = twins@;
        proof {
            assert(old_fin[i as int] is None);
        }
        fin.set(i, Some(c));
        twins.push((i, c + 1));
        proof {
            owner = owner.push(i as int).push(i as int);
            assert forall|u: int| 0 <= u < nb implies (#[trigger] fin@[bnd@[u] as int] is Some <==> u < t + 1) by {
                if u != t {
                    assert(bnd@[u] != bnd@[t as int]);
                }
            }
            assert forall|u: int| 0 <= u < t + 1 implies #[trigger] fin@[bnd@[u] as int] == Some((c0 + 2 * u) as usize) by {
                if u < t {
                    assert(bnd@[u] != bnd@[t as int]);
                }
            }
            assert forall|p: int, q: int| 0 <= p < n && 0 <= q < n && p != q && #[trigger] fin@[p] is Some && #[trigger] fin@[q] is Some implies fin@[p]->0 != fin@[q]->0 by {
                if p == i {
                    assert(old_fin[q] is Some);
                    if partner@[q] is None {
                        let u = choose|u: int| 0 <= u < bnd@.len() && bnd@[u] == q as usize;
                        assert(fin@[bnd@[u] as int] is Some);
                    }
                } else if q == i {
                    assert(old_fin[p] is Some);
                    if partner@[p] is None {
                        let u = choose|u: int| 0 <= u < bnd@.len() && bnd@[u] == p as usize;
                        assert(fin@[bnd@[u] as int] is Some);
                    }
                }
            }
            assert forall|x: int| 0 <= x < c + 2 implies {
                let o = #[trigger] owner[x];
                &&& 0 <= o < n
                &&& (fin@[o] == Some(x as usize) || (partner@[o] is None && x >= c0 && fin@[o] == Some((x - 1) as usize) && exists|u: int| 0 <= u < twins@.len() && #[trigger] twins@[u] == (o as usize, x as usize)))
            } by {
                if x < c {
                    let o = owner[x];
                    if o != i {
                        if fin@[o] != Some(x as usize) {
                            let u = choose|u: int| 0 <= u < old_twins.len() && #[trigger] old_twins[u] == (o as usize, x as usize);
                            assert(twins@[u] == (o as usize, x as usize));
                        }
                    } else {
                        assert(old_fin[i as int] is None);
                        assert(old_fin[o] == Some(x as usize) || (partner@[o] is None && x >= c0 && old_fin[o] == Some((x - 1) as usize)));
                    }
                } else if x == c + 1 {
                    assert(twins@[t as int] == (i, (c + 1) as usize));
                }
            }
        }
        c += 2;
        t += 1;
    }
    proof {
        assert forall|q: int| 0 <= q < n implies #[trigger] fin@[q] is Some by {
            if partner@[q] is None {
                let u = choose|u: int| 0 <= u < bnd@.len() && bnd@[u] == q as usize;
                assert(fin@[bnd@[u] as int] is Some);
            }
        }
    }
    let mut slot: Vec<usize> = Vec::new();
    let mut p: usize = 0;
    while p < n
        invariant
            n == partner@.len(),
            0 <= p <= n,
            fin@.len() == n,
            slot@.len() == p,
            forall|q: int| 0 <= q < n ==> #[trigger] fin@[q] is Some,
            forall|q: int| 0 <= q < p ==> Some(#[trigger] slot@[q]) == fin@[q],
        decreases n - p,
    {
        slot.push(fin[p].unwrap());
        p += 1;
    }
    proof {
        lemma_slots_final(partner@, fin@, bnd@, twins@, owner, slot@, c0 as int, c as int);
        lemma_slots_exact(partner@, fin@, bnd@, slot@, c0 as int, c as int);
    }
    (slot, twins, c, Ghost(owner))
}

/// The half-edge arrays of the mesh before vertex splitting and boundary
/// linking: for each slot its end vertex, twin, next half-edge, face and
/// edge index.
fn fill_half_edges(
    slot: &Vec<usize>,
    twins: &Vec<(usize, usize)>,
    nhe: usize,
    owner: Ghost<Seq<int>>,
    partner: Ghost<Seq<Option<usize>>>,
    from: &Vec<usize>,
    to: &Vec<usize>,
    cface: &Vec<usize>,
    nextc: &Vec<usize>,
) -> (res: (Vec<usize>, Vec<usize>, Vec<usize>, Vec<Option<usize>>, Vec<usize>))
    requires
        ({
            let n = slot@.len() as int;
            &&& from@.len() == n && to@.len() == n && cface@.len() == n && nextc@.len() == n
            &&& partner@.len() == n
            &&& nhe as int % 2 == 0
            &&& forall|p: int| 0 <= p < n ==> #[trigger] slot@[p] < nhe
            &&& forall|p: int| 0 <= p < n ==> #[trigger] nextc@[p] < n
            &&& forall|p: int, q: int| 0 <= p < n && 0 <= q < n && p != q ==> #[trigger] slot@[p] != #[trigger] slot@[q]
            &&& forall|p: int| 0 <= p < n && #[trigger] partner@[p] is Some ==> slot@[partner@[p]->0 as int] == twin_slot(slot@[p] as int)
            &&& forall|p: int| 0 <= p < n && #[trigger] partner@[p] is None ==> slot@[p] as int % 2 == 0
            &&& forall|p: int| 0 <= p < n && #[trigger] partner@[p] is Some ==> 0 <= partner@[p]->0 < n && partner@[partner@[p]->0 as int] == Some(p as usize)
            &&& forall|t: int| 0 <= t < twins@.len() ==> {
                let (i, b) = #[trigger] twins@[t];
                &&& 0 <= i < n
                &&& partner@[i as int] is None
                &&& b == slot@[i as int] + 1
            }
            &&& forall|t: int, u: int| 0 <= t < u < twins@.len() ==> (#[trigger] twins@[t]).0 != (#[trigger] twins@[u]).0
            &&& owner@.len() == nhe
            &&& forall|x: int| 0 <= x < nhe ==> {
                let o = #[trigger] owner@[x];
                &&& 0 <= o < n
                &&& (slot@[o] == x || (partner@[o] is None && slot@[o] + 1 == x && exists|t: int| 0 <= t < twins@.len() && #[trigger] twins@[t] == (o as usize, x as usize)))
            }
        }),
    ensures
        ({
            let (out_to, out_opp, out_next, out_face, out_edge) = res;
            &&& out_to@.len() == nhe && out_opp@.len() == nhe && out_next@.len() == nhe
            &&& out_face@.len() == nhe && out_edge@.len() == nhe
            &&& forall|x: int| 0 <= x < nhe ==> #[trigger] out_opp@[x] == twin_slot(x) && out_edge@[x] == x / 2 && out_next@[x] < nhe
            &&& forall|x: int| 0 <= x < nhe ==> {
                let o = #[trigger] owner@[x];
                if slot@[o] == x {
                    &&& out_to@[x] == to@[o]
                    &&& out_face@[x] == Some(cface@[o])
                    &&& out_next@[x] == slot@[nextc@[o] as int]
                } else {
                    &&& out_to@[x] == from@[o]
                    &&& out_face@[x] is None
                }
            }
        }),
{
    let n = slot.len();
    let mut out_to: Vec<usize> = vec![0usize; nhe];
    let mut out_next: Vec<usize> = vec![0usize; nhe];
    let mut out_face: Vec<Option<usize>> = vec![None; nhe];
    let mut p: usize = 0;
    while p < n
        invariant
            n == slot@.len(),
            from@.len() == n && to@.len() == n && cface@.len() == n && nextc@.len() == n,
            out_to@.len() == nhe && out_next@.len() == nhe && out_face@.len() == nhe,
            forall|q: int| 0 <= q < n ==> #[trigger] slot@[q] < nhe,
            forall|q: int| 0 <= q < n ==> #[trigger] nextc@[q] < n,
            forall|a: int, b: int| 0 <= a < n && 0 <= b < n && a != b ==> #[trigger] slot@[a] != #[trigger] slot@[b],
            0 <= p <= n,
            forall|x: int| 0 <= x < nhe ==> #[trigger] out_next@[x] < nhe,
            forall|q: int| 0 <= q < p ==> {
                let x = #[trigger] slot@[q] as int;
                &&& out_to@[x] == to@[q]
                &&& out_face@[x] == Some(cface@[q])
                &&& out_next@[x] == slot@[nextc@[q] as int]
            },
        decreases n - p,
    {
        let x = slot[p];
        out_to.set(x, to[p]);
        out_face.set(x, Some(cface[p]));
        out_next.set(x, slot[nextc[p]]);
        proof {
            assert forall|q: int| 0 <= q < p + 1 implies {
                let y = #[trigger] slot@[q] as int;
                &&& out_to@[y] == to@[q]
                &&& out_face@[y] == Some(cface@[q])
                &&& out_next@[y] == slot@[nextc@[q] as int]
            } by {
                if q < p {
                    assert(slot@[q] != slot@[p as int]);
                }
            }
        }
        p += 1;
    }
    let nt = twins.len();
    let mut t: usize = 0;
    while t < nt
        invariant
            n == slot@.len(),
            partner@.len() == n,
            nt == twins@.len(),
            from@.len() == n && to@.len() == n && cface@.len() == n && nextc@.len() == n,
            out_to@.len() == nhe && out_next@.len() == nhe && out_face@.len() == nhe,
            forall|q: int| 0 <= q < n ==> #[trigger] slot@[q] < nhe,
            forall|a: int, b: int| 0 <= a < n && 0 <= b < n && a != b ==> #[trigger] slot@[a] != #[trigger] slot@[b],
            forall|q: int| 0 <= q < n && #[trigger] partner@[q] is Some ==> slot@[partner@[q]->0 as int] == twin_slot(slot@[q] as int),
            forall|q: int| 0 <= q < n && #[trigger] partner@[q] is None ==> slot@[q] as int % 2 == 0,
            forall|q: int| 0 <= q < n && #[trigger] partner@[q] is Some ==> 0 <= partner@[q]->0 < n && partner@[partner@[q]->0 as int] == Some(q as usize),
            nhe as int % 2 == 0,
            forall|u: int| 0 <= u < twins@.len() ==> {
                let (i, b) = #[trigger] twins@[u];
                &&& 0 <= i < n
                &&& partner@[i as int] is None
                &&& b == slot@[i as int] + 1
            },
            forall|a: int, b: int| 0 <= a < b < twins@.len() ==> (#[trigger] twins@[a]).0 != (#[trigger] twins@[b]).0,
            0 <= t <= nt,
            forall|x: int| 0 <= x < nhe ==> #[trigger] out_next@[x] < nhe,
            forall|q: int| 0 <= q < n ==> {
                let x = #[trigger] slot@[q] as int;
                &&& out_to@[x] == to@[q]
                &&& out_face@[x] == Some(cface@[q])
                &&& out_next@[x] == slot@[nextc@[q] as int]
            },
            forall|u: int| 0 <= u < t ==> {
                let (i, b) = #[trigger] twins@[u];
                &&& out_to@[b as int] == from@[i as int]
                &&& out_face@[b as int] is None
            },
        decreases nt - t,
    {
        let (i, b) = twins[t];
        proof {
            assert(twins@[t as int] == (i, b));
            assert(slot@[i as int] < nhe);
            assert(b < nhe);
            assert forall|q: int| 0 <= q < n implies #[trigger] slot@[q] != b by {
                if slot@[q] == b {
                    if partner@[q] is Some {
                        let j = partner@[q]->0 as int;
                        assert(slot@[j] == slot@[i as int]);
                    }
                }
            }
        }
        out_to.set(b, from[i]);
        out_face.set(b, None);
        proof {
            assert forall|u: int| 0 <= u < t + 1 implies {
                let (i2, b2) = #[trigger] twins@[u];
                &&& out_to@[b2 as int] == from@[i2 as int]
                &&& out_face@[b2 as int] is None
            } by {
                if u < t {
                    assert(twins@[u].0 != twins@[t as int].0);
                    assert(slot@[twins@[u].0 as int] != slot@[i as int]);
                }
            }
        }
        t += 1;
    }
    let mut out_opp: Vec<usize> = Vec::new();
    let mut out_edge: Vec<usize> = Vec::new();
    let mut x: usize = 0;
    while x < nhe
        invariant
            nhe as int % 2 == 0,
            0 <= x <= nhe,
            out_opp@.len() == x && out_edge@.len() == x,
            forall|y: int| 0 <= y < x ==> #[trigger] out_opp@[y] == twin_slot(y) && out_edge@[y] == y / 2,
        decreases nhe - x,
    {
        if x % 2 == 0 {
            out_opp.push(x + 1);
        } else {
            out_opp.push(x - 1);
        }
        out_edge.push(x / 2);
        x += 1;
    }
    proof {
        assert forall|y: int| 0 <= y < nhe implies {
                let o = #[trigger] owner@[y];
                if slot@[o] == y {
                    &&& out_to@[y] == to@[o]
                    &&& out_face@[y] == Some(cface@[o])
                    &&& out_next@[y] == slot@[nextc@[o] as int]
                } else {
                    &&& out_to@[y] == from@[o]
                    &&& out_face@[y] is None
                }
            } by {
            let o = owner@[y];
            if slot@[o] != y {
                let u = choose|u: int| 0 <= u < twins@.len() && #[trigger] twins@[u] == (o as usize, y as usize);
                assert(twins@[u] == (o as usize, y as usize));
            }
        }
    }
    (out_to, out_opp, out_next, out_face, out_edge)
}

/// `BTreeSet::first`: the smallest element, which for a non-empty set is
/// what its iterator yields first.  The contract claims that the result is
/// an element and no element is smaller.
#[verifier::external_body]
fn first_in(s: &BTreeSet<usize>) -> (r: usize)
    requires
        !s@.is_empty(),
    ensures
        s@.contains(r),
        forall|y: usize| s@.contains(y) ==> r <= y,
{
    *s.first().unwrap()
}

/// The smallest element of a set of half-edge indices.
#[verifier::opaque]
pub open spec fn least(s: Set<usize>) -> usize {
    choose|m: usize| s.contains(m) && forall|y: usize| s.contains(y) ==> m <= y
}

/// Walking round a vertex one way from `h`: while `h` lies on a face, the
/// walk moves to the twin of the half-edge before `h` in its face (three
/// steps along `next` round a quad), taking it out of `rem`; it stops at a
/// boundary half-edge or at one not in `rem`.  The half-edges taken, in
/// order, and what is left of `rem`.
#[verifier::opaque]
pub open spec fn walk_back(
    opp: Seq<usize>,
    next: Seq<usize>,
    face: Seq<Option<usize>>,
    rem: Set<usize>,
    h: int,
    fuel: nat,
) -> (Seq<usize>, Set<usize>)
    decreases fuel,
{
    if fuel == 0 || face[h] is None {
        (Seq::empty(), rem)
    } else {
        let nxt = opp[next[next[next[h] as int] as int] as int];
        if rem.contains(nxt) {
            let w = walk_back(opp, next, face, rem.remove(nxt), nxt as int, (fuel - 1) as nat);
            (seq![nxt] + w.0, w.1)
        } else {
            (Seq::empty(), rem)
        }
    }
}

/// Walking round a vertex the other way from `h`: while the twin of `h`
/// lies on a face, the walk moves to the half-edge after that twin,
/// taking it out of `rem`; it stops as `walk_back` does.
#[verifier::opaque]
pub open spec fn walk_fwd(
    opp: Seq<usize>,
    next: Seq<usize>,
    face: Seq<Option<usize>>,
    rem: Set<usize>,
    h: int,
    fuel: nat,
) -> (Seq<usize>, Set<usize>)
    decreases fuel,
{
    let twin = opp[h] as int;
    if fuel == 0 || face[twin] is None {
        (Seq::empty(), rem)
    } else {
        let nxt = next[twin];
        if rem.contains(nxt) {
            let w = walk_fwd(opp, next, face, rem.remove(nxt), nxt as int, (fuel - 1) as nat);
            (seq![nxt] + w.0, w.1)
        } else {
            (Seq::empty(), rem)
        }
    }
}

/// The fan groups of the half-edges `rem`: the smallest one starts a
/// group, the walk one way and then the other from it adds the half-edges
/// it reaches, and the rest are grouped in the same way.
#[verifier::opaque]
pub open spec fn fan_split(
    opp: Seq<usize>,
    next: Seq<usize>,
    face: Seq<Option<usize>>,
    rem: Set<usize>,
    fuel: nat,
) -> Seq<Seq<usize>>
    decreases fuel,
{
    if fuel == 0 || rem.is_empty() {
        Seq::empty()
    } else {
        let start = least(rem);
        let r1 = rem.remove(start);
        let b = walk_back(opp, next, face, r1, start as int, r1.len());
        let f = walk_fwd(opp, next, face, b.1, start as int, b.1.len());
        seq![seq![start] + b.0 + f.0] + fan_split(opp, next, face, f.1, (fuel - 1) as nat)
    }
}

/// The views of a list of groups.
pub open spec fn group_views(gs: Seq<Vec<usize>>) -> Seq<Seq<usize>> {
    gs.map_values(|g: Vec<usize>| g@)
}

/// A finite non-empty set has a least element.
proof fn lemma_least(s: Set<usize>)
    requires
        s.finite(),
        s.len() > 0,
    ensures
        s.contains(least(s)),
        forall|y: usize| s.contains(y) ==> least(s) <= y,
    decreases s.len(),
{
    reveal(least);
    let x = s.choose();
    vstd::set::axiom_set_choose_len(s);
    assert(s.contains(x));
    let r = s.remove(x);
    vstd::set::axiom_set_remove_len(s, x);
    assert(r.len() == s.len() - 1);
    let w = if r.len() == 0 {
        x
    } else {
        lemma_least(r);
        let m = least(r);
        if x < m { x } else { m }
    };
    assert forall|y: usize| s.contains(y) implies w <= y by {
        if y != x {
            assert(r.contains(y));
            if r.len() == 0 {
                vstd::set::axiom_set_contains_len(r, y);
            }
        }
    }
    assert(s.contains(w));
}

/// The walk one way from `h` as it stands after one step or at its end.
proof fn lemma_walk_back_step(opp: Seq<usize>, next: Seq<usize>, face: Seq<Option<usize>>, rem: Set<usize>, h: int)
    requires
        rem.finite(),
    ensures
        ({
            let w = walk_back(opp, next, face, rem, h, rem.len());
            let nxt = opp[next[next[next[h] as int] as int] as int];
            if face[h] is Some && rem.contains(nxt) {
                let w2 = walk_back(opp, next, face, rem.remove(nxt), nxt as int, rem.remove(nxt).len());
                &&& rem.remove(nxt).len() == rem.len() - 1
                &&& w == (seq![nxt] + w2.0, w2.1)
            } else {
                w == (Seq::<usize>::empty(), rem)
            }
        }),
{
    reveal_with_fuel(walk_back, 2);
    let nxt = opp[next[next[next[h] as int] as int] as int];
    if rem.contains(nxt) {
        vstd::set::axiom_set_remove_len(rem, nxt);
    }
}

/// The walk the other way from `h` as it stands after one step or at its
/// end.
proof fn lemma_walk_fwd_step(opp: Seq<usize>, next: Seq<usize>, face: Seq<Option<usize>>, rem: Set<usize>, h: int)
    requires
        rem.finite(),
    ensures
        ({
            let w = walk_fwd(opp, next, face, rem, h, rem.len());
            let twin = opp[h] as int;
            let nxt = next[twin];
            if face[twin] is Some && rem.contains(nxt) {
                let w2 = walk_fwd(opp, next, face, rem.remove(nxt), nxt as int, rem.remove(nxt).len());
                &&& rem.remove(nxt).len() == rem.len() - 1
                &&& w == (seq![nxt] + w2.0, w2.1)
            } else {
                w == (Seq::<usize>::empty(), rem)
            }
        }),
{
    reveal_with_fuel(walk_fwd, 2);
    let nxt = next[opp[h] as int];
    if rem.contains(nxt) {
        vstd::set::axiom_set_remove_len(rem, nxt);
    }
}

/// `least` is the element that `first_in` returns.
proof fn lemma_least_is(s: Set<usize>, m: usize)
    requires
        s.contains(m),
        forall|y: usize| s.contains(y) ==> m <= y,
    ensures
        least(s) == m,
{
    reveal(least);
    let l = least(s);
    assert(s.contains(l) && forall|y: usize| s.contains(y) ==> l <= y);
    assert(l <= m && m <= l);
}

/// `fan_split` of nothing, or with no fuel left, is empty.
proof fn lemma_fan_split_empty(opp: Seq<usize>, next: Seq<usize>, face: Seq<Option<usize>>, rem: Set<usize>, fuel: nat)
    requires
        rem.is_empty() || fuel == 0,
    ensures
        fan_split(opp, next, face, rem, fuel) == Seq::<Seq<usize>>::empty(),
{
    reveal_with_fuel(fan_split, 1);
}

/// One step of `fan_split`: the group of the least half-edge, then the
/// groups of what its walks leave.
proof fn lemma_fan_split_unfold(opp: Seq<usize>, next: Seq<usize>, face: Seq<Option<usize>>, rem: Set<usize>, fuel: nat)
    requires
        fuel > 0,
        !rem.is_empty(),
    ensures
        ({
            let start = least(rem);
            let r1 = rem.remove(start);
            let b = walk_back(opp, next, face, r1, start as int, r1.len());
            let f = walk_fwd(opp, next, face, b.1, start as int, b.1.len());
            fan_split(opp, next, face, rem, fuel) == seq![seq![start] + b.0 + f.0] + fan_split(opp, next, face, f.1, (fuel - 1) as nat)
        }),
{
    reveal_with_fuel(fan_split, 1);
}

/// The views of a list of groups after a push.
proof fn lemma_group_views_push(gs: Seq<Vec<usize>>, gs2: Seq<Vec<usize>>)
    requires
        gs2.len() == gs.len() + 1,
        forall|i: int| 0 <= i < gs.len() ==> gs2[i] == gs[i],
    ensures
        group_views(gs2) == group_views(gs) + seq![gs2[gs.len() as int]@],
{
    assert(group_views(gs2) =~= group_views(gs) + seq![gs2[gs.len() as int]@]);
}

/// What a walk leaves of `rem` is part of `rem`, and no longer.
proof fn lemma_walk_back_left(opp: Seq<usize>, next: Seq<usize>, face: Seq<Option<usize>>, rem: Set<usize>, h: int, fuel: nat)
    requires
        rem.finite(),
    ensures
        walk_back(opp, next, face, rem, h, fuel).1.subset_of(rem),
        walk_back(opp, next, face, rem, h, fuel).1.finite(),
        walk_back(opp, next, face, rem, h, fuel).1.len() <= rem.len(),
    decreases fuel,
{
    reveal_with_fuel(walk_back, 1);
    if fuel > 0 && face[h] is Some {
        let nxt = opp[next[next[next[h] as int] as int] as int];
        if rem.contains(nxt) {
            lemma_walk_back_left(opp, next, face, rem.remove(nxt), nxt as int, (fuel - 1) as nat);
        }
    }
}

/// What a walk leaves of `rem` is part of `rem`, and no longer.
proof fn lemma_walk_fwd_left(opp: Seq<usize>, next: Seq<usize>, face: Seq<Option<usize>>, rem: Set<usize>, h: int, fuel: nat)
    requires
        rem.finite(),
    ensures
        walk_fwd(opp, next, face, rem, h, fuel).1.subset_of(rem),
        walk_fwd(opp, next, face, rem, h, fuel).1.finite(),
        walk_fwd(opp, next, face, rem, h, fuel).1.len() <= rem.len(),
    decreases fuel,
{
    reveal_with_fuel(walk_fwd, 1);
    let twin = opp[h] as int;
    if fuel > 0 && face[twin] is Some {
        let nxt = next[twin];
        if rem.contains(nxt) {
            lemma_walk_fwd_left(opp, next, face, rem.remove(nxt), nxt as int, (fuel - 1) as nat);
        }
    }
}

/// There are no more fan groups than half-edges.
proof fn lemma_fan_split_len(opp: Seq<usize>, next: Seq<usize>, face: Seq<Option<usize>>, rem: Set<usize>, fuel: nat)
    requires
        rem.finite(),
    ensures
        fan_split(opp, next, face, rem, fuel).len() <= rem.len(),
    decreases fuel,
{
    reveal_with_fuel(fan_split, 1);
    if fuel > 0 && !rem.is_empty() {
        let start = least(rem);
        if rem.len() == 0 {
            vstd::set_lib::lemma_set_empty_equivalency_len(rem);
        }
        lemma_least(rem);
        let r1 = rem.remove(start);
        let b = walk_back(opp, next, face, r1, start as int, r1.len());
        lemma_walk_back_left(opp, next, face, r1, start as int, r1.len());
        lemma_walk_fwd_left(opp, next, face, b.1, start as int, b.1.len());
        let f = walk_fwd(opp, next, face, b.1, start as int, b.1.len());
        lemma_fan_split_len(opp, next, face, f.1, (fuel - 1) as nat);
    }
}

/// The fan groups around one vertex: `out_hes` (its outgoing
/// half-edges) split into the runs reached from each other by walking
/// round the vertex through face half-edges.
#[verifier::spinoff_prover]
#[verifier::rlimit(60)]
fn fan_groups(out_hes: BTreeSet<usize>, out_opp: &Vec<usize>, out_next: &Vec<usize>, out_face: &Vec<Option<usize>>) -> (groups: Vec<Vec<usize>>)
    requires
        out_opp@.len() == out_next@.len(),
        out_face@.len() == out_next@.len(),
        forall|x: int| 0 <= x < out_next@.len() ==> #[trigger] out_opp@[x] < out_next@.len(),
        forall|x: int| 0 <= x < out_next@.len() ==> #[trigger] out_next@[x] < out_next@.len(),
        forall|h: usize| out_hes@.contains(h) ==> h < out_next@.len(),
        out_hes@.finite(),
    ensures
        group_views(groups@) == fan_split(out_opp@, out_next@, out_face@, out_hes@, out_hes@.len()),
        groups@.len() <= out_hes@.len(),
        forall|g: int, t: int| 0 <= g < groups@.len() && 0 <= t < groups@[g]@.len() ==> out_hes@.contains(#[trigger] groups@[g]@[t]),
{
    let nhe = out_next.len();
    let mut remaining = out_hes;
    let ghost all = remaining@;
    let ghost opp = out_opp@;
    let ghost nx = out_next@;
    let ghost fc = out_face@;
    let ghost mut fuel: nat = all.len();
    let mut groups: Vec<Vec<usize>> = Vec::new();
    while !remaining.is_empty()
        invariant
            nhe == out_next@.len(),
            opp == out_opp@,
            nx == out_next@,
            fc == out_face@,
            out_opp@.len() == nhe,
            out_face@.len() == nhe,
            forall|x: int| 0 <= x < nhe ==> #[trigger] out_opp@[x] < nhe,
            forall|x: int| 0 <= x < nhe ==> #[trigger] out_next@[x] < nhe,
            all.finite(),
            forall|h: usize| all.contains(h) ==> h < nhe,
            remaining@.subset_of(all),
            remaining@.finite(),
            remaining@.len() <= fuel,
            groups@.len() + remaining@.len() <= all.len(),
            fan_split(opp, nx, fc, all, all.len()) == group_views(groups@) + fan_split(opp, nx, fc, remaining@, fuel),
            forall|g: int, t: int| 0 <= g < groups@.len() && 0 <= t < groups@[g]@.len() ==> all.contains(#[trigger] groups@[g]@[t]),
        decreases remaining@.len(),
    {
        let ghost rem0 = remaining@;
        let start = first_in(&remaining);
        proof {
            lemma_least_is(remaining@, start);
        }
        let mut group: Vec<usize> = Vec::new();
        group.push(start);
        remaining.remove(&start);
        let ghost r1 = remaining@;
        let ghost after_start = remaining@.len();
        // Walk one way: from a face half-edge to the one before it in its
        // face, then across to that one's twin.
        let mut h = start;
        loop
            invariant
                nhe == out_next@.len(),
                opp == out_opp@,
                nx == out_next@,
                fc == out_face@,
                out_opp@.len() == nhe,
                out_face@.len() == nhe,
                forall|x: int| 0 <= x < nhe ==> #[trigger] out_opp@[x] < nhe,
                forall|x: int| 0 <= x < nhe ==> #[trigger] out_next@[x] < nhe,
                all.finite(),
                forall|y: usize| all.contains(y) ==> y < nhe,
                remaining@.subset_of(all),
                remaining@.finite(),
                remaining@.len() <= after_start,
                h < nhe,
                forall|t: int| 0 <= t < group@.len() ==> all.contains(#[trigger] group@[t]),
                group@ + walk_back(opp, nx, fc, remaining@, h as int, remaining@.len()).0
                    == seq![start] + walk_back(opp, nx, fc, r1, start as int, r1.len()).0,
                walk_back(opp, nx, fc, remaining@, h as int, remaining@.len()).1
                    == walk_back(opp, nx, fc, r1, start as int, r1.len()).1,
            ensures
                walk_back(opp, nx, fc, remaining@, h as int, remaining@.len()).0 == Seq::<usize>::empty(),
                walk_back(opp, nx, fc, remaining@, h as int, remaining@.len()).1 == remaining@,
            decreases remaining@.len(),
        {
            if out_face[h].is_some() {
                let prev_h = out_next[out_next[out_next[h]]];
                let nxt = out_opp[prev_h];
                let ghost rm = remaining@;
                let ghost g0 = group@;
                let ghost h0 = h;
                if remaining.remove(&nxt) {
                    group.push(nxt);
                    h = nxt;
                    proof {
                        lemma_walk_back_step(opp, nx, fc, rm, h0 as int);
                        let w = walk_back(opp, nx, fc, remaining@, h as int, remaining@.len());
                        assert(g0 + (seq![nxt] + w.0) == group@ + w.0);
                    }
                } else {
                    proof {
                        assert(remaining@ =~= rm);
                        lemma_walk_back_step(opp, nx, fc, rm, h0 as int);
                        assert(group@ + Seq::<usize>::empty() == group@);
                    }
                    break;
                }
            } else {
                proof {
                    lemma_walk_back_step(opp, nx, fc, remaining@, h as int);
                    assert(group@ + Seq::<usize>::empty() == group@);
                }
                break;
            }
        }
        let ghost r2 = remaining@;
        proof {
            assert(group@ + Seq::<usize>::empty() == group@);
            assert(group@ == seq![start] + walk_back(opp, nx, fc, r1, start as int, r1.len()).0);
            assert(r2 == walk_back(opp, nx, fc, r1, start as int, r1.len()).1);
        }
        let ghost g_back = group@;
        // Walk the other way: across to the twin, then on to its next.
        h = start;
        loop
            invariant
                nhe == out_next@.len(),
                opp == out_opp@,
                nx == out_next@,
                fc == out_face@,
                out_opp@.len() == nhe,
                out_face@.len() == nhe,
                forall|x: int| 0 <= x < nhe ==> #[trigger] out_opp@[x] < nhe,
                forall|x: int| 0 <= x < nhe ==> #[trigger] out_next@[x] < nhe,
                all.finite(),
                forall|y: usize| all.contains(y) ==> y < nhe,
                remaining@.subset_of(all),
                remaining@.finite(),
                remaining@.len() <= after_start,
                h < nhe,
                forall|t: int| 0 <= t < group@.len() ==> all.contains(#[trigger] group@[t]),
                group@ + walk_fwd(opp, nx, fc, remaining@, h as int, remaining@.len()).0
                    == g_back + walk_fwd(opp, nx, fc, r2, start as int, r2.len()).0,
                walk_fwd(opp, nx, fc, remaining@, h as int, remaining@.len()).1
                    == walk_fwd(opp, nx, fc, r2, start as int, r2.len()).1,
            ensures
                walk_fwd(opp, nx, fc, remaining@, h as int, remaining@.len()).0 == Seq::<usize>::empty(),
                walk_fwd(opp, nx, fc, remaining@, h as int, remaining@.len()).1 == remaining@,
            decreases remaining@.len(),
        {
            let twin = out_opp[h];
            if out_face[twin].is_some() {
                let nxt = out_next[twin];
                let ghost rm = remaining@;
                let ghost g0 = group@;
                let ghost h0 = h;
                if remaining.remove(&nxt) {
                    group.push(nxt);
                    h = nxt;
                    proof {
                        lemma_walk_fwd_step(opp, nx, fc, rm, h0 as int);
                        let w = walk_fwd(opp, nx, fc, remaining@, h as int, remaining@.len());
                        assert(g0 + (seq![nxt] + w.0) == group@ + w.0);
                    }
                } else {
                    proof {
                        assert(remaining@ =~= rm);
                        lemma_walk_fwd_step(opp, nx, fc, rm, h0 as int);
                        assert(group@ + Seq::<usize>::empty() == group@);
                    }
                    break;
                }
            } else {
                proof {
                    lemma_walk_fwd_step(opp, nx, fc, remaining@, h as int);
                    assert(group@ + Seq::<usize>::empty() == group@);
                }
                break;
            }
        }
        proof {
            let b = walk_back(opp, nx, fc, r1, start as int, r1.len());
            let f = walk_fwd(opp, nx, fc, b.1, start as int, b.1.len());
            assert(group@ == seq![start] + b.0 + f.0);
            assert(remaining@ == f.1);
            assert(fuel >= 1);
            lemma_fan_split_unfold(opp, nx, fc, rem0, fuel);
        }
        let ghost gs0 = groups@;
        let ghost g_new = group@;
        groups.push(group);
        proof {
            lemma_group_views_push(gs0, groups@);
            vstd::seq_lib::lemma_concat_associative(group_views(gs0), seq![g_new], fan_split(opp, nx, fc, remaining@, (fuel - 1) as nat));
            fuel = (fuel - 1) as nat;
            assert forall|g: int, t: int| 0 <= g < groups@.len() && 0 <= t < groups@[g]@.len() implies all.contains(#[trigger] groups@[g]@[t]) by {
                if g < groups@.len() - 1 {
                    assert(groups@[g] == gs0[g]);
                }
            }
        }
    }
    proof {
        lemma_fan_split_empty(opp, nx, fc, remaining@, fuel);
        assert(group_views(groups@) + Seq::<Seq<usize>>::empty() == group_views(groups@));
    }
    groups
}

/// The half-edges among the first `n` whose twin ends at vertex `v`: those
/// that leave `v`.
pub open spec fn leaving(to: Seq<usize>, opp: Seq<usize>, n: int, v: int) -> Set<usize> {
    Set::new(|h: usize| h < n && to[opp[h as int] as int] == v)
}

/// The fan groups round vertex `v`.
pub open spec fn vertex_fans(to: Seq<usize>, opp: Seq<usize>, next: Seq<usize>, face: Seq<Option<usize>>, v: int) -> Seq<Seq<usize>> {
    let s = leaving(to, opp, opp.len() as int, v);
    fan_split(opp, next, face, s, s.len())
}

/// The last of the first `n` groups that holds `h`, if any.
pub open spec fn last_group(gs: Seq<Seq<usize>>, h: usize, n: int) -> Option<int>
    decreases n,
{
    if n <= 0 {
        None
    } else if gs[n - 1].contains(h) {
        Some(n - 1)
    } else {
        last_group(gs, h, n - 1)
    }
}

/// The group that `h` is counted in: the last group that holds it, or
/// the first group where none does.
pub open spec fn group_index(gs: Seq<Seq<usize>>, h: usize) -> int {
    match last_group(gs, h, gs.len() as int) {
        Some(g) => g,
        None => 0,
    }
}

/// Where half-edge `x` ends once the vertices are split: at the vertex it
/// ended at where the group of its twin round that vertex is the first,
/// else at that vertex's copy for the group.
pub open spec fn split_end(to: Seq<usize>, opp: Seq<usize>, next: Seq<usize>, face: Seq<Option<usize>>, copy: Map<(int, int), int>, x: int) -> int {
    let v = to[x] as int;
    let g = group_index(vertex_fans(to, opp, next, face, v), opp[x]);
    if g == 0 {
        v
    } else {
        copy[(v, g)]
    }
}

/// Whether `w` is the number `copy` gives some copy.
pub open spec fn numbers(copy: Map<(int, int), int>, w: int) -> bool {
    exists|p: (int, int)| #[trigger] copy.dom().contains(p) && copy[p] == w
}

/// `copy` numbers the vertices added for the vertices in `done`: one for
/// each of their fan groups after the first, all of them `src1` past the
/// end of `src0` (each once), each with the source of the vertex it
/// copies; `src1` keeps `src0` as it was.
pub open spec fn copies_ok(to: Seq<usize>, opp: Seq<usize>, next: Seq<usize>, face: Seq<Option<usize>>, src0: Seq<usize>, src1: Seq<usize>, copy: Map<(int, int), int>, done: Set<int>) -> bool {
    &&& forall|w: int| #[trigger] done.contains(w) ==> 0 <= w < src0.len()
    &&& forall|v: int, g: int| #[trigger] copy.dom().contains((v, g)) <==> (done.contains(v) && 1 <= g < vertex_fans(to, opp, next, face, v).len())
    &&& forall|p: (int, int)| #[trigger] copy.dom().contains(p) ==> src0.len() <= copy[p] < src1.len() && src1[copy[p]] == src0[p.0]
    &&& forall|p: (int, int), q: (int, int)| #![trigger copy[p], copy[q]] copy.dom().contains(p) && copy.dom().contains(q) && copy[p] == copy[q] ==> p == q
    &&& forall|w: int| src0.len() <= w < src1.len() ==> #[trigger] numbers(copy, w)
    &&& src1.len() >= src0.len()
    &&& forall|w: int| 0 <= w < src0.len() ==> #[trigger] src1[w] == src0[w]
}

/// Each half-edge ends where `split_end` says if its vertex is in `done`,
/// and where it ended before otherwise.
pub open spec fn ends_ok(to: Seq<usize>, opp: Seq<usize>, next: Seq<usize>, face: Seq<Option<usize>>, to1: Seq<usize>, copy: Map<(int, int), int>, done: Set<int>) -> bool {
    &&& to1.len() == to.len()
    &&& forall|x: int| 0 <= x < to.len() ==> #[trigger] to1[x] == if done.contains(to[x] as int) {
        split_end(to, opp, next, face, copy, x)
    } else {
        to[x] as int
    }
}

/// The outcome of splitting every vertex: `copy` numbers the new vertices,
/// one for each vertex and each of its fan groups after the first; `src1`
/// is `src0` followed by exactly these, each with the source of the vertex
/// it copies; and every half-edge ends where `split_end` says.
#[verifier::opaque]
pub open spec fn split_ok(to: Seq<usize>, opp: Seq<usize>, next: Seq<usize>, face: Seq<Option<usize>>, src0: Seq<usize>, src1: Seq<usize>, to1: Seq<usize>, copy: Map<(int, int), int>) -> bool {
    &&& forall|v: int, g: int| #[trigger] copy.dom().contains((v, g)) <==> (0 <= v < src0.len() && 1 <= g < vertex_fans(to, opp, next, face, v).len())
    &&& forall|p: (int, int)| #[trigger] copy.dom().contains(p) ==> src0.len() <= copy[p] < src1.len() && src1[copy[p]] == src0[p.0]
    &&& forall|p: (int, int), q: (int, int)| #![trigger copy[p], copy[q]] copy.dom().contains(p) && copy.dom().contains(q) && copy[p] == copy[q] ==> p == q
    &&& forall|w: int| src0.len() <= w < src1.len() ==> #[trigger] numbers(copy, w)
    &&& src1.len() >= src0.len()
    &&& forall|w: int| 0 <= w < src0.len() ==> #[trigger] src1[w] == src0[w]
    &&& to1.len() == to.len()
    &&& forall|x: int| 0 <= x < to.len() ==> #[trigger] to1[x] == split_end(to, opp, next, face, copy, x)
}

/// Whether `k` is among the first `t` entries of `s`.
pub open spec fn in_first(s: Seq<usize>, t: int, k: usize) -> bool {
    exists|j: int| 0 <= j < t && s[j] == k
}

/// One more entry of `s`.
proof fn lemma_in_first_step(s: Seq<usize>, t: int)
    requires
        0 <= t < s.len(),
    ensures
        forall|k: usize| #[trigger] in_first(s, t + 1, k) <==> (in_first(s, t, k) || s[t] == k),
{
    assert forall|k: usize| #[trigger] in_first(s, t + 1, k) <==> (in_first(s, t, k) || s[t] == k) by {
        if s[t] == k {
            assert(0 <= t < t + 1 && s[t] == k);
        }
        if in_first(s, t + 1, k) && s[t] != k {
            let j = choose|j: int| 0 <= j < t + 1 && s[j] == k;
            assert(0 <= j < t && s[j] == k);
        }
    }
}

/// What the split promised before: every half-edge still ends at a
/// vertex with the source it had, and every vertex has a source of the
/// original vertices.
proof fn lemma_split_facts(to: Seq<usize>, opp: Seq<usize>, next: Seq<usize>, face: Seq<Option<usize>>, src0: Seq<usize>, src1: Seq<usize>, to1: Seq<usize>, copy: Map<(int, int), int>)
    requires
        split_ok(to, opp, next, face, src0, src1, to1, copy),
        forall|x: int| 0 <= x < to.len() ==> #[trigger] to[x] < src0.len(),
    ensures
        forall|v: int| 0 <= v < src1.len() ==> src0.contains(#[trigger] src1[v]),
        forall|x: int| 0 <= x < to.len() ==> #[trigger] to1[x] < src1.len() && src1[to1[x] as int] == src0[to[x] as int],
{
    reveal(split_ok);
    assert forall|v: int| 0 <= v < src1.len() implies src0.contains(#[trigger] src1[v]) by {
        if v < src0.len() {
            assert(src0[v] == src1[v]);
        } else {
            assert(numbers(copy, v));
            let p = choose|p: (int, int)| #[trigger] copy.dom().contains(p) && copy[p] == v;
            assert(copy.dom().contains((p.0, p.1)));
            assert(src1[v] == src0[p.0]);
        }
    }
    assert forall|x: int| 0 <= x < to.len() implies #[trigger] to1[x] < src1.len() && src1[to1[x] as int] == src0[to[x] as int] by {
        let v = to[x] as int;
        let gs = vertex_fans(to, opp, next, face, v);
        let g = group_index(gs, opp[x]);
        lemma_group_index_range(gs, opp[x]);
        if g != 0 {
            assert(copy.dom().contains((v, g)));
        }
    }
}

/// A group found by `last_group` is one of the first `n`, and holds `h`.
proof fn lemma_last_group_range(gs: Seq<Seq<usize>>, h: usize, n: int)
    ensures
        last_group(gs, h, n) matches Some(g) ==> 0 <= g < n && gs[g].contains(h),
    decreases n,
{
    if n > 0 && !gs[n - 1].contains(h) {
        lemma_last_group_range(gs, h, n - 1);
    }
}

/// `group_index` is the index of a group, or 0.
proof fn lemma_group_index_range(gs: Seq<Seq<usize>>, h: usize)
    ensures
        0 <= group_index(gs, h),
        gs.len() > 0 ==> group_index(gs, h) < gs.len(),
{
    lemma_last_group_range(gs, h, gs.len() as int);
}

/// Marking a vertex with at most one fan group as done adds no copy and
/// moves no half-edge.
proof fn lemma_split_skip(to: Seq<usize>, opp: Seq<usize>, next: Seq<usize>, face: Seq<Option<usize>>, src0: Seq<usize>, src1: Seq<usize>, to1: Seq<usize>, copy: Map<(int, int), int>, done: Set<int>, v: int)
    requires
        copies_ok(to, opp, next, face, src0, src1, copy, done),
        ends_ok(to, opp, next, face, to1, copy, done),
        !done.contains(v),
        0 <= v < src0.len(),
        vertex_fans(to, opp, next, face, v).len() <= 1,
    ensures
        copies_ok(to, opp, next, face, src0, src1, copy, done.insert(v)),
        ends_ok(to, opp, next, face, to1, copy, done.insert(v)),
{
    let d2 = done.insert(v);
    assert forall|w: int, g: int| #[trigger] copy.dom().contains((w, g)) <==> (d2.contains(w) && 1 <= g < vertex_fans(to, opp, next, face, w).len()) by {
        if w != v {
            assert(d2.contains(w) == done.contains(w));
        }
    }
    assert forall|x: int| 0 <= x < to.len() implies #[trigger] to1[x] == if d2.contains(to[x] as int) {
        split_end(to, opp, next, face, copy, x)
    } else {
        to[x] as int
    } by {
        if to[x] as int == v {
            lemma_group_index_range(vertex_fans(to, opp, next, face, v), opp[x]);
        } else {
            assert(d2.contains(to[x] as int) == done.contains(to[x] as int));
        }
    }
}

/// Once every vertex with a half-edge leaving it is done, the split is
/// complete.
proof fn lemma_split_done(to: Seq<usize>, opp: Seq<usize>, next: Seq<usize>, face: Seq<Option<usize>>, src0: Seq<usize>, src1: Seq<usize>, to1: Seq<usize>, copy: Map<(int, int), int>, done: Set<int>)
    requires
        copies_ok(to, opp, next, face, src0, src1, copy, done),
        ends_ok(to, opp, next, face, to1, copy, done),
        forall|v: int| 0 <= v < src0.len() && !done.contains(v) ==> leaving(to, opp, opp.len() as int, v).is_empty(),
        forall|x: int| 0 <= x < to.len() ==> #[trigger] to[x] < src0.len(),
    ensures
        split_ok(to, opp, next, face, src0, src1, to1, copy),
{
    reveal(split_ok);
    assert forall|v: int| 0 <= v < src0.len() && !done.contains(v) implies #[trigger] vertex_fans(to, opp, next, face, v).len() == 0 by {
        let s = leaving(to, opp, opp.len() as int, v);
        lemma_fan_split_empty(opp, next, face, s, s.len());
    }
    assert forall|v: int, g: int| #[trigger] copy.dom().contains((v, g)) <==> (0 <= v < src0.len() && 1 <= g < vertex_fans(to, opp, next, face, v).len()) by {
        if 0 <= v < src0.len() && !done.contains(v) {
            assert(vertex_fans(to, opp, next, face, v).len() == 0);
        }
    }
    assert forall|x: int| 0 <= x < to.len() implies #[trigger] to1[x] == split_end(to, opp, next, face, copy, x) by {
        let v = to[x] as int;
        if !done.contains(v) {
            assert(vertex_fans(to, opp, next, face, v).len() == 0);
        }
    }
}

/// Adding the copies of vertex `v`, one for each fan group after the
/// first, numbered on from the end of `src1`.
proof fn lemma_split_copies(to: Seq<usize>, opp: Seq<usize>, next: Seq<usize>, face: Seq<Option<usize>>, src0: Seq<usize>, src1: Seq<usize>, src2: Seq<usize>, copy: Map<(int, int), int>, done: Set<int>, v: int) -> (copy2: Map<(int, int), int>)
    requires
        copies_ok(to, opp, next, face, src0, src1, copy, done),
        !done.contains(v),
        0 <= v < src0.len(),
        vertex_fans(to, opp, next, face, v).len() >= 1,
        src2.len() == src1.len() + vertex_fans(to, opp, next, face, v).len() - 1,
        forall|w: int| 0 <= w < src1.len() ==> #[trigger] src2[w] == src1[w],
        forall|w: int| src1.len() <= w < src2.len() ==> #[trigger] src2[w] == src0[v],
    ensures
        copies_ok(to, opp, next, face, src0, src2, copy2, done.insert(v)),
        forall|g: int| 1 <= g < vertex_fans(to, opp, next, face, v).len() ==> #[trigger] copy2[(v, g)] == src1.len() + g - 1,
        forall|p: (int, int)| p.0 != v && #[trigger] copy.dom().contains(p) ==> copy2[p] == copy[p],
{
    let ng = vertex_fans(to, opp, next, face, v).len() as int;
    let s1 = src1.len() as int;
    let copy2 = Map::new(
        |p: (int, int)| copy.dom().contains(p) || (p.0 == v && 1 <= p.1 < ng),
        |p: (int, int)| if p.0 == v { s1 + p.1 - 1 } else { copy[p] },
    );
    let d2 = done.insert(v);
    assert forall|w: int, g: int| #[trigger] copy2.dom().contains((w, g)) <==> (d2.contains(w) && 1 <= g < vertex_fans(to, opp, next, face, w).len()) by {
        if w != v {
            assert(d2.contains(w) == done.contains(w));
            assert(copy2.dom().contains((w, g)) == copy.dom().contains((w, g)));
        } else {
            assert(!copy.dom().contains((w, g)));
        }
    }
    assert forall|p: (int, int)| #[trigger] copy2.dom().contains(p) implies src0.len() <= copy2[p] < src2.len() && src2[copy2[p]] == src0[p.0] by {
        if p.0 == v {
            assert(!copy.dom().contains((p.0, p.1)));
        } else {
            assert(copy.dom().contains(p));
            assert(src2[copy[p]] == src1[copy[p]]);
        }
    }
    assert forall|p: (int, int), q: (int, int)| #![trigger copy2[p], copy2[q]] copy2.dom().contains(p) && copy2.dom().contains(q) && copy2[p] == copy2[q] implies p == q by {
        if p.0 == v {
            assert(!copy.dom().contains((p.0, p.1)));
        } else {
            assert(copy.dom().contains(p));
        }
        if q.0 == v {
            assert(!copy.dom().contains((q.0, q.1)));
        } else {
            assert(copy.dom().contains(q));
        }
        if p.0 != v && q.0 != v {
            assert(copy[p] == copy[q]);
        }
    }
    assert forall|w: int| src0.len() <= w < src2.len() implies #[trigger] numbers(copy2, w) by {
        if w < s1 {
            assert(numbers(copy, w));
            let p = choose|p: (int, int)| #[trigger] copy.dom().contains(p) && copy[p] == w;
            if p.0 == v {
                assert(!copy.dom().contains((p.0, p.1)));
            }
            assert(copy2.dom().contains(p) && copy2[p] == w);
        } else {
            let p = (v, w - s1 + 1);
            assert(copy2.dom().contains(p) && copy2[p] == w);
        }
    }
    assert forall|w: int| #[trigger] d2.contains(w) implies 0 <= w < src0.len() by {
        if w != v {
            assert(done.contains(w));
        }
    }
    assert forall|w: int| 0 <= w < src0.len() implies #[trigger] src2[w] == src0[w] by {
        assert(src2[w] == src1[w]);
    }
    copy2
}

/// Re-pointing the half-edges that end at `v` at the copies of their
/// groups marks `v` done.
proof fn lemma_split_ends(to: Seq<usize>, opp: Seq<usize>, next: Seq<usize>, face: Seq<Option<usize>>, src0: Seq<usize>, src1: Seq<usize>, to1: Seq<usize>, to2: Seq<usize>, copy: Map<(int, int), int>, copy2: Map<(int, int), int>, done: Set<int>, v: int, new_ids: Seq<usize>)
    requires
        copies_ok(to, opp, next, face, src0, src1, copy, done),
        ends_ok(to, opp, next, face, to1, copy, done),
        !done.contains(v),
        new_ids.len() == vertex_fans(to, opp, next, face, v).len(),
        new_ids.len() >= 1,
        new_ids[0] == v,
        forall|g: int| 1 <= g < new_ids.len() ==> #[trigger] copy2[(v, g)] == new_ids[g],
        forall|p: (int, int)| p.0 != v && #[trigger] copy.dom().contains(p) ==> copy2[p] == copy[p],
        to2.len() == to.len(),
        forall|x: int| 0 <= x < to.len() ==> #[trigger] to2[x] == if to[x] as int == v {
            new_ids[group_index(vertex_fans(to, opp, next, face, v), opp[x])] as int
        } else {
            to1[x] as int
        },
    ensures
        ends_ok(to, opp, next, face, to2, copy2, done.insert(v)),
{
    let d2 = done.insert(v);
    assert forall|x: int| 0 <= x < to.len() implies #[trigger] to2[x] == if d2.contains(to[x] as int) {
        split_end(to, opp, next, face, copy2, x)
    } else {
        to[x] as int
    } by {
        let w = to[x] as int;
        let gs = vertex_fans(to, opp, next, face, w);
        let g = group_index(gs, opp[x]);
        lemma_group_index_range(gs, opp[x]);
        if w == v {
        } else {
            assert(d2.contains(w) == done.contains(w));
            if done.contains(w) && g != 0 {
                assert(copy.dom().contains((w, g)));
                assert(copy2[(w, g)] == copy[(w, g)]);
            }
        }
    }
}

/// The half-edges leaving a vertex are finitely many.
proof fn lemma_leaving_finite(to: Seq<usize>, opp: Seq<usize>, n: int, v: int)
    requires
        n <= usize::MAX + 1,
    ensures
        leaving(to, opp, n, v).finite(),
    decreases n,
{
    if n <= 0 {
        assert(leaving(to, opp, n, v) =~= Set::<usize>::empty());
    } else {
        lemma_leaving_finite(to, opp, n - 1, v);
        let (a, b) = (leaving(to, opp, n, v), leaving(to, opp, n - 1, v));
        if to[opp[n - 1] as int] == v {
            assert(a =~= b.insert((n - 1) as usize));
        } else {
            assert(a =~= b);
        }
    }
}

/// The walk one way reads `next` only at face half-edges, so two `next`s
/// that agree there, and lead from face half-edges to face half-edges,
/// give the same walk.
proof fn lemma_walk_back_same(opp: Seq<usize>, n1: Seq<usize>, n2: Seq<usize>, face: Seq<Option<usize>>, rem: Set<usize>, h: int, fuel: nat)
    requires
        0 <= h < n1.len(),
        n2.len() == n1.len(),
        opp.len() == n1.len(),
        face.len() == n1.len(),
        forall|x: int| 0 <= x < n1.len() ==> #[trigger] opp[x] < n1.len(),
        forall|x: int| 0 <= x < n1.len() ==> #[trigger] n1[x] < n1.len(),
        forall|x: int| 0 <= x < n1.len() && #[trigger] face[x] is Some ==> n2[x] == n1[x] && face[n1[x] as int] is Some,
    ensures
        walk_back(opp, n1, face, rem, h, fuel) == walk_back(opp, n2, face, rem, h, fuel),
    decreases fuel,
{
    reveal_with_fuel(walk_back, 1);
    if fuel > 0 && face[h] is Some {
        let a = n1[h] as int;
        let b = n1[a] as int;
        assert(face[a] is Some);
        assert(face[b] is Some);
        let nxt = opp[n1[b] as int];
        if rem.contains(nxt) {
            lemma_walk_back_same(opp, n1, n2, face, rem.remove(nxt), nxt as int, (fuel - 1) as nat);
        }
    }
}

/// The same for the walk the other way.
proof fn lemma_walk_fwd_same(opp: Seq<usize>, n1: Seq<usize>, n2: Seq<usize>, face: Seq<Option<usize>>, rem: Set<usize>, h: int, fuel: nat)
    requires
        0 <= h < n1.len(),
        n2.len() == n1.len(),
        opp.len() == n1.len(),
        face.len() == n1.len(),
        forall|x: int| 0 <= x < n1.len() ==> #[trigger] opp[x] < n1.len(),
        forall|x: int| 0 <= x < n1.len() ==> #[trigger] n1[x] < n1.len(),
        forall|x: int| 0 <= x < n1.len() && #[trigger] face[x] is Some ==> n2[x] == n1[x] && face[n1[x] as int] is Some,
    ensures
        walk_fwd(opp, n1, face, rem, h, fuel) == walk_fwd(opp, n2, face, rem, h, fuel),
    decreases fuel,
{
    reveal_with_fuel(walk_fwd, 1);
    let twin = opp[h] as int;
    if fuel > 0 && face[twin] is Some {
        let nxt = n1[twin];
        if rem.contains(nxt) {
            lemma_walk_fwd_same(opp, n1, n2, face, rem.remove(nxt), nxt as int, (fuel - 1) as nat);
        }
    }
}

/// The same for the fan groups of half-edges in range.
proof fn lemma_fan_split_same(opp: Seq<usize>, n1: Seq<usize>, n2: Seq<usize>, face: Seq<Option<usize>>, rem: Set<usize>, fuel: nat)
    requires
        rem.finite(),
        forall|h: usize| rem.contains(h) ==> h < n1.len(),
        n2.len() == n1.len(),
        opp.len() == n1.len(),
        face.len() == n1.len(),
        forall|x: int| 0 <= x < n1.len() ==> #[trigger] opp[x] < n1.len(),
        forall|x: int| 0 <= x < n1.len() ==> #[trigger] n1[x] < n1.len(),
        forall|x: int| 0 <= x < n1.len() && #[trigger] face[x] is Some ==> n2[x] == n1[x] && face[n1[x] as int] is Some,
    ensures
        fan_split(opp, n1, face, rem, fuel) == fan_split(opp, n2, face, rem, fuel),
    decreases fuel,
{
    if fuel > 0 && !rem.is_empty() {
        let start = least(rem);
        if rem.len() == 0 {
            vstd::set_lib::lemma_set_empty_equivalency_len(rem);
        }
        lemma_least(rem);
        let r1 = rem.remove(start);
        lemma_walk_back_same(opp, n1, n2, face, r1, start as int, r1.len());
        let b = walk_back(opp, n1, face, r1, start as int, r1.len());
        lemma_walk_back_left(opp, n1, face, r1, start as int, r1.len());
        lemma_walk_fwd_same(opp, n1, n2, face, b.1, start as int, b.1.len());
        let f = walk_fwd(opp, n1, face, b.1, start as int, b.1.len());
        lemma_walk_fwd_left(opp, n1, face, b.1, start as int, b.1.len());
        lemma_fan_split_same(opp, n1, n2, face, f.1, (fuel - 1) as nat);
        lemma_fan_split_unfold(opp, n1, face, rem, fuel);
        lemma_fan_split_unfold(opp, n2, face, rem, fuel);
    } else {
        lemma_fan_split_empty(opp, n1, face, rem, fuel);
        lemma_fan_split_empty(opp, n2, face, rem, fuel);
    }
}

/// What the walk one way takes comes out of `rem` and is not left over.
proof fn lemma_walk_back_taken(opp: Seq<usize>, next: Seq<usize>, face: Seq<Option<usize>>, rem: Set<usize>, h: int, fuel: nat)
    requires
        rem.finite(),
    ensures
        ({
            let w = walk_back(opp, next, face, rem, h, fuel);
            forall|i: int| 0 <= i < w.0.len() ==> rem.contains(#[trigger] w.0[i]) && !w.1.contains(w.0[i])
        }),
    decreases fuel,
{
    reveal_with_fuel(walk_back, 1);
    if fuel > 0 && face[h] is Some {
        let nxt = opp[next[next[next[h] as int] as int] as int];
        if rem.contains(nxt) {
            let r2 = rem.remove(nxt);
            lemma_walk_back_taken(opp, next, face, r2, nxt as int, (fuel - 1) as nat);
            lemma_walk_back_left(opp, next, face, r2, nxt as int, (fuel - 1) as nat);
            let w2 = walk_back(opp, next, face, r2, nxt as int, (fuel - 1) as nat);
            let w = walk_back(opp, next, face, rem, h, fuel);
            assert(w.0 == seq![nxt] + w2.0);
            assert(w.1 == w2.1);
            assert forall|i: int| 0 <= i < w.0.len() implies rem.contains(#[trigger] w.0[i]) && !w.1.contains(w.0[i]) by {
                if i > 0 {
                    assert(w.0[i] == w2.0[i - 1]);
                }
            }
        }
    }
}

/// What the walk the other way takes comes out of `rem` and is not left
/// over.
proof fn lemma_walk_fwd_taken(opp: Seq<usize>, next: Seq<usize>, face: Seq<Option<usize>>, rem: Set<usize>, h: int, fuel: nat)
    requires
        rem.finite(),
    ensures
        ({
            let w = walk_fwd(opp, next, face, rem, h, fuel);
            forall|i: int| 0 <= i < w.0.len() ==> rem.contains(#[trigger] w.0[i]) && !w.1.contains(w.0[i])
        }),
    decreases fuel,
{
    reveal_with_fuel(walk_fwd, 1);
    let twin = opp[h] as int;
    if fuel > 0 && face[twin] is Some {
        let nxt = next[twin];
        if rem.contains(nxt) {
            let r2 = rem.remove(nxt);
            lemma_walk_fwd_taken(opp, next, face, r2, nxt as int, (fuel - 1) as nat);
            lemma_walk_fwd_left(opp, next, face, r2, nxt as int, (fuel - 1) as nat);
            let w2 = walk_fwd(opp, next, face, r2, nxt as int, (fuel - 1) as nat);
            let w = walk_fwd(opp, next, face, rem, h, fuel);
            assert(w.0 == seq![nxt] + w2.0);
            assert(w.1 == w2.1);
            assert forall|i: int| 0 <= i < w.0.len() implies rem.contains(#[trigger] w.0[i]) && !w.1.contains(w.0[i]) by {
                if i > 0 {
                    assert(w.0[i] == w2.0[i - 1]);
                }
            }
        }
    }
}

/// The fan groups are non-empty, hold half-edges of `rem` only, and no
/// half-edge lies in two of them; where `rem` is not empty there is one.
proof fn lemma_fan_split_groups(opp: Seq<usize>, next: Seq<usize>, face: Seq<Option<usize>>, rem: Set<usize>, fuel: nat)
    requires
        rem.finite(),
    ensures
        ({
            let gs = fan_split(opp, next, face, rem, fuel);
            &&& forall|g: int| 0 <= g < gs.len() ==> #[trigger] gs[g].len() > 0
            &&& forall|g: int, i: int| 0 <= g < gs.len() && 0 <= i < gs[g].len() ==> rem.contains(#[trigger] gs[g][i])
            &&& forall|g1: int, i: int, g2: int, j: int|
                0 <= g1 < gs.len() && 0 <= g2 < gs.len() && 0 <= i < gs[g1].len() && 0 <= j < gs[g2].len() && g1 != g2
                    ==> #[trigger] gs[g1][i] != #[trigger] gs[g2][j]
            &&& (fuel > 0 && rem.len() > 0 ==> gs.len() > 0)
        }),
    decreases fuel,
{
    if fuel > 0 && !rem.is_empty() {
        let start = least(rem);
        if rem.len() == 0 {
            vstd::set_lib::lemma_set_empty_equivalency_len(rem);
        }
        lemma_least(rem);
        let r1 = rem.remove(start);
        let b = walk_back(opp, next, face, r1, start as int, r1.len());
        lemma_walk_back_left(opp, next, face, r1, start as int, r1.len());
        lemma_walk_back_taken(opp, next, face, r1, start as int, r1.len());
        let f = walk_fwd(opp, next, face, b.1, start as int, b.1.len());
        lemma_walk_fwd_left(opp, next, face, b.1, start as int, b.1.len());
        lemma_walk_fwd_taken(opp, next, face, b.1, start as int, b.1.len());
        lemma_fan_split_groups(opp, next, face, f.1, (fuel - 1) as nat);
        lemma_fan_split_unfold(opp, next, face, rem, fuel);
        let grp = seq![start] + b.0 + f.0;
        let rest = fan_split(opp, next, face, f.1, (fuel - 1) as nat);
        let gs = fan_split(opp, next, face, rem, fuel);
        assert(gs == seq![grp] + rest);
        assert forall|i: int| 0 <= i < grp.len() implies rem.contains(#[trigger] grp[i]) && !f.1.contains(grp[i]) by {
            if i == 0 {
                assert(grp[i] == start);
            } else if i < 1 + b.0.len() {
                assert(grp[i] == b.0[i - 1]);
            } else {
                assert(grp[i] == f.0[i - 1 - b.0.len()]);
            }
        }
        assert forall|g: int| 0 <= g < gs.len() implies #[trigger] gs[g].len() > 0 by {
            if g > 0 {
                assert(gs[g] == rest[g - 1]);
            }
        }
        assert forall|g: int, i: int| 0 <= g < gs.len() && 0 <= i < gs[g].len() implies rem.contains(#[trigger] gs[g][i]) by {
            if g > 0 {
                assert(gs[g] == rest[g - 1]);
                assert(f.1.contains(rest[g - 1][i]));
            }
        }
        assert forall|g1: int, i: int, g2: int, j: int|
            0 <= g1 < gs.len() && 0 <= g2 < gs.len() && 0 <= i < gs[g1].len() && 0 <= j < gs[g2].len() && g1 != g2
                implies #[trigger] gs[g1][i] != #[trigger] gs[g2][j] by {
            if g1 > 0 {
                assert(gs[g1] == rest[g1 - 1]);
                assert(f.1.contains(rest[g1 - 1][i]));
            }
            if g2 > 0 {
                assert(gs[g2] == rest[g2 - 1]);
                assert(f.1.contains(rest[g2 - 1][j]));
            }
            if g1 > 0 && g2 > 0 {
                assert(rest[g1 - 1][i] != rest[g2 - 1][j]);
            }
        }
    } else {
        lemma_fan_split_empty(opp, next, face, rem, fuel);
        if fuel > 0 && rem.len() > 0 {
            assert(rem =~= Set::<usize>::empty());
        }
    }
}

/// A half-edge that lies in group `g` only is counted in group `g`.
proof fn lemma_last_group_at(gs: Seq<Seq<usize>>, h: usize, g: int, n: int)
    requires
        0 <= g < n <= gs.len(),
        gs[g].contains(h),
        forall|g2: int| g < g2 < n ==> !(#[trigger] gs[g2]).contains(h),
    ensures
        last_group(gs, h, n) == Some(g),
    decreases n,
{
    if n - 1 > g {
        assert(!gs[n - 1].contains(h));
        lemma_last_group_at(gs, h, g, n - 1);
    }
}

/// No two of the first `nb` vertices share a position.
proof fn lemma_base_keys_distinct(m: HalfEdgeTopology, faces: Seq<Vec<VertexKey>>, nb: int, v: int, w: int)
    requires
        mesh_vertices_ok(m, faces),
        base_vertices_ok(m, faces, nb),
        0 <= v < nb,
        0 <= w < nb,
        v != w,
    ensures
        vertex_key(m, faces, v) != vertex_key(m, faces, w),
{
    let (a, b) = if v < w { (v, w) } else { (w, v) };
    let s = m.vertex_sources@[a];
    assert(m.vertex_data_indices@[a] == a);
    assert(is_corner(faces, s.0 as int, s.1 as int));
    assert(corner_before(s.0 as int, s.1 as int, m.vertex_sources@[b].0 as int, m.vertex_sources@[b].1 as int));
    assert(faces[s.0 as int]@[s.1 as int] != vertex_key(m, faces, b));
}

/// The first `nb` vertices have distinct positions.
proof fn lemma_base_keys_all_distinct(m: HalfEdgeTopology, faces: Seq<Vec<VertexKey>>, nb: int)
    requires
        mesh_vertices_ok(m, faces),
        base_vertices_ok(m, faces, nb),
    ensures
        forall|v: int, w: int| 0 <= v < nb && 0 <= w < nb && v != w ==> #[trigger] vertex_key(m, faces, v) != #[trigger] vertex_key(m, faces, w),
{
    assert forall|v: int, w: int| 0 <= v < nb && 0 <= w < nb && v != w implies #[trigger] vertex_key(m, faces, v) != #[trigger] vertex_key(m, faces, w) by {
        lemma_base_keys_distinct(m, faces, nb, v, w);
    }
}

/// Some half-edge starts at the position of each vertex: the face
/// half-edge of its source corner.
proof fn lemma_corner_leaves(m: HalfEdgeTopology, faces: Seq<Vec<VertexKey>>, w: int) -> (h: int)
    requires
        mesh_vertices_ok(m, faces),
        mesh_faces_ok(m, faces),
        0 <= w < m.num_vertices,
    ensures
        0 <= h < m.num_half_edges,
        vertex_key(m, faces, origin(m, h)) == vertex_key(m, faces, w),
{
    let s = m.vertex_sources@[w];
    let (f, k) = (s.0 as int, s.1 as int);
    assert(m.vertex_data_indices@[w] == w);
    assert(is_corner(faces, f, k));
    let h = face_half_edge(m, f, k);
    h
}

/// Before the split, a half-edge left each of the first `nb` vertices.
proof fn lemma_base_leaves(m: HalfEdgeTopology, faces: Seq<Vec<VertexKey>>, nb: int, w: int, h: int)
    requires
        forall|v: int, u: int| 0 <= v < nb && 0 <= u < nb && v != u ==> #[trigger] vertex_key(m, faces, v) != #[trigger] vertex_key(m, faces, u),
        0 <= w < nb,
        0 <= h < m.num_half_edges,
        m.edge_opposite_indices@.len() == m.num_half_edges,
        m.edge_vertex_indices@.len() == m.num_half_edges,
        m.edge_opposite_indices@[h] < m.num_half_edges,
        vertex_key(m, faces, origin(m, h)) == vertex_key(m, faces, w),
    ensures
        leaving(ends_before_split(m, faces, nb), m.edge_opposite_indices@, m.num_half_edges as int, w).len() > 0,
{
    let pre = ends_before_split(m, faces, nb);
    let opp = m.edge_opposite_indices@;
    let nhe = m.num_half_edges as int;
    let to1 = m.edge_vertex_indices@;
    let x = opp[h] as int;
    let c = base_at(m, faces, nb, to1[x] as int);
    assert(0 <= w < nb && vertex_key(m, faces, w) == vertex_key(m, faces, to1[x] as int));
    assert(0 <= c < nb && vertex_key(m, faces, c) == vertex_key(m, faces, to1[x] as int));
    assert(c == w);
    assert(pre[x] == c as usize);
    assert(leaving(pre, opp, nhe, w).contains(h as usize));
    lemma_leaving_finite(pre, opp, nhe, w);
    vstd::set::axiom_set_contains_len(leaving(pre, opp, nhe, w), h as usize);
}

/// Vertex `v` has a half-edge leaving it: a base vertex keeps the first
/// fan group round it, and a copy gets a later one.
#[verifier::spinoff_prover]
proof fn lemma_vertex_used(m: HalfEdgeTopology, faces: Seq<Vec<VertexKey>>, nb: int, copy: Map<(int, int), int>, v: int)
    requires
        mesh_split_by(m, faces, nb, copy),
        forall|u: int| 0 <= u < nb ==> #[trigger] leaving(ends_before_split(m, faces, nb), m.edge_opposite_indices@, m.num_half_edges as int, u).len() > 0,
        m.edge_opposite_indices@.len() == m.num_half_edges,
        forall|x: int| 0 <= x < m.num_half_edges ==> #[trigger] m.edge_opposite_indices@[x] < m.num_half_edges && m.edge_opposite_indices@[m.edge_opposite_indices@[x] as int] == x,
        0 <= nb <= v < m.num_vertices || 0 <= v < nb,
    ensures
        exists|h: int| 0 <= h < m.num_half_edges && #[trigger] origin(m, h) == v,
{
    reveal(mesh_split_by);
    let pre = ends_before_split(m, faces, nb);
    let opp = m.edge_opposite_indices@;
    let next = m.edge_next_indices@;
    let face = m.edge_face_indices@;
    let nhe = m.num_half_edges as int;
    let to1 = m.edge_vertex_indices@;
    let (u, g) = if v < nb {
        (v, 0int)
    } else {
        assert(numbers(copy, v));
        let p = choose|p: (int, int)| #[trigger] copy.dom().contains(p) && copy[p] == v;
        assert(copy.dom().contains((p.0, p.1)));
        p
    };
    assert(0 <= u < nb);
    let fans = vertex_fans(pre, opp, next, face, u);
    let s = leaving(pre, opp, opp.len() as int, u);
    assert(s.len() > 0);
    lemma_leaving_finite(pre, opp, opp.len() as int, u);
    lemma_fan_split_groups(opp, next, face, s, s.len());
    assert(0 <= g < fans.len());
    let h = fans[g][0];
    assert(s.contains(h));
    assert(h < nhe && pre[opp[h as int] as int] == u);
    assert forall|g2: int| g < g2 < fans.len() implies !(#[trigger] fans[g2]).contains(h) by {
        if fans[g2].contains(h) {
            let j = choose|j: int| 0 <= j < fans[g2].len() && fans[g2][j] == h;
            assert(fans[g][0] != fans[g2][j]);
        }
    }
    assert(fans[g].contains(h)) by {
        assert(fans[g][0] == h);
    }
    lemma_last_group_at(fans, h, g, fans.len() as int);
    let x = opp[h as int] as int;
    assert(opp[x] == h);
    assert(to1[x] == split_end(pre, opp, next, face, copy, x));
    assert(origin(m, h as int) == v);
}

/// Every vertex of the mesh has a half-edge leaving it, and the
/// half-edges leaving it form one fan.
#[verifier::spinoff_prover]
proof fn lemma_vertices_used(m: HalfEdgeTopology, faces: Seq<Vec<VertexKey>>, nb: int, copy: Map<(int, int), int>)
    requires
        mesh_sizes_ok(m, faces),
        mesh_edges_ok(m, faces),
        mesh_vertices_ok(m, faces),
        mesh_faces_ok(m, faces),
        base_vertices_ok(m, faces, nb),
        mesh_split_by(m, faces, nb, copy),
    ensures
        mesh_fans_ok(m),
{
    reveal(mesh_fans_ok);
    let nhe = m.num_half_edges as int;
    let opp = m.edge_opposite_indices@;
    lemma_base_keys_all_distinct(m, faces, nb);
    assert forall|x: int| 0 <= x < nhe implies #[trigger] opp[x] < nhe && opp[opp[x] as int] == x by {
        assert(opp[x] == twin_slot(x));
        assert(opp[opp[x] as int] == twin_slot(opp[x] as int));
    }
    assert forall|u: int| 0 <= u < nb implies #[trigger] leaving(ends_before_split(m, faces, nb), opp, nhe, u).len() > 0 by {
        let h = lemma_corner_leaves(m, faces, u);
        assert(opp[h] == twin_slot(h));
        lemma_base_leaves(m, faces, nb, u, h);
    }
    assert forall|v: int| 0 <= v < m.num_vertices implies #[trigger] m.vertex_edge_indices@[v] is Some by {
        lemma_vertex_used(m, faces, nb, copy, v);
        let h = choose|h: int| 0 <= h < nhe && #[trigger] origin(m, h) == v;
        assert(m.vertex_data_indices@[v] == v);
    }
    assert forall|v: int| 0 <= v < m.num_vertices implies #[trigger] vertex_fans(m.edge_vertex_indices@, opp, m.edge_next_indices@, m.edge_face_indices@, v).len() == 1 by {
        lemma_vertex_one_fan(m, faces, nb, copy, v);
    }
}

/// One step of the walk one way from face half-edge `h`: the twin of the
/// half-edge three steps on round its face.
pub open spec fn back_step(opp: Seq<usize>, next: Seq<usize>, face: Seq<Option<usize>>, h: int) -> Option<usize> {
    if face[h] is Some {
        Some(opp[next[next[next[h] as int] as int] as int])
    } else {
        None
    }
}

/// One step of the walk the other way from `h`: where its twin lies on a
/// face, the half-edge after that twin.
pub open spec fn fwd_step(opp: Seq<usize>, next: Seq<usize>, face: Seq<Option<usize>>, h: int) -> Option<usize> {
    if face[opp[h] as int] is Some {
        Some(next[opp[h] as int])
    } else {
        None
    }
}

/// Twins pair up, and every face is a cycle of four half-edges.
pub open spec fn quad_links(opp: Seq<usize>, next: Seq<usize>, face: Seq<Option<usize>>, n: int) -> bool {
    &&& opp.len() == n
    &&& next.len() == n
    &&& face.len() == n
    &&& forall|x: int| 0 <= x < n ==> #[trigger] opp[x] < n && opp[opp[x] as int] == x
    &&& forall|x: int| 0 <= x < n ==> #[trigger] next[x] < n
    &&& forall|x: int|
        0 <= x < n && #[trigger] face[x] is Some ==> face[next[x] as int] is Some
            && next[next[next[next[x] as int] as int] as int] == x
}

/// `x` is among the entries of `s`: within `s`, each step of either walk
/// from a half-edge of `x` stays in `x`.
pub open spec fn closed_in(x: Set<usize>, s: Set<usize>, opp: Seq<usize>, next: Seq<usize>, face: Seq<Option<usize>>) -> bool {
    &&& forall|h: usize, y: usize|
        #![trigger back_step(opp, next, face, h as int), x.contains(y)]
        x.contains(h) && back_step(opp, next, face, h as int) == Some(y) && s.contains(y) ==> x.contains(y)
    &&& forall|h: usize, y: usize|
        #![trigger fwd_step(opp, next, face, h as int), x.contains(y)]
        x.contains(h) && fwd_step(opp, next, face, h as int) == Some(y) && s.contains(y) ==> x.contains(y)
}

/// In a quad mesh, each walk undoes a step of the other.
proof fn lemma_steps_inverse(opp: Seq<usize>, next: Seq<usize>, face: Seq<Option<usize>>, n: int, a: usize, b: usize)
    requires
        quad_links(opp, next, face, n),
        a < n,
        b < n,
    ensures
        back_step(opp, next, face, a as int) == Some(b) <==> fwd_step(opp, next, face, b as int) == Some(a),
{
    if back_step(opp, next, face, a as int) == Some(b) {
        let a1 = next[a as int] as int;
        let a2 = next[a1] as int;
        let a3 = next[a2] as int;
        assert(face[a1] is Some);
        assert(face[a2] is Some);
        assert(opp[b as int] == a3);
    }
    if fwd_step(opp, next, face, b as int) == Some(a) {
        let t = opp[b as int] as int;
        let t1 = next[t] as int;
        let t2 = next[t1] as int;
        let t3 = next[t2] as int;
        assert(face[t1] is Some);
        assert(face[t2] is Some);
        assert(face[t3] is Some);
        assert(next[t3] == t);
        assert(a as int == t1);
        assert(next[next[next[a as int] as int] as int] == t);
    }
}

/// The walk one way from `h` is a chain of steps that ends where the next
/// step leaves what is left; what it does not take is left.
proof fn lemma_walk_back_chain(opp: Seq<usize>, next: Seq<usize>, face: Seq<Option<usize>>, rem: Set<usize>, h: usize, fuel: nat)
    requires
        rem.finite(),
        fuel >= rem.len(),
    ensures
        ({
            let w = walk_back(opp, next, face, rem, h as int, fuel);
            let c = seq![h] + w.0;
            &&& forall|i: int| 0 <= i < c.len() - 1 ==> back_step(opp, next, face, #[trigger] c[i] as int) == Some(c[i + 1])
            &&& (back_step(opp, next, face, c.last() as int) matches Some(y) ==> !w.1.contains(y))
            &&& forall|y: usize| rem.contains(y) ==> w.1.contains(y) || w.0.contains(y)
        }),
    decreases fuel,
{
    reveal_with_fuel(walk_back, 1);
    let w = walk_back(opp, next, face, rem, h as int, fuel);
    let c = seq![h] + w.0;
    if fuel == 0 {
        if rem.len() == 0 {
            vstd::set_lib::lemma_set_empty_equivalency_len(rem);
        }
        assert(c =~= seq![h]);
        assert(rem =~= Set::<usize>::empty());
    } else if face[h as int] is None {
        assert(c =~= seq![h]);
    } else {
        let nxt = opp[next[next[next[h as int] as int] as int] as int];
        if rem.contains(nxt) {
            let r2 = rem.remove(nxt);
            vstd::set::axiom_set_remove_len(rem, nxt);
            lemma_walk_back_chain(opp, next, face, r2, nxt, (fuel - 1) as nat);
            let w2 = walk_back(opp, next, face, r2, nxt as int, (fuel - 1) as nat);
            let c2 = seq![nxt] + w2.0;
            assert(w.0 == c2);
            assert(c =~= seq![h] + c2);
            assert forall|i: int| 0 <= i < c.len() - 1 implies back_step(opp, next, face, #[trigger] c[i] as int) == Some(c[i + 1]) by {
                if i > 0 {
                    assert(c[i] == c2[i - 1]);
                    assert(c[i + 1] == c2[i]);
                }
            }
            assert(c.last() == c2.last());
            assert forall|y: usize| rem.contains(y) implies w.1.contains(y) || w.0.contains(y) by {
                if y != nxt {
                    assert(r2.contains(y));
                    if w2.0.contains(y) {
                        let j = choose|j: int| 0 <= j < w2.0.len() && w2.0[j] == y;
                        assert(w.0[j + 1] == y);
                    }
                } else {
                    assert(w.0[0] == y);
                }
            }
        } else {
            assert(c =~= seq![h]);
        }
    }
}

/// The same for the walk the other way.
proof fn lemma_walk_fwd_chain(opp: Seq<usize>, next: Seq<usize>, face: Seq<Option<usize>>, rem: Set<usize>, h: usize, fuel: nat)
    requires
        rem.finite(),
        fuel >= rem.len(),
    ensures
        ({
            let w = walk_fwd(opp, next, face, rem, h as int, fuel);
            let c = seq![h] + w.0;
            &&& forall|i: int| 0 <= i < c.len() - 1 ==> fwd_step(opp, next, face, #[trigger] c[i] as int) == Some(c[i + 1])
            &&& (fwd_step(opp, next, face, c.last() as int) matches Some(y) ==> !w.1.contains(y))
            &&& forall|y: usize| rem.contains(y) ==> w.1.contains(y) || w.0.contains(y)
        }),
    decreases fuel,
{
    reveal_with_fuel(walk_fwd, 1);
    let w = walk_fwd(opp, next, face, rem, h as int, fuel);
    let c = seq![h] + w.0;
    let twin = opp[h as int] as int;
    if fuel == 0 {
        if rem.len() == 0 {
            vstd::set_lib::lemma_set_empty_equivalency_len(rem);
        }
        assert(c =~= seq![h]);
        assert(rem =~= Set::<usize>::empty());
    } else if face[twin] is None {
        assert(c =~= seq![h]);
    } else {
        let nxt = next[twin];
        if rem.contains(nxt) {
            let r2 = rem.remove(nxt);
            vstd::set::axiom_set_remove_len(rem, nxt);
            lemma_walk_fwd_chain(opp, next, face, r2, nxt, (fuel - 1) as nat);
            let w2 = walk_fwd(opp, next, face, r2, nxt as int, (fuel - 1) as nat);
            let c2 = seq![nxt] + w2.0;
            assert(w.0 == c2);
            assert(c =~= seq![h] + c2);
            assert forall|i: int| 0 <= i < c.len() - 1 implies fwd_step(opp, next, face, #[trigger] c[i] as int) == Some(c[i + 1]) by {
                if i > 0 {
                    assert(c[i] == c2[i - 1]);
                    assert(c[i + 1] == c2[i]);
                }
            }
            assert(c.last() == c2.last());
            assert forall|y: usize| rem.contains(y) implies w.1.contains(y) || w.0.contains(y) by {
                if y != nxt {
                    assert(r2.contains(y));
                    if w2.0.contains(y) {
                        let j = choose|j: int| 0 <= j < w2.0.len() && w2.0[j] == y;
                        assert(w.0[j + 1] == y);
                    }
                } else {
                    assert(w.0[0] == y);
                }
            }
        } else {
            assert(c =~= seq![h]);
        }
    }
}

/// In a quad mesh, each fan group of `rem` is closed under the walk one
/// way within `s`, and the groups cover `rem`, where `rem` is closed
/// under both walks within `s`.
#[verifier::spinoff_prover]
#[verifier::rlimit(100)]
proof fn lemma_fan_split_closed(opp: Seq<usize>, next: Seq<usize>, face: Seq<Option<usize>>, n: int, s: Set<usize>, rem: Set<usize>, fuel: nat)
    requires
        quad_links(opp, next, face, n),
        rem.finite(),
        fuel >= rem.len(),
        rem.subset_of(s),
        forall|h: usize| s.contains(h) ==> h < n,
        closed_in(rem, s, opp, next, face),
    ensures
        ({
            let gs = fan_split(opp, next, face, rem, fuel);
            &&& forall|g: int, i: int, y: usize|
                #![trigger gs[g][i], gs[g].contains(y)]
                0 <= g < gs.len() && 0 <= i < gs[g].len() && back_step(opp, next, face, gs[g][i] as int) == Some(y) && s.contains(y)
                    ==> gs[g].contains(y)
            &&& forall|y: usize| rem.contains(y) ==> exists|g: int| 0 <= g < gs.len() && #[trigger] gs[g].contains(y)
        }),
    decreases fuel,
{
    let gs = fan_split(opp, next, face, rem, fuel);
    if fuel == 0 || rem.is_empty() {
        lemma_fan_split_empty(opp, next, face, rem, fuel);
        if fuel == 0 {
            vstd::set_lib::lemma_set_empty_equivalency_len(rem);
        }
        assert(rem =~= Set::<usize>::empty());
        assert forall|y: usize| rem.contains(y) implies exists|g: int| 0 <= g < gs.len() && #[trigger] gs[g].contains(y) by {
            assert(!Set::<usize>::empty().contains(y));
        }
        return;
    }
    if rem.len() == 0 {
        vstd::set_lib::lemma_set_empty_equivalency_len(rem);
    }
    lemma_least(rem);
    let start = least(rem);
    let r1 = rem.remove(start);
    vstd::set::axiom_set_remove_len(rem, start);
    let b = walk_back(opp, next, face, r1, start as int, r1.len());
    lemma_walk_back_chain(opp, next, face, r1, start, r1.len());
    lemma_walk_back_left(opp, next, face, r1, start as int, r1.len());
    lemma_walk_back_taken(opp, next, face, r1, start as int, r1.len());
    let f = walk_fwd(opp, next, face, b.1, start as int, b.1.len());
    lemma_walk_fwd_chain(opp, next, face, b.1, start, b.1.len());
    lemma_walk_fwd_left(opp, next, face, b.1, start as int, b.1.len());
    lemma_walk_fwd_taken(opp, next, face, b.1, start as int, b.1.len());
    lemma_fan_split_unfold(opp, next, face, rem, fuel);
    let cb = seq![start] + b.0;
    let cf = seq![start] + f.0;
    let grp = cb + f.0;
    let rest = fan_split(opp, next, face, f.1, (fuel - 1) as nat);
    assert(gs == seq![grp] + rest);
    // Where the group's entries stand.
    assert forall|k: int| 0 <= k < cb.len() implies #[trigger] grp[k] == cb[k] by {}
    assert forall|j: int| 0 <= j < cf.len() implies grp.contains(#[trigger] cf[j]) by {
        if j == 0 {
            assert(grp[0] == start);
        } else {
            assert(grp[cb.len() + j - 1] == cf[j]);
        }
    }
    assert forall|k: int| 0 <= k < cb.len() implies grp.contains(#[trigger] cb[k]) by {
        assert(grp[k] == cb[k]);
    }
    // The group and what is left part `rem`.
    assert forall|y: usize| rem.contains(y) implies grp.contains(y) || f.1.contains(y) by {
        if y == start {
            assert(grp[0] == y);
        } else {
            assert(r1.contains(y));
            if b.0.contains(y) {
                let k = choose|k: int| 0 <= k < b.0.len() && b.0[k] == y;
                assert(cb[k + 1] == y);
            } else if f.0.contains(y) {
                let k = choose|k: int| 0 <= k < f.0.len() && f.0[k] == y;
                assert(cf[k + 1] == y);
            }
        }
    }
    assert forall|y: usize| grp.contains(y) implies rem.contains(y) && !f.1.contains(y) by {
        let k = choose|k: int| 0 <= k < grp.len() && grp[k] == y;
        if k == 0 {
        } else if k < cb.len() {
            assert(b.0[k - 1] == y);
        } else {
            assert(f.0[k - cb.len()] == y);
        }
    }
    // The group is closed under both walks within `s`.
    assert forall|x: usize, y: usize|
        #![trigger back_step(opp, next, face, x as int), grp.contains(y)]
        grp.contains(x) && back_step(opp, next, face, x as int) == Some(y) && s.contains(y) implies grp.contains(y) by {
        let k = choose|k: int| 0 <= k < grp.len() && grp[k] == x;
        assert(rem.contains(x));
        assert(rem.contains(y));
        if k < cb.len() {
            assert(cb[k] == x);
            if k < cb.len() - 1 {
                assert(back_step(opp, next, face, cb[k] as int) == Some(cb[k + 1]));
            } else {
                assert(cb.last() == x);
                assert(!b.1.contains(y));
                if y != start {
                    assert(r1.contains(y));
                }
            }
        } else {
            let j = k - cb.len() + 1;
            assert(cf[j] == x);
            assert(fwd_step(opp, next, face, cf[j - 1] as int) == Some(cf[j]));
            lemma_steps_inverse(opp, next, face, n, x, cf[j - 1]);
        }
    }
    assert forall|x: usize, y: usize|
        #![trigger fwd_step(opp, next, face, x as int), grp.contains(y)]
        grp.contains(x) && fwd_step(opp, next, face, x as int) == Some(y) && s.contains(y) implies grp.contains(y) by {
        let k = choose|k: int| 0 <= k < grp.len() && grp[k] == x;
        assert(rem.contains(x));
        assert(rem.contains(y));
        if k == 0 || k >= cb.len() {
            let j = if k == 0 { 0 } else { k - cb.len() + 1 };
            assert(cf[j] == x);
            if j < cf.len() - 1 {
                assert(fwd_step(opp, next, face, cf[j] as int) == Some(cf[j + 1]));
            } else {
                assert(cf.last() == x);
                assert(!f.1.contains(y));
            }
        } else {
            assert(cb[k] == x);
            assert(back_step(opp, next, face, cb[k - 1] as int) == Some(cb[k]));
            lemma_steps_inverse(opp, next, face, n, cb[k - 1], x);
        }
    }
    // What is left stays closed.
    assert forall|x: usize, y: usize|
        #![trigger back_step(opp, next, face, x as int), f.1.contains(y)]
        f.1.contains(x) && back_step(opp, next, face, x as int) == Some(y) && s.contains(y) implies f.1.contains(y) by {
        assert(rem.contains(x));
        assert(rem.contains(y));
        if grp.contains(y) {
            lemma_steps_inverse(opp, next, face, n, x, y);
            assert(grp.contains(x));
        }
    }
    assert forall|x: usize, y: usize|
        #![trigger fwd_step(opp, next, face, x as int), f.1.contains(y)]
        f.1.contains(x) && fwd_step(opp, next, face, x as int) == Some(y) && s.contains(y) implies f.1.contains(y) by {
        assert(rem.contains(x));
        assert(rem.contains(y));
        if grp.contains(y) {
            lemma_steps_inverse(opp, next, face, n, y, x);
            assert(grp.contains(x));
        }
    }
    assert(closed_in(f.1, s, opp, next, face));
    lemma_fan_split_closed(opp, next, face, n, s, f.1, (fuel - 1) as nat);
    assert forall|g: int, i: int, y: usize|
        #![trigger gs[g][i], gs[g].contains(y)]
        0 <= g < gs.len() && 0 <= i < gs[g].len() && back_step(opp, next, face, gs[g][i] as int) == Some(y) && s.contains(y)
            implies gs[g].contains(y) by {
        if g == 0 {
            assert(gs[0] == grp);
            assert(grp.contains(grp[i]));
        } else {
            assert(gs[g] == rest[g - 1]);
            assert(rest[g - 1][i] == gs[g][i]);
        }
    }
    assert forall|y: usize| rem.contains(y) implies exists|g: int| 0 <= g < gs.len() && #[trigger] gs[g].contains(y) by {
        if grp.contains(y) {
            assert(gs[0] == grp);
        } else {
            assert(f.1.contains(y));
            let g2 = choose|g2: int| 0 <= g2 < rest.len() && #[trigger] rest[g2].contains(y);
            assert(gs[g2 + 1] == rest[g2]);
        }
    }
}

/// Walking one way within a part `sub` of `rem` that holds every
/// half-edge the walk within `rem` takes: the same half-edges are taken,
/// and what is left is the part of `sub` left within `rem`.
proof fn lemma_walk_back_within(opp: Seq<usize>, next: Seq<usize>, face: Seq<Option<usize>>, rem: Set<usize>, sub: Set<usize>, h: int, fuel: nat, fuel2: nat)
    requires
        rem.finite(),
        sub.subset_of(rem),
        fuel >= rem.len(),
        fuel2 >= sub.len(),
        forall|i: int| 0 <= i < walk_back(opp, next, face, rem, h, fuel).0.len() ==> sub.contains(#[trigger] walk_back(opp, next, face, rem, h, fuel).0[i]),
    ensures
        walk_back(opp, next, face, sub, h, fuel2).0 == walk_back(opp, next, face, rem, h, fuel).0,
        walk_back(opp, next, face, sub, h, fuel2).1 == sub.intersect(walk_back(opp, next, face, rem, h, fuel).1),
    decreases fuel,
{
    reveal_with_fuel(walk_back, 1);
    vstd::set_lib::lemma_len_subset(sub, rem);
    let w = walk_back(opp, next, face, rem, h, fuel);
    let w2 = walk_back(opp, next, face, sub, h, fuel2);
    if fuel == 0 || face[h] is None {
        if fuel == 0 {
            vstd::set_lib::lemma_set_empty_equivalency_len(rem);
            assert(sub =~= Set::<usize>::empty());
        }
        assert(sub.intersect(rem) =~= sub);
        return;
    }
    let nxt = opp[next[next[next[h] as int] as int] as int];
    if rem.contains(nxt) {
        let r2 = rem.remove(nxt);
        let w3 = walk_back(opp, next, face, r2, nxt as int, (fuel - 1) as nat);
        assert(w.0 == seq![nxt] + w3.0);
        assert(w.0[0] == nxt);
        assert(sub.contains(nxt));
        if fuel2 == 0 {
            vstd::set_lib::lemma_set_empty_equivalency_len(sub);
            assert(false);
        }
        let s2 = sub.remove(nxt);
        vstd::set::axiom_set_remove_len(sub, nxt);
        vstd::set::axiom_set_remove_len(rem, nxt);
        lemma_walk_back_taken(opp, next, face, r2, nxt as int, (fuel - 1) as nat);
        assert forall|i: int| 0 <= i < w3.0.len() implies s2.contains(#[trigger] w3.0[i]) by {
            assert(w.0[i + 1] == w3.0[i]);
            assert(r2.contains(w3.0[i]));
        }
        lemma_walk_back_within(opp, next, face, r2, s2, nxt as int, (fuel - 1) as nat, (fuel2 - 1) as nat);
        lemma_walk_back_left(opp, next, face, r2, nxt as int, (fuel - 1) as nat);
        assert(s2.intersect(w3.1) =~= sub.intersect(w3.1));
    } else {
        assert(!sub.contains(nxt));
        assert(sub.intersect(rem) =~= sub);
    }
}

/// The same for the walk the other way.
proof fn lemma_walk_fwd_within(opp: Seq<usize>, next: Seq<usize>, face: Seq<Option<usize>>, rem: Set<usize>, sub: Set<usize>, h: int, fuel: nat, fuel2: nat)
    requires
        rem.finite(),
        sub.subset_of(rem),
        fuel >= rem.len(),
        fuel2 >= sub.len(),
        forall|i: int| 0 <= i < walk_fwd(opp, next, face, rem, h, fuel).0.len() ==> sub.contains(#[trigger] walk_fwd(opp, next, face, rem, h, fuel).0[i]),
    ensures
        walk_fwd(opp, next, face, sub, h, fuel2).0 == walk_fwd(opp, next, face, rem, h, fuel).0,
        walk_fwd(opp, next, face, sub, h, fuel2).1 == sub.intersect(walk_fwd(opp, next, face, rem, h, fuel).1),
    decreases fuel,
{
    reveal_with_fuel(walk_fwd, 1);
    vstd::set_lib::lemma_len_subset(sub, rem);
    let w = walk_fwd(opp, next, face, rem, h, fuel);
    let w2 = walk_fwd(opp, next, face, sub, h, fuel2);
    let twin = opp[h] as int;
    if fuel == 0 || face[twin] is None {
        if fuel == 0 {
            vstd::set_lib::lemma_set_empty_equivalency_len(rem);
            assert(sub =~= Set::<usize>::empty());
        }
        assert(sub.intersect(rem) =~= sub);
        return;
    }
    let nxt = next[twin];
    if rem.contains(nxt) {
        let r2 = rem.remove(nxt);
        let w3 = walk_fwd(opp, next, face, r2, nxt as int, (fuel - 1) as nat);
        assert(w.0 == seq![nxt] + w3.0);
        assert(w.0[0] == nxt);
        assert(sub.contains(nxt));
        if fuel2 == 0 {
            vstd::set_lib::lemma_set_empty_equivalency_len(sub);
            assert(false);
        }
        let s2 = sub.remove(nxt);
        vstd::set::axiom_set_remove_len(sub, nxt);
        vstd::set::axiom_set_remove_len(rem, nxt);
        lemma_walk_fwd_taken(opp, next, face, r2, nxt as int, (fuel - 1) as nat);
        assert forall|i: int| 0 <= i < w3.0.len() implies s2.contains(#[trigger] w3.0[i]) by {
            assert(w.0[i + 1] == w3.0[i]);
            assert(r2.contains(w3.0[i]));
        }
        lemma_walk_fwd_within(opp, next, face, r2, s2, nxt as int, (fuel - 1) as nat, (fuel2 - 1) as nat);
        lemma_walk_fwd_left(opp, next, face, r2, nxt as int, (fuel - 1) as nat);
        assert(s2.intersect(w3.1) =~= sub.intersect(w3.1));
    } else {
        assert(!sub.contains(nxt));
        assert(sub.intersect(rem) =~= sub);
    }
}

/// Each fan group, taken on its own, is one fan group: grouping its
/// half-edges gives back the group itself.
#[verifier::spinoff_prover]
#[verifier::rlimit(100)]
proof fn lemma_fan_group_alone(opp: Seq<usize>, next: Seq<usize>, face: Seq<Option<usize>>, rem: Set<usize>, fuel: nat, g: int, fuel2: nat)
    requires
        rem.finite(),
        fuel >= rem.len(),
        0 <= g < fan_split(opp, next, face, rem, fuel).len(),
        fuel2 >= fan_split(opp, next, face, rem, fuel)[g].to_set().len(),
    ensures
        fan_split(opp, next, face, fan_split(opp, next, face, rem, fuel)[g].to_set(), fuel2)
            == seq![fan_split(opp, next, face, rem, fuel)[g]],
    decreases fuel,
{
    let gs = fan_split(opp, next, face, rem, fuel);
    if fuel == 0 || rem.is_empty() {
        lemma_fan_split_empty(opp, next, face, rem, fuel);
        return;
    }
    if rem.len() == 0 {
        vstd::set_lib::lemma_set_empty_equivalency_len(rem);
    }
    lemma_least(rem);
    let start = least(rem);
    let r1 = rem.remove(start);
    vstd::set::axiom_set_remove_len(rem, start);
    let b = walk_back(opp, next, face, r1, start as int, r1.len());
    lemma_walk_back_left(opp, next, face, r1, start as int, r1.len());
    lemma_walk_back_taken(opp, next, face, r1, start as int, r1.len());
    let f = walk_fwd(opp, next, face, b.1, start as int, b.1.len());
    lemma_walk_fwd_left(opp, next, face, b.1, start as int, b.1.len());
    lemma_walk_fwd_taken(opp, next, face, b.1, start as int, b.1.len());
    lemma_fan_split_unfold(opp, next, face, rem, fuel);
    let grp = seq![start] + b.0 + f.0;
    let rest = fan_split(opp, next, face, f.1, (fuel - 1) as nat);
    assert(gs == seq![grp] + rest);
    if g > 0 {
        assert(gs[g] == rest[g - 1]);
        lemma_fan_group_alone(opp, next, face, f.1, (fuel - 1) as nat, g - 1, fuel2);
        return;
    }
    assert(gs[0] == grp);
    let gset = grp.to_set();
    // `start` is the least of the group, as of `rem`.
    assert(gset.contains(start)) by {
        assert(grp[0] == start);
    }
    assert forall|y: usize| gset.contains(y) implies rem.contains(y) by {
        let k = choose|k: int| 0 <= k < grp.len() && grp[k] == y;
        if k > 0 && k < 1 + b.0.len() {
            assert(y == b.0[k - 1]);
        } else if k >= 1 + b.0.len() {
            assert(y == f.0[k - 1 - b.0.len()]);
        }
    }
    lemma_least_is(gset, start);
    vstd::seq_lib::seq_to_set_is_finite(grp);
    vstd::set_lib::lemma_len_subset(gset, rem);
    let g1 = gset.remove(start);
    vstd::set::axiom_set_remove_len(gset, start);
    assert(g1.subset_of(r1));
    vstd::set_lib::lemma_len_subset(g1, r1);
    assert forall|i: int| 0 <= i < b.0.len() implies g1.contains(#[trigger] b.0[i]) by {
        assert(grp[1 + i] == b.0[i]);
        assert(r1.contains(b.0[i]));
    }
    lemma_walk_back_within(opp, next, face, r1, g1, start as int, r1.len(), g1.len());
    let bg = walk_back(opp, next, face, g1, start as int, g1.len());
    assert(bg.0 == b.0);
    assert(bg.1 == g1.intersect(b.1));
    vstd::set_lib::lemma_len_subset(bg.1, b.1);
    assert forall|i: int| 0 <= i < f.0.len() implies bg.1.contains(#[trigger] f.0[i]) by {
        assert(grp[1 + b.0.len() + i] == f.0[i]);
        assert(b.1.contains(f.0[i]));
        assert(r1.contains(f.0[i]));
    }
    lemma_walk_fwd_within(opp, next, face, b.1, bg.1, start as int, b.1.len(), bg.1.len());
    let fg = walk_fwd(opp, next, face, bg.1, start as int, bg.1.len());
    assert(fg.0 == f.0);
    assert(fg.1 =~= Set::<usize>::empty()) by {
        assert forall|y: usize| !fg.1.contains(y) by {
            if fg.1.contains(y) {
                assert(bg.1.contains(y) && f.1.contains(y));
                assert(g1.contains(y) && b.1.contains(y));
                let k = choose|k: int| 0 <= k < grp.len() && grp[k] == y;
                if k == 0 {
                } else if k < 1 + b.0.len() {
                    assert(y == b.0[k - 1]);
                } else {
                    assert(y == f.0[k - 1 - b.0.len()]);
                }
            }
        }
    }
    assert(!gset.is_empty()) by {
        assert(gset.contains(start));
    }
    assert(fuel2 > 0) by {
        vstd::set::axiom_set_contains_len(gset, start);
    }
    lemma_fan_split_unfold(opp, next, face, gset, fuel2);
    lemma_fan_split_empty(opp, next, face, fg.1, (fuel2 - 1) as nat);
    assert(fan_split(opp, next, face, gset, fuel2) =~= seq![grp]);
}

/// The fan groups cover `rem`.
proof fn lemma_fan_split_cover(opp: Seq<usize>, next: Seq<usize>, face: Seq<Option<usize>>, rem: Set<usize>, fuel: nat)
    requires
        rem.finite(),
        fuel >= rem.len(),
    ensures
        forall|y: usize| rem.contains(y) ==> exists|g: int| 0 <= g < fan_split(opp, next, face, rem, fuel).len() && #[trigger] fan_split(opp, next, face, rem, fuel)[g].contains(y),
    decreases fuel,
{
    let gs = fan_split(opp, next, face, rem, fuel);
    if fuel == 0 || rem.is_empty() {
        if fuel == 0 {
            vstd::set_lib::lemma_set_empty_equivalency_len(rem);
        }
        assert(rem =~= Set::<usize>::empty());
        assert forall|y: usize| rem.contains(y) implies exists|g: int| 0 <= g < gs.len() && #[trigger] gs[g].contains(y) by {
            assert(!Set::<usize>::empty().contains(y));
        }
        return;
    }
    if rem.len() == 0 {
        vstd::set_lib::lemma_set_empty_equivalency_len(rem);
    }
    lemma_least(rem);
    let start = least(rem);
    let r1 = rem.remove(start);
    vstd::set::axiom_set_remove_len(rem, start);
    let b = walk_back(opp, next, face, r1, start as int, r1.len());
    lemma_walk_back_chain(opp, next, face, r1, start, r1.len());
    lemma_walk_back_left(opp, next, face, r1, start as int, r1.len());
    let f = walk_fwd(opp, next, face, b.1, start as int, b.1.len());
    lemma_walk_fwd_chain(opp, next, face, b.1, start, b.1.len());
    lemma_walk_fwd_left(opp, next, face, b.1, start as int, b.1.len());
    lemma_fan_split_unfold(opp, next, face, rem, fuel);
    let grp = seq![start] + b.0 + f.0;
    let rest = fan_split(opp, next, face, f.1, (fuel - 1) as nat);
    assert(gs == seq![grp] + rest);
    lemma_fan_split_cover(opp, next, face, f.1, (fuel - 1) as nat);
    assert forall|y: usize| rem.contains(y) implies exists|g: int| 0 <= g < gs.len() && #[trigger] gs[g].contains(y) by {
        assert(gs[0] == grp);
        if y == start {
            assert(grp[0] == y);
            assert(gs[0].contains(y));
        } else if b.0.contains(y) {
            let k = choose|k: int| 0 <= k < b.0.len() && b.0[k] == y;
            assert(grp[1 + k] == y);
            assert(gs[0].contains(y));
        } else {
            assert(r1.contains(y));
            assert(b.1.contains(y));
            if f.0.contains(y) {
                let k = choose|k: int| 0 <= k < f.0.len() && f.0[k] == y;
                assert(grp[1 + b.0.len() + k] == y);
                assert(gs[0].contains(y));
            } else {
                assert(f.1.contains(y));
                let g2 = choose|g2: int| 0 <= g2 < rest.len() && #[trigger] rest[g2].contains(y);
                assert(gs[g2 + 1] == rest[g2]);
                assert(gs[g2 + 1].contains(y));
            }
        }
    }
}

/// The group that a half-edge of `rem` is counted in holds it, and is
/// the only one that does.
proof fn lemma_group_index_holds(opp: Seq<usize>, next: Seq<usize>, face: Seq<Option<usize>>, rem: Set<usize>, h: usize)
    requires
        rem.finite(),
        rem.contains(h),
    ensures
        ({
            let gs = fan_split(opp, next, face, rem, rem.len());
            let g = group_index(gs, h);
            &&& 0 <= g < gs.len()
            &&& gs[g].contains(h)
            &&& forall|g2: int| 0 <= g2 < gs.len() && #[trigger] gs[g2].contains(h) ==> g2 == g
        }),
{
    let gs = fan_split(opp, next, face, rem, rem.len());
    lemma_fan_split_cover(opp, next, face, rem, rem.len());
    lemma_fan_split_groups(opp, next, face, rem, rem.len());
    let g0 = choose|g: int| 0 <= g < gs.len() && #[trigger] gs[g].contains(h);
    assert forall|g2: int| 0 <= g2 < gs.len() && #[trigger] gs[g2].contains(h) implies g2 == g0 by {
        if g2 != g0 {
            let i = choose|i: int| 0 <= i < gs[g0].len() && gs[g0][i] == h;
            let j = choose|j: int| 0 <= j < gs[g2].len() && gs[g2][j] == h;
            assert(gs[g0][i] != gs[g2][j]);
        }
    }
    assert forall|g2: int| g0 < g2 < gs.len() implies !(#[trigger] gs[g2]).contains(h) by {
        if gs[g2].contains(h) {
            assert(g2 == g0);
        }
    }
    lemma_last_group_at(gs, h, g0, gs.len() as int);
}

/// The half-edges leaving each vertex of the mesh form exactly one fan.
#[verifier::spinoff_prover]
#[verifier::rlimit(100)]
proof fn lemma_vertex_one_fan(m: HalfEdgeTopology, faces: Seq<Vec<VertexKey>>, nb: int, copy: Map<(int, int), int>, v: int)
    requires
        mesh_split_by(m, faces, nb, copy),
        m.edge_opposite_indices@.len() == m.num_half_edges,
        m.edge_vertex_indices@.len() == m.num_half_edges,
        forall|x: int| 0 <= x < m.num_half_edges ==> #[trigger] m.edge_opposite_indices@[x] < m.num_half_edges && m.edge_opposite_indices@[m.edge_opposite_indices@[x] as int] == x,
        forall|w: int| 0 <= w < nb ==> #[trigger] leaving(ends_before_split(m, faces, nb), m.edge_opposite_indices@, m.num_half_edges as int, w).len() > 0,
        0 <= nb <= v < m.num_vertices || 0 <= v < nb,
    ensures
        vertex_fans(m.edge_vertex_indices@, m.edge_opposite_indices@, m.edge_next_indices@, m.edge_face_indices@, v).len() == 1,
{
    reveal(mesh_split_by);
    let pre = ends_before_split(m, faces, nb);
    let opp = m.edge_opposite_indices@;
    let next = m.edge_next_indices@;
    let face = m.edge_face_indices@;
    let nhe = m.num_half_edges as int;
    let to1 = m.edge_vertex_indices@;
    let (u, g) = if v < nb {
        (v, 0int)
    } else {
        assert(numbers(copy, v));
        let p = choose|p: (int, int)| #[trigger] copy.dom().contains(p) && copy[p] == v;
        assert(copy.dom().contains((p.0, p.1)));
        p
    };
    assert(0 <= u < nb);
    let s = leaving(pre, opp, opp.len() as int, u);
    lemma_leaving_finite(pre, opp, opp.len() as int, u);
    let fans = vertex_fans(pre, opp, next, face, u);
    lemma_fan_split_groups(opp, next, face, s, s.len());
    assert(0 <= g < fans.len());
    let grp = fans[g];
    let l1 = leaving(to1, opp, opp.len() as int, v);
    // Every half-edge of the group now leaves `v`.
    assert forall|h: usize| grp.to_set().contains(h) implies l1.contains(h) by {
        assert(grp.contains(h));
        let i = choose|i: int| 0 <= i < grp.len() && grp[i] == h;
        assert(s.contains(h));
        lemma_group_index_holds(opp, next, face, s, h);
        assert(group_index(fans, h) == g);
        let x = opp[h as int] as int;
        assert(opp[x] == h);
        assert(to1[x] == split_end(pre, opp, next, face, copy, x));
    }
    // Every half-edge now leaving `v` is in the group.
    assert forall|h: usize| l1.contains(h) implies grp.to_set().contains(h) by {
        let x = opp[h as int] as int;
        assert(opp[x] == h);
        let v2 = pre[x] as int;
        assert(to1[x] == split_end(pre, opp, next, face, copy, x));
        let s2 = leaving(pre, opp, opp.len() as int, v2);
        lemma_leaving_finite(pre, opp, opp.len() as int, v2);
        assert(s2.contains(h));
        lemma_group_index_holds(opp, next, face, s2, h);
        let fans2 = vertex_fans(pre, opp, next, face, v2);
        let g2 = group_index(fans2, h);
        assert(0 <= v2 < nb) by {
            let c = base_at(m, faces, nb, to1[x] as int);
            assert(pre[x] == c as usize);
            if 0 <= v < nb {
                assert(0 <= v < nb && vertex_key(m, faces, v) == vertex_key(m, faces, to1[x] as int));
            } else {
                assert(copy.dom().contains((u, g)));
                assert(m.vertex_sources@[copy[(u, g)]] == m.vertex_sources@[u]);
                assert(0 <= u < nb && vertex_key(m, faces, u) == vertex_key(m, faces, to1[x] as int));
            }
        }
        if g2 == 0 {
            assert(to1[x] as int == v2);
            if v >= nb {
                assert(false);
            }
            assert(u == v2 && g == 0);
        } else {
            assert(copy.dom().contains((v2, g2)));
            assert(to1[x] as int == copy[(v2, g2)]);
            if v < nb {
                assert(false);
            }
            assert(copy.dom().contains((u, g)));
            assert(copy[(v2, g2)] == copy[(u, g)]);
            assert((v2, g2) == (u, g));
        }
        assert(grp.contains(h));
    }
    assert(l1 =~= grp.to_set());
    lemma_fan_group_alone(opp, next, face, s, s.len(), g, l1.len());
}

/// The split as the builder made it, read off the finished mesh: the ends
/// before the split are the base vertices at the positions of the ends
/// after it, and the fan groups are the same under the final `next`,
/// which differs from the one the split saw only at boundary half-edges.
#[verifier::spinoff_prover]
proof fn lemma_mesh_split(
    m: HalfEdgeTopology,
    fs: Seq<Vec<VertexKey>>,
    keys: Seq<VertexKey>,
    src0: Seq<usize>,
    src1: Seq<usize>,
    to0: Seq<usize>,
    next0: Seq<usize>,
    copy: Map<(int, int), int>,
)
    requires
        split_ok(to0, m.edge_opposite_indices@, next0, m.edge_face_indices@, src0, src1, m.edge_vertex_indices@, copy),
        m.num_half_edges == to0.len(),
        next0.len() == to0.len(),
        m.edge_opposite_indices@.len() == to0.len(),
        m.edge_next_indices@.len() == to0.len(),
        m.edge_face_indices@.len() == to0.len(),
        m.num_vertices == src1.len(),
        m.vertex_sources@.len() == src1.len(),
        forall|x: int| 0 <= x < to0.len() ==> #[trigger] m.edge_opposite_indices@[x] < to0.len(),
        forall|x: int| 0 <= x < to0.len() ==> #[trigger] next0[x] < to0.len(),
        forall|x: int| 0 <= x < to0.len() && #[trigger] m.edge_face_indices@[x] is Some ==> m.edge_next_indices@[x] == next0[x] && m.edge_face_indices@[next0[x] as int] is Some,
        forall|x: int| 0 <= x < to0.len() ==> #[trigger] to0[x] < src0.len(),
        forall|w: int| 0 <= w < src1.len() ==> #[trigger] vertex_key(m, fs, w) == keys[src1[w] as int],
        forall|w1: int, w2: int| 0 <= w1 < src1.len() && 0 <= w2 < src1.len() && #[trigger] src1[w1] == #[trigger] src1[w2] ==> m.vertex_sources@[w1] == m.vertex_sources@[w2],
        forall|v: int, w: int| 0 <= v < src0.len() && 0 <= w < src0.len() && v != w ==> keys[#[trigger] src0[v] as int] != keys[#[trigger] src0[w] as int],
    ensures
        mesh_split_by(m, fs, src0.len() as int, copy),
{
    let nb = src0.len() as int;
    let nhe = to0.len() as int;
    let opp = m.edge_opposite_indices@;
    let face = m.edge_face_indices@;
    let next1 = m.edge_next_indices@;
    let to1 = m.edge_vertex_indices@;
    lemma_split_facts(to0, opp, next0, face, src0, src1, to1, copy);
    reveal(split_ok);
    let pre = ends_before_split(m, fs, nb);
    assert forall|x: int| 0 <= x < nhe implies #[trigger] pre[x] == to0[x] by {
        let w = to0[x] as int;
        assert(src1[w] == src0[w]);
        assert(vertex_key(m, fs, w) == vertex_key(m, fs, to1[x] as int));
        let c = base_at(m, fs, nb, to1[x] as int);
        assert(0 <= c < nb && vertex_key(m, fs, c) == vertex_key(m, fs, to1[x] as int));
        assert(src1[c] == src0[c]);
    }
    assert(pre =~= to0);
    assert forall|v: int| #[trigger] vertex_fans(to0, opp, next1, face, v) == vertex_fans(to0, opp, next0, face, v) by {
        let s = leaving(to0, opp, opp.len() as int, v);
        lemma_leaving_finite(to0, opp, opp.len() as int, v);
        lemma_fan_split_same(opp, next0, next1, face, s, s.len());
    }
    reveal(mesh_split_by);
    assert forall|p: (int, int)| #[trigger] copy.dom().contains(p) implies nb <= copy[p] < m.num_vertices && m.vertex_sources@[copy[p]] == m.vertex_sources@[p.0] by {
        assert(copy.dom().contains((p.0, p.1)));
        assert(src1[copy[p]] == src0[p.0]);
        assert(src1[p.0] == src0[p.0]);
    }
    assert forall|v: int, g: int| #[trigger] copy.dom().contains((v, g)) <==> (0 <= v < nb && 1 <= g < vertex_fans(pre, opp, next1, face, v).len()) by {
        assert(vertex_fans(pre, opp, next1, face, v) == vertex_fans(to0, opp, next0, face, v));
    }
    assert forall|x: int| 0 <= x < m.num_half_edges implies #[trigger] to1[x] == split_end(pre, opp, next1, face, copy, x) by {
        assert(vertex_fans(pre, opp, next1, face, to0[x] as int) == vertex_fans(to0, opp, next0, face, to0[x] as int));
        assert(to1[x] == split_end(to0, opp, next0, face, copy, x));
    }
}

/// Splits every non-manifold vertex: the outgoing half-edges of a vertex
/// fall into fan groups; where there is more than one, each group after
/// the first gets a new copy of the vertex, and the half-edges that end at
/// the vertex are re-pointed at the copy of the group of their twin.
/// A copy takes the source corner of the vertex it copies, so every
/// half-edge still ends at a vertex at the same position.
/// The copies are numbered on from the old vertex count in the order in
/// which the map of outgoing sets yields its vertices; the contract leaves
/// that order open and speaks of the numbering through a one-to-one `copy`.
#[verifier::spinoff_prover]
#[verifier::rlimit(60)]
fn split_nonmanifold_vertices(
    out_to: &mut Vec<usize>,
    out_opp: &Vec<usize>,
    out_next: &Vec<usize>,
    out_face: &Vec<Option<usize>>,
    src: &mut Vec<usize>,
)
    requires
        old(out_to)@.len() == out_opp@.len(),
        out_next@.len() == out_opp@.len(),
        out_face@.len() == out_opp@.len(),
        old(src)@.len() <= i32::MAX,
        forall|x: int| 0 <= x < out_opp@.len() ==> #[trigger] out_opp@[x] < out_opp@.len(),
        forall|x: int| 0 <= x < out_opp@.len() ==> #[trigger] out_next@[x] < out_opp@.len(),
        forall|x: int| 0 <= x < out_opp@.len() ==> #[trigger] old(out_to)@[x] < old(src)@.len(),
    ensures
        exists|copy: Map<(int, int), int>| split_ok(old(out_to)@, out_opp@, out_next@, out_face@, old(src)@, final(src)@, final(out_to)@, copy),
        final(out_to)@.len() == old(out_to)@.len(),
        final(src)@.len() >= old(src)@.len(),
        forall|v: int| 0 <= v < old(src)@.len() ==> #[trigger] final(src)@[v] == old(src)@[v],
        forall|v: int| 0 <= v < final(src)@.len() ==> old(src)@.contains(#[trigger] final(src)@[v]),
        forall|x: int| 0 <= x < out_opp@.len() ==> #[trigger] final(out_to)@[x] < final(src)@.len() && final(src)@[final(out_to)@[x] as int] == old(src)@[old(out_to)@[x] as int],
{
    let nhe = out_opp.len();
    let ghost to0 = out_to@;
    let ghost src0 = src@;
    let ghost opp = out_opp@;
    let ghost nx = out_next@;
    let ghost fc = out_face@;
    let nv0 = src.len();
    // Outgoing and incoming half-edges of each vertex.
    let mut vert_out = outgoing_sets_new();
    let mut vert_in = incoming_lists_new();
    let mut he: usize = 0;
    while he < nhe
        invariant
            nhe == out_opp@.len(),
            out_to@ == to0,
            to0.len() == nhe,
            src@ == src0,
            nv0 == src0.len(),
            nv0 <= i32::MAX,
            forall|x: int| 0 <= x < nhe ==> #[trigger] out_opp@[x] < nhe,
            forall|x: int| 0 <= x < nhe ==> #[trigger] to0[x] < nv0,
            0 <= he <= nhe,
            forall|k: i32| #[trigger] outgoing_sets_contents(vert_out).contains_key(k) ==> {
                let st = outgoing_sets_contents(vert_out)[k];
                &&& 0 <= k < nv0
                &&& st.finite()
                &&& st == leaving(to0, out_opp@, he as int, k as int)
            },
            forall|h: int| 0 <= h < he ==> #[trigger] outgoing_sets_contents(vert_out).contains_key(to0[out_opp@[h] as int] as i32),
            forall|k: i32| #[trigger] incoming_lists_contents(vert_in).contains_key(k) ==> {
                let l = incoming_lists_contents(vert_in)[k];
                forall|t: int| 0 <= t < l.len() ==> #[trigger] l[t] < nhe && to0[l[t] as int] as i32 == k
            },
            forall|x: usize| x < he ==> #[trigger] incoming_lists_contents(vert_in).contains_key(to0[x as int] as i32)
                && incoming_lists_contents(vert_in)[to0[x as int] as i32].contains(x),
        decreases nhe - he,
    {
        let from_v = out_to[out_opp[he]] as i32;
        let ghost old_out = outgoing_sets_contents(vert_out);
        let mut set = match outgoing_sets_get(&vert_out, &from_v) {
            Some(st) => st.clone(),
            None => BTreeSet::new(),
        };
        proof {
            if !old_out.contains_key(from_v) {
                assert(leaving(to0, out_opp@, he as int, from_v as int) =~= Set::<usize>::empty()) by {
                    assert forall|h: usize| !leaving(to0, out_opp@, he as int, from_v as int).contains(h) by {
                        if leaving(to0, out_opp@, he as int, from_v as int).contains(h) {
                            assert(old_out.contains_key(to0[out_opp@[h as int] as int] as i32));
                        }
                    }
                }
            }
            assert(set@ == leaving(to0, out_opp@, he as int, from_v as int));
        }
        set.insert(he);
        outgoing_sets_insert(&mut vert_out, from_v, set);
        proof {
            assert forall|k: i32| #[trigger] outgoing_sets_contents(vert_out).contains_key(k) implies {
                let st = outgoing_sets_contents(vert_out)[k];
                &&& 0 <= k < nv0
                &&& st.finite()
                &&& st == leaving(to0, out_opp@, he + 1, k as int)
            } by {
                if k == from_v {
                    assert(leaving(to0, out_opp@, he + 1, k as int) =~= leaving(to0, out_opp@, he as int, k as int).insert(he));
                } else {
                    assert(leaving(to0, out_opp@, he + 1, k as int) =~= leaving(to0, out_opp@, he as int, k as int));
                }
            }
            assert forall|h: int| 0 <= h < he + 1 implies #[trigger] outgoing_sets_contents(vert_out).contains_key(to0[out_opp@[h] as int] as i32) by {
                if h < he {
                    assert(old_out.contains_key(to0[out_opp@[h] as int] as i32));
                }
            }
        }
        let to_v = out_to[he] as i32;
        let ghost old_in = incoming_lists_contents(vert_in);
        let mut list = match incoming_lists_remove(&mut vert_in, &to_v) {
            Some(l) => l,
            None => Vec::new(),
        };
        let ghost old_list = list@;
        list.push(he);
        incoming_lists_insert(&mut vert_in, to_v, list);
        proof {
            assert forall|k: i32| #[trigger] incoming_lists_contents(vert_in).contains_key(k) implies {
                let l = incoming_lists_contents(vert_in)[k];
                forall|t: int| 0 <= t < l.len() ==> #[trigger] l[t] < nhe && to0[l[t] as int] as i32 == k
            } by {
                if k == to_v {
                    let l = incoming_lists_contents(vert_in)[k];
                    assert(l == old_list.push(he));
                    assert forall|t: int| 0 <= t < l.len() implies #[trigger] l[t] < nhe && to0[l[t] as int] as i32 == k by {
                        if t < old_list.len() {
                            assert(old_in[k][t] == l[t]);
                        }
                    }
                } else {
                    assert(incoming_lists_contents(vert_in)[k] == old_in[k]);
                }
            }
            assert forall|x: usize| x < he + 1 implies #[trigger] incoming_lists_contents(vert_in).contains_key(to0[x as int] as i32)
                && incoming_lists_contents(vert_in)[to0[x as int] as i32].contains(x) by {
                let k = to0[x as int] as i32;
                if x == he {
                    assert(k == to_v);
                    assert(incoming_lists_contents(vert_in)[k] == old_list.push(he));
                    assert(old_list.push(he)[old_list.len() as int] == he);
                } else if k == to_v {
                    assert(old_in.contains_key(k));
                    assert(old_in[k].contains(x));
                    let j = choose|j: int| 0 <= j < old_in[k].len() && old_in[k][j] == x;
                    assert(old_list == old_in[k]);
                    assert(old_list.push(he)[j] == x);
                    assert(incoming_lists_contents(vert_in)[k] == old_list.push(he));
                } else {
                    assert(old_in.contains_key(k));
                    assert(old_in[k].contains(x));
                    assert(incoming_lists_contents(vert_in)[k] == old_in[k]);
                }
            }
        }
        he += 1;
    }
    let keys = outgoing_sets_keys(&vert_out);
    let nk = keys.len();
    let mut ki: usize = 0;
    let ghost mut copy: Map<(int, int), int> = Map::empty();
    let ghost mut done: Set<int> = Set::empty();
    proof {
        assert forall|v: int, g: int| #[trigger] copy.dom().contains((v, g)) <==> (done.contains(v) && 1 <= g < vertex_fans(to0, opp, nx, fc, v).len()) by {}
        assert forall|w: int| src0.len() <= w < src@.len() implies #[trigger] numbers(copy, w) by {}
        assert(copies_ok(to0, opp, nx, fc, src0, src@, copy, done));
        assert(ends_ok(to0, opp, nx, fc, out_to@, copy, done));
    }
    while ki < nk
        invariant
            nhe == out_opp@.len(),
            opp == out_opp@,
            nx == out_next@,
            fc == out_face@,
            out_next@.len() == nhe,
            out_face@.len() == nhe,
            to0.len() == nhe,
            nv0 == src0.len(),
            nv0 <= i32::MAX,
            forall|x: int| 0 <= x < nhe ==> #[trigger] out_opp@[x] < nhe,
            forall|x: int| 0 <= x < nhe ==> #[trigger] out_next@[x] < nhe,
            forall|x: int| 0 <= x < nhe ==> #[trigger] to0[x] < nv0,
            nk == keys@.len(),
            0 <= ki <= nk,
            keys@.no_duplicates(),
            forall|k: i32| #[trigger] outgoing_sets_contents(vert_out).contains_key(k) ==> {
                let st = outgoing_sets_contents(vert_out)[k];
                &&& 0 <= k < nv0
                &&& st.finite()
                &&& st == leaving(to0, opp, nhe as int, k as int)
            },
            forall|h: int| 0 <= h < nhe ==> #[trigger] outgoing_sets_contents(vert_out).contains_key(to0[opp[h] as int] as i32),
            forall|k: i32| #[trigger] incoming_lists_contents(vert_in).contains_key(k) ==> {
                let l = incoming_lists_contents(vert_in)[k];
                forall|t: int| 0 <= t < l.len() ==> #[trigger] l[t] < nhe && to0[l[t] as int] as i32 == k
            },
            forall|x: usize| x < nhe ==> #[trigger] incoming_lists_contents(vert_in).contains_key(to0[x as int] as i32)
                && incoming_lists_contents(vert_in)[to0[x as int] as i32].contains(x),
            keys@.to_set() == outgoing_sets_contents(vert_out).dom(),
            forall|t: int| 0 <= t < ki ==> done.contains(#[trigger] keys@[t] as int),
            forall|t: int| ki <= t < nk ==> !done.contains(#[trigger] keys@[t] as int),
            copies_ok(to0, opp, nx, fc, src0, src@, copy, done),
            ends_ok(to0, opp, nx, fc, out_to@, copy, done),
        decreases nk - ki,
    {
        let v = keys[ki];
        proof {
            assert(keys@.to_set().contains(v));
            assert(!done.contains(keys@[ki as int] as int));
        }
        ki += 1;
        let out_hes = match outgoing_sets_get(&vert_out, &v) {
            Some(st) => st.clone(),
            None => {
                continue;
            },
        };
        let ghost vi = v as int;
        proof {
            assert(out_hes@ == leaving(to0, opp, nhe as int, vi));
            assert forall|t: int| ki <= t < nk implies !done.insert(vi).contains(#[trigger] keys@[t] as int) by {
                assert(keys@[t] != keys@[ki - 1]);
            }
        }
        if out_hes.len() < 2 {
            proof {
                lemma_fan_split_len(opp, nx, fc, out_hes@, out_hes@.len());
                lemma_split_skip(to0, opp, nx, fc, src0, src@, out_to@, copy, done, vi);
                done = done.insert(vi);
            }
            continue;
        }
        let groups = fan_groups(out_hes, out_opp, out_next, out_face);
        let ghost gv = group_views(groups@);
        if groups.len() <= 1 {
            proof {
                lemma_split_skip(to0, opp, nx, fc, src0, src@, out_to@, copy, done, vi);
                done = done.insert(vi);
            }
            continue;
        }
        let ng = groups.len();
        // Group of each outgoing half-edge.
        let mut he_group = group_of_new();
        let mut gi: usize = 0;
        while gi < ng
            invariant
                ng == groups@.len(),
                gv == group_views(groups@),
                0 <= gi <= ng,
                forall|k: usize| #[trigger] group_of_contents(he_group).contains_key(k) <==> last_group(gv, k, gi as int) is Some,
                forall|k: usize| #[trigger] group_of_contents(he_group).contains_key(k) ==> group_of_contents(he_group)[k] == last_group(gv, k, gi as int)->0,
            decreases ng - gi,
        {
            let grp = &groups[gi];
            let gn = grp.len();
            let mut t: usize = 0;
            proof {
                assert(gv[gi as int] == grp@);
            }
            while t < gn
                invariant
                    ng == groups@.len(),
                    gv == group_views(groups@),
                    0 <= gi < ng,
                    gv[gi as int] == grp@,
                    gn == grp@.len(),
                    0 <= t <= gn,
                    forall|k: usize| #[trigger] group_of_contents(he_group).contains_key(k) <==> (last_group(gv, k, gi as int) is Some || in_first(grp@, t as int, k)),
                    forall|k: usize| #[trigger] group_of_contents(he_group).contains_key(k) ==> group_of_contents(he_group)[k] == if in_first(grp@, t as int, k) {
                        gi as int
                    } else {
                        last_group(gv, k, gi as int)->0
                    },
                decreases gn - t,
            {
                group_of_insert(&mut he_group, grp[t], gi);
                proof {
                    lemma_in_first_step(grp@, t as int);
                }
                t += 1;
            }
            proof {
                assert forall|k: usize| in_first(grp@, gn as int, k) == grp@.contains(k) by {
                    if grp@.contains(k) {
                        let j = choose|j: int| 0 <= j < grp@.len() && grp@[j] == k;
                        assert(in_first(grp@, gn as int, k));
                    }
                }
            }
            gi += 1;
        }
        // Group 0 keeps the vertex; every other group gets a copy.
        let vu = v as usize;
        let ghost src1 = src@;
        let sl0 = src.len();
        let mut new_ids: Vec<usize> = Vec::new();
        new_ids.push(vu);
        let mut c: usize = 1;
        while c < ng
            invariant
                ng == groups@.len(),
                1 <= c <= ng,
                new_ids@.len() == c,
                new_ids@[0] == vu,
                0 <= vu < nv0,
                nv0 == src0.len(),
                sl0 == src1.len(),
                src@.len() == sl0 + c - 1,
                forall|w: int| 0 <= w < sl0 ==> #[trigger] src@[w] == src1[w],
                forall|w: int| sl0 <= w < src@.len() ==> #[trigger] src@[w] == src0[vu as int],
                forall|g: int| 1 <= g < c ==> #[trigger] new_ids@[g] == sl0 + g - 1,
                src1.len() >= nv0,
                forall|w: int| 0 <= w < nv0 ==> #[trigger] src1[w] == src0[w],
            decreases ng - c,
        {
            let new_idx = src.len();
            let copied = src[vu];
            src.push(copied);
            new_ids.push(new_idx);
            c += 1;
        }
        let ghost copy2 = lemma_split_copies(to0, opp, nx, fc, src0, src1, src@, copy, done, vi);
        // Re-point the half-edges that end at the vertex.
        let ghost to_pre = out_to@;
        let ghost inc: Seq<usize> = if incoming_lists_contents(vert_in).contains_key(v) {
            incoming_lists_contents(vert_in)[v]
        } else {
            Seq::empty()
        };
        match incoming_lists_get(&vert_in, &v) {
            Some(incoming) => {
                let ni = incoming.len();
                let mut t: usize = 0;
                while t < ni
                    invariant
                        nhe == out_opp@.len(),
                        opp == out_opp@,
                        out_to@.len() == nhe,
                        to_pre.len() == nhe,
                        ni == incoming@.len(),
                        incoming@ == inc,
                        forall|s: int| 0 <= s < ni ==> #[trigger] incoming@[s] < nhe && to0[incoming@[s] as int] as i32 == v,
                        forall|x: int| 0 <= x < nhe ==> #[trigger] out_opp@[x] < nhe,
                        forall|x: int| 0 <= x < nhe ==> #[trigger] to0[x] < nv0,
                        0 <= t <= ni,
                        new_ids@.len() == ng,
                        ng == gv.len(),
                        ng >= 2,
                        to0.len() == nhe,
                        vu == v as usize,
                        vi == v as int,
                        0 <= v,
                        nv0 <= i32::MAX,
                        forall|k: usize| #[trigger] group_of_contents(he_group).contains_key(k) <==> last_group(gv, k, ng as int) is Some,
                        forall|k: usize| #[trigger] group_of_contents(he_group).contains_key(k) ==> group_of_contents(he_group)[k] == last_group(gv, k, ng as int)->0,
                        forall|x: int| 0 <= x < nhe ==> #[trigger] out_to@[x] == if to0[x] as int == vi && in_first(inc, t as int, x as usize) {
                            new_ids@[group_index(gv, opp[x])] as int
                        } else {
                            to_pre[x] as int
                        },
                    decreases ni - t,
                {
                    let e = incoming[t];
                    let outgoing = out_opp[e];
                    let g = match group_of_get(&he_group, &outgoing) {
                        Some(g) => g,
                        None => 0,
                    };
                    proof {
                        lemma_group_index_range(gv, outgoing);
                        assert(g == group_index(gv, outgoing));
                    }
                    let ghost old_to = out_to@;
                    out_to.set(e, new_ids[g]);
                    proof {
                        lemma_in_first_step(inc, t as int);
                        assert forall|x: int| 0 <= x < nhe implies #[trigger] out_to@[x] == if to0[x] as int == vi && in_first(inc, t + 1, x as usize) {
                            new_ids@[group_index(gv, opp[x])] as int
                        } else {
                            to_pre[x] as int
                        } by {
                            if x != e {
                                assert(old_to[x] == out_to@[x]);
                                assert(x as usize != e);
                            } else {
                                assert(to0[e as int] < nv0);
                                assert(to0[e as int] == vu);
                                assert(vu as int == vi);
                                assert(inc[t as int] == e);
                                assert(in_first(inc, t + 1, e));
                            }
                        }
                    }
                    t += 1;
                }
            },
            None => {},
        }
        proof {
            assert forall|x: int| 0 <= x < to0.len() implies #[trigger] out_to@[x] == if to0[x] as int == vi {
                new_ids@[group_index(vertex_fans(to0, opp, nx, fc, vi), opp[x])] as int
            } else {
                to_pre[x] as int
            } by {
                if to0[x] as int == vi {
                    assert(incoming_lists_contents(vert_in).contains_key(to0[(x as usize) as int] as i32));
                    assert(inc.contains(x as usize));
                    let j = choose|j: int| 0 <= j < inc.len() && inc[j] == x as usize;
                    assert(in_first(inc, inc.len() as int, x as usize));
                }
            }
            lemma_split_ends(to0, opp, nx, fc, src0, src1, to_pre, out_to@, copy, copy2, done, vi, new_ids@);
            copy = copy2;
            done = done.insert(vi);
        }
    }
    proof {
        assert forall|v: int| 0 <= v < src0.len() && !done.contains(v) implies leaving(to0, opp, opp.len() as int, v).is_empty() by {
            assert forall|h: usize| !leaving(to0, opp, opp.len() as int, v).contains(h) by {
                if leaving(to0, opp, opp.len() as int, v).contains(h) {
                    let k = to0[opp[h as int] as int] as i32;
                    assert(outgoing_sets_contents(vert_out).contains_key(k));
                    assert(keys@.to_set().contains(k));
                    let t = choose|t: int| 0 <= t < keys@.len() && keys@[t] == k;
                    assert(done.contains(keys@[t] as int));
                }
            }
            assert(leaving(to0, opp, opp.len() as int, v) =~= Set::<usize>::empty());
        }
        lemma_split_done(to0, opp, nx, fc, src0, src@, out_to@, copy, done);
        lemma_split_facts(to0, opp, nx, fc, src0, src@, out_to@, copy);
    }
}

/// Links each boundary twin to the boundary half-edge that follows it:
/// starting from its face half-edge, walk round the end vertex (to the
/// half-edge before in the face, then across) until a boundary half-edge
/// turns up; if none does within `nhe` steps, the twin links to itself.
/// Where the search for the next boundary half-edge leads, from face
/// half-edge `f` with `k` steps left: the half-edge before `f` on its
/// face (three steps along `next` round a quad), then its twin; a twin
/// without a face ends the search, a face half-edge continues it.
pub open spec fn boundary_search(next: Seq<usize>, opp: Seq<usize>, face: Seq<Option<usize>>, f: int, k: nat) -> Option<int>
    decreases k,
{
    if k == 0 {
        None
    } else {
        let p = next[next[next[f] as int] as int] as int;
        let t = opp[p] as int;
        if face[t] is None {
            Some(t)
        } else {
            boundary_search(next, opp, face, t, (k - 1) as nat)
        }
    }
}

/// The half-edge after boundary half-edge `b`: what the search from its
/// twin finds within as many steps as there are half-edges, else `b`
/// itself.
pub open spec fn boundary_next(next: Seq<usize>, opp: Seq<usize>, face: Seq<Option<usize>>, b: int) -> int {
    match boundary_search(next, opp, face, opp[b] as int, opp.len() as nat) {
        Some(t) => t,
        None => b,
    }
}

/// The half-edge after boundary half-edge `b`: see `boundary_next`.
fn find_boundary_next(out_next: &Vec<usize>, out_opp: &Vec<usize>, out_face: &Vec<Option<usize>>, b: usize, next_before: Ghost<Seq<usize>>) -> (r: usize)
    requires
        out_next@.len() == out_opp@.len(),
        out_face@.len() == out_opp@.len(),
        next_before@.len() == out_opp@.len(),
        b < out_opp@.len(),
        out_face@[out_opp@[b as int] as int] is Some,
        forall|x: int| 0 <= x < out_opp@.len() ==> #[trigger] out_opp@[x] < out_opp@.len(),
        forall|x: int| 0 <= x < out_opp@.len() ==> #[trigger] next_before@[x] < out_opp@.len(),
        forall|x: int| 0 <= x < out_opp@.len() && out_face@[x] is Some ==> out_face@[#[trigger] next_before@[x] as int] is Some,
        forall|x: int| 0 <= x < out_opp@.len() && out_face@[x] is Some ==> #[trigger] out_next@[x] == next_before@[x],
    ensures
        r == boundary_next(next_before@, out_opp@, out_face@, b as int),
        r == b || out_face@[r as int] is None,
        r < out_opp@.len(),
{
    let nhe = out_opp.len();
    let ghost next0 = next_before@;
    let mut f = out_opp[b];
    let ghost whole = boundary_search(next0, out_opp@, out_face@, out_opp@[b as int] as int, nhe as nat);
    let mut step: usize = 0;
    while step < nhe
        invariant
            nhe == out_opp@.len(),
            out_next@.len() == nhe,
            out_face@.len() == nhe,
            next0.len() == nhe,
            f < nhe,
            b < nhe,
            next0 == next_before@,
            out_face@[f as int] is Some,
            0 <= step <= nhe,
            whole == boundary_search(next0, out_opp@, out_face@, out_opp@[b as int] as int, nhe as nat),
            boundary_search(next0, out_opp@, out_face@, f as int, (nhe - step) as nat) == whole,
            forall|x: int| 0 <= x < nhe ==> #[trigger] out_opp@[x] < nhe,
            forall|x: int| 0 <= x < nhe ==> #[trigger] next0[x] < nhe,
            forall|x: int| 0 <= x < nhe && out_face@[x] is Some ==> out_face@[#[trigger] next0[x] as int] is Some,
            forall|x: int| 0 <= x < nhe && out_face@[x] is Some ==> #[trigger] out_next@[x] == next0[x],
        decreases nhe - step,
    {
        let n1 = out_next[f];
        let n2 = out_next[n1];
        let p = out_next[n2];
        proof {
            assert(n1 == next0[f as int]);
            assert(out_face@[n1 as int] is Some);
            assert(n2 == next0[n1 as int]);
            assert(out_face@[n2 as int] is Some);
            assert(p == next0[n2 as int]);
        }
        let t = out_opp[p];
        proof {
            let k = (nhe - step) as nat;
            assert(boundary_search(next0, out_opp@, out_face@, f as int, k) == if out_face@[t as int] is None {
                Some(t as int)
            } else {
                boundary_search(next0, out_opp@, out_face@, t as int, (k - 1) as nat)
            });
        }
        if out_face[t].is_none() {
            proof {
                assert(whole == Some(t as int));
                assert(out_opp@.len() as nat == nhe as nat);
                assert(boundary_next(next0, out_opp@, out_face@, b as int) == t as int);
            }
            return t;
        }
        f = t;
        step += 1;
    }
    b
}

/// The boundary search reads `next` only at face half-edges, so two
/// `next` arrays that agree there give the same search.
proof fn lemma_search_same(n1: Seq<usize>, n2: Seq<usize>, opp: Seq<usize>, face: Seq<Option<usize>>, f: int, k: nat)
    requires
        n1.len() == opp.len(),
        n2.len() == opp.len(),
        face.len() == opp.len(),
        0 <= f < opp.len(),
        face[f] is Some,
        forall|x: int| 0 <= x < opp.len() ==> #[trigger] opp[x] < opp.len(),
        forall|x: int| 0 <= x < opp.len() ==> #[trigger] n1[x] < opp.len(),
        forall|x: int| 0 <= x < opp.len() && face[x] is Some ==> face[#[trigger] n1[x] as int] is Some,
        forall|x: int| 0 <= x < opp.len() && face[x] is Some ==> #[trigger] n2[x] == n1[x],
    ensures
        boundary_search(n1, opp, face, f, k) == boundary_search(n2, opp, face, f, k),
    decreases k,
{
    if k > 0 {
        let a = n1[f] as int;
        assert(n2[f] == n1[f]);
        assert(face[a] is Some);
        let b = n1[a] as int;
        assert(n2[a] == n1[a]);
        assert(face[b] is Some);
        let p = n1[b] as int;
        assert(n2[b] == n1[b]);
        let t = opp[p] as int;
        if face[t] is Some {
            lemma_search_same(n1, n2, opp, face, t, (k - 1) as nat);
        }
    }
}

fn link_boundary(out_next: &mut Vec<usize>, out_opp: &Vec<usize>, out_face: &Vec<Option<usize>>, twins: &Vec<(usize, usize)>)
    requires
        old(out_next)@.len() == out_opp@.len(),
        out_face@.len() == out_opp@.len(),
        forall|x: int| 0 <= x < out_opp@.len() ==> #[trigger] out_opp@[x] < out_opp@.len(),
        forall|x: int| 0 <= x < out_opp@.len() ==> #[trigger] old(out_next)@[x] < out_opp@.len(),
        forall|x: int| 0 <= x < out_opp@.len() && out_face@[x] is Some ==> out_face@[#[trigger] old(out_next)@[x] as int] is Some,
        forall|t: int| 0 <= t < twins@.len() ==> {
            &&& (#[trigger] twins@[t]).1 < out_opp@.len()
            &&& out_face@[twins@[t].1 as int] is None
            &&& out_face@[out_opp@[twins@[t].1 as int] as int] is Some
        },
        forall|t: int, u: int| 0 <= t < u < twins@.len() ==> (#[trigger] twins@[t]).1 != (#[trigger] twins@[u]).1,
    ensures
        final(out_next)@.len() == old(out_next)@.len(),
        forall|x: int| 0 <= x < out_opp@.len() ==> #[trigger] final(out_next)@[x] < out_opp@.len(),
        forall|x: int| 0 <= x < out_opp@.len() && #[trigger] out_face@[x] is Some ==> final(out_next)@[x] == old(out_next)@[x],
        forall|t: int| 0 <= t < twins@.len() ==> out_face@[final(out_next)@[(#[trigger] twins@[t]).1 as int] as int] is None,
        forall|t: int| 0 <= t < twins@.len() ==> final(out_next)@[(#[trigger] twins@[t]).1 as int] == boundary_next(
            old(out_next)@,
            out_opp@,
            out_face@,
            twins@[t].1 as int,
        ),
{
    let nhe = out_opp.len();
    let ghost next0 = out_next@;
    let nt = twins.len();
    let mut ti: usize = 0;
    while ti < nt
        invariant
            nhe == out_opp@.len(),
            out_next@.len() == nhe,
            out_face@.len() == nhe,
            next0.len() == nhe,
            nt == twins@.len(),
            0 <= ti <= nt,
            forall|x: int| 0 <= x < nhe ==> #[trigger] out_opp@[x] < nhe,
            forall|x: int| 0 <= x < nhe ==> #[trigger] out_next@[x] < nhe,
            forall|x: int| 0 <= x < nhe ==> #[trigger] next0[x] < nhe,
            forall|x: int| 0 <= x < nhe && out_face@[x] is Some ==> out_face@[#[trigger] next0[x] as int] is Some,
            forall|t: int| 0 <= t < twins@.len() ==> {
                &&& (#[trigger] twins@[t]).1 < nhe
                &&& out_face@[twins@[t].1 as int] is None
                &&& out_face@[out_opp@[twins@[t].1 as int] as int] is Some
            },
            forall|t: int, u: int| 0 <= t < u < twins@.len() ==> (#[trigger] twins@[t]).1 != (#[trigger] twins@[u]).1,
            forall|x: int| 0 <= x < nhe && out_face@[x] is Some ==> #[trigger] out_next@[x] == next0[x],
            forall|t: int| 0 <= t < ti ==> out_face@[out_next@[(#[trigger] twins@[t]).1 as int] as int] is None,
            forall|t: int| 0 <= t < ti ==> out_next@[(#[trigger] twins@[t]).1 as int] == boundary_next(next0, out_opp@, out_face@, twins@[t].1 as int),
        decreases nt - ti,
    {
        let b = twins[ti].1;
        let r = find_boundary_next(out_next, out_opp, out_face, b, Ghost(next0));
        let ghost old_next = out_next@;
        out_next.set(b, r);
        proof {
            assert forall|u: int| 0 <= u < ti implies out_face@[out_next@[(#[trigger] twins@[u]).1 as int] as int] is None
                && out_next@[twins@[u].1 as int] == boundary_next(next0, out_opp@, out_face@, twins@[u].1 as int) by {
                let bu = twins@[u].1 as int;
                assert(bu != b);
                assert(old_next[bu] == out_next@[bu]);
            }
            assert forall|x: int| 0 <= x < nhe && out_face@[x] is Some implies #[trigger] out_next@[x] == next0[x] by {
                assert(x != b);
                assert(old_next[x] == out_next@[x]);
            }
        }
        ti += 1;
    }
}

/// For each vertex, the first half-edge (in index order) that starts at
/// it, if any.
fn vertex_edges(out_to: &Vec<usize>, out_opp: &Vec<usize>, nv: usize) -> (ve: Vec<Option<usize>>)
    requires
        out_to@.len() == out_opp@.len(),
        forall|x: int| 0 <= x < out_opp@.len() ==> #[trigger] out_opp@[x] < out_opp@.len(),
        forall|x: int| 0 <= x < out_opp@.len() ==> #[trigger] out_to@[x] < nv,
    ensures
        ve@.len() == nv,
        forall|v: int| 0 <= v < nv ==> match #[trigger] ve@[v] {
            Some(h) => h < out_opp@.len() && out_to@[out_opp@[h as int] as int] == v && forall|h2: int| 0 <= h2 < h ==> out_to@[out_opp@[h2] as int] != v,
            None => forall|h2: int| 0 <= h2 < out_opp@.len() ==> out_to@[out_opp@[h2] as int] != v,
        },
{
    let nhe = out_opp.len();
    let mut ve: Vec<Option<usize>> = vec![None; nv];
    let mut h: usize = 0;
    while h < nhe
        invariant
            nhe == out_opp@.len(),
            out_to@.len() == nhe,
            ve@.len() == nv,
            0 <= h <= nhe,
            forall|x: int| 0 <= x < nhe ==> #[trigger] out_opp@[x] < nhe,
            forall|x: int| 0 <= x < nhe ==> #[trigger] out_to@[x] < nv,
            forall|v: int| 0 <= v < nv ==> match #[trigger] ve@[v] {
                Some(e) => e < h && out_to@[out_opp@[e as int] as int] == v && forall|h2: int| 0 <= h2 < e ==> out_to@[out_opp@[h2] as int] != v,
                None => forall|h2: int| 0 <= h2 < h ==> out_to@[out_opp@[h2] as int] != v,
            },
        decreases nhe - h,
    {
        let from_v = out_to[out_opp[h]];
        if ve[from_v].is_none() {
            ve.set(from_v, Some(h));
        }
        h += 1;
    }
    ve
}

/// The half-edge topology of a mesh.  Vertex positions are not stored:
/// vertex `v` sits at the position of corner `vertex_sources[v]`
/// (face, corner) of the input.  Face and vertex-edge entries are `None`
/// where the Source 2 format writes -1.
pub struct HalfEdgeTopology {
    pub vertex_sources: Vec<(usize, usize)>,
    pub vertex_edge_indices: Vec<Option<usize>>,
    pub vertex_data_indices: Vec<usize>,
    pub edge_vertex_indices: Vec<usize>,
    pub edge_opposite_indices: Vec<usize>,
    pub edge_next_indices: Vec<usize>,
    pub edge_face_indices: Vec<Option<usize>>,
    pub edge_data_indices: Vec<usize>,
    pub edge_vertex_data_indices: Vec<usize>,
    pub face_edge_indices: Vec<usize>,
    pub face_data_indices: Vec<usize>,
    pub num_vertices: usize,
    pub num_half_edges: usize,
    pub num_geometric_edges: usize,
    pub num_faces: usize,
}

/// The position key of vertex `v`: the key of its source corner.
pub open spec fn vertex_key(m: HalfEdgeTopology, faces: Seq<Vec<VertexKey>>, v: int) -> VertexKey {
    let s = m.vertex_sources@[v];
    faces[s.0 as int]@[s.1 as int]
}

/// Where `k` steps along `next` lead from `start`.
pub open spec fn walk(next: Seq<usize>, start: int, k: nat) -> int
    decreases k,
{
    if k == 0 {
        start
    } else {
        next[walk(next, start, (k - 1) as nat)] as int
    }
}

/// The start vertex of half-edge `h`: the end vertex of its twin.
pub open spec fn origin(m: HalfEdgeTopology, h: int) -> int {
    m.edge_vertex_indices@[m.edge_opposite_indices@[h] as int] as int
}

/// The half-edge on face `f`'s cycle for its corner `k` (the one that
/// leaves that corner).
pub open spec fn face_half_edge(m: HalfEdgeTopology, f: int, k: int) -> int {
    walk(m.edge_next_indices@, m.face_edge_indices@[f] as int, k as nat)
}

/// The sizes agree with the faces and with each other.
pub open spec fn mesh_sizes_ok(m: HalfEdgeTopology, faces: Seq<Vec<VertexKey>>) -> bool {
    let nv = m.num_vertices as int;
    let nhe = m.num_half_edges as int;
    &&& m.num_faces == faces.len()
    &&& m.vertex_sources@.len() == nv
    &&& m.vertex_edge_indices@.len() == nv
    &&& m.vertex_data_indices@.len() == nv
    &&& m.edge_vertex_indices@.len() == nhe
    &&& m.edge_opposite_indices@.len() == nhe
    &&& m.edge_next_indices@.len() == nhe
    &&& m.edge_face_indices@.len() == nhe
    &&& m.edge_data_indices@.len() == nhe
    &&& m.edge_vertex_data_indices@.len() == nhe
    &&& m.face_edge_indices@.len() == faces.len()
    &&& m.face_data_indices@.len() == faces.len()
    &&& nhe % 2 == 0
    &&& m.num_geometric_edges == nhe / 2
}

/// Each half-edge: its twin is its pair partner, its data indices are
/// its pair and itself, every index is in range, and a boundary
/// half-edge (no face) is the twin of a face half-edge and is followed by
/// another boundary half-edge.
pub open spec fn mesh_edges_ok(m: HalfEdgeTopology, faces: Seq<Vec<VertexKey>>) -> bool {
    let nv = m.num_vertices as int;
    let nhe = m.num_half_edges as int;
    forall|h: int|
        0 <= h < nhe ==> {
            &&& #[trigger] m.edge_opposite_indices@[h] == twin_slot(h)
            &&& m.edge_data_indices@[h] == h / 2
            &&& m.edge_vertex_data_indices@[h] == h
            &&& m.edge_vertex_indices@[h] < nv
            &&& m.edge_next_indices@[h] < nhe
            &&& match m.edge_face_indices@[h] {
                Some(f) => f < faces.len(),
                None => m.edge_face_indices@[twin_slot(h)] is Some && m.edge_face_indices@[m.edge_next_indices@[h] as int] is None,
            }
        }
}

/// Each vertex: its data index is itself, its source is a corner of the
/// input, and its edge is the first half-edge that starts at it.
pub open spec fn mesh_vertices_ok(m: HalfEdgeTopology, faces: Seq<Vec<VertexKey>>) -> bool {
    let nv = m.num_vertices as int;
    let nhe = m.num_half_edges as int;
    forall|v: int|
        0 <= v < nv ==> {
            &&& #[trigger] m.vertex_data_indices@[v] == v
            &&& is_corner(faces, m.vertex_sources@[v].0 as int, m.vertex_sources@[v].1 as int)
            &&& match m.vertex_edge_indices@[v] {
                Some(h) => h < nhe && origin(m, h as int) == v && forall|h2: int| 0 <= h2 < h ==> origin(m, h2) != v,
                None => forall|h2: int| 0 <= h2 < nhe ==> origin(m, h2) != v,
            }
        }
}

/// Each face: its data index is itself, and its half-edges form a cycle
/// that visits its corners in order: the half-edge of corner `k` starts
/// at a vertex with the position of corner `k` and ends at one with the
/// position of corner `k + 1` (round the face).
pub open spec fn mesh_faces_ok(m: HalfEdgeTopology, faces: Seq<Vec<VertexKey>>) -> bool {
    let nhe = m.num_half_edges as int;
    &&& forall|f: int| 0 <= f < faces.len() ==> #[trigger] m.face_data_indices@[f] == f && m.face_edge_indices@[f] < nhe
    &&& forall|f: int, k: int|
        is_corner(faces, f, k) ==> {
            let h = #[trigger] face_half_edge(m, f, k);
            let n = faces[f]@.len() as int;
            &&& 0 <= h < nhe
            &&& m.edge_face_indices@[h] == Some(f as usize)
            &&& vertex_key(m, faces, m.edge_vertex_indices@[h] as int) == faces[f]@[(k + 1) % n]
            &&& vertex_key(m, faces, origin(m, h)) == faces[f]@[k]
            &&& m.edge_next_indices@[h] as int == face_half_edge(m, f, (k + 1) % n)
        }
    &&& forall|f1: int, k1: int, f2: int, k2: int|
        is_corner(faces, f1, k1) && is_corner(faces, f2, k2) && (f1 != f2 || k1 != k2)
            ==> #[trigger] face_half_edge(m, f1, k1) != #[trigger] face_half_edge(m, f2, k2)
    &&& forall|h: int|
        0 <= h < nhe && #[trigger] m.edge_face_indices@[h] is Some ==> exists|k: int|
            is_corner(faces, m.edge_face_indices@[h]->0 as int, k) && #[trigger] face_half_edge(m, m.edge_face_indices@[h]->0 as int, k) == h
}

/// Twins are paired maximally: no two face half-edges that both lie on
/// the boundary run between the same two positions in opposite
/// directions.
pub open spec fn mesh_pairing_maximal(m: HalfEdgeTopology, faces: Seq<Vec<VertexKey>>) -> bool {
    let nhe = m.num_half_edges as int;
    forall|h1: int, h2: int|
        0 <= h1 < nhe && 0 <= h2 < nhe && h1 != h2 && #[trigger] m.edge_face_indices@[h1] is Some
            && #[trigger] m.edge_face_indices@[h2] is Some
            && m.edge_face_indices@[twin_slot(h1)] is None
            && m.edge_face_indices@[twin_slot(h2)] is None ==> !(
        vertex_key(m, faces, m.edge_vertex_indices@[h1] as int) == vertex_key(m, faces, origin(m, h2))
            && vertex_key(m, faces, origin(m, h1)) == vertex_key(m, faces, m.edge_vertex_indices@[h2] as int))
}

/// Corner `a` comes before corner `b` in the input: an earlier face, or
/// the same face and an earlier corner.
pub open spec fn corner_before(f1: int, k1: int, f2: int, k2: int) -> bool {
    f1 < f2 || (f1 == f2 && k1 < k2)
}

/// The vertices are numbered by first occurrence: the first `nb`
/// vertices sit at the first corners of the distinct positions, in input
/// order, so every corner's position has one of them; every later vertex
/// is a copy of one of them (split off at a non-manifold vertex) with
/// the same source corner.
pub open spec fn base_vertices_ok(m: HalfEdgeTopology, faces: Seq<Vec<VertexKey>>, nb: int) -> bool {
    let nv = m.num_vertices as int;
    &&& 0 <= nb <= nv
    &&& forall|v: int, f: int, k: int|
        0 <= v < nb && is_corner(faces, f, k) && corner_before(f, k, (#[trigger] m.vertex_sources@[v]).0 as int, m.vertex_sources@[v].1 as int)
            ==> #[trigger] faces[f]@[k] != vertex_key(m, faces, v)
    &&& forall|v: int, w: int|
        0 <= v < w < nb ==> corner_before(
            (#[trigger] m.vertex_sources@[v]).0 as int,
            m.vertex_sources@[v].1 as int,
            (#[trigger] m.vertex_sources@[w]).0 as int,
            m.vertex_sources@[w].1 as int,
        )
    &&& forall|f: int, k: int| is_corner(faces, f, k) ==> #[trigger] has_base_vertex(m, faces, nb, f, k)
    &&& forall|v: int| nb <= v < nv ==> #[trigger] is_copy_of_base(m, nb, v)
}

/// Some vertex below `nb` has the position of corner `(f, k)`.
pub open spec fn has_base_vertex(m: HalfEdgeTopology, faces: Seq<Vec<VertexKey>>, nb: int, f: int, k: int) -> bool {
    exists|v: int| 0 <= v < nb && #[trigger] vertex_key(m, faces, v) == faces[f]@[k]
}

/// Vertex `v` has the source corner of some vertex below `nb`.
pub open spec fn is_copy_of_base(m: HalfEdgeTopology, nb: int, v: int) -> bool {
    exists|w: int| 0 <= w < nb && #[trigger] m.vertex_sources@[w] == m.vertex_sources@[v]
}

/// Each boundary half-edge (one without a face) is followed by what the
/// search from its twin finds (see `boundary_next`).
pub open spec fn mesh_boundary_ok(m: HalfEdgeTopology) -> bool {
    forall|h: int|
        0 <= h < m.num_half_edges && m.edge_face_indices@[h] is None ==> #[trigger] m.edge_next_indices@[h] as int
            == boundary_next(m.edge_next_indices@, m.edge_opposite_indices@, m.edge_face_indices@, h)
}

/// The half-edges are numbered as pairs: first the twin pairs of face
/// half-edges, by their lower corner, then each face half-edge without a
/// twin among the faces with its boundary twin (see `slot_of`), where
/// the twins are paired greedily by the keys at their ends (see
/// `key_partner`).  Each face's half-edge is the one numbered for its
/// first corner (for a face without corners, the first corner of the
/// faces after it).  Every boundary half-edge has an odd number, so each
/// pair starts with a face half-edge.
pub open spec fn mesh_numbering_ok(m: HalfEdgeTopology, faces: Seq<Vec<VertexKey>>) -> bool {
    let kp = key_partner(faces);
    &&& m.num_half_edges == slot_count(kp)
    &&& forall|f: int, k: int|
        is_corner(faces, f, k) ==> #[trigger] face_half_edge(m, f, k) == slot_of(kp, corner_offset(faces, f) + k)
    &&& forall|f: int| 0 <= f < faces.len() ==> #[trigger] m.face_edge_indices@[f] == slot_of(kp, corner_offset(faces, f))
    &&& forall|h: int| 0 <= h < m.num_half_edges && #[trigger] m.edge_face_indices@[h] is None ==> h % 2 == 1
}

/// The vertex among the first `nb` at the position of vertex `v`: the
/// vertex that `v` was split off from, or `v` itself.
pub open spec fn base_at(m: HalfEdgeTopology, faces: Seq<Vec<VertexKey>>, nb: int, v: int) -> int {
    choose|w: int| 0 <= w < nb && vertex_key(m, faces, w) == vertex_key(m, faces, v)
}

/// Where each half-edge ended before non-manifold vertices were split:
/// at the vertex among the first `nb` at the position of its end.
pub open spec fn ends_before_split(m: HalfEdgeTopology, faces: Seq<Vec<VertexKey>>, nb: int) -> Seq<usize> {
    m.edge_vertex_indices@.map_values(|v: usize| base_at(m, faces, nb, v as int) as usize)
}

/// The non-manifold vertices are split, with `copy` numbering the new
/// vertices: round each vertex `v` below `nb`, its outgoing half-edges
/// (as they were before the split) fall into fan groups (`vertex_fans`);
/// each group after the first gets a vertex of its own, numbered from
/// `nb` on, each number used once, at the source corner of `v`; and each
/// half-edge ends at `v` itself where its twin lies in the first group
/// round `v`, else at the copy for its twin's group (`split_end`).
#[verifier::opaque]
pub open spec fn mesh_split_by(m: HalfEdgeTopology, faces: Seq<Vec<VertexKey>>, nb: int, copy: Map<(int, int), int>) -> bool {
    let pre = ends_before_split(m, faces, nb);
    let opp = m.edge_opposite_indices@;
    let next = m.edge_next_indices@;
    let face = m.edge_face_indices@;
    let nv = m.num_vertices as int;
    &&& forall|v: int, g: int| #[trigger] copy.dom().contains((v, g)) <==> (0 <= v < nb && 1 <= g < vertex_fans(pre, opp, next, face, v).len())
    &&& forall|p: (int, int)| #[trigger] copy.dom().contains(p) ==> nb <= copy[p] < nv && m.vertex_sources@[copy[p]] == m.vertex_sources@[p.0]
    &&& forall|p: (int, int), q: (int, int)| #![trigger copy[p], copy[q]] copy.dom().contains(p) && copy.dom().contains(q) && copy[p] == copy[q] ==> p == q
    &&& forall|w: int| nb <= w < nv ==> #[trigger] numbers(copy, w)
    &&& forall|x: int| 0 <= x < m.num_half_edges ==> #[trigger] m.edge_vertex_indices@[x] == split_end(pre, opp, next, face, copy, x)
}

/// After the split, every vertex has a half-edge leaving it, and the
/// half-edges leaving it form exactly one fan.
#[verifier::opaque]
pub open spec fn mesh_fans_ok(m: HalfEdgeTopology) -> bool {
    &&& forall|v: int| 0 <= v < m.num_vertices ==> #[trigger] m.vertex_edge_indices@[v] is Some
    &&& forall|v: int| 0 <= v < m.num_vertices ==> #[trigger] vertex_fans(m.edge_vertex_indices@, m.edge_opposite_indices@, m.edge_next_indices@, m.edge_face_indices@, v).len() == 1
}

/// `m` is a half-edge mesh of `faces`.
pub open spec fn is_halfedge_mesh_of(m: HalfEdgeTopology, faces: Seq<Vec<VertexKey>>) -> bool {
    &&& mesh_sizes_ok(m, faces)
    &&& mesh_edges_ok(m, faces)
    &&& mesh_vertices_ok(m, faces)
    &&& mesh_faces_ok(m, faces)
    &&& mesh_pairing_maximal(m, faces)
    &&& exists|nb: int| base_vertices_ok(m, faces, nb) && exists|copy: Map<(int, int), int>| mesh_split_by(m, faces, nb, copy)
    &&& mesh_fans_ok(m)
    &&& mesh_boundary_ok(m)
    &&& mesh_numbering_ok(m, faces)
}

/// What flattening gives.
#[verifier::opaque]
pub open spec fn flat_facts(fs: Seq<Vec<VertexKey>>, keys: Seq<VertexKey>, cface: Seq<usize>, first: Seq<usize>) -> bool {
    &&& keys.len() == total_corners(fs)
    &&& cface.len() == total_corners(fs)
    &&& first.len() == fs.len()
    &&& forall|f: int| 0 <= f < fs.len() ==> #[trigger] first[f] == corner_offset(fs, f)
    &&& forall|f: int, k: int| is_corner(fs, f, k) ==> #[trigger] flat_ok(fs, keys, cface, f, k)
    &&& forall|p: int|
        0 <= p < total_corners(fs) ==> {
            let f = #[trigger] cface[p] as int;
            &&& 0 <= f < fs.len()
            &&& corner_offset(fs, f) <= p < corner_offset(fs, f) + fs[f]@.len()
            &&& keys[p] == fs[f]@[p - corner_offset(fs, f)]
        }
}

/// What collecting the vertices gives.
#[verifier::opaque]
pub open spec fn id_facts(keys: Seq<VertexKey>, ids: Map<VertexKey, i32>, src0: Seq<usize>) -> bool {
    &&& src0.len() <= keys.len()
    &&& forall|v: int| 0 <= v < src0.len() ==> #[trigger] src0[v] < keys.len()
    &&& forall|p: int|
        0 <= p < keys.len() ==> {
            &&& ids.contains_key(#[trigger] keys[p])
            &&& 0 <= ids[keys[p]] < src0.len()
            &&& keys[src0[ids[keys[p]] as int] as int] == keys[p]
        }
    &&& forall|v: int, w: int| 0 <= v < src0.len() && 0 <= w < src0.len() && v != w ==> keys[#[trigger] src0[v] as int] != keys[#[trigger] src0[w] as int]
    &&& forall|v: int, w: int| 0 <= v < w < src0.len() ==> #[trigger] src0[v] < #[trigger] src0[w]
    &&& forall|v: int, q: int| 0 <= v < src0.len() && 0 <= q < src0[v] ==> #[trigger] keys[q] != keys[#[trigger] src0[v] as int]
}

/// What the corner edges give.
#[verifier::opaque]
pub open spec fn edge_facts(fs: Seq<Vec<VertexKey>>, ids: Map<VertexKey, i32>, from: Seq<usize>, to: Seq<usize>, nextc: Seq<usize>, nv: int) -> bool {
    &&& from.len() == total_corners(fs)
    &&& to.len() == total_corners(fs)
    &&& nextc.len() == total_corners(fs)
    &&& forall|f: int, k: int| is_corner(fs, f, k) ==> #[trigger] corner_edge_ok(fs, ids, from, to, nextc, f, k)
    &&& forall|p: int| 0 <= p < total_corners(fs) ==> #[trigger] from[p] < nv && to[p] < nv && nextc[p] < total_corners(fs)
}

/// What the slot assignment gives.
#[verifier::opaque]
pub open spec fn slot_facts(partner: Seq<Option<usize>>, slot: Seq<usize>, twins: Seq<(usize, usize)>, nhe: int, owner: Seq<int>) -> bool {
    let n = partner.len() as int;
    &&& slot.len() == n
    &&& nhe % 2 == 0
    &&& forall|p: int| 0 <= p < n ==> #[trigger] slot[p] < nhe
    &&& forall|p: int, q: int| 0 <= p < n && 0 <= q < n && p != q ==> #[trigger] slot[p] != #[trigger] slot[q]
    &&& forall|p: int| 0 <= p < n && #[trigger] partner[p] is Some ==> slot[partner[p]->0 as int] == twin_slot(slot[p] as int)
    &&& forall|p: int| 0 <= p < n && #[trigger] partner[p] is None ==> slot[p] as int % 2 == 0
    &&& forall|t: int| 0 <= t < twins.len() ==> {
        let (i, b) = #[trigger] twins[t];
        &&& 0 <= i < n
        &&& partner[i as int] is None
        &&& b == slot[i as int] + 1
    }
    &&& forall|t: int, u: int| 0 <= t < u < twins.len() ==> (#[trigger] twins[t]).0 != (#[trigger] twins[u]).0
    &&& forall|p: int| 0 <= p < n ==> #[trigger] slot[p] as int == slot_of(partner, p)
    &&& nhe == slot_count(partner)
    &&& owner.len() == nhe
    &&& forall|x: int| 0 <= x < nhe ==> {
        let o = #[trigger] owner[x];
        &&& 0 <= o < n
        &&& (slot[o] == x || (partner[o] is None && slot[o] + 1 == x && exists|t: int| 0 <= t < twins.len() && #[trigger] twins[t] == (o as usize, x as usize)))
    }
}

/// What filling the half-edge arrays gives.
#[verifier::opaque]
pub open spec fn fill_facts(slot: Seq<usize>, owner: Seq<int>, from: Seq<usize>, to: Seq<usize>, cface: Seq<usize>, nextc: Seq<usize>, nhe: int, to0: Seq<usize>, opp: Seq<usize>, next0: Seq<usize>, face: Seq<Option<usize>>, edge: Seq<usize>) -> bool {
    &&& to0.len() == nhe && opp.len() == nhe && next0.len() == nhe && face.len() == nhe && edge.len() == nhe
    &&& forall|x: int| 0 <= x < nhe ==> #[trigger] opp[x] == twin_slot(x) && edge[x] == x / 2 && next0[x] < nhe
    &&& forall|x: int| 0 <= x < nhe ==> {
        let o = #[trigger] owner[x];
        if slot[o] == x {
            &&& to0[x] == to[o]
            &&& face[x] == Some(cface[o])
            &&& next0[x] == slot[nextc[o] as int]
        } else {
            &&& to0[x] == from[o]
            &&& face[x] is None
        }
    }
}

proof fn lemma_owner_of_slot(partner: Seq<Option<usize>>, slot: Seq<usize>, twins: Seq<(usize, usize)>, nhe: int, owner: Seq<int>, p: int)
    requires
        slot_facts(partner, slot, twins, nhe, owner),
        forall|q: int| 0 <= q < partner.len() && #[trigger] partner[q] is Some ==> 0 <= partner[q]->0 < partner.len() && partner[partner[q]->0 as int] == Some(q as usize),
        0 <= p < partner.len(),
    ensures
        owner[slot[p] as int] == p,
{
    reveal(slot_facts);
    let x = slot[p] as int;
    let o = owner[x];
    if slot[o] != x {
        assert(slot[p] as int % 2 == 1);
        let j = partner[p]->0 as int;
        assert(slot[j] == slot[o]);
    }
}

/// The mesh's edge arrays satisfy `mesh_edges_ok`.
#[verifier::spinoff_prover]
proof fn lemma_mesh_edges(
    m: HalfEdgeTopology,
    fs: Seq<Vec<VertexKey>>,
    partner: Seq<Option<usize>>,
    slot: Seq<usize>,
    twins: Seq<(usize, usize)>,
    owner: Seq<int>,
    from: Seq<usize>,
    to: Seq<usize>,
    cface: Seq<usize>,
    nextc: Seq<usize>,
    to0: Seq<usize>,
    next0: Seq<usize>,
)
    requires
        slot_facts(partner, slot, twins, m.num_half_edges as int, owner),
        forall|q: int| 0 <= q < partner.len() && #[trigger] partner[q] is Some ==> 0 <= partner[q]->0 < partner.len() && partner[partner[q]->0 as int] == Some(q as usize),
        fill_facts(slot, owner, from, to, cface, nextc, m.num_half_edges as int, to0, m.edge_opposite_indices@, next0, m.edge_face_indices@, m.edge_data_indices@),
        cface.len() == partner.len(),
        forall|q: int| 0 <= q < cface.len() ==> #[trigger] cface[q] < fs.len(),
        m.edge_vertex_indices@.len() == m.num_half_edges,
        m.edge_next_indices@.len() == m.num_half_edges,
        m.edge_vertex_data_indices@.len() == m.num_half_edges,
        forall|x: int| 0 <= x < m.num_half_edges ==> #[trigger] m.edge_vertex_data_indices@[x] == x,
        forall|x: int| 0 <= x < m.num_half_edges ==> #[trigger] m.edge_vertex_indices@[x] < m.num_vertices,
        forall|x: int| 0 <= x < m.num_half_edges ==> #[trigger] m.edge_next_indices@[x] < m.num_half_edges,
        forall|t: int| 0 <= t < twins.len() ==> m.edge_face_indices@[m.edge_next_indices@[(#[trigger] twins[t]).1 as int] as int] is None,
    ensures
        mesh_edges_ok(m, fs),
{
    reveal(slot_facts);
    reveal(fill_facts);
    let nhe = m.num_half_edges as int;
    assert forall|h: int| 0 <= h < nhe implies {
            &&& #[trigger] m.edge_opposite_indices@[h] == twin_slot(h)
            &&& m.edge_data_indices@[h] == h / 2
            &&& m.edge_vertex_data_indices@[h] == h
            &&& m.edge_vertex_indices@[h] < m.num_vertices
            &&& m.edge_next_indices@[h] < nhe
            &&& match m.edge_face_indices@[h] {
                Some(f) => f < fs.len(),
                None => m.edge_face_indices@[twin_slot(h)] is Some && m.edge_face_indices@[m.edge_next_indices@[h] as int] is None,
            }
        } by {
        let o = owner[h];
        assert(m.edge_opposite_indices@[h] == twin_slot(h));
        assert(m.edge_data_indices@[h] == h / 2);
        assert(m.edge_vertex_data_indices@[h] == h);
        assert(m.edge_vertex_indices@[h] < m.num_vertices);
        assert(m.edge_next_indices@[h] < nhe);
        if slot[o] != h {
            let t = choose|t: int| 0 <= t < twins.len() && #[trigger] twins[t] == (o as usize, h as usize);
            assert(twins[t] == (o as usize, h as usize));
            lemma_owner_of_slot(partner, slot, twins, nhe, owner, o);
            assert(twin_slot(h) == slot[o]);
            assert(m.edge_face_indices@[h] is None);
            assert(m.edge_face_indices@[twin_slot(h)] is Some);
            assert(m.edge_face_indices@[m.edge_next_indices@[h] as int] is None);
        } else {
            assert(m.edge_face_indices@[h] == Some(cface[o]));
            assert(cface[o] < fs.len());
        }
    }
}

/// Each vertex's key is the key of its source corner.
proof fn lemma_vertex_keys(m: HalfEdgeTopology, fs: Seq<Vec<VertexKey>>, keys: Seq<VertexKey>, cface: Seq<usize>, first: Seq<usize>, src: Seq<usize>)
    requires
        flat_facts(fs, keys, cface, first),
        m.vertex_sources@.len() == src.len(),
        forall|w: int| 0 <= w < src.len() ==> #[trigger] src[w] < total_corners(fs),
        forall|w: int| 0 <= w < src.len() ==> {
            let p = src[w] as int;
            #[trigger] m.vertex_sources@[w] == (cface[p], (p - first[cface[p] as int]) as usize)
        },
    ensures
        forall|w: int| 0 <= w < src.len() ==> #[trigger] vertex_key(m, fs, w) == keys[src[w] as int]
            && is_corner(fs, m.vertex_sources@[w].0 as int, m.vertex_sources@[w].1 as int),
{
    reveal(flat_facts);
    assert forall|w: int| 0 <= w < src.len() implies #[trigger] vertex_key(m, fs, w) == keys[src[w] as int]
        && is_corner(fs, m.vertex_sources@[w].0 as int, m.vertex_sources@[w].1 as int) by {
        let p = src[w] as int;
        let f = cface[p] as int;
        assert(0 <= f < fs.len());
        assert(first[f] == corner_offset(fs, f));
    }
}

/// The end-vertex key of a half-edge after splitting, from its owner.
proof fn lemma_end_keys(
    fs: Seq<Vec<VertexKey>>,
    keys: Seq<VertexKey>,
    cface: Seq<usize>,
    first: Seq<usize>,
    ids: Map<VertexKey, i32>,
    src0: Seq<usize>,
    from: Seq<usize>,
    to: Seq<usize>,
    nextc: Seq<usize>,
    partner: Seq<Option<usize>>,
    slot: Seq<usize>,
    twins: Seq<(usize, usize)>,
    nhe: int,
    owner: Seq<int>,
    to0: Seq<usize>,
    opp: Seq<usize>,
    next0: Seq<usize>,
    face: Seq<Option<usize>>,
    edge: Seq<usize>,
    f: int,
    k: int,
)
    requires
        flat_facts(fs, keys, cface, first),
        id_facts(keys, ids, src0),
        edge_facts(fs, ids, from, to, nextc, src0.len() as int),
        partner.len() == total_corners(fs),
        partner_ok(partner, from, to),
        slot_facts(partner, slot, twins, nhe, owner),
        fill_facts(slot, owner, from, to, cface, nextc, nhe, to0, opp, next0, face, edge),
        is_corner(fs, f, k),
    ensures
        ({
            let p = corner_offset(fs, f) + k;
            let n = fs[f]@.len() as int;
            &&& 0 <= p < total_corners(fs)
            &&& keys[src0[to0[slot[p] as int] as int] as int] == fs[f]@[(k + 1) % n]
            &&& keys[src0[to0[twin_slot(slot[p] as int)] as int] as int] == fs[f]@[k]
            &&& 0 <= twin_slot(slot[p] as int) < nhe
            &&& face[slot[p] as int] == Some(f as usize)
            &&& next0[slot[p] as int] == slot[corner_offset(fs, f) + (k + 1) % n]
        }),
{
    reveal(flat_facts);
    reveal(id_facts);
    reveal(edge_facts);
    reveal(slot_facts);
    reveal(fill_facts);
    let p = corner_offset(fs, f) + k;
    let n = fs[f]@.len() as int;
    lemma_offset_nonneg(fs, f);
    lemma_offset_mono(fs, f + 1, fs.len() as int);
    lemma_mod_in_range(k + 1, n);
    let k2 = (k + 1) % n;
    let q = corner_offset(fs, f) + k2;
    assert(flat_ok(fs, keys, cface, f, k));
    assert(flat_ok(fs, keys, cface, f, k2));
    assert(corner_edge_ok(fs, ids, from, to, nextc, f, k));
    assert(corner_edge_ok(fs, ids, from, to, nextc, f, k2));
    assert(keys[q] == fs[f]@[k2]);
    assert(keys[p] == fs[f]@[k]);
    assert(ids.contains_key(keys[q]));
    assert(ids.contains_key(keys[p]));
    lemma_owner_of_slot(partner, slot, twins, nhe, owner, p);
    assert(to0[slot[p] as int] == to[p]);
    let y = twin_slot(slot[p] as int);
    if partner[p] is Some {
        let j = partner[p]->0 as int;
        lemma_owner_of_slot(partner, slot, twins, nhe, owner, j);
        assert(slot[j] == y);
        assert(to0[y] == to[j]);
        assert(to[j] == from[p]);
    } else {
        assert(y == slot[p] + 1);
        assert(slot[p] < nhe);
        let o = owner[y];
        if slot[o] == y {
            let j = partner[o]->0 as int;
            assert(slot[j] == slot[p]);
        }
        assert(o == p);
        assert(to0[y] == from[p]);
    }
}

proof fn lemma_walk_cycle(next: Seq<usize>, slot: Seq<usize>, base: int, n: int, k: nat)
    requires
        0 < n,
        k < n,
        0 <= base,
        base + n <= slot.len(),
        forall|j: int| 0 <= j < n ==> #[trigger] slot[base + j] < next.len(),
        forall|j: int| 0 <= j < n ==> next[#[trigger] slot[base + j] as int] == slot[base + (j + 1) % n],
    ensures
        walk(next, slot[base] as int, k) == slot[base + k],
    decreases k,
{
    if k > 0 {
        lemma_walk_cycle(next, slot, base, n, (k - 1) as nat);
        let j = k - 1;
        assert(next[slot[base + j] as int] == slot[base + (j + 1) % n]);
        vstd::arithmetic::div_mod::lemma_small_mod((j + 1) as nat, n as nat);
    }
}

/// All that the construction establishes, for the lemmas below.
#[verifier::opaque]
pub open spec fn build_facts(
    m: HalfEdgeTopology,
    fs: Seq<Vec<VertexKey>>,
    keys: Seq<VertexKey>,
    cface: Seq<usize>,
    first: Seq<usize>,
    ids: Map<VertexKey, i32>,
    src0: Seq<usize>,
    from: Seq<usize>,
    to: Seq<usize>,
    nextc: Seq<usize>,
    partner: Seq<Option<usize>>,
    slot: Seq<usize>,
    twins: Seq<(usize, usize)>,
    owner: Seq<int>,
    to0: Seq<usize>,
    next0: Seq<usize>,
    src: Seq<usize>,
) -> bool {
    let nhe = m.num_half_edges as int;
    &&& flat_facts(fs, keys, cface, first)
    &&& id_facts(keys, ids, src0)
    &&& edge_facts(fs, ids, from, to, nextc, src0.len() as int)
    &&& partner.len() == total_corners(fs)
    &&& partner_ok(partner, from, to)
    &&& forall|i: int, j: int|
        0 <= i < partner.len() && 0 <= j < partner.len() && i != j && #[trigger] partner[i] is None
            && #[trigger] partner[j] is None ==> !(from[j] == to[i] && to[j] == from[i])
    &&& slot_facts(partner, slot, twins, nhe, owner)
    &&& fill_facts(slot, owner, from, to, cface, nextc, nhe, to0, m.edge_opposite_indices@, next0, m.edge_face_indices@, m.edge_data_indices@)
    &&& m.edge_vertex_indices@.len() == nhe
    &&& m.edge_next_indices@.len() == nhe
    &&& m.num_vertices == src.len()
    &&& forall|x: int| 0 <= x < nhe ==> #[trigger] m.edge_vertex_indices@[x] < src.len() && src[m.edge_vertex_indices@[x] as int] == src0[to0[x] as int]
    &&& forall|w: int| 0 <= w < src.len() ==> #[trigger] vertex_key(m, fs, w) == keys[src[w] as int]
    &&& forall|x: int| 0 <= x < nhe ==> #[trigger] m.edge_next_indices@[x] < nhe
    &&& forall|x: int| 0 <= x < nhe && #[trigger] m.edge_face_indices@[x] is Some ==> m.edge_next_indices@[x] == next0[x]
    &&& m.face_edge_indices@.len() == fs.len()
    &&& m.face_data_indices@.len() == fs.len()
    &&& forall|f: int| 0 <= f < fs.len() ==> #[trigger] m.face_edge_indices@[f] == slot[first[f] as int] && m.face_data_indices@[f] == f
    &&& forall|f: int| 0 <= f < fs.len() ==> #[trigger] corner_offset(fs, f) < total_corners(fs)
}

proof fn lemma_face_walk(
    m: HalfEdgeTopology,
    fs: Seq<Vec<VertexKey>>,
    keys: Seq<VertexKey>,
    cface: Seq<usize>,
    first: Seq<usize>,
    ids: Map<VertexKey, i32>,
    src0: Seq<usize>,
    from: Seq<usize>,
    to: Seq<usize>,
    nextc: Seq<usize>,
    partner: Seq<Option<usize>>,
    slot: Seq<usize>,
    twins: Seq<(usize, usize)>,
    owner: Seq<int>,
    to0: Seq<usize>,
    next0: Seq<usize>,
    src: Seq<usize>,
    f: int,
    k: int,
)
    requires
        build_facts(m, fs, keys, cface, first, ids, src0, from, to, nextc, partner, slot, twins, owner, to0, next0, src),
        is_corner(fs, f, k),
    ensures
        face_half_edge(m, f, k) == slot[corner_offset(fs, f) + k],
        0 <= corner_offset(fs, f) + k < total_corners(fs),
{
    reveal(build_facts);
    reveal(flat_facts);
    reveal(slot_facts);
    reveal(fill_facts);
    let base = corner_offset(fs, f);
    let n = fs[f]@.len() as int;
    let nhe = m.num_half_edges as int;
    lemma_offset_nonneg(fs, f);
    lemma_offset_mono(fs, f + 1, fs.len() as int);
    assert forall|j: int| 0 <= j < n implies #[trigger] slot[base + j] < m.edge_next_indices@.len() && m.edge_next_indices@[slot[base + j] as int] == slot[base + (j + 1) % n] by {
        lemma_end_keys(fs, keys, cface, first, ids, src0, from, to, nextc, partner, slot, twins, nhe, owner, to0, m.edge_opposite_indices@, next0, m.edge_face_indices@, m.edge_data_indices@, f, j);
    }
    assert forall|j: int| 0 <= j < n implies m.edge_next_indices@[#[trigger] slot[base + j] as int] == slot[base + (j + 1) % n] by {
        assert(slot[base + j] < m.edge_next_indices@.len());
    }
    assert(first[f] == base);
    lemma_walk_cycle(m.edge_next_indices@, slot, base, n, k as nat);
}

/// The mesh's faces satisfy `mesh_faces_ok`.
#[verifier::spinoff_prover]
proof fn lemma_mesh_face_indices(
    m: HalfEdgeTopology,
    fs: Seq<Vec<VertexKey>>,
    keys: Seq<VertexKey>,
    cface: Seq<usize>,
    first: Seq<usize>,
    ids: Map<VertexKey, i32>,
    src0: Seq<usize>,
    from: Seq<usize>,
    to: Seq<usize>,
    nextc: Seq<usize>,
    partner: Seq<Option<usize>>,
    slot: Seq<usize>,
    twins: Seq<(usize, usize)>,
    owner: Seq<int>,
    to0: Seq<usize>,
    next0: Seq<usize>,
    src: Seq<usize>,
)
    requires
        build_facts(m, fs, keys, cface, first, ids, src0, from, to, nextc, partner, slot, twins, owner, to0, next0, src),
    ensures
        forall|f: int| 0 <= f < fs.len() ==> #[trigger] m.face_data_indices@[f] == f && m.face_edge_indices@[f] < m.num_half_edges,
{
    reveal(build_facts);
    reveal(flat_facts);
    reveal(slot_facts);
    let nhe = m.num_half_edges as int;
    assert forall|f: int| 0 <= f < fs.len() implies #[trigger] m.face_data_indices@[f] == f && m.face_edge_indices@[f] < nhe by {
        assert(first[f] == corner_offset(fs, f));
        lemma_offset_nonneg(fs, f);
        assert(corner_offset(fs, f) < total_corners(fs));
        assert(m.face_edge_indices@[f] == slot[first[f] as int] && m.face_data_indices@[f] == f);
        assert(slot[first[f] as int] < nhe);
    }
}

#[verifier::spinoff_prover]
proof fn lemma_mesh_face_cycles(
    m: HalfEdgeTopology,
    fs: Seq<Vec<VertexKey>>,
    keys: Seq<VertexKey>,
    cface: Seq<usize>,
    first: Seq<usize>,
    ids: Map<VertexKey, i32>,
    src0: Seq<usize>,
    from: Seq<usize>,
    to: Seq<usize>,
    nextc: Seq<usize>,
    partner: Seq<Option<usize>>,
    slot: Seq<usize>,
    twins: Seq<(usize, usize)>,
    owner: Seq<int>,
    to0: Seq<usize>,
    next0: Seq<usize>,
    src: Seq<usize>,
)
    requires
        build_facts(m, fs, keys, cface, first, ids, src0, from, to, nextc, partner, slot, twins, owner, to0, next0, src),
    ensures
        forall|f: int, k: int|
            is_corner(fs, f, k) ==> {
                let h = #[trigger] face_half_edge(m, f, k);
                let n = fs[f]@.len() as int;
                &&& 0 <= h < m.num_half_edges
                &&& m.edge_face_indices@[h] == Some(f as usize)
                &&& vertex_key(m, fs, m.edge_vertex_indices@[h] as int) == fs[f]@[(k + 1) % n]
                &&& vertex_key(m, fs, origin(m, h)) == fs[f]@[k]
                &&& m.edge_next_indices@[h] as int == face_half_edge(m, f, (k + 1) % n)
            },
{
    reveal(build_facts);
    reveal(flat_facts);
    reveal(slot_facts);
    reveal(fill_facts);
    let nhe = m.num_half_edges as int;
    assert forall|f: int, k: int| is_corner(fs, f, k) implies {
            let h = #[trigger] face_half_edge(m, f, k);
            let n = fs[f]@.len() as int;
            &&& 0 <= h < nhe
            &&& m.edge_face_indices@[h] == Some(f as usize)
            &&& vertex_key(m, fs, m.edge_vertex_indices@[h] as int) == fs[f]@[(k + 1) % n]
            &&& vertex_key(m, fs, origin(m, h)) == fs[f]@[k]
            &&& m.edge_next_indices@[h] as int == face_half_edge(m, f, (k + 1) % n)
        } by {
        let n = fs[f]@.len() as int;
        lemma_face_walk(m, fs, keys, cface, first, ids, src0, from, to, nextc, partner, slot, twins, owner, to0, next0, src, f, k);
        lemma_mod_in_range(k + 1, n);
        lemma_face_walk(m, fs, keys, cface, first, ids, src0, from, to, nextc, partner, slot, twins, owner, to0, next0, src, f, (k + 1) % n);
        lemma_end_keys(fs, keys, cface, first, ids, src0, from, to, nextc, partner, slot, twins, nhe, owner, to0, m.edge_opposite_indices@, next0, m.edge_face_indices@, m.edge_data_indices@, f, k);
        let p = corner_offset(fs, f) + k;
        let h = slot[p] as int;
        let y = twin_slot(h);
        assert(m.edge_opposite_indices@[h] == y);
        assert(src[m.edge_vertex_indices@[h] as int] == src0[to0[h] as int]);
        assert(src[m.edge_vertex_indices@[y] as int] == src0[to0[y] as int]);
        assert(vertex_key(m, fs, m.edge_vertex_indices@[h] as int) == keys[src[m.edge_vertex_indices@[h] as int] as int]);
        assert(vertex_key(m, fs, m.edge_vertex_indices@[y] as int) == keys[src[m.edge_vertex_indices@[y] as int] as int]);
    }
}

#[verifier::spinoff_prover]
proof fn lemma_mesh_face_edges_distinct(
    m: HalfEdgeTopology,
    fs: Seq<Vec<VertexKey>>,
    keys: Seq<VertexKey>,
    cface: Seq<usize>,
    first: Seq<usize>,
    ids: Map<VertexKey, i32>,
    src0: Seq<usize>,
    from: Seq<usize>,
    to: Seq<usize>,
    nextc: Seq<usize>,
    partner: Seq<Option<usize>>,
    slot: Seq<usize>,
    twins: Seq<(usize, usize)>,
    owner: Seq<int>,
    to0: Seq<usize>,
    next0: Seq<usize>,
    src: Seq<usize>,
)
    requires
        build_facts(m, fs, keys, cface, first, ids, src0, from, to, nextc, partner, slot, twins, owner, to0, next0, src),
    ensures
        forall|f1: int, k1: int, f2: int, k2: int|
            is_corner(fs, f1, k1) && is_corner(fs, f2, k2) && (f1 != f2 || k1 != k2)
                ==> #[trigger] face_half_edge(m, f1, k1) != #[trigger] face_half_edge(m, f2, k2),
{
    reveal(build_facts);
    reveal(flat_facts);
    reveal(slot_facts);
    reveal(fill_facts);
    let nhe = m.num_half_edges as int;
    assert forall|f1: int, k1: int, f2: int, k2: int|
        is_corner(fs, f1, k1) && is_corner(fs, f2, k2) && (f1 != f2 || k1 != k2)
            implies #[trigger] face_half_edge(m, f1, k1) != #[trigger] face_half_edge(m, f2, k2) by {
        lemma_face_walk(m, fs, keys, cface, first, ids, src0, from, to, nextc, partner, slot, twins, owner, to0, next0, src, f1, k1);
        lemma_face_walk(m, fs, keys, cface, first, ids, src0, from, to, nextc, partner, slot, twins, owner, to0, next0, src, f2, k2);
        if corner_offset(fs, f1) + k1 == corner_offset(fs, f2) + k2 {
            lemma_corner_flat_unique(fs, f1, k1, f2, k2);
        }
    }
}

#[verifier::spinoff_prover]
proof fn lemma_mesh_face_edges_cover(
    m: HalfEdgeTopology,
    fs: Seq<Vec<VertexKey>>,
    keys: Seq<VertexKey>,
    cface: Seq<usize>,
    first: Seq<usize>,
    ids: Map<VertexKey, i32>,
    src0: Seq<usize>,
    from: Seq<usize>,
    to: Seq<usize>,
    nextc: Seq<usize>,
    partner: Seq<Option<usize>>,
    slot: Seq<usize>,
    twins: Seq<(usize, usize)>,
    owner: Seq<int>,
    to0: Seq<usize>,
    next0: Seq<usize>,
    src: Seq<usize>,
)
    requires
        build_facts(m, fs, keys, cface, first, ids, src0, from, to, nextc, partner, slot, twins, owner, to0, next0, src),
    ensures
        forall|h: int|
            0 <= h < m.num_half_edges && #[trigger] m.edge_face_indices@[h] is Some ==> exists|k: int|
                is_corner(fs, m.edge_face_indices@[h]->0 as int, k) && #[trigger] face_half_edge(m, m.edge_face_indices@[h]->0 as int, k) == h,
{
    reveal(build_facts);
    reveal(flat_facts);
    reveal(slot_facts);
    reveal(fill_facts);
    let nhe = m.num_half_edges as int;
    assert forall|h: int|
        0 <= h < nhe && #[trigger] m.edge_face_indices@[h] is Some implies exists|k: int|
            is_corner(fs, m.edge_face_indices@[h]->0 as int, k) && #[trigger] face_half_edge(m, m.edge_face_indices@[h]->0 as int, k) == h by {
        let o = owner[h];
        assert(slot[o] == h);
        let f = cface[o] as int;
        let k = o - corner_offset(fs, f);
        assert(is_corner(fs, f, k));
        lemma_face_walk(m, fs, keys, cface, first, ids, src0, from, to, nextc, partner, slot, twins, owner, to0, next0, src, f, k);
        assert(m.edge_face_indices@[h]->0 as int == f);
        assert(face_half_edge(m, m.edge_face_indices@[h]->0 as int, k) == h);
    }
}

#[verifier::spinoff_prover]
proof fn lemma_mesh_faces(
    m: HalfEdgeTopology,
    fs: Seq<Vec<VertexKey>>,
    keys: Seq<VertexKey>,
    cface: Seq<usize>,
    first: Seq<usize>,
    ids: Map<VertexKey, i32>,
    src0: Seq<usize>,
    from: Seq<usize>,
    to: Seq<usize>,
    nextc: Seq<usize>,
    partner: Seq<Option<usize>>,
    slot: Seq<usize>,
    twins: Seq<(usize, usize)>,
    owner: Seq<int>,
    to0: Seq<usize>,
    next0: Seq<usize>,
    src: Seq<usize>,
)
    requires
        build_facts(m, fs, keys, cface, first, ids, src0, from, to, nextc, partner, slot, twins, owner, to0, next0, src),
    ensures
        mesh_faces_ok(m, fs),
{
    lemma_mesh_face_indices(m, fs, keys, cface, first, ids, src0, from, to, nextc, partner, slot, twins, owner, to0, next0, src);
    lemma_mesh_face_cycles(m, fs, keys, cface, first, ids, src0, from, to, nextc, partner, slot, twins, owner, to0, next0, src);
    lemma_mesh_face_edges_distinct(m, fs, keys, cface, first, ids, src0, from, to, nextc, partner, slot, twins, owner, to0, next0, src);
    lemma_mesh_face_edges_cover(m, fs, keys, cface, first, ids, src0, from, to, nextc, partner, slot, twins, owner, to0, next0, src);
}

/// The mesh's twin pairing is maximal.
#[verifier::spinoff_prover]
proof fn lemma_mesh_pairing(
    m: HalfEdgeTopology,
    fs: Seq<Vec<VertexKey>>,
    keys: Seq<VertexKey>,
    cface: Seq<usize>,
    first: Seq<usize>,
    ids: Map<VertexKey, i32>,
    src0: Seq<usize>,
    from: Seq<usize>,
    to: Seq<usize>,
    nextc: Seq<usize>,
    partner: Seq<Option<usize>>,
    slot: Seq<usize>,
    twins: Seq<(usize, usize)>,
    owner: Seq<int>,
    to0: Seq<usize>,
    next0: Seq<usize>,
    src: Seq<usize>,
)
    requires
        build_facts(m, fs, keys, cface, first, ids, src0, from, to, nextc, partner, slot, twins, owner, to0, next0, src),
    ensures
        mesh_pairing_maximal(m, fs),
{
    reveal(id_facts);
    reveal(edge_facts);
    reveal(build_facts);
    reveal(flat_facts);
    reveal(slot_facts);
    reveal(fill_facts);
    let nhe = m.num_half_edges as int;
    assert forall|h1: int, h2: int|
        0 <= h1 < nhe && 0 <= h2 < nhe && h1 != h2 && #[trigger] m.edge_face_indices@[h1] is Some
            && #[trigger] m.edge_face_indices@[h2] is Some
            && m.edge_face_indices@[twin_slot(h1)] is None
            && m.edge_face_indices@[twin_slot(h2)] is None implies !(
        vertex_key(m, fs, m.edge_vertex_indices@[h1] as int) == vertex_key(m, fs, origin(m, h2))
            && vertex_key(m, fs, origin(m, h1)) == vertex_key(m, fs, m.edge_vertex_indices@[h2] as int)) by {
        let o1 = owner[h1];
        let o2 = owner[h2];
        assert(slot[o1] == h1);
        assert(slot[o2] == h2);
        let f1 = cface[o1] as int;
        let k1 = o1 - corner_offset(fs, f1);
        let f2 = cface[o2] as int;
        let k2 = o2 - corner_offset(fs, f2);
        assert(is_corner(fs, f1, k1));
        assert(is_corner(fs, f2, k2));
        lemma_end_keys(fs, keys, cface, first, ids, src0, from, to, nextc, partner, slot, twins, nhe, owner, to0, m.edge_opposite_indices@, next0, m.edge_face_indices@, m.edge_data_indices@, f1, k1);
        lemma_end_keys(fs, keys, cface, first, ids, src0, from, to, nextc, partner, slot, twins, nhe, owner, to0, m.edge_opposite_indices@, next0, m.edge_face_indices@, m.edge_data_indices@, f2, k2);
        if partner[o1] is Some {
            let j = partner[o1]->0 as int;
            lemma_owner_of_slot(partner, slot, twins, nhe, owner, j);
            assert(slot[j] == twin_slot(h1));
        }
        if partner[o2] is Some {
            let j = partner[o2]->0 as int;
            lemma_owner_of_slot(partner, slot, twins, nhe, owner, j);
            assert(slot[j] == twin_slot(h2));
        }
        let y1 = twin_slot(h1);
        let y2 = twin_slot(h2);
        assert(to0[h1] == to[o1]);
        assert(to0[h2] == to[o2]);
        assert(to0[y1] == from[o1]) by {
            let o = owner[y1];
            if slot[o] == y1 {
                let j = partner[o]->0 as int;
                assert(slot[j] == slot[o1]);
            }
        }
        assert(to0[y2] == from[o2]) by {
            let o = owner[y2];
            if slot[o] == y2 {
                let j = partner[o]->0 as int;
                assert(slot[j] == slot[o2]);
            }
        }
        assert(m.edge_opposite_indices@[h1] == y1);
        assert(m.edge_opposite_indices@[h2] == y2);
        assert(vertex_key(m, fs, m.edge_vertex_indices@[h1] as int) == keys[src0[to[o1] as int] as int]);
        assert(vertex_key(m, fs, m.edge_vertex_indices@[h2] as int) == keys[src0[to[o2] as int] as int]);
        assert(vertex_key(m, fs, m.edge_vertex_indices@[y1] as int) == keys[src0[from[o1] as int] as int]);
        assert(vertex_key(m, fs, m.edge_vertex_indices@[y2] as int) == keys[src0[from[o2] as int] as int]);
        assert(from[o1] < src0.len() && to[o1] < src0.len() && from[o2] < src0.len() && to[o2] < src0.len());
        assert(o1 != o2);
    }
}

/// Flat indices follow corner order.
proof fn lemma_flat_order(fs: Seq<Vec<VertexKey>>, f1: int, k1: int, f2: int, k2: int)
    requires
        is_corner(fs, f1, k1),
        is_corner(fs, f2, k2),
    ensures
        corner_offset(fs, f1) + k1 < corner_offset(fs, f2) + k2 <==> corner_before(f1, k1, f2, k2),
{
    if f1 < f2 {
        lemma_offset_mono(fs, f1 + 1, f2);
    } else if f2 < f1 {
        lemma_offset_mono(fs, f2 + 1, f1);
    }
}

/// The base vertices come from the first occurrences of the positions.
proof fn lemma_base_vertices(
    m: HalfEdgeTopology,
    fs: Seq<Vec<VertexKey>>,
    keys: Seq<VertexKey>,
    cface: Seq<usize>,
    first: Seq<usize>,
    ids: Map<VertexKey, i32>,
    src0: Seq<usize>,
    src: Seq<usize>,
)
    requires
        flat_facts(fs, keys, cface, first),
        id_facts(keys, ids, src0),
        m.num_vertices == src.len(),
        m.vertex_sources@.len() == src.len(),
        src0.len() <= src.len(),
        forall|v: int| 0 <= v < src0.len() ==> #[trigger] src[v] == src0[v],
        forall|v: int| 0 <= v < src.len() ==> src0.contains(#[trigger] src[v]),
        forall|w: int| 0 <= w < src.len() ==> {
            let p = src[w] as int;
            &&& 0 <= p < total_corners(fs)
            &&& #[trigger] m.vertex_sources@[w] == (cface[p], (p - first[cface[p] as int]) as usize)
        },
    ensures
        base_vertices_ok(m, fs, src0.len() as int),
{
    reveal(flat_facts);
    reveal(id_facts);
    let nb = src0.len() as int;
    lemma_vertex_keys(m, fs, keys, cface, first, src);
    // Where each vertex's source corner sits.
    assert forall|v: int| 0 <= v < src.len() implies {
        let c = #[trigger] m.vertex_sources@[v];
        &&& is_corner(fs, c.0 as int, c.1 as int)
        &&& corner_offset(fs, c.0 as int) + c.1 == src[v]
    } by {
        let p = src[v] as int;
        let f = cface[p] as int;
        assert(first[f] == corner_offset(fs, f));
    }
    assert forall|v: int, f: int, k: int|
        0 <= v < nb && is_corner(fs, f, k) && corner_before(f, k, (#[trigger] m.vertex_sources@[v]).0 as int, m.vertex_sources@[v].1 as int)
            implies #[trigger] fs[f]@[k] != vertex_key(m, fs, v) by {
        let c = m.vertex_sources@[v];
        lemma_flat_order(fs, f, k, c.0 as int, c.1 as int);
        let q = corner_offset(fs, f) + k;
        lemma_offset_nonneg(fs, f);
        assert(flat_ok(fs, keys, cface, f, k));
        assert(keys[q] == fs[f]@[k]);
        assert(src[v] == src0[v]);
        assert(keys[q] != keys[src0[v] as int]);
    }
    assert forall|v: int, w: int| 0 <= v < w < nb implies corner_before(
        (#[trigger] m.vertex_sources@[v]).0 as int,
        m.vertex_sources@[v].1 as int,
        (#[trigger] m.vertex_sources@[w]).0 as int,
        m.vertex_sources@[w].1 as int,
    ) by {
        let a = m.vertex_sources@[v];
        let b = m.vertex_sources@[w];
        lemma_flat_order(fs, a.0 as int, a.1 as int, b.0 as int, b.1 as int);
        assert(src0[v] < src0[w]);
    }
    assert forall|f: int, k: int| is_corner(fs, f, k) implies #[trigger] has_base_vertex(m, fs, nb, f, k) by {
        assert(flat_ok(fs, keys, cface, f, k));
        lemma_offset_nonneg(fs, f);
        lemma_offset_mono(fs, f + 1, fs.len() as int);
        let q = corner_offset(fs, f) + k;
        assert(keys[q] == fs[f]@[k]);
        let v = ids[keys[q]] as int;
        assert(0 <= v < nb);
        assert(keys[src0[v] as int] == keys[q]);
        assert(vertex_key(m, fs, v) == keys[src[v] as int]);
    }
    assert forall|v: int| nb <= v < m.num_vertices implies #[trigger] is_copy_of_base(m, nb, v) by {
        let u = choose|u: int| 0 <= u < src0.len() && src0[u] == src[v];
        assert(src[u] == src0[u]);
        assert(m.vertex_sources@[u] == m.vertex_sources@[v]);
    }
}

/// For each face, the slot of its first corner, and the face's own index.
fn face_edges(slot: &Vec<usize>, first: &Vec<usize>, fs: Ghost<Seq<Vec<VertexKey>>>) -> (r: (Vec<usize>, Vec<usize>))
    requires
        first@.len() == fs@.len(),
        slot@.len() == total_corners(fs@),
        forall|f: int| 0 <= f < fs@.len() ==> #[trigger] first@[f] == corner_offset(fs@, f),
        forall|f: int| 0 <= f < fs@.len() ==> #[trigger] corner_offset(fs@, f) < total_corners(fs@),
    ensures
        r.0@.len() == fs@.len(),
        r.1@.len() == fs@.len(),
        forall|f: int| 0 <= f < fs@.len() ==> #[trigger] r.0@[f] == slot@[first@[f] as int] && r.1@[f] == f,
{
    let nf = first.len();
    let mut face_edge: Vec<usize> = Vec::new();
    let mut face_data: Vec<usize> = Vec::new();
    let mut fi: usize = 0;
    while fi < nf
        invariant
            nf == fs@.len(),
            first@.len() == nf,
            slot@.len() == total_corners(fs@),
            forall|f: int| 0 <= f < nf ==> #[trigger] first@[f] == corner_offset(fs@, f),
            forall|f: int| 0 <= f < fs@.len() ==> #[trigger] corner_offset(fs@, f) < total_corners(fs@),
            0 <= fi <= nf,
            face_edge@.len() == fi,
            face_data@.len() == fi,
            forall|f: int| 0 <= f < fi ==> #[trigger] face_edge@[f] == slot@[first@[f] as int] && face_data@[f] == f,
        decreases nf - fi,
    {
        face_edge.push(slot[first[fi]]);
        face_data.push(fi);
        fi += 1;
    }
    (face_edge, face_data)
}

/// `[0, 1, ..., n - 1]`.
fn identity_indices(n: usize) -> (r: Vec<usize>)
    ensures
        r@.len() == n,
        forall|x: int| 0 <= x < n ==> #[trigger] r@[x] == x,
{
    let mut r: Vec<usize> = Vec::new();
    let mut h: usize = 0;
    while h < n
        invariant
            0 <= h <= n,
            r@.len() == h,
            forall|x: int| 0 <= x < h ==> #[trigger] r@[x] == x,
        decreases n - h,
    {
        r.push(h);
        h += 1;
    }
    r
}

/// The (face, corner) of each vertex's source corner.
fn vertex_sources_of(
    src: &Vec<usize>,
    cface: &Vec<usize>,
    first: &Vec<usize>,
    fs: Ghost<Seq<Vec<VertexKey>>>,
    keys: Ghost<Seq<VertexKey>>,
    src0: Ghost<Seq<usize>>,
) -> (sources: Vec<(usize, usize)>)
    requires
        flat_facts(fs@, keys@, cface@, first@),
        forall|w: int| 0 <= w < src@.len() ==> src0@.contains(#[trigger] src@[w]),
        forall|w: int| 0 <= w < src0@.len() ==> #[trigger] src0@[w] < total_corners(fs@),
    ensures
        sources@.len() == src@.len(),
        forall|w: int| 0 <= w < src@.len() ==> {
            let p = src@[w] as int;
            &&& 0 <= p < total_corners(fs@)
            &&& #[trigger] sources@[w] == (cface@[p], (p - first@[cface@[p] as int]) as usize)
        },
{
    proof {
        reveal(flat_facts);
    }
    let ghost total = total_corners(fs@);
    let nv = src.len();
    let mut sources: Vec<(usize, usize)> = Vec::new();
    let mut v: usize = 0;
    while v < nv
        invariant
            nv == src@.len(),
            0 <= v <= nv,
            total == keys@.len(),
            cface@.len() == total,
            first@.len() == fs@.len(),
            forall|f: int| 0 <= f < fs@.len() ==> #[trigger] first@[f] == corner_offset(fs@, f),
            forall|p: int|
                0 <= p < total ==> {
                    let f = #[trigger] cface@[p] as int;
                    &&& 0 <= f < fs@.len()
                    &&& corner_offset(fs@, f) <= p < corner_offset(fs@, f) + fs@[f]@.len()
                },
            forall|w: int| 0 <= w < nv ==> src0@.contains(#[trigger] src@[w]),
            forall|w: int| 0 <= w < src0@.len() ==> #[trigger] src0@[w] < total,
            sources@.len() == v,
            forall|w: int| 0 <= w < v ==> {
                let p = src@[w] as int;
                &&& 0 <= p < total
                &&& #[trigger] sources@[w] == (cface@[p], (p - first@[cface@[p] as int]) as usize)
            },
        decreases nv - v,
    {
        let p = src[v];
        proof {
            let u = choose|u: int| 0 <= u < src0@.len() && src0@[u] == p;
        }
        let f = cface[p];
        sources.push((f, p - first[f]));
        v += 1;
    }
    sources
}

// ─── laws ────────────────────────────────────────────────────────────
proof fn lemma_twins_of_edges(m: HalfEdgeTopology, faces: Seq<Vec<VertexKey>>)
    requires
        mesh_sizes_ok(m, faces),
        mesh_edges_ok(m, faces),
    ensures
        forall|h: int|
            0 <= h < m.num_half_edges ==> {
                let t = #[trigger] m.edge_opposite_indices@[h] as int;
                &&& 0 <= t < m.num_half_edges
                &&& t != h
                &&& m.edge_opposite_indices@[t] == h
                &&& m.edge_data_indices@[t] == m.edge_data_indices@[h]
            },
{
    assert forall|h: int| 0 <= h < m.num_half_edges implies {
        let t = #[trigger] m.edge_opposite_indices@[h] as int;
        &&& 0 <= t < m.num_half_edges
        &&& t != h
        &&& m.edge_opposite_indices@[t] == h
        &&& m.edge_data_indices@[t] == m.edge_data_indices@[h]
    } by {
        let t = twin_slot(h);
        assert(0 <= t < m.num_half_edges);
        assert(m.edge_opposite_indices@[t] == twin_slot(t));
        assert(m.edge_data_indices@[t] == t / 2);
    }
}

/// Where `i` steps of the walk one way lead from `f`, taken as long as
/// each half-edge on the way lies on a face.
pub open spec fn back_iter(opp: Seq<usize>, next: Seq<usize>, f: int, i: nat) -> int
    decreases i,
{
    if i == 0 {
        f
    } else {
        let x = back_iter(opp, next, f, (i - 1) as nat);
        opp[next[next[next[x] as int] as int] as int] as int
    }
}

/// Walking `i + 1` steps is one step, then `i` more.
proof fn lemma_back_iter_shift(opp: Seq<usize>, next: Seq<usize>, f: int, i: nat)
    ensures
        back_iter(opp, next, f, i + 1) == back_iter(opp, next, back_iter(opp, next, f, 1), i),
    decreases i,
{
    if i > 0 {
        lemma_back_iter_shift(opp, next, f, (i - 1) as nat);
    }
}

/// What the boundary search from `f` finds: the first of the half-edges
/// `1..=k` steps along the walk that lies on no face, if any.
proof fn lemma_search_walk(opp: Seq<usize>, next: Seq<usize>, face: Seq<Option<usize>>, f: int, k: nat)
    ensures
        match boundary_search(next, opp, face, f, k) {
            Some(t) => exists|i: nat| 1 <= i <= k && #[trigger] back_iter(opp, next, f, i) == t && face[t] is None
                && forall|j: nat| 1 <= j < i ==> face[#[trigger] back_iter(opp, next, f, j)] is Some,
            None => forall|j: nat| 1 <= j <= k ==> face[#[trigger] back_iter(opp, next, f, j)] is Some,
        },
    decreases k,
{
    if k > 0 {
        let t1 = back_iter(opp, next, f, 1);
        reveal_with_fuel(back_iter, 2);
        assert(t1 == opp[next[next[next[f] as int] as int] as int] as int);
        lemma_search_walk(opp, next, face, t1, (k - 1) as nat);
        assert forall|j: nat| 1 <= j <= k implies #[trigger] back_iter(opp, next, f, j) == if j == 1 { t1 } else { back_iter(opp, next, t1, (j - 1) as nat) } by {
            if j > 1 {
                lemma_back_iter_shift(opp, next, f, (j - 1) as nat);
            }
        }
        match boundary_search(next, opp, face, f, k) {
            Some(t) => {
                if face[t1] is None {
                    assert(back_iter(opp, next, f, 1) == t);
                } else {
                    let i2 = choose|i: nat| 1 <= i <= k - 1 && #[trigger] back_iter(opp, next, t1, i) == t && face[t] is None
                        && forall|j: nat| 1 <= j < i ==> face[#[trigger] back_iter(opp, next, t1, j)] is Some;
                    assert(back_iter(opp, next, f, i2 + 1) == t);
                    assert forall|j: nat| 1 <= j < i2 + 1 implies face[#[trigger] back_iter(opp, next, f, j)] is Some by {
                        if j > 1 {
                            assert(back_iter(opp, next, f, j) == back_iter(opp, next, t1, (j - 1) as nat));
                        }
                    }
                }
            },
            None => {
                assert forall|j: nat| 1 <= j <= k implies face[#[trigger] back_iter(opp, next, f, j)] is Some by {
                    if j > 1 {
                        assert(back_iter(opp, next, f, j) == back_iter(opp, next, t1, (j - 1) as nat));
                    }
                }
            },
        }
    }
}

/// The walk stays among the half-edges.
proof fn lemma_back_iter_range(opp: Seq<usize>, next: Seq<usize>, face: Seq<Option<usize>>, n: int, f: int, i: nat)
    requires
        quad_links(opp, next, face, n),
        0 <= f < n,
    ensures
        0 <= back_iter(opp, next, f, i) < n,
    decreases i,
{
    if i > 0 {
        lemma_back_iter_range(opp, next, face, n, f, (i - 1) as nat);
    }
}

/// Walking on from a face half-edge whose twin lies on no face, the walk
/// never comes back to a half-edge it passed.
proof fn lemma_walk_distinct(opp: Seq<usize>, next: Seq<usize>, face: Seq<Option<usize>>, n: int, f: int, i: nat, j: nat)
    requires
        quad_links(opp, next, face, n),
        0 <= f < n,
        face[opp[f] as int] is None,
        i < j,
        forall|l: nat| l < j ==> face[#[trigger] back_iter(opp, next, f, l)] is Some,
    ensures
        back_iter(opp, next, f, i) != back_iter(opp, next, f, j),
    decreases i,
{
    let xj1 = back_iter(opp, next, f, (j - 1) as nat);
    let xj = back_iter(opp, next, f, j);
    lemma_back_iter_range(opp, next, face, n, f, (j - 1) as nat);
    lemma_back_iter_range(opp, next, face, n, f, j);
    assert(face[xj1] is Some);
    assert(back_step(opp, next, face, xj1) == Some(xj as usize));
    lemma_steps_inverse(opp, next, face, n, xj1 as usize, xj as usize);
    if i == 0 {
        if f == xj {
            assert(fwd_step(opp, next, face, f) is None);
        }
    } else {
        let xi1 = back_iter(opp, next, f, (i - 1) as nat);
        let xi = back_iter(opp, next, f, i);
        lemma_back_iter_range(opp, next, face, n, f, (i - 1) as nat);
        lemma_back_iter_range(opp, next, face, n, f, i);
        assert(face[xi1] is Some);
        assert(back_step(opp, next, face, xi1) == Some(xi as usize));
        lemma_steps_inverse(opp, next, face, n, xi1 as usize, xi as usize);
        if xi == xj {
            lemma_walk_distinct(opp, next, face, n, f, (i - 1) as nat, (j - 1) as nat);
        }
    }
}

/// From a face half-edge whose twin lies on no face, the boundary search
/// finds a boundary half-edge within as many steps as there are
/// half-edges.
proof fn lemma_search_finds(opp: Seq<usize>, next: Seq<usize>, face: Seq<Option<usize>>, n: int, f: int)
    requires
        quad_links(opp, next, face, n),
        0 <= f < n,
        face[f] is Some,
        face[opp[f] as int] is None,
    ensures
        boundary_search(next, opp, face, f, n as nat) is Some,
{
    lemma_search_walk(opp, next, face, f, n as nat);
    if boundary_search(next, opp, face, f, n as nat) is None {
        let xs = Seq::new((n + 1) as nat, |i: int| back_iter(opp, next, f, i as nat));
        assert forall|l: nat| l < n + 1 implies face[#[trigger] back_iter(opp, next, f, l)] is Some by {
            if l == 0 {
            }
        }
        assert(xs.no_duplicates()) by {
            assert forall|i: int, j: int| 0 <= i < xs.len() && 0 <= j < xs.len() && i != j implies xs[i] != xs[j] by {
                if i < j {
                    lemma_walk_distinct(opp, next, face, n, f, i as nat, j as nat);
                } else {
                    lemma_walk_distinct(opp, next, face, n, f, j as nat, i as nat);
                }
            }
        }
        xs.unique_seq_to_set();
        assert forall|y: int| xs.to_set().contains(y) implies vstd::set_lib::set_int_range(0, n).contains(y) by {
            let i = choose|i: int| 0 <= i < xs.len() && xs[i] == y;
            lemma_back_iter_range(opp, next, face, n, f, i as nat);
        }
        vstd::set_lib::lemma_int_range(0, n);
        vstd::set_lib::lemma_len_subset(xs.to_set(), vstd::set_lib::set_int_range(0, n));
    }
}

/// In a mesh of quads, twins pair up and every face is a cycle of four
/// half-edges.
#[verifier::spinoff_prover]
proof fn lemma_quad_links(m: HalfEdgeTopology, faces: Seq<Vec<VertexKey>>)
    requires
        mesh_sizes_ok(m, faces),
        mesh_edges_ok(m, faces),
        forall|x: int| 0 <= x < m.num_half_edges && #[trigger] m.edge_face_indices@[x] is Some ==> m.edge_face_indices@[m.edge_next_indices@[x] as int] is Some
            && m.edge_next_indices@[m.edge_next_indices@[m.edge_next_indices@[m.edge_next_indices@[x] as int] as int] as int] == x,
    ensures
        quad_links(m.edge_opposite_indices@, m.edge_next_indices@, m.edge_face_indices@, m.num_half_edges as int),
{
    let nhe = m.num_half_edges as int;
    let opp = m.edge_opposite_indices@;
    let next = m.edge_next_indices@;
    let face = m.edge_face_indices@;
    assert forall|x: int| 0 <= x < nhe implies #[trigger] opp[x] < nhe && opp[opp[x] as int] == x by {
        assert(opp[x] == twin_slot(x));
        assert(opp[opp[x] as int] == twin_slot(opp[x] as int));
    }
    assert forall|x: int| 0 <= x < nhe implies #[trigger] next[x] < nhe by {
        assert(opp[x] == twin_slot(x));
    }
}

/// A face half-edge of a quad comes back to itself after four steps.
#[verifier::spinoff_prover]
#[verifier::rlimit(100)]
proof fn lemma_quad_cycle(m: HalfEdgeTopology, faces: Seq<Vec<VertexKey>>, x: int)
    requires
        mesh_faces_ok(m, faces),
        forall|f: int| 0 <= f < faces.len() ==> #[trigger] faces[f]@.len() == 4,
        0 <= x < m.num_half_edges,
        m.edge_face_indices@[x] is Some,
    ensures
        m.edge_face_indices@[m.edge_next_indices@[x] as int] is Some,
        m.edge_next_indices@[m.edge_next_indices@[m.edge_next_indices@[m.edge_next_indices@[x] as int] as int] as int] == x,
{
    let next = m.edge_next_indices@;
    let face = m.edge_face_indices@;
    let f = face[x]->0 as int;
    let k = choose|k: int| is_corner(faces, f, k) && #[trigger] face_half_edge(m, f, k) == x;
    assert(faces[f]@.len() == 4);
    assert(0 <= k < 4);
    let h0 = face_half_edge(m, f, 0);
    let h1 = face_half_edge(m, f, 1);
    let h2 = face_half_edge(m, f, 2);
    let h3 = face_half_edge(m, f, 3);
    assert(is_corner(faces, f, 0) && is_corner(faces, f, 1) && is_corner(faces, f, 2) && is_corner(faces, f, 3));
    assert(next[h0] as int == h1 && face[h1] == Some(f as usize));
    assert(next[h1] as int == h2 && face[h2] == Some(f as usize));
    assert(next[h2] as int == h3 && face[h3] == Some(f as usize));
    assert(next[h3] as int == h0 && face[h0] == Some(f as usize));
    if k == 0 {
        assert(x == h0);
    } else if k == 1 {
        assert(x == h1);
    } else if k == 2 {
        assert(x == h2);
    } else {
        assert(x == h3);
    }
}

/// One face half-edge `h` of a quad mesh: its successor starts where it
/// ends.
#[verifier::spinoff_prover]
#[verifier::rlimit(100)]
proof fn lemma_next_starts_one(m: HalfEdgeTopology, faces: Seq<Vec<VertexKey>>, nb: int, copy: Map<(int, int), int>, h: int)
    requires
        mesh_sizes_ok(m, faces),
        mesh_edges_ok(m, faces),
        mesh_vertices_ok(m, faces),
        mesh_faces_ok(m, faces),
        base_vertices_ok(m, faces, nb),
        mesh_split_by(m, faces, nb, copy),
        quad_links(m.edge_opposite_indices@, m.edge_next_indices@, m.edge_face_indices@, m.num_half_edges as int),
        forall|f: int| 0 <= f < faces.len() ==> #[trigger] faces[f]@.len() == 4,
        0 <= h < m.num_half_edges,
        m.edge_face_indices@[h] is Some,
    ensures
        origin(m, m.edge_next_indices@[h] as int) == m.edge_vertex_indices@[h],
{
    let nhe = m.num_half_edges as int;
    let opp = m.edge_opposite_indices@;
    let next = m.edge_next_indices@;
    let face = m.edge_face_indices@;
    let to1 = m.edge_vertex_indices@;
    let pre = ends_before_split(m, faces, nb);
    let a = opp[h];
    let x = next[h];
    let xo = opp[x as int];
    // The end of `h` and the start of `x` share a position, so they share
    // a vertex before the split.
    let f = face[h]->0 as int;
    let k = choose|k: int| is_corner(faces, f, k) && #[trigger] face_half_edge(m, f, k) == h;
    let k1 = (k + 1) % 4;
    assert(is_corner(faces, f, k1));
    assert(x as int == face_half_edge(m, f, k1));
    assert(vertex_key(m, faces, to1[h] as int) == faces[f]@[k1]);
    assert(vertex_key(m, faces, origin(m, x as int)) == faces[f]@[k1]);
    assert(has_base_vertex(m, faces, nb, f, k1));
    let w = choose|w: int| 0 <= w < nb && #[trigger] vertex_key(m, faces, w) == faces[f]@[k1];
    lemma_base_keys_all_distinct(m, faces, nb);
    let c1 = base_at(m, faces, nb, to1[h] as int);
    let c2 = base_at(m, faces, nb, to1[xo as int] as int);
    assert(0 <= w < nb && vertex_key(m, faces, w) == vertex_key(m, faces, to1[h] as int));
    assert(0 <= w < nb && vertex_key(m, faces, w) == vertex_key(m, faces, to1[xo as int] as int));
    assert(c1 == w);
    assert(c2 == w);
    assert(pre[h] == pre[xo as int]);
    let v = pre[h] as int;
    assert(0 <= v < nb);
    // Both the twin of `h` and `x` leave `v`, and one walk step links them.
    let s = leaving(pre, opp, opp.len() as int, v);
    lemma_leaving_finite(pre, opp, opp.len() as int, v);
    assert(opp[a as int] == h);
    assert(s.contains(a));
    assert(s.contains(x));
    assert(back_step(opp, next, face, x as int) == Some(a)) by {
        assert(face[x as int] is Some);
    }
    assert(closed_in(s, s, opp, next, face));
    lemma_fan_split_closed(opp, next, face, nhe, s, s, s.len());
    lemma_fan_split_groups(opp, next, face, s, s.len());
    let fans = vertex_fans(pre, opp, next, face, v);
    let g = choose|g: int| 0 <= g < fans.len() && #[trigger] fans[g].contains(x);
    let i = choose|i: int| 0 <= i < fans[g].len() && fans[g][i] == x;
    assert(fans[g].contains(a)) by {
        assert(fans[g][i] == x);
    }
    assert forall|g2: int| g < g2 < fans.len() implies !(#[trigger] fans[g2]).contains(x) && !fans[g2].contains(a) by {
        if fans[g2].contains(x) {
            let j = choose|j: int| 0 <= j < fans[g2].len() && fans[g2][j] == x;
            assert(fans[g][i] != fans[g2][j]);
        }
        if fans[g2].contains(a) {
            let j = choose|j: int| 0 <= j < fans[g2].len() && fans[g2][j] == a;
            let i2 = choose|i2: int| 0 <= i2 < fans[g].len() && fans[g][i2] == a;
            assert(fans[g][i2] != fans[g2][j]);
        }
    }
    lemma_last_group_at(fans, x, g, fans.len() as int);
    lemma_last_group_at(fans, a, g, fans.len() as int);
    reveal(mesh_split_by);
    assert(opp[xo as int] == x);
    assert(to1[h] == split_end(pre, opp, next, face, copy, h));
    assert(to1[xo as int] == split_end(pre, opp, next, face, copy, xo as int));
}

/// In a mesh of quads, each face half-edge's successor starts at the very
/// vertex where it ends, not only at the same position: splitting a
/// vertex never parts two half-edges that meet at a corner of a face.
pub proof fn lemma_next_starts_where_edge_ends(m: HalfEdgeTopology, faces: Seq<Vec<VertexKey>>)
    requires
        is_halfedge_mesh_of(m, faces),
        forall|f: int| 0 <= f < faces.len() ==> #[trigger] faces[f]@.len() == 4,
    ensures
        forall|h: int| 0 <= h < m.num_half_edges && #[trigger] m.edge_face_indices@[h] is Some
            ==> origin(m, m.edge_next_indices@[h] as int) == m.edge_vertex_indices@[h],
{
    let nb = choose|nb: int| base_vertices_ok(m, faces, nb) && exists|copy: Map<(int, int), int>| mesh_split_by(m, faces, nb, copy);
    let copy = choose|copy: Map<(int, int), int>| mesh_split_by(m, faces, nb, copy);
    assert forall|x: int| 0 <= x < m.num_half_edges && #[trigger] m.edge_face_indices@[x] is Some implies m.edge_face_indices@[m.edge_next_indices@[x] as int] is Some
        && m.edge_next_indices@[m.edge_next_indices@[m.edge_next_indices@[m.edge_next_indices@[x] as int] as int] as int] == x by {
        lemma_quad_cycle(m, faces, x);
    }
    lemma_quad_links(m, faces);
    assert forall|h: int| 0 <= h < m.num_half_edges && #[trigger] m.edge_face_indices@[h] is Some
        implies origin(m, m.edge_next_indices@[h] as int) == m.edge_vertex_indices@[h] by {
        lemma_next_starts_one(m, faces, nb, copy, h);
    }
}

/// Round a quad, the half-edge three steps on from face half-edge `x`
/// ends where `x` starts, and `x` ends elsewhere where the corners of its
/// face have distinct positions.
#[verifier::spinoff_prover]
#[verifier::rlimit(100)]
proof fn lemma_quad_corner_keys(m: HalfEdgeTopology, faces: Seq<Vec<VertexKey>>, x: int)
    requires
        mesh_faces_ok(m, faces),
        forall|f: int| 0 <= f < faces.len() ==> #[trigger] faces[f]@.len() == 4,
        0 <= x < m.num_half_edges,
        m.edge_face_indices@[x] is Some,
    ensures
        ({
            let next = m.edge_next_indices@;
            let p = next[next[next[x] as int] as int] as int;
            vertex_key(m, faces, m.edge_vertex_indices@[p] as int) == vertex_key(m, faces, origin(m, x))
        }),
        (forall|f: int, k1: int, k2: int| 0 <= f < faces.len() && 0 <= k1 < k2 < 4 ==> #[trigger] faces[f]@[k1] != #[trigger] faces[f]@[k2])
            ==> vertex_key(m, faces, m.edge_vertex_indices@[x] as int) != vertex_key(m, faces, origin(m, x)),
{
    let next = m.edge_next_indices@;
    let face = m.edge_face_indices@;
    let f = face[x]->0 as int;
    let k = choose|k: int| is_corner(faces, f, k) && #[trigger] face_half_edge(m, f, k) == x;
    assert(faces[f]@.len() == 4);
    assert(0 <= k < 4);
    let h0 = face_half_edge(m, f, 0);
    let h1 = face_half_edge(m, f, 1);
    let h2 = face_half_edge(m, f, 2);
    let h3 = face_half_edge(m, f, 3);
    assert(is_corner(faces, f, 0) && is_corner(faces, f, 1) && is_corner(faces, f, 2) && is_corner(faces, f, 3));
    assert(next[h0] as int == h1 && next[h1] as int == h2 && next[h2] as int == h3 && next[h3] as int == h0);
    assert(vertex_key(m, faces, m.edge_vertex_indices@[h0] as int) == faces[f]@[1] && vertex_key(m, faces, origin(m, h0)) == faces[f]@[0]);
    assert(vertex_key(m, faces, m.edge_vertex_indices@[h1] as int) == faces[f]@[2] && vertex_key(m, faces, origin(m, h1)) == faces[f]@[1]);
    assert(vertex_key(m, faces, m.edge_vertex_indices@[h2] as int) == faces[f]@[3] && vertex_key(m, faces, origin(m, h2)) == faces[f]@[2]);
    assert(vertex_key(m, faces, m.edge_vertex_indices@[h3] as int) == faces[f]@[0] && vertex_key(m, faces, origin(m, h3)) == faces[f]@[3]);
    if k == 0 {
        assert(x == h0);
    } else if k == 1 {
        assert(x == h1);
    } else if k == 2 {
        assert(x == h2);
    } else {
        assert(x == h3);
    }
}

/// Two vertices at one position have the same base vertex before the
/// split.
proof fn lemma_base_at_same(m: HalfEdgeTopology, faces: Seq<Vec<VertexKey>>, nb: int, a: int, b: int)
    requires
        forall|v: int, u: int| 0 <= v < nb && 0 <= u < nb && v != u ==> #[trigger] vertex_key(m, faces, v) != #[trigger] vertex_key(m, faces, u),
        exists|w: int| 0 <= w < nb && #[trigger] vertex_key(m, faces, w) == vertex_key(m, faces, a),
        vertex_key(m, faces, a) == vertex_key(m, faces, b),
    ensures
        base_at(m, faces, nb, a) == base_at(m, faces, nb, b),
        0 <= base_at(m, faces, nb, a) < nb,
        vertex_key(m, faces, base_at(m, faces, nb, a)) == vertex_key(m, faces, a),
{
    let w = choose|w: int| 0 <= w < nb && #[trigger] vertex_key(m, faces, w) == vertex_key(m, faces, a);
    assert(0 <= w < nb && vertex_key(m, faces, w) == vertex_key(m, faces, b));
    let c1 = base_at(m, faces, nb, a);
    let c2 = base_at(m, faces, nb, b);
    assert(c1 == w);
    assert(c2 == w);
}

/// Every vertex of the mesh sits at the position of one of the first
/// `nb`.
proof fn lemma_has_base(m: HalfEdgeTopology, faces: Seq<Vec<VertexKey>>, nb: int, v: int)
    requires
        mesh_vertices_ok(m, faces),
        base_vertices_ok(m, faces, nb),
        0 <= v < m.num_vertices,
    ensures
        exists|w: int| 0 <= w < nb && #[trigger] vertex_key(m, faces, w) == vertex_key(m, faces, v),
{
    let s = m.vertex_sources@[v];
    assert(m.vertex_data_indices@[v] == v);
    assert(is_corner(faces, s.0 as int, s.1 as int));
    assert(has_base_vertex(m, faces, nb, s.0 as int, s.1 as int));
}

/// Along the walk one way from `f`, as long as it meets face half-edges,
/// every half-edge leaves the vertex that `f` left before the split, and
/// lies in the same fan group round it as `f`.
#[verifier::spinoff_prover]
#[verifier::rlimit(100)]
proof fn lemma_walk_in_fan(m: HalfEdgeTopology, faces: Seq<Vec<VertexKey>>, nb: int, f: int, j: nat)
    requires
        mesh_sizes_ok(m, faces),
        mesh_edges_ok(m, faces),
        mesh_vertices_ok(m, faces),
        mesh_faces_ok(m, faces),
        base_vertices_ok(m, faces, nb),
        quad_links(m.edge_opposite_indices@, m.edge_next_indices@, m.edge_face_indices@, m.num_half_edges as int),
        forall|g: int| 0 <= g < faces.len() ==> #[trigger] faces[g]@.len() == 4,
        forall|v: int, u: int| 0 <= v < nb && 0 <= u < nb && v != u ==> #[trigger] vertex_key(m, faces, v) != #[trigger] vertex_key(m, faces, u),
        0 <= f < m.num_half_edges,
        forall|l: nat| l < j ==> m.edge_face_indices@[#[trigger] back_iter(m.edge_opposite_indices@, m.edge_next_indices@, f, l)] is Some,
    ensures
        ({
            let opp = m.edge_opposite_indices@;
            let next = m.edge_next_indices@;
            let face = m.edge_face_indices@;
            let pre = ends_before_split(m, faces, nb);
            let x = back_iter(opp, next, f, j);
            let v = pre[opp[f] as int] as int;
            let s = leaving(pre, opp, opp.len() as int, v);
            let gs = fan_split(opp, next, face, s, s.len());
            &&& pre[opp[x] as int] as int == v
            &&& group_index(gs, x as usize) == group_index(gs, f as usize)
        }),
    decreases j,
{
    let opp = m.edge_opposite_indices@;
    let next = m.edge_next_indices@;
    let face = m.edge_face_indices@;
    let n = m.num_half_edges as int;
    let pre = ends_before_split(m, faces, nb);
    let v = pre[opp[f] as int] as int;
    let s = leaving(pre, opp, opp.len() as int, v);
    let gs = fan_split(opp, next, face, s, s.len());
    lemma_back_iter_range(opp, next, face, n, f, j);
    if j > 0 {
        lemma_walk_in_fan(m, faces, nb, f, (j - 1) as nat);
        let y = back_iter(opp, next, f, (j - 1) as nat);
        let x = back_iter(opp, next, f, j);
        lemma_back_iter_range(opp, next, face, n, f, (j - 1) as nat);
        assert(face[y] is Some);
        let p = next[next[next[y] as int] as int] as int;
        assert(x == opp[p] as int);
        // `x` leaves where `y` left.
        lemma_quad_corner_keys(m, faces, y);
        assert(opp[x] as int == p);
        let to1 = m.edge_vertex_indices@;
        assert(0 <= p < n);
        assert(opp[y] < n);
        lemma_has_base(m, faces, nb, to1[opp[y] as int] as int);
        lemma_base_at_same(m, faces, nb, to1[opp[y] as int] as int, to1[p] as int);
        assert(pre[p] == pre[opp[y] as int]);
        // One step links them, so they share a fan group.
        lemma_leaving_finite(pre, opp, opp.len() as int, v);
        assert(s.contains(y as usize));
        assert(s.contains(x as usize));
        assert(back_step(opp, next, face, y) == Some(x as usize));
        assert(closed_in(s, s, opp, next, face));
        lemma_fan_split_closed(opp, next, face, n, s, s, s.len());
        lemma_group_index_holds(opp, next, face, s, y as usize);
        lemma_group_index_holds(opp, next, face, s, x as usize);
        let g = group_index(gs, y as usize);
        let i = choose|i: int| 0 <= i < gs[g].len() && gs[g][i] == y as usize;
        assert(gs[g].contains(x as usize));
    }
}

/// In a mesh of quads whose corners lie at distinct positions round each
/// quad, each boundary half-edge is followed by another boundary
/// half-edge that the search round its end vertex finds (never by itself),
/// and that half-edge starts at the very vertex where it ends.
#[verifier::spinoff_prover]
#[verifier::rlimit(100)]
proof fn lemma_boundary_next_one(m: HalfEdgeTopology, faces: Seq<Vec<VertexKey>>, nb: int, copy: Map<(int, int), int>, b: int)
    requires
        mesh_sizes_ok(m, faces),
        mesh_edges_ok(m, faces),
        mesh_vertices_ok(m, faces),
        mesh_faces_ok(m, faces),
        mesh_boundary_ok(m),
        base_vertices_ok(m, faces, nb),
        mesh_split_by(m, faces, nb, copy),
        quad_links(m.edge_opposite_indices@, m.edge_next_indices@, m.edge_face_indices@, m.num_half_edges as int),
        forall|g: int| 0 <= g < faces.len() ==> #[trigger] faces[g]@.len() == 4,
        forall|g: int, k1: int, k2: int| 0 <= g < faces.len() && 0 <= k1 < k2 < 4 ==> #[trigger] faces[g]@[k1] != #[trigger] faces[g]@[k2],
        0 <= b < m.num_half_edges,
        m.edge_face_indices@[b] is None,
    ensures
        m.edge_next_indices@[b] != b,
        origin(m, m.edge_next_indices@[b] as int) == m.edge_vertex_indices@[b],
{
    let opp = m.edge_opposite_indices@;
    let next = m.edge_next_indices@;
    let face = m.edge_face_indices@;
    let to1 = m.edge_vertex_indices@;
    let n = m.num_half_edges as int;
    let pre = ends_before_split(m, faces, nb);
    lemma_base_keys_all_distinct(m, faces, nb);
    assert(opp[b] == twin_slot(b));
    let f0 = opp[b] as int;
    assert(face[f0] is Some);
    assert(opp[f0] == b);
    lemma_search_finds(opp, next, face, n, f0);
    lemma_search_walk(opp, next, face, f0, n as nat);
    let t = boundary_search(next, opp, face, f0, n as nat)->0;
    assert(next[b] as int == t);
    let i = choose|i: nat| 1 <= i <= n && #[trigger] back_iter(opp, next, f0, i) == t && face[t] is None
        && forall|j: nat| 1 <= j < i ==> face[#[trigger] back_iter(opp, next, f0, j)] is Some;
    assert forall|l: nat| l < i implies face[#[trigger] back_iter(opp, next, f0, l)] is Some by {
        if l == 0 {
        }
    }
    lemma_walk_in_fan(m, faces, nb, f0, i);
    lemma_walk_in_fan(m, faces, nb, f0, 0);
    lemma_back_iter_range(opp, next, face, n, f0, i);
    let v = pre[b] as int;
    assert(pre[opp[f0] as int] as int == v);
    let s = leaving(pre, opp, opp.len() as int, v);
    let gs = fan_split(opp, next, face, s, s.len());
    reveal(mesh_split_by);
    assert(opp[opp[t] as int] == t);
    assert(to1[opp[t] as int] == split_end(pre, opp, next, face, copy, opp[t] as int));
    assert(to1[b] == split_end(pre, opp, next, face, copy, b));
    // The search does not come back to `b`: `b` leaves the other end of
    // its twin's edge.
    if t == b {
        lemma_quad_corner_keys(m, faces, f0);
        lemma_has_base(m, faces, nb, to1[f0] as int);
        lemma_has_base(m, faces, nb, to1[b] as int);
        lemma_base_at_same(m, faces, nb, to1[f0] as int, to1[f0] as int);
        lemma_base_at_same(m, faces, nb, to1[b] as int, to1[b] as int);
        assert(pre[f0] == pre[b]);
        assert(false);
    }
}

/// In a mesh of quads whose corners lie at distinct positions round each
/// quad, each boundary half-edge is followed by another one (never by
/// itself), which starts at the very vertex where it ends.
pub proof fn lemma_boundary_next_starts_where_edge_ends(m: HalfEdgeTopology, faces: Seq<Vec<VertexKey>>)
    requires
        is_halfedge_mesh_of(m, faces),
        forall|f: int| 0 <= f < faces.len() ==> #[trigger] faces[f]@.len() == 4,
        forall|f: int, k1: int, k2: int| 0 <= f < faces.len() && 0 <= k1 < k2 < 4 ==> #[trigger] faces[f]@[k1] != #[trigger] faces[f]@[k2],
    ensures
        forall|b: int| 0 <= b < m.num_half_edges && #[trigger] m.edge_face_indices@[b] is None ==> {
            &&& m.edge_next_indices@[b] != b
            &&& m.edge_face_indices@[m.edge_next_indices@[b] as int] is None
            &&& origin(m, m.edge_next_indices@[b] as int) == m.edge_vertex_indices@[b]
        },
{
    let nb = choose|nb: int| base_vertices_ok(m, faces, nb) && exists|copy: Map<(int, int), int>| mesh_split_by(m, faces, nb, copy);
    let copy = choose|copy: Map<(int, int), int>| mesh_split_by(m, faces, nb, copy);
    assert forall|x: int| 0 <= x < m.num_half_edges && #[trigger] m.edge_face_indices@[x] is Some implies m.edge_face_indices@[m.edge_next_indices@[x] as int] is Some
        && m.edge_next_indices@[m.edge_next_indices@[m.edge_next_indices@[m.edge_next_indices@[x] as int] as int] as int] == x by {
        lemma_quad_cycle(m, faces, x);
    }
    lemma_quad_links(m, faces);
    assert forall|b: int| 0 <= b < m.num_half_edges && #[trigger] m.edge_face_indices@[b] is None implies {
        &&& m.edge_next_indices@[b] != b
        &&& m.edge_face_indices@[m.edge_next_indices@[b] as int] is None
        &&& origin(m, m.edge_next_indices@[b] as int) == m.edge_vertex_indices@[b]
    } by {
        lemma_boundary_next_one(m, faces, nb, copy, b);
    }
}

/// Twins pair up: the twin of a half-edge is another half-edge whose
/// twin is the first, and both belong to the same geometric edge.
pub proof fn lemma_twin_involution(m: HalfEdgeTopology, faces: Seq<Vec<VertexKey>>)
    requires
        is_halfedge_mesh_of(m, faces),
    ensures
        forall|h: int|
            0 <= h < m.num_half_edges ==> {
                let t = #[trigger] m.edge_opposite_indices@[h] as int;
                &&& 0 <= t < m.num_half_edges
                &&& t != h
                &&& m.edge_opposite_indices@[t] == h
                &&& m.edge_data_indices@[t] == m.edge_data_indices@[h]
            },
{
    lemma_twins_of_edges(m, faces);
}

/// Half-edges are stored as consecutive twin pairs: there are twice as
/// many half-edges as geometric edges, every per-half-edge array has one
/// entry per half-edge, and half-edge `h` has twin `h ^ 1` and geometric
/// edge `h / 2`.
pub proof fn lemma_twin_pairs(m: HalfEdgeTopology, faces: Seq<Vec<VertexKey>>)
    requires
        is_halfedge_mesh_of(m, faces),
    ensures
        m.num_half_edges == 2 * m.num_geometric_edges,
        m.edge_vertex_indices@.len() == m.num_half_edges,
        m.edge_opposite_indices@.len() == m.num_half_edges,
        m.edge_next_indices@.len() == m.num_half_edges,
        m.edge_face_indices@.len() == m.num_half_edges,
        m.edge_data_indices@.len() == m.num_half_edges,
        m.edge_vertex_data_indices@.len() == m.num_half_edges,
        forall|h: usize| h < m.num_half_edges ==> #[trigger] m.edge_opposite_indices@[h as int] == h ^ 1usize
            && m.edge_data_indices@[h as int] == h / 2,
{
    assert forall|h: usize| h < m.num_half_edges implies #[trigger] m.edge_opposite_indices@[h as int] == h ^ 1usize
        && m.edge_data_indices@[h as int] == h / 2 by {
        assert(m.edge_opposite_indices@[h as int] == twin_slot(h as int));
        assert(h % 2 == 0 ==> h ^ 1usize == h + 1) by (bit_vector);
        assert(h % 2 == 1 ==> h ^ 1usize == h - 1) by (bit_vector);
    }
}

/// In a mesh of quads whose corners lie at distinct positions round each
/// quad, every half-edge's successor starts at the vertex where it ends
/// and is another half-edge, and boundary half-edges are followed by
/// boundary half-edges, so the boundary is made of closed loops.
pub proof fn lemma_quad_mesh_links(m: HalfEdgeTopology, faces: Seq<Vec<VertexKey>>)
    requires
        is_halfedge_mesh_of(m, faces),
        forall|f: int| 0 <= f < faces.len() ==> #[trigger] faces[f]@.len() == 4,
        forall|f: int, k1: int, k2: int| 0 <= f < faces.len() && 0 <= k1 < k2 < 4 ==> #[trigger] faces[f]@[k1] != #[trigger] faces[f]@[k2],
    ensures
        forall|h: int| 0 <= h < m.num_half_edges ==> {
            &&& origin(m, #[trigger] m.edge_next_indices@[h] as int) == m.edge_vertex_indices@[h]
            &&& m.edge_next_indices@[h] != h
            &&& m.edge_face_indices@[h] is None ==> m.edge_face_indices@[m.edge_next_indices@[h] as int] is None
        },
{
    lemma_next_starts_where_edge_ends(m, faces);
    lemma_boundary_next_starts_where_edge_ends(m, faces);
    assert forall|h: int| 0 <= h < m.num_half_edges implies {
        &&& origin(m, #[trigger] m.edge_next_indices@[h] as int) == m.edge_vertex_indices@[h]
        &&& m.edge_next_indices@[h] != h
        &&& m.edge_face_indices@[h] is None ==> m.edge_face_indices@[m.edge_next_indices@[h] as int] is None
    } by {
        if m.edge_face_indices@[h] is Some {
            assert(origin(m, m.edge_next_indices@[h] as int) == m.edge_vertex_indices@[h]);
            lemma_quad_corner_keys(m, faces, h);
        }
    }
}

/// Every flat corner index below the offset of face `n` names a corner
/// of an earlier face.
proof fn lemma_flat_corner(fs: Seq<Vec<VertexKey>>, p: int, n: int) -> (c: (int, int))
    requires
        0 <= n <= fs.len(),
        0 <= p < corner_offset(fs, n),
    ensures
        is_corner(fs, c.0, c.1),
        c.0 < n,
        corner_offset(fs, c.0) + c.1 == p,
    decreases n,
{
    if p >= corner_offset(fs, n - 1) {
        (n - 1, p - corner_offset(fs, n - 1))
    } else {
        lemma_flat_corner(fs, p, n - 1)
    }
}

/// In faces of four corners each, there are four corners per face.
proof fn lemma_quad_corners(fs: Seq<Vec<VertexKey>>, n: int)
    requires
        0 <= n <= fs.len(),
        forall|f: int| 0 <= f < fs.len() ==> #[trigger] fs[f]@.len() == 4,
    ensures
        corner_offset(fs, n) == 4 * n,
    decreases n,
{
    if n > 0 {
        lemma_quad_corners(fs, n - 1);
    }
}

/// The half-edges that lie on a face.
pub open spec fn face_half_edges(m: HalfEdgeTopology) -> Set<int> {
    Set::new(|h: int| 0 <= h < m.num_half_edges && m.edge_face_indices@[h] is Some)
}

/// There is one face half-edge per corner: as many half-edges lie on a
/// face as the faces have corners, four per quad in a mesh of quads.
pub proof fn lemma_face_half_edge_count(m: HalfEdgeTopology, faces: Seq<Vec<VertexKey>>)
    requires
        is_halfedge_mesh_of(m, faces),
    ensures
        face_half_edges(m).finite(),
        face_half_edges(m).len() == total_corners(faces),
        (forall|f: int| 0 <= f < faces.len() ==> #[trigger] faces[f]@.len() == 4) ==> face_half_edges(m).len() == 4 * faces.len(),
{
    let kp = key_partner(faces);
    let total = total_corners(faces);
    lemma_offset_nonneg(faces, faces.len() as int);
    let xs = Seq::new(total as nat, |p: int| slot_of(kp, p));
    assert(xs.no_duplicates()) by {
        assert forall|p: int, q: int| 0 <= p < xs.len() && 0 <= q < xs.len() && p != q implies xs[p] != xs[q] by {
            let c = lemma_flat_corner(faces, p, faces.len() as int);
            let d = lemma_flat_corner(faces, q, faces.len() as int);
            assert(xs[p] == face_half_edge(m, c.0, c.1));
            assert(xs[q] == face_half_edge(m, d.0, d.1));
            assert(c.0 != d.0 || c.1 != d.1);
        }
    }
    xs.unique_seq_to_set();
    assert(xs.to_set() =~= face_half_edges(m)) by {
        assert forall|h: int| xs.to_set().contains(h) implies face_half_edges(m).contains(h) by {
            let p = choose|p: int| 0 <= p < xs.len() && xs[p] == h;
            let c = lemma_flat_corner(faces, p, faces.len() as int);
            assert(xs[p] == face_half_edge(m, c.0, c.1));
        }
        assert forall|h: int| face_half_edges(m).contains(h) implies xs.to_set().contains(h) by {
            let f = m.edge_face_indices@[h]->0 as int;
            let k = choose|k: int| is_corner(faces, f, k) && #[trigger] face_half_edge(m, f, k) == h;
            let p = corner_offset(faces, f) + k;
            lemma_offset_nonneg(faces, f);
            lemma_offset_mono(faces, f + 1, faces.len() as int);
            assert(0 <= p < total);
            let c = lemma_flat_corner(faces, p, faces.len() as int);
            lemma_corner_flat_unique(faces, c.0, c.1, f, k);
            assert(xs[p] == h);
        }
    }
    if forall|f: int| 0 <= f < faces.len() ==> #[trigger] faces[f]@.len() == 4 {
        lemma_quad_corners(faces, faces.len() as int);
    }
}

/// The undirected edge of corner `(f, k)`: the positions of the corner
/// and of the next one round its face.
pub open spec fn corner_edge(faces: Seq<Vec<VertexKey>>, f: int, k: int) -> Set<VertexKey> {
    set![faces[f]@[k], faces[f]@[(k + 1) % (faces[f]@.len() as int)]]
}

/// The distinct undirected edges of the faces.
pub open spec fn face_edge_set(faces: Seq<Vec<VertexKey>>) -> Set<Set<VertexKey>> {
    Set::new(|e: Set<VertexKey>| exists|f: int, k: int| is_corner(faces, f, k) && #[trigger] corner_edge(faces, f, k) == e)
}

/// Any two corners along the same undirected edge run along it in
/// opposite directions (so at most two faces share an edge).
pub open spec fn edges_manifold(faces: Seq<Vec<VertexKey>>) -> bool {
    forall|f1: int, k1: int, f2: int, k2: int|
        is_corner(faces, f1, k1) && is_corner(faces, f2, k2) && (f1 != f2 || k1 != k2) && #[trigger] corner_edge(faces, f1, k1)
            == #[trigger] corner_edge(faces, f2, k2) ==> faces[f1]@[k1] == faces[f2]@[(k2 + 1) % (faces[f2]@.len() as int)]
}

/// The undirected edge of half-edge `h`, by the positions at its ends.
pub open spec fn half_edge_keys(m: HalfEdgeTopology, faces: Seq<Vec<VertexKey>>, h: int) -> Set<VertexKey> {
    set![vertex_key(m, faces, origin(m, h)), vertex_key(m, faces, m.edge_vertex_indices@[h] as int)]
}

/// A face half-edge's corner and the positions at its ends.
#[verifier::spinoff_prover]
proof fn lemma_face_half_edge_corner(m: HalfEdgeTopology, faces: Seq<Vec<VertexKey>>, h: int) -> (c: (int, int))
    requires
        mesh_faces_ok(m, faces),
        forall|f: int| 0 <= f < faces.len() ==> #[trigger] faces[f]@.len() == 4,
        forall|f: int, k1: int, k2: int| 0 <= f < faces.len() && 0 <= k1 < k2 < 4 ==> #[trigger] faces[f]@[k1] != #[trigger] faces[f]@[k2],
        0 <= h < m.num_half_edges,
        m.edge_face_indices@[h] is Some,
    ensures
        is_corner(faces, c.0, c.1),
        face_half_edge(m, c.0, c.1) == h,
        vertex_key(m, faces, origin(m, h)) == faces[c.0]@[c.1],
        vertex_key(m, faces, m.edge_vertex_indices@[h] as int) == faces[c.0]@[(c.1 + 1) % 4],
        faces[c.0]@[c.1] != faces[c.0]@[(c.1 + 1) % 4],
        half_edge_keys(m, faces, h) == corner_edge(faces, c.0, c.1),
{
    let f = m.edge_face_indices@[h]->0 as int;
    let k = choose|k: int| is_corner(faces, f, k) && #[trigger] face_half_edge(m, f, k) == h;
    assert(faces[f]@.len() == 4);
    let k1 = (k + 1) % 4;
    if k < k1 {
        assert(faces[f]@[k] != faces[f]@[k1]);
    } else {
        assert(faces[f]@[k1] != faces[f]@[k]);
    }
    assert(half_edge_keys(m, faces, h) =~= corner_edge(faces, f, k));
    (f, k)
}

/// The corner whose face half-edge `h` is.
pub open spec fn corner_of(m: HalfEdgeTopology, faces: Seq<Vec<VertexKey>>, h: int) -> (int, int) {
    choose|c: (int, int)| is_corner(faces, c.0, c.1) && face_half_edge(m, c.0, c.1) == h
}

/// Each face half-edge of a mesh of quads has a corner, runs between the
/// positions of that corner and the next, which differ, and no two face
/// half-edges share a corner.
pub open spec fn corner_facts(m: HalfEdgeTopology, faces: Seq<Vec<VertexKey>>) -> bool {
    &&& forall|h: int|
        0 <= h < m.num_half_edges && m.edge_face_indices@[h] is Some ==> {
            let c = #[trigger] corner_of(m, faces, h);
            &&& is_corner(faces, c.0, c.1)
            &&& face_half_edge(m, c.0, c.1) == h
            &&& half_edge_keys(m, faces, h) == corner_edge(faces, c.0, c.1)
            &&& vertex_key(m, faces, origin(m, h)) == faces[c.0]@[c.1]
            &&& vertex_key(m, faces, m.edge_vertex_indices@[h] as int) == faces[c.0]@[(c.1 + 1) % 4]
            &&& faces[c.0]@[c.1] != faces[c.0]@[(c.1 + 1) % 4]
        }
}

/// The corner facts of one face half-edge.
proof fn lemma_corner_fact(m: HalfEdgeTopology, faces: Seq<Vec<VertexKey>>, h: int)
    requires
        mesh_faces_ok(m, faces),
        forall|f: int| 0 <= f < faces.len() ==> #[trigger] faces[f]@.len() == 4,
        forall|f: int, k1: int, k2: int| 0 <= f < faces.len() && 0 <= k1 < k2 < 4 ==> #[trigger] faces[f]@[k1] != #[trigger] faces[f]@[k2],
        0 <= h < m.num_half_edges,
        m.edge_face_indices@[h] is Some,
    ensures
        ({
            let c = corner_of(m, faces, h);
            &&& is_corner(faces, c.0, c.1)
            &&& face_half_edge(m, c.0, c.1) == h
            &&& half_edge_keys(m, faces, h) == corner_edge(faces, c.0, c.1)
            &&& vertex_key(m, faces, origin(m, h)) == faces[c.0]@[c.1]
            &&& vertex_key(m, faces, m.edge_vertex_indices@[h] as int) == faces[c.0]@[(c.1 + 1) % 4]
            &&& faces[c.0]@[c.1] != faces[c.0]@[(c.1 + 1) % 4]
        }),
{
    let c = lemma_face_half_edge_corner(m, faces, h);
    let c2 = corner_of(m, faces, h);
    assert(is_corner(faces, c2.0, c2.1) && face_half_edge(m, c2.0, c2.1) == h);
    if c2.0 != c.0 || c2.1 != c.1 {
        assert(face_half_edge(m, c2.0, c2.1) != face_half_edge(m, c.0, c.1));
    }
}

/// The corner facts of all face half-edges.
proof fn lemma_corner_facts(m: HalfEdgeTopology, faces: Seq<Vec<VertexKey>>)
    requires
        mesh_faces_ok(m, faces),
        forall|f: int| 0 <= f < faces.len() ==> #[trigger] faces[f]@.len() == 4,
        forall|f: int, k1: int, k2: int| 0 <= f < faces.len() && 0 <= k1 < k2 < 4 ==> #[trigger] faces[f]@[k1] != #[trigger] faces[f]@[k2],
    ensures
        corner_facts(m, faces),
{
    assert forall|h: int| 0 <= h < m.num_half_edges && m.edge_face_indices@[h] is Some implies {
        let c = #[trigger] corner_of(m, faces, h);
        &&& is_corner(faces, c.0, c.1)
        &&& face_half_edge(m, c.0, c.1) == h
        &&& half_edge_keys(m, faces, h) == corner_edge(faces, c.0, c.1)
        &&& vertex_key(m, faces, origin(m, h)) == faces[c.0]@[c.1]
        &&& vertex_key(m, faces, m.edge_vertex_indices@[h] as int) == faces[c.0]@[(c.1 + 1) % 4]
        &&& faces[c.0]@[c.1] != faces[c.0]@[(c.1 + 1) % 4]
    } by {
        lemma_corner_fact(m, faces, h);
    }
}

/// Two geometric edges of a mesh of manifold quads lie along different
/// undirected edges.
#[verifier::spinoff_prover]
#[verifier::rlimit(100)]
proof fn lemma_pairs_distinct(m: HalfEdgeTopology, faces: Seq<Vec<VertexKey>>, a: int, b: int)
    requires
        corner_facts(m, faces),
        forall|f: int| 0 <= f < faces.len() ==> #[trigger] faces[f]@.len() == 4,
        m.edge_opposite_indices@.len() == m.num_half_edges,
        m.edge_face_indices@.len() == m.num_half_edges,
        forall|h: int| 0 <= h < m.num_half_edges ==> #[trigger] m.edge_opposite_indices@[h] == twin_slot(h),
        forall|h: int| 0 <= h < m.num_half_edges && #[trigger] m.edge_face_indices@[h] is None ==> h % 2 == 1,
        mesh_pairing_maximal(m, faces),
        edges_manifold(faces),
        m.num_half_edges % 2 == 0,
        0 <= a < m.num_half_edges,
        0 <= b < m.num_half_edges,
        a % 2 == 0,
        b % 2 == 0,
        a != b,
    ensures
        half_edge_keys(m, faces, a) != half_edge_keys(m, faces, b),
{
    let opp = m.edge_opposite_indices@;
    let face = m.edge_face_indices@;
    let to1 = m.edge_vertex_indices@;
    assert(face[a] is Some);
    assert(face[b] is Some);
    let ca = corner_of(m, faces, a);
    let cb = corner_of(m, faces, b);
    let sa = faces[ca.0]@[ca.1];
    let ea = faces[ca.0]@[(ca.1 + 1) % 4];
    let sb = faces[cb.0]@[cb.1];
    let eb = faces[cb.0]@[(cb.1 + 1) % 4];
    assert(faces[ca.0]@.len() == 4 && faces[cb.0]@.len() == 4);
    if half_edge_keys(m, faces, a) == half_edge_keys(m, faces, b) {
        assert(ca != cb);
        assert(corner_edge(faces, ca.0, ca.1) == corner_edge(faces, cb.0, cb.1));
        assert(sa == eb);
        assert(corner_edge(faces, ca.0, ca.1).contains(ea));
        assert(sb == ea);
        let ta = a + 1;
        let tb = b + 1;
        assert(opp[a] == twin_slot(a));
        assert(opp[b] == twin_slot(b));
        assert(opp[ta] == twin_slot(ta));
        assert(opp[tb] == twin_slot(tb));
        if face[ta] is Some {
            let cc = corner_of(m, faces, ta);
            assert(half_edge_keys(m, faces, ta) =~= half_edge_keys(m, faces, a));
            assert(cc != cb);
            assert(corner_edge(faces, cc.0, cc.1) == corner_edge(faces, cb.0, cb.1));
            assert(faces[cc.0]@[cc.1] == eb);
            assert(faces[cc.0]@[cc.1] == vertex_key(m, faces, origin(m, ta)));
        } else if face[tb] is Some {
            let cd = corner_of(m, faces, tb);
            assert(half_edge_keys(m, faces, tb) =~= half_edge_keys(m, faces, b));
            assert(cd != ca);
            assert(corner_edge(faces, cd.0, cd.1) == corner_edge(faces, ca.0, ca.1));
            assert(faces[cd.0]@[cd.1] == ea);
            assert(faces[cd.0]@[cd.1] == vertex_key(m, faces, origin(m, tb)));
        } else {
            assert(face[twin_slot(a)] is None);
            assert(face[twin_slot(b)] is None);
        }
    }
}

/// Each corner's undirected edge is that of some geometric edge.
#[verifier::spinoff_prover]
#[verifier::rlimit(100)]
proof fn lemma_corner_edge_listed(m: HalfEdgeTopology, faces: Seq<Vec<VertexKey>>, f: int, k: int) -> (i: int)
    requires
        corner_facts(m, faces),
        m.num_half_edges == 2 * m.num_geometric_edges,
        m.edge_opposite_indices@.len() == m.num_half_edges,
        forall|h: int| 0 <= h < m.num_half_edges ==> #[trigger] m.edge_opposite_indices@[h] == twin_slot(h),
        forall|g: int, j: int| is_corner(faces, g, j) ==> {
            let h = #[trigger] face_half_edge(m, g, j);
            0 <= h < m.num_half_edges && m.edge_face_indices@[h] == Some(g as usize)
        },
        forall|f1: int, k1: int, f2: int, k2: int|
            is_corner(faces, f1, k1) && is_corner(faces, f2, k2) && (f1 != f2 || k1 != k2)
                ==> #[trigger] face_half_edge(m, f1, k1) != #[trigger] face_half_edge(m, f2, k2),
        is_corner(faces, f, k),
    ensures
        0 <= i < m.num_geometric_edges,
        half_edge_keys(m, faces, 2 * i) == corner_edge(faces, f, k),
{
    let h = face_half_edge(m, f, k);
    assert(0 <= h < m.num_half_edges && m.edge_face_indices@[h] == Some(f as usize));
    let c = corner_of(m, faces, h);
    if c.0 != f || c.1 != k {
        assert(face_half_edge(m, c.0, c.1) != face_half_edge(m, f, k));
    }
    if h % 2 == 0 {
        h / 2
    } else {
        let t = h - 1;
        assert(m.edge_opposite_indices@[h] == twin_slot(h));
        assert(m.edge_opposite_indices@[t] == twin_slot(t));
        assert(half_edge_keys(m, faces, t) =~= half_edge_keys(m, faces, h));
        t / 2
    }
}

/// In a mesh of quads with distinct corner positions round each quad, where
/// any two corners along one undirected edge run along it in opposite
/// directions, there is one geometric edge per distinct undirected edge
/// of the quads.
#[verifier::spinoff_prover]
#[verifier::rlimit(100)]
pub proof fn lemma_geometric_edge_count(m: HalfEdgeTopology, faces: Seq<Vec<VertexKey>>)
    requires
        is_halfedge_mesh_of(m, faces),
        forall|f: int| 0 <= f < faces.len() ==> #[trigger] faces[f]@.len() == 4,
        forall|f: int, k1: int, k2: int| 0 <= f < faces.len() && 0 <= k1 < k2 < 4 ==> #[trigger] faces[f]@[k1] != #[trigger] faces[f]@[k2],
        edges_manifold(faces),
    ensures
        face_edge_set(faces).finite(),
        m.num_geometric_edges == face_edge_set(faces).len(),
{
    lemma_corner_facts(m, faces);
    assert forall|h: int| 0 <= h < m.num_half_edges implies #[trigger] m.edge_opposite_indices@[h] == twin_slot(h) by {}
    assert forall|g: int, j: int| is_corner(faces, g, j) implies {
        let h = #[trigger] face_half_edge(m, g, j);
        0 <= h < m.num_half_edges && m.edge_face_indices@[h] == Some(g as usize)
    } by {}
    lemma_geometric_edge_count_core(m, faces);
}

/// The count of geometric edges, from the facts it rests on.
#[verifier::spinoff_prover]
#[verifier::rlimit(100)]
proof fn lemma_geometric_edge_count_core(m: HalfEdgeTopology, faces: Seq<Vec<VertexKey>>)
    requires
        corner_facts(m, faces),
        forall|f: int| 0 <= f < faces.len() ==> #[trigger] faces[f]@.len() == 4,
        mesh_pairing_maximal(m, faces),
        edges_manifold(faces),
        m.num_half_edges == 2 * m.num_geometric_edges,
        m.edge_opposite_indices@.len() == m.num_half_edges,
        m.edge_face_indices@.len() == m.num_half_edges,
        forall|h: int| 0 <= h < m.num_half_edges ==> #[trigger] m.edge_opposite_indices@[h] == twin_slot(h),
        forall|h: int| 0 <= h < m.num_half_edges && #[trigger] m.edge_face_indices@[h] is None ==> h % 2 == 1,
        forall|g: int, j: int| is_corner(faces, g, j) ==> {
            let h = #[trigger] face_half_edge(m, g, j);
            0 <= h < m.num_half_edges && m.edge_face_indices@[h] == Some(g as usize)
        },
        forall|f1: int, k1: int, f2: int, k2: int|
            is_corner(faces, f1, k1) && is_corner(faces, f2, k2) && (f1 != f2 || k1 != k2)
                ==> #[trigger] face_half_edge(m, f1, k1) != #[trigger] face_half_edge(m, f2, k2),
    ensures
        face_edge_set(faces).finite(),
        m.num_geometric_edges == face_edge_set(faces).len(),
{
    let ng = m.num_geometric_edges as int;
    let xs = Seq::new(ng as nat, |i: int| half_edge_keys(m, faces, 2 * i));
    assert(xs.no_duplicates()) by {
        assert forall|i: int, j: int| 0 <= i < xs.len() && 0 <= j < xs.len() && i != j implies xs[i] != xs[j] by {
            lemma_pairs_distinct(m, faces, 2 * i, 2 * j);
        }
    }
    xs.unique_seq_to_set();
    assert(xs.to_set() =~= face_edge_set(faces)) by {
        assert forall|e: Set<VertexKey>| xs.to_set().contains(e) implies face_edge_set(faces).contains(e) by {
            let i = choose|i: int| 0 <= i < xs.len() && xs[i] == e;
            assert(m.edge_face_indices@[2 * i] is Some);
            let c = corner_of(m, faces, 2 * i);
            assert(is_corner(faces, c.0, c.1) && corner_edge(faces, c.0, c.1) == e);
        }
        assert forall|e: Set<VertexKey>| face_edge_set(faces).contains(e) implies xs.to_set().contains(e) by {
            let (f, k) = choose|f: int, k: int| is_corner(faces, f, k) && #[trigger] corner_edge(faces, f, k) == e;
            let i = lemma_corner_edge_listed(m, faces, f, k);
            assert(xs[i] == e);
        }
    }
}

/// Walking a face's cycle along `next` from its first half-edge comes
/// back to it after as many steps as the face has corners, and visits
/// the face's own half-edges on the way.
pub proof fn lemma_face_cycle_closes(m: HalfEdgeTopology, faces: Seq<Vec<VertexKey>>, f: int)
    requires
        is_halfedge_mesh_of(m, faces),
        0 <= f < faces.len(),
        faces[f]@.len() > 0,
    ensures
        walk(m.edge_next_indices@, m.face_edge_indices@[f] as int, faces[f]@.len() as nat) == m.face_edge_indices@[f],
        forall|k: int| 0 <= k < faces[f]@.len() ==> m.edge_face_indices@[#[trigger] face_half_edge(m, f, k)] == Some(f as usize),
{
    let n = faces[f]@.len() as int;
    assert(is_corner(faces, f, n - 1));
    let h = face_half_edge(m, f, n - 1);
    assert(m.edge_next_indices@[h] as int == face_half_edge(m, f, (n - 1 + 1) % n));
    assert((n - 1 + 1) % n == 0) by {
        assert(n % n == 0) by (nonlinear_arith)
            requires
                n > 0,
        ;
    }
    assert(face_half_edge(m, f, 0) == m.face_edge_indices@[f] as int);
    assert forall|k: int| 0 <= k < n implies m.edge_face_indices@[#[trigger] face_half_edge(m, f, k)] == Some(f as usize) by {
        assert(is_corner(faces, f, k));
    }
}

/// What pairing gives.
#[verifier::opaque]
pub open spec fn pair_facts(partner: Seq<Option<usize>>, from: Seq<usize>, to: Seq<usize>, n: int) -> bool {
    &&& partner.len() == n
    &&& partner_ok(partner, from, to)
    &&& forall|i: int, j: int|
        0 <= i < partner.len() && 0 <= j < partner.len() && i != j && #[trigger] partner[i] is None
            && #[trigger] partner[j] is None ==> !(from[j] == to[i] && to[j] == from[i])
    &&& forall|q: int| 0 <= q < n && #[trigger] partner[q] is Some ==> 0 <= partner[q]->0 < n && partner[partner[q]->0 as int] == Some(q as usize)
    &&& partner == greedy_partner(from, to, n as nat)
}

/// The numbering of the finished mesh and its vertex split.
#[verifier::spinoff_prover]
proof fn lemma_mesh_rest(
    m: HalfEdgeTopology,
    fs: Seq<Vec<VertexKey>>,
    keys: Seq<VertexKey>,
    cface: Seq<usize>,
    first: Seq<usize>,
    ids: Map<VertexKey, i32>,
    src0: Seq<usize>,
    from: Seq<usize>,
    to: Seq<usize>,
    nextc: Seq<usize>,
    partner: Seq<Option<usize>>,
    slot: Seq<usize>,
    twins: Seq<(usize, usize)>,
    owner: Seq<int>,
    to0: Seq<usize>,
    next0: Seq<usize>,
    src: Seq<usize>,
    copy: Map<(int, int), int>,
)
    requires
        build_facts(m, fs, keys, cface, first, ids, src0, from, to, nextc, partner, slot, twins, owner, to0, next0, src),
        partner == greedy_partner(from, to, total_corners(fs) as nat),
        split_ok(to0, m.edge_opposite_indices@, next0, m.edge_face_indices@, src0, src, m.edge_vertex_indices@, copy),
        to0.len() == m.num_half_edges,
        next0.len() == m.num_half_edges,
        m.edge_opposite_indices@.len() == m.num_half_edges,
        m.edge_face_indices@.len() == m.num_half_edges,
        m.vertex_sources@.len() == src.len(),
        forall|x: int| 0 <= x < m.num_half_edges ==> #[trigger] m.edge_opposite_indices@[x] < m.num_half_edges,
        forall|x: int| 0 <= x < m.num_half_edges ==> #[trigger] next0[x] < m.num_half_edges,
        forall|x: int| 0 <= x < m.num_half_edges ==> #[trigger] to0[x] < src0.len(),
        forall|x: int| 0 <= x < m.num_half_edges && #[trigger] m.edge_face_indices@[x] is Some ==> m.edge_face_indices@[next0[x] as int] is Some,
        forall|w: int| 0 <= w < src.len() ==> {
            let p = src[w] as int;
            #[trigger] m.vertex_sources@[w] == (cface[p], (p - first[cface[p] as int]) as usize)
        },
    ensures
        mesh_numbering_ok(m, fs),
        mesh_split_by(m, fs, src0.len() as int, copy),
{
    reveal(build_facts);
    lemma_partner_by_keys(fs, keys, cface, first, ids, src0, from, to, nextc, partner);
    reveal(slot_facts);
    reveal(flat_facts);
    assert forall|f: int, k: int| is_corner(fs, f, k) implies #[trigger] face_half_edge(m, f, k) == slot_of(key_partner(fs), corner_offset(fs, f) + k) by {
        lemma_face_walk(m, fs, keys, cface, first, ids, src0, from, to, nextc, partner, slot, twins, owner, to0, next0, src, f, k);
    }
    assert forall|f: int| 0 <= f < fs.len() implies #[trigger] m.face_edge_indices@[f] == slot_of(key_partner(fs), corner_offset(fs, f)) by {
        lemma_offset_nonneg(fs, f);
        assert(slot[corner_offset(fs, f)] as int == slot_of(partner, corner_offset(fs, f)));
    }
    reveal(id_facts);
    reveal(fill_facts);
    assert forall|h: int| 0 <= h < m.num_half_edges && #[trigger] m.edge_face_indices@[h] is None implies h % 2 == 1 by {
        let o = owner[h];
        assert(0 <= o < partner.len());
        assert(slot[o] != h);
        assert(partner[o] is None && slot[o] + 1 == h);
        assert(slot[o] as int % 2 == 0);
    }
    lemma_mesh_split(m, fs, keys, src0, src, to0, next0, copy);
}

/// The finished mesh is a half-edge mesh of the faces, from what the
/// build established on the way.
#[verifier::spinoff_prover]
#[verifier::rlimit(100)]
proof fn lemma_mesh_built(
    m: HalfEdgeTopology,
    fs: Seq<Vec<VertexKey>>,
    keys: Seq<VertexKey>,
    cface: Seq<usize>,
    first: Seq<usize>,
    ids: Map<VertexKey, i32>,
    src0: Seq<usize>,
    from: Seq<usize>,
    to: Seq<usize>,
    nextc: Seq<usize>,
    partner: Seq<Option<usize>>,
    slot: Seq<usize>,
    twins: Seq<(usize, usize)>,
    owner: Seq<int>,
    to0: Seq<usize>,
    next0: Seq<usize>,
    src: Seq<usize>,
    copy: Map<(int, int), int>,
)
    requires
        build_facts(m, fs, keys, cface, first, ids, src0, from, to, nextc, partner, slot, twins, owner, to0, next0, src),
        partner == greedy_partner(from, to, total_corners(fs) as nat),
        split_ok(to0, m.edge_opposite_indices@, next0, m.edge_face_indices@, src0, src, m.edge_vertex_indices@, copy),
        to0.len() == m.num_half_edges,
        next0.len() == m.num_half_edges,
        m.edge_opposite_indices@.len() == m.num_half_edges,
        m.edge_face_indices@.len() == m.num_half_edges,
        m.vertex_sources@.len() == src.len(),
        forall|x: int| 0 <= x < m.num_half_edges ==> #[trigger] m.edge_opposite_indices@[x] < m.num_half_edges,
        forall|x: int| 0 <= x < m.num_half_edges ==> #[trigger] next0[x] < m.num_half_edges,
        forall|x: int| 0 <= x < m.num_half_edges ==> #[trigger] to0[x] < src0.len(),
        forall|x: int| 0 <= x < m.num_half_edges && #[trigger] m.edge_face_indices@[x] is Some ==> m.edge_face_indices@[next0[x] as int] is Some,
        forall|w: int| 0 <= w < src.len() ==> {
            let p = src[w] as int;
            #[trigger] m.vertex_sources@[w] == (cface[p], (p - first[cface[p] as int]) as usize)
        },
        mesh_vertices_ok(m, fs),
        mesh_sizes_ok(m, fs),
        mesh_edges_ok(m, fs),
        mesh_boundary_ok(m),
        base_vertices_ok(m, fs, src0.len() as int),
    ensures
        is_halfedge_mesh_of(m, fs),
{
    reveal(build_facts);
    lemma_mesh_faces(m, fs, keys, cface, first, ids, src0, from, to, nextc, partner, slot, twins, owner, to0, next0, src);
    lemma_mesh_pairing(m, fs, keys, cface, first, ids, src0, from, to, nextc, partner, slot, twins, owner, to0, next0, src);
    lemma_mesh_rest(m, fs, keys, cface, first, ids, src0, from, to, nextc, partner, slot, twins, owner, to0, next0, src, copy);
    lemma_mesh_conclude(m, fs, src0.len() as int, copy);
}

/// The parts of a half-edge mesh make one, once the vertex fans follow
/// from the split.
#[verifier::spinoff_prover]
proof fn lemma_mesh_conclude(m: HalfEdgeTopology, faces: Seq<Vec<VertexKey>>, nb: int, copy: Map<(int, int), int>)
    requires
        mesh_sizes_ok(m, faces),
        mesh_edges_ok(m, faces),
        mesh_vertices_ok(m, faces),
        mesh_faces_ok(m, faces),
        mesh_pairing_maximal(m, faces),
        base_vertices_ok(m, faces, nb),
        mesh_split_by(m, faces, nb, copy),
        mesh_boundary_ok(m),
        mesh_numbering_ok(m, faces),
    ensures
        is_halfedge_mesh_of(m, faces),
{
    lemma_vertices_used(m, faces, nb, copy);
}

/// The rest of the build, from the filled half-edge arrays: split
/// non-manifold vertices, link boundary twins, and gather the vertex,
/// face and data indices.
#[verifier::rlimit(100)]
#[verifier::spinoff_prover]
fn assemble_mesh(
    faces: &Vec<Vec<VertexKey>>,
    keys: Ghost<Seq<VertexKey>>,
    cface: &Vec<usize>,
    first: &Vec<usize>,
    ids: Ghost<Map<VertexKey, i32>>,
    src0: Vec<usize>,
    from: Ghost<Seq<usize>>,
    to: Ghost<Seq<usize>>,
    nextc: Ghost<Seq<usize>>,
    partner: Ghost<Seq<Option<usize>>>,
    slot: &Vec<usize>,
    twins: &Vec<(usize, usize)>,
    nhe: usize,
    owner: Ghost<Seq<int>>,
    out_to: Vec<usize>,
    out_opp: Vec<usize>,
    out_next: Vec<usize>,
    out_face: Vec<Option<usize>>,
    out_edge: Vec<usize>,
) -> (m: HalfEdgeTopology)
    requires
        total_corners(faces@) <= 0x3fff_ffff,
        forall|f: int| 0 <= f < faces@.len() ==> #[trigger] corner_offset(faces@, f) < total_corners(faces@),
        flat_facts(faces@, keys@, cface@, first@),
        id_facts(keys@, ids@, src0@),
        edge_facts(faces@, ids@, from@, to@, nextc@, src0@.len() as int),
        pair_facts(partner@, from@, to@, total_corners(faces@)),
        slot_facts(partner@, slot@, twins@, nhe as int, owner@),
        fill_facts(slot@, owner@, from@, to@, cface@, nextc@, nhe as int, out_to@, out_opp@, out_next@, out_face@, out_edge@),
    ensures
        is_halfedge_mesh_of(m, faces@),
{
    let ghost fs = faces@;
    let ghost total = total_corners(fs);
    let ghost keys = keys@;
    let ghost ids = ids@;
    let ghost from = from@;
    let ghost to = to@;
    let ghost nextc = nextc@;
    let ghost partner = partner@;
    let ghost owner = owner@;
    let mut out_to = out_to;
    let mut out_next = out_next;
    proof {
        reveal(flat_facts);
        reveal(id_facts);
        reveal(edge_facts);
        reveal(pair_facts);
        reveal(slot_facts);
        reveal(fill_facts);
    }
    let ghost to0 = out_to@;
    let ghost next0 = out_next@;
    let mut src = src0.clone();
    proof {
        assert forall|x: int| 0 <= x < nhe implies #[trigger] out_next@[x] < nhe by {
            assert(out_opp@[x] == twin_slot(x));
        }
        assert forall|x: int| 0 <= x < nhe implies #[trigger] out_to@[x] < src@.len() by {
            let o = owner[x];
            assert(0 <= o < total);
            assert(from[o] < src0@.len());
        }
    }
    split_nonmanifold_vertices(&mut out_to, &out_opp, &out_next, &out_face, &mut src);
    let ghost copy = choose|c: Map<(int, int), int>| split_ok(to0, out_opp@, next0, out_face@, src0@, src@, out_to@, c);
    proof {
        assert forall|t: int| 0 <= t < twins@.len() implies {
            &&& (#[trigger] twins@[t]).1 < out_opp@.len()
            &&& out_face@[twins@[t].1 as int] is None
            &&& out_face@[out_opp@[twins@[t].1 as int] as int] is Some
        } by {
            let (i, b) = twins@[t];
            assert(slot@[i as int] < nhe);
            let o = owner[b as int];
            if slot@[o] == b {
                assert(slot@[o] as int % 2 == 1);
                let j = partner[o]->0 as int;
                assert(slot@[j] == slot@[i as int]);
            }
            lemma_owner_of_slot(partner, slot@, twins@, nhe as int, owner, i as int);
            assert(out_opp@[b as int] == slot@[i as int]);
        }
        assert forall|t: int, u: int| 0 <= t < u < twins@.len() implies (#[trigger] twins@[t]).1 != (#[trigger] twins@[u]).1 by {
            let (i, b) = twins@[t];
            let (j, c) = twins@[u];
            assert(i != j);
        }
        assert forall|x: int| 0 <= x < nhe && out_face@[x] is Some implies out_face@[#[trigger] out_next@[x] as int] is Some by {
            let o = owner[x];
            assert(0 <= o < total);
            assert(slot@[o] == x);
            assert(from[o] < src0@.len());
            let q = nextc[o] as int;
            assert(0 <= q < total);
            lemma_owner_of_slot(partner, slot@, twins@, nhe as int, owner, q);
        }
    }
    let ghost next_pre = out_next@;
    link_boundary(&mut out_next, &out_opp, &out_face, &twins);
    proof {
        assert forall|h: int| 0 <= h < nhe && out_face@[h] is None implies #[trigger] out_next@[h] as int
            == boundary_next(out_next@, out_opp@, out_face@, h) by {
            let o = owner[h];
            assert(0 <= o < total);
            if slot@[o] == h {
                assert(out_face@[h] is Some);
            }
            let t = choose|t: int| 0 <= t < twins@.len() && #[trigger] twins@[t] == (o as usize, h as usize);
            assert(twins@[t].1 as int == h);
            assert(out_next@[h] as int == boundary_next(next_pre, out_opp@, out_face@, h));
            assert(out_face@[out_opp@[h] as int] is Some);
            assert forall|x: int| 0 <= x < nhe && out_face@[x] is Some implies #[trigger] out_next@[x] == next_pre[x] by {}
            lemma_search_same(next_pre, out_next@, out_opp@, out_face@, out_opp@[h] as int, nhe as nat);
        }
    }
    let nv = src.len();
    // 6. Vertex edges.
    let vertex_edge = vertex_edges(&out_to, &out_opp, nv);
    // 7. Face edges.
    let nf = faces.len();
    let (face_edge, face_data) = face_edges(&slot, &first, Ghost(fs));
    // 8. Identity data indices.
    let edge_vertex_data = identity_indices(nhe);
    let vertex_data = identity_indices(nv);
    let sources = vertex_sources_of(&src, &cface, &first, Ghost(fs), Ghost(keys), Ghost(src0@));
    let mesh = HalfEdgeTopology {
        vertex_sources: sources,
        vertex_edge_indices: vertex_edge,
        vertex_data_indices: vertex_data,
        edge_vertex_indices: out_to,
        edge_opposite_indices: out_opp,
        edge_next_indices: out_next,
        edge_face_indices: out_face,
        edge_data_indices: out_edge,
        edge_vertex_data_indices: edge_vertex_data,
        face_edge_indices: face_edge,
        face_data_indices: face_data,
        num_vertices: nv,
        num_half_edges: nhe,
        num_geometric_edges: nhe / 2,
        num_faces: nf,
    };
    proof {
        lemma_vertex_keys(mesh, fs, keys, cface@, first@, src@);
        lemma_base_vertices(mesh, fs, keys, cface@, first@, ids, src0@, src@);
        reveal(build_facts);
        assert(build_facts(mesh, fs, keys, cface@, first@, ids, src0@, from, to, nextc, partner, slot@, twins@, owner, to0, next0, src@));
        lemma_mesh_edges(mesh, fs, partner, slot@, twins@, owner, from, to, cface@, nextc, to0, next0);
        assert(mesh_vertices_ok(mesh, fs));
        assert forall|x: int| 0 <= x < nhe && #[trigger] out_face@[x] is Some implies out_face@[next0[x] as int] is Some by {
            assert(out_face@[next_pre[x] as int] is Some);
        }
        assert(mesh_sizes_ok(mesh, fs));
        assert(mesh_boundary_ok(mesh));
        lemma_mesh_built(mesh, fs, keys, cface@, first@, ids, src0@, from, to, nextc, partner, slot@, twins@, owner, to0, next0, src@, copy);
    }
    mesh
}

/// Builds the half-edge mesh of a list of faces, each given as the cycle
/// of its corners' rounded positions.  Corners with equal keys share a
/// vertex; each face half-edge is paired with a reverse face half-edge
/// where there is one, else with a boundary twin; non-manifold vertices
/// are split; boundary twins are linked round each hole.
/// The corner count is bounded by 2^30 - 1 on purpose: every half-edge
/// index (below twice the corner count, for an open mesh) then fits the
/// `i32` indices of the mesh that callers receive, whether or not the
/// mesh is closed.
#[verifier::rlimit(100)]
pub fn build_halfedge_mesh(faces: &Vec<Vec<VertexKey>>) -> (m: HalfEdgeTopology)
    requires
        total_corners(faces@) <= 0x3fff_ffff,
        forall|f: int| 0 <= f < faces@.len() ==> #[trigger] corner_offset(faces@, f) < total_corners(faces@),
    ensures
        is_halfedge_mesh_of(m, faces@),
{
    if faces.len() == 0 {
        let empty = HalfEdgeTopology {
            vertex_sources: Vec::new(),
            vertex_edge_indices: Vec::new(),
            vertex_data_indices: Vec::new(),
            edge_vertex_indices: Vec::new(),
            edge_opposite_indices: Vec::new(),
            edge_next_indices: Vec::new(),
            edge_face_indices: Vec::new(),
            edge_data_indices: Vec::new(),
            edge_vertex_data_indices: Vec::new(),
            face_edge_indices: Vec::new(),
            face_data_indices: Vec::new(),
            num_vertices: 0,
            num_half_edges: 0,
            num_geometric_edges: 0,
            num_faces: 0,
        };
        proof {
            assert(base_vertices_ok(empty, faces@, 0));
            assert(mesh_split_by(empty, faces@, 0, Map::empty())) by {
                reveal(mesh_split_by);
            }
            assert(mesh_fans_ok(empty)) by {
                reveal(mesh_fans_ok);
            }
            let kp = key_partner(faces@);
            lemma_count_step(kp, 0);
            assert(total_corners(faces@) == 0);
            lemma_greedy_len(flat_keys(faces@), flat_next_keys(faces@), 0);
            assert(flat_keys(faces@).len() == 0);
            assert(slot_count(kp) == 0);
        }
        return empty;
    }
    let ghost fs = faces@;
    let ghost total = total_corners(fs);
    // 1. Unique vertices.
    let (keys, cface, first) = flatten_corners(faces);
    assert(flat_facts(fs, keys@, cface@, first@)) by {
        reveal(flat_facts);
    }
    let (map, src0) = collect_vertices(&keys);
    let ghost ids = vertex_ids_contents(map);
    assert(id_facts(keys@, ids, src0@)) by {
        reveal(id_facts);
        assert forall|v: int, w: int| 0 <= v < src0@.len() && 0 <= w < src0@.len() && v != w implies keys@[#[trigger] src0@[v] as int] != keys@[#[trigger] src0@[w] as int] by {
            if v < w {
                assert(src0@[v] < src0@[w]);
            } else {
                assert(src0@[w] < src0@[v]);
            }
        }
    }
    proof {
        assert forall|f: int, k: int| is_corner(fs, f, k) implies {
            &&& ids.contains_key(#[trigger] fs[f]@[k])
            &&& 0 <= ids[fs[f]@[k]] < src0@.len()
        } by {
            assert(flat_ok(fs, keys@, cface@, f, k));
            lemma_offset_nonneg(fs, f);
            lemma_offset_mono(fs, f + 1, fs.len() as int);
            assert(keys@[corner_offset(fs, f) + k] == fs[f]@[k]);
        }
    }
    // 2. Face half-edges, one per corner.
    let (from, to, nextc) = corner_edges(faces, &map, src0.len());
    assert(edge_facts(fs, ids, from@, to@, nextc@, src0@.len() as int)) by {
        reveal(edge_facts);
    }
    // 3. Twins among face half-edges.
    let lists = build_edge_lists(&from, &to);
    let partner = pair_half_edges(&from, &to, &lists);
    // 4. Slots: twin pairs, then face half-edge + boundary twin.
    let (slot, twins, nhe, owner) = assign_slots(&partner, Ghost(from@), Ghost(to@));
    assert(slot_facts(partner@, slot@, twins@, nhe as int, owner@)) by {
        reveal(slot_facts);
    }
    proof {
        assert forall|q: int| 0 <= q < total implies #[trigger] nextc@[q] < total by {
            assert(from@[q] < src0@.len());
        }
        assert forall|q: int| 0 <= q < total && #[trigger] partner@[q] is Some implies 0 <= partner@[q]->0 < total && partner@[partner@[q]->0 as int] == Some(q as usize) by {}
    }
    // 5. The half-edge arrays.
    let (out_to, out_opp, out_next, out_face, out_edge) = fill_half_edges(
        &slot,
        &twins,
        nhe,
        owner,
        Ghost(partner@),
        &from,
        &to,
        &cface,
        &nextc,
    );
    assert(fill_facts(slot@, owner@, from@, to@, cface@, nextc@, nhe as int, out_to@, out_opp@, out_next@, out_face@, out_edge@)) by {
        reveal(fill_facts);
    }
    assert(pair_facts(partner@, from@, to@, total)) by {
        reveal(pair_facts);
    }
    assemble_mesh(
        faces,
        Ghost(keys@),
        &cface,
        &first,
        Ghost(ids),
        src0,
        Ghost(from@),
        Ghost(to@),
        Ghost(nextc@),
        Ghost(partner@),
        &slot,
        &twins,
        nhe,
        owner,
        out_to,
        out_opp,
        out_next,
        out_face,
        out_edge,
    )
}

} // verus!
