//! The polygon-mesh block of a Source 2 map as KeyValues2 text: index
//! arrays, materials, and the vertex, face-vertex, edge and face data
//! streams.
//!
//! Numbers that are floating point in the map (positions, normals,
//! texture coordinates and axes) come in already formatted, one text per
//! vertex, face or face corner; this module decides which of them goes
//! where, picks each face's material and writes the text.
use crate::kv2::{
    array_text, data_array_text, dec_int, dec_nat, i32_text, line_text, prop_text, stream_views,
    string_views, usize_text, DataStream, KV2Writer, StreamView,
};
use crate::fxmap::VertexKey;
use crate::halfedge::{
    face_half_edge, is_corner, is_halfedge_mesh_of, mesh_edges_ok, mesh_faces_ok, mesh_sizes_ok,
    HalfEdgeTopology,
};
use crate::names::{block_base_name, get_block_base_name};
use vstd::prelude::*;
use vstd::string::StrSliceExecFns;

verus! {

// ─── which face corner each half-edge belongs to ─────────────────────
/// The half-edge reached from face `fi` after `k` steps along `next`.
pub open spec fn walk(fei: Seq<i32>, eni: Seq<i32>, fi: int, k: nat) -> int
    decreases k,
{
    if k == 0 {
        fei[fi] as int
    } else {
        eni[walk(fei, eni, fi, (k - 1) as nat)] as int
    }
}

/// Every one of the first `nf` faces can take four steps along `next`
/// from its first half-edge without leaving `eni`.
pub open spec fn face_walks_ok(fei: Seq<i32>, eni: Seq<i32>, nf: nat) -> bool {
    &&& nf <= fei.len()
    &&& forall|fi: int, k: nat|
        0 <= fi < nf && k < 4 ==> 0 <= #[trigger] walk(fei, eni, fi, k) < eni.len()
}

/// The last of the first `m` steps of face `fi` that lands on `h`.
pub open spec fn last_slot_below(fei: Seq<i32>, eni: Seq<i32>, fi: int, h: int, m: nat) -> Option<
    nat,
>
    decreases m,
{
    if m == 0 {
        None
    } else if walk(fei, eni, fi, (m - 1) as nat) == h {
        Some((m - 1) as nat)
    } else {
        last_slot_below(fei, eni, fi, h, (m - 1) as nat)
    }
}

/// The face and corner slot that half-edge `h` belongs to after the
/// first `n` faces have each walked four steps: a later visit replaces
/// an earlier one.
pub open spec fn he_owner(fei: Seq<i32>, eni: Seq<i32>, n: nat, h: int) -> Option<(nat, nat)>
    decreases n,
{
    if n == 0 {
        None
    } else {
        match last_slot_below(fei, eni, n - 1, h, 4) {
            Some(s) => Some(((n - 1) as nat, s)),
            None => he_owner(fei, eni, (n - 1) as nat, h),
        }
    }
}

/// An owner in executable form.
pub open spec fn owner_view(o: Option<(usize, usize)>) -> Option<(nat, nat)> {
    match o {
        Some((f, s)) => Some((f as nat, s as nat)),
        None => None,
    }
}

/// For each half-edge below `num_half_edges`, the face and corner slot
/// that last reach it when each of the first `num_faces` faces walks four
/// steps along `edge_next_indices` from its first half-edge.
#[verifier::spinoff_prover]
pub fn face_half_edge_owners(
    face_edge_indices: &Vec<i32>,
    edge_next_indices: &Vec<i32>,
    num_faces: usize,
    num_half_edges: usize,
) -> (r: Vec<Option<(usize, usize)>>)
    requires
        face_walks_ok(face_edge_indices@, edge_next_indices@, num_faces as nat),
    ensures
        r.len() == num_half_edges,
        forall|h: int|
            0 <= h < num_half_edges ==> owner_view(#[trigger] r@[h]) == he_owner(
                face_edge_indices@,
                edge_next_indices@,
                num_faces as nat,
                h,
            ),
{
    let ghost fei = face_edge_indices@;
    let ghost eni = edge_next_indices@;
    let mut info: Vec<Option<(usize, usize)>> = Vec::new();
    let mut h: usize = 0;
    while h < num_half_edges
        invariant
            h <= num_half_edges,
            info.len() == h,
            forall|j: int| 0 <= j < h ==> #[trigger] info@[j] is None,
        decreases num_half_edges - h,
    {
        info.push(None);
        h += 1;
    }
    let mut fi: usize = 0;
    while fi < num_faces
        invariant
            fi <= num_faces,
            fei == face_edge_indices@,
            eni == edge_next_indices@,
            face_walks_ok(fei, eni, num_faces as nat),
            info.len() == num_half_edges,
            forall|j: int|
                0 <= j < num_half_edges ==> owner_view(#[trigger] info@[j]) == he_owner(
                    fei,
                    eni,
                    fi as nat,
                    j,
                ),
        decreases num_faces - fi,
    {
        let mut he: i32 = face_edge_indices[fi];
        let mut slot: usize = 0;
        while slot < 4
            invariant
                fi < num_faces,
                slot <= 4,
                fei == face_edge_indices@,
                eni == edge_next_indices@,
                face_walks_ok(fei, eni, num_faces as nat),
                he == walk(fei, eni, fi as int, slot as nat),
                info.len() == num_half_edges,
                forall|j: int|
                    0 <= j < num_half_edges ==> owner_view(#[trigger] info@[j]) == match last_slot_below(
                        fei,
                        eni,
                        fi as int,
                        j,
                        slot as nat,
                    ) {
                        Some(s) => Some((fi as nat, s)),
                        None => he_owner(fei, eni, fi as nat, j),
                    },
            decreases 4 - slot,
        {
            assert(0 <= walk(fei, eni, fi as int, slot as nat) < eni.len());
            let ghost old_info = info@;
            if (he as usize) < num_half_edges {
                info.set(he as usize, Some((fi, slot)));
            }
            proof {
                assert forall|j: int| 0 <= j < num_half_edges implies owner_view(
                    #[trigger] info@[j],
                ) == match last_slot_below(fei, eni, fi as int, j, (slot + 1) as nat) {
                    Some(s) => Some((fi as nat, s)),
                    None => he_owner(fei, eni, fi as nat, j),
                } by {
                    if j == he as int {
                    } else {
                        assert(info@[j] == old_info[j]);
                    }
                }
            }
            he = edge_next_indices[he as usize];
            slot += 1;
        }
        fi += 1;
    }
    info
}

// ─── materials ───────────────────────────────────────────────────────
/// Whether `s` ends with `suffix`.
pub open spec fn ends_with(s: Seq<char>, suffix: Seq<char>) -> bool {
    suffix.len() <= s.len() && s.skip(s.len() - suffix.len()) == suffix
}

/// The material file suffix of a texture: `/name.vmat`.
pub open spec fn vmat_suffix(name: Seq<char>) -> Seq<char> {
    "/"@ + name + ".vmat"@
}

/// The first material at or after `i` that ends with `suffix`.
pub open spec fn first_material_from(mats: Seq<Seq<char>>, suffix: Seq<char>, i: int) -> Option<
    nat,
>
    decreases mats.len() - i,
{
    if i < 0 || i >= mats.len() {
        None
    } else if ends_with(mats[i], suffix) {
        Some(i as nat)
    } else {
        first_material_from(mats, suffix, i + 1)
    }
}

/// The first material that ends with `suffix`.
pub open spec fn first_material(mats: Seq<Seq<char>>, suffix: Seq<char>) -> Option<nat> {
    first_material_from(mats, suffix, 0)
}

/// The texture a face direction of a block uses: its base name.
pub open spec fn texture_name_for_face(block_base: Seq<char>, face_dir: Seq<char>) -> Seq<char> {
    block_base
}

/// The material index of a face: the first material named after its
/// texture, if it has one; else the first named after the texture of its
/// face direction; else the first named after its block's base name;
/// else 0.
pub open spec fn material_index(
    mats: Seq<Seq<char>>,
    texture_name: Option<Seq<char>>,
    block_type: Seq<char>,
    face_dir: Seq<char>,
) -> nat {
    let by_texture = match texture_name {
        Some(t) => first_material(mats, vmat_suffix(t)),
        None => None,
    };
    match by_texture {
        Some(i) => i,
        None => {
            let base = block_base_name(block_type);
            match first_material(mats, vmat_suffix(texture_name_for_face(base, face_dir))) {
                Some(i) => i,
                None => match first_material(mats, vmat_suffix(base)) {
                    Some(i) => i,
                    None => 0,
                },
            }
        },
    }
}

/// An optional string as optional text.
pub open spec fn opt_view(o: Option<String>) -> Option<Seq<char>> {
    match o {
        Some(s) => Some(s@),
        None => None,
    }
}

proof fn lemma_first_material_from(mats: Seq<Seq<char>>, suffix: Seq<char>, i: int)
    requires
        0 <= i <= mats.len(),
    ensures
        match first_material_from(mats, suffix, i) {
            Some(p) => i <= p < mats.len() && ends_with(mats[p as int], suffix) && forall|q: int|
                i <= q < p ==> !ends_with(#[trigger] mats[q], suffix),
            None => forall|q: int| i <= q < mats.len() ==> !ends_with(#[trigger] mats[q], suffix),
        },
    decreases mats.len() - i,
{
    if i < mats.len() && !ends_with(mats[i], suffix) {
        lemma_first_material_from(mats, suffix, i + 1);
    }
}

/// Whether `s` ends with `suffix`.
fn str_ends_with(s: &str, suffix: &str) -> (b: bool)
    ensures
        b == ends_with(s@, suffix@),
{
    let n = s.unicode_len();
    let m = suffix.unicode_len();
    if m > n {
        false
    } else {
        let tail = String::from_str(s.substring_char(n - m, n));
        let want = String::from_str(suffix);
        proof {
            assert(s@.subrange((n - m) as int, n as int) =~= s@.skip((n - m) as int));
        }
        tail == want
    }
}

/// `/name.vmat`.
fn vmat_suffix_of(name: &str) -> (r: String)
    ensures
        r@ == vmat_suffix(name@),
{
    let mut r = String::from_str("/");
    r.append(name);
    r.append(".vmat");
    r
}

/// The first material that ends with `suffix`.
fn find_material(materials: &Vec<String>, suffix: &str) -> (r: Option<usize>)
    ensures
        match r {
            Some(i) => first_material(string_views(materials@), suffix@) == Some(i as nat),
            None => first_material(string_views(materials@), suffix@) is None,
        },
{
    let ghost mats = string_views(materials@);
    proof {
        lemma_first_material_from(mats, suffix@, 0);
    }
    let mut i: usize = 0;
    while i < materials.len()
        invariant
            i <= materials.len(),
            mats == string_views(materials@),
            forall|q: int| 0 <= q < i ==> !ends_with(#[trigger] mats[q], suffix@),
            match first_material(mats, suffix@) {
                Some(p) => ends_with(mats[p as int], suffix@) && p < mats.len() && forall|q: int|
                    0 <= q < p ==> !ends_with(#[trigger] mats[q], suffix@),
                None => forall|q: int| 0 <= q < mats.len() ==> !ends_with(#[trigger] mats[q], suffix@),
            },
        decreases materials.len() - i,
    {
        assert(mats[i as int] == materials@[i as int]@);
        if str_ends_with(materials[i].as_str(), suffix) {
            return Some(i);
        }
        i += 1;
    }
    None
}

/// The texture a face direction of a block uses: its base name.
pub fn get_texture_name_for_face(block_base: &str, face_dir: &str) -> (r: String)
    ensures
        r@ == texture_name_for_face(block_base@, face_dir@),
{
    String::from_str(block_base)
}

/// The material index of a face (see `material_index`).
pub fn face_material_index(
    materials: &Vec<String>,
    texture_name: &Option<String>,
    block_type: &str,
    face_dir: &str,
) -> (r: usize)
    ensures
        r == material_index(
            string_views(materials@),
            opt_view(*texture_name),
            block_type@,
            face_dir@,
        ),
{
    if let Some(tex_name) = texture_name {
        let suffix = vmat_suffix_of(tex_name.as_str());
        if let Some(i) = find_material(materials, suffix.as_str()) {
            return i;
        }
    }
    let block_base = get_block_base_name(block_type);
    let face_tex = get_texture_name_for_face(block_base.as_str(), face_dir);
    let suffix = vmat_suffix_of(face_tex.as_str());
    if let Some(i) = find_material(materials, suffix.as_str()) {
        return i;
    }
    let base_suffix = vmat_suffix_of(block_base.as_str());
    if let Some(i) = find_material(materials, base_suffix.as_str()) {
        return i;
    }
    0
}

// ─── the input ───────────────────────────────────────────────────────
/// A mesh to write: its half-edge index arrays, the text of each vertex
/// position and of each face's normal, corner texture coordinates,
/// tangent and texture axes, the names each face's material is looked up
/// by, the material list, the texture scale and the element counts.
pub struct VmapInput {
    pub vertex_positions: Vec<String>,
    pub vertex_edge_indices: Vec<i32>,
    pub vertex_data_indices: Vec<i32>,
    pub edge_vertex_indices: Vec<i32>,
    pub edge_opposite_indices: Vec<i32>,
    pub edge_next_indices: Vec<i32>,
    pub edge_face_indices: Vec<i32>,
    pub edge_data_indices: Vec<i32>,
    pub edge_vertex_data_indices: Vec<i32>,
    pub face_edge_indices: Vec<i32>,
    pub face_data_indices: Vec<i32>,
    pub face_normals: Vec<String>,
    pub face_texcoords: Vec<Vec<String>>,
    pub face_tangents: Vec<String>,
    pub face_axes_u: Vec<String>,
    pub face_axes_v: Vec<String>,
    pub face_quads_block_types: Vec<String>,
    pub face_quads_face_dirs: Vec<String>,
    pub face_quads_texture_names: Vec<Option<String>>,
    pub materials: Vec<String>,
    pub texture_scale: String,
    pub num_vertices: usize,
    pub num_half_edges: usize,
    pub num_geometric_edges: usize,
    pub num_faces: usize,
}

/// The face and corner slot that half-edge `h` of the input belongs to.
pub open spec fn owner(inp: VmapInput, h: int) -> Option<(nat, nat)> {
    he_owner(inp.face_edge_indices@, inp.edge_next_indices@, inp.num_faces as nat, h)
}

/// What writing the input needs: every face can walk four half-edges,
/// there is text for every face, the corner after each half-edge's slot
/// has texture coordinates, and the material indices fit in an `i32`.
pub open spec fn input_ok(inp: VmapInput) -> bool {
    let nf = inp.num_faces as nat;
    &&& face_walks_ok(inp.face_edge_indices@, inp.edge_next_indices@, nf)
    &&& nf <= inp.face_normals.len()
    &&& nf <= inp.face_texcoords.len()
    &&& nf <= inp.face_tangents.len()
    &&& nf <= inp.face_axes_u.len()
    &&& nf <= inp.face_axes_v.len()
    &&& nf <= inp.face_quads_block_types.len()
    &&& nf <= inp.face_quads_face_dirs.len()
    &&& nf <= inp.face_quads_texture_names.len()
    &&& inp.materials.len() <= i32::MAX
    &&& forall|h: int|
        0 <= h < inp.num_half_edges ==> match #[trigger] owner(inp, h) {
            Some((f, s)) => (s + 1) % 4 < inp.face_texcoords@[f as int].len(),
            None => true,
        }
}

/// The texture coordinates of half-edge `h`: those of the corner after
/// its slot in its face, or `0 0`.
pub open spec fn texcoord_text(inp: VmapInput, h: int) -> Seq<char> {
    match owner(inp, h) {
        Some((f, s)) => inp.face_texcoords@[f as int]@[((s + 1) % 4) as int]@,
        None => "0 0"@,
    }
}

/// The normal of half-edge `h`: its face's, or `0 0 0`.
pub open spec fn normal_text(inp: VmapInput, h: int) -> Seq<char> {
    match owner(inp, h) {
        Some((f, s)) => inp.face_normals@[f as int]@,
        None => "0 0 0"@,
    }
}

/// The tangent of half-edge `h`: its face's, or `0 0 0 0`.
pub open spec fn tangent_text(inp: VmapInput, h: int) -> Seq<char> {
    match owner(inp, h) {
        Some((f, s)) => inp.face_tangents@[f as int]@,
        None => "0 0 0 0"@,
    }
}

/// The material index text of face `fi`.
pub open spec fn material_text(inp: VmapInput, fi: int) -> Seq<char> {
    dec_nat(
        material_index(
            string_views(inp.materials@),
            opt_view(inp.face_quads_texture_names@[fi]),
            inp.face_quads_block_types@[fi]@,
            inp.face_quads_face_dirs@[fi]@,
        ),
    )
}

/// `n` copies of `text`.
pub open spec fn copies(n: nat, text: Seq<char>) -> Seq<Seq<char>> {
    Seq::new(n, |i: int| text)
}

/// A stream whose name, standard attribute and semantic are all `name`,
/// with semantic index 0.
pub open spec fn named_stream(
    id: Seq<char>,
    name: Seq<char>,
    data_state: int,
    dtype: Seq<char>,
    data: Seq<Seq<char>>,
) -> StreamView {
    StreamView {
        id: id,
        name: name,
        standard_attr: name,
        semantic: name,
        sem_idx: 0,
        data_state: data_state,
        dtype: dtype,
        data: data,
    }
}

/// The decimal texts of some numbers.
pub open spec fn int_texts(v: Seq<i32>) -> Seq<Seq<char>> {
    v.map_values(|x: i32| dec_int(x as int))
}

/// An `int_array` at the top level.
pub open spec fn int_array_text(ind: nat, name: Seq<char>, data: Seq<i32>) -> Seq<char> {
    array_text(ind, name, "int_array"@, int_texts(data))
}

/// The ten index arrays.
pub open spec fn index_arrays_text(inp: VmapInput) -> Seq<char> {
    int_array_text(0, "vertexEdgeIndices"@, inp.vertex_edge_indices@) + int_array_text(
        0,
        "vertexDataIndices"@,
        inp.vertex_data_indices@,
    ) + int_array_text(0, "edgeVertexIndices"@, inp.edge_vertex_indices@) + int_array_text(
        0,
        "edgeOppositeIndices"@,
        inp.edge_opposite_indices@,
    ) + int_array_text(0, "edgeNextIndices"@, inp.edge_next_indices@) + int_array_text(
        0,
        "edgeFaceIndices"@,
        inp.edge_face_indices@,
    ) + int_array_text(0, "edgeDataIndices"@, inp.edge_data_indices@) + int_array_text(
        0,
        "edgeVertexDataIndices"@,
        inp.edge_vertex_data_indices@,
    ) + int_array_text(0, "faceEdgeIndices"@, inp.face_edge_indices@) + int_array_text(
        0,
        "faceDataIndices"@,
        inp.face_data_indices@,
    )
}

/// The material list.
pub open spec fn materials_text(inp: VmapInput) -> Seq<char> {
    array_text(0, "materials"@, "string_array"@, string_views(inp.materials@))
}

/// The `vertexData` element and a blank line.
pub open spec fn vertex_data_text(inp: VmapInput, ids: Seq<Seq<char>>) -> Seq<char> {
    data_array_text(
        0,
        "vertexData"@,
        ids[0],
        inp.num_vertices as nat,
        seq![
            named_stream(
                ids[1],
                "position"@,
                3,
                "vector3_array"@,
                string_views(inp.vertex_positions@),
            ),
        ],
    ) + "\n"@
}

/// The `faceVertexData` element and a blank line.
pub open spec fn face_vertex_data_text(inp: VmapInput, ids: Seq<Seq<char>>) -> Seq<char> {
    let n = inp.num_half_edges as nat;
    data_array_text(
        0,
        "faceVertexData"@,
        ids[2],
        n,
        seq![
            named_stream(
                ids[3],
                "texcoord"@,
                1,
                "vector2_array"@,
                Seq::new(n, |h: int| texcoord_text(inp, h)),
            ),
            named_stream(
                ids[4],
                "normal"@,
                1,
                "vector3_array"@,
                Seq::new(n, |h: int| normal_text(inp, h)),
            ),
            named_stream(
                ids[5],
                "tangent"@,
                1,
                "vector4_array"@,
                Seq::new(n, |h: int| tangent_text(inp, h)),
            ),
        ],
    ) + "\n"@
}

/// The `edgeData` element and a blank line.
pub open spec fn edge_data_text(inp: VmapInput, ids: Seq<Seq<char>>) -> Seq<char> {
    let n = inp.num_geometric_edges as nat;
    data_array_text(
        0,
        "edgeData"@,
        ids[6],
        n,
        seq![named_stream(ids[7], "flags"@, 3, "int_array"@, copies(n, "0"@))],
    ) + "\n"@
}

/// The `faceData` element and a blank line.
pub open spec fn face_data_text(inp: VmapInput, ids: Seq<Seq<char>>) -> Seq<char> {
    let n = inp.num_faces as nat;
    let ts = inp.texture_scale@;
    data_array_text(
        0,
        "faceData"@,
        ids[8],
        n,
        seq![
            named_stream(ids[9], "textureScale"@, 0, "vector2_array"@, copies(n, ts + " "@ + ts)),
            named_stream(
                ids[10],
                "textureAxisU"@,
                0,
                "vector4_array"@,
                string_views(inp.face_axes_u@).take(n as int),
            ),
            named_stream(
                ids[11],
                "textureAxisV"@,
                0,
                "vector4_array"@,
                string_views(inp.face_axes_v@).take(n as int),
            ),
            named_stream(
                ids[12],
                "materialindex"@,
                8,
                "int_array"@,
                Seq::new(n, |fi: int| material_text(inp, fi)),
            ),
            named_stream(ids[13], "flags"@, 3, "int_array"@, copies(n, "0"@)),
            named_stream(ids[14], "lightmapScaleBias"@, 1, "int_array"@, copies(n, "0"@)),
        ],
    ) + "\n"@
}

/// The empty `subdivisionData` element.
pub open spec fn subdivision_text(id: Seq<char>) -> Seq<char> {
    line_text(0, "\"subdivisionData\" \"CDmePolygonMeshSubdivisionData\""@) + line_text(0, "{"@)
        + prop_text(1, "id"@, "elementid"@, id) + array_text(
        1,
        "subdivisionLevels"@,
        "int_array"@,
        Seq::empty(),
    ) + array_text(1, "streams"@, "element_array"@, Seq::empty()) + line_text(0, "}"@)
}

/// The whole mesh block, with the element ids in the order they appear.
#[verifier::opaque]
pub open spec fn vmap_text(inp: VmapInput, ids: Seq<Seq<char>>) -> Seq<char> {
    index_arrays_text(inp) + materials_text(inp) + vertex_data_text(inp, ids)
        + face_vertex_data_text(inp, ids) + edge_data_text(inp, ids) + face_data_text(inp, ids)
        + subdivision_text(ids[15])
}

proof fn lemma_last_slot_below(fei: Seq<i32>, eni: Seq<i32>, fi: int, h: int, m: nat)
    ensures
        last_slot_below(fei, eni, fi, h, m) matches Some(s) ==> s < m,
    decreases m,
{
    if m > 0 {
        lemma_last_slot_below(fei, eni, fi, h, (m - 1) as nat);
    }
}

/// The owner of a half-edge is one of the faces walked, at one of the
/// four slots.
pub proof fn lemma_he_owner_bounds(fei: Seq<i32>, eni: Seq<i32>, n: nat, h: int)
    ensures
        he_owner(fei, eni, n, h) matches Some((f, s)) ==> f < n && s < 4,
    decreases n,
{
    if n > 0 {
        lemma_last_slot_below(fei, eni, n - 1, h, 4);
        lemma_he_owner_bounds(fei, eni, (n - 1) as nat, h);
    }
}

// ─── built meshes and their owners ───────────────────────────────────
/// Indices as the map stores them, as `i32`.
pub open spec fn as_i32s(s: Seq<usize>) -> Seq<i32> {
    s.map_values(|x: usize| x as i32)
}

proof fn lemma_walk_matches(m: HalfEdgeTopology, faces: Seq<Vec<VertexKey>>, f: int, k: nat)
    requires
        mesh_sizes_ok(m, faces),
        mesh_faces_ok(m, faces),
        m.num_half_edges <= i32::MAX,
        0 <= f < faces.len(),
        faces[f]@.len() == 4,
        k < 4,
    ensures
        walk(as_i32s(m.face_edge_indices@), as_i32s(m.edge_next_indices@), f, k) == face_half_edge(m, f, k as int),
        0 <= face_half_edge(m, f, k as int) < m.num_half_edges,
    decreases k,
{
    assert(is_corner(faces, f, k as int));
    if k > 0 {
        lemma_walk_matches(m, faces, f, (k - 1) as nat);
        assert(is_corner(faces, f, k - 1));
        let prev = face_half_edge(m, f, k - 1);
        assert(face_half_edge(m, f, k as int) == m.edge_next_indices@[prev] as int);
    } else {
        assert(m.face_edge_indices@[f] < m.num_half_edges);
    }
}

proof fn lemma_no_slot(fei: Seq<i32>, eni: Seq<i32>, g: int, h: int, n: nat)
    requires
        forall|j: nat| j < n ==> #[trigger] walk(fei, eni, g, j) != h,
    ensures
        last_slot_below(fei, eni, g, h, n) is None,
    decreases n,
{
    if n > 0 {
        assert(walk(fei, eni, g, (n - 1) as nat) != h);
        lemma_no_slot(fei, eni, g, h, (n - 1) as nat);
    }
}

proof fn lemma_one_slot(fei: Seq<i32>, eni: Seq<i32>, g: int, h: int, k: nat, n: nat)
    requires
        k < n,
        walk(fei, eni, g, k) == h,
        forall|j: nat| j < n && j != k ==> #[trigger] walk(fei, eni, g, j) != h,
    ensures
        last_slot_below(fei, eni, g, h, n) == Some(k),
    decreases n,
{
    if n - 1 != k {
        assert(walk(fei, eni, g, (n - 1) as nat) != h);
        lemma_one_slot(fei, eni, g, h, k, (n - 1) as nat);
    }
}

proof fn lemma_owner_of_face_edge(m: HalfEdgeTopology, faces: Seq<Vec<VertexKey>>, f: int, k: nat, n: nat)
    requires
        mesh_sizes_ok(m, faces),
        mesh_faces_ok(m, faces),
        m.num_half_edges <= i32::MAX,
        forall|g: int| 0 <= g < faces.len() ==> #[trigger] faces[g]@.len() == 4,
        0 <= f < n <= faces.len(),
        k < 4,
    ensures
        he_owner(
            as_i32s(m.face_edge_indices@),
            as_i32s(m.edge_next_indices@),
            n,
            face_half_edge(m, f, k as int),
        ) == Some((f as nat, k)),
    decreases n,
{
    let fei = as_i32s(m.face_edge_indices@);
    let eni = as_i32s(m.edge_next_indices@);
    let h = face_half_edge(m, f, k as int);
    let g = n - 1;
    assert(faces[f]@.len() == 4);
    assert(faces[g]@.len() == 4);
    assert(is_corner(faces, f, k as int));
    if g == f {
        lemma_walk_matches(m, faces, f, k);
        assert forall|j: nat| j < 4 && j != k implies #[trigger] walk(fei, eni, g, j) != h by {
            lemma_walk_matches(m, faces, g, j);
            assert(is_corner(faces, g, j as int));
        }
        lemma_one_slot(fei, eni, g, h, k, 4);
    } else {
        assert forall|j: nat| j < 4 implies #[trigger] walk(fei, eni, g, j) != h by {
            lemma_walk_matches(m, faces, g, j);
            assert(is_corner(faces, g, j as int));
        }
        lemma_no_slot(fei, eni, g, h, 4);
        lemma_owner_of_face_edge(m, faces, f, k, (n - 1) as nat);
    }
}

proof fn lemma_owner_of_boundary(m: HalfEdgeTopology, faces: Seq<Vec<VertexKey>>, h: int, n: nat)
    requires
        mesh_sizes_ok(m, faces),
        mesh_faces_ok(m, faces),
        m.num_half_edges <= i32::MAX,
        forall|g: int| 0 <= g < faces.len() ==> #[trigger] faces[g]@.len() == 4,
        0 <= h < m.num_half_edges,
        m.edge_face_indices@[h] is None,
        n <= faces.len(),
    ensures
        he_owner(as_i32s(m.face_edge_indices@), as_i32s(m.edge_next_indices@), n, h) is None,
    decreases n,
{
    if n > 0 {
        let fei = as_i32s(m.face_edge_indices@);
        let eni = as_i32s(m.edge_next_indices@);
        let g = n - 1;
        assert(faces[g]@.len() == 4);
        assert forall|j: nat| j < 4 implies #[trigger] walk(fei, eni, g, j) != h by {
            lemma_walk_matches(m, faces, g, j);
            assert(is_corner(faces, g, j as int));
        }
        lemma_no_slot(fei, eni, g, h, 4);
        lemma_owner_of_boundary(m, faces, h, (n - 1) as nat);
    }
}

proof fn lemma_quad_owners_of_parts(m: HalfEdgeTopology, faces: Seq<Vec<VertexKey>>)
    requires
        mesh_sizes_ok(m, faces),
        mesh_faces_ok(m, faces),
        m.num_half_edges <= i32::MAX,
        forall|f: int| 0 <= f < faces.len() ==> #[trigger] faces[f]@.len() == 4,
    ensures
        face_walks_ok(
            as_i32s(m.face_edge_indices@),
            as_i32s(m.edge_next_indices@),
            faces.len() as nat,
        ),
        forall|f: int, k: int|
            0 <= f < faces.len() && 0 <= k < 4 ==> he_owner(
                as_i32s(m.face_edge_indices@),
                as_i32s(m.edge_next_indices@),
                faces.len() as nat,
                #[trigger] face_half_edge(m, f, k),
            ) == Some((f as nat, k as nat)),
        forall|h: int|
            0 <= h < m.num_half_edges && #[trigger] m.edge_face_indices@[h] is None ==> he_owner(
                as_i32s(m.face_edge_indices@),
                as_i32s(m.edge_next_indices@),
                faces.len() as nat,
                h,
            ) is None,
{
    let fei = as_i32s(m.face_edge_indices@);
    let eni = as_i32s(m.edge_next_indices@);
    let nf = faces.len() as nat;
    assert forall|fi: int, k: nat| 0 <= fi < nf && k < 4 implies 0 <= #[trigger] walk(fei, eni, fi, k) < eni.len() by {
        lemma_walk_matches(m, faces, fi, k);
    }
    assert forall|f: int, k: int| 0 <= f < faces.len() && 0 <= k < 4 implies he_owner(
        fei,
        eni,
        nf,
        #[trigger] face_half_edge(m, f, k),
    ) == Some((f as nat, k as nat)) by {
        lemma_owner_of_face_edge(m, faces, f, k as nat, nf);
    }
    assert forall|h: int| 0 <= h < m.num_half_edges && #[trigger] m.edge_face_indices@[h] is None implies he_owner(
        fei,
        eni,
        nf,
        h,
    ) is None by {
        lemma_owner_of_boundary(m, faces, h, nf);
    }
}

/// A mesh of quads built by `build_halfedge_mesh`, with its indices
/// stored as `i32`, is what the writer walks: each face can walk its four
/// half-edges, the half-edge of corner `k` of face `f` belongs to face
/// `f` at slot `k` (so it gets the texture coordinates of corner `k + 1`
/// and the face's normal and tangent), and no boundary half-edge belongs
/// to a face.
pub proof fn lemma_quad_mesh_owners(m: HalfEdgeTopology, faces: Seq<Vec<VertexKey>>)
    requires
        is_halfedge_mesh_of(m, faces),
        forall|f: int| 0 <= f < faces.len() ==> #[trigger] faces[f]@.len() == 4,
        m.num_half_edges <= i32::MAX,
    ensures
        face_walks_ok(
            as_i32s(m.face_edge_indices@),
            as_i32s(m.edge_next_indices@),
            faces.len() as nat,
        ),
        forall|f: int, k: int|
            0 <= f < faces.len() && 0 <= k < 4 ==> he_owner(
                as_i32s(m.face_edge_indices@),
                as_i32s(m.edge_next_indices@),
                faces.len() as nat,
                #[trigger] face_half_edge(m, f, k),
            ) == Some((f as nat, k as nat)),
        forall|h: int|
            0 <= h < m.num_half_edges && #[trigger] m.edge_face_indices@[h] is None ==> he_owner(
                as_i32s(m.face_edge_indices@),
                as_i32s(m.edge_next_indices@),
                faces.len() as nat,
                h,
            ) is None,
{
    lemma_quad_owners_of_parts(m, faces);
}

// ─── writing ─────────────────────────────────────────────────────────
/// An `int_array` of the given numbers at the writer's depth.
pub fn write_int_array(w: &mut KV2Writer, name: &str, data: &Vec<i32>)
    requires
        old(w).depth() < usize::MAX,
    ensures
        final(w).text() == old(w).text() + int_array_text(old(w).depth(), name@, data@),
        final(w).depth() == old(w).depth(),
{
    let mut texts: Vec<String> = Vec::new();
    let mut i: usize = 0;
    while i < data.len()
        invariant
            i <= data.len(),
            texts.len() == i,
            forall|j: int| 0 <= j < i ==> (#[trigger] texts@[j])@ == dec_int(data@[j] as int),
        decreases data.len() - i,
    {
        texts.push(i32_text(data[i]));
        i += 1;
    }
    proof {
        assert(string_views(texts@) =~= int_texts(data@));
    }
    w.write_array(name, "int_array", &texts);
}

/// The first `n` strings of `v`.
fn strings_prefix(v: &Vec<String>, n: usize) -> (r: Vec<String>)
    requires
        n <= v.len(),
    ensures
        string_views(r@) == string_views(v@).take(n as int),
{
    let mut r: Vec<String> = Vec::new();
    let mut i: usize = 0;
    while i < n
        invariant
            i <= n,
            n <= v.len(),
            r.len() == i,
            forall|j: int| 0 <= j < i ==> (#[trigger] r@[j])@ == v@[j]@,
        decreases n - i,
    {
        r.push(v[i].clone());
        i += 1;
    }
    proof {
        assert(string_views(r@) =~= string_views(v@).take(n as int));
    }
    r
}

/// `n` copies of `text`.
fn copies_of(text: &str, n: usize) -> (r: Vec<String>)
    ensures
        string_views(r@) == copies(n as nat, text@),
{
    let mut r: Vec<String> = Vec::new();
    let mut i: usize = 0;
    while i < n
        invariant
            i <= n,
            r.len() == i,
            forall|j: int| 0 <= j < i ==> (#[trigger] r@[j])@ == text@,
        decreases n - i,
    {
        r.push(String::from_str(text));
        i += 1;
    }
    proof {
        assert(string_views(r@) =~= copies(n as nat, text@));
    }
    r
}

/// For each half-edge, the text its owning face has, or `default`.
fn per_half_edge(
    owners: &Vec<Option<(usize, usize)>>,
    per_face: &Vec<String>,
    default: &str,
) -> (r: Vec<String>)
    requires
        forall|h: int|
            0 <= h < owners.len() ==> match #[trigger] owners@[h] {
                Some((f, s)) => f < per_face.len(),
                None => true,
            },
    ensures
        r.len() == owners.len(),
        forall|h: int|
            0 <= h < owners.len() ==> (#[trigger] r@[h])@ == match owners@[h] {
                Some((f, s)) => per_face@[f as int]@,
                None => default@,
            },
{
    let mut r: Vec<String> = Vec::new();
    let mut i: usize = 0;
    while i < owners.len()
        invariant
            i <= owners.len(),
            r.len() == i,
            forall|h: int|
                0 <= h < owners.len() ==> match #[trigger] owners@[h] {
                    Some((f, s)) => f < per_face.len(),
                    None => true,
                },
            forall|h: int|
                0 <= h < i ==> (#[trigger] r@[h])@ == match owners@[h] {
                    Some((f, s)) => per_face@[f as int]@,
                    None => default@,
                },
        decreases owners.len() - i,
    {
        let t = match owners[i] {
            Some((f, _)) => per_face[f].clone(),
            None => String::from_str(default),
        };
        r.push(t);
        i += 1;
    }
    r
}

/// For each half-edge, the texture coordinates of the corner after its
/// slot in its owning face, or `0 0`.
fn texcoords_per_half_edge(owners: &Vec<Option<(usize, usize)>>, uvs: &Vec<Vec<String>>) -> (r: Vec<
    String,
>)
    requires
        forall|h: int|
            0 <= h < owners.len() ==> match #[trigger] owners@[h] {
                Some((f, s)) => s < 4 && f < uvs.len() && (s + 1) % 4 < uvs@[f as int].len(),
                None => true,
            },
    ensures
        r.len() == owners.len(),
        forall|h: int|
            0 <= h < owners.len() ==> (#[trigger] r@[h])@ == match owners@[h] {
                Some((f, s)) => uvs@[f as int]@[((s + 1) % 4) as int]@,
                None => "0 0"@,
            },
{
    let mut r: Vec<String> = Vec::new();
    let mut i: usize = 0;
    while i < owners.len()
        invariant
            i <= owners.len(),
            r.len() == i,
            forall|h: int|
                0 <= h < owners.len() ==> match #[trigger] owners@[h] {
                    Some((f, s)) => s < 4 && f < uvs.len() && (s + 1) % 4 < uvs@[f as int].len(),
                    None => true,
                },
            forall|h: int|
                0 <= h < i ==> (#[trigger] r@[h])@ == match owners@[h] {
                    Some((f, s)) => uvs@[f as int]@[((s + 1) % 4) as int]@,
                    None => "0 0"@,
                },
        decreases owners.len() - i,
    {
        let t = match owners[i] {
            Some((f, slot)) => uvs[f][(slot + 1) % 4].clone(),
            None => String::from_str("0 0"),
        };
        r.push(t);
        i += 1;
    }
    r
}

/// The material index text of each of the first `num_faces` faces.
fn material_texts(inp: &VmapInput) -> (r: Vec<String>)
    requires
        input_ok(*inp),
    ensures
        string_views(r@) == Seq::new(inp.num_faces as nat, |fi: int| material_text(*inp, fi)),
{
    let mut r: Vec<String> = Vec::new();
    let mut fi: usize = 0;
    while fi < inp.num_faces
        invariant
            input_ok(*inp),
            fi <= inp.num_faces,
            r.len() == fi,
            forall|j: int| 0 <= j < fi ==> (#[trigger] r@[j])@ == material_text(*inp, j),
        decreases inp.num_faces - fi,
    {
        let mi = face_material_index(
            &inp.materials,
            &inp.face_quads_texture_names[fi],
            inp.face_quads_block_types[fi].as_str(),
            inp.face_quads_face_dirs[fi].as_str(),
        );
        r.push(usize_text(mi));
        fi += 1;
    }
    proof {
        assert(string_views(r@) =~= Seq::new(
            inp.num_faces as nat,
            |fi: int| material_text(*inp, fi),
        ));
    }
    r
}

/// A stream whose name, standard attribute and semantic are all `name`,
/// with semantic index 0.
fn named_data_stream(
    id: &String,
    name: &str,
    data_state: i32,
    dtype: &str,
    data: Vec<String>,
) -> (r: DataStream)
    ensures
        r@ == named_stream(id@, name@, data_state as int, dtype@, string_views(data@)),
{
    DataStream {
        id: id.clone(),
        name: String::from_str(name),
        standard_attr: String::from_str(name),
        semantic: String::from_str(name),
        sem_idx: 0,
        data_state: data_state,
        dtype: String::from_str(dtype),
        data: data,
    }
}

/// The ten index arrays at depth 0.
#[verifier::spinoff_prover]
fn write_index_arrays(w: &mut KV2Writer, inp: &VmapInput)
    requires
        old(w).depth() == 0,
    ensures
        final(w).text() == old(w).text() + index_arrays_text(*inp),
        final(w).depth() == 0,
{
    let ghost t0 = w.text();
    write_int_array(w, "vertexEdgeIndices", &inp.vertex_edge_indices);
    let ghost mut acc = int_array_text(0, "vertexEdgeIndices"@, inp.vertex_edge_indices@);
    write_int_array(w, "vertexDataIndices", &inp.vertex_data_indices);
    proof {
        let p = int_array_text(0, "vertexDataIndices"@, inp.vertex_data_indices@);
        vstd::seq_lib::lemma_concat_associative(t0, acc, p);
        acc = acc + p;
    }
    write_int_array(w, "edgeVertexIndices", &inp.edge_vertex_indices);
    proof {
        let p = int_array_text(0, "edgeVertexIndices"@, inp.edge_vertex_indices@);
        vstd::seq_lib::lemma_concat_associative(t0, acc, p);
        acc = acc + p;
    }
    write_int_array(w, "edgeOppositeIndices", &inp.edge_opposite_indices);
    proof {
        let p = int_array_text(0, "edgeOppositeIndices"@, inp.edge_opposite_indices@);
        vstd::seq_lib::lemma_concat_associative(t0, acc, p);
        acc = acc + p;
    }
    write_int_array(w, "edgeNextIndices", &inp.edge_next_indices);
    proof {
        let p = int_array_text(0, "edgeNextIndices"@, inp.edge_next_indices@);
        vstd::seq_lib::lemma_concat_associative(t0, acc, p);
        acc = acc + p;
    }
    write_int_array(w, "edgeFaceIndices", &inp.edge_face_indices);
    proof {
        let p = int_array_text(0, "edgeFaceIndices"@, inp.edge_face_indices@);
        vstd::seq_lib::lemma_concat_associative(t0, acc, p);
        acc = acc + p;
    }
    write_int_array(w, "edgeDataIndices", &inp.edge_data_indices);
    proof {
        let p = int_array_text(0, "edgeDataIndices"@, inp.edge_data_indices@);
        vstd::seq_lib::lemma_concat_associative(t0, acc, p);
        acc = acc + p;
    }
    write_int_array(w, "edgeVertexDataIndices", &inp.edge_vertex_data_indices);
    proof {
        let p = int_array_text(0, "edgeVertexDataIndices"@, inp.edge_vertex_data_indices@);
        vstd::seq_lib::lemma_concat_associative(t0, acc, p);
        acc = acc + p;
    }
    write_int_array(w, "faceEdgeIndices", &inp.face_edge_indices);
    proof {
        let p = int_array_text(0, "faceEdgeIndices"@, inp.face_edge_indices@);
        vstd::seq_lib::lemma_concat_associative(t0, acc, p);
        acc = acc + p;
    }
    write_int_array(w, "faceDataIndices", &inp.face_data_indices);
    proof {
        let p = int_array_text(0, "faceDataIndices"@, inp.face_data_indices@);
        vstd::seq_lib::lemma_concat_associative(t0, acc, p);
        acc = acc + p;
        assert(acc == index_arrays_text(*inp));
    }
}

/// The empty `subdivisionData` element at depth 0.
fn write_subdivision_data(w: &mut KV2Writer, id: &str)
    requires
        old(w).depth() == 0,
    ensures
        final(w).text() == old(w).text() + subdivision_text(id@),
        final(w).depth() == 0,
{
    let ghost t0 = w.text();
    w.begin("\"subdivisionData\" \"CDmePolygonMeshSubdivisionData\"");
    w.prop("id", "elementid", id);
    let ghost t1 = w.text();
    w.begin_array("subdivisionLevels", "int_array");
    w.end_array();
    let ghost t2 = w.text();
    w.begin_array("streams", "element_array");
    w.end_array();
    let ghost t3 = w.text();
    w.end();
    proof {
        let a = array_text(1, "subdivisionLevels"@, "int_array"@, Seq::empty());
        let b = array_text(1, "streams"@, "element_array"@, Seq::empty());
        assert(t2 =~= t1 + a);
        assert(t3 =~= t2 + b);
        let head = line_text(0, "\"subdivisionData\" \"CDmePolygonMeshSubdivisionData\""@)
            + line_text(0, "{"@) + prop_text(1, "id"@, "elementid"@, id@);
        assert(t1 =~= t0 + head);
        assert(w.text() =~= t0 + (head + a + b + line_text(0, "}"@)));
    }
}

/// The `vertexData` element and a blank line, at depth 0.
#[verifier::spinoff_prover]
fn write_vertex_data(w: &mut KV2Writer, inp: &VmapInput, ids: &Vec<String>)
    requires
        old(w).depth() == 0,
        ids.len() == 16,
    ensures
        final(w).text() == old(w).text() + vertex_data_text(*inp, string_views(ids@)),
        final(w).depth() == 0,
{
    let ghost idv = string_views(ids@);
    let ghost t0 = w.text();
    let positions = strings_prefix(&inp.vertex_positions, inp.vertex_positions.len());
    let mut streams: Vec<DataStream> = Vec::new();
    streams.push(named_data_stream(&ids[1], "position", 3, "vector3_array", positions));
    w.write_data_array("vertexData", ids[0].as_str(), inp.num_vertices, &streams);
    w.blank();
    proof {
        let pv = string_views(inp.vertex_positions@);
        assert(pv.take(pv.len() as int) =~= pv);
        assert(stream_views(streams@) =~= seq![
            named_stream(idv[1], "position"@, 3, "vector3_array"@, pv),
        ]);
        let p = data_array_text(
            0,
            "vertexData"@,
            idv[0],
            inp.num_vertices as nat,
            stream_views(streams@),
        );
        vstd::seq_lib::lemma_concat_associative(t0, p, "\n"@);
    }
}

/// The texture coordinates, normal and tangent texts of every half-edge.
#[verifier::spinoff_prover]
fn half_edge_texts(inp: &VmapInput) -> (r: (Vec<String>, Vec<String>, Vec<String>))
    requires
        input_ok(*inp),
    ensures
        string_views(r.0@) == Seq::new(inp.num_half_edges as nat, |h: int| texcoord_text(*inp, h)),
        string_views(r.1@) == Seq::new(inp.num_half_edges as nat, |h: int| normal_text(*inp, h)),
        string_views(r.2@) == Seq::new(inp.num_half_edges as nat, |h: int| tangent_text(*inp, h)),
{
    let ghost fei = inp.face_edge_indices@;
    let ghost eni = inp.edge_next_indices@;
    let nhe = inp.num_half_edges;
    let owners = face_half_edge_owners(
        &inp.face_edge_indices,
        &inp.edge_next_indices,
        inp.num_faces,
        nhe,
    );
    proof {
        assert forall|h: int| 0 <= h < owners.len() implies match #[trigger] owners@[h] {
            Some((f, s)) => s < 4 && f < inp.face_texcoords.len() && (s + 1) % 4
                < inp.face_texcoords@[f as int].len() && f < inp.face_normals.len() && f
                < inp.face_tangents.len(),
            None => true,
        } by {
            lemma_he_owner_bounds(fei, eni, inp.num_faces as nat, h);
            assert(owner_view(owners@[h]) == owner(*inp, h));
        }
    }
    let texcoords = texcoords_per_half_edge(&owners, &inp.face_texcoords);
    let normals = per_half_edge(&owners, &inp.face_normals, "0 0 0");
    let tangents = per_half_edge(&owners, &inp.face_tangents, "0 0 0 0");
    proof {
        assert forall|h: int| 0 <= h < nhe implies (#[trigger] texcoords@[h])@ == texcoord_text(
            *inp,
            h,
        ) && normals@[h]@ == normal_text(*inp, h) && tangents@[h]@ == tangent_text(*inp, h) by {
            assert(owner_view(owners@[h]) == owner(*inp, h));
        }
        assert(string_views(texcoords@) =~= Seq::new(
            nhe as nat,
            |h: int| texcoord_text(*inp, h),
        ));
        assert(string_views(normals@) =~= Seq::new(nhe as nat, |h: int| normal_text(*inp, h)));
        assert(string_views(tangents@) =~= Seq::new(nhe as nat, |h: int| tangent_text(*inp, h)));
    }
    (texcoords, normals, tangents)
}

/// The `faceVertexData` element and a blank line, at depth 0.
#[verifier::spinoff_prover]
fn write_face_vertex_data(w: &mut KV2Writer, inp: &VmapInput, ids: &Vec<String>)
    requires
        old(w).depth() == 0,
        ids.len() == 16,
        input_ok(*inp),
    ensures
        final(w).text() == old(w).text() + face_vertex_data_text(*inp, string_views(ids@)),
        final(w).depth() == 0,
{
    let ghost idv = string_views(ids@);
    let ghost t0 = w.text();
    let nhe = inp.num_half_edges;
    let (texcoords, normals, tangents) = half_edge_texts(inp);
    let mut streams: Vec<DataStream> = Vec::new();
    streams.push(named_data_stream(&ids[3], "texcoord", 1, "vector2_array", texcoords));
    streams.push(named_data_stream(&ids[4], "normal", 1, "vector3_array", normals));
    streams.push(named_data_stream(&ids[5], "tangent", 1, "vector4_array", tangents));
    w.write_data_array("faceVertexData", ids[2].as_str(), nhe, &streams);
    w.blank();
    proof {
        let n = nhe as nat;
        assert(stream_views(streams@) =~= seq![
            named_stream(
                idv[3],
                "texcoord"@,
                1,
                "vector2_array"@,
                Seq::new(n, |h: int| texcoord_text(*inp, h)),
            ),
            named_stream(
                idv[4],
                "normal"@,
                1,
                "vector3_array"@,
                Seq::new(n, |h: int| normal_text(*inp, h)),
            ),
            named_stream(
                idv[5],
                "tangent"@,
                1,
                "vector4_array"@,
                Seq::new(n, |h: int| tangent_text(*inp, h)),
            ),
        ]);
        let p = data_array_text(0, "faceVertexData"@, idv[2], n, stream_views(streams@));
        vstd::seq_lib::lemma_concat_associative(t0, p, "\n"@);
    }
}

/// The `edgeData` element and a blank line, at depth 0.
#[verifier::spinoff_prover]
fn write_edge_data(w: &mut KV2Writer, inp: &VmapInput, ids: &Vec<String>)
    requires
        old(w).depth() == 0,
        ids.len() == 16,
    ensures
        final(w).text() == old(w).text() + edge_data_text(*inp, string_views(ids@)),
        final(w).depth() == 0,
{
    let ghost idv = string_views(ids@);
    let ghost t0 = w.text();
    let nge = inp.num_geometric_edges;
    let edge_flags = copies_of("0", nge);
    let mut streams: Vec<DataStream> = Vec::new();
    streams.push(named_data_stream(&ids[7], "flags", 3, "int_array", edge_flags));
    w.write_data_array("edgeData", ids[6].as_str(), nge, &streams);
    w.blank();
    proof {
        let n = nge as nat;
        assert(stream_views(streams@) =~= seq![
            named_stream(idv[7], "flags"@, 3, "int_array"@, copies(n, "0"@)),
        ]);
        let p = data_array_text(0, "edgeData"@, idv[6], n, stream_views(streams@));
        vstd::seq_lib::lemma_concat_associative(t0, p, "\n"@);
    }
}

/// The `faceData` element and a blank line, at depth 0.
#[verifier::spinoff_prover]
fn write_face_data(w: &mut KV2Writer, inp: &VmapInput, ids: &Vec<String>)
    requires
        old(w).depth() == 0,
        ids.len() == 16,
        input_ok(*inp),
    ensures
        final(w).text() == old(w).text() + face_data_text(*inp, string_views(ids@)),
        final(w).depth() == 0,
{
    let ghost idv = string_views(ids@);
    let ghost t0 = w.text();
    let nf = inp.num_faces;
    let mut scale_pair = inp.texture_scale.clone();
    scale_pair.append(" ");
    scale_pair.append(inp.texture_scale.as_str());
    let tex_scales = copies_of(scale_pair.as_str(), nf);
    let axis_u = strings_prefix(&inp.face_axes_u, nf);
    let axis_v = strings_prefix(&inp.face_axes_v, nf);
    let mat_indices = material_texts(inp);
    let face_flags = copies_of("0", nf);
    let lightmap = copies_of("0", nf);
    let mut streams: Vec<DataStream> = Vec::new();
    streams.push(named_data_stream(&ids[9], "textureScale", 0, "vector2_array", tex_scales));
    streams.push(named_data_stream(&ids[10], "textureAxisU", 0, "vector4_array", axis_u));
    streams.push(named_data_stream(&ids[11], "textureAxisV", 0, "vector4_array", axis_v));
    streams.push(named_data_stream(&ids[12], "materialindex", 8, "int_array", mat_indices));
    streams.push(named_data_stream(&ids[13], "flags", 3, "int_array", face_flags));
    streams.push(named_data_stream(&ids[14], "lightmapScaleBias", 1, "int_array", lightmap));
    w.write_data_array("faceData", ids[8].as_str(), nf, &streams);
    w.blank();
    proof {
        let n = nf as nat;
        let ts = inp.texture_scale@;
        assert(stream_views(streams@) =~= seq![
            named_stream(idv[9], "textureScale"@, 0, "vector2_array"@, copies(n, ts + " "@ + ts)),
            named_stream(
                idv[10],
                "textureAxisU"@,
                0,
                "vector4_array"@,
                string_views(inp.face_axes_u@).take(n as int),
            ),
            named_stream(
                idv[11],
                "textureAxisV"@,
                0,
                "vector4_array"@,
                string_views(inp.face_axes_v@).take(n as int),
            ),
            named_stream(
                idv[12],
                "materialindex"@,
                8,
                "int_array"@,
                Seq::new(n, |fi: int| material_text(*inp, fi)),
            ),
            named_stream(idv[13], "flags"@, 3, "int_array"@, copies(n, "0"@)),
            named_stream(idv[14], "lightmapScaleBias"@, 1, "int_array"@, copies(n, "0"@)),
        ]);
        let p = data_array_text(0, "faceData"@, idv[8], n, stream_views(streams@));
        vstd::seq_lib::lemma_concat_associative(t0, p, "\n"@);
    }
}

/// The whole mesh block, with the given ids for its elements in the
/// order they appear.
#[verifier::spinoff_prover]
pub fn write_vmap_string_with_ids(inp: &VmapInput, ids: &Vec<String>) -> (r: String)
    requires
        input_ok(*inp),
        ids.len() == 16,
    ensures
        r@ == vmap_text(*inp, string_views(ids@)),
{
    let ghost idv = string_views(ids@);
    let nhe = inp.num_half_edges;
    let nf = inp.num_faces;
    let cap = nhe.wrapping_mul(200).wrapping_add(nf.wrapping_mul(300)).wrapping_add(4096);
    let mut w = KV2Writer::new(cap);
    write_index_arrays(&mut w, inp);
    let ghost mut acc = index_arrays_text(*inp);
    proof {
        assert(w.text() =~= acc);
    }
    w.write_array("materials", "string_array", &inp.materials);
    proof {
        acc = acc + materials_text(*inp);
    }
    write_vertex_data(&mut w, inp, ids);
    proof {
        acc = acc + vertex_data_text(*inp, idv);
    }
    write_face_vertex_data(&mut w, inp, ids);
    proof {
        acc = acc + face_vertex_data_text(*inp, idv);
    }
    write_edge_data(&mut w, inp, ids);
    proof {
        acc = acc + edge_data_text(*inp, idv);
    }
    write_face_data(&mut w, inp, ids);
    proof {
        acc = acc + face_data_text(*inp, idv);
    }
    write_subdivision_data(&mut w, ids[15].as_str());
    proof {
        acc = acc + subdivision_text(idv[15]);
        reveal(vmap_text);
        assert(acc == vmap_text(*inp, idv));
    }
    w.finish()
}

// ─── element ids ─────────────────────────────────────────────────────
/// A lowercase hexadecimal digit.
pub open spec fn is_lower_hex(c: char) -> bool {
    ('0' <= c && c <= '9') || ('a' <= c && c <= 'f')
}

/// The hyphenated lowercase text of a version-4 UUID: 36 characters,
/// `-` at 8, 13, 18 and 23, lowercase hex digits elsewhere, the version
/// digit `4` at 14 and a variant digit `8`, `9`, `a` or `b` at 19.
pub open spec fn is_uuid_v4_text(s: Seq<char>) -> bool {
    &&& s.len() == 36
    &&& forall|i: int|
        0 <= i < 36 ==> if i == 8 || i == 13 || i == 18 || i == 23 {
            #[trigger] s[i] == '-'
        } else {
            is_lower_hex(s[i])
        }
    &&& s[14] == '4'
    &&& (s[19] == '8' || s[19] == '9' || s[19] == 'a' || s[19] == 'b')
}

/// `uuid::Uuid::new_v4()` formatted with `to_string()`: a random
/// version-4 UUID in its hyphenated lowercase form.  Which one comes out
/// is left open.
#[verifier::external_body]
fn uid() -> (s: String)
    ensures
        is_uuid_v4_text(s@),
{
    uuid::Uuid::new_v4().to_string()
}

/// The whole mesh block, with a fresh random UUID for each of its
/// sixteen elements.
#[verifier::spinoff_prover]
pub fn write_vmap_string(inp: &VmapInput) -> (r: String)
    requires
        input_ok(*inp),
    ensures
        exists|ids: Seq<Seq<char>>|
            {
                &&& ids.len() == 16
                &&& forall|i: int| 0 <= i < 16 ==> is_uuid_v4_text(#[trigger] ids[i])
                &&& r@ == vmap_text(*inp, ids)
            },
{
    let mut ids: Vec<String> = Vec::new();
    let mut k: usize = 0;
    while k < 16
        invariant
            k <= 16,
            ids.len() == k,
            forall|j: int| 0 <= j < k ==> is_uuid_v4_text(#[trigger] ids@[j]@),
        decreases 16 - k,
    {
        ids.push(uid());
        k += 1;
    }
    let r = write_vmap_string_with_ids(inp, &ids);
    proof {
        let idv = string_views(ids@);
        assert forall|i: int| 0 <= i < 16 implies is_uuid_v4_text(#[trigger] idv[i]) by {
            assert(idv[i] == ids@[i]@);
        }
        assert(r@ == vmap_text(*inp, idv));
        assert(idv.len() == 16);
    }
    r
}

// ─── laws ────────────────────────────────────────────────────────────
/// Whether `t` occurs in `s` starting at position `i`.
pub open spec fn part_at(s: Seq<char>, t: Seq<char>, i: int) -> bool {
    0 <= i && i + t.len() <= s.len() && s.subrange(i, i + t.len()) == t
}

/// Whether `t` occurs in `s` as a contiguous part.
pub open spec fn has_part(s: Seq<char>, t: Seq<char>) -> bool {
    exists|i: int| #[trigger] part_at(s, t, i)
}

/// The `int_array` written under `name` with the decimal text of each
/// value of `data`, in order.
pub open spec fn named_int_array(name: Seq<char>, data: Seq<i32>) -> Seq<char> {
    array_text(0, name, "int_array"@, Seq::new(data.len(), |i: int| dec_int(data[i] as int)))
}

proof fn lemma_part_self(t: Seq<char>)
    ensures
        has_part(t, t),
{
    assert(t.subrange(0, t.len() as int) =~= t);
    assert(part_at(t, t, 0));
}

proof fn lemma_part_left(a: Seq<char>, b: Seq<char>, t: Seq<char>)
    requires
        has_part(a, t),
    ensures
        has_part(a + b, t),
{
    let i = choose|i: int| #[trigger] part_at(a, t, i);
    assert((a + b).subrange(i, i + t.len()) =~= a.subrange(i, i + t.len()));
    assert(part_at(a + b, t, i));
}

proof fn lemma_part_right(a: Seq<char>, b: Seq<char>, t: Seq<char>)
    requires
        has_part(b, t),
    ensures
        has_part(a + b, t),
{
    let i = choose|i: int| #[trigger] part_at(b, t, i);
    assert((a + b).subrange(a.len() + i, a.len() + i + t.len()) =~= b.subrange(i, i + t.len()));
    assert(part_at(a + b, t, a.len() + i));
}

proof fn lemma_named_int_array(name: Seq<char>, data: Seq<i32>)
    ensures
        int_array_text(0, name, data) == named_int_array(name, data),
{
    assert(int_texts(data) =~= Seq::new(data.len(), |i: int| dec_int(data[i] as int)));
}

/// Each index array of the mesh text carries the input field of its name:
/// the text holds, under each of the ten names, the `int_array` of the
/// decimal values of that field, in order.
pub proof fn lemma_index_arrays_named(inp: VmapInput, ids: Seq<Seq<char>>)
    ensures
        has_part(vmap_text(inp, ids), named_int_array("vertexEdgeIndices"@, inp.vertex_edge_indices@)),
        has_part(vmap_text(inp, ids), named_int_array("vertexDataIndices"@, inp.vertex_data_indices@)),
        has_part(vmap_text(inp, ids), named_int_array("edgeVertexIndices"@, inp.edge_vertex_indices@)),
        has_part(vmap_text(inp, ids), named_int_array("edgeOppositeIndices"@, inp.edge_opposite_indices@)),
        has_part(vmap_text(inp, ids), named_int_array("edgeNextIndices"@, inp.edge_next_indices@)),
        has_part(vmap_text(inp, ids), named_int_array("edgeFaceIndices"@, inp.edge_face_indices@)),
        has_part(vmap_text(inp, ids), named_int_array("edgeDataIndices"@, inp.edge_data_indices@)),
        has_part(vmap_text(inp, ids), named_int_array("edgeVertexDataIndices"@, inp.edge_vertex_data_indices@)),
        has_part(vmap_text(inp, ids), named_int_array("faceEdgeIndices"@, inp.face_edge_indices@)),
        has_part(vmap_text(inp, ids), named_int_array("faceDataIndices"@, inp.face_data_indices@)),
{
    reveal(vmap_text);
    let a0 = int_array_text(0, "vertexEdgeIndices"@, inp.vertex_edge_indices@);
    let a1 = int_array_text(0, "vertexDataIndices"@, inp.vertex_data_indices@);
    let a2 = int_array_text(0, "edgeVertexIndices"@, inp.edge_vertex_indices@);
    let a3 = int_array_text(0, "edgeOppositeIndices"@, inp.edge_opposite_indices@);
    let a4 = int_array_text(0, "edgeNextIndices"@, inp.edge_next_indices@);
    let a5 = int_array_text(0, "edgeFaceIndices"@, inp.edge_face_indices@);
    let a6 = int_array_text(0, "edgeDataIndices"@, inp.edge_data_indices@);
    let a7 = int_array_text(0, "edgeVertexDataIndices"@, inp.edge_vertex_data_indices@);
    let a8 = int_array_text(0, "faceEdgeIndices"@, inp.face_edge_indices@);
    let a9 = int_array_text(0, "faceDataIndices"@, inp.face_data_indices@);
    let idx = index_arrays_text(inp);
    assert(idx == a0 + a1 + a2 + a3 + a4 + a5 + a6 + a7 + a8 + a9);
    let m = materials_text(inp);
    let v = vertex_data_text(inp, ids);
    let fv = face_vertex_data_text(inp, ids);
    let ed = edge_data_text(inp, ids);
    let fd = face_data_text(inp, ids);
    let sd = subdivision_text(ids[15]);
    assert(vmap_text(inp, ids) == idx + m + v + fv + ed + fd + sd);
    assert(has_part(idx, a0)) by {
        lemma_part_self(a0);
        lemma_part_left(a0, a1, a0);
        lemma_part_left(a0 + a1, a2, a0);
        lemma_part_left(a0 + a1 + a2, a3, a0);
        lemma_part_left(a0 + a1 + a2 + a3, a4, a0);
        lemma_part_left(a0 + a1 + a2 + a3 + a4, a5, a0);
        lemma_part_left(a0 + a1 + a2 + a3 + a4 + a5, a6, a0);
        lemma_part_left(a0 + a1 + a2 + a3 + a4 + a5 + a6, a7, a0);
        lemma_part_left(a0 + a1 + a2 + a3 + a4 + a5 + a6 + a7, a8, a0);
        lemma_part_left(a0 + a1 + a2 + a3 + a4 + a5 + a6 + a7 + a8, a9, a0);
    }
    assert(has_part(vmap_text(inp, ids), a0)) by {
        lemma_part_left(idx, m, a0);
        lemma_part_left(idx + m, v, a0);
        lemma_part_left(idx + m + v, fv, a0);
        lemma_part_left(idx + m + v + fv, ed, a0);
        lemma_part_left(idx + m + v + fv + ed, fd, a0);
        lemma_part_left(idx + m + v + fv + ed + fd, sd, a0);
    }
    assert(has_part(idx, a1)) by {
        lemma_part_self(a1);
        lemma_part_right(a0, a1, a1);
        lemma_part_left(a0 + a1, a2, a1);
        lemma_part_left(a0 + a1 + a2, a3, a1);
        lemma_part_left(a0 + a1 + a2 + a3, a4, a1);
        lemma_part_left(a0 + a1 + a2 + a3 + a4, a5, a1);
        lemma_part_left(a0 + a1 + a2 + a3 + a4 + a5, a6, a1);
        lemma_part_left(a0 + a1 + a2 + a3 + a4 + a5 + a6, a7, a1);
        lemma_part_left(a0 + a1 + a2 + a3 + a4 + a5 + a6 + a7, a8, a1);
        lemma_part_left(a0 + a1 + a2 + a3 + a4 + a5 + a6 + a7 + a8, a9, a1);
    }
    assert(has_part(vmap_text(inp, ids), a1)) by {
        lemma_part_left(idx, m, a1);
        lemma_part_left(idx + m, v, a1);
        lemma_part_left(idx + m + v, fv, a1);
        lemma_part_left(idx + m + v + fv, ed, a1);
        lemma_part_left(idx + m + v + fv + ed, fd, a1);
        lemma_part_left(idx + m + v + fv + ed + fd, sd, a1);
    }
    assert(has_part(idx, a2)) by {
        lemma_part_self(a2);
        lemma_part_right(a0 + a1, a2, a2);
        lemma_part_left(a0 + a1 + a2, a3, a2);
        lemma_part_left(a0 + a1 + a2 + a3, a4, a2);
        lemma_part_left(a0 + a1 + a2 + a3 + a4, a5, a2);
        lemma_part_left(a0 + a1 + a2 + a3 + a4 + a5, a6, a2);
        lemma_part_left(a0 + a1 + a2 + a3 + a4 + a5 + a6, a7, a2);
        lemma_part_left(a0 + a1 + a2 + a3 + a4 + a5 + a6 + a7, a8, a2);
        lemma_part_left(a0 + a1 + a2 + a3 + a4 + a5 + a6 + a7 + a8, a9, a2);
    }
    assert(has_part(vmap_text(inp, ids), a2)) by {
        lemma_part_left(idx, m, a2);
        lemma_part_left(idx + m, v, a2);
        lemma_part_left(idx + m + v, fv, a2);
        lemma_part_left(idx + m + v + fv, ed, a2);
        lemma_part_left(idx + m + v + fv + ed, fd, a2);
        lemma_part_left(idx + m + v + fv + ed + fd, sd, a2);
    }
    assert(has_part(idx, a3)) by {
        lemma_part_self(a3);
        lemma_part_right(a0 + a1 + a2, a3, a3);
        lemma_part_left(a0 + a1 + a2 + a3, a4, a3);
        lemma_part_left(a0 + a1 + a2 + a3 + a4, a5, a3);
        lemma_part_left(a0 + a1 + a2 + a3 + a4 + a5, a6, a3);
        lemma_part_left(a0 + a1 + a2 + a3 + a4 + a5 + a6, a7, a3);
        lemma_part_left(a0 + a1 + a2 + a3 + a4 + a5 + a6 + a7, a8, a3);
        lemma_part_left(a0 + a1 + a2 + a3 + a4 + a5 + a6 + a7 + a8, a9, a3);
    }
    assert(has_part(vmap_text(inp, ids), a3)) by {
        lemma_part_left(idx, m, a3);
        lemma_part_left(idx + m, v, a3);
        lemma_part_left(idx + m + v, fv, a3);
        lemma_part_left(idx + m + v + fv, ed, a3);
        lemma_part_left(idx + m + v + fv + ed, fd, a3);
        lemma_part_left(idx + m + v + fv + ed + fd, sd, a3);
    }
    assert(has_part(idx, a4)) by {
        lemma_part_self(a4);
        lemma_part_right(a0 + a1 + a2 + a3, a4, a4);
        lemma_part_left(a0 + a1 + a2 + a3 + a4, a5, a4);
        lemma_part_left(a0 + a1 + a2 + a3 + a4 + a5, a6, a4);
        lemma_part_left(a0 + a1 + a2 + a3 + a4 + a5 + a6, a7, a4);
        lemma_part_left(a0 + a1 + a2 + a3 + a4 + a5 + a6 + a7, a8, a4);
        lemma_part_left(a0 + a1 + a2 + a3 + a4 + a5 + a6 + a7 + a8, a9, a4);
    }
    assert(has_part(vmap_text(inp, ids), a4)) by {
        lemma_part_left(idx, m, a4);
        lemma_part_left(idx + m, v, a4);
        lemma_part_left(idx + m + v, fv, a4);
        lemma_part_left(idx + m + v + fv, ed, a4);
        lemma_part_left(idx + m + v + fv + ed, fd, a4);
        lemma_part_left(idx + m + v + fv + ed + fd, sd, a4);
    }
    assert(has_part(idx, a5)) by {
        lemma_part_self(a5);
        lemma_part_right(a0 + a1 + a2 + a3 + a4, a5, a5);
        lemma_part_left(a0 + a1 + a2 + a3 + a4 + a5, a6, a5);
        lemma_part_left(a0 + a1 + a2 + a3 + a4 + a5 + a6, a7, a5);
        lemma_part_left(a0 + a1 + a2 + a3 + a4 + a5 + a6 + a7, a8, a5);
        lemma_part_left(a0 + a1 + a2 + a3 + a4 + a5 + a6 + a7 + a8, a9, a5);
    }
    assert(has_part(vmap_text(inp, ids), a5)) by {
        lemma_part_left(idx, m, a5);
        lemma_part_left(idx + m, v, a5);
        lemma_part_left(idx + m + v, fv, a5);
        lemma_part_left(idx + m + v + fv, ed, a5);
        lemma_part_left(idx + m + v + fv + ed, fd, a5);
        lemma_part_left(idx + m + v + fv + ed + fd, sd, a5);
    }
    assert(has_part(idx, a6)) by {
        lemma_part_self(a6);
        lemma_part_right(a0 + a1 + a2 + a3 + a4 + a5, a6, a6);
        lemma_part_left(a0 + a1 + a2 + a3 + a4 + a5 + a6, a7, a6);
        lemma_part_left(a0 + a1 + a2 + a3 + a4 + a5 + a6 + a7, a8, a6);
        lemma_part_left(a0 + a1 + a2 + a3 + a4 + a5 + a6 + a7 + a8, a9, a6);
    }
    assert(has_part(vmap_text(inp, ids), a6)) by {
        lemma_part_left(idx, m, a6);
        lemma_part_left(idx + m, v, a6);
        lemma_part_left(idx + m + v, fv, a6);
        lemma_part_left(idx + m + v + fv, ed, a6);
        lemma_part_left(idx + m + v + fv + ed, fd, a6);
        lemma_part_left(idx + m + v + fv + ed + fd, sd, a6);
    }
    assert(has_part(idx, a7)) by {
        lemma_part_self(a7);
        lemma_part_right(a0 + a1 + a2 + a3 + a4 + a5 + a6, a7, a7);
        lemma_part_left(a0 + a1 + a2 + a3 + a4 + a5 + a6 + a7, a8, a7);
        lemma_part_left(a0 + a1 + a2 + a3 + a4 + a5 + a6 + a7 + a8, a9, a7);
    }
    assert(has_part(vmap_text(inp, ids), a7)) by {
        lemma_part_left(idx, m, a7);
        lemma_part_left(idx + m, v, a7);
        lemma_part_left(idx + m + v, fv, a7);
        lemma_part_left(idx + m + v + fv, ed, a7);
        lemma_part_left(idx + m + v + fv + ed, fd, a7);
        lemma_part_left(idx + m + v + fv + ed + fd, sd, a7);
    }
    assert(has_part(idx, a8)) by {
        lemma_part_self(a8);
        lemma_part_right(a0 + a1 + a2 + a3 + a4 + a5 + a6 + a7, a8, a8);
        lemma_part_left(a0 + a1 + a2 + a3 + a4 + a5 + a6 + a7 + a8, a9, a8);
    }
    assert(has_part(vmap_text(inp, ids), a8)) by {
        lemma_part_left(idx, m, a8);
        lemma_part_left(idx + m, v, a8);
        lemma_part_left(idx + m + v, fv, a8);
        lemma_part_left(idx + m + v + fv, ed, a8);
        lemma_part_left(idx + m + v + fv + ed, fd, a8);
        lemma_part_left(idx + m + v + fv + ed + fd, sd, a8);
    }
    assert(has_part(idx, a9)) by {
        lemma_part_self(a9);
        lemma_part_right(a0 + a1 + a2 + a3 + a4 + a5 + a6 + a7 + a8, a9, a9);
    }
    assert(has_part(vmap_text(inp, ids), a9)) by {
        lemma_part_left(idx, m, a9);
        lemma_part_left(idx + m, v, a9);
        lemma_part_left(idx + m + v, fv, a9);
        lemma_part_left(idx + m + v + fv, ed, a9);
        lemma_part_left(idx + m + v + fv + ed, fd, a9);
        lemma_part_left(idx + m + v + fv + ed + fd, sd, a9);
    }
    lemma_named_int_array("vertexEdgeIndices"@, inp.vertex_edge_indices@);
    lemma_named_int_array("vertexDataIndices"@, inp.vertex_data_indices@);
    lemma_named_int_array("edgeVertexIndices"@, inp.edge_vertex_indices@);
    lemma_named_int_array("edgeOppositeIndices"@, inp.edge_opposite_indices@);
    lemma_named_int_array("edgeNextIndices"@, inp.edge_next_indices@);
    lemma_named_int_array("edgeFaceIndices"@, inp.edge_face_indices@);
    lemma_named_int_array("edgeDataIndices"@, inp.edge_data_indices@);
    lemma_named_int_array("edgeVertexDataIndices"@, inp.edge_vertex_data_indices@);
    lemma_named_int_array("faceEdgeIndices"@, inp.face_edge_indices@);
    lemma_named_int_array("faceDataIndices"@, inp.face_data_indices@);
}

/// The smallest index of a material that ends with `suffix`.
pub open spec fn is_first_ending(mats: Seq<Seq<char>>, suffix: Seq<char>, r: int) -> bool {
    &&& 0 <= r < mats.len()
    &&& ends_with(mats[r], suffix)
    &&& forall|q: int| 0 <= q < r ==> !ends_with(#[trigger] mats[q], suffix)
}

/// Which material a face gets: where it has a texture name `t` and some
/// material's file ends with `/t.vmat`, the first such material (index 0
/// included); otherwise, where some material's file ends with
/// `/b.vmat` for the block's base name `b`, the first such; otherwise 0.
pub proof fn lemma_material_choice(mats: Seq<Seq<char>>, texture_name: Option<Seq<char>>, block_type: Seq<char>, face_dir: Seq<char>)
    ensures
        ({
            let r = material_index(mats, texture_name, block_type, face_dir) as int;
            let base = block_base_name(block_type);
            let by_tex = texture_name matches Some(t) && exists|i: int| 0 <= i < mats.len() && ends_with(#[trigger] mats[i], "/"@ + t + ".vmat"@);
            let by_base = exists|i: int| 0 <= i < mats.len() && ends_with(#[trigger] mats[i], "/"@ + base + ".vmat"@);
            &&& (by_tex ==> is_first_ending(mats, "/"@ + texture_name->0 + ".vmat"@, r))
            &&& (!by_tex && by_base ==> is_first_ending(mats, "/"@ + base + ".vmat"@, r))
            &&& (!by_tex && !by_base ==> r == 0)
        }),
{
    let base = block_base_name(block_type);
    lemma_first_material_from(mats, vmat_suffix(base), 0);
    if let Some(t) = texture_name {
        lemma_first_material_from(mats, vmat_suffix(t), 0);
    }
}

} // verus!
