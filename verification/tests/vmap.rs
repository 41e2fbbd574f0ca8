use mctocs_rust::halfedge::build_halfedge_mesh;
use mctocs_rust::kv2::KV2Writer;
use mctocs_rust::vmap::{
    face_half_edge_owners, face_material_index, get_texture_name_for_face, write_int_array,
    write_vmap_string, write_vmap_string_with_ids, VmapInput,
};

fn strings(v: &[&str]) -> Vec<String> {
    v.iter().map(|s| s.to_string()).collect()
}

fn ids() -> Vec<String> {
    (0..16).map(|i| format!("id{}", i)).collect()
}

fn empty_input() -> VmapInput {
    VmapInput {
        vertex_positions: Vec::new(),
        vertex_edge_indices: Vec::new(),
        vertex_data_indices: Vec::new(),
        edge_vertex_indices: Vec::new(),
        edge_opposite_indices: Vec::new(),
        edge_next_indices: Vec::new(),
        edge_face_indices: Vec::new(),
        edge_data_indices: Vec::new(),
        edge_vertex_data_indices: Vec::new(),
        face_edge_indices: Vec::new(),
        face_data_indices: Vec::new(),
        face_normals: Vec::new(),
        face_texcoords: Vec::new(),
        face_tangents: Vec::new(),
        face_axes_u: Vec::new(),
        face_axes_v: Vec::new(),
        face_quads_block_types: Vec::new(),
        face_quads_face_dirs: Vec::new(),
        face_quads_texture_names: Vec::new(),
        materials: Vec::new(),
        texture_scale: "0.125".to_string(),
        num_vertices: 0,
        num_half_edges: 0,
        num_geometric_edges: 0,
        num_faces: 0,
    }
}

fn to_i32(v: &[usize]) -> Vec<i32> {
    v.iter().map(|&x| x as i32).collect()
}

fn opt_to_i32(v: &[Option<usize>]) -> Vec<i32> {
    v.iter().map(|x| x.map_or(-1, |y| y as i32)).collect()
}

/// Two unit squares side by side, with per-face texts that name their
/// face and corner.
fn two_quad_input() -> VmapInput {
    let faces: Vec<Vec<(i64, i64, i64)>> = vec![
        vec![(0, 0, 0), (1, 0, 0), (1, 1, 0), (0, 1, 0)],
        vec![(1, 0, 0), (2, 0, 0), (2, 1, 0), (1, 1, 0)],
    ];
    let m = build_halfedge_mesh(&faces);
    VmapInput {
        vertex_positions: (0..m.num_vertices).map(|v| format!("p{}", v)).collect(),
        vertex_edge_indices: opt_to_i32(&m.vertex_edge_indices),
        vertex_data_indices: to_i32(&m.vertex_data_indices),
        edge_vertex_indices: to_i32(&m.edge_vertex_indices),
        edge_opposite_indices: to_i32(&m.edge_opposite_indices),
        edge_next_indices: to_i32(&m.edge_next_indices),
        edge_face_indices: opt_to_i32(&m.edge_face_indices),
        edge_data_indices: to_i32(&m.edge_data_indices),
        edge_vertex_data_indices: to_i32(&m.edge_vertex_data_indices),
        face_edge_indices: to_i32(&m.face_edge_indices),
        face_data_indices: to_i32(&m.face_data_indices),
        face_normals: strings(&["n0", "n1"]),
        face_texcoords: vec![
            strings(&["uv00", "uv01", "uv02", "uv03"]),
            strings(&["uv10", "uv11", "uv12", "uv13"]),
        ],
        face_tangents: strings(&["t0", "t1"]),
        face_axes_u: strings(&["au0", "au1"]),
        face_axes_v: strings(&["av0", "av1"]),
        face_quads_block_types: strings(&["minecraft:stone", "minecraft:oak_slab[type=top]"]),
        face_quads_face_dirs: strings(&["+z", "+z"]),
        face_quads_texture_names: vec![None, Some("oak_planks".to_string())],
        materials: strings(&[
            "materials/x/dirt.vmat",
            "materials/x/stone.vmat",
            "materials/x/oak_planks.vmat",
        ]),
        texture_scale: "0.125".to_string(),
        num_vertices: m.num_vertices,
        num_half_edges: m.num_half_edges,
        num_geometric_edges: m.num_geometric_edges,
        num_faces: m.num_faces,
    }
}

/// The data items of the stream whose name line is `"name" "string" "<name>"`.
fn stream_data(text: &str, name: &str) -> Vec<String> {
    let lines: Vec<&str> = text.lines().collect();
    let key = format!("\"name\" \"string\" \"{}\"", name);
    let at = lines.iter().position(|l| l.trim() == key).expect("stream present");
    let data = at + lines[at..].iter().position(|l| l.trim().starts_with("\"data\"")).unwrap();
    let mut out = Vec::new();
    for l in &lines[data + 2..] {
        let t = l.trim();
        if t == "]" {
            break;
        }
        out.push(t.trim_end_matches(',').trim_matches('"').to_string());
    }
    out
}

#[test]
fn owners_of_two_quads() {
    let inp = two_quad_input();
    let owners = face_half_edge_owners(&inp.face_edge_indices, &inp.edge_next_indices, 2, 14);
    assert_eq!(
        owners,
        vec![
            Some((0, 1)),
            Some((1, 3)),
            Some((0, 0)),
            None,
            Some((0, 2)),
            None,
            Some((0, 3)),
            None,
            Some((1, 0)),
            None,
            Some((1, 1)),
            None,
            Some((1, 2)),
            None
        ]
    );
}

#[test]
fn owners_later_visit_wins() {
    // both faces walk the same cycle; a half-edge index past the count
    // is walked but not recorded
    let fei = vec![0, 0];
    let eni = vec![1, 2, 5, 0, 0, 3];
    let owners = face_half_edge_owners(&fei, &eni, 2, 4);
    assert_eq!(owners, vec![Some((1, 0)), Some((1, 1)), Some((1, 2)), None]);
}

#[test]
fn owners_of_a_short_cycle_take_the_last_slot() {
    let fei = vec![0];
    let eni = vec![1, 0];
    let owners = face_half_edge_owners(&fei, &eni, 1, 2);
    assert_eq!(owners, vec![Some((0, 2)), Some((0, 3))]);
}

#[test]
fn material_by_texture_name_first() {
    let mats = strings(&["a/stone.vmat", "b/oak_planks.vmat", "c/oak_planks.vmat"]);
    let i = face_material_index(&mats, &Some("oak_planks".to_string()), "minecraft:stone", "+x");
    assert_eq!(i, 1);
}

#[test]
fn material_by_block_base_name() {
    let mats = strings(&["a/dirt.vmat", "b/oak_slab.vmat"]);
    let i = face_material_index(&mats, &None, "minecraft:oak_slab[type=top]", "+y");
    assert_eq!(i, 1);
    let i = face_material_index(&mats, &Some("missing".to_string()), "minecraft:oak_slab", "+y");
    assert_eq!(i, 1);
}

#[test]
fn material_suffix_needs_slash_and_extension() {
    let mats = strings(&["xstone.vmat", "stone.vmat", "a/stone.vmatx", "a/stone.vmat"]);
    assert_eq!(face_material_index(&mats, &None, "stone", "+x"), 3);
}

#[test]
fn material_defaults_to_zero() {
    let mats = strings(&["a/dirt.vmat"]);
    assert_eq!(face_material_index(&mats, &None, "minecraft:stone", "+x"), 0);
    assert_eq!(face_material_index(&Vec::new(), &None, "minecraft:stone", "+x"), 0);
}

#[test]
fn texture_for_face_is_base_name() {
    assert_eq!(get_texture_name_for_face("oak_log", "+y"), "oak_log");
}

#[test]
fn int_array_text() {
    let mut w = KV2Writer::new(0);
    write_int_array(&mut w, "idx", &vec![3, -1, 0]);
    assert_eq!(w.finish(), "\"idx\" \"int_array\" \n[\n\t\"3\",\n\t\"-1\",\n\t\"0\"\n]\n");
}

fn stream_text(id: &str, name: &str, state: i32, dtype: &str, data: &[&str], comma: bool) -> String {
    let mut s = String::new();
    s += "\t\t\"CDmePolygonMeshDataStream\"\n\t\t{\n";
    s += &format!("\t\t\t\"id\" \"elementid\" \"{}\"\n", id);
    s += &format!("\t\t\t\"name\" \"string\" \"{}:0\"\n", name);
    s += &format!("\t\t\t\"standardAttributeName\" \"string\" \"{}\"\n", name);
    s += &format!("\t\t\t\"semanticName\" \"string\" \"{}\"\n", name);
    s += "\t\t\t\"semanticIndex\" \"int\" \"0\"\n";
    s += "\t\t\t\"vertexBufferLocation\" \"int\" \"0\"\n";
    s += &format!("\t\t\t\"dataStateFlags\" \"int\" \"{}\"\n", state);
    s += "\t\t\t\"subdivisionBinding\" \"element\" \"\"\n";
    s += &format!("\t\t\t\"data\" \"{}\" \n\t\t\t[\n", dtype);
    for (i, d) in data.iter().enumerate() {
        s += &format!("\t\t\t\t\"{}\"{}\n", d, if i + 1 < data.len() { "," } else { "" });
    }
    s += "\t\t\t]\n";
    s += if comma { "\t\t},\n" } else { "\t\t}\n" };
    s
}

fn array_head(name: &str, id: &str, size: usize) -> String {
    format!(
        "\"{}\" \"CDmePolygonMeshDataArray\"\n{{\n\t\"id\" \"elementid\" \"{}\"\n\t\"size\" \"int\" \"{}\"\n\t\"streams\" \"element_array\" \n\t[\n",
        name, id, size
    )
}

#[test]
fn empty_mesh_text() {
    let text = write_vmap_string_with_ids(&empty_input(), &ids());
    let mut want = String::new();
    for name in [
        "vertexEdgeIndices",
        "vertexDataIndices",
        "edgeVertexIndices",
        "edgeOppositeIndices",
        "edgeNextIndices",
        "edgeFaceIndices",
        "edgeDataIndices",
        "edgeVertexDataIndices",
        "faceEdgeIndices",
        "faceDataIndices",
    ] {
        want += &format!("\"{}\" \"int_array\" \n[\n]\n", name);
    }
    want += "\"materials\" \"string_array\" \n[\n]\n";
    want += &array_head("vertexData", "id0", 0);
    want += &stream_text("id1", "position", 3, "vector3_array", &[], false);
    want += "\t]\n}\n\n";
    want += &array_head("faceVertexData", "id2", 0);
    want += &stream_text("id3", "texcoord", 1, "vector2_array", &[], true);
    want += &stream_text("id4", "normal", 1, "vector3_array", &[], true);
    want += &stream_text("id5", "tangent", 1, "vector4_array", &[], false);
    want += "\t]\n}\n\n";
    want += &array_head("edgeData", "id6", 0);
    want += &stream_text("id7", "flags", 3, "int_array", &[], false);
    want += "\t]\n}\n\n";
    want += &array_head("faceData", "id8", 0);
    want += &stream_text("id9", "textureScale", 0, "vector2_array", &[], true);
    want += &stream_text("id10", "textureAxisU", 0, "vector4_array", &[], true);
    want += &stream_text("id11", "textureAxisV", 0, "vector4_array", &[], true);
    want += &stream_text("id12", "materialindex", 8, "int_array", &[], true);
    want += &stream_text("id13", "flags", 3, "int_array", &[], true);
    want += &stream_text("id14", "lightmapScaleBias", 1, "int_array", &[], false);
    want += "\t]\n}\n\n";
    want += "\"subdivisionData\" \"CDmePolygonMeshSubdivisionData\"\n{\n";
    want += "\t\"id\" \"elementid\" \"id15\"\n";
    want += "\t\"subdivisionLevels\" \"int_array\" \n\t[\n\t]\n";
    want += "\t\"streams\" \"element_array\" \n\t[\n\t]\n";
    want += "}\n";
    assert_eq!(text, want);
}

#[test]
fn counts_and_texts_of_two_quads() {
    let inp = two_quad_input();
    let text = write_vmap_string_with_ids(&inp, &ids());
    assert!(text.starts_with("\"vertexEdgeIndices\" \"int_array\" \n[\n\t\"2\",\n\t\"0\",\n"));
    assert!(text.contains(&array_head("vertexData", "id0", 6)));
    assert!(text.contains(&array_head("faceVertexData", "id2", 14)));
    assert!(text.contains(&array_head("edgeData", "id6", 7)));
    assert!(text.contains(&array_head("faceData", "id8", 2)));
    assert_eq!(stream_data(&text, "position:0"), strings(&["p0", "p1", "p2", "p3", "p4", "p5"]));
    assert_eq!(stream_data(&text, "flags:0").len(), 7);
    assert!(text.ends_with("\t\"streams\" \"element_array\" \n\t[\n\t]\n}\n"));
}

#[test]
fn corner_texts_follow_half_edges() {
    let inp = two_quad_input();
    let text = write_vmap_string_with_ids(&inp, &ids());
    // half-edge h in face f at slot s takes the texture coordinates of
    // corner (s + 1) % 4; boundary half-edges get zeros
    assert_eq!(
        stream_data(&text, "texcoord:0"),
        strings(&[
            "uv02", "uv10", "uv01", "0 0", "uv03", "0 0", "uv00", "0 0", "uv11", "0 0", "uv12",
            "0 0", "uv13", "0 0"
        ])
    );
    assert_eq!(
        stream_data(&text, "normal:0"),
        strings(&[
            "n0", "n1", "n0", "0 0 0", "n0", "0 0 0", "n0", "0 0 0", "n1", "0 0 0", "n1", "0 0 0",
            "n1", "0 0 0"
        ])
    );
    assert_eq!(
        stream_data(&text, "tangent:0"),
        strings(&[
            "t0", "t1", "t0", "0 0 0 0", "t0", "0 0 0 0", "t0", "0 0 0 0", "t1", "0 0 0 0", "t1",
            "0 0 0 0", "t1", "0 0 0 0"
        ])
    );
}

#[test]
fn face_streams_of_two_quads() {
    let inp = two_quad_input();
    let text = write_vmap_string_with_ids(&inp, &ids());
    assert_eq!(stream_data(&text, "textureScale:0"), strings(&["0.125 0.125", "0.125 0.125"]));
    assert_eq!(stream_data(&text, "textureAxisU:0"), strings(&["au0", "au1"]));
    assert_eq!(stream_data(&text, "textureAxisV:0"), strings(&["av0", "av1"]));
    // face 0 finds stone by its base name, face 1 its texture name
    assert_eq!(stream_data(&text, "materialindex:0"), strings(&["1", "2"]));
    assert_eq!(stream_data(&text, "lightmapScaleBias:0"), strings(&["0", "0"]));
}

fn is_uuid_v4(s: &str) -> bool {
    let c: Vec<char> = s.chars().collect();
    c.len() == 36
        && (0..36).all(|i| {
            if i == 8 || i == 13 || i == 18 || i == 23 {
                c[i] == '-'
            } else {
                c[i].is_ascii_digit() || ('a'..='f').contains(&c[i])
            }
        })
        && c[14] == '4'
        && "89ab".contains(c[19])
}

#[test]
fn fresh_ids_are_uuids_in_place() {
    let inp = two_quad_input();
    let text = write_vmap_string(&inp);
    let found: Vec<String> = text
        .lines()
        .filter(|l| l.trim().starts_with("\"id\" \"elementid\""))
        .map(|l| l.trim().trim_start_matches("\"id\" \"elementid\" \"").trim_end_matches('"').to_string())
        .collect();
    assert_eq!(found.len(), 16);
    assert!(found.iter().all(|id| is_uuid_v4(id)));
    let mut distinct = found.clone();
    distinct.sort();
    distinct.dedup();
    assert_eq!(distinct.len(), 16);
    assert_eq!(write_vmap_string_with_ids(&inp, &found), text);
}
