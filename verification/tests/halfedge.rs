use mctocs_rust::halfedge::{build_halfedge_mesh, HalfEdgeTopology};

type Key = (i64, i64, i64);

fn quad(c: [(i64, i64); 4]) -> Vec<Key> {
    c.iter().map(|&(x, y)| (x, y, 0)).collect()
}

fn two_quads() -> Vec<Vec<Key>> {
    vec![
        quad([(0, 0), (1, 0), (1, 1), (0, 1)]),
        quad([(1, 0), (2, 0), (2, 1), (1, 1)]),
    ]
}

/// The structural promises of a half-edge mesh, checked on the arrays.
fn check_structure(m: &HalfEdgeTopology, faces: &[Vec<Key>]) {
    let nhe = m.num_half_edges;
    assert_eq!(nhe % 2, 0);
    assert_eq!(m.num_geometric_edges, nhe / 2);
    assert_eq!(m.num_faces, faces.len());
    for h in 0..nhe {
        let t = m.edge_opposite_indices[h];
        assert_eq!(t, h ^ 1);
        assert_eq!(m.edge_opposite_indices[t], h);
        assert_eq!(m.edge_data_indices[h], h / 2);
        assert_eq!(m.edge_vertex_data_indices[h], h);
        if m.edge_face_indices[h].is_none() {
            assert!(m.edge_face_indices[t].is_some());
        }
    }
    for (f, face) in faces.iter().enumerate() {
        let mut h = m.face_edge_indices[f];
        for k in 0..face.len() {
            assert_eq!(m.edge_face_indices[h], Some(f));
            let end = m.edge_vertex_indices[h];
            let (sf, sk) = m.vertex_sources[end];
            assert_eq!(faces[sf][sk], face[(k + 1) % face.len()]);
            h = m.edge_next_indices[h];
        }
        assert_eq!(h, m.face_edge_indices[f]);
    }
}

#[test]
fn no_faces_no_mesh() {
    let m = build_halfedge_mesh(&Vec::new());
    assert_eq!(m.num_vertices, 0);
    assert_eq!(m.num_half_edges, 0);
    assert_eq!(m.num_faces, 0);
    assert!(m.face_edge_indices.is_empty());
}

#[test]
fn single_quad_has_boundary_twins() {
    let faces = vec![quad([(0, 0), (1, 0), (1, 1), (0, 1)])];
    let m = build_halfedge_mesh(&faces);
    assert_eq!(m.num_vertices, 4);
    assert_eq!(m.num_half_edges, 8);
    assert_eq!(m.num_geometric_edges, 4);
    check_structure(&m, &faces);
    assert_eq!(
        m.edge_face_indices,
        vec![Some(0), None, Some(0), None, Some(0), None, Some(0), None]
    );
    assert_eq!(m.edge_vertex_indices, vec![1, 0, 2, 1, 3, 2, 0, 3]);
    assert_eq!(m.edge_next_indices, vec![2, 7, 4, 1, 6, 3, 0, 5]);
    assert_eq!(m.face_edge_indices, vec![0]);
    assert_eq!(m.vertex_edge_indices, vec![Some(0), Some(1), Some(3), Some(5)]);
    assert_eq!(m.vertex_sources, vec![(0, 0), (0, 1), (0, 2), (0, 3)]);
}

#[test]
fn two_quads_share_an_edge() {
    let faces = two_quads();
    let m = build_halfedge_mesh(&faces);
    assert_eq!(m.num_vertices, 6);
    assert_eq!(m.num_half_edges, 14);
    assert_eq!(m.num_geometric_edges, 7);
    check_structure(&m, &faces);
    assert_eq!(m.vertex_sources, vec![(0, 0), (0, 1), (0, 2), (0, 3), (1, 1), (1, 2)]);
    assert_eq!(m.vertex_edge_indices, vec![Some(2), Some(0), Some(1), Some(5), Some(9), Some(11)]);
    assert_eq!(m.vertex_data_indices, vec![0, 1, 2, 3, 4, 5]);
    assert_eq!(m.edge_vertex_indices, vec![2, 1, 1, 0, 3, 2, 0, 3, 4, 1, 5, 4, 2, 5]);
    assert_eq!(m.edge_next_indices, vec![4, 8, 0, 7, 6, 13, 2, 5, 10, 3, 12, 9, 1, 11]);
    assert_eq!(
        m.edge_face_indices,
        vec![
            Some(0), Some(1), Some(0), None, Some(0), None, Some(0), None,
            Some(1), None, Some(1), None, Some(1), None
        ]
    );
    assert_eq!(m.face_edge_indices, vec![2, 8]);
    assert_eq!(m.face_data_indices, vec![0, 1]);
}

#[test]
fn bowtie_vertex_is_split() {
    // two quads that touch only at (1, 1)
    let faces = vec![
        quad([(0, 0), (1, 0), (1, 1), (0, 1)]),
        quad([(1, 1), (2, 1), (2, 2), (1, 2)]),
    ];
    let m = build_halfedge_mesh(&faces);
    assert_eq!(m.num_vertices, 8);
    assert_eq!(m.num_half_edges, 16);
    check_structure(&m, &faces);
    // the copy of the shared vertex sits where the shared vertex does
    assert_eq!(m.vertex_sources[7], m.vertex_sources[2]);
    assert_eq!(m.vertex_sources[2], (0, 2));
    // half-edges into the shared corner from the second quad's fan
    // point at the copy; those of the first quad keep vertex 2
    assert_eq!(m.edge_vertex_indices[2], 2);
    assert_eq!(m.edge_vertex_indices[5], 2);
    assert_eq!(m.edge_vertex_indices[9], 7);
    assert_eq!(m.edge_vertex_indices[14], 7);
    assert_eq!(m.vertex_edge_indices[7], Some(8));
}

#[test]
fn bowtie_corner_arrays() {
    let faces = vec![
        quad([(0, 0), (1, 0), (1, 1), (0, 1)]),
        quad([(1, 1), (2, 1), (2, 2), (1, 2)]),
    ];
    let m = build_halfedge_mesh(&faces);
    assert_eq!(m.num_vertices, 8);
    assert_eq!(m.num_half_edges, 16);
    assert_eq!(m.num_geometric_edges, 8);
    assert_eq!(m.edge_vertex_indices, vec![1, 0, 2, 1, 3, 2, 0, 3, 4, 7, 5, 4, 6, 5, 7, 6]);
    assert_eq!(
        m.vertex_edge_indices,
        vec![Some(0), Some(1), Some(3), Some(5), Some(9), Some(11), Some(13), Some(8)]
    );
    assert_eq!(m.face_edge_indices, vec![0, 8]);
    // every face half-edge's successor starts where it ends
    for h in 0..m.num_half_edges {
        let n = m.edge_next_indices[h];
        assert_eq!(m.edge_vertex_indices[m.edge_opposite_indices[n]], m.edge_vertex_indices[h]);
    }
}

#[test]
fn boundary_links_meet_end_to_start() {
    let faces = two_quads();
    let m = build_halfedge_mesh(&faces);
    let mut boundary = 0;
    for h in 0..m.num_half_edges {
        if m.edge_face_indices[h].is_none() {
            boundary += 1;
            let n = m.edge_next_indices[h];
            assert_ne!(n, h);
            assert!(m.edge_face_indices[n].is_none());
            assert_eq!(m.edge_vertex_indices[m.edge_opposite_indices[n]], m.edge_vertex_indices[h]);
        }
    }
    assert_eq!(boundary, 6);
    for v in 0..m.num_vertices {
        assert!(m.vertex_edge_indices[v].is_some());
    }
}

#[test]
fn one_face_half_edge_per_corner_in_even_slots() {
    let faces = two_quads();
    let m = build_halfedge_mesh(&faces);
    let on_faces = (0..m.num_half_edges).filter(|&h| m.edge_face_indices[h].is_some()).count();
    assert_eq!(on_faces, 4 * faces.len());
    for h in (0..m.num_half_edges).step_by(2) {
        assert!(m.edge_face_indices[h].is_some());
    }
    // one geometric edge per distinct undirected edge of the quads
    let mut edges: Vec<(Key, Key)> = Vec::new();
    for face in &faces {
        for k in 0..4 {
            let (a, b) = (face[k], face[(k + 1) % 4]);
            let e = if a <= b { (a, b) } else { (b, a) };
            if !edges.contains(&e) {
                edges.push(e);
            }
        }
    }
    assert_eq!(m.num_geometric_edges, edges.len());
}

#[test]
fn repeated_positions_share_vertices() {
    let faces = vec![
        quad([(0, 0), (1, 0), (1, 1), (0, 1)]),
        quad([(0, 0), (1, 0), (1, 1), (0, 1)]),
    ];
    let m = build_halfedge_mesh(&faces);
    // the two copies of the square do not pair up, so each corner's fan
    // falls apart into two and every vertex is split once
    assert_eq!(m.num_half_edges, 16);
    assert_eq!(m.num_vertices, 8);
    for v in 0..8 {
        assert_eq!(m.vertex_sources[v].0, 0);
    }
    check_structure(&m, &faces);
}

#[test]
fn opposite_quads_pair_up() {
    // the same square with both windings: every face half-edge has a
    // reverse face half-edge, so there is no boundary
    let faces = vec![
        quad([(0, 0), (1, 0), (1, 1), (0, 1)]),
        quad([(0, 0), (0, 1), (1, 1), (1, 0)]),
    ];
    let m = build_halfedge_mesh(&faces);
    assert_eq!(m.num_half_edges, 8);
    assert!(m.edge_face_indices.iter().all(|f| f.is_some()));
    check_structure(&m, &faces);
}
