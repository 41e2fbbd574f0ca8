use mctocs_rust::greedy::{
    build_palette_tables, build_quad_verts, face_def, face_dir_name, generate_face_quads,
    generate_greedy_quads, greedy_merge, grid_idx, scan_step, GridQuad, Rect, ScanAction,
};

fn strings(v: &[&str]) -> Vec<String> {
    v.iter().map(|s| s.to_string()).collect()
}

fn rect(u: usize, v: usize, w: usize, h: usize) -> Rect {
    Rect { u, v, w, h }
}

#[test]
fn grid_index_is_x_major() {
    assert_eq!(grid_idx(0, 0, 0, 4, 5), 0);
    assert_eq!(grid_idx(1, 2, 3, 4, 5), 33);
    assert_eq!(grid_idx(2, 0, 0, 3, 7), 42);
}

#[test]
fn face_definitions() {
    let names: Vec<&str> = (0..6).map(face_dir_name).collect();
    assert_eq!(names, vec!["+x", "-x", "+y", "-y", "+z", "-z"]);
    let f = face_def(0);
    assert_eq!((f.slice_axis, f.u_axis, f.v_axis, f.pos_dir), (0, 2, 1, true));
    assert_eq!(f.normal_mc, (1, 0, 0));
    let f = face_def(3);
    assert_eq!((f.slice_axis, f.u_axis, f.v_axis, f.pos_dir), (1, 0, 2, false));
    assert_eq!(f.neighbor_offset, (0, -1, 0));
    let f = face_def(5);
    assert_eq!((f.slice_axis, f.u_axis, f.v_axis, f.pos_dir), (2, 1, 0, false));
    assert_eq!(f.normal_mc, (0, 0, -1));
}

#[test]
fn quad_corners_positive_face_wind_reversed() {
    let v = build_quad_verts(0, 0, 0, 1, 1, &face_def(0));
    assert_eq!(v, vec![(1, 0, 0), (1, 1, 0), (1, 1, 1), (1, 0, 1)]);
}

#[test]
fn quad_corners_negative_face() {
    let v = build_quad_verts(2, 1, 3, 4, 5, &face_def(3));
    // slice y = 2 (near side), u = x from 1 to 4, v = z from 3 to 5
    assert_eq!(v, vec![(1, 2, 3), (4, 2, 3), (4, 2, 5), (1, 2, 5)]);
}

#[test]
fn merge_full_mask_into_one_rect() {
    let mask = vec![Some(0); 6];
    assert_eq!(greedy_merge(&mask, 2, 3), vec![rect(0, 0, 2, 3)]);
}

#[test]
fn merge_empty_mask() {
    let mask: Vec<Option<usize>> = vec![None; 4];
    assert_eq!(greedy_merge(&mask, 2, 2), vec![]);
}

#[test]
fn merge_keeps_materials_apart() {
    // rows u = 0, 1; columns v = 0, 1
    let mask = vec![Some(1), Some(2), Some(1), Some(2)];
    assert_eq!(greedy_merge(&mask, 2, 2), vec![rect(0, 0, 2, 1), rect(0, 1, 2, 1)]);
}

#[test]
fn merge_widens_along_u_first() {
    // u = 0: A A ; u = 1: A . ; u = 2: A A
    let a = Some(7);
    let mask = vec![a, a, a, None, a, a];
    assert_eq!(greedy_merge(&mask, 3, 2), vec![rect(0, 0, 3, 1), rect(0, 1, 1, 1), rect(2, 1, 1, 1)]);
}

#[test]
fn merge_cover_partitions_cells() {
    // a scattered mask: every material cell lies in exactly one rectangle
    let us = 5;
    let vs = 4;
    let mut mask = vec![None; us * vs];
    for u in 0..us {
        for v in 0..vs {
            if (u * 7 + v * 3) % 5 != 0 {
                mask[u * vs + v] = Some((u + v) % 2);
            }
        }
    }
    let rs = greedy_merge(&mask, us, vs);
    for u in 0..us {
        for v in 0..vs {
            let holders: Vec<&Rect> = rs
                .iter()
                .filter(|r| r.u <= u && u < r.u + r.w && r.v <= v && v < r.v + r.h)
                .collect();
            if mask[u * vs + v].is_some() {
                assert_eq!(holders.len(), 1);
                let r = holders[0];
                assert_eq!(mask[u * vs + v], mask[r.u * vs + r.v]);
            } else {
                assert!(holders.is_empty());
            }
        }
    }
}

fn quads(
    blocks: &[i32],
    pal: &[(i32, &str)],
    w: usize,
    h: usize,
    l: usize,
    gen: &[&str],
    solid: &[&str],
) -> Vec<GridQuad> {
    let pal: Vec<(i32, String)> = pal.iter().map(|(k, n)| (*k, n.to_string())).collect();
    generate_greedy_quads(&blocks.to_vec(), &pal, w, h, l, &strings(gen), &strings(solid))
}

#[test]
fn single_block_has_six_faces() {
    let qs = quads(&[1], &[(1, "minecraft:stone")], 1, 1, 1, &["stone"], &[]);
    assert_eq!(qs.len(), 6);
    for (d, q) in qs.iter().enumerate() {
        assert_eq!(q.face, d);
        assert_eq!(q.block_type, "minecraft:stone");
        assert_eq!(q.vertices.len(), 4);
    }
    assert_eq!(qs[0].vertices, vec![(1, 0, 0), (1, 1, 0), (1, 1, 1), (1, 0, 1)]);
    assert_eq!(qs[1].vertices, vec![(0, 0, 0), (0, 0, 1), (0, 1, 1), (0, 1, 0)]);
}

#[test]
fn block_not_generated_has_no_faces() {
    let qs = quads(&[1], &[(1, "minecraft:air")], 1, 1, 1, &["stone"], &[]);
    assert!(qs.is_empty());
    let qs = quads(&[2], &[(1, "minecraft:stone")], 1, 1, 1, &["stone"], &[]);
    assert!(qs.is_empty());
    let qs = quads(&[-1], &[(1, "minecraft:stone")], 1, 1, 1, &["stone"], &[]);
    assert!(qs.is_empty());
}

#[test]
fn touching_solid_blocks_cull_and_merge() {
    let qs = quads(&[1, 1], &[(1, "minecraft:stone")], 2, 1, 1, &["stone"], &["stone"]);
    assert_eq!(qs.len(), 6);
    let plus_x: Vec<&GridQuad> = qs.iter().filter(|q| q.face == 0).collect();
    assert_eq!(plus_x.len(), 1);
    assert_eq!(plus_x[0].vertices, vec![(2, 0, 0), (2, 1, 0), (2, 1, 1), (2, 0, 1)]);
    let plus_y: Vec<&GridQuad> = qs.iter().filter(|q| q.face == 2).collect();
    assert_eq!(plus_y.len(), 1);
    assert_eq!(plus_y[0].vertices, vec![(0, 1, 0), (0, 1, 1), (2, 1, 1), (2, 1, 0)]);
}

#[test]
fn non_solid_neighbours_keep_inner_faces() {
    let qs = quads(&[1, 1], &[(1, "minecraft:glass")], 2, 1, 1, &["glass"], &[]);
    assert_eq!(qs.len(), 8);
    assert_eq!(qs.iter().filter(|q| q.face == 0).count(), 2);
    assert_eq!(qs.iter().filter(|q| q.face == 1).count(), 2);
}

#[test]
fn solid_set_matches_full_name_too() {
    let qs = quads(
        &[1, 2],
        &[(1, "minecraft:stone"), (2, "minecraft:dirt")],
        2,
        1,
        1,
        &["stone"],
        &["minecraft:dirt"],
    );
    // the stone face towards the dirt block is culled
    assert_eq!(qs.len(), 5);
    assert!(qs.iter().all(|q| q.face != 0));
}

#[test]
fn same_base_name_merges_across_states() {
    let qs = quads(
        &[1, 2],
        &[(1, "minecraft:oak_slab[type=top]"), (2, "minecraft:oak_slab[type=bottom]")],
        2,
        1,
        1,
        &["oak_slab"],
        &["oak_slab"],
    );
    assert_eq!(qs.len(), 6);
    assert!(qs.iter().all(|q| q.block_type == "minecraft:oak_slab"));
}

#[test]
fn different_materials_do_not_merge() {
    let qs = quads(
        &[1, 2],
        &[(1, "minecraft:stone"), (2, "minecraft:dirt")],
        2,
        1,
        1,
        &["stone", "dirt"],
        &["stone", "dirt"],
    );
    assert_eq!(qs.len(), 10);
    let plus_y: Vec<&GridQuad> = qs.iter().filter(|q| q.face == 2).collect();
    assert_eq!(plus_y.len(), 2);
    assert_eq!(plus_y[0].block_type, "minecraft:stone");
    assert_eq!(plus_y[1].block_type, "minecraft:dirt");
}

#[test]
fn empty_grid_and_palette() {
    let qs = quads(&[], &[], 0, 0, 0, &[], &[]);
    assert!(qs.is_empty());
}

#[test]
fn palette_tables_by_key() {
    let pal = vec![
        (3, "minecraft:stone".to_string()),
        (0, "minecraft:dirt".to_string()),
        (1, "minecraft:stone[x=1]".to_string()),
    ];
    let t = build_palette_tables(&pal, &strings(&["stone"]), &strings(&["dirt"]));
    assert_eq!(t.max_idx, 3);
    assert_eq!(t.generate, vec![false, true, false, true]);
    assert_eq!(t.solid, vec![true, false, false, false]);
    assert_eq!(
        t.base,
        vec![Some("dirt".to_string()), Some("stone".to_string()), None, Some("stone".to_string())]
    );
    assert_eq!(t.class[1], 1);
    assert_eq!(t.class[3], 1);
    assert_eq!(t.class[0], 0);
}

#[test]
fn face_quads_of_one_direction() {
    let pal = vec![(1, "minecraft:stone".to_string())];
    let t = build_palette_tables(&pal, &strings(&["stone"]), &strings(&["stone"]));
    let blocks = vec![1, 1, 1, 1];
    // 2 x 2 x 1 grid: the +z face is one 2 x 2 quad
    let qs = generate_face_quads(&t, &blocks, 2, 2, 1, 4);
    assert_eq!(qs.len(), 1);
    assert_eq!(qs[0].face, 4);
    assert_eq!(qs[0].vertices, vec![(0, 0, 1), (2, 0, 1), (2, 2, 1), (0, 2, 1)]);
}

#[test]
fn scan_reports_each_direction_then_finishes() {
    let mut steps = Vec::new();
    let mut k = 0;
    loop {
        let a = scan_step(k);
        steps.push(a);
        if a == ScanAction::Finish {
            break;
        }
        k += 1;
    }
    let mut expected = Vec::new();
    for d in 0..6usize {
        expected.push(ScanAction::Report(d as u32 + 1, 6));
        expected.push(ScanAction::Generate(d));
    }
    expected.push(ScanAction::Report(6, 6));
    expected.push(ScanAction::Finish);
    assert_eq!(steps, expected);
}

#[test]
fn negative_face_quad_at_the_last_slice() {
    let fd = face_def(1);
    assert!(!fd.pos_dir);
    let v = build_quad_verts(usize::MAX, 0, 0, 1, 1, &fd);
    assert_eq!(v.len(), 4);
}
