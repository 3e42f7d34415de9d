use ordered_float::OrderedFloat;
use stl_split::mesh::{coordinate_key, get_vertices, triangles_connected, vertex_key, Triangle};
use stl_split::partition::{build_index, collect_triangles, connected_index_sets, find_connected_sets};

fn point(p: [f32; 3]) -> [u32; 3] {
    [p[0].to_bits(), p[1].to_bits(), p[2].to_bits()]
}

fn tri(a: [f32; 3], b: [f32; 3], c: [f32; 3]) -> Triangle {
    Triangle {
        normal: point([0.0, 0.0, 1.0]),
        v1: point(a),
        v2: point(b),
        v3: point(c),
        attr_byte_count: 0,
    }
}

/// Groups as sorted lists of positions, sorted, so that order does not matter.
fn membership(groups: &Vec<Vec<usize>>) -> Vec<Vec<usize>> {
    let mut out: Vec<Vec<usize>> = groups
        .iter()
        .map(|g| {
            let mut g = g.clone();
            g.sort();
            g
        })
        .collect();
    out.sort();
    out
}

fn total(groups: &Vec<Vec<Triangle>>) -> usize {
    groups.iter().map(|g| g.len()).sum()
}

#[test]
fn empty_input_gives_no_groups() {
    let tris: Vec<Triangle> = Vec::new();
    assert!(find_connected_sets(&tris).is_empty());
    assert!(connected_index_sets(&tris).is_empty());
}

#[test]
fn single_triangle_is_one_group() {
    let t = tri([0.0, 0.0, 0.0], [1.0, 0.0, 0.0], [0.0, 1.0, 0.0]);
    let groups = find_connected_sets(&vec![t]);
    assert_eq!(groups, vec![vec![t]]);
}

#[test]
fn two_disjoint_triangles_are_two_groups() {
    let a = tri([0.0, 0.0, 0.0], [1.0, 0.0, 0.0], [0.0, 1.0, 0.0]);
    let b = tri([5.0, 5.0, 5.0], [6.0, 5.0, 5.0], [5.0, 6.0, 5.0]);
    let groups = find_connected_sets(&vec![a, b]);
    assert_eq!(groups.len(), 2);
    assert!(groups.iter().all(|g| g.len() == 1));
    assert!(groups.contains(&vec![a]));
    assert!(groups.contains(&vec![b]));
}

#[test]
fn strip_sharing_an_edge_is_one_group() {
    let a = tri([0.0, 0.0, 0.0], [1.0, 0.0, 0.0], [0.0, 1.0, 0.0]);
    let b = tri([1.0, 0.0, 0.0], [0.0, 1.0, 0.0], [1.0, 1.0, 0.0]);
    let groups = find_connected_sets(&vec![a, b]);
    assert_eq!(groups.len(), 1);
    assert_eq!(groups[0].len(), 2);
    assert!(groups[0].contains(&a) && groups[0].contains(&b));
}

#[test]
fn chain_of_three_is_one_group() {
    let a = tri([0.0, 0.0, 0.0], [1.0, 0.0, 0.0], [0.0, 1.0, 0.0]);
    let b = tri([1.0, 0.0, 0.0], [2.0, 0.0, 0.0], [2.0, 1.0, 0.0]);
    let c = tri([2.0, 1.0, 0.0], [3.0, 1.0, 0.0], [3.0, 2.0, 0.0]);
    assert!(!triangles_connected(&a, &c));
    let groups = find_connected_sets(&vec![a, c, b]);
    assert_eq!(groups.len(), 1);
    assert_eq!(groups[0].len(), 3);
    assert!(groups[0].contains(&a) && groups[0].contains(&b) && groups[0].contains(&c));
}

#[test]
fn near_identical_vertices_are_not_merged() {
    let a = tri([1.0, 0.0, 0.0], [2.0, 0.0, 0.0], [1.0, 1.0, 0.0]);
    let b = tri([1.0000001, 0.0, 0.0], [0.0, -1.0, 0.0], [0.0, -2.0, 0.0]);
    assert_ne!(1.0f32.to_bits(), 1.0000001f32.to_bits());
    let groups = find_connected_sets(&vec![a, b]);
    assert_eq!(groups.len(), 2);
}

#[test]
fn bit_identical_vertex_merges() {
    let a = tri([1.0, 0.0, 0.0], [2.0, 0.0, 0.0], [1.0, 1.0, 0.0]);
    let b = tri([1.0, 0.0, 0.0], [0.0, -1.0, 0.0], [0.0, -2.0, 0.0]);
    let groups = find_connected_sets(&vec![a, b]);
    assert_eq!(groups.len(), 1);
}

#[test]
fn every_triangle_lands_in_exactly_one_group() {
    let tris = vec![
        tri([0.0, 0.0, 0.0], [1.0, 0.0, 0.0], [0.0, 1.0, 0.0]),
        tri([9.0, 9.0, 9.0], [8.0, 9.0, 9.0], [9.0, 8.0, 9.0]),
        tri([1.0, 0.0, 0.0], [0.0, 1.0, 0.0], [1.0, 1.0, 0.0]),
        tri([20.0, 0.0, 0.0], [21.0, 0.0, 0.0], [20.0, 1.0, 0.0]),
        tri([9.0, 8.0, 9.0], [7.0, 7.0, 7.0], [6.0, 6.0, 6.0]),
        tri([1.0, 1.0, 0.0], [4.0, 4.0, 4.0], [5.0, 5.0, 5.0]),
    ];
    let idx = connected_index_sets(&tris);
    let mut seen = vec![0usize; tris.len()];
    for g in &idx {
        assert!(!g.is_empty());
        for &i in g {
            seen[i] += 1;
        }
    }
    assert!(seen.iter().all(|&c| c == 1));
    assert_eq!(membership(&idx), vec![vec![0, 2, 5], vec![1, 4], vec![3]]);
    let groups = find_connected_sets(&tris);
    assert_eq!(groups.len(), 3);
    assert_eq!(total(&groups), tris.len());
}

#[test]
fn running_twice_gives_the_same_membership() {
    let tris = vec![
        tri([0.0, 0.0, 0.0], [1.0, 0.0, 0.0], [0.0, 1.0, 0.0]),
        tri([3.0, 3.0, 3.0], [4.0, 3.0, 3.0], [3.0, 4.0, 3.0]),
        tri([0.0, 1.0, 0.0], [0.0, 2.0, 0.0], [0.0, 3.0, 0.0]),
    ];
    let first = connected_index_sets(&tris);
    let second = connected_index_sets(&tris);
    assert_eq!(membership(&first), membership(&second));
    assert_eq!(membership(&first), vec![vec![0, 2], vec![1]]);
}

#[test]
fn reordering_the_input_gives_the_same_partition() {
    let tris = vec![
        tri([0.0, 0.0, 0.0], [1.0, 0.0, 0.0], [0.0, 1.0, 0.0]),
        tri([3.0, 3.0, 3.0], [4.0, 3.0, 3.0], [3.0, 4.0, 3.0]),
        tri([0.0, 1.0, 0.0], [0.0, 2.0, 0.0], [0.0, 3.0, 0.0]),
        tri([4.0, 3.0, 3.0], [5.0, 5.0, 5.0], [6.0, 6.0, 6.0]),
    ];
    // position p of the reordered list holds the triangle at perm[p]
    let perm = [3usize, 0, 2, 1];
    let reordered: Vec<Triangle> = perm.iter().map(|&i| tris[i]).collect();
    let original = connected_index_sets(&tris);
    let moved: Vec<Vec<usize>> = connected_index_sets(&reordered)
        .iter()
        .map(|g| g.iter().map(|&p| perm[p]).collect())
        .collect();
    assert_eq!(membership(&original), membership(&moved));
}

#[test]
fn coordinate_key_values() {
    assert_eq!(coordinate_key(1.0f32.to_bits()), 0x3f80_0000);
    assert_eq!(coordinate_key(0x8000_0000), 0);
    assert_eq!(coordinate_key(0), 0);
    assert_eq!(coordinate_key(0x7fc0_0001), 0x7fc0_0000);
    assert_eq!(coordinate_key(0xffc0_0000), 0x7fc0_0000);
    assert_eq!(coordinate_key(0x7f80_0001), 0x7fc0_0000);
    assert_eq!(coordinate_key(0x7f80_0000), 0x7f80_0000);
    assert_eq!(coordinate_key(0xff80_0000), 0xff80_0000);
}

#[test]
fn coordinate_keys_agree_with_ordered_float() {
    let values = [
        0.0f32,
        -0.0,
        1.0,
        -1.0,
        1.0000001,
        f32::NAN,
        -f32::NAN,
        f32::from_bits(0x7f80_0001),
        f32::INFINITY,
        f32::NEG_INFINITY,
        f32::MIN_POSITIVE,
    ];
    for &x in &values {
        for &y in &values {
            let same_key = coordinate_key(x.to_bits()) == coordinate_key(y.to_bits());
            assert_eq!(same_key, OrderedFloat(x) == OrderedFloat(y), "{} {}", x, y);
        }
    }
}

#[test]
fn signed_zero_and_nan_vertices_are_shared() {
    let a = tri([-0.0, 0.0, 0.0], [1.0, 0.0, 0.0], [0.0, 1.0, 0.0]);
    let b = tri([0.0, -0.0, 0.0], [7.0, 0.0, 0.0], [0.0, 7.0, 0.0]);
    assert!(triangles_connected(&a, &b));
    let c = tri([f32::NAN, 0.0, 0.0], [1.0, 2.0, 3.0], [3.0, 2.0, 1.0]);
    let d = tri([f32::from_bits(0x7fc0_1234), 0.0, 0.0], [9.0, 2.0, 3.0], [3.0, 9.0, 1.0]);
    assert!(triangles_connected(&c, &d));
    assert_eq!(find_connected_sets(&vec![a, c, b, d]).len(), 2);
}

#[test]
fn vertex_key_packs_the_three_keys() {
    let p = [0x3f80_0000u32, 0x8000_0000, 0x4000_0000];
    assert_eq!(vertex_key(&p), (0x3f80_0000u128 << 64) | 0x4000_0000u128);
    let t = tri([1.0, 0.0, 0.0], [0.0, 1.0, 0.0], [0.0, 0.0, 1.0]);
    let ks = get_vertices(&t);
    assert_eq!(ks[0], 0x3f80_0000u128 << 64);
    assert_eq!(ks[1], 0x3f80_0000u128 << 32);
    assert_eq!(ks[2], 0x3f80_0000u128);
}

#[test]
fn triangles_connected_by_one_vertex_only() {
    let a = tri([0.0, 0.0, 0.0], [1.0, 0.0, 0.0], [0.0, 1.0, 0.0]);
    let b = tri([5.0, 5.0, 5.0], [6.0, 5.0, 5.0], [0.0, 1.0, 0.0]);
    let c = tri([5.0, 5.0, 5.0], [6.0, 5.0, 5.0], [0.0, 1.0, 1.0]);
    assert!(triangles_connected(&a, &b));
    assert!(triangles_connected(&b, &a));
    assert!(!triangles_connected(&a, &c));
}

#[test]
fn index_lists_positions_by_vertex() {
    let a = tri([0.0, 0.0, 0.0], [1.0, 0.0, 0.0], [0.0, 1.0, 0.0]);
    let b = tri([1.0, 0.0, 0.0], [0.0, 1.0, 0.0], [1.0, 1.0, 0.0]);
    let index = build_index(&vec![a, b]);
    assert_eq!(index.len(), 4);
    assert_eq!(index[&vertex_key(&a.v1)], vec![0]);
    assert_eq!(index[&vertex_key(&a.v2)], vec![0, 1]);
    assert_eq!(index[&vertex_key(&b.v3)], vec![1]);
}

#[test]
fn collect_triangles_copies_by_position() {
    let a = tri([0.0, 0.0, 0.0], [1.0, 0.0, 0.0], [0.0, 1.0, 0.0]);
    let b = tri([5.0, 5.0, 5.0], [6.0, 5.0, 5.0], [5.0, 6.0, 5.0]);
    let c = tri([8.0, 5.0, 5.0], [6.0, 8.0, 5.0], [5.0, 6.0, 8.0]);
    let out = collect_triangles(&vec![a, b, c], &vec![vec![2, 0], vec![1]]);
    assert_eq!(out, vec![vec![c, a], vec![b]]);
}

#[test]
fn records_are_copied_bit_for_bit() {
    let mut t = tri([-0.0, f32::NAN, 1.5], [1.0, 0.0, 0.0], [0.0, 1.0, 0.0]);
    t.attr_byte_count = 0xbeef;
    t.normal = [0x8000_0000, 0x7fc0_0001, 3];
    let groups = find_connected_sets(&vec![t]);
    assert_eq!(groups[0][0], t);
    assert_eq!(groups[0][0].v1[0], 0x8000_0000);
}
