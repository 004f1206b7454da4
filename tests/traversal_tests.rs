use std::cell::Cell;

use nether_raytracer::bvh::{build_bvh, BvhNode, BvhTopology, Centroid};
use nether_raytracer::traversal::{
    any_hit_before, nearest_hit, nearest_hit_linear, scene_any_hit_before, scene_nearest_hit,
};

fn subtree(nodes: &[BvhNode], n: usize, out: &mut Vec<usize>) {
    match &nodes[n] {
        BvhNode::Leaf { items } => out.extend(items.iter().copied()),
        BvhNode::Inner { left, right, .. } => {
            subtree(nodes, *left, out);
            subtree(nodes, *right, out);
        }
    }
}

/// The nearest hit inside node `n`, minus `slack`: a box entry that never
/// lies beyond a hit inside the box.
fn box_entry(t: &BvhTopology, hits: &[Option<u32>], n: usize, slack: u32) -> Option<u32> {
    let mut inside = Vec::new();
    subtree(&t.nodes, n, &mut inside);
    inside.iter().filter_map(|&s| hits[s]).min().map(|d| d.saturating_sub(slack))
}

fn scene(n: usize) -> (Vec<Centroid>, BvhTopology) {
    let cs: Vec<Centroid> = (0..n as i64).map(|i| Centroid { x: (i * 37) % 23, y: (i * 11) % 7, z: i % 5 }).collect();
    let t = build_bvh(&cs, (0..n).collect());
    (cs, t)
}

#[test]
fn nearest_matches_linear_scan() {
    let (_, t) = scene(20);
    let tables: Vec<Vec<Option<u32>>> = vec![
        (0..20).map(|i| if i % 3 == 0 { Some(100 - i as u32) } else { None }).collect(),
        (0..20).map(|i| Some(((i * 7919) % 97) as u32)).collect(),
        vec![None; 20],
        (0..20).map(|i| if i == 13 { Some(4) } else { None }).collect(),
    ];
    let all: Vec<usize> = (0..20).collect();
    for hits in &tables {
        for slack in [0u32, 3] {
            let entry = |n: usize| box_entry(&t, hits, n, slack);
            let hit = |s: usize| hits[s];
            let a = nearest_hit(&t, &entry, &hit);
            let b = nearest_hit_linear(&all, &hit);
            assert_eq!(a.map(|(_, d)| d), b.map(|(_, d)| d));
            assert_eq!(a.is_some(), hits.iter().any(|h| h.is_some()));
            if let Some((s, d)) = a {
                assert_eq!(hits[s], Some(d));
            }
        }
    }
}

#[test]
fn nearest_on_known_table() {
    let (_, t) = scene(6);
    let hits = [Some(40), None, Some(12), Some(30), None, Some(12)];
    let entry = |n: usize| box_entry(&t, &hits, n, 0);
    let hit = |s: usize| hits[s];
    let (s, d) = nearest_hit(&t, &entry, &hit).unwrap();
    assert_eq!(d, 12);
    assert!(s == 2 || s == 5);
    assert_eq!(nearest_hit_linear(&vec![0, 1, 2, 3, 4, 5], &hit), Some((2, 12)));
    assert_eq!(nearest_hit_linear(&vec![0, 1, 3], &hit), Some((3, 30)));
    assert_eq!(nearest_hit_linear(&vec![], &hit), None);
}

#[test]
fn empty_hierarchy_finds_nothing() {
    let t = build_bvh(&vec![], vec![]);
    let entry = |_: usize| Some(0u32);
    let hit = |_: usize| Some(1u32);
    assert_eq!(nearest_hit(&t, &entry, &hit), None);
    assert!(!any_hit_before(&t, &entry, &hit, 10));
}

#[test]
fn missed_boxes_are_not_descended() {
    let (_, t) = scene(16);
    let hits: Vec<Option<u32>> = (0..16).map(|i| if i == 5 { Some(7) } else { None }).collect();
    let tested = Cell::new(0usize);
    let entry = |n: usize| box_entry(&t, &hits, n, 0);
    let hit = |s: usize| {
        tested.set(tested.get() + 1);
        hits[s]
    };
    assert_eq!(nearest_hit(&t, &entry, &hit), Some((5, 7)));
    // Only the leaf holding shape 5 is reached.
    assert!(tested.get() <= 2);
}

#[test]
fn any_hit_respects_limit() {
    let (_, t) = scene(10);
    let hits: Vec<Option<u32>> = (0..10).map(|i| if i % 4 == 1 { Some(10 * i as u32) } else { None }).collect();
    let entry = |n: usize| box_entry(&t, &hits, n, 1);
    let hit = |s: usize| hits[s];
    // Nearest hit is shape 1 at 10.
    assert!(!any_hit_before(&t, &entry, &hit, 10));
    assert!(any_hit_before(&t, &entry, &hit, 11));
    assert!(any_hit_before(&t, &entry, &hit, u32::MAX));
    let none = vec![None; 10];
    let entry = |n: usize| box_entry(&t, &none, n, 0);
    let hit = |s: usize| none[s];
    assert!(!any_hit_before(&t, &entry, &hit, u32::MAX));
}

#[test]
fn scene_queries_include_unbounded_shapes() {
    // Shapes 0..8 sit in the hierarchy, 8 and 9 are unbounded.
    let cs: Vec<Centroid> = (0..10).map(|i| Centroid { x: i, y: 0, z: 0 }).collect();
    let t = build_bvh(&cs, (0..8).collect());
    let unbounded = vec![8usize, 9];
    let all: Vec<usize> = (0..10).collect();
    let tables: Vec<Vec<Option<u32>>> = vec![
        vec![Some(50), None, Some(20), None, None, None, None, None, Some(30), None],
        vec![Some(50), None, Some(20), None, None, None, None, None, Some(10), Some(15)],
        vec![None, None, None, None, None, None, None, None, None, Some(3)],
        vec![None; 10],
    ];
    let expected = [Some((2, 20)), Some((8, 10)), Some((9, 3)), None];
    for (hits, want) in tables.iter().zip(expected) {
        let entry = |n: usize| box_entry(&t, hits, n, 0);
        let hit = |s: usize| hits[s];
        let got = scene_nearest_hit(&t, &unbounded, &entry, &hit);
        assert_eq!(got, want);
        assert_eq!(got.map(|(_, d)| d), nearest_hit_linear(&all, &hit).map(|(_, d)| d));
    }
    let hits = &tables[2];
    let entry = |n: usize| box_entry(&t, hits, n, 0);
    let hit = |s: usize| hits[s];
    assert!(scene_any_hit_before(&t, &unbounded, &entry, &hit, 4));
    assert!(!scene_any_hit_before(&t, &unbounded, &entry, &hit, 3));
    let hits = &tables[0];
    let entry = |n: usize| box_entry(&t, hits, n, 0);
    let hit = |s: usize| hits[s];
    assert!(scene_any_hit_before(&t, &unbounded, &entry, &hit, 21));
    assert!(!scene_any_hit_before(&t, &unbounded, &entry, &hit, 20));
}
