//! The spatial index: Morton keys, construction, and the three queries.
//!
//! Coordinates are integers; where the scenario calls for a half-unit
//! offset, every coordinate is doubled so the same configuration is exact.

use geomcore::aabb::Aabb;
use geomcore::bvh::{FlatNode, BVH};
use geomcore::sort::{radix_sort_by_code, MortonKey};
use geomcore::{calculate_morton_code, expand_bits};

fn boxed(cx: i64, cy: i64, cz: i64, hx: i64, hy: i64, hz: i64) -> Aabb {
    Aabb::new(cx, cy, cz, hx, hy, hz)
}

/// A small deterministic generator, so the scattered-box tests are
/// reproducible without outside crates.
struct SmallRng {
    state: u64,
}

impl SmallRng {
    fn new(seed: u64) -> SmallRng {
        SmallRng { state: seed.wrapping_mul(2862933555777941757).wrapping_add(3037000493) }
    }

    fn next(&mut self) -> u64 {
        self.state = self
            .state
            .wrapping_mul(6364136223846793005)
            .wrapping_add(1442695040888963407);
        self.state >> 33
    }

    fn in_range(&mut self, lo: i64, hi: i64) -> i64 {
        lo + (self.next() % ((hi - lo + 1) as u64)) as i64
    }
}

fn random_boxes(n: usize, seed: u64, spread: i64) -> Vec<Aabb> {
    let mut rng = SmallRng::new(seed);
    let mut boxes = Vec::new();
    for _ in 0..n {
        boxes.push(boxed(
            rng.in_range(-spread, spread),
            rng.in_range(-spread, spread),
            rng.in_range(-spread, spread),
            rng.in_range(1, 3),
            rng.in_range(1, 3),
            rng.in_range(1, 3),
        ));
    }
    boxes
}

fn corners(b: &Aabb) -> (i64, i64, i64, i64, i64, i64) {
    (
        b.cx - b.hx,
        b.cx + b.hx,
        b.cy - b.hy,
        b.cy + b.hy,
        b.cz - b.hz,
        b.cz + b.hz,
    )
}

fn overlaps(a: &Aabb, b: &Aabb) -> bool {
    let (alx, ahx, aly, ahy, alz, ahz) = corners(a);
    let (blx, bhx, bly, bhy, blz, bhz) = corners(b);
    alx <= bhx && blx <= ahx && aly <= bhy && bly <= ahy && alz <= bhz && blz <= ahz
}

#[test]
fn test_expand_bits() {
    // Test bit expansion for Morton codes
    assert_eq!(expand_bits(0), 0);
    assert_eq!(expand_bits(1), 1);
    assert_eq!(expand_bits(2), 8);
    assert_eq!(expand_bits(3), 9);

    // 1023 in binary is ten set bits; after expansion the result is
    // non-zero with two zero bits between consecutive bits.
    let result = expand_bits(1023);
    assert!(result > 0);
}

#[test]
fn test_morton_code_origin() {
    // Test Morton code at world origin.
    let code = calculate_morton_code(0, 0, 0, 100);
    assert!(code < (1u32 << 30)); // 30-bit code
}

#[test]
fn test_morton_code_corners() {
    // Test Morton codes at world corners.
    let world_size = 100;

    // Corner at (-50, -50, -50) should give code 0
    let code_min = calculate_morton_code(-50, -50, -50, world_size);
    assert_eq!(code_min, 0);

    // Corner at (50, 50, 50) should give maximum code
    let code_max = calculate_morton_code(50, 50, 50, world_size);
    assert_eq!(code_max, 0x3FFFFFFF); // Maximum 30-bit value
}

#[test]
fn test_morton_code_spatial_locality() {
    // Test that nearby points have similar Morton codes; coordinates are
    // ten times the classic ones so the tenth-unit offset is exact.
    let code1 = calculate_morton_code(100, 100, 100, 1000);
    let code2 = calculate_morton_code(101, 101, 101, 1000);

    // A far away point should have a very different code
    let code3 = calculate_morton_code(-400, -400, -400, 1000);

    let diff_nearby = code1.abs_diff(code2);
    let diff_far = code1.abs_diff(code3);
    assert!(diff_nearby < diff_far);
}

#[test]
fn test_bvh_creation() {
    // Test BVH creation.
    let bvh = BVH::new();
    assert!(!bvh.guid.is_empty());
    assert_eq!(bvh.name, "my_bvh");
    assert_eq!(bvh.arena_root, -1);
    assert_eq!(bvh.world_size, 1000); // Default value
}

#[test]
fn test_bvh_build_empty() {
    // Test building BVH with empty list.
    let boxes: Vec<Aabb> = vec![];
    let bvh = BVH::from_boxes(&boxes, 100);
    assert_eq!(bvh.arena_root, -1);
    assert!(bvh.arena.is_empty());
}

#[test]
fn test_bvh_build_single() {
    // Test building BVH with single bounding box.
    let bbox = boxed(0, 0, 0, 1, 1, 1);
    let boxes = vec![bbox];

    let bvh = BVH::from_boxes(&boxes, 100);
    assert_eq!(bvh.arena.len(), 1);

    // Verify BVH works by querying it
    let (collisions, _checks) = bvh.find_collisions(0, &bbox, &boxes);
    assert_eq!(collisions.len(), 0); // Should not collide with itself
}

#[test]
fn test_bvh_build_multiple() {
    // Test building BVH with multiple bounding boxes.
    let bboxes = vec![
        boxed(-10, 0, 0, 1, 1, 1),
        boxed(10, 0, 0, 1, 1, 1),
        boxed(0, 10, 0, 1, 1, 1),
    ];

    let bvh = BVH::from_boxes(&bboxes, 100);

    // Verify BVH works by performing pairwise collision detection
    let (pairs, _indices, checks) = bvh.check_all_collisions(&bboxes);
    assert_eq!(pairs.len(), 0); // These boxes don't overlap
    assert!(checks > 0); // But we should have checked some nodes
}

#[test]
fn test_bvh_aabb_intersect() {
    // Test AABB intersection detection; every coordinate is doubled so the
    // half-unit offset of the classic configuration stays exact.
    let bvh = BVH::new();

    let bbox1 = boxed(0, 0, 0, 2, 2, 2);
    let bbox2 = boxed(1, 0, 0, 2, 2, 2);
    assert!(bvh.aabb_intersect(&bbox1, &bbox2));

    let bbox3 = boxed(20, 0, 0, 2, 2, 2);
    assert!(!bvh.aabb_intersect(&bbox1, &bbox3));
}

#[test]
fn test_bvh_find_collisions_no_collision() {
    // Test collision detection with no collisions.
    let bboxes = vec![boxed(-10, 0, 0, 1, 1, 1), boxed(10, 0, 0, 1, 1, 1)];

    let bvh = BVH::from_boxes(&bboxes, 100);

    let (collisions, checks) = bvh.find_collisions(0, &bboxes[0], &bboxes);
    assert_eq!(collisions.len(), 0);
    assert!(checks > 0);
}

#[test]
fn test_bvh_find_collisions_with_collision() {
    // Test collision detection with overlapping boxes.
    let bboxes = vec![boxed(0, 0, 0, 2, 2, 2), boxed(1, 0, 0, 2, 2, 2)];

    let bvh = BVH::from_boxes(&bboxes, 100);

    let (collisions, _checks) = bvh.find_collisions(0, &bboxes[0], &bboxes);
    assert_eq!(collisions.len(), 1);
    assert!(collisions.contains(&1));
}

#[test]
fn test_bvh_check_all_collisions() {
    // Two overlapping boxes and one far away; doubled coordinates keep the
    // half-unit offset exact.
    let bboxes = vec![
        boxed(0, 0, 0, 2, 2, 2),
        boxed(1, 0, 0, 2, 2, 2),
        boxed(20, 0, 0, 2, 2, 2),
    ];

    let bvh = BVH::from_boxes(&bboxes, 100);

    let (collisions, colliding_indices, checks) = bvh.check_all_collisions(&bboxes);

    // Boxes 0 and 1 should collide
    assert_eq!(collisions.len(), 1);
    assert!(collisions.contains(&(0, 1)));
    assert_eq!(colliding_indices, vec![0, 1]);
    assert!(checks > 0);
}

#[test]
fn test_bvh_merge_aabb() {
    // Test AABB merging, with doubled coordinates: boxes centered at 0 and
    // 10 with half-extent 2 merge into center 5, half-extent 7.
    let bvh = BVH::new();

    let bbox1 = boxed(0, 0, 0, 2, 2, 2);
    let bbox2 = boxed(10, 0, 0, 2, 2, 2);

    let merged = bvh.merge_aabb(&bbox1, &bbox2);

    assert_eq!(merged.cx, 5);
    assert_eq!(merged.hx, 7);
    assert_eq!(merged.cy, 0);
    assert_eq!(merged.hy, 2);
}

#[test]
fn test_bvh_performance_many_boxes() {
    // Test BVH performance with many scattered boxes.
    let bboxes = random_boxes(100, 42, 40);
    let bvh = BVH::from_boxes(&bboxes, 100);

    let (_collisions, _colliding_indices, checks) = bvh.check_all_collisions(&bboxes);

    // BVH should perform fewer checks than a naive quadratic scan
    let naive_checks = (bboxes.len() * (bboxes.len() - 1)) / 2;
    assert!((checks as usize) < naive_checks);
}

#[test]
fn test_bvh_performance_1000_boxes() {
    // Test BVH performance with 1000 scattered boxes.
    let bboxes = random_boxes(1000, 42, 50);
    let bvh = BVH::from_boxes(&bboxes, 120);

    let (pairs, _colliding_indices, checks) = bvh.check_all_collisions(&bboxes);

    let naive_checks = (bboxes.len() * (bboxes.len() - 1)) / 2;
    assert!((checks as usize) < naive_checks);

    // And the reported pairs agree with a brute-force scan.
    let mut brute = Vec::new();
    for i in 0..bboxes.len() {
        for j in (i + 1)..bboxes.len() {
            if overlaps(&bboxes[i], &bboxes[j]) {
                brute.push((i, j));
            }
        }
    }
    let mut sorted_pairs = pairs.clone();
    sorted_pairs.sort();
    brute.sort();
    assert_eq!(sorted_pairs, brute);
}

#[test]
fn test_check_all_matches_brute_force_dense() {
    // A denser batch with duplicate positions, to exercise the Morton
    // tie-break.
    let mut bboxes = random_boxes(120, 7, 12);
    bboxes.push(boxed(0, 0, 0, 2, 2, 2));
    bboxes.push(boxed(0, 0, 0, 2, 2, 2));
    bboxes.push(boxed(0, 0, 0, 2, 2, 2));
    let mut bvh = BVH::new();
    bvh.world_size = BVH::compute_world_size(&bboxes);
    bvh.build(&bboxes);

    let (pairs, touched, _checks) = bvh.check_all_collisions(&bboxes);
    let mut brute = Vec::new();
    for i in 0..bboxes.len() {
        for j in (i + 1)..bboxes.len() {
            if overlaps(&bboxes[i], &bboxes[j]) {
                brute.push((i, j));
            }
        }
    }
    let mut sorted_pairs = pairs.clone();
    sorted_pairs.sort();
    brute.sort();
    assert_eq!(sorted_pairs, brute);

    // The touched list holds exactly the ordinals of the pairs, ascending.
    let mut expected: Vec<usize> = Vec::new();
    for &(i, j) in &brute {
        expected.push(i);
        expected.push(j);
    }
    expected.sort();
    expected.dedup();
    assert_eq!(touched, expected);
}

#[test]
fn test_find_collisions_matches_brute_force() {
    let bboxes = random_boxes(200, 99, 25);
    let bvh = BVH::from_boxes(&bboxes, 120);
    for probe in [0usize, 7, 133] {
        let (found, _checks) = bvh.find_collisions(probe, &bboxes[probe], &bboxes);
        let mut expected = Vec::new();
        for j in 0..bboxes.len() {
            if j != probe && overlaps(&bboxes[probe], &bboxes[j]) {
                expected.push(j);
            }
        }
        let mut sorted_found = found.clone();
        sorted_found.sort();
        assert_eq!(sorted_found, expected);
        assert!(!found.contains(&probe));
    }
}

#[test]
fn test_arena_shape_and_leaf_ids() {
    // A build over N boxes yields exactly 2N-1 nodes whose leaves carry
    // every ordinal once, and each internal box is its children's union.
    let bboxes = random_boxes(57, 5, 30);
    let bvh = BVH::from_boxes(&bboxes, 100);
    let n = bboxes.len();
    assert_eq!(bvh.arena.len(), 2 * n - 1);
    assert_eq!(bvh.arena_root, 0);

    let mut seen = vec![false; n];
    let mut leaf_count = 0;
    for node in &bvh.arena {
        if node.object_id >= 0 {
            let id = node.object_id as usize;
            assert!(id < n);
            assert!(!seen[id]);
            seen[id] = true;
            leaf_count += 1;
        }
    }
    assert_eq!(leaf_count, n);
    assert!(seen.iter().all(|&s| s));

    // Internal boxes are the tight unions of their children's boxes.
    for (idx, node) in bvh.arena.iter().enumerate() {
        if node.object_id < 0 {
            let l = &bvh.arena[node.left as usize];
            let r = &bvh.arena[node.right as usize];
            assert_eq!(node.left as usize, idx + 1);
            assert_eq!(node.aabb.lox, l.aabb.lox.min(r.aabb.lox));
            assert_eq!(node.aabb.hix, l.aabb.hix.max(r.aabb.hix));
            assert_eq!(node.aabb.loy, l.aabb.loy.min(r.aabb.loy));
            assert_eq!(node.aabb.hiy, l.aabb.hiy.max(r.aabb.hiy));
            assert_eq!(node.aabb.loz, l.aabb.loz.min(r.aabb.loz));
            assert_eq!(node.aabb.hiz, l.aabb.hiz.max(r.aabb.hiz));
        } else {
            assert_eq!(node.left, -1);
            assert_eq!(node.right, -1);
        }
    }
}

#[test]
fn test_build_is_deterministic() {
    // Two builds over the same batch yield identical arenas.
    let bboxes = random_boxes(64, 17, 30);
    let bvh1 = BVH::from_boxes(&bboxes, 100);
    let bvh2 = BVH::from_boxes(&bboxes, 100);
    let a1: Vec<FlatNode> = bvh1.arena.clone();
    let a2: Vec<FlatNode> = bvh2.arena.clone();
    assert_eq!(a1, a2);

    // Rebuilding in place gives the same arena again.
    let mut bvh3 = BVH::from_boxes(&bboxes, 100);
    bvh3.build(&bboxes);
    assert_eq!(bvh3.arena, a1);
}

#[test]
fn test_compute_world_size() {
    // Empty input gets the fixed default; otherwise eleven fifths of the
    // largest absolute corner coordinate, at least 10.
    let empty: Vec<Aabb> = vec![];
    assert_eq!(BVH::compute_world_size(&empty), 1000);

    let boxes = vec![boxed(40, 0, 0, 10, 1, 1)];
    // Largest corner is 50, so the extent is 11 * 50 / 5 = 110.
    assert_eq!(BVH::compute_world_size(&boxes), 110);

    let tiny = vec![boxed(0, 0, 0, 1, 1, 1)];
    assert_eq!(BVH::compute_world_size(&tiny), 10);
}

#[test]
fn test_ray_cast_axis_ray() {
    // A ray along +x from the origin against scattered boxes: candidates
    // are exactly the boxes whose y and z slabs contain the origin and
    // whose x extent reaches in front of it.
    let bboxes = random_boxes(1000, 4242, 50);
    let bvh = BVH::from_boxes(&bboxes, 120);

    let mut candidates: Vec<usize> = Vec::new();
    let hit = bvh.ray_cast(0, 0, 0, 1, 0, 0, &mut candidates, true);

    let mut expected = Vec::new();
    for (i, b) in bboxes.iter().enumerate() {
        let (lx, hx, ly, hy, lz, hz) = corners(b);
        let _ = lx;
        if ly <= 0 && 0 <= hy && lz <= 0 && 0 <= hz && hx >= 0 {
            expected.push(i);
        }
    }
    let mut sorted_candidates = candidates.clone();
    sorted_candidates.sort();
    assert_eq!(sorted_candidates, expected);
    assert_eq!(hit, !candidates.is_empty());
    // Far fewer candidates than boxes.
    assert!(candidates.len() < bboxes.len() / 2);
}

#[test]
fn test_ray_cast_empty_and_miss() {
    let bvh = BVH::new();
    let mut candidates: Vec<usize> = Vec::new();
    assert!(!bvh.ray_cast(0, 0, 0, 1, 0, 0, &mut candidates, true));
    assert!(candidates.is_empty());

    let bboxes = vec![boxed(0, 100, 0, 1, 1, 1)];
    let bvh2 = BVH::from_boxes(&bboxes, 300);
    // Ray pointing away from the box.
    assert!(!bvh2.ray_cast(0, 0, 0, 0, -1, 0, &mut candidates, true));
    assert!(candidates.is_empty());
}

#[test]
fn test_build_with_guids_maps_pairs() {
    let pairs_in = vec![
        (boxed(0, 0, 0, 2, 2, 2), "alpha".to_string()),
        (boxed(1, 0, 0, 2, 2, 2), "beta".to_string()),
        (boxed(20, 0, 0, 2, 2, 2), "gamma".to_string()),
    ];
    let boxes: Vec<Aabb> = pairs_in.iter().map(|p| p.0).collect();
    let mut bvh = BVH::new();
    bvh.build_with_guids(&pairs_in);
    let guid_pairs = bvh.check_all_collisions_guids(&boxes);
    assert_eq!(guid_pairs, vec![("alpha".to_string(), "beta".to_string())]);
}

#[test]
fn test_radix_sort_orders_by_code_then_ordinal() {
    let keys = vec![
        MortonKey { object_ordinal: 0, code: 7 },
        MortonKey { object_ordinal: 1, code: 3 },
        MortonKey { object_ordinal: 2, code: 7 },
        MortonKey { object_ordinal: 3, code: 0x3FFFFFFF },
        MortonKey { object_ordinal: 4, code: 0 },
    ];
    let sorted = radix_sort_by_code(keys);
    let got: Vec<(usize, u32)> = sorted.iter().map(|k| (k.object_ordinal, k.code)).collect();
    assert_eq!(
        got,
        vec![(4, 0), (1, 3), (0, 7), (2, 7), (3, 0x3FFFFFFF)]
    );
}

#[test]
fn test_morton_clamps_outside_world() {
    // Positions beyond the world volume clamp to the boundary cells.
    let low = calculate_morton_code(-1000, -1000, -1000, 100);
    assert_eq!(low, 0);
    let high = calculate_morton_code(1000, 1000, 1000, 100);
    assert_eq!(high, 0x3FFFFFFF);
}
