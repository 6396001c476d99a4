use cwbvh::aabb::{Aabb, IVec3};
use cwbvh::bvh2::{build_bvh2, Bvh2Node};
use cwbvh::cwbvh::{build_cwbvh, build_primitives_from_aabbs, build_primitives_from_tris,
    finish_cwbvh, CwBvh, CwBvhNode, Triangle};
use cwbvh::node::{BuildPrimitive, NodeArena};

fn boxed(min: (i32, i32, i32), max: (i32, i32, i32)) -> Aabb {
    Aabb {
        min: IVec3 { x: min.0, y: min.1, z: min.2 },
        max: IVec3 { x: max.0, y: max.1, z: max.2 },
    }
}

fn leaf_of(arena: &mut NodeArena, bounds: Aabb, ids: &[u32]) -> usize {
    let prims: Vec<BuildPrimitive> = ids
        .iter()
        .map(|&id| BuildPrimitive { bounds, prim_id: id })
        .collect();
    arena.create_leaf(&prims)
}

fn identity_indices(n: u32) -> Vec<u32> {
    (0..n).collect()
}

// Decode one slot of an encoded record and check the quantized box
// contains the true child box (the containment invariant, at runtime).
fn assert_slot_contains(rec: &CwBvhNode, s: usize, child: &Aabb) {
    let p = [rec.p.x as i64, rec.p.y as i64, rec.p.z as i64];
    let mins = [rec.child_min_x[s], rec.child_min_y[s], rec.child_min_z[s]];
    let maxs = [rec.child_max_x[s], rec.child_max_y[s], rec.child_max_z[s]];
    let cmin = [child.min.x as i64, child.min.y as i64, child.min.z as i64];
    let cmax = [child.max.x as i64, child.max.y as i64, child.max.z as i64];
    for axis in 0..3 {
        assert!(rec.e[axis] >= 127);
        let step = 1i64 << (rec.e[axis] - 127);
        let lo = p[axis] + mins[axis] as i64 * step;
        let hi = p[axis] + maxs[axis] as i64 * step;
        assert!(lo <= cmin[axis], "decoded min exceeds true min on axis {}", axis);
        assert!(hi >= cmax[axis], "decoded max below true max on axis {}", axis);
        // the near-zero-volume guard keeps every quantized box strictly thick
        assert!(mins[axis] < maxs[axis]);
    }
}

#[test]
fn build_primitives_tags_and_unions() {
    let aabbs = vec![boxed((0, 0, 0), (1, 1, 1)), boxed((4, -2, 0), (6, 0, 3))];
    let (prims, total) = build_primitives_from_aabbs(&aabbs);
    assert_eq!(prims.len(), 2);
    assert_eq!(prims[0].prim_id, 0);
    assert_eq!(prims[1].prim_id, 1);
    assert_eq!(prims[1].bounds, aabbs[1]);
    assert_eq!(total, boxed((0, -2, 0), (6, 1, 3)));
}

#[test]
fn triangle_aabb_is_vertex_extremes() {
    let t = Triangle {
        v0: IVec3 { x: 0, y: 0, z: 0 },
        v1: IVec3 { x: 4, y: 0, z: 0 },
        v2: IVec3 { x: 0, y: 4, z: 4 },
    };
    assert_eq!(t.aabb(), boxed((0, 0, 0), (4, 4, 4)));
    let (prims, total) = build_primitives_from_tris(&vec![t]);
    assert_eq!(prims[0].prim_id, 0);
    assert_eq!(total, boxed((0, 0, 0), (4, 4, 4)));
}

#[test]
fn empty_artifact_for_no_primitives() {
    let bvh = CwBvh::empty();
    assert_eq!(bvh.nodes.len(), 0);
    assert_eq!(bvh.primitive_indices.len(), 0);
    assert!(!bvh.uses_spatial_splits);
}

// Exact quantization bytes: extent 510 needs a step of 2 (smallest power
// of two with 255 steps covering 510), so the exponent byte is 127 + 1.
#[test]
fn quantization_bytes_are_exact() {
    let total = boxed((0, 0, 0), (510, 510, 510));
    let mut arena = NodeArena::new();
    let root = arena.create_node(1);
    let leaf = leaf_of(&mut arena, total, &[0]);
    arena.set_node_children(root, &vec![leaf]);
    arena.set_node_bounds(root, &vec![total]);
    let input = identity_indices(1);
    let bvh = build_cwbvh(&arena, &input, &total, root, false);
    assert_eq!(bvh.nodes.len(), 1);
    let rec = &bvh.nodes[0];
    assert_eq!((rec.p.x, rec.p.y, rec.p.z), (0, 0, 0));
    assert_eq!(rec.e, [128, 128, 128]);
    assert_eq!(rec.child_min_x[0], 0);
    assert_eq!(rec.child_max_x[0], 255);
    assert_eq!(rec.child_meta[0], 0x20);
    assert_eq!(rec.imask, 0);
    assert_eq!(rec.child_base_idx, 1);
    assert_eq!(rec.primitive_base_idx, 0);
    assert_slot_contains(rec, 0, &total);
}

// An off-origin child: the floor/ceil rounding must stay conservative.
#[test]
fn quantization_rounds_outward() {
    let total = boxed((0, 0, 0), (510, 510, 510));
    let child = boxed((3, 5, 7), (9, 11, 13));
    let mut arena = NodeArena::new();
    let root = arena.create_node(1);
    let leaf = leaf_of(&mut arena, child, &[0]);
    arena.set_node_children(root, &vec![leaf]);
    arena.set_node_bounds(root, &vec![child]);
    let input = identity_indices(1);
    let bvh = build_cwbvh(&arena, &input, &total, root, false);
    let rec = &bvh.nodes[0];
    // step is 2: floor(3/2) = 1, ceil(9/2) = 5
    assert_eq!(rec.child_min_x[0], 1);
    assert_eq!(rec.child_max_x[0], 5);
    assert_slot_contains(rec, 0, &child);
}

// A child box with no thickness on one axis, aligned to the step grid:
// the rounding alone would collapse the two bytes to one value, and the
// near-zero-volume guard must pad the pair outward by one step.
#[test]
fn zero_thickness_child_is_padded() {
    let total = boxed((0, 0, 0), (255, 255, 255));
    let child = boxed((10, 10, 10), (20, 20, 10));
    let mut arena = NodeArena::new();
    let root = arena.create_node(1);
    let leaf = leaf_of(&mut arena, child, &[0]);
    arena.set_node_children(root, &vec![leaf]);
    arena.set_node_bounds(root, &vec![child]);
    let input = identity_indices(1);
    let bvh = build_cwbvh(&arena, &input, &total, root, false);
    let rec = &bvh.nodes[0];
    // step is 1 on every axis; z collapses to 10 and is padded to 10..11
    assert_eq!(rec.e, [127, 127, 127]);
    assert_eq!(rec.child_min_z[0], 10);
    assert_eq!(rec.child_max_z[0], 11);
    assert_eq!(rec.child_min_x[0], 10);
    assert_eq!(rec.child_max_x[0], 20);
    assert_slot_contains(rec, 0, &child);
}

// Round trip on a single triangle: one leaf holding exactly that
// triangle's id, and the total box equal to the triangle's own box.
#[test]
fn single_triangle_round_trip() {
    let t = Triangle {
        v0: IVec3 { x: 0, y: 0, z: 0 },
        v1: IVec3 { x: 4, y: 0, z: 0 },
        v2: IVec3 { x: 0, y: 4, z: 4 },
    };
    let (prims, total) = build_primitives_from_tris(&vec![t]);
    assert_eq!(total, t.aabb());
    let mut arena = NodeArena::new();
    let root = arena.create_node(1);
    let leaf = arena.create_leaf(&vec![prims[0]]);
    arena.set_node_children(root, &vec![leaf]);
    arena.set_node_bounds(root, &vec![prims[0].bounds]);
    let input = identity_indices(1);
    let bvh = finish_cwbvh(&mut arena, &input, &total, root, false);
    assert_eq!(bvh.total_aabb, t.aabb());
    assert_eq!(bvh.primitive_indices, vec![0]);
    assert_eq!(bvh.nodes.len(), 1);
    let rec = &bvh.nodes[0];
    let leaf_slots: Vec<usize> = (0..8).filter(|&s| rec.child_meta[s] != 0).collect();
    assert_eq!(leaf_slots.len(), 1);
    assert_eq!(rec.child_meta[leaf_slots[0]] & 0xE0, 0x20);
}

// Two disjoint unit cubes, one at the origin and one at (10,10,10):
// one inner root with exactly two occupied slots, each a one-primitive
// leaf, and a total box from the origin to (11,11,11).
#[test]
fn two_disjoint_cubes() {
    let aabbs = vec![boxed((0, 0, 0), (1, 1, 1)), boxed((10, 10, 10), (11, 11, 11))];
    let (prims, total) = build_primitives_from_aabbs(&aabbs);
    assert_eq!(total, boxed((0, 0, 0), (11, 11, 11)));
    let mut arena = NodeArena::new();
    let root = arena.create_node(2);
    let l0 = arena.create_leaf(&vec![prims[0]]);
    let l1 = arena.create_leaf(&vec![prims[1]]);
    arena.set_node_children(root, &vec![l0, l1]);
    arena.set_node_bounds(root, &vec![aabbs[0], aabbs[1]]);
    let input = identity_indices(2);
    let bvh = finish_cwbvh(&mut arena, &input, &total, root, false);
    assert_eq!(bvh.total_aabb, boxed((0, 0, 0), (11, 11, 11)));
    assert_eq!(bvh.nodes.len(), 1);
    let rec = &bvh.nodes[0];
    let occupied: Vec<usize> = (0..8).filter(|&s| rec.child_meta[s] != 0).collect();
    assert_eq!(occupied.len(), 2);
    for &s in &occupied {
        // each occupied slot is a leaf with exactly one primitive
        assert_eq!(rec.child_meta[s] & 0xE0, 0x20);
    }
    assert_eq!(rec.imask, 0);
    let mut ids = bvh.primitive_indices.clone();
    ids.sort();
    assert_eq!(ids, vec![0, 1]);
}

// Nine primitives under a max leaf size of three force several leaves;
// the root has between one and eight occupied slots, and everything past
// the occupied ones is the zero sentinel.
#[test]
fn nine_primitives_three_leaves() {
    let mut aabbs = Vec::new();
    for i in 0..9i32 {
        aabbs.push(boxed((2 * i, 0, 0), (2 * i + 1, 1, 1)));
    }
    let (prims, total) = build_primitives_from_aabbs(&aabbs);
    let mut arena = NodeArena::new();
    let root = arena.create_node(3);
    let mut leaves = Vec::new();
    let mut bounds = Vec::new();
    for chunk in prims.chunks(3) {
        let b = chunk[1..]
            .iter()
            .fold(chunk[0].bounds, |acc, p| acc.union(&p.bounds));
        leaves.push(leaf_of_prims(&mut arena, chunk));
        bounds.push(b);
    }
    arena.set_node_children(root, &leaves);
    arena.set_node_bounds(root, &bounds);
    let input = identity_indices(9);
    arena.order_subtree(root, &total);
    let bvh = build_cwbvh(&arena, &input, &total, root, false);
    assert_eq!(bvh.nodes.len(), 1);
    let rec = &bvh.nodes[0];
    let occupied: Vec<usize> = (0..8).filter(|&s| rec.child_meta[s] != 0).collect();
    assert!(1 <= occupied.len() && occupied.len() <= 8);
    // no inner children at all, so every imask bit is zero
    assert_eq!(rec.imask, 0);
    for s in 0..8 {
        if !occupied.contains(&s) {
            assert_eq!(rec.child_meta[s], 0, "unoccupied slot must hold the zero sentinel");
        }
    }
    // all nine primitives are referenced, in leaf runs of three
    let mut ids = bvh.primitive_indices.clone();
    ids.sort();
    assert_eq!(ids, (0..9).collect::<Vec<u32>>());
    let mut leaf_total = 0u32;
    for &s in &occupied {
        let pattern = rec.child_meta[s] >> 5;
        let count = pattern.count_ones();
        assert!(1 <= count && count <= 3);
        leaf_total += count;
    }
    assert_eq!(leaf_total, 9);
    assert!(leaf_total <= 24);
}

fn leaf_of_prims(arena: &mut NodeArena, prims: &[BuildPrimitive]) -> usize {
    arena.create_leaf(&prims.to_vec())
}

// The largest leaf load one node can carry: eight slots of three
// primitives each, exactly the budget of 24, with distinct run offsets.
#[test]
fn full_leaf_budget_of_twenty_four() {
    let mut aabbs = Vec::new();
    for i in 0..24i32 {
        aabbs.push(boxed((i, 0, 0), (i + 1, 1, 1)));
    }
    let (prims, total) = build_primitives_from_aabbs(&aabbs);
    let mut arena = NodeArena::new();
    let root = arena.create_node(8);
    let mut leaves = Vec::new();
    let mut bounds = Vec::new();
    for chunk in prims.chunks(3) {
        let b = chunk[1..]
            .iter()
            .fold(chunk[0].bounds, |acc, p| acc.union(&p.bounds));
        leaves.push(leaf_of_prims(&mut arena, chunk));
        bounds.push(b);
    }
    arena.set_node_children(root, &leaves);
    arena.set_node_bounds(root, &bounds);
    let input = identity_indices(24);
    let bvh = build_cwbvh(&arena, &input, &total, root, false);
    let rec = &bvh.nodes[0];
    let mut offsets = Vec::new();
    let mut sum = 0u32;
    for s in 0..8 {
        assert_eq!(rec.child_meta[s] >> 5, 0b111, "every slot holds a 3-primitive leaf");
        offsets.push(rec.child_meta[s] & 0x1F);
        sum += 3;
    }
    assert_eq!(sum, 24);
    assert_eq!(offsets, vec![0, 3, 6, 9, 12, 15, 18, 21]);
    assert_eq!(bvh.primitive_indices.len(), 24);
}

// A two-level tree: the root's single inner child is addressed
// contiguously right after the root, its meta byte carries the slot
// marker, and the primitive runs land in traversal order.
#[test]
fn inner_children_are_contiguous() {
    let child_box = boxed((0, 0, 0), (4, 4, 4));
    let leaf1_box = boxed((8, 8, 8), (9, 9, 9));
    let l00_box = boxed((0, 0, 0), (2, 2, 2));
    let l01_box = boxed((2, 2, 2), (4, 4, 4));
    let total = boxed((0, 0, 0), (9, 9, 9));

    let mut arena = NodeArena::new();
    let root = arena.create_node(2);
    let a = arena.create_node(2);
    let l1 = leaf_of(&mut arena, leaf1_box, &[0]);
    let l00 = leaf_of(&mut arena, l00_box, &[1]);
    let l01 = leaf_of(&mut arena, l01_box, &[2]);
    arena.set_node_children(root, &vec![a, l1]);
    arena.set_node_bounds(root, &vec![child_box, leaf1_box]);
    arena.set_node_children(a, &vec![l00, l01]);
    arena.set_node_bounds(a, &vec![l00_box, l01_box]);

    let input = identity_indices(3);
    let bvh = build_cwbvh(&arena, &input, &total, root, false);
    assert_eq!(bvh.nodes.len(), 2);
    let rec = &bvh.nodes[0];
    assert_eq!(rec.child_base_idx, 1);
    assert_eq!(rec.primitive_base_idx, 0);
    // slot 0 holds the inner child: meta (24 + 0) | 0x20 and imask bit 0
    assert_eq!(rec.child_meta[0], 56);
    assert_eq!(rec.imask, 1);
    // slot 1 holds the leaf with offset 0 in this node's run
    assert_eq!(rec.child_meta[1], 0x20);
    assert_slot_contains(rec, 0, &child_box);
    assert_slot_contains(rec, 1, &leaf1_box);

    let inner_rec = &bvh.nodes[1];
    assert_eq!(inner_rec.p, child_box.min);
    assert_eq!(inner_rec.primitive_base_idx, 1);
    assert_eq!(inner_rec.child_meta[0], 0x20);
    assert_eq!(inner_rec.child_meta[1], 0x21);
    assert_slot_contains(inner_rec, 0, &l00_box);
    assert_slot_contains(inner_rec, 1, &l01_box);

    // root's leaf run first, then the inner child's run
    assert_eq!(bvh.primitive_indices, vec![0, 1, 2]);
}

// The input indirection is applied: primitive ids are looked up in the
// caller-supplied mapping, not copied through.
#[test]
fn input_indirection_is_applied() {
    let total = boxed((0, 0, 0), (4, 4, 4));
    let mut arena = NodeArena::new();
    let root = arena.create_node(1);
    let leaf = leaf_of(&mut arena, total, &[0, 1]);
    arena.set_node_children(root, &vec![leaf]);
    arena.set_node_bounds(root, &vec![total]);
    let input = vec![42, 7];
    let bvh = build_cwbvh(&arena, &input, &total, root, false);
    assert_eq!(bvh.primitive_indices, vec![42, 7]);
    assert_eq!(bvh.nodes[0].child_meta[0], 0x60);
}

#[test]
fn bvh2_two_leaves() {
    let a = boxed((0, 0, 0), (1, 1, 1));
    let b = boxed((10, 10, 10), (11, 11, 11));
    let total = boxed((0, 0, 0), (11, 11, 11));
    let mut arena = NodeArena::new();
    let root = arena.create_node(2);
    let l0 = leaf_of(&mut arena, a, &[0]);
    let l1 = leaf_of(&mut arena, b, &[1]);
    arena.set_node_children(root, &vec![l0, l1]);
    arena.set_node_bounds(root, &vec![a, b]);
    let input = identity_indices(2);
    let bvh2 = build_bvh2(&arena, &input, &total, root);
    assert_eq!(bvh2.nodes.len(), 3);
    assert_eq!(
        bvh2.nodes[0],
        Bvh2Node { aabb: total, prim_count: 0, first_index: 1 }
    );
    assert_eq!(bvh2.nodes[1], Bvh2Node { aabb: a, prim_count: 1, first_index: 0 });
    assert_eq!(bvh2.nodes[2], Bvh2Node { aabb: b, prim_count: 1, first_index: 1 });
    assert_eq!(bvh2.primitive_indices, vec![0, 1]);
}

// Binary bounds equality, checked over every inner record of a deeper
// tree: each recorded box is exactly the union of its two children's.
#[test]
fn bvh2_bounds_equality_holds_everywhere() {
    let l00_box = boxed((0, 0, 0), (2, 2, 2));
    let l01_box = boxed((2, 0, 0), (4, 2, 2));
    let inner_box = l00_box.union(&l01_box);
    let l1_box = boxed((8, 8, 8), (9, 9, 9));
    let total = inner_box.union(&l1_box);

    let mut arena = NodeArena::new();
    let root = arena.create_node(2);
    let a = arena.create_node(2);
    let l1 = leaf_of(&mut arena, l1_box, &[0]);
    let l00 = leaf_of(&mut arena, l00_box, &[1]);
    let l01 = leaf_of(&mut arena, l01_box, &[2]);
    arena.set_node_children(root, &vec![a, l1]);
    arena.set_node_bounds(root, &vec![inner_box, l1_box]);
    arena.set_node_children(a, &vec![l00, l01]);
    arena.set_node_bounds(a, &vec![l00_box, l01_box]);

    let input = identity_indices(3);
    let bvh2 = build_bvh2(&arena, &input, &total, root);
    assert_eq!(bvh2.nodes.len(), 5);
    for i in 0..bvh2.nodes.len() {
        let rec = &bvh2.nodes[i];
        if rec.prim_count == 0 {
            let fi = rec.first_index as usize;
            let union = bvh2.nodes[fi].aabb.union(&bvh2.nodes[fi + 1].aabb);
            assert_eq!(union, rec.aabb, "inner record {} bounds mismatch", i);
            assert_eq!(union.min, rec.aabb.min);
            assert_eq!(union.max, rec.aabb.max);
        } else {
            let fi = rec.first_index as usize;
            let n = rec.prim_count as usize;
            assert!(fi + n <= bvh2.primitive_indices.len());
        }
    }
    // layout: root, its two children, then the inner child's two children
    assert_eq!(bvh2.nodes[1].prim_count, 0);
    assert_eq!(bvh2.nodes[1].first_index, 3);
    assert_eq!(bvh2.primitive_indices, vec![0, 1, 2]);
}
