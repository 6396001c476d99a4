use cwbvh::aabb::{Aabb, IVec3};
use cwbvh::node::{BuildPrimitive, Inner, Node, NodeArena, BRANCHING};
use cwbvh::split::split_primitive;

fn boxed(min: (i32, i32, i32), max: (i32, i32, i32)) -> Aabb {
    Aabb {
        min: IVec3 { x: min.0, y: min.1, z: min.2 },
        max: IVec3 { x: max.0, y: max.1, z: max.2 },
    }
}

#[test]
fn union_takes_componentwise_extremes() {
    let a = boxed((0, 0, 0), (1, 1, 1));
    let b = boxed((10, 10, 10), (11, 11, 11));
    let u = a.union(&b);
    assert_eq!(u, boxed((0, 0, 0), (11, 11, 11)));
}

#[test]
fn union_with_invalid_is_identity() {
    let a = boxed((-3, 5, 7), (2, 6, 9));
    let u = Aabb::invalid().union(&a);
    assert_eq!(u, a);
    let u2 = a.union(&Aabb::invalid());
    assert_eq!(u2, a);
}

#[test]
fn intersection_shrinks() {
    let a = boxed((0, 0, 0), (10, 10, 10));
    let b = boxed((5, -5, 2), (15, 5, 8));
    let i = a.intersection(&b);
    assert_eq!(i, boxed((5, 0, 2), (10, 5, 8)));
}

#[test]
fn center_rounds_toward_min() {
    let a = boxed((0, 0, -5), (5, 4, -1));
    let c = a.center();
    assert_eq!((c.x, c.y, c.z), (2, 2, -3));
}

#[test]
fn validity_test() {
    assert!(boxed((0, 0, 0), (0, 0, 0)).is_valid());
    assert!(!Aabb::invalid().is_valid());
}

#[test]
fn create_node_allocates_empty_slots() {
    let mut arena = NodeArena::new();
    let idx = arena.create_node(2);
    assert_eq!(idx, 0);
    assert_eq!(arena.len(), 1);
    match &arena.nodes[0] {
        Node::Inner(inner) => {
            assert_eq!(inner.children.len(), BRANCHING);
            for slot in &inner.children {
                assert!(slot.child.is_none());
                assert!(!slot.bounds.is_valid());
            }
        }
        Node::Leaf(_) => panic!("expected an inner node"),
    }
}

#[test]
fn create_leaf_unions_bounds_and_copies_ids() {
    let mut arena = NodeArena::new();
    let prims = vec![
        BuildPrimitive { bounds: boxed((0, 0, 0), (1, 2, 3)), prim_id: 7 },
        BuildPrimitive { bounds: boxed((-1, 5, 0), (0, 6, 1)), prim_id: 9 },
    ];
    let idx = arena.create_leaf(&prims);
    match &arena.nodes[idx] {
        Node::Leaf(leaf) => {
            assert_eq!(leaf.prims, vec![7, 9]);
            assert_eq!(leaf.bounds, boxed((-1, 0, 0), (1, 6, 3)));
        }
        Node::Inner(_) => panic!("expected a leaf"),
    }
}

#[test]
fn children_and_bounds_arrive_in_either_order() {
    let mut arena = NodeArena::new();
    let root = arena.create_node(2);
    let l0 = arena.create_leaf(&vec![BuildPrimitive {
        bounds: boxed((0, 0, 0), (1, 1, 1)),
        prim_id: 0,
    }]);
    let l1 = arena.create_leaf(&vec![BuildPrimitive {
        bounds: boxed((4, 4, 4), (5, 5, 5)),
        prim_id: 1,
    }]);
    // bounds first, children second
    arena.set_node_bounds(root, &vec![boxed((0, 0, 0), (1, 1, 1)), boxed((4, 4, 4), (5, 5, 5))]);
    arena.set_node_children(root, &vec![l0, l1]);
    match &arena.nodes[root] {
        Node::Inner(inner) => {
            assert_eq!(inner.children[0].child, Some(l0));
            assert_eq!(inner.children[0].bounds, boxed((0, 0, 0), (1, 1, 1)));
            assert_eq!(inner.children[1].child, Some(l1));
            assert_eq!(inner.children[1].bounds, boxed((4, 4, 4), (5, 5, 5)));
            assert!(inner.children[2].child.is_none());
        }
        Node::Leaf(_) => panic!("expected an inner node"),
    }
}

#[test]
fn as_inner_distinguishes_kinds() {
    let mut arena = NodeArena::new();
    let root = arena.create_node(0);
    let leaf = arena.create_leaf(&vec![BuildPrimitive {
        bounds: boxed((0, 0, 0), (1, 1, 1)),
        prim_id: 0,
    }]);
    assert!(arena.nodes[root].as_inner().is_some());
    assert!(arena.nodes[leaf].as_inner().is_none());
}

// Place eight children on the eight octant corners of their parent; the
// greedy octant matching must send each one to the slot of the opposite
// direction, and the result is a permutation of the input.
#[test]
fn order_children_matches_octants() {
    let parent = boxed((-20, -20, -20), (20, 20, 20));
    let mut children = Vec::new();
    for t in 0..8usize {
        let x = if t & 0b100 != 0 { -10 } else { 10 };
        let y = if t & 0b010 != 0 { -10 } else { 10 };
        let z = if t & 0b001 != 0 { -10 } else { 10 };
        children.push(cwbvh::node::ChildSlot {
            child: Some(t + 1),
            bounds: boxed((x - 1, y - 1, z - 1), (x + 1, y + 1, z + 1)),
        });
    }
    let mut inner = Inner { children };
    inner.order_children(&parent);
    for s in 0..8usize {
        // the child whose octant bits are the complement of the slot's
        // direction bits is cheapest there
        assert_eq!(inner.children[s].child, Some((s ^ 0b111) + 1));
    }
}

// Permutation totality on a partially filled node: the same multiset of
// slots comes out, nothing dropped, nothing duplicated.
#[test]
fn order_children_is_a_permutation() {
    let parent = boxed((0, 0, 0), (100, 100, 100));
    let mut children = vec![
        cwbvh::node::ChildSlot { child: None, bounds: Aabb::invalid() };
        BRANCHING
    ];
    children[0] = cwbvh::node::ChildSlot { child: Some(3), bounds: boxed((0, 0, 0), (10, 10, 10)) };
    children[1] = cwbvh::node::ChildSlot {
        child: Some(4),
        bounds: boxed((90, 90, 90), (100, 100, 100)),
    };
    children[2] = cwbvh::node::ChildSlot {
        child: Some(5),
        bounds: boxed((0, 90, 0), (10, 100, 10)),
    };
    let mut inner = Inner { children };
    inner.order_children(&parent);
    assert_eq!(inner.children.len(), BRANCHING);
    let mut found: Vec<usize> = inner.children.iter().filter_map(|s| s.child).collect();
    found.sort();
    assert_eq!(found, vec![3, 4, 5]);
    let empties = inner.children.iter().filter(|s| s.child.is_none()).count();
    assert_eq!(empties, 5);
}

#[test]
fn order_subtree_reorders_recursively() {
    let mut arena = NodeArena::new();
    let root = arena.create_node(2);
    let inner_child = arena.create_node(2);
    let l0 = arena.create_leaf(&vec![BuildPrimitive {
        bounds: boxed((0, 0, 0), (1, 1, 1)),
        prim_id: 0,
    }]);
    let l1 = arena.create_leaf(&vec![BuildPrimitive {
        bounds: boxed((8, 8, 8), (9, 9, 9)),
        prim_id: 1,
    }]);
    arena.set_node_children(root, &vec![inner_child, l1]);
    arena.set_node_bounds(root, &vec![boxed((0, 0, 0), (2, 2, 2)), boxed((8, 8, 8), (9, 9, 9))]);
    arena.set_node_children(inner_child, &vec![l0]);
    arena.set_node_bounds(inner_child, &vec![boxed((0, 0, 0), (1, 1, 1))]);
    let total = boxed((0, 0, 0), (9, 9, 9));
    arena.order_subtree(root, &total);
    // all four nodes still present, leaves untouched
    assert_eq!(arena.len(), 4);
    match &arena.nodes[l0] {
        Node::Leaf(leaf) => assert_eq!(leaf.prims, vec![0]),
        Node::Inner(_) => panic!("leaf changed kind"),
    }
    // the root still references both children, somewhere
    match &arena.nodes[root] {
        Node::Inner(inner) => {
            let mut refs: Vec<usize> = inner.children.iter().filter_map(|s| s.child).collect();
            refs.sort();
            assert_eq!(refs, vec![inner_child, l1]);
        }
        Node::Leaf(_) => panic!("root changed kind"),
    }
}

#[test]
fn split_box_along_each_axis() {
    let b = boxed((0, 0, 0), (10, 10, 10));
    let (l, r) = split_primitive(&b, 0, 4);
    assert_eq!(l, boxed((0, 0, 0), (4, 10, 10)));
    assert_eq!(r, boxed((4, 0, 0), (10, 10, 10)));
    let (l, r) = split_primitive(&b, 1, 7);
    assert_eq!(l, boxed((0, 0, 0), (10, 7, 10)));
    assert_eq!(r, boxed((0, 7, 0), (10, 10, 10)));
    let (l, r) = split_primitive(&b, 2, 0);
    assert_eq!(l, boxed((0, 0, 0), (10, 10, 0)));
    assert_eq!(r, boxed((0, 0, 0), (10, 10, 10)));
}

#[test]
fn split_halves_union_back_exactly() {
    let b = boxed((-5, 2, 3), (5, 8, 9));
    let (l, r) = split_primitive(&b, 0, 1);
    assert_eq!(l.union(&r), b);
    assert!(l.is_valid() && r.is_valid());
}
