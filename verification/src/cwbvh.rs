//! The compressed wide BVH node layout and the encoder that linearizes
//! the n-ary tree into it.
//!
//! Each record covers one inner node: the origin `p` and three per-axis
//! power-of-two step exponents define a local quantization frame; every
//! occupied child slot stores its bounds as byte-quantized offsets in that
//! frame, rounded outward so the decoded box never shrinks the true one.
//! A meta byte per slot tells an inner child (slot index plus the high
//! marker bit) apart from a leaf run (offset into the node's leaf
//! primitives plus a unary count pattern), and `imask` has one bit per
//! inner slot. Children of a node occupy consecutive output indices
//! starting at `child_base_idx`; its leaf primitives occupy consecutive
//! entries of the primitive-index array starting at `primitive_base_idx`.

use vstd::prelude::*;
use vstd::pervasive::unreached;
use vstd::arithmetic::power2::{pow2, lemma_pow2_unfold, lemma2_to64};
use vstd::arithmetic::div_mod::{lemma_fundamental_div_mod, lemma_div_is_ordered};
use crate::aabb::Aabb;
use crate::aabb::IVec3;
use crate::node::{BRANCHING, BuildPrimitive, ChildSlot, Node, NodeArena, node_wf, slot_ok,
    union_all};
use crate::reorder::reorder_related;
use crate::quant::{quant_k, lemma_quant_k_bounds, quant_exponent, quant_floor, quant_ceil,
    lemma_quant_fits_byte};

verus! {

/// One encoded node: a fixed-layout record of the GPU format, with the
/// origin in fixed-point coordinates.
#[derive(Clone, Copy, Debug)]
pub struct CwBvhNode {
    /// Origin of the quantization frame: the minimum corner of the node's
    /// bounds.
    pub p: IVec3,
    /// Per-axis step exponent, biased by 127: the step is `2^(e - 127)`.
    pub e: [u8; 3],
    /// Bit `s` set when child slot `s` holds an inner node.
    pub imask: u8,
    /// First output index of this node's inner children.
    pub child_base_idx: u32,
    /// First entry of this node's leaf run in the primitive-index array.
    pub primitive_base_idx: u32,
    /// Per-slot kind byte: 0 for an empty slot, `(24 + s) | 0x20` for an
    /// inner child, leaf offset plus a count pattern for a leaf child.
    pub child_meta: [u8; 8],
    pub child_min_x: [u8; 8],
    pub child_min_y: [u8; 8],
    pub child_min_z: [u8; 8],
    pub child_max_x: [u8; 8],
    pub child_max_y: [u8; 8],
    pub child_max_z: [u8; 8],
}

pub open spec fn axis_min(b: Aabb, axis: int) -> int {
    if axis == 0 {
        b.min.x as int
    } else if axis == 1 {
        b.min.y as int
    } else {
        b.min.z as int
    }
}

pub open spec fn axis_max(b: Aabb, axis: int) -> int {
    if axis == 0 {
        b.max.x as int
    } else if axis == 1 {
        b.max.y as int
    } else {
        b.max.z as int
    }
}

/// The quantization exponent of `bounds` on `axis`.
pub open spec fn axis_k(bounds: Aabb, axis: int) -> nat {
    quant_k(axis_max(bounds, axis) - axis_min(bounds, axis))
}

/// Byte-quantized lower offset of a child box in its parent's frame.
pub open spec fn q_lo(bounds: Aabb, slot_bounds: Aabb, axis: int) -> int {
    (axis_min(slot_bounds, axis) - axis_min(bounds, axis)) / (pow2(axis_k(bounds, axis)) as int)
}

/// Byte-quantized upper offset of a child box in its parent's frame.
pub open spec fn q_hi(bounds: Aabb, slot_bounds: Aabb, axis: int) -> int {
    let e = pow2(axis_k(bounds, axis)) as int;
    (axis_max(slot_bounds, axis) - axis_min(bounds, axis) + e - 1) / e
}

/// Padded lower byte: when rounding collapses both bytes of an axis to
/// one value (a zero-thickness child aligned to the step grid), the pair
/// is padded outward by one step so the quantized box never has zero
/// thickness and cannot fail an intersection test.
pub open spec fn q_lo_pad(bounds: Aabb, slot_bounds: Aabb, axis: int) -> int {
    let lo = q_lo(bounds, slot_bounds, axis);
    let hi = q_hi(bounds, slot_bounds, axis);
    if lo == hi && hi >= 255 {
        lo - 1
    } else {
        lo
    }
}

/// Padded upper byte; see `q_lo_pad`.
pub open spec fn q_hi_pad(bounds: Aabb, slot_bounds: Aabb, axis: int) -> int {
    let lo = q_lo(bounds, slot_bounds, axis);
    let hi = q_hi(bounds, slot_bounds, axis);
    if lo == hi && hi < 255 {
        hi + 1
    } else {
        hi
    }
}

pub open spec fn slot_occupied(slot: ChildSlot) -> bool {
    slot.child is Some
}

pub open spec fn the_child(slot: ChildSlot) -> int {
    match slot.child {
        Option::Some(c) => c as int,
        Option::None => -1,
    }
}

/// The slot holds an inner child.
pub open spec fn slot_is_inner(arena: NodeArena, slot: ChildSlot) -> bool {
    &&& slot.child is Some
    &&& 0 <= the_child(slot) < arena.nodes@.len()
    &&& arena.nodes@[the_child(slot)] is Inner
}

/// The slot holds a leaf child.
pub open spec fn slot_is_leaf(arena: NodeArena, slot: ChildSlot) -> bool {
    &&& slot.child is Some
    &&& 0 <= the_child(slot) < arena.nodes@.len()
    &&& arena.nodes@[the_child(slot)] is Leaf
}

pub open spec fn slot_leaf_count(arena: NodeArena, slot: ChildSlot) -> int {
    if slot_is_leaf(arena, slot) {
        arena.nodes@[the_child(slot)]->Leaf_0.prims@.len() as int
    } else {
        0
    }
}

/// Number of leaf primitives in slots before `s`: the offset of slot `s`'s
/// leaf run within its node's run.
pub open spec fn leaf_prims_before(arena: NodeArena, children: Seq<ChildSlot>, s: int) -> int
    decreases s,
{
    if s <= 0 {
        0
    } else {
        leaf_prims_before(arena, children, s - 1) + slot_leaf_count(arena, children[s - 1])
    }
}

/// Number of occupied inner slots before `s`: the rank of slot `s` among
/// its node's inner children.
pub open spec fn inner_rank(arena: NodeArena, children: Seq<ChildSlot>, s: int) -> int
    decreases s,
{
    if s <= 0 {
        0
    } else {
        inner_rank(arena, children, s - 1) + if slot_is_inner(arena, children[s - 1]) {
            1int
        } else {
            0int
        }
    }
}

/// The inner-slot mask restricted to slots before `s`.
pub open spec fn imask_prefix(arena: NodeArena, children: Seq<ChildSlot>, s: int) -> int
    decreases s,
{
    if s <= 0 {
        0
    } else {
        imask_prefix(arena, children, s - 1) + if slot_is_inner(arena, children[s - 1]) {
            pow2((s - 1) as nat) as int
        } else {
            0int
        }
    }
}

/// The meta-byte pattern marking a 1-, 2- or 3-primitive leaf.
pub open spec fn leaf_meta_pattern(count: int) -> int {
    if count == 1 {
        0x20
    } else if count == 2 {
        0x60
    } else {
        0xE0
    }
}

/// The meta byte of slot `s`.
pub open spec fn slot_meta(arena: NodeArena, children: Seq<ChildSlot>, s: int) -> int {
    let slot = children[s];
    if !slot_occupied(slot) {
        0
    } else if slot_is_inner(arena, slot) {
        56 + s
    } else {
        leaf_prims_before(arena, children, s) + leaf_meta_pattern(slot_leaf_count(arena, slot))
    }
}

/// One-level encodability of an inner node's child array: every occupied
/// slot points into the arena, carries a valid box inside the node's
/// bounds, and a leaf child holds one to three primitives.
pub open spec fn cw_slot_ok(arena: NodeArena, slot: ChildSlot, bounds: Aabb) -> bool {
    slot.child matches Some(c) ==> {
        &&& 0 <= c < arena.nodes@.len()
        &&& slot.bounds.valid()
        &&& bounds.contains_box(slot.bounds)
        &&& (arena.nodes@[c as int] matches Node::Leaf(l) ==> 1 <= l.prims@.len() <= 3)
    }
}

pub open spec fn cw_node_ok(arena: NodeArena, children: Seq<ChildSlot>, bounds: Aabb) -> bool {
    &&& bounds.valid()
    &&& children.len() == BRANCHING
    &&& forall|s: int| 0 <= s < BRANCHING ==> cw_slot_ok(arena, #[trigger] children[s], bounds)
}

/// What the encoder writes for one node: every field of `rec` as a
/// function of the child array, the node's bounds and the arena.
pub open spec fn encodes_node(
    arena: NodeArena,
    children: Seq<ChildSlot>,
    bounds: Aabb,
    rec: CwBvhNode,
) -> bool {
    &&& rec.p == bounds.min
    &&& forall|a: int| 0 <= a < 3 ==> #[trigger] rec.e@[a] == 127 + axis_k(bounds, a)
    &&& rec.imask == imask_prefix(arena, children, BRANCHING as int)
    &&& forall|s: int| 0 <= s < BRANCHING ==> #[trigger] rec.child_meta@[s] == slot_meta(
        arena,
        children,
        s,
    )
    &&& forall|s: int|
        0 <= s < BRANCHING && slot_occupied(children[s]) ==> {
            &&& #[trigger] rec.child_min_x@[s] == q_lo_pad(bounds, children[s].bounds, 0)
            &&& rec.child_min_y@[s] == q_lo_pad(bounds, children[s].bounds, 1)
            &&& rec.child_min_z@[s] == q_lo_pad(bounds, children[s].bounds, 2)
            &&& rec.child_max_x@[s] == q_hi_pad(bounds, children[s].bounds, 0)
            &&& rec.child_max_y@[s] == q_hi_pad(bounds, children[s].bounds, 1)
            &&& rec.child_max_z@[s] == q_hi_pad(bounds, children[s].bounds, 2)
        }
    &&& forall|s: int|
        0 <= s < BRANCHING && !slot_occupied(children[s]) ==> {
            &&& #[trigger] rec.child_min_x@[s] == 0
            &&& rec.child_min_y@[s] == 0
            &&& rec.child_min_z@[s] == 0
            &&& rec.child_max_x@[s] == 0
            &&& rec.child_max_y@[s] == 0
            &&& rec.child_max_z@[s] == 0
        }
}

/// Decoded lower corner of slot `s` on `axis`: `p + quantized * 2^(e-127)`.
pub open spec fn decoded_lo(rec: CwBvhNode, s: int, axis: int) -> int {
    let q: int = if axis == 0 {
        rec.child_min_x@[s] as int
    } else if axis == 1 {
        rec.child_min_y@[s] as int
    } else {
        rec.child_min_z@[s] as int
    };
    axis_min(Aabb { min: rec.p, max: rec.p }, axis) + q * pow2((rec.e@[axis] - 127) as nat)
}

/// Decoded upper corner of slot `s` on `axis`.
pub open spec fn decoded_hi(rec: CwBvhNode, s: int, axis: int) -> int {
    let q: int = if axis == 0 {
        rec.child_max_x@[s] as int
    } else if axis == 1 {
        rec.child_max_y@[s] as int
    } else {
        rec.child_max_z@[s] as int
    };
    axis_min(Aabb { min: rec.p, max: rec.p }, axis) + q * pow2((rec.e@[axis] - 127) as nat)
}

/// Bounds containment: on every axis of every occupied slot of an encoded
/// node, the decoded quantized box contains the slot's true child bounds,
/// and the quantized minimum never exceeds the quantized maximum.
pub proof fn lemma_bounds_containment(
    arena: NodeArena,
    children: Seq<ChildSlot>,
    bounds: Aabb,
    rec: CwBvhNode,
    s: int,
    axis: int,
)
    requires
        cw_node_ok(arena, children, bounds),
        encodes_node(arena, children, bounds, rec),
        0 <= s < BRANCHING,
        slot_occupied(children[s]),
        0 <= axis < 3,
    ensures
        decoded_lo(rec, s, axis) <= axis_min(children[s].bounds, axis),
        axis_max(children[s].bounds, axis) <= decoded_hi(rec, s, axis),
        0 <= q_lo_pad(bounds, children[s].bounds, axis) < q_hi_pad(bounds, children[s].bounds, axis)
            <= 255,
{
    let sb = children[s].bounds;
    let k = axis_k(bounds, axis);
    let e = pow2(k) as int;
    let ext = axis_max(bounds, axis) - axis_min(bounds, axis);
    let d_lo = axis_min(sb, axis) - axis_min(bounds, axis);
    let d_hi = axis_max(sb, axis) - axis_min(bounds, axis);
    assert(cw_slot_ok(arena, children[s], bounds));
    assert(0 <= d_lo <= d_hi <= ext);
    lemma_quant_k_bounds(ext);
    assert(ext <= 255 * e);
    assert(e >= 1) by {
        vstd::arithmetic::power2::lemma_pow2_pos(k);
    }
    let ql = q_lo(bounds, sb, axis);
    let qh = q_hi(bounds, sb, axis);
    let qlp = q_lo_pad(bounds, sb, axis);
    let qhp = q_hi_pad(bounds, sb, axis);
    // pull the byte values of this slot out of the encoding
    assert(rec.child_min_x@[s] == q_lo_pad(bounds, children[s].bounds, 0));
    assert(rec.child_min_y@[s] == q_lo_pad(bounds, children[s].bounds, 1));
    assert(rec.child_min_z@[s] == q_lo_pad(bounds, children[s].bounds, 2));
    assert(rec.child_max_x@[s] == q_hi_pad(bounds, children[s].bounds, 0));
    assert(rec.child_max_y@[s] == q_hi_pad(bounds, children[s].bounds, 1));
    assert(rec.child_max_z@[s] == q_hi_pad(bounds, children[s].bounds, 2));
    lemma_fundamental_div_mod(d_lo, e);
    lemma_fundamental_div_mod(d_hi + e - 1, e);
    assert(e * (d_lo / e) == (d_lo / e) * e) by (nonlinear_arith);
    assert(e * ((d_hi + e - 1) / e) == ((d_hi + e - 1) / e) * e) by (nonlinear_arith);
    assert(ql * e <= d_lo);
    assert(qh * e >= d_hi);
    // the exponent byte decodes back to the same step
    assert(rec.e@[axis] == 127 + k);
    assert((rec.e@[axis] - 127) as nat == k);
    assert(decoded_lo(rec, s, axis) == axis_min(bounds, axis) + qlp * e);
    assert(decoded_hi(rec, s, axis) == axis_min(bounds, axis) + qhp * e);
    // byte range
    lemma_quant_fits_byte(d_lo, e);
    lemma_quant_fits_byte(d_hi, e);
    assert(ql >= 0) by {
        vstd::arithmetic::div_mod::lemma_div_pos_is_pos(d_lo, e);
    }
    // floor of a smaller offset never exceeds ceil of a larger one
    lemma_div_is_ordered(d_lo, d_hi + e - 1, e);
    // the outward padding moves each byte away from the child, never in
    assert((ql - 1) * e == ql * e - e) by (nonlinear_arith);
    assert((qh + 1) * e == qh * e + e) by (nonlinear_arith);
    assert(qlp * e <= ql * e);
    assert(qhp * e >= qh * e);
}

/// Byte value of two raised to `s`, for a slot index.
fn pow2_u8(s: usize) -> (r: u8)
    requires
        s < 8,
    ensures
        r == pow2(s as nat),
{
    proof {
        lemma2_to64();
    }
    if s == 0 {
        1
    } else if s == 1 {
        2
    } else if s == 2 {
        4
    } else if s == 3 {
        8
    } else if s == 4 {
        16
    } else if s == 5 {
        32
    } else if s == 6 {
        64
    } else {
        128
    }
}

/// Quantize one axis of one child box into its parent's frame: the floor
/// of the lower offset and the ceiling of the upper offset, in steps of
/// `e`.
fn quant_pair(pmin: i32, smin: i32, smax: i32, e: u64) -> (r: (u8, u8))
    requires
        1 <= e <= 0x200_0000,
        pmin <= smin <= smax,
        smax as int - pmin as int <= 255 * e,
    ensures
        ({
            let lo = (smin as int - pmin as int) / e as int;
            let hi = (smax as int - pmin as int + e - 1) as int / e as int;
            &&& r.0 == (if lo == hi && hi >= 255 {
                lo - 1
            } else {
                lo
            })
            &&& r.1 == (if lo == hi && hi < 255 {
                hi + 1
            } else {
                hi
            })
        }),
{
    let d_lo: u64 = (smin as i64 - pmin as i64) as u64;
    let d_hi: u64 = (smax as i64 - pmin as i64) as u64;
    let ql = quant_floor(d_lo, e);
    let qh = quant_ceil(d_hi, e);
    proof {
        lemma_quant_fits_byte(d_lo as int, e as int);
        lemma_quant_fits_byte(d_hi as int, e as int);
        lemma_div_is_ordered(d_lo as int, (255 * e) as int, e as int);
    }
    // Near-zero-volume guard: a collapsed pair is padded out one step.
    if ql == qh {
        if qh < 255 {
            (ql as u8, (qh + 1) as u8)
        } else {
            ((ql - 1) as u8, qh as u8)
        }
    } else {
        (ql as u8, qh as u8)
    }
}

/// Encode one inner node's child array into a fixed-layout record, with
/// the given bases into the output node array and primitive-index array.
pub fn encode_node(
    arena: &NodeArena,
    children: &Vec<ChildSlot>,
    bounds: &Aabb,
    child_base_idx: u32,
    primitive_base_idx: u32,
) -> (rec: CwBvhNode)
    requires
        cw_node_ok(*arena, children@, *bounds),
    ensures
        encodes_node(*arena, children@, *bounds, rec),
        rec.child_base_idx == child_base_idx,
        rec.primitive_base_idx == primitive_base_idx,
        leaf_prims_before(*arena, children@, BRANCHING as int) <= 24,
{
    let ext_x: u64 = (bounds.max.x as i64 - bounds.min.x as i64) as u64;
    let ext_y: u64 = (bounds.max.y as i64 - bounds.min.y as i64) as u64;
    let ext_z: u64 = (bounds.max.z as i64 - bounds.min.z as i64) as u64;
    let (kx, ex) = quant_exponent(ext_x);
    let (ky, ey) = quant_exponent(ext_y);
    let (kz, ez) = quant_exponent(ext_z);

    let mut imask: u8 = 0;
    let mut child_meta: [u8; 8] = [0u8; 8];
    let mut child_min_x: [u8; 8] = [0u8; 8];
    let mut child_min_y: [u8; 8] = [0u8; 8];
    let mut child_min_z: [u8; 8] = [0u8; 8];
    let mut child_max_x: [u8; 8] = [0u8; 8];
    let mut child_max_y: [u8; 8] = [0u8; 8];
    let mut child_max_z: [u8; 8] = [0u8; 8];

    let mut total_triangle_count: u8 = 0;

    proof {
        lemma2_to64();
    }
    let mut s: usize = 0;
    while s < BRANCHING
        invariant
            s <= BRANCHING,
            cw_node_ok(*arena, children@, *bounds),
            ex == pow2(axis_k(*bounds, 0)),
            ey == pow2(axis_k(*bounds, 1)),
            ez == pow2(axis_k(*bounds, 2)),
            1 <= ex <= 0x200_0000,
            1 <= ey <= 0x200_0000,
            1 <= ez <= 0x200_0000,
            bounds.max.x as int - bounds.min.x as int <= 255 * ex,
            bounds.max.y as int - bounds.min.y as int <= 255 * ey,
            bounds.max.z as int - bounds.min.z as int <= 255 * ez,
            total_triangle_count == leaf_prims_before(*arena, children@, s as int),
            total_triangle_count <= 3 * s,
            imask == imask_prefix(*arena, children@, s as int),
            imask < pow2(s as nat),
            forall|j: int|
                0 <= j < s ==> #[trigger] child_meta@[j] == slot_meta(*arena, children@, j),
            forall|j: int|
                s <= j < BRANCHING ==> #[trigger] child_meta@[j] == 0,
            forall|j: int|
                0 <= j < s && slot_occupied(children@[j]) ==> {
                    &&& #[trigger] child_min_x@[j] == q_lo_pad(*bounds, children@[j].bounds, 0)
                    &&& child_min_y@[j] == q_lo_pad(*bounds, children@[j].bounds, 1)
                    &&& child_min_z@[j] == q_lo_pad(*bounds, children@[j].bounds, 2)
                    &&& child_max_x@[j] == q_hi_pad(*bounds, children@[j].bounds, 0)
                    &&& child_max_y@[j] == q_hi_pad(*bounds, children@[j].bounds, 1)
                    &&& child_max_z@[j] == q_hi_pad(*bounds, children@[j].bounds, 2)
                },
            forall|j: int|
                0 <= j < BRANCHING && !(0 <= j < s && slot_occupied(children@[j])) ==> {
                    &&& #[trigger] child_min_x@[j] == 0
                    &&& child_min_y@[j] == 0
                    &&& child_min_z@[j] == 0
                    &&& child_max_x@[j] == 0
                    &&& child_max_y@[j] == 0
                    &&& child_max_z@[j] == 0
                },
        decreases BRANCHING - s,
    {
        let slot = children[s];
        match slot.child {
            Option::Some(c) => {
                proof {
                    assert(cw_slot_ok(*arena, children@[s as int], *bounds));
                }
                let (qlx, qhx) = quant_pair(bounds.min.x, slot.bounds.min.x, slot.bounds.max.x, ex);
                let (qly, qhy) = quant_pair(bounds.min.y, slot.bounds.min.y, slot.bounds.max.y, ey);
                let (qlz, qhz) = quant_pair(bounds.min.z, slot.bounds.min.z, slot.bounds.max.z, ez);
                child_min_x[s] = qlx;
                child_min_y[s] = qly;
                child_min_z[s] = qlz;
                child_max_x[s] = qhx;
                child_max_y[s] = qhy;
                child_max_z[s] = qhz;
                match &arena.nodes[c] {
                    Node::Inner(_) => {
                        let bit = pow2_u8(s);
                        proof {
                            lemma_pow2_unfold((s + 1) as nat);
                            lemma2_to64();
                            if s + 1 < 8 {
                                vstd::arithmetic::power2::lemma_pow2_strictly_increases(
                                    (s + 1) as nat,
                                    8,
                                );
                            }
                            assert(imask + bit < 256);
                        }
                        imask = imask + bit;
                        // (24 + s) | 0b0010_0000: the marker bit never
                        // overlaps the 24 + s payload, so the OR is a sum.
                        child_meta[s] = 56 + (s as u8);
                        proof {
                            assert(slot_is_inner(*arena, children@[s as int]));
                        }
                    },
                    Node::Leaf(leaf) => {
                        let count = leaf.prims.len();
                        let pattern: u8 = if count == 1 {
                            0x20
                        } else if count == 2 {
                            0x60
                        } else {
                            0xE0
                        };
                        child_meta[s] = total_triangle_count + pattern;
                        total_triangle_count = total_triangle_count + (count as u8);
                        proof {
                            assert(slot_is_leaf(*arena, children@[s as int]));
                            assert(!slot_is_inner(*arena, children@[s as int]));
                        }
                    },
                }
            },
            Option::None => {
                proof {
                    assert(!slot_occupied(children@[s as int]));
                    assert(!slot_is_inner(*arena, children@[s as int]));
                    assert(!slot_is_leaf(*arena, children@[s as int]));
                }
            },
        }
        proof {
            lemma_pow2_unfold((s + 1) as nat);
            vstd::arithmetic::power2::lemma_pow2_pos(s as nat);
            assert forall|j: int|
                0 <= j < s + 1 && slot_occupied(children@[j]) implies {
                &&& child_min_x@[j] == q_lo_pad(*bounds, children@[j].bounds, 0)
                &&& child_min_y@[j] == q_lo_pad(*bounds, children@[j].bounds, 1)
                &&& child_min_z@[j] == q_lo_pad(*bounds, children@[j].bounds, 2)
                &&& child_max_x@[j] == q_hi_pad(*bounds, children@[j].bounds, 0)
                &&& child_max_y@[j] == q_hi_pad(*bounds, children@[j].bounds, 1)
                &&& child_max_z@[j] == q_hi_pad(*bounds, children@[j].bounds, 2)
            } by {
                if j < s {
                    assert(child_min_x@[j] == q_lo_pad(*bounds, children@[j].bounds, 0));
                }
            }
            assert forall|j: int|
                0 <= j < BRANCHING && !(0 <= j < s + 1 && slot_occupied(children@[j])) implies {
                &&& child_min_x@[j] == 0
                &&& child_min_y@[j] == 0
                &&& child_min_z@[j] == 0
                &&& child_max_x@[j] == 0
                &&& child_max_y@[j] == 0
                &&& child_max_z@[j] == 0
            } by {
                assert(!(0 <= j < s && slot_occupied(children@[j])));
                if j == s {
                    assert(!slot_occupied(children@[s as int]));
                    assert(child_min_x@[j] == 0);
                    assert(child_max_x@[j] == 0);
                } else {
                    assert(child_min_x@[j] == 0);
                    assert(child_max_x@[j] == 0);
                }
            }
        }
        s = s + 1;
    }

    proof {
        lemma2_to64();
    }
    CwBvhNode {
        p: bounds.min,
        e: [127 + kx, 127 + ky, 127 + kz],
        imask,
        child_base_idx,
        primitive_base_idx,
        child_meta,
        child_min_x,
        child_min_y,
        child_min_z,
        child_max_x,
        child_max_y,
        child_max_z,
    }
}


impl CwBvhNode {
    /// An all-zero placeholder pushed when an output slot is reserved;
    /// always overwritten before the conversion finishes.
    pub fn zeroed() -> (rec: CwBvhNode)
        ensures
            rec.imask == 0,
            forall|s: int| 0 <= s < 8 ==> #[trigger] rec.child_meta@[s] == 0,
    {
        CwBvhNode {
            p: IVec3 { x: 0, y: 0, z: 0 },
            e: [0u8; 3],
            imask: 0,
            child_base_idx: 0,
            primitive_base_idx: 0,
            child_meta: [0u8; 8],
            child_min_x: [0u8; 8],
            child_min_y: [0u8; 8],
            child_min_z: [0u8; 8],
            child_max_x: [0u8; 8],
            child_max_y: [0u8; 8],
            child_max_z: [0u8; 8],
        }
    }
}

/// Ghost record of where an arena node was placed in the output: its
/// arena index, the bounds it was encoded with, and the bases its
/// children and leaf run were assigned — so the layout of the whole
/// output is pinned from record 0 outward.
pub ghost struct OutEntry {
    pub node: int,
    pub bounds: Aabb,
    pub cb: int,
    pub pb: int,
}

/// Every node of the subtree at `idx` can be encoded: leaf ids index into
/// the input mapping, every inner node's slots are encodable one level
/// down, and each occupied slot's own subtree is encodable within the
/// slot's bounds.
pub open spec fn cw_subtree_ok(arena: NodeArena, idx: int, bounds: Aabb, input_len: int) -> bool
    decreases arena.nodes@.len() - idx,
    when arena.wf() && 0 <= idx < arena.nodes@.len()
{
    match arena.nodes@[idx] {
        Node::Leaf(l) => forall|t: int|
            0 <= t < l.prims@.len() ==> #[trigger] l.prims@[t] < input_len,
        Node::Inner(inner) => {
            &&& cw_node_ok(arena, inner.children@, bounds)
            &&& forall|s: int|
                0 <= s < BRANCHING ==> ((#[trigger] inner.children@[s]).child matches Some(c)
                    ==> cw_subtree_ok(arena, c as int, inner.children@[s].bounds, input_len))
        },
    }
}

/// Number of output records the subtree below one inner node emits for
/// its slots before `s`: one per inner child plus that child's own
/// emission.
pub open spec fn emitted_nodes(arena: NodeArena, idx: int, s: int) -> int
    decreases arena.nodes@.len() - idx, s,
    when arena.wf() && 0 <= idx < arena.nodes@.len() && arena.nodes@[idx] is Inner && s <= BRANCHING
{
    if s <= 0 {
        0
    } else {
        emitted_nodes(arena, idx, s - 1) + {
            let slot = arena.nodes@[idx].children_view()[s - 1];
            if slot_is_inner(arena, slot) {
                1 + emitted_nodes(arena, the_child(slot), BRANCHING as int)
            } else {
                0
            }
        }
    }
}

/// Number of primitive-index entries the subtree below one inner node
/// emits for its slots before `s`.
pub open spec fn emitted_prims(arena: NodeArena, idx: int, s: int) -> int
    decreases arena.nodes@.len() - idx, s,
    when arena.wf() && 0 <= idx < arena.nodes@.len() && arena.nodes@[idx] is Inner && s <= BRANCHING
{
    if s <= 0 {
        0
    } else {
        emitted_prims(arena, idx, s - 1) + {
            let slot = arena.nodes@[idx].children_view()[s - 1];
            if slot_is_inner(arena, slot) {
                emitted_prims(arena, the_child(slot), BRANCHING as int)
            } else {
                slot_leaf_count(arena, slot)
            }
        }
    }
}

pub proof fn lemma_emitted_nonneg(arena: NodeArena, idx: int, s: int)
    requires
        arena.wf(),
        0 <= idx < arena.nodes@.len(),
        arena.nodes@[idx] is Inner,
        s <= BRANCHING,
    ensures
        emitted_nodes(arena, idx, s) >= 0,
        emitted_prims(arena, idx, s) >= 0,
        s >= 0 ==> emitted_nodes(arena, idx, s) >= inner_rank(arena, arena.nodes@[idx].children_view(), s),
        s >= 0 ==> emitted_prims(arena, idx, s) >= leaf_prims_before(arena, arena.nodes@[idx].children_view(), s),
    decreases arena.nodes@.len() - idx, s,
{
    if s > 0 {
        lemma_emitted_nonneg(arena, idx, s - 1);
        let slot = arena.nodes@[idx].children_view()[s - 1];
        if slot_is_inner(arena, slot) {
            lemma_emitted_nonneg(arena, the_child(slot), BRANCHING as int);
        }
    }
}

/// The converter: accumulates the flat node array and the flat
/// primitive-index array, with a ghost record of which arena node each
/// output slot stands for.
pub struct CwBvhConverter {
    pub nodes: Vec<CwBvhNode>,
    pub indices: Vec<u32>,
    pub placement: Ghost<Map<int, OutEntry>>,
}

/// The output record at `i` faithfully encodes its arena node: the record
/// is the node's encoding, its inner children sit contiguously at
/// `child_base_idx` in slot order (each registered in the placement map
/// with its own bounds), and its leaf primitives sit contiguously at
/// `primitive_base_idx`, mapped through the input indirection.
pub open spec fn entry_done(
    arena: NodeArena,
    input: Seq<u32>,
    nodes: Seq<CwBvhNode>,
    indices: Seq<u32>,
    m: Map<int, OutEntry>,
    i: int,
) -> bool
    recommends
        m.dom().contains(i),
        0 <= i < nodes.len(),
{
    let ent = m[i];
    let rec = nodes[i];
    &&& 0 <= ent.node < arena.nodes@.len()
    &&& arena.nodes@[ent.node] is Inner
    &&& cw_node_ok(arena, arena.nodes@[ent.node].children_view(), ent.bounds)
    &&& encodes_node(arena, arena.nodes@[ent.node].children_view(), ent.bounds, rec)
    &&& rec.child_base_idx == ent.cb
    &&& rec.primitive_base_idx == ent.pb
    &&& rec.child_base_idx + inner_rank(
        arena,
        arena.nodes@[ent.node].children_view(),
        BRANCHING as int,
    ) <= nodes.len()
    &&& rec.primitive_base_idx + leaf_prims_before(
        arena,
        arena.nodes@[ent.node].children_view(),
        BRANCHING as int,
    ) <= indices.len()
    &&& forall|s: int|
        0 <= s < BRANCHING && slot_is_inner(arena, #[trigger] arena.nodes@[ent.node].children_view()[s])
            ==> {
            let children = arena.nodes@[ent.node].children_view();
            let j = rec.child_base_idx + inner_rank(arena, children, s);
            &&& m.dom().contains(j)
            &&& m[j] == (OutEntry {
                node: the_child(children[s]),
                bounds: children[s].bounds,
                cb: rec.child_base_idx + inner_rank(arena, children, BRANCHING as int) + (
                emitted_nodes(arena, ent.node, s) - inner_rank(arena, children, s)),
                pb: rec.primitive_base_idx + leaf_prims_before(arena, children, BRANCHING as int)
                    + (emitted_prims(arena, ent.node, s) - leaf_prims_before(arena, children, s)),
            })
        }
    &&& forall|s: int, t: int|
        0 <= s < BRANCHING && slot_is_leaf(arena, arena.nodes@[ent.node].children_view()[s]) && 0
            <= t < slot_leaf_count(arena, #[trigger] arena.nodes@[ent.node].children_view()[s])
            ==> #[trigger] indices[rec.primitive_base_idx + leaf_prims_before(
            arena,
            arena.nodes@[ent.node].children_view(),
            s,
        ) + t] == input[arena.nodes@[the_child(
            arena.nodes@[ent.node].children_view()[s],
        )]->Leaf_0.prims@[t] as int]
}

/// Converter invariant: the placement map covers exactly the output
/// records written so far, and every record not in the pending set is a
/// finished encoding.
pub open spec fn converter_inv(
    arena: NodeArena,
    input: Seq<u32>,
    nodes: Seq<CwBvhNode>,
    indices: Seq<u32>,
    m: Map<int, OutEntry>,
    pending: Set<int>,
) -> bool {
    &&& forall|i: int| #[trigger] m.dom().contains(i) ==> 0 <= i < nodes.len()
    &&& forall|i: int| 0 <= i < nodes.len() ==> m.dom().contains(i)
    &&& pending.subset_of(m.dom())
    &&& forall|i: int|
        #[trigger] m.dom().contains(i) && !pending.contains(i) ==> entry_done(
            arena,
            input,
            nodes,
            indices,
            m,
            i,
        )
}

/// A finished entry stays finished when the arrays only grow, its own
/// record is untouched, and the placement map only gains entries.
proof fn lemma_entry_done_stable(
    arena: NodeArena,
    input: Seq<u32>,
    nodes1: Seq<CwBvhNode>,
    indices1: Seq<u32>,
    nodes2: Seq<CwBvhNode>,
    indices2: Seq<u32>,
    m1: Map<int, OutEntry>,
    m2: Map<int, OutEntry>,
    i: int,
)
    requires
        m1.dom().contains(i),
        0 <= i < nodes1.len(),
        entry_done(arena, input, nodes1, indices1, m1, i),
        nodes1.len() <= nodes2.len(),
        nodes2[i] == nodes1[i],
        indices1.len() <= indices2.len(),
        forall|t: int| 0 <= t < indices1.len() ==> indices2[t] == indices1[t],
        m1.dom().subset_of(m2.dom()),
        forall|j: int| #[trigger] m1.dom().contains(j) ==> m2[j] == m1[j],
    ensures
        entry_done(arena, input, nodes2, indices2, m2, i),
{
    let ent = m1[i];
    let children = arena.nodes@[ent.node].children_view();
    let rec = nodes1[i];
    assert forall|s: int, t: int|
        0 <= s < BRANCHING && slot_is_leaf(arena, children[s]) && 0 <= t < slot_leaf_count(
            arena,
            #[trigger] children[s],
        ) implies #[trigger] indices2[rec.primitive_base_idx + leaf_prims_before(arena, children, s)
        + t] == input[arena.nodes@[the_child(children[s])]->Leaf_0.prims@[t] as int] by {
        lemma_leaf_prims_nonneg_range(arena, children, 0, s);
        lemma_leaf_prims_before_bounds(arena, children, s);
        assert(0 <= rec.primitive_base_idx + leaf_prims_before(arena, children, s) + t
            < indices1.len());
        assert(indices1[rec.primitive_base_idx + leaf_prims_before(arena, children, s) + t]
            == input[arena.nodes@[the_child(children[s])]->Leaf_0.prims@[t] as int]);
    }
}

/// The running leaf offset of slot `s` plus its own count never exceeds
/// the node's total leaf count.
proof fn lemma_leaf_prims_before_bounds(arena: NodeArena, children: Seq<ChildSlot>, s: int)
    requires
        0 <= s < BRANCHING,
    ensures
        leaf_prims_before(arena, children, s) + slot_leaf_count(arena, children[s])
            <= leaf_prims_before(arena, children, BRANCHING as int),
    decreases BRANCHING as int - s,
{
    lemma_leaf_prims_nonneg_range(arena, children, s + 1, BRANCHING as int);
}

/// `leaf_prims_before` is monotone between two slot positions.
proof fn lemma_leaf_prims_nonneg_range(arena: NodeArena, children: Seq<ChildSlot>, s1: int, s2: int)
    requires
        s1 <= s2,
    ensures
        leaf_prims_before(arena, children, s1) <= leaf_prims_before(arena, children, s2),
    decreases s2 - s1,
{
    if s1 < s2 {
        lemma_leaf_prims_nonneg_range(arena, children, s1, s2 - 1);
    }
}

/// `inner_rank` is monotone between two slot positions.
proof fn lemma_inner_rank_range(arena: NodeArena, children: Seq<ChildSlot>, s1: int, s2: int)
    requires
        s1 <= s2,
    ensures
        inner_rank(arena, children, s1) <= inner_rank(arena, children, s2),
    decreases s2 - s1,
{
    if s1 < s2 {
        lemma_inner_rank_range(arena, children, s1, s2 - 1);
    }
}
/// The per-slot contribution terms beyond the bare rank/offset counters
/// are monotone in the slot position.
proof fn lemma_emitted_partial_range(arena: NodeArena, idx: int, s1: int, s2: int)
    requires
        arena.wf(),
        0 <= idx < arena.nodes@.len(),
        arena.nodes@[idx] is Inner,
        0 <= s1 <= s2 <= BRANCHING,
    ensures
        emitted_nodes(arena, idx, s1) - inner_rank(arena, arena.nodes@[idx].children_view(), s1)
            <= emitted_nodes(arena, idx, s2) - inner_rank(
            arena,
            arena.nodes@[idx].children_view(),
            s2,
        ),
        emitted_prims(arena, idx, s1) - leaf_prims_before(
            arena,
            arena.nodes@[idx].children_view(),
            s1,
        ) <= emitted_prims(arena, idx, s2) - leaf_prims_before(
            arena,
            arena.nodes@[idx].children_view(),
            s2,
        ),
    decreases s2 - s1,
{
    if s1 < s2 {
        lemma_emitted_partial_range(arena, idx, s1, s2 - 1);
        let slot = arena.nodes@[idx].children_view()[s2 - 1];
        if slot_is_inner(arena, slot) {
            lemma_emitted_nonneg(arena, the_child(slot), BRANCHING as int);
        }
    }
}

impl CwBvhConverter {
    pub fn new() -> (c: CwBvhConverter)
        ensures
            c.nodes@.len() == 0,
            c.indices@.len() == 0,
            c.placement@ == Map::<int, OutEntry>::empty(),
    {
        CwBvhConverter {
            nodes: Vec::new(),
            indices: Vec::new(),
            placement: Ghost(Map::empty()),
        }
    }

    /// Encode the inner node `node_idx` into the already-reserved output
    /// record `output_idx`, reserve one contiguous record per inner child,
    /// copy every leaf child's primitives through the input indirection,
    /// then recurse into each inner child's reserved record in slot order.
    pub fn convert_to_cwbvh_impl(
        &mut self,
        arena: &NodeArena,
        input_indices: &Vec<u32>,
        bounds: &Aabb,
        node_idx: usize,
        output_idx: usize,
        Ghost(pending): Ghost<Set<int>>,
    )
        requires
            arena.wf(),
            node_idx < arena.nodes@.len(),
            arena.nodes@[node_idx as int] is Inner,
            cw_subtree_ok(*arena, node_idx as int, *bounds, input_indices@.len() as int),
            output_idx < old(self).nodes@.len(),
            old(self).placement@.dom().contains(output_idx as int),
            old(self).placement@[output_idx as int] == (OutEntry {
                node: node_idx as int,
                bounds: *bounds,
                cb: old(self).nodes@.len() as int,
                pb: old(self).indices@.len() as int,
            }),
            pending.contains(output_idx as int),
            converter_inv(
                *arena,
                input_indices@,
                old(self).nodes@,
                old(self).indices@,
                old(self).placement@,
                pending,
            ),
            old(self).nodes@.len() + emitted_nodes(*arena, node_idx as int, BRANCHING as int)
                <= 0xFFFF_FFFF,
            old(self).indices@.len() + emitted_prims(*arena, node_idx as int, BRANCHING as int)
                <= 0xFFFF_FFFF,
        ensures
            final(self).nodes@.len() == old(self).nodes@.len() + emitted_nodes(
                *arena,
                node_idx as int,
                BRANCHING as int,
            ),
            final(self).indices@.len() == old(self).indices@.len() + emitted_prims(
                *arena,
                node_idx as int,
                BRANCHING as int,
            ),
            forall|j: int|
                0 <= j < old(self).nodes@.len() && j != output_idx ==> final(self).nodes@[j] == old(
                    self,
                ).nodes@[j],
            forall|t: int|
                0 <= t < old(self).indices@.len() ==> final(self).indices@[t] == old(
                    self,
                ).indices@[t],
            old(self).placement@.dom().subset_of(final(self).placement@.dom()),
            forall|i: int|
                #[trigger] old(self).placement@.dom().contains(i) ==> final(self).placement@[i]
                    == old(self).placement@[i],
            forall|i: int|
                #[trigger] final(self).placement@.dom().contains(i) && !old(
                    self,
                ).placement@.dom().contains(i) ==> i >= old(self).nodes@.len(),
            converter_inv(
                *arena,
                input_indices@,
                final(self).nodes@,
                final(self).indices@,
                final(self).placement@,
                pending.remove(output_idx as int),
            ),
        decreases arena.nodes@.len() - node_idx,
    {
        let ghost children = arena.nodes@[node_idx as int].children_view();
        let ghost out = output_idx as int;
        let ghost ilen = input_indices@.len() as int;
        proof {
            assert(cw_node_ok(*arena, children, *bounds));
            lemma_emitted_nonneg(*arena, node_idx as int, BRANCHING as int);
        }
        let ghost kk = inner_rank(*arena, children, BRANCHING as int);
        let ghost pp = leaf_prims_before(*arena, children, BRANCHING as int);

        let child_base = self.nodes.len();
        let triangle_base = self.indices.len();
        let ghost cb = child_base as int;
        let ghost pb = triangle_base as int;

        let inner_ref: &crate::node::Inner = match &arena.nodes[node_idx] {
            Node::Inner(v) => v,
            Node::Leaf(_) => unreached::<&crate::node::Inner>(),
        };
        let rec = encode_node(arena, &inner_ref.children, bounds, child_base as u32,
            triangle_base as u32);
        self.nodes[output_idx] = rec;
        proof {
            // Everything finished stays finished: only the pending record
            // at `output_idx` was written.
            assert forall|i: int|
                #[trigger] self.placement@.dom().contains(i) && !pending.contains(i)
                    implies entry_done(
                *arena,
                input_indices@,
                self.nodes@,
                self.indices@,
                self.placement@,
                i,
            ) by {
                lemma_entry_done_stable(
                    *arena,
                    input_indices@,
                    old(self).nodes@,
                    old(self).indices@,
                    self.nodes@,
                    self.indices@,
                    old(self).placement@,
                    self.placement@,
                    i,
                );
            }
        }

        let ghost nodes1 = self.nodes@;
        let ghost indices1 = self.indices@;
        let ghost m1 = self.placement@;

        let mut rank: usize = 0;
        let mut s: usize = 0;
        while s < BRANCHING
            invariant
                s <= BRANCHING,
                arena.wf(),
                node_idx < arena.nodes@.len(),
                arena.nodes@[node_idx as int] is Inner,
                children == arena.nodes@[node_idx as int].children_view(),
                inner_ref.children@ == children,
                children.len() == BRANCHING,
                cw_node_ok(*arena, children, *bounds),
                cw_subtree_ok(*arena, node_idx as int, *bounds, ilen),
                ilen == input_indices@.len() as int,
                out == output_idx as int,
                0 <= out < cb,
                kk == inner_rank(*arena, children, BRANCHING as int),
                pp == leaf_prims_before(*arena, children, BRANCHING as int),
                cb == nodes1.len(),
                pb == indices1.len(),
                cb + kk <= 0xFFFF_FFFF,
                pb + pp <= 0xFFFF_FFFF,
                rank == inner_rank(*arena, children, s as int),
                0 <= rank <= s,
                self.nodes@.len() == cb + rank,
                self.indices@.len() == pb + leaf_prims_before(*arena, children, s as int),
                forall|j: int| 0 <= j < cb ==> #[trigger] self.nodes@[j] == nodes1[j],
                forall|t: int| 0 <= t < pb ==> #[trigger] self.indices@[t] == indices1[t],
                self.nodes@[out] == rec,
                rec.child_base_idx == cb,
                rec.primitive_base_idx == pb,
                encodes_node(*arena, children, *bounds, rec),
                forall|sp: int, t: int|
                    0 <= sp < s && slot_is_leaf(*arena, children[sp]) && 0 <= t < slot_leaf_count(
                        *arena,
                        #[trigger] children[sp],
                    ) ==> #[trigger] self.indices@[pb + leaf_prims_before(*arena, children, sp) + t]
                        == input_indices@[arena.nodes@[the_child(
                        children[sp],
                    )]->Leaf_0.prims@[t] as int],
                m1.dom().subset_of(self.placement@.dom()),
                forall|i: int| #[trigger] m1.dom().contains(i) ==> self.placement@[i] == m1[i],
                forall|i: int|
                    #[trigger] self.placement@.dom().contains(i) <==> m1.dom().contains(i) || (cb
                        <= i < cb + rank),
                forall|sp: int|
                    0 <= sp < s && slot_is_inner(*arena, #[trigger] children[sp])
                        ==> self.placement@[cb + inner_rank(*arena, children, sp)] == (OutEntry {
                        node: the_child(children[sp]),
                        bounds: children[sp].bounds,
                        cb: cb + kk + (emitted_nodes(*arena, node_idx as int, sp) - inner_rank(
                            *arena,
                            children,
                            sp,
                        )),
                        pb: pb + pp + (emitted_prims(*arena, node_idx as int, sp)
                            - leaf_prims_before(*arena, children, sp)),
                    }),
                m1.dom().contains(out),
                m1[out] == (OutEntry {
                    node: node_idx as int,
                    bounds: *bounds,
                    cb: cb,
                    pb: pb,
                }),
                pending.contains(out),
                pending.subset_of(m1.dom()),
                forall|i: int| #[trigger] m1.dom().contains(i) ==> 0 <= i < cb,
                forall|i: int| 0 <= i < cb ==> m1.dom().contains(i),
                forall|i: int|
                    #[trigger] self.placement@.dom().contains(i) && !pending.contains(i) && !(cb
                        <= i < cb + rank) ==> entry_done(
                        *arena,
                        input_indices@,
                        self.nodes@,
                        self.indices@,
                        self.placement@,
                        i,
                    ),
            decreases BRANCHING - s,
        {
            let ghost snap = *self;
            let slot = inner_ref.children[s];
            proof {
                lemma_leaf_prims_nonneg_range(*arena, children, 0, s as int);
                lemma_inner_rank_range(*arena, children, 0, s as int);
                assert(cw_slot_ok(*arena, children[s as int], *bounds));
                assert(children[s as int].child matches Some(c) ==> cw_subtree_ok(
                    *arena,
                    the_child(children[s as int]),
                    children[s as int].bounds,
                    ilen,
                ));
            }
            match slot.child {
                Option::Some(c) => {
                    match &arena.nodes[c] {
                        Node::Inner(_) => {
                            proof {
                                assert(slot_is_inner(*arena, children[s as int]));
                                lemma_inner_rank_range(*arena, children, s as int + 1, BRANCHING as int);
                            }
                            self.nodes.push(CwBvhNode::zeroed());
                            self.placement = Ghost(
                                self.placement@.insert(
                                    cb + rank as int,
                                    OutEntry {
                                        node: c as int,
                                        bounds: slot.bounds,
                                        cb: cb + kk + (emitted_nodes(*arena, node_idx as int, s as int)
                                            - rank),
                                        pb: pb + pp + (emitted_prims(*arena, node_idx as int, s as int)
                                            - leaf_prims_before(*arena, children, s as int)),
                                    },
                                ),
                            );
                            rank = rank + 1;
                            proof {
                                assert forall|sp: int|
                                    0 <= sp < s && slot_is_inner(*arena, #[trigger] children[sp])
                                        implies inner_rank(*arena, children, sp) < rank - 1 by {
                                    lemma_inner_rank_range(*arena, children, sp + 1, s as int);
                                }
                                assert forall|i: int|
                                    #[trigger] self.placement@.dom().contains(i)
                                        && !pending.contains(i) && !(cb <= i < cb + rank)
                                        implies entry_done(
                                    *arena,
                                    input_indices@,
                                    self.nodes@,
                                    self.indices@,
                                    self.placement@,
                                    i,
                                ) by {
                                    lemma_entry_done_stable(
                                        *arena,
                                        input_indices@,
                                        snap.nodes@,
                                        snap.indices@,
                                        self.nodes@,
                                        self.indices@,
                                        snap.placement@,
                                        self.placement@,
                                        i,
                                    );
                                }
                            }
                        },
                        Node::Leaf(leaf) => {
                            proof {
                                assert(slot_is_leaf(*arena, children[s as int]));
                                assert(cw_subtree_ok(
                                    *arena,
                                    the_child(children[s as int]),
                                    children[s as int].bounds,
                                    ilen,
                                ));
                                assert(leaf.prims@ == arena.nodes@[the_child(
                                    children[s as int],
                                )]->Leaf_0.prims@);
                                lemma_leaf_prims_before_bounds(*arena, children, s as int);
                            }
                            let count = leaf.prims.len();
                            let mut t: usize = 0;
                            while t < count
                                invariant
                                    t <= count,
                                    s < BRANCHING,
                                    count == leaf.prims@.len(),
                                    leaf.prims@ == arena.nodes@[the_child(
                                        children[s as int],
                                    )]->Leaf_0.prims@,
                                    slot_is_leaf(*arena, children[s as int]),
                                    count == slot_leaf_count(*arena, children[s as int]),
                                    forall|u: int|
                                        0 <= u < count ==> #[trigger] leaf.prims@[u] < ilen,
                                    ilen == input_indices@.len() as int,
                                    children == arena.nodes@[node_idx as int].children_view(),
                                    self.nodes@ == snap.nodes@,
                                    self.placement@ == snap.placement@,
                                    self.indices@.len() == snap.indices@.len() + t,
                                    snap.indices@.len() == pb + leaf_prims_before(
                                        *arena,
                                        children,
                                        s as int,
                                    ),
                                    forall|u: int|
                                        0 <= u < snap.indices@.len() ==> #[trigger] self.indices@[u]
                                            == snap.indices@[u],
                                    forall|u: int|
                                        0 <= u < t ==> #[trigger] self.indices@[snap.indices@.len()
                                            + u] == input_indices@[leaf.prims@[u] as int],
                                decreases count - t,
                            {
                                let pid = leaf.prims[t];
                                self.indices.push(input_indices[pid as usize]);
                                t = t + 1;
                            }
                            proof {
                                assert forall|i: int|
                                    #[trigger] self.placement@.dom().contains(i)
                                        && !pending.contains(i) && !(cb <= i < cb + rank)
                                        implies entry_done(
                                    *arena,
                                    input_indices@,
                                    self.nodes@,
                                    self.indices@,
                                    self.placement@,
                                    i,
                                ) by {
                                    lemma_entry_done_stable(
                                        *arena,
                                        input_indices@,
                                        snap.nodes@,
                                        snap.indices@,
                                        self.nodes@,
                                        self.indices@,
                                        snap.placement@,
                                        self.placement@,
                                        i,
                                    );
                                }
                                assert forall|sp: int, t: int|
                                    0 <= sp < s + 1 && slot_is_leaf(*arena, children[sp]) && 0 <= t
                                        < slot_leaf_count(*arena, #[trigger] children[sp])
                                        implies #[trigger] self.indices@[pb + leaf_prims_before(
                                    *arena,
                                    children,
                                    sp,
                                ) + t] == input_indices@[arena.nodes@[the_child(
                                    children[sp],
                                )]->Leaf_0.prims@[t] as int] by {
                                    lemma_leaf_prims_nonneg_range(*arena, children, 0, sp);
                                    if sp < s {
                                        lemma_leaf_prims_nonneg_range(
                                            *arena,
                                            children,
                                            sp + 1,
                                            s as int,
                                        );
                                        assert(pb + leaf_prims_before(*arena, children, sp) + t
                                            < snap.indices@.len());
                                        assert(self.indices@[pb + leaf_prims_before(
                                            *arena,
                                            children,
                                            sp,
                                        ) + t] == snap.indices@[pb + leaf_prims_before(
                                            *arena,
                                            children,
                                            sp,
                                        ) + t]);
                                    } else {
                                        assert(sp == s);
                                        assert(self.indices@[snap.indices@.len() + t]
                                            == input_indices@[leaf.prims@[t] as int]);
                                    }
                                }
                            }
                        },
                    }
                },
                Option::None => {
                    proof {
                        assert(!slot_is_inner(*arena, children[s as int]));
                        assert(!slot_is_leaf(*arena, children[s as int]));
                    }
                },
            }
            s = s + 1;
        }

        // The record at `output_idx` is now fully finished: its children
        // records are reserved and registered, its leaf run is written.
        proof {
            assert(self.nodes@.len() == cb + kk);
            assert(self.indices@.len() == pb + pp);
            assert forall|sp: int|
                0 <= sp < BRANCHING && slot_is_inner(*arena, #[trigger] children[sp]) implies 0
                <= inner_rank(*arena, children, sp) < kk by {
                lemma_inner_rank_range(*arena, children, 0, sp);
                lemma_inner_rank_range(*arena, children, sp + 1, BRANCHING as int);
            }
            assert(entry_done(
                *arena,
                input_indices@,
                self.nodes@,
                self.indices@,
                self.placement@,
                out,
            ));
        }

        let ghost m2 = self.placement@;

        let mut rank2: usize = 0;
        let mut s2: usize = 0;
        while s2 < BRANCHING
            invariant
                s2 <= BRANCHING,
                arena.wf(),
                node_idx < arena.nodes@.len(),
                arena.nodes@[node_idx as int] is Inner,
                children == arena.nodes@[node_idx as int].children_view(),
                inner_ref.children@ == children,
                children.len() == BRANCHING,
                cw_node_ok(*arena, children, *bounds),
                cw_subtree_ok(*arena, node_idx as int, *bounds, ilen),
                ilen == input_indices@.len() as int,
                out == output_idx as int,
                0 <= out < cb,
                kk == inner_rank(*arena, children, BRANCHING as int),
                pp == leaf_prims_before(*arena, children, BRANCHING as int),
                cb == nodes1.len(),
                pb == indices1.len(),
                cb + emitted_nodes(*arena, node_idx as int, BRANCHING as int) <= 0xFFFF_FFFF,
                pb + emitted_prims(*arena, node_idx as int, BRANCHING as int) <= 0xFFFF_FFFF,
                rank2 == inner_rank(*arena, children, s2 as int),
                0 <= rank2 <= kk,
                child_base as int == cb,
                self.nodes@.len() == cb + kk + (emitted_nodes(*arena, node_idx as int, s2 as int)
                    - rank2),
                self.indices@.len() == pb + pp + (emitted_prims(*arena, node_idx as int, s2 as int)
                    - leaf_prims_before(*arena, children, s2 as int)),
                forall|j: int| 0 <= j < cb && j != out ==> #[trigger] self.nodes@[j] == nodes1[j],
                forall|t: int| 0 <= t < pb ==> #[trigger] self.indices@[t] == indices1[t],
                m2.dom().subset_of(self.placement@.dom()),
                forall|i: int| #[trigger] m2.dom().contains(i) ==> self.placement@[i] == m2[i],
                forall|i: int|
                    #[trigger] self.placement@.dom().contains(i) && !m2.dom().contains(i) ==> i
                        >= cb + kk,
                forall|i: int| #[trigger] m2.dom().contains(i) ==> 0 <= i < cb + kk,
                forall|i: int|
                    #[trigger] m1.dom().contains(i) ==> m2.dom().contains(i) && m2[i] == m1[i],
                forall|i: int|
                    #[trigger] m2.dom().contains(i) && !m1.dom().contains(i) ==> i >= cb,
                forall|sp: int|
                    0 <= sp < BRANCHING && slot_is_inner(*arena, #[trigger] children[sp])
                        ==> m2[cb + inner_rank(*arena, children, sp)] == (OutEntry {
                        node: the_child(children[sp]),
                        bounds: children[sp].bounds,
                        cb: cb + kk + (emitted_nodes(*arena, node_idx as int, sp) - inner_rank(
                            *arena,
                            children,
                            sp,
                        )),
                        pb: pb + pp + (emitted_prims(*arena, node_idx as int, sp)
                            - leaf_prims_before(*arena, children, sp)),
                    }) && m2.dom().contains(cb + inner_rank(*arena, children, sp)),
                pending.subset_of(m1.dom()),
                forall|i: int| #[trigger] m1.dom().contains(i) ==> 0 <= i < cb,
                converter_inv(
                    *arena,
                    input_indices@,
                    self.nodes@,
                    self.indices@,
                    self.placement@,
                    pending.remove(out).union(
                        Set::new(|j: int| cb + rank2 <= j < cb + kk),
                    ),
                ),
            decreases BRANCHING - s2,
        {
            let slot = inner_ref.children[s2];
            proof {
                lemma_leaf_prims_nonneg_range(*arena, children, 0, BRANCHING as int);
                lemma_leaf_prims_nonneg_range(*arena, children, 0, s2 as int);
                lemma_leaf_prims_nonneg_range(*arena, children, s2 as int, BRANCHING as int);
                lemma_emitted_partial_range(*arena, node_idx as int, 0, s2 as int);
                lemma_inner_rank_range(*arena, children, 0, s2 as int);
                assert(cw_slot_ok(*arena, children[s2 as int], *bounds));
                assert(cw_subtree_ok(*arena, node_idx as int, *bounds, ilen));
                assert(children[s2 as int].child matches Some(c) ==> cw_subtree_ok(
                    *arena,
                    the_child(children[s2 as int]),
                    children[s2 as int].bounds,
                    ilen,
                ));
            }
            let mut was_inner = false;
            match slot.child {
                Option::Some(c) => {
                    let is_inner_child = match &arena.nodes[c] {
                        Node::Inner(_) => true,
                        Node::Leaf(_) => false,
                    };
                    if is_inner_child {
                        was_inner = true;
                        proof {
                            assert(slot_is_inner(*arena, children[s2 as int]));
                            lemma_inner_rank_range(*arena, children, s2 as int + 1, BRANCHING as int);
                            lemma_emitted_partial_range(
                                *arena,
                                node_idx as int,
                                s2 as int + 1,
                                BRANCHING as int,
                            );
                            lemma_emitted_nonneg(*arena, c as int, BRANCHING as int);
                            lemma_leaf_prims_nonneg_range(*arena, children, s2 as int, BRANCHING as int);
                            lemma_emitted_partial_range(*arena, node_idx as int, 0, s2 as int);
                        }
                        let ghost pend_cur = pending.remove(out).union(
                            Set::new(|j: int| cb + rank2 <= j < cb + kk),
                        );
                        let b = slot.bounds;
                        self.convert_to_cwbvh_impl(
                            arena,
                            input_indices,
                            &b,
                            c,
                            child_base + rank2,
                            Ghost(pend_cur),
                        );
                        rank2 = rank2 + 1;
                        proof {
                            assert(pend_cur.remove(cb + rank2 - 1) =~= pending.remove(out).union(
                                Set::new(|j: int| cb + rank2 <= j < cb + kk),
                            ));
                        }
                    }
                },
                Option::None => {},
            }
            proof {
                if !was_inner {
                    assert(!slot_is_inner(*arena, children[s2 as int]));
                }
            }
            s2 = s2 + 1;
        }
        proof {
            assert(pending.remove(out).union(Set::new(|j: int| cb + kk <= j < cb + kk))
                =~= pending.remove(out));
        }
    }
}

impl CwBvhConverter {
    /// Convert the whole tree rooted at the inner node `root` into the
    /// flat node and primitive-index arrays. Record 0 is the root.
    pub fn convert_to_cwbvh(
        &mut self,
        arena: &NodeArena,
        input_indices: &Vec<u32>,
        total_aabb: &Aabb,
        root: usize,
    )
        requires
            old(self).nodes@.len() == 0,
            old(self).indices@.len() == 0,
            old(self).placement@ == Map::<int, OutEntry>::empty(),
            arena.wf(),
            root < arena.nodes@.len(),
            arena.nodes@[root as int] is Inner,
            cw_subtree_ok(*arena, root as int, *total_aabb, input_indices@.len() as int),
            1 + emitted_nodes(*arena, root as int, BRANCHING as int) <= 0xFFFF_FFFF,
            emitted_prims(*arena, root as int, BRANCHING as int) <= 0xFFFF_FFFF,
        ensures
            final(self).nodes@.len() == 1 + emitted_nodes(*arena, root as int, BRANCHING as int),
            final(self).indices@.len() == emitted_prims(*arena, root as int, BRANCHING as int),
            final(self).placement@.dom().contains(0),
            final(self).placement@[0] == (OutEntry {
                node: root as int,
                bounds: *total_aabb,
                cb: 1,
                pb: 0,
            }),
            converter_inv(
                *arena,
                input_indices@,
                final(self).nodes@,
                final(self).indices@,
                final(self).placement@,
                Set::empty(),
            ),
    {
        self.nodes.push(CwBvhNode::zeroed());
        self.placement = Ghost(
            self.placement@.insert(
                0,
                OutEntry { node: root as int, bounds: *total_aabb, cb: 1, pb: 0 },
            ),
        );
        let ghost pending = Set::<int>::empty().insert(0);
        proof {
            lemma_emitted_nonneg(*arena, root as int, BRANCHING as int);
            assert(converter_inv(
                *arena,
                input_indices@,
                self.nodes@,
                self.indices@,
                self.placement@,
                pending,
            ));
        }
        self.convert_to_cwbvh_impl(arena, input_indices, total_aabb, root, 0, Ghost(pending));
        proof {
            assert(pending.remove(0) =~= Set::<int>::empty());
        }
    }
}

/// The complete, self-contained artifact a traversal kernel consumes: the
/// flat node array (record 0 is the root), the flat primitive-index
/// array, the scene bounds, and whether pre-splitting was used.
pub struct CwBvh {
    pub nodes: Vec<CwBvhNode>,
    pub primitive_indices: Vec<u32>,
    pub total_aabb: Aabb,
    pub uses_spatial_splits: bool,
}

impl CwBvh {
    /// The empty artifact returned for a degenerate build with no
    /// primitives; callers special-case that before invoking the builder.
    pub fn empty() -> (bvh: CwBvh)
        ensures
            bvh.nodes@.len() == 0,
            bvh.primitive_indices@.len() == 0,
            bvh.total_aabb == Aabb::invalid_spec(),
            !bvh.uses_spatial_splits,
    {
        CwBvh {
            nodes: Vec::new(),
            primitive_indices: Vec::new(),
            total_aabb: Aabb::invalid(),
            uses_spatial_splits: false,
        }
    }
}

/// Contiguity: in a finished conversion, the inner children of every
/// output record occupy consecutive output indices starting at its
/// `child_base_idx`, in the exact order of its occupied inner slots, and
/// each of those records is the encoding of the corresponding arena child
/// under the bounds its parent recorded for it.
pub proof fn lemma_contiguity(
    arena: NodeArena,
    input: Seq<u32>,
    nodes: Seq<CwBvhNode>,
    indices: Seq<u32>,
    m: Map<int, OutEntry>,
    i: int,
    s: int,
)
    requires
        converter_inv(arena, input, nodes, indices, m, Set::empty()),
        m.dom().contains(i),
        0 <= s < BRANCHING,
        slot_is_inner(arena, arena.nodes@[m[i].node].children_view()[s]),
    ensures
        ({
            let children = arena.nodes@[m[i].node].children_view();
            let j = nodes[i].child_base_idx + inner_rank(arena, children, s);
            let slot = children[s];
            &&& nodes[i].child_base_idx <= j < nodes[i].child_base_idx + inner_rank(
                arena,
                children,
                BRANCHING as int,
            )
            &&& 0 <= j < nodes.len()
            &&& m.dom().contains(j)
            &&& m[j].node == the_child(slot)
            &&& m[j].bounds == slot.bounds
            &&& nodes[j].child_base_idx == m[j].cb
            &&& nodes[j].primitive_base_idx == m[j].pb
            &&& encodes_node(
                arena,
                arena.nodes@[the_child(slot)].children_view(),
                slot.bounds,
                nodes[j],
            )
        }),
{
    assert(entry_done(arena, input, nodes, indices, m, i));
    let children = arena.nodes@[m[i].node].children_view();
    lemma_inner_rank_range(arena, children, 0, s);
    lemma_inner_rank_range(arena, children, s + 1, BRANCHING as int);
    let j = nodes[i].child_base_idx + inner_rank(arena, children, s);
    assert(m.dom().contains(j));
    assert(entry_done(arena, input, nodes, indices, m, j));
}

/// Leaf budget: the sum of primitive counts across the leaf slots of one
/// node never exceeds 24, and each occupied leaf slot's count is 1 to 3.
pub proof fn lemma_leaf_budget(arena: NodeArena, children: Seq<ChildSlot>, bounds: Aabb)
    requires
        cw_node_ok(arena, children, bounds),
    ensures
        leaf_prims_before(arena, children, BRANCHING as int) <= 24,
        forall|s: int|
            0 <= s < BRANCHING && slot_is_leaf(arena, #[trigger] children[s]) ==> 1
                <= slot_leaf_count(arena, children[s]) <= 3,
{
    assert forall|s: int|
        0 <= s < BRANCHING && slot_is_leaf(arena, #[trigger] children[s]) implies 1
        <= slot_leaf_count(arena, children[s]) <= 3 by {
        assert(cw_slot_ok(arena, children[s], bounds));
    }
    lemma_leaf_prims_step_budget(arena, children, bounds, BRANCHING as int);
}

proof fn lemma_leaf_prims_step_budget(
    arena: NodeArena,
    children: Seq<ChildSlot>,
    bounds: Aabb,
    s: int,
)
    requires
        cw_node_ok(arena, children, bounds),
        0 <= s <= BRANCHING,
    ensures
        leaf_prims_before(arena, children, s) <= 3 * s,
    decreases s,
{
    if s > 0 {
        lemma_leaf_prims_step_budget(arena, children, bounds, s - 1);
        assert(cw_slot_ok(arena, children[s - 1], bounds));
    }
}

/// A triangle in fixed-point coordinates.
#[derive(Clone, Copy, PartialEq, Eq, Structural, Debug)]
pub struct Triangle {
    pub v0: IVec3,
    pub v1: IVec3,
    pub v2: IVec3,
}

impl Triangle {
    pub open spec fn aabb_spec(self) -> Aabb {
        Aabb { min: self.v0, max: self.v0 }.union_spec(
            Aabb { min: self.v1, max: self.v1 },
        ).union_spec(Aabb { min: self.v2, max: self.v2 })
    }

    /// The triangle's bounding box: componentwise extremes of its three
    /// vertices.
    pub fn aabb(&self) -> (r: Aabb)
        ensures
            r == self.aabb_spec(),
            r.valid(),
    {
        let a = Aabb { min: self.v0, max: self.v0 };
        let b = Aabb { min: self.v1, max: self.v1 };
        let c = Aabb { min: self.v2, max: self.v2 };
        a.union(&b).union(&c)
    }
}

/// Tag each box with its position as the opaque primitive id, and fold up
/// the total scene bounds, as the build primitives handed to the builder.
pub fn build_primitives_from_aabbs(aabbs: &Vec<Aabb>) -> (r: (Vec<BuildPrimitive>, Aabb))
    requires
        aabbs@.len() <= 0xFFFF_FFFF,
    ensures
        r.0@.len() == aabbs@.len(),
        forall|i: int|
            0 <= i < aabbs@.len() ==> #[trigger] r.0@[i] == (BuildPrimitive {
                bounds: aabbs@[i],
                prim_id: i as u32,
            }),
        r.1 == union_all(aabbs@),
{
    let mut prims: Vec<BuildPrimitive> = Vec::new();
    let mut total = Aabb::invalid();
    let mut i: usize = 0;
    while i < aabbs.len()
        invariant
            i <= aabbs@.len(),
            aabbs@.len() <= 0xFFFF_FFFF,
            prims@.len() == i,
            forall|j: int|
                0 <= j < i ==> #[trigger] prims@[j] == (BuildPrimitive {
                    bounds: aabbs@[j],
                    prim_id: j as u32,
                }),
            total == union_all(aabbs@.subrange(0, i as int)),
        decreases aabbs@.len() - i,
    {
        proof {
            assert(aabbs@.subrange(0, i + 1 as int).drop_last() =~= aabbs@.subrange(0, i as int));
        }
        total = total.union(&aabbs[i]);
        prims.push(BuildPrimitive { bounds: aabbs[i], prim_id: i as u32 });
        i = i + 1;
    }
    proof {
        assert(aabbs@.subrange(0, aabbs@.len() as int) =~= aabbs@);
    }
    (prims, total)
}

/// The same for triangles, taking each triangle's own bounding box.
pub fn build_primitives_from_tris(tris: &Vec<Triangle>) -> (r: (Vec<BuildPrimitive>, Aabb))
    requires
        tris@.len() <= 0xFFFF_FFFF,
    ensures
        r.0@.len() == tris@.len(),
        forall|i: int|
            0 <= i < tris@.len() ==> #[trigger] r.0@[i] == (BuildPrimitive {
                bounds: tris@[i].aabb_spec(),
                prim_id: i as u32,
            }),
        r.1 == union_all(tris@.map_values(|t: Triangle| t.aabb_spec())),
{
    let mut prims: Vec<BuildPrimitive> = Vec::new();
    let mut total = Aabb::invalid();
    let mut i: usize = 0;
    while i < tris.len()
        invariant
            i <= tris@.len(),
            tris@.len() <= 0xFFFF_FFFF,
            prims@.len() == i,
            forall|j: int|
                0 <= j < i ==> #[trigger] prims@[j] == (BuildPrimitive {
                    bounds: tris@[j].aabb_spec(),
                    prim_id: j as u32,
                }),
            total == union_all(tris@.subrange(0, i as int).map_values(|t: Triangle| t.aabb_spec())),
        decreases tris@.len() - i,
    {
        proof {
            let full = tris@.subrange(0, i + 1 as int).map_values(|t: Triangle| t.aabb_spec());
            let part = tris@.subrange(0, i as int).map_values(|t: Triangle| t.aabb_spec());
            assert(full.drop_last() =~= part);
            assert(full.last() == tris@[i as int].aabb_spec());
        }
        let bb = tris[i].aabb();
        total = total.union(&bb);
        prims.push(BuildPrimitive { bounds: bb, prim_id: i as u32 });
        i = i + 1;
    }
    proof {
        assert(tris@.subrange(0, tris@.len() as int) =~= tris@);
        assert(tris@.subrange(0, tris@.len() as int).map_values(|t: Triangle| t.aabb_spec())
            =~= tris@.map_values(|t: Triangle| t.aabb_spec()));
    }
    (prims, total)
}

/// Run the converter over an already-reordered tree and assemble the
/// final artifact. The identity mapping of `build_primitives_from_aabbs`
/// or any other indirection is passed as `input_indices`.
pub fn build_cwbvh(
    arena: &NodeArena,
    input_indices: &Vec<u32>,
    total_aabb: &Aabb,
    root: usize,
    uses_spatial_splits: bool,
) -> (bvh: CwBvh)
    requires
        arena.wf(),
        root < arena.nodes@.len(),
        arena.nodes@[root as int] is Inner,
        cw_subtree_ok(*arena, root as int, *total_aabb, input_indices@.len() as int),
        1 + emitted_nodes(*arena, root as int, BRANCHING as int) <= 0xFFFF_FFFF,
        emitted_prims(*arena, root as int, BRANCHING as int) <= 0xFFFF_FFFF,
    ensures
        bvh.nodes@.len() == 1 + emitted_nodes(*arena, root as int, BRANCHING as int),
        bvh.primitive_indices@.len() == emitted_prims(*arena, root as int, BRANCHING as int),
        bvh.total_aabb == *total_aabb,
        bvh.uses_spatial_splits == uses_spatial_splits,
        exists|m: Map<int, OutEntry>|
            {
                &&& converter_inv(
                    *arena,
                    input_indices@,
                    bvh.nodes@,
                    bvh.primitive_indices@,
                    m,
                    Set::empty(),
                )
                &&& #[trigger] m.dom().contains(0)
                &&& m[0] == (OutEntry { node: root as int, bounds: *total_aabb, cb: 1, pb: 0 })
            },
{
    let mut converter = CwBvhConverter::new();
    converter.convert_to_cwbvh(arena, input_indices, total_aabb, root);
    let ghost m = converter.placement@;
    CwBvh {
        nodes: converter.nodes,
        primitive_indices: converter.indices,
        total_aabb: *total_aabb,
        uses_spatial_splits,
    }
}

/// What one slot contributes to the number of records its node's
/// conversion appends.
pub open spec fn contrib_nodes(arena: NodeArena, slot: ChildSlot) -> int {
    if slot_is_inner(arena, slot) {
        1 + emitted_nodes(arena, the_child(slot), BRANCHING as int)
    } else {
        0
    }
}

/// What one slot contributes to the number of primitive-index entries its
/// node's conversion appends.
pub open spec fn contrib_prims(arena: NodeArena, slot: ChildSlot) -> int {
    if slot_is_inner(arena, slot) {
        emitted_prims(arena, the_child(slot), BRANCHING as int)
    } else {
        slot_leaf_count(arena, slot)
    }
}

pub open spec fn slot_sum_nodes(arena: NodeArena, slots: Seq<ChildSlot>) -> int
    decreases slots.len(),
{
    if slots.len() == 0 {
        0
    } else {
        slot_sum_nodes(arena, slots.drop_last()) + contrib_nodes(arena, slots.last())
    }
}

pub open spec fn slot_sum_prims(arena: NodeArena, slots: Seq<ChildSlot>) -> int
    decreases slots.len(),
{
    if slots.len() == 0 {
        0
    } else {
        slot_sum_prims(arena, slots.drop_last()) + contrib_prims(arena, slots.last())
    }
}

/// The emission counters are the slot-contribution sums over the slot
/// prefix.
proof fn lemma_emitted_as_sum(arena: NodeArena, idx: int, s: int)
    requires
        arena.wf(),
        0 <= idx < arena.nodes@.len(),
        arena.nodes@[idx] is Inner,
        0 <= s <= BRANCHING,
    ensures
        emitted_nodes(arena, idx, s) == slot_sum_nodes(
            arena,
            arena.nodes@[idx].children_view().subrange(0, s),
        ),
        emitted_prims(arena, idx, s) == slot_sum_prims(
            arena,
            arena.nodes@[idx].children_view().subrange(0, s),
        ),
    decreases s,
{
    let children = arena.nodes@[idx].children_view();
    if s > 0 {
        lemma_emitted_as_sum(arena, idx, s - 1);
        assert(children.subrange(0, s).drop_last() =~= children.subrange(0, s - 1));
        assert(children.subrange(0, s).last() == children[s - 1]);
    }
}

/// Removing one slot removes exactly its contribution from the sums.
proof fn lemma_slot_sum_remove(arena: NodeArena, slots: Seq<ChildSlot>, i: int)
    requires
        0 <= i < slots.len(),
    ensures
        slot_sum_nodes(arena, slots.remove(i)) == slot_sum_nodes(arena, slots) - contrib_nodes(
            arena,
            slots[i],
        ),
        slot_sum_prims(arena, slots.remove(i)) == slot_sum_prims(arena, slots) - contrib_prims(
            arena,
            slots[i],
        ),
    decreases slots.len(),
{
    if i == slots.len() - 1 {
        assert(slots.remove(i) =~= slots.drop_last());
    } else {
        assert(slots.remove(i).drop_last() =~= slots.drop_last().remove(i));
        assert(slots.remove(i).last() == slots.last());
        lemma_slot_sum_remove(arena, slots.drop_last(), i);
    }
}

/// The sums do not depend on the order of the slots.
proof fn lemma_slot_sum_permuted(arena: NodeArena, s1: Seq<ChildSlot>, s2: Seq<ChildSlot>)
    requires
        s1.to_multiset() == s2.to_multiset(),
    ensures
        slot_sum_nodes(arena, s1) == slot_sum_nodes(arena, s2),
        slot_sum_prims(arena, s1) == slot_sum_prims(arena, s2),
    decreases s1.len(),
{
    broadcast use vstd::seq_lib::group_to_multiset_ensures;

    if s1.len() == 0 {
        assert(s1.to_multiset().len() == s1.len());
        assert(s2.to_multiset().len() == s2.len());
        assert(s2 =~= s1);
    } else {
        let n = s1.len() as int;
        let x = s1.last();
        assert(s1.contains(x));
        assert(s1.to_multiset().count(x) > 0);
        assert(s2.to_multiset().count(x) > 0);
        assert(s2.contains(x));
        let i = choose|i: int| 0 <= i < s2.len() && s2[i] == x;
        let s2r = s2.remove(i);
        assert(s1.remove(n - 1) =~= s1.drop_last());
        assert(s1.drop_last().to_multiset() =~= s1.to_multiset().remove(x));
        assert(s2r.to_multiset() =~= s2.to_multiset().remove(x));
        lemma_slot_sum_permuted(arena, s1.drop_last(), s2r);
        lemma_slot_sum_remove(arena, s2, i);
    }
}

/// The sums agree across two arenas whose slot contributions agree.
proof fn lemma_slot_sum_congruent(a1: NodeArena, a2: NodeArena, slots: Seq<ChildSlot>)
    requires
        forall|j: int|
            0 <= j < slots.len() ==> contrib_nodes(a2, #[trigger] slots[j]) == contrib_nodes(
                a1,
                slots[j],
            ) && contrib_prims(a2, slots[j]) == contrib_prims(a1, slots[j]),
    ensures
        slot_sum_nodes(a2, slots) == slot_sum_nodes(a1, slots),
        slot_sum_prims(a2, slots) == slot_sum_prims(a1, slots),
    decreases slots.len(),
{
    if slots.len() > 0 {
        lemma_slot_sum_congruent(a1, a2, slots.drop_last());
        assert(slots.last() == slots[slots.len() - 1]);
    }
}

/// Reordering the tree permutes each node's slots but changes neither the
/// number of records nor the number of primitive-index entries the
/// conversion will emit.
pub proof fn lemma_reorder_preserves_emitted(a1: NodeArena, a2: NodeArena, idx: int)
    requires
        a1.wf(),
        a2.wf(),
        a1.nodes@.len() == a2.nodes@.len(),
        forall|i: int|
            0 <= i < a1.nodes@.len() ==> reorder_related(a1.nodes@[i], #[trigger] a2.nodes@[i]),
        0 <= idx < a1.nodes@.len(),
        a1.nodes@[idx] is Inner,
    ensures
        emitted_nodes(a2, idx, BRANCHING as int) == emitted_nodes(a1, idx, BRANCHING as int),
        emitted_prims(a2, idx, BRANCHING as int) == emitted_prims(a1, idx, BRANCHING as int),
    decreases a1.nodes@.len() - idx,
{
    let len = a1.nodes@.len() as int;
    assert(reorder_related(a1.nodes@[idx], a2.nodes@[idx]));
    let ch1 = a1.nodes@[idx].children_view();
    let ch2 = a2.nodes@[idx].children_view();
    assert(ch2.to_multiset() == ch1.to_multiset());
    // slot contributions agree pointwise between the two arenas
    assert forall|j: int|
        0 <= j < ch2.len() implies contrib_nodes(a2, #[trigger] ch2[j]) == contrib_nodes(
        a1,
        ch2[j],
    ) && contrib_prims(a2, ch2[j]) == contrib_prims(a1, ch2[j]) by {
        let slot = ch2[j];
        assert(node_wf(a2.nodes@[idx], idx, len));
        assert(slot_ok(slot, idx, len));
        match slot.child {
            Option::Some(c) => {
                assert(reorder_related(a1.nodes@[c as int], a2.nodes@[c as int]));
                if a1.nodes@[c as int] is Inner {
                    lemma_reorder_preserves_emitted(a1, a2, c as int);
                }
            },
            Option::None => {},
        }
    }
    lemma_slot_sum_congruent(a1, a2, ch2);
    lemma_slot_sum_permuted(a1, ch2, ch1);
    lemma_emitted_as_sum(a1, idx, BRANCHING as int);
    lemma_emitted_as_sum(a2, idx, BRANCHING as int);
    assert(ch1.subrange(0, BRANCHING as int) =~= ch1);
    assert(ch2.subrange(0, BRANCHING as int) =~= ch2);
}

/// Reordering the tree preserves its encodability: every permuted slot
/// was a slot before, with the same child and bounds.
pub proof fn lemma_reorder_preserves_cw_ok(
    a1: NodeArena,
    a2: NodeArena,
    idx: int,
    bounds: Aabb,
    input_len: int,
)
    requires
        a1.wf(),
        a2.wf(),
        a1.nodes@.len() == a2.nodes@.len(),
        forall|i: int|
            0 <= i < a1.nodes@.len() ==> reorder_related(a1.nodes@[i], #[trigger] a2.nodes@[i]),
        0 <= idx < a1.nodes@.len(),
        cw_subtree_ok(a1, idx, bounds, input_len),
    ensures
        cw_subtree_ok(a2, idx, bounds, input_len),
    decreases a1.nodes@.len() - idx,
{
    let len = a1.nodes@.len() as int;
    assert(reorder_related(a1.nodes@[idx], a2.nodes@[idx]));
    match a1.nodes@[idx] {
        Node::Leaf(_) => {
            assert(a2.nodes@[idx] == a1.nodes@[idx]);
        },
        Node::Inner(_) => {
            let ch1 = a1.nodes@[idx].children_view();
            let ch2 = a2.nodes@[idx].children_view();
            assert(cw_node_ok(a1, ch1, bounds));
            assert forall|s: int| 0 <= s < BRANCHING implies cw_slot_ok(
                a2,
                #[trigger] ch2[s],
                bounds,
            ) by {
                crate::reorder::lemma_permuted_slot_origin(ch1, ch2, s);
                let t = choose|t: int| 0 <= t < ch1.len() && ch1[t] == ch2[s];
                assert(cw_slot_ok(a1, ch1[t], bounds));
                match ch2[s].child {
                    Option::Some(c) => {
                        assert(reorder_related(a1.nodes@[c as int], a2.nodes@[c as int]));
                    },
                    Option::None => {},
                }
            }
            assert forall|s: int|
                0 <= s < BRANCHING implies ((#[trigger] ch2[s]).child matches Some(c)
                ==> cw_subtree_ok(a2, c as int, ch2[s].bounds, input_len)) by {
                match ch2[s].child {
                    Option::Some(c) => {
                        crate::reorder::lemma_permuted_slot_origin(ch1, ch2, s);
                        let t = choose|t: int| 0 <= t < ch1.len() && ch1[t] == ch2[s];
                        assert(node_wf(a2.nodes@[idx], idx, len));
                        assert(slot_ok(ch2[s], idx, len));
                        assert(cw_subtree_ok(a1, c as int, ch1[t].bounds, input_len));
                        lemma_reorder_preserves_cw_ok(a1, a2, c as int, ch2[s].bounds, input_len);
                    },
                    Option::None => {},
                }
            }
        },
    }
}

/// What the builder's output tree undergoes once the build call returns:
/// the reorderer permutes every inner node's children into
/// direction-coherent slots, then the encoder linearizes the tree and the
/// final artifact is assembled.
pub fn finish_cwbvh(
    arena: &mut NodeArena,
    input_indices: &Vec<u32>,
    total_aabb: &Aabb,
    root: usize,
    uses_spatial_splits: bool,
) -> (bvh: CwBvh)
    requires
        old(arena).wf(),
        root < old(arena).nodes@.len(),
        old(arena).nodes@[root as int] is Inner,
        cw_subtree_ok(*old(arena), root as int, *total_aabb, input_indices@.len() as int),
        1 + emitted_nodes(*old(arena), root as int, BRANCHING as int) <= 0xFFFF_FFFF,
        emitted_prims(*old(arena), root as int, BRANCHING as int) <= 0xFFFF_FFFF,
    ensures
        final(arena).wf(),
        final(arena).nodes@.len() == old(arena).nodes@.len(),
        crate::reorder::subtree_unshared(*old(arena), root as int)
            ==> crate::reorder::reordered_from(
            *old(arena),
            *final(arena),
            root as int,
            *total_aabb,
        ),
        bvh.nodes@.len() == 1 + emitted_nodes(*old(arena), root as int, BRANCHING as int),
        bvh.primitive_indices@.len() == emitted_prims(*old(arena), root as int, BRANCHING as int),
        bvh.total_aabb == *total_aabb,
        bvh.uses_spatial_splits == uses_spatial_splits,
        exists|m: Map<int, OutEntry>|
            {
                &&& converter_inv(
                    *final(arena),
                    input_indices@,
                    bvh.nodes@,
                    bvh.primitive_indices@,
                    m,
                    Set::empty(),
                )
                &&& #[trigger] m.dom().contains(0)
                &&& m[0] == (OutEntry { node: root as int, bounds: *total_aabb, cb: 1, pb: 0 })
            },
{
    arena.order_subtree(root, total_aabb);
    proof {
        assert(old(arena).nodes@[root as int] is Inner);
        assert(reorder_related(old(arena).nodes@[root as int], arena.nodes@[root as int]));
        lemma_reorder_preserves_cw_ok(
            *old(arena),
            *arena,
            root as int,
            *total_aabb,
            input_indices@.len() as int,
        );
        lemma_reorder_preserves_emitted(*old(arena), *arena, root as int);
    }
    build_cwbvh(arena, input_indices, total_aabb, root, uses_spatial_splits)
}

} // verus!
