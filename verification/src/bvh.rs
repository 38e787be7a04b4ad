//! A linear bounding-volume hierarchy (LBVH) over integer-coordinate boxes.
//!
//! Construction sorts the objects by Morton key and derives the binary-tree
//! topology from the sorted keys' common-prefix structure, splitting each
//! key range at the position where the range's common prefix stops holding.
//! The tree is materialized as one flat arena of nodes in preorder: a node
//! is followed by its whole left subtree, then its whole right subtree, so
//! traversal never chases pointers.

use vstd::prelude::*;

use crate::aabb::{Aabb, Interval3};
use crate::sort::MortonKey;
use crate::COORD_LIMIT;

verus! {

/// One node of the flattened tree. `left`/`right` are arena indices, `-1`
/// on a leaf; `object_id` is the object's ordinal on a leaf, `-1` inside.
#[derive(Debug, Clone, Copy, PartialEq, Eq, Structural)]
pub struct FlatNode {
    /// Arena index of the left child, or -1 on a leaf.
    pub left: i32,
    /// Arena index of the right child, or -1 on a leaf.
    pub right: i32,
    /// The 0-based ordinal of the referenced object, or -1 inside the tree.
    pub object_id: i32,
    /// The node's bounding box; on an internal node, the tight union of its
    /// two children's boxes.
    pub aabb: Interval3,
}

/// The subtree of `arena` filling exactly `[idx, end)` in preorder is a
/// well-formed full binary tree: a leaf fills one slot; an internal node is
/// followed by its left subtree starting at `idx + 1` and its right subtree
/// starting at `right`, and its box is the tight union of its children's.
pub open spec fn wf_subtree(arena: Seq<FlatNode>, idx: int, end: int) -> bool
    decreases end - idx,
{
    &&& 0 <= idx < end <= arena.len()
    &&& if arena[idx].object_id >= 0 {
        &&& arena[idx].left == -1
        &&& arena[idx].right == -1
        &&& end == idx + 1
    } else {
        let r = arena[idx].right as int;
        &&& arena[idx].left as int == idx + 1
        &&& idx + 1 < r < end
        &&& wf_subtree(arena, idx + 1, r)
        &&& wf_subtree(arena, r, end)
        &&& arena[idx].aabb == arena[idx + 1].aabb.spec_union(arena[r].aabb)
    }
}

/// The object ids on the leaves of the subtree `[idx, end)`, left to right.
pub open spec fn leaves_seq(arena: Seq<FlatNode>, idx: int, end: int) -> Seq<i32>
    decreases end - idx,
{
    if !wf_subtree(arena, idx, end) {
        Seq::empty()
    } else if arena[idx].object_id >= 0 {
        seq![arena[idx].object_id]
    } else {
        let r = arena[idx].right as int;
        leaves_seq(arena, idx + 1, r) + leaves_seq(arena, r, end)
    }
}

/// Count of leading zero bits of a 32-bit value.
pub open spec fn clz32_spec(x: u32) -> int {
    if x >= 0x80000000 { 0 }
    else if x >= 0x40000000 { 1 }
    else if x >= 0x20000000 { 2 }
    else if x >= 0x10000000 { 3 }
    else if x >= 0x8000000 { 4 }
    else if x >= 0x4000000 { 5 }
    else if x >= 0x2000000 { 6 }
    else if x >= 0x1000000 { 7 }
    else if x >= 0x800000 { 8 }
    else if x >= 0x400000 { 9 }
    else if x >= 0x200000 { 10 }
    else if x >= 0x100000 { 11 }
    else if x >= 0x80000 { 12 }
    else if x >= 0x40000 { 13 }
    else if x >= 0x20000 { 14 }
    else if x >= 0x10000 { 15 }
    else if x >= 0x8000 { 16 }
    else if x >= 0x4000 { 17 }
    else if x >= 0x2000 { 18 }
    else if x >= 0x1000 { 19 }
    else if x >= 0x800 { 20 }
    else if x >= 0x400 { 21 }
    else if x >= 0x200 { 22 }
    else if x >= 0x100 { 23 }
    else if x >= 0x80 { 24 }
    else if x >= 0x40 { 25 }
    else if x >= 0x20 { 26 }
    else if x >= 0x10 { 27 }
    else if x >= 0x8 { 28 }
    else if x >= 0x4 { 29 }
    else if x >= 0x2 { 30 }
    else if x >= 0x1 { 31 }
    else { 32 }
}

/// Count the leading zero bits of a 32-bit value by a comparison ladder.
pub fn clz32(x: u32) -> (r: u32)
    ensures
        r as int == clz32_spec(x),
        r <= 32,
{
    if x >= 0x80000000 { 0 }
    else if x >= 0x40000000 { 1 }
    else if x >= 0x20000000 { 2 }
    else if x >= 0x10000000 { 3 }
    else if x >= 0x8000000 { 4 }
    else if x >= 0x4000000 { 5 }
    else if x >= 0x2000000 { 6 }
    else if x >= 0x1000000 { 7 }
    else if x >= 0x800000 { 8 }
    else if x >= 0x400000 { 9 }
    else if x >= 0x200000 { 10 }
    else if x >= 0x100000 { 11 }
    else if x >= 0x80000 { 12 }
    else if x >= 0x40000 { 13 }
    else if x >= 0x20000 { 14 }
    else if x >= 0x10000 { 15 }
    else if x >= 0x8000 { 16 }
    else if x >= 0x4000 { 17 }
    else if x >= 0x2000 { 18 }
    else if x >= 0x1000 { 19 }
    else if x >= 0x800 { 20 }
    else if x >= 0x400 { 21 }
    else if x >= 0x200 { 22 }
    else if x >= 0x100 { 23 }
    else if x >= 0x80 { 24 }
    else if x >= 0x40 { 25 }
    else if x >= 0x20 { 26 }
    else if x >= 0x10 { 27 }
    else if x >= 0x8 { 28 }
    else if x >= 0x4 { 29 }
    else if x >= 0x2 { 30 }
    else if x >= 0x1 { 31 }
    else { 32 }
}

/// The number of leading bits two sorted keys share, for the topology
/// derivation. Out-of-range `j` yields -1; identical codes are told apart
/// by their positions, shifted past the 32 code bits, so the derived order
/// is strict even among duplicate codes.
pub open spec fn common_prefix_spec(keys: Seq<MortonKey>, i: int, j: int) -> int {
    if j < 0 || j >= keys.len() || i < 0 || i >= keys.len() {
        -1
    } else if keys[i].code != keys[j].code {
        clz32_spec(keys[i].code ^ keys[j].code)
    } else {
        32 + clz32_spec((i as u32) ^ (j as u32))
    }
}

/// Compute the common-prefix measure of two key positions.
pub fn common_prefix(keys: &Vec<MortonKey>, i: usize, j: i64) -> (r: i32)
    requires
        i < keys@.len(),
        keys@.len() <= 0x4000_0000,
    ensures
        r as int == common_prefix_spec(keys@, i as int, j as int),
{
    if j < 0 || j >= keys.len() as i64 {
        return -1;
    }
    let ju = j as usize;
    let ci = keys[i].code;
    let cj = keys[ju].code;
    if ci != cj {
        clz32(ci ^ cj) as i32
    } else {
        32 + clz32((i as u32) ^ (ju as u32)) as i32
    }
}

/// One halving step of the split search, mirrored by the executable loop:
/// starting from `split` with the given `step`, repeatedly halve the step
/// and move the split right whenever the longer prefix still holds there.
pub open spec fn find_split_rec(
    keys: Seq<MortonKey>,
    first: int,
    last: int,
    common: int,
    split: int,
    step: int,
) -> int
    decreases step,
{
    if step <= 0 {
        split
    } else {
        let half = (step + 1) / 2;
        let cand = split + half;
        let next = if cand < last && common_prefix_spec(keys, first, cand) > common {
            cand
        } else {
            split
        };
        if half <= 1 {
            next
        } else {
            find_split_rec(keys, first, last, common, next, half)
        }
    }
}

/// Where the range `[first, last]` splits: the last position that still
/// shares the whole range's common prefix, found by binary search. The
/// result always lies in `[first, last)`.
pub open spec fn find_split_spec(keys: Seq<MortonKey>, first: int, last: int) -> int {
    let raw = find_split_rec(
        keys,
        first,
        last,
        common_prefix_spec(keys, first, last),
        first,
        last - first,
    );
    if first <= raw < last {
        raw
    } else {
        first
    }
}

/// The split search stays inside `[first, last)`.
pub proof fn lemma_find_split_rec_range(
    keys: Seq<MortonKey>,
    first: int,
    last: int,
    common: int,
    split: int,
    step: int,
)
    requires
        first <= split < last,
    ensures
        first <= find_split_rec(keys, first, last, common, split, step) < last,
    decreases step,
{
    if step > 0 {
        let half = (step + 1) / 2;
        let cand = split + half;
        let next = if cand < last && common_prefix_spec(keys, first, cand) > common {
            cand
        } else {
            split
        };
        if half > 1 {
            lemma_find_split_rec_range(keys, first, last, common, next, half);
        }
    }
}

/// Find the split position of the key range `[first, last]`.
pub fn find_split(keys: &Vec<MortonKey>, first: usize, last: usize) -> (split: usize)
    requires
        first < last < keys@.len(),
        keys@.len() <= 0x4000_0000,
    ensures
        first <= split < last,
        split as int == find_split_spec(keys@, first as int, last as int),
{
    let common = common_prefix(keys, first, last as i64);
    let mut split = first;
    let mut step = last - first;
    proof {
        lemma_find_split_rec_range(
            keys@,
            first as int,
            last as int,
            common as int,
            first as int,
            last as int - first as int,
        );
    }
    loop
        invariant
            first <= split < last < keys@.len(),
            keys@.len() <= 0x4000_0000,
            1 <= step <= last,
            common as int == common_prefix_spec(keys@, first as int, last as int),
            find_split_rec(
                keys@,
                first as int,
                last as int,
                common as int,
                split as int,
                step as int,
            ) == find_split_spec(keys@, first as int, last as int),
        decreases step,
    {
        let half = (step + 1) / 2;
        let cand = split + half;
        if cand < last {
            let prefix = common_prefix(keys, first, cand as i64);
            if prefix > common {
                split = cand;
            }
        }
        if half <= 1 {
            return split;
        }
        step = half;
    }
}

/// Every key ordinal addresses one of `n` objects.
pub open spec fn keys_valid(keys: Seq<MortonKey>, n: int) -> bool {
    forall|i: int| 0 <= i < keys.len() ==> (#[trigger] keys[i]).object_ordinal < n
}

/// Every box of the caller's array is valid.
pub open spec fn boxes_wf(boxes: Seq<Aabb>) -> bool {
    forall|i: int| 0 <= i < boxes.len() ==> (#[trigger] boxes[i]).wf()
}

/// The preorder arena of the subtree over the sorted-key range
/// `[first, last]` (inclusive), with its root at index `base`: the root
/// node, then the flattened left subtree over `[first, split]`, then the
/// flattened right subtree over `[split + 1, last]`.
pub open spec fn flatten_spec(
    keys: Seq<MortonKey>,
    boxes: Seq<Aabb>,
    first: int,
    last: int,
    base: int,
) -> Seq<FlatNode>
    decreases last - first,
{
    if first < 0 || last < first || last >= keys.len() {
        Seq::empty()
    } else if first == last {
        seq![
            FlatNode {
                left: -1i32,
                right: -1i32,
                object_id: keys[first].object_ordinal as i32,
                aabb: boxes[keys[first].object_ordinal as int].spec_corners(),
            },
        ]
    } else {
        let split = find_split_spec(keys, first, last);
        let l = flatten_spec(keys, boxes, first, split, base + 1);
        let r = flatten_spec(keys, boxes, split + 1, last, base + 1 + l.len());
        seq![
            FlatNode {
                left: (base + 1) as i32,
                right: (base + 1 + l.len()) as i32,
                object_id: -1i32,
                aabb: l[0].aabb.spec_union(r[0].aabb),
            },
        ] + l + r
    }
}

/// A flattened range of `k + 1` leaves takes exactly `2k + 1` slots.
pub proof fn lemma_flatten_len(
    keys: Seq<MortonKey>,
    boxes: Seq<Aabb>,
    first: int,
    last: int,
    base: int,
)
    requires
        0 <= first <= last < keys.len(),
    ensures
        flatten_spec(keys, boxes, first, last, base).len() == 2 * (last - first) + 1,
    decreases last - first,
{
    if first < last {
        let split = find_split_spec(keys, first, last);
        let l = flatten_spec(keys, boxes, first, split, base + 1);
        lemma_flatten_len(keys, boxes, first, split, base + 1);
        lemma_flatten_len(keys, boxes, split + 1, last, base + 1 + l.len());
    }
}

/// The ordinals of a key range, as leaf ids, in order.
pub open spec fn range_ords(keys: Seq<MortonKey>, first: int, last: int) -> Seq<i32> {
    keys.subrange(first, last + 1).map_values(|k: MortonKey| k.object_ordinal as i32)
}

/// Wherever a flattened range sits inside an arena, it forms a well-formed
/// subtree whose leaves carry the range's ordinals in order.
pub proof fn lemma_flatten_wf(
    keys: Seq<MortonKey>,
    boxes: Seq<Aabb>,
    arena: Seq<FlatNode>,
    first: int,
    last: int,
    base: int,
)
    requires
        0 <= first <= last < keys.len(),
        keys.len() <= 0x4000_0000,
        boxes.len() <= 0x4000_0000,
        keys_valid(keys, boxes.len() as int),
        0 <= base,
        base + 2 * (last - first) + 1 <= 0x4000_0000,
        base + 2 * (last - first) + 1 <= arena.len(),
        arena.subrange(base, base + 2 * (last - first) + 1) == flatten_spec(
            keys,
            boxes,
            first,
            last,
            base,
        ),
    ensures
        wf_subtree(arena, base, base + 2 * (last - first) + 1),
        leaves_seq(arena, base, base + 2 * (last - first) + 1) == range_ords(keys, first, last),
    decreases last - first,
{
    lemma_flatten_len(keys, boxes, first, last, base);
    let end = base + 2 * (last - first) + 1;
    let f = flatten_spec(keys, boxes, first, last, base);
    assert(arena[base] == f[0]);
    if first == last {
        assert(arena[base].object_id as int == keys[first].object_ordinal as int);
        assert(wf_subtree(arena, base, end));
        assert(leaves_seq(arena, base, end) =~= range_ords(keys, first, last));
    } else {
        let split = find_split_spec(keys, first, last);
        let l = flatten_spec(keys, boxes, first, split, base + 1);
        let r = flatten_spec(keys, boxes, split + 1, last, base + 1 + l.len());
        lemma_flatten_len(keys, boxes, first, split, base + 1);
        lemma_flatten_len(keys, boxes, split + 1, last, base + 1 + l.len());
        let rpos = base + 1 + l.len();
        assert(f == seq![
            FlatNode {
                left: (base + 1) as i32,
                right: (base + 1 + l.len()) as i32,
                object_id: -1i32,
                aabb: l[0].aabb.spec_union(r[0].aabb),
            },
        ] + l + r);
        assert(f.len() == 1 + l.len() + r.len());
        assert(forall|m: int| 0 <= m < f.len() ==> arena[base + m] == #[trigger] f[m]);
        assert forall|m: int| 0 <= m < l.len() implies arena[base + 1 + m] == #[trigger] l[m] by {
            assert(f[1 + m] == l[m]);
            assert(arena[base + (1 + m)] == f[1 + m]);
        }
        assert forall|m: int| 0 <= m < r.len() implies arena[rpos + m] == #[trigger] r[m] by {
            assert(f[1 + l.len() + m] == r[m]);
            assert(arena[base + (1 + l.len() + m)] == f[1 + l.len() + m]);
        }
        assert(arena.subrange(base + 1, rpos as int) =~= l);
        assert(arena.subrange(rpos as int, end) =~= r);
        lemma_flatten_wf(keys, boxes, arena, first, split, base + 1);
        lemma_flatten_wf(keys, boxes, arena, split + 1, last, rpos as int);
        assert(arena[base].object_id == -1);
        assert(arena[base].left as int == base + 1);
        assert(arena[base].right as int == rpos);
        assert(arena[base + 1] == l[0]);
        assert(arena[rpos as int] == r[0]);
        assert(wf_subtree(arena, base, end));
        assert(leaves_seq(arena, base, end) == range_ords(keys, first, split) + range_ords(
            keys,
            split + 1,
            last,
        ));
        assert(range_ords(keys, first, split) + range_ords(keys, split + 1, last) =~= range_ords(
            keys,
            first,
            last,
        ));
    }
}

/// Every node box of a flattened range is a valid interval: leaf boxes are
/// corner forms of valid boxes, and a union of valid intervals is valid.
proof fn lemma_flatten_boxes_wf(
    keys: Seq<MortonKey>,
    boxes: Seq<Aabb>,
    arena: Seq<FlatNode>,
    first: int,
    last: int,
    base: int,
)
    requires
        0 <= first <= last < keys.len(),
        keys.len() <= 0x4000_0000,
        boxes.len() <= 0x4000_0000,
        keys_valid(keys, boxes.len() as int),
        boxes_wf(boxes),
        0 <= base,
        base + 2 * (last - first) + 1 <= 0x4000_0000,
        base + 2 * (last - first) + 1 <= arena.len(),
        arena.subrange(base, base + 2 * (last - first) + 1) == flatten_spec(
            keys,
            boxes,
            first,
            last,
            base,
        ),
    ensures
        forall|q: int|
            base <= q < base + 2 * (last - first) + 1 ==> (#[trigger] arena[q]).aabb.wf(),
    decreases last - first,
{
    lemma_flatten_len(keys, boxes, first, last, base);
    let end = base + 2 * (last - first) + 1;
    let f = flatten_spec(keys, boxes, first, last, base);
    assert(forall|m: int| 0 <= m < f.len() ==> arena[base + m] == #[trigger] f[m]);
    if first == last {
        assert(arena[base] == f[0]);
    } else {
        let split = find_split_spec(keys, first, last);
        let l = flatten_spec(keys, boxes, first, split, base + 1);
        let r = flatten_spec(keys, boxes, split + 1, last, base + 1 + l.len());
        lemma_flatten_len(keys, boxes, first, split, base + 1);
        lemma_flatten_len(keys, boxes, split + 1, last, base + 1 + l.len());
        let rpos = base + 1 + l.len();
        assert forall|m: int| 0 <= m < l.len() implies arena[base + 1 + m] == #[trigger] l[m] by {
            assert(f[1 + m] == l[m]);
            assert(arena[base + (1 + m)] == f[1 + m]);
        }
        assert forall|m: int| 0 <= m < r.len() implies arena[rpos + m] == #[trigger] r[m] by {
            assert(f[1 + l.len() + m] == r[m]);
            assert(arena[base + (1 + l.len() + m)] == f[1 + l.len() + m]);
        }
        assert(arena.subrange(base + 1, rpos as int) =~= l);
        assert(arena.subrange(rpos as int, end) =~= r);
        lemma_flatten_boxes_wf(keys, boxes, arena, first, split, base + 1);
        lemma_flatten_boxes_wf(keys, boxes, arena, split + 1, last, rpos as int);
        assert(arena[base] == f[0]);
        assert(arena[base].aabb == l[0].aabb.spec_union(r[0].aabb));
        assert(arena[base + 1] == l[0] && arena[rpos as int] == r[0]);
        crate::aabb::lemma_union_contains(l[0].aabb, r[0].aabb);
    }
}

/// Build the subtree over the sorted-key range `[first, last]` (inclusive),
/// appending its preorder layout to the arena; returns the subtree root's
/// index, which is the first appended slot.
fn build_range(
    keys: &Vec<MortonKey>,
    boxes: &Vec<Aabb>,
    first: usize,
    last: usize,
    arena: &mut Vec<FlatNode>,
) -> (idx: usize)
    requires
        first <= last < keys@.len(),
        keys@.len() <= 0x4000_0000,
        keys_valid(keys@, boxes@.len() as int),
        boxes_wf(boxes@),
        old(arena)@.len() + 2 * (last - first) + 1 <= 0x4000_0000,
    ensures
        idx == old(arena)@.len(),
        final(arena)@ == old(arena)@ + flatten_spec(
            keys@,
            boxes@,
            first as int,
            last as int,
            old(arena)@.len() as int,
        ),
    decreases last - first,
{
    let idx = arena.len();
    if first == last {
        let ord = keys[first].object_ordinal;
        let bx = boxes[ord].corners();
        arena.push(FlatNode { left: -1, right: -1, object_id: ord as i32, aabb: bx });
        proof {
            assert(arena@ =~= old(arena)@ + flatten_spec(
                keys@,
                boxes@,
                first as int,
                last as int,
                idx as int,
            ));
        }
        idx
    } else {
        let split = find_split(keys, first, last);
        let ghost fsp = find_split_spec(keys@, first as int, last as int);
        // Reserve the internal node's slot; its child indices and box are
        // back-filled once both subtrees have been appended.
        arena.push(
            FlatNode {
                left: -1,
                right: -1,
                object_id: -1,
                aabb: Interval3 { lox: 0, hix: 0, loy: 0, hiy: 0, loz: 0, hiz: 0 },
            },
        );
        proof {
            lemma_flatten_len(keys@, boxes@, first as int, fsp, idx + 1);
        }
        let l = build_range(keys, boxes, first, split, arena);
        let r = build_range(keys, boxes, split + 1, last, arena);
        let la = arena[l].aabb;
        let ra = arena[r].aabb;
        let node = FlatNode { left: l as i32, right: r as i32, object_id: -1, aabb: la.union(&ra) };
        arena.set(idx, node);
        proof {
            let ks = keys@;
            let bs = boxes@;
            let lseq = flatten_spec(ks, bs, first as int, fsp, idx + 1);
            let rseq = flatten_spec(ks, bs, fsp + 1, last as int, idx + 1 + lseq.len());
            lemma_flatten_len(ks, bs, fsp + 1, last as int, idx + 1 + lseq.len());
            assert(l == idx + 1);
            assert(r as int == idx + 1 + lseq.len());
            assert(la == lseq[0].aabb);
            assert(ra == rseq[0].aabb);
            assert(node == flatten_spec(ks, bs, first as int, last as int, idx as int)[0]);
            assert(arena@ =~= old(arena)@ + flatten_spec(
                ks,
                bs,
                first as int,
                last as int,
                idx as int,
            ));
        }
        idx
    }
}

/// The absolute value of an integer.
pub open spec fn abs_i(x: int) -> int {
    if x < 0 {
        -x
    } else {
        x
    }
}

/// The largest absolute corner coordinate of one box, over all three axes.
pub open spec fn box_reach(b: Aabb) -> int {
    let c = b.spec_corners();
    let x = if abs_i(c.lox as int) >= abs_i(c.hix as int) {
        abs_i(c.lox as int)
    } else {
        abs_i(c.hix as int)
    };
    let y = if abs_i(c.loy as int) >= abs_i(c.hiy as int) {
        abs_i(c.loy as int)
    } else {
        abs_i(c.hiy as int)
    };
    let z = if abs_i(c.loz as int) >= abs_i(c.hiz as int) {
        abs_i(c.loz as int)
    } else {
        abs_i(c.hiz as int)
    };
    let xy = if x >= y {
        x
    } else {
        y
    };
    if xy >= z {
        xy
    } else {
        z
    }
}

/// The largest absolute corner coordinate over the first `k` boxes.
pub open spec fn max_reach(boxes: Seq<Aabb>, k: int) -> int
    decreases k,
{
    if k <= 0 {
        0
    } else {
        let rest = max_reach(boxes, k - 1);
        let b = box_reach(boxes[k - 1]);
        if b >= rest {
            b
        } else {
            rest
        }
    }
}

/// The world extent derived from a batch of boxes: eleven fifths of the
/// largest absolute corner coordinate (a fifth more than twice the reach,
/// as padding), at least 10; an empty batch gets the fixed default 1000.
pub open spec fn world_size_spec(boxes: Seq<Aabb>) -> int {
    if boxes.len() == 0 {
        1000
    } else {
        let w = 11 * max_reach(boxes, boxes.len() as int) / 5;
        if w < 10 {
            10
        } else {
            w
        }
    }
}

/// The Morton keys of a box batch, one per box, in order.
pub open spec fn input_keys_spec(boxes: Seq<Aabb>, ws: int) -> Seq<MortonKey> {
    Seq::new(
        boxes.len(),
        |i: int|
            MortonKey {
                object_ordinal: i as usize,
                code: crate::morton::morton_spec(
                    boxes[i].cx as int,
                    boxes[i].cy as int,
                    boxes[i].cz as int,
                    ws,
                ),
            },
    )
}

/// Weak order on keys by code, then ordinal.
pub open spec fn key_le(a: MortonKey, b: MortonKey) -> bool {
    a.code < b.code || (a.code == b.code && a.object_ordinal <= b.object_ordinal)
}

/// The box batch's keys in ascending Morton order, ties by ordinal.
pub open spec fn sorted_keys_spec(boxes: Seq<Aabb>, ws: int) -> Seq<MortonKey> {
    input_keys_spec(boxes, ws).sort_by(|a: MortonKey, b: MortonKey| key_le(a, b))
}

/// The arena `build` produces for a box batch and world extent.
pub open spec fn arena_spec(boxes: Seq<Aabb>, ws: int) -> Seq<FlatNode> {
    if boxes.len() == 0 {
        Seq::empty()
    } else {
        flatten_spec(sorted_keys_spec(boxes, ws), boxes, 0, boxes.len() - 1, 0)
    }
}

/// A sequence that is a permutation of another maps to a permutation.
proof fn lemma_map_values_multiset<A, B>(s1: Seq<A>, s2: Seq<A>, f: spec_fn(A) -> B)
    requires
        s1.to_multiset() == s2.to_multiset(),
    ensures
        s1.map_values(f).to_multiset() == s2.map_values(f).to_multiset(),
    decreases s1.len(),
{
    s1.to_multiset_ensures();
    s2.to_multiset_ensures();
    if s1.len() == 0 {
        assert(s2.len() == 0);
        assert(s1.map_values(f) =~= Seq::<B>::empty());
        assert(s2.map_values(f) =~= Seq::<B>::empty());
        assert(s1.map_values(f).to_multiset() =~= s2.map_values(f).to_multiset());
    } else {
        let x = s1.last();
        let u1 = s1.drop_last();
        assert(u1.push(x) =~= s1);
        u1.to_multiset_ensures();
        assert(s1.to_multiset().count(x) > 0);
        assert(s2.to_multiset().count(x) > 0);
        assert(s2.contains(x));
        let k = choose|k: int| 0 <= k < s2.len() && s2[k] == x;
        let u2 = s2.remove(k);
        u2.to_multiset_ensures();
        assert(u2.to_multiset() == s2.to_multiset().remove(x));
        assert(u1.to_multiset() == s1.to_multiset().remove(x));
        lemma_map_values_multiset(u1, u2, f);
        assert(s1.map_values(f) =~= u1.map_values(f).push(f(x)));
        assert(s2.map_values(f).remove(k) =~= u2.map_values(f));
        s2.map_values(f).to_multiset_ensures();
        u1.map_values(f).to_multiset_ensures();
        assert(s2.map_values(f).remove(k).to_multiset() == s2.map_values(f).to_multiset().remove(
            f(x),
        ));
        assert(u1.map_values(f).push(f(x)).to_multiset() == u1.map_values(f).to_multiset().insert(
            f(x),
        ));
        assert(s2.map_values(f)[k] == f(x));
        assert(s2.map_values(f).to_multiset().count(f(x)) > 0);
        assert(s1.map_values(f).to_multiset() =~= s2.map_values(f).to_multiset());
    }
}

/// A bounding-volume hierarchy: a flat preorder arena of nodes, the index
/// of its root, the world extent its Morton keys were computed with, and an
/// optional identifier per indexed object.
#[derive(Debug, Clone)]
pub struct BVH {
    /// The unique identifier of the index instance.
    pub guid: String,
    /// The name of the index instance.
    pub name: String,
    /// The world extent used to normalize positions into Morton cells.
    pub world_size: i64,
    /// Optional parallel array mapping object ordinals to caller identifiers.
    pub object_guids: Vec<String>,
    /// The flattened tree.
    pub arena: Vec<FlatNode>,
    /// Arena index of the root: 0 when the arena is nonempty, else -1.
    pub arena_root: i32,
}

impl BVH {
    /// Structural invariant: an empty arena with root -1, or a well-formed
    /// preorder tree filling the whole arena with its root at slot 0.
    pub open spec fn inv(self) -> bool {
        if self.arena@.len() == 0 {
            self.arena_root == -1
        } else {
            &&& self.arena_root == 0
            &&& self.arena@.len() <= 0x4000_0000
            &&& wf_subtree(self.arena@, 0, self.arena@.len() as int)
            &&& forall|q: int| 0 <= q < self.arena@.len() ==> (#[trigger] self.arena@[q]).aabb.wf()
        }
    }

    /// Create an empty index with the default world extent.
    pub fn new() -> (b: BVH)
        ensures
            b.inv(),
            b.arena@.len() == 0,
            b.arena_root == -1,
            b.world_size == 1000,
            b.object_guids@.len() == 0,
            b.name@ == "my_bvh"@,
    {
        BVH {
            guid: crate::guid::new_guid(),
            name: "my_bvh".to_owned(),
            world_size: 1000,
            object_guids: Vec::new(),
            arena: Vec::new(),
            arena_root: -1,
        }
    }

    /// Derive the world extent from a batch of boxes.
    #[verifier::rlimit(60)]
    pub fn compute_world_size(bounding_boxes: &Vec<Aabb>) -> (ws: i64)
        requires
            boxes_wf(bounding_boxes@),
        ensures
            ws as int == world_size_spec(bounding_boxes@),
            10 <= ws <= crate::WORLD_LIMIT,
    {
        let n = bounding_boxes.len();
        if n == 0 {
            return 1000;
        }
        let mut max_extent: i64 = 0;
        let mut i: usize = 0;
        while i < n
            invariant
                i <= n,
                n == bounding_boxes@.len(),
                boxes_wf(bounding_boxes@),
                max_extent as int == max_reach(bounding_boxes@, i as int),
                0 <= max_extent <= 2 * crate::COORD_LIMIT,
            decreases n - i,
        {
            let c = bounding_boxes[i].corners();
            let ax = if c.lox >= 0 { c.lox } else { -c.lox };
            let bx = if c.hix >= 0 { c.hix } else { -c.hix };
            let x = if ax >= bx { ax } else { bx };
            let ay = if c.loy >= 0 { c.loy } else { -c.loy };
            let by = if c.hiy >= 0 { c.hiy } else { -c.hiy };
            let y = if ay >= by { ay } else { by };
            let az = if c.loz >= 0 { c.loz } else { -c.loz };
            let bz = if c.hiz >= 0 { c.hiz } else { -c.hiz };
            let z = if az >= bz { az } else { bz };
            let xy = if x >= y { x } else { y };
            let r = if xy >= z { xy } else { z };
            if r > max_extent {
                max_extent = r;
            }
            i = i + 1;
        }
        let w = 11 * max_extent / 5;
        proof {
            assert(11 * max_extent / 5 <= 11 * (2 * crate::COORD_LIMIT) / 5) by (nonlinear_arith)
                requires
                    0 <= max_extent <= 2 * crate::COORD_LIMIT,
            ;
        }
        if w < 10 {
            10
        } else {
            w
        }
    }

    /// Rebuild the index over a batch of boxes, replacing any prior arena.
    /// The resulting arena is exactly the flattened LBVH of the batch under
    /// the current world extent, so rebuilding over an equal batch yields an
    /// identical arena.
    pub fn build(&mut self, bounding_boxes: &Vec<Aabb>)
        requires
            boxes_wf(bounding_boxes@),
            bounding_boxes@.len() <= 0x2000_0000,
            1 <= old(self).world_size <= crate::WORLD_LIMIT,
        ensures
            final(self).inv(),
            final(self).arena@ == arena_spec(bounding_boxes@, old(self).world_size as int),
            final(self).arena_root == if bounding_boxes@.len() == 0 {
                -1int
            } else {
                0int
            },
            final(self).world_size == old(self).world_size,
            final(self).guid == old(self).guid,
            final(self).name == old(self).name,
            final(self).object_guids == old(self).object_guids,
    {
        let n = bounding_boxes.len();
        let ghost ws = self.world_size as int;
        if n == 0 {
            self.arena = Vec::new();
            self.arena_root = -1;
            proof {
                assert(self.arena@ =~= arena_spec(bounding_boxes@, ws));
            }
            return;
        }
        // Key every object by the Morton code of its center.
        let mut keys: Vec<MortonKey> = Vec::new();
        let mut i: usize = 0;
        while i < n
            invariant
                i <= n,
                n == bounding_boxes@.len(),
                boxes_wf(bounding_boxes@),
                1 <= self.world_size <= crate::WORLD_LIMIT,
                ws == self.world_size as int,
                keys@ =~= input_keys_spec(bounding_boxes@, ws).take(i as int),
            decreases n - i,
        {
            let b = &bounding_boxes[i];
            let code = crate::morton::calculate_morton_code(b.cx, b.cy, b.cz, self.world_size);
            keys.push(MortonKey { object_ordinal: i, code });
            proof {
                assert(keys@ =~= input_keys_spec(bounding_boxes@, ws).take(i + 1));
            }
            i = i + 1;
        }
        proof {
            assert(keys@ =~= input_keys_spec(bounding_boxes@, ws));
            assert forall|a: int, b: int| 0 <= a < b < keys@.len() implies crate::sort::key_lt_at(
                keys@[a],
                keys@[b],
                0,
            ) by {
            }
            assert forall|q: int| 0 <= q < keys@.len() implies (#[trigger] keys@[q]).code
                < 0x40000000 by {
                crate::morton::lemma_morton_bound(
                    bounding_boxes@[q].cx as int,
                    bounding_boxes@[q].cy as int,
                    bounding_boxes@[q].cz as int,
                    ws,
                );
            }
        }
        // Order the objects along the Z-order curve.
        let sorted = crate::sort::radix_sort_by_code(keys);
        proof {
            lemma_sorted_is_sort_by(input_keys_spec(bounding_boxes@, ws), sorted@);
            assert(sorted@ == sorted_keys_spec(bounding_boxes@, ws));
            assert forall|q: int| 0 <= q < sorted@.len() implies (
            #[trigger] sorted@[q]).object_ordinal < bounding_boxes@.len() by {
                sorted@.to_multiset_ensures();
                input_keys_spec(bounding_boxes@, ws).to_multiset_ensures();
                assert(sorted@.contains(sorted@[q]));
                assert(sorted@.to_multiset().count(sorted@[q]) > 0);
                assert(input_keys_spec(bounding_boxes@, ws).to_multiset().count(sorted@[q]) > 0);
                assert(input_keys_spec(bounding_boxes@, ws).contains(sorted@[q]));
            }
        }
        // Flatten the derived topology into a fresh arena.
        let mut arena: Vec<FlatNode> = Vec::new();
        let root = build_range(&sorted, bounding_boxes, 0, n - 1, &mut arena);
        self.arena = arena;
        self.arena_root = 0;
        proof {
            assert(self.arena@ =~= arena_spec(bounding_boxes@, ws));
            lemma_flatten_len(sorted@, bounding_boxes@, 0, n as int - 1, 0);
            assert(self.arena@.subrange(0, self.arena@.len() as int) =~= self.arena@);
            lemma_flatten_wf(sorted@, bounding_boxes@, self.arena@, 0, n as int - 1, 0);
            lemma_flatten_boxes_wf(sorted@, bounding_boxes@, self.arena@, 0, n as int - 1, 0);
        }
    }

    /// Create an index over a batch of boxes with a caller-supplied world
    /// extent.
    pub fn from_boxes(bounding_boxes: &Vec<Aabb>, world_size: i64) -> (b: BVH)
        requires
            boxes_wf(bounding_boxes@),
            bounding_boxes@.len() <= 0x2000_0000,
            1 <= world_size <= crate::WORLD_LIMIT,
        ensures
            b.inv(),
            b.world_size == world_size,
            b.arena@ == arena_spec(bounding_boxes@, world_size as int),
            b.arena_root == if bounding_boxes@.len() == 0 {
                -1int
            } else {
                0int
            },
    {
        let mut bvh = Self::new();
        bvh.world_size = world_size;
        bvh.build(bounding_boxes);
        bvh
    }

    /// Rebuild the index over boxes paired with caller identifiers; the
    /// world extent is derived from the boxes.
    pub fn build_with_guids(&mut self, boxes_with_guids: &Vec<(Aabb, String)>)
        requires
            forall|i: int|
                0 <= i < boxes_with_guids@.len() ==> (#[trigger] boxes_with_guids@[i]).0.wf(),
            boxes_with_guids@.len() <= 0x2000_0000,
        ensures
            final(self).inv(),
            final(self).object_guids@.len() == boxes_with_guids@.len(),
            forall|i: int|
                0 <= i < boxes_with_guids@.len() ==> final(self).object_guids@[i]@ == (
                #[trigger] boxes_with_guids@[i]).1@,
            final(self).world_size as int == world_size_spec(
                boxes_with_guids@.map_values(|p: (Aabb, String)| p.0),
            ),
            final(self).arena@ == arena_spec(
                boxes_with_guids@.map_values(|p: (Aabb, String)| p.0),
                final(self).world_size as int,
            ),
    {
        let ghost pairs = boxes_with_guids@;
        let ghost boxes_spec = pairs.map_values(|p: (Aabb, String)| p.0);
        let n = boxes_with_guids.len();
        let mut boxes: Vec<Aabb> = Vec::new();
        let mut guids: Vec<String> = Vec::new();
        let mut i: usize = 0;
        while i < n
            invariant
                i <= n,
                n == pairs.len(),
                boxes_with_guids@ == pairs,
                boxes_spec == pairs.map_values(|p: (Aabb, String)| p.0),
                forall|j: int| 0 <= j < pairs.len() ==> (#[trigger] pairs[j]).0.wf(),
                boxes@ =~= boxes_spec.take(i as int),
                guids@.len() == i,
                forall|j: int| 0 <= j < i ==> guids@[j]@ == (#[trigger] pairs[j]).1@,
            decreases n - i,
        {
            let pair = &boxes_with_guids[i];
            boxes.push(pair.0);
            guids.push(pair.1.clone());
            proof {
                assert(boxes@ =~= boxes_spec.take(i + 1));
            }
            i = i + 1;
        }
        proof {
            assert(boxes@ =~= boxes_spec);
        }
        self.object_guids = guids;
        self.world_size = Self::compute_world_size(&boxes);
        self.build(&boxes);
    }
}

/// A strictly code-then-ordinal sorted permutation of the keys is the one
/// stable sort of them.
proof fn lemma_sorted_is_sort_by(input: Seq<MortonKey>, output: Seq<MortonKey>)
    requires
        output.to_multiset() == input.to_multiset(),
        forall|i: int, j: int|
            0 <= i < j < output.len() ==> crate::sort::key_lt(#[trigger] output[i], #[trigger] output[j]),
    ensures
        output == input.sort_by(|a: MortonKey, b: MortonKey| key_le(a, b)),
{
    let leq = |a: MortonKey, b: MortonKey| key_le(a, b);
    input.lemma_sort_by_ensures(leq);
    assert(vstd::relations::total_ordering(leq)) by {
        assert forall|a: MortonKey, b: MortonKey| #[trigger] leq(a, b) && #[trigger] leq(b, a) implies a == b by {
            assert(a.code == b.code && a.object_ordinal == b.object_ordinal);
        }
    }
    assert(vstd::relations::sorted_by(output, leq));
    assert(vstd::relations::sorted_by(input.sort_by(leq), leq));
    assert(output.to_multiset() == input.sort_by(leq).to_multiset());
    vstd::seq_lib::lemma_sorted_unique(output, input.sort_by(leq), leq);
    assert(output =~= input.sort_by(leq));
}

/// The identifiers `0` to `n - 1`, as leaf ids.
pub open spec fn id_range(n: int) -> Seq<i32> {
    Seq::new(n as nat, |i: int| i as i32)
}

/// The arena a build produces over `n` boxes holds exactly `2n - 1` nodes,
/// and its leaves carry every object id `0` to `n - 1` exactly once.
pub proof fn lemma_arena_spec_shape(boxes: Seq<Aabb>, ws: int)
    requires
        boxes_wf(boxes),
        1 <= boxes.len() <= 0x2000_0000,
    ensures
        arena_spec(boxes, ws).len() == 2 * boxes.len() - 1,
        wf_subtree(arena_spec(boxes, ws), 0, arena_spec(boxes, ws).len() as int),
        leaves_seq(arena_spec(boxes, ws), 0, arena_spec(boxes, ws).len() as int).to_multiset()
            == id_range(boxes.len() as int).to_multiset(),
{
    let n = boxes.len() as int;
    let input = input_keys_spec(boxes, ws);
    let leq = |a: MortonKey, b: MortonKey| key_le(a, b);
    let sorted = sorted_keys_spec(boxes, ws);
    input.lemma_sort_by_ensures(leq);
    assert(sorted.to_multiset() == input.to_multiset());
    assert(sorted.len() == n) by {
        sorted.to_multiset_ensures();
        input.to_multiset_ensures();
    }
    assert forall|q: int| 0 <= q < sorted.len() implies (#[trigger] sorted[q]).object_ordinal
        < n by {
        sorted.to_multiset_ensures();
        input.to_multiset_ensures();
        assert(sorted.contains(sorted[q]));
        assert(input.contains(sorted[q]));
    }
    let a = arena_spec(boxes, ws);
    lemma_flatten_len(sorted, boxes, 0, n - 1, 0);
    assert(a.subrange(0, a.len() as int) =~= a);
    lemma_flatten_wf(sorted, boxes, a, 0, n - 1, 0);
    // The leaf ids are the sorted ordinals, a permutation of the input
    // ordinals, which are exactly 0 to n - 1.
    let f = |k: MortonKey| k.object_ordinal as i32;
    assert(leaves_seq(a, 0, a.len() as int) == range_ords(sorted, 0, n - 1));
    assert(sorted.subrange(0, n) =~= sorted);
    lemma_map_values_multiset(sorted, input, f);
    assert(input.map_values(f) =~= id_range(n));
    assert(leaves_seq(a, 0, a.len() as int).to_multiset() =~= id_range(n).to_multiset());
}

/// Inside a well-formed subtree, every internal node's box is the tight
/// union of its two children's boxes, and its children sit where the
/// preorder layout puts them.
pub proof fn lemma_internal_boxes_are_unions(arena: Seq<FlatNode>, idx: int, end: int, q: int)
    requires
        wf_subtree(arena, idx, end),
        idx <= q < end,
        arena[q].object_id < 0,
    ensures
        arena[q].left as int == q + 1,
        q + 1 < (arena[q].right as int) && (arena[q].right as int) < end,
        arena[q].aabb == arena[q + 1].aabb.spec_union(arena[(arena[q].right) as int].aabb),
    decreases end - idx,
{
    if q > idx {
        let r = arena[idx].right as int;
        if q < r {
            lemma_internal_boxes_are_unions(arena, idx + 1, r, q);
        } else {
            lemma_internal_boxes_are_unions(arena, r, end, q);
        }
    }
}

/// Rebuilding over an equal batch with an equal world extent yields an
/// identical arena: the arena is a function of the batch and extent alone.
pub proof fn lemma_build_deterministic(
    boxes1: Seq<Aabb>,
    boxes2: Seq<Aabb>,
    a1: Seq<FlatNode>,
    a2: Seq<FlatNode>,
    ws: int,
)
    requires
        boxes1 == boxes2,
        a1 == arena_spec(boxes1, ws),
        a2 == arena_spec(boxes2, ws),
    ensures
        a1 == a2,
{
}

/// The candidate ordinals a pruned depth-first query visit reports from the
/// subtree `[idx, end)`: nothing when the query misses the node's box; the
/// node's object when a leaf passes the exclusion and re-test; otherwise the
/// right subtree's hits, then the left's, matching the traversal stack's
/// pop order.
pub open spec fn query_hits(
    arena: Seq<FlatNode>,
    idx: int,
    end: int,
    q: Interval3,
    exclude: int,
    boxes: Seq<Aabb>,
) -> Seq<usize>
    decreases end - idx,
{
    if !wf_subtree(arena, idx, end) {
        Seq::empty()
    } else if !q.spec_overlaps(arena[idx].aabb) {
        Seq::empty()
    } else if arena[idx].object_id >= 0 {
        let id = arena[idx].object_id as int;
        if id != exclude && id < boxes.len() && q.spec_overlaps(boxes[id].spec_corners()) {
            seq![arena[idx].object_id as usize]
        } else {
            Seq::empty()
        }
    } else {
        let r = arena[idx].right as int;
        query_hits(arena, r, end, q, exclude, boxes) + query_hits(
            arena,
            idx + 1,
            r,
            q,
            exclude,
            boxes,
        )
    }
}

/// How many nodes the pruned query visit pops from its stack.
pub open spec fn query_count(arena: Seq<FlatNode>, idx: int, end: int, q: Interval3) -> int
    decreases end - idx,
{
    if !wf_subtree(arena, idx, end) {
        0
    } else if !q.spec_overlaps(arena[idx].aabb) || arena[idx].object_id >= 0 {
        1
    } else {
        let r = arena[idx].right as int;
        1 + query_count(arena, r, end, q) + query_count(arena, idx + 1, r, q)
    }
}

/// A query visit pops at most one node per arena slot of the subtree.
pub proof fn lemma_query_count_bound(arena: Seq<FlatNode>, idx: int, end: int, q: Interval3)
    requires
        wf_subtree(arena, idx, end),
    ensures
        1 <= query_count(arena, idx, end, q) <= 2 * (end - idx) - 1,
    decreases end - idx,
{
    if arena[idx].object_id < 0 && q.spec_overlaps(arena[idx].aabb) {
        let r = arena[idx].right as int;
        lemma_query_count_bound(arena, r, end, q);
        lemma_query_count_bound(arena, idx + 1, r, q);
    }
}

/// The hits reported by the pending stack entries, topmost first.
pub open spec fn stack_hits(
    arena: Seq<FlatNode>,
    gstack: Seq<(int, int)>,
    q: Interval3,
    exclude: int,
    boxes: Seq<Aabb>,
) -> Seq<usize>
    decreases gstack.len(),
{
    if gstack.len() == 0 {
        Seq::empty()
    } else {
        query_hits(arena, gstack.last().0, gstack.last().1, q, exclude, boxes) + stack_hits(
            arena,
            gstack.drop_last(),
            q,
            exclude,
            boxes,
        )
    }
}

/// The pops still owed to the pending stack entries.
pub open spec fn stack_count(arena: Seq<FlatNode>, gstack: Seq<(int, int)>, q: Interval3) -> int
    decreases gstack.len(),
{
    if gstack.len() == 0 {
        0
    } else {
        query_count(arena, gstack.last().0, gstack.last().1, q) + stack_count(
            arena,
            gstack.drop_last(),
            q,
        )
    }
}

/// Every entry of a query-visit stack owes at least one pop.
pub open spec fn stack_wf(arena: Seq<FlatNode>, gstack: Seq<(int, int)>) -> bool {
    forall|k: int|
        0 <= k < gstack.len() ==> wf_subtree(
            arena,
            (#[trigger] gstack[k]).0,
            gstack[k].1,
        )
}

/// The total remaining work of the pending stack entries.
pub open spec fn stack_measure(gstack: Seq<(int, int)>) -> int
    decreases gstack.len(),
{
    if gstack.len() == 0 {
        0
    } else {
        (2 * (gstack.last().1 - gstack.last().0) + 1) + stack_measure(gstack.drop_last())
    }
}

/// The remaining work of a well-formed stack is nonnegative.
pub proof fn lemma_stack_measure_nonneg(arena: Seq<FlatNode>, gstack: Seq<(int, int)>)
    requires
        stack_wf(arena, gstack),
    ensures
        stack_measure(gstack) >= 3 * gstack.len(),
    decreases gstack.len(),
{
    if gstack.len() > 0 {
        assert(wf_subtree(arena, gstack.last().0, gstack.last().1));
        assert(stack_wf(arena, gstack.drop_last()));
        lemma_stack_measure_nonneg(arena, gstack.drop_last());
    }
}

/// The remaining stack pops are nonnegative in total.
pub proof fn lemma_stack_count_nonneg(arena: Seq<FlatNode>, gstack: Seq<(int, int)>, q: Interval3)
    requires
        stack_wf(arena, gstack),
    ensures
        stack_count(arena, gstack, q) >= gstack.len(),
    decreases gstack.len(),
{
    if gstack.len() > 0 {
        lemma_query_count_bound(arena, gstack.last().0, gstack.last().1, q);
        assert(stack_wf(arena, gstack.drop_last()));
        lemma_stack_count_nonneg(arena, gstack.drop_last(), q);
    }
}

impl BVH {
    /// Overlap test of two caller boxes, on all three axes, closed bounds.
    pub fn aabb_intersect(&self, aabb1: &Aabb, aabb2: &Aabb) -> (r: bool)
        requires
            aabb1.wf(),
            aabb2.wf(),
        ensures
            r == aabb1.spec_corners().spec_overlaps(aabb2.spec_corners()),
    {
        let c1 = aabb1.corners();
        let c2 = aabb2.corners();
        c1.overlaps(&c2)
    }

    /// The tight union of two boxes, back in center/half-extent form. The
    /// center rounds down to the low corner's side, and the half-extent
    /// rounds up, so the result always covers the union and its low corner
    /// is exact; the high corner widens by one unit where the union's
    /// extent is odd.
    pub fn merge_aabb(&self, aabb1: &Aabb, aabb2: &Aabb) -> (r: Aabb)
        requires
            aabb1.wf(),
            aabb2.wf(),
        ensures
            ({
                let u = aabb1.spec_corners().spec_union(aabb2.spec_corners());
                &&& r.hx == (u.hix - u.lox + 1) / 2 && r.cx == u.lox + r.hx
                &&& r.hy == (u.hiy - u.loy + 1) / 2 && r.cy == u.loy + r.hy
                &&& r.hz == (u.hiz - u.loz + 1) / 2 && r.cz == u.loz + r.hz
                &&& r.spec_corners().spec_contains(u)
            }),
    {
        let c1 = aabb1.corners();
        let c2 = aabb2.corners();
        let u = c1.union(&c2);
        let hx = (u.hix - u.lox + 1) / 2;
        let hy = (u.hiy - u.loy + 1) / 2;
        let hz = (u.hiz - u.loz + 1) / 2;
        Aabb { cx: u.lox + hx, cy: u.loy + hy, cz: u.loz + hz, hx, hy, hz }
    }

    /// All indexed objects whose stored leaf box overlaps the query box and
    /// whose caller box passes the exact re-test, excluding the querying
    /// object itself; and the number of nodes the traversal visited. An
    /// out-of-range query ordinal is a caller error, ruled out up front.
    pub fn find_collisions(
        &self,
        object_id: usize,
        query_bbox: &Aabb,
        bounding_boxes: &Vec<Aabb>,
    ) -> (r: (Vec<usize>, i32))
        requires
            self.inv(),
            object_id < bounding_boxes@.len(),
            query_bbox.wf(),
            boxes_wf(bounding_boxes@),
        ensures
            self.arena@.len() == 0 ==> r.0@ == Seq::<usize>::empty() && r.1 == 0,
            self.arena@.len() > 0 ==> r.0@ == query_hits(
                self.arena@,
                0,
                self.arena@.len() as int,
                query_bbox.spec_corners(),
                object_id as int,
                bounding_boxes@,
            ) && r.1 as int == query_count(
                self.arena@,
                0,
                self.arena@.len() as int,
                query_bbox.spec_corners(),
            ),
            forall|k: int| 0 <= k < r.0@.len() ==> (#[trigger] r.0@[k]) != object_id,
    {
        let mut collisions: Vec<usize> = Vec::new();
        let mut check_count: i32 = 0;
        if self.arena_root < 0 || self.arena.is_empty() {
            proof {
                lemma_query_hits_excludes(
                    self.arena@,
                    0,
                    self.arena@.len() as int,
                    query_bbox.spec_corners(),
                    object_id as int,
                    bounding_boxes@,
                );
            }
            return (collisions, check_count);
        }
        let ghost arena = self.arena@;
        let ghost len = self.arena@.len() as int;
        let ghost q = query_bbox.spec_corners();
        let ghost excl = object_id as int;
        let ghost bxs = bounding_boxes@;
        let query_corners = query_bbox.corners();
        let mut stack: Vec<i32> = Vec::new();
        stack.push(0);
        let ghost gstack = seq![(0int, len)];
        proof {
            lemma_query_count_bound(arena, 0, len, q);
            assert(gstack.drop_last() =~= Seq::<(int, int)>::empty());
            assert(stack_hits(arena, Seq::<(int, int)>::empty(), q, excl, bxs)
                =~= Seq::<usize>::empty());
            assert(stack_count(arena, Seq::<(int, int)>::empty(), q) == 0);
            assert(collisions@ + stack_hits(arena, gstack, q, excl, bxs) =~= query_hits(
                arena,
                0,
                len,
                q,
                excl,
                bxs,
            ));
            assert(stack_count(arena, gstack, q) == query_count(arena, 0, len, q));
        }
        loop
            invariant
                self.inv(),
                arena == self.arena@,
                len == arena.len() as int,
                1 <= len <= 0x4000_0000,
                q == query_bbox.spec_corners(),
                excl == object_id as int,
                bxs == bounding_boxes@,
                boxes_wf(bxs),
                query_corners == q,
                stack@.len() == gstack.len(),
                forall|k: int| 0 <= k < gstack.len() ==> (#[trigger] gstack[k]).0 == stack@[k] as int,
                stack_wf(arena, gstack),
                collisions@ + stack_hits(arena, gstack, q, excl, bxs) == query_hits(
                    arena,
                    0,
                    len,
                    q,
                    excl,
                    bxs,
                ),
                check_count as int + stack_count(arena, gstack, q) == query_count(arena, 0, len, q),
                0 <= check_count as int <= query_count(arena, 0, len, q),
            decreases stack_measure(gstack),
        {
            let popped = stack.pop();
            let node_idx = match popped {
                Some(v) => v,
                None => {
                    proof {
                        assert(gstack.len() == 0);
                        assert(collisions@ + Seq::<usize>::empty() =~= collisions@);
                        lemma_query_hits_excludes(arena, 0, len, q, excl, bxs);
                    }
                    return (collisions, check_count);
                },
            };
            let ghost entry = gstack.last();
            let ghost grest = gstack.drop_last();
            proof {
                assert(wf_subtree(arena, entry.0, entry.1));
                assert(stack_wf(arena, grest));
                lemma_query_count_bound(arena, entry.0, entry.1, q);
                lemma_stack_count_nonneg(arena, grest, q);
                lemma_stack_measure_nonneg(arena, grest);
                lemma_query_count_bound(arena, 0, len, q);
            }
            check_count = check_count + 1;
            let ni = node_idx as usize;
            let node = self.arena[ni];
            if !query_corners.overlaps(&node.aabb) {
                proof {
                    gstack = grest;
                    assert(collisions@ + stack_hits(arena, gstack, q, excl, bxs) =~= query_hits(
                        arena,
                        0,
                        len,
                        q,
                        excl,
                        bxs,
                    ));
                }
                continue;
            }
            if node.object_id >= 0 {
                let node_object_id = node.object_id as usize;
                if node_object_id != object_id && node_object_id < bounding_boxes.len() {
                    let candidate = &bounding_boxes[node_object_id];
                    let cand_corners = candidate.corners();
                    if query_corners.overlaps(&cand_corners) {
                        collisions.push(node_object_id);
                        proof {
                            gstack = grest;
                            assert(query_hits(arena, entry.0, entry.1, q, excl, bxs) =~= seq![
                                node_object_id,
                            ]);
                            assert(collisions@ + stack_hits(arena, gstack, q, excl, bxs)
                                =~= query_hits(arena, 0, len, q, excl, bxs));
                        }
                        continue;
                    }
                }
                proof {
                    gstack = grest;
                    assert(query_hits(arena, entry.0, entry.1, q, excl, bxs)
                        =~= Seq::<usize>::empty());
                    assert(collisions@ + stack_hits(arena, gstack, q, excl, bxs) =~= query_hits(
                        arena,
                        0,
                        len,
                        q,
                        excl,
                        bxs,
                    ));
                }
                continue;
            }
            // Internal node: push the left child, then the right, so the
            // right subtree is visited first.
            stack.push(node.left);
            stack.push(node.right);
            proof {
                let r = arena[entry.0].right as int;
                gstack = grest + seq![(entry.0 + 1, r), (r, entry.1)];
                assert(gstack.last() == (r, entry.1));
                assert(gstack.drop_last() =~= grest.push((entry.0 + 1, r)));
                assert((grest.push((entry.0 + 1, r))).drop_last() =~= grest);
                assert((grest.push((entry.0 + 1, r))).last() == (entry.0 + 1, r));
                lemma_stack_measure_nonneg(arena, grest);
                assert(stack_hits(arena, grest.push((entry.0 + 1, r)), q, excl, bxs)
                    =~= query_hits(arena, entry.0 + 1, r, q, excl, bxs) + stack_hits(
                    arena,
                    grest,
                    q,
                    excl,
                    bxs,
                ));
                assert(stack_count(arena, grest.push((entry.0 + 1, r)), q) == query_count(
                    arena,
                    entry.0 + 1,
                    r,
                    q,
                ) + stack_count(arena, grest, q));
                assert(stack_measure(grest.push((entry.0 + 1, r))) == 2 * (r - (entry.0 + 1)) + 1
                    + stack_measure(grest));
                assert(stack_count(arena, gstack, q) == query_count(arena, r, entry.1, q)
                    + stack_count(arena, grest.push((entry.0 + 1, r)), q));
                assert(stack_measure(gstack) == 2 * (entry.1 - r) + 1 + stack_measure(
                    grest.push((entry.0 + 1, r)),
                ));
                assert(stack_hits(arena, gstack, q, excl, bxs) =~= query_hits(
                    arena,
                    r,
                    entry.1,
                    q,
                    excl,
                    bxs,
                ) + query_hits(arena, entry.0 + 1, r, q, excl, bxs) + stack_hits(
                    arena,
                    grest,
                    q,
                    excl,
                    bxs,
                ));
                assert(collisions@ + stack_hits(arena, gstack, q, excl, bxs) =~= query_hits(
                    arena,
                    0,
                    len,
                    q,
                    excl,
                    bxs,
                ));
            }
        }
    }
}

/// A query never reports the excluded ordinal.
pub proof fn lemma_query_hits_excludes(
    arena: Seq<FlatNode>,
    idx: int,
    end: int,
    q: Interval3,
    exclude: int,
    boxes: Seq<Aabb>,
)
    ensures
        forall|k: int|
            0 <= k < query_hits(arena, idx, end, q, exclude, boxes).len() ==> (
            #[trigger] query_hits(arena, idx, end, q, exclude, boxes)[k]) as int != exclude,
    decreases end - idx,
{
    if wf_subtree(arena, idx, end) && q.spec_overlaps(arena[idx].aabb) && arena[idx].object_id
        < 0 {
        let r = arena[idx].right as int;
        lemma_query_hits_excludes(arena, r, end, q, exclude, boxes);
        lemma_query_hits_excludes(arena, idx + 1, r, q, exclude, boxes);
        let hr = query_hits(arena, r, end, q, exclude, boxes);
        let hl = query_hits(arena, idx + 1, r, q, exclude, boxes);
        assert forall|k: int|
            0 <= k < query_hits(arena, idx, end, q, exclude, boxes).len() implies (
        #[trigger] query_hits(arena, idx, end, q, exclude, boxes)[k]) as int != exclude by {
            if k < hr.len() {
                assert(query_hits(arena, idx, end, q, exclude, boxes)[k] == hr[k]);
            } else {
                assert(query_hits(arena, idx, end, q, exclude, boxes)[k] == hl[k - hr.len()]);
            }
        }
    }
}

/// The collision pairs a pruned pairwise visit reports from the subtree
/// pair `([a, ea), [b, eb))`: nothing when the roots' boxes are apart; a
/// normalized ordinal pair on two distinct in-range leaves; otherwise the
/// children pairs, in the traversal stack's pop order. A subtree paired
/// with itself expands only the distinct unordered child combinations, so
/// no unordered pair is ever visited twice.
pub open spec fn pair_hits(
    arena: Seq<FlatNode>,
    a: int,
    ea: int,
    b: int,
    eb: int,
    boxes: Seq<Aabb>,
) -> Seq<(usize, usize)>
    decreases (ea - a) + (eb - b),
{
    if !wf_subtree(arena, a, ea) || !wf_subtree(arena, b, eb) {
        Seq::empty()
    } else if !arena[a].aabb.spec_overlaps(arena[b].aabb) {
        Seq::empty()
    } else if arena[a].object_id >= 0 && arena[b].object_id >= 0 {
        let i = arena[a].object_id as int;
        let j = arena[b].object_id as int;
        if i != j && i < boxes.len() && j < boxes.len() {
            if i < j {
                seq![(arena[a].object_id as usize, arena[b].object_id as usize)]
            } else {
                seq![(arena[b].object_id as usize, arena[a].object_id as usize)]
            }
        } else {
            Seq::empty()
        }
    } else if a == b && ea == eb {
        let rc = arena[a].right as int;
        pair_hits(arena, rc, ea, rc, ea, boxes) + pair_hits(arena, a + 1, rc, rc, ea, boxes)
            + pair_hits(arena, a + 1, rc, a + 1, rc, boxes)
    } else if arena[a].object_id < 0 && arena[b].object_id < 0 {
        let ra = arena[a].right as int;
        let rb = arena[b].right as int;
        pair_hits(arena, ra, ea, rb, eb, boxes) + pair_hits(arena, ra, ea, b + 1, rb, boxes)
            + pair_hits(arena, a + 1, ra, rb, eb, boxes) + pair_hits(
            arena,
            a + 1,
            ra,
            b + 1,
            rb,
            boxes,
        )
    } else if arena[a].object_id >= 0 {
        let rb = arena[b].right as int;
        pair_hits(arena, a, ea, rb, eb, boxes) + pair_hits(arena, a, ea, b + 1, rb, boxes)
    } else {
        let ra = arena[a].right as int;
        pair_hits(arena, ra, ea, b, eb, boxes) + pair_hits(arena, a + 1, ra, b, eb, boxes)
    }
}

/// How many node pairs with overlapping boxes the pairwise visit counts.
pub open spec fn pair_count(
    arena: Seq<FlatNode>,
    a: int,
    ea: int,
    b: int,
    eb: int,
) -> int
    decreases (ea - a) + (eb - b),
{
    if !wf_subtree(arena, a, ea) || !wf_subtree(arena, b, eb) {
        0
    } else if !arena[a].aabb.spec_overlaps(arena[b].aabb) {
        0
    } else if arena[a].object_id >= 0 && arena[b].object_id >= 0 {
        1
    } else if a == b && ea == eb {
        let rc = arena[a].right as int;
        1 + pair_count(arena, rc, ea, rc, ea) + pair_count(arena, a + 1, rc, rc, ea) + pair_count(
            arena,
            a + 1,
            rc,
            a + 1,
            rc,
        )
    } else if arena[a].object_id < 0 && arena[b].object_id < 0 {
        let ra = arena[a].right as int;
        let rb = arena[b].right as int;
        1 + pair_count(arena, ra, ea, rb, eb) + pair_count(arena, ra, ea, b + 1, rb) + pair_count(
            arena,
            a + 1,
            ra,
            rb,
            eb,
        ) + pair_count(arena, a + 1, ra, b + 1, rb)
    } else if arena[a].object_id >= 0 {
        let rb = arena[b].right as int;
        1 + pair_count(arena, a, ea, rb, eb) + pair_count(arena, a, ea, b + 1, rb)
    } else {
        let ra = arena[a].right as int;
        1 + pair_count(arena, ra, ea, b, eb) + pair_count(arena, a + 1, ra, b, eb)
    }
}

/// The pairwise visit pops at most one pair per pair of arena slots.
pub proof fn lemma_pair_count_bound(arena: Seq<FlatNode>, a: int, ea: int, b: int, eb: int)
    requires
        wf_subtree(arena, a, ea),
        wf_subtree(arena, b, eb),
    ensures
        0 <= pair_count(arena, a, ea, b, eb) <= (ea - a) * (eb - b),
        arena[a].aabb.spec_overlaps(arena[b].aabb) ==> pair_count(arena, a, ea, b, eb) >= 1,
    decreases (ea - a) + (eb - b),
{
    if !arena[a].aabb.spec_overlaps(arena[b].aabb) {
        assert((ea - a) * (eb - b) >= 1) by (nonlinear_arith)
            requires
                ea - a >= 1,
                eb - b >= 1,
        ;
    } else if arena[a].object_id >= 0 && arena[b].object_id >= 0 {
        assert((ea - a) * (eb - b) >= 1) by (nonlinear_arith)
            requires
                ea - a >= 1,
                eb - b >= 1,
        ;
    } else if a == b && ea == eb {
        let rc = arena[a].right as int;
        lemma_pair_count_bound(arena, rc, ea, rc, ea);
        lemma_pair_count_bound(arena, a + 1, rc, rc, ea);
        lemma_pair_count_bound(arena, a + 1, rc, a + 1, rc);
        let lw = rc - a - 1;
        let rw = ea - rc;
        assert(1 + rw * rw + lw * rw + lw * lw <= (ea - a) * (ea - a)) by (nonlinear_arith)
            requires
                lw >= 1,
                rw >= 1,
                ea - a == lw + rw + 1,
        ;
    } else if arena[a].object_id < 0 && arena[b].object_id < 0 {
        let ra = arena[a].right as int;
        let rb = arena[b].right as int;
        lemma_pair_count_bound(arena, ra, ea, rb, eb);
        lemma_pair_count_bound(arena, ra, ea, b + 1, rb);
        lemma_pair_count_bound(arena, a + 1, ra, rb, eb);
        lemma_pair_count_bound(arena, a + 1, ra, b + 1, rb);
        let la = ra - a - 1;
        let wa = ea - ra;
        let lb = rb - b - 1;
        let wb = eb - rb;
        assert(1 + wa * wb + wa * lb + la * wb + la * lb <= (ea - a) * (eb - b))
            by (nonlinear_arith)
            requires
                la >= 1,
                wa >= 1,
                lb >= 1,
                wb >= 1,
                ea - a == la + wa + 1,
                eb - b == lb + wb + 1,
        ;
    } else if arena[a].object_id >= 0 {
        let rb = arena[b].right as int;
        lemma_pair_count_bound(arena, a, ea, rb, eb);
        lemma_pair_count_bound(arena, a, ea, b + 1, rb);
        let lb = rb - b - 1;
        let wb = eb - rb;
        assert(1 + (ea - a) * wb + (ea - a) * lb <= (ea - a) * (eb - b)) by (nonlinear_arith)
            requires
                lb >= 1,
                wb >= 1,
                ea - a == 1,
                eb - b == lb + wb + 1,
        ;
    } else {
        let ra = arena[a].right as int;
        lemma_pair_count_bound(arena, ra, ea, b, eb);
        lemma_pair_count_bound(arena, a + 1, ra, b, eb);
        let la = ra - a - 1;
        let wa = ea - ra;
        assert(1 + wa * (eb - b) + la * (eb - b) <= (ea - a) * (eb - b)) by (nonlinear_arith)
            requires
                la >= 1,
                wa >= 1,
                eb - b == 1,
                ea - a == la + wa + 1,
        ;
    }
}

/// One pending entry of the pairwise traversal stack: two subtree ranges.
pub open spec fn pentry_wf(arena: Seq<FlatNode>, e: (int, int, int, int)) -> bool {
    &&& wf_subtree(arena, e.0, e.1)
    &&& wf_subtree(arena, e.2, e.3)
    &&& (e.0 == e.2 && e.1 == e.3) || e.1 <= e.2 || e.3 <= e.0
}

/// Every pending entry of the pairwise stack is two well-formed subtrees,
/// identical or disjoint.
pub open spec fn pstack_wf(arena: Seq<FlatNode>, g: Seq<(int, int, int, int)>) -> bool {
    forall|k: int| 0 <= k < g.len() ==> pentry_wf(arena, #[trigger] g[k])
}

/// The pairs the pending stack entries still owe, topmost first.
pub open spec fn pstack_hits(
    arena: Seq<FlatNode>,
    g: Seq<(int, int, int, int)>,
    boxes: Seq<Aabb>,
) -> Seq<(usize, usize)>
    decreases g.len(),
{
    if g.len() == 0 {
        Seq::empty()
    } else {
        pair_hits(arena, g.last().0, g.last().1, g.last().2, g.last().3, boxes) + pstack_hits(
            arena,
            g.drop_last(),
            boxes,
        )
    }
}

/// The counted pops the pending stack entries still owe.
pub open spec fn pstack_count(arena: Seq<FlatNode>, g: Seq<(int, int, int, int)>) -> int
    decreases g.len(),
{
    if g.len() == 0 {
        0
    } else {
        pair_count(arena, g.last().0, g.last().1, g.last().2, g.last().3) + pstack_count(
            arena,
            g.drop_last(),
        )
    }
}

/// The remaining work of the pairwise stack: the product of the two ranges'
/// widths, summed over the entries.
pub open spec fn pstack_measure(g: Seq<(int, int, int, int)>) -> int
    decreases g.len(),
{
    if g.len() == 0 {
        0
    } else {
        (g.last().1 - g.last().0) * (g.last().3 - g.last().2) + pstack_measure(g.drop_last())
    }
}

/// The remaining work and counts of a well-formed pairwise stack are
/// nonnegative.
pub proof fn lemma_pstack_nonneg(arena: Seq<FlatNode>, g: Seq<(int, int, int, int)>)
    requires
        pstack_wf(arena, g),
    ensures
        pstack_measure(g) >= g.len(),
        pstack_count(arena, g) >= 0,
    decreases g.len(),
{
    if g.len() > 0 {
        assert(pentry_wf(arena, g.last()));
        assert(pstack_wf(arena, g.drop_last()));
        lemma_pstack_nonneg(arena, g.drop_last());
        lemma_pair_count_bound(arena, g.last().0, g.last().1, g.last().2, g.last().3);
        assert((g.last().1 - g.last().0) * (g.last().3 - g.last().2) >= 1) by (nonlinear_arith)
            requires
                g.last().1 - g.last().0 >= 1,
                g.last().3 - g.last().2 >= 1,
        ;
    }
}

/// Whether an ordinal occurs in one of the reported pairs.
pub open spec fn touched(pairs: Seq<(usize, usize)>, j: int) -> bool {
    exists|k: int|
        0 <= k < pairs.len() && ((#[trigger] pairs[k]).0 as int == j || pairs[k].1 as int == j)
}

impl BVH {
    /// Every unordered pair of distinct indexed objects whose boxes
    /// overlap, each reported exactly once with the smaller ordinal first;
    /// the sorted, de-duplicated ordinals that participate in at least one
    /// pair; and how many node pairs with overlapping boxes the traversal
    /// examined.
    #[verifier::rlimit(100)]
    pub fn check_all_collisions(&self, bounding_boxes: &Vec<Aabb>) -> (r: (
        Vec<(usize, usize)>,
        Vec<usize>,
        i32,
    ))
        requires
            self.inv(),
            boxes_wf(bounding_boxes@),
            self.arena@.len() <= 0x8000,
        ensures
            self.arena@.len() == 0 ==> r.0@ == Seq::<(usize, usize)>::empty() && r.1@
                == Seq::<usize>::empty() && r.2 == 0,
            self.arena@.len() > 0 ==> r.0@ == pair_hits(
                self.arena@,
                0,
                self.arena@.len() as int,
                0,
                self.arena@.len() as int,
                bounding_boxes@,
            ) && r.2 as int == pair_count(
                self.arena@,
                0,
                self.arena@.len() as int,
                0,
                self.arena@.len() as int,
            ),
            forall|i: int, j: int| 0 <= i < j < r.1@.len() ==> r.1@[i] < r.1@[j],
            forall|x: usize|
                r.1@.contains(x) <==> (x as int) < bounding_boxes@.len() && touched(
                    r.0@,
                    x as int,
                ),
    {
        let mut all_collisions: Vec<(usize, usize)> = Vec::new();
        let mut total_checks: i32 = 0;
        let nboxes = bounding_boxes.len();
        let mut visited: Vec<bool> = Vec::new();
        let mut vi: usize = 0;
        while vi < nboxes
            invariant
                vi <= nboxes,
                visited@.len() == vi,
                forall|j: int| 0 <= j < vi ==> !(#[trigger] visited@[j]),
            decreases nboxes - vi,
        {
            visited.push(false);
            vi = vi + 1;
        }
        if self.arena_root < 0 || self.arena.is_empty() {
            let colliding: Vec<usize> = Vec::new();
            return (all_collisions, colliding, total_checks);
        }
        let ghost arena = self.arena@;
        let ghost len = arena.len() as int;
        let ghost bxs = bounding_boxes@;
        let mut stack: Vec<(i32, i32)> = Vec::new();
        stack.push((0, 0));
        let ghost gstack = seq![(0int, len, 0int, len)];
        proof {
            lemma_pair_count_bound(arena, 0, len, 0, len);
            assert(gstack.drop_last() =~= Seq::<(int, int, int, int)>::empty());
            assert(pstack_hits(arena, Seq::<(int, int, int, int)>::empty(), bxs)
                =~= Seq::<(usize, usize)>::empty());
            assert(pstack_count(arena, Seq::<(int, int, int, int)>::empty()) == 0);
            assert(all_collisions@ + pstack_hits(arena, gstack, bxs) =~= pair_hits(
                arena,
                0,
                len,
                0,
                len,
                bxs,
            ));
            assert(pstack_count(arena, gstack) == pair_count(arena, 0, len, 0, len));
        }
        loop
            invariant
                self.inv(),
                arena == self.arena@,
                len == arena.len() as int,
                1 <= len <= 0x8000,
                bxs == bounding_boxes@,
                boxes_wf(bxs),
                nboxes == bxs.len(),
                stack@.len() == gstack.len(),
                forall|k: int|
                    0 <= k < gstack.len() ==> (#[trigger] gstack[k]).0 == stack@[k].0 as int
                        && gstack[k].2 == stack@[k].1 as int,
                pstack_wf(arena, gstack),
                all_collisions@ + pstack_hits(arena, gstack, bxs) == pair_hits(
                    arena,
                    0,
                    len,
                    0,
                    len,
                    bxs,
                ),
                total_checks as int + pstack_count(arena, gstack) == pair_count(
                    arena,
                    0,
                    len,
                    0,
                    len,
                ),
                0 <= total_checks as int <= pair_count(arena, 0, len, 0, len),
                visited@.len() == nboxes,
                forall|j: int| 0 <= j < nboxes ==> #[trigger] visited@[j] == touched(
                    all_collisions@,
                    j,
                ),
                forall|k: int|
                    0 <= k < all_collisions@.len() ==> (#[trigger] all_collisions@[k]).0
                        < all_collisions@[k].1 && (all_collisions@[k].1 as int) < nboxes,
            ensures
                all_collisions@ == pair_hits(arena, 0, len, 0, len, bxs),
                total_checks as int == pair_count(arena, 0, len, 0, len),
                0 <= total_checks,
                visited@.len() == nboxes,
                forall|jj: int| 0 <= jj < nboxes ==> #[trigger] visited@[jj] == touched(
                    all_collisions@,
                    jj,
                ),
                forall|k: int|
                    0 <= k < all_collisions@.len() ==> (#[trigger] all_collisions@[k]).0
                        < all_collisions@[k].1 && (all_collisions@[k].1 as int) < nboxes,
            decreases pstack_measure(gstack),
        {
            let popped = stack.pop();
            let (a_idx, b_idx) = match popped {
                Some(v) => v,
                None => {
                    proof {
                        assert(gstack.len() == 0);
                        assert(pstack_hits(arena, gstack, bxs) =~= Seq::<(usize, usize)>::empty());
                        assert(pstack_count(arena, gstack) == 0);
                        assert(all_collisions@ + Seq::<(usize, usize)>::empty()
                            =~= all_collisions@);
                    }
                    break;
                },
            };
            let ghost entry = gstack.last();
            let ghost grest = gstack.drop_last();
            proof {
                assert(pentry_wf(arena, entry));
                assert(pstack_wf(arena, grest));
                lemma_pair_count_bound(arena, entry.0, entry.1, entry.2, entry.3);
                lemma_pstack_nonneg(arena, grest);
                lemma_pair_count_bound(arena, 0, len, 0, len);
                assert(pstack_measure(gstack) == (entry.1 - entry.0) * (entry.3 - entry.2)
                    + pstack_measure(grest));
                assert(pstack_count(arena, gstack) == pair_count(
                    arena,
                    entry.0,
                    entry.1,
                    entry.2,
                    entry.3,
                ) + pstack_count(arena, grest));
                assert((entry.1 - entry.0) * (entry.3 - entry.2) >= 1) by (nonlinear_arith)
                    requires
                        entry.1 - entry.0 >= 1,
                        entry.3 - entry.2 >= 1,
                ;
                assert(pair_count(arena, 0, len, 0, len) <= len * len);
                assert(len * len <= 0x4000_0000) by (nonlinear_arith)
                    requires
                        1 <= len <= 0x8000,
                ;
            }
            let na = self.arena[a_idx as usize];
            let nb = self.arena[b_idx as usize];
            if !na.aabb.overlaps(&nb.aabb) {
                proof {
                    gstack = grest;
                    assert(all_collisions@ + pstack_hits(arena, gstack, bxs) =~= pair_hits(
                        arena,
                        0,
                        len,
                        0,
                        len,
                        bxs,
                    ));
                }
                continue;
            }
            total_checks = total_checks + 1;
            let a_leaf = na.object_id >= 0;
            let b_leaf = nb.object_id >= 0;
            if a_leaf && b_leaf {
                let i = na.object_id as usize;
                let j = nb.object_id as usize;
                if i != j && i < nboxes && j < nboxes {
                    let pair = if i < j {
                        (i, j)
                    } else {
                        (j, i)
                    };
                    let ghost before = all_collisions@;
                    all_collisions.push(pair);
                    visited.set(pair.0, true);
                    visited.set(pair.1, true);
                    proof {
                        gstack = grest;
                        assert(pair_hits(arena, entry.0, entry.1, entry.2, entry.3, bxs)
                            =~= seq![pair]);
                        assert(all_collisions@ + pstack_hits(arena, gstack, bxs) =~= pair_hits(
                            arena,
                            0,
                            len,
                            0,
                            len,
                            bxs,
                        ));
                        assert forall|jj: int| 0 <= jj < nboxes implies #[trigger] visited@[jj]
                            == touched(all_collisions@, jj) by {
                            assert(all_collisions@.last() == pair);
                            if jj == pair.0 as int || jj == pair.1 as int {
                                assert(all_collisions@[all_collisions@.len() - 1].0 as int == jj
                                    || all_collisions@[all_collisions@.len() - 1].1 as int == jj);
                                assert(touched(all_collisions@, jj));
                            } else {
                                if touched(all_collisions@, jj) {
                                    let k = choose|k: int|
                                        0 <= k < all_collisions@.len() && ((
                                        #[trigger] all_collisions@[k]).0 as int == jj
                                            || all_collisions@[k].1 as int == jj);
                                    assert(k < before.len());
                                    assert(before[k] == all_collisions@[k]);
                                    assert(touched(before, jj));
                                }
                                if touched(before, jj) {
                                    let k = choose|k: int|
                                        0 <= k < before.len() && ((#[trigger] before[k]).0 as int
                                            == jj || before[k].1 as int == jj);
                                    assert(all_collisions@[k] == before[k]);
                                    assert(touched(all_collisions@, jj));
                                }
                            }
                        }
                    }
                } else {
                    proof {
                        gstack = grest;
                        assert(pair_hits(arena, entry.0, entry.1, entry.2, entry.3, bxs)
                            =~= Seq::<(usize, usize)>::empty());
                        assert(all_collisions@ + pstack_hits(arena, gstack, bxs) =~= pair_hits(
                            arena,
                            0,
                            len,
                            0,
                            len,
                            bxs,
                        ));
                    }
                }
                continue;
            }
            if a_idx == b_idx {
                // One subtree against itself: only the distinct unordered
                // child combinations.
                stack.push((na.left, na.left));
                stack.push((na.left, na.right));
                stack.push((na.right, na.right));
                proof {
                    let rc = arena[entry.0].right as int;
                    let e1 = (entry.0 + 1, rc, entry.0 + 1, rc);
                    let e2 = (entry.0 + 1, rc, rc, entry.1);
                    let e3 = (rc, entry.1, rc, entry.1);
                    gstack = grest + seq![e1, e2, e3];
                    let g1 = grest.push(e1);
                    let g2 = g1.push(e2);
                    assert(gstack =~= g2.push(e3));
                    assert(g2.push(e3).drop_last() =~= g2);
                    assert(g2.drop_last() =~= g1);
                    assert(g1.drop_last() =~= grest);
                    lemma_pstack_nonneg(arena, grest);
                    assert(pstack_hits(arena, g1, bxs) == pair_hits(
                        arena,
                        e1.0,
                        e1.1,
                        e1.2,
                        e1.3,
                        bxs,
                    ) + pstack_hits(arena, grest, bxs));
                    assert(pstack_hits(arena, g2, bxs) == pair_hits(
                        arena,
                        e2.0,
                        e2.1,
                        e2.2,
                        e2.3,
                        bxs,
                    ) + pstack_hits(arena, g1, bxs));
                    assert(pstack_count(arena, g1) == pair_count(arena, e1.0, e1.1, e1.2, e1.3)
                        + pstack_count(arena, grest));
                    assert(pstack_count(arena, g2) == pair_count(arena, e2.0, e2.1, e2.2, e2.3)
                        + pstack_count(arena, g1));
                    assert(pstack_measure(g1) == (e1.1 - e1.0) * (e1.3 - e1.2) + pstack_measure(
                        grest,
                    ));
                    assert(pstack_measure(g2) == (e2.1 - e2.0) * (e2.3 - e2.2) + pstack_measure(
                        g1,
                    ));
                    assert(pstack_hits(arena, gstack, bxs) =~= pair_hits(
                        arena,
                        rc,
                        entry.1,
                        rc,
                        entry.1,
                        bxs,
                    ) + pair_hits(arena, entry.0 + 1, rc, rc, entry.1, bxs) + pair_hits(
                        arena,
                        entry.0 + 1,
                        rc,
                        entry.0 + 1,
                        rc,
                        bxs,
                    ) + pstack_hits(arena, grest, bxs));
                    assert(all_collisions@ + pstack_hits(arena, gstack, bxs) =~= pair_hits(
                        arena,
                        0,
                        len,
                        0,
                        len,
                        bxs,
                    ));
                    assert(pstack_count(arena, gstack) == pair_count(
                        arena,
                        rc,
                        entry.1,
                        rc,
                        entry.1,
                    ) + pair_count(arena, entry.0 + 1, rc, rc, entry.1) + pair_count(
                        arena,
                        entry.0 + 1,
                        rc,
                        entry.0 + 1,
                        rc,
                    ) + pstack_count(arena, grest));
                    assert(pstack_measure(gstack) == (rc - entry.0 - 1) * (rc - entry.0 - 1) + (rc
                        - entry.0 - 1) * (entry.1 - rc) + (entry.1 - rc) * (entry.1 - rc)
                        + pstack_measure(grest));
                    assert((rc - entry.0 - 1) * (rc - entry.0 - 1) + (rc - entry.0 - 1) * (entry.1
                        - rc) + (entry.1 - rc) * (entry.1 - rc) < (entry.1 - entry.0) * (entry.3
                        - entry.2)) by (nonlinear_arith)
                        requires
                            entry.0 + 1 < rc < entry.1,
                            entry.1 == entry.3,
                            entry.0 == entry.2,
                    ;
                }
                continue;
            }
            if !a_leaf && !b_leaf {
                stack.push((na.left, nb.left));
                stack.push((na.left, nb.right));
                stack.push((na.right, nb.left));
                stack.push((na.right, nb.right));
                proof {
                    let ra = arena[entry.0].right as int;
                    let rb = arena[entry.2].right as int;
                    let e1 = (entry.0 + 1, ra, entry.2 + 1, rb);
                    let e2 = (entry.0 + 1, ra, rb, entry.3);
                    let e3 = (ra, entry.1, entry.2 + 1, rb);
                    let e4 = (ra, entry.1, rb, entry.3);
                    gstack = grest + seq![e1, e2, e3, e4];
                    let g1 = grest.push(e1);
                    let g2 = g1.push(e2);
                    let g3 = g2.push(e3);
                    assert(gstack =~= g3.push(e4));
                    assert(g3.push(e4).drop_last() =~= g3);
                    assert(g3.drop_last() =~= g2);
                    assert(g2.drop_last() =~= g1);
                    assert(g1.drop_last() =~= grest);
                    lemma_pstack_nonneg(arena, grest);
                    assert(pstack_hits(arena, g1, bxs) == pair_hits(
                        arena,
                        e1.0,
                        e1.1,
                        e1.2,
                        e1.3,
                        bxs,
                    ) + pstack_hits(arena, grest, bxs));
                    assert(pstack_hits(arena, g2, bxs) == pair_hits(
                        arena,
                        e2.0,
                        e2.1,
                        e2.2,
                        e2.3,
                        bxs,
                    ) + pstack_hits(arena, g1, bxs));
                    assert(pstack_hits(arena, g3, bxs) == pair_hits(
                        arena,
                        e3.0,
                        e3.1,
                        e3.2,
                        e3.3,
                        bxs,
                    ) + pstack_hits(arena, g2, bxs));
                    assert(pstack_count(arena, g1) == pair_count(arena, e1.0, e1.1, e1.2, e1.3)
                        + pstack_count(arena, grest));
                    assert(pstack_count(arena, g2) == pair_count(arena, e2.0, e2.1, e2.2, e2.3)
                        + pstack_count(arena, g1));
                    assert(pstack_count(arena, g3) == pair_count(arena, e3.0, e3.1, e3.2, e3.3)
                        + pstack_count(arena, g2));
                    assert(pstack_measure(g1) == (e1.1 - e1.0) * (e1.3 - e1.2) + pstack_measure(
                        grest,
                    ));
                    assert(pstack_measure(g2) == (e2.1 - e2.0) * (e2.3 - e2.2) + pstack_measure(
                        g1,
                    ));
                    assert(pstack_measure(g3) == (e3.1 - e3.0) * (e3.3 - e3.2) + pstack_measure(
                        g2,
                    ));
                    assert(pstack_hits(arena, gstack, bxs) =~= pair_hits(
                        arena,
                        ra,
                        entry.1,
                        rb,
                        entry.3,
                        bxs,
                    ) + pair_hits(arena, ra, entry.1, entry.2 + 1, rb, bxs) + pair_hits(
                        arena,
                        entry.0 + 1,
                        ra,
                        rb,
                        entry.3,
                        bxs,
                    ) + pair_hits(arena, entry.0 + 1, ra, entry.2 + 1, rb, bxs) + pstack_hits(
                        arena,
                        grest,
                        bxs,
                    ));
                    assert(all_collisions@ + pstack_hits(arena, gstack, bxs) =~= pair_hits(
                        arena,
                        0,
                        len,
                        0,
                        len,
                        bxs,
                    ));
                    assert(pstack_count(arena, gstack) == pair_count(arena, ra, entry.1, rb, entry.3)
                        + pair_count(arena, ra, entry.1, entry.2 + 1, rb) + pair_count(
                        arena,
                        entry.0 + 1,
                        ra,
                        rb,
                        entry.3,
                    ) + pair_count(arena, entry.0 + 1, ra, entry.2 + 1, rb) + pstack_count(
                        arena,
                        grest,
                    ));
                    assert(pstack_measure(gstack) == (ra - entry.0 - 1) * (rb - entry.2 - 1) + (ra
                        - entry.0 - 1) * (entry.3 - rb) + (entry.1 - ra) * (rb - entry.2 - 1) + (
                    entry.1 - ra) * (entry.3 - rb) + pstack_measure(grest));
                    assert((ra - entry.0 - 1) * (rb - entry.2 - 1) + (ra - entry.0 - 1) * (entry.3
                        - rb) + (entry.1 - ra) * (rb - entry.2 - 1) + (entry.1 - ra) * (entry.3
                        - rb) < (entry.1 - entry.0) * (entry.3 - entry.2)) by (nonlinear_arith)
                        requires
                            entry.0 + 1 < ra < entry.1,
                            entry.2 + 1 < rb < entry.3,
                    ;
                }
                continue;
            }
            if a_leaf {
                stack.push((a_idx, nb.left));
                stack.push((a_idx, nb.right));
                proof {
                    let rb = arena[entry.2].right as int;
                    let e1 = (entry.0, entry.1, entry.2 + 1, rb);
                    let e2 = (entry.0, entry.1, rb, entry.3);
                    gstack = grest + seq![e1, e2];
                    let g1 = grest.push(e1);
                    assert(gstack =~= g1.push(e2));
                    assert(g1.push(e2).drop_last() =~= g1);
                    assert(g1.drop_last() =~= grest);
                    lemma_pstack_nonneg(arena, grest);
                    assert(pstack_hits(arena, g1, bxs) == pair_hits(
                        arena,
                        e1.0,
                        e1.1,
                        e1.2,
                        e1.3,
                        bxs,
                    ) + pstack_hits(arena, grest, bxs));
                    assert(pstack_count(arena, g1) == pair_count(arena, e1.0, e1.1, e1.2, e1.3)
                        + pstack_count(arena, grest));
                    assert(pstack_measure(g1) == (e1.1 - e1.0) * (e1.3 - e1.2) + pstack_measure(
                        grest,
                    ));
                    assert(pstack_hits(arena, gstack, bxs) =~= pair_hits(
                        arena,
                        entry.0,
                        entry.1,
                        rb,
                        entry.3,
                        bxs,
                    ) + pair_hits(arena, entry.0, entry.1, entry.2 + 1, rb, bxs) + pstack_hits(
                        arena,
                        grest,
                        bxs,
                    ));
                    assert(all_collisions@ + pstack_hits(arena, gstack, bxs) =~= pair_hits(
                        arena,
                        0,
                        len,
                        0,
                        len,
                        bxs,
                    ));
                    assert(pstack_count(arena, gstack) == pair_count(
                        arena,
                        entry.0,
                        entry.1,
                        rb,
                        entry.3,
                    ) + pair_count(arena, entry.0, entry.1, entry.2 + 1, rb) + pstack_count(
                        arena,
                        grest,
                    ));
                    assert(pstack_measure(gstack) == (entry.1 - entry.0) * (rb - entry.2 - 1) + (
                    entry.1 - entry.0) * (entry.3 - rb) + pstack_measure(grest));
                    assert((entry.1 - entry.0) * (rb - entry.2 - 1) + (entry.1 - entry.0) * (
                    entry.3 - rb) < (entry.1 - entry.0) * (entry.3 - entry.2)) by (nonlinear_arith)
                        requires
                            entry.2 + 1 < rb < entry.3,
                            entry.1 - entry.0 == 1,
                    ;
                }
                continue;
            }
            stack.push((na.left, b_idx));
            stack.push((na.right, b_idx));
            proof {
                let ra = arena[entry.0].right as int;
                let e1 = (entry.0 + 1, ra, entry.2, entry.3);
                let e2 = (ra, entry.1, entry.2, entry.3);
                gstack = grest + seq![e1, e2];
                let g1 = grest.push(e1);
                assert(gstack =~= g1.push(e2));
                assert(g1.push(e2).drop_last() =~= g1);
                assert(g1.drop_last() =~= grest);
                lemma_pstack_nonneg(arena, grest);
                assert(pstack_hits(arena, g1, bxs) == pair_hits(
                    arena,
                    e1.0,
                    e1.1,
                    e1.2,
                    e1.3,
                    bxs,
                ) + pstack_hits(arena, grest, bxs));
                assert(pstack_count(arena, g1) == pair_count(arena, e1.0, e1.1, e1.2, e1.3)
                    + pstack_count(arena, grest));
                assert(pstack_measure(g1) == (e1.1 - e1.0) * (e1.3 - e1.2) + pstack_measure(
                    grest,
                ));
                assert(pstack_hits(arena, gstack, bxs) =~= pair_hits(
                    arena,
                    ra,
                    entry.1,
                    entry.2,
                    entry.3,
                    bxs,
                ) + pair_hits(arena, entry.0 + 1, ra, entry.2, entry.3, bxs) + pstack_hits(
                    arena,
                    grest,
                    bxs,
                ));
                assert(all_collisions@ + pstack_hits(arena, gstack, bxs) =~= pair_hits(
                    arena,
                    0,
                    len,
                    0,
                    len,
                    bxs,
                ));
                assert(pstack_count(arena, gstack) == pair_count(
                    arena,
                    ra,
                    entry.1,
                    entry.2,
                    entry.3,
                ) + pair_count(arena, entry.0 + 1, ra, entry.2, entry.3) + pstack_count(
                    arena,
                    grest,
                ));
                assert(pstack_measure(gstack) == (ra - entry.0 - 1) * (entry.3 - entry.2) + (
                entry.1 - ra) * (entry.3 - entry.2) + pstack_measure(grest));
                assert((ra - entry.0 - 1) * (entry.3 - entry.2) + (entry.1 - ra) * (entry.3
                    - entry.2) < (entry.1 - entry.0) * (entry.3 - entry.2)) by (nonlinear_arith)
                    requires
                        entry.0 + 1 < ra < entry.1,
                        entry.3 - entry.2 == 1,
                ;
            }
        }
        // Gather the ordinals that took part in a collision, ascending.
        let mut colliding_indices: Vec<usize> = Vec::new();
        let mut j: usize = 0;
        while j < nboxes
            invariant
                j <= nboxes,
                nboxes == bounding_boxes@.len(),
                arena == self.arena@,
                len == arena.len() as int,
                bxs == bounding_boxes@,
                all_collisions@ == pair_hits(arena, 0, len, 0, len, bxs),
                total_checks as int == pair_count(arena, 0, len, 0, len),
                visited@.len() == nboxes,
                forall|q: int| 0 <= q < nboxes ==> #[trigger] visited@[q] == touched(
                    all_collisions@,
                    q,
                ),
                forall|x: usize|
                    colliding_indices@.contains(x) <==> (x as int) < j && touched(
                        all_collisions@,
                        x as int,
                    ),
                forall|p: int, q: int|
                    0 <= p < q < colliding_indices@.len() ==> colliding_indices@[p]
                        < colliding_indices@[q],
                forall|p: int|
                    0 <= p < colliding_indices@.len() ==> (#[trigger] colliding_indices@[p]) < j,
            decreases nboxes - j,
        {
            let ghost before = colliding_indices@;
            if visited[j] {
                colliding_indices.push(j);
            }
            proof {
                assert forall|x: usize|
                    #[trigger] colliding_indices@.contains(x) == ((x as int) < j + 1 && touched(
                        all_collisions@,
                        x as int,
                    )) by {
                    if colliding_indices@.contains(x) {
                        let k = choose|k: int|
                            0 <= k < colliding_indices@.len() && colliding_indices@[k] == x;
                        if k < before.len() {
                            assert(before[k] == x);
                            assert(before.contains(x));
                        } else {
                            assert(x == j);
                            assert(visited@[j as int]);
                        }
                    }
                    if (x as int) < j + 1 && touched(all_collisions@, x as int) {
                        if x as int == j {
                            assert(visited@[j as int]);
                            assert(colliding_indices@.last() == j);
                            assert(colliding_indices@.contains(x));
                        } else {
                            assert(before.contains(x));
                            let k = choose|k: int| 0 <= k < before.len() && before[k] == x;
                            assert(colliding_indices@[k] == x);
                            assert(colliding_indices@.contains(x));
                        }
                    }
                }
            }
            j = j + 1;
        }
        (all_collisions, colliding_indices, total_checks)
    }
}

/// Some leaf of `[lo, hi)` carries the object id `o`.
pub open spec fn leaf_with(arena: Seq<FlatNode>, lo: int, hi: int, o: int) -> bool {
    exists|p: int|
        lo <= p < hi && (#[trigger] arena[p]).object_id >= 0 && arena[p].object_id as int == o
}

/// The leaves of the arena describe the boxes faithfully: ids address the
/// box array, every leaf box is its object's box, and no two leaves share
/// an id.
pub open spec fn leaves_describe(arena: Seq<FlatNode>, boxes: Seq<Aabb>) -> bool {
    &&& forall|q: int|
        0 <= q < arena.len() && (#[trigger] arena[q]).object_id >= 0 ==> 0 <= arena[q].object_id
            && (arena[q].object_id as int) < boxes.len() && arena[q].aabb == boxes[(arena[q].object_id) as int].spec_corners()
    &&& forall|p: int, q: int|
        0 <= p < q < arena.len() && (#[trigger] arena[p]).object_id >= 0 && (
        #[trigger] arena[q]).object_id >= 0 ==> arena[p].object_id != arena[q].object_id
}

/// A subtree's root box covers the box of every node under it.
pub proof fn lemma_subtree_boxes_contained(arena: Seq<FlatNode>, idx: int, end: int)
    requires
        wf_subtree(arena, idx, end),
    ensures
        forall|q: int| idx <= q < end ==> arena[idx].aabb.spec_contains((#[trigger] arena[q]).aabb),
    decreases end - idx,
{
    if arena[idx].object_id < 0 {
        let r = arena[idx].right as int;
        lemma_subtree_boxes_contained(arena, idx + 1, r);
        lemma_subtree_boxes_contained(arena, r, end);
        crate::aabb::lemma_union_contains(arena[idx + 1].aabb, arena[r].aabb);
    }
}

/// In a flattened range, every leaf carries a key's ordinal and that
/// object's box, every key of the range owns a leaf, and the only internal
/// nodes are the range roots.
#[verifier::rlimit(100)]
pub proof fn lemma_flatten_leaf_props(
    keys: Seq<MortonKey>,
    boxes: Seq<Aabb>,
    arena: Seq<FlatNode>,
    first: int,
    last: int,
    base: int,
)
    requires
        0 <= first <= last < keys.len(),
        keys.len() <= 0x4000_0000,
        boxes.len() <= 0x4000_0000,
        keys_valid(keys, boxes.len() as int),
        forall|i: int, j: int|
            0 <= i < j < keys.len() ==> (#[trigger] keys[i]).object_ordinal != (
            #[trigger] keys[j]).object_ordinal,
        0 <= base,
        base + 2 * (last - first) + 1 <= 0x4000_0000,
        base + 2 * (last - first) + 1 <= arena.len(),
        arena.subrange(base, base + 2 * (last - first) + 1) == flatten_spec(
            keys,
            boxes,
            first,
            last,
            base,
        ),
    ensures
        forall|q: int|
            base <= q < base + 2 * (last - first) + 1 && (#[trigger] arena[q]).object_id >= 0
                ==> 0 <= arena[q].object_id && (arena[q].object_id as int) < boxes.len()
                && arena[q].aabb == boxes[(arena[q].object_id) as int].spec_corners()
                && (exists|k: int|
                first <= k <= last && (#[trigger] keys[k]).object_ordinal as int == arena[q].object_id as int),
        forall|k: int|
            first <= k <= last ==> leaf_with(
                arena,
                base,
                base + 2 * (last - first) + 1,
                (#[trigger] keys[k]).object_ordinal as int,
            ),
        forall|p: int, q: int|
            base <= p < q < base + 2 * (last - first) + 1 && (#[trigger] arena[p]).object_id >= 0
                && (#[trigger] arena[q]).object_id >= 0 ==> arena[p].object_id
                != arena[q].object_id,
    decreases last - first,
{
    lemma_flatten_len(keys, boxes, first, last, base);
    let end = base + 2 * (last - first) + 1;
    let f = flatten_spec(keys, boxes, first, last, base);
    assert(forall|m: int| 0 <= m < f.len() ==> arena[base + m] == #[trigger] f[m]);
    if first == last {
        assert(arena[base] == f[0]);
        assert(arena[base].object_id as int == keys[first].object_ordinal as int);
        assert(leaf_with(arena, base, end, keys[first].object_ordinal as int));
    } else {
        let split = find_split_spec(keys, first, last);
        let l = flatten_spec(keys, boxes, first, split, base + 1);
        let r = flatten_spec(keys, boxes, split + 1, last, base + 1 + l.len());
        lemma_flatten_len(keys, boxes, first, split, base + 1);
        lemma_flatten_len(keys, boxes, split + 1, last, base + 1 + l.len());
        let rpos = base + 1 + l.len();
        assert forall|m: int| 0 <= m < l.len() implies arena[base + 1 + m] == #[trigger] l[m] by {
            assert(f[1 + m] == l[m]);
            assert(arena[base + (1 + m)] == f[1 + m]);
        }
        assert forall|m: int| 0 <= m < r.len() implies arena[rpos + m] == #[trigger] r[m] by {
            assert(f[1 + l.len() + m] == r[m]);
            assert(arena[base + (1 + l.len() + m)] == f[1 + l.len() + m]);
        }
        assert(arena.subrange(base + 1, rpos as int) =~= l);
        assert(arena.subrange(rpos as int, end) =~= r);
        lemma_flatten_leaf_props(keys, boxes, arena, first, split, base + 1);
        lemma_flatten_leaf_props(keys, boxes, arena, split + 1, last, rpos as int);
        assert(arena[base] == f[0]);
        assert(arena[base].object_id == -1);
        // A leaf of the whole range is a leaf of one of the two halves.
        assert forall|k: int| first <= k <= last implies leaf_with(
            arena,
            base,
            end,
            (#[trigger] keys[k]).object_ordinal as int,
        ) by {
            if k <= split {
                assert(leaf_with(arena, base + 1, rpos as int, keys[k].object_ordinal as int));
                let p = choose|p: int|
                    base + 1 <= p < rpos && (#[trigger] arena[p]).object_id >= 0
                        && arena[p].object_id as int == keys[k].object_ordinal as int;
                assert(base <= p < end);
            } else {
                assert(leaf_with(arena, rpos as int, end, keys[k].object_ordinal as int));
                let p = choose|p: int|
                    rpos <= p < end && (#[trigger] arena[p]).object_id >= 0
                        && arena[p].object_id as int == keys[k].object_ordinal as int;
                assert(base <= p < end);
            }
        }
        // Distinctness across the two halves: their key ranges are disjoint
        // and key ordinals are distinct.
        assert forall|p: int, q: int|
            base <= p < q < end && (#[trigger] arena[p]).object_id >= 0 && (
            #[trigger] arena[q]).object_id >= 0 implies arena[p].object_id
            != arena[q].object_id by {
            if p == base || q == base {
                assert(false);
            } else if q < rpos {
                // both in the left half
            } else if p >= rpos {
                // both in the right half
            } else {
                // p in the left half, q in the right half
                let kp = choose|k: int|
                    first <= k <= split && (#[trigger] keys[k]).object_ordinal as int == arena[p].object_id as int;
                let kq = choose|k: int|
                    split + 1 <= k <= last && (#[trigger] keys[k]).object_ordinal as int == arena[q].object_id as int;
                assert(keys[kp].object_ordinal != keys[kq].object_ordinal);
            }
        }
    }
}

/// Two boxes overlapping inside two containers make the containers overlap.
pub proof fn lemma_overlap_lift(
    qa: Interval3,
    qb: Interval3,
    ca: Interval3,
    cb: Interval3,
)
    requires
        ca.spec_contains(qa),
        cb.spec_contains(qb),
        qa.spec_overlaps(qb),
    ensures
        ca.spec_overlaps(cb),
{
}

/// Membership in a concatenation is membership in either part.
proof fn lemma_contains_concat<T>(s1: Seq<T>, s2: Seq<T>, x: T)
    ensures
        (s1 + s2).contains(x) <==> s1.contains(x) || s2.contains(x),
{
    if (s1 + s2).contains(x) {
        let k = choose|k: int| 0 <= k < (s1 + s2).len() && (s1 + s2)[k] == x;
        if k < s1.len() {
            assert(s1[k] == x);
        } else {
            assert(s2[k - s1.len()] == x);
        }
    }
    if s1.contains(x) {
        let k = choose|k: int| 0 <= k < s1.len() && s1[k] == x;
        assert((s1 + s2)[k] == x);
    }
    if s2.contains(x) {
        let k = choose|k: int| 0 <= k < s2.len() && s2[k] == x;
        assert((s1 + s2)[s1.len() + k] == x);
    }
}

/// What the pairwise visit of two identical-or-disjoint subtrees reports:
/// exactly the normalized pairs of two distinct overlapping leaves, one
/// from each side.
pub open spec fn pair_rhs(
    arena: Seq<FlatNode>,
    a: int,
    ea: int,
    b: int,
    eb: int,
    boxes: Seq<Aabb>,
    u: usize,
    v: usize,
) -> bool {
    &&& u < v
    &&& (v as int) < boxes.len()
    &&& boxes[u as int].spec_corners().spec_overlaps(boxes[v as int].spec_corners())
    &&& ((leaf_with(arena, a, ea, u as int) && leaf_with(arena, b, eb, v as int)) || (leaf_with(
        arena,
        a,
        ea,
        v as int,
    ) && leaf_with(arena, b, eb, u as int)))
}

/// The pairwise visit reports a pair exactly when two distinct leaves, one
/// under each subtree, carry overlapping boxes.
#[verifier::rlimit(100)]
pub proof fn lemma_pair_hits_membership(
    arena: Seq<FlatNode>,
    a: int,
    ea: int,
    b: int,
    eb: int,
    boxes: Seq<Aabb>,
    u: usize,
    v: usize,
)
    requires
        wf_subtree(arena, a, ea),
        wf_subtree(arena, b, eb),
        (a == b && ea == eb) || ea <= b || eb <= a,
        leaves_describe(arena, boxes),
    ensures
        pair_hits(arena, a, ea, b, eb, boxes).contains((u, v)) <==> pair_rhs(
            arena,
            a,
            ea,
            b,
            eb,
            boxes,
            u,
            v,
        ),
    decreases (ea - a) + (eb - b),
{
    lemma_subtree_boxes_contained(arena, a, ea);
    lemma_subtree_boxes_contained(arena, b, eb);
    if !arena[a].aabb.spec_overlaps(arena[b].aabb) {
        // No pair survives: any overlapping leaf pair would force the two
        // root boxes to overlap.
        if pair_rhs(arena, a, ea, b, eb, boxes, u, v) {
            if leaf_with(arena, a, ea, u as int) && leaf_with(arena, b, eb, v as int) {
                let p = choose|p: int|
                    a <= p < ea && (#[trigger] arena[p]).object_id >= 0 && arena[p].object_id
                        as int == u as int;
                let q = choose|q: int|
                    b <= q < eb && (#[trigger] arena[q]).object_id >= 0 && arena[q].object_id
                        as int == v as int;
                lemma_overlap_lift(arena[p].aabb, arena[q].aabb, arena[a].aabb, arena[b].aabb);
            } else {
                let p = choose|p: int|
                    a <= p < ea && (#[trigger] arena[p]).object_id >= 0 && arena[p].object_id
                        as int == v as int;
                let q = choose|q: int|
                    b <= q < eb && (#[trigger] arena[q]).object_id >= 0 && arena[q].object_id
                        as int == u as int;
                lemma_overlap_lift(arena[p].aabb, arena[q].aabb, arena[a].aabb, arena[b].aabb);
            }
        }
        assert(!pair_hits(arena, a, ea, b, eb, boxes).contains((u, v)));
    } else if arena[a].object_id >= 0 && arena[b].object_id >= 0 {
        let i = arena[a].object_id as int;
        let j = arena[b].object_id as int;
        assert(ea == a + 1 && eb == b + 1);
        assert(leaf_with(arena, a, ea, i));
        assert(leaf_with(arena, b, eb, j));
        assert forall|o: int| leaf_with(arena, a, ea, o) implies o == i by {}
        assert forall|o: int| leaf_with(arena, b, eb, o) implies o == j by {}
        if i != j && i < boxes.len() && j < boxes.len() {
            let pr = if i < j {
                (arena[a].object_id as usize, arena[b].object_id as usize)
            } else {
                (arena[b].object_id as usize, arena[a].object_id as usize)
            };
            assert(pair_hits(arena, a, ea, b, eb, boxes)[0] == pr);
            if pair_hits(arena, a, ea, b, eb, boxes).contains((u, v)) {
                assert((u, v) == pr);
            }
            if pair_rhs(arena, a, ea, b, eb, boxes, u, v) {
                assert((u, v) == pr);
                assert(pair_hits(arena, a, ea, b, eb, boxes).contains(pr));
            }
            if (u, v) == pr {
                assert(pair_hits(arena, a, ea, b, eb, boxes).contains((u, v)));
                assert(arena[a].aabb == boxes[i].spec_corners());
                assert(arena[b].aabb == boxes[j].spec_corners());
                assert(pair_rhs(arena, a, ea, b, eb, boxes, u, v));
            }
        } else {
            assert(pair_hits(arena, a, ea, b, eb, boxes) =~= Seq::<(usize, usize)>::empty());
            if pair_rhs(arena, a, ea, b, eb, boxes, u, v) {
                assert((u as int == i && v as int == j) || (u as int == j && v as int == i));
                assert(false);
            }
        }
    } else if a == b && ea == eb {
        let rc = arena[a].right as int;
        let h1 = pair_hits(arena, rc, ea, rc, ea, boxes);
        let h2 = pair_hits(arena, a + 1, rc, rc, ea, boxes);
        let h3 = pair_hits(arena, a + 1, rc, a + 1, rc, boxes);
        lemma_pair_hits_membership(arena, rc, ea, rc, ea, boxes, u, v);
        lemma_pair_hits_membership(arena, a + 1, rc, rc, ea, boxes, u, v);
        lemma_pair_hits_membership(arena, a + 1, rc, a + 1, rc, boxes, u, v);
        lemma_contains_concat(h1 + h2, h3, (u, v));
        lemma_contains_concat(h1, h2, (u, v));
        assert(pair_hits(arena, a, ea, b, eb, boxes) == h1 + h2 + h3);
        // A leaf of the whole subtree lies in one of the two halves.
        assert forall|o: int| #[trigger] leaf_with(arena, a, ea, o) implies leaf_with(
            arena,
            a + 1,
            rc,
            o,
        ) || leaf_with(arena, rc, ea, o) by {
            let p = choose|p: int|
                a <= p < ea && (#[trigger] arena[p]).object_id >= 0 && arena[p].object_id as int
                    == o;
            assert(p != a);
        }
        assert forall|o: int|
            leaf_with(arena, a + 1, rc, o) || leaf_with(arena, rc, ea, o) implies #[trigger] leaf_with(
            arena,
            a,
            ea,
            o,
        ) by {
            if leaf_with(arena, a + 1, rc, o) {
                let p = choose|p: int|
                    a + 1 <= p < rc && (#[trigger] arena[p]).object_id >= 0 && arena[p].object_id
                        as int == o;
                assert(a <= p < ea);
            } else {
                let p = choose|p: int|
                    rc <= p < ea && (#[trigger] arena[p]).object_id >= 0 && arena[p].object_id
                        as int == o;
                assert(a <= p < ea);
            }
        }
    } else if arena[a].object_id < 0 && arena[b].object_id < 0 {
        let ra = arena[a].right as int;
        let rb = arena[b].right as int;
        let h1 = pair_hits(arena, ra, ea, rb, eb, boxes);
        let h2 = pair_hits(arena, ra, ea, b + 1, rb, boxes);
        let h3 = pair_hits(arena, a + 1, ra, rb, eb, boxes);
        let h4 = pair_hits(arena, a + 1, ra, b + 1, rb, boxes);
        lemma_pair_hits_membership(arena, ra, ea, rb, eb, boxes, u, v);
        lemma_pair_hits_membership(arena, ra, ea, b + 1, rb, boxes, u, v);
        lemma_pair_hits_membership(arena, a + 1, ra, rb, eb, boxes, u, v);
        lemma_pair_hits_membership(arena, a + 1, ra, b + 1, rb, boxes, u, v);
        lemma_contains_concat(h1 + h2 + h3, h4, (u, v));
        lemma_contains_concat(h1 + h2, h3, (u, v));
        lemma_contains_concat(h1, h2, (u, v));
        assert(pair_hits(arena, a, ea, b, eb, boxes) == h1 + h2 + h3 + h4);
        assert forall|o: int| #[trigger] leaf_with(arena, a, ea, o) implies leaf_with(
            arena,
            a + 1,
            ra,
            o,
        ) || leaf_with(arena, ra, ea, o) by {
            let p = choose|p: int|
                a <= p < ea && (#[trigger] arena[p]).object_id >= 0 && arena[p].object_id as int
                    == o;
            assert(p != a);
        }
        assert forall|o: int| #[trigger] leaf_with(arena, b, eb, o) implies leaf_with(
            arena,
            b + 1,
            rb,
            o,
        ) || leaf_with(arena, rb, eb, o) by {
            let p = choose|p: int|
                b <= p < eb && (#[trigger] arena[p]).object_id >= 0 && arena[p].object_id as int
                    == o;
            assert(p != b);
        }
        assert forall|o: int, lo: int, hi: int|
            a <= lo && hi <= ea && #[trigger] leaf_with(arena, lo, hi, o) implies leaf_with(
            arena,
            a,
            ea,
            o,
        ) by {
            let p = choose|p: int|
                lo <= p < hi && (#[trigger] arena[p]).object_id >= 0 && arena[p].object_id as int
                    == o;
        }
        assert forall|o: int, lo: int, hi: int|
            b <= lo && hi <= eb && #[trigger] leaf_with(arena, lo, hi, o) implies leaf_with(
            arena,
            b,
            eb,
            o,
        ) by {
            let p = choose|p: int|
                lo <= p < hi && (#[trigger] arena[p]).object_id >= 0 && arena[p].object_id as int
                    == o;
        }
    } else if arena[a].object_id >= 0 {
        let rb = arena[b].right as int;
        let h1 = pair_hits(arena, a, ea, rb, eb, boxes);
        let h2 = pair_hits(arena, a, ea, b + 1, rb, boxes);
        lemma_pair_hits_membership(arena, a, ea, rb, eb, boxes, u, v);
        lemma_pair_hits_membership(arena, a, ea, b + 1, rb, boxes, u, v);
        lemma_contains_concat(h1, h2, (u, v));
        assert(pair_hits(arena, a, ea, b, eb, boxes) == h1 + h2);
        assert forall|o: int| #[trigger] leaf_with(arena, b, eb, o) implies leaf_with(
            arena,
            b + 1,
            rb,
            o,
        ) || leaf_with(arena, rb, eb, o) by {
            let p = choose|p: int|
                b <= p < eb && (#[trigger] arena[p]).object_id >= 0 && arena[p].object_id as int
                    == o;
            assert(p != b);
        }
        assert forall|o: int, lo: int, hi: int|
            b <= lo && hi <= eb && #[trigger] leaf_with(arena, lo, hi, o) implies leaf_with(
            arena,
            b,
            eb,
            o,
        ) by {
            let p = choose|p: int|
                lo <= p < hi && (#[trigger] arena[p]).object_id >= 0 && arena[p].object_id as int
                    == o;
        }
    } else {
        let ra = arena[a].right as int;
        let h1 = pair_hits(arena, ra, ea, b, eb, boxes);
        let h2 = pair_hits(arena, a + 1, ra, b, eb, boxes);
        lemma_pair_hits_membership(arena, ra, ea, b, eb, boxes, u, v);
        lemma_pair_hits_membership(arena, a + 1, ra, b, eb, boxes, u, v);
        lemma_contains_concat(h1, h2, (u, v));
        assert(pair_hits(arena, a, ea, b, eb, boxes) == h1 + h2);
        assert forall|o: int| #[trigger] leaf_with(arena, a, ea, o) implies leaf_with(
            arena,
            a + 1,
            ra,
            o,
        ) || leaf_with(arena, ra, ea, o) by {
            let p = choose|p: int|
                a <= p < ea && (#[trigger] arena[p]).object_id >= 0 && arena[p].object_id as int
                    == o;
            assert(p != a);
        }
        assert forall|o: int, lo: int, hi: int|
            a <= lo && hi <= ea && #[trigger] leaf_with(arena, lo, hi, o) implies leaf_with(
            arena,
            a,
            ea,
            o,
        ) by {
            let p = choose|p: int|
                lo <= p < hi && (#[trigger] arena[p]).object_id >= 0 && arena[p].object_id as int
                    == o;
        }
    }
}

/// An object has at most one leaf, so two disjoint subtree ranges cannot
/// both hold a leaf of the same object.
proof fn lemma_leaf_unique(
    arena: Seq<FlatNode>,
    boxes: Seq<Aabb>,
    lo1: int,
    hi1: int,
    lo2: int,
    hi2: int,
    o: int,
)
    requires
        leaves_describe(arena, boxes),
        0 <= lo1 && hi1 <= arena.len(),
        0 <= lo2 && hi2 <= arena.len(),
        hi1 <= lo2 || hi2 <= lo1,
    ensures
        !(leaf_with(arena, lo1, hi1, o) && leaf_with(arena, lo2, hi2, o)),
{
    if leaf_with(arena, lo1, hi1, o) && leaf_with(arena, lo2, hi2, o) {
        let p1 = choose|p: int|
            lo1 <= p < hi1 && (#[trigger] arena[p]).object_id >= 0 && arena[p].object_id as int
                == o;
        let p2 = choose|p: int|
            lo2 <= p < hi2 && (#[trigger] arena[p]).object_id >= 0 && arena[p].object_id as int
                == o;
        assert(p1 != p2);
    }
}

/// The pairwise visit reports each pair at most once.
#[verifier::rlimit(100)]
pub proof fn lemma_pair_hits_nodup(
    arena: Seq<FlatNode>,
    a: int,
    ea: int,
    b: int,
    eb: int,
    boxes: Seq<Aabb>,
)
    requires
        wf_subtree(arena, a, ea),
        wf_subtree(arena, b, eb),
        (a == b && ea == eb) || ea <= b || eb <= a,
        leaves_describe(arena, boxes),
    ensures
        forall|k1: int, k2: int|
            0 <= k1 < k2 < pair_hits(arena, a, ea, b, eb, boxes).len() ==> #[trigger] pair_hits(
                arena,
                a,
                ea,
                b,
                eb,
                boxes,
            )[k1] != #[trigger] pair_hits(arena, a, ea, b, eb, boxes)[k2],
    decreases (ea - a) + (eb - b),
{
    let whole = pair_hits(arena, a, ea, b, eb, boxes);
    if !arena[a].aabb.spec_overlaps(arena[b].aabb) {
    } else if arena[a].object_id >= 0 && arena[b].object_id >= 0 {
    } else if a == b && ea == eb {
        let rc = arena[a].right as int;
        let h1 = pair_hits(arena, rc, ea, rc, ea, boxes);
        let h2 = pair_hits(arena, a + 1, rc, rc, ea, boxes);
        let h3 = pair_hits(arena, a + 1, rc, a + 1, rc, boxes);
        lemma_pair_hits_nodup(arena, rc, ea, rc, ea, boxes);
        lemma_pair_hits_nodup(arena, a + 1, rc, rc, ea, boxes);
        lemma_pair_hits_nodup(arena, a + 1, rc, a + 1, rc, boxes);
        assert(whole == h1 + h2 + h3);
        assert forall|k1: int, k2: int| 0 <= k1 < k2 < whole.len() implies #[trigger] whole[k1]
            != #[trigger] whole[k2] by {
            let x = whole[k1];
            if x == whole[k2] {
                let (u, v) = x;
                lemma_pair_hits_membership(arena, rc, ea, rc, ea, boxes, u, v);
                lemma_pair_hits_membership(arena, a + 1, rc, rc, ea, boxes, u, v);
                lemma_pair_hits_membership(arena, a + 1, rc, a + 1, rc, boxes, u, v);
                // The two occurrences lie in different segments, which pin
                // the leaves of u and v to disjoint ranges.
                if k2 < h1.len() {
                    assert(h1[k1] == x && h1[k2] == x);
                } else if k1 >= h1.len() + h2.len() {
                    assert(h3[k1 - h1.len() - h2.len()] == x && h3[k2 - h1.len() - h2.len()] == x);
                } else if k1 < h1.len() && k2 < h1.len() + h2.len() {
                    assert(h1[k1] == x && h2[k2 - h1.len()] == x);
                    assert(h1.contains(x) && h2.contains(x));
                    if leaf_with(arena, a + 1, rc, u as int) {
                        lemma_leaf_unique(arena, boxes, rc, ea, a + 1, rc, u as int);
                    } else {
                        lemma_leaf_unique(arena, boxes, rc, ea, a + 1, rc, v as int);
                    }
                } else if k1 < h1.len() {
                    assert(h1[k1] == x && h3[k2 - h1.len() - h2.len()] == x);
                    assert(h1.contains(x) && h3.contains(x));
                    lemma_leaf_unique(arena, boxes, rc, ea, a + 1, rc, u as int);
                } else if k1 < h1.len() + h2.len() && k2 >= h1.len() + h2.len() {
                    assert(h2[k1 - h1.len()] == x && h3[k2 - h1.len() - h2.len()] == x);
                    assert(h2.contains(x) && h3.contains(x));
                    if leaf_with(arena, rc, ea, u as int) {
                        lemma_leaf_unique(arena, boxes, rc, ea, a + 1, rc, u as int);
                    } else {
                        lemma_leaf_unique(arena, boxes, rc, ea, a + 1, rc, v as int);
                    }
                } else {
                    assert(h2[k1 - h1.len()] == x && h2[k2 - h1.len()] == x);
                }
            }
        }
    } else if arena[a].object_id < 0 && arena[b].object_id < 0 {
        let ra = arena[a].right as int;
        let rb = arena[b].right as int;
        let h1 = pair_hits(arena, ra, ea, rb, eb, boxes);
        let h2 = pair_hits(arena, ra, ea, b + 1, rb, boxes);
        let h3 = pair_hits(arena, a + 1, ra, rb, eb, boxes);
        let h4 = pair_hits(arena, a + 1, ra, b + 1, rb, boxes);
        lemma_pair_hits_nodup(arena, ra, ea, rb, eb, boxes);
        lemma_pair_hits_nodup(arena, ra, ea, b + 1, rb, boxes);
        lemma_pair_hits_nodup(arena, a + 1, ra, rb, eb, boxes);
        lemma_pair_hits_nodup(arena, a + 1, ra, b + 1, rb, boxes);
        assert(whole == h1 + h2 + h3 + h4);
        assert forall|k1: int, k2: int| 0 <= k1 < k2 < whole.len() implies #[trigger] whole[k1]
            != #[trigger] whole[k2] by {
            let x = whole[k1];
            if x == whole[k2] {
                let (u, v) = x;
                lemma_pair_hits_membership(arena, ra, ea, rb, eb, boxes, u, v);
                lemma_pair_hits_membership(arena, ra, ea, b + 1, rb, boxes, u, v);
                lemma_pair_hits_membership(arena, a + 1, ra, rb, eb, boxes, u, v);
                lemma_pair_hits_membership(arena, a + 1, ra, b + 1, rb, boxes, u, v);
                let l1 = h1.len();
                let l2 = h2.len();
                let l3 = h3.len();
                let s1 = k1 < l1;
                let s2 = l1 <= k1 < l1 + l2;
                let s3 = l1 + l2 <= k1 < l1 + l2 + l3;
                let t1 = k2 < l1;
                let t2 = l1 <= k2 < l1 + l2;
                let t3 = l1 + l2 <= k2 < l1 + l2 + l3;
                if s1 {
                    assert(h1[k1] == x && h1.contains(x));
                } else if s2 {
                    assert(h2[k1 - l1] == x && h2.contains(x));
                } else if s3 {
                    assert(h3[k1 - l1 - l2] == x && h3.contains(x));
                } else {
                    assert(h4[k1 - l1 - l2 - l3] == x && h4.contains(x));
                }
                if t1 {
                    assert(h1[k2] == x && h1.contains(x));
                } else if t2 {
                    assert(h2[k2 - l1] == x && h2.contains(x));
                } else if t3 {
                    assert(h3[k2 - l1 - l2] == x && h3.contains(x));
                } else {
                    assert(h4[k2 - l1 - l2 - l3] == x && h4.contains(x));
                }
                // Same segment: covered by that segment's distinctness.
                // Different segments: one of the two objects would need two
                // leaves in disjoint ranges.
                if (s1 && t1) || (s2 && t2) || (s3 && t3) || (!s1 && !s2 && !s3 && !t1 && !t2
                    && !t3) {
                } else {
                    if leaf_with(arena, ra, ea, u as int) && leaf_with(arena, a + 1, ra, u as int) {
                        lemma_leaf_unique(arena, boxes, ra, ea, a + 1, ra, u as int);
                    } else if leaf_with(arena, ra, ea, v as int) && leaf_with(
                        arena,
                        a + 1,
                        ra,
                        v as int,
                    ) {
                        lemma_leaf_unique(arena, boxes, ra, ea, a + 1, ra, v as int);
                    } else if leaf_with(arena, rb, eb, u as int) && leaf_with(
                        arena,
                        b + 1,
                        rb,
                        u as int,
                    ) {
                        lemma_leaf_unique(arena, boxes, rb, eb, b + 1, rb, u as int);
                    } else if leaf_with(arena, rb, eb, v as int) && leaf_with(
                        arena,
                        b + 1,
                        rb,
                        v as int,
                    ) {
                        lemma_leaf_unique(arena, boxes, rb, eb, b + 1, rb, v as int);
                    } else if leaf_with(arena, a, ea, u as int) && leaf_with(
                        arena,
                        b,
                        eb,
                        u as int,
                    ) {
                        lemma_leaf_unique(arena, boxes, a, ea, b, eb, u as int);
                    } else {
                        lemma_leaf_unique(arena, boxes, a, ea, b, eb, v as int);
                    }
                }
            }
        }
    } else if arena[a].object_id >= 0 {
        let rb = arena[b].right as int;
        let h1 = pair_hits(arena, a, ea, rb, eb, boxes);
        let h2 = pair_hits(arena, a, ea, b + 1, rb, boxes);
        lemma_pair_hits_nodup(arena, a, ea, rb, eb, boxes);
        lemma_pair_hits_nodup(arena, a, ea, b + 1, rb, boxes);
        assert(whole == h1 + h2);
        assert forall|k1: int, k2: int| 0 <= k1 < k2 < whole.len() implies #[trigger] whole[k1]
            != #[trigger] whole[k2] by {
            let x = whole[k1];
            if x == whole[k2] {
                let (u, v) = x;
                lemma_pair_hits_membership(arena, a, ea, rb, eb, boxes, u, v);
                lemma_pair_hits_membership(arena, a, ea, b + 1, rb, boxes, u, v);
                if k1 < h1.len() && k2 >= h1.len() {
                    assert(h1[k1] == x && h2[k2 - h1.len()] == x);
                    assert(h1.contains(x) && h2.contains(x));
                    if leaf_with(arena, rb, eb, u as int) && leaf_with(arena, b + 1, rb, u as int) {
                        lemma_leaf_unique(arena, boxes, rb, eb, b + 1, rb, u as int);
                    } else {
                        lemma_leaf_unique(arena, boxes, rb, eb, b + 1, rb, v as int);
                    }
                } else if k2 < h1.len() {
                    assert(h1[k1] == x && h1[k2] == x);
                } else {
                    assert(h2[k1 - h1.len()] == x && h2[k2 - h1.len()] == x);
                }
            }
        }
    } else {
        let ra = arena[a].right as int;
        let h1 = pair_hits(arena, ra, ea, b, eb, boxes);
        let h2 = pair_hits(arena, a + 1, ra, b, eb, boxes);
        lemma_pair_hits_nodup(arena, ra, ea, b, eb, boxes);
        lemma_pair_hits_nodup(arena, a + 1, ra, b, eb, boxes);
        assert(whole == h1 + h2);
        assert forall|k1: int, k2: int| 0 <= k1 < k2 < whole.len() implies #[trigger] whole[k1]
            != #[trigger] whole[k2] by {
            let x = whole[k1];
            if x == whole[k2] {
                let (u, v) = x;
                lemma_pair_hits_membership(arena, ra, ea, b, eb, boxes, u, v);
                lemma_pair_hits_membership(arena, a + 1, ra, b, eb, boxes, u, v);
                if k1 < h1.len() && k2 >= h1.len() {
                    assert(h1[k1] == x && h2[k2 - h1.len()] == x);
                    assert(h1.contains(x) && h2.contains(x));
                    if leaf_with(arena, ra, ea, u as int) && leaf_with(arena, a + 1, ra, u as int) {
                        lemma_leaf_unique(arena, boxes, ra, ea, a + 1, ra, u as int);
                    } else {
                        lemma_leaf_unique(arena, boxes, ra, ea, a + 1, ra, v as int);
                    }
                } else if k2 < h1.len() {
                    assert(h1[k1] == x && h1[k2] == x);
                } else {
                    assert(h2[k1 - h1.len()] == x && h2[k2 - h1.len()] == x);
                }
            }
        }
    }
}

/// The arena a build produces describes its boxes: leaf boxes are the
/// objects' boxes, ids address the box array, no id repeats, and every
/// object owns a leaf.
pub proof fn lemma_arena_spec_describes(boxes: Seq<Aabb>, ws: int)
    requires
        boxes_wf(boxes),
        1 <= boxes.len() <= 0x2000_0000,
    ensures
        leaves_describe(arena_spec(boxes, ws), boxes),
        forall|o: int|
            0 <= o < boxes.len() ==> leaf_with(
                arena_spec(boxes, ws),
                0,
                arena_spec(boxes, ws).len() as int,
                o,
            ),
        arena_spec(boxes, ws).len() == 2 * boxes.len() - 1,
        wf_subtree(arena_spec(boxes, ws), 0, arena_spec(boxes, ws).len() as int),
{
    broadcast use vstd::seq_lib::group_to_multiset_ensures;

    let n = boxes.len() as int;
    let input = input_keys_spec(boxes, ws);
    let leq = |a: MortonKey, b: MortonKey| key_le(a, b);
    let sorted = sorted_keys_spec(boxes, ws);
    input.lemma_sort_by_ensures(leq);
    assert(sorted.to_multiset() == input.to_multiset());
    sorted.to_multiset_ensures();
    input.to_multiset_ensures();
    assert(sorted.len() == n);
    assert(input.no_duplicates()) by {
        assert forall|i: int, j: int| 0 <= i < j < input.len() implies input[i] != input[j] by {
            assert(input[i].object_ordinal == i && input[j].object_ordinal == j);
        }
    }
    input.lemma_multiset_has_no_duplicates();
    assert forall|x: MortonKey| sorted.to_multiset().contains(x) implies sorted.to_multiset().count(
        x,
    ) == 1 by {
        assert(input.to_multiset().count(x) == sorted.to_multiset().count(x));
    }
    sorted.lemma_multiset_has_no_duplicates_conv();
    assert forall|q: int| 0 <= q < sorted.len() implies (#[trigger] sorted[q]).object_ordinal
        < n by {
        assert(sorted.contains(sorted[q]));
        assert(sorted.to_multiset().count(sorted[q]) > 0);
        assert(input.to_multiset().count(sorted[q]) > 0);
        assert(input.contains(sorted[q]));
    }
    assert forall|i: int, j: int| 0 <= i < j < sorted.len() implies (
    #[trigger] sorted[i]).object_ordinal != (#[trigger] sorted[j]).object_ordinal by {
        if sorted[i].object_ordinal == sorted[j].object_ordinal {
            assert(sorted[i] != sorted[j]);
            assert(sorted.contains(sorted[i]) && sorted.contains(sorted[j]));
            assert(sorted.to_multiset().count(sorted[i]) > 0);
            assert(input.to_multiset().count(sorted[i]) > 0);
            assert(input.contains(sorted[i]));
            assert(sorted.to_multiset().count(sorted[j]) > 0);
            assert(input.to_multiset().count(sorted[j]) > 0);
            assert(input.contains(sorted[j]));
            let ki = choose|k: int| 0 <= k < input.len() && input[k] == sorted[i];
            let kj = choose|k: int| 0 <= k < input.len() && input[k] == sorted[j];
            assert(input[ki].object_ordinal == ki && input[kj].object_ordinal == kj);
            assert(ki == kj);
        }
    }
    let a = arena_spec(boxes, ws);
    lemma_flatten_len(sorted, boxes, 0, n - 1, 0);
    assert(a.subrange(0, a.len() as int) =~= a);
    lemma_flatten_wf(sorted, boxes, a, 0, n - 1, 0);
    lemma_flatten_leaf_props(sorted, boxes, a, 0, n - 1, 0);
    // Every object id has a key, so every object id has a leaf.
    assert forall|o: int| 0 <= o < n implies leaf_with(a, 0, a.len() as int, o) by {
        assert(input[o].object_ordinal as int == o);
        assert(input.contains(input[o]));
        assert(input.to_multiset().count(input[o]) > 0);
        assert(sorted.to_multiset().count(input[o]) > 0);
        assert(sorted.contains(input[o]));
        let k = choose|k: int| 0 <= k < sorted.len() && sorted[k] == input[o];
        assert(leaf_with(a, 0, 2 * (n - 1) + 1, sorted[k].object_ordinal as int));
    }
}

/// The pairwise traversal over a freshly built arena reports exactly what a
/// brute-force scan of the boxes reports: every unordered pair of distinct
/// objects whose boxes overlap, once, smaller ordinal first.
pub proof fn lemma_check_all_matches_brute_force(boxes: Seq<Aabb>, ws: int)
    requires
        boxes_wf(boxes),
        1 <= boxes.len() <= 0x2000_0000,
    ensures
        forall|u: usize, v: usize|
            pair_hits(
                arena_spec(boxes, ws),
                0,
                arena_spec(boxes, ws).len() as int,
                0,
                arena_spec(boxes, ws).len() as int,
                boxes,
            ).contains((u, v)) <==> u < v && (v as int) < boxes.len() && (#[trigger] boxes[u as int]).spec_corners().spec_overlaps(
                (#[trigger] boxes[v as int]).spec_corners(),
            ),
        forall|k1: int, k2: int|
            0 <= k1 < k2 < pair_hits(
                arena_spec(boxes, ws),
                0,
                arena_spec(boxes, ws).len() as int,
                0,
                arena_spec(boxes, ws).len() as int,
                boxes,
            ).len() ==> #[trigger] pair_hits(
                arena_spec(boxes, ws),
                0,
                arena_spec(boxes, ws).len() as int,
                0,
                arena_spec(boxes, ws).len() as int,
                boxes,
            )[k1] != #[trigger] pair_hits(
                arena_spec(boxes, ws),
                0,
                arena_spec(boxes, ws).len() as int,
                0,
                arena_spec(boxes, ws).len() as int,
                boxes,
            )[k2],
{
    let a = arena_spec(boxes, ws);
    let len = a.len() as int;
    lemma_arena_spec_describes(boxes, ws);
    lemma_pair_hits_nodup(a, 0, len, 0, len, boxes);
    assert forall|u: usize, v: usize|
        pair_hits(
            arena_spec(boxes, ws),
            0,
            arena_spec(boxes, ws).len() as int,
            0,
            arena_spec(boxes, ws).len() as int,
            boxes,
        ).contains((u, v)) <==> u < v && (v as int) < boxes.len()
            && (#[trigger] boxes[u as int]).spec_corners().spec_overlaps(
            (#[trigger] boxes[v as int]).spec_corners(),
        ) by {
        lemma_pair_hits_membership(a, 0, len, 0, len, boxes, u, v);
        if pair_hits(a, 0, len, 0, len, boxes).contains((u, v)) {
            assert(pair_rhs(a, 0, len, 0, len, boxes, u, v));
        }
        if u < v && (v as int) < boxes.len() && boxes[u as int].spec_corners().spec_overlaps(
            boxes[v as int].spec_corners(),
        ) {
            assert(leaf_with(a, 0, len, u as int));
            assert(leaf_with(a, 0, len, v as int));
            assert(pair_rhs(a, 0, len, 0, len, boxes, u, v));
        }
    }
}

/// A pruned single query visit reports an ordinal exactly when a leaf
/// carries it, it is not the excluded one, and the query box overlaps its
/// object's box.
pub proof fn lemma_query_hits_membership(
    arena: Seq<FlatNode>,
    idx: int,
    end: int,
    q: Interval3,
    exclude: int,
    boxes: Seq<Aabb>,
    j: usize,
)
    requires
        wf_subtree(arena, idx, end),
        leaves_describe(arena, boxes),
    ensures
        query_hits(arena, idx, end, q, exclude, boxes).contains(j) <==> {
            &&& j as int != exclude
            &&& (j as int) < boxes.len()
            &&& leaf_with(arena, idx, end, j as int)
            &&& q.spec_overlaps(boxes[j as int].spec_corners())
        },
    decreases end - idx,
{
    lemma_subtree_boxes_contained(arena, idx, end);
    if !q.spec_overlaps(arena[idx].aabb) {
        if leaf_with(arena, idx, end, j as int) && q.spec_overlaps(
            boxes[j as int].spec_corners(),
        ) && (j as int) < boxes.len() {
            let p = choose|p: int|
                idx <= p < end && (#[trigger] arena[p]).object_id >= 0 && arena[p].object_id
                    as int == j as int;
            crate::aabb::lemma_overlap_monotone(q, arena[p].aabb, arena[idx].aabb);
        }
    } else if arena[idx].object_id >= 0 {
        assert forall|o: int| leaf_with(arena, idx, end, o) implies o == arena[idx].object_id
            as int by {}
        if query_hits(arena, idx, end, q, exclude, boxes).contains(j) {
            assert(query_hits(arena, idx, end, q, exclude, boxes)[0] == j);
        }
        if j as int == arena[idx].object_id as int && j as int != exclude && (j as int)
            < boxes.len() && q.spec_overlaps(boxes[j as int].spec_corners()) {
            assert(query_hits(arena, idx, end, q, exclude, boxes)[0] == j);
        }
        assert(leaf_with(arena, idx, end, arena[idx].object_id as int));
    } else {
        let r = arena[idx].right as int;
        let h1 = query_hits(arena, r, end, q, exclude, boxes);
        let h2 = query_hits(arena, idx + 1, r, q, exclude, boxes);
        lemma_query_hits_membership(arena, r, end, q, exclude, boxes, j);
        lemma_query_hits_membership(arena, idx + 1, r, q, exclude, boxes, j);
        lemma_contains_concat(h1, h2, j);
        assert(query_hits(arena, idx, end, q, exclude, boxes) == h1 + h2);
        assert forall|o: int| #[trigger] leaf_with(arena, idx, end, o) implies leaf_with(
            arena,
            idx + 1,
            r,
            o,
        ) || leaf_with(arena, r, end, o) by {
            let p = choose|p: int|
                idx <= p < end && (#[trigger] arena[p]).object_id >= 0 && arena[p].object_id
                    as int == o;
            assert(p != idx);
        }
        assert forall|o: int, lo: int, hi: int|
            idx <= lo && hi <= end && #[trigger] leaf_with(arena, lo, hi, o) implies leaf_with(
            arena,
            idx,
            end,
            o,
        ) by {
            let p = choose|p: int|
                lo <= p < hi && (#[trigger] arena[p]).object_id >= 0 && arena[p].object_id as int
                    == o;
        }
    }
}

/// The single query over a freshly built arena reports exactly the other
/// objects whose boxes overlap the query box.
pub proof fn lemma_find_collisions_exact(
    boxes: Seq<Aabb>,
    ws: int,
    q: Interval3,
    exclude: int,
    j: usize,
)
    requires
        boxes_wf(boxes),
        1 <= boxes.len() <= 0x2000_0000,
    ensures
        query_hits(
            arena_spec(boxes, ws),
            0,
            arena_spec(boxes, ws).len() as int,
            q,
            exclude,
            boxes,
        ).contains(j) <==> j as int != exclude && (j as int) < boxes.len() && q.spec_overlaps(
            boxes[j as int].spec_corners(),
        ),
{
    let a = arena_spec(boxes, ws);
    let len = a.len() as int;
    lemma_arena_spec_describes(boxes, ws);
    lemma_query_hits_membership(a, 0, len, q, exclude, boxes, j);
    if (j as int) < boxes.len() {
        assert(leaf_with(a, 0, len, j as int));
    }
}

/// The reported pairs translated through the identifier mapping: every pair
/// whose ordinals both have identifiers, as an identifier pair, in order.
pub open spec fn guid_pair_keys(pairs: Seq<(usize, usize)>, guids: Seq<Seq<char>>) -> Seq<(
    Seq<char>,
    Seq<char>,
)>
    decreases pairs.len(),
{
    if pairs.len() == 0 {
        Seq::empty()
    } else {
        let rest = guid_pair_keys(pairs.drop_last(), guids);
        let p = pairs.last();
        if (p.0 as int) < guids.len() && (p.1 as int) < guids.len() {
            rest.push((guids[p.0 as int], guids[p.1 as int]))
        } else {
            rest
        }
    }
}

impl BVH {
    /// Check for all collisions and return the caller identifiers of each
    /// colliding pair, translated through the mapping built alongside the
    /// arena.
    pub fn check_all_collisions_guids(&self, bounding_boxes: &Vec<Aabb>) -> (r: Vec<(
        String,
        String,
    )>)
        requires
            self.inv(),
            boxes_wf(bounding_boxes@),
            self.arena@.len() <= 0x8000,
        ensures
            self.arena@.len() == 0 ==> r@.len() == 0,
            self.arena@.len() > 0 ==> r@.map_values(|p: (String, String)| (p.0@, p.1@))
                == guid_pair_keys(
                pair_hits(
                    self.arena@,
                    0,
                    self.arena@.len() as int,
                    0,
                    self.arena@.len() as int,
                    bounding_boxes@,
                ),
                self.object_guids@.map_values(|s: String| s@),
            ),
    {
        let (collision_pairs, _touched, _checks) = self.check_all_collisions(bounding_boxes);
        let ghost gkeys = self.object_guids@.map_values(|s: String| s@);
        let n = collision_pairs.len();
        let mut out: Vec<(String, String)> = Vec::new();
        let mut i: usize = 0;
        while i < n
            invariant
                i <= n,
                n == collision_pairs@.len(),
                gkeys == self.object_guids@.map_values(|s: String| s@),
                out@.map_values(|p: (String, String)| (p.0@, p.1@)) == guid_pair_keys(
                    collision_pairs@.take(i as int),
                    gkeys,
                ),
            decreases n - i,
        {
            let ghost prefix = collision_pairs@.take(i as int);
            let ghost prefix1 = collision_pairs@.take(i + 1);
            proof {
                assert(prefix1.drop_last() =~= prefix);
                assert(prefix1.last() == collision_pairs@[i as int]);
            }
            let pr = collision_pairs[i];
            if pr.0 < self.object_guids.len() && pr.1 < self.object_guids.len() {
                out.push((self.object_guids[pr.0].clone(), self.object_guids[pr.1].clone()));
                proof {
                    assert(out@.map_values(|p: (String, String)| (p.0@, p.1@)) =~= guid_pair_keys(
                        prefix1,
                        gkeys,
                    ));
                }
            } else {
                proof {
                    assert(out@.map_values(|p: (String, String)| (p.0@, p.1@)) =~= guid_pair_keys(
                        prefix1,
                        gkeys,
                    ));
                }
            }
            i = i + 1;
        }
        proof {
            assert(collision_pairs@.take(n as int) =~= collision_pairs@);
            if self.arena@.len() == 0 {
                assert(out@.len() == guid_pair_keys(collision_pairs@, gkeys).len());
                lemma_guid_pair_keys_empty(collision_pairs@, gkeys);
            }
        }
        out
    }
}

/// Translating no pairs yields no identifier pairs.
proof fn lemma_guid_pair_keys_empty(pairs: Seq<(usize, usize)>, guids: Seq<Seq<char>>)
    requires
        pairs.len() == 0,
    ensures
        guid_pair_keys(pairs, guids).len() == 0,
{
}

/// The ray origin/direction bounds under which the slab arithmetic fits in
/// 128 bits.
pub open spec fn ray_wf(ox: i64, oy: i64, oz: i64, dx: i64, dy: i64, dz: i64) -> bool {
    &&& -COORD_LIMIT <= ox <= COORD_LIMIT
    &&& -COORD_LIMIT <= oy <= COORD_LIMIT
    &&& -COORD_LIMIT <= oz <= COORD_LIMIT
    &&& -COORD_LIMIT <= dx <= COORD_LIMIT
    &&& -COORD_LIMIT <= dy <= COORD_LIMIT
    &&& -COORD_LIMIT <= dz <= COORD_LIMIT
}

/// One axis's slab interval, as a pair of numerators over the positive
/// denominator `|d|`: the parametric distances at which the ray enters and
/// leaves the slab `[lo, hi]`.
pub open spec fn slab_lo_num(o: int, d: int, lo: int, hi: int) -> int {
    if d > 0 {
        lo - o
    } else {
        o - hi
    }
}

/// The leaving numerator of one axis's slab interval.
pub open spec fn slab_hi_num(o: int, d: int, lo: int, hi: int) -> int {
    if d > 0 {
        hi - o
    } else {
        o - lo
    }
}

/// The positive denominator of one axis's slab interval.
pub open spec fn slab_den(d: int) -> int {
    if d > 0 {
        d
    } else {
        -d
    }
}

/// The slab test: the ray from `(ox, oy, oz)` along `(dx, dy, dz)` meets
/// the box at some parameter `t >= 0`. An axis with zero direction only
/// constrains the origin to lie inside its slab; the remaining axes'
/// parametric entry/leave intervals must share a point in front of the
/// origin, which the cross-multiplied comparisons express exactly.
pub open spec fn ray_hits(
    ox: int,
    oy: int,
    oz: int,
    dx: int,
    dy: int,
    dz: int,
    b: Interval3,
) -> bool {
    let nlx = slab_lo_num(ox, dx, b.lox as int, b.hix as int);
    let nhx = slab_hi_num(ox, dx, b.lox as int, b.hix as int);
    let ddx = slab_den(dx);
    let nly = slab_lo_num(oy, dy, b.loy as int, b.hiy as int);
    let nhy = slab_hi_num(oy, dy, b.loy as int, b.hiy as int);
    let ddy = slab_den(dy);
    let nlz = slab_lo_num(oz, dz, b.loz as int, b.hiz as int);
    let nhz = slab_hi_num(oz, dz, b.loz as int, b.hiz as int);
    let ddz = slab_den(dz);
    &&& (dx == 0 ==> b.lox <= ox <= b.hix)
    &&& (dy == 0 ==> b.loy <= oy <= b.hiy)
    &&& (dz == 0 ==> b.loz <= oz <= b.hiz)
    &&& (dx != 0 ==> nlx <= nhx && nhx >= 0)
    &&& (dy != 0 ==> nly <= nhy && nhy >= 0)
    &&& (dz != 0 ==> nlz <= nhz && nhz >= 0)
    &&& (dx != 0 && dy != 0 ==> nlx * ddy <= nhy * ddx && nly * ddx <= nhx * ddy)
    &&& (dx != 0 && dz != 0 ==> nlx * ddz <= nhz * ddx && nlz * ddx <= nhx * ddz)
    &&& (dy != 0 && dz != 0 ==> nly * ddz <= nhz * ddy && nlz * ddy <= nhy * ddz)
}

/// A box containing another is hit by every ray that hits the inner box.
pub proof fn lemma_ray_hits_monotone(
    ox: int,
    oy: int,
    oz: int,
    dx: int,
    dy: int,
    dz: int,
    inner: Interval3,
    outer: Interval3,
)
    requires
        outer.spec_contains(inner),
        ray_hits(ox, oy, oz, dx, dy, dz, inner),
    ensures
        ray_hits(ox, oy, oz, dx, dy, dz, outer),
{
    assert forall|o: int, d: int, li: int, hi_: int, lo_: int, ho: int|
        d != 0 && lo_ <= li && hi_ <= ho implies slab_lo_num(o, d, lo_, ho) <= slab_lo_num(
        o,
        d,
        li,
        hi_,
    ) && slab_hi_num(o, d, li, hi_) <= slab_hi_num(o, d, lo_, ho) by {}
    assert forall|a1: int, a2: int, c: int| a1 <= a2 && c > 0 implies #[trigger] (a1 * c)
        <= #[trigger] (a2 * c) by {
        assert(a1 * c <= a2 * c) by (nonlinear_arith)
            requires
                a1 <= a2,
                c > 0,
        ;
    }
}

/// Compare two slab fractions across their positive denominators.
fn frac_le(n1: i64, d1: i64, n2: i64, d2: i64) -> (r: bool)
    requires
        0 < d1 <= 2 * COORD_LIMIT,
        0 < d2 <= 2 * COORD_LIMIT,
        -8 * COORD_LIMIT <= n1 <= 8 * COORD_LIMIT,
        -8 * COORD_LIMIT <= n2 <= 8 * COORD_LIMIT,
    ensures
        r == (n1 as int * d2 as int <= n2 as int * d1 as int),
{
    proof {
        assert(-16 * COORD_LIMIT * COORD_LIMIT <= (n1 as int) * (d2 as int) <= 16 * COORD_LIMIT
            * COORD_LIMIT) by (nonlinear_arith)
            requires
                0 < d2 <= 2 * COORD_LIMIT,
                -8 * COORD_LIMIT <= n1 <= 8 * COORD_LIMIT,
        ;
        assert(-16 * COORD_LIMIT * COORD_LIMIT <= (n2 as int) * (d1 as int) <= 16 * COORD_LIMIT
            * COORD_LIMIT) by (nonlinear_arith)
            requires
                0 < d1 <= 2 * COORD_LIMIT,
                -8 * COORD_LIMIT <= n2 <= 8 * COORD_LIMIT,
        ;
    }
    (n1 as i128) * (d2 as i128) <= (n2 as i128) * (d1 as i128)
}

/// The executable slab test against one node box.
pub fn ray_box_hit(
    ox: i64,
    oy: i64,
    oz: i64,
    dx: i64,
    dy: i64,
    dz: i64,
    b: &Interval3,
) -> (r: bool)
    requires
        ray_wf(ox, oy, oz, dx, dy, dz),
        b.wf(),
    ensures
        r == ray_hits(ox as int, oy as int, oz as int, dx as int, dy as int, dz as int, *b),
{
    if dx == 0 && !(b.lox <= ox && ox <= b.hix) {
        return false;
    }
    if dy == 0 && !(b.loy <= oy && oy <= b.hiy) {
        return false;
    }
    if dz == 0 && !(b.loz <= oz && oz <= b.hiz) {
        return false;
    }
    let nlx = if dx > 0 { b.lox - ox } else { ox - b.hix };
    let nhx = if dx > 0 { b.hix - ox } else { ox - b.lox };
    let ddx = if dx > 0 { dx } else { -dx };
    let nly = if dy > 0 { b.loy - oy } else { oy - b.hiy };
    let nhy = if dy > 0 { b.hiy - oy } else { oy - b.loy };
    let ddy = if dy > 0 { dy } else { -dy };
    let nlz = if dz > 0 { b.loz - oz } else { oz - b.hiz };
    let nhz = if dz > 0 { b.hiz - oz } else { oz - b.loz };
    let ddz = if dz > 0 { dz } else { -dz };
    if dx != 0 && !(nlx <= nhx && nhx >= 0) {
        return false;
    }
    if dy != 0 && !(nly <= nhy && nhy >= 0) {
        return false;
    }
    if dz != 0 && !(nlz <= nhz && nhz >= 0) {
        return false;
    }
    if dx != 0 && dy != 0 && !(frac_le(nlx, ddx, nhy, ddy) && frac_le(nly, ddy, nhx, ddx)) {
        return false;
    }
    if dx != 0 && dz != 0 && !(frac_le(nlx, ddx, nhz, ddz) && frac_le(nlz, ddz, nhx, ddx)) {
        return false;
    }
    if dy != 0 && dz != 0 && !(frac_le(nly, ddy, nhz, ddz) && frac_le(nlz, ddz, nhy, ddy)) {
        return false;
    }
    true
}

/// The candidate leaves a pruned ray descent reports from the subtree
/// `[idx, end)`: nothing under a missed node box; the leaf's object at a
/// hit leaf; otherwise the right subtree's candidates, then the left's.
pub open spec fn ray_candidates(
    arena: Seq<FlatNode>,
    idx: int,
    end: int,
    ox: int,
    oy: int,
    oz: int,
    dx: int,
    dy: int,
    dz: int,
) -> Seq<usize>
    decreases end - idx,
{
    if !wf_subtree(arena, idx, end) {
        Seq::empty()
    } else if !ray_hits(ox, oy, oz, dx, dy, dz, arena[idx].aabb) {
        Seq::empty()
    } else if arena[idx].object_id >= 0 {
        seq![arena[idx].object_id as usize]
    } else {
        let r = arena[idx].right as int;
        ray_candidates(arena, r, end, ox, oy, oz, dx, dy, dz) + ray_candidates(
            arena,
            idx + 1,
            r,
            ox,
            oy,
            oz,
            dx,
            dy,
            dz,
        )
    }
}

/// The candidates the pending ray stack entries still owe, topmost first.
pub open spec fn ray_stack_candidates(
    arena: Seq<FlatNode>,
    g: Seq<(int, int)>,
    ox: int,
    oy: int,
    oz: int,
    dx: int,
    dy: int,
    dz: int,
) -> Seq<usize>
    decreases g.len(),
{
    if g.len() == 0 {
        Seq::empty()
    } else {
        ray_candidates(arena, g.last().0, g.last().1, ox, oy, oz, dx, dy, dz)
            + ray_stack_candidates(arena, g.drop_last(), ox, oy, oz, dx, dy, dz)
    }
}

/// A pruned ray descent reports a leaf exactly when the ray hits its box,
/// for an arena whose leaves describe the boxes.
pub proof fn lemma_ray_candidates_membership(
    arena: Seq<FlatNode>,
    idx: int,
    end: int,
    ox: int,
    oy: int,
    oz: int,
    dx: int,
    dy: int,
    dz: int,
    boxes: Seq<Aabb>,
    j: usize,
)
    requires
        wf_subtree(arena, idx, end),
        leaves_describe(arena, boxes),
    ensures
        ray_candidates(arena, idx, end, ox, oy, oz, dx, dy, dz).contains(j) <==> {
            &&& (j as int) < boxes.len()
            &&& leaf_with(arena, idx, end, j as int)
            &&& ray_hits(ox, oy, oz, dx, dy, dz, boxes[j as int].spec_corners())
        },
    decreases end - idx,
{
    lemma_subtree_boxes_contained(arena, idx, end);
    if !ray_hits(ox, oy, oz, dx, dy, dz, arena[idx].aabb) {
        if leaf_with(arena, idx, end, j as int) && (j as int) < boxes.len() && ray_hits(
            ox,
            oy,
            oz,
            dx,
            dy,
            dz,
            boxes[j as int].spec_corners(),
        ) {
            let p = choose|p: int|
                idx <= p < end && (#[trigger] arena[p]).object_id >= 0 && arena[p].object_id
                    as int == j as int;
            lemma_ray_hits_monotone(ox, oy, oz, dx, dy, dz, arena[p].aabb, arena[idx].aabb);
        }
    } else if arena[idx].object_id >= 0 {
        assert forall|o: int| leaf_with(arena, idx, end, o) implies o == arena[idx].object_id
            as int by {}
        if ray_candidates(arena, idx, end, ox, oy, oz, dx, dy, dz).contains(j) {
            assert(ray_candidates(arena, idx, end, ox, oy, oz, dx, dy, dz)[0] == j);
        }
        if j as int == arena[idx].object_id as int {
            assert(ray_candidates(arena, idx, end, ox, oy, oz, dx, dy, dz)[0] == j);
        }
        assert(leaf_with(arena, idx, end, arena[idx].object_id as int));
    } else {
        let r = arena[idx].right as int;
        let h1 = ray_candidates(arena, r, end, ox, oy, oz, dx, dy, dz);
        let h2 = ray_candidates(arena, idx + 1, r, ox, oy, oz, dx, dy, dz);
        lemma_ray_candidates_membership(arena, r, end, ox, oy, oz, dx, dy, dz, boxes, j);
        lemma_ray_candidates_membership(arena, idx + 1, r, ox, oy, oz, dx, dy, dz, boxes, j);
        lemma_contains_concat(h1, h2, j);
        assert(ray_candidates(arena, idx, end, ox, oy, oz, dx, dy, dz) == h1 + h2);
        assert forall|o: int| #[trigger] leaf_with(arena, idx, end, o) implies leaf_with(
            arena,
            idx + 1,
            r,
            o,
        ) || leaf_with(arena, r, end, o) by {
            let p = choose|p: int|
                idx <= p < end && (#[trigger] arena[p]).object_id >= 0 && arena[p].object_id
                    as int == o;
            assert(p != idx);
        }
        assert forall|o: int, lo: int, hi: int|
            idx <= lo && hi <= end && #[trigger] leaf_with(arena, lo, hi, o) implies leaf_with(
            arena,
            idx,
            end,
            o,
        ) by {
            let p = choose|p: int|
                lo <= p < hi && (#[trigger] arena[p]).object_id >= 0 && arena[p].object_id as int
                    == o;
        }
    }
}

impl BVH {
    /// Collect every leaf whose box the ray from the given origin along the
    /// given direction meets in front of the origin, into the caller's
    /// buffer; returns whether any candidate was found. The `_find_all`
    /// flag is accepted for interface compatibility and always treated as
    /// finding all candidates.
    pub fn ray_cast(
        &self,
        ox: i64,
        oy: i64,
        oz: i64,
        dx: i64,
        dy: i64,
        dz: i64,
        candidate_leaf_ids: &mut Vec<usize>,
        _find_all: bool,
    ) -> (hit: bool)
        requires
            self.inv(),
            ray_wf(ox, oy, oz, dx, dy, dz),
        ensures
            self.arena@.len() == 0 ==> final(candidate_leaf_ids)@ == Seq::<usize>::empty(),
            self.arena@.len() > 0 ==> final(candidate_leaf_ids)@ == ray_candidates(
                self.arena@,
                0,
                self.arena@.len() as int,
                ox as int,
                oy as int,
                oz as int,
                dx as int,
                dy as int,
                dz as int,
            ),
            hit == (final(candidate_leaf_ids)@.len() > 0),
    {
        candidate_leaf_ids.clear();
        if self.arena_root < 0 || self.arena.is_empty() {
            return false;
        }
        let ghost arena = self.arena@;
        let ghost len = arena.len() as int;
        let ghost oxi = ox as int;
        let ghost oyi = oy as int;
        let ghost ozi = oz as int;
        let ghost dxi = dx as int;
        let ghost dyi = dy as int;
        let ghost dzi = dz as int;
        let mut stack: Vec<i32> = Vec::new();
        stack.push(0);
        let ghost gstack = seq![(0int, len)];
        proof {
            assert(gstack.drop_last() =~= Seq::<(int, int)>::empty());
            assert(ray_stack_candidates(
                arena,
                Seq::<(int, int)>::empty(),
                oxi,
                oyi,
                ozi,
                dxi,
                dyi,
                dzi,
            ) =~= Seq::<usize>::empty());
            assert(candidate_leaf_ids@ + ray_stack_candidates(
                arena,
                gstack,
                oxi,
                oyi,
                ozi,
                dxi,
                dyi,
                dzi,
            ) =~= ray_candidates(arena, 0, len, oxi, oyi, ozi, dxi, dyi, dzi));
        }
        loop
            invariant
                self.inv(),
                arena == self.arena@,
                len == arena.len() as int,
                1 <= len,
                ray_wf(ox, oy, oz, dx, dy, dz),
                oxi == ox as int && oyi == oy as int && ozi == oz as int,
                dxi == dx as int && dyi == dy as int && dzi == dz as int,
                stack@.len() == gstack.len(),
                forall|k: int| 0 <= k < gstack.len() ==> (#[trigger] gstack[k]).0 == stack@[k] as int,
                stack_wf(arena, gstack),
                candidate_leaf_ids@ + ray_stack_candidates(
                    arena,
                    gstack,
                    oxi,
                    oyi,
                    ozi,
                    dxi,
                    dyi,
                    dzi,
                ) == ray_candidates(arena, 0, len, oxi, oyi, ozi, dxi, dyi, dzi),
            ensures
                candidate_leaf_ids@ == ray_candidates(arena, 0, len, oxi, oyi, ozi, dxi, dyi, dzi),
            decreases stack_measure(gstack),
        {
            let popped = stack.pop();
            let node_idx = match popped {
                Some(v) => v,
                None => {
                    proof {
                        assert(gstack.len() == 0);
                        assert(ray_stack_candidates(arena, gstack, oxi, oyi, ozi, dxi, dyi, dzi)
                            =~= Seq::<usize>::empty());
                        assert(candidate_leaf_ids@ + Seq::<usize>::empty()
                            =~= candidate_leaf_ids@);
                    }
                    break;
                },
            };
            let ghost entry = gstack.last();
            let ghost grest = gstack.drop_last();
            proof {
                assert(wf_subtree(arena, entry.0, entry.1));
                assert(stack_wf(arena, grest));
                lemma_stack_measure_nonneg(arena, grest);
            }
            let ni = node_idx as usize;
            let node = self.arena[ni];
            if !ray_box_hit(ox, oy, oz, dx, dy, dz, &node.aabb) {
                proof {
                    gstack = grest;
                    assert(candidate_leaf_ids@ + ray_stack_candidates(
                        arena,
                        gstack,
                        oxi,
                        oyi,
                        ozi,
                        dxi,
                        dyi,
                        dzi,
                    ) =~= ray_candidates(arena, 0, len, oxi, oyi, ozi, dxi, dyi, dzi));
                }
                continue;
            }
            if node.object_id >= 0 {
                candidate_leaf_ids.push(node.object_id as usize);
                proof {
                    gstack = grest;
                    assert(ray_candidates(arena, entry.0, entry.1, oxi, oyi, ozi, dxi, dyi, dzi)
                        =~= seq![arena[entry.0].object_id as usize]);
                    assert(candidate_leaf_ids@ + ray_stack_candidates(
                        arena,
                        gstack,
                        oxi,
                        oyi,
                        ozi,
                        dxi,
                        dyi,
                        dzi,
                    ) =~= ray_candidates(arena, 0, len, oxi, oyi, ozi, dxi, dyi, dzi));
                }
                continue;
            }
            stack.push(node.left);
            stack.push(node.right);
            proof {
                let r = arena[entry.0].right as int;
                gstack = grest + seq![(entry.0 + 1, r), (r, entry.1)];
                assert(gstack.last() == (r, entry.1));
                assert(gstack.drop_last() =~= grest.push((entry.0 + 1, r)));
                assert((grest.push((entry.0 + 1, r))).drop_last() =~= grest);
                assert((grest.push((entry.0 + 1, r))).last() == (entry.0 + 1, r));
                lemma_stack_measure_nonneg(arena, grest);
                assert(ray_stack_candidates(
                    arena,
                    grest.push((entry.0 + 1, r)),
                    oxi,
                    oyi,
                    ozi,
                    dxi,
                    dyi,
                    dzi,
                ) =~= ray_candidates(arena, entry.0 + 1, r, oxi, oyi, ozi, dxi, dyi, dzi)
                    + ray_stack_candidates(arena, grest, oxi, oyi, ozi, dxi, dyi, dzi));
                assert(stack_measure(grest.push((entry.0 + 1, r))) == 2 * (r - (entry.0 + 1)) + 1
                    + stack_measure(grest));
                assert(stack_measure(gstack) == 2 * (entry.1 - r) + 1 + stack_measure(
                    grest.push((entry.0 + 1, r)),
                ));
                assert(ray_stack_candidates(arena, gstack, oxi, oyi, ozi, dxi, dyi, dzi)
                    =~= ray_candidates(arena, r, entry.1, oxi, oyi, ozi, dxi, dyi, dzi)
                    + ray_candidates(arena, entry.0 + 1, r, oxi, oyi, ozi, dxi, dyi, dzi)
                    + ray_stack_candidates(arena, grest, oxi, oyi, ozi, dxi, dyi, dzi));
                assert(candidate_leaf_ids@ + ray_stack_candidates(
                    arena,
                    gstack,
                    oxi,
                    oyi,
                    ozi,
                    dxi,
                    dyi,
                    dzi,
                ) =~= ray_candidates(arena, 0, len, oxi, oyi, ozi, dxi, dyi, dzi));
            }
        }
        !candidate_leaf_ids.is_empty()
    }
}

/// The ray descent over a freshly built arena reports exactly the objects
/// whose boxes the ray meets in front of its origin.
pub proof fn lemma_ray_cast_exact(
    boxes: Seq<Aabb>,
    ws: int,
    ox: int,
    oy: int,
    oz: int,
    dx: int,
    dy: int,
    dz: int,
    j: usize,
)
    requires
        boxes_wf(boxes),
        1 <= boxes.len() <= 0x2000_0000,
    ensures
        ray_candidates(
            arena_spec(boxes, ws),
            0,
            arena_spec(boxes, ws).len() as int,
            ox,
            oy,
            oz,
            dx,
            dy,
            dz,
        ).contains(j) <==> (j as int) < boxes.len() && ray_hits(
            ox,
            oy,
            oz,
            dx,
            dy,
            dz,
            boxes[j as int].spec_corners(),
        ),
{
    let a = arena_spec(boxes, ws);
    let len = a.len() as int;
    lemma_arena_spec_describes(boxes, ws);
    lemma_ray_candidates_membership(a, 0, len, ox, oy, oz, dx, dy, dz, boxes, j);
    if (j as int) < boxes.len() {
        assert(leaf_with(a, 0, len, j as int));
    }
}

} // verus!
