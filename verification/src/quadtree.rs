//! A point quadtree: a flat arena of nodes, each covering an axis-aligned
//! rectangle, holding up to [`MAX_POINTS`] points directly and splitting
//! lazily into quadrant children when a point arrives at a full node.
//!
//! The arena is append-only: node 0 is always the root, a child's index is
//! always larger than its parent's, and every node but the root is the child
//! of exactly one parent slot.  Both range queries return exactly the stored
//! items that satisfy the range predicate, as a multiset (traversal order is
//! node by node and is not part of the contract).
use vstd::prelude::*;
use vstd::multiset::Multiset;
use vstd::seq_lib::lemma_multiset_commutative;
use crate::vec2::{Vec2, Position, in_coord_bounds, dist2, COORD_LIMIT};

verus! {

broadcast use
    vstd::multiset::group_multiset_axioms,
    vstd::seq_lib::group_to_multiset_ensures,
    vstd::seq_lib::group_seq_lib_default,
;

/// Most items a node holds directly before insertions push points down into
/// quadrant children.
pub const MAX_POINTS: usize = 4;

/// Whether `p` lies in the closed rectangle with corners `lo` and `hi`.
pub open spec fn in_lohi(p: Vec2, lo: Vec2, hi: Vec2) -> bool {
    &&& lo.x <= p.x <= hi.x
    &&& lo.y <= p.y <= hi.y
}

/// Whether `p` lies in the closed rectangle at `top_left` with extent `dims`.
pub open spec fn in_rect_spec(p: Vec2, top_left: Vec2, dims: Vec2) -> bool {
    &&& top_left.x <= p.x <= top_left.x + dims.x
    &&& top_left.y <= p.y <= top_left.y + dims.y
}

/// Whether the closed rectangles `[lo1, hi1]` and `[lo2, hi2]` share a point.
pub open spec fn rects_overlap(lo1: Vec2, hi1: Vec2, lo2: Vec2, hi2: Vec2) -> bool {
    &&& lo1.x <= hi2.x && lo2.x <= hi1.x
    &&& lo1.y <= hi2.y && lo2.y <= hi1.y
}

/// Whether `p` lies in the closed rectangle at `top_left` with equal extents
/// `width` on both axes.
pub fn in_square(point: Vec2, top_left: Vec2, width: i64) -> (r: bool)
    requires
        i64::MIN <= top_left.x + width <= i64::MAX,
        i64::MIN <= top_left.y + width <= i64::MAX,
    ensures
        r == in_rect_spec(point, top_left, Vec2 { x: width, y: width }),
{
    top_left.x <= point.x && point.x <= top_left.x + width && top_left.y <= point.y
        && point.y <= top_left.y + width
}

/// Whether `p` lies in the closed rectangle at `top_left` with extent `dims`.
pub fn in_rect(point: Vec2, top_left: Vec2, dims: Vec2) -> (r: bool)
    requires
        i64::MIN <= top_left.x + dims.x <= i64::MAX,
        i64::MIN <= top_left.y + dims.y <= i64::MAX,
    ensures
        r == in_rect_spec(point, top_left, dims),
{
    top_left.x <= point.x && point.x <= top_left.x + dims.x && top_left.y <= point.y
        && point.y <= top_left.y + dims.y
}

/// Corner-form test that two closed rectangles intersect: they overlap
/// exactly when their extents overlap on both axes separately.
fn rects_intersect(lo1: Vec2, hi1: Vec2, lo2: Vec2, hi2: Vec2) -> (r: bool)
    ensures
        r == rects_overlap(lo1, hi1, lo2, hi2),
{
    lo1.x <= hi2.x && lo2.x <= hi1.x && lo1.y <= hi2.y && lo2.y <= hi1.y
}

/// A point inside both rectangles witnesses that they overlap.
proof fn lemma_point_in_both_overlap(p: Vec2, lo1: Vec2, hi1: Vec2, lo2: Vec2, hi2: Vec2)
    requires
        in_lohi(p, lo1, hi1),
        in_lohi(p, lo2, hi2),
    ensures
        rects_overlap(lo1, hi1, lo2, hi2),
{
}

/// Midpoint used to split a node's extent: the low corner plus half the
/// (non-negative) extent.
pub open spec fn mid_of(lo: int, hi: int) -> int {
    lo + (hi - lo) / 2
}

/// Whether `[clo, chi]` is exactly quadrant `m` of `[plo, phi]`
/// (0 = top-left, 1 = top-right, 2 = bottom-left, 3 = bottom-right;
/// `y` grows downwards, so "top" is the low-`y` half).
pub open spec fn quad_rect_ok(plo: Vec2, phi: Vec2, m: int, clo: Vec2, chi: Vec2) -> bool {
    let mx = mid_of(plo.x as int, phi.x as int);
    let my = mid_of(plo.y as int, phi.y as int);
    if m == 0 {
        clo.x == plo.x && clo.y == plo.y && chi.x == mx && chi.y == my
    } else if m == 1 {
        clo.x == mx && clo.y == plo.y && chi.x == phi.x && chi.y == my
    } else if m == 2 {
        clo.x == plo.x && clo.y == my && chi.x == mx && chi.y == phi.y
    } else {
        clo.x == mx && clo.y == my && chi.x == phi.x && chi.y == phi.y
    }
}

/// Low corner of quadrant `m` of the rectangle `[lo, hi]`.
pub open spec fn quad_lo(lo: Vec2, hi: Vec2, m: int) -> Vec2 {
    let mx = mid_of(lo.x as int, hi.x as int) as i64;
    let my = mid_of(lo.y as int, hi.y as int) as i64;
    if m == 0 {
        lo
    } else if m == 1 {
        Vec2 { x: mx, y: lo.y }
    } else if m == 2 {
        Vec2 { x: lo.x, y: my }
    } else {
        Vec2 { x: mx, y: my }
    }
}

/// High corner of quadrant `m` of the rectangle `[lo, hi]`.
pub open spec fn quad_hi(lo: Vec2, hi: Vec2, m: int) -> Vec2 {
    let mx = mid_of(lo.x as int, hi.x as int) as i64;
    let my = mid_of(lo.y as int, hi.y as int) as i64;
    if m == 0 {
        Vec2 { x: mx, y: my }
    } else if m == 1 {
        Vec2 { x: hi.x, y: my }
    } else if m == 2 {
        Vec2 { x: mx, y: hi.y }
    } else {
        hi
    }
}

/// The quadrant of `[lo, hi]` that a descending point falls into: a point
/// at or left of the midpoint goes left, at or above it goes top
/// (0 = top-left, 1 = top-right, 2 = bottom-left, 3 = bottom-right).
pub open spec fn quadrant_of(lo: Vec2, hi: Vec2, p: Vec2) -> int {
    let mx = mid_of(lo.x as int, hi.x as int);
    let my = mid_of(lo.y as int, hi.y as int);
    if p.x <= mx {
        if p.y <= my {
            0
        } else {
            2
        }
    } else {
        if p.y <= my {
            1
        } else {
            3
        }
    }
}

/// One rectangular region of the tree: up to four direct items, the region's
/// corners, and one optional arena index per quadrant.
pub struct QuadTreeNode<T: Position + Copy> {
    tl_idx: Option<usize>,
    tr_idx: Option<usize>,
    bl_idx: Option<usize>,
    br_idx: Option<usize>,
    lo: Vec2,
    hi: Vec2,
    items: Vec<T>,
}

impl<T: Position + Copy> QuadTreeNode<T> {
    /// Low corner (top-left) of this node's rectangle.
    pub closed spec fn spec_lo(&self) -> Vec2 {
        self.lo
    }

    /// High corner (bottom-right) of this node's rectangle.
    pub closed spec fn spec_hi(&self) -> Vec2 {
        self.hi
    }

    /// The items held directly in this node, in insertion order.
    pub closed spec fn items_view(&self) -> Seq<T> {
        self.items@
    }

    /// Arena index of quadrant child `m`, or -1 when that child is absent.
    pub closed spec fn child_idx(&self, m: int) -> int {
        let c = if m == 0 {
            self.tl_idx
        } else if m == 1 {
            self.tr_idx
        } else if m == 2 {
            self.bl_idx
        } else {
            self.br_idx
        };
        match c {
            Some(i) => i as int,
            None => -1,
        }
    }

    /// The corners are ordered and within [`COORD_LIMIT`].
    pub open spec fn rect_wf(&self) -> bool {
        &&& -COORD_LIMIT <= self.spec_lo().x <= self.spec_hi().x <= COORD_LIMIT
        &&& -COORD_LIMIT <= self.spec_lo().y <= self.spec_hi().y <= COORD_LIMIT
    }

    /// A fresh childless node covering `[top_left, top_left + dims]`.
    pub fn new(top_left: Vec2, dims: Vec2) -> (r: Self)
        requires
            0 <= dims.x,
            0 <= dims.y,
            -COORD_LIMIT <= top_left.x,
            -COORD_LIMIT <= top_left.y,
            top_left.x + dims.x <= COORD_LIMIT,
            top_left.y + dims.y <= COORD_LIMIT,
        ensures
            r.spec_lo() == top_left,
            r.spec_hi() == (Vec2 { x: (top_left.x + dims.x) as i64, y: (top_left.y + dims.y) as i64 }),
            r.items_view() == Seq::<T>::empty(),
            forall|m: int| r.child_idx(m) == -1,
            r.rect_wf(),
    {
        QuadTreeNode {
            tl_idx: None,
            tr_idx: None,
            bl_idx: None,
            br_idx: None,
            lo: top_left,
            hi: Vec2 { x: top_left.x + dims.x, y: top_left.y + dims.y },
            items: Vec::new(),
        }
    }

    /// Append `val` to this node's direct items.
    pub fn push(&mut self, val: &T)
        ensures
            final(self).items_view() == old(self).items_view().push(*val),
            final(self).spec_lo() == old(self).spec_lo(),
            final(self).spec_hi() == old(self).spec_hi(),
            forall|m: int| final(self).child_idx(m) == old(self).child_idx(m),
    {
        self.items.push(*val);
    }

    /// Number of items held directly in this node.
    pub fn len(&self) -> (r: usize)
        ensures
            r == self.items_view().len(),
    {
        self.items.len()
    }

    /// A copy of this node's direct items, in insertion order.
    pub fn get_items(&self) -> (r: Vec<T>)
        ensures
            r@ == self.items_view(),
    {
        let mut out: Vec<T> = Vec::new();
        let mut k: usize = 0;
        while k < self.items.len()
            invariant
                k <= self.items.len(),
                out@ == self.items@.take(k as int),
            decreases self.items.len() - k,
        {
            out.push(self.items[k]);
            proof {
                assert(self.items@.take(k + 1 as int) =~= self.items@.take(k as int).push(
                    self.items@[k as int],
                ));
            }
            k = k + 1;
        }
        proof {
            assert(self.items@.take(self.items@.len() as int) =~= self.items@);
        }
        out
    }

    /// The four child slot indices in the order top-left, top-right,
    /// bottom-left, bottom-right, with 0 standing for an absent child
    /// (node 0 is the root, which is never a child).
    pub fn children(&self) -> (r: Vec<usize>)
        ensures
            r@.len() == 4,
            forall|m: int|
                0 <= m < 4 ==> r@[m] == (if self.child_idx(m) >= 0 {
                    self.child_idx(m)
                } else {
                    0
                }),
    {
        let tl: usize = match self.tl_idx {
            Some(c) => c,
            None => 0,
        };
        let tr: usize = match self.tr_idx {
            Some(c) => c,
            None => 0,
        };
        let bl: usize = match self.bl_idx {
            Some(c) => c,
            None => 0,
        };
        let br: usize = match self.br_idx {
            Some(c) => c,
            None => 0,
        };
        let mut r: Vec<usize> = Vec::new();
        r.push(tl);
        r.push(tr);
        r.push(bl);
        r.push(br);
        r
    }

    /// Top-left corner of this node's rectangle.
    pub fn rect_tl(&self) -> (r: Vec2)
        ensures
            r == self.spec_lo(),
    {
        self.lo
    }

    /// Extent of this node's rectangle on each axis.
    pub fn rect_dims(&self) -> (r: Vec2)
        requires
            self.rect_wf(),
        ensures
            r.x == self.spec_hi().x - self.spec_lo().x,
            r.y == self.spec_hi().y - self.spec_lo().y,
    {
        Vec2 { x: self.hi.x - self.lo.x, y: self.hi.y - self.lo.y }
    }
}

// ---------------------------------------------------------------------------
// The arena as a mathematical value, and insertion as a function on it
// ---------------------------------------------------------------------------

/// One node, as a plain mathematical value: corners, the item sequence, and
/// the four child indices in slot order (-1 for an absent child).
#[verifier::ext_equal]
pub struct NodeModel<T> {
    pub lo: Vec2,
    pub hi: Vec2,
    pub items: Seq<T>,
    pub children: Seq<int>,
}

impl<T: Position + Copy> QuadTreeNode<T> {
    /// This node as a mathematical value.
    pub open spec fn model(&self) -> NodeModel<T> {
        NodeModel {
            lo: self.spec_lo(),
            hi: self.spec_hi(),
            items: self.items_view(),
            children: seq![
                self.child_idx(0),
                self.child_idx(1),
                self.child_idx(2),
                self.child_idx(3),
            ],
        }
    }
}

/// The whole arena as a sequence of mathematical node values.
pub open spec fn arena_models<T: Position + Copy>(ns: Seq<QuadTreeNode<T>>) -> Seq<NodeModel<T>> {
    ns.map_values(|n: QuadTreeNode<T>| n.model())
}

/// What inserting `item` at node `i` does to the arena, exactly as the
/// descent walks it: append to the first node on the quadrant path with
/// room; at a full node whose target quadrant child exists, descend; at a
/// full node whose target quadrant child is absent, hang a fresh leaf
/// holding only the item off that slot.  Ties go left and top: a point at
/// `x <= mid.x` descends left, at `y <= mid.y` top.
pub open spec fn model_insert<T: Position + Copy>(
    ms: Seq<NodeModel<T>>,
    i: int,
    item: T,
) -> Seq<NodeModel<T>>
    decreases ms.len() - i,
{
    if !(0 <= i < ms.len()) {
        ms
    } else if ms[i].items.len() < MAX_POINTS {
        ms.update(
            i,
            NodeModel {
                lo: ms[i].lo,
                hi: ms[i].hi,
                items: ms[i].items.push(item),
                children: ms[i].children,
            },
        )
    } else {
        let m = quadrant_of(ms[i].lo, ms[i].hi, item.posn());
        let c = ms[i].children[m];
        if i < c < ms.len() {
            model_insert(ms, c, item)
        } else {
            ms.update(
                i,
                NodeModel {
                    lo: ms[i].lo,
                    hi: ms[i].hi,
                    items: ms[i].items,
                    children: ms[i].children.update(m, ms.len() as int),
                },
            ).push(
                NodeModel {
                    lo: quad_lo(ms[i].lo, ms[i].hi, m),
                    hi: quad_hi(ms[i].lo, ms[i].hi, m),
                    items: seq![item],
                    children: seq![-1int, -1int, -1int, -1int],
                },
            )
        }
    }
}

// ---------------------------------------------------------------------------
// Arena well-formedness
// ---------------------------------------------------------------------------

/// Child slot `m` of node `i`, when present, names a later in-range node
/// whose rectangle is exactly quadrant `m` of node `i`'s rectangle.
pub open spec fn child_ok<T: Position + Copy>(ns: Seq<QuadTreeNode<T>>, i: int, m: int) -> bool {
    let c = ns[i].child_idx(m);
    c >= 0 ==> {
        &&& i < c < ns.len()
        &&& quad_rect_ok(ns[i].spec_lo(), ns[i].spec_hi(), m, ns[c].spec_lo(), ns[c].spec_hi())
    }
}

/// Local well-formedness of node `i`: an ordered bounded rectangle, at most
/// [`MAX_POINTS`] direct items all lying inside the rectangle, and valid
/// child slots.
pub open spec fn node_ok<T: Position + Copy>(ns: Seq<QuadTreeNode<T>>, i: int) -> bool {
    &&& ns[i].rect_wf()
    &&& ns[i].items_view().len() <= MAX_POINTS
    &&& forall|k: int|
        0 <= k < ns[i].items_view().len() ==> in_lohi(
            (#[trigger] ns[i].items_view()[k]).posn(),
            ns[i].spec_lo(),
            ns[i].spec_hi(),
        )
    &&& forall|m: int| 0 <= m < 4 ==> #[trigger] child_ok(ns, i, m)
}

pub open spec fn all_nodes_ok<T: Position + Copy>(ns: Seq<QuadTreeNode<T>>) -> bool {
    forall|i: int| 0 <= i < ns.len() ==> #[trigger] node_ok(ns, i)
}

/// `c` is the child named by slot `m` of node `p`.
pub open spec fn is_child_edge<T: Position + Copy>(
    ns: Seq<QuadTreeNode<T>>,
    p: int,
    m: int,
    c: int,
) -> bool {
    &&& 0 <= p < ns.len()
    &&& 0 <= m < 4
    &&& c >= 0
    &&& ns[p].child_idx(m) == c
}

/// Every node is named by at most one child slot of at most one parent.
pub open spec fn unique_parents<T: Position + Copy>(ns: Seq<QuadTreeNode<T>>) -> bool {
    forall|p1: int, m1: int, p2: int, m2: int, c: int|
        #[trigger] is_child_edge(ns, p1, m1, c) && #[trigger] is_child_edge(ns, p2, m2, c) ==> p1
            == p2 && m1 == m2
}

/// The items of nodes `0 .. k`, concatenated in arena order.
pub open spec fn flat_to<T: Position + Copy>(ns: Seq<QuadTreeNode<T>>, k: int) -> Seq<T>
    decreases k,
{
    if k <= 0 {
        Seq::empty()
    } else {
        flat_to(ns, k - 1) + ns[k - 1].items_view()
    }
}

/// The items of the subtree rooted at node `i`: its own items, then the
/// subtrees of its four quadrant children in order.
pub open spec fn subtree_items<T: Position + Copy>(ns: Seq<QuadTreeNode<T>>, i: int) -> Seq<T>
    decreases ns.len() - i, 1int,
{
    if 0 <= i < ns.len() {
        ns[i].items_view() + child_sub(ns, i, 0) + child_sub(ns, i, 1) + child_sub(ns, i, 2)
            + child_sub(ns, i, 3)
    } else {
        Seq::empty()
    }
}

/// The items of the subtree under child slot `m` of node `i`, or the empty
/// sequence when the slot is absent or names an out-of-order index.
pub open spec fn child_sub<T: Position + Copy>(ns: Seq<QuadTreeNode<T>>, i: int, m: int) -> Seq<T>
    decreases ns.len() - i, 0int,
{
    let c = ns[i].child_idx(m);
    if 0 <= i < ns.len() && i < c < ns.len() {
        subtree_items(ns, c)
    } else {
        Seq::empty()
    }
}

/// Whether node `j` belongs to the subtree rooted at node `r`.
pub open spec fn in_subtree<T: Position + Copy>(ns: Seq<QuadTreeNode<T>>, r: int, j: int) -> bool
    decreases ns.len() - r, 1int,
{
    0 <= r < ns.len() && (r == j || in_child_sub(ns, r, 0, j) || in_child_sub(ns, r, 1, j)
        || in_child_sub(ns, r, 2, j) || in_child_sub(ns, r, 3, j))
}

/// Whether node `j` belongs to the subtree under child slot `m` of node `r`.
pub open spec fn in_child_sub<T: Position + Copy>(
    ns: Seq<QuadTreeNode<T>>,
    r: int,
    m: int,
    j: int,
) -> bool
    decreases ns.len() - r, 0int,
{
    let c = ns[r].child_idx(m);
    0 <= r < ns.len() && r < c < ns.len() && in_subtree(ns, c, j)
}

// ---------------------------------------------------------------------------
// Structural lemmas about the arena forest
// ---------------------------------------------------------------------------

/// Splitting an extent at its midpoint keeps the midpoint inside the extent.
proof fn lemma_mid_between(lo: int, hi: int)
    requires
        lo <= hi,
    ensures
        lo <= mid_of(lo, hi) <= hi,
{
    let d = hi - lo;
    vstd::arithmetic::div_mod::lemma_fundamental_div_mod(d, 2);
}

/// Subtree membership only names in-range nodes at or after the root of the
/// subtree: child indices strictly increase along every path.
proof fn lemma_in_subtree_le<T: Position + Copy>(ns: Seq<QuadTreeNode<T>>, r: int, j: int)
    requires
        in_subtree(ns, r, j),
    ensures
        0 <= r <= j < ns.len(),
    decreases ns.len() - r,
{
    if r != j {
        if in_child_sub(ns, r, 0, j) {
            lemma_in_subtree_le(ns, ns[r].child_idx(0), j);
        } else if in_child_sub(ns, r, 1, j) {
            lemma_in_subtree_le(ns, ns[r].child_idx(1), j);
        } else if in_child_sub(ns, r, 2, j) {
            lemma_in_subtree_le(ns, ns[r].child_idx(2), j);
        } else {
            lemma_in_subtree_le(ns, ns[r].child_idx(3), j);
        }
    }
}

/// If two arenas agree on every node of a subtree (and the second is at
/// least as long), the subtree reads the same in both.
proof fn lemma_subtree_frame<T: Position + Copy>(
    ns1: Seq<QuadTreeNode<T>>,
    ns2: Seq<QuadTreeNode<T>>,
    r: int,
)
    requires
        all_nodes_ok(ns1),
        0 <= r < ns1.len(),
        ns2.len() >= ns1.len(),
        forall|j: int| #[trigger] in_subtree(ns1, r, j) ==> ns2[j] == ns1[j],
    ensures
        subtree_items(ns2, r) == subtree_items(ns1, r),
        forall|j: int| #[trigger] in_subtree(ns2, r, j) == in_subtree(ns1, r, j),
    decreases ns1.len() - r, 1int,
{
    assert(in_subtree(ns1, r, r));
    assert(ns2[r] == ns1[r]);
    assert(node_ok(ns1, r));
    lemma_subtree_frame_child(ns1, ns2, r, 0);
    lemma_subtree_frame_child(ns1, ns2, r, 1);
    lemma_subtree_frame_child(ns1, ns2, r, 2);
    lemma_subtree_frame_child(ns1, ns2, r, 3);
    assert(subtree_items(ns2, r) == subtree_items(ns1, r));
    assert forall|j: int| #[trigger] in_subtree(ns2, r, j) == in_subtree(ns1, r, j) by {
        assert(in_child_sub(ns2, r, 0, j) == in_child_sub(ns1, r, 0, j));
        assert(in_child_sub(ns2, r, 1, j) == in_child_sub(ns1, r, 1, j));
        assert(in_child_sub(ns2, r, 2, j) == in_child_sub(ns1, r, 2, j));
        assert(in_child_sub(ns2, r, 3, j) == in_child_sub(ns1, r, 3, j));
    }
}

/// One-child case of [`lemma_subtree_frame`].
proof fn lemma_subtree_frame_child<T: Position + Copy>(
    ns1: Seq<QuadTreeNode<T>>,
    ns2: Seq<QuadTreeNode<T>>,
    r: int,
    m: int,
)
    requires
        all_nodes_ok(ns1),
        0 <= r < ns1.len(),
        0 <= m < 4,
        ns2.len() >= ns1.len(),
        ns2[r].child_idx(m) == ns1[r].child_idx(m),
        forall|j: int| #[trigger] in_subtree(ns1, r, j) ==> ns2[j] == ns1[j],
    ensures
        child_sub(ns2, r, m) == child_sub(ns1, r, m),
        forall|j: int| #[trigger] in_child_sub(ns2, r, m, j) == in_child_sub(ns1, r, m, j),
    decreases ns1.len() - r, 0int,
{
    let c = ns1[r].child_idx(m);
    assert(node_ok(ns1, r));
    assert(child_ok(ns1, r, m));
    if r < c {
        assert forall|j: int| #[trigger] in_subtree(ns1, c, j) implies ns2[j] == ns1[j] by {
            lemma_in_subtree_le(ns1, c, j);
            assert(in_child_sub(ns1, r, m, j));
            assert(in_subtree(ns1, r, j));
        }
        lemma_subtree_frame(ns1, ns2, c);
        assert(child_sub(ns2, r, m) == subtree_items(ns2, c));
        assert(child_sub(ns1, r, m) == subtree_items(ns1, c));
        assert forall|j: int| #[trigger] in_child_sub(ns2, r, m, j) == in_child_sub(
            ns1,
            r,
            m,
            j,
        ) by {
            assert(in_subtree(ns2, c, j) == in_subtree(ns1, c, j));
        }
    } else {
        assert(c < 0);
        assert(child_sub(ns2, r, m) == Seq::<T>::empty());
        assert(child_sub(ns1, r, m) == Seq::<T>::empty());
        assert forall|j: int| #[trigger] in_child_sub(ns2, r, m, j) == in_child_sub(
            ns1,
            r,
            m,
            j,
        ) by {
            assert(!in_child_sub(ns2, r, m, j));
            assert(!in_child_sub(ns1, r, m, j));
        }
    }
}

/// A strict descendant has a parent edge, and that parent is itself in the
/// subtree one started from.
proof fn lemma_parent_of_subtree<T: Position + Copy>(
    ns: Seq<QuadTreeNode<T>>,
    c: int,
    j: int,
) -> (pm: (int, int))
    requires
        all_nodes_ok(ns),
        in_subtree(ns, c, j),
        c != j,
    ensures
        is_child_edge(ns, pm.0, pm.1, j),
        in_subtree(ns, c, pm.0),
    decreases ns.len() - c,
{
    let m: int = if in_child_sub(ns, c, 0, j) {
        0
    } else if in_child_sub(ns, c, 1, j) {
        1
    } else if in_child_sub(ns, c, 2, j) {
        2
    } else {
        3
    };
    assert(in_child_sub(ns, c, m, j));
    let d = ns[c].child_idx(m);
    if d == j {
        assert(in_subtree(ns, c, c));
        (c, m)
    } else {
        let pm = lemma_parent_of_subtree(ns, d, j);
        assert(in_child_sub(ns, c, m, pm.0));
        pm
    }
}

/// Subtrees hanging off two different child slots of one node are disjoint.
proof fn lemma_sibling_disjoint<T: Position + Copy>(
    ns: Seq<QuadTreeNode<T>>,
    p: int,
    m1: int,
    m2: int,
    j: int,
)
    requires
        all_nodes_ok(ns),
        unique_parents(ns),
        0 <= p < ns.len(),
        0 <= m1 < 4,
        0 <= m2 < 4,
        m1 != m2,
        ns[p].child_idx(m1) >= 0,
        ns[p].child_idx(m2) >= 0,
        in_subtree(ns, ns[p].child_idx(m1), j),
    ensures
        !in_subtree(ns, ns[p].child_idx(m2), j),
    decreases j,
{
    let c1 = ns[p].child_idx(m1);
    let c2 = ns[p].child_idx(m2);
    assert(node_ok(ns, p));
    assert(child_ok(ns, p, m1));
    assert(child_ok(ns, p, m2));
    assert(is_child_edge(ns, p, m1, c1));
    assert(is_child_edge(ns, p, m2, c2));
    assert(c1 != c2);
    lemma_in_subtree_le(ns, c1, j);
    if in_subtree(ns, c2, j) {
        lemma_in_subtree_le(ns, c2, j);
        if c1 == j {
            let pm = lemma_parent_of_subtree(ns, c2, j);
            assert(pm.0 == p && pm.1 == m1);
            lemma_in_subtree_le(ns, c2, p);
            assert(false);
        } else if c2 == j {
            let pm = lemma_parent_of_subtree(ns, c1, j);
            assert(pm.0 == p && pm.1 == m2);
            lemma_in_subtree_le(ns, c1, p);
            assert(false);
        } else {
            let pm1 = lemma_parent_of_subtree(ns, c1, j);
            let pm2 = lemma_parent_of_subtree(ns, c2, j);
            assert(pm1.0 == pm2.0 && pm1.1 == pm2.1);
            let q = pm1.0;
            assert(node_ok(ns, q));
            assert(child_ok(ns, q, pm1.1));
            assert(q < j);
            lemma_in_subtree_le(ns, c1, q);
            lemma_sibling_disjoint(ns, p, m1, m2, q);
            assert(false);
        }
    }
}

/// Multiset of a five-way concatenation, term by term.
proof fn lemma_ms_concat5<A>(s0: Seq<A>, s1: Seq<A>, s2: Seq<A>, s3: Seq<A>, s4: Seq<A>)
    ensures
        (s0 + s1 + s2 + s3 + s4).to_multiset() == s0.to_multiset().add(s1.to_multiset()).add(
            s2.to_multiset(),
        ).add(s3.to_multiset()).add(s4.to_multiset()),
{
    lemma_multiset_commutative(s0, s1);
    lemma_multiset_commutative(s0 + s1, s2);
    lemma_multiset_commutative(s0 + s1 + s2, s3);
    lemma_multiset_commutative(s0 + s1 + s2 + s3, s4);
}

/// When the subtree under one child slot of node `i` gains item `x` (as a
/// multiset) and nothing outside that child's subtree changes, the whole
/// subtree of `i` gains exactly `x`.
proof fn lemma_subtree_reassemble<T: Position + Copy>(
    ns1: Seq<QuadTreeNode<T>>,
    ns2: Seq<QuadTreeNode<T>>,
    i: int,
    m: int,
    x: T,
)
    requires
        all_nodes_ok(ns1),
        unique_parents(ns1),
        0 <= i < ns1.len(),
        0 <= m < 4,
        ns1[i].child_idx(m) >= 0,
        ns2.len() >= ns1.len(),
        forall|j: int|
            0 <= j < ns1.len() && !in_subtree(ns1, ns1[i].child_idx(m), j) ==> ns2[j] == ns1[j],
        subtree_items(ns2, ns1[i].child_idx(m)).to_multiset() == subtree_items(
            ns1,
            ns1[i].child_idx(m),
        ).to_multiset().insert(x),
    ensures
        subtree_items(ns2, i).to_multiset() == subtree_items(ns1, i).to_multiset().insert(x),
{
    let c = ns1[i].child_idx(m);
    assert(node_ok(ns1, i));
    assert(child_ok(ns1, i, m));
    if in_subtree(ns1, c, i) {
        lemma_in_subtree_le(ns1, c, i);
        assert(false);
    }
    assert(ns2[i] == ns1[i]);
    assert forall|m2: int| 0 <= m2 < 4 && m2 != m implies child_sub(ns2, i, m2) == child_sub(
        ns1,
        i,
        m2,
    ) by {
        let c2 = ns1[i].child_idx(m2);
        assert(child_ok(ns1, i, m2));
        if c2 >= 0 {
            assert forall|j: int| #[trigger] in_subtree(ns1, c2, j) implies ns2[j] == ns1[j] by {
                lemma_in_subtree_le(ns1, c2, j);
                lemma_sibling_disjoint(ns1, i, m2, m, j);
            }
            lemma_subtree_frame(ns1, ns2, c2);
            assert(child_sub(ns2, i, m2) == subtree_items(ns2, c2));
            assert(child_sub(ns1, i, m2) == subtree_items(ns1, c2));
        } else {
            assert(child_sub(ns2, i, m2) == Seq::<T>::empty());
            assert(child_sub(ns1, i, m2) == Seq::<T>::empty());
        }
    }
    assert(child_sub(ns2, i, m) == subtree_items(ns2, c));
    assert(child_sub(ns1, i, m) == subtree_items(ns1, c));
    lemma_ms_concat5(
        ns1[i].items_view(),
        child_sub(ns1, i, 0),
        child_sub(ns1, i, 1),
        child_sub(ns1, i, 2),
        child_sub(ns1, i, 3),
    );
    lemma_ms_concat5(
        ns2[i].items_view(),
        child_sub(ns2, i, 0),
        child_sub(ns2, i, 1),
        child_sub(ns2, i, 2),
        child_sub(ns2, i, 3),
    );
    assert(subtree_items(ns2, i).to_multiset() =~= subtree_items(ns1, i).to_multiset().insert(x));
}

/// Appending an item to the direct items of node `k` adds exactly that item
/// to `k`'s subtree, as a multiset.
proof fn lemma_subtree_local_push<T: Position + Copy>(
    ns1: Seq<QuadTreeNode<T>>,
    ns2: Seq<QuadTreeNode<T>>,
    k: int,
    x: T,
)
    requires
        all_nodes_ok(ns1),
        0 <= k < ns1.len(),
        ns2.len() >= ns1.len(),
        ns2[k].items_view() == ns1[k].items_view().push(x),
        forall|m: int| ns2[k].child_idx(m) == ns1[k].child_idx(m),
        forall|j: int| 0 <= j < ns1.len() && j != k ==> ns2[j] == ns1[j],
    ensures
        subtree_items(ns2, k).to_multiset() == subtree_items(ns1, k).to_multiset().insert(x),
{
    assert(node_ok(ns1, k));
    assert forall|m2: int| 0 <= m2 < 4 implies child_sub(ns2, k, m2) == child_sub(ns1, k, m2) by {
        let c2 = ns1[k].child_idx(m2);
        assert(child_ok(ns1, k, m2));
        if c2 >= 0 {
            assert forall|j: int| #[trigger] in_subtree(ns1, c2, j) implies ns2[j] == ns1[j] by {
                lemma_in_subtree_le(ns1, c2, j);
            }
            lemma_subtree_frame(ns1, ns2, c2);
            assert(child_sub(ns2, k, m2) == subtree_items(ns2, c2));
            assert(child_sub(ns1, k, m2) == subtree_items(ns1, c2));
        } else {
            assert(child_sub(ns2, k, m2) == Seq::<T>::empty());
            assert(child_sub(ns1, k, m2) == Seq::<T>::empty());
        }
    }
    lemma_ms_concat5(
        ns1[k].items_view(),
        child_sub(ns1, k, 0),
        child_sub(ns1, k, 1),
        child_sub(ns1, k, 2),
        child_sub(ns1, k, 3),
    );
    lemma_ms_concat5(
        ns2[k].items_view(),
        child_sub(ns2, k, 0),
        child_sub(ns2, k, 1),
        child_sub(ns2, k, 2),
        child_sub(ns2, k, 3),
    );
    assert(subtree_items(ns2, k).to_multiset() =~= subtree_items(ns1, k).to_multiset().insert(x));
}

/// Hanging a fresh leaf holding exactly `x` off an empty child slot of node
/// `k` adds exactly `x` to `k`'s subtree, as a multiset.
proof fn lemma_subtree_local_new_child<T: Position + Copy>(
    ns1: Seq<QuadTreeNode<T>>,
    ns2: Seq<QuadTreeNode<T>>,
    k: int,
    m: int,
    x: T,
)
    requires
        all_nodes_ok(ns1),
        0 <= k < ns1.len(),
        0 <= m < 4,
        ns1[k].child_idx(m) == -1,
        ns2.len() == ns1.len() + 1,
        ns2[k].items_view() == ns1[k].items_view(),
        ns2[k].child_idx(m) == ns1.len(),
        forall|m2: int| 0 <= m2 < 4 && m2 != m ==> ns2[k].child_idx(m2) == ns1[k].child_idx(m2),
        forall|j: int| 0 <= j < ns1.len() && j != k ==> ns2[j] == ns1[j],
        ns2[ns1.len() as int].items_view() == seq![x],
        forall|m2: int| ns2[ns1.len() as int].child_idx(m2) == -1,
    ensures
        subtree_items(ns2, k).to_multiset() == subtree_items(ns1, k).to_multiset().insert(x),
{
    let w = ns1.len() as int;
    assert(node_ok(ns1, k));
    // the fresh leaf's subtree is exactly seq![x]
    assert(child_sub(ns2, w, 0) == Seq::<T>::empty());
    assert(child_sub(ns2, w, 1) == Seq::<T>::empty());
    assert(child_sub(ns2, w, 2) == Seq::<T>::empty());
    assert(child_sub(ns2, w, 3) == Seq::<T>::empty());
    assert(subtree_items(ns2, w) =~= seq![x]);
    // slot m held nothing before and holds the leaf now
    assert(child_sub(ns1, k, m) == Seq::<T>::empty());
    assert(child_sub(ns2, k, m) == subtree_items(ns2, w));
    // the other slots are untouched
    assert forall|m2: int| 0 <= m2 < 4 && m2 != m implies child_sub(ns2, k, m2) == child_sub(
        ns1,
        k,
        m2,
    ) by {
        let c2 = ns1[k].child_idx(m2);
        assert(child_ok(ns1, k, m2));
        if c2 >= 0 {
            assert forall|j: int| #[trigger] in_subtree(ns1, c2, j) implies ns2[j] == ns1[j] by {
                lemma_in_subtree_le(ns1, c2, j);
            }
            lemma_subtree_frame(ns1, ns2, c2);
            assert(child_sub(ns2, k, m2) == subtree_items(ns2, c2));
            assert(child_sub(ns1, k, m2) == subtree_items(ns1, c2));
        } else {
            assert(child_sub(ns2, k, m2) == Seq::<T>::empty());
            assert(child_sub(ns1, k, m2) == Seq::<T>::empty());
        }
    }
    lemma_ms_concat5(
        ns1[k].items_view(),
        child_sub(ns1, k, 0),
        child_sub(ns1, k, 1),
        child_sub(ns1, k, 2),
        child_sub(ns1, k, 3),
    );
    lemma_ms_concat5(
        ns2[k].items_view(),
        child_sub(ns2, k, 0),
        child_sub(ns2, k, 1),
        child_sub(ns2, k, 2),
        child_sub(ns2, k, 3),
    );
    assert(seq![x].to_multiset() =~= Multiset::<T>::empty().insert(x)) by {
        assert(seq![x] =~= Seq::<T>::empty().push(x));
    }
    assert(subtree_items(ns2, k).to_multiset() =~= subtree_items(ns1, k).to_multiset().insert(x));
}

// ---------------------------------------------------------------------------
// Lemmas about the flat arena contents
// ---------------------------------------------------------------------------

/// Arenas with equal direct items below `upto` have equal flat prefixes.
proof fn lemma_flat_pointwise<T: Position + Copy>(
    ns1: Seq<QuadTreeNode<T>>,
    ns2: Seq<QuadTreeNode<T>>,
    upto: int,
)
    requires
        forall|j: int| 0 <= j < upto ==> ns1[j].items_view() == ns2[j].items_view(),
    ensures
        flat_to(ns1, upto) == flat_to(ns2, upto),
    decreases upto,
{
    if upto > 0 {
        lemma_flat_pointwise(ns1, ns2, upto - 1);
    }
}

/// Pushing `x` onto the direct items of node `k` inserts `x` into the flat
/// contents of any prefix that covers node `k`.
proof fn lemma_flat_update_push<T: Position + Copy>(
    ns1: Seq<QuadTreeNode<T>>,
    ns2: Seq<QuadTreeNode<T>>,
    k: int,
    x: T,
    upto: int,
)
    requires
        0 <= k < ns1.len(),
        ns2[k].items_view() == ns1[k].items_view().push(x),
        forall|j: int| 0 <= j < ns1.len() && j != k ==> ns2[j].items_view() == ns1[j].items_view(),
        0 <= upto <= ns1.len(),
    ensures
        upto > k ==> flat_to(ns2, upto).to_multiset() == flat_to(ns1, upto).to_multiset().insert(
            x,
        ),
        upto <= k ==> flat_to(ns2, upto) == flat_to(ns1, upto),
    decreases upto,
{
    if upto > 0 {
        lemma_flat_update_push(ns1, ns2, k, x, upto - 1);
        lemma_multiset_commutative(flat_to(ns1, upto - 1), ns1[upto - 1].items_view());
        lemma_multiset_commutative(flat_to(ns2, upto - 1), ns2[upto - 1].items_view());
        if upto - 1 == k {
            assert(ns2[k].items_view().to_multiset() =~= ns1[k].items_view().to_multiset().insert(
                x,
            ));
            assert(flat_to(ns2, upto).to_multiset() =~= flat_to(ns1, upto).to_multiset().insert(
                x,
            ));
        } else if upto > k {
            assert(flat_to(ns2, upto).to_multiset() =~= flat_to(ns1, upto).to_multiset().insert(
                x,
            ));
        }
    }
}

// ---------------------------------------------------------------------------
// Containment: a subtree only holds points inside its root rectangle
// ---------------------------------------------------------------------------

/// Each child quadrant lies within its parent's rectangle.
proof fn lemma_quad_in_parent(plo: Vec2, phi: Vec2, m: int, clo: Vec2, chi: Vec2)
    requires
        plo.x <= phi.x,
        plo.y <= phi.y,
        quad_rect_ok(plo, phi, m, clo, chi),
        0 <= m < 4,
    ensures
        plo.x <= clo.x,
        plo.y <= clo.y,
        chi.x <= phi.x,
        chi.y <= phi.y,
        clo.x <= chi.x,
        clo.y <= chi.y,
    decreases 0int,
{
    lemma_mid_between(plo.x as int, phi.x as int);
    lemma_mid_between(plo.y as int, phi.y as int);
}

/// Every item in the subtree of node `r` lies inside node `r`'s rectangle.
proof fn lemma_subtree_in_rect<T: Position + Copy>(ns: Seq<QuadTreeNode<T>>, r: int)
    requires
        all_nodes_ok(ns),
        0 <= r < ns.len(),
    ensures
        forall|q: int|
            0 <= q < subtree_items(ns, r).len() ==> in_lohi(
                (#[trigger] subtree_items(ns, r)[q]).posn(),
                ns[r].spec_lo(),
                ns[r].spec_hi(),
            ),
    decreases ns.len() - r, 1int,
{
    assert(node_ok(ns, r));
    lemma_child_sub_in_rect(ns, r, 0);
    lemma_child_sub_in_rect(ns, r, 1);
    lemma_child_sub_in_rect(ns, r, 2);
    lemma_child_sub_in_rect(ns, r, 3);
    assert forall|q: int| 0 <= q < subtree_items(ns, r).len() implies in_lohi(
        (#[trigger] subtree_items(ns, r)[q]).posn(),
        ns[r].spec_lo(),
        ns[r].spec_hi(),
    ) by {
        let s0 = ns[r].items_view();
        let s1 = child_sub(ns, r, 0);
        let s2 = child_sub(ns, r, 1);
        let s3 = child_sub(ns, r, 2);
        let s4 = child_sub(ns, r, 3);
        let t = subtree_items(ns, r)[q];
        assert(subtree_items(ns, r) == s0 + s1 + s2 + s3 + s4);
        if q < s0.len() {
            assert(t == s0[q]);
        } else if q < s0.len() + s1.len() {
            assert(t == s1[q - s0.len()]);
        } else if q < s0.len() + s1.len() + s2.len() {
            assert(t == s2[q - s0.len() - s1.len()]);
        } else if q < s0.len() + s1.len() + s2.len() + s3.len() {
            assert(t == s3[q - s0.len() - s1.len() - s2.len()]);
        } else {
            assert(t == s4[q - s0.len() - s1.len() - s2.len() - s3.len()]);
        }
    }
}

/// Every item under child slot `m` of node `r` lies inside node `r`'s
/// rectangle.
proof fn lemma_child_sub_in_rect<T: Position + Copy>(ns: Seq<QuadTreeNode<T>>, r: int, m: int)
    requires
        all_nodes_ok(ns),
        0 <= r < ns.len(),
        0 <= m < 4,
    ensures
        forall|q: int|
            0 <= q < child_sub(ns, r, m).len() ==> in_lohi(
                (#[trigger] child_sub(ns, r, m)[q]).posn(),
                ns[r].spec_lo(),
                ns[r].spec_hi(),
            ),
    decreases ns.len() - r, 0int,
{
    let c = ns[r].child_idx(m);
    assert(node_ok(ns, r));
    assert(child_ok(ns, r, m));
    if c >= 0 {
        lemma_subtree_in_rect(ns, c);
        assert(ns[r].rect_wf());
        lemma_quad_in_parent(
            ns[r].spec_lo(),
            ns[r].spec_hi(),
            m,
            ns[c].spec_lo(),
            ns[c].spec_hi(),
        );
        assert(child_sub(ns, r, m) == subtree_items(ns, c));
        assert forall|q: int| 0 <= q < child_sub(ns, r, m).len() implies in_lohi(
            (#[trigger] child_sub(ns, r, m)[q]).posn(),
            ns[r].spec_lo(),
            ns[r].spec_hi(),
        ) by {
            assert(child_sub(ns, r, m)[q] == subtree_items(ns, c)[q]);
            assert(in_lohi(subtree_items(ns, c)[q].posn(), ns[c].spec_lo(), ns[c].spec_hi()));
        }
    }
}

// ---------------------------------------------------------------------------
// Filters and multisets
// ---------------------------------------------------------------------------

/// Filtering a sequence and taking its multiset commutes with taking the
/// multiset and filtering it.
pub proof fn lemma_filter_to_multiset<A>(s: Seq<A>, p: spec_fn(A) -> bool)
    ensures
        s.filter(p).to_multiset() == s.to_multiset().filter(p),
    decreases s.len(),
{
    reveal(Seq::filter);
    if s.len() == 0 {
        assert(s.filter(p) == s);
        assert(s.to_multiset() =~= Multiset::<A>::empty());
        assert(s.filter(p).to_multiset() =~= s.to_multiset().filter(p));
    } else {
        let d = s.drop_last();
        lemma_filter_to_multiset(d, p);
        assert(s =~= d.push(s.last()));
        assert(s.to_multiset() == d.push(s.last()).to_multiset());
        if p(s.last()) {
            assert(s.filter(p) == d.filter(p).push(s.last()));
            assert(s.filter(p).to_multiset() =~= s.to_multiset().filter(p));
        } else {
            assert(s.filter(p) == d.filter(p));
            assert(s.filter(p).to_multiset() =~= s.to_multiset().filter(p));
        }
    }
}

/// Two filters in a row are the filter of the conjunction.
pub proof fn lemma_ms_filter_compose<A>(
    m: Multiset<A>,
    p: spec_fn(A) -> bool,
    q: spec_fn(A) -> bool,
    pq: spec_fn(A) -> bool,
)
    requires
        forall|a: A| #[trigger] pq(a) == (p(a) && q(a)),
    ensures
        m.filter(p).filter(q) == m.filter(pq),
{
    assert(m.filter(p).filter(q) =~= m.filter(pq));
}

/// Pointwise-equal predicates filter a multiset identically.
pub proof fn lemma_ms_filter_equiv<A>(m: Multiset<A>, p: spec_fn(A) -> bool, q: spec_fn(A) -> bool)
    requires
        forall|a: A| #[trigger] p(a) == q(a),
    ensures
        m.filter(p) == m.filter(q),
{
    assert(m.filter(p) =~= m.filter(q));
}

/// Predicates that agree on a sequence's elements filter it identically.
pub proof fn lemma_filter_congruence<A>(s: Seq<A>, p: spec_fn(A) -> bool, q: spec_fn(A) -> bool)
    requires
        forall|k: int| 0 <= k < s.len() ==> p(#[trigger] s[k]) == q(s[k]),
    ensures
        s.filter(p) == s.filter(q),
    decreases s.len(),
{
    reveal(Seq::filter);
    if s.len() > 0 {
        lemma_filter_congruence(s.drop_last(), p, q);
        assert(s.last() == s[s.len() - 1]);
    }
}

/// When `q` implies `p`, filtering by `p` first changes nothing: the
/// narrower filter alone keeps the same elements in the same order.
pub proof fn lemma_filter_absorb<A>(s: Seq<A>, p: spec_fn(A) -> bool, q: spec_fn(A) -> bool)
    requires
        forall|a: A| #[trigger] q(a) ==> p(a),
    ensures
        s.filter(p).filter(q) == s.filter(q),
    decreases s.len(),
{
    reveal(Seq::filter);
    if s.len() > 0 {
        let d = s.drop_last();
        let x = s.last();
        lemma_filter_absorb(d, p, q);
        if p(x) {
            assert(s.filter(p) == d.filter(p).push(x));
            lemma_filter_push(d.filter(p), x, q);
        } else {
            assert(!q(x));
            assert(s.filter(p) == d.filter(p));
        }
    }
}

/// A filter nothing satisfies is empty.
pub proof fn lemma_filter_all_false<A>(s: Seq<A>, p: spec_fn(A) -> bool)
    requires
        forall|k: int| 0 <= k < s.len() ==> !p(#[trigger] s[k]),
    ensures
        s.filter(p) == Seq::<A>::empty(),
    decreases s.len(),
{
    reveal(Seq::filter);
    if s.len() > 0 {
        lemma_filter_all_false(s.drop_last(), p);
    }
}

/// Pushing an in-rectangle item onto a node with room keeps the whole arena
/// well formed.
proof fn lemma_nodes_ok_after_push<T: Position + Copy>(
    ns1: Seq<QuadTreeNode<T>>,
    ns2: Seq<QuadTreeNode<T>>,
    k: int,
    x: T,
)
    requires
        all_nodes_ok(ns1),
        unique_parents(ns1),
        0 <= k < ns1.len(),
        ns2.len() == ns1.len(),
        ns2[k].items_view() == ns1[k].items_view().push(x),
        ns1[k].items_view().len() < MAX_POINTS,
        ns2[k].spec_lo() == ns1[k].spec_lo(),
        ns2[k].spec_hi() == ns1[k].spec_hi(),
        forall|m: int| ns2[k].child_idx(m) == ns1[k].child_idx(m),
        forall|j: int| 0 <= j < ns1.len() && j != k ==> ns2[j] == ns1[j],
        in_lohi(x.posn(), ns1[k].spec_lo(), ns1[k].spec_hi()),
    ensures
        all_nodes_ok(ns2),
        unique_parents(ns2),
{
    assert forall|j: int| 0 <= j < ns2.len() implies node_ok(ns2, j) by {
        assert(node_ok(ns1, j));
        if j == k {
            assert forall|q: int| 0 <= q < ns2[k].items_view().len() implies in_lohi(
                (#[trigger] ns2[k].items_view()[q]).posn(),
                ns2[k].spec_lo(),
                ns2[k].spec_hi(),
            ) by {
                if q < ns1[k].items_view().len() {
                    assert(ns2[k].items_view()[q] == ns1[k].items_view()[q]);
                } else {
                    assert(ns2[k].items_view()[q] == x);
                }
            }
        }
        assert forall|m: int| 0 <= m < 4 implies #[trigger] child_ok(ns2, j, m) by {
            assert(child_ok(ns1, j, m));
            let c = ns1[j].child_idx(m);
            assert(ns2[j].child_idx(m) == c);
            if c >= 0 {
                assert(ns2[c].spec_lo() == ns1[c].spec_lo());
                assert(ns2[c].spec_hi() == ns1[c].spec_hi());
                assert(ns2[j].spec_lo() == ns1[j].spec_lo());
                assert(ns2[j].spec_hi() == ns1[j].spec_hi());
            }
        }
    }
    assert forall|p1: int, m1: int, p2: int, m2: int, c: int|
        #[trigger] is_child_edge(ns2, p1, m1, c) && #[trigger] is_child_edge(
            ns2,
            p2,
            m2,
            c,
        ) implies p1 == p2 && m1 == m2 by {
        assert(ns2[p1].child_idx(m1) == ns1[p1].child_idx(m1));
        assert(ns2[p2].child_idx(m2) == ns1[p2].child_idx(m2));
        assert(is_child_edge(ns1, p1, m1, c));
        assert(is_child_edge(ns1, p2, m2, c));
    }
}

/// Hanging a fresh in-quadrant leaf off an empty child slot keeps the whole
/// arena well formed.
proof fn lemma_nodes_ok_after_new_child<T: Position + Copy>(
    ns1: Seq<QuadTreeNode<T>>,
    ns2: Seq<QuadTreeNode<T>>,
    k: int,
    m: int,
    x: T,
)
    requires
        all_nodes_ok(ns1),
        unique_parents(ns1),
        0 <= k < ns1.len(),
        0 <= m < 4,
        ns1[k].child_idx(m) == -1,
        ns2.len() == ns1.len() + 1,
        ns2[k].items_view() == ns1[k].items_view(),
        ns2[k].spec_lo() == ns1[k].spec_lo(),
        ns2[k].spec_hi() == ns1[k].spec_hi(),
        ns2[k].child_idx(m) == ns1.len(),
        forall|m2: int| 0 <= m2 < 4 && m2 != m ==> ns2[k].child_idx(m2) == ns1[k].child_idx(m2),
        forall|j: int| 0 <= j < ns1.len() && j != k ==> ns2[j] == ns1[j],
        ns2[ns1.len() as int].items_view() == seq![x],
        forall|m2: int| ns2[ns1.len() as int].child_idx(m2) == -1,
        quad_rect_ok(
            ns1[k].spec_lo(),
            ns1[k].spec_hi(),
            m,
            ns2[ns1.len() as int].spec_lo(),
            ns2[ns1.len() as int].spec_hi(),
        ),
        in_lohi(x.posn(), ns2[ns1.len() as int].spec_lo(), ns2[ns1.len() as int].spec_hi()),
    ensures
        all_nodes_ok(ns2),
        unique_parents(ns2),
{
    let w = ns1.len() as int;
    assert(node_ok(ns1, k));
    assert(ns1[k].rect_wf());
    lemma_quad_in_parent(
        ns1[k].spec_lo(),
        ns1[k].spec_hi(),
        m,
        ns2[w].spec_lo(),
        ns2[w].spec_hi(),
    );
    assert forall|j: int| 0 <= j < ns2.len() implies node_ok(ns2, j) by {
        if j == w {
            assert(ns2[w].rect_wf());
            assert(ns2[w].items_view().len() == 1);
            assert forall|q: int| 0 <= q < ns2[w].items_view().len() implies in_lohi(
                (#[trigger] ns2[w].items_view()[q]).posn(),
                ns2[w].spec_lo(),
                ns2[w].spec_hi(),
            ) by {
                assert(ns2[w].items_view()[q] == x);
            }
            assert forall|m2: int| 0 <= m2 < 4 implies #[trigger] child_ok(ns2, w, m2) by {
                assert(ns2[w].child_idx(m2) == -1);
            }
        } else {
            assert(node_ok(ns1, j));
            if j == k {
                assert forall|m2: int| 0 <= m2 < 4 implies #[trigger] child_ok(ns2, k, m2) by {
                    assert(child_ok(ns1, k, m2));
                    if m2 == m {
                        assert(ns2[k].child_idx(m) == w);
                    } else {
                        let c = ns1[k].child_idx(m2);
                        if c >= 0 {
                            assert(ns2[c] == ns1[c]);
                        }
                    }
                }
            } else {
                assert(ns2[j] == ns1[j]);
                assert forall|m2: int| 0 <= m2 < 4 implies #[trigger] child_ok(ns2, j, m2) by {
                    assert(child_ok(ns1, j, m2));
                    let c = ns1[j].child_idx(m2);
                    if c >= 0 {
                        if c == k {
                            assert(ns2[k].spec_lo() == ns1[k].spec_lo());
                        } else {
                            assert(ns2[c] == ns1[c]);
                        }
                    }
                }
            }
        }
    }
    assert forall|p1: int, m1: int, p2: int, m2: int, c: int|
        #[trigger] is_child_edge(ns2, p1, m1, c) && #[trigger] is_child_edge(
            ns2,
            p2,
            m2,
            c,
        ) implies p1 == p2 && m1 == m2 by {
        if c == w {
            // only the new edge names the fresh node: every old edge's target
            // is in the old range
            assert(p1 == k && m1 == m) by {
                if p1 == w {
                    assert(ns2[w].child_idx(m1) == -1);
                } else if !(p1 == k && m1 == m) {
                    assert(ns2[p1].child_idx(m1) == ns1[p1].child_idx(m1));
                    assert(is_child_edge(ns1, p1, m1, c));
                    assert(node_ok(ns1, p1));
                    assert(child_ok(ns1, p1, m1));
                }
            }
            assert(p2 == k && m2 == m) by {
                if p2 == w {
                    assert(ns2[w].child_idx(m2) == -1);
                } else if !(p2 == k && m2 == m) {
                    assert(ns2[p2].child_idx(m2) == ns1[p2].child_idx(m2));
                    assert(is_child_edge(ns1, p2, m2, c));
                    assert(node_ok(ns1, p2));
                    assert(child_ok(ns1, p2, m2));
                }
            }
        } else {
            assert(is_child_edge(ns1, p1, m1, c)) by {
                assert(p1 != w);
                if !(p1 == k && m1 == m) {
                    assert(ns2[p1].child_idx(m1) == ns1[p1].child_idx(m1));
                }
            }
            assert(is_child_edge(ns1, p2, m2, c)) by {
                assert(p2 != w);
                if !(p2 == k && m2 == m) {
                    assert(ns2[p2].child_idx(m2) == ns1[p2].child_idx(m2));
                }
            }
        }
    }
}

/// Midpoint of a bounded extent, exactly as the specification splits it.
fn mid_coord(lo: i64, hi: i64) -> (r: i64)
    requires
        -COORD_LIMIT <= lo <= hi <= COORD_LIMIT,
    ensures
        r == mid_of(lo as int, hi as int),
        lo <= r <= hi,
{
    proof {
        lemma_mid_between(lo as int, hi as int);
    }
    lo + (hi - lo) / 2
}

/// Walk down from node `i` and place `item`, appending it to the first node
/// on its quadrant path with room, creating at most one new leaf.
fn insert_at<T: Position + Copy>(nodes: &mut Vec<QuadTreeNode<T>>, i: usize, item: T)
    requires
        all_nodes_ok(old(nodes)@),
        unique_parents(old(nodes)@),
        i < old(nodes)@.len(),
        old(nodes)@.len() < usize::MAX,
        in_lohi(item.posn(), old(nodes)@[i as int].spec_lo(), old(nodes)@[i as int].spec_hi()),
    ensures
        all_nodes_ok(final(nodes)@),
        unique_parents(final(nodes)@),
        old(nodes)@.len() <= final(nodes)@.len() <= old(nodes)@.len() + 1,
        forall|j: int|
            0 <= j < old(nodes)@.len() && !in_subtree(old(nodes)@, i as int, j)
                ==> final(nodes)@[j] == old(nodes)@[j],
        forall|j: int|
            0 <= j < old(nodes)@.len() ==> (#[trigger] final(nodes)@[j]).spec_lo()
                == old(nodes)@[j].spec_lo() && final(nodes)@[j].spec_hi()
                == old(nodes)@[j].spec_hi(),
        subtree_items(final(nodes)@, i as int).to_multiset() == subtree_items(
            old(nodes)@,
            i as int,
        ).to_multiset().insert(item),
        flat_to(final(nodes)@, final(nodes)@.len() as int).to_multiset() == flat_to(
            old(nodes)@,
            old(nodes)@.len() as int,
        ).to_multiset().insert(item),
        arena_models(final(nodes)@) == model_insert(arena_models(old(nodes)@), i as int, item),
    decreases old(nodes)@.len() - i,
{
    let ghost ns1 = nodes@;
    proof {
        assert(node_ok(ns1, i as int));
    }
    if nodes[i].items.len() < MAX_POINTS {
        nodes[i].items.push(item);
        proof {
            let ns2 = nodes@;
            assert(ns2[i as int].items_view() == ns1[i as int].items_view().push(item));
            assert(forall|m: int| ns2[i as int].child_idx(m) == ns1[i as int].child_idx(m));
            lemma_nodes_ok_after_push(ns1, ns2, i as int, item);
            lemma_subtree_local_push(ns1, ns2, i as int, item);
            lemma_flat_update_push(ns1, ns2, i as int, item, ns1.len() as int);
            assert(in_subtree(ns1, i as int, i as int));
            let ms1 = arena_models(ns1);
            let ms2 = arena_models(ns2);
            assert(ms1[i as int] == ns1[i as int].model());
            assert(ms1[i as int].items.len() < MAX_POINTS);
            assert forall|j: int| 0 <= j < ns2.len() implies ms2[j] == model_insert(
                ms1,
                i as int,
                item,
            )[j] by {
                if j == i as int {
                    assert(ms2[j].children =~= ms1[j].children);
                    assert(ms2[j] =~~= model_insert(ms1, i as int, item)[j]);
                } else {
                    assert(ns2[j] == ns1[j]);
                }
            }
            assert(ms2 =~= model_insert(ms1, i as int, item));
        }
    } else {
        let lo = nodes[i].lo;
        let hi = nodes[i].hi;
        let mx = mid_coord(lo.x, hi.x);
        let my = mid_coord(lo.y, hi.y);
        let px = item.x();
        let py = item.y();
        let left = px <= mx;
        let top = py <= my;
        let m: usize = if top {
            if left {
                0
            } else {
                1
            }
        } else {
            if left {
                2
            } else {
                3
            }
        };
        let clo = Vec2 {
            x: if left {
                lo.x
            } else {
                mx
            },
            y: if top {
                lo.y
            } else {
                my
            },
        };
        let chi = Vec2 {
            x: if left {
                mx
            } else {
                hi.x
            },
            y: if top {
                my
            } else {
                hi.y
            },
        };
        proof {
            assert(quad_rect_ok(lo, hi, m as int, clo, chi));
            assert(in_lohi(item.posn(), clo, chi));
        }
        let c_opt: Option<usize> = if m == 0 {
            nodes[i].tl_idx
        } else if m == 1 {
            nodes[i].tr_idx
        } else if m == 2 {
            nodes[i].bl_idx
        } else {
            nodes[i].br_idx
        };
        match c_opt {
            Some(c) => {
                proof {
                    assert(ns1[i as int].child_idx(m as int) == c);
                    assert(child_ok(ns1, i as int, m as int));
                    assert(ns1[c as int].spec_lo() == clo && ns1[c as int].spec_hi() == chi);
                }
                insert_at(nodes, c, item);
                proof {
                    let ns2 = nodes@;
                    assert forall|j: int|
                        0 <= j < ns1.len() && !in_subtree(ns1, i as int, j) implies ns2[j]
                        == ns1[j] by {
                        if in_subtree(ns1, c as int, j) {
                            assert(in_child_sub(ns1, i as int, m as int, j));
                            assert(in_subtree(ns1, i as int, j));
                        }
                    }
                    lemma_subtree_reassemble(ns1, ns2, i as int, m as int, item);
                    let ms1 = arena_models(ns1);
                    assert(ms1[i as int] == ns1[i as int].model());
                    assert(ms1[i as int].items.len() >= MAX_POINTS);
                    assert(quadrant_of(ms1[i as int].lo, ms1[i as int].hi, item.posn())
                        == m as int);
                    assert(ms1[i as int].children[m as int] == c as int);
                    assert(model_insert(ms1, i as int, item) == model_insert(
                        ms1,
                        c as int,
                        item,
                    ));
                }
            },
            None => {
                let w = nodes.len();
                let mut child_items: Vec<T> = Vec::new();
                child_items.push(item);
                let child = QuadTreeNode {
                    tl_idx: None,
                    tr_idx: None,
                    bl_idx: None,
                    br_idx: None,
                    lo: clo,
                    hi: chi,
                    items: child_items,
                };
                if m == 0 {
                    nodes[i].tl_idx = Some(w);
                } else if m == 1 {
                    nodes[i].tr_idx = Some(w);
                } else if m == 2 {
                    nodes[i].bl_idx = Some(w);
                } else {
                    nodes[i].br_idx = Some(w);
                }
                nodes.push(child);
                proof {
                    let ns2 = nodes@;
                    assert(ns2.len() == ns1.len() + 1);
                    assert(ns2[i as int].items_view() == ns1[i as int].items_view());
                    assert(ns2[i as int].child_idx(m as int) == w as int);
                    assert(forall|m2: int|
                        0 <= m2 < 4 && m2 != m as int ==> ns2[i as int].child_idx(m2) == ns1[
                            i as int
                        ].child_idx(m2));
                    assert(ns2[w as int].items_view() == seq![item]);
                    assert(forall|m2: int| ns2[w as int].child_idx(m2) == -1);
                    lemma_nodes_ok_after_new_child(ns1, ns2, i as int, m as int, item);
                    lemma_subtree_local_new_child(ns1, ns2, i as int, m as int, item);
                    // flat contents: unchanged below the fresh leaf, one item after it
                    lemma_flat_pointwise(ns1, ns2, ns1.len() as int);
                    assert(flat_to(ns2, ns2.len() as int) == flat_to(ns2, ns1.len() as int) + ns2[
                        ns1.len() as int
                    ].items_view());
                    lemma_multiset_commutative(flat_to(ns2, ns1.len() as int), seq![item]);
                    assert(seq![item].to_multiset() =~= Multiset::<T>::empty().insert(item)) by {
                        assert(seq![item] =~= Seq::<T>::empty().push(item));
                    }
                    assert(flat_to(ns2, ns2.len() as int).to_multiset() =~= flat_to(
                        ns1,
                        ns1.len() as int,
                    ).to_multiset().insert(item));
                    assert(in_subtree(ns1, i as int, i as int));
                    let ms1 = arena_models(ns1);
                    let ms2 = arena_models(ns2);
                    assert(ms1[i as int] == ns1[i as int].model());
                    assert(ms1[i as int].items.len() >= MAX_POINTS);
                    assert(quadrant_of(ms1[i as int].lo, ms1[i as int].hi, item.posn())
                        == m as int);
                    assert(ms1[i as int].children[m as int] == -1);
                    assert(ms2.len() == ms1.len() + 1);
                    assert forall|j: int| 0 <= j < ns2.len() implies ms2[j] == model_insert(
                        ms1,
                        i as int,
                        item,
                    )[j] by {
                        if j == i as int {
                            assert(ms2[j].children =~= ms1[j].children.update(
                                m as int,
                                ms1.len() as int,
                            ));
                            assert(ms2[j] =~~= model_insert(ms1, i as int, item)[j]);
                        } else if j == ns1.len() as int {
                            assert(ms2[j].lo == quad_lo(ms1[i as int].lo, ms1[i as int].hi, m as int));
                            assert(ms2[j].hi == quad_hi(ms1[i as int].lo, ms1[i as int].hi, m as int));
                            assert(ms2[j].children =~= seq![-1int, -1int, -1int, -1int]);
                            assert(ms2[j] =~~= model_insert(ms1, i as int, item)[j]);
                        } else {
                            assert(ns2[j] == ns1[j]);
                        }
                    }
                    assert(ms2 =~= model_insert(ms1, i as int, item));
                }
            },
        }
    }
}

/// The quadtree: an append-only arena of nodes whose slot 0 is the root, and
/// a running count of stored items.
pub struct QuadTree<T: Position + Copy> {
    nodes: Vec<QuadTreeNode<T>>,
    num_items: usize,
}

impl<T: Position + Copy> QuadTree<T> {
    /// The node arena, as the contracts speak of it.
    pub closed spec fn spec_nodes(&self) -> Seq<QuadTreeNode<T>> {
        self.nodes@
    }

    /// The running item count.
    pub closed spec fn spec_num_items(&self) -> nat {
        self.num_items as nat
    }

    /// Number of nodes in the arena.
    pub open spec fn spec_num_nodes(&self) -> nat {
        self.spec_nodes().len()
    }

    /// Low corner of the bounding rectangle.
    pub open spec fn spec_lo(&self) -> Vec2 {
        self.spec_nodes()[0].spec_lo()
    }

    /// High corner of the bounding rectangle.
    pub open spec fn spec_hi(&self) -> Vec2 {
        self.spec_nodes()[0].spec_hi()
    }

    /// Every item stored in the tree, node by node in arena order.
    pub open spec fn items(&self) -> Seq<T> {
        flat_to(self.spec_nodes(), self.spec_nodes().len() as int)
    }

    /// The items held directly by node `k`.
    pub open spec fn spec_node_items(&self, k: int) -> Seq<T> {
        self.spec_nodes()[k].items_view()
    }

    /// The whole arena as a sequence of mathematical node values.
    pub open spec fn models(&self) -> Seq<NodeModel<T>> {
        arena_models(self.spec_nodes())
    }

    /// Every stored item in emission order: a node's own items first, then
    /// its quadrant subtrees in slot order, from the root down.  The range
    /// queries produce their results in this order, so equal queries on
    /// equal trees return identical sequences.
    pub open spec fn items_preorder(&self) -> Seq<T> {
        subtree_items(self.spec_nodes(), 0)
    }

    /// Well-formedness: a non-empty arena of locally well-formed nodes
    /// forming a forest rooted at slot 0, whose root subtree holds exactly
    /// the arena's flat contents, counted by `num_items`.
    pub open spec fn inv(&self) -> bool {
        &&& self.spec_nodes().len() >= 1
        &&& self.spec_num_nodes() <= self.spec_num_items() + 1
        &&& all_nodes_ok(self.spec_nodes())
        &&& unique_parents(self.spec_nodes())
        &&& self.spec_num_items() == self.items().len()
        &&& subtree_items(self.spec_nodes(), 0).to_multiset() == self.items().to_multiset()
    }

    /// Discard everything and reinstate one empty root covering
    /// `[top_left, top_left + dims]`; the item count drops to zero whatever
    /// the prior state was.
    pub fn reset(&mut self, top_left: Vec2, dims: Vec2)
        requires
            0 <= dims.x,
            0 <= dims.y,
            -COORD_LIMIT <= top_left.x,
            -COORD_LIMIT <= top_left.y,
            top_left.x + dims.x <= COORD_LIMIT,
            top_left.y + dims.y <= COORD_LIMIT,
        ensures
            final(self).inv(),
            final(self).items() == Seq::<T>::empty(),
            final(self).spec_num_nodes() == 1,
            final(self).spec_lo() == top_left,
            final(self).spec_hi() == (Vec2 {
                x: (top_left.x + dims.x) as i64,
                y: (top_left.y + dims.y) as i64,
            }),
            final(self).models() == seq![
                NodeModel::<T> {
                    lo: top_left,
                    hi: Vec2 {
                        x: (top_left.x + dims.x) as i64,
                        y: (top_left.y + dims.y) as i64,
                    },
                    items: Seq::empty(),
                    children: seq![-1int, -1int, -1int, -1int],
                },
            ],
    {
        let root = QuadTreeNode::new(top_left, dims);
        let mut nodes: Vec<QuadTreeNode<T>> = Vec::new();
        nodes.push(root);
        self.nodes = nodes;
        self.num_items = 0;
        proof {
            let ns = self.nodes@;
            assert forall|j: int| 0 <= j < ns.len() implies node_ok(ns, j) by {
                assert forall|m: int| 0 <= m < 4 implies #[trigger] child_ok(ns, j, m) by {
                    assert(ns[j].child_idx(m) == -1);
                }
            }
            assert forall|p1: int, m1: int, p2: int, m2: int, c: int|
                #[trigger] is_child_edge(ns, p1, m1, c) && #[trigger] is_child_edge(
                    ns,
                    p2,
                    m2,
                    c,
                ) implies p1 == p2 && m1 == m2 by {
                assert(ns[p1].child_idx(m1) == -1);
            }
            assert(flat_to(ns, 0) == Seq::<T>::empty());
            assert(flat_to(ns, 1) == flat_to(ns, 0) + ns[0].items_view());
            assert(self.items() =~= Seq::<T>::empty());
            assert(child_sub(ns, 0, 0) == Seq::<T>::empty());
            assert(child_sub(ns, 0, 1) == Seq::<T>::empty());
            assert(child_sub(ns, 0, 2) == Seq::<T>::empty());
            assert(child_sub(ns, 0, 3) == Seq::<T>::empty());
            assert(subtree_items(ns, 0) =~= Seq::<T>::empty());
            assert(subtree_items(ns, 0).to_multiset() =~= self.items().to_multiset());
            assert(self.models()[0].children =~= seq![-1int, -1int, -1int, -1int]);
            assert(self.models() =~~= seq![
                NodeModel::<T> {
                    lo: top_left,
                    hi: Vec2 {
                        x: (top_left.x + dims.x) as i64,
                        y: (top_left.y + dims.y) as i64,
                    },
                    items: Seq::empty(),
                    children: seq![-1int, -1int, -1int, -1int],
                },
            ]);
        }
    }

    /// A tree with one empty root covering `[top_left, top_left + dims]`.
    pub fn new(top_left: Vec2, dims: Vec2) -> (r: Self)
        requires
            0 <= dims.x,
            0 <= dims.y,
            -COORD_LIMIT <= top_left.x,
            -COORD_LIMIT <= top_left.y,
            top_left.x + dims.x <= COORD_LIMIT,
            top_left.y + dims.y <= COORD_LIMIT,
        ensures
            r.inv(),
            r.items() == Seq::<T>::empty(),
            r.spec_num_nodes() == 1,
            r.spec_lo() == top_left,
            r.spec_hi() == (Vec2 {
                x: (top_left.x + dims.x) as i64,
                y: (top_left.y + dims.y) as i64,
            }),
            r.models() == seq![
                NodeModel::<T> {
                    lo: top_left,
                    hi: Vec2 {
                        x: (top_left.x + dims.x) as i64,
                        y: (top_left.y + dims.y) as i64,
                    },
                    items: Seq::empty(),
                    children: seq![-1int, -1int, -1int, -1int],
                },
            ],
    {
        let mut t = QuadTree { nodes: Vec::new(), num_items: 0 };
        t.reset(top_left, dims);
        t
    }

    /// Discard every item but keep the bounding rectangle.
    pub fn clear(&mut self)
        requires
            old(self).inv(),
        ensures
            final(self).inv(),
            final(self).items() == Seq::<T>::empty(),
            final(self).spec_num_nodes() == 1,
            final(self).spec_lo() == old(self).spec_lo(),
            final(self).spec_hi() == old(self).spec_hi(),
            final(self).models() == seq![
                NodeModel::<T> {
                    lo: old(self).spec_lo(),
                    hi: old(self).spec_hi(),
                    items: Seq::empty(),
                    children: seq![-1int, -1int, -1int, -1int],
                },
            ],
    {
        proof {
            assert(node_ok(self.nodes@, 0));
        }
        let lo = self.nodes[0].lo;
        let hi = self.nodes[0].hi;
        let dims = Vec2 { x: hi.x - lo.x, y: hi.y - lo.y };
        self.reset(lo, dims);
        proof {
            assert(self.spec_hi() == old(self).spec_hi());
        }
    }

    /// Number of items stored in the tree.
    pub fn len(&self) -> (r: usize)
        requires
            self.inv(),
        ensures
            r == self.items().len(),
    {
        self.num_items
    }

    /// The fixed direct-item capacity of a node.
    pub fn max_points(&self) -> (r: usize)
        ensures
            r == MAX_POINTS,
    {
        MAX_POINTS
    }

    /// Low corner of the bounding rectangle.
    pub fn top_left(&self) -> (r: Vec2)
        requires
            self.inv(),
        ensures
            r == self.spec_lo(),
    {
        self.nodes[0].lo
    }

    /// Extent of the bounding rectangle on each axis.
    pub fn dims(&self) -> (r: Vec2)
        requires
            self.inv(),
        ensures
            r.x == self.spec_hi().x - self.spec_lo().x,
            r.y == self.spec_hi().y - self.spec_lo().y,
    {
        proof {
            assert(node_ok(self.nodes@, 0));
        }
        Vec2 { x: self.nodes[0].hi.x - self.nodes[0].lo.x, y: self.nodes[0].hi.y - self.nodes[0].lo.y }
    }

    /// Read-only view of the node arena.
    pub fn get_nodes(&self) -> (r: &Vec<QuadTreeNode<T>>)
        ensures
            r@ == self.spec_nodes(),
    {
        &self.nodes
    }

    /// Number of nodes in the arena.
    pub fn num_nodes(&self) -> (r: usize)
        ensures
            r == self.spec_num_nodes(),
    {
        self.nodes.len()
    }

    /// Number of items held directly by node `node_idx`; never more than
    /// [`MAX_POINTS`].
    pub fn node_len(&self, node_idx: usize) -> (r: usize)
        requires
            self.inv(),
            node_idx < self.spec_num_nodes(),
        ensures
            r == self.spec_node_items(node_idx as int).len(),
            r <= MAX_POINTS,
    {
        proof {
            assert(node_ok(self.nodes@, node_idx as int));
        }
        self.nodes[node_idx].items.len()
    }

    /// Position of item `item_idx` held directly by node `node_idx`.
    pub fn node_item_pos(&self, node_idx: usize, item_idx: usize) -> (r: Vec2)
        requires
            self.inv(),
            node_idx < self.spec_num_nodes(),
            item_idx < self.spec_node_items(node_idx as int).len(),
        ensures
            r == self.spec_node_items(node_idx as int)[item_idx as int].posn(),
    {
        self.nodes[node_idx].items[item_idx].pos()
    }

    /// The four child slot indices of node `node_idx`, 0 for an absent
    /// child (the root is never a child, so 0 is free as a sentinel).
    pub fn node_children(&self, node_idx: usize) -> (r: Vec<usize>)
        requires
            node_idx < self.spec_num_nodes(),
        ensures
            r@.len() == 4,
            forall|m: int|
                0 <= m < 4 ==> r@[m] == (if self.spec_nodes()[node_idx as int].child_idx(m) >= 0 {
                    self.spec_nodes()[node_idx as int].child_idx(m)
                } else {
                    0
                }),
    {
        self.nodes[node_idx].children()
    }

    /// Law: no node of a well-formed tree ever holds more than
    /// [`MAX_POINTS`] items directly — insertion pushes the surplus down
    /// into quadrant children instead of growing a node.
    pub proof fn lemma_node_capacity(&self, k: int)
        requires
            self.inv(),
            0 <= k < self.spec_num_nodes(),
        ensures
            self.spec_node_items(k).len() <= MAX_POINTS,
    {
        assert(node_ok(self.spec_nodes(), k));
    }

    /// Insert an item.  A position outside the bounding rectangle is
    /// rejected: the call returns `false` and nothing changes.  Otherwise
    /// the arena becomes exactly [`model_insert`] of the old arena: the item
    /// descends from the root, left at `x <= mid.x` and top at `y <= mid.y`,
    /// and is appended to the first node on that path with room; when every
    /// node on the path is full, one fresh leaf holding only the item is
    /// appended to the arena and hung off the last node's empty target slot.
    /// Nothing else moves: the contents gain exactly this item and the
    /// count rises by one.
    pub fn push(&mut self, item: &T) -> (r: bool)
        requires
            old(self).inv(),
            old(self).items().len() + 1 < usize::MAX,
        ensures
            final(self).inv(),
            r == in_lohi(item.posn(), old(self).spec_lo(), old(self).spec_hi()),
            final(self).spec_lo() == old(self).spec_lo(),
            final(self).spec_hi() == old(self).spec_hi(),
            r ==> final(self).models() == model_insert(old(self).models(), 0, *item),
            r ==> final(self).items().to_multiset() == old(self).items().to_multiset().insert(
                *item,
            ),
            r ==> final(self).items().len() == old(self).items().len() + 1,
            !r ==> *final(self) == *old(self),
            old(self).spec_num_nodes() <= final(self).spec_num_nodes() <= old(
                self,
            ).spec_num_nodes() + 1,
    {
        proof {
            assert(node_ok(self.nodes@, 0));
        }
        let px = item.x();
        let py = item.y();
        let lo = self.nodes[0].lo;
        let hi = self.nodes[0].hi;
        if px < lo.x || px > hi.x || py < lo.y || py > hi.y {
            return false;
        }
        let ghost ns1 = self.nodes@;
        insert_at(&mut self.nodes, 0, *item);
        self.num_items = self.num_items + 1;
        proof {
            let ns2 = self.nodes@;
            assert(self.items().to_multiset() == old(self).items().to_multiset().insert(*item));
            assert(self.items().to_multiset().len() == self.items().len());
            assert(old(self).items().to_multiset().len() == old(self).items().len());
            assert(self.items().len() == old(self).items().len() + 1);
            assert(subtree_items(ns2, 0).to_multiset() =~= self.items().to_multiset());
        }
        true
    }
}

// ---------------------------------------------------------------------------
// Range queries
// ---------------------------------------------------------------------------

/// Membership of an item's position in the closed rectangle `[qlo, qhi]`.
pub open spec fn rect_pred<T: Position + Copy>(qlo: Vec2, qhi: Vec2) -> spec_fn(T) -> bool {
    |t: T| in_lohi(t.posn(), qlo, qhi)
}

/// Membership of an item's position in the closed disc around `center`.
pub open spec fn circle_pred<T: Position + Copy>(center: Vec2, radius: i64) -> spec_fn(T) -> bool {
    |t: T| dist2(t.posn(), center) <= radius * radius
}

/// Filtering after a push keeps or drops exactly the pushed element.
pub proof fn lemma_filter_push<A>(s: Seq<A>, x: A, p: spec_fn(A) -> bool)
    ensures
        s.push(x).filter(p) == (if p(x) {
            s.filter(p).push(x)
        } else {
            s.filter(p)
        }),
{
    reveal(Seq::filter);
    assert(s.push(x).drop_last() =~= s);
    assert(s.push(x).last() == x);
}

/// A point of the closed disc lies in the disc's bounding square.
proof fn lemma_circle_in_square(p: Vec2, center: Vec2, radius: i64, qlo: Vec2, qhi: Vec2)
    requires
        0 <= radius,
        dist2(p, center) <= radius * radius,
        qlo.x == center.x - radius,
        qlo.y == center.y - radius,
        qhi.x == center.x + radius,
        qhi.y == center.y + radius,
    ensures
        in_lohi(p, qlo, qhi),
{
    let dx = p.x - center.x;
    let dy = p.y - center.y;
    assert(dx * dx <= radius * radius) by (nonlinear_arith)
        requires dx * dx + dy * dy <= radius * radius;
    assert(dy * dy <= radius * radius) by (nonlinear_arith)
        requires dx * dx + dy * dy <= radius * radius;
    assert(-radius <= dx <= radius) by (nonlinear_arith)
        requires dx * dx <= radius * radius, 0 <= radius;
    assert(-radius <= dy <= radius) by (nonlinear_arith)
        requires dy * dy <= radius * radius, 0 <= radius;
}

/// Emit the items of the subtree under child slot `m` of node `i` whose
/// positions lie in `[qlo, qhi]`, skipping the child when its rectangle
/// cannot hold such a point.
fn query_rect_child<T: Position + Copy>(
    nodes: &Vec<QuadTreeNode<T>>,
    i: usize,
    m: usize,
    qlo: Vec2,
    qhi: Vec2,
    out: &mut Vec<T>,
)
    requires
        all_nodes_ok(nodes@),
        i < nodes@.len(),
        m < 4,
    ensures
        final(out)@ == old(out)@ + child_sub(nodes@, i as int, m as int).filter(
            rect_pred::<T>(qlo, qhi),
        ),
    decreases nodes@.len() - i, 0int,
{
    let ghost pred = rect_pred::<T>(qlo, qhi);
    proof {
        assert(node_ok(nodes@, i as int));
        assert(child_ok(nodes@, i as int, m as int));
        reveal(Seq::filter);
    }
    let c_opt: Option<usize> = if m == 0 {
        nodes[i].tl_idx
    } else if m == 1 {
        nodes[i].tr_idx
    } else if m == 2 {
        nodes[i].bl_idx
    } else {
        nodes[i].br_idx
    };
    match c_opt {
        Some(c) => {
            proof {
                assert(nodes@[i as int].child_idx(m as int) == c);
                assert(child_sub(nodes@, i as int, m as int) == subtree_items(nodes@, c as int));
            }
            if rects_intersect(nodes[c].lo, nodes[c].hi, qlo, qhi) {
                query_rect_at(nodes, c, qlo, qhi, out);
            } else {
                proof {
                    let sub = subtree_items(nodes@, c as int);
                    lemma_subtree_in_rect(nodes@, c as int);
                    assert forall|q: int| 0 <= q < sub.len() implies !pred(#[trigger] sub[q]) by {
                        if pred(sub[q]) {
                            lemma_point_in_both_overlap(
                                sub[q].posn(),
                                nodes@[c as int].spec_lo(),
                                nodes@[c as int].spec_hi(),
                                qlo,
                                qhi,
                            );
                        }
                    }
                    lemma_filter_all_false(sub, pred);
                    assert(out@ =~= old(out)@ + sub.filter(pred));
                }
            }
        },
        None => {
            proof {
                assert(nodes@[i as int].child_idx(m as int) == -1);
                assert(child_sub(nodes@, i as int, m as int) == Seq::<T>::empty());
                assert(Seq::<T>::empty().filter(pred) == Seq::<T>::empty());
                assert(out@ =~= old(out)@ + Seq::<T>::empty());
            }
        },
    }
}

/// Emit the items of the subtree at node `i` whose positions lie in
/// `[qlo, qhi]`, node by node, pruning children whose rectangles miss the
/// query rectangle.
fn query_rect_at<T: Position + Copy>(
    nodes: &Vec<QuadTreeNode<T>>,
    i: usize,
    qlo: Vec2,
    qhi: Vec2,
    out: &mut Vec<T>,
)
    requires
        all_nodes_ok(nodes@),
        i < nodes@.len(),
    ensures
        final(out)@ == old(out)@ + subtree_items(nodes@, i as int).filter(rect_pred::<T>(qlo, qhi)),
    decreases nodes@.len() - i, 1int,
{
    let ghost pred = rect_pred::<T>(qlo, qhi);
    proof {
        assert(node_ok(nodes@, i as int));
    }
    let ghost out0 = out@;
    let n = nodes[i].items.len();
    let mut k: usize = 0;
    while k < n
        invariant
            all_nodes_ok(nodes@),
            i < nodes@.len(),
            n == nodes@[i as int].items_view().len(),
            k <= n,
            out@ == out0 + nodes@[i as int].items_view().take(k as int).filter(pred),
            pred == rect_pred::<T>(qlo, qhi),
        decreases n - k,
    {
        let ghost iv = nodes@[i as int].items_view();
        let it = nodes[i].items[k];
        let p = it.pos();
        if qlo.x <= p.x && p.x <= qhi.x && qlo.y <= p.y && p.y <= qhi.y {
            out.push(it);
        }
        proof {
            assert(iv.take(k + 1 as int) =~= iv.take(k as int).push(iv[k as int]));
            lemma_filter_push(iv.take(k as int), iv[k as int], pred);
            assert(out@ =~= out0 + iv.take(k + 1 as int).filter(pred));
        }
        k = k + 1;
    }
    proof {
        let iv = nodes@[i as int].items_view();
        assert(iv.take(n as int) =~= iv);
    }
    query_rect_child(nodes, i, 0, qlo, qhi, out);
    query_rect_child(nodes, i, 1, qlo, qhi, out);
    query_rect_child(nodes, i, 2, qlo, qhi, out);
    query_rect_child(nodes, i, 3, qlo, qhi, out);
    proof {
        let ns = nodes@;
        let ii = i as int;
        assert(subtree_items(ns, ii) == ns[ii].items_view() + child_sub(ns, ii, 0) + child_sub(
            ns,
            ii,
            1,
        ) + child_sub(ns, ii, 2) + child_sub(ns, ii, 3));
        assert(out@ =~= out0 + subtree_items(ns, ii).filter(pred));
    }
}

impl<T: Position + Copy> QuadTree<T> {
    /// All stored items whose positions lie in the closed rectangle at
    /// `top_left` with extent `dims`, as a multiset: exactly the stored
    /// items that a scan of everything and a filter by the rectangle test
    /// would keep.
    pub fn query_rect(&self, top_left: Vec2, dims: Vec2) -> (r: Vec<T>)
        requires
            self.inv(),
            i64::MIN <= top_left.x + dims.x <= i64::MAX,
            i64::MIN <= top_left.y + dims.y <= i64::MAX,
        ensures
            r@ == self.items_preorder().filter((|t: T| in_rect_spec(t.posn(), top_left, dims))),
            r@.to_multiset() == self.items().to_multiset().filter(
                (|t: T| in_rect_spec(t.posn(), top_left, dims)),
            ),
    {
        let qlo = top_left;
        let qhi = Vec2 { x: top_left.x + dims.x, y: top_left.y + dims.y };
        let mut out: Vec<T> = Vec::new();
        query_rect_at(&self.nodes, 0, qlo, qhi, &mut out);
        proof {
            let pred = rect_pred::<T>(qlo, qhi);
            assert(out@ =~= subtree_items(self.spec_nodes(), 0).filter(pred));
            lemma_filter_to_multiset(subtree_items(self.spec_nodes(), 0), pred);
            lemma_ms_filter_equiv(
                self.items().to_multiset(),
                pred,
                (|t: T| in_rect_spec(t.posn(), top_left, dims)),
            );
            lemma_filter_congruence(
                self.items_preorder(),
                pred,
                (|t: T| in_rect_spec(t.posn(), top_left, dims)),
            );
        }
        out
    }

    /// All stored items in the closed axis-aligned square at `top_left`
    /// with side `width`, as a multiset.
    pub fn query_square(&self, top_left: Vec2, width: i64) -> (r: Vec<T>)
        requires
            self.inv(),
            i64::MIN <= top_left.x + width <= i64::MAX,
            i64::MIN <= top_left.y + width <= i64::MAX,
        ensures
            r@ == self.items_preorder().filter(
                (|t: T| in_rect_spec(t.posn(), top_left, Vec2 { x: width, y: width })),
            ),
            r@.to_multiset() == self.items().to_multiset().filter(
                (|t: T| in_rect_spec(t.posn(), top_left, Vec2 { x: width, y: width })),
            ),
    {
        self.query_rect(top_left, Vec2 { x: width, y: width })
    }

    /// All stored items within (squared) distance `radius * radius` of
    /// `center`, as a multiset: the tree is searched through the disc's
    /// bounding square and the result filtered by exact squared distance.
    pub fn query_circle(&self, center: Vec2, radius: i64) -> (r: Vec<T>)
        requires
            self.inv(),
            in_coord_bounds(center),
            0 <= radius <= COORD_LIMIT,
        ensures
            r@ == self.items_preorder().filter(circle_pred::<T>(center, radius)),
            r@.to_multiset() == self.items().to_multiset().filter(
                circle_pred::<T>(center, radius),
            ),
    {
        let ghost circ = circle_pred::<T>(center, radius);
        let qlo = Vec2 { x: center.x - radius, y: center.y - radius };
        let qhi = Vec2 { x: center.x + radius, y: center.y + radius };
        let ghost sqp = rect_pred::<T>(qlo, qhi);
        let mut sq: Vec<T> = Vec::new();
        query_rect_at(&self.nodes, 0, qlo, qhi, &mut sq);
        proof {
            assert(sq@ =~= subtree_items(self.spec_nodes(), 0).filter(sqp));
            lemma_subtree_in_rect(self.spec_nodes(), 0);
            assert(node_ok(self.spec_nodes(), 0));
            lemma_filter_to_multiset(subtree_items(self.spec_nodes(), 0), sqp);
            assert forall|q: int| 0 <= q < sq@.len() implies in_coord_bounds(
                (#[trigger] sq@[q]).posn(),
            ) by {
                let sub = subtree_items(self.spec_nodes(), 0);
                let t = sq@[q];
                // each emitted item is one of the subtree's items
                assert(sq@.contains(t));
                assert(sq@.to_multiset().count(t) > 0);
                assert(sq@.to_multiset() == sub.to_multiset().filter(sqp));
                assert(sub.to_multiset().count(t) > 0);
                assert(sub.contains(t));
                let w = choose|w: int| 0 <= w < sub.len() && sub[w] == t;
                assert(in_lohi(sub[w].posn(), self.spec_lo(), self.spec_hi()));
            }
        }
        let mut out: Vec<T> = Vec::new();
        let n = sq.len();
        let mut k: usize = 0;
        while k < n
            invariant
                n == sq@.len(),
                k <= n,
                out@ == sq@.take(k as int).filter(circ),
                circ == circle_pred::<T>(center, radius),
                in_coord_bounds(center),
                0 <= radius <= COORD_LIMIT,
                forall|q: int| 0 <= q < sq@.len() ==> in_coord_bounds((#[trigger] sq@[q]).posn()),
            decreases n - k,
        {
            let it = sq[k];
            let p = it.pos();
            let d2 = p.distance_squared(&center);
            proof {
                assert(radius * radius <= COORD_LIMIT * COORD_LIMIT) by (nonlinear_arith)
                    requires 0 <= radius <= COORD_LIMIT;
            }
            if d2 <= radius * radius {
                out.push(it);
            }
            proof {
                assert(sq@.take(k + 1 as int) =~= sq@.take(k as int).push(sq@[k as int]));
                lemma_filter_push(sq@.take(k as int), sq@[k as int], circ);
            }
            k = k + 1;
        }
        proof {
            assert(sq@.take(n as int) =~= sq@);
            assert(out@ == sq@.filter(circ));
            let sub = subtree_items(self.spec_nodes(), 0);
            lemma_filter_to_multiset(sq@, circ);
            lemma_filter_to_multiset(sub, sqp);
            // within the disc implies within its bounding square
            assert forall|t: T| #[trigger] circ(t) == (sqp(t) && circ(t)) by {
                if circ(t) {
                    lemma_circle_in_square(t.posn(), center, radius, qlo, qhi);
                }
            }
            lemma_ms_filter_compose(sub.to_multiset(), sqp, circ, circ);
            assert(out@.to_multiset() == sub.to_multiset().filter(circ));
            lemma_filter_absorb(sub, sqp, circ);
            assert(out@ == self.items_preorder().filter(circ));
        }
        out
    }

    /// Reference implementation of the circular query: scan every node's
    /// items in arena order and keep those within the disc.
    pub fn query_circle_brute_force(&self, center: Vec2, radius: i64) -> (r: Vec<T>)
        requires
            self.inv(),
            in_coord_bounds(center),
            0 <= radius <= COORD_LIMIT,
        ensures
            r@ == self.items().filter(circle_pred::<T>(center, radius)),
            r@.to_multiset() == self.items().to_multiset().filter(
                circle_pred::<T>(center, radius),
            ),
    {
        let ghost circ = circle_pred::<T>(center, radius);
        let ghost ns = self.nodes@;
        let mut out: Vec<T> = Vec::new();
        let nn = self.nodes.len();
        let mut k: usize = 0;
        proof {
            assert(radius * radius <= COORD_LIMIT * COORD_LIMIT) by (nonlinear_arith)
                requires 0 <= radius <= COORD_LIMIT;
        }
        while k < nn
            invariant
                self.inv(),
                ns == self.nodes@,
                nn == ns.len(),
                k <= nn,
                out@ == flat_to(ns, k as int).filter(circ),
                circ == circle_pred::<T>(center, radius),
                in_coord_bounds(center),
                0 <= radius <= COORD_LIMIT,
                radius * radius <= COORD_LIMIT * COORD_LIMIT,
            decreases nn - k,
        {
            proof {
                assert(node_ok(ns, k as int));
            }
            let ghost iv = ns[k as int].items_view();
            let ghost base = flat_to(ns, k as int);
            let nk = self.nodes[k].items.len();
            let mut q: usize = 0;
            while q < nk
                invariant
                    self.inv(),
                    ns == self.nodes@,
                    k < ns.len(),
                    node_ok(ns, k as int),
                    iv == ns[k as int].items_view(),
                    base == flat_to(ns, k as int),
                    nk == iv.len(),
                    q <= nk,
                    out@ == base.filter(circ) + iv.take(q as int).filter(circ),
                    circ == circle_pred::<T>(center, radius),
                    in_coord_bounds(center),
                    0 <= radius <= COORD_LIMIT,
                    radius * radius <= COORD_LIMIT * COORD_LIMIT,
                decreases nk - q,
            {
                let it = self.nodes[k].items[q];
                let p = it.pos();
                proof {
                    assert(in_lohi(iv[q as int].posn(), ns[k as int].spec_lo(), ns[
                        k as int
                    ].spec_hi()));
                    assert(ns[k as int].rect_wf());
                }
                let d2 = p.distance_squared(&center);
                if d2 <= radius * radius {
                    out.push(it);
                }
                proof {
                    assert(iv.take(q + 1 as int) =~= iv.take(q as int).push(iv[q as int]));
                    lemma_filter_push(iv.take(q as int), iv[q as int], circ);
                }
                q = q + 1;
            }
            proof {
                assert(iv.take(nk as int) =~= iv);
                assert(flat_to(ns, k + 1 as int) == base + iv);
                assert(out@ == flat_to(ns, k + 1 as int).filter(circ));
            }
            k = k + 1;
        }
        proof {
            lemma_filter_to_multiset(self.items(), circ);
        }
        out
    }
}

} // verus!
