//! The space-partition tree: a binary tree over free regions of the canvas.
//!
//! Split pattern of a leaf that receives a placement:
//!
//! ```ignore
//!  ____________________________
//! |          |                 |
//! |   Slot   |      Right      |
//! |          |                 |
//! |__________|_________________|
//! |                            |
//! |                            |
//! |            Left            |
//! |                            |
//! |                            |
//! |____________________________|
//! ```

use vstd::prelude::*;

use crate::rect::Rectangle;

verus! {

/// One region of the partition tree.
#[derive(Debug, PartialEq, Eq)]
pub enum RectNode {
    /// A node that has no space left. Always refuses placement.
    Closed,
    /// A region that has already yielded one placement; `rect` is its original
    /// (now historical) extent, `left` and `right` the two remainder sub-trees.
    Branch { rect: Rectangle, left: Box<RectNode>, right: Box<RectNode> },
    /// An unsplit free region available for placement.
    Leaf(Rectangle),
}

impl RectNode {
    /// The free space of the tree: true iff pixel `(i, j)` lies in some leaf.
    pub open spec fn covers(self, i: int, j: int) -> bool
        decreases self,
    {
        match self {
            RectNode::Closed => false,
            RectNode::Branch { left, right, .. } => left.covers(i, j) || right.covers(i, j),
            RectNode::Leaf(r) => r.covers(i, j),
        }
    }

    /// True iff some leaf of the tree could accept a target of extents `(w, h)`.
    pub open spec fn has_fit(self, w: u32, h: u32) -> bool
        decreases self,
    {
        match self {
            RectNode::Closed => false,
            RectNode::Branch { left, right, .. } => left.has_fit(w, h) || right.has_fit(w, h),
            RectNode::Leaf(r) => r.spec_can_fit(w, h),
        }
    }

    /// True iff every leaf of the tree has both extents positive. The split
    /// helper closes zero-extent strips, so this holds of every subtree that a
    /// branch owns; only a caller-built root leaf can be degenerate.
    pub open spec fn leaves_positive(self) -> bool
        decreases self,
    {
        match self {
            RectNode::Closed => true,
            RectNode::Branch { left, right, .. } => left.leaves_positive()
                && right.leaves_positive(),
            RectNode::Leaf(r) => r.width > 0 && r.height > 0,
        }
    }

    /// Well-formedness of the tree:
    /// every rectangle stays within the coordinate type; the free space of a
    /// branch lies within the branch's own recorded rectangle (so the coarse
    /// fit test of the search can prune soundly); the free spaces of the two
    /// children of a branch are disjoint; and every leaf a branch owns has
    /// positive extents.
    pub open spec fn wf(self) -> bool
        decreases self,
    {
        match self {
            RectNode::Closed => true,
            RectNode::Branch { rect, left, right } => {
                &&& rect.in_bounds()
                &&& left.wf()
                &&& right.wf()
                &&& left.leaves_positive()
                &&& right.leaves_positive()
                &&& (forall|i: int, j: int| #[trigger] left.covers(i, j) ==> rect.covers(i, j))
                &&& (forall|i: int, j: int| #[trigger] right.covers(i, j) ==> rect.covers(i, j))
                &&& (forall|i: int, j: int|
                    #![trigger left.covers(i, j)]
                    #![trigger right.covers(i, j)]
                    !(left.covers(i, j) && right.covers(i, j)))
            },
            RectNode::Leaf(r) => r.in_bounds(),
        }
    }

    /// The node a fresh remainder strip becomes: a zero-extent strip is closed
    /// outright, anything else is a free leaf.
    pub open spec fn spec_new(x: u32, y: u32, width: u32, height: u32) -> RectNode {
        if width == 0 || height == 0 {
            RectNode::Closed
        } else {
            RectNode::Leaf(Rectangle { x, y, width, height })
        }
    }

    /// The position that a placement query for extents `(w, h)` returns:
    /// a closed node refuses; a branch prunes on its recorded rectangle, then
    /// gives its right child precedence over its left; a fitting leaf yields
    /// its own origin.
    pub open spec fn spec_find_slot(self, w: u32, h: u32) -> Option<(u32, u32)>
        decreases self,
    {
        match self {
            RectNode::Closed => None,
            RectNode::Branch { rect, left, right } => {
                if !rect.spec_can_fit(w, h) {
                    None
                } else if right.spec_find_slot(w, h) is Some {
                    right.spec_find_slot(w, h)
                } else {
                    left.spec_find_slot(w, h)
                }
            },
            RectNode::Leaf(r) => {
                if r.spec_can_fit(w, h) {
                    Some((r.x, r.y))
                } else {
                    None
                }
            },
        }
    }

    /// The tree after a placement query for extents `(w, h)`: on failure the
    /// tree is unchanged; a fitting leaf becomes a branch whose right child is
    /// the strip beside the placed item (matching its height) and whose left
    /// child is the strip below it (spanning the full original width).
    pub open spec fn spec_after_slot(self, w: u32, h: u32) -> RectNode
        decreases self,
    {
        match self {
            RectNode::Closed => self,
            RectNode::Branch { rect, left, right } => {
                if !rect.spec_can_fit(w, h) {
                    self
                } else if right.spec_find_slot(w, h) is Some {
                    RectNode::Branch { rect, left, right: Box::new(right.spec_after_slot(w, h)) }
                } else if left.spec_find_slot(w, h) is Some {
                    RectNode::Branch { rect, left: Box::new(left.spec_after_slot(w, h)), right }
                } else {
                    self
                }
            },
            RectNode::Leaf(r) => {
                if r.spec_can_fit(w, h) {
                    RectNode::Branch {
                        rect: r,
                        right: Box::new(
                            RectNode::spec_new((r.x + w) as u32, r.y, (r.width - w) as u32, h),
                        ),
                        left: Box::new(
                            RectNode::spec_new(r.x, (r.y + h) as u32, r.width, (r.height - h) as u32),
                        ),
                    }
                } else {
                    self
                }
            },
        }
    }

    /// The right subtree of a branch in the abstract model.
    pub open spec fn spec_right(self) -> Option<RectNode> {
        match self {
            RectNode::Branch { right, .. } => Some(*right),
            _ => None,
        }
    }

    /// The left subtree of a branch in the abstract model.
    pub open spec fn spec_left(self) -> Option<RectNode> {
        match self {
            RectNode::Branch { left, .. } => Some(*left),
            _ => None,
        }
    }

    /// The rectangle of a branch or leaf in the abstract model.
    pub open spec fn spec_rect(self) -> Option<Rectangle> {
        match self {
            RectNode::Closed => None,
            RectNode::Branch { rect, .. } => Some(rect),
            RectNode::Leaf(r) => Some(r),
        }
    }

    pub fn new(x: u32, y: u32, width: u32, height: u32) -> (r: RectNode)
        ensures
            r == RectNode::spec_new(x, y, width, height),
    {
        if width == 0 || height == 0 {
            RectNode::Closed
        } else {
            RectNode::Leaf(Rectangle { x, y, width, height })
        }
    }

    /// Searches the tree for a free region that fits `target`, giving the
    /// right subtree of every branch precedence. On success the chosen leaf
    /// splits in place into a branch over the two remainder strips and the
    /// leaf's origin is returned; on failure the tree is left untouched.
    pub fn make_slot(&mut self, target: &(u32, u32)) -> (r: Option<(u32, u32)>)
        requires
            old(self).wf(),
        ensures
            final(self).wf(),
            r == old(self).spec_find_slot(target.0, target.1),
            *final(self) == old(self).spec_after_slot(target.0, target.1),
            r is None ==> *final(self) == *old(self),
    {
        let mut node = RectNode::Closed;
        core::mem::swap(self, &mut node);
        let (r, node) = RectNode::slot_in(node, target.0, target.1);
        *self = node;
        proof {
            lemma_after_wf(*old(self), target.0, target.1);
            if old(self).spec_find_slot(target.0, target.1) is None {
                lemma_failed_slot_unchanged(*old(self), target.0, target.1);
            }
        }
        r
    }

    /// The recursive search-and-split on an owned node; returns the slot found
    /// (if any) together with the resulting node.
    fn slot_in(node: RectNode, w: u32, h: u32) -> (res: (Option<(u32, u32)>, RectNode))
        requires
            node.wf(),
        ensures
            res.0 == node.spec_find_slot(w, h),
            res.1 == node.spec_after_slot(w, h),
        decreases node,
    {
        match node {
            RectNode::Closed => (None, RectNode::Closed),
            RectNode::Branch { rect, left, right } => {
                if !rect.can_fit(&(w, h)) {
                    // The recorded rectangle is at least as large as any free
                    // region below it, so nothing deeper can fit either.
                    (None, RectNode::Branch { rect, left, right })
                } else {
                    // Right side has precedence.
                    let (right_pos, right) = RectNode::slot_in(*right, w, h);
                    if right_pos.is_some() {
                        (right_pos, RectNode::Branch { rect, left, right: Box::new(right) })
                    } else {
                        let (left_pos, left) = RectNode::slot_in(*left, w, h);
                        (left_pos, RectNode::Branch { rect, left: Box::new(left), right: Box::new(right) })
                    }
                }
            },
            RectNode::Leaf(rect) => {
                if rect.can_fit(&(w, h)) {
                    let slot = Some((rect.x, rect.y));
                    // Split this node.
                    let right = Box::new(RectNode::new(rect.x + w, rect.y, rect.width - w, h));
                    let left = Box::new(RectNode::new(rect.x, rect.y + h, rect.width, rect.height - h));
                    (slot, RectNode::Branch { rect, left, right })
                } else {
                    (None, RectNode::Leaf(rect))
                }
            },
        }
    }

    /// Right node of branch.
    ///
    /// `None` when node is not a branch.
    pub fn right(&self) -> (r: Option<&RectNode>)
        ensures
            match r {
                Some(n) => self.spec_right() == Some(*n),
                None => self.spec_right() is None,
            },
    {
        match self {
            RectNode::Branch { right, .. } => Some(right),
            _ => None,
        }
    }

    /// Left node of branch.
    ///
    /// `None` when node is not a branch.
    pub fn left(&self) -> (r: Option<&RectNode>)
        ensures
            match r {
                Some(n) => self.spec_left() == Some(*n),
                None => self.spec_left() is None,
            },
    {
        match self {
            RectNode::Branch { left, .. } => Some(left),
            _ => None,
        }
    }

    /// Rectangle of branch and leaf nodes.
    pub fn rect(&self) -> (r: Option<&Rectangle>)
        ensures
            match r {
                Some(q) => self.spec_rect() == Some(*q),
                None => self.spec_rect() is None,
            },
    {
        match self {
            RectNode::Closed => None,
            RectNode::Branch { rect, .. } => Some(rect),
            RectNode::Leaf(rect) => Some(rect),
        }
    }
}

/// The rectangle that a placement at position `pos` with extents `(w, h)`
/// occupies.
pub open spec fn slot_rect(pos: (u32, u32), w: u32, h: u32) -> Rectangle {
    Rectangle { x: pos.0, y: pos.1, width: w, height: h }
}

/// A placement query never enlarges the free space: whatever the tree covers
/// afterwards, it covered before.
pub proof fn lemma_after_covers_subset(n: RectNode, w: u32, h: u32)
    requires
        n.wf(),
    ensures
        forall|i: int, j: int|
            #[trigger] n.spec_after_slot(w, h).covers(i, j) ==> n.covers(i, j),
    decreases n,
{
    match n {
        RectNode::Closed => {},
        RectNode::Branch { rect, left, right } => {
            lemma_after_covers_subset(*left, w, h);
            lemma_after_covers_subset(*right, w, h);
            assert forall|i: int, j: int|
                #[trigger] n.spec_after_slot(w, h).covers(i, j) implies n.covers(i, j) by {
                assert(n.covers(i, j) == (left.covers(i, j) || right.covers(i, j)));
                if rect.spec_can_fit(w, h) {
                    if right.spec_find_slot(w, h) is Some {
                        let m = RectNode::Branch {
                            rect,
                            left,
                            right: Box::new(right.spec_after_slot(w, h)),
                        };
                        assert(n.spec_after_slot(w, h) == m);
                        assert(m.covers(i, j) == (left.covers(i, j)
                            || right.spec_after_slot(w, h).covers(i, j)));
                    } else if left.spec_find_slot(w, h) is Some {
                        let m = RectNode::Branch {
                            rect,
                            left: Box::new(left.spec_after_slot(w, h)),
                            right,
                        };
                        assert(n.spec_after_slot(w, h) == m);
                        assert(m.covers(i, j) == (left.spec_after_slot(w, h).covers(i, j)
                            || right.covers(i, j)));
                    }
                }
            }
        },
        RectNode::Leaf(r) => {
            if r.spec_can_fit(w, h) {
                let rgt = RectNode::spec_new((r.x + w) as u32, r.y, (r.width - w) as u32, h);
                let lft = RectNode::spec_new(r.x, (r.y + h) as u32, r.width, (r.height - h) as u32);
                assert(n.spec_after_slot(w, h) == (RectNode::Branch {
                    rect: r,
                    right: Box::new(rgt),
                    left: Box::new(lft),
                }));
                assert forall|i: int, j: int| #[trigger] rgt.covers(i, j) implies r.covers(i, j) by {}
                assert forall|i: int, j: int| #[trigger] lft.covers(i, j) implies r.covers(i, j) by {}
                assert forall|i: int, j: int|
                    #[trigger] n.spec_after_slot(w, h).covers(i, j) implies n.covers(i, j) by {
                    assert(n.spec_after_slot(w, h).covers(i, j) == (lft.covers(i, j) || rgt.covers(
                        i,
                        j,
                    )));
                }
            }
        },
    }
}

/// A placement query preserves well-formedness, and never introduces a
/// degenerate leaf.
pub proof fn lemma_after_wf(n: RectNode, w: u32, h: u32)
    requires
        n.wf(),
    ensures
        n.spec_after_slot(w, h).wf(),
        n.leaves_positive() ==> n.spec_after_slot(w, h).leaves_positive(),
    decreases n,
{
    match n {
        RectNode::Closed => {},
        RectNode::Branch { rect, left, right } => {
            lemma_after_wf(*left, w, h);
            lemma_after_wf(*right, w, h);
            lemma_after_covers_subset(*left, w, h);
            lemma_after_covers_subset(*right, w, h);
            if rect.spec_can_fit(w, h) {
                if right.spec_find_slot(w, h) is Some {
                    let m = RectNode::Branch {
                        rect,
                        left,
                        right: Box::new(right.spec_after_slot(w, h)),
                    };
                    assert(n.spec_after_slot(w, h) == m);
                    assert(m.wf());
                } else if left.spec_find_slot(w, h) is Some {
                    let m = RectNode::Branch {
                        rect,
                        left: Box::new(left.spec_after_slot(w, h)),
                        right,
                    };
                    assert(n.spec_after_slot(w, h) == m);
                    assert(m.wf());
                }
            }
        },
        RectNode::Leaf(r) => {
            if r.spec_can_fit(w, h) {
                let rgt = RectNode::spec_new((r.x + w) as u32, r.y, (r.width - w) as u32, h);
                let lft = RectNode::spec_new(r.x, (r.y + h) as u32, r.width, (r.height - h) as u32);
                let m = RectNode::Branch { rect: r, right: Box::new(rgt), left: Box::new(lft) };
                assert(n.spec_after_slot(w, h) == m);
                assert(rgt.wf());
                assert(lft.wf());
                assert(rgt.leaves_positive());
                assert(lft.leaves_positive());
                assert forall|i: int, j: int| #[trigger] rgt.covers(i, j) implies r.covers(i, j) by {}
                assert forall|i: int, j: int| #[trigger] lft.covers(i, j) implies r.covers(i, j) by {}
                assert forall|i: int, j: int|
                    #![trigger lft.covers(i, j)]
                    #![trigger rgt.covers(i, j)]
                    !(lft.covers(i, j) && rgt.covers(i, j)) by {}
                assert(m.wf());
            }
        },
    }
}

/// A query that finds no slot makes no mutation at all.
pub proof fn lemma_failed_slot_unchanged(n: RectNode, w: u32, h: u32)
    requires
        n.spec_find_slot(w, h) is None,
    ensures
        n.spec_after_slot(w, h) == n,
    decreases n,
{
    match n {
        RectNode::Closed => {},
        RectNode::Branch { rect, left, right } => {
            if rect.spec_can_fit(w, h) {
                lemma_failed_slot_unchanged(*right, w, h);
                lemma_failed_slot_unchanged(*left, w, h);
            }
        },
        RectNode::Leaf(r) => {},
    }
}

/// A subtree whose leaves are all positive and whose free space lies within
/// `rect` can only fit what `rect` itself could fit: the coarse test of the
/// search prunes soundly.
proof fn lemma_fit_lift(n: RectNode, rect: Rectangle, w: u32, h: u32)
    requires
        n.leaves_positive(),
        forall|i: int, j: int| #[trigger] n.covers(i, j) ==> rect.covers(i, j),
        n.has_fit(w, h),
    ensures
        rect.spec_can_fit(w, h),
    decreases n,
{
    match n {
        RectNode::Closed => {},
        RectNode::Branch { left, right, .. } => {
            if left.has_fit(w, h) {
                assert forall|i: int, j: int| #[trigger] left.covers(i, j) implies rect.covers(
                    i,
                    j,
                ) by {
                    assert(n.covers(i, j));
                }
                lemma_fit_lift(*left, rect, w, h);
            } else {
                assert forall|i: int, j: int| #[trigger] right.covers(i, j) implies rect.covers(
                    i,
                    j,
                ) by {
                    assert(n.covers(i, j));
                }
                lemma_fit_lift(*right, rect, w, h);
            }
        },
        RectNode::Leaf(r) => {
            assert(n.covers(r.x as int, r.y as int));
            assert(n.covers(r.x + r.width - 1, r.y + r.height - 1));
            assert(rect.covers(r.x as int, r.y as int));
            assert(rect.covers(r.x + r.width - 1, r.y + r.height - 1));
        },
    }
}

/// The search is complete as well as sound: on a well-formed tree it finds a
/// slot exactly when some free leaf could accept the target.
pub proof fn lemma_find_slot_complete(n: RectNode, w: u32, h: u32)
    requires
        n.wf(),
    ensures
        n.spec_find_slot(w, h) is Some <==> n.has_fit(w, h),
    decreases n,
{
    match n {
        RectNode::Closed => {},
        RectNode::Branch { rect, left, right } => {
            lemma_find_slot_complete(*left, w, h);
            lemma_find_slot_complete(*right, w, h);
            if !rect.spec_can_fit(w, h) {
                if left.has_fit(w, h) {
                    lemma_fit_lift(*left, rect, w, h);
                }
                if right.has_fit(w, h) {
                    lemma_fit_lift(*right, rect, w, h);
                }
            }
        },
        RectNode::Leaf(r) => {},
    }
}

/// A split loses no space: after a successful placement the old free space is
/// exactly the new free space together with the placed rectangle. With
/// `lemma_place_properties` (the two are disjoint) no region is double-counted
/// or lost.
pub proof fn lemma_split_loses_no_space(n: RectNode, w: u32, h: u32)
    requires
        n.wf(),
        n.spec_find_slot(w, h) is Some,
    ensures
        ({
            let pos = n.spec_find_slot(w, h).unwrap();
            let m = n.spec_after_slot(w, h);
            forall|i: int, j: int|
                #[trigger] n.covers(i, j) <==> (m.covers(i, j) || slot_rect(pos, w, h).covers(i, j))
        }),
    decreases n,
{
    let pos = n.spec_find_slot(w, h).unwrap();
    let m = n.spec_after_slot(w, h);
    lemma_place_properties(n, w, h);
    lemma_after_covers_subset(n, w, h);
    match n {
        RectNode::Closed => {},
        RectNode::Branch { rect, left, right } => {
            if right.spec_find_slot(w, h) is Some {
                lemma_split_loses_no_space(*right, w, h);
                let m2 = RectNode::Branch {
                    rect,
                    left,
                    right: Box::new(right.spec_after_slot(w, h)),
                };
                assert(m == m2);
                assert forall|i: int, j: int| #[trigger] n.covers(i, j) implies (m.covers(i, j)
                    || slot_rect(pos, w, h).covers(i, j)) by {
                    assert(m.covers(i, j) == (left.covers(i, j) || right.spec_after_slot(
                        w,
                        h,
                    ).covers(i, j)));
                    assert(right.covers(i, j) ==> (right.spec_after_slot(w, h).covers(i, j)
                        || slot_rect(pos, w, h).covers(i, j)));
                }
            } else {
                lemma_split_loses_no_space(*left, w, h);
                let m2 = RectNode::Branch {
                    rect,
                    left: Box::new(left.spec_after_slot(w, h)),
                    right,
                };
                assert(m == m2);
                assert forall|i: int, j: int| #[trigger] n.covers(i, j) implies (m.covers(i, j)
                    || slot_rect(pos, w, h).covers(i, j)) by {
                    assert(m.covers(i, j) == (left.spec_after_slot(w, h).covers(i, j)
                        || right.covers(i, j)));
                    assert(left.covers(i, j) ==> (left.spec_after_slot(w, h).covers(i, j)
                        || slot_rect(pos, w, h).covers(i, j)));
                }
            }
        },
        RectNode::Leaf(r) => {
            let rgt = RectNode::spec_new((r.x + w) as u32, r.y, (r.width - w) as u32, h);
            let lft = RectNode::spec_new(r.x, (r.y + h) as u32, r.width, (r.height - h) as u32);
            let m2 = RectNode::Branch { rect: r, right: Box::new(rgt), left: Box::new(lft) };
            assert(m == m2);
            assert forall|i: int, j: int| #[trigger] n.covers(i, j) implies (m.covers(i, j)
                || slot_rect(pos, w, h).covers(i, j)) by {
                assert(m.covers(i, j) == (lft.covers(i, j) || rgt.covers(i, j)));
            }
        },
    }
}

/// Idempotent failure: a query whose target fits in no free region of a
/// well-formed tree finds no slot and makes no mutation at all, so repeating
/// the same failing query yields the same result.
pub proof fn lemma_failed_query_idempotent(n: RectNode, w: u32, h: u32)
    requires
        n.wf(),
        !n.has_fit(w, h),
    ensures
        n.spec_find_slot(w, h) is None,
        n.spec_after_slot(w, h) == n,
{
    lemma_find_slot_complete(n, w, h);
    lemma_failed_slot_unchanged(n, w, h);
}

/// What one successful placement does to the free space of a well-formed
/// tree: the placed rectangle lay entirely in free space, its coordinates do
/// not wrap, and afterwards it is free no more.
pub proof fn lemma_place_properties(n: RectNode, w: u32, h: u32)
    requires
        n.wf(),
        n.spec_find_slot(w, h) is Some,
    ensures
        ({
            let pos = n.spec_find_slot(w, h).unwrap();
            let m = n.spec_after_slot(w, h);
            &&& pos.0 + w <= u32::MAX
            &&& pos.1 + h <= u32::MAX
            &&& (forall|i: int, j: int|
                #[trigger] slot_rect(pos, w, h).covers(i, j) ==> n.covers(i, j))
            &&& (forall|i: int, j: int|
                #[trigger] slot_rect(pos, w, h).covers(i, j) ==> !m.covers(i, j))
        }),
    decreases n,
{
    let pos = n.spec_find_slot(w, h).unwrap();
    let m = n.spec_after_slot(w, h);
    match n {
        RectNode::Closed => {},
        RectNode::Branch { rect, left, right } => {
            if right.spec_find_slot(w, h) is Some {
                lemma_place_properties(*right, w, h);
                let m2 = RectNode::Branch {
                    rect,
                    left,
                    right: Box::new(right.spec_after_slot(w, h)),
                };
                assert(m == m2);
                assert forall|i: int, j: int|
                    #[trigger] slot_rect(pos, w, h).covers(i, j) implies !m.covers(i, j) by {
                    assert(right.covers(i, j));
                    assert(!left.covers(i, j));
                    assert(!right.spec_after_slot(w, h).covers(i, j));
                    assert(m.covers(i, j) == (left.covers(i, j) || right.spec_after_slot(
                        w,
                        h,
                    ).covers(i, j)));
                }
            } else {
                lemma_place_properties(*left, w, h);
                let m2 = RectNode::Branch {
                    rect,
                    left: Box::new(left.spec_after_slot(w, h)),
                    right,
                };
                assert(m == m2);
                assert forall|i: int, j: int|
                    #[trigger] slot_rect(pos, w, h).covers(i, j) implies !m.covers(i, j) by {
                    assert(left.covers(i, j));
                    assert(!right.covers(i, j));
                    assert(!left.spec_after_slot(w, h).covers(i, j));
                    assert(m.covers(i, j) == (left.spec_after_slot(w, h).covers(i, j)
                        || right.covers(i, j)));
                }
            }
        },
        RectNode::Leaf(r) => {
            let rgt = RectNode::spec_new((r.x + w) as u32, r.y, (r.width - w) as u32, h);
            let lft = RectNode::spec_new(r.x, (r.y + h) as u32, r.width, (r.height - h) as u32);
            let m2 = RectNode::Branch { rect: r, right: Box::new(rgt), left: Box::new(lft) };
            assert(m == m2);
            assert forall|i: int, j: int|
                #[trigger] slot_rect(pos, w, h).covers(i, j) implies !m.covers(i, j) by {
                assert(m.covers(i, j) == (lft.covers(i, j) || rgt.covers(i, j)));
            }
        },
    }
}

} // verus!
