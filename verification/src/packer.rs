//! The packer: owns the partition tree and the canvas extents, orders the
//! input images tallest-first, asks the tree for a slot for each, and
//! composites every placed image into the output canvas.

use vstd::prelude::*;

use crate::errors::PackError;
use crate::node::{slot_rect, RectNode};
use crate::node::{lemma_after_covers_subset, lemma_after_wf, lemma_place_properties};
use crate::rect::Rectangle;
use crate::sort::{sort_images, spec_sort_desc};
use crate::sprite::Image;

verus! {

/// The extents of each image, in sequence order.
pub open spec fn dims_of(imgs: Seq<Image>) -> Seq<(u32, u32)> {
    imgs.map_values(|img: Image| (img.spec_width(), img.spec_height()))
}

/// The positions the tree assigns when the given extents are requested in
/// order, one query mutating the tree for the next; or the extents of the
/// first request that finds no slot, at which point the whole run fails.
pub open spec fn spec_pack_positions(n: RectNode, dims: Seq<(u32, u32)>) -> Result<
    Seq<(u32, u32)>,
    (u32, u32),
>
    decreases dims.len(),
{
    if dims.len() == 0 {
        Ok(Seq::empty())
    } else {
        match n.spec_find_slot(dims[0].0, dims[0].1) {
            None => Err(dims[0]),
            Some(p) => match spec_pack_positions(
                n.spec_after_slot(dims[0].0, dims[0].1),
                dims.drop_first(),
            ) {
                Ok(ps) => Ok(seq![p] + ps),
                Err(e) => Err(e),
            },
        }
    }
}

/// Holds the tree root and the canvas extents for one packing run.
pub struct Packer {
    size: (u32, u32),
    root: Box<RectNode>,
}

impl Packer {
    pub closed spec fn spec_size(self) -> (u32, u32) {
        self.size
    }

    pub closed spec fn spec_root(self) -> RectNode {
        *self.root
    }

    /// The tree is well-formed, its free space lies inside the canvas, and a
    /// canvas buffer of these extents fits in memory.
    pub open spec fn wf(self) -> bool {
        &&& self.spec_root().wf()
        &&& (forall|i: int, j: int|
            #[trigger] self.spec_root().covers(i, j) ==> 0 <= i < self.spec_size().0 && 0 <= j
                < self.spec_size().1)
        &&& self.spec_size().0 * self.spec_size().1 <= usize::MAX
    }

    /// A packer over a blank canvas of the given extents, whose tree is a
    /// single free leaf spanning the whole canvas.
    pub fn new(size: (u32, u32)) -> (p: Packer)
        requires
            size.0 * size.1 <= usize::MAX,
        ensures
            p.wf(),
            p.spec_size() == size,
            p.spec_root() == RectNode::Leaf(
                Rectangle { x: 0, y: 0, width: size.0, height: size.1 },
            ),
    {
        Packer { size, root: Box::new(RectNode::Leaf(Rectangle::new(0, 0, size.0, size.1))) }
    }

    /// Packs the images onto one canvas. The images are sorted by height,
    /// descending and stably; each in turn is assigned a slot by the tree and
    /// composited at that position by direct pixel replacement. The first
    /// image that fits nowhere aborts the whole run: no partial canvas is
    /// returned, and the error carries that image's exact extents.
    pub fn pack(&mut self, images: Vec<Image>) -> (r: Result<Image, PackError>)
        requires
            old(self).wf(),
            forall|m: int| 0 <= m < images@.len() ==> (#[trigger] images@[m]).wf(),
        ensures
            final(self).wf(),
            final(self).spec_size() == old(self).spec_size(),
            ({
                let sorted = spec_sort_desc(images@);
                let dims = dims_of(sorted);
                let res = spec_pack_positions(old(self).spec_root(), dims);
                match r {
                    Ok(canvas) => {
                        &&& res is Ok
                        &&& canvas.wf()
                        &&& canvas.spec_width() == old(self).spec_size().0
                        &&& canvas.spec_height() == old(self).spec_size().1
                        &&& (forall|m: int, i: int, j: int|
                            0 <= m < sorted.len() && 0 <= i < dims[m].0 && 0 <= j < dims[m].1
                                ==> canvas.spec_pixel(res->Ok_0[m].0 + i, res->Ok_0[m].1 + j)
                                == #[trigger] sorted[m].spec_pixel(i, j))
                        &&& (forall|i: int, j: int|
                            0 <= i < canvas.spec_width() && 0 <= j < canvas.spec_height()
                                && (forall|m: int|
                                0 <= m < res->Ok_0.len() ==> !(#[trigger] slot_rect(
                                    res->Ok_0[m],
                                    dims[m].0,
                                    dims[m].1,
                                ).covers(i, j))) ==> #[trigger] canvas.spec_pixel(i, j) == 0)
                    },
                    Err(e) => {
                        &&& res is Err
                        &&& e == PackError::PackerOutOfSpace(res->Err_0.0, res->Err_0.1)
                    },
                }
            }),
    {
        let ghost root0 = old(self).spec_root();
        let w = self.size.0;
        let h = self.size.1;
        let sorted = sort_images(images);
        let ghost dims = dims_of(sorted@);
        proof {
            assert forall|m: int| 0 <= m < sorted@.len() implies (#[trigger] sorted@[m]).wf() by {
                broadcast use vstd::seq_lib::group_to_multiset_ensures;

                crate::sort::lemma_sort_desc_sorted(images@);
                assert(sorted@.to_multiset().count(sorted@[m]) > 0);
                assert(images@.contains(sorted@[m]));
                let idx = choose|idx: int|
                    0 <= idx < images@.len() && images@[idx] == sorted@[m];
                assert(images@[idx].wf());
            }
            assert(dims.skip(0) =~= dims);
            match spec_pack_positions(root0, dims) {
                Ok(ps) => {
                    assert(Seq::<(u32, u32)>::empty() + ps =~= ps);
                },
                Err(_) => {},
            }
        }
        let mut canvas = Image::blank(w, h);
        let n = sorted.len();
        let mut k: usize = 0;
        let ghost mut placed: Seq<(u32, u32)> = Seq::empty();
        while k < n
            invariant
                old(self).wf(),
                root0 == old(self).spec_root(),
                self.wf(),
                self.spec_size() == old(self).spec_size(),
                w == old(self).spec_size().0,
                h == old(self).spec_size().1,
                n == sorted@.len(),
                0 <= k <= n,
                dims == dims_of(sorted@),
                sorted@ == spec_sort_desc(images@),
                forall|m: int| 0 <= m < sorted@.len() ==> (#[trigger] sorted@[m]).wf(),
                canvas.wf(),
                canvas.spec_width() == w,
                canvas.spec_height() == h,
                placed.len() == k,
                spec_pack_positions(root0, dims) == (match spec_pack_positions(
                    self.spec_root(),
                    dims.skip(k as int),
                ) {
                    Ok(ps) => Ok::<Seq<(u32, u32)>, (u32, u32)>(placed + ps),
                    Err(e) => Err::<Seq<(u32, u32)>, (u32, u32)>(e),
                }),
                forall|i: int, j: int|
                    #[trigger] self.spec_root().covers(i, j) ==> root0.covers(i, j),
                forall|m: int, i: int, j: int|
                    0 <= m < k && #[trigger] slot_rect(placed[m], dims[m].0, dims[m].1).covers(i, j)
                        ==> root0.covers(i, j),
                forall|m: int, i: int, j: int|
                    0 <= m < k && #[trigger] slot_rect(placed[m], dims[m].0, dims[m].1).covers(i, j)
                        ==> !self.spec_root().covers(i, j),
                forall|m1: int, m2: int, i: int, j: int|
                    #![trigger slot_rect(placed[m1], dims[m1].0, dims[m1].1).covers(i, j), slot_rect(placed[m2], dims[m2].0, dims[m2].1).covers(i, j)]
                    0 <= m1 < m2 < k ==> !(slot_rect(placed[m1], dims[m1].0, dims[m1].1).covers(
                        i,
                        j,
                    ) && slot_rect(placed[m2], dims[m2].0, dims[m2].1).covers(i, j)),
                forall|m: int, i: int, j: int|
                    0 <= m < k && 0 <= i < dims[m].0 && 0 <= j < dims[m].1 ==> canvas.spec_pixel(
                        placed[m].0 + i,
                        placed[m].1 + j,
                    ) == #[trigger] sorted@[m].spec_pixel(i, j),
                forall|i: int, j: int|
                    0 <= i < w && 0 <= j < h && (forall|m: int|
                        0 <= m < k ==> !(#[trigger] slot_rect(placed[m], dims[m].0, dims[m].1).covers(
                            i,
                            j,
                        ))) ==> #[trigger] canvas.spec_pixel(i, j) == 0,
            decreases n - k,
        {
            let img = &sorted[k];
            let target = img.dimensions();
            let ghost cur = self.spec_root();
            proof {
                let ki = k as int;
                assert(dims[ki] == (sorted@[ki].spec_width(), sorted@[ki].spec_height()));
            }
            let slot = self.root.make_slot(&target);
            match slot {
                Some(pos) => {
                    proof {
                        lemma_place_properties(cur, target.0, target.1);
                        lemma_after_covers_subset(cur, target.0, target.1);
                        lemma_after_wf(cur, target.0, target.1);
                    }
                    if target.0 > 0 && target.1 > 0 {
                        proof {
                            let pr = slot_rect(pos, target.0, target.1);
                            assert(pr.covers(pos.0 + target.0 - 1, pos.1 + target.1 - 1));
                            assert(pr.covers(pos.0 as int, pos.1 as int));
                            assert(cur.covers(pos.0 + target.0 - 1, pos.1 + target.1 - 1));
                        }
                        canvas.copy_from(img, pos.0, pos.1);
                    }
                    proof {
                        let ghost prev_placed = placed;
                        placed = placed.push(pos);
                        let ki = k as int;
                        assert(dims.skip(ki)[0] == dims[ki]);
                        assert(dims.skip(ki).drop_first() =~= dims.skip(ki + 1));
                        match spec_pack_positions(self.spec_root(), dims.skip(ki + 1)) {
                            Ok(ps2) => {
                                assert(prev_placed + (seq![pos] + ps2) =~= placed + ps2);
                            },
                            Err(_) => {},
                        }
                        // The new placement lay in the old free space and in
                        // no earlier placement; the free space only shrank.
                        assert forall|m: int, i: int, j: int|
                            0 <= m < k + 1 && #[trigger] slot_rect(placed[m], dims[m].0, dims[m].1).covers(
                                i,
                                j,
                            ) implies root0.covers(i, j) by {
                            if m < k {
                                assert(slot_rect(prev_placed[m], dims[m].0, dims[m].1).covers(i, j));
                            } else {
                                assert(cur.covers(i, j));
                            }
                        }
                        assert forall|m: int, i: int, j: int|
                            0 <= m < k + 1 && #[trigger] slot_rect(placed[m], dims[m].0, dims[m].1).covers(
                                i,
                                j,
                            ) implies !self.spec_root().covers(i, j) by {
                            if m < k {
                                assert(slot_rect(prev_placed[m], dims[m].0, dims[m].1).covers(i, j));
                                if self.spec_root().covers(i, j) {
                                    assert(cur.covers(i, j));
                                }
                            }
                        }
                        assert forall|m1: int, m2: int, i: int, j: int|
                            0 <= m1 < m2 < k + 1 implies !(slot_rect(placed[m1], dims[m1].0, dims[m1].1).covers(
                            i,
                            j,
                        ) && slot_rect(placed[m2], dims[m2].0, dims[m2].1).covers(i, j)) by {
                            if slot_rect(placed[m1], dims[m1].0, dims[m1].1).covers(i, j)
                                && slot_rect(placed[m2], dims[m2].0, dims[m2].1).covers(i, j) {
                                if m2 < k {
                                    assert(slot_rect(prev_placed[m1], dims[m1].0, dims[m1].1).covers(
                                        i,
                                        j,
                                    ));
                                    assert(slot_rect(prev_placed[m2], dims[m2].0, dims[m2].1).covers(
                                        i,
                                        j,
                                    ));
                                } else {
                                    assert(slot_rect(prev_placed[m1], dims[m1].0, dims[m1].1).covers(
                                        i,
                                        j,
                                    ));
                                    assert(!cur.covers(i, j));
                                    assert(cur.covers(i, j));
                                }
                            }
                        }
                        // Pixels: the new image landed on its region, every
                        // earlier region is disjoint from it, and pixels
                        // outside all regions were and stay blank.
                        assert forall|m: int, i: int, j: int|
                            0 <= m < k + 1 && 0 <= i < dims[m].0 && 0 <= j < dims[m].1 implies canvas
                            .spec_pixel(placed[m].0 + i, placed[m].1 + j) == #[trigger] sorted@[m]
                            .spec_pixel(i, j) by {
                            if m < k {
                                assert(placed[m] == prev_placed[m]);
                                assert(slot_rect(prev_placed[m], dims[m].0, dims[m].1).covers(
                                    placed[m].0 + i,
                                    placed[m].1 + j,
                                ));
                                assert(root0.covers(placed[m].0 + i, placed[m].1 + j));
                                assert(old(self).spec_root().covers(placed[m].0 + i, placed[m].1 + j));
                                assert(0 <= placed[m].0 + i < w && 0 <= placed[m].1 + j < h);
                                if slot_rect(pos, dims[ki].0, dims[ki].1).covers(
                                    placed[m].0 + i,
                                    placed[m].1 + j,
                                ) {
                                    assert(cur.covers(placed[m].0 + i, placed[m].1 + j));
                                }
                                assert(!slot_rect(pos, dims[ki].0, dims[ki].1).covers(
                                    placed[m].0 + i,
                                    placed[m].1 + j,
                                ));
                            } else {
                                assert(placed[m] == pos);
                                assert(sorted@[m] == *img);
                            }
                        }
                        assert forall|i: int, j: int|
                            0 <= i < w && 0 <= j < h && (forall|m: int|
                                0 <= m < k + 1 ==> !(#[trigger] slot_rect(
                                    placed[m],
                                    dims[m].0,
                                    dims[m].1,
                                ).covers(i, j))) implies canvas.spec_pixel(i, j) == 0 by {
                            assert forall|m: int| 0 <= m < k implies !(#[trigger] slot_rect(
                                prev_placed[m],
                                dims[m].0,
                                dims[m].1,
                            ).covers(i, j)) by {
                                assert(placed[m] == prev_placed[m]);
                            }
                            assert(!slot_rect(placed[ki], dims[ki].0, dims[ki].1).covers(i, j));
                        }
                    }
                },
                None => {
                    proof {
                        let ki = k as int;
                        assert(dims.len() == sorted@.len());
                        assert(dims.skip(ki).len() == dims.len() - ki);
                        assert(dims.skip(ki)[0] == dims[ki]);
                        assert(dims[ki] == (target.0, target.1));
                        assert(spec_pack_positions(self.spec_root(), dims.skip(ki)) == Err::<
                            Seq<(u32, u32)>,
                            (u32, u32),
                        >(dims[ki]));
                        assert(spec_pack_positions(root0, dims) == Err::<
                            Seq<(u32, u32)>,
                            (u32, u32),
                        >((target.0, target.1)));
                        assert(root0 == old(self).spec_root());
                        assert(dims == dims_of(spec_sort_desc(images@)));
                        assert(spec_pack_positions(old(self).spec_root(), dims_of(spec_sort_desc(images@)))
                            == Err::<Seq<(u32, u32)>, (u32, u32)>((target.0, target.1)));
                    }
                    return Err(PackError::PackerOutOfSpace(target.0, target.1));
                },
            }
            k = k + 1;
        }
        proof {
            assert(dims.skip(n as int) =~= Seq::<(u32, u32)>::empty());
            assert(placed + Seq::<(u32, u32)>::empty() =~= placed);
        }
        Ok(canvas)
    }
}

/// Non-overlap: the placements of a successful packing run all lie in the
/// free space of the initial tree — for a fresh packer, within the canvas —
/// and are pairwise disjoint.
pub proof fn lemma_pack_positions_disjoint(n: RectNode, dims: Seq<(u32, u32)>)
    requires
        n.wf(),
        spec_pack_positions(n, dims) is Ok,
    ensures
        ({
            let ps = spec_pack_positions(n, dims)->Ok_0;
            &&& ps.len() == dims.len()
            &&& (forall|m: int, i: int, j: int|
                0 <= m < dims.len() && #[trigger] slot_rect(ps[m], dims[m].0, dims[m].1).covers(
                    i,
                    j,
                ) ==> n.covers(i, j))
            &&& (forall|m1: int, m2: int, i: int, j: int|
                #![trigger slot_rect(ps[m1], dims[m1].0, dims[m1].1).covers(i, j), slot_rect(ps[m2], dims[m2].0, dims[m2].1).covers(i, j)]
                0 <= m1 < m2 < dims.len() ==> !(slot_rect(ps[m1], dims[m1].0, dims[m1].1).covers(
                    i,
                    j,
                ) && slot_rect(ps[m2], dims[m2].0, dims[m2].1).covers(i, j)))
        }),
    decreases dims.len(),
{
    if dims.len() == 0 {
    } else {
        let w = dims[0].0;
        let h = dims[0].1;
        let p0 = n.spec_find_slot(w, h).unwrap();
        let rest = n.spec_after_slot(w, h);
        lemma_place_properties(n, w, h);
        lemma_after_covers_subset(n, w, h);
        lemma_after_wf(n, w, h);
        lemma_pack_positions_disjoint(rest, dims.drop_first());
        let ps = spec_pack_positions(n, dims)->Ok_0;
        let ps2 = spec_pack_positions(rest, dims.drop_first())->Ok_0;
        assert(ps == seq![p0] + ps2);
        assert forall|m: int, i: int, j: int|
            0 <= m < dims.len() && #[trigger] slot_rect(ps[m], dims[m].0, dims[m].1).covers(
                i,
                j,
            ) implies n.covers(i, j) by {
            if m == 0 {
                assert(slot_rect(p0, w, h).covers(i, j));
            } else {
                assert(ps[m] == ps2[m - 1]);
                assert(dims[m] == dims.drop_first()[m - 1]);
                assert(slot_rect(ps2[m - 1], dims.drop_first()[m - 1].0, dims.drop_first()[m
                    - 1].1).covers(i, j));
                assert(rest.covers(i, j));
            }
        }
        assert forall|m1: int, m2: int, i: int, j: int|
            0 <= m1 < m2 < dims.len() implies !(slot_rect(ps[m1], dims[m1].0, dims[m1].1).covers(
            i,
            j,
        ) && slot_rect(ps[m2], dims[m2].0, dims[m2].1).covers(i, j)) by {
            if slot_rect(ps[m1], dims[m1].0, dims[m1].1).covers(i, j) && slot_rect(
                ps[m2],
                dims[m2].0,
                dims[m2].1,
            ).covers(i, j) {
                assert(ps[m2] == ps2[m2 - 1]);
                assert(dims[m2] == dims.drop_first()[m2 - 1]);
                assert(slot_rect(ps2[m2 - 1], dims.drop_first()[m2 - 1].0, dims.drop_first()[m2
                    - 1].1).covers(i, j));
                if m1 == 0 {
                    assert(slot_rect(p0, w, h).covers(i, j));
                    assert(rest.covers(i, j));
                } else {
                    assert(ps[m1] == ps2[m1 - 1]);
                    assert(dims[m1] == dims.drop_first()[m1 - 1]);
                    assert(slot_rect(ps2[m1 - 1], dims.drop_first()[m1 - 1].0, dims.drop_first()[m1
                        - 1].1).covers(i, j));
                }
            }
        }
    }
}

/// Non-overlap, stated against a packer: every placement of a successful run
/// lies fully within the canvas bounds.
pub proof fn lemma_pack_positions_in_canvas(p: Packer, dims: Seq<(u32, u32)>)
    requires
        p.wf(),
        spec_pack_positions(p.spec_root(), dims) is Ok,
    ensures
        ({
            let ps = spec_pack_positions(p.spec_root(), dims)->Ok_0;
            forall|m: int, i: int, j: int|
                0 <= m < dims.len() && #[trigger] slot_rect(ps[m], dims[m].0, dims[m].1).covers(
                    i,
                    j,
                ) ==> 0 <= i < p.spec_size().0 && 0 <= j < p.spec_size().1
        }),
{
    lemma_pack_positions_disjoint(p.spec_root(), dims);
}

} // verus!
