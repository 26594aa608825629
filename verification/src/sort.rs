//! Height-descending, stable ordering of the input images: the tallest items
//! are placed first, and images of equal height keep their input order, so
//! packing is reproducible for a given input sequence.

use vstd::prelude::*;

use crate::sprite::Image;

verus! {

/// Where an image goes when inserted into a sequence already sorted by height
/// descending: after every strictly taller image, before the first image of
/// equal or smaller height. Equal heights keep the earlier image in front, so
/// the sort is stable.
pub open spec fn spec_insert_desc(img: Image, s: Seq<Image>) -> Seq<Image>
    decreases s.len(),
{
    if s.len() == 0 {
        seq![img]
    } else if img.spec_height() < s[0].spec_height() {
        seq![s[0]] + spec_insert_desc(img, s.drop_first())
    } else {
        seq![img] + s
    }
}

/// The input sequence sorted by height, descending, stably.
pub open spec fn spec_sort_desc(s: Seq<Image>) -> Seq<Image>
    decreases s.len(),
{
    if s.len() == 0 {
        Seq::empty()
    } else {
        spec_insert_desc(s[0], spec_sort_desc(s.drop_first()))
    }
}

/// Heights never increase along the sequence.
pub open spec fn sorted_desc(s: Seq<Image>) -> bool {
    forall|k1: int, k2: int|
        0 <= k1 <= k2 < s.len() ==> s[k1].spec_height() >= s[k2].spec_height()
}

/// Inserts `img` into the sorted vector `acc`, keeping it sorted by height
/// descending and placing `img` behind every strictly taller image.
fn insert_desc(acc: &mut Vec<Image>, img: Image)
    ensures
        final(acc)@ == spec_insert_desc(img, old(acc)@),
{
    let h = img.height();
    let mut pos: usize = 0;
    while pos < acc.len() && h < acc[pos].height()
        invariant
            0 <= pos <= acc@.len(),
            *acc == *old(acc),
            forall|m: int| 0 <= m < pos ==> img.spec_height() < acc@[m].spec_height(),
            h == img.spec_height(),
        decreases acc@.len() - pos,
    {
        pos = pos + 1;
    }
    proof {
        lemma_insert_desc_split(img, acc@, pos as int);
    }
    acc.insert(pos, img);
}

/// `spec_insert_desc` puts the image exactly at the first position whose
/// current occupant is not strictly taller.
proof fn lemma_insert_desc_split(img: Image, s: Seq<Image>, pos: int)
    requires
        0 <= pos <= s.len(),
        forall|m: int| 0 <= m < pos ==> img.spec_height() < s[m].spec_height(),
        pos < s.len() ==> img.spec_height() >= s[pos].spec_height(),
    ensures
        spec_insert_desc(img, s) == s.insert(pos, img),
    decreases s.len(),
{
    if s.len() == 0 {
        assert(spec_insert_desc(img, s) =~= s.insert(0, img));
    } else if pos == 0 {
        assert(spec_insert_desc(img, s) == seq![img] + s);
        assert(seq![img] + s =~= s.insert(0, img));
    } else {
        lemma_insert_desc_split(img, s.drop_first(), pos - 1);
        assert(seq![s[0]] + s.drop_first().insert(pos - 1, img) =~= s.insert(pos, img));
    }
}

/// Sorts the images by height, descending, stably.
pub fn sort_images(images: Vec<Image>) -> (r: Vec<Image>)
    ensures
        r@ == spec_sort_desc(images@),
{
    let mut rest = images;
    let mut acc: Vec<Image> = Vec::new();
    proof {
        assert(rest@.skip(rest@.len() as int) =~= Seq::<Image>::empty());
        assert(images@.take(images@.len() as int) =~= images@);
    }
    while rest.len() > 0
        invariant
            rest@.len() <= images@.len(),
            rest@ == images@.take(rest@.len() as int),
            acc@ == spec_sort_desc(images@.skip(rest@.len() as int)),
        decreases rest@.len(),
    {
        let ghost k = rest@.len() as int;
        let img = rest.pop().unwrap();
        proof {
            assert(images@.take(k).drop_last() =~= images@.take(k - 1));
            assert(images@.take(k).last() == images@[k - 1]);
            assert(images@.skip(k - 1).drop_first() =~= images@.skip(k));
            assert(images@.skip(k - 1)[0] == images@[k - 1]);
        }
        insert_desc(&mut acc, img);
    }
    proof {
        assert(images@.skip(0) =~= images@);
    }
    acc
}

/// The ordering law of the sort: the result is ordered by height descending
/// and holds exactly the input images, counted with multiplicity. Together
/// with the exact recursive definition `spec_sort_desc` (which `sort_images`
/// returns verbatim) this makes the packing order deterministic for a given
/// input sequence.
pub proof fn lemma_sort_desc_sorted(s: Seq<Image>)
    ensures
        spec_sort_desc(s).len() == s.len(),
        sorted_desc(spec_sort_desc(s)),
        spec_sort_desc(s).to_multiset() == s.to_multiset(),
    decreases s.len(),
{
    broadcast use vstd::seq_lib::group_to_multiset_ensures;
    broadcast use vstd::multiset::group_multiset_axioms;

    if s.len() == 0 {
    } else {
        lemma_sort_desc_sorted(s.drop_first());
        lemma_insert_desc_props(s[0], spec_sort_desc(s.drop_first()));
        assert(s =~= s.drop_first().insert(0, s[0]));
        assert(s.drop_first().insert(0, s[0]).to_multiset() == s.drop_first().to_multiset().insert(
            s[0],
        ));
    }
}

/// The images of one given height.
pub open spec fn has_height(h: u32) -> spec_fn(Image) -> bool {
    |img: Image| img.spec_height() == h
}

/// Stability of the sort: for each height, the sorted sequence holds the
/// images of that height in exactly their input order.
pub proof fn lemma_sort_desc_stable(s: Seq<Image>, h: u32)
    ensures
        spec_sort_desc(s).filter(has_height(h)) == s.filter(has_height(h)),
    decreases s.len(),
{
    broadcast use vstd::seq_lib::group_seq_lib_default;

    if s.len() == 0 {
    } else {
        lemma_sort_desc_stable(s.drop_first(), h);
        lemma_insert_desc_filter(s[0], spec_sort_desc(s.drop_first()), h);
        lemma_filter_singleton(s[0], h);
        assert(s =~= seq![s[0]] + s.drop_first());
        assert((seq![s[0]] + s.drop_first()).filter(has_height(h)) == seq![s[0]].filter(
            has_height(h),
        ) + s.drop_first().filter(has_height(h)));
        assert(spec_sort_desc(s).filter(has_height(h)) =~= s.filter(has_height(h)));
    }
}

/// Where it lands, an inserted image passes exactly itself through the height
/// filter, ahead of the equal-height images already present.
proof fn lemma_insert_desc_filter(img: Image, t: Seq<Image>, h: u32)
    ensures
        spec_insert_desc(img, t).filter(has_height(h)) == (if img.spec_height() == h {
            seq![img]
        } else {
            Seq::<Image>::empty()
        }) + t.filter(has_height(h)),
    decreases t.len(),
{
    broadcast use vstd::seq_lib::group_seq_lib_default;

    if t.len() == 0 {
        lemma_filter_singleton(img, h);
        assert(t.filter(has_height(h)) =~= Seq::<Image>::empty()) by {
            reveal(Seq::filter);
        }
        assert(spec_insert_desc(img, t).filter(has_height(h)) =~= (if img.spec_height() == h {
            seq![img]
        } else {
            Seq::<Image>::empty()
        }) + t.filter(has_height(h)));
    } else if img.spec_height() < t[0].spec_height() {
        lemma_insert_desc_filter(img, t.drop_first(), h);
        lemma_filter_singleton(t[0], h);
        assert(spec_insert_desc(img, t) == seq![t[0]] + spec_insert_desc(img, t.drop_first()));
        assert((seq![t[0]] + spec_insert_desc(img, t.drop_first())).filter(has_height(h))
            == seq![t[0]].filter(has_height(h)) + spec_insert_desc(img, t.drop_first()).filter(
            has_height(h),
        ));
        assert(t =~= seq![t[0]] + t.drop_first());
        assert((seq![t[0]] + t.drop_first()).filter(has_height(h)) == seq![t[0]].filter(
            has_height(h),
        ) + t.drop_first().filter(has_height(h)));
        assert(spec_insert_desc(img, t).filter(has_height(h)) =~= (if img.spec_height() == h {
            seq![img]
        } else {
            Seq::<Image>::empty()
        }) + t.filter(has_height(h)));
    } else {
        lemma_filter_singleton(img, h);
        assert(spec_insert_desc(img, t) == seq![img] + t);
        assert((seq![img] + t).filter(has_height(h)) == seq![img].filter(has_height(h)) + t.filter(
            has_height(h),
        ));
    }
}

/// The height filter of a one-image sequence.
proof fn lemma_filter_singleton(img: Image, h: u32)
    ensures
        seq![img].filter(has_height(h)) == (if img.spec_height() == h {
            seq![img]
        } else {
            Seq::<Image>::empty()
        }),
{
    reveal(Seq::filter);
    assert(seq![img].drop_last() =~= Seq::<Image>::empty());
    assert(Seq::<Image>::empty().filter(has_height(h)) =~= Seq::<Image>::empty());
    assert(seq![img].last() == img);
    assert(has_height(h)(img) == (img.spec_height() == h));
    if img.spec_height() == h {
        assert(seq![img].filter(has_height(h)) =~= seq![img]);
    } else {
        assert(seq![img].filter(has_height(h)) =~= Seq::<Image>::empty());
    }
}

/// Inserting into a sorted sequence keeps it sorted and adds exactly the
/// inserted image to its contents.
proof fn lemma_insert_desc_props(img: Image, s: Seq<Image>)
    requires
        sorted_desc(s),
    ensures
        spec_insert_desc(img, s).len() == s.len() + 1,
        sorted_desc(spec_insert_desc(img, s)),
        spec_insert_desc(img, s).to_multiset() == s.to_multiset().insert(img),
    decreases s.len(),
{
    broadcast use vstd::seq_lib::group_to_multiset_ensures;
    broadcast use vstd::multiset::group_multiset_axioms;

    if s.len() == 0 {
        assert(spec_insert_desc(img, s) =~= s.insert(0, img));
        assert(s.insert(0, img).to_multiset() == s.to_multiset().insert(img));
    } else if img.spec_height() < s[0].spec_height() {
        assert(sorted_desc(s.drop_first()));
        lemma_insert_desc_props(img, s.drop_first());
        let t = spec_insert_desc(img, s.drop_first());
        let r = seq![s[0]] + t;
        assert(spec_insert_desc(img, s) == r);
        // Every element of the tail is no taller than the head.
        assert forall|k: int| 0 <= k < t.len() implies s[0].spec_height() >= t[k].spec_height() by {
            assert(t.to_multiset().count(t[k]) > 0);
            if t[k] == img {
            } else {
                assert(s.drop_first().to_multiset().count(t[k]) > 0);
                assert(s.drop_first().contains(t[k]));
                let m = choose|m: int|
                    0 <= m < s.drop_first().len() && s.drop_first()[m] == t[k];
                assert(s[m + 1] == t[k]);
            }
        }
        assert forall|k1: int, k2: int| 0 <= k1 <= k2 < r.len() implies r[k1].spec_height()
            >= r[k2].spec_height() by {
            if k1 > 0 {
                assert(r[k1] == t[k1 - 1]);
                assert(r[k2] == t[k2 - 1]);
            } else if k2 > 0 {
                assert(r[k2] == t[k2 - 1]);
            }
        }
        assert(r =~= t.insert(0, s[0]));
        assert(t.insert(0, s[0]).to_multiset() == t.to_multiset().insert(s[0]));
        assert(s =~= s.drop_first().insert(0, s[0]));
        assert(s.drop_first().insert(0, s[0]).to_multiset() == s.drop_first().to_multiset().insert(
            s[0],
        ));
        assert(r.to_multiset() =~= s.to_multiset().insert(img));
    } else {
        let r = seq![img] + s;
        assert(spec_insert_desc(img, s) == r);
        assert forall|k1: int, k2: int| 0 <= k1 <= k2 < r.len() implies r[k1].spec_height()
            >= r[k2].spec_height() by {
            if k1 > 0 {
                assert(r[k1] == s[k1 - 1]);
                assert(r[k2] == s[k2 - 1]);
            } else if k2 > 0 {
                assert(r[k2] == s[k2 - 1]);
            }
        }
        assert(r =~= s.insert(0, img));
        assert(s.insert(0, img).to_multiset() == s.to_multiset().insert(img));
    }
}

} // verus!
