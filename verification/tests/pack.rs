use sprite_packer::errors::PackError;
use sprite_packer::node::RectNode;
use sprite_packer::packer::Packer;
use sprite_packer::rect::Rectangle;
use sprite_packer::sprite::Image;

fn solid(width: u32, height: u32, color: u32) -> Image {
    Image::new(width, height, vec![color; (width * height) as usize]).unwrap()
}

#[test]
fn test_split() {
    let mut root = RectNode::Leaf(Rectangle::new(0, 0, 10, 10));

    let slot_1 = root.make_slot(&(5, 5));

    assert_eq!(slot_1, Some((0, 0)));
    assert_eq!(
        root.right().and_then(RectNode::rect),
        Some(&Rectangle::new(5, 0, 5, 5))
    );
    assert_eq!(
        root.left().and_then(RectNode::rect),
        Some(&Rectangle::new(0, 5, 10, 5))
    );

    let slot_2 = root.make_slot(&(4, 5));

    assert_eq!(
        slot_2,
        Some((5, 0)),
        "Slot was not placed in the right side node"
    );
    assert_eq!(
        root.right()
            .and_then(RectNode::right)
            .and_then(RectNode::rect),
        Some(&Rectangle::new(9, 0, 1, 5))
    );
    assert_eq!(
        root.right().and_then(RectNode::left),
        Some(&RectNode::Closed)
    );
}

#[test]
fn can_fit_is_componentwise() {
    let r = Rectangle::new(3, 4, 10, 20);
    assert!(r.can_fit(&(10, 20)));
    assert!(r.can_fit(&(1, 1)));
    assert!(!r.can_fit(&(11, 20)));
    assert!(!r.can_fit(&(10, 21)));
}

#[test]
fn zero_extent_target_fits_trivially() {
    let r = Rectangle::new(0, 0, 10, 10);
    assert!(r.can_fit(&(0, 0)));
    assert!(r.can_fit(&(0, 5)));
    assert!(r.can_fit(&(5, 0)));
    assert!(!r.can_fit(&(0, 11)));
    assert!(!r.can_fit(&(11, 0)));

    // A zero-extent placement is accepted at the leaf's origin; the strip
    // beside it is degenerate and closes, the strip below keeps all the space.
    let mut root = RectNode::Leaf(Rectangle::new(0, 0, 10, 10));
    assert_eq!(root.make_slot(&(0, 0)), Some((0, 0)));
    assert_eq!(root.right(), Some(&RectNode::Closed));
    assert_eq!(
        root.left().and_then(RectNode::rect),
        Some(&Rectangle::new(0, 0, 10, 10))
    );
}

#[test]
fn failed_query_leaves_tree_unchanged() {
    let mut root = RectNode::Leaf(Rectangle::new(0, 0, 10, 10));
    assert_eq!(root.make_slot(&(6, 6)), Some((0, 0)));
    let before = root.repr();

    // Too large for every remaining region.
    assert_eq!(root.make_slot(&(6, 6)), None);
    assert_eq!(root.repr(), before);
    // Repeating the same failing query yields the same result.
    assert_eq!(root.make_slot(&(6, 6)), None);
    assert_eq!(root.repr(), before);
}

#[test]
fn non_overlap_of_placed_slots() {
    let mut root = RectNode::Leaf(Rectangle::new(0, 0, 64, 64));
    let targets = [(32u32, 32u32), (32, 32), (16, 16), (16, 16), (64, 16), (8, 8)];
    let mut placed: Vec<(u32, u32, u32, u32)> = Vec::new();
    for t in targets.iter() {
        if let Some(pos) = root.make_slot(t) {
            placed.push((pos.0, pos.1, t.0, t.1));
        }
    }
    assert!(placed.len() >= 4);
    for a in 0..placed.len() {
        let (ax, ay, aw, ah) = placed[a];
        // Within the canvas.
        assert!(ax + aw <= 64 && ay + ah <= 64);
        for b in 0..a {
            let (bx, by, bw, bh) = placed[b];
            let disjoint = ax + aw <= bx || bx + bw <= ax || ay + ah <= by || by + bh <= ay;
            assert!(disjoint, "slots {:?} and {:?} overlap", placed[a], placed[b]);
        }
    }
}

#[test]
fn pack_empty_batch_gives_blank_canvas() {
    let mut packer = Packer::new((4, 3));
    let canvas = packer.pack(Vec::new()).unwrap();
    assert_eq!(canvas.dimensions(), (4, 3));
    for y in 0..3 {
        for x in 0..4 {
            assert_eq!(canvas.pixel(x, y), 0);
        }
    }
}

#[test]
fn pack_places_tallest_first_at_predicted_offsets() {
    // A canvas that exactly accommodates a known optimal packing: one tall
    // image on the left, two half-height images stacked beside it.
    let red = solid(50, 50, 0xff_00_00_ff);
    let green = solid(50, 100, 0x00_ff_00_ff);
    let blue = solid(50, 50, 0x00_00_ff_ff);

    let mut packer = Packer::new((100, 100));
    let canvas = packer.pack(vec![red, green, blue]).unwrap();

    // Sorted by height descending, stably: green, then red, then blue.
    // green fills the left column, red the top-right, blue the bottom-right.
    assert_eq!(canvas.pixel(0, 0), 0x00_ff_00_ff);
    assert_eq!(canvas.pixel(49, 99), 0x00_ff_00_ff);
    assert_eq!(canvas.pixel(50, 0), 0xff_00_00_ff);
    assert_eq!(canvas.pixel(99, 49), 0xff_00_00_ff);
    assert_eq!(canvas.pixel(50, 50), 0x00_00_ff_ff);
    assert_eq!(canvas.pixel(99, 99), 0x00_00_ff_ff);
}

#[test]
fn pack_round_trips_every_pixel() {
    // An image whose pixels are all distinct, so any misplacement shows.
    let mut pixels = Vec::new();
    for k in 0..6 * 4 {
        pixels.push(1000 + k as u32);
    }
    let patterned = Image::new(6, 4, pixels).unwrap();
    let tall = solid(3, 7, 7);

    let mut packer = Packer::new((10, 10));
    let canvas = packer.pack(vec![patterned, tall]).unwrap();

    // The taller image goes first at (0, 0); the patterned one lands in the
    // right-hand strip, flush against its origin (3, 0).
    for y in 0..7 {
        for x in 0..3 {
            assert_eq!(canvas.pixel(x, y), 7);
        }
    }
    for y in 0..4u32 {
        for x in 0..6u32 {
            assert_eq!(canvas.pixel(3 + x, y), 1000 + y * 6 + x);
        }
    }
    // Pixels outside every placed image stay blank.
    assert_eq!(canvas.pixel(0, 9), 0);
    assert_eq!(canvas.pixel(9, 9), 0);
}

#[test]
fn pack_exhaustion_reports_first_unplaceable() {
    // Two 6x10 images cannot share a 10x10 canvas; the error reports the
    // extents of the first image that could not be placed.
    let a = solid(6, 10, 1);
    let b = solid(6, 10, 2);
    let mut packer = Packer::new((10, 10));
    let err = packer.pack(vec![a, b]).unwrap_err();
    assert_eq!(err, PackError::PackerOutOfSpace(6, 10));
    assert_eq!(err.target_slot(), (6, 10));
}

#[test]
fn pack_rejects_image_taller_than_canvas() {
    let small = solid(2, 2, 5);
    let tall = solid(1, 11, 6);
    let mut packer = Packer::new((10, 10));
    // Sorted tallest first, the 1x11 image is attempted first and fails.
    let err = packer.pack(vec![small, tall]).unwrap_err();
    assert_eq!(err, PackError::PackerOutOfSpace(1, 11));
}

#[test]
fn sort_is_height_descending_and_stable() {
    // Widths serve as markers; the two height-5 images must keep their order.
    let imgs = vec![solid(1, 3, 0), solid(2, 5, 0), solid(3, 5, 0), solid(4, 2, 0)];
    let sorted = sprite_packer::sort::sort_images(imgs);
    let order: Vec<(u32, u32)> = sorted.iter().map(|img| img.dimensions()).collect();
    assert_eq!(order, vec![(2, 5), (3, 5), (1, 3), (4, 2)]);
}

#[test]
fn image_new_checks_buffer_length() {
    assert!(Image::new(3, 2, vec![0; 6]).is_some());
    assert!(Image::new(3, 2, vec![0; 5]).is_none());
    assert!(Image::new(0, 5, vec![]).is_some());
}

#[test]
fn repr_renders_the_tree() {
    let mut root = RectNode::Leaf(Rectangle::new(0, 0, 10, 10));
    assert_eq!(root.repr(), " * (0, 0, 10, 10)\n");
    assert_eq!(Rectangle::new(1, 22, 333, 4).repr(), "(1, 22, 333, 4)");

    root.make_slot(&(5, 5));
    assert_eq!(
        root.repr(),
        " - (0, 0, 10, 10)\n   * (5, 0, 5, 5)\n   * (0, 5, 10, 5)\n"
    );
}
