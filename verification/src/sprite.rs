//! A decoded raster image: integer extents and a row-major RGBA pixel buffer,
//! one packed 32-bit value per pixel. Used both for the images handed to the
//! packer and for the canvas it composes.

use vstd::prelude::*;

verus! {

/// A rectangular pixel buffer. Row-major: the pixel at column `x`, row `y`
/// sits at index `y * width + x`.
#[derive(Debug)]
pub struct Image {
    width: u32,
    height: u32,
    pixels: Vec<u32>,
}

impl View for Image {
    type V = Seq<u32>;

    closed spec fn view(&self) -> Seq<u32> {
        self.pixels@
    }
}

impl Image {
    pub closed spec fn spec_width(self) -> u32 {
        self.width
    }

    pub closed spec fn spec_height(self) -> u32 {
        self.height
    }

    /// The buffer holds exactly one value per pixel.
    pub open spec fn wf(self) -> bool {
        self@.len() == self.spec_width() * self.spec_height()
    }

    /// The pixel at column `i`, row `j`.
    pub open spec fn spec_pixel(self, i: int, j: int) -> u32 {
        self@[j * self.spec_width() + i]
    }

    /// Builds an image over the given buffer; refuses a buffer whose length
    /// does not match the extents.
    pub fn new(width: u32, height: u32, pixels: Vec<u32>) -> (r: Option<Image>)
        ensures
            match r {
                Some(img) => {
                    &&& img.wf()
                    &&& img.spec_width() == width
                    &&& img.spec_height() == height
                    &&& img@ == pixels@
                },
                None => pixels@.len() != width * height,
            },
    {
        proof {
            assert((width as int) * (height as int) <= u64::MAX as int) by (nonlinear_arith)
                requires
                    width <= u32::MAX,
                    height <= u32::MAX,
            ;
        }
        if (width as u64) * (height as u64) == (pixels.len() as u64) {
            Some(Image { width, height, pixels })
        } else {
            None
        }
    }

    /// A blank, fully zeroed canvas of the given extents.
    pub fn blank(width: u32, height: u32) -> (r: Image)
        requires
            width * height <= usize::MAX,
        ensures
            r.wf(),
            r.spec_width() == width,
            r.spec_height() == height,
            forall|i: int, j: int|
                0 <= i < width && 0 <= j < height ==> #[trigger] r.spec_pixel(i, j) == 0,
    {
        let n: usize = (width as usize) * (height as usize);
        let pixels: Vec<u32> = vec![0u32; n];
        let r = Image { width, height, pixels };
        proof {
            assert forall|i: int, j: int| 0 <= i < width && 0 <= j < height implies #[trigger] r
                .spec_pixel(i, j) == 0 by {
                lemma_row_major_index(width as int, height as int, i, j);
            }
        }
        r
    }

    pub fn width(&self) -> (w: u32)
        ensures
            w == self.spec_width(),
    {
        self.width
    }

    pub fn height(&self) -> (h: u32)
        ensures
            h == self.spec_height(),
    {
        self.height
    }

    /// The extents as a `(width, height)` pair.
    pub fn dimensions(&self) -> (d: (u32, u32))
        ensures
            d == (self.spec_width(), self.spec_height()),
    {
        (self.width, self.height)
    }

    /// Reads the pixel at column `x`, row `y`.
    pub fn pixel(&self, x: u32, y: u32) -> (p: u32)
        requires
            self.wf(),
            x < self.spec_width(),
            y < self.spec_height(),
        ensures
            p == self.spec_pixel(x as int, y as int),
    {
        let n = self.pixels.len();
        proof {
            lemma_row_major_index(
                self.spec_width() as int,
                self.spec_height() as int,
                x as int,
                y as int,
            );
            assert((y as int) * (self.spec_width() as int) + x < n);
        }
        let idx: usize = (y as usize) * (self.width as usize) + (x as usize);
        self.pixels[idx]
    }

    /// Composites `src` into this image by direct replacement of the
    /// destination pixels, with `src`'s top-left corner at `(x, y)`: the
    /// source pixel values, including any transparency, overwrite whatever was
    /// in that region; every pixel outside the region keeps its value.
    pub fn copy_from(&mut self, src: &Image, x: u32, y: u32)
        requires
            old(self).wf(),
            src.wf(),
            x + src.spec_width() <= old(self).spec_width(),
            y + src.spec_height() <= old(self).spec_height(),
        ensures
            final(self).wf(),
            final(self).spec_width() == old(self).spec_width(),
            final(self).spec_height() == old(self).spec_height(),
            forall|i: int, j: int|
                0 <= i < src.spec_width() && 0 <= j < src.spec_height()
                    ==> final(self).spec_pixel(x + i, y + j) == src.spec_pixel(i, j),
            forall|i: int, j: int|
                0 <= i < old(self).spec_width() && 0 <= j < old(self).spec_height()
                    && !(x <= i < x + src.spec_width() && y <= j < y + src.spec_height())
                    ==> final(self).spec_pixel(i, j) == old(self).spec_pixel(i, j),
    {
        let w = self.width;
        let h = self.height;
        let sw = src.width;
        let sh = src.height;
        let mut j: u32 = 0;
        while j < sh
            invariant
                self.wf(),
                src.wf(),
                self.spec_width() == w,
                self.spec_height() == h,
                sw == src.spec_width(),
                sh == src.spec_height(),
                x + sw <= w,
                y + sh <= h,
                0 <= j <= sh,
                forall|a: int, b: int|
                    0 <= a < w && 0 <= b < h ==> #[trigger] self.spec_pixel(a, b) == (if x <= a < x
                        + sw && y <= b < y + j {
                        src.spec_pixel(a - x, b - y)
                    } else {
                        old(self).spec_pixel(a, b)
                    }),
            decreases sh - j,
        {
            let mut i: u32 = 0;
            while i < sw
                invariant
                    self.wf(),
                    src.wf(),
                    self.spec_width() == w,
                    self.spec_height() == h,
                    sw == src.spec_width(),
                    sh == src.spec_height(),
                    x + sw <= w,
                    y + sh <= h,
                    0 <= j < sh,
                    0 <= i <= sw,
                    forall|a: int, b: int|
                        0 <= a < w && 0 <= b < h ==> #[trigger] self.spec_pixel(a, b) == (if (x <= a
                            < x + sw && y <= b < y + j) || (b == y + j && x <= a < x + i) {
                            src.spec_pixel(a - x, b - y)
                        } else {
                            old(self).spec_pixel(a, b)
                        }),
                decreases sw - i,
            {
                let src_len = src.pixels.len();
                let dst_len = self.pixels.len();
                proof {
                    lemma_row_major_index(sw as int, sh as int, i as int, j as int);
                    lemma_row_major_index(w as int, h as int, x + i, y + j);
                    assert((j as int) * (sw as int) + i < src_len);
                    assert((y + j as int) * (w as int) + (x + i) < dst_len);
                }
                let src_idx: usize = (j as usize) * (sw as usize) + (i as usize);
                let dst_idx: usize = ((y + j) as usize) * (w as usize) + ((x + i) as usize);
                let ghost prev = *self;
                let v = src.pixels[src_idx];
                self.pixels[dst_idx] = v;
                proof {
                    assert forall|a: int, b: int| 0 <= a < w && 0 <= b < h implies #[trigger] self
                        .spec_pixel(a, b) == (if (x <= a < x + sw && y <= b < y + j) || (b == y + j
                        && x <= a < x + i + 1) {
                        src.spec_pixel(a - x, b - y)
                    } else {
                        old(self).spec_pixel(a, b)
                    }) by {
                        lemma_row_major_index(w as int, h as int, a, b);
                        if a == x + i && b == y + j {
                            assert(self.spec_pixel(a, b) == v);
                            assert(src.spec_pixel(a - x, b - y) == v);
                        } else {
                            lemma_row_major_distinct(w as int, a, b, x + i, y + j);
                            assert(self.spec_pixel(a, b) == prev.spec_pixel(a, b));
                        }
                    }
                }
                i = i + 1;
            }
            j = j + 1;
        }
    }
}

/// A row-major index lies inside the buffer and the arithmetic that forms it
/// stays in machine range.
proof fn lemma_row_major_index(w: int, h: int, i: int, j: int) by (nonlinear_arith)
    requires
        0 <= i < w,
        0 <= j < h,
    ensures
        0 <= j * w + i < h * w,
        j * w + i < w * h,
{
}

/// Two distinct pixel positions never share a row-major index.
proof fn lemma_row_major_distinct(w: int, a1: int, b1: int, a2: int, b2: int) by (nonlinear_arith)
    requires
        0 <= a1 < w,
        0 <= a2 < w,
        !(a1 == a2 && b1 == b2),
    ensures
        b1 * w + a1 != b2 * w + a2,
{
}

} // verus!
