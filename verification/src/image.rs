//! The owned boolean pixel grid (the canvas of the pipeline).

use vstd::prelude::*;
use crate::cutout::Cutout;
use crate::object::Pixel;

verus! {

broadcast use vstd::seq_lib::lemma_seq_contains_after_push;

/// The errors of grid combination: two grids can only be combined cell by
/// cell when their dimensions agree, and a checked sub-view must lie inside
/// the grid.
#[derive(Debug, Clone, Copy, PartialEq, Eq, Structural)]
pub enum ImageError {
    DimensionMismatch,
}

/// A packed boolean grid of `width * height` cells, row-major.
/// `true` cells are foreground (ink), `false` cells are background.
///
/// Out-of-range reads yield `false` and out-of-range writes are dropped,
/// so neighbour lookups near the edges need no explicit bounds branches.
#[derive(Debug, Clone)]
pub struct Image {
    pub width: usize,
    pub height: usize,
    pub data: Vec<bool>,
}

impl Image {
    /// The grid invariant: one cell for each of the `width * height` positions.
    pub open spec fn wf(&self) -> bool {
        self.data.len() == self.width * self.height
    }

    /// The cell at `(x, y)`; `false` anywhere outside the grid.
    pub open spec fn spec_get(&self, x: int, y: int) -> bool {
        0 <= x < self.width && 0 <= y < self.height && self.data[y * self.width + x]
    }

    /// A fresh all-background grid.
    pub fn new_empty(width: usize, height: usize) -> (r: Image)
        requires
            width * height <= usize::MAX,
        ensures
            r.wf(),
            r.width == width,
            r.height == height,
            forall|x: int, y: int| !r.spec_get(x, y),
    {
        let n: usize = width * height;
        let mut data: Vec<bool> = Vec::new();
        let mut i: usize = 0;
        while i < n
            invariant
                i <= n,
                data.len() == i,
                forall|k: int| 0 <= k < i ==> !data[k],
            decreases n - i,
        {
            data.push(false);
            i = i + 1;
        }
        let r = Image { width, height, data };
        proof {
            assert forall|x: int, y: int| !r.spec_get(x, y) by {
                if 0 <= x < width && 0 <= y < height {
                    lemma_row_major_index_in_range(width as int, height as int, x, y);
                }
            }
        }
        r
    }

    /// Wraps an existing row-major cell sequence as a grid.
    pub fn new(width: usize, height: usize, data: Vec<bool>) -> (r: Image)
        requires
            data.len() == width * height,
        ensures
            r.wf(),
            r.width == width,
            r.height == height,
            r.data == data,
    {
        Image { width, height, data }
    }

    pub fn width(&self) -> (r: usize)
        ensures
            r == self.width,
    {
        self.width
    }

    pub fn height(&self) -> (r: usize)
        ensures
            r == self.height,
    {
        self.height
    }

    /// Reads the cell at `(x, y)`: `false` if the position is out of range.
    pub fn get(&self, x: usize, y: usize) -> (r: bool)
        requires
            self.wf(),
        ensures
            r == self.spec_get(x as int, y as int),
    {
        if x < self.width && y < self.height {
            proof {
                lemma_row_major_index_in_range(self.width as int, self.height as int, x as int, y as int);
            }
            let idx: usize = y * self.width + x;
            self.data[idx]
        } else {
            false
        }
    }

    /// Writes the cell at `(x, y)`: a no-op if the position is out of range.
    pub fn set(&mut self, x: usize, y: usize, value: bool)
        requires
            old(self).wf(),
        ensures
            final(self).wf(),
            final(self).width == old(self).width,
            final(self).height == old(self).height,
            forall|i: int, j: int|
                final(self).spec_get(i, j) == if i == x && j == y && x < old(self).width && y < old(
                    self,
                ).height {
                    value
                } else {
                    old(self).spec_get(i, j)
                },
    {
        if x < self.width && y < self.height {
            proof {
                lemma_row_major_index_in_range(self.width as int, self.height as int, x as int, y as int);
            }
            let idx: usize = y * self.width + x;
            self.data.set(idx, value);
            proof {
                assert forall|i: int, j: int| #[trigger] self.spec_get(i, j) == if i == x && j == y {
                    value
                } else {
                    old(self).spec_get(i, j)
                } by {
                    if 0 <= i < self.width && 0 <= j < self.height && (i != x || j != y) {
                        lemma_row_major_index_injective(
                            self.width as int,
                            i,
                            j,
                            x as int,
                            y as int,
                        );
                        lemma_row_major_index_in_range(
                            self.width as int,
                            self.height as int,
                            i,
                            j,
                        );
                    }
                }
            }
        }
    }
}

/// For `x < width` and `y < height`, the row-major index `y * width + x`
/// stays below `width * height`.
pub proof fn lemma_row_major_index_in_range(width: int, height: int, x: int, y: int)
    requires
        0 <= x < width,
        0 <= y < height,
    ensures
        0 <= y * width + x < width * height,
        y * width <= (height - 1) * width,
{
    assert(y * width + x < width * height) by (nonlinear_arith)
        requires
            0 <= x < width,
            0 <= y < height,
    ;
    assert(y * width <= (height - 1) * width) by (nonlinear_arith)
        requires
            0 <= y < height,
            0 <= width,
    ;
}

/// Distinct in-range positions map to distinct row-major indices.
pub proof fn lemma_row_major_index_injective(width: int, x1: int, y1: int, x2: int, y2: int)
    requires
        0 <= x1 < width,
        0 <= x2 < width,
        0 <= y1,
        0 <= y2,
        x1 != x2 || y1 != y2,
    ensures
        y1 * width + x1 != y2 * width + x2,
{
    if y1 != y2 {
        assert(y1 * width + x1 != y2 * width + x2) by (nonlinear_arith)
            requires
                0 <= x1 < width,
                0 <= x2 < width,
                y1 != y2,
        ;
    }
}

impl Image {
    /// Whether the cell under `pixel` is foreground.
    pub fn has_pixel(&self, pixel: &Pixel) -> (r: bool)
        requires
            self.wf(),
        ensures
            r == self.spec_get(pixel.x as int, pixel.y as int),
    {
        self.get(pixel.x(), pixel.y())
    }

    /// The view spanning the whole grid.
    pub fn full_cutout(&self) -> (r: Cutout<'_>)
        requires
            self.wf(),
        ensures
            r.wf(),
            r.image == self,
            r.width == self.width,
            r.height == self.height,
            r.offx == 0,
            r.offy == 0,
    {
        Cutout::new(self, self.width, self.height, 0, 0)
    }

    /// A checked view into the grid; rejected when it would reach outside.
    pub fn cutout(&self, width: usize, height: usize, offx: usize, offy: usize) -> (r: Result<
        Cutout<'_>,
        ImageError,
    >)
        requires
            self.wf(),
        ensures
            r is Ok <==> offx + width <= self.width && offy + height <= self.height,
            r matches Ok(c) ==> {
                &&& c.wf()
                &&& c.image == self
                &&& c.width == width
                &&& c.height == height
                &&& c.offx == offx
                &&& c.offy == offy
            },
    {
        if width > self.width || offx > self.width - width || height > self.height || offy
            > self.height - height {
            return Err(ImageError::DimensionMismatch);
        }
        Ok(Cutout::new(self, width, height, offx, offy))
    }

    /// The cellwise logical AND of two grids of equal dimensions.
    pub fn and(&self, other: &Image) -> (r: Result<Image, ImageError>)
        requires
            self.wf(),
            other.wf(),
        ensures
            r is Ok <==> self.width == other.width && self.height == other.height,
            r matches Ok(img) ==> {
                &&& img.wf()
                &&& img.width == self.width
                &&& img.height == self.height
                &&& forall|x: int, y: int|
                    #[trigger] img.spec_get(x, y) == (self.spec_get(x, y) && other.spec_get(x, y))
            },
    {
        if self.width != other.width || self.height != other.height {
            return Err(ImageError::DimensionMismatch);
        }
        proof {
            vstd::std_specs::vec::axiom_spec_len(&self.data);
        }
        let mut img = Image::new_empty(self.width, self.height);
        let mut y: usize = 0;
        while y < self.height
            invariant
                self.wf(),
                other.wf(),
                img.wf(),
                img.width == self.width,
                img.height == self.height,
                other.width == self.width,
                other.height == self.height,
                y <= self.height,
                forall|i: int, j: int|
                    #[trigger] img.spec_get(i, j) == (j < y && self.spec_get(i, j)
                        && other.spec_get(i, j)),
            decreases self.height - y,
        {
            let mut x: usize = 0;
            while x < self.width
                invariant
                    self.wf(),
                    other.wf(),
                    img.wf(),
                    img.width == self.width,
                    img.height == self.height,
                    other.width == self.width,
                    other.height == self.height,
                    y < self.height,
                    x <= self.width,
                    forall|i: int, j: int|
                        #[trigger] img.spec_get(i, j) == ((j < y || (j == y && i < x))
                            && self.spec_get(i, j) && other.spec_get(i, j)),
                decreases self.width - x,
            {
                img.set(x, y, self.get(x, y) && other.get(x, y));
                x = x + 1;
            }
            y = y + 1;
        }
        Ok(img)
    }

    /// Sets every listed pixel to foreground; positions outside the grid are
    /// dropped.
    pub fn set_pixels(&mut self, pixels: &Vec<Pixel>)
        requires
            old(self).wf(),
        ensures
            final(self).wf(),
            final(self).width == old(self).width,
            final(self).height == old(self).height,
            forall|x: int, y: int|
                #[trigger] final(self).spec_get(x, y) == (old(self).spec_get(x, y) || (0 <= x
                    < old(self).width && 0 <= y < old(self).height && pixels@.contains(
                    Pixel { x: x as usize, y: y as usize },
                ))),
    {
        let mut i: usize = 0;
        proof {
            assert(forall|x: int, y: int|
                ! #[trigger] pixels@.take(0).contains(Pixel { x: x as usize, y: y as usize }));
        }
        while i < pixels.len()
            invariant
                self.wf(),
                self.width == old(self).width,
                self.height == old(self).height,
                i <= pixels@.len(),
                forall|x: int, y: int|
                    #[trigger] self.spec_get(x, y) == (old(self).spec_get(x, y) || (0 <= x
                        < old(self).width && 0 <= y < old(self).height && pixels@.take(
                        i as int,
                    ).contains(Pixel { x: x as usize, y: y as usize }))),
            decreases pixels@.len() - i,
        {
            let p = pixels[i];
            let ghost prev = *self;
            self.set(p.x, p.y, true);
            proof {
                assert(pixels@.take(i + 1) == pixels@.take(i as int).push(p));
                assert forall|x: int, y: int|
                    #[trigger] self.spec_get(x, y) == (old(self).spec_get(x, y) || (0 <= x < old(
                        self,
                    ).width && 0 <= y < old(self).height && pixels@.take(i + 1).contains(
                        Pixel { x: x as usize, y: y as usize },
                    ))) by {
                    let q = Pixel { x: x as usize, y: y as usize };
                    assert(pixels@.take(i + 1).contains(q) == (pixels@.take(i as int).contains(q)
                        || q == p));
                    if 0 <= x < self.width && 0 <= y < self.height {
                        if x == p.x && y == p.y {
                            assert(q == p);
                        } else {
                            assert(q != p);
                        }
                    }
                }
            }
            i = i + 1;
        }
        proof {
            assert(pixels@.take(pixels@.len() as int) == pixels@);
        }
    }

    /// Clears every listed pixel to background; positions outside the grid
    /// are dropped.
    pub fn clear_pixels(&mut self, pixels: &Vec<Pixel>)
        requires
            old(self).wf(),
        ensures
            final(self).wf(),
            final(self).width == old(self).width,
            final(self).height == old(self).height,
            forall|x: int, y: int|
                #[trigger] final(self).spec_get(x, y) == (old(self).spec_get(x, y)
                    && !pixels@.contains(Pixel { x: x as usize, y: y as usize })),
    {
        let mut i: usize = 0;
        proof {
            assert(forall|x: int, y: int|
                ! #[trigger] pixels@.take(0).contains(Pixel { x: x as usize, y: y as usize }));
        }
        while i < pixels.len()
            invariant
                self.wf(),
                self.width == old(self).width,
                self.height == old(self).height,
                i <= pixels@.len(),
                forall|x: int, y: int|
                    #[trigger] self.spec_get(x, y) == (old(self).spec_get(x, y) && !pixels@.take(
                        i as int,
                    ).contains(Pixel { x: x as usize, y: y as usize })),
            decreases pixels@.len() - i,
        {
            let p = pixels[i];
            self.set(p.x, p.y, false);
            proof {
                assert(pixels@.take(i + 1) == pixels@.take(i as int).push(p));
                assert forall|x: int, y: int|
                    #[trigger] self.spec_get(x, y) == (old(self).spec_get(x, y) && !pixels@.take(
                        i + 1,
                    ).contains(Pixel { x: x as usize, y: y as usize })) by {
                    let q = Pixel { x: x as usize, y: y as usize };
                    assert(pixels@.take(i + 1).contains(q) == (pixels@.take(i as int).contains(q)
                        || q == p));
                    if 0 <= x < self.width && 0 <= y < self.height {
                        if x == p.x && y == p.y {
                            assert(q == p);
                        } else {
                            assert(q != p);
                        }
                    }
                }
            }
            i = i + 1;
        }
        proof {
            assert(pixels@.take(pixels@.len() as int) == pixels@);
        }
    }

    /// Composites `other` into this grid at `(offx, offy)`, silently
    /// clipping whatever falls outside.
    pub fn overwrite(&mut self, other: &Image, offx: usize, offy: usize)
        requires
            old(self).wf(),
            other.wf(),
            offx + other.width <= usize::MAX,
            offy + other.height <= usize::MAX,
        ensures
            final(self).wf(),
            final(self).width == old(self).width,
            final(self).height == old(self).height,
            forall|x: int, y: int|
                #[trigger] final(self).spec_get(x, y) == (if offx <= x < offx + other.width && offy
                    <= y < offy + other.height && 0 <= x < old(self).width && 0 <= y < old(
                    self,
                ).height {
                    other.spec_get(x - offx, y - offy)
                } else {
                    old(self).spec_get(x, y)
                }),
    {
        let mut y: usize = 0;
        while y < other.height
            invariant
                self.wf(),
                other.wf(),
                self.width == old(self).width,
                self.height == old(self).height,
                offx + other.width <= usize::MAX,
                offy + other.height <= usize::MAX,
                y <= other.height,
                forall|i: int, j: int|
                    #[trigger] self.spec_get(i, j) == (if offx <= i < offx + other.width && offy
                        <= j < offy + y && 0 <= i < old(self).width && 0 <= j < old(
                        self,
                    ).height {
                        other.spec_get(i - offx, j - offy)
                    } else {
                        old(self).spec_get(i, j)
                    }),
            decreases other.height - y,
        {
            let mut x: usize = 0;
            while x < other.width
                invariant
                    self.wf(),
                    other.wf(),
                    self.width == old(self).width,
                    self.height == old(self).height,
                    offx + other.width <= usize::MAX,
                    offy + other.height <= usize::MAX,
                    y < other.height,
                    x <= other.width,
                    forall|i: int, j: int|
                        #[trigger] self.spec_get(i, j) == (if offx <= i < offx + other.width && (
                        offy <= j < offy + y || (j == offy + y && offx <= i < offx + x)) && 0 <= i
                            < old(self).width && 0 <= j < old(self).height {
                            other.spec_get(i - offx, j - offy)
                        } else {
                            old(self).spec_get(i, j)
                        }),
                decreases other.width - x,
            {
                self.set(x + offx, y + offy, other.get(x, y));
                x = x + 1;
            }
            y = y + 1;
        }
    }

    /// The cells whose foreground neighbour below has just ended: a fresh
    /// grid marking every foreground cell whose cell below is background.
    pub fn diff_down_up(&self) -> (r: Image)
        requires
            self.wf(),
        ensures
            r.wf(),
            r.width == self.width,
            r.height == self.height,
            forall|x: int, y: int|
                #[trigger] r.spec_get(x, y) == (0 <= y < self.height - 1 && self.spec_get(x, y)
                    && !self.spec_get(x, y + 1)),
    {
        proof {
            vstd::std_specs::vec::axiom_spec_len(&self.data);
        }
        let mut result = Image::new_empty(self.width, self.height);
        let mut y: usize = 1;
        while y < self.height
            invariant
                self.wf(),
                result.wf(),
                result.width == self.width,
                result.height == self.height,
                1 <= y,
                self.height >= 1 ==> y <= self.height,
                forall|i: int, j: int|
                    #[trigger] result.spec_get(i, j) == (j < y - 1 && self.spec_get(i, j)
                        && !self.spec_get(i, j + 1)),
            decreases self.height - y,
        {
            let mut x: usize = 0;
            while x < self.width
                invariant
                    self.wf(),
                    result.wf(),
                    result.width == self.width,
                    result.height == self.height,
                    1 <= y < self.height,
                    x <= self.width,
                    forall|i: int, j: int|
                        #[trigger] result.spec_get(i, j) == ((j < y - 1 || (j == y - 1 && i < x))
                            && self.spec_get(i, j) && !self.spec_get(i, j + 1)),
                decreases self.width - x,
            {
                if !self.get(x, y) && self.get(x, y - 1) {
                    result.set(x, y - 1, true);
                } else {
                    proof {
                        assert(result.spec_get(x as int, y - 1) == (self.spec_get(x as int, y - 1)
                            && !self.spec_get(x as int, y as int)));
                    }
                }
                x = x + 1;
            }
            y = y + 1;
        }
        result
    }

    /// Clears the leftmost `pixels` columns (clamped to the grid's width).
    pub fn clear_border_left(&mut self, pixels: usize)
        requires
            old(self).wf(),
        ensures
            final(self).wf(),
            final(self).width == old(self).width,
            final(self).height == old(self).height,
            forall|x: int, y: int|
                #[trigger] final(self).spec_get(x, y) == (old(self).spec_get(x, y) && x
                    >= pixels),
    {
        let w: usize = if pixels < self.width {
            pixels
        } else {
            self.width
        };
        let mut y: usize = 0;
        while y < self.height
            invariant
                self.wf(),
                self.width == old(self).width,
                self.height == old(self).height,
                w == if pixels < self.width {
                    pixels as int
                } else {
                    self.width as int
                },
                y <= self.height,
                forall|i: int, j: int|
                    #[trigger] self.spec_get(i, j) == (old(self).spec_get(i, j) && !(i < w && j
                        < y)),
            decreases self.height - y,
        {
            let mut x: usize = 0;
            while x < w
                invariant
                    self.wf(),
                    self.width == old(self).width,
                    self.height == old(self).height,
                    w <= self.width,
                    y < self.height,
                    x <= w,
                    forall|i: int, j: int|
                        #[trigger] self.spec_get(i, j) == (old(self).spec_get(i, j) && !(i < w && j
                            < y) && !(j == y && i < x)),
                decreases w - x,
            {
                self.set(x, y, false);
                x = x + 1;
            }
            y = y + 1;
        }
    }

    /// Clears the rightmost `pixels` columns (clamped to the grid's width).
    pub fn clear_border_right(&mut self, pixels: usize)
        requires
            old(self).wf(),
        ensures
            final(self).wf(),
            final(self).width == old(self).width,
            final(self).height == old(self).height,
            forall|x: int, y: int|
                #[trigger] final(self).spec_get(x, y) == (old(self).spec_get(x, y) && x + pixels
                    < old(self).width),
    {
        let w: usize = if pixels < self.width {
            pixels
        } else {
            self.width
        };
        let lo: usize = self.width - w;
        let mut y: usize = 0;
        while y < self.height
            invariant
                self.wf(),
                self.width == old(self).width,
                self.height == old(self).height,
                w == if pixels < self.width {
                    pixels as int
                } else {
                    self.width as int
                },
                lo == self.width - w,
                y <= self.height,
                forall|i: int, j: int|
                    #[trigger] self.spec_get(i, j) == (old(self).spec_get(i, j) && !(i >= lo && j
                        < y)),
            decreases self.height - y,
        {
            let mut x: usize = lo;
            while x < self.width
                invariant
                    self.wf(),
                    self.width == old(self).width,
                    self.height == old(self).height,
                    lo <= self.width,
                    lo == self.width - w,
                    y < self.height,
                    lo <= x <= self.width,
                    forall|i: int, j: int|
                        #[trigger] self.spec_get(i, j) == (old(self).spec_get(i, j) && !(i >= lo
                            && j < y) && !(j == y && lo <= i < x)),
                decreases self.width - x,
            {
                self.set(x, y, false);
                x = x + 1;
            }
            y = y + 1;
        }
    }
}

/// After the first border pass: a cell is set when it was set, or when
/// nothing above it (itself included) in its column was.
pub open spec fn fb_top(img: Image, x: int, y: int) -> bool {
    img.spec_get(x, y) || (0 <= x < img.width && 0 <= y < img.height && forall|y2: int|
        0 <= y2 <= y ==> !img.spec_get(x, y2))
}

/// After the second pass: additionally, cells with nothing below them.
pub open spec fn fb_bottom(img: Image, x: int, y: int) -> bool {
    fb_top(img, x, y) || (0 <= x < img.width && 0 <= y < img.height && forall|y2: int|
        y <= y2 < img.height ==> !fb_top(img, x, y2))
}

/// After the third pass: additionally, cells with nothing to their left.
pub open spec fn fb_left(img: Image, x: int, y: int) -> bool {
    fb_bottom(img, x, y) || (0 <= x < img.width && 0 <= y < img.height && forall|x2: int|
        0 <= x2 <= x ==> !fb_bottom(img, x2, y))
}

/// After the whole border fill: additionally, cells with nothing to their
/// right.
pub open spec fn fb_right(img: Image, x: int, y: int) -> bool {
    fb_left(img, x, y) || (0 <= x < img.width && 0 <= y < img.height && forall|x2: int|
        x <= x2 < img.width ==> !fb_left(img, x2, y))
}

impl Image {
    /// Walks every edge row and column inward to the first foreground cell,
    /// setting the cells passed over to foreground (a raw pixel edit that
    /// seals scan artifacts at the page edges).  A fully blank line is set
    /// whole.  The four walks run top, bottom, left, then right, each seeing
    /// the previous walks' result.
    pub fn fill_border(&mut self)
        requires
            old(self).wf(),
        ensures
            final(self).wf(),
            final(self).width == old(self).width,
            final(self).height == old(self).height,
            forall|x: int, y: int|
                #[trigger] final(self).spec_get(x, y) == fb_right(*old(self), x, y),
    {
        let ghost img0 = *self;
        self.fill_columns_top();
        let ghost img1 = *self;
        proof {
            assert(forall|x: int, y: int| #[trigger] img1.spec_get(x, y) == fb_top(img0, x, y));
        }
        self.fill_columns_bottom();
        let ghost img2 = *self;
        proof {
            assert forall|x: int, y: int|
                #[trigger] img2.spec_get(x, y) == fb_bottom(img0, x, y) by {
                assert(img1.spec_get(x, y) == fb_top(img0, x, y));
                if 0 <= x < img0.width && 0 <= y < img0.height {
                    if forall|y2: int| y <= y2 < img0.height ==> !img1.spec_get(x, y2) {
                        assert forall|y2: int|
                            y <= y2 < img0.height implies !fb_top(img0, x, y2) by {
                            assert(!img1.spec_get(x, y2));
                        }
                    }
                    if forall|y2: int| y <= y2 < img0.height ==> !fb_top(img0, x, y2) {
                        assert forall|y2: int|
                            y <= y2 < img0.height implies !(#[trigger] img1.spec_get(x, y2)) by {
                            assert(!fb_top(img0, x, y2));
                        }
                    }
                }
            }
        }
        self.fill_rows_left();
        let ghost img3 = *self;
        proof {
            assert forall|x: int, y: int|
                #[trigger] img3.spec_get(x, y) == fb_left(img0, x, y) by {
                assert(img2.spec_get(x, y) == fb_bottom(img0, x, y));
                if 0 <= x < img0.width && 0 <= y < img0.height {
                    if forall|x2: int| 0 <= x2 <= x ==> !img2.spec_get(x2, y) {
                        assert forall|x2: int| 0 <= x2 <= x implies !fb_bottom(img0, x2, y) by {
                            assert(!img2.spec_get(x2, y));
                            assert(img2.spec_get(x2, y) == fb_bottom(img0, x2, y));
                        }
                    }
                    if forall|x2: int| 0 <= x2 <= x ==> !fb_bottom(img0, x2, y) {
                        assert forall|x2: int|
                            0 <= x2 <= x implies !(#[trigger] img2.spec_get(x2, y)) by {
                            assert(!fb_bottom(img0, x2, y));
                            assert(img2.spec_get(x2, y) == fb_bottom(img0, x2, y));
                        }
                    }
                }
            }
        }
        self.fill_rows_right();
        proof {
            assert forall|x: int, y: int|
                #[trigger] self.spec_get(x, y) == fb_right(img0, x, y) by {
                assert(img3.spec_get(x, y) == fb_left(img0, x, y));
                if 0 <= x < img0.width && 0 <= y < img0.height {
                    if forall|x2: int| x <= x2 < img0.width ==> !img3.spec_get(x2, y) {
                        assert forall|x2: int|
                            x <= x2 < img0.width implies !fb_left(img0, x2, y) by {
                            assert(!img3.spec_get(x2, y));
                            assert(img3.spec_get(x2, y) == fb_left(img0, x2, y));
                        }
                    }
                    if forall|x2: int| x <= x2 < img0.width ==> !fb_left(img0, x2, y) {
                        assert forall|x2: int|
                            x <= x2 < img0.width implies !(#[trigger] img3.spec_get(x2, y)) by {
                            assert(!fb_left(img0, x2, y));
                            assert(img3.spec_get(x2, y) == fb_left(img0, x2, y));
                        }
                    }
                }
            }
        }
    }

    /// The top walk of the border fill, column by column.
    fn fill_columns_top(&mut self)
        requires
            old(self).wf(),
        ensures
            final(self).wf(),
            final(self).width == old(self).width,
            final(self).height == old(self).height,
            forall|x: int, y: int|
                #[trigger] final(self).spec_get(x, y) == (old(self).spec_get(x, y) || (0 <= x
                    < old(self).width && 0 <= y < old(self).height && forall|y2: int|
                    0 <= y2 <= y ==> !old(self).spec_get(x, y2))),
    {
        let mut x: usize = 0;
        while x < self.width
            invariant
                self.wf(),
                self.width == old(self).width,
                self.height == old(self).height,
                x <= self.width,
                forall|i: int, j: int|
                    #[trigger] self.spec_get(i, j) == (old(self).spec_get(i, j) || (0 <= i < x && 0
                        <= j < old(self).height && forall|y2: int|
                        0 <= y2 <= j ==> !old(self).spec_get(i, y2))),
            decreases self.width - x,
        {
            let mut k: usize = 0;
            while k < self.height && !self.get(x, k)
                invariant
                    self.wf(),
                    self.width == old(self).width,
                    self.height == old(self).height,
                    x < self.width,
                    k <= self.height,
                    forall|y2: int| 0 <= y2 < k ==> !old(self).spec_get(x as int, y2),
                    forall|i: int, j: int|
                        #[trigger] self.spec_get(i, j) == ((old(self).spec_get(i, j) || (0 <= i
                            < x && 0 <= j < old(self).height && forall|y2: int|
                            0 <= y2 <= j ==> !old(self).spec_get(i, y2))) || (i == x && 0 <= j
                            < k)),
                decreases self.height - k,
            {
                proof {
                    assert(self.spec_get(x as int, k as int) == old(self).spec_get(
                        x as int,
                        k as int,
                    ));
                }
                self.set(x, k, true);
                k = k + 1;
            }
            proof {
                assert forall|i: int, j: int|
                    #[trigger] self.spec_get(i, j) == (old(self).spec_get(i, j) || (0 <= i < x + 1
                        && 0 <= j < old(self).height && forall|y2: int|
                        0 <= y2 <= j ==> !old(self).spec_get(i, y2))) by {
                    if i == x && 0 <= j < old(self).height {
                        if j < k {
                            assert(self.spec_get(i, j));
                            assert(forall|y2: int| 0 <= y2 <= j ==> !old(self).spec_get(i, y2));
                        } else {
                            if k < old(self).height {
                                assert(old(self).spec_get(x as int, k as int));
                            }
                            assert(self.spec_get(i, j) == old(self).spec_get(i, j));
                            if forall|y2: int| 0 <= y2 <= j ==> !old(self).spec_get(i, y2) {
                                assert(k < old(self).height ==> !old(self).spec_get(
                                    x as int,
                                    k as int,
                                ));
                                assert(false);
                            }
                        }
                    }
                }
            }
            x = x + 1;
        }
    }

    /// The bottom walk of the border fill, column by column.
    fn fill_columns_bottom(&mut self)
        requires
            old(self).wf(),
        ensures
            final(self).wf(),
            final(self).width == old(self).width,
            final(self).height == old(self).height,
            forall|x: int, y: int|
                #[trigger] final(self).spec_get(x, y) == (old(self).spec_get(x, y) || (0 <= x
                    < old(self).width && 0 <= y < old(self).height && forall|y2: int|
                    y <= y2 < old(self).height ==> !old(self).spec_get(x, y2))),
    {
        let mut x: usize = 0;
        while x < self.width
            invariant
                self.wf(),
                self.width == old(self).width,
                self.height == old(self).height,
                x <= self.width,
                forall|i: int, j: int|
                    #[trigger] self.spec_get(i, j) == (old(self).spec_get(i, j) || (0 <= i < x && 0
                        <= j < old(self).height && forall|y2: int|
                        j <= y2 < old(self).height ==> !old(self).spec_get(i, y2))),
            decreases self.width - x,
        {
            let h: usize = self.height;
            let mut k: usize = 0;
            while k < h && !self.get(x, h - 1 - k)
                invariant
                    self.wf(),
                    self.width == old(self).width,
                    self.height == old(self).height,
                    h == self.height,
                    x < self.width,
                    k <= h,
                    forall|y2: int| h - k <= y2 < h ==> !old(self).spec_get(x as int, y2),
                    forall|i: int, j: int|
                        #[trigger] self.spec_get(i, j) == ((old(self).spec_get(i, j) || (0 <= i
                            < x && 0 <= j < old(self).height && forall|y2: int|
                            j <= y2 < old(self).height ==> !old(self).spec_get(i, y2))) || (i == x
                            && h - k <= j < h)),
                decreases h - k,
            {
                proof {
                    assert(self.spec_get(x as int, h - 1 - k) == old(self).spec_get(
                        x as int,
                        h - 1 - k,
                    ));
                }
                self.set(x, h - 1 - k, true);
                k = k + 1;
            }
            proof {
                assert forall|i: int, j: int|
                    #[trigger] self.spec_get(i, j) == (old(self).spec_get(i, j) || (0 <= i < x + 1
                        && 0 <= j < old(self).height && forall|y2: int|
                        j <= y2 < old(self).height ==> !old(self).spec_get(i, y2))) by {
                    if i == x && 0 <= j < old(self).height {
                        if j >= h - k {
                            assert(self.spec_get(i, j));
                            assert(forall|y2: int|
                                j <= y2 < old(self).height ==> !old(self).spec_get(i, y2));
                        } else {
                            if k < h {
                                assert(old(self).spec_get(x as int, h - 1 - k));
                            }
                            assert(self.spec_get(i, j) == old(self).spec_get(i, j));
                            if forall|y2: int|
                                j <= y2 < old(self).height ==> !old(self).spec_get(i, y2) {
                                assert(k < h ==> !old(self).spec_get(x as int, h - 1 - k));
                                assert(false);
                            }
                        }
                    }
                }
            }
            x = x + 1;
        }
    }

    /// The left walk of the border fill, row by row.
    fn fill_rows_left(&mut self)
        requires
            old(self).wf(),
        ensures
            final(self).wf(),
            final(self).width == old(self).width,
            final(self).height == old(self).height,
            forall|x: int, y: int|
                #[trigger] final(self).spec_get(x, y) == (old(self).spec_get(x, y) || (0 <= x
                    < old(self).width && 0 <= y < old(self).height && forall|x2: int|
                    0 <= x2 <= x ==> !old(self).spec_get(x2, y))),
    {
        let mut y: usize = 0;
        while y < self.height
            invariant
                self.wf(),
                self.width == old(self).width,
                self.height == old(self).height,
                y <= self.height,
                forall|i: int, j: int|
                    #[trigger] self.spec_get(i, j) == (old(self).spec_get(i, j) || (0 <= j < y && 0
                        <= i < old(self).width && forall|x2: int|
                        0 <= x2 <= i ==> !old(self).spec_get(x2, j))),
            decreases self.height - y,
        {
            let mut k: usize = 0;
            while k < self.width && !self.get(k, y)
                invariant
                    self.wf(),
                    self.width == old(self).width,
                    self.height == old(self).height,
                    y < self.height,
                    k <= self.width,
                    forall|x2: int| 0 <= x2 < k ==> !old(self).spec_get(x2, y as int),
                    forall|i: int, j: int|
                        #[trigger] self.spec_get(i, j) == ((old(self).spec_get(i, j) || (0 <= j
                            < y && 0 <= i < old(self).width && forall|x2: int|
                            0 <= x2 <= i ==> !old(self).spec_get(x2, j))) || (j == y && 0 <= i
                            < k)),
                decreases self.width - k,
            {
                proof {
                    assert(self.spec_get(k as int, y as int) == old(self).spec_get(
                        k as int,
                        y as int,
                    ));
                }
                self.set(k, y, true);
                k = k + 1;
            }
            proof {
                assert forall|i: int, j: int|
                    #[trigger] self.spec_get(i, j) == (old(self).spec_get(i, j) || (0 <= j < y + 1
                        && 0 <= i < old(self).width && forall|x2: int|
                        0 <= x2 <= i ==> !old(self).spec_get(x2, j))) by {
                    if j == y && 0 <= i < old(self).width {
                        if i < k {
                            assert(self.spec_get(i, j));
                            assert(forall|x2: int| 0 <= x2 <= i ==> !old(self).spec_get(x2, j));
                        } else {
                            if k < old(self).width {
                                assert(old(self).spec_get(k as int, y as int));
                            }
                            assert(self.spec_get(i, j) == old(self).spec_get(i, j));
                            if forall|x2: int| 0 <= x2 <= i ==> !old(self).spec_get(x2, j) {
                                assert(k < old(self).width ==> !old(self).spec_get(
                                    k as int,
                                    y as int,
                                ));
                                assert(false);
                            }
                        }
                    }
                }
            }
            y = y + 1;
        }
    }

    /// The right walk of the border fill, row by row.
    fn fill_rows_right(&mut self)
        requires
            old(self).wf(),
        ensures
            final(self).wf(),
            final(self).width == old(self).width,
            final(self).height == old(self).height,
            forall|x: int, y: int|
                #[trigger] final(self).spec_get(x, y) == (old(self).spec_get(x, y) || (0 <= x
                    < old(self).width && 0 <= y < old(self).height && forall|x2: int|
                    x <= x2 < old(self).width ==> !old(self).spec_get(x2, y))),
    {
        let mut y: usize = 0;
        while y < self.height
            invariant
                self.wf(),
                self.width == old(self).width,
                self.height == old(self).height,
                y <= self.height,
                forall|i: int, j: int|
                    #[trigger] self.spec_get(i, j) == (old(self).spec_get(i, j) || (0 <= j < y && 0
                        <= i < old(self).width && forall|x2: int|
                        i <= x2 < old(self).width ==> !old(self).spec_get(x2, j))),
            decreases self.height - y,
        {
            let w: usize = self.width;
            let mut k: usize = 0;
            while k < w && !self.get(w - 1 - k, y)
                invariant
                    self.wf(),
                    self.width == old(self).width,
                    self.height == old(self).height,
                    w == self.width,
                    y < self.height,
                    k <= w,
                    forall|x2: int| w - k <= x2 < w ==> !old(self).spec_get(x2, y as int),
                    forall|i: int, j: int|
                        #[trigger] self.spec_get(i, j) == ((old(self).spec_get(i, j) || (0 <= j
                            < y && 0 <= i < old(self).width && forall|x2: int|
                            i <= x2 < old(self).width ==> !old(self).spec_get(x2, j))) || (j == y
                            && w - k <= i < w)),
                decreases w - k,
            {
                proof {
                    assert(self.spec_get(w - 1 - k, y as int) == old(self).spec_get(
                        w - 1 - k,
                        y as int,
                    ));
                }
                self.set(w - 1 - k, y, true);
                k = k + 1;
            }
            proof {
                assert forall|i: int, j: int|
                    #[trigger] self.spec_get(i, j) == (old(self).spec_get(i, j) || (0 <= j < y + 1
                        && 0 <= i < old(self).width && forall|x2: int|
                        i <= x2 < old(self).width ==> !old(self).spec_get(x2, j))) by {
                    if j == y && 0 <= i < old(self).width {
                        if i >= w - k {
                            assert(self.spec_get(i, j));
                            assert(forall|x2: int|
                                i <= x2 < old(self).width ==> !old(self).spec_get(x2, j));
                        } else {
                            if k < w {
                                assert(old(self).spec_get(w - 1 - k, y as int));
                            }
                            assert(self.spec_get(i, j) == old(self).spec_get(i, j));
                            if forall|x2: int| i <= x2 < old(self).width ==> !old(self).spec_get(
                                x2,
                                j,
                            ) {
                                assert(k < w ==> !old(self).spec_get(w - 1 - k, y as int));
                                assert(false);
                            }
                        }
                    }
                }
            }
            y = y + 1;
        }
    }
}

/// Column `x` holds at least one foreground cell.
pub open spec fn col_has_fg(img: Image, x: int) -> bool {
    exists|y: int| img.spec_get(x, y)
}

/// Columns `lo..=hi` are the exact horizontal extent of the grid's content:
/// both end columns are inked and everything outside them is blank.
pub open spec fn is_content_span(img: Image, lo: int, hi: int) -> bool {
    &&& 0 <= lo <= hi < img.width
    &&& col_has_fg(img, lo)
    &&& col_has_fg(img, hi)
    &&& forall|x: int| 0 <= x < lo ==> !col_has_fg(img, x)
    &&& forall|x: int| hi < x < img.width ==> !col_has_fg(img, x)
}

impl Image {
    /// Centres the grid's content horizontally on a fresh grid of the given
    /// target width: the content keeps its rows, and its left margin becomes
    /// `(width - content width) / 2`.  A blank grid gives a blank result.
    pub fn horizontal_padding(&self, width: usize) -> (r: Image)
        requires
            self.wf(),
            forall|lo: int, hi: int|
                #[trigger] is_content_span(*self, lo, hi) ==> hi - lo + 1 <= width,
            width * self.height <= usize::MAX,
        ensures
            r.wf(),
            r.width == width,
            r.height == self.height,
            (forall|x: int, y: int| !self.spec_get(x, y)) ==> (forall|x: int, y: int|
                !r.spec_get(x, y)),
            forall|lo: int, hi: int|
                #[trigger] is_content_span(*self, lo, hi) ==> forall|ax: int, ay: int|
                    #[trigger] r.spec_get(ax, ay) == ((width - (hi - lo + 1)) / 2 <= ax < (width - (
                    hi - lo + 1)) / 2 + (hi - lo + 1) && self.spec_get(
                        ax - (width - (hi - lo + 1)) / 2 + lo,
                        ay,
                    )),
    {
        let full = self.full_cutout();
        let trimmed_left = full.trimm_left();
        match trimmed_left {
            None => {
                let r = Image::new_empty(width, self.height);
                proof {
                    assert forall|lo: int, hi: int|
                        #[trigger] is_content_span(*self, lo, hi) implies false by {
                        let fy = choose|y: int| self.spec_get(lo, y);
                        assert(!full.view_get(lo, fy));
                    }
                }
                r
            },
            Some(c1) => {
                proof {
                    crate::cutout::lemma_col_transfer(full, c1);
                    assert(!c1.all_blank()) by {
                        assert(!full.col_blank(full.width - c1.width));
                        assert(!c1.col_blank(0));
                        let fy = choose|y: int| 0 <= y < c1.height && c1.view_get(0, y);
                        assert(c1.view_get(0, fy));
                    }
                }
                let trimmed_right = c1.trimm_right();
                let c2 = match trimmed_right {
                    None => c1,
                    Some(c) => c,
                };
                proof {
                    assert(trimmed_right is Some);
                    crate::cutout::lemma_col_transfer(c1, c2);
                    crate::cutout::lemma_col_transfer(full, c2);
                }
                let lo: usize = c2.offx();
                let co: usize = c2.width();
                proof {
                    assert(is_content_span(*self, lo as int, lo + co - 1)) by {
                        assert(!full.col_blank(lo as int));
                        assert(col_has_fg(*self, lo as int)) by {
                            let fy = choose|y: int|
                                0 <= y < full.height && #[trigger] full.view_get(lo as int, y);
                            assert(self.spec_get(lo as int, fy));
                        }
                        assert(!c1.col_blank(c2.width - 1));
                        assert(!full.col_blank(lo + co - 1));
                        assert(col_has_fg(*self, lo + co - 1)) by {
                            let fy = choose|y: int|
                                0 <= y < full.height && #[trigger] full.view_get(lo + co - 1, y);
                            assert(self.spec_get(lo + co - 1, fy));
                        }
                        assert forall|x: int| 0 <= x < lo implies !col_has_fg(*self, x) by {
                            assert(full.col_blank(x));
                            if col_has_fg(*self, x) {
                                let fy = choose|y: int| self.spec_get(x, y);
                                assert(!full.view_get(x, fy));
                            }
                        }
                        assert forall|x: int|
                            lo + co - 1 < x < self.width implies !col_has_fg(*self, x) by {
                            assert(c1.col_blank(x - lo)) by {
                                assert(c2.width <= x - lo < c1.width);
                            }
                            assert(full.col_blank(x));
                            if col_has_fg(*self, x) {
                                let fy = choose|y: int| self.spec_get(x, y);
                                assert(!full.view_get(x, fy));
                            }
                        }
                    }
                    assert(co <= width);
                }
                let tl: usize = (width - co) / 2;
                proof {
                    vstd::arithmetic::div_mod::lemma_div_pos_is_pos((width - co) as int, 2);
                    assert((width - co) / 2 <= width - co) by (nonlinear_arith)
                        requires
                            0 <= width - co,
                    ;
                }
                let mut it = c2.pixels(false, true);
                let v = it.collect_all();
                proof {
                    assert(v@ == crate::cutout::pixel_seq(c2, false, true)) by {
                        assert(crate::cutout::pixel_seq(c2, false, true).skip(0)
                            == crate::cutout::pixel_seq(c2, false, true));
                    }
                }
                let mut shifted: Vec<Pixel> = Vec::new();
                let mut i: usize = 0;
                proof {
                    assert forall|k: int| 0 <= k < v@.len() implies lo <= (#[trigger] v@[k]).x
                        < lo + co && v@[k].y < self.height by {
                        assert(v@.contains(v@[k]));
                        crate::cutout::lemma_pixel_seq_contains(c2, false, true, v@[k]);
                    }
                }
                while i < v.len()
                    invariant
                        i <= v@.len(),
                        tl + co <= width,
                        forall|k: int|
                            0 <= k < v@.len() ==> lo <= (#[trigger] v@[k]).x < lo + co && v@[k].y
                                < self.height,
                        shifted@.len() == i,
                        forall|k: int|
                            0 <= k < i ==> #[trigger] shifted@[k] == (Pixel {
                                x: (v@[k].x - lo + tl) as usize,
                                y: v@[k].y,
                            }),
                    decreases v@.len() - i,
                {
                    let p = v[i];
                    shifted.push(Pixel { x: p.x - lo + tl, y: p.y });
                    i = i + 1;
                }
                let mut r = Image::new_empty(width, self.height);
                r.set_pixels(&shifted);
                proof {
                    assert forall|ax: int, ay: int|
                        #[trigger] r.spec_get(ax, ay) == (tl <= ax < tl + co && self.spec_get(
                            ax - tl + lo,
                            ay,
                        )) by {
                        let q = Pixel { x: ax as usize, y: ay as usize };
                        if 0 <= ax < width && 0 <= ay < self.height {
                            assert(r.spec_get(ax, ay) == shifted@.contains(q));
                            if tl <= ax < tl + co && self.spec_get(ax - tl + lo, ay) {
                                let source = Pixel { x: (ax - tl + lo) as usize, y: ay as usize };
                                assert(c2.view_get(ax - tl, ay));
                                assert(crate::cutout::pixel_match(c2, false, ax - tl, ay));
                                assert(source == crate::cutout::pixel_at(c2, true, ax - tl, ay));
                                crate::cutout::lemma_pixel_seq_contains(c2, false, true, source);
                                assert(v@.contains(source));
                                let k = choose|k: int| 0 <= k < v@.len() && v@[k] == source;
                                assert(shifted@[k] == q);
                                assert(shifted@.contains(q));
                            }
                            if shifted@.contains(q) {
                                let k = choose|k: int|
                                    0 <= k < shifted@.len() && shifted@[k] == q;
                                let p = v@[k];
                                assert(v@.contains(p));
                                crate::cutout::lemma_pixel_seq_contains(c2, false, true, p);
                                let (vx, vy): (int, int) = choose|vx: int, vy: int|
                                    {
                                        &&& 0 <= vx < c2.width
                                        &&& 0 <= vy < c2.height
                                        &&& #[trigger] crate::cutout::pixel_match(
                                            c2,
                                            false,
                                            vx,
                                            vy,
                                        )
                                        &&& p == crate::cutout::pixel_at(c2, true, vx, vy)
                                    };
                                assert(c2.view_get(vx, vy));
                                assert(p.x == lo + vx && p.y == vy);
                                assert(q.x == tl + vx && ax == tl + vx);
                                assert(self.spec_get(ax - tl + lo, ay));
                            }
                        } else {
                            if tl <= ax < tl + co && self.spec_get(ax - tl + lo, ay) {
                                assert(0 <= ay < self.height);
                                assert(0 <= ax < width);
                            }
                        }
                    }
                    assert forall|lop: int, hip: int|
                        #[trigger] is_content_span(*self, lop, hip) implies lop == lo && hip == lo
                        + co - 1 by {
                        assert(is_content_span(*self, lo as int, lo + co - 1));
                        if lop < lo {
                            assert(!col_has_fg(*self, lop));
                        }
                        if lop > lo {
                            assert(!col_has_fg(*self, lo as int));
                        }
                        if hip < lo + co - 1 {
                            assert(!col_has_fg(*self, lo + co - 1));
                        }
                        if hip > lo + co - 1 {
                            assert(!col_has_fg(*self, hip));
                        }
                    }
                }
                r
            },
        }
    }
}

} // verus!
