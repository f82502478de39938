//! Read-only rectangular views into an [`Image`].

use vstd::prelude::*;
use crate::image::Image;
use crate::object::{Pixel, Rectangle, RectangleCollection, collection_pix, colls_pix, colls_disjoint, pairwise_disjoint, all_rects_wf, fg_pixels, lemma_colls_push, lemma_colls_remove, lemma_rects_push, lemma_disjoint_size_bound, lemma_collection_card, lemma_rect_card};

verus! {

broadcast use vstd::seq_lib::lemma_seq_contains_after_push;

/// An offset rectangle into a shared [`Image`]: a zero-copy, read-only
/// window.  Reads are view-relative; anything outside the window reads as
/// background.
///
/// Invariant ([`Cutout::wf`]): the window lies inside the grid.  The
/// validating constructor is [`Image::cutout`]; [`Cutout::new`] demands the
/// invariant from its caller and the sub-view constructor preserves it by
/// construction.
#[derive(Debug, Clone, Copy)]
pub struct Cutout<'a> {
    pub image: &'a Image,
    pub width: usize,
    pub height: usize,
    pub offx: usize,
    pub offy: usize,
}

impl<'a> Cutout<'a> {
    /// The view invariant: a well-formed grid, and the window inside it.
    pub open spec fn wf(self) -> bool {
        &&& self.image.wf()
        &&& self.offx + self.width <= self.image.width
        &&& self.offy + self.height <= self.image.height
    }

    /// The cell at view-relative `(x, y)`; background outside the window.
    pub open spec fn view_get(self, x: int, y: int) -> bool {
        &&& 0 <= x < self.width
        &&& 0 <= y < self.height
        &&& self.image.spec_get(self.offx + x, self.offy + y)
    }

    /// Row `y` of the view holds no foreground cell.
    pub open spec fn row_blank(self, y: int) -> bool {
        forall|x: int| 0 <= x < self.width ==> !self.view_get(x, y)
    }

    /// Column `x` of the view holds no foreground cell.
    pub open spec fn col_blank(self, x: int) -> bool {
        forall|y: int| 0 <= y < self.height ==> !self.view_get(x, y)
    }

    /// The whole view holds no foreground cell.
    pub open spec fn all_blank(self) -> bool {
        forall|x: int, y: int| !self.view_get(x, y)
    }

    pub fn new(image: &'a Image, width: usize, height: usize, offx: usize, offy: usize) -> (r:
        Cutout<'a>)
        requires
            image.wf(),
            offx + width <= image.width,
            offy + height <= image.height,
        ensures
            r.wf(),
            r.image == image,
            r.width == width,
            r.height == height,
            r.offx == offx,
            r.offy == offy,
    {
        Cutout { image, width, height, offx, offy }
    }

    pub fn image(&self) -> (r: &'a Image)
        ensures
            r == self.image,
    {
        self.image
    }

    pub fn width(&self) -> (r: usize)
        ensures
            r == self.width,
    {
        self.width
    }

    pub fn height(&self) -> (r: usize)
        ensures
            r == self.height,
    {
        self.height
    }

    pub fn offx(&self) -> (r: usize)
        ensures
            r == self.offx,
    {
        self.offx
    }

    pub fn offy(&self) -> (r: usize)
        ensures
            r == self.offy,
    {
        self.offy
    }

    /// Reads the cell at view-relative `(x, y)`; background outside the window.
    pub fn get(&self, x: usize, y: usize) -> (r: bool)
        requires
            self.wf(),
        ensures
            r == self.view_get(x as int, y as int),
    {
        if x < self.width && y < self.height {
            self.image.get(self.offx + x, self.offy + y)
        } else {
            false
        }
    }

    /// A sub-view of this view; the offsets are view-relative.
    pub fn cutout(&self, width: usize, height: usize, offx: usize, offy: usize) -> (r: Cutout<'a>)
        requires
            self.wf(),
            offx + width <= self.width,
            offy + height <= self.height,
        ensures
            r.wf(),
            r.image == self.image,
            r.width == width,
            r.height == height,
            r.offx == self.offx + offx,
            r.offy == self.offy + offy,
    {
        Cutout {
            image: self.image,
            width,
            height,
            offx: self.offx + offx,
            offy: self.offy + offy,
        }
    }

    /// True iff every cell of the view is background.
    pub fn is_blank(&self) -> (r: bool)
        requires
            self.wf(),
        ensures
            r == self.all_blank(),
    {
        let mut y: usize = 0;
        while y < self.height
            invariant
                self.wf(),
                y <= self.height,
                forall|j: int| 0 <= j < y ==> self.row_blank(j),
            decreases self.height - y,
        {
            if !self.row_is_blank(y) {
                return false;
            }
            y = y + 1;
        }
        proof {
            assert forall|x: int, j: int| !self.view_get(x, j) by {
                if 0 <= j < self.height {
                    assert(self.row_blank(j));
                }
            }
        }
        true
    }

    /// True iff row `y` of the view is blank.
    fn row_is_blank(&self, y: usize) -> (r: bool)
        requires
            self.wf(),
            y < self.height,
        ensures
            r == self.row_blank(y as int),
    {
        let mut x: usize = 0;
        while x < self.width
            invariant
                self.wf(),
                y < self.height,
                x <= self.width,
                forall|i: int| 0 <= i < x ==> !self.view_get(i, y as int),
            decreases self.width - x,
        {
            if self.get(x, y) {
                return false;
            }
            x = x + 1;
        }
        true
    }

    /// True iff column `x` of the view is blank.
    fn col_is_blank(&self, x: usize) -> (r: bool)
        requires
            self.wf(),
            x < self.width,
        ensures
            r == self.col_blank(x as int),
    {
        let mut y: usize = 0;
        while y < self.height
            invariant
                self.wf(),
                x < self.width,
                y <= self.height,
                forall|j: int| 0 <= j < y ==> !self.view_get(x as int, j),
            decreases self.height - y,
        {
            if self.get(x, y) {
                return false;
            }
            y = y + 1;
        }
        true
    }

    /// Trims blank rows from one horizontal edge.
    ///
    /// With `reverse == false` the top edge moves down to the first non-blank
    /// row; with `reverse == true` the bottom edge moves up to just below the
    /// last non-blank row.  The other edge stays.  Returns `None` when the
    /// view is entirely blank.
    pub fn trimm_y(&self, reverse: bool) -> (r: Option<Cutout<'a>>)
        requires
            self.wf(),
        ensures
            r is None <==> self.all_blank(),
            r matches Some(c) ==> {
                &&& c.wf()
                &&& c.image == self.image
                &&& c.width == self.width
                &&& c.offx == self.offx
                &&& 1 <= c.height <= self.height
                &&& if reverse {
                    &&& c.offy == self.offy
                    &&& !self.row_blank(c.height - 1)
                    &&& forall|j: int| c.height <= j < self.height ==> self.row_blank(j)
                } else {
                    &&& c.offy + c.height == self.offy + self.height
                    &&& c.offy - self.offy == self.height - c.height
                    &&& !self.row_blank(self.height - c.height)
                    &&& forall|j: int| 0 <= j < self.height - c.height ==> self.row_blank(j)
                }
            },
    {
        let mut k: usize = 0;
        while k < self.height
            invariant
                self.wf(),
                k <= self.height,
                if reverse {
                    forall|j: int| self.height - k <= j < self.height ==> self.row_blank(j)
                } else {
                    forall|j: int| 0 <= j < k ==> self.row_blank(j)
                },
            decreases self.height - k,
        {
            let y: usize = if reverse {
                self.height - 1 - k
            } else {
                k
            };
            if !self.row_is_blank(y) {
                let c = if reverse {
                    Cutout {
                        image: self.image,
                        width: self.width,
                        height: y + 1,
                        offx: self.offx,
                        offy: self.offy,
                    }
                } else {
                    Cutout {
                        image: self.image,
                        width: self.width,
                        height: self.height - y,
                        offx: self.offx,
                        offy: self.offy + y,
                    }
                };
                proof {
                    assert(!self.all_blank()) by {
                        assert(!self.row_blank(y as int));
                    }
                }
                return Some(c);
            }
            k = k + 1;
        }
        proof {
            assert forall|x: int, j: int| !self.view_get(x, j) by {
                if 0 <= j < self.height {
                    assert(self.row_blank(j));
                }
            }
        }
        None
    }

    /// Trims blank columns from one vertical edge.
    ///
    /// With `reverse == false` the left edge moves right to the first
    /// non-blank column; with `reverse == true` the right edge moves left to
    /// just past the last non-blank column.  Returns `None` when the view is
    /// entirely blank.
    fn trimm_x(&self, reverse: bool) -> (r: Option<Cutout<'a>>)
        requires
            self.wf(),
        ensures
            r is None <==> self.all_blank(),
            r matches Some(c) ==> {
                &&& c.wf()
                &&& c.image == self.image
                &&& c.height == self.height
                &&& c.offy == self.offy
                &&& 1 <= c.width <= self.width
                &&& if reverse {
                    &&& c.offx == self.offx
                    &&& !self.col_blank(c.width - 1)
                    &&& forall|i: int| c.width <= i < self.width ==> self.col_blank(i)
                } else {
                    &&& c.offx + c.width == self.offx + self.width
                    &&& c.offx - self.offx == self.width - c.width
                    &&& !self.col_blank(self.width - c.width)
                    &&& forall|i: int| 0 <= i < self.width - c.width ==> self.col_blank(i)
                }
            },
    {
        let mut k: usize = 0;
        while k < self.width
            invariant
                self.wf(),
                k <= self.width,
                if reverse {
                    forall|i: int| self.width - k <= i < self.width ==> self.col_blank(i)
                } else {
                    forall|i: int| 0 <= i < k ==> self.col_blank(i)
                },
            decreases self.width - k,
        {
            let x: usize = if reverse {
                self.width - 1 - k
            } else {
                k
            };
            if !self.col_is_blank(x) {
                let c = if reverse {
                    Cutout {
                        image: self.image,
                        width: x + 1,
                        height: self.height,
                        offx: self.offx,
                        offy: self.offy,
                    }
                } else {
                    Cutout {
                        image: self.image,
                        width: self.width - x,
                        height: self.height,
                        offx: self.offx + x,
                        offy: self.offy,
                    }
                };
                proof {
                    assert(!self.all_blank()) by {
                        assert(!self.col_blank(x as int));
                    }
                }
                return Some(c);
            }
            k = k + 1;
        }
        proof {
            assert forall|x: int, j: int| !self.view_get(x, j) by {
                if 0 <= x < self.width {
                    assert(self.col_blank(x));
                }
            }
        }
        None
    }

    /// Moves the top edge down to the first non-blank row.
    pub fn trimm_top(&self) -> (r: Option<Cutout<'a>>)
        requires
            self.wf(),
        ensures
            r is None <==> self.all_blank(),
            r matches Some(c) ==> {
                &&& c.wf()
                &&& c.image == self.image
                &&& c.width == self.width
                &&& c.offx == self.offx
                &&& 1 <= c.height <= self.height
                &&& c.offy + c.height == self.offy + self.height
                &&& c.offy - self.offy == self.height - c.height
                &&& !self.row_blank(self.height - c.height)
                &&& forall|j: int| 0 <= j < self.height - c.height ==> self.row_blank(j)
            },
    {
        self.trimm_y(false)
    }

    /// Moves the bottom edge up to just below the last non-blank row.
    pub fn trimm_bottom(&self) -> (r: Option<Cutout<'a>>)
        requires
            self.wf(),
        ensures
            r is None <==> self.all_blank(),
            r matches Some(c) ==> {
                &&& c.wf()
                &&& c.image == self.image
                &&& c.width == self.width
                &&& c.offx == self.offx
                &&& c.offy == self.offy
                &&& 1 <= c.height <= self.height
                &&& !self.row_blank(c.height - 1)
                &&& forall|j: int| c.height <= j < self.height ==> self.row_blank(j)
            },
    {
        self.trimm_y(true)
    }

    /// Moves the left edge right to the first non-blank column.
    pub fn trimm_left(&self) -> (r: Option<Cutout<'a>>)
        requires
            self.wf(),
        ensures
            r is None <==> self.all_blank(),
            r matches Some(c) ==> {
                &&& c.wf()
                &&& c.image == self.image
                &&& c.height == self.height
                &&& c.offy == self.offy
                &&& 1 <= c.width <= self.width
                &&& c.offx + c.width == self.offx + self.width
                &&& c.offx - self.offx == self.width - c.width
                &&& !self.col_blank(self.width - c.width)
                &&& forall|i: int| 0 <= i < self.width - c.width ==> self.col_blank(i)
            },
    {
        self.trimm_x(false)
    }

    /// Moves the right edge left to just past the last non-blank column.
    pub fn trimm_right(&self) -> (r: Option<Cutout<'a>>)
        requires
            self.wf(),
        ensures
            r is None <==> self.all_blank(),
            r matches Some(c) ==> {
                &&& c.wf()
                &&& c.image == self.image
                &&& c.height == self.height
                &&& c.offy == self.offy
                &&& c.offx == self.offx
                &&& 1 <= c.width <= self.width
                &&& !self.col_blank(c.width - 1)
                &&& forall|i: int| c.width <= i < self.width ==> self.col_blank(i)
            },
    {
        self.trimm_x(true)
    }

    /// The prefix of the view above its first blank row, or `None` when no
    /// row of the view is blank.
    pub fn till_blank_line(&self) -> (r: Option<Cutout<'a>>)
        requires
            self.wf(),
        ensures
            r is None <==> (forall|j: int| 0 <= j < self.height ==> !self.row_blank(j)),
            r matches Some(c) ==> {
                &&& c.wf()
                &&& c.image == self.image
                &&& c.width == self.width
                &&& c.offx == self.offx
                &&& c.offy == self.offy
                &&& c.height < self.height
                &&& self.row_blank(c.height as int)
                &&& forall|j: int| 0 <= j < c.height ==> !self.row_blank(j)
            },
    {
        let mut y: usize = 0;
        while y < self.height
            invariant
                self.wf(),
                y <= self.height,
                forall|j: int| 0 <= j < y ==> !self.row_blank(j),
            decreases self.height - y,
        {
            if self.row_is_blank(y) {
                return Some(
                    Cutout {
                        image: self.image,
                        width: self.width,
                        height: y,
                        offx: self.offx,
                        offy: self.offy,
                    },
                );
            }
            y = y + 1;
        }
        None
    }

    /// Counts the foreground cells among the four axis neighbours of `(x, y)`;
    /// neighbours outside the window count as background.
    pub fn neighbors(&self, x: usize, y: usize) -> (r: usize)
        requires
            self.wf(),
        ensures
            r == (if x >= 1 { self.view_get(x - 1, y as int) as int } else { 0 }) + (
            self.view_get(x + 1, y as int) as int) + (if y >= 1 {
                self.view_get(x as int, y - 1) as int
            } else {
                0
            }) + (self.view_get(x as int, y + 1) as int),
            r <= 4,
    {
        let mut result: usize = 0;
        if x >= 1 && self.get(x - 1, y) {
            result = result + 1;
        }
        if x < usize::MAX && self.get(x + 1, y) {
            result = result + 1;
        }
        if y >= 1 && self.get(x, y - 1) {
            result = result + 1;
        }
        if y < usize::MAX && self.get(x, y + 1) {
            result = result + 1;
        }
        proof {
            if x == usize::MAX {
                assert(!self.view_get(x + 1, y as int));
            }
            if y == usize::MAX {
                assert(!self.view_get(x as int, y + 1));
            }
        }
        result
    }
}

impl<'a> Cutout<'a> {
    /// The foreground pixels of the view, in canvas-absolute coordinates.
    pub open spec fn view_fg(self) -> Set<Pixel> {
        Set::new(
            |p: Pixel|
                self.offx <= p.x < self.offx + self.width && self.offy <= p.y < self.offy
                    + self.height && self.view_get(p.x - self.offx, p.y - self.offy),
        )
    }

    /// Materialises the view into a fresh grid of its own size.
    pub fn to_image(&self) -> (r: Image)
        requires
            self.wf(),
        ensures
            r.wf(),
            r.width == self.width,
            r.height == self.height,
            forall|x: int, y: int| #[trigger] r.spec_get(x, y) == self.view_get(x, y),
    {
        proof {
            vstd::std_specs::vec::axiom_spec_len(&self.image.data);
            assert(self.width * self.height <= self.image.width * self.image.height)
                by (nonlinear_arith)
                requires
                    self.width <= self.image.width,
                    self.height <= self.image.height,
                    0 <= self.width,
                    0 <= self.height,
            ;
        }
        let mut image = Image::new_empty(self.width, self.height);
        let mut y: usize = 0;
        while y < self.height
            invariant
                self.wf(),
                image.wf(),
                image.width == self.width,
                image.height == self.height,
                y <= self.height,
                forall|i: int, j: int|
                    #[trigger] image.spec_get(i, j) == (j < y && self.view_get(i, j)),
            decreases self.height - y,
        {
            let mut x: usize = 0;
            while x < self.width
                invariant
                    self.wf(),
                    image.wf(),
                    image.width == self.width,
                    image.height == self.height,
                    y < self.height,
                    x <= self.width,
                    forall|i: int, j: int|
                        #[trigger] image.spec_get(i, j) == ((j < y && self.view_get(i, j)) || (j
                            == y && i < x && self.view_get(i, j))),
                decreases self.width - x,
            {
                image.set(x, y, self.get(x, y));
                x = x + 1;
            }
            y = y + 1;
        }
        image
    }

    /// A cursor over the view's columns.
    pub fn columns(&self, reverse: bool) -> (r: CutoutColumnIterator<'a>)
        requires
            self.wf(),
        ensures
            r.cutout == *self,
            r.current == 0,
            r.reverse == reverse,
    {
        CutoutColumnIterator::new(self, reverse)
    }

    /// A cursor over the view's rows.
    pub fn lines(&self, reverse: bool) -> (r: CutoutLineIterator<'a>)
        requires
            self.wf(),
        ensures
            r.cutout == *self,
            r.current == 0,
            r.reverse == reverse,
    {
        CutoutLineIterator::new(self, reverse)
    }

    /// A cursor over the foreground pixels of the view (or the background
    /// pixels with `invert`), in row-major order; `image_scope` selects
    /// canvas-absolute over view-relative coordinates.
    pub fn pixels(&self, invert: bool, image_scope: bool) -> (r: CutoutPixelIterator<'a>)
        requires
            self.wf(),
        ensures
            r.cutout == *self,
            r.pixels@ == pixel_seq(*self, invert, image_scope),
            r.idx == 0,
    {
        CutoutPixelIterator::new(self, invert, image_scope)
    }
}

/// Whether the view cell at `(x, y)` is picked by the pixel cursor: the
/// foreground cells, or with `invert` the background cells of the view.
pub open spec fn pixel_match(c: Cutout, invert: bool, x: int, y: int) -> bool {
    c.view_get(x, y) != invert
}

/// The pixel the cursor reports for view cell `(x, y)`.
pub open spec fn pixel_at(c: Cutout, image_scope: bool, x: int, y: int) -> Pixel {
    if image_scope {
        Pixel { x: (c.offx + x) as usize, y: (c.offy + y) as usize }
    } else {
        Pixel { x: x as usize, y: y as usize }
    }
}

/// The pixels picked among the first `n` cells of the view in row-major
/// order.
pub open spec fn pixel_seq_upto(c: Cutout, invert: bool, image_scope: bool, n: int) -> Seq<Pixel>
    decreases n,
{
    if n <= 0 || c.width == 0 {
        Seq::<Pixel>::empty()
    } else {
        let k = n - 1;
        let x = k % (c.width as int);
        let y = k / (c.width as int);
        let prev = pixel_seq_upto(c, invert, image_scope, k);
        if pixel_match(c, invert, x, y) {
            prev.push(pixel_at(c, image_scope, x, y))
        } else {
            prev
        }
    }
}

/// All pixels the cursor yields, in order.
pub open spec fn pixel_seq(c: Cutout, invert: bool, image_scope: bool) -> Seq<Pixel> {
    pixel_seq_upto(c, invert, image_scope, c.width * c.height)
}

/// Membership in the cursor's output is exactly a matching cell of the view.
pub proof fn lemma_pixel_seq_upto_contains(
    c: Cutout,
    invert: bool,
    image_scope: bool,
    n: int,
    q: Pixel,
)
    requires
        c.wf(),
        0 <= n <= c.width * c.height,
    ensures
        pixel_seq_upto(c, invert, image_scope, n).contains(q) <==> exists|x: int, y: int|
            {
                &&& 0 <= x < c.width
                &&& 0 <= y
                &&& #[trigger] (y * c.width + x) < n
                &&& pixel_match(c, invert, x, y)
                &&& q == pixel_at(c, image_scope, x, y)
            },
    decreases n,
{
    if n <= 0 || c.width == 0 {
        assert forall|x: int, y: int|
            !(0 <= x < c.width && 0 <= y && (y * c.width + x) < n && pixel_match(c, invert, x, y)
                && q == pixel_at(c, image_scope, x, y)) by {
            if 0 <= x < c.width && 0 <= y {
                assert(y * c.width + x >= 0) by (nonlinear_arith)
                    requires
                        0 <= x,
                        0 <= y,
                        0 <= c.width,
                ;
            }
        }
    } else {
        let k = n - 1;
        let w = c.width as int;
        let x0 = k % w;
        let y0 = k / w;
        vstd::arithmetic::div_mod::lemma_mod_bound(k, w);
        vstd::arithmetic::div_mod::lemma_fundamental_div_mod(k, w);
        vstd::arithmetic::div_mod::lemma_div_pos_is_pos(k, w);
        assert(y0 * w + x0 == k) by (nonlinear_arith)
            requires
                k == w * (k / w) + k % w,
                x0 == k % w,
                y0 == k / w,
        ;
        lemma_pixel_seq_upto_contains(c, invert, image_scope, k, q);
        let prev = pixel_seq_upto(c, invert, image_scope, k);
        let cur = pixel_seq_upto(c, invert, image_scope, n);
        assert forall|x: int, y: int|
            0 <= x < c.width && 0 <= y && #[trigger] (y * c.width + x) < n && (y * c.width + x)
                >= k implies x == x0 && y == y0 by {
            assert(y * c.width + x == k);
            vstd::arithmetic::div_mod::lemma_fundamental_div_mod_converse(k, w, y, x);
        }
        if pixel_match(c, invert, x0, y0) {
            assert(cur == prev.push(pixel_at(c, image_scope, x0, y0)));
            assert(cur.contains(q) <==> prev.contains(q) || q == pixel_at(
                c,
                image_scope,
                x0,
                y0,
            ));
        } else {
            assert(cur == prev);
        }
    }
}

/// Membership in the full cursor output, stated over view coordinates.
pub proof fn lemma_pixel_seq_contains(c: Cutout, invert: bool, image_scope: bool, q: Pixel)
    requires
        c.wf(),
    ensures
        pixel_seq(c, invert, image_scope).contains(q) <==> exists|x: int, y: int|
            {
                &&& 0 <= x < c.width
                &&& 0 <= y < c.height
                &&& #[trigger] pixel_match(c, invert, x, y)
                &&& q == pixel_at(c, image_scope, x, y)
            },
{
    let n = c.width * c.height;
    assert(0 <= n) by (nonlinear_arith)
        requires
            n == c.width * c.height,
            0 <= c.width,
            0 <= c.height,
    ;
    lemma_pixel_seq_upto_contains(c, invert, image_scope, n, q);
    if pixel_seq(c, invert, image_scope).contains(q) {
        let (x, y): (int, int) = choose|x: int, y: int|
            {
                &&& 0 <= x < c.width
                &&& 0 <= y
                &&& #[trigger] (y * c.width + x) < n
                &&& pixel_match(c, invert, x, y)
                &&& q == pixel_at(c, image_scope, x, y)
            };
        assert(y < c.height) by (nonlinear_arith)
            requires
                n == c.width * c.height,
                0 <= x < c.width,
                0 <= y,
                y * c.width + x < n,
        ;
        assert(0 <= x < c.width && 0 <= y < c.height && pixel_match(c, invert, x, y) && q
            == pixel_at(c, image_scope, x, y));
    }
    if exists|x: int, y: int|
        {
            &&& 0 <= x < c.width
            &&& 0 <= y < c.height
            &&& #[trigger] pixel_match(c, invert, x, y)
            &&& q == pixel_at(c, image_scope, x, y)
        } {
        let (x, y): (int, int) = choose|x: int, y: int|
            {
                &&& 0 <= x < c.width
                &&& 0 <= y < c.height
                &&& #[trigger] pixel_match(c, invert, x, y)
                &&& q == pixel_at(c, image_scope, x, y)
            };
        assert(y * c.width + x < n) by (nonlinear_arith)
            requires
                n == c.width * c.height,
                0 <= x < c.width,
                0 <= y < c.height,
        ;
        assert(0 <= x < c.width && 0 <= y && (y * c.width + x) < n && pixel_match(c, invert, x, y)
            && q == pixel_at(c, image_scope, x, y));
        assert(pixel_seq(c, invert, image_scope).contains(q));
    }
}

/// A cursor over the pixels a view picks out (see [`pixel_seq`]): foreground
/// pixels, or background pixels with `invert`, in row-major order, in
/// view-relative or canvas-absolute coordinates.
#[derive(Debug, Clone)]
pub struct CutoutPixelIterator<'a> {
    pub cutout: Cutout<'a>,
    pub pixels: Vec<Pixel>,
    pub idx: usize,
    pub invert: bool,
    pub image_scope: bool,
}

impl<'a> CutoutPixelIterator<'a> {
    pub fn new(cutout: &Cutout<'a>, invert: bool, image_scope: bool) -> (r: CutoutPixelIterator<
        'a,
    >)
        requires
            cutout.wf(),
        ensures
            r.cutout == *cutout,
            r.pixels@ == pixel_seq(*cutout, invert, image_scope),
            r.idx == 0,
            r.invert == invert,
            r.image_scope == image_scope,
    {
        let mut pixels: Vec<Pixel> = Vec::new();
        let mut y: usize = 0;
        proof {
            assert(pixel_seq_upto(*cutout, invert, image_scope, 0) =~= Seq::<Pixel>::empty());
        }
        while y < cutout.height
            invariant
                cutout.wf(),
                y <= cutout.height,
                pixels@ == pixel_seq_upto(
                    *cutout,
                    invert,
                    image_scope,
                    y * cutout.width as int,
                ),
            decreases cutout.height - y,
        {
            let mut x: usize = 0;
            while x < cutout.width
                invariant
                    cutout.wf(),
                    y < cutout.height,
                    x <= cutout.width,
                    pixels@ == pixel_seq_upto(
                        *cutout,
                        invert,
                        image_scope,
                        y * cutout.width + x,
                    ),
                decreases cutout.width - x,
            {
                let ghost n = y * cutout.width + x as int;
                proof {
                    assert(0 <= n && n % (cutout.width as int) == x && n / (cutout.width as int)
                        == y) by (nonlinear_arith)
                        requires
                            n == y * cutout.width + x,
                            0 <= y,
                            0 <= x < cutout.width,
                    ;
                }
                let matched: bool = cutout.get(x, y) != invert;
                if matched {
                    let p = if image_scope {
                        Pixel { x: cutout.offx + x, y: cutout.offy + y }
                    } else {
                        Pixel { x, y }
                    };
                    pixels.push(p);
                }
                proof {
                    assert(pixel_seq_upto(*cutout, invert, image_scope, n + 1) == if pixel_match(
                        *cutout,
                        invert,
                        x as int,
                        y as int,
                    ) {
                        pixel_seq_upto(*cutout, invert, image_scope, n).push(
                            pixel_at(*cutout, image_scope, x as int, y as int),
                        )
                    } else {
                        pixel_seq_upto(*cutout, invert, image_scope, n)
                    });
                }
                x = x + 1;
            }
            proof {
                assert((y + 1) * cutout.width == y * cutout.width + cutout.width)
                    by (nonlinear_arith);
            }
            y = y + 1;
        }
        proof {
            assert(cutout.height * cutout.width == cutout.width * cutout.height)
                by (nonlinear_arith);
        }
        CutoutPixelIterator { cutout: *cutout, pixels, idx: 0, invert, image_scope }
    }

    /// Yields the next picked pixel, in row-major order.
    pub fn next(&mut self) -> (r: Option<Pixel>)
        ensures
            old(self).idx < old(self).pixels@.len() ==> {
                &&& r == Some(old(self).pixels@[old(self).idx as int])
                &&& final(self).idx == old(self).idx + 1
            },
            old(self).idx >= old(self).pixels@.len() ==> r is None && *final(self) == *old(self),
            final(self).pixels@ == old(self).pixels@,
            final(self).cutout == old(self).cutout,
    {
        if self.idx < self.pixels.len() {
            let p = self.pixels[self.idx];
            self.idx = self.idx + 1;
            Some(p)
        } else {
            None
        }
    }

    /// All remaining pixels at once.
    pub fn collect_all(&mut self) -> (r: Vec<Pixel>)
        requires
            old(self).idx <= old(self).pixels@.len(),
        ensures
            r@ == old(self).pixels@.skip(old(self).idx as int),
            final(self).idx == final(self).pixels@.len(),
            final(self).pixels@ == old(self).pixels@,
            final(self).cutout == old(self).cutout,
    {
        let mut r: Vec<Pixel> = Vec::new();
        proof {
            assert(r@ =~= old(self).pixels@.subrange(old(self).idx as int, self.idx as int));
        }
        while self.idx < self.pixels.len()
            invariant
                self.idx <= self.pixels@.len(),
                self.pixels@ == old(self).pixels@,
                self.cutout == old(self).cutout,
                self.invert == old(self).invert,
                self.image_scope == old(self).image_scope,
                old(self).idx <= self.idx,
                r@ == old(self).pixels@.subrange(old(self).idx as int, self.idx as int),
            decreases self.pixels@.len() - self.idx,
        {
            let p = self.pixels[self.idx];
            r.push(p);
            proof {
                assert(r@ =~= old(self).pixels@.subrange(old(self).idx as int, self.idx + 1));
            }
            self.idx = self.idx + 1;
        }
        proof {
            assert(r@ =~= old(self).pixels@.skip(old(self).idx as int));
        }
        r
    }
}

/// A cursor over the one-column sub-views of a view, left to right, or right
/// to left with `reverse`.
#[derive(Debug, Clone)]
pub struct CutoutColumnIterator<'a> {
    pub cutout: Cutout<'a>,
    pub current: usize,
    pub reverse: bool,
}

impl<'a> CutoutColumnIterator<'a> {
    pub fn new(cutout: &Cutout<'a>, reverse: bool) -> (r: CutoutColumnIterator<'a>)
        requires
            cutout.wf(),
        ensures
            r.cutout == *cutout,
            r.current == 0,
            r.reverse == reverse,
    {
        CutoutColumnIterator { cutout: *cutout, current: 0, reverse }
    }

    /// Yields the next column as a width-one sub-view.
    pub fn next(&mut self) -> (r: Option<Cutout<'a>>)
        requires
            old(self).cutout.wf(),
        ensures
            final(self).cutout == old(self).cutout,
            final(self).reverse == old(self).reverse,
            old(self).current >= old(self).cutout.width ==> r is None && *final(self) == *old(
                self,
            ),
            old(self).current < old(self).cutout.width ==> {
                &&& final(self).current == old(self).current + 1
                &&& r matches Some(col)
                &&& r matches Some(col) ==> {
                    &&& col.wf()
                    &&& col.image == old(self).cutout.image
                    &&& col.width == 1
                    &&& col.height == old(self).cutout.height
                    &&& col.offy == old(self).cutout.offy
                    &&& col.offx == old(self).cutout.offx + (if old(self).reverse {
                        old(self).cutout.width - 1 - old(self).current
                    } else {
                        old(self).current as int
                    })
                }
            },
    {
        if self.current >= self.cutout.width {
            return None;
        }
        let offx = if self.reverse {
            self.cutout.offx + self.cutout.width - 1 - self.current
        } else {
            self.cutout.offx + self.current
        };
        let col = Cutout {
            image: self.cutout.image,
            width: 1,
            height: self.cutout.height,
            offx,
            offy: self.cutout.offy,
        };
        self.current = self.current + 1;
        Some(col)
    }
}

/// A cursor over the one-row sub-views of a view, top to bottom, or bottom
/// to top with `reverse`.
#[derive(Debug, Clone)]
pub struct CutoutLineIterator<'a> {
    pub cutout: Cutout<'a>,
    pub current: usize,
    pub reverse: bool,
}

impl<'a> CutoutLineIterator<'a> {
    pub fn new(cutout: &Cutout<'a>, reverse: bool) -> (r: CutoutLineIterator<'a>)
        requires
            cutout.wf(),
        ensures
            r.cutout == *cutout,
            r.current == 0,
            r.reverse == reverse,
    {
        CutoutLineIterator { cutout: *cutout, current: 0, reverse }
    }

    /// Yields the next row as a height-one sub-view.
    pub fn next(&mut self) -> (r: Option<Cutout<'a>>)
        requires
            old(self).cutout.wf(),
        ensures
            final(self).cutout == old(self).cutout,
            final(self).reverse == old(self).reverse,
            old(self).current >= old(self).cutout.height ==> r is None && *final(self) == *old(
                self,
            ),
            old(self).current < old(self).cutout.height ==> {
                &&& final(self).current == old(self).current + 1
                &&& r matches Some(line)
                &&& r matches Some(line) ==> {
                    &&& line.wf()
                    &&& line.image == old(self).cutout.image
                    &&& line.height == 1
                    &&& line.width == old(self).cutout.width
                    &&& line.offx == old(self).cutout.offx
                    &&& line.offy == old(self).cutout.offy + (if old(self).reverse {
                        old(self).cutout.height - 1 - old(self).current
                    } else {
                        old(self).current as int
                    })
                }
            },
    {
        if self.current >= self.cutout.height {
            return None;
        }
        let offy = if self.reverse {
            self.cutout.offy + self.cutout.height - 1 - self.current
        } else {
            self.cutout.offy + self.current
        };
        let line = Cutout {
            image: self.cutout.image,
            width: self.cutout.width,
            height: 1,
            offx: self.cutout.offx,
            offy,
        };
        self.current = self.current + 1;
        Some(line)
    }
}

/// Rows of a vertical sub-view are rows of the surrounding view, shifted.
pub proof fn lemma_row_transfer(v: Cutout, t: Cutout)
    requires
        v.image == t.image,
        v.offx == t.offx,
        v.width == t.width,
        v.offy <= t.offy,
        t.offy + t.height <= v.offy + v.height,
    ensures
        forall|j: int|
            0 <= j < t.height ==> #[trigger] t.row_blank(j) == v.row_blank(j + t.offy - v.offy),
{
    assert forall|j: int|
        0 <= j < t.height implies #[trigger] t.row_blank(j) == v.row_blank(j + t.offy
        - v.offy) by {
        if t.row_blank(j) {
            assert forall|x: int|
                0 <= x < v.width implies !(#[trigger] v.view_get(x, j + t.offy - v.offy)) by {
                assert(!t.view_get(x, j));
            }
        }
        if v.row_blank(j + t.offy - v.offy) {
            assert forall|x: int| 0 <= x < t.width implies !(#[trigger] t.view_get(x, j)) by {
                assert(!v.view_get(x, j + t.offy - v.offy));
            }
        }
    }
}

impl<'a> Cutout<'a> {
    /// A cursor over the view's content bands (see
    /// [`CutoutYPartIterator::next`]).
    pub fn yparts(&self) -> (r: CutoutYPartIterator<'a>)
        requires
            self.wf(),
        ensures
            r.cutout == *self,
    {
        CutoutYPartIterator::new(self)
    }

    /// Segments the view into its content bands, top to bottom: the maximal
    /// groups of consecutive non-blank rows.
    ///
    /// The returned bands are pairwise non-overlapping sub-views in
    /// increasing row order, none of their rows is blank, and every
    /// foreground pixel of the view lies in exactly one band (exactly one,
    /// because the bands are disjoint and ordered).
    pub fn segment_into_bands(&self) -> (bands: Vec<Cutout<'a>>)
        requires
            self.wf(),
        ensures
            forall|k: int|
                0 <= k < bands@.len() ==> {
                    let b = #[trigger] bands@[k];
                    &&& b.wf()
                    &&& b.image == self.image
                    &&& b.offx == self.offx
                    &&& b.width == self.width
                    &&& b.height >= 1
                    &&& self.offy <= b.offy
                    &&& b.offy + b.height <= self.offy + self.height
                    &&& forall|j: int| 0 <= j < b.height ==> !b.row_blank(j)
                    &&& b.offy == self.offy || self.row_blank(b.offy - self.offy - 1)
                    &&& b.offy + b.height == self.offy + self.height || self.row_blank(
                        b.offy + b.height - self.offy,
                    )
                },
            forall|k: int|
                0 <= k < bands@.len() - 1 ==> (#[trigger] bands@[k]).offy + bands@[k].height
                    < bands@[k + 1].offy,
            forall|x: int, y: int|
                self.view_get(x, y) ==> exists|k: int|
                    0 <= k < bands@.len() && (#[trigger] bands@[k]).offy <= self.offy + y
                        < bands@[k].offy + bands@[k].height,
    {
        let mut bands: Vec<Cutout<'a>> = Vec::new();
        let mut it = CutoutYPartIterator::new(self);
        loop
            invariant
                self.wf(),
                it.cutout.wf(),
                it.cutout.image == self.image,
                it.cutout.offx == self.offx,
                it.cutout.width == self.width,
                self.offy <= it.cutout.offy,
                it.cutout.offy + it.cutout.height == self.offy + self.height,
                it.cutout.height == 0 || it.cutout.offy == self.offy || self.row_blank(
                    it.cutout.offy - self.offy - 1,
                ),
                forall|k: int|
                    0 <= k < bands@.len() ==> {
                        let b = #[trigger] bands@[k];
                        &&& b.wf()
                        &&& b.image == self.image
                        &&& b.offx == self.offx
                        &&& b.width == self.width
                        &&& b.height >= 1
                        &&& self.offy <= b.offy
                        &&& b.offy + b.height < it.cutout.offy || b.offy + b.height == self.offy
                            + self.height
                        &&& b.offy + b.height <= self.offy + self.height
                        &&& forall|j: int| 0 <= j < b.height ==> !b.row_blank(j)
                        &&& b.offy == self.offy || self.row_blank(b.offy - self.offy - 1)
                        &&& b.offy + b.height == self.offy + self.height || self.row_blank(
                            b.offy + b.height - self.offy,
                        )
                    },
                forall|k: int|
                    0 <= k < bands@.len() - 1 ==> (#[trigger] bands@[k]).offy + bands@[k].height
                        < bands@[k + 1].offy,
                bands@.len() >= 1 ==> bands@[bands@.len() - 1].offy + bands@[bands@.len()
                    - 1].height <= it.cutout.offy,
                forall|x: int, y: int|
                    self.view_get(x, y) && self.offy + y < it.cutout.offy ==> exists|k: int|
                        0 <= k < bands@.len() && (#[trigger] bands@[k]).offy <= self.offy + y
                            < bands@[k].offy + bands@[k].height,
            decreases it.cutout.height,
        {
            let ghost prev_state = it.cutout;
            let band = it.next();
            match band {
                None => {
                    proof {
                        assert forall|x: int, y: int|
                            self.view_get(x, y) implies exists|k: int|
                            0 <= k < bands@.len() && (#[trigger] bands@[k]).offy <= self.offy + y
                                < bands@[k].offy + bands@[k].height by {
                            if self.offy + y >= prev_state.offy {
                                let py = self.offy + y - prev_state.offy;
                                assert(prev_state.view_get(x, py) == self.view_get(x, y));
                                assert(!prev_state.view_get(x, py));
                                assert(false);
                            }
                        }
                    }
                    return bands;
                },
                Some(b) => {
                    let ghost old_bands = bands@;
                    bands.push(b);
                    proof {
                        assert(bands@ == old_bands.push(b));
                        lemma_row_transfer(*self, prev_state);
                        assert(b.offy == self.offy || self.row_blank(b.offy - self.offy - 1)) by {
                            if b.offy > prev_state.offy {
                                assert(prev_state.row_blank(b.offy - prev_state.offy - 1));
                            } else {
                                assert(b.offy == prev_state.offy);
                                assert(prev_state.height >= 1) by {
                                    if prev_state.height == 0 {
                                        assert(prev_state.all_blank());
                                    }
                                }
                            }
                        }
                        assert(b.offy + b.height == self.offy + self.height || self.row_blank(
                            b.offy + b.height - self.offy,
                        )) by {
                            if b.offy + b.height != prev_state.offy + prev_state.height {
                                assert(prev_state.row_blank(
                                    b.offy + b.height - prev_state.offy,
                                ));
                            }
                        }
                        assert(it.cutout.height == 0 || it.cutout.offy == self.offy
                            || self.row_blank(it.cutout.offy - self.offy - 1)) by {
                            if it.cutout.height != 0 {
                                assert(it.cutout.offy == b.offy + b.height + 1);
                                assert(prev_state.row_blank(
                                    b.offy + b.height - prev_state.offy,
                                ));
                            }
                        }
                        assert forall|x: int, y: int|
                            self.view_get(x, y) && self.offy + y < it.cutout.offy implies exists|
                            k: int,
                        |
                            0 <= k < bands@.len() && (#[trigger] bands@[k]).offy <= self.offy + y
                                < bands@[k].offy + bands@[k].height by {
                            if self.offy + y < prev_state.offy {
                                let k = choose|k: int|
                                    0 <= k < old_bands.len() && (#[trigger] old_bands[k]).offy
                                        <= self.offy + y < old_bands[k].offy + old_bands[k].height;
                                assert(bands@[k].offy <= self.offy + y < bands@[k].offy
                                    + bands@[k].height);
                            } else {
                                let py = self.offy + y - prev_state.offy;
                                assert(prev_state.view_get(x, py) == self.view_get(x, y));
                                if self.offy + y < b.offy {
                                    assert(prev_state.row_blank(py));
                                    assert(false);
                                } else if self.offy + y < b.offy + b.height {
                                    let last = bands@.len() - 1;
                                    assert(bands@[last].offy <= self.offy + y < bands@[last].offy
                                        + bands@[last].height);
                                } else {
                                    assert(self.offy + y == b.offy + b.height);
                                    assert(prev_state.row_blank(py));
                                    assert(false);
                                }
                            }
                        }
                    }
                },
            }
        }
    }
}

/// A cursor over the content bands of a view: each step trims blank rows
/// from the top, yields the rows down to the next blank row (or the bottom),
/// and resumes below that blank row.  The cursor ends when only blank rows
/// remain.
#[derive(Debug, Clone)]
pub struct CutoutYPartIterator<'a> {
    pub cutout: Cutout<'a>,
}

impl<'a> CutoutYPartIterator<'a> {
    pub fn new(cutout: &Cutout<'a>) -> (r: CutoutYPartIterator<'a>)
        requires
            cutout.wf(),
        ensures
            r.cutout == *cutout,
    {
        CutoutYPartIterator { cutout: *cutout }
    }

    /// Yields the next content band: the first maximal group of consecutive
    /// non-blank rows of the remaining view.
    pub fn next(&mut self) -> (r: Option<Cutout<'a>>)
        requires
            old(self).cutout.wf(),
        ensures
            final(self).cutout.wf(),
            r is None <==> old(self).cutout.all_blank(),
            r is None ==> *final(self) == *old(self),
            r matches Some(b) ==> {
                let v = old(self).cutout;
                let v2 = final(self).cutout;
                &&& b.wf()
                &&& b.image == v.image
                &&& b.offx == v.offx
                &&& b.width == v.width
                &&& b.height >= 1
                &&& v.offy <= b.offy
                &&& b.offy + b.height <= v.offy + v.height
                &&& forall|j: int| 0 <= j < b.offy - v.offy ==> v.row_blank(j)
                &&& forall|j: int|
                    b.offy - v.offy <= j < b.offy - v.offy + b.height ==> !v.row_blank(j)
                &&& forall|j: int| 0 <= j < b.height ==> !b.row_blank(j)
                &&& b.offy + b.height == v.offy + v.height || v.row_blank(
                    b.offy - v.offy + b.height,
                )
                &&& v2.image == v.image
                &&& v2.offx == v.offx
                &&& v2.width == v.width
                &&& v2.offy + v2.height == v.offy + v.height
                &&& v2.offy == if b.offy + b.height + 1 <= v.offy + v.height {
                    b.offy + b.height + 1
                } else {
                    v.offy + v.height
                }
                &&& v2.height < v.height
            },
    {
        let v: Cutout<'a> = self.cutout;
        let trimmed = v.trimm_top();
        match trimmed {
            None => None,
            Some(t) => {
                proof {
                    lemma_row_transfer(v, t);
                }
                let band = match t.till_blank_line() {
                    None => t,
                    Some(b) => b,
                };
                proof {
                    lemma_row_transfer(t, band);
                    lemma_row_transfer(v, band);
                    assert(band.height >= 1) by {
                        assert(!t.row_blank(0));
                    }
                }
                let bottom: usize = v.offy + v.height;
                let band_end: usize = band.offy + band.height;
                let next_top: usize = if band_end < bottom {
                    band_end + 1
                } else {
                    bottom
                };
                self.cutout = Cutout {
                    image: v.image,
                    width: v.width,
                    height: bottom - next_top,
                    offx: v.offx,
                    offy: next_top,
                };
                proof {
                    assert forall|j: int|
                        band.offy - v.offy <= j < band.offy - v.offy + band.height implies !v.row_blank(
                        j,
                    ) by {
                        assert(!band.row_blank(j - (band.offy - v.offy)));
                    }
                    if band_end < bottom {
                        assert(v.row_blank(band.offy - v.offy + band.height)) by {
                            assert(t.row_blank(band.height as int));
                        }
                    }
                }
                Some(band)
            },
        }
    }
}

/// A height-one rectangle lying inside the view's extent (a row-run of the
/// view, in canvas-absolute coordinates).
pub open spec fn run_in_view(c: Cutout, r: Rectangle) -> bool {
    &&& r.ymin == r.ymax
    &&& c.offy <= r.ymin < c.offy + c.height
    &&& c.offx <= r.xmin <= r.xmax
    &&& r.xmax < c.offx + c.width
}

/// A maximal foreground run of one row of the view: every cell of the run
/// is inked, and the cells just left and right of it (inside the view) are
/// background.
pub open spec fn run_maximal(c: Cutout, r: Rectangle) -> bool {
    &&& run_in_view(c, r)
    &&& forall|x: int|
        r.xmin <= x <= r.xmax ==> #[trigger] c.view_get(x - c.offx, r.ymin - c.offy)
    &&& (r.xmin == c.offx || !c.view_get(r.xmin - c.offx - 1, r.ymin - c.offy))
    &&& (r.xmax + 1 == c.offx + c.width || !c.view_get(r.xmax + 1 - c.offx, r.ymin - c.offy))
}

/// `below` sits one row under `above` and their x-intervals meet or abut —
/// the contact that makes the scanline pass put two runs in one collection.
pub open spec fn runs_touch(above: Rectangle, below: Rectangle) -> bool {
    &&& below.ymin == above.ymin + 1
    &&& below.xmin <= above.xmax + 1
    &&& above.xmin <= below.xmax + 1
}

/// No two runs in contact (see [`runs_touch`]) lie in different collections
/// of the list.
#[verifier::opaque]
pub open spec fn no_vertical_split(colls: Seq<RectangleCollection>) -> bool {
    forall|k1: int, k2: int, i1: int, i2: int|
        #![trigger colls[k1].rectangles@[i1], colls[k2].rectangles@[i2]]
        0 <= k1 < colls.len() && 0 <= k2 < colls.len() && 0 <= i1 < colls[k1].rectangles@.len()
            && 0 <= i2 < colls[k2].rectangles@.len() && runs_touch(
            colls[k1].rectangles@[i1],
            colls[k2].rectangles@[i2],
        ) ==> k1 == k2
}


/// The tracked row hulls cover a collection's runs in its two newest rows:
/// every run in the bounding box's bottom row lies inside the bottom
/// interval, and every run one row above it inside the previous interval.
#[verifier::opaque]
pub open spec fn hulls_ok(rc: RectangleCollection) -> bool {
    &&& forall|i: int|
        #![trigger rc.rectangles@[i]]
        0 <= i < rc.rectangles@.len() && rc.rectangles@[i].ymin == rc.ymax ==> rc.bottom_xmin
            <= rc.rectangles@[i].xmin && rc.rectangles@[i].xmax <= rc.bottom_xmax
    &&& forall|i: int|
        #![trigger rc.rectangles@[i]]
        0 <= i < rc.rectangles@.len() && rc.rectangles@[i].ymin + 1 == rc.ymax ==> rc.has_last_bottom
            && rc.last_bottom_xmin <= rc.rectangles@[i].xmin && rc.rectangles@[i].xmax
            <= rc.last_bottom_xmax
}

/// With height-one rectangles the bounding box's bottom row is the newest
/// rectangle row.
proof fn lemma_ymax_is_max_row(rc: RectangleCollection)
    requires
        rc.wf(),
        forall|i: int|
            0 <= i < rc.rectangles@.len() ==> (#[trigger] rc.rectangles@[i]).ymin
                == rc.rectangles@[i].ymax,
    ensures
        forall|i: int|
            0 <= i < rc.rectangles@.len() ==> (#[trigger] rc.rectangles@[i]).ymin <= rc.ymax,
        exists|i: int|
            0 <= i < rc.rectangles@.len() && (#[trigger] rc.rectangles@[i]).ymin == rc.ymax,
{
    let iw = choose|i: int|
        0 <= i < rc.rectangles@.len() && (#[trigger] rc.rectangles@[i]).ymax == rc.ymax;
    assert(rc.rectangles@[iw].ymin == rc.ymax);
}

/// A run one row under one of a collection's rectangles, meeting or
/// abutting it in x, passes the collection's touch test: the tracked hull
/// of the rectangle's row covers the rectangle, so the interval test fires.
proof fn lemma_contact_touches(c: Cutout, rc: RectangleCollection, i: int, run: Rectangle)
    requires
        coll_ok(c, rc),
        hulls_ok(rc),
        0 <= i < rc.rectangles@.len(),
        runs_touch(rc.rectangles@[i], run),
        rc.ymax <= run.ymin,
    ensures
        rc.spec_bottom_touch(run),
{
    reveal(hulls_ok);
    let r1 = rc.rectangles@[i];
    assert(forall|k: int|
        0 <= k < rc.rectangles@.len() ==> (#[trigger] rc.rectangles@[k]).ymin
            == rc.rectangles@[k].ymax);
    lemma_ymax_is_max_row(rc);
    assert(r1.ymin <= rc.ymax);
    if rc.ymax == run.ymin {
        assert(r1.ymin + 1 == rc.ymax);
        assert(rc.has_last_bottom && rc.last_bottom_xmin <= r1.xmin && r1.xmax
            <= rc.last_bottom_xmax);
    } else {
        assert(rc.ymax == run.ymin - 1);
        assert(r1.ymin == rc.ymax);
        assert(rc.bottom_xmin <= r1.xmin && r1.xmax <= rc.bottom_xmax);
    }
}

/// Appending a run that sits at most one row under the newest row keeps the
/// hull bookkeeping, given the field updates the append performs.
proof fn lemma_add_keeps_hulls(
    before: RectangleCollection,
    after: RectangleCollection,
    rect: Rectangle,
)
    requires
        before.wf(),
        after.wf(),
        hulls_ok(before),
        rect.ymin == rect.ymax,
        forall|i: int|
            0 <= i < before.rectangles@.len() ==> (#[trigger] before.rectangles@[i]).ymin
                == before.rectangles@[i].ymax,
        rect.ymin <= before.ymax + 1,
        after.rectangles@ == before.rectangles@.push(rect),
        after.ymax == (if rect.ymax > before.ymax {
            rect.ymax as int
        } else {
            before.ymax as int
        }),
        if rect.ymin == before.ymax {
            &&& after.bottom_xmin == (if rect.xmin < before.bottom_xmin {
                rect.xmin as int
            } else {
                before.bottom_xmin as int
            })
            &&& after.bottom_xmax == (if rect.xmax > before.bottom_xmax {
                rect.xmax as int
            } else {
                before.bottom_xmax as int
            })
            &&& after.last_bottom_xmin == before.last_bottom_xmin
            &&& after.last_bottom_xmax == before.last_bottom_xmax
            &&& after.has_last_bottom == before.has_last_bottom
        } else if rect.ymin == before.ymax + 1 {
            &&& after.bottom_xmin == rect.xmin
            &&& after.bottom_xmax == rect.xmax
            &&& after.last_bottom_xmin == before.bottom_xmin
            &&& after.last_bottom_xmax == before.bottom_xmax
            &&& after.has_last_bottom == true
        } else if rect.ymin + 1 == before.ymax {
            &&& after.bottom_xmin == before.bottom_xmin
            &&& after.bottom_xmax == before.bottom_xmax
            &&& after.has_last_bottom == true
            &&& before.has_last_bottom ==> {
                &&& after.last_bottom_xmin == (if rect.xmin < before.last_bottom_xmin {
                    rect.xmin as int
                } else {
                    before.last_bottom_xmin as int
                })
                &&& after.last_bottom_xmax == (if rect.xmax > before.last_bottom_xmax {
                    rect.xmax as int
                } else {
                    before.last_bottom_xmax as int
                })
            }
            &&& !before.has_last_bottom ==> {
                &&& after.last_bottom_xmin == rect.xmin
                &&& after.last_bottom_xmax == rect.xmax
            }
        } else {
            &&& after.bottom_xmin == before.bottom_xmin
            &&& after.bottom_xmax == before.bottom_xmax
            &&& after.last_bottom_xmin == before.last_bottom_xmin
            &&& after.last_bottom_xmax == before.last_bottom_xmax
            &&& after.has_last_bottom == before.has_last_bottom
        },
    ensures
        hulls_ok(after),
{
    reveal(hulls_ok);
    lemma_ymax_is_max_row(before);
    let s = after.rectangles@;
    assert(s[s.len() - 1] == rect);
    assert(forall|i: int| 0 <= i < s.len() - 1 ==> s[i] == before.rectangles@[i]);
    if rect.ymin == before.ymax + 1 {
        assert(after.ymax == rect.ymin);
        assert forall|i: int|
            0 <= i < s.len() && (#[trigger] s[i]).ymin == after.ymax implies after.bottom_xmin
            <= s[i].xmin && s[i].xmax <= after.bottom_xmax by {
            if i < s.len() - 1 {
                assert(before.rectangles@[i].ymin <= before.ymax);
            }
        }
        assert forall|i: int|
            0 <= i < s.len() && (#[trigger] s[i]).ymin + 1 == after.ymax
                implies after.has_last_bottom && after.last_bottom_xmin <= s[i].xmin && s[i].xmax
            <= after.last_bottom_xmax by {
            if i < s.len() - 1 {
                assert(before.rectangles@[i].ymin == before.ymax);
            }
        }
    } else {
        assert(after.ymax == before.ymax);
    }
}

/// A scanline collection as the extraction builds them: well-formed, made of
/// non-overlapping maximal row-runs of the view.
pub open spec fn coll_ok(c: Cutout, rc: RectangleCollection) -> bool {
    &&& rc.wf()
    &&& pairwise_disjoint(rc.rectangles@)
    &&& forall|i: int|
        0 <= i < rc.rectangles@.len() ==> run_maximal(c, #[trigger] rc.rectangles@[i])
}

/// The view's foreground pixels above (view-relative) row `y`.
pub open spec fn fg_upto(c: Cutout, y: int) -> Set<Pixel> {
    Set::new(|p: Pixel| c.view_fg().contains(p) && p.y < c.offy + y)
}

/// The view's foreground pixels on (view-relative) row `y`.
pub open spec fn row_fg(c: Cutout, y: int) -> Set<Pixel> {
    Set::new(|p: Pixel| c.view_fg().contains(p) && p.y == c.offy + y)
}

/// The view's foreground pixels are foreground pixels of the grid.
pub proof fn lemma_view_fg_in_grid(c: Cutout)
    requires
        c.wf(),
    ensures
        c.view_fg().subset_of(fg_pixels(*c.image)),
{
    assert forall|p: Pixel| c.view_fg().contains(p) implies fg_pixels(*c.image).contains(p) by {
        assert(c.view_get(p.x - c.offx, p.y - c.offy));
    }
}

/// In a strictly increasing index list, positions bound the values.
proof fn lemma_sorted_gap(v: Seq<usize>, a: int, b: int)
    requires
        forall|t1: int, t2: int| 0 <= t1 < t2 < v.len() ==> v[t1] < v[t2],
        0 <= a <= b < v.len(),
    ensures
        v[a] + (b - a) <= v[b],
    decreases b - a,
{
    if a < b {
        lemma_sorted_gap(v, a, b - 1);
    }
}

/// The size bookkeeping of a collection and a disjoint run stays within the
/// machine's range, because both lie in one grid's foreground.
proof fn lemma_merge_size_ok(c: Cutout, rc: RectangleCollection, rect: Rectangle)
    requires
        c.wf(),
        coll_ok(c, rc),
        rect.wf(),
        run_in_view(c, rect),
        rc.pix().subset_of(c.view_fg()),
        rect.pix().subset_of(c.view_fg()),
        rc.pix().disjoint(rect.pix()),
    ensures
        rect.spec_size() <= usize::MAX,
        rc.size + rect.spec_size() <= usize::MAX,
{
    lemma_view_fg_in_grid(c);
    assert(rect.spec_size() == rect.xmax - rect.xmin + 1) by (nonlinear_arith)
        requires
            rect.spec_size() == (rect.xmax - rect.xmin + 1) * (rect.ymax - rect.ymin + 1),
            rect.ymin == rect.ymax,
    ;
    lemma_rect_card(rect);
    lemma_collection_card(rc.rectangles@);
    lemma_disjoint_size_bound(rc.pix(), rect.pix(), *c.image);
}

impl<'a> Cutout<'a> {
    /// The maximal row-runs of foreground pixels in (view-relative) row `y`,
    /// in increasing-x order, in canvas-absolute coordinates.
    fn row_runs(&self, y: usize) -> (runs: Vec<Rectangle>)
        requires
            self.wf(),
            y < self.height,
        ensures
            all_rects_wf(runs@),
            forall|k: int| 0 <= k < runs@.len() ==> run_in_view(*self, #[trigger] runs@[k]),
            forall|k: int| 0 <= k < runs@.len() ==> (#[trigger] runs@[k]).ymin == self.offy + y,
            forall|k1: int, k2: int|
                0 <= k1 < k2 < runs@.len() ==> (#[trigger] runs@[k1]).xmax < (
                #[trigger] runs@[k2]).xmin,
            pairwise_disjoint(runs@),
            collection_pix(runs@) == row_fg(*self, y as int),
            forall|k: int|
                0 <= k < runs@.len() ==> ((#[trigger] runs@[k]).xmin == self.offx
                    || !self.view_get(runs@[k].xmin - self.offx - 1, y as int)) && (runs@[k].xmax
                    + 1 == self.offx + self.width || !self.view_get(
                    runs@[k].xmax + 1 - self.offx,
                    y as int,
                )),
            forall|k: int| 0 <= k < runs@.len() ==> run_maximal(*self, #[trigger] runs@[k]),
    {
        let row: usize = self.offy + y;
        let mut runs: Vec<Rectangle> = Vec::new();
        let mut x: usize = 0;
        let mut start: usize = 0;
        let mut open_run = false;
        proof {
            assert(collection_pix(runs@) =~= Set::new(
                |p: Pixel| self.view_fg().contains(p) && p.y == row && p.x < self.offx,
            ));
        }
        while x < self.width
            invariant
                self.wf(),
                y < self.height,
                row == self.offy + y,
                x <= self.width,
                all_rects_wf(runs@),
                forall|k: int| 0 <= k < runs@.len() ==> run_in_view(*self, #[trigger] runs@[k]),
                forall|k: int| 0 <= k < runs@.len() ==> (#[trigger] runs@[k]).ymin == row,
                forall|k1: int, k2: int|
                    0 <= k1 < k2 < runs@.len() ==> (#[trigger] runs@[k1]).xmax < (
                    #[trigger] runs@[k2]).xmin,
                forall|k: int|
                    0 <= k < runs@.len() ==> ((#[trigger] runs@[k]).xmin == self.offx
                        || !self.view_get(runs@[k].xmin - self.offx - 1, y as int))
                        && !self.view_get(runs@[k].xmax + 1 - self.offx, y as int),
                open_run ==> {
                    &&& start < x
                    &&& forall|i: int| start <= i < x ==> self.view_get(i, y as int)
                    &&& (start == 0 || !self.view_get(start - 1, y as int))
                    &&& forall|k: int|
                        0 <= k < runs@.len() ==> (#[trigger] runs@[k]).xmax + 1 < self.offx
                            + start
                },
                !open_run ==> forall|k: int|
                    0 <= k < runs@.len() ==> (#[trigger] runs@[k]).xmax < self.offx + x,
                !open_run ==> (x == 0 || !self.view_get(x - 1, y as int)),
                collection_pix(runs@) == Set::new(
                    |p: Pixel|
                        self.view_fg().contains(p) && p.y == row && p.x < self.offx + (
                        if open_run {
                            start as int
                        } else {
                            x as int
                        }),
                ),
            decreases self.width - x,
        {
            let fg = self.get(x, y);
            if fg && !open_run {
                start = x;
                open_run = true;
                proof {
                    assert forall|k: int|
                        0 <= k < runs@.len() implies (#[trigger] runs@[k]).xmax + 1 < self.offx
                        + start by {
                        if runs@[k].xmax + 1 == self.offx + start {
                            assert(!self.view_get(runs@[k].xmax + 1 - self.offx, y as int));
                        }
                    }
                }
            } else if !fg && open_run {
                let rect = Rectangle {
                    xmin: self.offx + start,
                    xmax: self.offx + x - 1,
                    ymin: row,
                    ymax: row,
                };
                let ghost old_runs = runs@;
                runs.push(rect);
                proof {
                    assert(rect.wf());
                    assert(rect.spec_size() <= usize::MAX) by (nonlinear_arith)
                        requires
                            rect.spec_size() == (rect.xmax - rect.xmin + 1) * (rect.ymax
                                - rect.ymin + 1),
                            rect.ymin == rect.ymax,
                            rect.xmin <= rect.xmax,
                            rect.xmax - rect.xmin + 1 <= usize::MAX,
                    ;
                    lemma_rects_push(old_runs, rect);
                    assert(runs@ == old_runs.push(rect));
                    assert(runs@[runs@.len() - 1] == rect);
                    assert(forall|k: int| 0 <= k < old_runs.len() ==> runs@[k] == old_runs[k]);
                    assert(collection_pix(runs@) =~= Set::new(
                        |p: Pixel|
                            self.view_fg().contains(p) && p.y == row && p.x < self.offx
                                + x as int,
                    )) by {
                        assert forall|p: Pixel|
                            rect.pix().contains(p) implies self.view_fg().contains(p) && p.y
                            == row by {
                            assert(self.view_get(p.x - self.offx, y as int));
                        }
                        assert forall|p: Pixel|
                            self.view_fg().contains(p) && p.y == row && self.offx + start <= p.x
                                < self.offx + x implies rect.pix().contains(p) by {}
                    }
                }
                open_run = false;
            }
            x = x + 1;
        }
        if open_run {
            let rect = Rectangle {
                xmin: self.offx + start,
                xmax: self.offx + self.width - 1,
                ymin: row,
                ymax: row,
            };
            let ghost old_runs = runs@;
            runs.push(rect);
            proof {
                assert(rect.wf());
                assert(rect.spec_size() <= usize::MAX) by (nonlinear_arith)
                    requires
                        rect.spec_size() == (rect.xmax - rect.xmin + 1) * (rect.ymax - rect.ymin
                            + 1),
                        rect.ymin == rect.ymax,
                        rect.xmin <= rect.xmax,
                        rect.xmax - rect.xmin + 1 <= usize::MAX,
                ;
                lemma_rects_push(old_runs, rect);
                assert(runs@ == old_runs.push(rect));
                assert(runs@[runs@.len() - 1] == rect);
                assert(forall|k: int| 0 <= k < old_runs.len() ==> runs@[k] == old_runs[k]);
                assert(collection_pix(runs@) =~= row_fg(*self, y as int)) by {
                    assert forall|p: Pixel|
                        rect.pix().contains(p) implies self.view_fg().contains(p) && p.y
                        == row by {
                        assert(self.view_get(p.x - self.offx, y as int));
                    }
                    assert forall|p: Pixel|
                        self.view_fg().contains(p) && p.y == row && self.offx + start
                            <= p.x implies rect.pix().contains(p) by {}
                }
            }
        } else {
            proof {
                assert(collection_pix(runs@) =~= row_fg(*self, y as int));
            }
        }
        proof {
            assert forall|k1: int, k2: int|
                0 <= k1 < runs@.len() && 0 <= k2 < runs@.len() && k1 != k2 implies (
            #[trigger] runs@[k1]).pix().disjoint(#[trigger] runs@[k2].pix()) by {
                assert forall|p: Pixel|
                    runs@[k1].pix().contains(p) implies !(runs@[k2].pix().contains(p)) by {
                    if k1 < k2 {
                        assert(runs@[k1].xmax < runs@[k2].xmin);
                    } else {
                        assert(runs@[k2].xmax < runs@[k1].xmin);
                    }
                }
            }
            assert forall|k: int| 0 <= k < runs@.len() implies run_maximal(
                *self,
                #[trigger] runs@[k],
            ) by {
                assert forall|xx: int|
                    runs@[k].xmin <= xx <= runs@[k].xmax implies #[trigger] self.view_get(
                    xx - self.offx,
                    runs@[k].ymin - self.offy,
                ) by {
                    let p = Pixel { x: xx as usize, y: runs@[k].ymin };
                    assert(runs@[k].pix().contains(p));
                    assert(collection_pix(runs@).contains(p));
                    assert(row_fg(*self, y as int).contains(p));
                }
            }
        }
        runs
    }

    /// Moves every run of `c` into `merged`: the merge step of the
    /// scanline pass, preserving the collection's validity and its hull
    /// bookkeeping.
    fn absorb_collection(&self, merged: &mut RectangleCollection, c: RectangleCollection)
        requires
            self.wf(),
            coll_ok(*self, *old(merged)),
            coll_ok(*self, c),
            hulls_ok(*old(merged)),
            old(merged).pix().disjoint(c.pix()),
            old(merged).pix().subset_of(self.view_fg()),
            c.pix().subset_of(self.view_fg()),
            forall|i: int|
                0 <= i < c.rectangles@.len() ==> (#[trigger] c.rectangles@[i]).ymin <= old(
                    merged,
                ).ymax,
        ensures
            coll_ok(*self, *final(merged)),
            hulls_ok(*final(merged)),
            final(merged).ymax == old(merged).ymax,
            final(merged).pix() == old(merged).pix().union(c.pix()),
            final(merged).rectangles@ == old(merged).rectangles@ + c.rectangles@,
    {
        let ghost base = *merged;
        let rects = c.rectangles();
        let mut ri: usize = 0;
        proof {
            assert(rects@ == c.rectangles@);
            assert(collection_pix(rects@) == c.pix());
            assert(merged.pix() =~= base.pix().union(collection_pix(rects@.take(0)))) by {
                assert(collection_pix(rects@.take(0)) =~= Set::<Pixel>::empty());
            }
            assert(merged.rectangles@ =~= base.rectangles@ + rects@.take(0));
        }
        while ri < rects.len()
            invariant
                self.wf(),
                ri <= rects@.len(),
                all_rects_wf(rects@),
                pairwise_disjoint(rects@),
                forall|k: int| 0 <= k < rects@.len() ==> run_maximal(*self, #[trigger] rects@[k]),
                forall|k: int|
                    0 <= k < rects@.len() ==> (#[trigger] rects@[k]).ymin <= base.ymax,
                collection_pix(rects@).subset_of(self.view_fg()),
                base.pix().disjoint(collection_pix(rects@)),
                base.pix().subset_of(self.view_fg()),
                coll_ok(*self, *merged),
                merged.pix() == base.pix().union(collection_pix(rects@.take(ri as int))),
                merged.rectangles@ == base.rectangles@ + rects@.take(ri as int),
                merged.ymax == base.ymax,
                hulls_ok(*merged),
            decreases rects@.len() - ri,
        {
            let rect = rects[ri];
            proof {
                assert(rect.wf() && rect.spec_size() <= usize::MAX);
                assert(merged.pix().disjoint(rect.pix())) by {
                    assert forall|p: Pixel|
                        rect.pix().contains(p) implies !merged.pix().contains(p) by {
                        assert(collection_pix(rects@).contains(p)) by {
                            assert(rects@[ri as int].pix().contains(p));
                        }
                        if collection_pix(rects@.take(ri as int)).contains(p) {
                            let k = choose|k: int|
                                0 <= k < ri && (#[trigger] rects@.take(
                                    ri as int,
                                )[k]).pix().contains(p);
                            assert(rects@[k].pix().contains(p));
                            assert(rects@[k].pix().disjoint(rects@[ri as int].pix()));
                        }
                    }
                }
                assert(rect.pix().subset_of(self.view_fg())) by {
                    assert forall|p: Pixel|
                        rect.pix().contains(p) implies self.view_fg().contains(p) by {
                        assert(rects@[ri as int].pix().contains(p));
                        assert(collection_pix(rects@).contains(p));
                    }
                }
                lemma_merge_size_ok(*self, *merged, rect);
                assert(rects@.take(ri + 1) == rects@.take(ri as int).push(rect));
                lemma_rects_push(rects@.take(ri as int), rect);
            }
            let ghost prev_merged = *merged;
            merged.add_rectangle(rect);
            proof {
                lemma_coll_extend_ok(*self, prev_merged, *merged, rect);
                assert(merged.pix() =~= base.pix().union(
                    collection_pix(rects@.take(ri + 1)),
                ));
                assert(forall|i: int|
                    0 <= i < prev_merged.rectangles@.len() ==> (
                    #[trigger] prev_merged.rectangles@[i]).ymin
                        == prev_merged.rectangles@[i].ymax);
                lemma_add_keeps_hulls(prev_merged, *merged, rect);
                assert(merged.rectangles@ =~= base.rectangles@ + rects@.take(ri + 1));
            }
            ri = ri + 1;
        }
        proof {
            assert(rects@.take(rects@.len() as int) == rects@);
            assert(merged.pix() =~= base.pix().union(c.pix()));
        }
    }

    /// Extracts the view's connected objects by the scanline run-merge pass:
    /// each row is decomposed into maximal runs, and each run starts, joins
    /// or merges the open collections it touches (see
    /// [`RectangleCollection::spec_bottom_touch`]).
    ///
    /// The returned collections hold pairwise-disjoint maximal row-runs,
    /// are pairwise disjoint among themselves, are each non-empty, and
    /// together cover exactly the foreground pixels of the view, in
    /// canvas-absolute coordinates — so no pixel is assigned to two
    /// collections and none is lost.  Moreover no contact is ever split:
    /// two runs in consecutive rows whose x-intervals meet or abut always
    /// land in the same collection ([`no_vertical_split`]); with run
    /// maximality this puts any two foreground pixels that are 4-adjacent —
    /// or that meet diagonally across rows — into one collection.  The
    /// converse (each collection connected under the closure of the hull
    /// touch test) is how the pass behaves, exercised by tests, but is not
    /// part of this contract.
    #[verifier::rlimit(100)]
    pub fn objects(&self) -> (r: Vec<RectangleCollection>)
        requires
            self.wf(),
        ensures
            colls_pix(r@) == self.view_fg(),
            colls_disjoint(r@),
            forall|k: int| 0 <= k < r@.len() ==> coll_ok(*self, #[trigger] r@[k]),
            forall|k: int| 0 <= k < r@.len() ==> (#[trigger] r@[k]).size == r@[k].pix().len(),
            no_vertical_split(r@),
            forall|k: int|
                0 <= k < r@.len() ==> (#[trigger] r@[k]).pix().contains(
                    Pixel { x: r@[k].rectangles@[0].xmin, y: r@[k].rectangles@[0].ymin },
                ),
    {
        let mut collections: Vec<RectangleCollection> = Vec::new();
        let mut y: usize = 0;
        proof {
            assert(colls_pix(collections@) =~= fg_upto(*self, 0));
            assert(no_vertical_split(collections@)) by {
                reveal(no_vertical_split);
            }
        }
        while y < self.height
            invariant
                self.wf(),
                y <= self.height,
                colls_pix(collections@) == fg_upto(*self, y as int),
                colls_disjoint(collections@),
                forall|k: int|
                    0 <= k < collections@.len() ==> coll_ok(*self, #[trigger] collections@[k]),
                forall|k: int|
                    0 <= k < collections@.len() ==> hulls_ok(#[trigger] collections@[k]),
                rows_at_most(collections@, self.offy + y - 1),
                no_vertical_split(collections@),
            decreases self.height - y,
        {
            let runs = self.row_runs(y);
            let mut j: usize = 0;
            proof {
                assert(colls_pix(collections@) =~= fg_upto(*self, y as int).union(
                    collection_pix(runs@.take(0)),
                )) by {
                    assert(collection_pix(runs@.take(0)) =~= Set::<Pixel>::empty());
                }
            }
            while j < runs.len()
                invariant
                    self.wf(),
                    y < self.height,
                    j <= runs@.len(),
                    all_rects_wf(runs@),
                    pairwise_disjoint(runs@),
                    collection_pix(runs@) == row_fg(*self, y as int),
                    forall|k: int|
                        0 <= k < runs@.len() ==> run_in_view(*self, #[trigger] runs@[k]),
                    forall|k: int|
                        0 <= k < runs@.len() ==> run_maximal(*self, #[trigger] runs@[k]),
                    forall|k1: int, k2: int|
                        0 <= k1 < k2 < runs@.len() ==> (#[trigger] runs@[k1]).xmax < (
                        #[trigger] runs@[k2]).xmin,
                    forall|k: int|
                        0 <= k < runs@.len() ==> (#[trigger] runs@[k]).ymin == self.offy + y,
                    colls_pix(collections@) == fg_upto(*self, y as int).union(
                        collection_pix(runs@.take(j as int)),
                    ),
                    colls_disjoint(collections@),
                    forall|k: int|
                        0 <= k < collections@.len() ==> coll_ok(*self, #[trigger] collections@[k]),
                    forall|k: int|
                        0 <= k < collections@.len() ==> hulls_ok(#[trigger] collections@[k]),
                    rows_at_most(collections@, self.offy + y),
                    no_vertical_split(collections@),
                decreases runs@.len() - j,
            {
                let run = runs[j];
                proof {
                    lemma_objects_run_facts(*self, runs@, collections@, y as int, j as int);
                    assert(run_maximal(*self, run)) by {
                        assert(run_maximal(*self, runs@[j as int]));
                    }
                }
                let mut touched: Vec<usize> = Vec::new();
                let mut idx: usize = 0;
                while idx < collections.len()
                    invariant
                        idx <= collections@.len(),
                        forall|t: int|
                            0 <= t < touched@.len() ==> 0 <= #[trigger] touched@[t]
                                < collections@.len(),
                        forall|t1: int, t2: int|
                            0 <= t1 < t2 < touched@.len() ==> #[trigger] touched@[t1]
                                < #[trigger] touched@[t2],
                        forall|t: int| 0 <= t < touched@.len() ==> #[trigger] touched@[t] < idx,
                        forall|t: int|
                            0 <= t < touched@.len() ==> collections@[#[trigger] touched@[t] as int].spec_bottom_touch(run),
                        forall|idx2: int|
                            0 <= idx2 < idx && (#[trigger] collections@[idx2]).spec_bottom_touch(
                                run,
                            ) ==> exists|t: int|
                                0 <= t < touched@.len() && touched@[t] == idx2,
                    decreases collections@.len() - idx,
                {
                    if collections[idx].bottom_touch(&run) {
                        let ghost old_touched = touched@;
                        touched.push(idx);
                        proof {
                            assert(forall|t: int|
                                0 <= t < old_touched.len() ==> touched@[t] == old_touched[t]);
                            assert(touched@[touched@.len() - 1] == idx);
                            assert forall|idx2: int|
                                0 <= idx2 < idx + 1 && (
                                #[trigger] collections@[idx2]).spec_bottom_touch(run)
                                    implies exists|t: int|
                                0 <= t < touched@.len() && touched@[t] == idx2 by {
                                if idx2 < idx {
                                    let t = choose|t: int|
                                        0 <= t < old_touched.len() && old_touched[t] == idx2;
                                    assert(touched@[t] == idx2);
                                } else {
                                    assert(touched@[touched@.len() - 1] == idx2);
                                }
                            }
                        }
                    }
                    idx = idx + 1;
                }
                let ghost pre_colls = collections@;
                let ghost target = fg_upto(*self, y as int).union(
                    collection_pix(runs@.take(j + 1)),
                );
                proof {
                    assert(runs@.take(j + 1) == runs@.take(j as int).push(run));
                    lemma_rects_push(runs@.take(j as int), run);
                }
                if touched.len() == 0 {
                    let c = RectangleCollection::new(run);
                    collections.push(c);
                    proof {
                        lemma_colls_push(pre_colls, c);
                        assert(forall|k: int|
                            0 <= k < pre_colls.len() ==> collections@[k] == pre_colls[k]);
                        assert(collections@[collections@.len() - 1] == c);
                        assert(coll_ok(*self, c)) by {
                            assert(c.rectangles@[0] == run);
                            assert forall|i1: int, i2: int|
                                0 <= i1 < c.rectangles@.len() && 0 <= i2 < c.rectangles@.len()
                                    && i1 != i2 implies (
                            #[trigger] c.rectangles@[i1]).pix().disjoint(
                                #[trigger] c.rectangles@[i2].pix()) by {}
                        }
                        assert(hulls_ok(c)) by {
                            reveal(hulls_ok);
                            assert(c.rectangles@[0] == run);
                            assert(forall|i: int|
                                0 <= i < c.rectangles@.len() ==> #[trigger] c.rectangles@[i]
                                    == run);
                        }
                        assert forall|k: int|
                            0 <= k < pre_colls.len() implies !(
                        #[trigger] pre_colls[k]).spec_bottom_touch(run) by {
                            if pre_colls[k].spec_bottom_touch(run) {
                                let t = choose|t: int|
                                    0 <= t < touched@.len() && touched@[t] == k;
                            }
                        }
                        lemma_nosplit_push_new(
                            *self,
                            pre_colls,
                            c,
                            run,
                            self.offy + y as int,
                        );
                        assert(rows_at_most(collections@, self.offy + y)) by {
                            assert forall|k: int, i: int|
                                #![trigger collections@[k].rectangles@[i]]
                                0 <= k < collections@.len() && 0 <= i
                                    < collections@[k].rectangles@.len()
                                    implies collections@[k].rectangles@[i].ymin <= self.offy
                                + y by {
                                if k < pre_colls.len() {
                                    assert(pre_colls[k].rectangles@[i].ymin <= self.offy + y);
                                } else {
                                    assert(collections@[k].rectangles@[i] == run);
                                }
                            }
                        }
                        assert(c.pix() == run.pix());
                        assert forall|k1: int, k2: int|
                            0 <= k1 < collections@.len() && 0 <= k2 < collections@.len() && k1
                                != k2 implies (#[trigger] collections@[k1]).pix().disjoint(
                            #[trigger] collections@[k2].pix()) by {
                            if k1 < pre_colls.len() && k2 < pre_colls.len() {
                            } else if k1 < pre_colls.len() {
                                lemma_member_subset_colls(pre_colls, k1);
                            } else if k2 < pre_colls.len() {
                                lemma_member_subset_colls(pre_colls, k2);
                            }
                        }
                        assert(colls_pix(collections@) =~= target);
                    }
                } else if touched.len() == 1 {
                    let t0: usize = touched[0];
                    let mut c = collections.remove(t0);
                    let ghost mid = collections@;
                    proof {
                        assert(c == pre_colls[t0 as int]);
                        assert(pre_colls[t0 as int].spec_bottom_touch(run)) by {
                            assert(pre_colls[touched@[0] as int].spec_bottom_touch(run));
                        }
                        lemma_colls_remove(pre_colls, t0 as int);
                        lemma_member_subset_colls(pre_colls, t0 as int);
                        lemma_colls_remove_props(*self, pre_colls, t0 as int);
                        lemma_merge_size_ok(*self, c, run);
                    }
                    c.add_rectangle(run);
                    collections.push(c);
                    proof {
                        lemma_colls_push(mid, c);
                        assert(forall|k: int| 0 <= k < mid.len() ==> collections@[k] == mid[k]);
                        assert(collections@[collections@.len() - 1] == c);
                        assert(mid == pre_colls.remove(t0 as int));
                        assert(c.pix() == pre_colls[t0 as int].pix().union(run.pix()));
                        assert(colls_pix(collections@) == colls_pix(mid).union(c.pix()));
                        assert(colls_pix(pre_colls) == colls_pix(mid).union(
                            pre_colls[t0 as int].pix(),
                        ));
                        assert(colls_pix(collections@) =~= colls_pix(pre_colls).union(run.pix()));
                        lemma_coll_extend_ok(*self, pre_colls[t0 as int], c, run);
                        assert(forall|i: int|
                            0 <= i < pre_colls[t0 as int].rectangles@.len() ==> (
                            #[trigger] pre_colls[t0 as int].rectangles@[i]).ymin
                                == pre_colls[t0 as int].rectangles@[i].ymax);
                        assert(run.ymin <= pre_colls[t0 as int].ymax + 1) by {
                            assert(pre_colls[t0 as int].spec_bottom_touch(run));
                        }
                        lemma_add_keeps_hulls(pre_colls[t0 as int], c, run);
                        lemma_remove_keeps_each(pre_colls, t0 as int);
                        assert forall|k: int|
                            0 <= k < collections@.len() implies hulls_ok(
                            #[trigger] collections@[k],
                        ) by {
                            if k < mid.len() {
                                assert(mid[k] == pre_colls[k] || mid[k] == pre_colls[k + 1]);
                            } else {
                                assert(collections@[k] == c);
                            }
                        }
                        assert(rows_at_most(collections@, self.offy + y)) by {
                            assert forall|k: int, i: int|
                                #![trigger collections@[k].rectangles@[i]]
                                0 <= k < collections@.len() && 0 <= i
                                    < collections@[k].rectangles@.len()
                                    implies collections@[k].rectangles@[i].ymin <= self.offy
                                + y by {
                                if k < mid.len() {
                                    assert(mid[k] == pre_colls[k] || mid[k] == pre_colls[k + 1]);
                                } else {
                                    assert(collections@[k] == c);
                                    if i < c.rectangles@.len() - 1 {
                                        assert(c.rectangles@[i]
                                            == pre_colls[t0 as int].rectangles@[i]);
                                    } else {
                                        assert(c.rectangles@[i] == run);
                                    }
                                }
                            }
                        }
                        assert forall|k: int|
                            0 <= k < pre_colls.len() && k != t0 implies !(
                        #[trigger] pre_colls[k]).spec_bottom_touch(run) by {
                            if pre_colls[k].spec_bottom_touch(run) {
                                let t = choose|t: int|
                                    0 <= t < touched@.len() && touched@[t] == k;
                                assert(t == 0 && touched@[0] == t0);
                            }
                        }
                        lemma_nosplit_extend(
                            *self,
                            pre_colls,
                            mid,
                            c,
                            run,
                            t0 as int,
                            self.offy + y as int,
                        );
                        assert forall|k1: int, k2: int|
                            0 <= k1 < collections@.len() && 0 <= k2 < collections@.len() && k1
                                != k2 implies (#[trigger] collections@[k1]).pix().disjoint(
                            #[trigger] collections@[k2].pix()) by {
                            if k1 < mid.len() && k2 < mid.len() {
                            } else {
                                let kother = if k1 < k2 {
                                    k1
                                } else {
                                    k2
                                };
                                lemma_member_subset_colls(mid, kother);
                                assert(mid[kother].pix().disjoint(pre_colls[t0 as int].pix()));
                                assert(mid[kother].pix().disjoint(run.pix())) by {
                                    assert(colls_pix(mid).subset_of(colls_pix(pre_colls)));
                                }
                            }
                        }
                        assert(colls_pix(collections@) =~= target);
                    }
                } else {
                    let mut merged = RectangleCollection::new(run);
                    let ghost mut omap: Seq<int> = Seq::new(pre_colls.len(), |i: int| i);
                    proof {
                        lemma_singleton_collection(*self, merged, run);
                        assert(hulls_ok(merged)) by {
                            reveal(hulls_ok);
                            assert(merged.rectangles@[0] == run);
                            assert(forall|i: int|
                                0 <= i < merged.rectangles@.len()
                                    ==> #[trigger] merged.rectangles@[i] == run);
                        }
                    }
                    let mut t: usize = touched.len();
                    while t > 0
                        invariant
                            self.wf(),
                            t <= touched@.len(),
                            collections@.len() == pre_colls.len() - (touched@.len() - t),
                            forall|t1: int, t2: int|
                                0 <= t1 < t2 < touched@.len() ==> #[trigger] touched@[t1]
                                    < #[trigger] touched@[t2],
                            forall|tt: int|
                                0 <= tt < touched@.len() ==> 0 <= #[trigger] touched@[tt]
                                    < pre_colls.len(),
                            coll_ok(*self, merged),
                            colls_disjoint(collections@),
                            forall|k: int|
                                0 <= k < collections@.len() ==> coll_ok(
                                    *self,
                                    #[trigger] collections@[k],
                                ),
                            merged.pix().disjoint(colls_pix(collections@)),
                            colls_pix(collections@).union(merged.pix()) == colls_pix(
                                pre_colls,
                            ).union(run.pix()),
                            colls_pix(collections@).subset_of(self.view_fg()),
                            merged.pix().subset_of(self.view_fg()),
                            no_vertical_split(pre_colls),
                            rows_at_most(pre_colls, self.offy + y),
                            forall|k: int|
                                0 <= k < pre_colls.len() ==> coll_ok(
                                    *self,
                                    #[trigger] pre_colls[k],
                                ) && hulls_ok(pre_colls[k]),
                            run_maximal(*self, run),
                            run.ymin == self.offy + y,
                            forall|k: int|
                                0 <= k < pre_colls.len() && (
                                #[trigger] pre_colls[k]).spec_bottom_touch(run) ==> exists|
                                    t2: int,
                                |
                                    0 <= t2 < touched@.len() && touched@[t2] == k,
                            omap.len() == collections@.len(),
                            forall|k: int|
                                0 <= k < collections@.len() ==> 0 <= #[trigger] omap[k]
                                    < pre_colls.len() && collections@[k] == pre_colls[omap[k]],
                            forall|a: int, b: int|
                                0 <= a < b < omap.len() ==> #[trigger] omap[a] < #[trigger] omap[b],
                            forall|k: int|
                                0 <= k < omap.len() && (t >= touched@.len() || k < touched@[t as int]) ==> #[trigger] omap[k] == k,
                            forall|k: int, t2: int|
                                0 <= k < omap.len() && t <= t2 < touched@.len()
                                    ==> #[trigger] touched@[t2] != #[trigger] omap[k],
                            merged.ymax == self.offy + y,
                            merged.rectangles@.len() >= 1,
                            merged.rectangles@[0] == run,
                            hulls_ok(merged),
                            forall|i: int|
                                0 <= i < merged.rectangles@.len() ==> (
                                #[trigger] merged.rectangles@[i]).ymin <= self.offy + y,
                            forall|i: int|
                                1 <= i < merged.rectangles@.len() ==> from_sources(
                                    #[trigger] merged.rectangles@[i],
                                    pre_colls,
                                    touched@,
                                    t as int,
                                ),
                        decreases t,
                    {
                        t = t - 1;
                        let id: usize = touched[t];
                        proof {
                            if t < touched@.len() - 1 {
                                lemma_sorted_gap(touched@, t as int, touched@.len() - 1);
                            }
                            assert(id < collections@.len());
                            assert(omap[id as int] == id as int) by {
                                if t + 1 < touched@.len() {
                                    assert(touched@[t as int] < touched@[t + 1]);
                                }
                            }
                        }
                        let ghost before = collections@;
                        let ghost omap_before = omap;
                        let c = collections.remove(id);
                        proof {
                            omap = omap.remove(id as int);
                        }
                        let ghost mid2 = collections@;
                        proof {
                            assert(c == before[id as int]);
                            assert(c == pre_colls[id as int]);
                            lemma_colls_remove(before, id as int);
                            lemma_member_subset_colls(before, id as int);
                            lemma_colls_remove_props(*self, before, id as int);
                            assert(merged.pix().disjoint(c.pix()));
                            lemma_omap_step(
                                omap_before,
                                omap,
                                touched@,
                                t as int,
                                pre_colls.len() as int,
                            );
                            assert(forall|k: int|
                                0 <= k < mid2.len() ==> #[trigger] mid2[k] == (if k < id {
                                    before[k]
                                } else {
                                    before[k + 1]
                                }));
                            assert(forall|k: int|
                                0 <= k < omap.len() ==> #[trigger] omap[k] == (if k < id {
                                    omap_before[k]
                                } else {
                                    omap_before[k + 1]
                                }));
                        }
                        let ghost base = merged;
                        let ghost c_rects = c.rectangles@;
                        let ghost c_pix = c.pix();
                        proof {
                            assert forall|i: int|
                                0 <= i < c.rectangles@.len() implies (
                            #[trigger] c.rectangles@[i]).ymin <= merged.ymax by {
                                assert(pre_colls[id as int].rectangles@[i].ymin <= self.offy + y);
                            }
                        }
                        self.absorb_collection(&mut merged, c);
                        proof {
                            assert(merged.pix() == base.pix().union(c_pix));
                            assert(colls_pix(before) =~= colls_pix(mid2).union(c_pix));
                            lemma_merge_union_step(
                                colls_pix(mid2),
                                colls_pix(before),
                                base.pix(),
                                c_pix,
                                merged.pix(),
                                colls_pix(pre_colls).union(run.pix()),
                                self.view_fg(),
                            );
                            assert(c_rects == pre_colls[touched@[t as int] as int].rectangles@);
                            lemma_merged_sources(
                                base,
                                merged,
                                c_rects,
                                pre_colls,
                                touched@,
                                t as int,
                            );
                            assert(merged.rectangles@[0] == run);
                        }
                    }
                    let ghost mid3 = collections@;
                    collections.push(merged);
                    proof {
                        lemma_colls_push(mid3, merged);
                        assert(forall|k: int| 0 <= k < mid3.len() ==> collections@[k] == mid3[k]);
                        assert(collections@[collections@.len() - 1] == merged);
                        assert forall|k1: int, k2: int|
                            0 <= k1 < collections@.len() && 0 <= k2 < collections@.len() && k1
                                != k2 implies (#[trigger] collections@[k1]).pix().disjoint(
                            #[trigger] collections@[k2].pix()) by {
                            if k1 < mid3.len() && k2 < mid3.len() {
                            } else if k1 < mid3.len() {
                                lemma_member_subset_colls(mid3, k1);
                            } else if k2 < mid3.len() {
                                lemma_member_subset_colls(mid3, k2);
                            }
                        }
                        assert(colls_pix(collections@) =~= target);
                        lemma_nosplit_merged(
                            *self,
                            pre_colls,
                            mid3,
                            omap,
                            merged,
                            touched@,
                            run,
                            self.offy + y as int,
                        );
                        assert forall|k: int|
                            0 <= k < collections@.len() implies hulls_ok(
                            #[trigger] collections@[k],
                        ) by {
                            if k < mid3.len() {
                                assert(mid3[k] == pre_colls[omap[k]]);
                            } else {
                                assert(collections@[k] == merged);
                            }
                        }
                        assert(rows_at_most(collections@, self.offy + y)) by {
                            assert forall|k: int, i: int|
                                #![trigger collections@[k].rectangles@[i]]
                                0 <= k < collections@.len() && 0 <= i
                                    < collections@[k].rectangles@.len()
                                    implies collections@[k].rectangles@[i].ymin <= self.offy
                                + y by {
                                if k < mid3.len() {
                                    assert(mid3[k] == pre_colls[omap[k]]);
                                    assert(pre_colls[omap[k]].rectangles@[i].ymin <= self.offy
                                        + y);
                                } else {
                                    assert(collections@[k] == merged);
                                }
                            }
                        }
                    }
                }
                j = j + 1;
            }
            proof {
                assert(runs@.take(runs@.len() as int) == runs@);
                assert(fg_upto(*self, y as int).union(row_fg(*self, y as int)) =~= fg_upto(
                    *self,
                    y + 1,
                ));
            }
            y = y + 1;
        }
        proof {
            assert(fg_upto(*self, self.height as int) =~= self.view_fg());
            assert forall|k: int|
                0 <= k < collections@.len() implies (#[trigger] collections@[k]).size
                == collections@[k].pix().len() by {
                lemma_collection_card(collections@[k].rectangles@);
            }
        }
        collections
    }
}


/// Every rectangle of every collection lies in row `row` or above.
pub open spec fn rows_at_most(colls: Seq<RectangleCollection>, row: int) -> bool {
    forall|k: int, i: int|
        #![trigger colls[k].rectangles@[i]]
        0 <= k < colls.len() && 0 <= i < colls[k].rectangles@.len()
            ==> colls[k].rectangles@[i].ymin <= row
}

/// Removing an element maps the rest onto the original positions.
proof fn lemma_remove_keeps_each(s: Seq<RectangleCollection>, i: int)
    requires
        0 <= i < s.len(),
    ensures
        forall|k: int|
            0 <= k < s.remove(i).len() ==> #[trigger] s.remove(i)[k] == (if k < i {
                s[k]
            } else {
                s[k + 1]
            }),
{
}

/// A collection whose rectangles all lie at or above the run's row has its
/// newest row at or above it too.
proof fn lemma_ymax_at_most(c: Cutout, rc: RectangleCollection, row: int)
    requires
        coll_ok(c, rc),
        forall|i: int|
            0 <= i < rc.rectangles@.len() ==> (#[trigger] rc.rectangles@[i]).ymin <= row,
    ensures
        rc.ymax <= row,
{
    assert(forall|i: int|
        0 <= i < rc.rectangles@.len() ==> (#[trigger] rc.rectangles@[i]).ymin
            == rc.rectangles@[i].ymax);
    lemma_ymax_is_max_row(rc);
    let iw = choose|i: int|
        0 <= i < rc.rectangles@.len() && (#[trigger] rc.rectangles@[i]).ymin == rc.ymax;
}

/// Placing an untouched run as a fresh collection splits no contact: no
/// existing collection holds a rectangle in contact with it, or its touch
/// test would have fired.
proof fn lemma_nosplit_push_new(
    c: Cutout,
    colls: Seq<RectangleCollection>,
    nc: RectangleCollection,
    run: Rectangle,
    row: int,
)
    requires
        no_vertical_split(colls),
        nc.rectangles@ == seq![run],
        run.ymin == row,
        rows_at_most(colls, row),
        forall|k: int|
            0 <= k < colls.len() ==> coll_ok(c, #[trigger] colls[k]) && hulls_ok(colls[k]),
        forall|k: int| 0 <= k < colls.len() ==> !(#[trigger] colls[k]).spec_bottom_touch(run),
    ensures
        no_vertical_split(colls.push(nc)),
{
    reveal(no_vertical_split);
    let s2 = colls.push(nc);
    let ll = colls.len() as int;
    assert(s2[ll] == nc && nc.rectangles@[0] == run);
    assert(forall|k: int| 0 <= k < ll ==> s2[k] == colls[k]);
    assert forall|k1: int, k2: int, i1: int, i2: int|
        #![trigger s2[k1].rectangles@[i1], s2[k2].rectangles@[i2]]
        0 <= k1 < s2.len() && 0 <= k2 < s2.len() && 0 <= i1 < s2[k1].rectangles@.len() && 0 <= i2
            < s2[k2].rectangles@.len() && runs_touch(
            s2[k1].rectangles@[i1],
            s2[k2].rectangles@[i2],
        ) implies k1 == k2 by {
        let r1 = s2[k1].rectangles@[i1];
        let r2 = s2[k2].rectangles@[i2];
        if k1 < ll && k2 < ll {
            assert(colls[k1].rectangles@[i1] == r1 && colls[k2].rectangles@[i2] == r2);
        } else if k1 < ll && k2 == ll {
            assert(r2 == run);
            lemma_ymax_at_most(c, colls[k1], row);
            lemma_contact_touches(c, colls[k1], i1, run);
            assert(false);
        } else if k1 == ll && k2 < ll {
            assert(r1 == run);
            assert(r2.ymin == row + 1);
            assert(colls[k2].rectangles@[i2].ymin <= row);
            assert(false);
        }
    }
}

/// Extending the single touched collection with the run splits no contact.
#[verifier::rlimit(100)]
proof fn lemma_nosplit_extend(
    c: Cutout,
    pre: Seq<RectangleCollection>,
    mid: Seq<RectangleCollection>,
    cprime: RectangleCollection,
    run: Rectangle,
    t0: int,
    row: int,
)
    requires
        no_vertical_split(pre),
        0 <= t0 < pre.len(),
        mid == pre.remove(t0),
        cprime.rectangles@ == pre[t0].rectangles@.push(run),
        run.ymin == row,
        rows_at_most(pre, row),
        forall|k: int|
            0 <= k < pre.len() ==> coll_ok(c, #[trigger] pre[k]) && hulls_ok(pre[k]),
        forall|k: int|
            0 <= k < pre.len() && k != t0 ==> !(#[trigger] pre[k]).spec_bottom_touch(run),
    ensures
        no_vertical_split(mid.push(cprime)),
{
    reveal(no_vertical_split);
    lemma_remove_keeps_each(pre, t0);
    let s2 = mid.push(cprime);
    let ll = mid.len() as int;
    assert(s2[ll] == cprime);
    assert(forall|k: int| 0 <= k < ll ==> s2[k] == mid[k]);
    assert forall|k1: int, k2: int, i1: int, i2: int|
        #![trigger s2[k1].rectangles@[i1], s2[k2].rectangles@[i2]]
        0 <= k1 < s2.len() && 0 <= k2 < s2.len() && 0 <= i1 < s2[k1].rectangles@.len() && 0 <= i2
            < s2[k2].rectangles@.len() && runs_touch(
            s2[k1].rectangles@[i1],
            s2[k2].rectangles@[i2],
        ) implies k1 == k2 by {
        let o1 = if k1 < t0 {
            k1
        } else {
            k1 + 1
        };
        let o2 = if k2 < t0 {
            k2
        } else {
            k2 + 1
        };
        if k1 < ll && k2 < ll {
            assert(s2[k1] == pre[o1] && s2[k2] == pre[o2]);
            assert(pre[o1].rectangles@[i1] == s2[k1].rectangles@[i1]);
            assert(pre[o2].rectangles@[i2] == s2[k2].rectangles@[i2]);
            assert(o1 == o2);
        } else if k1 < ll && k2 == ll {
            assert(s2[k1] == pre[o1] && o1 != t0);
            let r1 = pre[o1].rectangles@[i1];
            if i2 < cprime.rectangles@.len() - 1 {
                let r2 = pre[t0].rectangles@[i2];
                assert(s2[k2].rectangles@[i2] == r2);
                assert(o1 == t0);
                assert(false);
            } else {
                assert(s2[k2].rectangles@[i2] == run);
                lemma_ymax_at_most(c, pre[o1], row);
                lemma_contact_touches(c, pre[o1], i1, run);
                assert(false);
            }
        } else if k1 == ll && k2 < ll {
            assert(s2[k2] == pre[o2] && o2 != t0);
            let r2 = pre[o2].rectangles@[i2];
            if i1 < cprime.rectangles@.len() - 1 {
                let r1 = pre[t0].rectangles@[i1];
                assert(s2[k1].rectangles@[i1] == r1);
                assert(o2 == t0);
                assert(false);
            } else {
                assert(s2[k1].rectangles@[i1] == run);
                assert(r2.ymin == row + 1);
                assert(pre[o2].rectangles@[i2].ymin <= row);
                assert(false);
            }
        }
    }
}



/// The rectangle comes from one of the touched source collections counted
/// from position `t` on.
#[verifier::opaque]
pub open spec fn from_sources(
    r: Rectangle,
    pre: Seq<RectangleCollection>,
    touched: Seq<usize>,
    t: int,
) -> bool {
    exists|t2: int, i2: int|
        t <= t2 < touched.len() && 0 <= i2 < pre[touched[t2] as int].rectangles@.len() && r
            == pre[touched[t2] as int].rectangles@[i2]
}

/// Removing the next source keeps the origin map's properties: positions
/// under the removed index stay the identity, and no remaining position
/// originates from a source still to be merged.
proof fn lemma_omap_step(
    omap_before: Seq<int>,
    omap: Seq<int>,
    touched: Seq<usize>,
    t: int,
    n: int,
)
    requires
        0 <= t < touched.len(),
        touched[t] < omap_before.len(),
        omap == omap_before.remove(touched[t] as int),
        forall|k: int| 0 <= k < omap_before.len() ==> 0 <= #[trigger] omap_before[k] < n,
        forall|a: int, b: int|
            0 <= a < b < omap_before.len() ==> #[trigger] omap_before[a] < #[trigger] omap_before[b],
        forall|k: int|
            0 <= k < omap_before.len() && (t + 1 >= touched.len() || k < touched[t + 1])
                ==> #[trigger] omap_before[k] == k,
        forall|k: int, t2: int|
            0 <= k < omap_before.len() && t + 1 <= t2 < touched.len() ==> #[trigger] touched[t2]
                != #[trigger] omap_before[k],
        forall|t1: int, t2: int|
            0 <= t1 < t2 < touched.len() ==> #[trigger] touched[t1] < #[trigger] touched[t2],
        omap_before[touched[t] as int] == touched[t] as int,
    ensures
        forall|k: int| 0 <= k < omap.len() ==> 0 <= #[trigger] omap[k] < n,
        forall|a: int, b: int|
            0 <= a < b < omap.len() ==> #[trigger] omap[a] < #[trigger] omap[b],
        forall|k: int|
            0 <= k < omap.len() && (t >= touched.len() || k < touched[t]) ==> #[trigger] omap[k]
                == k,
        forall|k: int, t2: int|
            0 <= k < omap.len() && t <= t2 < touched.len() ==> #[trigger] touched[t2]
                != #[trigger] omap[k],
{
    let id = touched[t] as int;
    assert(forall|k: int|
        0 <= k < omap.len() ==> #[trigger] omap[k] == (if k < id {
            omap_before[k]
        } else {
            omap_before[k + 1]
        }));
    assert forall|k: int, t2: int|
        0 <= k < omap.len() && t <= t2 < touched.len() implies #[trigger] touched[t2] != (
    #[trigger] omap[k]) by {
        if t2 == t {
            if k < id {
                assert(omap[k] == omap_before[k]);
                assert(omap_before[k] == k);
            } else {
                assert(omap[k] == omap_before[k + 1]);
                assert(omap_before[id] < omap_before[k + 1]);
            }
        } else {
            if k < id {
                assert(omap[k] == omap_before[k]);
            } else {
                assert(omap[k] == omap_before[k + 1]);
            }
        }
    }
    assert forall|k: int|
        0 <= k < omap.len() && (t >= touched.len() || k < touched[t]) implies #[trigger] omap[k]
        == k by {
        assert(omap[k] == omap_before[k]);
    }
}


/// Set bookkeeping for one merge step: moving a source's pixels from the
/// open list into the merged collection keeps the combined union and the
/// disjointness.
proof fn lemma_merge_union_step(
    mid2p: Set<Pixel>,
    beforep: Set<Pixel>,
    basep: Set<Pixel>,
    cp: Set<Pixel>,
    mergedp: Set<Pixel>,
    targetp: Set<Pixel>,
    fgp: Set<Pixel>,
)
    requires
        mergedp == basep.union(cp),
        beforep == mid2p.union(cp),
        basep.disjoint(beforep),
        cp.disjoint(mid2p),
        beforep.union(basep) == targetp,
        beforep.subset_of(fgp),
        basep.subset_of(fgp),
        mid2p.subset_of(beforep),
    ensures
        mergedp.disjoint(mid2p),
        mid2p.union(mergedp) == targetp,
        mergedp.subset_of(fgp),
        mid2p.subset_of(fgp),
{
    assert(mergedp.disjoint(mid2p)) by {
        assert forall|p: Pixel| mergedp.contains(p) implies !mid2p.contains(p) by {
            if basep.contains(p) {
                assert(!beforep.contains(p));
            }
        }
    }
    assert(mid2p.union(mergedp) =~= targetp);
}

/// Every rectangle of the merged collection beyond the bridging run comes
/// from one of the touched sources.
proof fn lemma_merged_sources(
    base: RectangleCollection,
    merged: RectangleCollection,
    rects: Seq<Rectangle>,
    pre: Seq<RectangleCollection>,
    touched: Seq<usize>,
    t: int,
)
    requires
        0 <= t < touched.len(),
        touched[t] < pre.len(),
        merged.rectangles@ == base.rectangles@ + rects,
        base.rectangles@.len() >= 1,
        rects == pre[touched[t] as int].rectangles@,
        forall|i: int|
            1 <= i < base.rectangles@.len() ==> from_sources(
                #[trigger] base.rectangles@[i],
                pre,
                touched,
                t + 1,
            ),
    ensures
        merged.rectangles@[0] == base.rectangles@[0],
        forall|i: int|
            1 <= i < merged.rectangles@.len() ==> from_sources(
                #[trigger] merged.rectangles@[i],
                pre,
                touched,
                t,
            ),
{
    reveal(from_sources);
    assert forall|i: int|
        1 <= i < merged.rectangles@.len() implies from_sources(
        #[trigger] merged.rectangles@[i],
        pre,
        touched,
        t,
    ) by {
        if i < base.rectangles@.len() {
            assert(merged.rectangles@[i] == base.rectangles@[i]);
            assert(from_sources(base.rectangles@[i], pre, touched, t + 1));
            let (t2, i2): (int, int) = choose|t2: int, i2: int|
                t + 1 <= t2 < touched.len() && 0 <= i2 < pre[touched[t2] as int].rectangles@.len()
                    && base.rectangles@[i] == pre[touched[t2] as int].rectangles@[i2];
            assert(t <= t2 < touched.len() && 0 <= i2 < pre[touched[t2] as int].rectangles@.len()
                && merged.rectangles@[i] == pre[touched[t2] as int].rectangles@[i2]);
        } else {
            let i2 = i - base.rectangles@.len();
            assert(merged.rectangles@[i] == rects[i2]);
            assert(t <= t < touched.len() && 0 <= i2 < pre[touched[t] as int].rectangles@.len()
                && merged.rectangles@[i] == pre[touched[t] as int].rectangles@[i2]);
        }
    }
}

/// Pushing the merged collection splits no contact: everything in contact
/// with the bridging run or with a removed source was itself removed into
/// the merge.
proof fn lemma_nosplit_merged(
    c: Cutout,
    pre: Seq<RectangleCollection>,
    remaining: Seq<RectangleCollection>,
    omap: Seq<int>,
    merged: RectangleCollection,
    touched: Seq<usize>,
    run: Rectangle,
    row: int,
)
    requires
        no_vertical_split(pre),
        rows_at_most(pre, row),
        forall|k: int|
            0 <= k < pre.len() ==> coll_ok(c, #[trigger] pre[k]) && hulls_ok(pre[k]),
        run.ymin == row,
        forall|t: int| 0 <= t < touched.len() ==> 0 <= #[trigger] touched[t] < pre.len(),
        forall|k: int|
            0 <= k < pre.len() && (#[trigger] pre[k]).spec_bottom_touch(run) ==> exists|t: int|
                0 <= t < touched.len() && touched[t] == k,
        omap.len() == remaining.len(),
        forall|k: int|
            0 <= k < remaining.len() ==> 0 <= #[trigger] omap[k] < pre.len() && remaining[k]
                == pre[omap[k]],
        forall|a: int, b: int|
            0 <= a < b < remaining.len() ==> #[trigger] omap[a] < #[trigger] omap[b],
        forall|k: int, t: int|
            0 <= k < remaining.len() && 0 <= t < touched.len() ==> #[trigger] touched[t] != (
            #[trigger] omap[k]),
        merged.rectangles@.len() >= 1,
        merged.rectangles@[0] == run,
        forall|i: int|
            1 <= i < merged.rectangles@.len() ==> from_sources(
                #[trigger] merged.rectangles@[i],
                pre,
                touched,
                0,
            ),
        forall|i: int|
            0 <= i < merged.rectangles@.len() ==> (#[trigger] merged.rectangles@[i]).ymin <= row,
    ensures
        no_vertical_split(remaining.push(merged)),
{
    reveal(no_vertical_split);
    reveal(from_sources);
    let s2 = remaining.push(merged);
    let ll = remaining.len() as int;
    assert(s2[ll] == merged);
    assert(forall|k: int| 0 <= k < ll ==> s2[k] == remaining[k]);
    assert forall|k1: int, k2: int, i1: int, i2: int|
        #![trigger s2[k1].rectangles@[i1], s2[k2].rectangles@[i2]]
        0 <= k1 < s2.len() && 0 <= k2 < s2.len() && 0 <= i1 < s2[k1].rectangles@.len() && 0 <= i2
            < s2[k2].rectangles@.len() && runs_touch(
            s2[k1].rectangles@[i1],
            s2[k2].rectangles@[i2],
        ) implies k1 == k2 by {
        if k1 < ll && k2 < ll {
            assert(s2[k1] == pre[omap[k1]] && s2[k2] == pre[omap[k2]]);
            assert(pre[omap[k1]].rectangles@[i1] == s2[k1].rectangles@[i1]);
            assert(pre[omap[k2]].rectangles@[i2] == s2[k2].rectangles@[i2]);
            assert(omap[k1] == omap[k2]);
            if k1 < k2 {
                assert(omap[k1] < omap[k2]);
            }
            if k2 < k1 {
                assert(omap[k2] < omap[k1]);
            }
        } else if k1 < ll && k2 == ll {
            assert(s2[k1] == pre[omap[k1]]);
            let r1 = pre[omap[k1]].rectangles@[i1];
            if i2 == 0 {
                assert(s2[k2].rectangles@[i2] == run);
                lemma_ymax_at_most(c, pre[omap[k1]], row);
                lemma_contact_touches(c, pre[omap[k1]], i1, run);
                let tw = choose|t: int|
                    0 <= t < touched.len() && #[trigger] touched[t] == omap[k1];
                assert(false);
            } else {
                assert(from_sources(merged.rectangles@[i2], pre, touched, 0));
                let (t2, i3): (int, int) = choose|t2: int, i3: int|
                    0 <= t2 < touched.len() && 0 <= i3 < pre[touched[t2] as int].rectangles@.len()
                        && merged.rectangles@[i2] == pre[touched[t2] as int].rectangles@[i3];
                assert(pre[touched[t2] as int].rectangles@[i3] == s2[k2].rectangles@[i2]);
                assert(omap[k1] == touched[t2] as int);
                assert(false);
            }
        } else if k1 == ll && k2 < ll {
            assert(s2[k2] == pre[omap[k2]]);
            let r2 = pre[omap[k2]].rectangles@[i2];
            assert(r2.ymin == s2[k1].rectangles@[i1].ymin + 1);
            if i1 == 0 {
                assert(s2[k1].rectangles@[i1] == run);
                assert(r2.ymin == row + 1);
                assert(pre[omap[k2]].rectangles@[i2].ymin <= row);
                assert(false);
            } else {
                assert(from_sources(merged.rectangles@[i1], pre, touched, 0));
                let (t2, i3): (int, int) = choose|t2: int, i3: int|
                    0 <= t2 < touched.len() && 0 <= i3 < pre[touched[t2] as int].rectangles@.len()
                        && merged.rectangles@[i1] == pre[touched[t2] as int].rectangles@[i3];
                assert(pre[touched[t2] as int].rectangles@[i3] == s2[k1].rectangles@[i1]);
                assert(omap[k2] == touched[t2] as int);
                assert(false);
            }
        }
    }
}

/// The facts the scanline pass needs about the run it is about to place:
/// the run lies in the view's foreground and is disjoint from everything
/// already collected.
proof fn lemma_objects_run_facts(
    c: Cutout,
    runs: Seq<Rectangle>,
    colls: Seq<RectangleCollection>,
    y: int,
    j: int,
)
    requires
        c.wf(),
        0 <= y < c.height,
        0 <= j < runs.len(),
        all_rects_wf(runs),
        forall|k: int| 0 <= k < runs.len() ==> run_in_view(c, #[trigger] runs[k]),
        forall|k1: int, k2: int|
            0 <= k1 < k2 < runs.len() ==> (#[trigger] runs[k1]).xmax < (#[trigger] runs[k2]).xmin,
        collection_pix(runs) == row_fg(c, y),
        colls_pix(colls) == fg_upto(c, y).union(collection_pix(runs.take(j))),
    ensures
        runs[j].wf(),
        runs[j].spec_size() <= usize::MAX,
        runs[j].pix().subset_of(c.view_fg()),
        runs[j].pix().disjoint(colls_pix(colls)),
        colls_pix(colls).subset_of(c.view_fg()),
{
    let run = runs[j];
    assert(run.spec_size() <= usize::MAX) by (nonlinear_arith)
        requires
            run.spec_size() == (run.xmax - run.xmin + 1) * (run.ymax - run.ymin + 1),
            run.ymin == run.ymax,
            run.xmin <= run.xmax,
            run.xmax - run.xmin + 1 <= usize::MAX,
    ;
    assert forall|p: Pixel| run.pix().contains(p) implies c.view_fg().contains(p) by {
        assert(collection_pix(runs).contains(p)) by {
            assert(runs[j].pix().contains(p));
        }
    }
    assert forall|p: Pixel| run.pix().contains(p) implies !colls_pix(colls).contains(p) by {
        assert(collection_pix(runs).contains(p)) by {
            assert(runs[j].pix().contains(p));
        }
        assert(p.y == run.ymin);
        if fg_upto(c, y).contains(p) {
            assert(false);
        }
        if collection_pix(runs.take(j)).contains(p) {
            let k = choose|k: int| 0 <= k < j && (#[trigger] runs.take(j)[k]).pix().contains(p);
            assert(runs[k].pix().contains(p));
            assert(runs[k].xmax < runs[j].xmin);
            assert(false);
        }
    }
    assert forall|p: Pixel| colls_pix(colls).contains(p) implies c.view_fg().contains(p) by {
        if collection_pix(runs.take(j)).contains(p) {
            let k = choose|k: int| 0 <= k < j && (#[trigger] runs.take(j)[k]).pix().contains(p);
            assert(runs[k].pix().contains(p));
            assert(collection_pix(runs).contains(p));
        }
    }
}

/// A fresh one-run collection is a valid scanline collection for this view.
proof fn lemma_singleton_collection(c: Cutout, rc: RectangleCollection, run: Rectangle)
    requires
        rc.wf(),
        rc.rectangles@ == seq![run],
        rc.pix() == run.pix(),
        run_maximal(c, run),
    ensures
        coll_ok(c, rc),
{
    assert(rc.rectangles@[0] == run);
    assert forall|i1: int, i2: int|
        0 <= i1 < rc.rectangles@.len() && 0 <= i2 < rc.rectangles@.len() && i1
            != i2 implies (#[trigger] rc.rectangles@[i1]).pix().disjoint(
        #[trigger] rc.rectangles@[i2].pix()) by {}
}

/// Keeping a collection valid when one more disjoint run of the view is
/// appended.
proof fn lemma_coll_extend_ok(
    c: Cutout,
    before: RectangleCollection,
    after: RectangleCollection,
    rect: Rectangle,
)
    requires
        coll_ok(c, before),
        after.wf(),
        after.rectangles@ == before.rectangles@.push(rect),
        after.pix() == before.pix().union(rect.pix()),
        run_maximal(c, rect),
        before.pix().disjoint(rect.pix()),
    ensures
        coll_ok(c, after),
{
    let s = after.rectangles@;
    assert(s[s.len() - 1] == rect);
    assert(forall|i: int| 0 <= i < s.len() - 1 ==> s[i] == before.rectangles@[i]);
    assert forall|i1: int, i2: int|
        0 <= i1 < s.len() && 0 <= i2 < s.len() && i1 != i2 implies (
    #[trigger] s[i1]).pix().disjoint(#[trigger] s[i2].pix()) by {
        if i1 < s.len() - 1 && i2 < s.len() - 1 {
        } else {
            let iother = if i1 < i2 {
                i1
            } else {
                i2
            };
            assert forall|p: Pixel|
                s[iother].pix().contains(p) implies before.pix().contains(p) by {
                assert(before.rectangles@[iother].pix().contains(p));
            }
        }
    }
}

/// One collection's pixels lie inside the whole list's.
pub proof fn lemma_member_subset_colls(s: Seq<RectangleCollection>, i: int)
    requires
        0 <= i < s.len(),
    ensures
        s[i].pix().subset_of(colls_pix(s)),
{
    assert forall|p: Pixel| s[i].pix().contains(p) implies colls_pix(s).contains(p) by {
        assert((#[trigger] s[i]).pix().contains(p));
    }
}

/// Removing one element keeps the others' validity and disjointness.
proof fn lemma_colls_remove_props(c: Cutout, s: Seq<RectangleCollection>, i: int)
    requires
        0 <= i < s.len(),
        colls_disjoint(s),
        forall|k: int| 0 <= k < s.len() ==> coll_ok(c, #[trigger] s[k]),
    ensures
        colls_disjoint(s.remove(i)),
        forall|k: int| 0 <= k < s.remove(i).len() ==> coll_ok(c, #[trigger] s.remove(i)[k]),
        colls_pix(s.remove(i)).subset_of(colls_pix(s)),
        s[i].pix().disjoint(colls_pix(s.remove(i))),
{
    let rest = s.remove(i);
    assert forall|k: int| 0 <= k < rest.len() implies coll_ok(c, #[trigger] rest[k]) by {
        if k < i {
            assert(rest[k] == s[k]);
        } else {
            assert(rest[k] == s[k + 1]);
        }
    }
    assert forall|k1: int, k2: int|
        0 <= k1 < rest.len() && 0 <= k2 < rest.len() && k1 != k2 implies (
    #[trigger] rest[k1]).pix().disjoint(#[trigger] rest[k2].pix()) by {
        let o1 = if k1 < i {
            k1
        } else {
            k1 + 1
        };
        let o2 = if k2 < i {
            k2
        } else {
            k2 + 1
        };
        assert(rest[k1] == s[o1] && rest[k2] == s[o2]);
        assert(s[o1].pix().disjoint(s[o2].pix()));
    }
    assert forall|p: Pixel| colls_pix(rest).contains(p) implies colls_pix(s).contains(p) by {
        let k = choose|k: int| 0 <= k < rest.len() && (#[trigger] rest[k]).pix().contains(p);
        if k < i {
            assert(s[k].pix().contains(p));
        } else {
            assert(s[k + 1].pix().contains(p));
        }
    }
    assert forall|p: Pixel| s[i].pix().contains(p) implies !colls_pix(rest).contains(p) by {
        if colls_pix(rest).contains(p) {
            let k = choose|k: int| 0 <= k < rest.len() && (#[trigger] rest[k]).pix().contains(p);
            let o = if k < i {
                k
            } else {
                k + 1
            };
            assert(rest[k] == s[o]);
            assert(s[i].pix().disjoint(s[o].pix()));
        }
    }
}

/// Columns of a horizontal sub-view are columns of the surrounding view,
/// shifted.
pub proof fn lemma_col_transfer(v: Cutout, t: Cutout)
    requires
        v.image == t.image,
        v.offy == t.offy,
        v.height == t.height,
        v.offx <= t.offx,
        t.offx + t.width <= v.offx + v.width,
    ensures
        forall|i: int|
            0 <= i < t.width ==> #[trigger] t.col_blank(i) == v.col_blank(i + t.offx - v.offx),
{
    assert forall|i: int|
        0 <= i < t.width implies #[trigger] t.col_blank(i) == v.col_blank(i + t.offx
        - v.offx) by {
        if t.col_blank(i) {
            assert forall|y: int|
                0 <= y < v.height implies !(#[trigger] v.view_get(i + t.offx - v.offx, y)) by {
                assert(!t.view_get(i, y));
            }
        }
        if v.col_blank(i + t.offx - v.offx) {
            assert forall|y: int| 0 <= y < t.height implies !(#[trigger] t.view_get(i, y)) by {
                assert(!v.view_get(i + t.offx - v.offx, y));
            }
        }
    }
}

} // verus!
