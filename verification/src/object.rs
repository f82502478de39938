//! Pixel groups: single pixels, explicit pixel sets, row-runs and run
//! collections, together with the flood-fill growth algorithm.

use vstd::prelude::*;
use crate::image::Image;

verus! {

broadcast use vstd::seq_lib::lemma_seq_contains_after_push;

/// An integer coordinate pair.  Whether it is view-relative or
/// canvas-absolute depends on the producing call, never on the value.
#[derive(Debug, Clone, Copy, PartialEq, Eq, Structural, Hash)]
pub struct Pixel {
    pub x: usize,
    pub y: usize,
}

impl Pixel {
    pub fn new(x: usize, y: usize) -> (r: Pixel)
        ensures
            r.x == x,
            r.y == y,
    {
        Pixel { x, y }
    }

    pub fn x(&self) -> (r: usize)
        ensures
            r == self.x,
    {
        self.x
    }

    pub fn y(&self) -> (r: usize)
        ensures
            r == self.y,
    {
        self.y
    }

    pub fn addx(&self, x: usize) -> (r: Pixel)
        requires
            self.x + x <= usize::MAX,
        ensures
            r.x == self.x + x,
            r.y == self.y,
    {
        Pixel { x: self.x + x, y: self.y }
    }

    pub fn subx(&self, x: usize) -> (r: Pixel)
        requires
            x <= self.x,
        ensures
            r.x == self.x - x,
            r.y == self.y,
    {
        Pixel { x: self.x - x, y: self.y }
    }

    pub fn addy(&self, y: usize) -> (r: Pixel)
        requires
            self.y + y <= usize::MAX,
        ensures
            r.x == self.x,
            r.y == self.y + y,
    {
        Pixel { x: self.x, y: self.y + y }
    }

    pub fn suby(&self, y: usize) -> (r: Pixel)
        requires
            y <= self.y,
        ensures
            r.x == self.x,
            r.y == self.y - y,
    {
        Pixel { x: self.x, y: self.y - y }
    }
}

/// True when `v` holds `p`.
pub fn pixels_contain(v: &Vec<Pixel>, p: Pixel) -> (r: bool)
    ensures
        r == v@.contains(p),
{
    let mut i: usize = 0;
    while i < v.len()
        invariant
            i <= v.len(),
            forall|k: int| 0 <= k < i ==> v@[k] != p,
        decreases v.len() - i,
    {
        if v[i] == p {
            return true;
        }
        i = i + 1;
    }
    false
}

/// An axis-aligned rectangle of foreground pixels, inclusive on all four
/// edges.  Row-runs are the height-one case.
#[derive(Debug, Clone, Copy, PartialEq, Eq, Structural, Hash)]
pub struct Rectangle {
    pub xmin: usize,
    pub xmax: usize,
    pub ymin: usize,
    pub ymax: usize,
}

impl Rectangle {
    /// The rectangle invariant: both extents non-empty.
    pub open spec fn wf(self) -> bool {
        self.xmin <= self.xmax && self.ymin <= self.ymax
    }

    /// The pixels the rectangle covers.
    pub open spec fn pix(self) -> Set<Pixel> {
        Set::new(
            |p: Pixel| self.xmin <= p.x <= self.xmax && self.ymin <= p.y <= self.ymax,
        )
    }

    /// The number of pixels covered, as a mathematical integer.
    pub open spec fn spec_size(self) -> int {
        (self.xmax - self.xmin + 1) * (self.ymax - self.ymin + 1)
    }

    pub fn new(xmin: usize, xmax: usize, ymin: usize, ymax: usize) -> (r: Rectangle)
        ensures
            r == (Rectangle { xmin, xmax, ymin, ymax }),
    {
        Rectangle { xmin, xmax, ymin, ymax }
    }
}

/// An explicit set of pixels with a cached bounding box and size: the result
/// of flood-fill growth and the universal conversion target of every other
/// object shape.
///
/// While the set is empty the bounding box carries the sentinel values
/// `xmin == ymin == usize::MAX`, `xmax == ymax == 0`.
#[derive(Debug, Clone)]
pub struct SimpleObject {
    pub pixels: Vec<Pixel>,
    pub xmin: usize,
    pub xmax: usize,
    pub ymin: usize,
    pub ymax: usize,
    pub size: usize,
}

impl SimpleObject {
    /// The pixels of the object.
    pub open spec fn pix(self) -> Set<Pixel> {
        self.pixels@.to_set()
    }

    /// The object invariant: no pixel stored twice, `size` the exact pixel
    /// count, and the bounding box tight around the pixels (sentinel values
    /// while empty).
    pub open spec fn wf(self) -> bool {
        &&& self.pixels@.no_duplicates()
        &&& self.size == self.pixels@.len()
        &&& if self.pixels@.len() == 0 {
            self.xmin == usize::MAX && self.xmax == 0 && self.ymin == usize::MAX && self.ymax == 0
        } else {
            &&& forall|p: Pixel|
                #[trigger] self.pix().contains(p) ==> self.xmin <= p.x <= self.xmax && self.ymin
                    <= p.y <= self.ymax
            &&& exists|p: Pixel| #[trigger] self.pix().contains(p) && p.x == self.xmin
            &&& exists|p: Pixel| #[trigger] self.pix().contains(p) && p.x == self.xmax
            &&& exists|p: Pixel| #[trigger] self.pix().contains(p) && p.y == self.ymin
            &&& exists|p: Pixel| #[trigger] self.pix().contains(p) && p.y == self.ymax
        }
    }

    pub fn new() -> (r: SimpleObject)
        ensures
            r.wf(),
            r.pix() == Set::<Pixel>::empty(),
            r.size == 0,
    {
        let r = SimpleObject {
            pixels: Vec::new(),
            xmin: usize::MAX,
            xmax: 0,
            ymin: usize::MAX,
            ymax: 0,
            size: 0,
        };
        proof {
            assert(r.pix() =~= Set::<Pixel>::empty());
        }
        r
    }

    /// Inserts a pixel; returns whether it was new.  A pixel that is already
    /// present leaves the object unchanged.
    pub fn add_pixel(&mut self, pixel: Pixel) -> (r: bool)
        requires
            old(self).wf(),
            old(self).size < usize::MAX || old(self).pix().contains(pixel),
        ensures
            final(self).wf(),
            r == !old(self).pix().contains(pixel),
            final(self).pix() == old(self).pix().insert(pixel),
            final(self).size == if r {
                old(self).size + 1
            } else {
                old(self).size as int
            },
    {
        if pixels_contain(&self.pixels, pixel) {
            proof {
                assert(self.pix().insert(pixel) =~= self.pix());
            }
            return false;
        }
        let ghost old_self = *self;
        if pixel.x > self.xmax || self.size == 0 {
            self.xmax = pixel.x;
        }
        if pixel.x < self.xmin {
            self.xmin = pixel.x;
        }
        if pixel.y > self.ymax || self.size == 0 {
            self.ymax = pixel.y;
        }
        if pixel.y < self.ymin {
            self.ymin = pixel.y;
        }
        self.size = self.size + 1;
        self.pixels.push(pixel);
        proof {
            assert(self.pixels@.drop_last() == old_self.pixels@);
            assert(self.pix() =~= old_self.pix().insert(pixel)) by {
                assert forall|q: Pixel| #[trigger] self.pixels@.contains(q) implies old_self.pixels@.contains(q)
                    || q == pixel by {
                    let i = choose|i: int| 0 <= i < self.pixels@.len() && self.pixels@[i] == q;
                    if i < old_self.pixels@.len() {
                        assert(old_self.pixels@[i] == q);
                    }
                }
                assert forall|q: Pixel| old_self.pixels@.contains(q) implies self.pixels@.contains(
                    q,
                ) by {
                    let i = choose|i: int| 0 <= i < old_self.pixels@.len() && old_self.pixels@[i]
                        == q;
                    assert(self.pixels@[i] == q);
                }
                assert(self.pixels@.contains(pixel)) by {
                    assert(self.pixels@[self.pixels@.len() - 1] == pixel);
                }
            }
            assert(self.pix().contains(pixel));
            assert forall|q: Pixel| #[trigger] self.pix().contains(q) implies self.xmin <= q.x
                <= self.xmax && self.ymin <= q.y <= self.ymax by {
                if q != pixel {
                    assert(old_self.pix().contains(q));
                    assert(old_self.pixels@.len() > 0);
                }
            }
            assert(self.pixels@.no_duplicates()) by {
                assert(forall|i: int|
                    0 <= i < old_self.pixels@.len() ==> self.pixels@[i] == old_self.pixels@[i]);
                assert(forall|i: int|
                    0 <= i < old_self.pixels@.len() ==> old_self.pixels@[i]
                        != pixel) by {
                    assert(!old_self.pixels@.contains(pixel));
                }
            }
            assert(exists|p: Pixel| #[trigger] self.pix().contains(p) && p.x == self.xmin) by {
                if old_self.pixels@.len() == 0 || pixel.x < old_self.xmin {
                    assert(self.pix().contains(pixel) && pixel.x == self.xmin);
                } else {
                    let w = choose|p: Pixel| #[trigger] old_self.pix().contains(p) && p.x
                        == old_self.xmin;
                    assert(self.pix().contains(w) && w.x == self.xmin);
                }
            }
            assert(exists|p: Pixel| #[trigger] self.pix().contains(p) && p.x == self.xmax) by {
                if old_self.pixels@.len() == 0 || pixel.x > old_self.xmax {
                    assert(self.pix().contains(pixel) && pixel.x == self.xmax);
                } else {
                    let w = choose|p: Pixel| #[trigger] old_self.pix().contains(p) && p.x
                        == old_self.xmax;
                    assert(self.pix().contains(w) && w.x == self.xmax);
                }
            }
            assert(exists|p: Pixel| #[trigger] self.pix().contains(p) && p.y == self.ymin) by {
                if old_self.pixels@.len() == 0 || pixel.y < old_self.ymin {
                    assert(self.pix().contains(pixel) && pixel.y == self.ymin);
                } else {
                    let w = choose|p: Pixel| #[trigger] old_self.pix().contains(p) && p.y
                        == old_self.ymin;
                    assert(self.pix().contains(w) && w.y == self.ymin);
                }
            }
            assert(exists|p: Pixel| #[trigger] self.pix().contains(p) && p.y == self.ymax) by {
                if old_self.pixels@.len() == 0 || pixel.y > old_self.ymax {
                    assert(self.pix().contains(pixel) && pixel.y == self.ymax);
                } else {
                    let w = choose|p: Pixel| #[trigger] old_self.pix().contains(p) && p.y
                        == old_self.ymax;
                    assert(self.pix().contains(w) && w.y == self.ymax);
                }
            }
        }
        true
    }

    pub fn xmin(&self) -> (r: usize)
        ensures
            r == self.xmin,
    {
        self.xmin
    }

    pub fn xmax(&self) -> (r: usize)
        ensures
            r == self.xmax,
    {
        self.xmax
    }

    pub fn ymin(&self) -> (r: usize)
        ensures
            r == self.ymin,
    {
        self.ymin
    }

    pub fn ymax(&self) -> (r: usize)
        ensures
            r == self.ymax,
    {
        self.ymax
    }

    pub fn size(&self) -> (r: usize)
        ensures
            r == self.size,
    {
        self.size
    }

    pub fn has_pixel(&self, pixel: &Pixel) -> (r: bool)
        ensures
            r == self.pix().contains(*pixel),
    {
        pixels_contain(&self.pixels, *pixel)
    }
}

/// Two pixels share an edge (4-connectivity).
pub open spec fn adj4(p: Pixel, q: Pixel) -> bool {
    ||| p.x == q.x && (p.y + 1 == q.y || q.y + 1 == p.y)
    ||| p.y == q.y && (p.x + 1 == q.x || q.x + 1 == p.x)
}

/// A walk over foreground cells of `img`, each step between 4-neighbours.
pub open spec fn is_fg_path(img: Image, path: Seq<Pixel>) -> bool {
    &&& forall|i: int|
        0 <= i < path.len() ==> img.spec_get(#[trigger] path[i].x as int, path[i].y as int)
    &&& forall|i: int| 0 <= i < path.len() - 1 ==> adj4(#[trigger] path[i], path[i + 1])
}

/// The pixel `p` lies on the 4-connected foreground region grown from
/// `seeds`: some foreground walk starts at a seed and ends at `p`.
pub open spec fn reachable(img: Image, seeds: Set<Pixel>, p: Pixel) -> bool {
    exists|path: Seq<Pixel>|
        #![trigger is_fg_path(img, path)]
        {
            &&& is_fg_path(img, path)
            &&& path.len() > 0
            &&& seeds.contains(path[0])
            &&& path[path.len() - 1] == p
        }
}

/// All pixels 4-reachable over foreground cells from `seeds`.
pub open spec fn reach_set(img: Image, seeds: Set<Pixel>) -> Set<Pixel> {
    Set::new(|p: Pixel| reachable(img, seeds, p))
}

/// A shape made of pixels: it has a bounding box, a pixel count, and can be
/// enumerated, converted to a [`SimpleObject`], rendered into a minimal
/// [`Image`], or grown into the surrounding 4-connected foreground region.
pub trait Object: Sized {
    /// The pixels of the shape.
    spec fn pix(&self) -> Set<Pixel>;

    /// The shape's validity: cached bounds and counts agree with `pix()`.
    spec fn obj_wf(&self) -> bool;

    /// The least x coordinate (a sentinel while the shape is empty).
    spec fn sxmin(&self) -> usize;

    spec fn sxmax(&self) -> usize;

    spec fn symin(&self) -> usize;

    spec fn symax(&self) -> usize;

    /// A valid shape's pixel set is finite and its bounding box is tight.
    proof fn lemma_bounds(&self)
        requires
            self.obj_wf(),
        ensures
            self.pix().finite(),
            forall|p: Pixel|
                #[trigger] self.pix().contains(p) ==> self.sxmin() <= p.x <= self.sxmax()
                    && self.symin() <= p.y <= self.symax(),
            self.pix().len() > 0 ==> exists|p: Pixel|
                #[trigger] self.pix().contains(p) && p.x == self.sxmin(),
            self.pix().len() > 0 ==> exists|p: Pixel|
                #[trigger] self.pix().contains(p) && p.x == self.sxmax(),
            self.pix().len() > 0 ==> exists|p: Pixel|
                #[trigger] self.pix().contains(p) && p.y == self.symin(),
            self.pix().len() > 0 ==> exists|p: Pixel|
                #[trigger] self.pix().contains(p) && p.y == self.symax(),
    ;

    fn xmin(&self) -> (r: usize)
        requires
            self.obj_wf(),
        ensures
            r == self.sxmin(),
    ;

    fn xmax(&self) -> (r: usize)
        requires
            self.obj_wf(),
        ensures
            r == self.sxmax(),
    ;

    fn ymin(&self) -> (r: usize)
        requires
            self.obj_wf(),
        ensures
            r == self.symin(),
    ;

    fn ymax(&self) -> (r: usize)
        requires
            self.obj_wf(),
        ensures
            r == self.symax(),
    ;

    /// The number of pixels of the shape.
    fn size(&self) -> (r: usize)
        requires
            self.obj_wf(),
        ensures
            r == self.pix().len(),
    ;

    /// The bounding-box width.
    fn width(&self) -> (r: usize)
        requires
            self.obj_wf(),
            self.sxmin() <= self.sxmax(),
            self.sxmax() - self.sxmin() < usize::MAX,
        ensures
            r == self.sxmax() - self.sxmin() + 1,
    {
        self.xmax() - self.xmin() + 1
    }

    /// The bounding-box height.
    fn height(&self) -> (r: usize)
        requires
            self.obj_wf(),
            self.symin() <= self.symax(),
            self.symax() - self.symin() < usize::MAX,
        ensures
            r == self.symax() - self.symin() + 1,
    {
        self.ymax() - self.ymin() + 1
    }

    /// True iff the bounding box meets an edge of the frame that starts at
    /// `(offx, offy)` and is `width` by `height` cells.
    fn touches_border(&self, width: usize, height: usize, offx: usize, offy: usize) -> (r: bool)
        requires
            self.obj_wf(),
            1 <= width,
            1 <= height,
            offx + width <= usize::MAX,
            offy + height <= usize::MAX,
        ensures
            r == (self.sxmin() == offx || self.symin() == offy || self.sxmax() == offx + width - 1
                || self.symax() == offy + height - 1),
    {
        self.xmin() == offx || self.ymin() == offy || self.xmax() == offx + width - 1 || self.ymax()
            == offy + height - 1
    }

    /// The pixels of the shape, each exactly once.
    fn pixels_vec(&self) -> (v: Vec<Pixel>)
        requires
            self.obj_wf(),
        ensures
            v@.no_duplicates(),
            v@.to_set() == self.pix(),
    ;

    /// Reduces the shape to an explicit pixel set.
    fn to_simple_object(self) -> (r: SimpleObject)
        requires
            self.obj_wf(),
        ensures
            r.wf(),
            r.pix() == self.pix(),
    {
        let v = self.pixels_vec();
        simple_from_pixels(&v)
    }

    /// Renders the shape into a fresh minimally-sized grid addressed at
    /// local coordinates (the bounding box's corner becomes `(0, 0)`).
    fn to_image(self) -> (r: Image)
        requires
            self.obj_wf(),
            self.pix().len() > 0,
            self.sxmax() < usize::MAX,
            self.symax() < usize::MAX,
            (self.sxmax() - self.sxmin() + 1) * (self.symax() - self.symin() + 1) <= usize::MAX,
        ensures
            r.wf(),
            r.width == self.sxmax() - self.sxmin() + 1,
            r.height == self.symax() - self.symin() + 1,
            forall|x: int, y: int|
                #[trigger] r.spec_get(x, y) == (0 <= x < r.width && 0 <= y < r.height
                    && self.pix().contains(
                    Pixel { x: (x + self.sxmin()) as usize, y: (y + self.symin()) as usize },
                )),
    {
        proof {
            self.lemma_bounds();
            assert(self.pix().len() > 0);
            assert(self.sxmin() <= self.sxmax() && self.symin() <= self.symax()) by {
                let p = choose|p: Pixel| #[trigger] self.pix().contains(p) && p.x == self.sxmin();
                let q = choose|q: Pixel| #[trigger] self.pix().contains(q) && q.y == self.symin();
            }
        }
        let v = self.pixels_vec();
        let width = self.xmax() - self.xmin() + 1;
        let height = self.ymax() - self.ymin() + 1;
        proof {
            assert forall|k: int| 0 <= k < v@.len() implies self.sxmin() <= #[trigger] v@[k].x
                < self.sxmin() + width && self.symin() <= v@[k].y < self.symin() + height by {
                assert(v@.to_set().contains(v@[k]));
            }
        }
        render_pixels(&v, self.xmin(), self.ymin(), width, height)
    }

    /// Grows the 4-connected foreground region of `image` around this
    /// shape's pixels by flood fill.  With a size bound, growth past the
    /// bound is reported as `None` instead of a partial object.
    fn connected_grow(&self, image: &Image, max_size: Option<usize>) -> (r: Option<SimpleObject>)
        requires
            self.obj_wf(),
            image.wf(),
        ensures
            max_size is None ==> r is Some,
            r matches Some(obj) ==> obj.wf() && obj.pix() == reach_set(*image, self.pix()) && (
            max_size matches Some(m) ==> obj.pix().len() <= m),
            r is None ==> (max_size matches Some(m) && reach_set(*image, self.pix()).len() > m),
    {
        let v = self.pixels_vec();
        grow_from(&v, image, max_size)
    }
}

impl Object for Pixel {
    open spec fn pix(&self) -> Set<Pixel> {
        Set::<Pixel>::empty().insert(*self)
    }

    open spec fn obj_wf(&self) -> bool {
        true
    }

    open spec fn sxmin(&self) -> usize {
        self.x
    }

    open spec fn sxmax(&self) -> usize {
        self.x
    }

    open spec fn symin(&self) -> usize {
        self.y
    }

    open spec fn symax(&self) -> usize {
        self.y
    }

    proof fn lemma_bounds(&self) {
        assert(self.pix().contains(*self));
    }

    fn xmin(&self) -> (r: usize) {
        self.x
    }

    fn xmax(&self) -> (r: usize) {
        self.x
    }

    fn ymin(&self) -> (r: usize) {
        self.y
    }

    fn ymax(&self) -> (r: usize) {
        self.y
    }

    fn size(&self) -> (r: usize) {
        proof {
            assert(self.pix() =~= Set::<Pixel>::empty().insert(*self));
        }
        1
    }

    fn pixels_vec(&self) -> (v: Vec<Pixel>) {
        let mut v: Vec<Pixel> = Vec::new();
        v.push(*self);
        proof {
            assert(v@.to_set() =~= self.pix()) by {
                assert(v@[0] == *self);
                assert forall|q: Pixel| v@.contains(q) implies q == *self by {
                    let i = choose|i: int| 0 <= i < v@.len() && v@[i] == q;
                }
            }
        }
        v
    }
}

impl Object for Rectangle {
    open spec fn pix(&self) -> Set<Pixel> {
        Rectangle::pix(*self)
    }

    open spec fn obj_wf(&self) -> bool {
        self.wf() && self.spec_size() <= usize::MAX
    }

    open spec fn sxmin(&self) -> usize {
        self.xmin
    }

    open spec fn sxmax(&self) -> usize {
        self.xmax
    }

    open spec fn symin(&self) -> usize {
        self.ymin
    }

    open spec fn symax(&self) -> usize {
        self.ymax
    }

    proof fn lemma_bounds(&self) {
        lemma_rect_card(*self);
        assert(Object::pix(self).contains(Pixel { x: self.xmin, y: self.ymin }));
        assert(Object::pix(self).contains(Pixel { x: self.xmax, y: self.ymax }));
    }

    fn xmin(&self) -> (r: usize) {
        self.xmin
    }

    fn xmax(&self) -> (r: usize) {
        self.xmax
    }

    fn ymin(&self) -> (r: usize) {
        self.ymin
    }

    fn ymax(&self) -> (r: usize) {
        self.ymax
    }

    fn size(&self) -> (r: usize) {
        proof {
            lemma_rect_card(*self);
            assert(self.xmax - self.xmin + 1 <= usize::MAX && self.ymax - self.ymin + 1
                <= usize::MAX) by (nonlinear_arith)
                requires
                    self.xmin <= self.xmax,
                    self.ymin <= self.ymax,
                    (self.xmax - self.xmin + 1) * (self.ymax - self.ymin + 1) <= usize::MAX,
            ;
        }
        (self.xmax - self.xmin + 1) * (self.ymax - self.ymin + 1)
    }

    fn pixels_vec(&self) -> (v: Vec<Pixel>) {
        rectangle_pixels(self)
    }
}

impl Object for SimpleObject {
    open spec fn pix(&self) -> Set<Pixel> {
        SimpleObject::pix(*self)
    }

    open spec fn obj_wf(&self) -> bool {
        self.wf()
    }

    open spec fn sxmin(&self) -> usize {
        self.xmin
    }

    open spec fn sxmax(&self) -> usize {
        self.xmax
    }

    open spec fn symin(&self) -> usize {
        self.ymin
    }

    open spec fn symax(&self) -> usize {
        self.ymax
    }

    proof fn lemma_bounds(&self) {
        vstd::seq_lib::seq_to_set_is_finite(self.pixels@);
        self.pixels@.unique_seq_to_set();
    }

    fn xmin(&self) -> (r: usize) {
        self.xmin
    }

    fn xmax(&self) -> (r: usize) {
        self.xmax
    }

    fn ymin(&self) -> (r: usize) {
        self.ymin
    }

    fn ymax(&self) -> (r: usize) {
        self.ymax
    }

    fn size(&self) -> (r: usize) {
        proof {
            self.pixels@.unique_seq_to_set();
        }
        self.size
    }

    fn pixels_vec(&self) -> (v: Vec<Pixel>) {
        copy_pixels(&self.pixels)
    }
}

/// The number of pixels a rectangle covers is the product of its extents.
pub proof fn lemma_rect_card(rect: Rectangle)
    requires
        rect.wf(),
        rect.spec_size() <= usize::MAX,
    ensures
        rect.pix().finite(),
        rect.pix().len() == rect.spec_size(),
{
    let w: int = rect.xmax - rect.xmin + 1;
    let h: int = rect.ymax - rect.ymin + 1;
    assert(w <= usize::MAX && h <= usize::MAX) by (nonlinear_arith)
        requires
            1 <= w,
            1 <= h,
            w * h <= usize::MAX,
    ;
    let f = |p: Pixel| Pixel { x: (p.x + rect.xmin) as usize, y: (p.y + rect.ymin) as usize };
    lemma_grid_card(w, h);
    let mapped = grid_pixels(w, h).map(f);
    assert(mapped =~= rect.pix()) by {
        assert forall|q: Pixel| rect.pix().contains(q) implies mapped.contains(q) by {
            let pre = Pixel { x: (q.x - rect.xmin) as usize, y: (q.y - rect.ymin) as usize };
            assert(grid_pixels(w, h).contains(pre));
            assert(f(pre) == q);
        }
    }
    assert forall|p1: Pixel, p2: Pixel|
        grid_pixels(w, h).contains(p1) && grid_pixels(w, h).contains(p2) && p1 != p2 implies f(
        p1,
    ) != f(p2) by {
        assert(p1.x + rect.xmin <= rect.xmax && p2.x + rect.xmin <= rect.xmax);
        assert(p1.y + rect.ymin <= rect.ymax && p2.y + rect.ymin <= rect.ymax);
    }
    lemma_map_injective_len(grid_pixels(w, h), f);
}

/// An injective map keeps a finite set's cardinality.
proof fn lemma_map_injective_len<A, B>(s: Set<A>, f: spec_fn(A) -> B)
    requires
        s.finite(),
        forall|a1: A, a2: A| s.contains(a1) && s.contains(a2) && a1 != a2 ==> f(a1) != f(a2),
    ensures
        s.map(f).finite(),
        s.map(f).len() == s.len(),
    decreases s.len(),
{
    if s.len() == 0 {
        assert(s =~= Set::<A>::empty());
        assert(s.map(f) =~= Set::<B>::empty());
    } else {
        let a = s.choose();
        assert(s.contains(a));
        let rest = s.remove(a);
        lemma_map_injective_len(rest, f);
        assert(s.map(f) =~= rest.map(f).insert(f(a))) by {
            assert forall|b: B| s.map(f).contains(b) implies rest.map(f).insert(f(a)).contains(
                b,
            ) by {
                let a0 = choose|a0: A| s.contains(a0) && f(a0) == b;
                if a0 != a {
                    assert(rest.contains(a0));
                }
            }
            assert forall|b: B| rest.map(f).insert(f(a)).contains(b) implies s.map(f).contains(
                b,
            ) by {
                if b == f(a) {
                    assert(s.contains(a));
                } else {
                    let a0 = choose|a0: A| rest.contains(a0) && f(a0) == b;
                    assert(s.contains(a0));
                }
            }
        }
        assert(!rest.map(f).contains(f(a))) by {
            if rest.map(f).contains(f(a)) {
                let a0 = choose|a0: A| rest.contains(a0) && f(a0) == f(a);
                assert(s.contains(a0) && a0 != a);
            }
        }
    }
}

/// Enumerates a rectangle's pixels in row-major order.
fn rectangle_pixels(rect: &Rectangle) -> (v: Vec<Pixel>)
    requires
        rect.wf(),
        rect.spec_size() <= usize::MAX,
    ensures
        v@.no_duplicates(),
        v@.to_set() == rect.pix(),
        v@.len() == rect.spec_size(),
        forall|k: int|
            0 <= k < v@.len() ==> #[trigger] v@[k] == (Pixel {
                x: (rect.xmin + (k % (rect.xmax - rect.xmin + 1))) as usize,
                y: (rect.ymin + (k / (rect.xmax - rect.xmin + 1))) as usize,
            }),
{
    proof {
        assert(rect.xmax - rect.xmin + 1 <= usize::MAX && rect.ymax - rect.ymin + 1 <= usize::MAX)
            by (nonlinear_arith)
            requires
                rect.xmin <= rect.xmax,
                rect.ymin <= rect.ymax,
                (rect.xmax - rect.xmin + 1) * (rect.ymax - rect.ymin + 1) <= usize::MAX,
        ;
    }
    let w: usize = rect.xmax - rect.xmin + 1;
    let h: usize = rect.ymax - rect.ymin + 1;
    let mut v: Vec<Pixel> = Vec::new();
    let mut dy: usize = 0;
    while dy < h
        invariant
            rect.wf(),
            w == rect.xmax - rect.xmin + 1,
            h == rect.ymax - rect.ymin + 1,
            dy <= h,
            v@.no_duplicates(),
            v@.len() == dy * w,
            forall|k: int|
                0 <= k < v@.len() ==> #[trigger] v@[k] == (Pixel {
                    x: (rect.xmin + (k % (w as int))) as usize,
                    y: (rect.ymin + (k / (w as int))) as usize,
                }),
            forall|q: Pixel|
                v@.contains(q) <==> (rect.xmin <= q.x <= rect.xmax && rect.ymin <= q.y < rect.ymin
                    + dy),
        decreases h - dy,
    {
        let y: usize = rect.ymin + dy;
        let mut dx: usize = 0;
        while dx < w
            invariant
                rect.wf(),
                w == rect.xmax - rect.xmin + 1,
                h == rect.ymax - rect.ymin + 1,
                dy < h,
                y == rect.ymin + dy,
                dx <= w,
                v@.no_duplicates(),
                v@.len() == dy * w + dx,
                forall|k: int|
                    0 <= k < v@.len() ==> #[trigger] v@[k] == (Pixel {
                        x: (rect.xmin + (k % (w as int))) as usize,
                        y: (rect.ymin + (k / (w as int))) as usize,
                    }),
                forall|q: Pixel|
                    v@.contains(q) <==> ((rect.xmin <= q.x <= rect.xmax && rect.ymin <= q.y < y)
                        || (q.y == y && rect.xmin <= q.x < rect.xmin + dx)),
            decreases w - dx,
        {
            let p = Pixel { x: rect.xmin + dx, y };
            let ghost prev = v@;
            proof {
                assert(!v@.contains(p));
            }
            v.push(p);
            proof {
                assert(v@[v@.len() - 1] == p);
                vstd::arithmetic::div_mod::lemma_fundamental_div_mod_converse(
                    dy * w + dx,
                    w as int,
                    dy as int,
                    dx as int,
                );
            }
            dx = dx + 1;
        }
        proof {
            assert((dy + 1) * w == dy * w + w) by (nonlinear_arith);
        }
        dy = dy + 1;
    }
    proof {
        assert(v@.to_set() =~= rect.pix());
        assert(h * w == rect.spec_size()) by (nonlinear_arith)
            requires
                w == rect.xmax - rect.xmin + 1,
                h == rect.ymax - rect.ymin + 1,
                rect.spec_size() == (rect.xmax - rect.xmin + 1) * (rect.ymax - rect.ymin + 1),
        ;
    }
    v
}

/// Collects pixels into a [`SimpleObject`], dropping duplicates.
pub fn simple_from_pixels(v: &Vec<Pixel>) -> (r: SimpleObject)
    ensures
        r.wf(),
        r.pix() == v@.to_set(),
{
    let mut obj = SimpleObject::new();
    let mut i: usize = 0;
    while i < v.len()
        invariant
            i <= v.len(),
            obj.wf(),
            obj.pix() == v@.take(i as int).to_set(),
            obj.size <= i,
        decreases v.len() - i,
    {
        proof {
            assert(v@.take(i as int).push(v@[i as int]) =~= v@.take(i + 1));
            v@.take(i as int).lemma_push_to_set_commute(v@[i as int]);
        }
        obj.add_pixel(v[i]);
        i = i + 1;
    }
    proof {
        assert(v@.take(v@.len() as int) == v@);
    }
    obj
}

/// Renders a list of pixels into a fresh `width` by `height` grid, shifting
/// them by `(-xmin, -ymin)`.
fn render_pixels(v: &Vec<Pixel>, xmin: usize, ymin: usize, width: usize, height: usize) -> (r:
    Image)
    requires
        width * height <= usize::MAX,
        xmin + width <= usize::MAX,
        ymin + height <= usize::MAX,
        forall|k: int|
            0 <= k < v@.len() ==> xmin <= #[trigger] v@[k].x < xmin + width && ymin <= v@[k].y
                < ymin + height,
    ensures
        r.wf(),
        r.width == width,
        r.height == height,
        forall|x: int, y: int|
            #[trigger] r.spec_get(x, y) == (0 <= x < width && 0 <= y < height && v@.contains(
                Pixel { x: (x + xmin) as usize, y: (y + ymin) as usize },
            )),
{
    let mut img = Image::new_empty(width, height);
    let mut i: usize = 0;
    while i < v.len()
        invariant
            i <= v.len(),
            img.wf(),
            img.width == width,
            img.height == height,
            width * height <= usize::MAX,
            xmin + width <= usize::MAX,
            ymin + height <= usize::MAX,
            forall|k: int|
                0 <= k < v@.len() ==> xmin <= #[trigger] v@[k].x < xmin + width && ymin <= v@[k].y
                    < ymin + height,
            forall|x: int, y: int|
                #[trigger] img.spec_get(x, y) == (0 <= x < width && 0 <= y < height && v@.take(
                    i as int,
                ).contains(Pixel { x: (x + xmin) as usize, y: (y + ymin) as usize })),
        decreases v.len() - i,
    {
        let p = v[i];
        let ghost prev = img;
        img.set(p.x - xmin, p.y - ymin, true);
        proof {
            assert(v@.take(i as int).push(p) =~= v@.take(i + 1));
            v@.take(i as int).lemma_push_to_set_commute(p);
            assert forall|x: int, y: int|
                #[trigger] img.spec_get(x, y) == (0 <= x < width && 0 <= y < height && v@.take(
                    i + 1,
                ).contains(Pixel { x: (x + xmin) as usize, y: (y + ymin) as usize })) by {
                let q = Pixel { x: (x + xmin) as usize, y: (y + ymin) as usize };
                assert(v@.take(i + 1).contains(q) <==> v@.take(i + 1).to_set().contains(q));
                assert(v@.take(i as int).contains(q) <==> v@.take(i as int).to_set().contains(q));
                if 0 <= x < width && 0 <= y < height {
                    if x == p.x - xmin && y == p.y - ymin {
                        assert(q == p);
                    } else {
                        assert(img.spec_get(x, y) == prev.spec_get(x, y));
                        assert(q != p);
                    }
                }
            }
        }
        i = i + 1;
    }
    proof {
        assert(v@.take(v@.len() as int) == v@);
    }
    img
}

/// All foreground pixels of a grid.
pub open spec fn fg_pixels(img: Image) -> Set<Pixel> {
    Set::new(|p: Pixel| img.spec_get(p.x as int, p.y as int))
}

/// All pixels with `x < width` and `y < height`.
pub open spec fn grid_pixels(width: int, height: int) -> Set<Pixel> {
    Set::new(|p: Pixel| p.x < width && p.y < height)
}

/// The rows below `height - 1` whole, plus the first `k` cells of the last row.
spec fn grid_prefix(width: int, height: int, k: int) -> Set<Pixel> {
    Set::new(
        |p: Pixel| (p.y < height - 1 && p.x < width) || (p.y == height - 1 && p.x < k),
    )
}

proof fn lemma_grid_prefix_card(width: int, height: int, k: int)
    requires
        0 <= width <= usize::MAX,
        1 <= height <= usize::MAX,
        0 <= k <= width,
    ensures
        grid_prefix(width, height, k).finite(),
        grid_prefix(width, height, k).len() == width * (height - 1) + k,
    decreases height, k,
{
    if k == 0 {
        if height == 1 {
            assert(grid_prefix(width, height, 0) =~= Set::<Pixel>::empty());
            assert(width * (height - 1) == 0) by (nonlinear_arith)
                requires
                    height == 1,
            ;
        } else {
            lemma_grid_prefix_card(width, height - 1, width);
            assert(grid_prefix(width, height, 0) =~= grid_prefix(width, height - 1, width));
            assert(width * (height - 2) + width == width * (height - 1)) by (nonlinear_arith);
        }
    } else {
        lemma_grid_prefix_card(width, height, k - 1);
        let p = Pixel { x: (k - 1) as usize, y: (height - 1) as usize };
        assert(!grid_prefix(width, height, k - 1).contains(p));
        assert(grid_prefix(width, height, k) =~= grid_prefix(width, height, k - 1).insert(p));
        assert(grid_prefix(width, height, k - 1).insert(p).len() == grid_prefix(
            width,
            height,
            k - 1,
        ).len() + 1);
    }
}

/// The grid of `width * height` pixel positions is finite and has exactly
/// that many elements.
pub proof fn lemma_grid_card(width: int, height: int)
    requires
        0 <= width <= usize::MAX,
        0 <= height <= usize::MAX,
    ensures
        grid_pixels(width, height).finite(),
        grid_pixels(width, height).len() == width * height,
{
    if height == 0 || width == 0 {
        assert(grid_pixels(width, height) =~= Set::<Pixel>::empty());
        assert(width * height == 0) by (nonlinear_arith)
            requires
                width == 0 || height == 0,
        ;
    } else {
        lemma_grid_prefix_card(width, height, width);
        assert(grid_pixels(width, height) =~= grid_prefix(width, height, width));
        assert(width * (height - 1) + width == width * height) by (nonlinear_arith);
    }
}

/// A well-formed grid's foreground set is finite and no larger than the grid.
pub proof fn lemma_fg_finite(img: Image)
    requires
        img.wf(),
    ensures
        fg_pixels(img).finite(),
        fg_pixels(img).len() <= img.width * img.height,
{
    lemma_grid_card(img.width as int, img.height as int);
    assert(fg_pixels(img).subset_of(grid_pixels(img.width as int, img.height as int)));
    vstd::set_lib::lemma_len_subset(
        fg_pixels(img),
        grid_pixels(img.width as int, img.height as int),
    );
}

/// One more step to a foreground 4-neighbour keeps a pixel reachable.
proof fn lemma_reach_extend(img: Image, seeds: Set<Pixel>, p: Pixel, n: Pixel)
    requires
        reachable(img, seeds, p),
        adj4(p, n),
        img.spec_get(n.x as int, n.y as int),
    ensures
        reachable(img, seeds, n),
{
    let path = choose|path: Seq<Pixel>|
        #![trigger is_fg_path(img, path)]
        {
            &&& is_fg_path(img, path)
            &&& path.len() > 0
            &&& seeds.contains(path[0])
            &&& path[path.len() - 1] == p
        };
    let path2 = path.push(n);
    assert(is_fg_path(img, path2)) by {
        assert(forall|i: int| 0 <= i < path.len() ==> path2[i] == path[i]);
        assert(path2[path2.len() - 1] == n);
        assert(adj4(path2[path2.len() - 2], path2[path2.len() - 1]));
    }
    assert(path2[0] == path[0]);
}

/// Reachable pixels are foreground pixels.
proof fn lemma_reach_in_fg(img: Image, seeds: Set<Pixel>)
    ensures
        reach_set(img, seeds).subset_of(fg_pixels(img)),
{
    assert forall|p: Pixel| reach_set(img, seeds).contains(p) implies fg_pixels(img).contains(
        p,
    ) by {
        let path = choose|path: Seq<Pixel>|
            #![trigger is_fg_path(img, path)]
            {
                &&& is_fg_path(img, path)
                &&& path.len() > 0
                &&& seeds.contains(path[0])
                &&& path[path.len() - 1] == p
            };
        assert(img.spec_get(path[path.len() - 1].x as int, path[path.len() - 1].y as int));
    }
}

/// A foreground seed reaches itself.
proof fn lemma_reach_seed(img: Image, seeds: Set<Pixel>, s: Pixel)
    requires
        seeds.contains(s),
        img.spec_get(s.x as int, s.y as int),
    ensures
        reachable(img, seeds, s),
{
    let path = seq![s];
    assert(is_fg_path(img, path));
    assert(path[0] == s && path[path.len() - 1] == s);
}

/// Everything on a foreground walk from a seed lies in any set that holds
/// the foreground seeds and is closed under foreground 4-neighbours.
proof fn lemma_path_in_closed(img: Image, seeds: Set<Pixel>, closed: Set<Pixel>, path: Seq<Pixel>)
    requires
        is_fg_path(img, path),
        path.len() > 0,
        seeds.contains(path[0]),
        forall|s: Pixel|
            seeds.contains(s) && img.spec_get(s.x as int, s.y as int) ==> closed.contains(s),
        forall|p: Pixel, n: Pixel|
            closed.contains(p) && #[trigger] adj4(p, n) && img.spec_get(n.x as int, n.y as int)
                ==> closed.contains(n),
    ensures
        closed.contains(path[path.len() - 1]),
    decreases path.len(),
{
    if path.len() == 1 {
        assert(img.spec_get(path[0].x as int, path[0].y as int));
    } else {
        let prefix = path.take(path.len() - 1);
        assert(is_fg_path(img, prefix)) by {
            assert(forall|i: int| 0 <= i < prefix.len() ==> prefix[i] == path[i]);
        }
        lemma_path_in_closed(img, seeds, closed, prefix);
        assert(adj4(path[path.len() - 2], path[path.len() - 1]));
        assert(img.spec_get(path[path.len() - 1].x as int, path[path.len() - 1].y as int));
    }
}

/// Copies a pixel list.
fn copy_pixels(v: &Vec<Pixel>) -> (r: Vec<Pixel>)
    ensures
        r@ == v@,
{
    let mut r: Vec<Pixel> = Vec::new();
    let mut i: usize = 0;
    while i < v.len()
        invariant
            i <= v.len(),
            r@ == v@.take(i as int),
        decreases v.len() - i,
    {
        r.push(v[i]);
        proof {
            assert(r@ =~= v@.take(i + 1));
        }
        i = i + 1;
    }
    proof {
        assert(v@.take(v@.len() as int) == v@);
    }
    r
}

/// Flood-fill growth from a list of seed pixels (§ the growth algorithm):
/// visits queued pixels, skips background or already-visited ones, and
/// enqueues the four axis neighbours of each newly visited pixel.
///
/// Returns the full 4-connected foreground region around the seeds, or
/// `None` when a given size bound is exceeded.
/// Re-establishes the flood-fill loop facts after visiting `p` and queueing
/// its neighbour candidates.
proof fn lemma_grow_step(
    image: Image,
    seed_set: Set<Pixel>,
    prev_pix: Set<Pixel>,
    cur_pix: Set<Pixel>,
    prev_queue: Seq<Pixel>,
    queue: Seq<Pixel>,
    p: Pixel,
    left: Pixel,
    below: Pixel,
)
    requires
        image.wf(),
        prev_queue.len() > 0,
        prev_queue[prev_queue.len() - 1] == p,
        queue == prev_queue.drop_last().push(Pixel { x: (p.x + 1) as usize, y: p.y }).push(
            Pixel { x: p.x, y: (p.y + 1) as usize },
        ).push(left).push(below),
        left == if p.x > 0 {
            Pixel { x: (p.x - 1) as usize, y: p.y }
        } else {
            p
        },
        below == if p.y > 0 {
            Pixel { x: p.x, y: (p.y - 1) as usize }
        } else {
            p
        },
        p.x < usize::MAX,
        p.y < usize::MAX,
        image.spec_get(p.x as int, p.y as int),
        cur_pix == prev_pix.insert(p),
        reachable(image, seed_set, p),
        forall|s: Pixel|
            seed_set.contains(s) && image.spec_get(s.x as int, s.y as int) ==> prev_pix.contains(
                s,
            ) || prev_queue.contains(s),
        forall|q: Pixel|
            prev_queue.contains(q) && image.spec_get(q.x as int, q.y as int) ==> reachable(
                image,
                seed_set,
                q,
            ),
        forall|q: Pixel| prev_pix.contains(q) ==> reachable(image, seed_set, q),
        forall|a: Pixel, n: Pixel|
            prev_pix.contains(a) && #[trigger] adj4(a, n) && image.spec_get(n.x as int, n.y as int)
                ==> prev_pix.contains(n) || prev_queue.contains(n),
    ensures
        forall|s: Pixel|
            seed_set.contains(s) && image.spec_get(s.x as int, s.y as int) ==> cur_pix.contains(s)
                || queue.contains(s),
        forall|q: Pixel|
            queue.contains(q) && image.spec_get(q.x as int, q.y as int) ==> reachable(
                image,
                seed_set,
                q,
            ),
        forall|q: Pixel| cur_pix.contains(q) ==> reachable(image, seed_set, q),
        forall|a: Pixel, n: Pixel|
            cur_pix.contains(a) && #[trigger] adj4(a, n) && image.spec_get(n.x as int, n.y as int)
                ==> cur_pix.contains(n) || queue.contains(n),
{
    let popped_queue = prev_queue.drop_last();
    let e1 = Pixel { x: (p.x + 1) as usize, y: p.y };
    let e2 = Pixel { x: p.x, y: (p.y + 1) as usize };
    assert forall|q: Pixel| prev_queue.contains(q) && q != p implies popped_queue.contains(
        q,
    ) by {
        let i = choose|i: int| 0 <= i < prev_queue.len() && prev_queue[i] == q;
        assert(i < prev_queue.len() - 1);
        assert(popped_queue[i] == q);
    }
    assert forall|q: Pixel| popped_queue.contains(q) implies prev_queue.contains(q) by {
        let i = choose|i: int| 0 <= i < popped_queue.len() && popped_queue[i] == q;
        assert(prev_queue[i] == q);
    }
    assert forall|q: Pixel| queue.contains(q) implies popped_queue.contains(q) || q == p || adj4(
        p,
        q,
    ) by {
        if q != p && !popped_queue.contains(q) {
            assert(q == e1 || q == e2 || q == left || q == below);
        }
    }
    assert(queue.contains(e1) && queue.contains(e2) && queue.contains(left) && queue.contains(
        below,
    ));
    assert forall|q: Pixel|
        queue.contains(q) && image.spec_get(q.x as int, q.y as int) implies reachable(
        image,
        seed_set,
        q,
    ) by {
        if !popped_queue.contains(q) && q != p {
            lemma_reach_extend(image, seed_set, p, q);
        }
    }
    assert forall|a: Pixel, n: Pixel|
        cur_pix.contains(a) && #[trigger] adj4(a, n) && image.spec_get(
            n.x as int,
            n.y as int,
        ) implies cur_pix.contains(n) || queue.contains(n) by {
        if a == p {
            assert(n.x < image.width && n.y < image.height);
            if n.y == p.y && n.x == p.x + 1 {
                assert(n == e1);
            } else if n.x == p.x && n.y == p.y + 1 {
                assert(n == e2);
            } else if n.y == p.y && n.x + 1 == p.x {
                assert(n == left);
            } else {
                assert(n.x == p.x && n.y + 1 == p.y);
                assert(n == below);
            }
        } else {
            assert(prev_pix.contains(a));
            if prev_queue.contains(n) && n != p {
                assert(popped_queue.contains(n));
            }
        }
    }
}

#[verifier::rlimit(100)]
pub fn grow_from(seeds: &Vec<Pixel>, image: &Image, max_size: Option<usize>) -> (r: Option<
    SimpleObject,
>)
    requires
        image.wf(),
    ensures
        max_size is None ==> r is Some,
        r matches Some(obj) ==> obj.wf() && obj.pix() == reach_set(*image, seeds@.to_set()) && (
        max_size matches Some(m) ==> obj.pix().len() <= m),
        r is None ==> (max_size matches Some(m) && reach_set(*image, seeds@.to_set()).len() > m),
{
    let ghost seed_set = seeds@.to_set();
    let ghost fg = fg_pixels(*image);
    let mut queue: Vec<Pixel> = copy_pixels(seeds);
    let mut result = SimpleObject::new();
    proof {
        lemma_fg_finite(*image);
        assert forall|q: Pixel|
            queue@.contains(q) && image.spec_get(q.x as int, q.y as int) implies reachable(
            *image,
            seed_set,
            q,
        ) by {
            lemma_reach_seed(*image, seed_set, q);
        }
    }
    while queue.len() > 0
        invariant
            image.wf(),
            result.wf(),
            fg == fg_pixels(*image),
            seed_set == seeds@.to_set(),
            fg.finite(),
            fg.len() <= image.width * image.height,
            result.pix().subset_of(fg),
            forall|s: Pixel|
                seed_set.contains(s) && image.spec_get(s.x as int, s.y as int)
                    ==> result.pix().contains(s) || queue@.contains(s),
            forall|q: Pixel|
                queue@.contains(q) && image.spec_get(q.x as int, q.y as int) ==> reachable(
                    *image,
                    seed_set,
                    q,
                ),
            forall|p: Pixel| result.pix().contains(p) ==> reachable(*image, seed_set, p),
            forall|p: Pixel, n: Pixel|
                result.pix().contains(p) && #[trigger] adj4(p, n) && image.spec_get(
                    n.x as int,
                    n.y as int,
                ) ==> result.pix().contains(n) || queue@.contains(n),
            max_size matches Some(m) ==> (queue@.len() == 0 ==> result.size <= m),
        decreases fg.difference(result.pix()).len(), queue.len(),
    {
        let ghost prev_result = result;
        let ghost prev_queue = queue@;
        let p = queue.pop().unwrap();
        proof {
            assert(prev_queue.contains(p)) by {
                assert(prev_queue[prev_queue.len() - 1] == p);
            }
            assert forall|q: Pixel| queue@.contains(q) implies prev_queue.contains(q) by {
                let i = choose|i: int| 0 <= i < queue@.len() && queue@[i] == q;
                assert(prev_queue[i] == q);
            }
            assert forall|q: Pixel| prev_queue.contains(q) && q != p implies queue@.contains(
                q,
            ) by {
                let i = choose|i: int| 0 <= i < prev_queue.len() && prev_queue[i] == q;
                assert(i < prev_queue.len() - 1);
                assert(queue@[i] == q);
            }
        }
        if let Some(m) = max_size {
            if result.size() > m {
                proof {
                    result.pixels@.unique_seq_to_set();
                    assert(result.pix().subset_of(reach_set(*image, seed_set)));
                    lemma_reach_in_fg(*image, seed_set);
                    vstd::set_lib::lemma_len_subset(reach_set(*image, seed_set), fg);
                    vstd::set_lib::lemma_len_subset(result.pix(), reach_set(*image, seed_set));
                }
                return None;
            }
        }
        if !image.get(p.x, p.y) {
            continue;
        }
        proof {
            assert(fg.contains(p));
            assert(reachable(*image, seed_set, p));
            if !result.pix().contains(p) {
                result.pixels@.unique_seq_to_set();
                vstd::std_specs::vec::axiom_spec_len(&image.data);
                result.pix().lemma_subset_not_in_lt(fg, p);
            }
        }
        let freshly_added = result.add_pixel(p);
        proof {
            if freshly_added {
                result.pixels@.unique_seq_to_set();
                assert(result.pix().len() <= fg.len()) by {
                    vstd::set_lib::lemma_len_subset(result.pix(), fg);
                }
            }
        }
        if !freshly_added {
            proof {
                assert(result.pix() =~= prev_result.pix());
            }
            continue;
        }
        let ghost popped_queue = queue@;
        // p is a foreground cell, so both +1 neighbours stay on the grid
        // walk; at the low edges the pixel itself stands in, and is skipped
        // later as already visited.
        queue.push(Pixel { x: p.x + 1, y: p.y });
        queue.push(Pixel { x: p.x, y: p.y + 1 });
        let left = if p.x > 0 {
            Pixel { x: p.x - 1, y: p.y }
        } else {
            p
        };
        queue.push(left);
        let below = if p.y > 0 {
            Pixel { x: p.x, y: p.y - 1 }
        } else {
            p
        };
        queue.push(below);
        proof {
            lemma_grow_step(
                *image,
                seed_set,
                prev_result.pix(),
                result.pix(),
                prev_queue,
                queue@,
                p,
                left,
                below,
            );
            assert(fg.difference(result.pix()) =~= fg.difference(prev_result.pix()).remove(p));
            assert(fg.difference(prev_result.pix()).contains(p));
            vstd::set_lib::lemma_len_subset(fg.difference(prev_result.pix()), fg);
        }
    }
    proof {
        let reach = reach_set(*image, seed_set);
        assert forall|p: Pixel| reach.contains(p) implies result.pix().contains(p) by {
            let path = choose|path: Seq<Pixel>|
                #![trigger is_fg_path(*image, path)]
                {
                    &&& is_fg_path(*image, path)
                    &&& path.len() > 0
                    &&& seed_set.contains(path[0])
                    &&& path[path.len() - 1] == p
                };
            lemma_path_in_closed(*image, seed_set, result.pix(), path);
        }
        assert(result.pix() =~= reach);
        result.pixels@.unique_seq_to_set();
    }
    Some(result)
}

/// The pixels covered by a list of rectangles.
pub open spec fn collection_pix(s: Seq<Rectangle>) -> Set<Pixel> {
    Set::new(|p: Pixel| exists|i: int| 0 <= i < s.len() && (#[trigger] s[i]).pix().contains(p))
}

/// The sum of the rectangles' own sizes (their pixel counts, which may
/// overlap).
pub open spec fn sum_sizes(s: Seq<Rectangle>) -> int
    decreases s.len(),
{
    if s.len() == 0 {
        0
    } else {
        sum_sizes(s.drop_last()) + s.last().spec_size()
    }
}

/// No two rectangles of the list share a pixel.
pub open spec fn pairwise_disjoint(s: Seq<Rectangle>) -> bool {
    forall|i: int, j: int|
        0 <= i < s.len() && 0 <= j < s.len() && i != j ==> (#[trigger] s[i]).pix().disjoint(
            #[trigger] s[j].pix(),
        )
}

/// All rectangles of the list are well-formed and of bounded size.
pub open spec fn all_rects_wf(s: Seq<Rectangle>) -> bool {
    forall|i: int|
        0 <= i < s.len() ==> (#[trigger] s[i]).wf() && s[i].spec_size() <= usize::MAX
}

/// Two finite disjoint sets contribute their lengths to the union.
pub proof fn lemma_len_disjoint_union<A>(s1: Set<A>, s2: Set<A>)
    requires
        s1.finite(),
        s2.finite(),
        s1.disjoint(s2),
    ensures
        s1.union(s2).finite(),
        s1.union(s2).len() == s1.len() + s2.len(),
    decreases s2.len(),
{
    if s2.len() == 0 {
        assert(s2 =~= Set::<A>::empty());
        assert(s1.union(s2) =~= s1);
    } else {
        let a = s2.choose();
        assert(s2.contains(a));
        lemma_len_disjoint_union(s1, s2.remove(a));
        assert(s1.union(s2) =~= s1.union(s2.remove(a)).insert(a));
        assert(!s1.union(s2.remove(a)).contains(a));
    }
}

/// A rectangle list's pixel set is finite and bounded by the size sum; with
/// pairwise disjoint rectangles the bound is exact.
pub proof fn lemma_collection_card(s: Seq<Rectangle>)
    requires
        all_rects_wf(s),
    ensures
        collection_pix(s).finite(),
        collection_pix(s).len() <= sum_sizes(s),
        pairwise_disjoint(s) ==> collection_pix(s).len() == sum_sizes(s),
    decreases s.len(),
{
    if s.len() == 0 {
        assert(collection_pix(s) =~= Set::<Pixel>::empty());
    } else {
        let rest = s.drop_last();
        let r = s.last();
        assert(all_rects_wf(rest) && s[s.len() - 1] == r);
        lemma_collection_card(rest);
        lemma_rect_card(r);
        assert(collection_pix(s) =~= collection_pix(rest).union(r.pix())) by {
            assert forall|p: Pixel| collection_pix(s).contains(p) implies collection_pix(
                rest,
            ).union(r.pix()).contains(p) by {
                let i = choose|i: int| 0 <= i < s.len() && (#[trigger] s[i]).pix().contains(p);
                if i < s.len() - 1 {
                    assert(rest[i] == s[i]);
                    assert(collection_pix(rest).contains(p));
                }
            }
            assert forall|p: Pixel| collection_pix(rest).union(r.pix()).contains(p)
                implies collection_pix(s).contains(p) by {
                if collection_pix(rest).contains(p) {
                    let i = choose|i: int|
                        0 <= i < rest.len() && (#[trigger] rest[i]).pix().contains(p);
                    assert(s[i] == rest[i]);
                } else {
                    assert(s[s.len() - 1].pix().contains(p));
                }
            }
        }
        vstd::set_lib::lemma_len_union(collection_pix(rest), r.pix());
        vstd::set_lib::lemma_set_union_finite_iff(collection_pix(rest), r.pix());
        if pairwise_disjoint(s) {
            assert(pairwise_disjoint(rest)) by {
                assert(forall|i: int| 0 <= i < rest.len() ==> rest[i] == s[i]);
            }
            assert(collection_pix(rest).disjoint(r.pix())) by {
                assert forall|p: Pixel|
                    collection_pix(rest).contains(p) implies !r.pix().contains(p) by {
                    let i = choose|i: int|
                        0 <= i < rest.len() && (#[trigger] rest[i]).pix().contains(p);
                    assert(s[i] == rest[i]);
                    assert(s[i].pix().disjoint(s[s.len() - 1].pix()));
                }
            }
            lemma_len_disjoint_union(collection_pix(rest), r.pix());
        }
    }
}

/// Appending a rectangle extends the covered pixels and the size sum.
pub proof fn lemma_rects_push(s: Seq<Rectangle>, rect: Rectangle)
    ensures
        collection_pix(s.push(rect)) == collection_pix(s).union(rect.pix()),
        sum_sizes(s.push(rect)) == sum_sizes(s) + rect.spec_size(),
{
    let s2 = s.push(rect);
    assert(s2.drop_last() == s);
    assert(s2[s2.len() - 1] == rect);
    assert(collection_pix(s2) =~= collection_pix(s).union(rect.pix())) by {
        assert forall|p: Pixel| collection_pix(s2).contains(p) implies collection_pix(s).union(
            rect.pix(),
        ).contains(p) by {
            let i = choose|i: int| 0 <= i < s2.len() && (#[trigger] s2[i]).pix().contains(p);
            if i < s2.len() - 1 {
                assert(s[i].pix().contains(p));
            }
        }
        assert forall|p: Pixel| collection_pix(s).union(rect.pix()).contains(p)
            implies collection_pix(s2).contains(p) by {
            if collection_pix(s).contains(p) {
                let i = choose|i: int| 0 <= i < s.len() && (#[trigger] s[i]).pix().contains(p);
                assert(s2[i].pix().contains(p));
            } else {
                assert(s2[s2.len() - 1].pix().contains(p));
            }
        }
    }
}

/// A connected object under construction in the scanline pass: the row-runs
/// collected so far, the bounding box, the summed size, and the x-hulls of
/// the runs in the two most recent rows.
///
/// `bottom` is the x-hull of the runs in the newest row (`ymax` of the
/// bounding box); `last_bottom` the hull for the row directly above it, and
/// `has_last_bottom` says whether that row has contributed at all.  `size`
/// sums the runs' own sizes, so it equals the pixel count exactly when the
/// runs never overlap — which the scanline extraction guarantees.
#[derive(Debug, Clone)]
pub struct RectangleCollection {
    pub rectangles: Vec<Rectangle>,
    pub bottom_xmin: usize,
    pub bottom_xmax: usize,
    pub last_bottom_xmin: usize,
    pub last_bottom_xmax: usize,
    pub has_last_bottom: bool,
    pub xmin: usize,
    pub xmax: usize,
    pub ymin: usize,
    pub ymax: usize,
    pub size: usize,
}

impl RectangleCollection {
    /// The pixels of the collection.
    pub open spec fn pix(self) -> Set<Pixel> {
        collection_pix(self.rectangles@)
    }

    /// The collection invariant: at least one well-formed rectangle, the
    /// bounding box the hull of the rectangles, and `size` the sum of their
    /// sizes.
    pub open spec fn wf(self) -> bool {
        &&& self.rectangles@.len() >= 1
        &&& all_rects_wf(self.rectangles@)
        &&& self.size == sum_sizes(self.rectangles@)
        &&& forall|i: int|
            0 <= i < self.rectangles@.len() ==> {
                let r = #[trigger] self.rectangles@[i];
                self.xmin <= r.xmin && r.xmax <= self.xmax && self.ymin <= r.ymin && r.ymax
                    <= self.ymax
            }
        &&& exists|i: int|
            0 <= i < self.rectangles@.len() && (#[trigger] self.rectangles@[i]).xmin == self.xmin
        &&& exists|i: int|
            0 <= i < self.rectangles@.len() && (#[trigger] self.rectangles@[i]).xmax == self.xmax
        &&& exists|i: int|
            0 <= i < self.rectangles@.len() && (#[trigger] self.rectangles@[i]).ymin == self.ymin
        &&& exists|i: int|
            0 <= i < self.rectangles@.len() && (#[trigger] self.rectangles@[i]).ymax == self.ymax
    }

    /// The touch test of the scanline pass, over the tracked intervals: a
    /// run on the newest row touches when its x-interval meets or abuts the
    /// hull of the row above; a run one row below the newest row, when it
    /// meets or abuts the newest row's hull.  Meeting diagonally (abutting
    /// intervals) counts.
    pub open spec fn spec_bottom_touch(self, rect: Rectangle) -> bool {
        ||| (rect.ymin == self.ymax && self.has_last_bottom && rect.xmin <= self.last_bottom_xmax
            + 1 && self.last_bottom_xmin <= rect.xmax + 1)
        ||| (rect.ymin == self.ymax + 1 && rect.xmin <= self.bottom_xmax + 1 && self.bottom_xmin
            <= rect.xmax + 1)
    }

    /// Starts a collection from one run.
    pub fn new(rectangle: Rectangle) -> (r: RectangleCollection)
        requires
            rectangle.wf(),
            rectangle.spec_size() <= usize::MAX,
        ensures
            r.wf(),
            r.rectangles@ == seq![rectangle],
            r.pix() == rectangle.pix(),
            r.xmin == rectangle.xmin,
            r.xmax == rectangle.xmax,
            r.ymin == rectangle.ymin,
            r.ymax == rectangle.ymax,
            r.bottom_xmin == rectangle.xmin,
            r.bottom_xmax == rectangle.xmax,
            r.last_bottom_xmin == rectangle.xmin,
            r.last_bottom_xmax == rectangle.xmax,
            r.has_last_bottom == false,
            r.size == rectangle.spec_size(),
    {
        let size: usize = Object::size(&rectangle);
        proof {
            lemma_rect_card(rectangle);
        }
        let mut rectangles: Vec<Rectangle> = Vec::new();
        rectangles.push(rectangle);
        let r = RectangleCollection {
            xmin: rectangle.xmin,
            xmax: rectangle.xmax,
            ymin: rectangle.ymin,
            ymax: rectangle.ymax,
            bottom_xmin: rectangle.xmin,
            bottom_xmax: rectangle.xmax,
            last_bottom_xmin: rectangle.xmin,
            last_bottom_xmax: rectangle.xmax,
            has_last_bottom: false,
            size,
            rectangles,
        };
        proof {
            assert(r.rectangles@ =~= seq![rectangle]);
            assert(r.rectangles@.drop_last() =~= Seq::<Rectangle>::empty());
            assert(sum_sizes(r.rectangles@) == rectangle.spec_size()) by {
                assert(r.rectangles@.drop_last() =~= Seq::<Rectangle>::empty());
                assert(sum_sizes(Seq::<Rectangle>::empty()) == 0);
                assert(r.rectangles@.last() == rectangle);
            }
            assert(r.pix() =~= rectangle.pix()) by {
                assert(r.rectangles@[0] == rectangle);
                assert forall|p: Pixel| rectangle.pix().contains(p) implies r.pix().contains(
                    p,
                ) by {
                    assert(r.rectangles@[0].pix().contains(p));
                }
            }
            assert(r.rectangles@[0] == rectangle);
        }
        r
    }

    /// Adds a run and updates the bounding box, the size sum and the two
    /// tracked row hulls.
    #[verifier::rlimit(100)]
    pub fn add_rectangle(&mut self, rectangle: Rectangle)
        requires
            old(self).wf(),
            rectangle.wf(),
            rectangle.spec_size() <= usize::MAX,
            old(self).size + rectangle.spec_size() <= usize::MAX,
        ensures
            final(self).wf(),
            final(self).rectangles@ == old(self).rectangles@.push(rectangle),
            final(self).pix() == old(self).pix().union(rectangle.pix()),
            final(self).size == old(self).size + rectangle.spec_size(),
            final(self).xmin == if rectangle.xmin < old(self).xmin {
                rectangle.xmin
            } else {
                old(self).xmin
            },
            final(self).xmax == if rectangle.xmax > old(self).xmax {
                rectangle.xmax
            } else {
                old(self).xmax
            },
            final(self).ymin == if rectangle.ymin < old(self).ymin {
                rectangle.ymin
            } else {
                old(self).ymin
            },
            final(self).ymax == if rectangle.ymax > old(self).ymax {
                rectangle.ymax
            } else {
                old(self).ymax
            },
            if rectangle.ymin == old(self).ymax {
                &&& final(self).bottom_xmin == if rectangle.xmin < old(self).bottom_xmin {
                    rectangle.xmin
                } else {
                    old(self).bottom_xmin
                }
                &&& final(self).bottom_xmax == if rectangle.xmax > old(self).bottom_xmax {
                    rectangle.xmax
                } else {
                    old(self).bottom_xmax
                }
                &&& final(self).last_bottom_xmin == old(self).last_bottom_xmin
                &&& final(self).last_bottom_xmax == old(self).last_bottom_xmax
                &&& final(self).has_last_bottom == old(self).has_last_bottom
            } else if rectangle.ymin == old(self).ymax + 1 {
                &&& final(self).bottom_xmin == rectangle.xmin
                &&& final(self).bottom_xmax == rectangle.xmax
                &&& final(self).last_bottom_xmin == old(self).bottom_xmin
                &&& final(self).last_bottom_xmax == old(self).bottom_xmax
                &&& final(self).has_last_bottom == true
            } else if rectangle.ymin > old(self).ymax + 1 {
                &&& final(self).bottom_xmin == rectangle.xmin
                &&& final(self).bottom_xmax == rectangle.xmax
                &&& final(self).has_last_bottom == false
            } else if rectangle.ymin + 1 == old(self).ymax {
                &&& final(self).bottom_xmin == old(self).bottom_xmin
                &&& final(self).bottom_xmax == old(self).bottom_xmax
                &&& final(self).has_last_bottom == true
                &&& old(self).has_last_bottom ==> {
                    &&& final(self).last_bottom_xmin == (if rectangle.xmin < old(
                        self,
                    ).last_bottom_xmin {
                        rectangle.xmin
                    } else {
                        old(self).last_bottom_xmin
                    })
                    &&& final(self).last_bottom_xmax == (if rectangle.xmax > old(
                        self,
                    ).last_bottom_xmax {
                        rectangle.xmax
                    } else {
                        old(self).last_bottom_xmax
                    })
                }
                &&& !old(self).has_last_bottom ==> {
                    &&& final(self).last_bottom_xmin == rectangle.xmin
                    &&& final(self).last_bottom_xmax == rectangle.xmax
                }
            } else {
                &&& final(self).bottom_xmin == old(self).bottom_xmin
                &&& final(self).bottom_xmax == old(self).bottom_xmax
                &&& final(self).last_bottom_xmin == old(self).last_bottom_xmin
                &&& final(self).last_bottom_xmax == old(self).last_bottom_xmax
                &&& final(self).has_last_bottom == old(self).has_last_bottom
            },
    {
        let ghost old_self = *self;
        if rectangle.ymin == self.ymax {
            if rectangle.xmin < self.bottom_xmin {
                self.bottom_xmin = rectangle.xmin;
            }
            if rectangle.xmax > self.bottom_xmax {
                self.bottom_xmax = rectangle.xmax;
            }
        } else if rectangle.ymin > self.ymax {
            if rectangle.ymin == self.ymax + 1 {
                self.last_bottom_xmin = self.bottom_xmin;
                self.last_bottom_xmax = self.bottom_xmax;
                self.has_last_bottom = true;
            } else {
                self.has_last_bottom = false;
            }
            self.bottom_xmin = rectangle.xmin;
            self.bottom_xmax = rectangle.xmax;
        } else if rectangle.ymin + 1 == self.ymax {
            if self.has_last_bottom {
                if rectangle.xmin < self.last_bottom_xmin {
                    self.last_bottom_xmin = rectangle.xmin;
                }
                if rectangle.xmax > self.last_bottom_xmax {
                    self.last_bottom_xmax = rectangle.xmax;
                }
            } else {
                self.last_bottom_xmin = rectangle.xmin;
                self.last_bottom_xmax = rectangle.xmax;
                self.has_last_bottom = true;
            }
        }
        if rectangle.ymin < self.ymin {
            self.ymin = rectangle.ymin;
        }
        if rectangle.ymax > self.ymax {
            self.ymax = rectangle.ymax;
        }
        if rectangle.xmin < self.xmin {
            self.xmin = rectangle.xmin;
        }
        if rectangle.xmax > self.xmax {
            self.xmax = rectangle.xmax;
        }
        let rect_size: usize = Object::size(&rectangle);
        proof {
            lemma_rect_card(rectangle);
        }
        self.size = self.size + rect_size;
        self.rectangles.push(rectangle);
        proof {
            let s = self.rectangles@;
            assert(s == old_self.rectangles@.push(rectangle));
            lemma_rects_push(old_self.rectangles@, rectangle);
            assert(s[s.len() - 1] == rectangle);
            assert(forall|i: int| 0 <= i < s.len() - 1 ==> s[i] == old_self.rectangles@[i]);
            assert(exists|i: int| 0 <= i < s.len() && (#[trigger] s[i]).xmin == self.xmin) by {
                if rectangle.xmin < old_self.xmin {
                    assert(s[s.len() - 1].xmin == self.xmin);
                } else {
                    let i = choose|i: int|
                        0 <= i < old_self.rectangles@.len() && (
                        #[trigger] old_self.rectangles@[i]).xmin == old_self.xmin;
                    assert(s[i].xmin == self.xmin);
                }
            }
            assert(exists|i: int| 0 <= i < s.len() && (#[trigger] s[i]).xmax == self.xmax) by {
                if rectangle.xmax > old_self.xmax {
                    assert(s[s.len() - 1].xmax == self.xmax);
                } else {
                    let i = choose|i: int|
                        0 <= i < old_self.rectangles@.len() && (
                        #[trigger] old_self.rectangles@[i]).xmax == old_self.xmax;
                    assert(s[i].xmax == self.xmax);
                }
            }
            assert(exists|i: int| 0 <= i < s.len() && (#[trigger] s[i]).ymin == self.ymin) by {
                if rectangle.ymin < old_self.ymin {
                    assert(s[s.len() - 1].ymin == self.ymin);
                } else {
                    let i = choose|i: int|
                        0 <= i < old_self.rectangles@.len() && (
                        #[trigger] old_self.rectangles@[i]).ymin == old_self.ymin;
                    assert(s[i].ymin == self.ymin);
                }
            }
            assert(exists|i: int| 0 <= i < s.len() && (#[trigger] s[i]).ymax == self.ymax) by {
                if rectangle.ymax > old_self.ymax {
                    assert(s[s.len() - 1].ymax == self.ymax);
                } else {
                    let i = choose|i: int|
                        0 <= i < old_self.rectangles@.len() && (
                        #[trigger] old_self.rectangles@[i]).ymax == old_self.ymax;
                    assert(s[i].ymax == self.ymax);
                }
            }
        }
    }

    /// The touch test of the scanline pass (see [`Self::spec_bottom_touch`]).
    pub fn bottom_touch(&self, rectangle: &Rectangle) -> (r: bool)
        ensures
            r == self.spec_bottom_touch(*rectangle),
    {
        let same_row = rectangle.ymin == self.ymax && self.has_last_bottom && (rectangle.xmin
            <= self.last_bottom_xmax || rectangle.xmin - 1 == self.last_bottom_xmax || (
        rectangle.xmin == 0)) && (self.last_bottom_xmin <= rectangle.xmax
            || self.last_bottom_xmin - 1 == rectangle.xmax || self.last_bottom_xmin == 0);
        let next_row = self.ymax < usize::MAX && rectangle.ymin == self.ymax + 1 && (rectangle.xmin
            <= self.bottom_xmax || rectangle.xmin - 1 == self.bottom_xmax || rectangle.xmin == 0)
            && (self.bottom_xmin <= rectangle.xmax || self.bottom_xmin - 1 == rectangle.xmax
            || self.bottom_xmin == 0);
        same_row || next_row
    }

    /// Hands out the collected runs.
    pub fn rectangles(self) -> (r: Vec<Rectangle>)
        ensures
            r == self.rectangles,
    {
        self.rectangles
    }

    /// Reduces the collection to an explicit pixel set.
    pub fn object(self) -> (r: SimpleObject)
        requires
            self.wf(),
        ensures
            r.wf(),
            r.pix() == self.pix(),
    {
        proof {
            lemma_collection_card(self.rectangles@);
        }
        let mut obj = SimpleObject::new();
        let mut i: usize = 0;
        while i < self.rectangles.len()
            invariant
                self.wf(),
                obj.wf(),
                obj.pix() == collection_pix(self.rectangles@.take(i as int)),
                i <= self.rectangles@.len(),
                collection_pix(self.rectangles@).finite(),
                collection_pix(self.rectangles@).len() <= usize::MAX,
            decreases self.rectangles@.len() - i,
        {
            let rect = self.rectangles[i];
            proof {
                assert(rect.wf() && rect.spec_size() <= usize::MAX);
            }
            let pix = rectangle_pixels(&rect);
            let mut j: usize = 0;
            while j < pix.len()
                invariant
                    self.wf(),
                    obj.wf(),
                    i < self.rectangles@.len(),
                    j <= pix@.len(),
                    rect == self.rectangles@[i as int],
                    pix@.to_set() == rect.pix(),
                    obj.pix() == collection_pix(self.rectangles@.take(i as int)).union(
                        pix@.take(j as int).to_set(),
                    ),
                    collection_pix(self.rectangles@).finite(),
                    collection_pix(self.rectangles@).len() <= usize::MAX,
                decreases pix@.len() - j,
            {
                proof {
                    assert(obj.pix().subset_of(collection_pix(self.rectangles@))) by {
                        assert forall|p: Pixel| obj.pix().contains(p)
                            implies collection_pix(self.rectangles@).contains(p) by {
                            if collection_pix(self.rectangles@.take(i as int)).contains(p) {
                                let k = choose|k: int|
                                    0 <= k < i && (#[trigger] self.rectangles@.take(
                                        i as int,
                                    )[k]).pix().contains(p);
                                assert(self.rectangles@[k].pix().contains(p));
                            } else {
                                assert(pix@.take(j as int).contains(p));
                                assert(pix@.contains(p));
                                assert(self.rectangles@[i as int].pix().contains(p));
                            }
                        }
                    }
                    if !obj.pix().contains(pix@[j as int]) {
                        obj.pixels@.unique_seq_to_set();
                        obj.pix().lemma_subset_not_in_lt(
                            collection_pix(self.rectangles@),
                            pix@[j as int],
                        );
                        assert(pix@.contains(pix@[j as int]));
                        assert(self.rectangles@[i as int].pix().contains(pix@[j as int]));
                    }
                    assert(pix@.take(j as int).push(pix@[j as int]) =~= pix@.take(j + 1));
                    pix@.take(j as int).lemma_push_to_set_commute(pix@[j as int]);
                }
                obj.add_pixel(pix[j]);
                proof {
                    assert(obj.pix() =~= collection_pix(self.rectangles@.take(i as int)).union(
                        pix@.take(j + 1).to_set(),
                    ));
                }
                j = j + 1;
            }
            proof {
                assert(pix@.take(pix@.len() as int) == pix@);
                assert(obj.pix() =~= collection_pix(self.rectangles@.take(i + 1))) by {
                    let st = self.rectangles@.take(i + 1);
                    assert(st[i as int] == rect);
                    assert forall|p: Pixel| obj.pix().contains(p) implies collection_pix(
                        st,
                    ).contains(p) by {
                        if collection_pix(self.rectangles@.take(i as int)).contains(p) {
                            let k = choose|k: int|
                                0 <= k < i && (#[trigger] self.rectangles@.take(
                                    i as int,
                                )[k]).pix().contains(p);
                            assert(st[k].pix().contains(p));
                        } else {
                            assert(st[i as int].pix().contains(p));
                        }
                    }
                    assert forall|p: Pixel| collection_pix(st).contains(p)
                        implies obj.pix().contains(p) by {
                        let k = choose|k: int|
                            0 <= k <= i && (#[trigger] st[k]).pix().contains(p);
                        if k < i {
                            assert(self.rectangles@.take(i as int)[k].pix().contains(p));
                            assert(collection_pix(self.rectangles@.take(i as int)).contains(p));
                        }
                    }
                }
            }
            i = i + 1;
        }
        proof {
            assert(self.rectangles@.take(self.rectangles@.len() as int) == self.rectangles@);
        }
        obj
    }
}


impl Object for RectangleCollection {
    open spec fn pix(&self) -> Set<Pixel> {
        RectangleCollection::pix(*self)
    }

    open spec fn obj_wf(&self) -> bool {
        self.wf() && pairwise_disjoint(self.rectangles@)
    }

    open spec fn sxmin(&self) -> usize {
        self.xmin
    }

    open spec fn sxmax(&self) -> usize {
        self.xmax
    }

    open spec fn symin(&self) -> usize {
        self.ymin
    }

    open spec fn symax(&self) -> usize {
        self.ymax
    }

    proof fn lemma_bounds(&self) {
        lemma_collection_card(self.rectangles@);
        let s = self.rectangles@;
        assert forall|p: Pixel|
            #[trigger] Object::pix(self).contains(p) implies self.xmin <= p.x <= self.xmax
            && self.ymin <= p.y <= self.ymax by {
            let i = choose|i: int| 0 <= i < s.len() && (#[trigger] s[i]).pix().contains(p);
        }
        let i0 = choose|i: int| 0 <= i < s.len() && (#[trigger] s[i]).xmin == self.xmin;
        let w0 = Pixel { x: s[i0].xmin, y: s[i0].ymin };
        assert(s[i0].pix().contains(w0));
        assert(collection_pix(s).contains(w0) && w0.x == self.xmin);
        let i1 = choose|i: int| 0 <= i < s.len() && (#[trigger] s[i]).xmax == self.xmax;
        let w1 = Pixel { x: s[i1].xmax, y: s[i1].ymin };
        assert(s[i1].pix().contains(w1));
        assert(collection_pix(s).contains(w1) && w1.x == self.xmax);
        let i2 = choose|i: int| 0 <= i < s.len() && (#[trigger] s[i]).ymin == self.ymin;
        let w2 = Pixel { x: s[i2].xmin, y: s[i2].ymin };
        assert(s[i2].pix().contains(w2));
        assert(collection_pix(s).contains(w2) && w2.y == self.ymin);
        let i3 = choose|i: int| 0 <= i < s.len() && (#[trigger] s[i]).ymax == self.ymax;
        let w3 = Pixel { x: s[i3].xmin, y: s[i3].ymax };
        assert(s[i3].pix().contains(w3));
        assert(collection_pix(s).contains(w3) && w3.y == self.ymax);
    }

    fn xmin(&self) -> (r: usize) {
        self.xmin
    }

    fn xmax(&self) -> (r: usize) {
        self.xmax
    }

    fn ymin(&self) -> (r: usize) {
        self.ymin
    }

    fn ymax(&self) -> (r: usize) {
        self.ymax
    }

    fn size(&self) -> (r: usize) {
        proof {
            lemma_collection_card(self.rectangles@);
        }
        self.size
    }

    fn pixels_vec(&self) -> (v: Vec<Pixel>) {
        let mut v: Vec<Pixel> = Vec::new();
        let mut i: usize = 0;
        proof {
            lemma_collection_card(self.rectangles@);
        }
        while i < self.rectangles.len()
            invariant
                self.obj_wf(),
                i <= self.rectangles@.len(),
                v@.no_duplicates(),
                v@.to_set() == collection_pix(self.rectangles@.take(i as int)),
            decreases self.rectangles@.len() - i,
        {
            let ghost s = self.rectangles@;
            let rect = self.rectangles[i];
            let pix = rectangle_pixels(&rect);
            let ghost prefix_set = collection_pix(s.take(i as int));
            proof {
                assert(prefix_set.disjoint(rect.pix())) by {
                    assert forall|p: Pixel| prefix_set.contains(p) implies !rect.pix().contains(
                        p,
                    ) by {
                        let k = choose|k: int|
                            0 <= k < i && (#[trigger] s.take(i as int)[k]).pix().contains(p);
                        assert(s[k].pix().disjoint(s[i as int].pix()));
                    }
                }
            }
            let mut j: usize = 0;
            while j < pix.len()
                invariant
                    j <= pix@.len(),
                    v@.no_duplicates(),
                    pix@.no_duplicates(),
                    pix@.to_set() == rect.pix(),
                    prefix_set.disjoint(rect.pix()),
                    v@.to_set() == prefix_set.union(pix@.take(j as int).to_set()),
                decreases pix@.len() - j,
            {
                let p = pix[j];
                proof {
                    assert(pix@.contains(p));
                    assert(rect.pix().contains(p));
                    assert(!v@.contains(p)) by {
                        assert(v@.to_set().contains(p) == v@.contains(p));
                        if pix@.take(j as int).to_set().contains(p) {
                            assert(pix@.take(j as int).contains(p));
                            let k = choose|k: int| 0 <= k < j && pix@.take(j as int)[k] == p;
                            assert(pix@[k] == p && pix@[j as int] == p);
                        }
                    }
                    assert(pix@.take(j as int).push(p) =~= pix@.take(j + 1));
                    pix@.take(j as int).lemma_push_to_set_commute(p);
                }
                let ghost old_v = v@;
                v.push(p);
                proof {
                    assert(v@ == old_v.push(p));
                    old_v.lemma_push_to_set_commute(p);
                    assert(v@.to_set() =~= prefix_set.union(pix@.take(j + 1).to_set()));
                }
                j = j + 1;
            }
            proof {
                assert(pix@.take(pix@.len() as int) == pix@);
                assert(s.take(i + 1).drop_last() == s.take(i as int));
                assert(s.take(i + 1) == s.take(i as int).push(s[i as int]));
                lemma_rects_push(s.take(i as int), s[i as int]);
                assert(v@.to_set() =~= collection_pix(s.take(i + 1)));
            }
            i = i + 1;
        }
        proof {
            assert(self.rectangles@.take(self.rectangles@.len() as int) == self.rectangles@);
        }
        v
    }
}

/// The pixels covered by a list of collections.
pub open spec fn colls_pix(s: Seq<RectangleCollection>) -> Set<Pixel> {
    Set::new(
        |p: Pixel| exists|k: int| 0 <= k < s.len() && (#[trigger] s[k]).pix().contains(p),
    )
}

/// No two collections of the list share a pixel.
pub open spec fn colls_disjoint(s: Seq<RectangleCollection>) -> bool {
    forall|i: int, j: int|
        0 <= i < s.len() && 0 <= j < s.len() && i != j ==> (#[trigger] s[i]).pix().disjoint(
            #[trigger] s[j].pix(),
        )
}

/// Appending a collection extends the covered pixels by its own.
pub proof fn lemma_colls_push(s: Seq<RectangleCollection>, c: RectangleCollection)
    ensures
        colls_pix(s.push(c)) == colls_pix(s).union(c.pix()),
{
    let s2 = s.push(c);
    assert(s2[s2.len() - 1] == c);
    assert(colls_pix(s2) =~= colls_pix(s).union(c.pix())) by {
        assert forall|p: Pixel| colls_pix(s2).contains(p) implies colls_pix(s).union(
            c.pix(),
        ).contains(p) by {
            let k = choose|k: int| 0 <= k < s2.len() && (#[trigger] s2[k]).pix().contains(p);
            if k < s2.len() - 1 {
                assert(s[k].pix().contains(p));
            }
        }
        assert forall|p: Pixel| colls_pix(s).union(c.pix()).contains(p) implies colls_pix(
            s2,
        ).contains(p) by {
            if colls_pix(s).contains(p) {
                let k = choose|k: int| 0 <= k < s.len() && (#[trigger] s[k]).pix().contains(p);
                assert(s2[k].pix().contains(p));
            } else {
                assert(s2[s2.len() - 1].pix().contains(p));
            }
        }
    }
}

/// Removing a collection splits the covered pixels.
pub proof fn lemma_colls_remove(s: Seq<RectangleCollection>, i: int)
    requires
        0 <= i < s.len(),
    ensures
        colls_pix(s) == colls_pix(s.remove(i)).union(s[i].pix()),
{
    let rest = s.remove(i);
    assert(colls_pix(s) =~= colls_pix(rest).union(s[i].pix())) by {
        assert forall|p: Pixel| colls_pix(s).contains(p) implies colls_pix(rest).union(
            s[i].pix(),
        ).contains(p) by {
            let k = choose|k: int| 0 <= k < s.len() && (#[trigger] s[k]).pix().contains(p);
            if k < i {
                assert(rest[k].pix().contains(p));
            } else if k > i {
                assert(rest[k - 1].pix().contains(p));
            }
        }
        assert forall|p: Pixel| colls_pix(rest).union(s[i].pix()).contains(p) implies colls_pix(
            s,
        ).contains(p) by {
            if colls_pix(rest).contains(p) {
                let k = choose|k: int|
                    0 <= k < rest.len() && (#[trigger] rest[k]).pix().contains(p);
                if k < i {
                    assert(s[k].pix().contains(p));
                } else {
                    assert(s[k + 1].pix().contains(p));
                }
            } else {
                assert(s[i].pix().contains(p));
            }
        }
    }
}

/// The row-runs that a pixel stream decomposes into, continuing a run whose
/// rightmost pixel so far sits at `lastx` in row `ymin`: the next pixel
/// joins while it stays in that row with x equal to `lastx` or `lastx + 1`;
/// anything else — a gap, a step back, or a row change — closes the run.
pub open spec fn group_runs_from(
    s: Seq<Pixel>,
    i: int,
    xmin: usize,
    lastx: usize,
    ymin: usize,
) -> Seq<Rectangle>
    decreases s.len() - i,
{
    if i < 0 || i >= s.len() {
        seq![Rectangle { xmin, xmax: lastx, ymin, ymax: ymin }]
    } else {
        let p = s[i];
        if p.x > lastx + 1 || p.x < lastx || p.y != ymin {
            seq![Rectangle { xmin, xmax: lastx, ymin, ymax: ymin }] + group_runs_from(
                s,
                i + 1,
                p.x,
                p.x,
                p.y,
            )
        } else {
            group_runs_from(s, i + 1, xmin, p.x, ymin)
        }
    }
}

/// The row-runs of a whole pixel stream; empty input gives no runs.
pub open spec fn group_runs(s: Seq<Pixel>) -> Seq<Rectangle> {
    if s.len() == 0 {
        Seq::<Rectangle>::empty()
    } else {
        group_runs_from(s, 1, s[0].x, s[0].x, s[0].y)
    }
}

/// Decomposes a pixel list into row-runs (see [`group_runs`]).
pub fn to_runs(pixels: &Vec<Pixel>) -> (r: Vec<Rectangle>)
    ensures
        r@ == group_runs(pixels@),
{
    let mut r: Vec<Rectangle> = Vec::new();
    if pixels.len() == 0 {
        proof {
            assert(r@ =~= group_runs(pixels@));
        }
        return r;
    }
    let mut xmin: usize = pixels[0].x;
    let mut lastx: usize = pixels[0].x;
    let mut ymin: usize = pixels[0].y;
    let mut i: usize = 1;
    while i < pixels.len()
        invariant
            1 <= i <= pixels@.len(),
            group_runs(pixels@) == r@ + group_runs_from(pixels@, i as int, xmin, lastx, ymin),
        decreases pixels@.len() - i,
    {
        let p = pixels[i];
        if (p.x > lastx && p.x - lastx > 1) || p.x < lastx || p.y != ymin {
            let rect = Rectangle { xmin, xmax: lastx, ymin, ymax: ymin };
            proof {
                assert(r@ + group_runs_from(pixels@, i as int, xmin, lastx, ymin) == (r@.push(
                    rect,
                )) + group_runs_from(pixels@, i + 1, p.x, p.x, p.y)) by {
                    assert(group_runs_from(pixels@, i as int, xmin, lastx, ymin) == seq![rect]
                        + group_runs_from(pixels@, i + 1, p.x, p.x, p.y));
                    assert(r@ + (seq![rect] + group_runs_from(pixels@, i + 1, p.x, p.x, p.y))
                        =~= (r@.push(rect)) + group_runs_from(pixels@, i + 1, p.x, p.x, p.y));
                }
            }
            r.push(rect);
            xmin = p.x;
            lastx = p.x;
            ymin = p.y;
        } else {
            proof {
                assert(group_runs_from(pixels@, i as int, xmin, lastx, ymin) == group_runs_from(
                    pixels@,
                    i + 1,
                    xmin,
                    p.x,
                    ymin,
                ));
            }
            lastx = p.x;
        }
        i = i + 1;
    }
    let rect = Rectangle { xmin, xmax: lastx, ymin, ymax: ymin };
    proof {
        assert(group_runs_from(pixels@, pixels@.len() as int, xmin, lastx, ymin) == seq![rect]);
        assert(r@ + seq![rect] =~= r@.push(rect));
    }
    r.push(rect);
    r
}

/// A cursor over the row-runs of a pixel stream, in order.
#[derive(Debug, Clone)]
pub struct PixelsToOneHeightRectangles {
    pub runs: Vec<Rectangle>,
    pub idx: usize,
}

impl PixelsToOneHeightRectangles {
    /// Yields the next run, left to right and top to bottom.
    pub fn next(&mut self) -> (r: Option<Rectangle>)
        ensures
            old(self).idx < old(self).runs@.len() ==> {
                &&& r == Some(old(self).runs@[old(self).idx as int])
                &&& final(self).idx == old(self).idx + 1
            },
            old(self).idx >= old(self).runs@.len() ==> r is None && *final(self) == *old(self),
            final(self).runs@ == old(self).runs@,
    {
        if self.idx < self.runs.len() {
            let rect = self.runs[self.idx];
            self.idx = self.idx + 1;
            Some(rect)
        } else {
            None
        }
    }
}

/// Decomposing a pixel stream into row-runs, as a cursor.
pub trait IntoPixelsToOneHeightRectangles: Sized {
    /// The stream itself.
    spec fn pixel_stream(&self) -> Seq<Pixel>;

    /// A cursor over the row-runs of the stream (see [`group_runs`]).
    fn to_one_height_rectangles(self) -> (r: PixelsToOneHeightRectangles)
        ensures
            r.runs@ == group_runs(self.pixel_stream()),
            r.idx == 0,
    ;
}

impl IntoPixelsToOneHeightRectangles for Vec<Pixel> {
    open spec fn pixel_stream(&self) -> Seq<Pixel> {
        self@
    }

    fn to_one_height_rectangles(self) -> (r: PixelsToOneHeightRectangles) {
        let runs = to_runs(&self);
        PixelsToOneHeightRectangles { runs, idx: 0 }
    }
}

/// Two disjoint pixel sets inside one grid's foreground together fit the
/// machine's size range.
pub proof fn lemma_disjoint_size_bound(a: Set<Pixel>, b: Set<Pixel>, img: Image)
    requires
        img.wf(),
        a.disjoint(b),
        a.subset_of(fg_pixels(img)),
        b.subset_of(fg_pixels(img)),
    ensures
        a.finite(),
        b.finite(),
        a.len() + b.len() <= usize::MAX,
{
    lemma_fg_finite(img);
    vstd::set_lib::lemma_len_subset(a, fg_pixels(img));
    vstd::set_lib::lemma_len_subset(b, fg_pixels(img));
    lemma_len_disjoint_union(a, b);
    assert(a.union(b).subset_of(fg_pixels(img)));
    vstd::set_lib::lemma_len_subset(a.union(b), fg_pixels(img));
    vstd::std_specs::vec::axiom_spec_len(&img.data);
}

/// A cursor over a rectangle's pixels in row-major order.
#[derive(Debug, Clone)]
pub struct RectanglePixelIterator {
    pub pixels: Vec<Pixel>,
    pub idx: usize,
}

impl RectanglePixelIterator {
    /// A cursor over the given rectangle's pixels.
    pub fn new(rect: &Rectangle) -> (r: RectanglePixelIterator)
        requires
            rect.wf(),
            rect.spec_size() <= usize::MAX,
        ensures
            r.pixels@.no_duplicates(),
            r.pixels@.to_set() == rect.pix(),
            r.pixels@.len() == rect.spec_size(),
            forall|k: int|
                0 <= k < r.pixels@.len() ==> #[trigger] r.pixels@[k] == (Pixel {
                    x: (rect.xmin + (k % (rect.xmax - rect.xmin + 1))) as usize,
                    y: (rect.ymin + (k / (rect.xmax - rect.xmin + 1))) as usize,
                }),
            r.idx == 0,
    {
        RectanglePixelIterator { pixels: rectangle_pixels(rect), idx: 0 }
    }

    /// Yields the next pixel, in row-major order.
    pub fn next(&mut self) -> (r: Option<Pixel>)
        ensures
            final(self).pixels@ == old(self).pixels@,
            old(self).idx < old(self).pixels@.len() ==> {
                &&& r == Some(old(self).pixels@[old(self).idx as int])
                &&& final(self).idx == old(self).idx + 1
            },
            old(self).idx >= old(self).pixels@.len() ==> r is None && *final(self) == *old(self),
    {
        if self.idx < self.pixels.len() {
            let p = self.pixels[self.idx];
            self.idx = self.idx + 1;
            Some(p)
        } else {
            None
        }
    }
}

/// A cursor over a run collection's pixels, rectangle by rectangle.
#[derive(Debug, Clone)]
pub struct RectangleCollectionPixelIterator {
    pub pixels: Vec<Pixel>,
    pub idx: usize,
}

impl RectangleCollectionPixelIterator {
    /// A cursor over the given collection's pixels, each exactly once.
    pub fn new(collection: &RectangleCollection) -> (r: RectangleCollectionPixelIterator)
        requires
            collection.wf(),
            pairwise_disjoint(collection.rectangles@),
        ensures
            r.pixels@.no_duplicates(),
            r.pixels@.to_set() == collection.pix(),
            r.idx == 0,
    {
        RectangleCollectionPixelIterator { pixels: Object::pixels_vec(collection), idx: 0 }
    }

    /// Yields the next pixel.
    pub fn next(&mut self) -> (r: Option<Pixel>)
        ensures
            final(self).pixels@ == old(self).pixels@,
            old(self).idx < old(self).pixels@.len() ==> {
                &&& r == Some(old(self).pixels@[old(self).idx as int])
                &&& final(self).idx == old(self).idx + 1
            },
            old(self).idx >= old(self).pixels@.len() ==> r is None && *final(self) == *old(self),
    {
        if self.idx < self.pixels.len() {
            let p = self.pixels[self.idx];
            self.idx = self.idx + 1;
            Some(p)
        } else {
            None
        }
    }
}

} // verus!
