//! Laws relating the library's operations, stated over the same spec
//! functions that the operations' contracts use.

use vstd::prelude::*;
use crate::cutout::Cutout;
use crate::image::Image;
use crate::object::{adj4, is_fg_path, reach_set, reachable, Pixel, SimpleObject};

verus! {

/// Blank round-trip: on a view where every cell is background, `is_blank`
/// reports true and all four trims report no content.  `is_blank` ensures
/// its result equals `all_blank`, and each trim ensures it returns `None`
/// exactly on `all_blank`, so both follow from this equivalence.
pub proof fn lemma_blank_round_trip(c: Cutout)
    requires
        c.wf(),
        forall|x: int, y: int| !c.view_get(x, y),
    ensures
        c.all_blank(),
        forall|y: int| c.row_blank(y),
        forall|x: int| c.col_blank(x),
{
}

/// Trim idempotence, top edge: a view whose first row already holds ink is
/// returned unchanged by the top trim.  The arguments are the view and any
/// result satisfying `trimm_top`'s postcondition on it.
pub proof fn lemma_trimm_top_no_margin(c: Cutout, t: Cutout)
    requires
        c.wf(),
        !c.row_blank(0),
        t.width == c.width,
        t.offx == c.offx,
        1 <= t.height <= c.height,
        t.offy + t.height == c.offy + c.height,
        forall|j: int| 0 <= j < c.height - t.height ==> c.row_blank(j),
    ensures
        t.height == c.height,
        t.offy == c.offy,
{
    if t.height < c.height {
        assert(c.row_blank(0));
    }
}

/// Trim idempotence, bottom edge: a view whose last row already holds ink is
/// returned unchanged by the bottom trim.
pub proof fn lemma_trimm_bottom_no_margin(c: Cutout, t: Cutout)
    requires
        c.wf(),
        c.height >= 1,
        !c.row_blank(c.height - 1),
        t.offy == c.offy,
        1 <= t.height <= c.height,
        forall|j: int| t.height <= j < c.height ==> c.row_blank(j),
    ensures
        t.height == c.height,
{
    if t.height < c.height {
        assert(c.row_blank(c.height - 1));
    }
}

/// Trim idempotence, left edge: a view whose first column already holds ink
/// is returned unchanged by the left trim.
pub proof fn lemma_trimm_left_no_margin(c: Cutout, t: Cutout)
    requires
        c.wf(),
        !c.col_blank(0),
        t.height == c.height,
        t.offy == c.offy,
        1 <= t.width <= c.width,
        t.offx + t.width == c.offx + c.width,
        forall|i: int| 0 <= i < c.width - t.width ==> c.col_blank(i),
    ensures
        t.width == c.width,
        t.offx == c.offx,
{
    if t.width < c.width {
        assert(c.col_blank(0));
    }
}

/// Trim idempotence, right edge: a view whose last column already holds ink
/// is returned unchanged by the right trim.
pub proof fn lemma_trimm_right_no_margin(c: Cutout, t: Cutout)
    requires
        c.wf(),
        c.width >= 1,
        !c.col_blank(c.width - 1),
        t.offx == c.offx,
        1 <= t.width <= c.width,
        forall|i: int| t.width <= i < c.width ==> c.col_blank(i),
    ensures
        t.width == c.width,
{
    if t.width < c.width {
        assert(c.col_blank(c.width - 1));
    }
}

/// Border touch: an object whose bounding box reaches an edge of the frame
/// at the origin satisfies the `touches_border` condition, and the object
/// shifted inward by one unit — with room to spare on the far edges — does
/// not.  `touches_border` ensures its result equals exactly the condition
/// over the bounding box, so the calls' results follow.
pub proof fn lemma_border_touch_shift(o1: SimpleObject, o2: SimpleObject, w: usize, h: usize)
    requires
        o1.wf(),
        o2.wf(),
        o1.pixels@.len() > 0,
        o1.xmin == 0 || o1.ymin == 0 || o1.xmax == w - 1 || o1.ymax == h - 1,
        1 <= w,
        1 <= h,
        o1.xmax + 2 <= w - 1,
        o1.ymax + 2 <= h - 1,
        o2.pix() == Set::new(
            |q: Pixel|
                q.x >= 1 && q.y >= 1 && o1.pix().contains(
                    Pixel { x: (q.x - 1) as usize, y: (q.y - 1) as usize },
                ),
        ),
    ensures
        o1.xmin == 0 || o1.ymin == 0 || o1.xmax == w - 1 || o1.ymax == h - 1,
        !(o2.xmin == 0 || o2.ymin == 0 || o2.xmax == w - 1 || o2.ymax == h - 1),
{
    assert(o1.xmax + 2 <= w - 1 && o1.ymax + 2 <= h - 1);
    assert(o2.pixels@.len() > 0) by {
        let p = choose|p: Pixel| #[trigger] o1.pix().contains(p) && p.x == o1.xmin;
        let q = Pixel { x: (p.x + 1) as usize, y: (p.y + 1) as usize };
        assert(p.x + 1 <= usize::MAX && p.y + 1 <= usize::MAX);
        assert(o2.pix().contains(q));
        assert(o2.pixels@.contains(q));
        if o2.pixels@.len() == 0 {
            assert(false);
        }
    }
    assert forall|q: Pixel| #[trigger] o2.pix().contains(q) implies 1 <= q.x <= o1.xmax + 1 && 1
        <= q.y <= o1.ymax + 1 by {
        assert(o1.pix().contains(Pixel { x: (q.x - 1) as usize, y: (q.y - 1) as usize }));
    }
    let q_left = choose|q: Pixel| #[trigger] o2.pix().contains(q) && q.x == o2.xmin;
    let q_right = choose|q: Pixel| #[trigger] o2.pix().contains(q) && q.x == o2.xmax;
    let q_top = choose|q: Pixel| #[trigger] o2.pix().contains(q) && q.y == o2.ymin;
    let q_bottom = choose|q: Pixel| #[trigger] o2.pix().contains(q) && q.y == o2.ymax;
    assert(o2.xmin >= 1 && o2.ymin >= 1);
    assert(o2.xmax <= o1.xmax + 1 && o2.ymax <= o1.ymax + 1);
    assert(o2.xmax < w - 1 && o2.ymax < h - 1);
}

/// A foreground walk read backwards is a foreground walk.
proof fn lemma_reach_symm(img: Image, a: Pixel, b: Pixel)
    requires
        reachable(img, Set::<Pixel>::empty().insert(a), b),
    ensures
        reachable(img, Set::<Pixel>::empty().insert(b), a),
{
    let path = choose|path: Seq<Pixel>|
        #![trigger is_fg_path(img, path)]
        {
            &&& is_fg_path(img, path)
            &&& path.len() > 0
            &&& Set::<Pixel>::empty().insert(a).contains(path[0])
            &&& path[path.len() - 1] == b
        };
    let n = path.len() as int;
    let rev = Seq::new(path.len(), |i: int| path[n - 1 - i]);
    assert(is_fg_path(img, rev)) by {
        assert(forall|i: int| 0 <= i < n ==> rev[i] == path[n - 1 - i]);
        assert forall|i: int| 0 <= i < n - 1 implies adj4(#[trigger] rev[i], rev[i + 1]) by {
            assert(adj4(path[n - 2 - i], path[n - 1 - i]));
        }
    }
    assert(rev[0] == b && rev[rev.len() - 1] == a);
    assert(Set::<Pixel>::empty().insert(b).contains(rev[0]));
}

/// Foreground walks compose.
proof fn lemma_reach_trans(img: Image, a: Pixel, b: Pixel, c: Pixel)
    requires
        reachable(img, Set::<Pixel>::empty().insert(a), b),
        reachable(img, Set::<Pixel>::empty().insert(b), c),
    ensures
        reachable(img, Set::<Pixel>::empty().insert(a), c),
{
    let p1 = choose|path: Seq<Pixel>|
        #![trigger is_fg_path(img, path)]
        {
            &&& is_fg_path(img, path)
            &&& path.len() > 0
            &&& Set::<Pixel>::empty().insert(a).contains(path[0])
            &&& path[path.len() - 1] == b
        };
    let p2 = choose|path: Seq<Pixel>|
        #![trigger is_fg_path(img, path)]
        {
            &&& is_fg_path(img, path)
            &&& path.len() > 0
            &&& Set::<Pixel>::empty().insert(b).contains(path[0])
            &&& path[path.len() - 1] == c
        };
    if p2.len() == 1 {
        assert(b == c);
        assert(p1[p1.len() - 1] == c);
    } else {
        let joined = p1 + p2.skip(1);
        assert(is_fg_path(img, joined)) by {
            assert(forall|i: int| 0 <= i < p1.len() ==> joined[i] == p1[i]);
            assert(forall|i: int|
                p1.len() <= i < joined.len() ==> joined[i] == p2[i - p1.len() + 1]);
            assert forall|i: int|
                0 <= i < joined.len() - 1 implies adj4(#[trigger] joined[i], joined[i + 1]) by {
                if i < p1.len() - 1 {
                    assert(adj4(p1[i], p1[i + 1]));
                } else if i == p1.len() - 1 {
                    assert(joined[i] == b && joined[i + 1] == p2[1]);
                    assert(adj4(p2[0], p2[1]));
                } else {
                    assert(adj4(p2[i - p1.len()], p2[i - p1.len() + 1]));
                }
            }
        }
        assert(joined[0] == p1[0]);
        assert(joined[joined.len() - 1] == p2[p2.len() - 1]);
    }
}

/// Flood-fill partition: the regions grown from two single seeds are either
/// the same set of pixels or share none — so growing from every unvisited
/// foreground pixel in turn partitions the foreground into 4-connected
/// groups.  `connected_grow` without a size bound returns exactly
/// `reach_set`, so this holds of its results.
pub proof fn lemma_flood_regions_equal_or_disjoint(img: Image, a: Pixel, b: Pixel)
    ensures
        reach_set(img, Set::<Pixel>::empty().insert(a)) == reach_set(
            img,
            Set::<Pixel>::empty().insert(b),
        ) || reach_set(img, Set::<Pixel>::empty().insert(a)).disjoint(
            reach_set(img, Set::<Pixel>::empty().insert(b)),
        ),
{
    let ra = reach_set(img, Set::<Pixel>::empty().insert(a));
    let rb = reach_set(img, Set::<Pixel>::empty().insert(b));
    if !ra.disjoint(rb) {
        let p = choose|p: Pixel| ra.contains(p) && rb.contains(p);
        assert(ra =~= rb) by {
            assert forall|q: Pixel| ra.contains(q) implies rb.contains(q) by {
                lemma_reach_symm(img, a, p);
                lemma_reach_trans(img, b, p, a);
                lemma_reach_trans(img, b, a, q);
            }
            assert forall|q: Pixel| rb.contains(q) implies ra.contains(q) by {
                lemma_reach_symm(img, b, p);
                lemma_reach_trans(img, a, p, b);
                lemma_reach_trans(img, a, b, q);
            }
        }
    }
}

} // verus!
