//! Whole-page operations built on band segmentation.

use vstd::prelude::*;
use crate::image::{Image, col_has_fg};
use crate::object::Pixel;
use crate::cutout::Cutout;
use crate::cutout::lemma_pixel_seq_contains;
use crate::cutout::pixel_match;
use crate::cutout::pixel_at;

verus! {

/// Row `y` of the grid holds no foreground cell.
pub open spec fn row_all_blank(img: Image, y: int) -> bool {
    forall|x: int| !img.spec_get(x, y)
}

/// Row `ay` lies inside a content band (a maximal group of consecutive
/// non-blank rows) that is taller than `t`.
pub open spec fn in_tall_band(img: Image, ay: int, t: int) -> bool {
    exists|y0: int, y1: int|
        {
            &&& 0 <= y0 <= ay < y1 <= img.height
            &&& forall|yy: int| y0 <= yy < y1 ==> !row_all_blank(img, yy)
            &&& (y0 == 0 || row_all_blank(img, y0 - 1))
            &&& (y1 == img.height || row_all_blank(img, y1))
            &&& #[trigger] (y1 - y0) > t
        }
}

/// A blank row of a full-width view is a blank row of the grid, and the
/// other way round.
proof fn lemma_full_row_blank(img: Image, full: Cutout, y: int)
    requires
        img.wf(),
        full.image == img,
        full.offx == 0,
        full.offy == 0,
        full.width == img.width,
        full.height == img.height,
        0 <= y < img.height,
    ensures
        full.row_blank(y) == row_all_blank(img, y),
{
    if full.row_blank(y) {
        assert forall|x: int| !img.spec_get(x, y) by {
            if 0 <= x < img.width {
                assert(!full.view_get(x, y));
            }
        }
    }
    if row_all_blank(img, y) {
        assert forall|x: int| 0 <= x < full.width implies !(#[trigger] full.view_get(x, y)) by {
            assert(!img.spec_get(x, y));
        }
    }
}

/// A band of the full view witnesses [`in_tall_band`] at each of its rows,
/// once it is taller than the threshold.
proof fn lemma_band_is_tall_band(img: Image, full: Cutout, b: Cutout, ay: int, t: int)
    requires
        img.wf(),
        full.image == img,
        full.offx == 0,
        full.offy == 0,
        full.width == img.width,
        full.height == img.height,
        b.wf(),
        b.image == img,
        b.offx == 0,
        b.width == img.width,
        b.height >= 1,
        b.offy + b.height <= img.height,
        forall|j: int| 0 <= j < b.height ==> !b.row_blank(j),
        b.offy == 0 || full.row_blank(b.offy - 1),
        b.offy + b.height == img.height || full.row_blank(b.offy + b.height as int),
        b.offy <= ay < b.offy + b.height,
        b.height > t,
    ensures
        in_tall_band(img, ay, t),
{
    let y0: int = b.offy as int;
    let y1: int = b.offy + b.height;
    assert forall|yy: int| y0 <= yy < y1 implies !row_all_blank(img, yy) by {
        assert(!b.row_blank(yy - b.offy));
        let fx = choose|x: int| 0 <= x < b.width && #[trigger] b.view_get(x, yy - b.offy);
        assert(img.spec_get(fx, yy));
    }
    if y0 != 0 {
        lemma_full_row_blank(img, full, y0 - 1);
    }
    if y1 != img.height {
        lemma_full_row_blank(img, full, y1);
    }
    assert(0 <= y0 <= ay < y1 <= img.height && (y1 - y0) > t);
}

/// An [`in_tall_band`] witness containing one of a band's rows is that very
/// band.
proof fn lemma_band_matches_witness(
    img: Image,
    full: Cutout,
    b: Cutout,
    ay: int,
    y0: int,
    y1: int,
)
    requires
        img.wf(),
        full.image == img,
        full.offx == 0,
        full.offy == 0,
        full.width == img.width,
        full.height == img.height,
        b.wf(),
        b.image == img,
        b.offx == 0,
        b.width == img.width,
        b.height >= 1,
        b.offy + b.height <= img.height,
        forall|j: int| 0 <= j < b.height ==> !b.row_blank(j),
        b.offy == 0 || full.row_blank(b.offy - 1),
        b.offy + b.height == img.height || full.row_blank(b.offy + b.height as int),
        b.offy <= ay < b.offy + b.height,
        0 <= y0 <= ay < y1 <= img.height,
        forall|yy: int| y0 <= yy < y1 ==> !row_all_blank(img, yy),
        (y0 == 0 || row_all_blank(img, y0 - 1)),
        (y1 == img.height || row_all_blank(img, y1)),
    ensures
        y0 == b.offy,
        y1 == b.offy + b.height,
{
    assert forall|j: int| 0 <= j < b.height implies !(#[trigger] row_all_blank(
        img,
        b.offy + j,
    )) by {
        assert(!b.row_blank(j));
        let fx = choose|x: int| 0 <= x < b.width && #[trigger] b.view_get(x, j);
        assert(img.spec_get(fx, b.offy + j));
    }
    if y0 < b.offy {
        lemma_full_row_blank(img, full, b.offy - 1);
        assert(y0 <= b.offy - 1 < y1);
    }
    if y0 > b.offy {
        assert(!row_all_blank(img, b.offy + (y0 - 1 - b.offy)));
    }
    if y1 > b.offy + b.height {
        lemma_full_row_blank(img, full, b.offy + b.height);
        assert(y0 <= b.offy + b.height < y1);
    }
    if y1 < b.offy + b.height {
        assert(!row_all_blank(img, b.offy + (y1 - b.offy)));
    }
}

/// Keeps only the content bands taller than `height_threshold`: everything
/// in a band of that height survives unchanged; the rest of the page —
/// stray marks no taller than the threshold — is dropped.
pub fn remove_salt_and_pepper(image: &mut Image, height_threshold: usize) -> (r: Image)
    requires
        old(image).wf(),
    ensures
        *final(image) == *old(image),
        r.wf(),
        r.width == old(image).width,
        r.height == old(image).height,
        forall|ax: int, ay: int|
            #[trigger] r.spec_get(ax, ay) == (old(image).spec_get(ax, ay) && in_tall_band(
                *old(image),
                ay,
                height_threshold as int,
            )),
{
    proof {
        vstd::std_specs::vec::axiom_spec_len(&image.data);
    }
    let ghost img = *image;
    let full = image.full_cutout();
    let bands = full.segment_into_bands();
    let mut result = Image::new_empty(image.width(), image.height());
    let mut i: usize = 0;
    while i < bands.len()
        invariant
            img.wf(),
            full.wf(),
            full.image == img,
            full.offx == 0,
            full.offy == 0,
            full.width == img.width,
            full.height == img.height,
            result.wf(),
            result.width == img.width,
            result.height == img.height,
            i <= bands@.len(),
            forall|k: int|
                0 <= k < bands@.len() ==> {
                    let b = #[trigger] bands@[k];
                    &&& b.wf()
                    &&& b.image == img
                    &&& b.offx == 0
                    &&& b.width == img.width
                    &&& b.height >= 1
                    &&& b.offy + b.height <= img.height
                    &&& (forall|j: int| 0 <= j < b.height ==> !b.row_blank(j))
                    &&& (b.offy == 0 || full.row_blank(b.offy - 1))
                    &&& (b.offy + b.height == img.height || full.row_blank(
                        b.offy + b.height as int,
                    ))
                },
            forall|x: int, y: int|
                full.view_get(x, y) ==> exists|k: int|
                    0 <= k < bands@.len() && (#[trigger] bands@[k]).offy <= y < bands@[k].offy
                        + bands@[k].height,
            forall|ax: int, ay: int|
                #[trigger] result.spec_get(ax, ay) == exists|k: int|
                    0 <= k < i && (#[trigger] bands@[k]).height > height_threshold
                        && bands@[k].offy <= ay < bands@[k].offy + bands@[k].height
                        && img.spec_get(ax, ay),
        decreases bands@.len() - i,
    {
        let band = bands[i];
        let ghost prev = result;
        if band.height() > height_threshold {
            let mut it = band.pixels(false, true);
            let v = it.collect_all();
            proof {
                assert(v@ == crate::cutout::pixel_seq(band, false, true)) by {
                    assert(crate::cutout::pixel_seq(band, false, true).skip(0)
                        == crate::cutout::pixel_seq(band, false, true));
                }
            }
            result.set_pixels(&v);
            proof {
                assert forall|ax: int, ay: int|
                    #[trigger] result.spec_get(ax, ay) == exists|k: int|
                        0 <= k < i + 1 && (#[trigger] bands@[k]).height > height_threshold
                            && bands@[k].offy <= ay < bands@[k].offy + bands@[k].height
                            && img.spec_get(ax, ay) by {
                    let q = Pixel { x: ax as usize, y: ay as usize };
                    lemma_pixel_seq_contains(band, false, true, q);
                    if result.spec_get(ax, ay) {
                        if prev.spec_get(ax, ay) {
                            let k = choose|k: int|
                                0 <= k < i && (#[trigger] bands@[k]).height > height_threshold
                                    && bands@[k].offy <= ay < bands@[k].offy + bands@[k].height
                                    && img.spec_get(ax, ay);
                            assert(0 <= k < i + 1 && bands@[k].height > height_threshold
                                && bands@[k].offy <= ay < bands@[k].offy + bands@[k].height
                                && img.spec_get(ax, ay));
                        } else {
                            assert(v@.contains(q));
                            let (vx, vy): (int, int) = choose|vx: int, vy: int|
                                {
                                    &&& 0 <= vx < band.width
                                    &&& 0 <= vy < band.height
                                    &&& #[trigger] pixel_match(band, false, vx, vy)
                                    &&& q == pixel_at(band, true, vx, vy)
                                };
                            assert(band.view_get(vx, vy));
                            assert(ax == vx && ay == band.offy + vy);
                            assert((#[trigger] bands@[i as int]).height > height_threshold
                                && bands@[i as int].offy <= ay < bands@[i as int].offy
                                + bands@[i as int].height && img.spec_get(ax, ay));
                        }
                    }
                    if exists|k: int|
                        0 <= k < i + 1 && (#[trigger] bands@[k]).height > height_threshold
                            && bands@[k].offy <= ay < bands@[k].offy + bands@[k].height
                            && img.spec_get(ax, ay) {
                        let k = choose|k: int|
                            0 <= k < i + 1 && (#[trigger] bands@[k]).height > height_threshold
                                && bands@[k].offy <= ay < bands@[k].offy + bands@[k].height
                                && img.spec_get(ax, ay);
                        if k < i {
                            assert(prev.spec_get(ax, ay));
                            assert(result.spec_get(ax, ay));
                        } else {
                            assert(band.view_get(ax, ay - band.offy));
                            assert(pixel_match(band, false, ax, ay - band.offy));
                            assert(q == pixel_at(band, true, ax, ay - band.offy));
                            assert(v@.contains(q));
                            assert(0 <= ax < img.width && 0 <= ay < img.height);
                            assert(result.spec_get(ax, ay));
                        }
                    }
                }
            }
        } else {
            proof {
                assert forall|ax: int, ay: int|
                    #[trigger] result.spec_get(ax, ay) == exists|k: int|
                        0 <= k < i + 1 && (#[trigger] bands@[k]).height > height_threshold
                            && bands@[k].offy <= ay < bands@[k].offy + bands@[k].height
                            && img.spec_get(ax, ay) by {
                    if exists|k: int|
                        0 <= k < i + 1 && (#[trigger] bands@[k]).height > height_threshold
                            && bands@[k].offy <= ay < bands@[k].offy + bands@[k].height
                            && img.spec_get(ax, ay) {
                        let k = choose|k: int|
                            0 <= k < i + 1 && (#[trigger] bands@[k]).height > height_threshold
                                && bands@[k].offy <= ay < bands@[k].offy + bands@[k].height
                                && img.spec_get(ax, ay);
                        assert(k < i);
                    }
                }
            }
        }
        i = i + 1;
    }
    proof {
        assert forall|ax: int, ay: int|
            #[trigger] result.spec_get(ax, ay) == (img.spec_get(ax, ay) && in_tall_band(
                img,
                ay,
                height_threshold as int,
            )) by {
            if result.spec_get(ax, ay) {
                let k = choose|k: int|
                    0 <= k < bands@.len() && (#[trigger] bands@[k]).height > height_threshold
                        && bands@[k].offy <= ay < bands@[k].offy + bands@[k].height
                        && img.spec_get(ax, ay);
                lemma_band_is_tall_band(img, full, bands@[k], ay, height_threshold as int);
            }
            if img.spec_get(ax, ay) && in_tall_band(img, ay, height_threshold as int) {
                assert(full.view_get(ax, ay));
                let k = choose|k: int|
                    0 <= k < bands@.len() && (#[trigger] bands@[k]).offy <= ay < bands@[k].offy
                        + bands@[k].height;
                let b = bands@[k];
                let (y0, y1): (int, int) = choose|y0: int, y1: int|
                    {
                        &&& 0 <= y0 <= ay < y1 <= img.height
                        &&& forall|yy: int| y0 <= yy < y1 ==> !row_all_blank(img, yy)
                        &&& (y0 == 0 || row_all_blank(img, y0 - 1))
                        &&& (y1 == img.height || row_all_blank(img, y1))
                        &&& #[trigger] (y1 - y0) > height_threshold
                    };
                lemma_band_matches_witness(img, full, b, ay, y0, y1);
                assert(b.height > height_threshold);
                assert(result.spec_get(ax, ay));
            }
        }
    }
    result
}

/// The leftmost inked column of the grid.
pub open spec fn is_left_margin(img: Image, lo: int) -> bool {
    &&& 0 <= lo < img.width
    &&& col_has_fg(img, lo)
    &&& forall|x: int| 0 <= x < lo ==> !col_has_fg(img, x)
}

/// Pads the grid on a wider canvas, shifting the content so that its left
/// margin becomes `(width - old width) / 2`; the content keeps its own
/// layout and the right margin is whatever remains.  The grid must hold some
/// ink, and its left margin may not exceed the new one.
pub fn horizontal_padding(image: &Image, width: usize) -> (r: Image)
    requires
        image.wf(),
        image.width <= width,
        width * image.height <= usize::MAX,
        exists|x: int, y: int| image.spec_get(x, y),
        forall|lo: int| #[trigger] is_left_margin(*image, lo) ==> lo <= (width - image.width) / 2,
    ensures
        r.wf(),
        r.width == width,
        r.height == image.height,
        forall|lo: int|
            #[trigger] is_left_margin(*image, lo) ==> forall|ax: int, ay: int|
                #[trigger] r.spec_get(ax, ay) == image.spec_get(
                    ax + lo - (width - image.width) / 2,
                    ay,
                ),
{
    let m: usize = (width - image.width()) / 2;
    proof {
        assert(m <= width - image.width) by (nonlinear_arith)
            requires
                m == (width - image.width) / 2,
                0 <= width - image.width,
        ;
    }
    let full = image.full_cutout();
    let trimmed = full.trimm_left();
    match trimmed {
        None => {
            proof {
                let (fx, fy): (int, int) = choose|x: int, y: int| image.spec_get(x, y);
                assert(full.view_get(fx, fy));
                assert(false);
            }
            Image::new_empty(width, image.height())
        },
        Some(c1) => {
            let lo: usize = c1.offx();
            proof {
                crate::cutout::lemma_col_transfer(full, c1);
                assert(is_left_margin(*image, lo as int)) by {
                    assert(!full.col_blank(lo as int));
                    let fy = choose|y: int|
                        0 <= y < full.height && #[trigger] full.view_get(lo as int, y);
                    assert(image.spec_get(lo as int, fy));
                    assert forall|x: int| 0 <= x < lo implies !col_has_fg(*image, x) by {
                        assert(full.col_blank(x));
                        if col_has_fg(*image, x) {
                            let fy2 = choose|y: int| image.spec_get(x, y);
                            assert(!full.view_get(x, fy2));
                        }
                    }
                }
                assert(lo <= m);
            }
            let mut it = c1.pixels(false, true);
            let v = it.collect_all();
            proof {
                assert(v@ == crate::cutout::pixel_seq(c1, false, true)) by {
                    assert(crate::cutout::pixel_seq(c1, false, true).skip(0)
                        == crate::cutout::pixel_seq(c1, false, true));
                }
                assert forall|k: int| 0 <= k < v@.len() implies lo <= (#[trigger] v@[k]).x
                    < image.width && v@[k].y < image.height by {
                    assert(v@.contains(v@[k]));
                    lemma_pixel_seq_contains(c1, false, true, v@[k]);
                }
            }
            let mut shifted: Vec<Pixel> = Vec::new();
            let mut i: usize = 0;
            while i < v.len()
                invariant
                    i <= v@.len(),
                    lo <= m,
                    m <= width - image.width,
                    image.width <= width,
                    forall|k: int|
                        0 <= k < v@.len() ==> lo <= (#[trigger] v@[k]).x < image.width && v@[k].y
                            < image.height,
                    shifted@.len() == i,
                    forall|k: int|
                        0 <= k < i ==> #[trigger] shifted@[k] == (Pixel {
                            x: (v@[k].x - lo + m) as usize,
                            y: v@[k].y,
                        }),
                decreases v@.len() - i,
            {
                let p = v[i];
                shifted.push(Pixel { x: p.x - lo + m, y: p.y });
                i = i + 1;
            }
            let mut r = Image::new_empty(width, image.height());
            r.set_pixels(&shifted);
            proof {
                assert forall|lop: int| #[trigger] is_left_margin(*image, lop) implies lop
                    == lo by {
                    if lop < lo {
                        assert(!col_has_fg(*image, lop));
                    }
                    if lop > lo {
                        assert(!col_has_fg(*image, lo as int));
                    }
                }
                assert forall|ax: int, ay: int|
                    #[trigger] r.spec_get(ax, ay) == image.spec_get(ax + lo - m, ay) by {
                    let q = Pixel { x: ax as usize, y: ay as usize };
                    if 0 <= ax < width && 0 <= ay < image.height {
                        assert(r.spec_get(ax, ay) == shifted@.contains(q));
                        if image.spec_get(ax + lo - m, ay) {
                            let source = Pixel { x: (ax + lo - m) as usize, y: ay as usize };
                            assert(ax + lo - m >= lo) by {
                                if ax + lo - m < lo {
                                    assert(col_has_fg(*image, ax + lo - m)) by {
                                        assert(image.spec_get(ax + lo - m, ay));
                                    }
                                }
                            }
                            assert(c1.view_get(ax - m, ay));
                            assert(pixel_match(c1, false, ax - m, ay));
                            assert(source == pixel_at(c1, true, ax - m, ay));
                            lemma_pixel_seq_contains(c1, false, true, source);
                            assert(v@.contains(source));
                            let k = choose|k: int| 0 <= k < v@.len() && v@[k] == source;
                            assert(shifted@[k] == q);
                            assert(shifted@.contains(q));
                        }
                        if shifted@.contains(q) {
                            let k = choose|k: int| 0 <= k < shifted@.len() && shifted@[k] == q;
                            let p = v@[k];
                            assert(v@.contains(p));
                            lemma_pixel_seq_contains(c1, false, true, p);
                            let (vx, vy): (int, int) = choose|vx: int, vy: int|
                                {
                                    &&& 0 <= vx < c1.width
                                    &&& 0 <= vy < c1.height
                                    &&& #[trigger] pixel_match(c1, false, vx, vy)
                                    &&& p == pixel_at(c1, true, vx, vy)
                                };
                            assert(c1.view_get(vx, vy));
                            assert(p.x == lo + vx && p.y == vy);
                            assert(ax == vx + m && ay == vy);
                            assert(image.spec_get(ax + lo - m, ay));
                        }
                    } else {
                        if image.spec_get(ax + lo - m, ay) {
                            assert(0 <= ay < image.height);
                            assert(ax + lo - m < image.width);
                            assert(ax < m + image.width - lo);
                            assert(ax < width);
                            assert(ax + lo - m >= 0);
                            assert(ax >= 0);
                        }
                    }
                }
            }
            r
        },
    }
}

/// The cell at `(ax, ay)` lies inside the trimmed rectangle of a content
/// band of `d`: its row belongs to a maximal group of consecutive non-blank
/// rows, and its column lies between the leftmost and rightmost ink of that
/// group.
pub open spec fn in_trimmed_band(d: Image, ax: int, ay: int) -> bool {
    exists|y0: int, y1: int|
        {
            &&& #[trigger] trimmed_band_at(d, ax, ay, y0, y1)
        }
}

/// The witness form of [`in_trimmed_band`].
pub open spec fn trimmed_band_at(d: Image, ax: int, ay: int, y0: int, y1: int) -> bool {
    &&& 0 <= y0 <= ay < y1 <= d.height
    &&& forall|yy: int| y0 <= yy < y1 ==> !row_all_blank(d, yy)
    &&& (y0 == 0 || row_all_blank(d, y0 - 1))
    &&& (y1 == d.height || row_all_blank(d, y1))
    &&& exists|x1: int, yy1: int| x1 <= ax && y0 <= yy1 < y1 && d.spec_get(x1, yy1)
    &&& exists|x2: int, yy2: int| ax <= x2 && y0 <= yy2 < y1 && d.spec_get(x2, yy2)
}

/// Copies the details grid into `image`, band by band: each content band of
/// `details` is trimmed to its inked columns, and inside that rectangle the
/// details replace the page's cells outright (ink is added, background
/// clears what the page had there).  Outside the trimmed bands the page is
/// untouched.
pub fn add_colored_details(image: &mut Image, details: &Image)
    requires
        old(image).wf(),
        details.wf(),
    ensures
        final(image).wf(),
        final(image).width == old(image).width,
        final(image).height == old(image).height,
        forall|ax: int, ay: int|
            #[trigger] final(image).spec_get(ax, ay) == (if 0 <= ax < old(image).width && 0 <= ay
                < old(image).height && in_trimmed_band(*details, ax, ay) {
                details.spec_get(ax, ay)
            } else {
                old(image).spec_get(ax, ay)
            }),
{
    let full = details.full_cutout();
    let bands = full.segment_into_bands();
    let mut i: usize = 0;
    let ghost img0 = *old(image);
    while i < bands.len()
        invariant
            image.wf(),
            details.wf(),
            image.width == img0.width,
            image.height == img0.height,
            full.wf(),
            full.image == details,
            full.offx == 0,
            full.offy == 0,
            full.width == details.width,
            full.height == details.height,
            i <= bands@.len(),
            forall|k: int|
                0 <= k < bands@.len() ==> {
                    let b = #[trigger] bands@[k];
                    &&& b.wf()
                    &&& b.image == details
                    &&& b.offx == 0
                    &&& b.width == details.width
                    &&& b.height >= 1
                    &&& b.offy + b.height <= details.height
                    &&& (forall|j: int| 0 <= j < b.height ==> !b.row_blank(j))
                    &&& (b.offy == 0 || full.row_blank(b.offy - 1))
                    &&& (b.offy + b.height == details.height || full.row_blank(
                        b.offy + b.height as int,
                    ))
                },
            forall|x: int, y: int|
                full.view_get(x, y) ==> exists|k: int|
                    0 <= k < bands@.len() && (#[trigger] bands@[k]).offy <= y < bands@[k].offy
                        + bands@[k].height,
            forall|ax: int, ay: int|
                #[trigger] image.spec_get(ax, ay) == (if 0 <= ax < img0.width && 0 <= ay
                    < img0.height && covered_by_processed(*details, bands@, i as int, ax, ay) {
                    details.spec_get(ax, ay)
                } else {
                    img0.spec_get(ax, ay)
                }),
        decreases bands@.len() - i,
    {
        let band = bands[i];
        proof {
            assert(!band.all_blank()) by {
                assert(!band.row_blank(0));
                let fx = choose|x: int| 0 <= x < band.width && #[trigger] band.view_get(x, 0);
                assert(band.view_get(fx, 0));
            }
        }
        let tl = match band.trimm_left() {
            None => band,
            Some(c) => c,
        };
        proof {
            crate::cutout::lemma_col_transfer(band, tl);
            assert(!tl.all_blank()) by {
                assert(!band.col_blank(tl.offx - band.offx));
                assert(!tl.col_blank(0));
                let fy = choose|y: int| 0 <= y < tl.height && #[trigger] tl.view_get(0, y);
                assert(tl.view_get(0, fy));
            }
        }
        let part = match tl.trimm_right() {
            None => tl,
            Some(c) => c,
        };
        proof {
            crate::cutout::lemma_col_transfer(tl, part);
            crate::cutout::lemma_col_transfer(band, part);
        }
        let mut fg_it = part.pixels(false, true);
        let fg = fg_it.collect_all();
        let mut bg_it = part.pixels(true, true);
        let bg = bg_it.collect_all();
        proof {
            assert(fg@ == crate::cutout::pixel_seq(part, false, true)) by {
                assert(crate::cutout::pixel_seq(part, false, true).skip(0)
                    == crate::cutout::pixel_seq(part, false, true));
            }
            assert(bg@ == crate::cutout::pixel_seq(part, true, true)) by {
                assert(crate::cutout::pixel_seq(part, true, true).skip(0)
                    == crate::cutout::pixel_seq(part, true, true));
            }
        }
        let ghost mid0 = *image;
        image.set_pixels(&fg);
        let ghost mid1 = *image;
        image.clear_pixels(&bg);
        proof {
            assert forall|ax: int, ay: int|
                #[trigger] image.spec_get(ax, ay) == (if 0 <= ax < img0.width && 0 <= ay
                    < img0.height && covered_by_processed(*details, bands@, i + 1, ax, ay) {
                    details.spec_get(ax, ay)
                } else {
                    img0.spec_get(ax, ay)
                }) by {
                let q = Pixel { x: ax as usize, y: ay as usize };
                lemma_pixel_seq_contains(part, false, true, q);
                lemma_pixel_seq_contains(part, true, true, q);
                let in_part = part.offx <= ax < part.offx + part.width && part.offy <= ay
                    < part.offy + part.height;
                if 0 <= ax < img0.width && 0 <= ay < img0.height {
                    if in_part {
                        let vx = ax - part.offx;
                        let vy = ay - part.offy;
                        assert(q == pixel_at(part, true, vx, vy));
                        if part.view_get(vx, vy) {
                            assert(pixel_match(part, false, vx, vy));
                            assert(fg@.contains(q));
                        } else {
                            assert(pixel_match(part, true, vx, vy));
                            assert(bg@.contains(q));
                        }
                        if fg@.contains(q) {
                            let (wx, wy): (int, int) = choose|wx: int, wy: int|
                                {
                                    &&& 0 <= wx < part.width
                                    &&& 0 <= wy < part.height
                                    &&& #[trigger] pixel_match(part, false, wx, wy)
                                    &&& q == pixel_at(part, true, wx, wy)
                                };
                            assert(wx == vx && wy == vy);
                        }
                        if bg@.contains(q) {
                            let (wx, wy): (int, int) = choose|wx: int, wy: int|
                                {
                                    &&& 0 <= wx < part.width
                                    &&& 0 <= wy < part.height
                                    &&& #[trigger] pixel_match(part, true, wx, wy)
                                    &&& q == pixel_at(part, true, wx, wy)
                                };
                            assert(wx == vx && wy == vy);
                        }
                        assert(fg@.contains(q) == (part.view_get(ax - part.offx, ay - part.offy)));
                        assert(bg@.contains(q) == (!part.view_get(
                            ax - part.offx,
                            ay - part.offy,
                        )));
                        assert(image.spec_get(ax, ay) == details.spec_get(ax, ay)) by {
                            if part.view_get(ax - part.offx, ay - part.offy) {
                                assert(mid1.spec_get(ax, ay));
                                assert(!bg@.contains(q));
                                assert(details.spec_get(ax, ay));
                            } else {
                                assert(bg@.contains(q));
                                assert(!image.spec_get(ax, ay));
                                assert(!details.spec_get(ax, ay));
                            }
                        }
                        assert(covered_by_processed(*details, bands@, i + 1, ax, ay)) by {
                            assert(part_covers(*details, bands@[i as int], ax, ay)) by {
                                lemma_part_cols(*details, bands@[i as int], band, tl, part, ax);
                            }
                        }
                    } else {
                        assert(!fg@.contains(q) && !bg@.contains(q)) by {
                            if fg@.contains(q) || bg@.contains(q) {
                                let (wx, wy, inv): (int, int, bool) = choose|
                                    wx: int,
                                    wy: int,
                                    inv: bool,
                                |
                                    {
                                        &&& 0 <= wx < part.width
                                        &&& 0 <= wy < part.height
                                        &&& #[trigger] pixel_match(part, inv, wx, wy)
                                        &&& q == pixel_at(part, true, wx, wy)
                                    };
                                assert(ax == part.offx + wx && ay == part.offy + wy);
                            }
                        }
                        assert(image.spec_get(ax, ay) == mid0.spec_get(ax, ay));
                        assert(covered_by_processed(*details, bands@, i + 1, ax, ay)
                            == covered_by_processed(*details, bands@, i as int, ax, ay)) by {
                            if covered_by_processed(*details, bands@, i + 1, ax, ay) {
                                let k = choose|k: int|
                                    0 <= k < i + 1 && part_covers(
                                        *details,
                                        #[trigger] bands@[k],
                                        ax,
                                        ay,
                                    );
                                if k == i {
                                    lemma_part_cols(*details, bands@[i as int], band, tl, part, ax);
                                }
                            }
                        }
                    }
                }
            }
        }
        i = i + 1;
    }
    proof {
        assert forall|ax: int, ay: int|
            #[trigger] image.spec_get(ax, ay) == (if 0 <= ax < img0.width && 0 <= ay < img0.height
                && in_trimmed_band(*details, ax, ay) {
                details.spec_get(ax, ay)
            } else {
                img0.spec_get(ax, ay)
            }) by {
            if 0 <= ax < img0.width && 0 <= ay < img0.height {
                if covered_by_processed(*details, bands@, bands@.len() as int, ax, ay) {
                    let k = choose|k: int|
                        0 <= k < bands@.len() && part_covers(*details, #[trigger] bands@[k], ax, ay);
                    lemma_covered_is_trimmed(*details, full, bands@[k], ax, ay);
                }
                if in_trimmed_band(*details, ax, ay) {
                    let (y0, y1): (int, int) = choose|y0: int, y1: int|
                        #[trigger] trimmed_band_at(*details, ax, ay, y0, y1);
                    assert(!row_all_blank(*details, ay));
                    let fx = choose|x: int| #[trigger] details.spec_get(x, ay);
                    assert(full.view_get(fx, ay));
                    let k = choose|k: int|
                        0 <= k < bands@.len() && (#[trigger] bands@[k]).offy <= ay < bands@[k].offy
                            + bands@[k].height;
                    lemma_band_matches_witness(*details, full, bands@[k], ay, y0, y1);
                    assert(part_covers(*details, bands@[k], ax, ay)) by {
                        let (x1, yy1): (int, int) = choose|x1: int, yy1: int|
                            x1 <= ax && y0 <= yy1 < y1 && details.spec_get(x1, yy1);
                        let (x2, yy2): (int, int) = choose|x2: int, yy2: int|
                            ax <= x2 && y0 <= yy2 < y1 && details.spec_get(x2, yy2);
                    }
                    assert(covered_by_processed(
                        *details,
                        bands@,
                        bands@.len() as int,
                        ax,
                        ay,
                    ));
                }
            }
        }
    }
}

/// The cell lies in the trimmed rectangle of this band: within the band's
/// rows, with ink at or left of it and at or right of it somewhere in the
/// band.
pub open spec fn part_covers(d: Image, b: Cutout, ax: int, ay: int) -> bool {
    &&& b.offy <= ay < b.offy + b.height
    &&& exists|x1: int, yy1: int|
        x1 <= ax && b.offy <= yy1 < b.offy + b.height && d.spec_get(x1, yy1)
    &&& exists|x2: int, yy2: int|
        ax <= x2 && b.offy <= yy2 < b.offy + b.height && d.spec_get(x2, yy2)
}

/// Some band among the first `n` covers the cell.
pub open spec fn covered_by_processed(
    d: Image,
    bands: Seq<Cutout>,
    n: int,
    ax: int,
    ay: int,
) -> bool {
    exists|k: int| 0 <= k < n && part_covers(d, #[trigger] bands[k], ax, ay)
}

/// The trimmed rectangle of a band covers exactly the columns between its
/// leftmost and rightmost ink.
proof fn lemma_part_cols(d: Image, b: Cutout, band: Cutout, tl: Cutout, part: Cutout, ax: int)
    requires
        d.wf(),
        b == band,
        band.wf(),
        band.image == d,
        band.offx == 0,
        band.width == d.width,
        tl.wf(),
        tl.image == d,
        tl.offy == band.offy,
        tl.height == band.height,
        1 <= tl.width <= band.width,
        tl.offx + tl.width == band.offx + band.width,
        forall|x: int| 0 <= x < band.width - tl.width ==> band.col_blank(x),
        !band.col_blank(band.width - tl.width),
        part.wf(),
        part.image == d,
        part.offy == tl.offy,
        part.height == tl.height,
        part.offx == tl.offx,
        1 <= part.width <= tl.width,
        forall|x: int| part.width <= x < tl.width ==> tl.col_blank(x),
        !tl.col_blank(part.width - 1),
    ensures
        part_covers(d, b, ax, band.offy as int) ==> part.offx <= ax < part.offx + part.width,
        (part.offx <= ax < part.offx + part.width) ==> (exists|x1: int, yy1: int|
            x1 <= ax && band.offy <= yy1 < band.offy + band.height && d.spec_get(x1, yy1)) && (
        exists|x2: int, yy2: int|
            ax <= x2 && band.offy <= yy2 < band.offy + band.height && d.spec_get(x2, yy2)),
{
    let lo = part.offx as int;
    let hi: int = part.offx + part.width - 1;
    assert(!band.col_blank(lo - band.offx));
    let fy1 = choose|y: int|
        0 <= y < band.height && #[trigger] band.view_get(lo - band.offx, y);
    assert(d.spec_get(lo, band.offy + fy1));
    assert(!tl.col_blank(part.width - 1));
    let fy2 = choose|y: int|
        0 <= y < tl.height && #[trigger] tl.view_get(part.width - 1, y);
    assert(d.spec_get(hi, tl.offy + fy2));
    if part.offx <= ax < part.offx + part.width {
        assert(lo <= ax && ax <= hi);
    }
    if part_covers(d, b, ax, band.offy as int) {
        let (x1, yy1): (int, int) = choose|x1: int, yy1: int|
            x1 <= ax && band.offy <= yy1 < band.offy + band.height && d.spec_get(x1, yy1);
        let (x2, yy2): (int, int) = choose|x2: int, yy2: int|
            ax <= x2 && band.offy <= yy2 < band.offy + band.height && d.spec_get(x2, yy2);
        assert(part.offx <= ax) by {
            if ax < part.offx {
                assert(x1 < part.offx);
                if x1 < band.offx {
                    assert(!d.spec_get(x1, yy1));
                } else {
                    assert(band.col_blank(x1 - band.offx));
                    assert(!band.view_get(x1 - band.offx, yy1 - band.offy));
                }
            }
        }
        assert(ax < part.offx + part.width) by {
            if ax >= part.offx + part.width {
                assert(x2 >= part.offx + part.width);
                if x2 >= band.offx + band.width {
                    assert(!d.spec_get(x2, yy2));
                } else {
                    assert(tl.col_blank(x2 - tl.offx));
                    assert(!tl.view_get(x2 - tl.offx, yy2 - tl.offy));
                }
            }
        }
    }
}

/// A cell covered by a band's trimmed rectangle lies in a trimmed band of
/// the grid.
proof fn lemma_covered_is_trimmed(d: Image, full: Cutout, b: Cutout, ax: int, ay: int)
    requires
        d.wf(),
        full.image == d,
        full.offx == 0,
        full.offy == 0,
        full.width == d.width,
        full.height == d.height,
        b.wf(),
        b.image == d,
        b.offx == 0,
        b.width == d.width,
        b.height >= 1,
        b.offy + b.height <= d.height,
        forall|j: int| 0 <= j < b.height ==> !b.row_blank(j),
        b.offy == 0 || full.row_blank(b.offy - 1),
        b.offy + b.height == d.height || full.row_blank(b.offy + b.height as int),
        part_covers(d, b, ax, ay),
    ensures
        in_trimmed_band(d, ax, ay),
{
    let y0: int = b.offy as int;
    let y1: int = b.offy + b.height;
    assert forall|yy: int| y0 <= yy < y1 implies !row_all_blank(d, yy) by {
        assert(!b.row_blank(yy - b.offy));
        let fx = choose|x: int| 0 <= x < b.width && #[trigger] b.view_get(x, yy - b.offy);
        assert(d.spec_get(fx, yy));
    }
    if y0 != 0 {
        lemma_full_row_blank(d, full, y0 - 1);
    }
    if y1 != d.height {
        lemma_full_row_blank(d, full, y1);
    }
    assert(trimmed_band_at(d, ax, ay, y0, y1));
}

} // verus!
