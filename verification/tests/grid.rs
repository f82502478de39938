use scanclean::image::{Image, ImageError};

fn grid(width: usize, height: usize, fg: &[(usize, usize)]) -> Image {
    let mut img = Image::new_empty(width, height);
    for &(x, y) in fg {
        img.set(x, y, true);
    }
    img
}

#[test]
fn out_of_range_access_is_harmless() {
    let mut img = Image::new_empty(3, 2);
    assert!(!img.get(5, 0));
    assert!(!img.get(0, 7));
    img.set(5, 0, true);
    img.set(0, 7, true);
    for y in 0..2 {
        for x in 0..3 {
            assert!(!img.get(x, y));
        }
    }
}

#[test]
fn new_wraps_row_major_cells() {
    let img = Image::new(2, 2, vec![true, false, false, true]);
    assert!(img.get(0, 0));
    assert!(!img.get(1, 0));
    assert!(!img.get(0, 1));
    assert!(img.get(1, 1));
}

#[test]
fn and_combines_equal_grids() {
    let a = grid(2, 2, &[(0, 0), (1, 0)]);
    let b = grid(2, 2, &[(1, 0), (1, 1)]);
    let c = a.and(&b).unwrap();
    assert!(!c.get(0, 0));
    assert!(c.get(1, 0));
    assert!(!c.get(1, 1));
    let d = grid(3, 2, &[]);
    assert_eq!(a.and(&d).unwrap_err(), ImageError::DimensionMismatch);
}

#[test]
fn checked_cutout_rejects_overflowing_views() {
    let img = grid(4, 3, &[]);
    assert!(img.cutout(2, 2, 2, 1).is_ok());
    assert_eq!(img.cutout(3, 1, 2, 0).unwrap_err(), ImageError::DimensionMismatch);
}

#[test]
fn blank_round_trip() {
    // A fully blank view: blank test true, all four trims report no content.
    let img = grid(4, 3, &[]);
    let full = img.full_cutout();
    assert!(full.is_blank());
    assert!(full.trimm_top().is_none());
    assert!(full.trimm_bottom().is_none());
    assert!(full.trimm_left().is_none());
    assert!(full.trimm_right().is_none());
}

#[test]
fn trim_without_margin_keeps_the_view() {
    // Ink on every edge: each trim returns the same extent and offsets.
    let img = grid(3, 3, &[(0, 0), (2, 0), (0, 2), (2, 2)]);
    let full = img.full_cutout();
    for c in [
        full.trimm_top().unwrap(),
        full.trimm_bottom().unwrap(),
        full.trimm_left().unwrap(),
        full.trimm_right().unwrap(),
    ] {
        assert_eq!((c.width(), c.height(), c.offx(), c.offy()), (3, 3, 0, 0));
    }
}

#[test]
fn trims_drop_blank_margins() {
    let img = grid(5, 5, &[(2, 1), (3, 2)]);
    let full = img.full_cutout();
    let top = full.trimm_top().unwrap();
    assert_eq!((top.offy(), top.height()), (1, 4));
    let bottom = full.trimm_bottom().unwrap();
    assert_eq!((bottom.offy(), bottom.height()), (0, 3));
    let left = full.trimm_left().unwrap();
    assert_eq!((left.offx(), left.width()), (2, 3));
    let right = full.trimm_right().unwrap();
    assert_eq!((right.offx(), right.width()), (0, 4));
}

#[test]
fn till_blank_line_cuts_at_first_blank_row() {
    let img = grid(3, 4, &[(0, 0), (1, 1), (2, 3)]);
    let part = img.full_cutout().till_blank_line().unwrap();
    assert_eq!((part.offy(), part.height()), (0, 2));
    let solid = grid(2, 2, &[(0, 0), (0, 1)]);
    assert!(solid.full_cutout().till_blank_line().is_none());
}

#[test]
fn single_pixel_yields_single_band() {
    // width 5, height 3, blank but for one pixel at (2,1): exactly one band
    // of height 1 at row offset 1.
    let img = grid(5, 3, &[(2, 1)]);
    let bands = img.full_cutout().segment_into_bands();
    assert_eq!(bands.len(), 1);
    assert_eq!((bands[0].offy(), bands[0].height()), (1, 1));
    let mut it = img.full_cutout().yparts();
    let band = it.next().unwrap();
    assert_eq!((band.offy(), band.height()), (1, 1));
    assert!(it.next().is_none());
}

#[test]
fn bands_cover_all_content_in_order() {
    let img = grid(4, 7, &[(0, 0), (1, 2), (2, 3), (3, 6)]);
    let bands = img.full_cutout().segment_into_bands();
    assert_eq!(bands.len(), 3);
    assert_eq!((bands[0].offy(), bands[0].height()), (0, 1));
    assert_eq!((bands[1].offy(), bands[1].height()), (2, 2));
    assert_eq!((bands[2].offy(), bands[2].height()), (6, 1));
}

#[test]
fn cutout_reads_relative_and_iterates() {
    let img = grid(4, 3, &[(1, 1), (2, 1)]);
    let c = img.full_cutout().cutout(2, 2, 1, 0);
    assert!(!c.get(0, 0));
    assert!(c.get(0, 1));
    assert!(c.get(1, 1));
    assert!(!c.get(5, 5));
    let copy = c.to_image();
    assert_eq!((copy.width(), copy.height()), (2, 2));
    assert!(copy.get(0, 1) && copy.get(1, 1) && !copy.get(0, 0));

    let mut lines = c.lines(false);
    let first = lines.next().unwrap();
    assert_eq!((first.offy(), first.height(), first.width()), (0, 1, 2));
    let second = lines.next().unwrap();
    assert_eq!(second.offy(), 1);
    assert!(lines.next().is_none());

    let mut cols = c.columns(true);
    let last_col = cols.next().unwrap();
    assert_eq!((last_col.offx(), last_col.width()), (2, 1));

    let mut pixels = c.pixels(false, true);
    assert_eq!(pixels.next(), Some(scanclean::object::Pixel::new(1, 1)));
    assert_eq!(pixels.next(), Some(scanclean::object::Pixel::new(2, 1)));
    assert_eq!(pixels.next(), None);
    let mut relative = c.pixels(false, false);
    assert_eq!(relative.next(), Some(scanclean::object::Pixel::new(0, 1)));
    let mut inverted = c.pixels(true, false);
    assert_eq!(inverted.next(), Some(scanclean::object::Pixel::new(0, 0)));
}

#[test]
fn neighbors_counts_axis_neighbours() {
    let img = grid(3, 3, &[(1, 0), (0, 1), (2, 1), (1, 2)]);
    let full = img.full_cutout();
    assert_eq!(full.neighbors(1, 1), 4);
    assert_eq!(full.neighbors(0, 0), 2);
    assert_eq!(full.neighbors(0, 1), 0);
}

#[test]
fn fill_border_seals_edges() {
    let img = {
        let mut img = grid(3, 3, &[(1, 1)]);
        img.fill_border();
        img
    };
    for y in 0..3 {
        for x in 0..3 {
            assert!(img.get(x, y));
        }
    }
    let mut ring = grid(3, 3, &[(0, 0), (1, 0), (2, 0), (0, 1), (2, 1), (0, 2), (1, 2), (2, 2)]);
    ring.fill_border();
    assert!(!ring.get(1, 1));
}

#[test]
fn overwrite_composites_with_clipping() {
    let mut base = grid(3, 3, &[(0, 0)]);
    let stamp = grid(2, 2, &[(0, 0), (1, 1)]);
    base.overwrite(&stamp, 2, 2);
    assert!(base.get(2, 2));
    assert!(base.get(0, 0));
    assert!(!base.get(1, 1));
}

#[test]
fn set_and_clear_pixel_lists() {
    let mut img = grid(3, 2, &[]);
    img.set_pixels(&vec![
        scanclean::object::Pixel::new(0, 0),
        scanclean::object::Pixel::new(2, 1),
        scanclean::object::Pixel::new(9, 9),
    ]);
    assert!(img.get(0, 0) && img.get(2, 1));
    img.clear_pixels(&vec![scanclean::object::Pixel::new(0, 0)]);
    assert!(!img.get(0, 0));
    assert!(img.get(2, 1));
}

#[test]
fn diff_down_up_marks_lower_run_ends() {
    let img = grid(2, 3, &[(0, 0), (0, 1), (1, 2)]);
    let d = img.diff_down_up();
    assert!(!d.get(0, 0));
    assert!(d.get(0, 1));
    assert!(!d.get(1, 2));
}

#[test]
fn clear_borders_clamp() {
    let mut img = grid(4, 2, &[(0, 0), (1, 0), (2, 0), (3, 1)]);
    img.clear_border_left(1);
    assert!(!img.get(0, 0) && img.get(1, 0));
    img.clear_border_right(2);
    assert!(!img.get(3, 1) && !img.get(2, 0) && img.get(1, 0));
    let mut tiny = grid(2, 1, &[(0, 0), (1, 0)]);
    tiny.clear_border_left(10);
    assert!(!tiny.get(0, 0) && !tiny.get(1, 0));
}

#[test]
fn padding_centres_content() {
    let img = grid(3, 1, &[(1, 0)]);
    let padded = img.horizontal_padding(7);
    assert_eq!((padded.width(), padded.height()), (7, 1));
    for x in 0..7 {
        assert_eq!(padded.get(x, 0), x == 3);
    }
    let blank = grid(3, 2, &[]);
    let padded_blank = blank.horizontal_padding(5);
    assert!(padded_blank.full_cutout().is_blank());
    assert_eq!(padded_blank.width(), 5);
}

#[test]
fn padding_narrower_target_shifts_content_left() {
    // A page wider than the target whose trimmed content still fits: the
    // two content columns move to margin (4 - 2) / 2 = 1.
    let img = grid(6, 1, &[(2, 0), (3, 0)]);
    let padded = img.horizontal_padding(4);
    assert_eq!(padded.width(), 4);
    for x in 0..4 {
        assert_eq!(padded.get(x, 0), x == 1 || x == 2);
    }
}
