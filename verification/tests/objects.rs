use scanclean::image::Image;
use scanclean::object::{
    grow_from, simple_from_pixels, IntoPixelsToOneHeightRectangles, Object, Pixel, Rectangle,
    RectangleCollection, RectangleCollectionPixelIterator, RectanglePixelIterator, SimpleObject,
};

fn grid(width: usize, height: usize, fg: &[(usize, usize)]) -> Image {
    let mut img = Image::new_empty(width, height);
    for &(x, y) in fg {
        img.set(x, y, true);
    }
    img
}

#[allow(non_snake_case)]
#[test]
fn rectanglePixelIterator() {
    let rectangle = Rectangle::new(0, 0, 0, 0);
    let pixels = vec![Pixel::new(0, 0)];
    assert_eq!(rectangle.pixels_vec(), pixels)
}

#[allow(non_snake_case)]
#[test]
fn pixelsToOneHeightRectangles() {
    let pixels = vec![
        Pixel::new(0, 0),
        Pixel::new(1, 0),
        Pixel::new(3, 0),
        Pixel::new(4, 0),
        Pixel::new(5, 0),
        Pixel::new(2, 1),
    ];
    let rectangles = vec![
        Rectangle::new(0, 1, 0, 0),
        Rectangle::new(3, 5, 0, 0),
        Rectangle::new(2, 2, 1, 1),
    ];
    let mut it = pixels.to_one_height_rectangles();
    let mut collected: Vec<Rectangle> = Vec::new();
    while let Some(rect) = it.next() {
        collected.push(rect);
    }
    assert_eq!(collected, rectangles)
}

#[test]
fn scanline_merges_interval_overlapping_runs() {
    // width 6, height 2; row 0 inked at x in {0,1,3,4,5}; row 1 inked at x=2:
    // both row-0 runs touch the row-1 run through interval overlap, so one
    // collection holds all six pixels.
    let img = grid(6, 2, &[(0, 0), (1, 0), (3, 0), (4, 0), (5, 0), (2, 1)]);
    let collections = img.full_cutout().objects();
    assert_eq!(collections.len(), 1);
    let c = &collections[0];
    assert_eq!(c.size, 6);
    assert_eq!(c.xmin, 0);
    assert_eq!(c.xmax, 5);
    assert_eq!(c.ymin, 0);
    assert_eq!(c.ymax, 1);
}

#[test]
fn scanline_separates_distant_objects() {
    let img = grid(7, 3, &[(0, 0), (0, 1), (5, 2), (6, 2)]);
    let mut collections = img.full_cutout().objects();
    assert_eq!(collections.len(), 2);
    collections.sort_by_key(|c| c.xmin);
    assert_eq!((collections[0].xmin, collections[0].xmax), (0, 0));
    assert_eq!(collections[0].size, 2);
    assert_eq!((collections[1].xmin, collections[1].xmax), (5, 6));
    assert_eq!(collections[1].size, 2);
}

#[test]
fn scanline_merges_fork_rejoin() {
    // A shape that forks in one row and rejoins two rows later.
    let img = grid(
        3,
        3,
        &[(0, 0), (1, 0), (2, 0), (0, 1), (2, 1), (0, 2), (1, 2), (2, 2)],
    );
    let collections = img.full_cutout().objects();
    assert_eq!(collections.len(), 1);
    assert_eq!(collections[0].size, 8);
}

fn sorted_pixels(mut v: Vec<Pixel>) -> Vec<Pixel> {
    v.sort_by_key(|p| (p.y, p.x));
    v
}

#[test]
fn scanline_agrees_with_flood_fill() {
    // Two blobs without diagonal-only contact: the scanline partition and
    // repeated flood fill give the same groups.
    let cells = [(1, 0), (1, 1), (2, 1), (4, 0), (4, 1), (4, 2), (0, 3)];
    let img = grid(6, 4, &cells);
    let collections = img.full_cutout().objects();

    let mut flood_groups: Vec<Vec<Pixel>> = Vec::new();
    let mut visited = SimpleObject::new();
    for &(x, y) in &cells {
        let p = Pixel::new(x, y);
        if visited.has_pixel(&p) {
            continue;
        }
        let group = grow_from(&vec![p], &img, None).unwrap();
        for q in group.pixels_vec() {
            visited.add_pixel(q);
        }
        flood_groups.push(sorted_pixels(group.pixels_vec()));
    }

    let mut scan_groups: Vec<Vec<Pixel>> = collections
        .into_iter()
        .map(|c| sorted_pixels(c.object().pixels_vec()))
        .collect();
    scan_groups.sort_by_key(|g| g.first().map(|p| (p.y, p.x)));
    flood_groups.sort_by_key(|g| g.first().map(|p| (p.y, p.x)));
    assert_eq!(scan_groups, flood_groups);
}

#[test]
fn flood_fill_respects_size_bound() {
    let img = grid(4, 1, &[(0, 0), (1, 0), (2, 0)]);
    let seed = vec![Pixel::new(0, 0)];
    assert!(grow_from(&seed, &img, Some(2)).is_none());
    let grown = grow_from(&seed, &img, Some(3)).unwrap();
    assert_eq!(grown.size(), 3);
    let unbounded = grow_from(&seed, &img, None).unwrap();
    assert_eq!(
        sorted_pixels(unbounded.pixels_vec()),
        vec![Pixel::new(0, 0), Pixel::new(1, 0), Pixel::new(2, 0)]
    );
}

#[test]
fn flood_fill_skips_background_seed() {
    let img = grid(3, 1, &[(0, 0)]);
    let grown = grow_from(&vec![Pixel::new(2, 0)], &img, None).unwrap();
    assert_eq!(grown.size(), 0);
}

#[test]
fn simple_object_tracks_box_and_size() {
    let mut obj = SimpleObject::new();
    assert!(obj.add_pixel(Pixel::new(3, 4)));
    assert!(obj.add_pixel(Pixel::new(1, 6)));
    assert!(!obj.add_pixel(Pixel::new(3, 4)));
    assert_eq!(obj.size(), 2);
    assert_eq!((obj.xmin(), obj.xmax(), obj.ymin(), obj.ymax()), (1, 3, 4, 6));
    assert!(obj.has_pixel(&Pixel::new(1, 6)));
    assert!(!obj.has_pixel(&Pixel::new(1, 4)));
}

#[test]
fn border_touch_and_inward_shift() {
    let touching = simple_from_pixels(&vec![Pixel::new(0, 2), Pixel::new(1, 2)]);
    assert!(touching.touches_border(6, 6, 0, 0));
    let shifted = simple_from_pixels(&vec![Pixel::new(1, 3), Pixel::new(2, 3)]);
    assert!(!shifted.touches_border(6, 6, 0, 0));
}

#[test]
fn rectangle_reports_box_and_size() {
    let rect = Rectangle::new(2, 4, 1, 2);
    assert_eq!(rect.size(), 6);
    assert_eq!(rect.width(), 3);
    assert_eq!(rect.height(), 2);
    assert!(rect.touches_border(5, 5, 0, 0));
    assert!(!rect.touches_border(6, 6, 0, 0));
}

#[test]
fn collection_grows_and_converts() {
    let mut c = RectangleCollection::new(Rectangle::new(1, 2, 0, 0));
    c.add_rectangle(Rectangle::new(1, 1, 1, 1));
    assert_eq!(c.size, 3);
    assert_eq!((c.xmin, c.xmax, c.ymin, c.ymax), (1, 2, 0, 1));
    assert!(c.bottom_touch(&Rectangle::new(2, 3, 2, 2)));
    assert!(!c.bottom_touch(&Rectangle::new(4, 5, 2, 2)));
    let obj = c.object();
    assert_eq!(obj.size(), 3);
    assert_eq!(
        sorted_pixels(obj.pixels_vec()),
        vec![Pixel::new(1, 0), Pixel::new(2, 0), Pixel::new(1, 1)]
    );
}

#[test]
fn object_renders_to_minimal_image() {
    let obj = simple_from_pixels(&vec![Pixel::new(2, 3), Pixel::new(3, 3)]);
    let img = obj.to_image();
    assert_eq!((img.width(), img.height()), (2, 1));
    assert!(img.get(0, 0));
    assert!(img.get(1, 0));
}

#[test]
fn pixel_arithmetic() {
    let p = Pixel::new(2, 5);
    assert_eq!(p.addx(3), Pixel::new(5, 5));
    assert_eq!(p.subx(1), Pixel::new(1, 5));
    assert_eq!(p.addy(1), Pixel::new(2, 6));
    assert_eq!(p.suby(5), Pixel::new(2, 0));
    assert_eq!((p.x(), p.y()), (2, 5));
    assert_eq!(p.to_simple_object().size(), 1);
}

#[test]
fn rectangle_pixel_cursor_walks_row_major() {
    let mut it = RectanglePixelIterator::new(&Rectangle::new(1, 2, 0, 1));
    assert_eq!(it.next(), Some(Pixel::new(1, 0)));
    assert_eq!(it.next(), Some(Pixel::new(2, 0)));
    assert_eq!(it.next(), Some(Pixel::new(1, 1)));
    assert_eq!(it.next(), Some(Pixel::new(2, 1)));
    assert_eq!(it.next(), None);
}

#[test]
fn collection_pixel_cursor_yields_each_pixel_once() {
    let mut c = RectangleCollection::new(Rectangle::new(0, 1, 0, 0));
    c.add_rectangle(Rectangle::new(1, 1, 1, 1));
    let mut it = RectangleCollectionPixelIterator::new(&c);
    let mut seen: Vec<Pixel> = Vec::new();
    while let Some(p) = it.next() {
        seen.push(p);
    }
    assert_eq!(
        sorted_pixels(seen),
        vec![Pixel::new(0, 0), Pixel::new(1, 0), Pixel::new(1, 1)]
    );
}
