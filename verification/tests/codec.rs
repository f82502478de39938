use scanclean::decoder::IndexedDecoder;
use scanclean::encoder::OneBitEncoder;
use scanclean::image::Image;
use scanclean::ops::{add_colored_details, horizontal_padding, remove_salt_and_pepper};

fn grid(width: usize, height: usize, fg: &[(usize, usize)]) -> Image {
    let mut img = Image::new_empty(width, height);
    for &(x, y) in fg {
        img.set(x, y, true);
    }
    img
}

#[test]
fn encoder_packs_ink_as_zero_bits() {
    // Ink encodes as 0, paper as 1, most significant bit first.
    let row = [true, false, false, true];
    let mut enc = OneBitEncoder::new(&row);
    // bits: 0 1 1 0, then four padding 0 bits.
    assert_eq!(enc.next(), Some(0b0110_0000));
    assert_eq!(enc.next(), None);
}

#[test]
fn encoder_splits_long_rows() {
    let row = [false; 9];
    let mut enc = OneBitEncoder::new(&row);
    assert_eq!(enc.next(), Some(0xFF));
    // one paper bit, then seven padding 0 bits
    assert_eq!(enc.next(), Some(0b1000_0000));
    assert_eq!(enc.next(), None);
}

#[test]
fn encoder_all_ink_is_zero() {
    let row = [true; 8];
    let mut enc = OneBitEncoder::new(&row);
    assert_eq!(enc.next(), Some(0x00));
    assert_eq!(enc.next(), None);
}

#[test]
fn decoder_looks_indices_up() {
    let palette = [true, false, true];
    let row: [u8; 3] = [0, 2, 1];
    let mut dec = IndexedDecoder::new(&palette, &row);
    assert_eq!(dec.next(), Some(true));
    assert_eq!(dec.next(), Some(true));
    assert_eq!(dec.next(), Some(false));
    assert_eq!(dec.next(), None);
}

#[test]
fn salt_and_pepper_drops_short_bands() {
    // Rows 0-1 form a tall band, row 3 a single-row speck.
    let mut img = grid(3, 5, &[(0, 0), (1, 1), (2, 3)]);
    let cleaned = remove_salt_and_pepper(&mut img, 1);
    assert!(cleaned.get(0, 0));
    assert!(cleaned.get(1, 1));
    assert!(!cleaned.get(2, 3));
    // the input grid is untouched
    assert!(img.get(2, 3));
}

#[test]
fn salt_and_pepper_zero_threshold_keeps_all() {
    let mut img = grid(3, 5, &[(0, 0), (2, 3)]);
    let cleaned = remove_salt_and_pepper(&mut img, 0);
    assert!(cleaned.get(0, 0));
    assert!(cleaned.get(2, 3));
}

#[test]
fn free_padding_centres_by_page_width() {
    // Page 4 wide with its content starting at column 1; padded to width 8
    // the left margin becomes (8 - 4) / 2 = 2, so the content shifts by 1.
    let img = grid(4, 2, &[(1, 0), (2, 1)]);
    let padded = horizontal_padding(&img, 8);
    assert_eq!(padded.width(), 8);
    assert!(padded.get(2, 0));
    assert!(padded.get(3, 1));
    assert!(!padded.get(1, 0));
}

#[test]
fn colored_details_replace_their_band_rectangles() {
    // Page with ink at (0,0), (2,1) and (3,2); details with one band on row
    // 1, trimmed to columns 1..=3.  Inside that rectangle the details win:
    // (1,1) and (3,1) gain ink, (2,1) loses it; outside it the page stays.
    let mut page = grid(4, 3, &[(0, 0), (2, 1), (3, 2)]);
    let details = grid(4, 3, &[(1, 1), (3, 1)]);
    add_colored_details(&mut page, &details);
    assert!(page.get(0, 0));
    assert!(page.get(1, 1));
    assert!(!page.get(2, 1));
    assert!(page.get(3, 1));
    assert!(page.get(3, 2));
}

#[test]
fn colored_details_blank_details_change_nothing() {
    let mut page = grid(3, 2, &[(1, 0)]);
    let details = grid(3, 2, &[]);
    add_colored_details(&mut page, &details);
    assert!(page.get(1, 0));
    assert!(!page.get(0, 0));
}
