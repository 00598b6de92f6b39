use tga::orientation::{flip_rows, flop_rows, TgaOrientation};

#[test]
fn two_bits_name_the_corner() {
    for rest in [0x00, 0x0f, 0xc0, 0xcf] {
        assert_eq!(
            TgaOrientation::from_image_desc_byte(rest),
            TgaOrientation::BottomLeft
        );
        assert_eq!(
            TgaOrientation::from_image_desc_byte(rest | 0x10),
            TgaOrientation::BottomRight
        );
        assert_eq!(
            TgaOrientation::from_image_desc_byte(rest | 0x20),
            TgaOrientation::TopLeft
        );
        assert_eq!(
            TgaOrientation::from_image_desc_byte(rest | 0x30),
            TgaOrientation::TopRight
        );
    }
}

#[test]
fn rows_change_places() {
    let mut pixels = [1, 2, 3, 4, 5, 6];
    flip_rows(&mut pixels, 2, 3);
    assert_eq!(pixels, [5, 6, 3, 4, 1, 2]);
    flip_rows(&mut pixels, 2, 3);
    assert_eq!(pixels, [1, 2, 3, 4, 5, 6]);
}

#[test]
fn rows_change_places_where_there_are_more_or_fewer() {
    let mut longer = [1, 2, 3, 4, 5, 6, 7, 8, 9];
    flip_rows(&mut longer, 2, 2);
    assert_eq!(longer, [7, 8, 3, 4, 5, 6, 1, 2, 9]);
    let mut shorter = [1, 2, 3, 4, 5, 6];
    flip_rows(&mut shorter, 2, 4);
    assert_eq!(shorter, [5, 6, 3, 4, 1, 2]);
}

#[test]
fn rows_are_mirrored() {
    let mut pixels = [1, 2, 3, 4, 5, 6, 7, 8, 9, 10, 11, 12, 13];
    flop_rows(&mut pixels, 3, 2);
    assert_eq!(pixels, [5, 6, 3, 4, 1, 2, 11, 12, 9, 10, 7, 8, 13]);
    flop_rows(&mut pixels, 3, 2);
    assert_eq!(pixels, [1, 2, 3, 4, 5, 6, 7, 8, 9, 10, 11, 12, 13]);
}
