use tga::color::{ColorType, ExtendedColorType};
use tga::decoder::{check_header, choose_color_type, color_map_len, TgaDecoder};
use tga::error::{
    DecodingError, ImageError, IoErrorKind, LimitErrorKind, UnsupportedErrorKind,
};
use tga::header::{Header, ImageType};

struct File {
    id: Vec<u8>,
    map_type: u8,
    image_type: u8,
    map_origin: u16,
    map_length: u16,
    map_entry_size: u8,
    width: u16,
    height: u16,
    depth: u8,
    desc: u8,
    map: Vec<u8>,
    pixels: Vec<u8>,
}

impl File {
    fn plain(image_type: u8, width: u16, height: u16, depth: u8, desc: u8, pixels: &[u8]) -> File {
        File {
            id: Vec::new(),
            map_type: 0,
            image_type,
            map_origin: 0,
            map_length: 0,
            map_entry_size: 0,
            width,
            height,
            depth,
            desc,
            map: Vec::new(),
            pixels: pixels.to_vec(),
        }
    }

    fn mapped(image_type: u8, width: u16, height: u16, depth: u8, pixels: &[u8]) -> File {
        let mut file = File::plain(image_type, width, height, depth, 0x20, pixels);
        file.map_type = 1;
        file.map_length = 3;
        file.map_entry_size = 24;
        file.map = vec![1, 2, 3, 4, 5, 6, 7, 8, 9];
        file
    }

    fn bytes(&self) -> Vec<u8> {
        let mut bytes = vec![self.id.len() as u8, self.map_type, self.image_type];
        bytes.extend(self.map_origin.to_le_bytes());
        bytes.extend(self.map_length.to_le_bytes());
        bytes.push(self.map_entry_size);
        bytes.extend(0x0102u16.to_le_bytes());
        bytes.extend(0x0304u16.to_le_bytes());
        bytes.extend(self.width.to_le_bytes());
        bytes.extend(self.height.to_le_bytes());
        bytes.push(self.depth);
        bytes.push(self.desc);
        bytes.extend(&self.id);
        bytes.extend(&self.map);
        bytes.extend(&self.pixels);
        bytes
    }

    fn open_error(&self) -> ImageError {
        match TgaDecoder::new(&self.bytes()) {
            Ok(_) => panic!("the file opens"),
            Err(error) => error,
        }
    }

    fn read_into(&self, fill: u8) -> (Result<(), ImageError>, Vec<u8>) {
        let bytes = self.bytes();
        let decoder = match TgaDecoder::new(&bytes) {
            Ok(decoder) => decoder,
            Err(error) => panic!("{:?}", error),
        };
        let mut buf = vec![fill; decoder.total_bytes() as usize];
        assert!(decoder.is_readable());
        let result = decoder.read_image(&mut buf);
        (result, buf)
    }

    fn image(&self) -> Vec<u8> {
        let (result, buf) = self.read_into(0xEE);
        assert_eq!(result, Ok(()));
        buf
    }
}

fn unknown(depth: u8) -> ImageError {
    ImageError::Unsupported(UnsupportedErrorKind::Color(ExtendedColorType::Unknown(depth)))
}

const EOF_ERROR: ImageError = ImageError::IoError(IoErrorKind::UnexpectedEof);

#[test]
fn header_fields_are_little_endian() {
    let mut file = File::mapped(1, 0x0506, 0x0708, 8, &[]);
    file.map_origin = 0x0a0b;
    file.map_length = 0x0c0d;
    file.id = vec![9, 9];
    let header = Header::from_bytes(&file.bytes()).unwrap();
    assert_eq!(header.id_length, 2);
    assert_eq!(header.map_type, 1);
    assert_eq!(header.image_type, 1);
    assert_eq!(header.map_origin, 0x0a0b);
    assert_eq!(header.map_length, 0x0c0d);
    assert_eq!(header.map_entry_size, 24);
    assert_eq!(header.x_origin, 0x0102);
    assert_eq!(header.y_origin, 0x0304);
    assert_eq!(header.image_width, 0x0506);
    assert_eq!(header.image_height, 0x0708);
    assert_eq!(header.pixel_depth, 8);
    assert_eq!(header.image_desc, 0x20);
}

#[test]
fn image_types_have_their_codes() {
    let types = [
        (0, ImageType::NoImageData, false, false, false),
        (1, ImageType::RawColorMap, true, true, false),
        (2, ImageType::RawTrueColor, true, false, false),
        (3, ImageType::RawGrayScale, false, false, false),
        (9, ImageType::RunColorMap, true, true, true),
        (10, ImageType::RunTrueColor, true, false, true),
        (11, ImageType::RunGrayScale, false, false, true),
        (12, ImageType::Unknown, false, false, false),
    ];
    for (code, image_type, color, mapped, encoded) in types {
        assert_eq!(ImageType::new(code), image_type);
        assert_eq!(image_type.is_color(), color);
        assert_eq!(image_type.is_color_mapped(), mapped);
        assert_eq!(image_type.is_encoded(), encoded);
    }
}

#[test]
fn a_cut_file_ends_unexpectedly() {
    let mut file = File::mapped(1, 1, 1, 8, &[]);
    file.id = vec![7; 5];
    let bytes = file.bytes();
    for len in 0..bytes.len() {
        assert_eq!(TgaDecoder::new(&bytes[..len]).err(), Some(EOF_ERROR));
    }
    assert!(TgaDecoder::new(&bytes).is_ok());
}

#[test]
fn odd_depths_are_not_supported() {
    for depth in [0, 1, 7, 9, 15, 17, 23, 25, 31, 33, 64, 255] {
        assert_eq!(File::plain(2, 1, 1, depth, 0, &[0; 9]).open_error(), unknown(depth));
    }
}

#[test]
fn odd_numbers_of_alpha_bits_are_not_supported() {
    for alpha in [1, 2, 3, 4, 5, 6, 7, 9, 15] {
        assert_eq!(File::plain(2, 1, 1, 32, alpha, &[0; 9]).open_error(), unknown(32));
    }
}

#[test]
fn color_map_type_must_be_one() {
    let mut file = File::mapped(1, 1, 1, 8, &[0]);
    file.map_type = 0;
    assert_eq!(file.open_error(), ImageError::Decoding(DecodingError::ColorMapType));
    file.map_type = 2;
    assert_eq!(file.open_error(), ImageError::Decoding(DecodingError::ColorMapType));
}

#[test]
fn color_map_indices_have_one_or_two_bytes() {
    assert_eq!(
        File::mapped(1, 1, 1, 24, &[0]).open_error(),
        ImageError::Decoding(DecodingError::ColorMapIndexSize)
    );
    assert_eq!(
        File::mapped(9, 1, 1, 32, &[0]).open_error(),
        ImageError::Decoding(DecodingError::ColorMapIndexSize)
    );
}

#[test]
fn color_map_indices_are_no_larger_than_colors() {
    let mut file = File::mapped(1, 1, 1, 16, &[0, 0]);
    file.map_entry_size = 15;
    assert_eq!(
        file.open_error(),
        ImageError::Unsupported(UnsupportedErrorKind::IndicesLargerThanPixels)
    );
}

#[test]
fn color_map_entries_have_two_to_four_bytes() {
    for size in [8, 33, 255] {
        let mut file = File::mapped(1, 1, 1, 8, &[0]);
        file.map_entry_size = size;
        assert_eq!(
            file.open_error(),
            ImageError::Unsupported(UnsupportedErrorKind::ColorMapEntrySize)
        );
    }
}

#[test]
fn color_map_length_is_a_product() {
    let mut file = File::mapped(1, 1, 1, 8, &[]);
    file.map_length = 300;
    for (bits, bytes) in [(9, 2), (16, 2), (17, 3), (24, 3), (25, 4), (32, 4)] {
        file.map_entry_size = bits;
        let header = Header::from_bytes(&file.bytes()).unwrap();
        assert_eq!(color_map_len(&header), Ok(300 * bytes));
    }
    file.map_type = 0;
    let header = Header::from_bytes(&file.bytes()).unwrap();
    assert_eq!(color_map_len(&header), Ok(0));
}

#[test]
fn alpha_bits_are_part_of_the_pixel() {
    let mut file = File::plain(2, 1, 1, 32, 8, &[]);
    file.map_type = 1;
    file.map_entry_size = 7;
    let header = Header::from_bytes(&file.bytes()).unwrap();
    assert_eq!(check_header(&header), Ok(()));
    assert_eq!(
        choose_color_type(&header),
        Err(ImageError::Decoding(DecodingError::TooManyAlphaBits))
    );
}

#[test]
fn layouts_follow_from_the_bits() {
    let layouts = [
        (2, 32, 0, Ok((ColorType::Rgba8, None))),
        (2, 32, 8, Ok((ColorType::Rgba8, None))),
        (10, 24, 0, Ok((ColorType::Rgb8, None))),
        (2, 24, 8, Err(unknown(24))),
        (2, 16, 0, Err(unknown(16))),
        (3, 16, 8, Ok((ColorType::La8, None))),
        (11, 8, 0, Ok((ColorType::L8, None))),
        (3, 8, 8, Ok((ColorType::L8, Some(ExtendedColorType::A8)))),
        (3, 16, 0, Err(unknown(16))),
        (3, 24, 0, Err(unknown(24))),
        (0, 8, 0, Ok((ColorType::L8, None))),
        (77, 8, 0, Ok((ColorType::L8, None))),
    ];
    for (image_type, depth, alpha, layout) in layouts {
        let file = File::plain(image_type, 1, 1, depth, alpha, &[]);
        let header = Header::from_bytes(&file.bytes()).unwrap();
        assert_eq!(choose_color_type(&header), layout);
        assert_eq!(
            TgaDecoder::new(&file.bytes())
                .map(|decoder| (decoder.color_type(), decoder.original_color_type)),
            layout
        );
    }
}

#[test]
fn original_color_type_defaults_to_the_decoded_one() {
    let cases = [
        (3, 8, 8, ExtendedColorType::A8),
        (3, 8, 0, ExtendedColorType::L8),
        (3, 16, 8, ExtendedColorType::La8),
        (2, 24, 0, ExtendedColorType::Rgb8),
        (2, 32, 8, ExtendedColorType::Rgba8),
    ];
    for (image_type, depth, alpha, expected) in cases {
        let bytes = File::plain(image_type, 1, 1, depth, alpha, &[]).bytes();
        assert_eq!(TgaDecoder::new(&bytes).unwrap().original_color_type(), expected);
    }
}

#[test]
fn sizes_come_from_the_header() {
    let bytes = File::plain(2, 65535, 65534, 32, 8, &[]).bytes();
    let decoder = TgaDecoder::new(&bytes).unwrap();
    assert_eq!(decoder.dimensions(), (65535, 65534));
    assert_eq!(decoder.total_bytes(), 65535 * 65534 * 4);
}

#[test]
fn the_identification_is_skipped() {
    let mut file = File::plain(3, 2, 1, 8, 0x20, &[5, 6]);
    file.id = vec![0xff; 255];
    assert_eq!(file.image(), [5, 6]);
}

#[test]
fn colors_are_stored_blue_first() {
    assert_eq!(File::plain(2, 2, 1, 24, 0x20, &[1, 2, 3, 4, 5, 6]).image(), [3, 2, 1, 6, 5, 4]);
    assert_eq!(File::plain(2, 1, 1, 32, 0x28, &[1, 2, 3, 4]).image(), [3, 2, 1, 4]);
    assert_eq!(File::plain(2, 1, 1, 32, 0x20, &[1, 2, 3, 4]).image(), [3, 2, 1, 4]);
}

#[test]
fn gray_is_stored_as_it_is() {
    assert_eq!(File::plain(3, 2, 1, 8, 0x20, &[1, 2]).image(), [1, 2]);
    assert_eq!(File::plain(3, 2, 1, 16, 0x28, &[1, 2, 3, 4]).image(), [1, 2, 3, 4]);
    assert_eq!(File::plain(3, 2, 1, 8, 0x28, &[1, 2]).image(), [1, 2]);
}

#[test]
fn pixels_are_put_into_reading_order() {
    let pixels = [1, 2, 3, 4, 5, 6];
    let expected: [(u8, [u8; 6]); 4] = [
        (0x20, [1, 2, 3, 4, 5, 6]),
        (0x30, [3, 2, 1, 6, 5, 4]),
        (0x00, [4, 5, 6, 1, 2, 3]),
        (0x10, [6, 5, 4, 3, 2, 1]),
    ];
    for (desc, image) in expected {
        assert_eq!(File::plain(3, 3, 2, 8, desc, &pixels).image(), image);
        let mut packet = vec![5];
        packet.extend(pixels);
        assert_eq!(File::plain(11, 3, 2, 8, desc, &packet).image(), image);
    }
}

#[test]
fn wide_pixels_move_as_a_whole() {
    let pixels: Vec<u8> = (1..=18).collect();
    assert_eq!(
        File::plain(2, 2, 3, 24, 0x10, &pixels).image(),
        [18, 17, 16, 15, 14, 13, 12, 11, 10, 9, 8, 7, 6, 5, 4, 3, 2, 1]
    );
    assert_eq!(
        File::plain(2, 2, 3, 24, 0, &pixels).image(),
        [15, 14, 13, 18, 17, 16, 9, 8, 7, 12, 11, 10, 3, 2, 1, 6, 5, 4]
    );
}

#[test]
fn indices_become_colors() {
    assert_eq!(
        File::mapped(1, 3, 1, 8, &[2, 0, 1]).image(),
        [9, 8, 7, 3, 2, 1, 6, 5, 4]
    );
    assert_eq!(File::mapped(1, 2, 1, 16, &[2, 0, 1, 0]).image(), [9, 8, 7, 6, 5, 4]);
    assert_eq!(
        File::mapped(9, 3, 1, 8, &[0x81, 2, 0x00, 1]).image(),
        [9, 8, 7, 9, 8, 7, 6, 5, 4]
    );
    assert_eq!(
        File::mapped(9, 2, 1, 16, &[0x01, 2, 0, 1, 0]).image(),
        [9, 8, 7, 6, 5, 4]
    );
}

#[test]
fn large_indices_have_two_bytes() {
    let mut file = File::mapped(1, 2, 1, 16, &[0x01, 0x01, 0x2c, 0x01]);
    file.map_length = 301;
    file.map = (0..301 * 3).map(|i| (i / 3 % 251) as u8).collect();
    assert_eq!(file.image(), [6, 6, 6, 49, 49, 49]);
}

#[test]
fn the_map_starts_some_bytes_in() {
    let mut file = File::mapped(1, 2, 1, 8, &[0, 1]);
    file.map_origin = 2;
    assert_eq!(file.image(), [5, 4, 3, 8, 7, 6]);
    file.pixels = vec![0, 2];
    assert_eq!(
        file.read_into(0).0,
        Err(ImageError::Decoding(DecodingError::InvalidColorMapIndex))
    );
}

#[test]
fn an_index_without_an_entry_is_invalid() {
    let invalid = Err(ImageError::Decoding(DecodingError::InvalidColorMapIndex));
    assert_eq!(
        File::mapped(1, 3, 1, 8, &[1, 3, 0]).read_into(0xEE),
        (invalid, vec![4, 5, 6, 0xEE, 0xEE, 0xEE, 0xEE, 0xEE, 0xEE])
    );
    assert_eq!(
        File::mapped(9, 3, 1, 8, &[2, 1, 3, 0]).read_into(0xEE),
        (invalid, vec![4, 5, 6, 0xEE, 0xEE, 0xEE, 0xEE, 0xEE, 0xEE])
    );
    assert_eq!(File::mapped(9, 3, 1, 8, &[0x82, 3]).read_into(0xEE), (invalid, vec![0xEE; 9]));
    assert_eq!(File::mapped(1, 2, 1, 16, &[0, 0, 0, 1]).read_into(0).0, invalid);
}

#[test]
fn stored_pixels_must_all_be_there() {
    assert_eq!(
        File::plain(3, 2, 2, 8, 0, &[1, 2, 3]).read_into(0xEE),
        (Err(EOF_ERROR), vec![0xEE; 4])
    );
}

#[test]
fn packets_must_all_be_there() {
    let ended = Err(ImageError::Decoding(DecodingError::UnexpectedEof));
    assert_eq!(
        File::plain(11, 3, 1, 8, 0, &[0x81, 7]).read_into(0xEE),
        (ended, vec![7, 7, 0xEE])
    );
    assert_eq!(File::plain(11, 3, 1, 8, 0, &[]).read_into(0xEE), (ended, vec![0xEE; 3]));
}

#[test]
fn a_cut_packet_ends_unexpectedly() {
    assert_eq!(
        File::plain(11, 3, 1, 8, 0, &[0x80, 7, 0x01, 9]).read_into(0xEE),
        (Err(EOF_ERROR), vec![7, 0xEE, 0xEE])
    );
    assert_eq!(
        File::plain(11, 3, 1, 8, 0, &[0x82]).read_into(0xEE),
        (Err(EOF_ERROR), vec![0xEE; 3])
    );
}

#[test]
fn packets_do_not_exceed_the_image() {
    let overflow = Err(ImageError::Decoding(DecodingError::RleOverflow));
    assert_eq!(
        File::plain(11, 3, 1, 8, 0, &[0x81, 7, 0x81, 8]).read_into(0xEE),
        (overflow, vec![7, 7, 0xEE])
    );
    assert_eq!(
        File::plain(11, 1, 1, 8, 0, &[0x01, 7, 8]).read_into(0xEE),
        (overflow, vec![0xEE])
    );
}

#[test]
fn encoding_does_not_change_the_image() {
    for desc in [0x00, 0x10, 0x20, 0x30] {
        let raw = [1, 1, 1, 0, 2, 2, 0, 1, 1];
        let packets = [0x82, 1, 0x00, 0, 0x81, 2, 0x02, 0, 1, 1];
        let mut plain = File::mapped(1, 3, 3, 8, &raw);
        let mut encoded = File::mapped(9, 3, 3, 8, &packets);
        plain.desc = desc;
        encoded.desc = desc;
        assert_eq!(plain.image(), encoded.image());
    }
}

#[test]
fn encoded_and_stored_indices_fail_alike() {
    let invalid = Err(ImageError::Decoding(DecodingError::InvalidColorMapIndex));
    for desc in [0x00, 0x10, 0x20, 0x30] {
        for packets in [&[0x81, 1, 0x01, 3, 2][..], &[0x00, 1, 0x02, 1, 3, 2][..]] {
            let mut plain = File::mapped(1, 2, 2, 8, &[1, 1, 3, 2]);
            let mut encoded = File::mapped(9, 2, 2, 8, packets);
            plain.desc = desc;
            encoded.desc = desc;
            assert_eq!(plain.read_into(0).0, invalid);
            assert_eq!(encoded.read_into(0).0, invalid);
        }
    }
}

#[test]
fn packets_may_be_split_anywhere() {
    let plain = File::plain(3, 2, 2, 8, 0x20, &[5, 5, 5, 6]).image();
    for packets in [
        &[0x82, 5, 0x00, 6][..],
        &[0x03, 5, 5, 5, 6][..],
        &[0x00, 5, 0x81, 5, 0x80, 6][..],
    ] {
        assert_eq!(File::plain(11, 2, 2, 8, 0x20, packets).image(), plain);
    }
}

#[test]
fn stored_pixels_take_their_own_length() {
    let bytes = File::mapped(1, 3, 5, 16, &[]).bytes();
    let decoder = TgaDecoder::new(&bytes).unwrap();
    assert_eq!(decoder.stored_len(), 30);
    assert_eq!(decoder.total_bytes(), 45);
}

#[test]
fn what_follows_the_pixels_is_ignored() {
    let plain = File::plain(2, 1, 1, 24, 0, &[1, 2, 3, 9, 9]);
    assert_eq!(plain.image(), [3, 2, 1]);
    let encoded = File::plain(10, 2, 1, 24, 0, &[0x81, 1, 2, 3, 0xff, 9, 9]);
    assert_eq!(encoded.image(), [3, 2, 1, 3, 2, 1]);
}

#[test]
fn the_buffer_is_overwritten() {
    for file in [
        File::plain(2, 2, 1, 24, 0, &[1, 2, 3, 4, 5, 6]),
        File::plain(10, 2, 1, 24, 0, &[0x81, 1, 2, 3]),
        File::mapped(1, 2, 1, 8, &[2, 1]),
        File::mapped(9, 2, 1, 8, &[0x81, 1]),
    ] {
        assert_eq!(file.read_into(0), file.read_into(0xff));
    }
}

#[test]
fn an_unused_color_map_is_not_kept() {
    let mut file = File::plain(3, 2, 1, 16, 0x28, &[1, 2, 3, 4]);
    file.map_type = 1;
    file.map_length = 2;
    file.map_entry_size = 16;
    file.map = vec![9; 4];
    let bytes = file.bytes();
    let decoder = TgaDecoder::new(&bytes).unwrap();
    assert!(decoder.color_map.is_none());
    assert_eq!(file.image(), [1, 2, 3, 4]);
}

#[test]
fn narrow_pixels_leave_the_rest_of_the_buffer() {
    let mut file = File::plain(2, 2, 1, 8, 0x20, &[1, 2]);
    file.map_type = 1;
    file.map_entry_size = 24;
    assert_eq!(file.read_into(9), (Ok(()), vec![9, 2, 1, 9, 9, 9]));
}

#[test]
fn pixels_that_do_not_fit_are_not_readable() {
    let mut file = File::plain(2, 1, 1, 32, 0x20, &[1, 2, 3, 4]);
    file.map_type = 1;
    file.map_entry_size = 24;
    let bytes = file.bytes();
    let decoder = TgaDecoder::new(&bytes).unwrap();
    assert!(!decoder.stored_pixels_fit());
    assert!(!decoder.is_readable());
    file.image_type = 10;
    file.pixels = vec![0x80, 1, 2, 3, 4];
    assert!(!TgaDecoder::new(&file.bytes()).unwrap().is_readable());
    file.pixels = vec![0x80, 1, 2, 3];
    assert_eq!(file.read_into(0).0, Err(EOF_ERROR));
    file.pixels = vec![0x81, 1, 2, 3, 4];
    assert_eq!(
        file.read_into(0).0,
        Err(ImageError::Decoding(DecodingError::RleOverflow))
    );
}

#[test]
fn images_may_be_empty() {
    assert_eq!(File::plain(3, 0, 1, 8, 0, &[]).image(), []);
    assert_eq!(File::plain(3, 5, 0, 8, 0x10, &[1]).image(), []);
    assert_eq!(File::mapped(1, 0, 3, 8, &[]).image(), []);
    assert_eq!(File::plain(11, 0, 7, 8, 0x20, &[]).image(), []);
    assert_eq!(
        File::plain(11, 0, 7, 8, 0x20, &[0x80, 1]).read_into(0).0,
        Err(ImageError::Decoding(DecodingError::RleOverflow))
    );
    let bytes = File::plain(3, 0, 2, 8, 0, &[]).bytes();
    let decoder = TgaDecoder::new(&bytes).unwrap();
    assert!(!decoder.reversed_rows_fit());
    assert!(!decoder.is_readable());
}

#[test]
fn a_boxed_decoder_reads_the_same() {
    let bytes = File::plain(2, 1, 1, 24, 0, &[1, 2, 3]).bytes();
    let decoder = Box::new(TgaDecoder::new(&bytes).unwrap());
    let mut buf = [0; 3];
    assert_eq!(decoder.read_image_boxed(&mut buf), Ok(()));
    assert_eq!(buf, [3, 2, 1]);
}

#[test]
fn memory_for_indices_may_be_missing() {
    let bytes = File::mapped(1, 1, 2, 8, &[]).bytes();
    let mut decoder = TgaDecoder::new(&bytes).unwrap();
    decoder.header.image_desc = 0;
    let mut buf = [0, 2, 7, 7, 7, 7];
    assert_eq!(
        decoder.finish_raw_with(None, &mut buf),
        Err(ImageError::Limits(LimitErrorKind::InsufficientMemory))
    );
    assert_eq!(buf, [2, 0, 7, 7, 7, 7]);
    assert_eq!(decoder.finish_raw_with(Some(Vec::new()), &mut buf), Ok(()));
    assert_eq!(buf, [3, 2, 1, 9, 8, 7]);
}

#[test]
fn indices_expand_as_far_as_they_fit() {
    let bytes = File::mapped(1, 1, 1, 8, &[]).bytes();
    let decoder = TgaDecoder::new(&bytes).unwrap();
    let map = decoder.color_map.as_ref().unwrap();
    let mut output = [0; 7];
    assert_eq!(decoder.expand_color_map(&[2, 1, 99], &mut output, map), Ok(()));
    assert_eq!(output, [7, 8, 9, 4, 5, 6, 0]);
    assert_eq!(map.get(0), Some(&[1, 2, 3][..]));
    assert_eq!(map.get(2), Some(&[7, 8, 9][..]));
    assert_eq!(map.get(3), None);
}

#[test]
fn red_and_blue_change_places_twice() {
    let bytes = File::plain(2, 1, 1, 32, 8, &[]).bytes();
    let decoder = TgaDecoder::new(&bytes).unwrap();
    let mut pixels = [1, 2, 3, 4, 5, 6, 7, 8];
    decoder.reverse_encoding_in_output(&mut pixels);
    assert_eq!(pixels, [3, 2, 1, 4, 7, 6, 5, 8]);
    decoder.reverse_encoding_in_output(&mut pixels);
    assert_eq!(pixels, [1, 2, 3, 4, 5, 6, 7, 8]);
    let mut cut = [1, 2, 3, 4, 5, 6, 7];
    decoder.reverse_encoding_in_output(&mut cut);
    assert_eq!(cut, [3, 2, 1, 4, 7, 6, 5]);
}

#[test]
fn errors_have_texts() {
    let texts = [
        (DecodingError::ColorMapType, "Color map type must be 1 for color mapped images"),
        (DecodingError::ColorMapIndexSize, "Color map must use 1 or 2 byte indexes"),
        (DecodingError::TooManyAlphaBits, "More alpha bits than pixel bits"),
        (DecodingError::InvalidColorMapIndex, "Invalid color map index"),
        (DecodingError::RleOverflow, "RLE decoding writes more pixels than image contains"),
        (DecodingError::UnexpectedEof, "unexpected EOF"),
    ];
    for (error, text) in texts {
        assert_eq!(error.message(), text);
    }
    assert_eq!(
        UnsupportedErrorKind::IndicesLargerThanPixels.feature(),
        Some("Indices larger than pixel values")
    );
    assert_eq!(
        UnsupportedErrorKind::ColorMapEntrySize.feature(),
        Some("Unsupported color map entry size")
    );
    assert_eq!(UnsupportedErrorKind::Color(ExtendedColorType::Unknown(3)).feature(), None);
}
