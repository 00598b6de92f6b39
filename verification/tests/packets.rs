use tga::color_map::{ColorMap, PixelExpander};
use tga::error::{DecodingError, ImageError, IoErrorKind};
use tga::rle::{is_decodable, try_decode_rle_slice, NextRequest};
use tga::stream::{decode_rle, FillPlan, Progress, RleStream};

fn plain(size: usize) -> PixelExpander<'static> {
    PixelExpander { raw_bytes_per_pixel: size, output_bytes_per_pixel: size, color_map: None }
}

type Decoded = Result<(usize, Vec<u8>, NextRequest), DecodingError>;

fn decode(input: &[u8], room: usize, expander: &PixelExpander) -> Decoded {
    let mut output = vec![0; room];
    let (unused, left, request) = match try_decode_rle_slice(input, &mut output, expander) {
        Ok((unused, tail, request)) => (unused.len(), tail.len(), request),
        Err(error) => return Err(error),
    };
    output.truncate(room - left);
    Ok((input.len() - unused, output, request))
}

#[test]
fn the_first_byte_tells_the_length() {
    assert_eq!(decode(&[0x82], 9, &plain(3)), Ok((0, vec![], NextRequest::KnownSize(4))));
    assert_eq!(decode(&[0x02], 9, &plain(3)), Ok((0, vec![], NextRequest::KnownSize(10))));
    assert_eq!(decode(&[0x00], 9, &plain(1)), Ok((0, vec![], NextRequest::KnownSize(2))));
}

#[test]
fn the_longest_packet_has_513_bytes() {
    assert_eq!(decode(&[0x7f], 512, &plain(4)), Ok((0, vec![], NextRequest::KnownSize(513))));
    let mut packet = vec![0x7f];
    packet.extend((0..512).map(|i| i as u8));
    let pixels: Vec<u8> = packet[1..].to_vec();
    assert_eq!(decode(&packet, 512, &plain(4)), Ok((513, pixels, NextRequest::Done)));
    assert_eq!(decode(&[0x7e], 512, &plain(4)), Ok((0, vec![], NextRequest::KnownSize(509))));
}

#[test]
fn input_may_end_between_packets() {
    assert_eq!(decode(&[], 4, &plain(1)), Ok((0, vec![], NextRequest::Boundary)));
    assert_eq!(
        decode(&[0x81, 5, 0x00, 6], 4, &plain(1)),
        Ok((4, vec![5, 5, 6], NextRequest::Boundary))
    );
}

#[test]
fn input_may_end_inside_a_packet() {
    assert_eq!(
        decode(&[0x80, 5, 0x01, 6], 4, &plain(1)),
        Ok((2, vec![5], NextRequest::KnownSize(3)))
    );
}

#[test]
fn decoding_ends_with_the_image() {
    assert_eq!(
        decode(&[0x80, 1, 2, 0x01, 3, 4, 5, 6, 0x99], 6, &plain(2)),
        Ok((8, vec![1, 2, 3, 4, 5, 6], NextRequest::Done))
    );
}

#[test]
fn a_packet_too_many_is_an_error() {
    assert_eq!(decode(&[0x84, 1], 4, &plain(1)), Err(DecodingError::RleOverflow));
    assert_eq!(decode(&[0x80, 1], 0, &plain(1)), Err(DecodingError::RleOverflow));
}

#[test]
fn indices_are_looked_up() {
    let map = ColorMap { start_offset: 1, entry_size: 3, bytes: vec![0, 1, 2, 3, 4, 5, 6] };
    let expander = PixelExpander {
        raw_bytes_per_pixel: 1,
        output_bytes_per_pixel: 3,
        color_map: Some(&map),
    };
    assert!(expander.is_fitting());
    assert_eq!(
        decode(&[0x81, 1, 0x00, 0], 9, &expander),
        Ok((4, vec![4, 5, 6, 4, 5, 6, 1, 2, 3], NextRequest::Done))
    );
    let mut output = [9; 9];
    assert_eq!(
        try_decode_rle_slice(&[2, 1, 2, 0], &mut output, &expander).err(),
        Some(DecodingError::InvalidColorMapIndex)
    );
    assert_eq!(output, [4, 5, 6, 9, 9, 9, 9, 9, 9]);
    let mut pixel = [0; 3];
    assert_eq!(expander.expand_pixel(&[1], &mut pixel), Ok(()));
    assert_eq!(pixel, [4, 5, 6]);
    assert_eq!(
        expander.expand_pixel(&[2], &mut pixel),
        Err(DecodingError::InvalidColorMapIndex)
    );
}

#[test]
fn a_run_is_as_good_as_copies() {
    let run = [0x83, 7, 8, 0x00, 1, 2];
    let copies = [0x03, 7, 8, 7, 8, 7, 8, 7, 8, 0x00, 1, 2];
    let (_, from_run, end) = decode(&run, 10, &plain(2)).unwrap();
    let (_, from_copies, other_end) = decode(&copies, 10, &plain(2)).unwrap();
    assert_eq!(from_run, from_copies);
    assert_eq!(end, other_end);
    assert_eq!(end, NextRequest::Done);
}

const PACKETS: [u8; 17] = [0x81, 1, 2, 3, 0x00, 4, 5, 6, 0x01, 7, 8, 9, 10, 11, 12, 0x80, 13];

#[test]
fn decoding_resumes_wherever_it_was_cut() {
    let (used, whole, request) = decode(&PACKETS, 30, &plain(3)).unwrap();
    for cut in 0..=PACKETS.len() {
        let (first_used, mut image, _) = decode(&PACKETS[..cut], 30, &plain(3)).unwrap();
        let room = 30 - image.len();
        let (more_used, more, end) = decode(&PACKETS[first_used..], room, &plain(3)).unwrap();
        image.extend(more);
        assert_eq!(image, whole);
        assert_eq!(first_used + more_used, used);
        assert_eq!(end, request);
    }
}

struct Chunks<'a> {
    data: &'a [u8],
    chunk: usize,
}

fn run_stream(mut reader: Chunks, expander: &PixelExpander, image: &mut [u8]) -> Result<(), ImageError> {
    let mut stream = RleStream::new();
    loop {
        let shown = reader.chunk.min(reader.data.len());
        let bytes = match stream.plan(shown, image.len()).map_err(ImageError::Decoding)? {
            FillPlan::Finished => return Ok(()),
            FillPlan::ReadExact(n) => {
                if reader.data.len() < n {
                    return Err(ImageError::IoError(IoErrorKind::UnexpectedEof));
                }
                n
            }
            FillPlan::Decode => shown,
        };
        let exact = bytes > shown;
        match stream.advance(expander, &reader.data[..bytes], image).map_err(ImageError::Decoding)? {
            Progress::Done(_) => return Ok(()),
            Progress::Used(n) => {
                assert!(!exact || n == bytes);
                reader.data = &reader.data[n..];
            }
        }
    }
}

#[test]
fn pieces_of_any_length_give_the_same_image() {
    for len in 0..=PACKETS.len() {
        for room in [0, 3, 6, 9, 12, 15, 18] {
            let mut whole = vec![0; room];
            let result = decode_rle(&PACKETS[..len], &plain(3), &mut whole);
            for chunk in 1..=PACKETS.len() {
                let mut image = vec![0; room];
                let reader = Chunks { data: &PACKETS[..len], chunk };
                assert_eq!(run_stream(reader, &plain(3), &mut image), result);
                assert_eq!(image, whole);
            }
        }
    }
}

#[test]
fn an_image_in_memory_is_decoded() {
    let mut image = [0; 15];
    assert_eq!(decode_rle(&PACKETS, &plain(3), &mut image), Ok(()));
    assert_eq!(image, [1, 2, 3, 1, 2, 3, 4, 5, 6, 7, 8, 9, 10, 11, 12]);
    let mut longer = [0; 18];
    assert_eq!(
        decode_rle(&PACKETS, &plain(3), &mut longer),
        Err(ImageError::IoError(IoErrorKind::UnexpectedEof))
    );
    assert_eq!(
        decode_rle(&PACKETS[..15], &plain(3), &mut longer),
        Err(ImageError::Decoding(DecodingError::UnexpectedEof))
    );
    assert_eq!(decode_rle(&[], &plain(3), &mut []), Ok(()));
}

#[test]
fn plans_follow_the_bytes_that_are_shown() {
    let mut stream = RleStream::new();
    assert_eq!(stream.plan(0, 0), Ok(FillPlan::Finished));
    assert_eq!(stream.plan(0, 1), Err(DecodingError::UnexpectedEof));
    assert_eq!(stream.plan(1, 1), Ok(FillPlan::Decode));
    assert_eq!(stream.advance(&plain(3), &[0x01], &mut [0; 6]), Ok(Progress::Used(0)));
    assert_eq!(stream.min_wanted, 7);
    assert_eq!(stream.plan(6, 6), Ok(FillPlan::ReadExact(7)));
    assert_eq!(stream.plan(7, 6), Ok(FillPlan::Decode));
    let mut image = [0; 6];
    assert_eq!(
        stream.advance(&plain(3), &[0x01, 1, 2, 3, 4, 5, 6], &mut image),
        Ok(Progress::Done(7))
    );
    assert_eq!(stream.filled, 6);
    assert_eq!(image, [1, 2, 3, 4, 5, 6]);
}

#[test]
fn pixels_must_fit_where_they_go() {
    let expander =
        PixelExpander { raw_bytes_per_pixel: 4, output_bytes_per_pixel: 3, color_map: None };
    assert!(!expander.is_fitting());
    assert!(!is_decodable(&expander, &[0x80, 1, 2, 3, 4], 3));
    assert!(is_decodable(&expander, &[], 3));
    assert!(is_decodable(&expander, &[0x80, 1, 2, 3], 3));
    assert!(is_decodable(&expander, &[0x80, 1, 2, 3, 4], 2));
    assert!(is_decodable(&plain(4), &[0x80, 1, 2, 3, 4], 4));
    assert_eq!(
        decode(&[0x80, 1, 2, 3, 4], 2, &expander),
        Err(DecodingError::RleOverflow)
    );
}
