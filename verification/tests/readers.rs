use tga::error::{DecodingError, ImageError, IoErrorKind, LimitErrorKind};
use tga::fuzzing::{
    after_attempt, compare_results, is_unexpected_eof, output_buffer, within_limit, NextAttempt,
    Verdict,
};
use tga::partial_reader::PartialReader;
use tga::seek::{seek_target, SeekFrom};
use tga::strict_cursor::StrictCursor;

const DATA: [u8; 6] = [10, 11, 12, 13, 14, 15];

#[test]
fn a_partial_reader_stops_where_the_data_stops() {
    let mut reader = PartialReader::new(&DATA, 0);
    let mut buf = [0; 4];
    assert_eq!(reader.read(&mut buf), Err(IoErrorKind::UnexpectedEof));
    assert_eq!(reader.fill_buf(), Err(IoErrorKind::UnexpectedEof));
    reader.set_available(3);
    assert_eq!(reader.fill_buf(), Ok(&DATA[..3]));
    assert_eq!(reader.read(&mut buf), Ok(3));
    assert_eq!(buf, [10, 11, 12, 0]);
    assert_eq!(reader.position, 3);
    assert_eq!(reader.read(&mut buf), Err(IoErrorKind::UnexpectedEof));
    reader.set_available(6);
    assert_eq!(reader.read(&mut buf[..2]), Ok(2));
    assert_eq!(buf, [13, 14, 12, 0]);
    assert_eq!(reader.fill_buf(), Ok(&DATA[5..]));
    reader.consume(1);
    assert_eq!(reader.fill_buf(), Err(IoErrorKind::UnexpectedEof));
}

#[test]
fn a_partial_reader_reads_on_where_it_stopped() {
    for step in 1..=6 {
        let mut reader = PartialReader::new(&DATA, 6);
        let mut seen: Vec<u8> = Vec::new();
        let mut buf = vec![0; step];
        while let Ok(n) = reader.read(&mut buf) {
            seen.extend(&buf[..n]);
        }
        assert_eq!(seen, DATA);
    }
}

#[test]
fn a_partial_reader_seeks_anywhere() {
    let mut reader = PartialReader::new(&DATA, 6);
    assert_eq!(reader.seek(SeekFrom::Start(4)), Ok(4));
    assert_eq!(reader.fill_buf(), Ok(&DATA[4..]));
    assert_eq!(reader.seek(SeekFrom::Current(-3)), Ok(1));
    assert_eq!(reader.seek(SeekFrom::End(-2)), Ok(4));
    assert_eq!(reader.seek(SeekFrom::End(5)), Ok(11));
    assert_eq!(reader.fill_buf(), Err(IoErrorKind::UnexpectedEof));
    assert_eq!(reader.seek(SeekFrom::Current(-12)), Err(IoErrorKind::InvalidInput));
    assert_eq!(reader.position, 11);
    assert_eq!(reader.seek(SeekFrom::Start(1)), Ok(1));
    assert_eq!(reader.fill_buf(), Ok(&DATA[1..]));
}

#[test]
fn the_end_counts_from_all_the_data() {
    let mut reader = PartialReader::new(&DATA, 2);
    assert_eq!(reader.seek(SeekFrom::End(-1)), Ok(5));
    assert_eq!(reader.fill_buf(), Err(IoErrorKind::UnexpectedEof));
}

#[test]
fn seeks_name_positions() {
    assert_eq!(seek_target(SeekFrom::Start(u64::MAX), 3, 0), Some(u64::MAX));
    assert_eq!(seek_target(SeekFrom::Current(1), 3, u64::MAX), None);
    assert_eq!(seek_target(SeekFrom::Current(i64::MIN), 3, 1 << 63), Some(0));
    assert_eq!(seek_target(SeekFrom::End(-4), 3, 9), None);
    assert_eq!(seek_target(SeekFrom::End(-3), 3, 9), Some(0));
    assert_eq!(seek_target(SeekFrom::End(i64::MAX), 3, 9), Some(i64::MAX as u64 + 3));
}

#[test]
fn a_strict_cursor_does_not_leave_its_data() {
    let mut cursor = StrictCursor::new(&DATA);
    assert_eq!(cursor.seek(SeekFrom::Start(6)), Ok(6));
    assert_eq!(cursor.fill_buf(), &[] as &[u8]);
    assert_eq!(cursor.seek(SeekFrom::End(1)), Err(IoErrorKind::UnexpectedEof));
    assert_eq!(cursor.position, 7);
    assert_eq!(cursor.fill_buf(), &[] as &[u8]);
    assert_eq!(cursor.seek(SeekFrom::Current(-8)), Err(IoErrorKind::InvalidInput));
    assert_eq!(cursor.position, 7);
    assert_eq!(cursor.seek(SeekFrom::Current(-5)), Ok(2));
    assert_eq!(cursor.fill_buf(), &DATA[2..]);
}

#[test]
fn a_strict_cursor_reads_to_the_end() {
    let mut cursor = StrictCursor::new(&DATA);
    let mut buf = [0; 4];
    assert_eq!(cursor.read(&mut buf), Ok(4));
    assert_eq!(buf, [10, 11, 12, 13]);
    cursor.consume(1);
    assert_eq!(cursor.read(&mut buf), Ok(1));
    assert_eq!(buf, [15, 11, 12, 13]);
    assert_eq!(cursor.read(&mut buf), Ok(0));
    assert_eq!(cursor.position, 6);
}

const ENDED: ImageError = ImageError::IoError(IoErrorKind::UnexpectedEof);

#[test]
fn only_an_early_end_is_an_unexpected_end() {
    assert!(is_unexpected_eof(&ENDED));
    assert!(!is_unexpected_eof(&ImageError::IoError(IoErrorKind::InvalidInput)));
    assert!(!is_unexpected_eof(&ImageError::Decoding(DecodingError::UnexpectedEof)));
}

#[test]
fn attempts_go_on_while_bytes_arrive() {
    assert_eq!(after_attempt(Ok(()), 3, 9), NextAttempt::Proceed);
    assert_eq!(after_attempt(Err(ENDED), 3, 9), NextAttempt::Retry(4));
    assert_eq!(after_attempt(Err(ENDED), 8, 9), NextAttempt::Retry(9));
    assert_eq!(after_attempt(Err(ENDED), 9, 9), NextAttempt::Stop);
    let error = ImageError::Decoding(DecodingError::RleOverflow);
    assert_eq!(after_attempt(Err(error), 3, 9), NextAttempt::Stop);
}

#[test]
fn images_have_a_largest_size() {
    assert!(within_limit(5, Some(5)));
    assert!(!within_limit(6, Some(5)));
    assert!(within_limit(u64::MAX, None));
    assert_eq!(output_buffer(3), Ok(vec![0, 0, 0]));
    assert_eq!(output_buffer(100_000_000).map(|buf| buf.len()), Ok(100_000_000));
    assert_eq!(
        output_buffer(100_000_001),
        Err(ImageError::Limits(LimitErrorKind::InsufficientMemory))
    );
}

#[test]
fn results_are_compared() {
    let image = Ok(vec![1, 2, 3]);
    let other = Ok(vec![1, 2, 4]);
    let shorter = Ok(vec![1, 2]);
    let error = Err(ENDED);
    let other_error = Err(ImageError::Decoding(DecodingError::RleOverflow));
    assert_eq!(compare_results(&image, &image), Verdict::Agree);
    assert_eq!(compare_results(&image, &other), Verdict::DifferentImages);
    assert_eq!(compare_results(&shorter, &image), Verdict::DifferentImages);
    assert_eq!(compare_results(&error, &other_error), Verdict::Agree);
    assert_eq!(compare_results(&image, &error), Verdict::DifferentOutcomes);
    assert_eq!(compare_results(&error, &image), Verdict::DifferentOutcomes);
}
