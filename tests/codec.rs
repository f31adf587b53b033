use leb128::{read, Error};

fn encode(value: u64) -> Vec<u8> {
    let mut buf = Vec::new();
    leb128::codec::write(&mut buf, value).unwrap();
    buf
}

fn decode(bytes: &[u8], upper_bound: Option<u64>) -> (Result<Option<u64>, Error>, usize) {
    let mut pos: usize = 0;
    let r = read(bytes, &mut pos, upper_bound);
    (r, pos)
}

#[test]
fn zero_is_one_zero_byte() {
    assert_eq!(encode(0), vec![0x00]);
    let (r, pos) = decode(&[0x00], None);
    assert_eq!(r.unwrap(), Some(0));
    assert_eq!(pos, 1);
}

#[test]
fn largest_single_byte_value() {
    assert_eq!(encode(127), vec![0x7f]);
    assert_eq!(decode(&[0x7f], None).0.unwrap(), Some(127));
}

#[test]
fn smallest_two_byte_value() {
    assert_eq!(encode(128), vec![0x80, 0x01]);
    assert_eq!(decode(&[0x80, 0x01], None).0.unwrap(), Some(128));
}

#[test]
fn three_hundred() {
    let bytes = encode(300);
    assert_eq!(bytes, vec![0xac, 0x02]);
    let (r, pos) = decode(&bytes, None);
    assert_eq!(r.unwrap(), Some(300));
    assert_eq!(pos, 2);
}

#[test]
fn three_hundred_above_bound() {
    let bytes = encode(300);
    assert!(matches!(decode(&bytes, Some(200)).0, Err(Error::ResultTooLarge)));
}

#[test]
fn lone_continuation_byte_is_incomplete() {
    let (r, pos) = decode(&[0x80], None);
    assert_eq!(r.unwrap(), None);
    assert_eq!(pos, 1);
}

#[test]
fn empty_input_is_incomplete() {
    let (r, pos) = decode(&[], None);
    assert_eq!(r.unwrap(), None);
    assert_eq!(pos, 0);
}

#[test]
fn largest_value_takes_ten_bytes() {
    let bytes = encode(u64::MAX);
    let mut expected = vec![0xff; 9];
    expected.push(0x01);
    assert_eq!(bytes, expected);
    let (r, pos) = decode(&bytes, None);
    assert_eq!(r.unwrap(), Some(u64::MAX));
    assert_eq!(pos, 10);
}

#[test]
fn encoded_lengths_are_minimal() {
    let cases: [(u64, usize); 8] = [
        (0, 1),
        (127, 1),
        (128, 2),
        (16383, 2),
        (16384, 3),
        ((1u64 << 63) - 1, 9),
        (1u64 << 63, 10),
        (u64::MAX, 10),
    ];
    for (value, len) in cases {
        let bytes = encode(value);
        assert_eq!(bytes.len(), len, "value {}", value);
        assert!(bytes[len - 1] < 0x80);
        assert!(bytes[..len - 1].iter().all(|b| *b >= 0x80));
        assert_eq!(decode(&bytes, None).1, len);
    }
}

#[test]
fn write_appends_to_what_is_there() {
    let mut buf = vec![0x55];
    leb128::codec::write(&mut buf, 300).unwrap();
    assert_eq!(buf, vec![0x55, 0xac, 0x02]);
}

#[test]
fn reads_consecutive_values_through_the_cursor() {
    let mut buf = Vec::new();
    leb128::codec::write(&mut buf, 300).unwrap();
    leb128::codec::write(&mut buf, 5).unwrap();
    leb128::codec::write(&mut buf, 1 << 20).unwrap();
    let mut pos: usize = 0;
    assert_eq!(read(&buf, &mut pos, None).unwrap(), Some(300));
    assert_eq!(pos, 2);
    assert_eq!(read(&buf, &mut pos, None).unwrap(), Some(5));
    assert_eq!(pos, 3);
    assert_eq!(read(&buf, &mut pos, None).unwrap(), Some(1 << 20));
    assert_eq!(pos, buf.len());
    assert_eq!(read(&buf, &mut pos, None).unwrap(), None);
    assert_eq!(pos, buf.len());
}

#[test]
fn cursor_past_the_end_reads_nothing() {
    let mut pos: usize = 7;
    assert_eq!(read(&[0x01], &mut pos, None).unwrap(), None);
    assert_eq!(pos, 7);
}

#[test]
fn value_equal_to_bound_is_accepted() {
    let bytes = encode(300);
    assert_eq!(decode(&bytes, Some(300)).0.unwrap(), Some(300));
    assert_eq!(decode(&bytes, Some(299)).0.is_err(), true);
}

#[test]
fn too_large_stops_at_the_offending_byte() {
    // 0x81 alone is 1, within the bound; the next byte brings 1 + 127 * 128.
    let bytes = [0x81, 0xff, 0xff, 0x01];
    let (r, pos) = decode(&bytes, Some(1000));
    assert!(matches!(r, Err(Error::ResultTooLarge)));
    assert_eq!(pos, 2);
}

#[test]
fn incomplete_above_bound_is_too_large() {
    let (r, pos) = decode(&[0xff, 0xff], Some(100));
    assert!(matches!(r, Err(Error::ResultTooLarge)));
    assert_eq!(pos, 1);
}

#[test]
fn redundant_continuation_bytes_are_read() {
    let (r, pos) = decode(&[0x80, 0x80, 0x00], None);
    assert_eq!(r.unwrap(), Some(0));
    assert_eq!(pos, 3);
}

#[test]
fn value_past_64_bits_in_tenth_byte_is_too_large() {
    let mut bytes = vec![0xff; 9];
    bytes.push(0x02);
    assert!(matches!(decode(&bytes, None).0, Err(Error::ResultTooLarge)));
}

#[test]
fn value_past_64_bits_in_eleventh_byte_is_too_large() {
    let mut bytes = vec![0x80; 10];
    bytes.push(0x01);
    let (r, pos) = decode(&bytes, None);
    assert!(matches!(r, Err(Error::ResultTooLarge)));
    assert_eq!(pos, 11);
}

#[test]
fn long_zero_padding_still_decodes() {
    let mut bytes = vec![0xff];
    bytes.extend(vec![0x80; 14]);
    bytes.push(0x00);
    let (r, pos) = decode(&bytes, None);
    assert_eq!(r.unwrap(), Some(127));
    assert_eq!(pos, 16);
}

#[test]
fn long_run_of_continuation_bytes_is_incomplete() {
    let bytes = vec![0x80; 40];
    let (r, pos) = decode(&bytes, None);
    assert_eq!(r.unwrap(), None);
    assert_eq!(pos, 40);
}

#[test]
fn io_error_converts_to_io_variant() {
    let err = Error::from(std::io::Error::new(std::io::ErrorKind::BrokenPipe, "closed"));
    match err {
        Error::Io(inner) => assert_eq!(inner.kind(), std::io::ErrorKind::BrokenPipe),
        Error::ResultTooLarge => panic!("expected an I/O error"),
    }
}

#[test]
fn error_messages() {
    assert_eq!(Error::ResultTooLarge.message(), "result too large");
    let io = std::io::Error::new(std::io::ErrorKind::Other, "sink closed");
    assert_eq!(Error::Io(io).message(), "sink closed");
}
