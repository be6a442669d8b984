use std::io::Write;

use feedscan::classify::Encoding;
use feedscan::stream::{open_stream, IoError, LineStream};

fn gzip(data: &[u8]) -> Vec<u8> {
    let mut enc = flate2::write::GzEncoder::new(Vec::new(), flate2::Compression::default());
    enc.write_all(data).unwrap();
    enc.finish().unwrap()
}

fn drain(mut s: LineStream) -> Vec<Vec<u8>> {
    let mut lines = Vec::new();
    while let Some(line) = s.next_line() {
        lines.push(line);
    }
    lines
}

#[test]
fn raw_stream_splits_lines() {
    let s = open_stream(b"a\nbc\nd".to_vec(), Encoding::Raw).expect("stream");
    assert_eq!(drain(s), vec![b"a".to_vec(), b"bc".to_vec(), b"d".to_vec()]);
}

#[test]
fn trailing_newline_opens_no_line() {
    let s = open_stream(b"a\nb\n".to_vec(), Encoding::Raw).expect("stream");
    assert_eq!(drain(s), vec![b"a".to_vec(), b"b".to_vec()]);
}

#[test]
fn crlf_terminators_are_stripped() {
    let s = open_stream(b"a\r\nb\r\nc".to_vec(), Encoding::Raw).expect("stream");
    assert_eq!(drain(s), vec![b"a".to_vec(), b"b".to_vec(), b"c".to_vec()]);
}

#[test]
fn lone_newline_is_one_empty_line() {
    let s = open_stream(b"\n".to_vec(), Encoding::Raw).expect("stream");
    assert_eq!(drain(s), vec![b"".to_vec()]);
}

#[test]
fn carriage_return_without_newline_stays() {
    let s = open_stream(b"a\r".to_vec(), Encoding::Raw).expect("stream");
    assert_eq!(drain(s), vec![b"a\r".to_vec()]);
}

#[test]
fn empty_input_yields_no_lines() {
    let s = open_stream(Vec::new(), Encoding::Raw).expect("stream");
    assert_eq!(drain(s).len(), 0);
}

#[test]
fn stream_is_single_pass() {
    let mut s = open_stream(b"only".to_vec(), Encoding::Raw).expect("stream");
    assert_eq!(s.next_line(), Some(b"only".to_vec()));
    assert_eq!(s.next_line(), None);
    assert_eq!(s.next_line(), None);
}

#[test]
fn remaining_len_counts_down() {
    let mut s = open_stream(b"ab\ncd".to_vec(), Encoding::Raw).expect("stream");
    assert_eq!(s.remaining_len(), 5);
    s.next_line();
    assert_eq!(s.remaining_len(), 2);
    s.next_line();
    assert_eq!(s.remaining_len(), 0);
}

#[test]
fn gzip_stream_is_inflated_transparently() {
    let s = open_stream(gzip(b"x\ny\n"), Encoding::Gzip).expect("stream");
    assert_eq!(drain(s), vec![b"x".to_vec(), b"y".to_vec()]);
}

#[test]
fn gzip_of_empty_file_yields_no_lines() {
    let s = open_stream(gzip(b""), Encoding::Gzip).expect("stream");
    assert_eq!(drain(s).len(), 0);
}

#[test]
fn corrupted_gzip_trailer_surfaces_before_any_line() {
    let mut data = gzip(b"1:hello\nworld\n");
    let last = data.len() - 1;
    data[last] ^= 0xFF;
    match open_stream(data, Encoding::Gzip) {
        Err(e) => assert_eq!(e, IoError::CorruptStream),
        Ok(_) => panic!("corrupt stream must not open"),
    }
}

#[test]
fn corrupted_gzip_checksum_surfaces_before_any_line() {
    let mut data = gzip(b"payload\n");
    // flip a byte of the CRC32 field in the trailer
    let crc_byte = data.len() - 6;
    data[crc_byte] ^= 0xFF;
    match open_stream(data, Encoding::Gzip) {
        Err(e) => assert_eq!(e, IoError::CorruptStream),
        Ok(_) => panic!("corrupt stream must not open"),
    }
}

#[test]
fn garbage_gzip_header_is_corrupt() {
    match open_stream(b"not gzip at all".to_vec(), Encoding::Gzip) {
        Err(e) => assert_eq!(e, IoError::CorruptStream),
        Ok(_) => panic!("corrupt stream must not open"),
    }
}
