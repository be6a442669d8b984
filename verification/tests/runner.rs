use std::io::Write;

use feedscan::classify::{classify, encoding_of, Encoding, ReaderType};
use feedscan::runner::{search, searchfiles, SearchReader};
use feedscan::stream::open_stream;

fn gzip(data: &[u8]) -> Vec<u8> {
    let mut enc = flate2::write::GzEncoder::new(Vec::new(), flate2::Compression::default());
    enc.write_all(data).unwrap();
    enc.finish().unwrap()
}

#[test]
fn gzip_scenario_yields_one_record_and_exact_counters() {
    // two lines: `1:hello\nworld` (with a literal backslash-n) and
    // `not-a-record`
    let data = gzip(b"1:hello\\nworld\nnot-a-record\n");
    let stream = open_stream(data, Encoding::Gzip).expect("stream");
    let reader = SearchReader::new(stream, String::from("feed.gz"), ReaderType::Chunk);
    let (stats, records) = search(reader);
    assert_eq!(records.len(), 1);
    assert_eq!(records[0].id, 1);
    assert_eq!(records[0].content, b":hello\nworld".to_vec());
    assert_eq!(stats.line_count, 2);
    // decoded line lengths before unescaping: 14 + 12
    assert_eq!(stats.bytes_read, 26);
}

#[test]
fn empty_file_yields_zero_counters_without_error() {
    let stream = open_stream(Vec::new(), Encoding::Raw).expect("stream");
    let reader = SearchReader::new(stream, String::from("empty.html"), ReaderType::Chunk);
    let (stats, records) = search(reader);
    assert_eq!(records.len(), 0);
    assert_eq!(stats.bytes_read, 0);
    assert_eq!(stats.line_count, 0);
}

#[test]
fn counters_ignore_terminators_and_count_all_lines() {
    let stream = open_stream(b"10:a\njunk\r\n-3:b\\nc".to_vec(), Encoding::Raw).expect("stream");
    let reader = SearchReader::new(stream, String::from("feed.html"), ReaderType::Chunk);
    let (stats, records) = search(reader);
    // lines: `10:a` (4), `junk` (4), `-3:b\nc` (7)
    assert_eq!(stats.line_count, 3);
    assert_eq!(stats.bytes_read, 15);
    assert_eq!(records.len(), 2);
    assert_eq!(records[0].id, 10);
    assert_eq!(records[0].content, b":a".to_vec());
    assert_eq!(records[1].id, -3);
    assert_eq!(records[1].content, b":b\nc".to_vec());
}

#[test]
fn reader_keeps_path_and_role() {
    let stream = open_stream(Vec::new(), Encoding::Raw).expect("stream");
    let reader = SearchReader::new(stream, String::from("x.deleted"), ReaderType::Delete);
    assert_eq!(reader.path, "x.deleted");
    assert_eq!(reader.reader_type, ReaderType::Delete);
}

#[test]
fn searchfiles_traverses_each_reader_in_order() {
    let a = open_stream(b"1:a\n2:b\n".to_vec(), Encoding::Raw).expect("stream");
    let b = open_stream(gzip(b"3:c\n"), Encoding::Gzip).expect("stream");
    let readers = vec![
        SearchReader::new(a, String::from("a.html"), ReaderType::Chunk),
        SearchReader::new(b, String::from("b.gz"), ReaderType::Chunk),
    ];
    let results = searchfiles(readers);
    assert_eq!(results.len(), 2);
    assert_eq!(results[0].0.line_count, 2);
    assert_eq!(results[0].1.len(), 2);
    assert_eq!(results[0].1[1].id, 2);
    assert_eq!(results[1].0.line_count, 1);
    assert_eq!(results[1].1.len(), 1);
    assert_eq!(results[1].1[0].id, 3);
    assert_eq!(results[1].1[0].content, b":c".to_vec());
}

#[test]
fn classified_paths_drive_the_pipeline_end_to_end() {
    // what the outer driver does per file: classify, decode, traverse
    let name: &[u8] = b"feed.gz";
    let role = classify(name).expect("role");
    assert_eq!(role, ReaderType::Chunk);
    let encoding = encoding_of(name);
    let stream = open_stream(gzip(b"5:x\\ny\n"), encoding).expect("stream");
    let reader = SearchReader::new(stream, String::from("feed.gz"), role);
    let (stats, records) = search(reader);
    assert_eq!(stats.line_count, 1);
    assert_eq!(stats.bytes_read, 6);
    assert_eq!(records.len(), 1);
    assert_eq!(records[0].id, 5);
    assert_eq!(records[0].content, b":x\ny".to_vec());
}
