use linuiz_archive::{
    ArchiveBuilder, ArchiveBuilderError, ArchiveReader, CompressionLevel, Header, ReadError,
    HEADER_SIZE,
};
use miniz_oxide::deflate::CompressionLevel as Z;

const MAGIC: &[u8; 16] = b"LINUIZARCHIVEV01";

fn raw_header(magic: &[u8], name: &[u8], len: u64, next_file: u64) -> Vec<u8> {
    let mut out = Vec::new();
    out.extend_from_slice(magic);
    let mut field = [0u8; 24];
    field[..name.len()].copy_from_slice(name);
    out.extend_from_slice(&field);
    out.extend_from_slice(&len.to_le_bytes());
    out.extend_from_slice(&next_file.to_le_bytes());
    out
}

fn inflate(payload: &[u8]) -> Vec<u8> {
    miniz_oxide::inflate::decompress_to_vec(payload).unwrap()
}

fn read_all(buf: &[u8]) -> (Vec<(Header, Vec<u8>)>, Option<ReadError>) {
    let mut reader = ArchiveReader::new(buf);
    let mut out = Vec::new();
    loop {
        match reader.next() {
            None => return (out, None),
            Some(Ok((h, p))) => out.push((h, p.to_vec())),
            Some(Err(e)) => return (out, Some(e)),
        }
    }
}

#[test]
fn header_size_is_56() {
    assert_eq!(HEADER_SIZE, 56);
}

#[test]
fn parse_reads_fields_little_endian() {
    let bytes = raw_header(MAGIC, b"boot", 0x0102030405060708, 9);
    let h = Header::parse(&bytes).unwrap();
    assert_eq!(&h.magic, MAGIC);
    assert_eq!(h.len, 0x0102030405060708);
    assert_eq!(h.next_file, 9);
    assert_eq!(h.name(), "boot");
    assert!(h.magic_is_valid());
    assert_eq!(h.to_bytes(), bytes);
}

#[test]
fn parse_refuses_wrong_length() {
    let bytes = raw_header(MAGIC, b"x", 1, 1);
    assert!(Header::parse(&bytes[..55]).is_none());
    let mut longer = bytes.clone();
    longer.push(0);
    assert!(Header::parse(&longer).is_none());
    assert!(Header::parse(&[]).is_none());
}

#[test]
fn name_of_full_width_field() {
    let name = b"abcdefghijklmnopqrstuvwx";
    let h = Header::parse(&raw_header(MAGIC, name, 1, 0)).unwrap();
    assert_eq!(h.name(), "abcdefghijklmnopqrstuvwx");
    assert_eq!(h.name_len(), 24);
}

#[test]
fn name_keeps_inner_zero_bytes() {
    let h = Header::parse(&raw_header(MAGIC, b"a\0b", 1, 0)).unwrap();
    assert_eq!(h.name(), "a\0b");
    assert_eq!(h.name_len(), 3);
}

#[test]
fn name_of_invalid_utf8_is_unknown() {
    let h = Header::parse(&raw_header(MAGIC, &[0xff, 0xfe], 1, 0)).unwrap();
    assert_eq!(h.name(), "Unknown");
}

#[test]
fn len_zero_is_none() {
    let h = Header::parse(&raw_header(MAGIC, b"z", 0, 0)).unwrap();
    assert_eq!(h.len(), None);
    let h = Header::parse(&raw_header(MAGIC, b"z", 7, 0)).unwrap();
    assert_eq!(h.len(), Some(7));
}

#[test]
fn magic_mismatch_is_detected() {
    let h = Header::parse(&raw_header(b"LINUIZARCHIVEV02", b"z", 1, 0)).unwrap();
    assert!(!h.magic_is_valid());
}

#[test]
fn empty_archive_yields_nothing() {
    let mut reader = ArchiveReader::new(&[]);
    assert!(reader.next().is_none());
    assert!(reader.remaining().is_empty());
}

#[test]
fn truncated_payload_is_an_error() {
    let mut buf = raw_header(MAGIC, b"t", 10, 10);
    buf.extend_from_slice(&[1, 2, 3]);
    let mut reader = ArchiveReader::new(&buf);
    assert_eq!(reader.next().map(|r| r.map(|_| ())), Some(Err(ReadError::TruncatedPayload)));
    assert_eq!(reader.remaining(), &[1, 2, 3]);
}

#[test]
fn truncated_header_is_an_error() {
    let buf = raw_header(MAGIC, b"t", 1, 0);
    let mut reader = ArchiveReader::new(&buf[..30]);
    assert_eq!(reader.next().map(|r| r.map(|_| ())), Some(Err(ReadError::TruncatedHeader)));
    assert_eq!(reader.remaining().len(), 30);
}

#[test]
fn corrupted_magic_stops_reading() {
    let mut buf = raw_header(b"XINUIZARCHIVEV01", b"bad", 2, 2);
    buf.extend_from_slice(&[9, 9]);
    buf.extend_from_slice(&raw_header(MAGIC, b"good", 1, 1));
    buf.push(5);
    let (records, err) = read_all(&buf);
    assert!(records.is_empty());
    assert_eq!(err, None);
}

#[test]
fn reader_yields_views_in_order() {
    let mut buf = raw_header(MAGIC, b"one", 1, 2);
    buf.extend_from_slice(&[10, 11]);
    buf.extend_from_slice(&raw_header(MAGIC, b"two", 1, 0));
    let mut reader = ArchiveReader::new(&buf);
    let (h, p) = reader.next().unwrap().unwrap();
    assert_eq!(h.name(), "one");
    assert_eq!(p, &[10, 11]);
    let (h, p) = reader.next().unwrap().unwrap();
    assert_eq!(h.name(), "two");
    assert!(p.is_empty());
    assert!(reader.next().is_none());
}

#[test]
fn level_codes_match_compressor() {
    assert_eq!(CompressionLevel::NoCompression.code(), Z::NoCompression as u8);
    assert_eq!(CompressionLevel::BestSpeed.code(), Z::BestSpeed as u8);
    assert_eq!(CompressionLevel::BestCompression.code(), Z::BestCompression as u8);
    assert_eq!(CompressionLevel::UberCompression.code(), Z::UberCompression as u8);
    assert_eq!(CompressionLevel::DefaultLevel.code(), Z::DefaultLevel as u8);
    assert_eq!(CompressionLevel::DefaultCompression.code(), Z::DefaultCompression as u8);
}

#[test]
fn name_overflow_leaves_output_unchanged() {
    let mut b = ArchiveBuilder::new(CompressionLevel::DefaultLevel);
    b.push_data("first", &[1, 2, 3]).unwrap();
    let mut before = ArchiveBuilder::new(CompressionLevel::DefaultLevel);
    before.push_data("first", &[1, 2, 3]).unwrap();
    let expected = before.take_data();
    let r = b.push_data("abcdefghijklmnopqrstuvwxy", &[4]);
    assert_eq!(r.map(|_| ()), Err(ArchiveBuilderError));
    assert_eq!(b.take_data(), expected);
}

#[test]
fn name_of_24_bytes_is_accepted() {
    let mut b = ArchiveBuilder::new(CompressionLevel::BestSpeed);
    let (h, _) = b.push_data("abcdefghijklmnopqrstuvwx", &[4]).unwrap();
    assert_eq!(h.name(), "abcdefghijklmnopqrstuvwx");
}

#[test]
fn push_returns_header_and_payload() {
    let data = vec![7u8; 1000];
    let mut b = ArchiveBuilder::new(CompressionLevel::BestCompression);
    let (h, c) = b.push_data("sevens", &data).unwrap();
    assert!(h.magic_is_valid());
    assert_eq!(h.len(), Some(1000));
    assert_eq!(h.next_file, c.len() as u64);
    assert!(c.len() < data.len());
    assert_eq!(inflate(&c), data);
    let out = b.take_data();
    assert_eq!(out.len(), HEADER_SIZE + c.len());
    assert_eq!(&out[..HEADER_SIZE], &h.to_bytes()[..]);
    assert_eq!(&out[HEADER_SIZE..], &c[..]);
}

#[test]
fn two_records_scenario() {
    let mut b = ArchiveBuilder::new(CompressionLevel::DefaultLevel);
    b.push_data("a", &[1, 2, 3]).unwrap();
    b.push_data("bb", &[4, 5, 6, 7]).unwrap();
    let buf = b.take_data();
    let (records, err) = read_all(&buf);
    assert_eq!(err, None);
    assert_eq!(records.len(), 2);
    assert_eq!(records[0].0.name(), "a");
    assert_eq!(records[0].0.len(), Some(3));
    assert_eq!(inflate(&records[0].1), vec![1, 2, 3]);
    assert_eq!(records[1].0.name(), "bb");
    assert_eq!(records[1].0.len(), Some(4));
    assert_eq!(inflate(&records[1].1), vec![4, 5, 6, 7]);
}

#[test]
fn round_trip_many_records() {
    let inputs: Vec<(String, Vec<u8>)> = (0..20u8)
        .map(|i| (format!("entry{}", i), (0..(i as usize * 37 + 1)).map(|k| (k % 7) as u8 + i).collect()))
        .collect();
    for level in [
        CompressionLevel::NoCompression,
        CompressionLevel::BestSpeed,
        CompressionLevel::DefaultCompression,
        CompressionLevel::UberCompression,
    ] {
        let mut b = ArchiveBuilder::new(level);
        let mut payloads = Vec::new();
        for (name, data) in &inputs {
            let (_, c) = b.push_data(name, data).unwrap();
            payloads.push(c);
        }
        let buf = b.take_data();
        let (records, err) = read_all(&buf);
        assert_eq!(err, None);
        assert_eq!(records.len(), inputs.len());
        for (i, (h, p)) in records.iter().enumerate() {
            assert_eq!(h.name(), inputs[i].0);
            assert_eq!(h.len(), Some(inputs[i].1.len() as u64));
            assert_eq!(p, &payloads[i]);
            assert_eq!(inflate(p), inputs[i].1);
        }
    }
}

#[test]
fn duplicate_names_are_kept() {
    let mut b = ArchiveBuilder::new(CompressionLevel::BestSpeed);
    b.push_data("same", &[1]).unwrap();
    b.push_data("same", &[2, 2]).unwrap();
    let buf = b.take_data();
    let (records, err) = read_all(&buf);
    assert_eq!(err, None);
    assert_eq!(records.len(), 2);
    assert_eq!(inflate(&records[1].1), vec![2, 2]);
}

#[test]
fn cut_archive_reports_truncation_after_whole_records() {
    let mut b = ArchiveBuilder::new(CompressionLevel::BestSpeed);
    b.push_data("a", &[1, 2, 3]).unwrap();
    b.push_data("b", &[4, 5, 6]).unwrap();
    let buf = b.take_data();
    let (records, err) = read_all(&buf[..buf.len() - 1]);
    assert_eq!(records.len(), 1);
    assert_eq!(err, Some(ReadError::TruncatedPayload));
}
