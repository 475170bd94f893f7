use seraphim::io::tf::{RecordError, RecordReader, RecordWriter};

fn framed(records: &[&[u8]]) -> Vec<u8> {
    let mut w = RecordWriter::new(Vec::new());
    for r in records {
        w.write_one_record(r);
    }
    w.into_inner()
}

#[test]
fn a_record_reads_back() {
    let bytes = framed(&[b"hello", b"", b"world"]);
    assert_eq!(bytes.len(), 16 * 3 + 10);
    let mut r = RecordReader::new(bytes);
    assert_eq!(r.read_one(), Ok(Some(b"hello".to_vec())));
    assert_eq!(r.read_one(), Ok(Some(Vec::new())));
    assert_eq!(r.read_one(), Ok(Some(b"world".to_vec())));
    assert_eq!(r.read_one(), Ok(None));
}

#[test]
fn frame_layout_is_length_checksum_data_checksum() {
    let bytes = framed(&[b"abc"]);
    assert_eq!(&bytes[0..8], &[3, 0, 0, 0, 0, 0, 0, 0]);
    assert_eq!(&bytes[12..15], b"abc");
    assert_eq!(bytes.len(), 19);
}

#[test]
fn written_bytes_report_their_count() {
    let mut w = RecordWriter::new(Vec::new());
    assert_eq!(w.write_one_record(b"abcd"), 20);
    assert_eq!(w.get_ref().len(), 20);
    let taken = w.take_written();
    assert_eq!(taken.len(), 20);
    assert_eq!(w.get_ref().len(), 0);
}

#[test]
fn short_length_is_trailing_bytes() {
    let mut r = RecordReader::new(vec![1, 2, 3]);
    assert_eq!(r.read_one(), Err(RecordError::TrailingBytes(3)));
}

#[test]
fn cut_length_checksum() {
    let bytes = framed(&[b"abc"]);
    let mut r = RecordReader::new(bytes[0..10].to_vec());
    assert_eq!(r.read_one(), Err(RecordError::TruncatedLengthChecksum(10)));
}

#[test]
fn damaged_length_checksum() {
    let mut bytes = framed(&[b"abc"]);
    bytes[8] ^= 1;
    let mut r = RecordReader::new(bytes);
    assert_eq!(r.read_one(), Err(RecordError::LengthChecksumMismatch));
}

#[test]
fn cut_data() {
    let bytes = framed(&[b"abcdef"]);
    let mut r = RecordReader::new(bytes[0..14].to_vec());
    assert_eq!(r.read_one(), Err(RecordError::TruncatedData { read: 2, expected: 6 }));
}

#[test]
fn cut_data_checksum() {
    let bytes = framed(&[b"abc"]);
    let mut r = RecordReader::new(bytes[0..17].to_vec());
    assert_eq!(r.read_one(), Err(RecordError::TruncatedDataChecksum));
}

#[test]
fn damaged_data() {
    let mut bytes = framed(&[b"abc"]);
    bytes[13] ^= 0x20;
    let mut r = RecordReader::new(bytes);
    assert_eq!(r.read_one(), Err(RecordError::DataChecksumMismatch));
}

#[test]
fn iterators_yield_every_record() {
    let bytes = framed(&[b"one", b"two"]);
    let mut it = RecordReader::new(bytes.clone()).into_iter();
    assert_eq!(it.next(), Some(Ok(b"one".to_vec())));
    assert_eq!(it.next(), Some(Ok(b"two".to_vec())));
    assert_eq!(it.next(), None);
    let mut f = RecordReader::new(bytes).into_fallible_iter();
    assert_eq!(f.next(), Ok(Some(b"one".to_vec())));
    assert_eq!(f.next(), Ok(Some(b"two".to_vec())));
    assert_eq!(f.next(), Ok(None));
}

#[test]
fn checksum_mask_matches_tensorflow() {
    // The masked CRC-32C of the empty string, as TFRecord writes it.
    let bytes = framed(&[b""]);
    let data_crc = u32::from_le_bytes([bytes[12], bytes[13], bytes[14], bytes[15]]);
    assert_eq!(data_crc, seraphim::io::tf::do_mask(0));
}
