use commitlog::config::{Config, Segment as SegmentConfig};
use commitlog::endian::{push_u64_be, u64_be_at};
use commitlog::error::LogError;
use commitlog::index::{new_index, ENT_WIDTH};
use commitlog::record::{decode_record, encode_record, Record};
use commitlog::segment::{new_segment, open_segment};
use commitlog::store::{new_store, StoreExt};

fn config(max_store_bytes: u64, max_index_bytes: u64, initial_offset: u64) -> Config {
    Config {
        segment: SegmentConfig { max_store_bytes, max_index_bytes, initial_offset },
    }
}

#[test]
fn test_segment() {
    let mut rec = Record::new();
    rec.set_value(b"hello world".to_vec());

    let conf = config(1024, (ENT_WIDTH * 3) as u64, 0);
    let mut s = new_segment(String::new(), String::new(), 16, &conf).unwrap();
    let off = s.append(rec).unwrap();
    let got = s.read(off).unwrap();

    assert_eq!(
        std::str::from_utf8(got.get_value()).unwrap(),
        std::str::from_utf8(b"hello world").unwrap()
    );
}

#[test]
fn record_codec_round_trip() {
    let rec = Record { value: b"ab".to_vec(), offset: 5 };
    let enc = encode_record(&rec);
    assert_eq!(enc, vec![0, 0, 0, 0, 0, 0, 0, 5, 97, 98]);
    let dec = decode_record(&enc).unwrap();
    assert_eq!(dec.value, b"ab".to_vec());
    assert_eq!(dec.offset, 5);
}

#[test]
fn record_decode_too_short() {
    let err = decode_record(&vec![1, 2, 3]).unwrap_err();
    assert_eq!(err, LogError::EndOfFile);
}

#[test]
fn endian_round_trip() {
    let mut v = Vec::new();
    push_u64_be(&mut v, 0x0102_0304_0506_0708);
    assert_eq!(v, vec![1, 2, 3, 4, 5, 6, 7, 8]);
    assert_eq!(u64_be_at(&v, 0), 0x0102_0304_0506_0708);
}

#[test]
fn store_append_read() {
    let mut s = new_store("a.store".to_string(), Vec::new());
    let (w1, p1) = s.append(b"hello".to_vec()).unwrap();
    assert_eq!(w1, 13);
    assert_eq!(p1, 0);
    let (w2, p2) = s.append(b"world!".to_vec()).unwrap();
    assert_eq!(w2, 14);
    assert_eq!(p2, 13);
    assert_eq!(s.read(p1).unwrap(), b"hello".to_vec());
    assert_eq!(s.read(p2).unwrap(), b"world!".to_vec());
    assert_eq!(s.size(), 27);
    assert_eq!(s.name(), "a.store");
}

#[test]
fn store_read_past_end() {
    let mut s = new_store(String::new(), Vec::new());
    s.append(b"x".to_vec()).unwrap();
    let err = s.read(100).unwrap_err();
    assert_eq!(err, LogError::EndOfFile);
}

#[test]
fn index_write_read() {
    let conf = config(1024, (ENT_WIDTH * 3) as u64, 0);
    let mut ix = new_index("a.index".to_string(), Vec::new(), &conf).unwrap();
    assert_eq!(ix.read(-1).unwrap_err(), LogError::EndOfFile);
    ix.write(0, 0).unwrap();
    ix.write(1, 19).unwrap();
    assert_eq!(ix.read(0).unwrap(), (0, 0));
    assert_eq!(ix.read(1).unwrap(), (1, 19));
    assert_eq!(ix.read(-1).unwrap(), (1, 19));
    assert_eq!(ix.read(2).unwrap_err(), LogError::EndOfFile);
    assert_eq!(ix.name(), "a.index");
}

#[test]
fn index_capacity_bound() {
    // max_index_bytes = 3 * ENT_WIDTH: exactly 3 entries fit.
    let conf = config(1024, (ENT_WIDTH * 3) as u64, 0);
    let mut ix = new_index(String::new(), Vec::new(), &conf).unwrap();
    ix.write(0, 0).unwrap();
    ix.write(1, 10).unwrap();
    ix.write(2, 20).unwrap();
    let err = ix.write(3, 30).unwrap_err();
    assert_eq!(err, LogError::Capacity);
}

#[test]
fn index_rejects_malformed_image() {
    let conf = config(1024, 36, 0);
    let err = match new_index(String::new(), vec![0; 13], &conf) {
        Ok(_) => panic!("a misaligned image must be refused"),
        Err(e) => e,
    };
    assert_eq!(err, LogError::IOFault);
}

#[test]
fn index_reopen_from_used_bytes() {
    let conf = config(1024, 36, 0);
    let mut ix = new_index(String::new(), Vec::new(), &conf).unwrap();
    ix.write(0, 7).unwrap();
    let used = ix.used_bytes();
    assert_eq!(used.len(), ENT_WIDTH);
    let ix2 = new_index(String::new(), used, &conf).unwrap();
    assert_eq!(ix2.read(0).unwrap(), (0, 7));
}

#[test]
fn segment_recovers_next_offset() {
    let conf = config(1024, 36, 0);
    let mut s = new_segment(String::new(), String::new(), 4, &conf).unwrap();
    let mut r = Record::new();
    r.set_value(b"v".to_vec());
    assert_eq!(s.append(r.clone()).unwrap(), 4);
    assert_eq!(s.append(r).unwrap(), 5);
    let store_data = s.store.data.clone();
    let index_used = s.index.used_bytes();
    let s2 = open_segment(String::new(), String::new(), 4, &store_data, &index_used, &conf)
        .unwrap();
    assert_eq!(s2.next_offset, 6);
    assert_eq!(s2.read(5).unwrap().get_value(), b"v");
    assert_eq!(s2.read(6).unwrap_err(), LogError::EndOfFile);
}

#[test]
fn segment_rejects_corrupt_image() {
    let conf = config(1024, 36, 0);
    // One index entry pointing past the end of an empty store.
    let mut index_used = Vec::new();
    index_used.extend_from_slice(&[0, 0, 0, 0]);
    index_used.extend_from_slice(&[0, 0, 0, 0, 0, 0, 0, 9]);
    let err = match open_segment(String::new(), String::new(), 0, &Vec::new(), &index_used, &conf)
    {
        Ok(_) => panic!("a corrupt image must be refused"),
        Err(e) => e,
    };
    assert_eq!(err, LogError::IOFault);
}

#[test]
fn segment_is_maxed_by_store() {
    let conf = config(20, 1024, 0);
    let mut s = new_segment(String::new(), String::new(), 0, &conf).unwrap();
    assert!(!s.is_maxed());
    let mut r = Record::new();
    r.set_value(b"0123456789".to_vec());
    s.append(r).unwrap();
    // frame = 8 (prefix) + 8 (offset stamp) + 10 (value) = 26 >= 20
    assert!(s.is_maxed());
}
