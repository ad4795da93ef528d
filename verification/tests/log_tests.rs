use commitlog::config::{Config, Segment as SegmentConfig};
use commitlog::error::LogError;
use commitlog::log::{new_log, LogInner, SegmentSource};
use commitlog::mem_log::{Logger, MemLog};
use commitlog::record::Record;
use commitlog::store::StoreExt;

fn config(max_store_bytes: u64, max_index_bytes: u64, initial_offset: u64) -> Config {
    Config {
        segment: SegmentConfig { max_store_bytes, max_index_bytes, initial_offset },
    }
}

fn record(value: &[u8]) -> Record {
    let mut r = Record::new();
    r.set_value(value.to_vec());
    r
}

fn fresh_log(c: Config) -> LogInner {
    new_log(String::new(), c, Vec::new()).unwrap()
}

fn sources_of(log: &LogInner) -> Vec<SegmentSource> {
    let mut out = Vec::new();
    for seg in &log.segments {
        out.push(SegmentSource {
            base_offset: seg.base_offset,
            store_data: seg.store.data.clone(),
            index_data: seg.index.used_bytes(),
            store_path: format!("{}.store", seg.base_offset),
            index_path: format!("{}.index", seg.base_offset),
        });
    }
    out
}

#[test]
fn append_monotonic_offsets() {
    let mut log = fresh_log(config(1024, 1024, 0));
    for expect in 0..10u64 {
        let off = log.append(record(b"payload")).unwrap();
        assert_eq!(off, expect);
    }
}

#[test]
fn append_read_round_trip() {
    let mut log = fresh_log(config(1024, 1024, 0));
    let off = log.append(record(b"first")).unwrap();
    let got = log.read(off).unwrap();
    assert_eq!(got.get_value(), b"first");
    assert_eq!(got.get_offset(), off);
}

#[test]
fn scenario_three_records_then_rotation() {
    // config {max_store_bytes: 1024, max_index_bytes: 36, initial_offset: 0}
    let mut log = fresh_log(config(1024, 36, 0));
    assert_eq!(log.append(record(b"hello world")).unwrap(), 0);
    assert_eq!(log.append(record(b"hello world")).unwrap(), 1);
    assert_eq!(log.segments.len(), 1);
    // The third append fills the index (3 entries of 12 bytes), so
    // the appending caller pays for rotation at once: a fresh active
    // segment appears, based one past the assigned offset.
    assert_eq!(log.append(record(b"hello world")).unwrap(), 2);
    assert_eq!(log.segments[0].next_offset, 3);
    assert_eq!(log.segments.len(), 2);
    assert_eq!(log.segments[1].base_offset, 3);
    // The fourth record lands in the new segment at offset 3.
    assert_eq!(log.append(record(b"hello world")).unwrap(), 3);
    assert_eq!(log.segments.len(), 2);
    for off in 0..4u64 {
        assert_eq!(log.read(off).unwrap().get_value(), b"hello world");
    }
}

#[test]
fn rotation_by_store_size() {
    // Each frame is 8 + 8 + 11 = 27 bytes; the third append pushes the
    // store to 81 >= 64 and rotates.
    let mut log = fresh_log(config(64, 1024, 0));
    assert_eq!(log.append(record(b"hello world")).unwrap(), 0);
    assert_eq!(log.segments.len(), 1);
    assert_eq!(log.append(record(b"hello world")).unwrap(), 1);
    assert_eq!(log.append(record(b"hello world")).unwrap(), 2);
    assert_eq!(log.segments.len(), 2);
    assert_eq!(log.segments[1].base_offset, 3);
    // The fresh active segment is empty, but offsets were assigned:
    // the highest one is still reported.
    assert_eq!(log.highest_offset().unwrap(), 2);
    assert_eq!(log.read(0).unwrap().get_value(), b"hello world");
    assert_eq!(log.append(record(b"hello world")).unwrap(), 3);
    assert_eq!(log.read(3).unwrap().get_value(), b"hello world");
}

#[test]
fn not_found_on_empty_and_past_end() {
    let mut log = fresh_log(config(1024, 1024, 0));
    assert_eq!(log.read(0).unwrap_err(), LogError::NotFound);
    assert_eq!(log.highest_offset().unwrap_err(), LogError::EndOfFile);
    log.append(record(b"x")).unwrap();
    assert_eq!(log.highest_offset().unwrap(), 0);
    assert_eq!(log.read(1).unwrap_err(), LogError::NotFound);
    assert_eq!(log.lowest_offset().unwrap(), 0);
}

#[test]
fn truncate_drops_whole_segments() {
    // 36-byte indexes: 3 records per segment.
    let mut log = fresh_log(config(1024, 36, 0));
    for i in 0..5u64 {
        assert_eq!(log.append(record(b"hello world")).unwrap(), i);
    }
    assert_eq!(log.segments.len(), 2);
    // Segments: [0, 3) and [3, 5).  The first one's highest offset is
    // 2 <= 2, so it is deleted whole; the second stays.
    let removed = log.truncate(2);
    assert_eq!(removed, vec![0]);
    assert_eq!(log.lowest_offset().unwrap(), 3);
    for off in 0..3u64 {
        assert_eq!(log.read(off).unwrap_err(), LogError::NotFound);
    }
    assert_eq!(log.read(3).unwrap().get_value(), b"hello world");
    assert_eq!(log.read(4).unwrap().get_value(), b"hello world");
}

#[test]
fn truncate_keeps_partly_live_segments() {
    let mut log = fresh_log(config(1024, 36, 0));
    for i in 0..5u64 {
        assert_eq!(log.append(record(b"v")).unwrap(), i);
    }
    // Offset 4 lives in the segment [3, 5), which also holds offset
    // 3 <= lowest: a segment is deleted only when its whole range is
    // at or below the cut, so it stays and offset 3 remains readable.
    let removed = log.truncate(3);
    assert_eq!(removed, vec![0]);
    assert_eq!(log.read(3).unwrap().get_value(), b"v");
    assert_eq!(log.read(4).unwrap().get_value(), b"v");
    assert_eq!(log.read(2).unwrap_err(), LogError::NotFound);
}

#[test]
fn truncate_of_everything_keeps_offsets_monotonic() {
    let mut log = fresh_log(config(1024, 36, 0));
    for i in 0..5u64 {
        assert_eq!(log.append(record(b"v")).unwrap(), i);
    }
    // Both segments ([0, 3) and [3, 5)) end at or below the cut, so
    // both are removed; the log continues at the old next offset and
    // never reassigns a removed one.
    let removed = log.truncate(9);
    assert_eq!(removed, vec![0, 3]);
    assert_eq!(log.segments.len(), 1);
    assert_eq!(log.lowest_offset().unwrap(), 5);
    assert_eq!(log.highest_offset().unwrap_err(), LogError::EndOfFile);
    assert_eq!(log.read(4).unwrap_err(), LogError::NotFound);
    assert_eq!(log.append(record(b"w")).unwrap(), 5);
    assert_eq!(log.read(5).unwrap().get_value(), b"w");
}

#[test]
fn reopen_recovers_state() {
    let c = config(1024, 36, 0);
    let mut log = fresh_log(c);
    for i in 0..5u64 {
        assert_eq!(log.append(record(b"hello world")).unwrap(), i);
    }
    log.close();
    let sources = sources_of(&log);
    let reopened = new_log(String::new(), c, sources).unwrap();
    assert_eq!(reopened.lowest_offset().unwrap(), log.lowest_offset().unwrap());
    assert_eq!(reopened.highest_offset().unwrap(), log.highest_offset().unwrap());
    for off in 0..5u64 {
        let a = log.read(off).unwrap();
        let b = reopened.read(off).unwrap();
        assert_eq!(a.get_value(), b.get_value());
        assert_eq!(a.get_offset(), b.get_offset());
    }
    assert_eq!(reopened.read(5).unwrap_err(), LogError::NotFound);
    // The backing-file names found on disk survive the reopen.
    assert_eq!(reopened.segments[0].store.name(), "0.store");
    assert_eq!(reopened.segments[1].index.name(), "3.index");
}

#[test]
fn reopen_rejects_gapped_sources() {
    let c = config(1024, 36, 0);
    let mut log = fresh_log(c);
    for i in 0..4u64 {
        assert_eq!(log.append(record(b"hello world")).unwrap(), i);
    }
    let mut sources = sources_of(&log);
    // Drop the first segment: the chain no longer starts where the
    // next segment expects.
    sources.remove(0);
    sources[0].base_offset = 9;
    let err = match new_log(String::new(), c, sources) {
        Ok(_) => panic!("a gapped chain must be refused"),
        Err(e) => e,
    };
    assert_eq!(err, LogError::IOFault);
}

#[test]
fn zero_config_defaults_to_1024() {
    let log = fresh_log(config(0, 0, 0));
    assert_eq!(log.config.segment.max_store_bytes, 1024);
    assert_eq!(log.config.segment.max_index_bytes, 1024);
}

#[test]
fn reset_recreates_empty_log() {
    let mut log = fresh_log(config(1024, 36, 7));
    log.append(record(b"x")).unwrap();
    log.reset();
    assert_eq!(log.segments.len(), 1);
    assert_eq!(log.lowest_offset().unwrap(), 7);
    assert_eq!(log.read(7).unwrap_err(), LogError::NotFound);
}

#[test]
fn explicit_new_segment_extends_chain() {
    let mut log = fresh_log(config(1024, 1024, 0));
    log.append(record(b"x")).unwrap();
    log.new_segment(1).unwrap();
    assert_eq!(log.segments.len(), 2);
    assert_eq!(log.segments[1].base_offset, 1);
    assert_eq!(log.read(0).unwrap().get_value(), b"x");
}

#[test]
fn mem_log_append_and_read() {
    let mut log = MemLog::create_empty();
    let first = log.append(record(b"alpha"));
    let second = log.append(record(b"beta"));
    assert_eq!(first, 0);
    assert_eq!(second, 1);
    assert_eq!(log.read(0).unwrap().get_value(), b"alpha");
    assert_eq!(log.read(1).unwrap().get_value(), b"beta");
    let err = log.read(2).unwrap_err();
    assert_eq!(err, LogError::NotFound);
    assert_eq!(err.message(), "Record Not Found");
}
