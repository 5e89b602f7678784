//! Partitioning, ingestion policy, roll-down and scans of one series.

use tsdb::{AppendOnlyBlock, ClosedBlock, Sample, CodecError, TS};

#[test]
fn time_align_test() {
    let ts = TS::new();
    {
        // Tue Jan 14 2020 08:02:26 GMT+0800
        let timestamp = 1578960146;
        let (b, e) = ts.time_align(timestamp, 1 * 60 * 60 * 3);
        let origin_dt = chrono::DateTime::<chrono::Utc>::from_timestamp(timestamp as i64, 0)
            .unwrap();
        let begin_dt = chrono::DateTime::<chrono::Utc>::from_timestamp(b as i64, 0).unwrap();
        let end_dt = chrono::DateTime::<chrono::Utc>::from_timestamp(e as i64, 0).unwrap();
        println!(
            "{}={}=>\n{}={}\n{}={}",
            timestamp,
            origin_dt.format("%Y-%m-%d %T%z"),
            b,
            begin_dt.format("%Y-%m-%d %H:%M:%S%z"),
            e,
            end_dt.format("%Y-%m-%d %T%z")
        );
        assert_eq!(b, 1578960000);
        assert_eq!(e, 1578970800);
    }

    ts.get_decoder(0, 0);
}

#[test]
fn ts_time_align_test() {
    let ts = TS::new();
    {
        // Tue Jan 14 2020 08:02:26 GMT+0800
        let timestamp = 1578960146;
        let (b, e) = ts.time_align(timestamp, 60 * 60 * 3);
        println!("{} => [{}, {})", timestamp, b, e);
        assert_eq!(e - b, 60 * 60 * 3);
        assert!(b <= timestamp && timestamp < e);
        assert_eq!(b % (60 * 60 * 3), 0);
        // aligning the partition start again is the identity
        let (b2, e2) = ts.time_align(b, 60 * 60 * 3);
        assert_eq!((b2, e2), (b, e));
    }

    ts.get_decoder(0, 0);
}

fn values(v: &[Sample]) -> Vec<(u64, f64)> {
    v.iter().map(|s| (s.time, f64::from_bits(s.value))).collect()
}

#[test]
fn basic_ingest_scan_test() {
    let mut ts = TS::with_period(7200);
    ts.append(Sample::new(1000, 1.0f64.to_bits()));
    ts.append(Sample::new(1010, 2.0f64.to_bits()));
    ts.append(Sample::new(1020, 1.5f64.to_bits()));
    let out = ts.scan(0, 2000);
    assert_eq!(
        values(&out),
        vec![(1000, 1.0), (1010, 2.0), (1020, 1.5)]
    );
}

#[test]
fn partition_boundary_test() {
    let mut ts = TS::with_period(3600);
    ts.append(Sample::new(3599, 1.0f64.to_bits()));
    ts.append(Sample::new(3600, 2.0f64.to_bits()));
    assert_eq!(ts.open_count(), 2);
    let first = ts.scan(0, 3600);
    assert_eq!(values(&first), vec![(3599, 1.0)]);
    let second = ts.scan(3600, 7200);
    assert_eq!(values(&second), vec![(3600, 2.0)]);
}

#[test]
fn in_block_reorder_test() {
    let mut ts = TS::with_period(1000000);
    ts.append(Sample::new(500, 5.0f64.to_bits()));
    ts.append(Sample::new(100, 1.0f64.to_bits()));
    assert_eq!(ts.open_count(), 1);
    let out = ts.scan(0, 1000000);
    // both kept: only points before the block's own start are dropped
    assert_eq!(values(&out), vec![(500, 5.0), (100, 1.0)]);
}

#[test]
fn late_point_test() {
    let mut ts = TS::with_period(7200);
    ts.append(Sample::new(10000, 1.0f64.to_bits()));
    // 5000 precedes the oldest block's start (7200): dropped
    ts.append(Sample::new(5000, 9.0f64.to_bits()));
    assert_eq!(ts.open_count(), 1);
    let out = ts.scan(0, 20000);
    assert_eq!(values(&out), vec![(10000, 1.0)]);
}

#[test]
fn out_of_order_partitions_test() {
    let mut ts = TS::with_period(3600);
    ts.append(Sample::new(10, 1.0f64.to_bits()));
    ts.append(Sample::new(9000, 2.0f64.to_bits())); // partition [7200, 10800)
    ts.append(Sample::new(4000, 3.0f64.to_bits())); // partition [3600, 7200), in between
    assert_eq!(ts.open_count(), 3);
    let all = ts.scan(0, 20000);
    // blocks in time order, each contributing its own content
    assert_eq!(values(&all), vec![(10, 1.0), (4000, 3.0), (9000, 2.0)]);
}

#[test]
fn roll_down_test() {
    let mut ts = TS::with_period(7200);
    ts.append(Sample::new(1000, 1.0f64.to_bits()));
    // not old enough: nothing moves
    ts.roll_down_at(3000, 5000);
    assert_eq!(ts.open_count(), 1);
    assert_eq!(ts.closed_count(), 0);
    // age 10000 exceeds the 5000 timeout: the block moves to the closed list
    ts.roll_down_at(10000, 5000);
    assert_eq!(ts.open_count(), 0);
    assert_eq!(ts.closed_count(), 1);
    let sealed = ts.read_closed(0);
    assert_eq!(values(&sealed), vec![(1000, 1.0)]);
    // the next write to that partition opens a fresh block
    ts.append(Sample::new(1500, 2.0f64.to_bits()));
    assert_eq!(ts.open_count(), 1);
    assert_eq!(values(&ts.scan(0, 7200)), vec![(1500, 2.0)]);
}

/// The sequential heart of concurrent ingestion: N distinct in-window
/// samples, appended in any serial order, are all stored exactly once.
#[test]
fn distinct_appends_kept_test() {
    let n: u64 = 100;
    let mut ts = TS::with_period(7200);
    // interleave the arrival order a little
    for i in 0..n {
        let t = if i % 2 == 0 { i } else { n + i };
        ts.append(Sample::new(t, (t as f64).to_bits()));
    }
    let out = ts.scan(0, 7200);
    assert_eq!(out.len(), n as usize);
    let mut times: Vec<u64> = out.iter().map(|s| s.time).collect();
    times.sort_unstable();
    times.dedup();
    assert_eq!(times.len(), n as usize);
}

#[test]
fn block_read_test() {
    let mut blk = AppendOnlyBlock::new(0, 7200);
    blk.append(Sample::new(10, 1.25f64.to_bits()));
    blk.append(Sample::new(20, 2.5f64.to_bits()));
    assert_eq!(values(&blk.read()), vec![(10, 1.25), (20, 2.5)]);
    assert!(blk.len() > 0);
    assert!(!blk.get_buffer().is_empty());

    let sealed = ClosedBlock::new(&blk);
    // the source block is unaffected and still accepts writes
    blk.append(Sample::new(30, 3.0f64.to_bits()));
    assert_eq!(values(&sealed.read()), vec![(10, 1.25), (20, 2.5)]);
    assert_eq!(values(&blk.read()), vec![(10, 1.25), (20, 2.5), (30, 3.0)]);
}

#[test]
fn block_from_test() {
    let mut a = AppendOnlyBlock::new(0, 7200);
    a.append(Sample::new(1, 1.0f64.to_bits()));
    let mut b = AppendOnlyBlock::new(7200, 14400);
    b.append(Sample::new(7300, 2.0f64.to_bits()));
    a.from(b);
    assert_eq!(a.time_begin(), 7200);
    assert_eq!(a.time_end(), 14400);
    assert_eq!(values(&a.read()), vec![(7300, 2.0)]);
}

#[test]
fn series_decoder_test() {
    let mut ts = TS::with_period(7200);
    ts.append(Sample::new(100, 4.0f64.to_bits()));
    ts.append(Sample::new(200, 5.0f64.to_bits()));
    let mut decoders = ts.get_decoder(0, 7200);
    assert_eq!(decoders.len(), 1);
    let d = &mut decoders[0];
    assert_eq!(d.next(), Ok(Sample::new(100, 4.0f64.to_bits())));
    assert_eq!(d.next(), Ok(Sample::new(200, 5.0f64.to_bits())));
    assert_eq!(d.next(), Err(CodecError::StreamExhausted));
    // a window that misses the block yields no decoder
    assert_eq!(ts.get_decoder(8000, 9000).len(), 0);
}
