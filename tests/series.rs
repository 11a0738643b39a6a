use result_analyzer::data::{
    get_time_range, BenchMark, BenchMarkData, BenchMarkVariant, DataError, MemoryData,
    MemoryTimeStamp, RequestData, RequestTimeStamp, TimeRange,
};

fn memory(points: &[(i64, i64)]) -> MemoryData {
    let samples: Vec<MemoryTimeStamp> = points
        .iter()
        .map(|p| MemoryTimeStamp { timestamp: p.0, kb: p.1 })
        .collect();
    MemoryData::from_samples(samples).unwrap()
}

fn requests(points: &[(i64, i64, u32)]) -> RequestData {
    let samples: Vec<RequestTimeStamp> = points
        .iter()
        .map(|p| RequestTimeStamp { start_timestamp: p.0, duration: p.1, response: p.2 })
        .collect();
    RequestData::from_samples(samples).unwrap()
}

#[test]
fn memory_range_covers_every_timestamp() {
    let data = memory(&[(1, 10), (3, 20), (5, 15)]);
    let (lo, hi) = data.get_time_range();
    assert_eq!((lo, hi), (1, 5));
    assert_eq!(data.len(), 3);
    for s in data.samples() {
        assert!(lo <= s.timestamp as i128 && s.timestamp as i128 <= hi);
    }
}

#[test]
fn memory_range_reaches_negative_times() {
    let data = memory(&[(-2, 1), (4, 1)]);
    assert_eq!(data.get_time_range(), (-2, 4));
}

#[test]
fn series_range_starts_at_its_earliest_observation() {
    assert_eq!(memory(&[(1, 7), (3, 8)]).get_time_range(), (1, 3));
    assert_eq!(requests(&[(2, 8, 200), (6, 1, 500)]).get_time_range(), (2, 10));
}

#[test]
fn request_range_ends_at_latest_finish() {
    let data = requests(&[(0, 5, 200), (2, 1, 404)]);
    assert_eq!(data.get_time_range(), (0, 5));
}

#[test]
fn empty_series_range_is_zero() {
    assert_eq!(MemoryData::new().get_time_range(), (0, 0));
    assert_eq!(RequestData::new().get_time_range(), (0, 0));
}

#[test]
fn unordered_samples_are_rejected() {
    let samples = vec![
        MemoryTimeStamp { timestamp: 3, kb: 1 },
        MemoryTimeStamp { timestamp: 1, kb: 1 },
    ];
    assert_eq!(MemoryData::from_samples(samples).unwrap_err(), DataError::UnorderedTimestamps);
    let reqs = vec![
        RequestTimeStamp { start_timestamp: 3, duration: 1, response: 200 },
        RequestTimeStamp { start_timestamp: 1, duration: 1, response: 200 },
    ];
    assert_eq!(RequestData::from_samples(reqs).unwrap_err(), DataError::UnorderedTimestamps);
}

#[test]
fn mixed_series_share_one_range() {
    let series = vec![
        BenchMarkData::Memory(memory(&[(1, 10), (4, 20)])),
        BenchMarkData::Request(requests(&[(2, 7, 200)])),
    ];
    assert_eq!(get_time_range(&series), (0, 9));
    let empty: Vec<BenchMarkData> = Vec::new();
    assert_eq!(get_time_range(&empty), (0, 0));
}

#[test]
fn benchmarks_report_their_data_range() {
    let bench = BenchMark {
        name: String::from("nginx"),
        variant: BenchMarkVariant::Large,
        data: BenchMarkData::Request(requests(&[(1, 2, 200)])),
    };
    assert_eq!(bench.get_time_range(), (1, 3));
}

#[test]
fn variant_labels_are_read() {
    assert_eq!(BenchMarkVariant::from_label("Large"), Ok(BenchMarkVariant::Large));
    assert_eq!(BenchMarkVariant::from_label("Small"), Ok(BenchMarkVariant::Small));
    assert_eq!(BenchMarkVariant::from_label("Medium"), Err(DataError::UnknownVariant));
    assert_eq!(BenchMarkVariant::from_label("large"), Err(DataError::UnknownVariant));
}
