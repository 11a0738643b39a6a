use result_analyzer::data::{
    parse_memory_row, parse_request_row, BenchMark, BenchMarkData, BenchMarkVariant, DataError,
    LineError, MemoryData, MemoryTimeStamp, RequestData, RequestTimeStamp,
};
use result_analyzer::text::{parse_fixed, parse_u32, split_bytes, trim_bytes};

#[test]
fn fixed_point_reads_scaled_decimals() {
    assert_eq!(parse_fixed(b"1.5", 3), Some(1500));
    assert_eq!(parse_fixed(b"12", 2), Some(1200));
    assert_eq!(parse_fixed(b"-0.25", 2), Some(-25));
    assert_eq!(parse_fixed(b"3.14159", 2), Some(314));
    assert_eq!(parse_fixed(b"7.", 1), Some(70));
    assert_eq!(parse_fixed(b"42", 0), Some(42));
}

#[test]
fn fixed_point_rejects_malformed_text() {
    assert_eq!(parse_fixed(b"", 3), None);
    assert_eq!(parse_fixed(b"abc", 3), None);
    assert_eq!(parse_fixed(b".", 3), None);
    assert_eq!(parse_fixed(b"1.2.3", 3), None);
    assert_eq!(parse_fixed(b"-", 3), None);
    assert_eq!(parse_fixed(b"1e", 3), None);
    assert_eq!(parse_fixed(b"1e+", 3), None);
    assert_eq!(parse_fixed(b"e5", 3), None);
    assert_eq!(parse_fixed(b"inf", 3), None);
}

#[test]
fn fixed_point_accepts_float_notation() {
    assert_eq!(parse_fixed(b".5", 3), Some(500));
    assert_eq!(parse_fixed(b"+1.25", 2), Some(125));
    assert_eq!(parse_fixed(b"1e3", 0), Some(1000));
    assert_eq!(parse_fixed(b"2.5E-2", 4), Some(250));
    assert_eq!(parse_fixed(b"-1.5e1", 0), Some(-15));
    assert_eq!(parse_fixed(b"15e-1", 0), Some(1));
    assert_eq!(parse_fixed(b"1e-400", 3), Some(0));
    assert_eq!(parse_fixed(b"0e99999999999999999999999", 3), Some(0));
    assert_eq!(parse_fixed(b"1234567890123456789", 0), Some(1234567890123456789));
    assert_eq!(parse_fixed(b"1", 18), Some(1_000_000_000_000_000_000));
}

#[test]
fn fixed_point_rejects_values_beyond_i64() {
    assert_eq!(parse_fixed(b"1", 19), None);
    assert_eq!(parse_fixed(b"9223372036854775808", 0), None);
    assert_eq!(parse_fixed(b"9223372036854775807", 0), Some(i64::MAX));
    assert_eq!(parse_fixed(b"1e99999999999999999999999", 0), None);
}

#[test]
fn float_cells_in_files_are_read() {
    let data = MemoryData::parse("timestamp,kb
.5,1e3
+1.5,2.5E1
", 3).unwrap();
    assert_eq!(
        data.samples(),
        &vec![
            MemoryTimeStamp { timestamp: 500, kb: 1000000 },
            MemoryTimeStamp { timestamp: 1500, kb: 25000 },
        ]
    );
}

#[test]
fn unsigned_codes_are_read() {
    assert_eq!(parse_u32(b"200"), Some(200));
    assert_eq!(parse_u32(b"4294967295"), Some(u32::MAX));
    assert_eq!(parse_u32(b"4294967296"), None);
    assert_eq!(parse_u32(b""), None);
    assert_eq!(parse_u32(b"2x"), None);
}

#[test]
fn split_and_trim_bytes() {
    let pieces = split_bytes(b"a,,bc,", b',');
    assert_eq!(pieces, vec![b"a".to_vec(), Vec::new(), b"bc".to_vec(), Vec::new()]);
    assert_eq!(trim_bytes(&b" \t 1.5\r".to_vec()), b"1.5".to_vec());
    assert_eq!(trim_bytes(&b"   ".to_vec()), Vec::<u8>::new());
}

#[test]
fn memory_rows_are_read() {
    assert_eq!(
        parse_memory_row(&b"1.5, 2048".to_vec(), 3),
        Ok(MemoryTimeStamp { timestamp: 1500, kb: 2048000 })
    );
    assert_eq!(parse_memory_row(&b"1.5".to_vec(), 3), Err(DataError::MissingValueError));
    assert_eq!(parse_memory_row(&b"x,1".to_vec(), 3), Err(DataError::ParseFloatError));
    assert_eq!(parse_memory_row(&b"1,y".to_vec(), 3), Err(DataError::ParseFloatError));
}

#[test]
fn request_rows_are_read() {
    assert_eq!(
        parse_request_row(&b"0.5,200,0.25".to_vec(), 3),
        Ok(RequestTimeStamp { start_timestamp: 500, duration: 250, response: 200 })
    );
    assert_eq!(parse_request_row(&b"0.5".to_vec(), 3), Err(DataError::MissingValueError));
    assert_eq!(parse_request_row(&b"0.5,OK,1".to_vec(), 3), Err(DataError::ParseIntError));
    assert_eq!(parse_request_row(&b"0.5,200".to_vec(), 3), Err(DataError::MissingValueError));
    assert_eq!(parse_request_row(&b"0.5,200,z".to_vec(), 3), Err(DataError::ParseFloatError));
}

#[test]
fn memory_file_is_read_after_its_header() {
    let data = MemoryData::parse("timestamp,kb\n0,10\n1,20\n2,15\n", 0).unwrap();
    assert_eq!(
        data.samples(),
        &vec![
            MemoryTimeStamp { timestamp: 0, kb: 10 },
            MemoryTimeStamp { timestamp: 1, kb: 20 },
            MemoryTimeStamp { timestamp: 2, kb: 15 },
        ]
    );
}

#[test]
fn one_bad_row_fails_the_whole_file() {
    assert_eq!(
        MemoryData::parse("t,kb\n0,10\n1,oops\n2,15", 0).unwrap_err(),
        LineError { line: 3, error: DataError::ParseFloatError }
    );
    assert_eq!(
        MemoryData::parse("t,kb\n0,10\n\n1\n", 0).unwrap_err(),
        LineError { line: 4, error: DataError::MissingValueError }
    );
    assert_eq!(
        MemoryData::parse("t,kb\n5,10\n1,1\n", 0).unwrap_err(),
        LineError { line: 3, error: DataError::UnorderedTimestamps }
    );
    assert_eq!(
        RequestData::parse("s,c,d\n4,200,1\n3,200,1\n", 0).unwrap_err(),
        LineError { line: 3, error: DataError::UnorderedTimestamps }
    );
}

#[test]
fn request_file_is_read() {
    let data = RequestData::parse("start,code,duration\r\n0.1,200,0.05\r\n0.2,503,1.5\r\n", 3).unwrap();
    assert_eq!(
        data.samples(),
        &vec![
            RequestTimeStamp { start_timestamp: 100, duration: 50, response: 200 },
            RequestTimeStamp { start_timestamp: 200, duration: 1500, response: 503 },
        ]
    );
    assert_eq!(
        RequestData::parse("h\n0,abc,1\n", 3).unwrap_err(),
        LineError { line: 2, error: DataError::ParseIntError }
    );
}

#[test]
fn header_only_file_is_empty() {
    assert!(MemoryData::parse("timestamp,kb", 0).unwrap().samples().is_empty());
    assert!(MemoryData::parse("", 0).unwrap().samples().is_empty());
}

#[test]
fn series_kind_selects_the_schema() {
    match BenchMarkData::parse("memory", "t,kb\n0,1\n", 0).unwrap() {
        BenchMarkData::Memory(m) => assert_eq!(m.samples().len(), 1),
        BenchMarkData::Request(_) => panic!("expected a memory series"),
    }
    match BenchMarkData::parse("request", "s,c,d\n0,200,1\n", 0).unwrap() {
        BenchMarkData::Request(r) => assert_eq!(r.samples()[0].response, 200),
        BenchMarkData::Memory(_) => panic!("expected a request series"),
    }
    assert_eq!(
        BenchMarkData::parse("cpu", "", 0).unwrap_err(),
        LineError { line: 0, error: DataError::UnknownKind }
    );
}

#[test]
fn benchmark_from_parts() {
    let bench = BenchMark::from_parts("request", "Large", String::from("nginx"), "s,c,d\n0,200,1\n", 0).unwrap();
    assert_eq!(bench.name, "nginx");
    assert_eq!(bench.variant, BenchMarkVariant::Large);
    assert_eq!(
        BenchMark::from_parts("request", "Huge", String::from("nginx"), "s,c,d\n0,200,1\n", 0).unwrap_err(),
        LineError { line: 0, error: DataError::UnknownVariant }
    );
    assert_eq!(
        BenchMark::from_parts("request", "Huge", String::from("nginx"), "s,c,d\n0,x,1\n", 0).unwrap_err(),
        LineError { line: 2, error: DataError::ParseIntError }
    );
}
