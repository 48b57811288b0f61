use timestamp_offset::TsError;
use timestamp_offset::offset::parse_offset_to_seconds;
use timestamp_offset::timestamp::{add_offset, compute_result, resolve_base};

#[test]
fn test_scenario_base_plus_seconds() {
    assert_eq!(compute_result(100, 0, "10s"), Ok(110));
}

#[test]
fn test_scenario_base_minus_minute() {
    assert_eq!(compute_result(100, 0, "-1m"), Ok(40));
}

#[test]
fn test_scenario_sentinel_uses_current_time() {
    let t: u64 = 1700000000;
    assert_eq!(compute_result(0, t, "0"), Ok(t as i64));
}

#[test]
fn test_scenario_month_offset() {
    assert_eq!(compute_result(1000000, 0, "1M"), Ok(3592000));
}

#[test]
fn test_scenario_seven_months() {
    assert_eq!(parse_offset_to_seconds("7M"), Ok(18144000));
    assert_eq!(parse_offset_to_seconds("-7M"), Ok(-18144000));
}

#[test]
fn test_resolve_base() {
    assert_eq!(resolve_base(0, 42), 42);
    assert_eq!(resolve_base(7, 42), 7);
    assert_eq!(resolve_base(0, 0), 0);
}

#[test]
fn test_add_offset() {
    assert_eq!(add_offset(100, 10), Ok(110));
    assert_eq!(add_offset(100, -60), Ok(40));
    assert_eq!(add_offset(100, -1000), Ok(-900));
    assert_eq!(add_offset(0, i64::MIN), Ok(i64::MIN));
    assert_eq!(add_offset(i64::MAX as u64, 0), Ok(i64::MAX));
}

#[test]
fn test_add_offset_overflow() {
    assert_eq!(add_offset(u64::MAX, 0), Err(TsError::OverflowError));
    assert_eq!(add_offset(u64::MAX, i64::MIN), Err(TsError::OverflowError));
    assert_eq!(add_offset(i64::MAX as u64, 1), Err(TsError::OverflowError));
    assert_eq!(
        add_offset(i64::MAX as u64 + 1, i64::MIN),
        Err(TsError::OverflowError)
    );
}

#[test]
fn test_compute_result_errors() {
    assert_eq!(compute_result(100, 0, ""), Err(TsError::ParseError));
    assert_eq!(compute_result(100, 0, "-"), Err(TsError::ParseError));
    assert_eq!(compute_result(100, 0, "Ms"), Err(TsError::ParseError));
    assert_eq!(
        compute_result(u64::MAX, 0, "0"),
        Err(TsError::OverflowError)
    );
    assert_eq!(
        compute_result(1, 0, "9223372036854775807"),
        Err(TsError::OverflowError)
    );
}
