use journald_query::ffi::{flags, wait_result};

#[test]
fn test_flags() {
    assert_eq!(flags::SD_JOURNAL_RUNTIME_ONLY, 2);
    assert_eq!(flags::SD_JOURNAL_SYSTEM, 4);
    assert_eq!(flags::SD_JOURNAL_CURRENT_USER, 8);
    assert_eq!(flags::SD_JOURNAL_OS_ROOT, 16);
}

#[test]
fn test_wait_result_constants() {
    assert_eq!(wait_result::SD_JOURNAL_NOP, 0);
    assert_eq!(wait_result::SD_JOURNAL_APPEND, 1);
    assert_eq!(wait_result::SD_JOURNAL_INVALIDATE, 2);
}

#[test]
fn test_timestamp_conversion() {
    let unix_epoch: u64 = 0;
    let year_2022: u64 = 1640995200000000;
    let current_approx: u64 = 1700000000000000;

    assert_eq!(unix_epoch, 0);
    assert!(year_2022 > 0);
    assert!(current_approx > year_2022);

    let _min: u64 = u64::MIN;
    let _max: u64 = u64::MAX;

    let start_time = year_2022;
    let end_time = start_time + (24 * 60 * 60 * 1_000_000);
    assert!(end_time > start_time);
    assert_eq!(end_time - start_time, 86400000000);
}

#[test]
fn test_timeout_value_handling() {
    let no_wait: u64 = 0;
    let one_second: u64 = 1_000_000;
    let one_minute: u64 = 60_000_000;
    let infinite: u64 = u64::MAX;

    assert_eq!(no_wait, 0);
    assert!(one_second > 0);
    assert!(one_minute > one_second);
    assert_eq!(infinite, u64::MAX);

    let base_timeout = 5_000_000;
    let extended_timeout = base_timeout * 2;
    assert_eq!(extended_timeout, 10_000_000);

    assert_eq!(infinite, u64::MAX);
    assert_ne!(base_timeout, u64::MAX);
}

#[test]
fn test_live_tailing_function_signatures() {
    let timeout: u64 = 5000000;
    let infinite_timeout: u64 = u64::MAX;
    let _: u64 = timeout;
    let _: u64 = infinite_timeout;

    let _no_timeout: u64 = 0;
    let _short_timeout: u64 = 1000;
    let _long_timeout: u64 = 3600000000;

    let _nop_result: i32 = wait_result::SD_JOURNAL_NOP;
    let _append_result: i32 = wait_result::SD_JOURNAL_APPEND;
    let _invalidate_result: i32 = wait_result::SD_JOURNAL_INVALIDATE;

    assert_eq!(_nop_result, 0);
    assert_eq!(_append_result, 1);
    assert_eq!(_invalidate_result, 2);
}
