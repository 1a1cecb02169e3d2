use journald_query::query::read_field;
use journald_query::{query_journal, Entry, Journal, JournalError, Query};

const HOUR_START: u64 = 1640995200000000;
const HOUR_END: u64 = 1640998800000000;

fn entry(host: &str, unit: &str, message: &str) -> Vec<String> {
    vec![
        format!("_HOSTNAME={}", host),
        format!("_SYSTEMD_UNIT={}", unit),
        format!("MESSAGE={}", message),
    ]
}

fn stress_test_journal() -> Journal {
    let mut journal = Journal::new();
    let rows = [
        (0u64, "web-server", "nginx.service", "GET /index.html HTTP/1.1 200"),
        (60, "web-server", "nginx.service", "GET /missing HTTP/1.1 404"),
        (120, "database-server", "postgresql.service", "checkpoint complete"),
        (300, "web-server", "apache2.service", "GET /status HTTP/1.1 200"),
        (600, "monitoring-server", "prometheus.service", "scrape of 200 targets finished"),
        (1800, "web-server", "nginx.service", "POST /login HTTP/1.1 200"),
        (3600, "database-server", "mysql.service", "slow query"),
        (5400, "web-server", "nginx.service", "GET /late HTTP/1.1 200"),
        (7200, "web-server", "nginx.service", "GET /edge HTTP/1.1 200"),
        (9000, "web-server", "nginx.service", "GET /after HTTP/1.1 200"),
    ];
    for (secs, host, unit, message) in rows {
        journal.append(HOUR_START + secs * 1_000_000, entry(host, unit, message)).unwrap();
    }
    journal
}

fn found(host: &str, unit: &str, secs: u64, message: &str) -> Entry {
    Entry {
        hostname: Some(host.to_string()),
        unit: Some(unit.to_string()),
        timestamp_utc: HOUR_START + secs * 1_000_000,
        message: message.to_string(),
    }
}

#[test]
fn test_query_journal_basic_functionality() {
    let mut journal = stress_test_journal();

    let query = Query::new(1640995200000000, 1640998800000000);
    assert_eq!(query.start_time_utc, 1640995200000000);
    assert_eq!(query.end_time_utc, 1640998800000000);
    assert!(query.hostname.is_none());
    assert!(query.unit.is_none());
    assert!(query.message_contains.is_none());

    let query_with_filters = Query::new(1640995200000000, 1640998800000000)
        .hostname("web-server")
        .unit("nginx.service")
        .message_contains("HTTP");

    assert_eq!(query_with_filters.hostname, Some("web-server".to_string()));
    assert_eq!(query_with_filters.unit, Some("nginx.service".to_string()));
    assert_eq!(query_with_filters.message_contains, Some("HTTP".to_string()));

    match query_journal(&mut journal, query) {
        Ok(entries) => {
            println!("Query returned {} entries", entries.len());
            for window in entries.windows(2) {
                assert!(
                    window[0].timestamp_utc <= window[1].timestamp_utc,
                    "Entries should be in chronological order"
                );
            }
            assert_eq!(entries.len(), 7);
        },
        Err(e) => {
            panic!("Query failed: {}", e.to_string());
        },
    }
}

#[test]
fn test_query_journal_with_stress_test_data() {
    let mut journal = stress_test_journal();

    let first_hour_start = 1640995200000000;
    let first_hour_end = 1640998800000000;

    let query = Query::new(first_hour_start, first_hour_end);
    let entries =
        query_journal(&mut journal, query).expect("Should be able to query stress test data");

    assert_eq!(entries.len(), 7);
    for entry in &entries {
        assert!(entry.timestamp_utc >= first_hour_start);
        assert!(entry.timestamp_utc <= first_hour_end);
    }

    let web_server_query =
        Query::new(first_hour_start, first_hour_end + 3600000000).hostname("web-server");

    let web_server_entries = query_journal(&mut journal, web_server_query)
        .expect("Should be able to query web-server entries");

    assert_eq!(web_server_entries.len(), 6);
    for entry in &web_server_entries {
        assert_eq!(entry.hostname, Some("web-server".to_string()));
    }

    let nginx_query =
        Query::new(first_hour_start, first_hour_end + 3600000000).unit("nginx.service");

    let nginx_entries =
        query_journal(&mut journal, nginx_query).expect("Should be able to query nginx entries");

    assert_eq!(nginx_entries.len(), 5);
    for entry in &nginx_entries {
        assert_eq!(entry.unit, Some("nginx.service".to_string()));
    }

    let http_query =
        Query::new(first_hour_start, first_hour_end + 3600000000).message_contains("HTTP");

    let http_entries =
        query_journal(&mut journal, http_query).expect("Should be able to query HTTP entries");

    assert_eq!(http_entries.len(), 6);
    for entry in &http_entries {
        assert!(entry.message.contains("HTTP"));
    }

    let combined_query = Query::new(first_hour_start, first_hour_end + 3600000000)
        .hostname("web-server")
        .unit("nginx.service")
        .message_contains("200");

    let combined_entries = query_journal(&mut journal, combined_query)
        .expect("Should be able to query with combined filters");

    for entry in &combined_entries {
        assert_eq!(entry.hostname, Some("web-server".to_string()));
        assert_eq!(entry.unit, Some("nginx.service".to_string()));
        assert!(entry.message.contains("200"));
    }
    assert_eq!(
        combined_entries,
        vec![
            found("web-server", "nginx.service", 0, "GET /index.html HTTP/1.1 200"),
            found("web-server", "nginx.service", 1800, "POST /login HTTP/1.1 200"),
            found("web-server", "nginx.service", 5400, "GET /late HTTP/1.1 200"),
            found("web-server", "nginx.service", 7200, "GET /edge HTTP/1.1 200"),
        ]
    );
}

#[test]
fn test_query_journal_edge_cases() {
    let mut journal = stress_test_journal();

    let invalid_query = Query::new(1640998800000000, 1640995200000000);
    let empty_entries =
        query_journal(&mut journal, invalid_query).expect("Should handle invalid time range");
    assert_eq!(empty_entries.len(), 0, "Invalid time range should return no entries");

    let narrow_query = Query::new(1640995200000000, 1640995200000001);
    let narrow_entries =
        query_journal(&mut journal, narrow_query).expect("Should handle narrow time range");
    assert_eq!(narrow_entries.len(), 1);

    let future_start = 2000000000000000;
    let future_end = 2000000001000000;
    let future_query = Query::new(future_start, future_end);
    let future_entries =
        query_journal(&mut journal, future_query).expect("Should handle future time range");
    assert_eq!(future_entries.len(), 0, "Future time range should return no entries");

    let nonexistent_query =
        Query::new(1640995200000000, 1640998800000000).hostname("nonexistent-server");
    let nonexistent_entries =
        query_journal(&mut journal, nonexistent_query).expect("Should handle non-existent hostname");
    assert_eq!(nonexistent_entries.len(), 0);

    let nonexistent_unit_query =
        Query::new(1640995200000000, 1640998800000000).unit("nonexistent.service");
    let nonexistent_unit_entries =
        query_journal(&mut journal, nonexistent_unit_query).expect("Should handle non-existent unit");
    assert_eq!(nonexistent_unit_entries.len(), 0);

    let nonmatching_query = Query::new(1640995200000000, 1640998800000000)
        .message_contains("NONEXISTENT_MESSAGE_PATTERN");
    let nonmatching_entries = query_journal(&mut journal, nonmatching_query)
        .expect("Should handle non-matching message filter");
    assert_eq!(nonmatching_entries.len(), 0);

    let long_query = Query::new(0, u64::MAX);
    match query_journal(&mut journal, long_query) {
        Ok(long_entries) => {
            assert!(long_entries.len() > 0, "Should find some entries in long time range");
            assert_eq!(long_entries.len(), 10);
        },
        Err(e) => {
            panic!("Long time range query failed: {}", e.to_string());
        },
    }
}

#[test]
fn test_query_journal_timestamp_precision() {
    let mut journal = stress_test_journal();

    let precise_start = 1640995200000000;
    let precise_end = 1640995200000001;

    let precise_query = Query::new(precise_start, precise_end);
    let precise_entries =
        query_journal(&mut journal, precise_query).expect("Should handle precise timestamps");

    assert_eq!(precise_entries.len(), 1);
    for entry in &precise_entries {
        assert_eq!(entry.timestamp_utc, precise_start);
    }

    let boundary_start = 1640995500000000;
    let boundary_end = 1640995500000000;

    let boundary_query = Query::new(boundary_start, boundary_end);
    let boundary_entries =
        query_journal(&mut journal, boundary_query).expect("Should handle boundary timestamps");

    assert_eq!(boundary_entries.len(), 1);
    for entry in &boundary_entries {
        assert_eq!(entry.timestamp_utc, boundary_start);
    }
}

#[test]
fn both_ends_of_the_range_are_inclusive() {
    let mut journal = stress_test_journal();
    let entries = query_journal(&mut journal, Query::new(HOUR_START + 60_000_000, HOUR_END)).unwrap();
    let times: Vec<u64> = entries.iter().map(|e| (e.timestamp_utc - HOUR_START) / 1_000_000).collect();
    assert_eq!(times, vec![60, 120, 300, 600, 1800, 3600]);
    let entries =
        query_journal(&mut journal, Query::new(HOUR_START + 60_000_001, HOUR_END - 1)).unwrap();
    let times: Vec<u64> = entries.iter().map(|e| (e.timestamp_utc - HOUR_START) / 1_000_000).collect();
    assert_eq!(times, vec![120, 300, 600, 1800]);
}

#[test]
fn an_inverted_range_is_empty_whatever_the_filters() {
    let mut journal = stress_test_journal();
    for query in [
        Query::new(HOUR_END, HOUR_START),
        Query::new(HOUR_START + 1, HOUR_START),
        Query::new(u64::MAX, 0),
        Query::new(HOUR_END, HOUR_START).hostname("web-server").message_contains("HTTP"),
    ] {
        assert_eq!(query_journal(&mut journal, query), Ok(vec![]));
    }
}

#[test]
fn an_entry_without_fields_gets_the_default_message() {
    let mut journal = Journal::new();
    journal.append(1, vec!["PRIORITY=6".to_string()]).unwrap();
    journal.append(2, vec!["MESSAGE=".to_string(), "_HOSTNAME=h".to_string()]).unwrap();
    let entries = query_journal(&mut journal, Query::new(0, 10)).unwrap();
    assert_eq!(
        entries,
        vec![
            Entry {
                hostname: None,
                unit: None,
                timestamp_utc: 1,
                message: "(no message)".to_string()
            },
            Entry {
                hostname: Some("h".to_string()),
                unit: None,
                timestamp_utc: 2,
                message: String::new()
            },
        ]
    );
    let filtered = query_journal(&mut journal, Query::new(0, 10).message_contains("no mess")).unwrap();
    assert_eq!(filtered.len(), 1);
    assert_eq!(filtered[0].timestamp_utc, 1);
}

#[test]
fn a_query_replaces_the_matches_that_were_attached() {
    let mut journal = stress_test_journal();
    journal.add_match("_HOSTNAME", "database-server").unwrap();
    let entries = query_journal(&mut journal, Query::new(HOUR_START, HOUR_END)).unwrap();
    assert_eq!(entries.len(), 7);
}

#[test]
fn a_query_with_a_nul_in_its_filter_is_refused() {
    let mut journal = stress_test_journal();
    assert_eq!(
        query_journal(&mut journal, Query::new(0, u64::MAX).hostname("web\0server")),
        Err(JournalError::InvalidArgument)
    );
    assert_eq!(
        query_journal(&mut journal, Query::new(0, u64::MAX).unit("\0")),
        Err(JournalError::InvalidArgument)
    );
    assert_eq!(
        query_journal(&mut journal, Query::new(u64::MAX, 0).unit("\0")),
        Err(JournalError::InvalidArgument)
    );
    let with_nul_in_message = Query::new(0, u64::MAX).message_contains("\0");
    assert_eq!(query_journal(&mut journal, with_nul_in_message), Ok(vec![]));
}

#[test]
fn the_builders_take_slices_and_strings() {
    let query = Query::new(1, 2)
        .hostname("web".to_string())
        .unit(&"nginx.service".to_string())
        .message_contains("x");
    assert_eq!(
        query,
        Query {
            hostname: Some("web".to_string()),
            unit: Some("nginx.service".to_string()),
            start_time_utc: 1,
            end_time_utc: 2,
            message_contains: Some("x".to_string()),
        }
    );
    assert_eq!(query.clone().hostname("other").hostname, Some("other".to_string()));
}

#[test]
fn read_field_strips_the_field_name() {
    let mut journal = stress_test_journal();
    assert_eq!(read_field(&journal, "MESSAGE"), Err(JournalError::NotPositioned));
    journal.seek_head().unwrap();
    assert_eq!(journal.next(), Ok(true));
    assert_eq!(read_field(&journal, "_HOSTNAME"), Ok(Some("web-server".to_string())));
    assert_eq!(read_field(&journal, "MESSAGE"), Ok(Some("GET /index.html HTTP/1.1 200".to_string())));
    assert_eq!(read_field(&journal, "PRIORITY"), Ok(None));
    assert_eq!(read_field(&journal, "\0"), Err(JournalError::InvalidArgument));
}
