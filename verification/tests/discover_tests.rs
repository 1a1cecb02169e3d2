use journald_query::discover::{
    discover_hosts, discover_hosts_and_units, discover_services_by_scan, discover_units,
    insert_sorted, probe, sorted_unique, strip_field_values,
};
use journald_query::{discover_services, Host, Hosts, Journal, JournalError};

fn entry(host: &str, unit: &str, message: &str) -> Vec<String> {
    vec![
        format!("_HOSTNAME={}", host),
        format!("_SYSTEMD_UNIT={}", unit),
        format!("MESSAGE={}", message),
    ]
}

fn multi_host_journal() -> Journal {
    let mut journal = Journal::new();
    let base: u64 = 1640995200000000;
    let rows = [
        ("web-server", "nginx.service", "GET /index.html HTTP/1.1 200"),
        ("database-server", "postgresql.service", "checkpoint complete"),
        ("monitoring-server", "prometheus.service", "scrape finished"),
        ("web-server", "apache2.service", "GET /status HTTP/1.1 404"),
        ("database-server", "mysql.service", "slow query"),
        ("monitoring-server", "grafana.service", "dashboard saved"),
        ("web-server", "nginx.service", "POST /login HTTP/1.1 302"),
    ];
    for (i, (host, unit, message)) in rows.iter().enumerate() {
        journal.append(base + (i as u64) * 1_000_000, entry(host, unit, message)).unwrap();
    }
    journal
}

#[test]
fn test_hostname_extraction() {
    let raw_values = vec![
        "_HOSTNAME=server1".to_string(),
        "_HOSTNAME=server2".to_string(),
        "_HOSTNAME=localhost".to_string(),
    ];

    let hosts: Vec<String> = strip_field_values(&raw_values, "_HOSTNAME");

    assert_eq!(hosts, vec!["server1", "server2", "localhost"]);
}

#[test]
fn test_unit_extraction() {
    let raw_values = vec![
        "_SYSTEMD_UNIT=sshd.service".to_string(),
        "_SYSTEMD_UNIT=nginx.service".to_string(),
        "_SYSTEMD_UNIT=systemd-logind.service".to_string(),
    ];

    let units: Vec<String> = strip_field_values(&raw_values, "_SYSTEMD_UNIT");

    assert_eq!(units, vec!["sshd.service", "nginx.service", "systemd-logind.service"]);
}

#[test]
fn test_malformed_values_filtered() {
    let raw_values = vec![
        "_HOSTNAME=server1".to_string(),
        "INVALID=value".to_string(),
        "_HOSTNAME=server2".to_string(),
        "".to_string(),
    ];

    let hosts: Vec<String> = strip_field_values(&raw_values, "_HOSTNAME");

    assert_eq!(hosts, vec!["server1", "server2"]);
}

#[test]
fn test_host_struct_creation() {
    let host = Host {
        hostname: "test-server".to_string(),
        units: vec!["sshd.service".to_string(), "nginx.service".to_string()],
    };

    assert_eq!(host.hostname, "test-server");
    assert_eq!(host.units.len(), 2);
    assert!(host.units.contains(&"sshd.service".to_string()));
}

#[test]
fn test_hosts_struct_methods() {
    let hosts = Hosts {
        hosts: vec![
            Host {
                hostname: "server1".to_string(),
                units: vec!["sshd.service".to_string(), "nginx.service".to_string()],
            },
            Host { hostname: "server2".to_string(), units: vec!["mysql.service".to_string()] },
        ],
    };

    assert_eq!(hosts.len(), 2);
    assert!(!hosts.is_empty());

    let hostnames = hosts.hostnames();
    assert_eq!(hostnames.len(), 2);
    assert!(hostnames.contains(&&"server1".to_string()));
    assert!(hostnames.contains(&&"server2".to_string()));

    let all_units = hosts.all_units();
    assert_eq!(all_units.len(), 3);
    assert!(all_units.contains(&&"sshd.service".to_string()));
    assert!(all_units.contains(&&"nginx.service".to_string()));
    assert!(all_units.contains(&&"mysql.service".to_string()));

    let found_host = hosts.find_host("server1");
    assert!(found_host.is_some());
    assert_eq!(found_host.unwrap().hostname, "server1");

    let not_found = hosts.find_host("nonexistent");
    assert!(not_found.is_none());
}

#[test]
fn test_empty_hosts() {
    let hosts = Hosts::new();
    assert_eq!(hosts.len(), 0);
    assert!(hosts.is_empty());
    assert_eq!(hosts.hostnames().len(), 0);
    assert_eq!(hosts.all_units().len(), 0);
}

#[test]
fn test_discover_functions_with_test_files() {
    println!("Note: discover_hosts/discover_units functions expect directory structure");
    println!("Individual file testing is done through Journal::open_files in other tests");
}

#[test]
fn test_discover_services_api_with_test_files() {
    let mut journal = multi_host_journal();

    let services =
        discover_services(&mut journal).expect("discover_services should work with test journal");

    println!("Found {} hosts: {:?}", services.len(), services.hostnames());

    assert_eq!(services.len(), 3, "Should discover exactly 3 hosts from test journal");

    let database_server =
        services.find_host("database-server").expect("Should find database-server host");
    println!("database-server units: {:?}", database_server.units);
    assert_eq!(database_server.units.len(), 2, "database-server should have exactly 2 units");
    assert!(database_server.units.contains(&"mysql.service".to_string()));
    assert!(database_server.units.contains(&"postgresql.service".to_string()));

    let web_server = services.find_host("web-server").expect("Should find web-server host");
    println!("web-server units: {:?}", web_server.units);
    assert_eq!(web_server.units.len(), 2, "web-server should have exactly 2 units");
    assert!(web_server.units.contains(&"nginx.service".to_string()));
    assert!(web_server.units.contains(&"apache2.service".to_string()));

    let monitoring_server =
        services.find_host("monitoring-server").expect("Should find monitoring-server host");
    println!("monitoring-server units: {:?}", monitoring_server.units);
    assert_eq!(monitoring_server.units.len(), 2, "monitoring-server should have exactly 2 units");
    assert!(monitoring_server.units.contains(&"prometheus.service".to_string()));
    assert!(monitoring_server.units.contains(&"grafana.service".to_string()));

    assert!(!database_server.units.contains(&"nginx.service".to_string()));
    assert!(!database_server.units.contains(&"apache2.service".to_string()));
    assert!(!database_server.units.contains(&"prometheus.service".to_string()));
    assert!(!database_server.units.contains(&"grafana.service".to_string()));

    assert!(!web_server.units.contains(&"mysql.service".to_string()));
    assert!(!web_server.units.contains(&"postgresql.service".to_string()));
    assert!(!web_server.units.contains(&"prometheus.service".to_string()));
    assert!(!web_server.units.contains(&"grafana.service".to_string()));

    assert!(!monitoring_server.units.contains(&"mysql.service".to_string()));
    assert!(!monitoring_server.units.contains(&"postgresql.service".to_string()));
    assert!(!monitoring_server.units.contains(&"nginx.service".to_string()));
    assert!(!monitoring_server.units.contains(&"apache2.service".to_string()));
}

#[test]
fn discovery_is_sorted_and_exact() {
    let mut journal = multi_host_journal();
    let services = discover_services(&mut journal).unwrap();
    let expected = Hosts {
        hosts: vec![
            Host {
                hostname: "database-server".to_string(),
                units: vec!["mysql.service".to_string(), "postgresql.service".to_string()],
            },
            Host {
                hostname: "monitoring-server".to_string(),
                units: vec!["grafana.service".to_string(), "prometheus.service".to_string()],
            },
            Host {
                hostname: "web-server".to_string(),
                units: vec!["apache2.service".to_string(), "nginx.service".to_string()],
            },
        ],
    };
    assert_eq!(services, expected);
    assert_eq!(journal.len(), 7);
}

#[test]
fn discovery_of_an_empty_journal_is_empty() {
    let mut journal = Journal::new();
    let services = discover_services(&mut journal).unwrap();
    assert!(services.is_empty());
    assert_eq!(discover_hosts(&mut journal).unwrap(), Vec::<String>::new());
    assert_eq!(discover_units(&mut journal).unwrap(), Vec::<String>::new());
}

#[test]
fn a_host_without_units_is_listed_with_none() {
    let mut journal = Journal::new();
    journal.append(1, vec!["_HOSTNAME=bare".to_string(), "MESSAGE=boot".to_string()]).unwrap();
    journal.append(2, entry("web", "nginx.service", "up")).unwrap();
    journal.append(3, vec!["_SYSTEMD_UNIT=orphan.service".to_string()]).unwrap();
    let services = discover_services(&mut journal).unwrap();
    assert_eq!(
        services,
        Hosts {
            hosts: vec![
                Host { hostname: "bare".to_string(), units: vec![] },
                Host { hostname: "web".to_string(), units: vec!["nginx.service".to_string()] },
            ],
        }
    );
}

#[test]
fn discovery_ignores_the_matches_that_are_attached() {
    let mut journal = multi_host_journal();
    journal.add_match("_HOSTNAME", "web-server").unwrap();
    let (hosts, units) = discover_hosts_and_units(&mut journal).unwrap();
    assert_eq!(hosts, vec!["web-server", "database-server", "monitoring-server"]);
    assert_eq!(
        units,
        vec![
            "nginx.service",
            "postgresql.service",
            "prometheus.service",
            "apache2.service",
            "mysql.service",
            "grafana.service"
        ]
    );
}

#[test]
fn discovery_fails_on_a_name_that_cannot_be_matched() {
    let mut journal = Journal::new();
    journal.append(1, entry("web", "nginx.service", "up")).unwrap();
    journal.append(2, entry("bad\0host", "cron.service", "tick")).unwrap();
    assert_eq!(discover_services(&mut journal), Err(JournalError::InvalidArgument));

    let mut units_only = Journal::new();
    units_only.append(1, vec!["_SYSTEMD_UNIT=bad\0unit".to_string()]).unwrap();
    assert_eq!(discover_services(&mut units_only), Ok(Hosts::new()));

    let mut hosts_only = Journal::new();
    hosts_only.append(1, vec!["_HOSTNAME=bad\0host".to_string()]).unwrap();
    assert_eq!(
        discover_services(&mut hosts_only),
        Ok(Hosts { hosts: vec![Host { hostname: "bad\0host".to_string(), units: vec![] }] })
    );
}

#[test]
fn probe_tells_whether_a_unit_logged_on_a_host() {
    let mut journal = multi_host_journal();
    assert_eq!(probe(&mut journal, "web-server", "nginx.service"), Ok(true));
    assert_eq!(probe(&mut journal, "web-server", "mysql.service"), Ok(false));
    assert_eq!(probe(&mut journal, "nobody", "nginx.service"), Ok(false));
    assert_eq!(probe(&mut journal, "web\0", "nginx.service"), Err(JournalError::InvalidArgument));
    assert_eq!(probe(&mut journal, "web-server", "\0"), Err(JournalError::InvalidArgument));
}

#[test]
fn sorted_unique_orders_and_drops_repeats() {
    let values: Vec<String> =
        ["b", "a", "c", "a", "", "b", "ab"].iter().map(|s| s.to_string()).collect();
    assert_eq!(sorted_unique(&values), vec!["", "a", "ab", "b", "c"]);
    assert_eq!(sorted_unique(&Vec::new()), Vec::<String>::new());

    let mut list: Vec<String> = vec!["a".to_string(), "c".to_string()];
    insert_sorted(&mut list, "b".to_string());
    insert_sorted(&mut list, "c".to_string());
    insert_sorted(&mut list, "".to_string());
    insert_sorted(&mut list, "d".to_string());
    assert_eq!(list, vec!["", "a", "b", "c", "d"]);
}

#[test]
fn one_pass_finds_what_probing_finds() {
    let mut journal = multi_host_journal();
    let probed = discover_services(&mut journal).unwrap();
    let scanned = discover_services_by_scan(&mut journal).unwrap();
    assert_eq!(scanned, probed);
    assert_eq!(scanned.len(), 3);
    assert_eq!(
        scanned.all_units(),
        vec![
            "mysql.service",
            "postgresql.service",
            "grafana.service",
            "prometheus.service",
            "apache2.service",
            "nginx.service"
        ]
    );

    let mut empty = Journal::new();
    assert_eq!(discover_services_by_scan(&mut empty), Ok(Hosts::new()));
}

#[test]
fn one_pass_goes_by_the_first_value_of_a_field() {
    let mut journal = Journal::new();
    journal
        .append(
            1,
            vec![
                "_HOSTNAME=first".to_string(),
                "_HOSTNAME=second".to_string(),
                "_SYSTEMD_UNIT=a.service".to_string(),
            ],
        )
        .unwrap();
    journal.append(2, vec!["_SYSTEMD_UNIT=lonely.service".to_string()]).unwrap();
    journal.append(3, vec!["_HOSTNAME=bad\0host".to_string()]).unwrap();
    journal.add_match("_HOSTNAME", "nobody").unwrap();
    let scanned = discover_services_by_scan(&mut journal).unwrap();
    assert_eq!(
        scanned,
        Hosts {
            hosts: vec![
                Host { hostname: "bad\0host".to_string(), units: vec![] },
                Host { hostname: "first".to_string(), units: vec!["a.service".to_string()] },
            ],
        }
    );
}
