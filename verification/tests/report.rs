use cert_days::openssl::remaining_days::{Failure, RemainingDays};
use cert_days::openssl::organisation::organisation_from_diagnostics;
use cert_days::openssl::table::{Table, TableRow};
use cert_days::report::{
    add_successful_parsed_remaining_days, add_successful_parsed_remaining_days_on, sorted_text, tabulate,
    tabulate_on,
};
use chrono::Datelike;

fn day(year: i32, month: u32, day_of_month: u32) -> i32 {
    chrono::NaiveDate::from_ymd_opt(year, month, day_of_month).unwrap().num_days_from_ce()
}

fn fetched(domain: &str, organisation: &str, stdout: &str) -> RemainingDays {
    RemainingDays::new(stdout.to_string(), String::new(), organisation.to_string(), domain.to_string())
}

fn unreachable_host(domain: &str, message: &str) -> RemainingDays {
    RemainingDays::new(String::new(), message.to_string(), String::new(), domain.to_string())
}

fn batch() -> Vec<RemainingDays> {
    vec![
        fetched("c.example", "Let's Encrypt", "notAfter=Jan 31 00:00:00 2025 GMT\n"),
        unreachable_host("nonexistent.invalid", "unable to load certificate"),
        fetched("a.example", "Example Org", "notAfter=Jan 11 00:00:00 2025 GMT\n"),
        fetched("broken.example", "Org", "garbage"),
        fetched("b.example", "", "notAfter=Dec 22 10:00:00 2024 GMT\n"),
    ]
}

#[test]
fn a_host_that_was_read_gets_a_row() {
    let mut table = Table::new();
    table.add(TableRow::header());
    let host = fetched("example.com", "Example Org", "notAfter=Jan 11 00:00:00 2025 GMT\n");
    assert_eq!(add_successful_parsed_remaining_days_on(&mut table, host, day(2025, 1, 1)), None);
    assert_eq!(
        table.rows,
        [TableRow::header(), TableRow::Data("example.com".to_string(), "\"Example Org\"".to_string(), 10)]
    );
    assert_eq!((table.len_url, table.len_org, table.len_remaining), (12, 14, 5));
}

#[test]
fn a_host_that_could_not_be_fetched_gets_no_row() {
    let mut table = Table::new();
    table.add(TableRow::header());
    let before = table.clone();
    let host = RemainingDays::new(
        "notAfter=Jan 11 00:00:00 2025 GMT\n".to_string(),
        "connect: Connection refused".to_string(),
        "Org".to_string(),
        "nonexistent.invalid".to_string(),
    );
    assert_eq!(
        add_successful_parsed_remaining_days_on(&mut table, host, day(2025, 1, 1)),
        Some(Failure::Fetch {
            hostname: "nonexistent.invalid".to_string(),
            message: "connect: Connection refused".to_string()
        })
    );
    assert_eq!(table, before);
}

#[test]
fn a_host_whose_output_cannot_be_read_gets_no_row() {
    let mut table = Table::new();
    let host = fetched("broken.example", "Org", "notAfter=soon");
    assert_eq!(
        add_successful_parsed_remaining_days_on(&mut table, host, day(2025, 1, 1)),
        Some(Failure::Parse {
            hostname: "broken.example".to_string(),
            message: "missing expiration date".to_string()
        })
    );
    assert_eq!(table, Table::new());
    let host = fetched("broken.example", "Org", "notAfter=Jan 99 00:00:00 2025 GMT");
    assert_eq!(
        add_successful_parsed_remaining_days_on(&mut table, host, day(2025, 1, 1)),
        Some(Failure::Parse {
            hostname: "broken.example".to_string(),
            message: "unparseable expiration date".to_string()
        })
    );
    assert_eq!(table, Table::new());
}

#[test]
fn a_host_is_added_for_today() {
    let mut table = Table::new();
    let host = fetched("example.com", "Example Org", "notAfter=Jan 11 00:00:00 2125 GMT\n");
    let expiry = chrono::NaiveDate::from_ymd_opt(2125, 1, 11).unwrap();
    let before = (expiry - chrono::Local::now().date_naive()).num_days();
    assert_eq!(add_successful_parsed_remaining_days(&mut table, host), None);
    let after = (expiry - chrono::Local::now().date_naive()).num_days();
    assert_eq!(table.rows.len(), 1);
    match &table.rows[0] {
        TableRow::Data(host, organisation, days) => {
            assert_eq!(host, "example.com");
            assert_eq!(organisation, "\"Example Org\"");
            assert!(after <= *days && *days <= before);
        }
        TableRow::Header(_, _, _) => panic!("a header where a data row was added"),
    }
    let failed = unreachable_host("nonexistent.invalid", "no route to host");
    assert_eq!(
        add_successful_parsed_remaining_days(&mut table, failed),
        Some(Failure::Fetch { hostname: "nonexistent.invalid".to_string(), message: "no route to host".to_string() })
    );
    assert_eq!(table.rows.len(), 1);
}

#[test]
fn an_empty_batch_gives_the_header_alone() {
    let report = tabulate_on(Vec::new(), day(2025, 1, 1));
    assert_eq!(report.table.rows, [TableRow::header()]);
    assert!(report.failures.is_empty());
    assert_eq!(report.table.print(), "HOST  ORGANISATION  DAYS \n");
}

#[test]
fn every_host_of_a_batch_is_accounted_for() {
    let report = tabulate_on(batch(), day(2025, 1, 1));
    assert_eq!(report.table.rows.len() - 1 + report.failures.len(), batch().len());
    assert_eq!(
        report.table.rows,
        [
            TableRow::header(),
            TableRow::Data("c.example".to_string(), "\"Let's Encrypt\"".to_string(), 30),
            TableRow::Data("a.example".to_string(), "\"Example Org\"".to_string(), 10),
            TableRow::Data("b.example".to_string(), "\"\"".to_string(), -10),
        ]
    );
    assert_eq!(
        report.failures,
        [
            Failure::Fetch {
                hostname: "nonexistent.invalid".to_string(),
                message: "unable to load certificate".to_string()
            },
            Failure::Parse { hostname: "broken.example".to_string(), message: "missing expiration date".to_string() },
        ]
    );
}

#[test]
fn hosts_are_accounted_for_in_batches_of_every_size() {
    for size in 0..30usize {
        let mut results = Vec::new();
        for i in 0..size {
            let domain = format!("host{}.example", i);
            results.push(match (i * 7 + size) % 3 {
                0 => fetched(&domain, "Org", "notAfter=Jan 11 00:00:00 2025 GMT\n"),
                1 => unreachable_host(&domain, "connect: Connection refused"),
                _ => fetched(&domain, "Org", "no date"),
            });
        }
        let report = tabulate_on(results, day(2024, 6, 1));
        assert_eq!(report.table.rows.len() - 1 + report.failures.len(), size);
    }
}

#[test]
fn an_unreachable_host_is_not_in_the_table() {
    let report = tabulate_on(batch(), day(2025, 1, 1));
    let text = report.table.print();
    assert!(!text.contains("nonexistent.invalid"));
    assert!(text.contains("a.example"));
    assert!(report.failures.iter().any(|failure| matches!(
        failure,
        Failure::Fetch { hostname, .. } if hostname == "nonexistent.invalid"
    )));
}

#[test]
fn the_report_of_a_batch_sorted_and_shown() {
    let mut report = tabulate_on(batch(), day(2025, 1, 1));
    report.table.order_by_host().order_by_remaining_days();
    let expected = [
        "HOST       ORGANISATION     DAYS ",
        "b.example  \"\"               -10  ",
        "a.example  \"Example Org\"    10   ",
        "c.example  \"Let's Encrypt\"  30   ",
        "",
    ]
    .join("\n");
    assert_eq!(report.table.print(), expected);
}

#[test]
fn a_certificate_without_organisation_is_shown_with_empty_quotes() {
    let organisation = organisation_from_diagnostics("depth=1 CN = Some CA\nverify return:1\n");
    assert_eq!(organisation, "");
    let host = fetched("example.com", &organisation, "notAfter=Jan 11 00:00:00 2025 GMT\n");
    let report = tabulate_on(vec![host], day(2025, 1, 1));
    assert!(report.failures.is_empty());
    assert_eq!(
        report.table.print(),
        "HOST         ORGANISATION  DAYS \nexample.com  \"\"            10   \n"
    );
}

#[test]
fn a_synthetic_certificate_round_trips() {
    let diagnostics = "depth=1 C = US, O = Example Org, CN = Example CA\nverify return:1\n";
    let organisation = organisation_from_diagnostics(diagnostics);
    assert_eq!(organisation, "Example Org");
    let now = chrono::NaiveDate::from_ymd_opt(2030, 5, 25).unwrap();
    let not_after = now + chrono::TimeDelta::days(10);
    let stdout = format!("notAfter={} GMT\n", not_after.format("%b %e 12:00:00 %Y"));
    let host = RemainingDays::new(stdout, String::new(), organisation, "example.com".to_string());
    assert_eq!(host.parse_on(now.num_days_from_ce()), Ok(10));
    let report = tabulate_on(vec![host], now.num_days_from_ce());
    assert_eq!(
        report.table.rows[1],
        TableRow::Data("example.com".to_string(), "\"Example Org\"".to_string(), 10)
    );
}

#[test]
fn a_batch_is_tabulated_for_today() {
    let expiry = chrono::NaiveDate::from_ymd_opt(2125, 1, 11).unwrap();
    let before = (expiry - chrono::Local::now().date_naive()).num_days();
    let report = tabulate(vec![
        fetched("example.com", "Example Org", "notAfter=Jan 11 00:00:00 2125 GMT\n"),
        unreachable_host("nonexistent.invalid", "no route to host"),
    ]);
    let after = (expiry - chrono::Local::now().date_naive()).num_days();
    assert_eq!(report.table.rows.len(), 2);
    assert_eq!(report.failures.len(), 1);
    match &report.table.rows[1] {
        TableRow::Data(_, _, days) => assert!(after <= *days && *days <= before),
        TableRow::Header(_, _, _) => panic!("a header where a data row was added"),
    }
}

#[test]
fn the_text_of_a_report_is_sorted_by_days() {
    let mut report = tabulate_on(batch(), day(2025, 1, 1));
    let failures = report.failures.clone();
    let widths = (report.table.len_url, report.table.len_org, report.table.len_remaining);
    let text = sorted_text(&mut report);
    let expected = [
        "HOST       ORGANISATION     DAYS ",
        "b.example  \"\"               -10  ",
        "a.example  \"Example Org\"    10   ",
        "c.example  \"Let's Encrypt\"  30   ",
        "",
    ]
    .join("\n");
    assert_eq!(text, expected);
    assert_eq!(text, report.table.print());
    assert_eq!(report.failures, failures);
    assert_eq!((report.table.len_url, report.table.len_org, report.table.len_remaining), widths);
}

#[test]
fn in_the_text_of_a_report_hosts_with_the_same_days_stand_by_host() {
    let results = vec![
        fetched("c.example", "Org", "notAfter=Jan 11 00:00:00 2025 GMT\n"),
        fetched("z.example", "Org", "notAfter=Jan  2 00:00:00 2025 GMT\n"),
        fetched("a.example", "Org", "notAfter=Jan 11 00:00:00 2025 GMT\n"),
        fetched("b.example", "Org", "notAfter=Jan 11 00:00:00 2025 GMT\n"),
    ];
    let mut report = tabulate_on(results, day(2025, 1, 1));
    sorted_text(&mut report);
    let hosts: Vec<&str> = report
        .table
        .rows
        .iter()
        .map(|row| match row {
            TableRow::Header(host, _, _) => host.as_str(),
            TableRow::Data(host, _, _) => host.as_str(),
        })
        .collect();
    assert_eq!(hosts, ["HOST", "z.example", "a.example", "b.example", "c.example"]);
}
