use cert_days::openssl::table::{Table, TableRow};

fn data(host: &str, days: i64) -> TableRow {
    TableRow::new(host.to_string(), "Org".to_string(), days)
}

fn table_of(rows: &[TableRow]) -> Table {
    let mut table = Table::new();
    for row in rows {
        table.add(row.clone());
    }
    table
}

fn hosts(table: &Table) -> Vec<String> {
    table
        .rows
        .iter()
        .map(|row| match row {
            TableRow::Header(host, _, _) => host.clone(),
            TableRow::Data(host, _, _) => host.clone(),
        })
        .collect()
}

fn sorted_by_std(rows: &[TableRow], by_days: bool) -> Vec<TableRow> {
    let mut sorted = rows.to_vec();
    sorted.sort_by(|a, b| match (a, b) {
        (TableRow::Header(_, _, _), TableRow::Header(_, _, _)) => std::cmp::Ordering::Equal,
        (TableRow::Header(_, _, _), TableRow::Data(_, _, _)) => std::cmp::Ordering::Less,
        (TableRow::Data(_, _, _), TableRow::Header(_, _, _)) => std::cmp::Ordering::Greater,
        (TableRow::Data(host_a, _, days_a), TableRow::Data(host_b, _, days_b)) => {
            if by_days {
                days_a.cmp(days_b)
            } else {
                host_a.cmp(host_b)
            }
        }
    });
    sorted
}

fn scrambled(count: usize, seed: u64) -> Vec<TableRow> {
    let names = ["a", "b", "ab", "aa", "", "B", "é", "zz", "a.b", "a-b", "example.com"];
    let mut state = seed;
    let mut rows = Vec::new();
    for i in 0..count {
        state = state.wrapping_mul(6364136223846793005).wrapping_add(1442695040888963407);
        let pick = (state >> 33) as usize;
        if pick % 9 == 0 {
            rows.push(TableRow::Header(format!("H{}", i), "O".to_string(), "D".to_string()));
        } else {
            let host = names[pick % names.len()];
            let days = ((pick / 16) % 7) as i64 - 3;
            rows.push(TableRow::new(host.to_string(), format!("org {}", i), days));
        }
    }
    rows
}

#[test]
fn order_by_host_sorts_the_hosts() {
    let mut table = table_of(&[
        TableRow::header(),
        data("c.example", 1),
        data("a.example", 3),
        data("b.example", 2),
    ]);
    table.order_by_host();
    assert_eq!(hosts(&table), ["HOST", "a.example", "b.example", "c.example"]);
}

#[test]
fn order_by_host_compares_bytes() {
    let mut table = table_of(&[data("b", 1), data("a", 1), data("B", 1), data("é", 1), data("ab", 1), data("", 1)]);
    table.order_by_host();
    assert_eq!(hosts(&table), ["", "B", "a", "ab", "b", "é"]);
}

#[test]
fn order_by_remaining_days_puts_the_fewest_days_first() {
    let mut table = table_of(&[
        TableRow::header(),
        data("a.example", 30),
        data("b.example", -5),
        data("c.example", 7),
        data("d.example", 0),
    ]);
    table.order_by_remaining_days();
    assert_eq!(hosts(&table), ["HOST", "b.example", "d.example", "c.example", "a.example"]);
}

#[test]
fn the_header_comes_first_wherever_it_stood() {
    let mut by_host = table_of(&[data("b", 2), data("a", 1), TableRow::header()]);
    by_host.order_by_host();
    assert_eq!(hosts(&by_host), ["HOST", "a", "b"]);
    let mut by_days = table_of(&[data("b", 2), TableRow::header(), data("a", 1)]);
    by_days.order_by_remaining_days();
    assert_eq!(hosts(&by_days), ["HOST", "a", "b"]);
}

#[test]
fn rows_that_the_order_does_not_tell_apart_stay_as_they_stood() {
    let first = TableRow::new("same".to_string(), "first".to_string(), 5);
    let second = TableRow::new("same".to_string(), "second".to_string(), 5);
    let third = TableRow::new("same".to_string(), "third".to_string(), 5);
    let mut table = table_of(&[data("z", 9), first.clone(), second.clone(), data("a", 1), third.clone()]);
    table.order_by_host();
    assert_eq!(table.rows, [data("a", 1), first.clone(), second.clone(), third.clone(), data("z", 9)]);
    table.order_by_remaining_days();
    assert_eq!(table.rows, [data("a", 1), first, second, third, data("z", 9)]);
}

#[test]
fn several_headers_stay_as_they_stood() {
    let one = TableRow::Header("1".to_string(), "x".to_string(), "y".to_string());
    let two = TableRow::Header("2".to_string(), "x".to_string(), "y".to_string());
    let mut table = table_of(&[data("b", 2), two.clone(), data("a", 1), one.clone()]);
    table.order_by_host();
    assert_eq!(table.rows, [two.clone(), one.clone(), data("a", 1), data("b", 2)]);
    table.order_by_remaining_days();
    assert_eq!(table.rows, [two, one, data("a", 1), data("b", 2)]);
}

#[test]
fn sorting_an_empty_table_leaves_it_empty() {
    let mut table = Table::new();
    table.order_by_host().order_by_remaining_days();
    assert!(table.rows.is_empty());
}

#[test]
fn sorting_keeps_the_widths() {
    let mut table = table_of(&[TableRow::header(), data("a-long-host-name.example", 12345678), data("a", 1)]);
    let widths = (table.len_url, table.len_org, table.len_remaining);
    table.order_by_host();
    assert_eq!((table.len_url, table.len_org, table.len_remaining), widths);
    table.order_by_remaining_days();
    assert_eq!((table.len_url, table.len_org, table.len_remaining), widths);
}

#[test]
fn the_last_sort_wins() {
    let rows = [TableRow::header(), data("a.example", 30), data("b.example", 10), data("c.example", 20)];
    let mut both = table_of(&rows);
    both.order_by_host().order_by_remaining_days();
    let mut days_only = table_of(&rows);
    days_only.order_by_remaining_days();
    assert_eq!(both.rows, days_only.rows);
    assert_eq!(hosts(&both), ["HOST", "b.example", "c.example", "a.example"]);
    assert_eq!(both.print(), days_only.print());
    let mut host_only = table_of(&rows);
    host_only.order_by_host();
    assert_ne!(host_only.rows, both.rows);
}

#[test]
fn after_both_sorts_rows_with_the_same_days_stand_by_host() {
    let rows = [data("b.example", 5), data("a.example", 5)];
    let mut both = table_of(&rows);
    both.order_by_host().order_by_remaining_days();
    assert_eq!(hosts(&both), ["a.example", "b.example"]);
    let mut days_only = table_of(&rows);
    days_only.order_by_remaining_days();
    assert_eq!(hosts(&days_only), ["b.example", "a.example"]);
}

#[test]
fn the_last_sort_wins_where_equal_days_stand_by_host() {
    let rows = [data("c", 7), data("a", 5), data("d", 1), data("b", 5), data("c", 5), data("e", 7)];
    let mut both = table_of(&rows);
    both.order_by_host().order_by_remaining_days();
    let mut days_only = table_of(&rows);
    days_only.order_by_remaining_days();
    assert_eq!(both.rows, days_only.rows);
}

#[test]
fn both_orders_agree_with_the_stable_sort_of_the_standard_library() {
    for seed in 0..40u64 {
        let rows = scrambled((seed % 23) as usize, seed);
        let mut by_host = table_of(&rows);
        by_host.order_by_host();
        assert_eq!(by_host.rows, sorted_by_std(&rows, false));
        let mut by_days = table_of(&rows);
        by_days.order_by_remaining_days();
        assert_eq!(by_days.rows, sorted_by_std(&rows, true));
        let mut both = table_of(&rows);
        both.order_by_host().order_by_remaining_days();
        assert_eq!(both.rows, sorted_by_std(&sorted_by_std(&rows, false), true));
    }
}
