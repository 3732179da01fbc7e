//! From what was fetched for a batch of hosts to the report: a row for each
//! host whose certificate could be read, and a failure for each other host.

use vstd::prelude::*;
use vstd::string::*;
use crate::calendar::today;
use crate::openssl::remaining_days::{remaining_on, Failure, FailureView, Fetched, RemainingDays};
use crate::openssl::sorting::{sorted_by, SortKey};
use crate::openssl::table::{header_row, quoted, Row, Table, TableRow, TableView};

verus! {

/// What becomes of one host on the day `today`: its row in the table, or the
/// failure that keeps it out of the table.
///
/// A host whose fetch left diagnostics has failed with them as the message.
/// Otherwise the output is read: the host has a row where it gives the days
/// that remain, and has failed where it does not.
pub open spec fn outcome(fetched: Fetched, today: int) -> Result<Row, FailureView> {
    if fetched.stderr.len() > 0 {
        Err(FailureView::Fetch { hostname: fetched.domain, message: fetched.stderr })
    } else {
        match remaining_on(fetched.stdout, today) {
            Ok(days) => Ok(Row::Data(fetched.domain, quoted(fetched.organisation), days)),
            Err(message) => Err(FailureView::Parse { hostname: fetched.domain, message }),
        }
    }
}

/// `failure` and the table `after` are what adding a host to the table
/// `before` on the day `today` gives.
pub open spec fn is_added_on(
    before: TableView,
    fetched: Fetched,
    today: int,
    after: TableView,
    failure: Option<Failure>,
) -> bool {
    match outcome(fetched, today) {
        Ok(row) => failure is None && after == before.add(row),
        Err(reason) => after == before && match failure {
            Some(given) => given@ == reason,
            None => false,
        },
    }
}

/// Adds the row of a host to the table, or hands back the reason why the
/// host has none; the table is then unchanged.
pub fn add_successful_parsed_remaining_days_on(
    table: &mut Table,
    remaining_days: RemainingDays,
    today: i32,
) -> (failure: Option<Failure>)
    ensures
        is_added_on(old(table)@, remaining_days@, today as int, final(table)@, failure),
        old(table)@.wf() ==> final(table)@.wf(),
{
    if !remaining_days.stderr.as_str().is_empty() {
        return Some(
            Failure::Fetch { hostname: remaining_days.domain, message: remaining_days.stderr },
        );
    }
    match remaining_days.parse_on(today) {
        Ok(days) => {
            table.add(TableRow::new(remaining_days.domain, remaining_days.organisation, days));
            None
        },
        Err(failure) => Some(failure),
    }
}

/// Adds the row of a host to the table as `add_successful_parsed_remaining_days_on`
/// does, for the day that the clock of this machine shows.
pub fn add_successful_parsed_remaining_days(table: &mut Table, remaining_days: RemainingDays) -> (failure:
    Option<Failure>)
    ensures
        exists|day: i32| is_added_on(old(table)@, remaining_days@, day as int, final(table)@, failure),
        old(table)@.wf() ==> final(table)@.wf(),
{
    let day = today();
    let failure = add_successful_parsed_remaining_days_on(table, remaining_days, day);
    assert(is_added_on(old(table)@, remaining_days@, day as int, table@, failure));
    failure
}

/// The report on a batch of hosts: the table, and the failures of the hosts
/// that are not in it.
#[derive(Debug, Clone, PartialEq, Eq)]
pub struct Report {
    pub table: Table,
    pub failures: Vec<Failure>,
}

/// What a report holds.
pub struct ReportView {
    pub table: TableView,
    pub failures: Seq<FailureView>,
}

impl View for Report {
    type V = ReportView;

    open spec fn view(&self) -> ReportView {
        ReportView { table: self.table@, failures: failure_views(self.failures@) }
    }
}

/// What each of the failures holds, in order.
pub open spec fn failure_views(failures: Seq<Failure>) -> Seq<FailureView> {
    Seq::new(failures.len(), |i: int| failures[i]@)
}

/// What was fetched for each host, in order.
pub open spec fn fetched_views(results: Seq<RemainingDays>) -> Seq<Fetched> {
    Seq::new(results.len(), |i: int| results[i]@)
}

/// The table that holds the header and nothing else.
pub open spec fn header_only() -> TableView {
    (TableView { rows: Seq::empty(), len_url: 0, len_org: 0, len_remaining: 0 }).add(header_row())
}

/// The report on a batch on the day `today`: under the header, the rows of
/// the hosts that have one, in the order of the batch; and the failures of
/// the others, in the order of the batch.
pub open spec fn tabulated(results: Seq<Fetched>, today: int) -> ReportView
    decreases results.len(),
{
    if results.len() == 0 {
        ReportView { table: header_only(), failures: Seq::empty() }
    } else {
        let before = tabulated(results.drop_last(), today);
        match outcome(results.last(), today) {
            Ok(row) => ReportView { table: before.table.add(row), failures: before.failures },
            Err(reason) => ReportView { table: before.table, failures: before.failures.push(reason) },
        }
    }
}

/// Every host of a batch is accounted for: the rows of the report, its
/// header apart, and its failures are together as many as the hosts.
pub proof fn lemma_every_host_accounted_for(results: Seq<Fetched>, today: int)
    ensures
        tabulated(results, today).table.rows.len() - 1 + tabulated(results, today).failures.len()
            == results.len(),
        tabulated(results, today).table.wf(),
    decreases results.len(),
{
    if results.len() > 0 {
        lemma_every_host_accounted_for(results.drop_last(), today);
        if let Ok(row) = outcome(results.last(), today) {
            crate::openssl::table::lemma_add_keeps_wf(tabulated(results.drop_last(), today).table, row);
        }
    } else {
        let empty = TableView { rows: Seq::empty(), len_url: 0, len_org: 0, len_remaining: 0 };
        crate::openssl::table::lemma_add_keeps_wf(empty, header_row());
    }
}

/// The report on a batch of hosts on the day `today`.
pub fn tabulate_on(results: Vec<RemainingDays>, today: i32) -> (report: Report)
    ensures
        report@ == tabulated(fetched_views(results@), today as int),
        report@.table.rows.len() - 1 + report@.failures.len() == results.len(),
        report@.table.wf(),
{
    let ghost batch = fetched_views(results@);
    let mut table = Table::new();
    table.add(TableRow::header());
    let mut failures: Vec<Failure> = Vec::new();
    let mut pending = results;
    let mut reversed: Vec<RemainingDays> = Vec::new();
    while pending.len() > 0
        invariant
            pending.len() + reversed.len() == batch.len(),
            fetched_views(pending@) == batch.take(pending.len() as int),
            forall|k: int|
                0 <= k < reversed.len() ==> (#[trigger] reversed@[k])@ == batch[batch.len() - 1 - k],
        decreases pending.len(),
    {
        let ghost front = fetched_views(pending@);
        let last = pending.pop().unwrap();
        assert(last@ == front[pending.len() as int]);
        reversed.push(last);
        assert(fetched_views(pending@) =~= batch.take(pending.len() as int));
    }
    proof {
        assert(batch.take(0) =~= Seq::<Fetched>::empty());
        assert(failure_views(failures@) =~= Seq::<FailureView>::empty());
    }
    while reversed.len() > 0
        invariant
            reversed.len() <= batch.len(),
            forall|k: int|
                0 <= k < reversed.len() ==> (#[trigger] reversed@[k])@ == batch[batch.len() - 1 - k],
            (ReportView { table: table@, failures: failure_views(failures@) }) == tabulated(
                batch.take(batch.len() - reversed.len()),
                today as int,
            ),
        decreases reversed.len(),
    {
        let ghost done = batch.take(batch.len() - reversed.len());
        let ghost told = failure_views(failures@);
        let next = reversed.pop().unwrap();
        proof {
            let with_next = batch.take(batch.len() - reversed.len());
            assert(with_next.drop_last() =~= done);
            assert(with_next.last() == next@);
        }
        match add_successful_parsed_remaining_days_on(&mut table, next, today) {
            Some(failure) => {
                failures.push(failure);
                assert(failure_views(failures@) =~= told.push(failure@));
            },
            None => {},
        }
    }
    proof {
        assert(batch.take(batch.len() as int) =~= batch);
        lemma_every_host_accounted_for(batch, today as int);
    }
    Report { table, failures }
}

/// The rows in the order in which a report shows them: sorted by host, and
/// then sorted by the days that remain. The second sort decides; the first
/// shows only among rows with the same number of days, which stand by host.
pub open spec fn shown_order(rows: Seq<Row>) -> Seq<Row> {
    sorted_by(SortKey::RemainingDays, sorted_by(SortKey::Host, rows))
}

/// Puts the rows of the report in the order in which they are shown, and
/// gives the text of the table in that order. The widths and the failures
/// stay as they are.
pub fn sorted_text(report: &mut Report) -> (text: String)
    ensures
        final(report)@.table.rows == shown_order(old(report)@.table.rows),
        final(report)@.table.len_url == old(report)@.table.len_url,
        final(report)@.table.len_org == old(report)@.table.len_org,
        final(report)@.table.len_remaining == old(report)@.table.len_remaining,
        final(report)@.failures == old(report)@.failures,
        old(report)@.table.wf() ==> final(report)@.table.wf(),
        text@ == final(report)@.table.render(),
{
    report.table.order_by_host();
    report.table.order_by_remaining_days();
    report.table.print()
}

/// The report on a batch of hosts for the day that the clock of this machine
/// shows when the report is made.
pub fn tabulate(results: Vec<RemainingDays>) -> (report: Report)
    ensures
        exists|day: i32| report@ == tabulated(fetched_views(results@), day as int),
        report@.table.rows.len() - 1 + report@.failures.len() == results.len(),
        report@.table.wf(),
{
    let day = today();
    let report = tabulate_on(results, day);
    assert(report@ == tabulated(fetched_views(results@), day as int));
    report
}

} // verus!
