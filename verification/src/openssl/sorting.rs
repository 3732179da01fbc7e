//! The two orders of a table: by host, and by the days that remain. Both keep
//! header rows first and leave rows that the order does not tell apart in the
//! order in which they stood.

use vstd::prelude::*;
use vstd::string::*;
use vstd::utf8::*;
use crate::openssl::table::{lemma_widest_of_same_rows, views, widest, Column, Row, Table, TableRow};

verus! {

/// What the rows are ordered by.
pub enum SortKey {
    Host,
    RemainingDays,
}

/// The order of byte strings as a dictionary has it: the first byte in which
/// two strings differ decides, and a string comes before those that it begins.
pub open spec fn bytes_le(a: Seq<u8>, b: Seq<u8>) -> bool
    decreases a.len(),
{
    if a.len() == 0 {
        true
    } else if b.len() == 0 {
        false
    } else if a[0] != b[0] {
        a[0] < b[0]
    } else {
        bytes_le(a.drop_first(), b.drop_first())
    }
}

/// `a` may stand before `b`: a header before every row, a data row before
/// another whose host (by its bytes in UTF-8) or whose number of days is not
/// smaller.
pub open spec fn precedes(key: SortKey, a: Row, b: Row) -> bool {
    match a {
        Row::Header(_, _, _) => true,
        Row::Data(host_a, _, days_a) => match b {
            Row::Header(_, _, _) => false,
            Row::Data(host_b, _, days_b) => match key {
                SortKey::Host => bytes_le(encode_utf8(host_a), encode_utf8(host_b)),
                SortKey::RemainingDays => days_a <= days_b,
            },
        },
    }
}

/// The order does not tell the two rows apart.
pub open spec fn tied(key: SortKey, a: Row, b: Row) -> bool {
    precedes(key, a, b) && precedes(key, b, a)
}

/// The test for the rows that the order does not tell apart from `x`.
pub open spec fn tied_with(key: SortKey, x: Row) -> spec_fn(Row) -> bool {
    |row: Row| tied(key, row, x)
}

/// The rows that the order does not tell apart from `x`, as they follow each
/// other in `rows`.
pub open spec fn ties(key: SortKey, rows: Seq<Row>, x: Row) -> Seq<Row> {
    rows.filter(tied_with(key, x))
}

/// No row stands after one that it should precede.
pub open spec fn ordered(key: SortKey, rows: Seq<Row>) -> bool {
    forall|i: int, j: int| 0 <= i < j < rows.len() ==> precedes(key, rows[i], rows[j])
}

/// Both sequences hold the same rows, and rows that the order does not tell
/// apart follow each other in the same way in both.
pub open spec fn same_ties(key: SortKey, a: Seq<Row>, b: Seq<Row>) -> bool {
    forall|x: Row| #[trigger] ties(key, a, x) == ties(key, b, x)
}

/// `after` is `before` sorted by `key`, stably.
pub open spec fn stably_sorted(key: SortKey, before: Seq<Row>, after: Seq<Row>) -> bool {
    &&& ordered(key, after)
    &&& same_ties(key, after, before)
}

/// Every byte string may stand before itself.
pub proof fn lemma_bytes_le_reflexive(a: Seq<u8>)
    ensures
        bytes_le(a, a),
    decreases a.len(),
{
    if a.len() > 0 {
        lemma_bytes_le_reflexive(a.drop_first());
    }
}

/// Of two byte strings one may stand before the other.
pub proof fn lemma_bytes_le_total(a: Seq<u8>, b: Seq<u8>)
    ensures
        bytes_le(a, b) || bytes_le(b, a),
    decreases a.len(),
{
    if a.len() > 0 && b.len() > 0 && a[0] == b[0] {
        lemma_bytes_le_total(a.drop_first(), b.drop_first());
    }
}

/// What may stand before a string may stand before all that the string may
/// stand before.
pub proof fn lemma_bytes_le_transitive(a: Seq<u8>, b: Seq<u8>, c: Seq<u8>)
    requires
        bytes_le(a, b),
        bytes_le(b, c),
    ensures
        bytes_le(a, c),
    decreases a.len(),
{
    if a.len() > 0 && b.len() > 0 && c.len() > 0 && a[0] == b[0] && b[0] == c[0] {
        lemma_bytes_le_transitive(a.drop_first(), b.drop_first(), c.drop_first());
    }
}

/// Each of the two orders is a total preorder of the rows.
pub proof fn lemma_precedes_is_total_preorder(key: SortKey)
    ensures
        forall|a: Row| #[trigger] precedes(key, a, a),
        forall|a: Row, b: Row| #[trigger] precedes(key, a, b) || #[trigger] precedes(key, b, a),
        forall|a: Row, b: Row, c: Row|
            #[trigger] precedes(key, a, b) && #[trigger] precedes(key, b, c) ==> precedes(
                key,
                a,
                c,
            ),
{
    assert forall|a: Row| #[trigger] precedes(key, a, a) by {
        if let Row::Data(host, _, _) = a {
            lemma_bytes_le_reflexive(encode_utf8(host));
        }
    }
    assert forall|a: Row, b: Row| #[trigger]
        precedes(key, a, b) || #[trigger] precedes(key, b, a) by {
        if let Row::Data(host_a, _, _) = a {
            if let Row::Data(host_b, _, _) = b {
                lemma_bytes_le_total(encode_utf8(host_a), encode_utf8(host_b));
            }
        }
    }
    assert forall|a: Row, b: Row, c: Row| #[trigger]
        precedes(key, a, b) && #[trigger] precedes(key, b, c) implies precedes(key, a, c) by {
        if let Row::Data(host_a, _, _) = a {
            if let Row::Data(host_b, _, _) = b {
                if let Row::Data(host_c, _, _) = c {
                    if key is Host {
                        lemma_bytes_le_transitive(
                            encode_utf8(host_a),
                            encode_utf8(host_b),
                            encode_utf8(host_c),
                        );
                    }
                }
            }
        }
    }
}

/// The ties of a sequence with one more row at its end.
proof fn lemma_ties_push(key: SortKey, rows: Seq<Row>, last: Row, x: Row)
    ensures
        ties(key, rows.push(last), x) == if tied(key, last, x) {
            ties(key, rows, x).push(last)
        } else {
            ties(key, rows, x)
        },
{
    rows.lemma_filter_push(last, tied_with(key, x));
}

/// Rows of which none is tied with `x` hold no tie of `x`.
proof fn lemma_no_ties(key: SortKey, rows: Seq<Row>, x: Row)
    requires
        forall|k: int| 0 <= k < rows.len() ==> !tied(key, #[trigger] rows[k], x),
    ensures
        ties(key, rows, x) == Seq::<Row>::empty(),
    decreases rows.len(),
{
    if rows.len() == 0 {
        rows.lemma_filter_len(tied_with(key, x));
        assert(ties(key, rows, x) =~= Seq::<Row>::empty());
    } else {
        lemma_no_ties(key, rows.drop_last(), x);
        assert(rows =~= rows.drop_last().push(rows.last()));
        lemma_ties_push(key, rows.drop_last(), rows.last(), x);
    }
}

/// A row of a sequence is among its own ties there.
proof fn lemma_row_among_its_ties(key: SortKey, rows: Seq<Row>, i: int)
    requires
        0 <= i < rows.len(),
    ensures
        ties(key, rows, rows[i]).contains(rows[i]),
{
    lemma_precedes_is_total_preorder(key);
    rows.lemma_filter_contains(tied_with(key, rows[i]), i);
}

/// Sequences with the same ties hold the same rows.
pub proof fn lemma_same_ties_same_rows(key: SortKey, a: Seq<Row>, b: Seq<Row>, x: Row)
    requires
        same_ties(key, a, b),
    ensures
        a.contains(x) <==> b.contains(x),
{
    assert(ties(key, a, x) == ties(key, b, x));
    if a.contains(x) {
        let i = choose|i: int| 0 <= i < a.len() && a[i] == x;
        lemma_row_among_its_ties(key, a, i);
        b.lemma_filter_contains_rev(tied_with(key, x), x);
    }
    if b.contains(x) {
        let i = choose|i: int| 0 <= i < b.len() && b[i] == x;
        lemma_row_among_its_ties(key, b, i);
        a.lemma_filter_contains_rev(tied_with(key, x), x);
    }
}

/// A stable sort has one result: two ordered sequences with the same ties are
/// the same sequence.
pub proof fn lemma_stable_sort_unique(key: SortKey, a: Seq<Row>, b: Seq<Row>)
    requires
        ordered(key, a),
        ordered(key, b),
        same_ties(key, a, b),
    ensures
        a == b,
    decreases a.len(),
{
    lemma_precedes_is_total_preorder(key);
    if a.len() == 0 || b.len() == 0 {
        if a.len() > 0 {
            lemma_same_ties_same_rows(key, a, b, a[0]);
        }
        if b.len() > 0 {
            lemma_same_ties_same_rows(key, a, b, b[0]);
        }
        assert(a =~= b);
    } else {
        let x = a.last();
        let y = b.last();
        let a0 = a.drop_last();
        let b0 = b.drop_last();
        assert(a =~= a0.push(x));
        assert(b =~= b0.push(y));
        lemma_same_ties_same_rows(key, a, b, x);
        lemma_same_ties_same_rows(key, a, b, y);
        let ix = choose|i: int| 0 <= i < b.len() && b[i] == x;
        let iy = choose|i: int| 0 <= i < a.len() && a[i] == y;
        assert(precedes(key, x, y)) by {
            if ix < b.len() - 1 {
                assert(precedes(key, b[ix], b[b.len() - 1]));
            }
        }
        assert(precedes(key, y, x)) by {
            if iy < a.len() - 1 {
                assert(precedes(key, a[iy], a[a.len() - 1]));
            }
        }
        lemma_ties_push(key, a0, x, x);
        lemma_ties_push(key, b0, y, x);
        assert(ties(key, a, x) == ties(key, b, x));
        assert(ties(key, a, x).last() == x);
        assert(ties(key, b, x).last() == y);
        assert(x == y);
        assert forall|z: Row| #[trigger] ties(key, a0, z) == ties(key, b0, z) by {
            lemma_ties_push(key, a0, x, z);
            lemma_ties_push(key, b0, y, z);
            assert(ties(key, a, z) == ties(key, b, z));
            if tied(key, x, z) {
                assert(ties(key, a0, z) =~= ties(key, a, z).drop_last());
                assert(ties(key, b0, z) =~= ties(key, b, z).drop_last());
            }
        }
        lemma_stable_sort_unique(key, a0, b0);
    }
}

/// Sorting changes no column's width.
pub proof fn lemma_sort_keeps_widths(key: SortKey, before: Seq<Row>, after: Seq<Row>, column: Column)
    requires
        stably_sorted(key, before, after),
    ensures
        widest(after, column) == widest(before, column),
{
    assert forall|x: Row| after.contains(x) <==> before.contains(x) by {
        lemma_same_ties_same_rows(key, after, before, x);
    }
    lemma_widest_of_same_rows(after, before, column);
}

/// Two rows that a selection kept stand in it as they stood before it.
proof fn lemma_filter_keeps_order(rows: Seq<Row>, test: spec_fn(Row) -> bool, i: int, j: int)
    requires
        0 <= i < j < rows.filter(test).len(),
    ensures
        exists|m: int, n: int|
            #![trigger rows[m], rows[n]]
            0 <= m < n < rows.len() && rows[m] == rows.filter(test)[i] && rows[n] == rows.filter(
                test,
            )[j],
    decreases rows.len(),
{
    let kept = rows.filter(test);
    rows.lemma_filter_len(test);
    let front = rows.drop_last();
    assert(rows =~= front.push(rows.last()));
    front.lemma_filter_push(rows.last(), test);
    if j < front.filter(test).len() {
        lemma_filter_keeps_order(front, test, i, j);
        let (m, n) = choose|m: int, n: int|
            #![trigger front[m], front[n]]
            0 <= m < n < front.len() && front[m] == front.filter(test)[i] && front[n]
                == front.filter(test)[j];
        assert(rows[m] == kept[i] && rows[n] == kept[j]);
    } else {
        assert(front.filter(test).contains(kept[i]));
        front.lemma_filter_contains_rev(test, kept[i]);
        let m = choose|m: int| 0 <= m < front.len() && front[m] == kept[i];
        assert(rows[m] == kept[i] && rows[rows.len() - 1] == kept[j]);
    }
}

/// Selecting twice gives the same rows whichever selection comes first.
proof fn lemma_filters_commute(rows: Seq<Row>, p: spec_fn(Row) -> bool, q: spec_fn(Row) -> bool)
    ensures
        rows.filter(p).filter(q) == rows.filter(q).filter(p),
    decreases rows.len(),
{
    if rows.len() == 0 {
        rows.lemma_filter_len(p);
        rows.lemma_filter_len(q);
        assert(rows.filter(p) =~= rows.filter(q));
        rows.filter(p).lemma_filter_len(q);
        rows.filter(q).lemma_filter_len(p);
        assert(rows.filter(p).filter(q) =~= rows.filter(q).filter(p));
    } else {
        let front = rows.drop_last();
        let last = rows.last();
        assert(rows =~= front.push(last));
        lemma_filters_commute(front, p, q);
        front.lemma_filter_push(last, p);
        front.lemma_filter_push(last, q);
        front.filter(p).lemma_filter_push(last, q);
        front.filter(q).lemma_filter_push(last, p);
    }
}

/// A selection from ordered rows is ordered.
proof fn lemma_filter_of_ordered(key: SortKey, rows: Seq<Row>, test: spec_fn(Row) -> bool)
    requires
        ordered(key, rows),
    ensures
        ordered(key, rows.filter(test)),
{
    let kept = rows.filter(test);
    assert forall|i: int, j: int| 0 <= i < j < kept.len() implies precedes(key, kept[i], kept[j]) by {
        lemma_filter_keeps_order(rows, test, i, j);
    }
}

/// Rows with the same number of days follow each other in the order of their
/// hosts.
pub open spec fn ties_in_host_order(rows: Seq<Row>) -> bool {
    forall|i: int, j: int|
        0 <= i < j < rows.len() && tied(SortKey::RemainingDays, rows[i], rows[j]) ==> precedes(
            SortKey::Host,
            rows[i],
            rows[j],
        )
}

/// The last sort wins: sorting by host and then by days gives what sorting by
/// days alone gives. This holds where rows with the same number of days
/// already follow each other in the order of their hosts; where they do not,
/// sorting by host first changes how such rows follow each other, and the
/// sort by days keeps that change.
pub proof fn lemma_last_sort_wins(
    rows: Seq<Row>,
    by_host: Seq<Row>,
    by_host_then_days: Seq<Row>,
    by_days: Seq<Row>,
)
    requires
        ties_in_host_order(rows),
        stably_sorted(SortKey::Host, rows, by_host),
        stably_sorted(SortKey::RemainingDays, by_host, by_host_then_days),
        stably_sorted(SortKey::RemainingDays, rows, by_days),
    ensures
        by_host_then_days == by_days,
{
    let days = SortKey::RemainingDays;
    let host = SortKey::Host;
    lemma_precedes_is_total_preorder(days);
    assert forall|x: Row| #[trigger] ties(days, by_host_then_days, x) == ties(days, by_days, x) by {
        let same_days = tied_with(days, x);
        let before = ties(days, rows, x);
        let after = ties(days, by_host, x);
        assert(ties(days, by_host_then_days, x) == after);
        assert(ties(days, by_days, x) == before);
        lemma_filter_of_ordered(host, by_host, same_days);
        assert forall|i: int, j: int| 0 <= i < j < before.len() implies precedes(
            host,
            before[i],
            before[j],
        ) by {
            lemma_filter_keeps_order(rows, same_days, i, j);
            rows.lemma_filter_pred(same_days, i);
            rows.lemma_filter_pred(same_days, j);
        }
        assert forall|z: Row| #[trigger] ties(host, after, z) == ties(host, before, z) by {
            lemma_filters_commute(by_host, same_days, tied_with(host, z));
            lemma_filters_commute(rows, same_days, tied_with(host, z));
            assert(ties(host, by_host, z) == ties(host, rows, z));
        }
        lemma_stable_sort_unique(host, after, before);
    }
    lemma_stable_sort_unique(days, by_host_then_days, by_days);
}

/// Two rows that a selection keeps stand in it as they stood before it.
proof fn lemma_kept_rows_keep_order(rows: Seq<Row>, test: spec_fn(Row) -> bool, i: int, j: int)
    requires
        0 <= i < j < rows.len(),
        test(rows[i]),
        test(rows[j]),
    ensures
        exists|m: int, n: int|
            #![trigger rows.filter(test)[m], rows.filter(test)[n]]
            0 <= m < n < rows.filter(test).len() && rows.filter(test)[m] == rows[i] && rows.filter(
                test,
            )[n] == rows[j],
    decreases rows.len(),
{
    let kept = rows.filter(test);
    let front = rows.drop_last();
    assert(rows =~= front.push(rows.last()));
    front.lemma_filter_push(rows.last(), test);
    if j < front.len() {
        lemma_kept_rows_keep_order(front, test, i, j);
        let (m, n) = choose|m: int, n: int|
            #![trigger front.filter(test)[m], front.filter(test)[n]]
            0 <= m < n < front.filter(test).len() && front.filter(test)[m] == front[i]
                && front.filter(test)[n] == front[j];
        assert(kept[m] == rows[i] && kept[n] == rows[j]);
    } else {
        front.lemma_filter_contains(test, i);
        let m = choose|m: int| 0 <= m < front.filter(test).len() && front.filter(test)[m] == front[i];
        assert(kept[m] == rows[i] && kept[kept.len() - 1] == rows[j]);
    }
}

/// The law of `lemma_last_sort_wins` holds of no other tables: where two
/// rows with the same number of days do not follow each other in the order
/// of their hosts, sorting by host first shows in the result.
pub proof fn lemma_host_sort_shows_among_equal_days(
    rows: Seq<Row>,
    by_host: Seq<Row>,
    by_host_then_days: Seq<Row>,
    by_days: Seq<Row>,
)
    requires
        !ties_in_host_order(rows),
        stably_sorted(SortKey::Host, rows, by_host),
        stably_sorted(SortKey::RemainingDays, by_host, by_host_then_days),
        stably_sorted(SortKey::RemainingDays, rows, by_days),
    ensures
        by_host_then_days != by_days,
{
    let days = SortKey::RemainingDays;
    let host = SortKey::Host;
    lemma_precedes_is_total_preorder(days);
    let (i, j) = choose|i: int, j: int|
        0 <= i < j < rows.len() && tied(days, rows[i], rows[j]) && !precedes(host, rows[i], rows[j]);
    let same_days = tied_with(days, rows[j]);
    if by_host_then_days == by_days {
        let kept = ties(days, rows, rows[j]);
        assert(ties(days, by_host_then_days, rows[j]) == ties(days, by_host, rows[j]));
        assert(ties(days, by_days, rows[j]) == kept);
        lemma_filter_of_ordered(host, by_host, same_days);
        lemma_kept_rows_keep_order(rows, same_days, i, j);
        let (m, n) = choose|m: int, n: int|
            #![trigger kept[m], kept[n]]
            0 <= m < n < kept.len() && kept[m] == rows[i] && kept[n] == rows[j];
        assert(precedes(host, kept[m], kept[n]));
    }
}

/// Putting a row into an ordered sequence, behind the rows that come strictly
/// before it and in front of all others, gives the stable sort of the row
/// followed by what the sequence was sorted from.
proof fn lemma_insert_keeps_sorted(key: SortKey, rest: Seq<Row>, sorted: Seq<Row>, x: Row, at: int)
    requires
        stably_sorted(key, rest, sorted),
        0 <= at <= sorted.len(),
        forall|k: int| 0 <= k < at ==> !precedes(key, x, #[trigger] sorted[k]),
        at < sorted.len() ==> precedes(key, x, sorted[at]),
    ensures
        stably_sorted(key, seq![x] + rest, sorted.insert(at, x)),
{
    lemma_precedes_is_total_preorder(key);
    let front = sorted.subrange(0, at);
    let back = sorted.subrange(at, sorted.len() as int);
    let after = sorted.insert(at, x);
    assert(sorted =~= front + back);
    assert(after =~= front + seq![x] + back);
    assert forall|i: int, j: int| 0 <= i < j < after.len() implies precedes(
        key,
        after[i],
        after[j],
    ) by {
        if i < at && j > at {
            assert(precedes(key, sorted[i], sorted[j - 1]));
        } else if i < at && j == at {
            assert(!precedes(key, x, sorted[i]));
        } else if i == at {
            assert(precedes(key, x, sorted[at]));
            if j - 1 > at {
                assert(precedes(key, sorted[at], sorted[j - 1]));
            }
        } else if i > at {
            assert(precedes(key, sorted[i - 1], sorted[j - 1]));
        } else {
            assert(precedes(key, sorted[i], sorted[j]));
        }
    }
    assert forall|z: Row| #[trigger] ties(key, after, z) == ties(key, seq![x] + rest, z) by {
        let test = tied_with(key, z);
        Seq::filter_distributes_over_add(front, back, test);
        Seq::filter_distributes_over_add(front + seq![x], back, test);
        Seq::filter_distributes_over_add(front, seq![x], test);
        Seq::filter_distributes_over_add(seq![x], rest, test);
        assert(ties(key, sorted, z) == ties(key, rest, z));
        assert(seq![x] =~= Seq::<Row>::empty().push(x));
        lemma_ties_push(key, Seq::<Row>::empty(), x, z);
        lemma_no_ties(key, Seq::<Row>::empty(), z);
        if tied(key, x, z) {
            assert forall|k: int| 0 <= k < front.len() implies !tied(key, #[trigger] front[k], z) by {
                assert(!precedes(key, x, sorted[k]));
            }
            lemma_no_ties(key, front, z);
            assert(ties(key, after, z) =~= seq![x] + ties(key, back, z));
            assert(ties(key, sorted, z) =~= ties(key, back, z));
        } else {
            assert(ties(key, after, z) =~= ties(key, front, z) + ties(key, back, z));
        }
    }
}

/// The place in ordered rows, at or behind `from`, in front of which `x`
/// goes: behind the rows that come strictly before it.
spec fn insertion_point(key: SortKey, sorted: Seq<Row>, x: Row, from: int) -> int
    decreases sorted.len() - from,
{
    if 0 <= from < sorted.len() && !precedes(key, x, sorted[from]) {
        insertion_point(key, sorted, x, from + 1)
    } else {
        from
    }
}

/// Every row between `from` and the insertion point comes strictly before
/// `x`, and the row at the insertion point does not.
proof fn lemma_insertion_point(key: SortKey, sorted: Seq<Row>, x: Row, from: int)
    requires
        0 <= from <= sorted.len(),
    ensures
        from <= insertion_point(key, sorted, x, from) <= sorted.len(),
        forall|k: int|
            from <= k < insertion_point(key, sorted, x, from) ==> !precedes(
                key,
                x,
                #[trigger] sorted[k],
            ),
        insertion_point(key, sorted, x, from) < sorted.len() ==> precedes(
            key,
            x,
            sorted[insertion_point(key, sorted, x, from)],
        ),
    decreases sorted.len() - from,
{
    if from < sorted.len() && !precedes(key, x, sorted[from]) {
        lemma_insertion_point(key, sorted, x, from + 1);
    }
}

/// The rows sorted by `key`, stably: the one sequence that is ordered and has
/// the ties of `rows`.
pub open spec fn sorted_by(key: SortKey, rows: Seq<Row>) -> Seq<Row> {
    choose|after: Seq<Row>| stably_sorted(key, rows, after)
}

/// Every sequence of rows has a stable sort, and `sorted_by` is it.
pub proof fn lemma_sorted_by(key: SortKey, rows: Seq<Row>)
    ensures
        stably_sorted(key, rows, sorted_by(key, rows)),
    decreases rows.len(),
{
    if rows.len() == 0 {
        assert(stably_sorted(key, rows, rows));
    } else {
        let x = rows.first();
        let rest = rows.drop_first();
        lemma_sorted_by(key, rest);
        let sorted = sorted_by(key, rest);
        lemma_insertion_point(key, sorted, x, 0);
        let at = insertion_point(key, sorted, x, 0);
        lemma_insert_keeps_sorted(key, rest, sorted, x, at);
        assert(seq![x] + rest =~= rows);
        assert(stably_sorted(key, rows, sorted.insert(at, x)));
    }
}

/// What is a stable sort of the rows is `sorted_by` of them.
pub proof fn lemma_sorted_by_is_the_sort(key: SortKey, rows: Seq<Row>, after: Seq<Row>)
    requires
        stably_sorted(key, rows, after),
    ensures
        after == sorted_by(key, rows),
{
    let chosen = sorted_by(key, rows);
    assert forall|x: Row| #[trigger] ties(key, after, x) == ties(key, chosen, x) by {
        assert(ties(key, after, x) == ties(key, rows, x));
        assert(ties(key, chosen, x) == ties(key, rows, x));
    }
    lemma_stable_sort_unique(key, after, chosen);
}

/// Whether one byte string may stand before another.
fn bytes_precede(a: &[u8], b: &[u8]) -> (r: bool)
    ensures
        r == bytes_le(a@, b@),
{
    let mut i: usize = 0;
    assert(a@.skip(0) =~= a@ && b@.skip(0) =~= b@);
    while i < a.len() && i < b.len() && a[i] == b[i]
        invariant
            i <= a.len(),
            i <= b.len(),
            bytes_le(a@, b@) == bytes_le(a@.skip(i as int), b@.skip(i as int)),
        decreases a.len() - i,
    {
        assert(a@.skip(i as int).drop_first() =~= a@.skip(i + 1));
        assert(b@.skip(i as int).drop_first() =~= b@.skip(i + 1));
        i += 1;
    }
    if i == a.len() {
        true
    } else if i == b.len() {
        false
    } else {
        a[i] < b[i]
    }
}

/// The order that a flag selects.
pub open spec fn key_for(by_days: bool) -> SortKey {
    if by_days {
        SortKey::RemainingDays
    } else {
        SortKey::Host
    }
}

/// Whether row `a` may stand before row `b`.
fn row_precedes(a: &TableRow, b: &TableRow, by_days: bool) -> (r: bool)
    ensures
        r == precedes(key_for(by_days), a@, b@),
{
    match a {
        TableRow::Header(_, _, _) => true,
        TableRow::Data(host_a, _, days_a) => match b {
            TableRow::Header(_, _, _) => false,
            TableRow::Data(host_b, _, days_b) => {
                if by_days {
                    *days_a <= *days_b
                } else {
                    bytes_precede(host_a.as_str().as_bytes(), host_b.as_str().as_bytes())
                }
            },
        },
    }
}

/// Sorts the rows stably: each row in turn, from the last to the first, goes
/// in front of the rows already placed that it may precede.
fn sort_rows(rows: &mut Vec<TableRow>, by_days: bool)
    ensures
        stably_sorted(key_for(by_days), views(old(rows)@), views(final(rows)@)),
{
    let ghost key = key_for(by_days);
    let ghost unsorted = views(rows@);
    let mut pending: Vec<TableRow> = Vec::new();
    std::mem::swap(rows, &mut pending);
    proof {
        assert(unsorted.skip(pending.len() as int) =~= Seq::<Row>::empty());
        assert(views(rows@) =~= Seq::<Row>::empty());
    }
    while pending.len() > 0
        invariant
            key == key_for(by_days),
            views(pending@) == unsorted.take(pending.len() as int),
            pending.len() <= unsorted.len(),
            stably_sorted(key, unsorted.skip(pending.len() as int), views(rows@)),
        decreases pending.len(),
    {
        let ghost rest = unsorted.skip(pending.len() as int);
        let ghost sorted = views(rows@);
        let ghost taken = views(pending@);
        let row = pending.pop().unwrap();
        let mut at: usize = 0;
        while at < rows.len() && !row_precedes(&row, &rows[at], by_days)
            invariant
                key == key_for(by_days),
                sorted == views(rows@),
                at <= rows.len(),
                forall|k: int| 0 <= k < at ==> !precedes(key, row@, #[trigger] sorted[k]),
            decreases rows.len() - at,
        {
            at += 1;
        }
        proof {
            lemma_insert_keeps_sorted(key, rest, sorted, row@, at as int);
            assert(row@ == taken.last());
            assert(seq![row@] + rest =~= unsorted.skip(pending.len() as int));
            assert(views(pending@) =~= unsorted.take(pending.len() as int));
        }
        rows.insert(at, row);
        assert(views(rows@) =~= sorted.insert(at as int, row@));
    }
    assert(unsorted.skip(0) =~= unsorted);
}

impl Table {
    /// Orders the rows by host, stably, header rows first.
    pub fn order_by_host(&mut self) -> (ret: &mut Table)
        ensures
            stably_sorted(SortKey::Host, old(self)@.rows, ret@.rows),
            ret@.rows == sorted_by(SortKey::Host, old(self)@.rows),
            ret@.len_url == old(self)@.len_url,
            ret@.len_org == old(self)@.len_org,
            ret@.len_remaining == old(self)@.len_remaining,
            old(self)@.wf() ==> ret@.wf(),
            *final(self) == *final(ret),
    {
        sort_rows(&mut self.rows, false);
        proof {
            lemma_sorted_by_is_the_sort(SortKey::Host, old(self)@.rows, self@.rows);
            lemma_sort_keeps_widths(SortKey::Host, old(self)@.rows, self@.rows, Column::Host);
            lemma_sort_keeps_widths(SortKey::Host, old(self)@.rows, self@.rows, Column::Organisation);
            lemma_sort_keeps_widths(SortKey::Host, old(self)@.rows, self@.rows, Column::Days);
        }
        self
    }

    /// Orders the rows by the days that remain, fewest first, stably, header
    /// rows first.
    pub fn order_by_remaining_days(&mut self) -> (ret: &mut Table)
        ensures
            stably_sorted(SortKey::RemainingDays, old(self)@.rows, ret@.rows),
            ret@.rows == sorted_by(SortKey::RemainingDays, old(self)@.rows),
            ret@.len_url == old(self)@.len_url,
            ret@.len_org == old(self)@.len_org,
            ret@.len_remaining == old(self)@.len_remaining,
            old(self)@.wf() ==> ret@.wf(),
            *final(self) == *final(ret),
    {
        sort_rows(&mut self.rows, true);
        proof {
            lemma_sorted_by_is_the_sort(SortKey::RemainingDays, old(self)@.rows, self@.rows);
            lemma_sort_keeps_widths(SortKey::RemainingDays, old(self)@.rows, self@.rows, Column::Host);
            lemma_sort_keeps_widths(SortKey::RemainingDays, old(self)@.rows, self@.rows, Column::Organisation);
            lemma_sort_keeps_widths(SortKey::RemainingDays, old(self)@.rows, self@.rows, Column::Days);
        }
        self
    }
}

} // verus!
