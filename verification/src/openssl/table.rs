//! The table of hosts: its rows, the widths of its columns, and its text.

use vstd::prelude::*;
use vstd::string::*;
use vstd::utf8::*;
use crate::text::{byte_len, byte_length, decimal, decimal_string};

verus! {

/// The three columns of the table.
pub enum Column {
    Host,
    Organisation,
    Days,
}

/// What a row holds: the texts of a header, or the host, the quoted
/// organisation and the remaining days of one certificate.
pub enum Row {
    Header(Seq<char>, Seq<char>, Seq<char>),
    Data(Seq<char>, Seq<char>, int),
}

impl Row {
    /// The text that the row shows in a column.
    pub open spec fn cell(self, column: Column) -> Seq<char> {
        match self {
            Row::Header(host, organisation, days) => match column {
                Column::Host => host,
                Column::Organisation => organisation,
                Column::Days => days,
            },
            Row::Data(host, organisation, days) => match column {
                Column::Host => host,
                Column::Organisation => organisation,
                Column::Days => decimal(days),
            },
        }
    }

    /// The width that a column needs for this row: the cell's length in
    /// bytes and one more for padding, as far as a `usize` can count.
    pub open spec fn width(self, column: Column) -> nat {
        capped(byte_len(self.cell(column)) + 1)
    }

    /// No cell of the row is so long that its width is beyond a `usize`.
    pub open spec fn fits(self) -> bool {
        forall|column: Column| byte_len(#[trigger] self.cell(column)) < usize::MAX
    }

    /// The row as one line of the table: its three cells, each padded to the
    /// width of its column, with one space between them.
    pub open spec fn line(self, len_url: nat, len_org: nat, len_remaining: nat) -> Seq<char> {
        padded(self.cell(Column::Host), len_url) + seq![' '] + padded(
            self.cell(Column::Organisation),
            len_org,
        ) + seq![' '] + padded(self.cell(Column::Days), len_remaining)
    }
}

/// The lines of the rows, each ended by a line feed.
pub open spec fn lines(rows: Seq<Row>, len_url: nat, len_org: nat, len_remaining: nat) -> Seq<char>
    decreases rows.len(),
{
    if rows.len() == 0 {
        Seq::empty()
    } else {
        lines(rows.drop_last(), len_url, len_org, len_remaining) + rows.last().line(
            len_url,
            len_org,
            len_remaining,
        ) + seq!['\n']
    }
}

/// The width that a column needs for all of the rows: the largest that any
/// of them needs, and zero where there is no row.
pub open spec fn widest(rows: Seq<Row>, column: Column) -> nat
    decreases rows.len(),
{
    if rows.len() == 0 {
        0
    } else {
        wider(widest(rows.drop_last(), column), rows.last().width(column))
    }
}

/// A run of spaces.
pub open spec fn spaces(n: nat) -> Seq<char> {
    Seq::new(n, |i: int| ' ')
}

/// A text left-justified in a field: spaces follow it until it has `width`
/// characters; a text that is as long or longer stays as it is.
pub open spec fn padded(text: Seq<char>, width: nat) -> Seq<char> {
    if text.len() >= width {
        text
    } else {
        text + spaces((width - text.len()) as nat)
    }
}

/// A width as a `usize` holds it: itself, or the largest `usize` where it is
/// beyond that.
pub open spec fn capped(width: nat) -> nat {
    if width <= usize::MAX {
        width
    } else {
        usize::MAX as nat
    }
}

/// A text between two double quotes.
pub open spec fn quoted(text: Seq<char>) -> Seq<char> {
    seq!['"'] + text + seq!['"']
}

/// The header of every report.
pub open spec fn header_row() -> Row {
    Row::Header(
        seq!['H', 'O', 'S', 'T'],
        seq!['O', 'R', 'G', 'A', 'N', 'I', 'S', 'A', 'T', 'I', 'O', 'N'],
        seq!['D', 'A', 'Y', 'S'],
    )
}

/// A row of the table: the header, or the host, the organisation and the
/// remaining days of one certificate. A negative number of days tells of a
/// certificate that has expired.
#[derive(Debug, Clone, PartialEq, Eq)]
pub enum TableRow {
    Header(String, String, String),
    Data(String, String, i64),
}

impl View for TableRow {
    type V = Row;

    open spec fn view(&self) -> Row {
        match self {
            TableRow::Header(host, organisation, days) => Row::Header(host@, organisation@, days@),
            TableRow::Data(host, organisation, days) => Row::Data(host@, organisation@, *days as int),
        }
    }
}

impl TableRow {
    /// A data row. The organisation is stored between double quotes.
    pub fn new(host: String, organisation: String, remaining: i64) -> (row: TableRow)
        ensures
            row@ == Row::Data(host@, quoted(organisation@), remaining as int),
    {
        let mut wrapped = String::new();
        wrapped.push('"');
        wrapped.append(organisation.as_str());
        wrapped.push('"');
        assert(wrapped@ =~= quoted(organisation@));
        TableRow::Data(host, wrapped, remaining)
    }

    /// The row as one line of the table, for the given column widths.
    pub fn print(&self, len_url: usize, len_org: usize, len_remaining: usize) -> (line: String)
        ensures
            line@ == self@.line(len_url as nat, len_org as nat, len_remaining as nat),
    {
        let mut line = String::new();
        match self {
            TableRow::Header(host, organisation, days) => {
                pad_onto(&mut line, host.as_str(), len_url);
                line.push(' ');
                pad_onto(&mut line, organisation.as_str(), len_org);
                line.push(' ');
                pad_onto(&mut line, days.as_str(), len_remaining);
            },
            TableRow::Data(host, organisation, days) => {
                pad_onto(&mut line, host.as_str(), len_url);
                line.push(' ');
                pad_onto(&mut line, organisation.as_str(), len_org);
                line.push(' ');
                pad_onto(&mut line, decimal_string(*days).as_str(), len_remaining);
            },
        }
        assert(line@ =~= self@.line(len_url as nat, len_org as nat, len_remaining as nat));
        line
    }

    /// The header row `HOST`, `ORGANISATION`, `DAYS`.
    pub fn header() -> (row: TableRow)
        ensures
            row@ == header_row(),
    {
        proof {
            reveal_strlit("HOST");
            reveal_strlit("ORGANISATION");
            reveal_strlit("DAYS");
        }
        let row = TableRow::Header(
            "HOST".to_string(),
            "ORGANISATION".to_string(),
            "DAYS".to_string(),
        );
        assert(row@.cell(Column::Host) =~= header_row().cell(Column::Host));
        assert(row@.cell(Column::Organisation) =~= header_row().cell(Column::Organisation));
        assert(row@.cell(Column::Days) =~= header_row().cell(Column::Days));
        row
    }
}

/// The width that a cell with this text needs.
fn needed_width(text: &str) -> (width: usize)
    ensures
        width == capped(byte_len(text@) + 1),
{
    let length = byte_length(text);
    if length < usize::MAX {
        length + 1
    } else {
        length
    }
}

/// Appends a text and the spaces that pad it to a width.
fn pad_onto(out: &mut String, text: &str, width: usize)
    ensures
        final(out)@ == old(out)@ + padded(text@, width as nat),
{
    let ghost before = out@;
    out.append(text);
    let length = text.unicode_len();
    let mut reached: usize = length;
    assert(out@ =~= before + (text@ + spaces(0)));
    while reached < width
        invariant
            length == text@.len(),
            length <= reached,
            length < width ==> reached <= width,
            length >= width ==> reached == length,
            out@ == before + (text@ + spaces((reached - length) as nat)),
        decreases width - reached,
    {
        out.push(' ');
        assert(out@ =~= before + (text@ + spaces((reached + 1 - length) as nat)));
        reached += 1;
    }
    assert(text@ + spaces(0) =~= text@);
}

/// The larger of two widths.
pub open spec fn wider(a: nat, b: nat) -> nat {
    if a >= b {
        a
    } else {
        b
    }
}

/// What a table holds: its rows in order and the three column widths.
pub struct TableView {
    pub rows: Seq<Row>,
    pub len_url: nat,
    pub len_org: nat,
    pub len_remaining: nat,
}

impl TableView {
    /// The table after one more row: the row stands last, and each width has
    /// grown to what the row needs where it was smaller.
    pub open spec fn add(self, row: Row) -> TableView {
        TableView {
            rows: self.rows.push(row),
            len_url: wider(self.len_url, row.width(Column::Host)),
            len_org: wider(self.len_org, row.width(Column::Organisation)),
            len_remaining: wider(self.len_remaining, row.width(Column::Days)),
        }
    }

    /// Each width is what its column needs for the rows of the table.
    pub open spec fn wf(self) -> bool {
        &&& self.len_url == widest(self.rows, Column::Host)
        &&& self.len_org == widest(self.rows, Column::Organisation)
        &&& self.len_remaining == widest(self.rows, Column::Days)
    }

    /// The text of the table: the line of each row, in order.
    pub open spec fn render(self) -> Seq<char> {
        lines(self.rows, self.len_url, self.len_org, self.len_remaining)
    }
}

/// What each of the rows holds, in order.
pub open spec fn views(rows: Seq<TableRow>) -> Seq<Row> {
    Seq::new(rows.len(), |i: int| rows[i]@)
}

/// The table: its rows in order, and for each column the width to which its
/// cells are padded when the table is shown. The widths only grow: each is
/// the largest that a row added so far has needed.
#[derive(Debug, Clone, PartialEq, Eq)]
pub struct Table {
    pub rows: Vec<TableRow>,
    pub len_url: usize,
    pub len_org: usize,
    pub len_remaining: usize,
}

impl View for Table {
    type V = TableView;

    open spec fn view(&self) -> TableView {
        TableView {
            rows: views(self.rows@),
            len_url: self.len_url as nat,
            len_org: self.len_org as nat,
            len_remaining: self.len_remaining as nat,
        }
    }
}

impl Table {
    /// The table without rows; every width is zero.
    pub fn new() -> (table: Table)
        ensures
            table@ == (TableView { rows: Seq::empty(), len_url: 0, len_org: 0, len_remaining: 0 }),
            table@.wf(),
    {
        let table = Table { rows: Vec::new(), len_url: 0, len_org: 0, len_remaining: 0 };
        assert(table@.rows =~= Seq::empty());
        table
    }

    /// Appends a row and widens the columns to hold it.
    pub fn add(&mut self, row: TableRow) -> (ret: &mut Table)
        ensures
            ret@ == old(self)@.add(row@),
            old(self)@.wf() ==> ret@.wf(),
            *final(self) == *final(ret),
    {
        let ghost before = self@;
        proof {
            if before.wf() {
                lemma_add_keeps_wf(before, row@);
            }
        }
        let (host_width, org_width, days_width) = match &row {
            TableRow::Header(host, organisation, days) => (
                needed_width(host.as_str()),
                needed_width(organisation.as_str()),
                needed_width(days.as_str()),
            ),
            TableRow::Data(host, organisation, days) => (
                needed_width(host.as_str()),
                needed_width(organisation.as_str()),
                needed_width(decimal_string(*days).as_str()),
            ),
        };
        if host_width > self.len_url {
            self.len_url = host_width;
        }
        if org_width > self.len_org {
            self.len_org = org_width;
        }
        if days_width > self.len_remaining {
            self.len_remaining = days_width;
        }
        self.rows.push(row);
        assert(self@.rows =~= before.rows.push(row@));
        self
    }

    /// The text of the table: one line for each row, in order, each ended by
    /// a line feed.
    pub fn print(&self) -> (text: String)
        ensures
            text@ == self@.render(),
    {
        let mut text = String::new();
        let mut i: usize = 0;
        while i < self.rows.len()
            invariant
                i <= self.rows.len(),
                text@ == lines(
                    self@.rows.take(i as int),
                    self@.len_url,
                    self@.len_org,
                    self@.len_remaining,
                ),
            decreases self.rows.len() - i,
        {
            let line = self.rows[i].print(self.len_url, self.len_org, self.len_remaining);
            text.append(line.as_str());
            text.push('\n');
            proof {
                let shown = self@.rows.take(i + 1);
                assert(shown.drop_last() =~= self@.rows.take(i as int));
                assert(shown.last() == self.rows[i as int]@);
            }
            i += 1;
        }
        assert(self@.rows.take(i as int) =~= self@.rows);
        text
    }
}

/// A table whose widths are right has them right after one more row.
pub proof fn lemma_add_keeps_wf(table: TableView, row: Row)
    requires
        table.wf(),
    ensures
        table.add(row).wf(),
{
    assert(table.rows.push(row).drop_last() =~= table.rows);
}

/// The width of a column is the largest that a row needs: no row needs more,
/// and, unless the table is empty, some row needs exactly that much.
pub proof fn lemma_widest_is_largest(rows: Seq<Row>, column: Column)
    ensures
        forall|i: int| 0 <= i < rows.len() ==> (#[trigger] rows[i]).width(column) <= widest(rows, column),
        rows.len() > 0 ==> exists|i: int|
            0 <= i < rows.len() && (#[trigger] rows[i]).width(column) == widest(rows, column),
        rows.len() == 0 ==> widest(rows, column) == 0,
    decreases rows.len(),
{
    if rows.len() > 0 {
        let front = rows.drop_last();
        lemma_widest_is_largest(front, column);
        assert forall|i: int| 0 <= i < rows.len() implies (#[trigger] rows[i]).width(column)
            <= widest(rows, column) by {
            if i < front.len() {
                assert(front[i] == rows[i]);
            }
        }
        if widest(rows, column) == rows.last().width(column) {
            assert(rows[rows.len() - 1].width(column) == widest(rows, column));
        } else {
            let i = choose|i: int|
                0 <= i < front.len() && (#[trigger] front[i]).width(column) == widest(front, column);
            assert(rows[i].width(column) == widest(rows, column));
        }
    }
}

/// A text has at most as many characters as its UTF-8 form has bytes.
pub proof fn lemma_chars_at_most_bytes(text: Seq<char>)
    ensures
        text.len() <= byte_len(text),
    decreases text.len(),
{
    if text.len() > 0 {
        lemma_chars_at_most_bytes(text.drop_first());
    }
}

/// Where no cell is too long to count, the width of each column is the
/// length in bytes of its longest cell, header included, and one more; and
/// every line of the table pads each cell to exactly the width of its column.
pub proof fn lemma_columns_hold_longest_cell(table: TableView, column: Column, i: int)
    requires
        table.wf(),
        0 <= i < table.rows.len(),
        forall|k: int| 0 <= k < table.rows.len() ==> (#[trigger] table.rows[k]).fits(),
    ensures
        byte_len(table.rows[i].cell(column)) + 1 <= widest(table.rows, column),
        exists|k: int|
            0 <= k < table.rows.len() && widest(table.rows, column) == byte_len(
                (#[trigger] table.rows[k]).cell(column),
            ) + 1,
        padded(table.rows[i].cell(column), widest(table.rows, column)).len() == widest(
            table.rows,
            column,
        ),
        table.rows[i].line(table.len_url, table.len_org, table.len_remaining).len()
            == table.len_url + table.len_org + table.len_remaining + 2,
{
    let row = table.rows[i];
    lemma_widest_is_largest(table.rows, Column::Host);
    lemma_widest_is_largest(table.rows, Column::Organisation);
    lemma_widest_is_largest(table.rows, Column::Days);
    lemma_chars_at_most_bytes(row.cell(Column::Host));
    lemma_chars_at_most_bytes(row.cell(Column::Organisation));
    lemma_chars_at_most_bytes(row.cell(Column::Days));
    assert(byte_len(row.cell(Column::Host)) < usize::MAX);
    assert(byte_len(row.cell(Column::Organisation)) < usize::MAX);
    assert(byte_len(row.cell(Column::Days)) < usize::MAX);
    let k = choose|k: int|
        0 <= k < table.rows.len() && (#[trigger] table.rows[k]).width(column) == widest(
            table.rows,
            column,
        );
    assert(byte_len(table.rows[k].cell(column)) < usize::MAX);
}

/// The width of a column depends on which rows there are, not on their
/// order or number.
pub proof fn lemma_widest_of_same_rows(a: Seq<Row>, b: Seq<Row>, column: Column)
    requires
        forall|x: Row| a.contains(x) <==> b.contains(x),
    ensures
        widest(a, column) == widest(b, column),
{
    lemma_widest_is_largest(a, column);
    lemma_widest_is_largest(b, column);
    if a.len() > 0 {
        let i = choose|i: int|
            0 <= i < a.len() && (#[trigger] a[i]).width(column) == widest(a, column);
        assert(a.contains(a[i]));
        assert(b.contains(a[i]));
    }
    if b.len() > 0 {
        let i = choose|i: int|
            0 <= i < b.len() && (#[trigger] b[i]).width(column) == widest(b, column);
        assert(b.contains(b[i]));
        assert(a.contains(b[i]));
    }
}

} // verus!
