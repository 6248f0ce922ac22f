//! The nodes of a hash tree: tables, their columns, and the hashes of the columns by time range.
use crate::text::{decimal, hex_bytes, push_decimal_i64, push_hex_bytes};
use crate::time::{TimeRange, Timestamp};
use vstd::prelude::*;

verus! {

/// A hash in hexadecimal. A byte below sixteen gives a single digit.
pub fn hash_to_string(hash: crate::hasher::Hash) -> (text: String)
    ensures
        text@ == hex_bytes(hash@),
{
    let mut s = String::new();
    push_hex_bytes(&mut s, hash.as_slice());
    assert(s@ =~= hex_bytes(hash@));
    s
}

/// The hash of the data of a column within a time range.
#[derive(Default, Debug)]
pub struct TimeRangeHashTreeNode {
    pub min_ts: Timestamp,
    pub max_ts: Timestamp,
    pub hash: crate::hasher::Hash,
}

/// A time range and the bytes of its hash.
pub struct TimeRangeNodeView {
    pub min_ts: Timestamp,
    pub max_ts: Timestamp,
    pub hash: Seq<u8>,
}

impl View for TimeRangeHashTreeNode {
    type V = TimeRangeNodeView;

    open spec fn view(&self) -> TimeRangeNodeView {
        TimeRangeNodeView { min_ts: self.min_ts, max_ts: self.max_ts, hash: self.hash@ }
    }
}

impl TimeRangeNodeView {
    /// How the node is written.
    pub open spec fn text(self) -> Seq<char> {
        "{ time_range: ("@ + decimal(self.min_ts as int) + ", "@ + decimal(self.max_ts as int)
            + "), hash: "@ + hex_bytes(self.hash) + "}"@
    }
}

impl TimeRangeHashTreeNode {
    pub fn new(time_range: TimeRange, hash: crate::hasher::Hash) -> (node: Self)
        ensures
            node.min_ts == time_range.min_ts,
            node.max_ts == time_range.max_ts,
            node.hash == hash,
    {
        TimeRangeHashTreeNode { min_ts: time_range.min_ts, max_ts: time_range.max_ts, hash }
    }

    /// Appends the text of the node.
    pub fn fmt(&self, out: &mut String)
        ensures
            final(out)@ == old(out)@ + self@.text(),
    {
        out.append("{ time_range: (");
        push_decimal_i64(out, self.min_ts);
        out.append(", ");
        push_decimal_i64(out, self.max_ts);
        out.append("), hash: ");
        push_hex_bytes(out, self.hash.as_slice());
        out.append("}");
        assert(out@ =~= old(out)@ + self@.text());
    }

    /// The text of the node.
    pub fn to_string(&self) -> (text: String)
        ensures
            text@ == self@.text(),
    {
        let mut out = String::new();
        self.fmt(&mut out);
        assert(out@ =~= self@.text());
        out
    }
}

/// The hashes of a column, by time range.
#[derive(Default, Debug)]
pub struct ColumnHashTreeNode {
    pub column: String,
    pub values: Vec<TimeRangeHashTreeNode>,
}

/// The name of a column and its time ranges with their hashes.
pub struct ColumnNodeView {
    pub column: Seq<char>,
    pub values: Seq<TimeRangeNodeView>,
}

impl View for ColumnHashTreeNode {
    type V = ColumnNodeView;

    open spec fn view(&self) -> ColumnNodeView {
        ColumnNodeView {
            column: self.column@,
            values: self.values@.map_values(|v: TimeRangeHashTreeNode| v@),
        }
    }
}

/// The texts of some time ranges, each followed by a comma.
pub open spec fn time_ranges_text(values: Seq<TimeRangeNodeView>) -> Seq<char>
    decreases values.len(),
{
    if values.len() == 0 {
        Seq::empty()
    } else {
        time_ranges_text(values.drop_last()) + values.last().text() + ", "@
    }
}

impl ColumnNodeView {
    /// How the node is written.
    pub open spec fn text(self) -> Seq<char> {
        "{ column: "@ + self.column + ", values: [ "@ + time_ranges_text(self.values) + "] }"@
    }
}

impl ColumnHashTreeNode {
    pub fn with_capacity(column: String, capacity: usize) -> (node: Self)
        ensures
            node.column == column,
            node.values@.len() == 0,
            node@ == (ColumnNodeView { column: column@, values: Seq::empty() }),
    {
        let node = ColumnHashTreeNode { column, values: Vec::with_capacity(capacity) };
        assert(node@.values =~= Seq::empty());
        node
    }

    pub fn push(&mut self, value: TimeRangeHashTreeNode)
        ensures
            final(self).column == old(self).column,
            final(self).values@ == old(self).values@.push(value),
            final(self)@ == (ColumnNodeView {
                column: old(self)@.column,
                values: old(self)@.values.push(value@),
            }),
    {
        self.values.push(value);
        assert(self@.values =~= old(self)@.values.push(value@));
    }

    /// Appends the text of the node.
    pub fn fmt(&self, out: &mut String)
        ensures
            final(out)@ == old(out)@ + self@.text(),
    {
        out.append("{ column: ");
        out.append(self.column.as_str());
        out.append(", values: [ ");
        let ghost before = out@;
        let mut i: usize = 0;
        assert(out@ =~= before + time_ranges_text(self@.values.take(0)));
        while i < self.values.len()
            invariant
                i <= self.values@.len(),
                out@ == before + time_ranges_text(self@.values.take(i as int)),
            decreases self.values@.len() - i,
        {
            self.values[i].fmt(out);
            out.append(", ");
            proof {
                let longer = self@.values.take(i + 1);
                assert(longer.drop_last() =~= self@.values.take(i as int));
                assert(longer.last() == self.values@[i as int]@);
                assert(out@ =~= before + time_ranges_text(longer));
            }
            i += 1;
        }
        assert(self@.values.take(i as int) =~= self@.values);
        out.append("] }");
        assert(out@ =~= old(out)@ + self@.text());
    }

    /// The text of the node.
    pub fn to_string(&self) -> (text: String)
        ensures
            text@ == self@.text(),
    {
        let mut out = String::new();
        self.fmt(&mut out);
        assert(out@ =~= self@.text());
        out
    }
}

/// The hashes of a table, by column.
#[derive(Default, Debug)]
pub struct TableHashTreeNode {
    pub table: String,
    pub columns: Vec<ColumnHashTreeNode>,
}

/// The name of a table and its columns.
pub struct TableNodeView {
    pub table: Seq<char>,
    pub columns: Seq<ColumnNodeView>,
}

impl View for TableHashTreeNode {
    type V = TableNodeView;

    open spec fn view(&self) -> TableNodeView {
        TableNodeView {
            table: self.table@,
            columns: self.columns@.map_values(|c: ColumnHashTreeNode| c@),
        }
    }
}

/// The texts of some columns, each followed by a comma.
pub open spec fn columns_text(columns: Seq<ColumnNodeView>) -> Seq<char>
    decreases columns.len(),
{
    if columns.len() == 0 {
        Seq::empty()
    } else {
        columns_text(columns.drop_last()) + columns.last().text() + ", "@
    }
}

impl TableNodeView {
    /// How the node is written.
    pub open spec fn text(self) -> Seq<char> {
        "{ table: "@ + self.table + ", values: [ "@ + columns_text(self.columns) + "] }"@
    }
}

impl TableHashTreeNode {
    pub fn with_capacity(table: String, capacity: usize) -> (node: Self)
        ensures
            node.table == table,
            node.columns@.len() == 0,
            node@ == (TableNodeView { table: table@, columns: Seq::empty() }),
    {
        let node = TableHashTreeNode { table, columns: Vec::with_capacity(capacity) };
        assert(node@.columns =~= Seq::empty());
        node
    }

    pub fn push(&mut self, value: ColumnHashTreeNode)
        ensures
            final(self).table == old(self).table,
            final(self).columns@ == old(self).columns@.push(value),
            final(self)@ == (TableNodeView {
                table: old(self)@.table,
                columns: old(self)@.columns.push(value@),
            }),
    {
        self.columns.push(value);
        assert(self@.columns =~= old(self)@.columns.push(value@));
    }

    /// Appends the text of the node.
    pub fn fmt(&self, out: &mut String)
        ensures
            final(out)@ == old(out)@ + self@.text(),
    {
        out.append("{ table: ");
        out.append(self.table.as_str());
        out.append(", values: [ ");
        let ghost before = out@;
        let mut i: usize = 0;
        assert(out@ =~= before + columns_text(self@.columns.take(0)));
        while i < self.columns.len()
            invariant
                i <= self.columns@.len(),
                out@ == before + columns_text(self@.columns.take(i as int)),
            decreases self.columns@.len() - i,
        {
            self.columns[i].fmt(out);
            out.append(", ");
            proof {
                let longer = self@.columns.take(i + 1);
                assert(longer.drop_last() =~= self@.columns.take(i as int));
                assert(longer.last() == self.columns@[i as int]@);
                assert(out@ =~= before + columns_text(longer));
            }
            i += 1;
        }
        assert(self@.columns.take(i as int) =~= self@.columns);
        out.append("] }");
        assert(out@ =~= old(out)@ + self@.text());
    }

    /// The text of the node.
    pub fn to_string(&self) -> (text: String)
        ensures
            text@ == self@.text(),
    {
        let mut out = String::new();
        self.fmt(&mut out);
        assert(out@ =~= self@.text());
        out
    }
}

/// A time range node is written with both its timestamps in decimal and its hash in hexadecimal.
pub proof fn law_time_range_text(node: TimeRangeHashTreeNode)
    ensures
        node@.min_ts == node.min_ts,
        node@.max_ts == node.max_ts,
        node@.hash == node.hash@,
        node@.text() == "{ time_range: ("@ + decimal(node.min_ts as int) + ", "@ + decimal(
            node.max_ts as int,
        ) + "), hash: "@ + hex_bytes(node.hash@) + "}"@,
{
}

/// The text of two lists of time ranges, one behind the other, is that of the first followed by
/// that of the second; a list of one has the text of the node and a comma.
pub proof fn law_time_ranges_text(
    a: Seq<TimeRangeNodeView>,
    b: Seq<TimeRangeNodeView>,
    value: TimeRangeNodeView,
)
    ensures
        time_ranges_text(a + b) == time_ranges_text(a) + time_ranges_text(b),
        time_ranges_text(seq![value]) == value.text() + ", "@,
        time_ranges_text(Seq::empty()) == Seq::<char>::empty(),
    decreases b.len(),
{
    if b.len() == 0 {
        assert(a + b =~= a);
        assert(time_ranges_text(a) + time_ranges_text(b) =~= time_ranges_text(a));
    } else {
        law_time_ranges_text(a, b.drop_last(), value);
        assert((a + b).drop_last() =~= a + b.drop_last());
        assert((a + b).last() == b.last());
        assert(time_ranges_text(a + b) =~= time_ranges_text(a) + time_ranges_text(b));
    }
    assert(seq![value].drop_last() =~= Seq::empty());
    assert(time_ranges_text(Seq::empty()) =~= Seq::<char>::empty());
    assert(time_ranges_text(seq![value]) =~= value.text() + ", "@);
}

/// A column node shows its name and every one of its values, in their order, and is written with
/// all of them.
pub proof fn law_column_text(node: ColumnHashTreeNode)
    ensures
        node@.column == node.column@,
        node@.values.len() == node.values@.len(),
        forall|i: int|
            0 <= i < node.values@.len() ==> #[trigger] node@.values[i] == node.values@[i]@,
        node@.text() == "{ column: "@ + node.column@ + ", values: [ "@ + time_ranges_text(
            node@.values,
        ) + "] }"@,
{
}

/// The text of two lists of columns, one behind the other, is that of the first followed by that
/// of the second; a list of one has the text of the node and a comma.
pub proof fn law_columns_text(
    a: Seq<ColumnNodeView>,
    b: Seq<ColumnNodeView>,
    column: ColumnNodeView,
)
    ensures
        columns_text(a + b) == columns_text(a) + columns_text(b),
        columns_text(seq![column]) == column.text() + ", "@,
        columns_text(Seq::empty()) == Seq::<char>::empty(),
    decreases b.len(),
{
    if b.len() == 0 {
        assert(a + b =~= a);
        assert(columns_text(a) + columns_text(b) =~= columns_text(a));
    } else {
        law_columns_text(a, b.drop_last(), column);
        assert((a + b).drop_last() =~= a + b.drop_last());
        assert((a + b).last() == b.last());
        assert(columns_text(a + b) =~= columns_text(a) + columns_text(b));
    }
    assert(seq![column].drop_last() =~= Seq::empty());
    assert(columns_text(Seq::empty()) =~= Seq::<char>::empty());
    assert(columns_text(seq![column]) =~= column.text() + ", "@);
}

/// A table node shows its name and every one of its columns, in their order, and is written with
/// all of them.
pub proof fn law_table_text(node: TableHashTreeNode)
    ensures
        node@.table == node.table@,
        node@.columns.len() == node.columns@.len(),
        forall|i: int|
            0 <= i < node.columns@.len() ==> #[trigger] node@.columns[i] == node.columns@[i]@,
        node@.text() == "{ table: "@ + node.table@ + ", values: [ "@ + columns_text(node@.columns)
            + "] }"@,
{
}

} // verus!
