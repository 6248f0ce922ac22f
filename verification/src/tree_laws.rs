//! What holds of every hash tree.
use crate::node::{ColumnNodeView, TableHashTreeNode, TableNodeView, TimeRangeNodeView};
use crate::scan::{
    counts_view, digest, entry_views, range_hashes, FieldEntry, FieldEntryView, RangeHash,
};
use crate::schema::{column_of, ColumnId, ColumnNameView};
use crate::time::TimeRange;
use crate::tree::{
    feed, feed_all, has_table, range_nodes, ranges_ascend, table_views, tables_differ,
    with_column, TreeView,
};
use vstd::prelude::*;

verus! {

/// The bytes that come for a time range in a list of ranges with bytes, one after the other.
pub open spec fn bytes_for(list: Seq<RangeHash>, range: TimeRange) -> Seq<u8>
    decreases list.len(),
{
    if list.len() == 0 {
        Seq::empty()
    } else if list.last().0 == range {
        bytes_for(list.drop_last(), range) + list.last().1
    } else {
        bytes_for(list.drop_last(), range)
    }
}

/// Whether a time range occurs in a list.
pub open spec fn has_range(list: Seq<RangeHash>, range: TimeRange) -> bool {
    exists|i: int| 0 <= i < list.len() && (#[trigger] list[i]).0 == range
}

/// Feeding bytes for a range keeps the ranges in ascending order, adds the bytes behind those that
/// the range has, and changes no other range.
pub proof fn law_feed(fed: Seq<RangeHash>, range: TimeRange, bytes: Seq<u8>, other: TimeRange)
    requires
        ranges_ascend(fed),
    ensures
        ranges_ascend(feed(fed, range, bytes)),
        has_range(feed(fed, range, bytes), other) <==> has_range(fed, other) || other == range,
        bytes_for(feed(fed, range, bytes), range) == bytes_for(fed, range) + bytes,
        other != range ==> bytes_for(feed(fed, range, bytes), other) == bytes_for(fed, other),
    decreases fed.len(),
{
    let after = feed(fed, range, bytes);
    if fed.len() == 0 {
        assert(after[0].0 == range);
        assert(after.drop_last() =~= fed);
        assert(bytes_for(after, range) =~= bytes_for(fed, range) + bytes);
    } else {
        let init = fed.drop_last();
        let last = fed.last();
        assert(ranges_ascend(init));
        assert(fed[fed.len() - 1] == last);
        if last.0 == range {
            assert(after.drop_last() =~= init);
            assert(after[after.len() - 1].0 == range);
            assert forall|i: int| 0 <= i < fed.len() implies (#[trigger] after[i]).0
                == fed[i].0 by {}
            assert(has_range(after, other) ==> has_range(fed, other)) by {
                if has_range(after, other) {
                    let i = choose|i: int|
                        0 <= i < after.len() && (#[trigger] after[i]).0 == other;
                    assert(fed[i].0 == other);
                }
            }
            assert(has_range(fed, other) ==> has_range(after, other)) by {
                if has_range(fed, other) {
                    let i = choose|i: int| 0 <= i < fed.len() && (#[trigger] fed[i]).0 == other;
                    assert(after[i].0 == other);
                }
            }
            assert(bytes_for(after, range) =~= bytes_for(fed, range) + bytes);
        } else if range.before(last.0) {
            law_feed(init, range, bytes, other);
            let inner = feed(init, range, bytes);
            assert(after.drop_last() =~= inner);
            assert(after[inner.len() as int] == last);
            assert forall|i: int, j: int| 0 <= i < j < after.len() implies (
            #[trigger] after[i]).0.before((#[trigger] after[j]).0) by {
                if j == inner.len() {
                    let r = inner[i].0;
                    law_feed(init, range, bytes, r);
                    assert(has_range(inner, r));
                    if r != range {
                        let k = choose|k: int| 0 <= k < init.len() && (#[trigger] init[k]).0 == r;
                        assert(fed[k].0.before(fed[fed.len() - 1].0));
                    }
                } else {
                    assert(inner[i].0.before(inner[j].0));
                }
            }
            assert(has_range(after, other) <==> has_range(inner, other) || other == last.0) by {
                if has_range(inner, other) {
                    let i = choose|i: int|
                        0 <= i < inner.len() && (#[trigger] inner[i]).0 == other;
                    assert(after[i].0 == other);
                }
                if has_range(after, other) {
                    let i = choose|i: int|
                        0 <= i < after.len() && (#[trigger] after[i]).0 == other;
                    if i < inner.len() {
                        assert(inner[i].0 == other);
                    }
                }
            }
            assert(has_range(fed, other) <==> has_range(init, other) || other == last.0) by {
                if has_range(init, other) {
                    let i = choose|i: int| 0 <= i < init.len() && (#[trigger] init[i]).0 == other;
                    assert(fed[i].0 == other);
                }
                if has_range(fed, other) {
                    let i = choose|i: int| 0 <= i < fed.len() && (#[trigger] fed[i]).0 == other;
                    if i < init.len() {
                        assert(init[i].0 == other);
                    }
                }
            }
        } else {
            assert(after.drop_last() =~= fed);
            assert(after[fed.len() as int].0 == range);
            assert(last.0.before(range));
            assert forall|i: int, j: int| 0 <= i < j < after.len() implies (
            #[trigger] after[i]).0.before((#[trigger] after[j]).0) by {
                if j == fed.len() {
                    if i < fed.len() - 1 {
                        assert(fed[i].0.before(fed[fed.len() - 1].0));
                    }
                } else {
                    assert(fed[i].0.before(fed[j].0));
                }
            }
            assert(has_range(after, other) <==> has_range(fed, other) || other == range) by {
                if has_range(fed, other) {
                    let i = choose|i: int| 0 <= i < fed.len() && (#[trigger] fed[i]).0 == other;
                    assert(after[i].0 == other);
                }
                if has_range(after, other) {
                    let i = choose|i: int|
                        0 <= i < after.len() && (#[trigger] after[i]).0 == other;
                    if i < fed.len() {
                        assert(fed[i].0 == other);
                    }
                }
            }
            assert(bytes_for(after, range) == bytes_for(fed, range) + bytes);
        }
    }
}

/// Feeding some hashes keeps the ranges in ascending order; the ranges are then those that were
/// there and those of the hashes; and each range has the bytes that it had, followed by those of
/// its hashes in the order in which they came.
pub proof fn law_feed_all(fed: Seq<RangeHash>, hashes: Seq<RangeHash>, range: TimeRange)
    requires
        ranges_ascend(fed),
    ensures
        ranges_ascend(feed_all(fed, hashes)),
        has_range(feed_all(fed, hashes), range) <==> has_range(fed, range) || has_range(
            hashes,
            range,
        ),
        bytes_for(feed_all(fed, hashes), range) == bytes_for(fed, range) + bytes_for(hashes, range),
    decreases hashes.len(),
{
    if hashes.len() == 0 {
        assert(bytes_for(fed, range) =~= bytes_for(fed, range) + bytes_for(hashes, range));
    } else {
        let init = hashes.drop_last();
        let last = hashes.last();
        let before = feed_all(fed, init);
        law_feed_all(fed, init, range);
        law_feed(before, last.0, last.1, range);
        assert(has_range(hashes, range) <==> has_range(init, range) || range == last.0) by {
            assert(hashes[hashes.len() - 1] == last);
            if has_range(init, range) {
                let i = choose|i: int| 0 <= i < init.len() && (#[trigger] init[i]).0 == range;
                assert(hashes[i].0 == range);
            }
            if has_range(hashes, range) {
                let i = choose|i: int| 0 <= i < hashes.len() && (#[trigger] hashes[i]).0 == range;
                if i < init.len() {
                    assert(init[i].0 == range);
                }
            }
        }
        assert(bytes_for(feed_all(fed, hashes), range) =~= bytes_for(fed, range) + bytes_for(
            hashes,
            range,
        ));
    }
}

/// Feeding hashes in two goes is feeding them at once.
pub proof fn law_feed_all_twice(fed: Seq<RangeHash>, first: Seq<RangeHash>, second: Seq<RangeHash>)
    ensures
        feed_all(feed_all(fed, first), second) == feed_all(fed, first + second),
    decreases second.len(),
{
    if second.len() == 0 {
        assert(first + second =~= first);
    } else {
        assert((first + second).drop_last() =~= first + second.drop_last());
        assert((first + second).last() == second.last());
        law_feed_all_twice(fed, first, second.drop_last());
    }
}

/// The hashes of all the fields of a column, one field after the other.
pub open spec fn column_hashes(entries: Seq<FieldEntryView>, column_id: ColumnId) -> Seq<RangeHash>
    decreases entries.len(),
{
    if entries.len() == 0 {
        Seq::empty()
    } else if column_of(entries.last().field_id) == column_id {
        column_hashes(entries.drop_last(), column_id) + entries.last().hashes
    } else {
        column_hashes(entries.drop_last(), column_id)
    }
}

/// The number of fields of a column that have hashes.
pub open spec fn fields_of_column(entries: Seq<FieldEntryView>, column_id: ColumnId) -> nat
    decreases entries.len(),
{
    if entries.len() == 0 {
        0
    } else if column_of(entries.last().field_id) == column_id && entries.last().hashes.len() > 0 {
        fields_of_column(entries.drop_last(), column_id) + 1
    } else {
        fields_of_column(entries.drop_last(), column_id)
    }
}

/// The node that the hashes of all its fields give a column.
pub open spec fn column_node(
    name: ColumnNameView,
    entries: Seq<FieldEntryView>,
    column_id: ColumnId,
) -> ColumnNodeView {
    ColumnNodeView {
        column: name.column,
        values: range_nodes(feed_all(Seq::empty(), column_hashes(entries, column_id))),
    }
}

/// Whether a table has a node with the column among its columns.
pub open spec fn has_column(
    tables: Seq<TableNodeView>,
    table: Seq<char>,
    column: ColumnNodeView,
) -> bool {
    exists|i: int|
        0 <= i < tables.len() && (#[trigger] tables[i]).table == table && tables[i].columns.contains(
            column,
        )
}

/// A column that is put in is there, and so are those that were there before.
proof fn lemma_with_column(
    tables: Seq<TableNodeView>,
    table: Seq<char>,
    column: ColumnNodeView,
    other_table: Seq<char>,
    other: ColumnNodeView,
)
    ensures
        has_column(with_column(tables, table, column), table, column),
        has_column(with_column(tables, table, column), other_table, other) <==> has_column(
            tables,
            other_table,
            other,
        ) || (other_table == table && other == column),
{
    let after = with_column(tables, table, column);
    if has_table(tables, table) {
        let k = choose|k: int| 0 <= k < tables.len() && #[trigger] tables[k].table == table;
        assert(after[k].columns == tables[k].columns.push(column));
        assert(after[k].columns[tables[k].columns.len() as int] == column);
        assert(after[k].table == table);
    } else {
        assert(after[tables.len() as int].columns[0] == column);
        assert(after[tables.len() as int].table == table);
    }
    if has_column(tables, other_table, other) {
        let i = choose|i: int|
            0 <= i < tables.len() && (#[trigger] tables[i]).table == other_table
                && tables[i].columns.contains(other);
        let j = choose|j: int| 0 <= j < tables[i].columns.len() && tables[i].columns[j] == other;
        assert(after[i].table == other_table);
        assert(after[i].columns[j] == other);
    }
    if has_column(after, other_table, other) {
        let i = choose|i: int|
            0 <= i < after.len() && (#[trigger] after[i]).table == other_table
                && after[i].columns.contains(other);
        let j = choose|j: int| 0 <= j < after[i].columns.len() && after[i].columns[j] == other;
        if i < tables.len() {
            assert(tables[i].table == after[i].table);
            if j < tables[i].columns.len() {
                assert(tables[i].columns[j] == other);
            }
        }
    }
}

/// No two nodes are ever of the same table, and every table node has a column.
pub proof fn law_tables_differ(
    names: Map<ColumnId, ColumnNameView>,
    counts: Map<ColumnId, nat>,
    entries: Seq<FieldEntryView>,
)
    ensures
        ({
            let tables = TreeView::initial(names, counts).add_fields(entries).tables;
            &&& tables_differ(tables)
            &&& forall|i: int| 0 <= i < tables.len() ==> (#[trigger] tables[i]).columns.len() > 0
        }),
    decreases entries.len(),
{
    if entries.len() > 0 {
        law_tables_differ(names, counts, entries.drop_last());
    }
}

/// A column gets its node exactly when as many of its fields have come with hashes as its counter
/// says. The node then stands under the column's table, and holds the hashes of all its fields.
/// Until then the column stays without one. (The counter is at least one, and no more fields come
/// than it says.)
pub proof fn law_column_complete(
    names: Map<ColumnId, ColumnNameView>,
    counts: Map<ColumnId, nat>,
    entries: Seq<FieldEntryView>,
    column_id: ColumnId,
)
    requires
        names.contains_key(column_id),
        counts.contains_key(column_id),
        counts[column_id] > 0,
        fields_of_column(entries, column_id) <= counts[column_id],
    ensures
        ({
            let state = TreeView::initial(names, counts).add_fields(entries);
            let complete = fields_of_column(entries, column_id) == counts[column_id];
            &&& state.names.contains_key(column_id) <==> !complete
            &&& complete ==> has_column(
                state.tables,
                names[column_id].table,
                column_node(names[column_id], entries, column_id),
            )
            &&& !complete ==> {
                &&& state.names[column_id] == names[column_id]
                &&& state.counts.contains_key(column_id)
                &&& state.counts[column_id] == counts[column_id] - fields_of_column(
                    entries,
                    column_id,
                )
                &&& state.fed_for(column_id) == feed_all(
                    Seq::empty(),
                    column_hashes(entries, column_id),
                )
            }
        }),
    decreases entries.len(),
{
    if entries.len() > 0 {
        let init = entries.drop_last();
        let entry = entries.last();
        let c = column_of(entry.field_id);
        let before = TreeView::initial(names, counts).add_fields(init);
        law_column_complete(names, counts, init, column_id);
        let name = names[column_id];
        let node = column_node(name, entries, column_id);
        if c == column_id {
            law_feed_all_twice(Seq::empty(), column_hashes(init, column_id), entry.hashes);
            if entry.hashes.len() == 0 {
                assert(column_hashes(entries, column_id) =~= column_hashes(init, column_id));
            } else if before.counts[c] == 1 {
                lemma_with_column(before.tables, name.table, node, name.table, node);
            }
        } else if before.uses(entry) && before.counts.contains_key(c) && before.counts[c] == 1 {
            let other = ColumnNodeView {
                column: before.names[c].column,
                values: range_nodes(feed_all(before.fed_for(c), entry.hashes)),
            };
            lemma_with_column(before.tables, before.names[c].table, other, name.table, node);
        }
    }
}

/// Whether a column node is that of some column that has a name in the table and got its node from
/// the hashes of all its fields.
pub open spec fn explained(
    names: Map<ColumnId, ColumnNameView>,
    left: Map<ColumnId, ColumnNameView>,
    entries: Seq<FieldEntryView>,
    table: Seq<char>,
    column: ColumnNodeView,
) -> bool {
    exists|c: ColumnId| #[trigger]
        names.contains_key(c) && !left.contains_key(c) && names[c].table == table && column
            == column_node(names[c], entries, c)
}

/// Every column node of the tree stands under the table of a column with a name, and is the node
/// that the hashes of all the column's fields give it. (No more fields of a column come than its
/// counter says.)
pub proof fn law_nodes_explained(
    names: Map<ColumnId, ColumnNameView>,
    counts: Map<ColumnId, nat>,
    entries: Seq<FieldEntryView>,
    table: Seq<char>,
    column: ColumnNodeView,
)
    requires
        forall|c: ColumnId| #[trigger]
            names.contains_key(c) && counts.contains_key(c) ==> counts[c] > 0 && fields_of_column(
                entries,
                c,
            ) <= counts[c],
    ensures
        ({
            let state = TreeView::initial(names, counts).add_fields(entries);
            has_column(state.tables, table, column) ==> explained(
                names,
                state.names,
                entries,
                table,
                column,
            )
        }),
    decreases entries.len(),
{
    if entries.len() > 0 {
        let init = entries.drop_last();
        let entry = entries.last();
        let c = column_of(entry.field_id);
        let before = TreeView::initial(names, counts).add_fields(init);
        let after = TreeView::initial(names, counts).add_fields(entries);
        law_nodes_explained(names, counts, init, table, column);
        lemma_names_shrink(names, counts, init);
        if has_column(after.tables, table, column) {
            if has_column(before.tables, table, column) {
                let d = choose|d: ColumnId| #[trigger]
                    names.contains_key(d) && !before.names.contains_key(d) && names[d].table
                        == table && column == column_node(names[d], init, d);
                assert(names.contains_key(d) && !after.names.contains_key(d));
                law_column_complete(names, counts, init, d);
                assert(c == d ==> entry.hashes.len() == 0);
                assert(column_hashes(entries, d) =~= column_hashes(init, d));
            } else {
                law_column_complete(names, counts, init, c);
                law_feed_all_twice(Seq::empty(), column_hashes(init, c), entry.hashes);
                let node = column_node(names[c], entries, c);
                lemma_with_column(before.tables, names[c].table, node, table, column);
                assert(names.contains_key(c) && !after.names.contains_key(c));
            }
        }
    }
}

/// Whether two lists of fields give a column the same hashes and as many fields.
spec fn same_for(a: Seq<FieldEntryView>, b: Seq<FieldEntryView>, column_id: ColumnId) -> bool {
    &&& column_hashes(a, column_id) == column_hashes(b, column_id)
    &&& fields_of_column(a, column_id) == fields_of_column(b, column_id)
}

/// What two fields of different columns that come one after the other give a column does not
/// depend on which of them comes first.
proof fn lemma_swap(
    before: Seq<FieldEntryView>,
    x: FieldEntryView,
    y: FieldEntryView,
    after: Seq<FieldEntryView>,
    column_id: ColumnId,
)
    requires
        column_of(x.field_id) != column_of(y.field_id),
    ensures
        same_for(before.push(x).push(y) + after, before.push(y).push(x) + after, column_id),
    decreases after.len(),
{
    let a = before.push(x).push(y) + after;
    let b = before.push(y).push(x) + after;
    if after.len() == 0 {
        reveal_with_fuel(column_hashes, 3);
        reveal_with_fuel(fields_of_column, 3);
        assert(a.drop_last() =~= before.push(x));
        assert(b.drop_last() =~= before.push(y));
        assert(before.push(x).drop_last() =~= before);
        assert(before.push(y).drop_last() =~= before);
        assert(a.last() == y);
        assert(b.last() == x);
    } else {
        assert(a.drop_last() =~= before.push(x).push(y) + after.drop_last());
        assert(b.drop_last() =~= before.push(y).push(x) + after.drop_last());
        assert(a.last() == after.last());
        assert(b.last() == after.last());
        lemma_swap(before, x, y, after.drop_last(), column_id);
    }
}

/// A tree holds the same columns under the same tables whichever of two fields of different
/// columns comes first: the order in which the columns come does not matter. (No more fields of a
/// column come than its counter says.)
pub proof fn law_order_across_columns(
    names: Map<ColumnId, ColumnNameView>,
    counts: Map<ColumnId, nat>,
    before: Seq<FieldEntryView>,
    x: FieldEntryView,
    y: FieldEntryView,
    after: Seq<FieldEntryView>,
    table: Seq<char>,
    column: ColumnNodeView,
)
    requires
        column_of(x.field_id) != column_of(y.field_id),
        forall|c: ColumnId| #[trigger]
            names.contains_key(c) && counts.contains_key(c) ==> counts[c] > 0 && fields_of_column(
                before.push(x).push(y) + after,
                c,
            ) <= counts[c],
    ensures
        has_column(
            TreeView::initial(names, counts).add_fields(before.push(x).push(y) + after).tables,
            table,
            column,
        ) <==> has_column(
            TreeView::initial(names, counts).add_fields(before.push(y).push(x) + after).tables,
            table,
            column,
        ),
{
    let a = before.push(x).push(y) + after;
    let b = before.push(y).push(x) + after;
    assert forall|c: ColumnId| #[trigger] same_for(a, b, c) by {
        lemma_swap(before, x, y, after, c);
    }
    assert forall|c: ColumnId| #[trigger] same_for(b, a, c) by {
        assert(same_for(a, b, c));
    }
    assert forall|c: ColumnId| #[trigger]
        names.contains_key(c) && counts.contains_key(c) implies counts[c] > 0
        && fields_of_column(b, c) <= counts[c] by {
        assert(same_for(a, b, c));
    }
    if has_column(TreeView::initial(names, counts).add_fields(a).tables, table, column) {
        lemma_carries_over(names, counts, a, b, table, column);
    }
    if has_column(TreeView::initial(names, counts).add_fields(b).tables, table, column) {
        lemma_carries_over(names, counts, b, a, table, column);
    }
}

/// A column of one tree stands in another one too, where both get the same of each column.
proof fn lemma_carries_over(
    names: Map<ColumnId, ColumnNameView>,
    counts: Map<ColumnId, nat>,
    a: Seq<FieldEntryView>,
    b: Seq<FieldEntryView>,
    table: Seq<char>,
    column: ColumnNodeView,
)
    requires
        forall|c: ColumnId| #[trigger]
            names.contains_key(c) && counts.contains_key(c) ==> counts[c] > 0 && fields_of_column(
                a,
                c,
            ) <= counts[c],
        forall|c: ColumnId| #[trigger] same_for(a, b, c),
        has_column(TreeView::initial(names, counts).add_fields(a).tables, table, column),
    ensures
        has_column(TreeView::initial(names, counts).add_fields(b).tables, table, column),
{
    let left = TreeView::initial(names, counts).add_fields(a).names;
    law_nodes_explained(names, counts, a, table, column);
    lemma_names_shrink(names, counts, a);
    let c = choose|c: ColumnId| #[trigger]
        names.contains_key(c) && !left.contains_key(c) && names[c].table == table && column
            == column_node(names[c], a, c);
    assert(names.contains_key(c) && counts.contains_key(c));
    assert(same_for(a, b, c));
    law_column_complete(names, counts, a, c);
    law_column_complete(names, counts, b, c);
}

/// The names that are left are among those that were there, and a column without a counter keeps
/// its name.
pub(crate) proof fn lemma_names_shrink(
    names: Map<ColumnId, ColumnNameView>,
    counts: Map<ColumnId, nat>,
    entries: Seq<FieldEntryView>,
)
    ensures
        ({
            let state = TreeView::initial(names, counts).add_fields(entries);
            &&& state.counts.dom() == counts.dom()
            &&& forall|c: ColumnId| #[trigger]
                state.names.contains_key(c) ==> names.contains_key(c) && state.names[c] == names[c]
            &&& forall|c: ColumnId|
                names.contains_key(c) && !counts.contains_key(c)
                    ==> #[trigger] state.names.contains_key(c)
        }),
    decreases entries.len(),
{
    if entries.len() > 0 {
        lemma_names_shrink(names, counts, entries.drop_last());
        let state = TreeView::initial(names, counts).add_fields(entries);
        assert(state.counts.dom() =~= counts.dom());
    }
}

/// The nodes of some time ranges are as many as the ranges, in their order; each has its range and
/// the hash of the bytes that were fed for it.
pub proof fn law_range_nodes(fed: Seq<RangeHash>)
    ensures
        range_nodes(fed).len() == fed.len(),
        forall|i: int|
            0 <= i < fed.len() ==> {
                let node = #[trigger] range_nodes(fed)[i];
                &&& node.min_ts == fed[i].0.min_ts
                &&& node.max_ts == fed[i].0.max_ts
                &&& node.hash == digest(fed[i].1)
            },
{
}

/// The bytes that come for a range in two lists, one behind the other, are those of the first
/// followed by those of the second; a list of one gives its bytes to its range and to no other.
pub proof fn law_bytes_for(a: Seq<RangeHash>, b: Seq<RangeHash>, item: RangeHash, range: TimeRange)
    ensures
        bytes_for(a + b, range) == bytes_for(a, range) + bytes_for(b, range),
        item.0 == range ==> bytes_for(seq![item], range) == item.1,
        item.0 != range ==> bytes_for(seq![item], range) == Seq::<u8>::empty(),
    decreases b.len(),
{
    if b.len() == 0 {
        assert(a + b =~= a);
        assert(bytes_for(a, range) + bytes_for(b, range) =~= bytes_for(a, range));
    } else {
        law_bytes_for(a, b.drop_last(), item, range);
        assert((a + b).drop_last() =~= a + b.drop_last());
        assert((a + b).last() == b.last());
        assert(bytes_for(a + b, range) =~= bytes_for(a, range) + bytes_for(b, range));
    }
    assert(seq![item].drop_last() =~= Seq::empty());
    reveal_with_fuel(bytes_for, 2);
    if item.0 == range {
        assert(bytes_for(seq![item], range) =~= item.1);
    } else {
        assert(bytes_for(seq![item], range) =~= Seq::empty());
    }
}

/// In ascending ranges, the bytes that come for a range are those at its position.
proof fn lemma_bytes_at(fed: Seq<RangeHash>, i: int)
    requires
        ranges_ascend(fed),
        0 <= i < fed.len(),
    ensures
        bytes_for(fed, fed[i].0) == fed[i].1,
    decreases fed.len(),
{
    let init = fed.drop_last();
    let n = fed.len() - 1;
    assert(fed.last() == fed[n]);
    if i < n {
        assert(fed[i].0.before(fed[n].0));
        assert(init[i] == fed[i]);
        lemma_bytes_at(init, i);
    } else {
        lemma_no_bytes(init, fed[n].0);
        assert(bytes_for(fed, fed[i].0) =~= fed[i].1);
    }
}

/// No bytes come for a range that does not occur.
proof fn lemma_no_bytes(list: Seq<RangeHash>, range: TimeRange)
    requires
        forall|i: int| 0 <= i < list.len() ==> (#[trigger] list[i]).0 != range,
    ensures
        bytes_for(list, range) == Seq::<u8>::empty(),
    decreases list.len(),
{
    if list.len() > 0 {
        let init = list.drop_last();
        assert(list[list.len() - 1].0 != range);
        assert forall|i: int| 0 <= i < init.len() implies (#[trigger] init[i]).0 != range by {
            assert(list[i].0 != range);
        }
        lemma_no_bytes(init, range);
    }
}

/// The time range of a node.
pub open spec fn node_range(node: TimeRangeNodeView) -> TimeRange {
    TimeRange { min_ts: node.min_ts, max_ts: node.max_ts }
}

/// The node of a column has the column's name and one value for each different time range among
/// the hashes of its fields, in the order of the ranges. The hash of a value is that of the hashes
/// that came for its range, one after the other.
pub proof fn law_column_values(
    name: ColumnNameView,
    entries: Seq<FieldEntryView>,
    column_id: ColumnId,
    range: TimeRange,
)
    ensures
        ({
            let node = column_node(name, entries, column_id);
            let hashes = column_hashes(entries, column_id);
            &&& node.column == name.column
            &&& node.values.len() == hashes.map_values(|h: RangeHash| h.0).to_set().len()
            &&& forall|i: int, j: int|
                0 <= i < j < node.values.len() ==> node_range(#[trigger] node.values[i]).before(
                    node_range(#[trigger] node.values[j]),
                )
            &&& has_range(hashes, range) <==> exists|i: int|
                0 <= i < node.values.len() && node_range(#[trigger] node.values[i]) == range
            &&& forall|i: int|
                0 <= i < node.values.len() ==> (#[trigger] node.values[i]).hash == digest(
                    bytes_for(hashes, node_range(node.values[i])),
                )
        }),
{
    let node = column_node(name, entries, column_id);
    let hashes = column_hashes(entries, column_id);
    let fed = feed_all(Seq::empty(), hashes);
    law_feed_all(Seq::empty(), hashes, range);
    assert forall|i: int| 0 <= i < node.values.len() implies (#[trigger] node.values[i]).hash
        == digest(bytes_for(hashes, node_range(node.values[i]))) by {
        let r = fed[i].0;
        assert(node_range(node.values[i]) == r);
        law_feed_all(Seq::empty(), hashes, r);
        lemma_bytes_at(fed, i);
        assert(bytes_for(Seq::empty(), r) + bytes_for(hashes, r) =~= bytes_for(hashes, r));
    }
    assert forall|i: int, j: int| 0 <= i < j < node.values.len() implies node_range(
        #[trigger] node.values[i],
    ).before(node_range(#[trigger] node.values[j])) by {
        assert(fed[i].0.before(fed[j].0));
    }
    if has_range(hashes, range) {
        let i = choose|i: int| 0 <= i < fed.len() && (#[trigger] fed[i]).0 == range;
        assert(node_range(node.values[i]) == range);
    }
    if exists|i: int| 0 <= i < node.values.len() && node_range(#[trigger] node.values[i]) == range {
        let i = choose|i: int|
            0 <= i < node.values.len() && node_range(#[trigger] node.values[i]) == range;
        assert(fed[i].0 == range);
    }
    let of_hashes = hashes.map_values(|h: RangeHash| h.0);
    let of_fed = fed.map_values(|h: RangeHash| h.0);
    assert forall|i: int, j: int| 0 <= i < of_fed.len() && 0 <= j < of_fed.len() && i
        != j implies of_fed[i] != of_fed[j] by {
        if i < j {
            assert(fed[i].0.before(fed[j].0));
        } else {
            assert(fed[j].0.before(fed[i].0));
        }
    }
    assert forall|r: TimeRange| of_fed.to_set().contains(r) == of_hashes.to_set().contains(r) by {
        law_feed_all(Seq::empty(), hashes, r);
        if of_fed.contains(r) {
            let i = choose|i: int| 0 <= i < of_fed.len() && of_fed[i] == r;
            assert(fed[i].0 == r);
            let j = choose|j: int| 0 <= j < hashes.len() && (#[trigger] hashes[j]).0 == r;
            assert(of_hashes[j] == r);
        }
        if of_hashes.contains(r) {
            let j = choose|j: int| 0 <= j < of_hashes.len() && of_hashes[j] == r;
            assert(hashes[j].0 == r);
            let i = choose|i: int| 0 <= i < fed.len() && (#[trigger] fed[i]).0 == r;
            assert(of_fed[i] == r);
        }
    }
    assert(of_fed.to_set() =~= of_hashes.to_set());
    of_fed.unique_seq_to_set();
}

/// The hashes and the number of the fields of a column in two lists, one behind the other, are
/// those of the first and those of the second; a list of one field gives its hashes to its column
/// and to no other.
pub proof fn law_column_hashes(
    a: Seq<FieldEntryView>,
    b: Seq<FieldEntryView>,
    entry: FieldEntryView,
    column_id: ColumnId,
)
    ensures
        column_hashes(a + b, column_id) == column_hashes(a, column_id) + column_hashes(
            b,
            column_id,
        ),
        fields_of_column(a + b, column_id) == fields_of_column(a, column_id) + fields_of_column(
            b,
            column_id,
        ),
        column_hashes(seq![entry], column_id) == (if column_of(entry.field_id) == column_id {
            entry.hashes
        } else {
            Seq::empty()
        }),
        fields_of_column(seq![entry], column_id) == (if column_of(entry.field_id) == column_id
            && entry.hashes.len() > 0 {
            1nat
        } else {
            0nat
        }),
    decreases b.len(),
{
    if b.len() == 0 {
        assert(a + b =~= a);
        assert(column_hashes(a, column_id) + column_hashes(b, column_id) =~= column_hashes(
            a,
            column_id,
        ));
    } else {
        law_column_hashes(a, b.drop_last(), entry, column_id);
        assert((a + b).drop_last() =~= a + b.drop_last());
        assert((a + b).last() == b.last());
        assert(column_hashes(a + b, column_id) =~= column_hashes(a, column_id) + column_hashes(
            b,
            column_id,
        ));
    }
    assert(seq![entry].drop_last() =~= Seq::empty());
    reveal_with_fuel(column_hashes, 2);
    reveal_with_fuel(fields_of_column, 2);
    assert(column_hashes(seq![entry], column_id) =~= if column_of(entry.field_id) == column_id {
        entry.hashes
    } else {
        Seq::empty()
    });
}

/// The number of column nodes of some tables.
pub open spec fn total_columns(tables: Seq<TableNodeView>) -> nat
    decreases tables.len(),
{
    if tables.len() == 0 {
        0
    } else {
        total_columns(tables.drop_last()) + tables.last().columns.len()
    }
}

/// Putting a column in adds one column node.
proof fn lemma_total_with_column(
    tables: Seq<TableNodeView>,
    table: Seq<char>,
    column: ColumnNodeView,
)
    requires
        tables_differ(tables),
    ensures
        total_columns(with_column(tables, table, column)) == total_columns(tables) + 1,
    decreases tables.len(),
{
    let after = with_column(tables, table, column);
    if has_table(tables, table) {
        let init = tables.drop_last();
        let n = tables.len() - 1;
        assert(tables_differ(init)) by {
            assert forall|i: int, j: int| 0 <= i < j < init.len() implies #[trigger] init[i].table
                != #[trigger] init[j].table by {
                assert(tables[i].table != tables[j].table);
            }
        }
        if tables[n].table == table {
            assert(after.drop_last() =~= init) by {
                assert forall|i: int| 0 <= i < init.len() implies after[i] == init[i] by {
                    assert(tables[i].table != tables[n].table);
                }
            }
            assert(after.last().columns == tables[n].columns.push(column));
        } else {
            let k = choose|k: int| 0 <= k < tables.len() && #[trigger] tables[k].table == table;
            assert(init[k].table == table);
            lemma_total_with_column(init, table, column);
            assert(after.drop_last() =~= with_column(init, table, column));
            assert(after.last() == tables[n]);
        }
    } else {
        assert(after.drop_last() =~= tables);
    }
}

/// Every column that has lost its name has got one node.
proof fn lemma_total_columns(
    names: Map<ColumnId, ColumnNameView>,
    counts: Map<ColumnId, nat>,
    entries: Seq<FieldEntryView>,
)
    requires
        names.dom().finite(),
    ensures
        ({
            let state = TreeView::initial(names, counts).add_fields(entries);
            &&& state.names.dom().finite()
            &&& total_columns(state.tables) + state.names.dom().len() == names.dom().len()
        }),
    decreases entries.len(),
{
    if entries.len() > 0 {
        let init = entries.drop_last();
        let entry = entries.last();
        let c = column_of(entry.field_id);
        lemma_total_columns(names, counts, init);
        law_tables_differ(names, counts, init);
        let before = TreeView::initial(names, counts).add_fields(init);
        let after = TreeView::initial(names, counts).add_fields(entries);
        if before.uses(entry) && before.counts.contains_key(c) && before.counts[c] == 1 {
            let name = before.names[c];
            let node = ColumnNodeView {
                column: name.column,
                values: range_nodes(feed_all(before.fed_for(c), entry.hashes)),
            };
            lemma_total_with_column(before.tables, name.table, node);
            assert(after.names.dom() =~= before.names.dom().remove(c));
        }
    }
}

/// The tree has one column node, and no second one, for each column of which as many fields have
/// come with hashes as its counter says. (The counter is at least one, and no more fields come
/// than it says.)
pub proof fn law_one_node_each(
    names: Map<ColumnId, ColumnNameView>,
    counts: Map<ColumnId, nat>,
    entries: Seq<FieldEntryView>,
)
    requires
        names.dom().finite(),
        forall|c: ColumnId| #[trigger]
            names.contains_key(c) && counts.contains_key(c) ==> counts[c] > 0 && fields_of_column(
                entries,
                c,
            ) <= counts[c],
    ensures
        total_columns(TreeView::initial(names, counts).add_fields(entries).tables)
            == names.dom().filter(
            |c: ColumnId| counts.contains_key(c) && fields_of_column(entries, c) == counts[c],
        ).len(),
{
    let state = TreeView::initial(names, counts).add_fields(entries);
    let complete = names.dom().filter(
        |c: ColumnId| counts.contains_key(c) && fields_of_column(entries, c) == counts[c],
    );
    let left = state.names.dom();
    lemma_total_columns(names, counts, entries);
    lemma_names_shrink(names, counts, entries);
    names.dom().lemma_len_filter(
        |c: ColumnId| counts.contains_key(c) && fields_of_column(entries, c) == counts[c],
    );
    assert forall|c: ColumnId| left.contains(c) implies names.contains_key(c) && !complete.contains(
        c,
    ) by {
        assert(state.names.contains_key(c));
        if counts.contains_key(c) {
            assert(names.contains_key(c) && counts.contains_key(c));
            law_column_complete(names, counts, entries, c);
        }
    }
    assert forall|c: ColumnId| names.contains_key(c) && !complete.contains(c) implies left.contains(
        c,
    ) by {
        if counts.contains_key(c) {
            assert(names.contains_key(c) && counts.contains_key(c));
            law_column_complete(names, counts, entries, c);
        }
        assert(state.names.contains_key(c));
    }
    assert(complete + left =~= names.dom());
    assert(complete.disjoint(left));
    vstd::set_lib::lemma_set_disjoint_lens(complete, left);
}

/// What is said of some tables, fields or counters is said of every one of them, in their order.
pub proof fn law_views(
    tables: Seq<TableHashTreeNode>,
    entries: Seq<FieldEntry>,
    hashes: Seq<(TimeRange, crate::hasher::Hash)>,
    counts: Map<ColumnId, usize>,
)
    ensures
        table_views(tables).len() == tables.len(),
        forall|i: int| 0 <= i < tables.len() ==> #[trigger] table_views(tables)[i] == tables[i]@,
        entry_views(entries).len() == entries.len(),
        forall|i: int|
            0 <= i < entries.len() ==> {
                let entry = #[trigger] entry_views(entries)[i];
                &&& entry.field_id == entries[i].field_id
                &&& entry.hashes == range_hashes(entries[i].hashes@)
            },
        range_hashes(hashes).len() == hashes.len(),
        forall|i: int|
            0 <= i < hashes.len() ==> (#[trigger] range_hashes(hashes)[i]).0 == hashes[i].0
                && range_hashes(hashes)[i].1 == hashes[i].1@,
        counts_view(counts).dom() == counts.dom(),
        forall|c: ColumnId| #[trigger]
            counts.contains_key(c) ==> counts_view(counts)[c] == counts[c],
{
    assert(counts_view(counts).dom() =~= counts.dom());
}

} // verus!
