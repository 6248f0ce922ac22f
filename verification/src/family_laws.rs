//! What holds of the hash tree of every time series family.
use crate::error::{ErrorView, SchemaError};
use crate::family::{family_fits, family_hash_tree, tree_of_blocks};
use crate::node::{ColumnNodeView, TableNodeView};
use crate::run_laws::{field_of, has_data, law_fields_with_entries};
use crate::scan::{
    block_fits, blocks_of_column, fields_differ, has_field, law_counts, law_finished_fields,
    law_scan_inv, scan, CompactingBlock, FieldEntryView, NextBlock, RangeHash, ScanConfig,
};
use crate::scan_laws::{
    block_entries, block_entry, is_hashed, law_fields_at_most_blocks, law_finished_not_empty,
    law_one_block_each, lemma_init_one_block_each, one_block_each,
};
use crate::schema::{
    column_of, law_names, names_of_tables, ColumnId, ColumnNameView, FieldId, TableSchema,
    TseriesFamilyId,
};
use crate::text::decimal;
use crate::time::{default_time_range, law_range_holds_timestamp, DatabaseSchema};
use crate::tree::{feed_all, range_nodes, ranges_ascend, tables_differ, TreeView};
use crate::tree_laws::{
    column_hashes, column_node, fields_of_column, has_column, law_column_complete,
    law_nodes_explained, law_one_node_each, law_tables_differ, lemma_names_shrink, total_columns,
};
use vstd::prelude::*;

verus! {

/// What the reading of the blocks is told.
pub open spec fn config_of(
    ts_family_id: TseriesFamilyId,
    time_range_nanosec: i64,
    names: Map<ColumnId, ColumnNameView>,
) -> ScanConfig {
    ScanConfig { ts_family_id, time_range_nanosec, columns: names.dom() }
}

/// Whether as many blocks came for the column, at least one, as it has fields with hashes.
pub open spec fn is_complete(
    config: ScanConfig,
    blocks: Seq<NextBlock>,
    column_id: ColumnId,
) -> bool {
    let n = blocks_of_column(config, blocks, column_id);
    n > 0 && scan(config, blocks) is Ok && n == fields_of_column(
        scan(config, blocks)->Ok_0.finished_hashes(),
        column_id,
    )
}

/// A column for which as many blocks came as it has fields stands in the tree, under its table,
/// with the hashes of all its fields.
pub proof fn law_complete_column_in_tree(
    ts_family_id: TseriesFamilyId,
    time_range_nanosec: i64,
    names: Map<ColumnId, ColumnNameView>,
    blocks: Seq<NextBlock>,
    column_id: ColumnId,
)
    requires
        names.contains_key(column_id),
        is_complete(
            config_of(ts_family_id, time_range_nanosec, names),
            blocks,
            column_id,
        ),
    ensures
        ({
            let config = config_of(ts_family_id, time_range_nanosec, names);
            let finished = scan(config, blocks)->Ok_0.finished_hashes();
            tree_of_blocks(ts_family_id, time_range_nanosec, names, blocks) matches Ok(tables)
                && has_column(
                tables,
                names[column_id].table,
                column_node(names[column_id], finished, column_id),
            )
        }),
{
    let config = config_of(ts_family_id, time_range_nanosec, names);
    let state = scan(config, blocks)->Ok_0;
    law_counts(config, blocks, column_id);
    law_column_complete(names, state.counts, state.finished_hashes(), column_id);
}

/// Every column of the tree is one for which as many blocks came as it has fields, under the
/// table and the name that it has, with the hashes of all its fields.
pub proof fn law_tree_holds_complete_columns(
    ts_family_id: TseriesFamilyId,
    time_range_nanosec: i64,
    names: Map<ColumnId, ColumnNameView>,
    blocks: Seq<NextBlock>,
    table: Seq<char>,
    column: ColumnNodeView,
)
    requires
        tree_of_blocks(ts_family_id, time_range_nanosec, names, blocks) matches Ok(tables)
            && has_column(tables, table, column),
    ensures
        ({
            let config = config_of(ts_family_id, time_range_nanosec, names);
            let finished = scan(config, blocks)->Ok_0.finished_hashes();
            exists|c: ColumnId| #[trigger]
                names.contains_key(c) && is_complete(config, blocks, c) && names[c].table == table
                    && column == column_node(names[c], finished, c)
        }),
{
    let config = config_of(ts_family_id, time_range_nanosec, names);
    let state = scan(config, blocks)->Ok_0;
    let finished = state.finished_hashes();
    assert forall|c: ColumnId| #[trigger]
        names.contains_key(c) && state.counts.contains_key(c) implies state.counts[c] > 0
        && fields_of_column(finished, c) <= state.counts[c] by {
        law_counts(config, blocks, c);
        law_fields_at_most_blocks(config, blocks, c);
    }
    law_nodes_explained(names, state.counts, finished, table, column);
    let end = TreeView::initial(names, state.counts).add_fields(finished);
    let c = choose|c: ColumnId| #[trigger]
        names.contains_key(c) && !end.names.contains_key(c) && names[c].table == table && column
            == column_node(names[c], finished, c);
    law_counts(config, blocks, c);
    if state.counts.contains_key(c) {
        law_column_complete(names, state.counts, finished, c);
        assert(names.contains_key(c) && is_complete(config, blocks, c));
    } else {
        lemma_names_shrink(names, state.counts, finished);
        assert(end.names.contains_key(c));
    }
}

/// A column has as many fields with hashes as blocks, where every field has one block.
proof fn lemma_one_block_counts(config: ScanConfig, blocks: Seq<NextBlock>, column_id: ColumnId)
    requires
        one_block_each(config, blocks),
    ensures
        fields_of_column(block_entries(config, blocks), column_id) == blocks_of_column(
            config,
            blocks,
            column_id,
        ),
    decreases blocks.len(),
{
    if blocks.len() > 0 {
        let init = blocks.drop_last();
        lemma_init_one_block_each(config, blocks);
        lemma_one_block_counts(config, init, column_id);
        assert(block_entries(config, blocks).drop_last() =~= block_entries(config, init));
        assert(is_hashed(config, blocks[blocks.len() - 1]));
    }
}

/// Hashes whose ranges ascend are fed as they are.
proof fn lemma_feed_ascending(hashes: Seq<RangeHash>)
    requires
        ranges_ascend(hashes),
    ensures
        feed_all(Seq::empty(), hashes) == hashes,
    decreases hashes.len(),
{
    if hashes.len() > 0 {
        let init = hashes.drop_last();
        assert(ranges_ascend(init)) by {
            assert forall|i: int, j: int| 0 <= i < j < init.len() implies (
            #[trigger] init[i]).0.before((#[trigger] init[j]).0) by {
                assert(hashes[i].0.before(hashes[j].0));
            }
        }
        lemma_feed_ascending(init);
        if init.len() > 0 {
            assert(hashes[hashes.len() - 2].0.before(hashes[hashes.len() - 1].0));
            assert(init.last() == hashes[hashes.len() - 2]);
        }
        assert(feed_all(Seq::empty(), hashes) =~= hashes);
    } else {
        assert(feed_all(Seq::empty(), hashes) =~= hashes);
    }
}

/// The hashes of a column that only one entry belongs to.
proof fn lemma_single_entry(entries: Seq<FieldEntryView>, column_id: ColumnId, i: int)
    requires
        0 <= i < entries.len(),
        column_of(entries[i].field_id) == column_id,
        forall|j: int|
            0 <= j < entries.len() && j != i ==> column_of((#[trigger] entries[j]).field_id)
                != column_id,
    ensures
        column_hashes(entries, column_id) == entries[i].hashes,
    decreases entries.len(),
{
    let init = entries.drop_last();
    if i == entries.len() - 1 {
        lemma_no_entry(init, column_id);
        assert(column_hashes(entries, column_id) =~= entries[i].hashes);
    } else {
        assert(column_of(entries[entries.len() - 1].field_id) != column_id);
        assert forall|j: int| 0 <= j < init.len() && j != i implies column_of(
            (#[trigger] init[j]).field_id,
        ) != column_id by {
            assert(column_of(entries[j].field_id) != column_id);
        }
        lemma_single_entry(init, column_id, i);
    }
}

/// The hashes of a column that no entry belongs to.
proof fn lemma_no_entry(entries: Seq<FieldEntryView>, column_id: ColumnId)
    requires
        forall|j: int|
            0 <= j < entries.len() ==> column_of((#[trigger] entries[j]).field_id) != column_id,
    ensures
        column_hashes(entries, column_id) == Seq::<RangeHash>::empty(),
    decreases entries.len(),
{
    if entries.len() > 0 {
        assert(column_of(entries[entries.len() - 1].field_id) != column_id);
        let init = entries.drop_last();
        assert forall|j: int| 0 <= j < init.len() implies column_of((#[trigger] init[j]).field_id)
            != column_id by {
            assert(column_of(entries[j].field_id) != column_id);
        }
        lemma_no_entry(init, column_id);
    }
}

/// Where every field has one block, with values, the column of every block stands in the tree,
/// under its table, with the hashes of all its fields.
pub proof fn law_every_column_in_tree(
    ts_family_id: TseriesFamilyId,
    time_range_nanosec: i64,
    names: Map<ColumnId, ColumnNameView>,
    blocks: Seq<NextBlock>,
    i: int,
)
    requires
        0 <= i < blocks.len(),
        one_block_each(config_of(ts_family_id, time_range_nanosec, names), blocks),
    ensures
        ({
            let config = config_of(ts_family_id, time_range_nanosec, names);
            let c = column_of(block_entry(config, blocks[i]).field_id);
            tree_of_blocks(ts_family_id, time_range_nanosec, names, blocks) matches Ok(tables)
                && has_column(
                tables,
                names[c].table,
                column_node(names[c], block_entries(config, blocks), c),
            )
        }),
{
    let config = config_of(ts_family_id, time_range_nanosec, names);
    let c = column_of(block_entry(config, blocks[i]).field_id);
    law_one_block_each(config, blocks);
    lemma_one_block_counts(config, blocks, c);
    assert(is_hashed(config, blocks[i]));
    lemma_counted(config, blocks, i);
    law_complete_column_in_tree(ts_family_id, time_range_nanosec, names, blocks, c);
}

/// A block that is hashed is counted.
proof fn lemma_counted(config: ScanConfig, blocks: Seq<NextBlock>, i: int)
    requires
        0 <= i < blocks.len(),
        is_hashed(config, blocks[i]),
    ensures
        blocks_of_column(config, blocks, column_of(block_entry(config, blocks[i]).field_id)) > 0,
    decreases blocks.len(),
{
    if i < blocks.len() - 1 {
        assert(blocks.drop_last()[i] == blocks[i]);
        lemma_counted(config, blocks.drop_last(), i);
    }
}

/// Where every field has one block, with values, and a column has a single field, the column
/// stands in the tree with one node for each hash of its block: the time range, and the hash of
/// that hash.
pub proof fn law_single_field_column(
    ts_family_id: TseriesFamilyId,
    time_range_nanosec: i64,
    names: Map<ColumnId, ColumnNameView>,
    blocks: Seq<NextBlock>,
    i: int,
)
    requires
        0 <= i < blocks.len(),
        one_block_each(config_of(ts_family_id, time_range_nanosec, names), blocks),
        block_fits(config_of(ts_family_id, time_range_nanosec, names), blocks[i]),
        ({
            let config = config_of(ts_family_id, time_range_nanosec, names);
            forall|j: int|
                0 <= j < blocks.len() && j != i ==> column_of(
                    block_entry(config, #[trigger] blocks[j]).field_id,
                ) != column_of(block_entry(config, blocks[i]).field_id)
        }),
    ensures
        ({
            let config = config_of(ts_family_id, time_range_nanosec, names);
            let entry = block_entry(config, blocks[i]);
            let name = names[column_of(entry.field_id)];
            tree_of_blocks(ts_family_id, time_range_nanosec, names, blocks) matches Ok(tables)
                && has_column(
                tables,
                name.table,
                ColumnNodeView { column: name.column, values: range_nodes(entry.hashes) },
            )
        }),
{
    let config = config_of(ts_family_id, time_range_nanosec, names);
    let entries = block_entries(config, blocks);
    let entry = block_entry(config, blocks[i]);
    let c = column_of(entry.field_id);
    law_every_column_in_tree(ts_family_id, time_range_nanosec, names, blocks, i);
    assert forall|j: int| 0 <= j < entries.len() && j != i implies column_of(
        (#[trigger] entries[j]).field_id,
    ) != c by {
        assert(column_of(block_entry(config, blocks[j]).field_id) != c);
    }
    lemma_single_entry(entries, c, i);
    assert(is_hashed(config, blocks[i]));
    assert(ranges_ascend(entry.hashes)) by {
        if let Ok(CompactingBlock::DataBlock { data_block, .. }) = blocks[i] {
            let first = data_block.timestamps().first();
            law_range_holds_timestamp(first, time_range_nanosec);
        }
    }
    lemma_feed_ascending(entry.hashes);
}

/// The tree of a family holds, under its table, every column for which as many blocks came as it
/// has fields, with the hashes of all its fields.
pub proof fn law_family_holds_column(
    found: Option<TseriesFamilyId>,
    ts_family_id: TseriesFamilyId,
    tables: Result<Vec<TableSchema>, SchemaError>,
    db_schema: Result<DatabaseSchema, SchemaError>,
    blocks: Seq<NextBlock>,
    column_id: ColumnId,
)
    requires
        family_hash_tree(found, ts_family_id, tables, db_schema, blocks) is Ok,
        names_of_tables(tables->Ok_0@)->Ok_0.contains_key(column_id),
    ensures
        found is Some && tables is Ok && db_schema is Ok,
        names_of_tables(tables->Ok_0@) is Ok,
        ({
            let names = names_of_tables(tables->Ok_0@)->Ok_0;
            let config = config_of(found->0, default_time_range(db_schema->Ok_0), names);
            let nodes = family_hash_tree(found, ts_family_id, tables, db_schema, blocks)->Ok_0;
            &&& scan(config, blocks) is Ok
            &&& is_complete(config, blocks, column_id) ==> has_column(
                nodes,
                names[column_id].table,
                column_node(
                    names[column_id],
                    scan(config, blocks)->Ok_0.finished_hashes(),
                    column_id,
                ),
            )
        }),
{
    let names = names_of_tables(tables->Ok_0@)->Ok_0;
    let nanos = default_time_range(db_schema->Ok_0);
    if is_complete(config_of(found->0, nanos, names), blocks, column_id) {
        law_complete_column_in_tree(found->0, nanos, names, blocks, column_id);
    }
}

/// The tree of a family has no two nodes of the same table, and exactly one column node for each
/// column for which as many blocks came as it has fields.
pub proof fn law_family_tables(
    found: Option<TseriesFamilyId>,
    ts_family_id: TseriesFamilyId,
    tables: Result<Vec<TableSchema>, SchemaError>,
    db_schema: Result<DatabaseSchema, SchemaError>,
    blocks: Seq<NextBlock>,
)
    requires
        family_hash_tree(found, ts_family_id, tables, db_schema, blocks) is Ok,
    ensures
        ({
            let names = names_of_tables(tables->Ok_0@)->Ok_0;
            let config = config_of(found->0, default_time_range(db_schema->Ok_0), names);
            let nodes = family_hash_tree(found, ts_family_id, tables, db_schema, blocks)->Ok_0;
            &&& tables_differ(nodes)
            &&& forall|i: int| 0 <= i < nodes.len() ==> (#[trigger] nodes[i]).columns.len() > 0
            &&& total_columns(nodes) == names.dom().filter(
                |c: ColumnId| is_complete(config, blocks, c),
            ).len()
        }),
{
    let names = names_of_tables(tables->Ok_0@)->Ok_0;
    let config = config_of(found->0, default_time_range(db_schema->Ok_0), names);
    let state = scan(config, blocks)->Ok_0;
    let finished = state.finished_hashes();
    let counts = state.counts;
    law_names(tables->Ok_0@, 0);
    law_tables_differ(names, counts, finished);
    assert forall|c: ColumnId| #[trigger]
        names.contains_key(c) && counts.contains_key(c) implies counts[c] > 0 && fields_of_column(
        finished,
        c,
    ) <= counts[c] by {
        law_counts(config, blocks, c);
        law_fields_at_most_blocks(config, blocks, c);
    }
    law_one_node_each(names, counts, finished);
    let by_counts = names.dom().filter(
        |c: ColumnId| counts.contains_key(c) && fields_of_column(finished, c) == counts[c],
    );
    let by_blocks = names.dom().filter(|c: ColumnId| is_complete(config, blocks, c));
    assert forall|c: ColumnId| by_counts.contains(c) == by_blocks.contains(c) by {
        law_counts(config, blocks, c);
    }
    assert(by_counts =~= by_blocks);
}

/// Every column of the tree of a family stands under the table and the name that its column id
/// has, is one for which as many blocks came as it has fields, and has the hashes of all of them.
pub proof fn law_family_holds_nothing_else(
    found: Option<TseriesFamilyId>,
    ts_family_id: TseriesFamilyId,
    tables: Result<Vec<TableSchema>, SchemaError>,
    db_schema: Result<DatabaseSchema, SchemaError>,
    blocks: Seq<NextBlock>,
    table: Seq<char>,
    column: ColumnNodeView,
)
    requires
        family_hash_tree(found, ts_family_id, tables, db_schema, blocks) matches Ok(nodes)
            && has_column(nodes, table, column),
    ensures
        ({
            let names = names_of_tables(tables->Ok_0@)->Ok_0;
            let config = config_of(found->0, default_time_range(db_schema->Ok_0), names);
            let finished = scan(config, blocks)->Ok_0.finished_hashes();
            exists|c: ColumnId| #[trigger]
                names.contains_key(c) && is_complete(config, blocks, c) && names[c].table == table
                    && column == column_node(names[c], finished, c)
        }),
{
    let names = names_of_tables(tables->Ok_0@)->Ok_0;
    let nanos = default_time_range(db_schema->Ok_0);
    law_tree_holds_complete_columns(found->0, nanos, names, blocks, table, column);
}

/// What fails first decides the error: the look-up of the family, the listing of the tables, the
/// look-ups of their schemas, that of the database schema, and at last the reading of the blocks.
/// Where none fails there is a tree.
pub proof fn law_family_errors(
    found: Option<TseriesFamilyId>,
    ts_family_id: TseriesFamilyId,
    tables: Result<Vec<TableSchema>, SchemaError>,
    db_schema: Result<DatabaseSchema, SchemaError>,
    blocks: Seq<NextBlock>,
)
    ensures
        ({
            let tree = family_hash_tree(found, ts_family_id, tables, db_schema, blocks);
            let names = names_of_tables(tables->Ok_0@);
            let config = config_of(found->0, default_time_range(db_schema->Ok_0), names->Ok_0);
            &&& found is None ==> tree == Err::<Seq<TableNodeView>, ErrorView>(
                ErrorView::InvalidParam {
                    reason: "can not find ts_family '"@ + decimal(ts_family_id as int) + "'"@,
                },
            )
            &&& found is Some && tables is Err ==> tree == Err::<Seq<TableNodeView>, ErrorView>(
                ErrorView::Schema { reason: tables->Err_0.reason@ },
            )
            &&& found is Some && tables is Ok && names is Err ==> tree == Err::<
                Seq<TableNodeView>,
                ErrorView,
            >(names->Err_0)
            &&& found is Some && tables is Ok && names is Ok && db_schema is Err ==> tree == Err::<
                Seq<TableNodeView>,
                ErrorView,
            >(ErrorView::Schema { reason: db_schema->Err_0.reason@ })
            &&& found is Some && tables is Ok && names is Ok && db_schema is Ok && scan(
                config,
                blocks,
            ) is Err ==> tree == Err::<Seq<TableNodeView>, ErrorView>(scan(config, blocks)->Err_0)
            &&& found is Some && tables is Ok && names is Ok && db_schema is Ok && scan(
                config,
                blocks,
            ) is Ok ==> tree is Ok
        }),
{
}

/// The fields of a column that have an entry.
spec fn entry_fields(entries: Seq<FieldEntryView>, column_id: ColumnId) -> Set<FieldId> {
    Set::new(|f: FieldId| column_of(f) == column_id && has_field(entries, f))
}

/// They are as many as the fields with hashes, where every entry has some.
proof fn lemma_entry_fields(entries: Seq<FieldEntryView>, column_id: ColumnId)
    requires
        fields_differ(entries),
        forall|i: int| 0 <= i < entries.len() ==> (#[trigger] entries[i]).hashes.len() > 0,
    ensures
        entry_fields(entries, column_id).finite(),
        entry_fields(entries, column_id).len() == fields_of_column(entries, column_id),
    decreases entries.len(),
{
    let all = entry_fields(entries, column_id);
    if entries.len() > 0 {
        let init = entries.drop_last();
        let n = entries.len() - 1;
        let last = entries[n].field_id;
        assert forall|a: int, b: int| 0 <= a < b < init.len() implies #[trigger] init[a].field_id
            != #[trigger] init[b].field_id by {
            assert(entries[a].field_id != entries[b].field_id);
        }
        assert forall|i: int| 0 <= i < init.len() implies (#[trigger] init[i]).hashes.len() > 0 by {
            assert(entries[i].hashes.len() > 0);
        }
        lemma_entry_fields(init, column_id);
        assert(!has_field(init, last)) by {
            if has_field(init, last) {
                let i = choose|i: int| 0 <= i < init.len() && #[trigger] init[i].field_id == last;
                assert(entries[i].field_id != entries[n].field_id);
            }
        }
        assert forall|f: FieldId| has_field(entries, f) <==> has_field(init, f) || f == last by {
            if has_field(entries, f) {
                let i = choose|i: int| 0 <= i < entries.len() && #[trigger] entries[i].field_id == f;
                if i < n {
                    assert(init[i].field_id == f);
                }
            }
            if has_field(init, f) {
                let i = choose|i: int| 0 <= i < init.len() && #[trigger] init[i].field_id == f;
                assert(entries[i].field_id == f);
            }
            if f == last {
                assert(entries[n].field_id == f);
            }
        }
        assert(entries.last().hashes.len() > 0);
        let earlier = entry_fields(init, column_id);
        if column_of(last) == column_id {
            assert(all =~= earlier.insert(last));
        } else {
            assert(all =~= earlier);
        }
    } else {
        assert(all =~= Set::empty());
    }
}

/// The fields of a column with hashes, at the end of a reading, are as many as the fields of the
/// column for which blocks with timestamps came.
pub proof fn law_fields_counted(config: ScanConfig, blocks: Seq<NextBlock>, column_id: ColumnId)
    requires
        scan(config, blocks) is Ok,
    ensures
        fields_of_column(scan(config, blocks)->Ok_0.finished_hashes(), column_id) == Set::new(
            |f: FieldId|
                column_of(f) == column_id && exists|i: int|
                    0 <= i < blocks.len() && has_data(config, #[trigger] blocks[i]) && field_of(
                        blocks[i],
                    ) == f,
        ).len(),
{
    let state = scan(config, blocks)->Ok_0;
    let finished = state.finished_hashes();
    law_scan_inv(config, blocks);
    law_finished_fields(config, state);
    law_finished_not_empty(config, blocks);
    lemma_entry_fields(finished, column_id);
    let fields = Set::new(
        |f: FieldId|
            column_of(f) == column_id && exists|i: int|
                0 <= i < blocks.len() && has_data(config, #[trigger] blocks[i]) && field_of(
                    blocks[i],
                ) == f,
    );
    assert forall|f: FieldId| fields.contains(f) == entry_fields(finished, column_id).contains(
        f,
    ) by {
        law_fields_with_entries(config, blocks, f);
    }
    assert(fields =~= entry_fields(finished, column_id));
}

/// The blocks of a family can be read wherever the time range of each of them fits.
pub proof fn law_family_fits(
    found: Option<TseriesFamilyId>,
    tables: Result<Vec<TableSchema>, SchemaError>,
    db_schema: Result<DatabaseSchema, SchemaError>,
    blocks: Seq<NextBlock>,
)
    requires
        forall|i: int, config: ScanConfig|
            0 <= i < blocks.len() && found == Some(config.ts_family_id) && db_schema is Ok
                && config.time_range_nanosec == default_time_range(db_schema->Ok_0)
                ==> #[trigger] block_fits(config, blocks[i]),
    ensures
        family_fits(found, tables, db_schema, blocks),
{
}

} // verus!
