//! The hash tree of a time series family, from what the storage says of it.
use crate::error::{Error, ErrorView, SchemaError};
use crate::family_laws::{config_of, is_complete, law_family_holds_column, law_family_tables};
use crate::node::{TableHashTreeNode, TableNodeView};
use crate::scan::{
    blocks_fit, entry_views, law_finished_fields, law_scan_inv, read_from_compact_iterator, scan,
    FieldEntry, HashScan, NextBlock, ScanConfig, ScanView,
};
use crate::schema::{
    names_of_tables, ColumnId, ColumnNameView, ColumnNames, TableSchema, TseriesFamilyId,
};
use crate::text::{decimal, push_decimal_u64};
use crate::time::{default_time_range, get_default_time_range, DatabaseSchema};
use crate::tree::{build_hash_tree, table_views, tables_differ, TreeView};
use crate::tree_laws::{column_node, has_column, total_columns};
use vstd::prelude::*;

verus! {

/// The error for a time series family that does not exist.
pub open spec fn not_found(ts_family_id: TseriesFamilyId) -> ErrorView {
    ErrorView::InvalidParam {
        reason: "can not find ts_family '"@ + decimal(ts_family_id as int) + "'"@,
    }
}

/// The time series family that a look-up gave, or an error where it gave none.
pub fn require_ts_family<T>(
    ts_family: Option<T>,
    ts_family_id: TseriesFamilyId,
) -> (res: Result<T, Error>)
    ensures
        match ts_family {
            Some(family) => res == Ok::<T, Error>(family),
            None => res matches Err(e) && e@ == not_found(ts_family_id),
        },
{
    match ts_family {
        Some(family) => Ok(family),
        None => {
            let mut reason = "can not find ts_family '".to_owned();
            push_decimal_u64(&mut reason, ts_family_id as u64);
            reason.append("'");
            Err(Error::InvalidParam { reason })
        },
    }
}

/// The tables of the tree that the end of a reading gives.
pub open spec fn finished_tree(
    names: Map<ColumnId, ColumnNameView>,
    state: ScanView,
) -> Seq<TableNodeView> {
    TreeView::initial(names, state.counts).add_fields(state.finished_hashes()).tables
}

/// The hash tree that some names and blocks give, or the first error among the blocks.
pub open spec fn tree_of_blocks(
    ts_family_id: TseriesFamilyId,
    time_range_nanosec: i64,
    names: Map<ColumnId, ColumnNameView>,
    blocks: Seq<NextBlock>,
) -> Result<Seq<TableNodeView>, ErrorView> {
    let config = ScanConfig { ts_family_id, time_range_nanosec, columns: names.dom() };
    match scan(config, blocks) {
        Ok(state) => Ok(finished_tree(names, state)),
        Err(e) => Err(e),
    }
}

/// The hash tree of a time series family: `found` is the id of the family that the look-up of
/// `ts_family_id` gave, `tables` what the listing of the tables and the look-ups of their schemas
/// gave, `db_schema` what the look-up of the database schema gave. The first of these that failed
/// decides the error.
pub open spec fn family_hash_tree(
    found: Option<TseriesFamilyId>,
    ts_family_id: TseriesFamilyId,
    tables: Result<Vec<TableSchema>, SchemaError>,
    db_schema: Result<DatabaseSchema, SchemaError>,
    blocks: Seq<NextBlock>,
) -> Result<Seq<TableNodeView>, ErrorView> {
    match found {
        None => Err(not_found(ts_family_id)),
        Some(id) => match tables {
            Err(e) => Err(ErrorView::Schema { reason: e.reason@ }),
            Ok(tables) => match names_of_tables(tables@) {
                Err(e) => Err(e),
                Ok(names) => match db_schema {
                    Err(e) => Err(ErrorView::Schema { reason: e.reason@ }),
                    Ok(schema) => tree_of_blocks(id, default_time_range(schema), names, blocks),
                },
            },
        },
    }
}

/// Whether the blocks, if they are read at all, have time ranges that fit in 64 bits.
pub open spec fn family_fits(
    found: Option<TseriesFamilyId>,
    tables: Result<Vec<TableSchema>, SchemaError>,
    db_schema: Result<DatabaseSchema, SchemaError>,
    blocks: Seq<NextBlock>,
) -> bool {
    match (found, tables, db_schema) {
        (Some(ts_family_id), Ok(tables), Ok(schema)) => match names_of_tables(tables@) {
            Ok(names) => blocks_fit(
                ScanConfig {
                    ts_family_id,
                    time_range_nanosec: default_time_range(schema),
                    columns: names.dom(),
                },
                blocks,
            ),
            Err(_) => true,
        },
        _ => true,
    }
}

/// The fields that a reading gives are ready to be put together: a block was counted for the
/// column of each.
proof fn lemma_ready(
    config: ScanConfig,
    state: ScanView,
    names: Map<ColumnId, ColumnNameView>,
    entries: Seq<FieldEntry>,
)
    requires
        state.inv(config),
        entry_views(entries) == state.finished_hashes(),
    ensures
        forall|i: int|
            0 <= i < entries.len() ==> TreeView::initial(names, state.counts).ready(
                (#[trigger] entries[i])@,
            ),
{
    law_finished_fields(config, state);
    assert forall|i: int| 0 <= i < entries.len() implies TreeView::initial(
        names,
        state.counts,
    ).ready((#[trigger] entries[i])@) by {
        assert(state.finished_hashes()[i] == entries[i]@);
        assert(state.finished_hashes()[i].field_id == state.hashes[i].field_id);
    }
}

/// Ends the reading of a family and puts its hash tree together. The columns of `names` are those
/// that were read.
pub fn finish_hash_tree(state: HashScan, names: ColumnNames) -> (tables: Vec<TableHashTreeNode>)
    requires
        state.wf(),
        state@.inv(state.config(names@.dom())),
    ensures
        table_views(tables@) == finished_tree(names@, state@),
{
    let ghost view = state@;
    let ghost config = state.config(names@.dom());
    let (hashes, counts) = state.finish();
    let entries = hashes.entries();
    proof {
        lemma_ready(config, view, names@, entries@);
    }
    build_hash_tree(entries, counts, names)
}

/// Computes the hash tree of a time series family.
pub fn get_ts_family_hash_tree(
    found: Option<TseriesFamilyId>,
    ts_family_id: TseriesFamilyId,
    tables: Result<Vec<TableSchema>, SchemaError>,
    db_schema: Result<DatabaseSchema, SchemaError>,
    blocks: &Vec<NextBlock>,
) -> (res: Result<Vec<TableHashTreeNode>, Error>)
    requires
        family_fits(found, tables, db_schema, blocks@),
    ensures
        match res {
            Ok(nodes) => family_hash_tree(found, ts_family_id, tables, db_schema, blocks@) == Ok::<
                Seq<TableNodeView>,
                ErrorView,
            >(table_views(nodes@)),
            Err(e) => family_hash_tree(found, ts_family_id, tables, db_schema, blocks@) == Err::<
                Seq<TableNodeView>,
                ErrorView,
            >(e@),
        },
        res matches Ok(nodes) ==> {
            let names = names_of_tables(tables->Ok_0@)->Ok_0;
            let config = config_of(found->0, default_time_range(db_schema->Ok_0), names);
            let finished = scan(config, blocks@)->Ok_0.finished_hashes();
            &&& found is Some && tables is Ok && db_schema is Ok
            &&& forall|c: ColumnId| #[trigger]
                names.contains_key(c) && is_complete(config, blocks@, c) ==> has_column(
                    table_views(nodes@),
                    names[c].table,
                    column_node(names[c], finished, c),
                )
            &&& tables_differ(table_views(nodes@))
            &&& total_columns(table_views(nodes@)) == names.dom().filter(
                |c: ColumnId| is_complete(config, blocks@, c),
            ).len()
        },
{
    proof {
        if family_hash_tree(found, ts_family_id, tables, db_schema, blocks@) is Ok {
            let names = names_of_tables(tables->Ok_0@)->Ok_0;
            assert forall|c: ColumnId| #[trigger] names.contains_key(c) implies {
                let config = config_of(found->0, default_time_range(db_schema->Ok_0), names);
                is_complete(config, blocks@, c) ==> has_column(
                    family_hash_tree(found, ts_family_id, tables, db_schema, blocks@)->Ok_0,
                    names[c].table,
                    column_node(names[c], scan(config, blocks@)->Ok_0.finished_hashes(), c),
                )
            } by {
                law_family_holds_column(found, ts_family_id, tables, db_schema, blocks@, c);
            }
            law_family_tables(found, ts_family_id, tables, db_schema, blocks@);
        }
    }
    let id: TseriesFamilyId = match require_ts_family(found, ts_family_id) {
        Ok(id) => id,
        Err(e) => return Err(e),
    };
    let tables = match tables {
        Ok(tables) => tables,
        Err(source) => return Err(Error::Schema { source }),
    };
    let names = match ColumnNames::from_tables(&tables) {
        Ok(names) => names,
        Err(e) => return Err(e),
    };
    let time_range_nanosec: i64 = match get_default_time_range(db_schema) {
        Ok(nanos) => nanos,
        Err(e) => return Err(e),
    };
    let ghost config = ScanConfig { ts_family_id: id, time_range_nanosec, columns: names@.dom() };
    match read_from_compact_iterator(blocks, id, time_range_nanosec, &names) {
        Ok((hashes, counts)) => {
            let entries = hashes.entries();
            proof {
                law_scan_inv(config, blocks@);
                lemma_ready(config, scan(config, blocks@)->Ok_0, names@, entries@);
            }
            Ok(build_hash_tree(entries, counts, names))
        },
        Err(e) => Err(e),
    }
}

} // verus!
