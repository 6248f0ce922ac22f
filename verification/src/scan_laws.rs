//! What holds of every reading of a time series family.
use crate::block::{hash_limit, partial_bytes, DataBlock};
use crate::error::ErrorView;
use crate::scan::{
    blocks_of_column, digest, has_field, law_counts, law_scan_inv, scan, with_field, with_hash,
    CompactingBlock, FieldEntryView, NextBlock, RangeHash, ScanConfig, ScanView,
};
use crate::schema::{column_of, ColumnId, FieldId};
use crate::time::{block_partial_time_range, TimeRange, Timestamp};
use crate::tree_laws::fields_of_column;
use vstd::prelude::*;

verus! {

/// Whether what comes next changes nothing: it is a block that was not decoded, or one of a column
/// that is not hashed.
pub open spec fn is_ignored(config: ScanConfig, next: NextBlock) -> bool {
    match next {
        Ok(CompactingBlock::DataBlock { field_id, .. }) => !config.columns.contains(
            column_of(field_id),
        ),
        Ok(CompactingBlock::Raw) => true,
        Err(_) => false,
    }
}

/// A block that was not decoded, or whose column is not hashed, can be left out wherever it comes.
pub proof fn law_ignored_block(
    config: ScanConfig,
    before: Seq<NextBlock>,
    ignored: NextBlock,
    after: Seq<NextBlock>,
)
    requires
        is_ignored(config, ignored),
    ensures
        scan(config, before.push(ignored) + after) == scan(config, before + after),
    decreases after.len(),
{
    if after.len() == 0 {
        assert(before.push(ignored) + after =~= before.push(ignored));
        assert(before + after =~= before);
        assert(before.push(ignored).drop_last() =~= before);
    } else {
        let with = before.push(ignored) + after;
        let without = before + after;
        assert(with.drop_last() =~= before.push(ignored) + after.drop_last());
        assert(without.drop_last() =~= before + after.drop_last());
        assert(with.last() == after.last());
        assert(without.last() == after.last());
        law_ignored_block(config, before, ignored, after.drop_last());
    }
}

/// Whether only the field whose bytes are not stored yet can have no hash.
spec fn only_last_empty(state: ScanView) -> bool {
    forall|i: int|
        0 <= i < state.hashes.len() && (#[trigger] state.hashes[i]).hashes.len() == 0
            ==> (state.last matches Some((_, f)) && f == state.hashes[i].field_id)
}

/// Every field but the one whose bytes are not stored yet has a hash.
proof fn lemma_only_last_empty(config: ScanConfig, blocks: Seq<NextBlock>)
    requires
        scan(config, blocks) is Ok,
    ensures
        only_last_empty(scan(config, blocks)->Ok_0),
    decreases blocks.len(),
{
    if blocks.len() > 0 {
        let init = blocks.drop_last();
        lemma_only_last_empty(config, init);
        let before = scan(config, init)->Ok_0;
        let after = scan(config, blocks)->Ok_0;
        if let Ok(CompactingBlock::DataBlock { field_id, data_block }) = blocks.last() {
            let column_id = column_of(field_id);
            if config.columns.contains(column_id) {
                let stored = before.count(column_id).store_other(field_id);
                assert forall|i: int|
                    0 <= i < stored.hashes.len() && (
                    #[trigger] stored.hashes[i]).hashes.len() == 0 implies stored.hashes[i].field_id
                    == field_id && (stored.last matches Some((_, f)) && f == field_id) by {
                    if let Some((_, last_field)) = before.last {
                        law_scan_inv(config, init);
                        assert(has_field(before.hashes, last_field));
                        assert(before.hashes[i].field_id == stored.hashes[i].field_id);
                    }
                }
                assert forall|i: int|
                    0 <= i < after.hashes.len() && (#[trigger] after.hashes[i]).hashes.len()
                        == 0 implies (after.last matches Some((_, f)) && f
                    == after.hashes[i].field_id) by {
                    let added = with_field(stored.hashes, field_id);
                    if data_block.span() is Some {
                        assert(has_field(added, field_id)) by {
                            if !has_field(stored.hashes, field_id) {
                                assert(added[stored.hashes.len() as int].field_id == field_id);
                            }
                        }
                        assert(added[i].field_id == after.hashes[i].field_id);
                        if i < stored.hashes.len() {
                            assert(added[i] == stored.hashes[i]);
                        }
                    }
                }
            }
        }
    }
}

/// Every field that has an entry at the end of the reading has a hash.
pub proof fn law_finished_not_empty(config: ScanConfig, blocks: Seq<NextBlock>)
    requires
        scan(config, blocks) is Ok,
    ensures
        ({
            let finished = scan(config, blocks)->Ok_0.finished_hashes();
            forall|i: int| 0 <= i < finished.len() ==> (#[trigger] finished[i]).hashes.len() > 0
        }),
{
    lemma_only_last_empty(config, blocks);
    law_scan_inv(config, blocks);
    let state = scan(config, blocks)->Ok_0;
    let finished = state.finished_hashes();
    assert forall|i: int| 0 <= i < finished.len() implies (#[trigger] finished[i]).hashes.len()
        > 0 by {
        assert(finished[i].field_id == state.hashes[i].field_id);
    }
}

/// The number of fields of a column that have an entry.
pub open spec fn entries_of_column(entries: Seq<FieldEntryView>, column_id: ColumnId) -> nat
    decreases entries.len(),
{
    if entries.len() == 0 {
        0
    } else if column_of(entries.last().field_id) == column_id {
        entries_of_column(entries.drop_last(), column_id) + 1
    } else {
        entries_of_column(entries.drop_last(), column_id)
    }
}

/// Entries of the same fields give the same numbers.
proof fn lemma_same_fields(a: Seq<FieldEntryView>, b: Seq<FieldEntryView>, column_id: ColumnId)
    requires
        a.len() == b.len(),
        forall|i: int| 0 <= i < a.len() ==> (#[trigger] a[i]).field_id == b[i].field_id,
    ensures
        entries_of_column(a, column_id) == entries_of_column(b, column_id),
    decreases a.len(),
{
    if a.len() > 0 {
        assert(a[a.len() - 1].field_id == b[b.len() - 1].field_id);
        assert forall|i: int| 0 <= i < a.len() - 1 implies (#[trigger] a.drop_last()[i]).field_id
            == b.drop_last()[i].field_id by {
            assert(a[i].field_id == b[i].field_id);
        }
        lemma_same_fields(a.drop_last(), b.drop_last(), column_id);
    }
}

/// A field without hashes counts as an entry only.
proof fn lemma_fields_and_entries(entries: Seq<FieldEntryView>, column_id: ColumnId)
    ensures
        fields_of_column(entries, column_id) <= entries_of_column(entries, column_id),
        (forall|i: int| 0 <= i < entries.len() ==> (#[trigger] entries[i]).hashes.len() > 0)
            ==> fields_of_column(entries, column_id) == entries_of_column(entries, column_id),
    decreases entries.len(),
{
    if entries.len() > 0 {
        lemma_fields_and_entries(entries.drop_last(), column_id);
        if forall|i: int| 0 <= i < entries.len() ==> (#[trigger] entries[i]).hashes.len() > 0 {
            assert(entries[entries.len() - 1].hashes.len() > 0);
            assert forall|i: int| 0 <= i < entries.drop_last().len() implies (
            #[trigger] entries.drop_last()[i]).hashes.len() > 0 by {
                assert(entries[i].hashes.len() > 0);
            }
        }
    }
}

/// The number of entries that a field gets.
proof fn lemma_entries_with_field(
    entries: Seq<FieldEntryView>,
    field_id: FieldId,
    hash: RangeHash,
    column_id: ColumnId,
)
    ensures
        entries_of_column(with_hash(entries, field_id, hash), column_id) == entries_of_column(
            with_field(entries, field_id),
            column_id,
        ),
        has_field(entries, field_id) ==> entries_of_column(with_field(entries, field_id), column_id)
            == entries_of_column(entries, column_id),
        entries_of_column(with_field(entries, field_id), column_id) <= entries_of_column(
            entries,
            column_id,
        ) + (if column_of(field_id) == column_id {
            1nat
        } else {
            0nat
        }),
{
    let added = with_field(entries, field_id);
    lemma_same_fields(with_hash(entries, field_id, hash), added, column_id);
    if !has_field(entries, field_id) {
        assert(added.drop_last() =~= entries);
    }
}

/// No column has more entries than blocks were counted for it.
proof fn lemma_entries_at_most_counts(
    config: ScanConfig,
    blocks: Seq<NextBlock>,
    column_id: ColumnId,
)
    requires
        scan(config, blocks) is Ok,
    ensures
        ({
            let state = scan(config, blocks)->Ok_0;
            entries_of_column(state.hashes, column_id) <= if state.counts.contains_key(column_id) {
                state.counts[column_id]
            } else {
                0
            }
        }),
    decreases blocks.len(),
{
    if blocks.len() > 0 {
        let init = blocks.drop_last();
        lemma_entries_at_most_counts(config, init, column_id);
        law_scan_inv(config, init);
        let before = scan(config, init)->Ok_0;
        if let Ok(CompactingBlock::DataBlock { field_id, data_block }) = blocks.last() {
            if config.columns.contains(column_of(field_id)) {
                let counted = before.count(column_of(field_id));
                let stored = counted.store_other(field_id);
                if let Some((range, last_field)) = before.last {
                    let hash = (range, digest(before.pending));
                    lemma_entries_with_field(before.hashes, last_field, hash, column_id);
                }
                assert(entries_of_column(stored.hashes, column_id) == entries_of_column(
                    before.hashes,
                    column_id,
                ));
                if let Some((first, _)) = data_block.span() {
                    let nanos = config.time_range_nanosec;
                    let (min_ts, max_ts) = block_partial_time_range(first, nanos, nanos)->Ok_0;
                    let range = TimeRange { min_ts: min_ts as i64, max_ts: max_ts as i64 };
                    let head = stored.pending + partial_bytes(data_block, 0, range.max_ts);
                    let hash = (range, digest(head));
                    let added = with_field(stored.hashes, field_id);
                    lemma_entries_with_field(stored.hashes, field_id, hash, column_id);
                    lemma_entries_with_field(added, field_id, hash, column_id);
                    assert(has_field(added, field_id)) by {
                        if !has_field(stored.hashes, field_id) {
                            assert(added[stored.hashes.len() as int].field_id == field_id);
                        }
                    }
                }
            }
        }
    }
}

/// No column has more fields with hashes at the end of the reading than blocks came for it.
pub proof fn law_fields_at_most_blocks(
    config: ScanConfig,
    blocks: Seq<NextBlock>,
    column_id: ColumnId,
)
    requires
        scan(config, blocks) is Ok,
    ensures
        ({
            let state = scan(config, blocks)->Ok_0;
            fields_of_column(state.finished_hashes(), column_id)
                <= blocks_of_column(config, blocks, column_id)
        }),
{
    let state = scan(config, blocks)->Ok_0;
    lemma_entries_at_most_counts(config, blocks, column_id);
    law_counts(config, blocks, column_id);
    law_scan_inv(config, blocks);
    lemma_fields_and_entries(state.finished_hashes(), column_id);
    if let Some((range, field_id)) = state.last {
        let hash = (range, digest(state.pending));
        lemma_entries_with_field(state.hashes, field_id, hash, column_id);
    }
}

/// The hashes that a block gives its field where it is the only one: one for each of the two parts
/// of a block that reaches beyond the time range it starts in, else one for the whole block.
pub open spec fn block_hashes(block: DataBlock, nanos: i64) -> Seq<RangeHash> {
    let (first, last) = block.span()->0;
    let (min_ts, max_ts) = block_partial_time_range(first, nanos, nanos)->Ok_0;
    let range = TimeRange { min_ts: min_ts as i64, max_ts: max_ts as i64 };
    if last > max_ts {
        let limit = hash_limit(block, 0, range.max_ts);
        seq![
            (range, digest(partial_bytes(block, 0, range.max_ts))),
            (
                TimeRange { min_ts: range.max_ts, max_ts: last },
                digest(partial_bytes(block, limit, Timestamp::MIN)),
            ),
        ]
    } else {
        seq![(range, digest(partial_bytes(block, 0, Timestamp::MIN)))]
    }
}

/// Whether what comes next is a block with values, of a column that is hashed, that starts in some
/// time range.
pub open spec fn is_hashed(config: ScanConfig, next: NextBlock) -> bool {
    match next {
        Ok(CompactingBlock::DataBlock { field_id, data_block }) => {
            &&& config.columns.contains(column_of(field_id))
            &&& data_block.span() matches Some((first, _)) && block_partial_time_range(
                first,
                config.time_range_nanosec,
                config.time_range_nanosec,
            ) is Ok
        },
        _ => false,
    }
}

/// The field of a block and the hashes that the block gives it where it is the only one.
pub open spec fn block_entry(config: ScanConfig, next: NextBlock) -> FieldEntryView {
    match next {
        Ok(CompactingBlock::DataBlock { field_id, data_block }) => FieldEntryView {
            field_id,
            hashes: block_hashes(data_block, config.time_range_nanosec),
        },
        _ => FieldEntryView { field_id: 0, hashes: Seq::empty() },
    }
}

/// The fields of some blocks with the hashes that each block gives.
pub open spec fn block_entries(config: ScanConfig, blocks: Seq<NextBlock>) -> Seq<FieldEntryView> {
    blocks.map_values(|next: NextBlock| block_entry(config, next))
}

/// Whether all the blocks are hashed and no two are of the same field.
pub open spec fn one_block_each(config: ScanConfig, blocks: Seq<NextBlock>) -> bool {
    &&& forall|i: int| 0 <= i < blocks.len() ==> is_hashed(config, #[trigger] blocks[i])
    &&& forall|i: int, j: int|
        0 <= i < j < blocks.len() ==> block_entry(config, #[trigger] blocks[i]).field_id
            != block_entry(config, #[trigger] blocks[j]).field_id
}

/// Whether a state is that after some blocks of different fields: only the last hash of the last
/// field is not stored yet.
spec fn awaits_last(state: ScanView, entries: Seq<FieldEntryView>) -> bool {
    let last = entries.last();
    &&& entries.len() > 0
    &&& last.hashes.len() > 0
    &&& state.hashes == entries.drop_last().push(
        FieldEntryView { field_id: last.field_id, hashes: last.hashes.drop_last() },
    )
    &&& state.last == Some((last.hashes.last().0, last.field_id))
    &&& digest(state.pending) == last.hashes.last().1
}

/// What is stored at the end of such a state are all the hashes.
proof fn lemma_awaits_last_finished(state: ScanView, entries: Seq<FieldEntryView>)
    requires
        awaits_last(state, entries),
        forall|i: int, j: int|
            0 <= i < j < entries.len() ==> (#[trigger] entries[i]).field_id != (
            #[trigger] entries[j]).field_id,
    ensures
        state.finished_hashes() == entries,
{
    let n = entries.len() - 1;
    let last = entries.last();
    assert(state.hashes[n].field_id == last.field_id);
    assert(has_field(state.hashes, last.field_id));
    assert(last.hashes.drop_last().push(last.hashes.last()) =~= last.hashes);
    assert(state.finished_hashes() =~= entries);
}

/// Where no two blocks are of the same field, this holds without the last block too.
pub(crate) proof fn lemma_init_one_block_each(config: ScanConfig, blocks: Seq<NextBlock>)
    requires
        one_block_each(config, blocks),
        blocks.len() > 0,
    ensures
        one_block_each(config, blocks.drop_last()),
{
    let init = blocks.drop_last();
    assert forall|i: int| 0 <= i < init.len() implies is_hashed(config, #[trigger] init[i]) by {
        assert(is_hashed(config, blocks[i]));
    }
    assert forall|i: int, j: int| 0 <= i < j < init.len() implies block_entry(
        config,
        #[trigger] init[i],
    ).field_id != block_entry(config, #[trigger] init[j]).field_id by {
        assert(block_entry(config, blocks[i]).field_id != block_entry(config, blocks[j]).field_id);
    }
}

/// After some blocks of different fields only the last hash of the last field is not stored yet.
proof fn lemma_one_block_each(config: ScanConfig, blocks: Seq<NextBlock>)
    requires
        one_block_each(config, blocks),
    ensures
        scan(config, blocks) is Ok,
        blocks.len() > 0 ==> awaits_last(
            scan(config, blocks)->Ok_0,
            block_entries(config, blocks),
        ),
    decreases blocks.len(),
{
    if blocks.len() > 0 {
        let init = blocks.drop_last();
        let entries = block_entries(config, blocks);
        assert(is_hashed(config, blocks[blocks.len() - 1]));
        lemma_init_one_block_each(config, blocks);
        lemma_one_block_each(config, init);
        let before = scan(config, init)->Ok_0;
        let earlier = block_entries(config, init);
        assert(entries.drop_last() =~= earlier);
        let next = blocks.last();
        if let Ok(CompactingBlock::DataBlock { field_id, data_block }) = next {
            let stored = before.count(column_of(field_id)).store_other(field_id);
            if init.len() > 0 {
                assert forall|i: int, j: int| 0 <= i < j < earlier.len() implies (
                #[trigger] earlier[i]).field_id != (#[trigger] earlier[j]).field_id by {
                    assert(block_entry(config, init[i]).field_id != block_entry(
                        config,
                        init[j],
                    ).field_id);
                }
                lemma_awaits_last_finished(before, earlier);
                assert(block_entry(config, blocks[blocks.len() - 2]).field_id != block_entry(
                    config,
                    blocks[blocks.len() - 1],
                ).field_id);
                assert(earlier.last() == block_entry(config, blocks[blocks.len() - 2]));
            }
            assert(stored.hashes =~= earlier);
            assert(stored.pending =~= Seq::empty());
            assert(!has_field(stored.hashes, field_id)) by {
                if has_field(stored.hashes, field_id) {
                    let i = choose|i: int|
                        0 <= i < earlier.len() && #[trigger] earlier[i].field_id == field_id;
                    assert(block_entry(config, blocks[i]).field_id != block_entry(
                        config,
                        blocks[blocks.len() - 1],
                    ).field_id);
                }
            }
            let after = scan(config, blocks)->Ok_0;
            let (first, last) = data_block.span()->0;
            let nanos = config.time_range_nanosec;
            let (min_ts, max_ts) = block_partial_time_range(first, nanos, nanos)->Ok_0;
            let range = TimeRange { min_ts: min_ts as i64, max_ts: max_ts as i64 };
            let added = with_field(stored.hashes, field_id);
            assert(added[earlier.len() as int].field_id == field_id);
            let hashes = block_hashes(data_block, nanos);
            assert(entries.last() == FieldEntryView { field_id, hashes });
            if last > max_ts {
                let head = partial_bytes(data_block, 0, range.max_ts);
                assert(stored.pending + head =~= head);
                assert(has_field(added, field_id));
                assert(hashes.drop_last() =~= Seq::<RangeHash>::empty().push(
                    (range, digest(head)),
                ));
                assert forall|i: int| 0 <= i < earlier.len() implies (
                #[trigger] earlier[i]).field_id != field_id by {
                    assert(stored.hashes[i].field_id != field_id);
                }
                assert(after.hashes =~= earlier.push(
                    FieldEntryView { field_id, hashes: hashes.drop_last() },
                ));
            } else {
                let whole = partial_bytes(data_block, 0, Timestamp::MIN);
                assert(stored.pending + whole =~= whole);
                assert(hashes.drop_last() =~= Seq::empty());
            }
        }
    }
}

/// Where every field has one block, with values, the reading succeeds and gives each field the
/// hashes of its block, whatever the other blocks are.
pub proof fn law_one_block_each(config: ScanConfig, blocks: Seq<NextBlock>)
    requires
        one_block_each(config, blocks),
    ensures
        scan(config, blocks) matches Ok(state) && state.finished_hashes() == block_entries(
            config,
            blocks,
        ),
{
    lemma_one_block_each(config, blocks);
    let entries = block_entries(config, blocks);
    if blocks.len() > 0 {
        assert forall|i: int, j: int| 0 <= i < j < entries.len() implies (
        #[trigger] entries[i]).field_id != (#[trigger] entries[j]).field_id by {
            assert(block_entry(config, blocks[i]).field_id != block_entry(
                config,
                blocks[j],
            ).field_id);
        }
        lemma_awaits_last_finished(scan(config, blocks)->Ok_0, entries);
    } else {
        assert(entries =~= Seq::empty());
    }
}

/// Whether what comes next is a block of the field, of a column that is hashed, whose values all
/// lie in the time range.
pub open spec fn in_range(
    config: ScanConfig,
    next: NextBlock,
    field: FieldId,
    range: TimeRange,
) -> bool {
    match next {
        Ok(CompactingBlock::DataBlock { field_id, data_block }) => {
            &&& field_id == field
            &&& config.columns.contains(column_of(field))
            &&& data_block.wf()
            &&& data_block.span() matches Some((first, last)) && last <= range.max_ts
                && block_partial_time_range(
                first,
                config.time_range_nanosec,
                config.time_range_nanosec,
            ) == Ok::<(int, int), ErrorView>(
                (range.min_ts as int, range.max_ts as int),
            )
        },
        _ => false,
    }
}

/// The bytes of all the values of some blocks, one block after the other.
pub open spec fn all_bytes(blocks: Seq<NextBlock>) -> Seq<u8>
    decreases blocks.len(),
{
    if blocks.len() == 0 {
        Seq::empty()
    } else {
        match blocks.last() {
            Ok(CompactingBlock::DataBlock { data_block, .. }) => all_bytes(blocks.drop_last())
                + data_block.bytes(0, data_block.num_values() as int),
            _ => all_bytes(blocks.drop_last()),
        }
    }
}

/// Blocks of one field within one time range are fed to the hasher one after the other.
proof fn lemma_one_range(
    config: ScanConfig,
    blocks: Seq<NextBlock>,
    field: FieldId,
    range: TimeRange,
)
    requires
        forall|i: int|
            0 <= i < blocks.len() ==> in_range(config, #[trigger] blocks[i], field, range),
    ensures
        scan(config, blocks) is Ok,
        blocks.len() == 0 ==> scan(config, blocks)->Ok_0 == ScanView::initial(),
        blocks.len() > 0 ==> {
            let state = scan(config, blocks)->Ok_0;
            &&& state.hashes == seq![FieldEntryView { field_id: field, hashes: Seq::empty() }]
            &&& state.last == Some((range, field))
            &&& state.pending == all_bytes(blocks)
        },
    decreases blocks.len(),
{
    if blocks.len() > 0 {
        let init = blocks.drop_last();
        assert(in_range(config, blocks[blocks.len() - 1], field, range));
        assert forall|i: int| 0 <= i < init.len() implies in_range(
            config,
            #[trigger] init[i],
            field,
            range,
        ) by {
            assert(in_range(config, blocks[i], field, range));
        }
        lemma_one_range(config, init, field, range);
        let before = scan(config, init)->Ok_0;
        let after = scan(config, blocks)->Ok_0;
        if let Ok(CompactingBlock::DataBlock { field_id, data_block }) = blocks.last() {
            let ts = data_block.timestamps();
            assert(ts.skip(0) =~= ts);
            assert(partial_bytes(data_block, 0, Timestamp::MIN) == data_block.bytes(
                0,
                data_block.num_values() as int,
            ));
            if init.len() > 0 {
                assert(before.hashes[0].field_id == field);
                assert(has_field(before.hashes, field));
            } else {
                assert(!has_field(before.hashes, field));
            }
            assert(after.hashes =~= seq![FieldEntryView { field_id: field, hashes: Seq::empty() }]);
            assert(before.pending =~= all_bytes(init));
            let stored = before.count(column_of(field_id)).store_other(field_id);
            assert(stored.pending == before.pending);
            let whole = data_block.bytes(0, data_block.num_values() as int);
            assert(after.pending == stored.pending + whole);
            assert(all_bytes(blocks) == all_bytes(init) + whole);
        }
    }
}

/// How the values of a field within a time range are cut into blocks does not matter: the reading
/// gives the range the hash of all the values, one after the other.
pub proof fn law_blocks_join(
    config: ScanConfig,
    blocks: Seq<NextBlock>,
    field: FieldId,
    range: TimeRange,
)
    requires
        blocks.len() > 0,
        forall|i: int|
            0 <= i < blocks.len() ==> in_range(config, #[trigger] blocks[i], field, range),
    ensures
        scan(config, blocks) matches Ok(state) && state.finished_hashes() == seq![
            FieldEntryView { field_id: field, hashes: seq![(range, digest(all_bytes(blocks)))] },
        ],
{
    lemma_one_range(config, blocks, field, range);
    let state = scan(config, blocks)->Ok_0;
    assert(state.hashes[0].field_id == field);
    assert(has_field(state.hashes, field));
    let hash = (range, digest(all_bytes(blocks)));
    assert(Seq::<RangeHash>::empty().push(hash) =~= seq![hash]);
    assert(state.finished_hashes() =~= seq![
        FieldEntryView { field_id: field, hashes: seq![hash] },
    ]);
}

} // verus!
