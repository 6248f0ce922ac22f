//! What holds of the blocks of one field that come in a row, and of rows that follow each other.
use crate::block::{
    hash_limit, law_bytes_split, law_hash_limit, law_partial_hashes_cover, partial_bytes, DataBlock,
};
use crate::error::ErrorView;
use crate::hasher::blake3_digest;
use crate::scan::{
    block_fits, blocks_fit, blocks_of_column, digest, fields_differ, has_field, law_finished_fields,
    law_first_error, law_scan_inv, lemma_with_hash, scan, with_field, with_hash, CompactingBlock,
    FieldEntryView, NextBlock, RangeHash, ScanConfig, ScanView,
};
use crate::scan_laws::all_bytes;
use crate::schema::{column_of, ColumnId, FieldId};
use crate::text::decimal;
use crate::time::{
    block_partial_time_range, law_range_exact, law_range_holds_timestamp, time_range_fits,
    TimeRange, Timestamp,
};
use vstd::prelude::*;

verus! {

/// Whether what comes next is a block with timestamps, of a column that is hashed.
pub open spec fn has_data(config: ScanConfig, next: NextBlock) -> bool {
    match next {
        Ok(CompactingBlock::DataBlock { field_id, data_block }) => config.columns.contains(
            column_of(field_id),
        ) && data_block.timestamps().len() > 0,
        _ => false,
    }
}

/// The field of a block.
pub open spec fn field_of(next: NextBlock) -> FieldId {
    next->Ok_0->field_id
}

/// The data of a block.
pub open spec fn data_of(next: NextBlock) -> DataBlock {
    next->Ok_0->data_block
}

/// The first timestamp of a block.
pub open spec fn first_of(next: NextBlock) -> Timestamp {
    data_of(next).timestamps()[0]
}

/// The last timestamp of a block.
pub open spec fn last_of(next: NextBlock) -> Timestamp {
    data_of(next).timestamps()[data_of(next).timestamps().len() - 1]
}

/// Whether what comes next ends the reading: it could not be read, or it is a block that is hashed
/// and has no time range.
pub open spec fn fails(config: ScanConfig, next: NextBlock) -> bool {
    ||| next is Err
    ||| has_data(config, next) && (config.time_range_nanosec <= 0 || (first_of(next) < 0
        && first_of(next) as int % 1_000_000_000 != 0))
}

/// A step fails exactly on what ends the reading.
proof fn lemma_step_fails(config: ScanConfig, state: ScanView, next: NextBlock)
    ensures
        state.step(config, next) is Err <==> fails(config, next),
{
    if has_data(config, next) {
        law_range_exact(first_of(next), config.time_range_nanosec, config.time_range_nanosec);
        assert(data_of(next).span() == Some((first_of(next), last_of(next))));
    }
}

/// The reading succeeds exactly where nothing ends it.
pub proof fn law_reading_succeeds(config: ScanConfig, blocks: Seq<NextBlock>)
    ensures
        scan(config, blocks) is Ok <==> forall|i: int|
            0 <= i < blocks.len() ==> !fails(config, #[trigger] blocks[i]),
    decreases blocks.len(),
{
    if blocks.len() > 0 {
        let init = blocks.drop_last();
        law_reading_succeeds(config, init);
        assert(blocks.last() == blocks[blocks.len() - 1]);
        if scan(config, init) is Ok {
            lemma_step_fails(config, scan(config, init)->Ok_0, blocks.last());
            assert forall|i: int| 0 <= i < blocks.len() && scan(config, blocks) is Ok implies !fails(
                config,
                #[trigger] blocks[i],
            ) by {
                if i < init.len() {
                    assert(!fails(config, init[i]));
                }
            }
        } else {
            let i = choose|i: int| 0 <= i < init.len() && fails(config, #[trigger] init[i]);
            assert(fails(config, blocks[i]));
        }
        if forall|i: int| 0 <= i < blocks.len() ==> !fails(config, #[trigger] blocks[i]) {
            assert forall|i: int| 0 <= i < init.len() implies !fails(
                config,
                #[trigger] init[i],
            ) by {
                assert(!fails(config, blocks[i]));
            }
            assert(!fails(config, blocks[blocks.len() - 1]));
        }
    }
}

/// The first thing that ends the reading decides the error: what could not be read is reported
/// with the family and the cause, and a block without a time range as its first timestamp is.
pub proof fn law_reading_fails(config: ScanConfig, blocks: Seq<NextBlock>, n: int)
    requires
        0 <= n < blocks.len(),
        fails(config, blocks[n]),
        forall|i: int| 0 <= i < n ==> !fails(config, #[trigger] blocks[i]),
    ensures
        blocks[n] matches Err(e) ==> scan(config, blocks) == Err::<ScanView, ErrorView>(
            ErrorView::CommonError {
                reason: "error getting hashes for ts_family "@ + decimal(
                    config.ts_family_id as int,
                ) + " when compacting: "@ + e@,
            },
        ),
        blocks[n] is Ok ==> scan(config, blocks) == Err::<ScanView, ErrorView>(
            block_partial_time_range(
                first_of(blocks[n]),
                config.time_range_nanosec,
                config.time_range_nanosec,
            )->Err_0,
        ),
{
    let before = blocks.take(n);
    let upto = blocks.take(n + 1);
    assert forall|i: int| 0 <= i < before.len() implies !fails(config, #[trigger] before[i]) by {
        assert(!fails(config, blocks[i]));
    }
    law_reading_succeeds(config, before);
    assert(upto.drop_last() =~= before);
    assert(upto.last() == blocks[n]);
    lemma_step_fails(config, scan(config, before)->Ok_0, blocks[n]);
    law_first_error(config, blocks, n + 1);
    if blocks[n] is Ok {
        assert(data_of(blocks[n]).span() == Some((first_of(blocks[n]), last_of(blocks[n]))));
    }
}

/// A block that is hashed can be taken exactly where the range of its first timestamp fits; all
/// else can always be taken.
pub proof fn law_block_fits(config: ScanConfig, next: NextBlock)
    ensures
        has_data(config, next) ==> (block_fits(config, next) <==> time_range_fits(
            first_of(next),
            config.time_range_nanosec,
            config.time_range_nanosec,
        )),
        !has_data(config, next) ==> block_fits(config, next),
{
}

/// The number of blocks of a column in two lists, one behind the other, is the sum of the two; a
/// single block counts where it is of the column and the column is hashed.
pub proof fn law_blocks_of_column(
    config: ScanConfig,
    a: Seq<NextBlock>,
    b: Seq<NextBlock>,
    next: NextBlock,
    column_id: ColumnId,
)
    ensures
        blocks_of_column(config, a + b, column_id) == blocks_of_column(config, a, column_id)
            + blocks_of_column(config, b, column_id),
        blocks_of_column(config, seq![next], column_id) == match next {
            Ok(CompactingBlock::DataBlock { field_id, .. }) => if column_of(field_id) == column_id
                && config.columns.contains(column_id) {
                1nat
            } else {
                0nat
            },
            _ => 0nat,
        },
    decreases b.len(),
{
    if b.len() == 0 {
        assert(a + b =~= a);
    } else {
        law_blocks_of_column(config, a, b.drop_last(), next, column_id);
        assert((a + b).drop_last() =~= a + b.drop_last());
        assert((a + b).last() == b.last());
    }
    assert(seq![next].drop_last() =~= Seq::empty());
    reveal_with_fuel(blocks_of_column, 2);
}

/// A field has an entry at the end of the reading exactly where a block with timestamps came for
/// it and its column is hashed.
pub proof fn law_fields_with_entries(config: ScanConfig, blocks: Seq<NextBlock>, field: FieldId)
    requires
        scan(config, blocks) is Ok,
    ensures
        has_field(scan(config, blocks)->Ok_0.finished_hashes(), field) <==> exists|i: int|
            0 <= i < blocks.len() && has_data(config, #[trigger] blocks[i]) && field_of(blocks[i])
                == field,
{
    let state = scan(config, blocks)->Ok_0;
    lemma_fields(config, blocks, field);
    law_scan_inv(config, blocks);
    law_finished_fields(config, state);
    lemma_same_has_field(state.hashes, state.finished_hashes(), field);
}

/// Entries of the same fields have the same fields.
proof fn lemma_same_has_field(a: Seq<FieldEntryView>, b: Seq<FieldEntryView>, field: FieldId)
    requires
        a.len() == b.len(),
        forall|i: int| 0 <= i < a.len() ==> (#[trigger] b[i]).field_id == a[i].field_id,
    ensures
        has_field(a, field) <==> has_field(b, field),
{
    if has_field(a, field) {
        let i = choose|i: int| 0 <= i < a.len() && #[trigger] a[i].field_id == field;
        assert(b[i].field_id == field);
    }
    if has_field(b, field) {
        let i = choose|i: int| 0 <= i < b.len() && #[trigger] b[i].field_id == field;
        assert(a[i].field_id == field);
    }
}

/// Which fields have an entry once one has been added.
proof fn lemma_has_field(
    entries: Seq<FieldEntryView>,
    field_id: FieldId,
    hash: RangeHash,
    other: FieldId,
)
    requires
        fields_differ(entries),
    ensures
        has_field(with_field(entries, field_id), other) <==> has_field(entries, other) || other
            == field_id,
        has_field(with_hash(entries, field_id, hash), other) <==> has_field(entries, other) || other
            == field_id,
{
    let added = with_field(entries, field_id);
    lemma_with_hash(entries, field_id, hash);
    if has_field(entries, other) {
        let i = choose|i: int| 0 <= i < entries.len() && #[trigger] entries[i].field_id == other;
        assert(added[i].field_id == other);
    }
    if has_field(added, other) {
        let i = choose|i: int| 0 <= i < added.len() && #[trigger] added[i].field_id == other;
        if i < entries.len() {
            assert(entries[i].field_id == other);
        }
    }
    lemma_same_has_field(added, with_hash(entries, field_id, hash), other);
}

proof fn lemma_fields(config: ScanConfig, blocks: Seq<NextBlock>, field: FieldId)
    requires
        scan(config, blocks) is Ok,
    ensures
        has_field(scan(config, blocks)->Ok_0.hashes, field) <==> exists|i: int|
            0 <= i < blocks.len() && has_data(config, #[trigger] blocks[i]) && field_of(blocks[i])
                == field,
    decreases blocks.len(),
{
    if blocks.len() > 0 {
        let init = blocks.drop_last();
        let n = blocks.len() - 1;
        let next = blocks.last();
        assert(next == blocks[n]);
        lemma_fields(config, init, field);
        law_scan_inv(config, init);
        let before = scan(config, init)->Ok_0;
        let after = scan(config, blocks)->Ok_0;
        if exists|i: int|
            0 <= i < init.len() && has_data(config, #[trigger] init[i]) && field_of(init[i])
                == field {
            let i = choose|i: int|
                0 <= i < init.len() && has_data(config, #[trigger] init[i]) && field_of(init[i])
                    == field;
            assert(has_data(config, blocks[i]) && field_of(blocks[i]) == field);
        }
        if exists|i: int|
            0 <= i < blocks.len() && has_data(config, #[trigger] blocks[i]) && field_of(blocks[i])
                == field {
            let i = choose|i: int|
                0 <= i < blocks.len() && has_data(config, #[trigger] blocks[i]) && field_of(
                    blocks[i],
                ) == field;
            if i < n {
                assert(has_data(config, init[i]) && field_of(init[i]) == field);
            }
        }
        if let Ok(CompactingBlock::DataBlock { field_id, data_block }) = next {
            if config.columns.contains(column_of(field_id)) {
                let stored = before.count(column_of(field_id)).store_other(field_id);
                if let Some((range, last_field)) = before.last {
                    let hash = (range, digest(before.pending));
                    lemma_has_field(before.hashes, last_field, hash, field);
                    lemma_with_hash(before.hashes, last_field, hash);
                }
                assert(has_field(stored.hashes, field) <==> has_field(before.hashes, field));
                if data_block.timestamps().len() > 0 {
                    let range = block_range(config, next);
                    let head = stored.pending + partial_bytes(data_block, 0, range.max_ts);
                    let hash = (range, digest(head));
                    let added = with_field(stored.hashes, field_id);
                    lemma_block_range(config, next);
                    lemma_has_field(stored.hashes, field_id, hash, field);
                    lemma_with_hash(stored.hashes, field_id, hash);
                    lemma_has_field(added, field_id, hash, field);
                }
            }
        }
    }
}

/// Where the time range that a block starts in starts itself.
pub open spec fn starts_at(config: ScanConfig, next: NextBlock) -> int {
    first_of(next) - first_of(next) as int % config.time_range_nanosec as int
}

/// Where the time range that a block starts in ends.
pub open spec fn ends_at(config: ScanConfig, next: NextBlock) -> int {
    starts_at(config, next) + config.time_range_nanosec
}

/// The time range that a block starts in.
pub open spec fn block_range(config: ScanConfig, next: NextBlock) -> TimeRange {
    TimeRange { min_ts: starts_at(config, next) as i64, max_ts: ends_at(config, next) as i64 }
}

/// Whether a block reaches beyond the time range that it starts in.
pub open spec fn is_cut(config: ScanConfig, next: NextBlock) -> bool {
    last_of(next) > ends_at(config, next)
}

/// The range that the reading gives a block is the one that it starts in.
proof fn lemma_block_range(config: ScanConfig, next: NextBlock)
    requires
        has_data(config, next),
        !fails(config, next),
    ensures
        block_partial_time_range(
            first_of(next),
            config.time_range_nanosec,
            config.time_range_nanosec,
        ) == Ok::<(int, int), ErrorView>((starts_at(config, next), ends_at(config, next))),
        data_of(next).span() == Some((first_of(next), last_of(next))),
{
    law_range_exact(first_of(next), config.time_range_nanosec, config.time_range_nanosec);
}

/// Whether what comes next is a block of the field that is hashed, whose time range fits in 64 bits,
/// and which has no more values than timestamps.
pub open spec fn is_of_run(config: ScanConfig, next: NextBlock, field: FieldId) -> bool {
    &&& has_data(config, next)
    &&& !fails(config, next)
    &&& field_of(next) == field
    &&& i64::MIN <= starts_at(config, next)
    &&& ends_at(config, next) <= i64::MAX
    &&& data_of(next).num_values() <= data_of(next).timestamps().len()
}

/// The bytes of the part of a block that is cut off at the end of its time range.
pub open spec fn head_bytes(config: ScanConfig, next: NextBlock) -> Seq<u8> {
    let limit = hash_limit(data_of(next), 0, ends_at(config, next) as i64);
    data_of(next).bytes(
        0,
        if limit < data_of(next).num_values() {
            limit
        } else {
            data_of(next).num_values() as int
        },
    )
}

/// The positions of the blocks that reach beyond their time ranges.
pub open spec fn cuts(config: ScanConfig, blocks: Seq<NextBlock>) -> Seq<int>
    decreases blocks.len(),
{
    if blocks.len() == 0 {
        Seq::empty()
    } else if is_cut(config, blocks.last()) {
        cuts(config, blocks.drop_last()).push(blocks.len() - 1)
    } else {
        cuts(config, blocks.drop_last())
    }
}

/// The cuts are at the blocks that reach beyond their time ranges, at all of them and in their
/// order.
pub proof fn law_cuts(config: ScanConfig, blocks: Seq<NextBlock>)
    ensures
        forall|k: int|
            0 <= k < cuts(config, blocks).len() ==> {
                let i = #[trigger] cuts(config, blocks)[k];
                0 <= i < blocks.len() && is_cut(config, blocks[i])
            },
        forall|k: int, m: int|
            0 <= k < m < cuts(config, blocks).len() ==> (#[trigger] cuts(config, blocks)[k]) < (
            #[trigger] cuts(config, blocks)[m]),
        forall|i: int|
            0 <= i < blocks.len() && is_cut(config, #[trigger] blocks[i]) ==> cuts(
                config,
                blocks,
            ).contains(i),
    decreases blocks.len(),
{
    if blocks.len() > 0 {
        let init = blocks.drop_last();
        let n = blocks.len() - 1;
        let all = cuts(config, blocks);
        let earlier = cuts(config, init);
        law_cuts(config, init);
        assert forall|k: int| 0 <= k < all.len() implies {
            let i = #[trigger] all[k];
            0 <= i < blocks.len() && is_cut(config, blocks[i])
        } by {
            if k < earlier.len() {
                assert(all[k] == earlier[k]);
                assert(init[earlier[k]] == blocks[earlier[k]]);
            }
        }
        assert forall|k: int, m: int| 0 <= k < m < all.len() implies (#[trigger] all[k]) < (
        #[trigger] all[m]) by {
            assert(all[k] == earlier[k]);
            if m < earlier.len() {
                assert(all[m] == earlier[m]);
            }
        }
        assert forall|i: int|
            0 <= i < blocks.len() && is_cut(config, #[trigger] blocks[i]) implies all.contains(
            i,
        ) by {
            if i < n {
                assert(is_cut(config, init[i]));
                let k = choose|k: int| 0 <= k < earlier.len() && earlier[k] == i;
                assert(all[k] == i);
            } else {
                assert(all[all.len() - 1] == i);
            }
        }
    }
}

/// How many bytes come before the cut of a block, among the bytes of all the values of its row.
pub open spec fn cut_position(config: ScanConfig, blocks: Seq<NextBlock>, i: int) -> int {
    (all_bytes(blocks.take(i)).len() + head_bytes(config, blocks[i]).len()) as int
}

/// Where the bytes of a hash start, among the bytes of all the values of a row of blocks: at their
/// start for the first hash, and at the cut before it for any other.
pub open spec fn hash_start(config: ScanConfig, blocks: Seq<NextBlock>, k: int) -> int {
    if k <= 0 {
        0
    } else {
        cut_position(config, blocks, cuts(config, blocks)[k - 1])
    }
}

/// Whether a hash is the one that a cut of a row of blocks ends: it has the range of the block that
/// is cut, and is of the bytes from the cut before it, or the start, to its own.
pub open spec fn is_cut_hash(
    config: ScanConfig,
    blocks: Seq<NextBlock>,
    k: int,
    hash: RangeHash,
) -> bool {
    let from = hash_start(config, blocks, k);
    let to = hash_start(config, blocks, k + 1);
    &&& 0 <= from <= to <= all_bytes(blocks).len()
    &&& hash.0 == block_range(config, blocks[cuts(config, blocks)[k]])
    &&& hash.1 == digest(all_bytes(blocks).subrange(from, to))
}

/// The range of what is left behind the last cut.
pub open spec fn open_range(config: ScanConfig, next: NextBlock) -> TimeRange {
    if is_cut(config, next) {
        TimeRange { min_ts: ends_at(config, next) as i64, max_ts: last_of(next) }
    } else {
        block_range(config, next)
    }
}

/// The state after a row of blocks: the hashes that the cuts end are stored, and what comes behind
/// the last cut is not.
proof fn lemma_run(config: ScanConfig, blocks: Seq<NextBlock>, field: FieldId)
    requires
        blocks.len() > 0,
        forall|i: int| 0 <= i < blocks.len() ==> is_of_run(config, #[trigger] blocks[i], field),
    ensures
        scan(config, blocks) is Ok,
        ({
            let state = scan(config, blocks)->Ok_0;
            let n = cuts(config, blocks).len() as int;
            let bytes = all_bytes(blocks);
            &&& state.hashes.len() == 1
            &&& state.hashes[0].field_id == field
            &&& state.hashes[0].hashes.len() == n
            &&& forall|k: int|
                0 <= k < n ==> is_cut_hash(config, blocks, k, #[trigger] state.hashes[0].hashes[k])
            &&& state.last == Some((open_range(config, blocks.last()), field))
            &&& 0 <= hash_start(config, blocks, n) <= bytes.len()
            &&& state.pending == bytes.subrange(
                hash_start(config, blocks, n),
                bytes.len() as int,
            )
        }),
    decreases blocks.len(),
{
    let init = blocks.drop_last();
    let m = init.len() as int;
    let next = blocks.last();
    let block = data_of(next);
    assert(next == blocks[m]);
    assert(is_of_run(config, blocks[m], field));
    lemma_block_range(config, next);
    let whole = block.bytes(0, block.num_values() as int);
    let head = head_bytes(config, next);
    let max_ts = ends_at(config, next) as i64;
    let limit = hash_limit(block, 0, max_ts);
    law_hash_limit(block, 0, max_ts);
    law_partial_hashes_cover(block, max_ts);
    let rest = partial_bytes(block, limit, Timestamp::MIN);
    assert(partial_bytes(block, 0, max_ts) == head);
    assert(whole == head + rest);
    assert(block.timestamps().skip(0) =~= block.timestamps());
    assert(partial_bytes(block, 0, Timestamp::MIN) == whole);
    let before = if m > 0 {
        scan(config, init)->Ok_0
    } else {
        ScanView::initial()
    };
    let earlier = all_bytes(init);
    let bytes = all_bytes(blocks);
    assert(bytes == earlier + whole);
    let old_cuts = cuts(config, init);
    let all_cuts = cuts(config, blocks);
    let p = old_cuts.len() as int;
    law_cuts(config, init);
    if m > 0 {
        assert forall|i: int| 0 <= i < init.len() implies is_of_run(
            config,
            #[trigger] init[i],
            field,
        ) by {
            assert(is_of_run(config, blocks[i], field));
        }
        lemma_run(config, init, field);
        assert(has_field(before.hashes, field)) by {
            assert(before.hashes[0].field_id == field);
        }
    } else {
        assert(!has_field(before.hashes, field));
        assert(init =~= Seq::empty());
    }
    assert forall|k: int| 0 <= k <= p implies #[trigger] hash_start(config, blocks, k)
        == hash_start(config, init, k) by {
        if k > 0 {
            let i = old_cuts[k - 1];
            assert(all_cuts[k - 1] == i);
            assert(blocks.take(i) =~= init.take(i));
            assert(blocks[i] == init[i]);
        }
    }
    let start = hash_start(config, init, p);
    assert(before.pending =~= earlier.subrange(start, earlier.len() as int));
    let stored = before.count(column_of(field)).store_other(field);
    assert(stored.hashes == before.hashes && stored.pending == before.pending);
    let state = scan(config, blocks)->Ok_0;
    let old_hashes = if m > 0 {
        before.hashes[0].hashes
    } else {
        Seq::empty()
    };
    let added = with_field(stored.hashes, field);
    assert(added =~= seq![FieldEntryView { field_id: field, hashes: old_hashes }]);
    assert(added[0].field_id == field);
    assert(has_field(added, field));
    if is_cut(config, next) {
        let hash = (block_range(config, next), digest(stored.pending + head));
        assert(state.hashes =~= seq![
            FieldEntryView { field_id: field, hashes: old_hashes.push(hash) },
        ]);
        assert(blocks.take(m) =~= init);
        assert(all_cuts[p] == m);
        let to = hash_start(config, blocks, p + 1);
        assert(to == earlier.len() + head.len());
        assert(stored.pending + head =~= bytes.subrange(start, to));
        assert(state.pending =~= bytes.subrange(to, bytes.len() as int));
    } else {
        assert(state.hashes =~= added);
        assert(state.pending =~= bytes.subrange(start, bytes.len() as int));
    }
    let hashes = state.hashes[0].hashes;
    assert forall|k: int| 0 <= k < all_cuts.len() implies is_cut_hash(
        config,
        blocks,
        k,
        #[trigger] hashes[k],
    ) by {
        if k < p {
            let from = hash_start(config, init, k);
            let to = hash_start(config, init, k + 1);
            assert(hash_start(config, blocks, k) == from);
            assert(hash_start(config, blocks, k + 1) == to);
            assert(hashes[k] == old_hashes[k]);
            assert(is_cut_hash(config, init, k, before.hashes[0].hashes[k]));
            assert(all_cuts[k] == old_cuts[k]);
            assert(blocks[old_cuts[k]] == init[old_cuts[k]]);
            assert(bytes.subrange(from, to) =~= earlier.subrange(from, to));
        }
    }
}

/// A row of blocks of one field gives the field one hash more than blocks of the row reach beyond
/// their time ranges. The bytes of all the values, one after the other, are cut where these blocks
/// reach the ends of their ranges, and each piece goes into one hash: every value into exactly one.
/// A piece that ends at a cut has the range of the block that is cut. The last piece has the range
/// of the last block or, where that is cut, the range from its cut to its last timestamp.
pub proof fn law_run(config: ScanConfig, blocks: Seq<NextBlock>, field: FieldId)
    requires
        blocks.len() > 0,
        forall|i: int| 0 <= i < blocks.len() ==> is_of_run(config, #[trigger] blocks[i], field),
    ensures
        scan(config, blocks) is Ok,
        ({
            let finished = scan(config, blocks)->Ok_0.finished_hashes();
            let hashes = finished[0].hashes;
            let n = cuts(config, blocks).len() as int;
            let bytes = all_bytes(blocks);
            &&& finished.len() == 1
            &&& finished[0].field_id == field
            &&& hashes.len() == n + 1
            &&& forall|k: int|
                0 <= k < n ==> is_cut_hash(config, blocks, k, #[trigger] hashes[k])
            &&& 0 <= hash_start(config, blocks, n) <= bytes.len()
            &&& hashes[n].0 == open_range(config, blocks.last())
            &&& hashes[n].1 == digest(
                bytes.subrange(hash_start(config, blocks, n), bytes.len() as int),
            )
        }),
{
    lemma_run(config, blocks, field);
    let state = scan(config, blocks)->Ok_0;
    let stored = state.hashes[0].hashes;
    let finished = state.finished_hashes();
    assert(has_field(state.hashes, field)) by {
        assert(state.hashes[0].field_id == field);
    }
    let hash = (open_range(config, blocks.last()), digest(state.pending));
    assert(finished =~= seq![FieldEntryView { field_id: field, hashes: stored.push(hash) }]);
    let n = cuts(config, blocks).len() as int;
    let hashes = finished[0].hashes;
    assert forall|k: int| 0 <= k < n implies is_cut_hash(
        config,
        blocks,
        k,
        #[trigger] hashes[k],
    ) by {
        assert(hashes[k] == stored[k]);
    }
}

/// The bytes of the values of two rows of blocks, one behind the other, are those of the first
/// followed by those of the second; a single block has the bytes of all its values.
pub proof fn law_all_bytes(a: Seq<NextBlock>, b: Seq<NextBlock>, field_id: FieldId, block: DataBlock)
    ensures
        all_bytes(a + b) == all_bytes(a) + all_bytes(b),
        all_bytes(seq![Ok(CompactingBlock::DataBlock { field_id, data_block: block })])
            == block.bytes(0, block.num_values() as int),
    decreases b.len(),
{
    if b.len() == 0 {
        assert(a + b =~= a);
        assert(all_bytes(a) + all_bytes(b) =~= all_bytes(a));
    } else {
        law_all_bytes(a, b.drop_last(), field_id, block);
        assert((a + b).drop_last() =~= a + b.drop_last());
        assert((a + b).last() == b.last());
        assert(all_bytes(a + b) =~= all_bytes(a) + all_bytes(b));
    }
    let one: Seq<NextBlock> = seq![Ok(CompactingBlock::DataBlock { field_id, data_block: block })];
    assert(one.drop_last() =~= Seq::empty());
    reveal_with_fuel(all_bytes, 2);
    assert(all_bytes(one) =~= block.bytes(0, block.num_values() as int));
}

/// Where none of a row of blocks but the last reaches beyond its time range, the first hash is of
/// all the values of the earlier blocks, followed by those values of the last block whose
/// timestamps come before the end of its range; the second hash is of the remaining values. (The
/// timestamps of the last block ascend and are all different; `j` of them come before that end.)
pub proof fn law_cut_block(
    config: ScanConfig,
    earlier: Seq<NextBlock>,
    last: NextBlock,
    field: FieldId,
    j: int,
)
    requires
        forall|i: int|
            0 <= i < earlier.len() ==> is_of_run(config, #[trigger] earlier[i], field) && !is_cut(
                config,
                earlier[i],
            ),
        is_of_run(config, last, field),
        is_cut(config, last),
        data_of(last).wf(),
        data_of(last).timestamps().no_duplicates(),
        0 <= j <= data_of(last).timestamps().len(),
        forall|i: int|
            0 <= i < data_of(last).timestamps().len() ==> (i < j <==> #[trigger] data_of(
                last,
            ).timestamps()[i] < ends_at(config, last)),
    ensures
        scan(config, earlier.push(last)) matches Ok(state) && state.finished_hashes() == seq![
            FieldEntryView {
                field_id: field,
                hashes: seq![
                    (
                        block_range(config, last),
                        digest(all_bytes(earlier) + data_of(last).bytes(0, j)),
                    ),
                    (
                        TimeRange { min_ts: ends_at(config, last) as i64, max_ts: last_of(last) },
                        digest(data_of(last).bytes(j, data_of(last).num_values() as int)),
                    ),
                ],
            },
        ],
{
    let blocks = earlier.push(last);
    let block = data_of(last);
    let ts = block.timestamps();
    let max_ts = ends_at(config, last) as i64;
    let n = earlier.len() as int;
    assert forall|i: int| 0 <= i < blocks.len() implies is_of_run(
        config,
        #[trigger] blocks[i],
        field,
    ) by {
        if i < n {
            assert(is_of_run(config, earlier[i], field));
        }
    }
    law_run(config, blocks, field);
    law_cuts(config, earlier);
    assert(blocks.drop_last() =~= earlier);
    assert(blocks.take(n) =~= earlier);
    if cuts(config, earlier).len() > 0 {
        assert(is_cut(config, earlier[cuts(config, earlier)[0]]));
    }
    assert(cuts(config, blocks) =~= seq![n]);
    law_range_holds_timestamp(first_of(last), config.time_range_nanosec);
    law_hash_limit(block, 0, max_ts);
    let limit = hash_limit(block, 0, max_ts);
    if limit < j {
        assert(ts[limit] < max_ts);
    }
    if j < limit {
        assert(ts[j] < max_ts);
    }
    let len = block.num_values() as int;
    law_bytes_split(block, 0, j, len);
    let bytes = all_bytes(blocks);
    let head = block.bytes(0, j);
    let cut = hash_start(config, blocks, 1);
    assert(cut == all_bytes(earlier).len() + head.len());
    assert(hash_start(config, blocks, 0) == 0);
    assert(bytes =~= all_bytes(earlier) + block.bytes(0, len));
    assert(bytes.subrange(0, cut) =~= all_bytes(earlier) + head);
    assert(bytes.subrange(cut, bytes.len() as int) =~= block.bytes(j, len));
    let finished = scan(config, blocks)->Ok_0.finished_hashes();
    let hashes = finished[0].hashes;
    assert(is_cut_hash(config, blocks, 0, hashes[0]));
    assert(hashes =~= seq![
        (block_range(config, last), digest(all_bytes(earlier) + head)),
        (
            TimeRange { min_ts: ends_at(config, last) as i64, max_ts: last_of(last) },
            digest(block.bytes(j, len)),
        ),
    ]);
    assert(finished =~= seq![FieldEntryView { field_id: field, hashes }]);
}

/// The hashes of a field, none where it has no entry.
pub open spec fn field_hashes(entries: Seq<FieldEntryView>, field: FieldId) -> Seq<RangeHash>
    decreases entries.len(),
{
    if entries.len() == 0 {
        Seq::empty()
    } else if entries.last().field_id == field {
        field_hashes(entries.drop_last(), field) + entries.last().hashes
    } else {
        field_hashes(entries.drop_last(), field)
    }
}

/// A field that has one entry has the hashes of that entry.
pub proof fn law_field_hashes(entries: Seq<FieldEntryView>, i: int)
    requires
        fields_differ(entries),
        0 <= i < entries.len(),
    ensures
        field_hashes(entries, entries[i].field_id) == entries[i].hashes,
    decreases entries.len(),
{
    let init = entries.drop_last();
    let n = entries.len() - 1;
    assert(fields_differ(init)) by {
        assert forall|a: int, b: int| 0 <= a < b < init.len() implies #[trigger] init[a].field_id
            != #[trigger] init[b].field_id by {
            assert(entries[a].field_id != entries[b].field_id);
        }
    }
    if i < n {
        assert(entries[i].field_id != entries[n].field_id);
        assert(init[i] == entries[i]);
        law_field_hashes(init, i);
    } else {
        assert(!has_field(init, entries[n].field_id)) by {
            if has_field(init, entries[n].field_id) {
                let k = choose|k: int|
                    0 <= k < init.len() && #[trigger] init[k].field_id == entries[n].field_id;
                assert(entries[k].field_id != entries[n].field_id);
            }
        }
        lemma_no_hashes(init, entries[n].field_id);
        assert(field_hashes(entries, entries[i].field_id) =~= entries[i].hashes);
    }
}

/// A field without an entry has no hashes.
proof fn lemma_no_hashes(entries: Seq<FieldEntryView>, field: FieldId)
    requires
        !has_field(entries, field),
    ensures
        field_hashes(entries, field) == Seq::<RangeHash>::empty(),
    decreases entries.len(),
{
    if entries.len() > 0 {
        let init = entries.drop_last();
        assert(entries[entries.len() - 1].field_id != field);
        if has_field(init, field) {
            let i = choose|i: int| 0 <= i < init.len() && #[trigger] init[i].field_id == field;
            assert(entries[i].field_id == field);
        }
        lemma_no_hashes(init, field);
    }
}

/// Storing a hash gives it to its field, behind those that the field has, and to no other.
proof fn lemma_field_hashes(
    entries: Seq<FieldEntryView>,
    field_id: FieldId,
    hash: RangeHash,
    other: FieldId,
)
    requires
        fields_differ(entries),
    ensures
        field_hashes(with_field(entries, field_id), other) == field_hashes(entries, other),
        field_hashes(with_hash(entries, field_id, hash), other) == (if other == field_id {
            field_hashes(entries, other).push(hash)
        } else {
            field_hashes(entries, other)
        }),
{
    let added = with_field(entries, field_id);
    let stored = with_hash(entries, field_id, hash);
    lemma_with_hash(entries, field_id, hash);
    lemma_has_field(entries, field_id, hash, other);
    if !has_field(entries, field_id) {
        assert(added.drop_last() =~= entries);
        assert(field_hashes(added, other) =~= field_hashes(entries, other));
    }
    if has_field(added, other) {
        let i = choose|i: int| 0 <= i < added.len() && #[trigger] added[i].field_id == other;
        law_field_hashes(added, i);
        assert(stored[i].field_id == other);
        law_field_hashes(stored, i);
    } else {
        lemma_no_hashes(entries, other);
        lemma_no_hashes(stored, other);
    }
}

/// The field of the last block with timestamps, of a column that is hashed.
pub open spec fn last_field(config: ScanConfig, blocks: Seq<NextBlock>) -> Option<FieldId>
    decreases blocks.len(),
{
    if blocks.len() == 0 {
        None
    } else if has_data(config, blocks.last()) {
        Some(field_of(blocks.last()))
    } else {
        last_field(config, blocks.drop_last())
    }
}

/// What is not stored yet belongs to the field of the last block with timestamps.
proof fn lemma_last_field(config: ScanConfig, blocks: Seq<NextBlock>)
    requires
        scan(config, blocks) is Ok,
    ensures
        ({
            let state = scan(config, blocks)->Ok_0;
            &&& state.last is None <==> last_field(config, blocks) is None
            &&& state.last is None ==> state.pending.len() == 0
            &&& state.last matches Some((_, f)) ==> last_field(config, blocks) == Some(f)
        }),
    decreases blocks.len(),
{
    if blocks.len() > 0 {
        lemma_last_field(config, blocks.drop_last());
    }
}

/// What a row of blocks of one field adds to a state in which nothing waits to be stored for it.
proof fn lemma_compose(
    config: ScanConfig,
    before: Seq<NextBlock>,
    start: Seq<FieldEntryView>,
    run: Seq<NextBlock>,
    field: FieldId,
    other: FieldId,
)
    requires
        scan(config, before) is Ok,
        scan(config, before)->Ok_0.store_other(field).hashes == start,
        scan(config, before)->Ok_0.store_other(field).pending.len() == 0,
        fields_differ(start),
        run.len() > 0,
        forall|i: int|
            0 <= i < run.len() ==> has_data(config, #[trigger] run[i]) && !fails(config, run[i])
                && field_of(run[i]) == field,
    ensures
        scan(config, before + run) is Ok,
        scan(config, run) is Ok,
        ({
            let whole = scan(config, before + run)->Ok_0;
            let alone = scan(config, run)->Ok_0;
            &&& whole.last == alone.last
            &&& alone.last matches Some((_, f)) && f == field
            &&& whole.pending == alone.pending
            &&& field_hashes(whole.hashes, other) == field_hashes(start, other) + field_hashes(
                alone.hashes,
                other,
            )
            &&& has_field(whole.hashes, other) <==> has_field(start, other) || other == field
        }),
    decreases run.len(),
{
    let init = run.drop_last();
    let next = run.last();
    let block = data_of(next);
    let nanos = config.time_range_nanosec;
    assert(next == run[run.len() - 1]);
    lemma_block_range(config, next);
    assert((before + run).drop_last() =~= before + init);
    assert((before + run).last() == next);
    let s = scan(config, before)->Ok_0;
    if init.len() > 0 {
        assert forall|i: int| 0 <= i < init.len() implies has_data(config, #[trigger] init[i])
            && !fails(config, init[i]) && field_of(init[i]) == field by {
            assert(has_data(config, run[i]));
        }
        lemma_compose(config, before, start, init, field, other);
        law_scan_inv(config, before + init);
        law_scan_inv(config, init);
    } else {
        assert(init =~= Seq::empty());
        assert(before + init =~= before);
    }
    let t0 = scan(config, before + init)->Ok_0;
    let u0 = scan(config, init)->Ok_0;
    let t1 = t0.count(column_of(field)).store_other(field);
    let u1 = u0.count(column_of(field)).store_other(field);
    if init.len() == 0 {
        assert(t1.hashes == s.store_other(field).hashes);
        assert(t1.pending =~= u1.pending);
        assert(field_hashes(u1.hashes, other) =~= Seq::empty());
        assert(field_hashes(start, other) + field_hashes(u1.hashes, other) =~= field_hashes(
            start,
            other,
        ));
    }
    assert(fields_differ(t1.hashes));
    assert(fields_differ(u1.hashes));
    let range = block_range(config, next);
    let head = t1.pending + partial_bytes(block, 0, range.max_ts);
    let hash = (range, digest(head));
    lemma_field_hashes(t1.hashes, field, hash, other);
    lemma_field_hashes(u1.hashes, field, hash, other);
    lemma_has_field(t1.hashes, field, hash, other);
    lemma_with_hash(t1.hashes, field, hash);
    lemma_with_hash(u1.hashes, field, hash);
    lemma_field_hashes(with_field(t1.hashes, field), field, hash, other);
    lemma_field_hashes(with_field(u1.hashes, field), field, hash, other);
    lemma_has_field(with_field(t1.hashes, field), field, hash, other);
    let t = scan(config, before + run)->Ok_0;
    let u = scan(config, run)->Ok_0;
    assert(field_hashes(t.hashes, other) =~= field_hashes(start, other) + field_hashes(
        u.hashes,
        other,
    ));
}

/// The end of the reading, once a row of blocks of one field has come.
proof fn lemma_compose_finished(
    config: ScanConfig,
    before: Seq<NextBlock>,
    start: Seq<FieldEntryView>,
    run: Seq<NextBlock>,
    field: FieldId,
    other: FieldId,
)
    requires
        scan(config, before) is Ok,
        scan(config, before)->Ok_0.store_other(field).hashes == start,
        scan(config, before)->Ok_0.store_other(field).pending.len() == 0,
        fields_differ(start),
        run.len() > 0,
        forall|i: int|
            0 <= i < run.len() ==> has_data(config, #[trigger] run[i]) && !fails(config, run[i])
                && field_of(run[i]) == field,
    ensures
        scan(config, before + run) is Ok,
        scan(config, run) is Ok,
        ({
            let whole = scan(config, before + run)->Ok_0.finished_hashes();
            let alone = scan(config, run)->Ok_0.finished_hashes();
            &&& field_hashes(whole, other) == field_hashes(start, other) + field_hashes(
                alone,
                other,
            )
            &&& has_field(whole, other) <==> has_field(start, other) || other == field
        }),
{
    lemma_compose(config, before, start, run, field, other);
    law_scan_inv(config, before + run);
    law_scan_inv(config, run);
    let t = scan(config, before + run)->Ok_0;
    let u = scan(config, run)->Ok_0;
    let (range, _) = u.last->0;
    let hash = (range, digest(u.pending));
    lemma_field_hashes(t.hashes, field, hash, other);
    lemma_field_hashes(u.hashes, field, hash, other);
    lemma_has_field(t.hashes, field, hash, other);
    assert(field_hashes(t.finished_hashes(), other) =~= field_hashes(start, other) + field_hashes(
        u.finished_hashes(),
        other,
    ));
}

/// A row of blocks of one field that follows blocks of other fields gives the field the hashes that
/// the row gives on its own, behind those that the field has, and changes no other field.
pub proof fn law_rows_do_not_mix(
    config: ScanConfig,
    before: Seq<NextBlock>,
    run: Seq<NextBlock>,
    field: FieldId,
    other: FieldId,
)
    requires
        scan(config, before) is Ok,
        last_field(config, before) != Some(field),
        run.len() > 0,
        forall|i: int|
            0 <= i < run.len() ==> has_data(config, #[trigger] run[i]) && !fails(config, run[i])
                && field_of(run[i]) == field,
    ensures
        scan(config, before + run) is Ok,
        scan(config, run) is Ok,
        ({
            let earlier = scan(config, before)->Ok_0.finished_hashes();
            let whole = scan(config, before + run)->Ok_0.finished_hashes();
            let alone = scan(config, run)->Ok_0.finished_hashes();
            &&& field_hashes(whole, other) == field_hashes(earlier, other) + field_hashes(
                alone,
                other,
            )
            &&& has_field(whole, other) <==> has_field(earlier, other) || other == field
        }),
{
    let s = scan(config, before)->Ok_0;
    lemma_last_field(config, before);
    law_scan_inv(config, before);
    law_finished_fields(config, s);
    lemma_compose_finished(config, before, s.finished_hashes(), run, field, other);
}

/// A block without timestamps, of a column that is hashed, gives no field an entry. Where it is of
/// another field than the last block with timestamps, the field of that block gets one more hash,
/// of no bytes, for the range of its last one; all else stays as it is.
pub proof fn law_empty_block(
    config: ScanConfig,
    before: Seq<NextBlock>,
    field_id: FieldId,
    data_block: DataBlock,
    other: FieldId,
)
    requires
        scan(config, before) is Ok,
        config.columns.contains(column_of(field_id)),
        data_block.timestamps().len() == 0,
    ensures
        ({
            let empty = Ok(CompactingBlock::DataBlock { field_id, data_block });
            let earlier = scan(config, before)->Ok_0.finished_hashes();
            &&& scan(config, before.push(empty)) matches Ok(state)
            &&& has_field(state.finished_hashes(), other) <==> has_field(earlier, other)
            &&& last_field(config, before) == Some(other) && other != field_id ==> field_hashes(
                state.finished_hashes(),
                other,
            ) == field_hashes(earlier, other).push(
                (field_hashes(earlier, other).last().0, digest(Seq::empty())),
            )
            &&& last_field(config, before) != Some(other) || other == field_id ==> field_hashes(
                state.finished_hashes(),
                other,
            ) == field_hashes(earlier, other)
        }),
{
    let empty: NextBlock = Ok(CompactingBlock::DataBlock { field_id, data_block });
    let s = scan(config, before)->Ok_0;
    lemma_last_field(config, before);
    law_scan_inv(config, before);
    law_finished_fields(config, s);
    assert(before.push(empty).drop_last() =~= before);
    let t = scan(config, before.push(empty))->Ok_0;
    assert(t == s.count(column_of(field_id)).store_other(field_id));
    if let Some((range, last)) = s.last {
        let hash = (range, digest(s.pending));
        lemma_field_hashes(s.hashes, last, hash, other);
        lemma_has_field(s.hashes, last, hash, other);
        if last != field_id {
            let again = (range, digest(t.pending));
            assert(t.hashes == s.finished_hashes());
            lemma_field_hashes(t.hashes, last, again, other);
            lemma_has_field(t.hashes, last, again, other);
        }
    }
}

/// A block without timestamps, of another field, ends a row: what follows of the same field gives
/// it hashes of its own, behind those that the blocks before gave it.
pub proof fn law_empty_block_ends_row(
    config: ScanConfig,
    before: Seq<NextBlock>,
    field_id: FieldId,
    data_block: DataBlock,
    run: Seq<NextBlock>,
    field: FieldId,
    other: FieldId,
)
    requires
        scan(config, before) is Ok,
        last_field(config, before) == Some(field),
        config.columns.contains(column_of(field_id)),
        data_block.timestamps().len() == 0,
        field_id != field,
        run.len() > 0,
        forall|i: int|
            0 <= i < run.len() ==> has_data(config, #[trigger] run[i]) && !fails(config, run[i])
                && field_of(run[i]) == field,
    ensures
        ({
            let empty = Ok(CompactingBlock::DataBlock { field_id, data_block });
            let earlier = scan(config, before)->Ok_0.finished_hashes();
            let alone = scan(config, run)->Ok_0.finished_hashes();
            &&& scan(config, run) is Ok
            &&& scan(config, before.push(empty) + run) matches Ok(state)
            &&& field_hashes(state.finished_hashes(), other) == field_hashes(earlier, other)
                + field_hashes(alone, other)
        }),
{
    let empty: NextBlock = Ok(CompactingBlock::DataBlock { field_id, data_block });
    let s = scan(config, before)->Ok_0;
    lemma_last_field(config, before);
    law_scan_inv(config, before);
    law_finished_fields(config, s);
    assert(before.push(empty).drop_last() =~= before);
    let t = scan(config, before.push(empty))->Ok_0;
    assert(t.hashes == s.finished_hashes());
    lemma_compose_finished(config, before.push(empty), s.finished_hashes(), run, field, other);
}

/// Some blocks can be read wherever each of them can be taken.
pub proof fn law_blocks_fit(config: ScanConfig, blocks: Seq<NextBlock>)
    requires
        forall|i: int| 0 <= i < blocks.len() ==> block_fits(config, #[trigger] blocks[i]),
    ensures
        blocks_fit(config, blocks),
{
}

/// The hash of some bytes is the plain BLAKE3 hash of all of them.
pub proof fn law_digest(bytes: Seq<u8>)
    ensures
        digest(bytes) == blake3_digest(Seq::empty(), bytes),
{
}

} // verus!
