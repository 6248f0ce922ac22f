//! The reading of the blocks of a time series family into hashes by field and time range.
use crate::block::{hash_limit, hash_partial_datablock, partial_bytes, DataBlock};
use crate::error::{Error, ErrorView};
use crate::hasher::{blake3_digest, finalize, hasher_input, hasher_mode};
use crate::schema::{column_of, split_id, ColumnId, ColumnNames, FieldId, TseriesFamilyId};
use crate::text::{decimal, push_decimal_u64};
use crate::time::{
    block_partial_time_range, calc_block_partial_time_range, check_time_range_fits,
    time_range_fits, TimeRange, Timestamp,
};
use blake3::Hasher;
use std::collections::HashMap;
use vstd::prelude::*;

verus! {

broadcast use vstd::std_specs::hash::group_hash_axioms;

/// The hash of some bytes.
pub open spec fn digest(bytes: Seq<u8>) -> Seq<u8> {
    blake3_digest(Seq::empty(), bytes)
}

/// A time range and the bytes of its hash.
pub type RangeHash = (TimeRange, Seq<u8>);

/// Time ranges with their hashes, the hashes taken as sequences of bytes.
pub open spec fn range_hashes(hashes: Seq<(TimeRange, crate::hasher::Hash)>) -> Seq<RangeHash> {
    hashes.map_values(|h: (TimeRange, crate::hasher::Hash)| (h.0, h.1@))
}

/// The hashes of one field, in the order in which they were stored.
#[derive(Debug)]
pub struct FieldEntry {
    pub field_id: FieldId,
    pub hashes: Vec<(TimeRange, crate::hasher::Hash)>,
}

/// A field and its hashes.
pub struct FieldEntryView {
    pub field_id: FieldId,
    pub hashes: Seq<RangeHash>,
}

impl View for FieldEntry {
    type V = FieldEntryView;

    open spec fn view(&self) -> FieldEntryView {
        FieldEntryView { field_id: self.field_id, hashes: range_hashes(self.hashes@) }
    }
}

/// Some fields with their hashes.
pub open spec fn entry_views(entries: Seq<FieldEntry>) -> Seq<FieldEntryView> {
    entries.map_values(|e: FieldEntry| e@)
}

/// Whether a field has an entry.
pub open spec fn has_field(entries: Seq<FieldEntryView>, field_id: FieldId) -> bool {
    exists|i: int| 0 <= i < entries.len() && #[trigger] entries[i].field_id == field_id
}

/// Whether no field has two entries.
pub open spec fn fields_differ(entries: Seq<FieldEntryView>) -> bool {
    forall|i: int, j: int|
        0 <= i < j < entries.len() ==> #[trigger] entries[i].field_id
            != #[trigger] entries[j].field_id
}

/// The entries with one for the field, an empty one where it had none.
pub open spec fn with_field(entries: Seq<FieldEntryView>, field_id: FieldId) -> Seq<FieldEntryView> {
    if has_field(entries, field_id) {
        entries
    } else {
        entries.push(FieldEntryView { field_id, hashes: Seq::empty() })
    }
}

/// The entries with a hash stored behind those of the field.
pub open spec fn with_hash(
    entries: Seq<FieldEntryView>,
    field_id: FieldId,
    hash: RangeHash,
) -> Seq<FieldEntryView> {
    with_field(entries, field_id).map_values(
        |e: FieldEntryView|
            if e.field_id == field_id {
                FieldEntryView { field_id, hashes: e.hashes.push(hash) }
            } else {
                e
            },
    )
}

/// Hashes by field and time range. The fields stand in the order in which they first came.
pub struct FieldHashes {
    entries: Vec<FieldEntry>,
    index: HashMap<FieldId, usize>,
}

impl View for FieldHashes {
    type V = Seq<FieldEntryView>;

    closed spec fn view(&self) -> Seq<FieldEntryView> {
        entry_views(self.entries@)
    }
}

impl FieldHashes {
    /// Whether the index gives the position of every entry and holds nothing else.
    pub closed spec fn wf(self) -> bool {
        &&& forall|i: int|
            0 <= i < self.entries@.len() ==> self.index@.contains_key(
                (#[trigger] self.entries@[i]).field_id,
            ) && self.index@[self.entries@[i].field_id] == i
        &&& forall|f: FieldId| #[trigger]
            self.index@.contains_key(f) ==> self.index@[f] < self.entries@.len()
                && self.entries@[self.index@[f] as int].field_id == f
    }

    /// No hashes at all.
    pub fn new() -> (hashes: Self)
        ensures
            hashes.wf(),
            hashes@ == Seq::<FieldEntryView>::empty(),
    {
        let hashes = FieldHashes { entries: Vec::new(), index: HashMap::new() };
        assert(hashes@ =~= Seq::empty());
        hashes
    }

    /// The fields with their hashes.
    pub fn entries(&self) -> (entries: &Vec<FieldEntry>)
        ensures
            entry_views(entries@) == self@,
    {
        &self.entries
    }

    /// No field has two entries.
    pub proof fn lemma_fields_differ(self)
        requires
            self.wf(),
        ensures
            fields_differ(self@),
    {
        assert forall|i: int, j: int| 0 <= i < j < self@.len() implies #[trigger] self@[i].field_id
            != #[trigger] self@[j].field_id by {
            assert(self.entries@[i].field_id == self@[i].field_id);
            assert(self.entries@[j].field_id == self@[j].field_id);
        }
    }

    /// Gives a field an entry, and returns the position of the field's entry.
    fn ensure(&mut self, field_id: FieldId) -> (i: usize)
        requires
            old(self).wf(),
        ensures
            final(self).wf(),
            final(self)@ == with_field(old(self)@, field_id),
            i < final(self)@.len(),
            final(self)@[i as int].field_id == field_id,
    {
        match self.index.get(&field_id) {
            Some(i) => {
                let i: usize = *i;
                assert(self@[i as int].field_id == field_id);
                i
            },
            None => {
                let i: usize = self.entries.len();
                proof {
                    if has_field(self@, field_id) {
                        let k = choose|k: int|
                            0 <= k < self@.len() && #[trigger] self@[k].field_id == field_id;
                        assert(self.entries@[k].field_id == field_id);
                        assert(false);
                    }
                }
                let ghost before = self@;
                self.entries.push(FieldEntry { field_id, hashes: Vec::new() });
                self.index.insert(field_id, i);
                assert(self.entries@[i as int]@.hashes =~= Seq::empty());
                assert(self@ =~= before.push(FieldEntryView { field_id, hashes: Seq::empty() }));
                i
            },
        }
    }

    /// Stores a hash behind those of the field.
    fn push(&mut self, field_id: FieldId, time_range: TimeRange, hash: crate::hasher::Hash)
        requires
            old(self).wf(),
        ensures
            final(self).wf(),
            final(self)@ == with_hash(old(self)@, field_id, (time_range, hash@)),
    {
        let i: usize = self.ensure(field_id);
        let ghost middle = self@;
        let ghost entry = self.entries@[i as int];
        proof {
            self.lemma_fields_differ();
        }
        self.entries[i].hashes.push((time_range, hash));
        proof {
            assert(self.entries@[i as int].hashes@ == entry.hashes@.push((time_range, hash)));
            assert(self.entries@[i as int]@.hashes =~= entry@.hashes.push((time_range, hash@)));
            assert(self@ =~= with_hash(old(self)@, field_id, (time_range, hash@)));
        }
    }
}

/// A block as the reading of a time series family hands it out: decoded, or left as it is stored.
#[derive(Debug)]
pub enum CompactingBlock {
    DataBlock { field_id: FieldId, data_block: DataBlock },
    Raw,
}

/// What the reading of a time series family gives next: a block, or the text of an error.
pub type NextBlock = Result<CompactingBlock, String>;

/// What stays the same while a time series family is read: its id, the length of the time ranges,
/// and the columns whose data is hashed.
pub struct ScanConfig {
    pub ts_family_id: TseriesFamilyId,
    pub time_range_nanosec: i64,
    pub columns: Set<ColumnId>,
}

/// How far the reading of a time series family has come.
pub struct ScanView {
    /// The hashes that are stored.
    pub hashes: Seq<FieldEntryView>,
    /// The number of blocks that came for each column.
    pub counts: Map<ColumnId, nat>,
    /// The time range and the field of the bytes that are not stored yet.
    pub last: Option<(TimeRange, FieldId)>,
    /// The bytes that were fed to the hasher and are not stored yet.
    pub pending: Seq<u8>,
}

/// The number of a column, with one added.
pub open spec fn counted(counts: Map<ColumnId, nat>, column_id: ColumnId) -> Map<ColumnId, nat> {
    counts.insert(
        column_id,
        if counts.contains_key(column_id) {
            counts[column_id] + 1
        } else {
            1
        },
    )
}

impl ScanView {
    /// Nothing was read yet.
    pub open spec fn initial() -> ScanView {
        ScanView {
            hashes: Seq::empty(),
            counts: Map::empty(),
            last: None,
            pending: Seq::empty(),
        }
    }

    /// A block came for the column.
    pub open spec fn count(self, column_id: ColumnId) -> ScanView {
        ScanView { counts: counted(self.counts, column_id), ..self }
    }

    /// What is not stored yet is stored where it belongs to another field than the one that comes.
    pub open spec fn store_other(self, field_id: FieldId) -> ScanView {
        match self.last {
            Some((range, last_field)) => if last_field != field_id {
                ScanView {
                    hashes: with_hash(self.hashes, last_field, (range, digest(self.pending))),
                    pending: Seq::empty(),
                    ..self
                }
            } else {
                self
            },
            None => self,
        }
    }

    /// The values of a block that ends within its time range are fed to the hasher. A block that
    /// reaches beyond is cut at the end of the range: the hash of the first part is stored, and
    /// the second part is fed to the hasher afresh. An empty block changes nothing.
    pub open spec fn take_block(self, field_id: FieldId, block: DataBlock, nanos: i64) -> Result<
        ScanView,
        ErrorView,
    > {
        match block.span() {
            None => Ok(self),
            Some((first, last)) => match block_partial_time_range(first, nanos, nanos) {
                Err(e) => Err(e),
                Ok((min_ts, max_ts)) => {
                    let range = TimeRange { min_ts: min_ts as i64, max_ts: max_ts as i64 };
                    let hashes = with_field(self.hashes, field_id);
                    if last > max_ts {
                        let head = self.pending + partial_bytes(block, 0, range.max_ts);
                        let limit = hash_limit(block, 0, range.max_ts);
                        Ok(
                            ScanView {
                                hashes: with_hash(hashes, field_id, (range, digest(head))),
                                pending: partial_bytes(block, limit, Timestamp::MIN),
                                last: Some(
                                    (TimeRange { min_ts: range.max_ts, max_ts: last }, field_id),
                                ),
                                ..self
                            },
                        )
                    } else {
                        Ok(
                            ScanView {
                                hashes,
                                pending: self.pending + partial_bytes(block, 0, Timestamp::MIN),
                                last: Some((range, field_id)),
                                ..self
                            },
                        )
                    }
                },
            },
        }
    }

    /// What the next block makes of the state. A block that was not decoded, or whose column is
    /// not hashed, changes nothing.
    pub open spec fn step(self, config: ScanConfig, next: NextBlock) -> Result<ScanView, ErrorView> {
        match next {
            Ok(CompactingBlock::DataBlock { field_id, data_block }) => if config.columns.contains(
                column_of(field_id),
            ) {
                self.count(column_of(field_id)).store_other(field_id).take_block(
                    field_id,
                    data_block,
                    config.time_range_nanosec,
                )
            } else {
                Ok(self)
            },
            Ok(CompactingBlock::Raw) => Ok(self),
            Err(e) => Err(read_error(config.ts_family_id, e@)),
        }
    }

    /// The hashes once no block is left: what is not stored yet is stored.
    pub open spec fn finished_hashes(self) -> Seq<FieldEntryView> {
        match self.last {
            Some((range, field_id)) => with_hash(
                self.hashes,
                field_id,
                (range, digest(self.pending)),
            ),
            None => self.hashes,
        }
    }
}

/// The error that a failure to read a block gives.
pub open spec fn read_error(ts_family_id: TseriesFamilyId, cause: Seq<char>) -> ErrorView {
    ErrorView::CommonError {
        reason: "error getting hashes for ts_family "@ + decimal(ts_family_id as int)
            + " when compacting: "@ + cause,
    }
}

/// The state after some blocks, or the first error among them.
pub open spec fn scan(config: ScanConfig, blocks: Seq<NextBlock>) -> Result<ScanView, ErrorView>
    decreases blocks.len(),
{
    if blocks.len() == 0 {
        Ok(ScanView::initial())
    } else {
        match scan(config, blocks.drop_last()) {
            Ok(state) => state.step(config, blocks.last()),
            Err(e) => Err(e),
        }
    }
}

/// Whether the time range that a block starts in, if it has one, fits in 64 bits.
pub open spec fn range_fits(block: DataBlock, nanos: i64) -> bool {
    match block.span() {
        Some((first, _)) => time_range_fits(first, nanos, nanos),
        None => true,
    }
}

/// Whether what comes next is no block that is hashed, or the block's time range fits in 64 bits.
pub open spec fn block_fits(config: ScanConfig, next: NextBlock) -> bool {
    match next {
        Ok(CompactingBlock::DataBlock { field_id, data_block }) => config.columns.contains(
            column_of(field_id),
        ) ==> range_fits(data_block, config.time_range_nanosec),
        _ => true,
    }
}

/// Whether the time ranges of the blocks that are hashed fit in 64 bits, up to the first error.
pub open spec fn blocks_fit(config: ScanConfig, blocks: Seq<NextBlock>) -> bool {
    forall|k: int|
        0 <= k < blocks.len() && scan(config, #[trigger] blocks.take(k)) is Ok ==> block_fits(
            config,
            blocks[k],
        )
}

/// Whether the number of blocks of the column of what comes next can still grow.
pub open spec fn count_fits(counts: Map<ColumnId, nat>, next: NextBlock) -> bool {
    match next {
        Ok(CompactingBlock::DataBlock { field_id, .. }) => counts.contains_key(column_of(field_id))
            ==> counts[column_of(field_id)] < usize::MAX,
        _ => true,
    }
}

/// The numbers of a map of counters.
pub open spec fn counts_view(counts: Map<ColumnId, usize>) -> Map<ColumnId, nat> {
    counts.map_values(|n: usize| n as nat)
}

/// The reading of a time series family, block by block.
pub struct HashScan {
    ts_family_id: TseriesFamilyId,
    time_range_nanosec: i64,
    hasher: Hasher,
    last: Option<(TimeRange, FieldId)>,
    hashes: FieldHashes,
    counts: HashMap<ColumnId, usize>,
}

impl View for HashScan {
    type V = ScanView;

    closed spec fn view(&self) -> ScanView {
        ScanView {
            hashes: self.hashes@,
            counts: counts_view(self.counts@),
            last: self.last,
            pending: hasher_input(self.hasher),
        }
    }
}

impl HashScan {
    /// Whether the hasher is a plain one and the stored hashes are in order.
    pub closed spec fn wf(self) -> bool {
        &&& hasher_mode(self.hasher) == Seq::<u8>::empty()
        &&& self.hashes.wf()
    }

    /// What stays the same while the family is read, with the given columns.
    pub closed spec fn config(self, columns: Set<ColumnId>) -> ScanConfig {
        ScanConfig {
            ts_family_id: self.ts_family_id,
            time_range_nanosec: self.time_range_nanosec,
            columns,
        }
    }

    /// Starts to read a family.
    pub fn new(ts_family_id: TseriesFamilyId, time_range_nanosec: i64) -> (scan: Self)
        ensures
            scan.wf(),
            scan@ == ScanView::initial(),
            forall|config: ScanConfig| #[trigger] scan@.inv(config),
            forall|columns: Set<ColumnId>| #[trigger]
                scan.config(columns) == (ScanConfig { ts_family_id, time_range_nanosec, columns }),
    {
        let scan = HashScan {
            ts_family_id,
            time_range_nanosec,
            hasher: Hasher::new(),
            last: None,
            hashes: FieldHashes::new(),
            counts: HashMap::new(),
        };
        assert(scan@.counts =~= Map::empty());
        scan
    }

    /// Adds one to the number of the column.
    fn count(&mut self, column_id: ColumnId)
        requires
            old(self)@.counts.contains_key(column_id) ==> old(self)@.counts[column_id] < usize::MAX,
        ensures
            final(self)@ == old(self)@.count(column_id),
            final(self).wf() == old(self).wf(),
            forall|columns: Set<ColumnId>| #[trigger]
                final(self).config(columns) == old(self).config(columns),
    {
        let count: usize = match self.counts.get(&column_id) {
            Some(n) => *n + 1,
            None => 1,
        };
        self.counts.insert(column_id, count);
        assert(self@.counts =~= old(self)@.count(column_id).counts);
    }

    /// Stores what is not stored yet where it belongs to another field.
    fn store_other(&mut self, field_id: FieldId)
        requires
            old(self).wf(),
        ensures
            final(self)@ == old(self)@.store_other(field_id),
            final(self).wf(),
            forall|columns: Set<ColumnId>| #[trigger]
                final(self).config(columns) == old(self).config(columns),
    {
        if let Some((time_range, last_fid)) = self.last {
            if last_fid != field_id {
                let hash = finalize(&self.hasher);
                self.hashes.push(last_fid, time_range, hash);
                self.hasher.reset();
            }
        }
    }

    /// Takes the values of a block.
    fn take_block(self, field_id: FieldId, data_block: &DataBlock) -> (res: Result<Self, Error>)
        requires
            self.wf(),
            range_fits(*data_block, self.config(Set::empty()).time_range_nanosec),
        ensures
            match res {
                Ok(scan) => {
                    &&& self@.take_block(
                        field_id,
                        *data_block,
                        self.config(Set::empty()).time_range_nanosec,
                    ) == Ok::<ScanView, ErrorView>(scan@)
                    &&& scan.wf()
                    &&& forall|columns: Set<ColumnId>| #[trigger]
                        scan.config(columns) == self.config(columns)
                },
                Err(e) => self@.take_block(
                    field_id,
                    *data_block,
                    self.config(Set::empty()).time_range_nanosec,
                ) == Err::<ScanView, ErrorView>(e@),
            },
    {
        let mut scan = self;
        if let Some(blk_time_range) = data_block.time_range() {
            let (min_ts, max_ts) = match calc_block_partial_time_range(
                blk_time_range.0,
                scan.time_range_nanosec,
                scan.time_range_nanosec,
            ) {
                Ok(tr) => tr,
                Err(e) => return Err(e),
            };
            let range = TimeRange::new(min_ts, max_ts);
            scan.hashes.ensure(field_id);
            if blk_time_range.1 > max_ts {
                let min_idx: usize = hash_partial_datablock(&mut scan.hasher, data_block, 0, max_ts);
                let hash = finalize(&scan.hasher);
                scan.hashes.push(field_id, range, hash);
                scan.hasher.reset();
                hash_partial_datablock(&mut scan.hasher, data_block, min_idx, Timestamp::MIN);
                proof {
                    let rest = partial_bytes(*data_block, min_idx as int, Timestamp::MIN);
                    assert(Seq::<u8>::empty() + rest =~= rest);
                }
                scan.last = Some((TimeRange::new(max_ts, blk_time_range.1), field_id));
            } else {
                hash_partial_datablock(&mut scan.hasher, data_block, 0, Timestamp::MIN);
                scan.last = Some((range, field_id));
            }
        }
        Ok(scan)
    }

    /// Whether what comes next can be taken: its time range fits in 64 bits, and the number of
    /// blocks of its column can still grow.
    pub fn accepts(&self, next: &NextBlock, names: &ColumnNames) -> (res: bool)
        ensures
            res == (block_fits(self.config(names@.dom()), *next) && count_fits(
                self@.counts,
                *next,
            )),
    {
        match next {
            Ok(CompactingBlock::DataBlock { field_id, data_block }) => {
                let (column_id, _) = split_id(*field_id);
                let count_fits = match self.counts.get(&column_id) {
                    Some(n) => *n < usize::MAX,
                    None => true,
                };
                let range_fits = match data_block.time_range() {
                    Some((first, _)) => check_time_range_fits(
                        first,
                        self.time_range_nanosec,
                        self.time_range_nanosec,
                    ),
                    None => true,
                };
                count_fits && (range_fits || !names.contains(column_id))
            },
            _ => true,
        }
    }

    /// Takes what the reading of the family gives next. The columns whose data is hashed are
    /// those of `names`.
    pub fn step(self, next: &NextBlock, names: &ColumnNames) -> (res: Result<Self, Error>)
        requires
            self.wf(),
            block_fits(self.config(names@.dom()), *next),
            count_fits(self@.counts, *next),
        ensures
            match res {
                Ok(scan) => {
                    &&& self@.step(self.config(names@.dom()), *next) == Ok::<ScanView, ErrorView>(
                        scan@,
                    )
                    &&& scan.wf()
                    &&& self@.inv(self.config(names@.dom())) ==> scan@.inv(
                        self.config(names@.dom()),
                    )
                    &&& forall|columns: Set<ColumnId>| #[trigger]
                        scan.config(columns) == self.config(columns)
                },
                Err(e) => self@.step(self.config(names@.dom()), *next) == Err::<
                    ScanView,
                    ErrorView,
                >(e@),
            },
    {
        proof {
            let config = self.config(names@.dom());
            if self@.inv(config) && self@.step(config, *next) is Ok {
                lemma_step_inv(config, self@, *next);
            }
        }
        match next {
            Ok(CompactingBlock::DataBlock { field_id, data_block }) => {
                let (column_id, _) = split_id(*field_id);
                if !names.contains(column_id) {
                    return Ok(self);
                }
                let mut scan = self;
                scan.count(column_id);
                scan.store_other(*field_id);
                scan.take_block(*field_id, data_block)
            },
            Ok(CompactingBlock::Raw) => Ok(self),
            Err(e) => {
                let mut reason = "error getting hashes for ts_family ".to_owned();
                push_decimal_u64(&mut reason, self.ts_family_id as u64);
                reason.append(" when compacting: ");
                reason.append(e.as_str());
                Err(Error::CommonError { reason })
            },
        }
    }

    /// Ends the reading: stores what is not stored yet, and gives the hashes of the fields and the
    /// number of blocks of each column.
    pub fn finish(self) -> (res: (FieldHashes, HashMap<ColumnId, usize>))
        requires
            self.wf(),
        ensures
            res.0.wf(),
            res.0@ == self@.finished_hashes(),
            counts_view(res.1@) == self@.counts,
    {
        let mut scan = self;
        if let Some((tr, last_fid)) = scan.last {
            let hash = finalize(&scan.hasher);
            scan.hashes.push(last_fid, tr, hash);
        }
        (scan.hashes, scan.counts)
    }
}

/// The first error among some blocks is the error of all of them.
pub proof fn law_first_error(config: ScanConfig, blocks: Seq<NextBlock>, n: int)
    requires
        0 <= n <= blocks.len(),
        scan(config, blocks.take(n)) is Err,
    ensures
        scan(config, blocks) == scan(config, blocks.take(n)),
    decreases blocks.len() - n,
{
    if n == blocks.len() {
        assert(blocks.take(n) =~= blocks);
    } else {
        assert(blocks.take(n + 1).drop_last() =~= blocks.take(n));
        law_first_error(config, blocks, n + 1);
    }
}

/// The number of blocks that came for a column whose data is hashed.
pub open spec fn blocks_of_column(
    config: ScanConfig,
    blocks: Seq<NextBlock>,
    column_id: ColumnId,
) -> nat
    decreases blocks.len(),
{
    if blocks.len() == 0 {
        0
    } else {
        let earlier = blocks_of_column(config, blocks.drop_last(), column_id);
        match blocks.last() {
            Ok(CompactingBlock::DataBlock { field_id, .. }) => if column_of(field_id) == column_id
                && config.columns.contains(column_id) {
                earlier + 1
            } else {
                earlier
            },
            _ => earlier,
        }
    }
}

/// The counters hold, for each column, the number of blocks that came for it, empty ones
/// included.
pub proof fn law_counts(config: ScanConfig, blocks: Seq<NextBlock>, column_id: ColumnId)
    requires
        scan(config, blocks) is Ok,
    ensures
        ({
            let counts = scan(config, blocks)->Ok_0.counts;
            let n = blocks_of_column(config, blocks, column_id);
            &&& counts.contains_key(column_id) <==> n > 0
            &&& n > 0 ==> counts[column_id] == n
            &&& n <= blocks.len()
        }),
    decreases blocks.len(),
{
    if blocks.len() > 0 {
        law_counts(config, blocks.drop_last(), column_id);
    }
}

impl ScanView {
    /// What holds at every point of the reading: no field has two entries; every field with an
    /// entry belongs to a column that is hashed and for which a block came; and what is not stored
    /// yet belongs to a field with an entry.
    pub open spec fn inv(self, config: ScanConfig) -> bool {
        &&& fields_differ(self.hashes)
        &&& forall|i: int|
            0 <= i < self.hashes.len() ==> {
                let column_id = column_of((#[trigger] self.hashes[i]).field_id);
                &&& config.columns.contains(column_id)
                &&& self.counts.contains_key(column_id)
                &&& self.counts[column_id] > 0
            }
        &&& self.last matches Some((_, field_id)) ==> has_field(self.hashes, field_id)
    }
}

/// Storing a hash keeps the fields and their order, but for a new field at the end.
pub(crate) proof fn lemma_with_hash(entries: Seq<FieldEntryView>, field_id: FieldId, hash: RangeHash)
    requires
        fields_differ(entries),
    ensures
        fields_differ(with_field(entries, field_id)),
        has_field(with_field(entries, field_id), field_id),
        fields_differ(with_hash(entries, field_id, hash)),
        has_field(with_hash(entries, field_id, hash), field_id),
        with_hash(entries, field_id, hash).len() == with_field(entries, field_id).len(),
        forall|i: int|
            0 <= i < with_field(entries, field_id).len() ==> (#[trigger] with_hash(
                entries,
                field_id,
                hash,
            )[i]).field_id == with_field(entries, field_id)[i].field_id,
{
    let added = with_field(entries, field_id);
    let stored = with_hash(entries, field_id, hash);
    if !has_field(entries, field_id) {
        assert(added[entries.len() as int].field_id == field_id);
    }
    let k = choose|k: int| 0 <= k < added.len() && #[trigger] added[k].field_id == field_id;
    assert(stored[k].field_id == field_id);
    assert forall|i: int, j: int| 0 <= i < j < stored.len() implies #[trigger] stored[i].field_id
        != #[trigger] stored[j].field_id by {
        assert(added[i].field_id != added[j].field_id);
    }
}

/// A step keeps what holds at every point of the reading.
proof fn lemma_step_inv(config: ScanConfig, state: ScanView, next: NextBlock)
    requires
        state.inv(config),
        state.step(config, next) is Ok,
    ensures
        state.step(config, next)->Ok_0.inv(config),
{
    if let Ok(CompactingBlock::DataBlock { field_id, data_block }) = next {
        let column_id = column_of(field_id);
        if config.columns.contains(column_id) {
            let counted = state.count(column_id);
            assert(counted.inv(config));
            let stored = counted.store_other(field_id);
            if let Some((range, last_field)) = counted.last {
                if last_field != field_id {
                    let hash = (range, digest(counted.pending));
                    lemma_with_hash(counted.hashes, last_field, hash);
                }
            }
            assert(stored.inv(config));
            let after = state.step(config, next)->Ok_0;
            if data_block.span() is Some {
                let first = data_block.timestamps().first();
                let nanos = config.time_range_nanosec;
                let (min_ts, max_ts) = block_partial_time_range(first, nanos, nanos)->Ok_0;
                let range = TimeRange { min_ts: min_ts as i64, max_ts: max_ts as i64 };
                let head = stored.pending + partial_bytes(data_block, 0, range.max_ts);
                let hash = (range, digest(head));
                lemma_with_hash(stored.hashes, field_id, hash);
                lemma_with_hash(with_field(stored.hashes, field_id), field_id, hash);
            }
            assert(after.inv(config));
        }
    }
}

/// At every point of the reading no field has two entries, every field with an entry belongs to a
/// column that is hashed and for which a block came, and what is not stored yet belongs to a field
/// with an entry.
pub proof fn law_scan_inv(config: ScanConfig, blocks: Seq<NextBlock>)
    requires
        scan(config, blocks) is Ok,
    ensures
        scan(config, blocks)->Ok_0.inv(config),
    decreases blocks.len(),
{
    if blocks.len() > 0 {
        law_scan_inv(config, blocks.drop_last());
        lemma_step_inv(config, scan(config, blocks.drop_last())->Ok_0, blocks.last());
    }
}

/// The end of the reading gives no new entry: the fields are those of the last state.
pub proof fn law_finished_fields(config: ScanConfig, state: ScanView)
    requires
        state.inv(config),
    ensures
        fields_differ(state.finished_hashes()),
        state.finished_hashes().len() == state.hashes.len(),
        forall|i: int|
            0 <= i < state.hashes.len() ==> (#[trigger] state.finished_hashes()[i]).field_id
                == state.hashes[i].field_id,
{
    if let Some((range, field_id)) = state.last {
        lemma_with_hash(state.hashes, field_id, (range, digest(state.pending)));
    }
}

/// Reads a time series family: the hashes of its fields by time range, and the number of blocks of
/// each column. The columns whose data is hashed are those of `names`. The first error ends the
/// reading.
pub fn read_from_compact_iterator(
    blocks: &Vec<NextBlock>,
    ts_family_id: TseriesFamilyId,
    time_range_nanosec: i64,
    names: &ColumnNames,
) -> (res: Result<(FieldHashes, HashMap<ColumnId, usize>), Error>)
    requires
        blocks_fit(
            ScanConfig { ts_family_id, time_range_nanosec, columns: names@.dom() },
            blocks@,
        ),
    ensures
        ({
            let config = ScanConfig { ts_family_id, time_range_nanosec, columns: names@.dom() };
            match res {
                Ok((hashes, counts)) => {
                    &&& scan(config, blocks@) matches Ok(state)
                    &&& hashes@ == state.finished_hashes()
                    &&& counts_view(counts@) == state.counts
                    &&& hashes.wf()
                },
                Err(e) => scan(config, blocks@) == Err::<ScanView, ErrorView>(e@),
            }
        }),
{
    let ghost config = ScanConfig { ts_family_id, time_range_nanosec, columns: names@.dom() };
    let mut state = HashScan::new(ts_family_id, time_range_nanosec);
    let mut i: usize = 0;
    let len: usize = blocks.len();
    assert(blocks@.take(0) =~= Seq::empty());
    while i < len
        invariant
            i <= len,
            len == blocks@.len(),
            config == (ScanConfig { ts_family_id, time_range_nanosec, columns: names@.dom() }),
            blocks_fit(config, blocks@),
            state.wf(),
            state.config(names@.dom()) == config,
            scan(config, blocks@.take(i as int)) == Ok::<ScanView, ErrorView>(state@),
        decreases len - i,
    {
        proof {
            let longer = blocks@.take(i + 1);
            assert(longer.drop_last() =~= blocks@.take(i as int));
            assert(longer.last() == blocks@[i as int]);
            assert(block_fits(config, blocks@[i as int]));
            if let Ok(CompactingBlock::DataBlock { field_id, .. }) = blocks@[i as int] {
                law_counts(config, blocks@.take(i as int), column_of(field_id));
            }
        }
        match state.step(&blocks[i], names) {
            Ok(next) => {
                state = next;
            },
            Err(e) => {
                proof {
                    law_first_error(config, blocks@, i + 1);
                }
                return Err(e);
            },
        }
        i += 1;
    }
    assert(blocks@.take(i as int) =~= blocks@);
    Ok(state.finish())
}

} // verus!
