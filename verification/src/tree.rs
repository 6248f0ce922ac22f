//! The hash tree of a time series family, put together from the hashes of its fields.
use crate::hasher::{finalize, hasher_input, hasher_mode};
use crate::node::{
    ColumnHashTreeNode, ColumnNodeView, TableHashTreeNode, TableNodeView, TimeRangeHashTreeNode,
    TimeRangeNodeView,
};
use crate::scan::{counts_view, digest, entry_views, FieldEntry, FieldEntryView, RangeHash};
use crate::schema::{column_of, split_id, ColumnId, ColumnNameView, ColumnNames};
use crate::time::TimeRange;
use crate::tree_laws::{
    column_node, fields_of_column, has_column, law_column_complete, law_tables_differ,
};
use blake3::Hasher;
use std::collections::HashMap;
use vstd::prelude::*;

verus! {

broadcast use vstd::std_specs::hash::group_hash_axioms;

/// Time ranges and the bytes that were fed for each, with some bytes fed for one more. The time
/// ranges stay in order; bytes for a range that is there come behind those that it has.
pub open spec fn feed(fed: Seq<RangeHash>, range: TimeRange, bytes: Seq<u8>) -> Seq<RangeHash>
    decreases fed.len(),
{
    if fed.len() == 0 {
        seq![(range, bytes)]
    } else if fed.last().0 == range {
        fed.drop_last().push((range, fed.last().1 + bytes))
    } else if range.before(fed.last().0) {
        feed(fed.drop_last(), range, bytes).push(fed.last())
    } else {
        fed.push((range, bytes))
    }
}

/// Time ranges and the bytes that were fed for each, with some hashes fed one after the other.
pub open spec fn feed_all(fed: Seq<RangeHash>, hashes: Seq<RangeHash>) -> Seq<RangeHash>
    decreases hashes.len(),
{
    if hashes.len() == 0 {
        fed
    } else {
        feed(feed_all(fed, hashes.drop_last()), hashes.last().0, hashes.last().1)
    }
}

/// Whether every time range comes before the next one.
pub open spec fn ranges_ascend(fed: Seq<RangeHash>) -> bool {
    forall|i: int, j: int|
        0 <= i < j < fed.len() ==> (#[trigger] fed[i]).0.before((#[trigger] fed[j]).0)
}

/// One hasher for each of some time ranges, in the order of the ranges.
struct RangeHashers {
    items: Vec<(TimeRange, Hasher)>,
}

impl View for RangeHashers {
    type V = Seq<RangeHash>;

    closed spec fn view(&self) -> Seq<RangeHash> {
        self.items@.map_values(|h: (TimeRange, Hasher)| (h.0, hasher_input(h.1)))
    }
}

impl RangeHashers {
    /// Whether all the hashers are plain ones.
    spec fn wf(self) -> bool {
        forall|i: int|
            0 <= i < self.items@.len() ==> hasher_mode((#[trigger] self.items@[i]).1) == Seq::<
                u8,
            >::empty()
    }

    fn new() -> (hashers: Self)
        ensures
            hashers.wf(),
            hashers@ == Seq::<RangeHash>::empty(),
    {
        let hashers = RangeHashers { items: Vec::new() };
        assert(hashers@ =~= Seq::empty());
        hashers
    }

    /// Feeds a hash to the hasher of a time range.
    fn update(&mut self, range: TimeRange, hash: &crate::hasher::Hash)
        requires
            old(self).wf(),
        ensures
            final(self).wf(),
            final(self)@ == feed(old(self)@, range, hash@),
    {
        let mut i: usize = self.items.len();
        assert(self@.take(i as int) =~= self@);
        assert(feed(self@, range, hash@) =~= feed(self@.take(i as int), range, hash@) + self@.skip(
            i as int,
        ));
        while i > 0 && range.is_before(&self.items[i - 1].0)
            invariant
                i <= self.items@.len(),
                self.wf(),
                *self == *old(self),
                feed(self@, range, hash@) == feed(self@.take(i as int), range, hash@) + self@.skip(
                    i as int,
                ),
            decreases i,
        {
            proof {
                let shorter = self@.take(i - 1);
                assert(self@.take(i as int).drop_last() =~= shorter);
                assert(self@.take(i as int).last() == self@[i - 1]);
                assert(feed(self@, range, hash@) =~= feed(shorter, range, hash@) + self@.skip(
                    i - 1,
                ));
            }
            i -= 1;
        }
        let ghost before = self@;
        let ghost kept = self@.take(i as int);
        proof {
            if i > 0 {
                assert(kept.drop_last() =~= self@.take(i - 1));
                assert(kept.last() == self@[i - 1]);
            }
        }
        if i > 0 && self.items[i - 1].0 == range {
            self.items[i - 1].1.update(hash.as_slice());
            assert(self@ =~= feed(kept, range, hash@) + before.skip(i as int));
        } else {
            let mut hasher = Hasher::new();
            hasher.update(hash.as_slice());
            assert(hasher_input(hasher) =~= hash@);
            self.items.insert(i, (range, hasher));
            assert(self@ =~= feed(kept, range, hash@) + before.skip(i as int));
        }
    }
}

/// The nodes of some time ranges: each with the hash of the bytes that were fed for it.
pub open spec fn range_nodes(fed: Seq<RangeHash>) -> Seq<TimeRangeNodeView> {
    fed.map_values(
        |h: RangeHash|
            TimeRangeNodeView { min_ts: h.0.min_ts, max_ts: h.0.max_ts, hash: digest(h.1) },
    )
}

/// Whether there is a node of the table.
pub open spec fn has_table(tables: Seq<TableNodeView>, table: Seq<char>) -> bool {
    exists|i: int| 0 <= i < tables.len() && #[trigger] tables[i].table == table
}

/// Whether no two nodes are of the same table.
pub open spec fn tables_differ(tables: Seq<TableNodeView>) -> bool {
    forall|i: int, j: int|
        0 <= i < j < tables.len() ==> #[trigger] tables[i].table != #[trigger] tables[j].table
}

/// The tables with a column put behind those of its table, which comes last where it is new.
pub open spec fn with_column(
    tables: Seq<TableNodeView>,
    table: Seq<char>,
    column: ColumnNodeView,
) -> Seq<TableNodeView> {
    if has_table(tables, table) {
        tables.map_values(
            |t: TableNodeView|
                if t.table == table {
                    TableNodeView { table, columns: t.columns.push(column) }
                } else {
                    t
                },
        )
    } else {
        tables.push(TableNodeView { table, columns: seq![column] })
    }
}

/// How far a hash tree has come.
pub struct TreeView {
    /// The names of the columns that have no node yet.
    pub names: Map<ColumnId, ColumnNameView>,
    /// How many fields of each column are still to come.
    pub counts: Map<ColumnId, nat>,
    /// What was fed for the columns that have no node yet.
    pub fed: Map<ColumnId, Seq<RangeHash>>,
    /// The nodes of the tables.
    pub tables: Seq<TableNodeView>,
}

impl TreeView {
    pub open spec fn initial(
        names: Map<ColumnId, ColumnNameView>,
        counts: Map<ColumnId, nat>,
    ) -> TreeView {
        TreeView { names, counts, fed: Map::empty(), tables: Seq::empty() }
    }

    /// What was fed for a column.
    pub open spec fn fed_for(self, column_id: ColumnId) -> Seq<RangeHash> {
        if self.fed.contains_key(column_id) {
            self.fed[column_id]
        } else {
            Seq::empty()
        }
    }

    /// Whether a field is used: it has hashes, and its column has a name and no node yet.
    pub open spec fn uses(self, entry: FieldEntryView) -> bool {
        entry.hashes.len() > 0 && self.names.contains_key(column_of(entry.field_id))
    }

    /// Whether the counter of the column of a field that is used, if there is one, is not down to
    /// zero.
    pub open spec fn ready(self, entry: FieldEntryView) -> bool {
        let column_id = column_of(entry.field_id);
        self.uses(entry) && self.counts.contains_key(column_id) ==> self.counts[column_id] > 0
    }

    /// What a field makes of the state: its hashes are fed for its column, and once the last field
    /// of the column has come, the column gets its node.
    pub open spec fn add_field(self, entry: FieldEntryView) -> TreeView {
        let column_id = column_of(entry.field_id);
        let fed = feed_all(self.fed_for(column_id), entry.hashes);
        if !self.uses(entry) {
            self
        } else if !self.counts.contains_key(column_id) {
            TreeView { fed: self.fed.insert(column_id, fed), ..self }
        } else if self.counts[column_id] != 1 {
            TreeView {
                fed: self.fed.insert(column_id, fed),
                counts: self.counts.insert(column_id, (self.counts[column_id] - 1) as nat),
                ..self
            }
        } else {
            let name = self.names[column_id];
            TreeView {
                names: self.names.remove(column_id),
                counts: self.counts.insert(column_id, 0),
                fed: self.fed.remove(column_id),
                tables: with_column(
                    self.tables,
                    name.table,
                    ColumnNodeView { column: name.column, values: range_nodes(fed) },
                ),
            }
        }
    }

    /// What some fields make of the state, one after the other.
    pub open spec fn add_fields(self, entries: Seq<FieldEntryView>) -> TreeView
        decreases entries.len(),
    {
        if entries.len() == 0 {
            self
        } else {
            self.add_fields(entries.drop_last()).add_field(entries.last())
        }
    }
}

/// The nodes of some tables.
pub open spec fn table_views(tables: Seq<TableHashTreeNode>) -> Seq<TableNodeView> {
    tables.map_values(|t: TableHashTreeNode| t@)
}

/// A hash tree in the making.
struct TreeBuilder {
    names: ColumnNames,
    counts: HashMap<ColumnId, usize>,
    fed: HashMap<ColumnId, RangeHashers>,
    tables: Vec<TableHashTreeNode>,
}

impl View for TreeBuilder {
    type V = TreeView;

    closed spec fn view(&self) -> TreeView {
        TreeView {
            names: self.names@,
            counts: counts_view(self.counts@),
            fed: self.fed@.map_values(|h: RangeHashers| h@),
            tables: table_views(self.tables@),
        }
    }
}

impl TreeBuilder {
    spec fn wf(self) -> bool {
        &&& forall|c: ColumnId| #[trigger] self.fed@.contains_key(c) ==> self.fed@[c].wf()
        &&& tables_differ(table_views(self.tables@))
    }

    fn new(names: ColumnNames, counts: HashMap<ColumnId, usize>) -> (builder: Self)
        ensures
            builder.wf(),
            builder@ == TreeView::initial(names@, counts_view(counts@)),
    {
        let builder = TreeBuilder { names, counts, fed: HashMap::new(), tables: Vec::new() };
        assert(builder@.fed =~= Map::empty());
        assert(builder@.tables =~= Seq::empty());
        builder
    }

    /// Takes the hashers of a column and feeds the hashes of a field to them.
    fn take_fed(&mut self, column_id: ColumnId, entry: &FieldEntry) -> (hashers: RangeHashers)
        requires
            old(self).wf(),
        ensures
            hashers.wf(),
            hashers@ == feed_all(old(self)@.fed_for(column_id), entry@.hashes),
            final(self).wf(),
            final(self)@ == (TreeView { fed: old(self)@.fed.remove(column_id), ..old(self)@ }),
    {
        let mut hashers = match self.fed.remove(&column_id) {
            Some(hashers) => hashers,
            None => RangeHashers::new(),
        };
        assert(self@.fed =~= old(self)@.fed.remove(column_id));
        let ghost start = hashers@;
        assert(start == old(self)@.fed_for(column_id));
        let mut i: usize = 0;
        assert(entry@.hashes.take(0) =~= Seq::empty());
        while i < entry.hashes.len()
            invariant
                i <= entry.hashes@.len(),
                hashers.wf(),
                hashers@ == feed_all(start, entry@.hashes.take(i as int)),
            decreases entry.hashes@.len() - i,
        {
            let (tr, hash) = &entry.hashes[i];
            hashers.update(*tr, hash);
            proof {
                let longer = entry@.hashes.take(i + 1);
                assert(longer.drop_last() =~= entry@.hashes.take(i as int));
                assert(longer.last() == entry@.hashes[i as int]);
            }
            i += 1;
        }
        assert(entry@.hashes.take(i as int) =~= entry@.hashes);
        hashers
    }

    /// The node of a column: the hash of what was fed for each time range.
    fn column_node(column: String, hashers: &RangeHashers) -> (node: ColumnHashTreeNode)
        requires
            hashers.wf(),
        ensures
            node@ == (ColumnNodeView { column: column@, values: range_nodes(hashers@) }),
    {
        let mut node = ColumnHashTreeNode::with_capacity(column, hashers.items.len());
        let mut i: usize = 0;
        while i < hashers.items.len()
            invariant
                i <= hashers.items@.len(),
                hashers.wf(),
                node@.column == column@,
                node@.values =~= range_nodes(hashers@.take(i as int)),
            decreases hashers.items@.len() - i,
        {
            let hash = finalize(&hashers.items[i].1);
            node.push(TimeRangeHashTreeNode::new(hashers.items[i].0, hash));
            i += 1;
        }
        assert(hashers@.take(i as int) =~= hashers@);
        node
    }

    /// Puts a column behind those of its table, which comes last where it is new.
    fn push_column(&mut self, table: String, node: ColumnHashTreeNode)
        requires
            old(self).wf(),
        ensures
            final(self).wf(),
            final(self)@ == (TreeView {
                tables: with_column(old(self)@.tables, table@, node@),
                ..old(self)@
            }),
    {
        let ghost before = self@.tables;
        let mut i: usize = 0;
        while i < self.tables.len()
            invariant
                i <= self.tables@.len(),
                *self == *old(self),
                self.wf(),
                before == self@.tables,
                forall|k: int| 0 <= k < i ==> #[trigger] before[k].table != table@,
            decreases self.tables@.len() - i,
        {
            assert(before[i as int] == self.tables@[i as int]@);
            if self.tables[i].table == table {
                let ghost old_node = self.tables@[i as int];
                let ghost column = node@;
                self.tables[i].push(node);
                proof {
                    assert(has_table(before, table@));
                    assert(self.tables@[i as int]@.columns == old_node@.columns.push(column));
                    assert(self@.tables =~= with_column(before, table@, column));
                }
                return ;
            }
            i += 1;
        }
        assert(!has_table(before, table@));
        let mut table_node = TableHashTreeNode::with_capacity(table, self.counts.len());
        let ghost column = node@;
        table_node.push(node);
        assert(table_node@.columns =~= seq![column]);
        self.tables.push(table_node);
        assert(self@.tables =~= with_column(before, table@, column));
    }

    /// Takes the hashes of a field.
    fn add_field(&mut self, entry: &FieldEntry)
        requires
            old(self).wf(),
            old(self)@.ready(entry@),
        ensures
            final(self).wf(),
            final(self)@ == old(self)@.add_field(entry@),
    {
        if entry.hashes.len() == 0 {
            return ;
        }
        let (column_id, _) = split_id(entry.field_id);
        if !self.names.contains(column_id) {
            return ;
        }
        let ghost before = self@;
        let hashers = self.take_fed(column_id, entry);
        let ghost fed = hashers@;
        let ghost others = self@.fed;
        let count: Option<usize> = match self.counts.get(&column_id) {
            Some(count) => Some(*count),
            None => None,
        };
        match count {
            None => {
                self.fed.insert(column_id, hashers);
                assert(self@.fed =~= others.insert(column_id, fed));
                assert(self@.fed =~= before.fed.insert(column_id, fed));
            },
            Some(count) => {
                let left: usize = count - 1;
                self.counts.insert(column_id, left);
                assert(self@.counts =~= before.counts.insert(column_id, left as nat));
                if left == 0 {
                    match self.names.names.remove(&column_id) {
                        Some(name) => {
                            assert(self@.names =~= before.names.remove(column_id));
                            let node = TreeBuilder::column_node(name.column, &hashers);
                            self.push_column(name.table, node);
                        },
                        None => {
                            assert(false);
                        },
                    }
                } else {
                    self.fed.insert(column_id, hashers);
                    assert(self@.fed =~= others.insert(column_id, fed));
                    assert(self@.fed =~= before.fed.insert(column_id, fed));
                }
            },
        }
    }
}

/// A field that is ready stays so when another one that is ready is taken.
proof fn lemma_stays_ready(state: TreeView, entry: FieldEntryView, later: FieldEntryView)
    requires
        state.ready(entry),
        state.ready(later),
    ensures
        state.add_field(entry).ready(later),
{
}

/// Puts the hash tree together: each column gets a node once as many of its fields have come as
/// its counter says. The fields come in the order in which `entries` holds them, which may be any.
pub fn build_hash_tree(
    entries: &Vec<FieldEntry>,
    counts: HashMap<ColumnId, usize>,
    names: ColumnNames,
) -> (tables: Vec<TableHashTreeNode>)
    requires
        forall|i: int|
            0 <= i < entries@.len() ==> TreeView::initial(names@, counts_view(counts@)).ready(
                (#[trigger] entries@[i])@,
            ),
    ensures
        table_views(tables@) == TreeView::initial(names@, counts_view(counts@)).add_fields(
            entry_views(entries@),
        ).tables,
        tables_differ(table_views(tables@)),
        forall|c: ColumnId| #[trigger]
            names@.contains_key(c) && counts@.contains_key(c) && 0 < counts@[c]
                == fields_of_column(entry_views(entries@), c) ==> has_column(
                table_views(tables@),
                names@[c].table,
                column_node(names@[c], entry_views(entries@), c),
            ),
{
    proof {
        let fields = entry_views(entries@);
        law_tables_differ(names@, counts_view(counts@), fields);
        assert forall|c: ColumnId| #[trigger]
            names@.contains_key(c) && counts@.contains_key(c) && 0 < counts@[c]
                == fields_of_column(fields, c) implies has_column(
            TreeView::initial(names@, counts_view(counts@)).add_fields(fields).tables,
            names@[c].table,
            column_node(names@[c], fields, c),
        ) by {
            law_column_complete(names@, counts_view(counts@), fields, c);
        }
    }
    let ghost start = TreeView::initial(names@, counts_view(counts@));
    let ghost fields = entry_views(entries@);
    let mut builder = TreeBuilder::new(names, counts);
    let mut i: usize = 0;
    assert(fields.take(0) =~= Seq::empty());
    while i < entries.len()
        invariant
            i <= entries@.len(),
            fields == entry_views(entries@),
            builder.wf(),
            builder@ == start.add_fields(fields.take(i as int)),
            forall|k: int| i <= k < entries@.len() ==> builder@.ready((#[trigger] entries@[k])@),
        decreases entries@.len() - i,
    {
        let entry = &entries[i];
        proof {
            let longer = fields.take(i + 1);
            assert(longer.drop_last() =~= fields.take(i as int));
            assert(longer.last() == entry@);
            assert(builder@.ready(entries@[i as int]@));
            assert forall|k: int| i < k < entries@.len() implies builder@.add_field(entry@).ready(
                (#[trigger] entries@[k])@,
            ) by {
                lemma_stays_ready(builder@, entry@, entries@[k]@);
            }
        }
        builder.add_field(entry);
        i += 1;
    }
    assert(fields.take(i as int) =~= fields);
    builder.tables
}

} // verus!
