//! Tables, their columns, and the names behind column ids.
use crate::error::{Error, ErrorView, SchemaError};
use std::collections::HashMap;
use vstd::prelude::*;

verus! {

broadcast use vstd::std_specs::hash::group_hash_axioms;

/// Identifies a column.
pub type ColumnId = u32;

/// Identifies a series within a column.
pub type SeriesId = u32;

/// Identifies a field: a series of a column.
pub type FieldId = u64;

/// Identifies a time series family.
pub type TseriesFamilyId = u32;

/// The column that a field belongs to: the upper half of the field's id.
pub open spec fn column_of(field_id: FieldId) -> ColumnId {
    (field_id / 0x1_0000_0000) as u32
}

/// The column and the series of a field: the upper and the lower half of its id.
pub fn split_id(field_id: FieldId) -> (ids: (ColumnId, SeriesId))
    ensures
        ids.0 == column_of(field_id),
        ids.0 == field_id / 0x1_0000_0000,
        ids.1 == field_id % 0x1_0000_0000,
        ids.0 * 0x1_0000_0000 + ids.1 == field_id,
{
    ((field_id / 0x1_0000_0000) as u32, (field_id % 0x1_0000_0000) as u32)
}

/// The type of the values of a field.
#[derive(Debug, Clone, Copy, PartialEq, Eq, Structural)]
pub enum ValueType {
    Unknown,
    Float,
    Integer,
    Unsigned,
    Boolean,
    String,
}

/// What a column holds.
#[derive(Debug, Clone, Copy, PartialEq, Eq, Structural)]
pub enum ColumnType {
    Tag,
    Time,
    Field(ValueType),
}

/// A column of a table.
#[derive(Debug)]
pub struct TableColumn {
    pub id: ColumnId,
    pub name: String,
    pub column_type: ColumnType,
}

/// A table and what the look-up of its schema gave: the columns, nothing where there is no
/// schema, or an error.
#[derive(Debug)]
pub struct TableSchema {
    pub table: String,
    pub columns: Result<Option<Vec<TableColumn>>, SchemaError>,
}

/// The name of a column and of its table.
#[derive(Debug)]
pub struct ColumnName {
    pub table: String,
    pub column: String,
}

/// The name of a column and of its table, as sequences of characters.
pub struct ColumnNameView {
    pub table: Seq<char>,
    pub column: Seq<char>,
}

impl View for ColumnName {
    type V = ColumnNameView;

    open spec fn view(&self) -> ColumnNameView {
        ColumnNameView { table: self.table@, column: self.column@ }
    }
}

/// The names of the columns that hold fields, by column id.
#[derive(Debug)]
pub struct ColumnNames {
    pub names: HashMap<ColumnId, ColumnName>,
}

impl View for ColumnNames {
    type V = Map<ColumnId, ColumnNameView>;

    open spec fn view(&self) -> Map<ColumnId, ColumnNameView> {
        self.names@.map_values(|n: ColumnName| n@)
    }
}

/// Some names with those of a table's columns put in: of the columns that hold neither the time
/// nor a tag. A later column with the id of an earlier one takes its place.
pub open spec fn with_table(
    names: Map<ColumnId, ColumnNameView>,
    table: Seq<char>,
    columns: Seq<TableColumn>,
) -> Map<ColumnId, ColumnNameView>
    decreases columns.len(),
{
    if columns.len() == 0 {
        names
    } else {
        let earlier = with_table(names, table, columns.drop_last());
        let column = columns.last();
        if column.column_type is Field {
            earlier.insert(column.id, ColumnNameView { table, column: column.name@ })
        } else {
            earlier
        }
    }
}

/// The names that some tables give, or the first error among the look-ups of their schemas. A
/// table without a schema gives none.
pub open spec fn names_of_tables(tables: Seq<TableSchema>) -> Result<
    Map<ColumnId, ColumnNameView>,
    ErrorView,
>
    decreases tables.len(),
{
    if tables.len() == 0 {
        Ok(Map::empty())
    } else {
        match names_of_tables(tables.drop_last()) {
            Err(e) => Err(e),
            Ok(names) => match tables.last().columns {
                Ok(Some(columns)) => Ok(with_table(names, tables.last().table@, columns@)),
                Ok(None) => Ok(names),
                Err(e) => Err(ErrorView::Schema { reason: e.reason@ }),
            },
        }
    }
}

impl ColumnNames {
    /// No names at all.
    pub fn new() -> (names: Self)
        ensures
            names@ == Map::<ColumnId, ColumnNameView>::empty(),
    {
        let names = ColumnNames { names: HashMap::new() };
        assert(names@ =~= Map::empty());
        names
    }

    /// Whether the column holds a field of some table.
    pub fn contains(&self, column_id: ColumnId) -> (res: bool)
        ensures
            res == self@.contains_key(column_id),
    {
        self.names.contains_key(&column_id)
    }

    /// Puts in the names of a table's columns.
    pub fn add_table(&mut self, table: &String, columns: &Vec<TableColumn>)
        ensures
            final(self)@ == with_table(old(self)@, table@, columns@),
    {
        let ghost before = self@;
        let mut i: usize = 0;
        assert(columns@.take(0) =~= Seq::empty());
        while i < columns.len()
            invariant
                i <= columns@.len(),
                self@ == with_table(before, table@, columns@.take(i as int)),
            decreases columns@.len() - i,
        {
            let column = &columns[i];
            let ghost earlier = self@;
            if column.column_type != ColumnType::Time && column.column_type != ColumnType::Tag {
                let name = ColumnName { table: table.clone(), column: column.name.clone() };
                let ghost name_view = name@;
                self.names.insert(column.id, name);
                assert(self@ =~= earlier.insert(column.id, name_view));
            }
            proof {
                let longer = columns@.take(i + 1);
                assert(longer.drop_last() =~= columns@.take(i as int));
                assert(longer.last() == *column);
            }
            i += 1;
        }
        assert(columns@.take(i as int) =~= columns@);
    }

    /// The names that some tables give, or the first error among the look-ups of their schemas.
    pub fn from_tables(tables: &Vec<TableSchema>) -> (res: Result<ColumnNames, Error>)
        ensures
            match res {
                Ok(names) => names_of_tables(tables@) == Ok::<
                    Map<ColumnId, ColumnNameView>,
                    ErrorView,
                >(names@),
                Err(e) => names_of_tables(tables@) == Err::<
                    Map<ColumnId, ColumnNameView>,
                    ErrorView,
                >(e@),
            },
    {
        let mut names = ColumnNames::new();
        let mut i: usize = 0;
        assert(tables@.take(0) =~= Seq::empty());
        while i < tables.len()
            invariant
                i <= tables@.len(),
                names_of_tables(tables@.take(i as int)) == Ok::<
                    Map<ColumnId, ColumnNameView>,
                    ErrorView,
                >(names@),
            decreases tables@.len() - i,
        {
            let table = &tables[i];
            proof {
                let longer = tables@.take(i + 1);
                assert(longer.drop_last() =~= tables@.take(i as int));
                assert(longer.last() == *table);
            }
            match &table.columns {
                Ok(Some(columns)) => {
                    names.add_table(&table.table, columns);
                },
                Ok(None) => {},
                Err(e) => {
                    proof {
                        lemma_first_error(tables@, i + 1);
                    }
                    return Err(
                        Error::Schema { source: SchemaError { reason: e.reason.clone() } },
                    );
                },
            }
            i += 1;
        }
        assert(tables@.take(i as int) =~= tables@);
        Ok(names)
    }
}

/// An error among the first tables is the error of all of them.
proof fn lemma_first_error(tables: Seq<TableSchema>, n: int)
    requires
        0 <= n <= tables.len(),
        names_of_tables(tables.take(n)) is Err,
    ensures
        names_of_tables(tables) == names_of_tables(tables.take(n)),
    decreases tables.len() - n,
{
    if n == tables.len() {
        assert(tables.take(n) =~= tables);
    } else {
        assert(tables.take(n + 1).drop_last() =~= tables.take(n));
        lemma_first_error(tables, n + 1);
    }
}

/// A field belongs to the column from whose id, and a series, its own id was made.
pub proof fn law_column_of(column_id: ColumnId, series_id: SeriesId, field_id: FieldId)
    requires
        column_id * 0x1_0000_0000 + series_id == field_id,
    ensures
        column_of(field_id) == column_id,
{
}

/// Whether a table has, at a position, a column with the id that holds neither the time nor a tag.
pub open spec fn has_field_at(
    columns: Seq<TableColumn>,
    j: int,
    column_id: ColumnId,
) -> bool {
    &&& 0 <= j < columns.len()
    &&& columns[j].id == column_id
    &&& columns[j].column_type != ColumnType::Time
    &&& columns[j].column_type != ColumnType::Tag
}

/// The columns of a table, none where it has no schema.
pub open spec fn columns_of(table: TableSchema) -> Seq<TableColumn> {
    match table.columns {
        Ok(Some(columns)) => columns@,
        _ => Seq::empty(),
    }
}

proof fn lemma_with_table(
    names: Map<ColumnId, ColumnNameView>,
    table: Seq<char>,
    columns: Seq<TableColumn>,
    column_id: ColumnId,
)
    ensures
        ({
            let after = with_table(names, table, columns);
            &&& after.contains_key(column_id) <==> names.contains_key(column_id) || exists|j: int|
                has_field_at(columns, j, column_id)
            &&& (forall|j: int| !has_field_at(columns, j, column_id)) && names.contains_key(
                column_id,
            ) ==> after[column_id] == names[column_id]
            &&& forall|j: int| #[trigger]
                has_field_at(columns, j, column_id) && (forall|k: int|
                    j < k ==> !has_field_at(columns, k, column_id)) ==> after[column_id]
                    == (ColumnNameView { table, column: columns[j].name@ })
        }),
    decreases columns.len(),
{
    if columns.len() > 0 {
        let init = columns.drop_last();
        let n = columns.len() - 1;
        lemma_with_table(names, table, init, column_id);
        assert forall|j: int| 0 <= j < n implies has_field_at(columns, j, column_id)
            == #[trigger] has_field_at(init, j, column_id) by {}
        let before = with_table(names, table, init);
        let after = with_table(names, table, columns);
        if exists|j: int| has_field_at(init, j, column_id) {
            let j = choose|j: int| has_field_at(init, j, column_id);
            assert(has_field_at(columns, j, column_id));
        }
        if exists|j: int| has_field_at(columns, j, column_id) {
            let j = choose|j: int| has_field_at(columns, j, column_id);
            if j < n {
                assert(has_field_at(init, j, column_id));
            }
        }
        if has_field_at(columns, n, column_id) {
            assert(columns[n].column_type is Field);
        }
        assert forall|j: int| #[trigger]
            has_field_at(columns, j, column_id) && (forall|k: int|
                j < k ==> !has_field_at(columns, k, column_id)) implies after[column_id] == (
        ColumnNameView { table, column: columns[j].name@ }) by {
            if j < n {
                assert(!has_field_at(columns, n, column_id));
                assert(has_field_at(init, j, column_id));
                assert forall|k: int| j < k implies !has_field_at(init, k, column_id) by {
                    if has_field_at(init, k, column_id) {
                        assert(has_field_at(columns, k, column_id));
                    }
                }
            }
        }
        if forall|j: int| !has_field_at(columns, j, column_id) {
            assert(!has_field_at(columns, n, column_id));
            assert forall|j: int| !has_field_at(init, j, column_id) by {
                if has_field_at(init, j, column_id) {
                    assert(has_field_at(columns, j, column_id));
                }
            }
        }
    }
}

/// The names of some tables can be had exactly where no look-up of a schema failed; else the first
/// failure is reported.
pub proof fn law_names_or_first_error(tables: Seq<TableSchema>, n: int)
    requires
        0 <= n <= tables.len(),
        forall|i: int| 0 <= i < n ==> (#[trigger] tables[i]).columns is Ok,
        n < tables.len() ==> tables[n].columns is Err,
    ensures
        n == tables.len() ==> names_of_tables(tables) is Ok,
        n < tables.len() ==> names_of_tables(tables) == Err::<
            Map<ColumnId, ColumnNameView>,
            ErrorView,
        >(ErrorView::Schema { reason: tables[n].columns->Err_0.reason@ }),
    decreases tables.len(),
{
    if tables.len() > 0 {
        let init = tables.drop_last();
        let last = tables[tables.len() - 1];
        assert forall|i: int| 0 <= i < n && i < init.len() implies (
        #[trigger] init[i]).columns is Ok by {
            assert(tables[i].columns is Ok);
        }
        if n == tables.len() {
            assert(tables[n - 1].columns is Ok);
            law_names_or_first_error(init, n - 1);
        } else {
            law_names_or_first_error(init, n);
        }
        assert(tables.last() == last);
    }
}

/// A column id has a name exactly where some table has a column with that id that holds neither
/// the time nor a tag. The last such column, in the last such table, gives the name and the table.
pub proof fn law_names(tables: Seq<TableSchema>, column_id: ColumnId)
    requires
        names_of_tables(tables) is Ok,
    ensures
        ({
            let names = names_of_tables(tables)->Ok_0;
            &&& names.dom().finite()
            &&& names.contains_key(column_id) <==> exists|i: int, j: int|
                0 <= i < tables.len() && #[trigger] has_field_at(
                    columns_of(tables[i]),
                    j,
                    column_id,
                )
            &&& forall|i: int, j: int|
                0 <= i < tables.len() && #[trigger] has_field_at(
                    columns_of(tables[i]),
                    j,
                    column_id,
                ) && (forall|k: int| j < k ==> !has_field_at(columns_of(tables[i]), k, column_id))
                    && (forall|h: int, k: int|
                    i < h < tables.len() ==> !#[trigger] has_field_at(
                        columns_of(tables[h]),
                        k,
                        column_id,
                    )) ==> names[column_id] == (ColumnNameView {
                    table: tables[i].table@,
                    column: columns_of(tables[i])[j].name@,
                })
        }),
    decreases tables.len(),
{
    if tables.len() > 0 {
        let init = tables.drop_last();
        let n = tables.len() - 1;
        law_names(init, column_id);
        let before = names_of_tables(init)->Ok_0;
        let names = names_of_tables(tables)->Ok_0;
        let columns = columns_of(tables[n]);
        lemma_with_table(before, tables[n].table@, columns, column_id);
        lemma_with_table_finite(before, tables[n].table@, columns);
        assert(names == with_table(before, tables[n].table@, columns));
        if before.contains_key(column_id) {
            let (i, j) = choose|i: int, j: int|
                0 <= i < init.len() && #[trigger] has_field_at(columns_of(init[i]), j, column_id);
            assert(has_field_at(columns_of(tables[i]), j, column_id));
        }
        if exists|j: int| has_field_at(columns, j, column_id) {
            let j = choose|j: int| has_field_at(columns, j, column_id);
            assert(has_field_at(columns_of(tables[n]), j, column_id));
        }
        if exists|i: int, j: int|
            0 <= i < tables.len() && #[trigger] has_field_at(columns_of(tables[i]), j, column_id) {
            let (i, j) = choose|i: int, j: int|
                0 <= i < tables.len() && #[trigger] has_field_at(
                    columns_of(tables[i]),
                    j,
                    column_id,
                );
            if i < n {
                assert(has_field_at(columns_of(init[i]), j, column_id));
            }
        }
        assert forall|i: int, j: int|
            0 <= i < tables.len() && #[trigger] has_field_at(columns_of(tables[i]), j, column_id)
                && (forall|k: int| j < k ==> !has_field_at(columns_of(tables[i]), k, column_id))
                && (forall|h: int, k: int|
                i < h < tables.len() ==> !#[trigger] has_field_at(
                    columns_of(tables[h]),
                    k,
                    column_id,
                )) implies names[column_id] == (ColumnNameView {
            table: tables[i].table@,
            column: columns_of(tables[i])[j].name@,
        }) by {
            if i < n {
                assert(has_field_at(columns_of(init[i]), j, column_id));
                assert forall|k: int| !has_field_at(columns, k, column_id) by {
                    assert(!has_field_at(columns_of(tables[n]), k, column_id));
                }
                assert forall|h: int, k: int| i < h < init.len() implies !#[trigger] has_field_at(
                    columns_of(init[h]),
                    k,
                    column_id,
                ) by {
                    assert(!has_field_at(columns_of(tables[h]), k, column_id));
                }
            }
        }
    }
}

proof fn lemma_with_table_finite(
    names: Map<ColumnId, ColumnNameView>,
    table: Seq<char>,
    columns: Seq<TableColumn>,
)
    requires
        names.dom().finite(),
    ensures
        with_table(names, table, columns).dom().finite(),
    decreases columns.len(),
{
    if columns.len() > 0 {
        lemma_with_table_finite(names, table, columns.drop_last());
    }
}

/// The names show every column id that they hold, with its table and its column.
pub proof fn law_column_names_view(names: ColumnNames)
    ensures
        names@.dom() == names.names@.dom(),
        forall|c: ColumnId| #[trigger]
            names.names@.contains_key(c) ==> names@[c].table == names.names@[c].table@
                && names@[c].column == names.names@[c].column@,
{
    assert(names@.dom() =~= names.names@.dom());
}

} // verus!
