//! The table: a named schema of columns, its primary-key columns, an ordered
//! row list, and the secondary indexes kept consistent with it. A row is one
//! cell per declared column, in schema order; a row's position in the list is
//! the identifier every index uses, so every operation that moves rows
//! renumbers or rebuilds the indexes it touches.

use vstd::prelude::*;
use vstd::string::StrSliceExecFns;
use vstd::string::StringExecFns;

use crate::column::{ColModel, Column};
use crate::errors::DBError;
use crate::filter::{cond_matches, cond_ok, Cond, FilterCondition};
use crate::sort::{sort_descending, SortCondition};
use crate::index::{
    build_entries, entries_model, entry_sound, find_entry, index_covers, index_entries_wf,
    rows_model, IndexEntry, IndexModel, SecondaryIndex,
};
use crate::value::{str_eq, val_data_type, val_fits, val_le, DataType, FieldValue, Val};

verus! {

broadcast use vstd::seq::Seq::lemma_push_map_commute;

/// A table of typed rows.
#[derive(Debug)]
pub struct Table {
    pub(crate) name: String,
    pub(crate) columns: Vec<Column>,
    pub(crate) primary_keys: Vec<Column>,
    pub(crate) rows: Vec<Vec<FieldValue>>,
    pub(crate) indexes: Vec<SecondaryIndex>,
    pub(crate) synthetic_pk: bool,
    pub(crate) next_tuple_id: i64,
}

/// The models of a column list.
pub open spec fn cols_model(cs: Seq<Column>) -> Seq<ColModel> {
    cs.map_values(|c: Column| c@)
}

/// The name of the synthetic identity column that `new` adds to a table
/// declared without primary keys.
pub open spec fn tuple_id_name() -> Seq<char> {
    "Tuple ID"@
}

/// Distinct column names.
pub open spec fn col_names_distinct(cols: Seq<ColModel>) -> bool {
    forall|i: int, j: int| 0 <= i < j < cols.len() ==> cols[i].name != cols[j].name
}

/// The position of the first column of the given name, or -1 when none
/// exists.
pub open spec fn col_pos(cols: Seq<ColModel>, name: Seq<char>) -> int
    decreases cols.len(),
{
    if cols.len() == 0 {
        -1
    } else if cols[0].name == name {
        0
    } else {
        let r = col_pos(cols.drop_first(), name);
        if r < 0 {
            -1
        } else {
            1 + r
        }
    }
}

/// Whether a column of the given name exists.
pub open spec fn has_col(cols: Seq<ColModel>, name: Seq<char>) -> bool {
    col_pos(cols, name) >= 0
}

/// What [`col_pos`] finds: a position below the length naming the first
/// matching column, or -1 when no column matches.
pub proof fn lemma_col_pos(cols: Seq<ColModel>, name: Seq<char>)
    ensures
        -1 <= col_pos(cols, name) < cols.len(),
        col_pos(cols, name) >= 0 ==> cols[col_pos(cols, name)].name == name,
        col_pos(cols, name) >= 0 ==> forall|i: int|
            0 <= i < col_pos(cols, name) ==> cols[i].name != name,
        col_pos(cols, name) >= 0 <==> exists|i: int| 0 <= i < cols.len() && cols[i].name == name,
    decreases cols.len(),
{
    if cols.len() > 0 && cols[0].name != name {
        lemma_col_pos(cols.drop_first(), name);
        let r = col_pos(cols.drop_first(), name);
        if r >= 0 {
            assert(cols[1 + r].name == name);
            assert forall|i: int| 0 <= i < 1 + r implies cols[i].name != name by {
                if i >= 1 {
                    assert(cols.drop_first()[i - 1].name != name);
                }
            }
        } else {
            assert forall|i: int| 0 <= i < cols.len() implies cols[i].name != name by {
                if i >= 1 {
                    assert(cols.drop_first()[i - 1] == cols[i]);
                    assert(!(exists|k: int|
                        0 <= k < cols.drop_first().len() && cols.drop_first()[k].name == name));
                }
            }
        }
    }
}

/// With distinct column names, `col_pos` finds exactly the column at `i`.
pub proof fn lemma_col_pos_of(cols: Seq<ColModel>, i: int)
    requires
        col_names_distinct(cols),
        0 <= i < cols.len(),
    ensures
        col_pos(cols, cols[i].name) == i,
{
    lemma_col_pos(cols, cols[i].name);
    let p = col_pos(cols, cols[i].name);
    if p < i {
        assert(cols[p].name == cols[i].name);
    } else if p > i {
        assert(cols[i].name != cols[i].name);
    }
}

/// The position of the first index over the given column, or -1.
pub open spec fn idx_pos(idxs: Seq<IndexModel>, name: Seq<char>) -> int
    decreases idxs.len(),
{
    if idxs.len() == 0 {
        -1
    } else if idxs[0].column == name {
        0
    } else {
        let r = idx_pos(idxs.drop_first(), name);
        if r < 0 {
            -1
        } else {
            1 + r
        }
    }
}

/// What [`idx_pos`] finds, in the same shape as [`lemma_col_pos`].
pub proof fn lemma_idx_pos(idxs: Seq<IndexModel>, name: Seq<char>)
    ensures
        -1 <= idx_pos(idxs, name) < idxs.len(),
        idx_pos(idxs, name) >= 0 ==> idxs[idx_pos(idxs, name)].column == name,
        idx_pos(idxs, name) >= 0 ==> forall|i: int|
            0 <= i < idx_pos(idxs, name) ==> idxs[i].column != name,
        idx_pos(idxs, name) >= 0 <==> exists|i: int|
            0 <= i < idxs.len() && idxs[i].column == name,
    decreases idxs.len(),
{
    if idxs.len() > 0 && idxs[0].column != name {
        lemma_idx_pos(idxs.drop_first(), name);
        let r = idx_pos(idxs.drop_first(), name);
        if r >= 0 {
            assert(idxs[1 + r].column == name);
            assert forall|i: int| 0 <= i < 1 + r implies idxs[i].column != name by {
                if i >= 1 {
                    assert(idxs.drop_first()[i - 1].column != name);
                }
            }
        } else {
            assert forall|i: int| 0 <= i < idxs.len() implies idxs[i].column != name by {
                if i >= 1 {
                    assert(idxs.drop_first()[i - 1] == idxs[i]);
                    assert(!(exists|k: int|
                        0 <= k < idxs.drop_first().len() && idxs.drop_first()[k].column == name));
                }
            }
        }
    }
}

/// A primary-key entry agrees with the schema: its name resolves to a column
/// of the same declared type.
pub open spec fn pk_col_ok(cols: Seq<ColModel>, pk: ColModel) -> bool {
    let i = col_pos(cols, pk.name);
    i >= 0 && cols[i].data_type == pk.data_type
}

/// An index names an existing column and is well-formed for it.
pub open spec fn index_ok(cols: Seq<ColModel>, rs: Seq<Seq<Val>>, ix: IndexModel) -> bool {
    let ci = col_pos(cols, ix.column);
    ci >= 0 && index_entries_wf(ix.entries, rs, ci)
}

/// A fresh synthetic identity cell: a number below the table's counter.
pub open spec fn tuple_cell_fresh(row: Seq<Val>, ti: int, ctr: int) -> bool {
    row[ti] matches Val::Number(v) && v < ctr
}

impl Table {
    /// The table's name.
    pub closed spec fn name_model(self) -> Seq<char> {
        self.name@
    }

    /// The schema: the models of the declared columns, in order.
    pub closed spec fn cols(self) -> Seq<ColModel> {
        cols_model(self.columns@)
    }

    /// The primary-key columns, in order.
    pub closed spec fn pks(self) -> Seq<ColModel> {
        cols_model(self.primary_keys@)
    }

    /// The rows: one sequence of cell values per row, in storage order.
    pub closed spec fn rs(self) -> Seq<Seq<Val>> {
        rows_model(self.rows@)
    }

    /// The live secondary indexes.
    pub closed spec fn idxs(self) -> Seq<IndexModel> {
        self.indexes@.map_values(|x: SecondaryIndex| x@)
    }

    /// Whether the table carries the synthetic identity key.
    pub closed spec fn synthetic(self) -> bool {
        self.synthetic_pk
    }

    /// The next value of the synthetic identity key.
    pub closed spec fn tuple_counter(self) -> int {
        self.next_tuple_id as int
    }

    /// Whether a live index exists over the named column.
    pub open spec fn has_index(self, name: Seq<char>) -> bool {
        idx_pos(self.idxs(), name) >= 0
    }

    /// The synthetic-key part of well-formedness: when the table carries the
    /// synthetic identity key, that key is its only primary key, it resolves
    /// to a `Number` column, and every stored identity lies below the
    /// counter.
    pub open spec fn synthetic_ok(self) -> bool {
        self.synthetic() ==> {
            let ti = col_pos(self.cols(), tuple_id_name());
            &&& self.pks().len() == 1
            &&& self.pks()[0].name == tuple_id_name()
            &&& ti >= 0
            &&& self.cols()[ti].data_type == DataType::Number
            &&& forall|r: int|
                0 <= r < self.rs().len() ==> tuple_cell_fresh(
                    #[trigger] self.rs()[r],
                    ti,
                    self.tuple_counter(),
                )
        }
    }

    /// The table invariant. Column names are distinct; every row has one
    /// cell per column and each cell fits its column's type; every
    /// primary-key entry names a real column and has a live index; indexes
    /// cover distinct columns and each correctly describes its column of the
    /// row list.
    pub open spec fn wf(self) -> bool {
        &&& col_names_distinct(self.cols())
        &&& forall|r: int|
            0 <= r < self.rs().len() ==> (#[trigger] self.rs()[r]).len() == self.cols().len()
        &&& forall|r: int, c: int|
            0 <= r < self.rs().len() && 0 <= c < self.cols().len() ==> val_fits(
                #[trigger] self.rs()[r][c],
                self.cols()[c].data_type,
            )
        &&& forall|k: int|
            0 <= k < self.pks().len() ==> pk_col_ok(self.cols(), #[trigger] self.pks()[k])
        &&& forall|k: int, l: int|
            0 <= k < l < self.pks().len() ==> self.pks()[k].name != self.pks()[l].name
        &&& forall|k: int|
            0 <= k < self.pks().len() ==> self.has_index((#[trigger] self.pks()[k]).name)
        &&& forall|x: int, y: int|
            0 <= x < y < self.idxs().len() ==> self.idxs()[x].column != self.idxs()[y].column
        &&& forall|x: int|
            0 <= x < self.idxs().len() ==> index_ok(self.cols(), self.rs(), #[trigger] self.idxs()[x])
        &&& self.synthetic_ok()
    }

    /// The table's name folded for use as a file name: ASCII letters
    /// uppercased and spaces replaced by underscores.
    pub fn to_file_name(&self) -> (r: String)
        ensures
            r@ == self.name_model().map_values(|c: char| crate::strutil::file_name_char(c)),
    {
        crate::strutil::file_name_fold(self.name.as_str())
    }

    /// Whether this table carries the synthetic identity key.
    pub fn is_synthetic(&self) -> (r: bool)
        ensures
            r == self.synthetic(),
    {
        self.synthetic_pk
    }

    /// The next value of the synthetic identity key.
    pub fn identity_counter(&self) -> (r: i64)
        ensures
            r as int == self.tuple_counter(),
    {
        self.next_tuple_id
    }

    /// The table's name.
    pub fn name(&self) -> (r: String)
        ensures
            r@ == self.name_model(),
    {
        self.name.clone()
    }

    /// Read access to the stored rows.
    pub fn rows(&self) -> (r: &Vec<Vec<FieldValue>>)
        ensures
            rows_model(r@) == self.rs(),
    {
        &self.rows
    }

    /// How many rows the table holds.
    pub fn number_of_rows(&self) -> (n: usize)
        ensures
            n == self.rs().len(),
    {
        self.rows.len()
    }

    /// The row at the given position, if it exists.
    pub fn get_row(&self, row_index: usize) -> (r: Option<&Vec<FieldValue>>)
        ensures
            row_index < self.rs().len() ==> (r matches Some(row)
                && row@.map_values(|v: FieldValue| v@) == self.rs()[row_index as int]),
            row_index >= self.rs().len() ==> r is None,
    {
        if row_index < self.rows.len() {
            Some(&self.rows[row_index])
        } else {
            None
        }
    }

    /// Read access to the schema.
    pub fn columns(&self) -> (r: &Vec<Column>)
        ensures
            cols_model(r@) == self.cols(),
    {
        &self.columns
    }

    /// The names of all columns, in schema order.
    pub fn all_column_names(&self) -> (r: Vec<String>)
        ensures
            r@.map_values(|s: String| s@) =~= self.cols().map_values(|c: ColModel| c.name),
    {
        let mut names: Vec<String> = Vec::new();
        let mut i: usize = 0;
        while i < self.columns.len()
            invariant
                i <= self.columns@.len(),
                names@.map_values(|s: String| s@) =~= self.cols().map_values(
                    |c: ColModel| c.name,
                ).take(i as int),
            decreases self.columns@.len() - i,
        {
            let n = self.columns[i].get_name().to_owned();
            proof {
                assert(self.cols()[i as int] == self.columns@[i as int]@);
                assert(n@ == self.cols()[i as int].name);
                assert(self.cols().map_values(|c: ColModel| c.name).take(i as int + 1)
                    =~= self.cols().map_values(|c: ColModel| c.name).take(i as int).push(
                    self.cols()[i as int].name));
            }
            names.push(n);
            i = i + 1;
        }
        proof {
            assert(self.cols().map_values(|c: ColModel| c.name).take(
                self.columns@.len() as int,
            ) =~= self.cols().map_values(|c: ColModel| c.name));
        }
        names
    }

    /// Read access to the primary-key columns.
    pub fn primary_keys(&self) -> (r: &Vec<Column>)
        ensures
            cols_model(r@) == self.pks(),
    {
        &self.primary_keys
    }

    /// The position of the named column in the schema, if it exists.
    pub fn find_col(&self, name: &str) -> (r: Option<usize>)
        ensures
            match r {
                Some(i) => i as int == col_pos(self.cols(), name@) && i < self.cols().len()
                    && self.cols()[i as int].name == name@,
                None => col_pos(self.cols(), name@) == -1,
            },
    {
        proof {
            lemma_col_pos(self.cols(), name@);
        }
        let mut i: usize = 0;
        while i < self.columns.len()
            invariant
                i <= self.columns@.len(),
                forall|k: int| 0 <= k < i ==> self.cols()[k].name != name@,
                -1 <= col_pos(self.cols(), name@) < self.cols().len(),
                col_pos(self.cols(), name@) >= 0 ==> self.cols()[col_pos(
                    self.cols(),
                    name@,
                )].name == name@,
                col_pos(self.cols(), name@) >= 0 ==> forall|k: int|
                    0 <= k < col_pos(self.cols(), name@) ==> self.cols()[k].name != name@,
                col_pos(self.cols(), name@) >= 0 <==> exists|k: int|
                    0 <= k < self.cols().len() && self.cols()[k].name == name@,
            decreases self.columns@.len() - i,
    {
        if str_eq(self.columns[i].get_name(), name) {
            proof {
                assert(self.cols()[i as int] == self.columns@[i as int]@);
                assert(self.cols()[i as int].name == name@);
                let p = col_pos(self.cols(), name@);
                assert(p >= 0);
                if p < i as int {
                    assert(self.cols()[p].name != name@);
                }
            }
            return Some(i);
        }
        i = i + 1;
    }
        None
    }

    /// A clone of the named column, if it exists.
    pub fn column(&self, col_name: String) -> (r: Option<Column>)
        ensures
            match r {
                Some(c) => col_pos(self.cols(), col_name@) >= 0 && c@ == self.cols()[col_pos(
                    self.cols(),
                    col_name@,
                )],
                None => col_pos(self.cols(), col_name@) == -1,
            },
    {
        match self.find_col(col_name.as_str()) {
            Some(i) => Some(self.columns[i].clone()),
            None => None,
        }
    }

    /// Whether a column of this name exists.
    pub fn is_valid_column(&self, col_name: &String) -> (r: bool)
        ensures
            r == has_col(self.cols(), col_name@),
    {
        match self.find_col(col_name.as_str()) {
            Some(_) => true,
            None => false,
        }
    }

    /// A clone of the named primary-key column, if this name is one.
    pub fn primary_key(&self, pk_name: String) -> (r: Option<Column>)
        ensures
            match r {
                Some(c) => exists|k: int|
                    0 <= k < self.pks().len() && c@ == self.pks()[k] && c@.name == pk_name@,
                None => forall|k: int| 0 <= k < self.pks().len() ==> self.pks()[k].name != pk_name@,
            },
    {
        let mut k: usize = 0;
        while k < self.primary_keys.len()
            invariant
                k <= self.primary_keys@.len(),
                forall|i: int| 0 <= i < k ==> self.pks()[i].name != pk_name@,
            decreases self.primary_keys@.len() - k,
        {
            if str_eq(self.primary_keys[k].get_name(), pk_name.as_str()) {
                proof {
                    assert(self.pks()[k as int] == self.primary_keys@[k as int]@);
                }
                return Some(self.primary_keys[k].clone());
            }
            k = k + 1;
        }
        None
    }

    /// Whether this name names a primary-key column.
    pub fn is_valid_primary_key(&self, pk: String) -> (r: bool)
        ensures
            r == exists|k: int| 0 <= k < self.pks().len() && (#[trigger] self.pks()[k]).name == pk@,
    {
        match self.primary_key(pk) {
            Some(_) => true,
            None => false,
        }
    }

    /// The names of primary-key columns that do not occur in `cols`, in
    /// primary-key order.
    pub fn missing_primary_keys(&self, cols: Vec<String>) -> (r: Vec<String>)
        ensures
            r@.map_values(|s: String| s@) =~= missing_pk_names(
                self.pks(),
                cols@.map_values(|s: String| s@),
            ),
    {
        let ghost names = cols@.map_values(|s: String| s@);
        let mut missing: Vec<String> = Vec::new();
        let mut k: usize = 0;
        while k < self.primary_keys.len()
            invariant
                k <= self.primary_keys@.len(),
                names == cols@.map_values(|s: String| s@),
                missing@.map_values(|s: String| s@) =~= missing_pk_names(
                    self.pks().take(k as int),
                    names,
                ),
            decreases self.primary_keys@.len() - k,
        {
            let ghost prefix = self.pks().take(k as int);
            let ghost pred = |c: ColModel| !names.contains(c.name);
            let pk_name = self.primary_keys[k].get_name();
            let found = contains_name(&cols, pk_name);
            if !found {
                missing.push(pk_name.to_owned());
            }
            proof {
                assert(self.pks()[k as int] == self.primary_keys@[k as int]@);
                assert(self.pks().take(k as int + 1) =~= prefix.push(self.pks()[k as int]));
                prefix.lemma_filter_push(self.pks()[k as int], pred);
                assert(pk_name@ == self.pks()[k as int].name);
                assert(missing_pk_names(prefix.push(self.pks()[k as int]), names) == if pred(
                    self.pks()[k as int],
                ) {
                    prefix.filter(pred).push(self.pks()[k as int]).map_values(
                        |c: ColModel| c.name,
                    )
                } else {
                    missing_pk_names(prefix, names)
                });
            }
            k = k + 1;
        }
        proof {
            assert(self.pks().take(self.primary_keys@.len() as int) =~= self.pks());
        }
        missing
    }
}

/// The primary-key predicate on columns, as a spec-level function value.
pub open spec fn pk_pred() -> spec_fn(ColModel) -> bool {
    |c: ColModel| c.is_primary_key
}

/// The model of the synthetic identity column.
pub open spec fn synth_col() -> ColModel {
    ColModel { name: tuple_id_name(), data_type: DataType::Number, is_primary_key: true }
}

impl Table {
    /// Creates an empty table over the given schema. The primary keys are the
    /// columns marked as such; when none is marked, a synthetic identity
    /// column named `Tuple ID` is appended and becomes the key, and inserts
    /// fill it with an increasing number. One empty index is created per
    /// primary-key column.
    ///
    /// Construction needs distinct column names; a schema without declared
    /// keys must also leave the name `Tuple ID` free for the synthetic
    /// column.
    pub fn new(name: String, columns: Vec<Column>) -> (t: Table)
        requires
            col_names_distinct(cols_model(columns@)),
            cols_model(columns@).filter(pk_pred()).len() == 0 ==> forall|
                i: int,
            |
                0 <= i < columns@.len() ==> (#[trigger] cols_model(columns@)[i]).name
                    != tuple_id_name(),
        ensures
            t.wf(),
            t.name_model() == name@,
            t.rs().len() == 0,
            ({
                let declared = cols_model(columns@).filter(pk_pred());
                if declared.len() > 0 {
                    &&& t.cols() == cols_model(columns@)
                    &&& t.pks() == declared
                    &&& !t.synthetic()
                } else {
                    &&& t.cols() == cols_model(columns@).push(synth_col())
                    &&& t.pks() == seq![synth_col()]
                    &&& t.synthetic()
                    &&& t.tuple_counter() == 0
                }
            }),
    {
        let ghost cm = cols_model(columns@);
        let ghost pred = pk_pred();
        let mut primary_keys: Vec<Column> = Vec::new();
        let mut i: usize = 0;
        proof {
            assert(cm.take(0) =~= Seq::<ColModel>::empty());
        }
        while i < columns.len()
            invariant
                i <= columns@.len(),
                cm == cols_model(columns@),
                col_names_distinct(cm),
                cols_model(primary_keys@) =~= cm.take(i as int).filter(pk_pred()),
                forall|b: int| #![trigger cols_model(primary_keys@)[b]]
                    0 <= b < primary_keys@.len() ==> exists|j: int|
                        0 <= j < i && cols_model(primary_keys@)[b] == #[trigger] cm[j],
            decreases columns@.len() - i,
        {
            proof {
                assert(cm.take(i as int + 1) =~= cm.take(i as int).push(cm[i as int]));
                cm.take(i as int).lemma_filter_push(cm[i as int], pk_pred());
                assert(cm[i as int] == columns@[i as int]@);
            }
            if columns[i].is_primary_key() {
                let ghost before = primary_keys@;
                primary_keys.push(columns[i].clone());
                proof {
                    assert(cols_model(primary_keys@) =~= cols_model(before).push(cm[i as int]));
                    assert forall|b: int| #![trigger cols_model(primary_keys@)[b]]
                        0 <= b < primary_keys@.len() implies exists|j: int|
                        0 <= j < i + 1 && cols_model(primary_keys@)[b] == #[trigger] cm[j] by {
                        if b < before.len() {
                            assert(cols_model(primary_keys@)[b] == cols_model(before)[b]);
                            let j = choose|j: int|
                                0 <= j < i && cols_model(before)[b] == #[trigger] cm[j];
                            assert(cols_model(primary_keys@)[b] == cm[j]);
                        } else {
                            assert(cols_model(primary_keys@)[b] == cm[i as int]);
                        }
                    }
                    assert(cm[i as int].is_primary_key);
                    assert(pk_pred()(cm[i as int]));
                    assert(cols_model(primary_keys@) =~= cm.take(i as int + 1).filter(pk_pred()));
                }
            } else {
                proof {
                    assert(!cm[i as int].is_primary_key);
                    assert(!pk_pred()(cm[i as int]));
                    assert(cm.take(i as int + 1).filter(pk_pred()) == cm.take(i as int).filter(
                        pk_pred(),
                    ));
                    assert(cols_model(primary_keys@) =~= cm.take(i as int + 1).filter(pk_pred()));
                }
            }
            i = i + 1;
        }
        proof {
            assert(cm.take(columns@.len() as int) =~= cm);
        }

        let mut columns = columns;
        let mut synthetic = false;
        if primary_keys.len() == 0 {
            proof {
                if exists|j: int| 0 <= j < cm.len() && pk_pred()(#[trigger] cm[j]) {
                    let j = choose|j: int| 0 <= j < cm.len() && pk_pred()(#[trigger] cm[j]);
                    cm.lemma_filter_contains(pk_pred(), j);
                }
            }
            let tid = Column::new("Tuple ID".to_owned(), DataType::Number, true);
            primary_keys.push(tid.clone());
            columns.push(tid);
            synthetic = true;
            proof {
                assert(cols_model(columns@) =~= cm.push(synth_col()));
                assert(cols_model(primary_keys@) =~= seq![synth_col()]);
            }
        }
        let ghost final_cols = cols_model(columns@);
        let ghost final_pks = cols_model(primary_keys@);
        proof {
            assert(col_names_distinct(final_cols));
            assert forall|b: int| #![trigger final_pks[b]]
                0 <= b < final_pks.len() implies exists|j: int|
                0 <= j < final_cols.len() && final_pks[b] == #[trigger] final_cols[j] by {
                if synthetic {
                    assert(final_pks[b] == final_cols[final_cols.len() - 1]);
                } else {
                    let j = choose|j: int| 0 <= j < cm.len() && final_pks[b] == cm[j];
                    assert(final_pks[b] == final_cols[j]);
                }
            }
            assert forall|b: int| 0 <= b < final_pks.len() implies pk_col_ok(
                final_cols,
                #[trigger] final_pks[b],
            ) by {
                let j = choose|j: int|
                    0 <= j < final_cols.len() && final_pks[b] == final_cols[j];
                lemma_col_pos_of(final_cols, j);
            }
            if synthetic {
                assert(final_pks.len() == 1);
            } else {
                crate::seq_lemmas::lemma_filter_keeps_distinct_keys(cm, pk_pred(), |c: ColModel| c.name);
            }
            assert(forall|k: int, l: int|
                0 <= k < l < final_pks.len() ==> final_pks[k].name != final_pks[l].name);
        }

        let mut indexes: Vec<SecondaryIndex> = Vec::new();
        let mut k: usize = 0;
        while k < primary_keys.len()
            invariant
                k <= primary_keys@.len(),
                indexes@.len() == k,
                final_pks == cols_model(primary_keys@),
                forall|x: int|
                    0 <= x < k ==> (#[trigger] indexes@[x])@.column == final_pks[x].name
                        && indexes@[x]@.entries.len() == 0,
            decreases primary_keys@.len() - k,
        {
            let nm = primary_keys[k].get_name().to_owned();
            proof {
                assert(final_pks[k as int] == primary_keys@[k as int]@);
            }
            indexes.push(SecondaryIndex { column: nm, entries: Vec::new() });
            proof {
                assert(entries_model(Seq::<crate::index::IndexEntry>::empty()).len() == 0);
            }
            k = k + 1;
        }

        let t = Table {
            name,
            columns,
            primary_keys,
            rows: Vec::new(),
            indexes,
            synthetic_pk: synthetic,
            next_tuple_id: 0,
        };
        proof {
            assert(t.rs() =~= Seq::<Seq<Val>>::empty());
            assert(t.cols() == final_cols);
            assert(t.pks() == final_pks);
            assert forall|x: int| 0 <= x < t.idxs().len() implies (#[trigger] t.idxs()[x]).column
                == final_pks[x].name && t.idxs()[x].entries.len() == 0 by {
                assert(t.idxs()[x] == t.indexes@[x]@);
            }
            assert forall|b: int| 0 <= b < t.pks().len() implies t.has_index(
                (#[trigger] t.pks()[b]).name,
            ) by {
                lemma_idx_pos(t.idxs(), t.pks()[b].name);
                assert(t.idxs()[b].column == t.pks()[b].name);
            }
            assert forall|x: int| 0 <= x < t.idxs().len() implies index_ok(
                t.cols(),
                t.rs(),
                #[trigger] t.idxs()[x],
            ) by {
                assert(pk_col_ok(final_cols, final_pks[x]));
                let e = t.idxs()[x].entries;
                assert(e.len() == 0);
                assert(index_entries_wf(e, t.rs(), col_pos(final_cols, final_pks[x].name)));
            }
            if synthetic {
                assert(final_cols[final_cols.len() - 1] == synth_col());
                lemma_col_pos_of(final_cols, final_cols.len() - 1);
            }
            assert(t.wf());
            if !synthetic {
                assert(final_pks == cm.filter(pk_pred()));
            }
        }
        t
    }

    /// Creates an empty result table over the given schema: no primary keys
    /// and no indexes, as query results do not carry insert-time uniqueness
    /// guarantees.
    pub(crate) fn new_result(name: String, columns: Vec<Column>) -> (t: Table)
        requires
            col_names_distinct(cols_model(columns@)),
        ensures
            t.wf(),
            t.name_model() == name@,
            t.cols() == cols_model(columns@),
            t.pks() == Seq::<ColModel>::empty(),
            t.idxs() == Seq::<IndexModel>::empty(),
            t.rs().len() == 0,
            !t.synthetic(),
    {
        let t = Table {
            name,
            columns,
            primary_keys: Vec::new(),
            rows: Vec::new(),
            indexes: Vec::new(),
            synthetic_pk: false,
            next_tuple_id: 0,
        };
        proof {
            assert(t.rs() =~= Seq::<Seq<Val>>::empty());
            assert(t.pks() =~= Seq::<ColModel>::empty());
            assert(t.idxs() =~= Seq::<IndexModel>::empty());
            assert(t.wf());
        }
        t
    }
}

/// The spec-level view of an inserted row: each supplied entry as a name and
/// a value, in the order given.
pub open spec fn input_model(input: Seq<(String, FieldValue)>) -> Seq<(Seq<char>, Val)> {
    input.map_values(|p: (String, FieldValue)| (p.0@, p.1@))
}

/// The names of the supplied entries, in order.
pub open spec fn input_names(im: Seq<(Seq<char>, Val)>) -> Seq<Seq<char>> {
    im.map_values(|p: (Seq<char>, Val)| p.0)
}

/// The first value supplied under the given name, if any.
pub open spec fn input_lookup(im: Seq<(Seq<char>, Val)>, name: Seq<char>) -> Option<Val>
    decreases im.len(),
{
    if im.len() == 0 {
        None
    } else if im[0].0 == name {
        Some(im[0].1)
    } else {
        input_lookup(im.drop_first(), name)
    }
}

/// The first value supplied under the given name, with `Null` standing for an
/// absent one: absent columns of an inserted row are filled with `Null`.
pub open spec fn input_val(im: Seq<(Seq<char>, Val)>, name: Seq<char>) -> Val {
    match input_lookup(im, name) {
        Some(v) => v,
        None => Val::Null,
    }
}

/// A name is looked up successfully exactly when it occurs among the names.
pub proof fn lemma_input_lookup(im: Seq<(Seq<char>, Val)>, name: Seq<char>)
    ensures
        input_lookup(im, name) is Some <==> input_names(im).contains(name),
    decreases im.len(),
{
    if im.len() > 0 {
        lemma_input_lookup(im.drop_first(), name);
        assert(input_names(im.drop_first()) =~= input_names(im).drop_first());
        if im[0].0 == name {
            assert(input_names(im)[0] == name);
        } else {
            if input_names(im).contains(name) {
                let k = choose|k: int|
                    0 <= k < input_names(im).len() && input_names(im)[k] == name;
                assert(input_names(im).drop_first()[k - 1] == name);
            }
        }
    }
}

/// How an inserted row fails validation, or is accepted.
pub ghost enum InsertOutcome {
    /// The row is accepted; the payload is the appended row, one cell per
    /// column in schema order.
    Accepted(Seq<Val>),
    /// These primary-key columns were not supplied.
    MissingKeys(Seq<Seq<char>>),
    /// This primary-key column already holds the supplied value.
    Duplicate(Seq<char>),
    /// This supplied name is not a column.
    UnknownColumn(Seq<char>),
    /// A supplied value does not fit its column: expected, then actual kind.
    WrongType(DataType, DataType),
}

/// The first supplied entry naming an unknown column or carrying a value of
/// the wrong kind, if any, in supply order.
pub open spec fn entries_check(cols: Seq<ColModel>, im: Seq<(Seq<char>, Val)>) -> Option<
    InsertOutcome,
>
    decreases im.len(),
{
    if im.len() == 0 {
        None
    } else {
        let ci = col_pos(cols, im[0].0);
        if ci < 0 {
            Some(InsertOutcome::UnknownColumn(im[0].0))
        } else if !val_fits(im[0].1, cols[ci].data_type) {
            Some(InsertOutcome::WrongType(cols[ci].data_type, val_data_type(im[0].1)))
        } else {
            entries_check(cols, im.drop_first())
        }
    }
}

/// When every supplied entry passes the check, every looked-up value fits its
/// column.
pub proof fn lemma_entries_check_ok(
    cols: Seq<ColModel>,
    im: Seq<(Seq<char>, Val)>,
    name: Seq<char>,
)
    requires
        entries_check(cols, im) is None,
        input_lookup(im, name) is Some,
    ensures
        col_pos(cols, name) >= 0,
        val_fits(input_lookup(im, name).unwrap(), cols[col_pos(cols, name)].data_type),
    decreases im.len(),
{
    if im.len() > 0 {
        if im[0].0 == name {
        } else {
            lemma_entries_check_ok(cols, im.drop_first(), name);
        }
    }
}

/// The per-entry check only ever reports an unknown column or a wrong kind.
pub proof fn lemma_entries_check_shape(cols: Seq<ColModel>, im: Seq<(Seq<char>, Val)>)
    ensures
        match entries_check(cols, im) {
            None => true,
            Some(o) => o is UnknownColumn || o is WrongType,
        },
    decreases im.len(),
{
    if im.len() > 0 {
        let ci = col_pos(cols, im[0].0);
        if ci >= 0 && val_fits(im[0].1, cols[ci].data_type) {
            lemma_entries_check_shape(cols, im.drop_first());
        }
    }
}

/// The first primary-key column whose supplied value already occurs in that
/// column of some stored row, if any, in key order.
pub open spec fn dup_check(
    pks: Seq<ColModel>,
    cols: Seq<ColModel>,
    rs: Seq<Seq<Val>>,
    im: Seq<(Seq<char>, Val)>,
) -> Option<Seq<char>>
    decreases pks.len(),
{
    if pks.len() == 0 {
        None
    } else {
        let name = pks[0].name;
        let ci = col_pos(cols, name);
        if exists|p: int| 0 <= p < rs.len() && (#[trigger] rs[p])[ci] == input_val(im, name) {
            Some(name)
        } else {
            dup_check(pks.drop_first(), cols, rs, im)
        }
    }
}

/// The row that an accepted insert appends: one cell per column, in schema
/// order; the synthetic identity column receives the counter, any other
/// column its first supplied value, and `Null` where none was supplied.
pub open spec fn aligned_row(
    cols: Seq<ColModel>,
    im: Seq<(Seq<char>, Val)>,
    synthetic: bool,
    counter: int,
) -> Seq<Val> {
    Seq::new(
        cols.len(),
        |i: int|
            if synthetic && cols[i].name == tuple_id_name() {
                Val::Number(counter)
            } else {
                input_val(im, cols[i].name)
            },
    )
}

/// Clones the names of the supplied entries, in order.
fn input_names_exec(input: &Vec<(String, FieldValue)>) -> (r: Vec<String>)
    ensures
        r@.map_values(|s: String| s@) =~= input_names(input_model(input@)),
{
    let mut names: Vec<String> = Vec::new();
    let mut i: usize = 0;
    while i < input.len()
        invariant
            i <= input@.len(),
            names@.map_values(|s: String| s@) =~= input_names(input_model(input@)).take(i as int),
        decreases input@.len() - i,
    {
        names.push(input[i].0.clone());
        proof {
            assert(input_names(input_model(input@))[i as int] == input@[i as int].0@);
            assert(names@.map_values(|s: String| s@) =~= input_names(input_model(input@)).take(
                i as int + 1,
            ));
        }
        i = i + 1;
    }
    proof {
        assert(input_names(input_model(input@)).take(input@.len() as int) =~= input_names(
            input_model(input@),
        ));
    }
    names
}

/// The first supplied value under the given name, if any.
fn input_get<'a>(input: &'a Vec<(String, FieldValue)>, name: &str) -> (r: Option<&'a FieldValue>)
    ensures
        match r {
            Some(v) => input_lookup(input_model(input@), name@) == Some(v@),
            None => input_lookup(input_model(input@), name@) is None,
        },
{
    let ghost im = input_model(input@);
    let mut i: usize = 0;
    proof {
        assert(im.skip(0) =~= im);
    }
    while i < input.len()
        invariant
            i <= input@.len(),
            im == input_model(input@),
            input_lookup(im, name@) == input_lookup(im.skip(i as int), name@),
        decreases input@.len() - i,
    {
        proof {
            assert(im.skip(i as int)[0] == im[i as int]);
            assert(im.skip(i as int).drop_first() =~= im.skip(i as int + 1));
            assert(im[i as int].0 == input@[i as int].0@);
        }
        if str_eq(input[i].0.as_str(), name) {
            return Some(&input[i].1);
        }
        i = i + 1;
    }
    None
}

impl Table {
    /// The position of the live index over the named column, if one exists.
    pub fn find_index(&self, name: &str) -> (r: Option<usize>)
        ensures
            match r {
                Some(x) => x as int == idx_pos(self.idxs(), name@) && (x as int)
                    < self.idxs().len() && self.idxs()[x as int].column == name@,
                None => idx_pos(self.idxs(), name@) == -1,
            },
    {
        proof {
            lemma_idx_pos(self.idxs(), name@);
        }
        let mut x: usize = 0;
        while x < self.indexes.len()
            invariant
                x <= self.indexes@.len(),
                forall|k: int| 0 <= k < x ==> (#[trigger] self.idxs()[k]).column != name@,
                -1 <= idx_pos(self.idxs(), name@) < self.idxs().len(),
                idx_pos(self.idxs(), name@) >= 0 ==> self.idxs()[idx_pos(
                    self.idxs(),
                    name@,
                )].column == name@,
                idx_pos(self.idxs(), name@) >= 0 <==> exists|k: int|
                    0 <= k < self.idxs().len() && (#[trigger] self.idxs()[k]).column == name@,
            decreases self.indexes@.len() - x,
        {
            proof {
                assert(self.idxs()[x as int] == self.indexes@[x as int]@);
            }
            if str_eq(self.indexes[x].column.as_str(), name) {
                proof {
                    let p = idx_pos(self.idxs(), name@);
                    assert(p >= 0);
                    if p < x as int {
                        assert(self.idxs()[p].column != name@);
                        lemma_idx_pos(self.idxs(), name@);
                    }
                    if p > x as int {
                        lemma_idx_pos(self.idxs(), name@);
                    }
                }
                return Some(x);
            }
            x = x + 1;
        }
        None
    }

    /// How the table answers an attempted insert: the first failed check in
    /// validation order, or acceptance with the appended row. On a table with
    /// the synthetic identity key, the key is filled by the engine, so the
    /// missing-key and duplicate-key checks do not apply to it.
    pub open spec fn insert_outcome(self, im: Seq<(Seq<char>, Val)>) -> InsertOutcome {
        let missing = if self.synthetic() {
            Seq::<Seq<char>>::empty()
        } else {
            missing_pk_names(self.pks(), input_names(im))
        };
        if missing.len() > 0 {
            InsertOutcome::MissingKeys(missing)
        } else {
            let dup = if self.synthetic() {
                None
            } else {
                dup_check(self.pks(), self.cols(), self.rs(), im)
            };
            match dup {
                Some(n) => InsertOutcome::Duplicate(n),
                None => match entries_check(self.cols(), im) {
                    Some(o) => o,
                    None => InsertOutcome::Accepted(
                        aligned_row(self.cols(), im, self.synthetic(), self.tuple_counter()),
                    ),
                },
            }
        }
    }
}

impl Table {
    /// Inserts one row, given as supplied column names with their values, and
    /// keeps every live index consistent. Validation order: every
    /// primary-key column must be supplied (`MissingPrimaryKeys`); no
    /// primary-key column may already hold a supplied value
    /// (`DuplicatePrimaryKey`); every supplied name must be a column
    /// (`InvalidColumn`) holding a value of its declared kind, `Null` always
    /// accepted (`MisMatchDataType`). On success the row is appended, with
    /// `Null` in columns that were not supplied; on a table with the
    /// synthetic identity key that key is filled by the engine (a supplied
    /// value for it is validated but ignored) and the counter advances. On
    /// failure the table is unchanged.
    #[verifier::rlimit(60)]
    pub fn insert_row(&mut self, row_data: &Vec<(String, FieldValue)>) -> (r: Result<
        (),
        DBError,
    >)
        requires
            old(self).wf(),
            old(self).synthetic() ==> old(self).tuple_counter() < i64::MAX as int,
        ensures
            final(self).wf(),
            final(self).name_model() == old(self).name_model(),
            final(self).cols() == old(self).cols(),
            final(self).pks() == old(self).pks(),
            final(self).synthetic() == old(self).synthetic(),
            final(self).idxs().len() == old(self).idxs().len(),
            forall|x: int|
                0 <= x < old(self).idxs().len() ==> (#[trigger] final(self).idxs()[x]).column
                    == old(self).idxs()[x].column,
            match old(self).insert_outcome(input_model(row_data@)) {
                InsertOutcome::Accepted(row) => r is Ok
                    && final(self).rs() == old(self).rs().push(row)
                    && final(self).tuple_counter() == old(self).tuple_counter()
                    + (if old(self).synthetic() { 1int } else { 0int }),
                InsertOutcome::MissingKeys(ns) => (r matches Err(e) && e matches
                    DBError::MissingPrimaryKeys(v) && v@.map_values(|s: String| s@) == ns)
                    && *final(self) == *old(self),
                InsertOutcome::Duplicate(n) => (r matches Err(e) && e matches
                    DBError::DuplicatePrimaryKey(s) && s@ == n) && *final(self) == *old(self),
                InsertOutcome::UnknownColumn(n) => (r matches Err(e) && e matches
                    DBError::InvalidColumn(s) && s@ == n) && *final(self) == *old(self),
                InsertOutcome::WrongType(exp, act) => (r matches Err(e) && e == (
                DBError::MisMatchDataType(exp, act))) && *final(self) == *old(self),
            },
    {
        let ghost im = input_model(row_data@);
        let ghost cols = self.cols();
        let ghost pks = self.pks();

        // Every primary key must be supplied (the synthetic key is filled by
        // the engine).
        if !self.synthetic_pk {
            let names = input_names_exec(row_data);
            let missing = self.missing_primary_keys(names);
            if missing.len() > 0 {
                return Err(DBError::MissingPrimaryKeys(missing));
            }
        }

        // No primary key may repeat a stored value; the live index over each
        // key answers the membership question.
        if !self.synthetic_pk {
            let mut k: usize = 0;
            proof {
                assert(pks.skip(0) =~= pks);
            }
            while k < self.primary_keys.len()
                invariant
                    k <= self.primary_keys@.len(),
                    *self == *old(self),
                    self.wf(),
                    !self.synthetic(),
                    missing_pk_names(self.pks(), input_names(im)).len() == 0,
                    im == input_model(row_data@),
                    cols == self.cols(),
                    pks == self.pks(),
                    dup_check(pks, cols, self.rs(), im) == dup_check(
                        pks.skip(k as int),
                        cols,
                        self.rs(),
                        im,
                    ),
                decreases self.primary_keys@.len() - k,
            {
                proof {
                    assert(pks.skip(k as int)[0] == pks[k as int]);
                    assert(pks.skip(k as int).drop_first() =~= pks.skip(k as int + 1));
                    assert(pks[k as int] == self.primary_keys@[k as int]@);
                }
                let supplied = input_get(row_data, self.primary_keys[k].get_name());
                let value: FieldValue = match supplied {
                    Some(v) => v.clone(),
                    None => FieldValue::Null,
                };
                proof {
                    assert(value@ == input_val(im, pks[k as int].name));
                }
                let xi = match self.find_index(self.primary_keys[k].get_name()) {
                    Some(x) => x,
                    None => {
                        proof {
                            assert(self.has_index(pks[k as int].name));
                        }
                        vstd::pervasive::unreached()
                    },
                };
                let ghost ix = self.idxs()[xi as int];
                let ghost ci = col_pos(cols, pks[k as int].name);
                proof {
                    assert(index_ok(cols, self.rs(), ix));
                    assert(col_pos(cols, ix.column) == ci);
                }
                match find_entry(&self.indexes[xi].entries, &value) {
                    Some(j) => {
                        proof {
                            assert(ix.entries == entries_model(self.indexes@[xi as int].entries@));
                            let e = ix.entries[j as int];
                            assert(e.positions.len() > 0);
                            let q = e.positions[0];
                            assert(0 <= q < self.rs().len() && self.rs()[q][ci] == e.key);
                            assert(exists|p: int|
                                0 <= p < self.rs().len() && (#[trigger] self.rs()[p])[ci]
                                    == input_val(im, pks[k as int].name));
                            assert(dup_check(pks.skip(k as int), cols, self.rs(), im) == Some(
                                pks[k as int].name,
                            ));
                            assert(old(self).insert_outcome(im) == InsertOutcome::Duplicate(
                                pks[k as int].name,
                            ));
                        }
                        return Err(
                            DBError::DuplicatePrimaryKey(self.primary_keys[k].get_name().to_owned()),
                        );
                    },
                    None => {
                        proof {
                            assert(ix.entries == entries_model(self.indexes@[xi as int].entries@));
                            assert forall|p: int|
                                0 <= p < self.rs().len() implies (#[trigger] self.rs()[p])[ci]
                                != input_val(im, pks[k as int].name) by {
                                assert(index_covers(ix.entries, self.rs()[p], p, ci));
                                let i = choose|i: int|
                                    0 <= i < ix.entries.len() && (#[trigger] ix.entries[i]).key
                                        == self.rs()[p][ci] && ix.entries[i].positions.contains(p);
                                assert(ix.entries[i].key != value@);
                            }
                            assert(dup_check(pks.skip(k as int), cols, self.rs(), im) == dup_check(
                                pks.skip(k as int + 1),
                                cols,
                                self.rs(),
                                im,
                            ));
                        }
                    },
                }
                k = k + 1;
            }
            proof {
                assert(pks.skip(pks.len() as int) =~= Seq::<ColModel>::empty());
            }
        }

        // Every supplied entry must name a column and fit its declared kind.
        let mut e: usize = 0;
        proof {
            assert(im.skip(0) =~= im);
        }
        while e < row_data.len()
            invariant
                e <= row_data@.len(),
                *self == *old(self),
                self.wf(),
                im == input_model(row_data@),
                cols == self.cols(),
                !self.synthetic() ==> missing_pk_names(self.pks(), input_names(im)).len() == 0,
                !self.synthetic() ==> dup_check(self.pks(), cols, self.rs(), im) is None,
                entries_check(cols, im) == entries_check(cols, im.skip(e as int)),
            decreases row_data@.len() - e,
        {
            proof {
                assert(im.skip(e as int)[0] == im[e as int]);
                assert(im.skip(e as int).drop_first() =~= im.skip(e as int + 1));
                assert(im[e as int] == (row_data@[e as int].0@, row_data@[e as int].1@));
            }
            match self.find_col(row_data[e].0.as_str()) {
                None => {
                    proof {
                        assert(entries_check(cols, im.skip(e as int)) == Some(
                            InsertOutcome::UnknownColumn(im[e as int].0),
                        ));
                        assert(old(self).insert_outcome(im) == InsertOutcome::UnknownColumn(
                            im[e as int].0,
                        ));
                    }
                    return Err(DBError::InvalidColumn(row_data[e].0.clone()));
                },
                Some(ci) => {
                    let dt = self.columns[ci].get_data_type();
                    proof {
                        assert(cols[ci as int] == self.columns@[ci as int]@);
                    }
                    let is_null = match &row_data[e].1 {
                        FieldValue::Null => true,
                        _ => false,
                    };
                    let vdt = row_data[e].1.data_type();
                    if !is_null && !(dt == vdt) {
                        proof {
                            assert(!val_fits(im[e as int].1, cols[ci as int].data_type));
                            assert(entries_check(cols, im.skip(e as int)) == Some(
                                InsertOutcome::WrongType(
                                    cols[ci as int].data_type,
                                    val_data_type(im[e as int].1),
                                ),
                            ));
                            assert(old(self).insert_outcome(im) == InsertOutcome::WrongType(
                                dt,
                                vdt,
                            ));
                        }
                        return Err(DBError::MisMatchDataType(dt, vdt));
                    }
                },
            }
            e = e + 1;
        }
        proof {
            assert(im.skip(row_data@.len() as int) =~= Seq::<(Seq<char>, Val)>::empty());
            assert(old(self).insert_outcome(im) == InsertOutcome::Accepted(
                aligned_row(cols, im, self.synthetic(), self.tuple_counter()),
            ));
        }

        // Build the appended row: one cell per column in schema order.
        let ghost row_m = aligned_row(cols, im, self.synthetic(), self.tuple_counter());
        let mut new_row: Vec<FieldValue> = Vec::new();
        let mut c: usize = 0;
        while c < self.columns.len()
            invariant
                c <= self.columns@.len(),
                *self == *old(self),
                self.wf(),
                im == input_model(row_data@),
                cols == self.cols(),
                row_m == aligned_row(cols, im, self.synthetic(), self.tuple_counter()),
                new_row@.map_values(|v: FieldValue| v@) =~= row_m.take(c as int),
            decreases self.columns@.len() - c,
        {
            proof {
                assert(cols[c as int] == self.columns@[c as int]@);
            }
            let is_tid = self.synthetic_pk && str_eq(self.columns[c].get_name(), "Tuple ID");
            if is_tid {
                new_row.push(FieldValue::Number(self.next_tuple_id));
            } else {
                match input_get(row_data, self.columns[c].get_name()) {
                    Some(v) => {
                        let cv = v.clone();
                        new_row.push(cv);
                    },
                    None => {
                        new_row.push(FieldValue::Null);
                    },
                }
            }
            proof {
                assert(row_m.take(c as int + 1) =~= row_m.take(c as int).push(row_m[c as int]));
            }
            c = c + 1;
        }
        proof {
            assert(row_m.take(self.columns@.len() as int) =~= row_m);
            assert(new_row@.map_values(|v: FieldValue| v@) == row_m);
        }

        // Append the row and register its position in every live index.
        let ghost prefix = self.rs();
        let ghost p = prefix.len() as int;
        let ghost old_idxs = self.idxs();
        self.rows.push(new_row);
        let ghost new_rs = self.rs();
        proof {
            assert(new_rs =~= prefix.push(row_m));
        }
        let mut x: usize = 0;
        while x < self.indexes.len()
            invariant
                x <= self.indexes@.len(),
                old(self).wf(),
                cols == old(self).cols(),
                pks == old(self).pks(),
                prefix == old(self).rs(),
                old_idxs == old(self).idxs(),
                im == input_model(row_data@),
                row_m == aligned_row(cols, im, old(self).synthetic(), old(self).tuple_counter()),
                old(self).insert_outcome(im) == InsertOutcome::Accepted(row_m),
                self.name_model() == old(self).name_model(),
                self.pks() == old(self).pks(),
                self.synthetic() == old(self).synthetic(),
                self.tuple_counter() == old(self).tuple_counter(),
                cols == self.cols(),
                col_names_distinct(cols),
                self.rs() == new_rs,
                new_rs == prefix.push(row_m),
                prefix.len() == p,
                row_m.len() == cols.len(),
                forall|q: int|
                    0 <= q < new_rs.len() ==> (#[trigger] new_rs[q]).len() == cols.len(),
                self.idxs().len() == old_idxs.len(),
                forall|y: int|
                    0 <= y < old_idxs.len() ==> (#[trigger] self.idxs()[y]).column
                        == old_idxs[y].column,
                forall|y: int| 0 <= y < x ==> index_ok(cols, new_rs, #[trigger] self.idxs()[y]),
                forall|y: int|
                    x <= y < old_idxs.len() ==> #[trigger] self.idxs()[y] == old_idxs[y],
                forall|y: int|
                    0 <= y < old_idxs.len() ==> index_ok(cols, prefix, #[trigger] old_idxs[y]),
            decreases self.indexes@.len() - x,
        {
            let ci = match self.find_col_of_index(x) {
                Some(ci) => ci,
                None => {
                    proof {
                        assert(index_ok(cols, prefix, old_idxs[x as int]));
                    }
                    vstd::pervasive::unreached()
                },
            };
            let rowlen = self.rows.len();
            proof {
                assert(self.rows@.len() == new_rs.len());
                assert(new_rs.len() == p + 1);
                assert(self.rows@[p]@.map_values(|v: FieldValue| v@) == new_rs[p]);
                assert(new_rs[p].len() == cols.len());
            }
            let key = self.rows[rowlen - 1][ci].clone();
            proof {
                assert(new_rs[p][ci as int] == row_m[ci as int]);
                assert(key@ == new_rs[p][ci as int]);
            }
            let ghost before_models = self.idxs();
            let ghost old_entries = self.idxs()[x as int].entries;
            let mut ix = self.indexes.remove(x);
            match find_entry(&ix.entries, &key) {
                Some(j) => {
                    let mut en = ix.entries.remove(j);
                    en.positions.push(rowlen - 1);
                    ix.entries.insert(j, en);
                    proof {
                        let em = entries_model(ix.entries@);
                        assert(em =~~= old_entries.update(
                            j as int,
                            crate::index::EntryModel {
                                key: old_entries[j as int].key,
                                positions: old_entries[j as int].positions.push(p),
                            },
                        ));
                        crate::index::lemma_step_existing(
                            old_entries,
                            em,
                            prefix,
                            new_rs,
                            j as int,
                            p,
                            ci as int,
                        );
                    }
                },
                None => {
                    let mut ps: Vec<usize> = Vec::new();
                    ps.push(rowlen - 1);
                    ix.entries.push(IndexEntry { key, positions: ps });
                    proof {
                        let em = entries_model(ix.entries@);
                        assert(em =~~= old_entries.push(
                            crate::index::EntryModel { key: new_rs[p][ci as int], positions: seq![p] },
                        ));
                        crate::index::lemma_step_fresh(
                            old_entries,
                            em,
                            prefix,
                            new_rs,
                            p,
                            ci as int,
                        );
                    }
                },
            }
            let ghost new_model = ix@;
            self.indexes.insert(x, ix);
            proof {
                assert(self.idxs() =~= before_models.update(x as int, new_model));
                assert(new_model.column == before_models[x as int].column);
                assert(new_model.entries == entries_model(self.indexes@[x as int].entries@));
                assert(index_entries_wf(new_model.entries, new_rs, ci as int));
                assert(col_pos(cols, new_model.column) == ci as int);
                assert(index_ok(cols, new_rs, new_model));
                assert forall|y: int| 0 <= y < x + 1 implies index_ok(
                    cols,
                    new_rs,
                    #[trigger] self.idxs()[y],
                ) by {
                    if y < x as int {
                        assert(self.idxs()[y] == before_models[y]);
                    } else {
                        assert(self.idxs()[y] == new_model);
                    }
                }
                assert forall|y: int|
                    x + 1 <= y < old_idxs.len() implies #[trigger] self.idxs()[y]
                    == old_idxs[y] by {
                    assert(self.idxs()[y] == before_models[y]);
                }
            }
            x = x + 1;
        }
        if self.synthetic_pk {
            self.next_tuple_id = self.next_tuple_id + 1;
        }
        proof {
            assert(entries_check(cols, im) is None);
            lemma_insert_wf(*old(self), *self, row_m, im);
        }
        Ok(())
    }

    /// Builds (or rebuilds) the secondary index over the named column by one
    /// full scan, grouping row positions by the column's value. Fails with
    /// `InvalidColumn` when no such column exists. Indexes over other columns
    /// are untouched.
    pub fn index_column(&mut self, column_name: String) -> (r: Result<(), DBError>)
        requires
            old(self).wf(),
        ensures
            final(self).wf(),
            final(self).name_model() == old(self).name_model(),
            final(self).cols() == old(self).cols(),
            final(self).pks() == old(self).pks(),
            final(self).rs() == old(self).rs(),
            final(self).synthetic() == old(self).synthetic(),
            final(self).tuple_counter() == old(self).tuple_counter(),
            if has_col(old(self).cols(), column_name@) {
                &&& r is Ok
                &&& final(self).has_index(column_name@)
                &&& forall|n: Seq<char>|
                    #[trigger] final(self).has_index(n) == (old(self).has_index(n) || n
                        == column_name@)
            } else {
                &&& (r matches Err(e) && e matches DBError::InvalidColumn(s) && s@ == column_name@)
                &&& *final(self) == *old(self)
            },
    {
        let ci = match self.find_col(column_name.as_str()) {
            Some(ci) => ci,
            None => {
                return Err(DBError::InvalidColumn(column_name));
            },
        };
        proof {
            lemma_col_pos(self.cols(), column_name@);
            assert forall|q: int| 0 <= q < self.rows@.len() implies ci < (
            #[trigger] self.rows@[q])@.len() by {
                assert(self.rs()[q] == self.rows@[q]@.map_values(|v: FieldValue| v@));
                assert(self.rs()[q].len() == self.cols().len());
            }
        }
        let entries = build_entries(&self.rows, ci);
        let ix = SecondaryIndex { column: column_name, entries };
        let ghost new_model = ix@;
        let ghost before_models = self.idxs();
        let replaced = self.find_index(ix.column.as_str());
        match replaced {
            Some(x) => {
                let _ = self.indexes.remove(x);
                self.indexes.insert(x, ix);
                proof {
                    assert(self.idxs() =~= before_models.update(x as int, new_model));
                }
            },
            None => {
                self.indexes.push(ix);
                proof {
                    assert(self.idxs() =~= before_models.push(new_model));
                }
            },
        }
        proof {
            assert(col_pos(self.cols(), new_model.column) == ci as int);
            assert(index_ok(self.cols(), self.rs(), new_model));
            assert forall|y: int| 0 <= y < self.idxs().len() implies index_ok(
                self.cols(),
                self.rs(),
                #[trigger] self.idxs()[y],
            ) by {
                if y < before_models.len() && (replaced is None || y != replaced.unwrap() as int) {
                    assert(self.idxs()[y] == before_models[y]);
                    assert(index_ok(self.cols(), self.rs(), before_models[y]));
                } else {
                    assert(self.idxs()[y] == new_model);
                }
            }
            assert forall|a: int, b: int|
                0 <= a < b < self.idxs().len() implies self.idxs()[a].column
                != self.idxs()[b].column by {
                match replaced {
                    Some(x) => {
                        assert(before_models[x as int].column == new_model.column);
                        assert(self.idxs()[a].column == before_models[a].column);
                        assert(self.idxs()[b].column == before_models[b].column);
                    },
                    None => {
                        lemma_idx_pos(before_models, new_model.column);
                        assert(self.idxs()[a].column == before_models[a].column);
                        if b < before_models.len() {
                            assert(self.idxs()[b].column == before_models[b].column);
                        } else {
                            assert(self.idxs()[b].column == new_model.column);
                            assert(before_models[a].column != new_model.column);
                        }
                    },
                }
            }
            assert forall|k: int| 0 <= k < self.pks().len() implies self.has_index(
                (#[trigger] self.pks()[k]).name,
            ) by {
                lemma_idx_pos(before_models, self.pks()[k].name);
                let y = idx_pos(before_models, self.pks()[k].name);
                assert(old(self).has_index(self.pks()[k].name));
                assert(before_models[y].column == self.pks()[k].name);
                assert(self.idxs()[y].column == self.pks()[k].name || (replaced matches Some(x)
                    && y == x as int));
                match replaced {
                    Some(x) => {
                        if y == x as int {
                            assert(self.idxs()[y].column == new_model.column);
                            assert(new_model.column == before_models[y].column);
                        }
                    },
                    None => {},
                }
                lemma_idx_pos(self.idxs(), self.pks()[k].name);
            }
            assert forall|n: Seq<char>| #[trigger] self.has_index(n) == (old(self).has_index(n)
                || n == new_model.column) by {
                lemma_idx_pos(self.idxs(), n);
                lemma_idx_pos(before_models, n);
                if self.has_index(n) {
                    let y = idx_pos(self.idxs(), n);
                    if (replaced matches Some(x) && y == x as int) || y >= before_models.len() {
                        assert(self.idxs()[y].column == new_model.column);
                    } else {
                        assert(self.idxs()[y] == before_models[y]);
                    }
                } else {
                    if old(self).has_index(n) {
                        let y = idx_pos(before_models, n);
                        match replaced {
                            Some(x) => {
                                if y == x as int {
                                    assert(new_model.column == before_models[y].column);
                                }
                                assert(self.idxs()[y].column == n);
                            },
                            None => {
                                assert(self.idxs()[y].column == n);
                            },
                        }
                    }
                    if n == new_model.column {
                        match replaced {
                            Some(x) => {
                                assert(self.idxs()[x as int].column == n);
                            },
                            None => {
                                assert(self.idxs()[before_models.len() as int].column == n);
                            },
                        }
                    }
                }
            }
            assert(self.has_index(new_model.column));
        }
        Ok(())
    }

    /// The schema position of the column that index `x` covers.
    fn find_col_of_index(&self, x: usize) -> (r: Option<usize>)
        requires
            x < self.idxs().len(),
        ensures
            match r {
                Some(ci) => ci as int == col_pos(self.cols(), self.idxs()[x as int].column) && (
                ci as int) < self.cols().len(),
                None => col_pos(self.cols(), self.idxs()[x as int].column) == -1,
            },
    {
        proof {
            assert(self.idxs()[x as int] == self.indexes@[x as int]@);
        }
        self.find_col(self.indexes[x].column.as_str())
    }
}

/// After an accepted insert, the grown table is well-formed and its rows are
/// the old rows with the accepted row appended.
proof fn lemma_insert_wf(before: Table, after: Table, row_m: Seq<Val>, im: Seq<(Seq<char>, Val)>)
    requires
        before.wf(),
        entries_check(before.cols(), im) is None,
        after.cols() == before.cols(),
        after.pks() == before.pks(),
        after.name_model() == before.name_model(),
        after.synthetic() == before.synthetic(),
        after.rs() == before.rs().push(row_m),
        after.idxs().len() == before.idxs().len(),
        forall|y: int|
            0 <= y < before.idxs().len() ==> (#[trigger] after.idxs()[y]).column
                == before.idxs()[y].column,
        forall|y: int|
            0 <= y < after.idxs().len() ==> index_ok(after.cols(), after.rs(), #[trigger] after.idxs()[y]),
        row_m == aligned_row(before.cols(), im, before.synthetic(), before.tuple_counter()),
        after.tuple_counter() == before.tuple_counter() + (if before.synthetic() {
            1int
        } else {
            0int
        }),
    ensures
        after.wf(),
{
    let cols = before.cols();
    assert(row_m.len() == cols.len());
    assert forall|c: int| 0 <= c < cols.len() implies val_fits(
        row_m[c],
        cols[c].data_type,
    ) by {
        if before.synthetic() && cols[c].name == tuple_id_name() {
            let ti = col_pos(cols, tuple_id_name());
            lemma_col_pos(cols, tuple_id_name());
            lemma_col_pos_of(cols, c);
            assert(ti == c);
            assert(cols[c].data_type == DataType::Number);
        } else {
            match input_lookup(im, cols[c].name) {
                Some(v) => {
                    lemma_entries_check_ok(cols, im, cols[c].name);
                    lemma_col_pos_of(cols, c);
                },
                None => {},
            }
        }
    }
    assert forall|r: int, c: int|
        0 <= r < after.rs().len() && 0 <= c < cols.len() implies val_fits(
        #[trigger] after.rs()[r][c],
        cols[c].data_type,
    ) by {
        if r < before.rs().len() {
            assert(after.rs()[r] == before.rs()[r]);
            assert(val_fits(before.rs()[r][c], cols[c].data_type));
        } else {
            assert(after.rs()[r] == row_m);
        }
    }
    assert forall|k: int| 0 <= k < after.pks().len() implies after.has_index(
        (#[trigger] after.pks()[k]).name,
    ) by {
        assert(before.has_index(before.pks()[k].name));
        lemma_idx_pos(before.idxs(), before.pks()[k].name);
        let y = idx_pos(before.idxs(), before.pks()[k].name);
        assert(after.idxs()[y].column == before.pks()[k].name);
        lemma_idx_pos(after.idxs(), after.pks()[k].name);
    }
    if after.synthetic() {
        let ti = col_pos(cols, tuple_id_name());
        lemma_col_pos(cols, tuple_id_name());
        assert forall|r: int| 0 <= r < after.rs().len() implies tuple_cell_fresh(
            #[trigger] after.rs()[r],
            ti,
            after.tuple_counter(),
        ) by {
            if r < before.rs().len() {
                assert(after.rs()[r] == before.rs()[r]);
                assert(tuple_cell_fresh(before.rs()[r], ti, before.tuple_counter()));
            } else {
                assert(after.rs()[r] == row_m);
                assert(cols[ti].name == tuple_id_name());
                assert(row_m[ti] == Val::Number(before.tuple_counter()));
            }
        }
    }
}

/// The row predicate of a selection: whether a row's cell in column `ci`
/// satisfies the condition.
pub open spec fn row_pred(ci: int, c: Cond) -> spec_fn(Seq<Val>) -> bool {
    |row: Seq<Val>| cond_matches(row[ci], c)
}

/// The rows that a selection keeps, in storage order.
pub open spec fn filter_rows(rs: Seq<Seq<Val>>, ci: int, c: Cond) -> Seq<Seq<Val>> {
    rs.filter(row_pred(ci, c))
}

/// The rows at the given positions, in position order.
pub open spec fn rows_at(rs: Seq<Seq<Val>>, ps: Seq<int>) -> Seq<Seq<Val>> {
    ps.map_values(|p: int| rs[p])
}

/// The positions as mathematical integers.
pub open spec fn upos(ps: Seq<usize>) -> Seq<int> {
    ps.map_values(|u: usize| u as int)
}

/// The positions of the matching rows, in ascending order.
pub open spec fn match_positions(rs: Seq<Seq<Val>>, ci: int, c: Cond) -> Seq<int>
    decreases rs.len(),
{
    if rs.len() == 0 {
        Seq::empty()
    } else {
        let pre = match_positions(rs.drop_last(), ci, c);
        if cond_matches(rs.last()[ci], c) {
            pre.push(rs.len() - 1)
        } else {
            pre
        }
    }
}

/// What [`match_positions`] yields: exactly the positions of matching rows,
/// without duplicates, and mapping them back gives exactly the filtered rows.
pub proof fn lemma_match_positions(rs: Seq<Seq<Val>>, ci: int, c: Cond)
    ensures
        forall|p: int|
            #[trigger] match_positions(rs, ci, c).contains(p) <==> 0 <= p < rs.len()
                && cond_matches(rs[p][ci], c),
        match_positions(rs, ci, c).no_duplicates(),
        rows_at(rs, match_positions(rs, ci, c)) == filter_rows(rs, ci, c),
    decreases rs.len(),
{
    reveal(Seq::filter);
    if rs.len() == 0 {
        assert(rows_at(rs, match_positions(rs, ci, c)) =~= filter_rows(rs, ci, c));
    } else {
        let n = rs.len() - 1;
        let sub = rs.drop_last();
        lemma_match_positions(sub, ci, c);
        let pre = match_positions(sub, ci, c);
        assert(forall|p: int| #[trigger] pre.contains(p) ==> 0 <= p < n);
        // membership and distinctness
        if cond_matches(rs[n][ci], c) {
            let ps = pre.push(n);
            assert forall|p: int| #[trigger] ps.contains(p) implies 0 <= p < rs.len()
                && cond_matches(rs[p][ci], c) by {
                let k = choose|k: int| 0 <= k < ps.len() && ps[k] == p;
                if k < pre.len() {
                    assert(pre.contains(p));
                    assert(sub[p] == rs[p]);
                }
            }
            assert forall|p: int|
                0 <= p < rs.len() && cond_matches(rs[p][ci], c) implies #[trigger] ps.contains(
                p,
            ) by {
                if p < n {
                    assert(sub[p] == rs[p]);
                    assert(pre.contains(p));
                    let k = choose|k: int| 0 <= k < pre.len() && pre[k] == p;
                    assert(ps[k] == p);
                } else {
                    assert(ps[ps.len() - 1] == p);
                }
            }
            assert forall|i: int, j: int| 0 <= i < j < ps.len() implies ps[i] != ps[j] by {
                if j < pre.len() {
                    assert(pre.no_duplicates());
                } else {
                    assert(pre.contains(ps[i]));
                }
            }
            assert(ps.no_duplicates());
        } else {
            assert forall|p: int| #[trigger] pre.contains(p) implies 0 <= p < rs.len()
                && cond_matches(rs[p][ci], c) by {
                assert(sub[p] == rs[p]);
            }
            assert forall|p: int|
                0 <= p < rs.len() && cond_matches(rs[p][ci], c) implies #[trigger] pre.contains(
                p,
            ) by {
                if p < n {
                    assert(sub[p] == rs[p]);
                }
            }
        }
        // mapping back gives the filtered rows
        assert(sub.filter(row_pred(ci, c)) == filter_rows(sub, ci, c));
        assert(rows_at(sub, pre) == filter_rows(sub, ci, c));
        assert forall|k: int| 0 <= k < pre.len() implies rs[#[trigger] pre[k]] == sub[pre[k]] by {
            assert(pre.contains(pre[k]));
        }
        if cond_matches(rs[n][ci], c) {
            assert(row_pred(ci, c)(rs.last()));
            assert(filter_rows(rs, ci, c) == filter_rows(sub, ci, c).push(rs[n]));
            assert(rows_at(rs, pre.push(n)) =~= rows_at(sub, pre).push(rs[n]));
        } else {
            assert(!(row_pred(ci, c)(rs.last())));
            assert(filter_rows(rs, ci, c) == filter_rows(sub, ci, c));
            assert(rows_at(rs, pre) =~= rows_at(sub, pre));
        }
    }
}

/// Any duplicate-free list of exactly the matching positions maps back to the
/// filtered rows, up to order.
pub proof fn lemma_positions_rows_multiset(rs: Seq<Seq<Val>>, ci: int, c: Cond, ps: Seq<int>)
    requires
        ps.no_duplicates(),
        forall|p: int|
            #[trigger] ps.contains(p) <==> 0 <= p < rs.len() && cond_matches(rs[p][ci], c),
    ensures
        rows_at(rs, ps).to_multiset() == filter_rows(rs, ci, c).to_multiset(),
{
    lemma_match_positions(rs, ci, c);
    let canon = match_positions(rs, ci, c);
    crate::seq_lemmas::lemma_nodup_same_members_multiset(ps, canon);
    crate::seq_lemmas::lemma_map_values_multiset(ps, canon, |p: int| rs[p]);
}

/// Joins four string pieces into one.
pub(crate) fn compose_name(a: &str, b: &str, c: &str, d: &str) -> (r: String)
    ensures
        r@ == a@ + b@ + c@ + d@,
{
    let mut out = String::new();
    out.append(a);
    out.append(b);
    out.append(c);
    out.append(d);
    proof {
        assert(out@ =~= a@ + b@ + c@ + d@);
    }
    out
}

/// Clones one row of cells.
pub(crate) fn clone_row(row: &Vec<FieldValue>) -> (r: Vec<FieldValue>)
    ensures
        r@.map_values(|v: FieldValue| v@) == row@.map_values(|v: FieldValue| v@),
        r@.len() == row@.len(),
{
    let mut out: Vec<FieldValue> = Vec::new();
    let mut i: usize = 0;
    while i < row.len()
        invariant
            i <= row@.len(),
            out@.map_values(|v: FieldValue| v@) =~= row@.map_values(|v: FieldValue| v@).take(
                i as int,
            ),
            out@.len() == i,
        decreases row@.len() - i,
    {
        out.push(row[i].clone());
        proof {
            assert(row@.map_values(|v: FieldValue| v@).take(i as int + 1) =~= row@.map_values(
                |v: FieldValue| v@,
            ).take(i as int).push(row@[i as int]@));
        }
        i = i + 1;
    }
    proof {
        assert(row@.map_values(|v: FieldValue| v@).take(row@.len() as int) =~= row@.map_values(
            |v: FieldValue| v@,
        ));
    }
    out
}

impl Table {
    /// Clones the schema.
    pub(crate) fn clone_columns(&self) -> (r: Vec<Column>)
        ensures
            cols_model(r@) == self.cols(),
    {
        let mut out: Vec<Column> = Vec::new();
        let mut i: usize = 0;
        while i < self.columns.len()
            invariant
                i <= self.columns@.len(),
                cols_model(out@) =~= self.cols().take(i as int),
            decreases self.columns@.len() - i,
        {
            out.push(self.columns[i].clone());
            proof {
                assert(self.cols()[i as int] == self.columns@[i as int]@);
                assert(self.cols().take(i as int + 1) =~= self.cols().take(i as int).push(
                    self.cols()[i as int],
                ));
            }
            i = i + 1;
        }
        proof {
            assert(self.cols().take(self.columns@.len() as int) =~= self.cols());
        }
        out
    }

    /// Appends a row to a table without primary keys or indexes, keeping it
    /// well-formed. Result tables are filled through this.
    pub(crate) fn push_row_direct(&mut self, row: Vec<FieldValue>)
        requires
            old(self).wf(),
            old(self).pks().len() == 0,
            old(self).idxs().len() == 0,
            !old(self).synthetic(),
            row@.len() == old(self).cols().len(),
            forall|c: int|
                0 <= c < old(self).cols().len() ==> val_fits(
                    row@.map_values(|v: FieldValue| v@)[c],
                    (#[trigger] old(self).cols()[c]).data_type,
                ),
        ensures
            final(self).wf(),
            *final(self) == (Table {
                rows: final(self).rows,
                ..*old(self)
            }),
            final(self).rs() == old(self).rs().push(row@.map_values(|v: FieldValue| v@)),
            final(self).cols() == old(self).cols(),
            final(self).pks() == old(self).pks(),
            final(self).idxs() == old(self).idxs(),
            final(self).name_model() == old(self).name_model(),
            final(self).synthetic() == old(self).synthetic(),
    {
        self.rows.push(row);
        proof {
            assert(self.rs() =~= old(self).rs().push(
                self.rows@[self.rows@.len() - 1]@.map_values(|v: FieldValue| v@),
            ));
        }
    }

    /// Evaluates a well-shaped condition against every row by a full scan and
    /// collects the matching rows into a fresh result table.
    fn scan_select(&self, ci: usize, criteria: &FilterCondition, name: String) -> (t: Table)
        requires
            self.wf(),
            ci < self.cols().len(),
            cond_ok(criteria@),
        ensures
            t.wf(),
            t.cols() == self.cols(),
            t.pks().len() == 0,
            t.idxs().len() == 0,
            t.name_model() == name@,
            t.rs() == filter_rows(self.rs(), ci as int, criteria@),
    {
        let ghost rs = self.rs();
        let ghost c = criteria@;
        let cols = self.clone_columns();
        let mut t = Table::new_result(name, cols);
        let mut p: usize = 0;
        proof {
            reveal(Seq::filter);
            assert(rs.take(0) =~= Seq::<Seq<Val>>::empty());
            assert(t.rs() =~= filter_rows(rs.take(0), ci as int, c));
        }
        while p < self.rows.len()
            invariant
                p <= self.rows@.len(),
                self.wf(),
                ci < self.cols().len(),
                cond_ok(c),
                c == criteria@,
                rs == self.rs(),
                t.wf(),
                t.cols() == self.cols(),
                t.pks().len() == 0,
                t.idxs().len() == 0,
                !t.synthetic(),
                t.name_model() == name@,
                t.rs() == filter_rows(rs.take(p as int), ci as int, c),
            decreases self.rows@.len() - p,
        {
            proof {
                assert(rs[p as int] == self.rows@[p as int]@.map_values(|v: FieldValue| v@));
                assert(rs[p as int].len() == self.cols().len());
                assert(rs.take(p as int + 1) =~= rs.take(p as int).push(rs[p as int]));
                rs.take(p as int).lemma_filter_push(rs[p as int], row_pred(ci as int, c));
            }
            let matched = match crate::filter::non_index_row_matches_search_critieria(
                &self.rows[p][ci],
                criteria,
            ) {
                Ok(b) => b,
                Err(_) => vstd::pervasive::unreached(),
            };
            if matched {
                let copied = clone_row(&self.rows[p]);
                proof {
                    assert(val_fits(rs[p as int][ci as int], self.cols()[ci as int].data_type));
                }
                t.push_row_direct(copied);
            }
            p = p + 1;
        }
        proof {
            assert(rs.take(self.rows@.len() as int) =~= rs);
        }
        t
    }
}

impl Table {
    /// Collects, from the live index at `xi`, the positions of all rows whose
    /// value in the indexed column satisfies the condition, grouped by key.
    fn collect_index_positions(&self, xi: usize, criteria: &FilterCondition) -> (ps: Vec<usize>)
        requires
            self.wf(),
            xi < self.idxs().len(),
            cond_ok(criteria@),
        ensures
            ps@.no_duplicates(),
            forall|p: int|
                #[trigger] upos(ps@).contains(p) <==> 0 <= p < self.rs().len() && cond_matches(
                    self.rs()[p][col_pos(self.cols(), self.idxs()[xi as int].column)],
                    criteria@,
                ),
    {
        let ghost rs = self.rs();
        let ghost c = criteria@;
        let ghost es = self.idxs()[xi as int].entries;
        let ghost ci = col_pos(self.cols(), self.idxs()[xi as int].column);
        proof {
            assert(index_ok(self.cols(), rs, self.idxs()[xi as int]));
        }
        let entries = &self.indexes[xi].entries;
        proof {
            assert(entries_model(entries@) == es);
        }
        let mut ps: Vec<usize> = Vec::new();
        let mut i: usize = 0;
        while i < entries.len()
            invariant
                i <= entries@.len(),
                es == entries_model(entries@),
                index_entries_wf(es, rs, ci),
                cond_ok(c),
                c == criteria@,
                ps@.no_duplicates(),
                forall|p: int|
                    #[trigger] upos(ps@).contains(p) <==> exists|y: int, kk: int|
                        0 <= y < i && 0 <= kk < es[y].positions.len() && #[trigger] es[y].positions[kk] == p && cond_matches(es[y].key, c),
            decreases entries@.len() - i,
        {
            proof {
                assert(es[i as int] == entries@[i as int]@);
            }
            let matched = match crate::filter::non_index_row_matches_search_critieria(
                &entries[i].key,
                criteria,
            ) {
                Ok(b) => b,
                Err(_) => vstd::pervasive::unreached(),
            };
            if matched {
                let plist = &entries[i].positions;
                let mut k: usize = 0;
                while k < plist.len()
                    invariant
                        k <= plist@.len(),
                        es == entries_model(entries@),
                        index_entries_wf(es, rs, ci),
                        i < entries@.len(),
                        es[i as int] == entries@[i as int]@,
                        plist@ == entries@[i as int].positions@,
                        cond_matches(es[i as int].key, c),
                        ps@.no_duplicates(),
                        forall|p: int|
                            #[trigger] upos(ps@).contains(p) <==> (exists|y: int, kk: int|
                                0 <= y < i && 0 <= kk < es[y].positions.len() && #[trigger] es[y].positions[kk] == p && cond_matches(es[y].key, c)) || (exists|
                            kk: int,
                            |
                                0 <= kk < k && es[i as int].positions[kk] == p),
                    decreases plist@.len() - k,
                {
                    let ghost old_ps = ps@;
                    proof {
                        assert(es[i as int].positions[k as int] == plist@[k as int] as int);
                        assert(entry_sound(es[i as int], rs, ci));
                        // the new position is not yet present
                        if upos(old_ps).contains(plist@[k as int] as int) {
                            let p = plist@[k as int] as int;
                            assert(rs[p][ci] == es[i as int].key);
                            if exists|y: int, kk: int|
                                0 <= y < i && 0 <= kk < es[y].positions.len() && #[trigger] es[y].positions[kk] == p && cond_matches(es[y].key, c) {
                                let (y, kk) = choose|y: int, kk: int|
                                    0 <= y < i && 0 <= kk < es[y].positions.len() && #[trigger] es[y].positions[kk] == p && cond_matches(es[y].key, c);
                                assert(rs[p][ci] == es[y].key);
                                assert(es[y].key == es[i as int].key);
                                assert(false);
                            } else {
                                let kk = choose|kk: int|
                                    0 <= kk < k && es[i as int].positions[kk] == p;
                                assert(crate::index::positions_ascending(es[i as int].positions));
                                assert(false);
                            }
                        }
                    }
                    ps.push(plist[k]);
                    proof {
                        assert(upos(ps@) =~= upos(old_ps).push(plist@[k as int] as int));
                        assert forall|a: int, b: int|
                            0 <= a < b < ps@.len() implies ps@[a] != ps@[b] by {
                            if b == ps@.len() - 1 {
                                assert(upos(old_ps)[a] == old_ps[a] as int);
                                assert(upos(old_ps).contains(old_ps[a] as int));
                            }
                        }
                        assert forall|p: int| #[trigger] upos(ps@).contains(p) implies (exists|
                            y: int,
                            kk: int,
                        |
                            0 <= y < i && 0 <= kk < es[y].positions.len() && #[trigger] es[y].positions[kk] == p && cond_matches(es[y].key, c)) || (exists|
                            kk: int,
                        |
                            0 <= kk < k + 1 && es[i as int].positions[kk] == p) by {
                            let q = choose|q: int| 0 <= q < upos(ps@).len() && upos(ps@)[q] == p;
                            if q < old_ps.len() {
                                assert(upos(old_ps)[q] == p);
                                assert(upos(old_ps).contains(p));
                            } else {
                                assert(es[i as int].positions[k as int] == p);
                            }
                        }
                        assert forall|p: int|
                            ((exists|y: int, kk: int|
                                0 <= y < i && 0 <= kk < es[y].positions.len() && #[trigger] es[y].positions[kk] == p && cond_matches(es[y].key, c)) || (exists|
                            kk: int,
                            |
                                0 <= kk < k + 1 && es[i as int].positions[kk] == p)) implies #[trigger] upos(
                            ps@,
                        ).contains(p) by {
                            if exists|kk: int| 0 <= kk < k + 1 && es[i as int].positions[kk] == p {
                                let kk = choose|kk: int|
                                    0 <= kk < k + 1 && es[i as int].positions[kk] == p;
                                if kk < k {
                                    assert(upos(old_ps).contains(p));
                                    let q = choose|q: int|
                                        0 <= q < upos(old_ps).len() && upos(old_ps)[q] == p;
                                    assert(upos(ps@)[q] == p);
                                } else {
                                    assert(upos(ps@)[ps@.len() - 1] == p);
                                }
                            } else {
                                assert(upos(old_ps).contains(p));
                                let q = choose|q: int|
                                    0 <= q < upos(old_ps).len() && upos(old_ps)[q] == p;
                                assert(upos(ps@)[q] == p);
                            }
                        }
                    }
                    k = k + 1;
                }
            }
            i = i + 1;
        }
        proof {
            assert forall|p: int| #[trigger] upos(ps@).contains(p) implies 0 <= p < rs.len()
                && cond_matches(rs[p][ci], c) by {
                let (y, kk) = choose|y: int, kk: int|
                    0 <= y < entries@.len() && 0 <= kk < es[y].positions.len() && #[trigger] es[y].positions[kk] == p && cond_matches(es[y].key, c);
                assert(entry_sound(es[y], rs, ci));
            }
            assert forall|p: int|
                0 <= p < rs.len() && cond_matches(rs[p][ci], c) implies #[trigger] upos(
                ps@,
            ).contains(p) by {
                assert(index_covers(es, rs[p], p, ci));
                let y = choose|y: int|
                    0 <= y < es.len() && (#[trigger] es[y]).key == rs[p][ci]
                        && es[y].positions.contains(p);
                let kk = choose|kk: int|
                    0 <= kk < es[y].positions.len() && es[y].positions[kk] == p;
                assert(cond_matches(es[y].key, c));
            }
        }
        ps
    }

    /// Builds the result table of an index-backed selection from the
    /// collected row positions.
    fn index_select(&self, xi: usize, criteria: &FilterCondition, name: String) -> (t: Table)
        requires
            self.wf(),
            xi < self.idxs().len(),
            cond_ok(criteria@),
        ensures
            t.wf(),
            t.cols() == self.cols(),
            t.pks().len() == 0,
            t.idxs().len() == 0,
            t.name_model() == name@,
            t.rs().to_multiset() == filter_rows(
                self.rs(),
                col_pos(self.cols(), self.idxs()[xi as int].column),
                criteria@,
            ).to_multiset(),
    {
        let ghost rs = self.rs();
        let ghost c = criteria@;
        let ghost ci = col_pos(self.cols(), self.idxs()[xi as int].column);
        proof {
            assert(index_ok(self.cols(), rs, self.idxs()[xi as int]));
        }
        let ps = self.collect_index_positions(xi, criteria);
        let cols = self.clone_columns();
        let mut t = Table::new_result(name, cols);
        let mut k: usize = 0;
        proof {
            lemma_col_pos(self.cols(), self.idxs()[xi as int].column);
            assert(t.rs() =~= rows_at(rs, upos(ps@).take(0)));
        }
        while k < ps.len()
            invariant
                k <= ps@.len(),
                self.wf(),
                rs == self.rs(),
                c == criteria@,
                0 <= ci < self.cols().len(),
                forall|p: int| #[trigger] upos(ps@).contains(p) ==> 0 <= p < rs.len(),
                t.wf(),
                t.cols() == self.cols(),
                t.pks().len() == 0,
                t.idxs().len() == 0,
                !t.synthetic(),
                t.name_model() == name@,
                t.rs() == rows_at(rs, upos(ps@).take(k as int)),
            decreases ps@.len() - k,
        {
            proof {
                assert(upos(ps@)[k as int] == ps@[k as int] as int);
                assert(upos(ps@).contains(ps@[k as int] as int));
                assert(rs[ps@[k as int] as int] == self.rows@[ps@[k as int] as int]@.map_values(
                    |v: FieldValue| v@,
                ));
                assert(rs[ps@[k as int] as int].len() == self.cols().len());
                assert(upos(ps@).take(k as int + 1) =~= upos(ps@).take(k as int).push(
                    upos(ps@)[k as int],
                ));
                assert(rows_at(rs, upos(ps@).take(k as int + 1)) =~= rows_at(
                    rs,
                    upos(ps@).take(k as int),
                ).push(rs[ps@[k as int] as int]));
            }
            let copied = clone_row(&self.rows[ps[k]]);
            t.push_row_direct(copied);
            k = k + 1;
        }
        proof {
            assert(upos(ps@).take(ps@.len() as int) =~= upos(ps@));
            assert forall|a: int, b: int|
                0 <= a < b < upos(ps@).len() implies upos(ps@)[a] != upos(ps@)[b] by {
                assert(upos(ps@)[a] == ps@[a] as int);
                assert(upos(ps@)[b] == ps@[b] as int);
            }
            lemma_positions_rows_multiset(rs, ci, c, upos(ps@));
        }
        t
    }
}

/// The index of the first requested name that is not a column or repeats an
/// earlier requested name, or -1 when all names are distinct columns.
pub open spec fn first_bad_name(cols: Seq<ColModel>, nm: Seq<Seq<char>>, k: int) -> int
    decreases nm.len() - k,
{
    if k < 0 || k >= nm.len() {
        -1
    } else if col_pos(cols, nm[k]) < 0 || nm.take(k).contains(nm[k]) {
        k
    } else {
        first_bad_name(cols, nm, k + 1)
    }
}

/// The requested columns of a projection, in request order.
pub open spec fn projected_cols(cols: Seq<ColModel>, nm: Seq<Seq<char>>) -> Seq<ColModel> {
    nm.map_values(|n: Seq<char>| cols[col_pos(cols, n)])
}

/// One row of a projection: the cells of the requested columns, in request
/// order.
pub open spec fn projected_row(cols: Seq<ColModel>, nm: Seq<Seq<char>>, row: Seq<Val>) -> Seq<
    Val,
> {
    nm.map_values(|n: Seq<char>| row[col_pos(cols, n)])
}

impl Table {
    /// Selects the rows whose value in the named column satisfies the
    /// condition, as a fresh result table sharing this table's schema but
    /// carrying no primary keys and no indexes. When a live index over the
    /// column can answer the condition it is used; `NotEqual` and `NotNull`
    /// fall back to a full scan. Fails with `InvalidColumn` for an unknown
    /// column and with `MisMatchConditionDataType` for a malformed condition.
    pub fn select_rows(&self, column_name: &String, search_criteria: FilterCondition) -> (r:
        Result<Table, DBError>)
        requires
            self.wf(),
        ensures
            !has_col(self.cols(), column_name@) ==> (r matches Err(e) && e matches
                DBError::InvalidColumn(s) && s@ == column_name@),
            has_col(self.cols(), column_name@) && !cond_ok(search_criteria@) ==> (r matches Err(e)
                && e matches DBError::MisMatchConditionDataType(_, _)),
            has_col(self.cols(), column_name@) && cond_ok(search_criteria@) ==> (r matches Ok(t)
                && t.wf() && t.cols() == self.cols() && t.pks().len() == 0 && t.idxs().len() == 0
                && t.rs().to_multiset() == filter_rows(
                self.rs(),
                col_pos(self.cols(), column_name@),
                search_criteria@,
            ).to_multiset()),
    {
        let ci = match self.find_col(column_name.as_str()) {
            Some(ci) => ci,
            None => {
                return Err(DBError::InvalidColumn(column_name.clone()));
            },
        };
        match crate::filter::non_index_row_matches_search_critieria(
            &FieldValue::Null,
            &search_criteria,
        ) {
            Err(e) => {
                return Err(e);
            },
            Ok(_) => {},
        }
        let name = compose_name(
            "temp table ",
            self.name.as_str(),
            " with filtered rows on column ",
            column_name.as_str(),
        );
        if crate::filter::condition_index_supported(&search_criteria) {
            match self.find_index(column_name.as_str()) {
                Some(xi) => {
                    let t = self.index_select(xi, &search_criteria, name);
                    return Ok(t);
                },
                None => {},
            }
        }
        let t = self.scan_select(ci, &search_criteria, name);
        Ok(t)
    }

    /// Selects by a forced full scan, never touching an index: the matching
    /// rows in storage order, in a fresh result table. Same validation and
    /// errors as [`Table::select_rows`].
    pub fn select_rows_scan(&self, column_name: &String, search_criteria: FilterCondition) -> (r:
        Result<Table, DBError>)
        requires
            self.wf(),
        ensures
            !has_col(self.cols(), column_name@) ==> (r matches Err(e) && e matches
                DBError::InvalidColumn(s) && s@ == column_name@),
            has_col(self.cols(), column_name@) && !cond_ok(search_criteria@) ==> (r matches Err(e)
                && e matches DBError::MisMatchConditionDataType(_, _)),
            has_col(self.cols(), column_name@) && cond_ok(search_criteria@) ==> (r matches Ok(t)
                && t.wf() && t.cols() == self.cols() && t.pks().len() == 0 && t.idxs().len() == 0
                && t.rs() == filter_rows(
                self.rs(),
                col_pos(self.cols(), column_name@),
                search_criteria@,
            )),
    {
        let ci = match self.find_col(column_name.as_str()) {
            Some(ci) => ci,
            None => {
                return Err(DBError::InvalidColumn(column_name.clone()));
            },
        };
        match crate::filter::non_index_row_matches_search_critieria(
            &FieldValue::Null,
            &search_criteria,
        ) {
            Err(e) => {
                return Err(e);
            },
            Ok(_) => {},
        }
        let name = compose_name(
            "temp table ",
            self.name.as_str(),
            " with filtered rows on column ",
            column_name.as_str(),
        );
        let t = self.scan_select(ci, &search_criteria, name);
        Ok(t)
    }

    /// Projects the requested columns into a fresh result table: the schema
    /// is the requested columns in request order, and each row keeps exactly
    /// those cells. Fails with `InvalidColumn` for an unknown name, and for a
    /// repeated one, since a table cannot hold two columns of one name.
    pub fn select_columns(&self, column_names: &Vec<String>) -> (r: Result<Table, DBError>)
        requires
            self.wf(),
        ensures
            ({
                let nm = column_names@.map_values(|s: String| s@);
                let bad = first_bad_name(self.cols(), nm, 0);
                if bad >= 0 {
                    r matches Err(e) && e matches DBError::InvalidColumn(s) && s@ == nm[bad]
                } else {
                    r matches Ok(t) && t.wf() && t.cols() == projected_cols(self.cols(), nm)
                        && t.pks().len() == 0 && t.idxs().len() == 0 && t.rs()
                        == self.rs().map_values(|row: Seq<Val>| projected_row(self.cols(), nm, row))
                }
            }),
    {
        let ghost nm = column_names@.map_values(|s: String| s@);
        let ghost cm = self.cols();
        let mut cis: Vec<usize> = Vec::new();
        let mut picked: Vec<Column> = Vec::new();
        let mut seen: Vec<String> = Vec::new();
        let mut k: usize = 0;
        while k < column_names.len()
            invariant
                k <= column_names@.len(),
                self.wf(),
                cm == self.cols(),
                nm == column_names@.map_values(|s: String| s@),
                first_bad_name(cm, nm, 0) == first_bad_name(cm, nm, k as int),
                cis@.len() == k,
                forall|j: int| 0 <= j < k ==> (#[trigger] cis@[j]) as int == col_pos(cm, nm[j]),
                forall|j: int| 0 <= j < k ==> 0 <= col_pos(cm, #[trigger] nm[j]) < cm.len(),
                forall|j: int| 0 <= j < k ==> !nm.take(j).contains(#[trigger] nm[j]),
                cols_model(picked@) =~= projected_cols(cm, nm).take(k as int),
                seen@.map_values(|s: String| s@) =~= nm.take(k as int),
            decreases column_names@.len() - k,
        {
            proof {
                assert(nm[k as int] == column_names@[k as int]@);
            }
            let dup = contains_name(&seen, column_names[k].as_str());
            if dup {
                proof {
                    assert(nm.take(k as int).contains(nm[k as int]));
                    assert(first_bad_name(cm, nm, k as int) == k as int);
                }
                return Err(DBError::InvalidColumn(column_names[k].clone()));
            }
            let ci = match self.find_col(column_names[k].as_str()) {
                Some(ci) => ci,
                None => {
                    proof {
                        assert(!nm.take(k as int).contains(nm[k as int]));
                        assert(first_bad_name(cm, nm, k as int) == k as int);
                    }
                    return Err(DBError::InvalidColumn(column_names[k].clone()));
                },
            };
            cis.push(ci);
            picked.push(self.columns[ci].clone());
            seen.push(column_names[k].clone());
            proof {
                assert(!nm.take(k as int).contains(nm[k as int]));
                assert(first_bad_name(cm, nm, k as int) == first_bad_name(cm, nm, k as int + 1));
                assert(cm[ci as int] == self.columns@[ci as int]@);
                assert(projected_cols(cm, nm)[k as int] == cm[col_pos(cm, nm[k as int])]);
                assert(projected_cols(cm, nm).take(k as int + 1) =~= projected_cols(
                    cm,
                    nm,
                ).take(k as int).push(projected_cols(cm, nm)[k as int]));
                assert(nm.take(k as int + 1) =~= nm.take(k as int).push(nm[k as int]));
            }
            k = k + 1;
        }
        proof {
            assert(projected_cols(cm, nm).take(column_names@.len() as int) =~= projected_cols(
                cm,
                nm,
            ));
            assert(nm.take(column_names@.len() as int) =~= nm);
            assert forall|a: int, b: int|
                0 <= a < b < projected_cols(cm, nm).len() implies projected_cols(cm, nm)[a].name
                != projected_cols(cm, nm)[b].name by {
                lemma_col_pos(cm, nm[a]);
                lemma_col_pos(cm, nm[b]);
                assert(projected_cols(cm, nm)[a].name == nm[a]);
                assert(projected_cols(cm, nm)[b].name == nm[b]);
                assert(nm.take(b).contains(nm[b]) == false);
                assert(nm.take(b)[a] == nm[a]);
            }
        }
        let name = compose_name("reduced version of '", self.name.as_str(), "'", " with filtered columns");
        let mut t = Table::new_result(name, picked);
        let ghost proj = |row: Seq<Val>| projected_row(cm, nm, row);
        let mut p: usize = 0;
        proof {
            assert(t.rs() =~= self.rs().map_values(proj).take(0));
        }
        while p < self.rows.len()
            invariant
                p <= self.rows@.len(),
                self.wf(),
                cm == self.cols(),
                nm == column_names@.map_values(|s: String| s@),
                cis@.len() == nm.len(),
                forall|j: int| 0 <= j < nm.len() ==> (#[trigger] cis@[j]) as int == col_pos(cm, nm[j]),
                forall|j: int| 0 <= j < nm.len() ==> 0 <= col_pos(cm, #[trigger] nm[j]) < cm.len(),
                proj == (|row: Seq<Val>| projected_row(cm, nm, row)),
                t.wf(),
                t.cols() == projected_cols(cm, nm),
                t.pks().len() == 0,
                t.idxs().len() == 0,
                !t.synthetic(),
                t.rs() =~= self.rs().map_values(proj).take(p as int),
            decreases self.rows@.len() - p,
        {
            let ghost row_m = self.rs()[p as int];
            proof {
                assert(row_m == self.rows@[p as int]@.map_values(|v: FieldValue| v@));
                assert(row_m.len() == cm.len());
            }
            let src_row = &self.rows[p];
            let mut out_row: Vec<FieldValue> = Vec::new();
            let mut j: usize = 0;
            while j < cis.len()
                invariant
                    j <= cis@.len(),
                    self.wf(),
                    cm == self.cols(),
                    cis@.len() == nm.len(),
                    forall|jj: int|
                        0 <= jj < nm.len() ==> (#[trigger] cis@[jj]) as int == col_pos(cm, nm[jj]),
                    forall|jj: int|
                        0 <= jj < nm.len() ==> 0 <= col_pos(cm, #[trigger] nm[jj]) < cm.len(),
                    row_m.len() == cm.len(),
                    src_row@.map_values(|v: FieldValue| v@) == row_m,
                    out_row@.map_values(|v: FieldValue| v@) =~= projected_row(cm, nm, row_m).take(
                        j as int,
                    ),
                decreases cis@.len() - j,
            {
                out_row.push(src_row[cis[j]].clone());
                proof {
                    assert(projected_row(cm, nm, row_m)[j as int] == row_m[col_pos(
                        cm,
                        nm[j as int],
                    )]);
                    assert(projected_row(cm, nm, row_m).take(j as int + 1) =~= projected_row(
                        cm,
                        nm,
                        row_m,
                    ).take(j as int).push(projected_row(cm, nm, row_m)[j as int]));
                }
                j = j + 1;
            }
            proof {
                assert(projected_row(cm, nm, row_m).take(cis@.len() as int) =~= projected_row(
                    cm,
                    nm,
                    row_m,
                ));
                assert forall|cc: int| 0 <= cc < t.cols().len() implies val_fits(
                    out_row@.map_values(|v: FieldValue| v@)[cc],
                    (#[trigger] t.cols()[cc]).data_type,
                ) by {
                    assert(t.cols()[cc] == cm[col_pos(cm, nm[cc])]);
                    assert(out_row@.map_values(|v: FieldValue| v@)[cc] == row_m[col_pos(
                        cm,
                        nm[cc],
                    )]);
                    assert(val_fits(row_m[col_pos(cm, nm[cc])], cm[col_pos(cm, nm[cc])].data_type));
                }
                assert(self.rs().map_values(proj).take(p as int + 1) =~= self.rs().map_values(
                    proj,
                ).take(p as int).push(proj(self.rs()[p as int])));
            }
            t.push_row_direct(out_row);
            p = p + 1;
        }
        proof {
            assert(self.rs().map_values(proj).take(self.rows@.len() as int) =~= self.rs().map_values(
                proj,
            ));
            assert(t.rs() == self.rs().map_values(|row: Seq<Val>| projected_row(cm, nm, row)));
        }
        Ok(t)
    }
}

/// The row predicate for the rows a deletion keeps.
pub open spec fn keep_pred(ci: int, c: Cond) -> spec_fn(Seq<Val>) -> bool {
    |row: Seq<Val>| !cond_matches(row[ci], c)
}

/// The rows surviving a deletion, in storage order.
pub open spec fn keep_rows(rs: Seq<Seq<Val>>, ci: int, c: Cond) -> Seq<Seq<Val>> {
    rs.filter(keep_pred(ci, c))
}

/// The rows after an edit: every row matching the condition on the filter
/// column has its edit-column cell overwritten.
pub open spec fn edited_rows(rs: Seq<Seq<Val>>, fci: int, c: Cond, eci: int, nv: Val) -> Seq<
    Seq<Val>,
> {
    rs.map_values(
        |row: Seq<Val>|
            if cond_matches(row[fci], c) {
                row.update(eci, nv)
            } else {
                row
            },
    )
}

/// An index over one column stays well-formed when the rows change without
/// touching that column.
pub(crate) proof fn lemma_index_same_column(
    es: Seq<crate::index::EntryModel>,
    rs1: Seq<Seq<Val>>,
    rs2: Seq<Seq<Val>>,
    ci: int,
)
    requires
        index_entries_wf(es, rs1, ci),
        rs1.len() == rs2.len(),
        forall|p: int| 0 <= p < rs1.len() ==> (#[trigger] rs2[p])[ci] == rs1[p][ci],
    ensures
        index_entries_wf(es, rs2, ci),
{
    assert forall|i: int| 0 <= i < es.len() implies entry_sound(#[trigger] es[i], rs2, ci) by {
        assert(entry_sound(es[i], rs1, ci));
        assert forall|k: int|
            0 <= k < es[i].positions.len() implies 0 <= #[trigger] es[i].positions[k] < rs2.len()
            && rs2[es[i].positions[k]][ci] == es[i].key by {
            assert(rs1[es[i].positions[k]][ci] == es[i].key);
        }
    }
    assert forall|p: int| 0 <= p < rs2.len() implies index_covers(es, #[trigger] rs2[p], p, ci) by {
        assert(index_covers(es, rs1[p], p, ci));
        let i = choose|i: int|
            0 <= i < es.len() && (#[trigger] es[i]).key == rs1[p][ci] && es[i].positions.contains(
                p,
            );
        assert(es[i].key == rs2[p][ci] && es[i].positions.contains(p));
    }
}

impl Table {
    /// Rebuilds every live index against the current rows.
    fn rebuild_indexes(&mut self)
        requires
            col_names_distinct(old(self).cols()),
            forall|r: int|
                0 <= r < old(self).rs().len() ==> (#[trigger] old(self).rs()[r]).len() == old(
                    self,
                ).cols().len(),
            forall|x: int|
                0 <= x < old(self).idxs().len() ==> has_col(
                    old(self).cols(),
                    (#[trigger] old(self).idxs()[x]).column,
                ),
        ensures
            *final(self) == (Table { indexes: final(self).indexes, ..*old(self) }),
            final(self).cols() == old(self).cols(),
            final(self).pks() == old(self).pks(),
            final(self).rs() == old(self).rs(),
            final(self).name_model() == old(self).name_model(),
            final(self).synthetic() == old(self).synthetic(),
            final(self).tuple_counter() == old(self).tuple_counter(),
            final(self).idxs().len() == old(self).idxs().len(),
            forall|x: int|
                0 <= x < old(self).idxs().len() ==> (#[trigger] final(self).idxs()[x]).column
                    == old(self).idxs()[x].column,
            forall|x: int|
                0 <= x < final(self).idxs().len() ==> index_ok(
                    final(self).cols(),
                    final(self).rs(),
                    #[trigger] final(self).idxs()[x],
                ),
    {
        let ghost old_idxs = self.idxs();
        let ghost cols = self.cols();
        let ghost rs = self.rs();
        let mut x: usize = 0;
        while x < self.indexes.len()
            invariant
                x <= self.indexes@.len(),
                *self == (Table { indexes: self.indexes, ..*old(self) }),
                cols == self.cols(),
                col_names_distinct(cols),
                rs == self.rs(),
                forall|r: int| 0 <= r < rs.len() ==> (#[trigger] rs[r]).len() == cols.len(),
                self.idxs().len() == old_idxs.len(),
                old_idxs == old(self).idxs(),
                forall|y: int|
                    0 <= y < old_idxs.len() ==> (#[trigger] self.idxs()[y]).column
                        == old_idxs[y].column,
                forall|y: int|
                    0 <= y < old_idxs.len() ==> has_col(cols, (#[trigger] old_idxs[y]).column),
                forall|y: int| 0 <= y < x ==> index_ok(cols, rs, #[trigger] self.idxs()[y]),
            decreases self.indexes@.len() - x,
        {
            let ci = match self.find_col_of_index(x) {
                Some(ci) => ci,
                None => {
                    proof {
                        lemma_col_pos(cols, self.idxs()[x as int].column);
                    }
                    vstd::pervasive::unreached()
                },
            };
            proof {
                assert forall|q: int| 0 <= q < self.rows@.len() implies ci < (
                #[trigger] self.rows@[q])@.len() by {
                    assert(rs[q] == self.rows@[q]@.map_values(|v: FieldValue| v@));
                }
            }
            let entries = build_entries(&self.rows, ci);
            let ghost before_models = self.idxs();
            let mut ix = self.indexes.remove(x);
            ix.entries = entries;
            let ghost new_model = ix@;
            self.indexes.insert(x, ix);
            proof {
                assert(self.idxs() =~= before_models.update(x as int, new_model));
                assert(index_ok(cols, rs, new_model));
            }
            x = x + 1;
        }
    }

    /// Deletes every row whose value in the named column satisfies the
    /// condition, renumbers the surviving rows, and rebuilds every live index
    /// against the compacted row list. Returns how many rows were deleted.
    pub fn delete_rows(&mut self, column_name: String, search_criteria: FilterCondition) -> (r:
        Result<u32, DBError>)
        requires
            old(self).wf(),
            old(self).rs().len() <= u32::MAX,
        ensures
            final(self).wf(),
            final(self).name_model() == old(self).name_model(),
            final(self).cols() == old(self).cols(),
            final(self).pks() == old(self).pks(),
            final(self).synthetic() == old(self).synthetic(),
            final(self).tuple_counter() == old(self).tuple_counter(),
            final(self).idxs().len() == old(self).idxs().len(),
            forall|x: int|
                0 <= x < old(self).idxs().len() ==> (#[trigger] final(self).idxs()[x]).column
                    == old(self).idxs()[x].column,
            !has_col(old(self).cols(), column_name@) ==> (r matches Err(e) && e matches
                DBError::InvalidColumn(s) && s@ == column_name@) && *final(self) == *old(self),
            has_col(old(self).cols(), column_name@) && !cond_ok(search_criteria@) ==> (r matches
                Err(e) && e matches DBError::MisMatchConditionDataType(_, _)) && *final(self)
                == *old(self),
            has_col(old(self).cols(), column_name@) && cond_ok(search_criteria@) ==> {
                let ci = col_pos(old(self).cols(), column_name@);
                &&& final(self).rs() == keep_rows(old(self).rs(), ci, search_criteria@)
                &&& r == Ok::<u32, DBError>(
                    (old(self).rs().len() - final(self).rs().len()) as u32,
                )
            },
    {
        let ghost rs = self.rs();
        let ghost c = search_criteria@;
        let ghost cols = self.cols();
        let ci = match self.find_col(column_name.as_str()) {
            Some(ci) => ci,
            None => {
                return Err(DBError::InvalidColumn(column_name));
            },
        };
        match crate::filter::non_index_row_matches_search_critieria(
            &FieldValue::Null,
            &search_criteria,
        ) {
            Err(e) => {
                return Err(e);
            },
            Ok(_) => {},
        }
        let mut kept: Vec<Vec<FieldValue>> = Vec::new();
        let mut p: usize = 0;
        proof {
            reveal(Seq::filter);
            assert(rs.take(0) =~= Seq::<Seq<Val>>::empty());
            assert(rows_model(kept@) =~= keep_rows(rs.take(0), ci as int, c));
        }
        while p < self.rows.len()
            invariant
                p <= self.rows@.len(),
                *self == *old(self),
                self.wf(),
                cond_ok(c),
                c == search_criteria@,
                rs == self.rs(),
                cols == self.cols(),
                ci < cols.len(),
                rows_model(kept@) == keep_rows(rs.take(p as int), ci as int, c),
                kept@.len() <= p,
            decreases self.rows@.len() - p,
        {
            proof {
                assert(rs[p as int] == self.rows@[p as int]@.map_values(|v: FieldValue| v@));
                assert(rs[p as int].len() == cols.len());
                assert(rs.take(p as int + 1) =~= rs.take(p as int).push(rs[p as int]));
                rs.take(p as int).lemma_filter_push(rs[p as int], keep_pred(ci as int, c));
            }
            let matched = match crate::filter::non_index_row_matches_search_critieria(
                &self.rows[p][ci],
                &search_criteria,
            ) {
                Ok(b) => b,
                Err(_) => vstd::pervasive::unreached(),
            };
            if !matched {
                let copied = clone_row(&self.rows[p]);
                kept.push(copied);
                proof {
                    assert(rows_model(kept@) =~= keep_rows(rs.take(p as int + 1), ci as int, c));
                }
            }
            p = p + 1;
        }
        proof {
            assert(rs.take(self.rows@.len() as int) =~= rs);
        }
        let deleted = self.rows.len() - kept.len();
        self.rows = kept;
        proof {
            let new_rs = self.rs();
            assert(new_rs == keep_rows(rs, ci as int, c));
            crate::seq_lemmas::lemma_filter_subset(rs, keep_pred(ci as int, c));
            assert forall|q: int| 0 <= q < new_rs.len() implies (#[trigger] new_rs[q]).len()
                == cols.len() by {
                assert(rs.contains(new_rs[q]));
            }
            assert forall|x: int| 0 <= x < self.idxs().len() implies has_col(
                self.cols(),
                (#[trigger] self.idxs()[x]).column,
            ) by {
                assert(index_ok(cols, rs, old(self).idxs()[x]));
            }
        }
        self.rebuild_indexes();
        proof {
            let new_rs = self.rs();
            assert(new_rs == keep_rows(rs, ci as int, c));
            crate::seq_lemmas::lemma_filter_subset(rs, keep_pred(ci as int, c));
            assert forall|q: int| 0 <= q < new_rs.len() implies (#[trigger] new_rs[q]).len()
                == cols.len() by {
                assert(rs.contains(new_rs[q]));
            }
            assert forall|q: int, cc: int|
                0 <= q < new_rs.len() && 0 <= cc < cols.len() implies val_fits(
                #[trigger] new_rs[q][cc],
                cols[cc].data_type,
            ) by {
                assert(rs.contains(new_rs[q]));
                let w = choose|w: int| 0 <= w < rs.len() && rs[w] == new_rs[q];
                assert(val_fits(rs[w][cc], cols[cc].data_type));
            }
            assert forall|k: int| 0 <= k < self.pks().len() implies self.has_index(
                (#[trigger] self.pks()[k]).name,
            ) by {
                lemma_idx_pos(old(self).idxs(), self.pks()[k].name);
                let y = idx_pos(old(self).idxs(), self.pks()[k].name);
                assert(self.idxs()[y].column == self.pks()[k].name);
                lemma_idx_pos(self.idxs(), self.pks()[k].name);
            }
            if self.synthetic() {
                let ti = col_pos(cols, tuple_id_name());
                assert forall|q: int| 0 <= q < new_rs.len() implies tuple_cell_fresh(
                    #[trigger] new_rs[q],
                    ti,
                    self.tuple_counter(),
                ) by {
                    assert(rs.contains(new_rs[q]));
                    let w = choose|w: int| 0 <= w < rs.len() && rs[w] == new_rs[q];
                    assert(tuple_cell_fresh(rs[w], ti, self.tuple_counter()));
                }
            }
            assert(self.wf());
        }
        Ok(deleted as u32)
    }

    /// Overwrites the edit column with the new value in every row whose value
    /// in the filter column satisfies the condition, rebuilds the index over
    /// the edit column if one is live, and returns how many rows changed.
    /// The synthetic identity column cannot be edited (`MandatoryColumn`),
    /// and the new value must fit the edit column's declared kind.
    pub fn edit_rows(
        &mut self,
        filter_column_name: String,
        column_to_edit: String,
        search_criteria: FilterCondition,
        new_value: FieldValue,
    ) -> (r: Result<u32, DBError>)
        requires
            old(self).wf(),
            old(self).rs().len() <= u32::MAX,
        ensures
            final(self).wf(),
            final(self).name_model() == old(self).name_model(),
            final(self).cols() == old(self).cols(),
            final(self).pks() == old(self).pks(),
            final(self).synthetic() == old(self).synthetic(),
            final(self).tuple_counter() == old(self).tuple_counter(),
            final(self).idxs().len() == old(self).idxs().len(),
            forall|x: int|
                0 <= x < old(self).idxs().len() ==> (#[trigger] final(self).idxs()[x]).column
                    == old(self).idxs()[x].column,
            !has_col(old(self).cols(), filter_column_name@) ==> (r matches Err(e) && e matches
                DBError::InvalidColumn(s) && s@ == filter_column_name@) && *final(self) == *old(self),
            has_col(old(self).cols(), filter_column_name@) && !cond_ok(search_criteria@) ==> (r
                matches Err(e) && e matches DBError::MisMatchConditionDataType(_, _)) && *final(self) == *old(self),
            has_col(old(self).cols(), filter_column_name@) && cond_ok(search_criteria@) && !has_col(
                old(self).cols(),
                column_to_edit@,
            ) ==> (r matches Err(e) && e matches DBError::InvalidColumn(s) && s@ == column_to_edit@)
                && *final(self) == *old(self),
            has_col(old(self).cols(), filter_column_name@) && cond_ok(search_criteria@) && has_col(
                old(self).cols(),
                column_to_edit@,
            ) && old(self).synthetic() && column_to_edit@ == tuple_id_name() ==> (r matches Err(e)
                && e matches DBError::MandatoryColumn(s) && s@ == column_to_edit@) && *final(self)
                == *old(self),
            has_col(old(self).cols(), filter_column_name@) && cond_ok(search_criteria@) && has_col(
                old(self).cols(),
                column_to_edit@,
            ) && !(old(self).synthetic() && column_to_edit@ == tuple_id_name()) && !val_fits(
                new_value@,
                old(self).cols()[col_pos(old(self).cols(), column_to_edit@)].data_type,
            ) ==> (r matches Err(e) && e matches DBError::MisMatchDataType(_, _)) && *final(self)
                == *old(self),
            has_col(old(self).cols(), filter_column_name@) && cond_ok(search_criteria@) && has_col(
                old(self).cols(),
                column_to_edit@,
            ) && !(old(self).synthetic() && column_to_edit@ == tuple_id_name()) && val_fits(
                new_value@,
                old(self).cols()[col_pos(old(self).cols(), column_to_edit@)].data_type,
            ) ==> {
                let fci = col_pos(old(self).cols(), filter_column_name@);
                let eci = col_pos(old(self).cols(), column_to_edit@);
                &&& final(self).rs() == edited_rows(
                    old(self).rs(),
                    fci,
                    search_criteria@,
                    eci,
                    new_value@,
                )
                &&& r == Ok::<u32, DBError>(
                    filter_rows(old(self).rs(), fci, search_criteria@).len() as u32,
                )
            },
    {
        let ghost rs = self.rs();
        let ghost c = search_criteria@;
        let ghost cols = self.cols();
        let fci = match self.find_col(filter_column_name.as_str()) {
            Some(ci) => ci,
            None => {
                return Err(DBError::InvalidColumn(filter_column_name));
            },
        };
        match crate::filter::non_index_row_matches_search_critieria(
            &FieldValue::Null,
            &search_criteria,
        ) {
            Err(e) => {
                return Err(e);
            },
            Ok(_) => {},
        }
        let eci = match self.find_col(column_to_edit.as_str()) {
            Some(ci) => ci,
            None => {
                return Err(DBError::InvalidColumn(column_to_edit));
            },
        };
        if self.synthetic_pk && str_eq(column_to_edit.as_str(), "Tuple ID") {
            return Err(DBError::MandatoryColumn(column_to_edit));
        }
        let edit_dt = self.columns[eci].get_data_type();
        let is_null = match &new_value {
            FieldValue::Null => true,
            _ => false,
        };
        proof {
            assert(cols[eci as int] == self.columns@[eci as int]@);
        }
        if !is_null && !(edit_dt == new_value.data_type()) {
            return Err(DBError::MisMatchDataType(edit_dt, new_value.data_type()));
        }
        let ghost target = edited_rows(rs, fci as int, c, eci as int, new_value@);
        let mut updated: Vec<Vec<FieldValue>> = Vec::new();
        let mut count: u32 = 0;
        let mut p: usize = 0;
        proof {
            reveal(Seq::filter);
            assert(rs.take(0) =~= Seq::<Seq<Val>>::empty());
            assert(rows_model(updated@) =~= edited_rows(
                rs.take(0),
                fci as int,
                c,
                eci as int,
                new_value@,
            ));
        }
        while p < self.rows.len()
            invariant
                p <= self.rows@.len(),
                *self == *old(self),
                self.wf(),
                cond_ok(c),
                c == search_criteria@,
                rs == self.rs(),
                rs.len() <= u32::MAX,
                cols == self.cols(),
                fci < cols.len(),
                eci < cols.len(),
                rows_model(updated@) == edited_rows(
                    rs.take(p as int),
                    fci as int,
                    c,
                    eci as int,
                    new_value@,
                ),
                count as int == filter_rows(rs.take(p as int), fci as int, c).len(),
                count <= p,
            decreases self.rows@.len() - p,
        {
            proof {
                assert(rs[p as int] == self.rows@[p as int]@.map_values(|v: FieldValue| v@));
                assert(rs[p as int].len() == cols.len());
                assert(rs.take(p as int + 1) =~= rs.take(p as int).push(rs[p as int]));
                rs.take(p as int).lemma_filter_push(rs[p as int], row_pred(fci as int, c));
                assert(edited_rows(rs.take(p as int + 1), fci as int, c, eci as int, new_value@)
                    =~= edited_rows(rs.take(p as int), fci as int, c, eci as int, new_value@).push(
                    if cond_matches(rs[p as int][fci as int], c) {
                        rs[p as int].update(eci as int, new_value@)
                    } else {
                        rs[p as int]
                    },
                ));
            }
            let matched = match crate::filter::non_index_row_matches_search_critieria(
                &self.rows[p][fci],
                &search_criteria,
            ) {
                Ok(b) => b,
                Err(_) => vstd::pervasive::unreached(),
            };
            let mut copied = clone_row(&self.rows[p]);
            if matched {
                let _ = copied.remove(eci);
                copied.insert(eci, new_value.clone());
                count = count + 1;
                proof {
                    assert(copied@.map_values(|v: FieldValue| v@) =~= rs[p as int].update(
                        eci as int,
                        new_value@,
                    ));
                }
            }
            updated.push(copied);
            p = p + 1;
        }
        proof {
            assert(rs.take(self.rows@.len() as int) =~= rs);
        }
        self.rows = updated;
        proof {
            let new_rs = self.rs();
            assert(new_rs == target);
            assert forall|q: int| 0 <= q < new_rs.len() implies (#[trigger] new_rs[q]).len()
                == cols.len() by {
                assert(new_rs[q] == edited_rows(rs, fci as int, c, eci as int, new_value@)[q]);
            }
            assert forall|x: int| 0 <= x < self.idxs().len() implies has_col(
                self.cols(),
                (#[trigger] self.idxs()[x]).column,
            ) by {
                assert(index_ok(cols, rs, old(self).idxs()[x]));
            }
        }
        self.rebuild_indexes();
        proof {
            let new_rs = self.rs();
            assert(new_rs == target);
            assert forall|q: int| 0 <= q < new_rs.len() implies (#[trigger] new_rs[q]).len()
                == cols.len() by {
                assert(new_rs[q] == edited_rows(rs, fci as int, c, eci as int, new_value@)[q]);
            }
            assert forall|q: int, cc: int|
                0 <= q < new_rs.len() && 0 <= cc < cols.len() implies val_fits(
                #[trigger] new_rs[q][cc],
                cols[cc].data_type,
            ) by {
                assert(val_fits(rs[q][cc], cols[cc].data_type));
                if cond_matches(rs[q][fci as int], c) && cc == eci as int {
                    assert(new_rs[q][cc] == new_value@);
                }
            }
            assert forall|k: int| 0 <= k < self.pks().len() implies self.has_index(
                (#[trigger] self.pks()[k]).name,
            ) by {
                lemma_idx_pos(old(self).idxs(), self.pks()[k].name);
                let y = idx_pos(old(self).idxs(), self.pks()[k].name);
                assert(self.idxs()[y].column == self.pks()[k].name);
                lemma_idx_pos(self.idxs(), self.pks()[k].name);
            }
            if self.synthetic() {
                let ti = col_pos(cols, tuple_id_name());
                lemma_col_pos(cols, tuple_id_name());
                assert(ti != eci as int);
                assert forall|q: int| 0 <= q < new_rs.len() implies tuple_cell_fresh(
                    #[trigger] new_rs[q],
                    ti,
                    self.tuple_counter(),
                ) by {
                    assert(tuple_cell_fresh(rs[q], ti, self.tuple_counter()));
                    assert(new_rs[q][ti] == rs[q][ti]);
                }
            }
            assert(self.wf());
        }
        Ok(count)
    }
}

/// The sort comparator: ascending or descending along the total fallback
/// order on cell values.
pub open spec fn key_le(a: Val, b: Val, desc: bool) -> bool {
    if desc {
        val_le(b, a)
    } else {
        val_le(a, b)
    }
}

/// Rows pairwise ordered by their cell in column `ci`.
pub open spec fn sorted_rows(rs: Seq<Seq<Val>>, ci: int, desc: bool) -> bool {
    forall|i: int, j: int|
        0 <= i < j < rs.len() ==> key_le((#[trigger] rs[i])[ci], (#[trigger] rs[j])[ci], desc)
}

impl Table {
    /// Sorts the rows in place by their value in the named column, ascending
    /// or descending as the condition asks, using the engine's total fallback
    /// order (values of different kinds order by kind, a documented choice in
    /// place of silently treating them as equal). Every live index is rebuilt
    /// against the new row positions. The sort is an insertion sort and
    /// keeps the stored order of rows whose keys tie.
    pub fn sort_rows(&mut self, sorting_by: SortCondition, sorting_column: String) -> (r: Result<
        (),
        DBError,
    >)
        requires
            old(self).wf(),
        ensures
            final(self).wf(),
            final(self).name_model() == old(self).name_model(),
            final(self).cols() == old(self).cols(),
            final(self).pks() == old(self).pks(),
            final(self).synthetic() == old(self).synthetic(),
            final(self).tuple_counter() == old(self).tuple_counter(),
            final(self).idxs().len() == old(self).idxs().len(),
            forall|x: int|
                0 <= x < old(self).idxs().len() ==> (#[trigger] final(self).idxs()[x]).column
                    == old(self).idxs()[x].column,
            !has_col(old(self).cols(), sorting_column@) ==> (r matches Err(e) && e matches
                DBError::InvalidColumn(s) && s@ == sorting_column@) && *final(self) == *old(self),
            has_col(old(self).cols(), sorting_column@) ==> {
                let ci = col_pos(old(self).cols(), sorting_column@);
                &&& r is Ok
                &&& final(self).rs().to_multiset() == old(self).rs().to_multiset()
                &&& final(self).rs().len() == old(self).rs().len()
                &&& sorted_rows(final(self).rs(), ci, sort_descending(sorting_by))
            },
    {
        let ghost rs0 = self.rs();
        let ghost cols = self.cols();
        let ci = match self.find_col(sorting_column.as_str()) {
            Some(ci) => ci,
            None => {
                return Err(DBError::InvalidColumn(sorting_column));
            },
        };
        let desc = sorting_by.is_descending();
        let mut out: Vec<Vec<FieldValue>> = Vec::new();
        let mut p: usize = 0;
        proof {
            assert(rs0.take(0) =~= Seq::<Seq<Val>>::empty());
            assert(rows_model(out@) =~= Seq::<Seq<Val>>::empty());
            assert(rs0.take(0).to_multiset() =~= Seq::<Seq<Val>>::empty().to_multiset());
        }
        while p < self.rows.len()
            invariant
                p <= self.rows@.len(),
                *self == *old(self),
                self.wf(),
                rs0 == self.rs(),
                cols == self.cols(),
                ci < cols.len(),
                desc == sort_descending(sorting_by),
                rows_model(out@).to_multiset() == rs0.take(p as int).to_multiset(),
                sorted_rows(rows_model(out@), ci as int, desc),
                forall|q: int| 0 <= q < out@.len() ==> rs0.contains(#[trigger] rows_model(out@)[q]),
            decreases self.rows@.len() - p,
        {
            broadcast use vstd::seq_lib::group_to_multiset_ensures;

            let ghost om = rows_model(out@);
            let ghost newrow = rs0[p as int];
            proof {
                assert(newrow == self.rows@[p as int]@.map_values(|v: FieldValue| v@));
                assert(newrow.len() == cols.len());
                assert forall|q: int| 0 <= q < om.len() implies (#[trigger] om[q]).len()
                    == cols.len() by {
                    assert(rs0.contains(om[q]));
                    let w = choose|w: int| 0 <= w < rs0.len() && rs0[w] == om[q];
                }
            }
            let mut j: usize = 0;
            loop
                invariant
                    j <= out@.len(),
                    om == rows_model(out@),
                    newrow == rs0[p as int],
                    p < self.rows@.len(),
                    *self == *old(self),
                    rs0 == self.rs(),
                    cols == self.cols(),
                    ci < cols.len(),
                    newrow.len() == cols.len(),
                    forall|q: int| 0 <= q < om.len() ==> (#[trigger] om[q]).len() == cols.len(),
                    desc == sort_descending(sorting_by),
                    forall|q: int|
                        0 <= q < j ==> key_le((#[trigger] om[q])[ci as int], newrow[ci as int], desc),
                ensures
                    j <= om.len(),
                    forall|q: int|
                        0 <= q < j ==> key_le((#[trigger] om[q])[ci as int], newrow[ci as int], desc),
                    j < om.len() ==> key_le(newrow[ci as int], om[j as int][ci as int], desc),
                decreases out@.len() - j,
            {
                if j == out.len() {
                    break;
                }
                let cont = if desc {
                    self.rows[p][ci].total_le(&out[j][ci])
                } else {
                    out[j][ci].total_le(&self.rows[p][ci])
                };
                proof {
                    assert(om[j as int] == out@[j as int]@.map_values(|v: FieldValue| v@));
                    assert(om[j as int][ci as int] == out@[j as int]@[ci as int]@);
                    assert(newrow[ci as int] == self.rows@[p as int]@[ci as int]@);
                    if !cont {
                        crate::value::lemma_val_le_total(
                            om[j as int][ci as int],
                            newrow[ci as int],
                        );
                    }
                }
                if !cont {
                    break;
                }
                j = j + 1;
            }
            let copied = clone_row(&self.rows[p]);
            out.insert(j, copied);
            proof {
                assert(rows_model(out@) =~= om.insert(j as int, newrow));
                crate::seq_lemmas::lemma_insert_multiset(om, j as int, newrow);
                assert(rs0.take(p as int + 1) =~= rs0.take(p as int).push(newrow));
                let om2 = rows_model(out@);
                assert forall|a: int, b: int|
                    0 <= a < b < om2.len() implies key_le(
                    (#[trigger] om2[a])[ci as int],
                    (#[trigger] om2[b])[ci as int],
                    desc,
                ) by {
                    if a < j as int && b == j as int {
                        assert(om2[a] == om[a]);
                        assert(om2[b] == newrow);
                    } else if a == j as int && b > j as int {
                        assert(om2[a] == newrow);
                        assert(om2[b] == om[b - 1]);
                        if j as int == b - 1 {
                        } else {
                            assert(key_le(om[j as int][ci as int], om[b - 1][ci as int], desc));
                            if desc {
                                crate::value::lemma_val_le_trans(
                                    om[b - 1][ci as int],
                                    om[j as int][ci as int],
                                    newrow[ci as int],
                                );
                            } else {
                                crate::value::lemma_val_le_trans(
                                    newrow[ci as int],
                                    om[j as int][ci as int],
                                    om[b - 1][ci as int],
                                );
                            }
                        }
                    } else if a < j as int && b > j as int {
                        assert(om2[a] == om[a]);
                        assert(om2[b] == om[b - 1]);
                        if a == b - 1 {
                            assert(key_le(om[a][ci as int], newrow[ci as int], desc));
                            assert(key_le(newrow[ci as int], om2[b][ci as int], desc));
                        } else {
                            assert(key_le(om[a][ci as int], om[b - 1][ci as int], desc));
                        }
                    } else if a > j as int {
                        assert(om2[a] == om[a - 1]);
                        assert(om2[b] == om[b - 1]);
                        assert(key_le(om[a - 1][ci as int], om[b - 1][ci as int], desc));
                    } else {
                        assert(om2[a] == om[a]);
                        assert(om2[b] == om[b]);
                    }
                }
                assert forall|q: int| 0 <= q < out@.len() implies rs0.contains(
                    #[trigger] rows_model(out@)[q],
                ) by {
                    if q < j as int {
                        assert(rows_model(out@)[q] == om[q]);
                    } else if q == j as int {
                        assert(rows_model(out@)[q] == newrow);
                        assert(rs0[p as int] == newrow);
                    } else {
                        assert(rows_model(out@)[q] == om[q - 1]);
                    }
                }
            }
            p = p + 1;
        }
        proof {
            assert(rs0.take(self.rows@.len() as int) =~= rs0);
        }
        let ghost final_om = rows_model(out@);
        proof {
            assert(final_om.to_multiset() == rs0.to_multiset());
        }
        self.rows = out;
        proof {
            let new_rs = self.rs();
            broadcast use vstd::seq_lib::group_to_multiset_ensures;

            assert(new_rs == final_om);
            assert(new_rs.to_multiset() == rs0.to_multiset());
            assert(new_rs.len() == new_rs.to_multiset().len());
            assert(rs0.len() == rs0.to_multiset().len());
            assert(new_rs.len() == rs0.len());
            assert forall|q: int| 0 <= q < new_rs.len() implies (#[trigger] new_rs[q]).len()
                == cols.len() by {
                assert(new_rs.to_multiset().count(new_rs[q]) > 0);
                assert(rs0.contains(new_rs[q]));
                let w = choose|w: int| 0 <= w < rs0.len() && rs0[w] == new_rs[q];
            }
            assert forall|x: int| 0 <= x < self.idxs().len() implies has_col(
                self.cols(),
                (#[trigger] self.idxs()[x]).column,
            ) by {
                assert(index_ok(cols, rs0, old(self).idxs()[x]));
            }
        }
        self.rebuild_indexes();
        proof {
            let new_rs = self.rs();
            broadcast use vstd::seq_lib::group_to_multiset_ensures;

            assert(new_rs.to_multiset() == rs0.to_multiset());
            assert forall|q: int, cc: int|
                0 <= q < new_rs.len() && 0 <= cc < cols.len() implies val_fits(
                #[trigger] new_rs[q][cc],
                cols[cc].data_type,
            ) by {
                assert(new_rs.to_multiset().count(new_rs[q]) > 0);
                assert(rs0.contains(new_rs[q]));
                let w = choose|w: int| 0 <= w < rs0.len() && rs0[w] == new_rs[q];
                assert(val_fits(rs0[w][cc], cols[cc].data_type));
            }
            assert forall|k: int| 0 <= k < self.pks().len() implies self.has_index(
                (#[trigger] self.pks()[k]).name,
            ) by {
                lemma_idx_pos(old(self).idxs(), self.pks()[k].name);
                let y = idx_pos(old(self).idxs(), self.pks()[k].name);
                assert(self.idxs()[y].column == self.pks()[k].name);
                lemma_idx_pos(self.idxs(), self.pks()[k].name);
            }
            if self.synthetic() {
                let ti = col_pos(cols, tuple_id_name());
                assert forall|q: int| 0 <= q < self.rs().len() implies tuple_cell_fresh(
                    #[trigger] self.rs()[q],
                    ti,
                    self.tuple_counter(),
                ) by {
                    assert(new_rs.to_multiset().count(new_rs[q]) > 0);
                    assert(rs0.contains(self.rs()[q]));
                    let w = choose|w: int| 0 <= w < rs0.len() && rs0[w] == self.rs()[q];
                    assert(tuple_cell_fresh(rs0[w], ti, self.tuple_counter()));
                }
            }
            assert(self.wf());
        }
        Ok(())
    }
}

impl Table {
    /// Drops the live index over the named column, if one exists. Nothing
    /// else changes.
    fn drop_index_on(&mut self, name: &str)
        requires
            old(self).wf(),
        ensures
            *final(self) == (Table { indexes: final(self).indexes, ..*old(self) }),
            final(self).cols() == old(self).cols(),
            final(self).rs() == old(self).rs(),
            final(self).pks() == old(self).pks(),
            final(self).name_model() == old(self).name_model(),
            final(self).synthetic() == old(self).synthetic(),
            final(self).tuple_counter() == old(self).tuple_counter(),
            !final(self).has_index(name@),
            forall|x: int|
                0 <= x < final(self).idxs().len() ==> exists|y: int|
                    0 <= y < old(self).idxs().len() && #[trigger] final(self).idxs()[x] == old(
                        self,
                    ).idxs()[y],
            forall|n: Seq<char>|
                n != name@ ==> #[trigger] final(self).has_index(n) == old(self).has_index(n),
            forall|a: int, b: int|
                0 <= a < b < final(self).idxs().len() ==> final(self).idxs()[a].column
                    != final(self).idxs()[b].column,
    {
        let ghost dropped = self.idxs();
        match self.find_index(name) {
            Some(x) => {
                let _ = self.indexes.remove(x);
                proof {
                    let survivors = self.idxs();
                    assert(survivors =~= dropped.remove(x as int));
                    assert forall|z: int|
                        0 <= z < survivors.len() implies (#[trigger] survivors[z]).column
                        != name@ by {
                        if z < x as int {
                            assert(survivors[z] == dropped[z]);
                        } else {
                            assert(survivors[z] == dropped[z + 1]);
                        }
                    }
                    lemma_idx_pos(survivors, name@);
                    assert forall|x2: int|
                        0 <= x2 < survivors.len() implies exists|y: int|
                        0 <= y < dropped.len() && #[trigger] survivors[x2] == dropped[y] by {
                        if x2 < x as int {
                            assert(survivors[x2] == dropped[x2]);
                        } else {
                            assert(survivors[x2] == dropped[x2 + 1]);
                        }
                    }
                    assert forall|n: Seq<char>|
                        n != name@ implies #[trigger] self.has_index(n) == old(self).has_index(
                        n,
                    ) by {
                        lemma_idx_pos(survivors, n);
                        lemma_idx_pos(dropped, n);
                        if old(self).has_index(n) {
                            let y = idx_pos(dropped, n);
                            if y < x as int {
                                assert(survivors[y] == dropped[y]);
                            } else if y > x as int {
                                assert(survivors[y - 1] == dropped[y]);
                            } else {
                                assert(dropped[x as int].column == name@);
                                assert(false);
                            }
                        }
                        if self.has_index(n) {
                            let z = idx_pos(survivors, n);
                            if z < x as int {
                                assert(dropped[z] == survivors[z]);
                            } else {
                                assert(dropped[z + 1] == survivors[z]);
                            }
                        }
                    }
                    assert forall|a: int, b: int|
                        0 <= a < b < survivors.len() implies survivors[a].column
                        != survivors[b].column by {
                        let a0 = if a < x as int {
                            a
                        } else {
                            a + 1
                        };
                        let b0 = if b < x as int {
                            b
                        } else {
                            b + 1
                        };
                        assert(survivors[a] == dropped[a0]);
                        assert(survivors[b] == dropped[b0]);
                    }
                }
            },
            None => {
                proof {
                    lemma_idx_pos(dropped, name@);
                    assert forall|x2: int|
                        0 <= x2 < self.idxs().len() implies exists|y: int|
                        0 <= y < old(self).idxs().len() && #[trigger] self.idxs()[x2] == old(
                            self,
                        ).idxs()[y] by {
                        assert(self.idxs()[x2] == old(self).idxs()[x2]);
                    }
                }
            },
        }
    }

    /// Drops the named column: its cell leaves every row and the column
    /// leaves the schema, and any index over it is dropped while the others
    /// are rebuilt against the narrowed rows. A primary-key column cannot be
    /// dropped (`MandatoryColumn`); an unknown name fails with
    /// `InvalidColumn`.
    pub fn delete_column(&mut self, column_name: String) -> (r: Result<(), DBError>)
        requires
            old(self).wf(),
        ensures
            final(self).wf(),
            final(self).name_model() == old(self).name_model(),
            final(self).pks() == old(self).pks(),
            final(self).synthetic() == old(self).synthetic(),
            final(self).tuple_counter() == old(self).tuple_counter(),
            !has_col(old(self).cols(), column_name@) ==> (r matches Err(e) && e matches
                DBError::InvalidColumn(s) && s@ == column_name@) && *final(self) == *old(self),
            has_col(old(self).cols(), column_name@) && (exists|k: int|
                0 <= k < old(self).pks().len() && (#[trigger] old(self).pks()[k]).name
                    == column_name@) ==> (r matches Err(e) && e matches DBError::MandatoryColumn(s)
                && s@ == column_name@) && *final(self) == *old(self),
            has_col(old(self).cols(), column_name@) && !(exists|k: int|
                0 <= k < old(self).pks().len() && (#[trigger] old(self).pks()[k]).name
                    == column_name@) ==> {
                let ci = col_pos(old(self).cols(), column_name@);
                &&& r is Ok
                &&& final(self).cols() == old(self).cols().remove(ci)
                &&& final(self).rs() == old(self).rs().map_values(
                    |row: Seq<Val>| row.remove(ci),
                )
            },
    {
        let ghost cols = self.cols();
        let ghost rs = self.rs();
        let ci = match self.find_col(column_name.as_str()) {
            Some(ci) => ci,
            None => {
                return Err(DBError::InvalidColumn(column_name));
            },
        };
        match self.primary_key(column_name.clone()) {
            Some(_) => {
                return Err(DBError::MandatoryColumn(column_name));
            },
            None => {},
        }
        let ghost new_cols = cols.remove(ci as int);
        let ghost new_rs = rs.map_values(|row: Seq<Val>| row.remove(ci as int));
        proof {
            assert(cols.remove(ci as int) =~= cols.take(ci as int) + cols.skip(ci as int + 1));
        }

        // narrow every row
        let mut new_rows: Vec<Vec<FieldValue>> = Vec::new();
        let mut p: usize = 0;
        proof {
            assert(rows_model(new_rows@) =~= new_rs.take(0));
        }
        while p < self.rows.len()
            invariant
                p <= self.rows@.len(),
                *self == *old(self),
                self.wf(),
                cols == self.cols(),
                rs == self.rs(),
                ci < cols.len(),
                new_rs == rs.map_values(|row: Seq<Val>| row.remove(ci as int)),
                rows_model(new_rows@) == new_rs.take(p as int),
            decreases self.rows@.len() - p,
        {
            let ghost row_m = rs[p as int];
            proof {
                assert(row_m == self.rows@[p as int]@.map_values(|v: FieldValue| v@));
                assert(row_m.len() == cols.len());
                assert(row_m.remove(ci as int) =~= row_m.take(ci as int) + row_m.skip(
                    ci as int + 1,
                ));
            }
            let src_row = &self.rows[p];
            let mut out_row: Vec<FieldValue> = Vec::new();
            let mut c: usize = 0;
            while c < src_row.len()
                invariant
                    c <= src_row@.len(),
                    ci < src_row@.len(),
                    src_row@.map_values(|v: FieldValue| v@) == row_m,
                    row_m.len() == src_row@.len(),
                    out_row@.map_values(|v: FieldValue| v@) =~= if c <= ci {
                        row_m.take(c as int)
                    } else {
                        row_m.remove(ci as int).take(c as int - 1)
                    },
                decreases src_row@.len() - c,
            {
                if c != ci {
                    out_row.push(src_row[c].clone());
                }
                proof {
                    assert(row_m.remove(ci as int) =~= row_m.take(ci as int) + row_m.skip(
                        ci as int + 1,
                    ));
                    if c < ci {
                        assert(row_m.take(c as int + 1) =~= row_m.take(c as int).push(
                            row_m[c as int],
                        ));
                    } else if c == ci {
                        assert(row_m.remove(ci as int).take(c as int) =~= row_m.take(c as int));
                    } else {
                        assert(row_m.remove(ci as int).take(c as int) =~= row_m.remove(
                            ci as int,
                        ).take(c as int - 1).push(row_m[c as int]));
                    }
                }
                c = c + 1;
            }
            proof {
                assert(row_m.remove(ci as int).take(src_row@.len() as int - 1) =~= row_m.remove(
                    ci as int,
                ));
                assert(new_rs[p as int] == row_m.remove(ci as int));
                assert(new_rs.take(p as int + 1) =~= new_rs.take(p as int).push(new_rs[p as int]));
            }
            new_rows.push(out_row);
            p = p + 1;
        }
        proof {
            assert(new_rs.take(self.rows@.len() as int) =~= new_rs);
        }

        // narrow the schema and drop any index over the removed column
        self.drop_index_on(column_name.as_str());
        let ghost survivors = self.idxs();
        proof {
            assert forall|n: Seq<char>|
                n != column_name@ implies (idx_pos(survivors, n) >= 0) == #[trigger] old(
                self,
            ).has_index(n) by {
                assert(self.has_index(n) == old(self).has_index(n));
            }
            assert(!(idx_pos(survivors, column_name@) >= 0)) by {
                assert(!self.has_index(column_name@));
            }
        }
        let removed = self.columns.remove(ci);
        self.rows = new_rows;
        proof {
            assert(self.cols() =~= new_cols);
            assert(self.rs() == new_rs);
            assert forall|a: int, b: int|
                0 <= a < b < new_cols.len() implies new_cols[a].name != new_cols[b].name by {
                let a0 = if a < ci as int {
                    a
                } else {
                    a + 1
                };
                let b0 = if b < ci as int {
                    b
                } else {
                    b + 1
                };
                assert(new_cols[a] == cols[a0]);
                assert(new_cols[b] == cols[b0]);
            }
            assert forall|q: int| 0 <= q < new_rs.len() implies (#[trigger] new_rs[q]).len()
                == new_cols.len() by {
                assert(new_rs[q] == rs[q].remove(ci as int));
                assert(rs[q].remove(ci as int) =~= rs[q].take(ci as int) + rs[q].skip(
                    ci as int + 1,
                ));
            }
            lemma_col_pos_of(cols, ci as int);
            assert forall|x: int| 0 <= x < survivors.len() implies has_col(
                new_cols,
                (#[trigger] survivors[x]).column,
            ) by {
                let y = choose|y: int|
                    0 <= y < old(self).idxs().len() && survivors[x] == #[trigger] old(
                        self,
                    ).idxs()[y];
                assert(index_ok(cols, rs, old(self).idxs()[y]));
                lemma_col_pos(cols, survivors[x].column);
                let oldpos = col_pos(cols, survivors[x].column);
                assert(survivors[x].column != cols[ci as int].name) by {
                    lemma_idx_pos(survivors, cols[ci as int].name);
                    if survivors[x].column == cols[ci as int].name {
                        assert(idx_pos(survivors, cols[ci as int].name) >= 0);
                    }
                }
                let newpos = if oldpos < ci as int {
                    oldpos
                } else {
                    oldpos - 1
                };
                assert(new_cols[newpos] == cols[oldpos]);
                lemma_col_pos(new_cols, survivors[x].column);
            }
        }
        self.rebuild_indexes();
        proof {
            let cur = self.rs();
            assert forall|q: int, cc: int|
                0 <= q < cur.len() && 0 <= cc < new_cols.len() implies val_fits(
                #[trigger] cur[q][cc],
                new_cols[cc].data_type,
            ) by {
                let c0 = if cc < ci as int {
                    cc
                } else {
                    cc + 1
                };
                assert(cur[q] == rs[q].remove(ci as int));
                assert(rs[q].remove(ci as int) =~= rs[q].take(ci as int) + rs[q].skip(
                    ci as int + 1,
                ));
                assert(cur[q][cc] == rs[q][c0]);
                assert(new_cols[cc] == cols[c0]);
                assert(val_fits(rs[q][c0], cols[c0].data_type));
            }
            lemma_col_pos_of(cols, ci as int);
            assert forall|k: int| 0 <= k < self.pks().len() implies pk_col_ok(
                new_cols,
                #[trigger] self.pks()[k],
            ) && self.has_index(self.pks()[k].name) by {
                assert(pk_col_ok(cols, self.pks()[k]));
                lemma_col_pos(cols, self.pks()[k].name);
                let oldpos = col_pos(cols, self.pks()[k].name);
                assert(self.pks()[k].name != cols[ci as int].name) by {
                    if self.pks()[k].name == cols[ci as int].name {
                        assert(exists|kk: int|
                            0 <= kk < old(self).pks().len() && (#[trigger] old(self).pks()[kk]).name
                                == cols[ci as int].name);
                        assert(false);
                    }
                }
                let newpos = if oldpos < ci as int {
                    oldpos
                } else {
                    oldpos - 1
                };
                assert(new_cols[newpos] == cols[oldpos]);
                lemma_col_pos(new_cols, self.pks()[k].name);
                let np = col_pos(new_cols, self.pks()[k].name);
                assert(np >= 0);
                assert(new_cols[np].name == self.pks()[k].name);
                let n0 = if np < ci as int {
                    np
                } else {
                    np + 1
                };
                assert(new_cols[np] == cols[n0]);
                lemma_col_pos_of(cols, n0);
                assert(new_cols[np].data_type == self.pks()[k].data_type);
                // the index over this key survived the drop and the rebuild
                assert(old(self).has_index(self.pks()[k].name));
                lemma_idx_pos(survivors, self.pks()[k].name);
                let y = idx_pos(survivors, self.pks()[k].name);
                assert(y >= 0);
                assert(self.idxs()[y].column == self.pks()[k].name);
                lemma_idx_pos(self.idxs(), self.pks()[k].name);
            }
            if self.synthetic() {
                let ti = col_pos(cols, tuple_id_name());
                lemma_col_pos(cols, tuple_id_name());
                assert(tuple_id_name() != cols[ci as int].name) by {
                    if tuple_id_name() == cols[ci as int].name {
                        assert(self.pks()[0].name == tuple_id_name());
                        assert(exists|kk: int|
                            0 <= kk < old(self).pks().len() && (#[trigger] old(self).pks()[kk]).name
                                == cols[ci as int].name);
                        assert(false);
                    }
                }
                let nt = if ti < ci as int {
                    ti
                } else {
                    ti - 1
                };
                assert(new_cols[nt] == cols[ti]);
                lemma_col_pos(new_cols, tuple_id_name());
                let np = col_pos(new_cols, tuple_id_name());
                assert(np >= 0);
                let n0 = if np < ci as int {
                    np
                } else {
                    np + 1
                };
                assert(new_cols[np] == cols[n0]);
                lemma_col_pos_of(cols, n0);
                assert(n0 == ti);
                assert forall|q: int| 0 <= q < self.rs().len() implies tuple_cell_fresh(
                    #[trigger] self.rs()[q],
                    np,
                    self.tuple_counter(),
                ) by {
                    assert(self.rs()[q] == rs[q].remove(ci as int));
                    assert(rs[q].remove(ci as int) =~= rs[q].take(ci as int) + rs[q].skip(
                        ci as int + 1,
                    ));
                    assert(self.rs()[q][np] == rs[q][ti]);
                    assert(tuple_cell_fresh(rs[q], ti, self.tuple_counter()));
                }
            }
            assert(self.wf());
        }
        Ok(())
    }
}

/// The conditions under which a decoded table is well-formed: exactly the
/// table invariant, stated over the decoded parts, before indexes exist.
pub open spec fn assemble_ok(
    nm: Seq<char>,
    cs: Seq<ColModel>,
    ps: Seq<ColModel>,
    rws: Seq<Seq<Val>>,
    syn: bool,
    ctr: int,
) -> bool {
    &&& col_names_distinct(cs)
    &&& forall|r: int| 0 <= r < rws.len() ==> (#[trigger] rws[r]).len() == cs.len()
    &&& forall|r: int, c: int|
        0 <= r < rws.len() && 0 <= c < cs.len() ==> val_fits(
            #[trigger] rws[r][c],
            cs[c].data_type,
        )
    &&& forall|k: int| 0 <= k < ps.len() ==> pk_col_ok(cs, #[trigger] ps[k])
    &&& forall|k: int, l: int| 0 <= k < l < ps.len() ==> ps[k].name != ps[l].name
    &&& syn ==> {
        let ti = col_pos(cs, tuple_id_name());
        &&& ps.len() == 1
        &&& ps[0].name == tuple_id_name()
        &&& ti >= 0
        &&& cs[ti].data_type == DataType::Number
        &&& forall|r: int| 0 <= r < rws.len() ==> tuple_cell_fresh(#[trigger] rws[r], ti, ctr)
    }
}

/// The position of the first column of this name in a column list.
fn find_col_vec(columns: &Vec<Column>, name: &str) -> (r: Option<usize>)
    ensures
        match r {
            Some(i) => i as int == col_pos(cols_model(columns@), name@) && (i as int)
                < columns@.len() && cols_model(columns@)[i as int].name == name@,
            None => col_pos(cols_model(columns@), name@) == -1,
        },
{
    let ghost cm = cols_model(columns@);
    proof {
        lemma_col_pos(cm, name@);
    }
    let mut i: usize = 0;
    while i < columns.len()
        invariant
            i <= columns@.len(),
            cm == cols_model(columns@),
            forall|k: int| 0 <= k < i ==> cm[k].name != name@,
            -1 <= col_pos(cm, name@) < cm.len(),
            col_pos(cm, name@) >= 0 ==> cm[col_pos(cm, name@)].name == name@,
            col_pos(cm, name@) >= 0 ==> forall|k: int|
                0 <= k < col_pos(cm, name@) ==> cm[k].name != name@,
            col_pos(cm, name@) >= 0 <==> exists|k: int| 0 <= k < cm.len() && cm[k].name == name@,
        decreases columns@.len() - i,
    {
        proof {
            assert(cm[i as int] == columns@[i as int]@);
        }
        if str_eq(columns[i].get_name(), name) {
            proof {
                let p = col_pos(cm, name@);
                if p < i as int {
                    assert(cm[p].name != name@);
                }
            }
            return Some(i);
        }
        i = i + 1;
    }
    None
}

impl Table {
    /// Builds a table from decoded parts, accepting them exactly when they
    /// satisfy the table invariant, and building one index per primary key.
    pub(crate) fn assemble(
        name: String,
        columns: Vec<Column>,
        primary_keys: Vec<Column>,
        rows: Vec<Vec<FieldValue>>,
        synthetic: bool,
        counter: i64,
    ) -> (r: Option<Table>)
        ensures
            ({
                let ok = assemble_ok(
                    name@,
                    cols_model(columns@),
                    cols_model(primary_keys@),
                    rows_model(rows@),
                    synthetic,
                    counter as int,
                );
                if ok {
                    r matches Some(t) && t.wf() && t.name_model() == name@ && t.cols()
                        == cols_model(columns@) && t.pks() == cols_model(primary_keys@) && t.rs()
                        == rows_model(rows@) && t.synthetic() == synthetic && t.tuple_counter()
                        == counter as int
                } else {
                    r is None
                }
            }),
    {
        let ghost cm = cols_model(columns@);
        let ghost pm = cols_model(primary_keys@);
        let ghost rm = rows_model(rows@);

        // distinct column names
        let mut a: usize = 0;
        while a < columns.len()
            invariant
                a <= columns@.len(),
                cm == cols_model(columns@),
                forall|i: int, j: int| 0 <= i < j < cm.len() && i < a ==> cm[i].name != cm[j].name,
            decreases columns@.len() - a,
        {
            let mut b: usize = a + 1;
            while b < columns.len()
                invariant
                    a < b <= columns@.len() || b == a + 1,
                    a < columns@.len(),
                    cm == cols_model(columns@),
                    forall|j: int| a < j < b ==> cm[a as int].name != cm[j].name,
                decreases columns@.len() - b,
            {
                proof {
                    assert(cm[a as int] == columns@[a as int]@);
                    assert(cm[b as int] == columns@[b as int]@);
                }
                if str_eq(columns[a].get_name(), columns[b].get_name()) {
                    return None;
                }
                b = b + 1;
            }
            a = a + 1;
        }
        proof {
            assert(col_names_distinct(cm));
        }

        // every row has one cell per column, of the declared kind
        let mut p: usize = 0;
        while p < rows.len()
            invariant
                p <= rows@.len(),
                cm == cols_model(columns@),
                rm == rows_model(rows@),
                rm.len() == rows@.len(),
                forall|q: int| 0 <= q < p ==> (#[trigger] rm[q]).len() == cm.len(),
                forall|q: int, c: int|
                    0 <= q < p && 0 <= c < cm.len() ==> val_fits(
                        #[trigger] rm[q][c],
                        cm[c].data_type,
                    ),
            decreases rows@.len() - p,
        {
            proof {
                assert(rm[p as int] == rows@[p as int]@.map_values(|v: FieldValue| v@));
            }
            if rows[p].len() != columns.len() {
                return None;
            }
            let mut c: usize = 0;
            while c < columns.len()
                invariant
                    c <= columns@.len(),
                    p < rows@.len(),
                    cm == cols_model(columns@),
                    rm == rows_model(rows@),
                    rm[p as int] == rows@[p as int]@.map_values(|v: FieldValue| v@),
                    rm[p as int].len() == cm.len(),
                    columns@.len() == cm.len(),
                    rows@[p as int]@.len() == cm.len(),
                    forall|cc: int|
                        0 <= cc < c ==> val_fits(#[trigger] rm[p as int][cc], cm[cc].data_type),
                decreases columns@.len() - c,
            {
                proof {
                    assert(cm[c as int] == columns@[c as int]@);
                    assert(rm[p as int][c as int] == rows@[p as int]@[c as int]@);
                }
                let dt = columns[c].get_data_type();
                let cell = &rows[p][c];
                let is_null = match cell {
                    FieldValue::Null => true,
                    _ => false,
                };
                if !is_null && !(dt == cell.data_type()) {
                    return None;
                }
                c = c + 1;
            }
            p = p + 1;
        }

        // every primary key names a column of its own type, names distinct
        let mut k: usize = 0;
        while k < primary_keys.len()
            invariant
                k <= primary_keys@.len(),
                cm == cols_model(columns@),
                pm == cols_model(primary_keys@),
                forall|i: int| 0 <= i < k ==> pk_col_ok(cm, #[trigger] pm[i]),
                forall|i: int, j: int| 0 <= i < j < pm.len() && i < k ==> pm[i].name != pm[j].name,
            decreases primary_keys@.len() - k,
        {
            proof {
                assert(pm[k as int] == primary_keys@[k as int]@);
            }
            let ci = match find_col_vec(&columns, primary_keys[k].get_name()) {
                Some(ci) => ci,
                None => {
                    return None;
                },
            };
            if !(columns[ci].get_data_type() == primary_keys[k].get_data_type()) {
                proof {
                    assert(cm[ci as int] == columns@[ci as int]@);
                }
                return None;
            }
            proof {
                assert(cm[ci as int] == columns@[ci as int]@);
            }
            let mut l: usize = k + 1;
            while l < primary_keys.len()
                invariant
                    k < l <= primary_keys@.len() || l == k + 1,
                    k < primary_keys@.len(),
                    pm == cols_model(primary_keys@),
                    forall|j: int| k < j < l ==> pm[k as int].name != pm[j].name,
                decreases primary_keys@.len() - l,
            {
                proof {
                    assert(pm[k as int] == primary_keys@[k as int]@);
                    assert(pm[l as int] == primary_keys@[l as int]@);
                }
                if str_eq(primary_keys[k].get_name(), primary_keys[l].get_name()) {
                    return None;
                }
                l = l + 1;
            }
            k = k + 1;
        }

        // the synthetic identity key, when claimed, must be exactly the one
        // key over a numeric `Tuple ID` column, with all identities below the
        // counter
        if synthetic {
            if primary_keys.len() != 1 {
                return None;
            }
            proof {
                assert(pm[0] == primary_keys@[0]@);
            }
            if !str_eq(primary_keys[0].get_name(), "Tuple ID") {
                return None;
            }
            let ti = match find_col_vec(&columns, "Tuple ID") {
                Some(ti) => ti,
                None => {
                    return None;
                },
            };
            if !(columns[ti].get_data_type() == DataType::Number) {
                proof {
                    assert(cm[ti as int] == columns@[ti as int]@);
                }
                return None;
            }
            proof {
                assert(cm[ti as int] == columns@[ti as int]@);
            }
            let mut q: usize = 0;
            while q < rows.len()
                invariant
                    synthetic,
                    q <= rows@.len(),
                    cm == cols_model(columns@),
                    rm == rows_model(rows@),
                    rm.len() == rows@.len(),
                    (ti as int) == col_pos(cm, tuple_id_name()),
                    ti < columns@.len(),
                    forall|w: int| 0 <= w < rm.len() ==> (#[trigger] rm[w]).len() == cm.len(),
                    cm.len() == columns@.len(),
                    forall|w: int|
                        0 <= w < q ==> tuple_cell_fresh(#[trigger] rm[w], ti as int, counter as int),
                decreases rows@.len() - q,
            {
                proof {
                    assert(rm[q as int] == rows@[q as int]@.map_values(|v: FieldValue| v@));
                    assert(rm[q as int][ti as int] == rows@[q as int]@[ti as int]@);
                }
                match &rows[q][ti] {
                    FieldValue::Number(v) => {
                        if !(*v < counter) {
                            proof {
                                assert(!tuple_cell_fresh(rm[q as int], ti as int, counter as int));
                            }
                            return None;
                        }
                    },
                    _ => {
                        proof {
                            assert(!(rm[q as int][ti as int] is Number));
                            assert(!tuple_cell_fresh(rm[q as int], ti as int, counter as int));
                        }
                        return None;
                    },
                }
                q = q + 1;
            }
        }

        // one index per key
        let mut indexes: Vec<SecondaryIndex> = Vec::new();
        let mut x: usize = 0;
        while x < primary_keys.len()
            invariant
                x <= primary_keys@.len(),
                cm == cols_model(columns@),
                pm == cols_model(primary_keys@),
                rm == rows_model(rows@),
                forall|i: int| 0 <= i < pm.len() ==> pk_col_ok(cm, #[trigger] pm[i]),
                forall|w: int| 0 <= w < rm.len() ==> (#[trigger] rm[w]).len() == cm.len(),
                indexes@.len() == x,
                forall|y: int|
                    0 <= y < x ==> (#[trigger] indexes@[y]@).column == pm[y].name && index_ok(
                        cm,
                        rm,
                        indexes@[y]@,
                    ),
            decreases primary_keys@.len() - x,
        {
            proof {
                assert(pm[x as int] == primary_keys@[x as int]@);
                assert forall|w: int| 0 <= w < rows@.len() implies (col_pos(cm, pm[x as int].name)
                    as int) < (#[trigger] rows@[w])@.len() by {
                    assert(rm[w] == rows@[w]@.map_values(|v: FieldValue| v@));
                    lemma_col_pos(cm, pm[x as int].name);
                }
            }
            let ci = match find_col_vec(&columns, primary_keys[x].get_name()) {
                Some(ci) => ci,
                None => {
                    proof {
                        assert(pk_col_ok(cm, pm[x as int]));
                    }
                    vstd::pervasive::unreached()
                },
            };
            let entries = build_entries(&rows, ci);
            indexes.push(SecondaryIndex { column: primary_keys[x].get_name().to_owned(), entries });
            x = x + 1;
        }

        let t = Table {
            name,
            columns,
            primary_keys,
            rows,
            indexes,
            synthetic_pk: synthetic,
            next_tuple_id: counter,
        };
        proof {
            assert(t.cols() == cm);
            assert(t.pks() == pm);
            assert(t.rs() == rm);
            assert forall|y: int| 0 <= y < t.idxs().len() implies (#[trigger] t.idxs()[y]).column
                == pm[y].name && index_ok(cm, rm, t.idxs()[y]) by {
                assert(t.idxs()[y] == t.indexes@[y]@);
            }
            assert forall|b2: int| 0 <= b2 < t.pks().len() implies t.has_index(
                (#[trigger] t.pks()[b2]).name,
            ) by {
                lemma_idx_pos(t.idxs(), t.pks()[b2].name);
                assert(t.idxs()[b2].column == t.pks()[b2].name);
            }
            assert(t.wf());
        }
        Some(t)
    }
}

/// Whether any string in the list holds exactly these characters.
pub fn contains_name(list: &Vec<String>, name: &str) -> (r: bool)
    ensures
        r == list@.map_values(|s: String| s@).contains(name@),
{
    let mut i: usize = 0;
    while i < list.len()
        invariant
            i <= list@.len(),
            forall|k: int| 0 <= k < i ==> (#[trigger] list@[k])@ != name@,
        decreases list@.len() - i,
    {
        if str_eq(list[i].as_str(), name) {
            proof {
                assert(list@.map_values(|s: String| s@)[i as int] == name@);
            }
            return true;
        }
        i = i + 1;
    }
    proof {
        let m = list@.map_values(|s: String| s@);
        assert forall|k: int| 0 <= k < m.len() implies #[trigger] m[k] != name@ by {
            assert(m[k] == list@[k]@);
        }
    }
    false
}

/// The primary-key names absent from `names`, in primary-key order.
pub open spec fn missing_pk_names(pks: Seq<ColModel>, names: Seq<Seq<char>>) -> Seq<Seq<char>> {
    pks.filter(|c: ColModel| !names.contains(c.name)).map_values(|c: ColModel| c.name)
}

} // verus!
