//! The engine's cross-cutting guarantees, stated and proved over the same
//! spec functions that the operations' own contracts use.

use vstd::prelude::*;

use crate::column::ColModel;
use crate::filter::{cond_matches, cond_ok, Cond, CondVal};
use crate::table::{
    aligned_row, col_pos, dup_check, filter_rows, has_col, input_val, key_le, row_pred,
    sorted_rows, InsertOutcome, Table,
};
use crate::value::Val;

verus! {

/// Index/scan equivalence: a selection answered through an index and the same
/// selection answered by a forced full scan return the same rows, as
/// multisets. The hypotheses are exactly what `select_rows` and
/// `select_rows_scan` ensure on a well-formed table for a valid column and a
/// well-shaped condition.
pub proof fn lemma_index_scan_equivalence(
    base: Table,
    via_index: Table,
    via_scan: Table,
    column: Seq<char>,
    c: Cond,
)
    requires
        base.wf(),
        has_col(base.cols(), column),
        cond_ok(c),
        via_index.rs().to_multiset() == filter_rows(
            base.rs(),
            col_pos(base.cols(), column),
            c,
        ).to_multiset(),
        via_scan.rs() == filter_rows(base.rs(), col_pos(base.cols(), column), c),
    ensures
        via_index.rs().to_multiset() == via_scan.rs().to_multiset(),
{
}

/// Insert-then-lookup: after an insert is accepted, selecting on a
/// primary-key column for equality with the accepted row's value in that
/// column returns exactly that one row. The hypotheses are what `insert_row`
/// ensures on acceptance; the conclusion speaks of the selection's result
/// through the same `filter_rows` that `select_rows` ensures.
pub proof fn lemma_insert_then_lookup(
    before: Table,
    after: Table,
    im: Seq<(Seq<char>, Val)>,
    row: Seq<Val>,
    k: int,
    v: int,
)
    requires
        before.wf(),
        0 <= k < before.pks().len(),
        before.insert_outcome(im) == InsertOutcome::Accepted(row),
        after.cols() == before.cols(),
        after.rs() == before.rs().push(row),
        row[col_pos(before.cols(), before.pks()[k].name)] == Val::Number(v),
    ensures
        filter_rows(
            after.rs(),
            col_pos(after.cols(), before.pks()[k].name),
            Cond::Equal(CondVal::Number(v)),
        ) == seq![row],
{
    reveal(Seq::filter);
    let ci = col_pos(before.cols(), before.pks()[k].name);
    let c = Cond::Equal(CondVal::Number(v));
    crate::table::lemma_col_pos(before.cols(), before.pks()[k].name);
    crate::table::lemma_entries_check_shape(before.cols(), im);
    assert(row == aligned_row(before.cols(), im, before.synthetic(), before.tuple_counter()));
    assert forall|p: int| 0 <= p < before.rs().len() implies !cond_matches(
        (#[trigger] before.rs()[p])[ci],
        c,
    ) by {
        if before.synthetic() {
            // the accepted identity value is the counter, and every stored
            // identity lies strictly below it
            assert(before.pks()[k].name == crate::table::tuple_id_name());
            assert(row == aligned_row(before.cols(), im, true, before.tuple_counter()));
            assert(before.cols()[ci].name == crate::table::tuple_id_name());
            assert(row[ci] == Val::Number(before.tuple_counter()));
            assert(crate::table::tuple_cell_fresh(before.rs()[p], ci, before.tuple_counter()));
        } else {
            // the duplicate check rejected any stored occurrence of the value
            assert(dup_check(before.pks(), before.cols(), before.rs(), im) is None);
            lemma_dup_check_clear(before.pks(), before.cols(), before.rs(), im, k);
            assert(row == aligned_row(
                before.cols(),
                im,
                before.synthetic(),
                before.tuple_counter(),
            ));
            assert(row[ci] == input_val(im, before.pks()[k].name));
        }
    }
    lemma_filter_none_then_push(before.rs(), row, ci, c);
    assert(cond_matches(row[ci], c));
    assert(filter_rows(after.rs(), ci, c) =~= seq![row]);
}

/// When the duplicate check passes, no stored row holds the supplied value of
/// any primary-key column.
proof fn lemma_dup_check_clear(
    pks: Seq<ColModel>,
    cols: Seq<ColModel>,
    rs: Seq<Seq<Val>>,
    im: Seq<(Seq<char>, Val)>,
    k: int,
)
    requires
        dup_check(pks, cols, rs, im) is None,
        0 <= k < pks.len(),
    ensures
        forall|p: int|
            0 <= p < rs.len() ==> (#[trigger] rs[p])[col_pos(cols, pks[k].name)] != input_val(
                im,
                pks[k].name,
            ),
    decreases k,
{
    if k > 0 {
        lemma_dup_check_clear(pks.drop_first(), cols, rs, im, k - 1);
        assert(pks.drop_first()[k - 1] == pks[k]);
    }
}

/// Filtering a row list in which nothing matches, extended by one matching
/// row, keeps exactly that row.
proof fn lemma_filter_none_then_push(rs: Seq<Seq<Val>>, row: Seq<Val>, ci: int, c: Cond)
    requires
        forall|p: int| 0 <= p < rs.len() ==> !cond_matches((#[trigger] rs[p])[ci], c),
        cond_matches(row[ci], c),
    ensures
        filter_rows(rs.push(row), ci, c) == seq![row],
{
    assert forall|p: int| 0 <= p < rs.len() implies !(row_pred(ci, c)(#[trigger] rs[p])) by {}
    rs.lemma_all_neg_filter_empty(row_pred(ci, c));
    rs.lemma_filter_push(row, row_pred(ci, c));
    assert(filter_rows(rs.push(row), ci, c) =~= seq![row]);
}

/// Duplicate primary-key rejection: once a row is accepted, a second insert
/// that supplies, for some primary-key column, the very value the accepted
/// row carries there, is answered with `DuplicatePrimaryKey` — provided the
/// second row supplies every key and the table is not on the synthetic
/// identity key (which the engine fills itself and which therefore cannot
/// collide). That the failed insert leaves the table unchanged is part of
/// `insert_row`'s own contract.
pub proof fn lemma_duplicate_primary_key(
    before: Table,
    after: Table,
    im1: Seq<(Seq<char>, Val)>,
    im2: Seq<(Seq<char>, Val)>,
    row: Seq<Val>,
    k: int,
)
    requires
        before.wf(),
        !before.synthetic(),
        0 <= k < before.pks().len(),
        before.insert_outcome(im1) == InsertOutcome::Accepted(row),
        after.cols() == before.cols(),
        after.pks() == before.pks(),
        after.synthetic() == before.synthetic(),
        after.rs() == before.rs().push(row),
        crate::table::missing_pk_names(after.pks(), crate::table::input_names(im2)).len() == 0,
        input_val(im2, before.pks()[k].name) == row[col_pos(before.cols(), before.pks()[k].name)],
    ensures
        after.insert_outcome(im2) matches InsertOutcome::Duplicate(_),
{
    let ci = col_pos(before.cols(), before.pks()[k].name);
    crate::table::lemma_entries_check_shape(before.cols(), im1);
    assert(after.rs()[after.rs().len() - 1] == row);
    assert(exists|p: int|
        0 <= p < after.rs().len() && (#[trigger] after.rs()[p])[ci] == input_val(
            im2,
            before.pks()[k].name,
        ));
    lemma_dup_check_finds(after.pks(), after.cols(), after.rs(), im2, k);
}

/// When some primary-key column's supplied value occurs in the rows, the
/// duplicate check reports a duplicate.
proof fn lemma_dup_check_finds(
    pks: Seq<ColModel>,
    cols: Seq<ColModel>,
    rs: Seq<Seq<Val>>,
    im: Seq<(Seq<char>, Val)>,
    k: int,
)
    requires
        0 <= k < pks.len(),
        exists|p: int|
            0 <= p < rs.len() && (#[trigger] rs[p])[col_pos(cols, pks[k].name)] == input_val(
                im,
                pks[k].name,
            ),
    ensures
        dup_check(pks, cols, rs, im) is Some,
    decreases k,
{
    if k == 0 {
    } else {
        if exists|p: int|
            0 <= p < rs.len() && (#[trigger] rs[p])[col_pos(cols, pks[0].name)] == input_val(
                im,
                pks[0].name,
            ) {
        } else {
            assert(pks.drop_first()[k - 1] == pks[k]);
            lemma_dup_check_finds(pks.drop_first(), cols, rs, im, k - 1);
        }
    }
}

/// Delete/index consistency: after a deletion, no surviving row matches the
/// deleting condition; every surviving row is still reached by an equality
/// selection on its own numeric value in any column; and any selection on the
/// compacted table returns only surviving rows. The first hypothesis is what
/// `delete_rows` ensures.
pub proof fn lemma_delete_index_consistency(
    before: Table,
    after: Table,
    ci: int,
    c: Cond,
)
    requires
        after.rs() == crate::table::keep_rows(before.rs(), ci, c),
    ensures
        forall|q: int|
            0 <= q < after.rs().len() ==> !cond_matches((#[trigger] after.rs()[q])[ci], c),
        forall|q: int, cc: int, v: int|
            0 <= q < after.rs().len() && (#[trigger] after.rs()[q])[cc] == Val::Number(v)
                ==> #[trigger] filter_rows(after.rs(), cc, Cond::Equal(CondVal::Number(v))).contains(
                after.rs()[q],
            ),
        forall|cc: int, c2: Cond, j: int|
            0 <= j < filter_rows(after.rs(), cc, c2).len() ==> after.rs().contains(
                #[trigger] filter_rows(after.rs(), cc, c2)[j],
            ),
{
    broadcast use vstd::seq::Seq::lemma_filter_pred;
    broadcast use vstd::seq::Seq::lemma_filter_contains;

    assert forall|q: int| 0 <= q < after.rs().len() implies !cond_matches(
        (#[trigger] after.rs()[q])[ci],
        c,
    ) by {
        assert(crate::table::keep_pred(ci, c)(after.rs()[q]));
    }
    assert forall|q: int, cc: int, v: int|
        0 <= q < after.rs().len() && (#[trigger] after.rs()[q])[cc] == Val::Number(v)
            implies #[trigger] filter_rows(after.rs(), cc, Cond::Equal(CondVal::Number(v))).contains(
        after.rs()[q],
    ) by {
        let c2 = Cond::Equal(CondVal::Number(v));
        assert(row_pred(cc, c2)(after.rs()[q]));
        after.rs().lemma_filter_contains(row_pred(cc, c2), q);
    }
    assert forall|cc: int, c2: Cond, j: int|
        0 <= j < filter_rows(after.rs(), cc, c2).len() implies after.rs().contains(
        #[trigger] filter_rows(after.rs(), cc, c2)[j],
    ) by {
        crate::seq_lemmas::lemma_filter_subset(after.rs(), row_pred(cc, c2));
    }
}

/// Sort ordering: after an ascending sort, every earlier row's key is at or
/// below every later row's key, in particular between adjacent rows; a
/// descending sort reverses the relation. The hypothesis is what `sort_rows`
/// ensures; that the row count is unchanged is part of its own contract.
pub proof fn lemma_sort_adjacent(rs: Seq<Seq<Val>>, ci: int, desc: bool)
    requires
        sorted_rows(rs, ci, desc),
    ensures
        forall|i: int|
            0 <= i && i + 1 < rs.len() ==> key_le(
                (#[trigger] rs[i])[ci],
                rs[i + 1][ci],
                desc,
            ),
{
}

/// A well-formed table satisfies the decoder's acceptance conditions, so its
/// byte form always loads back: saving and loading reproduces the schema, the
/// keys, the row count and every row, value for value.
pub proof fn lemma_wf_loads_back(t: Table)
    requires
        t.wf(),
    ensures
        crate::table::assemble_ok(
            t.name_model(),
            t.cols(),
            t.pks(),
            t.rs(),
            t.synthetic(),
            t.tuple_counter(),
        ),
{
}

} // verus!
