//! Sort-merge equality joins. Both joins share the same preparation: the
//! join-column values of each side are paired with their row positions,
//! each side is sorted ascending by value, and one left-to-right merge walks
//! both lists, with the right pointer resting at the start of the current
//! key group — the marked resume position — while equal left keys replay it.
//!
//! The inner join emits one combined row per matching pair. The (left) outer
//! join additionally emits, for every left row that matched nothing, a row
//! padded with `Null` in the right-hand columns other than the join column.

use vstd::prelude::*;
use vstd::multiset::Multiset;

use crate::column::{ColModel, Column};
use crate::errors::DBError;
use crate::table::{col_names_distinct, col_pos, cols_model, compose_name, has_col, Table};
use crate::value::{val_le, FieldValue, Val};

verus! {

broadcast use vstd::seq::Seq::lemma_push_map_commute;

/// A column carried into a join result: primary-key flags are cleared, since
/// join results give no uniqueness guarantees.
pub open spec fn clear_fn() -> spec_fn(ColModel) -> ColModel {
    |c: ColModel| ColModel { is_primary_key: false, ..c }
}

/// The schema of a join result: the left columns without the join column,
/// then all right columns, every key flag cleared.
pub open spec fn join_cols(lc: Seq<ColModel>, rc: Seq<ColModel>, ljc: int) -> Seq<ColModel> {
    lc.remove(ljc).map_values(clear_fn()) + rc.map_values(clear_fn())
}

/// One combined row: the left row without its join cell, then the right row.
pub open spec fn join_row(lrow: Seq<Val>, rrow: Seq<Val>, ljc: int) -> Seq<Val> {
    lrow.remove(ljc) + rrow
}

/// Whether a right row joins with the given key.
pub open spec fn match_fn(key: Val, rjc: int) -> spec_fn(Seq<Val>) -> bool {
    |r: Seq<Val>| r[rjc] == key
}

/// Combining one left row with a right row.
pub open spec fn join_fn(lrow: Seq<Val>, ljc: int) -> spec_fn(Seq<Val>) -> Seq<Val> {
    |r: Seq<Val>| join_row(lrow, r, ljc)
}

/// All combined rows of one left row, in right-hand order.
pub open spec fn row_matches(lrow: Seq<Val>, rrows: Seq<Seq<Val>>, ljc: int, rjc: int) -> Seq<
    Seq<Val>,
> {
    rrows.filter(match_fn(lrow[ljc], rjc)).map_values(join_fn(lrow, ljc))
}

/// The combined rows of each left row in turn.
pub open spec fn joins_fn(rrows: Seq<Seq<Val>>, ljc: int, rjc: int) -> spec_fn(Seq<Val>) -> Seq<
    Seq<Val>,
> {
    |l: Seq<Val>| row_matches(l, rrows, ljc, rjc)
}

/// Every combined row of an inner join: one per pair of rows with equal
/// join-column values.
pub open spec fn all_joins(
    lrows: Seq<Seq<Val>>,
    rrows: Seq<Seq<Val>>,
    ljc: int,
    rjc: int,
) -> Seq<Seq<Val>> {
    lrows.map_values(joins_fn(rrows, ljc, rjc)).flatten()
}

/// Whether a left row matches no right row.
pub open spec fn no_match(lrow: Seq<Val>, rrows: Seq<Seq<Val>>, ljc: int, rjc: int) -> bool {
    forall|j: int| 0 <= j < rrows.len() ==> (#[trigger] rrows[j])[rjc] != lrow[ljc]
}

/// The left rows that match no right row, as a filter predicate.
pub open spec fn unmatched_fn(rrows: Seq<Seq<Val>>, ljc: int, rjc: int) -> spec_fn(
    Seq<Val>,
) -> bool {
    |l: Seq<Val>| no_match(l, rrows, ljc, rjc)
}

/// The left rows that match no right row, in left order.
pub open spec fn unmatched(
    lrows: Seq<Seq<Val>>,
    rrows: Seq<Seq<Val>>,
    ljc: int,
    rjc: int,
) -> Seq<Seq<Val>> {
    lrows.filter(unmatched_fn(rrows, ljc, rjc))
}

/// An unmatched left row padded into the join schema: its own cells without
/// the join cell, then `Null` for every right column except the join column,
/// which keeps the left value.
pub open spec fn pad_row(lrow: Seq<Val>, ljc: int, rlen: int, rjc: int) -> Seq<Val> {
    lrow.remove(ljc) + Seq::new(
        rlen as nat,
        |j: int|
            if j == rjc {
                lrow[ljc]
            } else {
                Val::Null
            },
    )
}

/// Padding as a function value.
pub open spec fn pad_fn(ljc: int, rlen: int, rjc: int) -> spec_fn(Seq<Val>) -> Seq<Val> {
    |l: Seq<Val>| pad_row(l, ljc, rlen, rjc)
}

/// The values of one column, in row order.
pub open spec fn col_vals(rs: Seq<Seq<Val>>, ci: int) -> Seq<Val> {
    rs.map_values(|r: Seq<Val>| r[ci])
}

/// Whether the two join columns hold values of one kind throughout, so every
/// comparison the merge makes is between same-kind values.
pub open spec fn keys_uniform(lv: Seq<Val>, rv: Seq<Val>) -> bool {
    &&& forall|i: int, j: int|
        0 <= i < lv.len() && 0 <= j < lv.len() ==> crate::value::same_kind(lv[i], lv[j])
    &&& forall|i: int, j: int|
        0 <= i < rv.len() && 0 <= j < rv.len() ==> crate::value::same_kind(rv[i], rv[j])
    &&& lv.len() > 0 && rv.len() > 0 ==> crate::value::same_kind(lv[0], rv[0])
}

/// Reordering the left side reorders the combined rows.
proof fn lemma_all_joins_left_perm(
    l1: Seq<Seq<Val>>,
    l2: Seq<Seq<Val>>,
    rr: Seq<Seq<Val>>,
    ljc: int,
    rjc: int,
)
    requires
        l1.to_multiset() == l2.to_multiset(),
    ensures
        all_joins(l1, rr, ljc, rjc).to_multiset() == all_joins(l2, rr, ljc, rjc).to_multiset(),
{
    crate::seq_lemmas::lemma_map_values_multiset(l1, l2, joins_fn(rr, ljc, rjc));
    crate::seq_lemmas::lemma_flatten_multiset(
        l1.map_values(joins_fn(rr, ljc, rjc)),
        l2.map_values(joins_fn(rr, ljc, rjc)),
    );
}

/// Reordering the right side reorders the combined rows.
proof fn lemma_all_joins_right_perm(
    lr: Seq<Seq<Val>>,
    r1: Seq<Seq<Val>>,
    r2: Seq<Seq<Val>>,
    ljc: int,
    rjc: int,
)
    requires
        r1.to_multiset() == r2.to_multiset(),
    ensures
        all_joins(lr, r1, ljc, rjc).to_multiset() == all_joins(lr, r2, ljc, rjc).to_multiset(),
{
    let m1 = lr.map_values(joins_fn(r1, ljc, rjc));
    let m2 = lr.map_values(joins_fn(r2, ljc, rjc));
    assert forall|i: int| 0 <= i < m1.len() implies (#[trigger] m1[i]).to_multiset()
        == m2[i].to_multiset() by {
        crate::seq_lemmas::lemma_filter_multiset(r1, r2, match_fn(lr[i][ljc], rjc));
        crate::seq_lemmas::lemma_map_values_multiset(
            r1.filter(match_fn(lr[i][ljc], rjc)),
            r2.filter(match_fn(lr[i][ljc], rjc)),
            join_fn(lr[i], ljc),
        );
        assert(m1[i] == row_matches(lr[i], r1, ljc, rjc));
        assert(m2[i] == row_matches(lr[i], r2, ljc, rjc));
    }
    crate::seq_lemmas::lemma_flatten_pointwise_multiset(m1, m2);
}

/// Whether a left row has a match is unchanged by reordering the right side.
proof fn lemma_no_match_perm(lrow: Seq<Val>, r1: Seq<Seq<Val>>, r2: Seq<Seq<Val>>, ljc: int, rjc: int)
    requires
        r1.to_multiset() == r2.to_multiset(),
    ensures
        no_match(lrow, r1, ljc, rjc) == no_match(lrow, r2, ljc, rjc),
{
    broadcast use vstd::seq_lib::group_to_multiset_ensures;

    if !no_match(lrow, r1, ljc, rjc) {
        let j = choose|j: int| 0 <= j < r1.len() && (#[trigger] r1[j])[rjc] == lrow[ljc];
        assert(r1.contains(r1[j]));
        assert(r2.to_multiset().count(r1[j]) > 0);
        assert(r2.contains(r1[j]));
        let j2 = choose|j2: int| 0 <= j2 < r2.len() && r2[j2] == r1[j];
        assert(!no_match(lrow, r2, ljc, rjc));
    }
    if !no_match(lrow, r2, ljc, rjc) {
        let j = choose|j: int| 0 <= j < r2.len() && (#[trigger] r2[j])[rjc] == lrow[ljc];
        assert(r2.contains(r2[j]));
        assert(r1.to_multiset().count(r2[j]) > 0);
        assert(r1.contains(r2[j]));
        let j2 = choose|j2: int| 0 <= j2 < r1.len() && r1[j2] == r2[j];
        assert(!no_match(lrow, r1, ljc, rjc));
    }
}

/// Filtering with predicates that agree on the sequence's elements keeps the
/// same rows.
proof fn lemma_filter_pred_equiv<A>(s: Seq<A>, p1: spec_fn(A) -> bool, p2: spec_fn(A) -> bool)
    requires
        forall|x: A| s.contains(x) ==> p1(x) == p2(x),
    ensures
        s.filter(p1) == s.filter(p2),
    decreases s.len(),
{
    reveal(Seq::filter);
    if s.len() > 0 {
        assert forall|x: A| s.drop_last().contains(x) implies p1(x) == p2(x) by {
            let m = choose|m: int| 0 <= m < s.drop_last().len() && s.drop_last()[m] == x;
            assert(s[m] == x);
            assert(s.contains(x));
        }
        lemma_filter_pred_equiv(s.drop_last(), p1, p2);
        assert(s.contains(s.last())) by {
            assert(s[s.len() - 1] == s.last());
        }
    }
}

/// The unmatched left rows, up to order, do not depend on the order of
/// either side.
proof fn lemma_unmatched_perm(
    l1: Seq<Seq<Val>>,
    l2: Seq<Seq<Val>>,
    r1: Seq<Seq<Val>>,
    r2: Seq<Seq<Val>>,
    ljc: int,
    rjc: int,
)
    requires
        l1.to_multiset() == l2.to_multiset(),
        r1.to_multiset() == r2.to_multiset(),
    ensures
        unmatched(l1, r1, ljc, rjc).to_multiset() == unmatched(l2, r2, ljc, rjc).to_multiset(),
{
    assert forall|l: Seq<Val>| l1.contains(l) implies unmatched_fn(r1, ljc, rjc)(l)
        == unmatched_fn(r2, ljc, rjc)(l) by {
        lemma_no_match_perm(l, r1, r2, ljc, rjc);
    }
    lemma_filter_pred_equiv(l1, unmatched_fn(r1, ljc, rjc), unmatched_fn(r2, ljc, rjc));
    crate::seq_lemmas::lemma_filter_multiset(l1, l2, unmatched_fn(r2, ljc, rjc));
}

/// One element of a join side: a join-column value and the position of the
/// row it came from.
pub(crate) struct JoinPair {
    value_to_sort_on: FieldValue,
    row_index: usize,
}

/// The spec-level mirror of a [`JoinPair`].
#[verifier::ext_equal]
pub ghost struct PairModel {
    pub key: Val,
    pub idx: int,
}

impl View for JoinPair {
    type V = PairModel;

    closed spec fn view(&self) -> PairModel {
        PairModel { key: self.value_to_sort_on@, idx: self.row_index as int }
    }
}

/// The models of a pair list.
pub(crate) open spec fn pairs_model(ps: Seq<JoinPair>) -> Seq<PairModel> {
    ps.map_values(|p: JoinPair| p@)
}

/// The canonical pair list of one side: each row's join-column value with its
/// position.
pub open spec fn side_pairs(rs: Seq<Seq<Val>>, ci: int) -> Seq<PairModel> {
    Seq::new(rs.len(), |i: int| PairModel { key: rs[i][ci], idx: i })
}

/// Extracts the join-column pairs of one table.
fn build_pairs(t: &Table, ci: usize) -> (ps: Vec<JoinPair>)
    requires
        t.wf(),
        ci < t.cols().len(),
    ensures
        pairs_model(ps@) == side_pairs(t.rs(), ci as int),
{
    let rows = t.rows();
    let ghost rs = t.rs();
    let mut ps: Vec<JoinPair> = Vec::new();
    let mut i: usize = 0;
    while i < rows.len()
        invariant
            i <= rows@.len(),
            t.wf(),
            ci < t.cols().len(),
            rs == crate::index::rows_model(rows@),
            rs == t.rs(),
            pairs_model(ps@) =~= side_pairs(rs, ci as int).take(i as int),
        decreases rows@.len() - i,
    {
        proof {
            assert(rs[i as int] == rows@[i as int]@.map_values(|v: FieldValue| v@));
            assert(rs[i as int].len() == t.cols().len());
        }
        ps.push(JoinPair { value_to_sort_on: rows[i][ci].clone(), row_index: i });
        proof {
            assert(side_pairs(rs, ci as int).take(i as int + 1) =~= side_pairs(
                rs,
                ci as int,
            ).take(i as int).push(side_pairs(rs, ci as int)[i as int]));
            assert(pairs_model(ps@) =~= side_pairs(rs, ci as int).take(i as int + 1));
        }
        i = i + 1;
    }
    proof {
        assert(side_pairs(rs, ci as int).take(rows@.len() as int) =~= side_pairs(rs, ci as int));
    }
    ps
}

/// Pairs ordered ascending by key.
pub open spec fn pairs_sorted(pm: Seq<PairModel>) -> bool {
    forall|i: int, j: int| 0 <= i < j < pm.len() ==> val_le((#[trigger] pm[i]).key, (#[trigger] pm[j]).key)
}

/// Sorts a pair list ascending by key, keeping its contents.
fn sort_pairs(input: Vec<JoinPair>) -> (out: Vec<JoinPair>)
    ensures
        pairs_model(out@).to_multiset() == pairs_model(input@).to_multiset(),
        pairs_sorted(pairs_model(out@)),
{
    broadcast use vstd::seq_lib::group_to_multiset_ensures;

    let ghost pm0 = pairs_model(input@);
    let mut out: Vec<JoinPair> = Vec::new();
    let mut p: usize = 0;
    proof {
        assert(pm0.take(0) =~= Seq::<PairModel>::empty());
        assert(pairs_model(out@) =~= Seq::<PairModel>::empty());
        assert(pm0.take(0).to_multiset() =~= Seq::<PairModel>::empty().to_multiset());
    }
    while p < input.len()
        invariant
            p <= input@.len(),
            pm0 == pairs_model(input@),
            pairs_model(out@).to_multiset() == pm0.take(p as int).to_multiset(),
            pairs_sorted(pairs_model(out@)),
        decreases input@.len() - p,
    {
        broadcast use vstd::seq_lib::group_to_multiset_ensures;

        let ghost om = pairs_model(out@);
        let ghost newp = pm0[p as int];
        proof {
            assert(newp == input@[p as int]@);
        }
        let mut j: usize = 0;
        loop
            invariant
                j <= out@.len(),
                om == pairs_model(out@),
                newp == input@[p as int]@,
                p < input@.len(),
                forall|q: int| 0 <= q < j ==> val_le((#[trigger] om[q]).key, newp.key),
            ensures
                j <= om.len(),
                forall|q: int| 0 <= q < j ==> val_le((#[trigger] om[q]).key, newp.key),
                j < om.len() ==> val_le(newp.key, om[j as int].key),
            decreases out@.len() - j,
        {
            if j == out.len() {
                break;
            }
            let cont = out[j].value_to_sort_on.total_le(&input[p].value_to_sort_on);
            proof {
                assert(om[j as int] == out@[j as int]@);
                if !cont {
                    crate::value::lemma_val_le_total(om[j as int].key, newp.key);
                }
            }
            if !cont {
                break;
            }
            j = j + 1;
        }
        let pair = JoinPair {
            value_to_sort_on: input[p].value_to_sort_on.clone(),
            row_index: input[p].row_index,
        };
        out.insert(j, pair);
        proof {
            assert(pairs_model(out@) =~= om.insert(j as int, newp));
            crate::seq_lemmas::lemma_insert_multiset(om, j as int, newp);
            assert(pm0.take(p as int + 1) =~= pm0.take(p as int).push(newp));
            let om2 = pairs_model(out@);
            assert forall|a: int, b: int|
                0 <= a < b < om2.len() implies val_le(
                (#[trigger] om2[a]).key,
                (#[trigger] om2[b]).key,
            ) by {
                if a < j as int && b == j as int {
                    assert(om2[a] == om[a]);
                    assert(om2[b] == newp);
                } else if a == j as int && b > j as int {
                    assert(om2[a] == newp);
                    assert(om2[b] == om[b - 1]);
                    if j as int == b - 1 {
                    } else {
                        crate::value::lemma_val_le_trans(newp.key, om[j as int].key, om[b - 1].key);
                    }
                } else if a < j as int && b > j as int {
                    assert(om2[a] == om[a]);
                    assert(om2[b] == om[b - 1]);
                    if a == b - 1 {
                        assert(val_le(om[a].key, newp.key));
                        assert(val_le(newp.key, om2[b].key));
                    } else {
                        assert(val_le(om[a].key, om[b - 1].key));
                    }
                } else if a > j as int {
                    assert(om2[a] == om[a - 1]);
                    assert(om2[b] == om[b - 1]);
                } else {
                    assert(om2[a] == om[a]);
                    assert(om2[b] == om[b]);
                }
            }
        }
        p = p + 1;
    }
    proof {
        assert(pm0.take(input@.len() as int) =~= pm0);
    }
    out
}

/// Builds one combined row from a matching pair.
fn join_rows_exec(lrow: &Vec<FieldValue>, rrow: &Vec<FieldValue>, ljc: usize) -> (out: Vec<
    FieldValue,
>)
    requires
        (ljc as int) < lrow@.len(),
    ensures
        out@.map_values(|v: FieldValue| v@) == join_row(
            lrow@.map_values(|v: FieldValue| v@),
            rrow@.map_values(|v: FieldValue| v@),
            ljc as int,
        ),
{
    let ghost lm = lrow@.map_values(|v: FieldValue| v@);
    let ghost rm = rrow@.map_values(|v: FieldValue| v@);
    let mut out: Vec<FieldValue> = Vec::new();
    let mut i: usize = 0;
    while i < lrow.len()
        invariant
            i <= lrow@.len(),
            (ljc as int) < lrow@.len(),
            lm == lrow@.map_values(|v: FieldValue| v@),
            out@.map_values(|v: FieldValue| v@) =~= if i <= ljc {
                lm.take(i as int)
            } else {
                lm.remove(ljc as int).take(i as int - 1)
            },
        decreases lrow@.len() - i,
    {
        if i != ljc {
            out.push(lrow[i].clone());
        }
        proof {
            assert(lm.remove(ljc as int) =~= lm.take(ljc as int) + lm.skip(ljc as int + 1));
            if i < ljc {
                assert(lm.take(i as int + 1) =~= lm.take(i as int).push(lm[i as int]));
            } else if i == ljc {
                assert(lm.remove(ljc as int).take(i as int) =~= lm.take(i as int));
            } else {
                assert(lm.remove(ljc as int).take(i as int) =~= lm.remove(ljc as int).take(
                    i as int - 1,
                ).push(lm[i as int]));
            }
        }
        i = i + 1;
    }
    proof {
        assert(lm.remove(ljc as int).take(lrow@.len() as int - 1) =~= lm.remove(ljc as int));
    }
    let mut k: usize = 0;
    while k < rrow.len()
        invariant
            k <= rrow@.len(),
            rm == rrow@.map_values(|v: FieldValue| v@),
            out@.map_values(|v: FieldValue| v@) =~= lm.remove(ljc as int) + rm.take(k as int),
            lm == lrow@.map_values(|v: FieldValue| v@),
            (ljc as int) < lrow@.len(),
        decreases rrow@.len() - k,
    {
        out.push(rrow[k].clone());
        proof {
            assert(rm.take(k as int + 1) =~= rm.take(k as int).push(rm[k as int]));
            assert(lm.remove(ljc as int) + rm.take(k as int + 1) =~= (lm.remove(ljc as int)
                + rm.take(k as int)).push(rm[k as int]));
        }
        k = k + 1;
    }
    proof {
        assert(rm.take(rrow@.len() as int) =~= rm);
        assert(out@.map_values(|v: FieldValue| v@) =~= join_row(lm, rm, ljc as int));
    }
    out
}

/// The first left column other than the join column whose name also occurs
/// on the right, or -1 when the two schemas are disjoint apart from the join
/// column.
pub open spec fn first_clash(lc: Seq<ColModel>, rc: Seq<ColModel>, ljc: int, k: int) -> int
    decreases lc.len() - k,
{
    if k < 0 || k >= lc.len() {
        -1
    } else if k != ljc && has_col(rc, lc[k].name) {
        k
    } else {
        first_clash(lc, rc, ljc, k + 1)
    }
}

impl Table {
    /// Builds the schema of a join result and the validation of column-name
    /// disjointness: every left column except the join column must be absent
    /// from the right schema.
    #[verifier::rlimit(100)]
    fn build_join_cols(&self, other: &Table, ljc: usize) -> (r: Result<Vec<Column>, DBError>)
        requires
            self.wf(),
            other.wf(),
            (ljc as int) < self.cols().len(),
        ensures
            ({
                let bad = first_clash(self.cols(), other.cols(), ljc as int, 0);
                if bad >= 0 {
                    r matches Err(e) && e matches DBError::InvalidColumn(s) && s@
                        == self.cols()[bad].name
                } else {
                    r matches Ok(cs) && cols_model(cs@) == join_cols(
                        self.cols(),
                        other.cols(),
                        ljc as int,
                    ) && col_names_distinct(cols_model(cs@))
                }
            }),
    {
        let ghost lc = self.cols();
        let ghost rc = other.cols();
        let lcols = self.columns();
        let rcols = other.columns();
        let mut out: Vec<Column> = Vec::new();
        let mut k: usize = 0;
        while k < lcols.len()
            invariant
                k <= lcols@.len(),
                self.wf(),
                other.wf(),
                (ljc as int) < lc.len(),
                lc == self.cols(),
                rc == other.cols(),
                lc == cols_model(lcols@),
                rc == cols_model(rcols@),
                first_clash(lc, rc, ljc as int, 0) == first_clash(lc, rc, ljc as int, k as int),
                cols_model(out@) =~= if k <= ljc {
                    lc.take(k as int).map_values(clear_fn())
                } else {
                    lc.remove(ljc as int).take(k as int - 1).map_values(clear_fn())
                },
            decreases lcols@.len() - k,
        {
            proof {
                assert(lc[k as int] == lcols@[k as int]@);
                assert(lc.remove(ljc as int) =~= lc.take(ljc as int) + lc.skip(ljc as int + 1));
            }
            if k != ljc {
                match other.find_col(lcols[k].get_name()) {
                    Some(_) => {
                        proof {
                            assert(first_clash(lc, rc, ljc as int, k as int) == k as int);
                        }
                        return Err(DBError::InvalidColumn(lcols[k].get_name().to_owned()));
                    },
                    None => {},
                }
                let mut c = lcols[k].clone();
                c.change_pk_state(false);
                out.push(c);
            }
            proof {
                let m = lc.map_values(clear_fn());
                if (k as int) < ljc as int {
                    assert(lc.take(k as int + 1).map_values(clear_fn()) =~= lc.take(
                        k as int,
                    ).map_values(clear_fn()).push(clear_fn()(lc[k as int])));
                } else if k == ljc {
                    assert(lc.remove(ljc as int).take(k as int) =~= lc.take(k as int));
                } else {
                    assert(lc.remove(ljc as int).take(k as int).map_values(clear_fn())
                        =~= lc.remove(ljc as int).take(k as int - 1).map_values(clear_fn()).push(
                        clear_fn()(lc[k as int]),
                    ));
                }
            }
            k = k + 1;
        }
        proof {
            assert(lc.remove(ljc as int).take(lcols@.len() as int - 1) =~= lc.remove(ljc as int));
        }
        let mut k2: usize = 0;
        while k2 < rcols.len()
            invariant
                k2 <= rcols@.len(),
                (ljc as int) < lc.len(),
                lc == self.cols(),
                rc == other.cols(),
                rc == cols_model(rcols@),
                cols_model(out@) =~= lc.remove(ljc as int).map_values(clear_fn()) + rc.take(
                    k2 as int,
                ).map_values(clear_fn()),
            decreases rcols@.len() - k2,
        {
            proof {
                assert(rc[k2 as int] == rcols@[k2 as int]@);
            }
            let mut c = rcols[k2].clone();
            c.change_pk_state(false);
            out.push(c);
            proof {
                assert(rc.take(k2 as int + 1).map_values(clear_fn()) =~= rc.take(
                    k2 as int,
                ).map_values(clear_fn()).push(clear_fn()(rc[k2 as int])));
                assert(cols_model(out@) =~= lc.remove(ljc as int).map_values(clear_fn())
                    + rc.take(k2 as int + 1).map_values(clear_fn()));
            }
            k2 = k2 + 1;
        }
        proof {
            assert(rc.take(rcols@.len() as int) =~= rc);
            assert(cols_model(out@) == join_cols(lc, rc, ljc as int));
            lemma_join_cols_distinct(lc, rc, ljc as int);
        }
        Ok(out)
    }
}

/// With disjoint schemas apart from the join column, the join schema has
/// distinct column names.
#[verifier::rlimit(100)]
proof fn lemma_join_cols_distinct(lc: Seq<ColModel>, rc: Seq<ColModel>, ljc: int)
    requires
        col_names_distinct(lc),
        col_names_distinct(rc),
        0 <= ljc < lc.len(),
        first_clash(lc, rc, ljc, 0) == -1,
    ensures
        col_names_distinct(join_cols(lc, rc, ljc)),
{
    let jc = join_cols(lc, rc, ljc);
    let lpart = lc.remove(ljc);
    assert(lpart =~= lc.take(ljc) + lc.skip(ljc + 1));
    assert forall|a: int, b: int| 0 <= a < b < jc.len() implies jc[a].name != jc[b].name by {
        let nl = lpart.len();
        if b < nl {
            let a0 = if a < ljc {
                a
            } else {
                a + 1
            };
            let b0 = if b < ljc {
                b
            } else {
                b + 1
            };
            assert(lpart[a] == lc[a0]);
            assert(lpart[b] == lc[b0]);
            assert(lc[a0].name != lc[b0].name);
        } else if a >= nl {
            assert(jc[a].name == rc[a - nl].name);
            assert(jc[b].name == rc[b - nl].name);
        } else {
            let a0 = if a < ljc {
                a
            } else {
                a + 1
            };
            assert(lpart[a] == lc[a0]);
            assert(jc[a].name == lc[a0].name);
            assert(jc[b].name == rc[b - nl].name);
            lemma_first_clash_none(lc, rc, ljc, 0, a0);
            crate::table::lemma_col_pos(rc, lc[a0].name);
        }
    }
}

/// When no clash was found from `k` on, no left column at or after `k` other
/// than the join column shares a name with a right column.
proof fn lemma_first_clash_none(lc: Seq<ColModel>, rc: Seq<ColModel>, ljc: int, k: int, i: int)
    requires
        0 <= k <= i < lc.len(),
        i != ljc,
        first_clash(lc, rc, ljc, k) == -1,
    ensures
        !has_col(rc, lc[i].name),
    decreases i - k,
{
    if k < i {
        lemma_first_clash_none(lc, rc, ljc, k + 1, i);
    }
}

/// What sorting one side guarantees: every pair names a real row and carries
/// its join value, and mapping pairs back to rows permutes the rows.
proof fn lemma_sorted_side(sp: Seq<PairModel>, rs: Seq<Seq<Val>>, ci: int)
    requires
        sp.to_multiset() == side_pairs(rs, ci).to_multiset(),
    ensures
        sp.len() == rs.len(),
        forall|q: int|
            0 <= q < sp.len() ==> 0 <= (#[trigger] sp[q]).idx < rs.len() && sp[q].key
                == rs[sp[q].idx][ci],
        sp.map_values(|pm: PairModel| rs[pm.idx]).to_multiset() == rs.to_multiset(),
{
    broadcast use vstd::seq_lib::group_to_multiset_ensures;

    let canon = side_pairs(rs, ci);
    assert(sp.len() == sp.to_multiset().len());
    assert(canon.len() == canon.to_multiset().len());
    assert forall|q: int|
        0 <= q < sp.len() implies 0 <= (#[trigger] sp[q]).idx < rs.len() && sp[q].key
        == rs[sp[q].idx][ci] by {
        assert(sp.contains(sp[q]));
        assert(canon.to_multiset().count(sp[q]) > 0);
        assert(canon.contains(sp[q]));
        let i = choose|i: int| 0 <= i < canon.len() && canon[i] == sp[q];
        assert(canon[i].idx == i && canon[i].key == rs[i][ci]);
    }
    crate::seq_lemmas::lemma_map_values_multiset(sp, canon, |pm: PairModel| rs[pm.idx]);
    assert(canon.map_values(|pm: PairModel| rs[pm.idx]) =~= rs);
}

/// A combined row fits the join schema when its halves fit theirs.
proof fn lemma_join_row_fits(
    lrow: Seq<Val>,
    rrow: Seq<Val>,
    lc: Seq<ColModel>,
    rc: Seq<ColModel>,
    ljc: int,
)
    requires
        0 <= ljc < lc.len(),
        lrow.len() == lc.len(),
        rrow.len() == rc.len(),
        forall|c: int| 0 <= c < lc.len() ==> crate::value::val_fits(#[trigger] lrow[c], lc[c].data_type),
        forall|c: int| 0 <= c < rc.len() ==> crate::value::val_fits(#[trigger] rrow[c], rc[c].data_type),
    ensures
        join_row(lrow, rrow, ljc).len() == join_cols(lc, rc, ljc).len(),
        forall|c: int|
            0 <= c < join_cols(lc, rc, ljc).len() ==> crate::value::val_fits(
                #[trigger] join_row(lrow, rrow, ljc)[c],
                join_cols(lc, rc, ljc)[c].data_type,
            ),
{
    let jr = join_row(lrow, rrow, ljc);
    let jc = join_cols(lc, rc, ljc);
    let nl = lc.len() - 1;
    assert(lrow.remove(ljc) =~= lrow.take(ljc) + lrow.skip(ljc + 1));
    assert(lc.remove(ljc) =~= lc.take(ljc) + lc.skip(ljc + 1));
    assert forall|c: int| 0 <= c < jc.len() implies crate::value::val_fits(
        #[trigger] jr[c],
        jc[c].data_type,
    ) by {
        if c < nl {
            let c0 = if c < ljc {
                c
            } else {
                c + 1
            };
            assert(jr[c] == lrow[c0]);
            assert(jc[c] == clear_fn()(lc[c0]));
        } else {
            assert(jr[c] == rrow[c - nl]);
            assert(jc[c] == clear_fn()(rc[c - nl]));
        }
    }
}

impl Table {
    /// Checks that the two join columns hold values of one kind throughout,
    /// so the merge never compares values of different kinds. Both tables
    /// must be nonempty here.
    fn check_join_kinds(&self, other: &Table, ljc: usize, rjc: usize) -> (r: Option<DBError>)
        requires
            self.wf(),
            other.wf(),
            (ljc as int) < self.cols().len(),
            (rjc as int) < other.cols().len(),
            self.rs().len() > 0,
            other.rs().len() > 0,
        ensures
            r is None <==> keys_uniform(
                col_vals(self.rs(), ljc as int),
                col_vals(other.rs(), rjc as int),
            ),
            r matches Some(e) ==> e matches DBError::MisMatchDataType(_, _),
    {
        let ghost lv = col_vals(self.rs(), ljc as int);
        let ghost rv = col_vals(other.rs(), rjc as int);
        let lrows = self.rows();
        let rrows = other.rows();
        proof {
            assert(self.rs() == crate::index::rows_model(lrows@));
            assert(other.rs() == crate::index::rows_model(rrows@));
            assert(self.rs()[0] == lrows@[0]@.map_values(|v: FieldValue| v@));
            assert(self.rs()[0].len() == self.cols().len());
        }
        let rank0 = lrows[0][ljc].kind_rank();
        let ghost k0 = crate::value::val_rank(lv[0]);
        proof {
            assert(lv[0] == self.rs()[0][ljc as int]);
            assert(self.rs()[0] == lrows@[0]@.map_values(|v: FieldValue| v@));
        }
        let mut i: usize = 0;
        while i < lrows.len()
            invariant
                i <= lrows@.len(),
                self.wf(),
                (ljc as int) < self.cols().len(),
                lv == col_vals(self.rs(), ljc as int),
                self.rs() == crate::index::rows_model(lrows@),
                lv.len() > 0,
                rank0 as int == k0,
                k0 == crate::value::val_rank(lv[0]),
                forall|q: int| 0 <= q < i ==> crate::value::val_rank(#[trigger] lv[q]) == k0,
            decreases lrows@.len() - i,
        {
            proof {
                assert(lv[i as int] == self.rs()[i as int][ljc as int]);
                assert(self.rs()[i as int] == lrows@[i as int]@.map_values(|v: FieldValue| v@));
                assert(self.rs()[i as int].len() == self.cols().len());
            }
            let rk = lrows[i][ljc].kind_rank();
            if rk != rank0 {
                proof {
                    assert(self.rs()[0] == lrows@[0]@.map_values(|v: FieldValue| v@));
                    assert(self.rs()[0].len() == self.cols().len());
                    assert(!crate::value::same_kind(lv[0], lv[i as int]));
                    assert(!keys_uniform(lv, rv));
                }
                return Some(
                    DBError::MisMatchDataType(lrows[0][ljc].data_type(), lrows[i][ljc].data_type()),
                );
            }
            i = i + 1;
        }
        let mut j: usize = 0;
        while j < rrows.len()
            invariant
                j <= rrows@.len(),
                self.wf(),
                other.wf(),
                (ljc as int) < self.cols().len(),
                (rjc as int) < other.cols().len(),
                lv == col_vals(self.rs(), ljc as int),
                rv == col_vals(other.rs(), rjc as int),
                self.rs() == crate::index::rows_model(lrows@),
                other.rs() == crate::index::rows_model(rrows@),
                rank0 as int == k0,
                k0 == crate::value::val_rank(lv[0]),
                forall|q: int| 0 <= q < lv.len() ==> crate::value::val_rank(#[trigger] lv[q]) == k0,
                lv.len() > 0,
                rv.len() == rrows@.len(),
                forall|q: int| 0 <= q < j ==> crate::value::val_rank(#[trigger] rv[q]) == k0,
            decreases rrows@.len() - j,
        {
            proof {
                assert(rv[j as int] == other.rs()[j as int][rjc as int]);
                assert(other.rs()[j as int] == rrows@[j as int]@.map_values(|v: FieldValue| v@));
                assert(other.rs()[j as int].len() == other.cols().len());
            }
            let rk = rrows[j][rjc].kind_rank();
            if rk != rank0 {
                proof {
                    assert(self.rs()[0] == lrows@[0]@.map_values(|v: FieldValue| v@));
                    assert(self.rs()[0].len() == self.cols().len());
                    assert(!crate::value::same_kind(lv[0], rv[j as int]));
                    if keys_uniform(lv, rv) {
                        assert(crate::value::same_kind(rv[0], rv[j as int]));
                        assert(crate::value::same_kind(lv[0], rv[0]));
                        assert(false);
                    }
                }
                return Some(
                    DBError::MisMatchDataType(lrows[0][ljc].data_type(), rrows[j][rjc].data_type()),
                );
            }
            j = j + 1;
        }
        proof {
            assert(keys_uniform(lv, rv));
        }
        None
    }
}

impl Table {
    /// The sort-merge inner equality join: one combined row per pair of rows
    /// whose values in the join column are equal. The result shares no
    /// primary keys or indexes with its sources. Fails with `InvalidColumn`
    /// when either side lacks the join column or when another column name
    /// occurs on both sides, and with `MisMatchDataType` when the two join
    /// columns differ in declared type or hold values of more than one kind.
    #[verifier::rlimit(100)]
    pub fn inner_join(&self, other: &Table, column_to_join: String) -> (r: Result<Table, DBError>)
        requires
            self.wf(),
            other.wf(),
        ensures
            !(has_col(self.cols(), column_to_join@) && has_col(other.cols(), column_to_join@))
                ==> (r matches Err(e) && e matches DBError::InvalidColumn(s) && s@
                == column_to_join@),
            has_col(self.cols(), column_to_join@) && has_col(other.cols(), column_to_join@) ==> ({
                let ljc = col_pos(self.cols(), column_to_join@);
                let rjc = col_pos(other.cols(), column_to_join@);
                if self.cols()[ljc].data_type != other.cols()[rjc].data_type {
                    r matches Err(e) && e matches DBError::MisMatchDataType(_, _)
                } else if first_clash(self.cols(), other.cols(), ljc, 0) >= 0 {
                    r matches Err(e) && e matches DBError::InvalidColumn(_)
                } else if self.rs().len() > 0 && other.rs().len() > 0 && !keys_uniform(
                    col_vals(self.rs(), ljc),
                    col_vals(other.rs(), rjc),
                ) {
                    r matches Err(e) && e matches DBError::MisMatchDataType(_, _)
                } else {
                    r matches Ok(t) && t.wf() && t.cols() == join_cols(
                        self.cols(),
                        other.cols(),
                        ljc,
                    ) && t.pks().len() == 0 && t.idxs().len() == 0 && t.rs().to_multiset()
                        == all_joins(self.rs(), other.rs(), ljc, rjc).to_multiset()
                }
            }),
    {
        let ghost lc = self.cols();
        let ghost rc = other.cols();
        let ghost lrs = self.rs();
        let ghost rrs = other.rs();
        let ljc = match self.find_col(column_to_join.as_str()) {
            Some(ci) => ci,
            None => {
                return Err(DBError::InvalidColumn(column_to_join));
            },
        };
        let rjc = match other.find_col(column_to_join.as_str()) {
            Some(ci) => ci,
            None => {
                return Err(DBError::InvalidColumn(column_to_join));
            },
        };
        let lcols_ref = self.columns();
        let rcols_ref = other.columns();
        proof {
            assert(lc[ljc as int] == lcols_ref@[ljc as int]@);
            assert(rc[rjc as int] == rcols_ref@[rjc as int]@);
        }
        let ldt = lcols_ref[ljc].get_data_type();
        let rdt = rcols_ref[rjc].get_data_type();
        if !(ldt == rdt) {
            return Err(DBError::MisMatchDataType(ldt, rdt));
        }
        let jcols = match self.build_join_cols(other, ljc) {
            Ok(cs) => cs,
            Err(e) => {
                return Err(e);
            },
        };
        let mut name = String::new();
        name.append("Join Result of Tables ");
        let lname = self.name();
        name.append(lname.as_str());
        name.append(" and ");
        let rname = other.name();
        name.append(rname.as_str());
        name.append(" on column ");
        name.append(column_to_join.as_str());
        let mut t = Table::new_result(name, jcols);
        if self.number_of_rows() == 0 || other.number_of_rows() == 0 {
            proof {
                if lrs.len() == 0 {
                    assert(lrs.map_values(joins_fn(rrs, ljc as int, rjc as int)) =~= Seq::<
                        Seq<Seq<Val>>,
                    >::empty());
                    assert(all_joins(lrs, rrs, ljc as int, rjc as int) =~= Seq::<Seq<Val>>::empty());
                } else {
                    let m = lrs.map_values(joins_fn(rrs, ljc as int, rjc as int));
                    assert forall|i: int| 0 <= i < m.len() implies (#[trigger] m[i]).len() == 0 by {
                        assert(rrs.filter(match_fn(lrs[i][ljc as int], rjc as int)) =~= Seq::<
                            Seq<Val>,
                        >::empty()) by {
                            reveal(Seq::filter);
                        }
                        assert(m[i] == row_matches(lrs[i], rrs, ljc as int, rjc as int));
                    }
                    crate::seq_lemmas::lemma_flatten_all_empty(m);
                }
                assert(t.rs() =~= Seq::<Seq<Val>>::empty());
                assert(all_joins(lrs, rrs, ljc as int, rjc as int) =~= Seq::<Seq<Val>>::empty());
                assert(t.rs().to_multiset() =~= all_joins(
                    lrs,
                    rrs,
                    ljc as int,
                    rjc as int,
                ).to_multiset());
            }
            return Ok(t);
        }
        match self.check_join_kinds(other, ljc, rjc) {
            Some(e) => {
                return Err(e);
            },
            None => {},
        }

        let lpairs = sort_pairs(build_pairs(self, ljc));
        let rpairs = sort_pairs(build_pairs(other, rjc));
        let ghost lsp = pairs_model(lpairs@);
        let ghost rsp = pairs_model(rpairs@);
        let ghost ls_rows = lsp.map_values(|pm: PairModel| lrs[pm.idx]);
        let ghost rs_rows = rsp.map_values(|pm: PairModel| rrs[pm.idx]);
        proof {
            lemma_sorted_side(lsp, lrs, ljc as int);
            lemma_sorted_side(rsp, rrs, rjc as int);
        }
        let lrows_ref = self.rows();
        let rrows_ref = other.rows();

        let mut rr: usize = 0;
        let mut ss: usize = 0;
        proof {
            assert(ls_rows.take(0) =~= Seq::<Seq<Val>>::empty());
            assert(ls_rows.take(0).map_values(joins_fn(rs_rows, ljc as int, rjc as int)) =~= Seq::<
                Seq<Seq<Val>>,
            >::empty());
            assert(t.rs() =~= Seq::<Seq<Val>>::empty());
            assert(all_joins(ls_rows.take(0), rs_rows, ljc as int, rjc as int) =~= Seq::<
                Seq<Val>,
            >::empty());
            assert(t.rs().to_multiset() =~= all_joins(
                ls_rows.take(0),
                rs_rows,
                ljc as int,
                rjc as int,
            ).to_multiset());
        }
        while rr < lpairs.len() && ss < rpairs.len()
            invariant
                rr <= lpairs@.len(),
                ss <= rpairs@.len(),
                self.wf(),
                other.wf(),
                (ljc as int) < lc.len(),
                (rjc as int) < rc.len(),
                lc == self.cols(),
                rc == other.cols(),
                lrs == self.rs(),
                rrs == other.rs(),
                lrs == crate::index::rows_model(lrows_ref@),
                rrs == crate::index::rows_model(rrows_ref@),
                lsp == pairs_model(lpairs@),
                rsp == pairs_model(rpairs@),
                lsp.len() == lrs.len(),
                rsp.len() == rrs.len(),
                pairs_sorted(lsp),
                pairs_sorted(rsp),
                forall|q: int|
                    0 <= q < lsp.len() ==> 0 <= (#[trigger] lsp[q]).idx < lrs.len() && lsp[q].key
                        == lrs[lsp[q].idx][ljc as int],
                forall|q: int|
                    0 <= q < rsp.len() ==> 0 <= (#[trigger] rsp[q]).idx < rrs.len() && rsp[q].key
                        == rrs[rsp[q].idx][rjc as int],
                ls_rows == lsp.map_values(|pm: PairModel| lrs[pm.idx]),
                rs_rows == rsp.map_values(|pm: PairModel| rrs[pm.idx]),
                t.wf(),
                t.cols() == join_cols(lc, rc, ljc as int),
                t.pks().len() == 0,
                t.idxs().len() == 0,
                !t.synthetic(),
                t.rs().to_multiset() == all_joins(
                    ls_rows.take(rr as int),
                    rs_rows,
                    ljc as int,
                    rjc as int,
                ).to_multiset(),
                rr < lsp.len() ==> forall|q: int|
                    0 <= q < ss ==> !val_le(
                        lsp[rr as int].key,
                        (#[trigger] rsp[q]).key,
                    ),
            decreases lpairs@.len() - rr + rpairs@.len() - ss,
        {
            let ghost lkey = lsp[rr as int].key;
            proof {
                assert(lsp[rr as int] == lpairs@[rr as int]@);
                assert(rsp[ss as int] == rpairs@[ss as int]@);
                assert(ls_rows[rr as int] == lrs[lsp[rr as int].idx]);
                assert(ls_rows[rr as int][ljc as int] == lkey);
            }
            let le_ls = lpairs[rr].value_to_sort_on.total_le(&rpairs[ss].value_to_sort_on);
            let le_sl = rpairs[ss].value_to_sort_on.total_le(&lpairs[rr].value_to_sort_on);
            if !le_ls {
                // right key is strictly below the left key: advance the right
                // pointer.
                ss = ss + 1;
                proof {
                    crate::value::lemma_val_le_total(lsp[rr as int].key, rsp[ss as int - 1].key);
                }
            } else if !le_sl {
                // left key is strictly below every remaining right key: this
                // left row matches nothing.
                proof {
                    let lrow = ls_rows[rr as int];
                    assert forall|j: int|
                        0 <= j < rs_rows.len() implies !(match_fn(lkey, rjc as int)(
                        #[trigger] rs_rows[j],
                    )) by {
                        assert(rs_rows[j] == rrs[rsp[j].idx]);
                        assert(rs_rows[j][rjc as int] == rsp[j].key);
                        if j < ss as int {
                            if rsp[j].key == lkey {
                                crate::value::lemma_val_le_total(lsp[rr as int].key, rsp[j].key);
                                assert(false);
                            }
                        } else {
                            assert(val_le(rsp[ss as int].key, rsp[j].key) || j == ss as int);
                            if rsp[j].key == lkey {
                                crate::value::lemma_val_le_total(rsp[ss as int].key, lkey);
                                if j > ss as int {
                                    crate::value::lemma_val_le_antisym(rsp[ss as int].key, lkey);
                                }
                                assert(val_le(lkey, rsp[ss as int].key));
                                assert(false);
                            }
                        }
                    }
                    rs_rows.lemma_all_neg_filter_empty(match_fn(lkey, rjc as int));
                    assert(row_matches(lrow, rs_rows, ljc as int, rjc as int) =~= Seq::<
                        Seq<Val>,
                    >::empty());
                    lemma_take_step_joins(ls_rows, rs_rows, ljc as int, rjc as int, rr as int);
                    vstd::seq_lib::lemma_multiset_commutative(
                        all_joins(ls_rows.take(rr as int), rs_rows, ljc as int, rjc as int),
                        row_matches(lrow, rs_rows, ljc as int, rjc as int),
                    );
                    assert forall|q: int|
                        0 <= q < ss && rr as int + 1 < lsp.len() implies !val_le(
                        lsp[rr as int + 1].key,
                        (#[trigger] rsp[q]).key,
                    ) by {
                        if val_le(lsp[rr as int + 1].key, rsp[q].key) {
                            assert(val_le(lsp[rr as int].key, lsp[rr as int + 1].key));
                            crate::value::lemma_val_le_trans(
                                lsp[rr as int].key,
                                lsp[rr as int + 1].key,
                                rsp[q].key,
                            );
                            assert(false);
                        }
                    }
                }
                rr = rr + 1;
            } else {
                // equal keys: emit the whole right-hand group for this left
                // row, leaving the right pointer at the group start as the
                // resume mark.
                proof {
                    crate::value::lemma_val_le_antisym(lsp[rr as int].key, rsp[ss as int].key);
                }
                let ghost lrow = ls_rows[rr as int];
                let ghost base = t.rs();
                let li = lpairs[rr].row_index;
                let mut s2: usize = ss;
                loop
                    invariant
                        ss <= s2 <= rsp.len(),
                        self.wf(),
                        other.wf(),
                        (ljc as int) < lc.len(),
                        (rjc as int) < rc.len(),
                        lc == self.cols(),
                        rc == other.cols(),
                        lrs == self.rs(),
                        rrs == other.rs(),
                        lrs == crate::index::rows_model(lrows_ref@),
                        rrs == crate::index::rows_model(rrows_ref@),
                        rsp == pairs_model(rpairs@),
                        rsp.len() == rrs.len(),
                        pairs_sorted(rsp),
                        forall|q: int|
                            0 <= q < rsp.len() ==> 0 <= (#[trigger] rsp[q]).idx < rrs.len()
                                && rsp[q].key == rrs[rsp[q].idx][rjc as int],
                        rs_rows == rsp.map_values(|pm: PairModel| rrs[pm.idx]),
                        rr < lsp.len(),
                        lsp == pairs_model(lpairs@),
                        forall|q: int|
                            0 <= q < lsp.len() ==> 0 <= (#[trigger] lsp[q]).idx < lrs.len()
                                && lsp[q].key == lrs[lsp[q].idx][ljc as int],
                        ls_rows == lsp.map_values(|pm: PairModel| lrs[pm.idx]),
                        lrow == ls_rows[rr as int],
                        lkey == lsp[rr as int].key,
                        li == lpairs@[rr as int]@.idx,
                        ss < rsp.len(),
                        rsp[ss as int].key == lkey,
                        forall|q: int| ss <= q < s2 ==> (#[trigger] rsp[q]).key == lkey,
                        t.wf(),
                        t.cols() == join_cols(lc, rc, ljc as int),
                        t.pks().len() == 0,
                        t.idxs().len() == 0,
                        !t.synthetic(),
                        t.rs() == base + rs_rows.subrange(ss as int, s2 as int).map_values(
                            join_fn(lrow, ljc as int),
                        ),
                    ensures
                        ss <= s2 <= rsp.len(),
                        forall|q: int| ss <= q < s2 ==> (#[trigger] rsp[q]).key == lkey,
                        s2 < rsp.len() ==> rsp[s2 as int].key != lkey,
                        t.rs() == base + rs_rows.subrange(ss as int, s2 as int).map_values(
                            join_fn(lrow, ljc as int),
                        ),
                        t.wf() && t.cols() == join_cols(lc, rc, ljc as int) && t.pks().len() == 0
                            && t.idxs().len() == 0 && !t.synthetic(),
                    decreases rsp.len() - s2,
                {
                    if s2 == rpairs.len() {
                        break;
                    }
                    let eq = rpairs[s2].value_to_sort_on.are_equal(&lpairs[rr].value_to_sort_on);
                    proof {
                        assert(rsp[s2 as int] == rpairs@[s2 as int]@);
                    }
                    if !eq {
                        break;
                    }
                    let si = rpairs[s2].row_index;
                    proof {
                        assert(lrs[li as int] == lrows_ref@[li as int]@.map_values(
                            |v: FieldValue| v@,
                        ));
                        assert(lrs[li as int].len() == lc.len());
                        assert(rrs[si as int] == rrows_ref@[si as int]@.map_values(
                            |v: FieldValue| v@,
                        ));
                        assert(rrs[si as int].len() == rc.len());
                    }
                    let jrow = join_rows_exec(&lrows_ref[li], &rrows_ref[si], ljc);
                    proof {
                        lemma_join_row_fits(lrow, rrs[si as int], lc, rc, ljc as int);
                        assert(rs_rows[s2 as int] == rrs[rsp[s2 as int].idx]);
                        assert(jrow@.map_values(|v: FieldValue| v@) == join_row(
                            lrow,
                            rs_rows[s2 as int],
                            ljc as int,
                        ));
                        assert(rs_rows.subrange(ss as int, s2 as int + 1) =~= rs_rows.subrange(
                            ss as int,
                            s2 as int,
                        ).push(rs_rows[s2 as int]));
                        assert((base + rs_rows.subrange(ss as int, s2 as int + 1).map_values(
                            join_fn(lrow, ljc as int),
                        )) =~= (base + rs_rows.subrange(ss as int, s2 as int).map_values(
                            join_fn(lrow, ljc as int),
                        )).push(join_row(lrow, rs_rows[s2 as int], ljc as int)));
                    }
                    t.push_row_direct(jrow);
                    s2 = s2 + 1;
                }
                // the emitted group is exactly this left row's matches
                proof {
                    assert forall|j: int|
                        0 <= j < rs_rows.len() implies (match_fn(lkey, rjc as int)(
                        #[trigger] rs_rows[j],
                    ) <==> ss as int <= j < s2 as int) by {
                        assert(rs_rows[j] == rrs[rsp[j].idx]);
                        assert(rs_rows[j][rjc as int] == rsp[j].key);
                        if j < ss as int {
                            if rsp[j].key == lkey {
                                assert(!val_le(lsp[rr as int].key, rsp[j].key));
                                crate::value::lemma_val_le_total(lkey, rsp[j].key);
                                assert(false);
                            }
                        } else if j >= s2 as int {
                            if rsp[j].key == lkey {
                                if j > s2 as int {
                                    assert(val_le(rsp[s2 as int].key, rsp[j].key));
                                } else {
                                }
                                assert((s2 as int) < rsp.len());
                                assert(val_le(rsp[ss as int].key, rsp[s2 as int].key));
                                assert(val_le(rsp[s2 as int].key, lkey) || j == s2 as int);
                                if j == s2 as int {
                                    assert(false);
                                } else {
                                    crate::value::lemma_val_le_antisym(
                                        rsp[s2 as int].key,
                                        lkey,
                                    );
                                    assert(false);
                                }
                            }
                        }
                    }
                    crate::seq_lemmas::lemma_filter_contiguous(
                        rs_rows,
                        match_fn(lkey, rjc as int),
                        ss as int,
                        s2 as int,
                    );
                    assert(row_matches(lrow, rs_rows, ljc as int, rjc as int) == rs_rows.subrange(
                        ss as int,
                        s2 as int,
                    ).map_values(join_fn(lrow, ljc as int)));
                    lemma_take_step_joins(ls_rows, rs_rows, ljc as int, rjc as int, rr as int);
                    vstd::seq_lib::lemma_multiset_commutative(
                        all_joins(ls_rows.take(rr as int), rs_rows, ljc as int, rjc as int),
                        row_matches(lrow, rs_rows, ljc as int, rjc as int),
                    );
                    vstd::seq_lib::lemma_multiset_commutative(
                        base,
                        rs_rows.subrange(ss as int, s2 as int).map_values(join_fn(lrow, ljc as int)),
                    );
                    // the pointer stays at the group start for the next left row
                    assert forall|q: int|
                        0 <= q < ss && rr as int + 1 < lsp.len() implies !val_le(
                        lsp[rr as int + 1].key,
                        (#[trigger] rsp[q]).key,
                    ) by {
                        if val_le(lsp[rr as int + 1].key, rsp[q].key) {
                            assert(val_le(lsp[rr as int].key, lsp[rr as int + 1].key));
                            crate::value::lemma_val_le_trans(
                                lsp[rr as int].key,
                                lsp[rr as int + 1].key,
                                rsp[q].key,
                            );
                            assert(false);
                        }
                    }
                }
                rr = rr + 1;
            }
        }
        proof {
            lemma_merge_exit(ls_rows, rs_rows, lsp, rsp, ljc as int, rjc as int, rr as int, ss as int);
            assert(t.rs().to_multiset() == all_joins(ls_rows, rs_rows, ljc as int, rjc as int).to_multiset());
            lemma_all_joins_left_perm(ls_rows, lrs, rs_rows, ljc as int, rjc as int);
            lemma_all_joins_right_perm(lrs, rs_rows, rrs, ljc as int, rjc as int);
        }
        Ok(t)
    }
}

/// One step of the left walk: the combined rows of the first `r + 1` left
/// rows are those of the first `r` plus the matches of row `r`.
proof fn lemma_take_step_joins(
    ls_rows: Seq<Seq<Val>>,
    rs_rows: Seq<Seq<Val>>,
    ljc: int,
    rjc: int,
    r: int,
)
    requires
        0 <= r < ls_rows.len(),
    ensures
        all_joins(ls_rows.take(r + 1), rs_rows, ljc, rjc) == all_joins(
            ls_rows.take(r),
            rs_rows,
            ljc,
            rjc,
        ) + row_matches(ls_rows[r], rs_rows, ljc, rjc),
{
    broadcast use vstd::seq::Seq::lemma_flatten_push;

    assert(ls_rows.take(r + 1) =~= ls_rows.take(r).push(ls_rows[r]));
    assert(ls_rows.take(r + 1).map_values(joins_fn(rs_rows, ljc, rjc)) =~= ls_rows.take(
        r,
    ).map_values(joins_fn(rs_rows, ljc, rjc)).push(row_matches(ls_rows[r], rs_rows, ljc, rjc)));
}

/// At the end of the merge, the left rows not yet walked match nothing, so
/// the combined rows of the walked prefix are all of them.
proof fn lemma_merge_exit(
    ls_rows: Seq<Seq<Val>>,
    rs_rows: Seq<Seq<Val>>,
    lsp: Seq<PairModel>,
    rsp: Seq<PairModel>,
    ljc: int,
    rjc: int,
    r: int,
    s: int,
)
    requires
        0 <= r <= ls_rows.len(),
        0 <= s <= rs_rows.len(),
        ls_rows.len() == lsp.len(),
        rs_rows.len() == rsp.len(),
        pairs_sorted(lsp),
        pairs_sorted(rsp),
        forall|q: int| 0 <= q < ls_rows.len() ==> (#[trigger] ls_rows[q])[ljc] == lsp[q].key,
        forall|q: int| 0 <= q < rs_rows.len() ==> (#[trigger] rs_rows[q])[rjc] == rsp[q].key,
        r == ls_rows.len() || s == rs_rows.len(),
        r < ls_rows.len() ==> forall|q: int|
            0 <= q < s ==> !val_le(lsp[r].key, (#[trigger] rsp[q]).key),
    ensures
        all_joins(ls_rows.take(r), rs_rows, ljc, rjc).to_multiset() == all_joins(
            ls_rows,
            rs_rows,
            ljc,
            rjc,
        ).to_multiset(),
{
    if r == ls_rows.len() {
        assert(ls_rows.take(r) =~= ls_rows);
    } else {
        // s == rs_rows.len(): every remaining left key is above every right key
        let m = ls_rows.map_values(joins_fn(rs_rows, ljc, rjc));
        let mt = ls_rows.take(r).map_values(joins_fn(rs_rows, ljc, rjc));
        let ms = ls_rows.skip(r).map_values(joins_fn(rs_rows, ljc, rjc));
        assert(m =~= mt + ms);
        vstd::seq_lib::lemma_flatten_concat(mt, ms);
        assert forall|i: int| 0 <= i < ms.len() implies (#[trigger] ms[i]).len() == 0 by {
            let lrow = ls_rows.skip(r)[i];
            assert(lrow == ls_rows[r + i]);
            let lkey = lsp[r + i].key;
            assert(lrow[ljc] == lkey);
            assert forall|j: int|
                0 <= j < rs_rows.len() implies !(match_fn(lkey, rjc)(#[trigger] rs_rows[j])) by {
                assert(rs_rows[j][rjc] == rsp[j].key);
                if rsp[j].key == lkey {
                    assert(!val_le(lsp[r].key, rsp[j].key));
                    assert(val_le(lsp[r].key, lsp[r + i].key) || i == 0);
                    crate::value::lemma_val_le_total(lkey, rsp[j].key);
                    if i == 0 {
                        assert(val_le(lkey, rsp[j].key));
                    } else {
                        assert(val_le(lsp[r].key, lkey));
                        assert(val_le(lkey, rsp[j].key));
                        crate::value::lemma_val_le_trans(lsp[r].key, lkey, rsp[j].key);
                    }
                    assert(false);
                }
            }
            rs_rows.lemma_all_neg_filter_empty(match_fn(lkey, rjc));
            assert(ms[i] == row_matches(lrow, rs_rows, ljc, rjc));
        }
        crate::seq_lemmas::lemma_flatten_all_empty(ms);
        assert(all_joins(ls_rows, rs_rows, ljc, rjc) =~= all_joins(ls_rows.take(r), rs_rows, ljc, rjc));
    }
}

/// Builds one padded row for an unmatched left row.
fn pad_row_exec(lrow: &Vec<FieldValue>, ljc: usize, rcols_len: usize, rjc: usize) -> (out: Vec<
    FieldValue,
>)
    requires
        (ljc as int) < lrow@.len(),
        (rjc as int) < rcols_len as int,
    ensures
        out@.map_values(|v: FieldValue| v@) == pad_row(
            lrow@.map_values(|v: FieldValue| v@),
            ljc as int,
            rcols_len as int,
            rjc as int,
        ),
{
    let ghost lm = lrow@.map_values(|v: FieldValue| v@);
    let ghost rsec = Seq::new(
        rcols_len as nat,
        |j: int|
            if j == rjc as int {
                lm[ljc as int]
            } else {
                Val::Null
            },
    );
    let mut out: Vec<FieldValue> = Vec::new();
    let mut i: usize = 0;
    while i < lrow.len()
        invariant
            i <= lrow@.len(),
            (ljc as int) < lrow@.len(),
            lm == lrow@.map_values(|v: FieldValue| v@),
            out@.map_values(|v: FieldValue| v@) =~= if i <= ljc {
                lm.take(i as int)
            } else {
                lm.remove(ljc as int).take(i as int - 1)
            },
        decreases lrow@.len() - i,
    {
        if i != ljc {
            out.push(lrow[i].clone());
        }
        proof {
            assert(lm.remove(ljc as int) =~= lm.take(ljc as int) + lm.skip(ljc as int + 1));
            if i < ljc {
                assert(lm.take(i as int + 1) =~= lm.take(i as int).push(lm[i as int]));
            } else if i == ljc {
                assert(lm.remove(ljc as int).take(i as int) =~= lm.take(i as int));
            } else {
                assert(lm.remove(ljc as int).take(i as int) =~= lm.remove(ljc as int).take(
                    i as int - 1,
                ).push(lm[i as int]));
            }
        }
        i = i + 1;
    }
    proof {
        assert(lm.remove(ljc as int).take(lrow@.len() as int - 1) =~= lm.remove(ljc as int));
    }
    let mut j: usize = 0;
    while j < rcols_len
        invariant
            j <= rcols_len,
            (ljc as int) < lrow@.len(),
            (rjc as int) < rcols_len as int,
            lm == lrow@.map_values(|v: FieldValue| v@),
            rsec == Seq::new(
                rcols_len as nat,
                |jj: int|
                    if jj == rjc as int {
                        lm[ljc as int]
                    } else {
                        Val::Null
                    },
            ),
            out@.map_values(|v: FieldValue| v@) =~= lm.remove(ljc as int) + rsec.take(j as int),
        decreases rcols_len - j,
    {
        if j == rjc {
            out.push(lrow[ljc].clone());
        } else {
            out.push(FieldValue::Null);
        }
        proof {
            assert(rsec.take(j as int + 1) =~= rsec.take(j as int).push(rsec[j as int]));
            assert((lm.remove(ljc as int) + rsec.take(j as int + 1)) =~= (lm.remove(ljc as int)
                + rsec.take(j as int)).push(rsec[j as int]));
        }
        j = j + 1;
    }
    proof {
        assert(rsec.take(rcols_len as int) =~= rsec);
        assert(out@.map_values(|v: FieldValue| v@) =~= pad_row(
            lm,
            ljc as int,
            rcols_len as int,
            rjc as int,
        ));
    }
    out
}

/// A padded row fits the join schema when the two join columns share a
/// declared type.
proof fn lemma_pad_row_fits(lrow: Seq<Val>, lc: Seq<ColModel>, rc: Seq<ColModel>, ljc: int, rjc: int)
    requires
        0 <= ljc < lc.len(),
        0 <= rjc < rc.len(),
        lrow.len() == lc.len(),
        forall|c: int| 0 <= c < lc.len() ==> crate::value::val_fits(#[trigger] lrow[c], lc[c].data_type),
        lc[ljc].data_type == rc[rjc].data_type,
    ensures
        pad_row(lrow, ljc, rc.len() as int, rjc).len() == join_cols(lc, rc, ljc).len(),
        forall|c: int|
            0 <= c < join_cols(lc, rc, ljc).len() ==> crate::value::val_fits(
                #[trigger] pad_row(lrow, ljc, rc.len() as int, rjc)[c],
                join_cols(lc, rc, ljc)[c].data_type,
            ),
{
    let pr = pad_row(lrow, ljc, rc.len() as int, rjc);
    let jc = join_cols(lc, rc, ljc);
    let nl = lc.len() - 1;
    assert(lrow.remove(ljc) =~= lrow.take(ljc) + lrow.skip(ljc + 1));
    assert(lc.remove(ljc) =~= lc.take(ljc) + lc.skip(ljc + 1));
    assert forall|c: int| 0 <= c < jc.len() implies crate::value::val_fits(
        #[trigger] pr[c],
        jc[c].data_type,
    ) by {
        if c < nl {
            let c0 = if c < ljc {
                c
            } else {
                c + 1
            };
            assert(pr[c] == lrow[c0]);
            assert(jc[c] == clear_fn()(lc[c0]));
        } else {
            assert(jc[c] == clear_fn()(rc[c - nl]));
            if c - nl == rjc {
                assert(pr[c] == lrow[ljc]);
            } else {
                assert(pr[c] == Val::Null);
            }
        }
    }
}

impl Table {
    /// The sort-merge left outer equality join: every combined row of the
    /// inner join, and additionally, for each left row that matched nothing,
    /// one row carrying its cells with `Null` in every right-hand column
    /// other than the join column. Validation and errors are those of
    /// [`Table::inner_join`], except that an empty right side pads every left
    /// row instead of failing or returning nothing.
    #[verifier::rlimit(100)]
    pub fn outer_join(&self, other: &Table, column_to_join: String) -> (r: Result<Table, DBError>)
        requires
            self.wf(),
            other.wf(),
        ensures
            !(has_col(self.cols(), column_to_join@) && has_col(other.cols(), column_to_join@))
                ==> (r matches Err(e) && e matches DBError::InvalidColumn(s) && s@
                == column_to_join@),
            has_col(self.cols(), column_to_join@) && has_col(other.cols(), column_to_join@) ==> ({
                let ljc = col_pos(self.cols(), column_to_join@);
                let rjc = col_pos(other.cols(), column_to_join@);
                if self.cols()[ljc].data_type != other.cols()[rjc].data_type {
                    r matches Err(e) && e matches DBError::MisMatchDataType(_, _)
                } else if first_clash(self.cols(), other.cols(), ljc, 0) >= 0 {
                    r matches Err(e) && e matches DBError::InvalidColumn(_)
                } else if self.rs().len() > 0 && other.rs().len() > 0 && !keys_uniform(
                    col_vals(self.rs(), ljc),
                    col_vals(other.rs(), rjc),
                ) {
                    r matches Err(e) && e matches DBError::MisMatchDataType(_, _)
                } else {
                    r matches Ok(t) && t.wf() && t.cols() == join_cols(
                        self.cols(),
                        other.cols(),
                        ljc,
                    ) && t.pks().len() == 0 && t.idxs().len() == 0 && t.rs().to_multiset()
                        == all_joins(self.rs(), other.rs(), ljc, rjc).to_multiset().add(
                        unmatched(self.rs(), other.rs(), ljc, rjc).map_values(
                            pad_fn(ljc, other.cols().len() as int, rjc),
                        ).to_multiset(),
                    )
                }
            }),
    {
        broadcast use vstd::seq::Seq::lemma_filter_push;

        let ghost lc = self.cols();
        let ghost rc = other.cols();
        let ghost lrs = self.rs();
        let ghost rrs = other.rs();
        let ljc = match self.find_col(column_to_join.as_str()) {
            Some(ci) => ci,
            None => {
                return Err(DBError::InvalidColumn(column_to_join));
            },
        };
        let rjc = match other.find_col(column_to_join.as_str()) {
            Some(ci) => ci,
            None => {
                return Err(DBError::InvalidColumn(column_to_join));
            },
        };
        let lcols_ref = self.columns();
        let rcols_ref = other.columns();
        proof {
            assert(lc[ljc as int] == lcols_ref@[ljc as int]@);
            assert(rc[rjc as int] == rcols_ref@[rjc as int]@);
        }
        let ldt = lcols_ref[ljc].get_data_type();
        let rdt = rcols_ref[rjc].get_data_type();
        if !(ldt == rdt) {
            return Err(DBError::MisMatchDataType(ldt, rdt));
        }
        let jcols = match self.build_join_cols(other, ljc) {
            Ok(cs) => cs,
            Err(e) => {
                return Err(e);
            },
        };
        let rcols_len = rcols_ref.len();
        let ghost padf = pad_fn(ljc as int, rc.len() as int, rjc as int);
        let mut name = String::new();
        name.append("Join Result of Tables ");
        let lname = self.name();
        name.append(lname.as_str());
        name.append(" and ");
        let rname = other.name();
        name.append(rname.as_str());
        name.append(" on column ");
        name.append(column_to_join.as_str());
        let mut t = Table::new_result(name, jcols);
        if self.number_of_rows() == 0 {
            proof {
                assert(lrs.map_values(joins_fn(rrs, ljc as int, rjc as int)) =~= Seq::<
                    Seq<Seq<Val>>,
                >::empty());
                assert(all_joins(lrs, rrs, ljc as int, rjc as int) =~= Seq::<Seq<Val>>::empty());
                assert(unmatched(lrs, rrs, ljc as int, rjc as int) =~= Seq::<Seq<Val>>::empty())
                    by {
                    reveal(Seq::filter);
                }
                assert(t.rs() =~= Seq::<Seq<Val>>::empty());
                broadcast use vstd::seq_lib::group_to_multiset_ensures;
                broadcast use vstd::multiset::group_multiset_axioms;
                broadcast use vstd::multiset::lemma_multiset_empty_len;

                assert(unmatched(lrs, rrs, ljc as int, rjc as int).map_values(padf) =~= Seq::<
                    Seq<Val>,
                >::empty());
                assert(t.rs().to_multiset().len() == 0);
                assert(t.rs().to_multiset() =~= Multiset::<Seq<Val>>::empty());
                assert(all_joins(lrs, rrs, ljc as int, rjc as int).to_multiset() =~= Multiset::<
                    Seq<Val>,
                >::empty());
                assert(unmatched(lrs, rrs, ljc as int, rjc as int).map_values(padf).to_multiset()
                    =~= Multiset::<Seq<Val>>::empty());
                assert(t.rs().to_multiset() =~= all_joins(
                    lrs,
                    rrs,
                    ljc as int,
                    rjc as int,
                ).to_multiset().add(
                    unmatched(lrs, rrs, ljc as int, rjc as int).map_values(padf).to_multiset(),
                ));
            }
            return Ok(t);
        }
        if other.number_of_rows() > 0 {
            match self.check_join_kinds(other, ljc, rjc) {
                Some(e) => {
                    return Err(e);
                },
                None => {},
            }
        }

        let lpairs = sort_pairs(build_pairs(self, ljc));
        let rpairs = sort_pairs(build_pairs(other, rjc));
        let ghost lsp = pairs_model(lpairs@);
        let ghost rsp = pairs_model(rpairs@);
        let ghost ls_rows = lsp.map_values(|pm: PairModel| lrs[pm.idx]);
        let ghost rs_rows = rsp.map_values(|pm: PairModel| rrs[pm.idx]);
        proof {
            lemma_sorted_side(lsp, lrs, ljc as int);
            lemma_sorted_side(rsp, rrs, rjc as int);
        }
        let lrows_ref = self.rows();
        let rrows_ref = other.rows();

        let mut rr: usize = 0;
        let mut ss: usize = 0;
        proof {
            assert(ls_rows.take(0) =~= Seq::<Seq<Val>>::empty());
            assert(ls_rows.take(0).map_values(joins_fn(rs_rows, ljc as int, rjc as int)) =~= Seq::<
                Seq<Seq<Val>>,
            >::empty());
            assert(unmatched(ls_rows.take(0), rs_rows, ljc as int, rjc as int) =~= Seq::<
                Seq<Val>,
            >::empty()) by {
                reveal(Seq::filter);
            }
            assert(t.rs() =~= Seq::<Seq<Val>>::empty());
            broadcast use vstd::seq_lib::group_to_multiset_ensures;
            broadcast use vstd::multiset::group_multiset_axioms;
            broadcast use vstd::multiset::lemma_multiset_empty_len;

            assert(unmatched(ls_rows.take(0), rs_rows, ljc as int, rjc as int).map_values(padf)
                =~= Seq::<Seq<Val>>::empty());
            assert(t.rs().to_multiset() =~= Multiset::<Seq<Val>>::empty());
            assert(all_joins(ls_rows.take(0), rs_rows, ljc as int, rjc as int).to_multiset()
                =~= Multiset::<Seq<Val>>::empty());
            assert(unmatched(ls_rows.take(0), rs_rows, ljc as int, rjc as int).map_values(
                padf,
            ).to_multiset() =~= Multiset::<Seq<Val>>::empty());
            assert(t.rs().to_multiset() =~= all_joins(
                ls_rows.take(0),
                rs_rows,
                ljc as int,
                rjc as int,
            ).to_multiset().add(
                unmatched(ls_rows.take(0), rs_rows, ljc as int, rjc as int).map_values(
                    padf,
                ).to_multiset(),
            ));
        }
        while rr < lpairs.len() && ss < rpairs.len()
            invariant
                rr <= lpairs@.len(),
                ss <= rpairs@.len(),
                self.wf(),
                other.wf(),
                (ljc as int) < lc.len(),
                (rjc as int) < rc.len(),
                lc[ljc as int].data_type == rc[rjc as int].data_type,
                rcols_len as int == rc.len(),
                padf == pad_fn(ljc as int, rc.len() as int, rjc as int),
                lc == self.cols(),
                rc == other.cols(),
                lrs == self.rs(),
                rrs == other.rs(),
                lrs == crate::index::rows_model(lrows_ref@),
                rrs == crate::index::rows_model(rrows_ref@),
                lsp == pairs_model(lpairs@),
                rsp == pairs_model(rpairs@),
                lsp.len() == lrs.len(),
                rsp.len() == rrs.len(),
                pairs_sorted(lsp),
                pairs_sorted(rsp),
                forall|q: int|
                    0 <= q < lsp.len() ==> 0 <= (#[trigger] lsp[q]).idx < lrs.len() && lsp[q].key
                        == lrs[lsp[q].idx][ljc as int],
                forall|q: int|
                    0 <= q < rsp.len() ==> 0 <= (#[trigger] rsp[q]).idx < rrs.len() && rsp[q].key
                        == rrs[rsp[q].idx][rjc as int],
                ls_rows == lsp.map_values(|pm: PairModel| lrs[pm.idx]),
                rs_rows == rsp.map_values(|pm: PairModel| rrs[pm.idx]),
                t.wf(),
                t.cols() == join_cols(lc, rc, ljc as int),
                t.pks().len() == 0,
                t.idxs().len() == 0,
                !t.synthetic(),
                t.rs().to_multiset() == all_joins(
                    ls_rows.take(rr as int),
                    rs_rows,
                    ljc as int,
                    rjc as int,
                ).to_multiset().add(
                    unmatched(ls_rows.take(rr as int), rs_rows, ljc as int, rjc as int).map_values(
                        padf,
                    ).to_multiset(),
                ),
                rr < lsp.len() ==> forall|q: int|
                    0 <= q < ss ==> !val_le(lsp[rr as int].key, (#[trigger] rsp[q]).key),
            decreases lpairs@.len() - rr + rpairs@.len() - ss,
        {
            let ghost lkey = lsp[rr as int].key;
            proof {
                assert(lsp[rr as int] == lpairs@[rr as int]@);
                assert(rsp[ss as int] == rpairs@[ss as int]@);
                assert(ls_rows[rr as int] == lrs[lsp[rr as int].idx]);
                assert(ls_rows[rr as int][ljc as int] == lkey);
            }
            let le_ls = lpairs[rr].value_to_sort_on.total_le(&rpairs[ss].value_to_sort_on);
            let le_sl = rpairs[ss].value_to_sort_on.total_le(&lpairs[rr].value_to_sort_on);
            if !le_ls {
                ss = ss + 1;
                proof {
                    crate::value::lemma_val_le_total(lsp[rr as int].key, rsp[ss as int - 1].key);
                }
            } else if !le_sl {
                // this left row matches nothing: emit its padded row now
                let ghost lrow = ls_rows[rr as int];
                let ghost base = t.rs();
                let li = lpairs[rr].row_index;
                proof {
                    assert(lrs[li as int] == lrows_ref@[li as int]@.map_values(|v: FieldValue| v@));
                    assert(lrs[li as int].len() == lc.len());
                }
                let prow = pad_row_exec(&lrows_ref[li], ljc, rcols_len, rjc);
                proof {
                    lemma_pad_row_fits(lrow, lc, rc, ljc as int, rjc as int);
                    assert(prow@.map_values(|v: FieldValue| v@) == pad_row(
                        lrow,
                        ljc as int,
                        rc.len() as int,
                        rjc as int,
                    ));
                }
                t.push_row_direct(prow);
                proof {
                    assert forall|j: int|
                        0 <= j < rs_rows.len() implies !(match_fn(lkey, rjc as int)(
                        #[trigger] rs_rows[j],
                    )) by {
                        assert(rs_rows[j] == rrs[rsp[j].idx]);
                        assert(rs_rows[j][rjc as int] == rsp[j].key);
                        if j < ss as int {
                            if rsp[j].key == lkey {
                                crate::value::lemma_val_le_total(lsp[rr as int].key, rsp[j].key);
                                assert(false);
                            }
                        } else {
                            assert(val_le(rsp[ss as int].key, rsp[j].key) || j == ss as int);
                            if rsp[j].key == lkey {
                                crate::value::lemma_val_le_total(rsp[ss as int].key, lkey);
                                if j > ss as int {
                                    crate::value::lemma_val_le_antisym(rsp[ss as int].key, lkey);
                                }
                                assert(val_le(lkey, rsp[ss as int].key));
                                assert(false);
                            }
                        }
                    }
                    rs_rows.lemma_all_neg_filter_empty(match_fn(lkey, rjc as int));
                    assert(row_matches(lrow, rs_rows, ljc as int, rjc as int) =~= Seq::<
                        Seq<Val>,
                    >::empty());
                    assert(no_match(lrow, rs_rows, ljc as int, rjc as int)) by {
                        assert forall|j: int|
                            0 <= j < rs_rows.len() implies (#[trigger] rs_rows[j])[rjc as int]
                            != lrow[ljc as int] by {
                            assert(!(match_fn(lkey, rjc as int)(rs_rows[j])));
                        }
                    }
                    lemma_take_step_joins(ls_rows, rs_rows, ljc as int, rjc as int, rr as int);
                    vstd::seq_lib::lemma_multiset_commutative(
                        all_joins(ls_rows.take(rr as int), rs_rows, ljc as int, rjc as int),
                        row_matches(lrow, rs_rows, ljc as int, rjc as int),
                    );
                    assert(ls_rows.take(rr as int + 1) =~= ls_rows.take(rr as int).push(lrow));
                    ls_rows.take(rr as int).lemma_filter_push(
                        lrow,
                        unmatched_fn(rs_rows, ljc as int, rjc as int),
                    );
                    assert(unmatched_fn(rs_rows, ljc as int, rjc as int)(lrow));
                    assert(unmatched(ls_rows.take(rr as int + 1), rs_rows, ljc as int, rjc as int)
                        == unmatched(ls_rows.take(rr as int), rs_rows, ljc as int, rjc as int).push(
                        lrow,
                    ));
                    broadcast use vstd::seq_lib::group_to_multiset_ensures;

                    assert(unmatched(ls_rows.take(rr as int + 1), rs_rows, ljc as int, rjc as int)
                        .map_values(padf) =~= unmatched(
                        ls_rows.take(rr as int),
                        rs_rows,
                        ljc as int,
                        rjc as int,
                    ).map_values(padf).push(padf(lrow)));
                    assert(t.rs() == base.push(padf(lrow)));
                    assert forall|q: int|
                        0 <= q < ss && rr as int + 1 < lsp.len() implies !val_le(
                        lsp[rr as int + 1].key,
                        (#[trigger] rsp[q]).key,
                    ) by {
                        if val_le(lsp[rr as int + 1].key, rsp[q].key) {
                            assert(val_le(lsp[rr as int].key, lsp[rr as int + 1].key));
                            crate::value::lemma_val_le_trans(
                                lsp[rr as int].key,
                                lsp[rr as int + 1].key,
                                rsp[q].key,
                            );
                            assert(false);
                        }
                    }
                }
                rr = rr + 1;
            } else {
                proof {
                    crate::value::lemma_val_le_antisym(lsp[rr as int].key, rsp[ss as int].key);
                }
                let ghost lrow = ls_rows[rr as int];
                let ghost base = t.rs();
                let li = lpairs[rr].row_index;
                let mut s2: usize = ss;
                loop
                    invariant
                        ss <= s2 <= rsp.len(),
                        self.wf(),
                        other.wf(),
                        (ljc as int) < lc.len(),
                        (rjc as int) < rc.len(),
                        lc == self.cols(),
                        rc == other.cols(),
                        lrs == self.rs(),
                        rrs == other.rs(),
                        lrs == crate::index::rows_model(lrows_ref@),
                        rrs == crate::index::rows_model(rrows_ref@),
                        rsp == pairs_model(rpairs@),
                        rsp.len() == rrs.len(),
                        pairs_sorted(rsp),
                        forall|q: int|
                            0 <= q < rsp.len() ==> 0 <= (#[trigger] rsp[q]).idx < rrs.len()
                                && rsp[q].key == rrs[rsp[q].idx][rjc as int],
                        rs_rows == rsp.map_values(|pm: PairModel| rrs[pm.idx]),
                        rr < lsp.len(),
                        lsp == pairs_model(lpairs@),
                        forall|q: int|
                            0 <= q < lsp.len() ==> 0 <= (#[trigger] lsp[q]).idx < lrs.len()
                                && lsp[q].key == lrs[lsp[q].idx][ljc as int],
                        ls_rows == lsp.map_values(|pm: PairModel| lrs[pm.idx]),
                        lrow == ls_rows[rr as int],
                        lkey == lsp[rr as int].key,
                        li == lpairs@[rr as int]@.idx,
                        ss < rsp.len(),
                        rsp[ss as int].key == lkey,
                        forall|q: int| ss <= q < s2 ==> (#[trigger] rsp[q]).key == lkey,
                        t.wf(),
                        t.cols() == join_cols(lc, rc, ljc as int),
                        t.pks().len() == 0,
                        t.idxs().len() == 0,
                        !t.synthetic(),
                        t.rs() == base + rs_rows.subrange(ss as int, s2 as int).map_values(
                            join_fn(lrow, ljc as int),
                        ),
                    ensures
                        ss <= s2 <= rsp.len(),
                        forall|q: int| ss <= q < s2 ==> (#[trigger] rsp[q]).key == lkey,
                        s2 < rsp.len() ==> rsp[s2 as int].key != lkey,
                        t.rs() == base + rs_rows.subrange(ss as int, s2 as int).map_values(
                            join_fn(lrow, ljc as int),
                        ),
                        t.wf() && t.cols() == join_cols(lc, rc, ljc as int) && t.pks().len() == 0
                            && t.idxs().len() == 0 && !t.synthetic(),
                    decreases rsp.len() - s2,
                {
                    if s2 == rpairs.len() {
                        break;
                    }
                    let eq = rpairs[s2].value_to_sort_on.are_equal(&lpairs[rr].value_to_sort_on);
                    proof {
                        assert(rsp[s2 as int] == rpairs@[s2 as int]@);
                    }
                    if !eq {
                        break;
                    }
                    let si = rpairs[s2].row_index;
                    proof {
                        assert(lrs[li as int] == lrows_ref@[li as int]@.map_values(
                            |v: FieldValue| v@,
                        ));
                        assert(lrs[li as int].len() == lc.len());
                        assert(rrs[si as int] == rrows_ref@[si as int]@.map_values(
                            |v: FieldValue| v@,
                        ));
                        assert(rrs[si as int].len() == rc.len());
                    }
                    let jrow = join_rows_exec(&lrows_ref[li], &rrows_ref[si], ljc);
                    proof {
                        lemma_join_row_fits(lrow, rrs[si as int], lc, rc, ljc as int);
                        assert(rs_rows[s2 as int] == rrs[rsp[s2 as int].idx]);
                        assert(jrow@.map_values(|v: FieldValue| v@) == join_row(
                            lrow,
                            rs_rows[s2 as int],
                            ljc as int,
                        ));
                        assert(rs_rows.subrange(ss as int, s2 as int + 1) =~= rs_rows.subrange(
                            ss as int,
                            s2 as int,
                        ).push(rs_rows[s2 as int]));
                        assert((base + rs_rows.subrange(ss as int, s2 as int + 1).map_values(
                            join_fn(lrow, ljc as int),
                        )) =~= (base + rs_rows.subrange(ss as int, s2 as int).map_values(
                            join_fn(lrow, ljc as int),
                        )).push(join_row(lrow, rs_rows[s2 as int], ljc as int)));
                    }
                    t.push_row_direct(jrow);
                    s2 = s2 + 1;
                }
                proof {
                    assert forall|j: int|
                        0 <= j < rs_rows.len() implies (match_fn(lkey, rjc as int)(
                        #[trigger] rs_rows[j],
                    ) <==> ss as int <= j < s2 as int) by {
                        assert(rs_rows[j] == rrs[rsp[j].idx]);
                        assert(rs_rows[j][rjc as int] == rsp[j].key);
                        if j < ss as int {
                            if rsp[j].key == lkey {
                                assert(!val_le(lsp[rr as int].key, rsp[j].key));
                                crate::value::lemma_val_le_total(lkey, rsp[j].key);
                                assert(false);
                            }
                        } else if j >= s2 as int {
                            if rsp[j].key == lkey {
                                if j > s2 as int {
                                    assert(val_le(rsp[s2 as int].key, rsp[j].key));
                                } else {
                                }
                                assert((s2 as int) < rsp.len());
                                assert(val_le(rsp[ss as int].key, rsp[s2 as int].key));
                                assert(val_le(rsp[s2 as int].key, lkey) || j == s2 as int);
                                if j == s2 as int {
                                    assert(false);
                                } else {
                                    crate::value::lemma_val_le_antisym(rsp[s2 as int].key, lkey);
                                    assert(false);
                                }
                            }
                        }
                    }
                    crate::seq_lemmas::lemma_filter_contiguous(
                        rs_rows,
                        match_fn(lkey, rjc as int),
                        ss as int,
                        s2 as int,
                    );
                    assert(row_matches(lrow, rs_rows, ljc as int, rjc as int) == rs_rows.subrange(
                        ss as int,
                        s2 as int,
                    ).map_values(join_fn(lrow, ljc as int)));
                    lemma_take_step_joins(ls_rows, rs_rows, ljc as int, rjc as int, rr as int);
                    vstd::seq_lib::lemma_multiset_commutative(
                        all_joins(ls_rows.take(rr as int), rs_rows, ljc as int, rjc as int),
                        row_matches(lrow, rs_rows, ljc as int, rjc as int),
                    );
                    vstd::seq_lib::lemma_multiset_commutative(
                        base,
                        rs_rows.subrange(ss as int, s2 as int).map_values(join_fn(lrow, ljc as int)),
                    );
                    // this left row matched, so the unmatched set is unchanged
                    assert(!(unmatched_fn(rs_rows, ljc as int, rjc as int)(lrow))) by {
                        assert(rs_rows[ss as int][rjc as int] == lkey);
                    }
                    assert(ls_rows.take(rr as int + 1) =~= ls_rows.take(rr as int).push(lrow));
                    ls_rows.take(rr as int).lemma_filter_push(
                        lrow,
                        unmatched_fn(rs_rows, ljc as int, rjc as int),
                    );
                    assert(unmatched(ls_rows.take(rr as int + 1), rs_rows, ljc as int, rjc as int)
                        == unmatched(ls_rows.take(rr as int), rs_rows, ljc as int, rjc as int));
                    assert forall|q: int|
                        0 <= q < ss && rr as int + 1 < lsp.len() implies !val_le(
                        lsp[rr as int + 1].key,
                        (#[trigger] rsp[q]).key,
                    ) by {
                        if val_le(lsp[rr as int + 1].key, rsp[q].key) {
                            assert(val_le(lsp[rr as int].key, lsp[rr as int + 1].key));
                            crate::value::lemma_val_le_trans(
                                lsp[rr as int].key,
                                lsp[rr as int + 1].key,
                                rsp[q].key,
                            );
                            assert(false);
                        }
                    }
                }
                rr = rr + 1;
            }
        }
        // pad every left row the merge never reached: with the right side
        // exhausted, none of them can match
        while rr < lpairs.len()
            invariant
                rr <= lpairs@.len(),
                rr < lpairs@.len() ==> ss == rpairs@.len(),
                ss <= rpairs@.len(),
                self.wf(),
                other.wf(),
                (ljc as int) < lc.len(),
                (rjc as int) < rc.len(),
                lc[ljc as int].data_type == rc[rjc as int].data_type,
                rcols_len as int == rc.len(),
                padf == pad_fn(ljc as int, rc.len() as int, rjc as int),
                lc == self.cols(),
                rc == other.cols(),
                lrs == self.rs(),
                rrs == other.rs(),
                lrs == crate::index::rows_model(lrows_ref@),
                rrs == crate::index::rows_model(rrows_ref@),
                lsp == pairs_model(lpairs@),
                rsp == pairs_model(rpairs@),
                lsp.len() == lrs.len(),
                rsp.len() == rrs.len(),
                pairs_sorted(lsp),
                pairs_sorted(rsp),
                forall|q: int|
                    0 <= q < lsp.len() ==> 0 <= (#[trigger] lsp[q]).idx < lrs.len() && lsp[q].key
                        == lrs[lsp[q].idx][ljc as int],
                forall|q: int|
                    0 <= q < rsp.len() ==> 0 <= (#[trigger] rsp[q]).idx < rrs.len() && rsp[q].key
                        == rrs[rsp[q].idx][rjc as int],
                ls_rows == lsp.map_values(|pm: PairModel| lrs[pm.idx]),
                rs_rows == rsp.map_values(|pm: PairModel| rrs[pm.idx]),
                t.wf(),
                t.cols() == join_cols(lc, rc, ljc as int),
                t.pks().len() == 0,
                t.idxs().len() == 0,
                !t.synthetic(),
                t.rs().to_multiset() == all_joins(
                    ls_rows.take(rr as int),
                    rs_rows,
                    ljc as int,
                    rjc as int,
                ).to_multiset().add(
                    unmatched(ls_rows.take(rr as int), rs_rows, ljc as int, rjc as int).map_values(
                        padf,
                    ).to_multiset(),
                ),
                rr < lsp.len() ==> forall|q: int|
                    0 <= q < ss ==> !val_le(lsp[rr as int].key, (#[trigger] rsp[q]).key),
            decreases lpairs@.len() - rr,
        {
            broadcast use vstd::seq::Seq::lemma_filter_push;
            broadcast use vstd::seq_lib::group_to_multiset_ensures;

            let ghost lkey = lsp[rr as int].key;
            let ghost lrow = ls_rows[rr as int];
            let ghost base = t.rs();
            proof {
                assert(lsp[rr as int] == lpairs@[rr as int]@);
                assert(ls_rows[rr as int] == lrs[lsp[rr as int].idx]);
                assert(ls_rows[rr as int][ljc as int] == lkey);
            }
            let li = lpairs[rr].row_index;
            proof {
                assert(lrs[li as int] == lrows_ref@[li as int]@.map_values(|v: FieldValue| v@));
                assert(lrs[li as int].len() == lc.len());
            }
            let prow = pad_row_exec(&lrows_ref[li], ljc, rcols_len, rjc);
            proof {
                lemma_pad_row_fits(lrow, lc, rc, ljc as int, rjc as int);
            }
            t.push_row_direct(prow);
            proof {
                assert forall|j: int|
                    0 <= j < rs_rows.len() implies !(match_fn(lkey, rjc as int)(
                    #[trigger] rs_rows[j],
                )) by {
                    assert(rs_rows[j] == rrs[rsp[j].idx]);
                    assert(rs_rows[j][rjc as int] == rsp[j].key);
                    if rsp[j].key == lkey {
                        crate::value::lemma_val_le_total(lsp[rr as int].key, rsp[j].key);
                        assert(false);
                    }
                }
                rs_rows.lemma_all_neg_filter_empty(match_fn(lkey, rjc as int));
                assert(row_matches(lrow, rs_rows, ljc as int, rjc as int) =~= Seq::<
                    Seq<Val>,
                >::empty());
                assert(no_match(lrow, rs_rows, ljc as int, rjc as int)) by {
                    assert forall|j: int|
                        0 <= j < rs_rows.len() implies (#[trigger] rs_rows[j])[rjc as int]
                        != lrow[ljc as int] by {
                        assert(!(match_fn(lkey, rjc as int)(rs_rows[j])));
                    }
                }
                lemma_take_step_joins(ls_rows, rs_rows, ljc as int, rjc as int, rr as int);
                vstd::seq_lib::lemma_multiset_commutative(
                    all_joins(ls_rows.take(rr as int), rs_rows, ljc as int, rjc as int),
                    row_matches(lrow, rs_rows, ljc as int, rjc as int),
                );
                assert(ls_rows.take(rr as int + 1) =~= ls_rows.take(rr as int).push(lrow));
                ls_rows.take(rr as int).lemma_filter_push(
                    lrow,
                    unmatched_fn(rs_rows, ljc as int, rjc as int),
                );
                assert(unmatched_fn(rs_rows, ljc as int, rjc as int)(lrow));
                assert(unmatched(ls_rows.take(rr as int + 1), rs_rows, ljc as int, rjc as int)
                    == unmatched(ls_rows.take(rr as int), rs_rows, ljc as int, rjc as int).push(
                    lrow,
                ));
                assert(unmatched(ls_rows.take(rr as int + 1), rs_rows, ljc as int, rjc as int)
                    .map_values(padf) =~= unmatched(
                    ls_rows.take(rr as int),
                    rs_rows,
                    ljc as int,
                    rjc as int,
                ).map_values(padf).push(padf(lrow)));
                assert(t.rs() == base.push(padf(lrow)));
                assert forall|q: int|
                    0 <= q < ss && rr as int + 1 < lsp.len() implies !val_le(
                    lsp[rr as int + 1].key,
                    (#[trigger] rsp[q]).key,
                ) by {
                    if val_le(lsp[rr as int + 1].key, rsp[q].key) {
                        assert(val_le(lsp[rr as int].key, lsp[rr as int + 1].key));
                        crate::value::lemma_val_le_trans(
                            lsp[rr as int].key,
                            lsp[rr as int + 1].key,
                            rsp[q].key,
                        );
                        assert(false);
                    }
                }
            }
            rr = rr + 1;
        }
        proof {
            assert(ls_rows.take(lsp.len() as int) =~= ls_rows);
            lemma_all_joins_left_perm(ls_rows, lrs, rs_rows, ljc as int, rjc as int);
            lemma_all_joins_right_perm(lrs, rs_rows, rrs, ljc as int, rjc as int);
            lemma_unmatched_perm(ls_rows, lrs, rs_rows, rrs, ljc as int, rjc as int);
            crate::seq_lemmas::lemma_map_values_multiset(
                unmatched(ls_rows, rs_rows, ljc as int, rjc as int),
                unmatched(lrs, rrs, ljc as int, rjc as int),
                padf,
            );
        }
        Ok(t)
    }
}

} // verus!
