//! Secondary indexes: for one column, a map from each cell value that occurs
//! in that column to the ascending list of row positions holding it. The
//! well-formedness predicate [`index_entries_wf`] ties an index to the row
//! list it describes; every table operation that moves rows re-establishes
//! it.

use vstd::prelude::*;

use crate::value::{FieldValue, Val};

verus! {

/// One key of an index: a cell value and the row positions that hold it.
#[derive(Debug)]
pub struct IndexEntry {
    pub key: FieldValue,
    pub positions: Vec<usize>,
}

/// The spec-level mirror of an [`IndexEntry`].
#[verifier::ext_equal]
pub ghost struct EntryModel {
    pub key: Val,
    pub positions: Seq<int>,
}

impl View for IndexEntry {
    type V = EntryModel;

    open spec fn view(&self) -> EntryModel {
        EntryModel {
            key: self.key@,
            positions: self.positions@.map_values(|p: usize| p as int),
        }
    }
}

/// A secondary index over one column of a table.
#[derive(Debug)]
pub struct SecondaryIndex {
    pub column: String,
    pub entries: Vec<IndexEntry>,
}

/// The spec-level mirror of a [`SecondaryIndex`].
#[verifier::ext_equal]
pub ghost struct IndexModel {
    pub column: Seq<char>,
    pub entries: Seq<EntryModel>,
}

impl View for SecondaryIndex {
    type V = IndexModel;

    open spec fn view(&self) -> IndexModel {
        IndexModel { column: self.column@, entries: entries_model(self.entries@) }
    }
}

/// The models of a list of index entries.
pub open spec fn entries_model(es: Seq<IndexEntry>) -> Seq<EntryModel> {
    es.map_values(|e: IndexEntry| e@)
}

/// The models of a table's row list: one sequence of cell values per row.
pub open spec fn rows_model(rows: Seq<Vec<FieldValue>>) -> Seq<Seq<Val>> {
    rows.map_values(|r: Vec<FieldValue>| r@.map_values(|v: FieldValue| v@))
}

/// Strictly ascending row positions: sorted and free of duplicates.
pub open spec fn positions_ascending(ps: Seq<int>) -> bool {
    forall|i: int, j: int| 0 <= i < j < ps.len() ==> ps[i] < ps[j]
}

/// Every position of the entry is a valid row position whose cell in column
/// `ci` holds the entry's key.
pub open spec fn entry_sound(e: EntryModel, rs: Seq<Seq<Val>>, ci: int) -> bool {
    forall|k: int|
        0 <= k < e.positions.len() ==> 0 <= #[trigger] e.positions[k] < rs.len()
            && rs[e.positions[k]][ci] == e.key
}

/// Some entry holds row position `p` under the value of `row` in column `ci`.
pub open spec fn index_covers(es: Seq<EntryModel>, row: Seq<Val>, p: int, ci: int) -> bool {
    exists|i: int|
        0 <= i < es.len() && (#[trigger] es[i]).key == row[ci] && es[i].positions.contains(p)
}

/// What it means for a list of index entries to describe column `ci` of the
/// row list `rs`: keys are distinct, positions are ascending, every listed
/// position holds the key it is listed under, and every row is listed under
/// its own value.
pub open spec fn index_entries_wf(es: Seq<EntryModel>, rs: Seq<Seq<Val>>, ci: int) -> bool {
    &&& forall|i: int, j: int| 0 <= i < j < es.len() ==> es[i].key != es[j].key
    &&& forall|i: int| 0 <= i < es.len() ==> (#[trigger] es[i]).positions.len() > 0
    &&& forall|i: int| 0 <= i < es.len() ==> positions_ascending((#[trigger] es[i]).positions)
    &&& forall|i: int| 0 <= i < es.len() ==> entry_sound(#[trigger] es[i], rs, ci)
    &&& forall|p: int| 0 <= p < rs.len() ==> index_covers(es, #[trigger] rs[p], p, ci)
}

/// Finds the entry holding the given key, if any.
pub(crate) fn find_entry(es: &Vec<IndexEntry>, key: &FieldValue) -> (r: Option<usize>)
    ensures
        match r {
            Some(j) => 0 <= j < es@.len() && entries_model(es@)[j as int].key == key@,
            None => forall|i: int|
                0 <= i < es@.len() ==> entries_model(es@)[i].key != key@,
        },
{
    let mut j: usize = 0;
    while j < es.len()
        invariant
            j <= es@.len(),
            forall|i: int| 0 <= i < j ==> entries_model(es@)[i].key != key@,
        decreases es@.len() - j,
    {
        if es[j].key.are_equal(key) {
            return Some(j);
        }
        j = j + 1;
    }
    None
}

/// Builds the index entries for column `ci` by one full scan of the rows,
/// grouping row positions by the column's value.
pub(crate) fn build_entries(rows: &Vec<Vec<FieldValue>>, ci: usize) -> (es: Vec<IndexEntry>)
    requires
        forall|r: int| 0 <= r < rows@.len() ==> ci < (#[trigger] rows@[r])@.len(),
    ensures
        index_entries_wf(entries_model(es@), rows_model(rows@), ci as int),
{
    let ghost rs = rows_model(rows@);
    let mut es: Vec<IndexEntry> = Vec::new();
    let mut p: usize = 0;
    proof {
        assert(rs.take(0) =~= Seq::<Seq<Val>>::empty());
    }
    while p < rows.len()
        invariant
            p <= rows@.len(),
            rs == rows_model(rows@),
            forall|r: int| 0 <= r < rows@.len() ==> ci < (#[trigger] rows@[r])@.len(),
            index_entries_wf(entries_model(es@), rs.take(p as int), ci as int),
        decreases rows@.len() - p,
    {
        let ghost old_es = entries_model(es@);
        let ghost prefix = rs.take(p as int);
        let ghost next_prefix = rs.take(p as int + 1);
        proof {
            assert(next_prefix.len() == p + 1);
            assert(forall|q: int| 0 <= q < p ==> next_prefix[q] == prefix[q]);
            assert(next_prefix[p as int] == rs[p as int]);
            assert(rs[p as int] == rows@[p as int]@.map_values(|v: FieldValue| v@));
            assert(rs[p as int][ci as int] == rows@[p as int]@[ci as int]@);
        }
        let row = &rows[p];
        match find_entry(&es, &row[ci]) {
            Some(j) => {
                let mut e = es.remove(j);
                e.positions.push(p);
                es.insert(j, e);
                proof {
                    let em = entries_model(es@);
                    assert(em =~~= old_es.update(
                        j as int,
                        EntryModel {
                            key: old_es[j as int].key,
                            positions: old_es[j as int].positions.push(p as int),
                        },
                    ));
                    lemma_step_existing(old_es, em, prefix, next_prefix, j as int, p as int,
                        ci as int);
                }
            },
            None => {
                let mut ps: Vec<usize> = Vec::new();
                ps.push(p);
                es.push(IndexEntry { key: row[ci].clone(), positions: ps });
                proof {
                    let em = entries_model(es@);
                    assert(em =~~= old_es.push(
                        EntryModel {
                            key: rs[p as int][ci as int],
                            positions: seq![p as int],
                        },
                    ));
                    lemma_step_fresh(old_es, em, prefix, next_prefix, p as int, ci as int);
                }
            },
        }
        p = p + 1;
    }
    proof {
        assert(rs.take(rows@.len() as int) =~= rs);
    }
    es
}

/// Extending the rows by one whose value already has an entry keeps the
/// index well-formed when its position is appended to that entry.
pub(crate) proof fn lemma_step_existing(
    old_es: Seq<EntryModel>,
    new_es: Seq<EntryModel>,
    prefix: Seq<Seq<Val>>,
    next_prefix: Seq<Seq<Val>>,
    j: int,
    p: int,
    ci: int,
)
    requires
        index_entries_wf(old_es, prefix, ci),
        prefix.len() == p,
        next_prefix.len() == p + 1,
        forall|q: int| 0 <= q < p ==> next_prefix[q] == prefix[q],
        0 <= j < old_es.len(),
        0 <= ci < next_prefix[p].len(),
        old_es[j].key == next_prefix[p][ci],
        new_es == old_es.update(
            j,
            EntryModel { key: old_es[j].key, positions: old_es[j].positions.push(p) },
        ),
    ensures
        index_entries_wf(new_es, next_prefix, ci),
{
    assert forall|i: int| 0 <= i < new_es.len() implies positions_ascending(
        (#[trigger] new_es[i]).positions,
    ) by {
        if i == j {
            let ps = old_es[j].positions;
            assert(entry_sound(old_es[j], prefix, ci));
            assert forall|a: int, b: int|
                0 <= a < b < ps.push(p).len() implies ps.push(p)[a] < ps.push(p)[b] by {
                if b < ps.len() {
                    assert(positions_ascending(ps));
                } else {
                    assert(ps[a] < prefix.len());
                }
            }
        }
    }
    assert forall|i: int| 0 <= i < new_es.len() implies entry_sound(
        #[trigger] new_es[i],
        next_prefix,
        ci,
    ) by {
        assert(entry_sound(old_es[i], prefix, ci));
        if i == j {
            assert forall|k: int|
                0 <= k < new_es[i].positions.len() implies 0 <= #[trigger] new_es[i].positions[k]
                < next_prefix.len() && next_prefix[new_es[i].positions[k]][ci]
                == new_es[i].key by {
                if k < old_es[j].positions.len() {
                    assert(old_es[j].positions[k] < prefix.len());
                } else {
                    assert(new_es[i].positions[k] == p);
                }
            }
        } else {
            assert forall|k: int|
                0 <= k < new_es[i].positions.len() implies 0 <= #[trigger] new_es[i].positions[k]
                < next_prefix.len() && next_prefix[new_es[i].positions[k]][ci]
                == new_es[i].key by {
                assert(old_es[i].positions[k] < prefix.len());
            }
        }
    }
    assert forall|q: int| 0 <= q < next_prefix.len() implies index_covers(
        new_es,
        #[trigger] next_prefix[q],
        q,
        ci,
    ) by {
        if q < p {
            assert(index_covers(old_es, prefix[q], q, ci));
            let i = choose|i: int|
                0 <= i < old_es.len() && (#[trigger] old_es[i]).key == prefix[q][ci]
                    && old_es[i].positions.contains(q);
            if i == j {
                assert(new_es[i].positions.contains(q)) by {
                    let k = choose|k: int|
                        0 <= k < old_es[j].positions.len() && old_es[j].positions[k] == q;
                    assert(new_es[i].positions[k] == q);
                }
            }
            assert(new_es[i].key == next_prefix[q][ci] && new_es[i].positions.contains(q));
        } else {
            assert(new_es[j].positions.contains(p)) by {
                assert(new_es[j].positions[old_es[j].positions.len() as int] == p);
            }
            assert(new_es[j].key == next_prefix[p][ci]);
        }
    }
}

/// Extending the rows by one whose value has no entry keeps the index
/// well-formed when a fresh entry holding just that position is appended.
pub(crate) proof fn lemma_step_fresh(
    old_es: Seq<EntryModel>,
    new_es: Seq<EntryModel>,
    prefix: Seq<Seq<Val>>,
    next_prefix: Seq<Seq<Val>>,
    p: int,
    ci: int,
)
    requires
        index_entries_wf(old_es, prefix, ci),
        prefix.len() == p,
        next_prefix.len() == p + 1,
        forall|q: int| 0 <= q < p ==> next_prefix[q] == prefix[q],
        0 <= ci < next_prefix[p].len(),
        forall|i: int| 0 <= i < old_es.len() ==> old_es[i].key != next_prefix[p][ci],
        new_es == old_es.push(
            EntryModel { key: next_prefix[p][ci], positions: seq![p] },
        ),
    ensures
        index_entries_wf(new_es, next_prefix, ci),
{
    let fresh = EntryModel { key: next_prefix[p][ci], positions: seq![p] };
    assert forall|i: int| 0 <= i < new_es.len() implies positions_ascending(
        (#[trigger] new_es[i]).positions,
    ) by {
        if i < old_es.len() {
            assert(positions_ascending(old_es[i].positions));
        }
    }
    assert forall|i: int| 0 <= i < new_es.len() implies entry_sound(
        #[trigger] new_es[i],
        next_prefix,
        ci,
    ) by {
        if i < old_es.len() {
            assert(entry_sound(old_es[i], prefix, ci));
            assert forall|k: int|
                0 <= k < new_es[i].positions.len() implies 0 <= #[trigger] new_es[i].positions[k]
                < next_prefix.len() && next_prefix[new_es[i].positions[k]][ci]
                == new_es[i].key by {
                assert(old_es[i].positions[k] < prefix.len());
            }
        } else {
            assert(new_es[i] == fresh);
            assert(fresh.positions[0] == p);
        }
    }
    assert forall|q: int| 0 <= q < next_prefix.len() implies index_covers(
        new_es,
        #[trigger] next_prefix[q],
        q,
        ci,
    ) by {
        if q < p {
            assert(index_covers(old_es, prefix[q], q, ci));
            let i = choose|i: int|
                0 <= i < old_es.len() && (#[trigger] old_es[i]).key == prefix[q][ci]
                    && old_es[i].positions.contains(q);
            assert(new_es[i].key == next_prefix[q][ci] && new_es[i].positions.contains(q));
        } else {
            let i = old_es.len() as int;
            assert(new_es[i].positions.contains(p)) by {
                assert(new_es[i].positions[0] == p);
            }
            assert(new_es[i].key == next_prefix[p][ci]);
        }
    }
}

} // verus!
