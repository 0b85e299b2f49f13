//! General facts about sequences and multisets that the selection, sorting
//! and join proofs share: duplicate-free sequences with the same members
//! carry the same multiset, and mapping preserves multiset equality.

use vstd::prelude::*;

use vstd::seq_lib::group_to_multiset_ensures;

verus! {

/// Two duplicate-free sequences with exactly the same members hold the same
/// multiset of elements.
pub proof fn lemma_nodup_same_members_multiset<A>(a: Seq<A>, b: Seq<A>)
    requires
        a.no_duplicates(),
        b.no_duplicates(),
        forall|x: A| a.contains(x) <==> b.contains(x),
    ensures
        a.to_multiset() == b.to_multiset(),
{
    broadcast use group_to_multiset_ensures;

    a.lemma_multiset_has_no_duplicates();
    b.lemma_multiset_has_no_duplicates();
    assert forall|x: A| a.to_multiset().count(x) == b.to_multiset().count(x) by {
        if a.contains(x) {
            assert(a.to_multiset().count(x) == 1);
            assert(b.to_multiset().count(x) == 1);
        } else {
            assert(a.to_multiset().count(x) == 0);
            assert(b.to_multiset().count(x) == 0);
        }
    }
    assert(a.to_multiset() =~= b.to_multiset());
}

/// Every element of a filtered sequence occurs in the sequence it was
/// filtered from.
pub proof fn lemma_filter_subset<A>(s: Seq<A>, pred: spec_fn(A) -> bool)
    ensures
        forall|k: int| 0 <= k < s.filter(pred).len() ==> s.contains(#[trigger] s.filter(pred)[k]),
    decreases s.len(),
{
    reveal(Seq::filter);
    if s.len() > 0 {
        lemma_filter_subset(s.drop_last(), pred);
        let f = s.filter(pred);
        let sub = s.drop_last().filter(pred);
        assert forall|k: int| 0 <= k < f.len() implies s.contains(#[trigger] f[k]) by {
            if pred(s.last()) && k == f.len() - 1 {
                assert(f[k] == s.last());
                assert(s[s.len() - 1] == s.last());
            } else {
                assert(f[k] == sub[k]);
                assert(s.drop_last().contains(sub[k]));
                let m = choose|m: int| 0 <= m < s.drop_last().len() && s.drop_last()[m] == sub[k];
                assert(s[m] == sub[k]);
            }
        }
    }
}

/// Filtering keeps pairwise-distinct keys pairwise distinct.
pub proof fn lemma_filter_keeps_distinct_keys<A, K>(
    s: Seq<A>,
    pred: spec_fn(A) -> bool,
    key: spec_fn(A) -> K,
)
    requires
        forall|i: int, j: int| 0 <= i < j < s.len() ==> key(s[i]) != key(s[j]),
    ensures
        forall|i: int, j: int|
            0 <= i < j < s.filter(pred).len() ==> key(s.filter(pred)[i]) != key(s.filter(pred)[j]),
    decreases s.len(),
{
    reveal(Seq::filter);
    if s.len() > 0 {
        lemma_filter_keeps_distinct_keys(s.drop_last(), pred, key);
        lemma_filter_subset(s.drop_last(), pred);
        let f = s.filter(pred);
        let sub = s.drop_last().filter(pred);
        assert forall|i: int, j: int| 0 <= i < j < f.len() implies key(f[i]) != key(f[j]) by {
            if pred(s.last()) && j == f.len() - 1 {
                assert(f[i] == sub[i]);
                assert(s.drop_last().contains(sub[i]));
                let m = choose|m: int| 0 <= m < s.drop_last().len() && s.drop_last()[m] == sub[i];
                assert(s[m] == f[i]);
                assert(f[j] == s.last());
                assert(s[s.len() - 1] == s.last());
                assert(key(s[m]) != key(s[s.len() - 1]));
            } else {
                assert(f[i] == sub[i]);
                assert(f[j] == sub[j]);
            }
        }
    }
}

/// Mapping a function over two sequences that hold the same multiset yields
/// sequences that hold the same multiset.
pub proof fn lemma_map_values_multiset<A, B>(s1: Seq<A>, s2: Seq<A>, f: spec_fn(A) -> B)
    requires
        s1.to_multiset() == s2.to_multiset(),
    ensures
        s1.map_values(f).to_multiset() == s2.map_values(f).to_multiset(),
    decreases s1.len(),
{
    broadcast use group_to_multiset_ensures;

    if s1.len() == 0 {
        assert(s2.to_multiset().len() == 0);
        assert(s2.len() == 0);
        assert(s1.map_values(f) =~= Seq::<B>::empty());
        assert(s2.map_values(f) =~= Seq::<B>::empty());
    } else {
        let x = s1[0];
        assert(s1.contains(x));
        assert(s1.to_multiset().count(x) > 0);
        assert(s2.to_multiset().count(x) > 0);
        assert(s2.contains(x));
        let i = choose|i: int| 0 <= i < s2.len() && s2[i] == x;
        let s1r = s1.remove(0);
        let s2r = s2.remove(i);
        assert(s1r.to_multiset() =~= s1.to_multiset().remove(x));
        assert(s2r.to_multiset() =~= s2.to_multiset().remove(x));
        lemma_map_values_multiset(s1r, s2r, f);

        let m1 = s1.map_values(f).to_multiset();
        let m2 = s2.map_values(f).to_multiset();
        let fx = f(x);
        assert(s1.map_values(f).remove(0) =~= s1r.map_values(f));
        assert(s2.map_values(f).remove(i) =~= s2r.map_values(f));
        assert(s1.map_values(f)[0] == fx);
        assert(s2.map_values(f)[i] == fx);
        assert(s1r.map_values(f).to_multiset() =~= m1.remove(fx));
        assert(s2r.map_values(f).to_multiset() =~= m2.remove(fx));
        assert(m1.remove(fx) == m2.remove(fx));
        assert(s1.map_values(f).contains(fx));
        assert(m1.count(fx) > 0);
        assert(s2.map_values(f).contains(fx));
        assert(m2.count(fx) > 0);
        assert forall|y: B| m1.count(y) == m2.count(y) by {
            if y == fx {
                assert(m1.remove(fx).count(fx) == m1.count(fx) - 1);
                assert(m2.remove(fx).count(fx) == m2.count(fx) - 1);
            } else {
                assert(m1.remove(fx).count(y) == m1.count(y));
                assert(m2.remove(fx).count(y) == m2.count(y));
            }
        }
        assert(m1 =~= m2);
    }
}

/// Inserting an element anywhere in a sequence inserts it into the multiset.
pub proof fn lemma_insert_multiset<A>(s: Seq<A>, i: int, x: A)
    requires
        0 <= i <= s.len(),
    ensures
        s.insert(i, x).to_multiset() == s.to_multiset().insert(x),
{
    broadcast use group_to_multiset_ensures;

    assert(s.insert(i, x) =~= s.take(i).push(x) + s.skip(i));
    assert(s =~= s.take(i) + s.skip(i));
    vstd::seq_lib::lemma_multiset_commutative(s.take(i).push(x), s.skip(i));
    vstd::seq_lib::lemma_multiset_commutative(s.take(i), s.skip(i));
    assert(s.take(i).push(x).to_multiset() =~= s.take(i).to_multiset().insert(x));
    assert(s.insert(i, x).to_multiset() =~= s.to_multiset().insert(x)) by {
        assert(s.insert(i, x).to_multiset() == s.take(i).to_multiset().insert(x).add(
            s.skip(i).to_multiset(),
        ));
        assert(s.to_multiset().insert(x) == s.take(i).to_multiset().add(
            s.skip(i).to_multiset(),
        ).insert(x));
    }
}

/// Flattening a sequence of empty sequences yields the empty sequence.
pub proof fn lemma_flatten_all_empty<A>(ss: Seq<Seq<A>>)
    requires
        forall|i: int| 0 <= i < ss.len() ==> (#[trigger] ss[i]).len() == 0,
    ensures
        ss.flatten() =~= Seq::<A>::empty(),
    decreases ss.len(),
{
    if ss.len() > 0 {
        lemma_flatten_all_empty(ss.drop_first());
        assert(ss.first().len() == 0);
        assert(ss.flatten() =~= ss.first() + ss.drop_first().flatten());
    }
}

/// Sequences of sequences holding the same multiset flatten to the same
/// multiset.
pub proof fn lemma_flatten_multiset<A>(ss1: Seq<Seq<A>>, ss2: Seq<Seq<A>>)
    requires
        ss1.to_multiset() == ss2.to_multiset(),
    ensures
        ss1.flatten().to_multiset() == ss2.flatten().to_multiset(),
    decreases ss1.len(),
{
    broadcast use group_to_multiset_ensures;

    if ss1.len() == 0 {
        assert(ss2.to_multiset().len() == 0);
        assert(ss2.len() == 0);
    } else {
        let x = ss1[0];
        assert(ss1.contains(x));
        assert(ss2.to_multiset().count(x) > 0);
        assert(ss2.contains(x));
        let i = choose|i: int| 0 <= i < ss2.len() && ss2[i] == x;
        let ss1r = ss1.remove(0);
        let ss2r = ss2.remove(i);
        assert(ss1r.to_multiset() =~= ss1.to_multiset().remove(x));
        assert(ss2r.to_multiset() =~= ss2.to_multiset().remove(x));
        lemma_flatten_multiset(ss1r, ss2r);
        // both flattens split off one copy of x's elements
        assert(ss1 =~= seq![x] + ss1r);
        vstd::seq_lib::lemma_flatten_concat(seq![x], ss1r);
        seq![x].lemma_flatten_one_element();
        assert(seq![x].flatten() == x);
        assert(ss1.flatten() == (seq![x] + ss1r).flatten());
        assert(ss1.flatten().to_multiset() =~= x.to_multiset().add(ss1r.flatten().to_multiset()))
            by {
            vstd::seq_lib::lemma_multiset_commutative(seq![x].flatten(), ss1r.flatten());
            assert((seq![x] + ss1r).flatten() == seq![x].flatten() + ss1r.flatten());
        }
        assert(ss2 =~= ss2.take(i) + (seq![x] + ss2.skip(i + 1)));
        vstd::seq_lib::lemma_flatten_concat(ss2.take(i), seq![x] + ss2.skip(i + 1));
        vstd::seq_lib::lemma_flatten_concat(seq![x], ss2.skip(i + 1));
        seq![x].lemma_flatten_one_element();
        vstd::seq_lib::lemma_multiset_commutative(
            ss2.take(i).flatten(),
            (seq![x] + ss2.skip(i + 1)).flatten(),
        );
        vstd::seq_lib::lemma_multiset_commutative(seq![x].flatten(), ss2.skip(i + 1).flatten());
        assert(ss2r =~= ss2.take(i) + ss2.skip(i + 1));
        vstd::seq_lib::lemma_flatten_concat(ss2.take(i), ss2.skip(i + 1));
        vstd::seq_lib::lemma_multiset_commutative(ss2.take(i).flatten(), ss2.skip(i + 1).flatten());
        assert(ss2.flatten().to_multiset() =~= x.to_multiset().add(
            ss2r.flatten().to_multiset(),
        ));
        assert(ss1.flatten().to_multiset() =~= ss2.flatten().to_multiset());
    }
}

/// Filtering two sequences that hold the same multiset with one predicate
/// yields sequences that hold the same multiset.
pub proof fn lemma_filter_multiset<A>(s1: Seq<A>, s2: Seq<A>, pred: spec_fn(A) -> bool)
    requires
        s1.to_multiset() == s2.to_multiset(),
    ensures
        s1.filter(pred).to_multiset() == s2.filter(pred).to_multiset(),
    decreases s1.len(),
{
    broadcast use group_to_multiset_ensures;

    reveal(Seq::filter);
    if s1.len() == 0 {
        assert(s2.to_multiset().len() == 0);
        assert(s2.len() == 0);
    } else {
        let x = s1[0];
        assert(s1.contains(x));
        assert(s2.to_multiset().count(x) > 0);
        assert(s2.contains(x));
        let i = choose|i: int| 0 <= i < s2.len() && s2[i] == x;
        let s1r = s1.remove(0);
        let s2r = s2.remove(i);
        assert(s1r.to_multiset() =~= s1.to_multiset().remove(x));
        assert(s2r.to_multiset() =~= s2.to_multiset().remove(x));
        lemma_filter_multiset(s1r, s2r, pred);
        lemma_filter_split_one(s1, 0, pred);
        lemma_filter_split_one(s2, i, pred);
        assert forall|y: A|
            s1.filter(pred).to_multiset().count(y) == s2.filter(pred).to_multiset().count(y) by {
            assert(s1.filter(pred).to_multiset() == if pred(x) {
                s1r.filter(pred).to_multiset().insert(x)
            } else {
                s1r.filter(pred).to_multiset()
            });
            assert(s2.filter(pred).to_multiset() == if pred(x) {
                s2r.filter(pred).to_multiset().insert(x)
            } else {
                s2r.filter(pred).to_multiset()
            });
        }
        assert(s1.filter(pred).to_multiset() =~= s2.filter(pred).to_multiset());
    }
}

/// Removing one element removes exactly its contribution from the filtered
/// multiset.
pub proof fn lemma_filter_split_one<A>(s: Seq<A>, i: int, pred: spec_fn(A) -> bool)
    requires
        0 <= i < s.len(),
    ensures
        s.filter(pred).to_multiset() == if pred(s[i]) {
            s.remove(i).filter(pred).to_multiset().insert(s[i])
        } else {
            s.remove(i).filter(pred).to_multiset()
        },
{
    broadcast use group_to_multiset_ensures;
    broadcast use vstd::seq::Seq::filter_distributes_over_add;

    let x = s[i];
    assert(s =~= s.take(i) + (seq![x] + s.skip(i + 1)));
    assert(s.remove(i) =~= s.take(i) + s.skip(i + 1));
    assert(s.filter(pred) == (s.take(i) + (seq![x] + s.skip(i + 1))).filter(pred));
    assert((seq![x]).filter(pred) =~= if pred(x) {
        seq![x]
    } else {
        Seq::<A>::empty()
    }) by {
        reveal(Seq::filter);
        let single = seq![x];
        assert(single.drop_last() =~= Seq::<A>::empty());
        assert(Seq::<A>::empty().filter(pred) =~= Seq::<A>::empty());
        assert(single.last() == x);
        assert(single.filter(pred) == if pred(x) {
            single.drop_last().filter(pred).push(x)
        } else {
            single.drop_last().filter(pred)
        });
    }
    vstd::seq_lib::lemma_multiset_commutative(
        s.take(i).filter(pred),
        (seq![x] + s.skip(i + 1)).filter(pred),
    );
    vstd::seq_lib::lemma_multiset_commutative(seq![x].filter(pred), s.skip(i + 1).filter(pred));
    vstd::seq_lib::lemma_multiset_commutative(s.take(i).filter(pred), s.skip(i + 1).filter(pred));
    assert forall|y: A|
        s.filter(pred).to_multiset().count(y) == (if pred(x) {
            s.remove(i).filter(pred).to_multiset().insert(x)
        } else {
            s.remove(i).filter(pred).to_multiset()
        }).count(y) by {}
    assert(s.filter(pred).to_multiset() =~= if pred(x) {
        s.remove(i).filter(pred).to_multiset().insert(x)
    } else {
        s.remove(i).filter(pred).to_multiset()
    });
}

/// Two same-length sequences of sequences whose entries agree up to order
/// flatten to the same multiset.
pub proof fn lemma_flatten_pointwise_multiset<A>(ss1: Seq<Seq<A>>, ss2: Seq<Seq<A>>)
    requires
        ss1.len() == ss2.len(),
        forall|i: int|
            0 <= i < ss1.len() ==> (#[trigger] ss1[i]).to_multiset() == ss2[i].to_multiset(),
    ensures
        ss1.flatten().to_multiset() == ss2.flatten().to_multiset(),
    decreases ss1.len(),
{
    if ss1.len() > 0 {
        lemma_flatten_pointwise_multiset(ss1.drop_first(), ss2.drop_first());
        assert(ss1.flatten() == ss1.first() + ss1.drop_first().flatten());
        assert(ss2.flatten() == ss2.first() + ss2.drop_first().flatten());
        vstd::seq_lib::lemma_multiset_commutative(ss1.first(), ss1.drop_first().flatten());
        vstd::seq_lib::lemma_multiset_commutative(ss2.first(), ss2.drop_first().flatten());
        assert(ss1[0].to_multiset() == ss2[0].to_multiset());
        assert(ss1.flatten().to_multiset() =~= ss2.flatten().to_multiset());
    }
}

/// A filter that holds exactly on one contiguous range keeps exactly that
/// range.
pub proof fn lemma_filter_contiguous<A>(s: Seq<A>, pred: spec_fn(A) -> bool, lo: int, hi: int)
    requires
        0 <= lo <= hi <= s.len(),
        forall|j: int| 0 <= j < s.len() ==> (pred(#[trigger] s[j]) <==> lo <= j < hi),
    ensures
        s.filter(pred) == s.subrange(lo, hi),
    decreases s.len(),
{
    reveal(Seq::filter);
    if s.len() == 0 {
        assert(s.filter(pred) =~= s.subrange(lo, hi));
    } else {
        let n = s.len() - 1;
        if pred(s[n]) {
            assert(hi == n + 1);
            assert(forall|j: int|
                0 <= j < s.drop_last().len() ==> (pred(#[trigger] s.drop_last()[j]) <==> lo <= j
                    < n));
            lemma_filter_contiguous(s.drop_last(), pred, lo, n);
            assert(s.filter(pred) == s.drop_last().filter(pred).push(s.last()));
            assert(s.filter(pred) =~= s.subrange(lo, hi));
        } else {
            if hi == n + 1 && lo < hi {
                assert(pred(s[n]) <==> lo <= n < hi);
                assert(false);
            }
            if lo == hi {
                assert(forall|j: int|
                    0 <= j < s.drop_last().len() ==> (pred(#[trigger] s.drop_last()[j]) <==> 0 <= j
                        < 0));
                lemma_filter_contiguous(s.drop_last(), pred, 0, 0);
                assert(s.filter(pred) == s.drop_last().filter(pred));
                assert(s.filter(pred) =~= s.subrange(lo, hi));
            } else {
                assert(hi <= n);
                assert(forall|j: int|
                    0 <= j < s.drop_last().len() ==> (pred(#[trigger] s.drop_last()[j]) <==> lo
                        <= j < hi));
                lemma_filter_contiguous(s.drop_last(), pred, lo, hi);
                assert(s.filter(pred) == s.drop_last().filter(pred));
                assert(s.drop_last().subrange(lo, hi) =~= s.subrange(lo, hi));
                assert(s.filter(pred) =~= s.subrange(lo, hi));
            }
        }
    }
}

} // verus!
