//! Stable ordering of indices by a key: what a stable sort by key gives.
use vstd::prelude::*;
use crate::circuit::{distinct_below, lemma_distinct_covers};

verus! {

/// Item `a` comes before item `b`: smaller key, or equal key and `a` first.
pub open spec fn runs_before(keys: Seq<usize>, a: usize, b: usize) -> bool {
    keys[a as int] < keys[b as int] || (keys[a as int] == keys[b as int] && a < b)
}

/// `ord` lists every index of `keys` once, ordered by key, ties kept in
/// index order.
pub open spec fn is_stable_order(keys: Seq<usize>, ord: Seq<usize>) -> bool {
    &&& ord.len() == keys.len()
    &&& forall|k: int| 0 <= k < ord.len() ==> (#[trigger] ord[k]) < keys.len()
    &&& forall|a: int, b: int| 0 <= a < b < ord.len() ==> runs_before(keys, #[trigger] ord[a], #[trigger] ord[b])
}

/// The stable order of the indices of `keys`.
pub open spec fn stable_order(keys: Seq<usize>) -> Seq<usize> {
    choose|ord: Seq<usize>| is_stable_order(keys, ord)
}

/// There is exactly one stable order.
pub proof fn lemma_stable_order_unique(keys: Seq<usize>, o1: Seq<usize>, o2: Seq<usize>)
    requires
        is_stable_order(keys, o1),
        is_stable_order(keys, o2),
        keys.len() <= usize::MAX,
    ensures
        o1 == o2,
{
    let n = keys.len();
    assert(distinct_below(o1, n)) by {
        assert forall|i: int, j: int| 0 <= i < j < o1.len() implies o1[i] != o1[j] by {
            assert(runs_before(keys, o1[i], o1[j]));
        }
    }
    assert(distinct_below(o2, n)) by {
        assert forall|i: int, j: int| 0 <= i < j < o2.len() implies o2[i] != o2[j] by {
            assert(runs_before(keys, o2[i], o2[j]));
        }
    }
    lemma_distinct_covers(o1, n);
    lemma_distinct_covers(o2, n);
    assert forall|k: int| 0 <= k < n implies o1[k] == o2[k] by {
        lemma_stable_order_agree(keys, o1, o2, k);
    }
    assert(o1 =~= o2);
}

proof fn lemma_stable_order_agree(keys: Seq<usize>, o1: Seq<usize>, o2: Seq<usize>, k: int)
    requires
        is_stable_order(keys, o1),
        is_stable_order(keys, o2),
        forall|x: usize| x < keys.len() ==> o1.contains(x),
        forall|x: usize| x < keys.len() ==> o2.contains(x),
        0 <= k < keys.len(),
    ensures
        o1[k] == o2[k],
    decreases k,
{
    if k > 0 {
        lemma_stable_order_agree(keys, o1, o2, k - 1);
    }
    assert forall|j: int| 0 <= j < k implies o1[j] == o2[j] by {
        if j < k {
            lemma_stable_order_agree(keys, o1, o2, j);
        }
    }
    if o1[k] != o2[k] {
        assert(o2.contains(o1[k]));
        let m = choose|m: int| 0 <= m < o2.len() && o2[m] == o1[k];
        assert(o1.contains(o2[k]));
        let m2 = choose|m2: int| 0 <= m2 < o1.len() && o1[m2] == o2[k];
        if m < k {
            assert(o1[m] == o2[m]);
            assert(runs_before(keys, o1[m], o1[k]));
        } else {
            assert(m > k);
            assert(runs_before(keys, o2[k], o2[m]));
            if m2 < k {
                assert(o1[m2] == o2[m2]);
                assert(runs_before(keys, o2[m2], o2[k]));
            } else {
                assert(m2 > k);
                assert(runs_before(keys, o1[k], o1[m2]));
            }
        }
    }
}


/// The indices of `keys` in stable order (insertion sort).
pub fn stable_order_indices(keys: &Vec<usize>) -> (ord: Vec<usize>)
    ensures
        is_stable_order(keys@, ord@),
        ord@ == stable_order(keys@),
{
    let ghost gs = keys@;
    let mut ord: Vec<usize> = Vec::new();
    let mut i: usize = 0;
    while i < keys.len()
        invariant
            i <= keys.len(),
            gs == keys@,
            ord@.len() == i,
            forall|k: int| 0 <= k < ord@.len() ==> (#[trigger] ord@[k]) < i,
            forall|a: int, b: int| 0 <= a < b < ord@.len() ==> runs_before(gs, #[trigger] ord@[a], #[trigger] ord@[b]),
        decreases keys.len() - i,
    {
        let col = keys[i];
        let mut pos: usize = 0;
        while pos < ord.len() && keys[ord[pos]] <= col
            invariant
                pos <= ord@.len(),
                i < keys.len(),
                gs == keys@,
                col == gs[i as int],
                forall|k: int| 0 <= k < ord@.len() ==> (#[trigger] ord@[k]) < i,
                forall|k: int| 0 <= k < pos ==> gs[(#[trigger] ord@[k]) as int] <= col,
            decreases ord@.len() - pos,
        {
            pos = pos + 1;
        }
        proof {
            if pos < ord@.len() {
                assert(gs[ord@[pos as int] as int] > col);
                assert forall|k: int| pos <= k < ord@.len() implies gs[(#[trigger] ord@[k]) as int] > col by {
                    if k > pos {
                        assert(runs_before(gs, ord@[pos as int], ord@[k]));
                    }
                }
            }
        }
        let ghost before = ord@;
        ord.insert(pos, i);
        proof {
            assert(ord@ == before.insert(pos as int, i));
            assert forall|a: int, b: int| 0 <= a < b < ord@.len() implies runs_before(gs, #[trigger] ord@[a], #[trigger] ord@[b]) by {
                if a < pos as int && b < pos as int {
                    assert(runs_before(gs, before[a], before[b]));
                } else if a < pos as int && b == pos as int {
                    assert(gs[before[a] as int] <= col);
                } else if a < pos as int && b > pos as int {
                    assert(runs_before(gs, before[a], before[b - 1]));
                } else if a == pos as int {
                    assert(gs[before[b - 1] as int] > col);
                } else {
                    assert(runs_before(gs, before[a - 1], before[b - 1]));
                }
            }
        }
        i = i + 1;
    }
    proof {
        assert(is_stable_order(gs, ord@));
        lemma_stable_order_unique(gs, ord@, stable_order(gs));
    }
    ord
}


proof fn lemma_split_point(keys: Seq<usize>, o: Seq<usize>, col: usize, p: int) -> (pos: int)
    requires
        0 <= p <= o.len(),
        forall|k: int| 0 <= k < o.len() ==> (#[trigger] o[k]) < keys.len(),
        forall|k: int| 0 <= k < p ==> keys[(#[trigger] o[k]) as int] <= col,
    ensures
        p <= pos <= o.len(),
        forall|k: int| 0 <= k < pos ==> keys[(#[trigger] o[k]) as int] <= col,
        pos < o.len() ==> keys[o[pos] as int] > col,
    decreases o.len() - p,
{
    if p < o.len() && keys[o[p] as int] <= col {
        lemma_split_point(keys, o, col, p + 1)
    } else {
        p
    }
}

/// Every sequence of keys has a stable order, so `stable_order` is one.
pub proof fn lemma_stable_order_exists(keys: Seq<usize>)
    requires
        keys.len() <= usize::MAX,
    ensures
        is_stable_order(keys, stable_order(keys)),
    decreases keys.len(),
{
    if keys.len() == 0 {
        assert(is_stable_order(keys, Seq::<usize>::empty()));
    } else {
        let pk = keys.drop_last();
        lemma_stable_order_exists(pk);
        let o = stable_order(pk);
        let i = (keys.len() - 1) as usize;
        let col = keys[i as int];
        assert forall|k: int| 0 <= k < o.len() implies (#[trigger] o[k]) < keys.len() by {}
        let pos = lemma_split_point(keys, o, col, 0);
        assert forall|k: int| 0 <= k < o.len() implies keys[(#[trigger] o[k]) as int] == pk[o[k] as int] by {}
        if pos < o.len() {
            assert forall|k: int| pos <= k < o.len() implies keys[(#[trigger] o[k]) as int] > col by {
                if k > pos {
                    assert(runs_before(pk, o[pos], o[k]));
                }
            }
        }
        let ord = o.insert(pos, i);
        assert forall|a: int, b: int| 0 <= a < b < ord.len() implies runs_before(keys, #[trigger] ord[a], #[trigger] ord[b]) by {
            if a < pos && b < pos {
                assert(runs_before(pk, o[a], o[b]));
            } else if a < pos && b == pos {
                assert(keys[o[a] as int] <= col);
            } else if a < pos && b > pos {
                assert(runs_before(pk, o[a], o[b - 1]));
            } else if a == pos {
                assert(keys[o[b - 1] as int] > col);
            } else {
                assert(runs_before(pk, o[a - 1], o[b - 1]));
            }
        }
        assert forall|k: int| 0 <= k < ord.len() implies (#[trigger] ord[k]) < keys.len() by {
            if k < pos {
                assert(ord[k] == o[k]);
            } else if k > pos {
                assert(ord[k] == o[k - 1]);
            }
        }
        assert(is_stable_order(keys, ord));
    }
}

} // verus!
