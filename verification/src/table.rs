//! Association lists as maps: the lemmas behind the registries.
use vstd::prelude::*;

verus! {

/// Whether the entry at `i` has the key `k`.
pub open spec fn keyed<K, V>(ps: Seq<(K, V)>, k: K, i: int) -> bool {
    0 <= i < ps.len() && ps[i].0 == k
}

/// The map an association list stands for.
pub open spec fn table<K, V>(ps: Seq<(K, V)>) -> Map<K, V> {
    Map::new(|k: K| exists|i: int| keyed(ps, k, i), |k: K| ps[choose|i: int| keyed(ps, k, i)].1)
}

/// Whether no key occurs twice.
pub open spec fn distinct<K, V>(ps: Seq<(K, V)>) -> bool {
    forall|i: int, j: int| 0 <= i < j < ps.len() ==> (#[trigger] ps[i]).0 != (#[trigger] ps[j]).0
}

pub proof fn lemma_entry<K, V>(ps: Seq<(K, V)>, i: int)
    requires
        distinct(ps),
        0 <= i < ps.len(),
    ensures
        table(ps).contains_key(ps[i].0),
        table(ps)[ps[i].0] == ps[i].1,
{
    let k = ps[i].0;
    assert(keyed(ps, k, i));
    let j = choose|j: int| keyed(ps, k, j);
    assert(keyed(ps, k, j));
    assert(i == j);
}

pub proof fn lemma_absent<K, V>(ps: Seq<(K, V)>, k: K)
    requires
        forall|i: int| 0 <= i < ps.len() ==> (#[trigger] ps[i]).0 != k,
    ensures
        !table(ps).contains_key(k),
{
}

pub proof fn lemma_inserted<K, V>(ps: Seq<(K, V)>, at: int, k: K, v: V)
    requires
        distinct(ps),
        0 <= at <= ps.len(),
        forall|i: int| 0 <= i < ps.len() ==> (#[trigger] ps[i]).0 != k,
    ensures
        distinct(ps.insert(at, (k, v))),
        table(ps.insert(at, (k, v))) == table(ps).insert(k, v),
{
    let qs = ps.insert(at, (k, v));
    assert(qs[at] == (k, v));
    assert(distinct(qs));
    lemma_entry(qs, at);
    assert forall|x: K| #[trigger] table(qs).dom().contains(x) == table(ps).insert(k, v).dom().contains(x) && (
    table(qs).contains_key(x) ==> table(qs)[x] == table(ps).insert(k, v)[x]) by {
        if x != k {
            if table(ps).contains_key(x) {
                let i = choose|i: int| keyed(ps, x, i);
                assert(keyed(ps, x, i));
                lemma_entry(ps, i);
                let j = if i < at {
                    i
                } else {
                    i + 1
                };
                assert(qs[j] == ps[i]);
                lemma_entry(qs, j);
            }
            if table(qs).contains_key(x) {
                let j = choose|j: int| keyed(qs, x, j);
                assert(keyed(qs, x, j));
                let i = if j < at {
                    j
                } else {
                    j - 1
                };
                assert(keyed(ps, x, i));
            }
        }
    }
    assert(table(qs).dom() =~= table(ps).insert(k, v).dom());
    assert(table(qs) =~= table(ps).insert(k, v));
}

pub proof fn lemma_updated<K, V>(ps: Seq<(K, V)>, at: int, v: V)
    requires
        distinct(ps),
        0 <= at < ps.len(),
    ensures
        distinct(ps.update(at, (ps[at].0, v))),
        table(ps.update(at, (ps[at].0, v))) == table(ps).insert(ps[at].0, v),
{
    let k = ps[at].0;
    let qs = ps.update(at, (k, v));
    assert(forall|i: int| 0 <= i < ps.len() ==> (#[trigger] qs[i]).0 == ps[i].0);
    assert(distinct(qs));
    assert forall|x: K| #[trigger] table(qs).dom().contains(x) == table(ps).insert(k, v).dom().contains(x) && (
    table(qs).contains_key(x) ==> table(qs)[x] == table(ps).insert(k, v)[x]) by {
        lemma_entry(qs, at);
        lemma_entry(ps, at);
        if table(ps).contains_key(x) {
            let i = choose|i: int| keyed(ps, x, i);
            assert(keyed(ps, x, i));
            assert(keyed(qs, x, i));
            lemma_entry(ps, i);
            lemma_entry(qs, i);
        }
        if table(qs).contains_key(x) {
            let j = choose|j: int| keyed(qs, x, j);
            assert(keyed(qs, x, j));
            assert(keyed(ps, x, j));
        }
    }
    assert(table(qs).dom() =~= table(ps).insert(k, v).dom());
    assert(table(qs) =~= table(ps).insert(k, v));
}

pub proof fn lemma_removed<K, V>(ps: Seq<(K, V)>, at: int)
    requires
        distinct(ps),
        0 <= at < ps.len(),
    ensures
        distinct(ps.remove(at)),
        table(ps.remove(at)) == table(ps).remove(ps[at].0),
{
    let k = ps[at].0;
    let qs = ps.remove(at);
    assert forall|i: int, j: int| 0 <= i < j < qs.len() implies (#[trigger] qs[i]).0 != (
    #[trigger] qs[j]).0 by {
        let a = if i < at {
            i
        } else {
            i + 1
        };
        let b = if j < at {
            j
        } else {
            j + 1
        };
        assert(qs[i] == ps[a] && qs[j] == ps[b]);
    }
    assert forall|x: K| #[trigger] table(qs).dom().contains(x) == table(ps).remove(k).dom().contains(x) && (
    table(qs).contains_key(x) ==> table(qs)[x] == table(ps).remove(k)[x]) by {
        if table(ps).contains_key(x) && x != k {
            let i = choose|i: int| keyed(ps, x, i);
            assert(keyed(ps, x, i));
            let j = if i < at {
                i
            } else {
                i - 1
            };
            assert(keyed(qs, x, j));
            lemma_entry(ps, i);
            lemma_entry(qs, j);
        }
        if table(qs).contains_key(x) {
            let j = choose|j: int| keyed(qs, x, j);
            assert(keyed(qs, x, j));
            let i = if j < at {
                j
            } else {
                j + 1
            };
            assert(keyed(ps, x, i));
            assert(ps[i].0 != ps[at].0);
        }
    }
    assert(table(qs).dom() =~= table(ps).remove(k).dom());
    assert(table(qs) =~= table(ps).remove(k));
}

pub proof fn lemma_table_len<K, V>(ps: Seq<(K, V)>)
    requires
        distinct(ps),
    ensures
        table(ps).dom().finite(),
        table(ps).dom().len() == ps.len(),
    decreases ps.len(),
{
    if ps.len() == 0 {
        assert(table(ps).dom() == Set::<K>::empty());
    } else {
        let n = ps.len() - 1;
        lemma_removed(ps, n);
        lemma_table_len(ps.remove(n));
        lemma_entry(ps, n);
        assert(table(ps).dom() == table(ps.remove(n)).dom().insert(ps[n].0));
    }
}

} // verus!
