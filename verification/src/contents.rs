//! What a tree holds: keys with their values, in the order of the keys.
use vstd::prelude::*;
use crate::keys::{key_lt, lemma_key_lt_asymmetric, lemma_key_lt_transitive, lemma_key_trichotomy};

verus! {

/// A key and its value.
pub type Kv = (Seq<u8>, Seq<u8>);

/// The keys grow strictly: sorted, and none twice.
pub open spec fn kvs_sorted(s: Seq<Kv>) -> bool {
    forall|i: int, j: int| 0 <= i < j < s.len() ==> key_lt((#[trigger] s[i]).0, (#[trigger] s[j]).0)
}

/// `p` is where `k` belongs in `s`: the keys before it are smaller, the keys
/// from it on are not.
pub open spec fn is_rank(s: Seq<Kv>, k: Seq<u8>, p: int) -> bool {
    &&& 0 <= p <= s.len()
    &&& forall|i: int| 0 <= i < p ==> key_lt((#[trigger] s[i]).0, k)
    &&& forall|i: int| p <= i < s.len() ==> !key_lt((#[trigger] s[i]).0, k)
}

/// Where `k` belongs in a sorted `s`: the number of keys smaller than `k`.
pub open spec fn rank(s: Seq<Kv>, k: Seq<u8>) -> int
    decreases s.len(),
{
    if s.len() == 0 {
        0
    } else if key_lt(s.last().0, k) {
        s.len() as int
    } else {
        rank(s.drop_last(), k)
    }
}

/// `s` with the value `v` under the key `k`: in place of the value that `k`
/// had, or as a new pair where `k` belongs.
pub open spec fn kvs_put(s: Seq<Kv>, k: Seq<u8>, v: Seq<u8>) -> Seq<Kv> {
    let p = rank(s, k);
    if p < s.len() && s[p].0 == k {
        s.update(p, (k, v))
    } else {
        s.insert(p, (k, v))
    }
}

/// `s` after each pair of `run` has been put into it, the first one first.
pub open spec fn kvs_put_all(s: Seq<Kv>, run: Seq<Kv>) -> Seq<Kv>
    decreases run.len(),
{
    if run.len() == 0 {
        s
    } else {
        kvs_put(kvs_put_all(s, run.drop_last()), run.last().0, run.last().1)
    }
}

/// The pairs as a map from key to value.
pub open spec fn kvs_map(s: Seq<Kv>) -> Map<Seq<u8>, Seq<u8>> {
    Map::new(
        |k: Seq<u8>| exists|i: int| 0 <= i < s.len() && (#[trigger] s[i]).0 == k,
        |k: Seq<u8>| s[choose|i: int| 0 <= i < s.len() && (#[trigger] s[i]).0 == k].1,
    )
}

/// The rank of a key in a sorted sequence is where the key belongs.
pub proof fn lemma_rank(s: Seq<Kv>, k: Seq<u8>)
    requires
        kvs_sorted(s),
    ensures
        is_rank(s, k, rank(s, k)),
    decreases s.len(),
{
    if s.len() == 0 {
    } else if key_lt(s.last().0, k) {
        assert forall|i: int| 0 <= i < s.len() implies key_lt((#[trigger] s[i]).0, k) by {
            if i < s.len() - 1 {
                assert(key_lt(s[i].0, s[s.len() - 1].0));
                lemma_key_lt_transitive(s[i].0, s.last().0, k);
            }
        }
    } else {
        let t = s.drop_last();
        assert forall|i: int, j: int| 0 <= i < j < t.len() implies key_lt(
            (#[trigger] t[i]).0,
            (#[trigger] t[j]).0,
        ) by {
            assert(key_lt(s[i].0, s[j].0));
        }
        lemma_rank(t, k);
        let p = rank(t, k);
        assert forall|i: int| 0 <= i < p implies key_lt((#[trigger] s[i]).0, k) by {
            assert(key_lt(t[i].0, k));
        }
        assert forall|i: int| p <= i < s.len() implies !key_lt((#[trigger] s[i]).0, k) by {
            if i < t.len() {
                assert(!key_lt(t[i].0, k));
            }
        }
    }
}

/// A key belongs at one place only.
pub proof fn lemma_rank_unique(s: Seq<Kv>, k: Seq<u8>, p: int, q: int)
    requires
        is_rank(s, k, p),
        is_rank(s, k, q),
    ensures
        p == q,
{
    if p < q {
        assert(key_lt(s[p].0, k));
    } else if q < p {
        assert(key_lt(s[q].0, k));
    }
}

/// In a sorted sequence, the keys from where `k` belongs on are greater than
/// `k`, but for the first of them, which may be `k` itself.
pub proof fn lemma_rank_above(s: Seq<Kv>, k: Seq<u8>, i: int)
    requires
        kvs_sorted(s),
        rank(s, k) <= i < s.len(),
        i > rank(s, k) || s[i].0 != k,
    ensures
        key_lt(k, s[i].0),
{
    lemma_rank(s, k);
    let p = rank(s, k);
    assert(!key_lt(s[i].0, k));
    lemma_key_trichotomy(s[i].0, k);
    if s[i].0 == k {
        assert(key_lt(s[p].0, s[i].0));
        assert(!key_lt(s[p].0, k));
    }
}

/// Putting a pair into a sorted sequence leaves it sorted.
#[verifier::rlimit(40)]
pub proof fn lemma_put_sorted(s: Seq<Kv>, k: Seq<u8>, v: Seq<u8>)
    requires
        kvs_sorted(s),
    ensures
        kvs_sorted(kvs_put(s, k, v)),
{
    lemma_rank(s, k);
    let p = rank(s, k);
    let r = kvs_put(s, k, v);
    if p < s.len() && s[p].0 == k {
        assert forall|i: int, j: int| 0 <= i < j < r.len() implies key_lt(
            (#[trigger] r[i]).0,
            (#[trigger] r[j]).0,
        ) by {
            assert(key_lt(s[i].0, s[j].0));
        }
    } else {
        assert forall|i: int, j: int| 0 <= i < j < r.len() implies key_lt(
            (#[trigger] r[i]).0,
            (#[trigger] r[j]).0,
        ) by {
            if j < p {
                assert(key_lt(s[i].0, s[j].0));
            } else if j == p {
                assert(key_lt(s[i].0, k));
            } else if i == p {
                lemma_rank_above(s, k, j - 1);
            } else if i < p {
                assert(key_lt(s[i].0, s[j - 1].0));
            } else {
                assert(key_lt(s[i - 1].0, s[j - 1].0));
            }
        }
    }
}

/// A pair is put into the part of a sorted sequence that its key falls
/// into: the keys before that part are smaller, the keys behind it greater.
#[verifier::rlimit(40)]
pub proof fn lemma_put_concat(a: Seq<Kv>, b: Seq<Kv>, c: Seq<Kv>, k: Seq<u8>, v: Seq<u8>)
    requires
        kvs_sorted(a + b + c),
        forall|i: int| 0 <= i < a.len() ==> key_lt((#[trigger] a[i]).0, k),
        forall|i: int| 0 <= i < c.len() ==> key_lt(k, (#[trigger] c[i]).0),
    ensures
        kvs_put(a + b + c, k, v) == a + kvs_put(b, k, v) + c,
{
    let s = a + b + c;
    assert forall|i: int, j: int| 0 <= i < j < b.len() implies key_lt(
        (#[trigger] b[i]).0,
        (#[trigger] b[j]).0,
    ) by {
        assert(s[a.len() + i] == b[i] && s[a.len() + j] == b[j]);
        assert(key_lt(s[a.len() + i].0, s[a.len() + j].0));
    }
    lemma_rank(b, k);
    lemma_rank(s, k);
    let pb = rank(b, k);
    let p = a.len() + pb;
    assert forall|i: int| 0 <= i < p implies key_lt((#[trigger] s[i]).0, k) by {
        if i < a.len() {
            assert(s[i] == a[i]);
        } else {
            assert(s[i] == b[i - a.len()]);
        }
    }
    assert forall|i: int| p <= i < s.len() implies !key_lt((#[trigger] s[i]).0, k) by {
        if i < a.len() + b.len() {
            assert(s[i] == b[i - a.len()]);
        } else {
            assert(s[i] == c[i - a.len() - b.len()]);
            lemma_key_lt_asymmetric(k, s[i].0);
        }
    }
    lemma_rank_unique(s, k, p, rank(s, k));
    if pb < b.len() {
        assert(s[p] == b[pb]);
    } else if p < s.len() {
        assert(s[p] == c[0]);
        lemma_key_lt_asymmetric(k, c[0].0);
    }
    assert(kvs_put(s, k, v) =~= a + kvs_put(b, k, v) + c);
}

/// A key greater than every key of a sorted sequence is put at its end.
pub proof fn lemma_put_last(s: Seq<Kv>, k: Seq<u8>, v: Seq<u8>)
    requires
        kvs_sorted(s.push((k, v))),
    ensures
        kvs_put(s, k, v) == s.push((k, v)),
{
    let t = s.push((k, v));
    assert forall|i: int, j: int| 0 <= i < j < s.len() implies key_lt(
        (#[trigger] s[i]).0,
        (#[trigger] s[j]).0,
    ) by {
        assert(key_lt(t[i].0, t[j].0));
    }
    lemma_rank(s, k);
    assert forall|i: int| 0 <= i < s.len() implies key_lt((#[trigger] s[i]).0, k) by {
        assert(key_lt(t[i].0, t[s.len() as int].0));
    }
    lemma_rank_unique(s, k, rank(s, k), s.len() as int);
    assert(kvs_put(s, k, v) =~= s.push((k, v)));
}

/// Pairs that are put in the order of their keys, each key greater than the
/// one before, into an empty sequence make the sequence of these pairs.
pub proof fn lemma_put_increasing_run(run: Seq<Kv>)
    requires
        kvs_sorted(run),
    ensures
        kvs_put_all(Seq::empty(), run) == run,
    decreases run.len(),
{
    if run.len() == 0 {
        assert(run =~= Seq::empty());
    } else {
        let t = run.drop_last();
        assert forall|i: int, j: int| 0 <= i < j < t.len() implies key_lt(
            (#[trigger] t[i]).0,
            (#[trigger] t[j]).0,
        ) by {
            assert(key_lt(run[i].0, run[j].0));
        }
        lemma_put_increasing_run(t);
        assert(t.push(run.last()) =~= run);
        lemma_put_last(t, run.last().0, run.last().1);
    }
}

/// As a map, a sorted sequence with a pair put into it is the map of the
/// sequence with the key set to the value.
#[verifier::rlimit(40)]
pub proof fn lemma_put_map(s: Seq<Kv>, k: Seq<u8>, v: Seq<u8>)
    requires
        kvs_sorted(s),
    ensures
        kvs_map(kvs_put(s, k, v)) == kvs_map(s).insert(k, v),
{
    lemma_rank(s, k);
    lemma_put_sorted(s, k, v);
    let p = rank(s, k);
    let r = kvs_put(s, k, v);
    let updated = p < s.len() && s[p].0 == k;
    assert(r[p] == (k, v));
    assert forall|x: Seq<u8>| kvs_map(r).dom().contains(x) <==> kvs_map(s).insert(
        k,
        v,
    ).dom().contains(x) by {
        if kvs_map(r).dom().contains(x) {
            let i = choose|i: int| 0 <= i < r.len() && (#[trigger] r[i]).0 == x;
            if i != p {
                if updated {
                    assert(s[i].0 == x);
                } else if i < p {
                    assert(s[i].0 == x);
                } else {
                    assert(s[i - 1].0 == x);
                }
            }
        }
        if kvs_map(s).insert(k, v).dom().contains(x) {
            if x == k {
                assert(r[p].0 == x);
            } else {
                let i = choose|i: int| 0 <= i < s.len() && (#[trigger] s[i]).0 == x;
                if updated || i < p {
                    assert(r[i].0 == x);
                } else {
                    assert(r[i + 1].0 == x);
                }
            }
        }
    }
    assert forall|x: Seq<u8>| kvs_map(r).dom().contains(x) implies kvs_map(r)[x] == kvs_map(
        s,
    ).insert(k, v)[x] by {
        let i = choose|i: int| 0 <= i < r.len() && (#[trigger] r[i]).0 == x;
        if x == k {
            lemma_sorted_index(r, i, p);
        } else {
            let j = choose|j: int| 0 <= j < s.len() && (#[trigger] s[j]).0 == x;
            let i2 = if updated || i < p {
                i
            } else {
                i - 1
            };
            assert(s[i2] == r[i]);
            lemma_sorted_index(s, i2, j);
        }
    }
    assert(kvs_map(r) =~= kvs_map(s).insert(k, v));
}

/// In a sorted sequence a key stands at one index only.
pub proof fn lemma_sorted_index(s: Seq<Kv>, i: int, j: int)
    requires
        kvs_sorted(s),
        0 <= i < s.len(),
        0 <= j < s.len(),
        s[i].0 == s[j].0,
    ensures
        i == j,
{
    if i < j {
        assert(key_lt(s[i].0, s[j].0));
    } else if j < i {
        assert(key_lt(s[j].0, s[i].0));
    }
}

} // verus!
