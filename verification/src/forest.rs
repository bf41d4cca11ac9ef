//! Trees in a store of pages: which pages make up a subtree, and what it
//! holds.
use vstd::prelude::*;
use crate::contents::{
    kvs_put, kvs_sorted, lemma_put_concat, lemma_put_sorted, lemma_rank, lemma_rank_unique, rank,
    Kv,
};
use crate::keys::{
    key_le, key_lt, lemma_key_lt_asymmetric, lemma_key_lt_irreflexive, lemma_key_lt_le_transitive,
    lemma_key_lt_transitive,
};
use crate::layout::{
    entries_fit, entry_fits, Entry, NodeView, BNODE_LEAF, BNODE_NODE, BTREE_PAGE_SIZE,
};
use crate::node::BNode;
use crate::split::{piece_ok, split_of};

verus! {

/// Page ids count from 1; 0 is no page.
pub open spec fn has_page(pages: Seq<BNode>, id: int) -> bool {
    1 <= id <= pages.len()
}

/// The page with the given id.
pub open spec fn page_of(pages: Seq<BNode>, id: int) -> BNode {
    pages[id - 1]
}

/// The id that the next page to be stored gets.
pub open spec fn next_id(pages: Seq<BNode>) -> int {
    pages.len() as int + 1
}

/// A node that can stand in the store: complete, and no larger than a page.
pub open spec fn stored_ok(p: BNode) -> bool {
    p.wf() && p.spec_n_bytes() <= BTREE_PAGE_SIZE
}

/// The store `after` holds every page of `before` unchanged, under its id.
pub open spec fn extends(before: Seq<BNode>, after: Seq<BNode>) -> bool {
    &&& before.len() <= after.len()
    &&& forall|i: int| 0 <= i < before.len() ==> #[trigger] after[i] == before[i]
}

/// The entry of an internal node at height `h` leads to a stored page that
/// is a tree of height `h - 1`, not empty, whose first key is the entry's.
pub open spec fn link_ok(pages: Seq<BNode>, e: Entry, h: nat) -> bool
    decreases h, 0nat,
{
    if h == 0 {
        false
    } else {
        let c = page_of(pages, e.ptr);
        &&& has_page(pages, e.ptr)
        &&& stored_ok(c)
        &&& c@.entries.len() >= 1
        &&& c@.entries[0].key == e.key
        &&& node_shape(pages, c@, (h - 1) as nat)
    }
}

/// The node is the root of a tree of height `h`: a leaf at height 0, else an
/// internal node with at least one entry, each leading to a tree of height
/// `h - 1`. Every key and value is within the sizes that a page can take.
pub open spec fn node_shape(pages: Seq<BNode>, node: NodeView, h: nat) -> bool
    decreases h, 1nat,
{
    &&& entries_fit(node.entries)
    &&& if h == 0 {
        node.kind == BNODE_LEAF
    } else {
        &&& node.kind == BNODE_NODE
        &&& node.entries.len() >= 1
        &&& forall|i: int|
            0 <= i < node.entries.len() ==> link_ok(pages, #[trigger] node.entries[i], h)
    }
}

/// The keys and values below the given entries of a node at height `h`, in
/// order: the entries' own at height 0, else those of the children.
pub open spec fn entries_kvs(pages: Seq<BNode>, es: Seq<Entry>, h: nat) -> Seq<Kv>
    decreases h, es.len(),
{
    if es.len() == 0 {
        Seq::empty()
    } else {
        entries_kvs(pages, es.drop_last(), h) + (if h == 0 {
            seq![(es.last().key, es.last().val)]
        } else {
            entries_kvs(pages, page_of(pages, es.last().ptr)@.entries, (h - 1) as nat)
        })
    }
}

/// The keys and values of the tree below a node, in order.
pub open spec fn node_kvs(pages: Seq<BNode>, node: NodeView, h: nat) -> Seq<Kv> {
    entries_kvs(pages, node.entries, h)
}

/// The node is the root of a tree of height `h` whose keys are sorted.
pub open spec fn subtree_ok(pages: Seq<BNode>, node: NodeView, h: nat) -> bool {
    node_shape(pages, node, h) && kvs_sorted(node_kvs(pages, node, h))
}

/// The keys and values of the entries of a leaf.
pub open spec fn leaf_kvs(es: Seq<Entry>) -> Seq<Kv> {
    Seq::new(es.len(), |i: int| (es[i].key, es[i].val))
}

/// Entry `idx` is the one under which `k` belongs: the keys from index 1 up
/// to it are at most `k`, and the next key is greater.
pub open spec fn child_for(es: Seq<Entry>, k: Seq<u8>, idx: int) -> bool {
    &&& 0 <= idx < es.len()
    &&& forall|i: int| 1 <= i <= idx ==> key_le((#[trigger] es[i]).key, k)
    &&& idx + 1 < es.len() ==> key_lt(k, es[idx + 1].key)
}

/// A key belongs under one entry only.
pub proof fn lemma_child_for_unique(es: Seq<Entry>, k: Seq<u8>, i: int, j: int)
    requires
        child_for(es, k, i),
        child_for(es, k, j),
    ensures
        i == j,
{
    if i < j {
        assert(key_le(es[i + 1].key, k));
        lemma_key_lt_asymmetric(k, es[i + 1].key);
    } else if j < i {
        assert(key_le(es[j + 1].key, k));
        lemma_key_lt_asymmetric(k, es[j + 1].key);
    }
}

/// The index of the entry under which `k` belongs.
pub open spec fn lookup_index(es: Seq<Entry>, k: Seq<u8>) -> int {
    choose|i: int| child_for(es, k, i)
}

/// The pages of the tree below a node that putting `k` into it replaces: the
/// children on the way down to the leaf that takes `k`, the lowest first.
pub open spec fn superseded(pages: Seq<BNode>, node: NodeView, h: nat, k: Seq<u8>) -> Seq<int>
    decreases h,
{
    if h == 0 {
        Seq::empty()
    } else {
        let e = node.entries[lookup_index(node.entries, k)];
        superseded(pages, page_of(pages, e.ptr)@, (h - 1) as nat, k).push(e.ptr)
    }
}

/// A store that extends one that extends a third extends the third.
pub proof fn lemma_extends_transitive(a: Seq<BNode>, b: Seq<BNode>, c: Seq<BNode>)
    requires
        extends(a, b),
        extends(b, c),
    ensures
        extends(a, c),
{
    assert forall|i: int| 0 <= i < a.len() implies #[trigger] c[i] == a[i] by {
        assert(b[i] == a[i]);
    }
}

/// A link holds in every store that extends the one it holds in.
pub proof fn lemma_link_extends(before: Seq<BNode>, after: Seq<BNode>, e: Entry, h: nat)
    requires
        extends(before, after),
        link_ok(before, e, h),
    ensures
        link_ok(after, e, h),
    decreases h, 0nat,
{
    assert(after[e.ptr - 1] == before[e.ptr - 1]);
    lemma_shape_extends(before, after, page_of(before, e.ptr)@, (h - 1) as nat);
}

/// A tree stays a tree in every store that extends the one it stands in.
pub proof fn lemma_shape_extends(before: Seq<BNode>, after: Seq<BNode>, node: NodeView, h: nat)
    requires
        extends(before, after),
        node_shape(before, node, h),
    ensures
        node_shape(after, node, h),
    decreases h, 1nat,
{
    if h > 0 {
        assert forall|i: int| 0 <= i < node.entries.len() implies link_ok(
            after,
            #[trigger] node.entries[i],
            h,
        ) by {
            lemma_link_extends(before, after, node.entries[i], h);
        }
    }
}

/// A tree holds the same in every store that extends the one it stands in.
pub proof fn lemma_kvs_extends(before: Seq<BNode>, after: Seq<BNode>, es: Seq<Entry>, h: nat)
    requires
        extends(before, after),
        h > 0 ==> forall|i: int| 0 <= i < es.len() ==> link_ok(before, #[trigger] es[i], h),
    ensures
        entries_kvs(after, es, h) == entries_kvs(before, es, h),
    decreases h, es.len(),
{
    if es.len() > 0 {
        let front = es.drop_last();
        assert forall|i: int| 0 <= i < front.len() && h > 0 implies link_ok(
            before,
            #[trigger] front[i],
            h,
        ) by {
            assert(front[i] == es[i]);
        }
        lemma_kvs_extends(before, after, front, h);
        if h > 0 {
            let e = es.last();
            assert(e == es[es.len() - 1]);
            assert(link_ok(before, e, h));
            assert(after[e.ptr - 1] == before[e.ptr - 1]);
            lemma_kvs_extends(before, after, page_of(before, e.ptr)@.entries, (h - 1) as nat);
        }
    }
}

/// What two runs of entries hold, one after the other.
pub proof fn lemma_kvs_concat(pages: Seq<BNode>, a: Seq<Entry>, b: Seq<Entry>, h: nat)
    ensures
        entries_kvs(pages, a + b, h) == entries_kvs(pages, a, h) + entries_kvs(pages, b, h),
    decreases b.len(),
{
    if b.len() == 0 {
        assert(a + b =~= a);
        assert(entries_kvs(pages, a, h) + entries_kvs(pages, b, h) =~= entries_kvs(pages, a, h));
    } else {
        assert((a + b).drop_last() =~= a + b.drop_last());
        assert((a + b).last() == b.last());
        lemma_kvs_concat(pages, a, b.drop_last(), h);
        let x = if h == 0 {
            seq![(b.last().key, b.last().val)]
        } else {
            entries_kvs(pages, page_of(pages, b.last().ptr)@.entries, (h - 1) as nat)
        };
        assert((entries_kvs(pages, a, h) + entries_kvs(pages, b.drop_last(), h)) + x
            =~= entries_kvs(pages, a, h) + (entries_kvs(pages, b.drop_last(), h) + x));
    }
}

/// What one entry holds.
pub proof fn lemma_kvs_single(pages: Seq<BNode>, e: Entry, h: nat)
    ensures
        entries_kvs(pages, seq![e], h) == if h == 0 {
            seq![(e.key, e.val)]
        } else {
            entries_kvs(pages, page_of(pages, e.ptr)@.entries, (h - 1) as nat)
        },
{
    let es = seq![e];
    assert(es.drop_last() =~= Seq::<Entry>::empty());
    assert(es.last() == e);
    let x = if h == 0 {
        seq![(e.key, e.val)]
    } else {
        entries_kvs(pages, page_of(pages, e.ptr)@.entries, (h - 1) as nat)
    };
    assert(entries_kvs(pages, es.drop_last(), h) =~= Seq::<Kv>::empty());
    assert(Seq::<Kv>::empty() + x =~= x);
}

/// A leaf holds the keys and values of its entries.
pub proof fn lemma_kvs_leaf(pages: Seq<BNode>, es: Seq<Entry>)
    ensures
        entries_kvs(pages, es, 0) == leaf_kvs(es),
    decreases es.len(),
{
    if es.len() == 0 {
        assert(leaf_kvs(es) =~= Seq::<Kv>::empty());
    } else {
        lemma_kvs_leaf(pages, es.drop_last());
        assert(leaf_kvs(es.drop_last()) + seq![(es.last().key, es.last().val)] =~= leaf_kvs(es));
    }
}

/// The first key below a run of entries is the key of its first entry.
pub proof fn lemma_first_key(pages: Seq<BNode>, es: Seq<Entry>, h: nat)
    requires
        es.len() >= 1,
        h > 0 ==> forall|i: int| 0 <= i < es.len() ==> link_ok(pages, #[trigger] es[i], h),
    ensures
        entries_kvs(pages, es, h).len() >= 1,
        entries_kvs(pages, es, h)[0].0 == es[0].key,
    decreases h, es.len(),
{
    let front = es.drop_last();
    let e = es.last();
    assert(e == es[es.len() - 1]);
    if es.len() > 1 {
        assert forall|i: int| 0 <= i < front.len() && h > 0 implies link_ok(
            pages,
            #[trigger] front[i],
            h,
        ) by {
            assert(front[i] == es[i]);
        }
        assert(front[0] == es[0]);
        lemma_first_key(pages, front, h);
    } else {
        assert(entries_kvs(pages, front, h) =~= Seq::<Kv>::empty());
        if h > 0 {
            assert(link_ok(pages, e, h));
            lemma_first_key(pages, page_of(pages, e.ptr)@.entries, (h - 1) as nat);
        }
    }
}

/// A tree has one height only.
pub proof fn lemma_height_unique(pages: Seq<BNode>, node: NodeView, h1: nat, h2: nat)
    requires
        node_shape(pages, node, h1),
        node_shape(pages, node, h2),
    ensures
        h1 == h2,
    decreases h1,
{
    if h1 > 0 && h2 > 0 {
        let e = node.entries[0];
        assert(link_ok(pages, e, h1));
        assert(link_ok(pages, e, h2));
        lemma_height_unique(pages, page_of(pages, e.ptr)@, (h1 - 1) as nat, (h2 - 1) as nat);
    }
}

/// The keys of a node of a sorted tree grow strictly, in a leaf and in an
/// internal node alike.
#[verifier::rlimit(40)]
pub proof fn lemma_node_keys_sorted(pages: Seq<BNode>, node: NodeView, h: nat)
    requires
        subtree_ok(pages, node, h),
    ensures
        crate::layout::entries_sorted(node.entries),
{
    let es = node.entries;
    if h == 0 {
        lemma_kvs_leaf(pages, es);
        lemma_leaf_keys_sorted(es);
    } else {
        let n = es.len() as int;
        let whole = entries_kvs(pages, es, h);
        assert forall|i: int, j: int| 0 <= i < j < n implies key_lt(
            #[trigger] es[i].key,
            #[trigger] es[j].key,
        ) by {
            let a = es.subrange(0, i);
            let b = es.subrange(i, j);
            let c = es.subrange(j, n);
            assert(es =~= a + b + c);
            lemma_kvs_concat(pages, a, b, h);
            lemma_kvs_concat(pages, a + b, c, h);
            assert forall|x: int| 0 <= x < b.len() implies link_ok(pages, #[trigger] b[x], h) by {
                assert(b[x] == es[i + x]);
            }
            assert forall|x: int| 0 <= x < c.len() implies link_ok(pages, #[trigger] c[x], h) by {
                assert(c[x] == es[j + x]);
            }
            lemma_first_key(pages, b, h);
            lemma_first_key(pages, c, h);
            let ka = entries_kvs(pages, a, h);
            let kb = entries_kvs(pages, b, h);
            let kc = entries_kvs(pages, c, h);
            let x: int = ka.len() as int;
            let y: int = ka.len() as int + kb.len() as int;
            assert(whole[x] == kb[0]);
            assert(whole[y] == kc[0]);
            assert(key_lt(whole[x].0, whole[y].0));
        }
    }
}

/// A part of a sorted sequence is sorted.
pub proof fn lemma_sorted_part(a: Seq<Kv>, b: Seq<Kv>, c: Seq<Kv>)
    requires
        kvs_sorted(a + b + c),
    ensures
        kvs_sorted(b),
{
    let s = a + b + c;
    assert forall|i: int, j: int| 0 <= i < j < b.len() implies key_lt(
        (#[trigger] b[i]).0,
        (#[trigger] b[j]).0,
    ) by {
        assert(s[a.len() + i] == b[i] && s[a.len() + j] == b[j]);
        assert(key_lt(s[a.len() + i].0, s[a.len() + j].0));
    }
}

/// The entry that stands for a key and a value in a leaf.
pub open spec fn leaf_entry(k: Seq<u8>, v: Seq<u8>) -> Entry {
    Entry { ptr: 0, key: k, val: v }
}

/// The keys of a leaf whose pairs are sorted grow strictly.
pub proof fn lemma_leaf_keys_sorted(es: Seq<Entry>)
    requires
        kvs_sorted(leaf_kvs(es)),
    ensures
        crate::layout::entries_sorted(es),
{
    let s = leaf_kvs(es);
    assert forall|i: int, j: int| 0 <= i < j < es.len() implies key_lt(
        #[trigger] es[i].key,
        #[trigger] es[j].key,
    ) by {
        assert(key_lt(s[i].0, s[j].0));
    }
}

/// Replacing the entry of a leaf that has the key `k` puts `k` with its
/// value into what the leaf holds.
pub proof fn lemma_leaf_update(es: Seq<Entry>, idx: int, k: Seq<u8>, v: Seq<u8>)
    requires
        kvs_sorted(leaf_kvs(es)),
        0 <= idx < es.len(),
        es[idx].key == k,
    ensures
        leaf_kvs(es.update(idx, leaf_entry(k, v))) == kvs_put(leaf_kvs(es), k, v),
{
    let s = leaf_kvs(es);
    lemma_rank(s, k);
    assert forall|i: int| 0 <= i < idx implies key_lt((#[trigger] s[i]).0, k) by {
        assert(key_lt(s[i].0, s[idx].0));
    }
    assert forall|i: int| idx <= i < s.len() implies !key_lt((#[trigger] s[i]).0, k) by {
        if i == idx {
            lemma_key_lt_irreflexive(k);
        } else {
            assert(key_lt(s[idx].0, s[i].0));
            lemma_key_lt_asymmetric(k, s[i].0);
        }
    }
    lemma_rank_unique(s, k, idx, rank(s, k));
    assert(leaf_kvs(es.update(idx, leaf_entry(k, v))) =~= s.update(idx, (k, v)));
}

/// Adding an entry to a leaf between the keys smaller than `k` and the keys
/// greater puts `k` with its value into what the leaf holds.
pub proof fn lemma_leaf_insert(es: Seq<Entry>, pos: int, k: Seq<u8>, v: Seq<u8>)
    requires
        kvs_sorted(leaf_kvs(es)),
        0 <= pos <= es.len(),
        forall|i: int| 0 <= i < pos ==> key_lt((#[trigger] es[i]).key, k),
        forall|i: int| pos <= i < es.len() ==> key_lt(k, (#[trigger] es[i]).key),
    ensures
        leaf_kvs(es.insert(pos, leaf_entry(k, v))) == kvs_put(leaf_kvs(es), k, v),
{
    let s = leaf_kvs(es);
    lemma_rank(s, k);
    assert forall|i: int| 0 <= i < pos implies key_lt((#[trigger] s[i]).0, k) by {
        assert(key_lt(es[i].key, k));
    }
    assert forall|i: int| pos <= i < s.len() implies !key_lt((#[trigger] s[i]).0, k) by {
        assert(key_lt(k, es[i].key));
        lemma_key_lt_asymmetric(k, s[i].0);
    }
    lemma_rank_unique(s, k, pos, rank(s, k));
    if pos < s.len() {
        assert(key_lt(k, es[pos].key));
        lemma_key_lt_asymmetric(k, s[pos].0);
    }
    assert(leaf_kvs(es.insert(pos, leaf_entry(k, v))) =~= s.insert(pos, (k, v)));
}

/// An entry added to sorted entries between the keys smaller than its key
/// and the keys greater leaves them sorted, one more than before, with the
/// new entry at its index and every old entry in its old order.
pub proof fn lemma_insert_keeps_sorted(es: Seq<Entry>, pos: int, e: Entry)
    requires
        crate::layout::entries_sorted(es),
        0 <= pos <= es.len(),
        forall|i: int| 0 <= i < pos ==> key_lt((#[trigger] es[i]).key, e.key),
        forall|i: int| pos <= i < es.len() ==> key_lt(e.key, (#[trigger] es[i]).key),
    ensures
        crate::layout::entries_sorted(es.insert(pos, e)),
        es.insert(pos, e).len() == es.len() + 1,
        es.insert(pos, e)[pos] == e,
        forall|i: int| 0 <= i < pos ==> (#[trigger] es.insert(pos, e)[i]) == es[i],
        forall|i: int| pos < i <= es.len() ==> (#[trigger] es.insert(pos, e)[i]) == es[i - 1],
{
    let r = es.insert(pos, e);
    assert forall|i: int, j: int| 0 <= i < j < r.len() implies key_lt(
        #[trigger] r[i].key,
        #[trigger] r[j].key,
    ) by {
        if j < pos {
            assert(key_lt(es[i].key, es[j].key));
        } else if j == pos {
            assert(key_lt(es[i].key, e.key));
        } else if i == pos {
            assert(key_lt(e.key, es[j - 1].key));
        } else if i < pos {
            assert(key_lt(es[i].key, es[j - 1].key));
        } else {
            assert(key_lt(es[i - 1].key, es[j - 1].key));
        }
    }
}

/// Adding an entry before the one that the search found, whose key is
/// greater than `k`: this is the first entry, and `k` is put before it.
pub proof fn lemma_leaf_insert_low(es: Seq<Entry>, k: Seq<u8>, v: Seq<u8>, idx: int)
    requires
        kvs_sorted(leaf_kvs(es)),
        0 <= idx < es.len(),
        key_lt(k, es[idx].key),
        forall|i: int| 1 <= i <= idx ==> key_le((#[trigger] es[i]).key, k),
    ensures
        idx == 0,
        leaf_kvs(es.insert(idx, leaf_entry(k, v))) == kvs_put(leaf_kvs(es), k, v),
{
    if idx >= 1 {
        assert(key_le(es[idx].key, k));
        lemma_key_lt_asymmetric(k, es[idx].key);
    }
    lemma_leaf_keys_sorted(es);
    assert forall|i: int| 0 <= i < es.len() implies key_lt(k, (#[trigger] es[i]).key) by {
        if i > 0 {
            lemma_key_lt_transitive(k, es[0].key, es[i].key);
        }
    }
    lemma_leaf_insert(es, 0, k, v);
}

/// Adding an entry behind the one that the search found, whose key is
/// smaller than `k`, where the keys behind it are greater.
pub proof fn lemma_leaf_insert_high(es: Seq<Entry>, k: Seq<u8>, v: Seq<u8>, idx: int)
    requires
        kvs_sorted(leaf_kvs(es)),
        0 <= idx < es.len(),
        key_lt(es[idx].key, k),
        forall|j: int| idx < j < es.len() ==> key_lt(k, (#[trigger] es[j]).key),
    ensures
        leaf_kvs(es.insert(idx + 1, leaf_entry(k, v))) == kvs_put(leaf_kvs(es), k, v),
{
    lemma_leaf_keys_sorted(es);
    assert forall|i: int| 0 <= i < idx + 1 implies key_lt((#[trigger] es[i]).key, k) by {
        if i < idx {
            lemma_key_lt_transitive(es[i].key, es[idx].key, k);
        }
    }
    lemma_leaf_insert(es, idx + 1, k, v);
}

/// The child at entry `idx` of a tree with sorted keys has sorted keys.
pub proof fn lemma_child_sorted(pages: Seq<BNode>, es: Seq<Entry>, idx: int, h: nat)
    requires
        h >= 1,
        0 <= idx < es.len(),
        kvs_sorted(entries_kvs(pages, es, h)),
    ensures
        kvs_sorted(entries_kvs(pages, page_of(pages, es[idx].ptr)@.entries, (h - 1) as nat)),
{
    let a = es.subrange(0, idx);
    let c = es.subrange(idx + 1, es.len() as int);
    let e = es[idx];
    assert(es =~= a + seq![e] + c);
    lemma_kvs_concat(pages, a, seq![e], h);
    lemma_kvs_concat(pages, a + seq![e], c, h);
    lemma_kvs_single(pages, e, h);
    lemma_sorted_part(
        entries_kvs(pages, a, h),
        entries_kvs(pages, seq![e], h),
        entries_kvs(pages, c, h),
    );
}

/// The entries that stand in a parent for the nodes of a split, once these
/// have been stored under the ids from `first_id` on.
pub open spec fn links(pieces: Seq<BNode>, first_id: int) -> Seq<Entry> {
    Seq::new(
        pieces.len(),
        |j: int| Entry { ptr: first_id + j, key: pieces[j]@.entries[0].key, val: Seq::empty() },
    )
}

/// Piece `j` of a split of a tree of height `h` is itself such a tree.
pub proof fn lemma_piece_shape(
    before: Seq<BNode>,
    after: Seq<BNode>,
    whole: BNode,
    pieces: Seq<BNode>,
    h: nat,
    j: int,
)
    requires
        node_shape(before, whole@, h),
        whole@.entries.len() >= 1,
        split_of(whole, pieces),
        extends(before, after),
        0 <= j < pieces.len(),
    ensures
        node_shape(after, pieces[j]@, h),
        pieces[j]@.entries.len() >= 1,
        entry_fits(pieces[j]@.entries[0]),
{
    let es = whole@.entries;
    let ps = pieces[j]@.entries;
    let n0 = pieces[0]@.entries.len() as int;
    let start: int = if j == 0 {
        0
    } else if j == 1 {
        n0
    } else {
        n0 + pieces[1]@.entries.len()
    };
    assert(piece_ok(whole, pieces[j]));
    assert(pieces.len() > 1 ==> pieces[j].spec_nkeys() >= 1);
    assert forall|i: int| 0 <= i < ps.len() implies #[trigger] ps[i] == es[start + i] by {}
    lemma_shape_extends(before, after, whole@, h);
    assert forall|i: int| 0 <= i < ps.len() implies entry_fits(#[trigger] ps[i]) by {
        assert(ps[i] == es[start + i]);
    }
    if h > 0 {
        assert forall|i: int| 0 <= i < ps.len() implies link_ok(after, #[trigger] ps[i], h) by {
            assert(ps[i] == es[start + i]);
        }
    }
}

/// Once the nodes of a split are stored, their links lead to trees that
/// together hold what the node that was split holds.
#[verifier::rlimit(40)]
pub proof fn lemma_pieces_linked(
    before: Seq<BNode>,
    after: Seq<BNode>,
    whole: BNode,
    pieces: Seq<BNode>,
    first_id: int,
    h: nat,
)
    requires
        node_shape(before, whole@, h),
        whole@.entries.len() >= 1,
        split_of(whole, pieces),
        extends(before, after),
        before.len() < first_id,
        first_id + pieces.len() <= after.len() + 1,
        forall|j: int|
            0 <= j < pieces.len() ==> stored_ok(#[trigger] page_of(after, first_id + j))
                && page_of(after, first_id + j)@ == pieces[j]@,
    ensures
        entries_fit(links(pieces, first_id)),
        forall|j: int|
            0 <= j < pieces.len() ==> link_ok(
                after,
                #[trigger] links(pieces, first_id)[j],
                h + 1,
            ),
        entries_kvs(after, links(pieces, first_id), h + 1) == entries_kvs(
            before,
            whole@.entries,
            h,
        ),
{
    let ls = links(pieces, first_id);
    let hh: nat = h + 1;
    assert forall|j: int| 0 <= j < pieces.len() implies link_ok(after, #[trigger] ls[j], hh)
        && entry_fits(ls[j]) by {
        lemma_piece_shape(before, after, whole, pieces, h, j);
        assert(stored_ok(page_of(after, first_id + j)));
    }
    let k0 = entries_kvs(after, pieces[0]@.entries, h);
    lemma_kvs_single(after, ls[0], hh);
    lemma_kvs_extends(before, after, whole@.entries, h);
    assert(stored_ok(page_of(after, first_id + 0)));
    if pieces.len() == 1 {
        assert(ls =~= seq![ls[0]]);
    } else if pieces.len() == 2 {
        assert(stored_ok(page_of(after, first_id + 1)));
        assert(ls =~= seq![ls[0]] + seq![ls[1]]);
        lemma_kvs_single(after, ls[1], hh);
        lemma_kvs_concat(after, seq![ls[0]], seq![ls[1]], hh);
        lemma_kvs_concat(after, pieces[0]@.entries, pieces[1]@.entries, h);
    } else {
        assert(stored_ok(page_of(after, first_id + 1)));
        assert(stored_ok(page_of(after, first_id + 2)));
        assert(ls =~= seq![ls[0]] + seq![ls[1]] + seq![ls[2]]);
        lemma_kvs_single(after, ls[1], hh);
        lemma_kvs_single(after, ls[2], hh);
        lemma_kvs_concat(after, seq![ls[0]], seq![ls[1]], hh);
        lemma_kvs_concat(after, seq![ls[0]] + seq![ls[1]], seq![ls[2]], hh);
        lemma_kvs_concat(after, pieces[0]@.entries, pieces[1]@.entries, h);
        lemma_kvs_concat(
            after,
            pieces[0]@.entries + pieces[1]@.entries,
            pieces[2]@.entries,
            h,
        );
    }
}

/// The entries of an internal node with entry `idx` replaced by `ls`.
pub open spec fn with_links(es: Seq<Entry>, idx: int, ls: Seq<Entry>) -> Seq<Entry> {
    es.subrange(0, idx) + ls + es.subrange(idx + 1, es.len() as int)
}

/// Where the child under which `k` belongs is replaced by trees that hold
/// what it held with `k` put in, the parent holds what it held with `k` put
/// in, and is a tree as before.
#[verifier::rlimit(40)]
pub proof fn lemma_child_replaced(
    before: Seq<BNode>,
    after: Seq<BNode>,
    es: Seq<Entry>,
    idx: int,
    h: nat,
    ls: Seq<Entry>,
    k: Seq<u8>,
    v: Seq<u8>,
)
    requires
        h >= 1,
        entries_fit(es),
        forall|i: int| 0 <= i < es.len() ==> link_ok(before, #[trigger] es[i], h),
        kvs_sorted(entries_kvs(before, es, h)),
        child_for(es, k, idx),
        extends(before, after),
        ls.len() >= 1,
        entries_fit(ls),
        forall|j: int| 0 <= j < ls.len() ==> link_ok(after, #[trigger] ls[j], h),
        entries_kvs(after, ls, h) == kvs_put(
            entries_kvs(before, page_of(before, es[idx].ptr)@.entries, (h - 1) as nat),
            k,
            v,
        ),
    ensures
        entries_fit(with_links(es, idx, ls)),
        forall|i: int|
            0 <= i < with_links(es, idx, ls).len() ==> link_ok(
                after,
                #[trigger] with_links(es, idx, ls)[i],
                h,
            ),
        entries_kvs(after, with_links(es, idx, ls), h) == kvs_put(entries_kvs(before, es, h), k, v),
        kvs_sorted(entries_kvs(after, with_links(es, idx, ls), h)),
{
    let n = es.len() as int;
    let a = es.subrange(0, idx);
    let c = es.subrange(idx + 1, n);
    let e = es[idx];
    let es2 = with_links(es, idx, ls);
    let ka = entries_kvs(before, a, h);
    let kc = entries_kvs(before, seq![e], h);
    let kz = entries_kvs(before, c, h);
    let whole = entries_kvs(before, es, h);
    assert(es =~= a + seq![e] + c);
    lemma_kvs_concat(before, a, seq![e], h);
    lemma_kvs_concat(before, a + seq![e], c, h);
    lemma_kvs_single(before, e, h);
    assert(whole == ka + kc + kz);
    assert forall|i: int| 0 <= i < a.len() implies link_ok(before, #[trigger] a[i], h) by {
        assert(a[i] == es[i]);
    }
    assert forall|i: int| 0 <= i < c.len() implies link_ok(before, #[trigger] c[i], h) by {
        assert(c[i] == es[idx + 1 + i]);
    }
    lemma_kvs_extends(before, after, a, h);
    lemma_kvs_extends(before, after, c, h);
    lemma_kvs_concat(after, a, ls, h);
    lemma_kvs_concat(after, a + ls, c, h);
    assert(entries_kvs(after, es2, h) == ka + kvs_put(kc, k, v) + kz);
    assert(link_ok(before, e, h));
    lemma_first_key(before, seq![e], h);
    assert forall|i: int| 0 <= i < ka.len() implies key_lt((#[trigger] ka[i]).0, k) by {
        assert(idx >= 1);
        assert(key_le(es[idx].key, k));
        assert(whole[i] == ka[i] && whole[ka.len() as int] == kc[0]);
        assert(key_lt(whole[i].0, whole[ka.len() as int].0));
        lemma_key_lt_le_transitive(ka[i].0, e.key, k);
    }
    assert forall|i: int| 0 <= i < kz.len() implies key_lt(k, (#[trigger] kz[i]).0) by {
        assert(c.len() >= 1);
        assert(c[0] == es[idx + 1]);
        lemma_first_key(before, c, h);
        let base: int = ka.len() as int + kc.len() as int;
        if i > 0 {
            assert(whole[base + 0] == kz[0] && whole[base + i] == kz[i]);
            assert(key_lt(whole[base + 0].0, whole[base + i].0));
            lemma_key_lt_transitive(k, kz[0].0, kz[i].0);
        }
    }
    lemma_put_concat(ka, kc, kz, k, v);
    lemma_put_sorted(whole, k, v);
    assert forall|i: int| 0 <= i < es2.len() implies link_ok(after, #[trigger] es2[i], h)
        && entry_fits(es2[i]) by {
        if i < idx {
            assert(es2[i] == es[i]);
            lemma_link_extends(before, after, es[i], h);
        } else if i < idx + ls.len() {
            assert(es2[i] == ls[i - idx]);
        } else {
            assert(es2[i] == es[i - ls.len() + 1]);
            lemma_link_extends(before, after, es[i - ls.len() + 1], h);
        }
    }
}

} // verus!
