//! Which pages a tree is made of, and that an insert releases none of the
//! pages that the new tree still needs.
use vstd::prelude::*;
use crate::contents::Kv;
use crate::forest::{
    child_for, entries_kvs, extends, has_page, lemma_child_for_unique, lemma_extends_transitive,
    lemma_first_key, lemma_height_unique, lemma_kvs_concat, lemma_kvs_single, link_ok, links,
    lookup_index, next_id, node_kvs, node_shape, page_of, subtree_ok, superseded, with_links,
};
use crate::keys::{key_le, key_lt, lemma_key_lt_irreflexive, lemma_key_trichotomy};
use crate::layout::{Entry, NodeView};
use crate::node::BNode;
use crate::split::split_of;

verus! {

/// Page `id` is the child that the entry leads to, or belongs to the tree
/// below that child.
pub open spec fn under(pages: Seq<BNode>, e: Entry, h: nat, id: int) -> bool
    decreases h, 0nat,
{
    h > 0 && (e.ptr == id || reaches(pages, page_of(pages, e.ptr)@, (h - 1) as nat, id))
}

/// Page `id` belongs to the tree of height `h` below the node, the node
/// itself not counted.
pub open spec fn reaches(pages: Seq<BNode>, node: NodeView, h: nat, id: int) -> bool
    decreases h, 1nat,
{
    h > 0 && exists|i: int|
        0 <= i < node.entries.len() && under(pages, #[trigger] node.entries[i], h, id)
}

/// The key `k` is among the pairs.
pub open spec fn has_key(s: Seq<Kv>, k: Seq<u8>) -> bool {
    exists|x: int| 0 <= x < s.len() && (#[trigger] s[x]).0 == k
}

/// What the entries hold is what the entries before index `i` hold, then what
/// entry `i` holds, then what the entries behind it hold.
pub proof fn lemma_kvs_split_at(pages: Seq<BNode>, es: Seq<Entry>, i: int, h: nat)
    requires
        0 <= i < es.len(),
    ensures
        entries_kvs(pages, es, h) == entries_kvs(pages, es.subrange(0, i), h) + entries_kvs(
            pages,
            seq![es[i]],
            h,
        ) + entries_kvs(pages, es.subrange(i + 1, es.len() as int), h),
        h > 0 ==> entries_kvs(pages, seq![es[i]], h) == entries_kvs(
            pages,
            page_of(pages, es[i].ptr)@.entries,
            (h - 1) as nat,
        ),
{
    let a = es.subrange(0, i);
    let c = es.subrange(i + 1, es.len() as int);
    assert(es =~= a + seq![es[i]] + c);
    lemma_kvs_concat(pages, a, seq![es[i]], h);
    lemma_kvs_concat(pages, a + seq![es[i]], c, h);
    lemma_kvs_single(pages, es[i], h);
}

/// A page of a tree is a stored page, itself the root of a lower tree, and
/// its first key is one of the keys of the tree.
pub proof fn lemma_reached_page(pages: Seq<BNode>, node: NodeView, h: nat, id: int)
    requires
        node_shape(pages, node, h),
        reaches(pages, node, h, id),
    ensures
        has_page(pages, id),
        exists|hh: nat| hh < h && node_shape(pages, page_of(pages, id)@, hh),
        page_of(pages, id)@.entries.len() >= 1,
        has_key(node_kvs(pages, node, h), page_of(pages, id)@.entries[0].key),
    decreases h,
{
    let es = node.entries;
    let i = choose|i: int| 0 <= i < es.len() && under(pages, #[trigger] es[i], h, id);
    lemma_under_page(pages, node, h, i, id);
}

/// The same for a page under a given entry of the node.
#[verifier::rlimit(40)]
pub proof fn lemma_under_page(pages: Seq<BNode>, node: NodeView, h: nat, i: int, id: int)
    requires
        node_shape(pages, node, h),
        0 <= i < node.entries.len(),
        under(pages, node.entries[i], h, id),
    ensures
        has_page(pages, id),
        exists|hh: nat| hh < h && node_shape(pages, page_of(pages, id)@, hh),
        page_of(pages, id)@.entries.len() >= 1,
        has_key(
            entries_kvs(pages, page_of(pages, node.entries[i].ptr)@.entries, (h - 1) as nat),
            page_of(pages, id)@.entries[0].key,
        ),
        has_key(node_kvs(pages, node, h), page_of(pages, id)@.entries[0].key),
    decreases h, 0nat,
{
    let es = node.entries;
    let e = es[i];
    let c = page_of(pages, e.ptr);
    let hk: nat = (h - 1) as nat;
    let fk = page_of(pages, id)@.entries[0].key;
    assert(link_ok(pages, e, h));
    let kc = entries_kvs(pages, c@.entries, hk);
    if e.ptr == id {
        lemma_first_key(pages, c@.entries, hk);
        assert(node_shape(pages, page_of(pages, id)@, hk));
        assert(kc[0].0 == fk);
    } else {
        lemma_reached_page(pages, c@, hk, id);
        let hh = choose|hh: nat| hh < hk && node_shape(pages, page_of(pages, id)@, hh);
        assert(hh < h && node_shape(pages, page_of(pages, id)@, hh));
    }
    let x = choose|x: int| 0 <= x < kc.len() && (#[trigger] kc[x]).0 == fk;
    lemma_kvs_split_at(pages, es, i, h);
    let ka = entries_kvs(pages, es.subrange(0, i), h);
    let whole = node_kvs(pages, node, h);
    assert(whole[ka.len() + x] == kc[x]);
}

/// The tree below a node is made of the same pages in every store that
/// extends the one it stands in.
pub proof fn lemma_reaches_extends(
    before: Seq<BNode>,
    after: Seq<BNode>,
    node: NodeView,
    h: nat,
    id: int,
)
    requires
        extends(before, after),
        node_shape(before, node, h),
    ensures
        reaches(after, node, h, id) == reaches(before, node, h, id),
    decreases h,
{
    if h > 0 {
        let es = node.entries;
        assert forall|i: int| 0 <= i < es.len() implies under(after, #[trigger] es[i], h, id)
            == under(before, es[i], h, id) by {
            assert(link_ok(before, es[i], h));
            assert(after[es[i].ptr - 1] == before[es[i].ptr - 1]);
            lemma_reaches_extends(
                before,
                after,
                page_of(before, es[i].ptr)@,
                (h - 1) as nat,
                id,
            );
        }
        if reaches(after, node, h, id) {
            let i = choose|i: int| 0 <= i < es.len() && under(after, #[trigger] es[i], h, id);
            assert(under(before, es[i], h, id));
        }
        if reaches(before, node, h, id) {
            let i = choose|i: int| 0 <= i < es.len() && under(before, #[trigger] es[i], h, id);
            assert(under(after, es[i], h, id));
        }
    }
}

/// With the keys from index 1 up to `i` at most `k`, the key belongs under
/// an entry from `i` on.
proof fn lemma_child_for_from(es: Seq<Entry>, k: Seq<u8>, i: int)
    requires
        0 <= i < es.len(),
        forall|x: int| 1 <= x <= i ==> key_le((#[trigger] es[x]).key, k),
    ensures
        exists|idx: int| child_for(es, k, idx),
    decreases es.len() - i,
{
    if i + 1 < es.len() && key_le(es[i + 1].key, k) {
        lemma_child_for_from(es, k, i + 1);
    } else {
        if i + 1 < es.len() {
            lemma_key_trichotomy(es[i + 1].key, k);
        }
        assert(child_for(es, k, i));
    }
}

/// In a node that is not empty every key belongs under some entry.
pub proof fn lemma_child_for_exists(es: Seq<Entry>, k: Seq<u8>)
    requires
        es.len() >= 1,
    ensures
        child_for(es, k, lookup_index(es, k)),
{
    lemma_child_for_from(es, k, 0);
}

/// A page that putting `k` into a tree replaces is a page of that tree, on
/// the way down to where `k` belongs.
pub proof fn lemma_superseded_under(pages: Seq<BNode>, node: NodeView, h: nat, k: Seq<u8>, x: int)
    requires
        node_shape(pages, node, h),
        superseded(pages, node, h, k).contains(x),
    ensures
        h > 0,
        under(pages, node.entries[lookup_index(node.entries, k)], h, x),
        reaches(pages, node, h, x),
    decreases h,
{
    if h > 0 {
        let es = node.entries;
        lemma_child_for_exists(es, k);
        let idx = lookup_index(es, k);
        let e = es[idx];
        let below = superseded(pages, page_of(pages, e.ptr)@, (h - 1) as nat, k);
        let all = below.push(e.ptr);
        let at = choose|at: int| 0 <= at < all.len() && all[at] == x;
        if at < below.len() {
            assert(below[at] == x);
            assert(below.contains(x));
            assert(link_ok(pages, e, h));
            lemma_superseded_under(pages, page_of(pages, e.ptr)@, (h - 1) as nat, k, x);
        }
        assert(under(pages, es[idx], h, x));
    }
}

/// No page belongs to the trees under two entries of a node of a sorted
/// tree: the keys below the one are smaller than the keys below the other.
#[verifier::rlimit(40)]
pub proof fn lemma_siblings_apart(
    pages: Seq<BNode>,
    node: NodeView,
    h: nat,
    i: int,
    j: int,
    id: int,
)
    requires
        subtree_ok(pages, node, h),
        0 <= i < j < node.entries.len(),
        under(pages, node.entries[i], h, id),
    ensures
        !under(pages, node.entries[j], h, id),
{
    if under(pages, node.entries[j], h, id) {
        let es = node.entries;
        let hk: nat = (h - 1) as nat;
        let fk = page_of(pages, id)@.entries[0].key;
        lemma_under_page(pages, node, h, i, id);
        lemma_under_page(pages, node, h, j, id);
        let ki = entries_kvs(pages, page_of(pages, es[i].ptr)@.entries, hk);
        let kj = entries_kvs(pages, page_of(pages, es[j].ptr)@.entries, hk);
        let x = choose|x: int| 0 <= x < ki.len() && (#[trigger] ki[x]).0 == fk;
        let y = choose|y: int| 0 <= y < kj.len() && (#[trigger] kj[y]).0 == fk;
        let whole = node_kvs(pages, node, h);
        // the pairs below entry `i` lie in the part before entry `j`
        let front = es.subrange(0, j);
        let back = es.subrange(j + 1, es.len() as int);
        lemma_kvs_split_at(pages, es, j, h);
        lemma_kvs_split_at(pages, front, i, h);
        assert(front[i] == es[i]);
        let kf = entries_kvs(pages, front, h);
        let ka = entries_kvs(pages, front.subrange(0, i), h);
        assert(kf[ka.len() + x] == ki[x]);
        assert(whole[ka.len() + x] == ki[x]);
        assert(whole[kf.len() + y] == kj[y]);
        assert(key_lt(whole[ka.len() + x].0, whole[kf.len() + y].0));
        lemma_key_lt_irreflexive(fk);
    }
}

/// Every page of the tree below `grown` in the store `after` is new, or is a
/// page of the tree below `node` in the store `before` that putting `k` into
/// that tree did not replace.
pub open spec fn keeps_clear(
    before: Seq<BNode>,
    node: NodeView,
    after: Seq<BNode>,
    grown: NodeView,
    h: nat,
    k: Seq<u8>,
) -> bool {
    forall|id: int| #[trigger]
        reaches(after, grown, h, id) ==> id > before.len() || (reaches(before, node, h, id)
            && !superseded(before, node, h, k).contains(id))
}

/// A page of the tree below a node of a split is a page of the tree below
/// the node that was split.
pub proof fn lemma_piece_reaches(
    pages: Seq<BNode>,
    whole: BNode,
    pieces: Seq<BNode>,
    q: int,
    h: nat,
    id: int,
)
    requires
        split_of(whole, pieces),
        0 <= q < pieces.len(),
        reaches(pages, pieces[q]@, h, id),
    ensures
        reaches(pages, whole@, h, id),
{
    let es = whole@.entries;
    let ps = pieces[q]@.entries;
    let n0 = pieces[0]@.entries.len() as int;
    let start: int = if q == 0 {
        0
    } else if q == 1 {
        n0
    } else {
        n0 + pieces[1]@.entries.len()
    };
    let i = choose|i: int| 0 <= i < ps.len() && under(pages, #[trigger] ps[i], h, id);
    assert(ps[i] == es[start + i]);
    assert(under(pages, es[start + i], h, id));
}

/// A page under the link to a node of a split is new, or it was a page of the
/// tree that was grown and has not been replaced.
pub proof fn lemma_link_clear(
    before: Seq<BNode>,
    node: NodeView,
    mid: Seq<BNode>,
    grown: BNode,
    pieces: Seq<BNode>,
    after: Seq<BNode>,
    h: nat,
    k: Seq<u8>,
    q: int,
    id: int,
)
    requires
        extends(before, mid),
        extends(mid, after),
        node_shape(mid, grown@, h),
        keeps_clear(before, node, mid, grown@, h, k),
        split_of(grown, pieces),
        0 <= q < pieces.len(),
        has_page(after, next_id(mid) + q),
        page_of(after, next_id(mid) + q)@ == pieces[q]@,
        under(after, links(pieces, next_id(mid))[q], h + 1, id),
    ensures
        id > before.len() || (reaches(before, node, h, id) && !superseded(
            before,
            node,
            h,
            k,
        ).contains(id)),
{
    let link = links(pieces, next_id(mid))[q];
    if link.ptr != id {
        assert(reaches(after, pieces[q]@, h, id));
        lemma_piece_reaches(after, grown, pieces, q, h, id);
        lemma_reaches_extends(mid, after, grown@, h, id);
        assert(reaches(mid, grown@, h, id));
    }
}

/// Where the child under which `k` belongs is replaced by the nodes of a
/// split of the grown child, the pages of the new tree are new, or pages of
/// the old tree that were not replaced.
#[verifier::rlimit(40)]
pub proof fn lemma_replaced_clear(
    before: Seq<BNode>,
    node: NodeView,
    mid: Seq<BNode>,
    grown: BNode,
    pieces: Seq<BNode>,
    after: Seq<BNode>,
    h: nat,
    k: Seq<u8>,
    idx: int,
    new_node: NodeView,
)
    requires
        h >= 1,
        subtree_ok(before, node, h),
        child_for(node.entries, k, idx),
        extends(before, mid),
        extends(mid, after),
        node_shape(mid, grown@, (h - 1) as nat),
        keeps_clear(
            before,
            page_of(before, node.entries[idx].ptr)@,
            mid,
            grown@,
            (h - 1) as nat,
            k,
        ),
        split_of(grown, pieces),
        forall|q: int|
            0 <= q < pieces.len() ==> has_page(after, next_id(mid) + q) && (#[trigger] page_of(
                after,
                next_id(mid) + q,
            ))@ == pieces[q]@,
        new_node.entries == with_links(node.entries, idx, links(pieces, next_id(mid))),
    ensures
        keeps_clear(before, node, after, new_node, h, k),
{
    let es = node.entries;
    let es2 = new_node.entries;
    let ls = links(pieces, next_id(mid));
    let hk: nat = (h - 1) as nat;
    let kid = page_of(before, es[idx].ptr)@;
    let gone = superseded(before, node, h, k);
    lemma_child_for_unique(es, k, idx, lookup_index(es, k));
    assert(gone == superseded(before, kid, hk, k).push(es[idx].ptr));
    assert(link_ok(before, es[idx], h));
    assert forall|id: int| #[trigger] reaches(after, new_node, h, id) implies id > before.len() || (
    reaches(before, node, h, id) && !gone.contains(id)) by {
        let i2 = choose|i2: int| 0 <= i2 < es2.len() && under(after, #[trigger] es2[i2], h, id);
        if idx <= i2 < idx + ls.len() {
            let q = i2 - idx;
            assert(es2[i2] == ls[q]);
            assert(page_of(after, next_id(mid) + q)@ == pieces[q]@);
            lemma_link_clear(before, kid, mid, grown, pieces, after, hk, k, q, id);
            if id <= before.len() {
                assert(under(before, es[idx], h, id));
                if gone.contains(id) {
                    let at = choose|at: int| 0 <= at < gone.len() && gone[at] == id;
                    if at < gone.len() - 1 {
                        assert(superseded(before, kid, hk, k)[at] == id);
                        assert(superseded(before, kid, hk, k).contains(id));
                    } else {
                        assert(id == es[idx].ptr);
                        lemma_reached_page(before, kid, hk, id);
                        let hh = choose|hh: nat|
                            hh < hk && node_shape(before, page_of(before, id)@, hh);
                        lemma_height_unique(before, kid, hk, hh);
                    }
                }
            }
        } else {
            let j: int = if i2 < idx {
                i2
            } else {
                i2 - ls.len() + 1
            };
            assert(es2[i2] == es[j]);
            assert(link_ok(before, es[j], h));
            lemma_extends_transitive(before, mid, after);
            assert(after[es[j].ptr - 1] == before[es[j].ptr - 1]);
            lemma_reaches_extends(before, after, page_of(before, es[j].ptr)@, hk, id);
            assert(under(before, es[j], h, id));
            lemma_under_page(before, node, h, j, id);
            if gone.contains(id) {
                lemma_superseded_under(before, node, h, k, id);
                if j < idx {
                    lemma_siblings_apart(before, node, h, j, idx, id);
                } else {
                    lemma_siblings_apart(before, node, h, idx, j, id);
                }
            }
        }
    }
}

/// Every page that was added to the store belongs to the tree below
/// `grown`, and every page of the tree below `node` belongs to it too or is
/// one that putting `k` into the tree replaced.
pub open spec fn brings_all(
    before: Seq<BNode>,
    node: NodeView,
    after: Seq<BNode>,
    grown: NodeView,
    h: nat,
    k: Seq<u8>,
) -> bool {
    &&& forall|id: int| before.len() < id <= after.len() ==> #[trigger] reaches(after, grown, h, id)
    &&& forall|id: int| #[trigger]
        reaches(before, node, h, id) ==> reaches(after, grown, h, id) || superseded(
            before,
            node,
            h,
            k,
        ).contains(id)
}

/// A page of the tree below a node that was split is a page of the tree
/// below one of the nodes of the split.
pub proof fn lemma_reaches_piece(
    pages: Seq<BNode>,
    whole: BNode,
    pieces: Seq<BNode>,
    h: nat,
    id: int,
) -> (q: int)
    requires
        split_of(whole, pieces),
        reaches(pages, whole@, h, id),
    ensures
        0 <= q < pieces.len(),
        reaches(pages, pieces[q]@, h, id),
{
    let es = whole@.entries;
    let n0 = pieces[0]@.entries.len() as int;
    let i = choose|i: int| 0 <= i < es.len() && under(pages, #[trigger] es[i], h, id);
    if i < n0 {
        assert(pieces[0]@.entries[i] == es[i]);
        assert(under(pages, pieces[0]@.entries[i], h, id));
        0
    } else if pieces.len() == 2 || i < n0 + pieces[1]@.entries.len() {
        assert(pieces[1]@.entries[i - n0] == es[i]);
        assert(under(pages, pieces[1]@.entries[i - n0], h, id));
        1
    } else {
        let n1 = pieces[1]@.entries.len() as int;
        assert(pieces[2]@.entries[i - n0 - n1] == es[i]);
        assert(under(pages, pieces[2]@.entries[i - n0 - n1], h, id));
        2
    }
}

/// A page of the tree that was grown lies under the link to one of the nodes
/// of its split, once these are stored.
pub proof fn lemma_link_brings(
    mid: Seq<BNode>,
    grown: BNode,
    pieces: Seq<BNode>,
    after: Seq<BNode>,
    h: nat,
    id: int,
) -> (q: int)
    requires
        extends(mid, after),
        node_shape(mid, grown@, h),
        split_of(grown, pieces),
        forall|q: int|
            0 <= q < pieces.len() ==> has_page(after, next_id(mid) + q) && (#[trigger] page_of(
                after,
                next_id(mid) + q,
            ))@ == pieces[q]@,
        reaches(mid, grown@, h, id),
    ensures
        0 <= q < pieces.len(),
        under(after, links(pieces, next_id(mid))[q], h + 1, id),
{
    lemma_reaches_extends(mid, after, grown@, h, id);
    let q = lemma_reaches_piece(after, grown, pieces, h, id);
    assert(page_of(after, next_id(mid) + q)@ == pieces[q]@);
    q
}

/// Where the child under which `k` belongs is replaced by the nodes of a
/// split of the grown child, the new tree has every new page, and every page
/// of the old tree that was not replaced.
#[verifier::rlimit(40)]
pub proof fn lemma_replaced_brings(
    before: Seq<BNode>,
    node: NodeView,
    mid: Seq<BNode>,
    grown: BNode,
    pieces: Seq<BNode>,
    after: Seq<BNode>,
    h: nat,
    k: Seq<u8>,
    idx: int,
    new_node: NodeView,
)
    requires
        h >= 1,
        subtree_ok(before, node, h),
        child_for(node.entries, k, idx),
        extends(before, mid),
        extends(mid, after),
        after.len() == mid.len() + pieces.len(),
        node_shape(mid, grown@, (h - 1) as nat),
        brings_all(
            before,
            page_of(before, node.entries[idx].ptr)@,
            mid,
            grown@,
            (h - 1) as nat,
            k,
        ),
        split_of(grown, pieces),
        forall|q: int|
            0 <= q < pieces.len() ==> has_page(after, next_id(mid) + q) && (#[trigger] page_of(
                after,
                next_id(mid) + q,
            ))@ == pieces[q]@,
        new_node.entries == with_links(node.entries, idx, links(pieces, next_id(mid))),
    ensures
        brings_all(before, node, after, new_node, h, k),
{
    let es = node.entries;
    let es2 = new_node.entries;
    let ls = links(pieces, next_id(mid));
    let hk: nat = (h - 1) as nat;
    let kid = page_of(before, es[idx].ptr)@;
    let below = superseded(before, kid, hk, k);
    let gone = superseded(before, node, h, k);
    lemma_child_for_unique(es, k, idx, lookup_index(es, k));
    assert(gone == below.push(es[idx].ptr));
    lemma_extends_transitive(before, mid, after);
    assert forall|id: int| before.len() < id <= after.len() implies #[trigger] reaches(
        after,
        new_node,
        h,
        id,
    ) by {
        let q: int = if id <= mid.len() {
            lemma_link_brings(mid, grown, pieces, after, hk, id)
        } else {
            id - next_id(mid)
        };
        assert(es2[idx + q] == ls[q]);
        assert(under(after, es2[idx + q], h, id));
    }
    assert forall|id: int| #[trigger] reaches(before, node, h, id) implies reaches(
        after,
        new_node,
        h,
        id,
    ) || gone.contains(id) by {
        let j = choose|j: int| 0 <= j < es.len() && under(before, #[trigger] es[j], h, id);
        if j == idx {
            if id == es[idx].ptr {
                assert(gone[gone.len() - 1] == id);
            } else if below.contains(id) {
                let at = choose|at: int| 0 <= at < below.len() && below[at] == id;
                assert(gone[at] == id);
            } else {
                assert(reaches(before, kid, hk, id));
                let q = lemma_link_brings(mid, grown, pieces, after, hk, id);
                assert(es2[idx + q] == ls[q]);
                assert(under(after, es2[idx + q], h, id));
            }
        } else {
            let j2: int = if j < idx {
                j
            } else {
                j + ls.len() - 1
            };
            assert(es2[j2] == es[j]);
            assert(link_ok(before, es[j], h));
            assert(after[es[j].ptr - 1] == before[es[j].ptr - 1]);
            lemma_reaches_extends(before, after, page_of(before, es[j].ptr)@, hk, id);
            assert(under(after, es2[j2], h, id));
        }
    }
}

/// A page of the tree below the root is not the root, so marking the root
/// besides the pages that were replaced marks no page that was kept.
pub proof fn lemma_root_apart(
    pages: Seq<BNode>,
    root: int,
    h: nat,
    k: Seq<u8>,
    id: int,
)
    requires
        node_shape(pages, page_of(pages, root)@, h),
        reaches(pages, page_of(pages, root)@, h, id),
        !superseded(pages, page_of(pages, root)@, h, k).contains(id),
    ensures
        id != root,
        !superseded(pages, page_of(pages, root)@, h, k).push(root).contains(id),
{
    let node = page_of(pages, root)@;
    lemma_reached_page(pages, node, h, id);
    let hh = choose|hh: nat| hh < h && node_shape(pages, page_of(pages, id)@, hh);
    if id == root {
        lemma_height_unique(pages, node, h, hh);
    }
    let gone = superseded(pages, node, h, k);
    let all = gone.push(root);
    if all.contains(id) {
        let at = choose|at: int| 0 <= at < all.len() && all[at] == id;
        assert(gone[at] == id);
    }
}

} // verus!
