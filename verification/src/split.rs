//! Cutting a node that has outgrown its page into two or three that fit.
use vstd::prelude::*;
use crate::layout::{
    buffer_ok, entries_fit, entry_fits, is_split_point, lemma_entries_rest, lemma_entry_lengths,
    lemma_offsets_monotone, rest_kept,
    lemma_prefix_size_monotone, lemma_split_point_unique, page_entries, page_nkeys, page_offset,
    page_size, page_wf, prefix_size, range_size, Entry, BTREE_MAX_NODE_SIZE, BTREE_PAGE_SIZE,
    HEADER,
};
use crate::node::BNode;

verus! {

/// The entries of one, two or three nodes, one node after the other.
pub open spec fn joined_entries(nodes: Seq<BNode>) -> Seq<Entry> {
    if nodes.len() == 1 {
        nodes[0]@.entries
    } else if nodes.len() == 2 {
        nodes[0]@.entries + nodes[1]@.entries
    } else {
        nodes[0]@.entries + nodes[1]@.entries + nodes[2]@.entries
    }
}

/// Node `j` of a split is full: the first entry of the node behind it would
/// not fit into its page.
pub open spec fn piece_is_full(nodes: Seq<BNode>, j: int) -> bool {
    nodes[j].spec_n_bytes() + 14 + nodes[j + 1]@.entries[0].key.len() + nodes[j
        + 1]@.entries[0].val.len() > BTREE_PAGE_SIZE
}

/// What holds of each node that a split returns: it is complete, of the kind
/// of the node that was split, and fits its buffer of one page, which holds
/// zeros behind the node.
pub open spec fn piece_ok(whole: BNode, piece: BNode) -> bool {
    &&& piece.wf()
    &&& piece@.kind == whole@.kind
    &&& piece.bytes().len() == BTREE_PAGE_SIZE
    &&& piece.spec_n_bytes() <= BTREE_PAGE_SIZE
    &&& forall|j: int| piece.spec_n_bytes() <= j < BTREE_PAGE_SIZE ==> piece.bytes()[j] == 0
}

impl BNode {
    /// The number of entries, from the first on, that the left node of a
    /// split takes: as many as fit one page.
    pub fn split_point(&self) -> (k: u16)
        requires
            self.wf(),
        ensures
            is_split_point(self.bytes(), k as int),
    {
        let n: u16 = self.nkeys();
        let mut k: u16 = 0;
        while k < n
            invariant
                k <= n,
                n == self.spec_nkeys(),
                self.wf(),
                prefix_size(self.bytes(), k as int) <= BTREE_PAGE_SIZE,
            decreases n - k,
        {
            let next: usize = HEADER + 10 * (k as usize + 1) + self.get_offset(k + 1) as usize;
            if next > BTREE_PAGE_SIZE {
                return k;
            }
            k = k + 1;
        }
        k
    }

    /// Cuts the node in two: `left` takes the longest run of entries from the
    /// first on that fits one page, `right` the rest.
    #[verifier::rlimit(40)]
    pub fn node_split_2(&self, left: &mut BNode, right: &mut BNode)
        requires
            self.wf(),
            buffer_ok(old(left).bytes()),
            buffer_ok(old(right).bytes()),
            old(left).bytes().len() >= BTREE_PAGE_SIZE,
            forall|k: int|
                is_split_point(self.bytes(), k) ==> range_size(
                    self.bytes(),
                    k,
                    self.spec_nkeys(),
                ) <= old(right).bytes().len(),
        ensures
            final(left).wf(),
            final(right).wf(),
            final(left).bytes().len() == old(left).bytes().len(),
            final(right).bytes().len() == old(right).bytes().len(),
            is_split_point(self.bytes(), final(left).spec_nkeys()),
            final(right).spec_nkeys() == self.spec_nkeys() - final(left).spec_nkeys(),
            final(left)@.kind == self@.kind,
            final(right)@.kind == self@.kind,
            final(left)@.entries == self@.entries.subrange(0, final(left).spec_nkeys()),
            final(right)@.entries == self@.entries.subrange(
                final(left).spec_nkeys(),
                self.spec_nkeys(),
            ),
            final(left).spec_n_bytes() == prefix_size(self.bytes(), final(left).spec_nkeys()),
            final(right).spec_n_bytes() == range_size(
                self.bytes(),
                final(left).spec_nkeys(),
                self.spec_nkeys(),
            ),
            rest_kept(old(left).bytes(), final(left).bytes()),
            rest_kept(old(right).bytes(), final(right).bytes()),
    {
        let n: u16 = self.nkeys();
        let k: u16 = self.split_point();
        let btype: u16 = self.btype();
        let ghost s = self.bytes();
        proof {
            lemma_offsets_monotone(s, n as int, 0, k as int);
            lemma_offsets_monotone(s, n as int, k as int, n as int);
        }
        left.set_header(btype, k);
        let ghost lh = left.bytes();
        left.node_append_range(self, 0, 0, k);
        right.set_header(btype, n - k);
        let ghost rh = right.bytes();
        right.node_append_range(self, 0, k, n - k);
        proof {
            lemma_entries_rest(lh, left.bytes(), 0, k as int, prefix_size(s, k as int), prefix_size(s, k as int));
            lemma_entries_rest(rh, right.bytes(), 0, n - k, range_size(s, k as int, n as int), range_size(s, k as int, n as int));
            let es = page_entries(s, n as int);
            assert(page_entries(left.bytes(), k as int) =~= es.subrange(0, k as int));
            assert(page_entries(right.bytes(), n - k) =~= es.subrange(k as int, n as int));
        }
    }
}

/// What a split returns: nodes of one page each that hold the entries of
/// the whole in order, each but the last as full as can be, and none empty
/// where there are several.
pub open spec fn split_of(whole: BNode, pieces: Seq<BNode>) -> bool {
    &&& 1 <= pieces.len() <= 3
    &&& forall|j: int| 0 <= j < pieces.len() ==> piece_ok(whole, #[trigger] pieces[j])
    &&& joined_entries(pieces) == whole@.entries
    &&& forall|j: int| 0 <= j < pieces.len() - 1 ==> #[trigger] piece_is_full(pieces, j)
    &&& pieces.len() > 1 ==> forall|j: int|
        0 <= j < pieces.len() ==> (#[trigger] pieces[j]).spec_nkeys() >= 1
}

/// A node too large for a page, whose entries each fit one, is cut behind
/// its first entry or later, and before its last.
proof fn lemma_cut_inside(s: Seq<u8>, k: int)
    requires
        page_wf(s),
        entries_fit(page_entries(s, page_nkeys(s))),
        page_size(s) > BTREE_PAGE_SIZE,
        is_split_point(s, k),
    ensures
        1 <= k < page_nkeys(s),
        page_offset(s, k) <= page_offset(s, page_nkeys(s)),
        range_size(s, k, page_nkeys(s)) <= 0xffff,
        prefix_size(s, k) + 14 + page_entries(s, page_nkeys(s))[k].key.len() + page_entries(
            s,
            page_nkeys(s),
        )[k].val.len() > BTREE_PAGE_SIZE,
{
    let n = page_nkeys(s);
    lemma_offsets_monotone(s, n, 0, n);
    lemma_offsets_monotone(s, n, k, n);
    lemma_offsets_monotone(s, n, 0, k);
    lemma_entry_lengths(s, n, 0);
    assert(entry_fits(page_entries(s, n)[0]));
    lemma_entry_lengths(s, n, k);
}

/// Where the rest behind the first cut is still too large, what is left
/// behind a second cut fits a page.
proof fn lemma_second_cut(s: Seq<u8>, k: int, t: Seq<u8>, m: int)
    requires
        page_wf(s),
        entries_fit(page_entries(s, page_nkeys(s))),
        BTREE_PAGE_SIZE < page_size(s) <= BTREE_MAX_NODE_SIZE,
        is_split_point(s, k),
        page_wf(t),
        page_nkeys(t) == page_nkeys(s) - k,
        page_size(t) == range_size(s, k, page_nkeys(s)),
        page_entries(t, page_nkeys(t)) == page_entries(s, page_nkeys(s)).subrange(
            k,
            page_nkeys(s),
        ),
        is_split_point(t, m),
    ensures
        1 <= m,
        range_size(t, m, page_nkeys(t)) <= BTREE_PAGE_SIZE,
        entries_fit(page_entries(t, page_nkeys(t))),
{
    let n = page_nkeys(s);
    let tn = page_nkeys(t);
    lemma_cut_inside(s, k);
    let es = page_entries(s, n);
    let ts = page_entries(t, tn);
    assert(ts[0] == es[k]);
    assert(entry_fits(es[k]));
    lemma_entry_lengths(t, tn, 0);
    lemma_offsets_monotone(t, tn, 0, m);
    lemma_offsets_monotone(t, tn, m, tn);
    if m >= 1 {
        lemma_prefix_size_monotone(t, tn, 1, m);
    }
    assert forall|i: int| 0 <= i < ts.len() implies entry_fits(#[trigger] ts[i]) by {
        assert(ts[i] == es[k + i]);
    }
}

impl BNode {
    /// A copy of the node in a buffer of one page.
    fn split_one(&self) -> (r: Vec<BNode>)
        requires
            self.wf(),
            self.spec_n_bytes() <= BTREE_PAGE_SIZE,
        ensures
            r@.len() == 1,
            split_of(*self, r@),
    {
        let one: BNode = self.to_page();
        let mut out: Vec<BNode> = Vec::new();
        out.push(one);
        out
    }

    /// The two nodes of a split whose second node fits a page.
    #[verifier::rlimit(40)]
    fn split_two(&self) -> (r: Vec<BNode>)
        requires
            self.wf(),
            entries_fit(self@.entries),
            self.spec_n_bytes() > BTREE_PAGE_SIZE,
            forall|k: int|
                is_split_point(self.bytes(), k) ==> range_size(
                    self.bytes(),
                    k,
                    self.spec_nkeys(),
                ) <= BTREE_PAGE_SIZE,
        ensures
            r@.len() == 2,
            split_of(*self, r@),
    {
        let mut left: BNode = BNode::page();
        let mut right: BNode = BNode::page();
        self.node_split_2(&mut left, &mut right);
        proof {
            let k = left.spec_nkeys();
            lemma_cut_inside(self.bytes(), k);
            assert(right@.entries[0] == self@.entries[k]);
            assert(left@.entries + right@.entries =~= self@.entries);
        }
        let mut out: Vec<BNode> = Vec::new();
        out.push(left);
        out.push(right);
        proof {
            assert(piece_is_full(out@, 0));
        }
        out
    }

    /// The three nodes of a split whose rest behind the first cut is cut
    /// once more.
    #[verifier::rlimit(40)]
    fn split_three(&self) -> (r: Vec<BNode>)
        requires
            self.wf(),
            entries_fit(self@.entries),
            self.spec_n_bytes() <= BTREE_MAX_NODE_SIZE,
            forall|k: int|
                is_split_point(self.bytes(), k) ==> range_size(
                    self.bytes(),
                    k,
                    self.spec_nkeys(),
                ) > BTREE_PAGE_SIZE,
        ensures
            r@.len() == 3,
            split_of(*self, r@),
    {
        let ghost s = self.bytes();
        let mut left: BNode = BNode::page();
        let mut tail: BNode = BNode::scratch();
        proof {
            let n = page_nkeys(s);
            assert forall|k: int| is_split_point(s, k) implies range_size(s, k, n)
                <= tail.bytes().len() by {
                lemma_offsets_monotone(s, n, 0, n);
                lemma_offsets_monotone(s, n, 0, k);
                lemma_offsets_monotone(s, n, k, n);
            }
        }
        self.node_split_2(&mut left, &mut tail);
        let ghost k = left.spec_nkeys();
        let ghost t = tail.bytes();
        let mut middle: BNode = BNode::page();
        let mut right: BNode = BNode::page();
        proof {
            lemma_offsets_monotone(s, page_nkeys(s), 0, k);
            assert forall|m: int| is_split_point(t, m) implies range_size(t, m, page_nkeys(t))
                <= right.bytes().len() by {
                lemma_second_cut(s, k, t, m);
            }
        }
        tail.node_split_2(&mut middle, &mut right);
        proof {
            let m = middle.spec_nkeys();
            lemma_cut_inside(s, k);
            lemma_second_cut(s, k, t, m);
            lemma_cut_inside(t, m);
            assert(middle@.entries[0] == self@.entries[k]);
            assert(right@.entries[0] == tail@.entries[m]);
            assert(left@.entries + middle@.entries + right@.entries =~= self@.entries);
        }
        let mut out: Vec<BNode> = Vec::new();
        out.push(left);
        out.push(middle);
        out.push(right);
        proof {
            assert(piece_is_full(out@, 0));
            assert(piece_is_full(out@, 1));
        }
        out
    }

    /// Splits a node that may have outgrown its page into one, two or three
    /// nodes of one page each, which hold its entries in order. One node
    /// comes back exactly where the node fits a page as it is. Else the first
    /// node takes as many entries as fit a page, and where the rest is still
    /// too large for one page it is cut once more in the same way.
    ///
    /// Three nodes are enough for a node that is no larger than a page and
    /// one more entry, with every key and value within its greatest size.
    #[verifier::rlimit(40)]
    pub fn node_split_3(&mut self) -> (r: (u16, Vec<BNode>))
        requires
            old(self).wf(),
            entries_fit(old(self)@.entries),
            old(self).spec_n_bytes() <= BTREE_MAX_NODE_SIZE,
        ensures
            final(self).bytes() == old(self).bytes(),
            r.0 == r.1@.len(),
            r.0 == 1 <==> old(self).spec_n_bytes() <= BTREE_PAGE_SIZE,
            split_of(*old(self), r.1@),
    {
        if self.n_bytes() as usize <= BTREE_PAGE_SIZE {
            return (1, self.split_one());
        }
        let n: u16 = self.nkeys();
        let k: u16 = self.split_point();
        proof {
            lemma_cut_inside(self.bytes(), k as int);
        }
        let rest: usize = HEADER + 10 * (n - k) as usize + (self.get_offset(n) - self.get_offset(
            k,
        )) as usize;
        proof {
            assert forall|a: int| is_split_point(self.bytes(), a) implies range_size(
                self.bytes(),
                a,
                n as int,
            ) == rest by {
                lemma_split_point_unique(self.bytes(), a, k as int);
            }
        }
        if rest <= BTREE_PAGE_SIZE {
            (2, self.split_two())
        } else {
            (3, self.split_three())
        }
    }
}

} // verus!
