//! The tree: a store of pages, a root, and the insert path.
//!
//! The store stands in for the page manager. It hands out ids counting from
//! 1, never changes a page once it has an id, and keeps a list of the ids
//! that were marked as reclaimable. An older root therefore still leads to
//! the tree as it was.
use vstd::prelude::*;
use crate::contents::{
    kvs_map, kvs_put, kvs_put_all, kvs_sorted, lemma_put_increasing_run, lemma_put_map,
    lemma_put_sorted, Kv,
};
use crate::error::BTreeError;
use crate::forest::{
    child_for, entries_kvs, extends, has_page, leaf_entry, leaf_kvs, lemma_child_for_unique,
    lemma_child_replaced, lemma_child_sorted, lemma_extends_transitive, lemma_height_unique,
    lemma_kvs_extends, lemma_kvs_leaf, lemma_leaf_insert, lemma_leaf_insert_high,
    lemma_leaf_insert_low, lemma_leaf_keys_sorted, lemma_leaf_update, lemma_link_extends,
    lemma_piece_shape, lemma_pieces_linked, lemma_shape_extends, link_ok, links, lookup_index,
    next_id, node_kvs, node_shape, page_of, stored_ok, subtree_ok, superseded, with_links,
};
use crate::keys::{key_order, KeyOrder};
use crate::layout::{
    buffer_ok, entry_fits, lemma_entries_rest, lemma_entry_lengths, lemma_offsets_monotone,
    page_btype, page_size, rest_kept, page_entries,
    page_image, page_kv_pos, page_nkeys, page_offset, Entry, NodeView, BNODE_LEAF, BNODE_NODE,
    BTREE_MAX_KEY_SIZE, BTREE_MAX_NODE_SIZE, BTREE_MAX_VAL_SIZE, BTREE_PAGE_SIZE,
};
use crate::node::BNode;
use crate::reach::{
    brings_all, keeps_clear, lemma_link_brings, lemma_link_clear, lemma_reaches_extends,
    lemma_replaced_brings, lemma_replaced_clear, lemma_root_apart, reaches, under,
};

verus! {

/// A copy-on-write B+-tree over a store of pages.
#[derive(Debug)]
pub struct BTree {
    root: u64,
    pages: Vec<BNode>,
    retired: Vec<u64>,
}

impl View for BTree {
    type V = Seq<Kv>;

    /// The keys with their values, in the order of the keys.
    open spec fn view(&self) -> Seq<Kv> {
        self.contents()
    }
}

/// The height of the tree below a node: 0 for a leaf.
pub open spec fn height_of(pages: Seq<BNode>, node: NodeView) -> nat {
    choose|h: nat| node_shape(pages, node, h)
}

/// The tree below `grown` in the store `after` is the tree below `node` in the
/// store `before` with the value `v` put under the key `k`.
pub open spec fn inserted(
    before: Seq<BNode>,
    node: NodeView,
    after: Seq<BNode>,
    grown: NodeView,
    h: nat,
    k: Seq<u8>,
    v: Seq<u8>,
) -> bool {
    &&& subtree_ok(after, grown, h)
    &&& node_kvs(after, grown, h) == kvs_put(node_kvs(before, node, h), k, v)
}

/// The store `after` is the store `before` with the pages of the nodes
/// `kids` added, in order, under the next ids.
pub open spec fn allocated(before: Seq<BNode>, after: Seq<BNode>, kids: Seq<BNode>) -> bool {
    &&& after.len() == before.len() + kids.len()
    &&& extends(before, after)
    &&& forall|j: int|
        0 <= j < kids.len() ==> stored_ok(#[trigger] page_of(after, next_id(before) + j))
            && page_of(after, next_id(before) + j)@ == kids[j]@ && page_of(
            after,
            next_id(before) + j,
        ).bytes() == page_image(kids[j].bytes())
}

/// A node that can be linked into a parent: it fits a page, is not empty,
/// and its first key is within the size of a key.
pub open spec fn kid_ok(kid: BNode) -> bool {
    &&& stored_ok(kid)
    &&& kid@.entries.len() >= 1
    &&& kid@.entries[0].key.len() <= BTREE_MAX_KEY_SIZE
}

impl BTree {
    /// The pages of the store; the page with id `i` stands at index `i - 1`.
    pub closed spec fn pages(&self) -> Seq<BNode> {
        self.pages@
    }

    /// The id of the root page.
    pub closed spec fn spec_root(&self) -> int {
        self.root as int
    }

    /// The ids that were marked as reclaimable, in the order of the marking.
    pub closed spec fn retired(&self) -> Seq<int> {
        self.retired@.map_values(|id: u64| id as int)
    }

    /// The root page.
    pub open spec fn root_page(&self) -> BNode {
        page_of(self.pages(), self.spec_root())
    }

    /// The root is a stored page and the root of a sorted tree of height `h`.
    pub open spec fn wf_at(&self, h: nat) -> bool {
        &&& has_page(self.pages(), self.spec_root())
        &&& stored_ok(self.root_page())
        &&& subtree_ok(self.pages(), self.root_page()@, h)
    }

    /// The root is a stored page and the root of a sorted tree.
    pub open spec fn wf(&self) -> bool {
        exists|h: nat| self.wf_at(h)
    }

    /// The height of the tree: 0 where the root is a leaf.
    pub open spec fn spec_height(&self) -> nat {
        choose|h: nat| self.wf_at(h)
    }

    /// The keys with their values, in the order of the keys.
    pub open spec fn contents(&self) -> Seq<Kv> {
        node_kvs(self.pages(), self.root_page()@, self.spec_height())
    }

    /// The tree as a map from keys to values.
    pub open spec fn map(&self) -> Map<Seq<u8>, Seq<u8>> {
        kvs_map(self.contents())
    }

    /// Page `id` is the root or belongs to the tree below it.
    pub open spec fn owns(&self, id: int) -> bool {
        id == self.spec_root() || reaches(
            self.pages(),
            self.root_page()@,
            self.spec_height(),
            id,
        )
    }

    /// The page `root` is the root of a sorted tree of height `h` that holds
    /// the pairs `kvs`: the tree as it was when `root` was its root.
    pub open spec fn snapshot(&self, root: int, h: nat, kvs: Seq<Kv>) -> bool {
        &&& has_page(self.pages(), root)
        &&& stored_ok(page_of(self.pages(), root))
        &&& subtree_ok(self.pages(), page_of(self.pages(), root)@, h)
        &&& node_kvs(self.pages(), page_of(self.pages(), root)@, h) == kvs
    }

    /// An older root leads to the tree as it was, whatever pages have been
    /// added to the store since.
    pub proof fn lemma_snapshot_kept(&self, later: BTree, root: int, h: nat, kvs: Seq<Kv>)
        requires
            self.snapshot(root, h, kvs),
            extends(self.pages(), later.pages()),
        ensures
            later.snapshot(root, h, kvs),
    {
        let node = page_of(self.pages(), root);
        assert(later.pages()[root - 1] == self.pages()[root - 1]);
        lemma_shape_extends(self.pages(), later.pages(), node@, h);
        lemma_kvs_extends(self.pages(), later.pages(), node@.entries, h);
    }

    /// A tree whose root stays is the tree it was, whatever pages have been
    /// added to the store.
    pub proof fn lemma_tree_kept(&self, later: BTree)
        requires
            self.wf(),
            extends(self.pages(), later.pages()),
            later.spec_root() == self.spec_root(),
        ensures
            later.wf(),
            later.spec_height() == self.spec_height(),
            later.contents() == self.contents(),
    {
        let h = self.spec_height();
        assert(self.wf_at(h));
        self.lemma_snapshot_kept(later, self.spec_root(), h, self.contents());
        assert(later.wf_at(h));
        later.lemma_height(h);
    }

    /// A tree has one height only.
    pub proof fn lemma_height(&self, h: nat)
        requires
            self.wf_at(h),
        ensures
            self.spec_height() == h,
            self.wf(),
    {
        lemma_height_unique(self.pages(), self.root_page()@, h, self.spec_height());
    }

    /// A tree of one empty leaf.
    pub fn empty() -> (t: BTree)
        ensures
            t.wf_at(0),
            t.contents() == Seq::<Kv>::empty(),
            t.root_page()@ == (NodeView { kind: BNODE_LEAF as int, entries: Seq::empty() }),
            t.pages().len() == 1,
            t.spec_root() == 1,
            t.retired().len() == 0,
    {
        let mut leaf: BNode = BNode::page();
        leaf.set_header(BNODE_LEAF, 0);
        let mut pages: Vec<BNode> = Vec::new();
        pages.push(leaf);
        let t = BTree { root: 1, pages, retired: Vec::new() };
        proof {
            assert(t.root_page()@.entries =~= Seq::<Entry>::empty());
            assert(t.wf_at(0));
            t.lemma_height(0);
        }
        t
    }

    /// Stores a copy of the node as a new page and returns its id.
    pub fn new(&mut self, node: &BNode) -> (id: u64)
        requires
            stored_ok(*node),
        ensures
            id == next_id(old(self).pages()),
            allocated(old(self).pages(), final(self).pages(), seq![*node]),
            final(self).spec_root() == old(self).spec_root(),
            final(self).retired() == old(self).retired(),
            old(self).wf() ==> final(self).wf() && final(self)@ == old(self)@,
    {
        let page: BNode = node.to_page();
        self.pages.push(page);
        proof {
            assert(page_of(self.pages@, next_id(old(self).pages@) + 0) == page);
            if old(self).wf() {
                old(self).lemma_tree_kept(*self);
            }
        }
        self.pages.len() as u64
    }

    /// A copy of the page with the given id.
    fn page_copy(&self, ptr: u64) -> (r: BNode)
        requires
            has_page(self.pages(), ptr as int),
        ensures
            r.bytes() == page_of(self.pages(), ptr as int).bytes(),
    {
        let count: usize = self.pages.len();
        assert(1 <= ptr <= count);
        let at: usize = (ptr - 1) as usize;
        self.pages[at].clone()
    }

    /// A copy of the page with the given id, if there is one.
    pub fn get(&self, ptr: u64) -> (r: Result<BNode, BTreeError>)
        ensures
            match r {
                Ok(node) => has_page(self.pages(), ptr as int) && node.bytes() == page_of(
                    self.pages(),
                    ptr as int,
                ).bytes(),
                Err(e) => !has_page(self.pages(), ptr as int) && e == BTreeError::PageNotFound,
            },
    {
        if ptr == 0 || ptr > self.pages.len() as u64 {
            Err(BTreeError::PageNotFound)
        } else {
            Ok(self.page_copy(ptr))
        }
    }

    /// Marks a page as reclaimable. The page stays readable.
    pub fn del(&mut self, root: u64)
        ensures
            final(self).retired() == old(self).retired().push(root as int),
            final(self).pages() == old(self).pages(),
            final(self).spec_root() == old(self).spec_root(),
            old(self).wf() ==> final(self).wf() && final(self)@ == old(self)@,
    {
        self.retired.push(root);
        proof {
            if old(self).wf() {
                old(self).lemma_tree_kept(*self);
            }
            assert(self.retired@.map_values(|id: u64| id as int) =~= old(self).retired@.map_values(
                |id: u64| id as int,
            ).push(root as int));
        }
    }

    /// Stores the nodes and writes one entry for each into `new_node`, from
    /// index `idx` on: the id of its page, its first key, and no value.
    #[verifier::rlimit(40)]
    fn link_kids(&mut self, new_node: &mut BNode, idx: u16, kids: &Vec<BNode>)
        requires
            old(new_node).filled(idx as int),
            1 <= kids@.len() <= 3,
            idx + kids@.len() <= old(new_node).spec_nkeys(),
            forall|j: int| 0 <= j < kids@.len() ==> kid_ok(#[trigger] kids@[j]),
            page_kv_pos(old(new_node).bytes(), idx as int) + kids@.len() * (4
                + BTREE_MAX_KEY_SIZE) <= old(new_node).bytes().len(),
        ensures
            final(new_node).filled(idx + kids@.len()),
            final(new_node).bytes().len() == old(new_node).bytes().len(),
            final(new_node).spec_nkeys() == old(new_node).spec_nkeys(),
            final(new_node).spec_btype() == old(new_node).spec_btype(),
            page_offset(final(new_node).bytes(), idx + kids@.len()) <= page_offset(
                old(new_node).bytes(),
                idx as int,
            ) + kids@.len() * (4 + BTREE_MAX_KEY_SIZE),
            page_entries(final(new_node).bytes(), idx + kids@.len()) == page_entries(
                old(new_node).bytes(),
                idx as int,
            ) + links(kids@, next_id(old(self).pages())),
            page_offset(old(new_node).bytes(), idx as int) <= page_offset(
                final(new_node).bytes(),
                idx + kids@.len(),
            ),
            forall|j: int|
                page_kv_pos(final(new_node).bytes(), idx + kids@.len()) <= j < old(
                    new_node,
                ).bytes().len() ==> final(new_node).bytes()[j] == old(new_node).bytes()[j],
            allocated(old(self).pages(), final(self).pages(), kids@),
            final(self).spec_root() == old(self).spec_root(),
            final(self).retired() == old(self).retired(),
    {
        let ghost pg0 = self.pages@;
        let ghost s0 = new_node.bytes();
        let ghost ls = links(kids@, next_id(pg0));
        let mut j: usize = 0;
        while j < kids.len()
            invariant
                j <= kids@.len(),
                1 <= kids@.len() <= 3,
                idx + kids@.len() <= page_nkeys(s0),
                forall|i: int| 0 <= i < kids@.len() ==> kid_ok(#[trigger] kids@[i]),
                page_kv_pos(s0, idx as int) + kids@.len() * (4 + BTREE_MAX_KEY_SIZE) <= s0.len(),
                ls == links(kids@, next_id(pg0)),
                new_node.filled(idx + j),
                new_node.bytes().len() == s0.len(),
                new_node.spec_nkeys() == page_nkeys(s0),
                new_node.spec_btype() == page_btype(s0),
                page_offset(new_node.bytes(), idx + j) <= page_offset(s0, idx as int) + j * (4
                    + BTREE_MAX_KEY_SIZE),
                page_offset(s0, idx as int) <= page_offset(new_node.bytes(), idx + j),
                page_entries(new_node.bytes(), idx + j) == page_entries(s0, idx as int)
                    + ls.subrange(0, j as int),
                forall|x: int|
                    page_kv_pos(new_node.bytes(), idx + j) <= x < s0.len() ==> new_node.bytes()[x]
                        == s0[x],
                allocated(pg0, self.pages@, kids@.subrange(0, j as int)),
                self.root == old(self).root,
                self.retired() == old(self).retired(),
            decreases kids@.len() - j,
        {
            let ghost pg1 = self.pages@;
            let ghost s1 = new_node.bytes();
            assert(kid_ok(kids@[j as int]));
            proof {
                assert(j * (4 + BTREE_MAX_KEY_SIZE) + (4 + BTREE_MAX_KEY_SIZE) <= kids@.len() * (4
                    + BTREE_MAX_KEY_SIZE)) by (nonlinear_arith)
                    requires
                        j < kids@.len(),
                ;
                lemma_offsets_monotone(s1, idx + j, 0, idx + j);
            }
            let id: u64 = self.new(&kids[j]);
            let key: Vec<u8> = kids[j].get_key(0);
            new_node.node_append_kv(idx + j as u16, id, key, Vec::new());
            proof {
                let pg2 = self.pages@;
                let s2 = new_node.bytes();
                lemma_entries_rest(
                    s1,
                    s2,
                    idx + j,
                    idx + j + 1,
                    page_kv_pos(s2, idx + j + 1),
                    page_kv_pos(s2, idx + j + 1),
                );
                assert(ls[j as int] == Entry {
                    ptr: id as int,
                    key: key@,
                    val: Seq::<u8>::empty(),
                });
                assert(ls.subrange(0, j + 1) =~= ls.subrange(0, j as int).push(ls[j as int]));
                assert(page_entries(s0, idx as int) + ls.subrange(0, j + 1) =~= (page_entries(
                    s0,
                    idx as int,
                ) + ls.subrange(0, j as int)).push(ls[j as int]));
                lemma_extends_transitive(pg0, pg1, pg2);
                assert((j + 1) * (4 + BTREE_MAX_KEY_SIZE) == j * (4 + BTREE_MAX_KEY_SIZE) + (4
                    + BTREE_MAX_KEY_SIZE)) by (nonlinear_arith);
                let done = kids@.subrange(0, j + 1);
                assert forall|i: int| 0 <= i < done.len() implies stored_ok(
                    #[trigger] page_of(pg2, next_id(pg0) + i),
                ) && page_of(pg2, next_id(pg0) + i)@ == done[i]@ && page_of(
                    pg2,
                    next_id(pg0) + i,
                ).bytes() == page_image(done[i].bytes()) by {
                    if i < j {
                        assert(stored_ok(page_of(pg1, next_id(pg0) + i)));
                        assert(kids@.subrange(0, j as int)[i] == kids@[i]);
                        assert(pg2[pg0.len() + i] == pg1[pg0.len() + i]);
                    } else {
                        assert(stored_ok(page_of(pg2, next_id(pg1) + 0)));
                    }
                }
            }
            j = j + 1;
        }
        proof {
            assert(kids@.subrange(0, j as int) =~= kids@);
            assert(ls.subrange(0, j as int) =~= ls);
        }
    }

    /// Builds in `new_node` the internal node `from` with the entry at index
    /// `idx` replaced by one entry for each of `kids`, which are stored as new
    /// pages.
    #[verifier::rlimit(40)]
    pub fn node_replace_kid_n(
        &mut self,
        new_node: &mut BNode,
        from: &BNode,
        idx: u16,
        kids: Vec<BNode>,
    )
        requires
            buffer_ok(old(new_node).bytes()),
            from.wf(),
            idx < from.spec_nkeys(),
            1 <= kids@.len() <= 3,
            forall|j: int| 0 <= j < kids@.len() ==> kid_ok(#[trigger] kids@[j]),
            from.spec_n_bytes() + kids@.len() * (14 + BTREE_MAX_KEY_SIZE) <= old(
                new_node,
            ).bytes().len(),
        ensures
            final(new_node).wf(),
            final(new_node).bytes().len() == old(new_node).bytes().len(),
            final(new_node)@.kind == BNODE_NODE,
            final(new_node)@.entries == with_links(
                from@.entries,
                idx as int,
                links(kids@, next_id(old(self).pages())),
            ),
            final(new_node).spec_n_bytes() <= from.spec_n_bytes() + kids@.len() * (14
                + BTREE_MAX_KEY_SIZE),
            rest_kept(old(new_node).bytes(), final(new_node).bytes()),
            allocated(old(self).pages(), final(self).pages(), kids@),
            final(self).spec_root() == old(self).spec_root(),
            final(self).retired() == old(self).retired(),
            old(self).wf() ==> final(self).wf() && final(self)@ == old(self)@,
    {
        let inc: u16 = kids.len() as u16;
        let n: u16 = from.nkeys();
        let ghost f = from.bytes();
        let ghost ls = links(kids@, next_id(self.pages@));
        proof {
            lemma_offsets_monotone(f, n as int, 0, idx as int);
            lemma_offsets_monotone(f, n as int, idx as int, idx + 1);
            lemma_offsets_monotone(f, n as int, idx + 1, n as int);
            assert(kids@.len() * (14 + BTREE_MAX_KEY_SIZE) == 10 * kids@.len() + kids@.len() * (4
                + BTREE_MAX_KEY_SIZE)) by (nonlinear_arith);
            assert(kids@.len() * (4 + BTREE_MAX_KEY_SIZE) >= 0) by (nonlinear_arith);
        }
        let ghost s0 = new_node.bytes();
        new_node.set_header(BNODE_NODE, n + inc - 1);
        let ghost sh = new_node.bytes();
        new_node.node_append_range(from, 0, 0, idx);
        let ghost s1 = new_node.bytes();
        self.link_kids(new_node, idx, &kids);
        let ghost s2 = new_node.bytes();
        new_node.node_append_range(from, idx + inc, idx + 1, n - (idx + 1));
        proof {
            let s3 = new_node.bytes();
            let lim = page_size(s3);
            lemma_entries_rest(sh, s1, 0, idx as int, page_kv_pos(s1, idx as int), lim);
            lemma_entries_rest(s2, s3, idx + inc, n + inc - 1, lim, lim);
            assert(rest_kept(s0, s3));
            let es = page_entries(f, n as int);
            assert(page_entries(s1, idx as int) =~= es.subrange(0, idx as int));
            assert(page_entries(s3, n + inc - 1) =~= with_links(es, idx as int, ls));
            if old(self).wf() {
                old(self).lemma_tree_kept(*self);
            }
        }
    }
}

/// The height of a tree is the one height at which it is a tree.
pub proof fn lemma_height_of(pages: Seq<BNode>, node: NodeView, h: nat)
    requires
        node_shape(pages, node, h),
    ensures
        height_of(pages, node) == h,
{
    lemma_height_unique(pages, node, h, height_of(pages, node));
}

/// A leaf whose entries hold what the old leaf held with `k` put in is the
/// old tree with `k` put in.
proof fn lemma_leaf_grown(
    pages: Seq<BNode>,
    node: NodeView,
    grown: NodeView,
    h: nat,
    k: Seq<u8>,
    v: Seq<u8>,
)
    requires
        subtree_ok(pages, node, h),
        node.kind == BNODE_LEAF,
        grown.kind == BNODE_LEAF,
        k.len() <= BTREE_MAX_KEY_SIZE,
        v.len() <= BTREE_MAX_VAL_SIZE,
        leaf_kvs(grown.entries) == kvs_put(leaf_kvs(node.entries), k, v),
        grown.entries.len() >= 1,
        forall|i: int|
            0 <= i < grown.entries.len() ==> (#[trigger] grown.entries[i]) == leaf_entry(k, v) || (
            exists|j: int| 0 <= j < node.entries.len() && grown.entries[i] == node.entries[j]),
    ensures
        h == 0,
        inserted(pages, node, pages, grown, h, k, v),
{
    lemma_kvs_leaf(pages, node.entries);
    lemma_kvs_leaf(pages, grown.entries);
    lemma_put_sorted(leaf_kvs(node.entries), k, v);
    assert forall|i: int| 0 <= i < grown.entries.len() implies entry_fits(
        #[trigger] grown.entries[i],
    ) by {
        if grown.entries[i] != leaf_entry(k, v) {
            let j = choose|j: int|
                0 <= j < node.entries.len() && grown.entries[i] == node.entries[j];
            assert(entry_fits(node.entries[j]));
        }
    }
}

impl BTree {
    /// Stores the nodes of a split root and, above them, a new root with one
    /// link to each.
    #[verifier::rlimit(40)]
    fn raise_root(&mut self, kids: &Vec<BNode>)
        requires
            2 <= kids@.len() <= 3,
            forall|j: int| 0 <= j < kids@.len() ==> kid_ok(#[trigger] kids@[j]),
        ensures
            extends(old(self).pages(), final(self).pages()),
            final(self).pages().len() == old(self).pages().len() + kids@.len() + 1,
            forall|q: int|
                0 <= q < kids@.len() ==> stored_ok(
                    #[trigger] page_of(final(self).pages(), next_id(old(self).pages()) + q),
                ) && page_of(final(self).pages(), next_id(old(self).pages()) + q)@ == kids@[q]@,
            final(self).spec_root() == final(self).pages().len(),
            stored_ok(final(self).root_page()),
            final(self).root_page()@ == (NodeView {
                kind: BNODE_NODE as int,
                entries: links(kids@, next_id(old(self).pages())),
            }),
            final(self).retired() == old(self).retired(),
    {
        let ghost pg1 = self.pages();
        let mut top: BNode = BNode::page();
        top.set_header(BNODE_NODE, kids.len() as u16);
        let ghost t0 = top.bytes();
        self.link_kids(&mut top, 0, kids);
        let ghost pg2 = self.pages();
        proof {
            assert(kids@.len() * (4 + BTREE_MAX_KEY_SIZE) <= 3 * (4 + BTREE_MAX_KEY_SIZE))
                by (nonlinear_arith)
                requires
                    kids@.len() <= 3,
            ;
            let ls = links(kids@, next_id(pg1));
            assert(page_entries(t0, 0) + ls =~= ls);
            assert(top@.entries == ls);
        }
        let id: u64 = self.new(&top);
        self.root = id;
        proof {
            let pg3 = self.pages();
            lemma_extends_transitive(pg1, pg2, pg3);
            assert(stored_ok(page_of(pg3, next_id(pg2) + 0)));
            assert forall|q: int| 0 <= q < kids@.len() implies stored_ok(
                #[trigger] page_of(pg3, next_id(pg1) + q),
            ) && page_of(pg3, next_id(pg1) + q)@ == kids@[q]@ by {
                assert(stored_ok(page_of(pg2, next_id(pg1) + q)));
                assert(pg3[next_id(pg1) + q - 1] == pg2[next_id(pg1) + q - 1]);
            }
        }
    }
}

impl BTree {
    /// Puts the value under the key into the tree below `node`, and returns
    /// the node that takes the place of `node`. It may be larger than a page:
    /// the caller splits and stores it. Pages that the new tree needs are
    /// added to the store; no page of the old tree is changed.
    ///
    /// In a leaf the key replaces the entry that holds it, or is added behind
    /// the greatest key below it; a key smaller than every key of the leaf
    /// becomes its first entry. In an internal node it goes into the child
    /// under which it belongs.
    #[verifier::rlimit(40)]
    pub fn tree_insert(&mut self, node: &BNode, key: Vec<u8>, val: Vec<u8>) -> (r: BNode)
        requires
            stored_ok(*node),
            exists|h: nat| subtree_ok(old(self).pages(), node@, h),
            key@.len() <= BTREE_MAX_KEY_SIZE,
            val@.len() <= BTREE_MAX_VAL_SIZE,
        ensures
            extends(old(self).pages(), final(self).pages()),
            final(self).spec_root() == old(self).spec_root(),
            old(self).wf() ==> final(self).wf() && final(self)@ == old(self)@,
            r.wf(),
            r.bytes().len() == 2 * BTREE_PAGE_SIZE,
            r.spec_n_bytes() <= BTREE_MAX_NODE_SIZE,
            r@.entries.len() >= 1,
            forall|h: nat| #[trigger]
                subtree_ok(old(self).pages(), node@, h) ==> inserted(
                    old(self).pages(),
                    node@,
                    final(self).pages(),
                    r@,
                    h,
                    key@,
                    val@,
                ) && final(self).retired() == old(self).retired() + superseded(
                    old(self).pages(),
                    node@,
                    h,
                    key@,
                ) && keeps_clear(old(self).pages(), node@, final(self).pages(), r@, h, key@)
                    && brings_all(old(self).pages(), node@, final(self).pages(), r@, h, key@),
        decreases height_of(old(self).pages(), node@), 1nat,
    {
        let mut new_node: BNode = BNode::scratch();
        let idx: u16 = node.node_lookup_le(&key);
        let ghost h = choose|h: nat| subtree_ok(self.pages(), node@, h);
        let ghost es = node@.entries;
        let ghost k = key@;
        let ghost v = val@;
        let ghost pg0 = self.pages();
        if node.btype() == BNODE_LEAF {
            proof {
                lemma_kvs_leaf(pg0, es);
                lemma_leaf_keys_sorted(es);
            }
            if node.nkeys() == 0 {
                proof {
                    lemma_leaf_insert(es, 0, k, v);
                }
                new_node.leaf_insert(node, 0, key, val);
            } else {
                let at: Vec<u8> = node.get_key(idx);
                proof {
                    lemma_entry_lengths(node.bytes(), node.spec_nkeys(), idx as int);
                }
                match key_order(&key, &at) {
                    KeyOrder::Equal => {
                        proof {
                            lemma_leaf_update(es, idx as int, k, v);
                        }
                        new_node.leaf_update(node, idx, key, val);
                        proof {
                            let gs = new_node@.entries;
                            assert forall|i: int| 0 <= i < gs.len() implies (#[trigger] gs[i])
                                == leaf_entry(k, v) || (exists|j: int|
                                0 <= j < es.len() && gs[i] == es[j]) by {
                                if i != idx {
                                    assert(gs[i] == es[i]);
                                }
                            }
                        }
                    },
                    KeyOrder::Less => {
                        proof {
                            lemma_leaf_insert_low(es, k, v, idx as int);
                        }
                        new_node.leaf_insert(node, idx, key, val);
                        proof {
                            let gs = new_node@.entries;
                            assert forall|i: int| 0 <= i < gs.len() implies (#[trigger] gs[i])
                                == leaf_entry(k, v) || (exists|j: int|
                                0 <= j < es.len() && gs[i] == es[j]) by {
                                if i > idx {
                                    assert(gs[i] == es[i - 1]);
                                }
                            }
                        }
                    },
                    KeyOrder::Greater => {
                        proof {
                            lemma_leaf_insert_high(es, k, v, idx as int);
                        }
                        new_node.leaf_insert(node, idx + 1, key, val);
                        proof {
                            let gs = new_node@.entries;
                            assert forall|i: int| 0 <= i < gs.len() implies (#[trigger] gs[i])
                                == leaf_entry(k, v) || (exists|j: int|
                                0 <= j < es.len() && gs[i] == es[j]) by {
                                if i <= idx {
                                    assert(gs[i] == es[i]);
                                } else if i > idx + 1 {
                                    assert(gs[i] == es[i - 1]);
                                }
                            }
                        }
                    },
                }
            }
            proof {
                lemma_leaf_grown(pg0, node@, new_node@, h, k, v);
                let r0 = self.retired();
                assert(r0 + superseded(pg0, node@, 0, k) =~= r0);
                assert forall|h2: nat| #[trigger] subtree_ok(pg0, node@, h2) implies inserted(
                    pg0,
                    node@,
                    pg0,
                    new_node@,
                    h2,
                    k,
                    v,
                ) && r0 == r0 + superseded(pg0, node@, h2, k) && keeps_clear(
                    pg0,
                    node@,
                    pg0,
                    new_node@,
                    h2,
                    k,
                ) && brings_all(pg0, node@, pg0, new_node@, h2, k) by {
                    lemma_height_unique(pg0, node@, h, h2);
                }
            }
        } else {
            proof {
                assert(h >= 1);
                assert(child_for(es, k, idx as int));
            }
            self.node_insert(&mut new_node, node, idx, key, val);
        }
        proof {
            if old(self).wf() {
                old(self).lemma_tree_kept(*self);
            }
        }
        new_node
    }

    /// Puts the value under the key into the child at entry `idx` of the
    /// internal node `node`, and builds in `new_node` the node that takes the
    /// place of `node`: the child is read from the store, grown, split into
    /// nodes of one page, and these are stored and linked in its place. The
    /// page of the old child is then marked as reclaimable.
    #[verifier::rlimit(40)]
    pub fn node_insert(
        &mut self,
        new_node: &mut BNode,
        node: &BNode,
        idx: u16,
        key: Vec<u8>,
        val: Vec<u8>,
    )
        requires
            old(new_node).bytes().len() == 2 * BTREE_PAGE_SIZE,
            stored_ok(*node),
            exists|h: nat| h >= 1 && subtree_ok(old(self).pages(), node@, h),
            child_for(node@.entries, key@, idx as int),
            key@.len() <= BTREE_MAX_KEY_SIZE,
            val@.len() <= BTREE_MAX_VAL_SIZE,
        ensures
            extends(old(self).pages(), final(self).pages()),
            final(self).spec_root() == old(self).spec_root(),
            old(self).wf() ==> final(self).wf() && final(self)@ == old(self)@,
            final(new_node).wf(),
            final(new_node).bytes().len() == 2 * BTREE_PAGE_SIZE,
            final(new_node).spec_n_bytes() <= BTREE_MAX_NODE_SIZE,
            final(new_node)@.entries.len() >= 1,
            forall|h: nat| #[trigger]
                subtree_ok(old(self).pages(), node@, h) ==> inserted(
                    old(self).pages(),
                    node@,
                    final(self).pages(),
                    final(new_node)@,
                    h,
                    key@,
                    val@,
                ) && final(self).retired() == old(self).retired() + superseded(
                    old(self).pages(),
                    node@,
                    h,
                    key@,
                ) && keeps_clear(
                    old(self).pages(),
                    node@,
                    final(self).pages(),
                    final(new_node)@,
                    h,
                    key@,
                ) && brings_all(
                    old(self).pages(),
                    node@,
                    final(self).pages(),
                    final(new_node)@,
                    h,
                    key@,
                ),
        decreases height_of(old(self).pages(), node@), 0nat,
    {
        let ghost h = choose|h: nat| h >= 1 && subtree_ok(self.pages(), node@, h);
        let ghost hk: nat = (h - 1) as nat;
        let ghost es = node@.entries;
        let ghost k = key@;
        let ghost v = val@;
        let ghost pg0 = self.pages();
        let ghost r0 = self.retired();
        let kid_ptr: u64 = node.get_ptr(idx);
        proof {
            assert(link_ok(pg0, es[idx as int], h));
        }
        let kid_node: BNode = self.page_copy(kid_ptr);
        proof {
            assert(kid_node@ == page_of(pg0, kid_ptr as int)@);
            lemma_child_sorted(pg0, es, idx as int, h);
            assert(subtree_ok(pg0, kid_node@, hk));
            lemma_height_of(pg0, node@, h);
            lemma_height_of(pg0, kid_node@, hk);
        }
        let mut grown: BNode = self.tree_insert(&kid_node, key, val);
        let ghost pg1 = self.pages();
        let ghost r1 = self.retired();
        proof {
            assert(inserted(pg0, kid_node@, pg1, grown@, hk, k, v));
        }
        let (n, kids) = grown.node_split_3();
        proof {
            assert forall|j: int| 0 <= j < kids@.len() implies kid_ok(#[trigger] kids@[j]) by {
                lemma_piece_shape(pg1, pg1, grown, kids@, hk, j);
            }
        }
        self.node_replace_kid_n(new_node, node, idx, kids);
        let ghost pg2 = self.pages();
        self.del(kid_ptr);
        proof {
            let ls = links(kids@, next_id(pg1));
            lemma_pieces_linked(pg1, pg2, grown, kids@, next_id(pg1), hk);
            lemma_extends_transitive(pg0, pg1, pg2);
            lemma_child_replaced(pg0, pg2, es, idx as int, h, ls, k, v);
            assert(inserted(pg0, node@, pg2, new_node@, h, k, v));
            lemma_replaced_clear(pg0, node@, pg1, grown, kids@, pg2, h, k, idx as int, new_node@);
            lemma_replaced_brings(pg0, node@, pg1, grown, kids@, pg2, h, k, idx as int, new_node@);
            if old(self).wf() {
                old(self).lemma_tree_kept(*self);
            }
            lemma_child_for_unique(es, k, idx as int, lookup_index(es, k));
            let below = superseded(pg0, kid_node@, hk, k);
            assert(superseded(pg0, node@, h, k) == below.push(kid_ptr as int));
            assert(r1 == r0 + below);
            assert(r1.push(kid_ptr as int) =~= r0 + below.push(kid_ptr as int));
            assert forall|h2: nat| #[trigger] subtree_ok(pg0, node@, h2) implies inserted(
                pg0,
                node@,
                pg2,
                new_node@,
                h2,
                k,
                v,
            ) && self.retired() == r0 + superseded(pg0, node@, h2, k) && keeps_clear(
                pg0,
                node@,
                pg2,
                new_node@,
                h2,
                k,
            ) && brings_all(pg0, node@, pg2, new_node@, h2, k) by {
                lemma_height_unique(pg0, node@, h, h2);
            }
        }
    }

    /// Puts the value under the key: in place of the value that the key had,
    /// or as a new pair. A key or a value that is too long is refused, and
    /// the tree is then as it was. Else the root is grown, split into one,
    /// two or three pages, and replaced. The number of these pages comes
    /// back: where it is more than one, a new root above them makes the tree
    /// one level higher.
    #[verifier::rlimit(40)]
    pub fn insert(&mut self, key: Vec<u8>, val: Vec<u8>) -> (r: Result<u16, BTreeError>)
        requires
            old(self).wf(),
        ensures
            match r {
                Err(e) => {
                    &&& e == BTreeError::OversizedEntry
                    &&& (key@.len() > BTREE_MAX_KEY_SIZE || val@.len() > BTREE_MAX_VAL_SIZE)
                    &&& final(self).pages() == old(self).pages()
                    &&& final(self).spec_root() == old(self).spec_root()
                    &&& final(self).retired() == old(self).retired()
                },
                Ok(n) => {
                    &&& key@.len() <= BTREE_MAX_KEY_SIZE
                    &&& val@.len() <= BTREE_MAX_VAL_SIZE
                    &&& 1 <= n <= 3
                    &&& final(self).wf()
                    &&& final(self).spec_height() == old(self).spec_height() + if n > 1 {
                        1nat
                    } else {
                        0nat
                    }
                    &&& final(self).contents() == kvs_put(old(self).contents(), key@, val@)
                    &&& kvs_sorted(final(self).contents())
                    &&& final(self).map() == old(self).map().insert(key@, val@)
                    &&& extends(old(self).pages(), final(self).pages())
                    &&& final(self).snapshot(
                        old(self).spec_root(),
                        old(self).spec_height(),
                        old(self).contents(),
                    )
                    &&& final(self).retired() == old(self).retired() + superseded(
                        old(self).pages(),
                        old(self).root_page()@,
                        old(self).spec_height(),
                        key@,
                    ).push(old(self).spec_root())
                    &&& forall|id: int| #[trigger]
                        final(self).owns(id) ==> id > old(self).pages().len() || (old(self).owns(
                            id,
                        ) && !superseded(
                            old(self).pages(),
                            old(self).root_page()@,
                            old(self).spec_height(),
                            key@,
                        ).push(old(self).spec_root()).contains(id))
                    &&& forall|id: int|
                        old(self).pages().len() < id <= final(self).pages().len()
                            ==> #[trigger] final(self).owns(id)
                    &&& forall|id: int| #[trigger]
                        old(self).owns(id) ==> final(self).owns(id) || superseded(
                            old(self).pages(),
                            old(self).root_page()@,
                            old(self).spec_height(),
                            key@,
                        ).push(old(self).spec_root()).contains(id)
                },
            },
    {
        if key.len() > BTREE_MAX_KEY_SIZE || val.len() > BTREE_MAX_VAL_SIZE {
            return Err(BTreeError::OversizedEntry);
        }
        let ghost h = self.spec_height();
        let ghost k = key@;
        let ghost v = val@;
        let ghost pg0 = self.pages();
        let ghost r0 = self.retired();
        let root_ptr: u64 = self.root;
        let root_node: BNode = self.page_copy(root_ptr);
        proof {
            assert(self.wf_at(h));
            assert(root_node@ == self.root_page()@);
        }
        let mut grown: BNode = self.tree_insert(&root_node, key, val);
        let ghost pg1 = self.pages();
        let ghost r1 = self.retired();
        proof {
            assert(inserted(pg0, root_node@, pg1, grown@, h, k, v));
        }
        let (n, kids) = grown.node_split_3();
        proof {
            assert forall|j: int| 0 <= j < kids@.len() implies kid_ok(#[trigger] kids@[j]) by {
                lemma_piece_shape(pg1, pg1, grown, kids@, h, j);
            }
            old(self).lemma_height(h);
        }
        if n > 1 {
            self.raise_root(&kids);
            proof {
                let pg3 = self.pages();
                let top = self.root_page();
                let ls = links(kids@, next_id(pg1));
                let hh: nat = h + 1;
                lemma_pieces_linked(pg1, pg3, grown, kids@, next_id(pg1), h);
                lemma_extends_transitive(pg0, pg1, pg3);
                lemma_put_sorted(node_kvs(pg0, root_node@, h), k, v);
                assert(self.wf_at(hh));
                self.lemma_height(hh);
                assert forall|id: int| #[trigger] reaches(pg3, top@, hh, id) implies id
                    > pg0.len() || (reaches(pg0, root_node@, h, id) && !superseded(
                    pg0,
                    root_node@,
                    h,
                    k,
                ).contains(id)) by {
                    let q = choose|q: int|
                        0 <= q < ls.len() && under(pg3, #[trigger] ls[q], hh, id);
                    assert(stored_ok(page_of(pg3, next_id(pg1) + q)));
                    lemma_link_clear(pg0, root_node@, pg1, grown, kids@, pg3, h, k, q, id);
                }
                assert forall|q: int| 0 <= q < kids@.len() implies has_page(
                    pg3,
                    next_id(pg1) + q,
                ) && (#[trigger] page_of(pg3, next_id(pg1) + q))@ == kids@[q]@ by {
                    assert(stored_ok(page_of(pg3, next_id(pg1) + q)));
                }
                assert forall|id: int| pg0.len() < id < pg3.len() implies #[trigger] reaches(
                    pg3,
                    top@,
                    hh,
                    id,
                ) by {
                    let q: int = if id <= pg1.len() {
                        lemma_link_brings(pg1, grown, kids@, pg3, h, id)
                    } else {
                        id - next_id(pg1)
                    };
                    assert(under(pg3, ls[q], hh, id));
                }
                assert forall|id: int| #[trigger] reaches(pg1, grown@, h, id) implies reaches(
                    pg3,
                    top@,
                    hh,
                    id,
                ) by {
                    let q = lemma_link_brings(pg1, grown, kids@, pg3, h, id);
                    assert(under(pg3, ls[q], hh, id));
                }
            }
        } else {
            let id: u64 = self.new(&kids[0]);
            self.root = id;
            proof {
                let pg2 = self.pages();
                lemma_extends_transitive(pg0, pg1, pg2);
                assert(stored_ok(page_of(pg2, next_id(pg1) + 0)));
                assert(kids@[0]@.entries == grown@.entries);
                assert(self.root_page()@ == grown@);
                lemma_shape_extends(pg1, pg2, grown@, h);
                lemma_kvs_extends(pg1, pg2, grown@.entries, h);
                assert(self.wf_at(h));
                self.lemma_height(h);
                assert forall|id: int| #[trigger] reaches(pg2, grown@, h, id) implies id
                    > pg0.len() || (reaches(pg0, root_node@, h, id) && !superseded(
                    pg0,
                    root_node@,
                    h,
                    k,
                ).contains(id)) by {
                    lemma_reaches_extends(pg1, pg2, grown@, h, id);
                }
                assert forall|id: int| #[trigger] reaches(pg1, grown@, h, id) implies reaches(
                    pg2,
                    grown@,
                    h,
                    id,
                ) by {
                    lemma_reaches_extends(pg1, pg2, grown@, h, id);
                }
            }
        }
        self.del(root_ptr);
        proof {
            let below = superseded(pg0, root_node@, h, k);
            assert(r1 == r0 + below);
            assert(r1.push(root_ptr as int) =~= r0 + below.push(root_ptr as int));
            let hn: nat = if n > 1 {
                h + 1
            } else {
                h
            };
            assert(self.wf_at(hn));
            self.lemma_height(hn);
            lemma_put_map(node_kvs(pg0, root_node@, h), k, v);
            assert forall|id: int| #[trigger] self.owns(id) implies id > pg0.len() || (old(
                self,
            ).owns(id) && !below.push(root_ptr as int).contains(id)) by {
                if id != self.spec_root() {
                    assert(reaches(self.pages(), self.root_page()@, hn, id));
                    if id <= pg0.len() {
                        lemma_root_apart(pg0, root_ptr as int, h, k, id);
                    }
                }
            }
            let gone = below.push(root_ptr as int);
            assert(gone[gone.len() - 1] == root_ptr);
            old(self).lemma_snapshot_kept(*self, root_ptr as int, h, old(self).contents());
            assert forall|id: int| pg0.len() < id <= self.pages().len() implies #[trigger] self.owns(
                id,
            ) by {
                if id != self.spec_root() {
                    if id <= pg1.len() {
                        assert(reaches(pg1, grown@, h, id));
                    }
                    assert(reaches(self.pages(), self.root_page()@, hn, id));
                }
            }
            assert forall|id: int| #[trigger] old(self).owns(id) implies self.owns(id)
                || gone.contains(id) by {
                if id != root_ptr {
                    assert(reaches(pg0, root_node@, h, id));
                    if below.contains(id) {
                        let at = choose|at: int| 0 <= at < below.len() && below[at] == id;
                        assert(gone[at] == id);
                    } else {
                        assert(reaches(pg1, grown@, h, id));
                        assert(reaches(self.pages(), self.root_page()@, hn, id));
                    }
                }
            }
        }
        Ok(n)
    }
}

/// A key and a value within the sizes that a page can take.
pub open spec fn pair_fits(p: Kv) -> bool {
    p.0.len() <= BTREE_MAX_KEY_SIZE && p.1.len() <= BTREE_MAX_VAL_SIZE
}

/// The first `n` pairs are within the sizes that a page can take.
pub open spec fn pairs_fit(s: Seq<Kv>, n: int) -> bool {
    forall|j: int| 0 <= j < n && j < s.len() ==> pair_fits(#[trigger] s[j])
}

/// The keys and values that a list of pairs of byte strings stands for.
pub open spec fn pairs_view(s: Seq<(Vec<u8>, Vec<u8>)>) -> Seq<Kv> {
    Seq::new(s.len(), |i: int| (s[i].0@, s[i].1@))
}

impl BTree {
    /// The id of the root page.
    pub fn root(&self) -> (r: u64)
        ensures
            r == self.spec_root(),
    {
        self.root
    }

    /// The ids that were marked as reclaimable, in the order of the marking.
    pub fn released(&self) -> (r: &Vec<u64>)
        ensures
            r@.map_values(|id: u64| id as int) == self.retired(),
    {
        &self.retired
    }

    /// The number of pages in the store, which is the greatest id in use.
    pub fn page_count(&self) -> (r: usize)
        ensures
            r == self.pages().len(),
    {
        self.pages.len()
    }

    /// Appends to `out` what the tree below `node` holds, in order.
    #[verifier::rlimit(40)]
    fn collect(&self, node: &BNode, out: &mut Vec<(Vec<u8>, Vec<u8>)>)
        requires
            node.wf(),
            exists|h: nat| node_shape(self.pages(), node@, h),
        ensures
            forall|h: nat| #[trigger]
                node_shape(self.pages(), node@, h) ==> pairs_view(final(out)@) == pairs_view(
                    old(out)@,
                ) + node_kvs(self.pages(), node@, h),
        decreases height_of(self.pages(), node@),
    {
        let ghost h = choose|h: nat| node_shape(self.pages(), node@, h);
        let ghost es = node@.entries;
        let ghost pages = self.pages();
        let ghost out0 = pairs_view(out@);
        let n: u16 = node.nkeys();
        let is_leaf: bool = node.btype() == BNODE_LEAF;
        let mut i: u16 = 0;
        proof {
            lemma_height_of(pages, node@, h);
            assert(es.subrange(0, 0) =~= Seq::<Entry>::empty());
            assert(out0 + entries_kvs(pages, es.subrange(0, 0), h) =~= out0);
        }
        while i < n
            invariant
                i <= n,
                n == node.spec_nkeys(),
                node.wf(),
                es == node@.entries,
                pages == self.pages(),
                node_shape(pages, node@, h),
                height_of(pages, node@) == h,
                is_leaf <==> h == 0,
                pairs_view(out@) == out0 + entries_kvs(pages, es.subrange(0, i as int), h),
            decreases n - i,
        {
            let ghost before = pairs_view(out@);
            proof {
                let next = es.subrange(0, i + 1);
                assert(next.drop_last() =~= es.subrange(0, i as int));
                assert(next.last() == es[i as int]);
            }
            if is_leaf {
                let key: Vec<u8> = node.get_key(i);
                let val: Vec<u8> = node.get_val(i);
                out.push((key, val));
                proof {
                    assert(pairs_view(out@) =~= before.push((es[i as int].key, es[i as int].val)));
                    assert(pairs_view(out@) =~= out0 + entries_kvs(pages, es.subrange(0, i + 1), h));
                }
            } else {
                proof {
                    assert(link_ok(pages, es[i as int], h));
                    lemma_height_of(
                        pages,
                        page_of(pages, es[i as int].ptr)@,
                        (h - 1) as nat,
                    );
                }
                let kid: BNode = self.page_copy(node.get_ptr(i));
                proof {
                    assert(kid@ == page_of(pages, es[i as int].ptr)@);
                    assert(node_shape(pages, kid@, (h - 1) as nat));
                }
                self.collect(&kid, out);
                proof {
                    assert(node_shape(pages, kid@, (h - 1) as nat));
                    assert(pairs_view(out@) =~= out0 + entries_kvs(pages, es.subrange(0, i + 1), h));
                }
            }
            i = i + 1;
        }
        proof {
            assert(es.subrange(0, n as int) =~= es);
            assert forall|h2: nat| #[trigger] node_shape(pages, node@, h2) implies pairs_view(out@)
                == out0 + node_kvs(pages, node@, h2) by {
                lemma_height_unique(pages, node@, h, h2);
            }
        }
    }

    /// The keys with their values, in the order of the keys: the tree walked
    /// from the leftmost leaf to the rightmost.
    pub fn traverse(&self) -> (r: Vec<(Vec<u8>, Vec<u8>)>)
        requires
            self.wf(),
        ensures
            pairs_view(r@) == self.contents(),
    {
        let mut out: Vec<(Vec<u8>, Vec<u8>)> = Vec::new();
        let root_node: BNode = self.page_copy(self.root);
        proof {
            assert(self.wf_at(self.spec_height()));
            assert(root_node@ == self.root_page()@);
            assert(pairs_view(out@) =~= Seq::<Kv>::empty());
        }
        self.collect(&root_node, &mut out);
        proof {
            assert(node_shape(self.pages(), root_node@, self.spec_height()));
            assert(Seq::<Kv>::empty() + self.contents() =~= self.contents());
        }
        out
    }

    /// Puts the pairs into the tree, the first one first. At the first key or
    /// value that is too long it stops, and the tree then holds the pairs
    /// before that one. Pairs given in the order of their keys, each key
    /// greater than the one before, to an empty tree are then what it holds.
    #[verifier::rlimit(40)]
    pub fn insert_all(&mut self, pairs: &Vec<(Vec<u8>, Vec<u8>)>) -> (r: Result<(), BTreeError>)
        requires
            old(self).wf(),
        ensures
            final(self).wf(),
            extends(old(self).pages(), final(self).pages()),
            r is Ok <==> pairs_fit(pairs_view(pairs@), pairs@.len() as int),
            r is Ok && old(self).contents().len() == 0 && kvs_sorted(pairs_view(pairs@))
                ==> final(self).contents() == pairs_view(pairs@),
            match r {
                Ok(_) => final(self).contents() == kvs_put_all(
                    old(self).contents(),
                    pairs_view(pairs@),
                ),
                Err(e) => e == BTreeError::OversizedEntry && exists|i: int|
                    0 <= i < pairs@.len() && #[trigger] pairs_fit(pairs_view(pairs@), i)
                        && !pair_fits(pairs_view(pairs@)[i]) && final(self).contents()
                        == kvs_put_all(old(self).contents(), pairs_view(pairs@).subrange(0, i)),
            },
    {
        let ghost all = pairs_view(pairs@);
        let ghost c0 = self.contents();
        let ghost pg0 = self.pages();
        let mut i: usize = 0;
        proof {
            assert(all.subrange(0, 0) =~= Seq::<Kv>::empty());
        }
        while i < pairs.len()
            invariant
                i <= pairs@.len(),
                all == pairs_view(pairs@),
                pg0 == old(self).pages(),
                c0 == old(self).contents(),
                self.wf(),
                pairs_fit(all, i as int),
                extends(pg0, self.pages()),
                self.contents() == kvs_put_all(c0, all.subrange(0, i as int)),
            decreases pairs@.len() - i,
        {
            let ghost pg1 = self.pages();
            let ghost h1 = self.spec_height();
            let ghost c1 = self.contents();
            proof {
                assert(self.wf_at(h1));
            }
            let key: Vec<u8> = pairs[i].0.clone();
            let val: Vec<u8> = pairs[i].1.clone();
            proof {
                assert(key@ =~= pairs@[i as int].0@);
                assert(val@ =~= pairs@[i as int].1@);
                assert(all[i as int] == (key@, val@));
                let next = all.subrange(0, i + 1);
                assert(next.drop_last() =~= all.subrange(0, i as int));
                assert(next.last() == all[i as int]);
            }
            match self.insert(key, val) {
                Ok(_) => {
                    proof {
                        lemma_extends_transitive(pg0, pg1, self.pages());
                    }
                },
                Err(e) => {
                    proof {
                        assert(!pair_fits(all[i as int]));
                        assert(self.wf_at(h1));
                        self.lemma_height(h1);
                        assert(self.contents() == c1);
                    }
                    return Err(e);
                },
            }
            i = i + 1;
        }
        proof {
            assert(all.subrange(0, i as int) =~= all);
            if c0.len() == 0 && kvs_sorted(all) {
                assert(c0 =~= Seq::<Kv>::empty());
                lemma_put_increasing_run(all);
            }
        }
        Ok(())
    }
}

} // verus!
