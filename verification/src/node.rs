//! A node: a buffer of bytes in the page layout, its accessors, and the two
//! primitives that every mutation is built from.
use vstd::prelude::*;
use crate::error::{BTreeError, NodeType};
use crate::keys::{key_le, key_lt, key_order, lemma_key_lt_transitive, KeyOrder};
use crate::layout::{
    agree_prefix, buffer_ok, covers_prefix, entries_sorted, filled, in_entries, layout_fits,
    lemma_built_rest, rest_kept,
    lemma_entry_lengths, lemma_offsets_monotone, lemma_page_image, lemma_prefix_covered,
    lemma_prefix_frame, lemma_range_appended, lemma_record_appended, lemma_write_keeps_prefix,
    offset_pos, page_btype, page_entries, page_entry, page_image, page_key, page_kv_pos, page_nkeys,
    page_offset, page_ptr, page_size, page_val, page_view, page_wf, ptr_pos, range_copied,
    record_ok, same_but_entries, Entry, NodeView, BNODE_LEAF, BNODE_NODE, BTREE_PAGE_SIZE, HEADER,
};
use crate::wire::{
    get_u16, get_u64, lemma_run_kept, lemma_u16_kept, lemma_u64_kept, put_bytes, put_record,
    put_u16, put_u64, same_outside, take_bytes,
};

verus! {

/// A node of the tree, held as the bytes of its page (or of a larger scratch
/// buffer while it is being built).
#[derive(Debug)]
pub struct BNode {
    data: Vec<u8>,
}

impl Clone for BNode {
    fn clone(&self) -> (r: Self)
        ensures
            r.bytes() == self.bytes(),
    {
        let data: Vec<u8> = self.data.clone();
        assert(data@ =~= self.data@);
        BNode { data }
    }
}

impl View for BNode {
    type V = NodeView;

    open spec fn view(&self) -> NodeView {
        page_view(self.bytes())
    }
}

impl BNode {
    /// The bytes of the buffer.
    pub closed spec fn bytes(&self) -> Seq<u8> {
        self.data@
    }

    /// The tag in the header.
    pub open spec fn spec_btype(&self) -> int {
        page_btype(self.bytes())
    }

    /// The number of keys in the header.
    pub open spec fn spec_nkeys(&self) -> int {
        page_nkeys(self.bytes())
    }

    /// The node's total byte length.
    pub open spec fn spec_n_bytes(&self) -> int {
        page_size(self.bytes())
    }

    /// The header, the pointers and the offset list lie inside the buffer.
    pub open spec fn inv(&self) -> bool {
        layout_fits(self.bytes())
    }

    /// The first `k` entries have been written.
    pub open spec fn filled(&self, k: int) -> bool {
        filled(self.bytes(), k)
    }

    /// All entries have been written.
    pub open spec fn wf(&self) -> bool {
        page_wf(self.bytes())
    }

    /// An empty buffer of one page.
    pub fn page() -> (r: BNode)
        ensures
            r.bytes() == Seq::new(BTREE_PAGE_SIZE as nat, |j: int| 0u8),
            r.wf(),
            r.spec_nkeys() == 0,
    {
        let data: Vec<u8> = vec![0u8; BTREE_PAGE_SIZE];
        assert(data@ =~= Seq::new(BTREE_PAGE_SIZE as nat, |j: int| 0u8));
        BNode { data }
    }

    /// An empty buffer of two pages, for a node that may have to be split.
    pub fn scratch() -> (r: BNode)
        ensures
            r.bytes() == Seq::new((2 * BTREE_PAGE_SIZE) as nat, |j: int| 0u8),
            r.wf(),
            r.spec_nkeys() == 0,
    {
        let data: Vec<u8> = vec![0u8; 2 * BTREE_PAGE_SIZE];
        assert(data@ =~= Seq::new((2 * BTREE_PAGE_SIZE) as nat, |j: int| 0u8));
        BNode { data }
    }

    /// The bytes of the buffer.
    pub fn as_bytes(&self) -> (r: &Vec<u8>)
        ensures
            r@ == self.bytes(),
    {
        &self.data
    }

    /// The tag in the header: 1 for an internal node, 2 for a leaf.
    pub fn btype(&self) -> (r: u16)
        requires
            buffer_ok(self.bytes()),
        ensures
            r == self.spec_btype(),
    {
        get_u16(&self.data, 0)
    }

    /// The number of keys in the header.
    pub fn nkeys(&self) -> (r: u16)
        requires
            buffer_ok(self.bytes()),
        ensures
            r == self.spec_nkeys(),
    {
        get_u16(&self.data, 2)
    }

    /// Writes the tag and the number of keys. The entries are then to be
    /// written in order, from index 0 on.
    pub fn set_header(&mut self, btype: u16, keys: u16)
        requires
            buffer_ok(old(self).bytes()),
            HEADER + 10 * keys <= old(self).bytes().len(),
        ensures
            same_outside(old(self).bytes(), final(self).bytes(), 0, 4),
            final(self).spec_btype() == btype,
            final(self).spec_nkeys() == keys,
            final(self).filled(0),
    {
        put_u16(&mut self.data, 0, btype);
        put_u16(&mut self.data, 2, keys);
    }

    /// The child page of entry `idx`.
    pub fn get_ptr(&self, idx: u16) -> (r: u64)
        requires
            self.inv(),
            idx < self.spec_nkeys(),
        ensures
            r == page_ptr(self.bytes(), idx as int),
    {
        let pos: usize = Self::ptr_pose(idx);
        get_u64(&self.data, pos)
    }

    /// Sets the child page of entry `idx`.
    pub fn set_ptr(&mut self, idx: u16, val: u64)
        requires
            old(self).inv(),
            idx < old(self).spec_nkeys(),
        ensures
            same_outside(old(self).bytes(), final(self).bytes(), ptr_pos(idx as int), 8),
            page_ptr(final(self).bytes(), idx as int) == val,
            final(self).spec_nkeys() == old(self).spec_nkeys(),
            final(self).spec_btype() == old(self).spec_btype(),
    {
        let pos: usize = Self::ptr_pose(idx);
        put_u64(&mut self.data, pos, val);
    }

    /// Where the child page of entry `idx` is stored.
    fn ptr_pose(idx: u16) -> (r: usize)
        ensures
            r == ptr_pos(idx as int),
    {
        HEADER + 8 * idx as usize
    }

    /// Where the offset of entry `idx` is stored.
    fn offset_pose(&self, idx: u16) -> (r: usize)
        requires
            self.inv(),
            1 <= idx <= self.spec_nkeys(),
        ensures
            r == offset_pos(self.bytes(), idx as int),
    {
        HEADER + 8 * self.nkeys() as usize + 2 * (idx as usize - 1)
    }

    /// Where entry `idx` begins, counted from the start of the key-value
    /// region; with `idx == nkeys`, where the used region ends.
    pub fn get_offset(&self, idx: u16) -> (r: u16)
        requires
            self.inv(),
            idx <= self.spec_nkeys(),
        ensures
            r == page_offset(self.bytes(), idx as int),
    {
        if idx == 0 {
            return 0;
        }
        let pos: usize = self.offset_pose(idx);
        get_u16(&self.data, pos)
    }

    /// Sets the offset at which entry `idx` begins; `idx` counts from 1.
    pub fn set_offset(&mut self, idx: u16, offset: u16)
        requires
            old(self).inv(),
            1 <= idx <= old(self).spec_nkeys(),
        ensures
            same_outside(
                old(self).bytes(),
                final(self).bytes(),
                offset_pos(old(self).bytes(), idx as int),
                2,
            ),
            page_offset(final(self).bytes(), idx as int) == offset,
            final(self).spec_nkeys() == old(self).spec_nkeys(),
            final(self).spec_btype() == old(self).spec_btype(),
    {
        let pos: usize = self.offset_pose(idx);
        put_u16(&mut self.data, pos, offset);
    }

    /// The position in the buffer at which entry `idx` begins.
    pub fn kv_pos(&self, idx: u16) -> (r: usize)
        requires
            self.inv(),
            idx <= self.spec_nkeys(),
        ensures
            r == page_kv_pos(self.bytes(), idx as int),
    {
        HEADER + 8 * self.nkeys() as usize + 2 * self.nkeys() as usize + self.get_offset(
            idx,
        ) as usize
    }

    /// The key of entry `idx`, which has been written.
    pub fn get_key(&self, idx: u16) -> (r: Vec<u8>)
        requires
            self.filled(idx + 1),
        ensures
            r@ == page_key(self.bytes(), idx as int),
    {
        proof {
            assert(record_ok(self.bytes(), idx as int));
        }
        let pos: usize = self.kv_pos(idx);
        let key_len: u16 = get_u16(&self.data, pos);
        take_bytes(&self.data, pos + 4, key_len as usize)
    }

    /// The value of entry `idx`, which has been written.
    pub fn get_val(&self, idx: u16) -> (r: Vec<u8>)
        requires
            self.filled(idx + 1),
        ensures
            r@ == page_val(self.bytes(), idx as int),
    {
        proof {
            assert(record_ok(self.bytes(), idx as int));
        }
        let pos: usize = self.kv_pos(idx);
        let key_len: u16 = get_u16(&self.data, pos);
        let val_len: u16 = get_u16(&self.data, pos + 2);
        let base: usize = pos + 4 + key_len as usize;
        take_bytes(&self.data, base, val_len as usize)
    }

    /// The node's total byte length.
    pub fn n_bytes(&self) -> (r: u16)
        requires
            self.wf(),
        ensures
            r == self.spec_n_bytes(),
    {
        proof {
            lemma_offsets_monotone(self.bytes(), self.spec_nkeys(), 0, self.spec_nkeys());
        }
        self.kv_pos(self.nkeys()) as u16
    }
}

impl BNode {
    /// The greatest index from 1 on up to which every key is at most `key`,
    /// or 0 where the key at index 1 is already greater (or there is none).
    /// The key at index 0 is not looked at. Where the keys are sorted this is
    /// the greatest index whose key is at most `key`.
    #[verifier::rlimit(40)]
    pub fn node_lookup_le(&self, key: &Vec<u8>) -> (found: u16)
        requires
            self.wf(),
        ensures
            found == 0 || found < self.spec_nkeys(),
            forall|i: int| 1 <= i <= found ==> key_le(#[trigger] self@.entries[i].key, key@),
            found + 1 < self.spec_nkeys() ==> key_lt(key@, self@.entries[found + 1].key),
            entries_sorted(self@.entries) ==> forall|j: int|
                found < j < self.spec_nkeys() ==> key_lt(key@, #[trigger] self@.entries[j].key),
    {
        let nkeys: u16 = self.nkeys();
        let mut found: u16 = 0;
        let mut i: u16 = 1;
        while i < nkeys
            invariant
                1 <= i,
                i <= nkeys || found == 0,
                found == i - 1,
                self.wf(),
                nkeys == self.spec_nkeys(),
                forall|j: int| 1 <= j <= found ==> key_le(#[trigger] self@.entries[j].key, key@),
            decreases nkeys - i,
        {
            let k: Vec<u8> = self.get_key(i);
            match key_order(&k, key) {
                KeyOrder::Greater => {
                    proof {
                        let es = self@.entries;
                        assert(es[i as int].key == k@);
                        if entries_sorted(es) {
                            assert forall|j: int| found < j < self.spec_nkeys() implies key_lt(
                                key@,
                                #[trigger] es[j].key,
                            ) by {
                                if j > i {
                                    lemma_key_lt_transitive(key@, es[i as int].key, es[j].key);
                                }
                            }
                        }
                    }
                    return found;
                },
                _ => {
                    assert(self@.entries[i as int].key == k@);
                    found = i;
                },
            }
            i = i + 1;
        }
        found
    }

    /// Writes one entry at index `idx`, behind the `idx` entries that have
    /// been written: the child page, then the record at the position that the
    /// offset list gives, then the offset at which the next record begins.
    #[verifier::rlimit(40)]
    pub fn node_append_kv(&mut self, idx: u16, ptr: u64, key: Vec<u8>, val: Vec<u8>)
        requires
            old(self).filled(idx as int),
            idx < old(self).spec_nkeys(),
            page_kv_pos(old(self).bytes(), idx as int) + 4 + key@.len() + val@.len() <= old(
                self,
            ).bytes().len(),
        ensures
            final(self).filled(idx + 1),
            final(self).bytes().len() == old(self).bytes().len(),
            final(self).spec_nkeys() == old(self).spec_nkeys(),
            final(self).spec_btype() == old(self).spec_btype(),
            same_but_entries(
                old(self).bytes(),
                final(self).bytes(),
                idx as int,
                idx + 1,
                page_kv_pos(old(self).bytes(), idx as int) + 4 + key@.len() + val@.len(),
            ),
            page_offset(final(self).bytes(), idx + 1) == page_offset(
                old(self).bytes(),
                idx as int,
            ) + 4 + key@.len() + val@.len(),
            page_entries(final(self).bytes(), idx + 1) == page_entries(
                old(self).bytes(),
                idx as int,
            ).push(Entry { ptr: ptr as int, key: key@, val: val@ }),
    {
        let ghost s0 = self.data@;
        let ghost k = idx as int;
        proof {
            lemma_offsets_monotone(s0, k, 0, k);
        }
        self.set_ptr(idx, ptr);
        let ghost s1 = self.data@;
        proof {
            lemma_write_keeps_prefix(s0, s0, s1, k, ptr_pos(k), 8);
            lemma_prefix_frame(s0, s1, k);
        }
        let pos: usize = self.kv_pos(idx);
        put_record(&mut self.data, pos, &key, &val);
        let ghost s2 = self.data@;
        let ghost len: int = 4 + key@.len() as int + val@.len();
        proof {
            lemma_write_keeps_prefix(s0, s1, s2, k, pos as int, len);
            lemma_prefix_frame(s0, s2, k);
            lemma_u64_kept(s1, s2, pos as int, len, ptr_pos(k));
        }
        let off: usize = self.get_offset(idx) as usize + 4 + key.len() + val.len();
        self.set_offset(idx + 1, off as u16);
        let ghost s3 = self.data@;
        proof {
            let at = offset_pos(s0, k + 1);
            lemma_write_keeps_prefix(s0, s2, s3, k, at, 2);
            lemma_u64_kept(s2, s3, at, 2, ptr_pos(k));
            lemma_u16_kept(s2, s3, at, 2, pos as int);
            lemma_u16_kept(s2, s3, at, 2, pos + 2);
            lemma_run_kept(s2, s3, at, 2, pos + 4, pos + 4 + key@.len());
            lemma_run_kept(s2, s3, at, 2, pos + 4 + key@.len(), pos + len);
            lemma_record_appended(s0, s3, k, ptr as int, key@, val@);
            assert(same_but_entries(s0, s3, k, k + 1, pos + len)) by {
                assert forall|j: int|
                    0 <= j < s0.len() && !in_entries(s0, k, k + 1, pos + len, j) implies s3[j]
                    == s0[j] by {
                    assert(s1[j] == s0[j]);
                    assert(s2[j] == s1[j]);
                    assert(s3[j] == s2[j]);
                }
            }
        }
    }

    /// Copies `n` entries of `from`, from index `src_old` on, behind the
    /// `dst_new` entries that have been written: the child pages, the offsets
    /// moved to where the copy lies, and the records as one run of bytes.
    #[verifier::rlimit(40)]
    pub fn node_append_range(&mut self, from: &BNode, dst_new: u16, src_old: u16, n: u16)
        requires
            old(self).filled(dst_new as int),
            from.filled(src_old + n),
            dst_new + n <= old(self).spec_nkeys(),
            page_kv_pos(old(self).bytes(), dst_new as int) + page_offset(
                from.bytes(),
                src_old + n,
            ) - page_offset(from.bytes(), src_old as int) <= old(self).bytes().len(),
        ensures
            final(self).filled(dst_new + n),
            final(self).bytes().len() == old(self).bytes().len(),
            final(self).spec_nkeys() == old(self).spec_nkeys(),
            final(self).spec_btype() == old(self).spec_btype(),
            same_but_entries(
                old(self).bytes(),
                final(self).bytes(),
                dst_new as int,
                dst_new + n,
                page_kv_pos(old(self).bytes(), dst_new as int) + page_offset(
                    from.bytes(),
                    src_old + n,
                ) - page_offset(from.bytes(), src_old as int),
            ),
            page_offset(final(self).bytes(), dst_new + n) == page_offset(
                old(self).bytes(),
                dst_new as int,
            ) + page_offset(from.bytes(), src_old + n) - page_offset(
                from.bytes(),
                src_old as int,
            ),
            page_entries(final(self).bytes(), dst_new + n) == page_entries(
                old(self).bytes(),
                dst_new as int,
            ) + page_entries(from.bytes(), src_old + n).subrange(src_old as int, src_old + n),
    {
        let ghost s0 = self.data@;
        let ghost o = from.data@;
        let ghost dst = dst_new as int;
        let ghost src = src_old as int;
        if n == 0 {
            assert(page_entries(s0, dst) =~= page_entries(s0, dst) + page_entries(o, src).subrange(
                src,
                src,
            ));
            return ;
        }
        let ghost kv_end = page_kv_pos(s0, dst) + page_offset(o, src + n) - page_offset(o, src);
        proof {
            lemma_offsets_monotone(s0, dst, 0, dst);
            lemma_offsets_monotone(o, src + n, src, src + n);
        }
        // the child pages
        let mut i: u16 = 0;
        while i < n
            invariant
                i <= n,
                filled(s0, dst),
                filled(o, src + n),
                o == from.data@,
                dst == dst_new,
                src == src_old,
                dst + n <= page_nkeys(s0),
                agree_prefix(s0, self.data@, dst),
                same_but_entries(s0, self.data@, dst, dst + n, kv_end),
                forall|j: int| 4 + 8 * page_nkeys(s0) <= j < s0.len() ==> self.data@[j] == s0[j],
                forall|a: int|
                    dst <= a < dst + i ==> #[trigger] page_ptr(self.data@, a) == page_ptr(
                        o,
                        a - dst + src,
                    ),
            decreases n - i,
        {
            let ghost c0 = self.data@;
            proof {
                lemma_prefix_frame(s0, c0, dst);
            }
            let p: u64 = from.get_ptr(src_old + i);
            self.set_ptr(dst_new + i, p);
            proof {
                let c1 = self.data@;
                assert forall|a: int| dst <= a < dst + i + 1 implies #[trigger] page_ptr(c1, a)
                    == page_ptr(o, a - dst + src) by {
                    if a < dst + i {
                        assert(page_ptr(c0, a) == page_ptr(o, a - dst + src));
                        let q = ptr_pos(a);
                        assert(c1[q] == c0[q] && c1[q + 1] == c0[q + 1] && c1[q + 2] == c0[q + 2]
                            && c1[q + 3] == c0[q + 3] && c1[q + 4] == c0[q + 4] && c1[q + 5]
                            == c0[q + 5] && c1[q + 6] == c0[q + 6] && c1[q + 7] == c0[q + 7]);
                    }
                }
            }
            i = i + 1;
        }
        // the offsets
        proof {
            lemma_prefix_frame(s0, self.data@, dst);
        }
        let dst_begin: u16 = self.get_offset(dst_new);
        let src_begin: u16 = from.get_offset(src_old);
        let mut i: u16 = 1;
        while i <= n
            invariant
                1 <= i <= n + 1,
                filled(s0, dst),
                filled(o, src + n),
                o == from.data@,
                dst == dst_new,
                src == src_old,
                dst + n <= page_nkeys(s0),
                dst_begin == page_offset(s0, dst),
                src_begin == page_offset(o, src),
                page_kv_pos(s0, dst) + page_offset(o, src + n) - page_offset(o, src) <= s0.len(),
                agree_prefix(s0, self.data@, dst),
                same_but_entries(s0, self.data@, dst, dst + n, kv_end),
                forall|j: int| 4 + 10 * page_nkeys(s0) <= j < s0.len() ==> self.data@[j] == s0[j],
                forall|a: int|
                    dst <= a < dst + n ==> #[trigger] page_ptr(self.data@, a) == page_ptr(
                        o,
                        a - dst + src,
                    ),
                forall|a: int|
                    dst < a < dst + i ==> #[trigger] page_offset(self.data@, a) == dst_begin
                        + page_offset(o, a - dst + src) - src_begin,
            decreases n + 1 - i,
        {
            let ghost c0 = self.data@;
            proof {
                lemma_prefix_frame(s0, c0, dst);
                lemma_offsets_monotone(o, src + n, src, src + i);
                lemma_offsets_monotone(o, src + n, src + i, src + n);
            }
            let delta: u16 = from.get_offset(src_old + i) - src_begin;
            let offset: u16 = dst_begin + delta;
            self.set_offset(dst_new + i, offset);
            proof {
                let c1 = self.data@;
                let nk = page_nkeys(s0);
                assert(page_nkeys(c1) == nk);
                assert forall|a: int| dst <= a < dst + n implies #[trigger] page_ptr(c1, a)
                    == page_ptr(o, a - dst + src) by {
                    assert(page_ptr(c0, a) == page_ptr(o, a - dst + src));
                    let q = ptr_pos(a);
                    assert(c1[q] == c0[q] && c1[q + 1] == c0[q + 1] && c1[q + 2] == c0[q + 2]
                        && c1[q + 3] == c0[q + 3] && c1[q + 4] == c0[q + 4] && c1[q + 5] == c0[q
                        + 5] && c1[q + 6] == c0[q + 6] && c1[q + 7] == c0[q + 7]);
                }
                assert forall|a: int| dst < a < dst + i + 1 implies #[trigger] page_offset(c1, a)
                    == dst_begin + page_offset(o, a - dst + src) - src_begin by {
                    if a < dst + i {
                        assert(page_offset(c0, a) == dst_begin + page_offset(o, a - dst + src)
                            - src_begin);
                        let q = offset_pos(s0, a);
                        assert(c1[q] == c0[q] && c1[q + 1] == c0[q + 1]);
                    }
                }
            }
            i = i + 1;
        }
        // the records
        proof {
            lemma_prefix_frame(s0, self.data@, dst);
        }
        let ghost c2 = self.data@;
        let begin: usize = from.kv_pos(src_old);
        let end: usize = from.kv_pos(src_old + n);
        let pos: usize = self.kv_pos(dst_new);
        put_bytes(&mut self.data, pos, &from.data, begin, end - begin);
        proof {
            let c3 = self.data@;
            let nk = page_nkeys(s0);
            assert(c3[2] == c2[2] && c3[3] == c2[3]);
            assert(page_nkeys(c3) == nk);
            assert forall|a: int| dst <= a < dst + n implies #[trigger] page_ptr(c3, a)
                == page_ptr(o, a - dst + src) by {
                assert(page_ptr(c2, a) == page_ptr(o, a - dst + src));
                let q = ptr_pos(a);
                assert(c3[q] == c2[q] && c3[q + 1] == c2[q + 1] && c3[q + 2] == c2[q + 2] && c3[q
                    + 3] == c2[q + 3] && c3[q + 4] == c2[q + 4] && c3[q + 5] == c2[q + 5] && c3[q
                    + 6] == c2[q + 6] && c3[q + 7] == c2[q + 7]);
            }
            assert forall|a: int| dst < a <= dst + n implies #[trigger] page_offset(c3, a)
                == page_offset(s0, dst) + page_offset(o, a - dst + src) - page_offset(o, src) by {
                assert(page_offset(c2, a) == dst_begin + page_offset(o, a - dst + src)
                    - src_begin);
                let q = offset_pos(s0, a);
                assert(c3[q] == c2[q] && c3[q + 1] == c2[q + 1]);
            }
            assert(agree_prefix(s0, c3, dst));
            assert(same_but_entries(s0, c3, dst, dst + n, kv_end)) by {
                assert forall|j: int|
                    0 <= j < s0.len() && !in_entries(s0, dst, dst + n, kv_end, j) implies c3[j]
                    == s0[j] by {
                    assert(c2[j] == s0[j]);
                }
            }
            assert(range_copied(s0, c3, o, dst, src, n as int));
            lemma_range_appended(s0, c3, o, dst, src, n as int);
        }
    }
}

impl BNode {
    /// Builds in `self` the leaf `from` with one entry more, at index `idx`.
    #[verifier::rlimit(40)]
    pub fn leaf_insert(&mut self, from: &BNode, idx: u16, key: Vec<u8>, val: Vec<u8>)
        requires
            buffer_ok(old(self).bytes()),
            from.wf(),
            idx <= from.spec_nkeys(),
            from.spec_n_bytes() + 14 + key@.len() + val@.len() <= old(self).bytes().len(),
        ensures
            final(self).wf(),
            final(self).bytes().len() == old(self).bytes().len(),
            final(self)@.kind == BNODE_LEAF,
            final(self)@.entries == from@.entries.insert(
                idx as int,
                Entry { ptr: 0, key: key@, val: val@ },
            ),
            final(self).spec_n_bytes() == from.spec_n_bytes() + 14 + key@.len() + val@.len(),
            rest_kept(old(self).bytes(), final(self).bytes()),
    {
        let n: u16 = from.nkeys();
        let ghost f = from.bytes();
        let ghost e = Entry { ptr: 0, key: key@, val: val@ };
        let ghost s0 = self.bytes();
        proof {
            lemma_offsets_monotone(f, n as int, 0, idx as int);
            lemma_offsets_monotone(f, n as int, idx as int, n as int);
        }
        self.set_header(BNODE_LEAF, n + 1);
        let ghost sh = self.bytes();
        self.node_append_range(from, 0, 0, idx);
        let ghost s1 = self.bytes();
        self.node_append_kv(idx, 0, key, val);
        let ghost s2 = self.bytes();
        self.node_append_range(from, idx + 1, idx, n - idx);
        proof {
            let s3 = self.bytes();
            lemma_built_rest(
                s0,
                sh,
                s1,
                s2,
                s3,
                idx as int,
                idx + 1,
                n + 1,
                page_kv_pos(sh, 0) + page_offset(f, idx as int) - page_offset(f, 0),
                page_kv_pos(s1, idx as int) + 4 + e.key.len() + e.val.len(),
            );
            let es = page_entries(f, n as int);
            assert(page_entries(s1, idx as int) =~= es.subrange(0, idx as int));
            assert(page_entries(s2, idx + 1) =~= es.subrange(0, idx as int).push(e));
            assert(page_entries(s3, n + 1) =~= es.insert(idx as int, e));
        }
    }

    /// Builds in `self` the leaf `from` with the entry at index `idx`
    /// replaced. The caller sees to it that the key there equals `key`.
    #[verifier::rlimit(40)]
    pub fn leaf_update(&mut self, from: &BNode, idx: u16, key: Vec<u8>, val: Vec<u8>)
        requires
            buffer_ok(old(self).bytes()),
            from.wf(),
            idx < from.spec_nkeys(),
            from.spec_n_bytes() - from@.entries[idx as int].key.len()
                - from@.entries[idx as int].val.len() + key@.len() + val@.len() <= old(
                self,
            ).bytes().len(),
        ensures
            final(self).wf(),
            final(self).bytes().len() == old(self).bytes().len(),
            final(self)@.kind == BNODE_LEAF,
            final(self)@.entries == from@.entries.update(
                idx as int,
                Entry { ptr: 0, key: key@, val: val@ },
            ),
            final(self).spec_n_bytes() == from.spec_n_bytes() - from@.entries[idx as int].key.len()
                - from@.entries[idx as int].val.len() + key@.len() + val@.len(),
            rest_kept(old(self).bytes(), final(self).bytes()),
    {
        let n: u16 = from.nkeys();
        let ghost f = from.bytes();
        let ghost e = Entry { ptr: 0, key: key@, val: val@ };
        let ghost s0 = self.bytes();
        proof {
            lemma_offsets_monotone(f, n as int, 0, idx as int);
            lemma_offsets_monotone(f, n as int, idx + 1, n as int);
            lemma_entry_lengths(f, n as int, idx as int);
        }
        self.set_header(BNODE_LEAF, n);
        let ghost sh = self.bytes();
        self.node_append_range(from, 0, 0, idx);
        let ghost s1 = self.bytes();
        self.node_append_kv(idx, 0, key, val);
        let ghost s2 = self.bytes();
        self.node_append_range(from, idx + 1, idx + 1, n - idx - 1);
        proof {
            let s3 = self.bytes();
            lemma_built_rest(
                s0,
                sh,
                s1,
                s2,
                s3,
                idx as int,
                idx + 1,
                n as int,
                page_kv_pos(sh, 0) + page_offset(f, idx as int) - page_offset(f, 0),
                page_kv_pos(s1, idx as int) + 4 + e.key.len() + e.val.len(),
            );
            let es = page_entries(f, n as int);
            assert(page_entries(s1, idx as int) =~= es.subrange(0, idx as int));
            assert(page_entries(s2, idx + 1) =~= es.subrange(0, idx as int).push(e));
            assert(page_entries(s3, n as int) =~= es.update(idx as int, e));
        }
    }
}

/// Why a buffer is no node, if it is none: it is shorter than a header or
/// longer than offsets reach, or its tag is not known (a decode error); or an
/// entry that its header counts does not lie inside it as the offsets say (a
/// bounds violation).
pub open spec fn decode_fault(s: Seq<u8>) -> Option<BTreeError> {
    if !buffer_ok(s) || (page_btype(s) != BNODE_NODE && page_btype(s) != BNODE_LEAF) {
        Some(BTreeError::DecodeError)
    } else if !page_wf(s) {
        Some(BTreeError::BoundsViolation)
    } else {
        None
    }
}

impl BNode {
    /// The page of the node: its bytes, then zeros up to the size of a page.
    pub fn encode(&self) -> (r: Vec<u8>)
        requires
            self.wf(),
            self.spec_n_bytes() <= BTREE_PAGE_SIZE,
        ensures
            r@ == page_image(self.bytes()),
            page_wf(r@),
            page_view(r@) == self@,
    {
        let size: usize = self.n_bytes() as usize;
        let mut out: Vec<u8> = vec![0u8; BTREE_PAGE_SIZE];
        proof {
            lemma_offsets_monotone(self.bytes(), self.spec_nkeys(), 0, self.spec_nkeys());
        }
        put_bytes(&mut out, 0, &self.data, 0, size);
        proof {
            assert(out@ =~= page_image(self.bytes()));
            lemma_page_image(self.bytes());
        }
        out
    }

    /// The node in a buffer of exactly one page.
    pub fn to_page(&self) -> (r: BNode)
        requires
            self.wf(),
            self.spec_n_bytes() <= BTREE_PAGE_SIZE,
        ensures
            r.bytes() == page_image(self.bytes()),
            r.wf(),
            r@ == self@,
            r.spec_n_bytes() == self.spec_n_bytes(),
    {
        proof {
            lemma_page_image(self.bytes());
        }
        BNode { data: self.encode() }
    }

    /// The child page, the key and the value at index `idx`, or a bounds
    /// violation where the node has no such entry.
    pub fn entry(&self, idx: u16) -> (r: Result<(u64, Vec<u8>, Vec<u8>), BTreeError>)
        requires
            self.wf(),
        ensures
            match r {
                Ok(e) => idx < self.spec_nkeys() && self@.entries[idx as int] == (Entry {
                    ptr: e.0 as int,
                    key: e.1@,
                    val: e.2@,
                }),
                Err(e) => idx >= self.spec_nkeys() && e == BTreeError::BoundsViolation,
            },
    {
        if idx >= self.nkeys() {
            return Err(BTreeError::BoundsViolation);
        }
        Ok((self.get_ptr(idx), self.get_key(idx), self.get_val(idx)))
    }

    /// Takes a buffer for a node, if it is one: it starts with the tag of a
    /// leaf or of an internal node, and every entry lies inside it.
    #[verifier::rlimit(40)]
    pub fn decode(bytes: Vec<u8>) -> (r: Result<BNode, BTreeError>)
        ensures
            match r {
                Ok(node) => decode_fault(bytes@) is None && node.bytes() == bytes@,
                Err(e) => decode_fault(bytes@) == Some(e),
            },
    {
        if bytes.len() < HEADER || bytes.len() > 0xffff {
            return Err(BTreeError::DecodeError);
        }
        let node: BNode = BNode { data: bytes };
        match NodeType::from(node.btype()) {
            Ok(_) => {},
            Err(e) => {
                return Err(e);
            },
        }
        let n: u16 = node.nkeys();
        let len: usize = node.data.len();
        if HEADER + 10 * n as usize > len {
            return Err(BTreeError::BoundsViolation);
        }
        let mut i: u16 = 0;
        while i < n
            invariant
                i <= n,
                n == node.spec_nkeys(),
                len == node.data@.len(),
                node.data@ == bytes@,
                page_btype(bytes@) == BNODE_NODE || page_btype(bytes@) == BNODE_LEAF,
                node.filled(i as int),
            decreases n - i,
        {
            proof {
                lemma_offsets_monotone(node.bytes(), i as int, 0, i as int);
            }
            let pos: usize = node.kv_pos(i);
            if pos + 4 > len {
                assert(!record_ok(node.bytes(), i as int));
                return Err(BTreeError::BoundsViolation);
            }
            let klen: usize = get_u16(&node.data, pos) as usize;
            let vlen: usize = get_u16(&node.data, pos + 2) as usize;
            let next: usize = node.get_offset(i + 1) as usize;
            if next != node.get_offset(i) as usize + 4 + klen + vlen || HEADER + 10 * n as usize
                + next > len {
                assert(!record_ok(node.bytes(), i as int));
                return Err(BTreeError::BoundsViolation);
            }
            assert(record_ok(node.bytes(), i as int));
            i = i + 1;
        }
        Ok(node)
    }
}

/// A node that is written to its page and read back is the node it was: the
/// same kind, the same number of keys, and at each index the same child page,
/// key and value.
pub proof fn lemma_encode_decode(node: BNode)
    requires
        node.wf(),
        node.spec_n_bytes() <= BTREE_PAGE_SIZE,
        node@.kind == BNODE_NODE || node@.kind == BNODE_LEAF,
    ensures
        decode_fault(page_image(node.bytes())) is None,
        page_view(page_image(node.bytes())) == node@,
        page_nkeys(page_image(node.bytes())) == node.spec_nkeys(),
        forall|i: int|
            0 <= i < node.spec_nkeys() ==> #[trigger] page_entry(page_image(node.bytes()), i)
                == page_entry(node.bytes(), i),
{
    let s = node.bytes();
    let t = page_image(s);
    lemma_page_image(s);
    lemma_offsets_monotone(s, page_nkeys(s), 0, page_nkeys(s));
    assert(covers_prefix(s, t, page_nkeys(s)));
    lemma_prefix_covered(s, t, page_nkeys(s));
}

} // verus!
