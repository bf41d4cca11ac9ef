//! The page layout, read off a byte sequence.
//!
//! ```text
//! | type | nkeys |  pointers  |   offsets  | key-values
//! |  2B  |   2B  | nkeys * 8B | nkeys * 2B | ...
//! ```
//! A key-value record is `| klen 2B | vlen 2B | key | val |`. The offset of
//! record `i` counts from the start of the key-value region; that of record 0
//! is 0 and is not stored, and slot `i` of the offset list (counting from 1)
//! holds the offset at which record `i` begins, so the last slot holds the end
//! of the used region.
use vstd::prelude::*;
use crate::keys::key_lt;
use crate::wire::{same_outside, u16_at, u64_at};

verus! {

/// The bytes of the header: the tag and the number of keys.
pub const HEADER: usize = 4;

/// The bytes of a page.
pub const BTREE_PAGE_SIZE: usize = 4096;

/// The greatest length of a key.
pub const BTREE_MAX_KEY_SIZE: usize = 1000;

/// The greatest length of a value.
pub const BTREE_MAX_VAL_SIZE: usize = 3000;

/// The bytes that one entry of the greatest size takes in a node: a pointer,
/// an offset, the two lengths, the key and the value.
pub const BTREE_MAX_ENTRY_SIZE: usize = 14 + BTREE_MAX_KEY_SIZE + BTREE_MAX_VAL_SIZE;

/// The greatest size of a node before it is split: a full page and one more
/// entry.
pub const BTREE_MAX_NODE_SIZE: usize = BTREE_PAGE_SIZE + BTREE_MAX_ENTRY_SIZE;

/// The tag of an internal node.
pub const BNODE_NODE: u16 = 1;

/// The tag of a leaf.
pub const BNODE_LEAF: u16 = 2;

/// The size of a node with one entry of the greatest size, which a page has
/// room for.
pub fn init() -> (node1max: usize)
    ensures
        node1max == HEADER + BTREE_MAX_ENTRY_SIZE,
        node1max <= BTREE_PAGE_SIZE,
{
    HEADER + 8 + 2 + 4 + BTREE_MAX_KEY_SIZE + BTREE_MAX_VAL_SIZE
}

/// One entry of a node: the child page (0 in a leaf), the key and the value
/// (empty in an internal node).
pub struct Entry {
    pub ptr: int,
    pub key: Seq<u8>,
    pub val: Seq<u8>,
}

/// What a node holds: its tag and its entries in order.
pub struct NodeView {
    pub kind: int,
    pub entries: Seq<Entry>,
}

/// The tag in the header.
pub open spec fn page_btype(s: Seq<u8>) -> int {
    u16_at(s, 0)
}

/// The number of keys in the header.
pub open spec fn page_nkeys(s: Seq<u8>) -> int {
    u16_at(s, 2)
}

/// Where the child page of entry `i` is stored.
pub open spec fn ptr_pos(i: int) -> int {
    4 + 8 * i
}

/// Where the offset of entry `i` is stored, for `i` from 1 on.
pub open spec fn offset_pos(s: Seq<u8>, i: int) -> int {
    4 + 8 * page_nkeys(s) + 2 * (i - 1)
}

/// The child page of entry `i`.
pub open spec fn page_ptr(s: Seq<u8>, i: int) -> int {
    u64_at(s, ptr_pos(i))
}

/// Where the record of entry `i` begins, counted from the start of the
/// key-value region.
pub open spec fn page_offset(s: Seq<u8>, i: int) -> int {
    if i <= 0 {
        0
    } else {
        u16_at(s, offset_pos(s, i))
    }
}

/// Where the record of entry `i` begins in the buffer.
pub open spec fn page_kv_pos(s: Seq<u8>, i: int) -> int {
    4 + 10 * page_nkeys(s) + page_offset(s, i)
}

/// The length of the key of entry `i`, as its record gives it.
pub open spec fn page_klen(s: Seq<u8>, i: int) -> int {
    u16_at(s, page_kv_pos(s, i))
}

/// The length of the value of entry `i`, as its record gives it.
pub open spec fn page_vlen(s: Seq<u8>, i: int) -> int {
    u16_at(s, page_kv_pos(s, i) + 2)
}

/// The key of entry `i`.
pub open spec fn page_key(s: Seq<u8>, i: int) -> Seq<u8> {
    s.subrange(page_kv_pos(s, i) + 4, page_kv_pos(s, i) + 4 + page_klen(s, i))
}

/// The value of entry `i`.
pub open spec fn page_val(s: Seq<u8>, i: int) -> Seq<u8> {
    s.subrange(
        page_kv_pos(s, i) + 4 + page_klen(s, i),
        page_kv_pos(s, i) + 4 + page_klen(s, i) + page_vlen(s, i),
    )
}

/// Entry `i`.
pub open spec fn page_entry(s: Seq<u8>, i: int) -> Entry {
    Entry { ptr: page_ptr(s, i), key: page_key(s, i), val: page_val(s, i) }
}

/// The first `k` entries.
pub open spec fn page_entries(s: Seq<u8>, k: int) -> Seq<Entry> {
    Seq::new(k as nat, |i: int| page_entry(s, i))
}

/// What the buffer holds as a node.
pub open spec fn page_view(s: Seq<u8>) -> NodeView {
    NodeView { kind: page_btype(s), entries: page_entries(s, page_nkeys(s)) }
}

/// The keys of the entries grow strictly: sorted, and none twice.
pub open spec fn entries_sorted(es: Seq<Entry>) -> bool {
    forall|i: int, j: int| 0 <= i < j < es.len() ==> key_lt(#[trigger] es[i].key, #[trigger] es[j].key)
}

/// The encoded size of a node that holds the first `k` entries.
pub open spec fn prefix_size(s: Seq<u8>, k: int) -> int {
    4 + 10 * k + page_offset(s, k)
}

/// The encoded size of a node that holds entries `a..b`.
pub open spec fn range_size(s: Seq<u8>, a: int, b: int) -> int {
    4 + 10 * (b - a) + page_offset(s, b) - page_offset(s, a)
}

/// Where a node is cut in two: the longest run of entries from the first on
/// whose node fits one page.
pub open spec fn is_split_point(s: Seq<u8>, k: int) -> bool {
    &&& 0 <= k <= page_nkeys(s)
    &&& prefix_size(s, k) <= BTREE_PAGE_SIZE
    &&& (k < page_nkeys(s) ==> prefix_size(s, k + 1) > BTREE_PAGE_SIZE)
}

/// A key and a value within the sizes that a page can take.
pub open spec fn entry_fits(e: Entry) -> bool {
    e.key.len() <= BTREE_MAX_KEY_SIZE && e.val.len() <= BTREE_MAX_VAL_SIZE
}

/// Every key and value is within the sizes that a page can take.
pub open spec fn entries_fit(es: Seq<Entry>) -> bool {
    forall|i: int| 0 <= i < es.len() ==> entry_fits(#[trigger] es[i])
}

/// The node's total byte length.
pub open spec fn page_size(s: Seq<u8>) -> int {
    page_kv_pos(s, page_nkeys(s))
}

/// A buffer has room for the header, and every offset in it fits 16 bits.
pub open spec fn buffer_ok(s: Seq<u8>) -> bool {
    4 <= s.len() <= 0xffff
}

/// The header, the pointers and the offset list lie inside the buffer.
pub open spec fn layout_fits(s: Seq<u8>) -> bool {
    &&& buffer_ok(s)
    &&& 4 + 10 * page_nkeys(s) <= s.len()
}

/// Record `i` lies inside the buffer and ends where the offset list says.
pub open spec fn record_ok(s: Seq<u8>, i: int) -> bool {
    &&& page_offset(s, i + 1) == page_offset(s, i) + 4 + page_klen(s, i) + page_vlen(s, i)
    &&& page_kv_pos(s, i + 1) <= s.len()
}

/// The first `k` entries have been written.
pub open spec fn filled(s: Seq<u8>, k: int) -> bool {
    &&& layout_fits(s)
    &&& 0 <= k <= page_nkeys(s)
    &&& forall|i: int| 0 <= i < k ==> #[trigger] record_ok(s, i)
}

/// Every entry that the header counts has been written.
pub open spec fn page_wf(s: Seq<u8>) -> bool {
    filled(s, page_nkeys(s))
}

/// Byte `j` belongs to what the first `k` entries of `s` are read from.
pub open spec fn in_prefix(s: Seq<u8>, k: int, j: int) -> bool {
    ||| 0 <= j < 4 + 8 * k
    ||| 4 + 8 * page_nkeys(s) <= j < 4 + 8 * page_nkeys(s) + 2 * k
    ||| 4 + 10 * page_nkeys(s) <= j < page_kv_pos(s, k)
}

/// `t` has the length of `s` and its bytes wherever the first `k` entries of
/// `s` are read from.
pub open spec fn agree_prefix(s: Seq<u8>, t: Seq<u8>, k: int) -> bool {
    &&& t.len() == s.len()
    &&& forall|j: int| 0 <= j < s.len() && in_prefix(s, k, j) ==> t[j] == s[j]
}

/// `t` is a buffer with room for the first `k` entries of `s`, and has the
/// bytes of `s` wherever these are read from.
pub open spec fn covers_prefix(s: Seq<u8>, t: Seq<u8>, k: int) -> bool {
    &&& buffer_ok(t)
    &&& 4 + 10 * page_nkeys(s) <= t.len()
    &&& page_kv_pos(s, k) <= t.len()
    &&& forall|j: int| 0 <= j < t.len() && in_prefix(s, k, j) ==> t[j] == s[j]
}

/// Byte `j` is one that the entries `a..b` of a node laid out as `s` are
/// written to: their pointers, the offsets at which they end, and their
/// records, which end before `end`.
pub open spec fn in_entries(s: Seq<u8>, a: int, b: int, end: int, j: int) -> bool {
    ||| 4 + 8 * a <= j < 4 + 8 * b
    ||| 4 + 8 * page_nkeys(s) + 2 * a <= j < 4 + 8 * page_nkeys(s) + 2 * b
    ||| page_kv_pos(s, a) <= j < end
}

/// `t` is `s` but for the bytes that the entries `a..b` are written to.
pub open spec fn same_but_entries(s: Seq<u8>, t: Seq<u8>, a: int, b: int, end: int) -> bool {
    &&& t.len() == s.len()
    &&& forall|j: int| 0 <= j < s.len() && !in_entries(s, a, b, end, j) ==> t[j] == s[j]
}

/// `t` has the length of `s`, and the bytes of `s` behind the node that it
/// holds.
pub open spec fn rest_kept(s: Seq<u8>, t: Seq<u8>) -> bool {
    &&& t.len() == s.len()
    &&& forall|j: int| page_size(t) <= j < s.len() ==> t[j] == s[j]
}

/// Writing entries leaves the bytes behind them as they were.
pub proof fn lemma_entries_rest(s: Seq<u8>, t: Seq<u8>, a: int, b: int, end: int, lim: int)
    requires
        same_but_entries(s, t, a, b, end),
        0 <= a <= b <= page_nkeys(s),
        end <= lim,
        4 + 10 * page_nkeys(s) <= lim,
    ensures
        forall|j: int| lim <= j < s.len() ==> t[j] == s[j],
{
    assert forall|j: int| lim <= j < s.len() implies t[j] == s[j] by {
        assert(!in_entries(s, a, b, end, j));
    }
}

/// A node built in three steps behind its header, each step writing the
/// entries behind those of the step before, leaves the bytes behind the node
/// as they were.
pub proof fn lemma_built_rest(
    s0: Seq<u8>,
    sh: Seq<u8>,
    s1: Seq<u8>,
    s2: Seq<u8>,
    s3: Seq<u8>,
    a: int,
    b: int,
    n: int,
    e1: int,
    e2: int,
)
    requires
        same_outside(s0, sh, 0, 4),
        same_but_entries(sh, s1, 0, a, e1),
        same_but_entries(s1, s2, a, b, e2),
        same_but_entries(s2, s3, b, n, page_size(s3)),
        page_nkeys(sh) == n,
        page_nkeys(s1) == n,
        page_nkeys(s2) == n,
        page_nkeys(s3) == n,
        0 <= a <= b <= n,
        e1 <= page_size(s3),
        e2 <= page_size(s3),
        0 <= page_offset(s3, n),
    ensures
        rest_kept(s0, s3),
{
    let lim = page_size(s3);
    lemma_entries_rest(sh, s1, 0, a, e1, lim);
    lemma_entries_rest(s1, s2, a, b, e2, lim);
    lemma_entries_rest(s2, s3, b, n, lim, lim);
    assert forall|j: int| lim <= j < s0.len() implies s3[j] == s0[j] by {
        assert(s1[j] == sh[j]);
        assert(s2[j] == s1[j]);
        assert(sh[j] == s0[j]);
    }
}

/// A write beside the prefix leaves the prefix as it was: one into the
/// pointers or the offsets of later entries, or behind the records written.
pub proof fn lemma_write_keeps_prefix(s: Seq<u8>, c: Seq<u8>, t: Seq<u8>, k: int, pos: int, n: int)
    requires
        filled(s, k),
        agree_prefix(s, c, k),
        same_outside(c, t, pos, n),
        ({
            ||| 4 + 8 * k <= pos && pos + n <= 4 + 8 * page_nkeys(s)
            ||| 4 + 8 * page_nkeys(s) + 2 * k <= pos && pos + n <= 4 + 10 * page_nkeys(s)
            ||| page_kv_pos(s, k) <= pos
        }),
    ensures
        agree_prefix(s, t, k),
{
    lemma_offsets_monotone(s, k, 0, k);
    assert forall|j: int| 0 <= j < s.len() && in_prefix(s, k, j) implies t[j] == s[j] by {
        assert(!(pos <= j < pos + n));
        assert(t[j] == c[j]);
    }
}

/// Offsets grow by at least the four length bytes from one entry to the next.
pub proof fn lemma_offsets_monotone(s: Seq<u8>, k: int, i: int, j: int)
    requires
        filled(s, k),
        0 <= i <= j <= k,
    ensures
        page_offset(s, i) + 4 * (j - i) <= page_offset(s, j),
        page_kv_pos(s, j) <= s.len(),
    decreases j - i,
{
    if i < j {
        lemma_offsets_monotone(s, k, i, j - 1);
        assert(record_ok(s, j - 1));
    } else if j > 0 {
        assert(record_ok(s, j - 1));
    }
}

/// Entry `i` of the first `k` depends on the bytes of the prefix alone.
#[verifier::rlimit(40)]
proof fn lemma_prefix_frame_at(s: Seq<u8>, t: Seq<u8>, k: int, i: int)
    requires
        filled(s, k),
        covers_prefix(s, t, k),
        0 <= i < k,
    ensures
        page_nkeys(t) == page_nkeys(s),
        page_offset(t, i) == page_offset(s, i),
        page_offset(t, i + 1) == page_offset(s, i + 1),
        page_entry(t, i) == page_entry(s, i),
        record_ok(t, i),
{
    assert(t[0] == s[0] && t[1] == s[1] && t[2] == s[2] && t[3] == s[3]);
    lemma_offsets_monotone(s, k, i + 1, k);
    lemma_offsets_monotone(s, k, 0, i);
    assert(record_ok(s, i));
    if i >= 1 {
        let p = offset_pos(s, i);
        assert(in_prefix(s, k, p) && in_prefix(s, k, p + 1));
        assert(t[p] == s[p] && t[p + 1] == s[p + 1]);
    }
    let pg1 = offset_pos(s, i + 1);
    assert(in_prefix(s, k, pg1) && in_prefix(s, k, pg1 + 1));
    assert(t[pg1] == s[pg1] && t[pg1 + 1] == s[pg1 + 1]);
    assert(page_offset(t, i) == page_offset(s, i));
    assert(page_offset(t, i + 1) == page_offset(s, i + 1));
    let p = page_kv_pos(s, i);
    assert(page_kv_pos(t, i) == p);
    assert forall|j: int| p <= j < page_kv_pos(s, i + 1) implies t[j] == s[j] by {
        assert(in_prefix(s, k, j));
    }
    assert(t[p] == s[p] && t[p + 1] == s[p + 1] && t[p + 2] == s[p + 2] && t[p + 3] == s[p + 3]);
    assert(page_klen(t, i) == page_klen(s, i));
    assert(page_vlen(t, i) == page_vlen(s, i));
    assert(page_key(t, i) =~= page_key(s, i));
    assert(page_val(t, i) =~= page_val(s, i));
    let q = ptr_pos(i);
    assert forall|j: int| q <= j < q + 8 implies t[j] == s[j] by {
        assert(in_prefix(s, k, j));
    }
    assert(t[q] == s[q] && t[q + 1] == s[q + 1] && t[q + 2] == s[q + 2] && t[q + 3] == s[q + 3]
        && t[q + 4] == s[q + 4] && t[q + 5] == s[q + 5] && t[q + 6] == s[q + 6] && t[q + 7]
        == s[q + 7]);
    assert(page_ptr(t, i) == page_ptr(s, i));
}

/// The first `k` entries depend on the bytes of the prefix alone.
pub proof fn lemma_prefix_frame(s: Seq<u8>, t: Seq<u8>, k: int)
    requires
        filled(s, k),
        agree_prefix(s, t, k),
    ensures
        filled(t, k),
        page_nkeys(t) == page_nkeys(s),
        page_btype(t) == page_btype(s),
        forall|i: int| 0 <= i <= k ==> #[trigger] page_offset(t, i) == page_offset(s, i),
        forall|i: int| 0 <= i < k ==> #[trigger] page_entry(t, i) == page_entry(s, i),
        page_entries(t, k) == page_entries(s, k),
{
    lemma_offsets_monotone(s, k, 0, k);
    lemma_prefix_covered(s, t, k);
}

/// The first `k` entries are the same in any buffer that holds the prefix.
pub proof fn lemma_prefix_covered(s: Seq<u8>, t: Seq<u8>, k: int)
    requires
        filled(s, k),
        covers_prefix(s, t, k),
    ensures
        filled(t, k),
        page_nkeys(t) == page_nkeys(s),
        page_btype(t) == page_btype(s),
        forall|i: int| 0 <= i <= k ==> #[trigger] page_offset(t, i) == page_offset(s, i),
        forall|i: int| 0 <= i < k ==> #[trigger] page_entry(t, i) == page_entry(s, i),
        page_entries(t, k) == page_entries(s, k),
{
    assert(t[0] == s[0] && t[1] == s[1] && t[2] == s[2] && t[3] == s[3]);
    assert forall|i: int| 0 <= i <= k implies #[trigger] page_offset(t, i) == page_offset(
        s,
        i,
    ) by {
        if i >= 1 {
            lemma_prefix_frame_at(s, t, k, i - 1);
        }
    }
    assert forall|i: int| 0 <= i < k implies #[trigger] page_entry(t, i) == page_entry(s, i) by {
        lemma_prefix_frame_at(s, t, k, i);
    }
    assert forall|i: int| 0 <= i < k implies #[trigger] record_ok(t, i) by {
        lemma_prefix_frame_at(s, t, k, i);
    }
    assert(page_entries(t, k) =~= page_entries(s, k));
}

/// Writing one record behind `k` written entries makes `k + 1` of them.
#[verifier::rlimit(40)]
pub proof fn lemma_record_appended(
    s: Seq<u8>,
    t: Seq<u8>,
    k: int,
    ptr: int,
    key: Seq<u8>,
    val: Seq<u8>,
)
    requires
        filled(s, k),
        k < page_nkeys(s),
        agree_prefix(s, t, k),
        page_ptr(t, k) == ptr,
        page_kv_pos(s, k) + 4 + key.len() + val.len() <= s.len(),
        u16_at(t, page_kv_pos(s, k)) == key.len(),
        u16_at(t, page_kv_pos(s, k) + 2) == val.len(),
        t.subrange(page_kv_pos(s, k) + 4, page_kv_pos(s, k) + 4 + key.len()) == key,
        t.subrange(
            page_kv_pos(s, k) + 4 + key.len(),
            page_kv_pos(s, k) + 4 + key.len() + val.len(),
        ) == val,
        u16_at(t, offset_pos(s, k + 1)) == page_offset(s, k) + 4 + key.len() + val.len(),
    ensures
        filled(t, k + 1),
        page_nkeys(t) == page_nkeys(s),
        page_btype(t) == page_btype(s),
        page_offset(t, k + 1) == page_offset(s, k) + 4 + key.len() + val.len(),
        page_entries(t, k + 1) == page_entries(s, k).push(Entry { ptr, key, val }),
{
    lemma_prefix_frame(s, t, k);
    assert(page_offset(t, k) == page_offset(s, k));
    assert(page_kv_pos(t, k) == page_kv_pos(s, k));
    assert(record_ok(t, k));
    assert(page_entry(t, k) == Entry { ptr, key, val });
    assert forall|i: int| 0 <= i < k + 1 implies #[trigger] record_ok(t, i) by {
        if i < k {
            assert(record_ok(t, i));
        }
    }
    assert forall|i: int| 0 <= i < k implies page_entries(t, k + 1)[i] == page_entries(s, k)[i] by {
        assert(page_entry(t, i) == page_entry(s, i));
    }
    assert(page_entries(t, k + 1) =~= page_entries(s, k).push(Entry { ptr, key, val }));
}

/// `t` holds, behind the first `dst` entries of `s`, the `n` entries of `o`
/// from `src` on: their pointers, their offsets moved to the new base, and
/// their records as one run of bytes.
pub open spec fn range_copied(s: Seq<u8>, t: Seq<u8>, o: Seq<u8>, dst: int, src: int, n: int) -> bool {
    &&& agree_prefix(s, t, dst)
    &&& forall|i: int| dst <= i < dst + n ==> #[trigger] page_ptr(t, i) == page_ptr(o, i - dst + src)
    &&& forall|i: int|
        dst < i <= dst + n ==> #[trigger] page_offset(t, i) == page_offset(s, dst) + page_offset(
            o,
            i - dst + src,
        ) - page_offset(o, src)
    &&& forall|j: int|
        page_kv_pos(s, dst) <= j < page_kv_pos(s, dst) + page_offset(o, src + n) - page_offset(
            o,
            src,
        ) ==> t[j] == o[j - page_kv_pos(s, dst) + page_kv_pos(o, src)]
}

/// One entry of a copied range.
#[verifier::rlimit(40)]
proof fn lemma_range_appended_at(
    s: Seq<u8>,
    t: Seq<u8>,
    o: Seq<u8>,
    dst: int,
    src: int,
    n: int,
    a: int,
)
    requires
        filled(s, dst),
        filled(o, src + n),
        0 <= src,
        0 <= n,
        dst + n <= page_nkeys(s),
        page_kv_pos(s, dst) + page_offset(o, src + n) - page_offset(o, src) <= s.len(),
        range_copied(s, t, o, dst, src, n),
        dst <= a < dst + n,
    ensures
        record_ok(t, a),
        page_entry(t, a) == page_entry(o, a - dst + src),
{
    lemma_prefix_frame(s, t, dst);
    let base = page_offset(s, dst);
    let from = page_offset(o, src);
    let b = a - dst + src;
    assert(page_offset(t, dst) == base);
    assert(page_offset(t, a) == base + page_offset(o, b) - from);
    assert(page_offset(t, a + 1) == base + page_offset(o, b + 1) - from);
    lemma_offsets_monotone(o, src + n, src, b);
    lemma_offsets_monotone(o, src + n, b + 1, src + n);
    assert(record_ok(o, b));
    let p = page_kv_pos(t, a);
    let q = page_kv_pos(o, b);
    let shift = page_kv_pos(o, src) - page_kv_pos(s, dst);
    assert(q == p + shift);
    let len = 4 + page_klen(o, b) + page_vlen(o, b);
    assert(page_offset(o, b + 1) == page_offset(o, b) + len);
    assert forall|j: int| p <= j < p + len implies t[j] == o[j + shift] by {}
    assert(t[p] == o[p + shift] && t[p + 1] == o[p + 1 + shift] && t[p + 2] == o[p + 2 + shift]
        && t[p + 3] == o[p + 3 + shift]);
    assert(page_klen(t, a) == page_klen(o, b));
    assert(page_vlen(t, a) == page_vlen(o, b));
    assert(page_key(t, a) =~= page_key(o, b));
    assert(page_val(t, a) =~= page_val(o, b));
    assert(page_ptr(t, a) == page_ptr(o, b));
}

/// Copying a range of entries behind `dst` written entries makes `dst + n`.
pub proof fn lemma_range_appended(s: Seq<u8>, t: Seq<u8>, o: Seq<u8>, dst: int, src: int, n: int)
    requires
        filled(s, dst),
        filled(o, src + n),
        0 <= src,
        0 <= n,
        dst + n <= page_nkeys(s),
        page_kv_pos(s, dst) + page_offset(o, src + n) - page_offset(o, src) <= s.len(),
        range_copied(s, t, o, dst, src, n),
    ensures
        filled(t, dst + n),
        page_nkeys(t) == page_nkeys(s),
        page_btype(t) == page_btype(s),
        page_offset(t, dst + n) == page_offset(s, dst) + page_offset(o, src + n) - page_offset(
            o,
            src,
        ),
        page_entries(t, dst + n) == page_entries(s, dst) + page_entries(o, src + n).subrange(
            src,
            src + n,
        ),
{
    lemma_prefix_frame(s, t, dst);
    assert(page_offset(t, dst) == page_offset(s, dst));
    assert forall|i: int| 0 <= i < dst + n implies #[trigger] record_ok(t, i) by {
        if i >= dst {
            lemma_range_appended_at(s, t, o, dst, src, n, i);
        }
    }
    let lhs = page_entries(t, dst + n);
    let rhs = page_entries(s, dst) + page_entries(o, src + n).subrange(src, src + n);
    assert(lhs.len() == rhs.len());
    assert forall|i: int| 0 <= i < dst + n implies lhs[i] == rhs[i] by {
        if i < dst {
            assert(page_entry(t, i) == page_entry(s, i));
        } else {
            lemma_range_appended_at(s, t, o, dst, src, n, i);
        }
    }
    assert(lhs =~= rhs);
}

/// The key and the value of a written entry are as long as their length
/// fields say.
pub proof fn lemma_entry_lengths(s: Seq<u8>, k: int, i: int)
    requires
        filled(s, k),
        0 <= i < k,
    ensures
        page_entry(s, i).key.len() == page_klen(s, i),
        page_entry(s, i).val.len() == page_vlen(s, i),
        page_offset(s, i + 1) == page_offset(s, i) + 4 + page_entry(s, i).key.len() + page_entry(
            s,
            i,
        ).val.len(),
{
    assert(record_ok(s, i));
    lemma_offsets_monotone(s, k, 0, i);
}

/// The bytes that entries take in a node: for each a pointer, an offset, the
/// two lengths, the key and the value.
pub open spec fn entries_size(es: Seq<Entry>) -> int
    decreases es.len(),
{
    if es.len() == 0 {
        0
    } else {
        entries_size(es.drop_last()) + 14 + es.last().key.len() + es.last().val.len()
    }
}

/// The size of a node is that of its header and of its entries.
pub proof fn lemma_size_by_entries(s: Seq<u8>, k: int)
    requires
        filled(s, k),
    ensures
        prefix_size(s, k) == 4 + entries_size(page_entries(s, k)),
        k == page_nkeys(s) ==> page_size(s) == 4 + entries_size(page_view(s).entries),
    decreases k,
{
    if k > 0 {
        lemma_size_by_entries(s, k - 1);
        lemma_entry_lengths(s, k, k - 1);
        assert(page_entries(s, k).drop_last() =~= page_entries(s, k - 1));
        assert(page_entries(s, k).last() == page_entry(s, k - 1));
    }
}

/// The size of a prefix grows with its length.
pub proof fn lemma_prefix_size_monotone(s: Seq<u8>, k: int, i: int, j: int)
    requires
        filled(s, k),
        0 <= i <= j <= k,
    ensures
        prefix_size(s, i) + 14 * (j - i) <= prefix_size(s, j),
{
    lemma_offsets_monotone(s, k, i, j);
}

/// A node is cut at one place only.
pub proof fn lemma_split_point_unique(s: Seq<u8>, a: int, b: int)
    requires
        page_wf(s),
        is_split_point(s, a),
        is_split_point(s, b),
    ensures
        a == b,
{
    if a < b {
        lemma_prefix_size_monotone(s, page_nkeys(s), a + 1, b);
    } else if b < a {
        lemma_prefix_size_monotone(s, page_nkeys(s), b + 1, a);
    }
}

/// The 16-bit integer at a position fixes the two bytes there.
proof fn lemma_u16_bytes(s: Seq<u8>, t: Seq<u8>, a: int, b: int)
    requires
        u16_at(s, a) == u16_at(t, b),
    ensures
        s[a] == t[b],
        s[a + 1] == t[b + 1],
{
}

/// A number is its last byte and, 256 times, the number without it.
proof fn lemma_last_byte(v: int, byte: int, rest: int)
    requires
        v == byte + 0x100 * rest,
        0 <= byte < 0x100,
    ensures
        byte == v % 0x100,
        rest == v / 0x100,
{
}

/// The number that the bytes from `from` up to the eighth make, the byte at
/// `from` the lowest.
spec fn tail_value(s: Seq<u8>, a: int, from: int) -> int
    decreases 8 - from,
{
    if from >= 8 {
        0
    } else {
        s[a + from] as int + 0x100 * tail_value(s, a, from + 1)
    }
}

/// Equal numbers are made of equal bytes.
proof fn lemma_tail_bytes(s: Seq<u8>, t: Seq<u8>, a: int, from: int)
    requires
        0 <= from <= 8,
        tail_value(s, a, from) == tail_value(t, a, from),
    ensures
        forall|j: int| a + from <= j < a + 8 ==> s[j] == t[j],
    decreases 8 - from,
{
    if from < 8 {
        lemma_last_byte(tail_value(s, a, from), s[a + from] as int, tail_value(s, a, from + 1));
        lemma_last_byte(tail_value(t, a, from), t[a + from] as int, tail_value(t, a, from + 1));
        lemma_tail_bytes(s, t, a, from + 1);
    }
}

/// The 64-bit integer at a position fixes the eight bytes there.
proof fn lemma_u64_bytes(s: Seq<u8>, t: Seq<u8>, a: int)
    requires
        u64_at(s, a) == u64_at(t, a),
    ensures
        forall|j: int| a <= j < a + 8 ==> s[j] == t[j],
{
    reveal_with_fuel(tail_value, 9);
    assert(tail_value(s, a, 0) == u64_at(s, a));
    assert(tail_value(t, a, 0) == u64_at(t, a));
    lemma_tail_bytes(s, t, a, 0);
}

/// Two buffers that hold the same have the same number of keys and, at each
/// index, the same entry.
proof fn lemma_same_entry(s: Seq<u8>, t: Seq<u8>, i: int)
    requires
        page_nkeys(s) >= 0,
        page_nkeys(t) >= 0,
        page_view(s) == page_view(t),
    ensures
        page_nkeys(s) == page_nkeys(t),
        0 <= i < page_nkeys(s) ==> page_entry(s, i) == page_entry(t, i),
{
    let es = page_entries(s, page_nkeys(s));
    let et = page_entries(t, page_nkeys(t));
    assert(es == et);
    assert(es.len() == page_nkeys(s));
    assert(et.len() == page_nkeys(t));
    if 0 <= i < page_nkeys(s) {
        assert(es[i] == page_entry(s, i));
        assert(et[i] == page_entry(t, i));
    }
}

/// Two nodes that hold the same have the same offsets.
proof fn lemma_same_offsets(s: Seq<u8>, t: Seq<u8>, i: int)
    requires
        page_wf(s),
        page_wf(t),
        page_view(s) == page_view(t),
        0 <= i <= page_nkeys(s),
    ensures
        page_nkeys(s) == page_nkeys(t),
        page_offset(s, i) == page_offset(t, i),
    decreases i,
{
    lemma_same_entry(s, t, 0);
    if i > 0 {
        lemma_same_offsets(s, t, i - 1);
        lemma_entry_lengths(s, page_nkeys(s), i - 1);
        lemma_entry_lengths(t, page_nkeys(t), i - 1);
        lemma_same_entry(s, t, i - 1);
    }
}

/// The layout is canonical: two nodes that hold the same are the same bytes,
/// from the header to the end of the last record.
#[verifier::rlimit(40)]
pub proof fn lemma_view_pins_bytes(s: Seq<u8>, t: Seq<u8>)
    requires
        page_wf(s),
        page_wf(t),
        page_view(s) == page_view(t),
    ensures
        page_size(s) == page_size(t),
        forall|j: int| 0 <= j < page_size(s) ==> s[j] == t[j],
{
    let n = page_nkeys(s);
    lemma_same_offsets(s, t, n);
    lemma_offsets_monotone(s, n, 0, n);
    lemma_offsets_monotone(t, n, 0, n);
    lemma_u16_bytes(s, t, 0, 0);
    lemma_u16_bytes(s, t, 2, 2);
    assert forall|j: int| 0 <= j < page_size(s) implies s[j] == t[j] by {
        if j < 4 {
        } else if j < 4 + 8 * n {
            let i = (j - 4) / 8;
            lemma_same_entry(s, t, i);
            assert(page_ptr(s, i) == page_ptr(t, i));
            lemma_u64_bytes(s, t, ptr_pos(i));
        } else if j < 4 + 10 * n {
            let i = (j - 4 - 8 * n) / 2 + 1;
            lemma_same_offsets(s, t, i);
            lemma_u16_bytes(s, t, offset_pos(s, i), offset_pos(t, i));
        } else {
            let i = lemma_record_at(s, n, j);
            lemma_same_offsets(s, t, i);
            lemma_same_offsets(s, t, i + 1);
            lemma_entry_lengths(s, n, i);
            lemma_entry_lengths(t, n, i);
            assert(record_ok(s, i) && record_ok(t, i));
            lemma_same_entry(s, t, i);
            let p = page_kv_pos(s, i);
            assert(page_kv_pos(t, i) == p);
            let kl = page_klen(s, i);
            assert(page_klen(t, i) == kl);
            assert(page_vlen(t, i) == page_vlen(s, i));
            lemma_u16_bytes(s, t, p, p);
            lemma_u16_bytes(s, t, p + 2, p + 2);
            if j >= p + 4 + kl {
                assert(page_val(s, i)[j - p - 4 - kl] == s[j]);
                assert(page_val(t, i)[j - p - 4 - kl] == t[j]);
            } else if j >= p + 4 {
                assert(page_key(s, i)[j - p - 4] == s[j]);
                assert(page_key(t, i)[j - p - 4] == t[j]);
            }
        }
    }
}

/// A byte of the key-value region that is in use lies in the record of one
/// entry.
proof fn lemma_record_at(s: Seq<u8>, k: int, j: int) -> (i: int)
    requires
        filled(s, k),
        page_kv_pos(s, 0) <= j < page_kv_pos(s, k),
    ensures
        0 <= i < k,
        page_kv_pos(s, i) <= j < page_kv_pos(s, i + 1),
    decreases k,
{
    lemma_offsets_monotone(s, k, 0, k - 1);
    if j >= page_kv_pos(s, k - 1) {
        k - 1
    } else {
        lemma_record_at(s, k - 1, j)
    }
}

/// The page that holds a node: its bytes as far as the node reaches, then
/// zeros up to the size of a page.
pub open spec fn page_image(s: Seq<u8>) -> Seq<u8> {
    Seq::new(BTREE_PAGE_SIZE as nat, |j: int| if j < page_size(s) { s[j] } else { 0u8 })
}

/// The page of a node that fits one holds what the node holds.
pub proof fn lemma_page_image(s: Seq<u8>)
    requires
        page_wf(s),
        page_size(s) <= BTREE_PAGE_SIZE,
    ensures
        page_wf(page_image(s)),
        page_view(page_image(s)) == page_view(s),
        page_size(page_image(s)) == page_size(s),
{
    let n = page_nkeys(s);
    let t = page_image(s);
    lemma_offsets_monotone(s, n, 0, n);
    assert(covers_prefix(s, t, n));
    lemma_prefix_covered(s, t, n);
}

} // verus!
