//! Little-endian integers and byte runs inside a buffer.
use vstd::prelude::*;

verus! {

/// The 16-bit little-endian integer stored at `pos`.
pub open spec fn u16_at(s: Seq<u8>, pos: int) -> int {
    s[pos] as int + 0x100 * (s[pos + 1] as int)
}

/// The 64-bit little-endian integer stored at `pos`.
pub open spec fn u64_at(s: Seq<u8>, pos: int) -> int {
    s[pos] as int + 0x100 * (s[pos + 1] as int) + 0x1_0000 * (s[pos + 2] as int) + 0x100_0000 * (
    s[pos + 3] as int) + 0x1_0000_0000 * (s[pos + 4] as int) + 0x100_0000_0000 * (s[pos
        + 5] as int) + 0x1_0000_0000_0000 * (s[pos + 6] as int) + 0x100_0000_0000_0000 * (s[pos
        + 7] as int)
}

/// `t` is `s` with the `n` bytes from `pos` on replaced; nothing else moved.
pub open spec fn same_outside(s: Seq<u8>, t: Seq<u8>, pos: int, n: int) -> bool {
    &&& t.len() == s.len()
    &&& forall|j: int| 0 <= j < s.len() && !(pos <= j < pos + n) ==> t[j] == s[j]
}

/// Reads the 16-bit integer at `pos`.
pub fn get_u16(data: &Vec<u8>, pos: usize) -> (r: u16)
    requires
        pos + 2 <= data.len(),
    ensures
        r == u16_at(data@, pos as int),
{
    let lo: u16 = data[pos] as u16;
    let hi: u16 = data[pos + 1] as u16;
    lo + 0x100 * hi
}

/// Writes the 16-bit integer at `pos`.
pub fn put_u16(data: &mut Vec<u8>, pos: usize, v: u16)
    requires
        pos + 2 <= old(data).len(),
    ensures
        same_outside(old(data)@, final(data)@, pos as int, 2),
        u16_at(final(data)@, pos as int) == v,
{
    data.set(pos, (v % 0x100) as u8);
    data.set(pos + 1, (v / 0x100) as u8);
}

/// Reads the 64-bit integer at `pos`.
pub fn get_u64(data: &Vec<u8>, pos: usize) -> (r: u64)
    requires
        pos + 8 <= data.len(),
    ensures
        r == u64_at(data@, pos as int),
{
    let mut acc: u64 = 0;
    let mut i: usize = 8;
    while i > 0
        invariant
            i <= 8,
            pos + 8 <= data.len(),
            i == 8 ==> acc == 0,
            i == 7 ==> acc == data@[pos + 7],
            i == 6 ==> acc == data@[pos + 6] + 0x100 * data@[pos + 7],
            i == 5 ==> acc == data@[pos + 5] + 0x100 * data@[pos + 6] + 0x1_0000 * data@[pos + 7],
            i == 4 ==> acc == data@[pos + 4] + 0x100 * data@[pos + 5] + 0x1_0000 * data@[pos + 6]
                + 0x100_0000 * data@[pos + 7],
            i == 3 ==> acc == data@[pos + 3] + 0x100 * data@[pos + 4] + 0x1_0000 * data@[pos + 5]
                + 0x100_0000 * data@[pos + 6] + 0x1_0000_0000 * data@[pos + 7],
            i == 2 ==> acc == data@[pos + 2] + 0x100 * data@[pos + 3] + 0x1_0000 * data@[pos + 4]
                + 0x100_0000 * data@[pos + 5] + 0x1_0000_0000 * data@[pos + 6] + 0x100_0000_0000
                * data@[pos + 7],
            i == 1 ==> acc == data@[pos + 1] + 0x100 * data@[pos + 2] + 0x1_0000 * data@[pos + 3]
                + 0x100_0000 * data@[pos + 4] + 0x1_0000_0000 * data@[pos + 5] + 0x100_0000_0000
                * data@[pos + 6] + 0x1_0000_0000_0000 * data@[pos + 7],
            i == 0 ==> acc == u64_at(data@, pos as int),
        decreases i,
    {
        i = i - 1;
        acc = acc * 0x100 + data[pos + i] as u64;
    }
    acc
}

/// Writes the 64-bit integer at `pos`.
pub fn put_u64(data: &mut Vec<u8>, pos: usize, v: u64)
    requires
        pos + 8 <= old(data).len(),
    ensures
        same_outside(old(data)@, final(data)@, pos as int, 8),
        u64_at(final(data)@, pos as int) == v,
{
    let r1: u64 = v / 0x100;
    let r2: u64 = r1 / 0x100;
    let r3: u64 = r2 / 0x100;
    let r4: u64 = r3 / 0x100;
    let r5: u64 = r4 / 0x100;
    let r6: u64 = r5 / 0x100;
    let r7: u64 = r6 / 0x100;
    assert(r7 < 0x100);
    data.set(pos, (v % 0x100) as u8);
    data.set(pos + 1, (r1 % 0x100) as u8);
    data.set(pos + 2, (r2 % 0x100) as u8);
    data.set(pos + 3, (r3 % 0x100) as u8);
    data.set(pos + 4, (r4 % 0x100) as u8);
    data.set(pos + 5, (r5 % 0x100) as u8);
    data.set(pos + 6, (r6 % 0x100) as u8);
    data.set(pos + 7, r7 as u8);
}

/// Copies `n` bytes of `src`, from index `from` on, over `data` at `pos`.
pub fn put_bytes(data: &mut Vec<u8>, pos: usize, src: &Vec<u8>, from: usize, n: usize)
    requires
        pos + n <= old(data).len(),
        from + n <= src.len(),
    ensures
        same_outside(old(data)@, final(data)@, pos as int, n as int),
        forall|j: int| pos <= j < pos + n ==> final(data)@[j] == src@[j - pos + from],
{
    let mut i: usize = 0;
    while i < n
        invariant
            i <= n,
            pos + n <= data.len(),
            from + n <= src.len(),
            same_outside(old(data)@, data@, pos as int, i as int),
            forall|j: int| pos <= j < pos + i ==> data@[j] == src@[j - pos + from],
        decreases n - i,
    {
        data.set(pos + i, src[from + i]);
        i = i + 1;
    }
}

/// A 16-bit integer outside the bytes that were replaced is as before.
pub proof fn lemma_u16_kept(s: Seq<u8>, t: Seq<u8>, pos: int, n: int, a: int)
    requires
        same_outside(s, t, pos, n),
        0 <= a,
        a + 2 <= s.len(),
        a + 2 <= pos || pos + n <= a,
    ensures
        u16_at(t, a) == u16_at(s, a),
{
    assert(t[a] == s[a] && t[a + 1] == s[a + 1]);
}

/// A 64-bit integer outside the bytes that were replaced is as before.
pub proof fn lemma_u64_kept(s: Seq<u8>, t: Seq<u8>, pos: int, n: int, a: int)
    requires
        same_outside(s, t, pos, n),
        0 <= a,
        a + 8 <= s.len(),
        a + 8 <= pos || pos + n <= a,
    ensures
        u64_at(t, a) == u64_at(s, a),
{
    assert(t[a] == s[a] && t[a + 1] == s[a + 1] && t[a + 2] == s[a + 2] && t[a + 3] == s[a + 3]);
    assert(t[a + 4] == s[a + 4] && t[a + 5] == s[a + 5] && t[a + 6] == s[a + 6] && t[a + 7] == s[a
        + 7]);
}

/// A run of bytes outside those that were replaced is as before.
pub proof fn lemma_run_kept(s: Seq<u8>, t: Seq<u8>, pos: int, n: int, a: int, b: int)
    requires
        same_outside(s, t, pos, n),
        0 <= a <= b <= s.len(),
        b <= pos || pos + n <= a,
    ensures
        t.subrange(a, b) == s.subrange(a, b),
{
    assert(t.subrange(a, b) =~= s.subrange(a, b));
}

/// Writes the record of one entry at `pos`: the two lengths, the key, the
/// value.
pub fn put_record(data: &mut Vec<u8>, pos: usize, key: &Vec<u8>, val: &Vec<u8>)
    requires
        pos + 4 + key.len() + val.len() <= old(data).len(),
        old(data).len() <= 0xffff,
    ensures
        same_outside(old(data)@, final(data)@, pos as int, 4 + key@.len() as int + val@.len()),
        u16_at(final(data)@, pos as int) == key@.len(),
        u16_at(final(data)@, pos + 2) == val@.len(),
        final(data)@.subrange(pos + 4, pos + 4 + key@.len()) == key@,
        final(data)@.subrange(pos + 4 + key@.len(), pos + 4 + key@.len() + val@.len()) == val@,
{
    let klen: usize = key.len();
    let vlen: usize = val.len();
    let ghost s0 = data@;
    put_u16(data, pos, klen as u16);
    let ghost s1 = data@;
    put_u16(data, pos + 2, vlen as u16);
    let ghost s2 = data@;
    proof {
        lemma_u16_kept(s1, s2, pos + 2, 2, pos as int);
    }
    put_bytes(data, pos + 4, key, 0, klen);
    let ghost s3 = data@;
    proof {
        lemma_u16_kept(s2, s3, pos + 4, klen as int, pos as int);
        lemma_u16_kept(s2, s3, pos + 4, klen as int, pos + 2);
        assert(s3.subrange(pos + 4, pos + 4 + klen) =~= key@);
    }
    put_bytes(data, pos + 4 + klen, val, 0, vlen);
    let ghost s4 = data@;
    proof {
        lemma_u16_kept(s3, s4, pos + 4 + klen, vlen as int, pos as int);
        lemma_u16_kept(s3, s4, pos + 4 + klen, vlen as int, pos + 2);
        lemma_run_kept(s3, s4, pos + 4 + klen, vlen as int, pos + 4, pos + 4 + klen);
        assert(s4.subrange(pos + 4 + klen, pos + 4 + klen + vlen) =~= val@);
    }
}

/// The `n` bytes of `data` from `pos` on.
pub fn take_bytes(data: &Vec<u8>, pos: usize, n: usize) -> (r: Vec<u8>)
    requires
        pos + n <= data.len(),
    ensures
        r@ == data@.subrange(pos as int, pos + n),
{
    let mut out: Vec<u8> = Vec::new();
    let mut i: usize = 0;
    while i < n
        invariant
            i <= n,
            pos + n <= data.len(),
            out@ == data@.subrange(pos as int, pos + i),
        decreases n - i,
    {
        out.push(data[pos + i]);
        i = i + 1;
        assert(out@ =~= data@.subrange(pos as int, pos + i));
    }
    out
}

} // verus!
