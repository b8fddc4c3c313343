//! Little-endian integers and zero-terminated strings as byte sequences.

use vstd::prelude::*;

verus! {

/// The 16-bit value whose little-endian form starts `s`.
pub open spec fn le16(s: Seq<u8>) -> u16
    recommends
        s.len() >= 2,
{
    (s[0] as int + 256 * (s[1] as int)) as u16
}

/// The 32-bit value whose little-endian form starts `s`.
pub open spec fn le32(s: Seq<u8>) -> u32
    recommends
        s.len() >= 4,
{
    (s[0] as int + 256 * (s[1] as int) + 65536 * (s[2] as int) + 16777216 * (s[3] as int)) as u32
}

/// The two bytes of `x`, low byte first.
pub open spec fn le16_bytes(x: u16) -> Seq<u8> {
    seq![(x % 256) as u8, (x / 256) as u8]
}

/// The four bytes of `x`, low byte first.
pub open spec fn le32_bytes(x: u32) -> Seq<u8> {
    seq![
        (x % 256) as u8,
        ((x / 256) % 256) as u8,
        ((x / 65536) % 256) as u8,
        (x / 16777216) as u8,
    ]
}

/// Two sequences with the same first `n` elements agree at each of those places.
pub proof fn lemma_same_prefix(a: Seq<u8>, b: Seq<u8>, n: int)
    requires
        0 <= n <= a.len(),
        n <= b.len(),
        a.take(n) == b.take(n),
    ensures
        forall|i: int| 0 <= i < n ==> a[i] == b[i],
        forall|k: int| 0 <= k <= n ==> #[trigger] a.take(k) == b.take(k),
        forall|k: int, m: int|
            0 <= k && 0 <= m && k + m <= n ==> #[trigger] a.skip(k).take(m) == b.skip(k).take(m),
{
    assert forall|i: int| 0 <= i < n implies a[i] == b[i] by {
        assert(a.take(n)[i] == a[i]);
        assert(b.take(n)[i] == b[i]);
    }
    assert forall|k: int| 0 <= k <= n implies #[trigger] a.take(k) == b.take(k) by {
        assert(a.take(k) =~= b.take(k));
    }
    assert forall|k: int, m: int| 0 <= k && 0 <= m && k + m <= n implies #[trigger] a.skip(
        k,
    ).take(m) == b.skip(k).take(m) by {
        assert(a.skip(k).take(m) =~= b.skip(k).take(m));
    }
}

/// Reading back what `le16_bytes` wrote gives the value, whatever follows.
pub proof fn lemma_le16_roundtrip(x: u16, rest: Seq<u8>)
    ensures
        le16(le16_bytes(x) + rest) == x,
        le16_bytes(x).len() == 2,
{
}

/// Reading back what `le32_bytes` wrote gives the value, whatever follows.
pub proof fn lemma_le32_roundtrip(x: u32, rest: Seq<u8>)
    ensures
        le32(le32_bytes(x) + rest) == x,
        le32_bytes(x).len() == 4,
{
}

/// Appends one byte.
pub fn put_u8(sink: &mut Vec<u8>, x: u8)
    ensures
        final(sink)@ == old(sink)@ + seq![x],
{
    sink.push(x);
    assert(sink@ =~= old(sink)@ + seq![x]);
}

/// Appends `x` in little-endian order.
pub fn put_u16_le(sink: &mut Vec<u8>, x: u16)
    ensures
        final(sink)@ == old(sink)@ + le16_bytes(x),
{
    sink.push((x % 256) as u8);
    sink.push((x / 256) as u8);
    assert(sink@ =~= old(sink)@ + le16_bytes(x));
}

/// Appends `x` in little-endian order.
pub fn put_u32_le(sink: &mut Vec<u8>, x: u32)
    ensures
        final(sink)@ == old(sink)@ + le32_bytes(x),
{
    sink.push((x % 256) as u8);
    sink.push(((x / 256) % 256) as u8);
    sink.push(((x / 65536) % 256) as u8);
    sink.push((x / 16777216) as u8);
    assert(sink@ =~= old(sink)@ + le32_bytes(x));
}

/// Appends a copy of `bytes`.
pub fn put_slice(sink: &mut Vec<u8>, bytes: &[u8])
    ensures
        final(sink)@ == old(sink)@ + bytes@,
{
    let mut i: usize = 0;
    while i < bytes.len()
        invariant
            i <= bytes@.len(),
            sink@ == old(sink)@ + bytes@.take(i as int),
        decreases bytes@.len() - i,
    {
        sink.push(bytes[i]);
        i = i + 1;
        assert(sink@ =~= old(sink)@ + bytes@.take(i as int));
    }
    assert(bytes@.take(i as int) =~= bytes@);
}

/// The position of the first zero byte of `s`, or the length of `s` if it has none.
pub open spec fn nul_pos(s: Seq<u8>) -> int
    decreases s.len(),
{
    if s.len() == 0 || s[0] == 0 {
        0
    } else {
        1 + nul_pos(s.drop_first())
    }
}

/// No byte of `s` is zero.
pub open spec fn zero_free(s: Seq<u8>) -> bool {
    forall|i: int| 0 <= i < s.len() ==> s[i] != 0
}

/// `nul_pos` is the least index of a zero byte.
pub proof fn lemma_nul_pos(s: Seq<u8>)
    ensures
        nul_pos(s) <= s.len(),
        0 <= nul_pos(s),
        zero_free(s.take(nul_pos(s))),
        nul_pos(s) < s.len() ==> s[nul_pos(s)] == 0,
    decreases s.len(),
{
    if s.len() == 0 || s[0] == 0 {
    } else {
        let t = s.drop_first();
        lemma_nul_pos(t);
        let n = nul_pos(s);
        assert forall|i: int| 0 <= i < n implies s.take(n)[i] != 0 by {
            if i > 0 {
                assert(t.take(n - 1)[i - 1] == s[i]);
            }
        }
    }
}

/// A zero-free string followed by a zero byte ends at that byte.
pub proof fn lemma_nul_pos_terminated(text: Seq<u8>, rest: Seq<u8>)
    requires
        zero_free(text),
    ensures
        nul_pos(text + seq![0u8] + rest) == text.len(),
    decreases text.len(),
{
    let s = text + seq![0u8] + rest;
    if text.len() == 0 {
        assert(s[0] == 0);
    } else {
        assert(s[0] == text[0]);
        assert(s.drop_first() =~= text.drop_first() + seq![0u8] + rest);
        lemma_nul_pos_terminated(text.drop_first(), rest);
    }
}

/// A zero-free sequence has no terminator.
pub proof fn lemma_nul_pos_unterminated(s: Seq<u8>)
    requires
        zero_free(s),
    ensures
        nul_pos(s) == s.len(),
    decreases s.len(),
{
    if s.len() > 0 {
        lemma_nul_pos_unterminated(s.drop_first());
    }
}

/// Bytes behind a terminated string do not move its terminator.
pub proof fn lemma_nul_pos_extend(s: Seq<u8>, t: Seq<u8>)
    requires
        nul_pos(s) < s.len(),
    ensures
        nul_pos(s + t) == nul_pos(s),
{
    lemma_nul_pos(s);
    assert((s + t).take(nul_pos(s) + 1) =~= s.take(nul_pos(s) + 1));
    lemma_nul_pos_local(s, s + t);
}

/// Skipping within the first of two joined sequences leaves the second whole.
pub proof fn lemma_skip_extend(s: Seq<u8>, t: Seq<u8>, k: int)
    requires
        0 <= k <= s.len(),
    ensures
        (s + t).skip(k) == s.skip(k) + t,
{
    assert((s + t).skip(k) =~= s.skip(k) + t);
}

/// The terminator's position depends only on the bytes up to and including it.
pub proof fn lemma_nul_pos_local(s: Seq<u8>, z: Seq<u8>)
    requires
        0 <= nul_pos(s) < s.len(),
        z.len() > nul_pos(s),
        z.take(nul_pos(s) + 1) == s.take(nul_pos(s) + 1),
    ensures
        nul_pos(z) == nul_pos(s),
    decreases s.len(),
{
    let n = nul_pos(s);
    assert(z[0] == z.take(n + 1)[0]);
    assert(s[0] == s.take(n + 1)[0]);
    if s[0] != 0 {
        let s1 = s.drop_first();
        let z1 = z.drop_first();
        assert(z1.take(n) =~= z.take(n + 1).drop_first());
        assert(s1.take(n) =~= s.take(n + 1).drop_first());
        lemma_nul_pos(s1);
        lemma_nul_pos_local(s1, z1);
    }
}

} // verus!
