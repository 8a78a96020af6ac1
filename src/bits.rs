//! The bit-stream codec: bytes to bits, most significant bit first, and back.
use vstd::prelude::*;
use vstd::arithmetic::power2::{pow2, lemma_pow2_unfold};

verus! {

/// Bit `k` (0 = most significant) of the byte `b`.
pub open spec fn bit_of(b: u8, k: int) -> u8 {
    (b >> ((7 - k) as u8)) & 1u8
}

/// The eight bits of `b`, most significant first.
pub open spec fn byte_bits(b: u8) -> Seq<u8> {
    Seq::new(8, |k: int| bit_of(b, k))
}

/// Each byte of `bytes` expanded to eight bits, most significant first, in order.
pub open spec fn bits_of(bytes: Seq<u8>) -> Seq<u8> {
    Seq::new(8 * bytes.len(), |i: int| bit_of(bytes[i / 8], i % 8))
}

/// The four bytes of `n` in big-endian order.
pub open spec fn be_bytes(n: u32) -> Seq<u8> {
    seq![(n >> 24u32) as u8, (n >> 16u32) as u8, (n >> 8u32) as u8, n as u8]
}

/// The bit stream of a payload: its length prefix, then its bytes.
pub open spec fn stream_bits(length_prefix: u32, payload: Seq<u8>) -> Seq<u8> {
    bits_of(be_bytes(length_prefix) + payload)
}

/// Every element is a single bit.
pub open spec fn all_bits(s: Seq<u8>) -> bool {
    forall|i: int| 0 <= i < s.len() ==> #[trigger] s[i] <= 1
}

/// The number whose binary digits, most significant first, are `s`.
pub open spec fn bits_value(s: Seq<u8>) -> nat
    decreases s.len(),
{
    if s.len() == 0 {
        0
    } else {
        2 * bits_value(s.drop_last()) + s.last() as nat
    }
}

/// The byte held by the eight bits of `s` starting at `start`.
pub open spec fn byte_at(s: Seq<u8>, start: int) -> u8 {
    bits_value(s.subrange(start, start + 8)) as u8
}

/// Each whole group of eight bits of `s` regrouped into one byte.
pub open spec fn bytes_of(s: Seq<u8>) -> Seq<u8> {
    Seq::new(s.len() / 8, |j: int| byte_at(s, 8 * j))
}

pub proof fn lemma_bits_value_bound(s: Seq<u8>)
    requires
        all_bits(s),
    ensures
        bits_value(s) < pow2(s.len()),
    decreases s.len(),
{
    vstd::arithmetic::power2::lemma2_to64();
    if s.len() > 0 {
        let d = s.drop_last();
        assert(all_bits(d)) by {
            assert forall|i: int| 0 <= i < d.len() implies #[trigger] d[i] <= 1 by {
                assert(d[i] == s[i]);
            }
        }
        lemma_bits_value_bound(d);
        lemma_pow2_unfold(s.len());
        assert(s[s.len() - 1] <= 1);
    }
}

pub proof fn lemma_bits_value_append(s: Seq<u8>, t: Seq<u8>)
    ensures
        bits_value(s + t) == bits_value(s) * pow2(t.len()) + bits_value(t),
    decreases t.len(),
{
    if t.len() == 0 {
        assert(s + t =~= s);
        vstd::arithmetic::power2::lemma2_to64();
        assert(bits_value(t) == 0);
        assert(bits_value(s) * 1 == bits_value(s));
    } else {
        assert((s + t).drop_last() =~= s + t.drop_last());
        lemma_bits_value_append(s, t.drop_last());
        lemma_pow2_unfold(t.len());
        let a = bits_value(s);
        let p = pow2((t.len() - 1) as nat);
        assert(2 * (a * p) == a * (2 * p)) by (nonlinear_arith);
        assert((s + t).last() == t.last());
        assert(bits_value(s + t) == 2 * bits_value(s + t.drop_last()) + t.last() as nat);
        assert(bits_value(t) == 2 * bits_value(t.drop_last()) + t.last() as nat);
        assert(pow2(t.len()) == 2 * p);
        assert(a * pow2(t.len()) == a * (2 * p));
    }
}

pub proof fn lemma_byte_bits_value(b: u8)
    ensures
        bits_value(byte_bits(b)) == b,
        all_bits(byte_bits(b)),
{
    let s = byte_bits(b);
    reveal_with_fuel(bits_value, 9);
    assert(s.drop_last().drop_last().drop_last().drop_last().drop_last().drop_last().drop_last().drop_last() =~= Seq::<u8>::empty());
    assert(b == 128 * ((b >> 7u8) & 1u8) + 64 * ((b >> 6u8) & 1u8) + 32 * ((b >> 5u8) & 1u8)
        + 16 * ((b >> 4u8) & 1u8) + 8 * ((b >> 3u8) & 1u8) + 4 * ((b >> 2u8) & 1u8)
        + 2 * ((b >> 1u8) & 1u8) + ((b >> 0u8) & 1u8)) by (bit_vector);
    assert forall|k: int| 0 <= k < 8 implies #[trigger] s[k] <= 1 by {
        let sh = (7 - k) as u8;
        assert((b >> sh) & 1u8 <= 1) by (bit_vector);
    }
}

/// The eight bits that `bits_of` gives for the byte at `j`.
pub proof fn lemma_bits_of_group(bytes: Seq<u8>, j: int)
    requires
        0 <= j < bytes.len(),
    ensures
        bits_of(bytes).subrange(8 * j, 8 * j + 8) == byte_bits(bytes[j]),
{
    let g = bits_of(bytes).subrange(8 * j, 8 * j + 8);
    assert forall|k: int| 0 <= k < 8 implies #[trigger] g[k] == byte_bits(bytes[j])[k] by {
        assert((8 * j + k) / 8 == j && (8 * j + k) % 8 == k);
    }
    assert(g =~= byte_bits(bytes[j]));
}

/// Expanding a byte sequence keeps the bits of each prefix in front.
pub proof fn lemma_bits_of_prefix(a: Seq<u8>, b: Seq<u8>)
    ensures
        bits_of(a + b).subrange(0, 8 * a.len() as int) == bits_of(a),
        bits_of(a + b).subrange(8 * a.len() as int, 8 * (a.len() + b.len()) as int) == bits_of(b),
{
    let s = bits_of(a + b);
    assert forall|i: int| 0 <= i < 8 * a.len() implies #[trigger] s[i] == bits_of(a)[i] by {
        assert(i / 8 < a.len());
    }
    assert(s.subrange(0, 8 * a.len() as int) =~= bits_of(a));
    let t = s.subrange(8 * a.len() as int, 8 * (a.len() + b.len()) as int);
    assert forall|i: int| 0 <= i < 8 * b.len() implies #[trigger] t[i] == bits_of(b)[i] by {
        let m = 8 * a.len() + i;
        assert(m / 8 == a.len() + i / 8 && m % 8 == i % 8);
    }
    assert(t =~= bits_of(b));
}

/// Appending a byte appends its eight bits.
pub proof fn lemma_bits_of_push(bytes: Seq<u8>, b: u8)
    ensures
        bits_of(bytes.push(b)) == bits_of(bytes) + byte_bits(b),
{
    let l = bits_of(bytes.push(b));
    let r = bits_of(bytes) + byte_bits(b);
    assert forall|i: int| 0 <= i < l.len() implies #[trigger] l[i] == r[i] by {
        if i < 8 * bytes.len() {
            assert(i / 8 < bytes.len());
        } else {
            assert(i / 8 == bytes.len() && i % 8 == i - 8 * bytes.len());
        }
    }
    assert(l =~= r);
}

/// Regrouping the bits of a byte sequence gives the bytes back.
pub proof fn lemma_bytes_of_bits_of(bytes: Seq<u8>)
    ensures
        bytes_of(bits_of(bytes)) == bytes,
{
    let r = bytes_of(bits_of(bytes));
    assert forall|j: int| 0 <= j < bytes.len() implies #[trigger] r[j] == bytes[j] by {
        lemma_bits_of_group(bytes, j);
        lemma_byte_bits_value(bytes[j]);
    }
    assert(r =~= bytes);
}

/// The big-endian value of four bytes.
pub open spec fn be_value(b0: u8, b1: u8, b2: u8, b3: u8) -> nat {
    (b0 as nat) * 16777216 + (b1 as nat) * 65536 + (b2 as nat) * 256 + b3 as nat
}

/// Every part of a sequence of bits is a sequence of bits.
pub proof fn lemma_all_bits_subrange(s: Seq<u8>, lo: int, hi: int)
    requires
        all_bits(s),
        0 <= lo <= hi <= s.len(),
    ensures
        all_bits(s.subrange(lo, hi)),
{
    let t = s.subrange(lo, hi);
    assert forall|i: int| 0 <= i < t.len() implies #[trigger] t[i] <= 1 by {
        assert(t[i] == s[lo + i]);
    }
}

/// The value of 32 bits is the big-endian value of the four bytes they group into.
pub proof fn lemma_value_of_four_groups(s: Seq<u8>)
    requires
        s.len() == 32,
        all_bits(s),
    ensures
        bits_value(s) == be_value(byte_at(s, 0), byte_at(s, 8), byte_at(s, 16), byte_at(s, 24)),
{
    vstd::arithmetic::power2::lemma2_to64();
    let g0 = s.subrange(0, 8);
    let g1 = s.subrange(8, 16);
    let g2 = s.subrange(16, 24);
    let g3 = s.subrange(24, 32);
    assert(g0 + g1 + g2 + g3 =~= s);
    lemma_all_bits_subrange(s, 0, 8);
    lemma_all_bits_subrange(s, 8, 16);
    lemma_all_bits_subrange(s, 16, 24);
    lemma_all_bits_subrange(s, 24, 32);
    lemma_bits_value_bound(g0);
    lemma_bits_value_bound(g1);
    lemma_bits_value_bound(g2);
    lemma_bits_value_bound(g3);
    lemma_bits_value_append(g0, g1);
    lemma_bits_value_append(g0 + g1, g2);
    lemma_bits_value_append(g0 + g1 + g2, g3);
}

/// Every expanded bit is a single bit.
pub proof fn lemma_bits_of_all_bits(bytes: Seq<u8>)
    ensures
        all_bits(bits_of(bytes)),
{
    assert forall|i: int| 0 <= i < bits_of(bytes).len() implies #[trigger] bits_of(bytes)[i] <= 1 by {
        let b = bytes[i / 8];
        let sh = (7 - i % 8) as u8;
        assert((b >> sh) & 1u8 <= 1) by (bit_vector);
    }
}

/// The length prefix that `unpack_length` reads back from the head of what
/// `pack` wrote is the one packed, for every prefix and payload.
pub proof fn lemma_length_prefix(n: u32, payload: Seq<u8>)
    ensures
        bits_value(stream_bits(n, payload).subrange(0, 32)) == n,
{
    let bb = be_bytes(n);
    assert(bb.len() == 4);
    lemma_bits_of_prefix(bb, payload);
    let s = bits_of(bb);
    assert(stream_bits(n, payload).subrange(0, 32) == s);
    lemma_bits_of_all_bits(bb);
    lemma_value_of_four_groups(s);
    lemma_bits_of_group(bb, 0);
    lemma_bits_of_group(bb, 1);
    lemma_bits_of_group(bb, 2);
    lemma_bits_of_group(bb, 3);
    lemma_byte_bits_value(bb[0]);
    lemma_byte_bits_value(bb[1]);
    lemma_byte_bits_value(bb[2]);
    lemma_byte_bits_value(bb[3]);
    assert(n == ((n >> 24u32) as u8) as u32 * 16777216 + ((n >> 16u32) as u8) as u32 * 65536
        + ((n >> 8u32) as u8) as u32 * 256 + (n as u8) as u32) by (bit_vector);
}

/// Appends the eight bits of `b`, most significant first.
fn push_byte_bits(bits: &mut Vec<u8>, b: u8)
    ensures
        final(bits)@ == old(bits)@ + byte_bits(b),
{
    let ghost start = bits@;
    let mut k: u8 = 0;
    while k < 8
        invariant
            k <= 8,
            bits@ == start + byte_bits(b).subrange(0, k as int),
        decreases 8 - k,
    {
        bits.push((b >> (7 - k)) & 1);
        k = k + 1;
        assert(bits@ =~= start + byte_bits(b).subrange(0, k as int));
    }
    assert(byte_bits(b).subrange(0, 8) =~= byte_bits(b));
}

/// Expands a length prefix and a payload into the bit stream that carries them:
/// the four big-endian bytes of `length_prefix`, then the payload's bytes,
/// eight bits each, most significant first.
pub fn pack(length_prefix: u32, payload: &[u8]) -> (bits: Vec<u8>)
    requires
        32 + 8 * payload@.len() <= usize::MAX,
    ensures
        bits@ == stream_bits(length_prefix, payload@),
        bits@.len() == 32 + 8 * payload@.len(),
{
    let mut bits: Vec<u8> = Vec::new();
    let mut head: Vec<u8> = Vec::new();
    head.push((length_prefix >> 24) as u8);
    head.push((length_prefix >> 16) as u8);
    head.push((length_prefix >> 8) as u8);
    head.push(length_prefix as u8);
    assert(head@ =~= be_bytes(length_prefix));
    let mut i: usize = 0;
    while i < 4
        invariant
            i <= 4,
            head@ == be_bytes(length_prefix),
            bits@ == bits_of(head@.subrange(0, i as int)),
        decreases 4 - i,
    {
        proof {
            lemma_bits_of_push(head@.subrange(0, i as int), head@[i as int]);
            assert(head@.subrange(0, i as int).push(head@[i as int]) =~= head@.subrange(0, i as int + 1));
        }
        push_byte_bits(&mut bits, head[i]);
        i = i + 1;
    }
    assert(head@.subrange(0, 4) =~= head@);
    let mut j: usize = 0;
    while j < payload.len()
        invariant
            j <= payload@.len(),
            32 + 8 * payload@.len() <= usize::MAX,
            bits@ == bits_of(be_bytes(length_prefix) + payload@.subrange(0, j as int)),
        decreases payload@.len() - j,
    {
        let ghost done = be_bytes(length_prefix) + payload@.subrange(0, j as int);
        proof {
            lemma_bits_of_push(done, payload@[j as int]);
            assert(done.push(payload@[j as int]) =~= be_bytes(length_prefix) + payload@.subrange(0, j as int + 1));
        }
        push_byte_bits(&mut bits, payload[j]);
        j = j + 1;
    }
    assert(payload@.subrange(0, payload@.len() as int) =~= payload@);
    bits
}

/// Reads the byte held by the eight bits of `bits` that start at `start`.
fn byte_from_bits(bits: &[u8], start: usize) -> (b: u8)
    requires
        start + 8 <= bits@.len(),
        all_bits(bits@),
    ensures
        b == byte_at(bits@, start as int),
        b as nat == bits_value(bits@.subrange(start as int, start + 8)),
{
    proof {
        vstd::arithmetic::power2::lemma2_to64();
    }
    let len = bits.len();
    let mut v: u32 = 0;
    let mut k: usize = 0;
    while k < 8
        invariant
            k <= 8,
            len == bits@.len(),
            start + 8 <= bits@.len(),
            all_bits(bits@),
            v as nat == bits_value(bits@.subrange(start as int, start + k)),
            v < pow2(k as nat),
            pow2(8) == 256,
        decreases 8 - k,
    {
        proof {
            let next = bits@.subrange(start as int, start + k + 1);
            assert(next.drop_last() =~= bits@.subrange(start as int, start + k));
            assert(next.last() == bits@[start + k]);
            lemma_pow2_unfold((k + 1) as nat);
            if k < 7 {
                vstd::arithmetic::power2::lemma_pow2_strictly_increases((k + 1) as nat, 8);
            }
        }
        v = v * 2 + bits[start + k] as u32;
        k = k + 1;
    }
    v as u8
}

/// Regroups a bit sequence into bytes, eight bits each, most significant
/// first. A trailing group of fewer than eight bits is not read.
pub fn unpack_bytes(bits: &[u8]) -> (bytes: Vec<u8>)
    requires
        all_bits(bits@),
    ensures
        bytes@ == bytes_of(bits@),
{
    let len = bits.len();
    let n = len / 8;
    let mut bytes: Vec<u8> = Vec::new();
    let mut j: usize = 0;
    while j < n
        invariant
            len == bits@.len(),
            n == bits@.len() / 8,
            j <= n,
            all_bits(bits@),
            bytes@ =~= bytes_of(bits@).subrange(0, j as int),
        decreases n - j,
    {
        assert(8 * j + 8 <= bits@.len()) by (nonlinear_arith)
            requires
                j < n,
                n == bits@.len() / 8,
        ;
        assert(8 * j + 8 <= len);
        let b = byte_from_bits(bits, 8 * j);
        bytes.push(b);
        j = j + 1;
    }
    assert(bytes@ =~= bytes_of(bits@));
    bytes
}

/// Reads the 32-bit length prefix at the head of a bit stream: its first
/// 32 bits regrouped into four bytes and read as a big-endian integer.
pub fn unpack_length(bits: &[u8]) -> (n: u32)
    requires
        bits@.len() >= 32,
        all_bits(bits@),
    ensures
        n as nat == bits_value(bits@.subrange(0, 32)),
        n as nat == be_value(byte_at(bits@, 0), byte_at(bits@, 8), byte_at(bits@, 16), byte_at(bits@, 24)),
{
    let b0 = byte_from_bits(bits, 0);
    let b1 = byte_from_bits(bits, 8);
    let b2 = byte_from_bits(bits, 16);
    let b3 = byte_from_bits(bits, 24);
    proof {
        let s = bits@.subrange(0, 32);
        lemma_all_bits_subrange(bits@, 0, 32);
        lemma_value_of_four_groups(s);
        assert(s.subrange(0, 8) =~= bits@.subrange(0, 8));
        assert(s.subrange(8, 16) =~= bits@.subrange(8, 16));
        assert(s.subrange(16, 24) =~= bits@.subrange(16, 24));
        assert(s.subrange(24, 32) =~= bits@.subrange(24, 32));
    }
    (b0 as u32) * 16777216 + (b1 as u32) * 65536 + (b2 as u32) * 256 + b3 as u32
}

} // verus!
