//! The frame format: an eight-byte big-endian length, then that many bytes.

use vstd::prelude::*;

verus! {

/// The number of bytes of a frame's length header.
pub const HEADER_LEN: usize = 8;

/// The largest payload that a receiver takes, 100 MiB.
pub const MAX_FRAG: usize = 104857600;

/// The number that `s` writes in base 256, most significant byte first.
pub open spec fn be_value(s: Seq<u8>) -> nat
    decreases s.len(),
{
    if s.len() == 0 {
        0
    } else {
        be_value(s.drop_last()) * 256 + s.last() as nat
    }
}

/// The `len` lowest base-256 digits of `v`, most significant first.
pub open spec fn be_bytes(v: nat, len: nat) -> Seq<u8>
    decreases len,
{
    if len == 0 {
        Seq::empty()
    } else {
        be_bytes(v / 256, (len - 1) as nat).push((v % 256) as u8)
    }
}

/// `256` to the power of `n`.
pub open spec fn pow256(n: nat) -> nat
    decreases n,
{
    if n == 0 {
        1
    } else {
        256 * pow256((n - 1) as nat)
    }
}

/// The header that announces a payload of `n` bytes.
pub open spec fn header(n: nat) -> Seq<u8> {
    be_bytes(n, 8)
}

/// What is sent for one payload.
pub open spec fn frame(payload: Seq<u8>) -> Seq<u8> {
    header(payload.len()) + payload
}

/// What is sent for several payloads, one after the other.
pub open spec fn frames(payloads: Seq<Seq<u8>>) -> Seq<u8>
    decreases payloads.len(),
{
    if payloads.len() == 0 {
        Seq::empty()
    } else {
        frame(payloads[0]) + frames(payloads.drop_first())
    }
}

/// `len` digits are written for every number.
proof fn lemma_be_bytes_len(v: nat, len: nat)
    ensures
        be_bytes(v, len).len() == len,
    decreases len,
{
    if len > 0 {
        lemma_be_bytes_len(v / 256, (len - 1) as nat);
    }
}

/// Reading the digits of a number gives the number back.
proof fn lemma_value_of_bytes(v: nat, len: nat)
    requires
        v < pow256(len),
    ensures
        be_value(be_bytes(v, len)) == v,
    decreases len,
{
    if len > 0 {
        let s = be_bytes(v / 256, (len - 1) as nat);
        lemma_value_of_bytes(v / 256, (len - 1) as nat);
        assert(be_bytes(v, len).drop_last() =~= s);
    }
}

/// Writing the number that some digits stand for gives the digits back.
proof fn lemma_bytes_of_value(s: Seq<u8>)
    ensures
        be_bytes(be_value(s), s.len()) == s,
    decreases s.len(),
{
    if s.len() > 0 {
        lemma_bytes_of_value(s.drop_last());
        assert(be_value(s) / 256 == be_value(s.drop_last()));
        assert(s.drop_last().push(s.last()) =~= s);
    } else {
        assert(be_bytes(be_value(s), s.len()) =~= s);
    }
}

proof fn lemma_value_bound(s: Seq<u8>)
    ensures
        be_value(s) < pow256(s.len()),
    decreases s.len(),
{
    if s.len() > 0 {
        lemma_value_bound(s.drop_last());
    }
}

proof fn lemma_pow256_monotonic(m: nat, n: nat)
    requires
        m <= n,
    ensures
        pow256(m) <= pow256(n),
    decreases n,
{
    if m < n {
        lemma_pow256_monotonic(m, (n - 1) as nat);
    }
}

proof fn lemma_pow256_8()
    ensures
        pow256(8) == 0x1_0000_0000_0000_0000,
{
    reveal_with_fuel(pow256, 9);
}

/// Every eight bytes are the header of one length, and of no other.
pub proof fn law_header_is_unique(head: Seq<u8>)
    requires
        head.len() == 8,
    ensures
        be_value(head) <= u64::MAX,
        header(be_value(head)) == head,
{
    lemma_pow256_8();
    lemma_value_bound(head);
    lemma_bytes_of_value(head);
}

/// Every length that eight bytes hold can be read back from its header.
pub proof fn law_header_is_read_back(n: nat)
    requires
        n <= u64::MAX,
    ensures
        header(n).len() == 8,
        be_value(header(n)) == n,
{
    lemma_pow256_8();
    lemma_be_bytes_len(n, 8);
    lemma_value_of_bytes(n, 8);
}

/// A frame is longer than its payload by the eight bytes of its header.
pub proof fn law_frame_is_longer(payload: Seq<u8>)
    ensures
        frame(payload).len() == 8 + payload.len(),
{
    lemma_be_bytes_len(payload.len(), 8);
}

/// The number that an eight-byte header stands for.
pub fn read_header(bytes: &[u8]) -> (v: u64)
    requires
        bytes@.len() == 8,
    ensures
        v == be_value(bytes@),
{
    let mut v: u64 = 0;
    let mut i: usize = 0;
    assert(bytes@.take(0) =~= Seq::empty());
    while i < 8
        invariant
            bytes@.len() == 8,
            i <= 8,
            v == be_value(bytes@.take(i as int)),
        decreases 8 - i,
    {
        proof {
            let next = bytes@.take(i + 1);
            assert(next.drop_last() =~= bytes@.take(i as int));
            lemma_value_bound(next);
            lemma_pow256_monotonic((i + 1) as nat, 8);
            lemma_pow256_8();
        }
        v = v * 256 + bytes[i] as u64;
        i = i + 1;
    }
    assert(bytes@.take(8) =~= bytes@);
    v
}

fn push_be(out: &mut Vec<u8>, v: u64, len: usize)
    ensures
        final(out)@ == old(out)@ + be_bytes(v as nat, len as nat),
    decreases len,
{
    if len > 0 {
        push_be(out, v / 256, len - 1);
        out.push((v % 256) as u8);
    }
}

/// The frame that carries `payload`.
pub fn make_frame(payload: &[u8]) -> (out: Vec<u8>)
    ensures
        out@ == frame(payload@),
{
    let mut out: Vec<u8> = Vec::with_capacity(2048);
    push_be(&mut out, payload.len() as u64, HEADER_LEN);
    out.extend_from_slice(payload);
    assert(out@ =~= frame(payload@));
    out
}

/// A header holds the length with its most significant byte first.
pub proof fn law_header_is_big_endian(n: nat)
    requires
        n <= u64::MAX,
    ensures
        header(n).len() == 8,
        n == header(n)[0] * 72057594037927936 + header(n)[1] * 281474976710656 + header(n)[2]
            * 1099511627776 + header(n)[3] * 4294967296 + header(n)[4] * 16777216 + header(n)[5]
            * 65536 + header(n)[6] * 256 + header(n)[7],
{
    law_header_is_read_back(n);
    law_value_is_big_endian(header(n));
}

/// Eight bytes are read with the most significant first.
pub proof fn law_value_is_big_endian(head: Seq<u8>)
    requires
        head.len() == 8,
    ensures
        be_value(head) == head[0] * 72057594037927936 + head[1] * 281474976710656 + head[2]
            * 1099511627776 + head[3] * 4294967296 + head[4] * 16777216 + head[5] * 65536 + head[6]
            * 256 + head[7],
{
    reveal_with_fuel(be_value, 9);
}

/// A frame is the header of the payload's length, and then the payload.
pub proof fn law_frame_parts(payload: Seq<u8>)
    ensures
        frame(payload).take(8) == header(payload.len()),
        frame(payload).skip(8) == payload,
{
    lemma_be_bytes_len(payload.len(), 8);
    assert(frame(payload).take(8) =~= header(payload.len()));
    assert(frame(payload).skip(8) =~= payload);
}

/// Frames follow each other with nothing between them.
pub proof fn law_frames_follow(payloads: Seq<Seq<u8>>, payload: Seq<u8>)
    ensures
        frames(Seq::empty()) == Seq::<u8>::empty(),
        frames(seq![payload] + payloads) == frame(payload) + frames(payloads),
{
    assert((seq![payload] + payloads).drop_first() =~= payloads);
}

} // verus!
