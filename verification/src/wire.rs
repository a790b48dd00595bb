use vstd::prelude::*;

verus! {

/// The 16-bit integer that stands big-endian at `at`.
pub open spec fn u16_at(buf: Seq<u8>, at: int) -> u16 {
    (buf[at] * 0x100 + buf[at + 1]) as u16
}

/// The 32-bit integer that stands big-endian at `at`.
pub open spec fn u32_at(buf: Seq<u8>, at: int) -> u32 {
    (buf[at] * 0x100_0000 + buf[at + 1] * 0x1_0000 + buf[at + 2] * 0x100 + buf[at + 3]) as u32
}

/// The two bytes of a 16-bit integer, big-endian.
pub open spec fn u16_wire(v: u16) -> Seq<u8> {
    seq![(v / 0x100) as u8, (v % 0x100) as u8]
}

/// The four bytes of a 32-bit integer, big-endian.
pub open spec fn u32_wire(v: u32) -> Seq<u8> {
    seq![
        (v / 0x100_0000) as u8,
        ((v / 0x1_0000) % 0x100) as u8,
        ((v / 0x100) % 0x100) as u8,
        (v % 0x100) as u8,
    ]
}

proof fn lemma_join_u16(hi: u8, lo: u8)
    by (bit_vector)
    ensures
        ((hi as u16) << 8 | (lo as u16)) == (hi as u16) * 0x100 + (lo as u16),
{
}

proof fn lemma_join_u32(a: u8, b: u8, c: u8, d: u8)
    by (bit_vector)
    ensures
        ((a as u32) << 24 | (b as u32) << 16 | (c as u32) << 8 | (d as u32)) == (a as u32)
            * 0x100_0000 + (b as u32) * 0x1_0000 + (c as u32) * 0x100 + (d as u32),
{
}

proof fn lemma_split_u16_high(v: u16)
    by (bit_vector)
    ensures
        (((v >> 8) & 0xFF) as u8) == (v / 0x100) as u8,
{
}

proof fn lemma_split_u16_low(v: u16)
    by (bit_vector)
    ensures
        ((v & 0xFF) as u8) == (v % 0x100) as u8,
{
}

proof fn lemma_split_u32_a(v: u32)
    by (bit_vector)
    ensures
        (((v >> 24) & 0xFF) as u8) == (v / 0x100_0000) as u8,
{
}

proof fn lemma_split_u32_b(v: u32)
    by (bit_vector)
    ensures
        (((v >> 16) & 0xFF) as u8) == ((v / 0x1_0000) % 0x100) as u8,
{
}

proof fn lemma_split_u32_c(v: u32)
    by (bit_vector)
    ensures
        (((v >> 8) & 0xFF) as u8) == ((v / 0x100) % 0x100) as u8,
{
}

proof fn lemma_split_u32_d(v: u32)
    by (bit_vector)
    ensures
        ((v & 0xFF) as u8) == (v % 0x100) as u8,
{
}

/// Reads the big-endian 16-bit integer at `at`.
pub(crate) fn read_u16(buf: &Vec<u8>, at: usize) -> (v: u16)
    requires
        at + 1 < buf.len(),
    ensures
        v == u16_at(buf@, at as int),
{
    proof {
        lemma_join_u16(buf[at as int], buf[at + 1]);
    }
    (buf[at] as u16) << 8 | (buf[at + 1] as u16)
}

/// Reads the big-endian 32-bit integer at `at`.
pub(crate) fn read_u32(buf: &Vec<u8>, at: usize) -> (v: u32)
    requires
        at + 3 < buf.len(),
    ensures
        v == u32_at(buf@, at as int),
{
    proof {
        lemma_join_u32(buf[at as int], buf[at + 1], buf[at + 2], buf[at + 3]);
    }
    (buf[at] as u32) << 24 | (buf[at + 1] as u32) << 16 | (buf[at + 2] as u32) << 8 | (buf[at
        + 3] as u32)
}

/// Appends a 16-bit integer, big-endian.
pub(crate) fn push_u16(buf: &mut Vec<u8>, v: u16)
    ensures
        final(buf)@ == old(buf)@ + u16_wire(v),
{
    proof {
        lemma_split_u16_high(v);
        lemma_split_u16_low(v);
    }
    buf.push(((v >> 8) & 0xFF) as u8);
    buf.push((v & 0xFF) as u8);
    assert(buf@ =~= old(buf)@ + u16_wire(v));
}

/// Appends a 32-bit integer, big-endian.
pub(crate) fn push_u32(buf: &mut Vec<u8>, v: u32)
    ensures
        final(buf)@ == old(buf)@ + u32_wire(v),
{
    proof {
        lemma_split_u32_a(v);
        lemma_split_u32_b(v);
        lemma_split_u32_c(v);
        lemma_split_u32_d(v);
    }
    buf.push(((v >> 24) & 0xFF) as u8);
    buf.push(((v >> 16) & 0xFF) as u8);
    buf.push(((v >> 8) & 0xFF) as u8);
    buf.push((v & 0xFF) as u8);
    assert(buf@ =~= old(buf)@ + u32_wire(v));
}

/// Appends all of `bytes`.
pub(crate) fn push_bytes(buf: &mut Vec<u8>, bytes: &[u8])
    ensures
        final(buf)@ == old(buf)@ + bytes@,
{
    let mut i: usize = 0;
    while i < bytes.len()
        invariant
            i <= bytes@.len(),
            buf@ == old(buf)@ + bytes@.take(i as int),
        decreases bytes@.len() - i,
    {
        buf.push(bytes[i]);
        assert(bytes@.take(i + 1) =~= bytes@.take(i as int).push(bytes@[i as int]));
        assert(buf@ =~= old(buf)@ + bytes@.take(i + 1));
        i += 1;
    }
    assert(bytes@.take(bytes@.len() as int) =~= bytes@);
}

/// A copy of the bytes from `from` up to `to`.
pub(crate) fn copy_range(buf: &Vec<u8>, from: usize, to: usize) -> (bytes: Vec<u8>)
    requires
        from <= to <= buf.len(),
    ensures
        bytes@ == buf@.subrange(from as int, to as int),
{
    let mut bytes = Vec::new();
    let mut i: usize = from;
    while i < to
        invariant
            from <= i <= to <= buf.len(),
            bytes@ == buf@.subrange(from as int, i as int),
        decreases to - i,
    {
        bytes.push(buf[i]);
        assert(bytes@ =~= buf@.subrange(from as int, i + 1));
        i += 1;
    }
    bytes
}

/// A 16-bit integer is what stands at the start of its two bytes.
pub proof fn lemma_u16_round_trip(v: u16)
    ensures
        u16_wire(v).len() == 2,
        u16_at(u16_wire(v), 0) == v,
{
}

/// The two bytes at `at` are the bytes of the integer that stands there.
pub proof fn lemma_u16_wire_of_read(buf: Seq<u8>, at: int)
    requires
        0 <= at,
        at + 2 <= buf.len(),
    ensures
        u16_wire(u16_at(buf, at)) == buf.subrange(at, at + 2),
{
    assert(u16_wire(u16_at(buf, at)) =~= buf.subrange(at, at + 2));
}

/// A 32-bit integer is what stands at the start of its four bytes.
pub proof fn lemma_u32_round_trip(v: u32)
    ensures
        u32_wire(v).len() == 4,
        u32_at(u32_wire(v), 0) == v,
{
    let n = v as int;
    let a = n / 0x100_0000;
    let low = n % 0x100_0000;
    let b = low / 0x1_0000;
    let lower = low % 0x1_0000;
    let c = lower / 0x100;
    let d = lower % 0x100;
    assert(n == a * 0x100_0000 + b * 0x1_0000 + c * 0x100 + d);
    assert(n / 0x1_0000 == a * 0x100 + b);
    assert(n / 0x100 == a * 0x1_0000 + b * 0x100 + c);
    assert(n % 0x100 == d);
    let wire = u32_wire(v);
    assert(wire[0] == a);
    assert(wire[1] == b);
    assert(wire[2] == c);
    assert(wire[3] == d);
}

/// The four bytes at `at` are the bytes of the integer that stands there.
pub proof fn lemma_u32_wire_of_read(buf: Seq<u8>, at: int)
    requires
        0 <= at,
        at + 4 <= buf.len(),
    ensures
        u32_wire(u32_at(buf, at)) == buf.subrange(at, at + 4),
{
    let a = buf[at] as int;
    let b = buf[at + 1] as int;
    let c = buf[at + 2] as int;
    let d = buf[at + 3] as int;
    let v = a * 0x100_0000 + b * 0x1_0000 + c * 0x100 + d;
    assert(v / 0x100_0000 == a);
    assert(v / 0x1_0000 == a * 0x100 + b);
    assert(v / 0x100 == a * 0x1_0000 + b * 0x100 + c);
    assert(u32_at(buf, at) == v);
    assert(u32_wire(u32_at(buf, at)) =~= buf.subrange(at, at + 4));
}

} // verus!
