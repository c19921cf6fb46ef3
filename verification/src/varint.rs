//! Variable-length integers (RFC 9000, section 16).
//!
//! The two high bits of the first byte give the size of the encoding, 1, 2, 4
//! or 8 bytes; the other bits hold the value, most significant first.

use vstd::prelude::*;

use crate::error::PacketError;

verus! {

/// The number that `s` spells in base 256, most significant byte first.
pub open spec fn be_value(s: Seq<u8>) -> nat
    decreases s.len(),
{
    if s.len() == 0 {
        0
    } else {
        be_value(s.drop_last()) * 256 + s.last() as nat
    }
}

/// The size of the encoding that starts with `first`.
pub open spec fn varint_size(first: u8) -> nat {
    if first < 64 {
        1
    } else if first < 128 {
        2
    } else if first < 192 {
        4
    } else {
        8
    }
}

/// The value of a whole encoding: all its bits but the two that give the size.
pub open spec fn varint_value(encoding: Seq<u8>) -> nat {
    be_value(encoding.update(0, (encoding[0] % 64) as u8))
}

/// The integer encoded at `offset`: its value and the size of its encoding.
pub open spec fn varint_at(data: Seq<u8>, offset: int) -> Result<(nat, nat), PacketError> {
    if offset >= data.len() {
        Err(PacketError::VarintBeyondData)
    } else if offset + varint_size(data[offset]) > data.len() {
        Err(PacketError::VarintTruncated)
    } else {
        let size = varint_size(data[offset]);
        Ok((varint_value(data.subrange(offset, offset + size)), size))
    }
}

/// The shortest encoding of `value`. Bits above the 62 that the longest form
/// can hold are left out.
pub open spec fn varint_bytes(value: nat) -> Seq<u8> {
    if value < 64 {
        seq![value as u8]
    } else if value < 16384 {
        seq![(64 + value / 256) as u8, (value % 256) as u8]
    } else if value < 1_073_741_824 {
        seq![
            (128 + value / 0x100_0000) as u8,
            (value / 0x1_0000 % 256) as u8,
            (value / 0x100 % 256) as u8,
            (value % 256) as u8,
        ]
    } else {
        seq![
            (192 + value / 0x100_0000_0000_0000 % 64) as u8,
            (value / 0x1_0000_0000_0000 % 256) as u8,
            (value / 0x100_0000_0000 % 256) as u8,
            (value / 0x1_0000_0000 % 256) as u8,
            (value / 0x100_0000 % 256) as u8,
            (value / 0x1_0000 % 256) as u8,
            (value / 0x100 % 256) as u8,
            (value % 256) as u8,
        ]
    }
}

/// The encoding of `value` in 2 bytes, whether or not it would fit in one.
pub open spec fn varint_in_two_bytes(value: nat) -> Seq<u8> {
    seq![(64 + value / 256 % 64) as u8, (value % 256) as u8]
}

/// One more than the largest value that `n` bytes of an encoding can hold.
spec fn varint_limit(n: nat) -> nat
    decreases n,
{
    if n <= 1 {
        64
    } else {
        256 * varint_limit((n - 1) as nat)
    }
}

proof fn lemma_varint_limit(n: nat)
    requires
        n <= 8,
    ensures
        varint_limit(n) <= 0x4000_0000_0000_0000,
{
    reveal_with_fuel(varint_limit, 9);
}

proof fn lemma_be_value_push(s: Seq<u8>, b: u8)
    ensures
        be_value(s.push(b)) == be_value(s) * 256 + b,
{
    assert(s.push(b).drop_last() =~= s);
}

/// Decodes the integer at `offset` and says how many bytes it takes.
pub fn read_varint(data: &[u8], offset: usize) -> (r: Result<(u64, usize), PacketError>)
    ensures
        match r {
            Ok((value, size)) => varint_at(data@, offset as int) == Ok::<(nat, nat), PacketError>(
                (value as nat, size as nat),
            ) && value < 0x4000_0000_0000_0000 && 1 <= size <= 8 && offset + size <= data.len(),
            Err(e) => varint_at(data@, offset as int) == Err::<(nat, nat), PacketError>(e),
        },
{
    if offset >= data.len() {
        return Err(PacketError::VarintBeyondData);
    }
    let first = data[offset];
    let length: usize = if first < 64 {
        1
    } else if first < 128 {
        2
    } else if first < 192 {
        4
    } else {
        8
    };
    if length > data.len() - offset {
        return Err(PacketError::VarintTruncated);
    }
    let ghost encoding = data@.subrange(offset as int, offset + length);
    let ghost plain = encoding.update(0, (first % 64) as u8);
    let mut value: u64 = (first % 64) as u64;
    let mut i: usize = 1;
    proof {
        assert(plain.take(1) =~= Seq::<u8>::empty().push((first % 64) as u8));
        lemma_be_value_push(Seq::<u8>::empty(), (first % 64) as u8);
    }
    while i < length
        invariant
            1 <= i <= length <= 8,
            offset + length <= data.len(),
            encoding == data@.subrange(offset as int, offset + length),
            plain == encoding.update(0, (first % 64) as u8),
            value == be_value(plain.take(i as int)),
            value < varint_limit(i as nat),
        decreases length - i,
    {
        let next = data[offset + i];
        proof {
            assert(next == plain[i as int]);
            assert(plain.take(i + 1) =~= plain.take(i as int).push(next));
            lemma_be_value_push(plain.take(i as int), next);
            lemma_varint_limit((i + 1) as nat);
        }
        value = value * 256 + next as u64;
        i = i + 1;
    }
    proof {
        assert(plain.take(length as int) =~= plain);
        lemma_varint_limit(length as nat);
    }
    Ok((value, length))
}

/// Appends the shortest encoding of `value`.
pub fn write_varint(buf: &mut Vec<u8>, value: u64)
    ensures
        final(buf)@ == old(buf)@ + varint_bytes(value as nat),
{
    if value < 64 {
        buf.push(value as u8);
    } else if value < 16384 {
        buf.push((64 + value / 256) as u8);
        buf.push((value % 256) as u8);
    } else if value < 1_073_741_824 {
        buf.push((128 + value / 0x100_0000) as u8);
        buf.push((value / 0x1_0000 % 256) as u8);
        buf.push((value / 0x100 % 256) as u8);
        buf.push((value % 256) as u8);
    } else {
        buf.push((192 + value / 0x100_0000_0000_0000 % 64) as u8);
        buf.push((value / 0x1_0000_0000_0000 % 256) as u8);
        buf.push((value / 0x100_0000_0000 % 256) as u8);
        buf.push((value / 0x1_0000_0000 % 256) as u8);
        buf.push((value / 0x100_0000 % 256) as u8);
        buf.push((value / 0x1_0000 % 256) as u8);
        buf.push((value / 0x100 % 256) as u8);
        buf.push((value % 256) as u8);
    }
    assert(buf@ =~= old(buf)@ + varint_bytes(value as nat));
}

/// Appends the encoding of `value` in 2 bytes. Bits above the 14 that it can hold
/// are left out.
pub fn write_varint_in_two_bytes(buf: &mut Vec<u8>, value: usize)
    ensures
        final(buf)@ == old(buf)@ + varint_in_two_bytes(value as nat),
{
    buf.push((64 + value / 256 % 64) as u8);
    buf.push((value % 256) as u8);
    assert(buf@ =~= old(buf)@ + varint_in_two_bytes(value as nat));
}

/// Reading gives back what was written, wherever the encoding stands in the
/// data, for every value of at most 62 bits.
pub proof fn varint_round_trip(before: Seq<u8>, value: u64, after: Seq<u8>)
    requires
        value < 0x4000_0000_0000_0000,
    ensures
        varint_at(before + varint_bytes(value as nat) + after, before.len() as int) == Ok::<
            (nat, nat),
            PacketError,
        >((value as nat, varint_bytes(value as nat).len())),
{
    let enc = varint_bytes(value as nat);
    let data = before + enc + after;
    let at = before.len() as int;
    assert(data[at] == enc[0]);
    assert(data.subrange(at, at + enc.len()) =~= enc);
    lemma_value_of_bytes(value);
}

/// Reading gives back what was written in 2 bytes, wherever the encoding stands
/// in the data, for every value of at most 14 bits.
pub proof fn varint_in_two_bytes_round_trip(before: Seq<u8>, value: nat, after: Seq<u8>)
    requires
        value < 16384,
    ensures
        varint_at(before + varint_in_two_bytes(value) + after, before.len() as int) == Ok::<
            (nat, nat),
            PacketError,
        >((value, 2)),
{
    let enc = varint_in_two_bytes(value);
    let data = before + enc + after;
    let at = before.len() as int;
    assert(data[at] == enc[0]);
    assert(data.subrange(at, at + 2) =~= enc);
    lemma_be_value_unrolled(enc.update(0, (enc[0] % 64) as u8));
}

/// Values of more than 62 bits lose their upper bits: what is read back is the
/// value modulo 2^62.
pub proof fn varint_keeps_low_bits(value: u64)
    ensures
        varint_at(varint_bytes(value as nat), 0) == Ok::<(nat, nat), PacketError>(
            (
                (value % 0x4000_0000_0000_0000) as nat,
                varint_bytes(value as nat).len(),
            ),
        ),
{
    let enc = varint_bytes(value as nat);
    assert(enc.subrange(0, enc.len() as int) =~= enc);
    lemma_value_of_bytes(value);
}

/// What the encoding of `value` says of its own size and holds as its value.
proof fn lemma_value_of_bytes(value: u64)
    ensures
        varint_size(varint_bytes(value as nat)[0]) == varint_bytes(value as nat).len(),
        varint_value(varint_bytes(value as nat)) == value % 0x4000_0000_0000_0000,
{
    let v = value as nat;
    let enc = varint_bytes(v);
    let plain = enc.update(0, (enc[0] % 64) as u8);
    lemma_be_value_unrolled(plain);
    if v >= 1_073_741_824 {
        lemma_join_bytes(value);
        assert(plain[0] == v / 0x100_0000_0000_0000 % 64);
    } else if v >= 16384 {
        assert(v / 0x1_0000 == v / 0x100_0000 * 256 + v / 0x1_0000 % 256);
        assert(v / 0x100 == v / 0x1_0000 * 256 + v / 0x100 % 256);
    }
}

/// The low 62 bits of a number, put together from its bytes.
proof fn lemma_join_bytes(value: u64)
    ensures
        ({
            let v = value as nat;
            let w1 = v / 0x100_0000_0000_0000 % 64 * 256 + v / 0x1_0000_0000_0000 % 256;
            let w2 = w1 * 256 + v / 0x100_0000_0000 % 256;
            let w3 = w2 * 256 + v / 0x1_0000_0000 % 256;
            let w4 = w3 * 256 + v / 0x100_0000 % 256;
            let w5 = w4 * 256 + v / 0x1_0000 % 256;
            let w6 = w5 * 256 + v / 0x100 % 256;
            w6 * 256 + v % 256 == v % 0x4000_0000_0000_0000
        }),
{
    let v = value as int;
    let v1 = v / 0x100;
    let v2 = v / 0x1_0000;
    let v3 = v / 0x100_0000;
    let v4 = v / 0x1_0000_0000;
    let v5 = v / 0x100_0000_0000;
    let v6 = v / 0x1_0000_0000_0000;
    let v7 = v / 0x100_0000_0000_0000;
    assert(v2 == v1 / 256 && v3 == v2 / 256 && v4 == v3 / 256 && v5 == v4 / 256 && v6 == v5 / 256
        && v7 == v6 / 256);
    vstd::arithmetic::div_mod::lemma_breakdown(v6, 256, 64);
    vstd::arithmetic::div_mod::lemma_breakdown(v5, 256, 0x4000);
    vstd::arithmetic::div_mod::lemma_breakdown(v4, 256, 0x40_0000);
    vstd::arithmetic::div_mod::lemma_breakdown(v3, 256, 0x4000_0000);
    vstd::arithmetic::div_mod::lemma_breakdown(v2, 256, 0x40_0000_0000);
    vstd::arithmetic::div_mod::lemma_breakdown(v1, 256, 0x4000_0000_0000);
    vstd::arithmetic::div_mod::lemma_breakdown(v, 256, 0x40_0000_0000_0000);
}

/// `be_value` written out for the four sizes of an encoding.
proof fn lemma_be_value_unrolled(s: Seq<u8>)
    ensures
        s.len() == 1 ==> be_value(s) == s[0],
        s.len() == 2 ==> be_value(s) == s[0] * 256 + s[1],
        s.len() == 4 ==> be_value(s) == ((s[0] * 256 + s[1]) * 256 + s[2]) * 256 + s[3],
        s.len() == 8 ==> be_value(s) == ((((((s[0] * 256 + s[1]) * 256 + s[2]) * 256 + s[3]) * 256
            + s[4]) * 256 + s[5]) * 256 + s[6]) * 256 + s[7],
    decreases s.len(),
{
    reveal_with_fuel(be_value, 9);
    if s.len() == 8 {
        let h = s.drop_last().drop_last().drop_last().drop_last();
        assert(h =~= s.take(4));
        lemma_be_value_unrolled(h);
    }
}

/// What is read at `at`, from the bytes there: the two high bits of the first
/// byte give the size, and the other bits the value.
pub proof fn varints_are_read_from_their_bits(s: Seq<u8>, at: int)
    requires
        0 <= at,
    ensures
        at >= s.len() ==> varint_at(s, at) == Err::<(nat, nat), PacketError>(
            PacketError::VarintBeyondData,
        ),
        at < s.len() && s[at] < 0x40 ==> varint_at(s, at) == Ok::<(nat, nat), PacketError>(
            (s[at] as nat, 1),
        ),
        at < s.len() && 0x40 <= s[at] < 0x80 ==> varint_at(s, at) == if at + 2 <= s.len() {
            Ok::<(nat, nat), PacketError>((((s[at] - 0x40) * 256 + s[at + 1]) as nat, 2))
        } else {
            Err(PacketError::VarintTruncated)
        },
        at < s.len() && 0x80 <= s[at] < 0xc0 ==> varint_at(s, at) == if at + 4 <= s.len() {
            Ok::<(nat, nat), PacketError>(
                (
                    ((((s[at] - 0x80) * 256 + s[at + 1]) * 256 + s[at + 2]) * 256 + s[at
                        + 3]) as nat,
                    4,
                ),
            )
        } else {
            Err(PacketError::VarintTruncated)
        },
        at < s.len() && 0xc0 <= s[at] ==> varint_at(s, at) == if at + 8 <= s.len() {
            Ok::<(nat, nat), PacketError>(
                (
                    ((((((((s[at] - 0xc0) * 256 + s[at + 1]) * 256 + s[at + 2]) * 256 + s[at + 3])
                        * 256 + s[at + 4]) * 256 + s[at + 5]) * 256 + s[at + 6]) * 256 + s[at
                        + 7]) as nat,
                    8,
                ),
            )
        } else {
            Err(PacketError::VarintTruncated)
        },
{
    if at < s.len() {
        let size = varint_size(s[at]);
        if at + size <= s.len() {
            let enc = s.subrange(at, at + size);
            let plain = enc.update(0, (enc[0] % 64) as u8);
            lemma_be_value_unrolled(plain);
            assert(plain[0] == s[at] % 64);
            assert(forall|i: int| 1 <= i < size ==> plain[i] == s[at + i]);
        }
    }
}

/// No encoding of a value is shorter than the one that is written.
pub proof fn written_varints_are_shortest(value: u64, s: Seq<u8>)
    requires
        varint_at(s, 0) matches Ok((v, size)) && v == value,
    ensures
        varint_bytes(value as nat).len() <= (varint_at(s, 0)->Ok_0).1,
{
    varints_are_read_from_their_bits(s, 0);
}

/// An encoding means the same wherever it stands.
pub proof fn encodings_mean_the_same_everywhere(before: Seq<u8>, enc: Seq<u8>, after: Seq<u8>)
    requires
        varint_at(enc, 0) is Ok,
        (varint_at(enc, 0)->Ok_0).1 == enc.len(),
    ensures
        varint_at(before + enc + after, before.len() as int) == varint_at(enc, 0),
        (before + enc + after).skip((before.len() + enc.len()) as int) == after,
{
    let s = before + enc + after;
    let at = before.len() as int;
    assert(s[at] == enc[0]);
    assert(s.subrange(at, at + enc.len()) =~= enc);
    assert(enc.subrange(0, enc.len() as int) =~= enc);
    assert(s.skip(at + enc.len()) =~= after);
}

} // verus!
