//! Little-endian numbers and pieces of byte sequences.

use vstd::prelude::*;

verus! {

/// The `count` low-order bytes of a number, the lowest first.
pub open spec fn le_bytes(n: nat, count: nat) -> Seq<u8>
    decreases count,
{
    if count == 0 {
        seq![]
    } else {
        seq![(n % 256) as u8] + le_bytes(n / 256, (count - 1) as nat)
    }
}

/// The number that bytes denote when the lowest comes first.
pub open spec fn le_value(bytes: Seq<u8>) -> nat
    decreases bytes.len(),
{
    if bytes.len() == 0 {
        0
    } else {
        bytes[0] as nat + 256 * le_value(bytes.skip(1))
    }
}

/// The bytes of a number are as many as were asked for.
pub proof fn lemma_le_bytes_len(n: nat, count: nat)
    ensures
        le_bytes(n, count).len() == count,
    decreases count,
{
    if count > 0 {
        lemma_le_bytes_len(n / 256, (count - 1) as nat);
    }
}

/// 256 to the power `count`.
pub open spec fn le_limit(count: nat) -> nat
    decreases count,
{
    if count == 0 {
        1
    } else {
        256 * le_limit((count - 1) as nat)
    }
}

/// Reading back the bytes of a number that fits gives the number.
pub proof fn le_round_trip(n: nat, count: nat)
    requires
        n < le_limit(count),
    ensures
        le_value(le_bytes(n, count)) == n,
    decreases count,
{
    if count > 0 {
        le_round_trip(n / 256, (count - 1) as nat);
        assert(le_bytes(n, count).skip(1) =~= le_bytes(n / 256, (count - 1) as nat));
    }
}

/// Appends the `count` low-order bytes of a number.
pub fn push_le(out: &mut Vec<u8>, n: u64, count: usize)
    ensures
        final(out)@ == old(out)@ + le_bytes(n as nat, count as nat),
{
    let mut rest: u64 = n;
    let mut i: usize = 0;
    while i < count
        invariant
            i <= count,
            out@ + le_bytes(rest as nat, (count - i) as nat) == old(out)@ + le_bytes(
                n as nat,
                count as nat,
            ),
        decreases count - i,
    {
        out.push((rest % 256) as u8);
        rest = rest / 256;
        i = i + 1;
        assert(out@ + le_bytes(rest as nat, (count - i) as nat) =~= old(out)@ + le_bytes(
            n as nat,
            count as nat,
        ));
    }
    assert(out@ =~= old(out)@ + le_bytes(n as nat, count as nat));
}

/// The value of the two bytes at a position.
pub fn read_u16(data: &[u8], at: usize) -> (result: u16)
    requires
        at + 2 <= data@.len(),
    ensures
        result == le_value(data@.subrange(at as int, at + 2)),
{
    proof {
        lemma_le_value_2(data@.subrange(at as int, at + 2));
    }
    data[at] as u16 + 256 * data[at + 1] as u16
}

/// The value of the four bytes at a position.
pub fn read_u32(data: &[u8], at: usize) -> (result: u32)
    requires
        at + 4 <= data@.len(),
    ensures
        result == le_value(data@.subrange(at as int, at + 4)),
{
    proof {
        lemma_le_value_4(data@.subrange(at as int, at + 4));
    }
    data[at] as u32 + 256 * data[at + 1] as u32 + 65536 * data[at + 2] as u32 + 16777216 * data[at
        + 3] as u32
}

/// The value of the eight bytes at a position.
pub fn read_u64(data: &[u8], at: usize) -> (result: u64)
    requires
        at + 8 <= data@.len(),
    ensures
        result == le_value(data@.subrange(at as int, at + 8)),
{
    assert(data@.len() == data.len());
    let low: u32 = read_u32(data, at);
    let high: u32 = read_u32(data, at + 4);
    proof {
        lemma_le_value_8(data@.subrange(at as int, at + 8));
        assert(data@.subrange(at as int, at + 8).take(4) =~= data@.subrange(at as int, at + 4));
        assert(data@.subrange(at as int, at + 8).skip(4) =~= data@.subrange(at + 4, at + 8));
    }
    low as u64 + 4294967296 * high as u64
}

proof fn lemma_le_value_2(b: Seq<u8>)
    requires
        b.len() == 2,
    ensures
        le_value(b) == b[0] + 256 * b[1],
{
    reveal_with_fuel(le_value, 3);
}

proof fn lemma_le_value_4(b: Seq<u8>)
    requires
        b.len() == 4,
    ensures
        le_value(b) == b[0] + 256 * b[1] + 65536 * b[2] + 16777216 * b[3],
{
    reveal_with_fuel(le_value, 5);
}

proof fn lemma_le_value_8(b: Seq<u8>)
    requires
        b.len() == 8,
    ensures
        le_value(b) == le_value(b.take(4)) + 4294967296 * le_value(b.skip(4)),
{
    reveal_with_fuel(le_value, 5);
    lemma_le_value_4(b.take(4));
    assert(b.skip(1).skip(1).skip(1).skip(1) =~= b.skip(4));
}

/// Appends the bytes of a slice.
pub fn push_bytes(out: &mut Vec<u8>, data: &[u8])
    ensures
        final(out)@ == old(out)@ + data@,
{
    let mut i: usize = 0;
    while i < data.len()
        invariant
            i <= data@.len(),
            out@ == old(out)@ + data@.take(i as int),
        decreases data@.len() - i,
    {
        out.push(data[i]);
        i = i + 1;
        assert(out@ =~= old(out)@ + data@.take(i as int));
    }
    assert(data@.take(i as int) =~= data@);
}

/// `count` bytes of value zero.
pub open spec fn zeros(count: nat) -> Seq<u8> {
    Seq::new(count, |i: int| 0u8)
}

/// Appends bytes of value zero.
pub fn push_zeros(out: &mut Vec<u8>, count: usize)
    ensures
        final(out)@ == old(out)@ + zeros(count as nat),
{
    let mut i: usize = 0;
    while i < count
        invariant
            i <= count,
            out@ == old(out)@ + zeros(i as nat),
        decreases count - i,
    {
        out.push(0);
        i = i + 1;
        assert(out@ =~= old(out)@ + zeros(i as nat));
    }
    assert(out@ =~= old(out)@ + zeros(count as nat));
}

/// The bytes from `start` up to `end`.
pub fn copy_bytes(data: &[u8], start: usize, end: usize) -> (result: Vec<u8>)
    requires
        start <= end <= data@.len(),
    ensures
        result@ == data@.subrange(start as int, end as int),
{
    let mut result: Vec<u8> = Vec::new();
    let mut i: usize = start;
    while i < end
        invariant
            start <= i <= end <= data@.len(),
            result@ == data@.subrange(start as int, i as int),
        decreases end - i,
    {
        result.push(data[i]);
        i = i + 1;
        assert(result@ =~= data@.subrange(start as int, i as int));
    }
    result
}

/// Whether two bytes of a slice are the given ones.
pub fn tagged(data: &[u8], at: usize, first: u8, second: u8) -> (result: bool)
    requires
        at + 2 <= data@.len(),
    ensures
        result == (data@.subrange(at as int, at + 2) == seq![first, second]),
{
    let result = data[at] == first && data[at + 1] == second;
    proof {
        let tag = data@.subrange(at as int, at + 2);
        assert(tag[0] == data@[at as int] && tag[1] == data@[at + 1]);
        if result {
            assert(tag =~= seq![first, second]);
        } else {
            assert(seq![first, second][0] == first && seq![first, second][1] == second);
        }
    }
    result
}

/// Two bytes of a number depend only on its remainder by 65536.
pub proof fn lemma_le_bytes_two(a: nat, b: nat)
    requires
        a % 65536 == b % 65536,
    ensures
        le_bytes(a, 2) == le_bytes(b, 2),
{
    reveal_with_fuel(le_bytes, 3);
    assert(a % 256 == b % 256);
    assert((a / 256) % 256 == (b / 256) % 256);
}

/// The largest number that stands for `n` in a `usize`.
pub open spec fn saturated(n: int) -> usize {
    if n > usize::MAX {
        usize::MAX
    } else {
        n as usize
    }
}

/// The contents of a list of byte vectors.
pub open spec fn byte_views(list: Seq<Vec<u8>>) -> Seq<Seq<u8>> {
    list.map_values(|v: Vec<u8>| v@)
}

/// How much of a sequence lies at or behind a position.
pub open spec fn left(length: nat, at: nat) -> nat {
    if at <= length {
        (length - at) as nat
    } else {
        0
    }
}

}
