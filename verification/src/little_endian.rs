//! 32-bit signed integers as four little-endian bytes.
use vstd::prelude::*;

verus! {

/// The integer whose little-endian two's-complement representation is the
/// first four bytes of `b`.
pub open spec fn i32_from_le(b: Seq<u8>) -> int
    recommends
        b.len() >= 4,
{
    let unsigned = b[0] + 256 * b[1] + 65536 * b[2] + 16777216 * b[3];
    if unsigned < 0x8000_0000 {
        unsigned
    } else {
        unsigned - 0x1_0000_0000
    }
}

/// The four bytes that represent `value` in little-endian two's complement.
pub open spec fn i32_to_le(value: int) -> Seq<u8>
    recommends
        i32::MIN <= value <= i32::MAX,
{
    let unsigned = if value >= 0 {
        value
    } else {
        value + 0x1_0000_0000
    };
    seq![
        (unsigned % 256) as u8,
        (unsigned / 256 % 256) as u8,
        (unsigned / 256 / 256 % 256) as u8,
        (unsigned / 256 / 256 / 256 % 256) as u8,
    ]
}

/// Whatever the bytes, the integer read from them fits in an `i32`.
pub proof fn lemma_i32_from_le_in_range(b: Seq<u8>)
    ensures
        i32::MIN <= i32_from_le(b) <= i32::MAX,
{
}

/// Reading back the bytes written for a value gives that value.
pub proof fn lemma_i32_le_roundtrip(value: int)
    requires
        i32::MIN <= value <= i32::MAX,
    ensures
        i32_to_le(value).len() == 4,
        i32_from_le(i32_to_le(value)) == value,
{
}

/// Only the first four bytes count: reading from a longer run reads its
/// leading four bytes.
pub proof fn lemma_i32_from_le_prefix(b: Seq<u8>)
    requires
        b.len() >= 4,
    ensures
        i32_from_le(b) == i32_from_le(b.take(4)),
{
}

/// Reads a little-endian 32-bit signed integer.
pub fn i32_from_le_bytes(raw: [u8; 4]) -> (value: i32)
    ensures
        value == i32_from_le(raw@),
{
    let unsigned: u64 = raw[0] as u64 + 256 * (raw[1] as u64) + 65536 * (raw[2] as u64) + 16777216
        * (raw[3] as u64);
    if unsigned < 0x8000_0000 {
        unsigned as i32
    } else {
        (unsigned as i64 - 0x1_0000_0000) as i32
    }
}

/// Writes a 32-bit signed integer as four little-endian bytes.
pub fn i32_to_le_bytes(value: i32) -> (raw: [u8; 4])
    ensures
        raw@ == i32_to_le(value as int),
{
    let unsigned: u64 = if value >= 0 {
        value as u64
    } else {
        (value as i64 + 0x1_0000_0000) as u64
    };
    let raw = [
        (unsigned % 256) as u8,
        (unsigned / 256 % 256) as u8,
        (unsigned / 256 / 256 % 256) as u8,
        (unsigned / 256 / 256 / 256 % 256) as u8,
    ];
    assert(raw@ =~= i32_to_le(value as int));
    raw
}

/// Takes the first `N` bytes of `source` as an array and hands them to `f`.
///
/// Gives `None` when `source` holds fewer than `N` bytes.
pub fn bytes<T, const N: usize>(source: &[u8], f: impl FnOnce([u8; N]) -> T) -> (r: Option<T>)
    requires
        forall|head: [u8; N]| head@ == source@.take(N as int) ==> call_requires(f, (head,)),
    ensures
        r is Some <==> source@.len() >= N,
        r matches Some(value) ==> exists|head: [u8; N]|
            head@ == source@.take(N as int) && call_ensures(f, (head,), value),
{
    if source.len() < N {
        return None;
    }
    let mut head: [u8; N] = [0u8; N];
    for i in 0..N
        invariant
            source@.len() >= N,
            forall|j: int| 0 <= j < i ==> head@[j] == source@[j],
    {
        head[i] = source[i];
    }
    assert(head@ =~= source@.take(N as int));
    Some(f(head))
}

/// Reads the little-endian 32-bit signed integer that `source` begins with.
pub fn read_i32(source: &[u8]) -> (r: Option<i32>)
    ensures
        r is Some <==> source@.len() >= 4,
        r matches Some(value) ==> value == i32_from_le(source@),
{
    let r = bytes::<i32, 4>(source, i32_from_le_bytes);
    proof {
        if let Some(value) = r {
            let head = choose|head: [u8; 4]|
                head@ == source@.take(4) && call_ensures(i32_from_le_bytes, (head,), value);
            lemma_i32_from_le_prefix(source@);
        }
    }
    r
}

} // verus!
