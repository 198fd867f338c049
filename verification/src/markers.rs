//! The two markers that delimit a package in a stream, and where they stand.
use vstd::prelude::*;

verus! {

/// The bytes that open a package.
pub const MAGIC: [u8; 3] = [77, 87, 100];

/// The bytes that close a package.
pub const END: [u8; 3] = [10, 10, 0];

/// The length of the shortest package: both markers, the version and the
/// payload length, and an empty payload.
pub const MINIMUM_LENGTH: usize = 14;

/// `pattern` stands in `s` at offset `at`.
pub open spec fn occurs_at(s: Seq<u8>, at: int, pattern: Seq<u8>) -> bool {
    0 <= at && at + pattern.len() <= s.len() && s.subrange(at, at + pattern.len()) == pattern
}

/// The start marker stands in `s` at offset `at`.
pub open spec fn magic_at(s: Seq<u8>, at: int) -> bool {
    occurs_at(s, at, MAGIC@)
}

/// The start marker stands somewhere in `s`.
pub open spec fn has_magic(s: Seq<u8>) -> bool {
    exists|at: int| magic_at(s, at)
}

/// The start marker stands in `s` at offset `at` and nowhere before.
pub open spec fn magic_first_at(s: Seq<u8>, at: int) -> bool {
    magic_at(s, at) && forall|before: int| 0 <= before < at ==> !magic_at(s, before)
}

/// The offset of the first start marker in `s`, where `s` has one.
pub open spec fn first_magic(s: Seq<u8>) -> int
    recommends
        has_magic(s),
{
    choose|at: int| magic_first_at(s, at)
}

/// The last bytes of `s` are the end marker.
pub open spec fn ends_with_end(s: Seq<u8>) -> bool {
    occurs_at(s, s.len() - END@.len(), END@)
}

/// A buffer has at most one first start marker, and `first_magic` names it.
pub proof fn lemma_first_magic_is(s: Seq<u8>, at: int)
    requires
        magic_first_at(s, at),
    ensures
        has_magic(s),
        first_magic(s) == at,
{
    let chosen = first_magic(s);
    assert(magic_first_at(s, chosen));
    if chosen < at {
        assert(!magic_at(s, chosen));
    } else if at < chosen {
        assert(!magic_at(s, at));
    }
}

/// A buffer in which the start marker stands has a first one.
pub proof fn lemma_has_first_magic(s: Seq<u8>)
    requires
        has_magic(s),
    ensures
        magic_first_at(s, first_magic(s)),
{
    let some = choose|at: int| magic_at(s, at);
    lemma_least_magic(s, some, 0);
}

/// If the marker stands at `known` and nowhere before `from`, then some
/// offset between the two is the first.
proof fn lemma_least_magic(s: Seq<u8>, known: int, from: int)
    requires
        magic_at(s, known),
        0 <= from <= known,
        forall|before: int| 0 <= before < from ==> !magic_at(s, before),
    ensures
        exists|at: int| magic_first_at(s, at),
    decreases known - from,
{
    if magic_at(s, from) {
        assert(magic_first_at(s, from));
    } else {
        lemma_least_magic(s, known, from + 1);
    }
}

/// Tells whether `data` begins with `pattern`.
pub fn starts_with(data: &[u8], pattern: &[u8]) -> (found: bool)
    ensures
        found == occurs_at(data@, 0, pattern@),
{
    if data.len() < pattern.len() {
        return false;
    }
    let mut i: usize = 0;
    while i < pattern.len()
        invariant
            i <= pattern.len() <= data.len(),
            forall|j: int| 0 <= j < i ==> data@[j] == pattern@[j],
        decreases pattern.len() - i,
    {
        if data[i] != pattern[i] {
            assert(data@.subrange(0, pattern@.len() as int)[i as int] != pattern@[i as int]);
            return false;
        }
        i += 1;
    }
    assert(data@.subrange(0, pattern@.len() as int) =~= pattern@);
    true
}

/// Tells whether `data` ends with `pattern`.
pub fn ends_with(data: &[u8], pattern: &[u8]) -> (found: bool)
    ensures
        found == occurs_at(data@, data@.len() - pattern@.len(), pattern@),
{
    if data.len() < pattern.len() {
        return false;
    }
    let offset: usize = data.len() - pattern.len();
    let mut i: usize = 0;
    while i < pattern.len()
        invariant
            i <= pattern.len() <= data.len(),
            offset == data.len() - pattern.len(),
            forall|j: int| 0 <= j < i ==> data@[offset + j] == pattern@[j],
        decreases pattern.len() - i,
    {
        if data[offset + i] != pattern[i] {
            assert(data@.subrange(offset as int, data@.len() as int)[i as int]
                != pattern@[i as int]);
            return false;
        }
        i += 1;
    }
    assert(data@.subrange(offset as int, data@.len() as int) =~= pattern@);
    true
}

} // verus!
