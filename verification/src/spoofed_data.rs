//! A receiver that hands out bytes held in memory.
use crate::markers::{ends_with_end, has_magic, magic_at, occurs_at, END};
use crate::package::{parse_package, PackageView};
use crate::receiver::{hands_out, no_package_before, reads_package, DataReceiver};
use crate::wire_format::{
    lemma_no_package_in_part, lemma_package_after_garbage, package_bytes, package_of,
};
use vstd::prelude::*;
use vstd::slice::slice_to_vec;
use vstd::std_specs::convert::FromSpecImpl;

verus! {

/// A receiver that hands out the bytes it was made from, in order, and then
/// has no more.
pub struct SpoofedData {
    data: Vec<u8>,
    index: usize,
}

/// The bytes of all `chunks`, one chunk after the other.
pub open spec fn concat(chunks: Seq<&[u8]>) -> Seq<u8>
    decreases chunks.len(),
{
    if chunks.len() == 0 {
        Seq::empty()
    } else {
        concat(chunks.drop_last()) + chunks.last()@
    }
}

impl View for SpoofedData {
    type V = Seq<u8>;

    /// The bytes that are still to be handed out.
    closed spec fn view(&self) -> Seq<u8> {
        self.data@.skip(self.index as int)
    }
}

impl SpoofedData {
    #[verifier::type_invariant]
    spec fn index_in_bounds(self) -> bool {
        self.index <= self.data@.len()
    }
}

impl DataReceiver for SpoofedData {
    open spec fn step(before: &Self, byte: Option<u8>, after: &Self) -> bool {
        match byte {
            Some(byte) => before@.len() > 0 && byte == before@[0] && after@ == before@.skip(1),
            None => before@.len() == 0 && after@ == before@,
        }
    }

    fn get_next_byte(&mut self) -> (byte: Option<u8>) {
        proof {
            use_type_invariant(&*self);
        }
        if self.index >= self.data.len() {
            return None;
        }
        let byte: u8 = self.data[self.index];
        self.index += 1;
        assert(self@ =~= old(self)@.skip(1));
        Some(byte)
    }
}

impl From<&[u8]> for SpoofedData {
    /// A receiver that holds the bytes of `value`.
    fn from(value: &[u8]) -> (r: Self)
        ensures
            r@ == value@,
    {
        Self { data: slice_to_vec(value), index: 0 }
    }
}

/// Two receivers that hold the same bytes need not be the same value, so
/// these conversions are specified on `from` itself, by the bytes that the
/// new receiver holds.
impl FromSpecImpl<&[u8]> for SpoofedData {
    open spec fn obeys_from_spec() -> bool {
        false
    }

    open spec fn from_spec(v: &[u8]) -> Self {
        arbitrary()
    }
}

impl From<&[&[u8]]> for SpoofedData {
    /// A receiver that holds the bytes of all chunks of `value`, one chunk
    /// after the other.
    fn from(value: &[&[u8]]) -> (r: Self)
        ensures
            r@ == concat(value@),
    {
        let mut data: Vec<u8> = Vec::new();
        let mut i: usize = 0;
        while i < value.len()
            invariant
                i <= value.len(),
                data@ == concat(value@.take(i as int)),
            decreases value.len() - i,
        {
            data.extend_from_slice(value[i]);
            assert(value@.take(i + 1).drop_last() =~= value@.take(i as int));
            i += 1;
        }
        assert(value@.take(i as int) =~= value@);
        Self { data, index: 0 }
    }
}

impl FromSpecImpl<&[&[u8]]> for SpoofedData {
    open spec fn obeys_from_spec() -> bool {
        false
    }

    open spec fn from_spec(v: &[&[u8]]) -> Self {
        arbitrary()
    }
}

impl<const N: usize> From<&[&[u8]; N]> for SpoofedData {
    /// A receiver that holds the bytes of all chunks of `value`, one chunk
    /// after the other.
    fn from(value: &[&[u8]; N]) -> (r: Self)
        ensures
            r@ == concat(value@),
    {
        SpoofedData::from(value.as_slice())
    }
}

impl<const N: usize> FromSpecImpl<&[&[u8]; N]> for SpoofedData {
    open spec fn obeys_from_spec() -> bool {
        false
    }

    open spec fn from_spec(v: &[&[u8]; N]) -> Self {
        arbitrary()
    }
}

/// What a receiver in memory hands out is what stood first among the bytes
/// it held, and it holds the others afterwards.
pub proof fn lemma_spoofed_hands_out(before: SpoofedData, bytes: Seq<u8>, after: SpoofedData)
    requires
        hands_out(before, bytes, after),
    ensures
        bytes.len() <= before@.len(),
        bytes == before@.take(bytes.len() as int),
        after@ == before@.skip(bytes.len() as int),
    decreases bytes.len(),
{
    if bytes.len() == 0 {
        assert(before@.take(0) =~= bytes);
        assert(before@.skip(0) =~= before@);
    } else {
        let between = choose|between: SpoofedData|
            hands_out(before, bytes.drop_last(), between) && #[trigger] SpoofedData::step(
                &between,
                Some(bytes.last()),
                &after,
            );
        lemma_spoofed_hands_out(before, bytes.drop_last(), between);
        assert(bytes =~= before@.take(bytes.len() as int));
        assert(after@ =~= before@.skip(bytes.len() as int));
    }
}

/// What reading one package does to a receiver in memory: it takes the
/// shortest run of leading bytes that holds a package, and gives that
/// package; where no run of leading bytes holds one, it takes every byte and
/// gives none.
///
/// The result is the number of bytes taken.
pub proof fn lemma_spoofed_read(
    before: SpoofedData,
    after: SpoofedData,
    result: Option<PackageView>,
) -> (taken: int)
    requires
        exists|bytes: Seq<u8>, last: SpoofedData|
            reads_package(before, bytes, last, result, after),
    ensures
        0 <= taken <= before@.len(),
        after@ == before@.skip(taken),
        result == parse_package(before@.take(taken)),
        no_package_before(before@.take(taken)),
        result is None ==> taken == before@.len(),
{
    let (bytes, last) = choose|bytes: Seq<u8>, last: SpoofedData|
        reads_package(before, bytes, last, result, after);
    lemma_spoofed_hands_out(before, bytes, last);
    bytes.len() as int
}

/// A receiver in memory whose leading bytes hold a package, and hold none
/// while they are cut short, gives that package when it is read, and holds
/// afterwards what followed those bytes.
pub proof fn lemma_spoofed_reads_leading_package(
    before: SpoofedData,
    after: SpoofedData,
    result: Option<PackageView>,
    leading: Seq<u8>,
    rest: Seq<u8>,
)
    requires
        before@ == leading + rest,
        parse_package(leading) is Some,
        no_package_before(leading),
        exists|bytes: Seq<u8>, last: SpoofedData|
            reads_package(before, bytes, last, result, after),
    ensures
        result == parse_package(leading),
        after@ == rest,
{
    let taken = lemma_spoofed_read(before, after, result);
    let read = before@.take(taken);
    assert(before@.take(leading.len() as int) =~= leading);
    if taken < leading.len() {
        assert(read =~= leading.take(taken));
    } else if taken > leading.len() {
        assert(read.take(leading.len() as int) =~= leading);
    }
    assert(taken == leading.len());
    assert(before@.skip(taken) =~= rest);
}

/// A receiver in memory that holds garbage without a start marker, then the
/// bytes of a package, then anything at all, gives that package when it is
/// read, and holds afterwards what followed the package.
pub proof fn lemma_spoofed_reads_first_package(
    before: SpoofedData,
    after: SpoofedData,
    result: Option<PackageView>,
    garbage: Seq<u8>,
    version: int,
    payload: Seq<u8>,
    rest: Seq<u8>,
)
    requires
        i32::MIN <= version <= i32::MAX,
        payload.len() <= i32::MAX,
        !has_magic(garbage),
        before@ == garbage + package_bytes(version, payload) + rest,
        exists|bytes: Seq<u8>, last: SpoofedData|
            reads_package(before, bytes, last, result, after),
    ensures
        result == Some(package_of(version, payload)),
        after@ == rest,
{
    lemma_package_after_garbage(garbage, version, payload);
    lemma_no_package_in_part(garbage, version, payload);
    lemma_spoofed_reads_leading_package(
        before,
        after,
        result,
        garbage + package_bytes(version, payload),
        rest,
    );
}

/// A receiver in memory that holds the bytes of a package and nothing else
/// gives that package when it is read, and holds nothing afterwards.
pub proof fn lemma_spoofed_reads_package(
    before: SpoofedData,
    after: SpoofedData,
    result: Option<PackageView>,
    version: int,
    payload: Seq<u8>,
)
    requires
        i32::MIN <= version <= i32::MAX,
        payload.len() <= i32::MAX,
        before@ == package_bytes(version, payload),
        exists|bytes: Seq<u8>, last: SpoofedData|
            reads_package(before, bytes, last, result, after),
    ensures
        result == Some(package_of(version, payload)),
        after@ == Seq::<u8>::empty(),
{
    let nothing = Seq::<u8>::empty();
    assert(!has_magic(nothing));
    assert(nothing + package_bytes(version, payload) + nothing =~= package_bytes(
        version,
        payload,
    ));
    lemma_spoofed_reads_first_package(before, after, result, nothing, version, payload, nothing);
}

/// A receiver in memory that holds the start marker nowhere gives no
/// package, however many bytes it holds, and is read to its end.
pub proof fn lemma_spoofed_without_magic(
    before: SpoofedData,
    after: SpoofedData,
    result: Option<PackageView>,
)
    requires
        !has_magic(before@),
        exists|bytes: Seq<u8>, last: SpoofedData|
            reads_package(before, bytes, last, result, after),
    ensures
        result is None,
        after@.len() == 0,
{
    let taken = lemma_spoofed_read(before, after, result);
    let read = before@.take(taken);
    if has_magic(read) {
        let at = choose|at: int| magic_at(read, at);
        assert(before@.subrange(at, at + 3) =~= read.subrange(at, at + 3));
        assert(magic_at(before@, at));
    }
}

/// A receiver in memory that holds the end marker nowhere gives no package,
/// and is read to its end.
pub proof fn lemma_spoofed_without_end(
    before: SpoofedData,
    after: SpoofedData,
    result: Option<PackageView>,
)
    requires
        forall|at: int| !occurs_at(before@, at, END@),
        exists|bytes: Seq<u8>, last: SpoofedData|
            reads_package(before, bytes, last, result, after),
    ensures
        result is None,
        after@.len() == 0,
{
    let taken = lemma_spoofed_read(before, after, result);
    let read = before@.take(taken);
    if ends_with_end(read) {
        assert(before@.subrange(taken - 3, taken) =~= read.subrange(taken - 3, taken));
        assert(occurs_at(before@, taken - 3, END@));
    }
}

} // verus!
