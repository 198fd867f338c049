//! The bytes of a package on the wire, and why reading undoes writing.
use crate::little_endian::{i32_to_le, lemma_i32_le_roundtrip};
use crate::markers::{
    ends_with_end, first_magic, has_magic, lemma_first_magic_is, lemma_has_first_magic, magic_at,
    magic_first_at, END, MAGIC,
};
use crate::package::{
    declared_length, declared_version, parse_package, payload_end, payload_start, PackageView,
};
use crate::package_v1::{decode_v1, PackageV1, V1_PAYLOAD_LENGTH, VERSION_1};
use crate::receiver::no_package_before;
use vstd::prelude::*;

verus! {

/// The bytes of a package: the start marker, the version, the payload
/// length, the payload and the end marker.
pub open spec fn package_bytes(version: int, payload: Seq<u8>) -> Seq<u8> {
    MAGIC@ + i32_to_le(version) + i32_to_le(payload.len() as int) + payload + END@
}

/// The payload of a package of version 1: the timestamp, the sensor and the
/// value of the record.
pub open spec fn v1_payload(record: PackageV1) -> Seq<u8> {
    i32_to_le(record.timestamp as int) + i32_to_le(record.sensor as int) + i32_to_le(
        record.value as int,
    )
}

/// The package with a given version and payload.
pub open spec fn package_of(version: int, payload: Seq<u8>) -> PackageView {
    PackageView { version, data_len: payload.len() as int, data: payload }
}

/// How the bytes of a package lie in a buffer that holds them after
/// `garbage`.
proof fn lemma_layout(garbage: Seq<u8>, version: int, payload: Seq<u8>)
    requires
        i32::MIN <= version <= i32::MAX,
        payload.len() <= i32::MAX,
    ensures
        ({
            let s = garbage + package_bytes(version, payload);
            let g = garbage.len() as int;
            &&& s.len() == g + payload.len() + 14
            &&& s.subrange(0, g) == garbage
            &&& s.subrange(g, g + 3) == MAGIC@
            &&& s.subrange(g + 3, g + 7) == i32_to_le(version)
            &&& s.subrange(g + 7, g + 11) == i32_to_le(payload.len() as int)
            &&& s.subrange(g + 11, s.len() - 3) == payload
            &&& s.subrange(s.len() - 3, s.len() as int) == END@
        }),
{
    let s = garbage + package_bytes(version, payload);
    let g = garbage.len() as int;
    lemma_i32_le_roundtrip(version);
    lemma_i32_le_roundtrip(payload.len() as int);
    assert(s.subrange(0, g) =~= garbage);
    assert(s.subrange(g, g + 3) =~= MAGIC@);
    assert(s.subrange(g + 3, g + 7) =~= i32_to_le(version));
    assert(s.subrange(g + 7, g + 11) =~= i32_to_le(payload.len() as int));
    assert(s.subrange(g + 11, s.len() - 3) =~= payload);
    assert(s.subrange(s.len() - 3, s.len() as int) =~= END@);
}

/// In a buffer that holds a package after garbage without a start marker,
/// the first start marker is that of the package.
proof fn lemma_first_magic_after_garbage(garbage: Seq<u8>, version: int, payload: Seq<u8>)
    requires
        i32::MIN <= version <= i32::MAX,
        payload.len() <= i32::MAX,
        !has_magic(garbage),
    ensures
        magic_first_at(garbage + package_bytes(version, payload), garbage.len() as int),
{
    let s = garbage + package_bytes(version, payload);
    let g = garbage.len() as int;
    lemma_layout(garbage, version, payload);
    assert forall|before: int| 0 <= before < g implies !magic_at(s, before) by {
        if magic_at(s, before) {
            let found = s.subrange(before, before + 3);
            if before + 3 <= g {
                assert(garbage.subrange(before, before + 3) =~= found);
                assert(magic_at(garbage, before));
            } else if before == g - 1 {
                assert(found[1] == s[g]);
                assert(s[g] == s.subrange(g, g + 3)[0]);
            } else {
                assert(found[2] == s[g]);
                assert(s[g] == s.subrange(g, g + 3)[0]);
            }
        }
    }
}

/// A buffer whose first start marker opens a package that fills it to its
/// end holds that package.
proof fn lemma_package_from_first_magic(s: Seq<u8>, start: int, version: int, payload: Seq<u8>)
    requires
        magic_first_at(s, start),
        ends_with_end(s),
        s.len() == start + payload.len() + 14,
        declared_version(s, start) == version,
        declared_length(s, start) == payload.len(),
        s.subrange(start + 11, s.len() - 3) == payload,
    ensures
        parse_package(s) == Some(package_of(version, payload)),
{
    lemma_first_magic_is(s, start);
}

/// A package that a buffer holds has room for everything that follows a
/// start marker in the buffer: where `room` bytes follow the offset of a
/// marker, its payload has `room - 14` bytes or more.
proof fn lemma_early_magic_means_long_payload(s: Seq<u8>, early: int, room: int)
    requires
        magic_at(s, early),
        early + room <= s.len(),
    ensures
        parse_package(s) matches Some(package) ==> package.data_len >= room - 14,
{
    lemma_has_first_magic(s);
    let start = first_magic(s);
    if early < start {
        assert(!magic_at(s, early));
    }
}

/// A buffer that holds the bytes of a package after garbage is read as that
/// package exactly when the start marker does not stand in the garbage.
///
/// Garbage that holds the start marker hides the package: the buffer is then
/// read from the marker in the garbage.
pub proof fn lemma_package_after_garbage(garbage: Seq<u8>, version: int, payload: Seq<u8>)
    requires
        i32::MIN <= version <= i32::MAX,
        payload.len() <= i32::MAX,
    ensures
        parse_package(garbage + package_bytes(version, payload)) == Some(
            package_of(version, payload),
        ) <==> !has_magic(garbage),
{
    let s = garbage + package_bytes(version, payload);
    let g = garbage.len() as int;
    lemma_layout(garbage, version, payload);
    if has_magic(garbage) {
        let in_garbage = choose|at: int| magic_at(garbage, at);
        assert(s.subrange(in_garbage, in_garbage + 3) =~= garbage.subrange(
            in_garbage,
            in_garbage + 3,
        ));
        lemma_early_magic_means_long_payload(s, in_garbage, (payload.len() + 17) as int);
    } else {
        lemma_first_magic_after_garbage(garbage, version, payload);
        lemma_i32_le_roundtrip(version);
        lemma_i32_le_roundtrip(payload.len() as int);
        lemma_package_from_first_magic(s, g, version, payload);
    }
}

/// A buffer whose first start marker opens a package that fills it to its
/// end holds no package while it is cut short.
proof fn lemma_part_holds_no_package(s: Seq<u8>, start: int, n: int)
    requires
        magic_first_at(s, start),
        declared_length(s, start) >= 0,
        payload_start(start) + declared_length(s, start) == payload_end(s),
        0 <= n < s.len(),
    ensures
        parse_package(s.take(n)) is None,
{
    let part = s.take(n);
    if parse_package(part) is Some {
        lemma_has_first_magic(part);
        let found = first_magic(part);
        assert(s.subrange(found, found + 3) =~= part.subrange(found, found + 3));
        assert(magic_at(s, found));
        if found > start {
            assert(part.subrange(start, start + 3) =~= s.subrange(start, start + 3));
            assert(magic_at(part, start));
        }
        assert(found == start);
        assert(part.subrange(start + 7, start + 11) =~= s.subrange(start + 7, start + 11));
    }
}

/// A buffer that holds the bytes of a package after garbage without a start
/// marker holds no package while it is cut short.
pub proof fn lemma_no_package_in_part(garbage: Seq<u8>, version: int, payload: Seq<u8>)
    requires
        i32::MIN <= version <= i32::MAX,
        payload.len() <= i32::MAX,
        !has_magic(garbage),
    ensures
        no_package_before(garbage + package_bytes(version, payload)),
{
    let s = garbage + package_bytes(version, payload);
    let g = garbage.len() as int;
    lemma_layout(garbage, version, payload);
    lemma_i32_le_roundtrip(payload.len() as int);
    lemma_first_magic_after_garbage(garbage, version, payload);
    assert(declared_length(s, g) == payload.len());
    assert forall|n: int| 0 <= n < s.len() implies parse_package(#[trigger] s.take(n)) is None by {
        lemma_part_holds_no_package(s, g, n);
    }
}

/// Reading undoes writing: the bytes of a package are read as that package.
pub proof fn lemma_package_bytes_parse(version: int, payload: Seq<u8>)
    requires
        i32::MIN <= version <= i32::MAX,
        payload.len() <= i32::MAX,
    ensures
        parse_package(package_bytes(version, payload)) == Some(package_of(version, payload)),
        no_package_before(package_bytes(version, payload)),
{
    let garbage = Seq::<u8>::empty();
    assert(garbage + package_bytes(version, payload) =~= package_bytes(version, payload));
    assert(!has_magic(garbage));
    lemma_package_after_garbage(garbage, version, payload);
    lemma_no_package_in_part(garbage, version, payload);
}

/// The payload of a record of version 1 is read as that record.
pub proof fn lemma_v1_payload_decodes(record: PackageV1)
    ensures
        v1_payload(record).len() == V1_PAYLOAD_LENGTH,
        decode_v1(package_of(VERSION_1 as int, v1_payload(record))) == Some(record),
{
    let payload = v1_payload(record);
    lemma_i32_le_roundtrip(record.timestamp as int);
    lemma_i32_le_roundtrip(record.sensor as int);
    lemma_i32_le_roundtrip(record.value as int);
    assert(payload.subrange(0, 4) =~= i32_to_le(record.timestamp as int));
    assert(payload.subrange(4, 8) =~= i32_to_le(record.sensor as int));
    assert(payload.subrange(8, 12) =~= i32_to_le(record.value as int));
}

/// The bytes of the package that carries a record are read as a package of
/// version 1, and that package as the record.
pub proof fn lemma_record_roundtrip(record: PackageV1)
    ensures
        parse_package(package_bytes(VERSION_1 as int, v1_payload(record))) == Some(
            package_of(VERSION_1 as int, v1_payload(record)),
        ),
        decode_v1(package_of(VERSION_1 as int, v1_payload(record))) == Some(record),
{
    lemma_v1_payload_decodes(record);
    lemma_package_bytes_parse(VERSION_1 as int, v1_payload(record));
}

/// A package of version 1 whose payload is not twelve bytes long is
/// recognised in a buffer, and carries no record.
pub proof fn lemma_v1_wrong_length_is_rejected(payload: Seq<u8>)
    requires
        payload.len() <= i32::MAX,
        payload.len() != V1_PAYLOAD_LENGTH,
    ensures
        parse_package(package_bytes(VERSION_1 as int, payload)) == Some(
            package_of(VERSION_1 as int, payload),
        ),
        decode_v1(package_of(VERSION_1 as int, payload)) is None,
{
    lemma_package_bytes_parse(VERSION_1 as int, payload);
}

} // verus!
