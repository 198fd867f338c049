//! A package: the frame between a start marker and an end marker.
use crate::little_endian::{i32_from_le, lemma_i32_from_le_in_range, read_i32};
use crate::markers::{
    ends_with, ends_with_end, first_magic, has_magic, lemma_first_magic_is,
    lemma_has_first_magic, magic_at, magic_first_at, occurs_at, starts_with, END, MAGIC,
    MINIMUM_LENGTH,
};
use vstd::prelude::*;
use vstd::slice::slice_to_vec;

verus! {

/// What a package holds.
pub struct PackageView {
    /// The version tag, which decides how the payload is laid out.
    pub version: int,
    /// The payload length that the package declares.
    pub data_len: int,
    /// The payload.
    pub data: Seq<u8>,
}

/// A package that was recognised in a buffer. Its payload is as long as the
/// length it declares.
#[derive(Debug, PartialEq)]
pub struct Package {
    version: i32,
    data_len: i32,
    data: Vec<u8>,
}

/// The version that a package declares whose start marker stands at `start`.
pub open spec fn declared_version(s: Seq<u8>, start: int) -> int {
    i32_from_le(s.subrange(start + 3, start + 7))
}

/// The payload length that a package declares whose start marker stands at
/// `start`.
pub open spec fn declared_length(s: Seq<u8>, start: int) -> int {
    i32_from_le(s.subrange(start + 7, start + 11))
}

/// Where the payload begins in a package whose start marker stands at
/// `start`: after the marker and the two integers.
pub open spec fn payload_start(start: int) -> int {
    start + 11
}

/// Where the payload ends in a terminated buffer: before the end marker.
pub open spec fn payload_end(s: Seq<u8>) -> int {
    s.len() - 3
}

/// The package that `s` holds from the start marker at `start` to its end,
/// if the declared payload length is exactly the room between the two.
pub open spec fn package_at(s: Seq<u8>, start: int) -> Option<PackageView> {
    let data_len = declared_length(s, start);
    if s.len() - start >= MINIMUM_LENGTH && data_len >= 0 && payload_start(start) + data_len
        == payload_end(s) {
        Some(
            PackageView {
                version: declared_version(s, start),
                data_len,
                data: s.subrange(payload_start(start), payload_end(s)),
            },
        )
    } else {
        None
    }
}

/// The package that the terminated buffer `s` holds: the one that runs from
/// the first start marker in `s` to the end marker that closes `s`.
pub open spec fn parse_package(s: Seq<u8>) -> Option<PackageView> {
    if s.len() >= MINIMUM_LENGTH && has_magic(s) && ends_with_end(s) {
        package_at(s, first_magic(s))
    } else {
        None
    }
}

/// A package that a buffer holds has a payload as long as it declares, and
/// its two integers fit in 32 bits.
pub proof fn lemma_parsed_package_is_consistent(s: Seq<u8>)
    ensures
        parse_package(s) matches Some(package) ==> {
            &&& package.data.len() == package.data_len
            &&& 0 <= package.data_len <= i32::MAX
            &&& i32::MIN <= package.version <= i32::MAX
        },
{
    if parse_package(s) is Some {
        let start = first_magic(s);
        lemma_has_first_magic(s);
        lemma_i32_from_le_in_range(s.subrange(start + 3, start + 7));
        lemma_i32_from_le_in_range(s.subrange(start + 7, start + 11));
    }
}

impl View for Package {
    type V = PackageView;

    closed spec fn view(&self) -> PackageView {
        PackageView {
            version: self.version as int,
            data_len: self.data_len as int,
            data: self.data@,
        }
    }
}

impl Package {
    #[verifier::type_invariant]
    spec fn consistent(self) -> bool {
        self.data@.len() == self.data_len
    }

    /// Recognises the package that the terminated buffer `data` holds.
    ///
    /// Bytes before the first start marker are skipped. The buffer is
    /// rejected when it is shorter than the shortest package, when it holds
    /// no start marker, when it does not end with the end marker, and when
    /// the payload length that it declares is negative or is not exactly the
    /// number of bytes between the two integers and the end marker.
    pub fn try_from_buffer(data: &[u8]) -> (r: Option<Self>)
        ensures
            match r {
                Some(package) => parse_package(data@) == Some(package@),
                None => parse_package(data@) is None,
            },
            data@.len() < MINIMUM_LENGTH ==> r is None,
            !has_magic(data@) ==> r is None,
            !ends_with_end(data@) ==> r is None,
            forall|start: int| #[trigger]
                magic_first_at(data@, start) && payload_start(start) + declared_length(data@, start)
                    != payload_end(data@) ==> r is None,
    {
        proof {
            assert forall|start: int| #[trigger]
                magic_first_at(data@, start) && payload_start(start) + declared_length(data@, start)
                    != payload_end(data@) implies parse_package(data@) is None by {
                lemma_first_magic_is(data@, start);
            }
        }
        if data.len() < MINIMUM_LENGTH {
            return None;
        }
        let mut start_idx: usize = 0;
        while !starts_with(&data[start_idx..data.len()], &MAGIC)
            invariant
                start_idx < data.len(),
                forall|before: int| 0 <= before < start_idx ==> !magic_at(data@, before),
            decreases data.len() - start_idx,
        {
            proof {
                lemma_magic_at_suffix(data@, start_idx as int);
            }
            start_idx += 1;

            if start_idx >= data.len() {
                proof {
                    assert forall|at: int| !magic_at(data@, at) by {
                        if magic_at(data@, at) {
                            assert(at < data@.len());
                        }
                    }
                }
                return None;
            }
        }
        proof {
            lemma_magic_at_suffix(data@, start_idx as int);
            lemma_first_magic_is(data@, start_idx as int);
        }

        if !ends_with(data, &END) {
            return None;
        }
        if data.len() - start_idx < MINIMUM_LENGTH {
            return None;
        }
        let ghost start = start_idx as int;
        let start_idx: usize = start_idx + MAGIC.len();
        let end_idx: usize = data.len() - END.len();

        let version: i32 = read_i32(&data[start_idx..data.len()])?;
        let data_len: i32 = read_i32(&data[start_idx.checked_add(4)?..data.len()])?;
        proof {
            lemma_field_at(data@, start + 3);
            lemma_field_at(data@, start + 7);
        }

        if data_len < 0 {
            return None;
        }
        let data_idx: usize = start_idx.checked_add(8)?;
        if data_idx.checked_add(data_len as usize)? != end_idx {
            return None;
        }
        let data = slice_to_vec(&data[data_idx..end_idx]);

        let res = Self { version, data_len, data };
        Some(res)
    }

    /// The version tag.
    pub fn version(&self) -> (version: i32)
        ensures
            version == self@.version,
    {
        self.version
    }

    /// The payload length that the package declares, which is the length of
    /// its payload.
    pub fn data_len(&self) -> (data_len: i32)
        ensures
            data_len == self@.data_len,
            data_len == self@.data.len(),
    {
        proof {
            use_type_invariant(self);
        }
        self.data_len
    }

    /// The payload.
    pub fn data(&self) -> (data: &[u8])
        ensures
            data@ == self@.data,
            data@.len() == self@.data_len,
    {
        proof {
            use_type_invariant(self);
        }
        self.data.as_slice()
    }
}

/// The start marker stands at `at` in `s` exactly when what is left of `s`
/// from `at` on begins with it.
proof fn lemma_magic_at_suffix(s: Seq<u8>, at: int)
    requires
        0 <= at <= s.len(),
    ensures
        magic_at(s, at) == occurs_at(s.subrange(at, s.len() as int), 0, MAGIC@),
{
    let rest = s.subrange(at, s.len() as int);
    if at + 3 <= s.len() {
        assert(rest.subrange(0, 3) =~= s.subrange(at, at + 3));
    }
}

/// The integer read from what is left of `s` from `at` on is the integer
/// read from the four bytes at `at`.
proof fn lemma_field_at(s: Seq<u8>, at: int)
    requires
        0 <= at,
        at + 4 <= s.len(),
    ensures
        i32_from_le(s.subrange(at, s.len() as int)) == i32_from_le(s.subrange(at, at + 4)),
{
}

} // verus!
