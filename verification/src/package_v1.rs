//! The record that a package of version 1 carries.
use crate::little_endian::{i32_from_le, lemma_i32_from_le_in_range, read_i32};
use crate::package::{Package, PackageView};
use vstd::prelude::*;

verus! {

/// The version tag of the packages that carry a [`PackageV1`].
pub const VERSION_1: i32 = 1;

/// The payload length of a package of version 1: three 32-bit integers.
pub const V1_PAYLOAD_LENGTH: usize = 12;

/// One reading of one sensor.
#[derive(Debug, Clone, Copy, PartialEq, Eq)]
pub struct PackageV1 {
    /// When the reading was taken.
    pub timestamp: i32,
    /// The sensor that took it.
    pub sensor: i32,
    /// What it read.
    pub value: i32,
}

/// The record that `package` carries: its payload is read as three
/// little-endian integers, if its version is 1 and its payload is twelve
/// bytes long.
pub open spec fn decode_v1(package: PackageView) -> Option<PackageV1> {
    if package.version == VERSION_1 && package.data.len() == V1_PAYLOAD_LENGTH {
        Some(
            PackageV1 {
                timestamp: i32_from_le(package.data.subrange(0, 4)) as i32,
                sensor: i32_from_le(package.data.subrange(4, 8)) as i32,
                value: i32_from_le(package.data.subrange(8, 12)) as i32,
            },
        )
    } else {
        None
    }
}

impl PackageV1 {
    /// Reads the record out of a package.
    ///
    /// A package of another version, or one whose payload is not twelve
    /// bytes long, is rejected.
    pub fn try_from(package: Package) -> (r: Option<Self>)
        ensures
            r == decode_v1(package@),
            package@.version != VERSION_1 ==> r is None,
            package@.data.len() != V1_PAYLOAD_LENGTH ==> r is None,
    {
        if package.version() != VERSION_1 {
            return None;
        }
        if package.data_len() as usize != V1_PAYLOAD_LENGTH {
            return None;
        }
        let data = package.data();

        let timestamp: i32 = read_i32(&data[0..4])?;
        let sensor: i32 = read_i32(&data[4..8])?;
        let value: i32 = read_i32(&data[8..12])?;
        proof {
            lemma_i32_from_le_in_range(package@.data.subrange(0, 4));
            lemma_i32_from_le_in_range(package@.data.subrange(4, 8));
            lemma_i32_from_le_in_range(package@.data.subrange(8, 12));
        }

        let res = Self { timestamp, sensor, value };
        Some(res)
    }
}

} // verus!
