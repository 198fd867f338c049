//! Framing and decoding of sensor packages carried in a raw byte stream.
//!
//! A stream is a run of bytes in which packages are delimited by a start
//! marker and an end marker. [`Package::try_from_buffer`] recognises one
//! package in a terminated buffer. An [`Accumulator`] takes in a stream byte
//! by byte and gives each package with its last byte;
//! [`DataReceiverExt::read_next_package`] does so with the bytes of a
//! [`DataReceiver`]. [`PackageV1::try_from`] reads the typed record out of a
//! package.
pub mod accumulator;
pub mod backlog;
pub mod little_endian;
pub mod markers;
pub mod package;
pub mod package_v1;
pub mod receiver;
pub mod spoof_sensor;
pub mod spoofed_data;
pub mod wire_format;

pub use accumulator::Accumulator;
pub use markers::{END, MAGIC};
pub use package::{Package, PackageView};
pub use package_v1::PackageV1;
pub use receiver::{DataReceiver, DataReceiverExt};
pub use spoofed_data::SpoofedData;
