//! The bytes of a stream in which no package has been recognised yet.
use crate::package::{parse_package, Package, PackageView};
use vstd::prelude::*;

verus! {

/// What a package holds, for a package that may be missing.
pub open spec fn package_view(package: Option<Package>) -> Option<PackageView> {
    match package {
        Some(package) => Some(package@),
        None => None,
    }
}

/// The bytes that were taken in since the last package was recognised, in
/// the order in which they came.
pub struct Accumulator {
    buffer: Vec<u8>,
}

impl View for Accumulator {
    type V = Seq<u8>;

    /// The bytes that are kept, oldest first.
    closed spec fn view(&self) -> Seq<u8> {
        self.buffer@
    }
}

impl Accumulator {
    /// An accumulator keeps no more bytes than can be counted.
    pub proof fn lemma_len_is_bounded(self)
        ensures
            self@.len() <= usize::MAX,
    {
        assert(self.buffer@.len() == self.buffer.len());
    }

    /// An accumulator that keeps no byte.
    pub fn new() -> (r: Self)
        ensures
            r@ == Seq::<u8>::empty(),
    {
        Accumulator { buffer: Vec::new() }
    }

    /// Takes in the next byte of the stream and looks at the bytes kept,
    /// this one included, for a package.
    ///
    /// With a package, no byte is kept any longer: the search for the next
    /// package begins with the byte that follows. Without one, the byte is
    /// kept with the others.
    pub fn push(&mut self, byte: u8) -> (r: Option<Package>)
        ensures
            package_view(r) == parse_package(old(self)@.push(byte)),
            final(self)@ == if r is Some {
                Seq::<u8>::empty()
            } else {
                old(self)@.push(byte)
            },
    {
        self.buffer.push(byte);
        let package = Package::try_from_buffer(self.buffer.as_slice());
        if package.is_some() {
            self.buffer.clear();
        }
        package
    }
}

} // verus!
