//! Sources of bytes, and the reading of one package from a source.
use crate::accumulator::{package_view, Accumulator};
use crate::package::{parse_package, Package, PackageView};
use vstd::prelude::*;

verus! {

/// A source of bytes that is asked for one byte at a time.
pub trait DataReceiver {
    /// What one request may do: a receiver in state `before` may answer
    /// `byte` and be in state `after` afterwards.
    ///
    /// An implementation says here as much as it knows of itself. A receiver
    /// whose bytes come from outside knows nothing and keeps this default,
    /// which allows every answer.
    open spec fn step(before: &Self, byte: Option<u8>, after: &Self) -> bool {
        true
    }

    /// Hands out the next byte, or `None` when no byte is to be had right
    /// now.
    fn get_next_byte(&mut self) -> (byte: Option<u8>)
        ensures
            Self::step(old(self), byte, final(self)),
    ;
}

/// Reading whole packages from a source of bytes.
pub trait DataReceiverExt {
    /// Asks for bytes until those handed out since the call began hold a
    /// package, and returns it; returns `None` as soon as no byte is to be
    /// had.
    fn read_next_package(&mut self) -> Option<Package>;
}

/// A receiver in state `before` may hand out exactly `bytes`, one request for
/// each, and be in state `after` afterwards.
pub open spec fn hands_out<T: DataReceiver>(before: T, bytes: Seq<u8>, after: T) -> bool
    decreases bytes.len(),
{
    if bytes.len() == 0 {
        before == after
    } else {
        exists|between: T|
            hands_out(before, bytes.drop_last(), between) && #[trigger] T::step(
                &between,
                Some(bytes.last()),
                &after,
            )
    }
}

/// A receiver that hands out a run of bytes hands out the first `n` of them
/// and then the others. The result is the state in between.
pub proof fn lemma_hands_out_in_two<T: DataReceiver>(
    before: T,
    bytes: Seq<u8>,
    after: T,
    n: int,
) -> (between: T)
    requires
        hands_out(before, bytes, after),
        0 <= n <= bytes.len(),
    ensures
        hands_out(before, bytes.take(n), between),
        hands_out(between, bytes.skip(n), after),
    decreases bytes.len(),
{
    if n == bytes.len() {
        assert(bytes.take(n) =~= bytes);
        after
    } else {
        let last = choose|last: T|
            hands_out(before, bytes.drop_last(), last) && #[trigger] T::step(
                &last,
                Some(bytes.last()),
                &after,
            );
        let between = lemma_hands_out_in_two(before, bytes.drop_last(), last, n);
        assert(bytes.drop_last().take(n) =~= bytes.take(n));
        assert(bytes.skip(n).drop_last() =~= bytes.drop_last().skip(n));
        assert(T::step(&last, Some(bytes.skip(n).last()), &after));
        between
    }
}

/// No buffer that is `bytes` cut short holds a package.
pub open spec fn no_package_before(bytes: Seq<u8>) -> bool {
    forall|n: int| 0 <= n < bytes.len() ==> parse_package(#[trigger] bytes.take(n)) is None
}

/// What one call of `read_next_package` does to a receiver that it finds in
/// state `before` and leaves in state `after`.
///
/// The receiver hands out `bytes` and is then in state `last`. The result is
/// the package that `bytes` hold, and no shorter run of them holds one. With
/// a package the call stops there; without one it has made one more request,
/// which found no byte.
pub open spec fn reads_package<T: DataReceiver>(
    before: T,
    bytes: Seq<u8>,
    last: T,
    result: Option<PackageView>,
    after: T,
) -> bool {
    &&& hands_out(before, bytes, last)
    &&& no_package_before(bytes)
    &&& result == parse_package(bytes)
    &&& match result {
        Some(_) => last == after,
        None => T::step(&last, None, &after),
    }
}

impl<T: DataReceiver> DataReceiverExt for T {
    /// The bytes that the receiver hands out are kept until the call
    /// returns, and after each of them the bytes kept so far are looked at
    /// for a package. A call that returns `None` forgets the bytes it kept:
    /// the next call looks only at the bytes that follow.
    fn read_next_package(&mut self) -> (r: Option<Package>)
        ensures
            exists|bytes: Seq<u8>, last: T| #[trigger]
                reads_package(*old(self), bytes, last, package_view(r), *final(self)),
    {
        let mut buffer = Accumulator::new();

        loop
            invariant
                hands_out(*old(self), buffer@, *self),
                no_package_before(buffer@),
                parse_package(buffer@) is None,
            decreases usize::MAX - buffer@.len(),
        {
            let ghost before = *self;
            let ghost so_far = buffer@;
            match self.get_next_byte() {
                Some(byte) => {
                    let ghost bytes = so_far.push(byte);
                    proof {
                        assert(bytes.drop_last() =~= so_far);
                        assert(T::step(&before, Some(bytes.last()), &*self));
                        assert(hands_out(*old(self), bytes, *self));
                        assert forall|n: int| 0 <= n < bytes.len() implies parse_package(
                            #[trigger] bytes.take(n),
                        ) is None by {
                            if n < so_far.len() {
                                assert(bytes.take(n) =~= so_far.take(n));
                            } else {
                                assert(bytes.take(n) =~= so_far);
                            }
                        }
                    }
                    if let Some(package) = buffer.push(byte) {
                        assert(reads_package(
                            *old(self),
                            bytes,
                            *self,
                            package_view(Some(package)),
                            *self,
                        ));
                        return Some(package);
                    }
                    proof {
                        buffer.lemma_len_is_bounded();
                    }
                },
                None => {
                    assert(reads_package(*old(self), buffer@, before, package_view(None), *self));
                    return None;
                },
            }
        }
    }
}

} // verus!
