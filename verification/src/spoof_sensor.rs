//! A receiver that makes up the readings of one sensor.
use crate::little_endian::i32_to_le_bytes;
use crate::markers::{END, MAGIC};
use crate::package::PackageView;
use crate::package_v1::{decode_v1, PackageV1, V1_PAYLOAD_LENGTH, VERSION_1};
use crate::receiver::{hands_out, lemma_hands_out_in_two, reads_package, DataReceiver};
use crate::spoofed_data::{concat, SpoofedData};
use crate::wire_format::{
    lemma_package_bytes_parse, lemma_v1_payload_decodes, package_bytes, package_of, v1_payload,
};
use rand::Rng;
use vstd::prelude::*;

verus! {

/// The lowest value that a made-up reading takes.
pub const LOWEST_VALUE: i32 = 0;

/// The highest value that a made-up reading takes.
pub const HIGHEST_VALUE: i32 = 200;

/// How far a reading lies from the one before it, at most.
pub const LARGEST_DRIFT: i32 = 10;

/// The nearest value to `value` between the lowest and the highest reading.
pub open spec fn clamped(value: int) -> int {
    if value < LOWEST_VALUE {
        LOWEST_VALUE as int
    } else if value > HIGHEST_VALUE {
        HIGHEST_VALUE as int
    } else {
        value
    }
}

/// The reading that follows `last_value` when the sensor drifts by `drift`.
pub fn drifted(last_value: i32, drift: i32) -> (value: i32)
    ensures
        value == clamped(last_value + drift),
{
    let moved: i64 = last_value as i64 + drift as i64;
    if moved < LOWEST_VALUE as i64 {
        LOWEST_VALUE
    } else if moved > HIGHEST_VALUE as i64 {
        HIGHEST_VALUE
    } else {
        moved as i32
    }
}

/// A receiver that holds the bytes of the package of version 1 that carries
/// `record`.
pub fn spoof_package(record: PackageV1) -> (r: SpoofedData)
    ensures
        r@ == package_bytes(VERSION_1 as int, v1_payload(record)),
{
    let version = i32_to_le_bytes(VERSION_1);
    let length = i32_to_le_bytes(V1_PAYLOAD_LENGTH as i32);
    let timestamp = i32_to_le_bytes(record.timestamp);
    let sensor = i32_to_le_bytes(record.sensor);
    let value = i32_to_le_bytes(record.value);
    let chunks: [&[u8]; 7] = [
        MAGIC.as_slice(),
        version.as_slice(),
        length.as_slice(),
        timestamp.as_slice(),
        sensor.as_slice(),
        value.as_slice(),
        END.as_slice(),
    ];
    let r = SpoofedData::from(chunks.as_slice());
    proof {
        reveal_with_fuel(concat, 8);
        assert(r@ =~= package_bytes(VERSION_1 as int, v1_payload(record)));
    }
    r
}

/// Picks a number between `low` and `high`, both included.
///
/// This calls `rand::Rng::random_range` with the range `low..=high` on the
/// generator of the calling thread, which `rand::rng` hands out. It is taken
/// on trust that the number lies in the range, as `random_range` documents;
/// nothing else is known of it, and two calls may give two numbers.
/// `random_range` panics on an empty range, which is left out here.
/// `rand::rng` panics where the operating system has no seed for the
/// generator of the thread.
#[verifier::external_body]
fn random_range(low: i32, high: i32) -> (picked: i32)
    requires
        low <= high,
    ensures
        low <= picked <= high,
{
    rand::rng().random_range(low..=high)
}

/// What a made-up sensor holds.
pub struct SpoofSensorView {
    /// The sensor whose readings are made up.
    pub sensor: int,
    /// The timestamp of the last reading.
    pub time: int,
    /// The value of the last reading.
    pub value: int,
    /// The bytes of the last reading that are still to be handed out.
    pub pending: Seq<u8>,
}

/// The timestamp that follows `time`. After the largest timestamp comes the
/// smallest.
pub open spec fn next_time(time: int) -> int {
    if time == i32::MAX {
        i32::MIN as int
    } else {
        time + 1
    }
}

impl SpoofSensorView {
    /// The last reading.
    pub open spec fn record(self) -> PackageV1 {
        PackageV1 {
            timestamp: self.time as i32,
            sensor: self.sensor as i32,
            value: self.value as i32,
        }
    }

    /// The bytes of the package that carries the last reading.
    pub open spec fn package(self) -> Seq<u8> {
        package_bytes(VERSION_1 as int, v1_payload(self.record()))
    }

    /// The numbers fit their fields, the value is one that a reading takes,
    /// and the bytes still to be handed out are the last bytes of the
    /// package that carries the last reading.
    pub open spec fn well_formed(self) -> bool {
        &&& i32::MIN <= self.sensor <= i32::MAX
        &&& i32::MIN <= self.time <= i32::MAX
        &&& LOWEST_VALUE <= self.value <= HIGHEST_VALUE
        &&& self.pending.len() <= self.package().len()
        &&& self.pending == self.package().skip(self.package().len() - self.pending.len())
    }

    /// The sensor makes up the next reading: time moves on by one, and the
    /// value drifts by no more than the largest drift, as far as the lowest
    /// and the highest reading allow. All bytes of the new package are still
    /// to be handed out.
    pub open spec fn renews(self, next: Self) -> bool {
        &&& next.sensor == self.sensor
        &&& next.time == next_time(self.time)
        &&& clamped(self.value - LARGEST_DRIFT) <= next.value <= clamped(
            self.value + LARGEST_DRIFT,
        )
        &&& next.pending == next.package()
    }

    /// The sensor hands out the first of the bytes that are still to be
    /// handed out, and is otherwise as it was.
    pub open spec fn hands_over(self, byte: u8, next: Self) -> bool {
        &&& self.pending.len() > 0
        &&& byte == self.pending[0]
        &&& next == SpoofSensorView { pending: self.pending.skip(1), ..self }
    }
}

/// A receiver that makes up the readings of one sensor, one package of
/// version 1 after the other, without end.
///
/// The timestamps count up from 1. The first value is picked between the
/// lowest and the highest reading, and every other value drifts from the one
/// before it.
pub struct SpoofSensor {
    spoofed_data: SpoofedData,
    sensor: i32,
    time: i32,
    last_value: i32,
}

impl View for SpoofSensor {
    type V = SpoofSensorView;

    closed spec fn view(&self) -> SpoofSensorView {
        SpoofSensorView {
            sensor: self.sensor as int,
            time: self.time as int,
            value: self.last_value as int,
            pending: self.spoofed_data@,
        }
    }
}

impl SpoofSensor {
    /// A sensor that has made up its first reading, of which no byte has
    /// been handed out.
    pub fn new(sensor: i32) -> (r: Self)
        ensures
            r@.well_formed(),
            r@.sensor == sensor,
            r@.time == 1,
            r@.pending == r@.package(),
    {
        let last_value: i32 = random_range(LOWEST_VALUE, HIGHEST_VALUE - 1);
        let nothing: [u8; 0] = [];
        let mut r = Self {
            spoofed_data: SpoofedData::from(nothing.as_slice()),
            sensor,
            time: 0,
            last_value,
        };
        r.create_spoofed_data();
        r
    }

    /// Makes up the next reading. It takes the place of the last one, of
    /// which no more bytes are handed out.
    fn create_spoofed_data(&mut self)
        ensures
            old(self)@.renews(final(self)@),
            final(self)@.well_formed(),
    {
        let time: i32 = self.time.wrapping_add(1);
        let drift: i32 = random_range(-LARGEST_DRIFT, LARGEST_DRIFT);
        let last_value: i32 = drifted(self.last_value, drift);
        let record = PackageV1 { timestamp: time, sensor: self.sensor, value: last_value };
        let spoofed_data = spoof_package(record);
        proof {
            let package = package_bytes(VERSION_1 as int, v1_payload(record));
            assert(package.skip(0) =~= package);
        }
        *self = Self { spoofed_data, sensor: self.sensor, time, last_value };
    }
}

impl DataReceiver for SpoofSensor {
    /// The sensor hands over the next byte of the last reading; once it has
    /// handed them all out, it makes up the next reading and hands over its
    /// first byte. It always has a byte.
    open spec fn step(before: &Self, byte: Option<u8>, after: &Self) -> bool {
        &&& before@.well_formed() ==> after@.well_formed()
        &&& byte matches Some(byte) && if before@.pending.len() > 0 {
            before@.hands_over(byte, after@)
        } else {
            exists|renewed: SpoofSensorView|
                #![trigger before@.renews(renewed)]
                before@.renews(renewed) && renewed.hands_over(byte, after@)
        }
    }

    fn get_next_byte(&mut self) -> (byte: Option<u8>) {
        if let x @ Some(_) = self.spoofed_data.get_next_byte() {
            proof {
                let package = old(self)@.package();
                let handed_out = package.len() - old(self)@.pending.len();
                if old(self)@.well_formed() {
                    assert(self@.pending =~= package.skip(handed_out + 1));
                }
            }
            return x;
        }
        self.create_spoofed_data();
        let ghost renewed = self@;
        let byte = self.spoofed_data.get_next_byte();
        proof {
            assert(renewed.package().len() == 26);
            assert(self@.pending =~= renewed.package().skip(1));
            assert(old(self)@.renews(renewed) && renewed.hands_over(byte->0, self@));
        }
        byte
    }
}

/// While bytes of the last reading are still to be handed out, a sensor
/// hands out those bytes and is otherwise as it was.
proof fn lemma_sensor_hands_out_pending(before: SpoofSensor, bytes: Seq<u8>, after: SpoofSensor)
    requires
        hands_out(before, bytes, after),
        bytes.len() <= before@.pending.len(),
    ensures
        bytes == before@.pending.take(bytes.len() as int),
        after@ == (SpoofSensorView {
            pending: before@.pending.skip(bytes.len() as int),
            ..before@
        }),
    decreases bytes.len(),
{
    if bytes.len() == 0 {
        assert(before@.pending.take(0) =~= bytes);
        assert(before@.pending.skip(0) =~= before@.pending);
    } else {
        let between = choose|between: SpoofSensor|
            hands_out(before, bytes.drop_last(), between) && #[trigger] SpoofSensor::step(
                &between,
                Some(bytes.last()),
                &after,
            );
        lemma_sensor_hands_out_pending(before, bytes.drop_last(), between);
        assert(bytes =~= before@.pending.take(bytes.len() as int));
        assert(after@.pending =~= before@.pending.skip(bytes.len() as int));
    }
}

/// Once every byte of the last reading has been handed out, a sensor makes
/// up the next reading and hands out the bytes of its package. The result is
/// the sensor as it was when it had made up that reading.
proof fn lemma_sensor_hands_out_renewed(
    before: SpoofSensor,
    bytes: Seq<u8>,
    after: SpoofSensor,
) -> (renewed: SpoofSensorView)
    requires
        hands_out(before, bytes, after),
        before@.pending.len() == 0,
        1 <= bytes.len() <= 26,
    ensures
        before@.renews(renewed),
        renewed.package().len() == 26,
        bytes == renewed.package().take(bytes.len() as int),
        after@ == (SpoofSensorView {
            pending: renewed.package().skip(bytes.len() as int),
            ..renewed
        }),
{
    let first = lemma_hands_out_in_two(before, bytes, after, 1);
    let start = choose|start: SpoofSensor|
        hands_out(before, bytes.take(1).drop_last(), start) && #[trigger] SpoofSensor::step(
            &start,
            Some(bytes.take(1).last()),
            &first,
        );
    assert(start == before);
    let renewed = choose|renewed: SpoofSensorView|
        #![trigger before@.renews(renewed)]
        before@.renews(renewed) && renewed.hands_over(bytes.take(1).last(), first@);
    assert(renewed.package().len() == 26);
    lemma_sensor_hands_out_pending(first, bytes.skip(1), after);
    assert(bytes[0] == renewed.package()[0]);
    assert forall|i: int| 1 <= i < bytes.len() implies bytes[i] == renewed.package()[i] by {
        assert(bytes[i] == bytes.skip(1)[i - 1]);
    }
    assert(bytes =~= renewed.package().take(bytes.len() as int));
    assert(after@.pending =~= renewed.package().skip(bytes.len() as int));
    renewed
}

/// A sensor that has handed out every byte of its last reading makes up the
/// next reading when it is read, and gives the package that carries it.
/// Every byte of that package has then been handed out.
pub proof fn lemma_sensor_read(
    before: SpoofSensor,
    after: SpoofSensor,
    result: Option<PackageView>,
)
    requires
        before@.pending.len() == 0,
        exists|bytes: Seq<u8>, last: SpoofSensor|
            reads_package(before, bytes, last, result, after),
    ensures
        before@.renews(SpoofSensorView { pending: after@.package(), ..after@ }),
        after@.pending.len() == 0,
        result == Some(package_of(VERSION_1 as int, v1_payload(after@.record()))),
        decode_v1(package_of(VERSION_1 as int, v1_payload(after@.record()))) == Some(
            after@.record(),
        ),
{
    let (bytes, last) = choose|bytes: Seq<u8>, last: SpoofSensor|
        reads_package(before, bytes, last, result, after);
    lemma_v1_payload_decodes(after@.record());
    if bytes.len() == 0 {
        assert(SpoofSensor::step(&last, None, &after));
    } else if bytes.len() > 26 {
        let between = lemma_hands_out_in_two(before, bytes, last, 26);
        let renewed = lemma_sensor_hands_out_renewed(before, bytes.take(26), between);
        assert(bytes.take(26) =~= renewed.package());
        lemma_v1_payload_decodes(renewed.record());
        lemma_package_bytes_parse(VERSION_1 as int, v1_payload(renewed.record()));
    } else {
        let renewed = lemma_sensor_hands_out_renewed(before, bytes, last);
        lemma_v1_payload_decodes(renewed.record());
        lemma_package_bytes_parse(VERSION_1 as int, v1_payload(renewed.record()));
        if bytes.len() < 26 {
            assert(SpoofSensor::step(&last, None, &after));
        } else {
            assert(bytes =~= renewed.package());
            assert(last@.pending =~= Seq::<u8>::empty());
            assert(renewed =~= SpoofSensorView { pending: after@.package(), ..after@ });
        }
    }
}

/// A sensor of whose last reading no byte has been handed out gives the
/// package that carries that reading when it is read. Every byte of the
/// package has then been handed out, and the sensor is otherwise as it was.
pub proof fn lemma_sensor_read_pending(
    before: SpoofSensor,
    after: SpoofSensor,
    result: Option<PackageView>,
)
    requires
        before@.pending == before@.package(),
        exists|bytes: Seq<u8>, last: SpoofSensor|
            reads_package(before, bytes, last, result, after),
    ensures
        after@ == (SpoofSensorView { pending: Seq::empty(), ..before@ }),
        result == Some(package_of(VERSION_1 as int, v1_payload(before@.record()))),
        decode_v1(package_of(VERSION_1 as int, v1_payload(before@.record()))) == Some(
            before@.record(),
        ),
{
    let (bytes, last) = choose|bytes: Seq<u8>, last: SpoofSensor|
        reads_package(before, bytes, last, result, after);
    let package = before@.package();
    lemma_v1_payload_decodes(before@.record());
    lemma_package_bytes_parse(VERSION_1 as int, v1_payload(before@.record()));
    assert(package.len() == 26);
    if bytes.len() > 26 {
        let between = lemma_hands_out_in_two(before, bytes, last, 26);
        lemma_sensor_hands_out_pending(before, bytes.take(26), between);
        assert(bytes.take(26) =~= package);
    } else {
        lemma_sensor_hands_out_pending(before, bytes, last);
        if bytes.len() < 26 {
            assert(SpoofSensor::step(&last, None, &after));
        } else {
            assert(bytes =~= package);
            assert(last@.pending =~= Seq::<u8>::empty());
        }
    }
}

} // verus!
