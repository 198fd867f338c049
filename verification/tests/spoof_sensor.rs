use package_parser::spoof_sensor::{
    drifted, spoof_package, SpoofSensor, HIGHEST_VALUE, LARGEST_DRIFT, LOWEST_VALUE,
};
use package_parser::{DataReceiver, DataReceiverExt, PackageV1, END, MAGIC};

#[test]
fn the_bounds_of_a_made_up_reading() {
    assert_eq!(LOWEST_VALUE, 0);
    assert_eq!(HIGHEST_VALUE, 200);
    assert_eq!(LARGEST_DRIFT, 10);
}

#[test]
fn drifted_adds_and_stays_within_the_bounds() {
    assert_eq!(drifted(100, 7), 107);
    assert_eq!(drifted(100, -10), 90);
    assert_eq!(drifted(100, 0), 100);
    assert_eq!(drifted(195, 5), 200);
    assert_eq!(drifted(195, 6), 200);
    assert_eq!(drifted(200, 10), 200);
    assert_eq!(drifted(4, -4), 0);
    assert_eq!(drifted(4, -5), 0);
    assert_eq!(drifted(0, -10), 0);
    assert_eq!(drifted(i32::MAX, i32::MAX), 200);
    assert_eq!(drifted(i32::MIN, i32::MIN), 0);
    assert_eq!(drifted(i32::MAX, i32::MIN), 0);
}

#[test]
fn spoof_package_holds_the_bytes_of_the_reading() {
    let mut spoofed = spoof_package(PackageV1 { timestamp: 42, sensor: 17, value: 7 });
    let mut bytes = Vec::new();
    while let Some(byte) = spoofed.get_next_byte() {
        bytes.push(byte);
    }
    assert_eq!(
        bytes,
        vec![
            0x4D, 0x57, 0x64, 1, 0, 0, 0, 12, 0, 0, 0, 42, 0, 0, 0, 17, 0, 0, 0, 7, 0, 0, 0, 0x0A,
            0x0A, 0x00,
        ]
    );
}

#[test]
fn spoof_package_is_read_back() {
    for record in [
        PackageV1 { timestamp: 0, sensor: 0, value: 0 },
        PackageV1 { timestamp: -1, sensor: i32::MAX, value: i32::MIN },
        PackageV1 { timestamp: 0x6457_4D00, sensor: 0x000A_0A00, value: 0x0064_574D },
    ] {
        let mut spoofed = spoof_package(record);
        let package = spoofed.read_next_package().expect("a package");
        assert_eq!(PackageV1::try_from(package), Some(record));
        assert_eq!(spoofed.get_next_byte(), None);
    }
}

#[test]
fn a_sensor_hands_out_one_package_after_the_other() {
    let mut sensor = SpoofSensor::new(17);
    let mut bytes = Vec::new();
    for _ in 0..3 * 26 {
        bytes.push(sensor.get_next_byte().expect("a byte"));
    }
    for package in bytes.chunks(26) {
        assert_eq!(&package[..3], &MAGIC);
        assert_eq!(&package[3..7], &[1, 0, 0, 0]);
        assert_eq!(&package[7..11], &[12, 0, 0, 0]);
        assert_eq!(&package[15..19], &[17, 0, 0, 0]);
        assert_eq!(&package[23..], &END);
    }
    assert_eq!(&bytes[11..15], &[1, 0, 0, 0]);
    assert_eq!(&bytes[26 + 11..26 + 15], &[2, 0, 0, 0]);
    assert_eq!(&bytes[52 + 11..52 + 15], &[3, 0, 0, 0]);
}

#[test]
fn the_readings_of_a_sensor_count_up_and_drift() {
    let mut sensor = SpoofSensor::new(-5);
    let mut last: Option<PackageV1> = None;
    for round in 1..=500 {
        let package = sensor.read_next_package().expect("a package");
        let record = PackageV1::try_from(package).expect("a record");
        assert_eq!(record.timestamp, round);
        assert_eq!(record.sensor, -5);
        assert!(LOWEST_VALUE <= record.value && record.value <= HIGHEST_VALUE);
        if let Some(last) = last {
            assert!((record.value - last.value).abs() <= LARGEST_DRIFT);
        }
        last = Some(record);
    }
}

#[test]
fn the_readings_of_a_sensor_rise_and_fall() {
    let mut sensor = SpoofSensor::new(1);
    let mut last = None;
    let mut rises = 0;
    let mut falls = 0;
    for _ in 0..2000 {
        let package = sensor.read_next_package().expect("a package");
        let value = PackageV1::try_from(package).expect("a record").value;
        if let Some(last) = last {
            if value > last {
                rises += 1;
            }
            if value < last {
                falls += 1;
            }
        }
        last = Some(value);
    }
    assert!(rises > 0);
    assert!(falls > 0);
}

#[test]
fn sensors_do_not_all_begin_with_the_same_value() {
    let mut lowest = i32::MAX;
    let mut highest = i32::MIN;
    for _ in 0..200 {
        let mut sensor = SpoofSensor::new(3);
        let package = sensor.read_next_package().expect("a package");
        let record = PackageV1::try_from(package).expect("a record");
        assert_eq!(record.timestamp, 1);
        assert!(LOWEST_VALUE <= record.value && record.value <= HIGHEST_VALUE);
        lowest = lowest.min(record.value);
        highest = highest.max(record.value);
    }
    assert!(highest - lowest > 2 * LARGEST_DRIFT);
}
