use package_parser::markers::MINIMUM_LENGTH;
use package_parser::package_v1::{V1_PAYLOAD_LENGTH, VERSION_1};
use package_parser::{Package, PackageV1, END, MAGIC};

fn buffer_of(version: i32, declared: i32, payload: &[u8]) -> Vec<u8> {
    let mut bytes = MAGIC.to_vec();
    bytes.extend_from_slice(&version.to_le_bytes());
    bytes.extend_from_slice(&declared.to_le_bytes());
    bytes.extend_from_slice(payload);
    bytes.extend_from_slice(&END);
    bytes
}

fn reading_buffer() -> Vec<u8> {
    vec![
        0x4D, 0x57, 0x64, 1, 0, 0, 0, 12, 0, 0, 0, 42, 0, 0, 0, 17, 0, 0, 0, 7, 0, 0, 0, 0x0A,
        0x0A, 0x00,
    ]
}

#[test]
fn the_markers_and_the_shortest_length() {
    assert_eq!(MAGIC, [77, 87, 100]);
    assert_eq!(END, [10, 10, 0]);
    assert_eq!(MINIMUM_LENGTH, 14);
    assert_eq!(VERSION_1, 1);
    assert_eq!(V1_PAYLOAD_LENGTH, 12);
}

#[test]
fn a_reading_is_decoded() {
    let package = Package::try_from_buffer(&reading_buffer()).expect("a package");
    assert_eq!(package.version(), 1);
    assert_eq!(package.data_len(), 12);
    assert_eq!(package.data(), &[42, 0, 0, 0, 17, 0, 0, 0, 7, 0, 0, 0]);
    let record = PackageV1::try_from(package).expect("a record");
    assert_eq!(record, PackageV1 { timestamp: 42, sensor: 17, value: 7 });
}

#[test]
fn a_reading_without_its_start_marker_is_rejected() {
    let buffer = reading_buffer();
    assert_eq!(Package::try_from_buffer(&buffer[3..]), None);
}

#[test]
fn a_reading_with_another_end_is_rejected() {
    for end in [[10u8, 10, 1], [10, 0, 0], [0, 10, 0], [10, 10, 10]] {
        let mut buffer = reading_buffer();
        let len = buffer.len();
        buffer[len - 3..].copy_from_slice(&end);
        assert_eq!(Package::try_from_buffer(&buffer), None);
    }
}

#[test]
fn buffers_shorter_than_the_shortest_package_are_rejected() {
    let shortest = buffer_of(1, 0, &[]);
    assert_eq!(shortest.len(), 14);
    assert!(Package::try_from_buffer(&shortest).is_some());
    for len in 0..14 {
        assert_eq!(Package::try_from_buffer(&shortest[..len]), None);
        assert_eq!(Package::try_from_buffer(&shortest[14 - len..]), None);
    }
    let mut marker_and_end = MAGIC.to_vec();
    marker_and_end.extend_from_slice(&END);
    assert_eq!(Package::try_from_buffer(&marker_and_end), None);
    assert_eq!(Package::try_from_buffer(&[]), None);
}

#[test]
fn buffers_without_a_start_marker_are_rejected() {
    let mut buffer = vec![0u8; 40];
    let len = buffer.len();
    buffer[len - 3..].copy_from_slice(&END);
    assert_eq!(Package::try_from_buffer(&buffer), None);

    let mut nearly = buffer_of(1, 4, &[1, 2, 3, 4]);
    nearly[2] = 101;
    assert_eq!(Package::try_from_buffer(&nearly), None);
    let mut nearly = buffer_of(1, 4, &[1, 2, 3, 4]);
    nearly[0] = 76;
    assert_eq!(Package::try_from_buffer(&nearly), None);
}

#[test]
fn buffers_that_do_not_end_with_the_end_marker_are_rejected() {
    let mut buffer = buffer_of(1, 4, &[1, 2, 3, 4]);
    buffer.push(0);
    assert_eq!(Package::try_from_buffer(&buffer), None);
    let whole = buffer_of(1, 4, &[1, 2, 3, 4]);
    assert_eq!(Package::try_from_buffer(&whole[..whole.len() - 1]), None);
}

#[test]
fn a_declared_length_one_off_is_rejected() {
    let payload = [9u8, 8, 7, 6, 5, 4, 3, 2];
    assert!(Package::try_from_buffer(&buffer_of(1, 8, &payload)).is_some());
    assert_eq!(Package::try_from_buffer(&buffer_of(1, 7, &payload)), None);
    assert_eq!(Package::try_from_buffer(&buffer_of(1, 9, &payload)), None);
    assert_eq!(Package::try_from_buffer(&buffer_of(1, 0, &payload)), None);
    assert_eq!(Package::try_from_buffer(&buffer_of(1, 1, &[])), None);
}

#[test]
fn a_negative_declared_length_is_rejected() {
    assert_eq!(Package::try_from_buffer(&buffer_of(1, -1, &[])), None);
    assert_eq!(Package::try_from_buffer(&buffer_of(1, -8, &[0; 8])), None);
    assert_eq!(Package::try_from_buffer(&buffer_of(1, i32::MIN, &[0; 8])), None);
}

#[test]
fn a_declared_length_beyond_every_buffer_is_rejected() {
    assert_eq!(Package::try_from_buffer(&buffer_of(1, i32::MAX, &[0; 8])), None);
    assert_eq!(Package::try_from_buffer(&buffer_of(1, i32::MAX - 11, &[])), None);
}

#[test]
fn garbage_before_the_start_marker_is_skipped() {
    let mut buffer = vec![3u8, 0, 0, 0, 138, 1, 0, 0, 77, 87, 77, 100, 87];
    buffer.extend_from_slice(&reading_buffer());
    let package = Package::try_from_buffer(&buffer).expect("a package");
    assert_eq!(package.version(), 1);
    assert_eq!(package.data(), &[42, 0, 0, 0, 17, 0, 0, 0, 7, 0, 0, 0]);
}

#[test]
fn the_first_start_marker_opens_the_package() {
    let mut buffer = MAGIC.to_vec();
    buffer.extend_from_slice(&reading_buffer());
    assert_eq!(Package::try_from_buffer(&buffer), None);

    let inner = buffer_of(7, 2, &[1, 2]);
    let mut payload = vec![0u8; 4];
    payload.extend_from_slice(&inner);
    let outer = buffer_of(5, payload.len() as i32 - 3, &payload[..payload.len() - 3]);
    let package = Package::try_from_buffer(&outer).expect("a package");
    assert_eq!(package.version(), 5);
    assert_eq!(package.data_len() as usize, payload.len() - 3);
}

#[test]
fn a_start_marker_too_near_the_end_is_rejected() {
    let mut buffer = vec![0u8; 11];
    buffer.extend_from_slice(&MAGIC);
    buffer.extend_from_slice(&END);
    assert_eq!(buffer.len(), 17);
    assert_eq!(Package::try_from_buffer(&buffer), None);

    let mut buffer = vec![0u8; 20];
    buffer.extend_from_slice(&MAGIC);
    assert_eq!(Package::try_from_buffer(&buffer), None);
}

#[test]
fn an_empty_payload_is_a_package_and_no_reading() {
    let package = Package::try_from_buffer(&buffer_of(1, 0, &[])).expect("a package");
    assert_eq!(package.version(), 1);
    assert_eq!(package.data_len(), 0);
    assert!(package.data().is_empty());
    assert_eq!(PackageV1::try_from(package), None);
}

#[test]
fn a_package_of_version_1_of_another_length_is_no_reading() {
    for len in [0usize, 1, 8, 11, 13, 24] {
        let payload = vec![1u8; len];
        let package =
            Package::try_from_buffer(&buffer_of(1, len as i32, &payload)).expect("a package");
        assert_eq!(package.data_len() as usize, len);
        assert_eq!(PackageV1::try_from(package), None);
    }
}

#[test]
fn a_package_of_another_version_is_no_reading() {
    for version in [0, 2, -1, 256, i32::MAX, i32::MIN] {
        let package =
            Package::try_from_buffer(&buffer_of(version, 12, &[0; 12])).expect("a package");
        assert_eq!(package.version(), version);
        assert_eq!(PackageV1::try_from(package), None);
    }
}

#[test]
fn the_integers_of_a_reading_are_little_endian_and_signed() {
    let mut payload = (-2i32).to_le_bytes().to_vec();
    payload.extend_from_slice(&0x0102_0304i32.to_le_bytes());
    payload.extend_from_slice(&i32::MIN.to_le_bytes());
    assert_eq!(payload, vec![0xFE, 0xFF, 0xFF, 0xFF, 4, 3, 2, 1, 0, 0, 0, 0x80]);
    let package = Package::try_from_buffer(&buffer_of(1, 12, &payload)).expect("a package");
    let record = PackageV1::try_from(package).expect("a record");
    assert_eq!(record.timestamp, -2);
    assert_eq!(record.sensor, 0x0102_0304);
    assert_eq!(record.value, i32::MIN);
}

#[test]
fn the_version_is_little_endian_and_signed() {
    let mut buffer = MAGIC.to_vec();
    buffer.extend_from_slice(&[0xFF, 0xFF, 0xFF, 0xFF, 1, 0, 0, 0, 99]);
    buffer.extend_from_slice(&END);
    let package = Package::try_from_buffer(&buffer).expect("a package");
    assert_eq!(package.version(), -1);
    assert_eq!(package.data_len(), 1);
    assert_eq!(package.data(), &[99]);
}

#[test]
fn packages_compare_by_what_they_hold() {
    let one = Package::try_from_buffer(&buffer_of(1, 2, &[5, 6]));
    let same = Package::try_from_buffer(&buffer_of(1, 2, &[5, 6]));
    let other = Package::try_from_buffer(&buffer_of(1, 2, &[5, 7]));
    assert_eq!(one, same);
    assert_ne!(one, other);
}
