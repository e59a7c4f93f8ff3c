use cloud_vm::CompressedData;
use cloud_vm::ErrorKind;
use cloud_vm::FileVersion;

#[test]
fn version_bytes_round_trip() {
    let v = FileVersion::from_bytes([3, 7, 9]);
    assert_eq!(v.to_bytes(), [3, 7, 9]);
}

#[test]
fn version_compatibility_is_major_only() {
    assert!(FileVersion::current().is_compatible());
    assert!(FileVersion::from_bytes([1, 9, 9]).is_compatible());
    assert!(!FileVersion::from_bytes([2, 0, 0]).is_compatible());
}

#[test]
fn version_equals_its_major_byte() {
    assert_eq!(FileVersion::from_bytes([1, 5, 6]), 1u8);
    assert_eq!(FileVersion::current(), FileVersion::from_bytes([1, 0, 0]));
}

#[test]
fn container_carries_current_version() {
    let c = CompressedData::new(vec![1, 2], vec![9]);
    assert_eq!(c.version().to_bytes(), [1, 0, 0]);
    assert!(c.is_compatible());
    assert_eq!(c.data(), &[1, 2]);
    assert_eq!(c.op_chain(), &[9]);
}

#[test]
fn container_bytes_round_trip() {
    let c = CompressedData::new(vec![10, 20, 30], vec![2, 1]);
    let bytes = c.to_bytes();
    assert_eq!(bytes, vec![1, 0, 0, 2, 2, 1, 10, 20, 30]);

    let parsed = CompressedData::from_bytes(&bytes).unwrap();
    assert_eq!(parsed.version().to_bytes(), c.version().to_bytes());
    assert_eq!(parsed.op_chain(), c.op_chain());
    assert_eq!(parsed.data(), c.data());
}

#[test]
fn short_header_is_a_format_error() {
    for bytes in [&[][..], &[1][..], &[1, 0][..], &[1, 0, 0][..]] {
        let err = CompressedData::from_bytes(bytes).unwrap_err();
        assert_eq!(err.kind, ErrorKind::Format);
    }
}

#[test]
fn truncated_chain_is_a_format_error() {
    // The header declares three chain bytes but only two follow.
    let err = CompressedData::from_bytes(&[1, 0, 0, 3, 2, 1]).unwrap_err();
    assert_eq!(err.kind, ErrorKind::Format);
}

#[test]
fn header_only_container_parses_empty() {
    let parsed = CompressedData::from_bytes(&[1, 0, 0, 0]).unwrap();
    assert_eq!(parsed.op_chain(), &[] as &[u8]);
    assert_eq!(parsed.data(), &[] as &[u8]);
}

#[test]
fn incompatible_version_still_parses() {
    let parsed = CompressedData::from_bytes(&[2, 3, 4, 0, 9]).unwrap();
    assert!(!parsed.is_compatible());
    assert_eq!(parsed.version().to_bytes(), [2, 3, 4]);
    assert_eq!(parsed.data(), &[9]);
}
