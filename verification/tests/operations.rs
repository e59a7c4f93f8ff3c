use cloud_vm::ops::RleOp;
use cloud_vm::ops::ZeroOp;
use cloud_vm::CompressionOp;
use cloud_vm::ErrorKind;

#[test]
fn test_rle_compression() {
    let op = RleOp;
    let data = vec![1, 1, 1, 2, 3, 3, 3, 3, 4];

    assert!(op.can_compress(&data));

    let compressed = op.compress(&data).unwrap();
    let decompressed = op.decompress(&compressed).unwrap();

    assert_eq!(data, decompressed);
}

#[test]
fn test_zero_compression() {
    let op = ZeroOp;
    let data = vec![1, 0, 0, 0, 0, 0, 2, 0, 0, 0, 0, 3];

    assert!(op.can_compress(&data));

    let compressed = op.compress(&data).unwrap();
    let decompressed = op.decompress(&compressed).unwrap();

    assert_eq!(data, decompressed);
}

#[test]
fn rle_codes_and_applicability() {
    assert_eq!(RleOp.op_code(), 1);
    assert_eq!(ZeroOp.op_code(), 2);

    // Two equal bytes are not enough for a run of three.
    assert!(!RleOp.can_compress(&[4, 4, 5, 5]));
    assert!(RleOp.can_compress(&[4, 4, 4]));

    // Three zeros are not enough for a zero-run window of four.
    assert!(!ZeroOp.can_compress(&[0, 0, 0]));
    assert!(ZeroOp.can_compress(&[0, 0, 0, 0]));
}

#[test]
fn rle_exact_encoding() {
    let op = RleOp;
    // A run of three, a literal, a run of four, a literal.
    let data = vec![1, 1, 1, 2, 3, 3, 3, 3, 4];
    assert_eq!(op.compress(&data).unwrap(), vec![3, 1, 1, 2, 4, 3, 1, 4]);
}

#[test]
fn rle_round_trips_without_runs() {
    let op = RleOp;
    for data in [vec![], vec![7], vec![1, 2, 3, 4, 5]] {
        let compressed = op.compress(&data).unwrap();
        assert_eq!(op.decompress(&compressed).unwrap(), data);
    }
}

#[test]
fn rle_caps_runs_at_255() {
    let op = RleOp;
    let data = vec![9u8; 300];
    let compressed = op.compress(&data).unwrap();
    assert_eq!(compressed, vec![255, 9, 45, 9]);
    assert_eq!(op.decompress(&compressed).unwrap(), data);
}

#[test]
fn rle_rejects_truncated_pair() {
    let err = RleOp.decompress(&[5]).unwrap_err();
    assert_eq!(err.kind, ErrorKind::Decode);

    let err = RleOp.decompress(&[2, 7, 3]).unwrap_err();
    assert_eq!(err.kind, ErrorKind::Decode);
}

#[test]
fn rle_rejects_zero_count() {
    let err = RleOp.decompress(&[0, 9]).unwrap_err();
    assert_eq!(err.kind, ErrorKind::Decode);
}

#[test]
fn zero_exact_encoding() {
    let op = ZeroOp;
    // A run of four zeros, literals, and an isolated zero escaped as (0, 1).
    let data = vec![0, 0, 0, 0, 7, 0, 8];
    assert_eq!(op.compress(&data).unwrap(), vec![0, 4, 7, 0, 1, 8]);
}

#[test]
fn zero_escapes_isolated_zeros() {
    let op = ZeroOp;
    for data in [
        vec![0],
        vec![0, 1, 0],
        vec![5, 0, 6],
        vec![0, 0, 0],
        vec![1, 0, 0, 0, 2],
    ] {
        let compressed = op.compress(&data).unwrap();
        assert_eq!(op.decompress(&compressed).unwrap(), data);
    }
}

#[test]
fn zero_caps_runs_at_255() {
    let op = ZeroOp;
    let data = vec![0u8; 260];
    let compressed = op.compress(&data).unwrap();
    assert_eq!(compressed, vec![0, 255, 0, 5]);
    assert_eq!(op.decompress(&compressed).unwrap(), data);
}

#[test]
fn zero_rejects_trailing_marker() {
    let err = ZeroOp.decompress(&[1, 0]).unwrap_err();
    assert_eq!(err.kind, ErrorKind::Decode);
}
