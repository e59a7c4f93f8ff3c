use cloud_vm::ops::BuiltinOp;
use cloud_vm::ops::RleOp;
use cloud_vm::ops::ZeroOp;
use cloud_vm::CompressedData;
use cloud_vm::CompressionChain;
use cloud_vm::CompressionError;
use cloud_vm::CompressionOp;
use cloud_vm::ErrorKind;
use cloud_vm::CURRENT_VERSION;

// Mock compression op for testing
struct MockOp;

impl CompressionOp for MockOp {
    // The proof obligation is ghost code: erased from the compiled crate, so
    // an empty body satisfies the compiler here.
    fn lemma_compress_inverts(&self, _data: vstd::seq::Seq<u8>) {}

    fn op_code(&self) -> u8 {
        1
    }

    fn can_compress(&self, data: &[u8]) -> bool {
        !data.is_empty()
    }

    fn compress(&self, data: &[u8]) -> Result<Vec<u8>, CompressionError> {
        // Simple mock compression: duplicate each byte
        Ok(data.iter().flat_map(|&b| vec![b, b]).collect())
    }

    fn decompress(&self, data: &[u8]) -> Result<Vec<u8>, CompressionError> {
        // Take every other byte
        Ok(data.iter().step_by(2).copied().collect())
    }
}

#[test]
fn test_compression_chain() {
    let mut chain = CompressionChain::new();
    chain.add_op(MockOp);

    let original_data = vec![1, 2, 3];
    let compressed = chain.compress(&original_data).unwrap();

    assert_eq!(compressed.version(), CURRENT_VERSION);
    assert_eq!(compressed.op_chain(), &[1]);

    let decompressed = chain.decompress(compressed).unwrap();
    assert_eq!(decompressed, original_data);
}

fn default_chain() -> CompressionChain<BuiltinOp> {
    let mut chain = CompressionChain::new();
    chain.add_op(BuiltinOp::Zero(ZeroOp));
    chain.add_op(BuiltinOp::Rle(RleOp));
    chain
}

#[test]
fn chain_applies_both_ops_and_round_trips() {
    let chain = default_chain();
    let data = vec![1, 1, 1, 0, 0, 0, 0, 2, 2, 2];

    let compressed = chain.compress(&data).unwrap();
    assert_eq!(compressed.op_chain(), &[2, 1]);
    assert_eq!(compressed.data(), &[3, 1, 1, 0, 1, 4, 3, 2]);
    assert_eq!(
        compressed.to_bytes(),
        vec![1, 0, 0, 2, 2, 1, 3, 1, 1, 0, 1, 4, 3, 2]
    );

    let decompressed = chain.decompress(compressed).unwrap();
    assert_eq!(decompressed, data);
}

#[test]
fn chain_skips_inapplicable_ops() {
    let chain = default_chain();
    let data = vec![5, 6, 7];

    let compressed = chain.compress(&data).unwrap();
    assert_eq!(compressed.op_chain(), &[] as &[u8]);
    assert_eq!(compressed.data(), &[5, 6, 7]);
    assert_eq!(compressed.to_bytes(), vec![1, 0, 0, 0, 5, 6, 7]);

    let decompressed = chain.decompress(compressed).unwrap();
    assert_eq!(decompressed, data);
}

#[test]
fn chain_does_not_reconsult_earlier_ops() {
    let chain = default_chain();
    let data = vec![0; 10];

    let compressed = chain.compress(&data).unwrap();
    assert_eq!(compressed.op_chain(), &[2]);
    assert_eq!(compressed.data(), &[0, 10]);

    let decompressed = chain.decompress(compressed).unwrap();
    assert_eq!(decompressed, data);
}

#[test]
fn chain_on_empty_input() {
    let chain = default_chain();
    let data: Vec<u8> = Vec::new();

    let compressed = chain.compress(&data).unwrap();
    assert_eq!(compressed.op_chain(), &[] as &[u8]);
    assert_eq!(compressed.data(), &[] as &[u8]);
    assert_eq!(compressed.to_bytes(), vec![1, 0, 0, 0]);

    let decompressed = chain.decompress(compressed).unwrap();
    assert_eq!(decompressed, data);
}

#[test]
fn empty_registry_keeps_payload() {
    let chain: CompressionChain<BuiltinOp> = CompressionChain::new();
    let data = vec![9, 9, 9, 9, 0, 0, 0, 0];

    let compressed = chain.compress(&data).unwrap();
    assert_eq!(compressed.op_chain(), &[] as &[u8]);
    assert_eq!(compressed.data(), &[9, 9, 9, 9, 0, 0, 0, 0]);
}

#[test]
fn compression_is_deterministic() {
    let chain = default_chain();
    let data = vec![1, 1, 1, 0, 0, 0, 0, 2, 2, 2, 0, 7, 7, 7, 7, 7, 0, 0];

    let first = chain.compress(&data).unwrap().to_bytes();
    let second = chain.compress(&data).unwrap().to_bytes();
    assert_eq!(first, second);
}

#[test]
fn unknown_op_code_is_rejected() {
    let chain = default_chain();
    let compressed = CompressedData::from_bytes(&[1, 0, 0, 1, 99, 1, 2, 3]).unwrap();
    assert_eq!(compressed.op_chain(), &[99]);

    let err = chain.decompress(compressed).unwrap_err();
    assert_eq!(err.kind, ErrorKind::UnknownOp);
}

#[test]
fn corrupt_payload_surfaces_decode_error() {
    let chain = default_chain();
    // Chain says the zero-run op ran, but the payload ends on a bare marker.
    let compressed = CompressedData::from_bytes(&[1, 0, 0, 1, 2, 5, 0]).unwrap();

    let err = chain.decompress(compressed).unwrap_err();
    assert_eq!(err.kind, ErrorKind::Decode);
}

#[test]
fn decoding_ignores_version_mismatch() {
    let chain = default_chain();
    // An incompatible major version is a caller-side warning, not an error.
    let compressed = CompressedData::from_bytes(&[2, 9, 9, 0, 5, 6, 7]).unwrap();
    assert!(!compressed.is_compatible());

    let decompressed = chain.decompress(compressed).unwrap();
    assert_eq!(decompressed, vec![5, 6, 7]);
}

#[test]
fn round_trip_with_isolated_zeros() {
    let chain = default_chain();
    let data = vec![0, 1, 0, 0, 0, 0, 0, 2, 2, 2, 0, 0, 3];

    let compressed = chain.compress(&data).unwrap();
    let decompressed = chain.decompress(compressed).unwrap();
    assert_eq!(decompressed, data);
}

#[test]
fn round_trip_through_serialized_container() {
    let chain = default_chain();
    let data = vec![8, 8, 8, 8, 0, 0, 0, 0, 0, 0, 1, 2, 3];

    let bytes = chain.compress(&data).unwrap().to_bytes();
    let parsed = CompressedData::from_bytes(&bytes).unwrap();
    let decompressed = chain.decompress(parsed).unwrap();
    assert_eq!(decompressed, data);
}
