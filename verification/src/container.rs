//! The self-describing container: version, op-chain and payload, with a flat
//! serialized form.

use vstd::prelude::*;

use crate::errors::CompressionError;
use crate::errors::ErrorKind;
use crate::version::FileVersion;

verus! {

/// Represents compressed data with version and operation tracking.
///
/// The wire layout is the concatenation of the three version bytes, one
/// chain-length byte, the chain of operation codes in application order, and
/// the payload.
#[derive(Debug)]
pub struct CompressedData {
    /// Version of the compression system used.
    pub version: FileVersion,
    /// Chain of operation codes used for compression.
    pub op_chain: Vec<u8>,
    /// The compressed data.
    pub data: Vec<u8>,
}

impl CompressedData {
    /// A container serializes only while its chain fits the one-byte length
    /// prefix.
    pub open spec fn wf(self) -> bool {
        self.op_chain@.len() <= 255
    }

    /// The serialized form of the container.
    pub open spec fn spec_to_bytes(self) -> Seq<u8> {
        seq![
            self.version.major,
            self.version.minor,
            self.version.patch,
            self.op_chain@.len() as u8,
        ] + self.op_chain@ + self.data@
    }

    /// Whether `bytes` is long enough to carry a header and the chain its
    /// length byte declares.
    pub open spec fn spec_parses(bytes: Seq<u8>) -> bool {
        bytes.len() >= 4 && bytes.len() >= 4 + bytes[3] as int
    }

    /// Creates new compressed data tagged with the current version.
    pub fn new(data: Vec<u8>, op_chain: Vec<u8>) -> (c: Self)
        ensures
            c.version == FileVersion::spec_current(),
            c.op_chain@ == op_chain@,
            c.data@ == data@,
    {
        Self { version: FileVersion::current(), op_chain, data }
    }

    /// Returns the version of the compression.
    pub fn version(&self) -> (v: FileVersion)
        ensures
            v == self.version,
    {
        self.version
    }

    /// Returns a reference to the compressed data.
    pub fn data(&self) -> (r: &[u8])
        ensures
            r@ == self.data@,
    {
        self.data.as_slice()
    }

    /// Returns the chain of operation codes used.
    pub fn op_chain(&self) -> (r: &[u8])
        ensures
            r@ == self.op_chain@,
    {
        self.op_chain.as_slice()
    }

    /// Parse a container from raw bytes: fails with a format error when the
    /// header is shorter than four bytes or the declared chain length exceeds
    /// the remaining bytes, and succeeds otherwise.
    pub fn from_bytes(bytes: &[u8]) -> (r: Result<Self, CompressionError>)
        ensures
            Self::spec_parses(bytes@) ==> (r matches Ok(c)
                && c.version.major == bytes@[0]
                && c.version.minor == bytes@[1]
                && c.version.patch == bytes@[2]
                && c.op_chain@ == bytes@.subrange(4, 4 + bytes@[3] as int)
                && c.data@ == bytes@.subrange(4 + bytes@[3] as int, bytes@.len() as int)
                && c.wf()),
            !Self::spec_parses(bytes@) ==> (r matches Err(e) && e.kind == ErrorKind::Format),
    {
        if bytes.len() < 4 {
            return Err(CompressionError::new(ErrorKind::Format));
        }

        let version = FileVersion::from_bytes([bytes[0], bytes[1], bytes[2]]);
        let chain_len: usize = bytes[3] as usize;

        if bytes.len() < 4 + chain_len {
            return Err(CompressionError::new(ErrorKind::Format));
        }

        let op_chain = vstd::slice::slice_to_vec(vstd::slice::slice_subrange(bytes, 4, 4 + chain_len));
        let data = vstd::slice::slice_to_vec(vstd::slice::slice_subrange(bytes, 4 + chain_len, bytes.len()));

        Ok(Self { version, op_chain, data })
    }

    /// Serialize the container for storage.
    pub fn to_bytes(&self) -> (r: Vec<u8>)
        requires
            self.wf(),
        ensures
            r@ == self.spec_to_bytes(),
    {
        let mut result: Vec<u8> = Vec::new();
        let version_bytes = self.version.to_bytes();
        result.push(version_bytes[0]);
        result.push(version_bytes[1]);
        result.push(version_bytes[2]);
        result.push(self.op_chain.len() as u8);

        let mut i: usize = 0;
        while i < self.op_chain.len()
            invariant
                i <= self.op_chain@.len(),
                result@ == seq![
                    self.version.major,
                    self.version.minor,
                    self.version.patch,
                    self.op_chain@.len() as u8,
                ] + self.op_chain@.take(i as int),
            decreases self.op_chain@.len() - i,
        {
            result.push(self.op_chain[i]);
            proof {
                assert(self.op_chain@.take(i + 1) =~= self.op_chain@.take(i as int).push(
                    self.op_chain@[i as int],
                ));
            }
            i = i + 1;
        }

        proof {
            assert(self.op_chain@.take(self.op_chain@.len() as int) =~= self.op_chain@);
        }

        let mut j: usize = 0;
        while j < self.data.len()
            invariant
                j <= self.data@.len(),
                result@ == seq![
                    self.version.major,
                    self.version.minor,
                    self.version.patch,
                    self.op_chain@.len() as u8,
                ] + self.op_chain@ + self.data@.take(j as int),
            decreases self.data@.len() - j,
        {
            result.push(self.data[j]);
            proof {
                assert(self.data@.take(j + 1) =~= self.data@.take(j as int).push(
                    self.data@[j as int],
                ));
            }
            j = j + 1;
        }

        proof {
            assert(self.data@.take(self.data@.len() as int) =~= self.data@);
        }

        result
    }

    /// Check whether this container's version is compatible with the current
    /// version.
    pub fn is_compatible(&self) -> (r: bool)
        ensures
            r == self.version.spec_compatible(),
    {
        self.version.is_compatible()
    }
}

/// Law: the serialized form of a well-formed container parses, and parsing
/// recovers every field, so encoding a container and decoding the bytes
/// yields a container equal in all fields.
pub proof fn lemma_container_round_trip(c: CompressedData)
    requires
        c.wf(),
    ensures
        CompressedData::spec_parses(c.spec_to_bytes()),
        c.spec_to_bytes()[0] == c.version.major,
        c.spec_to_bytes()[1] == c.version.minor,
        c.spec_to_bytes()[2] == c.version.patch,
        c.spec_to_bytes().subrange(4, 4 + c.spec_to_bytes()[3] as int) == c.op_chain@,
        c.spec_to_bytes().subrange(
            4 + c.spec_to_bytes()[3] as int,
            c.spec_to_bytes().len() as int,
        ) == c.data@,
{
    let b = c.spec_to_bytes();
    assert(b[3] == c.op_chain@.len() as u8);
    assert(b[3] as int == c.op_chain@.len());
    assert(b.subrange(4, 4 + b[3] as int) =~= c.op_chain@);
    assert(b.subrange(4 + b[3] as int, b.len() as int) =~= c.data@);
}

/// Law: every truncation of a serialized container that cuts into the header
/// or the chain is rejected by the parser.
pub proof fn lemma_truncated_container_rejected(c: CompressedData, k: int)
    requires
        c.wf(),
        0 <= k < 4 + c.op_chain@.len(),
    ensures
        !CompressedData::spec_parses(c.spec_to_bytes().take(k)),
{
    let b = c.spec_to_bytes().take(k);
    if k >= 4 {
        assert(b[3] == c.op_chain@.len() as u8);
    }
}

} // verus!
