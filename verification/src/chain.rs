//! The pipeline engine: an ordered registry of compression operations,
//! consulted in registration order during compression and walked in reverse
//! chain order during decompression.

use vstd::prelude::*;

use crate::container::CompressedData;
use crate::errors::CompressionError;
use crate::errors::ErrorKind;
use crate::version::FileVersion;

verus! {

/// A pluggable byte-to-byte transformation.
///
/// An operation is stateless: `spec_compress` and `spec_decompress` fix what
/// the executable methods return, and `lemma_compress_inverts` obliges every
/// implementation to make decompression a left inverse of compression.
///
/// The ghost items default to the identity transformation (code 0, applicable
/// to nothing, encoding every buffer as itself), so an implementation written
/// outside the verifier provides only the four executable methods.
pub trait CompressionOp: Sized {
    /// The operation code recorded in a container's chain.
    open spec fn spec_code(&self) -> u8 {
        0
    }

    /// Whether the operation judges compression of `data` worthwhile.
    open spec fn spec_can_compress(&self, data: Seq<u8>) -> bool {
        false
    }

    /// The encoded form of `data`.
    open spec fn spec_compress(&self, data: Seq<u8>) -> Seq<u8> {
        data
    }

    /// The decoded form of `data`, or `None` on malformed token bytes.
    open spec fn spec_decompress(&self, data: Seq<u8>) -> Option<Seq<u8>> {
        Some(data)
    }

    /// Decompression inverts compression on every byte buffer.
    proof fn lemma_compress_inverts(&self, data: Seq<u8>)
        ensures
            self.spec_decompress(self.spec_compress(data)) == Some(data),
    ;

    /// Returns the unique operation code.
    fn op_code(&self) -> (c: u8)
        ensures
            c == self.spec_code(),
    ;

    /// Determines if this operation can compress the data further.
    fn can_compress(&self, data: &[u8]) -> (r: bool)
        ensures
            r == self.spec_can_compress(data@),
    ;

    /// Compresses the data. Compression succeeds on every well-formed byte
    /// input.
    fn compress(&self, data: &[u8]) -> (r: Result<Vec<u8>, CompressionError>)
        ensures
            r matches Ok(v) && v@ == self.spec_compress(data@),
    ;

    /// Decompresses the data, failing with a decode error exactly on the
    /// buffers `spec_decompress` rejects.
    fn decompress(&self, data: &[u8]) -> (r: Result<Vec<u8>, CompressionError>)
        ensures
            match r {
                Ok(v) => self.spec_decompress(data@) == Some(v@),
                Err(e) => self.spec_decompress(data@) is None && e.kind == ErrorKind::Decode,
            },
    ;
}

/// The payload the pipeline produces on `data`: each operation in order,
/// applied where it judges itself applicable.
pub open spec fn chain_payload<T: CompressionOp>(ops: Seq<T>, data: Seq<u8>) -> Seq<u8>
    decreases ops.len(),
{
    if ops.len() == 0 {
        data
    } else if ops[0].spec_can_compress(data) {
        chain_payload(ops.skip(1), ops[0].spec_compress(data))
    } else {
        chain_payload(ops.skip(1), data)
    }
}

/// The codes of the operations the pipeline applies to `data`, in application
/// order.
pub open spec fn chain_codes<T: CompressionOp>(ops: Seq<T>, data: Seq<u8>) -> Seq<u8>
    decreases ops.len(),
{
    if ops.len() == 0 {
        Seq::empty()
    } else if ops[0].spec_can_compress(data) {
        seq![ops[0].spec_code()] + chain_codes(ops.skip(1), ops[0].spec_compress(data))
    } else {
        chain_codes(ops.skip(1), data)
    }
}

/// Whether some registered operation carries `code`.
pub open spec fn has_op<T: CompressionOp>(ops: Seq<T>, code: u8) -> bool {
    exists|j: int| 0 <= j < ops.len() && ops[j].spec_code() == code
}

/// The index of the operation a chain code resolves to: the last registered
/// operation with that code.
pub open spec fn find_op<T: CompressionOp>(ops: Seq<T>, code: u8) -> int
    decreases ops.len(),
{
    if ops.len() == 0 {
        -1
    } else if ops.last().spec_code() == code {
        ops.len() - 1
    } else {
        find_op(ops.drop_last(), code)
    }
}

/// The result of walking `chain` in reverse over `payload`, undoing each
/// operation in turn, or the kind of failure encountered.
pub open spec fn spec_unchain<T: CompressionOp>(
    ops: Seq<T>,
    chain: Seq<u8>,
    payload: Seq<u8>,
) -> Result<Seq<u8>, ErrorKind>
    decreases chain.len(),
{
    if chain.len() == 0 {
        Ok(payload)
    } else {
        let code = chain.last();
        if has_op(ops, code) {
            match ops[find_op(ops, code)].spec_decompress(payload) {
                Some(w) => spec_unchain(ops, chain.drop_last(), w),
                None => Err(ErrorKind::Decode),
            }
        } else {
            Err(ErrorKind::UnknownOp)
        }
    }
}

proof fn lemma_find_op_valid<T: CompressionOp>(ops: Seq<T>, code: u8)
    requires
        has_op(ops, code),
    ensures
        0 <= find_op(ops, code) < ops.len(),
        ops[find_op(ops, code)].spec_code() == code,
    decreases ops.len(),
{
    let j = choose|j: int| 0 <= j < ops.len() && ops[j].spec_code() == code;
    if ops.last().spec_code() != code {
        assert(j < ops.len() - 1);
        assert(ops.drop_last()[j] == ops[j]);
        lemma_find_op_valid(ops.drop_last(), code);
    }
}

proof fn lemma_find_op_at<T: CompressionOp>(ops: Seq<T>, code: u8, j: int)
    requires
        0 <= j < ops.len(),
        ops[j].spec_code() == code,
        forall|k: int| j < k < ops.len() ==> ops[k].spec_code() != code,
    ensures
        find_op(ops, code) == j,
    decreases ops.len(),
{
    if ops.last().spec_code() == code {
        assert(j == ops.len() - 1);
    } else {
        assert(j < ops.len() - 1);
        assert(ops.drop_last()[j] == ops[j]);
        assert(forall|k: int| j < k < ops.drop_last().len() ==> ops.drop_last()[k]
            == ops[k]);
        lemma_find_op_at(ops.drop_last(), code, j);
    }
}

/// The registry's operation codes are pairwise distinct.
pub open spec fn distinct_codes<T: CompressionOp>(ops: Seq<T>) -> bool {
    forall|p: int, q: int|
        0 <= p < q < ops.len() ==> ops[p].spec_code() != ops[q].spec_code()
}

/// Law: compressing with an empty registry leaves the payload equal to the
/// input and records an empty chain.
pub proof fn lemma_empty_registry<T: CompressionOp>(ops: Seq<T>, data: Seq<u8>)
    requires
        ops.len() == 0,
    ensures
        chain_payload(ops, data) == data,
        chain_codes(ops, data) == Seq::<u8>::empty(),
{
}

/// Law (chain fidelity): every code the pipeline records is the code of a
/// registered operation that judged itself applicable to the working buffer
/// it was consulted on, namely the payload of the pipeline prefix before it.
pub proof fn lemma_chain_fidelity<T: CompressionOp>(ops: Seq<T>, data: Seq<u8>, k: int)
    requires
        0 <= k < chain_codes(ops, data).len(),
    ensures
        exists|j: int|
            0 <= j < ops.len() && #[trigger] ops[j].spec_code() == chain_codes(ops, data)[k]
                && ops[j].spec_can_compress(chain_payload(ops.take(j), data)),
    decreases ops.len(),
{
    let first = ops[0];
    if first.spec_can_compress(data) {
        let w1 = first.spec_compress(data);
        if k == 0 {
            assert(ops.take(0) =~= Seq::<T>::empty());
            assert(chain_payload(ops.take(0), data) == data);
            assert(chain_codes(ops, data)[0] == first.spec_code());
            assert(0 <= 0 < ops.len() && ops[0].spec_code() == chain_codes(ops, data)[0]
                && ops[0].spec_can_compress(chain_payload(ops.take(0), data)));
        } else {
            lemma_chain_fidelity(ops.skip(1), w1, k - 1);
            let rest = ops.skip(1);
            let j = choose|j: int|
                0 <= j < rest.len() && #[trigger] rest[j].spec_code() == chain_codes(rest, w1)[k
                    - 1] && rest[j].spec_can_compress(chain_payload(rest.take(j), w1));
            assert(ops[j + 1] == rest[j]);
            assert(chain_codes(ops, data)[k] == chain_codes(rest, w1)[k - 1]);
            assert(ops.take(j + 1)[0] == ops[0]);
            assert(ops.take(j + 1).skip(1) =~= rest.take(j));
            assert(chain_payload(ops.take(j + 1), data) == chain_payload(rest.take(j), w1));
            assert(0 <= j + 1 < ops.len() && ops[j + 1].spec_code() == chain_codes(ops, data)[k]
                && ops[j + 1].spec_can_compress(chain_payload(ops.take(j + 1), data)));
        }
    } else {
        lemma_chain_fidelity(ops.skip(1), data, k);
        let rest = ops.skip(1);
        let j = choose|j: int|
            0 <= j < rest.len() && #[trigger] rest[j].spec_code() == chain_codes(rest, data)[k]
                && rest[j].spec_can_compress(chain_payload(rest.take(j), data));
        assert(ops[j + 1] == rest[j]);
        assert(ops.take(j + 1)[0] == ops[0]);
        assert(ops.take(j + 1).skip(1) =~= rest.take(j));
        assert(chain_payload(ops.take(j + 1), data) == chain_payload(rest.take(j), data));
        assert(0 <= j + 1 < ops.len() && ops[j + 1].spec_code() == chain_codes(ops, data)[k]
            && ops[j + 1].spec_can_compress(chain_payload(ops.take(j + 1), data)));
    }
}

/// Undoing a concatenation of chains undoes the later part first.
proof fn lemma_unchain_append<T: CompressionOp>(
    ops: Seq<T>,
    c1: Seq<u8>,
    c2: Seq<u8>,
    payload: Seq<u8>,
)
    ensures
        spec_unchain(ops, c1 + c2, payload) == (match spec_unchain(ops, c2, payload) {
            Ok(w) => spec_unchain(ops, c1, w),
            Err(kind) => Err(kind),
        }),
    decreases c2.len(),
{
    if c2.len() == 0 {
        assert(c1 + c2 =~= c1);
    } else {
        assert((c1 + c2).last() == c2.last());
        assert((c1 + c2).drop_last() =~= c1 + c2.drop_last());
        let code = c2.last();
        if has_op(ops, code) {
            match ops[find_op(ops, code)].spec_decompress(payload) {
                Some(w) => {
                    lemma_unchain_append(ops, c1, c2.drop_last(), w);
                },
                None => {},
            }
        }
    }
}

proof fn lemma_round_trip_suffix<T: CompressionOp>(ops: Seq<T>, i: int, data: Seq<u8>)
    requires
        distinct_codes(ops),
        0 <= i <= ops.len(),
    ensures
        spec_unchain(ops, chain_codes(ops.skip(i), data), chain_payload(ops.skip(i), data))
            == Ok::<Seq<u8>, ErrorKind>(data),
    decreases ops.len() - i,
{
    let suffix = ops.skip(i);
    if i == ops.len() {
        assert(suffix.len() == 0);
    } else {
        let op = ops[i];
        assert(suffix[0] == op);
        assert(suffix.skip(1) =~= ops.skip(i + 1));
        if op.spec_can_compress(data) {
            let w1 = op.spec_compress(data);
            let cr = chain_codes(ops.skip(i + 1), w1);
            let payload = chain_payload(ops.skip(i + 1), w1);
            assert(chain_codes(suffix, data) == seq![op.spec_code()] + cr);
            assert(chain_payload(suffix, data) == payload);
            lemma_round_trip_suffix(ops, i + 1, w1);
            lemma_unchain_append(ops, seq![op.spec_code()], cr, payload);
            assert(has_op(ops, op.spec_code()));
            lemma_find_op_valid(ops, op.spec_code());
            let f = find_op(ops, op.spec_code());
            assert(f == i);
            op.lemma_compress_inverts(data);
            assert(op.spec_decompress(w1) == Some(data));
            assert(seq![op.spec_code()].drop_last() =~= Seq::<u8>::empty());
            assert(seq![op.spec_code()].last() == op.spec_code());
            assert(spec_unchain(ops, Seq::<u8>::empty(), data) == Ok::<Seq<u8>, ErrorKind>(data));
            assert(spec_unchain(ops, seq![op.spec_code()], w1) == Ok::<Seq<u8>, ErrorKind>(data));
        } else {
            lemma_round_trip_suffix(ops, i + 1, data);
        }
    }
}

/// Law (round trip): over a registry whose operation codes are pairwise
/// distinct, undoing a pipeline's recorded chain on its payload restores the
/// original buffer. Together with the contracts of `compress` and
/// `decompress`, decompressing what `compress` produced yields the input.
pub proof fn lemma_pipeline_round_trip<T: CompressionOp>(ops: Seq<T>, data: Seq<u8>)
    requires
        distinct_codes(ops),
    ensures
        spec_unchain(ops, chain_codes(ops, data), chain_payload(ops, data)) == Ok::<
            Seq<u8>,
            ErrorKind,
        >(data),
{
    lemma_round_trip_suffix(ops, 0, data);
    assert(ops.skip(0) =~= ops);
}

/// Manages an ordered chain of compression operations.
pub struct CompressionChain<T> {
    /// The registered operations, in registration order.
    pub ops: Vec<T>,
}

impl<T: CompressionOp> CompressionChain<T> {
    /// Creates a new empty compression chain.
    pub fn new() -> (c: Self)
        ensures
            c.ops@ == Seq::<T>::empty(),
    {
        Self { ops: Vec::new() }
    }

    /// Appends a compression operation to the registry.
    pub fn add_op(&mut self, op: T)
        ensures
            final(self).ops@ == old(self).ops@.push(op),
    {
        self.ops.push(op);
    }

    /// Compresses data using all applicable operations in the chain, in
    /// registration order, and records the codes of the operations applied.
    pub fn compress(&self, data: &[u8]) -> (r: Result<CompressedData, CompressionError>)
        ensures
            r matches Ok(c) && c.version == FileVersion::spec_current() && c.op_chain@
                == chain_codes(self.ops@, data@) && c.data@ == chain_payload(self.ops@, data@)
                && c.op_chain@.len() <= self.ops@.len(),
    {
        let mut current_data = vstd::slice::slice_to_vec(data);
        let mut op_chain: Vec<u8> = Vec::new();
        let ghost orig = data@;

        proof {
            assert(self.ops@.skip(0) =~= self.ops@);
            assert(op_chain@ + chain_codes(self.ops@, orig) =~= chain_codes(self.ops@, orig));
        }
        let mut i: usize = 0;
        while i < self.ops.len()
            invariant
                i <= self.ops@.len(),
                op_chain@.len() <= i,
                chain_payload(self.ops@, orig) == chain_payload(
                    self.ops@.skip(i as int),
                    current_data@,
                ),
                chain_codes(self.ops@, orig) == op_chain@ + chain_codes(
                    self.ops@.skip(i as int),
                    current_data@,
                ),
            decreases self.ops@.len() - i,
        {
            let ghost pre = current_data@;
            let ghost chain_pre = op_chain@;
            proof {
                assert(self.ops@.skip(i as int)[0] == self.ops@[i as int]);
                assert(self.ops@.skip(i as int).skip(1) =~= self.ops@.skip(i + 1));
            }
            let op = &self.ops[i];
            if op.can_compress(current_data.as_slice()) {
                match op.compress(current_data.as_slice()) {
                    Ok(v) => {
                        current_data = v;
                    },
                    Err(e) => {
                        return Err(e);
                    },
                }
                op_chain.push(op.op_code());
                proof {
                    assert(op_chain@ =~= chain_pre + seq![op.spec_code()]);
                    assert(chain_pre + (seq![op.spec_code()] + chain_codes(
                        self.ops@.skip(i + 1),
                        current_data@,
                    )) =~= op_chain@ + chain_codes(self.ops@.skip(i + 1), current_data@));
                }
            }
            i = i + 1;
        }

        proof {
            assert(self.ops@.skip(self.ops@.len() as int) =~= Seq::<T>::empty());
            assert(op_chain@ + Seq::<u8>::empty() =~= op_chain@);
        }
        Ok(CompressedData::new(current_data, op_chain))
    }

    /// Decompresses a container by undoing the recorded operations in reverse
    /// order. Fails with an unknown-op error on a code no registered
    /// operation carries, and with a decode error where an operation rejects
    /// its input.
    pub fn decompress(&self, compressed: CompressedData) -> (r: Result<Vec<u8>, CompressionError>)
        ensures
            match spec_unchain(self.ops@, compressed.op_chain@, compressed.data@) {
                Ok(v) => r matches Ok(out) && out@ == v,
                Err(kind) => r matches Err(e) && e.kind == kind,
            },
    {
        let mut current_data = compressed.data;
        let chain = compressed.op_chain;
        let ghost chain0 = chain@;
        let ghost payload0 = current_data@;

        proof {
            assert(chain@.take(chain@.len() as int) =~= chain@);
        }
        let mut k: usize = chain.len();
        while k > 0
            invariant
                k <= chain@.len(),
                spec_unchain(self.ops@, chain0, payload0) == spec_unchain(
                    self.ops@,
                    chain@.take(k as int),
                    current_data@,
                ),
                chain0 == chain@,
                chain0 == compressed.op_chain@,
                payload0 == compressed.data@,
            decreases k,
        {
            let code = chain[k - 1];
            proof {
                assert(chain@.take(k as int).last() == code);
                assert(chain@.take(k as int).drop_last() =~= chain@.take(k - 1));
            }
            match self.find_op_index(code) {
                Some(j) => {
                    let op = &self.ops[j];
                    match op.decompress(current_data.as_slice()) {
                        Ok(v) => {
                            current_data = v;
                        },
                        Err(e) => {
                            proof {
                                assert(spec_unchain(self.ops@, chain@.take(k as int), current_data@)
                                    == Err::<Seq<u8>, ErrorKind>(ErrorKind::Decode));
                            }
                            return Err(e);
                        },
                    }
                },
                None => {
                    proof {
                        assert(spec_unchain(self.ops@, chain@.take(k as int), current_data@)
                            == Err::<Seq<u8>, ErrorKind>(ErrorKind::UnknownOp));
                    }
                    return Err(CompressionError::new(ErrorKind::UnknownOp));
                },
            }
            k = k - 1;
        }

        proof {
            assert(chain@.take(0) =~= Seq::<u8>::empty());
        }
        Ok(current_data)
    }

    /// Find the operation a chain code resolves to: the last registered one
    /// with that code.
    fn find_op_index(&self, code: u8) -> (r: Option<usize>)
        ensures
            match r {
                Some(j) => j < self.ops@.len() && self.ops@[j as int].spec_code() == code && j
                    as int == find_op(self.ops@, code) && has_op(self.ops@, code),
                None => !has_op(self.ops@, code),
            },
    {
        let mut j: usize = self.ops.len();
        while j > 0
            invariant
                j <= self.ops@.len(),
                forall|k: int| j <= k < self.ops@.len() ==> self.ops@[k].spec_code() != code,
            decreases j,
        {
            j = j - 1;
            if self.ops[j].op_code() == code {
                proof {
                    lemma_find_op_at(self.ops@, code, j as int);
                }
                return Some(j);
            }
        }
        None
    }
}

} // verus!
