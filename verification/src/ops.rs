//! The built-in compression operations: run-length encoding and zero-run
//! elimination, with the byte-level grammar of each and the proof that
//! decompression inverts compression.

use vstd::prelude::*;

use crate::chain::CompressionOp;
use crate::errors::CompressionError;
use crate::errors::ErrorKind;

verus! {

/// Length of the maximal run of equal bytes starting at `i`.
pub open spec fn run_len(s: Seq<u8>, i: int) -> int
    decreases s.len() - i,
{
    if i < 0 || i >= s.len() {
        0
    } else if i + 1 < s.len() && s[i + 1] == s[i] {
        1 + run_len(s, i + 1)
    } else {
        1
    }
}

/// The run length at `i`, capped at the largest count a token byte can carry.
pub open spec fn capped_run(s: Seq<u8>, i: int) -> int {
    if run_len(s, i) > 255 {
        255
    } else {
        run_len(s, i)
    }
}

pub proof fn lemma_run_len_bounds(s: Seq<u8>, i: int)
    requires
        0 <= i < s.len(),
    ensures
        1 <= run_len(s, i) <= s.len() - i,
        forall|j: int| i <= j < i + run_len(s, i) ==> s[j] == s[i],
        i + run_len(s, i) == s.len() || s[i + run_len(s, i)] != s[i],
    decreases s.len() - i,
{
    if i + 1 < s.len() && s[i + 1] == s[i] {
        lemma_run_len_bounds(s, i + 1);
    }
}

/// A run whose bytes all equal `s[i]` and that stops at the end of the buffer
/// or at a different byte is exactly the maximal run.
pub proof fn lemma_run_len_from_prefix(s: Seq<u8>, i: int, k: int)
    requires
        0 <= i,
        1 <= k,
        i + k <= s.len(),
        forall|j: int| i <= j < i + k ==> s[j] == s[i],
        i + k == s.len() || s[i + k] != s[i],
    ensures
        run_len(s, i) == k,
    decreases k,
{
    if k > 1 {
        assert(s[i + 1] == s[i]);
        assert(forall|j: int| i + 1 <= j < i + 1 + (k - 1) ==> #[trigger] s[j] == s[i + 1]);
        lemma_run_len_from_prefix(s, i + 1, k - 1);
    }
}

/// A prefix of `k` equal bytes puts a lower bound on the maximal run.
pub proof fn lemma_run_len_at_least(s: Seq<u8>, i: int, k: int)
    requires
        0 <= i,
        1 <= k,
        i + k <= s.len(),
        forall|j: int| i <= j < i + k ==> s[j] == s[i],
    ensures
        run_len(s, i) >= k,
    decreases k,
{
    lemma_run_len_bounds(s, i);
    if k > 1 {
        assert(s[i + 1] == s[i]);
        assert(forall|j: int| i + 1 <= j < i + 1 + (k - 1) ==> #[trigger] s[j] == s[i + 1]);
        lemma_run_len_at_least(s, i + 1, k - 1);
    }
}

/// The run-length encoding of the suffix of `s` starting at `i`: a maximal
/// run of at least three bytes becomes one (count, value) pair, every other
/// byte a (1, value) literal pair.
pub open spec fn rle_encode_from(s: Seq<u8>, i: int) -> Seq<u8>
    decreases s.len() - i,
{
    if i < 0 || i >= s.len() {
        Seq::empty()
    } else {
        proof {
            lemma_run_len_bounds(s, i);
        }
        let r = capped_run(s, i);
        if r >= 3 {
            seq![r as u8, s[i]] + rle_encode_from(s, i + r)
        } else {
            seq![1u8, s[i]] + rle_encode_from(s, i + 1)
        }
    }
}

/// The decoding of the run-length token stream `s` from `i` on: each (count,
/// value) pair expands to `count` copies of `value`. `None` on a truncated
/// pair or a zero count.
pub open spec fn rle_decode_from(s: Seq<u8>, i: int) -> Option<Seq<u8>>
    decreases s.len() - i,
{
    if i >= s.len() {
        Some(Seq::empty())
    } else if i < 0 || i + 1 >= s.len() {
        None
    } else if s[i] == 0 {
        None
    } else {
        match rle_decode_from(s, i + 2) {
            Some(rest) => Some(Seq::new(s[i] as nat, |q: int| s[i + 1]) + rest),
            None => None,
        }
    }
}

/// The zero-run encoding of the suffix of `s` starting at `i`: a run of at
/// least four zeros becomes a (0, count) pair, every zero outside such a run
/// is escaped as (0, 1), and non-zero bytes stand for themselves.
pub open spec fn zero_encode_from(s: Seq<u8>, i: int) -> Seq<u8>
    decreases s.len() - i,
{
    if i < 0 || i >= s.len() {
        Seq::empty()
    } else if s[i] != 0 {
        seq![s[i]] + zero_encode_from(s, i + 1)
    } else {
        proof {
            lemma_run_len_bounds(s, i);
        }
        let r = capped_run(s, i);
        if r >= 4 {
            seq![0u8, r as u8] + zero_encode_from(s, i + r)
        } else {
            seq![0u8, 1u8] + zero_encode_from(s, i + 1)
        }
    }
}

/// The decoding of a zero-run token stream from `i` on: a zero byte is a
/// marker whose next byte counts zeros, any other byte stands for itself.
/// `None` on a marker with no count byte.
pub open spec fn zero_decode_from(s: Seq<u8>, i: int) -> Option<Seq<u8>>
    decreases s.len() - i,
{
    if i >= s.len() {
        Some(Seq::empty())
    } else if i < 0 {
        None
    } else if s[i] != 0 {
        match zero_decode_from(s, i + 1) {
            Some(rest) => Some(seq![s[i]] + rest),
            None => None,
        }
    } else if i + 1 >= s.len() {
        None
    } else {
        match zero_decode_from(s, i + 2) {
            Some(rest) => Some(Seq::new(s[i + 1] as nat, |q: int| 0u8) + rest),
            None => None,
        }
    }
}

/// Decoding only looks at the suffix: decoding `s` from `i` equals decoding
/// the suffix from its start.
proof fn lemma_rle_decode_skip(s: Seq<u8>, i: int)
    requires
        0 <= i <= s.len(),
    ensures
        rle_decode_from(s, i) == rle_decode_from(s.skip(i), 0),
    decreases s.len() - i,
{
    let t = s.skip(i);
    if i == s.len() {
    } else if i + 1 >= s.len() {
    } else if s[i] == 0 {
    } else {
        lemma_rle_decode_skip(s, i + 2);
        lemma_rle_decode_skip(t, 2);
        assert(t.skip(2) =~= s.skip(i + 2));
        match rle_decode_from(s, i + 2) {
            Some(rest) => {
                assert(Seq::new(s[i] as nat, |q: int| s[i + 1]) =~= Seq::new(
                    t[0] as nat,
                    |q: int| t[1],
                ));
            },
            None => {},
        }
    }
}

proof fn lemma_zero_decode_skip(s: Seq<u8>, i: int)
    requires
        0 <= i <= s.len(),
    ensures
        zero_decode_from(s, i) == zero_decode_from(s.skip(i), 0),
    decreases s.len() - i,
{
    let t = s.skip(i);
    if i == s.len() {
    } else if s[i] != 0 {
        lemma_zero_decode_skip(s, i + 1);
        lemma_zero_decode_skip(t, 1);
        assert(t.skip(1) =~= s.skip(i + 1));
    } else if i + 1 >= s.len() {
    } else {
        lemma_zero_decode_skip(s, i + 2);
        lemma_zero_decode_skip(t, 2);
        assert(t.skip(2) =~= s.skip(i + 2));
        match zero_decode_from(s, i + 2) {
            Some(rest) => {
                assert(Seq::new(s[i + 1] as nat, |q: int| 0u8) =~= Seq::new(
                    t[1] as nat,
                    |q: int| 0u8,
                ));
            },
            None => {},
        }
    }
}

/// Law: run-length decoding inverts run-length encoding on every suffix.
proof fn lemma_rle_round_trip_from(s: Seq<u8>, i: int)
    requires
        0 <= i <= s.len(),
    ensures
        rle_decode_from(rle_encode_from(s, i), 0) == Some(s.skip(i)),
    decreases s.len() - i,
{
    if i == s.len() {
        assert(s.skip(i) =~= Seq::<u8>::empty());
    } else {
        lemma_run_len_bounds(s, i);
        let r = capped_run(s, i);
        if r >= 3 {
            let enc = rle_encode_from(s, i);
            let tail = rle_encode_from(s, i + r);
            assert(enc =~= seq![r as u8, s[i]] + tail);
            lemma_rle_round_trip_from(s, i + r);
            lemma_rle_decode_skip(enc, 2);
            assert(enc.skip(2) =~= tail);
            assert(enc[0] == r as u8 && r as u8 != 0);
            assert(Seq::new(enc[0] as nat, |q: int| enc[1]) + s.skip(i + r) =~= s.skip(i));
        } else {
            let enc = rle_encode_from(s, i);
            let tail = rle_encode_from(s, i + 1);
            assert(enc =~= seq![1u8, s[i]] + tail);
            lemma_rle_round_trip_from(s, i + 1);
            lemma_rle_decode_skip(enc, 2);
            assert(enc.skip(2) =~= tail);
            assert(Seq::new(enc[0] as nat, |q: int| enc[1]) + s.skip(i + 1) =~= s.skip(i));
        }
    }
}

/// Law: run-length decoding inverts run-length encoding on every byte buffer.
pub proof fn lemma_rle_round_trip(s: Seq<u8>)
    ensures
        rle_decode_from(rle_encode_from(s, 0), 0) == Some(s),
{
    lemma_rle_round_trip_from(s, 0);
    assert(s.skip(0) =~= s);
}

/// Law: zero-run decoding inverts zero-run encoding on every suffix.
proof fn lemma_zero_round_trip_from(s: Seq<u8>, i: int)
    requires
        0 <= i <= s.len(),
    ensures
        zero_decode_from(zero_encode_from(s, i), 0) == Some(s.skip(i)),
    decreases s.len() - i,
{
    if i == s.len() {
        assert(s.skip(i) =~= Seq::<u8>::empty());
    } else if s[i] != 0 {
        let enc = zero_encode_from(s, i);
        let tail = zero_encode_from(s, i + 1);
        assert(enc =~= seq![s[i]] + tail);
        lemma_zero_round_trip_from(s, i + 1);
        lemma_zero_decode_skip(enc, 1);
        assert(enc.skip(1) =~= tail);
        assert(seq![enc[0]] + s.skip(i + 1) =~= s.skip(i));
    } else {
        lemma_run_len_bounds(s, i);
        let r = capped_run(s, i);
        if r >= 4 {
            let enc = zero_encode_from(s, i);
            let tail = zero_encode_from(s, i + r);
            assert(enc =~= seq![0u8, r as u8] + tail);
            lemma_zero_round_trip_from(s, i + r);
            lemma_zero_decode_skip(enc, 2);
            assert(enc.skip(2) =~= tail);
            assert(Seq::new(enc[1] as nat, |q: int| 0u8) + s.skip(i + r) =~= s.skip(i));
        } else {
            let enc = zero_encode_from(s, i);
            let tail = zero_encode_from(s, i + 1);
            assert(enc =~= seq![0u8, 1u8] + tail);
            lemma_zero_round_trip_from(s, i + 1);
            lemma_zero_decode_skip(enc, 2);
            assert(enc.skip(2) =~= tail);
            assert(Seq::new(enc[1] as nat, |q: int| 0u8) + s.skip(i + 1) =~= s.skip(i));
        }
    }
}

/// Law: zero-run decoding inverts zero-run encoding on every byte buffer,
/// isolated zero bytes included.
pub proof fn lemma_zero_round_trip(s: Seq<u8>)
    ensures
        zero_decode_from(zero_encode_from(s, 0), 0) == Some(s),
{
    lemma_zero_round_trip_from(s, 0);
    assert(s.skip(0) =~= s);
}

/// Run-length encoding compression operation.
pub struct RleOp;

impl CompressionOp for RleOp {
    open spec fn spec_code(&self) -> u8 {
        1
    }

    /// Worthwhile when some window of three consecutive bytes is equal.
    open spec fn spec_can_compress(&self, data: Seq<u8>) -> bool {
        exists|j: int|
            0 <= j && j + 2 < data.len() && #[trigger] data[j] == data[j + 1] && data[j + 1]
                == data[j + 2]
    }

    open spec fn spec_compress(&self, data: Seq<u8>) -> Seq<u8> {
        rle_encode_from(data, 0)
    }

    open spec fn spec_decompress(&self, data: Seq<u8>) -> Option<Seq<u8>> {
        rle_decode_from(data, 0)
    }

    proof fn lemma_compress_inverts(&self, data: Seq<u8>) {
        lemma_rle_round_trip(data);
    }

    fn op_code(&self) -> (c: u8) {
        1
    }

    fn can_compress(&self, data: &[u8]) -> (r: bool) {
        if data.len() < 3 {
            return false;
        }
        let mut j: usize = 0;
        while j + 2 < data.len()
            invariant
                j + 2 <= data@.len(),
                forall|k: int|
                    0 <= k < j ==> !(#[trigger] data@[k] == data@[k + 1] && data@[k + 1] == data@[k
                        + 2]),
            decreases data@.len() - j,
        {
            if data[j] == data[j + 1] && data[j + 1] == data[j + 2] {
                return true;
            }
            j = j + 1;
        }
        false
    }

    fn compress(&self, data: &[u8]) -> (r: Result<Vec<u8>, CompressionError>) {
        let mut compressed: Vec<u8> = Vec::new();
        let mut i: usize = 0;

        proof {
            assert(Seq::<u8>::empty() + rle_encode_from(data@, 0) =~= rle_encode_from(data@, 0));
        }
        while i < data.len()
            invariant
                i <= data@.len(),
                rle_encode_from(data@, 0) == compressed@ + rle_encode_from(data@, i as int),
            decreases data@.len() - i,
        {
            let ghost i0 = i as int;
            let ghost pre = compressed@;
            let current = data[i];
            let mut count: usize = 1;

            while i + count < data.len() && data[i + count] == current && count < 255
                invariant
                    1 <= count <= 255,
                    i < data@.len(),
                    i + count <= data@.len(),
                    current == data@[i as int],
                    forall|j: int| i <= j < i + count ==> data@[j] == data@[i as int],
                decreases data@.len() - i - count,
            {
                count = count + 1;
            }

            proof {
                lemma_run_len_bounds(data@, i0);
                if count < 255 {
                    lemma_run_len_from_prefix(data@, i0, count as int);
                } else {
                    lemma_run_len_at_least(data@, i0, 255);
                }
                assert(capped_run(data@, i0) == count as int);
            }

            if count >= 3 {
                compressed.push(count as u8);
                compressed.push(current);
                i = i + count;
                proof {
                    assert(compressed@ =~= pre + seq![count as u8, data@[i0]]);
                    assert(rle_encode_from(data@, i0) == seq![count as u8, data@[i0]]
                        + rle_encode_from(data@, i as int));
                    assert(pre + (seq![count as u8, data@[i0]] + rle_encode_from(data@, i as int))
                        =~= compressed@ + rle_encode_from(data@, i as int));
                }
            } else {
                compressed.push(1);
                compressed.push(current);
                i = i + 1;
                proof {
                    assert(compressed@ =~= pre + seq![1u8, data@[i0]]);
                    assert(rle_encode_from(data@, i0) == seq![1u8, data@[i0]] + rle_encode_from(
                        data@,
                        i as int,
                    ));
                    assert(pre + (seq![1u8, data@[i0]] + rle_encode_from(data@, i as int))
                        =~= compressed@ + rle_encode_from(data@, i as int));
                }
            }
        }

        proof {
            assert(compressed@ + rle_encode_from(data@, data@.len() as int) =~= compressed@);
        }
        Ok(compressed)
    }

    fn decompress(&self, data: &[u8]) -> (r: Result<Vec<u8>, CompressionError>) {
        let mut decompressed: Vec<u8> = Vec::new();
        let mut i: usize = 0;

        while i < data.len()
            invariant
                i <= data@.len(),
                match rle_decode_from(data@, i as int) {
                    Some(rest) => rle_decode_from(data@, 0) == Some(decompressed@ + rest),
                    None => rle_decode_from(data@, 0) is None,
                },
            decreases data@.len() - i,
        {
            if i + 1 >= data.len() {
                return Err(CompressionError::new(ErrorKind::Decode));
            }
            let count = data[i];
            let value = data[i + 1];
            if count == 0 {
                return Err(CompressionError::new(ErrorKind::Decode));
            }

            let ghost pre = decompressed@;
            let mut c: u8 = 0;
            while c < count
                invariant
                    c <= count,
                    decompressed@ == pre + Seq::new(c as nat, |q: int| value),
                decreases count - c,
            {
                decompressed.push(value);
                c = c + 1;
                proof {
                    assert(pre + Seq::new(c as nat, |q: int| value) =~= (pre + Seq::new(
                        (c - 1) as nat,
                        |q: int| value,
                    )).push(value));
                }
            }

            proof {
                match rle_decode_from(data@, i + 2) {
                    Some(rest) => {
                        assert(decompressed@ + rest =~= pre + (Seq::new(
                            data@[i as int] as nat,
                            |q: int| data@[i as int + 1],
                        ) + rest));
                    },
                    None => {},
                }
            }
            i = i + 2;
        }

        proof {
            assert(decompressed@ + Seq::<u8>::empty() =~= decompressed@);
        }
        Ok(decompressed)
    }
}

/// Zero sequence compression operation.
pub struct ZeroOp;

impl CompressionOp for ZeroOp {
    open spec fn spec_code(&self) -> u8 {
        2
    }

    /// Worthwhile when some window of four consecutive bytes is all zero.
    open spec fn spec_can_compress(&self, data: Seq<u8>) -> bool {
        exists|j: int|
            0 <= j && j + 3 < data.len() && #[trigger] data[j] == 0 && data[j + 1] == 0 && data[j
                + 2] == 0 && data[j + 3] == 0
    }

    open spec fn spec_compress(&self, data: Seq<u8>) -> Seq<u8> {
        zero_encode_from(data, 0)
    }

    open spec fn spec_decompress(&self, data: Seq<u8>) -> Option<Seq<u8>> {
        zero_decode_from(data, 0)
    }

    proof fn lemma_compress_inverts(&self, data: Seq<u8>) {
        lemma_zero_round_trip(data);
    }

    fn op_code(&self) -> (c: u8) {
        2
    }

    fn can_compress(&self, data: &[u8]) -> (r: bool) {
        if data.len() < 4 {
            return false;
        }
        let mut j: usize = 0;
        while j + 3 < data.len()
            invariant
                j + 3 <= data@.len(),
                forall|k: int|
                    0 <= k < j ==> !(#[trigger] data@[k] == 0 && data@[k + 1] == 0 && data@[k + 2]
                        == 0 && data@[k + 3] == 0),
            decreases data@.len() - j,
        {
            if data[j] == 0 && data[j + 1] == 0 && data[j + 2] == 0 && data[j + 3] == 0 {
                return true;
            }
            j = j + 1;
        }
        false
    }

    fn compress(&self, data: &[u8]) -> (r: Result<Vec<u8>, CompressionError>) {
        let mut compressed: Vec<u8> = Vec::new();
        let mut i: usize = 0;

        proof {
            assert(Seq::<u8>::empty() + zero_encode_from(data@, 0) =~= zero_encode_from(data@, 0));
        }
        while i < data.len()
            invariant
                i <= data@.len(),
                zero_encode_from(data@, 0) == compressed@ + zero_encode_from(data@, i as int),
            decreases data@.len() - i,
        {
            let ghost i0 = i as int;
            let ghost pre = compressed@;
            let current = data[i];

            if current != 0 {
                compressed.push(current);
                i = i + 1;
                proof {
                    assert(compressed@ =~= pre + seq![data@[i0]]);
                    assert(zero_encode_from(data@, i0) == seq![data@[i0]] + zero_encode_from(
                        data@,
                        i as int,
                    ));
                    assert(pre + (seq![data@[i0]] + zero_encode_from(data@, i as int)) =~= compressed@
                        + zero_encode_from(data@, i as int));
                }
            } else {
                let mut count: usize = 1;
                while i + count < data.len() && data[i + count] == 0 && count < 255
                    invariant
                        1 <= count <= 255,
                        i < data@.len(),
                        i + count <= data@.len(),
                        data@[i as int] == 0,
                        forall|j: int| i <= j < i + count ==> data@[j] == data@[i as int],
                    decreases data@.len() - i - count,
                {
                    count = count + 1;
                }

                proof {
                    lemma_run_len_bounds(data@, i0);
                    if count < 255 {
                        lemma_run_len_from_prefix(data@, i0, count as int);
                    } else {
                        lemma_run_len_at_least(data@, i0, 255);
                    }
                    assert(capped_run(data@, i0) == count as int);
                }

                if count >= 4 {
                    compressed.push(0);
                    compressed.push(count as u8);
                    i = i + count;
                    proof {
                        assert(compressed@ =~= pre + seq![0u8, count as u8]);
                        assert(zero_encode_from(data@, i0) == seq![0u8, count as u8]
                            + zero_encode_from(data@, i as int));
                        assert(pre + (seq![0u8, count as u8] + zero_encode_from(data@, i as int))
                            =~= compressed@ + zero_encode_from(data@, i as int));
                    }
                } else {
                    compressed.push(0);
                    compressed.push(1);
                    i = i + 1;
                    proof {
                        assert(compressed@ =~= pre + seq![0u8, 1u8]);
                        assert(zero_encode_from(data@, i0) == seq![0u8, 1u8] + zero_encode_from(
                            data@,
                            i as int,
                        ));
                        assert(pre + (seq![0u8, 1u8] + zero_encode_from(data@, i as int))
                            =~= compressed@ + zero_encode_from(data@, i as int));
                    }
                }
            }
        }

        proof {
            assert(compressed@ + zero_encode_from(data@, data@.len() as int) =~= compressed@);
        }
        Ok(compressed)
    }

    fn decompress(&self, data: &[u8]) -> (r: Result<Vec<u8>, CompressionError>) {
        let mut decompressed: Vec<u8> = Vec::new();
        let mut i: usize = 0;

        while i < data.len()
            invariant
                i <= data@.len(),
                match zero_decode_from(data@, i as int) {
                    Some(rest) => zero_decode_from(data@, 0) == Some(decompressed@ + rest),
                    None => zero_decode_from(data@, 0) is None,
                },
            decreases data@.len() - i,
        {
            let ghost pre = decompressed@;
            let current = data[i];

            if current != 0 {
                decompressed.push(current);
                proof {
                    match zero_decode_from(data@, i + 1) {
                        Some(rest) => {
                            assert(decompressed@ + rest =~= pre + (seq![data@[i as int]] + rest));
                        },
                        None => {},
                    }
                }
                i = i + 1;
            } else {
                if i + 1 >= data.len() {
                    return Err(CompressionError::new(ErrorKind::Decode));
                }
                let count = data[i + 1];

                let mut c: u8 = 0;
                while c < count
                    invariant
                        c <= count,
                        decompressed@ == pre + Seq::new(c as nat, |q: int| 0u8),
                    decreases count - c,
                {
                    decompressed.push(0);
                    c = c + 1;
                    proof {
                        assert(pre + Seq::new(c as nat, |q: int| 0u8) =~= (pre + Seq::new(
                            (c - 1) as nat,
                            |q: int| 0u8,
                        )).push(0u8));
                    }
                }

                proof {
                    match zero_decode_from(data@, i + 2) {
                        Some(rest) => {
                            assert(decompressed@ + rest =~= pre + (Seq::new(
                                data@[i as int + 1] as nat,
                                |q: int| 0u8,
                            ) + rest));
                        },
                        None => {},
                    }
                }
                i = i + 2;
            }
        }

        proof {
            assert(decompressed@ + Seq::<u8>::empty() =~= decompressed@);
        }
        Ok(decompressed)
    }
}

/// The built-in operation set: the default pipeline registers a zero-run
/// stage followed by a run-length stage.
pub enum BuiltinOp {
    /// Zero-run elimination.
    Zero(ZeroOp),
    /// Run-length encoding.
    Rle(RleOp),
}

impl CompressionOp for BuiltinOp {
    open spec fn spec_code(&self) -> u8 {
        match self {
            BuiltinOp::Zero(op) => op.spec_code(),
            BuiltinOp::Rle(op) => op.spec_code(),
        }
    }

    open spec fn spec_can_compress(&self, data: Seq<u8>) -> bool {
        match self {
            BuiltinOp::Zero(op) => op.spec_can_compress(data),
            BuiltinOp::Rle(op) => op.spec_can_compress(data),
        }
    }

    open spec fn spec_compress(&self, data: Seq<u8>) -> Seq<u8> {
        match self {
            BuiltinOp::Zero(op) => op.spec_compress(data),
            BuiltinOp::Rle(op) => op.spec_compress(data),
        }
    }

    open spec fn spec_decompress(&self, data: Seq<u8>) -> Option<Seq<u8>> {
        match self {
            BuiltinOp::Zero(op) => op.spec_decompress(data),
            BuiltinOp::Rle(op) => op.spec_decompress(data),
        }
    }

    proof fn lemma_compress_inverts(&self, data: Seq<u8>) {
        match self {
            BuiltinOp::Zero(op) => op.lemma_compress_inverts(data),
            BuiltinOp::Rle(op) => op.lemma_compress_inverts(data),
        }
    }

    fn op_code(&self) -> (c: u8) {
        match self {
            BuiltinOp::Zero(op) => op.op_code(),
            BuiltinOp::Rle(op) => op.op_code(),
        }
    }

    fn can_compress(&self, data: &[u8]) -> (r: bool) {
        match self {
            BuiltinOp::Zero(op) => op.can_compress(data),
            BuiltinOp::Rle(op) => op.can_compress(data),
        }
    }

    fn compress(&self, data: &[u8]) -> (r: Result<Vec<u8>, CompressionError>) {
        match self {
            BuiltinOp::Zero(op) => op.compress(data),
            BuiltinOp::Rle(op) => op.compress(data),
        }
    }

    fn decompress(&self, data: &[u8]) -> (r: Result<Vec<u8>, CompressionError>) {
        match self {
            BuiltinOp::Zero(op) => op.decompress(data),
            BuiltinOp::Rle(op) => op.decompress(data),
        }
    }
}

} // verus!

