//! Reading, writing and comparing raw byte buffers.
use vstd::bytes::*;
use vstd::prelude::*;

use crate::buffer::{ReadU64, WriteU64};
use crate::Error;

verus! {

/// `k` is the length of the common prefix of `a` and `b`: the first `k` bytes agree, and
/// either one of them ends at `k` or they differ there.
pub open spec fn is_prefix_len(a: Seq<u8>, b: Seq<u8>, k: int) -> bool {
    &&& 0 <= k <= a.len()
    &&& k <= b.len()
    &&& forall|i: int| 0 <= i < k ==> a[i] == b[i]
    &&& (k < a.len() && k < b.len() ==> a[k] != b[k])
}

/// The number of leading bytes on which `a` and `b` agree, counted one byte at a time.
pub open spec fn prefix_len(a: Seq<u8>, b: Seq<u8>) -> nat
    decreases a.len(),
{
    if a.len() == 0 || b.len() == 0 || a[0] != b[0] {
        0
    } else {
        1 + prefix_len(a.drop_first(), b.drop_first())
    }
}

/// The common prefix length is unique: it is the byte-by-byte count.
pub proof fn lemma_prefix_len_unique(a: Seq<u8>, b: Seq<u8>, k: int)
    requires
        is_prefix_len(a, b, k),
    ensures
        k == prefix_len(a, b),
    decreases a.len(),
{
    if a.len() == 0 || b.len() == 0 || a[0] != b[0] {
        if k > 0 {
            assert(a[0] == b[0]);
        }
    } else {
        assert(is_prefix_len(a.drop_first(), b.drop_first(), k - 1)) by {
            assert forall|i: int| 0 <= i < k - 1 implies a.drop_first()[i] == b.drop_first()[i] by {
                assert(a[i + 1] == b[i + 1]);
            }
        }
        lemma_prefix_len_unique(a.drop_first(), b.drop_first(), k - 1);
    }
}

/// The byte-by-byte count is a common prefix length.
pub proof fn lemma_prefix_len_is_prefix(a: Seq<u8>, b: Seq<u8>)
    ensures
        is_prefix_len(a, b, prefix_len(a, b) as int),
    decreases a.len(),
{
    if !(a.len() == 0 || b.len() == 0 || a[0] != b[0]) {
        lemma_prefix_len_is_prefix(a.drop_first(), b.drop_first());
        let k = prefix_len(a, b) as int;
        assert forall|i: int| 0 <= i < k implies a[i] == b[i] by {
            if i > 0 {
                assert(a.drop_first()[i - 1] == b.drop_first()[i - 1]);
            }
        }
        if k < a.len() && k < b.len() {
            assert(a.drop_first()[k - 1] != b.drop_first()[k - 1]);
        }
    }
}

/// Two eight-byte groups are equal exactly when their little-endian values are.
pub proof fn lemma_le_bytes_injective(a: Seq<u8>, b: Seq<u8>)
    requires
        a.len() == 8,
        b.len() == 8,
    ensures
        (spec_u64_from_le_bytes(a) == spec_u64_from_le_bytes(b)) <==> (a == b),
{
    lemma_auto_spec_u64_to_from_le_bytes();
    if spec_u64_from_le_bytes(a) == spec_u64_from_le_bytes(b) {
        assert(spec_u64_to_le_bytes(spec_u64_from_le_bytes(a)) == a);
        assert(spec_u64_to_le_bytes(spec_u64_from_le_bytes(b)) == b);
    }
}

/// Reads the eight bytes `buf[index..index + 8]` as a little-endian `u64`. Fails with
/// `OutOfBounds` when they run past the end of `buf`.
pub fn read_u64(buf: &[u8], index: usize) -> (r: Result<u64, Error>)
    ensures
        r is Err <==> index + 8 > buf@.len(),
        r is Err ==> r == Err::<u64, Error>(Error::OutOfBounds),
        r matches Ok(v) ==> v == spec_u64_from_le_bytes(buf@.subrange(index as int, index + 8)),
{
    if index > buf.len() || buf.len() - index < 8 {
        return Err(Error::OutOfBounds);
    }
    Ok(buf.read_u64_unchecked(index))
}

/// Writes `src` in little-endian order into `buf[index..index + 8]`. Fails with
/// `OutOfBounds`, changing nothing, when those bytes run past the end of `buf`.
pub fn write_u64(buf: &mut [u8], index: usize, src: u64) -> (r: Result<(), Error>)
    ensures
        r is Err <==> index + 8 > old(buf)@.len(),
        r is Err ==> r == Err::<(), Error>(Error::OutOfBounds) && final(buf)@ == old(buf)@,
        final(buf)@.len() == old(buf)@.len(),
        r is Ok ==> final(buf)@.subrange(index as int, index + 8) == spec_u64_to_le_bytes(src),
        forall|i: int|
            0 <= i < old(buf)@.len() && !(index <= i < index + 8) ==> final(buf)@[i] == old(buf)@[i],
{
    if index > buf.len() || buf.len() - index < 8 {
        return Err(Error::OutOfBounds);
    }
    buf.write_u64_unchecked(src, index);
    Ok(())
}

/// Length of the common prefix of `lhs` and `rhs`, compared eight bytes at a time while whole
/// groups remain, then byte by byte.
pub fn match_length(lhs: &[u8], rhs: &[u8]) -> (r: usize)
    ensures
        is_prefix_len(lhs@, rhs@, r as int),
        r == prefix_len(lhs@, rhs@),
{
    let max_len = if lhs.len() < rhs.len() {
        lhs.len()
    } else {
        rhs.len()
    };
    let chunk_bytes: usize = max_len - max_len % 8;
    let mut len: usize = 0;
    while len < chunk_bytes
        invariant
            len <= chunk_bytes <= max_len,
            len % 8 == 0,
            chunk_bytes % 8 == 0,
            max_len <= lhs@.len(),
            max_len <= rhs@.len(),
            forall|i: int| 0 <= i < len ==> lhs@[i] == rhs@[i],
        decreases chunk_bytes - len,
    {
        assert(len + 8 <= chunk_bytes);
        let a = lhs.read_u64_unchecked(len);
        let b = rhs.read_u64_unchecked(len);
        if a != b {
            break;
        }
        proof {
            let sa = lhs@.subrange(len as int, len + 8);
            let sb = rhs@.subrange(len as int, len + 8);
            lemma_le_bytes_injective(sa, sb);
            assert forall|i: int| len <= i < len + 8 implies lhs@[i] == rhs@[i] by {
                assert(sa[i - len] == sb[i - len]);
            }
        }
        len += 8;
    }
    while len < max_len
        invariant
            len <= max_len,
            max_len == lhs@.len() || max_len == rhs@.len(),
            max_len <= lhs@.len(),
            max_len <= rhs@.len(),
            forall|i: int| 0 <= i < len ==> lhs@[i] == rhs@[i],
        decreases max_len - len,
    {
        if lhs[len] != rhs[len] {
            proof {
                lemma_prefix_len_unique(lhs@, rhs@, len as int);
            }
            return len;
        }
        len += 1;
    }
    proof {
        lemma_prefix_len_unique(lhs@, rhs@, len as int);
    }
    len
}

} // verus!
