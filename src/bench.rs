//! Fixtures for comparing ways of matching a query against a buffer: either in place, where
//! the query has been copied in front of the buffer's head, or by reading the buffer up to the
//! head and then the query itself.
use vstd::bytes::*;
use vstd::prelude::*;
use vstd::slice::slice_subrange;

use crate::dict::{extend, lemma_extend_len};
use crate::buffer::{ReadU64, WriteU64};
use crate::raw::{lemma_prefix_len_unique, prefix_len};

verus! {

/// The relation between a query and the buffer that a fixture sets up.
#[derive(Copy, Clone, Debug)]
pub enum MatchType {
    /// No match at `(distance)`.
    NoMatch(usize),
    /// A match at `(distance, length)` that does not reach the head.
    Simple(usize, usize),
    /// A match at `(distance, length)` that runs past the head into the query itself.
    Overlapping(usize, usize),
}

/// A fixture under construction: the query size and the kind of match wanted.
pub struct BufferTest {
    query_size: Option<usize>,
    match_type: Option<MatchType>,
}

/// A buffer with a head position and, optionally, the length of a query copied in front of
/// the head.
pub struct Buffer {
    pub buf: Vec<u8>,
    pub head: usize,
    pub la_len: Option<usize>,
}

impl Default for BufferTest {
    fn default() -> (r: BufferTest)
        ensures
            r.size() is None,
            r.kind() is None,
    {
        BufferTest { query_size: None, match_type: None }
    }
}

impl BufferTest {
    /// The query size chosen so far.
    pub closed spec fn size(&self) -> Option<usize> {
        self.query_size
    }

    /// The kind of match chosen so far.
    pub closed spec fn kind(&self) -> Option<MatchType> {
        self.match_type
    }

    /// A fixture with nothing chosen.
    pub fn new() -> (r: BufferTest)
        ensures
            r.size() is None,
            r.kind() is None,
    {
        BufferTest::default()
    }

    /// Sets the query size.
    pub fn query_size(self, query_size: usize) -> (r: BufferTest)
        ensures
            r.size() == Some(query_size),
            r.kind() == self.kind(),
    {
        BufferTest { query_size: Some(query_size), match_type: self.match_type }
    }

    /// Asks for a query that does not match at `distance`.
    pub fn no_match(self, distance: usize) -> (r: BufferTest)
        ensures
            r.size() == self.size(),
            r.kind() == Some(MatchType::NoMatch(distance)),
    {
        BufferTest { query_size: self.query_size, match_type: Some(MatchType::NoMatch(distance)) }
    }

    /// Asks for a match at `distance` of `length` bytes that stays behind the head.
    pub fn simple_match(self, distance: usize, length: usize) -> (r: BufferTest)
        ensures
            r.size() == self.size(),
            r.kind() == Some(MatchType::Simple(distance, length)),
    {
        BufferTest {
            query_size: self.query_size,
            match_type: Some(MatchType::Simple(distance, length)),
        }
    }

    /// Asks for a match at `distance` of `length` bytes that runs on into the query.
    pub fn overlapping_match(self, distance: usize, length: usize) -> (r: BufferTest)
        ensures
            r.size() == self.size(),
            r.kind() == Some(MatchType::Overlapping(distance, length)),
    {
        BufferTest {
            query_size: self.query_size,
            match_type: Some(MatchType::Overlapping(distance, length)),
        }
    }

    /// What `setup` needs of the fixture and the buffer: both choices made, the match
    /// source inside the buffer, and the byte after the match inside it too.
    pub open spec fn fits(&self, buffer: &Buffer) -> bool {
        match (self.size(), self.kind()) {
            (Some(size), Some(MatchType::NoMatch(d))) => {
                &&& size >= 1
                &&& d + 1 <= buffer.head < buffer.buf@.len()
            },
            (Some(size), Some(MatchType::Simple(d, l))) => {
                &&& l <= size
                &&& l <= d + 1 <= buffer.head
                &&& buffer.head - d - 1 + l < buffer.buf@.len()
            },
            (Some(size), Some(MatchType::Overlapping(d, l))) => {
                &&& l <= size
                &&& d + 1 < l
                &&& d + 1 <= buffer.head
                &&& buffer.head - d - 1 + l < buffer.buf@.len()
            },
            _ => false,
        }
    }

    /// Builds the query and returns it with the distance and length of the match it
    /// carries: (0, 0) for no match. The first byte after the match is made to differ from
    /// the buffer byte that follows the match source.
    pub fn setup(&self, buffer: &Buffer) -> (r: (usize, usize, Vec<u8>))
        requires
            self.fits(buffer),
        ensures
            r.2@.len() == self.size()->Some_0,
            ({
                let b = buffer.buf@;
                let h = buffer.head as int;
                match self.kind()->Some_0 {
                    MatchType::NoMatch(d) => {
                        &&& r.0 == 0 && r.1 == 0
                        &&& r.2@[0] == b[h - d - 1] ^ 0xff
                    },
                    MatchType::Simple(d, l) => {
                        &&& r.0 == d && r.1 == l
                        &&& r.2@.subrange(0, l as int) == b.subrange(h - d - 1, h - d - 1 + l)
                        &&& l < r.2@.len() ==> r.2@[l as int] == b[h - d - 1 + l] ^ 0xff
                    },
                    MatchType::Overlapping(d, l) => {
                        &&& r.0 == d && r.1 == l
                        &&& b.subrange(h - d - 1, h) + r.2@.subrange(0, l as int) == extend(
                            b.subrange(h - d - 1, h),
                            d as nat,
                            l as nat,
                        )
                        &&& l < r.2@.len() ==> r.2@[l as int] == b[h - d - 1 + l] ^ 0xff
                    },
                }
            }),
    {
        let size = match self.query_size {
            Some(s) => s,
            None => 0,
        };
        let mut query: Vec<u8> = vec![0u8; size];
        let head = buffer.head;
        let b = &buffer.buf;
        let blen = b.len();
        match self.match_type {
            Some(MatchType::Simple(d, l)) => {
                let pos = head - d - 1;
                let mut i: usize = 0;
                while i < l
                    invariant
                        i <= l <= size,
                        query@.len() == size,
                        pos + l < b@.len(),
                        b@.len() == blen,
                        forall|j: int| 0 <= j < i ==> #[trigger] query@[j] == b@[pos + j],
                    decreases l - i,
                {
                    query.set(i, b[pos + i]);
                    i = i + 1;
                }
                if size > l {
                    query.set(l, b[pos + l] ^ 0xff);
                }
                assert(query@.subrange(0, l as int) =~= b@.subrange(pos as int, pos + l));
                (d, l, query)
            },
            Some(MatchType::Overlapping(d, l)) => {
                let pos = head - d - 1;
                let mut i: usize = 0;
                while i < l
                    invariant
                        i <= l <= size,
                        query@.len() == size,
                        pos + l < b@.len(),
                        pos + d + 1 == head,
                        d + 1 < l,
                        b@.len() == blen,
                        b@.subrange(pos as int, head as int) + query@.subrange(0, i as int) == extend(
                            b@.subrange(pos as int, head as int),
                            d as nat,
                            i as nat,
                        ),
                    decreases l - i,
                {
                    let ghost pat = b@.subrange(pos as int, head as int);
                    let ghost e = pat + query@.subrange(0, i as int);
                    proof {
                        lemma_extend_len(pat, d as nat, i as nat);
                        assert(e.len() - d - 1 == i);
                    }
                    let v = if i <= d {
                        b[pos + i]
                    } else {
                        query[i - d - 1]
                    };
                    query.set(i, v);
                    proof {
                        assert(pat + query@.subrange(0, i + 1) =~= e.push(v));
                    }
                    i = i + 1;
                }
                let ghost done = query@;
                if size > l {
                    query.set(l, b[pos + l] ^ 0xff);
                }
                assert(query@.subrange(0, l as int) =~= done.subrange(0, l as int));
                (d, l, query)
            },
            Some(MatchType::NoMatch(d)) => {
                query.set(0, b[head - d - 1] ^ 0xff);
                (0, 0, query)
            },
            None => (0, 0, query),
        }
    }
}

impl Buffer {
    /// A zeroed buffer of `size` bytes with its head at 0 and no query.
    pub fn new(size: usize) -> (r: Buffer)
        ensures
            r.buf@.len() == size,
            forall|i: int| 0 <= i < size ==> r.buf@[i] == 0,
            r.head == 0,
            r.la_len is None,
    {
        Buffer { buf: vec![0u8; size], head: 0, la_len: None }
    }

    /// Copies `query` in front of the head, as much of it as fits.
    pub fn copy_la(&mut self, query: &[u8])
        requires
            old(self).head <= old(self).buf@.len(),
        ensures
            ({
                let h = old(self).head as int;
                let m = if query@.len() < old(self).buf@.len() - h {
                    query@.len() as int
                } else {
                    old(self).buf@.len() - h
                };
                &&& final(self).buf@.len() == old(self).buf@.len()
                &&& forall|i: int| 0 <= i < m ==> #[trigger] final(self).buf@[h + i] == query@[i]
                &&& forall|i: int|
                    0 <= i < old(self).buf@.len() && !(h <= i < h + m) ==> #[trigger] final(self).buf@[i]
                        == old(self).buf@[i]
            }),
            final(self).head == old(self).head,
            final(self).la_len == old(self).la_len,
    {
        let h = self.head;
        let room = self.buf.len() - h;
        let m = if query.len() < room {
            query.len()
        } else {
            room
        };
        let mut i: usize = 0;
        while i < m
            invariant
                i <= m,
                h + m <= self.buf@.len(),
                self.buf@.len() <= usize::MAX,
                m <= query@.len(),
                self.buf@.len() == old(self).buf@.len(),
                self.head == h,
                h == old(self).head,
                self.la_len == old(self).la_len,
                forall|j: int| 0 <= j < i ==> #[trigger] self.buf@[h + j] == query@[j],
                forall|j: int|
                    0 <= j < self.buf@.len() && !(h <= j < h + i) ==> #[trigger] self.buf@[j]
                        == old(self).buf@[j],
            decreases m - i,
        {
            self.buf.set(h + i, query[i]);
            i = i + 1;
        }
    }
}

/// Reads the eight bytes at `index` as a little-endian `u64`.
pub fn read_unaligned_u64(buf: &[u8], index: usize) -> (r: u64)
    requires
        index + 8 <= buf@.len(),
    ensures
        r == spec_u64_from_le_bytes(buf@.subrange(index as int, index + 8)),
{
    buf.read_u64_unchecked(index)
}

/// Reads the eight bytes at `index` as a little-endian `u64`.
pub fn read_u64_inline(buf: &[u8], index: usize) -> (r: u64)
    requires
        index + 8 <= buf@.len(),
    ensures
        r == spec_u64_from_le_bytes(buf@.subrange(index as int, index + 8)),
{
    buf.read_u64_unchecked(index)
}

/// Reads the byte at `index`.
pub fn read_u8_inline(buf: &[u8], index: usize) -> (r: u8)
    requires
        index < buf@.len(),
    ensures
        r == buf@[index as int],
{
    buf[index]
}

/// Writes `src` in little-endian order at `dst[index..index + 8]`.
pub fn write_u64_inline(src: u64, dst: &mut [u8], index: usize)
    requires
        index + 8 <= old(dst)@.len(),
    ensures
        final(dst)@.len() == old(dst)@.len(),
        final(dst)@.subrange(index as int, index + 8) == spec_u64_to_le_bytes(src),
        forall|i: int|
            0 <= i < old(dst)@.len() && !(index <= i < index + 8) ==> final(dst)@[i] == old(dst)@[i],
{
    dst.write_u64_unchecked(src, index)
}

/// Reads the byte at `index`.
pub fn read_byte(buf: &[u8], index: usize) -> (r: u8)
    requires
        index < buf@.len(),
    ensures
        r == buf@[index as int],
{
    buf[index]
}

/// Reads `head[index]` below `split` and `tail[index - split]` from there on: the two
/// slices read as one, cut at `split`.
pub fn read_byte_segmented(head: &[u8], tail: &[u8], split: usize, index: usize) -> (r: u8)
    requires
        index < split ==> index < head@.len(),
        index >= split ==> index - split < tail@.len(),
    ensures
        r == if index >= split {
            tail@[index - split]
        } else {
            head@[index as int]
        },
        split <= head@.len() ==> r == (head@.subrange(0, split as int) + tail@)[index as int],
{
    if index >= split {
        tail[index - split]
    } else {
        head[index]
    }
}

/// Match length at `distance` against the query `query`, reading the buffer up to its head
/// and then the query itself, so that a match may run on into the bytes it produces.
pub fn external_compare(buf: &Buffer, distance: usize, query: &[u8]) -> (r: usize)
    requires
        distance + 1 <= buf.head <= buf.buf@.len(),
        buf.head + query@.len() <= usize::MAX,
    ensures
        r == prefix_len(
            buf.buf@.subrange(buf.head - distance - 1, buf.head as int) + query@,
            query@,
        ),
{
    let max_len = query.len();
    let pos = buf.head - distance - 1;
    let split = buf.head - pos;
    let match_buf = slice_subrange(buf.buf.as_slice(), pos, buf.buf.len());
    let ghost src = buf.buf@.subrange(pos as int, buf.head as int) + query@;
    let mut len: usize = 0;
    while len < max_len
        invariant
            len <= max_len,
            max_len == query@.len(),
            split <= match_buf@.len(),
            pos + split == buf.head,
            pos == buf.head - distance - 1,
            buf.head <= buf.buf@.len(),
            match_buf@.subrange(0, split as int) == buf.buf@.subrange(pos as int, buf.head as int),
            src == buf.buf@.subrange(pos as int, buf.head as int) + query@,
            src.len() == split + max_len,
            forall|i: int| 0 <= i < len ==> src[i] == query@[i],
        decreases max_len - len,
    {
        if read_byte_segmented(match_buf, query, split, len) != read_byte(query, len) {
            proof {
                lemma_prefix_len_unique(src, query@, len as int);
            }
            return len;
        }
        len = len + 1;
    }
    proof {
        lemma_prefix_len_unique(src, query@, len as int);
    }
    len
}

/// Match length at `distance` against the query copied in front of the head, compared in
/// place over `la_len` bytes.
pub fn internal_compare(buf: &Buffer, distance: usize) -> (r: usize)
    requires
        buf.la_len is Some,
        distance + 1 <= buf.head,
        buf.head + buf.la_len->Some_0 <= buf.buf@.len(),
    ensures
        ({
            let h = buf.head as int;
            let m = buf.la_len->Some_0 as int;
            r == prefix_len(
                buf.buf@.subrange(h - distance - 1, h - distance - 1 + m),
                buf.buf@.subrange(h, h + m),
            )
        }),
{
    let max_len = match buf.la_len {
        Some(m) => m,
        None => 0,
    };
    let pos = buf.head - distance - 1;
    let split = buf.head - pos;
    let b = slice_subrange(buf.buf.as_slice(), pos, buf.buf.len());
    let ghost lhs = buf.buf@.subrange(pos as int, pos + max_len);
    let ghost rhs = buf.buf@.subrange(buf.head as int, buf.head + max_len);
    let mut len: usize = 0;
    while len < max_len
        invariant
            len <= max_len,
            split + max_len <= b@.len(),
            b@ == buf.buf@.subrange(pos as int, buf.buf@.len() as int),
            pos + split == buf.head,
            pos == buf.head - distance - 1,
            max_len == buf.la_len->Some_0,
            distance + 1 <= buf.head,
            b@.len() <= usize::MAX,
            lhs == buf.buf@.subrange(pos as int, pos + max_len),
            rhs == buf.buf@.subrange(buf.head as int, buf.head + max_len),
            buf.head + max_len <= buf.buf@.len(),
            forall|i: int| 0 <= i < len ==> lhs[i] == rhs[i],
        decreases max_len - len,
    {
        if read_byte(b, split + len) != read_byte(b, len) {
            proof {
                assert(lhs[len as int] == b@[len as int]);
                assert(rhs[len as int] == b@[split + len]);
                lemma_prefix_len_unique(lhs, rhs, len as int);
            }
            return len;
        }
        proof {
            assert(lhs[len as int] == b@[len as int]);
            assert(rhs[len as int] == b@[split + len]);
        }
        len = len + 1;
    }
    proof {
        lemma_prefix_len_unique(lhs, rhs, len as int);
    }
    len
}

} // verus!
