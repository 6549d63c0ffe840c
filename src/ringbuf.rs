//! A circular byte buffer with power-of-two capacity, addressed by an ever-growing virtual
//! position, so that bytes that have been overwritten are told apart from those still held.
use vstd::arithmetic::power2::{lemma_pow2_pos, pow2};
use vstd::bytes::*;
use vstd::prelude::*;
use vstd::slice::slice_subrange;

use crate::buffer::{Buffer, Distance, ReadU64, WriteU64};
use crate::dict::{lemma_mod_advance, wrap_at};
use crate::{is_pow2, next_power_of_two};

verus! {

/// The last `m` bytes of `s`.
pub open spec fn keep_last(s: Seq<u8>, m: int) -> Seq<u8> {
    s.subrange(s.len() - m, s.len() as int)
}

/// The `len` bytes of `w` sit just behind physical index `h` in a ring of `cap` slots.
pub open spec fn ring_holds(buf: Seq<u8>, cap: int, h: int, len: int, w: Seq<u8>) -> bool {
    &&& w.len() == len
    &&& forall|k: int| 0 <= k < len ==> buf[wrap_at(h + cap - len + k, cap)] == #[trigger] w[k]
}

/// Writing `b` forward from `h` without passing the end of the ring keeps the last bytes
/// held, now behind `h + b.len()`.
proof fn lemma_ring_advance(
    old_buf: Seq<u8>,
    new_buf: Seq<u8>,
    cap: int,
    h: int,
    len: int,
    w: Seq<u8>,
    b: Seq<u8>,
)
    requires
        0 <= h,
        h + b.len() <= cap,
        0 <= len <= cap,
        old_buf.len() == cap,
        new_buf.len() == cap,
        ring_holds(old_buf, cap, h, len, w),
        forall|j: int| 0 <= j < b.len() ==> new_buf[h + j] == #[trigger] b[j],
        forall|x: int|
            0 <= x < cap && !(h <= x < h + b.len()) ==> #[trigger] new_buf[x] == old_buf[x],
    ensures
        ({
            let l2 = if len + b.len() < cap {
                len + b.len()
            } else {
                cap
            };
            ring_holds(new_buf, cap, h + b.len(), l2, keep_last(w + b, l2))
        }),
{
    let m = b.len() as int;
    let l2 = if len + m < cap {
        len + m
    } else {
        cap
    };
    let w2 = keep_last(w + b, l2);
    assert forall|k: int| 0 <= k < l2 implies new_buf[wrap_at(h + m + cap - l2 + k, cap)]
        == #[trigger] w2[k] by {
        let t = len + m - l2 + k;
        assert(w2[k] == (w + b)[t]);
        if t >= len {
            assert((w + b)[t] == b[t - len]);
        } else {
            assert((w + b)[t] == w[t]);
            assert(old_buf[wrap_at(h + cap - len + t, cap)] == w[t]);
        }
    }
}

/// A ring at `h == cap` is the same ring at `h == 0`.
proof fn lemma_ring_rehead(buf: Seq<u8>, cap: int, len: int, w: Seq<u8>)
    requires
        0 <= len <= cap,
        ring_holds(buf, cap, cap, len, w),
    ensures
        ring_holds(buf, cap, 0, len, w),
{
    assert forall|k: int| 0 <= k < len implies buf[wrap_at(0 + cap - len + k, cap)] == #[trigger] w[k] by {
        assert(buf[wrap_at(cap + cap - len + k, cap)] == w[k]);
    }
}

/// A ring buffer of bytes.
pub struct RingBuf {
    buf: Vec<u8>,
    head: usize,
    len: usize,
    n: usize,
    window: Ghost<Seq<u8>>,
}

impl RingBuf {
    /// Capacity a power of two, `head` the virtual position modulo the capacity, and the
    /// held bytes just behind `head`.
    pub closed spec fn wf(&self) -> bool {
        let cap = self.buf@.len() as int;
        &&& is_pow2(cap as nat)
        &&& 0 < cap
        &&& self.head < cap
        &&& self.head == (self.n as int) % cap
        &&& self.len <= cap
        &&& self.len <= self.n
        &&& ring_holds(self.buf@, cap, self.head as int, self.len as int, self.window@)
    }

    /// The bytes still held, oldest first.
    pub closed spec fn view(&self) -> Seq<u8> {
        self.window@
    }

    /// Virtual position of the next byte to be written.
    pub closed spec fn pos(&self) -> nat {
        self.n as nat
    }

    /// Physical capacity.
    pub closed spec fn cap(&self) -> nat {
        self.buf@.len()
    }

    /// The byte at virtual position `p`, when it is still held.
    pub open spec fn at_pos(&self, p: int) -> Option<u8> {
        if self.pos() - self.view().len() <= p < self.pos() {
            Some(self.view()[p - (self.pos() - self.view().len())])
        } else {
            None
        }
    }

    /// An empty ring of at least `capacity` bytes: the smallest power of two not below it.
    pub fn with_capacity(capacity: usize) -> (r: RingBuf)
        requires
            capacity <= usize::MAX / 2 + 1,
        ensures
            r.wf(),
            is_pow2(r.cap()),
            capacity <= r.cap(),
            forall|q: nat| is_pow2(q) && capacity <= q ==> r.cap() <= q,
            r.pos() == 0,
            r.view() == Seq::<u8>::empty(),
    {
        RingBuf::with_capacity_at(capacity, 0)
    }

    /// An empty ring of at least `capacity` bytes whose next byte takes virtual position
    /// `start`; positions before it are absent.
    pub fn with_capacity_at(capacity: usize, start: usize) -> (r: RingBuf)
        requires
            capacity <= usize::MAX / 2 + 1,
        ensures
            r.wf(),
            is_pow2(r.cap()),
            capacity <= r.cap(),
            forall|q: nat| is_pow2(q) && capacity <= q ==> r.cap() <= q,
            r.pos() == start,
            r.view() == Seq::<u8>::empty(),
    {
        let cap = next_power_of_two(capacity);
        proof {
            lemma_pow2_pos(choose|k: nat| pow2(k) == cap);
        }
        RingBuf { buf: vec![0u8; cap], head: start % cap, len: 0, n: start, window: Ghost(Seq::empty()) }
    }

    /// Physical capacity.
    pub fn capacity(&self) -> (r: usize)
        ensures
            r == self.cap(),
    {
        self.buf.len()
    }

    /// Number of bytes held.
    pub fn len(&self) -> (r: usize)
        requires
            self.wf(),
        ensures
            r == self.view().len(),
    {
        self.len
    }

    /// Bytes of room between `head` and the physical end of the ring.
    fn remaining_ahead(&self) -> (r: usize)
        requires
            self.wf(),
        ensures
            r == self.cap() - self.head,
            r > 0,
    {
        self.buf.len() - self.head
    }

    /// `index` taken modulo the capacity.
    fn wrap(&self, index: usize) -> (r: usize)
        requires
            self.wf(),
        ensures
            r == (index as int) % (self.cap() as int),
    {
        index % self.buf.len()
    }

    /// Physical index `offset` places after `head`.
    fn wrap_offset(&self, offset: usize) -> (r: usize)
        requires
            self.wf(),
            offset <= self.cap() - self.head,
        ensures
            r == wrap_at(self.head + offset, self.cap() as int),
    {
        let cap = self.buf.len();
        if offset >= cap - self.head {
            offset - (cap - self.head)
        } else {
            self.head + offset
        }
    }

    /// Physical index `back` places behind `head`.
    fn wrap_offset_back(&self, back: usize) -> (r: usize)
        requires
            self.wf(),
            back <= self.cap(),
        ensures
            r == wrap_at(self.head + self.cap() - back, self.cap() as int),
    {
        let cap = self.buf.len();
        if back > self.head {
            cap - (back - self.head)
        } else {
            self.head - back
        }
    }

    /// Appends all of `bytes`, overwriting the oldest bytes once the ring is full. Bytes that
    /// the same write would overwrite again are skipped, so at most two contiguous runs are
    /// copied, eight bytes at a time within each. Returns the number written.
    pub fn write(&mut self, bytes: &[u8]) -> (r: usize)
        requires
            old(self).wf(),
            old(self).pos() + bytes@.len() <= usize::MAX,
        ensures
            final(self).wf(),
            r == bytes@.len(),
            final(self).cap() == old(self).cap(),
            final(self).pos() == old(self).pos() + bytes@.len(),
            final(self).view() == keep_last(
                old(self).view() + bytes@,
                if old(self).view().len() + bytes@.len() < old(self).cap() {
                    (old(self).view().len() + bytes@.len()) as int
                } else {
                    old(self).cap() as int
                },
            ),
    {
        let total = bytes.len();
        let cap = self.buf.len();
        let mut done: usize = 0;
        let ghost mut l_base: int = old(self).view().len() as int;
        let ghost mut d_base: int = 0;
        assert(old(self).view() + bytes@.subrange(0, 0) =~= old(self).view());
        assert(keep_last(old(self).view(), old(self).view().len() as int) =~= old(self).view());
        if total > cap {
            // the first `total - cap` bytes would be overwritten by this same write
            let skip = total - cap;
            self.n = self.n + skip;
            self.head = self.n % cap;
            self.len = 0;
            self.window = Ghost(Seq::empty());
            done = skip;
            proof {
                l_base = 0;
                d_base = skip as int;
                assert(keep_last(old(self).view() + bytes@.subrange(0, done as int), 0) =~= Seq::<
                    u8,
                >::empty());
            }
        }
        while done < total
            invariant
                self.wf(),
                done <= total,
                total == bytes@.len(),
                cap == self.buf@.len(),
                cap == old(self).cap(),
                self.n == old(self).n + done,
                old(self).n + total <= usize::MAX,
                self.window@ == keep_last(
                    old(self).view() + bytes@.subrange(0, done as int),
                    self.len as int,
                ),
                0 <= d_base <= done,
                0 <= l_base,
                total - d_base <= cap,
                d_base == 0 ==> l_base == old(self).view().len(),
                d_base > 0 ==> l_base == 0 && total > cap && d_base == total - cap,
                self.len == if l_base + done - d_base < cap {
                    l_base + done - d_base
                } else {
                    cap as int
                },
            decreases total - done,
        {
            let room = self.remaining_ahead();
            let ahead = if total - done < room {
                total - done
            } else {
                room
            };
            let chunk_bytes = ahead - ahead % 8;
            let h = self.head;
            let new_head = self.wrap_offset(ahead);
            let ghost buf0 = self.buf@;
            let ghost s0 = *self;
            let mut i: usize = 0;
            while i < chunk_bytes
                invariant
                    i <= chunk_bytes <= ahead,
                    i % 8 == 0,
                    chunk_bytes % 8 == 0,
                    h + ahead <= cap,
                    done + ahead <= total,
                    total == bytes@.len(),
                    self.buf@.len() == cap,
                    buf0.len() == cap,
                    forall|j: int| 0 <= j < i ==> self.buf@[h + j] == #[trigger] bytes@[done + j],
                    forall|x: int|
                        0 <= x < cap && !(h <= x < h + i) ==> #[trigger] self.buf@[x] == buf0[x],
                    self.head == h,
                    self.head == s0.head,
                    self.len == s0.len,
                    self.n == s0.n,
                    self.window == s0.window,
                    s0.buf@ == buf0,
                decreases chunk_bytes - i,
            {
                assert(i + 8 <= chunk_bytes);
                let v = bytes.read_u64_unchecked(done + i);
                self.buf.as_mut_slice().write_u64_unchecked(v, h + i);
                proof {
                    lemma_auto_spec_u64_to_from_le_bytes();
                    let src = bytes@.subrange(done + i, done + i + 8);
                    assert(spec_u64_to_le_bytes(spec_u64_from_le_bytes(src)) == src);
                    assert forall|j: int| 0 <= j < i + 8 implies self.buf@[h + j]
                        == #[trigger] bytes@[done + j] by {
                        if j >= i {
                            assert(self.buf@.subrange(h + i, h + i + 8)[j - i] == src[j - i]);
                        }
                    }
                }
                i = i + 8;
            }
            while i < ahead
                invariant
                    i <= ahead,
                    h + ahead <= cap,
                    done + ahead <= total,
                    total == bytes@.len(),
                    self.buf@.len() == cap,
                    buf0.len() == cap,
                    forall|j: int| 0 <= j < i ==> self.buf@[h + j] == #[trigger] bytes@[done + j],
                    forall|x: int|
                        0 <= x < cap && !(h <= x < h + i) ==> #[trigger] self.buf@[x] == buf0[x],
                    self.head == h,
                    self.head == s0.head,
                    self.len == s0.len,
                    self.n == s0.n,
                    self.window == s0.window,
                    s0.buf@ == buf0,
                decreases ahead - i,
            {
                self.buf.set(h + i, bytes[done + i]);
                i = i + 1;
            }
            proof {
                let seg = bytes@.subrange(done as int, done + ahead);
                assert forall|j: int| 0 <= j < seg.len() implies self.buf@[h + j] == #[trigger] seg[j] by {
                    assert(self.buf@[h + j] == bytes@[done + j]);
                }
                lemma_ring_advance(
                    buf0,
                    self.buf@,
                    cap as int,
                    h as int,
                    self.len as int,
                    self.window@,
                    seg,
                );
                let l2 = if self.len + ahead < cap {
                    self.len + ahead
                } else {
                    cap as int
                };
                let w2 = keep_last(self.window@ + seg, l2);
                if h + ahead == cap {
                    lemma_ring_rehead(self.buf@, cap as int, l2, w2);
                }
                lemma_mod_advance(self.n as int, cap as int, ahead as int);
                let all = old(self).view() + bytes@.subrange(0, done + ahead);
                let prev = old(self).view() + bytes@.subrange(0, done as int);
                assert(all =~= prev + seg);
                assert(w2 =~= keep_last(all, l2));
                self.window = Ghost(w2);
            }
            self.head = new_head;
            self.len = if self.len + ahead < cap {
                self.len + ahead
            } else {
                cap
            };
            self.n = self.n + ahead;
            done = done + ahead;
        }
        assert(bytes@.subrange(0, total as int) =~= bytes@);
        total
    }

    /// Nothing to do: writes land in the ring at once.
    pub fn flush(&mut self)
        ensures
            *final(self) == *old(self),
    {
    }

    /// The byte at virtual position `p`, which must still be held.
    pub fn get_unchecked(&self, p: usize) -> (r: u8)
        requires
            self.wf(),
            self.at_pos(p as int) is Some,
        ensures
            Some(r) == self.at_pos(p as int),
    {
        let cap = self.buf.len();
        proof {
            let j = self.n - p;
            lemma_mod_advance(p as int, cap as int, j);
            assert(self.buf@[wrap_at(self.head + cap - self.len + (p - (self.n - self.len)), cap as int)]
                == self.window@[p - (self.n - self.len)]);
        }
        self.buf[self.wrap(p)]
    }

    /// The byte at virtual position `p`, which must still be held.
    pub fn index(&self, p: usize) -> (r: u8)
        requires
            self.wf(),
            self.at_pos(p as int) is Some,
        ensures
            Some(r) == self.at_pos(p as int),
    {
        self.get_unchecked(p)
    }

    /// The byte `d` places behind the newest one, when it is still held.
    pub fn at_distance(&self, d: Distance) -> (r: Option<u8>)
        requires
            self.wf(),
        ensures
            d.0 < self.view().len() ==> r == Some(self.view()[self.view().len() - 1 - d.0]),
            d.0 >= self.view().len() ==> r is None,
    {
        if d.0 >= self.len {
            return None;
        }
        let i = self.wrap_offset_back(d.0 + 1);
        proof {
            let k = self.len - 1 - d.0;
            assert(self.buf@[wrap_at(self.head + self.buf@.len() - self.len + k, self.buf@.len() as int)]
                == self.window@[k]);
        }
        Some(self.buf[i])
    }

    /// The held bytes as two slices, oldest first: their concatenation is everything held.
    pub fn as_slices(&self) -> (r: (&[u8], &[u8]))
        requires
            self.wf(),
        ensures
            r.0@ + r.1@ == self.view(),
            r.1@.len() == if self.view().len() <= self.pos() % self.cap() {
                self.view().len()
            } else {
                self.pos() % self.cap()
            },
    {
        let buf = self.buf.as_slice();
        let h = self.head;
        let cap = self.buf.len();
        let len = self.len;
        if len > h {
            let a = slice_subrange(buf, cap - (len - h), cap);
            let b = slice_subrange(buf, 0, h);
            proof {
                assert forall|k: int| 0 <= k < len implies (a@ + b@)[k] == self.window@[k] by {
                    assert(self.buf@[wrap_at(h + cap - len + k, cap as int)] == self.window@[k]);
                }
                assert(a@ + b@ =~= self.window@);
            }
            (a, b)
        } else {
            let a = slice_subrange(buf, h, h);
            let b = slice_subrange(buf, h - len, h);
            proof {
                assert forall|k: int| 0 <= k < len implies (a@ + b@)[k] == self.window@[k] by {
                    assert(self.buf@[wrap_at(h + cap - len + k, cap as int)] == self.window@[k]);
                }
                assert(a@ + b@ =~= self.window@);
            }
            (a, b)
        }
    }
}

/// The bytes a ring holds, read from the oldest; the ring cannot change while it is
/// borrowed.
pub struct Slice<'a> {
    ring: &'a RingBuf,
}

impl<'a> Slice<'a> {
    /// The ring behind the view is well formed.
    pub closed spec fn ok(&self) -> bool {
        self.ring.wf()
    }

    /// The bytes in view, oldest first.
    pub closed spec fn view(&self) -> Seq<u8> {
        self.ring.view()
    }

    /// Number of bytes in view.
    pub fn len(&self) -> (r: usize)
        requires
            self.ok(),
        ensures
            r == self.view().len(),
    {
        self.ring.len
    }

    /// The byte `i` places after the oldest, if there is one.
    pub fn get(&self, i: usize) -> (r: Option<u8>)
        requires
            self.ok(),
        ensures
            i < self.view().len() ==> r == Some(self.view()[i as int]),
            i >= self.view().len() ==> r is None,
    {
        if i >= self.ring.len {
            return None;
        }
        Some(self.ring.get_unchecked(self.ring.n - self.ring.len + i))
    }
}

impl RingBuf {
    /// A view of the bytes held.
    pub fn slice(&self) -> (r: Slice<'_>)
        requires
            self.wf(),
        ensures
            r.ok(),
            r.view() == self.view(),
    {
        Slice { ring: self }
    }
}

impl Buffer for RingBuf {
    open spec fn spec_get(&self, index: int) -> Option<u8> {
        self.at_pos(index)
    }

    open spec fn spec_ok(&self) -> bool {
        self.wf()
    }

    /// The byte at virtual position `index`, or `None` when it was never written or has
    /// been overwritten.
    fn get(&self, index: usize) -> (r: Option<u8>) {
        if index >= self.n || index < self.n - self.len {
            return None;
        }
        Some(self.get_unchecked(index))
    }
}

} // verus!
