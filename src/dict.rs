//! The sliding-window dictionary: a ring of `dict_cap` bytes holding the committed history
//! behind `head` and the lookahead in front of it, followed by a mirror of its first `la_cap`
//! bytes so that forward reads of up to `la_cap` bytes never need a wrap test.
use vstd::arithmetic::div_mod::{lemma_fundamental_div_mod, lemma_fundamental_div_mod_converse};
use vstd::prelude::*;
use vstd::slice::slice_subrange;

use crate::raw::{self, is_prefix_len, lemma_prefix_len_unique, prefix_len};
use crate::{is_power_of_two, is_pow2, Error};

verus! {

/// `x` taken back into `[0, cap)` by at most one subtraction.
pub open spec fn wrap_at(x: int, cap: int) -> int {
    if x < cap {
        x
    } else {
        x - cap
    }
}

/// Physical index of the byte `r` positions after `head` (before it, for negative `r`).
pub open spec fn phys(head: int, cap: int, r: int) -> int {
    if head + r >= 0 {
        head + r
    } else {
        head + r + cap
    }
}

/// Distance from `head` of ring slot `slot`, taken around the ring.
pub open spec fn slot_distance(head: int, cap: int, slot: int) -> int {
    if head > slot {
        head - slot - 1
    } else {
        head + cap - slot - 1
    }
}

/// `s` with `len` bytes appended one at a time, each a copy of the byte `dist + 1` places
/// before the end of what has been built so far.
pub open spec fn extend(s: Seq<u8>, dist: nat, len: nat) -> Seq<u8>
    decreases len,
{
    if len == 0 {
        s
    } else {
        let e = extend(s, dist, (len - 1) as nat);
        e.push(e[e.len() - dist - 1])
    }
}

/// Advancing a count by `k` moves its remainder by `k`, wrapped once.
pub proof fn lemma_mod_advance(n: int, m: int, k: int)
    requires
        m > 0,
        n >= 0,
        0 <= k,
        n % m + k < 2 * m,
    ensures
        (n + k) % m == wrap_at(n % m + k, m),
{
    lemma_fundamental_div_mod(n, m);
    let q = n / m;
    let r = n % m;
    assert(n + k == q * m + (r + k)) by (nonlinear_arith)
        requires
            n == m * q + r,
    ;
    if r + k < m {
        lemma_fundamental_div_mod_converse(n + k, m, q, r + k);
    } else {
        assert(n + k == (q + 1) * m + (r + k - m)) by (nonlinear_arith)
            requires
                n + k == q * m + (r + k),
        ;
        lemma_fundamental_div_mod_converse(n + k, m, q + 1, r + k - m);
    }
}

/// Extending in two steps at one distance is extending once by the sum.
pub proof fn lemma_extend_additive(s: Seq<u8>, dist: nat, a: nat, b: nat)
    ensures
        extend(extend(s, dist, a), dist, b) == extend(s, dist, a + b),
    decreases b,
{
    if b > 0 {
        lemma_extend_additive(s, dist, a, (b - 1) as nat);
    }
}

/// Extending keeps what was there and adds `len` bytes.
pub proof fn lemma_extend_len(s: Seq<u8>, dist: nat, len: nat)
    ensures
        extend(s, dist, len).len() == s.len() + len,
        extend(s, dist, len).subrange(0, s.len() as int) == s,
    decreases len,
{
    if len > 0 {
        lemma_extend_len(s, dist, (len - 1) as nat);
        let e = extend(s, dist, (len - 1) as nat);
        assert(e.push(e[e.len() - dist - 1]).subrange(0, s.len() as int) =~= e.subrange(
            0,
            s.len() as int,
        ));
    }
}

/// When the bytes `dist + 1` back from the end of `s`, read onwards, agree with `t` for
/// `len` places, extending `s` appends exactly `t[..len]`.
pub proof fn lemma_extend_matches(s: Seq<u8>, dist: nat, t: Seq<u8>, len: nat)
    requires
        dist < s.len(),
        len <= t.len(),
        forall|i: int|
            0 <= i < len ==> (s + t)[s.len() - dist - 1 + i] == #[trigger] t[i],
    ensures
        extend(s, dist, len) == s + t.subrange(0, len as int),
    decreases len,
{
    if len > 0 {
        lemma_extend_matches(s, dist, t, (len - 1) as nat);
        let e = extend(s, dist, (len - 1) as nat);
        let i = len - 1;
        assert(e[e.len() - dist - 1] == t[i]) by {
            assert((s + t)[s.len() - dist - 1 + i] == t[i]);
            if s.len() - dist - 1 + i < s.len() {
            } else {
                assert(e[e.len() - dist - 1] == t[i - dist - 1]);
            }
        }
        assert(e.push(t[i]) =~= s + t.subrange(0, len as int));
    }
}

/// The history ring with its lookahead.
pub struct Dictionary {
    buf: Vec<u8>,
    dict_cap: usize,
    la_cap: usize,
    head: usize,
    dict_size: usize,
    la_size: usize,
    committed: Ghost<Seq<u8>>,
}

impl Dictionary {
    /// The structural invariant: sizes in range, `head` where the committed count puts it,
    /// the history where `head` says, and the mirror intact.
    pub closed spec fn wf(&self) -> bool {
        let cap = self.dict_cap as int;
        let n = self.committed@.len();
        &&& is_pow2(self.dict_cap as nat)
        &&& 0 < self.la_cap <= self.dict_cap
        &&& self.buf@.len() == self.dict_cap + self.la_cap
        &&& self.dict_cap + self.la_cap <= usize::MAX
        &&& self.head < self.dict_cap
        &&& self.head == (n as int) % (self.dict_cap as int)
        &&& self.dict_size + self.la_size <= self.dict_cap
        &&& self.la_size <= self.la_cap
        &&& self.dict_size <= n
        &&& forall|i: int| 0 <= i < self.la_cap ==> #[trigger] self.buf@[cap + i] == self.buf@[i]
        &&& forall|k: int|
            0 <= k < self.dict_size ==> self.buf@[wrap_at(self.head + cap - self.dict_size + k, cap)]
                == #[trigger] self.committed@[n - self.dict_size + k]
    }

    /// Every byte ever committed into the history, oldest first.
    pub closed spec fn stream(&self) -> Seq<u8> {
        self.committed@
    }

    /// The valid history, oldest first; its last byte is at distance 0.
    pub closed spec fn hist(&self) -> Seq<u8> {
        let n = self.committed@.len();
        self.committed@.subrange(n - self.dict_size, n as int)
    }

    /// The bytes loaded into the lookahead and not yet committed.
    pub closed spec fn la(&self) -> Seq<u8> {
        self.buf@.subrange(self.head as int, self.head + self.la_size)
    }

    /// Capacity of the history ring.
    pub closed spec fn cap(&self) -> nat {
        self.dict_cap as nat
    }

    /// Capacity of the lookahead.
    pub closed spec fn la_cap_spec(&self) -> nat {
        self.la_cap as nat
    }

    /// Physical index at which the next committed byte goes.
    pub closed spec fn head_spec(&self) -> nat {
        self.head as nat
    }

    /// The physical storage: the ring followed by its mirrored prefix.
    pub closed spec fn raw(&self) -> Seq<u8> {
        self.buf@
    }

    /// History and lookahead, as one sequence.
    pub open spec fn content(&self) -> Seq<u8> {
        self.hist() + self.la()
    }

    /// The bytes that a match at `distance` reads: from that distance up to `head`, then on
    /// through the lookahead.
    pub open spec fn source(&self, distance: nat) -> Seq<u8> {
        let h = self.hist();
        h.subrange(h.len() - distance - 1, h.len() as int) + self.la()
    }

    /// The byte at `distance` behind `head`.
    pub open spec fn at(&self, distance: nat) -> u8 {
        self.hist()[self.hist().len() - 1 - distance]
    }

    /// What holds in every well-formed state: `head` is the committed count modulo the
    /// capacity, history and lookahead fit in the ring together, the lookahead fits in its
    /// capacity, and the bytes after the ring copy its first `la_cap` bytes.
    pub proof fn lemma_wf_properties(&self)
        requires
            self.wf(),
        ensures
            self.head_spec() == self.stream().len() % self.cap(),
            self.head_spec() < self.cap(),
            self.hist().len() + self.la().len() <= self.cap(),
            self.la().len() <= self.la_cap_spec() <= self.cap(),
            self.raw().len() == self.cap() + self.la_cap_spec(),
            forall|i: int|
                0 <= i < self.la_cap_spec() ==> #[trigger] self.raw()[self.cap() + i]
                    == self.raw()[i],
            is_pow2(self.cap()),
            self.cap() + self.la_cap_spec() <= usize::MAX,
            self.hist().len() <= self.stream().len(),
            self.hist() == self.stream().subrange(
                self.stream().len() - self.hist().len(),
                self.stream().len() as int,
            ),
    {
    }

    /// The content byte at position `r` relative to `head` sits at `phys(head, cap, r)`.
    proof fn lemma_phys(&self, r: int)
        requires
            self.wf(),
            -(self.dict_size as int) <= r < self.la_size,
        ensures
            0 <= phys(self.head as int, self.dict_cap as int, r) < self.dict_cap + self.la_cap,
            self.buf@[phys(self.head as int, self.dict_cap as int, r)] == self.content()[self.dict_size + r],
    {
        let cap = self.dict_cap as int;
        let n = self.committed@.len();
        if r < 0 {
            let k = self.dict_size + r;
            assert(self.buf@[wrap_at(self.head + cap - self.dict_size + k, cap)]
                == self.committed@[n - self.dict_size + k]);
            assert(self.content()[k] == self.hist()[k]);
        } else {
            assert(self.content()[self.dict_size + r] == self.la()[r]);
        }
    }

    /// Reading forward from the physical position of `start` (behind `head`) lands on the
    /// content byte `start + i` places from `head`, through the mirror where the position
    /// lies past the ring.
    proof fn lemma_forward_read(&self, start: int, i: int)
        requires
            self.wf(),
            -(self.dict_cap as int) <= start < 0,
            0 <= i < self.la_cap,
            -(self.dict_size as int) <= start + i < self.la_size,
        ensures
            phys(self.head as int, self.dict_cap as int, start) + i < self.buf@.len(),
            self.buf@[phys(self.head as int, self.dict_cap as int, start) + i]
                == self.content()[self.dict_size + start + i],
    {
        let cap = self.dict_cap as int;
        let r = start + i;
        self.lemma_phys(r);
        if self.head + start < 0 && self.head + r >= 0 {
            assert(self.buf@[cap + (self.head + r)] == self.buf@[self.head + r]);
        }
    }

    /// The match source at `distance` is the content from `distance + 1` places before
    /// `head` onwards.
    proof fn lemma_source_content(&self, distance: int, i: int)
        requires
            self.wf(),
            0 <= distance < self.dict_size,
            0 <= i < self.la_size + distance + 1,
        ensures
            self.source(distance as nat)[i] == self.content()[self.dict_size - distance - 1 + i],
    {
        let h = self.hist();
        if i <= distance {
            assert(self.source(distance as nat)[i] == h[h.len() - distance - 1 + i]);
        } else {
            assert(self.source(distance as nat)[i] == self.la()[i - distance - 1]);
        }
    }

    /// Builds an empty dictionary with a history ring of `dict_cap` bytes and a lookahead of
    /// `la_cap` bytes. Fails with `ConfigError` unless `dict_cap` is a power of two,
    /// `0 < la_cap <= dict_cap`, and the ring and its mirror together can be indexed.
    pub fn with_capacity(dict_cap: usize, la_cap: usize) -> (r: Result<Dictionary, Error>)
        ensures
            r is Err <==> !(is_pow2(dict_cap as nat) && 0 < la_cap <= dict_cap && dict_cap + la_cap
                <= usize::MAX),
            r is Err ==> r == Err::<Dictionary, Error>(Error::ConfigError),
            r matches Ok(d) ==> {
                &&& d.wf()
                &&& d.cap() == dict_cap
                &&& d.la_cap_spec() == la_cap
                &&& d.stream() == Seq::<u8>::empty()
                &&& d.hist() == Seq::<u8>::empty()
                &&& d.la() == Seq::<u8>::empty()
                &&& d.head_spec() == 0
            },
    {
        if !is_power_of_two(dict_cap) || la_cap == 0 || la_cap > dict_cap {
            return Err(Error::ConfigError);
        }
        if la_cap > usize::MAX - dict_cap {
            return Err(Error::ConfigError);
        }
        let buf: Vec<u8> = vec![0u8; dict_cap + la_cap];
        let d = Dictionary {
            buf,
            dict_cap,
            la_cap,
            head: 0,
            dict_size: 0,
            la_size: 0,
            committed: Ghost(Seq::empty()),
        };
        assert(d.la() =~= Seq::<u8>::empty());
        assert(d.hist() =~= Seq::<u8>::empty());
        proof {
            vstd::arithmetic::div_mod::lemma_small_mod(0, dict_cap as nat);
        }
        Ok(d)
    }

    /// Appends `b` to the history, with the lookahead empty.
    fn push_byte(&mut self, b: u8)
        requires
            old(self).wf(),
            old(self).la_size == 0,
        ensures
            final(self).wf(),
            final(self).la_size == 0,
            final(self).committed@ == old(self).committed@.push(b),
            final(self).dict_size == if old(self).dict_size < old(self).dict_cap {
                old(self).dict_size + 1
            } else {
                old(self).dict_size as int
            },
            final(self).head == wrap_at(old(self).head + 1, old(self).dict_cap as int),
            final(self).dict_cap == old(self).dict_cap,
            final(self).la_cap == old(self).la_cap,
    {
        let ghost old_self = *self;
        let h = self.head;
        self.store(h, b);
        self.head = if h + 1 == self.dict_cap {
            0
        } else {
            h + 1
        };
        if self.dict_size < self.dict_cap {
            self.dict_size = self.dict_size + 1;
        }
        self.committed = Ghost(self.committed@.push(b));
        proof {
            let cap = self.dict_cap as int;
            let n = old_self.committed@.len() as int;
            lemma_mod_advance(n, cap, 1);
            let ds = old_self.dict_size as int;
            let ds2 = self.dict_size as int;
            assert forall|k: int| 0 <= k < ds2 implies self.buf@[wrap_at(
                self.head + cap - ds2 + k,
                cap,
            )] == #[trigger] self.committed@[n + 1 - ds2 + k] by {
                if k < ds2 - 1 {
                    let kk = k + 1 + ds - ds2;
                    assert(old_self.buf@[wrap_at(old_self.head + cap - ds + kk, cap)]
                        == old_self.committed@[n - ds + kk]);
                }
            }
            assert(self.la() =~= Seq::<u8>::empty());
        }
    }

    /// Appends `b` to the lookahead, giving up the oldest history byte when the ring is full.
    fn push_lookahead(&mut self, b: u8)
        requires
            old(self).wf(),
            old(self).la_size < old(self).la_cap,
        ensures
            final(self).wf(),
            final(self).la() == old(self).la().push(b),
            final(self).la_size == old(self).la_size + 1,
            final(self).committed == old(self).committed,
            final(self).head == old(self).head,
            final(self).dict_cap == old(self).dict_cap,
            final(self).la_cap == old(self).la_cap,
            final(self).dict_size == if old(self).dict_size + old(self).la_size
                == old(self).dict_cap {
                old(self).dict_size - 1
            } else {
                old(self).dict_size as int
            },
    {
        let ghost old_self = *self;
        if self.dict_size + self.la_size == self.dict_cap {
            self.dict_size = self.dict_size - 1;
        }
        let p = self.head + self.la_size;
        let q = if p >= self.dict_cap {
            p - self.dict_cap
        } else {
            p
        };
        self.store(q, b);
        self.la_size = self.la_size + 1;
        proof {
            let cap = self.dict_cap as int;
            let n = old_self.committed@.len() as int;
            let ds = old_self.dict_size as int;
            let ds2 = self.dict_size as int;
            assert forall|k: int| 0 <= k < ds2 implies self.buf@[wrap_at(
                self.head + cap - ds2 + k,
                cap,
            )] == #[trigger] self.committed@[n - ds2 + k] by {
                let kk = k + ds - ds2;
                assert(old_self.buf@[wrap_at(old_self.head + cap - ds + kk, cap)]
                    == old_self.committed@[n - ds + kk]);
            }
            assert(self.la() =~= old_self.la().push(b));
        }
    }

    /// The byte at `distance` behind `head`.
    pub fn byte_at_distance(&self, distance: usize) -> (r: u8)
        requires
            self.wf(),
            distance < self.hist().len(),
        ensures
            r == self.at(distance as nat),
    {
        let pos = if self.head > distance {
            self.head - distance - 1
        } else {
            self.dict_cap - distance - 1 + self.head
        };
        proof {
            self.lemma_phys(-(distance as int) - 1);
        }
        self.buf[pos]
    }

    /// Discards the lookahead.
    pub fn clear_lookahead(&mut self)
        requires
            old(self).wf(),
        ensures
            final(self).wf(),
            final(self).la() == Seq::<u8>::empty(),
            final(self).stream() == old(self).stream(),
            final(self).hist() == old(self).hist(),
            final(self).head_spec() == old(self).head_spec(),
            final(self).cap() == old(self).cap(),
            final(self).la_cap_spec() == old(self).la_cap_spec(),
    {
        self.la_size = 0;
        assert(self.la() =~= Seq::<u8>::empty());
    }

    /// Discards the lookahead, then appends all of `bytes` to the history.
    pub fn add_to_dictionary(&mut self, bytes: &[u8])
        requires
            old(self).wf(),
        ensures
            final(self).wf(),
            final(self).stream() == old(self).stream() + bytes@,
            final(self).la() == Seq::<u8>::empty(),
            final(self).hist().len() == if old(self).hist().len() + bytes@.len() < old(self).cap() {
                old(self).hist().len() + bytes@.len()
            } else {
                old(self).cap()
            },
            final(self).cap() == old(self).cap(),
            final(self).la_cap_spec() == old(self).la_cap_spec(),
    {
        self.la_size = 0;
        let ghost s0 = self.committed@;
        let ghost ds0 = self.dict_size;
        let mut i: usize = 0;
        while i < bytes.len()
            invariant
                self.wf(),
                self.la_size == 0,
                i <= bytes@.len(),
                self.committed@ == s0 + bytes@.subrange(0, i as int),
                self.dict_size == if ds0 + i < self.dict_cap {
                    ds0 + i
                } else {
                    self.dict_cap as int
                },
                self.dict_cap == old(self).dict_cap,
                self.la_cap == old(self).la_cap,
            decreases bytes@.len() - i,
        {
            self.push_byte(bytes[i]);
            assert(s0 + bytes@.subrange(0, i + 1) =~= (s0 + bytes@.subrange(0, i as int)).push(
                bytes@[i as int],
            ));
            i = i + 1;
        }
        assert(bytes@.subrange(0, bytes@.len() as int) =~= bytes@);
        assert(self.la() =~= Seq::<u8>::empty());
    }

    /// Loads as many of `bytes` as fit into the lookahead and returns how many that was. The
    /// history gives up its oldest bytes where the lookahead now needs their room.
    pub fn add_to_lookahead(&mut self, bytes: &[u8]) -> (r: usize)
        requires
            old(self).wf(),
        ensures
            final(self).wf(),
            r == if bytes@.len() < old(self).la_cap_spec() - old(self).la().len() {
                bytes@.len() as int
            } else {
                old(self).la_cap_spec() - old(self).la().len()
            },
            final(self).la() == old(self).la() + bytes@.subrange(0, r as int),
            final(self).stream() == old(self).stream(),
            final(self).hist().len() == if old(self).hist().len() <= old(self).cap()
                - final(self).la().len() {
                old(self).hist().len() as int
            } else {
                old(self).cap() - final(self).la().len()
            },
            final(self).head_spec() == old(self).head_spec(),
            final(self).cap() == old(self).cap(),
            final(self).la_cap_spec() == old(self).la_cap_spec(),
    {
        let room = self.la_cap - self.la_size;
        let n = if bytes.len() < room {
            bytes.len()
        } else {
            room
        };
        let ghost la0 = self.la();
        let ghost la_size0 = self.la_size;
        let ghost ds0 = self.dict_size;
        let mut i: usize = 0;
        while i < n
            invariant
                self.wf(),
                i <= n,
                n <= bytes@.len(),
                la_size0 + n <= self.la_cap,
                self.la_size == la_size0 + i,
                self.la() == la0 + bytes@.subrange(0, i as int),
                self.committed == old(self).committed,
                self.head == old(self).head,
                self.dict_cap == old(self).dict_cap,
                self.la_cap == old(self).la_cap,
                self.dict_size == if ds0 <= self.dict_cap - self.la_size {
                    ds0 as int
                } else {
                    self.dict_cap - self.la_size
                },
            decreases n - i,
        {
            self.push_lookahead(bytes[i]);
            assert(la0 + bytes@.subrange(0, i + 1) =~= (la0 + bytes@.subrange(0, i as int)).push(
                bytes@[i as int],
            ));
            i = i + 1;
        }
        n
    }

    /// The bytes currently loaded into the lookahead.
    pub fn lookahead(&self) -> (r: &[u8])
        requires
            self.wf(),
        ensures
            r@ == self.la(),
    {
        let _len = self.buf.len();
        slice_subrange(self.buf.as_slice(), self.head, self.head + self.la_size)
    }

    /// The valid history as two slices, oldest first, whose concatenation is the history.
    pub fn dictionary(&self) -> (r: (&[u8], &[u8]))
        requires
            self.wf(),
        ensures
            r.0@ + r.1@ == self.hist(),
    {
        let buf = self.buf.as_slice();
        let h = self.head;
        let ds = self.dict_size;
        if ds <= h {
            let a = slice_subrange(buf, h, h);
            let b = slice_subrange(buf, h - ds, h);
            proof {
                assert forall|k: int| 0 <= k < ds implies b@[k] == self.hist()[k] by {
                    self.lemma_phys(k - ds);
                }
                assert(a@ + b@ =~= self.hist());
            }
            (a, b)
        } else {
            let cap = self.dict_cap;
            let a = slice_subrange(buf, cap - ds + h, cap);
            let b = slice_subrange(buf, 0, h);
            proof {
                assert forall|k: int| 0 <= k < ds implies (a@ + b@)[k] == self.hist()[k] by {
                    self.lemma_phys(k - ds);
                }
                assert(a@ + b@ =~= self.hist());
            }
            (a, b)
        }
    }

    /// Moves the first `k` lookahead bytes into the history and returns them. Only the
    /// counters change; the bytes stay where they are. Fails with `OutOfBounds`, changing
    /// nothing, when `k` exceeds the lookahead.
    pub fn commit_lookahead_bytes(&mut self, k: usize) -> (r: Result<&[u8], Error>)
        requires
            old(self).wf(),
        ensures
            final(self).wf(),
            r is Err <==> k > old(self).la().len(),
            r is Err ==> r == Err::<&[u8], Error>(Error::OutOfBounds) && *final(self) == *old(self),
            r matches Ok(s) ==> {
                &&& s@ == old(self).la().subrange(0, k as int)
                &&& final(self).stream() == old(self).stream() + s@
                &&& final(self).la() == old(self).la().subrange(k as int, old(self).la().len() as int)
                &&& final(self).hist().len() == if old(self).hist().len() + k < old(self).cap() {
                    old(self).hist().len() + k
                } else {
                    old(self).cap() as int
                }
                &&& final(self).head_spec() == wrap_at(
                    old(self).head_spec() + k,
                    old(self).cap() as int,
                )
            },
            final(self).cap() == old(self).cap(),
            final(self).la_cap_spec() == old(self).la_cap_spec(),
    {
        if k > self.la_size {
            return Err(Error::OutOfBounds);
        }
        let ghost old_self = *self;
        let h = self.head;
        let cap = self.dict_cap;
        self.head = if h + k >= cap {
            h + k - cap
        } else {
            h + k
        };
        self.dict_size = if self.dict_size + k < cap {
            self.dict_size + k
        } else {
            cap
        };
        self.la_size = self.la_size - k;
        self.committed = Ghost(self.committed@ + self.buf@.subrange(h as int, h + k));
        proof {
            let capi = cap as int;
            let n = old_self.committed@.len() as int;
            let ds = old_self.dict_size as int;
            let ds2 = self.dict_size as int;
            lemma_mod_advance(n, capi, k as int);
            assert forall|j: int| 0 <= j < ds2 implies self.buf@[wrap_at(
                self.head + capi - ds2 + j,
                capi,
            )] == #[trigger] self.committed@[n + k - ds2 + j] by {
                let r = j - ds2 + k;
                old_self.lemma_phys(r);
                if r < 0 {
                    assert(old_self.content()[ds + r] == old_self.committed@[n + r]);
                } else {
                    assert(old_self.content()[ds + r] == old_self.la()[r]);
                }
                if h + r >= capi {
                    assert(self.buf@[capi + (h + r - capi)] == self.buf@[h + r - capi]);
                }
            }
            assert forall|j: int| 0 <= j < self.la_size implies self.la()[j] == old_self.la()[k + j] by {
                if h + k >= capi {
                    assert(self.buf@[capi + (self.head + j)] == self.buf@[self.head + j]);
                }
            }
            assert(self.la() =~= old_self.la().subrange(k as int, old_self.la().len() as int));
        }
        let _len = self.buf.len();
        Ok(slice_subrange(self.buf.as_slice(), h, h + k))
    }

    /// Length of the match at `distance`: the longest prefix of the lookahead that agrees
    /// with the bytes read forward from that distance, which run on into the lookahead
    /// itself when the match is longer than `distance + 1`. Fails with `OutOfBounds` when
    /// `distance` is not within the history.
    pub fn match_length(&self, distance: usize) -> (r: Result<usize, Error>)
        requires
            self.wf(),
        ensures
            r is Err <==> distance >= self.hist().len(),
            r is Err ==> r == Err::<usize, Error>(Error::OutOfBounds),
            r matches Ok(l) ==> is_prefix_len(self.source(distance as nat), self.la(), l as int),
            r matches Ok(l) ==> l == prefix_len(self.source(distance as nat), self.la()),
    {
        if distance >= self.dict_size {
            return Err(Error::OutOfBounds);
        }
        let pos = if self.head > distance {
            self.head - distance - 1
        } else {
            self.dict_cap - distance - 1 + self.head
        };
        let la = self.la_size;
        let _len = self.buf.len();
        let buf = self.buf.as_slice();
        let a = slice_subrange(buf, pos, pos + la);
        let b = slice_subrange(buf, self.head, self.head + la);
        let l = raw::match_length(a, b);
        proof {
            let src = self.source(distance as nat);
            assert forall|i: int| 0 <= i < la implies a@[i] == src[i] by {
                self.lemma_forward_read(-(distance as int) - 1, i);
                self.lemma_source_content(distance as int, i);
            }
            assert(b@ == self.la());
            lemma_prefix_len_unique(self.source(distance as nat), self.la(), l as int);
        }
        Ok(l)
    }

    /// Copies `length` bytes, one at a time, from `distance` behind `head` onto the end of
    /// the lookahead and returns them; where the copy outruns its source it reads the bytes
    /// it has just produced. Fails with `OutOfBounds`, changing nothing, when `distance` is
    /// not within the history or the lookahead has no room for `length` more bytes.
    pub fn load_match_into_lookahead(&mut self, distance: usize, length: usize) -> (r: Result<
        &[u8],
        Error,
    >)
        requires
            old(self).wf(),
        ensures
            final(self).wf(),
            r is Err <==> (distance >= old(self).hist().len() || length + old(self).la().len()
                > old(self).la_cap_spec()),
            r is Err ==> r == Err::<&[u8], Error>(Error::OutOfBounds) && *final(self) == *old(self),
            r matches Ok(s) ==> {
                &&& old(self).content() + s@ == extend(
                    old(self).content(),
                    (distance + old(self).la().len()) as nat,
                    length as nat,
                )
                &&& final(self).la() == old(self).la() + s@
                &&& final(self).stream() == old(self).stream()
                &&& final(self).hist().len() == if old(self).hist().len() <= old(self).cap()
                    - final(self).la().len() {
                    old(self).hist().len() as int
                } else {
                    old(self).cap() - final(self).la().len()
                }
                &&& final(self).head_spec() == old(self).head_spec()
            },
            final(self).cap() == old(self).cap(),
            final(self).la_cap_spec() == old(self).la_cap_spec(),
    {
        if distance >= self.dict_size || length > self.la_cap - self.la_size {
            return Err(Error::OutOfBounds);
        }
        let ghost c0 = self.content();
        let ghost h0 = self.hist();
        let ghost ds0 = self.dict_size as int;
        let ghost la0 = self.la_size as int;
        let ghost big_d = (distance + la0) as nat;
        let pos = if self.head > distance {
            self.head - distance - 1
        } else {
            self.dict_cap - distance - 1 + self.head
        };
        let start = self.la_size;
        let mut i: usize = 0;
        while i < length
            invariant
                self.wf(),
                i <= length,
                la0 + length <= self.la_cap,
                0 <= distance < ds0,
                ds0 + la0 <= self.dict_cap,
                start == la0,
                self.la_size == la0 + i,
                pos == phys(self.head as int, self.dict_cap as int, -(distance as int) - 1),
                self.head == old(self).head,
                self.committed == old(self).committed,
                self.dict_cap == old(self).dict_cap,
                self.la_cap == old(self).la_cap,
                self.dict_size == if ds0 <= self.dict_cap - self.la_size {
                    ds0
                } else {
                    self.dict_cap - self.la_size
                },
                self.hist() == h0.subrange(ds0 - self.dict_size, ds0),
                c0 == old(self).content(),
                h0 == old(self).hist(),
                c0.len() == ds0 + la0,
                h0.len() == ds0,
                ds0 <= self.committed@.len(),
                c0 == h0 + old(self).la(),
                old(self).dict_size == ds0,
                big_d == distance + la0,
                h0 + self.la() == extend(c0, big_d, i as nat),
            decreases length - i,
        {
            let ghost r = i - distance - 1;
            let ghost e = extend(c0, big_d, i as nat);
            proof {
                self.lemma_forward_read(-(distance as int) - 1, i as int);
                lemma_extend_len(c0, big_d, i as nat);
                assert(self.content()[self.dict_size + r] == e[ds0 + r]) by {
                    if r < 0 {
                        assert(self.content()[self.dict_size + r] == self.hist()[self.dict_size + r]);
                    } else {
                        assert(self.content()[self.dict_size + r] == self.la()[r]);
                    }
                }
                assert(e.len() == c0.len() + i);
                assert(e.len() - big_d - 1 == ds0 + r);
                assert(self.buf@[pos + i] == e[e.len() - big_d - 1]);
            }
            let ghost n = self.committed@.len();
            let ghost ds_before = self.dict_size as int;
            let b = self.buf[pos + i];
            self.push_lookahead(b);
            proof {
                assert(extend(c0, big_d, (i + 1) as nat) == e.push(b));
                assert(h0 + self.la() =~= e.push(b));
                let ds = self.dict_size as int;
                assert forall|k: int| 0 <= k < ds implies self.hist()[k] == h0[ds0 - ds + k] by {
                    assert(self.hist()[k] == self.committed@[n - ds + k]);
                    assert(h0[ds0 - ds + k] == self.committed@[n - ds0 + (ds0 - ds + k)]);
                }
                assert(self.hist() =~= h0.subrange(ds0 - self.dict_size, ds0));
            }
            i = i + 1;
        }
        proof {
            lemma_extend_len(c0, big_d, length as nat);
            let s = self.la().subrange(la0, la0 + length);
            let e = extend(c0, big_d, length as nat);
            assert forall|j: int| 0 <= j < la0 implies self.la()[j] == old(self).la()[j] by {
                assert(e.subrange(0, c0.len() as int)[ds0 + j] == c0[ds0 + j]);
                assert((h0 + self.la())[ds0 + j] == self.la()[j]);
            }
            assert(self.la() =~= old(self).la() + s);
            assert(c0 + s =~= h0 + self.la());
        }
        let _len = self.buf.len();
        Ok(slice_subrange(self.buf.as_slice(), self.head + start, self.head + start + length))
    }

    /// Discards the lookahead, then copies `length` bytes, one at a time, from `distance`
    /// behind `head` onto the end of the history. Fails with `OutOfBounds`, changing nothing,
    /// when `distance` is not within the history.
    pub fn load_match_into_dictionary(&mut self, distance: usize, length: usize) -> (r: Result<
        (),
        Error,
    >)
        requires
            old(self).wf(),
        ensures
            final(self).wf(),
            r is Err <==> distance >= old(self).hist().len(),
            r is Err ==> r == Err::<(), Error>(Error::OutOfBounds) && *final(self) == *old(self),
            r is Ok ==> {
                &&& final(self).stream() == extend(old(self).stream(), distance as nat, length as nat)
                &&& final(self).la() == Seq::<u8>::empty()
                &&& final(self).hist().len() == if old(self).hist().len() + length < old(self).cap() {
                    old(self).hist().len() + length
                } else {
                    old(self).cap() as int
                }
            },
            final(self).cap() == old(self).cap(),
            final(self).la_cap_spec() == old(self).la_cap_spec(),
    {
        if distance >= self.dict_size {
            return Err(Error::OutOfBounds);
        }
        self.la_size = 0;
        let ghost s0 = self.committed@;
        let ghost ds0 = self.dict_size;
        let mut i: usize = 0;
        while i < length
            invariant
                self.wf(),
                self.la_size == 0,
                i <= length,
                distance < self.dict_size,
                self.committed@ == extend(s0, distance as nat, i as nat),
                self.dict_size == if ds0 + i < self.dict_cap {
                    ds0 + i
                } else {
                    self.dict_cap as int
                },
                self.dict_cap == old(self).dict_cap,
                self.la_cap == old(self).la_cap,
            decreases length - i,
        {
            let b = self.byte_at_distance(distance);
            self.push_byte(b);
            i = i + 1;
        }
        assert(self.la() =~= Seq::<u8>::empty());
        Ok(())
    }

    /// Distance from `head` of the byte in ring slot `slot`: 0 for the slot just behind it.
    pub fn distance(&self, slot: usize) -> (r: usize)
        requires
            self.wf(),
            slot < self.cap(),
        ensures
            r == slot_distance(self.head_spec() as int, self.cap() as int, slot as int),
            r < self.cap(),
    {
        if self.head > slot {
            self.head - slot - 1
        } else {
            self.dict_cap - slot - 1 + self.head
        }
    }

    /// Physical index at which the next committed byte goes.
    pub fn head(&self) -> (r: usize)
        ensures
            r == self.head_spec(),
    {
        self.head
    }

    /// Capacity of the history ring.
    pub fn capacity(&self) -> (r: usize)
        ensures
            r == self.cap(),
    {
        self.dict_cap
    }

    /// Number of valid history bytes.
    pub fn dict_len(&self) -> (r: usize)
        requires
            self.wf(),
        ensures
            r == self.hist().len(),
    {
        self.dict_size
    }

    /// Number of bytes in the lookahead.
    pub fn la_len(&self) -> (r: usize)
        requires
            self.wf(),
        ensures
            r == self.la().len(),
    {
        self.la_size
    }

    /// Stores `b` in ring slot `q`, and in its mirror when there is one.
    fn store(&mut self, q: usize, b: u8)
        requires
            q < old(self).dict_cap,
            old(self).la_cap <= old(self).dict_cap,
            old(self).buf@.len() == old(self).dict_cap + old(self).la_cap,
            old(self).dict_cap + old(self).la_cap <= usize::MAX,
            forall|i: int|
                0 <= i < old(self).la_cap ==> #[trigger] old(self).buf@[old(self).dict_cap + i]
                    == old(self).buf@[i],
        ensures
            final(self).buf@.len() == old(self).buf@.len(),
            final(self).buf@[q as int] == b,
            q < old(self).la_cap ==> final(self).buf@[q + old(self).dict_cap] == b,
            forall|i: int|
                0 <= i < old(self).buf@.len() && i != q && i != q + old(self).dict_cap
                    ==> final(self).buf@[i] == old(self).buf@[i],
            forall|i: int|
                0 <= i < old(self).la_cap ==> #[trigger] final(self).buf@[old(self).dict_cap + i]
                    == final(self).buf@[i],
            final(self).dict_cap == old(self).dict_cap,
            final(self).la_cap == old(self).la_cap,
            final(self).head == old(self).head,
            final(self).dict_size == old(self).dict_size,
            final(self).la_size == old(self).la_size,
            final(self).committed == old(self).committed,
    {
        self.buf.set(q, b);
        if q < self.la_cap {
            self.buf.set(q + self.dict_cap, b);
        }
    }
}

} // verus!
