//! A sliding-window LZ77 compressor core: raw byte helpers, a ring buffer, a dictionary with
//! a mirrored tail, a hash-chain match finder and a token emitter.
use vstd::arithmetic::power2::{lemma_pow2_pos, lemma_pow2_strictly_increases, lemma_pow2_unfold, pow2};
use vstd::prelude::*;

pub mod bench;
pub mod buffer;
pub mod dict;
pub mod finder;
pub mod raw;
pub mod ringbuf;
pub mod writer;

verus! {

/// What can go wrong when configuring or driving the compressor core.
#[derive(Debug, Clone, Copy, PartialEq, Eq, Structural)]
pub enum Error {
    /// A capacity or option is outside its allowed range.
    ConfigError,
    /// A distance, length or count reaches past the valid region.
    OutOfBounds,
}

/// `n` is a power of two.
pub open spec fn is_pow2(n: nat) -> bool {
    exists|k: nat| pow2(k) == n
}

/// A byte that prints as itself: a visible ASCII character or a space.
pub open spec fn printable(b: u8) -> bool {
    32 <= b <= 126
}

/// The lowercase hexadecimal digit for `v < 16`.
pub open spec fn hex_digit_spec(v: u8) -> u8 {
    if v < 10 {
        (48 + v) as u8
    } else {
        (87 + v) as u8
    }
}

/// How `ascii_char` shows a byte: quoted when printable, else `0x` and two hex digits.
pub open spec fn ascii_char_bytes(b: u8) -> Seq<u8> {
    if printable(b) {
        seq![39u8, b, 39u8]
    } else {
        seq![48u8, 120u8, hex_digit_spec(b / 16), hex_digit_spec(b % 16)]
    }
}

/// How `ascii_buf` shows bytes: printable ones as themselves, others as `.`.
pub open spec fn ascii_buf_bytes(s: Seq<u8>) -> Seq<u8> {
    Seq::new(
        s.len(),
        |i: int|
            if printable(s[i]) {
                s[i]
            } else {
                46u8
            },
    )
}

/// The characters of ASCII bytes.
pub open spec fn ascii_chars(s: Seq<u8>) -> Seq<char> {
    Seq::new(s.len(), |i: int| (s[i] as u32) as char)
}

/// Relies on `String::from_utf8_lossy`: bytes below 128 are valid UTF-8, one character each,
/// and come back unchanged.
#[verifier::external_body]
fn string_from_ascii(v: &Vec<u8>) -> (r: String)
    requires
        forall|i: int| 0 <= i < v@.len() ==> v@[i] < 128,
    ensures
        r@ == ascii_chars(v@),
{
    String::from_utf8_lossy(v.as_slice()).into_owned()
}

/// The lowercase hexadecimal digit for `v`.
fn hex_digit(v: u8) -> (r: u8)
    requires
        v < 16,
    ensures
        r == hex_digit_spec(v),
{
    if v < 10 {
        48 + v
    } else {
        87 + v
    }
}

/// Shows a byte: quoted when printable (`'a'`), else in hexadecimal (`0x0a`).
pub fn ascii_char(b: u8) -> (r: String)
    ensures
        r@ == ascii_chars(ascii_char_bytes(b)),
{
    let mut v: Vec<u8> = Vec::new();
    if 32 <= b && b <= 126 {
        v.push(39);
        v.push(b);
        v.push(39);
    } else {
        v.push(48);
        v.push(120);
        v.push(hex_digit(b / 16));
        v.push(hex_digit(b % 16));
    }
    assert(v@ =~= ascii_char_bytes(b));
    string_from_ascii(&v)
}

/// Shows bytes as text: printable ones as themselves, every other one as `.`.
pub fn ascii_buf(bytes: &[u8]) -> (r: String)
    ensures
        r@ == ascii_chars(ascii_buf_bytes(bytes@)),
{
    let mut v: Vec<u8> = Vec::new();
    let mut i: usize = 0;
    while i < bytes.len()
        invariant
            i <= bytes@.len(),
            v@ == ascii_buf_bytes(bytes@.subrange(0, i as int)),
        decreases bytes@.len() - i,
    {
        let b = bytes[i];
        if 32 <= b && b <= 126 {
            v.push(b);
        } else {
            v.push(46);
        }
        assert(v@ =~= ascii_buf_bytes(bytes@.subrange(0, i + 1)));
        i = i + 1;
    }
    assert(bytes@.subrange(0, bytes@.len() as int) =~= bytes@);
    string_from_ascii(&v)
}

/// Doubling from one: the smallest power of two that is at least `n`, unless doubling would
/// leave `usize`, in which case the largest power of two below `n`.
fn pow2_ceiling(n: usize) -> (r: (usize, Ghost<nat>))
    ensures
        r.0 == pow2(r.1@),
        r.0 >= n || r.0 > usize::MAX / 2,
        r.1@ == 0 || pow2((r.1@ - 1) as nat) < n,
{
    let mut p: usize = 1;
    let ghost mut k: nat = 0;
    assert(pow2(0) == 1) by {
        lemma_pow2_unfold(1);
        vstd::arithmetic::power2::lemma2_to64();
    }
    while p < n && p <= usize::MAX / 2
        invariant
            p == pow2(k),
            k == 0 || pow2((k - 1) as nat) < n,
        decreases usize::MAX - p,
    {
        proof {
            lemma_pow2_unfold(k + 1);
            lemma_pow2_pos(k);
        }
        p = p * 2;
        proof {
            k = k + 1;
        }
    }
    (p, Ghost(k))
}

/// Whether `n` is a power of two.
pub fn is_power_of_two(n: usize) -> (r: bool)
    ensures
        r == is_pow2(n as nat),
{
    let (p, Ghost(k)) = pow2_ceiling(n);
    if p == n {
        return true;
    }
    proof {
        if is_pow2(n as nat) {
            let j = choose|j: nat| pow2(j) == n;
            if p > n {
                if k <= j {
                    if k < j {
                        lemma_pow2_strictly_increases(k, j);
                    }
                }
                assert(k > j);
                if k - 1 > j {
                    lemma_pow2_strictly_increases(j, (k - 1) as nat);
                }
                assert(false);
            } else {
                if j <= k {
                    if j < k {
                        lemma_pow2_strictly_increases(j, k);
                    }
                }
                lemma_pow2_unfold(k + 1);
                if k + 1 < j {
                    lemma_pow2_strictly_increases(k + 1, j);
                }
                assert(false);
            }
        }
    }
    false
}

/// The smallest power of two that is at least `n`.
pub fn next_power_of_two(n: usize) -> (r: usize)
    requires
        n <= usize::MAX / 2 + 1,
    ensures
        is_pow2(r as nat),
        n <= r,
        forall|q: nat| is_pow2(q) && n <= q ==> r <= q,
{
    let (p, Ghost(k)) = pow2_ceiling(n);
    proof {
        assert forall|q: nat| is_pow2(q) && n <= q implies p <= q by {
            let j = choose|j: nat| pow2(j) == q;
            if q < p {
                if k <= j {
                    if k < j {
                        lemma_pow2_strictly_increases(k, j);
                    }
                }
                if k - 1 > j {
                    lemma_pow2_strictly_increases(j, (k - 1) as nat);
                }
            }
        }
    }
    p
}

} // verus!
