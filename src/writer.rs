//! The token emitter: streams input through the dictionary's lookahead, picks a literal or a
//! repeat for each step, commits the covered bytes and records the tokens.
use vstd::prelude::*;
use vstd::slice::slice_subrange;

use crate::dict::{extend, lemma_extend_additive, lemma_extend_len, lemma_extend_matches, Dictionary};
use crate::dict::lemma_mod_advance;
use crate::finder::{best_in, best_of, chains_of, lemma_best_in, walk_in, MatchFinder};
use crate::raw::lemma_prefix_len_is_prefix;
use crate::{is_pow2, Error};

verus! {

/// One unit of compressed output.
#[derive(Debug, Clone, Copy, PartialEq, Eq, Structural)]
pub enum Token {
    /// Append `byte`.
    Literal { byte: u8 },
    /// Append `length` bytes, each copied from `distance + 1` places before the end of the
    /// output at the moment it is appended.
    Rep { distance: usize, length: usize },
}

/// Options of the compressor.
#[derive(Debug, Clone, Copy)]
pub struct Config {
    /// Capacity of the history ring; a power of two, at least 2.
    pub dict_cap: usize,
    /// Capacity of the lookahead; at least `min_match_len`, at most `dict_cap`.
    pub la_cap: usize,
    /// Shortest repeat preferred over literals; at least 1.
    pub min_match_len: usize,
}

/// The options are in range, and the ring with its mirrored tail can be indexed.
pub open spec fn config_ok(c: Config) -> bool {
    &&& is_pow2(c.dict_cap as nat)
    &&& c.dict_cap >= 2
    &&& 1 <= c.min_match_len <= c.la_cap <= c.dict_cap
    &&& c.dict_cap + c.la_cap <= usize::MAX
}

/// How many output bytes a token stands for.
pub open spec fn token_len(t: Token) -> nat {
    match t {
        Token::Literal { .. } => 1,
        Token::Rep { length, .. } => length as nat,
    }
}

/// The output after `t` is applied to `out`.
pub open spec fn apply_token(out: Seq<u8>, t: Token) -> Seq<u8> {
    match t {
        Token::Literal { byte } => out.push(byte),
        Token::Rep { distance, length } => extend(out, distance as nat, length as nat),
    }
}

/// `t` may follow the output `out`: a repeat reaches only into `out` and covers something.
pub open spec fn token_valid(out: Seq<u8>, t: Token) -> bool {
    match t {
        Token::Literal { .. } => true,
        Token::Rep { distance, length } => distance < out.len() && length > 0,
    }
}

/// The output that a token sequence reconstructs.
pub open spec fn decode(ts: Seq<Token>) -> Seq<u8>
    decreases ts.len(),
{
    if ts.len() == 0 {
        Seq::empty()
    } else {
        apply_token(decode(ts.drop_last()), ts.last())
    }
}

/// Every token of `ts` is valid after the ones before it.
pub open spec fn valid_stream(ts: Seq<Token>) -> bool
    decreases ts.len(),
{
    ts.len() == 0 || (valid_stream(ts.drop_last()) && token_valid(decode(ts.drop_last()), ts.last()))
}

/// Sum of the lengths the tokens stand for.
pub open spec fn covered_len(ts: Seq<Token>) -> nat
    decreases ts.len(),
{
    if ts.len() == 0 {
        0
    } else {
        covered_len(ts.drop_last()) + token_len(ts.last())
    }
}

/// The decoded output is as long as the tokens say.
pub proof fn lemma_decode_len(ts: Seq<Token>)
    ensures
        decode(ts).len() == covered_len(ts),
    decreases ts.len(),
{
    if ts.len() > 0 {
        lemma_decode_len(ts.drop_last());
        if let Token::Rep { distance, length } = ts.last() {
            lemma_extend_len(decode(ts.drop_last()), distance as nat, length as nat);
        }
    }
}

/// The token chosen for a step from the best candidate `best` (length, distance): a repeat
/// when one was found that is long enough, or that covers the whole lookahead while it is
/// being flushed; otherwise a literal of the first lookahead byte. Returns the token and the
/// number of lookahead bytes it covers.
pub open spec fn decide(best: (nat, Option<nat>), la: Seq<u8>, min: nat, flushing: bool) -> (
    nat,
    Token,
) {
    match best.1 {
        Some(d) => if best.0 >= min || (flushing && best.0 == la.len()) {
            (best.0, Token::Rep { distance: d as usize, length: best.0 as usize })
        } else {
            (1, Token::Literal { byte: la[0] })
        },
        None => (1, Token::Literal { byte: la[0] }),
    }
}

/// The token list after recording `t`: a repeat that continues a final repeat at the same
/// distance lengthens it (while the sum fits in `usize`); anything else is appended.
pub open spec fn push_token(ts: Seq<Token>, t: Token) -> Seq<Token> {
    if ts.len() > 0 && (match (ts.last(), t) {
        (Token::Rep { distance: d1, length: l1 }, Token::Rep { distance: d2, length: l2 }) => d1
            == d2 && l1 + l2 <= usize::MAX,
        _ => false,
    }) {
        match (ts.last(), t) {
            (Token::Rep { distance: d1, length: l1 }, Token::Rep { distance: d2, length: l2 }) => ts.drop_last().push(
                Token::Rep { distance: d1, length: (l1 + l2) as usize },
            ),
            _ => ts.push(t),
        }
    } else {
        ts.push(t)
    }
}

/// A run of the compressor as plain values: (committed bytes, lookahead, tokens so far).
/// The best candidate for the lookahead of `st` in a ring of `cap` slots: the chains are
/// those of the committed bytes, and the history is as much of them as the lookahead leaves
/// room for.
pub open spec fn run_best(st: (Seq<u8>, Seq<u8>, Seq<Token>), cap: nat) -> (nat, Option<nat>) {
    let n = st.0.len() as int;
    let ds = if n <= cap - st.1.len() {
        n
    } else {
        cap - st.1.len()
    };
    let hist = st.0.subrange(n - ds, n);
    let ch = chains_of(st.0, cap);
    let b0 = st.1[0];
    best_in(hist, st.1, walk_in(ch.1, n % (cap as int), cap as int, hist, b0, ch.0[b0 as int] as int, -1))
}

/// One step of a run: the token `decide` picks, with the bytes it covers committed.
pub open spec fn run_step(st: (Seq<u8>, Seq<u8>, Seq<Token>), cap: nat, min: nat, flushing: bool) -> (
    Seq<u8>,
    Seq<u8>,
    Seq<Token>,
) {
    let (k, t) = decide(run_best(st, cap), st.1, min, flushing);
    (st.0 + st.1.subrange(0, k as int), st.1.subrange(k as int, st.1.len() as int), push_token(st.2, t))
}

/// Steps while at least `min` bytes wait, or, when `flushing`, while any wait.
pub open spec fn run_drain(st: (Seq<u8>, Seq<u8>, Seq<Token>), cap: nat, min: nat, flushing: bool) -> (
    Seq<u8>,
    Seq<u8>,
    Seq<Token>,
)
    decreases st.1.len(),
{
    if st.1.len() == 0 || (!flushing && st.1.len() < min) {
        st
    } else {
        let (k, t) = decide(run_best(st, cap), st.1, min, flushing);
        if k == 0 || k > st.1.len() {
            st
        } else {
            run_drain(
                (
                    st.0 + st.1.subrange(0, k as int),
                    st.1.subrange(k as int, st.1.len() as int),
                    push_token(st.2, t),
                ),
                cap,
                min,
                flushing,
            )
        }
    }
}

/// Writing `bytes`: steps while `min` bytes wait, then loads as many bytes as the lookahead
/// (of `la_cap` bytes) has room for, and so on until all are loaded and stepped over.
pub open spec fn run_write(
    st: (Seq<u8>, Seq<u8>, Seq<Token>),
    bytes: Seq<u8>,
    cap: nat,
    la_cap: nat,
    min: nat,
) -> (Seq<u8>, Seq<u8>, Seq<Token>)
    decreases bytes.len(),
{
    let st1 = run_drain(st, cap, min, false);
    if bytes.len() == 0 {
        st1
    } else {
        let room = la_cap - st1.1.len();
        let n = if bytes.len() < room {
            bytes.len() as int
        } else {
            room
        };
        if n <= 0 {
            st1
        } else {
            run_write(
                (st1.0, st1.1 + bytes.subrange(0, n), st1.2),
                bytes.subrange(n, bytes.len() as int),
                cap,
                la_cap,
                min,
            )
        }
    }
}

/// The tokens that compressing `data` with `config` emits: all of it written, then flushed.
pub open spec fn compressed(config: Config, data: Seq<u8>) -> Seq<Token> {
    let st = run_write(
        (Seq::empty(), Seq::empty(), Seq::empty()),
        data,
        config.dict_cap as nat,
        config.la_cap as nat,
        config.min_match_len as nat,
    );
    run_drain(st, config.dict_cap as nat, config.min_match_len as nat, true).2
}

/// A run with fewer than `min` bytes waiting does not step unless flushing.
pub proof fn lemma_run_drained(st: (Seq<u8>, Seq<u8>, Seq<Token>), cap: nat, min: nat)
    requires
        st.1.len() < min,
    ensures
        run_drain(st, cap, min, false) == st,
{
}

/// The compressor: dictionary, match finder, option and the tokens emitted so far.
pub struct Compressor {
    dict: Dictionary,
    finder: MatchFinder,
    min_match_len: usize,
    tokens: Vec<Token>,
}

impl Compressor {
    /// Dictionary and finder well formed, the chains exactly those of the committed bytes,
    /// the option in range, and the tokens a valid stream that decodes to exactly the
    /// committed bytes.
    pub closed spec fn wf(&self) -> bool {
        &&& self.dict.wf()
        &&& self.finder.wf(self.dict.cap())
        &&& self.finder.heads() == chains_of(self.dict.stream(), self.dict.cap()).0
        &&& self.finder.links() == chains_of(self.dict.stream(), self.dict.cap()).1
        &&& self.dict.hist().len() == if self.dict.stream().len() <= self.dict.cap()
            - self.dict.la().len() {
            self.dict.stream().len() as int
        } else {
            self.dict.cap() - self.dict.la().len()
        }
        &&& 1 <= self.min_match_len <= self.dict.la_cap_spec()
        &&& valid_stream(self.tokens@)
        &&& decode(self.tokens@) == self.dict.stream()
    }

    /// Every byte accepted so far: those committed, then those still in the lookahead.
    pub closed spec fn input(&self) -> Seq<u8> {
        self.dict.stream() + self.dict.la()
    }

    /// Accepted bytes not yet covered by a token.
    pub closed spec fn pending(&self) -> Seq<u8> {
        self.dict.la()
    }

    /// The tokens emitted so far.
    pub closed spec fn emitted(&self) -> Seq<Token> {
        self.tokens@
    }

    /// The run this compressor is in: committed bytes, lookahead, tokens.
    pub closed spec fn state(&self) -> (Seq<u8>, Seq<u8>, Seq<Token>) {
        (self.dict.stream(), self.dict.la(), self.tokens@)
    }

    /// Capacity of the history ring.
    pub closed spec fn cap(&self) -> nat {
        self.dict.cap()
    }

    /// Capacity of the lookahead.
    pub closed spec fn la_cap(&self) -> nat {
        self.dict.la_cap_spec()
    }

    /// The finder's best candidate is the one the run model gives.
    proof fn lemma_best_match(&self)
        requires
            self.wf(),
            self.pending().len() > 0,
        ensures
            self.best_match() == run_best(self.state(), self.cap()),
    {
        self.dict.lemma_wf_properties();
        let b0 = self.dict.la()[0];
        self.finder.lemma_walk_in(self.dict, b0, self.finder.heads()[b0 as int] as int, -1);
        lemma_best_in(
            self.dict,
            self.finder.walk(self.dict, b0, self.finder.heads()[b0 as int] as int, -1),
        );
    }

    /// The `min_match_len` option.
    pub closed spec fn min_len(&self) -> nat {
        self.min_match_len as nat
    }

    /// The best candidate the match finder offers for the current lookahead.
    pub closed spec fn best_match(&self) -> (nat, Option<nat>) {
        let b0 = self.dict.la()[0];
        best_of(self.dict, self.finder.walk(self.dict, b0, self.finder.heads()[b0 as int] as int, -1))
    }

    /// The emitted tokens decode to the committed input, and with nothing pending, to all
    /// of it.
    pub proof fn lemma_round_trip(&self)
        requires
            self.wf(),
        ensures
            valid_stream(self.emitted()),
            decode(self.emitted()) + self.pending() == self.input(),
            self.pending().len() == 0 ==> decode(self.emitted()) == self.input(),
            self.pending().len() == 0 ==> covered_len(self.emitted()) == self.input().len(),
    {
        lemma_decode_len(self.tokens@);
        if self.pending().len() == 0 {
            assert(self.input() =~= self.dict.stream());
        }
    }

    /// A compressor with nothing accepted yet. Fails with `ConfigError` when the options are
    /// out of range.
    pub fn new(config: Config) -> (r: Result<Compressor, Error>)
        ensures
            r is Err <==> !config_ok(config),
            r is Err ==> r == Err::<Compressor, Error>(Error::ConfigError),
            r matches Ok(c) ==> {
                &&& c.wf()
                &&& c.input() == Seq::<u8>::empty()
                &&& c.emitted() == Seq::<Token>::empty()
                &&& c.pending() == Seq::<u8>::empty()
                &&& c.min_len() == config.min_match_len
                &&& c.cap() == config.dict_cap
                &&& c.la_cap() == config.la_cap
                &&& c.state() == (Seq::<u8>::empty(), Seq::<u8>::empty(), Seq::<Token>::empty())
            },
    {
        if config.dict_cap < 2 || config.min_match_len == 0 || config.min_match_len
            > config.la_cap {
            return Err(Error::ConfigError);
        }
        let dict = match Dictionary::with_capacity(config.dict_cap, config.la_cap) {
            Ok(d) => d,
            Err(e) => {
                return Err(e);
            },
        };
        let finder = MatchFinder::new(config.dict_cap);
        let c = Compressor { dict, finder, min_match_len: config.min_match_len, tokens: Vec::new() };
        assert(c.input() =~= Seq::<u8>::empty());
        assert(decode(c.tokens@) == Seq::<u8>::empty());
        Ok(c)
    }

    /// The tokens emitted so far.
    pub fn tokens(&self) -> (r: &[Token])
        ensures
            r@ == self.emitted(),
    {
        self.tokens.as_slice()
    }

    /// Bytes accepted but not yet covered by a token.
    pub fn pending_len(&self) -> (r: usize)
        requires
            self.wf(),
        ensures
            r == self.pending().len(),
    {
        self.dict.la_len()
    }

    /// The token for the next step and the number of lookahead bytes it covers.
    fn next_token(&self, flushing: bool) -> (r: (usize, Token))
        requires
            self.wf(),
            self.pending().len() > 0,
        ensures
            r.0 == decide(self.best_match(), self.pending(), self.min_len(), flushing).0,
            r.1 == decide(self.best_match(), self.pending(), self.min_len(), flushing).1,
            1 <= r.0 <= self.pending().len(),
            token_len(r.1) == r.0,
            token_valid(self.dict.stream(), r.1),
            apply_token(self.dict.stream(), r.1) == self.dict.stream() + self.pending().subrange(
                0,
                r.0 as int,
            ),
    {
        let (len, best) = self.finder.find_best(&self.dict);
        let la = self.dict.lookahead();
        proof {
            self.dict.lemma_wf_properties();
        }
        match best {
            Some(d) => {
                if len >= self.min_match_len || (flushing && len == la.len()) {
                    proof {
                        let s = self.dict.stream();
                        let h = self.dict.hist();
                        let src = self.dict.source(d as nat);
                        lemma_prefix_len_is_prefix(src, la@);
                        assert forall|i: int| 0 <= i < len implies (s + la@)[s.len() - d - 1 + i]
                            == #[trigger] la@[i] by {
                            assert(src[i] == la@[i]);
                            if i <= d {
                                assert(src[i] == h[h.len() - d - 1 + i]);
                                assert(h[h.len() - d - 1 + i] == s[s.len() - d - 1 + i]);
                            } else {
                                assert(src[i] == la@[i - d - 1]);
                            }
                        }
                        lemma_extend_matches(s, d as nat, la@, len as nat);
                    }
                    return (len, Token::Rep { distance: d, length: len });
                }
            },
            None => {},
        }
        proof {
            assert(self.dict.stream().push(la@[0]) =~= self.dict.stream() + la@.subrange(0, 1));
        }
        (1, Token::Literal { byte: la[0] })
    }

    /// Records `tok` after the tokens emitted so far. A repeat that continues a repeat at the
    /// same distance lengthens it instead, which decodes to the same bytes.
    fn write_token(&mut self, tok: Token)
        requires
            valid_stream(old(self).tokens@),
            token_valid(decode(old(self).tokens@), tok),
        ensures
            valid_stream(final(self).tokens@),
            decode(final(self).tokens@) == apply_token(decode(old(self).tokens@), tok),
            final(self).tokens@ == push_token(old(self).tokens@, tok),
            final(self).dict == old(self).dict,
            final(self).finder == old(self).finder,
            final(self).min_match_len == old(self).min_match_len,
    {
        let n = self.tokens.len();
        if n > 0 {
            if let Token::Rep { distance: d2, length: l2 } = tok {
                if let Token::Rep { distance: d1, length: l1 } = self.tokens[n - 1] {
                    if d1 == d2 && l1 <= usize::MAX - l2 {
                        let ghost pre = self.tokens@.drop_last();
                        self.tokens.set(n - 1, Token::Rep { distance: d1, length: l1 + l2 });
                        proof {
                            lemma_extend_additive(decode(pre), d1 as nat, l1 as nat, l2 as nat);
                            assert(self.tokens@.drop_last() =~= pre);
                            assert(self.tokens@ =~= push_token(old(self).tokens@, tok));
                        }
                        return;
                    }
                }
            }
        }
        let ghost before = self.tokens@;
        self.tokens.push(tok);
        assert(self.tokens@.drop_last() =~= before);
        assert(self.tokens@ =~= push_token(before, tok));
    }

    /// Commits the first `consumed` lookahead bytes to the history and records each in the
    /// chain of its byte value, at the ring slot where it is stored.
    fn write_to_dictionary(&mut self, consumed: usize)
        requires
            old(self).dict.wf(),
            old(self).finder.wf(old(self).dict.cap()),
            old(self).finder.heads() == chains_of(old(self).dict.stream(), old(self).dict.cap()).0,
            old(self).finder.links() == chains_of(old(self).dict.stream(), old(self).dict.cap()).1,
            consumed <= old(self).dict.la().len(),
        ensures
            final(self).dict.wf(),
            final(self).finder.wf(final(self).dict.cap()),
            final(self).finder.heads() == chains_of(
                final(self).dict.stream(),
                final(self).dict.cap(),
            ).0,
            final(self).finder.links() == chains_of(
                final(self).dict.stream(),
                final(self).dict.cap(),
            ).1,
            final(self).dict.stream() == old(self).dict.stream() + old(self).dict.la().subrange(
                0,
                consumed as int,
            ),
            final(self).dict.la() == old(self).dict.la().subrange(
                consumed as int,
                old(self).dict.la().len() as int,
            ),
            final(self).dict.hist().len() == if old(self).dict.hist().len() + consumed
                < old(self).dict.cap() {
                old(self).dict.hist().len() + consumed
            } else {
                old(self).dict.cap() as int
            },
            final(self).dict.cap() == old(self).dict.cap(),
            final(self).dict.la_cap_spec() == old(self).dict.la_cap_spec(),
            final(self).tokens == old(self).tokens,
            final(self).min_match_len == old(self).min_match_len,
    {
        proof {
            self.dict.lemma_wf_properties();
        }
        let h0 = self.dict.head();
        let cap = self.dict.capacity();
        let la = self.dict.lookahead();
        let ghost s0 = self.dict.stream();
        let mut i: usize = 0;
        while i < consumed
            invariant
                i <= consumed,
                la@.len() >= consumed,
                la@ == self.dict.la(),
                h0 < cap,
                h0 == (s0.len() as int) % (cap as int),
                consumed <= cap,
                cap + consumed <= usize::MAX,
                cap == self.dict.cap(),
                s0 == self.dict.stream(),
                self.finder.wf(cap as nat),
                self.finder.heads() == chains_of(s0 + la@.subrange(0, i as int), cap as nat).0,
                self.finder.links() == chains_of(s0 + la@.subrange(0, i as int), cap as nat).1,
                self.dict == old(self).dict,
                self.tokens == old(self).tokens,
                self.min_match_len == old(self).min_match_len,
            decreases consumed - i,
        {
            let slot = if h0 + i >= cap {
                h0 + i - cap
            } else {
                h0 + i
            };
            proof {
                self.finder.lemma_links_len(cap as nat);
                lemma_mod_advance(s0.len() as int, cap as int, i as int);
                let t = s0 + la@.subrange(0, i + 1);
                assert(t.drop_last() =~= s0 + la@.subrange(0, i as int));
                assert(t.last() == la@[i as int]);
                assert(t.len() - 1 == s0.len() + i);
            }
            self.finder.insert(la[i], slot);
            i = i + 1;
        }
        let _ = self.dict.commit_lookahead_bytes(consumed);
    }

    /// One step: takes the best candidate for the front of the lookahead, records a repeat
    /// when it is long enough (or, when `flushing`, covers all that is pending) and a literal
    /// otherwise, and commits the bytes the token covers.
    pub fn step(&mut self, flushing: bool)
        requires
            old(self).wf(),
            old(self).pending().len() > 0,
        ensures
            final(self).wf(),
            final(self).input() == old(self).input(),
            final(self).min_len() == old(self).min_len(),
            ({
                let (k, t) = decide(
                    old(self).best_match(),
                    old(self).pending(),
                    old(self).min_len(),
                    flushing,
                );
                &&& 1 <= k <= old(self).pending().len()
                &&& final(self).pending() == old(self).pending().subrange(
                    k as int,
                    old(self).pending().len() as int,
                )
                &&& final(self).emitted() == push_token(old(self).emitted(), t)
            }),
            decode(final(self).emitted()) + final(self).pending() == final(self).input(),
            final(self).state() == run_step(old(self).state(), old(self).cap(), old(self).min_len(), flushing),
            final(self).cap() == old(self).cap(),
            final(self).la_cap() == old(self).la_cap(),
    {
        proof {
            self.lemma_best_match();
        }
        let (consumed, tok) = self.next_token(flushing);
        let ghost la0 = self.dict.la();
        let ghost s0 = self.dict.stream();
        self.write_to_dictionary(consumed);
        self.write_token(tok);
        proof {
            assert(self.input() =~= s0 + la0) by {
                assert(la0 =~= la0.subrange(0, consumed as int) + la0.subrange(
                    consumed as int,
                    la0.len() as int,
                ));
            }
        }
    }

    /// Steps while the lookahead holds at least `min_match_len` bytes, or, when flushing,
    /// while it holds anything.
    fn drain(&mut self, flushing: bool)
        requires
            old(self).wf(),
        ensures
            final(self).wf(),
            final(self).input() == old(self).input(),
            final(self).min_len() == old(self).min_len(),
            flushing ==> final(self).pending().len() == 0,
            final(self).pending().len() < final(self).min_len(),
            old(self).pending().len() == 0 || (!flushing && old(self).pending().len()
                < old(self).min_len()) ==> *final(self) == *old(self),
            final(self).state() == run_drain(old(self).state(), old(self).cap(), old(self).min_len(), flushing),
            final(self).cap() == old(self).cap(),
            final(self).la_cap() == old(self).la_cap(),
    {
        loop
            invariant
                self.wf(),
                self.input() == old(self).input(),
                self.min_len() == old(self).min_len(),
                self.cap() == old(self).cap(),
                self.la_cap() == old(self).la_cap(),
                run_drain(self.state(), self.cap(), self.min_len(), flushing) == run_drain(
                    old(self).state(),
                    old(self).cap(),
                    old(self).min_len(),
                    flushing,
                ),
                old(self).pending().len() == 0 || (!flushing && old(self).pending().len()
                    < old(self).min_len()) ==> *self == *old(self),
            ensures
                self.wf(),
                self.input() == old(self).input(),
                self.min_len() == old(self).min_len(),
                flushing ==> self.pending().len() == 0,
                self.pending().len() < self.min_len(),
                old(self).pending().len() == 0 || (!flushing && old(self).pending().len()
                    < old(self).min_len()) ==> *self == *old(self),
                self.state() == run_drain(old(self).state(), old(self).cap(), old(self).min_len(), flushing),
                self.cap() == old(self).cap(),
                self.la_cap() == old(self).la_cap(),
            decreases self.pending().len(),
        {
            let la = self.dict.la_len();
            if la == 0 || (!flushing && la < self.min_match_len) {
                break ;
            }
            let ghost before = self.state();
            proof {
                self.lemma_best_match();
            }
            self.step(flushing);
            proof {
                assert(run_drain(before, self.cap(), self.min_len(), flushing) == run_drain(
                    run_step(before, self.cap(), self.min_len(), flushing),
                    self.cap(),
                    self.min_len(),
                    flushing,
                ));
            }
        }
    }

    /// Accepts all of `bytes`: loads them into the lookahead as room allows and steps while
    /// at least `min_match_len` bytes wait. Returns the number accepted, all of them.
    pub fn write(&mut self, bytes: &[u8]) -> (r: usize)
        requires
            old(self).wf(),
        ensures
            final(self).wf(),
            r == bytes@.len(),
            final(self).input() == old(self).input() + bytes@,
            final(self).pending().len() < final(self).min_len(),
            final(self).min_len() == old(self).min_len(),
            decode(final(self).emitted()) + final(self).pending() == final(self).input(),
            bytes@.len() == 0 && old(self).pending().len() < old(self).min_len() ==> *final(self)
                == *old(self),
            final(self).state() == run_write(
                old(self).state(),
                bytes@,
                old(self).cap(),
                old(self).la_cap(),
                old(self).min_len(),
            ),
            final(self).cap() == old(self).cap(),
            final(self).la_cap() == old(self).la_cap(),
    {
        self.drain(false);
        let ghost cap = self.cap();
        let ghost la_cap = self.la_cap();
        let ghost min = self.min_len();
        proof {
            lemma_run_drained(self.state(), cap, min);
            assert(bytes@.subrange(0, bytes@.len() as int) =~= bytes@);
            assert(run_write(self.state(), bytes@, cap, la_cap, min) == run_write(
                old(self).state(),
                bytes@,
                cap,
                la_cap,
                min,
            ));
        }
        let mut accepted: usize = 0;
        while accepted < bytes.len()
            invariant
                self.wf(),
                accepted <= bytes@.len(),
                self.input() == old(self).input() + bytes@.subrange(0, accepted as int),
                bytes@.len() == 0 && old(self).pending().len() < old(self).min_len() ==> *self
                    == *old(self),
                self.pending().len() < self.min_len(),
                self.min_len() == old(self).min_len(),
                cap == old(self).cap() && cap == self.cap(),
                la_cap == old(self).la_cap() && la_cap == self.la_cap(),
                min == old(self).min_len(),
                run_write(
                    self.state(),
                    bytes@.subrange(accepted as int, bytes@.len() as int),
                    cap,
                    la_cap,
                    min,
                ) == run_write(old(self).state(), bytes@, cap, la_cap, min),
            decreases bytes@.len() - accepted,
        {
            let rest = slice_subrange(bytes, accepted, bytes.len());
            let ghost s0 = self.dict.stream();
            let ghost la0 = self.dict.la();
            let ghost before = self.state();
            let n = self.dict.add_to_lookahead(rest);
            let ghost added = self.state();
            proof {
                assert(rest@.subrange(0, n as int) =~= bytes@.subrange(accepted as int, accepted + n));
                assert(bytes@.subrange(0, accepted + n) =~= bytes@.subrange(0, accepted as int)
                    + bytes@.subrange(accepted as int, accepted + n));
                assert(self.input() =~= s0 + (la0 + rest@.subrange(0, n as int)));
                assert(old(self).input() + bytes@.subrange(0, accepted + n) =~= (s0 + la0)
                    + rest@.subrange(0, n as int));
                lemma_run_drained(before, cap, min);
                assert(rest@ == bytes@.subrange(accepted as int, bytes@.len() as int));
                assert(added == (before.0, before.1 + rest@.subrange(0, n as int), before.2));
                assert(rest@.subrange(n as int, rest@.len() as int) =~= bytes@.subrange(
                    accepted + n,
                    bytes@.len() as int,
                ));
                assert(run_write(before, rest@, cap, la_cap, min) == run_write(
                    added,
                    rest@.subrange(n as int, rest@.len() as int),
                    cap,
                    la_cap,
                    min,
                ));
            }
            accepted = accepted + n;
            self.drain(false);
            proof {
                lemma_run_drained(self.state(), cap, min);
                let tail = bytes@.subrange(accepted as int, bytes@.len() as int);
                assert(run_write(added, tail, cap, la_cap, min) == run_write(
                    self.state(),
                    tail,
                    cap,
                    la_cap,
                    min,
                ));
            }
        }
        proof {
            lemma_run_drained(self.state(), cap, min);
            assert(bytes@.subrange(accepted as int, bytes@.len() as int) =~= Seq::<u8>::empty());
        }
        assert(bytes@.subrange(0, bytes@.len() as int) =~= bytes@);
        bytes.len()
    }

    /// Emits tokens until nothing is pending. With nothing pending it changes nothing.
    pub fn flush(&mut self)
        requires
            old(self).wf(),
        ensures
            final(self).wf(),
            final(self).input() == old(self).input(),
            final(self).pending().len() == 0,
            final(self).min_len() == old(self).min_len(),
            decode(final(self).emitted()) == final(self).input(),
            decode(final(self).emitted()) + final(self).pending() == final(self).input(),
            old(self).pending().len() == 0 ==> *final(self) == *old(self),
            final(self).state() == run_drain(old(self).state(), old(self).cap(), old(self).min_len(), true),
            final(self).cap() == old(self).cap(),
            final(self).la_cap() == old(self).la_cap(),
    {
        self.drain(true);
        proof {
            self.lemma_round_trip();
        }
    }

    /// Flushes, then hands over all the tokens, which decode to every byte accepted.
    pub fn finish(self) -> (r: Vec<Token>)
        requires
            self.wf(),
        ensures
            valid_stream(r@),
            decode(r@) == self.input(),
            covered_len(r@) == self.input().len(),
            r@ == run_drain(self.state(), self.cap(), self.min_len(), true).2,
    {
        let mut c = self;
        c.flush();
        proof {
            c.lemma_round_trip();
        }
        c.tokens
    }
}

/// Compresses `data` in one go. Fails with `ConfigError` when the options are out of range;
/// otherwise the tokens form a valid stream that decodes to `data` and covers its length.
pub fn compress(config: Config, data: &[u8]) -> (r: Result<Vec<Token>, Error>)
    ensures
        r is Err <==> !config_ok(config),
        r is Err ==> r == Err::<Vec<Token>, Error>(Error::ConfigError),
        r matches Ok(ts) ==> {
            &&& valid_stream(ts@)
            &&& decode(ts@) == data@
            &&& covered_len(ts@) == data@.len()
            &&& ts@ == compressed(config, data@)
        },
{
    let mut c = match Compressor::new(config) {
        Ok(c) => c,
        Err(e) => {
            return Err(e);
        },
    };
    c.write(data);
    assert(Seq::<u8>::empty() + data@ =~= data@);
    Ok(c.finish())
}

} // verus!
