//! The match finder: for each first byte, a chain of ring slots where that byte was
//! committed, most recent first. Slots are reused as the ring turns, so every step of a walk
//! is checked against the current history.
use vstd::prelude::*;

use crate::dict::{slot_distance, Dictionary};
use crate::raw::prefix_len;

verus! {

/// Marks the end of a chain.
pub const NONE: usize = usize::MAX;

/// Length of the match at `dist` in `d`.
pub open spec fn match_len_at(d: Dictionary, dist: nat) -> nat {
    prefix_len(d.source(dist), d.la())
}

/// The longest match among the candidate distances `c`, as (length, distance); the first
/// candidate wins a tie, and (0, None) stands for no candidate.
pub open spec fn best_of(d: Dictionary, c: Seq<nat>) -> (nat, Option<nat>)
    decreases c.len(),
{
    if c.len() == 0 {
        (0, None)
    } else {
        let prev = best_of(d, c.drop_last());
        let l = match_len_at(d, c.last());
        if l > prev.0 {
            (l, Some(c.last()))
        } else {
            prev
        }
    }
}

/// The best of the candidates is one of them, with its own match length.
pub proof fn lemma_best_of_member(d: Dictionary, c: Seq<nat>)
    ensures
        best_of(d, c).1 is None ==> best_of(d, c).0 == 0,
        best_of(d, c).1 matches Some(x) ==> c.contains(x) && best_of(d, c).0 == match_len_at(d, x)
            && best_of(d, c).0 > 0,
    decreases c.len(),
{
    if c.len() > 0 {
        lemma_best_of_member(d, c.drop_last());
        if let Some(x) = best_of(d, c.drop_last()).1 {
            if best_of(d, c).1 == Some(x) {
                let i = choose|i: int| 0 <= i < c.drop_last().len() && c.drop_last()[i] == x;
                assert(c[i] == x);
            }
        }
        if best_of(d, c).1 == Some(c.last()) {
            assert(c[c.len() - 1] == c.last());
        }
    }
}

/// The chain heads and links after every byte of `s` was recorded in turn, byte `i` in ring
/// slot `i % cap`, starting from empty chains.
pub open spec fn chains_of(s: Seq<u8>, cap: nat) -> (Seq<usize>, Seq<usize>)
    decreases s.len(),
{
    if s.len() == 0 {
        (Seq::new(256, |_i: int| NONE), Seq::new(cap, |_i: int| NONE))
    } else {
        let prev = chains_of(s.drop_last(), cap);
        let b = s.last();
        let slot = ((s.len() - 1) % (cap as int)) as usize;
        (prev.0.update(b as int, slot), prev.1.update(slot as int, prev.0[b as int]))
    }
}

/// The chain walk over plain values: `links` as the chain links, `head` and `cap` of the
/// ring, and `hist` the history, newest byte last. Stops as `MatchFinder::walk` does.
pub open spec fn walk_in(
    links: Seq<usize>,
    head: int,
    cap: int,
    hist: Seq<u8>,
    b0: u8,
    slot: int,
    last: int,
) -> Seq<nat>
    decreases hist.len() - last,
{
    if !(0 <= slot < cap) {
        Seq::empty()
    } else {
        let dist = slot_distance(head, cap, slot);
        if dist >= hist.len() || dist <= last || hist[hist.len() - 1 - dist] != b0 {
            Seq::empty()
        } else {
            seq![dist as nat] + walk_in(links, head, cap, hist, b0, links[slot] as int, dist)
        }
    }
}

/// Length of the match at `dist` behind the end of `hist`, for the lookahead `la`.
pub open spec fn match_len_in(hist: Seq<u8>, la: Seq<u8>, dist: nat) -> nat {
    prefix_len(hist.subrange(hist.len() - dist - 1, hist.len() as int) + la, la)
}

/// `best_of` over plain values.
pub open spec fn best_in(hist: Seq<u8>, la: Seq<u8>, c: Seq<nat>) -> (nat, Option<nat>)
    decreases c.len(),
{
    if c.len() == 0 {
        (0, None)
    } else {
        let prev = best_in(hist, la, c.drop_last());
        let l = match_len_in(hist, la, c.last());
        if l > prev.0 {
            (l, Some(c.last()))
        } else {
            prev
        }
    }
}

/// `best_of` depends on the dictionary only through its history and lookahead.
pub proof fn lemma_best_in(d: Dictionary, c: Seq<nat>)
    ensures
        best_of(d, c) == best_in(d.hist(), d.la(), c),
    decreases c.len(),
{
    if c.len() > 0 {
        lemma_best_in(d, c.drop_last());
    }
}

/// Heads of the per-byte chains and the links between them.
pub struct MatchFinder {
    map: Vec<usize>,
    chain: Vec<usize>,
}

impl MatchFinder {
    /// One head per byte value and one link per ring slot.
    pub closed spec fn wf(&self, cap: nat) -> bool {
        &&& self.map@.len() == 256
        &&& self.chain@.len() == cap
    }

    /// Most recent slot for each byte value.
    pub closed spec fn heads(&self) -> Seq<usize> {
        self.map@
    }

    /// For each slot, the slot that held the same byte before it.
    pub closed spec fn links(&self) -> Seq<usize> {
        self.chain@
    }

    /// The distances visited walking the chain from `slot`, after one at `last`: each lies
    /// in the history, lies further back than the one before, and still holds `b0`. The walk
    /// stops at the first slot that fails.
    pub open spec fn walk(&self, d: Dictionary, b0: u8, slot: int, last: int) -> Seq<nat>
        decreases d.hist().len() - last,
    {
        if !(0 <= slot < d.cap()) {
            Seq::empty()
        } else {
            let dist = slot_distance(d.head_spec() as int, d.cap() as int, slot);
            if dist >= d.hist().len() || dist <= last || d.at(dist as nat) != b0 {
                Seq::empty()
            } else {
                seq![dist as nat] + self.walk(d, b0, self.links()[slot] as int, dist)
            }
        }
    }

    /// The walk depends on the dictionary only through its head, capacity and history.
    pub proof fn lemma_walk_in(&self, d: Dictionary, b0: u8, slot: int, last: int)
        ensures
            self.walk(d, b0, slot, last) == walk_in(
                self.links(),
                d.head_spec() as int,
                d.cap() as int,
                d.hist(),
                b0,
                slot,
                last,
            ),
        decreases d.hist().len() - last,
    {
        if 0 <= slot < d.cap() {
            let dist = slot_distance(d.head_spec() as int, d.cap() as int, slot);
            if !(dist >= d.hist().len() || dist <= last || d.at(dist as nat) != b0) {
                self.lemma_walk_in(d, b0, self.links()[slot] as int, dist);
            }
        }
    }

    /// Every distance a chain walk visits lies in the history and still holds the byte
    /// looked for; the walk moves strictly further back.
    pub proof fn lemma_walk_safe(&self, d: Dictionary, b0: u8, slot: int, last: int)
        ensures
            forall|i: int|
                0 <= i < self.walk(d, b0, slot, last).len() ==> {
                    &&& #[trigger] self.walk(d, b0, slot, last)[i] < d.hist().len()
                    &&& d.at(self.walk(d, b0, slot, last)[i]) == b0
                    &&& last < self.walk(d, b0, slot, last)[i]
                    &&& (i > 0 ==> self.walk(d, b0, slot, last)[i - 1] < self.walk(
                        d,
                        b0,
                        slot,
                        last,
                    )[i])
                },
        decreases d.hist().len() - last,
    {
        if 0 <= slot < d.cap() {
            let dist = slot_distance(d.head_spec() as int, d.cap() as int, slot);
            if !(dist >= d.hist().len() || dist <= last || d.at(dist as nat) != b0) {
                let next = self.links()[slot] as int;
                self.lemma_walk_safe(d, b0, next, dist);
                let w = self.walk(d, b0, slot, last);
                let rest = self.walk(d, b0, next, dist);
                assert forall|i: int| 0 < i < w.len() implies w[i] == rest[i - 1] by {}
            }
        }
    }

    /// A well-formed finder has one link per ring slot.
    pub proof fn lemma_links_len(&self, cap: nat)
        requires
            self.wf(cap),
        ensures
            self.links().len() == cap,
    {
    }

    /// Empty chains for a ring of `cap` slots.
    pub fn new(cap: usize) -> (r: MatchFinder)
        ensures
            r.wf(cap as nat),
            forall|b: int| 0 <= b < 256 ==> r.heads()[b] == NONE,
            forall|s: int| 0 <= s < cap ==> r.links()[s] == NONE,
            r.heads() == chains_of(Seq::empty(), cap as nat).0,
            r.links() == chains_of(Seq::empty(), cap as nat).1,
    {
        let r = MatchFinder { map: vec![NONE; 256], chain: vec![NONE; cap] };
        assert(r.heads() =~= chains_of(Seq::empty(), cap as nat).0);
        assert(r.links() =~= chains_of(Seq::empty(), cap as nat).1);
        r
    }

    /// Records that `byte` was just stored in ring slot `slot`: the slot becomes the head
    /// of the chain for `byte`, linked to the previous head.
    pub fn insert(&mut self, byte: u8, slot: usize)
        requires
            old(self).wf(old(self).links().len()),
            slot < old(self).links().len(),
        ensures
            final(self).wf(old(self).links().len()),
            final(self).heads() == old(self).heads().update(byte as int, slot),
            final(self).links() == old(self).links().update(slot as int, old(self).heads()[byte as int]),
    {
        let first = self.map[byte as usize];
        self.chain.set(slot, first);
        self.map.set(byte as usize, slot);
    }

    /// The distance of `slot` when it is the next stop of a walk after the distance `last`
    /// (none at the start of a walk).
    pub fn next_match_index(&self, dict: &Dictionary, b0: u8, slot: usize, last: Option<usize>) -> (r:
        Option<usize>)
        requires
            dict.wf(),
        ensures
            ({
                let l: int = match last {
                    Some(x) => x as int,
                    None => -1,
                };
                let w = self.walk(*dict, b0, slot as int, l);
                &&& r is None <==> w.len() == 0
                &&& r matches Some(dist) ==> dist == w[0]
            }),
    {
        let ghost l: int = match last {
            Some(x) => x as int,
            None => -1,
        };
        if slot >= dict.capacity() {
            return None;
        }
        let dist = dict.distance(slot);
        if dist >= dict.dict_len() {
            return None;
        }
        match last {
            Some(x) => {
                if dist <= x {
                    return None;
                }
            },
            None => {},
        }
        if dict.byte_at_distance(dist) != b0 {
            return None;
        }
        Some(dist)
    }

    /// The longest match for the lookahead among the distances that the chain of its first
    /// byte visits, as (length, distance); the most recent wins a tie, and (0, None) means
    /// that no candidate was found.
    pub fn find_best(&self, dict: &Dictionary) -> (r: (usize, Option<usize>))
        requires
            dict.wf(),
            self.wf(dict.cap()),
            dict.la().len() > 0,
        ensures
            ({
                let b0 = dict.la()[0];
                let b = best_of(*dict, self.walk(*dict, b0, self.heads()[b0 as int] as int, -1));
                &&& r.0 == b.0
                &&& r.1 is None <==> b.1 is None
                &&& r.1 matches Some(dist) ==> b.1 == Some(dist as nat)
            }),
            r.1 is None ==> r.0 == 0,
            r.1 matches Some(dist) ==> {
                &&& dist < dict.hist().len()
                &&& dict.at(dist as nat) == dict.la()[0]
                &&& r.0 == match_len_at(*dict, dist as nat)
                &&& r.0 >= 1
            },
    {
        let la = dict.lookahead();
        let b0 = la[0];
        let ghost all = self.walk(*dict, b0, self.map@[b0 as int] as int, -1);
        let mut slot = self.map[b0 as usize];
        let mut last: Option<usize> = None;
        let mut best_len: usize = 0;
        let mut best: Option<usize> = None;
        let ghost mut seen: Seq<nat> = Seq::empty();
        proof {
            self.lemma_walk_safe(*dict, b0, self.map@[b0 as int] as int, -1);
        }
        loop
            invariant
                dict.wf(),
                self.wf(dict.cap()),
                b0 == dict.la()[0],
                all == self.walk(*dict, b0, self.map@[b0 as int] as int, -1),
                all == seen + self.walk(
                    *dict,
                    b0,
                    slot as int,
                    match last {
                        Some(x) => x as int,
                        None => -1,
                    },
                ),
                last is None ==> seen.len() == 0,
                last matches Some(x) ==> seen.len() > 0 && seen.last() == x,
                forall|i: int| 0 <= i < all.len() ==> all[i] < dict.hist().len(),
                best_len == best_of(*dict, seen).0,
                best is None <==> best_of(*dict, seen).1 is None,
                best matches Some(x) ==> best_of(*dict, seen).1 == Some(x as nat),
            ensures
                all == seen,
                best_len == best_of(*dict, seen).0,
                best is None <==> best_of(*dict, seen).1 is None,
                best matches Some(x) ==> best_of(*dict, seen).1 == Some(x as nat),
            decreases dict.hist().len() - match last {
                Some(x) => x as int,
                None => -1,
            },
        {
            let ghost l: int = match last {
                Some(x) => x as int,
                None => -1,
            };
            match self.next_match_index(dict, b0, slot, last) {
                None => {
                    assert(all == seen + Seq::<nat>::empty());
                    assert(seen + Seq::<nat>::empty() =~= seen);
                    break ;
                },
                Some(dist) => {
                    let ghost w = self.walk(*dict, b0, slot as int, l);
                    let ghost rest = self.walk(*dict, b0, self.chain@[slot as int] as int, dist as int);
                    assert(w == seq![dist as nat] + rest);
                    let l = match dict.match_length(dist) {
                        Ok(l) => l,
                        Err(_) => 0,
                    };
                    if l > best_len {
                        best_len = l;
                        best = Some(dist);
                    }
                    proof {
                        assert((seen.push(dist as nat)).drop_last() =~= seen);
                        assert(all == seen.push(dist as nat) + rest) by {
                            assert(seen + (seq![dist as nat] + rest) =~= seen.push(dist as nat)
                                + rest);
                        }
                        seen = seen.push(dist as nat);
                        assert(all[seen.len() - 1] == dist);
                    }
                    last = Some(dist);
                    slot = self.chain[slot];
                },
            }
        }
        proof {
            lemma_best_of_member(*dict, seen);
            if let Some(x) = best {
                let i = choose|i: int| 0 <= i < seen.len() && seen[i] == x;
                assert(all[i] == x);
            }
        }
        (best_len, best)
    }
}

} // verus!
