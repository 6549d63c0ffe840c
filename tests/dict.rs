use lzrs::dict::Dictionary;
use lzrs::finder::MatchFinder;
use lzrs::Error;

fn joined(d: &Dictionary) -> Vec<u8> {
    let (a, b) = d.dictionary();
    let mut v = a.to_vec();
    v.extend_from_slice(b);
    v
}

#[test]
fn construction_checks_capacities() {
    assert_eq!(Some(Error::ConfigError), Dictionary::with_capacity(6, 2).err());
    assert_eq!(Some(Error::ConfigError), Dictionary::with_capacity(8, 0).err());
    assert_eq!(Some(Error::ConfigError), Dictionary::with_capacity(8, 9).err());
    assert_eq!(Some(Error::ConfigError), Dictionary::with_capacity(0, 0).err());
    assert_eq!(Some(Error::ConfigError), Dictionary::with_capacity(4, usize::MAX).err());
    assert_eq!(Some(Error::ConfigError), Dictionary::with_capacity(1 << 63, 1 << 63).err());
    let d = Dictionary::with_capacity(8, 8).unwrap();
    assert_eq!(8, d.capacity());
    assert_eq!(0, d.head());
    assert_eq!(0, d.dict_len());
    assert_eq!(0, d.la_len());
}

#[test]
fn history_wraps_and_keeps_the_newest() {
    let mut d = Dictionary::with_capacity(8, 4).unwrap();
    d.add_to_dictionary(b"abcdef");
    assert_eq!(b"abcdef".to_vec(), joined(&d));
    assert_eq!(6, d.head());
    d.add_to_dictionary(b"ghij");
    assert_eq!(b"cdefghij".to_vec(), joined(&d));
    assert_eq!(2, d.head());
    assert_eq!(8, d.dict_len());
    assert_eq!(b'j', d.byte_at_distance(0));
    assert_eq!(b'c', d.byte_at_distance(7));
}

#[test]
fn lookahead_takes_room_from_the_history() {
    let mut d = Dictionary::with_capacity(8, 4).unwrap();
    d.add_to_dictionary(b"abcdefgh");
    assert_eq!(3, d.add_to_lookahead(b"xyz"));
    assert_eq!(b"xyz", d.lookahead());
    assert_eq!(5, d.dict_len());
    assert_eq!(b"defgh".to_vec(), joined(&d));
    assert_eq!(1, d.add_to_lookahead(b"uvw"));
    assert_eq!(b"xyzu", d.lookahead());
    assert_eq!(4, d.dict_len());
    assert!(d.dict_len() + d.la_len() <= d.capacity());
}

#[test]
fn commit_moves_lookahead_into_history() {
    let mut d = Dictionary::with_capacity(8, 4).unwrap();
    d.add_to_dictionary(b"abcdef");
    d.add_to_lookahead(b"wxyz");
    assert_eq!(Some(Error::OutOfBounds), d.commit_lookahead_bytes(5).err());
    assert_eq!(b"wx", d.commit_lookahead_bytes(2).unwrap());
    assert_eq!(b"yz", d.lookahead());
    assert_eq!(0, d.head());
    assert_eq!(6, d.dict_len());
    assert_eq!(b"cdefwx".to_vec(), joined(&d));
    d.clear_lookahead();
    assert_eq!(0, d.la_len());
}

#[test]
fn match_length_reads_into_the_lookahead() {
    let mut d = Dictionary::with_capacity(16, 8).unwrap();
    d.add_to_dictionary(b"xab");
    d.add_to_lookahead(b"ababab!");
    // distance 1 points at 'a'; the match runs on through the lookahead itself
    assert_eq!(Ok(6), d.match_length(1));
    assert_eq!(Ok(0), d.match_length(0));
    assert_eq!(Ok(0), d.match_length(2));
    assert_eq!(Err(Error::OutOfBounds), d.match_length(3));
}

#[test]
fn match_length_across_the_ring_end_uses_the_mirror() {
    let mut d = Dictionary::with_capacity(8, 4).unwrap();
    d.add_to_dictionary(b"0123456abc");
    // head is 2; "abc" sits at slots 7, 0, 1
    d.add_to_lookahead(b"abca");
    assert_eq!(Ok(4), d.match_length(2));
    assert_eq!(Ok(0), d.match_length(1));
}

#[test]
fn match_length_with_empty_lookahead_is_zero() {
    let mut d = Dictionary::with_capacity(8, 4).unwrap();
    d.add_to_dictionary(b"abc");
    assert_eq!(Ok(0), d.match_length(0));
}

#[test]
fn overlapping_load_into_lookahead() {
    let mut d = Dictionary::with_capacity(16, 8).unwrap();
    d.add_to_dictionary(b"xab");
    assert_eq!(b"ababa", d.load_match_into_lookahead(1, 5).unwrap());
    assert_eq!(b"ababa", d.lookahead());
    assert_eq!(b"bab", d.load_match_into_lookahead(0, 3).unwrap());
    assert_eq!(b"abababab", d.lookahead());
    assert_eq!(Some(Error::OutOfBounds), d.load_match_into_lookahead(0, 1).err());
    assert_eq!(Some(Error::OutOfBounds), d.load_match_into_lookahead(3, 0).err());
}

#[test]
fn overlapping_load_into_dictionary() {
    let mut d = Dictionary::with_capacity(8, 4).unwrap();
    d.add_to_dictionary(b"ab");
    d.add_to_lookahead(b"zz");
    assert_eq!(Ok(()), d.load_match_into_dictionary(1, 5));
    assert_eq!(0, d.la_len());
    assert_eq!(b"abababa".to_vec(), joined(&d));
    assert_eq!(Err(Error::OutOfBounds), d.load_match_into_dictionary(7, 1));
}

#[test]
fn finder_picks_the_longest_and_nearest() {
    let mut d = Dictionary::with_capacity(16, 8).unwrap();
    let mut f = MatchFinder::new(16);
    let hist = b"abXabcYab";
    for (i, &b) in hist.iter().enumerate() {
        f.insert(b, i);
    }
    d.add_to_dictionary(hist);
    d.add_to_lookahead(b"abc");
    // "abc" at distance 5 beats the nearer "ab" matches
    assert_eq!((3, Some(5)), f.find_best(&d));
}

#[test]
fn finder_prefers_the_most_recent_on_ties() {
    let mut d = Dictionary::with_capacity(16, 8).unwrap();
    let mut f = MatchFinder::new(16);
    let hist = b"abab";
    for (i, &b) in hist.iter().enumerate() {
        f.insert(b, i);
    }
    d.add_to_dictionary(hist);
    d.add_to_lookahead(b"abz");
    assert_eq!((2, Some(1)), f.find_best(&d));
}

#[test]
fn finder_stops_at_stale_slots() {
    let mut d = Dictionary::with_capacity(4, 2).unwrap();
    let mut f = MatchFinder::new(4);
    f.insert(b'a', 0);
    // slot 0 is then overwritten by 'q' without the chain being told
    d.add_to_dictionary(b"q");
    d.add_to_lookahead(b"a");
    assert_eq!((0, None), f.find_best(&d));
    assert_eq!(None, f.next_match_index(&d, b'a', 0, None));
}
