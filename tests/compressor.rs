use lzrs::writer::{compress, Compressor, Config, Token};
use lzrs::Error;

fn replay(tokens: &[Token]) -> Vec<u8> {
    let mut out: Vec<u8> = Vec::new();
    for t in tokens {
        match *t {
            Token::Literal { byte } => out.push(byte),
            Token::Rep { distance, length } => {
                for _ in 0..length {
                    let b = out[out.len() - distance - 1];
                    out.push(b);
                }
            }
        }
    }
    out
}

fn covered(tokens: &[Token]) -> usize {
    tokens
        .iter()
        .map(|t| match *t {
            Token::Literal { .. } => 1,
            Token::Rep { length, .. } => length,
        })
        .sum()
}

fn cfg(dict_cap: usize, la_cap: usize, min_match_len: usize) -> Config {
    Config { dict_cap, la_cap, min_match_len }
}

#[test]
fn run_of_one_byte() {
    let tokens = compress(cfg(8, 4, 3), b"aaaaaaaa").unwrap();
    assert_eq!(
        vec![Token::Literal { byte: b'a' }, Token::Rep { distance: 0, length: 7 }],
        tokens
    );
}

#[test]
fn repeated_pattern_overlapping() {
    let data = b"bad+ad+ad+ad+ad+";
    assert_eq!(16, data.len());
    let tokens = compress(cfg(16, 12, 3), data).unwrap();
    assert_eq!(
        vec![
            Token::Literal { byte: b'b' },
            Token::Literal { byte: b'a' },
            Token::Literal { byte: b'd' },
            Token::Literal { byte: b'+' },
            Token::Rep { distance: 2, length: 12 },
        ],
        tokens
    );
}

#[test]
fn banana() {
    let tokens = compress(cfg(16, 4, 3), b"banana").unwrap();
    assert_eq!(
        vec![
            Token::Literal { byte: b'b' },
            Token::Literal { byte: b'a' },
            Token::Literal { byte: b'n' },
            Token::Rep { distance: 1, length: 3 },
        ],
        tokens
    );
}

#[test]
fn round_trip_of_a_sentence() {
    let data = b"Hey, banana-ass! To banana or not to banana?";
    let tokens = compress(cfg(0x80, 16, 3), data).unwrap();
    assert_eq!(data.to_vec(), replay(&tokens));
    assert_eq!(data.len(), covered(&tokens));
    assert!(tokens.len() < data.len());
}

#[test]
fn round_trip_with_a_small_ring() {
    let mut data: Vec<u8> = Vec::new();
    let mut acc: usize = 7;
    for _ in 0..600 {
        acc = (acc * 1103 + 12345) % 65521;
        data.push(b'a' + (acc % 5) as u8);
    }
    for &(d, l, m) in &[(8, 4, 3), (16, 16, 1), (4, 2, 2), (64, 32, 4), (2, 1, 1)] {
        let tokens = compress(cfg(d, l, m), &data).unwrap();
        assert_eq!(data, replay(&tokens), "dict {} la {} min {}", d, l, m);
        assert_eq!(data.len(), covered(&tokens));
    }
}

#[test]
fn empty_input_gives_no_tokens() {
    let tokens = compress(cfg(8, 4, 3), b"").unwrap();
    assert!(tokens.is_empty());
}

#[test]
fn literal_run_without_repeats() {
    let tokens = compress(cfg(8, 4, 3), b"abcdefgh").unwrap();
    assert_eq!(8, tokens.len());
    assert!(tokens.iter().all(|t| matches!(t, Token::Literal { .. })));
}

#[test]
fn flushing_allows_a_short_repeat_covering_the_rest() {
    // "ab" twice: after "ab" the remaining "ab" matches at distance 1 with length 2 < 3,
    // which a flush may still take because it covers everything left.
    let mut c = Compressor::new(cfg(16, 8, 3)).unwrap();
    c.write(b"abab");
    c.flush();
    assert_eq!(
        vec![
            Token::Literal { byte: b'a' },
            Token::Literal { byte: b'b' },
            Token::Rep { distance: 1, length: 2 },
        ],
        c.tokens().to_vec()
    );
}

#[test]
fn write_accepts_everything_and_holds_back_a_short_tail() {
    let mut c = Compressor::new(cfg(16, 4, 3)).unwrap();
    assert_eq!(6, c.write(b"banana"));
    assert!(c.pending_len() < 3);
    let before = c.tokens().to_vec();
    c.flush();
    assert_eq!(0, c.pending_len());
    assert!(c.tokens().len() >= before.len());
    assert_eq!(b"banana".to_vec(), replay(&c.finish()));
}

#[test]
fn flush_on_empty_lookahead_is_a_no_op() {
    let mut c = Compressor::new(cfg(16, 4, 3)).unwrap();
    c.write(b"abcabc");
    c.flush();
    let once = c.tokens().to_vec();
    c.flush();
    assert_eq!(once, c.tokens().to_vec());
    assert_eq!(0, c.pending_len());
}

#[test]
fn writes_in_pieces_match_one_write() {
    let data = b"to be or not to be, that is the question";
    let whole = compress(cfg(32, 8, 3), data).unwrap();
    let mut c = Compressor::new(cfg(32, 8, 3)).unwrap();
    for piece in data.chunks(5) {
        c.write(piece);
    }
    let pieces = c.finish();
    assert_eq!(data.to_vec(), replay(&pieces));
    assert_eq!(data.to_vec(), replay(&whole));
}

#[test]
fn config_errors() {
    assert_eq!(Some(Error::ConfigError), compress(cfg(12, 4, 3), b"x").err());
    assert_eq!(Some(Error::ConfigError), compress(cfg(1, 1, 1), b"x").err());
    assert_eq!(Some(Error::ConfigError), compress(cfg(0, 1, 1), b"x").err());
    assert_eq!(Some(Error::ConfigError), compress(cfg(8, 16, 3), b"x").err());
    assert_eq!(Some(Error::ConfigError), compress(cfg(8, 4, 0), b"x").err());
    assert_eq!(Some(Error::ConfigError), compress(cfg(4, 2, 3), b"x").err());
    assert!(Compressor::new(cfg(4, 2, 3)).is_err());
    assert_eq!(Some(Error::ConfigError), compress(cfg(4, usize::MAX, 1), b"x").err());
    assert_eq!(Some(Error::ConfigError), compress(cfg(1 << 63, 1 << 63, 1), b"x").err());
    assert!(Compressor::new(cfg(2, 2, 2)).is_ok());
}

#[test]
fn empty_write_changes_nothing() {
    let mut c = Compressor::new(cfg(16, 4, 3)).unwrap();
    c.write(b"abcab");
    let tokens = c.tokens().to_vec();
    let pending = c.pending_len();
    assert_eq!(0, c.write(b""));
    assert_eq!(tokens, c.tokens().to_vec());
    assert_eq!(pending, c.pending_len());
}

#[test]
fn emitted_tokens_decode_to_a_prefix_of_the_input() {
    let data = b"abcabcabcab";
    let mut c = Compressor::new(cfg(16, 4, 3)).unwrap();
    c.write(data);
    let done = replay(c.tokens());
    assert_eq!(data.len(), done.len() + c.pending_len());
    assert_eq!(&data[..done.len()], &done[..]);
}

#[test]
fn stepping_by_hand() {
    let mut c = Compressor::new(cfg(16, 8, 3)).unwrap();
    c.write(b"ab");
    assert_eq!(2, c.pending_len());
    assert!(c.tokens().is_empty());
    c.step(false);
    assert_eq!(vec![Token::Literal { byte: b'a' }], c.tokens().to_vec());
    assert_eq!(1, c.pending_len());
}
