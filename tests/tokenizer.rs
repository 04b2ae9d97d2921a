use llama2::tokenizer::{Tokenizer, TokenizerError, BOS, EOS};

fn tokenizer_data(pieces: &[(Vec<u8>, f32)]) -> Vec<u8> {
    let mut data = Vec::new();
    let max_len = pieces.iter().map(|p| p.0.len()).max().unwrap_or(0) as u32;
    data.extend_from_slice(&max_len.to_le_bytes());
    for (piece, score) in pieces {
        data.extend_from_slice(&score.to_le_bytes());
        data.extend_from_slice(&(piece.len() as u32).to_le_bytes());
        data.extend_from_slice(piece);
    }
    data
}

/// Reserved ids, then byte tokens written as `<0xNN>`, then `extra`.
fn hex_vocab(extra: &[(&str, f32)]) -> Vec<(Vec<u8>, f32)> {
    let mut pieces: Vec<(Vec<u8>, f32)> = vec![
        (b"<unk>".to_vec(), 0.0),
        (b"<s>".to_vec(), 0.0),
        (b"</s>".to_vec(), 0.0),
    ];
    for b in 0..=255u32 {
        pieces.push((format!("<0x{:02X}>", b).into_bytes(), 0.0));
    }
    for (p, s) in extra {
        pieces.push((p.as_bytes().to_vec(), *s));
    }
    pieces
}

/// Reserved ids, then byte tokens that are the bytes themselves (ASCII only), then `extra`.
fn byte_vocab(extra: &[(&str, f32)]) -> Vec<(Vec<u8>, f32)> {
    let mut pieces: Vec<(Vec<u8>, f32)> = vec![
        (b"<unk>".to_vec(), 0.0),
        (b"<s>".to_vec(), 0.0),
        (b"</s>".to_vec(), 0.0),
    ];
    for b in 0..=255u32 {
        if b < 128 {
            pieces.push((vec![b as u8], 0.0));
        } else {
            pieces.push((format!("<0x{:02X}>", b).into_bytes(), 0.0));
        }
    }
    for (p, s) in extra {
        pieces.push((p.as_bytes().to_vec(), *s));
    }
    pieces
}

fn build(pieces: &[(Vec<u8>, f32)]) -> Tokenizer {
    Tokenizer::new(&tokenizer_data(pieces), pieces.len() as u32).unwrap()
}

fn decode_all(t: &Tokenizer, tokens: &[u32]) -> String {
    let mut out = String::new();
    for w in tokens.windows(2) {
        out.push_str(&t.decode(w[1], w[0]).unwrap());
    }
    out
}

#[test]
fn encode_empty_is_bos_only() {
    let t = build(&hex_vocab(&[(" ", 0.0), ("a", 0.0)]));
    assert_eq!(t.encode("", true, false).unwrap(), vec![1]);
    assert_eq!(t.encode("", false, false).unwrap(), Vec::<u32>::new());
    assert_eq!(t.encode("", true, true).unwrap(), vec![1, 2]);
}

#[test]
fn encode_single_known_char() {
    let t = build(&hex_vocab(&[(" ", 0.0), ("a", 0.0)]));
    let space = t.token_lookup(b" ").unwrap();
    let a = t.token_lookup(b"a").unwrap();
    assert_eq!(space, 259);
    assert_eq!(a, 260);
    assert_eq!(t.encode("a", true, false).unwrap(), vec![BOS, space, a]);
}

#[test]
fn encode_unknown_byte_falls_back() {
    let t = build(&hex_vocab(&[(" ", 0.0), ("a", 0.0)]));
    let space = t.token_lookup(b" ").unwrap();
    assert_eq!(t.encode("\x01", true, false).unwrap(), vec![1, space, 4]);
    // a two-byte character that is no piece: one token per byte
    assert_eq!(
        t.encode("é", false, true).unwrap(),
        vec![space, 0xC3 + 3, 0xA9 + 3, EOS]
    );
}

#[test]
fn encode_without_space_piece_fails() {
    let t = build(&hex_vocab(&[("a", 0.0)]));
    assert_eq!(t.encode("a", true, false), Err(TokenizerError::MissingSpacePiece));
    assert_eq!(t.encode("", true, false).unwrap(), vec![1]);
}

#[test]
fn merges_take_highest_score() {
    let t = build(&hex_vocab(&[
        (" ", 0.0),
        ("a", 0.0),
        ("b", 0.0),
        ("c", 0.0),
        ("ab", 1.0),
        ("bc", 2.0),
        (" a", -1.0),
    ]));
    let id = |s: &str| t.token_lookup(s.as_bytes()).unwrap();
    // "bc" scores higher than "ab" and " a" merges last
    assert_eq!(t.encode("abc", false, false).unwrap(), vec![id(" a"), id("bc")]);
}

#[test]
fn merges_on_equal_scores_take_earliest_pair() {
    let t = build(&hex_vocab(&[(" ", 0.0), ("a", 0.0), ("aa", 5.0)]));
    let id = |s: &str| t.token_lookup(s.as_bytes()).unwrap();
    // pairs (a,a) at 1, 2, 3 all score 5: the earliest merges first
    assert_eq!(
        t.encode("aaa", false, false).unwrap(),
        vec![id(" "), id("aa"), id("a")]
    );
    assert_eq!(
        t.encode("aaaa", false, false).unwrap(),
        vec![id(" "), id("aa"), id("aa")]
    );
}

#[test]
fn merge_with_negative_scores_still_happens() {
    let t = build(&hex_vocab(&[(" ", 0.0), ("x", 0.0), ("xy", -1.0e12), ("y", 0.0)]));
    let id = |s: &str| t.token_lookup(s.as_bytes()).unwrap();
    assert_eq!(t.encode("xy", false, false).unwrap(), vec![id(" "), id("xy")]);
}

#[test]
fn lookup_finds_lowest_id_of_duplicates() {
    let t = build(&hex_vocab(&[(" ", 0.0), ("dup", 0.0), ("dup", 3.0)]));
    assert_eq!(t.token_lookup(b"dup"), Some(260));
    assert_eq!(t.token_lookup(b"du"), None);
    assert_eq!(t.token_lookup(b"<s>"), Some(1));
    assert_eq!(t.token_lookup(b"<0x41>"), Some(3 + 0x41));
}

#[test]
fn sorted_index_is_a_permutation_in_piece_order() {
    let t = build(&hex_vocab(&[(" ", 0.0), ("zz", 0.0), ("b", 0.0), ("", 0.0)]));
    let n = t.vocab_size as usize;
    let mut seen = vec![false; n];
    for &id in t.vocab_sorted.iter() {
        assert!(!seen[id as usize]);
        seen[id as usize] = true;
    }
    assert!(seen.iter().all(|&s| s));
    for w in t.vocab_sorted.windows(2) {
        let (a, b) = (&t.vocab[w[0] as usize], &t.vocab[w[1] as usize]);
        assert!(a < b || (a == b && w[0] < w[1]));
    }
}

#[test]
fn new_reads_scores_and_header() {
    let pieces = hex_vocab(&[(" ", 1.5), ("hello", -2.25)]);
    let t = build(&pieces);
    assert_eq!(t.vocab_size, 261);
    assert_eq!(t.max_token_length, 6);
    assert_eq!(t.vocab[260], "hello");
    assert_eq!(t.vocab_scores[259], 1.5f32.to_bits());
    assert_eq!(t.vocab_scores[260], (-2.25f32).to_bits());
}

#[test]
fn new_rejects_small_and_truncated_data() {
    let pieces = hex_vocab(&[(" ", 0.0)]);
    let data = tokenizer_data(&pieces);
    assert!(matches!(Tokenizer::new(&data, 100), Err(TokenizerError::VocabTooSmall)));
    assert!(matches!(
        Tokenizer::new(&data[..data.len() - 1], pieces.len() as u32),
        Err(TokenizerError::Truncated)
    ));
    assert!(matches!(
        Tokenizer::new(&data, pieces.len() as u32 + 1),
        Err(TokenizerError::Truncated)
    ));
    assert!(matches!(Tokenizer::new(&data[..3], 300), Err(TokenizerError::Truncated)));
    // trailing bytes after the last record are ignored
    let mut longer = data.clone();
    longer.push(7);
    assert!(Tokenizer::new(&longer, pieces.len() as u32).is_ok());
}

#[test]
fn new_replaces_invalid_utf8() {
    let mut pieces = hex_vocab(&[(" ", 0.0)]);
    pieces.push((vec![0xff, b'a'], 0.0));
    let t = build(&pieces);
    assert_eq!(t.vocab[260], "\u{fffd}a");
}

#[test]
fn decode_strips_space_after_bos_only() {
    let t = build(&hex_vocab(&[(" ", 0.0), (" hi", 0.0), ("x", 0.0)]));
    let hi = t.token_lookup(b" hi").unwrap();
    assert_eq!(t.decode(hi, BOS).unwrap(), "hi");
    assert_eq!(t.decode(hi, 7).unwrap(), " hi");
    assert_eq!(t.decode(259, BOS).unwrap(), "");
    assert_eq!(t.decode(1, 1).unwrap(), "<s>");
    assert_eq!(t.decode(10_000, 1), Err(TokenizerError::UnknownToken));
}

#[test]
fn decode_after_encode_gives_text_back() {
    let t = build(&byte_vocab(&[("he", 1.0), ("ll", 2.0), ("llo", 3.0), (" he", 0.5)]));
    for text in ["hello", "a b", "hello world", "x"] {
        let tokens = t.encode(text, true, false).unwrap();
        assert_eq!(tokens[0], BOS);
        assert_eq!(decode_all(&t, &tokens), text);
    }
}

#[test]
fn encode_clusters_matches_encode() {
    let t = build(&byte_vocab(&[("he", 1.0), ("ll", 2.0)]));
    let clusters: Vec<Vec<u8>> = "hello".bytes().map(|b| vec![b]).collect();
    assert_eq!(
        t.encode_clusters(&clusters, true, true).unwrap(),
        t.encode("hello", true, true).unwrap()
    );
}

#[test]
fn grapheme_clusters_stay_whole() {
    // "e" + combining acute accent is one cluster: looked up as a whole
    let t = build(&hex_vocab(&[(" ", 0.0), ("e\u{301}", 0.0)]));
    let id = t.token_lookup("e\u{301}".as_bytes()).unwrap();
    assert_eq!(t.encode("e\u{301}", false, false).unwrap(), vec![259, id]);
}
