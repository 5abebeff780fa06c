use lucid_tokenizer::BPETokenizer;
use lucid_tokenizer::TokenizerError;

// The base vocabulary for ASCII-only corpora: the 256 base codepoints, the
// word-boundary marker, and the default end-of-text special token.
const ASCII_BASE: usize = 258;

#[test]
fn test_pair_selection_tie_break() {
    // (5,6), (6,1) and (1,2) each occur twice; (2,5) occurs once. Ties go
    // to the lexicographically smallest pair.
    let ids = vec![5, 6, 1, 2, 5, 6, 1, 2];
    let most = BPETokenizer::find_freq_pair(&ids, "most").unwrap();
    assert_eq!(most, Some((1, 2)));
    let least = BPETokenizer::find_freq_pair(&ids, "least").unwrap();
    assert_eq!(least, Some((2, 5)));
}

#[test]
fn test_pair_selection_repeated_runs_agree() {
    let ids = vec![1, 2, 1, 2, 1, 3, 2, 1];
    let first = BPETokenizer::find_freq_pair(&ids, "most").unwrap();
    for _ in 0..5 {
        assert_eq!(BPETokenizer::find_freq_pair(&ids, "most").unwrap(), first);
    }
    // (2,1) occurs three times, strictly more than any other pair.
    assert_eq!(first, Some((2, 1)));
}

#[test]
fn test_pair_selection_invalid_mode() {
    let ids = vec![1, 2, 3];
    let result = BPETokenizer::find_freq_pair(&ids, "weird");
    assert!(matches!(result, Err(TokenizerError::InvalidMode)));
}

#[test]
fn test_pair_selection_no_pair() {
    let ids = vec![7];
    assert_eq!(BPETokenizer::find_freq_pair(&ids, "most").unwrap(), None);
    let empty: Vec<usize> = Vec::new();
    assert_eq!(BPETokenizer::find_freq_pair(&empty, "most").unwrap(), None);
}

#[test]
fn test_single_merge_non_overlapping() {
    // Scenario: train on "aaaa" with room for exactly one merge. The one
    // accepted merge is (a, a); encoding "aaaa" replaces non-overlapping
    // occurrences left to right, giving two merged ids, not three.
    let mut tokenizer = BPETokenizer::new();
    tokenizer.train("aaaa", ASCII_BASE + 1, None).unwrap();
    assert_eq!(tokenizer.vocab_size(), ASCII_BASE + 1);
    assert_eq!(tokenizer.merges_count(), 1);

    let merged_id = ASCII_BASE;
    let encoded = tokenizer.encode("aaaa", None).unwrap();
    assert_eq!(encoded, vec![merged_id, merged_id]);

    let decoded = tokenizer.decode(&encoded).unwrap();
    assert_eq!(decoded, "aaaa");
}

#[test]
fn test_vocab_never_exceeds_target_above_base() {
    let mut tokenizer = BPETokenizer::new();
    tokenizer.train("abab abab abab cdcd cdcd", ASCII_BASE + 4, None).unwrap();
    assert!(tokenizer.vocab_size() <= ASCII_BASE + 4);
}

#[test]
fn test_merges_count_equals_vocab_growth() {
    let mut tokenizer = BPETokenizer::new();
    tokenizer.train("abab abab abab cdcd cdcd", ASCII_BASE + 4, None).unwrap();
    assert_eq!(tokenizer.merges_count(), tokenizer.vocab_size() - ASCII_BASE);

    let mut small = BPETokenizer::new();
    small.train("hello world", 100, None).unwrap();
    // Target below the base size: no merge is accepted.
    assert_eq!(small.vocab_size(), ASCII_BASE);
    assert_eq!(small.merges_count(), 0);
}

#[test]
fn test_exact_ids_without_merges() {
    let mut tokenizer = BPETokenizer::new();
    tokenizer.train("", 0, None).unwrap();
    assert_eq!(tokenizer.vocab_size(), ASCII_BASE);

    // Base ids are the codepoints; the marker has id 256.
    assert_eq!(tokenizer.encode("ab", None).unwrap(), vec![97, 98]);
    assert_eq!(tokenizer.encode("a b", None).unwrap(), vec![97, 256, 98]);
    assert_eq!(tokenizer.encode("a\nb", None).unwrap(), vec![97, 10, 98]);
    assert_eq!(tokenizer.decode(&vec![97, 256, 98]).unwrap(), "a b");
}

#[test]
fn test_whitespace_round_trips_exactly() {
    let mut tokenizer = BPETokenizer::new();
    tokenizer.train("", 0, None).unwrap();
    for text in [
        "a  b",
        " a",
        "a ",
        " a ",
        "a \n b",
        "\n\na",
        "a\n",
        "  ",
        "word,  and; punct!",
    ] {
        let encoded = tokenizer.encode(text, None).unwrap();
        let decoded = tokenizer.decode(&encoded).unwrap();
        assert_eq!(decoded, text);
    }
}

#[test]
fn test_persisted_state_round_trips() {
    let mut tokenizer = BPETokenizer::new();
    let text = "to be or not to be, that is the question \u{1F30D}";
    tokenizer
        .train(text, ASCII_BASE + 10, Some(vec!["<|endoftext|>".to_string()]))
        .unwrap();

    let vocab_json = tokenizer.serialize_vocab();
    let merges_json = tokenizer.serialize_merges();

    let mut loaded = BPETokenizer::new();
    loaded.load_serialized(&vocab_json, &merges_json).unwrap();

    assert_eq!(loaded.vocab_size(), tokenizer.vocab_size());
    assert_eq!(loaded.merges_count(), tokenizer.merges_count());
    assert_eq!(
        loaded.encode(text, None).unwrap(),
        tokenizer.encode(text, None).unwrap()
    );

    // Saving the loaded instance reproduces the artifacts verbatim.
    assert_eq!(loaded.serialize_vocab(), vocab_json);
    assert_eq!(loaded.serialize_merges(), merges_json);
}

#[test]
fn test_artifacts_escape_delimiters() {
    // Ids 0..256 are always present, so the artifact holds the quote, the
    // backslash and control characters; they must survive a round trip.
    let mut tokenizer = BPETokenizer::new();
    tokenizer.train("\"quoted\" and back\\slash", 0, None).unwrap();
    let vocab_json = tokenizer.serialize_vocab();
    let merges_json = tokenizer.serialize_merges();
    let mut loaded = BPETokenizer::new();
    loaded.load_serialized(&vocab_json, &merges_json).unwrap();
    assert_eq!(loaded.vocab_size(), tokenizer.vocab_size());
    let text = "a\tb \"c\\d\"";
    assert_eq!(
        loaded.encode(text, None).unwrap(),
        tokenizer.encode(text, None).unwrap()
    );
    assert_eq!(loaded.decode(&loaded.encode(text, None).unwrap()).unwrap(), text);
}

#[test]
fn test_load_rejects_malformed_artifacts() {
    let mut tokenizer = BPETokenizer::new();
    let result = tokenizer.load_serialized("not an object", "[]");
    assert!(matches!(result, Err(TokenizerError::SerializationError(_))));

    // A gap in the ids (no id 0) is rejected too.
    let result = tokenizer.load_serialized("{\n  \"1\": \"a\"\n}", "[]");
    assert!(matches!(result, Err(TokenizerError::SerializationError(_))));

    // The failed loads left the tokenizer untouched.
    assert_eq!(tokenizer.vocab_size(), 0);
}

#[test]
fn test_load_skips_malformed_merge_records() {
    let mut tokenizer = BPETokenizer::new();
    let vocab_json = "{\n  \"0\": \"x\"\n}";
    // One well-formed record, one with a three-element pair (skipped).
    let merges_json = "[\n  { \"pair\": [ 1, 2 ], \"new_id\": 3 },\n  { \"pair\": [ 1, 2, 3 ], \"new_id\": 4 }\n]";
    tokenizer.load_serialized(vocab_json, merges_json).unwrap();
    assert_eq!(tokenizer.vocab_size(), 1);
    assert_eq!(tokenizer.merges_count(), 1);
}

#[test]
fn test_load_accepts_reordered_vocab_entries() {
    let mut tokenizer = BPETokenizer::new();
    let vocab_json = "{\n  \"1\": \"b\",\n  \"0\": \"a\"\n}";
    tokenizer.load_serialized(vocab_json, "[]").unwrap();
    assert_eq!(tokenizer.vocab_size(), 2);
    assert_eq!(tokenizer.decode(&vec![0, 1]).unwrap(), "ab");
}

#[test]
fn test_decode_strips_marker_prefix() {
    let mut tokenizer = BPETokenizer::new();
    tokenizer.train("", 0, None).unwrap();
    // Id 256 is the word-boundary marker: it renders as one space.
    assert_eq!(tokenizer.decode(&vec![256]).unwrap(), " ");
    assert_eq!(tokenizer.decode(&vec![104, 105]).unwrap(), "hi");
}

#[test]
fn test_special_token_single_id() {
    let mut tokenizer = BPETokenizer::new();
    let specials = vec!["<|endoftext|>".to_string()];
    tokenizer.train("x <|endoftext|> y", 100, Some(specials.clone())).unwrap();
    let special_id = tokenizer.token_to_id("<|endoftext|>").unwrap();

    let encoded = tokenizer.encode("x <|endoftext|> y", Some(&specials)).unwrap();
    // "x", then a marker for the space, the special token as one id, a
    // marker-prefixed space again, then "y".
    assert_eq!(encoded, vec![120, 256, special_id, 256, 121]);
}
