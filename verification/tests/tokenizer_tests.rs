use mini_llm::tokenizer::CharTokenizer;

#[test]
fn test_tokenizer_roundtrip() {
    let mut tokenizer = CharTokenizer::new();
    let text = "Hello, world!";

    tokenizer.fit(text);

    let encoded = tokenizer.encode(text);
    let decoded = tokenizer.decode(&encoded);

    assert_eq!(decoded, text);
}

#[test]
fn vocabulary_is_sorted_by_code_point() {
    let mut tokenizer = CharTokenizer::new();
    tokenizer.fit("Hello, world!");
    assert_eq!(tokenizer.vocab_size(), 10);
    // ' ' < '!' < ',' < 'H' < 'd' < 'e' < 'l' < 'o' < 'r' < 'w'
    assert_eq!(tokenizer.encode(" !,Hdelorw"), vec![0, 1, 2, 3, 4, 5, 6, 7, 8, 9]);
    assert_eq!(tokenizer.encode("Hello"), vec![3, 5, 6, 6, 7]);
}

#[test]
fn encode_skips_unknown_characters() {
    let mut tokenizer = CharTokenizer::new();
    tokenizer.fit("abc");
    assert_eq!(tokenizer.encode("axbyc"), vec![0, 1, 2]);
    assert_eq!(tokenizer.encode("xyz"), Vec::<usize>::new());
}

#[test]
fn decode_skips_unknown_tokens() {
    let mut tokenizer = CharTokenizer::new();
    tokenizer.fit("abc");
    assert_eq!(tokenizer.decode(&[2, 7, 0, 3, 1]), "cab");
    assert_eq!(tokenizer.decode(&[]), "");
}

#[test]
fn new_and_default_are_empty() {
    let tokenizer = CharTokenizer::new();
    assert_eq!(tokenizer.vocab_size(), 0);
    assert_eq!(tokenizer.encode("abc"), Vec::<usize>::new());
    let default_tokenizer = CharTokenizer::default();
    assert_eq!(default_tokenizer.vocab_size(), 0);
    assert_eq!(default_tokenizer.decode(&[0, 1]), "");
}

#[test]
fn fit_on_empty_text_keeps_nothing_new() {
    let mut tokenizer = CharTokenizer::new();
    tokenizer.fit("");
    assert_eq!(tokenizer.vocab_size(), 0);
    assert_eq!(tokenizer.encode("a"), Vec::<usize>::new());
}

#[test]
fn roundtrip_with_non_ascii_text() {
    let mut tokenizer = CharTokenizer::new();
    let text = "héllo wörld — ünïcode ✓";
    tokenizer.fit(text);
    assert_eq!(tokenizer.decode(&tokenizer.encode(text)), text);
    assert_eq!(tokenizer.decode(&tokenizer.encode("wölé")), "wölé");
}

#[test]
fn tokens_stay_below_vocab_size() {
    let mut tokenizer = CharTokenizer::new();
    let text = "the quick brown fox jumps over the lazy dog";
    tokenizer.fit(text);
    let n = tokenizer.vocab_size();
    assert_eq!(n, 27);
    assert!(tokenizer.encode(text).iter().all(|&t| t < n));
}

#[test]
fn refit_builds_the_tables_from_the_new_text_alone() {
    let mut tokenizer = CharTokenizer::new();
    tokenizer.fit("xyz");
    tokenizer.fit("ab");
    assert_eq!(tokenizer.vocab_size(), 2);
    assert_eq!(tokenizer.encode("xyz"), Vec::<usize>::new());
    assert_eq!(tokenizer.decode(&[2]), "");
    assert_eq!(tokenizer.decode(&tokenizer.encode("x")), "");
    assert_eq!(tokenizer.encode("ba"), vec![1, 0]);
    assert_eq!(tokenizer.decode(&[0, 1]), "ab");
}

#[test]
fn refit_on_a_larger_text_roundtrips() {
    let mut tokenizer = CharTokenizer::new();
    tokenizer.fit("ba");
    tokenizer.fit("abcab");
    assert_eq!(tokenizer.vocab_size(), 3);
    assert_eq!(tokenizer.decode(&tokenizer.encode("cab")), "cab");
}

#[test]
fn fitting_twice_changes_nothing() {
    let mut once = CharTokenizer::new();
    once.fit("hello");
    let mut twice = CharTokenizer::new();
    twice.fit("hello");
    twice.fit("hello");
    assert_eq!(once.vocab_size(), twice.vocab_size());
    assert_eq!(once.encode("olleh"), twice.encode("olleh"));
    assert_eq!(once.decode(&[0, 1, 2, 3]), twice.decode(&[0, 1, 2, 3]));
}

#[test]
fn clone_keeps_the_tables() {
    let mut tokenizer = CharTokenizer::new();
    tokenizer.fit("xyz");
    let copy = tokenizer.clone();
    assert_eq!(copy.vocab_size(), 3);
    assert_eq!(copy.encode("zyx"), vec![2, 1, 0]);
}
