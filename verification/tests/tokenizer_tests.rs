use transformer_core::tokenizer::{preprocess_text, Tokenizer};
use transformer_core::vocab::Vocab;

fn small_vocab() -> Vocab {
    let mut vocab = Vocab::new();
    vocab.insert("[PAD]", 0);
    vocab.insert("[UNK]", 1);
    vocab.insert("hello", 2);
    vocab.insert("world", 3);
    vocab
}

#[test]
fn test_vocab_verification() {
    let mut vocab = Vocab::new();
    vocab.insert("[PAD]", 0);
    vocab.insert("[UNK]", 1);
    assert!(Tokenizer::verify_vocab(&vocab));
}

#[test]
fn test_vocab_missing_special_token_rejected() {
    let mut vocab = Vocab::new();
    vocab.insert("[PAD]", 0);
    assert!(!Tokenizer::verify_vocab(&vocab));
}

#[test]
fn test_tokenization_and_padding() {
    let vocab = small_vocab();
    let tokenizer = Tokenizer::new(vocab, 5);

    let tokenized = tokenizer.tokenize("hello world unknown");
    assert_eq!(tokenized, vec![2, 3, 1]);

    let padded = tokenizer.pad_sequence(tokenized);
    assert_eq!(padded, vec![2, 3, 1, 0, 0]);
}

#[test]
fn test_build_vocab() {
    let dataset = vec![
        "hello world".to_string(),
        "hello Rust".to_string(),
        "hello hello".to_string(),
    ];
    let special_tokens = ["[PAD]", "[UNK]"];
    let vocab = Tokenizer::build_vocab(&dataset, &special_tokens, Some(5));

    assert!(vocab.contains("[PAD]"));
    assert!(vocab.contains("[UNK]"));
    assert!(vocab.contains("hello"));
    assert!(vocab.contains("world"));
}

#[test]
fn test_build_vocab_frequency_order() {
    let dataset = vec!["b b b a a c".to_string()];
    let special_tokens = ["[PAD]", "[UNK]"];
    let vocab = Tokenizer::build_vocab(&dataset, &special_tokens, Some(4));

    assert_eq!(vocab.len(), 4);
    assert_eq!(vocab.get("[PAD]"), Some(0));
    assert_eq!(vocab.get("[UNK]"), Some(1));
    assert_eq!(vocab.get("b"), Some(2));
    assert_eq!(vocab.get("a"), Some(3));
    assert_eq!(vocab.get("c"), None);
}

#[test]
fn test_build_vocab_no_limit_keeps_all_but_special_count() {
    // Without a limit the cap equals the number of distinct words, so the
    // last `special_tokens.len()` of them stay out.
    let dataset = vec!["b b b a a c".to_string()];
    let special_tokens = ["[PAD]", "[UNK]"];
    let vocab = Tokenizer::build_vocab(&dataset, &special_tokens, None);

    assert_eq!(vocab.len(), 3);
    assert!(vocab.contains("b"));
    assert!(!vocab.contains("a"));
    assert!(!vocab.contains("c"));
}

#[test]
fn test_tokenize_normalizes_case_and_punctuation() {
    let vocab = small_vocab();
    let tokenizer = Tokenizer::new(vocab, 8);

    assert_eq!(tokenizer.tokenize("Hello, WORLD!"), vec![2, 3]);
    assert_eq!(tokenizer.tokenize(""), Vec::<usize>::new());
    assert_eq!(tokenizer.tokenize("   "), Vec::<usize>::new());
    // Punctuation is dropped, not treated as a separator: the halves rejoin.
    assert_eq!(tokenizer.tokenize("he,llo"), vec![2]);
}

#[test]
fn test_pad_sequence_truncates_long_input() {
    let vocab = small_vocab();
    let tokenizer = Tokenizer::new(vocab, 2);

    let tokenized = tokenizer.tokenize("hello world unknown");
    let padded = tokenizer.pad_sequence(tokenized);
    assert_eq!(padded, vec![2, 3]);
}

#[test]
fn test_tokenize_and_pad_batch_shapes() {
    let vocab = small_vocab();
    let tokenizer = Tokenizer::new(vocab, 4);

    let texts = vec!["hello world".to_string(), "world".to_string()];
    let batch = tokenizer.tokenize_and_pad_batch(&texts);
    assert_eq!(batch.len(), 2);
    assert_eq!(batch[0], vec![2, 3, 0, 0]);
    assert_eq!(batch[1], vec![3, 0, 0, 0]);
}

#[test]
fn test_preprocess_text_words() {
    assert_eq!(preprocess_text("Hello,  wide	World!"), vec!["hello", "wide", "world"]);
    assert_eq!(preprocess_text("...!!!"), Vec::<String>::new());
    assert_eq!(preprocess_text("a1 b2"), vec!["a1", "b2"]);
}

#[test]
fn test_vocab_insert_replaces() {
    let mut vocab = Vocab::new();
    vocab.insert("a", 1);
    vocab.insert("a", 5);
    assert_eq!(vocab.len(), 1);
    assert_eq!(vocab.get("a"), Some(5));
    assert_eq!(vocab.get("b"), None);
}
