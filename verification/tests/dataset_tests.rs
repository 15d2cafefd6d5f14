use transformer_core::dataset::{DataError, DataLoader, extension_of, parse_usize};
use transformer_core::tokenizer::Tokenizer;
use transformer_core::vocab::Vocab;

fn small_vocab() -> Vocab {
    let mut vocab = Vocab::new();
    vocab.insert("[PAD]", 0);
    vocab.insert("[UNK]", 1);
    vocab.insert("hello", 2);
    vocab.insert("world", 3);
    vocab
}

#[test]
fn test_data_loader() {
    let vocab = small_vocab();
    let tokenizer = Tokenizer::new(vocab, 128);
    let data_loader = DataLoader::new(&tokenizer);

    let content = r#"[
        {"text": "hello world", "label": 1},
        {"text": "world hello hello", "label": 0}
    ]"#;
    let result = data_loader.load_dataset("src/test_dataset.json", content);
    assert!(result.is_ok());
}

#[test]
fn test_load_json_values() {
    let vocab = small_vocab();
    let tokenizer = Tokenizer::new(vocab, 4);
    let loader = DataLoader::new(&tokenizer);

    let content = r#"[{"text": "hello stranger", "label": 1}]"#;
    let (inputs, labels) = loader.load_dataset("d.json", content).unwrap();
    assert_eq!(inputs, vec![vec![2, 1, 0, 0]]);
    assert_eq!(labels, vec![1]);
}

#[test]
fn test_load_json_not_an_array_is_empty() {
    let vocab = small_vocab();
    let tokenizer = Tokenizer::new(vocab, 4);
    let loader = DataLoader::new(&tokenizer);

    let (inputs, labels) = loader.load_dataset("d.json", r#"{"text": "hello"}"#).unwrap();
    assert!(inputs.is_empty());
    assert!(labels.is_empty());
}

#[test]
fn test_load_json_errors() {
    let vocab = small_vocab();
    let tokenizer = Tokenizer::new(vocab, 4);
    let loader = DataLoader::new(&tokenizer);

    let missing_text = loader.load_dataset("d.json", r#"[{"label": 1}]"#);
    assert!(matches!(missing_text, Err(DataError::MissingText)));

    let missing_label = loader.load_dataset("d.json", r#"[{"text": "hello"}]"#);
    assert!(matches!(missing_label, Err(DataError::MissingLabel)));

    let bad_label = loader.load_dataset("d.json", r#"[{"text": "hello", "label": -3}]"#);
    assert!(matches!(bad_label, Err(DataError::BadLabel)));

    let malformed = loader.load_dataset("d.json", "not json at all");
    assert!(matches!(malformed, Err(DataError::Parse(_))));
}

#[test]
fn test_load_csv_values() {
    let vocab = small_vocab();
    let tokenizer = Tokenizer::new(vocab, 3);
    let loader = DataLoader::new(&tokenizer);

    let content = "text,label\nhello world,1\nworld,0\n";
    let (inputs, labels) = loader.load_dataset("data.csv", content).unwrap();
    assert_eq!(inputs, vec![vec![2, 3, 0], vec![3, 0, 0]]);
    assert_eq!(labels, vec![1, 0]);
}

#[test]
fn test_load_csv_bad_label() {
    let vocab = small_vocab();
    let tokenizer = Tokenizer::new(vocab, 3);
    let loader = DataLoader::new(&tokenizer);

    let content = "text,label\nhello,x\n";
    let result = loader.load_dataset("data.csv", content);
    assert!(matches!(result, Err(DataError::BadLabel)));
}

#[test]
fn test_load_dataset_unsupported_format() {
    let vocab = small_vocab();
    let tokenizer = Tokenizer::new(vocab, 3);
    let loader = DataLoader::new(&tokenizer);

    let plain = loader.load_dataset("data.txt", "hello,1");
    assert!(matches!(plain, Err(DataError::UnsupportedFormat)));

    let no_ext = loader.load_dataset("data", "hello,1");
    assert!(matches!(no_ext, Err(DataError::UnsupportedFormat)));

    let hidden = loader.load_dataset(".json", "[]");
    assert!(matches!(hidden, Err(DataError::UnsupportedFormat)));
}

#[test]
fn test_create_batches_exact_chunks() {
    let vocab = small_vocab();
    let tokenizer = Tokenizer::new(vocab, 2);
    let loader = DataLoader::new(&tokenizer);

    let inputs: Vec<Vec<usize>> = (0..70).map(|k| vec![k, k]).collect();
    let labels: Vec<usize> = (0..70).collect();
    let batches = loader.create_batches(inputs, labels);

    assert_eq!(batches.len(), 3);
    assert_eq!(batches[0].0.len(), 32);
    assert_eq!(batches[0].1.len(), 32);
    assert_eq!(batches[1].0.len(), 32);
    assert_eq!(batches[2].0.len(), 6);
    assert_eq!(batches[2].1.len(), 6);
    assert_eq!(batches[2].0[5], vec![69, 69]);
    assert_eq!(batches[2].1[5], 69);
}

#[test]
fn test_create_batches_uneven_lengths() {
    let vocab = small_vocab();
    let tokenizer = Tokenizer::new(vocab, 2);
    let loader = DataLoader::new(&tokenizer);

    let inputs: Vec<Vec<usize>> = (0..33).map(|k| vec![k]).collect();
    let labels: Vec<usize> = (0..40).collect();
    let batches = loader.create_batches(inputs, labels);

    assert_eq!(batches.len(), 2);
    assert_eq!(batches[0].0.len(), 32);
    assert_eq!(batches[0].1.len(), 32);
    assert_eq!(batches[1].0.len(), 1);
    assert_eq!(batches[1].1.len(), 8);
}

#[test]
fn test_create_batches_empty() {
    let vocab = small_vocab();
    let tokenizer = Tokenizer::new(vocab, 2);
    let loader = DataLoader::new(&tokenizer);
    let batches = loader.create_batches(Vec::new(), Vec::new());
    assert!(batches.is_empty());
}

#[test]
fn test_parse_usize_forms() {
    assert_eq!(parse_usize("42"), Some(42));
    assert_eq!(parse_usize("+7"), Some(7));
    assert_eq!(parse_usize("0"), Some(0));
    assert_eq!(parse_usize(""), None);
    assert_eq!(parse_usize("+"), None);
    assert_eq!(parse_usize("4a"), None);
    assert_eq!(parse_usize("-1"), None);
    assert_eq!(parse_usize(" 3"), None);
    assert_eq!(parse_usize("18446744073709551615"), Some(usize::MAX));
    assert_eq!(parse_usize("18446744073709551616"), None);
}

#[test]
fn test_extension_of_paths() {
    assert_eq!(extension_of("a/b.csv"), Some("csv".to_string()));
    assert_eq!(extension_of("data.json"), Some("json".to_string()));
    assert_eq!(extension_of("dir.d/plain"), None);
    assert_eq!(extension_of(".gitignore"), None);
    assert_eq!(extension_of("x."), Some("".to_string()));
    assert_eq!(extension_of("a.b.c"), Some("c".to_string()));
}
