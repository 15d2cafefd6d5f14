use transformer_core::metrics::Evaluator;
use transformer_core::optimizer::OptimizerType;
use transformer_core::tensor::{
    check_mha_dims, check_sdpa_dims, concat_heads, gather_rows, split_heads,
};

#[test]
fn test_split_heads_values() {
    let m: Vec<Vec<u64>> = vec![vec![1, 2, 3, 4], vec![5, 6, 7, 8]];
    let heads = split_heads(&m, 2);
    assert_eq!(heads.len(), 2);
    assert_eq!(heads[0], vec![vec![1, 2], vec![5, 6]]);
    assert_eq!(heads[1], vec![vec![3, 4], vec![7, 8]]);
}

#[test]
fn test_concat_heads_round_trip() {
    let m: Vec<Vec<u64>> = vec![vec![1, 2, 3, 4, 5, 6], vec![7, 8, 9, 10, 11, 12]];
    let heads = split_heads(&m, 3);
    let back = concat_heads(&heads);
    assert_eq!(back, m);
}

#[test]
fn test_gather_rows_with_fallback() {
    let table: Vec<Vec<u64>> = vec![vec![10, 11], vec![20, 21], vec![30, 31]];
    let ids: Vec<usize> = vec![2, 0, 9];
    let rows = gather_rows(&table, &ids, 1);
    assert_eq!(rows, vec![vec![30, 31], vec![10, 11], vec![20, 21]]);
}

#[test]
fn test_gather_rows_empty_ids() {
    let table: Vec<Vec<u64>> = vec![vec![1]];
    let rows = gather_rows(&table, &Vec::new(), 0);
    assert!(rows.is_empty());
}

#[test]
fn test_shape_checks() {
    assert!(check_sdpa_dims(2, 4, 3, 4, 3, 4));
    assert!(!check_sdpa_dims(2, 4, 3, 5, 3, 4));
    assert!(!check_sdpa_dims(0, 4, 3, 4, 3, 4));
    assert!(!check_sdpa_dims(2, 4, 3, 4, 2, 4));

    assert!(check_mha_dims(2, 4, 2, 4, 2, 4, 2));
    assert!(!check_mha_dims(2, 4, 2, 4, 2, 4, 3));
    assert!(!check_mha_dims(2, 4, 2, 4, 2, 4, 0));
    assert!(!check_mha_dims(2, 4, 2, 4, 2, 3, 2));
}

#[test]
fn test_count_correct() {
    let evaluator = Evaluator::new();
    let predictions = [0usize, 1, 1, 0, 1];
    let labels = [0usize, 1, 0, 1, 1];
    assert_eq!(evaluator.count_correct(&predictions, &labels), 3);
    assert_eq!(evaluator.count_correct(&[], &[]), 0);
}

#[test]
fn test_prf_counts() {
    let evaluator = Evaluator::new();
    let predictions = [1usize, 1, 0, 0, 1];
    let labels = [1usize, 0, 1, 0, 1];
    let (tp, fp, fnc) = evaluator.prf_counts(&predictions, &labels);
    assert_eq!(tp, 3);
    assert_eq!(fp, 1);
    assert_eq!(fnc, 1);
}

#[test]
fn test_optimizer_type_choice() {
    let a = OptimizerType::SGD;
    let b = OptimizerType::Adam;
    assert!(a == OptimizerType::SGD);
    assert!(b != OptimizerType::SGD);
}
