use candle_core::Device;
use mini_llm::dataset::TextDataset;
use mini_llm::error::LlmError;
use mini_llm::tensor::default_device;

#[test]
fn len_counts_example_starts() {
    let d = TextDataset::new((0..10).collect(), 3);
    assert_eq!(d.len(), 6);
    let small = TextDataset::new(vec![1, 2, 3], 3);
    assert_eq!(small.len(), 0);
    let exact = TextDataset::new(vec![1, 2, 3, 4], 3);
    assert_eq!(exact.len(), 0);
    let empty = TextDataset::new(Vec::new(), 0);
    assert_eq!(empty.len(), 0);
}

#[test]
fn batch_data_shifts_targets_by_one() {
    let d = TextDataset::new((10..20).collect(), 3);
    let (inputs, targets) = d.batch_data(&[0, 2]);
    assert_eq!(inputs, vec![10, 11, 12, 12, 13, 14]);
    assert_eq!(targets, vec![11, 12, 13, 13, 14, 15]);
}

#[test]
fn batch_data_uses_the_last_token_as_target() {
    let d = TextDataset::new(vec![5, 6, 7, 8], 3);
    let (inputs, targets) = d.batch_data(&[0]);
    assert_eq!(inputs, vec![5, 6, 7]);
    assert_eq!(targets, vec![6, 7, 8]);
}

#[test]
fn batch_data_truncates_tokens_to_u32() {
    let big: usize = (1usize << 32) + 5;
    let d = TextDataset::new(vec![big, 1, 2], 1);
    let (inputs, targets) = d.batch_data(&[0, 1]);
    assert_eq!(inputs, vec![5, 1]);
    assert_eq!(targets, vec![1, 2]);
}

#[test]
fn get_batch_builds_two_matrices() {
    let d = TextDataset::new((10..20).collect(), 3);
    let (x, y) = d.get_batch(&[4, 0], &Device::Cpu).unwrap();
    assert_eq!(x.dims(), &[2, 3]);
    assert_eq!(y.dims(), &[2, 3]);
    assert_eq!(x.to_vec2::<u32>().unwrap(), vec![vec![14, 15, 16], vec![10, 11, 12]]);
    assert_eq!(y.to_vec2::<u32>().unwrap(), vec![vec![15, 16, 17], vec![11, 12, 13]]);
}

#[test]
fn get_batch_of_no_examples_is_empty() {
    let d = TextDataset::new((0..8).collect(), 2);
    let (x, y) = d.get_batch(&[], &Device::Cpu).unwrap();
    assert_eq!(x.dims(), &[0, 2]);
    assert_eq!(y.dims(), &[0, 2]);
}

#[test]
fn every_index_below_len_makes_a_batch() {
    let tokens: Vec<usize> = (0..50).map(|i| i % 7).collect();
    let d = TextDataset::new(tokens.clone(), 5);
    let indices: Vec<usize> = (0..d.len()).collect();
    let (x, y) = d.get_batch(&indices, &Device::Cpu).unwrap();
    assert_eq!(x.dims(), &[d.len(), 5]);
    let xs = x.to_vec2::<u32>().unwrap();
    let ys = y.to_vec2::<u32>().unwrap();
    for (k, &start) in indices.iter().enumerate() {
        for j in 0..5 {
            assert_eq!(xs[k][j] as usize, tokens[start + j]);
            assert_eq!(ys[k][j] as usize, tokens[start + j + 1]);
        }
    }
}

#[test]
fn require_examples_refuses_a_dataset_too_small() {
    let small = TextDataset::new(vec![1, 2, 3], 3);
    let err = small.require_examples().unwrap_err();
    assert!(matches!(err, LlmError::DatasetTooSmall));
    assert_eq!(err.message(), "Dataset too small! Add more text.");
    let d = TextDataset::new((0..10).collect(), 3);
    assert_eq!(d.require_examples().unwrap(), 6);
}

#[test]
fn get_batch_on_the_default_device() {
    let d = TextDataset::new(vec![10, 11, 12, 13, 14], 2);
    let (x, y) = d.get_batch(&[2, 0], &default_device()).unwrap();
    assert_eq!(x.to_vec2::<u32>().unwrap(), vec![vec![12, 13], vec![10, 11]]);
    assert_eq!(y.to_vec2::<u32>().unwrap(), vec![vec![13, 14], vec![11, 12]]);
}
