use mini_llm::shapes::{causal_mask, head_dim};

#[test]
fn head_dim_splits_the_width() {
    assert_eq!(head_dim(128, 4), 32);
    assert_eq!(head_dim(64, 4), 16);
    assert_eq!(head_dim(0, 3), 0);
}

#[test]
fn causal_mask_hides_the_future() {
    assert_eq!(
        causal_mask(3),
        vec![false, true, true, false, false, true, false, false, false]
    );
    assert_eq!(causal_mask(1), vec![false]);
    assert_eq!(causal_mask(0), Vec::<bool>::new());
}

#[test]
fn causal_mask_entries_follow_rows_and_columns() {
    let n = 7;
    let mask = causal_mask(n);
    for i in 0..n {
        for j in 0..n {
            assert_eq!(mask[i * n + j], j > i);
        }
    }
}
