use mini_llm::schedule::{batch_bounds, example_indices, num_batches, shuffle_examples};

#[test]
fn example_indices_count_up() {
    assert_eq!(example_indices(5), vec![0, 1, 2, 3, 4]);
    assert_eq!(example_indices(0), Vec::<usize>::new());
}

#[test]
fn shuffle_keeps_every_index() {
    let mut indices = example_indices(100);
    shuffle_examples(&mut indices);
    assert_eq!(indices.len(), 100);
    let mut sorted = indices.clone();
    sorted.sort();
    assert_eq!(sorted, example_indices(100));
}

#[test]
fn num_batches_rounds_up() {
    assert_eq!(num_batches(10, 3), 4);
    assert_eq!(num_batches(9, 3), 3);
    assert_eq!(num_batches(0, 32), 0);
    assert_eq!(num_batches(1, 32), 1);
}

#[test]
fn batch_bounds_step_through_the_epoch() {
    assert_eq!(batch_bounds(10, 3), vec![(0, 3), (3, 6), (6, 9), (9, 10)]);
    assert_eq!(batch_bounds(9, 3), vec![(0, 3), (3, 6), (6, 9)]);
    assert_eq!(batch_bounds(0, 3), Vec::<(usize, usize)>::new());
    assert_eq!(batch_bounds(2, 32), vec![(0, 2)]);
}

#[test]
fn batches_of_an_epoch_visit_each_example_once() {
    let n = 23;
    let batch_size = 5;
    let mut order = example_indices(n);
    shuffle_examples(&mut order);
    let bounds = batch_bounds(n, batch_size);
    assert_eq!(bounds.len(), num_batches(n, batch_size));
    let mut visited: Vec<usize> = Vec::new();
    for (start, end) in bounds {
        assert!(end > start && end - start <= batch_size);
        visited.extend_from_slice(&order[start..end]);
    }
    assert_eq!(visited, order);
    visited.sort();
    assert_eq!(visited, example_indices(n));
}
