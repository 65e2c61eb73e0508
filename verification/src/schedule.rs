//! How an epoch walks through the training examples: every example index,
//! shuffled, then cut into consecutive batches.
use rand::rngs::ThreadRng;
use vstd::prelude::*;

use crate::dataset::{example_count, DatasetModel};

verus! {

/// The thread-local random number generator of `rand`.
#[verifier::external_type_specification]
#[verifier::external_body]
pub struct ExThreadRng(ThreadRng);

/// `rand::thread_rng()`: the generator seeded by the system; nothing is stated of it.
#[verifier::external_body]
fn thread_rng() -> ThreadRng {
    rand::thread_rng()
}

/// `SliceRandom::shuffle` on the elements of `v` (a Fisher-Yates shuffle: it only
/// swaps elements, so the result is a permutation of the input). Which
/// permutation comes out depends on the generator and is not stated.
#[verifier::external_body]
fn shuffle_with(v: &mut Vec<usize>, rng: &mut ThreadRng)
    ensures
        final(v)@.to_multiset() == old(v)@.to_multiset(),
{
    rand::seq::SliceRandom::shuffle(v.as_mut_slice(), rng)
}

/// The example indices `0, 1, ..., n - 1`.
pub open spec fn all_examples(n: nat) -> Seq<usize> {
    Seq::new(n, |i: int| i as usize)
}

/// The indices `0..n` of all examples, in order.
pub fn example_indices(n: usize) -> (r: Vec<usize>)
    ensures
        r@ == all_examples(n as nat),
{
    let mut r: Vec<usize> = Vec::new();
    for i in 0..n
        invariant
            r@ == all_examples(i as nat),
    {
        r.push(i);
        proof {
            assert(r@ =~= all_examples((i + 1) as nat));
        }
    }
    r
}

/// Puts the example indices in a random order (a permutation of the old order).
pub fn shuffle_examples(indices: &mut Vec<usize>)
    ensures
        final(indices)@.to_multiset() == old(indices)@.to_multiset(),
{
    let mut rng = thread_rng();
    shuffle_with(indices, &mut rng);
}

/// The number of batches of at most `batch_size` examples that cover `n` examples.
pub open spec fn batch_count(n: nat, batch_size: nat) -> nat {
    ((n + batch_size - 1) as nat / batch_size) as nat
}

/// Number of batches per epoch: `n` examples in batches of `batch_size`, rounded up.
pub fn num_batches(n: usize, batch_size: usize) -> (r: usize)
    requires
        batch_size > 0,
        n + batch_size <= usize::MAX,
    ensures
        r == batch_count(n as nat, batch_size as nat),
{
    (n + batch_size - 1) / batch_size
}

/// The batches `[start, end)` from `start` on: each starts where the previous
/// ended, holds `batch_size` examples, and the last stops at `n`.
pub open spec fn batch_bounds_from(start: nat, n: nat, batch_size: nat) -> Seq<(usize, usize)>
    decreases (if start >= n { 0 } else { n - start }),
{
    if start >= n || batch_size == 0 {
        Seq::empty()
    } else {
        let end = if start + batch_size < n { start + batch_size } else { n };
        seq![(start as usize, end as usize)] + batch_bounds_from(start + batch_size, n, batch_size)
    }
}

/// The batches of one epoch over `n` examples.
pub open spec fn batch_bounds_spec(n: nat, batch_size: nat) -> Seq<(usize, usize)> {
    batch_bounds_from(0, n, batch_size)
}

/// The position ranges `[start, end)` of the batches of an epoch over `n`
/// examples: starts `0, batch_size, 2 * batch_size, ...` below `n`, each end at
/// most `n`.
pub fn batch_bounds(n: usize, batch_size: usize) -> (r: Vec<(usize, usize)>)
    requires
        batch_size > 0,
        n + batch_size <= usize::MAX,
    ensures
        r@ == batch_bounds_spec(n as nat, batch_size as nat),
{
    let mut r: Vec<(usize, usize)> = Vec::new();
    let mut start: usize = 0;
    while start < n
        invariant
            batch_size > 0,
            n + batch_size <= usize::MAX,
            start <= n,
            r@ + batch_bounds_from(start as nat, n as nat, batch_size as nat)
                == batch_bounds_spec(n as nat, batch_size as nat),
        decreases n - start,
    {
        let end = if start + batch_size < n { start + batch_size } else { n };
        let ghost before = r@;
        r.push((start, end));
        proof {
            assert(before + batch_bounds_from(start as nat, n as nat, batch_size as nat)
                =~= r@ + batch_bounds_from((start + batch_size) as nat, n as nat, batch_size as nat));
        }
        if start + batch_size < n {
            start = start + batch_size;
        } else {
            start = n;
            proof {
                assert(batch_bounds_from((start + batch_size) as nat, n as nat, batch_size as nat)
                    =~= batch_bounds_from(n as nat, n as nat, batch_size as nat));
            }
        }
    }
    proof {
        assert(r@ + batch_bounds_from(start as nat, n as nat, batch_size as nat) =~= r@);
    }
    r
}

/// The batches of example indices that an epoch visits: `order` cut at `bounds`.
pub open spec fn batches_of(order: Seq<usize>, bounds: Seq<(usize, usize)>) -> Seq<Seq<usize>> {
    Seq::new(bounds.len(), |k: int| order.subrange(bounds[k].0 as int, bounds[k].1 as int))
}

/// The batches of one epoch that walks the examples in `order`.
pub open spec fn epoch_batches(order: Seq<usize>, batch_size: nat) -> Seq<Seq<usize>> {
    batches_of(order, batch_bounds_spec(order.len(), batch_size))
}

/// `num_batches` counts the batches that `batch_bounds` produces.
pub proof fn lemma_batch_count(n: nat, batch_size: nat)
    requires
        batch_size > 0,
    ensures
        batch_bounds_spec(n, batch_size).len() == batch_count(n, batch_size),
{
    lemma_bounds_from_len(0, n, batch_size);
}

proof fn lemma_bounds_from_len(start: nat, n: nat, b: nat)
    requires
        b > 0,
        start <= n,
    ensures
        batch_bounds_from(start, n, b).len() == ((n - start + b - 1) as nat / b) as nat,
    decreases n - start,
{
    if start >= n {
        assert((b - 1) as nat / b == 0) by (nonlinear_arith)
            requires b > 0;
    } else if start + b >= n {
        assert(batch_bounds_from(start + b, n, b).len() == 0);
        assert((n - start + b - 1) as nat / b == 1) by (nonlinear_arith)
            requires b > 0, start < n, start + b >= n;
    } else {
        lemma_bounds_from_len(start + b, n, b);
        assert((n - start + b - 1) as nat / b == (n - (start + b) + b - 1) as nat / b + 1) by (nonlinear_arith)
            requires b > 0, start + b < n;
    }
}

/// The batches from `start` on, read in order, are exactly `order[start..]`;
/// each holds between 1 and `b` examples.
proof fn lemma_batches_from_cover(order: Seq<usize>, start: nat, b: nat)
    requires
        b > 0,
        start <= order.len(),
        order.len() + b <= usize::MAX,
    ensures
        batches_of(order, batch_bounds_from(start, order.len(), b)).flatten()
            == order.subrange(start as int, order.len() as int),
        forall|k: int| 0 <= k < batch_bounds_from(start, order.len(), b).len() ==> {
            let batch = #[trigger] batches_of(order, batch_bounds_from(start, order.len(), b))[k];
            1 <= batch.len() <= b
        },
        forall|k: int| 0 <= k < batch_bounds_from(start, order.len(), b).len() ==> {
            let bound = #[trigger] batch_bounds_from(start, order.len(), b)[k];
            start <= bound.0 < bound.1 <= order.len()
        },
    decreases order.len() - start,
{
    let n = order.len();
    let bounds = batch_bounds_from(start, n, b);
    let batches = batches_of(order, bounds);
    if start >= n {
        assert(batches =~= Seq::<Seq<usize>>::empty());
        assert(order.subrange(start as int, n as int) =~= Seq::<usize>::empty());
    } else {
        let end: nat = if start + b < n { start + b } else { n };
        let rest_bounds = batch_bounds_from(start + b, n, b);
        lemma_batches_from_cover(order, if start + b < n { start + b } else { n }, b);
        if start + b >= n {
            assert(rest_bounds =~= batch_bounds_from(n, n, b));
        }
        let rest = batches_of(order, rest_bounds);
        assert(bounds == seq![(start as usize, end as usize)] + rest_bounds);
        assert(batches.drop_first() =~= rest);
        assert(batches.first() =~= order.subrange(start as int, end as int));
        assert(batches.flatten() == batches.first() + batches.drop_first().flatten());
        assert(order.subrange(start as int, end as int) + order.subrange(end as int, n as int)
            =~= order.subrange(start as int, n as int));
        assert forall|k: int| 0 <= k < bounds.len() implies {
            let batch = #[trigger] batches[k];
            1 <= batch.len() <= b
        } by {
            if k > 0 {
                assert(batches[k] == rest[k - 1]);
            }
        }
        assert forall|k: int| 0 <= k < bounds.len() implies {
            let bound = #[trigger] bounds[k];
            start <= bound.0 < bound.1 <= n
        } by {
            if k > 0 {
                assert(bounds[k] == rest_bounds[k - 1]);
            }
        }
    }
}

/// One epoch visits the examples in exactly the given order: its batches, read
/// one after the other, are `order`, and each batch holds 1 to `batch_size` examples.
pub proof fn lemma_epoch_covers_order(order: Seq<usize>, batch_size: nat)
    requires
        batch_size > 0,
        order.len() + batch_size <= usize::MAX,
    ensures
        epoch_batches(order, batch_size).flatten() == order,
        forall|k: int| 0 <= k < epoch_batches(order, batch_size).len() ==>
            1 <= #[trigger] epoch_batches(order, batch_size)[k].len() <= batch_size,
        forall|k: int| 0 <= k < epoch_batches(order, batch_size).len() ==> {
            let bound = #[trigger] batch_bounds_spec(order.len(), batch_size)[k];
            bound.0 < bound.1 <= order.len()
        },
{
    lemma_batches_from_cover(order, 0, batch_size);
    assert(order.subrange(0, order.len() as int) =~= order);
}

/// Shuffling then batching visits every example exactly once per epoch.
pub proof fn lemma_epoch_visits_each_example_once(order: Seq<usize>, n: nat, batch_size: nat)
    requires
        batch_size > 0,
        n + batch_size <= usize::MAX,
        order.to_multiset() == all_examples(n).to_multiset(),
    ensures
        forall|e: usize| (e as nat) < n ==>
            #[trigger] epoch_batches(order, batch_size).flatten().to_multiset().count(e) == 1,
{
    let all = all_examples(n);
    assert(order.len() == n) by {
        vstd::seq_lib::to_multiset_len(order);
        vstd::seq_lib::to_multiset_len(all);
    }
    lemma_epoch_covers_order(order, batch_size);
    assert(all.no_duplicates());
    all.lemma_multiset_has_no_duplicates();
    assert forall|e: usize| (e as nat) < n implies
        #[trigger] epoch_batches(order, batch_size).flatten().to_multiset().count(e) == 1 by {
        assert(all[e as int] == e);
        assert(all.contains(e));
        vstd::seq_lib::to_multiset_contains(all, e);
        assert(all.to_multiset().contains(e));
    }
}

/// Every batch of an epoch over the shuffled examples of a dataset can be taken
/// with `get_batch`: each index in it leaves room for a full example and its target.
pub proof fn lemma_epoch_batches_are_valid(d: DatasetModel, order: Seq<usize>, batch_size: nat)
    requires
        batch_size > 0,
        example_count(d.tokens.len(), d.seq_len) + batch_size <= usize::MAX,
        order.to_multiset() == all_examples(example_count(d.tokens.len(), d.seq_len)).to_multiset(),
    ensures
        forall|k: int| 0 <= k < epoch_batches(order, batch_size).len() ==>
            d.valid_starts(#[trigger] epoch_batches(order, batch_size)[k]),
{
    let n = example_count(d.tokens.len(), d.seq_len);
    let all = all_examples(n);
    vstd::seq_lib::to_multiset_len(order);
    vstd::seq_lib::to_multiset_len(all);
    assert forall|j: int| 0 <= j < order.len() implies (#[trigger] order[j] as nat) < n by {
        assert(order.contains(order[j]));
        vstd::seq_lib::to_multiset_contains(order, order[j]);
        vstd::seq_lib::to_multiset_contains(all, order[j]);
    }
    lemma_epoch_covers_order(order, batch_size);
    let bounds = batch_bounds_spec(order.len(), batch_size);
    assert forall|k: int| 0 <= k < epoch_batches(order, batch_size).len() implies
        d.valid_starts(#[trigger] epoch_batches(order, batch_size)[k]) by {
        let batch = epoch_batches(order, batch_size)[k];
        let bound = bounds[k];
        assert forall|i: int| 0 <= i < batch.len() implies
            #[trigger] batch[i] + d.seq_len + 1 <= d.tokens.len() by {
            assert(batch[i] == order[bound.0 + i]);
        }
    }
}

} // verus!
