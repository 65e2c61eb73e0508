//! Training examples cut from a token stream: each example is a window of
//! `seq_len` tokens and its target is the same window shifted by one token.
use candle_core::{Device, Tensor};
use vstd::prelude::*;

use crate::error::LlmError;
use crate::tensor::{created_u32_values, device_is_cpu, holds_cpu_u32, tensor_dims, u32_matrix};

verus! {

/// The number of example start positions `0..n` in a stream of `num_tokens`
/// tokens with windows of `seq_len` tokens: `num_tokens - (seq_len + 1)`, or 0.
pub open spec fn example_count(num_tokens: nat, seq_len: nat) -> nat {
    if num_tokens > seq_len + 1 {
        (num_tokens - (seq_len + 1)) as nat
    } else {
        0
    }
}

/// The input of the example starting at `start`: `tokens[start..start + seq_len]`, as `u32`.
pub open spec fn input_row(tokens: Seq<usize>, seq_len: nat, start: nat) -> Seq<u32> {
    Seq::new(seq_len, |j: int| tokens[start + j] as u32)
}

/// The target of the example starting at `start`: `tokens[start + 1..start + seq_len + 1]`, as `u32`.
pub open spec fn target_row(tokens: Seq<usize>, seq_len: nat, start: nat) -> Seq<u32> {
    Seq::new(seq_len, |j: int| tokens[start + j + 1] as u32)
}

/// The inputs of the examples starting at `starts`, one row after the other.
pub open spec fn batch_inputs(tokens: Seq<usize>, seq_len: nat, starts: Seq<usize>) -> Seq<u32> {
    Seq::new(starts.len(), |k: int| input_row(tokens, seq_len, starts[k] as nat)).flatten()
}

/// The targets of the examples starting at `starts`, one row after the other.
pub open spec fn batch_targets(tokens: Seq<usize>, seq_len: nat, starts: Seq<usize>) -> Seq<u32> {
    Seq::new(starts.len(), |k: int| target_row(tokens, seq_len, starts[k] as nat)).flatten()
}

/// What a dataset holds: the token stream and the example length.
pub struct DatasetModel {
    pub tokens: Seq<usize>,
    pub seq_len: nat,
}

impl DatasetModel {
    /// Every start in `starts` leaves room for a full example and its target.
    pub open spec fn valid_starts(self, starts: Seq<usize>) -> bool {
        forall|k: int| 0 <= k < starts.len() ==> #[trigger] starts[k] + self.seq_len + 1 <= self.tokens.len()
    }
}

/// Dataset for training: stores tokens and cuts them into batches.
pub struct TextDataset {
    tokens: Vec<usize>,
    seq_len: usize,
}

impl View for TextDataset {
    type V = DatasetModel;

    closed spec fn view(&self) -> DatasetModel {
        DatasetModel { tokens: self.tokens@, seq_len: self.seq_len as nat }
    }
}

impl TextDataset {
    #[verifier::type_invariant]
    spec fn seq_len_fits(self) -> bool {
        self.seq_len < usize::MAX
    }

    /// Creates a dataset over `tokens` with examples of `seq_len` tokens.
    pub fn new(tokens: Vec<usize>, seq_len: usize) -> (d: Self)
        requires
            seq_len < usize::MAX,
        ensures
            d@.tokens == tokens@,
            d@.seq_len == seq_len,
    {
        TextDataset { tokens, seq_len }
    }

    /// Returns the number of examples in the dataset.
    pub fn len(&self) -> (n: usize)
        ensures
            n == example_count(self@.tokens.len(), self@.seq_len),
    {
        proof {
            use_type_invariant(self);
        }
        self.tokens.len().saturating_sub(self.seq_len + 1)
    }

    /// The number of examples, refusing a dataset that has none to train on
    /// ("Dataset too small! Add more text.").
    pub fn require_examples(&self) -> (r: Result<usize, LlmError>)
        ensures
            example_count(self@.tokens.len(), self@.seq_len) > 0
                ==> r == Ok::<usize, LlmError>(example_count(self@.tokens.len(), self@.seq_len) as usize),
            example_count(self@.tokens.len(), self@.seq_len) == 0 ==> r matches Err(LlmError::DatasetTooSmall),
    {
        let n = self.len();
        if n == 0 {
            return Err(LlmError::DatasetTooSmall);
        }
        Ok(n)
    }

    /// The input and target rows of the examples starting at `indices`, each
    /// flattened row after row.
    pub fn batch_data(&self, indices: &[usize]) -> (r: (Vec<u32>, Vec<u32>))
        requires
            self@.valid_starts(indices@),
            indices.len() * self@.seq_len <= usize::MAX,
        ensures
            r.0@ == batch_inputs(self@.tokens, self@.seq_len, indices@),
            r.1@ == batch_targets(self@.tokens, self@.seq_len, indices@),
    {
        let ghost tokens = self@.tokens;
        let ghost len = self@.seq_len;
        let mut inputs: Vec<u32> = Vec::new();
        let mut targets: Vec<u32> = Vec::new();
        proof {
            assert(Seq::new(0, |q: int| input_row(tokens, len, indices@[q] as nat)) =~= Seq::<Seq<u32>>::empty());
            assert(Seq::new(0, |q: int| target_row(tokens, len, indices@[q] as nat)) =~= Seq::<Seq<u32>>::empty());
        }
        for k in 0..indices.len()
            invariant
                tokens == self@.tokens,
                len == self@.seq_len,
                self@.valid_starts(indices@),
                inputs@ == Seq::new(k as nat, |q: int| input_row(tokens, len, indices@[q] as nat)).flatten(),
                targets@ == Seq::new(k as nat, |q: int| target_row(tokens, len, indices@[q] as nat)).flatten(),
        {
            let idx = indices[k];
            assert(idx + self.seq_len + 1 <= self.tokens.len());
            let ghost in_before = inputs@;
            let ghost tg_before = targets@;
            for j in 0..self.seq_len
                invariant
                    tokens == self@.tokens,
                    len == self@.seq_len,
                    idx + len + 1 <= tokens.len(),
                    idx + self.seq_len + 1 <= self.tokens.len(),
                    inputs@ == in_before + input_row(tokens, len, idx as nat).take(j as int),
                    targets@ == tg_before + target_row(tokens, len, idx as nat).take(j as int),
            {
                inputs.push(self.tokens[idx + j] as u32);
                targets.push(self.tokens[idx + j + 1] as u32);
                proof {
                    assert(input_row(tokens, len, idx as nat).take(j + 1)
                        =~= input_row(tokens, len, idx as nat).take(j as int).push(tokens[idx + j] as u32));
                    assert(target_row(tokens, len, idx as nat).take(j + 1)
                        =~= target_row(tokens, len, idx as nat).take(j as int).push(tokens[idx + j + 1] as u32));
                }
            }
            proof {
                let rows_in = Seq::new(k as nat, |q: int| input_row(tokens, len, indices@[q] as nat));
                let rows_tg = Seq::new(k as nat, |q: int| target_row(tokens, len, indices@[q] as nat));
                assert(input_row(tokens, len, idx as nat).take(len as int) =~= input_row(tokens, len, idx as nat));
                assert(target_row(tokens, len, idx as nat).take(len as int) =~= target_row(tokens, len, idx as nat));
                rows_in.lemma_flatten_push(input_row(tokens, len, idx as nat));
                rows_tg.lemma_flatten_push(target_row(tokens, len, idx as nat));
                assert(Seq::new((k + 1) as nat, |q: int| input_row(tokens, len, indices@[q] as nat))
                    =~= rows_in.push(input_row(tokens, len, idx as nat)));
                assert(Seq::new((k + 1) as nat, |q: int| target_row(tokens, len, indices@[q] as nat))
                    =~= rows_tg.push(target_row(tokens, len, idx as nat)));
            }
        }
        (inputs, targets)
    }

    /// Creates a batch of data: for the example starting at `i`, the input is
    /// `tokens[i..i + seq_len]` and the target `tokens[i + 1..i + seq_len + 1]`;
    /// the two `[batch, seq_len]` tensors of `u32` are created holding these rows.
    /// On the CPU it always succeeds; otherwise only the tensor library refuses.
    pub fn get_batch(&self, indices: &[usize], device: &Device) -> (r: Result<(Tensor, Tensor), LlmError>)
        requires
            self@.valid_starts(indices@),
            indices.len() * self@.seq_len <= usize::MAX,
        ensures
            device_is_cpu(*device) ==> r is Ok,
            r matches Err(e) ==> e is Tensor,
            r matches Ok((x, y)) ==> {
                &&& tensor_dims(x) == seq![indices.len(), self@.seq_len as usize]
                &&& created_u32_values(x) == batch_inputs(self@.tokens, self@.seq_len, indices@)
                &&& tensor_dims(y) == seq![indices.len(), self@.seq_len as usize]
                &&& created_u32_values(y) == batch_targets(self@.tokens, self@.seq_len, indices@)
                &&& device_is_cpu(*device) ==> holds_cpu_u32(x) && holds_cpu_u32(y)
            },
    {
        let batch_size = indices.len();
        let (inputs, targets) = self.batch_data(indices);
        proof {
            lemma_batch_len(self@.tokens, self@.seq_len, indices@);
        }
        let x = match u32_matrix(inputs, batch_size, self.seq_len, device) {
            Ok(t) => t,
            Err(e) => return Err(LlmError::Tensor(e)),
        };
        let y = match u32_matrix(targets, batch_size, self.seq_len, device) {
            Ok(t) => t,
            Err(e) => return Err(LlmError::Tensor(e)),
        };
        Ok((x, y))
    }
}

/// A batch holds `seq_len` values per example.
pub proof fn lemma_batch_len(tokens: Seq<usize>, seq_len: nat, starts: Seq<usize>)
    ensures
        batch_inputs(tokens, seq_len, starts).len() == starts.len() * seq_len,
        batch_targets(tokens, seq_len, starts).len() == starts.len() * seq_len,
    decreases starts.len(),
{
    if starts.len() == 0 {
        assert(Seq::new(0, |k: int| input_row(tokens, seq_len, starts[k] as nat)) =~= Seq::<Seq<u32>>::empty());
        assert(Seq::new(0, |k: int| target_row(tokens, seq_len, starts[k] as nat)) =~= Seq::<Seq<u32>>::empty());
    } else {
        let prefix = starts.drop_last();
        lemma_batch_len(tokens, seq_len, prefix);
        let rows_in = Seq::new(prefix.len(), |k: int| input_row(tokens, seq_len, prefix[k] as nat));
        let rows_tg = Seq::new(prefix.len(), |k: int| target_row(tokens, seq_len, prefix[k] as nat));
        rows_in.lemma_flatten_push(input_row(tokens, seq_len, starts.last() as nat));
        rows_tg.lemma_flatten_push(target_row(tokens, seq_len, starts.last() as nat));
        assert(Seq::new(starts.len(), |k: int| input_row(tokens, seq_len, starts[k] as nat))
            =~= rows_in.push(input_row(tokens, seq_len, starts.last() as nat)));
        assert(Seq::new(starts.len(), |k: int| target_row(tokens, seq_len, starts[k] as nat))
            =~= rows_tg.push(target_row(tokens, seq_len, starts.last() as nat)));
        assert(batch_inputs(tokens, seq_len, prefix) == rows_in.flatten());
        assert(batch_targets(tokens, seq_len, prefix) == rows_tg.flatten());
        assert(batch_inputs(tokens, seq_len, starts) == rows_in.push(input_row(tokens, seq_len, starts.last() as nat)).flatten());
        assert(batch_targets(tokens, seq_len, starts) == rows_tg.push(target_row(tokens, seq_len, starts.last() as nat)).flatten());
        assert(starts.len() * seq_len == prefix.len() * seq_len + seq_len) by (nonlinear_arith)
            requires starts.len() == prefix.len() + 1;
    }
}

/// Next-token prediction: the target of an example is its input shifted one token
/// to the left, so target position `j` holds the token that follows input position `j`.
pub proof fn lemma_target_is_next_token(tokens: Seq<usize>, seq_len: nat, start: nat)
    ensures
        forall|j: int| 0 <= j < seq_len - 1 ==>
            #[trigger] target_row(tokens, seq_len, start)[j] == input_row(tokens, seq_len, start)[j + 1],
{
}

/// Every example index below `len()` leaves room for a full example and its
/// target, so any batch of such indices can be taken with `get_batch`.
pub proof fn lemma_indices_below_len_are_valid(d: DatasetModel, starts: Seq<usize>)
    requires
        forall|k: int| 0 <= k < starts.len() ==>
            (#[trigger] starts[k] as nat) < example_count(d.tokens.len(), d.seq_len),
    ensures
        d.valid_starts(starts),
{
}

/// The example count is exact: with room for at least one example it is the
/// number of tokens minus one window and its target, `num_tokens - (seq_len + 1)`,
/// and it is zero only when the tokens leave no room.
pub proof fn lemma_example_count_exact(num_tokens: nat, seq_len: nat)
    ensures
        num_tokens > seq_len + 1 ==> example_count(num_tokens, seq_len) + seq_len + 1 == num_tokens,
        num_tokens > seq_len + 1 ==> example_count(num_tokens, seq_len) > 0,
        num_tokens <= seq_len + 1 ==> example_count(num_tokens, seq_len) == 0,
        example_count(num_tokens, seq_len) + seq_len + 1 >= num_tokens,
{
}

/// `len()` is exact: a dataset with more tokens than one window and its target
/// has `tokens - (seq_len + 1)` examples, and `require_examples` accepts it.
pub proof fn lemma_len_counts_every_example(d: DatasetModel)
    requires
        d.tokens.len() > d.seq_len + 1,
    ensures
        example_count(d.tokens.len(), d.seq_len) == d.tokens.len() - (d.seq_len + 1),
        example_count(d.tokens.len(), d.seq_len) > 0,
{
    lemma_example_count_exact(d.tokens.len(), d.seq_len);
}

} // verus!
