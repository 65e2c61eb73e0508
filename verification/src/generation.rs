//! Text generation around the model: the prompt going in, the text coming out,
//! and the context the model sees at each step.
use candle_core::{Device, Tensor};
use vstd::prelude::*;

use crate::error::LlmError;
use crate::tensor::{created_u32_values, device_is_cpu, holds_cpu_u32, squeeze_leading, tensor_dims,
    u32_elements, u32_matrix};
use crate::tokenizer::{CharTokenizer, TokenizerModel};

verus! {

/// Tokens as the `u32` values the model reads (the low 32 bits of each token).
pub open spec fn as_u32_tokens(tokens: Seq<usize>) -> Seq<u32> {
    tokens.map_values(|t: usize| t as u32)
}

/// Tokens read back from the model's `u32` output.
pub open spec fn as_usize_tokens(tokens: Seq<u32>) -> Seq<usize> {
    tokens.map_values(|t: u32| t as usize)
}

/// Dimensions that hold one row of tokens: `[1, n]`, or `[n]` with `n != 1`
/// (a `[1]` tensor would lose its only dimension when its leading one is dropped).
pub open spec fn one_row(dims: Seq<usize>) -> bool {
    ||| dims.len() == 2 && dims[0] == 1
    ||| dims.len() == 1 && dims[0] != 1
}

/// The prompt as a `[1, n]` tensor of its tokens. A prompt with no known
/// character is refused ("Empty prompt or unrecognized characters").
pub fn prompt_tensor(tokenizer: &CharTokenizer, prompt: &str, device: &Device) -> (r: Result<Tensor, LlmError>)
    ensures
        tokenizer@.encode(prompt@).len() == 0 ==> r matches Err(LlmError::EmptyPrompt),
        tokenizer@.encode(prompt@).len() > 0 ==> (r matches Err(e) ==> e is Tensor),
        tokenizer@.encode(prompt@).len() > 0 && device_is_cpu(*device) ==> r is Ok,
        r matches Ok(t) ==> {
            &&& tensor_dims(t) == seq![1usize, tokenizer@.encode(prompt@).len() as usize]
            &&& created_u32_values(t) == as_u32_tokens(tokenizer@.encode(prompt@))
            &&& device_is_cpu(*device) ==> holds_cpu_u32(t)
        },
{
    let tokens = tokenizer.encode(prompt);
    if tokens.len() == 0 {
        return Err(LlmError::EmptyPrompt);
    }
    let mut data: Vec<u32> = Vec::new();
    for i in 0..tokens.len()
        invariant
            data@ == as_u32_tokens(tokens@.take(i as int)),
    {
        data.push(tokens[i] as u32);
        proof {
            assert(as_u32_tokens(tokens@.take(i + 1)) =~= as_u32_tokens(tokens@.take(i as int)).push(tokens@[i as int] as u32));
        }
    }
    proof {
        assert(tokens@.take(tokens@.len() as int) =~= tokens@);
    }
    match u32_matrix(data, 1, tokens.len(), device) {
        Ok(t) => Ok(t),
        Err(e) => Err(LlmError::Tensor(e)),
    }
}

/// The tensor a sample starts from: the single first token of the vocabulary, as `[1, 1]`.
pub fn start_tensor(device: &Device) -> (r: Result<Tensor, LlmError>)
    ensures
        device_is_cpu(*device) ==> r is Ok,
        r matches Err(e) ==> e is Tensor,
        r matches Ok(t) ==> {
            &&& tensor_dims(t) == seq![1usize, 1usize]
            &&& created_u32_values(t) == seq![0u32]
            &&& device_is_cpu(*device) ==> holds_cpu_u32(t)
        },
{
    let mut data: Vec<u32> = Vec::new();
    data.push(0);
    match u32_matrix(data, 1, 1, device) {
        Ok(t) => Ok(t),
        Err(e) => Err(LlmError::Tensor(e)),
    }
}

/// The number of tokens in a row with dimensions `dims` (see `one_row`).
pub open spec fn row_len(dims: Seq<usize>) -> usize {
    if dims.len() == 2 { dims[1] } else { dims[0] }
}

/// The text of generated tokens read back from the model: each token decoded,
/// skipping those outside the vocabulary.
pub fn decode_generated(tokenizer: &CharTokenizer, values: &[u32]) -> (s: String)
    ensures
        s@ == tokenizer@.decode(as_usize_tokens(values@)),
{
    let mut tokens: Vec<usize> = Vec::new();
    for i in 0..values.len()
        invariant
            tokens@ == as_usize_tokens(values@.take(i as int)),
    {
        tokens.push(values[i] as usize);
        proof {
            assert(as_usize_tokens(values@.take(i + 1)) =~= as_usize_tokens(values@.take(i as int)).push(values@[i as int] as usize));
        }
    }
    proof {
        assert(values@.take(values@.len() as int) =~= values@);
    }
    tokenizer.decode(&tokens)
}

/// The text of a generated `[1, n]` tensor of tokens: the tokens it holds when
/// read, decoded by `decode_generated`. A tensor that is not one row of tokens
/// is refused; a row of `u32` tokens on the CPU is always read.
pub fn generated_text(tokenizer: &CharTokenizer, generated: &Tensor) -> (r: Result<String, LlmError>)
    ensures
        holds_cpu_u32(*generated) && one_row(tensor_dims(*generated)) ==> r is Ok,
        r is Ok ==> one_row(tensor_dims(*generated)),
        r matches Err(e) ==> e is Tensor,
        r matches Ok(s) ==> exists|v: Seq<u32>|
            v.len() == row_len(tensor_dims(*generated)) && s@ == #[trigger] tokenizer@.decode(as_usize_tokens(v)),
{
    let row = match squeeze_leading(generated) {
        Ok(t) => t,
        Err(e) => return Err(LlmError::Tensor(e)),
    };
    let values = match u32_elements(&row) {
        Ok(v) => v,
        Err(e) => return Err(LlmError::Tensor(e)),
    };
    let s = decode_generated(tokenizer, values.as_slice());
    proof {
        assert(values@.len() == row_len(tensor_dims(*generated)));
    }
    Ok(s)
}

/// The tokens that the model sees when it predicts the next one: the last
/// `max_seq_len` of the `seq_len` tokens so far, as `(start, length)`.
pub fn context_window(seq_len: usize, max_seq_len: usize) -> (w: (usize, usize))
    ensures
        seq_len > max_seq_len ==> w.0 == seq_len - max_seq_len && w.1 == max_seq_len,
        seq_len <= max_seq_len ==> w.0 == 0 && w.1 == seq_len,
{
    if seq_len > max_seq_len {
        (seq_len - max_seq_len, max_seq_len)
    } else {
        (0, seq_len)
    }
}

/// Reading the model's output keeps every token, in order: the `i`-th `u32`
/// value becomes the `i`-th token.
pub proof fn lemma_read_tokens_kept(v: Seq<u32>)
    ensures
        as_usize_tokens(v).len() == v.len(),
        forall|i: int| 0 <= i < v.len() ==> #[trigger] as_usize_tokens(v)[i] == v[i] as usize,
{
}

/// Decoding tokens that are all in the vocabulary gives one character per
/// token: the `i`-th character is the one of the `i`-th token.
pub proof fn lemma_decode_known_tokens(m: TokenizerModel, t: Seq<usize>)
    requires
        forall|i: int| 0 <= i < t.len() ==> #[trigger] m.decoder.contains_key(t[i]),
    ensures
        m.decode(t).len() == t.len(),
        forall|i: int| 0 <= i < t.len() ==> #[trigger] m.decode(t)[i] == m.decoder[t[i]],
    decreases t.len(),
{
    if t.len() > 0 {
        let rest = t.drop_last();
        assert forall|i: int| 0 <= i < rest.len() implies #[trigger] m.decoder.contains_key(rest[i]) by {
            assert(rest[i] == t[i]);
        }
        lemma_decode_known_tokens(m, rest);
        assert(m.decoder.contains_key(t[t.len() - 1]));
        assert forall|i: int| 0 <= i < t.len() implies #[trigger] m.decode(t)[i] == m.decoder[t[i]] by {
            if i < t.len() - 1 {
                assert(rest[i] == t[i]);
            }
        }
    }
}

/// The text of a generated row keeps every token: when all its values are
/// tokens of the vocabulary, it has one character per generated token, the
/// `i`-th character decoding the `i`-th value.
pub proof fn lemma_generated_text_keeps_every_token(m: TokenizerModel, v: Seq<u32>)
    requires
        forall|i: int| 0 <= i < v.len() ==> #[trigger] m.decoder.contains_key(v[i] as usize),
    ensures
        m.decode(as_usize_tokens(v)).len() == v.len(),
        forall|i: int| 0 <= i < v.len() ==>
            #[trigger] m.decode(as_usize_tokens(v))[i] == m.decoder[v[i] as usize],
{
    let t = as_usize_tokens(v);
    lemma_read_tokens_kept(v);
    assert forall|i: int| 0 <= i < t.len() implies #[trigger] m.decoder.contains_key(t[i]) by {
        assert(t[i] == v[i] as usize);
    }
    lemma_decode_known_tokens(m, t);
    assert forall|i: int| 0 <= i < v.len() implies
        #[trigger] m.decode(as_usize_tokens(v))[i] == m.decoder[v[i] as usize] by {
        assert(t[i] == v[i] as usize);
    }
}

} // verus!
