# mini_llm

A small character-level language model. The library (`src/`) holds the parts
that are proved with Verus; `app/` holds the command-line program and the
floating-point Transformer built on the `candle` tensor library.

## Library modules

- `vocab` — the vocabulary of a text: its distinct characters in code-point
  order, with proofs that it exists and is unique.
- `tokenizer` — `CharTokenizer` (fit, encode, decode) over an abstract model of
  its two tables (built afresh by each fit), with the round-trip laws.
- `dataset` — `TextDataset`: examples cut from a token stream, their inputs and
  next-token targets, and the `[batch, seq_len]` tensors built from them.
- `schedule` — the order of an epoch: example indices, shuffling, batch bounds,
  and the proof that an epoch visits every example exactly once.
- `shapes` — attention head width and the causal mask pattern.
- `generation` — prompt tensors, decoding of generated tokens, context window.
- `cli` — command and option parsing, and the meaning of interactive input.
- `tensor` — the tensor library's types and calls, and the default (CPU) device.
- `error` — `LlmError`, the library's refusals and their messages.

## Program

`app/main.rs` is the `mini-llm` binary (`train`, `generate`, `help`);
`app/model.rs` is the Transformer, `app/train.rs` the training loop.
