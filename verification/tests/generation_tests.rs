use candle_core::{Device, Tensor};
use mini_llm::error::LlmError;
use mini_llm::generation::{context_window, decode_generated, generated_text, prompt_tensor, start_tensor};
use mini_llm::tokenizer::CharTokenizer;

fn fitted(text: &str) -> CharTokenizer {
    let mut t = CharTokenizer::new();
    t.fit(text);
    t
}

#[test]
fn prompt_tensor_holds_the_prompt_tokens() {
    let tokenizer = fitted("abc");
    let t = prompt_tensor(&tokenizer, "cab", &Device::Cpu).unwrap();
    assert_eq!(t.dims(), &[1, 3]);
    assert_eq!(t.to_vec2::<u32>().unwrap(), vec![vec![2, 0, 1]]);
}

#[test]
fn prompt_tensor_skips_unknown_characters() {
    let tokenizer = fitted("abc");
    let t = prompt_tensor(&tokenizer, "a?c", &Device::Cpu).unwrap();
    assert_eq!(t.to_vec2::<u32>().unwrap(), vec![vec![0, 2]]);
}

#[test]
fn prompt_tensor_refuses_prompts_without_known_characters() {
    let tokenizer = fitted("abc");
    let err = prompt_tensor(&tokenizer, "xyz", &Device::Cpu).unwrap_err();
    assert!(matches!(err, LlmError::EmptyPrompt));
    assert_eq!(err.message(), "Empty prompt or unrecognized characters");
    assert!(prompt_tensor(&tokenizer, "", &Device::Cpu).is_err());
}

#[test]
fn start_tensor_is_the_first_token() {
    let t = start_tensor(&Device::Cpu).unwrap();
    assert_eq!(t.dims(), &[1, 1]);
    assert_eq!(t.to_vec2::<u32>().unwrap(), vec![vec![0]]);
}

#[test]
fn generated_text_decodes_the_row() {
    let tokenizer = fitted("abc");
    let generated = Tensor::from_vec(vec![2u32, 0, 1, 7, 1], (1, 5), &Device::Cpu).unwrap();
    assert_eq!(generated_text(&tokenizer, &generated).unwrap(), "cabb");
}

#[test]
fn generated_text_refuses_a_matrix() {
    let tokenizer = fitted("abc");
    let generated = Tensor::from_vec(vec![0u32, 1, 2, 0], (2, 2), &Device::Cpu).unwrap();
    let err = generated_text(&tokenizer, &generated).unwrap_err();
    assert!(matches!(err, LlmError::Tensor(_)));
    assert!(!err.message().is_empty());
}

#[test]
fn context_window_keeps_the_last_tokens() {
    assert_eq!(context_window(300, 256), (44, 256));
    assert_eq!(context_window(256, 256), (0, 256));
    assert_eq!(context_window(10, 256), (0, 10));
}

#[test]
fn decode_generated_reads_model_tokens() {
    let tokenizer = fitted("abc");
    assert_eq!(decode_generated(&tokenizer, &[2, 0, 9, 1]), "cab");
    assert_eq!(decode_generated(&tokenizer, &[]), "");
}

#[test]
fn generated_text_of_a_flat_row() {
    let tokenizer = fitted("abc");
    let generated = Tensor::from_vec(vec![1u32, 2], (2,), &Device::Cpu).unwrap();
    assert_eq!(generated_text(&tokenizer, &generated).unwrap(), "bc");
}
