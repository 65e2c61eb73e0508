use mini_llm::cli::get_arg;

fn args(items: &[&str]) -> Vec<String> {
    items.iter().map(|s| s.to_string()).collect()
}

#[test]
fn get_arg_returns_the_following_argument() {
    let a = args(&["mini-llm", "train", "--data", "input.txt", "--epochs", "20"]);
    assert_eq!(get_arg(&a, "--data"), Some("input.txt".to_string()));
    assert_eq!(get_arg(&a, "--epochs"), Some("20".to_string()));
}

#[test]
fn get_arg_without_the_flag_is_none() {
    let a = args(&["mini-llm", "train"]);
    assert_eq!(get_arg(&a, "--data"), None);
}

#[test]
fn get_arg_with_the_flag_last_is_none() {
    let a = args(&["mini-llm", "generate", "--prompt"]);
    assert_eq!(get_arg(&a, "--prompt"), None);
}

#[test]
fn get_arg_uses_the_first_occurrence() {
    let a = args(&["x", "--n", "1", "--n", "2"]);
    assert_eq!(get_arg(&a, "--n"), Some("1".to_string()));
    let b = args(&["x", "--n", "--n", "2"]);
    assert_eq!(get_arg(&b, "--n"), Some("--n".to_string()));
}

use mini_llm::cli::{classify_input, command_of, get_usize_arg, Command, PromptInput};

#[test]
fn get_usize_arg_reads_numbers_and_falls_back() {
    let a = args(&["mini-llm", "train", "--epochs", "20", "--d-model", "big", "--num-layers", "+6"]);
    assert_eq!(get_usize_arg(&a, "--epochs", 10), 20);
    assert_eq!(get_usize_arg(&a, "--d-model", 128), 128);
    assert_eq!(get_usize_arg(&a, "--num-layers", 4), 6);
    assert_eq!(get_usize_arg(&a, "--max-tokens", 200), 200);
    let b = args(&["x", "--n", "-3", "--m", " 7", "--k", "99999999999999999999999"]);
    assert_eq!(get_usize_arg(&b, "--n", 1), 1);
    assert_eq!(get_usize_arg(&b, "--m", 2), 2);
    assert_eq!(get_usize_arg(&b, "--k", 3), 3);
}

#[test]
fn command_of_names_the_command() {
    assert_eq!(command_of(&args(&["mini-llm"])), Command::Help);
    assert_eq!(command_of(&args(&["mini-llm", "train"])), Command::Train);
    assert_eq!(command_of(&args(&["mini-llm", "generate", "--prompt", "x"])), Command::Generate);
    assert_eq!(command_of(&args(&["mini-llm", "help"])), Command::Help);
    assert_eq!(command_of(&args(&["mini-llm", "--help"])), Command::Help);
    assert_eq!(command_of(&args(&["mini-llm", "-h"])), Command::Help);
    assert_eq!(command_of(&args(&["mini-llm", "fly"])), Command::Unknown);
}

#[test]
fn classify_input_reads_prompt_lines() {
    assert!(matches!(classify_input(""), PromptInput::Skip));
    assert!(matches!(classify_input("quit"), PromptInput::Quit));
    match classify_input("temp 1.5") {
        PromptInput::Temperature(arg) => assert_eq!(arg, "1.5"),
        other => panic!("unexpected {:?}", other),
    }
    match classify_input("temp ") {
        PromptInput::Temperature(arg) => assert_eq!(arg, ""),
        other => panic!("unexpected {:?}", other),
    }
    assert!(matches!(classify_input("temperature"), PromptInput::Generate));
    assert!(matches!(classify_input("Once upon a time"), PromptInput::Generate));
    assert!(matches!(classify_input("quitter"), PromptInput::Generate));
    match classify_input("temp é2") {
        PromptInput::Temperature(arg) => assert_eq!(arg, "é2"),
        other => panic!("unexpected {:?}", other),
    }
}
