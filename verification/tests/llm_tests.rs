use survivor::Config;
use survivor::LLMClient;
use survivor::LLMClientResponse;
use survivor::LlamaSimulation;
use survivor::MockLLMClient;
use survivor::SimError;
use survivor::backend::build_full_prompt;
use survivor::backend::finish_generation;

#[test]
fn test_simulation_creation() {
    let simulation = LlamaSimulation::new("test_path".to_string(), "test_model".to_string());
    assert_eq!(simulation.llama_path, "test_path");
    assert_eq!(simulation.model_path, "test_model");
}

#[test]
fn client_keeps_its_paths() {
    let client = LLMClient::new("bin".to_string(), "model".to_string());
    assert_eq!(client.llama_path, "bin");
    assert_eq!(client.model_path, "model");

    let config = Config {
        num_players: 4,
        model_path: "m".to_string(),
        llama_path: "l".to_string(),
    };
    let from_config = LLMClient::from_config(&config);
    assert_eq!(from_config.llama_path, "l");
    assert_eq!(from_config.model_path, "m");
}

#[test]
fn mock_hands_out_responses_in_order() {
    let mut mock = MockLLMClient::new();
    mock.add_response("first".to_string());
    mock.add_response("second".to_string());

    let context: Vec<String> = Vec::new();
    assert_eq!(mock.generate("p", &context).unwrap(), "first");
    assert_eq!(mock.generate("p", &context).unwrap(), "second");
    assert!(matches!(
        mock.generate("p", &context),
        Err(SimError::GenerationFailure)
    ));
    assert!(matches!(
        mock.generate("p", &context),
        Err(SimError::GenerationFailure)
    ));
}

#[test]
fn empty_mock_always_fails() {
    let mut mock = MockLLMClient::new();
    let context: Vec<String> = Vec::new();
    assert!(mock.generate("anything", &context).is_err());
}

#[test]
fn full_prompt_is_prompt_alone_without_context() {
    let context: Vec<String> = Vec::new();
    assert_eq!(build_full_prompt("What now?", &context), "What now?");
}

#[test]
fn full_prompt_joins_context_lines() {
    let context = vec!["one".to_string(), "two".to_string(), "three".to_string()];
    assert_eq!(
        build_full_prompt("Decide.", &context),
        "Decide.\n\nBased on this context:\none\ntwo\nthree"
    );
}

#[test]
fn generation_results_are_trimmed_or_rejected() {
    let ok = LLMClientResponse {
        response: "  4\n".to_string(),
        success: true,
    };
    assert_eq!(finish_generation(&ok).unwrap(), "4");

    let failed = LLMClientResponse {
        response: "ignored".to_string(),
        success: false,
    };
    assert!(matches!(
        finish_generation(&failed),
        Err(SimError::GenerationFailure)
    ));
}
