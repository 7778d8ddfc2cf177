use woman::models::{
    bearer_authorization, get_provider, infer_provider_from_model, list_providers, models_url,
    resolve_api_url, DeepSeekProvider, ModelProvider,
};

#[test]
fn test_get_provider_is_case_insensitive() {
    let p = get_provider("DeepSeek").expect("deepseek is registered");
    assert_eq!(p.name(), "DeepSeek");
    assert_eq!(p.default_api_url(), "https://api.deepseek.com/v1");
    assert_eq!(p.completions_path(), "/chat/completions");
    assert!(get_provider("DEEPSEEK").is_some());
    // KELVIN SIGN lowercases to `k`
    assert!(get_provider("deepsee\u{212A}").is_some());
    assert!(get_provider("openai").is_none());
    assert!(get_provider("deepseek ").is_none());
    assert!(get_provider("").is_none());
}

#[test]
fn test_list_and_infer_providers() {
    assert_eq!(list_providers(), vec!["deepseek"]);
    assert_eq!(infer_provider_from_model("deepseek-v4-flash"), "deepseek");
    assert_eq!(infer_provider_from_model("DeepSeek-Chat"), "deepseek");
    assert_eq!(infer_provider_from_model("gpt-4o"), "deepseek");
    assert_eq!(infer_provider_from_model(""), "deepseek");
}

#[test]
fn test_resolve_api_url() {
    assert_eq!(resolve_api_url("https://example.com/v1", "deepseek-chat"), "https://example.com/v1");
    assert_eq!(resolve_api_url("", "deepseek-chat"), "https://api.deepseek.com/v1");
    assert_eq!(resolve_api_url("", "other-model"), "https://api.deepseek.com/v1");
}

#[test]
fn test_provider_methods() {
    let p = DeepSeekProvider;
    assert_eq!(p.name(), "DeepSeek");
    assert_eq!(p.default_api_url(), "https://api.deepseek.com/v1");
}

#[test]
fn test_models_url_and_bearer() {
    assert_eq!(models_url("https://api.deepseek.com/v1"), "https://api.deepseek.com/v1/models");
    assert_eq!(models_url("https://api.deepseek.com/v1///"), "https://api.deepseek.com/v1/models");
    assert_eq!(bearer_authorization("k"), "Bearer k");
}
