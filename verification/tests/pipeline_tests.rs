use woman::config::{default_effort, default_thinking, Config};
use woman::prompts::build_system_prompt;
use woman::translator::{
    collect_sse_content, ensure_cached_file_has_no_adjust, finish_json_answer,
    finish_stream_answer, finish_translation, plan_chat_request, sse_body_progress,
    sse_data_payloads, sse_read_limit, SsePayload, SseProgress,
};

fn config(thinking: &str) -> Config {
    Config {
        active_model: "deepseek-v4-flash".to_string(),
        api_key: "k".to_string(),
        api_url: String::new(),
        thinking: thinking.to_string(),
        reasoning_effort: "high".to_string(),
    }
}

#[test]
fn test_config_defaults() {
    assert_eq!(default_thinking(), "disabled");
    assert_eq!(default_effort(), "low");
    assert!(config("ENABLED").thinking_enabled());
    assert!(config("enabled").thinking_enabled());
    assert!(!config("disabled").thinking_enabled());
    assert!(!config("yes").thinking_enabled());
}

#[test]
fn test_system_prompt_names_locale() {
    let p = build_system_prompt("zh_CN.UTF-8");
    assert!(p.starts_with("You are a professional technical translator"));
    assert!(p.contains("specified by the user: \"zh_CN.UTF-8\".\n\nCRITICAL REQUIREMENTS:\n1. Translate"));
    assert!(p.contains("any other format.\n          IMPORTANT: Add `.na`"));
    assert!(p.ends_with("make your best choice and move on immediately."));
}

#[test]
fn test_plan_chat_request_thinking_disabled() {
    let plan = plan_chat_request("PAGE", "ja_JP.UTF-8", &config("disabled"), "https://api.deepseek.com/v1/");
    assert_eq!(plan.url, "https://api.deepseek.com/v1/chat/completions");
    assert_eq!(plan.authorization, "Bearer k");
    assert_eq!(plan.model, "deepseek-v4-flash");
    assert_eq!(plan.user_content, "Here is the original English man page content:\n\nPAGE");
    assert_eq!(plan.system_prompt, build_system_prompt("ja_JP.UTF-8"));
    assert_eq!(plan.thinking_kind, "disabled");
    assert_eq!(plan.reasoning_effort, None);
}

#[test]
fn test_plan_chat_request_thinking_enabled() {
    let plan = plan_chat_request("PAGE", "de_DE", &config("Enabled"), "http://localhost");
    assert_eq!(plan.url, "http://localhost/chat/completions");
    assert_eq!(plan.thinking_kind, "enabled");
    assert_eq!(plan.reasoning_effort, Some("high".to_string()));
}

#[test]
fn test_finish_translation_pipeline() {
    let raw = "Here you go:\n```groff\n.TH LS 1\n.SH NAME\nls  \\-  list\n```\nEnjoy";
    assert_eq!(finish_translation(raw), ".TH LS 1\n.na\n.SH NAME\n.na\nls \\- list\n");
}

#[test]
fn test_finish_answers() {
    assert_eq!(finish_json_answer(None), Err("API response contained no choices".to_string()));
    assert_eq!(finish_json_answer(Some(".SH A\nb")), Ok(".SH A\n.na\nb\n".to_string()));
    assert_eq!(
        finish_stream_answer(""),
        Err("API streaming response contained no content".to_string())
    );
    assert_eq!(finish_stream_answer(".P\nx"), Ok(".P\n.na\nx\n".to_string()));
}

#[test]
fn test_ensure_cached_fixup() {
    assert_eq!(
        ensure_cached_file_has_no_adjust(".TH A 1\ntext  here\n"),
        Some(".TH A 1\n.na\ntext here\n".to_string())
    );
    assert_eq!(ensure_cached_file_has_no_adjust(".TH A 1\n.na\ntext here\n"), None);
}

#[test]
fn test_sse_limits_and_progress() {
    assert_eq!(sse_read_limit(0), 1_000_000);
    assert_eq!(sse_read_limit(20_000), 1_000_000);
    assert_eq!(sse_read_limit(100_000), 5_000_000);
    assert!(matches!(sse_body_progress(b"data: x\n\ndata: [DONE]\n", 10), SseProgress::Done));
    assert!(matches!(sse_body_progress(b"data: x\n\n", 100), SseProgress::Continue));
    assert!(matches!(sse_body_progress(b"data: x\n\n", 3), SseProgress::Overrun));
}

#[test]
fn test_sse_payloads() {
    let body = "data: {\"a\":1}\n\nevent: ping\ndata:  two \n\ndata:\n\ndata: [DONE]\n\n: comment\n";
    assert_eq!(sse_data_payloads(body), vec!["{\"a\":1}".to_string(), "two".to_string()]);
    assert_eq!(sse_data_payloads(""), Vec::<String>::new());
}

#[test]
fn test_collect_sse_content() {
    let ok = vec![
        SsePayload::Content("你好".to_string()),
        SsePayload::Ignored,
        SsePayload::Content("世界".to_string()),
    ];
    assert_eq!(collect_sse_content(&ok), Ok("你好世界".to_string()));
    let failing = vec![
        SsePayload::Content("x".to_string()),
        SsePayload::Failure("{\"message\":\"bad\"}".to_string()),
        SsePayload::Content("y".to_string()),
    ];
    assert_eq!(
        collect_sse_content(&failing),
        Err("API streaming error: {\"message\":\"bad\"}".to_string())
    );
    assert_eq!(collect_sse_content(&Vec::new()), Ok(String::new()));
}
