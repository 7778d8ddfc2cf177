use woman::translator::{
    classify_payload, collect_sse_content, payload_of, sse_data_payloads, sse_done_received,
    SsePayload,
};

#[test]
fn test_sse_done_detection() {
    assert!(sse_done_received(b"data: [DONE]\n\n"));
    assert!(sse_done_received(b"data: hello\n\ndata: [DONE]\n\n"));
    assert!(sse_done_received(b"\n\ndata: [DONE]"));
    assert!(!sse_done_received(b"data: [DONE"));
    assert!(!sse_done_received(b"xdata: [DONE]\n"));
    assert!(!sse_done_received(b""));
    assert!(!sse_done_received(b"data: [DONE]foo"));
}

/// What reading `data` as a completion chunk gives: the content of its
/// first choice, `None` inside for a chunk without choices.
fn chunk_of(data: &str) -> Option<Option<String>> {
    let value = serde_json::from_str::<serde_json::Value>(data).ok()?;
    let choices = value.get("choices")?.as_array()?;
    Some(choices.first().map(|choice| {
        choice["delta"]["content"].as_str().unwrap_or("").to_string()
    }))
}

fn classify(data: &str) -> SsePayload {
    classify_payload(chunk_of(data), data)
}

fn parse_stream(body: &str) -> Result<String, String> {
    let payloads: Vec<SsePayload> = sse_data_payloads(body).iter().map(|d| classify(d)).collect();
    collect_sse_content(&payloads)
}

#[test]
fn test_read_sse_body_stops_at_done() {
    let body = "data:{\"choices\":[{\"delta\":{\"content\":\"你好\"}}]}\n\n\
                data:{\"choices\":[{\"delta\":{\"content\":\"世界\"}}]}\n\n\
                data: [DONE]\n\n";
    assert_eq!(parse_stream(body).unwrap(), "你好世界");
}

#[test]
fn test_classify_payload() {
    assert!(matches!(classify(r#"{"choices":[{"delta":{"content":"a"}}]}"#), SsePayload::Content(c) if c == "a"));
    assert!(matches!(classify(r#"{"choices":[]}"#), SsePayload::Ignored));
    assert!(matches!(
        classify(r#"{"error":{"message":"bad"}}"#),
        SsePayload::Failure(e) if e == r#"{"message":"bad"}"#
    ));
    assert!(matches!(classify(r#"{"other":1}"#), SsePayload::Ignored));
    assert!(matches!(classify("not json"), SsePayload::Ignored));
    assert!(matches!(payload_of(None, Some(Some("x".to_string()))), SsePayload::Failure(e) if e == "x"));
    assert!(matches!(payload_of(Some(None), Some(Some("x".to_string()))), SsePayload::Ignored));
}
