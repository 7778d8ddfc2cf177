use woman::prompts::build_system_prompt;
use woman::translator::{
    break_measured_line, char_columns, insert_no_adjust, line_widths, sse_body_progress, SseProgress,
};

#[test]
fn test_system_prompt_shape() {
    let p = build_system_prompt("zh_CN.UTF-8");
    assert!(p.starts_with("You are a professional technical translator"));
    assert!(p.contains("the locale/language specified by the user: \"zh_CN.UTF-8\"."));
    assert!(p.contains("`.na`"));
}

#[test]
fn test_char_columns() {
    assert_eq!(char_columns('a'), 1);
    assert_eq!(char_columns('~'), 1);
    assert_eq!(char_columns('字'), 2);
    assert_eq!(char_columns('\u{7}'), 1);
}

/// Feeds `chunks` one by one as the streaming client does.
fn read_chunks(chunks: &[&[u8]], cap: usize) -> Result<Vec<u8>, usize> {
    let mut body = Vec::new();
    for (m, c) in chunks.iter().enumerate() {
        body.extend_from_slice(c);
        match sse_body_progress(&body, cap) {
            SseProgress::Done => return Ok(body),
            SseProgress::Overrun => return Err(m + 1),
            SseProgress::Continue => {}
        }
    }
    Ok(body)
}

#[test]
fn test_sse_read_stops_at_done_or_cap() {
    let chunks: [&[u8]; 3] = [b"data: {}\n\n", b"data: [DONE]\n\n", b"data: late\n\n"];
    assert_eq!(read_chunks(&chunks, 1000).unwrap(), b"data: {}\n\ndata: [DONE]\n\n".to_vec());
    assert_eq!(read_chunks(&chunks, 5), Err(1));
    let open: [&[u8]; 2] = [b"data: a\n\n", b"data: b\n\n"];
    assert_eq!(read_chunks(&open, 1000).unwrap(), b"data: a\n\ndata: b\n\n".to_vec());
}

#[test]
fn test_insert_text_law_on_na_with_carriage_return() {
    let out = insert_no_adjust(".na\r");
    assert_eq!(out, ".na\r\n");
    assert_eq!(out.lines().collect::<Vec<_>>(), vec![".na"]);
}

#[test]
fn test_break_measured_line_uses_given_widths() {
    let line: Vec<char> = "xy".repeat(20).chars().collect();
    assert_eq!(break_measured_line(&line, &vec![1; 40]), format!("{}\n", "xy".repeat(20)));
    assert_eq!(
        break_measured_line(&line, &vec![2; 40]),
        format!("{}\n{}\n", "xy".repeat(19), "xy")
    );
    let cjk: Vec<char> = "字".repeat(40).chars().collect();
    assert_eq!(line_widths(&cjk), vec![2; 40]);
    assert_eq!(
        break_measured_line(&cjk, &line_widths(&cjk)),
        format!("{}\n{}\n", "字".repeat(38), "字".repeat(2))
    );
}
