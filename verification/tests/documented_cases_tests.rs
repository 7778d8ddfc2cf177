use woman::translator::{break_long_cjk_lines, has_no_adjust, insert_no_adjust, sse_done_received};

#[test]
fn test_insert_na_after_sh_with_tab() {
    let out = insert_no_adjust(".TH FD 1\n.SH\tNAME\nfd\n");
    assert_eq!(out, ".TH FD 1\n.na\n.SH\tNAME\n.na\nfd\n");
}

#[test]
fn test_has_no_adjust_on_first_line() {
    assert!(has_no_adjust(".na\n.P\ntext\n"));
    assert!(has_no_adjust(".ad l\n.P\ntext\n"));
    assert!(!has_no_adjust("x.na\n"));
}

#[test]
fn test_sse_done_after_false_marker() {
    assert!(sse_done_received(b"xdata: [DONE]\ndata: [DONE]\n"));
    assert!(!sse_done_received(b"xdata: [DONE]\ndata: [DONE]x\n"));
}

#[test]
fn test_break_after_fullwidth_right_parenthesis() {
    let line = format!("{}\u{FF09}{}", "字".repeat(38), "尾".repeat(3));
    let out = break_long_cjk_lines(&line);
    assert_eq!(out, format!("{}\u{FF09}\n{}\n", "字".repeat(38), "尾".repeat(3)));
}
