use woman::translator::{break_long_cjk_lines, insert_no_adjust, normalize_text_spaces};

fn visible(s: &str) -> String {
    s.chars().filter(|c| !c.is_whitespace()).collect()
}

#[test]
fn test_insert_no_adjust_idempotent_on_sample() {
    let input = ".TH A 1\n.SH X\n.TP\n.na\n.B -v\nverbose\n.IP \\(bu 2\nitem\n.RS\n.PP\ntext\n.TP\n";
    let once = insert_no_adjust(input);
    assert_eq!(insert_no_adjust(&once), once);
}

#[test]
fn test_insert_no_adjust_stray_carriage_return() {
    // A final line ending in a bare carriage return loses it on the second pass.
    let once = insert_no_adjust("x\r");
    assert_eq!(once, "x\r\n");
    assert_eq!(insert_no_adjust(&once), "x\n");
}

#[test]
fn test_insert_keeps_other_lines() {
    let input = ".TH A 1\n.TP\n.na\n.ad l\ntag\nbody\n.SH B\n";
    let out = insert_no_adjust(input);
    let keep = |s: &str| -> Vec<String> {
        s.lines()
            .filter(|l| l.trim() != ".na" && l.trim() != ".ad l")
            .map(|l| l.to_string())
            .collect()
    };
    assert_eq!(keep(&out), keep(input));
    assert_eq!(out, ".TH A 1\n.na\n.TP\ntag\n.na\nbody\n.SH B\n.na\n");
}

#[test]
fn test_every_paragraph_macro_guarded() {
    let out = insert_no_adjust(".PP\n.TP\n.TP\n.HP\n.IP\n");
    assert_eq!(out, ".PP\n.na\n.TP\n.TP\n.na\n.HP\n.IP\n.na\n");
}

#[test]
fn test_normalize_idempotent_and_keeps_text() {
    let input = "  a \t b  \u{3000}c\t\n.B  x   y\n\n\tq  r \r\nlast  one";
    let once = normalize_text_spaces(input);
    assert_eq!(normalize_text_spaces(&once), once);
    assert_eq!(visible(&once), visible(input));
}

#[test]
fn test_break_keeps_text() {
    let input = format!("{}\n{}\n", "字，".repeat(60), "word ".repeat(40));
    let out = break_long_cjk_lines(&input);
    assert!(out.lines().count() > 2);
    assert_eq!(visible(&out), visible(&input));
}

#[test]
fn test_break_at_cjk_punctuation() {
    // 38 wide characters fill 76 columns; the comma after them is a break point.
    let line = format!("{}，{}", "字".repeat(38), "尾".repeat(3));
    let out = break_long_cjk_lines(&line);
    assert_eq!(out, format!("{}，\n{}\n", "字".repeat(38), "尾".repeat(3)));
}

#[test]
fn test_break_hard_before_over_wide_char() {
    let line = "b".repeat(80);
    let out = break_long_cjk_lines(&line);
    assert_eq!(out, format!("{}\n{}\n", "b".repeat(76), "b".repeat(4)));
}

#[test]
fn test_break_keeps_wide_macro_line() {
    let line = format!(".\\\" {}\n", "x".repeat(100));
    assert_eq!(break_long_cjk_lines(&line), line);
}

#[test]
fn test_insert_no_adjust_idempotent_with_inner_carriage_return() {
    let once = insert_no_adjust(".TP\n.na\r\r\nx\n");
    assert_eq!(once, ".TP\nx\n.na\n");
    assert_eq!(insert_no_adjust(&once), once);
}

#[test]
fn test_insert_no_adjust_text_shape() {
    let input = ".TH A 1\n.ad l\n.SH B\ntext\n.TP\n.na\ntag\nbody";
    let out = insert_no_adjust(input);
    let na = |l: &str| l.trim() == ".na" || l.trim() == ".ad l";
    assert!(out.lines().filter(|l| !na(l)).eq(input.lines().filter(|l| !na(l))));
    assert!(out.lines().filter(|l| na(l)).all(|l| l == ".na" || input.lines().any(|r| r == l)));
    assert!(out.ends_with('\n'));
}

#[test]
fn test_break_ascii_lines_within_limit() {
    let input = format!(
        ".TH A 1\n{}\n{}\n  {}\n",
        "word ".repeat(60),
        "x".repeat(200),
        "ab cdefghij ".repeat(20)
    );
    let out = break_long_cjk_lines(&input);
    for l in out.lines() {
        let t = l.trim();
        if !t.is_empty() && !t.starts_with('.') && !t.starts_with('\'') {
            assert!(l.chars().count() <= 76, "too long: {:?}", l);
        }
    }
    assert_eq!(visible(&out), visible(&input));
}

#[test]
fn test_insert_no_adjust_positions() {
    let input = ".TH A 1\n.SH X\n.TP\ntag\nbody\n.IP \\(bu 2\nitem\n.HP\n";
    let out = insert_no_adjust(input);
    assert_eq!(
        out,
        ".TH A 1\n.na\n.SH X\n.na\n.TP\ntag\n.na\nbody\n.IP \\(bu 2\n.na\nitem\n.HP\n.na\n"
    );
}
