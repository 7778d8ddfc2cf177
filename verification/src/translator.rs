use vstd::prelude::*;

use crate::config::Config;
use crate::models::bearer_authorization;
use crate::prompts::{build_system_prompt, PROMPT_AFTER_LOCALE, PROMPT_BEFORE_LOCALE};
use crate::text::{
    trim_end_char, trim_end_char_string,
    occurs_at, occurs_at_bytes, lemma_find_from_is, string_views, find_from,
    append_line, append_range, chars_of, ends_with, rfind, rfind_chars, string_of, subvec, contains, eq_chars, find, find_chars, index_of,
    join_lines, lemma_find_from_none_or_some, lemma_index_of_is, lemma_join_push, lines_of,
    occurs_at_chars, push_char, rfind_upto, lemma_rfind_upto_bound, skip_ws, skip_ws_back, split_lines, starts_with, starts_with_chars, trim,
    trim_bounds, trim_end, trim_end_vec, trim_vec, lemma_join_concat, views, ws_prefix_len,
};

verus! {

// ---------------------------------------------------------------------------
// roff line classification
// ---------------------------------------------------------------------------

/// `t` is `name`, or `name` followed by a space or a tab.
pub open spec fn macro_with_boundary(t: Seq<char>, name: Seq<char>) -> bool {
    t == name || (starts_with(t, name) && t.len() > name.len() && (t[name.len() as int] == ' '
        || t[name.len() as int] == '\t'))
}

/// A paragraph macro of the man package (`.P .PP .LP .TP .IP .HP .RS .SH .SS`),
/// alone or followed by a space or tab and its arguments; each resets
/// adjustment to full justification.
#[verifier::opaque]
pub open spec fn paragraph_macro(line: Seq<char>) -> bool {
    let t = trim(line);
    ||| macro_with_boundary(t, seq!['.', 'P'])
    ||| macro_with_boundary(t, seq!['.', 'P', 'P'])
    ||| macro_with_boundary(t, seq!['.', 'L', 'P'])
    ||| macro_with_boundary(t, seq!['.', 'T', 'P'])
    ||| macro_with_boundary(t, seq!['.', 'I', 'P'])
    ||| macro_with_boundary(t, seq!['.', 'H', 'P'])
    ||| macro_with_boundary(t, seq!['.', 'R', 'S'])
    ||| macro_with_boundary(t, seq!['.', 'S', 'H'])
    ||| macro_with_boundary(t, seq!['.', 'S', 'S'])
}

/// A paragraph macro whose tag is the next input line: `.TP`, `.HP`, bare `.IP`.
#[verifier::opaque]
pub open spec fn tag_next_line_macro(line: Seq<char>) -> bool {
    let t = trim(line);
    ||| macro_with_boundary(t, seq!['.', 'T', 'P'])
    ||| macro_with_boundary(t, seq!['.', 'H', 'P'])
    ||| t == seq!['.', 'I', 'P']
}

/// A no-adjust directive: `.na` or `.ad l`.
#[verifier::opaque]
pub open spec fn na_line(line: Seq<char>) -> bool {
    let t = trim(line);
    t == seq!['.', 'n', 'a'] || t == seq!['.', 'a', 'd', ' ', 'l']
}

/// A `.TH` header line.
#[verifier::opaque]
pub open spec fn th_line(line: Seq<char>) -> bool {
    macro_with_boundary(trim(line), seq!['.', 'T', 'H'])
}

/// The `.na` line that the library inserts.
pub open spec fn na_directive() -> Seq<char> {
    seq!['.', 'n', 'a']
}

/// A `.na` line, unless the following lines already begin with a no-adjust directive.
pub open spec fn na_unless_present(rest: Seq<Seq<char>>) -> Seq<Seq<char>> {
    if rest.len() == 0 || !na_line(rest[0]) {
        seq![na_directive()]
    } else {
        seq![]
    }
}

/// Number of no-adjust lines at the front of `ls`.
pub open spec fn leading_na_count(ls: Seq<Seq<char>>) -> nat
    decreases ls.len(),
{
    if ls.len() > 0 && na_line(ls[0]) {
        1 + leading_na_count(ls.drop_first())
    } else {
        0
    }
}

/// The lines of a man page after no-adjust insertion; `th_seen` tells whether
/// the `.TH` header has already been handled.
#[verifier::opaque]
pub open spec fn na_lines(ls: Seq<Seq<char>>, th_seen: bool) -> Seq<Seq<char>>
    decreases ls.len(),
{
    if ls.len() == 0 {
        seq![]
    } else {
        let line = ls[0];
        let rest = ls.drop_first();
        if !th_seen && th_line(line) {
            seq![line] + na_unless_present(rest) + na_lines(rest, true)
        } else if paragraph_macro(line) {
            let k = leading_na_count(rest) as int;
            if tag_next_line_macro(line) && k < rest.len() {
                seq![line, rest[k]] + na_unless_present(rest.skip(k + 1))
                    + na_lines(rest.skip(k + 1), th_seen)
            } else {
                seq![line] + na_unless_present(rest) + na_lines(rest, th_seen)
            }
        } else {
            seq![line] + na_lines(rest, th_seen)
        }
    }
}

/// What `insert_no_adjust` produces for `roff`.
pub open spec fn insert_no_adjust_spec(roff: Seq<char>) -> Seq<char> {
    join_lines(na_lines(lines_of(roff), false))
}

pub proof fn lemma_leading_na_count_is(ls: Seq<Seq<char>>, k: int)
    requires
        0 <= k <= ls.len(),
        forall|j: int| 0 <= j < k ==> na_line(#[trigger] ls[j]),
        k == ls.len() || !na_line(ls[k]),
    ensures
        leading_na_count(ls) == k,
    decreases k,
{
    if k > 0 {
        assert forall|j: int| 0 <= j < k - 1 implies na_line(#[trigger] ls.drop_first()[j]) by {
            assert(ls.drop_first()[j] == ls[j + 1]);
        }
        lemma_leading_na_count_is(ls.drop_first(), k - 1);
    }
}

/// True if `trimmed` is exactly `name` or `name` followed by a space or tab.
fn is_macro_with_boundary(trimmed: &Vec<char>, name: &[char]) -> (r: bool)
    ensures
        r == macro_with_boundary(trimmed@, name@),
{
    eq_chars(trimmed, name) || (starts_with_chars(trimmed, name) && trimmed.len() > name.len() && (
    trimmed[name.len()] == ' ' || trimmed[name.len()] == '\t'))
}

/// Check if a line is a paragraph macro (one that resets adjustment to `.ad b`).
fn is_paragraph_macro(line: &Vec<char>) -> (r: bool)
    ensures
        r == paragraph_macro(line@),
{
    reveal(paragraph_macro);
    let t = trim_vec(line);
    let r = is_macro_with_boundary(&t, &['.', 'P']) || is_macro_with_boundary(&t, &['.', 'P', 'P'])
        || is_macro_with_boundary(&t, &['.', 'L', 'P']) || is_macro_with_boundary(
        &t,
        &['.', 'T', 'P'],
    ) || is_macro_with_boundary(&t, &['.', 'I', 'P']) || is_macro_with_boundary(
        &t,
        &['.', 'H', 'P'],
    ) || is_macro_with_boundary(&t, &['.', 'R', 'S']) || is_macro_with_boundary(
        &t,
        &['.', 'S', 'H'],
    ) || is_macro_with_boundary(&t, &['.', 'S', 'S']);
    r
}


/// Whether the paragraph macro takes its tag from the next input line:
/// `.TP`, `.HP`, and bare `.IP` (no marker argument).
fn is_tag_next_line_macro(line: &Vec<char>) -> (r: bool)
    ensures
        r == tag_next_line_macro(line@),
{
    reveal(tag_next_line_macro);
    let t = trim_vec(line);
    is_macro_with_boundary(&t, &['.', 'T', 'P']) || is_macro_with_boundary(&t, &['.', 'H', 'P'])
        || eq_chars(&t, &['.', 'I', 'P'])
}

/// Check if a line is a no-adjust directive (`.na` or `.ad l`).
fn is_na_line(line: &Vec<char>) -> (r: bool)
    ensures
        r == na_line(line@),
{
    reveal(na_line);
    let t = trim_vec(line);
    eq_chars(&t, &['.', 'n', 'a']) || eq_chars(&t, &['.', 'a', 'd', ' ', 'l'])
}

/// Check if a line is a `.TH` header line (argument separated by space or tab).
fn is_th_line(line: &Vec<char>) -> (r: bool)
    ensures
        r == th_line(line@),
{
    reveal(th_line);
    let t = trim_vec(line);
    is_macro_with_boundary(&t, &['.', 'T', 'H'])
}

/// Appends the `.na` directive line to `s`.
fn append_na(s: &mut String)
    ensures
        final(s)@ == old(s)@ + na_directive() + seq!['\n'],
{
    push_char(s, '.');
    push_char(s, 'n');
    push_char(s, 'a');
    push_char(s, '\n');
    assert(final(s)@ == old(s)@ + na_directive() + seq!['\n']);
}

/// Insert `.na` (no adjust) after `.TH` and after every paragraph macro
/// (.P, .PP, .LP, .TP, .IP, .HP, .RS, .SH, .SS) in a roff man page.
///
/// groff's man macros reset adjustment to `.ad b` (full justification) at
/// every paragraph macro, so `.na` must be re-inserted after each of them.
/// For `.TP`, `.HP` and bare `.IP` the tag comes from the next input line and
/// groff restores `.ad b` after that tag, so `.na` is placed after the tag line;
/// stray no-adjust lines between the macro and its tag are dropped.
pub fn insert_no_adjust(roff: &str) -> (r: String)
    ensures
        r@ == insert_no_adjust_spec(roff@),
{
    let chars = chars_of(roff);
    let lines = split_lines(&chars);
    let ghost ls = views(lines@);
    let mut result = String::new();
    let mut th_seen = false;
    let mut i: usize = 0;
    let ghost mut out: Seq<Seq<char>> = seq![];
    assert(ls.skip(0) == ls);
    while i < lines.len()
        invariant
            i <= lines.len(),
            ls == views(lines@),
            ls == lines_of(roff@),
            na_lines(ls, false) == out + na_lines(ls.skip(i as int), th_seen),
            result@ == join_lines(out),
        decreases lines.len() - i,
    {
        let ghost cur = ls.skip(i as int);
        let ghost rest = cur.drop_first();
        assert(cur[0] == lines@[i as int]@);
        assert(rest == ls.skip(i + 1));
        let line = &lines[i];
        if !th_seen && is_th_line(line) {
            th_seen = true;
            append_line(&mut result, line);
            proof {
                lemma_join_push(out, line@);
                out = out.push(line@);
            }
            if i + 1 >= lines.len() || !is_na_line(&lines[i + 1]) {
                append_na(&mut result);
                proof {
                    lemma_join_push(out, na_directive());
                    out = out.push(na_directive());
                }
            }
            assert(na_lines(cur, false) == seq![cur[0]] + na_unless_present(rest) + na_lines(
                rest,
                true,
            )) by {
                reveal(na_lines);
            }
            i += 1;
            continue;
        }
        if is_paragraph_macro(line) {
            if is_tag_next_line_macro(line) {
                let mut j = i + 1;
                while j < lines.len() && is_na_line(&lines[j])
                    invariant
                        i + 1 <= j <= lines.len(),
                        ls == views(lines@),
                        forall|m: int| i + 1 <= m < j ==> na_line(#[trigger] ls[m]),
                    decreases lines.len() - j,
                {
                    j += 1;
                }
                proof {
                    assert forall|m: int| 0 <= m < j - (i + 1) implies na_line(#[trigger] rest[m]) by {
                        assert(rest[m] == ls[i + 1 + m]);
                    }
                    if j < lines.len() {
                        assert(rest[j - (i + 1)] == ls[j as int]);
                    }
                    lemma_leading_na_count_is(rest, j - (i + 1));
                }
                if j < lines.len() {
                    let ghost k = j - (i + 1);
                    assert(rest[k] == lines@[j as int]@);
                    assert(rest.skip(k + 1) == ls.skip(j + 1));
                    append_line(&mut result, line);
                    append_line(&mut result, &lines[j]);
                    proof {
                        lemma_join_push(out, line@);
                        out = out.push(line@);
                        lemma_join_push(out, lines@[j as int]@);
                        out = out.push(lines@[j as int]@);
                    }
                    if j + 1 >= lines.len() || !is_na_line(&lines[j + 1]) {
                        append_na(&mut result);
                        proof {
                            lemma_join_push(out, na_directive());
                            out = out.push(na_directive());
                        }
                    }
                    assert(na_lines(cur, th_seen) == seq![cur[0], rest[k]] + na_unless_present(
                        rest.skip(k + 1),
                    ) + na_lines(rest.skip(k + 1), th_seen)) by {
                        reveal(na_lines);
                    }
                    i = j + 1;
                    continue;
                }
            }
            append_line(&mut result, line);
            proof {
                lemma_join_push(out, line@);
                out = out.push(line@);
            }
            if i + 1 >= lines.len() || !is_na_line(&lines[i + 1]) {
                append_na(&mut result);
                proof {
                    lemma_join_push(out, na_directive());
                    out = out.push(na_directive());
                }
            }
            assert(na_lines(cur, th_seen) == seq![cur[0]] + na_unless_present(rest) + na_lines(
                rest,
                th_seen,
            )) by {
                reveal(na_lines);
            }
            i += 1;
            continue;
        }
        append_line(&mut result, line);
        proof {
            lemma_join_push(out, line@);
            out = out.push(line@);
        }
        assert(na_lines(cur, th_seen) == seq![cur[0]] + na_lines(rest, th_seen)) by {
            reveal(na_lines);
        }
        i += 1;
    }
    assert(ls.skip(i as int) == Seq::<Seq<char>>::empty());
    assert(na_lines(ls.skip(i as int), th_seen) == Seq::<Seq<char>>::empty()) by {
        reveal(na_lines);
    }
    assert(out + na_lines(ls.skip(i as int), th_seen) == out);
    result
}

/// Whether `roff` holds `.na` or `.ad l` at the start of a line: at its very
/// beginning or after a line feed.
pub open spec fn has_no_adjust_spec(roff: Seq<char>) -> bool {
    ||| starts_with(roff, seq!['.', 'n', 'a'])
    ||| starts_with(roff, seq!['.', 'a', 'd', ' ', 'l'])
    ||| contains(roff, seq!['\n', '.', 'n', 'a'])
    ||| contains(roff, seq!['\n', '.', 'a', 'd', ' ', 'l'])
}

/// Whether `p` occurs in `v` (via the first occurrence).
fn contains_chars(v: &Vec<char>, p: &[char]) -> (r: bool)
    ensures
        r == contains(v@, p@),
{
    let r = find_chars(v, p, 0);
    proof {
        lemma_find_from_none_or_some(v@, p@, 0);
    }
    r.is_some()
}

/// Check whether a roff source string already has a no-adjust / no-fill directive.
pub fn has_no_adjust(roff: &str) -> (r: bool)
    ensures
        r == has_no_adjust_spec(roff@),
{
    let v = chars_of(roff);
    starts_with_chars(&v, &['.', 'n', 'a']) || starts_with_chars(&v, &['.', 'a', 'd', ' ', 'l'])
        || contains_chars(&v, &['\n', '.', 'n', 'a']) || contains_chars(
        &v,
        &['\n', '.', 'a', 'd', ' ', 'l'],
    )
}

// ---------------------------------------------------------------------------
// Whitespace normalisation
// ---------------------------------------------------------------------------

/// Runs of spaces and tabs in `b` collapsed to one space; `pending` tells that
/// a space was just emitted.
pub open spec fn collapse_blank_runs(b: Seq<char>, pending: bool) -> Seq<char>
    decreases b.len(),
{
    if b.len() == 0 {
        seq![]
    } else if b[0] == ' ' || b[0] == '\t' {
        if pending {
            collapse_blank_runs(b.drop_first(), true)
        } else {
            seq![' '] + collapse_blank_runs(b.drop_first(), true)
        }
    } else {
        seq![b[0]] + collapse_blank_runs(b.drop_first(), false)
    }
}

/// A roff control line (after trimming it begins with `.` or `'`) or a blank line.
pub open spec fn control_or_blank(content: Seq<char>) -> bool {
    let t = trim(content);
    t.len() == 0 || t[0] == '.' || t[0] == '\''
}

/// One line (with its line feed, if any) after whitespace normalisation.
pub open spec fn normalize_piece(p: Seq<char>) -> Seq<char> {
    let has_nl = p.len() > 0 && p.last() == '\n';
    let content = if has_nl { p.drop_last() } else { p };
    if control_or_blank(content) {
        p
    } else {
        let lead = ws_prefix_len(content) as int;
        content.take(lead) + collapse_blank_runs(trim_end(content.skip(lead)), false) + (if has_nl {
            seq!['\n']
        } else {
            seq![]
        })
    }
}

/// What `normalize_text_spaces` produces: every line (split after each `'\n'`)
/// normalised on its own.
pub open spec fn normalize_spec(s: Seq<char>) -> Seq<char>
    decreases s.len(),
{
    if s.len() == 0 {
        seq![]
    } else {
        let k = index_of(s, '\n');
        if k >= s.len() {
            normalize_piece(s)
        } else {
            normalize_piece(s.take(k + 1 as int)) + normalize_spec(s.skip(k + 1 as int))
        }
    }
}

/// Appends `collapse_blank_runs(v[lo..hi], false)` to `out`.
fn append_collapsed(out: &mut String, v: &Vec<char>, lo: usize, hi: usize)
    requires
        lo <= hi <= v.len(),
    ensures
        final(out)@ == old(out)@ + collapse_blank_runs(v@.subrange(lo as int, hi as int), false),
{
    let ghost b = v@.subrange(lo as int, hi as int);
    let mut pending = false;
    let mut i = lo;
    assert(b.skip(0) == b);
    while i < hi
        invariant
            lo <= i <= hi <= v.len(),
            b == v@.subrange(lo as int, hi as int),
            old(out)@ + collapse_blank_runs(b, false) == out@ + collapse_blank_runs(
                b.skip(i - lo),
                pending,
            ),
        decreases hi - i,
    {
        let ghost cur = b.skip(i - lo);
        assert(cur[0] == v@[i as int]);
        assert(cur.drop_first() == b.skip(i + 1 - lo));
        let ch = v[i];
        if ch == ' ' || ch == '\t' {
            if !pending {
                push_char(out, ' ');
                pending = true;
                assert(collapse_blank_runs(cur, false) == seq![' '] + collapse_blank_runs(
                    cur.drop_first(),
                    true,
                ));
            }
        } else {
            pending = false;
            push_char(out, ch);
            assert(collapse_blank_runs(cur, pending) == seq![ch] + collapse_blank_runs(
                cur.drop_first(),
                false,
            ));
        }
        i += 1;
    }
    assert(b.skip(hi - lo) == Seq::<char>::empty());
}

/// Appends `normalize_piece(v[lo..hi])` to `out`.
fn append_normalized_piece(out: &mut String, v: &Vec<char>, lo: usize, hi: usize)
    requires
        lo <= hi <= v.len(),
    ensures
        final(out)@ == old(out)@ + normalize_piece(v@.subrange(lo as int, hi as int)),
{
    let ghost p = v@.subrange(lo as int, hi as int);
    let has_nl = hi > lo && v[hi - 1] == '\n';
    let cend = if has_nl { hi - 1 } else { hi };
    let ghost content = v@.subrange(lo as int, cend as int);
    assert(content == (if has_nl { p.drop_last() } else { p }));
    let (a, b) = trim_bounds(v, lo, cend);
    if a == b || v[a] == '.' || v[a] == '\'' {
        append_range(out, v, lo, hi);
        return;
    }
    assert(trim(content)[0] == v@[a as int]);
    let lead = skip_ws(v, lo, cend);
    let bend = skip_ws_back(v, lead, cend);
    assert(content.take(lead - lo) == v@.subrange(lo as int, lead as int));
    assert(content.skip(lead - lo) == v@.subrange(lead as int, cend as int));
    assert(trim_end(content.skip(lead - lo)) == v@.subrange(lead as int, bend as int));
    append_range(out, v, lo, lead);
    append_collapsed(out, v, lead, bend);
    if has_nl {
        push_char(out, '\n');
    }
}

/// Collapse runs of 2+ ASCII spaces (and tabs) inside non-macro text lines to
/// a single space.
///
/// Macro/control lines (starting with `.` or `'`) and blank lines are left
/// untouched, leading indentation of text lines is preserved and trailing
/// whitespace of text lines is dropped.
pub fn normalize_text_spaces(roff: &str) -> (r: String)
    ensures
        r@ == normalize_spec(roff@),
{
    let v = chars_of(roff);
    let mut result = String::new();
    let mut start: usize = 0;
    let mut i: usize = 0;
    assert(v@.skip(0) == v@);
    while i < v.len()
        invariant
            start <= i <= v.len(),
            forall|j: int| start <= j < i ==> v@[j] != '\n',
            normalize_spec(v@) == result@ + normalize_spec(v@.skip(start as int)),
        decreases v.len() - i,
    {
        if v[i] == '\n' {
            let ghost t = v@.skip(start as int);
            let ghost k = i - start;
            proof {
                lemma_index_of_is(t, '\n', k);
            }
            assert(t.take(k + 1) == v@.subrange(start as int, i + 1));
            assert(t.skip(k + 1) == v@.skip(i + 1));
            let ghost before = result@;
            append_normalized_piece(&mut result, &v, start, i + 1);
            assert(normalize_spec(t) == normalize_piece(t.take(k + 1)) + normalize_spec(
                v@.skip(i + 1),
            ));
            start = i + 1;
        }
        i += 1;
    }
    let ghost t = v@.skip(start as int);
    if start < v.len() {
        proof {
            lemma_index_of_is(t, '\n', t.len() as int);
        }
        assert(t == v@.subrange(start as int, v.len() as int));
        append_normalized_piece(&mut result, &v, start, v.len());
    } else {
        assert(t.len() == 0);
    }
    result
}

// ---------------------------------------------------------------------------
// Markdown code fences in model answers
// ---------------------------------------------------------------------------

/// The Markdown code fence.
pub open spec fn fence() -> Seq<char> {
    seq!['`', '`', '`']
}

/// What `strip_markdown_code_blocks` returns for `content`.
pub open spec fn strip_code_blocks_spec(content: Seq<char>) -> Seq<char> {
    let t = trim(content);
    let nl = find(t, seq!['\n']);
    if starts_with(t, fence()) && nl is Some && ends_with(t, fence()) {
        trim(t.subrange(nl->0 + 1, t.len() - 3))
    } else {
        let start = find(t, fence());
        if start is Some {
            let after = t.skip(start->0);
            let first_nl = find(after, seq!['\n']);
            if first_nl is Some {
                let remaining = t.skip(start->0 + first_nl->0 + 1);
                let end = rfind(remaining, fence());
                if end is Some {
                    trim(remaining.take(end->0))
                } else {
                    t
                }
            } else {
                t
            }
        } else {
            t
        }
    }
}

/// Strip Markdown code block markers (like ```groff ... ```) from the AI response.
/// Handles two cases:
///   1. The entire response is wrapped in a code block.
///   2. A code block is embedded inside conversational text.
pub fn strip_markdown_code_blocks(content: &str) -> (r: String)
    ensures
        r@ == strip_code_blocks_spec(content@),
{
    let c = chars_of(content);
    let t = trim_vec(&c);
    let fence_chars = ['`', '`', '`'];
    assert(fence_chars@ == fence());
    let nl_pat = ['\n'];
    assert(nl_pat@ == seq!['\n']);
    let nl = find_chars(&t, &nl_pat, 0);
    if starts_with_chars(&t, &fence_chars) && nl.is_some() && t.len() >= 3 && occurs_at_chars(
        &t,
        &fence_chars,
        t.len() - 3,
    ) {
        let nl = nl.unwrap();
        proof {
            lemma_find_from_none_or_some(t@, nl_pat@, 0);
            assert(t@.subrange(nl as int, nl + 1)[0] == t@[nl as int]);
            assert(t@[nl as int] == '\n');
            assert(t@.take(3) == fence());
            if nl < 3 {
                assert(t@.take(3)[nl as int] == t@[nl as int]);
            }
            assert(t@.skip(t@.len() - 3) == t@.subrange(t@.len() - 3, t@.len() as int));
            if nl >= t.len() - 3 {
                assert(t@.subrange(t@.len() - 3, t@.len() as int)[nl - (t@.len() - 3)] == t@[nl as int]);
            }
        }
        let (a, b) = trim_bounds(&t, nl + 1, t.len() - 3);
        return string_of(&subvec(&t, a, b));
    }
    proof {
        if t@.len() >= 3 {
            assert(t@.skip(t@.len() - 3) == t@.subrange(t@.len() - 3, t@.len() as int));
        }
    }
    if let Some(start) = find_chars(&t, &fence_chars, 0) {
        proof {
            lemma_find_from_none_or_some(t@, fence_chars@, 0);
        }
        let after = subvec(&t, start, t.len());
        assert(after@ == t@.skip(start as int));
        if let Some(first_newline) = find_chars(&after, &nl_pat, 0) {
            proof {
                lemma_find_from_none_or_some(after@, nl_pat@, 0);
            }
            let code_start = start + first_newline + 1;
            let remaining = subvec(&t, code_start, t.len());
            assert(remaining@ == t@.skip(code_start as int));
            assert(remaining@.take(remaining@.len() as int) == remaining@);
            if let Some(end_pos) = rfind_chars(&remaining, &fence_chars, remaining.len()) {
                let ghost rr = remaining@.take(remaining@.len() as int);
                assert(rfind_upto(rr, fence(), rr.len() - 3) == Some(end_pos as int));
                proof {
                    lemma_rfind_upto_bound(rr, fence(), rr.len() - 3);
                }
                let (a, b) = trim_bounds(&remaining, 0, end_pos);
                assert(remaining@.subrange(0, end_pos as int) == remaining@.take(end_pos as int));
                return string_of(&subvec(&remaining, a, b));
            }
        }
    }
    string_of(&t)
}

// ---------------------------------------------------------------------------
// Breaking long text lines
// ---------------------------------------------------------------------------

/// What `unicode_width::UnicodeWidthChar::width` returns for `c`.
pub uninterp spec fn unicode_char_width(c: char) -> Option<usize>;

/// `UnicodeWidthChar::width` of the unicode-width crate: the display width of
/// `c` in columns, or `None` for a control character.  Trusted: the result is
/// the crate's value for `c`; the crate's rules give widths 0 to 3, `Some(1)`
/// for printable ASCII and `None` for the C0 and C1 control codes.
#[verifier::external_body]
fn char_width(c: char) -> (r: Option<usize>)
    ensures
        r == unicode_char_width(c),
        r matches Some(w) ==> w <= 3,
        0x20 <= (c as u32) < 0x7F ==> r == Some(1usize),
        (c as u32) < 0x20 || (0x7F <= (c as u32) < 0xA0) ==> r is None,
{
    unicode_width::UnicodeWidthChar::width(c)
}

/// Maximum display width for text lines before they are broken.
pub const MAX_LINE_WIDTH: usize = 76;

/// A printable ASCII character (space to tilde).
pub open spec fn printable_ascii(c: char) -> bool {
    0x20 <= (c as u32) < 0x7F
}

/// Columns taken by `c` (a control character counts as one).
pub open spec fn char_cols(c: char) -> nat {
    match unicode_char_width(c) {
        Some(w) => w as nat,
        None => 1,
    }
}

/// `char_cols` as a function value.
pub open spec fn char_cols_fn() -> spec_fn(char) -> nat {
    |c: char| char_cols(c)
}

/// Width of `s` when each character `c` takes `w(c)` columns.
pub open spec fn cols_w(w: spec_fn(char) -> nat, s: Seq<char>) -> nat
    decreases s.len(),
{
    if s.len() == 0 {
        0
    } else {
        cols_w(w, s.drop_last()) + w(s.last())
    }
}

/// Display width of `s`: the sum of its characters' columns.
pub open spec fn cols(s: Seq<char>) -> nat {
    cols_w(char_cols_fn(), s)
}

/// CJK punctuation after which long lines are preferably broken:
/// 。，、；：）〉》」』】！？．％
pub open spec fn cjk_break(c: char) -> bool {
    let u = c as u32;
    ||| u == 0x3002
    ||| u == 0xFF0C
    ||| u == 0x3001
    ||| u == 0xFF1B
    ||| u == 0xFF1A
    ||| u == 0xFF09
    ||| u == 0x3009
    ||| u == 0x300B
    ||| u == 0x300D
    ||| u == 0x300F
    ||| u == 0x3011
    ||| u == 0xFF01
    ||| u == 0xFF1F
    ||| u == 0xFF0E
    ||| u == 0xFF05
}

/// A good break point: a space or CJK punctuation.
pub open spec fn break_point(c: char) -> bool {
    c == ' ' || cjk_break(c)
}

/// Position just after the last break point of `s` (0 when there is none).
pub open spec fn last_break(s: Seq<char>) -> nat
    decreases s.len(),
{
    if s.len() == 0 {
        0
    } else if break_point(s.last()) {
        s.len()
    } else {
        last_break(s.drop_last())
    }
}

/// Pieces emitted for a kept prefix: the prefix without trailing whitespace,
/// unless that is empty.
pub open spec fn kept_piece(k: Seq<char>) -> Seq<Seq<char>> {
    if trim_end(k).len() > 0 {
        seq![trim_end(k)]
    } else {
        seq![]
    }
}

/// One step of line wrapping when each character `c` takes `w(c)` columns:
/// `ch` joins the pending text `out`; when the pending text gets wider than the
/// limit it is cut after its last break point, or else just before `ch`.
/// Yields the emitted pieces and the new pending text.
pub open spec fn wrap_step_w(w: spec_fn(char) -> nat, out: Seq<char>, ch: char) -> (
    Seq<Seq<char>>,
    Seq<char>,
) {
    let o = out.push(ch);
    if cols_w(w, o) > MAX_LINE_WIDTH {
        let lb = last_break(o) as int;
        if lb > 0 {
            (kept_piece(o.take(lb)), o.skip(lb))
        } else if o.len() - 1 > 0 {
            (kept_piece(o.take(o.len() - 1)), o.skip(o.len() - 1))
        } else {
            (seq![], o)
        }
    } else {
        (seq![], o)
    }
}

/// One step of line wrapping with the display widths.
pub open spec fn wrap_step(out: Seq<char>, ch: char) -> (Seq<Seq<char>>, Seq<char>) {
    wrap_step_w(char_cols_fn(), out, ch)
}

/// Wrapping of the characters `cs` with pending text `out`, each character
/// `c` taking `w(c)` columns.
pub open spec fn wrap_run_w(w: spec_fn(char) -> nat, cs: Seq<char>, out: Seq<char>) -> Seq<Seq<char>>
    decreases cs.len(),
{
    if cs.len() == 0 {
        if out.len() > 0 {
            seq![trim_end(out)]
        } else {
            seq![]
        }
    } else {
        let (em, o2) = wrap_step_w(w, out, cs[0]);
        em + wrap_run_w(w, cs.drop_first(), o2)
    }
}

/// Wrapping of the characters `cs` with pending text `out`, with the display widths.
pub open spec fn wrap_run(cs: Seq<char>, out: Seq<char>) -> Seq<Seq<char>> {
    wrap_run_w(char_cols_fn(), cs, out)
}

/// A roff control line (begins with `.` or `'` after trimming) or a blank line.
pub open spec fn kept_verbatim(line: Seq<char>) -> bool {
    let t = trim(line);
    t.len() == 0 || t[0] == '.' || t[0] == '\''
}

/// The output lines for one input line whose characters `c` take `w(c)` columns.
pub open spec fn break_line_w(w: spec_fn(char) -> nat, line: Seq<char>) -> Seq<Seq<char>> {
    if kept_verbatim(line) || cols_w(w, line) <= MAX_LINE_WIDTH {
        seq![line]
    } else {
        wrap_run_w(w, line, seq![])
    }
}

/// The output lines for one input line.
pub open spec fn break_line(line: Seq<char>) -> Seq<Seq<char>> {
    break_line_w(char_cols_fn(), line)
}

/// The output lines for a sequence of input lines.
pub open spec fn break_lines(ls: Seq<Seq<char>>) -> Seq<Seq<char>>
    decreases ls.len(),
{
    if ls.len() == 0 {
        seq![]
    } else {
        break_line(ls[0]) + break_lines(ls.drop_first())
    }
}

/// What `break_long_cjk_lines` produces for `roff`.
pub open spec fn break_spec(roff: Seq<char>) -> Seq<char> {
    join_lines(break_lines(lines_of(roff)))
}

pub proof fn lemma_cols_push(w: spec_fn(char) -> nat, s: Seq<char>, c: char)
    ensures
        cols_w(w, s.push(c)) == cols_w(w, s) + w(c),
{
    assert(s.push(c).drop_last() == s);
}

pub proof fn lemma_cols_concat(w: spec_fn(char) -> nat, a: Seq<char>, b: Seq<char>)
    ensures
        cols_w(w, a + b) == cols_w(w, a) + cols_w(w, b),
    decreases b.len(),
{
    if b.len() == 0 {
        assert(a + b == a);
    } else {
        lemma_cols_concat(w, a, b.drop_last());
        assert((a + b).drop_last() == a + b.drop_last());
    }
}

pub proof fn lemma_cols_split(w: spec_fn(char) -> nat, s: Seq<char>, k: int)
    requires
        0 <= k <= s.len(),
    ensures
        cols_w(w, s) == cols_w(w, s.take(k)) + cols_w(w, s.skip(k)),
{
    lemma_cols_concat(w, s.take(k), s.skip(k));
    assert(s.take(k) + s.skip(k) == s);
}

pub proof fn lemma_last_break(s: Seq<char>)
    ensures
        last_break(s) <= s.len(),
        last_break(s) > 0 ==> break_point(s[last_break(s) - 1]),
        forall|j: int| last_break(s) <= j < s.len() ==> !break_point(#[trigger] s[j]),
    decreases s.len(),
{
    if s.len() > 0 && !break_point(s.last()) {
        lemma_last_break(s.drop_last());
        assert forall|j: int| last_break(s) <= j < s.len() implies !break_point(#[trigger] s[j]) by {
            if j < s.len() - 1 {
                assert(s[j] == s.drop_last()[j]);
            }
        }
    }
}

pub proof fn lemma_no_break_point(s: Seq<char>)
    requires
        forall|j: int| 0 <= j < s.len() ==> !break_point(#[trigger] s[j]),
    ensures
        last_break(s) == 0,
    decreases s.len(),
{
    if s.len() > 0 {
        assert forall|j: int| 0 <= j < s.drop_last().len() implies !break_point(
            #[trigger] s.drop_last()[j],
        ) by {
            assert(s.drop_last()[j] == s[j]);
        }
        lemma_no_break_point(s.drop_last());
    }
}

/// Every piece of `ps` is at most `bound` columns wide when each character
/// `c` takes `w(c)` columns.
pub open spec fn pieces_within_w(w: spec_fn(char) -> nat, ps: Seq<Seq<char>>, bound: int) -> bool {
    forall|k: int| 0 <= k < ps.len() ==> cols_w(w, #[trigger] ps[k]) <= bound
}

/// Every piece of `ps` is at most `bound` display columns wide.
pub open spec fn pieces_within(ps: Seq<Seq<char>>, bound: int) -> bool {
    pieces_within_w(char_cols_fn(), ps, bound)
}

pub proof fn lemma_pieces_within_concat(
    w: spec_fn(char) -> nat,
    a: Seq<Seq<char>>,
    b: Seq<Seq<char>>,
    bound: int,
)
    requires
        pieces_within_w(w, a, bound),
        pieces_within_w(w, b, bound),
    ensures
        pieces_within_w(w, a + b, bound),
{
    assert forall|k: int| 0 <= k < (a + b).len() implies cols_w(w, #[trigger] (a + b)[k]) <= bound by {
        if k < a.len() {
            assert((a + b)[k] == a[k]);
        } else {
            assert((a + b)[k] == b[k - a.len()]);
        }
    }
}

pub proof fn lemma_cols_trim_end(w: spec_fn(char) -> nat, x: Seq<char>)
    ensures
        cols_w(w, trim_end(x)) <= cols_w(w, x),
{
    crate::text::lemma_ws_suffix_len_bound(x);
    lemma_cols_split(w, x, x.len() - crate::text::ws_suffix_len(x));
}

pub proof fn lemma_kept_within(w: spec_fn(char) -> nat, x: Seq<char>)
    ensures
        forall|k: int|
            0 <= k < kept_piece(x).len() ==> cols_w(w, #[trigger] kept_piece(x)[k]) <= cols_w(w, x),
{
    lemma_cols_trim_end(w, x);
    if trim_end(x).len() > 0 {
        assert(kept_piece(x)[0] == trim_end(x));
    }
}

/// CJK punctuation characters after which we prefer to break long lines.
fn is_cjk_break_char(c: char) -> (r: bool)
    ensures
        r == cjk_break(c),
{
    let u = c as u32;
    u == 0x3002 || u == 0xFF0C || u == 0x3001 || u == 0xFF1B || u == 0xFF1A || u == 0xFF09 || u
        == 0x3009 || u == 0x300B || u == 0x300D || u == 0x300F || u == 0x3011 || u == 0xFF01 || u == 0xFF1F || u
        == 0xFF0E || u == 0xFF05
}

/// Columns that `c` takes on a terminal: its Unicode width, one for a
/// control character; one for every printable ASCII character.
pub fn char_columns(c: char) -> (r: usize)
    ensures
        r == char_cols(c),
        r <= 3,
        printable_ascii(c) ==> r == 1,
{
    match char_width(c) {
        Some(w) => w,
        None => 1,
    }
}

/// The width function that `widths` gives the characters of `line`
/// (`widths[j]` columns for `line[j]`); any other character keeps its
/// display width.
pub open spec fn width_of(line: Seq<char>, widths: Seq<usize>) -> spec_fn(char) -> nat {
    |c: char|
        if exists|j: int| 0 <= j < line.len() && line[j] == c {
            widths[choose|j: int| 0 <= j < line.len() && line[j] == c] as nat
        } else {
            char_cols(c)
        }
}

/// `widths` gives one width of at most three columns to each character of
/// `line`, the same to equal characters.
pub open spec fn widths_fit(line: Seq<char>, widths: Seq<usize>) -> bool {
    &&& widths.len() == line.len()
    &&& forall|j: int| 0 <= j < widths.len() ==> #[trigger] widths[j] <= 3
    &&& forall|i: int, j: int|
        0 <= i < line.len() && 0 <= j < line.len() && #[trigger] line[i] == #[trigger] line[j]
            ==> widths[i] == widths[j]
}

pub proof fn lemma_width_of(line: Seq<char>, widths: Seq<usize>, i: int)
    requires
        widths_fit(line, widths),
        0 <= i < line.len(),
    ensures
        (width_of(line, widths))(line[i]) == widths[i] as nat,
{
    let c = line[i];
    assert(exists|j: int| 0 <= j < line.len() && line[j] == c);
    let j = choose|j: int| 0 <= j < line.len() && line[j] == c;
    assert(line[j] == line[i]);
}

/// With the display widths of its characters, `widths` gives `line` its
/// display widths.
pub proof fn lemma_width_of_display(line: Seq<char>, widths: Seq<usize>)
    requires
        widths.len() == line.len(),
        forall|j: int| 0 <= j < line.len() ==> widths[j] == char_cols(#[trigger] line[j]),
    ensures
        width_of(line, widths) == char_cols_fn(),
{
    assert forall|c: char| (#[trigger] (width_of(line, widths))(c)) == (char_cols_fn())(c) by {
        if exists|j: int| 0 <= j < line.len() && line[j] == c {
            let j = choose|j: int| 0 <= j < line.len() && line[j] == c;
            assert(widths[j] == char_cols(line[j]));
        }
    }
    assert(width_of(line, widths) =~= char_cols_fn());
}

/// Whether `line`, measured with `widths`, is at most `MAX_LINE_WIDTH` wide.
fn fits_width(line: &Vec<char>, widths: &Vec<usize>) -> (r: bool)
    requires
        widths_fit(line@, widths@),
    ensures
        r == (cols_w(width_of(line@, widths@), line@) <= MAX_LINE_WIDTH),
{
    let ghost w = width_of(line@, widths@);
    let mut total: usize = 0;
    let mut k: usize = 0;
    while k < line.len() && total <= MAX_LINE_WIDTH
        invariant
            k <= line.len(),
            widths_fit(line@, widths@),
            w == width_of(line@, widths@),
            total == cols_w(w, line@.take(k as int)),
            total <= MAX_LINE_WIDTH + 3,
        decreases line.len() - k,
    {
        let ghost before = line@.take(k as int);
        proof {
            lemma_cols_push(w, before, line@[k as int]);
            assert(line@.take(k + 1) == before.push(line@[k as int]));
            lemma_width_of(line@, widths@, k as int);
        }
        total += widths[k];
        k += 1;
    }
    proof {
        lemma_cols_split(w, line@, k as int);
        if k == line.len() {
            assert(line@.take(k as int) == line@);
        }
    }
    total <= MAX_LINE_WIDTH
}

/// Width of `line[lo..hi]` measured with `widths`, known to be small.
fn cols_exec(line: &Vec<char>, widths: &Vec<usize>, lo: usize, hi: usize, bound: usize) -> (r: usize)
    requires
        widths_fit(line@, widths@),
        lo <= hi <= line@.len(),
        cols_w(width_of(line@, widths@), line@.subrange(lo as int, hi as int)) <= bound,
        bound <= MAX_LINE_WIDTH + 6,
    ensures
        r == cols_w(width_of(line@, widths@), line@.subrange(lo as int, hi as int)),
{
    let ghost w = width_of(line@, widths@);
    let ghost v = line@.subrange(lo as int, hi as int);
    let mut total: usize = 0;
    let mut k: usize = lo;
    while k < hi
        invariant
            lo <= k <= hi <= line@.len(),
            widths_fit(line@, widths@),
            w == width_of(line@, widths@),
            v == line@.subrange(lo as int, hi as int),
            cols_w(w, v) <= bound <= MAX_LINE_WIDTH + 6,
            total == cols_w(w, v.take(k - lo)),
        decreases hi - k,
    {
        let ghost before = v.take(k - lo);
        proof {
            assert(v[k - lo] == line@[k as int]);
            lemma_cols_push(w, before, v[k - lo]);
            assert(v.take(k + 1 - lo) == before.push(v[k - lo]));
            lemma_cols_split(w, v, k + 1 - lo);
            lemma_width_of(line@, widths@, k as int);
        }
        total += widths[k];
        k += 1;
    }
    assert(v.take(k - lo) == v);
    total
}

/// Position just after the last break point of `v`.
fn last_break_exec(v: &Vec<char>) -> (r: usize)
    ensures
        r == last_break(v@),
{
    let mut lb: usize = 0;
    let mut k: usize = 0;
    while k < v.len()
        invariant
            k <= v.len(),
            lb == last_break(v@.take(k as int)),
        decreases v.len() - k,
    {
        let rc = v[k];
        assert(v@.take(k + 1).drop_last() == v@.take(k as int));
        if rc == ' ' || is_cjk_break_char(rc) {
            lb = k + 1;
        }
        k += 1;
    }
    assert(v@.take(k as int) == v@);
    lb
}

/// Appends `kept_piece(v[..k])` as lines to `result`.
fn emit_kept(result: &mut String, v: &Vec<char>, k: usize)
    requires
        k <= v.len(),
    ensures
        final(result)@ == old(result)@ + join_lines(kept_piece(v@.take(k as int))),
{
    let b = skip_ws_back(v, 0, k);
    assert(v@.subrange(0, k as int) == v@.take(k as int));
    assert(trim_end(v@.take(k as int)) == v@.subrange(0, b as int));
    if b == 0 {
        assert(join_lines(kept_piece(v@.take(k as int))) == Seq::<char>::empty());
    }
    if b > 0 {
        let kept = subvec(v, 0, b);
        append_line(result, &kept);
        proof {
            lemma_join_push(Seq::<Seq<char>>::empty(), kept@);
            assert(seq![kept@] == Seq::<Seq<char>>::empty().push(kept@));
        }
    }
}

/// Appends the output lines for one input line, measured with `widths`, to `result`.
fn break_line_into(result: &mut String, line: &Vec<char>, widths: &Vec<usize>)
    requires
        widths_fit(line@, widths@),
    ensures
        final(result)@ == old(result)@ + join_lines(break_line_w(width_of(line@, widths@), line@)),
        !kept_verbatim(line@) ==> pieces_within_w(
            width_of(line@, widths@),
            break_line_w(width_of(line@, widths@), line@),
            MAX_LINE_WIDTH + 6,
        ),
{
    let ghost w = width_of(line@, widths@);
    let (a, b) = trim_bounds(line, 0, line.len());
    assert(line@.subrange(0, line@.len() as int) == line@);
    if a == b || line[a] == '.' || line[a] == '\'' || fits_width(line, widths) {
        if a < b {
            assert(trim(line@)[0] == line@[a as int]);
        }
        append_line(result, line);
        proof {
            lemma_join_push(Seq::<Seq<char>>::empty(), line@);
            assert(seq![line@] == Seq::<Seq<char>>::empty().push(line@));
            assert(seq![line@][0] == line@);
        }
        return;
    }
    assert(trim(line@)[0] == line@[a as int]);
    let ghost start = old(result)@;
    let mut out_line: Vec<char> = Vec::new();
    let mut out_start: usize = 0;
    let mut out_width: usize = 0;
    let mut last_break_pos: usize = 0;
    let mut i: usize = 0;
    let ghost mut emitted: Seq<Seq<char>> = seq![];
    assert(line@.skip(0) == line@);
    assert(emitted + wrap_run_w(w, line@, seq![]) == wrap_run_w(w, line@, seq![]));
    while i < line.len()
        invariant
            i <= line.len(),
            widths_fit(line@, widths@),
            w == width_of(line@, widths@),
            out_start <= i,
            out_line@ == line@.subrange(out_start as int, i as int),
            wrap_run_w(w, line@, seq![]) == emitted + wrap_run_w(w, line@.skip(i as int), out_line@),
            pieces_within_w(w, emitted, MAX_LINE_WIDTH + 6),
            out_width == cols_w(w, out_line@),
            last_break_pos == last_break(out_line@),
            out_width <= MAX_LINE_WIDTH + 3,
            out_width > MAX_LINE_WIDTH ==> last_break_pos == 0,
            start + join_lines(wrap_run_w(w, line@, seq![])) == result@ + join_lines(
                wrap_run_w(w, line@.skip(i as int), out_line@),
            ),
        decreases line.len() - i,
    {
        let ghost cur = line@.skip(i as int);
        let ghost before = out_line@;
        let ch = line[i];
        assert(cur[0] == ch);
        assert(cur.drop_first() == line@.skip(i + 1));
        let ch_width = widths[i];
        proof {
            lemma_width_of(line@, widths@, i as int);
        }
        proof {
            lemma_cols_push(w, before, ch);
        }
        out_width += ch_width;
        out_line.push(ch);
        assert(out_line@ == before.push(ch));
        assert(out_line@.drop_last() == before);
        if ch == ' ' || is_cjk_break_char(ch) {
            last_break_pos = out_line.len();
        }
        let ghost o = out_line@;
        let ghost step = wrap_step_w(w, before, ch);
        assert(wrap_run_w(w, cur, before) == step.0 + wrap_run_w(w, cur.drop_first(), step.1));
        proof {
            lemma_join_concat(step.0, wrap_run_w(w, cur.drop_first(), step.1));
        }
        if out_width > MAX_LINE_WIDTH && last_break_pos > 0 {
            proof {
                lemma_last_break(o);
                lemma_cols_split(w, o, last_break_pos as int);
                assert forall|j: int| 0 <= j < o.skip(last_break_pos as int).len() implies !break_point(
                    #[trigger] o.skip(last_break_pos as int)[j],
                ) by {
                    assert(o.skip(last_break_pos as int)[j] == o[last_break_pos + j]);
                }
                lemma_no_break_point(o.skip(last_break_pos as int));
            }
            proof {
                lemma_kept_within(w, o.take(last_break_pos as int));
                lemma_cols_split(w, o, last_break_pos as int);
                lemma_pieces_within_concat(w, emitted, step.0, MAX_LINE_WIDTH + 6);
                emitted = emitted + step.0;
            }
            emit_kept(result, &out_line, last_break_pos);
            let rest = subvec(&out_line, last_break_pos, out_line.len());
            assert(rest@ == o.skip(last_break_pos as int));
            out_line = rest;
            proof {
                assert(out_line@ == line@.subrange(out_start + last_break_pos, i + 1));
            }
            out_start = out_start + last_break_pos;
            out_width = cols_exec(line, widths, out_start, i + 1, MAX_LINE_WIDTH + 6);
            last_break_pos = last_break_exec(&out_line);
            proof {
                if before.len() > 0 && cols_w(w, before) > MAX_LINE_WIDTH {
                    // the pending text had no break point, so `ch` is the break point
                    assert(last_break(o) == o.len());
                }
            }
        } else if out_width > MAX_LINE_WIDTH {
            let break_at = out_line.len() - 1;
            if break_at > 0 {
                proof {
                    lemma_cols_split(w, o, break_at as int);
                    lemma_last_break(o);
                    assert(o.skip(break_at as int) == seq![ch]);
                    assert(!break_point(ch));
                    lemma_no_break_point(o.skip(break_at as int));
                    lemma_cols_push(w, Seq::<char>::empty(), ch);
                    assert(seq![ch] == Seq::<char>::empty().push(ch));
                }
                proof {
                    lemma_kept_within(w, o.take(break_at as int));
                    lemma_pieces_within_concat(w, emitted, step.0, MAX_LINE_WIDTH + 6);
                    emitted = emitted + step.0;
                }
                emit_kept(result, &out_line, break_at);
                let rest = subvec(&out_line, break_at, out_line.len());
                assert(rest@ == o.skip(break_at as int));
                out_line = rest;
                proof {
                    assert(out_line@ == line@.subrange(i as int, i + 1));
                }
                out_start = i;
                out_width = cols_exec(line, widths, out_start, i + 1, MAX_LINE_WIDTH + 6);
                last_break_pos = 0;
            } else {
                assert(o == seq![ch]);
                proof {
                    lemma_cols_push(w, Seq::<char>::empty(), ch);
                    assert(seq![ch] == Seq::<char>::empty().push(ch));
                }
                assert(false);
            }
        } else {
            assert(step == (Seq::<Seq<char>>::empty(), o));
            assert(join_lines(Seq::<Seq<char>>::empty()) == Seq::<char>::empty());
            assert(emitted + step.0 == emitted);
        }
        assert(emitted + wrap_run_w(w, cur.drop_first(), out_line@) == wrap_run_w(w, line@, seq![]));
        i += 1;
    }
    let ghost tail = line@.skip(i as int);
    assert(tail.len() == 0);
    if out_line.len() > 0 {
        let last = trim_end_vec(&out_line);
        append_line(result, &last);
        proof {
            lemma_join_push(Seq::<Seq<char>>::empty(), last@);
            assert(seq![last@] == Seq::<Seq<char>>::empty().push(last@));
            lemma_cols_trim_end(w, out_line@);
            assert(pieces_within_w(w, seq![last@], MAX_LINE_WIDTH + 6)) by {
                assert(seq![last@][0] == last@);
            }
            lemma_pieces_within_concat(w, emitted, seq![last@], MAX_LINE_WIDTH + 6);
        }
    } else {
        assert(emitted + Seq::<Seq<char>>::empty() == emitted);
    }
}

/// The output lines for one input line whose characters take `widths`
/// columns (`widths[j]` for `line[j]`), each followed by a line feed: the line
/// itself when it is a control or blank line or fits in `MAX_LINE_WIDTH`
/// columns, else the pieces of wrapping it.
pub fn break_measured_line(line: &Vec<char>, widths: &Vec<usize>) -> (r: String)
    requires
        widths_fit(line@, widths@),
    ensures
        r@ == join_lines(break_line_w(width_of(line@, widths@), line@)),
{
    let mut r = String::new();
    break_line_into(&mut r, line, widths);
    r
}

/// The display width of each character of `line`.
pub fn line_widths(line: &Vec<char>) -> (r: Vec<usize>)
    ensures
        r@.len() == line@.len(),
        forall|j: int| 0 <= j < line@.len() ==> r@[j] == char_cols(#[trigger] line@[j]),
        forall|j: int| 0 <= j < line@.len() && printable_ascii(#[trigger] line@[j]) ==> r@[j] == 1,
        widths_fit(line@, r@),
{
    let mut r: Vec<usize> = Vec::new();
    let mut k: usize = 0;
    while k < line.len()
        invariant
            k <= line.len(),
            r@.len() == k,
            forall|j: int| 0 <= j < k ==> r@[j] == char_cols(#[trigger] line@[j]),
            forall|j: int| 0 <= j < k ==> #[trigger] r@[j] <= 3,
            forall|j: int| 0 <= j < k && printable_ascii(#[trigger] line@[j]) ==> r@[j] == 1,
        decreases line.len() - k,
    {
        let c = char_columns(line[k]);
        r.push(c);
        k += 1;
    }
    r
}

/// Insert line breaks into long non-macro text lines at CJK-friendly positions.
/// This is needed because `.na` disables groff's own line filling, so source
/// lines must keep a reasonable display width.
///
/// - Lines starting with `.` or `'` (roff control lines) and blank lines are kept.
/// - Other lines wider than `MAX_LINE_WIDTH` columns are broken after CJK
///   punctuation or spaces, or hard-broken when there is no such point.
#[verifier::spinoff_prover]
pub fn break_long_cjk_lines(roff: &str) -> (r: String)
    ensures
        r@ == break_spec(roff@),
        forall|i: int|
            0 <= i < lines_of(roff@).len() && !kept_verbatim(#[trigger] lines_of(roff@)[i])
                ==> pieces_within(break_line(lines_of(roff@)[i]), MAX_LINE_WIDTH + 6),
        (forall|j: int| 0 <= j < roff@.len() ==> #[trigger] roff@[j] == '\n' || printable_ascii(roff@[j]))
            ==> forall|k: int|
            0 <= k < lines_of(r@).len() && !kept_verbatim(#[trigger] lines_of(r@)[k])
                ==> lines_of(r@)[k].len() <= MAX_LINE_WIDTH,
        forall|k: int|
            0 <= k < lines_of(r@).len() && !kept_verbatim(#[trigger] lines_of(r@)[k]) ==> cols(
                lines_of(r@)[k],
            ) <= MAX_LINE_WIDTH + 6,
{
    let chars = chars_of(roff);
    let lines = split_lines(&chars);
    let ghost ls = views(lines@);
    let mut result = String::new();
    let ghost mut done: Seq<Seq<char>> = seq![];
    let mut i: usize = 0;
    assert(ls.skip(0) == ls);
    while i < lines.len()
        invariant
            i <= lines.len(),
            ls == views(lines@),
            ls == lines_of(roff@),
            break_lines(ls) == done + break_lines(ls.skip(i as int)),
            result@ == join_lines(done),
            forall|j: int|
                0 <= j < i && !kept_verbatim(#[trigger] ls[j]) ==> pieces_within(
                    break_line(ls[j]),
                    MAX_LINE_WIDTH + 6,
                ),
            forall|j: int|
                0 <= j < i && !kept_verbatim(#[trigger] ls[j]) ==> forall|m: int|
                    0 <= m < ls[j].len() && printable_ascii(#[trigger] ls[j][m]) ==> char_cols(ls[j][m])
                        == 1,
        decreases lines.len() - i,
    {
        let ghost cur = ls.skip(i as int);
        assert(cur[0] == lines@[i as int]@);
        assert(cur.drop_first() == ls.skip(i + 1));
        let widths = line_widths(&lines[i]);
        break_line_into(&mut result, &lines[i], &widths);
        proof {
            lemma_width_of_display(lines@[i as int]@, widths@);
            lemma_join_concat(done, break_line(lines@[i as int]@));
            assert(break_lines(cur) == break_line(cur[0]) + break_lines(cur.drop_first()));
            done = done + break_line(lines@[i as int]@);
        }
        i += 1;
    }
    assert(ls.skip(i as int) == Seq::<Seq<char>>::empty());
    assert(done + break_lines(ls.skip(i as int)) == done);
    proof {
        if forall|j: int| 0 <= j < roff@.len() ==> #[trigger] roff@[j] == '\n' || printable_ascii(roff@[j]) {
            crate::properties::lemma_lines_ascii(roff@);
            assert forall|k: int|
                0 <= k < ls.len() && !kept_verbatim(#[trigger] ls[k]) implies crate::properties::all_unit_ascii(
                ls[k],
            ) by {
                assert(crate::properties::ascii_line(ls[k]));
                assert forall|m: int| 0 <= m < ls[k].len() implies crate::properties::unit_ascii(
                    #[trigger] ls[k][m],
                ) by {
                    assert(printable_ascii(ls[k][m]));
                }
            }
            assert(result@ == break_spec(roff@));
            crate::properties::lemma_break_ascii_within_limit(roff@);
        }
        assert(result@ == break_spec(roff@));
        crate::properties::lemma_broken_text_lines(roff@);
    }
    result
}

// ---------------------------------------------------------------------------
// Server-sent events of the streaming chat API
// ---------------------------------------------------------------------------

/// The terminal event line `data: [DONE]`, as bytes.
pub open spec fn done_marker() -> Seq<u8> {
    seq![100u8, 97u8, 116u8, 97u8, 58u8, 32u8, 91u8, 68u8, 79u8, 78u8, 69u8, 93u8]
}

/// A space, tab or carriage return.
pub open spec fn blank_byte(b: u8) -> bool {
    b == 32u8 || b == 9u8 || b == 13u8
}

/// The bytes of `after` up to its first line feed are all blanks.
pub open spec fn rest_of_line_blank(after: Seq<u8>) -> bool {
    forall|j: int| 0 <= j < index_of(after, 10u8) ==> blank_byte(#[trigger] after[j])
}

/// A `data: [DONE]` event at `pos`: the marker starts a line there and is
/// followed by nothing but blanks up to the end of that line.
pub open spec fn done_event_at(body: Seq<u8>, pos: int) -> bool {
    &&& occurs_at(body, done_marker(), pos)
    &&& pos == 0 || body[pos - 1] == 10u8
    &&& rest_of_line_blank(body.skip(pos + 12))
}

/// `body` holds the terminal `data: [DONE]` event: some occurrence of the
/// marker starts a line and has only blanks after it on that line.
pub open spec fn sse_done_spec(body: Seq<u8>) -> bool {
    exists|pos: int| done_event_at(body, pos)
}

/// Whether a `data: [DONE]` event stands at `pos`.
fn done_event_at_exec(body: &[u8], done: &[u8; 12], pos: usize) -> (r: bool)
    requires
        done@ == done_marker(),
    ensures
        r == done_event_at(body@, pos as int),
{
    if !occurs_at_bytes(body, done, pos) {
        return false;
    }
    if pos != 0 && body[pos - 1] != 10u8 {
        return false;
    }
    let ghost after = body@.skip(pos + 12);
    let mut k = pos + 12;
    while k < body.len() && body[k] != 10u8
        invariant
            pos + 12 <= k <= body@.len(),
            after == body@.skip(pos + 12),
            forall|j: int| pos + 12 <= j < k ==> body@[j] != 10u8,
        decreases body.len() - k,
    {
        k += 1;
    }
    proof {
        assert forall|j: int| 0 <= j < k - (pos + 12) implies after[j] != 10u8 by {
            assert(after[j] == body@[pos + 12 + j]);
        }
        if k < body.len() {
            assert(after[k - (pos + 12)] == body@[k as int]);
        }
        lemma_index_of_is(after, 10u8, k - (pos + 12));
    }
    let mut m = pos + 12;
    while m < k
        invariant
            pos + 12 <= m <= k <= body@.len(),
            after == body@.skip(pos + 12),
            index_of(after, 10u8) == k - (pos + 12),
            forall|j: int| 0 <= j < m - (pos + 12) ==> blank_byte(#[trigger] after[j]),
        decreases k - m,
    {
        let b = body[m];
        assert(after[m - (pos + 12)] == b);
        if !(b == 32u8 || b == 9u8 || b == 13u8) {
            assert(!blank_byte(after[m - (pos + 12)]));
            return false;
        }
        m += 1;
    }
    true
}

/// Check whether the accumulated SSE body contains the terminal `data: [DONE]`
/// event at a line boundary, with nothing but whitespace before the line end
/// (so `data: [DONE]foo` is not mistaken for the terminal event).
pub fn sse_done_received(body: &[u8]) -> (r: bool)
    ensures
        r == sse_done_spec(body@),
{
    let done: [u8; 12] = [100u8, 97u8, 116u8, 97u8, 58u8, 32u8, 91u8, 68u8, 79u8, 78u8, 69u8, 93u8];
    assert(done@ == done_marker());
    let mut pos: usize = 0;
    while pos < body.len() && 12 <= body.len() - pos
        invariant
            pos <= body@.len(),
            done@ == done_marker(),
            forall|j: int| 0 <= j < pos ==> !done_event_at(body@, j),
        decreases body.len() - pos,
    {
        if done_event_at_exec(body, &done, pos) {
            return true;
        }
        pos += 1;
    }
    assert forall|j: int| !done_event_at(body@, j) by {
        if 0 <= j < pos {
        } else if j >= pos {
            assert(!occurs_at(body@, done_marker(), j));
        }
    }
    false
}

/// The event separator of a server-sent event stream.
pub open spec fn event_separator() -> Seq<char> {
    seq!['\n', '\n']
}

/// `str::split("\n\n")`: the text between separators, in order.
pub open spec fn events_of(s: Seq<char>) -> Seq<Seq<char>>
    decreases s.len(),
{
    match find(s, event_separator()) {
        Some(i) => {
            proof {
                lemma_find_from_none_or_some(s, event_separator(), 0);
            }
            seq![s.take(i)] + events_of(s.skip(i + 2))
        },
        None => seq![s],
    }
}

/// The payload of one event line: the text after `data:` (an optional space
/// after the colon), trimmed; nothing for `data: [DONE]`, for other lines and
/// for empty data.
pub open spec fn line_payload(line: Seq<char>) -> Option<Seq<char>> {
    let l = trim(line);
    let data = if l == seq!['d', 'a', 't', 'a', ':', ' ', '[', 'D', 'O', 'N', 'E', ']'] {
        None
    } else if starts_with(l, seq!['d', 'a', 't', 'a', ':', ' ']) {
        Some(trim(l.skip(6)))
    } else if starts_with(l, seq!['d', 'a', 't', 'a', ':']) {
        Some(trim(l.skip(5)))
    } else {
        None
    };
    match data {
        Some(d) => if d.len() > 0 {
            Some(d)
        } else {
            None
        },
        None => None,
    }
}

/// The payloads of a sequence of event lines.
pub open spec fn lines_payloads(ls: Seq<Seq<char>>) -> Seq<Seq<char>>
    decreases ls.len(),
{
    if ls.len() == 0 {
        seq![]
    } else {
        match line_payload(ls[0]) {
            Some(d) => seq![d] + lines_payloads(ls.drop_first()),
            None => lines_payloads(ls.drop_first()),
        }
    }
}

/// The payloads of a sequence of events (each event trimmed, then split into lines).
pub open spec fn events_payloads(evs: Seq<Seq<char>>) -> Seq<Seq<char>>
    decreases evs.len(),
{
    if evs.len() == 0 {
        seq![]
    } else {
        lines_payloads(lines_of(trim(evs[0]))) + events_payloads(evs.drop_first())
    }
}

/// The `data:` payloads of a server-sent event stream, in order.
pub open spec fn sse_payloads(body: Seq<char>) -> Seq<Seq<char>> {
    events_payloads(events_of(body))
}

/// The payload of one event line.
fn payload_of_line(line: &Vec<char>) -> (r: Option<String>)
    ensures
        match r {
            Some(d) => line_payload(line@) == Some(d@),
            None => line_payload(line@) is None,
        },
{
    let l = trim_vec(line);
    let start: usize;
    if eq_chars(&l, &['d', 'a', 't', 'a', ':', ' ', '[', 'D', 'O', 'N', 'E', ']']) {
        return None;
    } else if starts_with_chars(&l, &['d', 'a', 't', 'a', ':', ' ']) {
        start = 6;
    } else if starts_with_chars(&l, &['d', 'a', 't', 'a', ':']) {
        start = 5;
    } else {
        return None;
    }
    let (a, b) = trim_bounds(&l, start, l.len());
    assert(l@.subrange(start as int, l@.len() as int) == l@.skip(start as int));
    if a == b {
        return None;
    }
    Some(string_of(&subvec(&l, a, b)))
}

/// Appends the payloads of the lines of `event` (trimmed) to `out`.
fn push_event_payloads(out: &mut Vec<String>, event: &Vec<char>)
    ensures
        string_views(final(out)@) == string_views(old(out)@) + lines_payloads(lines_of(trim(event@))),
{
    let t = trim_vec(event);
    let lines = split_lines(&t);
    let ghost ls = views(lines@);
    let mut i: usize = 0;
    assert(ls.skip(0) == ls);
    while i < lines.len()
        invariant
            i <= lines.len(),
            ls == views(lines@),
            ls == lines_of(trim(event@)),
            string_views(old(out)@) + lines_payloads(ls) == string_views(out@) + lines_payloads(
                ls.skip(i as int),
            ),
        decreases lines.len() - i,
    {
        let ghost cur = ls.skip(i as int);
        assert(cur[0] == lines@[i as int]@);
        assert(cur.drop_first() == ls.skip(i + 1));
        let ghost before = out@;
        match payload_of_line(&lines[i]) {
            Some(d) => {
                out.push(d);
                assert(string_views(out@) == string_views(before).push(d@));
            },
            None => {},
        }
        i += 1;
    }
    assert(ls.skip(i as int) == Seq::<Seq<char>>::empty());
}

/// The `data:` payloads of a server-sent event stream, in order: the stream is
/// split into events at blank lines, each event trimmed and split into lines,
/// and every `data:` line (both `data: x` and `data:x`) except
/// `data: [DONE]` yields its trimmed, non-empty data.
pub fn sse_data_payloads(body: &str) -> (r: Vec<String>)
    ensures
        string_views(r@) == sse_payloads(body@),
{
    let v = chars_of(body);
    let sep = ['\n', '\n'];
    assert(sep@ == event_separator());
    let mut out: Vec<String> = Vec::new();
    let mut start: usize = 0;
    assert(v@.skip(0) == v@);
    loop
        invariant
            start <= v.len(),
            sep@ == event_separator(),
            sse_payloads(body@) == string_views(out@) + events_payloads(events_of(v@.skip(start as int))),
            v@ == body@,
        decreases v.len() - start,
    {
        let ghost t = v@.skip(start as int);
        match find_chars(&v, &sep, start) {
            Some(i) => {
                proof {
                    lemma_find_from_none_or_some(v@, sep@, start as int);
                    lemma_find_from_none_or_some(t, sep@, 0);
                    assert forall|j: int| 0 <= j < i - start implies !occurs_at(t, sep@, j) by {
                        assert(!occurs_at(v@, sep@, start + j));
                        if j + 2 <= t.len() {
                            assert(t.subrange(j, j + 2) == v@.subrange(start + j, start + j + 2));
                        }
                    }
                    assert(t.subrange(i - start, i - start + 2) == v@.subrange(i as int, i + 2));
                    lemma_find_from_is(t, sep@, 0, i - start);
                    assert(t.take(i - start) == v@.subrange(start as int, i as int));
                    assert(t.skip(i - start + 2) == v@.skip(i + 2));
                    assert(events_of(t) == seq![t.take(i - start)] + events_of(t.skip(i - start + 2)));
                    assert(events_of(t)[0] == t.take(i - start));
                    assert(events_of(t).drop_first() == events_of(v@.skip(i + 2)));
                }
                let event = subvec(&v, start, i);
                push_event_payloads(&mut out, &event);
                start = i + 2;
            },
            None => {
                proof {
                    lemma_find_from_none_or_some(v@, sep@, start as int);
                    assert forall|j: int| 0 <= j implies !occurs_at(t, sep@, j) by {
                        assert(!occurs_at(v@, sep@, start + j));
                        if 0 <= j && j + 2 <= t.len() {
                            assert(t.subrange(j, j + 2) == v@.subrange(start + j, start + j + 2));
                        }
                    }
                    lemma_find_from_none_or_some(t, sep@, 0);
                    if find(t, sep@) is Some {
                        assert(occurs_at(t, sep@, find(t, sep@)->0));
                    }
                    assert(events_of(t) == seq![t]);
                    assert(events_of(t).drop_first() == Seq::<Seq<char>>::empty());
                    assert(events_payloads(seq![t]) == lines_payloads(lines_of(trim(t)))
                        + events_payloads(Seq::<Seq<char>>::empty()));
                    assert(events_payloads(Seq::<Seq<char>>::empty()) == Seq::<Seq<char>>::empty());
                }
                let event = subvec(&v, start, v.len());
                assert(event@ == t);
                push_event_payloads(&mut out, &event);
                return out;
            },
        }
    }
}

/// What the model sent in one `data:` payload of the stream.
pub enum SsePayload {
    /// A completion chunk; holds the content of its first choice (empty when
    /// the chunk has no content or no choice).
    Content(String),
    /// An API error object; holds its JSON text.
    Failure(String),
    /// Anything else.
    Ignored,
}

/// The concatenated content of `ps` after `acc`, or the first error.
pub open spec fn collected(ps: Seq<SsePayload>, acc: Seq<char>) -> Result<Seq<char>, Seq<char>>
    decreases ps.len(),
{
    if ps.len() == 0 {
        Ok(acc)
    } else {
        match ps[0] {
            SsePayload::Content(c) => collected(ps.drop_first(), acc + c@),
            SsePayload::Failure(e) => Err("API streaming error: "@ + e@),
            SsePayload::Ignored => collected(ps.drop_first(), acc),
        }
    }
}

/// Concatenate the content of the chunks of a stream; an API error event
/// ends the stream with `API streaming error: <error>`.
pub fn collect_sse_content(payloads: &Vec<SsePayload>) -> (r: Result<String, String>)
    ensures
        match r {
            Ok(s) => collected(payloads@, seq![]) == Ok::<Seq<char>, Seq<char>>(s@),
            Err(e) => collected(payloads@, seq![]) == Err::<Seq<char>, Seq<char>>(e@),
        },
{
    let mut full = String::new();
    let mut i: usize = 0;
    assert(payloads@.skip(0) == payloads@);
    while i < payloads.len()
        invariant
            i <= payloads.len(),
            collected(payloads@, seq![]) == collected(payloads@.skip(i as int), full@),
        decreases payloads.len() - i,
    {
        let ghost cur = payloads@.skip(i as int);
        assert(cur[0] == payloads@[i as int]);
        assert(cur.drop_first() == payloads@.skip(i + 1));
        match &payloads[i] {
            SsePayload::Content(c) => {
                full.append(c.as_str());
            },
            SsePayload::Failure(e) => {
                let mut msg = String::from_str("API streaming error: ");
                msg.append(e.as_str());
                return Err(msg);
            },
            SsePayload::Ignored => {},
        }
        i += 1;
    }
    assert(payloads@.skip(i as int).len() == 0);
    Ok(full)
}

/// What `serde_json` finds under the key `error` of `data` read as any JSON
/// value: `None` when `data` is not JSON, `Some(None)` when the value has no
/// `error` member, else `Some(Some(t))` with `t` the member's compact JSON text.
pub uninterp spec fn json_error_member(data: Seq<char>) -> Option<Option<Seq<char>>>;

/// Parses `data` with `serde_json::from_str::<serde_json::Value>` and looks up
/// `error` with `Value::get`, rendering a found member with `to_string`.
/// Trusted: the result is the named one.
#[verifier::external_body]
fn error_member_of_json(data: &str) -> (r: Option<Option<String>>)
    ensures
        match r {
            None => json_error_member(data@) is None,
            Some(None) => json_error_member(data@) == Some(None::<Seq<char>>),
            Some(Some(t)) => json_error_member(data@) == Some(Some(t@)),
        },
{
    match serde_json::from_str::<serde_json::Value>(data) {
        Ok(value) => match value.get("error") {
            Some(e) => Some(Some(e.to_string())),
            None => Some(None),
        },
        Err(_) => None,
    }
}

/// The payload that an event's data stands for, given `chunk`, what reading it
/// as a completion chunk gave (`None`: not a chunk; `Some(None)`: a chunk
/// without choices; `Some(Some(c))`: the content of its first choice), and
/// `error`, what reading it as any JSON value found under `error` (see
/// `json_error_member`).  A chunk gives its content; otherwise an `error`
/// member makes a failure; anything else is ignored.
pub fn payload_of(chunk: Option<Option<String>>, error: Option<Option<String>>) -> (r: SsePayload)
    ensures
        match chunk {
            Some(Some(c)) => r matches SsePayload::Content(x) && x@ == c@,
            Some(None) => r is Ignored,
            None => match error {
                Some(Some(e)) => r matches SsePayload::Failure(x) && x@ == e@,
                _ => r is Ignored,
            },
        },
{
    match chunk {
        Some(Some(c)) => SsePayload::Content(c),
        Some(None) => SsePayload::Ignored,
        None => match error {
            Some(Some(e)) => SsePayload::Failure(e),
            _ => SsePayload::Ignored,
        },
    }
}

/// Classify the data of one event, given what reading it as a completion
/// chunk gave (see `payload_of`); only when it is no chunk is it read as any
/// JSON value and its `error` member looked up.
pub fn classify_payload(chunk: Option<Option<String>>, data: &str) -> (r: SsePayload)
    ensures
        match chunk {
            Some(Some(c)) => r matches SsePayload::Content(x) && x@ == c@,
            Some(None) => r is Ignored,
            None => match json_error_member(data@) {
                Some(Some(e)) => r matches SsePayload::Failure(x) && x@ == e,
                _ => r is Ignored,
            },
        },
{
    match chunk {
        Some(_) => payload_of(chunk, None),
        None => {
            let error = error_member_of_json(data);
            payload_of(None, error)
        },
    }
}

/// How reading a streamed response body goes on after a chunk arrived.
pub enum SseProgress {
    /// Keep reading.
    Continue,
    /// The terminal `data: [DONE]` event has arrived.
    Done,
    /// The body grew beyond the safety cap.
    Overrun,
}

/// The safety cap on a streamed response: 50 times the source size, at least 1 MB.
pub open spec fn read_limit_spec(source_len: nat) -> nat {
    if source_len * 50 >= 1_000_000 {
        source_len * 50
    } else {
        1_000_000
    }
}

/// The byte cap for a streamed response to a source of `source_len` bytes:
/// a translation of a man page is normally about the size of the source, so
/// anything far beyond that indicates a runaway model.
pub fn sse_read_limit(source_len: usize) -> (r: usize)
    requires
        source_len * 50 <= usize::MAX,
    ensures
        r == read_limit_spec(source_len as nat),
{
    let scaled = source_len * 50;
    if scaled >= 1_000_000 {
        scaled
    } else {
        1_000_000
    }
}

/// After a chunk was appended to `body`: stop at the terminal event, fail
/// beyond `max_bytes`, otherwise keep reading.
pub fn sse_body_progress(body: &[u8], max_bytes: usize) -> (r: SseProgress)
    ensures
        r is Done <==> sse_done_spec(body@),
        r is Overrun <==> !sse_done_spec(body@) && body@.len() > max_bytes,
{
    if sse_done_received(body) {
        SseProgress::Done
    } else if body.len() > max_bytes {
        SseProgress::Overrun
    } else {
        SseProgress::Continue
    }
}

/// The body made of the first `m` chunks of a response.
pub open spec fn body_after(chunks: Seq<Seq<u8>>, m: int) -> Seq<u8>
    decreases m,
{
    if m <= 0 || m > chunks.len() {
        seq![]
    } else {
        body_after(chunks, m - 1) + chunks[m - 1]
    }
}

/// Reading a streamed response whose body arrives as `chunks`, with `m` of
/// them read so far and the byte cap `cap`: after each chunk the step of
/// `sse_body_progress` stops at the terminal event (the body so far), fails
/// past the cap (`Err` of the number of chunks read), or reads on; the end of
/// the body gives the whole body.
pub open spec fn sse_read_from(chunks: Seq<Seq<u8>>, cap: nat, m: int) -> Result<Seq<u8>, nat>
    decreases chunks.len() - m,
{
    if m < 0 || m >= chunks.len() {
        Ok(body_after(chunks, chunks.len() as int))
    } else {
        let b = body_after(chunks, m + 1);
        if sse_done_spec(b) {
            Ok(b)
        } else if b.len() > cap {
            Err((m + 1) as nat)
        } else {
            sse_read_from(chunks, cap, m + 1)
        }
    }
}

/// Reading stops successfully after `k` chunks: `k` is the first count whose
/// body holds the terminal event (all of them when none does), and no earlier
/// body without it went past the cap.
pub open spec fn sse_read_ok_at(chunks: Seq<Seq<u8>>, cap: nat, k: int) -> bool {
    &&& 0 <= k <= chunks.len()
    &&& k == chunks.len() || sse_done_spec(body_after(chunks, k))
    &&& forall|j: int| 1 <= j < k ==> !sse_done_spec(#[trigger] body_after(chunks, j))
    &&& forall|j: int|
        1 <= j <= k && !sse_done_spec(#[trigger] body_after(chunks, j)) ==> body_after(chunks, j).len()
            <= cap
}

/// Reading fails after `m` chunks: the body then lacks the terminal event and
/// is past the cap, and every earlier body lacks the event and is within it.
pub open spec fn sse_read_fails_at(chunks: Seq<Seq<u8>>, cap: nat, m: int) -> bool {
    &&& 1 <= m <= chunks.len()
    &&& !sse_done_spec(body_after(chunks, m))
    &&& body_after(chunks, m).len() > cap
    &&& forall|j: int|
        1 <= j < m ==> !sse_done_spec(#[trigger] body_after(chunks, j)) && body_after(chunks, j).len()
            <= cap
}

pub proof fn lemma_sse_read_from(chunks: Seq<Seq<u8>>, cap: nat, m: int)
    requires
        0 <= m <= chunks.len(),
        forall|j: int|
            1 <= j <= m ==> !sse_done_spec(#[trigger] body_after(chunks, j)) && body_after(chunks, j).len()
                <= cap,
    ensures
        match sse_read_from(chunks, cap, m) {
            Ok(b) => exists|k: int| sse_read_ok_at(chunks, cap, k) && b == body_after(chunks, k),
            Err(f) => sse_read_fails_at(chunks, cap, f as int),
        },
    decreases chunks.len() - m,
{
    let n = chunks.len() as int;
    if m >= n {
        assert(sse_read_ok_at(chunks, cap, n));
    } else {
        let b = body_after(chunks, m + 1);
        if sse_done_spec(b) {
            assert(sse_read_ok_at(chunks, cap, m + 1));
        } else if b.len() > cap {
            assert(sse_read_fails_at(chunks, cap, m + 1));
        } else {
            lemma_sse_read_from(chunks, cap, m + 1);
        }
    }
}

/// Reading a streamed response chunk by chunk, with `sse_body_progress`
/// deciding after each one, gives the body up to the first chunk after which
/// it holds the terminal event (the whole body when it never does), unless
/// before that a body without the event went past the cap: then it fails
/// after the first such chunk.
pub proof fn law_sse_read(chunks: Seq<Seq<u8>>, cap: nat)
    ensures
        match sse_read_from(chunks, cap, 0) {
            Ok(b) => exists|k: int| sse_read_ok_at(chunks, cap, k) && b == body_after(chunks, k),
            Err(f) => sse_read_fails_at(chunks, cap, f as int),
        },
{
    lemma_sse_read_from(chunks, cap, 0);
}

// ---------------------------------------------------------------------------
// Translation requests and answers
// ---------------------------------------------------------------------------

/// Everything the chat-completions request of a translation carries, apart
/// from the fixed `temperature: 0` and `stream: true`.
pub struct ChatRequestPlan {
    /// `<api_url without trailing slashes>/chat/completions`.
    pub url: String,
    /// The `Authorization` header value.
    pub authorization: String,
    /// The model to use.
    pub model: String,
    /// The system message.
    pub system_prompt: String,
    /// The user message.
    pub user_content: String,
    /// The `thinking.type` value: `enabled` or `disabled`.
    pub thinking_kind: String,
    /// The reasoning effort, sent only with thinking enabled.
    pub reasoning_effort: Option<String>,
}

/// The user message that precedes the man page source.
pub open spec fn user_message_prefix() -> Seq<char> {
    "Here is the original English man page content:\n\n"@
}

/// The request for translating `content` into `locale`.
pub fn plan_chat_request(content: &str, locale: &str, config: &Config, api_url: &str) -> (r:
    ChatRequestPlan)
    ensures
        r.url@ == trim_end_char(api_url@, '/') + "/chat/completions"@,
        r.authorization@ == "Bearer "@ + config.api_key@,
        r.model@ == config.active_model@,
        r.system_prompt@ == PROMPT_BEFORE_LOCALE@ + locale@ + PROMPT_AFTER_LOCALE@,
        r.user_content@ == user_message_prefix() + content@,
        r.thinking_kind@ == (if config.thinking_on() {
            "enabled"@
        } else {
            "disabled"@
        }),
        r.reasoning_effort matches Some(e) ==> config.thinking_on() && e@
            == config.reasoning_effort@,
        r.reasoning_effort is None ==> !config.thinking_on(),
{
    let thinking_enabled = config.thinking_enabled();
    let mut url = trim_end_char_string(api_url, '/');
    url.append("/chat/completions");
    let mut user_content = String::from_str("Here is the original English man page content:\n\n");
    user_content.append(content);
    ChatRequestPlan {
        url,
        authorization: bearer_authorization(config.api_key.as_str()),
        model: config.active_model.clone(),
        system_prompt: build_system_prompt(locale),
        user_content,
        thinking_kind: if thinking_enabled {
            String::from_str("enabled")
        } else {
            String::from_str("disabled")
        },
        reasoning_effort: if thinking_enabled {
            Some(config.reasoning_effort.clone())
        } else {
            None
        },
    }
}

/// The post-processing of a model's answer: code fences stripped, blank runs
/// collapsed, `.na` inserted and long lines broken.
pub open spec fn finish_translation_spec(raw: Seq<char>) -> Seq<char> {
    break_spec(insert_no_adjust_spec(normalize_spec(strip_code_blocks_spec(raw))))
}

/// Turn the model's answer into the man page to cache: strip Markdown code
/// fences, collapse blank runs, insert `.na` and break long lines.
pub fn finish_translation(raw: &str) -> (r: String)
    ensures
        r@ == finish_translation_spec(raw@),
        forall|k: int|
            0 <= k < lines_of(r@).len() && !kept_verbatim(#[trigger] lines_of(r@)[k]) ==> cols(
                lines_of(r@)[k],
            ) <= MAX_LINE_WIDTH + 6,
{
    let stripped = strip_markdown_code_blocks(raw);
    let normalized = normalize_text_spaces(stripped.as_str());
    let with_na = insert_no_adjust(normalized.as_str());
    break_long_cjk_lines(with_na.as_str())
}

/// The man page made from a non-streamed (JSON) answer, given the content of its
/// first choice (`None` when it had no choice).
pub fn finish_json_answer(first_choice: Option<&str>) -> (r: Result<String, String>)
    ensures
        match first_choice {
            Some(c) => r matches Ok(t) && t@ == finish_translation_spec(c@),
            None => r matches Err(e) && e@ == "API response contained no choices"@,
        },
{
    match first_choice {
        Some(c) => Ok(finish_translation(c)),
        None => Err(String::from_str("API response contained no choices")),
    }
}

/// The man page made from the concatenated content of a streamed answer.
pub fn finish_stream_answer(translated: &str) -> (r: Result<String, String>)
    ensures
        translated@.len() == 0 ==> (r matches Err(e) && e@
            == "API streaming response contained no content"@),
        translated@.len() > 0 ==> (r matches Ok(t) && t@ == finish_translation_spec(translated@)),
{
    let t = chars_of(translated);
    if t.len() == 0 {
        return Err(String::from_str("API streaming response contained no content"));
    }
    Ok(finish_translation(translated))
}

/// The fix-up applied to a cached translation: collapse blank runs, insert
/// `.na` and break long lines.
pub open spec fn cache_fixup_spec(content: Seq<char>) -> Seq<char> {
    break_spec(insert_no_adjust_spec(normalize_spec(content)))
}

/// Check a cached translation: ensure it has `.na` (insert if missing) and
/// that long lines are properly broken.  Returns the corrected text when it
/// differs from `content` (the text to write back), `None` when the cache is
/// already in shape.
pub fn ensure_cached_file_has_no_adjust(content: &str) -> (r: Option<String>)
    ensures
        match r {
            Some(fixed) => fixed@ == cache_fixup_spec(content@) && fixed@ != content@,
            None => cache_fixup_spec(content@) == content@,
        },
{
    let normalized = normalize_text_spaces(content);
    let with_na = insert_no_adjust(normalized.as_str());
    let fixed = break_long_cjk_lines(with_na.as_str());
    let original = String::from_str(content);
    if fixed != original {
        Some(fixed)
    } else {
        None
    }
}

} // verus!
