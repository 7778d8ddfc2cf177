use vstd::prelude::*;

use crate::locale::{bypass_arg, english_locale};
use crate::properties::{cut_well, law_insert_guards_paragraphs, lemma_broken_text_cut_well};
use crate::text::trim;
use crate::translator::{
    break_point, kept_piece, last_break, lemma_last_break, na_line, na_lines, paragraph_macro,
    tag_next_line_macro, th_line, wrap_step, MAX_LINE_WIDTH, cols, break_spec, char_cols_fn, finish_translation_spec,
    insert_no_adjust_spec, kept_verbatim, normalize_spec, strip_code_blocks_spec,
};
use crate::text::lines_of;

verus! {

// ---------------------------------------------------------------------------
// roff lines, by name
// ---------------------------------------------------------------------------

/// `t` invokes the macro `m`: it is `m` alone, or `m` followed by a space or
/// a tab and the arguments.
pub open spec fn invokes(t: Seq<char>, m: Seq<char>) -> bool {
    &&& m.len() <= t.len()
    &&& t.subrange(0, m.len() as int) == m
    &&& t.len() == m.len() || t[m.len() as int] == ' ' || t[m.len() as int] == '\t'
}

/// `t` invokes one of the nine paragraph macros of the man package:
/// `.P .PP .LP .TP .IP .HP .RS .SH .SS`.
pub open spec fn invokes_paragraph_macro(t: Seq<char>) -> bool {
    ||| invokes(t, seq!['.', 'P'])
    ||| invokes(t, seq!['.', 'P', 'P'])
    ||| invokes(t, seq!['.', 'L', 'P'])
    ||| invokes(t, seq!['.', 'T', 'P'])
    ||| invokes(t, seq!['.', 'I', 'P'])
    ||| invokes(t, seq!['.', 'H', 'P'])
    ||| invokes(t, seq!['.', 'R', 'S'])
    ||| invokes(t, seq!['.', 'S', 'H'])
    ||| invokes(t, seq!['.', 'S', 'S'])
}

/// `t` is `.TP` or `.HP` (with or without arguments) or a bare `.IP`: macros
/// whose tag is the next input line.
pub open spec fn invokes_tag_macro(t: Seq<char>) -> bool {
    ||| invokes(t, seq!['.', 'T', 'P'])
    ||| invokes(t, seq!['.', 'H', 'P'])
    ||| t == seq!['.', 'I', 'P']
}

/// `t` is the directive `.na` or `.ad l`.
pub open spec fn is_no_adjust_text(t: Seq<char>) -> bool {
    t == seq!['.', 'n', 'a'] || t == seq!['.', 'a', 'd', ' ', 'l']
}

/// A line is a paragraph macro exactly when, trimmed, it invokes one of the
/// nine paragraph macros `.P .PP .LP .TP .IP .HP .RS .SH .SS`; it takes its
/// tag from the next line exactly for `.TP`, `.HP` and a bare `.IP`; it is a
/// no-adjust line exactly when, trimmed, it is `.na` or `.ad l`; it is a
/// header line exactly when, trimmed, it invokes `.TH`.
pub proof fn law_line_kinds_by_name(l: Seq<char>)
    ensures
        paragraph_macro(l) <==> invokes_paragraph_macro(trim(l)),
        tag_next_line_macro(l) <==> invokes_tag_macro(trim(l)),
        na_line(l) <==> is_no_adjust_text(trim(l)),
        th_line(l) <==> invokes(trim(l), seq!['.', 'T', 'H']),
{
    reveal(th_line);
    reveal(paragraph_macro);
    reveal(tag_next_line_macro);
    reveal(na_line);
    let t = trim(l);
    assert forall|m: Seq<char>| m.len() <= t.len() implies (#[trigger] t.subrange(0, m.len() as int))
        == t.take(m.len() as int) by {}
    assert forall|m: Seq<char>|
        #[trigger] invokes(t, m) <==> crate::translator::macro_with_boundary(t, m) by {
        if m.len() <= t.len() {
            assert(t.subrange(0, m.len() as int) == t.take(m.len() as int));
        }
        if t == m {
            assert(t.subrange(0, m.len() as int) =~= m);
        }
        if invokes(t, m) && t.len() == m.len() {
            assert(t =~= m);
        }
    }
}

/// After no-adjust insertion every line that invokes a paragraph macro is
/// followed by `.na` or `.ad l`; for `.TP`, `.HP` and a bare `.IP` it may
/// instead come after the tag line that follows.  So a `.LP` line followed by
/// text gets a `.na` line right after it.
pub proof fn law_na_after_named_paragraph_macros(ls: Seq<Seq<char>>, th_seen: bool)
    ensures
        forall|k: int|
            0 <= k < na_lines(ls, th_seen).len() && invokes_paragraph_macro(
                trim(#[trigger] na_lines(ls, th_seen)[k]),
            ) ==> (k + 1 < na_lines(ls, th_seen).len() && is_no_adjust_text(
                trim(na_lines(ls, th_seen)[k + 1]),
            )) || (invokes_tag_macro(trim(na_lines(ls, th_seen)[k])) && k + 2 < na_lines(
                ls,
                th_seen,
            ).len() && is_no_adjust_text(trim(na_lines(ls, th_seen)[k + 2]))),
{
    let o = na_lines(ls, th_seen);
    law_insert_guards_paragraphs(ls, th_seen);
    assert forall|k: int|
        0 <= k < o.len() && invokes_paragraph_macro(trim(#[trigger] o[k])) implies (k + 1 < o.len()
            && is_no_adjust_text(trim(o[k + 1]))) || (invokes_tag_macro(trim(o[k])) && k + 2
            < o.len() && is_no_adjust_text(trim(o[k + 2]))) by {
        law_line_kinds_by_name(o[k]);
        assert(paragraph_macro(o[k]));
        if k + 1 < o.len() {
            law_line_kinds_by_name(o[k + 1]);
        }
        if k + 2 < o.len() {
            law_line_kinds_by_name(o[k + 2]);
        }
    }
}

// ---------------------------------------------------------------------------
// Break points, by name
// ---------------------------------------------------------------------------

/// The characters after which a long line may be broken: a space and the CJK
/// punctuation 。，、；：）〉》」』】！？．％.
pub open spec fn documented_break_mark(c: char) -> bool {
    ||| c == ' '
    ||| c == '。'
    ||| c == '，'
    ||| c == '、'
    ||| c == '；'
    ||| c == '：'
    ||| c == '）'
    ||| c == '〉'
    ||| c == '》'
    ||| c == '」'
    ||| c == '』'
    ||| c == '】'
    ||| c == '！'
    ||| c == '？'
    ||| c == '．'
    ||| c == '％'
}

/// The break points are exactly the space and the documented CJK punctuation.
pub proof fn law_break_points_by_name(c: char)
    ensures
        break_point(c) <==> documented_break_mark(c),
{
}

/// When a break mark is the character that takes the pending text past the
/// limit, the text is cut right after that mark: the whole text up to and
/// including it is emitted (without trailing blanks) and nothing is left
/// pending, so no line produced by breaking starts with that mark.
pub proof fn law_cut_right_after_mark(out: Seq<char>, ch: char)
    requires
        documented_break_mark(ch),
        cols(out.push(ch)) > MAX_LINE_WIDTH,
    ensures
        wrap_step(out, ch) == (kept_piece(out.push(ch)), Seq::<char>::empty()),
        ch != ' ' ==> kept_piece(out.push(ch)) == seq![out.push(ch)],
{
    let o = out.push(ch);
    assert(o.last() == ch);
    assert(last_break(o) == o.len());
    assert(o.skip(o.len() as int) =~= Seq::<char>::empty());
    assert(o.take(o.len() as int) =~= o);
    if ch != ' ' {
        assert(!crate::text::is_ws(ch));
        assert(crate::text::ws_suffix_len(o) == 0);
        assert(crate::text::trim_end(o) =~= o);
    }
}

// ---------------------------------------------------------------------------
// Locales and arguments, by name
// ---------------------------------------------------------------------------

/// A character lowers to the ASCII letter `t` (not `k`) exactly when it is
/// `t` or its capital `u`.
pub proof fn lemma_lowers_to_letter(c: char, t: char, u: char)
    requires
        'a' <= t <= 'z',
        t != 'k',
        (u as u32) + 32 == (t as u32),
    ensures
        crate::text::lowers_to(c, t) <==> (c == t || c == u),
{
    if (c as u32) + 32 == (t as u32) {
        assert(c as u32 == u as u32);
        assert(c == u);
    }
}

/// An English locale is exactly `C` or `POSIX` in any letter case, or a name
/// whose first two characters are `e`/`E` and `n`/`N`; so `es_ES.UTF-8` or
/// `de_DE` is not English.
pub proof fn law_english_locale_by_name(l: Seq<char>)
    ensures
        english_locale(l) <==> {
            ||| (l.len() == 1 && (l[0] == 'c' || l[0] == 'C'))
            ||| (l.len() == 5 && (l[0] == 'p' || l[0] == 'P') && (l[1] == 'o' || l[1] == 'O') && (
            l[2] == 's' || l[2] == 'S') && (l[3] == 'i' || l[3] == 'I') && (l[4] == 'x' || l[4]
                == 'X'))
            ||| (l.len() >= 2 && (l[0] == 'e' || l[0] == 'E') && (l[1] == 'n' || l[1] == 'N'))
        },
{
    if l.len() >= 1 {
        lemma_lowers_to_letter(l[0], 'c', 'C');
        lemma_lowers_to_letter(l[0], 'p', 'P');
        lemma_lowers_to_letter(l[0], 'e', 'E');
    }
    if l.len() >= 2 {
        lemma_lowers_to_letter(l[1], 'o', 'O');
        lemma_lowers_to_letter(l[1], 'n', 'N');
    }
    if l.len() >= 5 {
        lemma_lowers_to_letter(l[2], 's', 'S');
        lemma_lowers_to_letter(l[3], 'i', 'I');
        lemma_lowers_to_letter(l[4], 'x', 'X');
    }
    if l.len() == 1 {
        assert(crate::text::lowercase_eq(l, seq!['c']) <==> crate::text::lowers_to(l[0], 'c'));
    }
    if l.len() == 5 {
        let t = seq!['p', 'o', 's', 'i', 'x'];
        assert(crate::text::lowercase_eq(l, t) <==> (crate::text::lowers_to(l[0], t[0])
            && crate::text::lowers_to(l[1], t[1]) && crate::text::lowers_to(l[2], t[2])
            && crate::text::lowers_to(l[3], t[3]) && crate::text::lowers_to(l[4], t[4])));
    }
}

/// A short option letter that asks `man` for something other than a page:
/// `h V k f K l`.
pub open spec fn bypass_letter(c: char) -> bool {
    c == 'h' || c == 'V' || c == 'k' || c == 'f' || c == 'K' || c == 'l'
}

/// One of the long options `--help --version --apropos --whatis
/// --global-apropos --local-file`.
pub open spec fn bypass_long_option(a: Seq<char>) -> bool {
    ||| a == seq!['-', '-', 'h', 'e', 'l', 'p']
    ||| a == seq!['-', '-', 'v', 'e', 'r', 's', 'i', 'o', 'n']
    ||| a == seq!['-', '-', 'a', 'p', 'r', 'o', 'p', 'o', 's']
    ||| a == seq!['-', '-', 'w', 'h', 'a', 't', 'i', 's']
    ||| a == seq!['-', '-', 'g', 'l', 'o', 'b', 'a', 'l', '-', 'a', 'p', 'r', 'o', 'p', 'o', 's']
    ||| a == seq!['-', '-', 'l', 'o', 'c', 'a', 'l', '-', 'f', 'i', 'l', 'e']
}

/// An argument bypasses translation only if it is one of the long options
/// `--help --version --apropos --whatis --global-apropos --local-file` or a
/// short option word holding one of the letters `h V k f K l`; so `-a`, `-w`
/// or a page name never does.  Conversely each of those long options, each of
/// `-h -V -k -f -K -l`, and any cluster made only of those letters bypasses.
pub proof fn law_bypass_by_name(a: Seq<char>)
    ensures
        bypass_arg(a) ==> bypass_long_option(a) || (a.len() >= 2 && a[0] == '-' && a[1] != '-'
            && exists|j: int| 1 <= j < a.len() && bypass_letter(#[trigger] a[j])),
        bypass_long_option(a) ==> bypass_arg(a),
        (a.len() >= 2 && a[0] == '-' && forall|j: int| 1 <= j < a.len() ==> bypass_letter(#[trigger] a[j]))
            ==> bypass_arg(a),
{
    if bypass_arg(a) && !bypass_long_option(a) {
        if crate::locale::bypass_option(a) {
            assert(bypass_letter(a[1]));
        }
    }
    if a.len() >= 2 && a[0] == '-' && forall|j: int| 1 <= j < a.len() ==> bypass_letter(#[trigger] a[j]) {
        assert(bypass_letter(a[1]));
        assert(!crate::cli::short_value_letter(a[1]));
        assert(crate::locale::bypass_cluster(a));
    }
}

/// Breaking leaves no line that should have been cut: in the broken text,
/// every line other than a control or blank line that holds a break mark
/// (a space or documented CJK punctuation) before its last character fits,
/// without that last character, in `MAX_LINE_WIDTH` columns.  (The last
/// character may reach past the limit: the line is cut right after it.)
pub proof fn law_broken_lines_cut_at_marks(roff: Seq<char>)
    ensures
        forall|k: int, j: int|
            0 <= k < lines_of(break_spec(roff)).len() && !kept_verbatim(
                #[trigger] lines_of(break_spec(roff))[k],
            ) && 0 <= j < lines_of(break_spec(roff))[k].len() - 1 && documented_break_mark(
                #[trigger] lines_of(break_spec(roff))[k][j],
            ) ==> cols(lines_of(break_spec(roff))[k].drop_last()) <= MAX_LINE_WIDTH,
{
    lemma_broken_text_cut_well(roff);
    let ls = lines_of(break_spec(roff));
    assert forall|k: int, j: int|
        0 <= k < ls.len() && !kept_verbatim(#[trigger] ls[k]) && 0 <= j < ls[k].len() - 1
            && documented_break_mark(#[trigger] ls[k][j]) implies cols(ls[k].drop_last())
        <= MAX_LINE_WIDTH by {
        law_break_points_by_name(ls[k][j]);
        assert(break_point(ls[k][j]));
        assert(cut_well(char_cols_fn(), ls[k]));
    }
}

/// The finished translation is line-broken: every line of it other than a
/// control or blank line that holds a break mark before its last character
/// fits, without that last character, in `MAX_LINE_WIDTH` columns.
pub proof fn law_finished_translation_cut_at_marks(raw: Seq<char>)
    ensures
        forall|k: int, j: int|
            0 <= k < lines_of(finish_translation_spec(raw)).len() && !kept_verbatim(
                #[trigger] lines_of(finish_translation_spec(raw))[k],
            ) && 0 <= j < lines_of(finish_translation_spec(raw))[k].len() - 1 && documented_break_mark(
                #[trigger] lines_of(finish_translation_spec(raw))[k][j],
            ) ==> cols(lines_of(finish_translation_spec(raw))[k].drop_last()) <= MAX_LINE_WIDTH,
{
    let y = insert_no_adjust_spec(normalize_spec(strip_code_blocks_spec(raw)));
    law_broken_lines_cut_at_marks(y);
}

/// The short options of `man` that take a value are exactly
/// `-C -E -L -M -P -R -S -T -e -m -p -r`: so in `-P less` the word `less` is
/// the pager, while `-a`, `-w`, `-h` take none.
pub proof fn law_value_letters_by_name(c: char)
    ensures
        crate::cli::short_value_letter(c) <==> {
            ||| c == 'C' || c == 'E' || c == 'L' || c == 'M' || c == 'P' || c == 'R'
            ||| c == 'S' || c == 'T' || c == 'e' || c == 'm' || c == 'p' || c == 'r'
        },
{
}

/// The terminal event of a stream is the text `data: [DONE]`.
pub proof fn law_done_marker_by_name()
    ensures
        crate::translator::done_marker() == seq![
            'd' as u8, 'a' as u8, 't' as u8, 'a' as u8, ':' as u8, ' ' as u8, '[' as u8,
            'D' as u8, 'O' as u8, 'N' as u8, 'E' as u8, ']' as u8,
        ],
{
    assert(crate::translator::done_marker() =~= seq![
        'd' as u8, 'a' as u8, 't' as u8, 'a' as u8, ':' as u8, ' ' as u8, '[' as u8,
        'D' as u8, 'O' as u8, 'N' as u8, 'E' as u8, ']' as u8,
    ]);
}

} // verus!
