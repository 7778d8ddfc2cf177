use vstd::prelude::*;

use crate::translator::{
    leading_na_count, na_directive, na_line, na_lines, na_unless_present, paragraph_macro,
    tag_next_line_macro, th_line,
};
use crate::text::{
    index_of, join_lines, lemma_index_of_bound, lemma_index_of_is, lemma_join_concat, lines_of, strip_cr, trim,
};
use crate::translator::{
    break_line, break_lines, break_spec, kept_piece, wrap_run, wrap_step, collapse_blank_runs, control_or_blank, insert_no_adjust_spec, normalize_piece, normalize_spec,
};
use crate::text::{
    is_ws, lemma_ws_prefix_len_bound, lemma_ws_prefix_len_is, lemma_ws_suffix_len_bound,
    lemma_ws_suffix_len_is, trim_end, trim_start, ws_prefix_len, ws_suffix_len,
};
use crate::translator::lemma_leading_na_count_is;
use crate::translator::{
    char_cols, char_cols_fn, cols, kept_verbatim, last_break, lemma_last_break, pieces_within,
    printable_ascii, wrap_run_w, wrap_step_w, cols_w, break_point, MAX_LINE_WIDTH,
};

verus! {

/// The lines of `ls` that are not no-adjust directives.
pub open spec fn without_na(ls: Seq<Seq<char>>) -> Seq<Seq<char>>
    decreases ls.len(),
{
    if ls.len() == 0 {
        seq![]
    } else if na_line(ls[0]) {
        without_na(ls.drop_first())
    } else {
        seq![ls[0]] + without_na(ls.drop_first())
    }
}

pub proof fn lemma_without_na_concat(a: Seq<Seq<char>>, b: Seq<Seq<char>>)
    ensures
        without_na(a + b) == without_na(a) + without_na(b),
    decreases a.len(),
{
    if a.len() == 0 {
        assert(a + b == b);
    } else {
        lemma_without_na_concat(a.drop_first(), b);
        assert((a + b).drop_first() == a.drop_first() + b);
        assert((a + b)[0] == a[0]);
    }
}

pub proof fn lemma_without_na_skip(ls: Seq<Seq<char>>, k: int)
    requires
        0 <= k <= ls.len(),
        forall|j: int| 0 <= j < k ==> na_line(#[trigger] ls[j]),
    ensures
        without_na(ls) == without_na(ls.skip(k)),
    decreases k,
{
    if k > 0 {
        assert(na_line(ls[0]));
        assert forall|j: int| 0 <= j < k - 1 implies na_line(#[trigger] ls.drop_first()[j]) by {
            assert(ls.drop_first()[j] == ls[j + 1]);
        }
        lemma_without_na_skip(ls.drop_first(), k - 1);
        assert(ls.drop_first().skip(k - 1) == ls.skip(k));
    } else {
        assert(ls.skip(0) == ls);
    }
}

pub proof fn lemma_without_na_nup(rest: Seq<Seq<char>>)
    ensures
        without_na(na_unless_present(rest)) == Seq::<Seq<char>>::empty(),
{
    lemma_line_kinds(na_directive());
    let nup = na_unless_present(rest);
    if rest.len() == 0 || !na_line(rest[0]) {
        assert(nup == seq![na_directive()]);
        assert(nup[0] == na_directive());
        assert(nup.drop_first() == Seq::<Seq<char>>::empty());
        assert(without_na(nup) == without_na(nup.drop_first()));
    } else {
        assert(nup.len() == 0);
    }
}

pub proof fn lemma_leading_na(ls: Seq<Seq<char>>)
    ensures
        leading_na_count(ls) <= ls.len(),
        forall|j: int| 0 <= j < leading_na_count(ls) ==> na_line(#[trigger] ls[j]),
        leading_na_count(ls) < ls.len() ==> !na_line(ls[leading_na_count(ls) as int]),
    decreases ls.len(),
{
    if ls.len() > 0 && na_line(ls[0]) {
        lemma_leading_na(ls.drop_first());
        assert forall|j: int| 0 <= j < leading_na_count(ls) implies na_line(#[trigger] ls[j]) by {
            if j > 0 {
                assert(ls[j] == ls.drop_first()[j - 1]);
            }
        }
    }
}

/// The inserted directive is a no-adjust line; header and paragraph macros are not.
pub proof fn lemma_line_kinds(l: Seq<char>)
    ensures
        na_line(na_directive()),
        th_line(l) ==> !na_line(l),
        paragraph_macro(l) ==> !na_line(l),
        th_line(l) ==> !paragraph_macro(l),
{
    reveal(na_line);
    reveal(th_line);
    reveal(paragraph_macro);
    let d = na_directive();
    assert(crate::text::ws_prefix_len(d) == 0);
    assert(crate::text::ws_suffix_len(d) == 0);
    assert(d.skip(0) == d);
    assert(d.take(d.len() as int) == d);
    let t = trim(l);
    if t.len() >= 2 {
        assert(t.take(2)[1] == t[1]);
    }
    if t.len() >= 3 {
        assert(t.take(3)[1] == t[1]);
        assert(t.take(3)[2] == t[2]);
    }
}

/// Inserting no-adjust directives keeps every other line: with the
/// no-adjust lines removed, the output lines are the input lines.
pub proof fn law_insert_keeps_other_lines(ls: Seq<Seq<char>>, th_seen: bool)
    ensures
        without_na(na_lines(ls, th_seen)) == without_na(ls),
    decreases ls.len(),
{
    reveal(na_lines);
    if ls.len() == 0 {
        return;
    }
    let line = ls[0];
    let rest = ls.drop_first();
    lemma_line_kinds(line);
    let nup = na_unless_present(rest);
    lemma_without_na_nup(rest);
    assert(ls == seq![line] + rest);
    lemma_without_na_concat(seq![line], rest);
    assert(seq![line][0] == line);
    assert((seq![line]).drop_first() == Seq::<Seq<char>>::empty());
    assert(without_na(Seq::<Seq<char>>::empty()) == Seq::<Seq<char>>::empty());
    assert(without_na(seq![line]) == (if na_line(line) { Seq::<Seq<char>>::empty() } else { seq![line] }));
    if !th_seen && th_line(line) {
        law_insert_keeps_other_lines(rest, true);
        lemma_without_na_concat(seq![line] + nup, na_lines(rest, true));
        lemma_without_na_concat(seq![line], nup);
        assert((seq![line]).drop_first() == Seq::<Seq<char>>::empty());
        assert(na_lines(ls, th_seen) == seq![line] + nup + na_lines(rest, true));
    } else if paragraph_macro(line) {
        let k = leading_na_count(rest) as int;
        if tag_next_line_macro(line) && k < rest.len() {
            let after = rest.skip(k + 1);
            let nup2 = na_unless_present(after);
            lemma_without_na_nup(after);
            law_insert_keeps_other_lines(after, th_seen);
            lemma_leading_na(rest);
            lemma_without_na_skip(rest, k);
            assert(rest.skip(k)[0] == rest[k]);
            assert(rest.skip(k).drop_first() == after);
            lemma_without_na_concat(seq![line, rest[k]] + nup2, na_lines(after, th_seen));
            lemma_without_na_concat(seq![line, rest[k]], nup2);
            assert(seq![line, rest[k]].drop_first() == seq![rest[k]]);
            assert(seq![rest[k]].drop_first() == Seq::<Seq<char>>::empty());
            assert(without_na(seq![rest[k]]) == seq![rest[k]]);
            assert(without_na(seq![line, rest[k]]) == seq![line, rest[k]]);
            assert(without_na(rest.skip(k)) == seq![rest[k]] + without_na(after));
            assert(without_na(na_lines(ls, th_seen)) == seq![line, rest[k]] + without_na(after));
            assert(without_na(ls) == seq![line] + (seq![rest[k]] + without_na(after)));
        } else {
            law_insert_keeps_other_lines(rest, th_seen);
            lemma_without_na_concat(seq![line] + nup, na_lines(rest, th_seen));
            lemma_without_na_concat(seq![line], nup);
            assert((seq![line]).drop_first() == Seq::<Seq<char>>::empty());
        }
    } else {
        law_insert_keeps_other_lines(rest, th_seen);
        lemma_without_na_concat(seq![line], na_lines(rest, th_seen));
        assert((seq![line]).drop_first() == Seq::<Seq<char>>::empty());
    }
}

/// `na_lines` starts with the first input line.
pub proof fn lemma_na_lines_first(ls: Seq<Seq<char>>, th_seen: bool)
    ensures
        ls.len() == 0 ==> na_lines(ls, th_seen) == Seq::<Seq<char>>::empty(),
        ls.len() > 0 ==> na_lines(ls, th_seen).len() > 0 && na_lines(ls, th_seen)[0] == ls[0],
{
    reveal(na_lines);
}

/// Lines that are all no-adjust directives pass unchanged.
pub proof fn lemma_na_lines_all_na(ls: Seq<Seq<char>>, th_seen: bool)
    requires
        forall|j: int| 0 <= j < ls.len() ==> na_line(#[trigger] ls[j]),
    ensures
        na_lines(ls, th_seen) == ls,
    decreases ls.len(),
{
    reveal(na_lines);
    if ls.len() > 0 {
        lemma_line_kinds(ls[0]);
        assert forall|j: int| 0 <= j < ls.drop_first().len() implies na_line(
            #[trigger] ls.drop_first()[j],
        ) by {
            assert(ls.drop_first()[j] == ls[j + 1]);
        }
        lemma_na_lines_all_na(ls.drop_first(), th_seen);
        assert(ls == seq![ls[0]] + ls.drop_first());
    }
}

/// After a segment, the directive (if any) and the processed rest are left as they are.
pub proof fn lemma_na_tail_stable(r: Seq<Seq<char>>, th_seen: bool)
    requires
        na_lines(na_lines(r, th_seen), th_seen) == na_lines(r, th_seen),
    ensures
        na_lines(na_unless_present(r) + na_lines(r, th_seen), th_seen) == na_unless_present(r)
            + na_lines(r, th_seen),
        na_unless_present(na_unless_present(r) + na_lines(r, th_seen)) == Seq::<Seq<char>>::empty(),
{
    let t = na_lines(r, th_seen);
    let nup = na_unless_present(r);
    let d = na_directive();
    lemma_line_kinds(d);
    lemma_na_lines_first(r, th_seen);
    if r.len() == 0 || !na_line(r[0]) {
        assert(nup == seq![d]);
        let x = seq![d] + t;
        assert(x[0] == d);
        assert(x.drop_first() == t);
        assert(na_lines(x, th_seen) == seq![d] + na_lines(t, th_seen)) by {
            reveal(na_lines);
        }
    } else {
        assert(nup == Seq::<Seq<char>>::empty());
        assert(nup + t == t);
    }
}

/// Inserting no-adjust directives a second time changes nothing.
#[verifier::spinoff_prover]
#[verifier::rlimit(50)]
pub proof fn law_insert_lines_idempotent(ls: Seq<Seq<char>>, th_seen: bool)
    ensures
        na_lines(na_lines(ls, th_seen), th_seen) == na_lines(ls, th_seen),
    decreases ls.len(),
{
    if ls.len() == 0 {
        lemma_na_lines_first(ls, th_seen);
        lemma_na_lines_first(Seq::<Seq<char>>::empty(), th_seen);
        return;
    }
    let line = ls[0];
    let rest = ls.drop_first();
    lemma_line_kinds(line);
    let o = na_lines(ls, th_seen);
    if !th_seen && th_line(line) {
        let t = na_lines(rest, true);
        law_insert_lines_idempotent(rest, true);
        lemma_na_tail_stable(rest, true);
        let tail = na_unless_present(rest) + t;
        assert(o == seq![line] + tail) by {
            reveal(na_lines);
        }
        assert(o[0] == line);
        assert(o.drop_first() == tail);
        assert(na_lines(o, th_seen) == seq![line] + na_unless_present(tail) + na_lines(tail, true))
            by {
            reveal(na_lines);
        }
        assert(seq![line] + Seq::<Seq<char>>::empty() + tail == o);
    } else if paragraph_macro(line) {
        let k = leading_na_count(rest) as int;
        lemma_leading_na(rest);
        if tag_next_line_macro(line) && k < rest.len() {
            let after = rest.skip(k + 1);
            let t = na_lines(after, th_seen);
            law_insert_lines_idempotent(after, th_seen);
            lemma_na_tail_stable(after, th_seen);
            let tail = na_unless_present(after) + t;
            assert(o == seq![line, rest[k]] + tail) by {
                reveal(na_lines);
            }
            let r2 = o.drop_first();
            assert(r2 == seq![rest[k]] + tail);
            assert(r2[0] == rest[k]);
            assert(!na_line(rest[k]));
            lemma_leading_na_count_is(r2, 0);
            assert(r2.skip(1) == tail);
            assert(o[0] == line);
            assert(na_lines(o, th_seen) == seq![line, r2[0]] + na_unless_present(r2.skip(1))
                + na_lines(r2.skip(1), th_seen)) by {
                reveal(na_lines);
            }
            assert(seq![line, rest[k]] + Seq::<Seq<char>>::empty() + tail == o);
        } else {
            let t = na_lines(rest, th_seen);
            law_insert_lines_idempotent(rest, th_seen);
            lemma_na_tail_stable(rest, th_seen);
            let tail = na_unless_present(rest) + t;
            assert(o == seq![line] + tail) by {
                reveal(na_lines);
            }
            assert(o[0] == line);
            assert(o.drop_first() == tail);
            if tag_next_line_macro(line) {
                // every following line is a no-adjust directive, and so is every line of `tail`
                assert(k == rest.len());
                lemma_na_lines_all_na(rest, th_seen);
                lemma_line_kinds(na_directive());
                assert forall|j: int| 0 <= j < tail.len() implies na_line(#[trigger] tail[j]) by {
                    if na_unless_present(rest).len() > 0 && j == 0 {
                        assert(tail[0] == na_directive());
                    } else {
                        assert(tail[j] == rest[j - na_unless_present(rest).len()]);
                    }
                }
                lemma_leading_na_count_is(tail, tail.len() as int);
            }
            assert(na_lines(o, th_seen) == seq![line] + na_unless_present(tail) + na_lines(
                tail,
                th_seen,
            )) by {
                reveal(na_lines);
            }
            assert(seq![line] + Seq::<Seq<char>>::empty() + tail == o);
        }
    } else {
        let t = na_lines(rest, th_seen);
        law_insert_lines_idempotent(rest, th_seen);
        assert(o == seq![line] + t) by {
            reveal(na_lines);
        }
        assert(o[0] == line);
        assert(o.drop_first() == t);
        assert(na_lines(o, th_seen) == seq![line] + na_lines(t, th_seen)) by {
            reveal(na_lines);
        }
    }
}

/// Every paragraph macro line is followed by a no-adjust directive, or, for
/// a macro that takes its tag from the next line, the line after the tag is.
pub open spec fn adjust_guarded(out: Seq<Seq<char>>) -> bool {
    forall|k: int|
        0 <= k < out.len() && paragraph_macro(#[trigger] out[k]) ==> (k + 1 < out.len() && na_line(
            out[k + 1],
        )) || (tag_next_line_macro(out[k]) && k + 2 < out.len() && na_line(out[k + 2]))
}

/// After a prefix `s`, the guard of `s + t` follows from that of `t` and from
/// facts about the lines of `s`.
pub proof fn lemma_guard_shift(s: Seq<Seq<char>>, t: Seq<Seq<char>>, k: int)
    requires
        adjust_guarded(t),
        s.len() <= k < s.len() + t.len(),
        paragraph_macro((s + t)[k]),
    ensures
        (k + 1 < (s + t).len() && na_line((s + t)[k + 1])) || (tag_next_line_macro((s + t)[k]) && k
            + 2 < (s + t).len() && na_line((s + t)[k + 2])),
{
    let k2 = k - s.len();
    assert((s + t)[k] == t[k2]);
    assert(paragraph_macro(t[k2]));
    if k2 + 1 < t.len() {
        assert((s + t)[k + 1] == t[k2 + 1]);
    }
    if k2 + 2 < t.len() {
        assert((s + t)[k + 2] == t[k2 + 2]);
    }
}

/// After no-adjust insertion every paragraph macro is followed by `.na`
/// (right after it, or after its tag line for `.TP`, `.HP` and bare `.IP`).
pub proof fn law_insert_guards_paragraphs(ls: Seq<Seq<char>>, th_seen: bool)
    ensures
        adjust_guarded(na_lines(ls, th_seen)),
    decreases ls.len(),
{
    let o = na_lines(ls, th_seen);
    if ls.len() == 0 {
        lemma_na_lines_first(ls, th_seen);
        return;
    }
    let line = ls[0];
    let rest = ls.drop_first();
    lemma_line_kinds(line);
    let d = na_directive();
    lemma_line_kinds(d);
    if !th_seen && th_line(line) {
        let t = na_lines(rest, true);
        law_insert_guards_paragraphs(rest, true);
        let s = seq![line] + na_unless_present(rest);
        assert(o == s + t) by {
            reveal(na_lines);
        }
        assert forall|k: int| 0 <= k < o.len() && paragraph_macro(#[trigger] o[k]) implies (k + 1
            < o.len() && na_line(o[k + 1])) || (tag_next_line_macro(o[k]) && k + 2 < o.len()
            && na_line(o[k + 2])) by {
            if k < s.len() {
                if k == 1 {
                    assert(o[1] == d);
                }
            } else {
                lemma_guard_shift(s, t, k);
            }
        }
    } else if paragraph_macro(line) {
        let k0 = leading_na_count(rest) as int;
        lemma_leading_na(rest);
        let (s, a) = if tag_next_line_macro(line) && k0 < rest.len() {
            (seq![line, rest[k0]] + na_unless_present(rest.skip(k0 + 1)), rest.skip(k0 + 1))
        } else {
            (seq![line] + na_unless_present(rest), rest)
        };
        let t = na_lines(a, th_seen);
        law_insert_guards_paragraphs(a, th_seen);
        lemma_na_lines_first(a, th_seen);
        assert(o == s + t) by {
            reveal(na_lines);
        }
        let head = s.len() - na_unless_present(a).len();
        assert(na_unless_present(a).len() == 0 ==> a.len() > 0 && na_line(a[0]));
        // the line after the last pending line of `s` is a no-adjust directive
        assert(head < o.len() && na_line(o[head])) by {
            if na_unless_present(a).len() > 0 {
                assert(o[head] == d);
            } else {
                assert(o[head] == t[0]);
            }
        }
        assert forall|k: int| 0 <= k < o.len() && paragraph_macro(#[trigger] o[k]) implies (k + 1
            < o.len() && na_line(o[k + 1])) || (tag_next_line_macro(o[k]) && k + 2 < o.len()
            && na_line(o[k + 2])) by {
            if k < head {
                assert(o[0] == line);
            } else if k < s.len() {
                assert(o[k] == d);
            } else {
                lemma_guard_shift(s, t, k);
            }
        }
    } else {
        let t = na_lines(rest, th_seen);
        law_insert_guards_paragraphs(rest, th_seen);
        let s = seq![line];
        assert(o == s + t) by {
            reveal(na_lines);
        }
        assert forall|k: int| 0 <= k < o.len() && paragraph_macro(#[trigger] o[k]) implies (k + 1
            < o.len() && na_line(o[k + 1])) || (tag_next_line_macro(o[k]) && k + 2 < o.len()
            && na_line(o[k + 2])) by {
            if k == 0 {
                assert(o[0] == line);
            } else {
                lemma_guard_shift(s, t, k);
            }
        }
    }
}

/// A line as `str::lines` can give it back: no line feed inside and no
/// carriage return at its end.
pub open spec fn plain_line(l: Seq<char>) -> bool {
    (forall|j: int| 0 <= j < l.len() ==> l[j] != '\n') && (l.len() == 0 || l.last() != '\r')
}

/// `l` holds no line feed.
pub open spec fn no_newline(l: Seq<char>) -> bool {
    forall|j: int| 0 <= j < l.len() ==> l[j] != '\n'
}

/// None of the lines `ls` ends with a carriage return.
pub open spec fn no_cr_ending(ls: Seq<Seq<char>>) -> bool {
    forall|i: int| 0 <= i < ls.len() ==> #[trigger] ls[i].len() == 0 || ls[i].last() != '\r'
}

/// The lines of a text hold no line feed.
pub proof fn lemma_lines_have_no_newline(s: Seq<char>)
    ensures
        forall|i: int, j: int|
            0 <= i < lines_of(s).len() && 0 <= j < lines_of(s)[i].len() ==> #[trigger] lines_of(
                s,
            )[i][j] != '\n',
    decreases s.len(),
{
    if s.len() > 0 {
        let k = index_of(s, '\n') as int;
        lemma_index_of_bound(s, '\n');
        if k < s.len() {
            lemma_lines_have_no_newline(s.skip(k + 1));
            let first = strip_cr(s.take(k as int));
            let ls = lines_of(s);
            assert(ls == seq![first] + lines_of(s.skip(k + 1)));
            assert forall|i: int, j: int| 0 <= i < ls.len() && 0 <= j < ls[i].len() implies #[trigger] ls[i][j]
                != '\n' by {
                if i == 0 {
                    assert(ls[0] == first);
                    assert(first[j] == s[j]);
                } else {
                    assert(ls[i] == lines_of(s.skip(k + 1))[i - 1]);
                }
            }
        }
    }
}

/// Splitting joined lines gives the lines back.
pub proof fn lemma_lines_of_join(ls: Seq<Seq<char>>)
    requires
        forall|i: int| 0 <= i < ls.len() ==> plain_line(#[trigger] ls[i]),
    ensures
        lines_of(join_lines(ls)) == ls,
    decreases ls.len(),
{
    if ls.len() == 0 {
        assert(join_lines(ls) == Seq::<char>::empty());
        return;
    }
    let x = ls[0];
    let rest = ls.drop_first();
    assert forall|i: int| 0 <= i < rest.len() implies plain_line(#[trigger] rest[i]) by {
        assert(rest[i] == ls[i + 1]);
    }
    lemma_lines_of_join(rest);
    assert(plain_line(ls[0]));
    assert(ls == seq![x] + rest);
    lemma_join_concat(seq![x], rest);
    assert(seq![x].drop_last() == Seq::<Seq<char>>::empty());
    assert(join_lines(Seq::<Seq<char>>::empty()) == Seq::<char>::empty());
    assert(join_lines(seq![x]) == x + seq!['\n']);
    let j = join_lines(ls);
    assert(j == x + seq!['\n'] + join_lines(rest));
    assert forall|m: int| 0 <= m < x.len() implies j[m] != '\n' by {
        assert(j[m] == x[m]);
    }
    assert(j[x.len() as int] == '\n');
    lemma_index_of_is(j, '\n', x.len() as int);
    assert(j.take(x.len() as int) == x);
    assert(strip_cr(x) == x);
    assert(j.skip(x.len() + 1 as int) == join_lines(rest));
}

/// No-adjust insertion puts no line feed into a line.
pub proof fn lemma_na_lines_no_newline(ls: Seq<Seq<char>>, th_seen: bool)
    requires
        forall|i: int| 0 <= i < ls.len() ==> no_newline(#[trigger] ls[i]),
    ensures
        forall|i: int|
            0 <= i < na_lines(ls, th_seen).len() ==> no_newline(#[trigger] na_lines(ls, th_seen)[i]),
    decreases ls.len(),
{
    let o = na_lines(ls, th_seen);
    let d = na_directive();
    assert(no_newline(d));
    if ls.len() == 0 {
        lemma_na_lines_first(ls, th_seen);
        return;
    }
    let line = ls[0];
    let rest = ls.drop_first();
    assert(no_newline(line));
    assert forall|i: int| 0 <= i < rest.len() implies no_newline(#[trigger] rest[i]) by {
        assert(rest[i] == ls[i + 1]);
    }
    let k = leading_na_count(rest) as int;
    lemma_leading_na(rest);
    let (s, a, th2) = if !th_seen && th_line(line) {
        (seq![line] + na_unless_present(rest), rest, true)
    } else if paragraph_macro(line) {
        if tag_next_line_macro(line) && k < rest.len() {
            (seq![line, rest[k]] + na_unless_present(rest.skip(k + 1)), rest.skip(k + 1), th_seen)
        } else {
            (seq![line] + na_unless_present(rest), rest, th_seen)
        }
    } else {
        (seq![line], rest, th_seen)
    };
    assert forall|i: int| 0 <= i < a.len() implies no_newline(#[trigger] a[i]) by {
        if a.len() < rest.len() {
            assert(a[i] == rest[i + k + 1]);
        } else {
            assert(a[i] == rest[i]);
        }
    }
    lemma_na_lines_no_newline(a, th2);
    let t = na_lines(a, th2);
    assert(o == s + t) by {
        reveal(na_lines);
    }
    assert forall|i: int| 0 <= i < o.len() implies no_newline(#[trigger] o[i]) by {
        if i >= s.len() {
            assert(o[i] == t[i - s.len()]);
        } else if i == 0 {
            assert(o[0] == line);
        } else if s.len() > 1 && s[1] != d && i == 1 {
            assert(o[1] == rest[k]);
        } else {
            assert(o[i] == d);
        }
    }
}

/// `insert_no_adjust` is idempotent on texts none of whose output lines ends
/// with a carriage return: running it on its own output changes nothing.
pub proof fn law_insert_no_adjust_idempotent(s: Seq<char>)
    requires
        no_cr_ending(na_lines(lines_of(s), false)),
    ensures
        insert_no_adjust_spec(insert_no_adjust_spec(s)) == insert_no_adjust_spec(s),
{
    let ls = lines_of(s);
    let o = na_lines(ls, false);
    lemma_lines_have_no_newline(s);
    assert forall|i: int| 0 <= i < ls.len() implies no_newline(#[trigger] ls[i]) by {
        assert forall|j: int| 0 <= j < ls[i].len() implies ls[i][j] != '\n' by {
            assert(lines_of(s)[i][j] != '\n');
        }
    }
    lemma_na_lines_no_newline(ls, false);
    assert forall|i: int| 0 <= i < o.len() implies plain_line(#[trigger] o[i]) by {
        assert(no_newline(o[i]));
        assert(o[i].len() == 0 || o[i].last() != '\r');
    }
    lemma_lines_of_join(o);
    law_insert_lines_idempotent(ls, false);
}

/// Text without tabs and without two spaces in a row.
pub open spec fn blanks_collapsed(x: Seq<char>) -> bool {
    &&& forall|i: int| 0 <= i < x.len() ==> #[trigger] x[i] != '\t'
    &&& forall|i: int| 0 <= i < x.len() - 1 ==> !(#[trigger] x[i] == ' ' && x[i + 1] == ' ')
}

/// Collapsing leaves no tab and no double space; after a pending space it
/// does not start with a space; it holds no character that `b` lacks other
/// than spaces; it ends as `b` does when `b` ends with neither space nor tab.
pub proof fn lemma_collapse_shape(b: Seq<char>, pending: bool)
    ensures
        blanks_collapsed(collapse_blank_runs(b, pending)),
        pending ==> collapse_blank_runs(b, pending).len() == 0 || collapse_blank_runs(b, pending)[0]
            != ' ',
        forall|i: int|
            0 <= i < collapse_blank_runs(b, pending).len() ==> #[trigger] collapse_blank_runs(
                b,
                pending,
            )[i] == ' ' || b.contains(collapse_blank_runs(b, pending)[i]),
        b.len() > 0 && b.last() != ' ' && b.last() != '\t' ==> collapse_blank_runs(b, pending).len()
            > 0 && collapse_blank_runs(b, pending).last() == b.last(),
    decreases b.len(),
{
    if b.len() == 0 {
        return;
    }
    let rest = b.drop_first();
    let c = collapse_blank_runs(b, pending);
    if b[0] == ' ' || b[0] == '\t' {
        lemma_collapse_shape(rest, true);
        let cr = collapse_blank_runs(rest, true);
        assert forall|i: int| 0 <= i < cr.len() implies #[trigger] cr[i] == ' ' || b.contains(cr[i]) by {
            if cr[i] != ' ' {
                let j = choose|j: int| 0 <= j < rest.len() && rest[j] == cr[i];
                assert(b[j + 1] == rest[j]);
            }
        }
        if !pending {
            assert(c == seq![' '] + cr);
            assert forall|i: int| 0 <= i < c.len() implies #[trigger] c[i] != '\t' by {
                if i > 0 {
                    assert(c[i] == cr[i - 1]);
                }
            }
            assert forall|i: int| 0 <= i < c.len() - 1 implies !(#[trigger] c[i] == ' ' && c[i + 1]
                == ' ') by {
                if i > 0 {
                    assert(c[i] == cr[i - 1]);
                    assert(c[i + 1] == cr[i]);
                } else {
                    assert(c[1] == cr[0]);
                }
            }
            assert forall|i: int| 0 <= i < c.len() implies #[trigger] c[i] == ' ' || b.contains(c[i]) by {
                if i > 0 {
                    assert(c[i] == cr[i - 1]);
                }
            }
            if b.last() != ' ' && b.last() != '\t' {
                assert(rest.len() > 0);
                assert(rest.last() == b.last());
            }
        } else {
            assert(c == cr);
            if b.last() != ' ' && b.last() != '\t' {
                assert(rest.len() > 0);
                assert(rest.last() == b.last());
            }
        }
    } else {
        lemma_collapse_shape(rest, false);
        let cr = collapse_blank_runs(rest, false);
        assert(c == seq![b[0]] + cr);
        assert forall|i: int| 0 <= i < c.len() implies #[trigger] c[i] != '\t' by {
            if i > 0 {
                assert(c[i] == cr[i - 1]);
            }
        }
        assert forall|i: int| 0 <= i < c.len() - 1 implies !(#[trigger] c[i] == ' ' && c[i + 1]
            == ' ') by {
            if i > 0 {
                assert(c[i] == cr[i - 1]);
                assert(c[i + 1] == cr[i]);
            }
        }
        assert forall|i: int| 0 <= i < c.len() implies #[trigger] c[i] == ' ' || b.contains(c[i]) by {
            if i > 0 {
                assert(c[i] == cr[i - 1]);
                if cr[i - 1] != ' ' {
                    let j = choose|j: int| 0 <= j < rest.len() && rest[j] == cr[i - 1];
                    assert(b[j + 1] == rest[j]);
                }
            } else {
                assert(b[0] == c[0]);
            }
        }
        if rest.len() > 0 && b.last() != ' ' && b.last() != '\t' {
            assert(rest.last() == b.last());
        }
    }
}

/// Collapsing text whose blanks are already collapsed changes nothing.
pub proof fn lemma_collapse_stable(x: Seq<char>, pending: bool)
    requires
        blanks_collapsed(x),
        pending ==> x.len() == 0 || x[0] != ' ',
    ensures
        collapse_blank_runs(x, pending) == x,
    decreases x.len(),
{
    if x.len() == 0 {
        return;
    }
    let rest = x.drop_first();
    assert(blanks_collapsed(rest)) by {
        assert forall|i: int| 0 <= i < rest.len() implies #[trigger] rest[i] != '\t' by {
            assert(rest[i] == x[i + 1]);
        }
        assert forall|i: int| 0 <= i < rest.len() - 1 implies !(#[trigger] rest[i] == ' ' && rest[i + 1]
            == ' ') by {
            assert(rest[i] == x[i + 1]);
            assert(rest[i + 1] == x[i + 2]);
        }
    }
    assert(x[0] != '\t');
    if x[0] == ' ' {
        if rest.len() > 0 {
            assert(rest[0] == x[1]);
            assert(!(x[0] == ' ' && x[1] == ' '));
        }
        lemma_collapse_stable(rest, true);
    } else {
        lemma_collapse_stable(rest, false);
    }
    assert(x == seq![x[0]] + rest);
}

/// A line piece (no line feed but possibly the last character) keeps its
/// shape: normalised, it has the same ending and no other line feed, and it
/// is not empty when the piece is not.
pub proof fn lemma_piece_shape(p: Seq<char>)
    requires
        forall|j: int| 0 <= j < p.len() - 1 ==> p[j] != '\n',
    ensures
        forall|j: int| 0 <= j < normalize_piece(p).len() - 1 ==> #[trigger] normalize_piece(p)[j] != '\n',
        (p.len() > 0 && p.last() == '\n') <==> (normalize_piece(p).len() > 0 && normalize_piece(
            p,
        ).last() == '\n'),
        p.len() > 0 ==> normalize_piece(p).len() > 0,
{
    let has_nl = p.len() > 0 && p.last() == '\n';
    let c = if has_nl { p.drop_last() } else { p };
    assert forall|j: int| 0 <= j < c.len() implies c[j] != '\n' by {
        assert(c[j] == p[j]);
    }
    if !control_or_blank(c) {
        let w = ws_prefix_len(c) as int;
        lemma_ws_prefix_len_bound(c);
        let body = trim_end(c.skip(w));
        lemma_ws_suffix_len_bound(c.skip(w));
        let cc = collapse_blank_runs(body, false);
        lemma_collapse_shape(body, false);
        let lead = c.take(w);
        let nl: Seq<char> = if has_nl { seq!['\n'] } else { seq![] };
        let q = lead + cc + nl;
        assert(q == normalize_piece(p));
        assert forall|j: int| 0 <= j < lead.len() + cc.len() implies q[j] != '\n' by {
            if j < lead.len() {
                assert(q[j] == c[j]);
            } else {
                assert(q[j] == cc[j - lead.len()]);
                if cc[j - lead.len()] != ' ' {
                    let m = choose|m: int| 0 <= m < body.len() && body[m] == cc[j - lead.len()];
                    assert(body[m] == c[w + m]);
                }
            }
        }
        // the body is not empty: the trimmed line is not blank
        assert(trim_end(c.skip(w)).len() > 0);
        assert(body.last() == c.skip(w)[body.len() - 1]);
        assert(!is_ws(body.last()));
        if has_nl {
            assert(q.last() == '\n');
        } else {
            assert(q.last() == cc.last());
            assert(cc.last() == body.last());
        }
    }
}

/// A normalised line piece normalises to itself.
pub proof fn lemma_piece_idempotent(p: Seq<char>)
    ensures
        normalize_piece(normalize_piece(p)) == normalize_piece(p),
{
    let has_nl = p.len() > 0 && p.last() == '\n';
    let c = if has_nl { p.drop_last() } else { p };
    if control_or_blank(c) {
        return;
    }
    let w = ws_prefix_len(c) as int;
    lemma_ws_prefix_len_bound(c);
    let x = c.skip(w);
    let body = trim_end(x);
    lemma_ws_suffix_len_bound(x);
    let cc = collapse_blank_runs(body, false);
    lemma_collapse_shape(body, false);
    let lead = c.take(w);
    let nl: Seq<char> = if has_nl { seq!['\n'] } else { seq![] };
    let q = lead + cc + nl;
    assert(q == normalize_piece(p));
    // the trimmed line is the body: it is not blank
    assert(trim_start(c) == x);
    assert(crate::text::trim(c) == body);
    assert(body.len() > 0);
    assert(body[0] == c[w]);
    assert(!is_ws(body[0]));
    assert(body.last() == x[body.len() - 1]);
    assert(!is_ws(body.last()));
    assert(cc[0] == body[0]) by {
        assert(body[0] != ' ' && body[0] != '\t');
    }
    assert(cc.last() == body.last());
    // the content of `q`
    let qc = lead + cc;
    assert(q.len() > 0 && q.last() == '\n' <==> has_nl) by {
        if !has_nl {
            assert(q == qc);
            assert(q.last() == cc.last());
        }
    }
    assert((if q.len() > 0 && q.last() == '\n' { q.drop_last() } else { q }) == qc);
    assert forall|j: int| 0 <= j < w implies is_ws(#[trigger] qc[j]) by {
        assert(qc[j] == c[j]);
    }
    assert(qc[w] == cc[0]);
    lemma_ws_prefix_len_is(qc, w);
    assert(qc.take(w) == lead);
    assert(qc.skip(w) == cc);
    lemma_ws_suffix_len_is(cc, 0);
    assert(trim_end(cc) == cc);
    assert(trim_start(qc) == cc);
    assert(crate::text::trim(qc) == cc);
    assert(cc[0] == body[0]);
    assert(!control_or_blank(qc));
    lemma_collapse_stable(cc, false);
}

/// Normalising spaces a second time changes nothing.
pub proof fn law_normalize_idempotent(s: Seq<char>)
    ensures
        normalize_spec(normalize_spec(s)) == normalize_spec(s),
    decreases s.len(),
{
    if s.len() == 0 {
        return;
    }
    let k = index_of(s, '\n') as int;
    lemma_index_of_bound(s, '\n');
    if k >= s.len() {
        let n = normalize_piece(s);
        lemma_piece_shape(s);
        lemma_piece_idempotent(s);
        assert forall|j: int| 0 <= j < n.len() implies n[j] != '\n' by {
            if j == n.len() - 1 {
                assert(!(s.last() == '\n'));
            }
        }
        lemma_index_of_is(n, '\n', n.len() as int);
    } else {
        let p = s.take(k + 1);
        let r = s.skip(k + 1);
        assert forall|j: int| 0 <= j < p.len() - 1 implies p[j] != '\n' by {
            assert(p[j] == s[j]);
        }
        assert(p.last() == '\n');
        lemma_piece_shape(p);
        lemma_piece_idempotent(p);
        law_normalize_idempotent(r);
        let np = normalize_piece(p);
        let nr = normalize_spec(r);
        let n = np + nr;
        assert(normalize_spec(s) == n);
        assert forall|j: int| 0 <= j < np.len() - 1 implies n[j] != '\n' by {
            assert(n[j] == np[j]);
        }
        assert(n[np.len() - 1] == '\n');
        lemma_index_of_is(n, '\n', np.len() - 1);
        assert(n.take(np.len() as int) == np);
        assert(n.skip(np.len() as int) == nr);
    }
}

/// The non-whitespace characters of `s`, in order.
pub open spec fn visible(s: Seq<char>) -> Seq<char>
    decreases s.len(),
{
    if s.len() == 0 {
        seq![]
    } else if is_ws(s.last()) {
        visible(s.drop_last())
    } else {
        visible(s.drop_last()).push(s.last())
    }
}

/// The lines of `ls` concatenated without separators.
pub open spec fn concat_lines(ls: Seq<Seq<char>>) -> Seq<char>
    decreases ls.len(),
{
    if ls.len() == 0 {
        seq![]
    } else {
        concat_lines(ls.drop_last()) + ls.last()
    }
}

pub proof fn lemma_visible_concat(a: Seq<char>, b: Seq<char>)
    ensures
        visible(a + b) == visible(a) + visible(b),
    decreases b.len(),
{
    if b.len() == 0 {
        assert(a + b == a);
    } else {
        lemma_visible_concat(a, b.drop_last());
        assert((a + b).drop_last() == a + b.drop_last());
        assert((a + b).last() == b.last());
    }
}

pub proof fn lemma_visible_all_ws(a: Seq<char>)
    requires
        forall|i: int| 0 <= i < a.len() ==> is_ws(#[trigger] a[i]),
    ensures
        visible(a) == Seq::<char>::empty(),
    decreases a.len(),
{
    if a.len() > 0 {
        assert(is_ws(a[a.len() - 1]));
        lemma_visible_all_ws(a.drop_last());
    }
}

pub proof fn lemma_visible_trim_end(x: Seq<char>)
    ensures
        visible(trim_end(x)) == visible(x),
{
    lemma_ws_suffix_len_bound(x);
    let k = x.len() - ws_suffix_len(x);
    assert(x == x.take(k) + x.skip(k));
    lemma_visible_concat(x.take(k), x.skip(k));
    lemma_visible_all_ws(x.skip(k));
    assert(visible(x.take(k)) + Seq::<char>::empty() == visible(x.take(k)));
}

pub proof fn lemma_concat_lines_concat(a: Seq<Seq<char>>, b: Seq<Seq<char>>)
    ensures
        concat_lines(a + b) == concat_lines(a) + concat_lines(b),
    decreases b.len(),
{
    if b.len() == 0 {
        assert(a + b == a);
    } else {
        lemma_concat_lines_concat(a, b.drop_last());
        assert((a + b).drop_last() == a + b.drop_last());
        assert((a + b).last() == b.last());
    }
}

pub proof fn lemma_concat_single(x: Seq<char>)
    ensures
        concat_lines(seq![x]) == x,
{
    assert(seq![x].drop_last() == Seq::<Seq<char>>::empty());
    assert(concat_lines(Seq::<Seq<char>>::empty()) == Seq::<char>::empty());
    assert(Seq::<char>::empty() + x == x);
}

/// The visible text of a kept piece is that of the prefix it was cut from.
pub proof fn lemma_visible_kept(x: Seq<char>)
    ensures
        visible(concat_lines(kept_piece(x))) == visible(x),
{
    lemma_visible_trim_end(x);
    if trim_end(x).len() > 0 {
        lemma_concat_single(trim_end(x));
    } else {
        assert(trim_end(x) == Seq::<char>::empty());
    }
}

/// One wrapping step neither adds, drops nor reorders visible characters.
pub proof fn lemma_visible_step(out: Seq<char>, ch: char)
    ensures
        visible(concat_lines(wrap_step(out, ch).0)) + visible(wrap_step(out, ch).1) == visible(
            out.push(ch),
        ),
{
    let o = out.push(ch);
    let st = wrap_step(out, ch);
    if st.0.len() == 0 && st.1 == o {
        assert(concat_lines(st.0) == Seq::<char>::empty());
        return;
    }
    let lb = crate::translator::last_break(o) as int;
    crate::translator::lemma_last_break(o);
    let cut = if lb > 0 { lb } else { o.len() - 1 };
    assert(st == (kept_piece(o.take(cut)), o.skip(cut)));
    lemma_visible_kept(o.take(cut));
    assert(o == o.take(cut) + o.skip(cut));
    lemma_visible_concat(o.take(cut), o.skip(cut));
}

/// Wrapping keeps the visible text of the pending text followed by the characters.
pub proof fn lemma_visible_wrap(cs: Seq<char>, out: Seq<char>)
    ensures
        visible(concat_lines(wrap_run(cs, out))) == visible(out) + visible(cs),
    decreases cs.len(),
{
    if cs.len() == 0 {
        assert(visible(cs) == Seq::<char>::empty());
        if out.len() > 0 {
            lemma_concat_single(trim_end(out));
            lemma_visible_trim_end(out);
        }
        assert(visible(out) + Seq::<char>::empty() == visible(out));
        return;
    }
    let c = cs[0];
    let rest = cs.drop_first();
    let st = wrap_step(out, c);
    lemma_visible_wrap(rest, st.1);
    lemma_visible_step(out, c);
    lemma_concat_lines_concat(st.0, wrap_run(rest, st.1));
    lemma_visible_concat(concat_lines(st.0), concat_lines(wrap_run(rest, st.1)));
    assert(cs == seq![c] + rest);
    assert(out + cs == out.push(c) + rest);
    lemma_visible_concat(out.push(c), rest);
    lemma_visible_concat(out, cs);
}

/// Breaking a line neither adds, drops nor reorders its non-whitespace characters.
pub proof fn law_break_line_keeps_text(line: Seq<char>)
    ensures
        visible(concat_lines(break_line(line))) == visible(line),
{
    if crate::translator::kept_verbatim(line) || crate::translator::cols(line)
        <= crate::translator::MAX_LINE_WIDTH {
        lemma_concat_single(line);
    } else {
        lemma_visible_wrap(line, Seq::<char>::empty());
        assert(visible(Seq::<char>::empty()) + visible(line) == visible(line));
    }
}

pub proof fn lemma_visible_break_lines(ls: Seq<Seq<char>>)
    ensures
        visible(concat_lines(break_lines(ls))) == visible(concat_lines(ls)),
    decreases ls.len(),
{
    if ls.len() == 0 {
        return;
    }
    let rest = ls.drop_first();
    lemma_visible_break_lines(rest);
    law_break_line_keeps_text(ls[0]);
    lemma_concat_lines_concat(break_line(ls[0]), break_lines(rest));
    lemma_visible_concat(concat_lines(break_line(ls[0])), concat_lines(break_lines(rest)));
    assert(ls == seq![ls[0]] + rest);
    lemma_concat_lines_concat(seq![ls[0]], rest);
    lemma_concat_single(ls[0]);
    lemma_visible_concat(ls[0], concat_lines(rest));
}

pub proof fn lemma_visible_join(ls: Seq<Seq<char>>)
    ensures
        visible(join_lines(ls)) == visible(concat_lines(ls)),
    decreases ls.len(),
{
    if ls.len() > 0 {
        lemma_visible_join(ls.drop_last());
        let j = join_lines(ls.drop_last()) + ls.last();
        assert(join_lines(ls) == j + seq!['\n']);
        assert(is_ws('\n'));
        assert((j + seq!['\n']).drop_last() == j);
        lemma_visible_concat(join_lines(ls.drop_last()), ls.last());
        lemma_visible_concat(concat_lines(ls.drop_last()), ls.last());
    }
}

/// Splitting into lines drops only line endings.
pub proof fn lemma_visible_lines(s: Seq<char>)
    ensures
        visible(concat_lines(lines_of(s))) == visible(s),
    decreases s.len(),
{
    if s.len() == 0 {
        return;
    }
    let k = index_of(s, '\n') as int;
    lemma_index_of_bound(s, '\n');
    if k >= s.len() {
        lemma_concat_single(s);
    } else {
        let r = s.skip(k + 1);
        lemma_visible_lines(r);
        let x = s.take(k);
        let first = strip_cr(x);
        assert(lines_of(s) == seq![first] + lines_of(r));
        lemma_concat_lines_concat(seq![first], lines_of(r));
        lemma_concat_single(first);
        lemma_visible_concat(first, concat_lines(lines_of(r)));
        // `first` differs from `x` by at most a carriage return
        assert(visible(first) == visible(x)) by {
            if x.len() > 0 && x.last() == '\r' {
                assert(is_ws('\r'));
            }
        }
        assert(s == x + (seq!['\n'] + r));
        lemma_visible_concat(x, seq!['\n'] + r);
        assert(seq!['\n'] + r == seq!['\n'] + r);
        lemma_visible_concat(seq!['\n'], r);
        assert(visible(seq!['\n']) == Seq::<char>::empty()) by {
            assert(is_ws('\n'));
            assert(seq!['\n'].last() == '\n');
            assert(seq!['\n'].drop_last() == Seq::<char>::empty());
            assert(visible(Seq::<char>::empty()) == Seq::<char>::empty());
        }
    }
}

/// `break_long_cjk_lines` neither adds, drops nor reorders a non-whitespace
/// character of the page: only line breaks and whitespace change.
pub proof fn law_break_keeps_text(s: Seq<char>)
    ensures
        visible(break_spec(s)) == visible(s),
{
    lemma_visible_join(break_lines(lines_of(s)));
    lemma_visible_break_lines(lines_of(s));
    lemma_visible_lines(s);
}

pub proof fn lemma_visible_single(c: char)
    ensures
        visible(seq![c]) == (if is_ws(c) { Seq::<char>::empty() } else { seq![c] }),
{
    assert(seq![c].drop_last() == Seq::<char>::empty());
    assert(visible(Seq::<char>::empty()) == Seq::<char>::empty());
    assert(Seq::<char>::empty().push(c) == seq![c]);
}

/// Collapsing blank runs changes only spaces and tabs.
pub proof fn lemma_visible_collapse(b: Seq<char>, pending: bool)
    ensures
        visible(collapse_blank_runs(b, pending)) == visible(b),
    decreases b.len(),
{
    if b.len() == 0 {
        return;
    }
    let rest = b.drop_first();
    assert(b == seq![b[0]] + rest);
    lemma_visible_concat(seq![b[0]], rest);
    lemma_visible_single(b[0]);
    if b[0] == ' ' || b[0] == '\t' {
        lemma_visible_collapse(rest, true);
        if !pending {
            lemma_visible_single(' ');
            lemma_visible_concat(seq![' '], collapse_blank_runs(rest, true));
        }
    } else {
        lemma_visible_collapse(rest, false);
        lemma_visible_concat(seq![b[0]], collapse_blank_runs(rest, false));
    }
}

/// Normalising one line piece changes only whitespace.
pub proof fn lemma_visible_piece(p: Seq<char>)
    ensures
        visible(normalize_piece(p)) == visible(p),
{
    let has_nl = p.len() > 0 && p.last() == '\n';
    let c = if has_nl { p.drop_last() } else { p };
    let nl: Seq<char> = if has_nl { seq!['\n'] } else { seq![] };
    assert(p == c + nl);
    lemma_visible_concat(c, nl);
    lemma_visible_single('\n');
    assert(visible(nl) == Seq::<char>::empty());
    if control_or_blank(c) {
        return;
    }
    let w = ws_prefix_len(c) as int;
    lemma_ws_prefix_len_bound(c);
    let lead = c.take(w);
    let x = c.skip(w);
    let cc = collapse_blank_runs(trim_end(x), false);
    assert forall|i: int| 0 <= i < lead.len() implies is_ws(#[trigger] lead[i]) by {
        assert(lead[i] == c[i]);
    }
    lemma_visible_all_ws(lead);
    assert(c == lead + x);
    lemma_visible_concat(lead, x);
    lemma_visible_trim_end(x);
    lemma_visible_collapse(trim_end(x), false);
    lemma_visible_concat(lead, cc);
    lemma_visible_concat(lead + cc, nl);
}

/// `normalize_text_spaces` changes only whitespace: the non-whitespace
/// characters of the page stay as they are, in order.
pub proof fn law_normalize_keeps_text(s: Seq<char>)
    ensures
        visible(normalize_spec(s)) == visible(s),
    decreases s.len(),
{
    if s.len() == 0 {
        return;
    }
    let k = index_of(s, '\n') as int;
    lemma_index_of_bound(s, '\n');
    if k >= s.len() {
        lemma_visible_piece(s);
    } else {
        let p = s.take(k + 1);
        let r = s.skip(k + 1);
        lemma_visible_piece(p);
        law_normalize_keeps_text(r);
        lemma_visible_concat(normalize_piece(p), normalize_spec(r));
        assert(s == p + r);
        lemma_visible_concat(p, r);
    }
}

/// The first `.TH` header line is followed by a no-adjust directive.
pub open spec fn header_guarded(out: Seq<Seq<char>>) -> bool {
    forall|k: int|
        0 <= k < out.len() && th_line(#[trigger] out[k]) && (forall|j: int|
            0 <= j < k ==> !th_line(out[j])) ==> k + 1 < out.len() && na_line(out[k + 1])
}

/// After no-adjust insertion the first `.TH` header line is followed by `.na`.
pub proof fn law_insert_guards_header(ls: Seq<Seq<char>>)
    ensures
        header_guarded(na_lines(ls, false)),
    decreases ls.len(),
{
    let o = na_lines(ls, false);
    if ls.len() == 0 {
        lemma_na_lines_first(ls, false);
        return;
    }
    let line = ls[0];
    let rest = ls.drop_first();
    lemma_line_kinds(line);
    let d = na_directive();
    lemma_line_kinds(d);
    if th_line(line) {
        let t = na_lines(rest, true);
        let s = seq![line] + na_unless_present(rest);
        lemma_na_lines_first(rest, true);
        assert(o == s + t) by {
            reveal(na_lines);
        }
        assert(o[0] == line);
        assert(1 < o.len() && na_line(o[1])) by {
            if na_unless_present(rest).len() > 0 {
                assert(o[1] == d);
            } else {
                assert(o[1] == t[0]);
            }
        }
        assert forall|k: int|
            0 <= k < o.len() && th_line(#[trigger] o[k]) && (forall|j: int|
                0 <= j < k ==> !th_line(o[j])) implies k + 1 < o.len() && na_line(o[k + 1]) by {
            if k > 0 {
                assert(!th_line(o[0]));
            }
        }
    } else {
        let k0 = leading_na_count(rest) as int;
        lemma_leading_na(rest);
        let tagged = paragraph_macro(line) && tag_next_line_macro(line) && k0 < rest.len();
        let (s, a) = if tagged {
            (seq![line, rest[k0]] + na_unless_present(rest.skip(k0 + 1)), rest.skip(k0 + 1))
        } else if paragraph_macro(line) {
            (seq![line] + na_unless_present(rest), rest)
        } else {
            (seq![line], rest)
        };
        let t = na_lines(a, false);
        law_insert_guards_header(a);
        lemma_na_lines_first(a, false);
        assert(o == s + t) by {
            reveal(na_lines);
        }
        assert(o[0] == line);
        assert forall|k: int|
            0 <= k < o.len() && th_line(#[trigger] o[k]) && (forall|j: int|
                0 <= j < k ==> !th_line(o[j])) implies k + 1 < o.len() && na_line(o[k + 1]) by {
            if k < s.len() {
                if tagged && k == 1 {
                    assert(o[1] == rest[k0]);
                    assert(2 < o.len() && na_line(o[2])) by {
                        if na_unless_present(a).len() > 0 {
                            assert(o[2] == d);
                        } else {
                            assert(o[2] == t[0]);
                        }
                    }
                } else if k > 0 {
                    assert(o[k] == d);
                }
            } else {
                let k2 = k - s.len();
                assert(o[k] == t[k2]);
                assert forall|j: int| 0 <= j < k2 implies !th_line(#[trigger] t[j]) by {
                    assert(o[j + s.len()] == t[j]);
                    assert(!th_line(o[j + s.len()]));
                }
                assert(th_line(t[k2]));
                if k2 + 1 < t.len() {
                    assert(o[k + 1] == t[k2 + 1]);
                }
            }
        }
    }
}

/// A printable ASCII character that takes one column.
pub open spec fn unit_ascii(c: char) -> bool {
    printable_ascii(c) && char_cols(c) == 1
}

/// Every character of `s` is printable ASCII taking one column.
pub open spec fn all_unit_ascii(s: Seq<char>) -> bool {
    forall|j: int| 0 <= j < s.len() ==> unit_ascii(#[trigger] s[j])
}

/// A line of at most `MAX_LINE_WIDTH` printable ASCII characters.
pub open spec fn short_ascii_piece(p: Seq<char>) -> bool {
    p.len() <= MAX_LINE_WIDTH && all_unit_ascii(p)
}

pub proof fn lemma_unit_cols(s: Seq<char>)
    requires
        all_unit_ascii(s),
    ensures
        cols(s) == s.len(),
    decreases s.len(),
{
    if s.len() > 0 {
        assert(unit_ascii(s[s.len() - 1]));
        lemma_unit_cols(s.drop_last());
    }
}

pub proof fn lemma_unit_ascii_take_skip(s: Seq<char>, k: int)
    requires
        all_unit_ascii(s),
        0 <= k <= s.len(),
    ensures
        all_unit_ascii(s.take(k)),
        all_unit_ascii(s.skip(k)),
        all_unit_ascii(trim_end(s)),
{
    assert forall|j: int| 0 <= j < s.take(k).len() implies unit_ascii(#[trigger] s.take(k)[j]) by {
        assert(s.take(k)[j] == s[j]);
    }
    assert forall|j: int| 0 <= j < s.skip(k).len() implies unit_ascii(#[trigger] s.skip(k)[j]) by {
        assert(s.skip(k)[j] == s[j + k]);
    }
    lemma_ws_suffix_len_bound(s);
    let t = trim_end(s);
    assert forall|j: int| 0 <= j < t.len() implies unit_ascii(#[trigger] t[j]) by {
        assert(t[j] == s[j]);
    }
}

/// One wrapping step over printable ASCII text keeps the pending text and
/// every emitted piece within the limit.
pub proof fn lemma_wrap_step_ascii(out: Seq<char>, ch: char)
    requires
        all_unit_ascii(out),
        unit_ascii(ch),
        out.len() <= MAX_LINE_WIDTH,
    ensures
        short_ascii_piece(wrap_step(out, ch).1),
        forall|k: int|
            0 <= k < wrap_step(out, ch).0.len() ==> short_ascii_piece(#[trigger] wrap_step(out, ch).0[k]),
{
    let o = out.push(ch);
    assert forall|j: int| 0 <= j < o.len() implies unit_ascii(#[trigger] o[j]) by {
        if j < out.len() {
            assert(o[j] == out[j]);
        }
    }
    lemma_unit_cols(o);
    if cols(o) > MAX_LINE_WIDTH {
        let lb = last_break(o) as int;
        lemma_last_break(o);
        if lb > 0 {
            let x = o.take(lb);
            lemma_unit_ascii_take_skip(o, lb);
            lemma_unit_ascii_take_skip(x, 0);
            assert(x.last() == ' ') by {
                assert(x.last() == o[lb - 1]);
                assert(unit_ascii(o[lb - 1]));
            }
            assert(ws_suffix_len(x) >= 1) by {
                assert(is_ws(x.last()));
            }
            lemma_ws_suffix_len_bound(x);
            assert(trim_end(x).len() <= MAX_LINE_WIDTH);
        } else {
            lemma_unit_ascii_take_skip(o, o.len() - 1);
            lemma_unit_ascii_take_skip(o.take(o.len() - 1), 0);
            lemma_ws_suffix_len_bound(o.take(o.len() - 1));
        }
    }
}

/// Wrapping printable ASCII text yields pieces within the limit.
pub proof fn lemma_wrap_run_ascii(cs: Seq<char>, out: Seq<char>)
    requires
        all_unit_ascii(cs),
        short_ascii_piece(out),
    ensures
        forall|k: int| 0 <= k < wrap_run(cs, out).len() ==> short_ascii_piece(#[trigger] wrap_run(cs, out)[k]),
    decreases cs.len(),
{
    if cs.len() == 0 {
        if out.len() > 0 {
            lemma_unit_ascii_take_skip(out, 0);
            lemma_ws_suffix_len_bound(out);
            assert(wrap_run(cs, out)[0] == trim_end(out));
        }
    } else {
        assert(unit_ascii(cs[0]));
        lemma_wrap_step_ascii(out, cs[0]);
        let (em, o2) = wrap_step(out, cs[0]);
        assert forall|j: int| 0 <= j < cs.drop_first().len() implies unit_ascii(
            #[trigger] cs.drop_first()[j],
        ) by {
            assert(cs.drop_first()[j] == cs[j + 1]);
        }
        lemma_wrap_run_ascii(cs.drop_first(), o2);
        let r = wrap_run(cs.drop_first(), o2);
        assert(wrap_run(cs, out) == em + r);
        assert forall|k: int| 0 <= k < (em + r).len() implies short_ascii_piece(#[trigger] (em + r)[k]) by {
            if k < em.len() {
                assert((em + r)[k] == em[k]);
            } else {
                assert((em + r)[k] == r[k - em.len()]);
            }
        }
    }
}

/// Every character of `s` is printable ASCII.
pub open spec fn ascii_line(s: Seq<char>) -> bool {
    forall|j: int| 0 <= j < s.len() ==> printable_ascii(#[trigger] s[j])
}

/// The output lines of printable ASCII lines are printable ASCII, and those
/// that are not control or blank lines are within the limit, when every
/// character of a line that is not a control or blank line takes one column.
pub proof fn lemma_break_lines_ascii(ls: Seq<Seq<char>>)
    requires
        forall|i: int| 0 <= i < ls.len() ==> ascii_line(#[trigger] ls[i]),
        forall|i: int| 0 <= i < ls.len() && !kept_verbatim(#[trigger] ls[i]) ==> all_unit_ascii(ls[i]),
    ensures
        forall|k: int| 0 <= k < break_lines(ls).len() ==> ascii_line(#[trigger] break_lines(ls)[k]),
        forall|k: int|
            0 <= k < break_lines(ls).len() && !kept_verbatim(#[trigger] break_lines(ls)[k])
                ==> break_lines(ls)[k].len() <= MAX_LINE_WIDTH,
    decreases ls.len(),
{
    if ls.len() > 0 {
        let line = ls[0];
        let rest = ls.drop_first();
        assert(ascii_line(line));
        assert forall|i: int| 0 <= i < rest.len() implies ascii_line(#[trigger] rest[i]) by {
            assert(rest[i] == ls[i + 1]);
        }
        assert forall|i: int| 0 <= i < rest.len() && !kept_verbatim(#[trigger] rest[i]) implies all_unit_ascii(
            rest[i],
        ) by {
            assert(rest[i] == ls[i + 1]);
        }
        lemma_break_lines_ascii(rest);
        let b = break_line(line);
        let t = break_lines(rest);
        if !kept_verbatim(line) {
            assert(all_unit_ascii(line));
            lemma_unit_cols(line);
            if cols(line) > MAX_LINE_WIDTH {
                lemma_wrap_run_ascii(line, seq![]);
            }
        }
        assert(break_lines(ls) == b + t);
        assert forall|k: int| 0 <= k < (b + t).len() implies ascii_line(#[trigger] (b + t)[k]) && (
        !kept_verbatim((b + t)[k]) ==> (b + t)[k].len() <= MAX_LINE_WIDTH) by {
            if k < b.len() {
                assert((b + t)[k] == b[k]);
                if kept_verbatim(line) || cols(line) <= MAX_LINE_WIDTH {
                    assert(b[k] == line);
                } else {
                    assert(b == wrap_run(line, seq![]));
                    assert(short_ascii_piece(b[k]));
                    assert forall|j: int| 0 <= j < b[k].len() implies printable_ascii(#[trigger] b[k][j]) by {
                        assert(unit_ascii(b[k][j]));
                    }
                }
            } else {
                assert((b + t)[k] == t[k - b.len()]);
            }
        }
    }
}

/// The lines of a text of printable ASCII characters and line feeds are
/// printable ASCII.
pub proof fn lemma_lines_ascii(s: Seq<char>)
    requires
        forall|j: int| 0 <= j < s.len() ==> #[trigger] s[j] == '\n' || printable_ascii(s[j]),
    ensures
        forall|i: int| 0 <= i < lines_of(s).len() ==> ascii_line(#[trigger] lines_of(s)[i]),
    decreases s.len(),
{
    if s.len() > 0 {
        let k = index_of(s, '\n') as int;
        lemma_index_of_bound(s, '\n');
        let x = s.take(k);
        assert forall|j: int| 0 <= j < x.len() implies printable_ascii(#[trigger] x[j]) by {
            assert(x[j] == s[j]);
            assert(s[j] != '\n');
        }
        if k < s.len() {
            assert forall|j: int| 0 <= j < s.skip(k + 1).len() implies #[trigger] s.skip(k + 1)[j] == '\n'
                || printable_ascii(s.skip(k + 1)[j]) by {
                assert(s.skip(k + 1)[j] == s[j + k + 1]);
            }
            lemma_lines_ascii(s.skip(k + 1));
            let first = strip_cr(x);
            assert(ascii_line(first)) by {
                if x.len() > 0 && x.last() == '\r' {
                    assert(printable_ascii(x[x.len() - 1]));
                }
            }
            let ls = lines_of(s);
            assert(ls == seq![first] + lines_of(s.skip(k + 1)));
            assert forall|i: int| 0 <= i < ls.len() implies ascii_line(#[trigger] ls[i]) by {
                if i == 0 {
                    assert(ls[0] == first);
                } else {
                    assert(ls[i] == lines_of(s.skip(k + 1))[i - 1]);
                }
            }
        } else {
            assert(x == s);
            assert(lines_of(s) == seq![s]);
        }
    }
}

/// On text made of line feeds and printable ASCII characters, where every
/// character of a line other than a control or blank line takes one column,
/// every line of the broken text other than a control or blank line is at
/// most `MAX_LINE_WIDTH` characters long.
pub proof fn lemma_break_ascii_within_limit(roff: Seq<char>)
    requires
        forall|j: int| 0 <= j < roff.len() ==> #[trigger] roff[j] == '\n' || printable_ascii(roff[j]),
        forall|i: int|
            0 <= i < lines_of(roff).len() && !kept_verbatim(#[trigger] lines_of(roff)[i])
                ==> all_unit_ascii(lines_of(roff)[i]),
    ensures
        forall|k: int|
            0 <= k < lines_of(break_spec(roff)).len() && !kept_verbatim(
                #[trigger] lines_of(break_spec(roff))[k],
            ) ==> lines_of(break_spec(roff))[k].len() <= MAX_LINE_WIDTH,
{
    let ls = lines_of(roff);
    lemma_lines_ascii(roff);
    lemma_break_lines_ascii(ls);
    let out = break_lines(ls);
    assert forall|i: int| 0 <= i < out.len() implies plain_line(#[trigger] out[i]) by {
        assert(ascii_line(out[i]));
        assert forall|j: int| 0 <= j < out[i].len() implies out[i][j] != '\n' by {
            assert(printable_ascii(out[i][j]));
        }
        if out[i].len() > 0 {
            assert(printable_ascii(out[i][out[i].len() - 1]));
        }
    }
    lemma_lines_of_join(out);
}

/// Every line that no-adjust insertion gives back is the `.na` directive or
/// one of the input lines.
pub proof fn lemma_na_lines_from(ls: Seq<Seq<char>>, th_seen: bool)
    ensures
        forall|i: int|
            0 <= i < na_lines(ls, th_seen).len() ==> #[trigger] na_lines(ls, th_seen)[i]
                == na_directive() || ls.contains(na_lines(ls, th_seen)[i]),
    decreases ls.len(),
{
    let o = na_lines(ls, th_seen);
    let d = na_directive();
    if ls.len() == 0 {
        lemma_na_lines_first(ls, th_seen);
        return;
    }
    let line = ls[0];
    let rest = ls.drop_first();
    let k = leading_na_count(rest) as int;
    lemma_leading_na(rest);
    let (s, a, th2, off) = if !th_seen && th_line(line) {
        (seq![line] + na_unless_present(rest), rest, true, 1int)
    } else if paragraph_macro(line) {
        if tag_next_line_macro(line) && k < rest.len() {
            (seq![line, rest[k]] + na_unless_present(rest.skip(k + 1)), rest.skip(k + 1), th_seen, k
                + 2)
        } else {
            (seq![line] + na_unless_present(rest), rest, th_seen, 1int)
        }
    } else {
        (seq![line], rest, th_seen, 1int)
    };
    lemma_na_lines_from(a, th2);
    let t = na_lines(a, th2);
    assert(o == s + t) by {
        reveal(na_lines);
    }
    assert forall|i: int| 0 <= i < o.len() implies #[trigger] o[i] == d || ls.contains(o[i]) by {
        if i >= s.len() {
            assert(o[i] == t[i - s.len()]);
            if t[i - s.len()] != d {
                let j = choose|j: int| 0 <= j < a.len() && a[j] == t[i - s.len()];
                assert(a[j] == ls[j + off]);
            }
        } else if i == 0 {
            assert(o[0] == ls[0]);
        } else if s.len() > 1 && s[1] != d && i == 1 {
            assert(o[1] == rest[k]);
            assert(rest[k] == ls[k + 1]);
        } else {
            assert(o[i] == d);
        }
    }
}

/// `join_lines` ends every line, the last one included, with a line feed.
pub proof fn lemma_join_ends_with_newline(ls: Seq<Seq<char>>)
    ensures
        join_lines(ls).len() == 0 || join_lines(ls).last() == '\n',
{
    if ls.len() > 0 {
        let j = join_lines(ls);
        assert(j == join_lines(ls.drop_last()) + ls.last() + seq!['\n']);
    }
}

/// Dropping a final carriage return leaves the trimmed line as it was.
pub proof fn lemma_trim_strip_cr(l: Seq<char>)
    ensures
        trim(strip_cr(l)) == trim(l),
{
    if l.len() > 0 && l.last() == '\r' {
        let d = l.drop_last();
        lemma_ws_prefix_len_bound(l);
        let p = ws_prefix_len(l) as int;
        if p < l.len() {
            assert(p < d.len()) by {
                if p == d.len() {
                    assert(l[p] == '\r');
                }
            }
            assert forall|j: int| 0 <= j < p implies is_ws(#[trigger] d[j]) by {
                assert(d[j] == l[j]);
            }
            assert(d[p] == l[p]);
            lemma_ws_prefix_len_is(d, p);
            let x = d.skip(p);
            assert(l.skip(p) == x.push('\r'));
            assert(x.push('\r').drop_last() == x);
            assert(is_ws(x.push('\r').last()));
            assert(ws_suffix_len(x.push('\r')) == 1 + ws_suffix_len(x));
            lemma_ws_suffix_len_bound(x);
            assert(trim_end(x.push('\r')) =~= trim_end(x));
        } else {
            assert forall|j: int| 0 <= j < d.len() implies is_ws(#[trigger] d[j]) by {
                assert(d[j] == l[j]);
            }
            lemma_ws_prefix_len_is(d, d.len() as int);
            assert(l.skip(p) =~= Seq::<char>::empty());
            assert(d.skip(d.len() as int) =~= Seq::<char>::empty());
        }
    }
}

/// Each line with a final carriage return dropped.
pub open spec fn strip_crs(ls: Seq<Seq<char>>) -> Seq<Seq<char>> {
    Seq::new(ls.len(), |i: int| strip_cr(ls[i]))
}

/// Splitting joined lines gives them back, each without a final carriage return.
pub proof fn lemma_lines_of_join_cr(ls: Seq<Seq<char>>)
    requires
        forall|i: int| 0 <= i < ls.len() ==> no_newline(#[trigger] ls[i]),
    ensures
        lines_of(join_lines(ls)) == strip_crs(ls),
    decreases ls.len(),
{
    if ls.len() == 0 {
        assert(join_lines(ls) == Seq::<char>::empty());
        assert(strip_crs(ls) =~= Seq::<Seq<char>>::empty());
        return;
    }
    let x = ls[0];
    let rest = ls.drop_first();
    assert forall|i: int| 0 <= i < rest.len() implies no_newline(#[trigger] rest[i]) by {
        assert(rest[i] == ls[i + 1]);
    }
    lemma_lines_of_join_cr(rest);
    assert(no_newline(ls[0]));
    assert(ls == seq![x] + rest);
    lemma_join_concat(seq![x], rest);
    assert(seq![x].drop_last() == Seq::<Seq<char>>::empty());
    assert(join_lines(Seq::<Seq<char>>::empty()) == Seq::<char>::empty());
    assert(join_lines(seq![x]) == x + seq!['\n']);
    let j = join_lines(ls);
    assert(j == x + seq!['\n'] + join_lines(rest));
    assert forall|m: int| 0 <= m < x.len() implies j[m] != '\n' by {
        assert(j[m] == x[m]);
    }
    assert(j[x.len() as int] == '\n');
    lemma_index_of_is(j, '\n', x.len() as int);
    assert(j.take(x.len() as int) == x);
    assert(j.skip(x.len() + 1 as int) == join_lines(rest));
    assert(strip_crs(ls) =~= seq![strip_cr(x)] + strip_crs(rest));
}

/// Removing no-adjust lines commutes with dropping final carriage returns
/// when only no-adjust lines end with one.
pub proof fn lemma_without_na_strip_crs(ls: Seq<Seq<char>>)
    requires
        forall|i: int|
            0 <= i < ls.len() && (#[trigger] ls[i]).len() > 0 && ls[i].last() == '\r' ==> na_line(
                ls[i],
            ),
    ensures
        without_na(strip_crs(ls)) == without_na(ls),
    decreases ls.len(),
{
    if ls.len() > 0 {
        let rest = ls.drop_first();
        assert forall|i: int|
            0 <= i < rest.len() && (#[trigger] rest[i]).len() > 0 && rest[i].last() == '\r'
                implies na_line(rest[i]) by {
            assert(rest[i] == ls[i + 1]);
        }
        lemma_without_na_strip_crs(rest);
        assert(strip_crs(ls).drop_first() =~= strip_crs(rest));
        assert(strip_crs(ls)[0] == strip_cr(ls[0]));
        lemma_trim_strip_cr(ls[0]);
        assert(na_line(strip_cr(ls[0])) == na_line(ls[0])) by {
            reveal(na_line);
        }
        if !na_line(ls[0]) {
            assert(strip_cr(ls[0]) == ls[0]);
        }
    }
}

/// The pages on which the text-level laws of no-adjust insertion hold: every
/// output line that ends with a carriage return is a no-adjust directive that,
/// without the carriage return, is `.na` or an input line.
pub open spec fn cr_endings_harmless(out: Seq<Seq<char>>, input: Seq<Seq<char>>) -> bool {
    forall|i: int|
        0 <= i < out.len() && (#[trigger] out[i]).len() > 0 && out[i].last() == '\r' ==> na_line(
            out[i],
        ) && (strip_cr(out[i]) == na_directive() || input.contains(strip_cr(out[i])))
}

/// Over the text: the lines of the result other than no-adjust directives are
/// those of the input; each no-adjust line of the result is `.na` or an input
/// line; and the result is empty or ends with a line feed.  A line with a final
/// carriage return loses it when the result is split into lines again, so the
/// premise asks only that such a line be a no-adjust directive that stays `.na`
/// or an input line without it (it holds of `.na\r`, not of `a\r`).
pub proof fn law_insert_no_adjust_text(s: Seq<char>)
    requires
        cr_endings_harmless(na_lines(lines_of(s), false), lines_of(s)),
    ensures
        without_na(lines_of(insert_no_adjust_spec(s))) == without_na(lines_of(s)),
        forall|i: int|
            0 <= i < lines_of(insert_no_adjust_spec(s)).len() && na_line(
                #[trigger] lines_of(insert_no_adjust_spec(s))[i],
            ) ==> lines_of(insert_no_adjust_spec(s))[i] == na_directive() || lines_of(s).contains(
                lines_of(insert_no_adjust_spec(s))[i],
            ),
        insert_no_adjust_spec(s).len() == 0 || insert_no_adjust_spec(s).last() == '\n',
{
    let ls = lines_of(s);
    let o = na_lines(ls, false);
    lemma_lines_have_no_newline(s);
    assert forall|i: int| 0 <= i < ls.len() implies no_newline(#[trigger] ls[i]) by {
        assert forall|j: int| 0 <= j < ls[i].len() implies ls[i][j] != '\n' by {
            assert(lines_of(s)[i][j] != '\n');
        }
    }
    lemma_na_lines_no_newline(ls, false);
    lemma_lines_of_join_cr(o);
    law_insert_keeps_other_lines(ls, false);
    lemma_without_na_strip_crs(o);
    lemma_na_lines_from(ls, false);
    lemma_join_ends_with_newline(o);
    let r = strip_crs(o);
    assert forall|i: int| 0 <= i < r.len() && na_line(#[trigger] r[i]) implies r[i] == na_directive()
        || ls.contains(r[i]) by {
        assert(r[i] == strip_cr(o[i]));
        if !(o[i].len() > 0 && o[i].last() == '\r') {
            assert(r[i] == o[i]);
        }
    }
}

/// A macro that takes its tag from the next line is a paragraph macro.
pub proof fn lemma_tag_is_paragraph(l: Seq<char>)
    ensures
        tag_next_line_macro(l) ==> paragraph_macro(l),
{
    reveal(tag_next_line_macro);
    reveal(paragraph_macro);
}

/// Some line of `ls` before position `m` is a `.TH` header line.
pub open spec fn th_before(ls: Seq<Seq<char>>, m: int) -> bool {
    exists|j: int| 0 <= j < m && th_line(#[trigger] ls[j])
}

/// Whether no-adjust insertion puts `.na` right after line `i` of `ls`: the
/// first `.TH` line; a paragraph macro with its tag on the same line; a
/// `.TP`/`.HP`/bare `.IP` that is the last line; the tag line after one.
pub open spec fn na_follows(ls: Seq<Seq<char>>, i: int) -> bool {
    ||| th_line(ls[i]) && !th_before(ls, i)
    ||| paragraph_macro(ls[i]) && !tag_next_line_macro(ls[i])
    ||| tag_next_line_macro(ls[i]) && i == ls.len() - 1
    ||| i > 0 && tag_next_line_macro(ls[i - 1])
}

/// Line `i` of `ls`, followed by `.na` where one is due.
pub open spec fn with_na_at(ls: Seq<Seq<char>>, i: int) -> Seq<Seq<char>> {
    if na_follows(ls, i) {
        seq![ls[i], na_directive()]
    } else {
        seq![ls[i]]
    }
}

/// The lines of `ls` from position `m` on, each followed by `.na` where due.
pub open spec fn with_na_from(ls: Seq<Seq<char>>, m: int) -> Seq<Seq<char>>
    decreases ls.len() - m,
{
    if m < 0 || m >= ls.len() {
        seq![]
    } else {
        with_na_at(ls, m) + with_na_from(ls, m + 1)
    }
}

/// Lines with no no-adjust directive, where the tag line after each
/// `.TP`/`.HP`/bare `.IP` is neither a `.TH` line nor a paragraph macro.
pub open spec fn plain_page_lines(ls: Seq<Seq<char>>) -> bool {
    &&& forall|i: int| 0 <= i < ls.len() ==> !na_line(#[trigger] ls[i])
    &&& forall|i: int|
        0 < i < ls.len() && tag_next_line_macro(#[trigger] ls[i - 1]) ==> !th_line(ls[i])
            && !paragraph_macro(ls[i])
}

pub proof fn lemma_na_lines_positional(ls: Seq<Seq<char>>, m: int, th_seen: bool)
    requires
        plain_page_lines(ls),
        0 <= m <= ls.len(),
        m == 0 || m == ls.len() || !tag_next_line_macro(ls[m - 1]),
        th_seen == th_before(ls, m),
    ensures
        na_lines(ls.skip(m), th_seen) == with_na_from(ls, m),
    decreases ls.len() - m,
{
    let d = na_directive();
    if m == ls.len() {
        lemma_na_lines_first(ls.skip(m), th_seen);
        return;
    }
    let sk = ls.skip(m);
    let line = ls[m];
    let rest = sk.drop_first();
    assert(sk[0] == line);
    assert(rest == ls.skip(m + 1));
    lemma_line_kinds(line);
    lemma_tag_is_paragraph(line);
    if rest.len() > 0 {
        assert(rest[0] == ls[m + 1]);
        assert(!na_line(ls[m + 1]));
    }
    assert(na_unless_present(rest) == seq![d]);
    assert(leading_na_count(rest) == 0);
    assert(m > 0 ==> !tag_next_line_macro(ls[m - 1]));
    if !th_seen && th_line(line) {
        assert(na_follows(ls, m));
        assert(th_before(ls, m + 1)) by {
            assert(th_line(ls[m]));
        }
        lemma_na_lines_positional(ls, m + 1, true);
        assert(na_lines(sk, th_seen) == seq![line] + seq![d] + na_lines(rest, true)) by {
            reveal(na_lines);
        }
    } else {
        assert(th_before(ls, m + 1) == th_seen) by {
            if th_before(ls, m + 1) {
                let j = choose|j: int| 0 <= j < m + 1 && th_line(#[trigger] ls[j]);
                if j < m {
                    assert(th_before(ls, m));
                }
            }
            if th_seen {
                let j = choose|j: int| 0 <= j < m && th_line(#[trigger] ls[j]);
                assert(0 <= j < m + 1 && th_line(ls[j]));
            }
        }
        if paragraph_macro(line) {
            if tag_next_line_macro(line) && 0 < rest.len() {
                let after = rest.skip(1);
                assert(after == ls.skip(m + 2));
                let tag = ls[m + 1];
                assert(tag_next_line_macro(ls[(m + 1) - 1]));
                assert(!th_line(tag) && !paragraph_macro(tag));
                lemma_tag_is_paragraph(tag);
                if after.len() > 0 {
                    assert(after[0] == ls[m + 2]);
                    assert(!na_line(ls[m + 2]));
                }
                assert(na_unless_present(after) == seq![d]);
                assert(th_before(ls, m + 2) == th_seen) by {
                    if th_before(ls, m + 2) {
                        let j = choose|j: int| 0 <= j < m + 2 && th_line(#[trigger] ls[j]);
                        if j < m + 1 {
                            assert(th_before(ls, m + 1));
                        }
                    }
                    if th_seen {
                        let j = choose|j: int| 0 <= j < m && th_line(#[trigger] ls[j]);
                        assert(0 <= j < m + 2 && th_line(ls[j]));
                    }
                }
                lemma_na_lines_positional(ls, m + 2, th_seen);
                assert(na_lines(sk, th_seen) == seq![line, rest[0]] + seq![d] + na_lines(after, th_seen))
                    by {
                    reveal(na_lines);
                }
                assert(!na_follows(ls, m));
                assert(na_follows(ls, m + 1));
                assert(with_na_from(ls, m + 1) == with_na_at(ls, m + 1) + with_na_from(ls, m + 2));
                assert(with_na_from(ls, m) == with_na_at(ls, m) + with_na_from(ls, m + 1));
                assert(with_na_at(ls, m) == seq![line]);
                assert(with_na_at(ls, m + 1) == seq![tag, d]);
                assert(seq![line, rest[0]] + seq![d] + with_na_from(ls, m + 2) =~= seq![line] + (seq![
                    tag,
                    d,
                ] + with_na_from(ls, m + 2)));
            } else {
                assert(na_follows(ls, m));
                lemma_na_lines_positional(ls, m + 1, th_seen);
                assert(na_lines(sk, th_seen) == seq![line] + seq![d] + na_lines(rest, th_seen)) by {
                    reveal(na_lines);
                }
            }
        } else {
            assert(!na_follows(ls, m)) by {
                if th_line(line) {
                    assert(th_seen);
                }
            }
            lemma_na_lines_positional(ls, m + 1, th_seen);
            assert(na_lines(sk, th_seen) == seq![line] + na_lines(rest, th_seen)) by {
                reveal(na_lines);
            }
        }
    }
}

/// Joining the lines of a text that ends with a line feed and holds no
/// carriage return gives the text back.
pub proof fn lemma_join_lines_of(s: Seq<char>)
    requires
        s.len() == 0 || s.last() == '\n',
        forall|j: int| 0 <= j < s.len() ==> s[j] != '\r',
    ensures
        join_lines(lines_of(s)) == s,
    decreases s.len(),
{
    if s.len() > 0 {
        let k = index_of(s, '\n') as int;
        lemma_index_of_bound(s, '\n');
        if k >= s.len() {
            assert(s[s.len() - 1] == '\n');
        }
        let x = s.take(k);
        let r = s.skip(k + 1);
        assert forall|j: int| 0 <= j < r.len() implies r[j] != '\r' by {
            assert(r[j] == s[j + k + 1]);
        }
        if r.len() > 0 {
            assert(r.last() == s.last());
        }
        lemma_join_lines_of(r);
        if x.len() > 0 {
            assert(x.last() == s[k - 1]);
        }
        assert(strip_cr(x) == x);
        assert(lines_of(s) == seq![x] + lines_of(r));
        lemma_join_concat(seq![x], lines_of(r));
        assert(seq![x].drop_last() == Seq::<Seq<char>>::empty());
        assert(join_lines(Seq::<Seq<char>>::empty()) == Seq::<char>::empty());
        assert(join_lines(seq![x]) == x + seq!['\n']);
        assert(s == x + seq!['\n'] + r);
    }
}

/// On a page that ends with a line feed, holds no carriage return and no
/// no-adjust directive, and whose `.TP`/`.HP`/bare `.IP` lines are not followed
/// by a `.TH` line or a paragraph macro, the result is the page (the join of
/// its lines) with one `.na` line after: the first `.TH` line; each paragraph
/// macro carrying its tag on its own line; each `.TP`/`.HP`/bare `.IP` that is
/// the last line; and the tag line that follows each other one.
pub proof fn law_insert_no_adjust_positions(roff: Seq<char>)
    requires
        roff.len() == 0 || roff.last() == '\n',
        forall|j: int| 0 <= j < roff.len() ==> roff[j] != '\r',
        plain_page_lines(lines_of(roff)),
    ensures
        join_lines(lines_of(roff)) == roff,
        insert_no_adjust_spec(roff) == join_lines(with_na_from(lines_of(roff), 0)),
{
    let ls = lines_of(roff);
    lemma_join_lines_of(roff);
    assert(ls.skip(0) == ls);
    assert(!th_before(ls, 0));
    lemma_na_lines_positional(ls, 0, false);
}

/// Every character of `s` satisfies `p`.
pub open spec fn all_chars(p: spec_fn(char) -> bool, s: Seq<char>) -> bool {
    forall|j: int| 0 <= j < s.len() ==> p(#[trigger] s[j])
}

pub proof fn lemma_all_chars_parts(p: spec_fn(char) -> bool, s: Seq<char>, k: int)
    requires
        all_chars(p, s),
        0 <= k <= s.len(),
    ensures
        all_chars(p, s.take(k)),
        all_chars(p, s.skip(k)),
        all_chars(p, trim_end(s)),
{
    assert forall|j: int| 0 <= j < s.take(k).len() implies p(#[trigger] s.take(k)[j]) by {
        assert(s.take(k)[j] == s[j]);
    }
    assert forall|j: int| 0 <= j < s.skip(k).len() implies p(#[trigger] s.skip(k)[j]) by {
        assert(s.skip(k)[j] == s[j + k]);
    }
    lemma_ws_suffix_len_bound(s);
    let t = trim_end(s);
    assert forall|j: int| 0 <= j < t.len() implies p(#[trigger] t[j]) by {
        assert(t[j] == s[j]);
    }
}

/// Wrapping keeps every character property that the text and the pending
/// text have: the pieces are made of their characters.
pub proof fn lemma_wrap_run_chars(
    w: spec_fn(char) -> nat,
    p: spec_fn(char) -> bool,
    cs: Seq<char>,
    out: Seq<char>,
)
    requires
        all_chars(p, cs),
        all_chars(p, out),
    ensures
        forall|k: int|
            0 <= k < wrap_run_w(w, cs, out).len() ==> all_chars(p, #[trigger] wrap_run_w(w, cs, out)[k]),
    decreases cs.len(),
{
    if cs.len() == 0 {
        if out.len() > 0 {
            lemma_all_chars_parts(p, out, 0);
            assert(wrap_run_w(w, cs, out)[0] == trim_end(out));
        }
    } else {
        let ch = cs[0];
        let o = out.push(ch);
        assert(p(cs[0]));
        assert forall|j: int| 0 <= j < o.len() implies p(#[trigger] o[j]) by {
            if j < out.len() {
                assert(o[j] == out[j]);
            }
        }
        let (em, o2) = wrap_step_w(w, out, ch);
        let lb = last_break(o) as int;
        lemma_last_break(o);
        lemma_all_chars_parts(p, o, lb);
        lemma_all_chars_parts(p, o, o.len() - 1);
        lemma_all_chars_parts(p, o.take(lb), 0);
        lemma_all_chars_parts(p, o.take(o.len() - 1), 0);
        assert(forall|k: int| 0 <= k < em.len() ==> all_chars(p, #[trigger] em[k]));
        assert(all_chars(p, o2));
        assert forall|j: int| 0 <= j < cs.drop_first().len() implies p(#[trigger] cs.drop_first()[j]) by {
            assert(cs.drop_first()[j] == cs[j + 1]);
        }
        lemma_wrap_run_chars(w, p, cs.drop_first(), o2);
        let r = wrap_run_w(w, cs.drop_first(), o2);
        assert(wrap_run_w(w, cs, out) == em + r);
        assert forall|k: int| 0 <= k < (em + r).len() implies all_chars(p, #[trigger] (em + r)[k]) by {
            if k < em.len() {
                assert((em + r)[k] == em[k]);
            } else {
                assert((em + r)[k] == r[k - em.len()]);
            }
        }
    }
}

/// A character other than a line feed.
pub open spec fn not_newline_fn() -> spec_fn(char) -> bool {
    |c: char| c != '\n'
}

/// Broken lines hold no line feed when the input lines hold none; every one
/// that is not a control or blank line is at most `MAX_LINE_WIDTH + 6` columns
/// wide when the pieces of each such input line are.
pub proof fn lemma_break_lines_shape(ls: Seq<Seq<char>>)
    requires
        forall|i: int| 0 <= i < ls.len() ==> no_newline(#[trigger] ls[i]),
        forall|i: int|
            0 <= i < ls.len() && !kept_verbatim(#[trigger] ls[i]) ==> pieces_within(
                break_line(ls[i]),
                MAX_LINE_WIDTH + 6,
            ),
    ensures
        forall|k: int| 0 <= k < break_lines(ls).len() ==> no_newline(#[trigger] break_lines(ls)[k]),
        forall|k: int|
            0 <= k < break_lines(ls).len() && !kept_verbatim(#[trigger] break_lines(ls)[k])
                ==> cols(break_lines(ls)[k]) <= MAX_LINE_WIDTH + 6,
    decreases ls.len(),
{
    if ls.len() > 0 {
        let line = ls[0];
        let rest = ls.drop_first();
        assert forall|i: int| 0 <= i < rest.len() implies no_newline(#[trigger] rest[i]) by {
            assert(rest[i] == ls[i + 1]);
        }
        assert forall|i: int| 0 <= i < rest.len() && !kept_verbatim(#[trigger] rest[i]) implies pieces_within(
            break_line(rest[i]),
            MAX_LINE_WIDTH + 6,
        ) by {
            assert(rest[i] == ls[i + 1]);
        }
        lemma_break_lines_shape(rest);
        let b = break_line(line);
        let t = break_lines(rest);
        let p = not_newline_fn();
        assert(no_newline(line));
        assert(all_chars(p, line));
        if !(kept_verbatim(line) || cols(line) <= MAX_LINE_WIDTH) {
            lemma_wrap_run_chars(char_cols_fn(), p, line, seq![]);
            assert(b == wrap_run_w(char_cols_fn(), line, seq![]));
        }
        assert(break_lines(ls) == b + t);
        assert forall|k: int| 0 <= k < (b + t).len() implies no_newline(#[trigger] (b + t)[k]) && (
        !kept_verbatim((b + t)[k]) ==> cols((b + t)[k]) <= MAX_LINE_WIDTH + 6) by {
            if k < b.len() {
                assert((b + t)[k] == b[k]);
                if kept_verbatim(line) || cols(line) <= MAX_LINE_WIDTH {
                    assert(b[k] == line);
                } else {
                    assert(all_chars(p, b[k]));
                    assert forall|j: int| 0 <= j < b[k].len() implies b[k][j] != '\n' by {
                        assert(p(b[k][j]));
                    }
                    assert(!kept_verbatim(line));
                    assert(cols(b[k]) <= MAX_LINE_WIDTH + 6);
                }
            } else {
                assert((b + t)[k] == t[k - b.len()]);
            }
        }
    }
}

/// Dropping a final carriage return narrows a line and keeps its kind.
pub proof fn lemma_strip_cr_narrows(l: Seq<char>)
    ensures
        cols(strip_cr(l)) <= cols(l),
        kept_verbatim(strip_cr(l)) == kept_verbatim(l),
{
    lemma_trim_strip_cr(l);
    if l.len() > 0 && l.last() == '\r' {
        crate::translator::lemma_cols_split(char_cols_fn(), l, l.len() - 1);
        assert(l.take(l.len() - 1) == l.drop_last());
    }
}

/// The lines of broken text: no line other than a control or blank line is
/// wider than `MAX_LINE_WIDTH + 6` columns, when the pieces of each input
/// line other than a control or blank line are within that width.
pub proof fn lemma_broken_text_lines(roff: Seq<char>)
    requires
        forall|i: int|
            0 <= i < lines_of(roff).len() && !kept_verbatim(#[trigger] lines_of(roff)[i])
                ==> pieces_within(break_line(lines_of(roff)[i]), MAX_LINE_WIDTH + 6),
    ensures
        forall|k: int|
            0 <= k < lines_of(break_spec(roff)).len() && !kept_verbatim(
                #[trigger] lines_of(break_spec(roff))[k],
            ) ==> cols(lines_of(break_spec(roff))[k]) <= MAX_LINE_WIDTH + 6,
{
    let ls = lines_of(roff);
    lemma_lines_have_no_newline(roff);
    assert forall|i: int| 0 <= i < ls.len() implies no_newline(#[trigger] ls[i]) by {
        assert forall|j: int| 0 <= j < ls[i].len() implies ls[i][j] != '\n' by {
            assert(lines_of(roff)[i][j] != '\n');
        }
    }
    lemma_break_lines_shape(ls);
    let o = break_lines(ls);
    lemma_lines_of_join_cr(o);
    let r = strip_crs(o);
    assert forall|k: int| 0 <= k < r.len() && !kept_verbatim(#[trigger] r[k]) implies cols(r[k])
        <= MAX_LINE_WIDTH + 6 by {
        lemma_strip_cr_narrows(o[k]);
    }
}

/// A line cut where it may be: when it holds a break point before its last
/// character, the line without its last character fits in `MAX_LINE_WIDTH`
/// columns (each character `c` taking `w(c)`).
pub open spec fn cut_well(w: spec_fn(char) -> nat, p: Seq<char>) -> bool {
    (exists|j: int| 0 <= j < p.len() - 1 && break_point(#[trigger] p[j])) ==> cols_w(
        w,
        p.drop_last(),
    ) <= MAX_LINE_WIDTH
}

/// Pending text wider than the limit holds no break point.
pub open spec fn pending_ok(w: spec_fn(char) -> nat, out: Seq<char>) -> bool {
    cols_w(w, out) > MAX_LINE_WIDTH ==> forall|j: int| 0 <= j < out.len() ==> !break_point(#[trigger] out[j])
}

pub proof fn lemma_cols_prefix(w: spec_fn(char) -> nat, s: Seq<char>, k: int)
    requires
        0 <= k <= s.len(),
    ensures
        cols_w(w, s.take(k)) <= cols_w(w, s),
{
    crate::translator::lemma_cols_split(w, s, k);
}

/// A prefix `x` of pending text `out` that holds a break point, with its
/// trailing blanks dropped, is cut well.
pub proof fn lemma_cut_well_prefix(w: spec_fn(char) -> nat, out: Seq<char>, x: Seq<char>)
    requires
        pending_ok(w, out),
        x.len() <= out.len(),
        x == out.take(x.len() as int),
    ensures
        cut_well(w, trim_end(x)),
{
    let t = trim_end(x);
    lemma_ws_suffix_len_bound(x);
    if exists|j: int| 0 <= j < t.len() - 1 && break_point(#[trigger] t[j]) {
        let j = choose|j: int| 0 <= j < t.len() - 1 && break_point(#[trigger] t[j]);
        assert(t[j] == out[j]);
        assert(cols_w(w, out) <= MAX_LINE_WIDTH);
        assert(t.drop_last() == out.take(t.len() - 1));
        lemma_cols_prefix(w, out, t.len() - 1);
    }
}

/// Every piece of wrapping is cut well when the pending text starts out well.
pub proof fn lemma_wrap_run_cut_well(w: spec_fn(char) -> nat, cs: Seq<char>, out: Seq<char>)
    requires
        pending_ok(w, out),
    ensures
        forall|k: int| 0 <= k < wrap_run_w(w, cs, out).len() ==> cut_well(w, #[trigger] wrap_run_w(w, cs, out)[k]),
    decreases cs.len(),
{
    if cs.len() == 0 {
        if out.len() > 0 {
            assert(out.take(out.len() as int) == out);
            lemma_cut_well_prefix(w, out, out);
            assert(wrap_run_w(w, cs, out)[0] == trim_end(out));
        }
    } else {
        let ch = cs[0];
        let o = out.push(ch);
        let (em, o2) = wrap_step_w(w, out, ch);
        let lb = last_break(o) as int;
        lemma_last_break(o);
        if cols_w(w, o) > MAX_LINE_WIDTH {
            if lb > 0 {
                let x = o.take(lb);
                if lb < o.len() {
                    assert(x == out.take(lb));
                    lemma_cut_well_prefix(w, out, x);
                } else {
                    let t = trim_end(o);
                    lemma_ws_suffix_len_bound(o);
                    assert(x == o);
                    if exists|j: int| 0 <= j < t.len() - 1 && break_point(#[trigger] t[j]) {
                        let j = choose|j: int| 0 <= j < t.len() - 1 && break_point(#[trigger] t[j]);
                        assert(t[j] == out[j]);
                        assert(cols_w(w, out) <= MAX_LINE_WIDTH);
                        assert(t.drop_last() == out.take(t.len() - 1));
                        lemma_cols_prefix(w, out, t.len() - 1);
                    }
                    assert(cut_well(w, t));
                }
                if trim_end(x).len() > 0 {
                    assert(em[0] == trim_end(x));
                }
                assert forall|j: int| 0 <= j < o2.len() implies !break_point(#[trigger] o2[j]) by {
                    assert(o2[j] == o[lb + j]);
                }
            } else if o.len() - 1 > 0 {
                let x = o.take(o.len() - 1);
                assert(x == out);
                assert(out.take(out.len() as int) == out);
                lemma_cut_well_prefix(w, out, x);
                if trim_end(x).len() > 0 {
                    assert(em[0] == trim_end(x));
                }
                assert(o2 == seq![ch]);
                assert(!break_point(o[o.len() - 1]));
            } else {
                assert forall|j: int| 0 <= j < o2.len() implies !break_point(#[trigger] o2[j]) by {}
            }
        }
        assert(pending_ok(w, o2));
        assert(forall|k: int| 0 <= k < em.len() ==> cut_well(w, #[trigger] em[k]));
        lemma_wrap_run_cut_well(w, cs.drop_first(), o2);
        let r = wrap_run_w(w, cs.drop_first(), o2);
        assert(wrap_run_w(w, cs, out) == em + r);
        assert forall|k: int| 0 <= k < (em + r).len() implies cut_well(w, #[trigger] (em + r)[k]) by {
            if k < em.len() {
                assert((em + r)[k] == em[k]);
            } else {
                assert((em + r)[k] == r[k - em.len()]);
            }
        }
    }
}

/// Broken lines hold no line feed when the input lines hold none, and every
/// one that is not a control or blank line is cut well.
pub proof fn lemma_break_lines_cut_well(ls: Seq<Seq<char>>)
    requires
        forall|i: int| 0 <= i < ls.len() ==> no_newline(#[trigger] ls[i]),
    ensures
        forall|k: int| 0 <= k < break_lines(ls).len() ==> no_newline(#[trigger] break_lines(ls)[k]),
        forall|k: int|
            0 <= k < break_lines(ls).len() && !kept_verbatim(#[trigger] break_lines(ls)[k])
                ==> cut_well(char_cols_fn(), break_lines(ls)[k]),
    decreases ls.len(),
{
    if ls.len() > 0 {
        let w = char_cols_fn();
        let line = ls[0];
        let rest = ls.drop_first();
        assert forall|i: int| 0 <= i < rest.len() implies no_newline(#[trigger] rest[i]) by {
            assert(rest[i] == ls[i + 1]);
        }
        lemma_break_lines_cut_well(rest);
        let b = break_line(line);
        let t = break_lines(rest);
        let p = not_newline_fn();
        assert(no_newline(line));
        assert(all_chars(p, line));
        if !(kept_verbatim(line) || cols(line) <= MAX_LINE_WIDTH) {
            lemma_wrap_run_chars(w, p, line, seq![]);
            lemma_wrap_run_cut_well(w, line, seq![]);
            assert(b == wrap_run_w(w, line, seq![]));
        } else if !kept_verbatim(line) {
            if line.len() > 0 {
                lemma_cols_prefix(w, line, line.len() - 1);
                assert(line.drop_last() == line.take(line.len() - 1));
            }
        }
        assert(break_lines(ls) == b + t);
        assert forall|k: int| 0 <= k < (b + t).len() implies no_newline(#[trigger] (b + t)[k]) && (
        !kept_verbatim((b + t)[k]) ==> cut_well(w, (b + t)[k])) by {
            if k < b.len() {
                assert((b + t)[k] == b[k]);
                if kept_verbatim(line) || cols(line) <= MAX_LINE_WIDTH {
                    assert(b[k] == line);
                } else {
                    assert(all_chars(p, b[k]));
                    assert forall|j: int| 0 <= j < b[k].len() implies b[k][j] != '\n' by {
                        assert(p(b[k][j]));
                    }
                }
            } else {
                assert((b + t)[k] == t[k - b.len()]);
            }
        }
    }
}

/// Every line of broken text other than a control or blank line is cut well.
pub proof fn lemma_broken_text_cut_well(roff: Seq<char>)
    ensures
        forall|k: int|
            0 <= k < lines_of(break_spec(roff)).len() && !kept_verbatim(
                #[trigger] lines_of(break_spec(roff))[k],
            ) ==> cut_well(char_cols_fn(), lines_of(break_spec(roff))[k]),
{
    let w = char_cols_fn();
    let ls = lines_of(roff);
    lemma_lines_have_no_newline(roff);
    assert forall|i: int| 0 <= i < ls.len() implies no_newline(#[trigger] ls[i]) by {
        assert forall|j: int| 0 <= j < ls[i].len() implies ls[i][j] != '\n' by {
            assert(lines_of(roff)[i][j] != '\n');
        }
    }
    lemma_break_lines_cut_well(ls);
    let o = break_lines(ls);
    lemma_lines_of_join_cr(o);
    let r = strip_crs(o);
    assert forall|k: int| 0 <= k < r.len() && !kept_verbatim(#[trigger] r[k]) implies cut_well(w, r[k]) by {
        let l = o[k];
        lemma_strip_cr_narrows(l);
        assert(r[k] == strip_cr(l));
        if l.len() > 0 && l.last() == '\r' {
            let t = l.drop_last();
            if exists|j: int| 0 <= j < t.len() - 1 && break_point(#[trigger] t[j]) {
                let j = choose|j: int| 0 <= j < t.len() - 1 && break_point(#[trigger] t[j]);
                assert(l[j] == t[j]);
                assert(cols_w(w, l.drop_last()) <= MAX_LINE_WIDTH);
                assert(t.drop_last() == t.take(t.len() - 1));
                lemma_cols_prefix(w, t, t.len() - 1);
            }
        }
    }
}

} // verus!
