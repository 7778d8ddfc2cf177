use vstd::prelude::*;

use crate::text::{
    append_chars, chars_of, eq_chars, lines_of, push_char, split_lines, starts_with,
    starts_with_chars, string_of, string_views, subvec, to_ascii_lower, to_ascii_lower_exec, trim,
    trim_vec, views,
};

verus! {

/// `woman model ...` or `woman --model ...`.
pub open spec fn model_invocation(args: Seq<Seq<char>>) -> bool {
    args.len() > 1 && (args[1] == seq!['m', 'o', 'd', 'e', 'l'] || args[1] == seq![
        '-',
        '-',
        'm',
        'o',
        'd',
        'e',
        'l',
    ])
}

/// Whether the command line asks for the model subcommands.
pub fn is_model_invocation(args: &[String]) -> (r: bool)
    ensures
        r == model_invocation(string_views(args@)),
{
    if args.len() <= 1 {
        return false;
    }
    let a = chars_of(args[1].as_str());
    eq_chars(&a, &['m', 'o', 'd', 'e', 'l']) || eq_chars(&a, &['-', '-', 'm', 'o', 'd', 'e', 'l'])
}

/// The `woman model` subcommands.
pub enum ModelCommand {
    List,
    Show,
    SetModel,
    SetKey,
    SetUrl,
    SetThinking,
    SetEffort,
    Help,
}

/// The subcommand that `woman model <sub>` names (help when none or unknown).
pub open spec fn model_command_of(args: Seq<Seq<char>>) -> ModelCommand {
    if args.len() <= 2 {
        ModelCommand::Help
    } else {
        let s = args[2];
        if s == seq!['l', 'i', 's', 't'] {
            ModelCommand::List
        } else if s == seq!['s', 'h', 'o', 'w'] {
            ModelCommand::Show
        } else if s == seq!['s', 'e', 't', '-', 'm', 'o', 'd', 'e', 'l'] {
            ModelCommand::SetModel
        } else if s == seq!['s', 'e', 't', '-', 'k', 'e', 'y'] {
            ModelCommand::SetKey
        } else if s == seq!['s', 'e', 't', '-', 'u', 'r', 'l'] {
            ModelCommand::SetUrl
        } else if s == seq!['s', 'e', 't', '-', 't', 'h', 'i', 'n', 'k', 'i', 'n', 'g'] {
            ModelCommand::SetThinking
        } else if s == seq!['s', 'e', 't', '-', 'e', 'f', 'f', 'o', 'r', 't'] {
            ModelCommand::SetEffort
        } else {
            ModelCommand::Help
        }
    }
}

/// Which `woman model` subcommand to run for the command line `args`
/// (`args[2]`; help when it is missing or unknown).
pub fn handle_model_subcommand(args: &[String]) -> (r: ModelCommand)
    ensures
        r == model_command_of(string_views(args@)),
{
    if args.len() <= 2 {
        return ModelCommand::Help;
    }
    let s = chars_of(args[2].as_str());
    if eq_chars(&s, &['l', 'i', 's', 't']) {
        ModelCommand::List
    } else if eq_chars(&s, &['s', 'h', 'o', 'w']) {
        ModelCommand::Show
    } else if eq_chars(&s, &['s', 'e', 't', '-', 'm', 'o', 'd', 'e', 'l']) {
        ModelCommand::SetModel
    } else if eq_chars(&s, &['s', 'e', 't', '-', 'k', 'e', 'y']) {
        ModelCommand::SetKey
    } else if eq_chars(&s, &['s', 'e', 't', '-', 'u', 'r', 'l']) {
        ModelCommand::SetUrl
    } else if eq_chars(&s, &['s', 'e', 't', '-', 't', 'h', 'i', 'n', 'k', 'i', 'n', 'g']) {
        ModelCommand::SetThinking
    } else if eq_chars(&s, &['s', 'e', 't', '-', 'e', 'f', 'f', 'o', 'r', 't']) {
        ModelCommand::SetEffort
    } else {
        ModelCommand::Help
    }
}

/// Eight bullets (U+2022).
pub open spec fn bullets() -> Seq<char> {
    Seq::new(8, |i: int| '\u{2022}')
}

/// The masked form of an API key shown by `woman model show`.
pub open spec fn masked_key(key: Seq<char>) -> Seq<char> {
    if key.len() == 0 {
        "<not set>"@
    } else if key.len() > 8 {
        key.take(3) + bullets() + key.skip(key.len() - 4)
    } else {
        bullets()
    }
}

/// Mask an API key: `<not set>` when empty; when longer than eight characters,
/// its first three (the `sk-` of a DeepSeek key) and last four characters around
/// eight bullets, as in `sk-••••••••abcd`; else bullets only.
pub fn mask_api_key(key: &str) -> (r: String)
    ensures
        r@ == masked_key(key@),
{
    let chars = chars_of(key);
    if chars.len() == 0 {
        return String::from_str("<not set>");
    }
    let mut dots = String::new();
    let mut k: usize = 0;
    while k < 8
        invariant
            k <= 8,
            dots@ == Seq::new(k as nat, |i: int| '\u{2022}'),
        decreases 8 - k,
    {
        push_char(&mut dots, '\u{2022}');
        assert(Seq::new((k + 1) as nat, |i: int| '\u{2022}') == Seq::new(k as nat, |i: int| '\u{2022}').push('\u{2022}'));
        k += 1;
    }
    assert(dots@ == bullets());
    if chars.len() > 8 {
        let mut r = string_of(&subvec(&chars, 0, 3));
        r.append(dots.as_str());
        append_chars(&mut r, &subvec(&chars, chars.len() - 4, chars.len()));
        assert(chars@.subrange(0, 3) == key@.take(3));
        assert(chars@.subrange(chars@.len() - 4, chars@.len() as int) == key@.skip(key@.len() - 4));
        r
    } else {
        dots
    }
}

/// `set-thinking` accepts `enabled` or `disabled`, ignoring ASCII case.
pub open spec fn thinking_value(v: Seq<char>) -> Option<Seq<char>> {
    let l = to_ascii_lower(v);
    if l == "enabled"@ || l == "disabled"@ {
        Some(l)
    } else {
        None
    }
}

/// The thinking mode to store for `woman model set-thinking <value>`, or
/// `None` when the value is neither `enabled` nor `disabled`.
pub fn parse_thinking_value(value: &str) -> (r: Option<String>)
    ensures
        match r {
            Some(s) => thinking_value(value@) == Some(s@),
            None => thinking_value(value@) is None,
        },
{
    let l = to_ascii_lower_exec(&chars_of(value));
    let enabled = ['e', 'n', 'a', 'b', 'l', 'e', 'd'];
    let disabled = ['d', 'i', 's', 'a', 'b', 'l', 'e', 'd'];
    proof {
        reveal_strlit("enabled");
        reveal_strlit("disabled");
    }
    assert(enabled@ == "enabled"@);
    assert(disabled@ == "disabled"@);
    if eq_chars(&l, &enabled) || eq_chars(&l, &disabled) {
        Some(string_of(&l))
    } else {
        None
    }
}

/// `set-effort` accepts `low`, `high` or `max`, ignoring ASCII case.
pub open spec fn effort_value(v: Seq<char>) -> Option<Seq<char>> {
    let l = to_ascii_lower(v);
    if l == "low"@ || l == "high"@ || l == "max"@ {
        Some(l)
    } else {
        None
    }
}

/// The reasoning effort to store for `woman model set-effort <value>`, or
/// `None` when the value is not one of `low`, `high`, `max`.
pub fn parse_effort_value(value: &str) -> (r: Option<String>)
    ensures
        match r {
            Some(s) => effort_value(value@) == Some(s@),
            None => effort_value(value@) is None,
        },
{
    let l = to_ascii_lower_exec(&chars_of(value));
    let low = ['l', 'o', 'w'];
    let high = ['h', 'i', 'g', 'h'];
    let max = ['m', 'a', 'x'];
    proof {
        reveal_strlit("low");
        reveal_strlit("high");
        reveal_strlit("max");
    }
    assert(low@ == "low"@);
    assert(high@ == "high"@);
    assert(max@ == "max"@);
    if eq_chars(&l, &low) || eq_chars(&l, &high) || eq_chars(&l, &max) {
        Some(string_of(&l))
    } else {
        None
    }
}

/// `-w`, `--path` or `--where`: options that woman handles itself.
pub open spec fn path_option(a: Seq<char>) -> bool {
    ||| a == seq!['-', 'w']
    ||| a == seq!['-', '-', 'p', 'a', 't', 'h']
    ||| a == seq!['-', '-', 'w', 'h', 'e', 'r', 'e']
}

fn is_path_option(a: &Vec<char>) -> (r: bool)
    ensures
        r == path_option(a@),
{
    eq_chars(a, &['-', 'w']) || eq_chars(a, &['-', '-', 'p', 'a', 't', 'h']) || eq_chars(
        a,
        &['-', '-', 'w', 'h', 'e', 'r', 'e'],
    )
}

/// Whether the arguments ask only for the paths of the pages (`-w`, `--path`, `--where`).
pub fn wants_path_output(args: &[String]) -> (r: bool)
    ensures
        r == exists|i: int| 0 <= i < args@.len() && path_option(#[trigger] args@[i]@),
{
    let mut i: usize = 0;
    while i < args.len()
        invariant
            i <= args@.len(),
            forall|j: int| 0 <= j < i ==> !path_option(#[trigger] args@[j]@),
        decreases args.len() - i,
    {
        if is_path_option(&chars_of(args[i].as_str())) {
            return true;
        }
        i += 1;
    }
    false
}

/// The `MANPATH` that puts fish's man directory first: `<fish>:` (a trailing
/// colon inserts man-db's default search path) or `<fish>:<existing>`.
pub fn compose_manpath(fish_man_dir: &str, existing: &str) -> (r: String)
    ensures
        r@ == fish_man_dir@ + seq![':'] + existing@,
{
    let mut r = String::from_str(fish_man_dir);
    push_char(&mut r, ':');
    r.append(existing);
    r
}

/// The non-empty trimmed lines of `ls`.
pub open spec fn nonblank_trimmed(ls: Seq<Seq<char>>) -> Seq<Seq<char>>
    decreases ls.len(),
{
    if ls.len() == 0 {
        seq![]
    } else if trim(ls[0]).len() > 0 {
        seq![trim(ls[0])] + nonblank_trimmed(ls.drop_first())
    } else {
        nonblank_trimmed(ls.drop_first())
    }
}

/// The page paths printed by `man -w`: its output lines, trimmed, without blank ones.
pub fn man_page_paths(output: &str) -> (r: Vec<String>)
    ensures
        string_views(r@) == nonblank_trimmed(lines_of(output@)),
{
    let lines = split_lines(&chars_of(output));
    let ghost ls = views(lines@);
    let mut r: Vec<String> = Vec::new();
    let mut i: usize = 0;
    assert(ls.skip(0) == ls);
    while i < lines.len()
        invariant
            i <= lines.len(),
            ls == views(lines@),
            ls == lines_of(output@),
            nonblank_trimmed(ls) == string_views(r@) + nonblank_trimmed(ls.skip(i as int)),
        decreases lines.len() - i,
    {
        let ghost cur = ls.skip(i as int);
        assert(cur[0] == lines@[i as int]@);
        assert(cur.drop_first() == ls.skip(i + 1));
        let t = trim_vec(&lines[i]);
        if t.len() > 0 {
            let ghost before = r@;
            r.push(string_of(&t));
            assert(string_views(r@) == string_views(before).push(t@));
        }
        i += 1;
    }
    assert(ls.skip(i as int) == Seq::<Seq<char>>::empty());
    r
}

/// A man-db long option that takes the next argument as its value.
pub open spec fn long_value_option(a: Seq<char>) -> bool {
    ||| a == "--config-file"@
    ||| a == "--encoding"@
    ||| a == "--locale"@
    ||| a == "--manpath"@
    ||| a == "--pager"@
    ||| a == "--preprocessor"@
    ||| a == "--prompt"@
    ||| a == "--recode"@
    ||| a == "--sections"@
    ||| a == "--systems"@
    ||| a == "--troff-device"@
}

/// A man-db short option letter that takes a value: `C E L M P R S T e m p r`.
pub open spec fn short_value_letter(c: char) -> bool {
    c == 'C' || c == 'E' || c == 'L' || c == 'M' || c == 'P' || c == 'R' || c == 'S' || c == 'T'
        || c == 'e' || c == 'm' || c == 'p' || c == 'r'
}

/// The short-option cluster `a` (such as `-P` or `-aP`) ends with an option
/// that takes a value and has none attached: its last letter takes a value and
/// no letter before it does (an earlier value-taking letter has the rest of
/// the word as its value, as in `-Pcat`).
pub open spec fn value_follows(a: Seq<char>) -> bool {
    &&& a.len() >= 2
    &&& short_value_letter(a.last())
    &&& forall|j: int| 1 <= j < a.len() - 1 ==> !short_value_letter(#[trigger] a[j])
}

/// `a` holds an `=`.
pub open spec fn has_equals(a: Seq<char>) -> bool {
    exists|i: int| 0 <= i < a.len() && a[i] == '='
}

/// The arguments of the final `man` call: every flag is kept, with the
/// value that follows a value-taking option; `-w`/`--path`/`--where`, section
/// numbers and page names are dropped.
pub open spec fn man_args_spec(args: Seq<Seq<char>>) -> Seq<Seq<char>>
    decreases args.len(),
{
    if args.len() == 0 {
        seq![]
    } else {
        let a = args[0];
        let rest = args.drop_first();
        if path_option(a) {
            man_args_spec(rest)
        } else if starts_with(a, seq!['-', '-']) {
            if has_equals(a) || !long_value_option(a) {
                seq![a] + man_args_spec(rest)
            } else if rest.len() > 0 {
                seq![a, rest[0]] + man_args_spec(rest.drop_first())
            } else {
                seq![a]
            }
        } else if a.len() >= 2 && a[0] == '-' {
            if value_follows(a) && rest.len() > 0 {
                seq![a, rest[0]] + man_args_spec(rest.drop_first())
            } else {
                seq![a] + man_args_spec(rest)
            }
        } else {
            man_args_spec(rest)
        }
    }
}

fn has_equals_exec(a: &Vec<char>) -> (r: bool)
    ensures
        r == has_equals(a@),
{
    let mut i: usize = 0;
    while i < a.len()
        invariant
            i <= a.len(),
            forall|j: int| 0 <= j < i ==> a@[j] != '=',
        decreases a.len() - i,
    {
        if a[i] == '=' {
            return true;
        }
        i += 1;
    }
    false
}

fn is_long_value_option(a: &Vec<char>) -> (r: bool)
    ensures
        r == long_value_option(a@),
{
    let o1 = ['-', '-', 'c', 'o', 'n', 'f', 'i', 'g', '-', 'f', 'i', 'l', 'e'];
    let o2 = ['-', '-', 'e', 'n', 'c', 'o', 'd', 'i', 'n', 'g'];
    let o3 = ['-', '-', 'l', 'o', 'c', 'a', 'l', 'e'];
    let o4 = ['-', '-', 'm', 'a', 'n', 'p', 'a', 't', 'h'];
    let o5 = ['-', '-', 'p', 'a', 'g', 'e', 'r'];
    let o6 = ['-', '-', 'p', 'r', 'e', 'p', 'r', 'o', 'c', 'e', 's', 's', 'o', 'r'];
    let o7 = ['-', '-', 'p', 'r', 'o', 'm', 'p', 't'];
    let o8 = ['-', '-', 'r', 'e', 'c', 'o', 'd', 'e'];
    let o9 = ['-', '-', 's', 'e', 'c', 't', 'i', 'o', 'n', 's'];
    let o10 = ['-', '-', 's', 'y', 's', 't', 'e', 'm', 's'];
    let o11 = ['-', '-', 't', 'r', 'o', 'f', 'f', '-', 'd', 'e', 'v', 'i', 'c', 'e'];
    proof {
        reveal_strlit("--config-file");
        reveal_strlit("--encoding");
        reveal_strlit("--locale");
        reveal_strlit("--manpath");
        reveal_strlit("--pager");
        reveal_strlit("--preprocessor");
        reveal_strlit("--prompt");
        reveal_strlit("--recode");
        reveal_strlit("--sections");
        reveal_strlit("--systems");
        reveal_strlit("--troff-device");
    }
    assert(o1@ == "--config-file"@);
    assert(o2@ == "--encoding"@);
    assert(o3@ == "--locale"@);
    assert(o4@ == "--manpath"@);
    assert(o5@ == "--pager"@);
    assert(o6@ == "--preprocessor"@);
    assert(o7@ == "--prompt"@);
    assert(o8@ == "--recode"@);
    assert(o9@ == "--sections"@);
    assert(o10@ == "--systems"@);
    assert(o11@ == "--troff-device"@);
    eq_chars(a, &o1) || eq_chars(a, &o2) || eq_chars(a, &o3) || eq_chars(a, &o4) || eq_chars(a, &o5)
        || eq_chars(a, &o6) || eq_chars(a, &o7) || eq_chars(a, &o8) || eq_chars(a, &o9) || eq_chars(
        a,
        &o10,
    ) || eq_chars(a, &o11)
}

/// Whether `c` is a short option letter that takes a value.
pub fn is_short_value_letter(c: char) -> (r: bool)
    ensures
        r == short_value_letter(c),
{
    c == 'C' || c == 'E' || c == 'L' || c == 'M' || c == 'P' || c == 'R' || c == 'S' || c == 'T'
        || c == 'e' || c == 'm' || c == 'p' || c == 'r'
}

/// Whether the short-option cluster `a` takes its value from the next argument.
fn is_value_follows(a: &Vec<char>) -> (r: bool)
    ensures
        r == value_follows(a@),
{
    if a.len() < 2 || !is_short_value_letter(a[a.len() - 1]) {
        return false;
    }
    let mut j: usize = 1;
    while j < a.len() - 1
        invariant
            1 <= j <= a.len() - 1,
            a@.len() >= 2,
            forall|k: int| 1 <= k < j ==> !short_value_letter(#[trigger] a@[k]),
        decreases a.len() - 1 - j,
    {
        if is_short_value_letter(a[j]) {
            return false;
        }
        j += 1;
    }
    true
}

/// Reconstruct the arguments for the final `man` call: keep every flag (and
/// the value of options that require one), drop `-w`/`--path`/`--where`,
/// section numbers and page names (the translated paths are appended separately).
pub fn build_man_args(args: &[String]) -> (r: Vec<String>)
    ensures
        string_views(r@) == man_args_spec(string_views(args@)),
{
    let ghost all = string_views(args@);
    let mut result: Vec<String> = Vec::new();
    let mut i: usize = 0;
    assert(all.skip(0) == all);
    while i < args.len()
        invariant
            i <= args@.len(),
            all == string_views(args@),
            man_args_spec(all) == string_views(result@) + man_args_spec(all.skip(i as int)),
        decreases args.len() - i,
    {
        let ghost cur = all.skip(i as int);
        let ghost before = result@;
        let a = chars_of(args[i].as_str());
        assert(cur[0] == a@);
        assert(cur[0] == args@[i as int]@);
        assert(cur.drop_first() == all.skip(i + 1));
        if is_path_option(&a) {
            i += 1;
        } else if starts_with_chars(&a, &['-', '-']) {
            if has_equals_exec(&a) || !is_long_value_option(&a) {
                result.push(args[i].clone());
                assert(string_views(result@) == string_views(before).push(a@));
                i += 1;
            } else if i + 1 < args.len() {
                result.push(args[i].clone());
                result.push(args[i + 1].clone());
                assert(cur.drop_first()[0] == all[i + 1]);
                assert(string_views(result@) == string_views(before).push(a@).push(all[i + 1]));
                assert(cur.drop_first().drop_first() == all.skip(i + 2));
                i += 2;
            } else {
                result.push(args[i].clone());
                assert(string_views(result@) == string_views(before).push(a@));
                assert(all.skip(i + 1).len() == 0);
                i += 1;
            }
        } else if a.len() >= 2 && a[0] == '-' {
            if is_value_follows(&a) && i + 1 < args.len() {
                result.push(args[i].clone());
                result.push(args[i + 1].clone());
                assert(cur.drop_first()[0] == all[i + 1]);
                assert(string_views(result@) == string_views(before).push(a@).push(all[i + 1]));
                assert(cur.drop_first().drop_first() == all.skip(i + 2));
                i += 2;
            } else {
                result.push(args[i].clone());
                assert(string_views(result@) == string_views(before).push(a@));
                i += 1;
            }
        } else {
            i += 1;
        }
    }
    assert(all.skip(i as int).len() == 0);
    result
}

} // verus!
