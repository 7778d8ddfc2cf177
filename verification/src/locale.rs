use vstd::prelude::*;

use crate::cli::{is_short_value_letter, short_value_letter};

use crate::text::{chars_of, eq_chars, lowercase_eq, lowercase_eq_exec, lowers_to, lowers_to_exec};

verus! {

/// An English-speaking locale: `C`, `POSIX`, or anything whose lowercase
/// form starts with `en`.
pub open spec fn english_locale(l: Seq<char>) -> bool {
    ||| lowercase_eq(l, seq!['c'])
    ||| lowercase_eq(l, seq!['p', 'o', 's', 'i', 'x'])
    ||| (l.len() >= 2 && lowers_to(l[0], 'e') && lowers_to(l[1], 'n'))
}

/// Check whether the given locale string represents an English-speaking locale.
/// Returns true for C, POSIX, and any locale starting with "en" (case-insensitive).
pub fn is_english_locale(locale: &str) -> (r: bool)
    ensures
        r == english_locale(locale@),
{
    let l = chars_of(locale);
    lowercase_eq_exec(&l, &['c']) || lowercase_eq_exec(&l, &['p', 'o', 's', 'i', 'x']) || (l.len()
        >= 2 && lowers_to_exec(l[0], 'e') && lowers_to_exec(l[1], 'n'))
}

/// A `man` option that asks for something other than a page to read
/// (help, version, keyword search, local file).
pub open spec fn bypass_option(a: Seq<char>) -> bool {
    ||| a == seq!['-', 'h']
    ||| a == seq!['-', '-', 'h', 'e', 'l', 'p']
    ||| a == seq!['-', 'V']
    ||| a == seq!['-', '-', 'v', 'e', 'r', 's', 'i', 'o', 'n']
    ||| a == seq!['-', 'k']
    ||| a == seq!['-', '-', 'a', 'p', 'r', 'o', 'p', 'o', 's']
    ||| a == seq!['-', 'f']
    ||| a == seq!['-', '-', 'w', 'h', 'a', 't', 'i', 's']
    ||| a == seq!['-', 'K']
    ||| a == seq!['-', '-', 'g', 'l', 'o', 'b', 'a', 'l', '-', 'a', 'p', 'r', 'o', 'p', 'o', 's']
    ||| a == seq!['-', 'l']
    ||| a == seq!['-', '-', 'l', 'o', 'c', 'a', 'l', '-', 'f', 'i', 'l', 'e']
}

/// A short flag letter that bypasses translation.
pub open spec fn bypass_flag(c: char) -> bool {
    c == 'h' || c == 'V' || c == 'k' || c == 'f' || c == 'K' || c == 'l'
}

/// A cluster of short options (`-kh`) that holds a bypass flag among its
/// options: the letters are read up to the first option that takes a value,
/// whose value is the rest of the word (the `l` of `-Pless` is a pager name).
pub open spec fn bypass_cluster(a: Seq<char>) -> bool {
    &&& a.len() >= 2
    &&& a[0] == '-'
    &&& a[1] != '-'
    &&& exists|i: int|
        1 <= i < a.len() && bypass_flag(#[trigger] a[i]) && forall|j: int|
            1 <= j < i ==> !short_value_letter(#[trigger] a[j])
}

/// An argument that makes `man` do something other than show a page.
pub open spec fn bypass_arg(a: Seq<char>) -> bool {
    bypass_option(a) || bypass_cluster(a)
}

/// Whether one argument bypasses translation.
fn is_bypass_arg(arg: &str) -> (r: bool)
    ensures
        r == bypass_arg(arg@),
{
    let a = chars_of(arg);
    if eq_chars(&a, &['-', 'h']) || eq_chars(&a, &['-', '-', 'h', 'e', 'l', 'p']) || eq_chars(
        &a,
        &['-', 'V'],
    ) || eq_chars(&a, &['-', '-', 'v', 'e', 'r', 's', 'i', 'o', 'n']) || eq_chars(&a, &['-', 'k'])
        || eq_chars(&a, &['-', '-', 'a', 'p', 'r', 'o', 'p', 'o', 's']) || eq_chars(&a, &['-', 'f'])
        || eq_chars(&a, &['-', '-', 'w', 'h', 'a', 't', 'i', 's']) || eq_chars(&a, &['-', 'K'])
        || eq_chars(
        &a,
        &['-', '-', 'g', 'l', 'o', 'b', 'a', 'l', '-', 'a', 'p', 'r', 'o', 'p', 'o', 's'],
    ) || eq_chars(&a, &['-', 'l']) || eq_chars(
        &a,
        &['-', '-', 'l', 'o', 'c', 'a', 'l', '-', 'f', 'i', 'l', 'e'],
    ) {
        return true;
    }
    if a.len() < 2 || a[0] != '-' || a[1] == '-' {
        return false;
    }
    let mut i: usize = 1;
    while i < a.len()
        invariant
            1 <= i <= a.len(),
            a@ == arg@,
            a@.len() >= 2 && a@[0] == '-' && a@[1] != '-',
            forall|j: int| 1 <= j < i ==> !bypass_flag(#[trigger] a@[j]),
            forall|j: int| 1 <= j < i ==> !short_value_letter(#[trigger] a@[j]),
        decreases a.len() - i,
    {
        let c = a[i];
        if c == 'h' || c == 'V' || c == 'k' || c == 'f' || c == 'K' || c == 'l' {
            assert(bypass_flag(a@[i as int]));
            return true;
        }
        if is_short_value_letter(c) {
            assert forall|k: int| 1 <= k < a@.len() && bypass_flag(a@[k]) implies exists|j: int|
                1 <= j < k && short_value_letter(#[trigger] a@[j]) by {
                assert(k > i);
                assert(short_value_letter(a@[i as int]));
            }
            return false;
        }
        i += 1;
    }
    false
}

/// Determine whether the given man arguments indicate a non-translation operation
/// (help, version, keyword search, etc.) that should bypass the translation process.
pub fn should_bypass_translation(args: &[String]) -> (r: bool)
    ensures
        r == exists|i: int| 0 <= i < args@.len() && bypass_arg(#[trigger] args@[i]@),
{
    let mut i: usize = 0;
    while i < args.len()
        invariant
            i <= args@.len(),
            forall|j: int| 0 <= j < i ==> !bypass_arg(#[trigger] args@[j]@),
        decreases args.len() - i,
    {
        if is_bypass_arg(args[i].as_str()) {
            return true;
        }
        i += 1;
    }
    false
}

/// The locale to translate into, from the values of `LC_ALL`, `LC_MESSAGES`
/// and `LANG` (`None` where a variable is unset): the first one set, else `C`.
pub fn target_locale(lc_all: Option<String>, lc_messages: Option<String>, lang: Option<String>) -> (r:
    String)
    ensures
        r@ == match (lc_all, lc_messages, lang) {
            (Some(v), _, _) => v@,
            (None, Some(v), _) => v@,
            (None, None, Some(v)) => v@,
            (None, None, None) => "C"@,
        },
{
    match lc_all {
        Some(v) => v,
        None => match lc_messages {
            Some(v) => v,
            None => match lang {
                Some(v) => v,
                None => String::from_str("C"),
            },
        },
    }
}

} // verus!
