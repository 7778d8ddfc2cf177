use vstd::prelude::*;

use crate::text::{contains, occurs_at, starts_with};

verus! {

/// The system prompt up to the place of the locale.
pub const PROMPT_BEFORE_LOCALE: &'static str = "You are a professional technical translator specializing in Unix/Linux system manual pages (man pages).\n\
         Your task is to translate the following English man page into the locale/language specified by the user: \"";

/// The system prompt after the locale.
pub const PROMPT_AFTER_LOCALE: &'static str = "\".\n\n\
         CRITICAL REQUIREMENTS:\n\
         1. Translate all descriptive text, explanation paragraphs, option descriptions, and comments into the target language.\n\
         2. DO NOT translate command names, option flags (e.g., -f, --force), syntax definitions, environment variable names, placeholders, or code examples unless translating comments inside them.\n\
         3. ABSOLUTELY PRESERVE the exact formatting, syntax, macros (e.g., .TH, .SH, .SS, .TP, .B, .I, .BR, .IR, .PP, etc.), and structure of the original man page source (which uses troff/groff formatting). The output must be valid man page source code. Do NOT convert the document to Markdown, HTML, or any other format.
          IMPORTANT: Add `.na` (no adjust) immediately after the `.TH` header line and after every paragraph macro (`.P`, `.PP`, `.LP`, `.TP`, `.IP`, `.HP`, `.RS`, `.SH`, `.SS`). This is critical because groff resets justification to full (`.ad b`) at each of these macros, which inserts excessive spaces into translated text (especially for CJK languages) and breaks lines at awkward positions. Also, break long text lines at natural CJK break points (after 。，、；：etc.) so each line is at most ~76 characters wide.
         4. Output ONLY the translated man page source code. Do NOT include any conversational filler, introductory remarks, explanations, or notes (such as \"Here is the translation\" or \"Sure, I have translated it\"). Every single character in your response must be part of the translated man page file.\n\
         5. Write each line exactly once. Do NOT repeat, rewrite, second-guess, or revise any part of the output, and do not include any reasoning, self-correction, or trailing commentary. If you are unsure about something, make your best choice and move on immediately.";

/// Build the system prompt for the AI translator.
/// The locale string (e.g. "zh_CN.UTF-8") is passed directly;
/// the AI will interpret it on its own.
pub fn build_system_prompt(locale: &str) -> (r: String)
    ensures
        r@ == system_prompt(locale@),
{
    let mut r = String::from_str(PROMPT_BEFORE_LOCALE);
    r.append(locale);
    r.append(PROMPT_AFTER_LOCALE);
    r
}

/// The system prompt for `locale`.
pub open spec fn system_prompt(locale: Seq<char>) -> Seq<char> {
    PROMPT_BEFORE_LOCALE@ + locale + PROMPT_AFTER_LOCALE@
}

/// The system prompt opens with the translator's role, names the locale
/// verbatim inside quotes, and asks for `.na`.
pub proof fn law_system_prompt(locale: Seq<char>)
    ensures
        starts_with(system_prompt(locale), "You are a professional technical translator"@),
        contains(
            system_prompt(locale),
            "the locale/language specified by the user: \""@ + locale + "\"."@,
        ),
        contains(system_prompt(locale), "`.na`"@),
{
    reveal_strlit(
        "You are a professional technical translator specializing in Unix/Linux system manual pages (man pages).\n\
         Your task is to translate the following English man page into the locale/language specified by the user: \"",
    );
    reveal_strlit(
        "\".\n\n\
         CRITICAL REQUIREMENTS:\n\
         1. Translate all descriptive text, explanation paragraphs, option descriptions, and comments into the target language.\n\
         2. DO NOT translate command names, option flags (e.g., -f, --force), syntax definitions, environment variable names, placeholders, or code examples unless translating comments inside them.\n\
         3. ABSOLUTELY PRESERVE the exact formatting, syntax, macros (e.g., .TH, .SH, .SS, .TP, .B, .I, .BR, .IR, .PP, etc.), and structure of the original man page source (which uses troff/groff formatting). The output must be valid man page source code. Do NOT convert the document to Markdown, HTML, or any other format.
          IMPORTANT: Add `.na` (no adjust) immediately after the `.TH` header line and after every paragraph macro (`.P`, `.PP`, `.LP`, `.TP`, `.IP`, `.HP`, `.RS`, `.SH`, `.SS`). This is critical because groff resets justification to full (`.ad b`) at each of these macros, which inserts excessive spaces into translated text (especially for CJK languages) and breaks lines at awkward positions. Also, break long text lines at natural CJK break points (after 。，、；：etc.) so each line is at most ~76 characters wide.
         4. Output ONLY the translated man page source code. Do NOT include any conversational filler, introductory remarks, explanations, or notes (such as \"Here is the translation\" or \"Sure, I have translated it\"). Every single character in your response must be part of the translated man page file.\n\
         5. Write each line exactly once. Do NOT repeat, rewrite, second-guess, or revise any part of the output, and do not include any reasoning, self-correction, or trailing commentary. If you are unsure about something, make your best choice and move on immediately.",
    );
    reveal_strlit("You are a professional technical translator");
    reveal_strlit("the locale/language specified by the user: \"");
    reveal_strlit("\".");
    reveal_strlit("`.na`");
    let b = PROMPT_BEFORE_LOCALE@;
    let a = PROMPT_AFTER_LOCALE@;
    let p = system_prompt(locale);
    let head = "You are a professional technical translator"@;
    assert(p.take(head.len() as int) =~= head);
    let q = "the locale/language specified by the user: \""@ + locale + "\"."@;
    assert(p.subrange(166, 166 + q.len() as int) =~= q);
    assert(occurs_at(p, q, 166));
    let na = "`.na`"@;
    let at: int = (b.len() + locale.len() + 675) as int;
    assert(p.subrange(at, at + 5) =~= na);
    assert(occurs_at(p, na, at));
}

} // verus!
