//! Formatting of HTTP header field names.

use vstd::prelude::*;

use crate::strings::{
    char_to_uppercase, lower_of, push_char, push_str, seq_contains_sub, str_contains, to_chars,
    to_lowercase, upper_of,
};

verus! {

/// A word with its first character upper-cased and the rest unchanged;
/// empty stays empty.
pub open spec fn capitalize_spec(s: Seq<char>) -> Seq<char> {
    if s.len() == 0 {
        Seq::empty()
    } else {
        upper_of(s[0]) + s.drop_first()
    }
}

/// Upper-cases the first character of `s`.
pub fn capitalize(s: &str) -> (r: String)
    ensures
        r@ == capitalize_spec(s@),
{
    let n = s.unicode_len();
    if n == 0 {
        return String::new();
    }
    let mut out = char_to_uppercase(s.get_char(0));
    let rest = s.substring_char(1, n);
    push_str(&mut out, rest);
    proof {
        assert(s@.subrange(1, n as int) =~= s@.drop_first());
    }
    out
}

/// One step of title-casing: a dash passes through and starts a new word;
/// the first character of a word is upper-cased; every other character
/// passes through.
pub open spec fn title_step(acc: Seq<char>, at_start: bool, c: char) -> (Seq<char>, bool) {
    if c == '-' {
        (acc + seq!['-'], true)
    } else if at_start {
        (acc + upper_of(c), false)
    } else {
        (acc + seq![c], false)
    }
}

/// The first `n` characters of `s` title-cased: each `-`-separated word gets
/// its first character upper-cased, dashes are kept.
pub open spec fn title_case_upto(s: Seq<char>, n: int) -> (Seq<char>, bool)
    decreases n,
{
    if n <= 0 {
        (Seq::empty(), true)
    } else {
        let prev = title_case_upto(s, n - 1);
        title_step(prev.0, prev.1, s[n - 1])
    }
}

/// The formatted form of a header field name: left alone when it holds
/// `--` (likely an injected payload); otherwise lower-cased and then each
/// dash-separated word capitalized.
pub open spec fn format_field_name_spec(s: Seq<char>) -> Seq<char> {
    if seq_contains_sub(s, "--"@) {
        s
    } else {
        title_case_upto(lower_of(s), lower_of(s).len() as int).0
    }
}

/// Formats a header field name: `content-type` becomes `Content-Type`;
/// names holding `--` are returned untouched.
#[verifier::loop_isolation(false)]
pub fn format_field_name(name: &str) -> (r: String)
    ensures
        r@ == format_field_name_spec(name@),
{
    if str_contains(name, "--") {
        return name.to_owned();
    }
    let lowered = to_lowercase(name);
    let chars = to_chars(lowered.as_str());
    let n = chars.len();
    let mut out = String::new();
    let mut at_start = true;
    let mut i: usize = 0;
    while i < n
        invariant
            0 <= i <= n,
            out@ == title_case_upto(lowered@, i as int).0,
            at_start == title_case_upto(lowered@, i as int).1,
        decreases n - i,
    {
        let c = chars[i];
        if c == '-' {
            push_char(&mut out, '-');
            at_start = true;
        } else if at_start {
            let up = char_to_uppercase(c);
            push_str(&mut out, up.as_str());
            at_start = false;
        } else {
            push_char(&mut out, c);
            at_start = false;
        }
        i += 1;
    }
    out
}

} // verus!
