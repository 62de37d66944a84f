//! Decoding of HTML character entities.
//!
//! `html_decode` replaces the five named entities and numeric character
//! references in a string; anything that does not parse as an entity is kept
//! verbatim, including its ampersand.

use vstd::prelude::*;

use crate::strings::{push_char, to_chars};

verus! {

/// The index of the first occurrence of `d` in `s`.
pub open spec fn find_char(s: Seq<char>, d: char) -> Option<int>
    decreases s.len(),
{
    if s.len() == 0 {
        None
    } else if s[0] == d {
        Some(0int)
    } else {
        match find_char(s.drop_first(), d) {
            Some(i) => Some(i + 1),
            None => None,
        }
    }
}

proof fn lemma_find_char_some(s: Seq<char>, d: char, i: int)
    requires
        0 <= i < s.len(),
        s[i] == d,
        forall|j: int| 0 <= j < i ==> s[j] != d,
    ensures
        find_char(s, d) == Some(i),
    decreases i,
{
    if i > 0 {
        lemma_find_char_some(s.drop_first(), d, i - 1);
    }
}

proof fn lemma_find_char_none(s: Seq<char>, d: char)
    requires
        forall|j: int| 0 <= j < s.len() ==> s[j] != d,
    ensures
        find_char(s, d) is None,
    decreases s.len(),
{
    if s.len() > 0 {
        lemma_find_char_none(s.drop_first(), d);
    }
}

proof fn lemma_find_char_bounds(s: Seq<char>, d: char)
    ensures
        match find_char(s, d) {
            Some(i) => 0 <= i < s.len() && s[i] == d,
            None => true,
        },
    decreases s.len(),
{
    if s.len() > 0 && s[0] != d {
        lemma_find_char_bounds(s.drop_first(), d);
    }
}

/// The numeric value of one digit character under the given radix, as
/// std's integer parsing accepts it.
pub open spec fn digit_value(c: char, radix: int) -> Option<int> {
    let u = c as u32;
    if 0x30 <= u && u <= 0x39 && u - 0x30 < radix {
        Some((u - 0x30) as int)
    } else if radix == 16 && 0x61 <= u && u <= 0x66 {
        Some((u - 0x61 + 10) as int)
    } else if radix == 16 && 0x41 <= u && u <= 0x46 {
        Some((u - 0x41 + 10) as int)
    } else {
        None
    }
}

/// The unbounded value of a digit run, or nothing if some character is not
/// a digit of the radix.
pub open spec fn digits_value(s: Seq<char>, radix: int) -> Option<int>
    decreases s.len(),
{
    if s.len() == 0 {
        Some(0int)
    } else {
        match (digits_value(s.drop_last(), radix), digit_value(s.last(), radix)) {
            (Some(v), Some(d)) => Some(v * radix + d),
            _ => None,
        }
    }
}

/// What std's `u32::from_str_radix(s, radix).ok()` yields: an optional
/// leading plus sign, then at least one digit, value within `u32`.
pub open spec fn parse_u32_radix(s: Seq<char>, radix: int) -> Option<int> {
    let body = if s.len() > 0 && s[0] == '+' {
        s.drop_first()
    } else {
        s
    };
    if body.len() == 0 {
        None
    } else {
        match digits_value(body, radix) {
            Some(v) => if v <= u32::MAX {
                Some(v)
            } else {
                None
            },
            None => None,
        }
    }
}

/// Whether `u` is a Unicode scalar value, i.e. a valid `char`.
pub open spec fn is_scalar_value(u: int) -> bool {
    0 <= u <= 0x10FFFF && !(0xD800 <= u < 0xE000)
}

/// The character with scalar value `u`.
pub open spec fn char_of_scalar(u: int) -> char {
    (u as u32) as char
}

/// Relies on `char::from_u32`: `None` exactly on surrogates and values past
/// the Unicode range, otherwise the character with that scalar value.
pub assume_specification[ char::from_u32 ](u: u32) -> (r: Option<char>)
    ensures
        is_scalar_value(u as int) <==> r is Some,
        r matches Some(c) ==> c as u32 == u,
;

/// What one `&`-introduced entity name decodes to: the five named entities,
/// or a numeric reference (`#` decimal, `#x` hexadecimal) that is a valid
/// scalar value; anything else stays as it was written.
pub open spec fn entity_of(ent: Seq<char>) -> Seq<char> {
    if ent == "quot"@ {
        seq!['"']
    } else if ent == "apos"@ {
        seq!['\'']
    } else if ent == "gt"@ {
        seq!['>']
    } else if ent == "lt"@ {
        seq!['<']
    } else if ent == "amp"@ {
        seq!['&']
    } else {
        let v = if ent.len() >= 2 && ent.take(2) == "#x"@ {
            parse_u32_radix(ent.skip(2), 16)
        } else if ent.len() >= 1 && ent[0] == '#' {
            parse_u32_radix(ent.skip(1), 10)
        } else {
            None
        };
        match v {
            Some(u) => if is_scalar_value(u) {
                seq![char_of_scalar(u)]
            } else {
                ent
            },
            None => ent,
        }
    }
}

/// What one piece between ampersands decodes to: if it holds a semicolon,
/// the part before the first one is an entity name and the rest is kept;
/// otherwise the ampersand was not an entity and is restored.
pub open spec fn piece_decoded(p: Seq<char>) -> Seq<char> {
    match find_char(p, ';') {
        Some(i) => entity_of(p.take(i)) + p.skip(i + 1),
        None => seq!['&'] + p,
    }
}

/// The decoding of everything after some ampersand.
pub open spec fn decode_after(s: Seq<char>) -> Seq<char>
    decreases s.len(),
    via decode_after_decreases
{
    match find_char(s, '&') {
        Some(i) => piece_decoded(s.take(i)) + decode_after(s.skip(i + 1)),
        None => piece_decoded(s),
    }
}

#[via_fn]
proof fn decode_after_decreases(s: Seq<char>) {
    lemma_find_char_bounds(s, '&');
}

/// The full decoding: everything before the first ampersand verbatim, then
/// piece by piece.
pub open spec fn decode_spec(s: Seq<char>) -> Seq<char> {
    match find_char(s, '&') {
        Some(i) => s.take(i) + decode_after(s.skip(i + 1)),
        None => s,
    }
}

fn digit_value_exec(c: char, radix: u32) -> (r: Option<u32>)
    requires
        radix == 10 || radix == 16,
    ensures
        match r {
            Some(d) => digit_value(c, radix as int) == Some(d as int) && d < radix,
            None => digit_value(c, radix as int) is None,
        },
{
    let u = c as u32;
    if 0x30 <= u && u <= 0x39 && u - 0x30 < radix {
        Some(u - 0x30)
    } else if radix == 16 && 0x61 <= u && u <= 0x66 {
        Some(u - 0x61 + 10)
    } else if radix == 16 && 0x41 <= u && u <= 0x46 {
        Some(u - 0x41 + 10)
    } else {
        None
    }
}

/// Parses `chars[start..end]` as an unsigned number of the given radix, as
/// std's `u32::from_str_radix(..).ok()` would.
#[verifier::loop_isolation(false)]
fn parse_u32_exec(chars: &Vec<char>, start: usize, end: usize, radix: u32) -> (r: Option<u32>)
    requires
        start <= end <= chars@.len(),
        radix == 10 || radix == 16,
    ensures
        match r {
            Some(v) => parse_u32_radix(chars@.subrange(start as int, end as int), radix as int)
                == Some(v as int),
            None => parse_u32_radix(chars@.subrange(start as int, end as int), radix as int)
                is None,
        },
{
    let ghost whole = chars@.subrange(start as int, end as int);
    let mut i = start;
    if i < end && chars[i] == '+' {
        i += 1;
    }
    let ghost body = chars@.subrange(i as int, end as int);
    proof {
        if start < end && chars@[start as int] == '+' {
            assert(whole[0] == '+');
            assert(whole.drop_first() =~= body);
        } else {
            assert(whole =~= body);
        }
    }
    if i == end {
        return None;
    }
    let mut acc: u64 = 0;
    let ghost bstart = i as int;
    let mut too_big = false;
    while i < end
        invariant
            bstart <= i <= end,
            body == chars@.subrange(bstart, end as int),
            digits_value(body.take(i - bstart), radix as int) matches Some(v) && (if too_big {
                v > u32::MAX
            } else {
                v == acc
            }),
            !too_big ==> acc <= u32::MAX,
        decreases end - i,
    {
        let ghost gpre = body.take(i - bstart);
        let ghost gval = digits_value(gpre, radix as int)->0;
        let d = match digit_value_exec(chars[i], radix) {
            Some(d) => d,
            None => {
                proof {
                    assert(body.take(i + 1 - bstart).drop_last() =~= gpre);
                    assert(body.take(i + 1 - bstart).last() == chars@[i as int]);
                    lemma_digits_value_extends_none(body, i + 1 - bstart, end as int - bstart, radix as int);
                    assert(body.take(end as int - bstart) =~= body);
                }
                return None;
            },
        };
        proof {
            assert(body.take(i + 1 - bstart).drop_last() =~= gpre);
            assert(body.take(i + 1 - bstart).last() == chars@[i as int]);
        }
        if too_big {
            proof {
                let dd = digit_value(chars@[i as int], radix as int)->0;
                assert(gval * (radix as int) + dd > u32::MAX) by (nonlinear_arith)
                    requires
                        gval > u32::MAX,
                        radix >= 1,
                        dd >= 0,
                ;
            }
        } else {
            acc = acc * (radix as u64) + (d as u64);
            if acc > u32::MAX as u64 {
                too_big = true;
            }
        }
        i += 1;
    }
    proof {
        assert(body.take(end as int - bstart) =~= body);
    }
    if too_big {
        None
    } else {
        Some(acc as u32)
    }
}

proof fn lemma_digits_value_extends_none(body: Seq<char>, k: int, n: int, radix: int)
    requires
        0 <= k <= n <= body.len(),
        digits_value(body.take(k), radix) is None,
    ensures
        digits_value(body.take(n), radix) is None,
    decreases n - k,
{
    if k < n {
        assert(body.take(k + 1).drop_last() =~= body.take(k));
        lemma_digits_value_extends_none(body, k + 1, n, radix);
    }
}

/// Compares `chars[start..end]` with a short pattern given the same way.
fn chars_eq(chars: &Vec<char>, start: usize, end: usize, pat: &Vec<char>) -> (r: bool)
    requires
        start <= end <= chars@.len(),
    ensures
        r == (chars@.subrange(start as int, end as int) == pat@),
{
    if end - start != pat.len() {
        proof {
            assert(chars@.subrange(start as int, end as int).len() != pat@.len());
        }
        return false;
    }
    let mut k: usize = 0;
    while k < pat.len()
        invariant
            0 <= k <= pat@.len(),
            start <= end <= chars@.len(),
            end - start == pat@.len(),
            forall|j: int| 0 <= j < k ==> chars@[start + j] == pat@[j],
        decreases pat@.len() - k,
    {
        if chars[start + k] != pat[k] {
            proof {
                assert(chars@.subrange(start as int, end as int)[k as int] == chars@[start + k]);
            }
            return false;
        }
        k += 1;
    }
    proof {
        assert(chars@.subrange(start as int, end as int) =~= pat@);
    }
    true
}

/// Appends `chars[start..end]` to `out`.
fn push_range(out: &mut String, chars: &Vec<char>, start: usize, end: usize)
    requires
        start <= end <= chars@.len(),
    ensures
        final (out)@ == old(out)@ + chars@.subrange(start as int, end as int),
{
    let mut k = start;
    while k < end
        invariant
            start <= k <= end <= chars@.len(),
            out@ =~= old(out)@ + chars@.subrange(start as int, k as int),
        decreases end - k,
    {
        push_char(out, chars[k]);
        k += 1;
        proof {
            assert(out@ =~= old(out)@ + chars@.subrange(start as int, k as int));
        }
    }
}

/// Finds the first occurrence of `d` in `chars[from..end]`, absolute index.
fn find_from(chars: &Vec<char>, from: usize, end: usize, d: char) -> (r: Option<usize>)
    requires
        from <= end <= chars@.len(),
    ensures
        match r {
            Some(j) => from <= j < end && find_char(chars@.subrange(from as int, end as int), d)
                == Some(j - from),
            None => find_char(chars@.subrange(from as int, end as int), d) is None,
        },
{
    let ghost piece = chars@.subrange(from as int, end as int);
    let mut j = from;
    while j < end
        invariant
            from <= j <= end <= chars@.len(),
            piece == chars@.subrange(from as int, end as int),
            forall|k: int| from <= k < j ==> chars@[k] != d,
        decreases end - j,
    {
        if chars[j] == d {
            proof {
                assert(piece[j - from] == chars@[j as int]);
                assert(forall|k: int| 0 <= k < j - from ==> piece[k] == chars@[k + from] && piece[k]
                    != d);
                lemma_find_char_some(piece, d, j - from);
            }
            return Some(j);
        }
        j += 1;
    }
    proof {
        assert(forall|k: int| 0 <= k < piece.len() ==> piece[k] == chars@[k + from] && piece[k]
            != d);
        lemma_find_char_none(piece, d);
    }
    None
}

/// Decodes one `&`-piece `chars[start..end]` into `out`.
#[verifier::loop_isolation(false)]
#[verifier::rlimit(60)]
fn decode_piece(out: &mut String, chars: &Vec<char>, start: usize, end: usize)
    requires
        start <= end <= chars@.len(),
    ensures
        final (out)@ == old(out)@ + piece_decoded(chars@.subrange(start as int, end as int)),
{
    let ghost piece = chars@.subrange(start as int, end as int);
    let semi = match find_from(chars, start, end, ';') {
        Some(j) => j,
        None => {
            push_char(out, '&');
            push_range(out, chars, start, end);
            proof {
                assert(out@ =~= old(out)@ + piece_decoded(piece));
            }
            return ;
        },
    };
    let ghost ent = piece.take(semi - start);
    proof {
        assert(ent =~= chars@.subrange(start as int, semi as int));
        assert(piece.skip(semi - start + 1) =~= chars@.subrange(semi + 1, end as int));
    }
    // the entity name is chars[start..semi]; the tail after ';' is kept
    let named: Option<char> = if chars_eq(chars, start, semi, &lit_quot()) {
        Some('"')
    } else if chars_eq(chars, start, semi, &lit_apos()) {
        Some('\'')
    } else if chars_eq(chars, start, semi, &lit_gt()) {
        Some('>')
    } else if chars_eq(chars, start, semi, &lit_lt()) {
        Some('<')
    } else if chars_eq(chars, start, semi, &lit_amp()) {
        Some('&')
    } else {
        None
    };
    match named {
        Some(c) => {
            push_char(out, c);
        },
        None => {
            let parsed: Option<u32> = if semi - start >= 2 && {
                let h = chars_eq(chars, start, start + 2, &lit_hash_x());
                h
            } {
                proof {
                    assert(chars@.subrange(start as int, start + 2) =~= ent.take(2));
                    assert(ent.skip(2) =~= chars@.subrange(start + 2, semi as int));
                }
                parse_u32_exec(chars, start + 2, semi, 16)
            } else if semi - start >= 1 && chars[start] == '#' {
                proof {
                    assert(ent[0] == '#');
                    assert(ent.skip(1) =~= chars@.subrange(start + 1, semi as int));
                }
                parse_u32_exec(chars, start + 1, semi, 10)
            } else {
                proof {
                    if ent.len() >= 2 {
                        assert(chars@.subrange(start as int, start + 2) =~= ent.take(2));
                    }
                }
                None
            };
            match parsed {
                Some(u) => match char::from_u32(u) {
                    Some(c) => {
                        proof {
                            vstd::utf8::char_u32_cast(c, u);
                            assert(char_of_scalar(u as int) == c);
                        }
                        push_char(out, c);
                    },
                    None => {
                        push_range(out, chars, start, semi);
                    },
                },
                None => {
                    push_range(out, chars, start, semi);
                },
            }
        },
    }
    push_range(out, chars, semi + 1, end);
    proof {
        assert(out@ =~= old(out)@ + piece_decoded(piece));
    }
}

/// Decodes HTML entities in `input`: the named entities `quot`, `apos`,
/// `gt`, `lt` and `amp`, and decimal or hexadecimal character references;
/// whatever does not parse as an entity stays verbatim.
#[verifier::loop_isolation(false)]
pub fn html_decode(input: &str) -> (r: String)
    ensures
        r@ == decode_spec(input@),
{
    let chars = to_chars(input);
    let n = chars.len();
    let mut out = String::new();
    let first = match find_from(&chars, 0, n, '&') {
        Some(j) => j,
        None => {
            proof {
                assert(chars@.subrange(0, n as int) =~= input@);
            }
            push_range(&mut out, &chars, 0, n);
            proof {
                assert(out@ =~= decode_spec(input@));
            }
            return out;
        },
    };
    proof {
        assert(chars@.subrange(0, n as int) =~= input@);
        assert(input@.take(first as int) =~= chars@.subrange(0, first as int));
    }
    push_range(&mut out, &chars, 0, first);
    let mut pos = first + 1;
    proof {
        assert(input@.skip(first + 1) =~= chars@.subrange(first + 1, n as int));
    }
    let ghost target = decode_spec(input@);
    proof {
        assert(target == input@.take(first as int) + decode_after(input@.skip(first + 1)));
    }
    let mut done = false;
    while !done
        invariant
            first + 1 <= pos <= n,
            n == chars@.len(),
            chars@ == input@,
            !done ==> out@ + decode_after(chars@.subrange(pos as int, n as int)) == target,
            done ==> out@ == target,
        decreases n - pos, (if done {
            0int
        } else {
            1int
        }),
    {
        let ghost restpiece = chars@.subrange(pos as int, n as int);
        match find_from(&chars, pos, n, '&') {
            Some(j) => {
                proof {
                    assert(restpiece.take(j - pos) =~= chars@.subrange(pos as int, j as int));
                    assert(restpiece.skip(j - pos + 1) =~= chars@.subrange(j + 1, n as int));
                }
                decode_piece(&mut out, &chars, pos, j);
                pos = j + 1;
            },
            None => {
                decode_piece(&mut out, &chars, pos, n);
                done = true;
            },
        }
    }
    out
}

fn lit_quot() -> (r: Vec<char>)
    ensures
        r@ == "quot"@,
{
    let mut v: Vec<char> = Vec::new();
    v.push('q');
    v.push('u');
    v.push('o');
    v.push('t');
    proof {
        reveal_strlit("quot");
        assert(v@ =~= "quot"@);
    }
    v
}

fn lit_apos() -> (r: Vec<char>)
    ensures
        r@ == "apos"@,
{
    let mut v: Vec<char> = Vec::new();
    v.push('a');
    v.push('p');
    v.push('o');
    v.push('s');
    proof {
        reveal_strlit("apos");
        assert(v@ =~= "apos"@);
    }
    v
}

fn lit_gt() -> (r: Vec<char>)
    ensures
        r@ == "gt"@,
{
    let mut v: Vec<char> = Vec::new();
    v.push('g');
    v.push('t');
    proof {
        reveal_strlit("gt");
        assert(v@ =~= "gt"@);
    }
    v
}

fn lit_lt() -> (r: Vec<char>)
    ensures
        r@ == "lt"@,
{
    let mut v: Vec<char> = Vec::new();
    v.push('l');
    v.push('t');
    proof {
        reveal_strlit("lt");
        assert(v@ =~= "lt"@);
    }
    v
}

fn lit_amp() -> (r: Vec<char>)
    ensures
        r@ == "amp"@,
{
    let mut v: Vec<char> = Vec::new();
    v.push('a');
    v.push('m');
    v.push('p');
    proof {
        reveal_strlit("amp");
        assert(v@ =~= "amp"@);
    }
    v
}

fn lit_hash_x() -> (r: Vec<char>)
    ensures
        r@ == "#x"@,
{
    let mut v: Vec<char> = Vec::new();
    v.push('#');
    v.push('x');
    proof {
        reveal_strlit("#x");
        assert(v@ =~= "#x"@);
    }
    v
}

} // verus!
