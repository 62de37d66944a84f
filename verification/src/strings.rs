//! Character-level string operations: trimming, comparison, substring search
//! and decimal rendering, all verified against sequence-level specifications,
//! together with the few trusted bridges to std's Unicode case mappings.

use vstd::prelude::*;

verus! {

/// The characters that count as whitespace when text and comment runs are
/// trimmed: Unicode's White_Space set, as std's `char::is_whitespace` uses it.
pub open spec fn is_doc_whitespace(c: char) -> bool {
    let u = c as u32;
    ||| (0x9 <= u && u <= 0xD)
    ||| u == 0x20
    ||| u == 0x85
    ||| u == 0xA0
    ||| u == 0x1680
    ||| (0x2000 <= u && u <= 0x200A)
    ||| u == 0x2028
    ||| u == 0x2029
    ||| u == 0x202F
    ||| u == 0x205F
    ||| u == 0x3000
}

pub fn is_whitespace_char(c: char) -> (r: bool)
    ensures
        r == is_doc_whitespace(c),
{
    let u = c as u32;
    (0x9 <= u && u <= 0xD) || u == 0x20 || u == 0x85 || u == 0xA0 || u == 0x1680 || (0x2000 <= u
        && u <= 0x200A) || u == 0x2028 || u == 0x2029 || u == 0x202F || u == 0x205F || u == 0x3000
}

/// The sequence with its leading whitespace removed.
pub open spec fn trim_front(s: Seq<char>) -> Seq<char>
    decreases s.len(),
{
    if s.len() > 0 && is_doc_whitespace(s[0]) {
        trim_front(s.drop_first())
    } else {
        s
    }
}

/// The sequence with its trailing whitespace removed.
pub open spec fn trim_back(s: Seq<char>) -> Seq<char>
    decreases s.len(),
{
    if s.len() > 0 && is_doc_whitespace(s.last()) {
        trim_back(s.drop_last())
    } else {
        s
    }
}

/// The sequence with leading and trailing whitespace removed.
pub open spec fn trim_spec(s: Seq<char>) -> Seq<char> {
    trim_back(trim_front(s))
}

proof fn lemma_trim_front_skip(s: Seq<char>, a: int)
    requires
        0 <= a <= s.len(),
        forall|j: int| 0 <= j < a ==> is_doc_whitespace(#[trigger] s[j]),
        a < s.len() ==> !is_doc_whitespace(s[a]),
    ensures
        trim_front(s) == s.skip(a),
    decreases a,
{
    if a == 0 {
        assert(s.skip(0) =~= s);
        if s.len() > 0 && is_doc_whitespace(s[0]) {
            assert(false);
        }
    } else {
        assert(is_doc_whitespace(s[0]));
        let d = s.drop_first();
        assert(forall|j: int| 0 <= j < a - 1 ==> is_doc_whitespace(#[trigger] d[j]));
        lemma_trim_front_skip(d, a - 1);
        assert(d.skip(a - 1) =~= s.skip(a));
    }
}

proof fn lemma_trim_back_take(s: Seq<char>, b: int)
    requires
        0 <= b <= s.len(),
        forall|j: int| b <= j < s.len() ==> is_doc_whitespace(#[trigger] s[j]),
        b > 0 ==> !is_doc_whitespace(s[b - 1]),
    ensures
        trim_back(s) == s.take(b),
    decreases s.len(),
{
    if b == s.len() {
        assert(s.take(b) =~= s);
        if s.len() > 0 && is_doc_whitespace(s.last()) {
            assert(false);
        }
    } else {
        assert(is_doc_whitespace(s.last()));
        let d = s.drop_last();
        lemma_trim_back_take(d, b);
        assert(d.take(b) =~= s.take(b));
    }
}

/// Removes leading and trailing whitespace, as std's `str::trim` does.
pub fn trim(s: &str) -> (r: String)
    ensures
        r@ == trim_spec(s@),
{
    let n = s.unicode_len();
    let mut a: usize = 0;
    while a < n && is_whitespace_char(s.get_char(a))
        invariant
            0 <= a <= n,
            n == s@.len(),
            forall|j: int| 0 <= j < a ==> is_doc_whitespace(#[trigger] s@[j]),
        decreases n - a,
    {
        a += 1;
    }
    proof {
        lemma_trim_front_skip(s@, a as int);
    }
    if a == n {
        proof {
            assert(s@.skip(a as int) =~= Seq::<char>::empty());
        }
        return String::new();
    }
    let mut b: usize = n;
    while b > a && is_whitespace_char(s.get_char(b - 1))
        invariant
            a <= b <= n,
            a < n,
            n == s@.len(),
            forall|j: int| b <= j < n ==> is_doc_whitespace(#[trigger] s@[j]),
        decreases b,
    {
        b -= 1;
    }
    proof {
        let u = s@.skip(a as int);
        assert(forall|j: int|
            b - a <= j < u.len() ==> is_doc_whitespace(#[trigger] u[j]) && u[j] == s@[j + a]);
        if b > a {
            assert(!is_doc_whitespace(u[b - a - 1]));
        } else {
            assert(!is_doc_whitespace(u[0]) && is_doc_whitespace(u[0]));
        }
        lemma_trim_back_take(u, b - a);
        assert(u.take(b - a) =~= s@.subrange(a as int, b as int));
    }
    let piece = s.substring_char(a, b);
    piece.to_owned()
}

/// Character-by-character string equality.
pub fn str_eq(a: &str, b: &str) -> (r: bool)
    ensures
        r == (a@ == b@),
{
    let n = a.unicode_len();
    if n != b.unicode_len() {
        return false;
    }
    let mut i: usize = 0;
    while i < n
        invariant
            0 <= i <= n,
            n == a@.len() == b@.len(),
            forall|j: int| 0 <= j < i ==> a@[j] == b@[j],
        decreases n - i,
    {
        if a.get_char(i) != b.get_char(i) {
            return false;
        }
        i += 1;
    }
    proof {
        assert(a@ =~= b@);
    }
    true
}

/// Whether `n` occurs as a contiguous run inside `h`.
pub open spec fn seq_contains_sub(h: Seq<char>, n: Seq<char>) -> bool {
    exists|i: int|
        0 <= i && i + n.len() <= h.len() && #[trigger] h.subrange(i, i + n.len() as int) == n
}

/// Substring search, as std's `str::contains` with a string pattern.
pub fn str_contains(h: &str, n: &str) -> (r: bool)
    ensures
        r == seq_contains_sub(h@, n@),
{
    let hl = h.unicode_len();
    let nl = n.unicode_len();
    if nl > hl {
        return false;
    }
    if nl == 0 {
        proof {
            assert(h@.subrange(0, 0 + n@.len() as int) =~= n@);
            assert(seq_contains_sub(h@, n@));
        }
        return true;
    }
    let mut i: usize = 0;
    while i <= hl - nl
        invariant
            0 <= i <= hl - nl + 1,
            0 < nl <= hl,
            hl == h@.len(),
            nl == n@.len(),
            forall|k: int| 0 <= k < i ==> #[trigger] h@.subrange(k, k + n@.len() as int) != n@,
        decreases hl + 1 - nl - i,
    {
        let mut j: usize = 0;
        let mut matched = true;
        while j < nl
            invariant
                0 <= j <= nl,
                0 <= i <= hl - nl,
                nl <= hl,
                hl == h@.len(),
                nl == n@.len(),
                matched ==> forall|k: int| 0 <= k < j ==> h@[i + k] == n@[k],
                !matched ==> h@.subrange(i as int, i + n@.len() as int) != n@,
            decreases nl - j,
        {
            if h.get_char(i + j) != n.get_char(j) {
                proof {
                    let sub = h@.subrange(i as int, i + n@.len() as int);
                    assert(sub[j as int] == h@[i + j]);
                }
                matched = false;
                j = nl;
            } else {
                j += 1;
            }
        }
        if matched {
            proof {
                assert(h@.subrange(i as int, i + n@.len() as int) =~= n@);
            }
            return true;
        }
        i += 1;
    }
    false
}

/// The characters of `s`, as a vector.
pub fn to_chars(s: &str) -> (v: Vec<char>)
    ensures
        v@ == s@,
{
    let n = s.unicode_len();
    let mut v: Vec<char> = Vec::new();
    let mut i: usize = 0;
    while i < n
        invariant
            0 <= i <= n,
            n == s@.len(),
            v@ =~= s@.take(i as int),
        decreases n - i,
    {
        v.push(s.get_char(i));
        i += 1;
        proof {
            assert(v@ =~= s@.take(i as int));
        }
    }
    proof {
        assert(v@ =~= s@);
    }
    v
}

/// Relies on `String::push`: appends exactly the given character.
#[verifier::external_body]
pub fn push_char(s: &mut String, c: char)
    ensures
        final (s)@ == old(s)@.push(c),
{
    s.push(c);
}

/// Appends every character of `piece` to `s`.
pub fn push_str(s: &mut String, piece: &str)
    ensures
        final (s)@ == old(s)@ + piece@,
{
    let n = piece.unicode_len();
    let mut i: usize = 0;
    while i < n
        invariant
            0 <= i <= n,
            n == piece@.len(),
            s@ =~= old(s)@ + piece@.take(i as int),
        decreases n - i,
    {
        push_char(s, piece.get_char(i));
        i += 1;
        proof {
            assert(s@ =~= old(s)@ + piece@.take(i as int));
        }
    }
    proof {
        assert(s@ =~= old(s)@ + piece@);
    }
}

/// What std's `str::to_lowercase` returns; a function of the characters alone.
pub uninterp spec fn lower_of(s: Seq<char>) -> Seq<char>;

/// Relies on `str::to_lowercase`: the result depends only on the input characters.
#[verifier::external_body]
pub fn to_lowercase(s: &str) -> (r: String)
    ensures
        r@ == lower_of(s@),
{
    s.to_lowercase()
}

/// What std's `char::to_uppercase` yields; one or more characters, a function
/// of the input character alone.
pub uninterp spec fn upper_of(c: char) -> Seq<char>;

/// Relies on `char::to_uppercase`: the result depends only on the input character.
#[verifier::external_body]
pub fn char_to_uppercase(c: char) -> (r: String)
    ensures
        r@ == upper_of(c),
{
    c.to_uppercase().collect()
}

/// One decimal digit as a character.
pub open spec fn digit_char(d: int) -> char {
    if d == 0 {
        '0'
    } else if d == 1 {
        '1'
    } else if d == 2 {
        '2'
    } else if d == 3 {
        '3'
    } else if d == 4 {
        '4'
    } else if d == 5 {
        '5'
    } else if d == 6 {
        '6'
    } else if d == 7 {
        '7'
    } else if d == 8 {
        '8'
    } else {
        '9'
    }
}

/// The decimal rendering of a non-negative number.
pub open spec fn dec_seq(n: nat) -> Seq<char>
    decreases n,
{
    if n < 10 {
        seq![digit_char(n as int)]
    } else {
        dec_seq(n / 10).push(digit_char((n % 10) as int))
    }
}

/// The decimal rendering of a signed number.
pub open spec fn dec_seq_signed(n: int) -> Seq<char> {
    if n < 0 {
        seq!['-'] + dec_seq((-n) as nat)
    } else {
        dec_seq(n as nat)
    }
}

fn digit_char_exec(d: u64) -> (c: char)
    requires
        d < 10,
    ensures
        c == digit_char(d as int),
{
    if d == 0 {
        '0'
    } else if d == 1 {
        '1'
    } else if d == 2 {
        '2'
    } else if d == 3 {
        '3'
    } else if d == 4 {
        '4'
    } else if d == 5 {
        '5'
    } else if d == 6 {
        '6'
    } else if d == 7 {
        '7'
    } else if d == 8 {
        '8'
    } else {
        '9'
    }
}

/// Appends the decimal rendering of `n` to `out`.
pub fn push_dec(out: &mut String, n: u64)
    ensures
        final (out)@ == old(out)@ + dec_seq(n as nat),
    decreases n,
{
    if n < 10 {
        push_char(out, digit_char_exec(n));
    } else {
        push_dec(out, n / 10);
        push_char(out, digit_char_exec(n % 10));
    }
}

/// Appends the decimal rendering of a signed number to `out`.
pub fn push_dec_signed(out: &mut String, n: i64)
    ensures
        final (out)@ == old(out)@ + dec_seq_signed(n as int),
{
    if n < 0 {
        push_char(out, '-');
        let m: u64 = (-(n as i128)) as u64;
        push_dec(out, m);
    } else {
        push_dec(out, n as u64);
    }
}

} // verus!
