//! Token-set signatures of textual data.
//!
//! A signature breaks a string into word tokens (split at non-word
//! characters), hashes each token down to 16 bits and keeps the resulting
//! token set, ordered. Signatures can be merged with further data, refined
//! to the tokens shared with another signature, compared, and sized.

use std::hash::{Hash, Hasher};

use vstd::prelude::*;

use crate::strings::{dec_seq_signed, push_char, push_dec_signed, push_str};

verus! {

/// What the word-splitting regular expression yields: the runs of `data`
/// between non-word characters, a function of the characters alone.
pub uninterp spec fn nonword_split(s: Seq<char>) -> Seq<Seq<char>>;

/// Relies on `regex::Regex::new(r"\W")` and `Regex::split`: the pattern is
/// fixed and valid, and the split depends on the input characters alone.
#[verifier::external_body]
fn split_nonword(data: &str) -> (r: Vec<String>)
    ensures
        r.deep_view() == nonword_split(data@),
{
    let re = regex::Regex::new(r"\W").unwrap();
    re.split(data).map(|piece| piece.to_string()).collect()
}

/// What the word hash yields for one token; FNV is unkeyed, so this is a
/// function of the characters alone.
pub uninterp spec fn word_hash(s: Seq<char>) -> u64;

/// Relies on `fnv::FnvHasher`: `default` starts from a fixed offset basis,
/// and hashing a byte slice is deterministic, so the result depends on the
/// input characters alone.
#[verifier::external_body]
fn hash_word(data: &str) -> (h: u64)
    ensures
        h == word_hash(data@),
{
    let mut hasher = fnv::FnvHasher::default();
    data.as_bytes().hash(&mut hasher);
    hasher.finish()
}

/// What the whole-signature hash yields for an ordered token vector; a
/// function of the tokens alone.
pub uninterp spec fn tokens_hash(s: Seq<i16>) -> u64;

/// Relies on `fnv::FnvHasher` as above: hashing the token slice is
/// deterministic, so the result depends on the tokens alone.
#[verifier::external_body]
fn hash_tokens(tokens: &Vec<i16>) -> (h: u64)
    ensures
        h == tokens_hash(tokens@),
{
    let mut hasher = fnv::FnvHasher::default();
    tokens.as_slice().hash(&mut hasher);
    hasher.finish()
}

/// A word's 16-bit token: the low 16 bits of its hash, read as a signed
/// value, so that token sets stay small in memory.
pub open spec fn token_of(p: Seq<char>) -> int {
    let w = (word_hash(p) as int) % 0x10000;
    if w >= 0x8000 {
        w - 0x10000
    } else {
        w
    }
}

fn token_of_exec(piece: &str) -> (t: i16)
    ensures
        t as int == token_of(piece@),
{
    let h = hash_word(piece);
    let w: u64 = h % 0x10000;
    if w >= 0x8000 {
        ((w as i64) - 0x10000) as i16
    } else {
        w as i16
    }
}

/// Whether the `i`-th split piece of `s` contributes the token `t`: empty
/// pieces contribute nothing.
pub open spec fn piece_contributes(s: Seq<char>, i: int, t: int) -> bool {
    0 <= i < nonword_split(s).len() && nonword_split(s)[i].len() > 0 && t == token_of(
        nonword_split(s)[i],
    )
}

/// The token set of a piece of data: one token per non-empty word.
pub open spec fn tokens_of_data(s: Seq<char>) -> Set<int> {
    Set::new(|t: int| exists|i: int| piece_contributes(s, i, t))
}

/// The token set contributed by the first `k` split pieces.
pub open spec fn tokens_upto(s: Seq<char>, k: int) -> Set<int>
    decreases k,
{
    if k <= 0 {
        Set::empty()
    } else {
        tokens_upto(s, k - 1).union(
            if nonword_split(s)[k - 1].len() > 0 {
                Set::empty().insert(token_of(nonword_split(s)[k - 1]))
            } else {
                Set::empty()
            },
        )
    }
}

proof fn lemma_tokens_upto_mem(s: Seq<char>, k: int, t: int)
    requires
        k <= nonword_split(s).len(),
    ensures
        tokens_upto(s, k).contains(t) <==> exists|i: int| i < k && piece_contributes(s, i, t),
    decreases k,
{
    if k > 0 {
        lemma_tokens_upto_mem(s, k - 1, t);
        if nonword_split(s)[k - 1].len() > 0 && t == token_of(nonword_split(s)[k - 1]) {
            assert(piece_contributes(s, k - 1, t));
        }
    }
}

proof fn lemma_tokens_upto_full(s: Seq<char>)
    ensures
        tokens_upto(s, nonword_split(s).len() as int) == tokens_of_data(s),
{
    let n = nonword_split(s).len() as int;
    assert forall|t: int| #[trigger] tokens_upto(s, n).contains(t) <==> tokens_of_data(s).contains(
        t,
    ) by {
        lemma_tokens_upto_mem(s, n, t);
    }
    assert(tokens_upto(s, n) =~= tokens_of_data(s));
}

/// Strictly ascending: sorted, no duplicates.
pub open spec fn strictly_sorted_i16(s: Seq<i16>) -> bool {
    forall|k1: int, k2: int| 0 <= k1 < k2 < s.len() ==> s[k1] < s[k2]
}

/// The token set a vector of tokens stands for.
pub open spec fn sig_set(s: Seq<i16>) -> Set<int> {
    Set::new(|t: int| exists|k: int| 0 <= k < s.len() && (#[trigger] s[k]) as int == t)
}

proof fn lemma_sorted_i16_gap(s: Seq<i16>, k: int)
    requires
        strictly_sorted_i16(s),
        0 <= k < s.len(),
    ensures
        s[k] as int >= s[0] as int + k,
    decreases k,
{
    if k > 0 {
        lemma_sorted_i16_gap(s, k - 1);
        assert(s[k - 1] < s[k]);
    }
}

/// A strictly ascending vector of 16-bit values cannot be longer than the
/// value range.
pub proof fn lemma_sorted_i16_len(s: Seq<i16>)
    requires
        strictly_sorted_i16(s),
    ensures
        s.len() <= 0x10000,
{
    if s.len() > 0 {
        lemma_sorted_i16_gap(s, s.len() as int - 1);
    }
}

/// How many entries of the first `k` of `a` do not occur in `b`.
pub open spec fn count_not_in(a: Seq<i16>, b: Seq<i16>, k: int) -> int
    decreases k,
{
    if k <= 0 {
        0
    } else {
        count_not_in(a, b, k - 1) + if !b.contains(a[k - 1]) {
            1int
        } else {
            0int
        }
    }
}


/// The `", "`-separated decimal rendering of the first `k` tokens.
pub open spec fn sig_entries_upto(s: Seq<i16>, k: int) -> Seq<char>
    decreases k,
{
    if k <= 0 {
        Seq::empty()
    } else if k == 1 {
        dec_seq_signed(s[0] as int)
    } else {
        sig_entries_upto(s, k - 1) + ", "@ + dec_seq_signed(s[k - 1] as int)
    }
}

/// The rendering of a whole signature: its tokens in ascending order,
/// comma-separated, in braces, behind the type's name.
pub open spec fn sig_inspect_spec(s: Seq<i16>) -> Seq<char> {
    "Signature {"@ + sig_entries_upto(s, s.len() as int) + seq!['}']
}

/// The token-set signature of some data.
pub struct Signature {
    pub tokens: Vec<i16>,
}

impl View for Signature {
    type V = Seq<i16>;

    open spec fn view(&self) -> Seq<i16> {
        self.tokens@
    }
}

impl Signature {
    /// The token vector is strictly ascending; all operations keep it so.
    pub open spec fn wf(&self) -> bool {
        strictly_sorted_i16(self@)
    }

    /// Adds one token, keeping the vector strictly ascending.
    fn insert_token(&mut self, t: i16)
        requires
            old(self).wf(),
        ensures
            final (self).wf(),
            sig_set(final (self)@) == sig_set(old(self)@).insert(t as int),
    {
        let ghost o = self@;
        let n = self.tokens.len();
        let mut i: usize = 0;
        while i < n && self.tokens[i] < t
            invariant
                0 <= i <= n,
                n == self@.len(),
                self@ == o,
                forall|j: int| 0 <= j < i ==> self@[j] < t,
            decreases n - i,
        {
            i += 1;
        }
        if i < n && self.tokens[i] == t {
            proof {
                assert(sig_set(o).contains(t as int));
                assert(sig_set(o) =~= sig_set(o).insert(t as int));
            }
            return ;
        }
        self.tokens.insert(i, t);
        proof {
            o.insert_ensures(i as int, t);
            let s = self@;
            assert(i < n ==> o[i as int] > t);
            assert(strictly_sorted_i16(s)) by {
                assert forall|k1: int, k2: int| 0 <= k1 < k2 < s.len() implies s[k1] < s[k2] by {
                    if k2 < i {
                        assert(s[k1] == o[k1] && s[k2] == o[k2]);
                    } else if k2 == i {
                        assert(s[k1] == o[k1] && s[k2] == t);
                    } else {
                        assert(s[k2] == o[k2 - 1]);
                        assert(i <= k2 - 1 < o.len());
                        assert(o[k2 - 1] >= o[i as int]);
                        if k1 < i {
                            assert(s[k1] == o[k1] && o[k1] < t);
                        } else if k1 == i {
                            assert(s[k1] == t);
                        } else {
                            assert(s[k1] == o[k1 - 1] && o[k1 - 1] < o[k2 - 1]);
                        }
                    }
                }
            }
            assert(sig_set(s) =~= sig_set(o).insert(t as int)) by {
                assert forall|x: int| #[trigger] sig_set(s).contains(x) implies sig_set(o).insert(
                    t as int,
                ).contains(x) by {
                    let k = choose|k: int| 0 <= k < s.len() && (#[trigger] s[k]) as int == x;
                    if k < i {
                        assert(o[k] as int == x);
                    } else if k > i {
                        assert(o[k - 1] as int == x);
                    }
                }
                assert forall|x: int| #[trigger] sig_set(o).insert(t as int).contains(x) implies
                    sig_set(s).contains(x) by {
                    if x == t as int {
                        assert(s[i as int] as int == x);
                    } else {
                        let k = choose|k: int| 0 <= k < o.len() && (#[trigger] o[k]) as int == x;
                        if k < i {
                            assert(s[k] as int == x);
                        } else {
                            assert(s[k + 1] as int == x);
                        }
                    }
                }
            }
        }
    }

    /// The signature of `data`: one token per non-empty word of it.
    pub fn new(data: &str) -> (r: Signature)
        ensures
            r.wf(),
            sig_set(r@) == tokens_of_data(data@),
    {
        let mut r = Signature { tokens: Vec::new() };
        proof {
            assert(strictly_sorted_i16(r@));
        }
        r.push(data);
        proof {
            assert(sig_set(Seq::<i16>::empty()) =~= Set::<int>::empty());
            assert(sig_set(r@) =~= tokens_of_data(data@));
        }
        r
    }

    /// Adds the tokens of further data to the signature.
    pub fn push(&mut self, data: &str)
        requires
            old(self).wf(),
        ensures
            final (self).wf(),
            sig_set(final (self)@) == sig_set(old(self)@).union(tokens_of_data(data@)),
    {
        let ghost base = sig_set(self@);
        let pieces = split_nonword(data);
        let n = pieces.len();
        proof {
            assert(pieces.deep_view().len() == pieces@.len());
            assert(sig_set(self@) =~= base.union(tokens_upto(data@, 0)));
        }
        let mut k: usize = 0;
        while k < n
            invariant
                0 <= k <= n,
                n == nonword_split(data@).len(),
                pieces.deep_view() == nonword_split(data@),
                n == pieces@.len(),
                self.wf(),
                sig_set(self@) == base.union(tokens_upto(data@, k as int)),
            decreases n - k,
        {
            proof {
                assert(pieces.deep_view()[k as int] == pieces@[k as int]@);
            }
            if !pieces[k].as_str().is_empty() {
                let t = token_of_exec(pieces[k].as_str());
                self.insert_token(t);
                proof {
                    assert(tokens_upto(data@, k + 1) =~= tokens_upto(data@, k as int).insert(
                        token_of(nonword_split(data@)[k as int]),
                    ));
                    assert(sig_set(self@) =~= base.union(tokens_upto(data@, k + 1)));
                }
            } else {
                proof {
                    assert(tokens_upto(data@, k + 1) =~= tokens_upto(data@, k as int));
                }
            }
            k += 1;
        }
        proof {
            lemma_tokens_upto_full(data@);
        }
    }

    /// Whether `t` is one of the tokens.
    fn contains_token(&self, t: i16) -> (r: bool)
        ensures
            r == self@.contains(t),
    {
        let n = self.tokens.len();
        let mut k: usize = 0;
        while k < n
            invariant
                0 <= k <= n,
                n == self@.len(),
                forall|j: int| 0 <= j < k ==> self@[j] != t,
            decreases n - k,
        {
            if self.tokens[k] == t {
                return true;
            }
            k += 1;
        }
        false
    }

    /// A new signature holding exactly the tokens shared with `other`.
    pub fn refine(&self, other: &Signature) -> (r: Signature)
        requires
            self.wf(),
            other.wf(),
        ensures
            r.wf(),
            sig_set(r@) == sig_set(self@).intersect(sig_set(other@)),
    {
        let n = self.tokens.len();
        let mut out: Vec<i16> = Vec::new();
        let mut k: usize = 0;
        while k < n
            invariant
                0 <= k <= n,
                n == self@.len(),
                self.wf(),
                strictly_sorted_i16(out@),
                out@.len() > 0 ==> exists|b: int| 0 <= b < k && out@.last() == self@[b],
                sig_set(out@) == sig_set(self@.subrange(0, k as int)).intersect(sig_set(other@)),
            decreases n - k,
        {
            let ghost pre = out@;
            let t = self.tokens[k];
            let keep = other.contains_token(t);
            if keep {
                proof {
                    if pre.len() > 0 {
                        let b = choose|b: int| 0 <= b < k && pre.last() == self@[b];
                        assert(self@[b] < self@[k as int]);
                    }
                }
                out.push(t);
                proof {
                    assert(strictly_sorted_i16(out@)) by {
                        assert forall|k1: int, k2: int|
                            0 <= k1 < k2 < out@.len() implies out@[k1] < out@[k2] by {
                            if k2 == out@.len() - 1 {
                                assert(out@[k1] == pre[k1]);
                                assert(pre[k1] <= pre.last());
                            } else {
                                assert(out@[k1] == pre[k1] && out@[k2] == pre[k2]);
                            }
                        }
                    }
                    assert(out@.last() == self@[k as int]);
                }
            }
            proof {
                let s1 = sig_set(self@.subrange(0, k as int));
                let s2 = sig_set(self@.subrange(0, k + 1));
                assert(s2 =~= s1.insert(self@[k as int] as int)) by {
                    let a = self@.subrange(0, k as int);
                    let a2 = self@.subrange(0, k + 1);
                    assert forall|x: int| #[trigger] s2.contains(x) implies s1.insert(
                        self@[k as int] as int,
                    ).contains(x) by {
                        let j = choose|j: int| 0 <= j < a2.len() && (#[trigger] a2[j]) as int == x;
                        if j < k {
                            assert(a[j] as int == x);
                        }
                    }
                    assert forall|x: int| #[trigger] s1.insert(self@[k as int] as int).contains(
                        x,
                    ) implies s2.contains(x) by {
                        if x == self@[k as int] as int {
                            assert(a2[k as int] as int == x);
                        } else {
                            let j = choose|j: int| 0 <= j < a.len() && (#[trigger] a[j]) as int
                                == x;
                            assert(a2[j] as int == x);
                        }
                    }
                }
                if keep {
                    assert(sig_set(out@) =~= sig_set(pre).insert(self@[k as int] as int)) by {
                        assert forall|x: int| #[trigger] sig_set(out@).contains(x) implies sig_set(
                            pre,
                        ).insert(self@[k as int] as int).contains(x) by {
                            let j = choose|j: int|
                                0 <= j < out@.len() && (#[trigger] out@[j]) as int == x;
                            if j < pre.len() {
                                assert(pre[j] as int == x);
                            }
                        }
                        assert forall|x: int| #[trigger] sig_set(pre).insert(
                            self@[k as int] as int,
                        ).contains(x) implies sig_set(out@).contains(x) by {
                            if x == self@[k as int] as int {
                                assert(out@[out@.len() - 1] as int == x);
                            } else {
                                let j = choose|j: int|
                                    0 <= j < pre.len() && (#[trigger] pre[j]) as int == x;
                                assert(out@[j] as int == x);
                            }
                        }
                    }
                    assert(sig_set(other@).contains(self@[k as int] as int)) by {
                        let w = choose|w: int|
                            0 <= w < other@.len() && other@[w] == self@[k as int];
                        assert(other@[w] as int == self@[k as int] as int);
                    }
                    assert(sig_set(out@) =~= s2.intersect(sig_set(other@)));
                } else {
                    assert(!sig_set(other@).contains(self@[k as int] as int)) by {
                        if sig_set(other@).contains(self@[k as int] as int) {
                            let w = choose|w: int|
                                0 <= w < other@.len() && (#[trigger] other@[w]) as int
                                    == self@[k as int] as int;
                            assert(other@[w] == self@[k as int]);
                            assert(other@.contains(self@[k as int]));
                        }
                    }
                    assert(sig_set(out@) =~= s2.intersect(sig_set(other@)));
                }
            }
            k += 1;
        }
        proof {
            assert(self@.subrange(0, n as int) =~= self@);
        }
        Signature { tokens: out }
    }

    /// Restricts the signature in place to the tokens shared with `other`.
    pub fn refine_bang(&mut self, other: &Signature)
        requires
            old(self).wf(),
            other.wf(),
        ensures
            final (self).wf(),
            sig_set(final (self)@) == sig_set(old(self)@).intersect(sig_set(other@)),
    {
        let refined = self.refine(other);
        self.tokens = refined.tokens;
    }

    /// An independent copy with the same tokens.
    pub fn dup(&self) -> (r: Signature)
        ensures
            r@ == self@,
    {
        let n = self.tokens.len();
        let mut copy: Vec<i16> = Vec::new();
        let mut k: usize = 0;
        while k < n
            invariant
                0 <= k <= n,
                n == self@.len(),
                copy@ =~= self@.subrange(0, k as int),
            decreases n - k,
        {
            copy.push(self.tokens[k]);
            k += 1;
            proof {
                assert(copy@ =~= self@.subrange(0, k as int));
            }
        }
        proof {
            assert(copy@ =~= self@);
        }
        Signature { tokens: copy }
    }

    /// Whether the signature holds no tokens.
    pub fn is_empty(&self) -> (r: bool)
        ensures
            r == (self@.len() == 0),
    {
        self.tokens.is_empty()
    }

    /// Removes every token.
    pub fn clear(&mut self)
        ensures
            final (self)@ == Seq::<i16>::empty(),
            final (self).wf(),
    {
        self.tokens.clear();
    }

    /// How many tokens are held.
    pub fn size(&self) -> (r: i64)
        requires
            self.wf(),
        ensures
            r == self@.len() as i64,
    {
        proof {
            lemma_sorted_i16_len(self@);
        }
        self.tokens.len() as i64
    }

    /// A stable hash of the whole token set.
    pub fn ahash(&self) -> (r: u64)
        ensures
            r == tokens_hash(self@),
    {
        hash_tokens(&self.tokens)
    }

    /// Whether two signatures hold exactly the same tokens.
    pub fn equals(&self, other: &Signature) -> (r: bool)
        ensures
            r == (self@ == other@),
    {
        let n = self.tokens.len();
        if n != other.tokens.len() {
            return false;
        }
        let mut k: usize = 0;
        while k < n
            invariant
                0 <= k <= n,
                n == self@.len() == other@.len(),
                forall|j: int| 0 <= j < k ==> self@[j] == other@[j],
            decreases n - k,
        {
            if self.tokens[k] != other.tokens[k] {
                return false;
            }
            k += 1;
        }
        proof {
            assert(self@ =~= other@);
        }
        true
    }


    /// A deterministic rendering of the tokens, ascending, for diagnostics.
    pub fn inspect(&self) -> (r: String)
        ensures
            r@ == sig_inspect_spec(self@),
    {
        let mut out = String::new();
        push_str(&mut out, "Signature {");
        let n = self.tokens.len();
        let mut k: usize = 0;
        while k < n
            invariant
                0 <= k <= n,
                n == self@.len(),
                out@ =~= "Signature {"@ + sig_entries_upto(self@, k as int),
            decreases n - k,
        {
            if k > 0 {
                push_str(&mut out, ", ");
            }
            push_dec_signed(&mut out, self.tokens[k] as i64);
            k += 1;
            proof {
                assert(out@ =~= "Signature {"@ + sig_entries_upto(self@, k as int));
            }
        }
        push_char(&mut out, '}');
        proof {
            assert(out@ =~= sig_inspect_spec(self@));
        }
        out
    }

    /// The sizes of the symmetric difference and of the union of the two
    /// token sets, counted over the duplicate-free token vectors; the raw
    /// material for a similarity ratio.
    pub fn difference_sizes(&self, other: &Signature) -> (r: (usize, usize))
        requires
            self.wf(),
            other.wf(),
        ensures
            r.0 == count_not_in(self@, other@, self@.len() as int) + count_not_in(
                other@,
                self@,
                other@.len() as int,
            ),
            r.1 == other@.len() + count_not_in(self@, other@, self@.len() as int),
    {
        proof {
            lemma_sorted_i16_len(self@);
            lemma_sorted_i16_len(other@);
            lemma_count_not_in_bound(self@, other@, self@.len() as int);
            lemma_count_not_in_bound(other@, self@, other@.len() as int);
        }
        let mine = self.count_missing_from(other);
        let theirs = other.count_missing_from(self);
        (mine + theirs, other.tokens.len() + mine)
    }

    /// How many of this signature's tokens `other` lacks.
    fn count_missing_from(&self, other: &Signature) -> (r: usize)
        requires
            self.wf(),
        ensures
            r == count_not_in(self@, other@, self@.len() as int),
    {
        proof {
            lemma_sorted_i16_len(self@);
            lemma_count_not_in_bound(self@, other@, self@.len() as int);
        }
        let n = self.tokens.len();
        let mut count: usize = 0;
        let mut k: usize = 0;
        while k < n
            invariant
                0 <= k <= n,
                n == self@.len(),
                count == count_not_in(self@, other@, k as int),
                count <= k,
            decreases n - k,
        {
            if !other.contains_token(self.tokens[k]) {
                count += 1;
            }
            k += 1;
        }
        count
    }
}

proof fn lemma_count_not_in_bound(a: Seq<i16>, b: Seq<i16>, k: int)
    requires
        k <= a.len(),
    ensures
        0 <= count_not_in(a, b, k) <= (if k >= 0 {
            k
        } else {
            0
        }),
    decreases k,
{
    if k > 0 {
        lemma_count_not_in_bound(a, b, k - 1);
    }
}

} // verus!
