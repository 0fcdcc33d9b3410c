//! The tokenizer: turns a plain-text buffer into the sequence of terms the
//! index is built from.
//!
//! Classification, applied left to right, longest match first:
//! a run of whitespace is skipped; a numeric character starts a maximal
//! numeric run; an alphabetic character starts a maximal alphanumeric run
//! (so a digit-led run stops at the first alphabetic character); any other
//! character is a token by itself.

use vstd::prelude::*;
use vstd::slice::slice_subrange;

verus! {

// ------------------------------------------------------------------
// Character classes, relied on from the standard library.
// ------------------------------------------------------------------

/// Whether `char::is_whitespace` holds of `c`.
pub uninterp spec fn is_ws(c: char) -> bool;

/// Whether `char::is_numeric` holds of `c`.
pub uninterp spec fn is_num(c: char) -> bool;

/// Whether `char::is_alphabetic` holds of `c`.
pub uninterp spec fn is_alpha(c: char) -> bool;

/// A character that may continue an alphabetic-led token.
pub open spec fn is_alnum(c: char) -> bool {
    is_alpha(c) || is_num(c)
}

/// Relies on char::is_whitespace: a property of the character alone.
#[verifier::external_body]
fn char_is_ws(c: char) -> (r: bool)
    ensures
        r == is_ws(c),
{
    c.is_whitespace()
}

/// Relies on char::is_numeric: a property of the character alone.
#[verifier::external_body]
fn char_is_num(c: char) -> (r: bool)
    ensures
        r == is_num(c),
{
    c.is_numeric()
}

/// Relies on char::is_alphabetic: a property of the character alone.
#[verifier::external_body]
fn char_is_alpha(c: char) -> (r: bool)
    ensures
        r == is_alpha(c),
{
    c.is_alphabetic()
}

/// Relies on char::is_alphanumeric, documented to hold exactly when
/// char::is_alphabetic or char::is_numeric does.
#[verifier::external_body]
fn char_is_alnum(c: char) -> (r: bool)
    ensures
        r == is_alnum(c),
{
    c.is_alphanumeric()
}

// ------------------------------------------------------------------
// The mathematical token model.
// ------------------------------------------------------------------

/// Length of the longest prefix of `s` whose characters all satisfy `p`.
pub open spec fn run_len(s: Seq<char>, p: spec_fn(char) -> bool) -> nat
    decreases s.len(),
{
    if s.len() > 0 && p(s[0]) {
        (1 + run_len(s.skip(1), p)) as nat
    } else {
        0
    }
}

pub open spec fn ws_p() -> spec_fn(char) -> bool {
    |c: char| is_ws(c)
}

pub open spec fn num_p() -> spec_fn(char) -> bool {
    |c: char| is_num(c)
}

pub open spec fn alnum_p() -> spec_fn(char) -> bool {
    |c: char| is_alnum(c)
}

/// Length of the token that starts at the head of `s` (0 for an empty `s`).
/// The head is assumed not to be whitespace; a whitespace head that is
/// neither numeric nor alphabetic would count as a one-character token.
pub open spec fn token_len(s: Seq<char>) -> nat {
    if s.len() == 0 {
        0
    } else if is_num(s[0]) {
        run_len(s, num_p())
    } else if is_alpha(s[0]) {
        run_len(s, alnum_p())
    } else {
        1
    }
}

/// The token sequence of `s`: skip leading whitespace, then take tokens.
pub open spec fn tokens_of(s: Seq<char>) -> Seq<Seq<char>>
    decreases s.len(), 1int,
        via tokens_of_decreases
{
    tokens_trimmed(s.skip(run_len(s, ws_p()) as int))
}

/// The token sequence of a buffer with no leading whitespace.
pub open spec fn tokens_trimmed(r: Seq<char>) -> Seq<Seq<char>>
    decreases r.len(), 0int,
        via tokens_trimmed_decreases
{
    if r.len() == 0 {
        Seq::empty()
    } else {
        seq![r.take(token_len(r) as int)] + tokens_of(r.skip(token_len(r) as int))
    }
}

#[via_fn]
proof fn tokens_of_decreases(s: Seq<char>) {
    lemma_run_len(s, ws_p());
}

#[via_fn]
proof fn tokens_trimmed_decreases(r: Seq<char>) {
    if r.len() > 0 {
        lemma_token_len(r);
    }
}

/// The maximal run: every character before `run_len` satisfies `p`, and the
/// one at `run_len`, if any, does not.
pub proof fn lemma_run_len(s: Seq<char>, p: spec_fn(char) -> bool)
    ensures
        run_len(s, p) <= s.len(),
        forall|j: int| 0 <= j < run_len(s, p) ==> p(s[j]),
        run_len(s, p) < s.len() ==> !p(s[run_len(s, p) as int]),
    decreases s.len(),
{
    if s.len() > 0 && p(s[0]) {
        lemma_run_len(s.skip(1), p);
        assert forall|j: int| 0 <= j < run_len(s, p) implies p(s[j]) by {
            if j > 0 {
                assert(p(s.skip(1)[j - 1]));
            }
        }
        if run_len(s, p) < s.len() {
            assert(!p(s.skip(1)[run_len(s, p) - 1]));
        }
    }
}

/// `run_len` is the unique boundary with those properties.
pub proof fn lemma_run_len_is(s: Seq<char>, p: spec_fn(char) -> bool, n: nat)
    requires
        n <= s.len(),
        forall|j: int| 0 <= j < n ==> p(s[j]),
        n < s.len() ==> !p(s[n as int]),
    ensures
        run_len(s, p) == n,
    decreases s.len(),
{
    if n == 0 {
        if s.len() > 0 {
            assert(!p(s[0]));
        }
    } else {
        assert(p(s[0]));
        assert forall|j: int| 0 <= j < n - 1 implies p(s.skip(1)[j]) by {
            assert(s.skip(1)[j] == s[j + 1]);
        }
        if n < s.len() {
            assert(s.skip(1)[n - 1] == s[n as int]);
        }
        lemma_run_len_is(s.skip(1), p, (n - 1) as nat);
    }
}

/// A token is at least one character and no more than the whole buffer.
pub proof fn lemma_token_len(s: Seq<char>)
    requires
        s.len() > 0,
    ensures
        1 <= token_len(s) <= s.len(),
{
    if is_num(s[0]) {
        assert(num_p()(s[0]));
        lemma_run_len(s, num_p());
    } else if is_alpha(s[0]) {
        assert(alnum_p()(s[0]));
        lemma_run_len(s, alnum_p());
    }
}

/// Dropping one leading whitespace character leaves the tokens unchanged.
pub proof fn lemma_tokens_of_trim(s: Seq<char>)
    requires
        s.len() > 0,
        is_ws(s[0]),
    ensures
        tokens_of(s) == tokens_of(s.skip(1)),
{
    assert(ws_p()(s[0]));
    lemma_run_len(s.skip(1), ws_p());
    assert(s.skip(run_len(s, ws_p()) as int) =~= s.skip(1).skip(run_len(s.skip(1), ws_p()) as int));
}

/// On a buffer with no leading whitespace, nothing is skipped.
pub proof fn lemma_tokens_of_no_ws(s: Seq<char>)
    requires
        s.len() == 0 || !is_ws(s[0]),
    ensures
        tokens_of(s) == tokens_trimmed(s),
{
    if s.len() > 0 {
        assert(!ws_p()(s[0]));
    }
    assert(run_len(s, ws_p()) == 0);
    assert(s.skip(0) =~= s);
}

/// `run_len` over a concatenation: the run either stops inside the first
/// part or swallows it whole and continues into the second.
pub proof fn lemma_run_len_concat(a: Seq<char>, b: Seq<char>, p: spec_fn(char) -> bool)
    ensures
        run_len(a + b, p) == if run_len(a, p) < a.len() {
            run_len(a, p) as int
        } else {
            a.len() + run_len(b, p) as int
        },
    decreases a.len(),
{
    if a.len() == 0 {
        assert(a + b =~= b);
    } else {
        assert((a + b)[0] == a[0]);
        if p(a[0]) {
            assert((a + b).skip(1) =~= a.skip(1) + b);
            lemma_run_len_concat(a.skip(1), b, p);
        }
    }
}

/// A buffer of whitespace alone yields no tokens at all.
pub proof fn lemma_all_ws_no_tokens(w: Seq<char>)
    requires
        forall|i: int| 0 <= i < w.len() ==> is_ws(#[trigger] w[i]),
    ensures
        tokens_of(w) == Seq::<Seq<char>>::empty(),
{
    assert forall|i: int| 0 <= i < w.len() implies ws_p()(w[i]) by {
        assert(is_ws(w[i]));
    }
    lemma_run_len_is(w, ws_p(), w.len());
    assert(w.skip(w.len() as int) =~= Seq::<char>::empty());
}

/// A separator run: whitespace characters, none of them numeric or
/// alphabetic, as every actual whitespace character is.
pub open spec fn sep_run(w: Seq<char>) -> bool {
    w.len() >= 1 && forall|i: int|
        0 <= i < w.len() ==> is_ws(#[trigger] w[i]) && !is_num(w[i]) && !is_alpha(w[i])
}

/// Whitespace only separates: the tokens of `u + w + v` are the tokens of
/// `u` followed by the tokens of `v`, whatever separator run stands between
/// them. Consecutive whitespace of any length and kind therefore collapses,
/// contributing no token between its neighbors.
pub proof fn lemma_ws_separates(u: Seq<char>, w: Seq<char>, v: Seq<char>)
    requires
        sep_run(w),
    ensures
        tokens_of(u + w + v) == tokens_of(u) + tokens_of(v),
    decreases u.len(),
{
    let s = u + w + v;
    let k = run_len(u, ws_p());
    lemma_run_len(u, ws_p());
    lemma_run_len_concat(u, w + v, ws_p());
    assert(u + w + v =~= u + (w + v));
    if k == u.len() {
        // `u` is all whitespace: everything up to `v`'s first token is skipped.
        lemma_run_len_concat(w, v, ws_p());
        assert forall|i: int| 0 <= i < w.len() implies ws_p()(w[i]) by {
            assert(is_ws(w[i]));
        }
        lemma_run_len_is(w, ws_p(), w.len());
        lemma_run_len(v, ws_p());
        let rv = run_len(v, ws_p());
        assert(run_len(s, ws_p()) == u.len() + w.len() + rv);
        assert(s.skip(run_len(s, ws_p()) as int) =~= v.skip(rv as int));
        assert(u.skip(k as int) =~= Seq::<char>::empty());
        assert(tokens_of(u) == Seq::<Seq<char>>::empty());
        assert(tokens_of(s) == tokens_trimmed(v.skip(rv as int)));
        assert(tokens_of(v) == tokens_trimmed(v.skip(rv as int)));
        assert(Seq::<Seq<char>>::empty() + tokens_of(v) =~= tokens_of(v));
    } else {
        // The whitespace run stops inside `u`; one token of `u` comes first.
        assert(run_len(s, ws_p()) == k);
        let u1 = u.skip(k as int);
        assert(u1.len() > 0);
        assert(!is_ws(u1[0]));
        assert(s.skip(k as int) =~= u1 + w + v);
        assert(s.skip(k as int) =~= u1 + (w + v));
        lemma_token_len(u1);
        let tl = token_len(u1);
        assert((u1 + (w + v))[0] == u1[0]);
        // The token of `u1 + w + v` is the token of `u1`: the run cannot
        // enter `w`, whose first character is neither numeric nor alphabetic.
        assert(token_len(u1 + (w + v)) == tl) by {
            if is_num(u1[0]) {
                lemma_run_len_concat(u1, w + v, num_p());
                if run_len(u1, num_p()) == u1.len() {
                    assert((w + v)[0] == w[0]);
                    assert(!num_p()(w[0]));
                    assert(run_len(w + v, num_p()) == 0);
                }
            } else if is_alpha(u1[0]) {
                lemma_run_len_concat(u1, w + v, alnum_p());
                if run_len(u1, alnum_p()) == u1.len() {
                    assert((w + v)[0] == w[0]);
                    assert(!alnum_p()(w[0]));
                    assert(run_len(w + v, alnum_p()) == 0);
                }
            }
        }
        assert((u1 + (w + v)).take(tl as int) =~= u1.take(tl as int));
        assert((u1 + (w + v)).skip(tl as int) =~= u1.skip(tl as int) + w + v);
        lemma_ws_separates(u1.skip(tl as int), w, v);
        assert(tokens_of(s) == tokens_trimmed(u1 + (w + v)));
        assert(tokens_trimmed(u1 + (w + v)) == seq![u1.take(tl as int)] + (tokens_of(
            u1.skip(tl as int),
        ) + tokens_of(v)));
        assert(tokens_of(u) == tokens_trimmed(u1));
        assert(tokens_trimmed(u1) == seq![u1.take(tl as int)] + tokens_of(u1.skip(tl as int)));
        assert(seq![u1.take(tl as int)] + (tokens_of(u1.skip(tl as int)) + tokens_of(v)) =~= (
        seq![u1.take(tl as int)] + tokens_of(u1.skip(tl as int))) + tokens_of(v));
    }
}

/// Two separator runs are interchangeable: the tokens do not depend on the
/// length or kind of the whitespace between two neighbors.
pub proof fn lemma_ws_collapse(u: Seq<char>, w1: Seq<char>, w2: Seq<char>, v: Seq<char>)
    requires
        sep_run(w1),
        sep_run(w2),
    ensures
        tokens_of(u + w1 + v) == tokens_of(u + w2 + v),
{
    lemma_ws_separates(u, w1, v);
    lemma_ws_separates(u, w2, v);
}

// ------------------------------------------------------------------
// The executable lexer.
// ------------------------------------------------------------------

/// A lazy, non-restartable token stream over a borrowed character buffer.
/// It re-slices the buffer from the left as tokens are consumed.
pub struct Lexer<'a> {
    content: &'a [char],
}

impl<'a> View for Lexer<'a> {
    type V = Seq<char>;

    closed spec fn view(&self) -> Seq<char> {
        self.content@
    }
}

impl<'a> Lexer<'a> {
    pub fn new(content: &'a [char]) -> (l: Lexer<'a>)
        ensures
            l@ == content@,
    {
        Lexer { content }
    }

    /// Split off the first `n` characters and keep the rest.
    fn slice(&mut self, n: usize) -> (r: &'a [char])
        requires
            n <= old(self)@.len(),
        ensures
            r@ == old(self)@.take(n as int),
            final(self)@ == old(self)@.skip(n as int),
    {
        let token = slice_subrange(self.content, 0, n);
        self.content = slice_subrange(self.content, n, self.content.len());
        proof {
            assert(token@ =~= old(self)@.take(n as int));
            assert(self.content@ =~= old(self)@.skip(n as int));
        }
        token
    }

    /// Split off the maximal prefix whose characters satisfy the predicate.
    fn slice_while<P: Fn(char) -> bool>(
        &mut self,
        predicate: P,
        Ghost(p): Ghost<spec_fn(char) -> bool>,
    ) -> (r: &'a [char])
        requires
            forall|c: char| #[trigger] call_requires(predicate, (c,)),
            forall|c: char, b: bool| #[trigger] call_ensures(predicate, (c,), b) ==> b == p(c),
        ensures
            r@ == old(self)@.take(run_len(old(self)@, p) as int),
            final(self)@ == old(self)@.skip(run_len(old(self)@, p) as int),
    {
        let mut n: usize = 0;
        while n < self.content.len() && predicate(self.content[n])
            invariant
                n <= self.content@.len(),
                forall|c: char| #[trigger] call_requires(predicate, (c,)),
                forall|c: char, b: bool| #[trigger] call_ensures(predicate, (c,), b) ==> b == p(c),
                forall|j: int| 0 <= j < n ==> p(self.content@[j]),
            decreases self.content@.len() - n,
        {
            n += 1;
        }
        proof {
            lemma_run_len_is(self.content@, p, n as nat);
        }
        self.slice(n)
    }

    /// The next token, if any: the head of the model token sequence. The
    /// remaining buffer is always a tail of the old one: the lexer only ever
    /// re-slices from the left, never restarts.
    pub fn next_token(&mut self) -> (r: Option<&'a [char]>)
        ensures
            final(self)@.is_suffix_of(old(self)@),
            ({
                let toks = tokens_of(old(self)@);
                match r {
                    None => toks.len() == 0 && final(self)@.len() == 0,
                    Some(t) => {
                        &&& toks.len() > 0
                        &&& t@ == toks[0]
                        &&& t@.len() > 0
                        &&& tokens_of(final(self)@) == toks.skip(1)
                        &&& final(self)@.len() <= old(self)@.len() - t@.len()
                    },
                }
            }),
    {
        // Trim left-hand whitespace.
        while self.content.len() > 0 && char_is_ws(self.content[0])
            invariant
                tokens_of(self.content@) == tokens_of(old(self)@),
                self.content@.len() <= old(self)@.len(),
                self.content@.is_suffix_of(old(self)@),
            decreases self.content@.len(),
        {
            proof {
                lemma_tokens_of_trim(self.content@);
            }
            let ghost before = self.content@;
            let len = self.content.len();
            self.content = slice_subrange(self.content, 1, len);
            proof {
                assert(self.content@ =~= before.skip(1));
                assert(self.content@ =~= old(self)@.subrange(
                    old(self)@.len() - self.content@.len(),
                    old(self)@.len() as int,
                ));
            }
        }

        proof {
            lemma_tokens_of_no_ws(self.content@);
        }

        // End of input?
        if self.content.len() == 0 {
            proof {
                assert(self.content@ =~= old(self)@.subrange(
                    old(self)@.len() as int,
                    old(self)@.len() as int,
                ));
            }
            return None;
        }

        let ghost cur = self.content@;
        let ghost toks = tokens_of(old(self)@);
        proof {
            lemma_token_len(cur);
            assert(toks == seq![cur.take(token_len(cur) as int)] + tokens_of(
                cur.skip(token_len(cur) as int),
            ));
        }

        let r: &'a [char];
        if char_is_num(self.content[0]) {
            // A maximal numeric run.
            r = self.slice_while(char_is_num, Ghost(num_p()));
            proof {
                assert(token_len(cur) == run_len(cur, num_p()));
            }
        } else if char_is_alpha(self.content[0]) {
            // A maximal alphanumeric run led by an alphabetic character.
            r = self.slice_while(char_is_alnum, Ghost(alnum_p()));
            proof {
                assert(token_len(cur) == run_len(cur, alnum_p()));
            }
        } else {
            // Any other character is a token by itself.
            r = self.slice(1);
            proof {
                assert(token_len(cur) == 1);
            }
        }
        proof {
            assert(r@ == toks[0]);
            assert(tokens_of(self.content@) =~= toks.skip(1));
            assert(self.content@ =~= old(self)@.subrange(
                old(self)@.len() - self.content@.len(),
                old(self)@.len() as int,
            ));
        }
        Some(r)
    }
}

/// The whole token sequence of a buffer, each token an owned vector.
pub fn tokenize(text: &[char]) -> (r: Vec<Vec<char>>)
    ensures
        r.deep_view() == tokens_of(text@),
{
    let mut lx = Lexer::new(text);
    let mut out: Vec<Vec<char>> = Vec::new();
    loop
        invariant
            out.deep_view() + tokens_of(lx@) == tokens_of(text@),
        decreases lx@.len(),
    {
        let ghost prev = out.deep_view();
        let ghost prev_vecs = out@;
        let ghost ltoks = tokens_of(lx@);
        match lx.next_token() {
            Some(t) => {
                let v = vstd::slice::slice_to_vec(t);
                out.push(v);
                proof {
                    assert(v.deep_view() =~= t@);
                    assert forall|i: int| 0 <= i < out.deep_view().len() implies out.deep_view()[i]
                        == prev.push(t@)[i] by {
                        if i < prev_vecs.len() {
                            assert(out@[i] == prev_vecs[i]);
                        } else {
                            assert(out@[i] == v);
                        }
                    }
                    assert(out.deep_view() =~= prev.push(t@));
                    assert(prev.push(t@) + tokens_of(lx@) =~= prev + ltoks);
                }
            },
            None => {
                proof {
                    assert(out.deep_view() =~= tokens_of(text@));
                }
                return out;
            },
        }
    }
}

} // verus!
