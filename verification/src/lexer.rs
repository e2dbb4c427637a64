//! The tokenizer: a single forward pass over a slice of characters.

use vstd::prelude::*;
use vstd::slice::*;
use crate::chars::{
    ascii_upper, char_is_alphanumeric, char_is_numeric, char_is_whitespace, is_alphanumeric,
    is_numeric, is_whitespace, string_push, to_ascii_upper,
};

verus! {

/// Length of the longest prefix of `s` whose characters all satisfy `p`.
pub open spec fn leading(s: Seq<char>, p: spec_fn(char) -> bool) -> nat
    decreases s.len(),
{
    if s.len() > 0 && p(s[0]) {
        1 + leading(s.drop_first(), p)
    } else {
        0
    }
}

/// `s` without its leading whitespace.
pub open spec fn trimmed(s: Seq<char>) -> Seq<char> {
    s.skip(leading(s, |c: char| is_whitespace(c)) as int)
}

/// Number of characters that the token at the start of `s` spans.
/// Meant for a non-empty `s` that does not start with whitespace.
pub open spec fn token_len(s: Seq<char>) -> nat {
    if is_numeric(s[0]) {
        leading(s, |c: char| is_numeric(c))
    } else if is_alphanumeric(s[0]) {
        leading(s, |c: char| is_alphanumeric(c))
    } else {
        1
    }
}

/// The normalized token at the start of `s`: a run of digits as it stands, a
/// run of alphanumerics in upper case, or one other character as it stands.
pub open spec fn token_text(s: Seq<char>) -> Seq<char> {
    let raw = s.take(token_len(s) as int);
    if !is_numeric(s[0]) && is_alphanumeric(s[0]) {
        raw.map_values(|c: char| ascii_upper(c))
    } else {
        raw
    }
}

/// All tokens of `s`, in order.
pub open spec fn tokens(s: Seq<char>) -> Seq<Seq<char>>
    decreases s.len(),
    via tokens_terminates
{
    let r = trimmed(s);
    if r.len() == 0 {
        Seq::empty()
    } else {
        seq![token_text(r)] + tokens(r.skip(token_len(r) as int))
    }
}

#[via_fn]
proof fn tokens_terminates(s: Seq<char>) {
    let r = trimmed(s);
    if r.len() != 0 {
        lemma_leading(s, |c: char| is_whitespace(c));
        lemma_token_len(r);
    }
}

/// `leading(s, p)` is within `s`, every character before it satisfies `p`,
/// and the character at it, if any, does not.
pub proof fn lemma_leading(s: Seq<char>, p: spec_fn(char) -> bool)
    ensures
        leading(s, p) <= s.len(),
        forall|i: int| 0 <= i < leading(s, p) ==> p(#[trigger] s[i]),
        leading(s, p) < s.len() ==> !p(s[leading(s, p) as int]),
    decreases s.len(),
{
    if s.len() > 0 && p(s[0]) {
        let t = s.drop_first();
        lemma_leading(t, p);
        assert forall|i: int| 0 <= i < leading(s, p) implies p(#[trigger] s[i]) by {
            if i > 0 {
                assert(s[i] == t[i - 1]);
            }
        }
    }
}

/// A prefix length with the three properties of `lemma_leading` is `leading(s, p)`.
pub proof fn lemma_leading_unique(s: Seq<char>, p: spec_fn(char) -> bool, n: nat)
    requires
        n <= s.len(),
        forall|i: int| 0 <= i < n ==> p(#[trigger] s[i]),
        n < s.len() ==> !p(s[n as int]),
    ensures
        leading(s, p) == n,
    decreases s.len(),
{
    if n > 0 {
        lemma_leading_unique(s.drop_first(), p, (n - 1) as nat);
    }
}

/// The token at the start of a non-empty input spans at least one character
/// and no more than the input has.
pub proof fn lemma_token_len(s: Seq<char>)
    requires
        s.len() > 0,
    ensures
        1 <= token_len(s) <= s.len(),
{
    lemma_leading(s, |c: char| is_numeric(c));
    lemma_leading(s, |c: char| is_alphanumeric(c));
}

/// What a token is. The token at the start of a non-empty input that does
/// not start with whitespace is a run of numeric characters that no numeric
/// character follows, taken as it stands; or a run of alphanumeric
/// characters that no alphanumeric character follows, its ASCII letters in
/// upper case; or one character that is neither numeric nor alphanumeric,
/// taken as it stands.
pub proof fn lemma_token_shape(s: Seq<char>)
    requires
        s.len() > 0,
        !is_whitespace(s[0]),
    ensures
        1 <= token_len(s) <= s.len(),
        token_text(s).len() == token_len(s),
        is_numeric(s[0]) ==> token_text(s) == s.take(token_len(s) as int) && (forall|i: int|
            0 <= i < token_len(s) ==> is_numeric(#[trigger] s[i])) && (token_len(s) < s.len()
            ==> !is_numeric(s[token_len(s) as int])),
        !is_numeric(s[0]) && is_alphanumeric(s[0]) ==> (forall|i: int|
            0 <= i < token_len(s) ==> is_alphanumeric(#[trigger] s[i]) && token_text(s)[i]
                == ascii_upper(s[i])) && (token_len(s) < s.len() ==> !is_alphanumeric(
            s[token_len(s) as int],
        )),
        !is_numeric(s[0]) && !is_alphanumeric(s[0]) ==> token_text(s) == seq![s[0]],
{
    lemma_leading(s, |c: char| is_numeric(c));
    lemma_leading(s, |c: char| is_alphanumeric(c));
    if !is_numeric(s[0]) && !is_alphanumeric(s[0]) {
        assert(s.take(1) =~= seq![s[0]]);
    }
}

/// Whitespace separates tokens and is no token: the tokens of an input are
/// those of the input without its leading whitespace, an input of nothing
/// but whitespace has no tokens, and every other input has a first token.
pub proof fn lemma_tokens_skip_whitespace(s: Seq<char>)
    ensures
        tokens(s) == tokens(trimmed(s)),
        trimmed(s).len() > 0 ==> !is_whitespace(trimmed(s)[0]) && tokens(s).len() > 0
            && tokens(s)[0] == token_text(trimmed(s)),
        trimmed(s).len() == 0 ==> tokens(s).len() == 0,
{
    lemma_leading(s, |c: char| is_whitespace(c));
    let r = trimmed(s);
    if r.len() > 0 {
        lemma_leading_unique(r, |c: char| is_whitespace(c), 0);
        assert(trimmed(r) =~= r);
    } else {
        assert(trimmed(r) =~= r);
    }
}

/// A cursor over the characters that are still to be tokenized.
#[derive(Debug)]
pub struct Lexer<'a> {
    pub content: &'a [char],
}

impl<'a> Lexer<'a> {
    /// A lexer at the start of `content`.
    pub fn new(content: &'a [char]) -> (lexer: Self)
        ensures
            lexer.content@ == content@,
    {
        Lexer { content }
    }

    /// Drops the whitespace at the start of the remaining input.
    pub fn trim_left(&mut self)
        ensures
            final(self).content@ == trimmed(old(self).content@),
    {
        let ghost p = |c: char| is_whitespace(c);
        let ghost s = self.content@;
        let mut n: usize = 0;
        while n < self.content.len() && char_is_whitespace(self.content[n])
            invariant
                self.content@ == s,
                n <= s.len(),
                forall|i: int| 0 <= i < n ==> is_whitespace(#[trigger] s[i]),
            decreases s.len() - n,
        {
            n += 1;
        }
        proof {
            lemma_leading_unique(s, p, n as nat);
        }
        self.content = slice_subrange(self.content, n, self.content.len());
    }

    /// Takes the first `n` characters off the remaining input and returns them.
    pub fn chop(&mut self, n: usize) -> (token: &'a [char])
        requires
            n <= old(self).content@.len(),
        ensures
            token@ == old(self).content@.take(n as int),
            final(self).content@ == old(self).content@.skip(n as int),
    {
        let token = slice_subrange(self.content, 0, n);
        self.content = slice_subrange(self.content, n, self.content.len());
        token
    }

    /// Takes characters off the remaining input for as long as `predicate`
    /// accepts them and returns them.
    pub fn chop_while<P>(&mut self, predicate: P) -> (token: &'a [char]) where
        P: Fn(&char) -> bool,

        requires
            forall|c: char| call_requires(predicate, (&c,)),
        ensures
            token@.len() <= old(self).content@.len(),
            token@ == old(self).content@.take(token@.len() as int),
            final(self).content@ == old(self).content@.skip(token@.len() as int),
            forall|i: int|
                0 <= i < token@.len() ==> call_ensures(predicate, (&#[trigger] token@[i],), true),
            final(self).content@.len() > 0 ==> call_ensures(
                predicate,
                (&final(self).content@[0],),
                false,
            ),
    {
        let ghost s = self.content@;
        let mut n: usize = 0;
        loop
            invariant
                self.content@ == s,
                n <= s.len(),
                forall|c: char| call_requires(predicate, (&c,)),
                forall|i: int| 0 <= i < n ==> call_ensures(predicate, (&#[trigger] s[i],), true),
            ensures
                n <= s.len(),
                n < s.len() ==> call_ensures(predicate, (&s[n as int],), false),
            decreases s.len() - n,
        {
            if n >= self.content.len() {
                break;
            }
            let accepted = predicate(&self.content[n]);
            if !accepted {
                break;
            }
            n += 1;
        }
        self.chop(n)
    }

    /// Skips whitespace and takes the next token off the remaining input;
    /// `None` once nothing but whitespace was left.
    pub fn next_token(&mut self) -> (token: Option<String>)
        ensures
            trimmed(old(self).content@).len() == 0 ==> token is None && final(self).content@.len()
                == 0,
            trimmed(old(self).content@).len() > 0 ==> token is Some && token->0@ == token_text(
                trimmed(old(self).content@),
            ) && final(self).content@ == trimmed(old(self).content@).skip(
                token_len(trimmed(old(self).content@)) as int,
            ),
    {
        self.trim_left();
        let ghost r = self.content@;
        if self.content.is_empty() {
            return None;
        }
        if char_is_numeric(self.content[0]) {
            let numeric = |x: &char| -> (b: bool)
                ensures
                    b == is_numeric(*x),
                { char_is_numeric(*x) };
            let run = self.chop_while(numeric);
            proof {
                assert forall|i: int| 0 <= i < run@.len() implies is_numeric(#[trigger] r[i]) by {
                    assert(call_ensures(numeric, (&run@[i],), true));
                }
                lemma_leading_unique(r, |c: char| is_numeric(c), run@.len());
            }
            return Some(collect(run));
        }
        if char_is_alphanumeric(self.content[0]) {
            let alphanumeric = |x: &char| -> (b: bool)
                ensures
                    b == is_alphanumeric(*x),
                { char_is_alphanumeric(*x) };
            let run = self.chop_while(alphanumeric);
            proof {
                assert forall|i: int| 0 <= i < run@.len() implies is_alphanumeric(
                    #[trigger] r[i],
                ) by {
                    assert(call_ensures(alphanumeric, (&run@[i],), true));
                }
                lemma_leading_unique(r, |c: char| is_alphanumeric(c), run@.len());
            }
            return Some(collect_upper(run));
        }
        Some(collect(self.chop(1)))
    }
}

/// The characters of `chars` as a string.
fn collect(chars: &[char]) -> (s: String)
    ensures
        s@ == chars@,
{
    let mut s = String::new();
    let mut i: usize = 0;
    while i < chars.len()
        invariant
            i <= chars@.len(),
            s@ == chars@.take(i as int),
        decreases chars@.len() - i,
    {
        string_push(&mut s, chars[i]);
        i += 1;
    }
    s
}

/// The characters of `chars` as a string, ASCII letters in upper case.
fn collect_upper(chars: &[char]) -> (s: String)
    ensures
        s@ == chars@.map_values(|c: char| ascii_upper(c)),
{
    let mut s = String::new();
    let mut i: usize = 0;
    while i < chars.len()
        invariant
            i <= chars@.len(),
            s@ == chars@.take(i as int).map_values(|c: char| ascii_upper(c)),
        decreases chars@.len() - i,
    {
        string_push(&mut s, to_ascii_upper(chars[i]));
        i += 1;
    }
    s
}

/// All tokens of `content`, in order.
pub fn tokenize(content: &[char]) -> (out: Vec<String>)
    ensures
        out.deep_view() == tokens(content@),
{
    let mut lexer = Lexer::new(content);
    let mut out: Vec<String> = Vec::new();
    loop
        invariant
            lexer.content@.len() <= content@.len(),
            tokens(content@) == out.deep_view() + tokens(lexer.content@),
        ensures
            tokens(content@) == out.deep_view(),
        decreases lexer.content@.len(),
    {
        let ghost before = lexer.content@;
        proof {
            lemma_leading(before, |c: char| is_whitespace(c));
            if trimmed(before).len() > 0 {
                lemma_token_len(trimmed(before));
            }
        }
        match lexer.next_token() {
            None => {
                break;
            },
            Some(t) => {
                out.push(t);
            },
        }
    }
    out
}

} // verus!
