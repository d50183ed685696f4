//! Splitting text into tokens.
//!
//! A token is a run of numeric characters, a run of alphanumeric characters
//! that starts with an alphabetic one, or any other single character that is
//! not whitespace. Whitespace separates tokens and belongs to none.

use vstd::prelude::*;
use vstd::slice::slice_subrange;
use crate::text::{alphabetic, alphanumeric, numeric, whitespace};

verus! {

/// The length of the longest prefix of `s` all of whose characters satisfy `p`.
pub open spec fn run(s: Seq<char>, p: spec_fn(char) -> bool) -> nat
    decreases s.len(),
{
    if s.len() > 0 && p(s[0]) {
        1 + run(s.drop_first(), p)
    } else {
        0
    }
}

/// `s` without its leading whitespace.
pub open spec fn trimmed(s: Seq<char>) -> Seq<char> {
    s.skip(run(s, |c: char| whitespace(c)) as int)
}

/// The length of the token at the start of `s`, where `s` is not empty and
/// does not start with whitespace.
pub open spec fn token_len(s: Seq<char>) -> nat {
    if numeric(s[0]) {
        run(s, |c: char| numeric(c))
    } else if alphabetic(s[0]) {
        run(s, |c: char| alphanumeric(c))
    } else {
        1
    }
}

/// The tokens of `s`, in order.
pub open spec fn tokens(s: Seq<char>) -> Seq<Seq<char>>
    decreases s.len(),
    via tokens_decreases
{
    let rest = trimmed(s);
    if rest.len() == 0 {
        Seq::empty()
    } else {
        seq![rest.take(token_len(rest) as int)] + tokens(rest.skip(token_len(rest) as int))
    }
}

#[via_fn]
proof fn tokens_decreases(s: Seq<char>) {
    let rest = trimmed(s);
    lemma_run_bounds(s, |c: char| whitespace(c));
    if rest.len() > 0 {
        lemma_token_len_bounds(rest);
    }
}

/// A run is no longer than the sequence, holds only characters that satisfy
/// the predicate, and ends at the end of the sequence or before a character
/// that does not.
pub proof fn lemma_run_bounds(s: Seq<char>, p: spec_fn(char) -> bool)
    ensures
        run(s, p) <= s.len(),
        forall|i: int| 0 <= i < run(s, p) ==> p(#[trigger] s[i]),
        run(s, p) < s.len() ==> !p(s[run(s, p) as int]),
    decreases s.len(),
{
    if s.len() > 0 && p(s[0]) {
        let t = s.drop_first();
        lemma_run_bounds(t, p);
        assert forall|i: int| 0 <= i < run(s, p) implies p(#[trigger] s[i]) by {
            if i > 0 {
                assert(s[i] == t[i - 1]);
            }
        }
        if run(s, p) < s.len() {
            assert(s[run(s, p) as int] == t[run(t, p) as int]);
        }
    }
}

/// The prefix of length `n` is the run if all of it satisfies the predicate
/// and what follows it does not.
pub proof fn lemma_run_is(s: Seq<char>, p: spec_fn(char) -> bool, n: nat)
    requires
        n <= s.len(),
        forall|i: int| 0 <= i < n ==> p(#[trigger] s[i]),
        n < s.len() ==> !p(s[n as int]),
    ensures
        run(s, p) == n,
    decreases s.len(),
{
    if n > 0 {
        let t = s.drop_first();
        assert forall|i: int| 0 <= i < n - 1 implies p(#[trigger] t[i]) by {
            assert(t[i] == s[i + 1]);
        }
        lemma_run_is(t, p, (n - 1) as nat);
    }
}

/// A token has at least one character and lies within the text.
pub proof fn lemma_token_len_bounds(s: Seq<char>)
    requires
        s.len() > 0,
    ensures
        1 <= token_len(s) <= s.len(),
{
    lemma_run_bounds(s, |c: char| numeric(c));
    lemma_run_bounds(s, |c: char| alphanumeric(c));
}

/// How the tokens of `s` unfold: there are none where only whitespace is left,
/// else the first token follows the leading whitespace and the others are the
/// tokens of what follows it, which is shorter than `s`.
pub proof fn lemma_tokens_step(s: Seq<char>)
    ensures
        trimmed(s).len() <= s.len(),
        trimmed(s).len() == 0 ==> tokens(s) == Seq::<Seq<char>>::empty(),
        trimmed(s).len() > 0 ==> {
            let rest = trimmed(s);
            let n = token_len(rest) as int;
            &&& 1 <= n <= rest.len()
            &&& tokens(s) == seq![rest.take(n)] + tokens(rest.skip(n))
        },
{
    lemma_run_bounds(s, |c: char| whitespace(c));
    if trimmed(s).len() > 0 {
        lemma_token_len_bounds(trimmed(s));
    }
}

/// A tokenizer over a borrowed character buffer. It holds nothing but the part
/// of the buffer that it has not consumed yet.
#[derive(Debug)]
pub struct Lexer<'a> {
    content: &'a [char],
}

impl<'a> View for Lexer<'a> {
    type V = Seq<char>;

    /// The characters that are still to be read.
    closed spec fn view(&self) -> Seq<char> {
        self.content@
    }
}

impl<'a> Lexer<'a> {
    /// A tokenizer at the start of `content`.
    pub fn new(content: &'a [char]) -> (lexer: Self)
        ensures
            lexer@ == content@,
    {
        Self { content }
    }

    /// The number of characters that are still to be read.
    pub fn remaining(&self) -> (n: usize)
        ensures
            n == self@.len(),
    {
        self.content.len()
    }

    /// Drops the leading whitespace.
    pub fn trim_left(&mut self)
        ensures
            final(self)@ == trimmed(old(self)@),
    {
        let ghost start = self.content@;
        let mut n: usize = 0;
        let mut blank: bool = true;
        while blank && n < self.content.len()
            invariant
                self.content@ == start,
                n <= start.len(),
                forall|i: int| 0 <= i < n ==> whitespace(#[trigger] start[i]),
                !blank ==> n < start.len() && !whitespace(start[n as int]),
            decreases start.len() - n, if blank { 1int } else { 0int },
        {
            if self.content[n].is_whitespace() {
                n += 1;
            } else {
                blank = false;
            }
        }
        proof {
            lemma_run_is(start, |c: char| whitespace(c), n as nat);
        }
        self.content = slice_subrange(self.content, n, self.content.len());
    }

    /// Takes the first `n` characters off the buffer and returns them.
    pub fn chop(&mut self, n: usize) -> (token: &'a [char])
        requires
            n <= old(self)@.len(),
        ensures
            token@ == old(self)@.take(n as int),
            final(self)@ == old(self)@.skip(n as int),
    {
        let token = slice_subrange(self.content, 0, n);
        self.content = slice_subrange(self.content, n, self.content.len());
        token
    }

    /// Takes the longest prefix whose characters all satisfy `predicate` off
    /// the buffer and returns it.
    pub fn chop_while<P>(&mut self, predicate: P) -> (token: &'a [char]) where
        P: Fn(&char) -> bool,

        requires
            forall|c: char| call_requires(predicate, (&c,)),
        ensures
            token@.len() <= old(self)@.len(),
            token@ == old(self)@.take(token@.len() as int),
            final(self)@ == old(self)@.skip(token@.len() as int),
            forall|i: int|
                0 <= i < token@.len() ==> call_ensures(predicate, (&#[trigger] token@[i],), true),
            final(self)@.len() > 0 ==> call_ensures(predicate, (&final(self)@[0],), false),
    {
        let ghost start = self.content@;
        let mut n: usize = 0;
        let mut holds: bool = true;
        while holds && n < self.content.len()
            invariant
                self.content@ == start,
                n <= start.len(),
                forall|c: char| call_requires(predicate, (&c,)),
                forall|i: int|
                    0 <= i < n ==> call_ensures(predicate, (&#[trigger] start[i],), true),
                !holds ==> n < start.len() && call_ensures(predicate, (&start[n as int],), false),
            decreases start.len() - n, if holds { 1int } else { 0int },
        {
            if predicate(&self.content[n]) {
                n += 1;
            } else {
                holds = false;
            }
        }
        let token = self.chop(n);
        proof {
            assert forall|i: int| 0 <= i < token@.len() implies call_ensures(
                predicate,
                (&#[trigger] token@[i],),
                true,
            ) by {
                assert(token@[i] == start[i]);
            }
            if self.content@.len() > 0 {
                assert(self.content@[0] == start[n as int]);
            }
        }
        token
    }

    /// The next token, or `None` when nothing but whitespace is left.
    pub fn next_token(&mut self) -> (token: Option<&'a [char]>)
        ensures
            match token {
                None => trimmed(old(self)@).len() == 0 && final(self)@.len() == 0,
                Some(t) => {
                    let rest = trimmed(old(self)@);
                    &&& rest.len() > 0
                    &&& t@ == rest.take(token_len(rest) as int)
                    &&& final(self)@ == rest.skip(token_len(rest) as int)
                },
            },
    {
        self.trim_left();
        if self.content.len() == 0 {
            return None;
        }
        let ghost rest = self.content@;
        if self.content[0].is_numeric() {
            let in_number = |c: &char| -> (b: bool)
                ensures
                    b == numeric(*c),
                {
                    c.is_numeric()
                };
            let token = self.chop_while(in_number);
            proof {
                assert forall|i: int| 0 <= i < token@.len() implies numeric(#[trigger] rest[i]) by {
                    assert(token@[i] == rest[i]);
                }
                if token@.len() < rest.len() {
                    assert(self.content@[0] == rest[token@.len() as int]);
                }
                lemma_run_is(rest, |c: char| numeric(c), token@.len());
            }
            return Some(token);
        }
        if self.content[0].is_alphabetic() {
            let in_word = |c: &char| -> (b: bool)
                ensures
                    b == alphanumeric(*c),
                {
                    c.is_alphanumeric()
                };
            let token = self.chop_while(in_word);
            proof {
                assert forall|i: int| 0 <= i < token@.len() implies alphanumeric(
                    #[trigger] rest[i],
                ) by {
                    assert(token@[i] == rest[i]);
                }
                if token@.len() < rest.len() {
                    assert(self.content@[0] == rest[token@.len() as int]);
                }
                lemma_run_is(rest, |c: char| alphanumeric(c), token@.len());
            }
            return Some(token);
        }
        Some(self.chop(1))
    }
}

/// The tokens of `content`, in order, as slices of it.
pub fn tokenize<'a>(content: &'a [char]) -> (result: Vec<&'a [char]>)
    ensures
        result@.len() == tokens(content@).len(),
        forall|i: int| 0 <= i < result@.len() ==> (#[trigger] result@[i])@ == tokens(content@)[i],
{
    let mut lexer = Lexer::new(content);
    let mut result: Vec<&'a [char]> = Vec::new();
    loop
        invariant
            tokens(content@).len() == result@.len() + tokens(lexer@).len(),
            forall|i: int|
                0 <= i < result@.len() ==> (#[trigger] result@[i])@ == tokens(content@)[i],
            forall|i: int|
                0 <= i < tokens(lexer@).len() ==> tokens(content@)[result@.len() + i] == tokens(
                    lexer@,
                )[i],
        ensures
            tokens(lexer@).len() == 0,
        decreases lexer@.len(),
    {
        let ghost left = lexer@;
        proof {
            lemma_tokens_step(left);
        }
        match lexer.next_token() {
            None => {
                break ;
            },
            Some(token) => {
                assert(tokens(left)[0] == token@);
                result.push(token);
                assert forall|i: int| 0 <= i < tokens(lexer@).len() implies tokens(
                    content@,
                )[result@.len() + i] == tokens(lexer@)[i] by {
                    assert(tokens(left)[i + 1] == tokens(lexer@)[i]);
                }
            },
        }
    }
    result
}

} // verus!
