//! The tokenizer: raw text to a flat sequence of tokens.
use vstd::prelude::*;

use crate::token::{Marker, Token, TokenModel, token_models};
use vstd::std_specs::iter::IteratorSpec;

verus! {

broadcast use vstd::std_specs::vec::group_vec_axioms;

/// Whether a character is an emphasis marker.
pub open spec fn is_marker(c: char) -> bool {
    c == '*' || c == '_'
}

/// The marker a marker character stands for.
pub open spec fn marker_of(c: char) -> Marker {
    if c == '*' {
        Marker::Star
    } else {
        Marker::Underscore
    }
}

/// The pending text, as a token if it is not empty.
pub open spec fn flush(w: Seq<char>) -> Seq<TokenModel> {
    if w.len() == 0 {
        seq![]
    } else {
        seq![TokenModel::Text(w)]
    }
}

/// The tokens of `s`, given the text `w` collected before it.
pub open spec fn lex(s: Seq<char>, w: Seq<char>) -> Seq<TokenModel>
    decreases s.len(), 0nat,
{
    if s.len() == 0 {
        flush(w).push(TokenModel::End)
    } else if s[0] == '\\' {
        if s.len() == 1 {
            flush(w).push(TokenModel::End)
        } else {
            lex(s.skip(2), w.push(s[1]))
        }
    } else if is_marker(s[0]) {
        flush(w) + lex_run(s.drop_first(), s[0], 1)
    } else {
        lex(s.drop_first(), w.push(s[0]))
    }
}

/// The tokens of `s`, inside a run of `n` copies of the marker character `c`.
pub open spec fn lex_run(s: Seq<char>, c: char, n: nat) -> Seq<TokenModel>
    decreases s.len(), 1nat,
{
    if s.len() > 0 && s[0] == c {
        lex_run(s.drop_first(), c, n + 1)
    } else {
        seq![TokenModel::Run(marker_of(c), n)] + lex(s, seq![])
    }
}

/// The tokens of a whole input.
pub open spec fn tokenize_model(s: Seq<char>) -> Seq<TokenModel> {
    lex(s, seq![])
}

/// The characters of the string, in order.
fn chars_of(s: &str) -> (r: Vec<char>)
    ensures
        r@ == s@,
{
    broadcast use vstd::string::axiom_spec_iter, vstd::string::next_postcondition;

    let mut it = s.chars();
    let mut r: Vec<char> = Vec::new();
    loop
        invariant
            r@ + it.remaining() == s@,
            it.decrease() is Some,
        ensures
            r@ == s@,
        decreases it.decrease()->0,
    {
        match it.next() {
            Some(c) => {
                r.push(c);
                assert(r@ + it.remaining() =~= s@);
            },
            None => {
                assert(r@ =~= s@);
                break ;
            },
        }
    }
    r
}

/// Relies on String::push: appends one character.
#[verifier::external_body]
pub(crate) fn push_char(s: &mut String, c: char)
    ensures
        final(s)@ == old(s)@.push(c),
{
    s.push(c)
}

/// Splits the source text into text runs and delimiter runs, ending with
/// `EndOfInput`. A backslash makes the next character literal; a backslash
/// at the very end is dropped.
pub fn tokenize(source: String) -> (tokens: Vec<Token>)
    ensures
        token_models(tokens@) == tokenize_model(source@),
{
    let cs = chars_of(source.as_str());
    let n = cs.len();
    let mut tokens: Vec<Token> = Vec::new();
    let mut window = String::new();
    let mut i: usize = 0;
    proof {
        assert(cs@.skip(0) =~= cs@);
    }
    while i < n
        invariant
            n == cs@.len(),
            cs@ == source@,
            i <= n,
            tokenize_model(source@) == token_models(tokens@) + lex(cs@.skip(i as int), window@),
        decreases n - i,
    {
        let c = cs[i];
        proof {
            assert(cs@.skip(i as int)[0] == c);
            assert(cs@.skip(i as int).drop_first() =~= cs@.skip(i + 1));
        }
        if c == '\\' {
            if i + 1 < n {
                proof {
                    assert(cs@.skip(i as int).skip(2) =~= cs@.skip(i + 2));
                }
                push_char(&mut window, cs[i + 1]);
                i = i + 2;
            } else {
                proof {
                    assert(cs@.skip(i + 1).len() == 0);
                }
                i = i + 1;
            }
        } else if c == '*' || c == '_' {
            let ghost before = tokens@;
            let ghost w = window@;
            if !window.as_str().is_empty() {
                tokens.push(Token::Text(window));
                window = String::new();
            }
            proof {
                assert(token_models(tokens@) =~= token_models(before) + flush(w));
            }
            let mut k: usize = i + 1;
            while k < n && cs[k] == c
                invariant
                    n == cs@.len(),
                    i < k <= n,
                    cs@[i as int] == c,
                    lex_run(cs@.skip(i + 1), c, 1) == lex_run(cs@.skip(k as int), c, (k - i) as nat),
                decreases n - k,
            {
                proof {
                    assert(cs@.skip(k as int).drop_first() =~= cs@.skip(k + 1));
                }
                k = k + 1;
            }
            let m = if c == '*' {
                Marker::Star
            } else {
                Marker::Underscore
            };
            let ghost mid = tokens@;
            proof {
                assert(window@ =~= Seq::<char>::empty());
                assert(marker_of(c) == m);
            }
            tokens.push(Token::DelimiterRun(m, k - i));
            proof {
                assert(token_models(tokens@) =~= token_models(mid).push(TokenModel::Run(m, (k - i) as nat)));
                assert(k < n ==> cs@.skip(k as int)[0] != c);
                assert(lex(cs@.skip(i as int), w) == flush(w) + lex_run(cs@.skip(i + 1), c, 1));
                assert(lex_run(cs@.skip(k as int), c, (k - i) as nat)
                    == seq![TokenModel::Run(m, (k - i) as nat)] + lex(cs@.skip(k as int), window@));
                assert(token_models(tokens@) + lex(cs@.skip(k as int), window@)
                    =~= token_models(before) + (flush(w) + (seq![TokenModel::Run(m, (k - i) as nat)] + lex(cs@.skip(k as int), window@))));
            }
            i = k;
        } else {
            push_char(&mut window, c);
            i = i + 1;
        }
    }
    let ghost before = tokens@;
    proof {
        assert(cs@.skip(i as int).len() == 0);
    }
    if !window.as_str().is_empty() {
        tokens.push(Token::Text(window));
    }
    tokens.push(Token::EndOfInput);
    proof {
        assert(token_models(tokens@) =~= token_models(before) + lex(cs@.skip(i as int), window@));
    }
    tokens
}

/// A token sequence that is read from the front.
#[derive(Debug)]
pub struct TokenizedString {
    pub tokens: Vec<Token>,
}

impl TokenizedString {
    /// The models of the tokens still held.
    pub open spec fn model(&self) -> Seq<TokenModel> {
        token_models(self.tokens@)
    }

    /// The tokens of `source`.
    pub fn new(source: String) -> (r: TokenizedString)
        ensures
            r.model() == tokenize_model(source@),
    {
        TokenizedString { tokens: tokenize(source) }
    }

    /// A copy of the token at `offset` from the front.
    pub fn peek(&self, offset: usize) -> (r: Token)
        requires
            offset < self.tokens@.len(),
        ensures
            r@ == self.model()[offset as int],
    {
        self.tokens[offset].duplicate()
    }

    /// Takes the token at the front.
    pub fn pop(&mut self) -> (r: Token)
        requires
            old(self).tokens@.len() > 0,
        ensures
            r@ == old(self).model()[0],
            final(self).model() == old(self).model().drop_first(),
    {
        let r = self.tokens.remove(0);
        proof {
            assert(self.model() =~= old(self).model().drop_first());
        }
        r
    }
}

} // verus!
