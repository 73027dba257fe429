//! Tokens produced by the tokenizer, and their mathematical model.
use vstd::prelude::*;

verus! {

/// The two emphasis marker characters.
#[derive(Clone, Copy, Debug, PartialEq, Eq, Structural)]
pub enum Marker {
    Star,
    Underscore,
}

/// The character a marker is written with.
pub open spec fn marker_char(m: Marker) -> char {
    match m {
        Marker::Star => '*',
        Marker::Underscore => '_',
    }
}

/// One token of the input.
#[derive(Clone, Debug, PartialEq, Eq)]
pub enum Token {
    /// A maximal run of characters that are not unescaped markers.
    Text(String),
    /// A maximal run of one marker character, with its length.
    DelimiterRun(Marker, usize),
    /// The sentinel that ends every token sequence.
    EndOfInput,
}

/// The mathematical model of a token.
pub enum TokenModel {
    Text(Seq<char>),
    Run(Marker, nat),
    End,
}

impl View for Token {
    type V = TokenModel;

    open spec fn view(&self) -> TokenModel {
        match self {
            Token::Text(s) => TokenModel::Text(s@),
            Token::DelimiterRun(m, n) => TokenModel::Run(*m, *n as nat),
            Token::EndOfInput => TokenModel::End,
        }
    }
}

/// The models of a sequence of tokens.
pub open spec fn token_models(v: Seq<Token>) -> Seq<TokenModel> {
    v.map_values(|t: Token| t@)
}

impl Token {
    /// A copy of the token.
    pub fn duplicate(&self) -> (r: Token)
        ensures
            r@ == self@,
    {
        match self {
            Token::Text(s) => Token::Text(s.clone()),
            Token::DelimiterRun(m, n) => Token::DelimiterRun(*m, *n),
            Token::EndOfInput => Token::EndOfInput,
        }
    }
}

} // verus!
