//! General laws of the tokenizer and the parser.
use vstd::prelude::*;

use crate::ast::Tree;
use crate::parser::{
    WalkModel, append, close_attempts, consumed, dissolve_to, find_opener,
    parse_attempts, parse_model, pop_open, push_open, start, step, walk, walk_attempts,
};
use crate::token::TokenModel;
use crate::tokenizer::{flush, is_marker, lex, lex_run, tokenize_model};

verus! {

/// Whether no character of `s` is a marker or a backslash.
pub open spec fn is_plain(s: Seq<char>) -> bool {
    forall|i: int| 0 <= i < s.len() ==> !is_marker(#[trigger] s[i]) && s[i] != '\\'
}

/// Whether every marker of `s` is escaped by a backslash, and `s` does not
/// end in a lone backslash.
pub open spec fn all_escaped(s: Seq<char>) -> bool
    decreases s.len(),
{
    if s.len() == 0 {
        true
    } else if s[0] == '\\' {
        s.len() >= 2 && all_escaped(s.skip(2))
    } else {
        !is_marker(s[0]) && all_escaped(s.drop_first())
    }
}

/// `s` with each escaping backslash removed.
pub open spec fn unescape(s: Seq<char>) -> Seq<char>
    decreases s.len(),
{
    if s.len() == 0 {
        seq![]
    } else if s[0] == '\\' {
        if s.len() >= 2 {
            seq![s[1]] + unescape(s.skip(2))
        } else {
            seq![]
        }
    } else {
        seq![s[0]] + unescape(s.drop_first())
    }
}

/// The total length of the delimiter runs in a token sequence.
pub open spec fn run_units(toks: Seq<TokenModel>) -> nat
    decreases toks.len(),
{
    if toks.len() == 0 {
        0
    } else {
        let here = match toks[0] {
            TokenModel::Run(_, n) => n,
            _ => 0,
        };
        here + run_units(toks.drop_first())
    }
}

proof fn lemma_lex_escaped(s: Seq<char>, w: Seq<char>)
    requires
        all_escaped(s),
    ensures
        lex(s, w) == flush(w + unescape(s)).push(TokenModel::End),
    decreases s.len(),
{
    if s.len() == 0 {
        assert(w + unescape(s) =~= w);
    } else if s[0] == '\\' {
        lemma_lex_escaped(s.skip(2), w.push(s[1]));
        assert(w.push(s[1]) + unescape(s.skip(2)) =~= w + unescape(s));
    } else {
        lemma_lex_escaped(s.drop_first(), w.push(s[0]));
        assert(w.push(s[0]) + unescape(s.drop_first()) =~= w + unescape(s));
    }
}

proof fn lemma_plain_is_escaped(s: Seq<char>)
    requires
        is_plain(s),
    ensures
        all_escaped(s),
        unescape(s) == s,
    decreases s.len(),
{
    if s.len() > 0 {
        assert(!is_marker(s[0]) && s[0] != '\\');
        assert(is_plain(s.drop_first())) by {
            assert forall|i: int| 0 <= i < s.drop_first().len() implies !is_marker(
                #[trigger] s.drop_first()[i],
            ) && s.drop_first()[i] != '\\' by {
                assert(s.drop_first()[i] == s[i + 1]);
            }
        }
        lemma_plain_is_escaped(s.drop_first());
        assert(seq![s[0]] + s.drop_first() =~= s);
    }
}

/// Escape fidelity: text in which every marker is escaped is one text token
/// holding the text without its escaping backslashes (or no text token at all
/// when that is empty), followed by the end marker; no delimiter run is made.
pub proof fn escape_fidelity(s: Seq<char>)
    requires
        all_escaped(s),
    ensures
        unescape(s).len() > 0 ==> tokenize_model(s) == seq![
            TokenModel::Text(unescape(s)),
            TokenModel::End,
        ],
        unescape(s).len() == 0 ==> tokenize_model(s) == seq![TokenModel::End],
        forall|i: int| 0 <= i < tokenize_model(s).len() ==> !(#[trigger] tokenize_model(s)[i] is Run),
{
    lemma_lex_escaped(s, seq![]);
    assert(seq![] + unescape(s) =~= unescape(s));
    if unescape(s).len() > 0 {
        assert(tokenize_model(s) =~= seq![TokenModel::Text(unescape(s)), TokenModel::End]);
    } else {
        assert(tokenize_model(s) =~= seq![TokenModel::End]);
    }
}

/// Round-trip literality: non-empty text without markers or backslashes
/// parses to a document holding that text alone.
pub proof fn plain_round_trip(s: Seq<char>)
    requires
        is_plain(s),
        s.len() > 0,
    ensures
        parse_model(tokenize_model(s)) == Tree::Document(seq![Tree::Text(s)]),
{
    lemma_plain_is_escaped(s);
    escape_fidelity(s);
    let toks = tokenize_model(s);
    let st1 = append(start(), seq![Tree::Text(s)]);
    assert(step(toks, 0, start()) == st1);
    assert(walk(toks, 1, st1) == st1);
    assert(walk(toks, 0, start()) == st1);
    assert(st1.root =~= seq![Tree::Text(s)]);
}

proof fn lemma_close_attempts(st: WalkModel, m: crate::token::Marker, r: nat)
    ensures
        close_attempts(st, m, r) <= r,
    decreases r,
{
    if r > 0 {
        let j = find_opener(st.open, m);
        if j >= 0 {
            let st1 = dissolve_to(st, (j + 1) as nat);
            let f = st1.open.last();
            let c = consumed(f.rem, r);
            let node = if c == 2 {
                Tree::Bold(f.kids)
            } else {
                Tree::Italics(f.kids)
            };
            let next = if f.rem <= c {
                append(pop_open(st1), seq![node])
            } else {
                push_open(pop_open(st1), m, (f.rem - c) as nat, seq![node])
            };
            lemma_close_attempts(next, m, (r - c) as nat);
        }
    }
}

proof fn lemma_walk_attempts(toks: Seq<TokenModel>, i: nat, st: WalkModel)
    requires
        i <= toks.len(),
    ensures
        walk_attempts(toks, i, st) <= run_units(toks.skip(i as int)),
    decreases toks.len() - i,
{
    if i < toks.len() {
        assert(toks.skip(i as int)[0] == toks[i as int]);
        assert(toks.skip(i as int).drop_first() =~= toks.skip((i + 1) as int));
        if !(toks[i as int] is End) {
            lemma_walk_attempts(toks, i + 1, step(toks, i as int, st));
            if let TokenModel::Run(m, n) = toks[i as int] {
                lemma_close_attempts(st, m, n);
            }
        }
    }
}

proof fn lemma_run_units_concat(a: Seq<TokenModel>, b: Seq<TokenModel>)
    ensures
        run_units(a + b) == run_units(a) + run_units(b),
    decreases a.len(),
{
    if a.len() > 0 {
        assert((a + b).drop_first() =~= a.drop_first() + b);
        lemma_run_units_concat(a.drop_first(), b);
    } else {
        assert(a + b =~= b);
    }
}

proof fn lemma_flush_end_units(w: Seq<char>)
    ensures
        run_units(flush(w)) == 0,
        run_units(flush(w).push(TokenModel::End)) == 0,
{
    let e = seq![TokenModel::End];
    assert(run_units(e.drop_first()) == 0);
    assert(flush(w).push(TokenModel::End) =~= flush(w) + e);
    lemma_run_units_concat(flush(w), e);
    if w.len() > 0 {
        assert(run_units(flush(w).drop_first()) == 0);
    }
}

proof fn lemma_lex_units(s: Seq<char>, w: Seq<char>)
    ensures
        run_units(lex(s, w)) <= s.len(),
    decreases s.len(), 0nat,
{
    lemma_flush_end_units(w);
    if s.len() > 0 {
        if s[0] == '\\' {
            if s.len() > 1 {
                lemma_lex_units(s.skip(2), w.push(s[1]));
            }
        } else if is_marker(s[0]) {
            lemma_lex_run_units(s.drop_first(), s[0], 1);
            lemma_run_units_concat(flush(w), lex_run(s.drop_first(), s[0], 1));
        } else {
            lemma_lex_units(s.drop_first(), w.push(s[0]));
        }
    }
}

proof fn lemma_lex_run_units(s: Seq<char>, c: char, n: nat)
    ensures
        run_units(lex_run(s, c, n)) <= n + s.len(),
    decreases s.len(), 1nat,
{
    if s.len() > 0 && s[0] == c {
        lemma_lex_run_units(s.drop_first(), c, n + 1);
    } else {
        let head = seq![TokenModel::Run(crate::tokenizer::marker_of(c), n)];
        lemma_lex_units(s, seq![]);
        lemma_run_units_concat(head, lex(s, seq![]));
        assert(run_units(head.drop_first()) == 0);
    }
}

/// Matching work is bounded by the input: a parse makes at most as many
/// matching attempts as its tokens hold delimiter units.
pub proof fn matching_attempts_bounded(toks: Seq<TokenModel>)
    ensures
        parse_attempts(toks) <= run_units(toks),
{
    lemma_walk_attempts(toks, 0, start());
    assert(toks.skip(0) =~= toks);
}

/// Matching work is linear: parsing the tokens of a text of `N` characters
/// makes at most `N` matching attempts.
pub proof fn matching_attempts_linear(s: Seq<char>)
    ensures
        parse_attempts(tokenize_model(s)) <= s.len(),
{
    matching_attempts_bounded(tokenize_model(s));
    lemma_lex_units(s, seq![]);
}

} // verus!
