//! The emphasis parser: stack-based delimiter matching over a token sequence.
//!
//! Tokens are walked left to right. A delimiter run that comes right after
//! text ending in white space and right before text starting with a
//! character that is not white space cannot close; it opens (so the inner
//! `**` of `**a **b** c**` opens a nested span). Each delimiter run that
//! closes nothing becomes an opener on a stack; the text and trees that follow it
//! are collected as its children. A run that may close looks for the nearest
//! opener of the same marker: openers above that one are given up (their
//! marker becomes literal text and their children move down), and the
//! matched opener's children are wrapped in a `Bold` node (two units from
//! each side, when both have two) or an `Italics` node (one unit each).
//! What is left of the closer is matched again, or becomes an opener.
//! At the end every opener still on the stack becomes literal text.
use vstd::prelude::*;

use crate::ast::{ASTNode, Tree, lemma_model_children, models};
use crate::token::{Marker, Token, TokenModel, marker_char};
use crate::tokenizer::{TokenizedString, push_char};

verus! {

broadcast use vstd::std_specs::vec::group_vec_axioms;

/// An opener still on the stack: its marker, its units not yet matched, and
/// the trees collected after it.
pub struct OpenModel {
    pub marker: Marker,
    pub rem: nat,
    pub kids: Seq<Tree>,
}

/// The state of a walk: the document's children so far, and the opener stack
/// with the most recent opener last.
pub struct WalkModel {
    pub root: Seq<Tree>,
    pub open: Seq<OpenModel>,
}

/// `k` copies of a marker's character.
pub open spec fn literal(m: Marker, k: nat) -> Seq<char> {
    Seq::new(k, |i: int| marker_char(m))
}

/// Whether a character counts as white space before a delimiter run.
pub open spec fn is_space(c: char) -> bool {
    c == ' ' || c == '\t' || c == '\n' || c == '\r'
}

/// Whether text ends with white space.
pub open spec fn ends_with_space(s: Seq<char>) -> bool {
    s.len() > 0 && is_space(s.last())
}

/// Whether text starts with a character that is not white space.
pub open spec fn starts_with_non_space(s: Seq<char>) -> bool {
    s.len() > 0 && !is_space(s[0])
}

/// Whether the delimiter run at `i` may close an opener: it may unless it
/// comes right after text that ends with white space and right before text
/// that starts with a character that is not white space.
pub open spec fn can_close(toks: Seq<TokenModel>, i: int) -> bool {
    !(i > 0 && (toks[i - 1] matches TokenModel::Text(s) && ends_with_space(s)) && i + 1
        < toks.len() && (toks[i + 1] matches TokenModel::Text(t) && starts_with_non_space(t)))
}

/// Appends trees to the innermost open span, or to the document.
pub open spec fn append(st: WalkModel, ts: Seq<Tree>) -> WalkModel {
    if st.open.len() == 0 {
        WalkModel { root: st.root + ts, open: st.open }
    } else {
        let top = st.open.last();
        WalkModel {
            root: st.root,
            open: st.open.update(
                st.open.len() - 1,
                OpenModel { marker: top.marker, rem: top.rem, kids: top.kids + ts },
            ),
        }
    }
}

/// Pushes a new opener with no children yet.
pub open spec fn push_open(st: WalkModel, m: Marker, r: nat, kids: Seq<Tree>) -> WalkModel {
    WalkModel { root: st.root, open: st.open.push(OpenModel { marker: m, rem: r, kids: kids }) }
}

/// Removes the innermost opener.
pub open spec fn pop_open(st: WalkModel) -> WalkModel {
    WalkModel { root: st.root, open: st.open.drop_last() }
}

/// Gives up the innermost opener: its units become literal text, followed by
/// its children, in the span below it.
pub open spec fn dissolve_top(st: WalkModel) -> WalkModel {
    let f = st.open.last();
    append(pop_open(st), seq![Tree::Text(literal(f.marker, f.rem))] + f.kids)
}

/// Gives up openers until at most `keep` are left.
pub open spec fn dissolve_to(st: WalkModel, keep: nat) -> WalkModel
    decreases st.open.len(),
{
    if st.open.len() > keep {
        dissolve_to(dissolve_top(st), keep)
    } else {
        st
    }
}

/// The position of the innermost opener with marker `m`, or -1.
pub open spec fn find_opener(open: Seq<OpenModel>, m: Marker) -> int
    decreases open.len(),
{
    if open.len() == 0 {
        -1
    } else if open.last().marker == m {
        open.len() - 1
    } else {
        find_opener(open.drop_last(), m)
    }
}

/// The units consumed from each side by one match.
pub open spec fn consumed(opener: nat, closer: nat) -> nat {
    if opener >= 2 && closer >= 2 {
        2
    } else {
        1
    }
}

/// Matches `r` closing units of marker `m` against the stack, as often as
/// an opener is found; what is left becomes an opener.
pub open spec fn close(st: WalkModel, m: Marker, r: nat) -> WalkModel
    decreases r,
{
    if r == 0 {
        st
    } else {
        let j = find_opener(st.open, m);
        if j < 0 {
            push_open(st, m, r, seq![])
        } else {
            let st1 = dissolve_to(st, (j + 1) as nat);
            let f = st1.open.last();
            let c = consumed(f.rem, r);
            let node = if c == 2 {
                Tree::Bold(f.kids)
            } else {
                Tree::Italics(f.kids)
            };
            if f.rem <= c {
                close(append(pop_open(st1), seq![node]), m, (r - c) as nat)
            } else {
                close(push_open(pop_open(st1), m, (f.rem - c) as nat, seq![node]), m, (r - c) as nat)
            }
        }
    }
}

/// One token's effect on the walk state; `i` is its position.
pub open spec fn step(toks: Seq<TokenModel>, i: int, st: WalkModel) -> WalkModel {
    match toks[i] {
        TokenModel::Text(s) => append(st, seq![Tree::Text(s)]),
        TokenModel::Run(m, n) => if n == 0 {
            st
        } else if can_close(toks, i) {
            close(st, m, n)
        } else {
            push_open(st, m, n, seq![])
        },
        TokenModel::End => st,
    }
}

/// The walk over the tokens from position `i`, stopping at the end marker.
pub open spec fn walk(toks: Seq<TokenModel>, i: nat, st: WalkModel) -> WalkModel
    decreases toks.len() - i,
{
    if i >= toks.len() || toks[i as int] is End {
        st
    } else {
        walk(toks, i + 1, step(toks, i as int, st))
    }
}

/// The empty walk state.
pub open spec fn start() -> WalkModel {
    WalkModel { root: seq![], open: seq![] }
}

/// The tree that a token sequence parses to.
pub open spec fn parse_model(toks: Seq<TokenModel>) -> Tree {
    Tree::Document(dissolve_to(walk(toks, 0, start()), 0).root)
}

/// The number of matching attempts that `close` makes: one search of the
/// stack for each round, and a round for each match.
pub open spec fn close_attempts(st: WalkModel, m: Marker, r: nat) -> nat
    decreases r,
{
    if r == 0 {
        0
    } else {
        let j = find_opener(st.open, m);
        if j < 0 {
            1
        } else {
            let st1 = dissolve_to(st, (j + 1) as nat);
            let f = st1.open.last();
            let c = consumed(f.rem, r);
            let node = if c == 2 {
                Tree::Bold(f.kids)
            } else {
                Tree::Italics(f.kids)
            };
            let next = if f.rem <= c {
                append(pop_open(st1), seq![node])
            } else {
                push_open(pop_open(st1), m, (f.rem - c) as nat, seq![node])
            };
            1 + close_attempts(next, m, (r - c) as nat)
        }
    }
}

/// The matching attempts of a walk from position `i`.
pub open spec fn walk_attempts(toks: Seq<TokenModel>, i: nat, st: WalkModel) -> nat
    decreases toks.len() - i,
{
    if i >= toks.len() || toks[i as int] is End {
        0
    } else {
        let here = match toks[i as int] {
            TokenModel::Run(m, n) => if n > 0 && can_close(toks, i as int) {
                close_attempts(st, m, n)
            } else {
                0
            },
            _ => 0,
        };
        here + walk_attempts(toks, i + 1, step(toks, i as int, st))
    }
}

/// The matching attempts of a whole parse.
pub open spec fn parse_attempts(toks: Seq<TokenModel>) -> nat {
    walk_attempts(toks, 0, start())
}

/// Giving up openers down to `keep` leaves exactly `keep` of them.
proof fn lemma_dissolve_len(st: WalkModel, keep: nat)
    requires
        st.open.len() >= keep,
    ensures
        dissolve_to(st, keep).open.len() == keep,
    decreases st.open.len(),
{
    if st.open.len() > keep {
        lemma_dissolve_len(dissolve_top(st), keep);
    }
}

/// An opener on the stack during parsing.
struct OpenRun {
    marker: Marker,
    rem: usize,
    kids: Vec<ASTNode>,
}

impl OpenRun {
    spec fn model(&self) -> OpenModel {
        OpenModel { marker: self.marker, rem: self.rem as nat, kids: models(self.kids@) }
    }
}

spec fn open_models(s: Seq<OpenRun>) -> Seq<OpenModel> {
    s.map_values(|o: OpenRun| o.model())
}

/// The state of a walk during parsing.
struct Walker {
    root: Vec<ASTNode>,
    open: Vec<OpenRun>,
}

/// `k` copies of a marker's character, as a string.
fn literal_text(m: Marker, k: usize) -> (s: String)
    ensures
        s@ == literal(m, k as nat),
{
    let c = match m {
        Marker::Star => '*',
        Marker::Underscore => '_',
    };
    let mut s = String::new();
    let mut i: usize = 0;
    while i < k
        invariant
            i <= k,
            c == marker_char(m),
            s@ =~= literal(m, i as nat),
        decreases k - i,
    {
        push_char(&mut s, c);
        i = i + 1;
        assert(s@ =~= literal(m, i as nat));
    }
    s
}

/// Whether text ends with white space.
fn text_ends_with_space(s: &String) -> (b: bool)
    ensures
        b == ends_with_space(s@),
{
    let n = s.as_str().unicode_len();
    if n == 0 {
        false
    } else {
        let c = s.as_str().get_char(n - 1);
        c == ' ' || c == '\t' || c == '\n' || c == '\r'
    }
}

/// Whether text starts with a character that is not white space.
fn text_starts_with_non_space(s: &String) -> (b: bool)
    ensures
        b == starts_with_non_space(s@),
{
    let n = s.as_str().unicode_len();
    if n == 0 {
        false
    } else {
        let c = s.as_str().get_char(0);
        !(c == ' ' || c == '\t' || c == '\n' || c == '\r')
    }
}

/// Whether the token at `i` is text that starts with a character that is
/// not white space.
fn next_starts_with_non_space(toks: &Vec<Token>, i: usize) -> (b: bool)
    ensures
        b == (i < toks@.len() && (toks@[i as int]@ matches TokenModel::Text(t)
            && starts_with_non_space(t))),
{
    if i < toks.len() {
        match &toks[i] {
            Token::Text(t) => text_starts_with_non_space(t),
            _ => false,
        }
    } else {
        false
    }
}

impl Walker {
    spec fn model(&self) -> WalkModel {
        WalkModel { root: models(self.root@), open: open_models(self.open@) }
    }

    fn append(&mut self, ts: Vec<ASTNode>)
        ensures
            final(self).model() == append(old(self).model(), models(ts@)),
    {
        let mut ts = ts;
        let ghost t0 = ts@;
        if self.open.len() == 0 {
            let ghost r0 = self.root@;
            self.root.append(&mut ts);
            proof {
                assert(models(self.root@) =~= models(r0) + models(t0));
                assert(open_models(self.open@) =~= open_models(old(self).open@));
            }
        } else {
            let ghost o0 = self.open@;
            let mut top = self.open.pop().unwrap();
            let ghost k0 = top.kids@;
            top.kids.append(&mut ts);
            self.open.push(top);
            proof {
                assert(models(top.kids@) =~= models(k0) + models(t0));
                assert(open_models(self.open@) =~= open_models(o0).update(
                    o0.len() - 1,
                    OpenModel { marker: top.marker, rem: top.rem as nat, kids: models(k0) + models(t0) },
                ));
            }
        }
    }

    fn add(&mut self, n: ASTNode)
        ensures
            final(self).model() == append(old(self).model(), seq![n.model()]),
    {
        let ghost nm = n.model();
        let v = vec![n];
        proof {
            assert(models(v@) =~= seq![nm]);
        }
        self.append(v);
    }

    fn push_opener(&mut self, m: Marker, r: usize, kids: Vec<ASTNode>)
        ensures
            final(self).model() == push_open(old(self).model(), m, r as nat, models(kids@)),
    {
        let ghost k0 = kids@;
        self.open.push(OpenRun { marker: m, rem: r, kids });
        proof {
            assert(open_models(self.open@) =~= open_models(old(self).open@).push(
                OpenModel { marker: m, rem: r as nat, kids: models(k0) },
            ));
        }
    }

    fn dissolve_top(&mut self)
        requires
            old(self).open@.len() > 0,
        ensures
            final(self).model() == dissolve_top(old(self).model()),
            final(self).open@.len() == old(self).open@.len() - 1,
    {
        let OpenRun { marker, rem, kids } = self.open.pop().unwrap();
        let mut kids = kids;
        let ghost k0 = kids@;
        proof {
            assert(open_models(self.open@) =~= open_models(old(self).open@).drop_last());
        }
        let lit = literal_text(marker, rem);
        let mut ts = vec![ASTNode::Text(lit)];
        ts.append(&mut kids);
        proof {
            assert(models(ts@) =~= seq![Tree::Text(literal(marker, rem as nat))] + models(k0));
        }
        self.append(ts);
        proof {
            assert(open_models(self.open@).len() == self.open@.len());
        }
    }

    fn dissolve_to(&mut self, keep: usize)
        ensures
            final(self).model() == dissolve_to(old(self).model(), keep as nat),
    {
        let ghost st0 = self.model();
        while self.open.len() > keep
            invariant
                dissolve_to(self.model(), keep as nat) == dissolve_to(st0, keep as nat),
            decreases self.open@.len(),
        {
            self.dissolve_top();
        }
    }

    fn find(&self, m: Marker) -> (r: Option<usize>)
        ensures
            r matches Some(j) ==> j < self.open@.len() && j as int == find_opener(self.model().open, m),
            r is None ==> find_opener(self.model().open, m) == -1,
    {
        let ghost om = self.model().open;
        let mut k = self.open.len();
        proof {
            assert(om.take(k as int) =~= om);
        }
        while k > 0
            invariant
                k <= self.open@.len(),
                om == self.model().open,
                find_opener(om, m) == find_opener(om.take(k as int), m),
            decreases k,
        {
            proof {
                assert(om.take(k as int).last() == om[k - 1]);
                assert(om.take(k as int).drop_last() =~= om.take(k - 1));
            }
            if self.open[k - 1].marker == m {
                return Some(k - 1);
            }
            k = k - 1;
        }
        None
    }

    fn close(&mut self, m: Marker, r: usize)
        ensures
            final(self).model() == close(old(self).model(), m, r as nat),
    {
        let ghost target = close(self.model(), m, r as nat);
        let mut r = r;
        while r > 0
            invariant
                close(self.model(), m, r as nat) == target,
            decreases r,
        {
            match self.find(m) {
                None => {
                    self.push_opener(m, r, Vec::new());
                    proof {
                        assert(models(Seq::<ASTNode>::empty()) =~= seq![]);
                    }
                    r = 0;
                },
                Some(j) => {
                    let ghost st = self.model();
                    assert(j < self.open.len());
                    proof {
                        lemma_dissolve_len(st, (j + 1) as nat);
                    }
                    self.dissolve_to(j + 1);
                    let ghost st1 = self.model();
                    let OpenRun { marker, rem, kids } = self.open.pop().unwrap();
                    proof {
                        assert(open_models(self.open@) =~= st1.open.drop_last());
                    }
                    let c: usize = if rem >= 2 && r >= 2 {
                        2
                    } else {
                        1
                    };
                    let node = if c == 2 {
                        ASTNode::Bold(kids)
                    } else {
                        ASTNode::Italics(kids)
                    };
                    proof {
                        lemma_model_children(node);
                    }
                    if rem <= c {
                        self.add(node);
                    } else {
                        let ghost nm = node.model();
                        let v = vec![node];
                        proof {
                            assert(models(v@) =~= seq![nm]);
                        }
                        self.push_opener(m, rem - c, v);
                    }
                    r = r - c;
                },
            }
        }
    }
}

/// Parses a token sequence into a `Document` tree, consuming the tokens.
/// Parsing never fails: a marker that matches nothing stays as literal text.
/// Each delimiter run is first tried as a closer against the nearest opener
/// of the same marker, except a run that comes right after text ending in
/// white space and right before text starting with a character that is not
/// white space: such a run only opens.
pub fn parse(ts: &mut TokenizedString) -> (r: ASTNode)
    ensures
        r.model() == parse_model(old(ts).model()),
        final(ts).tokens@.len() == 0,
{
    let ghost tm = ts.model();
    let n = ts.tokens.len();
    let mut w = Walker { root: Vec::new(), open: Vec::new() };
    proof {
        assert(models(w.root@) =~= seq![]);
        assert(open_models(w.open@) =~= seq![]);
    }
    let mut prev_space = false;
    let mut i: usize = 0;
    while i < n
        invariant
            n == ts.tokens@.len(),
            tm == ts.model(),
            i <= n,
            walk(tm, 0, start()) == walk(tm, i as nat, w.model()),
            i < n ==> prev_space == (i > 0 && (tm[i - 1] matches TokenModel::Text(s)
                && ends_with_space(s))),
        decreases n - i,
    {
        let tok = &ts.tokens[i];
        assert(tm[i as int] == tok@);
        match tok {
            Token::EndOfInput => {
                i = n;
            },
            Token::Text(s) => {
                let t = ASTNode::Text(s.clone());
                w.add(t);
                prev_space = text_ends_with_space(s);
                i = i + 1;
            },
            Token::DelimiterRun(m, k) => {
                if *k == 0 {
                } else if !(prev_space && next_starts_with_non_space(&ts.tokens, i + 1)) {
                    w.close(*m, *k);
                } else {
                    w.push_opener(*m, *k, Vec::new());
                    proof {
                        assert(models(Seq::<ASTNode>::empty()) =~= seq![]);
                    }
                }
                prev_space = false;
                i = i + 1;
            },
        }
    }
    w.dissolve_to(0);
    ts.tokens = Vec::new();
    let r = ASTNode::Document(w.root);
    proof {
        lemma_model_children(r);
    }
    r
}

} // verus!
