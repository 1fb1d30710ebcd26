//! The boolean search-query language: whitespace tokenizer, infix to
//! postfix conversion by the shunting-yard method, and postfix evaluation
//! against an entry's description.
//!
//! Grammar: whitespace-separated tokens; the lowercase keywords `and`,
//! `or` and `not` are operators, every other token is a literal term
//! matched as a case-sensitive substring. `not` binds tightest, then
//! `and`, then `or`; the binary operators are left-associative.
use crate::errors::GopherError;
use crate::text::{chars_to_string, contains_sub, find_ch, find_char_from, has_sub, str_to_chars,
    subvec};
use vstd::prelude::*;

verus! {

/// One token of a query, as held at run time.
#[derive(Debug)]
pub enum QueryToken {
    And,
    Or,
    Not,
    Term(String),
}

/// The mathematical shape of a token: operator kind, or the characters of
/// a term.
pub enum TokenModel {
    And,
    Or,
    Not,
    Term(Seq<char>),
}

impl View for QueryToken {
    type V = TokenModel;

    open spec fn view(&self) -> TokenModel {
        match self {
            QueryToken::And => TokenModel::And,
            QueryToken::Or => TokenModel::Or,
            QueryToken::Not => TokenModel::Not,
            QueryToken::Term(s) => TokenModel::Term(s@),
        }
    }
}

pub open spec fn token_views(ts: Seq<QueryToken>) -> Seq<TokenModel> {
    ts.map_values(|t: QueryToken| t@)
}

/// The words of a query string: maximal runs between spaces, empty runs
/// dropped.
pub open spec fn words(s: Seq<char>) -> Seq<Seq<char>>
    decreases s.len(),
{
    if s.len() == 0 {
        Seq::empty()
    } else {
        let i = find_ch(s, ' ');
        if i < 0 || i >= s.len() {
            seq![s]
        } else {
            let w = s.subrange(0, i);
            let rest = words(s.subrange(i + 1, s.len() as int));
            if w.len() == 0 {
                rest
            } else {
                seq![w] + rest
            }
        }
    }
}

/// The token a word denotes: the three lowercase keywords are operators,
/// anything else is a search term.
pub open spec fn classify(w: Seq<char>) -> TokenModel {
    if w == seq!['a', 'n', 'd'] {
        TokenModel::And
    } else if w == seq!['o', 'r'] {
        TokenModel::Or
    } else if w == seq!['n', 'o', 't'] {
        TokenModel::Not
    } else {
        TokenModel::Term(w)
    }
}

pub open spec fn tokens_of(s: Seq<char>) -> Seq<TokenModel> {
    words(s).map_values(|w| classify(w))
}

/// Operator precedence: `not` over `and` over `or`; terms never sit on
/// the operator stack.
pub open spec fn prec(t: TokenModel) -> int {
    match t {
        TokenModel::Not => 3,
        TokenModel::And => 2,
        TokenModel::Or => 1,
        TokenModel::Term(_) => 0,
    }
}

/// Pops operators of precedence at least `p` from the stack to the
/// output.
pub open spec fn sy_pop(out: Seq<TokenModel>, ops: Seq<TokenModel>, p: int) -> (
    Seq<TokenModel>,
    Seq<TokenModel>,
)
    decreases ops.len(),
{
    if ops.len() > 0 && prec(ops.last()) >= p {
        sy_pop(out.push(ops.last()), ops.drop_last(), p)
    } else {
        (out, ops)
    }
}

/// One shunting-yard step: terms go straight to the output; `not` is a
/// prefix operator and is pushed without popping anything; a binary
/// operator first pops every stacked operator of precedence at least its
/// own.
pub open spec fn sy_step(st: (Seq<TokenModel>, Seq<TokenModel>), t: TokenModel) -> (
    Seq<TokenModel>,
    Seq<TokenModel>,
) {
    match t {
        TokenModel::Term(_) => (st.0.push(t), st.1),
        TokenModel::Not => (st.0, st.1.push(t)),
        _ => {
            let (o, s) = sy_pop(st.0, st.1, prec(t));
            (o, s.push(t))
        },
    }
}

pub open spec fn sy_run(ts: Seq<TokenModel>) -> (Seq<TokenModel>, Seq<TokenModel>)
    decreases ts.len(),
{
    if ts.len() == 0 {
        (Seq::empty(), Seq::empty())
    } else {
        sy_step(sy_run(ts.drop_last()), ts.last())
    }
}

/// The postfix form of a token sequence: run the shunting yard, then
/// drain the remaining operator stack onto the output.
pub open spec fn to_postfix_spec(ts: Seq<TokenModel>) -> Seq<TokenModel> {
    let (o, s) = sy_run(ts);
    o + s.reverse()
}

/// One postfix evaluation step over a boolean stack; `None` is the
/// underflow state and is absorbing.
pub open spec fn eval_step(st: Option<Seq<bool>>, t: TokenModel, d: Seq<char>) -> Option<
    Seq<bool>,
> {
    match st {
        Option::None => Option::None,
        Option::Some(stack) => match t {
            TokenModel::Term(w) => Option::Some(stack.push(has_sub(d, w))),
            TokenModel::Not => if stack.len() >= 1 {
                Option::Some(stack.drop_last().push(!stack.last()))
            } else {
                Option::None
            },
            TokenModel::And => if stack.len() >= 2 {
                Option::Some(
                    stack.drop_last().drop_last().push(stack[stack.len() - 2] && stack.last()),
                )
            } else {
                Option::None
            },
            TokenModel::Or => if stack.len() >= 2 {
                Option::Some(
                    stack.drop_last().drop_last().push(stack[stack.len() - 2] || stack.last()),
                )
            } else {
                Option::None
            },
        },
    }
}

pub open spec fn eval_run(ts: Seq<TokenModel>, d: Seq<char>) -> Option<Seq<bool>>
    decreases ts.len(),
{
    if ts.len() == 0 {
        Option::Some(Seq::empty())
    } else {
        eval_step(eval_run(ts.drop_last(), d), ts.last(), d)
    }
}

/// What a postfix token sequence says of a description: `Some(b)` when
/// evaluation ends with exactly one boolean, `None` on operand underflow
/// or when anything but a single value remains.
pub open spec fn eval_postfix(ts: Seq<TokenModel>, d: Seq<char>) -> Option<bool> {
    match eval_run(ts, d) {
        Option::Some(st) => if st.len() == 1 {
            Option::Some(st[0])
        } else {
            Option::None
        },
        Option::None => Option::None,
    }
}

/// The stack-depth shadow of evaluation: it fails exactly where
/// evaluation fails, whatever the description.
pub open spec fn sim_step(st: Option<int>, t: TokenModel) -> Option<int> {
    match st {
        Option::None => Option::None,
        Option::Some(n) => match t {
            TokenModel::Term(_) => Option::Some(n + 1),
            TokenModel::Not => if n >= 1 {
                Option::Some(n)
            } else {
                Option::None
            },
            _ => if n >= 2 {
                Option::Some(n - 1)
            } else {
                Option::None
            },
        },
    }
}

pub open spec fn sim_run(ts: Seq<TokenModel>) -> Option<int>
    decreases ts.len(),
{
    if ts.len() == 0 {
        Option::Some(0)
    } else {
        sim_step(sim_run(ts.drop_last()), ts.last())
    }
}

/// A postfix sequence is well formed when it evaluates to exactly one
/// boolean; by `lemma_sim_eval` this does not depend on the description.
pub open spec fn postfix_valid(ts: Seq<TokenModel>) -> bool {
    sim_run(ts) == Option::Some(1int)
}

/// Evaluation succeeds or underflows independently of the description:
/// its stack depth always equals the depth shadow.
pub proof fn lemma_sim_eval(ts: Seq<TokenModel>, d: Seq<char>)
    ensures
        match (sim_run(ts), eval_run(ts, d)) {
            (Option::Some(n), Option::Some(st)) => n == st.len(),
            (Option::None, Option::None) => true,
            _ => false,
        },
    decreases ts.len(),
{
    if ts.len() == 0 {
    } else {
        lemma_sim_eval(ts.drop_last(), d);
    }
}

/// A prefix that has already underflowed can never recover.
pub proof fn lemma_sim_extends_none(ts: Seq<TokenModel>, i: int)
    requires
        0 <= i <= ts.len(),
        sim_run(ts.subrange(0, i)) is None,
    ensures
        sim_run(ts) is None,
    decreases ts.len() - i,
{
    if i == ts.len() {
        assert(ts.subrange(0, i) =~= ts);
    } else {
        assert(ts.subrange(0, i + 1).drop_last() =~= ts.subrange(0, i));
        assert(ts.subrange(0, i + 1).last() == ts[i]);
        lemma_sim_extends_none(ts, i + 1);
    }
}

/// A copy of a token that Verus knows to carry the same value.
fn clone_token(t: &QueryToken) -> (r: QueryToken)
    ensures
        r@ == t@,
{
    match t {
        QueryToken::And => QueryToken::And,
        QueryToken::Or => QueryToken::Or,
        QueryToken::Not => QueryToken::Not,
        QueryToken::Term(s) => QueryToken::Term(s.clone()),
    }
}

/// A compiled query: the postfix form of a parsed search expression,
/// guaranteed to evaluate cleanly.
#[derive(Debug)]
pub struct Query {
    postfix: Vec<QueryToken>,
}

impl View for Query {
    type V = Seq<TokenModel>;

    /// The postfix token sequence the query evaluates.
    closed spec fn view(&self) -> Seq<TokenModel> {
        token_views(self.postfix@)
    }
}

impl Query {
    #[verifier::type_invariant]
    spec fn type_inv(&self) -> bool {
        postfix_valid(token_views(self.postfix@))
    }

    /// Compiles a raw query string: tokenize, convert to postfix, and
    /// accept exactly the sequences that evaluate cleanly. A query with
    /// missing operands, or without any term, is `InvalidQuery`.
    pub fn parse(q: &str) -> (r: Result<Query, GopherError>)
        ensures
            r is Ok <==> postfix_valid(to_postfix_spec(tokens_of(q@))),
            match r {
                Ok(qq) => qq@ == to_postfix_spec(tokens_of(q@)),
                Err(e) => e == GopherError::InvalidQuery,
            },
    {
        let ts = tokenize(q);
        let pf = to_postfix(ts);
        if check_postfix(&pf) {
            Ok(Query { postfix: pf })
        } else {
            Err(GopherError::InvalidQuery)
        }
    }

    /// Whether the entry description satisfies this query.
    pub fn matches(&self, description: &str) -> (r: bool)
        ensures
            eval_postfix(self@, description@) == Option::Some(r),
    {
        proof {
            use_type_invariant(self);
        }
        let ghost vts = token_views(self.postfix@);
        let hay = str_to_chars(description);
        let n = self.postfix.len();
        let mut stack: Vec<bool> = Vec::new();
        let mut i: usize = 0;
        while i < n
            invariant
                n == self.postfix@.len(),
                vts == token_views(self.postfix@),
                postfix_valid(vts),
                hay@ == description@,
                i <= n,
                eval_run(vts.subrange(0, i as int), description@) == Option::Some(stack@),
            decreases n - i,
        {
            let ghost stack0 = stack@;
            proof {
                assert(vts.subrange(0, i + 1).drop_last() =~= vts.subrange(0, i as int));
                assert(vts.subrange(0, i + 1).last() == vts[i as int]);
                assert(vts[i as int] == self.postfix@[i as int]@);
            }
            let t = &self.postfix[i];
            match t {
                QueryToken::Term(s) => {
                    let needle = str_to_chars(s.as_str());
                    let b = contains_sub(&hay, &needle);
                    stack.push(b);
                    proof {
                        assert(stack@ =~= stack0.push(b));
                    }
                },
                QueryToken::Not => {
                    if stack.len() < 1 {
                        proof {
                            lemma_sim_eval(vts.subrange(0, i + 1), description@);
                            lemma_sim_extends_none(vts, i + 1);
                        }
                        return false;
                    }
                    let b = stack.pop().unwrap();
                    stack.push(!b);
                    proof {
                        assert(b == stack0.last());
                        assert(stack@ =~= stack0.drop_last().push(!stack0.last()));
                    }
                },
                QueryToken::And => {
                    if stack.len() < 2 {
                        proof {
                            lemma_sim_eval(vts.subrange(0, i + 1), description@);
                            lemma_sim_extends_none(vts, i + 1);
                        }
                        return false;
                    }
                    let b = stack.pop().unwrap();
                    let a = stack.pop().unwrap();
                    stack.push(a && b);
                    proof {
                        assert(b == stack0.last());
                        assert(a == stack0[stack0.len() - 2]);
                        assert(stack@ =~= stack0.drop_last().drop_last().push(
                            stack0[stack0.len() - 2] && stack0.last(),
                        ));
                    }
                },
                QueryToken::Or => {
                    if stack.len() < 2 {
                        proof {
                            lemma_sim_eval(vts.subrange(0, i + 1), description@);
                            lemma_sim_extends_none(vts, i + 1);
                        }
                        return false;
                    }
                    let b = stack.pop().unwrap();
                    let a = stack.pop().unwrap();
                    stack.push(a || b);
                    proof {
                        assert(b == stack0.last());
                        assert(a == stack0[stack0.len() - 2]);
                        assert(stack@ =~= stack0.drop_last().drop_last().push(
                            stack0[stack0.len() - 2] || stack0.last(),
                        ));
                    }
                },
            }
            i = i + 1;
        }
        proof {
            assert(vts.subrange(0, n as int) =~= vts);
            lemma_sim_eval(vts, description@);
        }
        let r = stack.pop().unwrap();
        r
    }
}

/// Splits a raw query string into tokens.
fn tokenize(q: &str) -> (r: Vec<QueryToken>)
    ensures
        token_views(r@) == tokens_of(q@),
{
    let v = str_to_chars(q);
    let ghost s = q@;
    let n = v.len();
    let mut out: Vec<QueryToken> = Vec::new();
    let mut p: usize = 0;
    proof {
        assert(s.subrange(0, n as int) =~= s);
        assert(token_views(out@) =~= Seq::<TokenModel>::empty());
        assert(tokens_of(s) =~= token_views(out@) + tokens_of(s.subrange(0, n as int)));
    }
    while p < n
        invariant
            n == v@.len(),
            v@ == s,
            p <= n,
            tokens_of(s) =~= token_views(out@) + tokens_of(s.subrange(p as int, n as int)),
        decreases n - p,
    {
        let ghost rem = s.subrange(p as int, n as int);
        let (wend, next) = match find_char_from(&v, p, ' ') {
            Some(i) => {
                proof {
                    assert(rem[i - p] == s[i as int]);
                    assert forall|j: int| 0 <= j < i - p implies rem[j] != ' ' by {
                        assert(rem[j] == s[j + p]);
                    }
                    crate::text::lemma_find_ch_at(rem, ' ', i - p);
                }
                (i, i + 1)
            },
            None => {
                proof {
                    assert forall|j: int| 0 <= j < rem.len() implies rem[j] != ' ' by {
                        assert(rem[j] == s[j + p]);
                    }
                    crate::text::lemma_find_ch_absent(rem, ' ');
                }
                (n, n)
            },
        };
        let ghost w = s.subrange(p as int, wend as int);
        let ghost rem2 = s.subrange(next as int, n as int);
        proof {
            if wend < n {
                assert(w =~= rem.subrange(0, wend - p));
                assert(rem2 =~= rem.subrange(wend - p + 1, rem.len() as int));
            } else {
                assert(w =~= rem);
                assert(rem2 =~= Seq::<char>::empty());
            }
            assert(tokens_of(rem) =~= (if w.len() == 0 {
                tokens_of(rem2)
            } else {
                seq![classify(w)] + tokens_of(rem2)
            }));
        }
        if wend > p {
            let ghost out0 = token_views(out@);
            let tok = make_token(&v, p, wend);
            out.push(tok);
            proof {
                assert(token_views(out@) =~= out0.push(classify(w)));
                assert(tokens_of(s) =~= token_views(out@) + tokens_of(rem2));
            }
        } else {
            proof {
                assert(tokens_of(s) =~= token_views(out@) + tokens_of(rem2));
            }
        }
        p = next;
    }
    proof {
        assert(s.subrange(p as int, n as int) =~= Seq::<char>::empty());
        assert(tokens_of(Seq::<char>::empty()) =~= Seq::<TokenModel>::empty());
        assert(token_views(out@) =~= tokens_of(s));
    }
    out
}

/// Builds the token of the word `v[a..b]`.
fn make_token(v: &Vec<char>, a: usize, b: usize) -> (r: QueryToken)
    requires
        a < b <= v@.len(),
    ensures
        r@ == classify(v@.subrange(a as int, b as int)),
{
    let ghost w = v@.subrange(a as int, b as int);
    let len = b - a;
    if len == 3 {
        let c0 = v[a];
        let c1 = v[a + 1];
        let c2 = v[a + 2];
        proof {
            assert(w.len() == 3);
            assert(w[0] == c0 && w[1] == c1 && w[2] == c2);
        }
        if c0 == 'a' && c1 == 'n' && c2 == 'd' {
            proof {
                assert(w =~= seq!['a', 'n', 'd']);
            }
            QueryToken::And
        } else if c0 == 'n' && c1 == 'o' && c2 == 't' {
            proof {
                assert(w =~= seq!['n', 'o', 't']);
            }
            QueryToken::Not
        } else {
            proof {
                assert(seq!['a', 'n', 'd'][0] == 'a' && seq!['a', 'n', 'd'][1] == 'n'
                    && seq!['a', 'n', 'd'][2] == 'd');
                assert(seq!['n', 'o', 't'][0] == 'n' && seq!['n', 'o', 't'][1] == 'o'
                    && seq!['n', 'o', 't'][2] == 't');
                assert(seq!['o', 'r'].len() == 2);
                assert(w != seq!['a', 'n', 'd'] && w != seq!['n', 'o', 't'] && w != seq![
                    'o',
                    'r',
                ]);
            }
            QueryToken::Term(chars_to_string(&subvec(v, a, b)))
        }
    } else if len == 2 {
        let c0 = v[a];
        let c1 = v[a + 1];
        proof {
            assert(w.len() == 2);
            assert(w[0] == c0 && w[1] == c1);
        }
        if c0 == 'o' && c1 == 'r' {
            proof {
                assert(w =~= seq!['o', 'r']);
            }
            QueryToken::Or
        } else {
            proof {
                assert(seq!['o', 'r'][0] == 'o' && seq!['o', 'r'][1] == 'r');
                assert(seq!['a', 'n', 'd'].len() == 3);
                assert(seq!['n', 'o', 't'].len() == 3);
                assert(w != seq!['a', 'n', 'd'] && w != seq!['n', 'o', 't'] && w != seq![
                    'o',
                    'r',
                ]);
            }
            QueryToken::Term(chars_to_string(&subvec(v, a, b)))
        }
    } else {
        proof {
            assert(w.len() == len);
            assert(seq!['a', 'n', 'd'].len() == 3);
            assert(seq!['n', 'o', 't'].len() == 3);
            assert(seq!['o', 'r'].len() == 2);
            assert(w != seq!['a', 'n', 'd'] && w != seq!['n', 'o', 't'] && w != seq![
                'o',
                'r',
            ]);
        }
        QueryToken::Term(chars_to_string(&subvec(v, a, b)))
    }
}

/// Converts a tokenized infix query to postfix by the shunting-yard
/// method.
fn to_postfix(ts: Vec<QueryToken>) -> (r: Vec<QueryToken>)
    ensures
        token_views(r@) == to_postfix_spec(token_views(ts@)),
{
    let ghost vts = token_views(ts@);
    let n = ts.len();
    let mut out: Vec<QueryToken> = Vec::new();
    let mut ops: Vec<QueryToken> = Vec::new();
    let mut i: usize = 0;
    proof {
        assert(token_views(out@) =~= Seq::<TokenModel>::empty());
        assert(token_views(ops@) =~= Seq::<TokenModel>::empty());
        assert(vts.subrange(0, 0) =~= Seq::<TokenModel>::empty());
    }
    while i < n
        invariant
            n == ts@.len(),
            vts == token_views(ts@),
            i <= n,
            (token_views(out@), token_views(ops@)) == sy_run(vts.subrange(0, i as int)),
        decreases n - i,
    {
        proof {
            assert(vts.subrange(0, i + 1).drop_last() =~= vts.subrange(0, i as int));
            assert(vts.subrange(0, i + 1).last() == vts[i as int]);
            assert(vts[i as int] == ts@[i as int]@);
        }
        let t = clone_token(&ts[i]);
        let is_term = matches!(t, QueryToken::Term(_));
        let is_not = matches!(t, QueryToken::Not);
        if is_term {
            let ghost out0 = token_views(out@);
            out.push(t);
            proof {
                assert(token_views(out@) =~= out0.push(vts[i as int]));
            }
        } else if is_not {
            let ghost ops0 = token_views(ops@);
            ops.push(t);
            proof {
                assert(token_views(ops@) =~= ops0.push(vts[i as int]));
            }
        } else {
            let p = prec_exec(&t);
            let ghost start_out = token_views(out@);
            let ghost start_ops = token_views(ops@);
            while ops.len() > 0 && prec_exec(&ops[ops.len() - 1]) >= p
                invariant
                    n == ts@.len(),
                    vts == token_views(ts@),
                    i < n,
                    sy_pop(start_out, start_ops, p as int) == sy_pop(
                        token_views(out@),
                        token_views(ops@),
                        p as int,
                    ),
                decreases ops.len(),
            {
                let ghost out0 = token_views(out@);
                let ghost ops0 = token_views(ops@);
                proof {
                    assert(ops@[ops@.len() - 1]@ == ops0.last());
                    assert(prec(ops0.last()) >= p as int);
                }
                let top = ops.pop().unwrap();
                out.push(top);
                proof {
                    assert(top@ == ops0.last());
                    assert(token_views(out@) =~= out0.push(ops0.last()));
                    assert(token_views(ops@) =~= ops0.drop_last());
                    assert(sy_pop(out0, ops0, p as int) == sy_pop(
                        out0.push(ops0.last()),
                        ops0.drop_last(),
                        p as int,
                    ));
                }
            }
            proof {
                if ops@.len() > 0 {
                    assert(ops@[ops@.len() - 1]@ == token_views(ops@).last());
                }
                assert(sy_pop(token_views(out@), token_views(ops@), p as int) == (
                    token_views(out@),
                    token_views(ops@),
                ));
            }
            let ghost mid_ops = token_views(ops@);
            ops.push(t);
            proof {
                assert(token_views(ops@) =~= mid_ops.push(vts[i as int]));
                assert(prec(vts[i as int]) == p as int);
                assert((token_views(out@), token_views(ops@)) == sy_step(
                    sy_run(vts.subrange(0, i as int)),
                    vts[i as int],
                ));
            }
        }
        i = i + 1;
    }
    proof {
        assert(vts.subrange(0, n as int) =~= vts);
        assert(token_views(out@) + token_views(ops@).reverse() =~= to_postfix_spec(vts));
    }
    while ops.len() > 0
        invariant
            token_views(out@) + token_views(ops@).reverse() =~= to_postfix_spec(vts),
        decreases ops.len(),
    {
        let ghost out0 = token_views(out@);
        let ghost ops0 = token_views(ops@);
        let top = ops.pop().unwrap();
        out.push(top);
        proof {
            assert(top@ == ops0.last());
            assert(token_views(out@) =~= out0.push(ops0.last()));
            assert(token_views(ops@) =~= ops0.drop_last());
            assert(ops0.reverse() =~= seq![ops0.last()] + ops0.drop_last().reverse());
            assert(token_views(out@) + token_views(ops@).reverse() =~= to_postfix_spec(vts));
        }
    }
    proof {
        assert(token_views(ops@).reverse() =~= Seq::<TokenModel>::empty());
        assert(token_views(out@) =~= to_postfix_spec(vts));
    }
    out
}

fn prec_exec(t: &QueryToken) -> (r: u8)
    ensures
        r as int == prec(t@),
{
    match t {
        QueryToken::Not => 3,
        QueryToken::And => 2,
        QueryToken::Or => 1,
        QueryToken::Term(_) => 0,
    }
}

/// Whether a postfix sequence evaluates cleanly: runs the stack-depth
/// shadow of evaluation.
fn check_postfix(pf: &Vec<QueryToken>) -> (r: bool)
    ensures
        r == postfix_valid(token_views(pf@)),
{
    let ghost vts = token_views(pf@);
    let n = pf.len();
    let mut depth: usize = 0;
    let mut i: usize = 0;
    proof {
        assert(vts.subrange(0, 0) =~= Seq::<TokenModel>::empty());
    }
    while i < n
        invariant
            n == pf@.len(),
            vts == token_views(pf@),
            i <= n,
            depth <= i,
            sim_run(vts.subrange(0, i as int)) == Option::Some(depth as int),
        decreases n - i,
    {
        proof {
            assert(vts.subrange(0, i + 1).drop_last() =~= vts.subrange(0, i as int));
            assert(vts.subrange(0, i + 1).last() == vts[i as int]);
            assert(vts[i as int] == pf@[i as int]@);
        }
        let t = &pf[i];
        match t {
            QueryToken::Term(_) => {
                depth = depth + 1;
            },
            QueryToken::Not => {
                if depth < 1 {
                    proof {
                        lemma_sim_extends_none(vts, i + 1);
                    }
                    return false;
                }
            },
            QueryToken::And => {
                if depth < 2 {
                    proof {
                        lemma_sim_extends_none(vts, i + 1);
                    }
                    return false;
                }
                depth = depth - 1;
            },
            QueryToken::Or => {
                if depth < 2 {
                    proof {
                        lemma_sim_extends_none(vts, i + 1);
                    }
                    return false;
                }
                depth = depth - 1;
            },
        }
        i = i + 1;
    }
    proof {
        assert(vts.subrange(0, n as int) =~= vts);
    }
    depth == 1
}

} // verus!
