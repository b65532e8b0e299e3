//! The parser: recursive descent with one token of lookahead, precedence
//! climbing for the arithmetic levels, and fail-fast structured errors.
//!
//! The `sp_*` spec functions are the mathematical definition of the
//! grammar; each executable `parse_*` method is proved to return exactly
//! what the corresponding spec function says.

use vstd::prelude::*;

use crate::error::SyntaxError;
use crate::lexer::{
    digit_p, ident_p, int_runs_fit, is_digit, is_ident_char, lemma_next_token_bounds,
    lemma_run_end, next_token, run_end, space_p, Lexer,
};
use crate::location::{Spanned, SpannedM};
use crate::token::{TokM, Token};
use crate::tree::{BinaryNode, Expr, ExprKind, LetNode, Operation, UnaryNode, EKM, EM};

verus! {

/// What a parsing production yields: an expression together with the
/// position after it, the offending token, or an exhausted stream.
pub ghost enum PRes {
    Done { e: EM, p: int },
    Unexpected { t: SpannedM<TokM> },
    Eof,
}

/// `q` clamped into `[lo, len]`. The spec parser resumes after a
/// subexpression at this position; the clamp only serves the termination
/// measure and is the identity in every reachable state.
pub open spec fn step_pos(q: int, lo: int, len: int) -> int {
    let ql = if q < lo {
        lo
    } else {
        q
    };
    if ql > len {
        len
    } else {
        ql
    }
}

/// `expr := "let" id "=" expr "in" expr | add`, decided by one token of
/// lookahead.
pub open spec fn sp_expr(s: Seq<char>, p: int) -> PRes
    decreases s.len() - p, 10int,
    when 0 <= p <= s.len()
{
    match next_token(s, p) {
        None => PRes::Eof,
        Some(t) => if t.data is Let {
            sp_let(s, p)
        } else {
            sp_add(s, p)
        },
    }
}

/// The let form: `let`, an identifier, `=`, a value expression, `in`, a
/// body expression. Its span runs from the `let` keyword to the end of the
/// body.
pub open spec fn sp_let(s: Seq<char>, p: int) -> PRes
    decreases s.len() - p, 9int,
    when 0 <= p <= s.len() via sp_let_dec
{
    match next_token(s, p) {
        None => PRes::Eof,
        Some(lt) => if !(lt.data is Let) {
            PRes::Unexpected { t: lt }
        } else {
            match next_token(s, lt.end) {
                None => PRes::Eof,
                Some(nm) => match nm.data {
                    TokM::Id(name) => match next_token(s, nm.end) {
                        None => PRes::Eof,
                        Some(eq) => if !(eq.data is Equal) {
                            PRes::Unexpected { t: eq }
                        } else {
                            match sp_expr(s, step_pos(eq.end, p + 1, s.len() as int)) {
                                PRes::Done { e: value, p: pv } => {
                                    match next_token(s, step_pos(pv, p + 1, s.len() as int)) {
                                        None => PRes::Eof,
                                        Some(ik) => if !(ik.data is In) {
                                            PRes::Unexpected { t: ik }
                                        } else {
                                            match sp_expr(
                                                s,
                                                step_pos(ik.end, p + 1, s.len() as int),
                                            ) {
                                                PRes::Done { e: next, p: pn } => PRes::Done {
                                                    e: SpannedM {
                                                        data: EKM::Let {
                                                            name,
                                                            value: Box::new(value),
                                                            next: Box::new(next),
                                                        },
                                                        start: lt.start,
                                                        end: next.end,
                                                    },
                                                    p: pn,
                                                },
                                                err => err,
                                            }
                                        },
                                    }
                                },
                                err => err,
                            }
                        },
                    },
                    _ => PRes::Unexpected { t: nm },
                },
            }
        },
    }
}

#[via_fn]
proof fn sp_let_dec(s: Seq<char>, p: int) {
    lemma_run_end(s, p, space_p());
}

/// `add := mult (("+"|"-") mult)*`, folded left-associatively.
pub open spec fn sp_add(s: Seq<char>, p: int) -> PRes
    decreases s.len() - p, 8int,
    when 0 <= p <= s.len()
{
    match sp_mult(s, p) {
        PRes::Done { e, p: q } => sp_add_loop(s, step_pos(q, p + 1, s.len() as int), e),
        err => err,
    }
}

/// The additive fold: while the next token is `+` or `-`, consume it,
/// parse one more multiplicative operand, and extend `left` on the left.
pub open spec fn sp_add_loop(s: Seq<char>, p: int, left: EM) -> PRes
    decreases s.len() - p, 7int,
    when 0 <= p <= s.len() via sp_add_loop_dec
{
    match next_token(s, p) {
        None => PRes::Done { e: left, p },
        Some(op) => if op.data is Plus || op.data is Minus {
            match sp_mult(s, step_pos(op.end, p + 1, s.len() as int)) {
                PRes::Done { e: right, p: pr } => sp_add_loop(
                    s,
                    step_pos(pr, p + 1, s.len() as int),
                    SpannedM {
                        data: EKM::Binary {
                            operation: if op.data is Plus {
                                Operation::Add
                            } else {
                                Operation::Minus
                            },
                            left: Box::new(left),
                            right: Box::new(right),
                        },
                        start: left.start,
                        end: right.end,
                    },
                ),
                err => err,
            }
        } else {
            PRes::Done { e: left, p }
        },
    }
}

#[via_fn]
proof fn sp_add_loop_dec(s: Seq<char>, p: int, left: EM) {
    lemma_run_end(s, p, space_p());
}

/// `mult := atom (("*"|"/") atom)*`, folded left-associatively.
pub open spec fn sp_mult(s: Seq<char>, p: int) -> PRes
    decreases s.len() - p, 6int,
    when 0 <= p <= s.len()
{
    match sp_atom(s, p) {
        PRes::Done { e, p: q } => sp_mult_loop(s, step_pos(q, p + 1, s.len() as int), e),
        err => err,
    }
}

/// The multiplicative fold: while the next token is `*` or `/`, consume
/// it, parse one more atom, and extend `left` on the left.
pub open spec fn sp_mult_loop(s: Seq<char>, p: int, left: EM) -> PRes
    decreases s.len() - p, 5int,
    when 0 <= p <= s.len() via sp_mult_loop_dec
{
    match next_token(s, p) {
        None => PRes::Done { e: left, p },
        Some(op) => if op.data is Star || op.data is Slash {
            match sp_atom(s, step_pos(op.end, p + 1, s.len() as int)) {
                PRes::Done { e: right, p: pr } => sp_mult_loop(
                    s,
                    step_pos(pr, p + 1, s.len() as int),
                    SpannedM {
                        data: EKM::Binary {
                            operation: if op.data is Star {
                                Operation::Mult
                            } else {
                                Operation::Slash
                            },
                            left: Box::new(left),
                            right: Box::new(right),
                        },
                        start: left.start,
                        end: right.end,
                    },
                ),
                err => err,
            }
        } else {
            PRes::Done { e: left, p }
        },
    }
}

#[via_fn]
proof fn sp_mult_loop_dec(s: Seq<char>, p: int, left: EM) {
    lemma_run_end(s, p, space_p());
}

/// An integer literal token made into a leaf node.
pub open spec fn sp_int(s: Seq<char>, p: int) -> PRes {
    match next_token(s, p) {
        None => PRes::Eof,
        Some(t) => match t.data {
            TokM::Int(n) => PRes::Done {
                e: SpannedM { data: EKM::Int(n), start: t.start, end: t.end },
                p: t.end,
            },
            _ => PRes::Unexpected { t },
        },
    }
}

/// An identifier token made into a leaf node.
pub open spec fn sp_ident(s: Seq<char>, p: int) -> PRes {
    match next_token(s, p) {
        None => PRes::Eof,
        Some(t) => match t.data {
            TokM::Id(w) => PRes::Done {
                e: SpannedM { data: EKM::Ident(w), start: t.start, end: t.end },
                p: t.end,
            },
            _ => PRes::Unexpected { t },
        },
    }
}

/// `atom := int | id | "(" expr ")" | "-" expr`, decided by one token of
/// lookahead.
pub open spec fn sp_atom(s: Seq<char>, p: int) -> PRes
    decreases s.len() - p, 4int,
    when 0 <= p <= s.len()
{
    match next_token(s, p) {
        None => PRes::Eof,
        Some(t) => match t.data {
            TokM::Int(n) => sp_int(s, p),
            TokM::Id(w) => sp_ident(s, p),
            TokM::LPar => sp_parens(s, p),
            TokM::Minus => sp_minus(s, p),
            _ => PRes::Unexpected { t },
        },
    }
}

/// A parenthesized expression: the inner tree is returned as is, its span
/// not widened to the parentheses.
pub open spec fn sp_parens(s: Seq<char>, p: int) -> PRes
    decreases s.len() - p, 3int,
    when 0 <= p <= s.len() via sp_parens_dec
{
    match next_token(s, p) {
        None => PRes::Eof,
        Some(lp) => if !(lp.data is LPar) {
            PRes::Unexpected { t: lp }
        } else {
            match sp_expr(s, step_pos(lp.end, p + 1, s.len() as int)) {
                PRes::Done { e, p: q } => {
                    match next_token(s, step_pos(q, p + 1, s.len() as int)) {
                        None => PRes::Eof,
                        Some(rp) => if rp.data is RPar {
                            PRes::Done { e, p: rp.end }
                        } else {
                            PRes::Unexpected { t: rp }
                        },
                    }
                },
                err => err,
            }
        },
    }
}

#[via_fn]
proof fn sp_parens_dec(s: Seq<char>, p: int) {
    lemma_run_end(s, p, space_p());
}

/// Unary negation: `-` followed by a full expression, so forms such as a
/// negated let binding parse. The span runs from the sign to the end of
/// the operand.
pub open spec fn sp_minus(s: Seq<char>, p: int) -> PRes
    decreases s.len() - p, 2int,
    when 0 <= p <= s.len() via sp_minus_dec
{
    match next_token(s, p) {
        None => PRes::Eof,
        Some(m) => if !(m.data is Minus) {
            PRes::Unexpected { t: m }
        } else {
            match sp_expr(s, step_pos(m.end, p + 1, s.len() as int)) {
                PRes::Done { e, p: q } => PRes::Done {
                    e: SpannedM {
                        data: EKM::Unary { operation: Operation::Minus, expr: Box::new(e) },
                        start: m.start,
                        end: e.end,
                    },
                    p: q,
                },
                err => err,
            }
        },
    }
}

#[via_fn]
proof fn sp_minus_dec(s: Seq<char>, p: int) {
    lemma_run_end(s, p, space_p());
}

/// The parser: a tokenizer plus one token of buffered lookahead. `pos` is
/// the position in the source that the stream stands at: the buffered
/// token, if any, was produced there.
pub struct Parser {
    pub lexer: Lexer,
    pub peeked: Option<Spanned<Token>>,
    pub pos: Ghost<int>,
}

impl Parser {
    /// The source text being parsed.
    pub open spec fn src(self) -> Seq<char> {
        self.lexer.input@
    }

    /// The position the token stream stands at.
    pub open spec fn cur(self) -> int {
        self.pos@
    }

    /// The tokenizer is sound, `pos` is in range, and the lookahead buffer
    /// agrees with it: a buffered token is exactly the one produced at
    /// `pos`, with the tokenizer standing right after it; an empty buffer
    /// means the tokenizer stands at a position that produces the same
    /// next token as `pos` does.
    pub open spec fn wf(self) -> bool {
        &&& self.lexer.wf()
        &&& 0 <= self.pos@ <= self.src().len()
        &&& self.pos@ <= self.lexer.current_pos as int
        &&& match self.peeked {
            None => next_token(self.src(), self.pos@) == next_token(
                self.src(),
                self.lexer.current_pos as int,
            ),
            Some(sp) => next_token(self.src(), self.pos@) == Some(sp@)
                && self.lexer.current_pos as int == sp@.end,
        }
    }

    /// Well-formed, and every digit run of the source fits a machine word
    /// (the bound the tokenizer requires).
    pub open spec fn ready(self) -> bool {
        self.wf() && int_runs_fit(self.src())
    }

    /// A termination measure: characters the tokenizer has not consumed,
    /// plus one for a buffered token. Consuming a token strictly lowers it.
    pub open spec fn fuel(self) -> int {
        self.src().len() - self.lexer.current_pos + if self.peeked is Some {
            1int
        } else {
            0int
        }
    }

    /// A fresh parser at the start of `input`.
    pub fn new(input: &str) -> (r: Parser)
        ensures
            r.wf(),
            r.src() == input@,
            r.cur() == 0,
    {
        Parser { lexer: Lexer::new(input), peeked: None, pos: Ghost(0) }
    }

    /// Make sure the lookahead buffer holds the token at `cur()`, if there
    /// is one. Does not move the stream.
    fn fill(&mut self)
        requires
            old(self).ready(),
        ensures
            final(self).ready(),
            final(self).src() == old(self).src(),
            final(self).cur() == old(self).cur(),
            final(self).fuel() <= old(self).fuel(),
            match next_token(old(self).src(), old(self).cur()) {
                None => final(self).peeked is None,
                Some(t) => final(self).peeked matches Some(sp) && sp@ == t,
            },
    {
        if self.peeked.is_none() {
            proof {
                lemma_next_token_bounds(self.src(), self.lexer.current_pos as int);
            }
            let t = self.lexer.next();
            self.peeked = t;
        }
    }

    /// Take the next token off the stream, or `None` once only whitespace
    /// is left (in which case the stream does not move).
    pub fn next(&mut self) -> (r: Option<Spanned<Token>>)
        requires
            old(self).ready(),
        ensures
            final(self).ready(),
            final(self).src() == old(self).src(),
            old(self).cur() <= final(self).cur(),
            final(self).fuel() <= old(self).fuel(),
            match next_token(old(self).src(), old(self).cur()) {
                None => r is None && final(self).cur() == old(self).cur(),
                Some(t) => {
                    &&& r matches Some(sp) && sp@ == t
                    &&& final(self).cur() == t.end
                    &&& final(self).fuel() < old(self).fuel()
                },
            },
    {
        self.fill();
        let r = self.peeked.take();
        proof {
            if let Some(t) = next_token(self.src(), self.pos@) {
                lemma_next_token_bounds(self.src(), self.pos@);
                self.pos = Ghost(t.end);
            }
        }
        r
    }

    /// Whether the next token equals `token`, without moving the stream.
    pub fn check(&mut self, token: Token) -> (b: bool)
        requires
            old(self).ready(),
        ensures
            final(self).ready(),
            final(self).src() == old(self).src(),
            final(self).cur() == old(self).cur(),
            final(self).fuel() <= old(self).fuel(),
            b == match next_token(old(self).src(), old(self).cur()) {
                None => false,
                Some(t) => t.data == token@,
            },
    {
        self.fill();
        match &self.peeked {
            None => false,
            Some(sp) => sp.data == token,
        }
    }

    /// Require the next token to equal `token`: consume and return it on a
    /// match; otherwise fail without moving the stream, with the offending
    /// token or `UnexpectedEOF`.
    pub fn eat(&mut self, token: Token) -> (r: Result<Spanned<Token>, SyntaxError>)
        requires
            old(self).ready(),
        ensures
            final(self).ready(),
            final(self).src() == old(self).src(),
            old(self).cur() <= final(self).cur(),
            final(self).fuel() <= old(self).fuel(),
            match next_token(old(self).src(), old(self).cur()) {
                None => r matches Err(SyntaxError::UnexpectedEOF) && final(self).cur() == old(
                    self,
                ).cur(),
                Some(t) => if t.data == token@ {
                    &&& r matches Ok(sp) && sp@ == t
                    &&& final(self).cur() == t.end
                    &&& final(self).fuel() < old(self).fuel()
                } else {
                    &&& r matches Err(SyntaxError::UnexpectedToken(sp)) && sp@ == t
                    &&& final(self).cur() == old(self).cur()
                },
            },
    {
        self.fill();
        proof {
            if next_token(self.src(), self.pos@) is Some {
                lemma_next_token_bounds(self.src(), self.pos@);
            }
        }
        let taken = self.peeked.take();
        match taken {
            None => Err(SyntaxError::UnexpectedEOF),
            Some(sp) => {
                if sp.data == token {
                    proof {
                        self.pos = Ghost(next_token(self.src(), self.pos@)->Some_0.end);
                    }
                    Ok(sp)
                } else {
                    let err = Spanned::new(sp.span.start, sp.span.end, sp.data.clone());
                    self.peeked = Some(sp);
                    Err(SyntaxError::UnexpectedToken(err))
                }
            },
        }
    }

    /// Require the next token to satisfy the projection `fun`: on a match,
    /// consume the token and return the projected value under its span;
    /// otherwise fail without moving the stream.
    pub fn eat_match<T, F: Fn(Token) -> Option<T>>(&mut self, fun: F) -> (r: Result<
        Spanned<T>,
        SyntaxError,
    >)
        requires
            old(self).ready(),
            forall|t: Token| #[trigger] call_requires(fun, (t,)),
        ensures
            final(self).ready(),
            final(self).src() == old(self).src(),
            old(self).cur() <= final(self).cur(),
            final(self).fuel() <= old(self).fuel(),
            match next_token(old(self).src(), old(self).cur()) {
                None => r matches Err(SyntaxError::UnexpectedEOF) && final(self).cur() == old(
                    self,
                ).cur(),
                Some(t) => {
                    ||| {
                        &&& r matches Ok(sp)
                        &&& exists|tok: Token, v: T|
                            {
                                &&& tok@ == t.data
                                &&& #[trigger] call_ensures(fun, (tok,), Some(v))
                                &&& sp.data == v
                            }
                        &&& r matches Ok(sp) ==> sp.span.start as int == t.start
                            && sp.span.end as int == t.end
                        &&& final(self).cur() == t.end
                        &&& final(self).fuel() < old(self).fuel()
                    }
                    ||| {
                        &&& r matches Err(SyntaxError::UnexpectedToken(sp)) && sp@ == t
                        &&& exists|tok: Token| tok@ == t.data && #[trigger] call_ensures(
                            fun,
                            (tok,),
                            None::<T>,
                        )
                        &&& final(self).cur() == old(self).cur()
                    }
                },
            },
    {
        self.fill();
        proof {
            if next_token(self.src(), self.pos@) is Some {
                lemma_next_token_bounds(self.src(), self.pos@);
            }
        }
        let taken = self.peeked.take();
        match taken {
            None => Err(SyntaxError::UnexpectedEOF),
            Some(sp) => {
                let arg = sp.data.clone();
                let projected = fun(arg);
                match projected {
                    Some(v) => {
                        proof {
                            self.pos = Ghost(next_token(self.src(), self.pos@)->Some_0.end);
                        }
                        Ok(Spanned::new(sp.span.start, sp.span.end, v))
                    },
                    None => {
                        let err = Spanned::new(sp.span.start, sp.span.end, sp.data.clone());
                        self.peeked = Some(sp);
                        Err(SyntaxError::UnexpectedToken(err))
                    },
                }
            },
        }
    }
}

/// What every parsing method keeps: the parser stays ready on the same
/// source, and the stream only moves forward.
pub open spec fn frame(pre: Parser, post: Parser) -> bool {
    &&& post.ready()
    &&& post.src() == pre.src()
    &&& pre.cur() <= post.cur()
    &&& post.fuel() <= pre.fuel()
}

/// The returned value is exactly what the spec parser `sp` says: the same
/// tree and final position on success, the same offending token (still the
/// next token of the stream) or exhausted stream on failure.
pub open spec fn pres_match(
    pre: Parser,
    post: Parser,
    sp: PRes,
    r: Result<Box<Expr>, SyntaxError>,
) -> bool {
    match sp {
        PRes::Done { e, p } => r matches Ok(b) && b@ == e && post.cur() == p,
        PRes::Unexpected { t } => r matches Err(SyntaxError::UnexpectedToken(sp2)) && sp2@ == t
            && next_token(pre.src(), post.cur()) == Some(t),
        PRes::Eof => r matches Err(SyntaxError::UnexpectedEOF) && next_token(
            pre.src(),
            post.cur(),
        ) is None,
    }
}

/// On success the tree covers consumed input: its span lies between the
/// old and new stream positions, and at least one token was consumed.
pub open spec fn ok_moves(pre: Parser, post: Parser, r: Result<Box<Expr>, SyntaxError>) -> bool {
    r matches Ok(b) ==> {
        &&& pre.cur() <= b@.start
        &&& b@.start < b@.end
        &&& b@.end <= post.cur()
        &&& pre.cur() < post.cur()
        &&& post.fuel() < pre.fuel()
    }
}

/// The projection `eat_match` is given for an integer literal.
fn project_int(t: Token) -> (r: Option<usize>)
    ensures
        r == match t {
            Token::Int(x) => Some(x),
            _ => None::<usize>,
        },
{
    match t {
        Token::Int(x) => Some(x),
        _ => None,
    }
}

/// The projection `eat_match` is given for an identifier.
fn project_id(t: Token) -> (r: Option<String>)
    ensures
        t matches Token::Id(w) ==> r matches Some(v) && v == w,
        !(t is Id) ==> r is None,
{
    match t {
        Token::Id(w) => Some(w),
        _ => None,
    }
}

impl Parser {
    /// Require the next token to be an identifier; consume it and return
    /// its text under its span.
    pub fn parse_id(&mut self) -> (r: Result<Spanned<String>, SyntaxError>)
        requires
            old(self).ready(),
        ensures
            frame(*old(self), *final(self)),
            match next_token(old(self).src(), old(self).cur()) {
                None => r matches Err(SyntaxError::UnexpectedEOF) && final(self).cur() == old(
                    self,
                ).cur(),
                Some(t) => match t.data {
                    TokM::Id(w) => {
                        &&& r matches Ok(sp) && sp.data@ == w
                        &&& r matches Ok(sp) ==> sp.span.start as int == t.start
                            && sp.span.end as int == t.end
                        &&& final(self).cur() == t.end
                        &&& final(self).fuel() < old(self).fuel()
                    },
                    _ => r matches Err(SyntaxError::UnexpectedToken(sp)) && sp@ == t
                        && final(self).cur() == old(self).cur(),
                },
            },
    {
        let ghost s = self.src();
        let ghost p0 = self.cur();
        let r = self.eat_match(project_id);
        proof {
            if let Some(t) = next_token(s, p0) {
                match &r {
                    Ok(sp) => {
                        let (tok, v) = choose|tok: Token, v: String|
                            tok@ == t.data && #[trigger] call_ensures(project_id, (tok,), Some(v))
                                && sp.data == v;
                        match tok {
                            Token::Id(w) => {},
                            _ => {
                                assert(false);
                            },
                        }
                    },
                    Err(e) => {
                        if t.data is Id {
                            let tok = choose|tok: Token|
                                tok@ == t.data && #[trigger] call_ensures(
                                    project_id,
                                    (tok,),
                                    None::<String>,
                                );
                            match tok {
                                Token::Id(w) => {
                                    assert(false);
                                },
                                _ => {
                                    assert(false);
                                },
                            }
                        }
                    },
                }
            }
        }
        r
    }

    /// An integer literal as a leaf node.
    pub fn parse_int(&mut self) -> (r: Result<Box<Expr>, SyntaxError>)
        requires
            old(self).ready(),
        ensures
            frame(*old(self), *final(self)),
            pres_match(*old(self), *final(self), sp_int(old(self).src(), old(self).cur()), r),
            ok_moves(*old(self), *final(self), r),
    {
        let ghost s = self.src();
        let ghost p0 = self.cur();
        let int_sp = match self.eat_match(project_int) {
            Ok(x) => x,
            Err(e) => {
                proof {
                    if let Some(t) = next_token(s, p0) {
                        if t.data is Int {
                            let tok = choose|tok: Token|
                                tok@ == t.data && #[trigger] call_ensures(
                                    project_int,
                                    (tok,),
                                    None::<usize>,
                                );
                            match tok {
                                Token::Int(x) => {
                                    assert(false);
                                },
                                _ => {
                                    assert(false);
                                },
                            }
                        }
                    }
                }
                return Err(e);
            },
        };
        proof {
            lemma_next_token_bounds(s, p0);
            let t = next_token(s, p0)->Some_0;
            let (tok, v) = choose|tok: Token, v: usize|
                tok@ == t.data && #[trigger] call_ensures(project_int, (tok,), Some(v))
                    && int_sp.data == v;
            match tok {
                Token::Int(x) => {},
                _ => {
                    assert(false);
                },
            }
        }
        Ok(
            Box::new(
                Expr {
                    span: int_sp.span.start..int_sp.span.end,
                    data: ExprKind::Int(int_sp.data),
                },
            ),
        )
    }

    /// An identifier as a leaf node.
    pub fn parse_ident(&mut self) -> (r: Result<Box<Expr>, SyntaxError>)
        requires
            old(self).ready(),
        ensures
            frame(*old(self), *final(self)),
            pres_match(*old(self), *final(self), sp_ident(old(self).src(), old(self).cur()), r),
            ok_moves(*old(self), *final(self), r),
    {
        let ghost s = self.src();
        let ghost p0 = self.cur();
        let name = match self.parse_id() {
            Ok(x) => x,
            Err(e) => return Err(e),
        };
        proof {
            lemma_next_token_bounds(s, p0);
        }
        Ok(
            Box::new(
                Expr {
                    span: name.span.start..name.span.end,
                    data: ExprKind::Ident(name.data),
                },
            ),
        )
    }

    /// A parenthesized expression: consume `(`, parse a full expression,
    /// require `)`, and return the inner tree with its own span.
    pub fn parse_parens(&mut self) -> (r: Result<Box<Expr>, SyntaxError>)
        requires
            old(self).ready(),
        ensures
            frame(*old(self), *final(self)),
            pres_match(*old(self), *final(self), sp_parens(old(self).src(), old(self).cur()), r),
            ok_moves(*old(self), *final(self), r),
        decreases old(self).fuel(), 3int,
    {
        let ghost s = self.src();
        let ghost p0 = self.cur();
        let lp = match self.eat(Token::LPar) {
            Ok(x) => x,
            Err(e) => return Err(e),
        };
        proof {
            lemma_next_token_bounds(s, p0);
        }
        let expr = match self.parse_expr() {
            Ok(x) => x,
            Err(e) => return Err(e),
        };
        let ghost p2 = self.cur();
        match self.eat(Token::RPar) {
            Ok(x) => {},
            Err(e) => return Err(e),
        }
        proof {
            lemma_next_token_bounds(s, p2);
        }
        Ok(expr)
    }

    /// Unary negation: consume `-`, parse a full expression, and wrap it.
    /// The span runs from the sign to the end of the operand.
    pub fn parse_minus(&mut self) -> (r: Result<Box<Expr>, SyntaxError>)
        requires
            old(self).ready(),
        ensures
            frame(*old(self), *final(self)),
            pres_match(*old(self), *final(self), sp_minus(old(self).src(), old(self).cur()), r),
            ok_moves(*old(self), *final(self), r),
        decreases old(self).fuel(), 2int,
    {
        let ghost s = self.src();
        let ghost p0 = self.cur();
        let op = match self.eat(Token::Minus) {
            Ok(x) => x,
            Err(e) => return Err(e),
        };
        proof {
            lemma_next_token_bounds(s, p0);
        }
        let expr = match self.parse_expr() {
            Ok(x) => x,
            Err(e) => return Err(e),
        };
        let start = op.span.start;
        let end = expr.span.end;
        Ok(
            Box::new(
                Expr {
                    span: start..end,
                    data: ExprKind::Unary(UnaryNode { operation: Operation::Minus, expr }),
                },
            ),
        )
    }

    /// `atom := int | id | "(" expr ")" | "-" expr`, decided by one token
    /// of lookahead; any other token is rejected without being consumed.
    pub fn parse_atom(&mut self) -> (r: Result<Box<Expr>, SyntaxError>)
        requires
            old(self).ready(),
        ensures
            frame(*old(self), *final(self)),
            pres_match(*old(self), *final(self), sp_atom(old(self).src(), old(self).cur()), r),
            ok_moves(*old(self), *final(self), r),
        decreases old(self).fuel(), 4int,
    {
        self.fill();
        proof {
            lemma_next_token_bounds(self.src(), self.cur());
        }
        let t = match &self.peeked {
            None => return Err(SyntaxError::UnexpectedEOF),
            Some(sp) => Spanned::new(sp.span.start, sp.span.end, sp.data.clone()),
        };
        match t.data {
            Token::Int(_) => self.parse_int(),
            Token::Id(_) => self.parse_ident(),
            Token::LPar => self.parse_parens(),
            Token::Minus => self.parse_minus(),
            _ => Err(SyntaxError::UnexpectedToken(t)),
        }
    }

    /// `mult := atom (("*"|"/") atom)*`, folded left-associatively.
    pub fn parse_mult(&mut self) -> (r: Result<Box<Expr>, SyntaxError>)
        requires
            old(self).ready(),
        ensures
            frame(*old(self), *final(self)),
            pres_match(*old(self), *final(self), sp_mult(old(self).src(), old(self).cur()), r),
            ok_moves(*old(self), *final(self), r),
        decreases old(self).fuel(), 6int,
    {
        let left = match self.parse_atom() {
            Ok(x) => x,
            Err(e) => return Err(e),
        };
        self.parse_mult_rest(left)
    }

    /// The multiplicative fold: while the next token is `*` or `/`,
    /// consume it, parse one more atom, and extend `left` on the left.
    fn parse_mult_rest(&mut self, left: Box<Expr>) -> (r: Result<Box<Expr>, SyntaxError>)
        requires
            old(self).ready(),
            left@.start < left@.end,
            left@.end <= old(self).cur(),
        ensures
            frame(*old(self), *final(self)),
            pres_match(
                *old(self),
                *final(self),
                sp_mult_loop(old(self).src(), old(self).cur(), left@),
                r,
            ),
            r matches Ok(b) ==> b@.start == left@.start && b@.start < b@.end
                && b@.end <= final(self).cur(),
        decreases old(self).fuel(), 5int,
    {
        let ghost s = self.src();
        let ghost p0 = self.cur();
        let star = self.check(Token::Star);
        let slash = self.check(Token::Slash);
        if !star && !slash {
            return Ok(left);
        }
        let op = match self.next() {
            Some(x) => x,
            None => return Err(SyntaxError::UnexpectedEOF),
        };
        proof {
            lemma_next_token_bounds(s, p0);
        }
        let operation = if matches!(op.data, Token::Star) {
            Operation::Mult
        } else {
            Operation::Slash
        };
        let right = match self.parse_atom() {
            Ok(x) => x,
            Err(e) => return Err(e),
        };
        let start = left.span.start;
        let end = right.span.end;
        let node = Box::new(
            Expr {
                span: start..end,
                data: ExprKind::Binary(BinaryNode { operation, left, right }),
            },
        );
        self.parse_mult_rest(node)
    }

    /// `add := mult (("+"|"-") mult)*`, folded left-associatively.
    pub fn parse_add(&mut self) -> (r: Result<Box<Expr>, SyntaxError>)
        requires
            old(self).ready(),
        ensures
            frame(*old(self), *final(self)),
            pres_match(*old(self), *final(self), sp_add(old(self).src(), old(self).cur()), r),
            ok_moves(*old(self), *final(self), r),
        decreases old(self).fuel(), 8int,
    {
        let left = match self.parse_mult() {
            Ok(x) => x,
            Err(e) => return Err(e),
        };
        self.parse_add_rest(left)
    }

    /// The additive fold: while the next token is `+` or `-`, consume it,
    /// parse one more multiplicative operand, and extend `left` on the
    /// left.
    fn parse_add_rest(&mut self, left: Box<Expr>) -> (r: Result<Box<Expr>, SyntaxError>)
        requires
            old(self).ready(),
            left@.start < left@.end,
            left@.end <= old(self).cur(),
        ensures
            frame(*old(self), *final(self)),
            pres_match(
                *old(self),
                *final(self),
                sp_add_loop(old(self).src(), old(self).cur(), left@),
                r,
            ),
            r matches Ok(b) ==> b@.start == left@.start && b@.start < b@.end
                && b@.end <= final(self).cur(),
        decreases old(self).fuel(), 7int,
    {
        let ghost s = self.src();
        let ghost p0 = self.cur();
        let plus = self.check(Token::Plus);
        let minus = self.check(Token::Minus);
        if !plus && !minus {
            return Ok(left);
        }
        let op = match self.next() {
            Some(x) => x,
            None => return Err(SyntaxError::UnexpectedEOF),
        };
        proof {
            lemma_next_token_bounds(s, p0);
        }
        let operation = if matches!(op.data, Token::Plus) {
            Operation::Add
        } else {
            Operation::Minus
        };
        let right = match self.parse_mult() {
            Ok(x) => x,
            Err(e) => return Err(e),
        };
        let start = left.span.start;
        let end = right.span.end;
        let node = Box::new(
            Expr {
                span: start..end,
                data: ExprKind::Binary(BinaryNode { operation, left, right }),
            },
        );
        self.parse_add_rest(node)
    }

    /// The let form: `let`, an identifier, `=`, a value expression, `in`,
    /// a body expression. The node's span runs from the `let` keyword to
    /// the end of the body, and the value's and body's spans are disjoint
    /// and ordered.
    pub fn parse_let(&mut self) -> (r: Result<Box<Expr>, SyntaxError>)
        requires
            old(self).ready(),
        ensures
            frame(*old(self), *final(self)),
            pres_match(*old(self), *final(self), sp_let(old(self).src(), old(self).cur()), r),
            ok_moves(*old(self), *final(self), r),
            r matches Ok(b) ==> b.data matches ExprKind::Let(n) && n.value.span.end
                <= n.next.span.start,
        decreases old(self).fuel(), 9int,
    {
        let ghost s = self.src();
        let ghost p0 = self.cur();
        let start = match self.eat(Token::Let) {
            Ok(x) => x,
            Err(e) => return Err(e),
        };
        proof {
            lemma_next_token_bounds(s, p0);
        }
        let ghost p1 = self.cur();
        let name = match self.parse_id() {
            Ok(x) => x,
            Err(e) => return Err(e),
        };
        proof {
            lemma_next_token_bounds(s, p1);
        }
        let ghost p2 = self.cur();
        let eq = match self.eat(Token::Equal) {
            Ok(x) => x,
            Err(e) => return Err(e),
        };
        proof {
            lemma_next_token_bounds(s, p2);
        }
        let value = match self.parse_expr() {
            Ok(x) => x,
            Err(e) => return Err(e),
        };
        let ghost p4 = self.cur();
        let ik = match self.eat(Token::In) {
            Ok(x) => x,
            Err(e) => return Err(e),
        };
        proof {
            lemma_next_token_bounds(s, p4);
        }
        let next = match self.parse_expr() {
            Ok(x) => x,
            Err(e) => return Err(e),
        };
        let sl = start.span.start;
        let end = next.span.end;
        Ok(
            Box::new(
                Expr {
                    span: sl..end,
                    data: ExprKind::Let(LetNode { name: name.data, value, next }),
                },
            ),
        )
    }

    /// `expr := "let" id "=" expr "in" expr | add`, decided by one token
    /// of lookahead, which is not consumed by the decision.
    pub fn parse_expr(&mut self) -> (r: Result<Box<Expr>, SyntaxError>)
        requires
            old(self).ready(),
        ensures
            frame(*old(self), *final(self)),
            pres_match(*old(self), *final(self), sp_expr(old(self).src(), old(self).cur()), r),
            ok_moves(*old(self), *final(self), r),
        decreases old(self).fuel(), 10int,
    {
        self.fill();
        let is_let = match &self.peeked {
            None => return Err(SyntaxError::UnexpectedEOF),
            Some(sp) => matches!(sp.data, Token::Let),
        };
        if is_let {
            self.parse_let()
        } else {
            self.parse_add()
        }
    }
}

} // verus!

// What follows proves the parenthesization round trip: parsing a source
// wrapped in parentheses yields the tree of the unwrapped source with
// every span moved one place to the right — the same shape. The proof is
// a mutual induction over the spec parser, resting on a token-level shift
// lemma.
verus! {

/// No double-quote character occurs in `s`. A rendered expression never
/// holds one: the grammar's trees carry no string literals.
pub open spec fn quote_free(s: Seq<char>) -> bool {
    forall|i: int| 0 <= i < s.len() ==> s[i] != '"'
}

/// `s` wrapped in one pair of parentheses.
pub open spec fn wrap_parens(s: Seq<char>) -> Seq<char> {
    seq!['('] + s + seq![')']
}

/// A token with both span ends moved by `d`.
pub open spec fn shift_tok(t: SpannedM<TokM>, d: int) -> SpannedM<TokM> {
    SpannedM { data: t.data, start: t.start + d, end: t.end + d }
}

/// A tree with every span moved by `d`: the same shape at new positions.
pub open spec fn shift_em(e: EM, d: int) -> EM
    decreases e,
{
    SpannedM { data: shift_ekm(e.data, d), start: e.start + d, end: e.end + d }
}

/// The shape of [`shift_em`] on a node.
pub open spec fn shift_ekm(k: EKM, d: int) -> EKM
    decreases k,
{
    match k {
        EKM::Let { name, value, next } => EKM::Let {
            name,
            value: Box::new(shift_em(*value, d)),
            next: Box::new(shift_em(*next, d)),
        },
        EKM::Ident(w) => EKM::Ident(w),
        EKM::Binary { operation, left, right } => EKM::Binary {
            operation,
            left: Box::new(shift_em(*left, d)),
            right: Box::new(shift_em(*right, d)),
        },
        EKM::Unary { operation, expr } => EKM::Unary {
            operation,
            expr: Box::new(shift_em(*expr, d)),
        },
        EKM::Int(n) => EKM::Int(n),
    }
}

/// A character run not containing `(` or `)` sits one place further right
/// in the wrapped source.
proof fn lemma_run_end_shift(u: Seq<char>, p: int, pred: spec_fn(char) -> bool)
    requires
        0 <= p <= u.len(),
        !pred('('),
        !pred(')'),
    ensures
        run_end(wrap_parens(u), p + 1, pred) == run_end(u, p, pred) + 1,
    decreases u.len() - p,
{
    let v = wrap_parens(u);
    assert(v.len() == u.len() + 2);
    if p < u.len() {
        assert(v[p + 1] == u[p]);
        if pred(u[p]) {
            lemma_run_end_shift(u, p + 1, pred);
        }
    } else {
        assert(v[p + 1] == ')');
    }
}

/// The token at `p` of a quote-free source sits, shifted one place, at
/// `p + 1` of the wrapped source; where the source is exhausted, the
/// wrapped source offers its closing parenthesis instead.
proof fn lemma_next_token_shift(u: Seq<char>, p: int)
    requires
        0 <= p <= u.len(),
        quote_free(u),
    ensures
        match next_token(u, p) {
            None => next_token(wrap_parens(u), p + 1) == Some(
                SpannedM { data: TokM::RPar, start: u.len() as int + 1, end: u.len() as int + 2 },
            ),
            Some(t) => next_token(wrap_parens(u), p + 1) == Some(shift_tok(t, 1)),
        },
{
    let v = wrap_parens(u);
    assert(v.len() == u.len() + 2);
    assert(!space_p()('(') && !space_p()(')'));
    assert(!digit_p()('(') && !digit_p()(')'));
    assert(!ident_p()('(') && !ident_p()(')'));
    lemma_run_end_shift(u, p, space_p());
    lemma_run_end(u, p, space_p());
    let j = run_end(u, p, space_p());
    if j == u.len() {
        assert(v[j + 1] == ')');
    } else {
        let c = u[j];
        assert(v[j + 1] == c);
        if is_digit(c) {
            lemma_run_end_shift(u, j, digit_p());
            lemma_run_end(u, j, digit_p());
            let k = run_end(u, j, digit_p());
            assert(v.subrange(j + 2, k + 1) =~= u.subrange(j + 1, k));
            assert(v.subrange(j + 1, k + 1) =~= u.subrange(j, k));
        } else if c == '"' {
            assert(false);
        } else if is_ident_char(c) {
            lemma_run_end_shift(u, j, ident_p());
            lemma_run_end(u, j, ident_p());
            let k = run_end(u, j, ident_p());
            assert(v.subrange(j + 1, k + 1) =~= u.subrange(j, k));
        }
    }
}

} // verus!

// The shift lemmas: one per production of the spec parser, proved by
// mutual induction along the same measure the productions themselves use.
// Each says: where the unwrapped parse succeeds, the wrapped parse
// succeeds one position to the right with the shifted tree, and the
// unwrapped parse ends inside the source.
verus! {

proof fn shift_expr(u: Seq<char>, p: int)
    requires
        0 <= p <= u.len(),
        quote_free(u),
    ensures
        match sp_expr(u, p) {
            PRes::Done { e, p: q } => p < q <= u.len() && sp_expr(wrap_parens(u), p + 1) == (
            PRes::Done { e: shift_em(e, 1), p: q + 1 }),
            _ => true,
        },
    decreases u.len() - p, 10int,
{
    lemma_next_token_shift(u, p);
    if let Some(t) = next_token(u, p) {
        if t.data is Let {
            shift_let(u, p);
        } else {
            shift_add(u, p);
        }
    }
}

proof fn shift_let(u: Seq<char>, p: int)
    requires
        0 <= p <= u.len(),
        quote_free(u),
    ensures
        match sp_let(u, p) {
            PRes::Done { e, p: q } => p < q <= u.len() && sp_let(wrap_parens(u), p + 1) == (
            PRes::Done { e: shift_em(e, 1), p: q + 1 }),
            _ => true,
        },
    decreases u.len() - p, 9int,
{
    let v = wrap_parens(u);
    let len: int = u.len() as int;
    let lenv: int = v.len() as int;
    assert(lenv == len + 2);
    lemma_next_token_shift(u, p);
    lemma_next_token_bounds(u, p);
    if let Some(lt) = next_token(u, p) {
        if lt.data is Let {
            lemma_next_token_shift(u, lt.end);
            lemma_next_token_bounds(u, lt.end);
            if let Some(nm) = next_token(u, lt.end) {
                if nm.data is Id {
                    lemma_next_token_shift(u, nm.end);
                    lemma_next_token_bounds(u, nm.end);
                    if let Some(eq) = next_token(u, nm.end) {
                        if eq.data is Equal {
                            assert(step_pos(eq.end, p + 1, len) == eq.end);
                            assert(step_pos(eq.end + 1, p + 2, lenv) == eq.end + 1);
                            shift_expr(u, eq.end);
                            if let PRes::Done { e: value, p: pv } = sp_expr(u, eq.end) {
                                assert(step_pos(pv, p + 1, len) == pv);
                                assert(step_pos(pv + 1, p + 2, lenv) == pv + 1);
                                lemma_next_token_shift(u, pv);
                                lemma_next_token_bounds(u, pv);
                                if let Some(ik) = next_token(u, pv) {
                                    if ik.data is In {
                                        assert(step_pos(ik.end, p + 1, len) == ik.end);
                                        assert(step_pos(ik.end + 1, p + 2, lenv) == ik.end + 1);
                                        shift_expr(u, ik.end);
                                    }
                                }
                            }
                        }
                    }
                }
            }
        }
    }
}

proof fn shift_add(u: Seq<char>, p: int)
    requires
        0 <= p <= u.len(),
        quote_free(u),
    ensures
        match sp_add(u, p) {
            PRes::Done { e, p: q } => p < q <= u.len() && sp_add(wrap_parens(u), p + 1) == (
            PRes::Done { e: shift_em(e, 1), p: q + 1 }),
            _ => true,
        },
    decreases u.len() - p, 8int,
{
    let v = wrap_parens(u);
    let len: int = u.len() as int;
    let lenv: int = v.len() as int;
    shift_mult(u, p);
    if let PRes::Done { e, p: q } = sp_mult(u, p) {
        assert(step_pos(q, p + 1, len) == q);
        assert(step_pos(q + 1, p + 2, lenv) == q + 1);
        shift_add_loop(u, q, e);
    }
}

proof fn shift_add_loop(u: Seq<char>, p: int, l: EM)
    requires
        0 <= p <= u.len(),
        quote_free(u),
    ensures
        match sp_add_loop(u, p, l) {
            PRes::Done { e, p: q } => p <= q <= u.len() && sp_add_loop(
                wrap_parens(u),
                p + 1,
                shift_em(l, 1),
            ) == (PRes::Done { e: shift_em(e, 1), p: q + 1 }),
            _ => true,
        },
    decreases u.len() - p, 7int,
{
    let v = wrap_parens(u);
    let len: int = u.len() as int;
    let lenv: int = v.len() as int;
    lemma_next_token_shift(u, p);
    lemma_next_token_bounds(u, p);
    if let Some(op) = next_token(u, p) {
        if op.data is Plus || op.data is Minus {
            assert(step_pos(op.end, p + 1, len) == op.end);
            assert(step_pos(op.end + 1, p + 2, lenv) == op.end + 1);
            shift_mult(u, op.end);
            if let PRes::Done { e: r, p: qr } = sp_mult(u, op.end) {
                assert(step_pos(qr, p + 1, len) == qr);
                assert(step_pos(qr + 1, p + 2, lenv) == qr + 1);
                let node = SpannedM {
                    data: EKM::Binary {
                        operation: if op.data is Plus {
                            Operation::Add
                        } else {
                            Operation::Minus
                        },
                        left: Box::new(l),
                        right: Box::new(r),
                    },
                    start: l.start,
                    end: r.end,
                };
                shift_add_loop(u, qr, node);
            }
        }
    }
}

proof fn shift_mult(u: Seq<char>, p: int)
    requires
        0 <= p <= u.len(),
        quote_free(u),
    ensures
        match sp_mult(u, p) {
            PRes::Done { e, p: q } => p < q <= u.len() && sp_mult(wrap_parens(u), p + 1) == (
            PRes::Done { e: shift_em(e, 1), p: q + 1 }),
            _ => true,
        },
    decreases u.len() - p, 6int,
{
    let v = wrap_parens(u);
    let len: int = u.len() as int;
    let lenv: int = v.len() as int;
    shift_atom(u, p);
    if let PRes::Done { e, p: q } = sp_atom(u, p) {
        assert(step_pos(q, p + 1, len) == q);
        assert(step_pos(q + 1, p + 2, lenv) == q + 1);
        shift_mult_loop(u, q, e);
    }
}

proof fn shift_mult_loop(u: Seq<char>, p: int, l: EM)
    requires
        0 <= p <= u.len(),
        quote_free(u),
    ensures
        match sp_mult_loop(u, p, l) {
            PRes::Done { e, p: q } => p <= q <= u.len() && sp_mult_loop(
                wrap_parens(u),
                p + 1,
                shift_em(l, 1),
            ) == (PRes::Done { e: shift_em(e, 1), p: q + 1 }),
            _ => true,
        },
    decreases u.len() - p, 5int,
{
    let v = wrap_parens(u);
    let len: int = u.len() as int;
    let lenv: int = v.len() as int;
    lemma_next_token_shift(u, p);
    lemma_next_token_bounds(u, p);
    if let Some(op) = next_token(u, p) {
        if op.data is Star || op.data is Slash {
            assert(step_pos(op.end, p + 1, len) == op.end);
            assert(step_pos(op.end + 1, p + 2, lenv) == op.end + 1);
            shift_atom(u, op.end);
            if let PRes::Done { e: r, p: qr } = sp_atom(u, op.end) {
                assert(step_pos(qr, p + 1, len) == qr);
                assert(step_pos(qr + 1, p + 2, lenv) == qr + 1);
                let node = SpannedM {
                    data: EKM::Binary {
                        operation: if op.data is Star {
                            Operation::Mult
                        } else {
                            Operation::Slash
                        },
                        left: Box::new(l),
                        right: Box::new(r),
                    },
                    start: l.start,
                    end: r.end,
                };
                shift_mult_loop(u, qr, node);
            }
        }
    }
}

proof fn shift_atom(u: Seq<char>, p: int)
    requires
        0 <= p <= u.len(),
        quote_free(u),
    ensures
        match sp_atom(u, p) {
            PRes::Done { e, p: q } => p < q <= u.len() && sp_atom(wrap_parens(u), p + 1) == (
            PRes::Done { e: shift_em(e, 1), p: q + 1 }),
            _ => true,
        },
    decreases u.len() - p, 4int,
{
    lemma_next_token_shift(u, p);
    lemma_next_token_bounds(u, p);
    if let Some(t) = next_token(u, p) {
        match t.data {
            TokM::LPar => shift_parens(u, p),
            TokM::Minus => shift_minus(u, p),
            _ => {},
        }
    }
}

proof fn shift_parens(u: Seq<char>, p: int)
    requires
        0 <= p <= u.len(),
        quote_free(u),
    ensures
        match sp_parens(u, p) {
            PRes::Done { e, p: q } => p < q <= u.len() && sp_parens(wrap_parens(u), p + 1) == (
            PRes::Done { e: shift_em(e, 1), p: q + 1 }),
            _ => true,
        },
    decreases u.len() - p, 3int,
{
    let v = wrap_parens(u);
    let len: int = u.len() as int;
    let lenv: int = v.len() as int;
    lemma_next_token_shift(u, p);
    lemma_next_token_bounds(u, p);
    if let Some(lp) = next_token(u, p) {
        if lp.data is LPar {
            assert(step_pos(lp.end, p + 1, len) == lp.end);
            assert(step_pos(lp.end + 1, p + 2, lenv) == lp.end + 1);
            shift_expr(u, lp.end);
            if let PRes::Done { e, p: q } = sp_expr(u, lp.end) {
                assert(step_pos(q, p + 1, len) == q);
                assert(step_pos(q + 1, p + 2, lenv) == q + 1);
                lemma_next_token_shift(u, q);
                lemma_next_token_bounds(u, q);
            }
        }
    }
}

proof fn shift_minus(u: Seq<char>, p: int)
    requires
        0 <= p <= u.len(),
        quote_free(u),
    ensures
        match sp_minus(u, p) {
            PRes::Done { e, p: q } => p < q <= u.len() && sp_minus(wrap_parens(u), p + 1) == (
            PRes::Done { e: shift_em(e, 1), p: q + 1 }),
            _ => true,
        },
    decreases u.len() - p, 2int,
{
    let v = wrap_parens(u);
    let len: int = u.len() as int;
    let lenv: int = v.len() as int;
    lemma_next_token_shift(u, p);
    lemma_next_token_bounds(u, p);
    if let Some(m) = next_token(u, p) {
        if m.data is Minus {
            assert(step_pos(m.end, p + 1, len) == m.end);
            assert(step_pos(m.end + 1, p + 2, lenv) == m.end + 1);
            shift_expr(u, m.end);
        }
    }
}

/// Parenthesization round trip: where a quote-free source parses to a
/// tree and leaves nothing but whitespace, the source wrapped in one pair
/// of parentheses parses to the same tree shape, every span one place to
/// the right, consuming the wrapped source whole.
pub proof fn lemma_paren_round_trip(u: Seq<char>)
    requires
        quote_free(u),
    ensures
        match sp_expr(u, 0) {
            PRes::Done { e, p: q } => next_token(u, q) is None ==> sp_expr(wrap_parens(u), 0) == (
            PRes::Done { e: shift_em(e, 1), p: u.len() as int + 2 }),
            _ => true,
        },
{
    let v = wrap_parens(u);
    let len: int = u.len() as int;
    let lenv: int = v.len() as int;
    assert(lenv == len + 2);
    if let PRes::Done { e, p: q } = sp_expr(u, 0) {
        if next_token(u, q) is None {
            shift_expr(u, 0);
            // the wrapped source opens with a left parenthesis
            assert(v[0] == '(');
            lemma_run_end(v, 0, space_p());
            assert(run_end(v, 0, space_p()) == 0);
            let lp = SpannedM { data: TokM::LPar, start: 0int, end: 1int };
            assert(next_token(v, 0) == Some(lp));
            // after the inner expression the closing parenthesis follows
            lemma_next_token_shift(u, q);
            let rp = SpannedM { data: TokM::RPar, start: len + 1, end: len + 2 };
            assert(next_token(v, q + 1) == Some(rp));
            assert(step_pos(1, 1, lenv) == 1);
            assert(step_pos(q + 1, 1, lenv) == q + 1);
            // sp_parens(v, 0) consumes `(`, the shifted tree, and `)`
            assert(sp_parens(v, 0) == (PRes::Done { e: shift_em(e, 1), p: len + 2 }));
            assert(sp_atom(v, 0) == (PRes::Done { e: shift_em(e, 1), p: len + 2 }));
            // nothing follows the closing parenthesis
            lemma_run_end(v, lenv, space_p());
            assert(next_token(v, lenv) is None);
            assert(step_pos(len + 2, 1, lenv) == len + 2);
            assert(sp_mult_loop(v, len + 2, shift_em(e, 1)) == (PRes::Done {
                e: shift_em(e, 1),
                p: len + 2,
            }));
            assert(sp_mult(v, 0) == (PRes::Done { e: shift_em(e, 1), p: len + 2 }));
            assert(sp_add_loop(v, len + 2, shift_em(e, 1)) == (PRes::Done {
                e: shift_em(e, 1),
                p: len + 2,
            }));
            assert(sp_add(v, 0) == (PRes::Done { e: shift_em(e, 1), p: len + 2 }));
            assert(sp_expr(v, 0) == (PRes::Done { e: shift_em(e, 1), p: len + 2 }));
        }
    }
}

} // verus!
