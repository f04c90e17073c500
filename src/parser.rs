use vstd::prelude::*;
use crate::ast::{bin, intern, lemma_grows_trans, lemma_opt_below_mono, opt_below, lemma_vars_below_mono, table_grows, vars_below, new_node, new_node_for, new_node_if, new_node_num, new_node_while, BinOp, Node, Variables};
use crate::lex::{is_ws, lemma_whitespace_no_token, reserved_at, same_text, spec_next, starts_with, trim, Token, TokenIter, TokenView};

verus! {

/// What the parser holds, over plain values: the unread source and the
/// symbol table.
pub struct PState {
    pub rest: Seq<char>,
    pub syms: Seq<Seq<char>>,
}

/// A parse error over plain values: the source from the offending place on.
pub enum ErrView {
    Lexical(Seq<char>),
    Syntax(Seq<char>),
}

/// Why a parse stopped. Each holds the source from the offending place on:
/// a character that starts no token, or a token (or the end) where the
/// grammar needs another.
#[derive(Debug, PartialEq, Eq)]
pub enum ParseError {
    Lexical(String),
    Syntax(String),
}

impl View for ParseError {
    type V = ErrView;

    open spec fn view(&self) -> ErrView {
        match self {
            ParseError::Lexical(s) => ErrView::Lexical(s@),
            ParseError::Syntax(s) => ErrView::Syntax(s@),
        }
    }
}

pub open spec fn res_view<T>(r: Result<T, ParseError>) -> Result<T, ErrView> {
    match r {
        Ok(v) => Ok(v),
        Err(e) => Err(e@),
    }
}

pub open spec fn cons(st: PState, lit: Seq<char>) -> bool {
    starts_with(trim(st.rest), lit)
}

pub open spec fn after(st: PState, lit: Seq<char>) -> PState {
    PState { rest: trim(st.rest).skip(lit.len() as int), syms: st.syms }
}

/// `lit` consumed where it stands next, else nothing.
pub open spec fn opt_cons(st: PState, lit: Seq<char>) -> PState {
    if cons(st, lit) {
        after(st, lit)
    } else {
        st
    }
}

pub open spec fn lt(a: PState, b: PState) -> bool {
    a.rest.len() < b.rest.len()
}

pub open spec fn le(a: PState, b: PState) -> bool {
    a.rest.len() <= b.rest.len()
}

/// A value for branches that no parse reaches: the source only shrinks.
pub open spec fn stuck<T>(st: PState) -> (Result<T, ErrView>, PState) {
    (Err(ErrView::Syntax(Seq::empty())), st)
}

/// `primary := number | identifier | "(" expr ")"`; a name is registered in
/// the symbol table and stands as its slot.
pub open spec fn p_primary(st: PState) -> (Result<Node, ErrView>, PState)
    decreases st.rest.len(), 0nat,
{
    let (tr, r1) = spec_next(st.rest);
    let s1 = PState { rest: r1, syms: st.syms };
    match tr {
        Err(t) => (Err(ErrView::Lexical(t)), s1),
        Ok(None) => (Err(ErrView::Syntax(trim(st.rest))), s1),
        Ok(Some(TokenView::Num(n))) => (Ok(Node::Num(n)), s1),
        Ok(Some(TokenView::LVar(w))) => {
            let (k, syms) = intern(st.syms, w);
            (Ok(Node::Var(k as usize)), PState { rest: r1, syms })
        },
        Ok(Some(TokenView::Operand(o))) => {
            if o == "("@ {
                if lt(s1, st) {
                    let (e, s2) = p_expr(s1);
                    match e {
                        Err(x) => (Err(x), s2),
                        Ok(node) => {
                            let (tr2, r3) = spec_next(s2.rest);
                            let s3 = PState { rest: r3, syms: s2.syms };
                            match tr2 {
                                Err(t) => (Err(ErrView::Lexical(t)), s3),
                                Ok(Some(TokenView::Operand(c))) => {
                                    if c == ")"@ {
                                        (Ok(node), s3)
                                    } else {
                                        (Err(ErrView::Syntax(trim(s2.rest))), s3)
                                    }
                                },
                                _ => (Err(ErrView::Syntax(trim(s2.rest))), s3),
                            }
                        },
                    }
                } else {
                    stuck(st)
                }
            } else {
                (Err(ErrView::Syntax(trim(st.rest))), s1)
            }
        },
        Ok(Some(TokenView::Reserved(_))) => (Err(ErrView::Syntax(trim(st.rest))), s1),
    }
}

/// `unary := "+" primary | "-" primary | primary`, where `-x` stands as `0 - x`.
pub open spec fn p_unary(st: PState) -> (Result<Node, ErrView>, PState)
    decreases st.rest.len(), 1nat,
{
    if cons(st, "+"@) {
        if le(after(st, "+"@), st) {
            p_primary(after(st, "+"@))
        } else {
            stuck(st)
        }
    } else if cons(st, "-"@) {
        if le(after(st, "-"@), st) {
            let (r, s2) = p_primary(after(st, "-"@));
            match r {
                Err(x) => (Err(x), s2),
                Ok(n) => (Ok(bin(BinOp::Sub, Node::Num(0), n)), s2),
            }
        } else {
            stuck(st)
        }
    } else {
        p_primary(st)
    }
}

/// The operators `*` and `/` that follow `lhs`, applied from left to right.
pub open spec fn p_mul_tail(lhs: Node, st: PState) -> (Result<Node, ErrView>, PState)
    decreases st.rest.len(), 2nat,
{
    let (lit, op) = if cons(st, "*"@) {
        ("*"@, BinOp::Mul)
    } else {
        ("/"@, BinOp::Div)
    };
    if cons(st, lit) {
        let s1 = after(st, lit);
        if lt(s1, st) {
            let (r, s2) = p_unary(s1);
            match r {
                Err(x) => (Err(x), s2),
                Ok(rhs) => if lt(s2, st) {
                    p_mul_tail(bin(op, lhs, rhs), s2)
                } else {
                    stuck(st)
                },
            }
        } else {
            stuck(st)
        }
    } else {
        (Ok(lhs), st)
    }
}

/// `multiplicative := unary (("*" | "/") unary)*`
pub open spec fn p_mul(st: PState) -> (Result<Node, ErrView>, PState)
    decreases st.rest.len(), 3nat,
{
    let (r, s1) = p_unary(st);
    match r {
        Err(x) => (Err(x), s1),
        Ok(l) => if le(s1, st) {
            p_mul_tail(l, s1)
        } else {
            stuck(st)
        },
    }
}

/// The operators `+` and `-` that follow `lhs`, applied from left to right.
pub open spec fn p_add_tail(lhs: Node, st: PState) -> (Result<Node, ErrView>, PState)
    decreases st.rest.len(), 4nat,
{
    let (lit, op) = if cons(st, "+"@) {
        ("+"@, BinOp::Add)
    } else {
        ("-"@, BinOp::Sub)
    };
    if cons(st, lit) {
        let s1 = after(st, lit);
        if lt(s1, st) {
            let (r, s2) = p_mul(s1);
            match r {
                Err(x) => (Err(x), s2),
                Ok(rhs) => if lt(s2, st) {
                    p_add_tail(bin(op, lhs, rhs), s2)
                } else {
                    stuck(st)
                },
            }
        } else {
            stuck(st)
        }
    } else {
        (Ok(lhs), st)
    }
}

/// `additive := multiplicative (("+" | "-") multiplicative)*`
pub open spec fn p_add(st: PState) -> (Result<Node, ErrView>, PState)
    decreases st.rest.len(), 5nat,
{
    let (r, s1) = p_mul(st);
    match r {
        Err(x) => (Err(x), s1),
        Ok(l) => if le(s1, st) {
            p_add_tail(l, s1)
        } else {
            stuck(st)
        },
    }
}

/// The comparisons that follow `lhs`, from left to right. `a > b` stands as
/// `b < a`, and `a => b` as `b <= a`.
pub open spec fn p_rel_tail(lhs: Node, st: PState) -> (Result<Node, ErrView>, PState)
    decreases st.rest.len(), 6nat,
{
    let (lit, op, flip) = if cons(st, "<="@) {
        ("<="@, BinOp::Le, false)
    } else if cons(st, "<"@) {
        ("<"@, BinOp::Lt, false)
    } else if cons(st, "=>"@) {
        ("=>"@, BinOp::Le, true)
    } else {
        (">"@, BinOp::Lt, true)
    };
    if cons(st, lit) {
        let s1 = after(st, lit);
        if lt(s1, st) {
            let (r, s2) = p_add(s1);
            match r {
                Err(x) => (Err(x), s2),
                Ok(rhs) => if lt(s2, st) {
                    p_rel_tail(
                        if flip {
                            bin(op, rhs, lhs)
                        } else {
                            bin(op, lhs, rhs)
                        },
                        s2,
                    )
                } else {
                    stuck(st)
                },
            }
        } else {
            stuck(st)
        }
    } else {
        (Ok(lhs), st)
    }
}

/// `relational := additive (("<=" | "<" | "=>" | ">") additive)*`
pub open spec fn p_relational(st: PState) -> (Result<Node, ErrView>, PState)
    decreases st.rest.len(), 7nat,
{
    let (r, s1) = p_add(st);
    match r {
        Err(x) => (Err(x), s1),
        Ok(l) => if le(s1, st) {
            p_rel_tail(l, s1)
        } else {
            stuck(st)
        },
    }
}

/// The operators `==` and `!=` that follow `lhs`, from left to right.
pub open spec fn p_eq_tail(lhs: Node, st: PState) -> (Result<Node, ErrView>, PState)
    decreases st.rest.len(), 8nat,
{
    let (lit, op) = if cons(st, "=="@) {
        ("=="@, BinOp::Eq)
    } else {
        ("!="@, BinOp::Ne)
    };
    if cons(st, lit) {
        let s1 = after(st, lit);
        if lt(s1, st) {
            let (r, s2) = p_relational(s1);
            match r {
                Err(x) => (Err(x), s2),
                Ok(rhs) => if lt(s2, st) {
                    p_eq_tail(bin(op, lhs, rhs), s2)
                } else {
                    stuck(st)
                },
            }
        } else {
            stuck(st)
        }
    } else {
        (Ok(lhs), st)
    }
}

/// `equality := relational (("==" | "!=") relational)*`
pub open spec fn p_equality(st: PState) -> (Result<Node, ErrView>, PState)
    decreases st.rest.len(), 9nat,
{
    let (r, s1) = p_relational(st);
    match r {
        Err(x) => (Err(x), s1),
        Ok(l) => if le(s1, st) {
            p_eq_tail(l, s1)
        } else {
            stuck(st)
        },
    }
}

/// `assign := equality ("=" assign)?`, so that `=` groups to the right.
pub open spec fn p_assign(st: PState) -> (Result<Node, ErrView>, PState)
    decreases st.rest.len(), 10nat,
{
    let (r, s1) = p_equality(st);
    match r {
        Err(x) => (Err(x), s1),
        Ok(l) => if cons(s1, "="@) {
            let s2 = after(s1, "="@);
            if lt(s2, st) {
                let (r2, s3) = p_assign(s2);
                match r2 {
                    Err(x) => (Err(x), s3),
                    Ok(rhs) => (Ok(bin(BinOp::Assign, l, rhs)), s3),
                }
            } else {
                stuck(st)
            }
        } else {
            (Ok(l), s1)
        },
    }
}

/// `expr := assign`
pub open spec fn p_expr(st: PState) -> (Result<Node, ErrView>, PState)
    decreases st.rest.len(), 11nat,
{
    p_assign(st)
}

/// An optional expression ended by `term`: `term` alone gives nothing; an
/// expression must be followed by `term`, else the parse fails there.
pub open spec fn p_opt_expr(st: PState, term: Seq<char>) -> (Result<Option<Box<Node>>, ErrView>, PState)
    decreases st.rest.len(), 12nat,
{
    if cons(st, term) {
        (Ok(None), after(st, term))
    } else {
        let (r, s1) = p_expr(st);
        match r {
            Err(x) => (Err(x), s1),
            Ok(n) => if cons(s1, term) {
                (Ok(Some(Box::new(n))), after(s1, term))
            } else {
                (Err(ErrView::Syntax(trim(s1.rest))), s1)
            },
        }
    }
}

/// `return expr`, from the keyword on.
pub open spec fn p_return(st: PState) -> (Result<Node, ErrView>, PState)
    decreases st.rest.len(), 13nat,
{
    let s0 = after(st, "return"@);
    if le(s0, st) {
        let (e, s2) = p_expr(s0);
        match e {
            Err(x) => (Err(x), s2),
            Ok(n) => (Ok(Node::Return(Box::new(n))), s2),
        }
    } else {
        stuck(st)
    }
}

/// `if expr statement (else statement)?`, from the keyword on.
pub open spec fn p_if(st: PState) -> (Result<Node, ErrView>, PState)
    decreases st.rest.len(), 13nat,
{
    let s0 = after(st, "if"@);
    if lt(s0, st) {
        let (c, s2) = p_expr(s0);
        match c {
            Err(x) => (Err(x), s2),
            Ok(cn) => if le(s2, s0) {
                let (th, s3) = p_stmt(s2);
                match th {
                    Err(x) => (Err(x), s3),
                    Ok(tn) => if reserved_at(trim(s3.rest), "else"@) {
                        let s4 = after(s3, "else"@);
                        if lt(s4, st) {
                            let (el, s5) = p_stmt(s4);
                            match el {
                                Err(x) => (Err(x), s5),
                                Ok(en) => (
                                    Ok(
                                        Node::If {
                                            cond: Box::new(cn),
                                            then_branch: Box::new(tn),
                                            else_branch: Some(Box::new(en)),
                                        },
                                    ),
                                    s5,
                                ),
                            }
                        } else {
                            stuck(st)
                        }
                    } else {
                        (
                            Ok(
                                Node::If {
                                    cond: Box::new(cn),
                                    then_branch: Box::new(tn),
                                    else_branch: None,
                                },
                            ),
                            s3,
                        )
                    },
                }
            } else {
                stuck(st)
            },
        }
    } else {
        stuck(st)
    }
}

/// `for ( expr? ; expr? ; expr? ) statement`, from the keyword on: only the
/// three expressions may be left out.
pub open spec fn p_for(st: PState) -> (Result<Node, ErrView>, PState)
    decreases st.rest.len(), 13nat,
{
    let sk = after(st, "for"@);
    if !cons(sk, "("@) {
        (Err(ErrView::Syntax(trim(sk.rest))), sk)
    } else {
        let s0 = after(sk, "("@);
        if lt(s0, st) {
            let (i, s2) = p_opt_expr(s0, ";"@);
            match i {
                Err(x) => (Err(x), s2),
                Ok(init) => if le(s2, s0) {
                    let (c, s3) = p_opt_expr(s2, ";"@);
                    match c {
                        Err(x) => (Err(x), s3),
                        Ok(cond) => if le(s3, s0) {
                            let (ic, s4) = p_opt_expr(s3, ")"@);
                            match ic {
                                Err(x) => (Err(x), s4),
                                Ok(inc) => if le(s4, s0) {
                                    let (b, s5) = p_stmt(s4);
                                    match b {
                                        Err(x) => (Err(x), s5),
                                        Ok(body) => (
                                            Ok(Node::For { init, cond, inc, body: Box::new(body) }),
                                            s5,
                                        ),
                                    }
                                } else {
                                    stuck(st)
                                },
                            }
                        } else {
                            stuck(st)
                        },
                    }
                } else {
                    stuck(st)
                },
            }
        } else {
            stuck(st)
        }
    }
}

/// `while expr statement`, from the keyword on.
pub open spec fn p_while(st: PState) -> (Result<Node, ErrView>, PState)
    decreases st.rest.len(), 13nat,
{
    let s0 = after(st, "while"@);
    if lt(s0, st) {
        let (c, s2) = p_expr(s0);
        match c {
            Err(x) => (Err(x), s2),
            Ok(cn) => if le(s2, s0) {
                let (b, s3) = p_stmt(s2);
                match b {
                    Err(x) => (Err(x), s3),
                    Ok(body) => (
                        Ok(Node::While { cond: Box::new(cn), body: Box::new(body) }),
                        s3,
                    ),
                }
            } else {
                stuck(st)
            },
        }
    } else {
        stuck(st)
    }
}

/// A statement, before its optional `;`. A keyword counts only as a whole word.
pub open spec fn p_stmt_body(st: PState) -> (Result<Node, ErrView>, PState)
    decreases st.rest.len(), 14nat,
{
    let t = trim(st.rest);
    if reserved_at(t, "return"@) {
        p_return(st)
    } else if reserved_at(t, "if"@) {
        p_if(st)
    } else if reserved_at(t, "for"@) {
        p_for(st)
    } else if reserved_at(t, "while"@) {
        p_while(st)
    } else {
        p_expr(st)
    }
}

/// `statement`, then its `;` where one follows.
pub open spec fn p_stmt(st: PState) -> (Result<Node, ErrView>, PState)
    decreases st.rest.len(), 15nat,
{
    let (r, s1) = p_stmt_body(st);
    match r {
        Err(x) => (Err(x), s1),
        Ok(n) => (Ok(n), opt_cons(s1, ";"@)),
    }
}

/// `program := statement*`: statements up to the end of the source.
#[verifier::opaque]
pub open spec fn p_program(st: PState) -> (Result<Seq<Node>, ErrView>, PState)
    decreases st.rest.len(), 16nat,
{
    if trim(st.rest).len() == 0 {
        (Ok(Seq::empty()), st)
    } else {
        let (r, s1) = p_stmt(st);
        match r {
            Err(x) => (Err(x), s1),
            Ok(n) => if lt(s1, st) {
                prepend(seq![n], p_program(s1))
            } else {
                stuck(st)
            },
        }
    }
}

pub open spec fn prepend(pre: Seq<Node>, x: (Result<Seq<Node>, ErrView>, PState)) -> (Result<Seq<Node>, ErrView>, PState) {
    (
        match x.0 {
            Ok(v) => Ok(pre + v),
            Err(e) => Err(e),
        },
        x.1,
    )
}

pub open spec fn prog_view(r: Result<Vec<Node>, ParseError>) -> Result<Seq<Node>, ErrView> {
    match r {
        Ok(v) => Ok(v@),
        Err(e) => Err(e@),
    }
}

proof fn lemma_program_end(st: PState)
    requires
        trim(st.rest).len() == 0,
    ensures
        p_program(st) == (Ok::<Seq<Node>, ErrView>(Seq::empty()), st),
{
    reveal(p_program);
}

proof fn lemma_program_step(st: PState)
    requires
        trim(st.rest).len() != 0,
        p_stmt(st).0 is Ok ==> lt(p_stmt(st).1, st),
    ensures
        p_program(st) == (match p_stmt(st).0 {
            Ok(n) => prepend(seq![n], p_program(p_stmt(st).1)),
            Err(x) => (Err(x), p_stmt(st).1),
        }),
{
    reveal(p_program);
}

proof fn lemma_prepend_push(pre: Seq<Node>, n: Node, x: (Result<Seq<Node>, ErrView>, PState))
    ensures
        prepend(pre, prepend(seq![n], x)) == prepend(pre.push(n), x),
{
    match x.0 {
        Ok(v) => {
            assert(pre + (seq![n] + v) =~= pre.push(n) + v);
        },
        Err(_) => {},
    }
}

/// A source of whitespace alone is an empty program, and leaves the symbol
/// table as it was.
pub proof fn lemma_whitespace_program(st: PState)
    requires
        forall|i: int| 0 <= i < st.rest.len() ==> is_ws(st.rest[i]),
    ensures
        p_program(st) == (Ok::<Seq<Node>, ErrView>(Seq::empty()), st),
{
    lemma_whitespace_no_token(st.rest);
    lemma_program_end(st);
}

/// A recursive-descent parser that pulls tokens from the source as it goes
/// and registers every variable it meets.
#[derive(Debug)]
pub struct Parser<'a> {
    pub token_iter: TokenIter<'a>,
    pub vars: Variables,
}

impl<'a> View for Parser<'a> {
    type V = PState;

    open spec fn view(&self) -> PState {
        PState { rest: self.token_iter.s@, syms: self.vars@ }
    }
}

impl<'a> Parser<'a> {
    pub fn new(s: &'a str) -> (r: Self)
        ensures
            r@ == (PState { rest: s@, syms: Seq::empty() }),
    {
        Parser { token_iter: TokenIter::new(s), vars: Variables::new() }
    }

    fn primary(&mut self) -> (r: Result<Node, ParseError>)
        ensures
            table_grows(old(self)@.syms, final(self)@.syms),
            r matches Ok(n) ==> vars_below(n, final(self)@.syms.len()),
            (res_view(r), final(self)@) == p_primary(old(self)@),
            final(self)@.rest.len() <= old(self)@.rest.len(),
            r is Ok ==> final(self)@.rest.len() < old(self)@.rest.len(),
        decreases old(self)@.rest.len(), 0nat,
    {
        let start = self.token_iter.rest();
        match self.token_iter.next() {
            Err(e) => Err(ParseError::Lexical(e.rest)),
            Ok(None) => Err(ParseError::Syntax(start.to_owned())),
            Ok(Some(Token::Num(n))) => Ok(new_node_num(n)),
            Ok(Some(Token::LVar(w))) => {
                let k = self.vars.insert(w);
                Ok(Node::Var(k))
            },
            Ok(Some(Token::Operand(o))) => {
                if same_text(o, "(") {
                    let node = match self.expr() {
                        Ok(n) => n,
                        Err(x) => {
                            return Err(x);
                        },
                    };
                    let at = self.token_iter.rest();
                    match self.token_iter.next() {
                        Err(e) => Err(ParseError::Lexical(e.rest)),
                        Ok(Some(Token::Operand(c))) => {
                            if same_text(c, ")") {
                                Ok(node)
                            } else {
                                Err(ParseError::Syntax(at.to_owned()))
                            }
                        },
                        _ => Err(ParseError::Syntax(at.to_owned())),
                    }
                } else {
                    Err(ParseError::Syntax(start.to_owned()))
                }
            },
            Ok(Some(Token::Reserved(_))) => Err(ParseError::Syntax(start.to_owned())),
        }
    }

    fn unary(&mut self) -> (r: Result<Node, ParseError>)
        ensures
            table_grows(old(self)@.syms, final(self)@.syms),
            r matches Ok(n) ==> vars_below(n, final(self)@.syms.len()),
            (res_view(r), final(self)@) == p_unary(old(self)@),
            final(self)@.rest.len() <= old(self)@.rest.len(),
            r is Ok ==> final(self)@.rest.len() < old(self)@.rest.len(),
        decreases old(self)@.rest.len(), 1nat,
    {
        if self.token_iter.consume("+") {
            return self.primary();
        }
        if self.token_iter.consume("-") {
            let rhs = match self.primary() {
                Ok(n) => n,
                Err(x) => {
                    return Err(x);
                },
            };
            assert(vars_below(Node::Num(0), self@.syms.len()));
            return Ok(new_node(BinOp::Sub, new_node_num(0), rhs));
        }
        self.primary()
    }

    fn mul(&mut self) -> (r: Result<Node, ParseError>)
        ensures
            table_grows(old(self)@.syms, final(self)@.syms),
            r matches Ok(n) ==> vars_below(n, final(self)@.syms.len()),
            (res_view(r), final(self)@) == p_mul(old(self)@),
            final(self)@.rest.len() <= old(self)@.rest.len(),
            r is Ok ==> final(self)@.rest.len() < old(self)@.rest.len(),
        decreases old(self)@.rest.len(), 3nat,
    {
        let mut node = match self.unary() {
            Ok(n) => n,
            Err(x) => {
                return Err(x);
            },
        };
        loop
            invariant
                p_mul(old(self)@) == p_mul_tail(node, self@),
                table_grows(old(self)@.syms, self@.syms),
                vars_below(node, self@.syms.len()),
                self@.rest.len() < old(self)@.rest.len(),
            decreases self@.rest.len(),
        {
            proof {
                reveal_strlit("*");
                reveal_strlit("/");
            }
            let op = if self.token_iter.consume("*") {
                BinOp::Mul
            } else if self.token_iter.consume("/") {
                BinOp::Div
            } else {
                return Ok(node);
            };
            let ghost t0 = self@.syms;
            let rhs = match self.unary() {
                Ok(n) => n,
                Err(x) => {
                    return Err(x);
                },
            };
            proof {
                lemma_grows_trans(old(self)@.syms, t0, self@.syms);
                lemma_vars_below_mono(node, t0.len(), self@.syms.len());
            }
            node = new_node(op, node, rhs);
        }
    }

    fn add(&mut self) -> (r: Result<Node, ParseError>)
        ensures
            table_grows(old(self)@.syms, final(self)@.syms),
            r matches Ok(n) ==> vars_below(n, final(self)@.syms.len()),
            (res_view(r), final(self)@) == p_add(old(self)@),
            final(self)@.rest.len() <= old(self)@.rest.len(),
            r is Ok ==> final(self)@.rest.len() < old(self)@.rest.len(),
        decreases old(self)@.rest.len(), 5nat,
    {
        let mut node = match self.mul() {
            Ok(n) => n,
            Err(x) => {
                return Err(x);
            },
        };
        loop
            invariant
                p_add(old(self)@) == p_add_tail(node, self@),
                table_grows(old(self)@.syms, self@.syms),
                vars_below(node, self@.syms.len()),
                self@.rest.len() < old(self)@.rest.len(),
            decreases self@.rest.len(),
        {
            proof {
                reveal_strlit("+");
                reveal_strlit("-");
            }
            let op = if self.token_iter.consume("+") {
                BinOp::Add
            } else if self.token_iter.consume("-") {
                BinOp::Sub
            } else {
                return Ok(node);
            };
            let ghost t0 = self@.syms;
            let rhs = match self.mul() {
                Ok(n) => n,
                Err(x) => {
                    return Err(x);
                },
            };
            proof {
                lemma_grows_trans(old(self)@.syms, t0, self@.syms);
                lemma_vars_below_mono(node, t0.len(), self@.syms.len());
            }
            node = new_node(op, node, rhs);
        }
    }

    fn relational(&mut self) -> (r: Result<Node, ParseError>)
        ensures
            table_grows(old(self)@.syms, final(self)@.syms),
            r matches Ok(n) ==> vars_below(n, final(self)@.syms.len()),
            (res_view(r), final(self)@) == p_relational(old(self)@),
            final(self)@.rest.len() <= old(self)@.rest.len(),
            r is Ok ==> final(self)@.rest.len() < old(self)@.rest.len(),
        decreases old(self)@.rest.len(), 7nat,
    {
        let mut node = match self.add() {
            Ok(n) => n,
            Err(x) => {
                return Err(x);
            },
        };
        loop
            invariant
                p_relational(old(self)@) == p_rel_tail(node, self@),
                table_grows(old(self)@.syms, self@.syms),
                vars_below(node, self@.syms.len()),
                self@.rest.len() < old(self)@.rest.len(),
            decreases self@.rest.len(),
        {
            proof {
                reveal_strlit("<=");
                reveal_strlit("<");
                reveal_strlit("=>");
                reveal_strlit(">");
            }
            let (op, flip) = if self.token_iter.consume("<=") {
                (BinOp::Le, false)
            } else if self.token_iter.consume("<") {
                (BinOp::Lt, false)
            } else if self.token_iter.consume("=>") {
                (BinOp::Le, true)
            } else if self.token_iter.consume(">") {
                (BinOp::Lt, true)
            } else {
                return Ok(node);
            };
            let ghost t0 = self@.syms;
            let rhs = match self.add() {
                Ok(n) => n,
                Err(x) => {
                    return Err(x);
                },
            };
            proof {
                lemma_grows_trans(old(self)@.syms, t0, self@.syms);
                lemma_vars_below_mono(node, t0.len(), self@.syms.len());
            }
            node = if flip {
                new_node(op, rhs, node)
            } else {
                new_node(op, node, rhs)
            };
        }
    }

    fn equality(&mut self) -> (r: Result<Node, ParseError>)
        ensures
            table_grows(old(self)@.syms, final(self)@.syms),
            r matches Ok(n) ==> vars_below(n, final(self)@.syms.len()),
            (res_view(r), final(self)@) == p_equality(old(self)@),
            final(self)@.rest.len() <= old(self)@.rest.len(),
            r is Ok ==> final(self)@.rest.len() < old(self)@.rest.len(),
        decreases old(self)@.rest.len(), 9nat,
    {
        let mut node = match self.relational() {
            Ok(n) => n,
            Err(x) => {
                return Err(x);
            },
        };
        loop
            invariant
                p_equality(old(self)@) == p_eq_tail(node, self@),
                table_grows(old(self)@.syms, self@.syms),
                vars_below(node, self@.syms.len()),
                self@.rest.len() < old(self)@.rest.len(),
            decreases self@.rest.len(),
        {
            proof {
                reveal_strlit("==");
                reveal_strlit("!=");
            }
            let op = if self.token_iter.consume("==") {
                BinOp::Eq
            } else if self.token_iter.consume("!=") {
                BinOp::Ne
            } else {
                return Ok(node);
            };
            let ghost t0 = self@.syms;
            let rhs = match self.relational() {
                Ok(n) => n,
                Err(x) => {
                    return Err(x);
                },
            };
            proof {
                lemma_grows_trans(old(self)@.syms, t0, self@.syms);
                lemma_vars_below_mono(node, t0.len(), self@.syms.len());
            }
            node = new_node(op, node, rhs);
        }
    }

    fn assign(&mut self) -> (r: Result<Node, ParseError>)
        ensures
            table_grows(old(self)@.syms, final(self)@.syms),
            r matches Ok(n) ==> vars_below(n, final(self)@.syms.len()),
            (res_view(r), final(self)@) == p_assign(old(self)@),
            final(self)@.rest.len() <= old(self)@.rest.len(),
            r is Ok ==> final(self)@.rest.len() < old(self)@.rest.len(),
        decreases old(self)@.rest.len(), 10nat,
    {
        proof {
            reveal_strlit("=");
        }
        let node = match self.equality() {
            Ok(n) => n,
            Err(x) => {
                return Err(x);
            },
        };
        let ghost t1 = self@.syms;
        if self.token_iter.consume("=") {
            let rhs = match self.assign() {
                Ok(n) => n,
                Err(x) => {
                    proof {
                        lemma_grows_trans(old(self)@.syms, t1, self@.syms);
                    }
                    return Err(x);
                },
            };
            proof {
                lemma_grows_trans(old(self)@.syms, t1, self@.syms);
                lemma_vars_below_mono(node, t1.len(), self@.syms.len());
            }
            return Ok(new_node(BinOp::Assign, node, rhs));
        }
        Ok(node)
    }

    fn expr(&mut self) -> (r: Result<Node, ParseError>)
        ensures
            table_grows(old(self)@.syms, final(self)@.syms),
            r matches Ok(n) ==> vars_below(n, final(self)@.syms.len()),
            (res_view(r), final(self)@) == p_expr(old(self)@),
            final(self)@.rest.len() <= old(self)@.rest.len(),
            r is Ok ==> final(self)@.rest.len() < old(self)@.rest.len(),
        decreases old(self)@.rest.len(), 11nat,
    {
        self.assign()
    }

    fn opt_expr(&mut self, term: &str) -> (r: Result<Option<Box<Node>>, ParseError>)
        ensures
            table_grows(old(self)@.syms, final(self)@.syms),
            r matches Ok(o) ==> opt_below(o, final(self)@.syms.len()),
            (res_view(r), final(self)@) == p_opt_expr(old(self)@, term@),
            final(self)@.rest.len() <= old(self)@.rest.len(),
        decreases old(self)@.rest.len(), 12nat,
    {
        if self.token_iter.consume(term) {
            return Ok(None);
        }
        let n = match self.expr() {
            Ok(n) => n,
            Err(x) => {
                return Err(x);
            },
        };
        if !self.token_iter.consume(term) {
            return Err(ParseError::Syntax(self.token_iter.rest().to_owned()));
        }
        Ok(Some(Box::new(n)))
    }

    fn return_stmt(&mut self) -> (r: Result<Node, ParseError>)
        requires
            reserved_at(trim(old(self)@.rest), "return"@),
        ensures
            table_grows(old(self)@.syms, final(self)@.syms),
            r matches Ok(n) ==> vars_below(n, final(self)@.syms.len()),
            (res_view(r), final(self)@) == p_return(old(self)@),
            final(self)@.rest.len() <= old(self)@.rest.len(),
            r is Ok ==> final(self)@.rest.len() < old(self)@.rest.len(),
        decreases old(self)@.rest.len(), 13nat,
    {
        proof {
            reveal_strlit("return");
        }
        self.token_iter.consume_reserved("return");
        let e = match self.expr() {
            Ok(n) => n,
            Err(x) => {
                return Err(x);
            },
        };
        Ok(Node::Return(Box::new(e)))
    }

    fn if_stmt(&mut self) -> (r: Result<Node, ParseError>)
        requires
            reserved_at(trim(old(self)@.rest), "if"@),
        ensures
            table_grows(old(self)@.syms, final(self)@.syms),
            r matches Ok(n) ==> vars_below(n, final(self)@.syms.len()),
            (res_view(r), final(self)@) == p_if(old(self)@),
            final(self)@.rest.len() <= old(self)@.rest.len(),
            r is Ok ==> final(self)@.rest.len() < old(self)@.rest.len(),
        decreases old(self)@.rest.len(), 13nat,
    {
        proof {
            reveal_strlit("if");
            reveal_strlit("else");
        }
        self.token_iter.consume_reserved("if");
        let cond = match self.expr() {
            Ok(n) => n,
            Err(x) => {
                return Err(x);
            },
        };
        let ghost t1 = self@.syms;
        let then_branch = match self.stmt() {
            Ok(n) => n,
            Err(x) => {
                    proof {
                        lemma_grows_trans(old(self)@.syms, t1, self@.syms);
                    }
                    return Err(x);
                },
        };
        let ghost t2 = self@.syms;
        proof {
            lemma_grows_trans(old(self)@.syms, t1, t2);
            lemma_vars_below_mono(cond, t1.len(), t2.len());
        }
        if self.token_iter.consume_reserved("else") {
            let else_branch = match self.stmt() {
                Ok(n) => n,
                Err(x) => {
                    proof {
                        lemma_grows_trans(old(self)@.syms, t2, self@.syms);
                    }
                    return Err(x);
                },
            };
            proof {
                lemma_grows_trans(old(self)@.syms, t2, self@.syms);
                lemma_vars_below_mono(cond, t2.len(), self@.syms.len());
                lemma_vars_below_mono(then_branch, t2.len(), self@.syms.len());
            }
            return Ok(new_node_if(cond, then_branch, Some(else_branch)));
        }
        Ok(new_node_if(cond, then_branch, None))
    }

    #[verifier::rlimit(80)]
    fn for_stmt(&mut self) -> (r: Result<Node, ParseError>)
        requires
            reserved_at(trim(old(self)@.rest), "for"@),
        ensures
            table_grows(old(self)@.syms, final(self)@.syms),
            r matches Ok(n) ==> vars_below(n, final(self)@.syms.len()),
            (res_view(r), final(self)@) == p_for(old(self)@),
            final(self)@.rest.len() <= old(self)@.rest.len(),
            r is Ok ==> final(self)@.rest.len() < old(self)@.rest.len(),
        decreases old(self)@.rest.len(), 13nat,
    {
        proof {
            reveal_strlit("for");
            reveal_strlit("(");
        }
        self.token_iter.consume_reserved("for");
        if !self.token_iter.consume("(") {
            return Err(ParseError::Syntax(self.token_iter.rest().to_owned()));
        }
        let init = match self.opt_expr(";") {
            Ok(n) => n,
            Err(x) => {
                return Err(x);
            },
        };
        let ghost t1 = self@.syms;
        let cond = match self.opt_expr(";") {
            Ok(n) => n,
            Err(x) => {
                    proof {
                        lemma_grows_trans(old(self)@.syms, t1, self@.syms);
                    }
                    return Err(x);
                },
        };
        let ghost t2 = self@.syms;
        proof {
            lemma_grows_trans(old(self)@.syms, t1, t2);
            lemma_opt_below_mono(init, t1.len(), t2.len());
        }
        let inc = match self.opt_expr(")") {
            Ok(n) => n,
            Err(x) => {
                    proof {
                        lemma_grows_trans(old(self)@.syms, t2, self@.syms);
                    }
                    return Err(x);
                },
        };
        let ghost t3 = self@.syms;
        proof {
            lemma_grows_trans(old(self)@.syms, t2, t3);
            lemma_opt_below_mono(init, t2.len(), t3.len());
            lemma_opt_below_mono(cond, t2.len(), t3.len());
        }
        let body = match self.stmt() {
            Ok(n) => n,
            Err(x) => {
                    proof {
                        lemma_grows_trans(old(self)@.syms, t3, self@.syms);
                    }
                    return Err(x);
                },
        };
        proof {
            lemma_grows_trans(old(self)@.syms, t3, self@.syms);
            lemma_opt_below_mono(init, t3.len(), self@.syms.len());
            lemma_opt_below_mono(cond, t3.len(), self@.syms.len());
            lemma_opt_below_mono(inc, t3.len(), self@.syms.len());
        }
        Ok(new_node_for(init, cond, inc, body))
    }

    fn while_stmt(&mut self) -> (r: Result<Node, ParseError>)
        requires
            reserved_at(trim(old(self)@.rest), "while"@),
        ensures
            table_grows(old(self)@.syms, final(self)@.syms),
            r matches Ok(n) ==> vars_below(n, final(self)@.syms.len()),
            (res_view(r), final(self)@) == p_while(old(self)@),
            final(self)@.rest.len() <= old(self)@.rest.len(),
            r is Ok ==> final(self)@.rest.len() < old(self)@.rest.len(),
        decreases old(self)@.rest.len(), 13nat,
    {
        proof {
            reveal_strlit("while");
        }
        self.token_iter.consume_reserved("while");
        let cond = match self.expr() {
            Ok(n) => n,
            Err(x) => {
                return Err(x);
            },
        };
        let ghost t1 = self@.syms;
        let body = match self.stmt() {
            Ok(n) => n,
            Err(x) => {
                    proof {
                        lemma_grows_trans(old(self)@.syms, t1, self@.syms);
                    }
                    return Err(x);
                },
        };
        proof {
            lemma_grows_trans(old(self)@.syms, t1, self@.syms);
            lemma_vars_below_mono(cond, t1.len(), self@.syms.len());
        }
        Ok(new_node_while(cond, body))
    }

    fn stmt_body(&mut self) -> (r: Result<Node, ParseError>)
        ensures
            table_grows(old(self)@.syms, final(self)@.syms),
            r matches Ok(n) ==> vars_below(n, final(self)@.syms.len()),
            (res_view(r), final(self)@) == p_stmt_body(old(self)@),
            final(self)@.rest.len() <= old(self)@.rest.len(),
            r is Ok ==> final(self)@.rest.len() < old(self)@.rest.len(),
        decreases old(self)@.rest.len(), 14nat,
    {
        if self.token_iter.peek_reserved("return") {
            return self.return_stmt();
        }
        if self.token_iter.peek_reserved("if") {
            return self.if_stmt();
        }
        if self.token_iter.peek_reserved("for") {
            return self.for_stmt();
        }
        if self.token_iter.peek_reserved("while") {
            return self.while_stmt();
        }
        self.expr()
    }

    fn stmt(&mut self) -> (r: Result<Node, ParseError>)
        ensures
            table_grows(old(self)@.syms, final(self)@.syms),
            r matches Ok(n) ==> vars_below(n, final(self)@.syms.len()),
            (res_view(r), final(self)@) == p_stmt(old(self)@),
            final(self)@.rest.len() <= old(self)@.rest.len(),
            r is Ok ==> final(self)@.rest.len() < old(self)@.rest.len(),
        decreases old(self)@.rest.len(), 15nat,
    {
        let node = match self.stmt_body() {
            Ok(n) => n,
            Err(x) => {
                return Err(x);
            },
        };
        self.token_iter.consume(";");
        Ok(node)
    }

    #[verifier::rlimit(100)]
    fn program(&mut self) -> (r: Result<Vec<Node>, ParseError>)
        ensures
            table_grows(old(self)@.syms, final(self)@.syms),
            r matches Ok(v) ==> forall|i: int| 0 <= i < v@.len() ==> vars_below(#[trigger] v@[i], final(self)@.syms.len()),
            (prog_view(r), final(self)@) == p_program(old(self)@),
    {
        let mut stmts: Vec<Node> = Vec::new();
        proof {
            match p_program(self@).0 {
                Ok(v) => {
                    assert(stmts@ + v =~= v);
                },
                Err(_) => {},
            }
        }
        loop
            invariant
                p_program(old(self)@) == prepend(stmts@, p_program(self@)),
                table_grows(old(self)@.syms, self@.syms),
                forall|i: int| 0 <= i < stmts@.len() ==> vars_below(#[trigger] stmts@[i], self@.syms.len()),
            decreases self@.rest.len(),
        {
            if self.token_iter.rest().unicode_len() == 0 {
                proof {
                    lemma_program_end(self@);
                    assert(stmts@ + Seq::<Node>::empty() =~= stmts@);
                }
                return Ok(stmts);
            }
            let ghost s0 = self@;
            let node = match self.stmt() {
                Ok(n) => n,
                Err(x) => {
                    proof {
                        lemma_program_step(s0);
                        lemma_grows_trans(old(self)@.syms, s0.syms, self@.syms);
                    }
                    return Err(x);
                },
            };
            proof {
                lemma_program_step(s0);
                lemma_prepend_push(stmts@, node, p_program(self@));
                lemma_grows_trans(old(self)@.syms, s0.syms, self@.syms);
                assert forall|i: int| 0 <= i < stmts@.len() implies vars_below(
                    #[trigger] stmts@[i],
                    self@.syms.len(),
                ) by {
                    lemma_vars_below_mono(stmts@[i], s0.syms.len(), self@.syms.len());
                }
            }
            stmts.push(node);
        }
    }

    /// Parses the whole source into its statements, in source order.
    pub fn parse(&mut self) -> (r: Result<Vec<Node>, ParseError>)
        ensures
            table_grows(old(self)@.syms, final(self)@.syms),
            r matches Ok(v) ==> forall|i: int| 0 <= i < v@.len() ==> vars_below(#[trigger] v@[i], final(self)@.syms.len()),
            (prog_view(r), final(self)@) == p_program(old(self)@),
    {
        self.program()
    }
}

} // verus!
