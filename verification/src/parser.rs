//! Parses a program (a module of assignments, type and data declarations) or a single
//! expression into a syntax tree, with the labels and types it declares.
use vstd::prelude::*;

use crate::ast::{is_expr_kind, ASTNodeType, AST};
use crate::bound::BoundChecker;
use crate::term::{lemma_shape_kept_trans, lemma_term_module, lemma_term_shape, lemma_terms_of, terms_of, lemma_terms_shape, node_terms, same_shape, shape_kept, term, Term};
use crate::grammar::{
    a_loop, a_var, a_var_primary, adv, at_token, bind_all, bind_term, annotated, e_abstraction, e_assign, e_expr, e_ite, e_loop, e_match, e_primary,
    added_at, annot_of, arrows, bind_names, countable, lemma_annotated_unique, lemma_tam_lookup, m_body, tam_lookup, ModuleState, c_ctor, c_fields, d_data, d_params, data_type, lemma_annotated, mc_loop, named_types, upsert, lemma_bind_all_none, lemma_bind_all_some, lemma_bind_term, lemma_unbind_term, m_loop, p_loop, p_pattern, p_primary, tm_get, tnames,
    tokens_ok, tt_at, ty_expr, ty_loop, ty_primary, val_at, wrap, e_expr_err, e_loop_err, e_primary_err, e_ite_err, PErrV, lit_tt,
};
use crate::labels::{Label, LabelTable};
use crate::lexer::{lex_fails, lex_spec, lexed, lexed_at, lexes, padded, Lexed, Lexer, LexerError};
use crate::labels::{holds_inbuilt, inbuilt_at, is_inbuilt_name};
use crate::context::opt_type_view;
use crate::text::{lit, push_str, sort_strings, str_eq};
use crate::token::{Token, TokenType};
use crate::transform::kinds_kept;
use crate::types::{lemma_union_view, names, names_contain, tv_arity, tv_fa, views, Primitive, Type, TypeV};

verus! {

/// The definitions every program may use.
pub const PRELUDE: &'static str = "
data Maybe a = Just a | Nothing
data List a = Cons a (List a) | Nil

foldr :: (a -> b -> b) -> b -> List a -> b
foldr f acc list = match list :: List a {
  | Nil -> acc
  | Cons x xs -> f x (foldr f acc xs)
}

length :: List a -> Int
length xs = foldr (\\_ i. i + 1) 0 xs

take :: Int -> List a -> List a
take n xs = if n <= 0 then Nil else match xs {
  | Nil -> Nil
  | Cons y ys -> Cons y (take (n - 1) ys)
}

infiniteFrom :: Int -> List Int
infiniteFrom n = Cons n (infiniteFrom (n + 1))
";

/// An error found while parsing, with the position it refers to.
#[derive(Debug)]
pub struct ParserError {
    pub e: String,
    pub line: usize,
    pub col: usize,
}

/// The named types: `Int`, `Float`, `Bool` and those a program declares.
pub struct TypeMap {
    pub types: Vec<(String, Type)>,
}

pub struct ParseResult {
    pub ast: AST,
    pub lt: LabelTable,
    pub tm: TypeMap,
}

pub struct Parser {
    /// The tokens of the text, ending with the only `EOF`; each with the position after it.
    pub tokens: Vec<(Token, usize, usize)>,
    /// Where the next token is (it stays on the final `EOF`).
    pub pos: usize,
    /// The text, until it is split into tokens.
    pub lexer: Lexer,
    pub lexed: bool,
    pub type_assignment_map: Vec<(String, Type)>,
    pub bound: BoundChecker,
}

impl View for TypeMap {
    type V = Seq<(Seq<char>, TypeV)>;

    /// Each declared name with its type.
    open spec fn view(&self) -> Seq<(Seq<char>, TypeV)> {
        Seq::new(self.types@.len(), |i: int| (self.types@[i].0@, self.types@[i].1@))
    }
}

/// The types every program can name.
pub open spec fn base_types() -> Seq<(Seq<char>, TypeV)> {
    seq![
        ("Int"@, TypeV::Primitive(Primitive::Int64)),
        ("Float"@, TypeV::Primitive(Primitive::Float64)),
        ("Bool"@, TypeV::Primitive(Primitive::Bool)),
    ]
}

impl TypeMap {
    #[verifier::loop_isolation(false)]
    pub fn new() -> (r: Self)
        ensures
            r@ == base_types(),
    {
        let mut types: Vec<(String, Type)> = Vec::new();
        types.push((lit("Int"), Type::int64()));
        types.push((lit("Float"), Type::float64()));
        types.push((lit("Bool"), Type::bool()));
        let r = TypeMap { types };
        proof { assert(r@ =~= base_types()); }
        r
    }

    /// The type named `name`, the one declared last if there are several.
    #[verifier::loop_isolation(false)]
    pub fn get(&self, name: &String) -> (r: Option<&Type>)
        ensures
            r matches Some(t) ==> exists|i: int| 0 <= i < self.types@.len() && self.types@[i].0@ == name@ && self.types@[i].1 == *t,
            r is None ==> forall|i: int| 0 <= i < self.types@.len() ==> self.types@[i].0@ != name@,
            r is None <==> tm_get(self@, name@) is None,
            r matches Some(t) ==> tm_get(self@, name@) == Some(t@),
    {
        let mut i = self.types.len();
        proof {
            assert(self@.take(self@.len() as int) =~= self@);
        }
        while i > 0
            invariant
                i <= self.types@.len(),
                forall|j: int| i <= j < self.types@.len() ==> self.types@[j].0@ != name@,
                tm_get(self@, name@) == tm_get(self@.take(i as int), name@),
            decreases i,
        {
            proof {
                assert(self@.take(i as int).drop_last() =~= self@.take(i - 1));
            }
            if str_eq(&self.types[i - 1].0, name) {
                return Some(&self.types[i - 1].1);
            }
            i = i - 1;
        }
        proof {
            assert(self@.take(0) =~= Seq::<(Seq<char>, TypeV)>::empty());
        }
        None
    }

    /// Declares the type `name`.
    #[verifier::loop_isolation(false)]
    pub fn insert(&mut self, name: String, t: Type)
        ensures
            final(self).types@ == old(self).types@.push((name, t)),
            final(self)@ == old(self)@.push((name@, t@)),
    {
        let ghost v0 = self@;
        let ghost nv = (name@, t@);
        self.types.push((name, t));
        proof { assert(self@ =~= v0.push(nv)); }
    }
}

impl Parser {
    pub open spec fn wf(&self) -> bool {
        &&& self.lexer.wf()
        &&& self.lexed ==> tokens_ok(self.tokens@)
        &&& self.lexed ==> self.pos < self.tokens@.len()
    }

    pub open spec fn ready(&self) -> bool {
        self.wf() && self.lexed
    }

    /// How many tokens are left before the final `EOF`.
    pub open spec fn remaining(&self) -> nat {
        if self.lexed && self.pos < self.tokens@.len() {
            (self.tokens@.len() - self.pos) as nat
        } else {
            0
        }
    }

    /// A parser of `str`, where the inbuilt functions are bound.
    #[verifier::loop_isolation(false)]
    pub fn from_string(str: String) -> (r: Self)
        ensures
            r.wf(),
            !r.lexed,
            r.lexer.file@ == padded(str@),
            r.lexer.i == 0,
            r.bound@ == Set::new(|s: Seq<char>| is_inbuilt_name(s)),
            r.type_assignment_map@.len() == 0,
    {
        Parser {
            tokens: Vec::new(),
            pos: 0,
            lexer: Lexer::new(str, None),
            lexed: false,
            type_assignment_map: Vec::new(),
            bound: BoundChecker::new(),
        }
    }

    /// A parser of the text of a file named `filename`; nothing is bound.
    #[verifier::loop_isolation(false)]
    pub fn from_text_of_file(contents: String, filename: String) -> (r: Self)
        ensures
            r.wf(),
            !r.lexed,
            r.lexer.file@ == padded(contents@),
            r.lexer.i == 0,
            r.bound@ == Set::<Seq<char>>::empty(),
            r.type_assignment_map@.len() == 0,
    {
        Parser {
            tokens: Vec::new(),
            pos: 0,
            lexer: Lexer::new(contents, Some(filename)),
            lexed: false,
            type_assignment_map: Vec::new(),
            bound: BoundChecker::empty(),
        }
    }

    /// Whether `name` is bound.
    pub fn is_bound(&self, name: &String) -> (r: bool)
        ensures
            r == self.bound@.contains(name@),
    {
        self.bound.is_bound(name.as_str())
    }

    /// Binds every name `other` binds.
    pub fn add_bindings_from(&mut self, other: &Parser)
        requires
            old(self).wf(),
        ensures
            final(self).wf(),
            final(self).bound@ == old(self).bound@.union(other.bound@),
            final(self).pos == old(self).pos,
            final(self).tokens == old(self).tokens,
            final(self).lexed == old(self).lexed,
            final(self).type_assignment_map == old(self).type_assignment_map,
            final(self).lexer == old(self).lexer,
    {
        self.bound.append(&other.bound);
    }

    /// Binds `name`.
    pub fn bind(&mut self, name: String)
        requires
            old(self).wf(),
        ensures
            final(self).wf(),
            final(self).bound@ == old(self).bound@.insert(name@),
            final(self).pos == old(self).pos,
            final(self).tokens == old(self).tokens,
            final(self).lexed == old(self).lexed,
            final(self).type_assignment_map == old(self).type_assignment_map,
    {
        self.bound.add_binding(name);
    }

    /// Unbinds `name`.
    pub fn unbind(&mut self, name: &String)
        requires
            old(self).wf(),
        ensures
            final(self).wf(),
            final(self).bound@ == old(self).bound@.remove(name@),
            final(self).pos == old(self).pos,
            final(self).tokens == old(self).tokens,
            final(self).lexed == old(self).lexed,
            final(self).type_assignment_map == old(self).type_assignment_map,
    {
        self.bound.remove_binding(name.clone());
    }

    /// Where the parser stands: the line and column recorded after the current token once
    /// the text is split into tokens, those the lexer reached before.
    pub open spec fn position_spec(&self) -> (usize, usize) {
        if self.lexed && self.pos < self.tokens@.len() {
            (self.tokens@[self.pos as int].1, self.tokens@[self.pos as int].2)
        } else {
            (self.lexer.line, self.lexer.col)
        }
    }

    /// The position for an error: after the token last looked at.
    #[verifier::loop_isolation(false)]
    fn position(&self) -> (r: (usize, usize))
        ensures
            r == self.position_spec(),
    {
        if self.lexed && self.pos < self.tokens.len() {
            (self.tokens[self.pos].1, self.tokens[self.pos].2)
        } else {
            (self.lexer.line, self.lexer.col)
        }
    }

    #[verifier::loop_isolation(false)]
    fn parse_error(&self, msg: String) -> (r: ParserError)
        ensures
            r.e@ == msg@,
            (r.line, r.col) == self.position_spec(),
    {
        let (line, col) = self.position();
        ParserError { e: msg, line, col }
    }

    #[verifier::loop_isolation(false)]
    fn error_with(&self, msg: &str, detail: &String) -> (r: ParserError)
        ensures
            r.e@ == msg@ + detail@,
            (r.line, r.col) == self.position_spec(),
    {
        let mut e = lit(msg);
        push_str(&mut e, detail.as_str());
        self.parse_error(e)
    }

    /// Splits the whole text into tokens, once.
    #[verifier::loop_isolation(false)]
    fn lex_all(&mut self) -> (r: Result<(), ParserError>)
        requires
            old(self).wf(),
        ensures
            final(self).wf(),
            r is Ok ==> final(self).ready(),
            final(self).bound == old(self).bound,
            final(self).type_assignment_map == old(self).type_assignment_map,
            old(self).lexed ==> (final(self).pos == old(self).pos && final(self).tokens == old(self).tokens),
            old(self).lexed ==> r is Ok,
            !old(self).lexed && r is Ok ==> final(self).pos == 0 && lexes(old(self).lexer.file@, old(self).lexer.i as int, final(self).tokens@),
            r matches Err(e) ==> !final(self).lexed && lex_fails(old(self).lexer.file@, old(self).lexer.i as int, e.e@),
    {
        if self.lexed {
            return Ok(());
        }
        let ghost f = self.lexer.file@;
        let ghost i0 = self.lexer.i as int;
        let mut tokens: Vec<(Token, usize, usize)> = Vec::new();
        let ghost mut ps: Seq<int> = seq![i0];
        loop
            invariant
                self.wf(),
                !self.lexed,
                !old(self).lexed,
                forall|i: int| 0 <= i < tokens@.len() ==> #[trigger] tokens@[i].0.tt != TokenType::EOF,
                forall|i: int| 0 <= i < tokens@.len() ==> lexed(#[trigger] tokens@[i].0),
                self.bound == old(self).bound,
                self.type_assignment_map == old(self).type_assignment_map,
                self.lexer.file@ == f,
                lexed_at(f, ps, tokens@),
                ps[0] == i0,
                ps.last() == self.lexer.i as int,
            decreases self.lexer.rest(),
        {
            let ghost i1 = self.lexer.i as int;
            match self.lexer.get_token() {
                Ok(t) => {
                    let line = self.lexer.line;
                    let col = self.lexer.col;
                    let ghost ot = tokens@;
                    let is_eof = t.tt == TokenType::EOF;
                    tokens.push((t, line, col));
                    proof {
                        let ps2 = ps.push(self.lexer.i as int);
                        assert forall|k: int| 0 <= k < tokens@.len() implies (#[trigger] lex_spec(f, ps2[k])) == Lexed::Token(
                            tokens@[k].0.tt,
                            tokens@[k].0.value@,
                            ps2[k + 1],
                        ) by {
                            if k < ot.len() {
                                assert(tokens@[k] == ot[k]);
                                assert(ps2[k] == ps[k] && ps2[k + 1] == ps[k + 1]);
                            }
                        }
                        ps = ps2;
                    }
                    if is_eof {
                        self.tokens = tokens;
                        self.pos = 0;
                        self.lexed = true;
                        proof { assert(lexed_at(f, ps, self.tokens@) && ps[0] == i0); }
                        return Ok(());
                    }
                },
                Err(e) => {
                    proof {
                        assert(lex_fails(f, i0, e.e@)) by {
                            assert(lexed_at(f, ps, tokens@) && ps[0] == i0 && lex_spec(f, ps.last()) == Lexed::Error(e.e@));
                        }
                    }
                    return Err(ParserError { e: e.e, line: e.line, col: e.col });
                },
            }
        }
    }

    /// The token `n` places ahead (the final `EOF` past the end).
    #[verifier::loop_isolation(false)]
    fn peek(&self, n: usize) -> (r: Token)
        requires
            self.ready(),
        ensures
            lexed(r),
            (self.pos + n < self.tokens@.len() ==> (r.tt == self.tokens@[self.pos + n].0.tt && r.value@ == self.tokens@[self.pos + n].0.value@)),
            (self.pos + n >= self.tokens@.len() ==> r.tt == TokenType::EOF),
            n == 0 ==> (r.tt == TokenType::EOF <==> self.remaining() == 1),
    {
        let last = self.tokens.len() - 1;
        let i = if n > last - self.pos { last } else { self.pos + n };
        self.tokens[i].0.copy()
    }

    /// The type of the next token.
    #[verifier::loop_isolation(false)]
    fn peek_tt(&self, n: usize) -> (r: TokenType)
        requires
            self.ready(),
        ensures
            r == self.peek_spec(n as nat),
            n == 0 ==> (r == TokenType::EOF <==> self.remaining() == 1),
    {
        let last = self.tokens.len() - 1;
        let i = if n > last - self.pos { last } else { self.pos + n };
        self.tokens[i].0.tt
    }

    pub open spec fn peek_spec(&self, n: nat) -> TokenType {
        if self.pos + n < self.tokens@.len() {
            self.tokens@[self.pos + n].0.tt
        } else {
            TokenType::EOF
        }
    }

    /// Moves past the next token (not past the final `EOF`).
    #[verifier::loop_isolation(false)]
    fn advance(&mut self)
        requires
            old(self).ready(),
        ensures
            final(self).ready(),
            final(self).tokens == old(self).tokens,
            final(self).bound == old(self).bound,
            final(self).type_assignment_map == old(self).type_assignment_map,
            final(self).lexer == old(self).lexer,
            old(self).remaining() > 1 ==> final(self).remaining() == old(self).remaining() - 1,
            old(self).remaining() <= 1 ==> final(self).remaining() == old(self).remaining(),
            final(self).pos >= old(self).pos,
            final(self).pos == adv(old(self).tokens@, old(self).pos as int),
    {
        if self.pos < self.tokens.len() - 1 {
            self.pos = self.pos + 1;
        }
    }

    /// The next token, moving past it.
    #[verifier::loop_isolation(false)]
    fn consume(&mut self) -> (r: Token)
        requires
            old(self).ready(),
        ensures
            final(self).ready(),
            lexed(r),
            final(self).tokens == old(self).tokens,
            final(self).bound == old(self).bound,
            final(self).type_assignment_map == old(self).type_assignment_map,
            r.tt != TokenType::EOF ==> final(self).remaining() == old(self).remaining() - 1 && old(self).remaining() > 1,
            r.tt == TokenType::EOF ==> final(self).remaining() == old(self).remaining() && old(self).remaining() == 1,
            r.tt == old(self).peek_spec(0),
            r.tt == tt_at(old(self).tokens@, old(self).pos as int),
            r.value@ == val_at(old(self).tokens@, old(self).pos as int),
            final(self).pos == adv(old(self).tokens@, old(self).pos as int),
    {
        let t = self.peek(0);
        self.advance();
        t
    }
}

/// A parsing step: the parser and the tree stay well-formed, the tree only grows, and no
/// token is given back.
/// A parse error agrees with a stated one (`None`: not stated).
pub open spec fn perr_agrees(x: ParserError, o: Option<PErrV>) -> bool {
    o matches Some((m, l, c)) ==> x.e@ == m && x.line == l && x.col == c
}

pub open spec fn step(p0: &Parser, p1: &Parser, a0: &AST, a1: &AST) -> bool {
    &&& p1.ready()
    &&& a1.wf()
    &&& kinds_kept(a0, a1)
    &&& shape_kept(a0, a1)
    &&& a1.root == a0.root
    &&& p1.tokens == p0.tokens
    &&& p1.type_assignment_map == p0.type_assignment_map
    &&& p1.remaining() <= p0.remaining()
}

/// The texts of the strings `v`.
pub open spec fn strs(v: Seq<String>) -> Seq<Seq<char>> {
    Seq::new(v.len(), |k: int| v[k]@)
}

/// `e` is an expression node of `a`.
pub open spec fn expr_node(a: &AST, e: usize) -> bool {
    &&& (e as int) < a.vec@.len()
    &&& is_expr_kind(a.vec@[e as int].t)
}

/// Whether tokens of kind `tt` are literals.
#[verifier::loop_isolation(false)]
pub fn is_lit_tt(tt: TokenType) -> (r: bool)
    ensures
        r == (tt == TokenType::IntLit || tt == TokenType::FloatLit || tt == TokenType::BoolLit || tt == TokenType::CharLit),
{
    tt == TokenType::IntLit || tt == TokenType::FloatLit || tt == TokenType::BoolLit || tt == TokenType::CharLit
}

impl Parser {
    /// An expression: applications (written by juxtaposition, or with `$`), infix operators
    /// (grouping to the right, without precedence), pairs, abstractions, matches and
    /// `if .. then .. else ..`; see `e_expr`.
    #[verifier::loop_isolation(false)]
    #[verifier::spinoff_prover]
    #[verifier::rlimit(100)]
    pub fn parse_expression(&mut self, ast: &mut AST, tm: &TypeMap) -> (r: Result<usize, ParserError>)
        requires
            old(self).ready(),
            old(ast).wf(),
        ensures
            step(old(self), final(self), old(ast), final(ast)),
            r matches Ok(e) ==> expr_node(final(ast), e) && final(self).remaining() < old(self).remaining(),
            r is Ok ==> final(self).bound@ == old(self).bound@,
            r is Ok <==> e_expr(old(self).tokens@, old(self).pos as int, old(self).bound@, tm@) is Some,
            r matches Ok(e) ==> e_expr(old(self).tokens@, old(self).pos as int, old(self).bound@, tm@)
                == Some((term(final(ast), e as int), final(self).pos as int)),
            r matches Err(x) ==> perr_agrees(x, e_expr_err(old(self).tokens@, old(self).pos as int, old(self).bound@, tm@)),
        decreases old(self).remaining(), 3nat,
    {
        let ghost p0 = *self;
        let ghost a0 = *ast;
        let ghost ts = self.tokens@;
        let ghost b = self.bound@;
        let ghost tmv = tm@;
        let mut left = self.parse_expr_primary(ast, tm)?;
        let ghost mut lt: Term = term(ast, left as int);
        loop
            invariant
                step(&p0, self, &a0, ast),
                self.remaining() < p0.remaining(),
                expr_node(ast, left),
                self.bound@ == b,
                lt == term(ast, left as int),
                e_expr(ts, p0.pos as int, b, tmv) == e_loop(ts, self.pos as int, lt, b, tmv),
                e_expr_err(ts, p0.pos as int, b, tmv) == e_loop_err(ts, self.pos as int, lt, b, tmv),
            decreases self.remaining(),
        {
            let ghost a1 = *ast;
            match self.expr_continue(ast, tm, left) {
                Ok(None) => {
                    return Ok(left);
                },
                Ok(Some(l2)) => {
                    left = l2;
                },
                Err(e) => {
                    return Err(e);
                },
            }
            proof {
                lemma_kinds_kept_trans(&a0, &a1, ast);
                lemma_shape_kept_trans(&a0, &a1, ast);
                lt = term(ast, left as int);
            }
        }
    }

    /// One step of an expression after `left`, from the current token (see `e_loop`):
    /// `None` where the expression ends here, else the larger expression read.
    #[verifier::loop_isolation(false)]
    #[verifier::spinoff_prover]
    #[verifier::rlimit(100)]
    fn expr_continue(&mut self, ast: &mut AST, tm: &TypeMap, left: usize) -> (r: Result<Option<usize>, ParserError>)
        requires
            old(self).ready(),
            old(ast).wf(),
            expr_node(old(ast), left),
        ensures
            step(old(self), final(self), old(ast), final(ast)),
            r is Ok ==> final(self).bound@ == old(self).bound@,
            r matches Ok(None) ==> final(self).pos == old(self).pos && *final(ast) == *old(ast)
                && e_loop(old(self).tokens@, old(self).pos as int, term(old(ast), left as int), old(self).bound@, tm@)
                == Some((term(old(ast), left as int), old(self).pos as int)),
            r matches Ok(Some(l2)) ==> expr_node(final(ast), l2) && final(self).remaining() < old(self).remaining()
                && e_loop(old(self).tokens@, old(self).pos as int, term(old(ast), left as int), old(self).bound@, tm@)
                == e_loop(old(self).tokens@, final(self).pos as int, term(final(ast), l2 as int), old(self).bound@, tm@)
                && e_loop_err(old(self).tokens@, old(self).pos as int, term(old(ast), left as int), old(self).bound@, tm@)
                == e_loop_err(old(self).tokens@, final(self).pos as int, term(final(ast), l2 as int), old(self).bound@, tm@),
            r matches Err(x) ==> e_loop(old(self).tokens@, old(self).pos as int, term(old(ast), left as int), old(self).bound@, tm@) is None
                && perr_agrees(x, e_loop_err(old(self).tokens@, old(self).pos as int, term(old(ast), left as int), old(self).bound@, tm@)),
        decreases old(self).remaining(), 4nat,
    {
        let ghost ts = self.tokens@;
        let ghost b = self.bound@;
        let ghost tmv = tm@;
        let ghost lt = term(ast, left as int);
        let ghost j = self.pos as int;
        let tt = self.peek_tt(0);
        if tt == TokenType::LParen || tt == TokenType::Dollar || tt == TokenType::Comma {
            self.expr_continue_pair(ast, tm, left)
        } else if tt == TokenType::RParen || tt == TokenType::EOF || tt == TokenType::Newline
            || tt == TokenType::DoubleColon || tt == TokenType::LBrace || tt == TokenType::RBrace
            || tt == TokenType::Bar || tt == TokenType::Then || tt == TokenType::Else {
            proof { assert(e_loop(ts, j, lt, b, tmv) == Some((lt, j))); }
            Ok(None)
        } else if tt == TokenType::Lambda || tt == TokenType::Match || is_lit_tt(tt) || tt == TokenType::Id
            || tt == TokenType::UppercaseId {
            self.expr_continue_app(ast, tm, left)
        } else {
            let tk = self.peek(0);
            proof { assert(e_loop(ts, j, lt, b, tmv) is None); }
            Err(self.error_with("Unexpected token in expression: ", &tk.value))
        }
    }

    /// One step of an expression after `left` that starts with `(`, `$` or `,` (see
    /// `expr_continue`).
    #[verifier::loop_isolation(false)]
    #[verifier::spinoff_prover]
    #[verifier::rlimit(100)]
    fn expr_continue_pair(&mut self, ast: &mut AST, tm: &TypeMap, left: usize) -> (r: Result<Option<usize>, ParserError>)
        requires
            old(self).ready(),
            old(ast).wf(),
            expr_node(old(ast), left),
            tt_at(old(self).tokens@, old(self).pos as int) == TokenType::LParen || tt_at(old(self).tokens@, old(self).pos as int)
                == TokenType::Dollar || tt_at(old(self).tokens@, old(self).pos as int) == TokenType::Comma,
        ensures
            step(old(self), final(self), old(ast), final(ast)),
            r is Ok ==> final(self).bound@ == old(self).bound@,
            r matches Ok(None) ==> final(self).pos == old(self).pos && *final(ast) == *old(ast)
                && e_loop(old(self).tokens@, old(self).pos as int, term(old(ast), left as int), old(self).bound@, tm@)
                == Some((term(old(ast), left as int), old(self).pos as int)),
            r matches Ok(Some(l2)) ==> expr_node(final(ast), l2) && final(self).remaining() < old(self).remaining()
                && e_loop(old(self).tokens@, old(self).pos as int, term(old(ast), left as int), old(self).bound@, tm@)
                == e_loop(old(self).tokens@, final(self).pos as int, term(final(ast), l2 as int), old(self).bound@, tm@)
                && e_loop_err(old(self).tokens@, old(self).pos as int, term(old(ast), left as int), old(self).bound@, tm@)
                == e_loop_err(old(self).tokens@, final(self).pos as int, term(final(ast), l2 as int), old(self).bound@, tm@),
            r matches Err(x) ==> e_loop(old(self).tokens@, old(self).pos as int, term(old(ast), left as int), old(self).bound@, tm@) is None
                && perr_agrees(x, e_loop_err(old(self).tokens@, old(self).pos as int, term(old(ast), left as int), old(self).bound@, tm@)),
        decreases old(self).remaining(), 3nat,
    {
        let ghost ts = self.tokens@;
        let ghost b = self.bound@;
        let ghost tmv = tm@;
        let ghost lt = term(ast, left as int);
        let mut left = left;
        let ghost a1 = *ast;
        let ghost j = self.pos as int;
        let ghost l0 = left;
        let (line, col) = self.position();
        let tt = self.peek_tt(0);
        if tt == TokenType::LParen {
            self.advance();
            let right = self.parse_expression(ast, tm)?;
            let ghost a2 = *ast;
            if self.peek_tt(0) == TokenType::RParen {
                self.advance();
            } else {
                let mut e = lit("Expected closing parenthesis");
                return Err(self.parse_error(e));
            }
            left = ast.add_app(left, right, line, col, false);
            proof {
                assert(e_loop(ts, j, lt, b, tmv) == e_loop(ts, self.pos as int, term(ast, left as int), b, tmv)
                    && e_loop_err(ts, j, lt, b, tmv) == e_loop_err(ts, self.pos as int, term(ast, left as int), b, tmv)) by {
                    lemma_two_kept(&a1, &a2, ast, l0 as int, right as int);
                }
            }
        } else if tt == TokenType::Dollar {
            self.advance();
            let right = self.parse_expression(ast, tm)?;
            let ghost a2 = *ast;
            if self.peek_tt(0) == TokenType::RParen {
                return Err(self.parse_error(lit("Unexpected closing parenthesis")));
            }
            left = ast.add_app(left, right, line, col, true);
            proof {
                assert(e_loop(ts, j, lt, b, tmv) == e_loop(ts, self.pos as int, term(ast, left as int), b, tmv)
                    && e_loop_err(ts, j, lt, b, tmv) == e_loop_err(ts, self.pos as int, term(ast, left as int), b, tmv)) by {
                    lemma_two_kept(&a1, &a2, ast, l0 as int, right as int);
                }
            }
        } else if tt == TokenType::Comma {
            self.advance();
            let right = self.parse_expression(ast, tm)?;
            let ghost a2 = *ast;
            left = ast.add_pair(left, right, line, col);
            proof {
                assert(e_loop(ts, j, lt, b, tmv) == e_loop(ts, self.pos as int, term(ast, left as int), b, tmv)
                    && e_loop_err(ts, j, lt, b, tmv) == e_loop_err(ts, self.pos as int, term(ast, left as int), b, tmv)) by {
                    lemma_two_kept(&a1, &a2, ast, l0 as int, right as int);
                }
            }
        }
        Ok(Some(left))
    }

    /// One step of an expression after `left` that starts with an abstraction, a match, a
    /// literal or an identifier (see `expr_continue`).
    #[verifier::loop_isolation(false)]
    #[verifier::spinoff_prover]
    #[verifier::rlimit(100)]
    fn expr_continue_app(&mut self, ast: &mut AST, tm: &TypeMap, left: usize) -> (r: Result<Option<usize>, ParserError>)
        requires
            old(self).ready(),
            old(ast).wf(),
            expr_node(old(ast), left),
            tt_at(old(self).tokens@, old(self).pos as int) == TokenType::Lambda || tt_at(old(self).tokens@, old(self).pos as int)
                == TokenType::Match || lit_tt(tt_at(old(self).tokens@, old(self).pos as int)) || tt_at(old(self).tokens@, old(self).pos as int)
                == TokenType::Id || tt_at(old(self).tokens@, old(self).pos as int) == TokenType::UppercaseId,
        ensures
            step(old(self), final(self), old(ast), final(ast)),
            r is Ok ==> final(self).bound@ == old(self).bound@,
            r matches Ok(None) ==> final(self).pos == old(self).pos && *final(ast) == *old(ast)
                && e_loop(old(self).tokens@, old(self).pos as int, term(old(ast), left as int), old(self).bound@, tm@)
                == Some((term(old(ast), left as int), old(self).pos as int)),
            r matches Ok(Some(l2)) ==> expr_node(final(ast), l2) && final(self).remaining() < old(self).remaining()
                && e_loop(old(self).tokens@, old(self).pos as int, term(old(ast), left as int), old(self).bound@, tm@)
                == e_loop(old(self).tokens@, final(self).pos as int, term(final(ast), l2 as int), old(self).bound@, tm@)
                && e_loop_err(old(self).tokens@, old(self).pos as int, term(old(ast), left as int), old(self).bound@, tm@)
                == e_loop_err(old(self).tokens@, final(self).pos as int, term(final(ast), l2 as int), old(self).bound@, tm@),
            r matches Err(x) ==> e_loop(old(self).tokens@, old(self).pos as int, term(old(ast), left as int), old(self).bound@, tm@) is None
                && perr_agrees(x, e_loop_err(old(self).tokens@, old(self).pos as int, term(old(ast), left as int), old(self).bound@, tm@)),
        decreases old(self).remaining(), 3nat,
    {
        let ghost ts = self.tokens@;
        let ghost b = self.bound@;
        let ghost tmv = tm@;
        let ghost lt = term(ast, left as int);
        let mut left = left;
        let ghost a1 = *ast;
        let ghost j = self.pos as int;
        let ghost l0 = left;
        let (line, col) = self.position();
        let tt = self.peek_tt(0);
        if tt == TokenType::Lambda {
            self.advance();
            let abs = self.parse_abstraction(ast, false, tm)?;
            let ghost a2 = *ast;
            left = ast.add_app(left, abs, line, col, false);
            proof {
                assert(e_loop(ts, j, lt, b, tmv) == e_loop(ts, self.pos as int, term(ast, left as int), b, tmv)
                    && e_loop_err(ts, j, lt, b, tmv) == e_loop_err(ts, self.pos as int, term(ast, left as int), b, tmv)) by {
                    lemma_two_kept(&a1, &a2, ast, l0 as int, abs as int);
                }
            }
        } else if tt == TokenType::Match {
            self.advance();
            let m = self.parse_match(ast, tm)?;
            let ghost a2 = *ast;
            left = ast.add_app(left, m, line, col, false);
            proof {
                assert(e_loop(ts, j, lt, b, tmv) == e_loop(ts, self.pos as int, term(ast, left as int), b, tmv)
                    && e_loop_err(ts, j, lt, b, tmv) == e_loop_err(ts, self.pos as int, term(ast, left as int), b, tmv)) by {
                    lemma_two_kept(&a1, &a2, ast, l0 as int, m as int);
                }
            }
        } else if is_lit_tt(tt) {
            let right = self.parse_expr_primary(ast, tm)?;
            let ghost a2 = *ast;
            left = ast.add_app(left, right, line, col, false);
            proof {
                assert(e_loop(ts, j, lt, b, tmv) == e_loop(ts, self.pos as int, term(ast, left as int), b, tmv)
                    && e_loop_err(ts, j, lt, b, tmv) == e_loop_err(ts, self.pos as int, term(ast, left as int), b, tmv)) by {
                    lemma_two_kept(&a1, &a2, ast, l0 as int, right as int);
                }
            }
        } else if tt == TokenType::Id || tt == TokenType::UppercaseId {
            let tk = self.peek(0);
            if tk.is_infix_id() {
                let op = self.parse_expr_primary(ast, tm)?;
                let ghost a2 = *ast;
                let ghost k1 = self.pos as int;
                let right = self.parse_expression(ast, tm)?;
                let ghost a3 = *ast;
                let l = ast.add_app(op, left, line, col, false);
                let ghost a4 = *ast;
                left = ast.add_app(l, right, line, col, false);
                proof {
                    assert(e_loop(ts, j, lt, b, tmv) == e_loop(ts, self.pos as int, term(ast, left as int), b, tmv)
                    && e_loop_err(ts, j, lt, b, tmv) == e_loop_err(ts, self.pos as int, term(ast, left as int), b, tmv)) by {
                        lemma_term_shape(&a1, &a2, l0 as int);
                        lemma_two_kept(&a2, &a3, &a4, op as int, l0 as int);
                        lemma_term_shape(&a2, &a3, l0 as int);
                        lemma_two_kept(&a3, &a4, ast, right as int, l as int);
                    }
                }
            } else {
                let id = self.parse_expr_primary(ast, tm)?;
                let ghost a2 = *ast;
                left = ast.add_app(left, id, line, col, false);
                proof {
                    assert(e_loop(ts, j, lt, b, tmv) == e_loop(ts, self.pos as int, term(ast, left as int), b, tmv)
                    && e_loop_err(ts, j, lt, b, tmv) == e_loop_err(ts, self.pos as int, term(ast, left as int), b, tmv)) by {
                        lemma_two_kept(&a1, &a2, ast, l0 as int, id as int);
                    }
                }
            }
        }
        Ok(Some(left))
    }

    /// A single expression: an identifier, a literal, a bracketed expression, an
    /// abstraction, a match or `if .. then .. else ..` (an `if` followed by `(` is the
    /// inbuilt function applied as usual); see `e_primary`.
    #[verifier::loop_isolation(false)]
    pub fn parse_expr_primary(&mut self, ast: &mut AST, tm: &TypeMap) -> (r: Result<usize, ParserError>)
        requires
            old(self).ready(),
            old(ast).wf(),
        ensures
            step(old(self), final(self), old(ast), final(ast)),
            r matches Ok(e) ==> expr_node(final(ast), e) && final(self).remaining() < old(self).remaining(),
            r is Ok ==> final(self).bound@ == old(self).bound@,
            r is Ok <==> e_primary(old(self).tokens@, old(self).pos as int, old(self).bound@, tm@) is Some,
            r matches Ok(e) ==> e_primary(old(self).tokens@, old(self).pos as int, old(self).bound@, tm@)
                == Some((term(final(ast), e as int), final(self).pos as int)),
            r matches Err(x) ==> perr_agrees(x, e_primary_err(old(self).tokens@, old(self).pos as int, old(self).bound@, tm@)),
        decreases old(self).remaining(), 2nat,
    {
        let (line, col) = self.position();
        let t = self.consume();
        let tt = t.tt;
        if tt == TokenType::Id || tt == TokenType::UppercaseId {
            let if_name = lit("if");
            if tt == TokenType::Id && str_eq(&t.value, &if_name) && self.peek_tt(0) != TokenType::LParen {
                return self.parse_ite(ast, tm, line, col);
            }
            if !self.is_bound(&t.value) {
                return Err(self.error_with("Unbound identifier: ", &t.value));
            }
            Ok(ast.add_id(t, line, col))
        } else if is_lit_tt(tt) {
            Ok(ast.add_lit(t, line, col))
        } else if tt == TokenType::Match {
            self.parse_match(ast, tm)
        } else if tt == TokenType::Lambda {
            let abs = self.parse_abstraction(ast, false, tm)?;
            Ok(abs)
        } else if tt == TokenType::LParen || tt == TokenType::Dollar {
            let e = self.parse_expression(ast, tm)?;
            self.advance();
            Ok(e)
        } else {
            Err(self.error_with("Unexpected Token in primary: ", &t.value))
        }
    }

    /// `if c then a else b`, after the `if`: the inbuilt `if` applied to the three; see
    /// `e_ite`.
    #[verifier::loop_isolation(false)]
    fn parse_ite(&mut self, ast: &mut AST, tm: &TypeMap, line: usize, col: usize) -> (r: Result<usize, ParserError>)
        requires
            old(self).ready(),
            old(ast).wf(),
        ensures
            step(old(self), final(self), old(ast), final(ast)),
            r matches Ok(e) ==> expr_node(final(ast), e) && final(self).remaining() < old(self).remaining(),
            r is Ok ==> final(self).bound@ == old(self).bound@,
            r is Ok <==> e_ite(old(self).tokens@, old(self).pos as int, old(self).bound@, tm@) is Some,
            r matches Ok(e) ==> e_ite(old(self).tokens@, old(self).pos as int, old(self).bound@, tm@)
                == Some((term(final(ast), e as int), final(self).pos as int)),
            r matches Err(x) ==> perr_agrees(x, e_ite_err(old(self).tokens@, old(self).pos as int, old(self).bound@, tm@)),
        decreases old(self).remaining(), 4nat,
    {
        let ghost a0 = *ast;
        let name = lit("if");
        proof { reveal_strlit("if"); }
        let if_id = ast.add_id(Token::new(TokenType::Id, name), line, col);
        let ghost a1 = *ast;
        let cond = self.parse_expression(ast, tm)?;
        let ghost a2 = *ast;
        let (l1, c1) = self.position();
        let app1 = ast.add_app(if_id, cond, l1, c1, false);
        let ghost a3 = *ast;
        proof { lemma_two_kept(&a1, &a2, ast, if_id as int, cond as int); }
        let then_tk = self.consume();
        if then_tk.tt != TokenType::Then {
            return Err(self.error_with("Expected \"then\", got: ", &then_tk.value));
        }
        let then_exp = self.parse_expression(ast, tm)?;
        let ghost a4 = *ast;
        let (l2, c2) = self.position();
        let app2 = ast.add_app(app1, then_exp, l2, c2, false);
        let ghost a5 = *ast;
        proof { lemma_two_kept(&a3, &a4, ast, app1 as int, then_exp as int); }
        let else_tk = self.consume();
        if else_tk.tt != TokenType::Else {
            return Err(self.error_with("Expected \"else\", got: ", &else_tk.value));
        }
        let else_exp = self.parse_expression(ast, tm)?;
        let ghost a6 = *ast;
        let (l3, c3) = self.position();
        let app3 = ast.add_app(app2, else_exp, l3, c3, false);
        proof { lemma_two_kept(&a5, &a6, ast, app2 as int, else_exp as int); }
        Ok(app3)
    }
}

impl Parser {
    /// The cases of a match, after `match`: the inspected expression, an optional type,
    /// then `{`, cases `| pattern -> expression` on lines of their own, and `}`; see
    /// `e_match`.
    #[verifier::loop_isolation(false)]
    #[verifier::rlimit(60)]
    fn parse_match(&mut self, ast: &mut AST, tm: &TypeMap) -> (r: Result<usize, ParserError>)
        requires
            old(self).ready(),
            old(ast).wf(),
        ensures
            step(old(self), final(self), old(ast), final(ast)),
            r matches Ok(e) ==> expr_node(final(ast), e) && final(self).remaining() < old(self).remaining(),
            r is Ok ==> final(self).bound@ == old(self).bound@,
            r is Ok <==> e_match(old(self).tokens@, old(self).pos as int, old(self).bound@, tm@) is Some,
            r matches Ok(e) ==> e_match(old(self).tokens@, old(self).pos as int, old(self).bound@, tm@)
                == Some((term(final(ast), e as int), final(self).pos as int)),
        decreases old(self).remaining(), 4nat,
    {
        let ghost p0 = *self;
        let ghost a0 = *ast;
        let ghost ts = self.tokens@;
        let ghost b = self.bound@;
        let ghost tmv = tm@;
        let match_unpack = self.parse_expression(ast, tm)?;
        let ghost a1 = *ast;
        let t = self.consume();
        if t.tt == TokenType::DoubleColon {
            let ty = self.parse_type_expression(tm, None)?;
            ast.set_type(match_unpack, ty);
            proof {
                assert(shape_kept(&a1, ast));
                lemma_term_shape(&a1, ast, match_unpack as int);
            }
            let b = self.consume();
            if b.tt != TokenType::LBrace {
                return Err(self.parse_error(lit("Expected \"{\" after match type assignment before cases")));
            }
        } else if t.tt != TokenType::LBrace {
            return Err(self.parse_error(lit("Expected type assignment of match subject, or lbrace")));
        }
        let mut children: Vec<usize> = vec![match_unpack];
        let ghost mut parts: Seq<Term> = seq![term(ast, match_unpack as int)];
        proof { assert(node_terms(ast, children@) =~= parts); }
        loop
            invariant
                step(&p0, self, &a0, ast),
                self.remaining() < p0.remaining(),
                children@.len() >= 1,
                children@.len() % 2 == 1,
                forall|j: int| 0 <= j < children@.len() ==> expr_node(ast, #[trigger] children@[j]),
                self.bound@ == b,
                node_terms(ast, children@) == parts,
                e_match(ts, p0.pos as int, b, tmv) == m_loop(ts, self.pos as int, parts, b, tmv),
            decreases self.remaining(),
        {
            let ghost a1 = *ast;
            let ghost j = self.pos as int;
            let tt = self.peek_tt(0);
            if tt == TokenType::RBrace {
                self.advance();
                break;
            } else if tt == TokenType::Newline {
                self.advance();
            } else if tt == TokenType::Bar {
                self.advance();
                let mut bound_set: Vec<String> = Vec::new();
                let case = self.parse_pattern(ast, tm, true, &mut bound_set)?;
                let ghost a2 = *ast;
                let ghost names = strs(bound_set@);
                proof { assert(strs(Seq::<String>::empty()) + names =~= names); }
                let arrow = self.consume();
                if arrow.tt != TokenType::RArrow {
                    return Err(self.parse_error(lit("Expected \"->\" after case pattern")));
                }
                let mut k: usize = 0;
                let ghost rb = self.remaining();
                while k < bound_set.len()
                    invariant
                        self.ready(),
                        self.tokens == p0.tokens,
                self.type_assignment_map == p0.type_assignment_map,
                        self.type_assignment_map == p0.type_assignment_map,
                        self.remaining() == rb,
                        k <= bound_set@.len(),
                        names == strs(bound_set@),
                        self.bound@ == b + names.take(k as int).to_set(),
                    decreases bound_set@.len() - k,
                {
                    self.bind(bound_set[k].clone());
                    proof {
                        assert(names.take(k + 1) =~= names.take(k as int).push(names[k as int]));
                        names.take(k as int).lemma_push_to_set_commute(names[k as int]);
                        assert(self.bound@ =~= b + names.take(k + 1).to_set());
                    }
                    k = k + 1;
                }
                proof { assert(names.take(names.len() as int) =~= names); }
                let expr = self.parse_expression(ast, tm)?;
                let ghost a3 = *ast;
                let mut k: usize = 0;
                let ghost ru = self.remaining();
                let ghost bn = b + names.to_set();
                while k < bound_set.len()
                    invariant
                        self.ready(),
                        self.tokens == p0.tokens,
                self.type_assignment_map == p0.type_assignment_map,
                        self.type_assignment_map == p0.type_assignment_map,
                        self.remaining() == ru,
                        k <= bound_set@.len(),
                        names == strs(bound_set@),
                        self.bound@ == bn - names.take(k as int).to_set(),
                    decreases bound_set@.len() - k,
                {
                    self.unbind(&bound_set[k]);
                    proof {
                        assert(names.take(k + 1) =~= names.take(k as int).push(names[k as int]));
                        names.take(k as int).lemma_push_to_set_commute(names[k as int]);
                        assert(self.bound@ =~= bn - names.take(k + 1).to_set());
                    }
                    k = k + 1;
                }
                proof {
                    assert(names.take(names.len() as int) =~= names);
                    lemma_unbind_names(b, names);
                }
                let ghost oc = children@;
                children.push(case);
                children.push(expr);
                proof {
                    lemma_terms_shape(&a1, ast, oc);
                    lemma_term_shape(&a2, ast, case as int);
                    assert(node_terms(ast, children@) =~= parts.push(term(&a2, case as int)).push(term(&a3, expr as int)));
                    parts = parts.push(term(&a2, case as int)).push(term(&a3, expr as int));
                }
            } else {
                let tk = self.peek(0);
                return Err(self.error_with("Unexpected Token in match: expected \"|\", got: ", &tk.value));
            }
            proof { lemma_kinds_kept_trans(&a0, &a1, ast); lemma_shape_kept_trans(&a0, &a1, ast); }
        }
        let ghost a4 = *ast;
        let (line, col) = self.position();
        let m = ast.add_match(children, line, col);
        proof {
            assert(shape_kept(&a4, ast));
            lemma_terms_shape(&a4, ast, children@);
            lemma_terms_of(ast, m as int, children@.len());
            assert(terms_of(ast, m as int, children@.len()) =~= parts);
        }
        Ok(m)
    }

    /// A pattern: constructors applied to patterns, literals, variables (bound by the
    /// pattern when `unpack`, collected in `bound_set`), `_`, and pairs.
    #[verifier::loop_isolation(false)]
    #[verifier::spinoff_prover]
    #[verifier::rlimit(40)]
    fn parse_pattern(&mut self, ast: &mut AST, tm: &TypeMap, unpack: bool, bound_set: &mut Vec<String>) -> (r: Result<usize, ParserError>)
        requires
            old(self).ready(),
            old(ast).wf(),
        ensures
            step(old(self), final(self), old(ast), final(ast)),
            r matches Ok(e) ==> expr_node(final(ast), e) && final(self).remaining() < old(self).remaining(),
            final(self).bound == old(self).bound,
            r is Ok <==> p_pattern(old(self).tokens@, old(self).pos as int, old(self).bound@, unpack) is Some,
            r matches Ok(e) ==> p_pattern(old(self).tokens@, old(self).pos as int, old(self).bound@, unpack) matches Some((t, k, ns))
                && t == term(final(ast), e as int) && k == final(self).pos && strs(final(bound_set)@) == strs(old(bound_set)@) + ns
                && (unpack ==> forall|j: int| 0 <= j < ns.len() ==> !old(self).bound@.contains(#[trigger] ns[j])),
        decreases old(self).remaining(), 2nat,
    {
        let ghost p0 = *self;
        let ghost a0 = *ast;
        let ghost ts = self.tokens@;
        let ghost b = self.bound@;
        let ghost bs0 = strs(bound_set@);
        let mut left = self.parse_pattern_primary(ast, tm, unpack, bound_set)?;
        let ghost mut lt: Term = term(ast, left as int);
        let ghost mut ns: Seq<Seq<char>> = (p_primary(ts, p0.pos as int, b, unpack)->0).2;
        loop
            invariant
                step(&p0, self, &a0, ast),
                self.remaining() < p0.remaining(),
                expr_node(ast, left),
                self.bound == p0.bound,
                lt == term(ast, left as int),
                strs(bound_set@) == bs0 + ns,
                unpack ==> forall|j: int| 0 <= j < ns.len() ==> !b.contains(#[trigger] ns[j]),
                p_pattern(ts, p0.pos as int, b, unpack) == p_loop(ts, self.pos as int, lt, ns, b, unpack),
            decreases self.remaining(),
        {
            let ghost a1 = *ast;
            let ghost j = self.pos as int;
            let (line, col) = self.position();
            let tt = self.peek_tt(0);
            if tt == TokenType::LParen {
                self.advance();
                let right = self.parse_pattern(ast, tm, unpack, bound_set)?;
                let ghost a2 = *ast;
                self.advance();
                let ghost l0 = left;
                left = ast.add_app(left, right, line, col, false);
                proof {
                    let ns2 = (p_pattern(ts, adv(ts, j), b, unpack)->0).2;
                    lemma_term_shape(&a1, &a2, l0 as int);
                    lemma_term_shape(&a2, ast, l0 as int);
                    lemma_term_shape(&a2, ast, right as int);
                    assert(bs0 + ns + ns2 =~= bs0 + (ns + ns2));
                    if unpack {
                        assert forall|i: int| 0 <= i < (ns + ns2).len() implies !b.contains(#[trigger] (ns + ns2)[i]) by {
                            if i >= ns.len() {
                                assert((ns + ns2)[i] == ns2[i - ns.len()]);
                            }
                        }
                    }
                    ns = ns + ns2;
                    lt = term(ast, left as int);
                }
            } else if tt == TokenType::RParen || tt == TokenType::RArrow || tt == TokenType::LBrace
                || tt == TokenType::EOF || tt == TokenType::DoubleColon || tt == TokenType::Newline
                || tt == TokenType::Assignment {
                return Ok(left);
            } else if tt == TokenType::Comma {
                self.advance();
                let right = self.parse_pattern(ast, tm, unpack, bound_set)?;
                let ghost a2 = *ast;
                let ghost l0 = left;
                left = ast.add_pair(left, right, line, col);
                proof {
                    let ns2 = (p_pattern(ts, adv(ts, j), b, unpack)->0).2;
                    lemma_term_shape(&a1, &a2, l0 as int);
                    lemma_term_shape(&a2, ast, l0 as int);
                    lemma_term_shape(&a2, ast, right as int);
                    assert(bs0 + ns + ns2 =~= bs0 + (ns + ns2));
                    if unpack {
                        assert forall|i: int| 0 <= i < (ns + ns2).len() implies !b.contains(#[trigger] (ns + ns2)[i]) by {
                            if i >= ns.len() {
                                assert((ns + ns2)[i] == ns2[i - ns.len()]);
                            }
                        }
                    }
                    ns = ns + ns2;
                    lt = term(ast, left as int);
                }
            } else if is_lit_tt(tt) || tt == TokenType::Id || tt == TokenType::UppercaseId {
                let right = self.parse_pattern_primary(ast, tm, unpack, bound_set)?;
                let ghost a2 = *ast;
                let ghost l0 = left;
                left = ast.add_app(left, right, line, col, false);
                proof {
                    let ns2 = (p_primary(ts, j, b, unpack)->0).2;
                    lemma_term_shape(&a1, &a2, l0 as int);
                    lemma_term_shape(&a2, ast, l0 as int);
                    lemma_term_shape(&a2, ast, right as int);
                    assert(bs0 + ns + ns2 =~= bs0 + (ns + ns2));
                    if unpack {
                        assert forall|i: int| 0 <= i < (ns + ns2).len() implies !b.contains(#[trigger] (ns + ns2)[i]) by {
                            if i >= ns.len() {
                                assert((ns + ns2)[i] == ns2[i - ns.len()]);
                            }
                        }
                    }
                    ns = ns + ns2;
                    lt = term(ast, left as int);
                }
            } else {
                let tk = self.peek(0);
                return Err(self.error_with("Unexpected token in pattern: ", &tk.value));
            }
            proof { lemma_kinds_kept_trans(&a0, &a1, ast); lemma_shape_kept_trans(&a0, &a1, ast); }
        }
    }

    #[verifier::loop_isolation(false)]
    fn parse_pattern_primary(&mut self, ast: &mut AST, tm: &TypeMap, unpack: bool, bound_set: &mut Vec<String>) -> (r: Result<usize, ParserError>)
        requires
            old(self).ready(),
            old(ast).wf(),
        ensures
            step(old(self), final(self), old(ast), final(ast)),
            r matches Ok(e) ==> expr_node(final(ast), e) && final(self).remaining() < old(self).remaining(),
            final(self).bound == old(self).bound,
            r is Ok <==> p_primary(old(self).tokens@, old(self).pos as int, old(self).bound@, unpack) is Some,
            r matches Ok(e) ==> p_primary(old(self).tokens@, old(self).pos as int, old(self).bound@, unpack) matches Some((t, k, ns))
                && t == term(final(ast), e as int) && k == final(self).pos && strs(final(bound_set)@) == strs(old(bound_set)@) + ns
                && (unpack ==> forall|j: int| 0 <= j < ns.len() ==> !old(self).bound@.contains(#[trigger] ns[j])),
        decreases old(self).remaining(), 1nat,
    {
        let ghost bs0 = strs(bound_set@);
        proof { assert(bs0 + Seq::<Seq<char>>::empty() =~= bs0); }
        let (line, col) = self.position();
        let t = self.consume();
        let tt = t.tt;
        if tt == TokenType::Id || tt == TokenType::UppercaseId {
            let c = t.value.as_str().get_char(0);
            if 'A' <= c && c <= 'Z' {
                if !self.is_bound(&t.value) {
                    return Err(self.error_with("Unbound constructor identifier: ", &t.value));
                }
                Ok(ast.add_id(t, line, col))
            } else if c == '_' {
                Ok(ast.add_id(t, line, col))
            } else if 'a' <= c && c <= 'z' {
                if unpack {
                    if self.is_bound(&t.value) {
                        return Err(self.error_with("Cannot rebind already bound identifier: ", &t.value));
                    }
                    bound_set.push(t.value.clone());
                    proof { assert(strs(bound_set@) =~= bs0 + seq![t.value@]); }
                } else if !self.is_bound(&t.value) {
                    return Err(self.error_with("Unbound Identifier: ", &t.value));
                }
                Ok(ast.add_id(t, line, col))
            } else {
                Err(self.error_with("unexpected char in id: ", &t.value))
            }
        } else if is_lit_tt(tt) {
            Ok(ast.add_lit(t, line, col))
        } else if tt == TokenType::LParen {
            let e = self.parse_pattern(ast, tm, unpack, bound_set)?;
            self.advance();
            Ok(e)
        } else {
            Err(self.error_with("Unexpected Token in pattern primary: ", &t.value))
        }
    }

    /// Binds the variables of an abstraction's binder (an identifier, or pairs of them);
    /// `_` binds nothing. A variable that is bound already is an error.
    #[verifier::loop_isolation(false)]
    pub fn bind_node(&mut self, ast: &AST, node: usize) -> (r: Result<(), ParserError>)
        requires
            old(self).ready(),
            ast.wf(),
            node < ast.vec@.len(),
        ensures
            final(self).ready(),
            final(self).tokens == old(self).tokens,
            final(self).pos == old(self).pos,
            final(self).type_assignment_map == old(self).type_assignment_map,
            r is Ok <==> bind_term(old(self).bound@, term(ast, node as int)) is Some,
            r is Ok ==> final(self).bound@ == bind_term(old(self).bound@, term(ast, node as int))->0,
        decreases ast.measure(node as int),
    {
        proof { ast.lemma_node(node as int); }
        let n = &ast.vec[node];
        if n.t == ASTNodeType::Identifier {
            let name = n.get_value();
            proof { reveal_strlit("_"); }
            if self.is_bound(&name) {
                let mut e = lit("Variable ");
                push_str(&mut e, name.as_str());
                push_str(&mut e, " is already bound, and cannot be rebound for abstraction");
                return Err(self.parse_error(e));
            }
            let underscore = lit("_");
            if !str_eq(&name, &underscore) {
                self.bind(name);
            }
            Ok(())
        } else if n.t == ASTNodeType::Pair {
            let ghost b0 = self.bound@;
            self.bind_node(ast, n.children[0])?;
            self.bind_node(ast, n.children[1])?;
            Ok(())
        } else {
            Ok(())
        }
    }

    /// Unbinds the variables of an abstraction's binder.
    #[verifier::loop_isolation(false)]
    pub fn unbind_node(&mut self, ast: &AST, node: usize)
        requires
            old(self).ready(),
            ast.wf(),
            node < ast.vec@.len(),
        ensures
            final(self).ready(),
            final(self).tokens == old(self).tokens,
            final(self).pos == old(self).pos,
            final(self).type_assignment_map == old(self).type_assignment_map,
            final(self).bound@ == old(self).bound@ - tnames(term(ast, node as int)),
        decreases ast.measure(node as int),
    {
        proof { ast.lemma_node(node as int); }
        let n = &ast.vec[node];
        let ghost b0 = self.bound@;
        if n.t == ASTNodeType::Identifier {
            let name = n.get_value();
            let underscore = lit("_");
            proof { reveal_strlit("_"); }
            if !str_eq(&name, &underscore) {
                self.unbind(&name);
                assert(self.bound@ =~= b0 - tnames(term(ast, node as int)));
            } else {
                assert(self.bound@ =~= b0 - tnames(term(ast, node as int)));
            }
        } else if n.t == ASTNodeType::Pair {
            self.unbind_node(ast, n.children[0]);
            self.unbind_node(ast, n.children[1]);
            assert(self.bound@ =~= b0 - tnames(term(ast, node as int)));
        } else {
            assert(self.bound@ =~= b0 - tnames(term(ast, node as int)));
        }
    }

    /// Abstraction variables up to `.` (or up to `=` in `f x y = ..`, when `is_assign`:
    /// the abstractions are then marked as written so), then the body; returns the
    /// outermost abstraction; see `e_abstraction`.
    #[verifier::loop_isolation(false)]
    #[verifier::rlimit(60)]
    fn parse_abstraction(&mut self, ast: &mut AST, is_assign: bool, tm: &TypeMap) -> (r: Result<usize, ParserError>)
        requires
            old(self).ready(),
            old(ast).wf(),
        ensures
            step(old(self), final(self), old(ast), final(ast)),
            r matches Ok(e) ==> expr_node(final(ast), e) && final(self).remaining() < old(self).remaining(),
            r is Ok ==> final(self).bound@ == old(self).bound@,
            r is Ok <==> e_abstraction(old(self).tokens@, old(self).pos as int, old(self).bound@, tm@, is_assign) is Some,
            r matches Ok(e) ==> e_abstraction(old(self).tokens@, old(self).pos as int, old(self).bound@, tm@, is_assign)
                == Some((term(final(ast), e as int), final(self).pos as int)),
        decreases old(self).remaining(), 4nat,
    {
        let ghost p0 = *self;
        let ghost a0 = *ast;
        let ghost ts = self.tokens@;
        let ghost b = self.bound@;
        let ghost tmv = tm@;
        let mut args: Vec<usize> = Vec::new();
        let ghost mut at: Seq<Term> = Seq::empty();
        let ghost mut jd: int = 0;
        proof { assert(node_terms(ast, args@) =~= at); }
        loop
            invariant
                step(&p0, self, &a0, ast),
                forall|k: int| 0 <= k < args@.len() ==> expr_node(ast, #[trigger] args@[k]),
                args@.len() > 0 ==> self.remaining() < p0.remaining(),
                self.bound@ == b,
                node_terms(ast, args@) == at,
                e_abstraction(ts, p0.pos as int, b, tmv, is_assign) == a_loop(ts, self.pos as int, at, b, tmv, is_assign),
            decreases self.remaining(),
        {
            let ghost a1 = *ast;
            let tt = self.peek_tt(0);
            if tt == TokenType::Id || tt == TokenType::LParen {
                let a = self.parse_abstr_var(ast, tm)?;
                let ghost oa = args@;
                args.push(a);
                proof {
                    lemma_terms_shape(&a1, ast, oa);
                    assert(node_terms(ast, args@) =~= at.push(term(ast, a as int)));
                    at = at.push(term(ast, a as int));
                }
            } else if (tt == TokenType::Dot && !is_assign) || (tt == TokenType::Assignment && is_assign) {
                proof { jd = self.pos as int; }
                break;
            } else {
                let tk = self.peek(0);
                return Err(self.error_with("Unexpected token in lambda argument: ", &tk.value));
            }
            proof { lemma_kinds_kept_trans(&a0, &a1, ast); lemma_shape_kept_trans(&a0, &a1, ast); }
        }
        let ghost res = e_abstraction(ts, p0.pos as int, b, tmv, is_assign);
        proof {
            assert(res == a_loop(ts, jd, at, b, tmv, is_assign));
            assert(res == match bind_all(b, at, at.len()) {
                Some(b2) => match e_expr(ts, adv(ts, jd), b2, tmv) {
                    Some((body, k)) => Some((wrap(at, body, is_assign), k)),
                    None => None,
                },
                None => None,
            });
        }
        self.consume();
        let ghost pos1 = self.pos;
        let mut k: usize = 0;
        proof { assert(bind_all(b, at, 0) == Some(b)); }
        while k < args.len()
            invariant
                self.ready(),
                ast.wf(),
                self.tokens == p0.tokens,
                self.type_assignment_map == p0.type_assignment_map,
                self.remaining() < p0.remaining(),
                forall|j: int| 0 <= j < args@.len() ==> expr_node(ast, #[trigger] args@[j]),
                ast.root == a0.root,
                kinds_kept(&a0, ast),
                shape_kept(&a0, ast),
                k <= args@.len(),
                at.len() == args@.len(),
                node_terms(ast, args@) == at,
                bind_all(b, at, k as nat) == Some(self.bound@),
                self.pos == pos1,
            decreases args@.len() - k,
        {
            let ghost bk = self.bound@;
            proof { assert(term(ast, args@[k as int] as int) == at[k as int]); }
            match self.bind_node(ast, args[k]) {
                Ok(()) => {},
                Err(e) => {
                    proof { lemma_bind_all_none(b, at, (k + 1) as nat, at.len()); }
                    return Err(e);
                },
            }
            k = k + 1;
        }
        let ghost a2 = *ast;
        let ghost b2 = self.bound@;
        let mut expr = self.parse_expression(ast, tm)?;
        let ghost body = term(ast, expr as int);
        let ghost pos2 = self.pos;
        proof {
            lemma_terms_shape(&a2, ast, args@);
            assert(at.subrange(at.len() as int, at.len() as int) =~= Seq::<Term>::empty());
        }
        let mut k = args.len();
        while k > 0
            invariant
                self.ready(),
                ast.wf(),
                kinds_kept(&a0, ast),
                shape_kept(&a0, ast),
                ast.root == a0.root,
                self.tokens == p0.tokens,
                self.type_assignment_map == p0.type_assignment_map,
                self.remaining() < p0.remaining(),
                expr_node(ast, expr),
                k <= args@.len(),
                at.len() == args@.len(),
                forall|j: int| 0 <= j < args@.len() ==> expr_node(ast, #[trigger] args@[j]),
                node_terms(ast, args@) == at,
                bind_all(b, at, k as nat) == Some(self.bound@),
                term(ast, expr as int) == wrap(at.subrange(k as int, at.len() as int), body, is_assign),
                self.pos == pos2,
            decreases k,
        {
            let ghost a3 = *ast;
            let ghost e0 = expr;
            let (line, col) = self.position();
            expr = ast.add_abstraction(args[k - 1], expr, line, col);
            if is_assign {
                ast.fancy_assign_abst_syntax(expr);
            }
            proof {
                assert(ast.vec@ =~= a3.vec@.push(ast.vec@[a3.vec@.len() as int]));
                lemma_two_kept(&a3, &a3, ast, args@[k - 1] as int, e0 as int);
                lemma_terms_shape(&a3, ast, args@);
                assert(term(ast, args@[k - 1] as int) == at[k - 1]);
                let sub = at.subrange(k - 1, at.len() as int);
                assert(sub.drop_first() =~= at.subrange(k as int, at.len() as int));
                assert(term(ast, expr as int) == wrap(sub, body, is_assign));
                lemma_bind_all_some(b, at, (k - 1) as nat, k as nat);
                lemma_unbind_term(bind_all(b, at, (k - 1) as nat)->0, at[k - 1]);
            }
            self.unbind_node(ast, args[k - 1]);
            proof { lemma_kinds_kept_trans(&a0, &a3, ast); lemma_shape_kept_trans(&a0, &a3, ast); }
            k = k - 1;
        }
        proof { assert(at.subrange(0, at.len() as int) =~= at); }
        Ok(expr)
    }

    /// A variable of an abstraction: an identifier, optionally with `:: type`, or a pair
    /// of variables.
    #[verifier::loop_isolation(false)]
    fn parse_abstr_var(&mut self, ast: &mut AST, tm: &TypeMap) -> (r: Result<usize, ParserError>)
        requires
            old(self).ready(),
            old(ast).wf(),
        ensures
            step(old(self), final(self), old(ast), final(ast)),
            r matches Ok(e) ==> expr_node(final(ast), e) && final(self).remaining() < old(self).remaining(),
            final(self).bound == old(self).bound,
            r is Ok <==> a_var(old(self).tokens@, old(self).pos as int, tm@) is Some,
            r matches Ok(e) ==> a_var(old(self).tokens@, old(self).pos as int, tm@)
                == Some((term(final(ast), e as int), final(self).pos as int)),
        decreases old(self).remaining(), 2nat,
    {
        let ghost a0 = *ast;
        let ghost ts = self.tokens@;
        let ghost i0 = self.pos as int;
        let left = self.parse_abstr_var_primary(ast, tm)?;
        let ghost a1 = *ast;
        let tt = self.peek_tt(0);
        if tt == TokenType::Comma {
            self.advance();
            let right = self.parse_abstr_var(ast, tm)?;
            let ghost a2 = *ast;
            let (line, col) = self.position();
            let r = ast.add_pair(left, right, line, col);
            proof {
                lemma_term_shape(&a1, &a2, left as int);
                lemma_term_shape(&a2, ast, left as int);
                lemma_term_shape(&a2, ast, right as int);
            }
            Ok(r)
        } else if tt == TokenType::DoubleColon {
            self.advance();
            let ty = self.parse_type_expression(tm, None)?;
            ast.set_type(left, ty);
            proof {
                assert(shape_kept(&a1, ast));
                lemma_term_shape(&a1, ast, left as int);
            }
            Ok(left)
        } else if tt == TokenType::RParen {
            self.advance();
            Ok(left)
        } else {
            Ok(left)
        }
    }

    #[verifier::loop_isolation(false)]
    fn parse_abstr_var_primary(&mut self, ast: &mut AST, tm: &TypeMap) -> (r: Result<usize, ParserError>)
        requires
            old(self).ready(),
            old(ast).wf(),
        ensures
            step(old(self), final(self), old(ast), final(ast)),
            r matches Ok(e) ==> expr_node(final(ast), e) && final(self).remaining() < old(self).remaining(),
            final(self).bound == old(self).bound,
            r is Ok <==> a_var_primary(old(self).tokens@, old(self).pos as int, tm@) is Some,
            r matches Ok(e) ==> a_var_primary(old(self).tokens@, old(self).pos as int, tm@)
                == Some((term(final(ast), e as int), final(self).pos as int)),
        decreases old(self).remaining(), 1nat,
    {
        let (line, col) = self.position();
        let t = self.consume();
        if t.tt == TokenType::Id {
            Ok(ast.add_id(t, line, col))
        } else if t.tt == TokenType::LParen {
            self.parse_abstr_var(ast, tm)
        } else {
            Err(self.parse_error(lit("Expected identifier (or '(') after lambda")))
        }
    }

    /// A type: names of declared types (applied to arguments), type variables (which must
    /// be among `bound_type_vars` when that is given), arrows (grouping to the right),
    /// pairs and brackets; see `ty_expr`.
    #[verifier::loop_isolation(false)]
    pub fn parse_type_expression(&mut self, tm: &TypeMap, bound_type_vars: Option<&Vec<String>>) -> (r: Result<Type, ParserError>)
        requires
            old(self).ready(),
        ensures
            final(self).ready(),
            final(self).tokens == old(self).tokens,
            final(self).bound == old(self).bound,
            final(self).type_assignment_map == old(self).type_assignment_map,
            final(self).remaining() <= old(self).remaining(),
            r is Ok ==> final(self).remaining() < old(self).remaining(),
            r is Ok <==> ty_expr(old(self).tokens@, old(self).pos as int, tm@, opt_names(bound_type_vars)) is Some,
            r matches Ok(t) ==> ty_expr(old(self).tokens@, old(self).pos as int, tm@, opt_names(bound_type_vars))
                == Some((t@, final(self).pos as int)),
        decreases old(self).remaining(), 2nat,
    {
        let ghost p0 = *self;
        let ghost ts = self.tokens@;
        let ghost bvs = opt_names(bound_type_vars);
        let mut left = self.parse_type_expression_primary(tm, bound_type_vars)?;
        proof {
            assert(ty_expr(ts, p0.pos as int, tm@, bvs) == ty_loop(ts, self.pos as int, left@, tm@, bvs));
        }
        loop
            invariant
                self.ready(),
                self.tokens == p0.tokens,
                self.type_assignment_map == p0.type_assignment_map,
                ts == p0.tokens@,
                self.bound == p0.bound,
                self.type_assignment_map == p0.type_assignment_map,
                self.remaining() < p0.remaining(),
                bvs == opt_names(bound_type_vars),
                ty_expr(ts, p0.pos as int, tm@, bvs) == ty_loop(ts, self.pos as int, left@, tm@, bvs),
            decreases self.remaining(),
        {
            let ghost j = self.pos as int;
            let tt = self.peek_tt(0);
            if tt == TokenType::RArrow {
                self.advance();
                let right = self.parse_type_expression(tm, bound_type_vars)?;
                left = Type::Function(Box::new(left), Box::new(right));
            } else if tt == TokenType::Comma {
                self.advance();
                let right = self.parse_type_expression(tm, bound_type_vars)?;
                left = Type::pr(left, right);
            } else if tt == TokenType::UppercaseId || tt == TokenType::Id || tt == TokenType::LParen {
                if tt == TokenType::Id && self.peek_tt(1) == TokenType::DoubleColon {
                    return Ok(left);
                }
                let t2 = self.parse_type_expression_primary(tm, bound_type_vars)?;
                left = match left.type_app(&t2) {
                    Ok(t) => t,
                    Err(e) => return Err(self.parse_error(e)),
                };
            } else if tt == TokenType::RParen || tt == TokenType::Newline || tt == TokenType::EOF
                || tt == TokenType::Dot || tt == TokenType::LBrace {
                return Ok(left);
            } else {
                let tk = self.peek(0);
                return Err(self.error_with("Unexpected token in type expression: ", &tk.value));
            }
        }
    }

    #[verifier::loop_isolation(false)]
    fn parse_type_expression_primary(&mut self, tm: &TypeMap, bound_type_vars: Option<&Vec<String>>) -> (r: Result<Type, ParserError>)
        requires
            old(self).ready(),
        ensures
            final(self).ready(),
            final(self).tokens == old(self).tokens,
            final(self).bound == old(self).bound,
            final(self).type_assignment_map == old(self).type_assignment_map,
            final(self).remaining() <= old(self).remaining(),
            r is Ok ==> final(self).remaining() < old(self).remaining(),
            r is Ok <==> ty_primary(old(self).tokens@, old(self).pos as int, tm@, opt_names(bound_type_vars)) is Some,
            r matches Ok(t) ==> ty_primary(old(self).tokens@, old(self).pos as int, tm@, opt_names(bound_type_vars))
                == Some((t@, final(self).pos as int)),
        decreases old(self).remaining(), 1nat,
    {
        let ghost ts = self.tokens@;
        let ghost i = self.pos as int;
        let t = self.consume();
        if t.tt == TokenType::Id {
            match bound_type_vars {
                None => Ok(Type::TypeVariable(t.value)),
                Some(vars) => {
                    if names_contain(vars, &t.value) {
                        proof {
                            let w = choose|w: int| 0 <= w < vars@.len() && vars@[w]@ == t.value@;
                            assert(crate::types::names(vars@)[w] == t.value@);
                        }
                        Ok(Type::TypeVariable(t.value))
                    } else {
                        proof {
                            if crate::types::names(vars@).contains(t.value@) {
                                let w = choose|w: int| 0 <= w < crate::types::names(vars@).len() && crate::types::names(vars@)[w] == t.value@;
                                assert(vars@[w]@ == t.value@);
                            }
                        }
                        let mut e = lit("Type variable ");
                        push_str(&mut e, t.value.as_str());
                        push_str(&mut e, " is not bound");
                        Err(self.parse_error(e))
                    }
                },
            }
        } else if t.tt == TokenType::UppercaseId {
            match tm.get(&t.value) {
                Some(found) => Ok(found.deep_clone()),
                None => {
                    let mut e = lit("Type ");
                    push_str(&mut e, t.value.as_str());
                    push_str(&mut e, " is not defined");
                    Err(self.parse_error(e))
                },
            }
        } else if t.tt == TokenType::LParen {
            let inner = self.parse_type_expression(tm, bound_type_vars)?;
            self.advance();
            Ok(inner)
        } else {
            Err(self.error_with("Unexpected token in type expression primary: ", &t.value))
        }
    }
}

/// The names a list of bound type variables admits, when there is one.
pub open spec fn opt_names(bvs: Option<&Vec<String>>) -> Option<Seq<Seq<char>>> {
    match bvs {
        None => None,
        Some(v) => Some(crate::types::names(v@)),
    }
}

impl Parser {
    /// A type annotation, quantified over its type variables in alphabetical order.
    #[verifier::loop_isolation(false)]
    fn parse_type_annotation(&mut self, tm: &TypeMap) -> (r: Result<Type, ParserError>)
        requires
            old(self).ready(),
        ensures
            final(self).ready(),
            final(self).tokens == old(self).tokens,
            final(self).bound == old(self).bound,
            final(self).type_assignment_map == old(self).type_assignment_map,
            final(self).remaining() <= old(self).remaining(),
            r is Ok ==> final(self).remaining() < old(self).remaining(),
            r is Ok <==> ty_expr(old(self).tokens@, old(self).pos as int, tm@, None) is Some,
            r matches Ok(ty) ==> ty_expr(old(self).tokens@, old(self).pos as int, tm@, None) matches Some((u, k))
                && k == final(self).pos && annotated(ty@, u),
    {
        let assigned_type = self.parse_type_expression(tm, None)?;
        let mut sorted_tvs = assigned_type.get_tvs_set();
        let ghost l = sorted_tvs@;
        sort_strings(&mut sorted_tvs);
        proof { lemma_annotated(l, sorted_tvs@, assigned_type@); }
        Ok(Type::fa(sorted_tvs, assigned_type))
    }

    /// `name :: type`, recorded for the assignment to `name` that follows.
    #[verifier::loop_isolation(false)]
    fn parse_type_assignment(&mut self, tm: &TypeMap) -> (r: Result<(), ParserError>)
        requires
            old(self).ready(),
            old(self).peek_spec(0) == TokenType::Id,
        ensures
            final(self).ready(),
            final(self).tokens == old(self).tokens,
            final(self).bound == old(self).bound,
            final(self).remaining() <= old(self).remaining(),
            r is Ok ==> final(self).remaining() < old(self).remaining(),
            ({
                let ts = old(self).tokens@;
                let name = val_at(ts, old(self).pos as int);
                let j = adv(ts, adv(ts, old(self).pos as int));
                &&& r is Ok <==> (forall|y: int| 0 <= y < old(self).type_assignment_map@.len() ==> old(self).type_assignment_map@[y].0@ != name)
                    && ty_expr(ts, j, tm@, None) is Some
                &&& r is Ok ==> (final(self).type_assignment_map@.drop_last() == old(self).type_assignment_map@
                    && final(self).type_assignment_map@.len() == old(self).type_assignment_map@.len() + 1
                    && final(self).type_assignment_map@.last().0@ == name
                    && (ty_expr(ts, j, tm@, None) matches Some((u, k))
                    && k == final(self).pos
                    && annotated(final(self).type_assignment_map@.last().1@, u)))
                &&& r is Err ==> final(self).type_assignment_map == old(self).type_assignment_map
                &&& r is Ok ==> tam_lookup(named_types(old(self).type_assignment_map@), name) is None
                &&& tam_lookup(named_types(old(self).type_assignment_map@), name) is Some ==> r is Err
                &&& tam_lookup(named_types(old(self).type_assignment_map@), name) is None ==> forall|y: int|
                    0 <= y < old(self).type_assignment_map@.len() ==> old(self).type_assignment_map@[y].0@ != name
            }),
    {
        let name = self.peek(0).value;
        let ghost nt = named_types(self.type_assignment_map@);
        let found = find_typed(&self.type_assignment_map, &name);
        proof {
            match found {
                Some(i) => { lemma_tam_lookup(nt, name@, i as int); },
                None => { lemma_tam_lookup(nt, name@, nt.len() as int); },
            }
        }
        if found.is_some() {
            return Err(self.error_with("Type already assigned: ", &name));
        }
        self.advance();
        self.advance();
        let assigned_type = self.parse_type_annotation(tm)?;
        let ghost tam0 = self.type_assignment_map@;
        self.type_assignment_map.push((name, assigned_type));
        proof { assert(self.type_assignment_map@.drop_last() =~= tam0); }
        Ok(())
    }

    /// The type recorded for `name`.
    pub fn get_type_assignment(&self, name: &String) -> (r: Result<Type, ParserError>)
        ensures
            r matches Ok(t) ==> exists|i: int| 0 <= i < self.type_assignment_map@.len()
                && self.type_assignment_map@[i].0@ == name@ && self.type_assignment_map@[i].1@ == t@,
            r is Err ==> forall|i: int| 0 <= i < self.type_assignment_map@.len() ==> self.type_assignment_map@[i].0@ != name@,
            r is Ok <==> tam_lookup(named_types(self.type_assignment_map@), name@) is Some,
            r matches Ok(t) ==> tam_lookup(named_types(self.type_assignment_map@), name@) == Some(t@),
    {
        let ghost nt = named_types(self.type_assignment_map@);
        match find_typed(&self.type_assignment_map, name) {
            Some(i) => {
                proof { lemma_tam_lookup(nt, name@, i as int); }
                Ok(self.type_assignment_map[i].1.deep_clone())
            },
            None => {
                proof { lemma_tam_lookup(nt, name@, nt.len() as int); }
                Err(self.error_with("Type not assigned: ", name))
            },
        }
    }

    /// `name = expression`, or `name x y = expression` (sugar for abstractions), possibly
    /// after `@`; the name must not be bound yet, and stays bound; see `e_assign`. The
    /// assignment records the type declared for the name, if one was.
    #[verifier::loop_isolation(false)]
    #[verifier::rlimit(40)]
    fn parse_assignment(&mut self, ast: &mut AST, tm: &TypeMap) -> (r: Result<usize, ParserError>)
        requires
            old(self).ready(),
            old(ast).wf(),
        ensures
            step(old(self), final(self), old(ast), final(ast)),
            r matches Ok(a) ==> (a as int) < final(ast).vec@.len() && final(ast).vec@[a as int].t == ASTNodeType::Assignment
                && final(self).remaining() < old(self).remaining(),
            r is Ok <==> e_assign(old(self).tokens@, old(self).pos as int, old(self).bound@, tm@) is Some,
            r matches Ok(a) ==> e_assign(old(self).tokens@, old(self).pos as int, old(self).bound@, tm@) matches Some((name, x, silent, k))
                && final(self).bound@ == old(self).bound@.insert(name)
                && final(self).pos == k
                && final(ast).vec@[a as int].children@.len() == 2
                && term(final(ast), final(ast).child(a as int, 0) as int) == Term::Id(TokenType::Id, name)
                && term(final(ast), final(ast).child(a as int, 1) as int) == x
                && final(ast).vec@[a as int].is_silent == silent
                && (final(ast).vec@[a as int].type_assignment matches Some(t) ==> exists|i: int| 0 <= i < old(self).type_assignment_map@.len()
                    && old(self).type_assignment_map@[i].0@ == name && old(self).type_assignment_map@[i].1@ == t@)
                && (final(ast).vec@[a as int].type_assignment is None ==> forall|i: int| 0 <= i < old(self).type_assignment_map@.len()
                    ==> old(self).type_assignment_map@[i].0@ != name)
                && opt_type_view(final(ast).vec@[a as int].type_assignment) == tam_lookup(named_types(old(self).type_assignment_map@), name),
    {
        let ghost a0 = *ast;
        let ghost ts = self.tokens@;
        let ghost b = self.bound@;
        let ghost tmv = tm@;
        let mut ass_tk = self.peek(0);
        let is_silent = ass_tk.tt == TokenType::Silence;
        if is_silent {
            self.advance();
            ass_tk = self.peek(0);
            if ass_tk.tt != TokenType::Id {
                return Err(self.parse_error(lit("Expected id after silence operator in assignment")));
            }
        }
        if ass_tk.tt != TokenType::Id {
            return Err(self.error_with("Expected a name to assign to, got: ", &ass_tk.value));
        }
        let name = ass_tk.value.clone();
        if self.is_bound(&name) {
            return Err(self.error_with("Variable already assigned: ", &name));
        }
        self.bind(name.clone());
        self.advance();
        let tt = self.peek_tt(0);
        let expr = if tt == TokenType::Assignment {
            self.advance();
            self.parse_expression(ast, tm)?
        } else if tt == TokenType::Id || tt == TokenType::LParen {
            self.parse_abstraction(ast, true, tm)?
        } else {
            let tk = self.peek(0);
            return Err(self.error_with("Unexpected token in assignment: ", &tk.value));
        };
        let ghost a3 = *ast;
        let (line, col) = self.position();
        let id = ast.add_id(ass_tk, line, col);
        let ghost a4 = *ast;
        let type_assignment = match self.get_type_assignment(&name) {
            Ok(t) => Some(t),
            Err(_) => None,
        };
        let a = ast.add_assignment(id, expr, line, col, type_assignment, is_silent);
        proof {
            lemma_two_kept(&a3, &a4, ast, expr as int, id as int);
            lemma_kinds_kept_trans(&a0, &a3, ast);
            lemma_shape_kept_trans(&a0, &a3, &a4);
            lemma_shape_kept_trans(&a0, &a4, ast);
        }
        Ok(a)
    }

    /// `type Name = type`; returns the name and the type.
    #[verifier::loop_isolation(false)]
    fn parse_type_alias_decl(&mut self, tm: &TypeMap) -> (r: Result<(String, Type), ParserError>)
        requires
            old(self).ready(),
        ensures
            final(self).ready(),
            final(self).tokens == old(self).tokens,
            final(self).remaining() <= old(self).remaining(),
            r is Ok ==> final(self).remaining() < old(self).remaining(),
            final(self).bound == old(self).bound,
            final(self).type_assignment_map == old(self).type_assignment_map,
            ({
                let ts = old(self).tokens@;
                let i1 = adv(ts, old(self).pos as int);
                let i2 = adv(ts, i1);
                let i3 = adv(ts, i2);
                &&& r is Ok <==> tt_at(ts, old(self).pos as int) == TokenType::KWType && tt_at(ts, i1) == TokenType::UppercaseId
                    && tt_at(ts, i2) == TokenType::Assignment && ty_expr(ts, i3, tm@, Some(Seq::<Seq<char>>::empty())) is Some
                &&& r matches Ok((n, t)) ==> n@ == val_at(ts, i1) && ty_expr(ts, i3, tm@, Some(Seq::<Seq<char>>::empty()))
                    == Some((t@, final(self).pos as int))
            }),
    {
        let kw = self.consume();
        if kw.tt != TokenType::KWType {
            return Err(self.parse_error(lit("Expected the keyword type")));
        }
        let t = self.consume();
        let name = if t.tt == TokenType::UppercaseId {
            t.value
        } else if t.tt == TokenType::Id {
            return Err(self.error_with("Type IDs must begin with a capital letter. Got ", &t.value));
        } else {
            return Err(self.error_with("Expected type ID after type assignment, got ", &t.value));
        };
        let t = self.consume();
        if t.tt != TokenType::Assignment {
            return Err(self.error_with("Expected \"=\" after type assignment, got ", &t.value));
        }
        let empty: Vec<String> = Vec::new();
        proof { assert(crate::types::names(empty@) =~= Seq::<Seq<char>>::empty()); }
        let ty = self.parse_type_expression(tm, Some(&empty))?;
        Ok((name, ty))
    }

    /// One constructor of a data declaration: its name and the types of its fields.
    #[verifier::loop_isolation(false)]
    fn parse_constructor(&mut self, tm: &TypeMap, bound_type_vars: &Vec<String>) -> (r: Result<(String, Vec<Type>), ParserError>)
        requires
            old(self).ready(),
        ensures
            final(self).ready(),
            final(self).tokens == old(self).tokens,
            final(self).bound == old(self).bound,
            final(self).type_assignment_map == old(self).type_assignment_map,
            final(self).remaining() <= old(self).remaining(),
            r is Ok ==> final(self).remaining() < old(self).remaining(),
            r is Ok <==> c_ctor(old(self).tokens@, old(self).pos as int, names(bound_type_vars@), tm@) is Some,
            r matches Ok((n, fs)) ==> c_ctor(old(self).tokens@, old(self).pos as int, names(bound_type_vars@), tm@)
                == Some((n@, views(fs@), final(self).pos as int)),
    {
        let ghost p0 = *self;
        let ghost ts = self.tokens@;
        let ghost ps = names(bound_type_vars@);
        let ghost tmv = tm@;
        let t = self.consume();
        if t.tt != TokenType::UppercaseId {
            return Err(self.error_with("Expected varient name, got ", &t.value));
        }
        let constructor_name = t.value;
        let mut constructor_params: Vec<Type> = Vec::new();
        proof { assert(views(constructor_params@) =~= Seq::<TypeV>::empty()); }
        loop
            invariant
                self.ready(),
                self.tokens == p0.tokens,
                self.type_assignment_map == p0.type_assignment_map,
                self.bound == p0.bound,
                self.remaining() < p0.remaining(),
                ts == p0.tokens@,
                constructor_name@ == val_at(ts, p0.pos as int),
                tt_at(ts, p0.pos as int) == TokenType::UppercaseId,
                c_ctor(ts, p0.pos as int, ps, tmv) == match c_fields(ts, self.pos as int, ps, tmv, views(constructor_params@)) {
                    Some((fs, k)) => Some((val_at(ts, p0.pos as int), fs, k)),
                    None => None,
                },
            decreases self.remaining(),
        {
            let ghost j = self.pos as int;
            let ghost cp0 = views(constructor_params@);
            let t = self.peek(0);
            if t.tt == TokenType::Id {
                self.advance();
                if names_contain(bound_type_vars, &t.value) {
                    constructor_params.push(Type::TypeVariable(t.value));
                    proof {
                        let i = choose|i: int| 0 <= i < bound_type_vars@.len() && bound_type_vars@[i]@ == val_at(ts, j);
                        assert(ps[i] == val_at(ts, j));
                        assert(views(constructor_params@) =~= cp0.push(TypeV::TypeVariable(val_at(ts, j))));
                    }
                } else {
                    proof {
                        if ps.contains(val_at(ts, j)) {
                            let i = choose|i: int| 0 <= i < ps.len() && ps[i] == val_at(ts, j);
                            assert(bound_type_vars@[i]@ == val_at(ts, j));
                        }
                    }
                    return Err(self.error_with("Unbound type parameter: ", &t.value));
                }
            } else if t.tt == TokenType::UppercaseId {
                self.advance();
                match tm.get(&t.value) {
                    Some(found) => {
                        constructor_params.push(found.deep_clone());
                        proof { assert(views(constructor_params@) =~= cp0.push(found@)); }
                    },
                    None => { return Err(self.error_with("Unbound type parameter: ", &t.value)); },
                }
            } else if t.tt == TokenType::LParen {
                self.advance();
                let ty = self.parse_type_expression(tm, Some(bound_type_vars))?;
                let ghost tyv = ty@;
                constructor_params.push(ty);
                proof { assert(views(constructor_params@) =~= cp0.push(tyv)); }
                let close = self.consume();
                if close.tt != TokenType::RParen {
                    return Err(self.parse_error(lit("Expected \")\" after a constructor's field type")));
                }
            } else {
                return Ok((constructor_name, constructor_params));
            }
        }
    }

    /// The constructors of a data declaration, each with its type: the fields' types
    /// arrowing to the declared type, quantified over the declaration's parameters.
    #[verifier::loop_isolation(false)]
    fn parse_multiple_constructors(&mut self, tm: &TypeMap, params: &Vec<String>, union_type: &Type) -> (r: Result<Vec<(String, Type)>, ParserError>)
        requires
            old(self).ready(),
        ensures
            final(self).ready(),
            final(self).tokens == old(self).tokens,
            final(self).bound == old(self).bound,
            final(self).type_assignment_map == old(self).type_assignment_map,
            final(self).remaining() <= old(self).remaining(),
            r is Ok <==> mc_loop(old(self).tokens@, old(self).pos as int, names(params@), union_type@, tm@, Seq::empty()) is Some,
            r matches Ok(cs) ==> mc_loop(old(self).tokens@, old(self).pos as int, names(params@), union_type@, tm@, Seq::empty())
                == Some((named_types(cs@), final(self).pos as int)),
    {
        let ghost p0 = *self;
        let ghost ts = self.tokens@;
        let ghost pss = names(params@);
        let ghost u = union_type@;
        let ghost tmv = tm@;
        let mut constructors: Vec<(String, Type)> = Vec::new();
        proof { assert(named_types(constructors@) =~= Seq::<(Seq<char>, TypeV)>::empty()); }
        loop
            invariant
                self.ready(),
                self.tokens == p0.tokens,
                self.bound == p0.bound,
                self.type_assignment_map == p0.type_assignment_map,
                self.remaining() <= p0.remaining(),
                ts == p0.tokens@,
                mc_loop(ts, p0.pos as int, pss, u, tmv, Seq::empty()) == mc_loop(ts, self.pos as int, pss, u, tmv, named_types(constructors@)),
                forall|x: int, y: int| 0 <= x < y < constructors@.len() ==> constructors@[x].0@ != constructors@[y].0@,
            decreases self.remaining(),
        {
            let ghost j0 = self.pos as int;
            let ghost cs0 = named_types(constructors@);
            let t = self.peek(0);
            if t.tt == TokenType::UppercaseId {
                let (constructor_name, constructor_params) = self.parse_constructor(tm, params)?;
                let ghost fs = views(constructor_params@);
                let mut constructor_type = union_type.deep_clone();
                let mut k = constructor_params.len();
                proof { assert(fs.subrange(fs.len() as int, fs.len() as int) =~= Seq::<TypeV>::empty()); }
                while k > 0
                    invariant
                        k <= constructor_params@.len(),
                        fs == views(constructor_params@),
                        constructor_type@ == arrows(fs.subrange(k as int, fs.len() as int), u),
                    decreases k,
                {
                    constructor_type = Type::f(constructor_params[k - 1].deep_clone(), constructor_type);
                    proof {
                        let sub = fs.subrange(k - 1, fs.len() as int);
                        assert(sub.drop_first() =~= fs.subrange(k as int, fs.len() as int));
                        assert(sub[0] == constructor_params@[k - 1]@);
                    }
                    k = k - 1;
                }
                proof { assert(fs.subrange(0, fs.len() as int) =~= fs); }
                let mut ps: Vec<String> = Vec::new();
                let mut j: usize = 0;
                while j < params.len()
                    invariant
                        j <= params@.len(),
                        ps@ == params@.take(j as int),
                    decreases params@.len() - j,
                {
                    ps.push(params[j].clone());
                    j = j + 1;
                    proof { assert(ps@ =~= params@.take(j as int)); }
                }
                proof { assert(params@.take(params@.len() as int) =~= params@); }
                constructor_type = Type::fa(ps, constructor_type);
                let ghost ct = constructor_type@;
                let ghost cn = constructor_name@;
                match find_typed(&constructors, &constructor_name) {
                    Some(p) => {
                        constructors.set(p, (constructor_name, constructor_type));
                        proof {
                            assert(cs0[p as int].0 == cn);
                            let x = choose|x: int| 0 <= x < cs0.len() && cs0[x].0 == cn;
                            if x != p as int {
                                if x < p as int {
                                    assert(cs0[x].0 != cs0[p as int].0);
                                } else {
                                    assert(cs0[p as int].0 != cs0[x].0);
                                }
                            }
                            assert(x == p as int);
                            assert(named_types(constructors@) =~= upsert(cs0, cn, ct));
                        }
                    },
                    None => {
                        constructors.push((constructor_name, constructor_type));
                        proof {
                            assert(!exists|x: int| 0 <= x < cs0.len() && cs0[x].0 == cn);
                            assert(named_types(constructors@) =~= upsert(cs0, cn, ct));
                        }
                    },
                }
            } else if t.tt == TokenType::Bar {
                self.advance();
            } else if t.tt == TokenType::Newline || t.tt == TokenType::EOF {
                self.advance();
                return Ok(constructors);
            } else {
                return Err(self.error_with("Unexpected token during data declaration: ", &t.value));
            }
        }
    }

    /// `data Name params = Constructor fields | ...`; declares the type in `tm` and binds
    /// the constructors, which it returns with their types.
    #[verifier::loop_isolation(false)]
    fn parse_data_decl(&mut self, tm: &mut TypeMap) -> (r: Result<Vec<(String, Type)>, ParserError>)
        requires
            old(self).ready(),
        ensures
            final(self).ready(),
            final(self).tokens == old(self).tokens,
            final(self).type_assignment_map == old(self).type_assignment_map,
            final(self).remaining() <= old(self).remaining(),
            r is Ok ==> final(self).remaining() < old(self).remaining(),
            r is Ok <==> d_data(old(self).tokens@, old(self).pos as int, old(tm)@, old(self).bound@) is Some,
            r matches Ok(cs) ==> (d_data(old(self).tokens@, old(self).pos as int, old(tm)@, old(self).bound@) matches Some((n, ps, cs2, k))
                && cs2 == named_types(cs@) && k == final(self).pos
                && final(tm)@ == old(tm)@.push((n, tv_fa(ps, data_type(n, ps))))
                && bind_names(old(self).bound@, cs2.map_values(|c: (Seq<char>, TypeV)| c.0)) == Some(final(self).bound@)),
    {
        let ghost p0 = *self;
        let ghost ts = self.tokens@;
        let ghost b0 = self.bound@;
        let ghost tm0 = tm@;
        let kw = self.consume();
        if kw.tt != TokenType::KWData {
            return Err(self.parse_error(lit("Expected the keyword data")));
        }
        let ghost i1 = self.pos as int;
        let t = self.consume();
        let name = if t.tt == TokenType::UppercaseId {
            t.value
        } else if t.tt == TokenType::Id {
            return Err(self.error_with("Type IDs must begin with a capital letter. Got ", &t.value));
        } else {
            return Err(self.error_with("Expected type ID after data keyword, got ", &t.value));
        };
        let mut tparams: Vec<String> = Vec::new();
        let ghost i2 = self.pos as int;
        let ghost mut jt: int = self.pos as int;
        let mut t = self.consume();
        proof { assert(names(tparams@) =~= Seq::<Seq<char>>::empty()); }
        while t.tt == TokenType::Id
            invariant
                self.ready(),
                self.tokens == p0.tokens,
                self.type_assignment_map == p0.type_assignment_map,
                self.bound == p0.bound,
                self.remaining() < p0.remaining(),
                t.tt == TokenType::Id ==> self.remaining() < p0.remaining(),
                ts == p0.tokens@,
                0 <= jt < ts.len(),
                t.tt == tt_at(ts, jt),
                t.value@ == val_at(ts, jt),
                self.pos == adv(ts, jt),
                d_params(ts, i2, Seq::empty()) == d_params(ts, jt, names(tparams@)),
            decreases self.remaining(),
        {
            if names_contain(&tparams, &t.value) {
                proof {
                    let i = choose|i: int| 0 <= i < tparams@.len() && tparams@[i]@ == t.value@;
                    assert(names(tparams@)[i] == val_at(ts, jt));
                }
                return Err(self.error_with("Duplicate data parameter: ", &t.value));
            }
            proof {
                if names(tparams@).contains(val_at(ts, jt)) {
                    let i = choose|i: int| 0 <= i < names(tparams@).len() && names(tparams@)[i] == val_at(ts, jt);
                    assert(tparams@[i]@ == t.value@);
                }
            }
            let ghost np = names(tparams@).push(t.value@);
            tparams.push(t.value);
            proof {
                assert(names(tparams@) =~= np);
                jt = self.pos as int;
            }
            t = self.consume();
            if t.tt == TokenType::EOF {
                break;
            }
        }
        if t.tt != TokenType::Assignment {
            return Err(self.error_with("Expected \"=\" after data keyword, got ", &t.value));
        }
        let ghost ps = names(tparams@);
        let mut vars: Vec<Type> = Vec::new();
        let mut k: usize = 0;
        while k < tparams.len()
            invariant
                k <= tparams@.len(),
                ps == names(tparams@),
                views(vars@) == Seq::new(k as nat, |x: int| TypeV::TypeVariable(ps[x])),
            decreases tparams@.len() - k,
        {
            let ghost v0 = views(vars@);
            let ghost ov = vars@;
            vars.push(Type::tv(tparams[k].clone()));
            proof {
                assert forall|x: int| 0 <= x < k implies views(vars@)[x] == v0[x] by {
                    assert(vars@[x] == ov[x]);
                }
                assert(ps[k as int] == tparams@[k as int]@);
                assert(views(vars@)[k as int] == TypeV::TypeVariable(ps[k as int]));
                let want = Seq::new((k + 1) as nat, |x: int| TypeV::TypeVariable(ps[x]));
                assert forall|x: int| 0 <= x < k + 1 implies views(vars@)[x] == want[x] by {
                    if x < k {
                        assert(v0[x] == TypeV::TypeVariable(ps[x]));
                    }
                }
                assert(views(vars@) =~= want);
            }
            k = k + 1;
        }
        let union_type = Type::Union(name.clone(), vars);
        proof {
            lemma_union_view(union_type);
            assert(union_type@ == data_type(name@, ps));
        }
        if tm.get(&name).is_some() {
            let mut e = lit("Type ");
            push_str(&mut e, name.as_str());
            push_str(&mut e, " declared more than once");
            return Err(self.parse_error(e));
        }
        let mut ps_v: Vec<String> = Vec::new();
        let mut j: usize = 0;
        while j < tparams.len()
            invariant
                j <= tparams@.len(),
                ps_v@ == tparams@.take(j as int),
            decreases tparams@.len() - j,
        {
            ps_v.push(tparams[j].clone());
            j = j + 1;
            proof { assert(ps_v@ =~= tparams@.take(j as int)); }
        }
        proof { assert(tparams@.take(tparams@.len() as int) =~= tparams@); }
        tm.insert(name.clone(), Type::fa(ps_v, union_type.deep_clone()));
        let ghost k1 = self.pos as int;
        let constructors = self.parse_multiple_constructors(tm, &tparams, &union_type)?;
        let ghost cn = named_types(constructors@).map_values(|c: (Seq<char>, TypeV)| c.0);
        let ghost pk = self.pos;
        let mut c: usize = 0;
        proof { assert(cn.take(0) =~= Seq::<Seq<char>>::empty()); }
        while c < constructors.len()
            invariant
                self.ready(),
                self.tokens == p0.tokens,
                self.type_assignment_map == p0.type_assignment_map,
                self.remaining() < p0.remaining(),
                c <= constructors@.len(),
                cn.len() == constructors@.len(),
                forall|x: int| 0 <= x < cn.len() ==> #[trigger] cn[x] == constructors@[x].0@,
                bind_names(b0, cn.take(c as int)) == Some(self.bound@),
                self.pos == pk,
            decreases constructors@.len() - c,
        {
            proof { assert(cn.take(c + 1).drop_last() =~= cn.take(c as int)); }
            if self.is_bound(&constructors[c].0) {
                proof { lemma_bind_names_none(b0, cn, (c + 1) as nat); }
                let mut e = lit("Constructor ");
                push_str(&mut e, name.as_str());
                push_str(&mut e, " declared more than once");
                return Err(self.parse_error(e));
            }
            self.bind(constructors[c].0.clone());
            c = c + 1;
        }
        proof {
            assert(cn.take(cn.len() as int) =~= cn);
            assert(cn =~= named_types(constructors@).map_values(|c: (Seq<char>, TypeV)| c.0));
            assert(i2 == adv(ts, i1));
            assert(d_params(ts, adv(ts, i1), Seq::empty()) == Some((ps, k1)));
            assert(tm_get(tm0, name@) is None);
            assert(tm@ == tm0.push((name@, tv_fa(ps, data_type(name@, ps)))));
            assert(mc_loop(ts, k1, ps, data_type(name@, ps), tm@, Seq::empty()) == Some((named_types(constructors@), self.pos as int)));
            assert(bind_names(b0, cn) == Some(self.bound@));
            assert(d_data(ts, p0.pos as int, tm0, b0) == Some((name@, ps, named_types(constructors@), self.pos as int)));
        }
        Ok(constructors)
    }
}

/// Where binding names succeeds, they are all bound after, and so is what was before.
pub proof fn lemma_bind_names_contains(b: Set<Seq<char>>, ns: Seq<Seq<char>>)
    ensures
        bind_names(b, ns) matches Some(b2) ==> b.subset_of(b2) && forall|x: int| 0 <= x < ns.len() ==> b2.contains(#[trigger] ns[x]),
    decreases ns.len(),
{
    if ns.len() > 0 {
        lemma_bind_names_contains(b, ns.drop_last());
        if let Some(b2) = bind_names(b, ns) {
            assert forall|x: int| 0 <= x < ns.len() implies b2.contains(#[trigger] ns[x]) by {
                if x < ns.len() - 1 {
                    assert(ns.drop_last()[x] == ns[x]);
                }
            }
        }
    }
}

/// The state a module starts from: what the parser has bound, the types of `tm`, the
/// types the parser has recorded for names, and nothing read yet.
pub open spec fn module_start(p: &Parser, tm: &TypeMap) -> ModuleState {
    (p.bound@, tm@, named_types(p.type_assignment_map@), Seq::empty(), Seq::empty(), false)
}

/// `l` is the label of a defined name with `a` arguments and type `t`.
pub open spec fn label_of(l: Option<Label>, a: int, t: TypeV) -> bool {
    l matches Some(x) && x.reduction_arity == a && x.inbuilt is None && x.label_type@ == t
}

/// `lt1` is `lt0` with the labels `ls` added in order.
pub open spec fn labels_added(lt0: &LabelTable, lt1: &LabelTable, ls: Seq<(Seq<char>, TypeV)>) -> bool {
    forall|a: int, n: Seq<char>| #[trigger] lt1.at(a, n) == lt1.at(a, n) && match added_at(ls, a, n) {
        Some(t) => label_of(lt1.at(a, n), a, t),
        None => lt1.at(a, n) == lt0.at(a, n),
    }
}

/// Node `x` of `a` is the assignment `e`: name, expression, whether silent, declared type.
pub open spec fn assign_is(a: &AST, x: usize, e: (Seq<char>, Term, bool, Option<TypeV>)) -> bool {
    &&& (x as int) < a.vec@.len()
    &&& a.vec@[x as int].t == ASTNodeType::Assignment
    &&& a.vec@[x as int].children@.len() == 2
    &&& term(a, a.child(x as int, 0) as int) == Term::Id(TokenType::Id, e.0)
    &&& term(a, a.child(x as int, 1) as int) == e.1
    &&& a.vec@[x as int].is_silent == e.2
    &&& opt_type_view(a.vec@[x as int].type_assignment) == e.3
}

/// `a1`'s root module holds what `a0`'s did, then the assignments `asg`.
pub open spec fn assigns_added(a0: &AST, a1: &AST, asg: Seq<(Seq<char>, Term, bool, Option<TypeV>)>) -> bool {
    let m = a0.root as int;
    let c0 = a0.vec@[m].children@;
    let c1 = a1.vec@[m].children@;
    &&& c1.len() == c0.len() + asg.len()
    &&& c1.take(c0.len() as int) == c0
    &&& forall|k: int| 0 <= k < asg.len() ==> assign_is(a1, c1[c0.len() + k], #[trigger] asg[k])
    &&& forall|k: int, e: (Seq<char>, Term, bool, Option<TypeV>)|
        #![trigger assign_is(a0, c0[k], e)]
        0 <= k < c0.len() && assign_is(a0, c0[k], e) ==> assign_is(a1, c0[k], e)
}

/// The labels of a fresh table (the inbuilt functions) with the labels `ls` added.
pub open spec fn fresh_plus(lt: &LabelTable, ls: Seq<(Seq<char>, TypeV)>) -> bool {
    forall|a: int, n: Seq<char>| #[trigger] lt.at(a, n) == lt.at(a, n) && match added_at(ls, a, n) {
        Some(t) => label_of(lt.at(a, n), a, t),
        None => (inbuilt_at(a, n) matches Some(e) ==> holds_inbuilt(lt.at(a, n), a, e)) && (inbuilt_at(a, n) is None
            ==> lt.at(a, n) is None),
    }
}

/// The labels left by `ls1` then `ls2`: those of `ls2`, and of `ls1` where `ls2` has none.
pub proof fn lemma_added_at_concat(ls1: Seq<(Seq<char>, TypeV)>, ls2: Seq<(Seq<char>, TypeV)>, a: int, n: Seq<char>)
    ensures
        added_at(ls1 + ls2, a, n) == match added_at(ls2, a, n) {
            Some(t) => Some(t),
            None => added_at(ls1, a, n),
        },
    decreases ls2.len(),
{
    if ls2.len() == 0 {
        assert(ls1 + ls2 =~= ls1);
    } else {
        assert((ls1 + ls2).drop_last() =~= ls1 + ls2.drop_last());
        assert((ls1 + ls2).last() == ls2.last());
        lemma_added_at_concat(ls1, ls2.drop_last(), a, n);
    }
}

/// Adding labels to a fresh table with labels adds them to what it holds.
pub proof fn lemma_fresh_plus(lt0: &LabelTable, lt1: &LabelTable, ls1: Seq<(Seq<char>, TypeV)>, ls2: Seq<(Seq<char>, TypeV)>)
    requires
        fresh_plus(lt0, ls1),
        labels_added(lt0, lt1, ls2),
    ensures
        fresh_plus(lt1, ls1 + ls2),
{
    assert forall|a: int, n: Seq<char>| #[trigger] lt1.at(a, n) == lt1.at(a, n) && match added_at(ls1 + ls2, a, n) {
        Some(t) => label_of(lt1.at(a, n), a, t),
        None => (inbuilt_at(a, n) matches Some(e) ==> holds_inbuilt(lt1.at(a, n), a, e)) && (inbuilt_at(a, n) is None
            ==> lt1.at(a, n) is None),
    } by {
        lemma_added_at_concat(ls1, ls2, a, n);
        assert(lt0.at(a, n) == lt0.at(a, n));
    }
}

/// The root of `ast` is a module of the assignments `asg`, in order.
pub open spec fn module_holds(ast: &AST, asg: Seq<(Seq<char>, Term, bool, Option<TypeV>)>) -> bool {
    &&& ast.root < ast.vec@.len()
    &&& ast.vec@[ast.root as int].t == ASTNodeType::Module
    &&& ast.vec@[ast.root as int].children@.len() == asg.len()
    &&& forall|k: int| 0 <= k < asg.len() ==> assign_is(ast, ast.vec@[ast.root as int].children@[k], #[trigger] asg[k])
}

/// A module of `asg1` with the assignments `asg2` added holds both.
pub proof fn lemma_module_holds(a0: &AST, a1: &AST, asg1: Seq<(Seq<char>, Term, bool, Option<TypeV>)>, asg2: Seq<(Seq<char>, Term, bool, Option<TypeV>)>)
    requires
        module_holds(a0, asg1),
        assigns_added(a0, a1, asg2),
        a1.root == a0.root,
        a1.vec@[a1.root as int].t == ASTNodeType::Module,
        a1.root < a1.vec@.len(),
    ensures
        module_holds(a1, asg1 + asg2),
{
    let m = a0.root as int;
    let c0 = a0.vec@[m].children@;
    let c1 = a1.vec@[m].children@;
    assert forall|k: int| 0 <= k < asg1.len() + asg2.len() implies assign_is(a1, c1[k], #[trigger] (asg1 + asg2)[k]) by {
        if k < asg1.len() {
            assert(assign_is(a0, c0[k], asg1[k]));
            assert(c1[k] == c1.take(c0.len() as int)[k]);
        } else {
            assert(assign_is(a1, c1[c0.len() + (k - asg1.len())], asg2[k - asg1.len()]));
        }
    }
}

/// The state the prelude starts from: the inbuilt functions bound, the types every
/// program names.
pub open spec fn prelude_start() -> ModuleState {
    (Set::new(|s: Seq<char>| is_inbuilt_name(s)), base_types(), Seq::empty(), Seq::empty(), Seq::empty(), false)
}

/// The prelude is read into the state `pst`.
pub open spec fn prelude_read(pst: ModuleState) -> bool {
    exists|ptoks: Seq<(Token, usize, usize)>| lexes(padded(PRELUDE@), 0, ptoks) && m_body(ptoks, 0, prelude_start()) == Some(pst)
}

/// Reading the prelude fails with the message `m` (in splitting it into tokens), or its
/// module does not parse.
pub open spec fn prelude_fails(m: Seq<char>) -> bool {
    ||| lex_fails(padded(PRELUDE@), 0, m)
    ||| exists|ptoks: Seq<(Token, usize, usize)>| lexes(padded(PRELUDE@), 0, ptoks) && m_body(ptoks, 0, prelude_start()) is None
}

/// `pst` is what a parse starts from: the state the prelude is read into, or (without
/// it) `no_prelude`.
pub open spec fn start_ok(with_prelude: bool, pst: ModuleState) -> bool {
    if with_prelude {
        prelude_read(pst)
    } else {
        pst == no_prelude()
    }
}

/// Where the parser of `p` starts reading: the first token, or where it stands if the
/// text was split into tokens before.
pub open spec fn start_pos(p: &Parser) -> int {
    if p.lexed {
        p.pos as int
    } else {
        0
    }
}

/// The state the module of `p` starts from after `pst`: the names `p` binds and those of
/// `pst`, the types of `pst`, the types `p` has recorded for names.
pub open spec fn own_start(p: &Parser, pst: ModuleState) -> ModuleState {
    (p.bound@.union(pst.0), pst.1, named_types(p.type_assignment_map@), Seq::empty(), Seq::empty(), false)
}

/// What a parse starts from without the prelude.
pub open spec fn no_prelude() -> ModuleState {
    (Set::empty(), base_types(), Seq::empty(), Seq::empty(), Seq::empty(), false)
}

/// An assignment node stays the assignment it is while the tree keeps its shape.
pub proof fn lemma_assign_is_shape(b: &AST, c: &AST, x: usize, e: (Seq<char>, Term, bool, Option<TypeV>))
    requires
        b.wf(),
        c.wf(),
        shape_kept(b, c),
        assign_is(b, x, e),
    ensures
        assign_is(c, x, e),
{
    assert(same_shape(b.vec@[x as int], c.vec@[x as int]));
    b.lemma_node(x as int);
    lemma_term_shape(b, c, b.child(x as int, 0) as int);
    lemma_term_shape(b, c, b.child(x as int, 1) as int);
}

/// An assignment node stays the assignment it is when only a module changes.
pub proof fn lemma_assign_is_module(b: &AST, c: &AST, m: int, x: usize, e: (Seq<char>, Term, bool, Option<TypeV>))
    requires
        b.wf(),
        c.wf(),
        0 <= m < b.vec@.len(),
        b.vec@[m].t == ASTNodeType::Module,
        c.vec@.len() == b.vec@.len(),
        forall|i: int| 0 <= i < b.vec@.len() && i != m ==> c.vec@[i] == b.vec@[i],
        c.rank == b.rank,
        assign_is(b, x, e),
    ensures
        assign_is(c, x, e),
{
    assert(x as int != m);
    b.lemma_node(x as int);
    lemma_term_module(b, c, m, b.child(x as int, 0) as int);
    lemma_term_module(b, c, m, b.child(x as int, 1) as int);
}

/// What a module body leaves: the state `st` it read, in the parser, the types, the
/// labels and the tree.
pub open spec fn module_done(st: ModuleState, main: bool, p1: &Parser, tm1: &TypeMap, lt0: &LabelTable, lt1: &LabelTable, a0: &AST, a1: &AST) -> bool {
    &&& p1.bound@ == st.0
    &&& tm1@ == st.1
    &&& named_types(p1.type_assignment_map@) == st.2
    &&& labels_added(lt0, lt1, st.3)
    &&& assigns_added(a0, a1, st.4)
    &&& main == st.5
}

/// Adding a label of type `ty` for `n` adds `(n, ty)` to the labels added.
pub proof fn lemma_labels_push(lt0: &LabelTable, lt1: &LabelTable, lt2: &LabelTable, ls: Seq<(Seq<char>, TypeV)>, n: Seq<char>, ty: Type)
    requires
        labels_added(lt0, lt1, ls),
        forall|a: int, m: Seq<char>| #[trigger] lt2.at(a, m) == if a == tv_arity(ty@) && m == n {
            Some(Label { reduction_arity: tv_arity(ty@) as usize, inbuilt: None, label_type: ty })
        } else {
            lt1.at(a, m)
        },
        tv_arity(ty@) < usize::MAX,
    ensures
        labels_added(lt0, lt2, ls.push((n, ty@))),
{
    assert(ls.push((n, ty@)).drop_last() =~= ls);
    assert forall|a: int, m: Seq<char>| #[trigger] lt2.at(a, m) == lt2.at(a, m) && match added_at(ls.push((n, ty@)), a, m) {
        Some(t) => label_of(lt2.at(a, m), a, t),
        None => lt2.at(a, m) == lt0.at(a, m),
    } by {
        assert(lt1.at(a, m) == lt1.at(a, m));
    }
}

/// The assignments of a module stay what they are while the tree keeps its shape.
pub proof fn lemma_assigns_shape(a0: &AST, b: &AST, c: &AST, asg: Seq<(Seq<char>, Term, bool, Option<TypeV>)>)
    requires
        a0.root < a0.vec@.len(),
        b.wf(),
        c.wf(),
        a0.root == b.root,
        (b.root as int) < b.vec@.len(),
        assigns_added(a0, b, asg),
        shape_kept(b, c),
    ensures
        assigns_added(a0, c, asg),
{
    let m = a0.root as int;
    assert(same_shape(b.vec@[m], c.vec@[m]));
    let c0 = a0.vec@[m].children@;
    let c1 = b.vec@[m].children@;
    assert forall|k: int| 0 <= k < asg.len() implies assign_is(c, c1[c0.len() + k], #[trigger] asg[k]) by {
        let x = c1[c0.len() + k];
        assert(assign_is(b, x, asg[k]));
        lemma_assign_is_shape(b, c, x, asg[k]);
    }
    assert forall|k: int, e: (Seq<char>, Term, bool, Option<TypeV>)|
        #![trigger assign_is(a0, c0[k], e)]
        0 <= k < c0.len() && assign_is(a0, c0[k], e) implies assign_is(c, c0[k], e) by {
        assert(assign_is(b, c0[k], e));
        lemma_assign_is_shape(b, c, c0[k], e);
    }
}

/// Adding the assignment `x` (which is `e`) to the root module of `b` gives `c`.
pub proof fn lemma_assigns_module(a0: &AST, b: &AST, c: &AST, asg: Seq<(Seq<char>, Term, bool, Option<TypeV>)>, x: usize, e: (Seq<char>, Term, bool, Option<TypeV>))
    requires
        b.wf(),
        c.wf(),
        a0.root == b.root,
        (b.root as int) < b.vec@.len(),
        b.vec@[b.root as int].t == ASTNodeType::Module,
        assigns_added(a0, b, asg),
        assign_is(b, x, e),
        c.vec@.len() == b.vec@.len(),
        c.vec@[b.root as int].children@ == b.vec@[b.root as int].children@.push(x),
        c.vec@[b.root as int].t == ASTNodeType::Module,
        forall|i: int| 0 <= i < b.vec@.len() && i != b.root ==> c.vec@[i] == b.vec@[i],
        c.rank == b.rank,
    ensures
        assigns_added(a0, c, asg.push(e)),
{
    let m = a0.root as int;
    let c0 = a0.vec@[m].children@;
    let c1 = b.vec@[m].children@;
    let c2 = c.vec@[m].children@;
    assert forall|k: int| 0 <= k < asg.len() + 1 implies assign_is(c, c2[c0.len() + k], #[trigger] asg.push(e)[k]) by {
        let y = c2[c0.len() + k];
        let ek = asg.push(e)[k];
        if k < asg.len() {
            assert(c2[c0.len() + k] == c1[c0.len() + k]);
            assert(assign_is(b, y, asg[k]));
        } else {
            assert(y == x);
        }
        assert(assign_is(b, y, ek));
        lemma_assign_is_module(b, c, m, y, ek);
    }
    assert forall|k: int, e: (Seq<char>, Term, bool, Option<TypeV>)|
        #![trigger assign_is(a0, c0[k], e)]
        0 <= k < c0.len() && assign_is(a0, c0[k], e) implies assign_is(c, c0[k], e) by {
        assert(assign_is(b, c0[k], e));
        lemma_assign_is_module(b, c, m, c0[k], e);
    }
    assert(c2.take(c0.len() as int) =~= c1.take(c0.len() as int));
}

/// Once a name fails to bind, binding more fails too.
pub proof fn lemma_bind_names_none(b: Set<Seq<char>>, ns: Seq<Seq<char>>, k: nat)
    requires
        k <= ns.len(),
        bind_names(b, ns.take(k as int)) is None,
    ensures
        bind_names(b, ns) is None,
    decreases ns.len() - k,
{
    if k < ns.len() {
        assert(ns.take((k + 1) as int).drop_last() =~= ns.take(k as int));
        lemma_bind_names_none(b, ns, k + 1);
    } else {
        assert(ns.take(k as int) =~= ns);
    }
}

/// Where `name` stands among named types.
pub fn find_typed(v: &Vec<(String, Type)>, s: &String) -> (r: Option<usize>)
    ensures
        r matches Some(x) ==> x < v@.len() && v@[x as int].0@ == s@,
        r matches Some(x) ==> forall|y: int| 0 <= y < x ==> v@[y].0@ != s@,
        r is None ==> forall|y: int| 0 <= y < v@.len() ==> v@[y].0@ != s@,
{
    let mut x: usize = 0;
    while x < v.len()
        invariant
            x <= v@.len(),
            forall|y: int| 0 <= y < x ==> v@[y].0@ != s@,
        decreases v@.len() - x,
    {
        if str_eq(&v[x].0, s) {
            return Some(x);
        }
        x = x + 1;
    }
    None
}

impl Parser {
    /// An assignment of a module (see `m_body`).
    #[verifier::loop_isolation(false)]
    #[verifier::rlimit(60)]
    fn module_assignment(
        &mut self,
        lt: &mut LabelTable,
        tm: &mut TypeMap,
        ast: &mut AST,
        main_found: &mut bool,
        Ghost(st): Ghost<ModuleState>,
        Ghost(a0): Ghost<AST>,
        Ghost(lt0): Ghost<LabelTable>,
    ) -> (r: Result<Ghost<ModuleState>, ParserError>)
        requires
            old(self).ready(),
            old(ast).wf(),
            old(lt).wf(),
            old(ast).root < old(ast).vec@.len(),
            old(ast).vec@[old(ast).root as int].t == ASTNodeType::Module,
            a0.root == old(ast).root,
            a0.root < a0.vec@.len(),
            module_done(st, *old(main_found), old(self), old(tm), &lt0, old(lt), &a0, old(ast)),
            ({
                let tt = old(self).peek_spec(0);
                let next = tt_at(old(self).tokens@, old(self).pos + 1);
                (tt == TokenType::Id || tt == TokenType::Silence) && (next == TokenType::Assignment || next == TokenType::Id
                    || next == TokenType::LParen || tt == TokenType::Silence)
            }),
        ensures
            final(ast).wf(),
            final(lt).wf(),
            final(self).ready(),
            final(self).tokens == old(self).tokens,
            final(ast).root == old(ast).root,
            final(ast).root < final(ast).vec@.len(),
            final(ast).vec@[final(ast).root as int].t == ASTNodeType::Module,
            r is Err ==> m_body(old(self).tokens@, old(self).pos as int, st) is None,
            r matches Ok(g) ==> module_done(g@, *final(main_found), final(self), final(tm), &lt0, final(lt), &a0, final(ast))
                && m_body(old(self).tokens@, old(self).pos as int, st) == m_body(old(self).tokens@, final(self).pos as int, g@)
                && final(self).remaining() < old(self).remaining(),
    {
        let ghost ts = self.tokens@;
        let ghost j = self.pos as int;
        let module = ast.root;
        let ghost a1 = *ast;
        let assignment = self.parse_assignment(ast, tm)?;
        let ghost a2 = *ast;
        let ghost ea = e_assign(ts, j, st.0, st.1)->0;
        let ass_name = ast.get_assignee(assignment);
        let ghost lt1 = *lt;
        match &ast.vec[assignment].type_assignment {
            Some(t) => {
                if t.arity_below(usize::MAX) {
                    let tc = t.deep_clone();
                    let ghost ty = tc;
                    lt.add(ass_name.clone(), tc);
                    proof { lemma_labels_push(&lt0, &lt1, lt, st.3, ass_name@, ty); }
                }
            },
            None => {},
        }
        let main_name = lit("main");
        if str_eq(&ass_name, &main_name) {
            *main_found = true;
        }
        ast.add_to_module(module, assignment);
        let ghost (n, x, sl, k) = ea;
        let ghost ty = tam_lookup(st.2, n);
        proof {
            lemma_assigns_shape(&a0, &a1, &a2, st.4);
            assert(assign_is(&a2, assignment, (n, x, sl, ty))) by {
                assert(a2.assign_name(assignment as int) == n);
            }
            lemma_assigns_module(&a0, &a2, ast, st.4, assignment, (n, x, sl, ty));
        }
        let ghost ls2 = match ty {
            Some(t) => if tv_arity(t) < usize::MAX {
                st.3.push((n, t))
            } else {
                st.3
            },
            None => st.3,
        };
        let ghost st2: ModuleState = (st.0.insert(n), st.1, st.2, ls2, st.4.push((n, x, sl, ty)), st.5 || n == "main"@);
        proof {
            assert(labels_added(&lt0, lt, ls2));
            assert(m_body(ts, j, st) == m_body(ts, self.pos as int, st2));
        }
        Ok(Ghost(st2))
    }

    /// A type declared for a name in a module (see `m_body`).
    #[verifier::loop_isolation(false)]
    #[verifier::rlimit(60)]
    fn module_type_assignment(
        &mut self,
        lt: &mut LabelTable,
        tm: &mut TypeMap,
        ast: &mut AST,
        main_found: &mut bool,
        Ghost(st): Ghost<ModuleState>,
        Ghost(a0): Ghost<AST>,
        Ghost(lt0): Ghost<LabelTable>,
    ) -> (r: Result<Ghost<ModuleState>, ParserError>)
        requires
            old(self).ready(),
            old(ast).wf(),
            old(lt).wf(),
            old(ast).root < old(ast).vec@.len(),
            old(ast).vec@[old(ast).root as int].t == ASTNodeType::Module,
            a0.root == old(ast).root,
            a0.root < a0.vec@.len(),
            module_done(st, *old(main_found), old(self), old(tm), &lt0, old(lt), &a0, old(ast)),
            old(self).peek_spec(0) == TokenType::Id,
            tt_at(old(self).tokens@, old(self).pos + 1) == TokenType::DoubleColon,
        ensures
            final(ast).wf(),
            final(lt).wf(),
            final(self).ready(),
            final(self).tokens == old(self).tokens,
            final(ast).root == old(ast).root,
            final(ast).root < final(ast).vec@.len(),
            final(ast).vec@[final(ast).root as int].t == ASTNodeType::Module,
            r is Err ==> m_body(old(self).tokens@, old(self).pos as int, st) is None,
            r matches Ok(g) ==> module_done(g@, *final(main_found), final(self), final(tm), &lt0, final(lt), &a0, final(ast))
                && m_body(old(self).tokens@, old(self).pos as int, st) == m_body(old(self).tokens@, final(self).pos as int, g@)
                && final(self).remaining() < old(self).remaining(),
    {
        let ghost ts = self.tokens@;
        let ghost j = self.pos as int;
        self.parse_type_assignment(tm)?;
        let ghost n = val_at(ts, j);
        let ghost u = (ty_expr(ts, adv(ts, adv(ts, j)), st.1, None)->0).0;
        proof {
            lemma_annotated_unique(self.type_assignment_map@.last().1@, u);
            assert(named_types(self.type_assignment_map@) =~= st.2.push((n, annot_of(u))));
        }
        let ghost st2: ModuleState = (st.0, st.1, st.2.push((n, annot_of(u))), st.3, st.4, st.5);
        proof {
            assert(m_body(ts, j, st) == m_body(ts, self.pos as int, st2));
        }
        Ok(Ghost(st2))
    }

    /// A type alias of a module (see `m_body`).
    #[verifier::loop_isolation(false)]
    #[verifier::rlimit(60)]
    fn module_alias(
        &mut self,
        lt: &mut LabelTable,
        tm: &mut TypeMap,
        ast: &mut AST,
        main_found: &mut bool,
        Ghost(st): Ghost<ModuleState>,
        Ghost(a0): Ghost<AST>,
        Ghost(lt0): Ghost<LabelTable>,
    ) -> (r: Result<Ghost<ModuleState>, ParserError>)
        requires
            old(self).ready(),
            old(ast).wf(),
            old(lt).wf(),
            old(ast).root < old(ast).vec@.len(),
            old(ast).vec@[old(ast).root as int].t == ASTNodeType::Module,
            a0.root == old(ast).root,
            a0.root < a0.vec@.len(),
            module_done(st, *old(main_found), old(self), old(tm), &lt0, old(lt), &a0, old(ast)),
            old(self).peek_spec(0) == TokenType::KWType,
        ensures
            final(ast).wf(),
            final(lt).wf(),
            final(self).ready(),
            final(self).tokens == old(self).tokens,
            final(ast).root == old(ast).root,
            final(ast).root < final(ast).vec@.len(),
            final(ast).vec@[final(ast).root as int].t == ASTNodeType::Module,
            r is Err ==> m_body(old(self).tokens@, old(self).pos as int, st) is None,
            r matches Ok(g) ==> module_done(g@, *final(main_found), final(self), final(tm), &lt0, final(lt), &a0, final(ast))
                && m_body(old(self).tokens@, old(self).pos as int, st) == m_body(old(self).tokens@, final(self).pos as int, g@)
                && final(self).remaining() < old(self).remaining(),
    {
        let ghost ts = self.tokens@;
        let ghost j = self.pos as int;
        let (decl_name, decl_type) = self.parse_type_alias_decl(tm)?;
        if tm.get(&decl_name).is_some() {
            let mut e = lit("Type ");
            push_str(&mut e, decl_name.as_str());
            push_str(&mut e, " declared more than once");
            return Err(self.parse_error(e));
        }
        let ghost dn = decl_name@;
        let ghost dt = decl_type@;
        tm.insert(decl_name.clone(), Type::Alias(decl_name, Box::new(decl_type)));
        let ghost st2: ModuleState = (st.0, st.1.push((dn, TypeV::Alias(dn, Box::new(dt)))), st.2, st.3, st.4, st.5);
        proof {
            assert(m_body(ts, j, st) == m_body(ts, self.pos as int, st2));
        }
        Ok(Ghost(st2))
    }

    /// A data declaration of a module (see `m_body`).
    #[verifier::loop_isolation(false)]
    #[verifier::rlimit(60)]
    fn module_data(
        &mut self,
        lt: &mut LabelTable,
        tm: &mut TypeMap,
        ast: &mut AST,
        main_found: &mut bool,
        Ghost(st): Ghost<ModuleState>,
        Ghost(a0): Ghost<AST>,
        Ghost(lt0): Ghost<LabelTable>,
    ) -> (r: Result<Ghost<ModuleState>, ParserError>)
        requires
            old(self).ready(),
            old(ast).wf(),
            old(lt).wf(),
            old(ast).root < old(ast).vec@.len(),
            old(ast).vec@[old(ast).root as int].t == ASTNodeType::Module,
            a0.root == old(ast).root,
            a0.root < a0.vec@.len(),
            module_done(st, *old(main_found), old(self), old(tm), &lt0, old(lt), &a0, old(ast)),
            old(self).peek_spec(0) == TokenType::KWData,
        ensures
            final(ast).wf(),
            final(lt).wf(),
            final(self).ready(),
            final(self).tokens == old(self).tokens,
            final(ast).root == old(ast).root,
            final(ast).root < final(ast).vec@.len(),
            final(ast).vec@[final(ast).root as int].t == ASTNodeType::Module,
            r is Err ==> m_body(old(self).tokens@, old(self).pos as int, st) is None,
            r matches Ok(g) ==> module_done(g@, *final(main_found), final(self), final(tm), &lt0, final(lt), &a0, final(ast))
                && m_body(old(self).tokens@, old(self).pos as int, st) == m_body(old(self).tokens@, final(self).pos as int, g@)
                && final(self).remaining() < old(self).remaining(),
    {
        let ghost ts = self.tokens@;
        let ghost j = self.pos as int;
        let constructors = self.parse_data_decl(tm)?;
        let ghost cs = named_types(constructors@);
        let ghost cn = cs.map_values(|c: (Seq<char>, TypeV)| c.0);
        let ghost ls0 = st.3;
        let ghost pj = self.pos;
        let mut c: usize = 0;
        let ghost rb = self.remaining();
        proof {
            lemma_bind_names_contains(st.0, cn);
            assert(cs.take(0) =~= Seq::<(Seq<char>, TypeV)>::empty());
            assert(ls0 + countable(cs.take(0)) =~= ls0);
        }
        while c < constructors.len()
            invariant
                self.ready(),
                lt.wf(),
                c <= constructors@.len(),
                self.remaining() == rb,
                self.pos == pj,
                self.tokens == old(self).tokens,
                self.type_assignment_map == old(self).type_assignment_map,
                cs == named_types(constructors@),
                cn == cs.map_values(|c: (Seq<char>, TypeV)| c.0),
                forall|x: int| 0 <= x < cn.len() ==> self.bound@.contains(#[trigger] cn[x]),
                labels_added(&lt0, lt, ls0 + countable(cs.take(c as int))),
                bind_names(st.0, cn) == Some(self.bound@),
            decreases constructors@.len() - c,
        {
            let ghost bb = self.bound@;
            let t = constructors[c].1.deep_clone();
            proof {
                assert(cs.take(c + 1).drop_last() =~= cs.take(c as int));
                assert(cs.take(c + 1).last() == cs[c as int]);
            }
            let ghost lt1 = *lt;
            if t.arity_below(usize::MAX) {
                let ghost ty = t;
                lt.add(constructors[c].0.clone(), t);
                proof {
                    lemma_labels_push(&lt0, &lt1, lt, ls0 + countable(cs.take(c as int)), constructors@[c as int].0@, ty);
                    assert(ls0 + countable(cs.take(c + 1)) =~= (ls0 + countable(cs.take(c as int))).push(cs[c as int]));
                }
            } else {
                proof {
                    assert(countable(cs.take(c + 1)) =~= countable(cs.take(c as int)));
                }
            }
            self.bind(constructors[c].0.clone());
            proof {
                assert(cn[c as int] == constructors@[c as int].0@);
                assert(self.bound@ =~= bb);
            }
            c = c + 1;
        }
        proof { assert(cs.take(cs.len() as int) =~= cs); }
        let ghost st2: ModuleState = (self.bound@, tm@, st.2, ls0 + countable(cs), st.4, st.5);
        proof {
            assert(m_body(ts, j, st) == m_body(ts, self.pos as int, st2));
        }
        Ok(Ghost(st2))
    }

    /// The declarations and assignments of a module, added to `ast`'s root module, `lt`
    /// and `tm`; returns whether `main` was assigned; see `m_body`.
    #[verifier::loop_isolation(false)]
    #[verifier::rlimit(60)]
    #[verifier::spinoff_prover]
    fn parse_module_body(&mut self, lt: &mut LabelTable, tm: &mut TypeMap, ast: &mut AST) -> (r: Result<bool, ParserError>)
        requires
            old(self).ready(),
            old(ast).wf(),
            old(lt).wf(),
            old(ast).root < old(ast).vec@.len(),
            old(ast).vec@[old(ast).root as int].t == ASTNodeType::Module,
        ensures
            final(ast).wf(),
            final(lt).wf(),
            final(self).ready(),
            final(self).tokens == old(self).tokens,
            final(ast).root == old(ast).root,
            final(ast).root < final(ast).vec@.len(),
            final(ast).vec@[final(ast).root as int].t == ASTNodeType::Module,
            r is Ok <==> m_body(old(self).tokens@, old(self).pos as int, module_start(old(self), old(tm))) is Some,
            r matches Ok(main) ==> (m_body(old(self).tokens@, old(self).pos as int, module_start(old(self), old(tm))) matches Some(st)
                && module_done(st, main, final(self), final(tm), old(lt), final(lt), old(ast), final(ast))),
    {
        let module = ast.root;
        let ghost p0 = *self;
        let ghost a0 = *ast;
        let ghost lt0 = *lt;
        let ghost ts = self.tokens@;
        let ghost st0 = module_start(self, tm);
        let mut st: Ghost<ModuleState> = Ghost(st0);
        let mut main_found = false;
        proof {
            let c0 = a0.vec@[module as int].children@;
            assert(c0.take(c0.len() as int) =~= c0);
        }
        loop
            invariant
                self.ready(),
                ast.wf(),
                lt.wf(),
                ast.root == module,
                module < ast.vec@.len(),
                ast.vec@[module as int].t == ASTNodeType::Module,
                a0.root == module,
                self.tokens == p0.tokens,
                ts == p0.tokens@,
                m_body(ts, p0.pos as int, st0) == m_body(ts, self.pos as int, st@),
                module_done(st@, main_found, self, tm, &lt0, lt, &a0, ast),
            decreases self.remaining(),
        {
            let tt = self.peek_tt(0);
            if tt == TokenType::Id || tt == TokenType::Silence {
                let next = self.peek_tt(1);
                if next == TokenType::Assignment || next == TokenType::Id || next == TokenType::LParen || tt == TokenType::Silence {
                    st = self.module_assignment(lt, tm, ast, &mut main_found, Ghost(st@), Ghost(a0), Ghost(lt0))?;
                } else if next == TokenType::DoubleColon {
                    st = self.module_type_assignment(lt, tm, ast, &mut main_found, Ghost(st@), Ghost(a0), Ghost(lt0))?;
                } else {
                    let tk = self.peek(1);
                    return Err(self.error_with("Unexpected Token. Expected assignment operator: =, got ", &tk.value));
                }
            } else if tt == TokenType::KWType {
                st = self.module_alias(lt, tm, ast, &mut main_found, Ghost(st@), Ghost(a0), Ghost(lt0))?;
            } else if tt == TokenType::KWData {
                st = self.module_data(lt, tm, ast, &mut main_found, Ghost(st@), Ghost(a0), Ghost(lt0))?;
            } else if tt == TokenType::Newline {
                self.advance();
            } else if tt == TokenType::EOF {
                break;
            } else {
                let tk = self.peek(0);
                return Err(self.error_with("Unexpected Token: ", &tk.value));
            }
        }
        Ok(main_found)
    }

    /// The labels, types and tree a parse starts from: those of the prelude, or just the
    /// inbuilt functions and an empty module.
    #[verifier::loop_isolation(false)]
    fn init_parser(&mut self, with_prelude: bool) -> (r: Result<(LabelTable, TypeMap, AST), ParserError>)
        requires
            old(self).wf(),
        ensures
            final(self).wf(),
            final(self).lexed == old(self).lexed,
            final(self).pos == old(self).pos,
            final(self).tokens == old(self).tokens,
            final(self).type_assignment_map == old(self).type_assignment_map,
            r matches Ok((lt, tm, ast)) ==> lt.wf() && ast.wf() && ast.root < ast.vec@.len()
                && ast.vec@[ast.root as int].t == ASTNodeType::Module,
            !with_prelude ==> (r matches Ok((lt, tm, ast)) && final(self).bound@ == old(self).bound@ && tm@ == no_prelude().1
                && fresh_plus(&lt, no_prelude().3) && module_holds(&ast, no_prelude().4)),
            with_prelude ==> (r matches Ok((lt, tm, ast)) ==> exists|pst: ModuleState| prelude_read(pst)
                && final(self).bound@ == old(self).bound@.union(pst.0) && tm@ == pst.1 && fresh_plus(&lt, pst.3)
                && module_holds(&ast, pst.4)),
            with_prelude ==> (r matches Err(e) ==> prelude_fails(e.e@)),
    {
        if with_prelude {
            let mut parser = Self::from_string(lit(PRELUDE));
            let ghost pf = parser.lexer.file@;
            let ghost pb = parser.bound@;
            proof { assert(named_types(parser.type_assignment_map@) =~= Seq::<(Seq<char>, TypeV)>::empty()); }
            parser.lex_all()?;
            let ghost ptoks = parser.tokens@;
            let mut lt = LabelTable::new();
            let ghost lt0 = lt;
            proof {
                assert forall|a: int, n: Seq<char>| #[trigger] lt.at(a, n) == lt.at(a, n) && match added_at(Seq::empty(), a, n) {
                    Some(t) => label_of(lt.at(a, n), a, t),
                    None => (inbuilt_at(a, n) matches Some(e) ==> holds_inbuilt(lt.at(a, n), a, e)) && (inbuilt_at(a, n) is None
                        ==> lt.at(a, n) is None),
                } by {}
            }
            let mut tm = TypeMap::new();
            let mut ast = AST::new();
            let module = ast.add_module(Vec::new(), 0, 0);
            ast.root = module;
            let ghost ast0 = ast;
            proof { assert(module_holds(&ast0, Seq::empty())); }
            let ghost pre = parser;
            let ghost tm0 = tm;
            proof {
                assert(pre.bound@ == pb);
                assert(module_start(&pre, &tm0) == prelude_start());
                assert(lexes(padded(PRELUDE@), 0, ptoks));
                assert(pre.pos == 0);
            }
            match parser.parse_module_body(&mut lt, &mut tm, &mut ast) {
                Ok(_) => {},
                Err(e) => {
                    return Err(e);
                },
            }
            let ghost b1 = self.bound@;
            self.add_bindings_from(&parser);
            proof {
                let st = m_body(ptoks, 0, prelude_start())->0;
                lemma_fresh_plus(&lt0, &lt, Seq::empty(), st.3);
                assert(Seq::<(Seq<char>, TypeV)>::empty() + st.3 =~= st.3);
                lemma_module_holds(&ast0, &ast, Seq::empty(), st.4);
                assert(Seq::<(Seq<char>, Term, bool, Option<TypeV>)>::empty() + st.4 =~= st.4);
                assert(prelude_read(st));
            }
            Ok((lt, tm, ast))
        } else {
            let mut ast = AST::new();
            let module = ast.add_module(Vec::new(), 0, 0);
            ast.root = module;
            let lt = LabelTable::new();
            proof {
                assert forall|a: int, n: Seq<char>| #[trigger] lt.at(a, n) == lt.at(a, n) && match added_at(Seq::empty(), a, n) {
                    Some(t) => label_of(lt.at(a, n), a, t),
                    None => (inbuilt_at(a, n) matches Some(e) ==> holds_inbuilt(lt.at(a, n), a, e)) && (inbuilt_at(a, n) is None
                        ==> lt.at(a, n) is None),
                } by {}
            }
            Ok((lt, TypeMap::new(), ast))
        }
    }

    /// Parses the text as a module. With the prelude, the module starts with its
    /// definitions.
    #[verifier::loop_isolation(false)]
    pub fn parse_module(&mut self, with_prelude: bool) -> (r: Result<ParseResult, ParserError>)
        requires
            old(self).wf(),
        ensures
            r matches Ok(pr) ==> pr.ast.wf() && pr.lt.wf() && pr.ast.root < pr.ast.vec@.len()
                && pr.ast.vec@[pr.ast.root as int].t == ASTNodeType::Module,
            !old(self).lexed && final(self).lexed ==> lexes(old(self).lexer.file@, old(self).lexer.i as int, final(self).tokens@),
            !final(self).lexed ==> (r matches Err(e) && lex_fails(old(self).lexer.file@, old(self).lexer.i as int, e.e@)),
            r matches Ok(pr) ==> final(self).lexed && exists|pst: ModuleState| #[trigger] start_ok(with_prelude, pst)
                && (m_body(final(self).tokens@, start_pos(old(self)), own_start(old(self), pst)) matches Some(st)
                && final(self).bound@ == st.0 && pr.tm@ == st.1 && named_types(final(self).type_assignment_map@) == st.2
                && fresh_plus(&pr.lt, pst.3 + st.3) && module_holds(&pr.ast, pst.4 + st.4)),
            final(self).lexed ==> (r matches Err(e) ==> (with_prelude && prelude_fails(e.e@)) || exists|pst: ModuleState|
                #[trigger] start_ok(with_prelude, pst) && m_body(final(self).tokens@, start_pos(old(self)), own_start(old(self), pst)) is None),
    {
        let ghost b0 = self.bound@;
        let ghost tam0 = named_types(self.type_assignment_map@);
        self.lex_all()?;
        let ghost j0 = self.pos as int;
        let (mut lt, mut tm, mut ast) = self.init_parser(with_prelude)?;
        let ghost pst: ModuleState = if with_prelude {
            choose|pst: ModuleState| prelude_read(pst) && self.bound@ == b0.union(pst.0) && tm@ == pst.1
                && fresh_plus(&lt, pst.3) && module_holds(&ast, pst.4)
        } else {
            no_prelude()
        };
        proof {
            if !with_prelude {
                assert(b0.union(pst.0) =~= b0);
            }
            assert(module_start(self, &tm) == (b0.union(pst.0), pst.1, tam0, Seq::<(Seq<char>, TypeV)>::empty(),
                Seq::<(Seq<char>, Term, bool, Option<TypeV>)>::empty(), false));
        }
        let ghost lt1 = lt;
        let ghost ast1 = ast;
        let ghost p1 = *self;
        let ghost tm1 = tm;
        match self.parse_module_body(&mut lt, &mut tm, &mut ast) {
            Ok(_) => {},
            Err(e) => {
                proof {
                    assert(j0 == if old(self).lexed { old(self).pos as int } else { 0 });
                    assert(if with_prelude { prelude_read(pst) } else { pst == no_prelude() });
                    assert(m_body(self.tokens@, j0, (b0.union(pst.0), pst.1, tam0, Seq::empty(), Seq::empty(), false)) is None);
                    assert(start_ok(with_prelude, pst));
                    assert(own_start(old(self), pst) == (b0.union(pst.0), pst.1, tam0, Seq::<(Seq<char>, TypeV)>::empty(),
                        Seq::<(Seq<char>, Term, bool, Option<TypeV>)>::empty(), false));
                }
                return Err(e);
            },
        }
        proof {
            assert(j0 == if old(self).lexed { old(self).pos as int } else { 0 });
            let st = m_body(p1.tokens@, j0, module_start(&p1, &tm1))->0;
            lemma_fresh_plus(&lt1, &lt, pst.3, st.3);
            lemma_module_holds(&ast1, &ast, pst.4, st.4);
            assert(start_ok(with_prelude, pst));
            assert(own_start(old(self), pst) == (b0.union(pst.0), pst.1, tam0, Seq::<(Seq<char>, TypeV)>::empty(),
                Seq::<(Seq<char>, Term, bool, Option<TypeV>)>::empty(), false));
        }
        Ok(ParseResult { ast, lt, tm })
    }

    /// Parses the text as one expression, which becomes the root. Without the prelude,
    /// the text is split into tokens (see `lexes`), and the expression is the one
    /// `e_expr` reads from the first token (or from where the parser stood, when the
    /// text was split before), with the names bound in the parser and the types every
    /// program can name.
    #[verifier::loop_isolation(false)]
    pub fn parse_tl_expression(&mut self, with_prelude: bool) -> (r: Result<ParseResult, ParserError>)
        requires
            old(self).wf(),
        ensures
            r matches Ok(pr) ==> pr.ast.wf() && pr.lt.wf() && pr.ast.root < pr.ast.vec@.len()
                && is_expr_kind(pr.ast.vec@[pr.ast.root as int].t),
            !old(self).lexed && final(self).lexed ==> lexes(old(self).lexer.file@, old(self).lexer.i as int, final(self).tokens@),
            !final(self).lexed ==> (r matches Err(e) && lex_fails(old(self).lexer.file@, old(self).lexer.i as int, e.e@)),
            !with_prelude && final(self).lexed ==> (r is Ok <==> e_expr(
                final(self).tokens@,
                if old(self).lexed { old(self).pos as int } else { 0 },
                old(self).bound@,
                base_types(),
            ) is Some),
            !with_prelude ==> (r matches Ok(pr) ==> pr.tm@ == base_types() && e_expr(
                final(self).tokens@,
                if old(self).lexed { old(self).pos as int } else { 0 },
                old(self).bound@,
                base_types(),
            ) == Some((term(&pr.ast, pr.ast.root as int), final(self).pos as int))),
    {
        self.lex_all()?;
        let (lt, tm, mut ast) = if with_prelude {
            self.init_parser(true)?
        } else {
            (LabelTable::new(), TypeMap::new(), AST::new())
        };
        let root = self.parse_expression(&mut ast, &tm)?;
        let ghost a1 = ast;
        ast.root = root;
        proof { lemma_term_shape(&a1, &ast, root as int); }
        Ok(ParseResult { ast, lt, tm })
    }
}

/// What is left of the names `ns`, none of them in `b`, once they are bound and unbound.
pub proof fn lemma_unbind_names(b: Set<Seq<char>>, ns: Seq<Seq<char>>)
    requires
        forall|j: int| 0 <= j < ns.len() ==> !b.contains(#[trigger] ns[j]),
    ensures
        (b + ns.to_set()) - ns.to_set() == b,
{
    assert forall|x: Seq<char>| b.contains(x) implies !ns.to_set().contains(x) by {
        if ns.contains(x) {
            let i = choose|i: int| 0 <= i < ns.len() && ns[i] == x;
            assert(!b.contains(ns[i]));
        }
    }
    assert((b + ns.to_set()) - ns.to_set() =~= b);
}

/// After a node with children `x` (of `a`) and `y` is added to `b` (which keeps the shape
/// of `a`), giving `c`, both children stand for what they did.
pub proof fn lemma_two_kept(a: &AST, b: &AST, c: &AST, x: int, y: int)
    requires
        a.wf(),
        b.wf(),
        c.wf(),
        shape_kept(a, b),
        0 <= x < a.vec@.len(),
        0 <= y < b.vec@.len(),
        c.vec@ == b.vec@.push(c.vec@[b.vec@.len() as int]),
        forall|i: int| 0 <= i < b.vec@.len() ==> c.rank@[i] == b.rank@[i],
    ensures
        shape_kept(b, c),
        term(c, x) == term(a, x),
        term(c, y) == term(b, y),
{
    lemma_term_shape(a, b, x);
    assert(shape_kept(b, c));
    lemma_term_shape(b, c, x);
    lemma_term_shape(b, c, y);
}

pub proof fn lemma_kinds_kept_trans(a: &AST, b: &AST, c: &AST)
    requires
        kinds_kept(a, b),
        kinds_kept(b, c),
    ensures
        kinds_kept(a, c),
{
    assert forall|i: int| 0 <= i < a.vec@.len() implies #[trigger] c.vec@[i].t == a.vec@[i].t by {
        assert(b.vec@[i].t == a.vec@[i].t);
    }
}

pub proof fn lemma_kinds_kept_refl(a: &AST)
    ensures
        kinds_kept(a, a),
{
}

} // verus!
