//! What the inbuilt functions compute, on literal arguments.
use vstd::prelude::*;

use crate::ast::{is_node, ASTNode, ASTNodeType, AST};
use crate::labels::{arrow, binary_type, bool_t, float_t, int_t, var_a, Inbuilt, Label};
use crate::text::{i64_to_string, int_str, lit, parse_i64, parse_i64_spec, str_eq};
use crate::token::{Token, TokenType};
use crate::types::{Type, TypeV};

verus! {

/// The value of an integer literal node, when it has one that fits in an `i64`.
pub open spec fn int_value(n: ASTNode) -> Option<i64> {
    if n.t == ASTNodeType::Literal && n.info is Some && n.info->0.tt == TokenType::IntLit {
        parse_i64_spec(n.info->0.value@)
    } else {
        None
    }
}

/// The value of a boolean literal node.
pub open spec fn bool_value(n: ASTNode) -> Option<bool> {
    if n.t == ASTNodeType::Literal && n.info is Some && n.info->0.tt == TokenType::BoolLit {
        if n.info->0.value@ == seq!['t', 'r', 'u', 'e'] {
            Some(true)
        } else {
            Some(false)
        }
    } else {
        None
    }
}

/// Division rounding toward zero, as on machine integers.
pub open spec fn trunc_div(x: int, y: int) -> int {
    let q = (if x < 0 { -x } else { x }) / (if y < 0 { -y } else { y });
    if (x < 0) != (y < 0) {
        -q
    } else {
        q
    }
}

pub open spec fn fits_i64(x: int) -> bool {
    i64::MIN <= x <= i64::MAX
}

/// The integer result of a binary integer inbuilt applied to `x` then `y`, when it is
/// defined and fits in an `i64`.
pub open spec fn int_result(op: Inbuilt, x: int, y: int) -> Option<int> {
    let r = match op {
        Inbuilt::IntAdd => Some(x + y),
        Inbuilt::IntSub => Some(x - y),
        Inbuilt::IntMul => Some(x * y),
        Inbuilt::IntDiv => if y == 0 {
            None
        } else {
            Some(trunc_div(x, y))
        },
        _ => None,
    };
    match r {
        Some(v) => if fits_i64(v) {
            Some(v)
        } else {
            None
        },
        None => None,
    }
}

/// The boolean result of an integer comparison applied to `x` then `y`.
pub open spec fn comparison_result(op: Inbuilt, x: int, y: int) -> Option<bool> {
    match op {
        Inbuilt::IntEq => Some(x == y),
        Inbuilt::IntLt => Some(x < y),
        Inbuilt::IntGt => Some(x > y),
        Inbuilt::IntLte => Some(x <= y),
        Inbuilt::IntGte => Some(x >= y),
        _ => None,
    }
}

/// `ast` is one literal node of kind `tt` spelled `s`, at the position of `call`.
pub open spec fn single_literal(ast: AST, tt: TokenType, s: Seq<char>, call: ASTNode) -> bool {
    &&& ast.wf()
    &&& ast.root == 0
    &&& ast.vec@.len() == 1
    &&& ast.vec@[0].t == ASTNodeType::Literal
    &&& ast.vec@[0].info matches Some(tk) && tk.tt == tt && tk.value@ == s
    &&& ast.vec@[0].line == call.line
    &&& ast.vec@[0].col == call.col
}

/// `ast` is `\x y. x` (when `first`) or `\x y. y`.
pub open spec fn selector(ast: AST, first: bool) -> bool {
    &&& ast.wf()
    &&& ast.root < ast.vec@.len()
    &&& ast.vec@[ast.root as int].t == ASTNodeType::Abstraction
    &&& {
        let outer = ast.vec@[ast.root as int];
        let x = outer.children@[0] as int;
        let inner = ast.vec@[outer.children@[1] as int];
        &&& inner.t == ASTNodeType::Abstraction
        &&& ast.value_of(x) == seq!['x']
        &&& ast.value_of(inner.children@[0] as int) == seq!['y']
        &&& ast.vec@[inner.children@[1] as int].t == ASTNodeType::Identifier
        &&& ast.value_of(inner.children@[1] as int) == (if first { seq!['x'] } else { seq!['y'] })
    }
}

/// The integer held by an integer literal node.
fn int_of(n: &ASTNode) -> (r: Option<i64>)
    ensures
        r == int_value(*n),
{
    if n.t == ASTNodeType::Literal {
        match &n.info {
            Some(tk) => {
                if tk.tt == TokenType::IntLit {
                    parse_i64(&tk.value)
                } else {
                    None
                }
            },
            None => None,
        }
    } else {
        None
    }
}

/// The boolean held by a boolean literal node.
fn bool_of(n: &ASTNode) -> (r: Option<bool>)
    ensures
        r == bool_value(*n),
{
    if n.t == ASTNodeType::Literal {
        match &n.info {
            Some(tk) => {
                if tk.tt == TokenType::BoolLit {
                    let t = lit("true");
                    proof {
                        reveal_strlit("true");
                        assert(t@ =~= seq!['t', 'r', 'u', 'e']);
                    }
                    Some(str_eq(&tk.value, &t))
                } else {
                    None
                }
            },
            None => None,
        }
    } else {
        None
    }
}

/// A tree of one literal node.
fn literal_tree(tt: TokenType, value: String, call: &ASTNode) -> (r: AST)
    requires
        value@.len() > 0,
    ensures
        single_literal(r, tt, value@, *call),
{
    let mut ast = AST::new();
    let tk = Token::new(tt, value);
    let n = ast.add_lit(tk, call.line, call.col);
    ast.root = n;
    ast
}

/// The tree of `\x y. x` (when `first`) or `\x y. y`.
pub fn selector_tree(first: bool, line: usize, col: usize) -> (r: AST)
    ensures
        selector(r, first),
{
    proof {
        reveal_strlit("x");
        reveal_strlit("y");
        assert("x"@ =~= seq!['x']);
        assert("y"@ =~= seq!['y']);
    }
    let mut ast = AST::new();
    let x = ast.add_id(Token::new(TokenType::Id, lit("x")), line, col);
    let y = ast.add_id(Token::new(TokenType::Id, lit("y")), line, col);
    let body = if first {
        ast.add_id(Token::new(TokenType::Id, lit("x")), line, col)
    } else {
        ast.add_id(Token::new(TokenType::Id, lit("y")), line, col)
    };
    let inner = ast.add_abstraction(y, body, line, col);
    let outer = ast.add_abstraction(x, inner, line, col);
    ast.root = outer;
    proof {
        reveal_strlit("x");
        reveal_strlit("y");
        assert("x"@ =~= seq!['x']);
        assert("y"@ =~= seq!['y']);
    }
    ast
}

/// The checked result of a binary integer inbuilt applied to `x` then `y`.
fn int_op(op: Inbuilt, x: i64, y: i64) -> (r: Option<i64>)
    ensures
        r matches Some(v) ==> int_result(op, x as int, y as int) == Some(v as int),
        r is None ==> int_result(op, x as int, y as int) is None,
{
    match op {
        Inbuilt::IntAdd => x.checked_add(y),
        Inbuilt::IntSub => x.checked_sub(y),
        Inbuilt::IntMul => x.checked_mul(y),
        Inbuilt::IntDiv => {
            if y == 0 {
                return None;
            }
            let ax: u64 = if x < 0 { (0i128 - x as i128) as u64 } else { x as u64 };
            let ay: u64 = if y < 0 { (0i128 - y as i128) as u64 } else { y as u64 };
            let q: u64 = ax / ay;
            let neg = (x < 0) != (y < 0);
            if neg {
                if q as u128 > 9223372036854775808u128 {
                    return None;
                }
                let v: i128 = 0i128 - q as i128;
                Some(v as i64)
            } else {
                if q > 9223372036854775807u64 {
                    return None;
                }
                Some(q as i64)
            }
        },
        _ => None,
    }
}

/// The checked result of an integer comparison applied to `x` then `y`.
fn comparison_op(op: Inbuilt, x: i64, y: i64) -> (r: Option<bool>)
    ensures
        r == comparison_result(op, x as int, y as int),
{
    match op {
        Inbuilt::IntEq => Some(x == y),
        Inbuilt::IntLt => Some(x < y),
        Inbuilt::IntGt => Some(x > y),
        Inbuilt::IntLte => Some(x <= y),
        Inbuilt::IntGte => Some(x >= y),
        _ => None,
    }
}

/// What an inbuilt gives on its arguments (the last argument first), or `None` where it
/// is not defined on them: arguments of the wrong kind, division by zero, results out of
/// the `i64` range, and the float inbuilts, which are computed outside the library.
pub open spec fn inbuilt_defined(op: Inbuilt, args: Seq<ASTNode>) -> bool {
    match op {
        Inbuilt::IntAdd | Inbuilt::IntSub | Inbuilt::IntMul | Inbuilt::IntDiv => args.len() == 2
            && int_value(args[0]) is Some && int_value(args[1]) is Some && int_result(
            op,
            int_value(args[1])->0 as int,
            int_value(args[0])->0 as int,
        ) is Some,
        Inbuilt::IntEq | Inbuilt::IntLt | Inbuilt::IntGt | Inbuilt::IntLte | Inbuilt::IntGte => args.len()
            == 2 && int_value(args[0]) is Some && int_value(args[1]) is Some,
        Inbuilt::IntNeg => args.len() == 1 && int_value(args[0]) is Some && fits_i64(
            -(int_value(args[0])->0 as int),
        ),
        Inbuilt::If => args.len() == 1 && bool_value(args[0]) is Some,
        Inbuilt::Id => args.len() == 1 && (args[0].t == ASTNodeType::Literal
            || args[0].t == ASTNodeType::Identifier) && args[0].info is Some
            && args[0].info->0.value@.len() > 0,
        Inbuilt::Const1 | Inbuilt::Const2 => args.len() == 0,
        _ => false,
    }
}

/// What a defined inbuilt gives.
pub open spec fn inbuilt_result(op: Inbuilt, args: Seq<ASTNode>, call: ASTNode, r: AST) -> bool {
    match op {
        Inbuilt::IntAdd | Inbuilt::IntSub | Inbuilt::IntMul | Inbuilt::IntDiv => single_literal(
            r,
            TokenType::IntLit,
            int_str(
                int_result(op, int_value(args[1])->0 as int, int_value(args[0])->0 as int)->0,
            ),
            call,
        ),
        Inbuilt::IntEq | Inbuilt::IntLt | Inbuilt::IntGt | Inbuilt::IntLte | Inbuilt::IntGte => single_literal(
            r,
            TokenType::BoolLit,
            if comparison_result(op, int_value(args[1])->0 as int, int_value(args[0])->0 as int)->0 {
                seq!['t', 'r', 'u', 'e']
            } else {
                seq!['f', 'a', 'l', 's', 'e']
            },
            call,
        ),
        Inbuilt::IntNeg => single_literal(
            r,
            TokenType::IntLit,
            int_str(-(int_value(args[0])->0 as int)),
            call,
        ),
        Inbuilt::If => selector(r, bool_value(args[0])->0),
        Inbuilt::Const1 => selector(r, true),
        Inbuilt::Const2 => selector(r, false),
        Inbuilt::Id => single_literal(r, args[0].info->0.tt, args[0].info->0.value@, args[0])
            || (r.wf() && r.root == 0 && r.vec@.len() == 1 && r.vec@[0].t == args[0].t
            && r.vec@[0].info->0.value@ == args[0].info->0.value@),
        _ => false,
    }
}

pub open spec fn nodes_of(args: Seq<&ASTNode>) -> Seq<ASTNode> {
    args.map_values(|a: &ASTNode| *a)
}

/// Runs the inbuilt `op` on its arguments (the last argument first).
pub fn eval_inbuilt(op: Inbuilt, call: &ASTNode, args: &Vec<&ASTNode>) -> (r: Option<AST>)
    ensures
        r is Some <==> inbuilt_defined(op, nodes_of(args@)),
        r matches Some(ast) ==> inbuilt_result(op, nodes_of(args@), *call, ast),
{
    let ghost a = nodes_of(args@);
    match op {
        Inbuilt::IntAdd | Inbuilt::IntSub | Inbuilt::IntMul | Inbuilt::IntDiv => {
            if args.len() != 2 {
                return None;
            }
            let x = int_of(args[1]);
            let y = int_of(args[0]);
            match (x, y) {
                (Some(x), Some(y)) => match int_op(op, x, y) {
                    Some(v) => {
                        let s = i64_to_string(v);
                        proof { lemma_int_str_nonempty(v as int); }
                        Some(literal_tree(TokenType::IntLit, s, call))
                    },
                    None => None,
                },
                _ => None,
            }
        },
        Inbuilt::IntEq | Inbuilt::IntLt | Inbuilt::IntGt | Inbuilt::IntLte | Inbuilt::IntGte => {
            if args.len() != 2 {
                return None;
            }
            let x = int_of(args[1]);
            let y = int_of(args[0]);
            match (x, y) {
                (Some(x), Some(y)) => {
                    let b = comparison_op(op, x, y).unwrap();
                    let s = if b { lit("true") } else { lit("false") };
                    proof {
                        reveal_strlit("true");
                        reveal_strlit("false");
                        assert("true"@ =~= seq!['t', 'r', 'u', 'e']);
                        assert("false"@ =~= seq!['f', 'a', 'l', 's', 'e']);
                    }
                    Some(literal_tree(TokenType::BoolLit, s, call))
                },
                _ => None,
            }
        },
        Inbuilt::IntNeg => {
            if args.len() != 1 {
                return None;
            }
            match int_of(args[0]) {
                Some(x) => {
                    if x == i64::MIN {
                        return None;
                    }
                    let v = -x;
                    let s = i64_to_string(v);
                    proof { lemma_int_str_nonempty(v as int); }
                    Some(literal_tree(TokenType::IntLit, s, call))
                },
                None => None,
            }
        },
        Inbuilt::If => {
            if args.len() != 1 {
                return None;
            }
            match bool_of(args[0]) {
                Some(b) => Some(selector_tree(b, call.line, call.col)),
                None => None,
            }
        },
        Inbuilt::Const1 => {
            if args.len() != 0 {
                return None;
            }
            Some(selector_tree(true, call.line, call.col))
        },
        Inbuilt::Const2 => {
            if args.len() != 0 {
                return None;
            }
            Some(selector_tree(false, call.line, call.col))
        },
        Inbuilt::Id => {
            if args.len() != 1 {
                return None;
            }
            let n = args[0];
            if n.t != ASTNodeType::Literal && n.t != ASTNodeType::Identifier {
                return None;
            }
            match &n.info {
                Some(tk) => {
                    if tk.value.as_str().unicode_len() == 0 {
                        return None;
                    }
                    let mut ast = AST::new();
                    let i = if n.t == ASTNodeType::Literal {
                        ast.add_lit(tk.copy(), n.line, n.col)
                    } else {
                        ast.add_id(tk.copy(), n.line, n.col)
                    };
                    ast.root = i;
                    Some(ast)
                },
                None => None,
            }
        },
        _ => None,
    }
}

pub proof fn lemma_int_str_nonempty(x: int)
    ensures
        int_str(x).len() > 0,
{
    crate::text::lemma_dec_str_nonempty(if x < 0 { -x } else { x });
}

impl Label {
    /// Whether the label is an inbuilt function.
    pub fn is_inbuilt(&self) -> (r: bool)
        ensures
            r == (self.inbuilt is Some),
    {
        self.inbuilt.is_some()
    }

    /// The label's type.
    pub fn get_type(&self) -> (r: &crate::types::Type)
        ensures
            *r == self.label_type,
    {
        &self.label_type
    }

    /// Runs the inbuilt function of this label; `None` where it is not defined on the
    /// arguments (see `eval_inbuilt`).
    pub fn try_call_inbuilt(&self, call: &ASTNode, args: &Vec<&ASTNode>) -> (r: Option<AST>)
        ensures
            r is Some <==> (self.inbuilt matches Some(op) && self.reduction_arity == args@.len()
                && inbuilt_defined(op, nodes_of(args@))),
            r matches Some(ast) ==> inbuilt_result(self.inbuilt->0, nodes_of(args@), *call, ast),
    {
        if self.reduction_arity != args.len() {
            return None;
        }
        match self.inbuilt {
            Some(op) => eval_inbuilt(op, call, args),
            None => None,
        }
    }

    /// Runs the inbuilt function of this label on arguments it is defined on.
    pub fn call_inbuilt(&self, call: &ASTNode, args: Vec<&ASTNode>) -> (r: AST)
        requires
            self.inbuilt is Some,
            self.reduction_arity == args@.len(),
            inbuilt_defined(self.inbuilt->0, nodes_of(args@)),
        ensures
            inbuilt_result(self.inbuilt->0, nodes_of(args@), *call, r),
    {
        match self.try_call_inbuilt(call, &args) {
            Some(ast) => ast,
            None => AST::new(),
        }
    }
}

/// Adds two integer literals (the second argument's value plus the first's).
pub fn inbuilt_int_add(call: &ASTNode, args: Vec<&ASTNode>) -> (r: AST)
    requires
        inbuilt_defined(Inbuilt::IntAdd, nodes_of(args@)),
    ensures
        inbuilt_result(Inbuilt::IntAdd, nodes_of(args@), *call, r),
{
    eval_inbuilt(Inbuilt::IntAdd, call, &args).unwrap()
}

/// Subtracts: the second argument's value minus the first's.
pub fn inbuilt_int_sub(call: &ASTNode, args: Vec<&ASTNode>) -> (r: AST)
    requires
        inbuilt_defined(Inbuilt::IntSub, nodes_of(args@)),
    ensures
        inbuilt_result(Inbuilt::IntSub, nodes_of(args@), *call, r),
{
    eval_inbuilt(Inbuilt::IntSub, call, &args).unwrap()
}

/// Multiplies two integer literals.
pub fn inbuilt_int_mul(call: &ASTNode, args: Vec<&ASTNode>) -> (r: AST)
    requires
        inbuilt_defined(Inbuilt::IntMul, nodes_of(args@)),
    ensures
        inbuilt_result(Inbuilt::IntMul, nodes_of(args@), *call, r),
{
    eval_inbuilt(Inbuilt::IntMul, call, &args).unwrap()
}

/// Divides (rounding toward zero): the second argument's value by the first's.
pub fn inbuilt_int_div(call: &ASTNode, args: Vec<&ASTNode>) -> (r: AST)
    requires
        inbuilt_defined(Inbuilt::IntDiv, nodes_of(args@)),
    ensures
        inbuilt_result(Inbuilt::IntDiv, nodes_of(args@), *call, r),
{
    eval_inbuilt(Inbuilt::IntDiv, call, &args).unwrap()
}

/// Negates an integer literal.
pub fn inbuilt_int_neg(call: &ASTNode, args: Vec<&ASTNode>) -> (r: AST)
    requires
        inbuilt_defined(Inbuilt::IntNeg, nodes_of(args@)),
    ensures
        inbuilt_result(Inbuilt::IntNeg, nodes_of(args@), *call, r),
{
    eval_inbuilt(Inbuilt::IntNeg, call, &args).unwrap()
}

/// Whether two integer literals are equal.
pub fn inbuilt_int_eq(call: &ASTNode, args: Vec<&ASTNode>) -> (r: AST)
    requires
        inbuilt_defined(Inbuilt::IntEq, nodes_of(args@)),
    ensures
        inbuilt_result(Inbuilt::IntEq, nodes_of(args@), *call, r),
{
    eval_inbuilt(Inbuilt::IntEq, call, &args).unwrap()
}

/// Whether the second argument's value is below the first's.
pub fn inbuilt_int_lt(call: &ASTNode, args: Vec<&ASTNode>) -> (r: AST)
    requires
        inbuilt_defined(Inbuilt::IntLt, nodes_of(args@)),
    ensures
        inbuilt_result(Inbuilt::IntLt, nodes_of(args@), *call, r),
{
    eval_inbuilt(Inbuilt::IntLt, call, &args).unwrap()
}

/// Whether the second argument's value is above the first's.
pub fn inbuilt_int_gt(call: &ASTNode, args: Vec<&ASTNode>) -> (r: AST)
    requires
        inbuilt_defined(Inbuilt::IntGt, nodes_of(args@)),
    ensures
        inbuilt_result(Inbuilt::IntGt, nodes_of(args@), *call, r),
{
    eval_inbuilt(Inbuilt::IntGt, call, &args).unwrap()
}

/// Whether the second argument's value is at most the first's.
pub fn inbuilt_int_lte(call: &ASTNode, args: Vec<&ASTNode>) -> (r: AST)
    requires
        inbuilt_defined(Inbuilt::IntLte, nodes_of(args@)),
    ensures
        inbuilt_result(Inbuilt::IntLte, nodes_of(args@), *call, r),
{
    eval_inbuilt(Inbuilt::IntLte, call, &args).unwrap()
}

/// Whether the second argument's value is at least the first's.
pub fn inbuilt_int_gte(call: &ASTNode, args: Vec<&ASTNode>) -> (r: AST)
    requires
        inbuilt_defined(Inbuilt::IntGte, nodes_of(args@)),
    ensures
        inbuilt_result(Inbuilt::IntGte, nodes_of(args@), *call, r),
{
    eval_inbuilt(Inbuilt::IntGte, call, &args).unwrap()
}

/// `if` on a boolean literal: `\x y. x` for `true`, `\x y. y` for `false`.
pub fn inbuilt_if(call: &ASTNode, args: Vec<&ASTNode>) -> (r: AST)
    requires
        inbuilt_defined(Inbuilt::If, nodes_of(args@)),
    ensures
        inbuilt_result(Inbuilt::If, nodes_of(args@), *call, r),
{
    eval_inbuilt(Inbuilt::If, call, &args).unwrap()
}

/// The literal `0`, taking no arguments.
pub fn inbuilt_int_zero(call: &ASTNode, args: Vec<&ASTNode>) -> (r: AST)
    requires
        args@.len() == 0,
    ensures
        single_literal(r, TokenType::IntLit, seq!['0'], *call),
{
    let s = lit("0");
    proof {
        reveal_strlit("0");
        assert("0"@ =~= seq!['0']);
    }
    literal_tree(TokenType::IntLit, s, call)
}

/// `ast` is `\x _. x` (when `first`) or `\_ x. x`: the selector whose ignored argument is
/// named `_`.
pub open spec fn wildcard_selector(ast: AST, first: bool) -> bool {
    &&& ast.wf()
    &&& ast.root < ast.vec@.len()
    &&& ast.vec@[ast.root as int].t == ASTNodeType::Abstraction
    &&& {
        let outer = ast.vec@[ast.root as int];
        let inner = ast.vec@[outer.children@[1] as int];
        &&& inner.t == ASTNodeType::Abstraction
        &&& ast.value_of(outer.children@[0] as int) == (if first { seq!['x'] } else { seq!['_'] })
        &&& ast.value_of(inner.children@[0] as int) == (if first { seq!['_'] } else { seq!['x'] })
        &&& ast.vec@[inner.children@[1] as int].t == ASTNodeType::Identifier
        &&& ast.value_of(inner.children@[1] as int) == seq!['x']
    }
}

/// `if` on a boolean literal, written with `_` for the argument it drops: `\x _. x` for
/// `true`, `\_ x. x` otherwise.
pub fn inbuilt_int_if(call: &ASTNode, args: Vec<&ASTNode>) -> (r: AST)
    requires
        args@.len() == 1,
        bool_value(*args@[0]) is Some,
    ensures
        wildcard_selector(r, bool_value(*args@[0])->0),
{
    let first = bool_of(args[0]).unwrap();
    proof {
        reveal_strlit("x");
        reveal_strlit("_");
        assert("x"@ =~= seq!['x']);
        assert("_"@ =~= seq!['_']);
    }
    let (a, b) = if first { ("x", "_") } else { ("_", "x") };
    let mut ast = AST::new();
    let outer_arg = ast.add_id(Token::new(TokenType::Id, lit(a)), call.line, call.col);
    let inner_arg = ast.add_id(Token::new(TokenType::Id, lit(b)), call.line, call.col);
    let body = ast.add_id(Token::new(TokenType::Id, lit("x")), call.line, call.col);
    let inner = ast.add_abstraction(inner_arg, body, call.line, call.col);
    let outer = ast.add_abstraction(outer_arg, inner, call.line, call.col);
    ast.root = outer;
    ast
}

/// The names and types of the inbuilt functions, as the type checker's first table gave
/// them; `if` has the type variable `a` free.
pub open spec fn default_inbuilt_types() -> Seq<(Seq<char>, TypeV)> {
    let int2 = arrow(int_t(), arrow(int_t(), int_t()));
    let intb = arrow(int_t(), arrow(int_t(), bool_t()));
    let float2 = arrow(float_t(), arrow(float_t(), float_t()));
    let floatb = arrow(float_t(), arrow(float_t(), bool_t()));
    seq![
        ("const"@, int2),
        ("unconst"@, int2),
        ("if"@, arrow(bool_t(), arrow(var_a(), arrow(var_a(), var_a())))),
        ("add"@, int2),
        ("sub"@, int2),
        ("mul"@, int2),
        ("div"@, int2),
        ("eq"@, intb),
        ("lte"@, intb),
        ("lt"@, intb),
        ("gte"@, intb),
        ("gt"@, intb),
        ("addf"@, float2),
        ("subf"@, float2),
        ("mulf"@, float2),
        ("divf"@, float2),
        ("eqf"@, floatb),
        ("ltef"@, floatb),
        ("ltf"@, floatb),
        ("gtef"@, floatb),
        ("gtf"@, floatb),
        ("neg"@, arrow(int_t(), int_t())),
        ("negf"@, arrow(float_t(), float_t())),
    ]
}

/// The names of the inbuilt functions with their types, as `default_inbuilt_types` lists
/// them.
pub fn get_default_inbuilt_type_map() -> (r: Vec<(String, Type)>)
    ensures
        r@.len() == default_inbuilt_types().len(),
        forall|i: int| 0 <= i < r@.len() ==> #[trigger] r@[i].0@ == default_inbuilt_types()[i].0 && r@[i].1@ == default_inbuilt_types()[i].1,
{
    let a = lit("a");
    let int2 = binary_type(Type::int64(), Type::int64());
    let intb = binary_type(Type::int64(), Type::bool());
    let float2 = binary_type(Type::float64(), Type::float64());
    let floatb = binary_type(Type::float64(), Type::bool());
    let if_type = Type::f(Type::bool(), Type::f(Type::tv(a.clone()), Type::f(Type::tv(a.clone()), Type::tv(a.clone()))));
    proof {
        reveal_strlit("a");
    }
    let r = vec![
        (lit("const"), int2.deep_clone()),
        (lit("unconst"), int2.deep_clone()),
        (lit("if"), if_type),
        (lit("add"), int2.deep_clone()),
        (lit("sub"), int2.deep_clone()),
        (lit("mul"), int2.deep_clone()),
        (lit("div"), int2),
        (lit("eq"), intb.deep_clone()),
        (lit("lte"), intb.deep_clone()),
        (lit("lt"), intb.deep_clone()),
        (lit("gte"), intb.deep_clone()),
        (lit("gt"), intb),
        (lit("addf"), float2.deep_clone()),
        (lit("subf"), float2.deep_clone()),
        (lit("mulf"), float2.deep_clone()),
        (lit("divf"), float2),
        (lit("eqf"), floatb.deep_clone()),
        (lit("ltef"), floatb.deep_clone()),
        (lit("ltf"), floatb.deep_clone()),
        (lit("gtef"), floatb.deep_clone()),
        (lit("gtf"), floatb),
        (lit("neg"), Type::f(Type::int64(), Type::int64())),
        (lit("negf"), Type::f(Type::float64(), Type::float64())),
    ];
    r
}

} // verus!
