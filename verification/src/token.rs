//! Tokens produced by the lexer.
use vstd::prelude::*;

use crate::text::{is_lower, is_upper, lit, str_eq};

verus! {

#[derive(Clone, Copy, Debug, PartialEq, Eq, Structural)]
pub enum TokenType {
    EOF,
    Newline,
    Id,
    UppercaseId,
    Then,
    Else,
    Match,
    LBrace,
    RBrace,
    IntLit,
    FloatLit,
    StringLit,
    CharLit,
    BoolLit,
    DoubleColon,
    RArrow,
    Forall,
    KWType,
    KWData,
    Silence,
    LParen,
    RParen,
    LSquare,
    RSquare,
    Lambda,
    Dollar,
    Dot,
    Comma,
    Bar,
    Assignment,
}

#[derive(Clone, Debug)]
pub struct Token {
    pub tt: TokenType,
    pub value: String,
}

/// Whether an identifier spelled `s` is written between its operands (`1 + 2`): its first
/// character is not a letter or `_`.
pub open spec fn infix_name(s: Seq<char>) -> bool {
    s.len() > 0 && !(is_lower(s[0]) || is_upper(s[0]) || s[0] == '_')
}

impl Token {
    /// Identifiers have at least one character.
    pub open spec fn wf(&self) -> bool {
        (self.tt == TokenType::Id || self.tt == TokenType::UppercaseId) ==> self.value@.len() > 0
    }

    pub fn new(tt: TokenType, value: String) -> (r: Token)
        ensures
            r.tt == tt,
            r.value@ == value@,
    {
        Token { tt, value }
    }

    /// A token of type `tt` spelled as the literal `s`.
    pub fn from_str(tt: TokenType, s: &str) -> (r: Token)
        ensures
            r.tt == tt,
            r.value@ == s@,
    {
        Token { tt, value: lit(s) }
    }

    /// A copy of the token.
    pub fn copy(&self) -> (r: Token)
        ensures
            r.tt == self.tt,
            r.value@ == self.value@,
    {
        Token { tt: self.tt, value: self.value.clone() }
    }

    /// Whether this is an identifier written between its operands, such as `+` or `==`.
    pub fn is_infix_id(&self) -> (r: bool)
        requires
            self.wf(),
        ensures
            r == (self.tt == TokenType::Id && infix_name(self.value@)),
    {
        if self.tt != TokenType::Id {
            return false;
        }
        let st = self.value.as_str();
        let c = st.get_char(0);
        !(('a' <= c && c <= 'z') || ('A' <= c && c <= 'Z') || c == '_')
    }

    /// Whether this is the identifier `Cons`.
    pub fn is_cons(&self) -> (r: bool)
        ensures
            r == (self.tt == TokenType::Id && self.value@ == seq!['C', 'o', 'n', 's']),
    {
        if self.tt != TokenType::Id {
            return false;
        }
        let c = lit("Cons");
        proof {
            reveal_strlit("Cons");
            assert(c@ =~= seq!['C', 'o', 'n', 's']);
        }
        str_eq(&self.value, &c)
    }
}

} // verus!
