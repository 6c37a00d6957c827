//! Splits source text into tokens.
use vstd::prelude::*;

use crate::text::{
    all_digits, chars_of, is_ascii_control, is_digit, is_whitespace, lit, push_char, push_str,
    spec_is_ascii_control,
    spec_is_whitespace, str_eq, string_of, usize_to_string,
};
use crate::token::{Token, TokenType};

verus! {

/// An error found while lexing, with the position it refers to.
#[derive(Debug)]
pub struct LexerError {
    pub e: String,
    pub line: usize,
    pub col: usize,
}

/// The number of `'\0'` characters put after the text, so that looking one character
/// ahead never leaves it.
pub const PADDING: usize = 10;

pub struct Lexer {
    pub file: Vec<char>,
    pub filename: Option<String>,
    pub i: usize,
    pub line: usize,
    pub col: usize,
}

/// The spelling of an integer literal: decimal digits, possibly after a `-`.
pub open spec fn int_lit_form(s: Seq<char>) -> bool {
    ||| (s.len() > 0 && all_digits(s))
    ||| (s.len() > 1 && s[0] == '-' && all_digits(s.drop_first()))
}

/// The spelling of a boolean literal.
pub open spec fn bool_lit_form(s: Seq<char>) -> bool {
    s == seq!['t', 'r', 'u', 'e'] || s == seq!['f', 'a', 'l', 's', 'e']
}

/// The spelling of a float literal: digits around one point, at least one digit.
pub open spec fn float_lit_form(s: Seq<char>) -> bool {
    exists|p: int|
        #![trigger s[p]]
        0 <= p < s.len() && s[p] == '.' && (forall|j: int| 0 <= j < s.len() && j != p ==> (is_digit(s[j]) || (j == 0 && s[j] == '-'))) && s.len() >= 2
}

/// What a token the lexer hands out looks like.
pub open spec fn lexed(t: Token) -> bool {
    &&& t.wf()
    &&& t.tt == TokenType::IntLit ==> int_lit_form(t.value@)
    &&& t.tt == TokenType::BoolLit ==> bool_lit_form(t.value@)
    &&& t.tt == TokenType::CharLit ==> t.value@.len() == 1
    &&& t.tt == TokenType::FloatLit ==> t.value@.len() > 0
}

pub open spec fn is_id_char_spec(c: char) -> bool {
    ('a' <= c && c <= 'z') || ('A' <= c && c <= 'Z') || ('0' <= c && c <= '9') || c == '_' || c
        == '+' || c == '-' || c == '/' || c == '*' || c == '%'
}

/// What the lexer makes of the text from a position on: a token (its kind, its text and
/// where the text after it starts), or an error message.
pub enum Lexed {
    Token(TokenType, Seq<char>, int),
    Error(Seq<char>),
}

/// The character at `k`; `'\0'` outside the text.
pub open spec fn ch(f: Seq<char>, k: int) -> char {
    if 0 <= k < f.len() {
        f[k]
    } else {
        '\0'
    }
}

/// Where the white space starting at `k` ends.
pub open spec fn ws_end(f: Seq<char>, k: int) -> int
    decreases f.len() - k,
{
    if 0 <= k < f.len() && spec_is_whitespace(f[k]) {
        ws_end(f, k + 1)
    } else {
        k
    }
}

/// A line break lies between `a` (included) and `b`.
pub open spec fn newline_in(f: Seq<char>, a: int, b: int) -> bool {
    exists|j: int| a <= j < b && 0 <= j < f.len() && f[j] == '\n'
}

/// Where the identifier characters starting at `k` end.
pub open spec fn id_end(f: Seq<char>, k: int) -> int
    decreases f.len() - k,
{
    if 0 <= k < f.len() && is_id_char_spec(f[k]) {
        id_end(f, k + 1)
    } else {
        k
    }
}

/// Where the digits and points starting at `k` end.
pub open spec fn num_end(f: Seq<char>, k: int) -> int
    decreases f.len() - k,
{
    if 0 <= k < f.len() && (is_digit(f[k]) || f[k] == '.') {
        num_end(f, k + 1)
    } else {
        k
    }
}

/// Where the line starting at `k` ends: at the next line break or `'\0'`.
pub open spec fn line_end(f: Seq<char>, k: int) -> int
    decreases f.len() - k,
{
    if ch(f, k) == '\n' || ch(f, k) == '\0' {
        k
    } else {
        line_end(f, k + 1)
    }
}

/// Where the `*/` closing a block comment is, looking from `k`; none before a `'\0'`.
pub open spec fn block_end(f: Seq<char>, k: int) -> Option<int>
    decreases f.len() - k,
{
    if ch(f, k) == '*' && ch(f, k + 1) == '/' {
        Some(k)
    } else if ch(f, k) == '\0' {
        None
    } else {
        block_end(f, k + 1)
    }
}

/// The kind of an identifier spelled `v`: a keyword's own kind, or `Id`.
pub open spec fn keyword_tt(v: Seq<char>) -> TokenType {
    if v == "true"@ || v == "false"@ {
        TokenType::BoolLit
    } else if v == "then"@ {
        TokenType::Then
    } else if v == "else"@ {
        TokenType::Else
    } else if v == "match"@ {
        TokenType::Match
    } else if v == "type"@ {
        TokenType::KWType
    } else if v == "data"@ {
        TokenType::KWData
    } else {
        TokenType::Id
    }
}

/// The identifier starting at `j` (an upper case one when `upper`).
pub open spec fn lex_id(f: Seq<char>, j: int, upper: bool) -> Lexed {
    let e = id_end(f, j + 1);
    let v = f.subrange(j, e);
    Lexed::Token(if upper { TokenType::UppercaseId } else { keyword_tt(v) }, v, e)
}

/// Two points in `s`.
pub open spec fn two_points(s: Seq<char>) -> bool {
    exists|p: int, q: int| 0 <= p < q < s.len() && s[p] == '.' && s[q] == '.'
}

/// A point in `s`.
pub open spec fn has_point(s: Seq<char>) -> bool {
    exists|p: int| 0 <= p < s.len() && s[p] == '.'
}

/// A digit in `s`.
pub open spec fn has_digit(s: Seq<char>) -> bool {
    exists|p: int| 0 <= p < s.len() && is_digit(s[p])
}

/// The number literal starting at `j`: an optional `-`, then digits with at most one point
/// and at least one digit.
pub open spec fn lex_number(f: Seq<char>, j: int) -> Lexed {
    let s = if ch(f, j) == '-' { j + 1 } else { j };
    let e = num_end(f, s);
    let run = f.subrange(s, e);
    if two_points(run) {
        Lexed::Error("Unexpected char: "@.push('.'))
    } else if !has_digit(run) {
        Lexed::Error("Empty number literal"@)
    } else if has_point(run) {
        Lexed::Token(TokenType::FloatLit, f.subrange(j, e), e)
    } else {
        Lexed::Token(TokenType::IntLit, f.subrange(j, e), e)
    }
}

/// The character an escape `\c` stands for.
pub open spec fn escaped(c: char) -> Option<char> {
    if c == 'n' {
        Some('\n')
    } else if c == 't' {
        Some('\t')
    } else if c == 'r' {
        Some('\r')
    } else if c == '0' {
        Some('\0')
    } else {
        None
    }
}

/// The character literal whose opening quote is at `j`.
pub open spec fn lex_char(f: Seq<char>, j: int) -> Lexed {
    let a = ch(f, j + 1);
    let b = ch(f, j + 2);
    let c = ch(f, j + 3);
    if a == '\'' {
        Lexed::Error("Empty char literal"@)
    } else if spec_is_ascii_control(a) {
        Lexed::Error("Unexpected char in char literal: "@.push(a))
    } else if b == '\'' {
        Lexed::Token(TokenType::CharLit, seq![a], j + 3)
    } else if spec_is_ascii_control(b) {
        Lexed::Error("Unexpected char in char literal: "@.push(b))
    } else if c == '\'' {
        if a == '\\' {
            match escaped(b) {
                Some(x) => Lexed::Token(TokenType::CharLit, seq![x], j + 4),
                None => Lexed::Error("Invalid escape sequence: "@.push('\\').push(b)),
            }
        } else {
            Lexed::Error("Invalid char literal: "@.push(a).push(b))
        }
    } else if spec_is_ascii_control(c) {
        Lexed::Error("Unexpected char in char literal: "@.push(c))
    } else {
        Lexed::Error("Unterminated char literal"@)
    }
}

/// The token of one character `c` standing for itself, if it is one.
pub open spec fn single_symbol(c: char) -> Option<(TokenType, Seq<char>)> {
    if c == '(' {
        Some((TokenType::LParen, "("@))
    } else if c == ')' {
        Some((TokenType::RParen, ")"@))
    } else if c == '{' {
        Some((TokenType::LBrace, "{"@))
    } else if c == '}' {
        Some((TokenType::RBrace, "}"@))
    } else if c == '[' {
        Some((TokenType::LSquare, "["@))
    } else if c == ']' {
        Some((TokenType::RSquare, "]"@))
    } else if c == ',' {
        Some((TokenType::Comma, ","@))
    } else if c == '$' {
        Some((TokenType::Dollar, "$"@))
    } else if c == '@' {
        Some((TokenType::Silence, "@"@))
    } else if c == '|' {
        Some((TokenType::Bar, "|"@))
    } else if c == '\\' {
        Some((TokenType::Lambda, "\\"@))
    } else {
        None
    }
}

pub proof fn lemma_ws_end(f: Seq<char>, k: int)
    ensures
        k <= ws_end(f, k),
        0 <= k <= f.len() ==> ws_end(f, k) <= f.len(),
    decreases f.len() - k,
{
    if 0 <= k < f.len() && spec_is_whitespace(f[k]) {
        lemma_ws_end(f, k + 1);
    }
}

pub proof fn lemma_num_end(f: Seq<char>, k: int)
    ensures
        k <= num_end(f, k),
        0 <= k <= f.len() ==> num_end(f, k) <= f.len(),
    decreases f.len() - k,
{
    if 0 <= k < f.len() && (is_digit(f[k]) || f[k] == '.') {
        lemma_num_end(f, k + 1);
    }
}

pub proof fn lemma_line_end(f: Seq<char>, k: int)
    ensures
        k <= line_end(f, k),
        k <= f.len() ==> line_end(f, k) <= f.len(),
    decreases f.len() - k,
{
    if !(ch(f, k) == '\n' || ch(f, k) == '\0') {
        lemma_line_end(f, k + 1);
    }
}

pub proof fn lemma_block_end(f: Seq<char>, k: int)
    ensures
        block_end(f, k) matches Some(e) ==> k <= e && ch(f, e) == '*' && ch(f, e + 1) == '/' && e + 2 <= f.len(),
    decreases f.len() - k,
{
    if !(ch(f, k) == '*' && ch(f, k + 1) == '/') && ch(f, k) != '\0' {
        lemma_block_end(f, k + 1);
    }
}

/// What the lexer makes of the text `f` from position `i` on. White space is skipped; a
/// line break in it gives one `Newline` token for the whole run. Comments (`//` to the end
/// of the line, `/*` to `*/`) are skipped.
pub open spec fn lex_spec(f: Seq<char>, i: int) -> Lexed
    decreases f.len() - i,
{
    let j = ws_end(f, i);
    let c = ch(f, j);
    let next = ch(f, j + 1);
    if newline_in(f, i, j) {
        Lexed::Token(TokenType::Newline, "\n"@, j)
    } else if c == '\0' {
        Lexed::Token(TokenType::EOF, ""@, j)
    } else if c == '/' && next == '/' {
        proof {
            lemma_ws_end(f, i);
            lemma_line_end(f, j + 1);
        }
        lex_spec(f, line_end(f, j + 1))
    } else if c == '/' && next == '*' {
        proof {
            lemma_ws_end(f, i);
            lemma_block_end(f, j + 2);
        }
        match block_end(f, j + 2) {
            Some(e) => lex_spec(f, e + 2),
            None => Lexed::Error("Unterminated block comment"@),
        }
    } else if ('a' <= c && c <= 'z') || c == '_' || c == '+' || c == '*' || c == '%' || c == '/' {
        lex_id(f, j, false)
    } else if 'A' <= c && c <= 'Z' {
        lex_id(f, j, true)
    } else if is_digit(c) {
        lex_number(f, j)
    } else if c == '-' {
        if next == '>' {
            Lexed::Token(TokenType::RArrow, "->"@, j + 2)
        } else if is_digit(next) || next == '.' {
            lex_number(f, j)
        } else {
            lex_id(f, j, false)
        }
    } else if c == '.' {
        if is_digit(next) {
            lex_number(f, j)
        } else {
            Lexed::Token(TokenType::Dot, "."@, j + 1)
        }
    } else if single_symbol(c) is Some {
        let (tt, v) = single_symbol(c)->0;
        Lexed::Token(tt, v, j + 1)
    } else if c == ':' {
        if next == ':' {
            Lexed::Token(TokenType::DoubleColon, "::"@, j + 2)
        } else {
            Lexed::Error("Unexpected char: "@.push(next))
        }
    } else if c == '=' {
        if next == '=' {
            Lexed::Token(TokenType::Id, "=="@, j + 2)
        } else {
            Lexed::Token(TokenType::Assignment, "="@, j + 1)
        }
    } else if c == '<' {
        if next == '=' {
            Lexed::Token(TokenType::Id, "<="@, j + 2)
        } else {
            Lexed::Token(TokenType::Id, "<"@, j + 1)
        }
    } else if c == '>' {
        if next == '=' {
            Lexed::Token(TokenType::Id, ">="@, j + 2)
        } else {
            Lexed::Token(TokenType::Id, ">"@, j + 1)
        }
    } else if c == '\'' {
        lex_char(f, j)
    } else {
        Lexed::Error("Unexpected char: "@.push(c))
    }
}

/// `r` is what `lex_spec` says the text gives, and a token leaves the lexer at its end.
pub open spec fn lexed_as(x: Lexed, r: Result<Token, LexerError>, end: int) -> bool {
    match x {
        Lexed::Token(tt, v, e) => r matches Ok(t) && t.tt == tt && t.value@ == v && end == e,
        Lexed::Error(m) => r matches Err(er) && er.e@ == m,
    }
}

/// The characters a lexer reads for `text`: the text (nothing where it is too long for
/// positions to count), then `'\0'` characters as padding.
pub open spec fn padded(text: Seq<char>) -> Seq<char> {
    if text.len() < usize::MAX - 20 {
        text + Seq::new(PADDING as nat, |k: int| '\0')
    } else {
        Seq::new(PADDING as nat, |k: int| '\0')
    }
}

/// `toks` are the tokens read one after the other from position `i` of `f`: each is what
/// `lex_spec` gives where the one before ended.
pub open spec fn lexes(f: Seq<char>, i: int, toks: Seq<(Token, usize, usize)>) -> bool {
    exists|ps: Seq<int>| lexed_at(f, ps, toks) && ps[0] == i
}

/// `ps` are where the tokens `toks` start, and where the last ends.
pub open spec fn lexed_at(f: Seq<char>, ps: Seq<int>, toks: Seq<(Token, usize, usize)>) -> bool {
    &&& ps.len() == toks.len() + 1
    &&& forall|k: int| 0 <= k < toks.len() ==> (#[trigger] lex_spec(f, ps[k])) == Lexed::Token(
        toks[k].0.tt,
        toks[k].0.value@,
        ps[k + 1],
    )
}

/// Reading tokens from position `i` of `f` meets the error `m` before the end.
pub open spec fn lex_fails(f: Seq<char>, i: int, m: Seq<char>) -> bool {
    exists|ps: Seq<int>, toks: Seq<(Token, usize, usize)>| lexed_at(f, ps, toks) && ps[0] == i
        && lex_spec(f, ps.last()) == Lexed::Error(m)
        && forall|k: int| 0 <= k < toks.len() ==> #[trigger] toks[k].0.tt != TokenType::EOF
}

impl Lexer {
    pub open spec fn wf(&self) -> bool {
        &&& self.i <= self.file@.len()
        &&& self.file@.len() < usize::MAX - 2
        &&& self.line <= self.i
        &&& self.col <= self.i
    }

    /// The characters still to be read.
    pub open spec fn rest(&self) -> nat {
        (self.file@.len() - self.i) as nat
    }

    /// A lexer at the start of `file`; `filename` is only used in positions.
    pub fn new(file: String, filename: Option<String>) -> (r: Self)
        ensures
            r.wf(),
            r.line == 0,
            r.col == 0,
            r.i == 0,
            r.file@ == padded(file@),
    {
        // a text longer than the positions can count is treated as empty
        let mut v = if file.as_str().unicode_len() < usize::MAX - 20 {
            chars_of(&file)
        } else {
            Vec::new()
        };
        let ghost n0 = v@.len();
        let ghost v0 = v@;
        let mut k: usize = 0;
        while k < PADDING
            invariant
                v@.len() == n0 + k,
                v0.len() == n0,
                n0 < usize::MAX - 20,
                k <= PADDING,
                v@ == v0 + Seq::new(k as nat, |j: int| '\0'),
            decreases PADDING - k,
        {
            v.push('\0');
            k = k + 1;
            proof { assert(v@ =~= v0 + Seq::new(k as nat, |j: int| '\0')); }
        }
        proof {
            if file@.len() < usize::MAX - 20 {
                assert(v0 == file@);
            } else {
                assert(v0 =~= Seq::<char>::empty());
                assert(v@ =~= Seq::new(PADDING as nat, |j: int| '\0'));
            }
        }
        Lexer { file: v, filename, i: 0, line: 0, col: 0 }
    }

    /// The character `k` places ahead, `'\0'` past the end.
    fn at(&self, k: usize) -> (c: char)
        requires
            self.wf(),
            k <= 2,
        ensures
            self.i + k < self.file@.len() ==> c == self.file@[self.i + k],
            self.i + k >= self.file@.len() ==> c == '\0',
    {
        if self.i + k >= self.file.len() {
            '\0'
        } else {
            self.file[self.i + k]
        }
    }

    /// The current character.
    fn c(&self) -> (c: char)
        requires
            self.wf(),
        ensures
            self.i < self.file@.len() ==> c == self.file@[self.i as int],
            self.i >= self.file@.len() ==> c == '\0',
    {
        self.at(0)
    }

    /// Moves one character ahead on the current line.
    fn advance(&mut self)
        requires
            old(self).wf(),
        ensures
            final(self).wf(),
            final(self).file == old(self).file,
            final(self).line == old(self).line,
            old(self).i < old(self).file@.len() ==> final(self).i == old(self).i + 1,
            old(self).i >= old(self).file@.len() ==> final(self).i == old(self).i,
    {
        if self.i < self.file.len() {
            self.col = self.col + 1;
            self.i = self.i + 1;
        }
    }

    /// Moves past a line break.
    fn newline(&mut self)
        requires
            old(self).wf(),
            old(self).i < old(self).file@.len(),
        ensures
            final(self).wf(),
            final(self).file == old(self).file,
            final(self).i == old(self).i + 1,
    {
        self.line = self.line + 1;
        self.col = 0;
        self.i = self.i + 1;
    }

    fn error(&self, msg: String) -> (r: LexerError)
        ensures
            r.e@ == msg@,
            r.line == self.line,
            r.col == self.col,
    {
        LexerError { e: msg, line: self.line, col: self.col }
    }

    fn error_char(&self, msg: &str, c: char) -> (r: LexerError)
        ensures
            r.e@ == msg@.push(c),
            r.line == self.line,
            r.col == self.col,
    {
        let mut s = lit(msg);
        push_char(&mut s, c);
        self.error(s)
    }

    fn is_id_char(&self, c: char) -> (r: bool)
        ensures
            r == is_id_char_spec(c),
    {
        ('a' <= c && c <= 'z') || ('A' <= c && c <= 'Z') || ('0' <= c && c <= '9') || c == '_'
            || c == '+' || c == '-' || c == '/' || c == '*' || c == '%'
    }

    /// The position as `file line:col` (or `line:col` without a file name).
    pub fn pos_string(&self) -> (r: String)
        ensures
            r@.len() > 0,
    {
        let mut s = match &self.filename {
            None => String::new(),
            Some(f) => {
                let mut s = f.clone();
                push_char(&mut s, ' ');
                s
            },
        };
        let l = usize_to_string(self.line);
        push_str(&mut s, l.as_str());
        push_char(&mut s, ':');
        let c = usize_to_string(self.col);
        push_str(&mut s, c.as_str());
        s
    }

    /// An identifier, or a keyword spelled like one.
    fn parse_id(&mut self) -> (r: Token)
        requires
            old(self).wf(),
            old(self).i < old(self).file@.len(),
        ensures
            final(self).wf(),
            final(self).file == old(self).file,
            final(self).i > old(self).i,
            final(self).i == id_end(old(self).file@, old(self).i + 1),
            r.value@ == old(self).file@.subrange(old(self).i as int, final(self).i as int),
            r.tt == keyword_tt(r.value@),
            lexed(r),
            r.value@.len() > 0,
            r.tt == TokenType::Id || r.tt == TokenType::BoolLit || r.tt == TokenType::Then || r.tt
                == TokenType::Else || r.tt == TokenType::Match || r.tt == TokenType::KWType || r.tt
                == TokenType::KWData,
    {
        let ghost f = self.file@;
        let ghost i0 = self.i as int;
        let mut chars: Vec<char> = Vec::new();
        chars.push(self.c());
        self.advance();
        while self.is_id_char(self.c())
            invariant
                self.wf(),
                self.file == old(self).file,
                f == self.file@,
                i0 == old(self).i,
                self.i > i0,
                chars@ == f.subrange(i0, self.i as int),
                id_end(f, self.i as int) == id_end(f, i0 + 1),
            decreases self.file@.len() - self.i,
        {
            let ghost before = chars@;
            chars.push(self.c());
            self.advance();
            proof {
                assert(chars@ =~= f.subrange(i0, self.i as int));
            }
        }
        let value = string_of(&chars);
        proof {
            reveal_strlit("true");
            reveal_strlit("false");
            assert("true"@ =~= seq!['t', 'r', 'u', 'e']);
            assert("false"@ =~= seq!['f', 'a', 'l', 's', 'e']);
        }
        let tt = if str_eq(&value, &lit("true")) || str_eq(&value, &lit("false")) {
            TokenType::BoolLit
        } else if str_eq(&value, &lit("then")) {
            TokenType::Then
        } else if str_eq(&value, &lit("else")) {
            TokenType::Else
        } else if str_eq(&value, &lit("match")) {
            TokenType::Match
        } else if str_eq(&value, &lit("type")) {
            TokenType::KWType
        } else if str_eq(&value, &lit("data")) {
            TokenType::KWData
        } else {
            TokenType::Id
        };
        Token { tt, value }
    }

    /// An identifier starting with an upper case letter.
    fn parse_type_id(&mut self) -> (r: Token)
        requires
            old(self).wf(),
            old(self).i < old(self).file@.len(),
        ensures
            final(self).wf(),
            final(self).file == old(self).file,
            final(self).i > old(self).i,
            final(self).i == id_end(old(self).file@, old(self).i + 1),
            r.value@ == old(self).file@.subrange(old(self).i as int, final(self).i as int),
            lexed(r),
            r.tt == TokenType::UppercaseId,
    {
        let t = self.parse_id();
        Token { tt: TokenType::UppercaseId, value: t.value }
    }

    /// An integer or float literal.
    fn parse_num_lit(&mut self) -> (r: Result<Token, LexerError>)
        requires
            old(self).wf(),
            old(self).i < old(self).file@.len(),
        ensures
            final(self).wf(),
            final(self).file == old(self).file,
            final(self).i >= old(self).i,
            lexed_as(lex_number(old(self).file@, old(self).i as int), r, final(self).i as int),
            r matches Ok(t) ==> lexed(t) && (t.tt == TokenType::IntLit || t.tt
                == TokenType::FloatLit) && final(self).i > old(self).i,
    {
        let ghost f = self.file@;
        let ghost i0 = self.i as int;
        let ghost s0 = if ch(f, i0) == '-' { i0 + 1 } else { i0 };
        let mut chars: Vec<char> = Vec::new();
        let mut has_pt = false;
        let mut digit_seen = false;
        let mut point_at: usize = 0;
        if self.c() == '-' {
            chars.push('-');
            self.advance();
        }
        proof {
            assert(chars@ =~= f.subrange(i0, self.i as int));
        }
        while ('0' <= self.c() && self.c() <= '9') || self.c() == '.'
            invariant
                self.wf(),
                self.file == old(self).file,
                f == self.file@,
                i0 == old(self).i,
                s0 == (if ch(f, i0) == '-' { i0 + 1 } else { i0 }),
                s0 <= self.i <= f.len(),
                chars@ == f.subrange(i0, self.i as int),
                num_end(f, self.i as int) == num_end(f, s0),
                forall|j: int| s0 <= j < self.i ==> (is_digit(#[trigger] f[j]) || f[j] == '.'),
                !two_points(f.subrange(s0, self.i as int)),
                has_pt == has_point(f.subrange(s0, self.i as int)),
                has_pt ==> s0 <= point_at < self.i && f[point_at as int] == '.',
                digit_seen == has_digit(f.subrange(s0, self.i as int)),
            decreases self.file@.len() - self.i,
        {
            let c = self.c();
            let ghost k = self.i as int;
            let ghost run = f.subrange(s0, k);
            let ghost run1 = f.subrange(s0, k + 1);
            proof {
                assert(run1 =~= run.push(c));
                lemma_num_end(f, k);
                assert(num_end(f, k) == num_end(f, k + 1));
            }
            if c == '.' {
                if has_pt {
                    proof {
                        lemma_num_end(f, k + 1);
                        let full = f.subrange(s0, num_end(f, s0));
                        assert(full[point_at - s0] == '.');
                        assert(full[k - s0] == '.');
                        assert(two_points(full));
                    }
                    return Err(self.error_char("Unexpected char: ", c));
                }
                has_pt = true;
                point_at = self.i;
                proof {
                    assert(run1[k - s0] == '.');
                    assert forall|p: int, q: int| 0 <= p < q < run1.len() && run1[p] == '.' implies run1[q] != '.' by {
                        if q < run.len() {
                            assert(run[p] == '.' && run[q] == run1[q]);
                            assert(has_point(run));
                        } else {
                            assert(run[p] == '.');
                            assert(has_point(run));
                        }
                    }
                    if has_digit(run1) {
                        let p = choose|p: int| 0 <= p < run1.len() && is_digit(run1[p]);
                        assert(run[p] == run1[p]);
                    }
                    if has_digit(run) {
                        let p = choose|p: int| 0 <= p < run.len() && is_digit(run[p]);
                        assert(run1[p] == run[p]);
                    }
                }
            } else {
                digit_seen = true;
                proof {
                    assert(is_digit(run1[k - s0]));
                    assert forall|p: int, q: int| 0 <= p < q < run1.len() && run1[p] == '.' implies run1[q] != '.' by {
                        if q < run.len() {
                            assert(run[p] == run1[p] && run[q] == run1[q]);
                        }
                    }
                    if has_point(run1) {
                        let p = choose|p: int| 0 <= p < run1.len() && run1[p] == '.';
                        assert(run[p] == run1[p]);
                    }
                    if has_point(run) {
                        let p = choose|p: int| 0 <= p < run.len() && run[p] == '.';
                        assert(run1[p] == run[p]);
                    }
                }
            }
            chars.push(c);
            self.advance();
            proof {
                assert(chars@ =~= f.subrange(i0, self.i as int));
            }
        }
        let ghost e = self.i as int;
        proof {
            assert(num_end(f, e) == e);
        }
        if !digit_seen {
            return Err(self.error(lit("Empty number literal")));
        }
        let value = string_of(&chars);
        if has_pt {
            proof {
                assert(value@[point_at - i0] == '.');
            }
            Ok(Token { tt: TokenType::FloatLit, value })
        } else {
            proof {
                let run = f.subrange(s0, e);
                assert forall|p: int| 0 <= p < run.len() implies is_digit(#[trigger] run[p]) by {
                    assert(run[p] == f[s0 + p]);
                    if run[p] == '.' {
                        assert(has_point(run));
                    }
                }
                if ch(f, i0) == '-' {
                    assert(value@.drop_first() =~= run);
                    assert(all_digits(value@.drop_first()));
                    let p = choose|p: int| 0 <= p < run.len() && is_digit(run[p]);
                    assert(value@.len() > 1);
                } else {
                    assert(value@ =~= run);
                    assert(all_digits(value@));
                    let p = choose|p: int| 0 <= p < run.len() && is_digit(run[p]);
                }
            }
            Ok(Token { tt: TokenType::IntLit, value })
        }
    }

    /// A character literal between single quotes, with the escapes `\n`, `\t`, `\r`, `\0`.
    fn parse_char_lit(&mut self) -> (r: Result<Token, LexerError>)
        requires
            old(self).wf(),
            old(self).i < old(self).file@.len(),
        ensures
            final(self).wf(),
            final(self).file == old(self).file,
            final(self).i > old(self).i,
            lexed_as(lex_char(old(self).file@, old(self).i as int), r, final(self).i as int),
            r matches Ok(t) ==> lexed(t) && t.tt == TokenType::CharLit,
    {
        let ghost f = self.file@;
        let ghost i0 = self.i as int;
        let mut chars: Vec<char> = Vec::new();
        self.advance();
        while self.c() != '\''
            invariant
                self.wf(),
                self.file == old(self).file,
                f == self.file@,
                i0 == old(self).i,
                self.i == i0 + 1 + chars@.len(),
                chars@.len() <= 2,
                forall|k: int| 0 <= k < chars@.len() ==> #[trigger] chars@[k] == ch(f, i0 + 1 + k)
                    && chars@[k] != '\'' && !spec_is_ascii_control(chars@[k]),
            decreases self.file@.len() - self.i,
        {
            let c = self.c();
            proof {
                assert(c == ch(f, self.i as int));
                if chars@.len() > 0 {
                    assert(chars@[0] == ch(f, i0 + 1));
                }
                if chars@.len() > 1 {
                    assert(chars@[1] == ch(f, i0 + 2));
                }
            }
            if is_ascii_control(c) {
                return Err(self.error_char("Unexpected char in char literal: ", c));
            }
            chars.push(c);
            self.advance();
            if chars.len() > 2 {
                return Err(self.error(lit("Unterminated char literal")));
            }
        }
        self.advance();
        let c = if chars.len() == 2 && chars[0] == '\\' {
            let e = chars[1];
            if e == 'n' {
                '\n'
            } else if e == 't' {
                '\t'
            } else if e == 'r' {
                '\r'
            } else if e == '0' {
                '\0'
            } else {
                let mut m = lit("Invalid escape sequence: ");
                push_char(&mut m, '\\');
                push_char(&mut m, e);
                return Err(self.error(m));
            }
        } else if chars.len() == 2 {
            let mut m = lit("Invalid char literal: ");
            push_char(&mut m, chars[0]);
            push_char(&mut m, chars[1]);
            return Err(self.error(m));
        } else if chars.len() == 0 {
            return Err(self.error(lit("Empty char literal")));
        } else {
            chars[0]
        };
        let mut value = String::new();
        push_char(&mut value, c);
        proof {
            assert(value@ =~= seq![c]);
        }
        Ok(Token { tt: TokenType::CharLit, value })
    }

    /// A token made of the next `n` characters.
    fn symbol(&mut self, n: usize, tt: TokenType, s: &str) -> (r: Token)
        requires
            old(self).wf(),
            1 <= n <= 2,
            old(self).i + n <= old(self).file@.len(),
            tt != TokenType::Id && tt != TokenType::UppercaseId && tt != TokenType::IntLit && tt
                != TokenType::BoolLit && tt != TokenType::CharLit && tt != TokenType::FloatLit,
        ensures
            final(self).wf(),
            final(self).file == old(self).file,
            final(self).i == old(self).i + n,
            lexed(r),
            r.tt == tt,
            r.value@ == s@,
    {
        self.advance();
        if n == 2 {
            self.advance();
        }
        Token::from_str(tt, s)
    }

    /// An identifier made of the next `n` characters (operators such as `==` and `<=`).
    fn operator(&mut self, n: usize, s: &str) -> (r: Token)
        requires
            old(self).wf(),
            1 <= n <= 2,
            old(self).i + n <= old(self).file@.len(),
            s@.len() > 0,
        ensures
            final(self).wf(),
            final(self).file == old(self).file,
            final(self).i == old(self).i + n,
            lexed(r),
            r.tt == TokenType::Id,
            r.value@ == s@,
    {
        self.advance();
        if n == 2 {
            self.advance();
        }
        Token::from_str(TokenType::Id, s)
    }

    /// Skips white space; whether it held a line break.
    fn skip_space(&mut self) -> (newline: bool)
        requires
            old(self).wf(),
        ensures
            final(self).wf(),
            final(self).file == old(self).file,
            final(self).i == ws_end(old(self).file@, old(self).i as int),
            newline == newline_in(old(self).file@, old(self).i as int, final(self).i as int),
    {
        let ghost f = self.file@;
        let ghost i0 = self.i as int;
        while self.i < self.file.len() && is_whitespace(self.c())
            invariant
                self.wf(),
                self.file == old(self).file,
                f == self.file@,
                i0 == old(self).i,
                i0 <= self.i,
                ws_end(f, self.i as int) == ws_end(f, i0),
                !newline_in(f, i0, self.i as int),
            decreases self.file@.len() - self.i,
        {
            if self.c() == '\n' {
                let ghost start = self.i as int;
                while self.i < self.file.len() && is_whitespace(self.c())
                    invariant
                        self.wf(),
                        self.file == old(self).file,
                        f == self.file@,
                        i0 <= start < self.file@.len(),
                        f[start] == '\n',
                        start <= self.i,
                        ws_end(f, self.i as int) == ws_end(f, i0),
                    decreases self.file@.len() - self.i,
                {
                    self.newline();
                }
                proof {
                    assert(newline_in(f, i0, self.i as int)) by {
                        if self.i == start {
                            assert(false);
                        }
                    }
                }
                return true;
            } else {
                proof {
                    assert forall|j: int| i0 <= j < self.i + 1 && 0 <= j < f.len() implies f[j] != '\n' by {
                        if j < self.i {
                            assert(!newline_in(f, i0, self.i as int));
                        }
                    }
                }
                self.advance();
            }
        }
        false
    }

    /// The next token: what `lex_spec` says the text from the current position gives.
    pub fn get_token(&mut self) -> (r: Result<Token, LexerError>)
        requires
            old(self).wf(),
        ensures
            final(self).wf(),
            final(self).file == old(self).file,
            final(self).rest() <= old(self).rest(),
            lexed_as(lex_spec(old(self).file@, old(self).i as int), r, final(self).i as int),
            r matches Ok(t) ==> lexed(t),
            r matches Ok(t) ==> (t.tt == TokenType::EOF || final(self).rest() < old(self).rest()),
        decreases old(self).rest(),
    {
        let ghost f = self.file@;
        let ghost i0 = self.i as int;
        proof {
            lemma_ws_end(f, i0);
        }
        if self.skip_space() {
            proof {
                reveal_strlit("\n");
            }
            return Ok(Token::from_str(TokenType::Newline, "\n"));
        }
        let ghost j = self.i as int;
        let c = self.c();
        if c == '\0' {
            return Ok(Token::from_str(TokenType::EOF, ""));
        }
        let next = self.at(1);
        if ('a' <= c && c <= 'z') || c == '_' || c == '+' || c == '*' || c == '%' {
            Ok(self.parse_id())
        } else if 'A' <= c && c <= 'Z' {
            Ok(self.parse_type_id())
        } else if '0' <= c && c <= '9' {
            self.parse_num_lit()
        } else if c == '-' {
            if next == '>' {
                Ok(self.symbol(2, TokenType::RArrow, "->"))
            } else if ('0' <= next && next <= '9') || next == '.' {
                self.parse_num_lit()
            } else {
                Ok(self.parse_id())
            }
        } else if c == '.' {
            if '0' <= next && next <= '9' {
                self.parse_num_lit()
            } else {
                Ok(self.symbol(1, TokenType::Dot, "."))
            }
        } else if c == '(' {
            Ok(self.symbol(1, TokenType::LParen, "("))
        } else if c == ')' {
            Ok(self.symbol(1, TokenType::RParen, ")"))
        } else if c == '{' {
            Ok(self.symbol(1, TokenType::LBrace, "{"))
        } else if c == '}' {
            Ok(self.symbol(1, TokenType::RBrace, "}"))
        } else if c == '[' {
            Ok(self.symbol(1, TokenType::LSquare, "["))
        } else if c == ']' {
            Ok(self.symbol(1, TokenType::RSquare, "]"))
        } else if c == ',' {
            Ok(self.symbol(1, TokenType::Comma, ","))
        } else if c == '$' {
            Ok(self.symbol(1, TokenType::Dollar, "$"))
        } else if c == '@' {
            Ok(self.symbol(1, TokenType::Silence, "@"))
        } else if c == '|' {
            Ok(self.symbol(1, TokenType::Bar, "|"))
        } else if c == '\\' {
            Ok(self.symbol(1, TokenType::Lambda, "\\"))
        } else if c == '/' {
            if next == '/' {
                self.advance();
                while self.c() != '\n' && self.c() != '\0'
                    invariant
                        self.wf(),
                        self.file == old(self).file,
                        f == self.file@,
                        self.i > old(self).i,
                        line_end(f, self.i as int) == line_end(f, j + 1),
                    decreases self.file@.len() - self.i,
                {
                    self.advance();
                }
                self.get_token()
            } else if next == '*' {
                self.advance();
                self.advance();
                while !(self.c() == '*' && self.at(1) == '/')
                    invariant
                        self.wf(),
                        self.file == old(self).file,
                        f == self.file@,
                        self.i > old(self).i,
                        block_end(f, self.i as int) == block_end(f, j + 2),
                        block_end(f, j + 2) is None ==> lex_spec(f, i0) == Lexed::Error("Unterminated block comment"@),
                        f == old(self).file@,
                        i0 == old(self).i,
                    decreases self.file@.len() - self.i,
                {
                    if self.c() == '\n' {
                        self.newline();
                    } else if self.c() == '\0' {
                        proof {
                            assert(ch(f, self.i as int) == '\0');
                            assert(block_end(f, self.i as int) is None);
                        }
                        return Err(self.error(lit("Unterminated block comment")));
                    } else {
                        self.advance();
                    }
                }
                self.advance();
                self.advance();
                self.get_token()
            } else {
                Ok(self.parse_id())
            }
        } else if c == ':' {
            if next == ':' {
                Ok(self.symbol(2, TokenType::DoubleColon, "::"))
            } else {
                self.advance();
                Err(self.error_char("Unexpected char: ", self.c()))
            }
        } else if c == '=' {
            if next == '=' {
                proof { reveal_strlit("=="); }
                Ok(self.operator(2, "=="))
            } else {
                Ok(self.symbol(1, TokenType::Assignment, "="))
            }
        } else if c == '<' {
            if next == '=' {
                proof { reveal_strlit("<="); }
                Ok(self.operator(2, "<="))
            } else {
                proof { reveal_strlit("<"); }
                Ok(self.operator(1, "<"))
            }
        } else if c == '>' {
            if next == '=' {
                proof { reveal_strlit(">="); }
                Ok(self.operator(2, ">="))
            } else {
                proof { reveal_strlit(">"); }
                Ok(self.operator(1, ">"))
            }
        } else if c == '\'' {
            self.parse_char_lit()
        } else {
            Err(self.error_char("Unexpected char: ", c))
        }
    }
}

} // verus!
