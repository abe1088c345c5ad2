//! The lexer and the recursive-descent parser of WebCore sources.
use crate::ast::{
    find_key, insert_key, insert_named, unique_keys, Named, App, Attribute, AttributeValue, Component, Element,
    Layout, Page, Prop, Route, StateVar, StyleProperty, StyleRule, WebCoreDocument,
};
use crate::text::{find_from, first_occ, string_of, str_eq, to_chars, trim, trim_range};
use vstd::prelude::*;
use vstd::string::*;

verus! {

/// What `char::is_alphabetic` says of a character (Unicode Alphabetic).
pub uninterp spec fn alphabetic(c: char) -> bool;

/// A letter or a digit: `char::is_alphanumeric` is documented as
/// `is_alphabetic() || is_numeric()`.
pub open spec fn alphanumeric(c: char) -> bool {
    alphabetic(c) || numeric(c)
}

/// What `char::is_numeric` says of a character (Unicode general category N).
pub uninterp spec fn numeric(c: char) -> bool;

/// What `char::is_uppercase` says of a character (Unicode Uppercase).
pub uninterp spec fn uppercase(c: char) -> bool;

/// Relies on char::is_alphabetic: Unicode's Alphabetic property of `c`.
#[verifier::external_body]
fn is_alphabetic(c: char) -> (r: bool)
    ensures
        r == alphabetic(c),
{
    c.is_alphabetic()
}

/// Whether `c` is a letter or a digit.
fn is_alphanumeric(c: char) -> (r: bool)
    ensures
        r == alphanumeric(c),
{
    is_alphabetic(c) || is_numeric(c)
}

/// Relies on char::is_numeric: general category Nd, Nl or No.
#[verifier::external_body]
fn is_numeric(c: char) -> (r: bool)
    ensures
        r == numeric(c),
{
    c.is_numeric()
}

/// Relies on char::is_uppercase: Unicode's Uppercase property of `c`.
#[verifier::external_body]
fn is_uppercase(c: char) -> (r: bool)
    ensures
        r == uppercase(c),
{
    c.is_uppercase()
}

#[derive(Debug)]
pub enum ParseError {
    UnexpectedToken(String),
    ExpectedToken(String),
    InvalidSyntax(String),
}

#[derive(Debug, Clone)]
pub enum Token {
    Identifier(String),
    String(String),
    Number(String),
    LeftBrace,
    RightBrace,
    LeftParen,
    RightParen,
    Colon,
    Equals,
    Comma,
    Dot,
    Arrow,
    Plus,
    Minus,
    Eof,
}

/// A token, with its text as a character sequence.
pub enum TokenView {
    Identifier(Seq<char>),
    Str(Seq<char>),
    Number(Seq<char>),
    LeftBrace,
    RightBrace,
    LeftParen,
    RightParen,
    Colon,
    Equals,
    Comma,
    Dot,
    Arrow,
    Plus,
    Minus,
    Eof,
}

impl View for Token {
    type V = TokenView;

    open spec fn view(&self) -> TokenView {
        match self {
            Token::Identifier(s) => TokenView::Identifier(s@),
            Token::String(s) => TokenView::Str(s@),
            Token::Number(s) => TokenView::Number(s@),
            Token::LeftBrace => TokenView::LeftBrace,
            Token::RightBrace => TokenView::RightBrace,
            Token::LeftParen => TokenView::LeftParen,
            Token::RightParen => TokenView::RightParen,
            Token::Colon => TokenView::Colon,
            Token::Equals => TokenView::Equals,
            Token::Comma => TokenView::Comma,
            Token::Dot => TokenView::Dot,
            Token::Arrow => TokenView::Arrow,
            Token::Plus => TokenView::Plus,
            Token::Minus => TokenView::Minus,
            Token::Eof => TokenView::Eof,
        }
    }
}

pub open spec fn token_views(ts: Seq<Token>) -> Seq<TokenView> {
    ts.map_values(|t: Token| t@)
}

/// A character that continues an identifier.
pub open spec fn ident_char(c: char) -> bool {
    alphanumeric(c) || c == '_' || c == '-' || c == ':'
}

/// A character that continues a number.
pub open spec fn number_char(c: char) -> bool {
    numeric(c) || c == '.'
}

/// The end of the run of identifier characters from `k`.
pub open spec fn ident_end(s: Seq<char>, k: int) -> int
    decreases s.len() - k,
{
    if k < 0 || k >= s.len() || !ident_char(s[k]) {
        k
    } else {
        ident_end(s, k + 1)
    }
}

/// The end of the run of number characters from `k`.
pub open spec fn number_end(s: Seq<char>, k: int) -> int
    decreases s.len() - k,
{
    if k < 0 || k >= s.len() || !number_char(s[k]) {
        k
    } else {
        number_end(s, k + 1)
    }
}

/// The position of the first `"` from `k`, or the end of `s`.
pub open spec fn quote_end(s: Seq<char>, k: int) -> int
    decreases s.len() - k,
{
    if k < 0 || k >= s.len() || s[k] == '"' {
        k
    } else {
        quote_end(s, k + 1)
    }
}

/// A single-character token.
pub open spec fn punct(c: char) -> Option<TokenView> {
    if c == '{' {
        Some(TokenView::LeftBrace)
    } else if c == '}' {
        Some(TokenView::RightBrace)
    } else if c == '(' {
        Some(TokenView::LeftParen)
    } else if c == ')' {
        Some(TokenView::RightParen)
    } else if c == ':' {
        Some(TokenView::Colon)
    } else if c == ',' {
        Some(TokenView::Comma)
    } else if c == '.' {
        Some(TokenView::Dot)
    } else if c == '+' {
        Some(TokenView::Plus)
    } else if c == '-' {
        Some(TokenView::Minus)
    } else {
        None
    }
}

/// The tokens of `s` from position `i` on. White space and any character
/// that starts no token are skipped.
pub open spec fn lex_from(s: Seq<char>, i: int) -> Seq<TokenView>
    decreases s.len() - i,
{
    if i < 0 || i >= s.len() {
        Seq::empty()
    } else {
        let c = s[i];
        if punct(c) is Some {
            seq![punct(c)->0] + lex_from(s, i + 1)
        } else if c == '=' {
            if i + 1 < s.len() && s[i + 1] == '>' {
                seq![TokenView::Arrow] + lex_from(s, i + 2)
            } else {
                seq![TokenView::Equals] + lex_from(s, i + 1)
            }
        } else if c == '"' {
            let j = quote_end(s, i + 1);
            if j <= i || j > s.len() {
                Seq::empty()
            } else if j == s.len() {
                seq![TokenView::Str(s.subrange(i + 1, j))]
            } else {
                seq![TokenView::Str(s.subrange(i + 1, j))] + lex_from(s, j + 1)
            }
        } else if alphabetic(c) || c == '_' {
            let j = ident_end(s, i + 1);
            if j <= i || j > s.len() {
                Seq::empty()
            } else {
                seq![TokenView::Identifier(s.subrange(i, j))] + lex_from(s, j)
            }
        } else if numeric(c) {
            let j = number_end(s, i + 1);
            if j <= i || j > s.len() {
                Seq::empty()
            } else {
                seq![TokenView::Number(s.subrange(i, j))] + lex_from(s, j)
            }
        } else {
            lex_from(s, i + 1)
        }
    }
}

/// All tokens of `s`, closed by an end-of-stream token.
pub open spec fn lex(s: Seq<char>) -> Seq<TokenView> {
    lex_from(s, 0).push(TokenView::Eof)
}

proof fn lemma_run_ends(s: Seq<char>, k: int)
    requires
        0 <= k <= s.len(),
    ensures
        k <= ident_end(s, k) <= s.len(),
        k <= number_end(s, k) <= s.len(),
        k <= quote_end(s, k) <= s.len(),
    decreases s.len() - k,
{
    if k < s.len() {
        lemma_run_ends(s, k + 1);
    }
}

proof fn lemma_lex_no_eof(s: Seq<char>, i: int)
    ensures
        forall|k: int| 0 <= k < lex_from(s, i).len() ==> !(#[trigger] lex_from(s, i)[k] is Eof),
    decreases s.len() - i,
{
    if 0 <= i < s.len() {
        let c = s[i];
        lemma_run_ends(s, i + 1);
        if punct(c) is Some {
            lemma_lex_no_eof(s, i + 1);
        } else if c == '=' {
            lemma_lex_no_eof(s, i + 1);
            if i + 2 <= s.len() {
                lemma_lex_no_eof(s, i + 2);
            }
        } else if c == '"' {
            let j = quote_end(s, i + 1);
            if j < s.len() {
                lemma_lex_no_eof(s, j + 1);
            }
        } else if alphabetic(c) || c == '_' {
            lemma_lex_no_eof(s, ident_end(s, i + 1));
        } else if numeric(c) {
            lemma_lex_no_eof(s, number_end(s, i + 1));
        } else {
            lemma_lex_no_eof(s, i + 1);
        }
        let r = lex_from(s, i);
        assert forall|k: int| 0 <= k < r.len() implies !(#[trigger] r[k] is Eof) by {
            if punct(c) is Some {
                if k > 0 {
                    assert(r[k] == lex_from(s, i + 1)[k - 1]);
                }
            } else if c == '=' {
                if k > 0 {
                    if i + 1 < s.len() && s[i + 1] == '>' {
                        assert(r[k] == lex_from(s, i + 2)[k - 1]);
                    } else {
                        assert(r[k] == lex_from(s, i + 1)[k - 1]);
                    }
                }
            } else if c == '"' {
                let j = quote_end(s, i + 1);
                if k > 0 && j < s.len() {
                    assert(r[k] == lex_from(s, j + 1)[k - 1]);
                }
            } else if alphabetic(c) || c == '_' {
                if k > 0 {
                    assert(r[k] == lex_from(s, ident_end(s, i + 1))[k - 1]);
                }
            } else if numeric(c) {
                if k > 0 {
                    assert(r[k] == lex_from(s, number_end(s, i + 1))[k - 1]);
                }
            } else {
                assert(r[k] == lex_from(s, i + 1)[k]);
            }
        }
    }
}

/// The name of a token's kind, as error messages give it.
pub open spec fn kind_name(t: TokenView) -> Seq<char> {
    match t {
        TokenView::Identifier(_) => "Identifier"@,
        TokenView::Str(_) => "String"@,
        TokenView::Number(_) => "Number"@,
        TokenView::LeftBrace => "LeftBrace"@,
        TokenView::RightBrace => "RightBrace"@,
        TokenView::LeftParen => "LeftParen"@,
        TokenView::RightParen => "RightParen"@,
        TokenView::Colon => "Colon"@,
        TokenView::Equals => "Equals"@,
        TokenView::Comma => "Comma"@,
        TokenView::Dot => "Dot"@,
        TokenView::Arrow => "Arrow"@,
        TokenView::Plus => "Plus"@,
        TokenView::Minus => "Minus"@,
        TokenView::Eof => "Eof"@,
    }
}

/// `e` reports that `what` was expected.
pub open spec fn expected_error(e: ParseError, what: Seq<char>) -> bool {
    e matches ParseError::ExpectedToken(m) && m@ == what
}

/// The kind of a token, as a number.
pub open spec fn kind_index(t: TokenView) -> u8 {
    match t {
        TokenView::Identifier(_) => 0,
        TokenView::Str(_) => 1,
        TokenView::Number(_) => 2,
        TokenView::LeftBrace => 3,
        TokenView::RightBrace => 4,
        TokenView::LeftParen => 5,
        TokenView::RightParen => 6,
        TokenView::Colon => 7,
        TokenView::Equals => 8,
        TokenView::Comma => 9,
        TokenView::Dot => 10,
        TokenView::Arrow => 11,
        TokenView::Plus => 12,
        TokenView::Minus => 13,
        TokenView::Eof => 14,
    }
}

/// Two tokens of the same kind, whatever they hold.
pub open spec fn same_kind(a: TokenView, b: TokenView) -> bool {
    kind_index(a) == kind_index(b)
}

/// The kind of `t`, as a number.
pub fn token_kind(t: &Token) -> (r: u8)
    ensures
        r == kind_index(t@),
{
    match t {
        Token::Identifier(_) => 0,
        Token::String(_) => 1,
        Token::Number(_) => 2,
        Token::LeftBrace => 3,
        Token::RightBrace => 4,
        Token::LeftParen => 5,
        Token::RightParen => 6,
        Token::Colon => 7,
        Token::Equals => 8,
        Token::Comma => 9,
        Token::Dot => 10,
        Token::Arrow => 11,
        Token::Plus => 12,
        Token::Minus => 13,
        Token::Eof => 14,
    }
}

/// The text that `{:?}` gives for a string: quoted, with escapes.
pub uninterp spec fn debug_str(s: Seq<char>) -> Seq<char>;

/// Relies on `<str as Debug>::fmt`: the quoted, escaped text of `s`.
#[verifier::external_body]
fn debug_text(s: &str) -> (r: String)
    ensures
        r@ == debug_str(s@),
{
    format!("{:?}", s)
}

/// A token as `{:?}` shows it: its kind, and its text where it has one.
pub open spec fn token_debug(t: TokenView) -> Seq<char> {
    match t {
        TokenView::Identifier(s) => "Identifier("@ + debug_str(s) + ")"@,
        TokenView::Str(s) => "String("@ + debug_str(s) + ")"@,
        TokenView::Number(s) => "Number("@ + debug_str(s) + ")"@,
        _ => kind_name(t),
    }
}

/// The text of `t` as `{:?}` shows it.
pub fn token_debug_text(t: &Token) -> (r: String)
    ensures
        r@ == token_debug(t@),
{
    let (mut r, payload) = match t {
        Token::Identifier(s) => (String::from_str("Identifier("), s),
        Token::String(s) => (String::from_str("String("), s),
        Token::Number(s) => (String::from_str("Number("), s),
        Token::LeftBrace => { return String::from_str("LeftBrace"); },
        Token::RightBrace => { return String::from_str("RightBrace"); },
        Token::LeftParen => { return String::from_str("LeftParen"); },
        Token::RightParen => { return String::from_str("RightParen"); },
        Token::Colon => { return String::from_str("Colon"); },
        Token::Equals => { return String::from_str("Equals"); },
        Token::Comma => { return String::from_str("Comma"); },
        Token::Dot => { return String::from_str("Dot"); },
        Token::Arrow => { return String::from_str("Arrow"); },
        Token::Plus => { return String::from_str("Plus"); },
        Token::Minus => { return String::from_str("Minus"); },
        Token::Eof => { return String::from_str("Eof"); },
    };
    r.append(debug_text(payload.as_str()).as_str());
    r.append(")");
    r
}

pub struct Parser {
    source: String,
    pos: usize,
    tokens: Vec<Token>,
}

impl Parser {
    /// The token stream ends with its one end-of-stream token, and the
    /// position lies within it.
    pub closed spec fn wf(&self) -> bool {
        &&& self.tokens@.len() >= 1
        &&& self.tokens@.last() is Eof
        &&& forall|k: int| 0 <= k < self.tokens@.len() - 1 ==> !(#[trigger] self.tokens@[k] is Eof)
        &&& self.pos < self.tokens@.len()
    }

    /// How many tokens are left to read.
    pub closed spec fn remaining(&self) -> int {
        self.tokens@.len() - self.pos
    }

    /// `self` reads the same tokens as `old`, from no earlier a position.
    pub open spec fn follows(&self, old: Parser) -> bool {
        &&& self.wf()
        &&& self.token_seq() == old.token_seq()
        &&& self.remaining() <= old.remaining()
    }

    pub closed spec fn token_seq(&self) -> Seq<TokenView> {
        token_views(self.tokens@)
    }

    pub closed spec fn position(&self) -> int {
        self.pos as int
    }

    pub closed spec fn current(&self) -> TokenView {
        self.tokens@[self.pos as int]@
    }

    /// The current token is the one at the current position.
    pub proof fn lemma_current(&self)
        requires
            self.wf(),
        ensures
            0 <= self.position() < self.token_seq().len(),
            self.current() == self.token_seq()[self.position()],
            self.token_seq().last() is Eof,
            !(self.current() is Eof) ==> self.position() + 1 < self.token_seq().len(),
    {
    }

    pub fn new(source: &str) -> (r: Self)
        requires
            source@.len() < usize::MAX,
        ensures
            r.wf(),
            r.token_seq() == lex(source@),
            r.position() == 0,
            r.current() == lex(source@)[0],
    {
        let tokens = Self::tokenize(source);
        Parser { source: String::from_str(source), pos: 0, tokens }
    }

    fn tokenize(source: &str) -> (r: Vec<Token>)
        requires
            source@.len() < usize::MAX,
        ensures
            token_views(r@) == lex(source@),
            r@.len() >= 1,
            r@.last() is Eof,
            forall|k: int| 0 <= k < r@.len() - 1 ==> !(#[trigger] r@[k] is Eof),
    {
        let s = to_chars(source);
        let n = s.len();
        let mut tokens: Vec<Token> = Vec::new();
        let mut i: usize = 0;
        assert(token_views(tokens@) =~= Seq::<TokenView>::empty());
        while i < n
            invariant
                n == s@.len(),
                s@ == source@,
                n < usize::MAX,
                0 <= i <= n,
                token_views(tokens@) + lex_from(s@, i as int) == lex_from(s@, 0),
            decreases n - i,
        {
            let ghost t0 = token_views(tokens@);
            let c = s[i];
            proof {
                lemma_run_ends(s@, i as int + 1);
            }
            let next: usize;
            if c == '{' || c == '}' || c == '(' || c == ')' || c == ':' || c == ',' || c == '.'
                || c == '+' || c == '-' {
                let t = if c == '{' {
                    Token::LeftBrace
                } else if c == '}' {
                    Token::RightBrace
                } else if c == '(' {
                    Token::LeftParen
                } else if c == ')' {
                    Token::RightParen
                } else if c == ':' {
                    Token::Colon
                } else if c == ',' {
                    Token::Comma
                } else if c == '.' {
                    Token::Dot
                } else if c == '+' {
                    Token::Plus
                } else {
                    Token::Minus
                };
                assert(t@ == punct(c)->0);
                tokens.push(t);
                next = i + 1;
            } else if c == '=' {
                if i + 1 < n && s[i + 1] == '>' {
                    tokens.push(Token::Arrow);
                    next = i + 2;
                } else {
                    tokens.push(Token::Equals);
                    next = i + 1;
                }
            } else if c == '"' {
                let mut j: usize = i + 1;
                while j < n && s[j] != '"'
                    invariant
                        i + 1 <= j <= n,
                        n == s@.len(),
                        quote_end(s@, j as int) == quote_end(s@, i + 1),
                    decreases n - j,
                {
                    j = j + 1;
                }
                tokens.push(Token::String(string_of(&s, i + 1, j)));
                next = if j < n {
                    j + 1
                } else {
                    j
                };
                proof {
                    if j >= n {
                        assert(lex_from(s@, j as int) == Seq::<TokenView>::empty());
                    }
                }
            } else if is_alphabetic(c) || c == '_' {
                let mut j: usize = i + 1;
                while j < n && (is_alphanumeric(s[j]) || s[j] == '_' || s[j] == '-' || s[j] == ':')
                    invariant
                        i + 1 <= j <= n,
                        n == s@.len(),
                        ident_end(s@, j as int) == ident_end(s@, i + 1),
                    decreases n - j,
                {
                    j = j + 1;
                }
                tokens.push(Token::Identifier(string_of(&s, i, j)));
                next = j;
            } else if is_numeric(c) {
                let mut j: usize = i + 1;
                while j < n && (is_numeric(s[j]) || s[j] == '.')
                    invariant
                        i + 1 <= j <= n,
                        n == s@.len(),
                        number_end(s@, j as int) == number_end(s@, i + 1),
                    decreases n - j,
                {
                    j = j + 1;
                }
                tokens.push(Token::Number(string_of(&s, i, j)));
                next = j;
            } else {
                next = i + 1;
            }
            assert(token_views(tokens@) + lex_from(s@, next as int) =~= t0 + lex_from(
                s@,
                i as int,
            ));
            i = next;
        }
        tokens.push(Token::Eof);
        assert(token_views(tokens@) =~= lex_from(s@, 0).push(TokenView::Eof));
        proof {
            lemma_lex_no_eof(s@, 0);
            assert forall|k: int| 0 <= k < tokens@.len() - 1 implies !(#[trigger] tokens@[k] is Eof) by {
                assert(token_views(tokens@)[k] == tokens@[k]@);
                assert(token_views(tokens@)[k] == lex_from(s@, 0)[k]);
            }
        }
        tokens
    }
}

impl Parser {
    fn current_token(&self) -> (r: &Token)
        requires
            self.wf(),
        ensures
            r@ == self.current(),
    {
        &self.tokens[self.pos]
    }

    /// Moves to the next token; the end-of-stream token is never left.
    fn advance(&mut self)
        requires
            old(self).wf(),
        ensures
            final(self).follows(*old(self)),
            old(self).current() is Eof ==> *final(self) == *old(self),
            !(old(self).current() is Eof) ==> final(self).remaining() == old(self).remaining() - 1
                && final(self).position() == old(self).position() + 1,
    {
        if self.pos < self.tokens.len() - 1 {
            self.pos = self.pos + 1;
        }
        proof {
            assert(token_views(self.tokens@) == token_views(old(self).tokens@));
        }
    }

    fn at_right_brace(&self) -> (r: bool)
        requires
            self.wf(),
        ensures
            r == (self.current() is RightBrace),
    {
        match self.current_token() {
            Token::RightBrace => true,
            _ => false,
        }
    }

    fn at_left_brace(&self) -> (r: bool)
        requires
            self.wf(),
        ensures
            r == (self.current() is LeftBrace),
    {
        match self.current_token() {
            Token::LeftBrace => true,
            _ => false,
        }
    }

    fn at_eof(&self) -> (r: bool)
        requires
            self.wf(),
        ensures
            r == (self.current() is Eof),
    {
        match self.current_token() {
            Token::Eof => true,
            _ => false,
        }
    }

    fn at_kind(&self, kind: &Token) -> (r: bool)
        requires
            self.wf(),
        ensures
            r == same_kind(self.current(), kind@),
    {
        token_kind(self.current_token()) == token_kind(kind)
    }

    /// Takes the current token if it is an identifier, and returns its text.
    fn take_identifier(&mut self) -> (r: Option<String>)
        requires
            old(self).wf(),
        ensures
            final(self).follows(*old(self)),
            match r {
                Some(n) => old(self).current() == TokenView::Identifier(n@) && final(self).remaining()
                    == old(self).remaining() - 1 && final(self).position() == old(self).position() + 1,
                None => !(old(self).current() is Identifier) && *final(self) == *old(self),
            },
    {
        let name = match self.current_token() {
            Token::Identifier(n) => n.clone(),
            _ => {
                return None;
            },
        };
        self.advance();
        Some(name)
    }

    /// Takes the current token if it is a string, and returns its text.
    fn take_string(&mut self) -> (r: Option<String>)
        requires
            old(self).wf(),
        ensures
            final(self).follows(*old(self)),
            match r {
                Some(n) => old(self).current() == TokenView::Str(n@) && final(self).remaining()
                    == old(self).remaining() - 1 && final(self).position() == old(self).position() + 1,
                None => !(old(self).current() is Str) && *final(self) == *old(self),
            },
    {
        let text = match self.current_token() {
            Token::String(n) => n.clone(),
            _ => {
                return None;
            },
        };
        self.advance();
        Some(text)
    }

    /// Takes the current token if it is a number, and returns its text.
    fn take_number(&mut self) -> (r: Option<String>)
        requires
            old(self).wf(),
        ensures
            final(self).follows(*old(self)),
            match r {
                Some(n) => old(self).current() == TokenView::Number(n@) && final(self).remaining()
                    == old(self).remaining() - 1 && final(self).position() == old(self).position() + 1,
                None => !(old(self).current() is Number) && *final(self) == *old(self),
            },
    {
        let text = match self.current_token() {
            Token::Number(n) => n.clone(),
            _ => {
                return None;
            },
        };
        self.advance();
        Some(text)
    }

    /// Takes the current token if it has the kind of `expected`; its payload is
    /// not compared.
    fn expect(&mut self, expected: Token) -> (r: Result<(), ParseError>)
        requires
            old(self).wf(),
        ensures
            final(self).follows(*old(self)),
            r is Ok <==> same_kind(old(self).current(), expected@),
            r is Ok && !(expected is Eof) ==> final(self).remaining() == old(self).remaining() - 1
                && final(self).position() == old(self).position() + 1,
            match r {
                Ok(()) => true,
                Err(e) => *final(self) == *old(self) && expected_error(e, token_debug(expected@)),
            },
    {
        if self.at_kind(&expected) {
            self.advance();
            Ok(())
        } else {
            Err(ParseError::ExpectedToken(token_debug_text(&expected)))
        }
    }

    fn unexpected(&self) -> (r: ParseError)
        requires
            self.wf(),
        ensures
            r matches ParseError::UnexpectedToken(m) && m@ == token_debug(self.current()),
    {
        ParseError::UnexpectedToken(token_debug_text(self.current_token()))
    }
}

/// A parse error, with its message as a character sequence.
pub enum ErrView {
    Unexpected(Seq<char>),
    Expected(Seq<char>),
    Invalid(Seq<char>),
}

impl View for ParseError {
    type V = ErrView;

    open spec fn view(&self) -> ErrView {
        match self {
            ParseError::UnexpectedToken(m) => ErrView::Unexpected(m@),
            ParseError::ExpectedToken(m) => ErrView::Expected(m@),
            ParseError::InvalidSyntax(m) => ErrView::Invalid(m@),
        }
    }
}

/// The outcome of reading from some position: a value and the position after
/// it, or the error that stops the reading.
pub enum Step<T> {
    Done(T, int),
    Fail(ErrView),
}

/// `xs` in front of what `s` read.
pub open spec fn cons<T>(xs: Seq<T>, s: Step<Seq<T>>) -> Step<Seq<T>> {
    match s {
        Step::Done(ys, j) => Step::Done(xs + ys, j),
        Step::Fail(e) => Step::Fail(e),
    }
}

/// The token at `i`, or the end of the stream past it.
pub open spec fn tok(ts: Seq<TokenView>, i: int) -> TokenView {
    if 0 <= i < ts.len() {
        ts[i]
    } else {
        TokenView::Eof
    }
}

/// The position after `i`: the last token is never left.
pub open spec fn adv(ts: Seq<TokenView>, i: int) -> int {
    if i < ts.len() - 1 {
        i + 1
    } else {
        i
    }
}

pub open spec fn expected(what: Seq<char>) -> ErrView {
    ErrView::Expected(what)
}

/// The text of the attribute expression from `i` up to the first `}`, which
/// is taken too.
pub open spec fn expr_from(ts: Seq<TokenView>, i: int) -> Step<Seq<char>>
    decreases ts.len() - i,
{
    if i < 0 || i >= ts.len() || ts[i] is Eof {
        Step::Fail(expected("RightBrace"@))
    } else if ts[i] is RightBrace {
        Step::Done(Seq::empty(), adv(ts, i))
    } else {
        cons(expr_piece(ts[i]), expr_from(ts, i + 1))
    }
}

/// `r`, ending at position `j`, as a step.
pub open spec fn as_step_str(r: Result<String, ParseError>, j: int) -> Step<Seq<char>> {
    match r {
        Ok(x) => Step::Done(x@, j),
        Err(e) => Step::Fail(e@),
    }
}

/// An attribute value, as character sequences.
pub enum AttrValueView {
    Str(Seq<char>),
    Expr(Seq<char>),
    Flag(bool),
}

/// An attribute, as character sequences.
pub struct AttrView {
    pub name: Seq<char>,
    pub value: AttrValueView,
}

pub open spec fn attr_view(a: Attribute) -> AttrView {
    AttrView {
        name: a.name@,
        value: match a.value {
            AttributeValue::String(v) => AttrValueView::Str(v@),
            AttributeValue::Expression(x) => AttrValueView::Expr(x@),
            AttributeValue::Boolean(b) => AttrValueView::Flag(b),
        },
    }
}

pub open spec fn attrs_view(s: Seq<Attribute>) -> Seq<AttrView> {
    s.map_values(|a: Attribute| attr_view(a))
}

/// An element, as character sequences.
pub enum ElemView {
    Text(Seq<char>),
    Tag(Seq<char>, Seq<AttrView>, Seq<ElemView>),
    Slot(Seq<char>),
    Comp(Seq<char>, Seq<AttrView>, Seq<ElemView>),
    Interp(Seq<char>),
}

pub open spec fn elem_view(e: Element) -> ElemView
    decreases e,
{
    match e {
        Element::Text(t) => ElemView::Text(t@),
        Element::Tag { name, attributes, content } => ElemView::Tag(
            name@,
            attrs_view(attributes@),
            elems_view(content@),
        ),
        Element::Slot(n) => ElemView::Slot(n@),
        Element::Component { name, attributes, content } => ElemView::Comp(
            name@,
            attrs_view(attributes@),
            elems_view(content@),
        ),
        Element::Interpolation(x) => ElemView::Interp(x@),
    }
}

pub open spec fn elems_view(s: Seq<Element>) -> Seq<ElemView>
    decreases s,
{
    if s.len() == 0 {
        Seq::empty()
    } else {
        elems_view(s.drop_last()).push(elem_view(s.last()))
    }
}

/// The attribute list of an element ends at `i`: no name, or a name that opens
/// a block of its own.
pub open spec fn attrs_end(ts: Seq<TokenView>, i: int) -> bool {
    !(tok(ts, i) is Identifier) || tok(ts, i + 1) is LeftBrace
}

/// The attributes from `i`: each a name, then `= "text"`, `= { expression }`,
/// or nothing (a flag; so is `=` before anything else).
pub open spec fn attrs_from(ts: Seq<TokenView>, i: int) -> Step<Seq<AttrView>>
    decreases ts.len() - i,
{
    if i < 0 || i >= ts.len() - 1 || attrs_end(ts, i) {
        Step::Done(Seq::empty(), i)
    } else {
        let name = tok(ts, i)->Identifier_0;
        let v: Step<AttrValueView> = if tok(ts, i + 1) is Equals {
            if tok(ts, i + 2) is Str {
                Step::Done(AttrValueView::Str(tok(ts, i + 2)->Str_0), i + 3)
            } else if tok(ts, i + 2) is LeftBrace {
                match expr_from(ts, i + 3) {
                    Step::Done(x, j) => Step::Done(AttrValueView::Expr(x), j),
                    Step::Fail(e) => Step::Fail(e),
                }
            } else {
                Step::Done(AttrValueView::Flag(true), i + 2)
            }
        } else {
            Step::Done(AttrValueView::Flag(true), i + 1)
        };
        match v {
            Step::Fail(e) => Step::Fail(e),
            Step::Done(value, j) => if j <= i || j > ts.len() {
                Step::Fail(ErrView::Invalid(Seq::empty()))
            } else {
                cons(seq![AttrView { name, value }], attrs_from(ts, j))
            },
        }
    }
}

/// The element that a string standing alone in a block makes.
pub open spec fn lone_text(t: Seq<char>) -> ElemView {
    if t.len() >= 2 && t[0] == '{' && t.last() == '}' {
        ElemView::Interp(t.subrange(1, t.len() - 1))
    } else {
        ElemView::Text(t)
    }
}

pub open spec fn piece_view(p: Piece) -> ElemView {
    match p {
        Piece::Text(x) => ElemView::Text(x),
        Piece::Interp(x) => ElemView::Interp(x),
    }
}

/// The elements that a string body splits into.
pub open spec fn split_view(t: Seq<char>) -> Seq<ElemView> {
    split_text(t).map_values(|p: Piece| piece_view(p))
}

/// The element from `i`: a string, a slot, or a tag or component with its
/// attributes and body.
pub open spec fn elem_at(ts: Seq<TokenView>, i: int) -> Step<ElemView>
    decreases ts.len() - i, 0int,
{
    if i < 0 || i >= ts.len() {
        Step::Fail(ErrView::Unexpected(token_debug(TokenView::Eof)))
    } else {
        match ts[i] {
            TokenView::Str(t) => Step::Done(lone_text(t), i + 1),
            TokenView::Identifier(n) => if n == "slot"@ {
                match tok(ts, i + 1) {
                    TokenView::Identifier(m) => Step::Done(ElemView::Slot(m), i + 2),
                    _ => Step::Done(ElemView::Slot("content"@), i + 1),
                }
            } else {
                match attrs_from(ts, i + 1) {
                    Step::Fail(e) => Step::Fail(e),
                    Step::Done(attrs, k) => if k <= i || k >= ts.len() {
                        Step::Fail(ErrView::Invalid(Seq::empty()))
                    } else {
                        match body_at(ts, k) {
                            Step::Fail(e) => Step::Fail(e),
                            Step::Done(content, j) => Step::Done(
                                if component_name(n) {
                                    ElemView::Comp(n, attrs, content)
                                } else {
                                    ElemView::Tag(n, attrs, content)
                                },
                                j,
                            ),
                        }
                    },
                }
            },
            t => Step::Fail(ErrView::Unexpected(token_debug(t))),
        }
    }
}

/// The body of an element at `k`: a string split into pieces, a block
/// `{ Element* }`, or nothing.
pub open spec fn body_at(ts: Seq<TokenView>, k: int) -> Step<Seq<ElemView>>
    decreases ts.len() - k, 2int,
{
    if k < 0 || k >= ts.len() {
        Step::Fail(ErrView::Invalid(Seq::empty()))
    } else if ts[k] is Str {
        Step::Done(split_view(ts[k]->Str_0), k + 1)
    } else if ts[k] is LeftBrace {
        match children_at(ts, k + 1) {
            Step::Fail(e) => Step::Fail(e),
            Step::Done(cs, j) => Step::Done(cs, adv(ts, j)),
        }
    } else {
        Step::Done(Seq::empty(), k)
    }
}

/// The elements of a block from `i` up to its `}` (which is not taken).
pub open spec fn children_at(ts: Seq<TokenView>, i: int) -> Step<Seq<ElemView>>
    decreases ts.len() - i, 1int,
{
    if i < 0 || i > ts.len() {
        Step::Fail(ErrView::Invalid(Seq::empty()))
    } else if tok(ts, i) is RightBrace {
        Step::Done(Seq::empty(), i)
    } else {
        match elem_at(ts, i) {
            Step::Fail(e) => Step::Fail(e),
            Step::Done(e, j) => if j <= i || j > ts.len() {
                Step::Fail(ErrView::Invalid(Seq::empty()))
            } else {
                cons(seq![e], children_at(ts, j))
            },
        }
    }
}

pub open spec fn as_step_elem(r: Result<Element, ParseError>, j: int) -> Step<ElemView> {
    match r {
        Ok(e) => Step::Done(elem_view(e), j),
        Err(e) => Step::Fail(e@),
    }
}

pub proof fn lemma_cons_empty<T>(s: Step<Seq<T>>)
    ensures
        cons(Seq::<T>::empty(), s) == s,
{
    match s {
        Step::Done(ys, j) => {
            assert(Seq::<T>::empty() + ys =~= ys);
        },
        Step::Fail(e) => {},
    }
}

pub proof fn lemma_cons_cons<T>(xs: Seq<T>, ys: Seq<T>, s: Step<Seq<T>>)
    ensures
        cons(xs, cons(ys, s)) == cons(xs + ys, s),
{
    match s {
        Step::Done(zs, j) => {
            assert(xs + (ys + zs) =~= (xs + ys) + zs);
        },
        Step::Fail(e) => {},
    }
}

pub proof fn lemma_cons_done<T>(xs: Seq<T>, j: int)
    ensures
        cons(xs, Step::Done(Seq::<T>::empty(), j)) == Step::Done(xs, j),
{
    assert(xs + Seq::<T>::empty() =~= xs);
}

pub proof fn lemma_elems_view_push(s: Seq<Element>, e: Element)
    ensures
        elems_view(s.push(e)) == elems_view(s) + seq![elem_view(e)],
{
    assert(s.push(e).drop_last() =~= s);
    assert(elems_view(s).push(elem_view(e)) =~= elems_view(s) + seq![elem_view(e)]);
}

/// Text and interpolation elements view as the pieces they are.
pub proof fn lemma_split_views(s: Seq<Element>)
    requires
        forall|m: int| 0 <= m < s.len() ==> (#[trigger] s[m] is Text || s[m] is Interpolation),
    ensures
        elems_view(s) == pieces(s).map_values(|p: Piece| piece_view(p)),
    decreases s.len(),
{
    if s.len() > 0 {
        let d = s.drop_last();
        assert forall|m: int| 0 <= m < d.len() implies (#[trigger] d[m] is Text || d[m] is Interpolation) by {
            assert(d[m] == s[m]);
        }
        lemma_split_views(d);
        assert(s.last() == s[s.len() - 1]);
        assert(elem_view(s.last()) == piece_view(as_piece(s.last())));
        assert(elems_view(s) == elems_view(d).push(elem_view(s.last())));
        assert(pieces(s).map_values(|p: Piece| piece_view(p)) =~= pieces(d).map_values(
            |p: Piece| piece_view(p),
        ).push(piece_view(as_piece(s.last()))));
    } else {
        assert(pieces(s).map_values(|p: Piece| piece_view(p)) =~= Seq::<ElemView>::empty());
    }
}

/// The properties of a style rule from `i`, each `name : value` with a string
/// or identifier value, up to and with the closing `}`.
pub open spec fn properties_from(ts: Seq<TokenView>, i: int) -> Step<Seq<(Seq<char>, Seq<char>)>>
    decreases ts.len() - i,
{
    if i < 0 || i >= ts.len() {
        Step::Fail(expected("property name"@))
    } else if ts[i] is RightBrace {
        Step::Done(Seq::empty(), i + 1)
    } else if !(ts[i] is Identifier) {
        Step::Fail(expected("property name"@))
    } else if !(tok(ts, i + 1) is Colon) {
        Step::Fail(expected(token_debug(TokenView::Colon)))
    } else if i + 3 > ts.len() {
        Step::Fail(ErrView::Invalid(Seq::empty()))
    } else {
        match tok(ts, i + 2) {
            TokenView::Str(v) => cons(seq![(ts[i]->Identifier_0, v)], properties_from(ts, i + 3)),
            TokenView::Identifier(v) => cons(
                seq![(ts[i]->Identifier_0, v)],
                properties_from(ts, i + 3),
            ),
            _ => Step::Fail(expected("property value"@)),
        }
    }
}

/// The style rule from `i`: `selector { properties }`.
pub open spec fn rule_at(ts: Seq<TokenView>, i: int) -> Step<(Seq<char>, Seq<(Seq<char>, Seq<char>)>)> {
    match tok(ts, i) {
        TokenView::Identifier(sel) => if !(tok(ts, i + 1) is LeftBrace) {
            Step::Fail(expected(token_debug(TokenView::LeftBrace)))
        } else {
            match properties_from(ts, i + 2) {
                Step::Done(ps, j) => Step::Done((sel, ps), j),
                Step::Fail(e) => Step::Fail(e),
            }
        },
        _ => Step::Fail(expected("style selector"@)),
    }
}

pub open spec fn props_view(ps: Seq<StyleProperty>) -> Seq<(Seq<char>, Seq<char>)> {
    ps.map_values(|p: StyleProperty| (p.name@, p.value@))
}

pub open spec fn as_step_rule(r: Result<StyleRule, ParseError>, j: int) -> Step<
    (Seq<char>, Seq<(Seq<char>, Seq<char>)>),
> {
    match r {
        Ok(rule) => Step::Done((rule.selector@, props_view(rule.properties@)), j),
        Err(e) => Step::Fail(e@),
    }
}

/// A block `{ Element* }` from `i`.
pub open spec fn block_at(ts: Seq<TokenView>, i: int) -> Step<Seq<ElemView>> {
    if 0 <= i < ts.len() && ts[i] is LeftBrace {
        match children_at(ts, i + 1) {
            Step::Fail(e) => Step::Fail(e),
            Step::Done(cs, j) => Step::Done(cs, adv(ts, j)),
        }
    } else {
        Step::Fail(expected(token_debug(TokenView::LeftBrace)))
    }
}

/// `keyword NAME { Element* }` from `i`, where the name is an identifier
/// (`named_by_string` false) or a string; `missing` names the error when it is
/// absent.
pub open spec fn section_at(
    ts: Seq<TokenView>,
    i: int,
    keyword: Seq<char>,
    named_by_string: bool,
    missing: Seq<char>,
) -> Step<(Seq<char>, Seq<ElemView>)> {
    if !(tok(ts, i) is Identifier) {
        Step::Fail(expected(token_debug(TokenView::Identifier(keyword))))
    } else {
        let n = tok(ts, i + 1);
        if named_by_string && n is Str || !named_by_string && n is Identifier {
            let name = if named_by_string {
                n->Str_0
            } else {
                n->Identifier_0
            };
            match block_at(ts, i + 2) {
                Step::Done(cs, j) => Step::Done((name, cs), j),
                Step::Fail(e) => Step::Fail(e),
            }
        } else {
            Step::Fail(expected(missing))
        }
    }
}

pub open spec fn as_step_elems(r: Result<Vec<Element>, ParseError>, j: int) -> Step<Seq<ElemView>> {
    match r {
        Ok(cs) => Step::Done(elems_view(cs@), j),
        Err(e) => Step::Fail(e@),
    }
}

pub open spec fn as_step_layout(r: Result<Layout, ParseError>, j: int) -> Step<(Seq<char>, Seq<ElemView>)> {
    match r {
        Ok(l) => Step::Done((l.name@, elems_view(l.content@)), j),
        Err(e) => Step::Fail(e@),
    }
}

pub open spec fn as_step_page(r: Result<Page, ParseError>, j: int) -> Step<(Seq<char>, Seq<ElemView>)> {
    match r {
        Ok(p) => Step::Done((p.name@, elems_view(p.content@)), j),
        Err(e) => Step::Fail(e@),
    }
}

pub open spec fn opt_view(o: Option<String>) -> Option<Seq<char>> {
    match o {
        Some(x) => Some(x@),
        None => None,
    }
}

/// The props of a `props` block from `i`: `name` or `name : type`, up to and
/// with the closing `}`.
pub open spec fn props_list(ts: Seq<TokenView>, i: int) -> Step<Seq<(Seq<char>, Option<Seq<char>>)>>
    decreases ts.len() - i,
{
    if i < 0 || i >= ts.len() {
        Step::Fail(expected("prop name"@))
    } else if ts[i] is RightBrace {
        Step::Done(Seq::empty(), i + 1)
    } else if !(ts[i] is Identifier) {
        Step::Fail(expected("prop name"@))
    } else if tok(ts, i + 1) is Colon {
        if !(tok(ts, i + 2) is Identifier) {
            Step::Fail(expected("prop type"@))
        } else if i + 3 > ts.len() {
            Step::Fail(ErrView::Invalid(Seq::empty()))
        } else {
            cons(
                seq![(ts[i]->Identifier_0, Some(tok(ts, i + 2)->Identifier_0))],
                props_list(ts, i + 3),
            )
        }
    } else {
        cons(seq![(ts[i]->Identifier_0, None::<Seq<char>>)], props_list(ts, i + 1))
    }
}

/// The state variables of a `state` block from `i`: `name : type`, then
/// `= number` or `= "text"` where there is a default, up to and with `}`.
pub open spec fn state_list(ts: Seq<TokenView>, i: int) -> Step<
    Seq<(Seq<char>, Seq<char>, Option<Seq<char>>)>,
>
    decreases ts.len() - i,
{
    if i < 0 || i >= ts.len() {
        Step::Fail(expected("state name"@))
    } else if ts[i] is RightBrace {
        Step::Done(Seq::empty(), i + 1)
    } else if !(ts[i] is Identifier) {
        Step::Fail(expected("state name"@))
    } else if !(tok(ts, i + 1) is Colon) {
        Step::Fail(expected(token_debug(TokenView::Colon)))
    } else if !(tok(ts, i + 2) is Identifier) {
        Step::Fail(expected("state type"@))
    } else if i + 3 > ts.len() {
        Step::Fail(ErrView::Invalid(Seq::empty()))
    } else {
        let n = ts[i]->Identifier_0;
        let t = tok(ts, i + 2)->Identifier_0;
        if tok(ts, i + 3) is Equals {
            if i + 5 > ts.len() {
                Step::Fail(ErrView::Invalid(Seq::empty()))
            } else {
                match tok(ts, i + 4) {
                    TokenView::Number(v) => cons(seq![(n, t, Some(v))], state_list(ts, i + 5)),
                    TokenView::Str(v) => cons(seq![(n, t, Some(v))], state_list(ts, i + 5)),
                    _ => Step::Fail(expected("default value"@)),
                }
            }
        } else {
            cons(seq![(n, t, None::<Seq<char>>)], state_list(ts, i + 3))
        }
    }
}

/// The rules of a `style` block from `i`, up to and with the closing `}`.
pub open spec fn style_list(ts: Seq<TokenView>, i: int) -> Step<
    Seq<(Seq<char>, Seq<(Seq<char>, Seq<char>)>)>,
>
    decreases ts.len() - i,
{
    if i < 0 || i >= ts.len() {
        Step::Fail(ErrView::Invalid(Seq::empty()))
    } else if ts[i] is RightBrace {
        Step::Done(Seq::empty(), i + 1)
    } else {
        match rule_at(ts, i) {
            Step::Fail(e) => Step::Fail(e),
            Step::Done(r, j) => if j <= i || j > ts.len() {
                Step::Fail(ErrView::Invalid(Seq::empty()))
            } else {
                cons(seq![r], style_list(ts, j))
            },
        }
    }
}

/// `{` then what `list` reads, from `i`.
pub open spec fn braced<T>(ts: Seq<TokenView>, i: int, list: Step<Seq<T>>) -> Step<Seq<T>> {
    if tok(ts, i) is LeftBrace {
        list
    } else {
        Step::Fail(expected(token_debug(TokenView::LeftBrace)))
    }
}

pub open spec fn props_view2(ps: Seq<Prop>) -> Seq<(Seq<char>, Option<Seq<char>>)> {
    ps.map_values(|p: Prop| (p.name@, opt_view(p.type_)))
}

pub open spec fn state_view(vs: Seq<StateVar>) -> Seq<(Seq<char>, Seq<char>, Option<Seq<char>>)> {
    vs.map_values(|v: StateVar| (v.name@, v.type_@, opt_view(v.default_value)))
}

pub open spec fn rules_view(rs: Seq<StyleRule>) -> Seq<(Seq<char>, Seq<(Seq<char>, Seq<char>)>)> {
    rs.map_values(|r: StyleRule| (r.selector@, props_view(r.properties@)))
}

pub open spec fn as_step_seq<T, V>(r: Result<Vec<T>, ParseError>, j: int, v: spec_fn(Seq<T>) -> Seq<V>) -> Step<Seq<V>> {
    match r {
        Ok(xs) => Step::Done(v(xs@), j),
        Err(e) => Step::Fail(e@),
    }
}

/// The contents of a component, in source order.
pub struct CompParts {
    pub props: Seq<(Seq<char>, Option<Seq<char>>)>,
    pub state: Seq<(Seq<char>, Seq<char>, Option<Seq<char>>)>,
    pub view: Seq<ElemView>,
    pub style: Seq<(Seq<char>, Seq<(Seq<char>, Seq<char>)>)>,
}

pub open spec fn no_parts() -> CompParts {
    CompParts { props: Seq::empty(), state: Seq::empty(), view: Seq::empty(), style: Seq::empty() }
}

pub open spec fn add_parts(a: CompParts, b: CompParts) -> CompParts {
    CompParts {
        props: a.props + b.props,
        state: a.state + b.state,
        view: a.view + b.view,
        style: a.style + b.style,
    }
}

pub open spec fn cons_parts(a: CompParts, s: Step<CompParts>) -> Step<CompParts> {
    match s {
        Step::Done(b, j) => Step::Done(add_parts(a, b), j),
        Step::Fail(e) => Step::Fail(e),
    }
}

/// Which section of a component a token opens: 1 props, 2 state, 3 view,
/// 4 style, 0 none.
pub open spec fn section_kind(t: TokenView) -> u8 {
    match t {
        TokenView::Identifier(n) => if n == "props"@ {
            1
        } else if n == "state"@ {
            2
        } else if n == "view"@ {
            3
        } else if n == "style"@ {
            4
        } else {
            0
        },
        _ => 0,
    }
}

/// One section of a component from `i`, or one bare element of its view.
pub open spec fn one_section(ts: Seq<TokenView>, i: int) -> Step<CompParts> {
    let kd = section_kind(tok(ts, i));
    if kd == 1 {
        match braced(ts, i + 1, props_list(ts, i + 2)) {
            Step::Done(x, j) => Step::Done(CompParts { props: x, ..no_parts() }, j),
            Step::Fail(e) => Step::Fail(e),
        }
    } else if kd == 2 {
        match braced(ts, i + 1, state_list(ts, i + 2)) {
            Step::Done(x, j) => Step::Done(CompParts { state: x, ..no_parts() }, j),
            Step::Fail(e) => Step::Fail(e),
        }
    } else if kd == 3 {
        match block_at(ts, i + 1) {
            Step::Done(x, j) => Step::Done(CompParts { view: x, ..no_parts() }, j),
            Step::Fail(e) => Step::Fail(e),
        }
    } else if kd == 4 {
        match braced(ts, i + 1, style_list(ts, i + 2)) {
            Step::Done(x, j) => Step::Done(CompParts { style: x, ..no_parts() }, j),
            Step::Fail(e) => Step::Fail(e),
        }
    } else {
        match elem_at(ts, i) {
            Step::Done(e, j) => Step::Done(CompParts { view: seq![e], ..no_parts() }, j),
            Step::Fail(e) => Step::Fail(e),
        }
    }
}

/// The sections of a component from `i`, up to and with its closing `}`.
pub open spec fn sections_from(ts: Seq<TokenView>, i: int) -> Step<CompParts>
    decreases ts.len() - i,
{
    if i < 0 || i >= ts.len() {
        Step::Fail(ErrView::Invalid(Seq::empty()))
    } else if ts[i] is RightBrace {
        Step::Done(no_parts(), i + 1)
    } else {
        match one_section(ts, i) {
            Step::Fail(e) => Step::Fail(e),
            Step::Done(x, j) => if j <= i || j > ts.len() {
                Step::Fail(ErrView::Invalid(Seq::empty()))
            } else {
                cons_parts(x, sections_from(ts, j))
            },
        }
    }
}

/// `component NAME { sections }` from `i`.
pub open spec fn component_at(ts: Seq<TokenView>, i: int) -> Step<(Seq<char>, CompParts)> {
    if !(tok(ts, i) is Identifier) {
        Step::Fail(expected(token_debug(TokenView::Identifier("component"@))))
    } else if !(tok(ts, i + 1) is Identifier) {
        Step::Fail(expected("component name"@))
    } else if !(tok(ts, i + 2) is LeftBrace) {
        Step::Fail(expected(token_debug(TokenView::LeftBrace)))
    } else {
        match sections_from(ts, i + 3) {
            Step::Done(x, j) => Step::Done((tok(ts, i + 1)->Identifier_0, x), j),
            Step::Fail(e) => Step::Fail(e),
        }
    }
}

pub open spec fn comp_view(c: Component) -> (Seq<char>, CompParts) {
    (
        c.name@,
        CompParts {
            props: props_view2(c.props@),
            state: state_view(c.state@),
            view: elems_view(c.view@),
            style: rules_view(c.style@),
        },
    )
}

pub open spec fn as_step_comp(r: Result<Component, ParseError>, j: int) -> Step<(Seq<char>, CompParts)> {
    match r {
        Ok(c) => Step::Done(comp_view(c), j),
        Err(e) => Step::Fail(e@),
    }
}

pub proof fn lemma_cons_parts(a: CompParts, b: CompParts, s: Step<CompParts>)
    ensures
        cons_parts(a, cons_parts(b, s)) == cons_parts(add_parts(a, b), s),
        cons_parts(no_parts(), s) == s,
        add_parts(a, no_parts()) == a,
{
    assert(add_parts(a, no_parts()) =~= a) by {
        assert(a.props + Seq::empty() =~= a.props);
        assert(a.state + Seq::empty() =~= a.state);
        assert(a.view + Seq::empty() =~= a.view);
        assert(a.style + Seq::empty() =~= a.style);
    }
    match s {
        Step::Done(c, j) => {
            assert(add_parts(a, add_parts(b, c)) =~= add_parts(add_parts(a, b), c)) by {
                assert(a.props + (b.props + c.props) =~= (a.props + b.props) + c.props);
                assert(a.state + (b.state + c.state) =~= (a.state + b.state) + c.state);
                assert(a.view + (b.view + c.view) =~= (a.view + b.view) + c.view);
                assert(a.style + (b.style + c.style) =~= (a.style + b.style) + c.style);
            }
            assert(add_parts(no_parts(), c) =~= c) by {
                assert(Seq::empty() + c.props =~= c.props);
                assert(Seq::empty() + c.state =~= c.state);
                assert(Seq::empty() + c.view =~= c.view);
                assert(Seq::empty() + c.style =~= c.style);
            }
        },
        Step::Fail(e) => {},
    }
}

pub proof fn lemma_elems_view_append(a: Seq<Element>, b: Seq<Element>)
    ensures
        elems_view(a + b) == elems_view(a) + elems_view(b),
    decreases b.len(),
{
    if b.len() == 0 {
        assert(a + b =~= a);
        assert(elems_view(a) + elems_view(b) =~= elems_view(a));
    } else {
        assert((a + b).drop_last() =~= a + b.drop_last());
        lemma_elems_view_append(a, b.drop_last());
        assert(elems_view(a) + elems_view(b) =~= elems_view(a) + elems_view(b.drop_last()) + seq![elem_view(b.last())]);
    }
}

/// The index of the first entry named `name`, or -1.
pub open spec fn find_first<V>(s: Seq<(Seq<char>, V)>, name: Seq<char>) -> int
    decreases s.len(),
{
    if s.len() == 0 {
        -1
    } else {
        let k = find_first(s.drop_last(), name);
        if k >= 0 {
            k
        } else if s.last().0 == name {
            s.len() - 1
        } else {
            -1
        }
    }
}

/// Storing `x` replaces the entry of its name, or else appends it.
pub open spec fn insert_first<V>(s: Seq<(Seq<char>, V)>, x: (Seq<char>, V)) -> Seq<(Seq<char>, V)> {
    let k = find_first(s, x.0);
    if k >= 0 {
        s.update(k, x)
    } else {
        s.push(x)
    }
}

proof fn lemma_find_first_view<T: Named, V>(s: Seq<T>, f: spec_fn(T) -> V, name: Seq<char>)
    ensures
        find_first(s.map_values(|t: T| (t.key(), f(t))), name) == find_key(s, name),
    decreases s.len(),
{
    if s.len() > 0 {
        lemma_find_first_view(s.drop_last(), f, name);
        assert(s.map_values(|t: T| (t.key(), f(t))).drop_last() =~= s.drop_last().map_values(
            |t: T| (t.key(), f(t)),
        ));
    }
}

proof fn lemma_find_first_pairs<T: Named, V>(s: Seq<T>, g: spec_fn(T) -> (Seq<char>, V), name: Seq<char>)
    requires
        forall|t: T| #[trigger] g(t).0 == t.key(),
    ensures
        find_first(s.map_values(g), name) == find_key(s, name),
    decreases s.len(),
{
    if s.len() > 0 {
        lemma_find_first_pairs(s.drop_last(), g, name);
        assert(s.map_values(g).drop_last() =~= s.drop_last().map_values(g));
        assert(g(s.last()).0 == s.last().key());
    }
}

/// Storing by name commutes with viewing each item as a (name, value) pair.
pub proof fn lemma_insert_pairs<T: Named, V>(s: Seq<T>, item: T, g: spec_fn(T) -> (Seq<char>, V))
    requires
        forall|t: T| #[trigger] g(t).0 == t.key(),
    ensures
        insert_key(s, item).map_values(g) == insert_first(s.map_values(g), g(item)),
{
    lemma_find_first_pairs(s, g, item.key());
    assert(g(item).0 == item.key());
    crate::ast::lemma_find_key_range(s, item.key());
    assert(insert_key(s, item).map_values(g) =~= insert_first(s.map_values(g), g(item)));
}

/// Storing by name commutes with viewing.
pub proof fn lemma_insert_view<T: Named, V>(s: Seq<T>, item: T, f: spec_fn(T) -> V)
    ensures
        insert_key(s, item).map_values(|t: T| (t.key(), f(t))) == insert_first(
            s.map_values(|t: T| (t.key(), f(t))),
            (item.key(), f(item)),
        ),
{
    lemma_find_first_view(s, f, item.key());
    crate::ast::lemma_find_key_range(s, item.key());
    assert(insert_key(s, item).map_values(|t: T| (t.key(), f(t))) =~= insert_first(
        s.map_values(|t: T| (t.key(), f(t))),
        (item.key(), f(item)),
    ));
}

/// An app, as character sequences.
pub struct AppView {
    pub name: Seq<char>,
    pub theme: Option<Seq<char>>,
    pub layout: Option<Seq<char>>,
    pub routes: Seq<(Seq<char>, Seq<char>)>,
}

pub open spec fn routes_view(rs: Seq<Route>) -> Seq<(Seq<char>, Seq<char>)> {
    rs.map_values(|r: Route| (r.key(), r.component@))
}

pub open spec fn app_view_of(
    name: String,
    theme: Option<String>,
    layout: Option<String>,
    routes: Seq<Route>,
) -> AppView {
    AppView { name: name@, theme: opt_view(theme), layout: opt_view(layout), routes: routes_view(routes) }
}

/// The routes of a `routes` block from `i`, stored into `rs` by path, up to
/// and with the closing `}`.
pub open spec fn routes_list(ts: Seq<TokenView>, i: int, rs: Seq<(Seq<char>, Seq<char>)>) -> Step<
    Seq<(Seq<char>, Seq<char>)>,
>
    decreases ts.len() - i,
{
    if i < 0 || i >= ts.len() {
        Step::Fail(ErrView::Invalid(Seq::empty()))
    } else if ts[i] is RightBrace {
        Step::Done(rs, i + 1)
    } else if !(ts[i] is Str) {
        Step::Fail(expected("route path"@))
    } else if !(tok(ts, i + 1) is Colon) {
        Step::Fail(expected(token_debug(TokenView::Colon)))
    } else if !(tok(ts, i + 2) is Identifier) {
        Step::Fail(expected("component name"@))
    } else if i + 3 > ts.len() {
        Step::Fail(ErrView::Invalid(Seq::empty()))
    } else {
        routes_list(ts, i + 3, insert_first(rs, (ts[i]->Str_0, tok(ts, i + 2)->Identifier_0)))
    }
}

pub open spec fn with_theme(a: AppView, t: Seq<char>) -> AppView {
    AppView { name: a.name, theme: Some(t), layout: a.layout, routes: a.routes }
}

pub open spec fn with_layout(a: AppView, l: Seq<char>) -> AppView {
    AppView { name: a.name, theme: a.theme, layout: Some(l), routes: a.routes }
}

pub open spec fn with_routes(a: AppView, rs: Seq<(Seq<char>, Seq<char>)>) -> AppView {
    AppView { name: a.name, theme: a.theme, layout: a.layout, routes: rs }
}

/// The settings of an app from `i`, applied to `a` in order, up to and with
/// the closing `}`; a key other than `theme`, `layout` or `routes` is skipped.
pub open spec fn app_keys(ts: Seq<TokenView>, i: int, a: AppView) -> Step<AppView>
    decreases ts.len() - i,
{
    if i < 0 || i >= ts.len() {
        Step::Fail(ErrView::Invalid(Seq::empty()))
    } else if ts[i] is RightBrace {
        Step::Done(a, i + 1)
    } else if !(ts[i] is Identifier) {
        Step::Fail(ErrView::Unexpected(token_debug(ts[i])))
    } else {
        let key = ts[i]->Identifier_0;
        if key == "theme"@ {
            if !(tok(ts, i + 1) is Colon) {
                Step::Fail(expected(token_debug(TokenView::Colon)))
            } else if !(tok(ts, i + 2) is Str) {
                Step::Fail(expected("theme name"@))
            } else if i + 3 > ts.len() {
                Step::Fail(ErrView::Invalid(Seq::empty()))
            } else {
                app_keys(ts, i + 3, with_theme(a, tok(ts, i + 2)->Str_0))
            }
        } else if key == "layout"@ {
            if !(tok(ts, i + 1) is Colon) {
                Step::Fail(expected(token_debug(TokenView::Colon)))
            } else if !(tok(ts, i + 2) is Identifier) {
                Step::Fail(expected("layout name"@))
            } else if i + 3 > ts.len() {
                Step::Fail(ErrView::Invalid(Seq::empty()))
            } else {
                app_keys(ts, i + 3, with_layout(a, tok(ts, i + 2)->Identifier_0))
            }
        } else if key == "routes"@ {
            if !(tok(ts, i + 1) is LeftBrace) {
                Step::Fail(expected(token_debug(TokenView::LeftBrace)))
            } else {
                match routes_list(ts, i + 2, a.routes) {
                    Step::Fail(e) => Step::Fail(e),
                    Step::Done(rs, j) => if j <= i || j > ts.len() {
                        Step::Fail(ErrView::Invalid(Seq::empty()))
                    } else {
                        app_keys(ts, j, with_routes(a, rs))
                    },
                }
            }
        } else {
            app_keys(ts, i + 1, a)
        }
    }
}

/// `app NAME { settings }` from `i`.
pub open spec fn app_at(ts: Seq<TokenView>, i: int) -> Step<AppView> {
    if !(tok(ts, i) is Identifier) {
        Step::Fail(expected(token_debug(TokenView::Identifier("app"@))))
    } else if !(tok(ts, i + 1) is Identifier) {
        Step::Fail(expected("app name"@))
    } else if !(tok(ts, i + 2) is LeftBrace) {
        Step::Fail(expected(token_debug(TokenView::LeftBrace)))
    } else {
        app_keys(
            ts,
            i + 3,
            AppView {
                name: tok(ts, i + 1)->Identifier_0,
                theme: None,
                layout: None,
                routes: Seq::empty(),
            },
        )
    }
}

pub open spec fn as_step_app(r: Result<App, ParseError>, j: int) -> Step<AppView> {
    match r {
        Ok(a) => Step::Done(app_view_of(a.name, a.theme, a.layout, a.routes@), j),
        Err(e) => Step::Fail(e@),
    }
}

/// A document, as character sequences.
pub struct DocView {
    pub app: Option<AppView>,
    pub layouts: Seq<(Seq<char>, Seq<ElemView>)>,
    pub pages: Seq<(Seq<char>, Seq<ElemView>)>,
    pub components: Seq<(Seq<char>, CompParts)>,
}

pub open spec fn empty_doc() -> DocView {
    DocView { app: None, layouts: Seq::empty(), pages: Seq::empty(), components: Seq::empty() }
}

pub open spec fn with_app(d: DocView, a: AppView) -> DocView {
    DocView { app: Some(a), layouts: d.layouts, pages: d.pages, components: d.components }
}

pub open spec fn with_layout_entry(d: DocView, l: (Seq<char>, Seq<ElemView>)) -> DocView {
    DocView { app: d.app, layouts: insert_first(d.layouts, l), pages: d.pages, components: d.components }
}

pub open spec fn with_page_entry(d: DocView, p: (Seq<char>, Seq<ElemView>)) -> DocView {
    DocView { app: d.app, layouts: d.layouts, pages: insert_first(d.pages, p), components: d.components }
}

pub open spec fn with_component_entry(d: DocView, c: (Seq<char>, CompParts)) -> DocView {
    DocView { app: d.app, layouts: d.layouts, pages: d.pages, components: insert_first(d.components, c) }
}

/// Which section of a document a token opens: 1 app, 2 layout, 3 page,
/// 4 component, 0 none.
pub open spec fn top_kind(t: TokenView) -> u8 {
    match t {
        TokenView::Identifier(n) => if n == "app"@ {
            1
        } else if n == "layout"@ {
            2
        } else if n == "page"@ {
            3
        } else if n == "component"@ {
            4
        } else {
            0
        },
        _ => 0,
    }
}

/// The sections of a document from `i` to the end, stored into `d` in order:
/// a later definition replaces an earlier one of the same name, and an element
/// outside any section becomes the page `default`.
pub open spec fn doc_from(ts: Seq<TokenView>, i: int, d: DocView) -> Step<DocView>
    decreases ts.len() - i,
{
    if i < 0 || i >= ts.len() {
        Step::Fail(ErrView::Invalid(Seq::empty()))
    } else if ts[i] is Eof {
        Step::Done(d, i)
    } else {
        let kd = top_kind(ts[i]);
        let next: Step<DocView> = if kd == 1 {
            match app_at(ts, i) {
                Step::Done(a, j) => Step::Done(with_app(d, a), j),
                Step::Fail(e) => Step::Fail(e),
            }
        } else if kd == 2 {
            match section_at(ts, i, "layout"@, false, "layout name"@) {
                Step::Done(l, j) => Step::Done(with_layout_entry(d, l), j),
                Step::Fail(e) => Step::Fail(e),
            }
        } else if kd == 3 {
            match section_at(ts, i, "page"@, true, "page name"@) {
                Step::Done(p, j) => Step::Done(with_page_entry(d, p), j),
                Step::Fail(e) => Step::Fail(e),
            }
        } else if kd == 4 {
            match component_at(ts, i) {
                Step::Done(c, j) => Step::Done(with_component_entry(d, c), j),
                Step::Fail(e) => Step::Fail(e),
            }
        } else {
            match elem_at(ts, i) {
                Step::Done(e, j) => Step::Done(with_page_entry(d, ("default"@, seq![e])), j),
                Step::Fail(e) => Step::Fail(e),
            }
        };
        match next {
            Step::Fail(e) => Step::Fail(e),
            Step::Done(d2, j) => if j <= i || j > ts.len() {
                Step::Fail(ErrView::Invalid(Seq::empty()))
            } else {
                doc_from(ts, j, d2)
            },
        }
    }
}

pub open spec fn layout_entry(l: Layout) -> Seq<ElemView> {
    elems_view(l.content@)
}

pub open spec fn page_entry(p: Page) -> Seq<ElemView> {
    elems_view(p.content@)
}

pub open spec fn component_entry(c: Component) -> CompParts {
    comp_view(c).1
}

pub open spec fn doc_view(doc: WebCoreDocument) -> DocView {
    DocView {
        app: match doc.app {
            Some(a) => Some(app_view_of(a.name, a.theme, a.layout, a.routes@)),
            None => None,
        },
        layouts: doc.layouts@.map_values(|t: Layout| (t.key(), layout_entry(t))),
        pages: doc.pages@.map_values(|t: Page| (t.key(), page_entry(t))),
        components: doc.components@.map_values(|t: Component| (t.key(), component_entry(t))),
    }
}

/// `r` is the outcome that `st` describes.
pub open spec fn doc_outcome(r: Result<WebCoreDocument, ParseError>, st: Step<DocView>) -> bool {
    &&& (r is Ok <==> st is Done)
    &&& r matches Ok(d) ==> st->Done_0 == doc_view(d)
    &&& r matches Err(e) ==> st == Step::<DocView>::Fail(e@)
}

/// A piece of text content: literal text or an interpolated name.
pub enum Piece {
    Text(Seq<char>),
    Interp(Seq<char>),
}

pub open spec fn as_piece(e: Element) -> Piece {
    match e {
        Element::Interpolation(x) => Piece::Interp(x@),
        Element::Text(t) => Piece::Text(t@),
        _ => Piece::Text(Seq::empty()),
    }
}

pub open spec fn pieces(es: Seq<Element>) -> Seq<Piece> {
    es.map_values(|e: Element| as_piece(e))
}

/// The pieces of `t` from position `i`: each `{name}` (the first `}` after a
/// `{` closes it) becomes an interpolation of the trimmed name; the text
/// around stays literal, and a `{` that is never closed starts literal text
/// up to the end.
pub open spec fn split_from(t: Seq<char>, i: int) -> Seq<Piece>
    decreases t.len() - i,
{
    if i < 0 || i >= t.len() {
        Seq::empty()
    } else {
        let st = first_occ(t, seq!['{'], i);
        if st < i || st >= t.len() {
            seq![Piece::Text(t.subrange(i, t.len() as int))]
        } else {
            let pre = if st > i {
                seq![Piece::Text(t.subrange(i, st))]
            } else {
                Seq::empty()
            };
            let en = first_occ(t, seq!['}'], st);
            if en < st || en >= t.len() {
                pre + seq![Piece::Text(t.subrange(st, t.len() as int))]
            } else {
                pre + seq![Piece::Interp(trim(t.subrange(st + 1, en)))] + split_from(t, en + 1)
            }
        }
    }
}

/// The pieces of a text content; empty text is one empty literal.
pub open spec fn split_text(t: Seq<char>) -> Seq<Piece> {
    let r = split_from(t, 0);
    if r.len() == 0 {
        seq![Piece::Text(t)]
    } else {
        r
    }
}

/// Splits text content into literal text and interpolations, as `split_text`
/// describes.
pub fn split_interpolated_text(text: &str) -> (r: Vec<Element>)
    ensures
        pieces(r@) == split_text(text@),
        forall|k: int| 0 <= k < r@.len() ==> (#[trigger] r@[k] is Text || r@[k] is Interpolation),
{
    let t = to_chars(text);
    let n = t.len();
    let open_brace = vec!['{'];
    let close_brace = vec!['}'];
    assert(open_brace@ =~= seq!['{']);
    assert(close_brace@ =~= seq!['}']);
    let mut out: Vec<Element> = Vec::new();
    let mut i: usize = 0;
    assert(pieces(out@) + split_from(t@, 0) =~= split_from(t@, 0));
    while i < n
        invariant
            n == t@.len(),
            t@ == text@,
            open_brace@ == seq!['{'],
            close_brace@ == seq!['}'],
            0 <= i <= n,
            pieces(out@) + split_from(t@, i as int) == split_from(t@, 0),
            forall|k: int| 0 <= k < out@.len() ==> (#[trigger] out@[k] is Text || out@[k] is Interpolation),
        decreases n - i,
    {
        let ghost done = pieces(out@);
        let ghost o0 = out@;
        match find_from(&t, &open_brace, i) {
            None => {
                out.push(Element::Text(string_of(&t, i, n)));
                assert(pieces(out@) =~= done + split_from(t@, i as int));
                i = n;
            },
            Some(st) => {
                if st > i {
                    out.push(Element::Text(string_of(&t, i, st)));
                }
                let ghost pre = if st > i {
                    seq![Piece::Text(t@.subrange(i as int, st as int))]
                } else {
                    Seq::<Piece>::empty()
                };
                assert(pieces(out@) =~= done + pre);
                assert(st < n);
                match find_from(&t, &close_brace, st) {
                    None => {
                        out.push(Element::Text(string_of(&t, st, n)));
                        assert(pieces(out@) =~= done + split_from(t@, i as int));
                        i = n;
                    },
                    Some(en) => {
                        assert(en < n);
                        assert(t@.subrange(st as int, st + 1)[0] == '{');
                        assert(t@.subrange(en as int, en + 1)[0] == '}');
                        assert(en != st);
                        let name = trim_range(&t, st + 1, en);
                        out.push(Element::Interpolation(string_of(&name, 0, name.len())));
                        assert(name@.subrange(0, name@.len() as int) =~= name@);
                        assert(pieces(out@) + split_from(t@, en + 1) =~= done + split_from(
                            t@,
                            i as int,
                        ));
                        i = en + 1;
                    },
                }
            },
        }
    }
    assert(split_from(t@, n as int) =~= Seq::<Piece>::empty());
    assert(pieces(out@) =~= split_from(t@, 0));
    if out.len() == 0 {
        out.push(Element::Text(String::from_str(text)));
        assert(pieces(out@) =~= seq![Piece::Text(text@)]);
    }
    out
}

/// The text that a token stands for inside an attribute expression.
pub open spec fn expr_piece(t: TokenView) -> Seq<char> {
    match t {
        TokenView::Identifier(s) => s,
        TokenView::Number(s) => s,
        TokenView::Plus => seq!['+'],
        TokenView::Minus => seq!['-'],
        TokenView::Equals => seq!['='],
        TokenView::LeftParen => seq!['('],
        TokenView::RightParen => seq![')'],
        TokenView::Comma => seq![','],
        TokenView::Dot => seq!['.'],
        TokenView::Arrow => seq!['=', '>'],
        _ => seq![' '],
    }
}

/// The expression text of a run of tokens.
pub open spec fn expr_text(ts: Seq<TokenView>) -> Seq<char>
    decreases ts.len(),
{
    if ts.len() == 0 {
        Seq::empty()
    } else {
        expr_text(ts.drop_last()) + expr_piece(ts.last())
    }
}

/// The element that a string standing alone in a block makes: a `{name}`
/// string is an interpolation of `name`, any other a text.
pub open spec fn lone_text_element(e: Element, t: Seq<char>) -> bool {
    if t.len() >= 2 && t[0] == '{' && t.last() == '}' {
        e matches Element::Interpolation(x) && x@ == t.subrange(1, t.len() - 1)
    } else {
        e matches Element::Text(x) && x@ == t
    }
}

/// What the first token of an element says of it: a string gives a text or
/// an interpolation, `slot` a slot, a capitalised name a component reference
/// and any other name a tag.
pub open spec fn element_rule(first: TokenView, e: Element) -> bool {
    match first {
        TokenView::Str(t) => lone_text_element(e, t),
        TokenView::Identifier(n) => if n == "slot"@ {
            e is Slot
        } else if component_name(n) {
            e matches Element::Component { name, .. } && name@ == n
        } else {
            e matches Element::Tag { name, .. } && name@ == n
        },
        _ => false,
    }
}

/// Whether a tag name names a component: it starts with an upper-case letter.
pub open spec fn component_name(name: Seq<char>) -> bool {
    name.len() > 0 && uppercase(name[0])
}

/// Tokens `i .. e` are an attribute expression whose text is `x`, and `e` is
/// the first `}` after `i`.
pub open spec fn expression_at(ts: Seq<TokenView>, i: int, e: int, x: Seq<char>) -> bool {
    &&& 0 <= i <= e < ts.len()
    &&& ts[e] is RightBrace
    &&& forall|m: int| i <= m < e ==> !(#[trigger] ts[m] is RightBrace)
    &&& x == expr_text(ts.subrange(i, e))
}

/// The attribute list of an element ends at `i`: no name, or a name that opens
/// a block of its own.
pub open spec fn attrs_stop(ts: Seq<TokenView>, i: int) -> bool {
    !(ts[i] is Identifier) || (i + 1 < ts.len() && ts[i + 1] is LeftBrace)
}

/// Tokens `i .. j` are the attribute `a`: a name, then `= "text"`,
/// `= { expression }`, or nothing (a flag; so is `=` before anything else).
pub open spec fn attr_parse(ts: Seq<TokenView>, i: int, a: Attribute, j: int) -> bool {
    &&& 0 <= i && i + 1 < ts.len()
    &&& ts[i] == TokenView::Identifier(a.name@)
    &&& !attrs_stop(ts, i)
    &&& if ts[i + 1] is Equals && i + 2 < ts.len() {
        if ts[i + 2] is Str {
            j == i + 3 && (a.value matches AttributeValue::String(v) && ts[i + 2] == TokenView::Str(v@))
        } else if ts[i + 2] is LeftBrace {
            (a.value matches AttributeValue::Expression(x) && expression_at(ts, i + 3, j - 1, x@))
        } else {
            a.value == AttributeValue::Boolean(true) && j == i + 2
        }
    } else {
        a.value == AttributeValue::Boolean(true) && j == i + 1
    }
}

/// Tokens `i .. k` are the attributes `attrs`, one after another.
pub open spec fn attrs_parse(ts: Seq<TokenView>, i: int, attrs: Seq<Attribute>, k: int) -> bool {
    exists|p: Seq<int>|
        p.len() == attrs.len() + 1 && p[0] == i && p.last() == k && attrs_stop(ts, k) && forall|m: int|
            0 <= m < attrs.len() ==> attr_parse(ts, p[m], #[trigger] attrs[m], p[m + 1])
}

/// Tokens `k .. j` are a text body: a string split into text and interpolations.
pub open spec fn text_body(ts: Seq<TokenView>, k: int, content: Seq<Element>, j: int) -> bool {
    &&& 0 <= k < ts.len()
    &&& ts[k] is Str
    &&& j == k + 1
    &&& pieces(content) == split_text(ts[k]->Str_0)
    &&& forall|m: int|
        0 <= m < content.len() ==> (#[trigger] content[m] is Text || content[m] is Interpolation)
}

/// Tokens `i .. j` are the element `e`. The body of a tag or component, after
/// its attributes, is a string (see `text_body`), a block `{ Element* }` whose
/// elements start at the positions `q`, or nothing.
pub open spec fn parses_element(ts: Seq<TokenView>, i: int, e: Element, j: int) -> bool
    decreases e,
{
    &&& 0 <= i < ts.len()
    &&& match ts[i] {
        TokenView::Str(t) => j == i + 1 && lone_text_element(e, t),
        TokenView::Identifier(n) => {
            if n == "slot"@ {
                if i + 1 < ts.len() && ts[i + 1] is Identifier {
                    j == i + 2 && (e matches Element::Slot(s) && ts[i + 1] == TokenView::Identifier(s@))
                } else {
                    j == i + 1 && (e matches Element::Slot(s) && s@ == "content"@)
                }
            } else {
                match e {
                    Element::Tag { name, attributes, content } => {
                        &&& name@ == n
                        &&& !component_name(n)
                        &&& exists|k: int|
                            #![trigger attrs_parse(ts, i + 1, attributes@, k)]
                            attrs_parse(ts, i + 1, attributes@, k) && 0 <= k < ts.len() && if ts[k] is Str {
                                text_body(ts, k, content@, j)
                            } else if ts[k] is LeftBrace {
                                exists|q: Seq<int>|
                                    #![trigger q.len(), q.last()]
                                    q.len() == content@.len() + 1 && q[0] == k + 1 && 0 <= q.last()
                                        < ts.len() && ts[q.last()] is RightBrace && j == q.last() + 1
                                        && forall|m: int|
                                        0 <= m < content@.len() ==> parses_element(
                                            ts,
                                            q[m],
                                            #[trigger] content@[m],
                                            q[m + 1],
                                        )
                            } else {
                                content@.len() == 0 && j == k
                            }
                    },
                    Element::Component { name, attributes, content } => {
                        &&& name@ == n
                        &&& component_name(n)
                        &&& exists|k: int|
                            #![trigger attrs_parse(ts, i + 1, attributes@, k)]
                            attrs_parse(ts, i + 1, attributes@, k) && 0 <= k < ts.len() && if ts[k] is Str {
                                text_body(ts, k, content@, j)
                            } else if ts[k] is LeftBrace {
                                exists|q: Seq<int>|
                                    #![trigger q.len(), q.last()]
                                    q.len() == content@.len() + 1 && q[0] == k + 1 && 0 <= q.last()
                                        < ts.len() && ts[q.last()] is RightBrace && j == q.last() + 1
                                        && forall|m: int|
                                        0 <= m < content@.len() ==> parses_element(
                                            ts,
                                            q[m],
                                            #[trigger] content@[m],
                                            q[m + 1],
                                        )
                            } else {
                                content@.len() == 0 && j == k
                            }
                    },
                    _ => false,
                }
            }
        },
        _ => false,
    }
}

/// The body of an element at `k .. j`, as `parses_element` reads it.
pub open spec fn element_body(ts: Seq<TokenView>, k: int, content: Seq<Element>, j: int) -> bool {
    0 <= k < ts.len() && if ts[k] is Str {
        text_body(ts, k, content, j)
    } else if ts[k] is LeftBrace {
        exists|q: Seq<int>|
            #![trigger q.len(), q.last()]
            q.len() == content.len() + 1 && q[0] == k + 1 && 0 <= q.last() < ts.len()
                && ts[q.last()] is RightBrace && j == q.last() + 1 && forall|m: int|
                0 <= m < content.len() ==> parses_element(ts, q[m], #[trigger] content[m], q[m + 1])
    } else {
        content.len() == 0 && j == k
    }
}

proof fn lemma_element_from_parts(ts: Seq<TokenView>, i: int, e: Element, k: int, j: int)
    requires
        0 <= i < ts.len(),
        match e {
            Element::Tag { name, attributes, content } => {
                &&& ts[i] == TokenView::Identifier(name@)
                &&& name@ != "slot"@
                &&& !component_name(name@)
                &&& attrs_parse(ts, i + 1, attributes@, k)
                &&& element_body(ts, k, content@, j)
            },
            Element::Component { name, attributes, content } => {
                &&& ts[i] == TokenView::Identifier(name@)
                &&& name@ != "slot"@
                &&& component_name(name@)
                &&& attrs_parse(ts, i + 1, attributes@, k)
                &&& element_body(ts, k, content@, j)
            },
            _ => false,
        },
    ensures
        parses_element(ts, i, e, j),
{
}

impl Parser {
    fn at_string(&self) -> (r: bool)
        requires
            self.wf(),
        ensures
            r == (self.current() is Str),
    {
        match self.current_token() {
            Token::String(_) => true,
            _ => false,
        }
    }

    fn at_identifier(&self) -> (r: bool)
        requires
            self.wf(),
        ensures
            r == (self.current() is Identifier),
    {
        match self.current_token() {
            Token::Identifier(_) => true,
            _ => false,
        }
    }

    /// Whether the token after the current one opens a block.
    fn next_is_left_brace(&self) -> (r: bool)
        requires
            self.wf(),
        ensures
            r == (self.position() + 1 < self.token_seq().len() && self.token_seq()[self.position()
                + 1] is LeftBrace),
    {
        if self.pos < self.tokens.len() - 1 {
            match &self.tokens[self.pos + 1] {
                Token::LeftBrace => true,
                _ => false,
            }
        } else {
            false
        }
    }

    /// The text of the expression whose tokens come before the next `}`,
    /// which is taken too.
    fn read_expression(&mut self) -> (r: Result<String, ParseError>)
        requires
            old(self).wf(),
        ensures
            final(self).follows(*old(self)),
            match r {
                Ok(x) => final(self).remaining() < old(self).remaining() && old(self).position()
                    < final(self).position() && expression_at(
                    old(self).token_seq(),
                    old(self).position(),
                    final(self).position() - 1,
                    x@,
                ),
                Err(e) => expected_error(e, "RightBrace"@),
            },
            as_step_str(r, final(self).position()) == expr_from(
                old(self).token_seq(),
                old(self).position(),
            ),
    {
        let mut expr = String::new();
        let ghost start = self.position();
        let ghost ts = self.token_seq();
        assert(cons(expr@, expr_from(ts, start)) =~= expr_from(ts, start)) by {
            match expr_from(ts, start) {
                Step::Done(y, j) => { assert(expr@ + y =~= y); },
                Step::Fail(e) => {},
            }
        }
        assert(self.token_seq().subrange(start, start) =~= Seq::<TokenView>::empty());
        while !self.at_right_brace()
            invariant
                self.follows(*old(self)),
                start == old(self).position(),
                start <= self.position(),
                expr@ == expr_text(self.token_seq().subrange(start, self.position())),
                forall|m: int| start <= m < self.position() ==> !(#[trigger] self.token_seq()[m] is RightBrace),
                ts == self.token_seq(),
                cons(expr@, expr_from(ts, self.position())) == expr_from(ts, start),
            decreases self.remaining(),
        {
            proof {
                self.lemma_current();
            }
            if self.at_eof() {
                return Err(ParseError::ExpectedToken(String::from_str("RightBrace")));
            }
            let ghost before = self.position();
            let ghost tok = self.current();
            let ghost e0 = expr@;
            proof {
                self.lemma_current();
            }
            match self.current_token() {
                Token::Identifier(id) => expr.append(id.as_str()),
                Token::Number(num) => expr.append(num.as_str()),
                Token::Plus => crate::text::push_char(&mut expr, '+'),
                Token::Minus => crate::text::push_char(&mut expr, '-'),
                Token::Equals => crate::text::push_char(&mut expr, '='),
                Token::LeftParen => crate::text::push_char(&mut expr, '('),
                Token::RightParen => crate::text::push_char(&mut expr, ')'),
                Token::Comma => crate::text::push_char(&mut expr, ','),
                Token::Dot => crate::text::push_char(&mut expr, '.'),
                Token::Arrow => {
                    crate::text::push_char(&mut expr, '=');
                    crate::text::push_char(&mut expr, '>');
                },
                _ => crate::text::push_char(&mut expr, ' '),
            }
            assert(expr@ =~= expr_text(self.token_seq().subrange(start, before)) + expr_piece(tok));
            let ghost prev = expr@;
            self.advance();
            proof {
                assert(expr_from(ts, before) == cons(expr_piece(tok), expr_from(ts, before + 1)));
                assert(prev == e0 + expr_piece(tok));
                match expr_from(ts, before + 1) {
                    Step::Done(y, j) => {
                        assert((e0 + expr_piece(tok)) + y =~= e0 + (expr_piece(tok) + y));
                    },
                    Step::Fail(e) => {},
                }
            }
            proof {
                let sub = self.token_seq().subrange(start, self.position());
                assert(sub.drop_last() =~= self.token_seq().subrange(start, before));
                assert(self.token_seq()[before] == tok);
            }
        }
        proof {
            self.lemma_current();
        }
        self.advance();
        Ok(expr)
    }

    fn parse_element(&mut self) -> (r: Result<Element, ParseError>)
        requires
            old(self).wf(),
        ensures
            final(self).follows(*old(self)),
            r is Ok ==> final(self).remaining() < old(self).remaining(),
            r is Ok ==> old(self).current() is Identifier || old(self).current() is Str,
            !(old(self).current() is Identifier || old(self).current() is Str) ==> r matches Err(
                ParseError::UnexpectedToken(_),
            ),
            old(self).current() is Str || old(self).current() == TokenView::Identifier("slot"@) ==> r is Ok,
            r matches Ok(e) ==> element_rule(old(self).current(), e),
            r matches Ok(e) ==> parses_element(
                old(self).token_seq(),
                old(self).position(),
                e,
                final(self).position(),
            ),
            as_step_elem(r, final(self).position()) == elem_at(
                old(self).token_seq(),
                old(self).position(),
            ),
        decreases old(self).remaining(),
    {
        let ghost ts = self.token_seq();
        let ghost i0 = self.position();
        proof {
            self.lemma_current();
        }
        if let Some(text) = self.take_string() {
            let cs = to_chars(text.as_str());
            let n = cs.len();
            if n >= 2 && cs[0] == '{' && cs[n - 1] == '}' {
                return Ok(Element::Interpolation(string_of(&cs, 1, n - 1)));
            }
            return Ok(Element::Text(text));
        }
        let tag_name = match self.take_identifier() {
            Some(name) => name,
            None => {
                return Err(self.unexpected());
            },
        };
        proof {
            self.lemma_current();
        }
        if str_eq(tag_name.as_str(), "slot") {
            let slot_name = match self.take_identifier() {
                Some(name) => name,
                None => String::from_str("content"),
            };
            return Ok(Element::Slot(slot_name));
        }
        let mut attributes: Vec<Attribute> = Vec::new();
        let ghost mut p: Seq<int> = seq![i0 + 1];
        proof {
            assert(attrs_view(attributes@) =~= Seq::<AttrView>::empty());
            lemma_cons_empty(attrs_from(ts, i0 + 1));
        }
        loop
            invariant
                self.follows(*old(self)),
                self.remaining() < old(self).remaining(),
                old(self).current() is Identifier,
                old(self).current() != TokenView::Identifier("slot"@),
                ts == self.token_seq(),
                p.len() == attributes@.len() + 1,
                p[0] == i0 + 1,
                p.last() == self.position(),
                forall|m: int|
                    0 <= m < attributes@.len() ==> attr_parse(ts, p[m], #[trigger] attributes@[m], p[m + 1]),
                cons(attrs_view(attributes@), attrs_from(ts, self.position())) == attrs_from(ts, i0 + 1),
                i0 + 1 <= self.position(),
                0 <= i0 < ts.len(),
                i0 == old(self).position(),
                ts == old(self).token_seq(),
                ts[i0] == TokenView::Identifier(tag_name@),
                tag_name@ != "slot"@,
            ensures
                attrs_stop(ts, self.position()),
                attrs_from(ts, self.position()) == Step::Done(Seq::<AttrView>::empty(), self.position()),
            decreases self.remaining(),
        {
            proof {
                self.lemma_current();
            }
            if self.at_left_brace() || self.at_string() || self.at_eof() {
                break ;
            }
            if self.at_identifier() && self.next_is_left_brace() {
                break ;
            }
            let ghost start = self.position();
            let attr_name = match self.take_identifier() {
                Some(name) => name,
                None => {
                    break ;
                },
            };
            proof {
                self.lemma_current();
            }
            let value;
            if self.at_kind(&Token::Equals) {
                self.advance();
                proof {
                    self.lemma_current();
                }
                if let Some(v) = self.take_string() {
                    value = AttributeValue::String(v);
                } else if self.at_left_brace() {
                    self.advance();
                    match self.read_expression() {
                        Ok(x) => {
                            value = AttributeValue::Expression(x);
                        },
                        Err(e) => {
                            proof {
                                assert(attrs_from(ts, start) == Step::<Seq<AttrView>>::Fail(e@));
                                assert(elem_at(ts, i0) == Step::<ElemView>::Fail(e@));
                            }
                            return Err(e);
                        },
                    }
                } else {
                    value = AttributeValue::Boolean(true);
                }
            } else {
                value = AttributeValue::Boolean(true);
            }
            let attr = Attribute { name: attr_name, value };
            assert(attr_parse(ts, start, attr, self.position()));
            let ghost old_attrs = attributes@;
            let ghost av = attr_view(attr);
            assert(attrs_from(ts, start) == cons(seq![av], attrs_from(ts, self.position())));
            attributes.push(attr);
            proof {
                assert(attrs_view(attributes@) =~= attrs_view(old_attrs) + seq![av]);
                lemma_cons_cons(attrs_view(old_attrs), seq![av], attrs_from(ts, self.position()));
                let prev = p;
                p = p.push(self.position());
                assert forall|m: int| 0 <= m < attributes@.len() implies attr_parse(
                    ts,
                    p[m],
                    #[trigger] attributes@[m],
                    p[m + 1],
                ) by {
                    if m < old_attrs.len() {
                        assert(attributes@[m] == old_attrs[m]);
                        assert(p[m] == prev[m] && p[m + 1] == prev[m + 1]);
                    }
                }
            }
        }
        let ghost k = self.position();
        proof {
            assert(attrs_parse(ts, i0 + 1, attributes@, k));
            self.lemma_current();
            lemma_cons_done(attrs_view(attributes@), k);
            assert(attrs_from(ts, i0 + 1) == Step::Done(attrs_view(attributes@), k));
        }
        let content: Vec<Element>;
        if let Some(text) = self.take_string() {
            content = split_interpolated_text(text.as_str());
            assert(text_body(ts, k, content@, self.position()));
            proof {
                lemma_split_views(content@);
                assert(body_at(ts, k) == Step::Done(elems_view(content@), self.position()));
            }
        } else if self.at_left_brace() {
            self.advance();
            let mut nested: Vec<Element> = Vec::new();
            let ghost mut q: Seq<int> = seq![k + 1];
            while !self.at_right_brace()
                invariant
                    self.follows(*old(self)),
                    self.remaining() < old(self).remaining(),
                    old(self).current() is Identifier,
                    old(self).current() != TokenView::Identifier("slot"@),
                    ts == self.token_seq(),
                    q.len() == nested@.len() + 1,
                    q[0] == k + 1,
                    q.last() == self.position(),
                    forall|m: int|
                        0 <= m < nested@.len() ==> parses_element(ts, q[m], #[trigger] nested@[m], q[m + 1]),
                    cons(elems_view(nested@), children_at(ts, self.position())) == children_at(ts, k + 1),
                    k + 1 <= self.position(),
                    attrs_from(ts, i0 + 1) == Step::Done(attrs_view(attributes@), k),
                    0 <= i0 < k < ts.len(),
                    i0 == old(self).position(),
                    ts == old(self).token_seq(),
                    ts[k] is LeftBrace,
                    ts[i0] == TokenView::Identifier(tag_name@),
                    tag_name@ != "slot"@,
                decreases self.remaining(),
            {
                let ghost old_nested = nested@;
                let ghost at = self.position();
                proof {
                    self.lemma_current();
                }
                let child = match self.parse_element() {
                    Ok(c) => c,
                    Err(e) => {
                        proof {
                            assert(children_at(ts, at) == Step::<Seq<ElemView>>::Fail(e@));
                            assert(children_at(ts, k + 1) == Step::<Seq<ElemView>>::Fail(e@));
                            assert(body_at(ts, k) == Step::<Seq<ElemView>>::Fail(e@));
                            assert(elem_at(ts, i0) == Step::<ElemView>::Fail(e@));
                        }
                        return Err(e);
                    },
                };
                let ghost cv = elem_view(child);
                assert(children_at(ts, at) == cons(seq![cv], children_at(ts, self.position())));
                nested.push(child);
                proof {
                    lemma_elems_view_push(old_nested, child);
                    lemma_cons_cons(elems_view(old_nested), seq![cv], children_at(ts, self.position()));
                    let q0 = q;
                    q = q.push(self.position());
                    assert forall|m: int| 0 <= m < nested@.len() implies parses_element(
                        ts,
                        q[m],
                        #[trigger] nested@[m],
                        q[m + 1],
                    ) by {
                        if m < old_nested.len() {
                            assert(nested@[m] == old_nested[m]);
                            assert(q[m] == q0[m] && q[m + 1] == q0[m + 1]);
                        }
                    }
                }
            }
            proof {
                self.lemma_current();
                lemma_cons_done(elems_view(nested@), self.position());
                assert(children_at(ts, k + 1) == Step::Done(elems_view(nested@), self.position()));
            }
            self.expect(Token::RightBrace)?;
            assert(q.len() == nested@.len() + 1 && q[0] == k + 1 && 0 <= q.last() < ts.len()
                && ts[q.last()] is RightBrace && self.position() == q.last() + 1);
            content = nested;
            assert(body_at(ts, k) == Step::Done(elems_view(content@), self.position()));
        } else {
            content = Vec::new();
            assert(body_at(ts, k) == Step::Done(elems_view(content@), self.position()));
        }
        let ghost j = self.position();
        assert(element_body(ts, k, content@, j));
        assert(attrs_parse(ts, i0 + 1, attributes@, k));
        assert(ts[i0] == TokenView::Identifier(tag_name@));
        assert(tag_name@ != "slot"@);
        let cs = to_chars(tag_name.as_str());

        if cs.len() > 0 && is_uppercase(cs[0]) {
            let e = Element::Component { name: tag_name, attributes, content };
            proof {
                lemma_element_from_parts(ts, i0, e, k, j);
            }
            Ok(e)
        } else {
            let e = Element::Tag { name: tag_name, attributes, content };
            proof {
                lemma_element_from_parts(ts, i0, e, k, j);
            }
            Ok(e)
        }
    }
}

/// Parses one source into a document.
pub fn parse_webc(source: &str) -> (r: Result<WebCoreDocument, ParseError>)
    requires
        source@.len() < usize::MAX,
    ensures
        r matches Ok(doc) ==> doc.wf(),
        doc_outcome(r, doc_from(lex(source@), 0, empty_doc())),
{
    let mut parser = Parser::new(source);
    parser.parse_document()
}

/// Tokens `i .. i + 3` are the property `prop`: `name : value`, where the
/// value is a string or an identifier.
pub open spec fn property_at(ts: Seq<TokenView>, i: int, prop: StyleProperty) -> bool {
    &&& 0 <= i && i + 2 < ts.len()
    &&& ts[i] == TokenView::Identifier(prop.name@)
    &&& ts[i + 1] is Colon
    &&& (ts[i + 2] == TokenView::Str(prop.value@) || ts[i + 2] == TokenView::Identifier(prop.value@))
}

/// Tokens `i .. j` are the style rule `rule`: `selector { property* }`.
pub open spec fn style_rule_at(ts: Seq<TokenView>, i: int, rule: StyleRule, j: int) -> bool {
    &&& 0 <= i && i + 1 < ts.len()
    &&& ts[i] == TokenView::Identifier(rule.selector@)
    &&& ts[i + 1] is LeftBrace
    &&& j == i + 3 * rule.properties@.len() + 3
    &&& 0 < j <= ts.len()
    &&& ts[j - 1] is RightBrace
    &&& forall|m: int|
        0 <= m < rule.properties@.len() ==> property_at(ts, i + 2 + 3 * m, #[trigger] rule.properties@[m])
}


/// Tokens from `i` are the prop `p`: `name`, or `name : type`.
pub open spec fn prop_at(ts: Seq<TokenView>, i: int, p: Prop) -> bool {
    &&& 0 <= i && i + 1 < ts.len()
    &&& ts[i] == TokenView::Identifier(p.name@)
    &&& match p.type_ {
        Some(t) => ts[i + 1] is Colon && i + 2 < ts.len() && ts[i + 2] == TokenView::Identifier(t@),
        None => !(ts[i + 1] is Colon),
    }
}

/// Tokens from `i` are the state variable `v`: `name : type`, then
/// `= number` or `= "text"` where it has a default.
pub open spec fn state_at(ts: Seq<TokenView>, i: int, v: StateVar) -> bool {
    &&& 0 <= i && i + 3 < ts.len()
    &&& ts[i] == TokenView::Identifier(v.name@)
    &&& ts[i + 1] is Colon
    &&& ts[i + 2] == TokenView::Identifier(v.type_@)
    &&& match v.default_value {
        Some(d) => ts[i + 3] is Equals && i + 4 < ts.len() && (ts[i + 4] == TokenView::Number(d@)
            || ts[i + 4] == TokenView::Str(d@)),
        None => !(ts[i + 3] is Equals),
    }
}

pub open spec fn prop_written(ts: Seq<TokenView>, p: Prop) -> bool {
    exists|i: int| #[trigger] prop_at(ts, i, p)
}

pub open spec fn state_written(ts: Seq<TokenView>, v: StateVar) -> bool {
    exists|i: int| #[trigger] state_at(ts, i, v)
}

pub open spec fn rule_written(ts: Seq<TokenView>, r: StyleRule) -> bool {
    exists|i: int, j: int| #[trigger] style_rule_at(ts, i, r, j)
}











impl Parser {
    fn missing(what: &str) -> (r: ParseError)
        ensures
            expected_error(r, what@),
    {
        ParseError::ExpectedToken(String::from_str(what))
    }

    /// `selector { name: value ... }`, where a value is a string or an identifier.
    fn parse_style_rule(&mut self) -> (r: Result<StyleRule, ParseError>)
        requires
            old(self).wf(),
        ensures
            final(self).follows(*old(self)),
            r is Ok ==> final(self).remaining() < old(self).remaining(),
            r matches Ok(rule) ==> old(self).current() == TokenView::Identifier(rule.selector@),
            as_step_rule(r, final(self).position()) == rule_at(
                old(self).token_seq(),
                old(self).position(),
            ),
            r matches Ok(rule) ==> style_rule_at(
                old(self).token_seq(),
                old(self).position(),
                rule,
                final(self).position(),
            ),
            !(old(self).current() is Identifier) ==> (r matches Err(e) && expected_error(
                e,
                "style selector"@,
            )),
    {
        let ghost ts = self.token_seq();
        let ghost i0 = self.position();
        proof {
            self.lemma_current();
        }
        let selector = match self.take_identifier() {
            Some(name) => name,
            None => {
                return Err(Self::missing("style selector"));
            },
        };
        proof {
            self.lemma_current();
        }
        match self.expect(Token::LeftBrace) {
            Ok(()) => {},
            Err(e) => {
                return Err(e);
            },
        }
        let mut properties: Vec<StyleProperty> = Vec::new();
        proof {
            assert(props_view(properties@) =~= Seq::<(Seq<char>, Seq<char>)>::empty());
            lemma_cons_empty(properties_from(ts, i0 + 2));
        }
        while !self.at_right_brace()
            invariant
                self.follows(*old(self)),
                self.remaining() < old(self).remaining(),
                old(self).current() == TokenView::Identifier(selector@),
                ts == self.token_seq(),
                ts[i0] == TokenView::Identifier(selector@),
                ts[i0 + 1] is LeftBrace,
                self.position() == i0 + 2 + 3 * properties@.len(),
                forall|m: int|
                    0 <= m < properties@.len() ==> property_at(ts, i0 + 2 + 3 * m, #[trigger] properties@[m]),
                cons(props_view(properties@), properties_from(ts, self.position())) == properties_from(
                    ts,
                    i0 + 2,
                ),
                i0 == old(self).position(),
                ts == old(self).token_seq(),
                0 <= i0,
            decreases self.remaining(),
        {
            let ghost at = self.position();
            proof {
                self.lemma_current();
            }
            let name = match self.take_identifier() {
                Some(n) => n,
                None => {
                    return Err(Self::missing("property name"));
                },
            };
            match self.expect(Token::Colon) {
                Ok(()) => {},
                Err(e) => {
                    return Err(e);
                },
            }
            proof {
                self.lemma_current();
            }
            let value = match self.take_string() {
                Some(v) => v,
                None => match self.take_identifier() {
                    Some(v) => v,
                    None => {
                        return Err(Self::missing("property value"));
                    },
                },
            };
            let prop = StyleProperty { name, value };
            assert(property_at(ts, at, prop));
            let ghost before = properties@;
            let ghost pv = (prop.name@, prop.value@);
            assert(properties_from(ts, at) == cons(seq![pv], properties_from(ts, self.position())));
            properties.push(prop);
            proof {
                assert(props_view(properties@) =~= props_view(before) + seq![pv]);
                lemma_cons_cons(props_view(before), seq![pv], properties_from(ts, self.position()));
            }
            assert forall|m: int| 0 <= m < properties@.len() implies property_at(
                ts,
                i0 + 2 + 3 * m,
                #[trigger] properties@[m],
            ) by {
                if m < before.len() {
                    assert(properties@[m] == before[m]);
                }
            }
        }
        proof {
            self.lemma_current();
            lemma_cons_done(props_view(properties@), self.position() + 1);
        }
        self.expect(Token::RightBrace)?;
        let rule = StyleRule { selector, properties };
        assert(style_rule_at(ts, i0, rule, self.position()));
        Ok(rule)
    }

    /// `{ Element* }`
    fn parse_block(&mut self) -> (r: Result<Vec<Element>, ParseError>)
        requires
            old(self).wf(),
        ensures
            final(self).follows(*old(self)),
            r is Ok ==> final(self).remaining() < old(self).remaining(),
            r matches Ok(content) ==> old(self).current() is LeftBrace && element_body(
                old(self).token_seq(),
                old(self).position(),
                content@,
                final(self).position(),
            ),
            as_step_elems(r, final(self).position()) == block_at(
                old(self).token_seq(),
                old(self).position(),
            ),
    {
        let ghost ts = self.token_seq();
        let ghost k = self.position();
        proof {
            self.lemma_current();
        }
        match self.expect(Token::LeftBrace) {
            Ok(()) => {},
            Err(e) => {
                return Err(e);
            },
        }
        let mut content: Vec<Element> = Vec::new();
        proof {
            assert(elems_view(content@) =~= Seq::<ElemView>::empty());
            lemma_cons_empty(children_at(ts, k + 1));
        }
        let ghost mut q: Seq<int> = seq![k + 1];
        while !self.at_right_brace()
            invariant
                self.follows(*old(self)),
                self.remaining() < old(self).remaining(),
                ts == self.token_seq(),
                q.len() == content@.len() + 1,
                q[0] == k + 1,
                q.last() == self.position(),
                forall|m: int|
                    0 <= m < content@.len() ==> parses_element(ts, q[m], #[trigger] content@[m], q[m + 1]),
                cons(elems_view(content@), children_at(ts, self.position())) == children_at(ts, k + 1),
                k + 1 <= self.position(),
                0 <= k < ts.len(),
                ts[k] is LeftBrace,
                k == old(self).position(),
                ts == old(self).token_seq(),
            decreases self.remaining(),
        {
            let ghost old_content = content@;
            let ghost at = self.position();
            proof {
                self.lemma_current();
            }
            let child = match self.parse_element() {
                Ok(c) => c,
                Err(e) => {
                    proof {
                        assert(children_at(ts, at) == Step::<Seq<ElemView>>::Fail(e@));
                    }
                    return Err(e);
                },
            };
            let ghost cv = elem_view(child);
            assert(children_at(ts, at) == cons(seq![cv], children_at(ts, self.position())));
            content.push(child);
            proof {
                lemma_elems_view_push(old_content, child);
                lemma_cons_cons(elems_view(old_content), seq![cv], children_at(ts, self.position()));
                let q0 = q;
                q = q.push(self.position());
                assert forall|m: int| 0 <= m < content@.len() implies parses_element(
                    ts,
                    q[m],
                    #[trigger] content@[m],
                    q[m + 1],
                ) by {
                    if m < old_content.len() {
                        assert(content@[m] == old_content[m]);
                        assert(q[m] == q0[m] && q[m + 1] == q0[m + 1]);
                    }
                }
            }
        }
        proof {
            self.lemma_current();
            lemma_cons_done(elems_view(content@), self.position());
        }
        self.expect(Token::RightBrace)?;
        assert(element_body(ts, k, content@, self.position()));
        Ok(content)
    }

    /// `layout NAME { Element* }`
    fn parse_layout(&mut self) -> (r: Result<Layout, ParseError>)
        requires
            old(self).wf(),
        ensures
            final(self).follows(*old(self)),
            r is Ok ==> final(self).remaining() < old(self).remaining(),
            r matches Ok(l) ==> old(self).current() is Identifier && old(self).token_seq()[old(
                self,
            ).position() + 1] == TokenView::Identifier(l.name@) && element_body(
                old(self).token_seq(),
                old(self).position() + 2,
                l.content@,
                final(self).position(),
            ),
            as_step_layout(r, final(self).position()) == section_at(
                old(self).token_seq(),
                old(self).position(),
                "layout"@,
                false,
                "layout name"@,
            ),
    {
        proof {
            self.lemma_current();
        }
        match self.expect(Token::Identifier(String::from_str("layout"))) {
            Ok(()) => {},
            Err(e) => {
                proof {
                    reveal_strlit("layout");
                }
                return Err(e);
            },
        }
        proof {
            self.lemma_current();
        }
        let name = match self.take_identifier() {
            Some(n) => n,
            None => {
                return Err(Self::missing("layout name"));
            },
        };
        let content = match self.parse_block() {
            Ok(c) => c,
            Err(e) => {
                return Err(e);
            },
        };
        Ok(Layout { name, content })
    }

    /// `page "NAME" { Element* }`
    fn parse_page(&mut self) -> (r: Result<Page, ParseError>)
        requires
            old(self).wf(),
        ensures
            final(self).follows(*old(self)),
            r is Ok ==> final(self).remaining() < old(self).remaining(),
            r matches Ok(p) ==> old(self).current() is Identifier && old(self).token_seq()[old(
                self,
            ).position() + 1] == TokenView::Str(p.name@) && element_body(
                old(self).token_seq(),
                old(self).position() + 2,
                p.content@,
                final(self).position(),
            ),
            as_step_page(r, final(self).position()) == section_at(
                old(self).token_seq(),
                old(self).position(),
                "page"@,
                true,
                "page name"@,
            ),
    {
        proof {
            self.lemma_current();
        }
        match self.expect(Token::Identifier(String::from_str("page"))) {
            Ok(()) => {},
            Err(e) => {
                proof {
                    reveal_strlit("page");
                }
                return Err(e);
            },
        }
        proof {
            self.lemma_current();
        }
        let name = match self.take_string() {
            Some(n) => n,
            None => {
                return Err(Self::missing("page name"));
            },
        };
        let content = match self.parse_block() {
            Ok(c) => c,
            Err(e) => {
                return Err(e);
            },
        };
        Ok(Page { name, content })
    }

    /// `app NAME { [theme: STRING] [layout: IDENT] [routes { STRING: IDENT ... }] }`;
    /// other keys are skipped.
    #[verifier::spinoff_prover]
    #[verifier::rlimit(60)]
    fn parse_app(&mut self) -> (r: Result<App, ParseError>)
        requires
            old(self).wf(),
        ensures
            final(self).follows(*old(self)),
            r is Ok ==> final(self).remaining() < old(self).remaining(),
            r matches Ok(app) ==> unique_keys(app.routes@),
            as_step_app(r, final(self).position()) == app_at(
                old(self).token_seq(),
                old(self).position(),
            ),
    {
        let ghost ts = self.token_seq();
        proof {
            self.lemma_current();
        }
        match self.expect(Token::Identifier(String::from_str("app"))) {
            Ok(()) => {},
            Err(e) => {
                proof {
                    reveal_strlit("app");
                }
                return Err(e);
            },
        }
        proof {
            self.lemma_current();
        }
        let name = match self.take_identifier() {
            Some(n) => n,
            None => {
                return Err(Self::missing("app name"));
            },
        };
        proof {
            self.lemma_current();
        }
        match self.expect(Token::LeftBrace) {
            Ok(()) => {},
            Err(e) => {
                return Err(e);
            },
        }
        let mut theme: Option<String> = None;
        let mut layout: Option<String> = None;
        let mut routes: Vec<Route> = Vec::new();
        assert(routes_view(routes@) =~= Seq::empty());
        while !self.at_right_brace()
            invariant
                self.follows(*old(self)),
                self.remaining() < old(self).remaining(),
                ts == self.token_seq(),
                ts == old(self).token_seq(),
                unique_keys(routes@),
                app_keys(ts, self.position(), app_view_of(name, theme, layout, routes@)) == app_at(
                    ts,
                    old(self).position(),
                ),
            decreases self.remaining(),
        {
            let ghost r0 = self.remaining();
            let ghost at = self.position();
            let ghost cur = app_view_of(name, theme, layout, routes@);
            proof {
                self.lemma_current();
            }
            let key = match self.take_identifier() {
                Some(k) => k,
                None => {
                    return Err(self.unexpected());
                },
            };
            proof {
                self.lemma_current();
                reveal_strlit("theme");
                reveal_strlit("layout");
                reveal_strlit("routes");
            }
            if str_eq(key.as_str(), "theme") || str_eq(key.as_str(), "layout") {
                let is_theme = str_eq(key.as_str(), "theme");
                match self.expect(Token::Colon) {
                    Ok(()) => {},
                    Err(e) => {
                        return Err(e);
                    },
                }
                proof {
                    self.lemma_current();
                }
                let ghost after_colon = self.position();
                if is_theme {
                    match self.take_string() {
                        Some(v) => {
                            theme = Some(v);
                        },
                        None => {
                            return Err(Self::missing("theme name"));
                        },
                    }
                } else {
                    match self.take_identifier() {
                        Some(v) => {
                            layout = Some(v);
                        },
                        None => {
                            return Err(Self::missing("layout name"));
                        },
                    }
                }
                proof {
                    self.lemma_current();
                    assert(kind_index(ts[at + 1]) == 7);
                    if is_theme {
                        assert(app_view_of(name, theme, layout, routes@) == with_theme(
                            cur,
                            tok(ts, at + 2)->Str_0,
                        ));
                    } else {
                        assert(app_view_of(name, theme, layout, routes@) == with_layout(
                            cur,
                            tok(ts, at + 2)->Identifier_0,
                        ));
                    }
                }
                assert(app_keys(ts, at, cur) == app_keys(
                    ts,
                    self.position(),
                    app_view_of(name, theme, layout, routes@),
                ));
            } else if str_eq(key.as_str(), "routes") {
                match self.expect(Token::LeftBrace) {
                    Ok(()) => {},
                    Err(e) => {
                        return Err(e);
                    },
                }
                let ghost a0_routes = routes@;
                let ghost a0 = app_view_of(name, theme, layout, routes@);
                proof {
                    self.lemma_current();
                    assert(app_keys(ts, at, a0) == app_at(ts, old(self).position()));
                }
                while !self.at_right_brace()
                    invariant
                        self.follows(*old(self)),
                        self.remaining() < r0,
                        r0 < old(self).remaining(),
                        ts == self.token_seq(),
                        ts == old(self).token_seq(),
                        unique_keys(routes@),
                        at + 2 <= self.position(),
                        0 <= at && at + 2 < ts.len(),
                        ts[at] == TokenView::Identifier(key@),
                        key@ == "routes"@,
                        "routes"@ != "theme"@ && "routes"@ != "layout"@,
                        tok(ts, at + 1) is LeftBrace,
                        app_keys(ts, at, a0) == app_at(ts, old(self).position()),
                        a0 == app_view_of(name, theme, layout, a0_routes),
                        routes_list(ts, self.position(), routes_view(routes@)) == routes_list(
                            ts,
                            at + 2,
                            a0.routes,
                        ),
                    decreases self.remaining(),
                {
                    proof {
                        self.lemma_current();
                    }
                    let path = match self.take_string() {
                        Some(p) => p,
                        None => {
                            return Err(Self::missing("route path"));
                        },
                    };
                    proof {
                        self.lemma_current();
                    }
                    match self.expect(Token::Colon) {
                        Ok(()) => {},
                        Err(e) => {
                            return Err(e);
                        },
                    }
                    proof {
                        self.lemma_current();
                    }
                    let component = match self.take_identifier() {
                        Some(c) => c,
                        None => {
                            return Err(Self::missing("component name"));
                        },
                    };
                    let route = Route { path, component };
                    proof {
                        crate::ast::lemma_insert_keeps_unique(routes@, route);
                        lemma_insert_view(routes@, route, |r: Route| r.component@);
                        assert(routes_view(routes@) == routes@.map_values(
                            |t: Route| (t.key(), (|r: Route| r.component@)(t)),
                        ));
                    }
                    let ghost before = routes@;
                    insert_named(&mut routes, route);
                    assert(routes_view(routes@) =~= insert_key(before, route).map_values(
                        |t: Route| (t.key(), (|r: Route| r.component@)(t)),
                    ));
                }
                proof {
                    self.lemma_current();
                    assert(routes_list(ts, at + 2, a0.routes) == Step::Done(
                        routes_view(routes@),
                        self.position() + 1,
                    ));
                    assert(app_view_of(name, theme, layout, routes@) == with_routes(
                        a0,
                        routes_view(routes@),
                    ));
                }
                self.expect(Token::RightBrace)?;
                assert(app_keys(ts, at, cur) == app_keys(
                    ts,
                    self.position(),
                    app_view_of(name, theme, layout, routes@),
                ));
            } else {
                assert(app_keys(ts, at, cur) == app_keys(ts, at + 1, cur));
            }
        }
        proof {
            self.lemma_current();
        }
        self.expect(Token::RightBrace)?;
        Ok(App { name, theme, layout, routes })
    }

    /// `props { NAME [: TYPE] ... }`, after the section name.
    fn parse_props(&mut self) -> (r: Result<Vec<Prop>, ParseError>)
        requires
            old(self).wf(),
        ensures
            final(self).follows(*old(self)),
            r is Ok ==> final(self).remaining() < old(self).remaining(),
            r matches Ok(ps) ==> forall|k: int|
                0 <= k < ps@.len() ==> prop_written(old(self).token_seq(), #[trigger] ps@[k]),
            as_step_seq(r, final(self).position(), |xs: Seq<Prop>| props_view2(xs)) == braced(
                old(self).token_seq(),
                old(self).position(),
                props_list(old(self).token_seq(), old(self).position() + 1),
            ),
    {
        let ghost ts = self.token_seq();
        let ghost k = self.position();
        proof {
            self.lemma_current();
        }
        match self.expect(Token::LeftBrace) {
            Ok(()) => {},
            Err(e) => {
                return Err(e);
            },
        }
        let mut props: Vec<Prop> = Vec::new();
        proof {
            assert(props_view2(props@) =~= Seq::empty());
            lemma_cons_empty(props_list(ts, k + 1));
        }
        while !self.at_right_brace()
            invariant
                self.follows(*old(self)),
                self.remaining() < old(self).remaining(),
                ts == self.token_seq(),
                forall|k: int| 0 <= k < props@.len() ==> prop_written(ts, #[trigger] props@[k]),
                cons(props_view2(props@), props_list(ts, self.position())) == props_list(ts, k + 1),
                k == old(self).position(),
                ts == old(self).token_seq(),
                0 <= k < ts.len(),
                ts[k] is LeftBrace,
                k + 1 <= self.position(),
            decreases self.remaining(),
        {
            let ghost at = self.position();
            proof {
                self.lemma_current();
            }
            let name = match self.take_identifier() {
                Some(n) => n,
                None => {
                    return Err(Self::missing("prop name"));
                },
            };
            proof {
                self.lemma_current();
            }
            let type_ = if self.at_kind(&Token::Colon) {
                self.advance();
                proof {
                    self.lemma_current();
                }
                match self.take_identifier() {
                    Some(t) => Some(t),
                    None => {
                        return Err(Self::missing("prop type"));
                    },
                }
            } else {
                None
            };
            let prop = Prop { name, type_ };
            assert(prop_at(ts, at, prop));
            let ghost before = props@;
            let ghost iv = props_view2(seq![prop])[0];
            assert(props_list(ts, at) == cons(seq![iv], props_list(ts, self.position())));
            props.push(prop);
            proof {
                assert(props_view2(props@) =~= props_view2(before) + seq![iv]);
                lemma_cons_cons(props_view2(before), seq![iv], props_list(ts, self.position()));
            }
            assert forall|k: int| 0 <= k < props@.len() implies prop_written(ts, #[trigger] props@[k]) by {
                if k < before.len() {
                    assert(props@[k] == before[k]);
                }
            }
        }
        proof {
            self.lemma_current();
            lemma_cons_done(props_view2(props@), self.position() + 1);
        }
        self.expect(Token::RightBrace)?;
        Ok(props)
    }

    /// `state { NAME : TYPE [= NUMBER | STRING] ... }`, after the section name.
    fn parse_state(&mut self) -> (r: Result<Vec<StateVar>, ParseError>)
        requires
            old(self).wf(),
        ensures
            final(self).follows(*old(self)),
            r is Ok ==> final(self).remaining() < old(self).remaining(),
            r matches Ok(vs) ==> forall|k: int|
                0 <= k < vs@.len() ==> state_written(old(self).token_seq(), #[trigger] vs@[k]),
            as_step_seq(r, final(self).position(), |xs: Seq<StateVar>| state_view(xs)) == braced(
                old(self).token_seq(),
                old(self).position(),
                state_list(old(self).token_seq(), old(self).position() + 1),
            ),
    {
        let ghost ts = self.token_seq();
        let ghost k = self.position();
        proof {
            self.lemma_current();
        }
        match self.expect(Token::LeftBrace) {
            Ok(()) => {},
            Err(e) => {
                return Err(e);
            },
        }
        let mut state: Vec<StateVar> = Vec::new();
        proof {
            assert(state_view(state@) =~= Seq::empty());
            lemma_cons_empty(state_list(ts, k + 1));
        }
        while !self.at_right_brace()
            invariant
                self.follows(*old(self)),
                self.remaining() < old(self).remaining(),
                ts == self.token_seq(),
                forall|k: int| 0 <= k < state@.len() ==> state_written(ts, #[trigger] state@[k]),
                cons(state_view(state@), state_list(ts, self.position())) == state_list(ts, k + 1),
                k == old(self).position(),
                ts == old(self).token_seq(),
                0 <= k < ts.len(),
                ts[k] is LeftBrace,
                k + 1 <= self.position(),
            decreases self.remaining(),
        {
            let ghost at = self.position();
            proof {
                self.lemma_current();
            }
            let name = match self.take_identifier() {
                Some(n) => n,
                None => {
                    return Err(Self::missing("state name"));
                },
            };
            proof {
                self.lemma_current();
            }
            match self.expect(Token::Colon) {
                Ok(()) => {},
                Err(e) => {
                    return Err(e);
                },
            }
            proof {
                self.lemma_current();
            }
            let type_ = match self.take_identifier() {
                Some(t) => t,
                None => {
                    return Err(Self::missing("state type"));
                },
            };
            proof {
                self.lemma_current();
            }
            let default_value = if self.at_kind(&Token::Equals) {
                self.advance();
                proof {
                    self.lemma_current();
                }
                match self.take_number() {
                    Some(v) => Some(v),
                    None => match self.take_string() {
                        Some(v) => Some(v),
                        None => {
                            return Err(Self::missing("default value"));
                        },
                    },
                }
            } else {
                None
            };
            let var = StateVar { name, type_, default_value };
            assert(state_at(ts, at, var));
            let ghost before = state@;
            let ghost iv = state_view(seq![var])[0];
            assert(state_list(ts, at) == cons(seq![iv], state_list(ts, self.position())));
            state.push(var);
            proof {
                assert(state_view(state@) =~= state_view(before) + seq![iv]);
                lemma_cons_cons(state_view(before), seq![iv], state_list(ts, self.position()));
            }
            assert forall|k: int| 0 <= k < state@.len() implies state_written(ts, #[trigger] state@[k]) by {
                if k < before.len() {
                    assert(state@[k] == before[k]);
                }
            }
        }
        proof {
            self.lemma_current();
            lemma_cons_done(state_view(state@), self.position() + 1);
        }
        self.expect(Token::RightBrace)?;
        Ok(state)
    }

    /// `style { Rule* }`, after the section name.
    fn parse_style(&mut self) -> (r: Result<Vec<StyleRule>, ParseError>)
        requires
            old(self).wf(),
        ensures
            final(self).follows(*old(self)),
            r is Ok ==> final(self).remaining() < old(self).remaining(),
            r matches Ok(rs) ==> forall|k: int|
                0 <= k < rs@.len() ==> rule_written(old(self).token_seq(), #[trigger] rs@[k]),
            as_step_seq(r, final(self).position(), |xs: Seq<StyleRule>| rules_view(xs)) == braced(
                old(self).token_seq(),
                old(self).position(),
                style_list(old(self).token_seq(), old(self).position() + 1),
            ),
    {
        let ghost ts = self.token_seq();
        let ghost k = self.position();
        proof {
            self.lemma_current();
        }
        match self.expect(Token::LeftBrace) {
            Ok(()) => {},
            Err(e) => {
                return Err(e);
            },
        }
        let mut rules: Vec<StyleRule> = Vec::new();
        proof {
            assert(rules_view(rules@) =~= Seq::empty());
            lemma_cons_empty(style_list(ts, k + 1));
        }
        while !self.at_right_brace()
            invariant
                self.follows(*old(self)),
                self.remaining() < old(self).remaining(),
                ts == self.token_seq(),
                forall|k: int| 0 <= k < rules@.len() ==> rule_written(ts, #[trigger] rules@[k]),
                cons(rules_view(rules@), style_list(ts, self.position())) == style_list(ts, k + 1),
                k == old(self).position(),
                ts == old(self).token_seq(),
                0 <= k < ts.len(),
                ts[k] is LeftBrace,
                k + 1 <= self.position(),
            decreases self.remaining(),
        {
            let ghost at = self.position();
            let rule = self.parse_style_rule()?;
            assert(style_rule_at(ts, at, rule, self.position()));
            let ghost before = rules@;
            let ghost iv = rules_view(seq![rule])[0];
            assert(style_list(ts, at) == cons(seq![iv], style_list(ts, self.position())));
            rules.push(rule);
            proof {
                assert(rules_view(rules@) =~= rules_view(before) + seq![iv]);
                lemma_cons_cons(rules_view(before), seq![iv], style_list(ts, self.position()));
            }
            assert forall|k: int| 0 <= k < rules@.len() implies rule_written(ts, #[trigger] rules@[k]) by {
                if k < before.len() {
                    assert(rules@[k] == before[k]);
                }
            }
        }
        proof {
            self.lemma_current();
            lemma_cons_done(rules_view(rules@), self.position() + 1);
        }
        self.expect(Token::RightBrace)?;
        Ok(rules)
    }

    /// `component NAME { [props{...}] [state{...}] [view{...}] [style{...}] }`;
    /// anything else inside is an element of the view.
    #[verifier::spinoff_prover]
    #[verifier::rlimit(80)]
    fn parse_component(&mut self) -> (r: Result<Component, ParseError>)
        requires
            old(self).wf(),
        ensures
            final(self).follows(*old(self)),
            r is Ok ==> final(self).remaining() < old(self).remaining(),
            r matches Ok(c) ==> old(self).token_seq()[old(self).position() + 1]
                == TokenView::Identifier(c.name@),
            as_step_comp(r, final(self).position()) == component_at(
                old(self).token_seq(),
                old(self).position(),
            ),
    {
        let ghost ts = self.token_seq();
        proof {
            self.lemma_current();
        }
        match self.expect(Token::Identifier(String::from_str("component"))) {
            Ok(()) => {},
            Err(e) => {
                proof {
                    reveal_strlit("component");
                }
                return Err(e);
            },
        }
        proof {
            self.lemma_current();
        }
        let name = match self.take_identifier() {
            Some(n) => n,
            None => {
                return Err(Self::missing("component name"));
            },
        };
        proof {
            self.lemma_current();
        }
        let ghost k = self.position();
        match self.expect(Token::LeftBrace) {
            Ok(()) => {},
            Err(e) => {
                return Err(e);
            },
        }
        let mut props: Vec<Prop> = Vec::new();
        let mut state: Vec<StateVar> = Vec::new();
        let mut view: Vec<Element> = Vec::new();
        let mut style: Vec<StyleRule> = Vec::new();
        proof {
            assert(props_view2(props@) =~= Seq::empty());
            assert(state_view(state@) =~= Seq::empty());
            assert(elems_view(view@) =~= Seq::empty());
            assert(rules_view(style@) =~= Seq::empty());
            lemma_cons_parts(no_parts(), no_parts(), sections_from(ts, k + 1));
        }
        while !self.at_right_brace()
            invariant
                self.follows(*old(self)),
                self.remaining() < old(self).remaining(),
                ts == self.token_seq(),
                cons_parts(
                    CompParts {
                        props: props_view2(props@),
                        state: state_view(state@),
                        view: elems_view(view@),
                        style: rules_view(style@),
                    },
                    sections_from(ts, self.position()),
                ) == sections_from(ts, k + 1),
                ts == old(self).token_seq(),
                k == old(self).position() + 2,
                0 <= k < ts.len(),
                ts[k] is LeftBrace,
                ts[k - 2] is Identifier,
                ts[k - 1] == TokenView::Identifier(name@),
                k + 1 <= self.position(),
            decreases self.remaining(),
        {
            let ghost at = self.position();
            let ghost cur = CompParts {
                props: props_view2(props@),
                state: state_view(state@),
                view: elems_view(view@),
                style: rules_view(style@),
            };
            proof {
                self.lemma_current();
            }
            let section = self.section_name();
            if section == 1 {
                self.advance();
                let mut more = match self.parse_props() {
                    Ok(m) => m,
                    Err(e) => {
                        return Err(e);
                    },
                };
                let ghost before = props@;
                let ghost added = more@;
                let ghost part = CompParts { props: props_view2(added), ..no_parts() };
                assert(one_section(ts, at) == Step::Done(part, self.position()));
                props.append(&mut more);
                proof {
                    assert(props_view2(props@) =~= props_view2(before) + props_view2(added));
                    lemma_cons_parts(cur, part, sections_from(ts, self.position()));
                    assert(add_parts(cur, part) =~= CompParts {
                        props: props_view2(props@),
                        state: state_view(state@),
                        view: elems_view(view@),
                        style: rules_view(style@),
                    });
                }
            } else if section == 2 {
                self.advance();
                let mut more = match self.parse_state() {
                    Ok(m) => m,
                    Err(e) => {
                        return Err(e);
                    },
                };
                let ghost before = state@;
                let ghost added = more@;
                let ghost part = CompParts { state: state_view(added), ..no_parts() };
                assert(one_section(ts, at) == Step::Done(part, self.position()));
                state.append(&mut more);
                proof {
                    assert(state_view(state@) =~= state_view(before) + state_view(added));
                    lemma_cons_parts(cur, part, sections_from(ts, self.position()));
                    assert(add_parts(cur, part) =~= CompParts {
                        props: props_view2(props@),
                        state: state_view(state@),
                        view: elems_view(view@),
                        style: rules_view(style@),
                    });
                }
            } else if section == 3 {
                self.advance();
                let mut more = match self.parse_block() {
                    Ok(m) => m,
                    Err(e) => {
                        return Err(e);
                    },
                };
                let ghost part = CompParts { view: elems_view(more@), ..no_parts() };
                assert(one_section(ts, at) == Step::Done(part, self.position()));
                let ghost before = view@;
                let ghost added = more@;
                view.append(&mut more);
                proof {
                    lemma_elems_view_append(before, added);
                    lemma_cons_parts(cur, part, sections_from(ts, self.position()));
                    assert(add_parts(cur, part) =~= CompParts {
                        props: props_view2(props@),
                        state: state_view(state@),
                        view: elems_view(view@),
                        style: rules_view(style@),
                    });
                }
            } else if section == 4 {
                self.advance();
                let mut more = match self.parse_style() {
                    Ok(m) => m,
                    Err(e) => {
                        return Err(e);
                    },
                };
                let ghost before = style@;
                let ghost added = more@;
                let ghost part = CompParts { style: rules_view(added), ..no_parts() };
                assert(one_section(ts, at) == Step::Done(part, self.position()));
                style.append(&mut more);
                proof {
                    assert(rules_view(style@) =~= rules_view(before) + rules_view(added));
                    lemma_cons_parts(cur, part, sections_from(ts, self.position()));
                    assert(add_parts(cur, part) =~= CompParts {
                        props: props_view2(props@),
                        state: state_view(state@),
                        view: elems_view(view@),
                        style: rules_view(style@),
                    });
                }
            } else {
                let e = match self.parse_element() {
                    Ok(x) => x,
                    Err(err) => {
                        return Err(err);
                    },
                };
                let ghost part = CompParts { view: seq![elem_view(e)], ..no_parts() };
                assert(one_section(ts, at) == Step::Done(part, self.position()));
                let ghost before = view@;
                view.push(e);
                proof {
                    lemma_elems_view_push(before, e);
                    lemma_cons_parts(cur, part, sections_from(ts, self.position()));
                    assert(add_parts(cur, part) =~= CompParts {
                        props: props_view2(props@),
                        state: state_view(state@),
                        view: elems_view(view@),
                        style: rules_view(style@),
                    });
                }
            }
        }
        proof {
            self.lemma_current();
            lemma_cons_parts(
                CompParts {
                    props: props_view2(props@),
                    state: state_view(state@),
                    view: elems_view(view@),
                    style: rules_view(style@),
                },
                no_parts(),
                sections_from(ts, self.position()),
            );
        }
        self.expect(Token::RightBrace)?;
        Ok(Component { name, props, state, view, style })
    }

    /// Which section of a component the current token opens: 1 props,
    /// 2 state, 3 view, 4 style, 0 none.
    fn section_name(&self) -> (r: u8)
        requires
            self.wf(),
        ensures
            r != 0 ==> self.current() is Identifier,
            r == section_kind(self.current()),
    {
        match self.current_token() {
            Token::Identifier(n) => {
                if str_eq(n.as_str(), "props") {
                    1
                } else if str_eq(n.as_str(), "state") {
                    2
                } else if str_eq(n.as_str(), "view") {
                    3
                } else if str_eq(n.as_str(), "style") {
                    4
                } else {
                    0
                }
            },
            _ => 0,
        }
    }

    /// Which section of a document the current token opens: 1 app, 2 layout,
    /// 3 page, 4 component, 0 none.
    fn top_level_name(&self) -> (r: u8)
        requires
            self.wf(),
        ensures
            r != 0 ==> self.current() is Identifier,
            r == top_kind(self.current()),
    {
        match self.current_token() {
            Token::Identifier(n) => {
                if str_eq(n.as_str(), "app") {
                    1
                } else if str_eq(n.as_str(), "layout") {
                    2
                } else if str_eq(n.as_str(), "page") {
                    3
                } else if str_eq(n.as_str(), "component") {
                    4
                } else {
                    0
                }
            },
            _ => 0,
        }
    }

    /// Parses the whole token stream. Sections are stored by name, a later one
    /// replacing an earlier one of the same name; an element outside any
    /// section becomes the only content of the page named `default`.
    #[verifier::spinoff_prover]
    #[verifier::rlimit(60)]
    pub fn parse_document(&mut self) -> (r: Result<WebCoreDocument, ParseError>)
        requires
            old(self).wf(),
        ensures
            final(self).follows(*old(self)),
            r matches Ok(doc) ==> doc.wf() && final(self).current() is Eof,
            doc_outcome(r, doc_from(old(self).token_seq(), old(self).position(), empty_doc())),
    {
        let ghost ts = self.token_seq();
        let mut doc = WebCoreDocument::new();
        assert(doc_view(doc) =~= empty_doc()) by {
            assert(doc.layouts@.map_values(|t: Layout| (t.key(), layout_entry(t))) =~= Seq::empty());
            assert(doc.pages@.map_values(|t: Page| (t.key(), page_entry(t))) =~= Seq::empty());
            assert(doc.components@.map_values(|t: Component| (t.key(), component_entry(t)))
                =~= Seq::empty());
        }
        loop
            invariant
                self.follows(*old(self)),
                ts == self.token_seq(),
                ts == old(self).token_seq(),
                doc.wf(),
                doc_from(ts, self.position(), doc_view(doc)) == doc_from(
                    ts,
                    old(self).position(),
                    empty_doc(),
                ),
            decreases self.remaining(),
        {
            let ghost at = self.position();
            let ghost dv = doc_view(doc);
            proof {
                self.lemma_current();
                reveal_strlit("app");
                reveal_strlit("layout");
                reveal_strlit("page");
                reveal_strlit("component");
            }
            if self.at_eof() {
                return Ok(doc);
            }
            let section = self.top_level_name();
            if section == 1 {
                let app = match self.parse_app() {
                    Ok(a) => a,
                    Err(e) => {
                        return Err(e);
                    },
                };
                let ghost av = app_view_of(app.name, app.theme, app.layout, app.routes@);
                doc.app = Some(app);
                assert(doc_view(doc) == with_app(dv, av));
            } else if section == 2 {
                let layout = match self.parse_layout() {
                    Ok(l) => l,
                    Err(e) => {
                        return Err(e);
                    },
                };
                let ghost before = doc.layouts@;
                let ghost entry = (layout.key(), layout_entry(layout));
                doc.insert_layout(layout);
                proof {
                    let g = |t: Layout| (t.key(), layout_entry(t));
                    lemma_insert_pairs(before, layout, g);
                    assert(before.map_values(g) =~= before.map_values(|t: Layout| (t.key(), layout_entry(t))));
                    assert(doc.layouts@.map_values(g) =~= doc.layouts@.map_values(|t: Layout| (t.key(), layout_entry(t))));
                    assert(doc.layouts@.map_values(|t: Layout| (t.key(), layout_entry(t)))
                        =~= insert_first(dv.layouts, entry));
                    assert(doc_view(doc) =~= with_layout_entry(dv, entry));
                }
            } else if section == 3 {
                let page = match self.parse_page() {
                    Ok(p) => p,
                    Err(e) => {
                        return Err(e);
                    },
                };
                let ghost before = doc.pages@;
                let ghost entry = (page.key(), page_entry(page));
                doc.insert_page(page);
                proof {
                    let g = |t: Page| (t.key(), page_entry(t));
                    lemma_insert_pairs(before, page, g);
                    assert(before.map_values(g) =~= before.map_values(|t: Page| (t.key(), page_entry(t))));
                    assert(doc.pages@.map_values(g) =~= doc.pages@.map_values(|t: Page| (t.key(), page_entry(t))));
                    assert(doc.pages@.map_values(|t: Page| (t.key(), page_entry(t))) =~= insert_first(
                        dv.pages,
                        entry,
                    ));
                    assert(doc_view(doc) =~= with_page_entry(dv, entry));
                }
            } else if section == 4 {
                let component = match self.parse_component() {
                    Ok(c) => c,
                    Err(e) => {
                        return Err(e);
                    },
                };
                let ghost before = doc.components@;
                let ghost entry = (component.key(), component_entry(component));
                doc.insert_component(component);
                proof {
                    let g = |t: Component| (t.key(), component_entry(t));
                    lemma_insert_pairs(before, component, g);
                    assert(before.map_values(g) =~= before.map_values(|t: Component| (t.key(), component_entry(t))));
                    assert(doc.components@.map_values(g) =~= doc.components@.map_values(|t: Component| (t.key(), component_entry(t))));
                    assert(doc.components@.map_values(|t: Component| (t.key(), component_entry(t)))
                        =~= insert_first(dv.components, entry));
                    assert(doc_view(doc) =~= with_component_entry(dv, entry));
                }
            } else {
                let element = match self.parse_element() {
                    Ok(e) => e,
                    Err(e) => {
                        return Err(e);
                    },
                };
                let page = Page { name: String::from_str("default"), content: vec![element] };
                let ghost before = doc.pages@;
                let ghost entry = (page.key(), page_entry(page));
                proof {
                    assert(page.content@ =~= seq![element]);
                    assert(page.content@.drop_last() =~= Seq::<Element>::empty());
                    assert(elems_view(Seq::<Element>::empty()) == Seq::<ElemView>::empty());
                    assert(page.content@.last() == element);
                    assert(elems_view(page.content@) =~= seq![elem_view(element)]);
                }
                doc.insert_page(page);
                proof {
                    let g = |t: Page| (t.key(), page_entry(t));
                    lemma_insert_pairs(before, page, g);
                    assert(before.map_values(g) =~= before.map_values(|t: Page| (t.key(), page_entry(t))));
                    assert(doc.pages@.map_values(g) =~= doc.pages@.map_values(|t: Page| (t.key(), page_entry(t))));
                    assert(doc.pages@.map_values(|t: Page| (t.key(), page_entry(t))) =~= insert_first(
                        dv.pages,
                        entry,
                    ));
                    assert(doc_view(doc) =~= with_page_entry(dv, entry));
                }
            }
        }
    }
}

} // verus!
