//! A scanner for the declaration subset of the language (`var`, `bit`,
//! braces, brackets, angle brackets, `;`, `:`, `=`, `<=`, `^`, numbers and
//! identifiers), one token per call.
use vstd::prelude::*;

use crate::text::{dec, dec_string, push_dec};
use crate::token::{
    digits_end, ident_end, is_alpha_char, is_digit, is_digit_char, is_ident_start, lemma_digits_end, lemma_ident_end, parse_radix,
    radix_number, str_chars,
};
use vstd::string::*;

verus! {

/// A token of the declaration subset.
#[derive(Debug, Clone, PartialEq)]
pub enum Token {
    Var,
    Bit,
    LBrace,
    RBrace,
    LBracket,
    RBracket,
    LAngle,
    RAngle,
    Semicolon,
    Colon,
    Assign,
    NonBlockAssign,
    Caret,
    Number(u64),
    Ident(String),
    Eof,
    /// A character or number that cannot be scanned, with a message.
    Error(String),
}

/// Mathematical model of a token.
pub enum SToken {
    Var,
    Bit,
    LBrace,
    RBrace,
    LBracket,
    RBracket,
    LAngle,
    RAngle,
    Semicolon,
    Colon,
    Assign,
    NonBlockAssign,
    Caret,
    Number(u64),
    Ident(Seq<char>),
    Eof,
    Error(Seq<char>),
}

impl View for Token {
    type V = SToken;

    open spec fn view(&self) -> SToken {
        match self {
            Token::Var => SToken::Var,
            Token::Bit => SToken::Bit,
            Token::LBrace => SToken::LBrace,
            Token::RBrace => SToken::RBrace,
            Token::LBracket => SToken::LBracket,
            Token::RBracket => SToken::RBracket,
            Token::LAngle => SToken::LAngle,
            Token::RAngle => SToken::RAngle,
            Token::Semicolon => SToken::Semicolon,
            Token::Colon => SToken::Colon,
            Token::Assign => SToken::Assign,
            Token::NonBlockAssign => SToken::NonBlockAssign,
            Token::Caret => SToken::Caret,
            Token::Number(n) => SToken::Number(*n),
            Token::Ident(s) => SToken::Ident(s@),
            Token::Eof => SToken::Eof,
            Token::Error(e) => SToken::Error(e@),
        }
    }
}

/// ASCII whitespace: space, tab, newline, form feed, carriage return.
pub open spec fn is_ascii_ws(c: char) -> bool {
    c == ' ' || c == '\t' || c == '\n' || c == '\x0C' || c == '\r'
}

/// First index from `p` on that holds no whitespace.
pub open spec fn skip_ws(s: Seq<char>, p: int) -> int
    decreases s.len() - p,
{
    if p < 0 || p >= s.len() || !is_ascii_ws(s[p]) {
        p
    } else {
        skip_ws(s, p + 1)
    }
}

/// The token of the single character `c` (scanned at index `p`), and the
/// index after it; `<` followed by `=` is `<=`.
pub open spec fn symbol_at(s: Seq<char>, p: int) -> (SToken, int) {
    let c = s[p];
    if c == '{' {
        (SToken::LBrace, p + 1)
    } else if c == '}' {
        (SToken::RBrace, p + 1)
    } else if c == '[' {
        (SToken::LBracket, p + 1)
    } else if c == ']' {
        (SToken::RBracket, p + 1)
    } else if c == ';' {
        (SToken::Semicolon, p + 1)
    } else if c == ':' {
        (SToken::Colon, p + 1)
    } else if c == '^' {
        (SToken::Caret, p + 1)
    } else if c == '=' {
        (SToken::Assign, p + 1)
    } else if c == '<' {
        if p + 1 < s.len() && s[p + 1] == '=' {
            (SToken::NonBlockAssign, p + 2)
        } else {
            (SToken::LAngle, p + 1)
        }
    } else if c == '>' {
        (SToken::RAngle, p + 1)
    } else {
        (SToken::Error("予期しない文字 '"@ + seq![c] + "' (位置 "@ + dec((p + 1) as nat) + ")"@), p + 1)
    }
}

/// The next token from index `p` on, and the index after it: whitespace is
/// skipped; `var` and `bit` are keywords; a number that does not fit in 64
/// bits, and an unknown character, give an error token.
pub open spec fn lex_at(s: Seq<char>, p: int) -> (SToken, int) {
    let q = skip_ws(s, p);
    if q >= s.len() {
        (SToken::Eof, q)
    } else if is_ident_start(s[q]) {
        let e = ident_end(s, q);
        let word = s.subrange(q, e);
        if word == "var"@ {
            (SToken::Var, e)
        } else if word == "bit"@ {
            (SToken::Bit, e)
        } else {
            (SToken::Ident(word), e)
        }
    } else if is_digit(s[q]) {
        let e = digits_end(s, q);
        let digits = s.subrange(q, e);
        match radix_number(digits, 10) {
            Some(v) => (SToken::Number(v), e),
            None => (SToken::Error("数値パース失敗: "@ + digits), e),
        }
    } else {
        symbol_at(s, q)
    }
}

/// A scanner over a source text.
pub struct Lexer {
    chars: Vec<char>,
    source: String,
    pos: usize,
}

impl View for Lexer {
    type V = (Seq<char>, int);

    closed spec fn view(&self) -> (Seq<char>, int) {
        (self.chars@, self.pos as int)
    }
}

fn is_ascii_ws_char(c: char) -> (b: bool)
    ensures
        b == is_ascii_ws(c),
{
    c == ' ' || c == '\t' || c == '\n' || c == '\x0C' || c == '\r'
}

/// Whether `chars[start..end]` spells the three letters `a`, `b`, `c`.
fn spells3(chars: &Vec<char>, start: usize, end: usize, a: char, b: char, c: char) -> (r: bool)
    requires
        start <= end <= chars@.len(),
    ensures
        r == (chars@.subrange(start as int, end as int) == seq![a, b, c]),
{
    if end - start != 3 {
        assert(chars@.subrange(start as int, end as int).len() != 3);
        false
    } else {
        let r = chars[start] == a && chars[start + 1] == b && chars[start + 2] == c;
        assert(r ==> chars@.subrange(start as int, end as int) =~= seq![a, b, c]);
        assert(chars@.subrange(start as int, end as int) == seq![a, b, c] ==> {
            &&& chars@.subrange(start as int, end as int)[0] == a
            &&& chars@.subrange(start as int, end as int)[1] == b
            &&& chars@.subrange(start as int, end as int)[2] == c
        });
        r
    }
}

impl Lexer {
    #[verifier::type_invariant]
    spec fn inv(self) -> bool {
        self.chars@ == self.source@
    }

    /// A scanner at the start of `input`.
    pub fn new(input: &str) -> (l: Self)
        ensures
            l@ == (input@, 0int),
    {
        Lexer { chars: str_chars(input), source: String::from_str(input), pos: 0 }
    }

    /// Moves past whitespace.
    fn skip_whitespace(&mut self)
        ensures
            final(self)@ == (old(self)@.0, skip_ws(old(self)@.0, old(self)@.1)),
    {
        proof {
            use_type_invariant(&*self);
        }
        let ghost p0 = self.pos as int;
        while self.pos < self.chars.len() && is_ascii_ws_char(self.chars[self.pos])
            invariant
                self.chars@ == old(self)@.0,
                self.chars@ == self.source@,
                p0 == old(self)@.1,
                skip_ws(self.chars@, self.pos as int) == skip_ws(self.chars@, p0),
            decreases self.chars@.len() - self.pos,
        {
            self.pos += 1;
        }
    }

    /// Reads an identifier or keyword starting at the current position.
    fn read_ident_or_keyword(&mut self) -> (t: Token)
        requires
            old(self)@.1 < old(self)@.0.len(),
            is_ident_start(old(self)@.0[old(self)@.1]),
            skip_ws(old(self)@.0, old(self)@.1) == old(self)@.1,
        ensures
            (t@, final(self)@.1) == lex_at(old(self)@.0, old(self)@.1),
            final(self)@.0 == old(self)@.0,
    {
        proof {
            use_type_invariant(&*self);
        }
        let start = self.pos;
        proof {
            lemma_ident_end(self.chars@, start as int);
        }
        while self.pos < self.chars.len() && (is_alpha_char(self.chars[self.pos]) || is_digit_char(self.chars[self.pos])
            || self.chars[self.pos] == '_')
            invariant
                self.chars@ == old(self)@.0,
                self.chars@ == self.source@,
                start == old(self)@.1,
                start <= self.pos <= self.chars@.len(),
                ident_end(self.chars@, start as int) == ident_end(self.chars@, self.pos as int),
            decreases self.chars@.len() - self.pos,
        {
            self.pos += 1;
        }
        proof {
            reveal_strlit("var");
            reveal_strlit("bit");
            assert("var"@ =~= seq!['v', 'a', 'r']);
            assert("bit"@ =~= seq!['b', 'i', 't']);
        }
        if spells3(&self.chars, start, self.pos, 'v', 'a', 'r') {
            Token::Var
        } else if spells3(&self.chars, start, self.pos, 'b', 'i', 't') {
            Token::Bit
        } else {
            let word = self.source.as_str().substring_char(start, self.pos);
            Token::Ident(String::from_str(word))
        }
    }

    /// Reads a decimal number starting at the current position.
    fn read_number(&mut self) -> (t: Token)
        requires
            old(self)@.1 < old(self)@.0.len(),
            is_digit(old(self)@.0[old(self)@.1]),
            !is_ident_start(old(self)@.0[old(self)@.1]),
            skip_ws(old(self)@.0, old(self)@.1) == old(self)@.1,
        ensures
            (t@, final(self)@.1) == lex_at(old(self)@.0, old(self)@.1),
            final(self)@.0 == old(self)@.0,
    {
        proof {
            use_type_invariant(&*self);
        }
        let start = self.pos;
        proof {
            lemma_digits_end(self.chars@, start as int);
        }
        while self.pos < self.chars.len() && is_digit_char(self.chars[self.pos])
            invariant
                self.chars@ == old(self)@.0,
                self.chars@ == self.source@,
                start == old(self)@.1,
                start <= self.pos <= self.chars@.len(),
                digits_end(self.chars@, start as int) == digits_end(self.chars@, self.pos as int),
            decreases self.chars@.len() - self.pos,
        {
            self.pos += 1;
        }
        match parse_radix(&self.chars, start, self.pos, 10) {
            Some(n) => Token::Number(n),
            None => {
                let digits = self.source.as_str().substring_char(start, self.pos);
                let mut msg = String::from_str("数値パース失敗: ");
                msg.append(digits);
                Token::Error(msg)
            },
        }
    }

    /// Reads the next token: whitespace is skipped; at the end of the input
    /// the token is `Eof`.
    pub fn next_token(&mut self) -> (t: Token)
        ensures
            (t@, final(self)@.1) == lex_at(old(self)@.0, old(self)@.1),
            final(self)@.0 == old(self)@.0,
    {
        proof {
            use_type_invariant(&*self);
        }
        self.skip_whitespace();
        proof {
            use_type_invariant(&*self);
        }
        if self.pos >= self.chars.len() {
            return Token::Eof;
        }
        let c = self.chars[self.pos];
        if is_alpha_char(c) || c == '_' {
            return self.read_ident_or_keyword();
        }
        if is_digit_char(c) {
            return self.read_number();
        }
        let at = self.pos;
        self.pos += 1;
        if c == '{' {
            Token::LBrace
        } else if c == '}' {
            Token::RBrace
        } else if c == '[' {
            Token::LBracket
        } else if c == ']' {
            Token::RBracket
        } else if c == ';' {
            Token::Semicolon
        } else if c == ':' {
            Token::Colon
        } else if c == '^' {
            Token::Caret
        } else if c == '=' {
            Token::Assign
        } else if c == '<' {
            if self.pos < self.chars.len() && self.chars[self.pos] == '=' {
                self.pos += 1;
                Token::NonBlockAssign
            } else {
                Token::LAngle
            }
        } else if c == '>' {
            Token::RAngle
        } else {
            let ch = self.source.as_str().substring_char(at, at + 1);
            assert(ch@ =~= seq![c]);
            let mut msg = String::from_str("予期しない文字 '");
            msg.append(ch);
            msg.append("' (位置 ");
            push_dec(&mut msg, self.pos as u64);
            msg.append(")");
            Token::Error(msg)
        }
    }
}

/// How a token is printed: its source text, `<EOF>`, or `<ERROR: message>`.
pub open spec fn token_text(t: SToken) -> Seq<char> {
    match t {
        SToken::Var => "var"@,
        SToken::Bit => "bit"@,
        SToken::LBrace => "{"@,
        SToken::RBrace => "}"@,
        SToken::LBracket => "["@,
        SToken::RBracket => "]"@,
        SToken::LAngle => "<"@,
        SToken::RAngle => ">"@,
        SToken::Semicolon => ";"@,
        SToken::Colon => ":"@,
        SToken::Assign => "="@,
        SToken::NonBlockAssign => "<="@,
        SToken::Caret => "^"@,
        SToken::Number(n) => dec(n as nat),
        SToken::Ident(s) => s,
        SToken::Eof => "<EOF>"@,
        SToken::Error(e) => "<ERROR: "@ + e + ">"@,
    }
}

impl Token {
    /// The printed form of the token.
    pub fn text(&self) -> (s: String)
        ensures
            s@ == token_text(self@),
    {
        match self {
            Token::Var => String::from_str("var"),
            Token::Bit => String::from_str("bit"),
            Token::LBrace => String::from_str("{"),
            Token::RBrace => String::from_str("}"),
            Token::LBracket => String::from_str("["),
            Token::RBracket => String::from_str("]"),
            Token::LAngle => String::from_str("<"),
            Token::RAngle => String::from_str(">"),
            Token::Semicolon => String::from_str(";"),
            Token::Colon => String::from_str(":"),
            Token::Assign => String::from_str("="),
            Token::NonBlockAssign => String::from_str("<="),
            Token::Caret => String::from_str("^"),
            Token::Number(n) => dec_string(*n),
            Token::Ident(s) => s.clone(),
            Token::Eof => String::from_str("<EOF>"),
            Token::Error(e) => {
                let mut t = String::from_str("<ERROR: ");
                t.append(e.as_str());
                t.append(">");
                t
            },
        }
    }
}

} // verus!
