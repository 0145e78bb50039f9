//! Tokens of the source language and the scanner that produces them.
//!
//! Whitespace is space, tab, carriage return and newline; `//` starts a
//! comment that runs to the end of the line. Identifiers are
//! `[A-Za-z_][A-Za-z0-9_]*`, numbers `[0-9]+`, and a bit-vector literal is a
//! number immediately followed by `'`, a radix letter (`b`, `o`, `d`, `h`) and
//! one or more letters or digits. Operators are scanned longest first.
use vstd::prelude::*;
use vstd::string::*;

verus! {

/// Punctuation and operator tokens.
#[derive(Clone, Copy, Debug, PartialEq, Eq, Structural)]
pub enum Sym {
    LBrace,
    RBrace,
    LParen,
    RParen,
    Semi,
    Colon,
    Comma,
    Dot,
    Question,
    Assign,
    EqEq,
    NotEq,
    Lt,
    Le,
    Gt,
    Ge,
    Shl,
    Shr,
    AShl,
    AShr,
    OrOr,
    AndAnd,
    Pipe,
    Caret,
    Amp,
    Plus,
    Minus,
    Star,
    Slash,
    Percent,
    Bang,
    Tilde,
}

/// A token.
#[derive(Debug)]
pub enum Tok {
    Ident(String),
    Num(u64),
    /// A bit-vector literal: width and value.
    BitVec(u64, u64),
    Sym(Sym),
}

/// Mathematical model of a token.
pub enum STok {
    Ident(Seq<char>),
    Num(u64),
    BitVec(u64, u64),
    Sym(Sym),
}

impl View for Tok {
    type V = STok;

    open spec fn view(&self) -> STok {
        match self {
            Tok::Ident(s) => STok::Ident(s@),
            Tok::Num(n) => STok::Num(*n),
            Tok::BitVec(w, v) => STok::BitVec(*w, *v),
            Tok::Sym(s) => STok::Sym(*s),
        }
    }
}

pub open spec fn is_ws(c: char) -> bool {
    c == ' ' || c == '\t' || c == '\r' || c == '\n'
}

pub open spec fn is_alpha(c: char) -> bool {
    ('a' <= c && c <= 'z') || ('A' <= c && c <= 'Z')
}

pub open spec fn is_digit(c: char) -> bool {
    '0' <= c && c <= '9'
}

pub open spec fn is_alnum(c: char) -> bool {
    is_alpha(c) || is_digit(c)
}

pub open spec fn is_ident_start(c: char) -> bool {
    is_alpha(c) || c == '_'
}

pub open spec fn is_ident_cont(c: char) -> bool {
    is_alnum(c) || c == '_'
}

/// Value of a digit character in any radix up to 16 (36 for anything else).
pub open spec fn digit_value(c: char) -> int {
    if '0' <= c && c <= '9' {
        c as int - '0' as int
    } else if 'a' <= c && c <= 'f' {
        c as int - 'a' as int + 10
    } else if 'A' <= c && c <= 'F' {
        c as int - 'A' as int + 10
    } else {
        36
    }
}

/// Value of a digit sequence in radix `base`.
pub open spec fn digits_value(d: Seq<char>, base: int) -> int
    decreases d.len(),
{
    if d.len() == 0 {
        0
    } else {
        digits_value(d.drop_last(), base) * base + digit_value(d.last())
    }
}

/// The number written by `d` in radix `base`, when every character is a
/// digit of that radix and the value fits in 64 bits.
pub open spec fn radix_number(d: Seq<char>, base: int) -> Option<u64> {
    if (forall|i: int| 0 <= i < d.len() ==> digit_value(#[trigger] d[i]) < base) && digits_value(d, base)
        <= u64::MAX {
        Some(digits_value(d, base) as u64)
    } else {
        None
    }
}

/// First index from `p` on whose character is not an identifier character.
pub open spec fn ident_end(s: Seq<char>, p: int) -> int
    decreases s.len() - p,
{
    if p < 0 || p >= s.len() || !is_ident_cont(s[p]) {
        p
    } else {
        ident_end(s, p + 1)
    }
}

/// First index from `p` on whose character is not a decimal digit.
pub open spec fn digits_end(s: Seq<char>, p: int) -> int
    decreases s.len() - p,
{
    if p < 0 || p >= s.len() || !is_digit(s[p]) {
        p
    } else {
        digits_end(s, p + 1)
    }
}

/// First index from `p` on whose character is not a letter or digit.
pub open spec fn alnum_end(s: Seq<char>, p: int) -> int
    decreases s.len() - p,
{
    if p < 0 || p >= s.len() || !is_alnum(s[p]) {
        p
    } else {
        alnum_end(s, p + 1)
    }
}

/// First index from `p` on that holds a newline, or the end of the input.
pub open spec fn line_end(s: Seq<char>, p: int) -> int
    decreases s.len() - p,
{
    if p < 0 || p >= s.len() || s[p] == '\n' {
        p
    } else {
        line_end(s, p + 1)
    }
}

/// Radix of a bit-vector literal's radix letter.
pub open spec fn radix_of(c: char) -> int {
    if c == 'b' {
        2
    } else if c == 'o' {
        8
    } else if c == 'd' {
        10
    } else if c == 'h' {
        16
    } else {
        0
    }
}

/// Whether `s` holds character `c` at index `p`.
pub open spec fn char_at(s: Seq<char>, p: int, c: char) -> bool {
    0 <= p < s.len() && s[p] == c
}

/// The operator or punctuation token at `p`, longest first, with its length.
pub open spec fn sym_at(s: Seq<char>, p: int) -> Option<(Sym, int)> {
    let c = s[p];
    if c == '{' {
        Some((Sym::LBrace, 1))
    } else if c == '}' {
        Some((Sym::RBrace, 1))
    } else if c == '(' {
        Some((Sym::LParen, 1))
    } else if c == ')' {
        Some((Sym::RParen, 1))
    } else if c == ';' {
        Some((Sym::Semi, 1))
    } else if c == ':' {
        Some((Sym::Colon, 1))
    } else if c == ',' {
        Some((Sym::Comma, 1))
    } else if c == '.' {
        Some((Sym::Dot, 1))
    } else if c == '?' {
        Some((Sym::Question, 1))
    } else if c == '^' {
        Some((Sym::Caret, 1))
    } else if c == '~' {
        Some((Sym::Tilde, 1))
    } else if c == '+' {
        Some((Sym::Plus, 1))
    } else if c == '-' {
        Some((Sym::Minus, 1))
    } else if c == '*' {
        Some((Sym::Star, 1))
    } else if c == '/' {
        Some((Sym::Slash, 1))
    } else if c == '%' {
        Some((Sym::Percent, 1))
    } else if c == '=' {
        if char_at(s, p + 1, '=') {
            Some((Sym::EqEq, 2))
        } else {
            Some((Sym::Assign, 1))
        }
    } else if c == '!' {
        if char_at(s, p + 1, '=') {
            Some((Sym::NotEq, 2))
        } else {
            Some((Sym::Bang, 1))
        }
    } else if c == '<' {
        if char_at(s, p + 1, '<') {
            if char_at(s, p + 2, '<') {
                Some((Sym::AShl, 3))
            } else {
                Some((Sym::Shl, 2))
            }
        } else if char_at(s, p + 1, '=') {
            Some((Sym::Le, 2))
        } else {
            Some((Sym::Lt, 1))
        }
    } else if c == '>' {
        if char_at(s, p + 1, '>') {
            if char_at(s, p + 2, '>') {
                Some((Sym::AShr, 3))
            } else {
                Some((Sym::Shr, 2))
            }
        } else if char_at(s, p + 1, '=') {
            Some((Sym::Ge, 2))
        } else {
            Some((Sym::Gt, 1))
        }
    } else if c == '&' {
        if char_at(s, p + 1, '&') {
            Some((Sym::AndAnd, 2))
        } else {
            Some((Sym::Amp, 1))
        }
    } else if c == '|' {
        if char_at(s, p + 1, '|') {
            Some((Sym::OrOr, 2))
        } else {
            Some((Sym::Pipe, 1))
        }
    } else {
        None
    }
}

/// The token that starts at `p` (not whitespace, not a comment) and the index
/// just after it; `None` when no token starts there.
pub open spec fn token_at(s: Seq<char>, p: int) -> Option<(STok, int)> {
    let c = s[p];
    if is_ident_start(c) {
        let e = ident_end(s, p + 1);
        Some((STok::Ident(s.subrange(p, e)), e))
    } else if is_digit(c) {
        let e = digits_end(s, p);
        match radix_number(s.subrange(p, e), 10) {
            None => None,
            Some(n) => if char_at(s, e, '\'') {
                if e + 1 < s.len() && radix_of(s[e + 1]) != 0 {
                    let de = alnum_end(s, e + 2);
                    if de == e + 2 {
                        None
                    } else {
                        match radix_number(s.subrange(e + 2, de), radix_of(s[e + 1])) {
                            None => None,
                            Some(v) => Some((STok::BitVec(n, v), de)),
                        }
                    }
                } else {
                    None
                }
            } else {
                Some((STok::Num(n), e))
            },
        }
    } else {
        match sym_at(s, p) {
            None => None,
            Some((sym, n)) => Some((STok::Sym(sym), p + n)),
        }
    }
}

/// The tokens of `s` from index `p` on; `None` when some character there
/// starts no token.
pub open spec fn tokens_from(s: Seq<char>, p: int) -> Option<Seq<STok>>
    decreases s.len() - p,
{
    if p < 0 || p >= s.len() {
        Some(Seq::empty())
    } else if is_ws(s[p]) {
        tokens_from(s, p + 1)
    } else if char_at(s, p, '/') && char_at(s, p + 1, '/') {
        let e = line_end(s, p + 2);
        if e <= p || e > s.len() {
            None
        } else {
            tokens_from(s, e)
        }
    } else {
        match token_at(s, p) {
            None => None,
            Some((t, e)) => if e <= p || e > s.len() {
                None
            } else {
                match tokens_from(s, e) {
                    None => None,
                    Some(rest) => Some(seq![t] + rest),
                }
            },
        }
    }
}

/// The tokens of a whole source text.
pub open spec fn spec_tokenize(s: Seq<char>) -> Option<Seq<STok>> {
    tokens_from(s, 0)
}

pub proof fn lemma_ident_end(s: Seq<char>, p: int)
    requires
        0 <= p <= s.len(),
    ensures
        p <= ident_end(s, p) <= s.len(),
    decreases s.len() - p,
{
    if p < s.len() && is_ident_cont(s[p]) {
        lemma_ident_end(s, p + 1);
    }
}

pub proof fn lemma_digits_end(s: Seq<char>, p: int)
    requires
        0 <= p <= s.len(),
    ensures
        p <= digits_end(s, p) <= s.len(),
    decreases s.len() - p,
{
    if p < s.len() && is_digit(s[p]) {
        lemma_digits_end(s, p + 1);
    }
}

pub proof fn lemma_alnum_end(s: Seq<char>, p: int)
    requires
        0 <= p <= s.len(),
    ensures
        p <= alnum_end(s, p) <= s.len(),
    decreases s.len() - p,
{
    if p < s.len() && is_alnum(s[p]) {
        lemma_alnum_end(s, p + 1);
    }
}

pub proof fn lemma_line_end(s: Seq<char>, p: int)
    requires
        0 <= p <= s.len(),
    ensures
        p <= line_end(s, p) <= s.len(),
    decreases s.len() - p,
{
    if p < s.len() && s[p] != '\n' {
        lemma_line_end(s, p + 1);
    }
}

/// A digit sequence's value is at least that of any of its prefixes.
proof fn lemma_digits_value_prefix(d: Seq<char>, base: int, k: int)
    requires
        base >= 1,
        0 <= k <= d.len(),
        forall|i: int| 0 <= i < d.len() ==> 0 <= digit_value(#[trigger] d[i]) < base,
    ensures
        0 <= digits_value(d.take(k), base) <= digits_value(d, base),
    decreases d.len(),
{
    if d.len() > 0 {
        let dl = d.drop_last();
        if k == d.len() {
            assert(d.take(k) =~= d);
            lemma_digits_value_prefix(dl, base, 0);
            assert(dl.take(0) =~= Seq::<char>::empty());
        } else {
            lemma_digits_value_prefix(dl, base, k);
            assert(dl.take(k) =~= d.take(k));
        }
        lemma_digits_value_prefix(dl, base, dl.len() as int);
        assert(dl.take(dl.len() as int) =~= dl);
        let v = digits_value(dl, base);
        assert(v * base >= v) by (nonlinear_arith)
            requires
                v >= 0,
                base >= 1,
        ;
    } else {
        assert(d.take(k) =~= d);
    }
}

fn exec_digit_value(c: char) -> (v: u64)
    ensures
        v as int == digit_value(c),
{
    if '0' <= c && c <= '9' {
        (c as u32 - '0' as u32) as u64
    } else if 'a' <= c && c <= 'f' {
        (c as u32 - 'a' as u32 + 10) as u64
    } else if 'A' <= c && c <= 'F' {
        (c as u32 - 'A' as u32 + 10) as u64
    } else {
        36
    }
}

/// The number written by `chars[start..end]` in radix `base`.
pub(crate) fn parse_radix(chars: &Vec<char>, start: usize, end: usize, base: u64) -> (r: Option<u64>)
    requires
        start <= end <= chars@.len(),
        2 <= base <= 16,
    ensures
        r == radix_number(chars@.subrange(start as int, end as int), base as int),
{
    let ghost d = chars@.subrange(start as int, end as int);
    let mut v: u64 = 0;
    let mut i: usize = start;
    while i < end
        invariant
            start <= i <= end <= chars@.len(),
            2 <= base <= 16,
            d == chars@.subrange(start as int, end as int),
            forall|j: int| 0 <= j < i - start ==> digit_value(#[trigger] d[j]) < base,
            v as int == digits_value(d.take(i - start), base as int),
        decreases end - i,
    {
        let dv = exec_digit_value(chars[i]);
        assert(d[i - start] == chars@[i as int]);
        if dv >= base {
            return None;
        }
        let ghost k = (i - start) as int;
        assert(d.take(k + 1).drop_last() =~= d.take(k));
        assert(d.take(k + 1).last() == d[k]);
        assert((v as u128) * (base as u128) <= 0xffff_ffff_ffff_ffffu128 * 16) by (nonlinear_arith)
            requires
                v <= 0xffff_ffff_ffff_ffffu64,
                base <= 16,
        ;
        let wide: u128 = (v as u128) * (base as u128) + (dv as u128);
        if wide > 0xffff_ffff_ffff_ffffu128 {
            proof {
                if forall|j: int| 0 <= j < d.len() ==> digit_value(#[trigger] d[j]) < base {
                    lemma_digits_value_prefix(d, base as int, k + 1);
                }
            }
            return None;
        }
        v = wide as u64;
        i += 1;
    }
    assert(d.take(d.len() as int) =~= d);
    Some(v)
}

fn is_ws_char(c: char) -> (b: bool)
    ensures
        b == is_ws(c),
{
    c == ' ' || c == '\t' || c == '\r' || c == '\n'
}

pub(crate) fn is_alpha_char(c: char) -> (b: bool)
    ensures
        b == is_alpha(c),
{
    ('a' <= c && c <= 'z') || ('A' <= c && c <= 'Z')
}

pub(crate) fn is_digit_char(c: char) -> (b: bool)
    ensures
        b == is_digit(c),
{
    '0' <= c && c <= '9'
}

fn char_at_exec(chars: &Vec<char>, p: usize, c: char) -> (b: bool)
    ensures
        b == char_at(chars@, p as int, c),
{
    p < chars.len() && chars[p] == c
}

/// The characters of `s`.
pub fn str_chars(s: &str) -> (v: Vec<char>)
    ensures
        v@ == s@,
{
    let mut v: Vec<char> = Vec::new();
    for c in it: s.chars()
        invariant
            v@ == it.seq().take(it.index() as int),
    {
        v.push(c);
    }
    v
}

/// The operator or punctuation token at `p`.
fn scan_sym(chars: &Vec<char>, p: usize) -> (r: Option<(Sym, usize)>)
    requires
        p < chars@.len(),
    ensures
        match sym_at(chars@, p as int) {
            None => r is None,
            Some((sym, n)) => r == Some((sym, n as usize)),
        },
        r matches Some((_, n)) ==> 1 <= n && p + n <= chars@.len(),
{
    let _len = chars.len();
    let c = chars[p];
    if c == '{' {
        Some((Sym::LBrace, 1))
    } else if c == '}' {
        Some((Sym::RBrace, 1))
    } else if c == '(' {
        Some((Sym::LParen, 1))
    } else if c == ')' {
        Some((Sym::RParen, 1))
    } else if c == ';' {
        Some((Sym::Semi, 1))
    } else if c == ':' {
        Some((Sym::Colon, 1))
    } else if c == ',' {
        Some((Sym::Comma, 1))
    } else if c == '.' {
        Some((Sym::Dot, 1))
    } else if c == '?' {
        Some((Sym::Question, 1))
    } else if c == '^' {
        Some((Sym::Caret, 1))
    } else if c == '~' {
        Some((Sym::Tilde, 1))
    } else if c == '+' {
        Some((Sym::Plus, 1))
    } else if c == '-' {
        Some((Sym::Minus, 1))
    } else if c == '*' {
        Some((Sym::Star, 1))
    } else if c == '/' {
        Some((Sym::Slash, 1))
    } else if c == '%' {
        Some((Sym::Percent, 1))
    } else if c == '=' {
        if char_at_exec(chars, p + 1, '=') {
            Some((Sym::EqEq, 2))
        } else {
            Some((Sym::Assign, 1))
        }
    } else if c == '!' {
        if char_at_exec(chars, p + 1, '=') {
            Some((Sym::NotEq, 2))
        } else {
            Some((Sym::Bang, 1))
        }
    } else if c == '<' {
        if char_at_exec(chars, p + 1, '<') {
            if char_at_exec(chars, p + 2, '<') {
                Some((Sym::AShl, 3))
            } else {
                Some((Sym::Shl, 2))
            }
        } else if char_at_exec(chars, p + 1, '=') {
            Some((Sym::Le, 2))
        } else {
            Some((Sym::Lt, 1))
        }
    } else if c == '>' {
        if char_at_exec(chars, p + 1, '>') {
            if char_at_exec(chars, p + 2, '>') {
                Some((Sym::AShr, 3))
            } else {
                Some((Sym::Shr, 2))
            }
        } else if char_at_exec(chars, p + 1, '=') {
            Some((Sym::Ge, 2))
        } else {
            Some((Sym::Gt, 1))
        }
    } else if c == '&' {
        if char_at_exec(chars, p + 1, '&') {
            Some((Sym::AndAnd, 2))
        } else {
            Some((Sym::Amp, 1))
        }
    } else if c == '|' {
        if char_at_exec(chars, p + 1, '|') {
            Some((Sym::OrOr, 2))
        } else {
            Some((Sym::Pipe, 1))
        }
    } else {
        None
    }
}

/// The token that starts at `p`.
fn scan_token(src: &str, chars: &Vec<char>, p: usize) -> (r: Option<(Tok, usize)>)
    requires
        chars@ == src@,
        p < chars@.len(),
    ensures
        match token_at(chars@, p as int) {
            None => r is None,
            Some((t, e)) => r matches Some((tok, e2)) && tok@ == t && e2 == e,
        },
        r matches Some((_, e)) ==> p < e <= chars@.len(),
{
    let _len = chars.len();
    let c = chars[p];
    if is_alpha_char(c) || c == '_' {
        let mut e = p + 1;
        proof {
            lemma_ident_end(chars@, p + 1);
        }
        while e < chars.len() && (is_alpha_char(chars[e]) || is_digit_char(chars[e]) || chars[e] == '_')
            invariant
                p < e <= chars@.len(),
                ident_end(chars@, p + 1) == ident_end(chars@, e as int),
            decreases chars@.len() - e,
        {
            e += 1;
        }
        let text = String::from_str(src.substring_char(p, e));
        Some((Tok::Ident(text), e))
    } else if is_digit_char(c) {
        let mut e = p;
        proof {
            lemma_digits_end(chars@, p as int);
        }
        while e < chars.len() && is_digit_char(chars[e])
            invariant
                p <= e <= chars@.len(),
                digits_end(chars@, p as int) == digits_end(chars@, e as int),
            decreases chars@.len() - e,
        {
            e += 1;
        }
        match parse_radix(chars, p, e, 10) {
            None => None,
            Some(n) => {
                if char_at_exec(chars, e, '\'') {
                    if e + 1 < chars.len() {
                        let rc = chars[e + 1];
                        let base: u64 = if rc == 'b' {
                            2
                        } else if rc == 'o' {
                            8
                        } else if rc == 'd' {
                            10
                        } else if rc == 'h' {
                            16
                        } else {
                            0
                        };
                        if base == 0 {
                            return None;
                        }
                        let mut de = e + 2;
                        proof {
                            lemma_alnum_end(chars@, e + 2);
                        }
                        while de < chars.len() && (is_alpha_char(chars[de]) || is_digit_char(chars[de]))
                            invariant
                                e + 2 <= de <= chars@.len(),
                                alnum_end(chars@, e + 2) == alnum_end(chars@, de as int),
                            decreases chars@.len() - de,
                        {
                            de += 1;
                        }
                        if de == e + 2 {
                            return None;
                        }
                        match parse_radix(chars, e + 2, de, base) {
                            None => None,
                            Some(v) => Some((Tok::BitVec(n, v), de)),
                        }
                    } else {
                        None
                    }
                } else {
                    Some((Tok::Num(n), e))
                }
            },
        }
    } else {
        match scan_sym(chars, p) {
            None => None,
            Some((sym, n)) => Some((Tok::Sym(sym), p + n)),
        }
    }
}

/// Splits a source text into tokens; `None` when a character starts no token
/// (or a number does not fit in 64 bits, or a bit-vector literal's digits do
/// not fit its radix).
pub fn tokenize(src: &str) -> (r: Option<Vec<Tok>>)
    ensures
        match spec_tokenize(src@) {
            None => r is None,
            Some(ts) => r matches Some(v) && v@.map_values(|t: Tok| t@) == ts,
        },
        r matches Some(v) ==> v@.len() <= src@.len(),
{
    let chars = str_chars(src);
    let mut toks: Vec<Tok> = Vec::new();
    let mut p: usize = 0;
    while p < chars.len()
        invariant
            chars@ == src@,
            p <= chars@.len(),
            toks@.len() <= p,
            spec_tokenize(src@) == match tokens_from(chars@, p as int) {
                None => None,
                Some(rest) => Some(toks@.map_values(|t: Tok| t@) + rest),
            },
        decreases chars@.len() - p,
    {
        let c = chars[p];
        if is_ws_char(c) {
            p += 1;
        } else if c == '/' && char_at_exec(&chars, p + 1, '/') {
            let mut e = p + 2;
            proof {
                lemma_line_end(chars@, p + 2);
            }
            while e < chars.len() && chars[e] != '\n'
                invariant
                    p + 2 <= e <= chars@.len(),
                    line_end(chars@, p + 2) == line_end(chars@, e as int),
                decreases chars@.len() - e,
            {
                e += 1;
            }
            p = e;
        } else {
            match scan_token(src, &chars, p) {
                None => {
                    return None;
                },
                Some((t, e)) => {
                    if e <= p {
                        return None;
                    }
                    let ghost before = toks@.map_values(|t: Tok| t@);
                    let ghost tv = t@;
                    toks.push(t);
                    assert(toks@.map_values(|t: Tok| t@) =~= before.push(tv));
                    proof {
                        match tokens_from(chars@, e as int) {
                            None => {},
                            Some(rest) => {
                                assert(before + (seq![tv] + rest) =~= before.push(tv) + rest);
                            },
                        }
                    }
                    p = e;
                },
            }
        }
    }
    assert(toks@.map_values(|t: Tok| t@) + Seq::<STok>::empty() =~= toks@.map_values(|t: Tok| t@));
    Some(toks)
}

} // verus!
