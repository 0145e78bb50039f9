//! Parser: source text to `Program`, as the grammar of `grammar.rs` defines it.
use vstd::prelude::*;
use vstd::string::*;

use crate::ast::{
    clone_expr, BinOp, Block, Decl, Direction, Expr, InstDecl, ModuleDef, PortDecl, ProcStmt, Program,
    SExpr, SStmt, SignalType, Stmt, TestbenchDef, UnOp,
};
use crate::grammar::{
    branches_agree, chain_expr, desugar_if, empty_block, find_target, ident_at, is_kw, is_sym,
    level_op, name_at, p_arg_list, p_assignments, p_binary, p_binary_rest, p_block_items, p_decl,
    p_elifs, p_factor, p_if, p_if_body, p_inst_decl, p_items, p_module, p_module_items, p_named_arg,
    p_port_decl, p_ports, p_proc_items, p_program, p_signal_type, p_stmt, p_tb_items, p_ternary,
    p_testbench, p_unary, same_targets, spec_is_keyword, spec_parse_program, targets_unique,
    with_expr,
};
use crate::token::{spec_tokenize, tokenize, STok, Sym, Tok};

verus! {

/// A syntax error.
#[derive(Debug)]
pub struct ParseError {
    pub message: String,
}

impl ParseError {
    /// The error as printed: `パースエラー: ` and the message.
    pub fn text(&self) -> (s: String)
        ensures
            s@ == "パースエラー: "@ + self.message@,
    {
        let mut t = String::from_str("パースエラー: ");
        t.append(self.message.as_str());
        t
    }
}

/// The token sequence's model.
pub open spec fn tv(toks: Seq<Tok>) -> Seq<STok> {
    toks.map_values(|t: Tok| t@)
}

pub open spec fn stmts_view(v: Seq<Stmt>) -> Seq<SStmt> {
    v.map_values(|s: Stmt| s@)
}

pub open spec fn arms_view(v: Seq<(Expr, Vec<Stmt>)>) -> Seq<(SExpr, Seq<SStmt>)> {
    v.map_values(|a: (Expr, Vec<Stmt>)| (a.0@, stmts_view(a.1@)))
}

/// The recognizer of the language's tokens.
pub struct CeriteParser;

impl CeriteParser {
    /// The tokens of `input`, or an error when some character starts no token.
    pub fn tokenize(input: &str) -> (r: Result<Vec<Tok>, ParseError>)
        ensures
            match spec_tokenize(input@) {
                None => r is Err,
                Some(ts) => r matches Ok(v) && tv(v@) == ts,
            },
            r matches Ok(v) ==> v@.len() <= input@.len(),
            r matches Err(e) ==> e.message@ == "字句解析に失敗しました（不正な文字、または範囲外の数値）"@,
    {
        match tokenize(input) {
            Some(v) => Ok(v),
            None => Err(perr("字句解析に失敗しました（不正な文字、または範囲外の数値）")),
        }
    }
}

fn perr(msg: &str) -> (e: ParseError)
    ensures
        e.message@ == msg@,
{
    ParseError { message: String::from_str(msg) }
}

fn syntax_error() -> (e: ParseError)
    ensures
        e.message@ == "構文エラー"@,
{
    perr("構文エラー")
}

/// Whether `s` is a reserved word.
fn is_keyword(s: &String) -> (b: bool)
    ensures
        b == spec_is_keyword(s@),
{
    *s == String::from_str("var") || *s == String::from_str("bit") || *s == String::from_str("clock")
        || *s == String::from_str("module") || *s == String::from_str("port") || *s
        == String::from_str("input") || *s == String::from_str("output") || *s == String::from_str(
        "testbench",
    ) || *s == String::from_str("initial") || *s == String::from_str("step") || *s
        == String::from_str("if") || *s == String::from_str("elif") || *s == String::from_str("else")
}

fn sym_is(toks: &Vec<Tok>, p: usize, s: Sym) -> (b: bool)
    ensures
        b == is_sym(tv(toks@), p as int, s),
{
    if p < toks.len() {
        match &toks[p] {
            Tok::Sym(x) => *x == s,
            _ => false,
        }
    } else {
        false
    }
}

fn kw_is(toks: &Vec<Tok>, p: usize, kw: &str) -> (b: bool)
    ensures
        b == is_kw(tv(toks@), p as int, kw@),
{
    if p < toks.len() {
        match &toks[p] {
            Tok::Ident(x) => *x == String::from_str(kw),
            _ => false,
        }
    } else {
        false
    }
}

fn ident_is(toks: &Vec<Tok>, p: usize) -> (r: Option<String>)
    ensures
        match ident_at(tv(toks@), p as int) {
            None => r is None,
            Some(s) => r matches Some(x) && x@ == s,
        },
{
    if p < toks.len() {
        match &toks[p] {
            Tok::Ident(x) => Some(x.clone()),
            _ => None,
        }
    } else {
        None
    }
}

fn name_is(toks: &Vec<Tok>, p: usize) -> (r: Option<String>)
    ensures
        match name_at(tv(toks@), p as int) {
            None => r is None,
            Some(s) => r matches Some(x) && x@ == s,
        },
{
    match ident_is(toks, p) {
        None => None,
        Some(s) => if is_keyword(&s) {
            None
        } else {
            Some(s)
        },
    }
}

fn level_op_of(lvl: u8, tok: &Tok) -> (r: Option<BinOp>)
    ensures
        r == level_op(lvl as int, tok@),
{
    match tok {
        Tok::Sym(s) => {
            let s = *s;
            if lvl == 0 && s == Sym::OrOr {
                Some(BinOp::Or)
            } else if lvl == 1 && s == Sym::AndAnd {
                Some(BinOp::And)
            } else if lvl == 2 && s == Sym::Pipe {
                Some(BinOp::BitOr)
            } else if lvl == 3 && s == Sym::Caret {
                Some(BinOp::Xor)
            } else if lvl == 4 && s == Sym::Amp {
                Some(BinOp::BitAnd)
            } else if lvl == 5 && s == Sym::EqEq {
                Some(BinOp::Eq)
            } else if lvl == 5 && s == Sym::NotEq {
                Some(BinOp::Neq)
            } else if lvl == 6 && s == Sym::Le {
                Some(BinOp::Le)
            } else if lvl == 6 && s == Sym::Lt {
                Some(BinOp::Lt)
            } else if lvl == 6 && s == Sym::Ge {
                Some(BinOp::Ge)
            } else if lvl == 6 && s == Sym::Gt {
                Some(BinOp::Gt)
            } else if lvl == 7 && s == Sym::AShl {
                Some(BinOp::AShl)
            } else if lvl == 7 && s == Sym::Shl {
                Some(BinOp::Shl)
            } else if lvl == 7 && s == Sym::AShr {
                Some(BinOp::AShr)
            } else if lvl == 7 && s == Sym::Shr {
                Some(BinOp::Shr)
            } else if lvl == 8 && s == Sym::Plus {
                Some(BinOp::Add)
            } else if lvl == 8 && s == Sym::Minus {
                Some(BinOp::Sub)
            } else if lvl == 9 && s == Sym::Star {
                Some(BinOp::Mul)
            } else if lvl == 9 && s == Sym::Slash {
                Some(BinOp::Div)
            } else if lvl == 9 && s == Sym::Percent {
                Some(BinOp::Mod)
            } else {
                None
            }
        },
        _ => None,
    }
}

// ---------------------------------------------------------------------------
// Expressions

fn parse_ternary_expr(toks: &Vec<Tok>, p: usize) -> (r: Result<(Expr, usize), ParseError>)
    requires
        p <= toks@.len(),
        toks@.len() + 8 <= usize::MAX,
    ensures
        match p_ternary(tv(toks@), p as int) {
            None => r is Err,
            Some((e, q)) => r matches Ok((x, q2)) && x@ == e && q2 == q,
        },
        r matches Ok((_, q)) ==> p < q <= toks@.len(),
    decreases toks@.len() - p, 13int,
{
    let (c, p1) = parse_binary(toks, p, 0)?;
    if sym_is(toks, p1, Sym::Question) {
        let (a, p2) = parse_ternary_expr(toks, p1 + 1)?;
        if !sym_is(toks, p2, Sym::Colon) {
            return Err(perr("三項演算子の ':' が見つかりません"));
        }
        let (b, p3) = parse_ternary_expr(toks, p2 + 1)?;
        Ok((Expr::Ternary { cond: Box::new(c), then_branch: Box::new(a), else_branch: Box::new(b) }, p3))
    } else {
        Ok((c, p1))
    }
}

fn parse_binary(toks: &Vec<Tok>, p: usize, lvl: u8) -> (r: Result<(Expr, usize), ParseError>)
    requires
        p <= toks@.len(),
        toks@.len() + 8 <= usize::MAX,
        lvl <= 10,
    ensures
        match p_binary(tv(toks@), p as int, lvl as int) {
            None => r is Err,
            Some((e, q)) => r matches Ok((x, q2)) && x@ == e && q2 == q,
        },
        r matches Ok((_, q)) ==> p < q <= toks@.len(),
    decreases toks@.len() - p, 12 - lvl,
{
    if lvl == 10 {
        return parse_unary(toks, p);
    }
    let (lhs, p1) = parse_binary(toks, p, lvl + 1)?;
    parse_binary_rest(toks, p1, lvl, lhs)
}

#[verifier::loop_isolation(false)]
fn parse_binary_rest(toks: &Vec<Tok>, p: usize, lvl: u8, acc0: Expr) -> (r: Result<(Expr, usize), ParseError>)
    requires
        p <= toks@.len(),
        toks@.len() + 8 <= usize::MAX,
        lvl <= 9,
    ensures
        match p_binary_rest(tv(toks@), p as int, lvl as int, acc0@) {
            None => r is Err,
            Some((e, q)) => r matches Ok((x, q2)) && x@ == e && q2 == q,
        },
        r matches Ok((_, q)) ==> p <= q <= toks@.len(),
    decreases toks@.len() - p, 1int,
{
    let ghost t = tv(toks@);
    let ghost start = p;
    let mut acc = acc0;
    let mut p = p;
    loop
        invariant
            t == tv(toks@),
            start <= p <= toks@.len(),
            toks@.len() + 8 <= usize::MAX,
            lvl <= 9,
            p_binary_rest(t, start as int, lvl as int, acc0@) == p_binary_rest(t, p as int, lvl as int, acc@),
        decreases toks@.len() - p,
    {
        let op = if p < toks.len() {
            assert(t[p as int] == toks@[p as int]@);
            level_op_of(lvl, &toks[p])
        } else {
            None
        };
        match op {
            None => {
                return Ok((acc, p));
            },
            Some(op) => {
                let (rhs, p2) = parse_binary(toks, p + 1, lvl + 1)?;
                acc = Expr::BinOp { op, lhs: Box::new(acc), rhs: Box::new(rhs) };
                p = p2;
            },
        }
    }
}

fn parse_unary(toks: &Vec<Tok>, p: usize) -> (r: Result<(Expr, usize), ParseError>)
    requires
        p <= toks@.len(),
        toks@.len() + 8 <= usize::MAX,
    ensures
        match p_unary(tv(toks@), p as int) {
            None => r is Err,
            Some((e, q)) => r matches Ok((x, q2)) && x@ == e && q2 == q,
        },
        r matches Ok((_, q)) ==> p < q <= toks@.len(),
    decreases toks@.len() - p, 1int,
{
    let bang = sym_is(toks, p, Sym::Bang);
    if bang || sym_is(toks, p, Sym::Tilde) {
        let op = if bang {
            UnOp::Not
        } else {
            UnOp::BitNot
        };
        let (e, q) = parse_unary(toks, p + 1)?;
        Ok((Expr::UnaryOp { op, expr: Box::new(e) }, q))
    } else {
        parse_expression_factor(toks, p)
    }
}

fn parse_expression_factor(toks: &Vec<Tok>, p: usize) -> (r: Result<(Expr, usize), ParseError>)
    requires
        p <= toks@.len(),
        toks@.len() + 8 <= usize::MAX,
    ensures
        match p_factor(tv(toks@), p as int) {
            None => r is Err,
            Some((e, q)) => r matches Ok((x, q2)) && x@ == e && q2 == q,
        },
        r matches Ok((_, q)) ==> p < q <= toks@.len(),
    decreases toks@.len() - p, 0int,
{
    if p >= toks.len() {
        return Err(perr("式の項が見つかりません"));
    }
    match &toks[p] {
        Tok::Ident(s) => {
            if sym_is(toks, p + 1, Sym::Dot) {
                match (name_is(toks, p), name_is(toks, p + 2)) {
                    (Some(i), Some(f)) => Ok((Expr::FieldAccess { instance: i, field: f }, p + 3)),
                    _ => Err(perr("フィールド参照にキーワードまたは不正な名前があります")),
                }
            } else if is_keyword(s) {
                Err(perr("キーワードは識別子として使えません"))
            } else {
                Ok((Expr::Ident(s.clone()), p + 1))
            }
        },
        Tok::Num(n) => Ok((Expr::Number(*n), p + 1)),
        Tok::BitVec(w, v) => Ok((Expr::BitVecLiteral { width: *w, value: *v }, p + 1)),
        Tok::Sym(Sym::LParen) => {
            let (e, q) = parse_ternary_expr(toks, p + 1)?;
            if !sym_is(toks, q, Sym::RParen) {
                return Err(perr("')' が見つかりません"));
            }
            Ok((e, q + 1))
        },
        _ => Err(perr("式の項として予期しないトークンです")),
    }
}

// ---------------------------------------------------------------------------
// Declarations and statements

fn parse_stmt(toks: &Vec<Tok>, p: usize) -> (r: Result<(Stmt, usize), ParseError>)
    requires
        p <= toks@.len(),
        toks@.len() + 8 <= usize::MAX,
    ensures
        match p_stmt(tv(toks@), p as int) {
            None => r is Err,
            Some((s, q)) => r matches Ok((x, q2)) && x@ == s && q2 == q,
        },
        r matches Ok((_, q)) ==> p < q <= toks@.len(),
{
    let target = match name_is(toks, p) {
        Some(t) => t,
        None => {
            return Err(perr("代入先にはキーワード以外の変数名が必要です"));
        },
    };
    let comb = sym_is(toks, p + 1, Sym::Assign);
    if !comb && !sym_is(toks, p + 1, Sym::Le) {
        return Err(perr("代入演算子（= または <=）が見つかりません"));
    }
    let (expr, q) = parse_ternary_expr(toks, p + 2)?;
    if !sym_is(toks, q, Sym::Semi) {
        return Err(perr("';' が見つかりません"));
    }
    if comb {
        Ok((Stmt::Combinational { target, expr }, q + 1))
    } else {
        Ok((Stmt::Sequential { target, expr }, q + 1))
    }
}

fn parse_signal_type(toks: &Vec<Tok>, p: usize) -> (r: Result<(SignalType, usize), ParseError>)
    requires
        p <= toks@.len(),
        toks@.len() + 8 <= usize::MAX,
    ensures
        match p_signal_type(tv(toks@), p as int) {
            None => r is Err,
            Some((s, q)) => r matches Ok((x, q2)) && x == s && q2 == q,
        },
        r matches Ok((_, q)) ==> p < q <= toks@.len(),
{
    if kw_is(toks, p, "clock") {
        Ok((SignalType::Clock, p + 1))
    } else if kw_is(toks, p, "bit") {
        if sym_is(toks, p + 1, Sym::Lt) {
            if p + 2 < toks.len() && sym_is(toks, p + 3, Sym::Gt) {
                match &toks[p + 2] {
                    Tok::Num(n) => Ok((SignalType::Bit(Some(*n)), p + 4)),
                    _ => Err(perr("ビット幅には数値が必要です")),
                }
            } else {
                Err(perr("ビット幅の指定が不正です"))
            }
        } else {
            Ok((SignalType::Bit(None), p + 1))
        }
    } else {
        Err(perr("信号の型（bit/clock）が見つかりません"))
    }
}

fn parse_decl(toks: &Vec<Tok>, p: usize) -> (r: Result<(Decl, usize), ParseError>)
    requires
        p <= toks@.len(),
        toks@.len() + 8 <= usize::MAX,
    ensures
        match p_decl(tv(toks@), p as int) {
            None => r is Err,
            Some((d, q)) => r matches Ok((x, q2)) && x@ == d && q2 == q,
        },
        r matches Ok((_, q)) ==> p < q <= toks@.len(),
{
    if !kw_is(toks, p, "var") || !sym_is(toks, p + 2, Sym::Colon) {
        return Err(syntax_error());
    }
    let name = match name_is(toks, p + 1) {
        Some(n) => n,
        None => {
            return Err(perr("変数名にキーワードは使えません"));
        },
    };
    let (sig_type, q) = parse_signal_type(toks, p + 3)?;
    if !sym_is(toks, q, Sym::Semi) {
        return Err(perr("';' が見つかりません"));
    }
    Ok((Decl { name, sig_type }, q + 1))
}

fn parse_named_arg(toks: &Vec<Tok>, p: usize) -> (r: Result<((String, Expr), usize), ParseError>)
    requires
        p <= toks@.len(),
        toks@.len() + 8 <= usize::MAX,
    ensures
        match p_named_arg(tv(toks@), p as int) {
            None => r is Err,
            Some((a, q)) => r matches Ok((x, q2)) && x.0@ == a.0 && x.1@ == a.1 && q2 == q,
        },
        r matches Ok((_, q)) ==> p < q <= toks@.len(),
{
    let name = match ident_is(toks, p) {
        Some(n) => n,
        None => {
            return Err(perr("名前付き引数の名前が見つかりません"));
        },
    };
    if !sym_is(toks, p + 1, Sym::Colon) {
        return Err(perr("名前付き引数の ':' が見つかりません"));
    }
    let (e, q) = parse_ternary_expr(toks, p + 2)?;
    Ok(((name, e), q))
}

pub open spec fn args_view(v: Seq<(String, Expr)>) -> Seq<(Seq<char>, SExpr)> {
    v.map_values(|a: (String, Expr)| (a.0@, a.1@))
}

#[verifier::loop_isolation(false)]
fn parse_arg_list(toks: &Vec<Tok>, p: usize) -> (r: Result<(Vec<(String, Expr)>, usize), ParseError>)
    requires
        p <= toks@.len(),
        toks@.len() + 8 <= usize::MAX,
    ensures
        match p_arg_list(tv(toks@), p as int, Seq::empty()) {
            None => r is Err,
            Some((a, q)) => r matches Ok((x, q2)) && args_view(x@) == a && q2 == q,
        },
        r matches Ok((_, q)) ==> p < q <= toks@.len(),
{
    let ghost t = tv(toks@);
    let mut acc: Vec<(String, Expr)> = Vec::new();
    let mut p = p;
    let ghost p0 = p;
    assert(args_view(acc@) =~= Seq::empty());
    loop
        invariant
            t == tv(toks@),
            p0 <= p <= toks@.len(),
            toks@.len() + 8 <= usize::MAX,
            p_arg_list(t, p0 as int, Seq::empty()) == p_arg_list(t, p as int, args_view(acc@)),
        decreases toks@.len() - p,
    {
        let (a, q) = parse_named_arg(toks, p)?;
        let ghost before = args_view(acc@);
        let ghost av = (a.0@, a.1@);
        acc.push(a);
        assert(args_view(acc@) =~= before.push(av));
        if sym_is(toks, q, Sym::Comma) {
            p = q + 1;
        } else if sym_is(toks, q, Sym::RParen) {
            return Ok((acc, q + 1));
        } else {
            return Err(perr("引数リストの ',' または ')' が見つかりません"));
        }
    }
}

fn parse_inst_decl(toks: &Vec<Tok>, p: usize) -> (r: Result<(InstDecl, usize), ParseError>)
    requires
        p <= toks@.len(),
        toks@.len() + 8 <= usize::MAX,
    ensures
        match p_inst_decl(tv(toks@), p as int) {
            None => r is Err,
            Some((d, q)) => r matches Ok((x, q2)) && x@ == d && q2 == q,
        },
        r matches Ok((_, q)) ==> p < q <= toks@.len(),
{
    if !kw_is(toks, p, "var") || !sym_is(toks, p + 2, Sym::Assign) || !sym_is(toks, p + 4, Sym::LParen) {
        return Err(syntax_error());
    }
    let instance_name = match name_is(toks, p + 1) {
        Some(n) => n,
        None => {
            return Err(perr("インスタンス名にキーワードは使えません"));
        },
    };
    let module_name = match ident_is(toks, p + 3) {
        Some(n) => n,
        None => {
            return Err(perr("モジュール名が見つかりません"));
        },
    };
    let (args, q) = if sym_is(toks, p + 5, Sym::RParen) {
        let v: Vec<(String, Expr)> = Vec::new();
        assert(args_view(v@) =~= Seq::empty());
        (v, p + 6)
    } else {
        parse_arg_list(toks, p + 5)?
    };
    if !sym_is(toks, q, Sym::Semi) {
        return Err(perr("';' が見つかりません"));
    }
    let d = InstDecl { instance_name, module_name, args };
    assert(d@.args =~= args_view(args@));
    Ok((d, q + 1))
}

fn parse_port_decl(toks: &Vec<Tok>, p: usize) -> (r: Result<(PortDecl, usize), ParseError>)
    requires
        p <= toks@.len(),
        toks@.len() + 8 <= usize::MAX,
    ensures
        match p_port_decl(tv(toks@), p as int) {
            None => r is Err,
            Some((d, q)) => r matches Ok((x, q2)) && x@ == d && q2 == q,
        },
        r matches Ok((_, q)) ==> p < q <= toks@.len(),
{
    let input = kw_is(toks, p + 2, "input");
    if !sym_is(toks, p + 1, Sym::Colon) || !(input || kw_is(toks, p + 2, "output")) {
        return Err(perr("ポートの向き（input/output）が見つかりません"));
    }
    let name = match name_is(toks, p) {
        Some(n) => n,
        None => {
            return Err(perr("ポート名にキーワードは使えません"));
        },
    };
    let direction = if input {
        Direction::Input
    } else {
        Direction::Output
    };
    let (sig_type, q) = parse_signal_type(toks, p + 3)?;
    if !sym_is(toks, q, Sym::Semi) {
        return Err(perr("';' が見つかりません"));
    }
    Ok((PortDecl { name, direction, sig_type }, q + 1))
}

#[verifier::loop_isolation(false)]
fn parse_port_block(toks: &Vec<Tok>, p: usize) -> (r: Result<(Vec<PortDecl>, usize), ParseError>)
    requires
        p <= toks@.len(),
        toks@.len() + 8 <= usize::MAX,
    ensures
        match p_ports(tv(toks@), p as int, Seq::empty()) {
            None => r is Err,
            Some((ps, q)) => r matches Ok((x, q2)) && x@.map_values(|d: PortDecl| d@) == ps && q2 == q,
        },
        r matches Ok((_, q)) ==> p < q <= toks@.len(),
{
    let ghost t = tv(toks@);
    let mut acc: Vec<PortDecl> = Vec::new();
    let mut p = p;
    let ghost p0 = p;
    assert(acc@.map_values(|d: PortDecl| d@) =~= Seq::empty());
    loop
        invariant
            t == tv(toks@),
            p0 <= p <= toks@.len(),
            toks@.len() + 8 <= usize::MAX,
            p_ports(t, p0 as int, Seq::empty()) == p_ports(t, p as int, acc@.map_values(|d: PortDecl| d@)),
        decreases toks@.len() - p,
    {
        if p >= toks.len() {
            return Err(perr("ポートブロックの '}' が見つかりません"));
        }
        if sym_is(toks, p, Sym::RBrace) {
            return Ok((acc, p + 1));
        }
        let (d, q) = parse_port_decl(toks, p)?;
        let ghost before = acc@.map_values(|d: PortDecl| d@);
        let ghost dv = d@;
        acc.push(d);
        assert(acc@.map_values(|d: PortDecl| d@) =~= before.push(dv));
        p = q;
    }
}

// ---------------------------------------------------------------------------
// `if` statements

#[verifier::loop_isolation(false)]
fn find_target_in(b: &Vec<Stmt>, tgt: &String) -> (r: Option<usize>)
    ensures
        match r {
            Some(i) => find_target(stmts_view(b@), tgt@, 0) == i && i < b@.len(),
            None => find_target(stmts_view(b@), tgt@, 0) == -1,
        },
{
    let ghost bv = stmts_view(b@);
    let mut i: usize = 0;
    while i < b.len()
        invariant
            bv == stmts_view(b@),
            i <= b@.len(),
            find_target(bv, tgt@, 0) == find_target(bv, tgt@, i as int),
        decreases b@.len() - i,
    {
        let same = match &b[i] {
            Stmt::Combinational { target, .. } => *target == *tgt,
            Stmt::Sequential { target, .. } => *target == *tgt,
        };
        if same {
            return Some(i);
        }
        i += 1;
    }
    None
}

fn stmt_target(s: &Stmt) -> (t: &String)
    ensures
        t@ == s@.target(),
{
    match s {
        Stmt::Combinational { target, .. } => target,
        Stmt::Sequential { target, .. } => target,
    }
}

fn stmt_is_seq(s: &Stmt) -> (b: bool)
    ensures
        b == s@.is_seq(),
{
    match s {
        Stmt::Combinational { .. } => false,
        Stmt::Sequential { .. } => true,
    }
}

#[verifier::loop_isolation(false)]
fn targets_unique_in(b: &Vec<Stmt>) -> (r: bool)
    ensures
        r == targets_unique(stmts_view(b@)),
{
    let ghost bv = stmts_view(b@);
    let mut i: usize = 0;
    while i < b.len()
        invariant
            bv == stmts_view(b@),
            i <= b@.len(),
            forall|x: int, y: int| 0 <= x < y < b@.len() && x < i ==> bv[x].target() != bv[y].target(),
        decreases b@.len() - i,
    {
        let mut j: usize = i + 1;
        while j < b.len()
            invariant
                bv == stmts_view(b@),
                i < b@.len(),
                i + 1 <= j <= b@.len(),
                forall|x: int, y: int| 0 <= x < y < b@.len() && x < i ==> bv[x].target() != bv[y].target(),
                forall|y: int| i < y < j ==> bv[i as int].target() != bv[y].target(),
            decreases b@.len() - j,
        {
            if *stmt_target(&b[i]) == *stmt_target(&b[j]) {
                assert(bv[i as int].target() == bv[j as int].target());
                return false;
            }
            j += 1;
        }
        i += 1;
    }
    true
}

#[verifier::loop_isolation(false)]
fn same_targets_in(b: &Vec<Stmt>, els: &Vec<Stmt>) -> (r: bool)
    ensures
        r == same_targets(stmts_view(b@), stmts_view(els@)),
{
    let ghost bv = stmts_view(b@);
    let ghost ev = stmts_view(els@);
    let mut i: usize = 0;
    while i < b.len()
        invariant
            bv == stmts_view(b@),
            ev == stmts_view(els@),
            i <= b@.len(),
            forall|x: int|
                0 <= x < i ==> {
                    let j = find_target(ev, #[trigger] bv[x].target(), 0);
                    0 <= j && ev[j].is_seq() == bv[x].is_seq()
                },
        decreases b@.len() - i,
    {
        match find_target_in(els, stmt_target(&b[i])) {
            None => {
                assert(find_target(ev, bv[i as int].target(), 0) < 0);
                return false;
            },
            Some(j) => {
                if stmt_is_seq(&els[j]) != stmt_is_seq(&b[i]) {
                    assert(ev[j as int].is_seq() != bv[i as int].is_seq());
                    return false;
                }
            },
        }
        i += 1;
    }
    let mut j: usize = 0;
    while j < els.len()
        invariant
            bv == stmts_view(b@),
            ev == stmts_view(els@),
            j <= els@.len(),
            forall|x: int| 0 <= x < j ==> 0 <= find_target(bv, #[trigger] ev[x].target(), 0),
        decreases els@.len() - j,
    {
        if find_target_in(b, stmt_target(&els[j])).is_none() {
            assert(find_target(bv, ev[j as int].target(), 0) < 0);
            return false;
        }
        j += 1;
    }
    true
}

#[verifier::loop_isolation(false)]
fn branches_agree_in(arms: &Vec<(Expr, Vec<Stmt>)>, els: &Vec<Stmt>) -> (r: bool)
    ensures
        r == branches_agree(arms_view(arms@), stmts_view(els@)),
{
    let ghost av = arms_view(arms@);
    if !targets_unique_in(els) {
        return false;
    }
    let mut k: usize = 0;
    while k < arms.len()
        invariant
            av == arms_view(arms@),
            k <= arms@.len(),
            targets_unique(stmts_view(els@)),
            forall|x: int|
                0 <= x < k ==> targets_unique(#[trigger] av[x].1) && same_targets(av[x].1, stmts_view(els@)),
        decreases arms@.len() - k,
    {
        if !targets_unique_in(&arms[k].1) || !same_targets_in(&arms[k].1, els) {
            assert(!(targets_unique(av[k as int].1) && same_targets(av[k as int].1, stmts_view(els@))));
            return false;
        }
        k += 1;
    }
    true
}

fn stmt_with_expr(s: &Stmt, e: Expr) -> (r: Stmt)
    ensures
        r@ == with_expr(s@, e@),
{
    match s {
        Stmt::Combinational { target, .. } => Stmt::Combinational { target: target.clone(), expr: e },
        Stmt::Sequential { target, .. } => Stmt::Sequential { target: target.clone(), expr: e },
    }
}

fn stmt_expr(s: &Stmt) -> (e: &Expr)
    ensures
        e@ == s@.expr(),
{
    match s {
        Stmt::Combinational { expr, .. } => expr,
        Stmt::Sequential { expr, .. } => expr,
    }
}

/// The value the branches assign to `tgt`.
#[verifier::loop_isolation(false)]
fn chained(arms: &Vec<(Expr, Vec<Stmt>)>, els: &Vec<Stmt>, tgt: &String) -> (e: Expr)
    requires
        branches_agree(arms_view(arms@), stmts_view(els@)),
        0 <= find_target(stmts_view(els@), tgt@, 0),
    ensures
        e@ == chain_expr(arms_view(arms@), 0, stmts_view(els@), tgt@),
{
    let ghost av = arms_view(arms@);
    let ghost ev = stmts_view(els@);
    let j = find_target_in(els, tgt).unwrap();
    let mut acc = clone_expr(stmt_expr(&els[j]));
    let mut k: usize = arms.len();
    assert(acc@ == chain_expr(av, k as int, ev, tgt@));
    while k > 0
        invariant
            av == arms_view(arms@),
            ev == stmts_view(els@),
            k <= arms@.len(),
            branches_agree(av, ev),
            0 <= find_target(ev, tgt@, 0),
            acc@ == chain_expr(av, k as int, ev, tgt@),
        decreases k,
    {
        k -= 1;
        let ghost bk = av[k as int].1;
        assert(targets_unique(av[k as int].1) && same_targets(bk, ev));
        let ghost jj = find_target(ev, tgt@, 0);
        assert(0 <= find_target(bk, ev[jj].target(), 0));
        proof {
            lemma_find_target_is(ev, tgt@, 0);
        }
        let i = find_target_in(&arms[k].1, tgt).unwrap();
        let then_e = clone_expr(stmt_expr(&arms[k].1[i]));
        let cond_e = clone_expr(&arms[k].0);
        acc = Expr::Ternary { cond: Box::new(cond_e), then_branch: Box::new(then_e), else_branch: Box::new(acc) };
    }
    acc
}

/// `find_target` lands on a statement that assigns the target it looks for.
proof fn lemma_find_target_is(b: Seq<SStmt>, tgt: Seq<char>, i: int)
    requires
        0 <= i,
        0 <= find_target(b, tgt, i),
    ensures
        0 <= find_target(b, tgt, i) < b.len(),
        b[find_target(b, tgt, i)].target() == tgt,
    decreases b.len() - i,
{
    if i < b.len() && b[i].target() != tgt {
        lemma_find_target_is(b, tgt, i + 1);
    }
}

/// The assignments an `if` statement stands for.
#[verifier::loop_isolation(false)]
fn desugar(arms: &Vec<(Expr, Vec<Stmt>)>, els: &Vec<Stmt>) -> (r: Vec<Stmt>)
    requires
        arms@.len() > 0,
        branches_agree(arms_view(arms@), stmts_view(els@)),
    ensures
        stmts_view(r@) == desugar_if(arms_view(arms@), stmts_view(els@)),
{
    let ghost av = arms_view(arms@);
    let ghost ev = stmts_view(els@);
    let first = &arms[0].1;
    let ghost b0 = av[0].1;
    assert(b0 == stmts_view(first@));
    assert(targets_unique(av[0].1) && same_targets(b0, ev));
    let mut out: Vec<Stmt> = Vec::new();
    let mut i: usize = 0;
    while i < first.len()
        invariant
            av == arms_view(arms@),
            ev == stmts_view(els@),
            b0 == av[0].1,
            b0 == stmts_view(first@),
            i <= first@.len(),
            branches_agree(av, ev),
            same_targets(b0, ev),
            stmts_view(out@) == b0.take(i as int).map_values(
                |s: SStmt| with_expr(s, chain_expr(av, 0, ev, s.target())),
            ),
        decreases first@.len() - i,
    {
        let tgt = stmt_target(&first[i]);
        assert(0 <= find_target(ev, b0[i as int].target(), 0));
        let e = chained(arms, els, tgt);
        let s = stmt_with_expr(&first[i], e);
        let ghost before = stmts_view(out@);
        let ghost sv = s@;
        out.push(s);
        assert(stmts_view(out@) =~= before.push(sv));
        i += 1;
        assert(b0.take(i as int).map_values(|s: SStmt| with_expr(s, chain_expr(av, 0, ev, s.target())))
            =~= b0.take(i - 1).map_values(|s: SStmt| with_expr(s, chain_expr(av, 0, ev, s.target()))).push(
            sv,
        ));
    }
    assert(b0.take(i as int) =~= b0);
    out
}

fn parse_if_stmt(toks: &Vec<Tok>, p: usize) -> (r: Result<(Vec<Stmt>, usize), ParseError>)
    requires
        p <= toks@.len(),
        toks@.len() + 8 <= usize::MAX,
    ensures
        match p_if(tv(toks@), p as int) {
            None => r is Err,
            Some((ss, q)) => r matches Ok((x, q2)) && stmts_view(x@) == ss && q2 == q,
        },
        r matches Ok((_, q)) ==> p < q <= toks@.len(),
    decreases toks@.len() - p, 0int,
{
    if p >= toks.len() || !kw_is(toks, p, "if") {
        return Err(syntax_error());
    }
    let (c, q1) = parse_ternary_expr(toks, p + 1)?;
    if !sym_is(toks, q1, Sym::LBrace) {
        return Err(perr("if の '{' が見つかりません"));
    }
    let (b0, q2) = parse_if_body(toks, q1 + 1)?;
    let mut arms: Vec<(Expr, Vec<Stmt>)> = Vec::new();
    let ghost c_v = c@;
    let ghost b0_v = stmts_view(b0@);
    arms.push((c, b0));
    assert(arms_view(arms@) =~= seq![(c_v, b0_v)]);
    let (arms, els, q3) = parse_elifs(toks, q2, arms)?;
    if arms.len() == 0 || !branches_agree_in(&arms, &els) {
        return Err(perr("if の各分岐は同じ変数に同じ代入演算子で1回ずつ代入する必要があります"));
    }
    let out = desugar(&arms, &els);
    Ok((out, q3))
}

fn parse_elifs(toks: &Vec<Tok>, p: usize, acc: Vec<(Expr, Vec<Stmt>)>) -> (r: Result<
    (Vec<(Expr, Vec<Stmt>)>, Vec<Stmt>, usize),
    ParseError,
>)
    requires
        p <= toks@.len(),
        toks@.len() + 8 <= usize::MAX,
    ensures
        match p_elifs(tv(toks@), p as int, arms_view(acc@)) {
            None => r is Err,
            Some((arms, els, q)) => r matches Ok((x, y, q2)) && arms_view(x@) == arms && stmts_view(y@)
                == els && q2 == q,
        },
        r matches Ok((_, _, q)) ==> p < q <= toks@.len(),
    decreases toks@.len() - p, 0int,
{
    if p >= toks.len() {
        return Err(perr("if の else 節が見つかりません"));
    }
    if kw_is(toks, p, "elif") {
        let (c, q1) = parse_ternary_expr(toks, p + 1)?;
        if !sym_is(toks, q1, Sym::LBrace) {
            return Err(perr("elif の '{' が見つかりません"));
        }
        let (b, q2) = parse_if_body(toks, q1 + 1)?;
        let mut acc = acc;
        let ghost before = arms_view(acc@);
        let ghost item = (c@, stmts_view(b@));
        acc.push((c, b));
        assert(arms_view(acc@) =~= before.push(item));
        parse_elifs(toks, q2, acc)
    } else if kw_is(toks, p, "else") && sym_is(toks, p + 1, Sym::LBrace) {
        let (b, q) = parse_if_body(toks, p + 2)?;
        Ok((acc, b, q))
    } else {
        Err(perr("if には else 節が必要です"))
    }
}

#[verifier::loop_isolation(false)]
fn parse_if_body(toks: &Vec<Tok>, p: usize) -> (r: Result<(Vec<Stmt>, usize), ParseError>)
    requires
        p <= toks@.len(),
        toks@.len() + 8 <= usize::MAX,
    ensures
        match p_if_body(tv(toks@), p as int, Seq::empty()) {
            None => r is Err,
            Some((ss, q)) => r matches Ok((x, q2)) && stmts_view(x@) == ss && q2 == q,
        },
        r matches Ok((_, q)) ==> p < q <= toks@.len(),
    decreases toks@.len() - p, 1int,
{
    let ghost t = tv(toks@);
    let mut acc: Vec<Stmt> = Vec::new();
    let mut p = p;
    let ghost p0 = p;
    assert(stmts_view(acc@) =~= Seq::empty());
    loop
        invariant
            t == tv(toks@),
            p0 <= p <= toks@.len(),
            toks@.len() + 8 <= usize::MAX,
            p_if_body(t, p0 as int, Seq::empty()) == p_if_body(t, p as int, stmts_view(acc@)),
        decreases toks@.len() - p,
    {
        if p >= toks.len() {
            return Err(perr("'}' が見つかりません"));
        }
        if sym_is(toks, p, Sym::RBrace) {
            return Ok((acc, p + 1));
        }
        if kw_is(toks, p, "if") {
            let (mut ss, q) = parse_if_stmt(toks, p)?;
            let ghost before = stmts_view(acc@);
            let ghost add = stmts_view(ss@);
            acc.append(&mut ss);
            assert(stmts_view(acc@) =~= before + add);
            p = q;
        } else {
            let (s, q) = parse_stmt(toks, p)?;
            let ghost before = stmts_view(acc@);
            let ghost sv = s@;
            acc.push(s);
            assert(stmts_view(acc@) =~= before.push(sv));
            p = q;
        }
    }
}

/// An `if` statement or an assignment at `p`, as assignments.
fn parse_assignments(toks: &Vec<Tok>, p: usize) -> (r: Result<(Vec<Stmt>, usize), ParseError>)
    requires
        p <= toks@.len(),
        toks@.len() + 8 <= usize::MAX,
    ensures
        match p_assignments(tv(toks@), p as int) {
            None => r is Err,
            Some((ss, q)) => r matches Ok((x, q2)) && stmts_view(x@) == ss && q2 == q,
        },
        r matches Ok((_, q)) ==> p < q <= toks@.len(),
{
    if kw_is(toks, p, "if") {
        parse_if_stmt(toks, p)
    } else {
        let (s, q) = parse_stmt(toks, p)?;
        let ghost sv = s@;
        let mut v: Vec<Stmt> = Vec::new();
        v.push(s);
        assert(stmts_view(v@) =~= seq![sv]);
        Ok((v, q))
    }
}

// ---------------------------------------------------------------------------
// Blocks, modules, testbenches

fn append_stmts(dst: &mut Vec<Stmt>, src: Vec<Stmt>)
    ensures
        stmts_view(final(dst)@) == stmts_view(old(dst)@) + stmts_view(src@),
{
    let mut src = src;
    let ghost a = stmts_view(dst@);
    let ghost b = stmts_view(src@);
    dst.append(&mut src);
    assert(stmts_view(dst@) =~= a + b);
}

#[verifier::loop_isolation(false)]
fn parse_block(toks: &Vec<Tok>, p: usize) -> (r: Result<(Block, usize), ParseError>)
    requires
        p <= toks@.len(),
        toks@.len() + 8 <= usize::MAX,
    ensures
        match p_block_items(tv(toks@), p as int, empty_block()) {
            None => r is Err,
            Some((b, q)) => r matches Ok((x, q2)) && x@ == b && q2 == q,
        },
        r matches Ok((_, q)) ==> p < q <= toks@.len(),
{
    let ghost t = tv(toks@);
    let mut acc = Block { decls: Vec::new(), instances: Vec::new(), stmts: Vec::new() };
    let mut p = p;
    let ghost p0 = p;
    assert(acc@ == empty_block()) by {
        assert(acc@.decls =~= Seq::empty());
        assert(acc@.instances =~= Seq::empty());
        assert(acc@.stmts =~= Seq::empty());
    }
    loop
        invariant
            t == tv(toks@),
            p0 <= p <= toks@.len(),
            toks@.len() + 8 <= usize::MAX,
            p_block_items(t, p0 as int, empty_block()) == p_block_items(t, p as int, acc@),
        decreases toks@.len() - p,
    {
        if p >= toks.len() {
            return Err(perr("ブロックの '}' が見つかりません"));
        }
        if sym_is(toks, p, Sym::RBrace) {
            return Ok((acc, p + 1));
        }
        let ghost before = acc@;
        if kw_is(toks, p, "var") && sym_is(toks, p + 2, Sym::Colon) {
            let (d, q) = parse_decl(toks, p)?;
            let ghost dv = d@;
            acc.decls.push(d);
            assert(acc@.decls =~= before.decls.push(dv));
            assert(acc@ == crate::ast::SBlock { decls: before.decls.push(dv), ..before });
            p = q;
        } else if kw_is(toks, p, "var") {
            let (i, q) = parse_inst_decl(toks, p)?;
            let ghost iv = i@;
            acc.instances.push(i);
            assert(acc@.instances =~= before.instances.push(iv));
            assert(acc@ == crate::ast::SBlock { instances: before.instances.push(iv), ..before });
            p = q;
        } else {
            let (ss, q) = parse_assignments(toks, p)?;
            let ghost sv = stmts_view(ss@);
            append_stmts(&mut acc.stmts, ss);
            assert(acc@.stmts =~= before.stmts + sv);
            assert(acc@ == crate::ast::SBlock { stmts: before.stmts + sv, ..before });
            p = q;
        }
    }
}

#[verifier::loop_isolation(false)]
fn parse_module_def(toks: &Vec<Tok>, p: usize) -> (r: Result<(ModuleDef, usize), ParseError>)
    requires
        p <= toks@.len(),
        toks@.len() + 8 <= usize::MAX,
    ensures
        match p_module(tv(toks@), p as int) {
            None => r is Err,
            Some((m, q)) => r matches Ok((x, q2)) && x@ == m && q2 == q,
        },
        r matches Ok((_, q)) ==> p < q <= toks@.len(),
{
    let ghost t = tv(toks@);
    if !kw_is(toks, p, "module") || !sym_is(toks, p + 2, Sym::LBrace) || !kw_is(toks, p + 3, "port")
        || !sym_is(toks, p + 4, Sym::LBrace) {
        return Err(perr("モジュール定義の形式が不正です"));
    }
    let name = match name_is(toks, p + 1) {
        Some(n) => n,
        None => {
            return Err(perr("モジュール名にキーワードは使えません"));
        },
    };
    let (ports, q0) = parse_port_block(toks, p + 5)?;
    let mut acc = ModuleDef { name, ports, decls: Vec::new(), stmts: Vec::new() };
    let mut p = q0;
    let ghost p0 = p;
    assert(acc@.decls =~= Seq::empty());
    assert(acc@.stmts =~= Seq::empty());
    let ghost acc0 = acc@;
    loop
        invariant
            t == tv(toks@),
            p0 <= p <= toks@.len(),
            toks@.len() + 8 <= usize::MAX,
            p_module_items(t, p0 as int, acc0) == p_module_items(t, p as int, acc@),
        decreases toks@.len() - p,
    {
        if p >= toks.len() {
            return Err(perr("モジュール定義の '}' が見つかりません"));
        }
        if sym_is(toks, p, Sym::RBrace) {
            return Ok((acc, p + 1));
        }
        let ghost before = acc@;
        if kw_is(toks, p, "var") {
            let (d, q) = parse_decl(toks, p)?;
            let ghost dv = d@;
            acc.decls.push(d);
            assert(acc@.decls =~= before.decls.push(dv));
            assert(acc@ == crate::ast::SModuleDef { decls: before.decls.push(dv), ..before });
            p = q;
        } else {
            let (ss, q) = parse_assignments(toks, p)?;
            let ghost sv = stmts_view(ss@);
            append_stmts(&mut acc.stmts, ss);
            assert(acc@.stmts =~= before.stmts + sv);
            assert(acc@ == crate::ast::SModuleDef { stmts: before.stmts + sv, ..before });
            p = q;
        }
    }
}

#[verifier::loop_isolation(false)]
fn parse_initial_block(toks: &Vec<Tok>, p: usize) -> (r: Result<(Vec<ProcStmt>, usize), ParseError>)
    requires
        p <= toks@.len(),
        toks@.len() + 8 <= usize::MAX,
    ensures
        match p_proc_items(tv(toks@), p as int, Seq::empty()) {
            None => r is Err,
            Some((ss, q)) => r matches Ok((x, q2)) && x@.map_values(|s: ProcStmt| s@) == ss && q2 == q,
        },
        r matches Ok((_, q)) ==> p < q <= toks@.len(),
{
    let ghost t = tv(toks@);
    let mut acc: Vec<ProcStmt> = Vec::new();
    let mut p = p;
    let ghost p0 = p;
    assert(acc@.map_values(|s: ProcStmt| s@) =~= Seq::empty());
    loop
        invariant
            t == tv(toks@),
            p0 <= p <= toks@.len(),
            toks@.len() + 8 <= usize::MAX,
            p_proc_items(t, p0 as int, Seq::empty()) == p_proc_items(
                t,
                p as int,
                acc@.map_values(|s: ProcStmt| s@),
            ),
        decreases toks@.len() - p,
    {
        if p >= toks.len() {
            return Err(perr("initial の '}' が見つかりません"));
        }
        if sym_is(toks, p, Sym::RBrace) {
            return Ok((acc, p + 1));
        }
        let ghost before = acc@.map_values(|s: ProcStmt| s@);
        if kw_is(toks, p, "step") {
            if !sym_is(toks, p + 1, Sym::Semi) {
                return Err(perr("step の後に ';' が必要です"));
            }
            acc.push(ProcStmt::Step);
            assert(acc@.map_values(|s: ProcStmt| s@) =~= before.push(crate::ast::SProcStmt::Step));
            p = p + 2;
        } else {
            let target = match name_is(toks, p) {
                Some(n) => n,
                None => {
                    return Err(perr("代入先にはキーワード以外の変数名が必要です"));
                },
            };
            if !sym_is(toks, p + 1, Sym::Assign) {
                return Err(perr("'=' が見つかりません"));
            }
            let (expr, q) = parse_ternary_expr(toks, p + 2)?;
            if !sym_is(toks, q, Sym::Semi) {
                return Err(perr("';' が見つかりません"));
            }
            let s = ProcStmt::Assign { target, expr };
            let ghost sv = s@;
            acc.push(s);
            assert(acc@.map_values(|s: ProcStmt| s@) =~= before.push(sv));
            p = q + 1;
        }
    }
}

#[verifier::loop_isolation(false)]
fn parse_testbench_def(toks: &Vec<Tok>, p: usize) -> (r: Result<(TestbenchDef, usize), ParseError>)
    requires
        p <= toks@.len(),
        toks@.len() + 8 <= usize::MAX,
    ensures
        match p_testbench(tv(toks@), p as int) {
            None => r is Err,
            Some((tb, q)) => r matches Ok((x, q2)) && x@ == tb && q2 == q,
        },
        r matches Ok((_, q)) ==> p < q <= toks@.len(),
{
    let ghost t = tv(toks@);
    if !kw_is(toks, p, "testbench") || !sym_is(toks, p + 2, Sym::LBrace) {
        return Err(perr("テストベンチ定義の形式が不正です"));
    }
    let name = match name_is(toks, p + 1) {
        Some(n) => n,
        None => {
            return Err(perr("テストベンチ名にキーワードは使えません"));
        },
    };
    let mut acc = TestbenchDef {
        name,
        decls: Vec::new(),
        instances: Vec::new(),
        stmts: Vec::new(),
        initial: Vec::new(),
    };
    let mut p = p + 3;
    let ghost p0 = p;
    assert(acc@.decls =~= Seq::empty());
    assert(acc@.instances =~= Seq::empty());
    assert(acc@.stmts =~= Seq::empty());
    assert(acc@.initial =~= Seq::empty());
    let ghost acc0 = acc@;
    loop
        invariant
            t == tv(toks@),
            p0 <= p <= toks@.len(),
            toks@.len() + 8 <= usize::MAX,
            p_tb_items(t, p0 as int, acc0) == p_tb_items(t, p as int, acc@),
        decreases toks@.len() - p,
    {
        if p >= toks.len() {
            return Err(perr("テストベンチの '}' が見つかりません"));
        }
        if sym_is(toks, p, Sym::RBrace) {
            return Ok((acc, p + 1));
        }
        let ghost before = acc@;
        if kw_is(toks, p, "initial") {
            if !sym_is(toks, p + 1, Sym::LBrace) {
                return Err(perr("initial の '{' が見つかりません"));
            }
            let (steps, q) = parse_initial_block(toks, p + 2)?;
            if !sym_is(toks, q, Sym::RBrace) {
                return Err(perr("initial ブロックの後にはテストベンチの '}' が必要です"));
            }
            let ghost sv = steps@.map_values(|s: ProcStmt| s@);
            acc.initial = steps;
            assert(acc@ == crate::ast::STestbenchDef { initial: sv, ..before });
            return Ok((acc, q + 1));
        } else if kw_is(toks, p, "var") && sym_is(toks, p + 2, Sym::Colon) {
            let (d, q) = parse_decl(toks, p)?;
            let ghost dv = d@;
            acc.decls.push(d);
            assert(acc@.decls =~= before.decls.push(dv));
            assert(acc@ == crate::ast::STestbenchDef { decls: before.decls.push(dv), ..before });
            p = q;
        } else if kw_is(toks, p, "var") {
            let (i, q) = parse_inst_decl(toks, p)?;
            let ghost iv = i@;
            acc.instances.push(i);
            assert(acc@.instances =~= before.instances.push(iv));
            assert(acc@ == crate::ast::STestbenchDef { instances: before.instances.push(iv), ..before });
            p = q;
        } else {
            let (ss, q) = parse_assignments(toks, p)?;
            let ghost sv = stmts_view(ss@);
            append_stmts(&mut acc.stmts, ss);
            assert(acc@.stmts =~= before.stmts + sv);
            assert(acc@ == crate::ast::STestbenchDef { stmts: before.stmts + sv, ..before });
            p = q;
        }
    }
}

/// The parser's entry point.
pub struct Parser;

impl Parser {
    /// Parses a source text: `Ok` exactly when the text is a program of the
    /// language, with the program it writes.
    #[verifier::loop_isolation(false)]
    pub fn parse_program(input: &str) -> (r: Result<Program, ParseError>)
        requires
            input@.len() + 8 <= usize::MAX,
        ensures
            match spec_parse_program(input@) {
                None => r is Err,
                Some(prog) => r matches Ok(x) && x@ == prog,
            },
    {
        let toks = CeriteParser::tokenize(input)?;
        let ghost t = tv(toks@);
        if toks.len() == 0 {
            return Err(perr("プログラムが空です"));
        }
        let mut prog = Program { blocks: Vec::new(), modules: Vec::new(), testbenches: Vec::new() };
        assert(prog@.blocks =~= Seq::empty());
        assert(prog@.modules =~= Seq::empty());
        assert(prog@.testbenches =~= Seq::empty());
        let mut p: usize = 0;
        loop
            invariant
                t == tv(toks@),
                p <= toks@.len(),
                toks@.len() > 0,
                toks@.len() + 8 <= usize::MAX,
                p_program(t) == p_items(t, p as int, prog@),
            decreases toks@.len() - p,
        {
            if p >= toks.len() {
                return Ok(prog);
            }
            let ghost before = prog@;
            if kw_is(&toks, p, "module") {
                let (m, q) = parse_module_def(&toks, p)?;
                let ghost mv = m@;
                prog.modules.push(m);
                assert(prog@.modules =~= before.modules.push(mv));
                assert(prog@ == crate::ast::SProgram { modules: before.modules.push(mv), ..before });
                p = q;
            } else if kw_is(&toks, p, "testbench") {
                let (tb, q) = parse_testbench_def(&toks, p)?;
                let ghost tbv = tb@;
                prog.testbenches.push(tb);
                assert(prog@.testbenches =~= before.testbenches.push(tbv));
                assert(prog@ == crate::ast::SProgram { testbenches: before.testbenches.push(tbv), ..before });
                p = q;
            } else if sym_is(&toks, p, Sym::LBrace) {
                let (b, q) = parse_block(&toks, p + 1)?;
                let ghost bv = b@;
                prog.blocks.push(b);
                assert(prog@.blocks =~= before.blocks.push(bv));
                assert(prog@ == crate::ast::SProgram { blocks: before.blocks.push(bv), ..before });
                p = q;
            } else {
                return Err(perr("module・testbench・ブロックのいずれかが必要です"));
            }
        }
    }
}

} // verus!
