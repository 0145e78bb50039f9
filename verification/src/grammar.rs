//! The grammar of the source language, as a function from tokens to syntax.
//!
//! ```text
//! program       = (module_def | testbench_def | block)+
//! module_def    = "module" name "{" "port" "{" port_decl* "}" (decl | if_stmt | stmt)* "}"
//! port_decl     = name ":" ("input" | "output") signal_type ";"
//! signal_type   = "clock" | "bit" ("<" number ">")?
//! testbench_def = "testbench" name "{" (decl | inst_decl | if_stmt | stmt)* initial_block? "}"
//! initial_block = "initial" "{" (name "=" ternary ";" | "step" ";")* "}"
//! block         = "{" (decl | inst_decl | if_stmt | stmt)* "}"
//! decl          = "var" name ":" signal_type ";"
//! inst_decl     = "var" name "=" ident "(" (ident ":" ternary ("," ident ":" ternary)*)? ")" ";"
//! stmt          = name ("=" | "<=") ternary ";"
//! if_stmt       = "if" ternary "{" (if_stmt | stmt)* "}"
//!                 ("elif" ternary "{" (if_stmt | stmt)* "}")* "else" "{" (if_stmt | stmt)* "}"
//! ternary       = binary0 ("?" ternary ":" ternary)?
//! binaryN       = binaryN+1 (opN binaryN+1)*      left associative, N = 0..9
//! unary         = ("!" | "~") unary | factor
//! factor        = name "." name | name | bitvec | number | "(" ternary ")"
//! ```
//!
//! A `name` is an identifier that is not a keyword. An `if` statement stands
//! for one assignment per target: every branch must assign the same targets,
//! each once and with the same operator, and target `x` receives
//! `c1 ? e1 : (c2 ? e2 : ... : e_else)`.
use vstd::prelude::*;

use crate::ast::{
    BinOp, Direction, SBlock, SDecl, SExpr, SInstDecl, SModuleDef, SPortDecl, SProcStmt, SProgram,
    SStmt, STestbenchDef, SignalType, UnOp,
};
use crate::token::{spec_tokenize, STok, Sym};

verus! {

/// The reserved words, which cannot name a signal, port, module, instance or
/// testbench.
pub open spec fn spec_is_keyword(s: Seq<char>) -> bool {
    s == "var"@ || s == "bit"@ || s == "clock"@ || s == "module"@ || s == "port"@ || s == "input"@
        || s == "output"@ || s == "testbench"@ || s == "initial"@ || s == "step"@ || s == "if"@
        || s == "elif"@ || s == "else"@
}

pub open spec fn is_sym(t: Seq<STok>, p: int, s: Sym) -> bool {
    0 <= p < t.len() && t[p] == STok::Sym(s)
}

pub open spec fn is_kw(t: Seq<STok>, p: int, kw: Seq<char>) -> bool {
    0 <= p < t.len() && t[p] == STok::Ident(kw)
}

/// The identifier at `p`, keyword or not.
pub open spec fn ident_at(t: Seq<STok>, p: int) -> Option<Seq<char>> {
    if 0 <= p < t.len() {
        match t[p] {
            STok::Ident(s) => Some(s),
            _ => None,
        }
    } else {
        None
    }
}

/// The identifier at `p` when it is not a keyword.
pub open spec fn name_at(t: Seq<STok>, p: int) -> Option<Seq<char>> {
    match ident_at(t, p) {
        Some(s) => if spec_is_keyword(s) {
            None
        } else {
            Some(s)
        },
        None => None,
    }
}

/// The binary operator of precedence level `lvl` (0 binds loosest) that token
/// `tok` writes.
pub open spec fn level_op(lvl: int, tok: STok) -> Option<BinOp> {
    match tok {
        STok::Sym(s) => if lvl == 0 && s == Sym::OrOr {
            Some(BinOp::Or)
        } else if lvl == 1 && s == Sym::AndAnd {
            Some(BinOp::And)
        } else if lvl == 2 && s == Sym::Pipe {
            Some(BinOp::BitOr)
        } else if lvl == 3 && s == Sym::Caret {
            Some(BinOp::Xor)
        } else if lvl == 4 && s == Sym::Amp {
            Some(BinOp::BitAnd)
        } else if lvl == 5 && s == Sym::EqEq {
            Some(BinOp::Eq)
        } else if lvl == 5 && s == Sym::NotEq {
            Some(BinOp::Neq)
        } else if lvl == 6 && s == Sym::Le {
            Some(BinOp::Le)
        } else if lvl == 6 && s == Sym::Lt {
            Some(BinOp::Lt)
        } else if lvl == 6 && s == Sym::Ge {
            Some(BinOp::Ge)
        } else if lvl == 6 && s == Sym::Gt {
            Some(BinOp::Gt)
        } else if lvl == 7 && s == Sym::AShl {
            Some(BinOp::AShl)
        } else if lvl == 7 && s == Sym::Shl {
            Some(BinOp::Shl)
        } else if lvl == 7 && s == Sym::AShr {
            Some(BinOp::AShr)
        } else if lvl == 7 && s == Sym::Shr {
            Some(BinOp::Shr)
        } else if lvl == 8 && s == Sym::Plus {
            Some(BinOp::Add)
        } else if lvl == 8 && s == Sym::Minus {
            Some(BinOp::Sub)
        } else if lvl == 9 && s == Sym::Star {
            Some(BinOp::Mul)
        } else if lvl == 9 && s == Sym::Slash {
            Some(BinOp::Div)
        } else if lvl == 9 && s == Sym::Percent {
            Some(BinOp::Mod)
        } else {
            None
        },
        _ => None,
    }
}

/// `ternary` at `p`: the expression and the index after it.
pub open spec fn p_ternary(t: Seq<STok>, p: int) -> Option<(SExpr, int)>
    decreases t.len() - p, 13int,
{
    if p < 0 || p > t.len() {
        None
    } else {
        match p_binary(t, p, 0) {
            None => None,
            Some((c, p1)) => if p1 <= p || p1 > t.len() {
                None
            } else if is_sym(t, p1, Sym::Question) {
                match p_ternary(t, p1 + 1) {
                    None => None,
                    Some((a, p2)) => if p2 <= p1 || p2 > t.len() || !is_sym(t, p2, Sym::Colon) {
                        None
                    } else {
                        match p_ternary(t, p2 + 1) {
                            None => None,
                            Some((b, p3)) => if p3 <= p2 || p3 > t.len() {
                                None
                            } else {
                                Some(
                                    (
                                        SExpr::Ternary {
                                            cond: Box::new(c),
                                            then_branch: Box::new(a),
                                            else_branch: Box::new(b),
                                        },
                                        p3,
                                    ),
                                )
                            },
                        }
                    },
                }
            } else {
                Some((c, p1))
            },
        }
    }
}

/// `binary{lvl}` at `p` (level 10 is `unary`).
pub open spec fn p_binary(t: Seq<STok>, p: int, lvl: int) -> Option<(SExpr, int)>
    decreases t.len() - p, 12 - lvl,
{
    if p < 0 || p > t.len() || lvl < 0 || lvl > 10 {
        None
    } else if lvl == 10 {
        p_unary(t, p)
    } else {
        match p_binary(t, p, lvl + 1) {
            None => None,
            Some((lhs, p1)) => if p1 <= p || p1 > t.len() {
                None
            } else {
                p_binary_rest(t, p1, lvl, lhs)
            },
        }
    }
}

/// The `(op operand)*` tail of level `lvl` at `p`, folded left onto `acc`.
pub open spec fn p_binary_rest(t: Seq<STok>, p: int, lvl: int, acc: SExpr) -> Option<(SExpr, int)>
    decreases t.len() - p, 1int,
{
    if p < 0 || p > t.len() || lvl < 0 || lvl > 9 {
        None
    } else if p < t.len() && level_op(lvl, t[p]) is Some {
        match p_binary(t, p + 1, lvl + 1) {
            None => None,
            Some((rhs, p2)) => if p2 <= p + 1 || p2 > t.len() {
                None
            } else {
                p_binary_rest(
                    t,
                    p2,
                    lvl,
                    SExpr::BinOp { op: level_op(lvl, t[p])->0, lhs: Box::new(acc), rhs: Box::new(rhs) },
                )
            },
        }
    } else {
        Some((acc, p))
    }
}

/// `unary` at `p`.
pub open spec fn p_unary(t: Seq<STok>, p: int) -> Option<(SExpr, int)>
    decreases t.len() - p, 1int,
{
    if p < 0 || p > t.len() {
        None
    } else if is_sym(t, p, Sym::Bang) || is_sym(t, p, Sym::Tilde) {
        let op = if is_sym(t, p, Sym::Bang) {
            UnOp::Not
        } else {
            UnOp::BitNot
        };
        match p_unary(t, p + 1) {
            None => None,
            Some((e, q)) => if q <= p + 1 || q > t.len() {
                None
            } else {
                Some((SExpr::UnaryOp { op, expr: Box::new(e) }, q))
            },
        }
    } else {
        p_factor(t, p)
    }
}

/// `factor` at `p`.
pub open spec fn p_factor(t: Seq<STok>, p: int) -> Option<(SExpr, int)>
    decreases t.len() - p, 0int,
{
    if p < 0 || p >= t.len() {
        None
    } else {
        match t[p] {
            STok::Ident(s) => if is_sym(t, p + 1, Sym::Dot) {
                match (name_at(t, p), name_at(t, p + 2)) {
                    (Some(i), Some(f)) => Some((SExpr::FieldAccess { instance: i, field: f }, p + 3)),
                    _ => None,
                }
            } else if spec_is_keyword(s) {
                None
            } else {
                Some((SExpr::Ident(s), p + 1))
            },
            STok::Num(n) => Some((SExpr::Number(n), p + 1)),
            STok::BitVec(w, v) => Some((SExpr::BitVecLiteral { width: w, value: v }, p + 1)),
            STok::Sym(Sym::LParen) => match p_ternary(t, p + 1) {
                None => None,
                Some((e, q)) => if q <= p + 1 || q > t.len() || !is_sym(t, q, Sym::RParen) {
                    None
                } else {
                    Some((e, q + 1))
                },
            },
            _ => None,
        }
    }
}

/// `stmt` at `p`.
pub open spec fn p_stmt(t: Seq<STok>, p: int) -> Option<(SStmt, int)> {
    match name_at(t, p) {
        None => None,
        Some(target) => if is_sym(t, p + 1, Sym::Assign) || is_sym(t, p + 1, Sym::Le) {
            match p_ternary(t, p + 2) {
                None => None,
                Some((expr, q)) => if q <= p + 2 || q > t.len() || !is_sym(t, q, Sym::Semi) {
                    None
                } else if is_sym(t, p + 1, Sym::Assign) {
                    Some((SStmt::Combinational { target, expr }, q + 1))
                } else {
                    Some((SStmt::Sequential { target, expr }, q + 1))
                },
            }
        } else {
            None
        },
    }
}

/// `signal_type` at `p`.
pub open spec fn p_signal_type(t: Seq<STok>, p: int) -> Option<(SignalType, int)> {
    if is_kw(t, p, "clock"@) {
        Some((SignalType::Clock, p + 1))
    } else if is_kw(t, p, "bit"@) {
        if is_sym(t, p + 1, Sym::Lt) {
            if p + 2 < t.len() && t[p + 2] is Num && is_sym(t, p + 3, Sym::Gt) {
                Some((SignalType::Bit(Some(t[p + 2]->Num_0)), p + 4))
            } else {
                None
            }
        } else {
            Some((SignalType::Bit(None), p + 1))
        }
    } else {
        None
    }
}

/// `decl` at `p`.
pub open spec fn p_decl(t: Seq<STok>, p: int) -> Option<(SDecl, int)> {
    if !is_kw(t, p, "var"@) || !is_sym(t, p + 2, Sym::Colon) {
        None
    } else {
        match name_at(t, p + 1) {
            None => None,
            Some(name) => match p_signal_type(t, p + 3) {
                None => None,
                Some((sig_type, q)) => if is_sym(t, q, Sym::Semi) {
                    Some((SDecl { name, sig_type }, q + 1))
                } else {
                    None
                },
            },
        }
    }
}

/// `ident ":" ternary` at `p`.
pub open spec fn p_named_arg(t: Seq<STok>, p: int) -> Option<((Seq<char>, SExpr), int)> {
    match ident_at(t, p) {
        None => None,
        Some(name) => if !is_sym(t, p + 1, Sym::Colon) {
            None
        } else {
            match p_ternary(t, p + 2) {
                None => None,
                Some((e, q)) => if q <= p + 2 || q > t.len() {
                    None
                } else {
                    Some(((name, e), q))
                },
            }
        },
    }
}

/// Named arguments at `p` up to and including the closing `)`, after `acc`.
pub open spec fn p_arg_list(t: Seq<STok>, p: int, acc: Seq<(Seq<char>, SExpr)>) -> Option<
    (Seq<(Seq<char>, SExpr)>, int),
>
    decreases t.len() - p,
{
    if p < 0 || p > t.len() {
        None
    } else {
        match p_named_arg(t, p) {
            None => None,
            Some((a, q)) => if q <= p || q > t.len() {
                None
            } else if is_sym(t, q, Sym::Comma) {
                p_arg_list(t, q + 1, acc.push(a))
            } else if is_sym(t, q, Sym::RParen) {
                Some((acc.push(a), q + 1))
            } else {
                None
            },
        }
    }
}

/// `inst_decl` at `p`.
pub open spec fn p_inst_decl(t: Seq<STok>, p: int) -> Option<(SInstDecl, int)> {
    if !is_kw(t, p, "var"@) || !is_sym(t, p + 2, Sym::Assign) || !is_sym(t, p + 4, Sym::LParen) {
        None
    } else {
        match (name_at(t, p + 1), ident_at(t, p + 3)) {
            (Some(instance_name), Some(module_name)) => {
                let args = if is_sym(t, p + 5, Sym::RParen) {
                    Some((Seq::<(Seq<char>, SExpr)>::empty(), p + 6))
                } else {
                    p_arg_list(t, p + 5, Seq::empty())
                };
                match args {
                    None => None,
                    Some((args, q)) => if is_sym(t, q, Sym::Semi) {
                        Some((SInstDecl { instance_name, module_name, args }, q + 1))
                    } else {
                        None
                    },
                }
            },
            _ => None,
        }
    }
}

/// `port_decl` at `p`.
pub open spec fn p_port_decl(t: Seq<STok>, p: int) -> Option<(SPortDecl, int)> {
    if !is_sym(t, p + 1, Sym::Colon) || !(is_kw(t, p + 2, "input"@) || is_kw(t, p + 2, "output"@)) {
        None
    } else {
        match name_at(t, p) {
            None => None,
            Some(name) => {
                let direction = if is_kw(t, p + 2, "input"@) {
                    Direction::Input
                } else {
                    Direction::Output
                };
                match p_signal_type(t, p + 3) {
                    None => None,
                    Some((sig_type, q)) => if is_sym(t, q, Sym::Semi) {
                        Some((SPortDecl { name, direction, sig_type }, q + 1))
                    } else {
                        None
                    },
                }
            },
        }
    }
}

/// Port declarations at `p` up to and including the closing `}`, after `acc`.
pub open spec fn p_ports(t: Seq<STok>, p: int, acc: Seq<SPortDecl>) -> Option<(Seq<SPortDecl>, int)>
    decreases t.len() - p,
{
    if p < 0 || p >= t.len() {
        None
    } else if is_sym(t, p, Sym::RBrace) {
        Some((acc, p + 1))
    } else {
        match p_port_decl(t, p) {
            None => None,
            Some((d, q)) => if q <= p || q > t.len() {
                None
            } else {
                p_ports(t, q, acc.push(d))
            },
        }
    }
}

// ---------------------------------------------------------------------------
// `if` statements and their reading as assignments

pub open spec fn targets_unique(b: Seq<SStmt>) -> bool {
    forall|i: int, j: int| 0 <= i < j < b.len() ==> b[i].target() != b[j].target()
}

/// Index of the first statement of `b` from `i` on that assigns `tgt`, or -1.
pub open spec fn find_target(b: Seq<SStmt>, tgt: Seq<char>, i: int) -> int
    decreases b.len() - i,
{
    if i < 0 || i >= b.len() {
        -1
    } else if b[i].target() == tgt {
        i
    } else {
        find_target(b, tgt, i + 1)
    }
}

/// `b` assigns exactly the targets of `els`, with the same operators.
pub open spec fn same_targets(b: Seq<SStmt>, els: Seq<SStmt>) -> bool {
    &&& forall|i: int|
        0 <= i < b.len() ==> {
            let j = find_target(els, #[trigger] b[i].target(), 0);
            0 <= j && els[j].is_seq() == b[i].is_seq()
        }
    &&& forall|j: int| 0 <= j < els.len() ==> 0 <= find_target(b, #[trigger] els[j].target(), 0)
}

/// The branches of an `if` statement can be read as assignments.
pub open spec fn branches_agree(arms: Seq<(SExpr, Seq<SStmt>)>, els: Seq<SStmt>) -> bool {
    &&& targets_unique(els)
    &&& forall|k: int|
        0 <= k < arms.len() ==> targets_unique(#[trigger] arms[k].1) && same_targets(arms[k].1, els)
}

/// The value assigned to `tgt` by the arms from `k` on and the `else` branch.
pub open spec fn chain_expr(arms: Seq<(SExpr, Seq<SStmt>)>, k: int, els: Seq<SStmt>, tgt: Seq<char>) -> SExpr
    decreases arms.len() - k,
{
    if k < 0 || k >= arms.len() {
        els[find_target(els, tgt, 0)].expr()
    } else {
        SExpr::Ternary {
            cond: Box::new(arms[k].0),
            then_branch: Box::new(arms[k].1[find_target(arms[k].1, tgt, 0)].expr()),
            else_branch: Box::new(chain_expr(arms, k + 1, els, tgt)),
        }
    }
}

/// `s` with its right-hand side replaced by `e`.
pub open spec fn with_expr(s: SStmt, e: SExpr) -> SStmt {
    match s {
        SStmt::Combinational { target, .. } => SStmt::Combinational { target, expr: e },
        SStmt::Sequential { target, .. } => SStmt::Sequential { target, expr: e },
    }
}

/// The assignments an `if` statement stands for, in the order of its first
/// branch.
pub open spec fn desugar_if(arms: Seq<(SExpr, Seq<SStmt>)>, els: Seq<SStmt>) -> Seq<SStmt> {
    arms[0].1.map_values(|s: SStmt| with_expr(s, chain_expr(arms, 0, els, s.target())))
}

/// `if_stmt` at `p`.
pub open spec fn p_if(t: Seq<STok>, p: int) -> Option<(Seq<SStmt>, int)>
    decreases t.len() - p, 0int,
{
    if p < 0 || p >= t.len() || !is_kw(t, p, "if"@) {
        None
    } else {
        match p_ternary(t, p + 1) {
            None => None,
            Some((c, q1)) => if q1 <= p + 1 || q1 > t.len() || !is_sym(t, q1, Sym::LBrace) {
                None
            } else {
                match p_if_body(t, q1 + 1, Seq::empty()) {
                    None => None,
                    Some((b0, q2)) => if q2 <= q1 + 1 || q2 > t.len() {
                        None
                    } else {
                        match p_elifs(t, q2, seq![(c, b0)]) {
                            None => None,
                            Some((arms, els, q3)) => if q3 <= q2 || q3 > t.len() || arms.len() == 0
                                || !branches_agree(arms, els) {
                                None
                            } else {
                                Some((desugar_if(arms, els), q3))
                            },
                        }
                    },
                }
            },
        }
    }
}

/// The `elif` branches at `p` and the `else` branch, after the arms `acc`.
pub open spec fn p_elifs(t: Seq<STok>, p: int, acc: Seq<(SExpr, Seq<SStmt>)>) -> Option<
    (Seq<(SExpr, Seq<SStmt>)>, Seq<SStmt>, int),
>
    decreases t.len() - p, 0int,
{
    if p < 0 || p >= t.len() {
        None
    } else if is_kw(t, p, "elif"@) {
        match p_ternary(t, p + 1) {
            None => None,
            Some((c, q1)) => if q1 <= p + 1 || q1 > t.len() || !is_sym(t, q1, Sym::LBrace) {
                None
            } else {
                match p_if_body(t, q1 + 1, Seq::empty()) {
                    None => None,
                    Some((b, q2)) => if q2 <= q1 + 1 || q2 > t.len() {
                        None
                    } else {
                        p_elifs(t, q2, acc.push((c, b)))
                    },
                }
            },
        }
    } else if is_kw(t, p, "else"@) && is_sym(t, p + 1, Sym::LBrace) {
        match p_if_body(t, p + 2, Seq::empty()) {
            None => None,
            Some((b, q)) => if q <= p + 2 || q > t.len() {
                None
            } else {
                Some((acc, b, q))
            },
        }
    } else {
        None
    }
}

/// Statements of an `if` branch at `p` up to and including the closing `}`,
/// after `acc`.
pub open spec fn p_if_body(t: Seq<STok>, p: int, acc: Seq<SStmt>) -> Option<(Seq<SStmt>, int)>
    decreases t.len() - p, 1int,
{
    if p < 0 || p >= t.len() {
        None
    } else if is_sym(t, p, Sym::RBrace) {
        Some((acc, p + 1))
    } else if is_kw(t, p, "if"@) {
        match p_if(t, p) {
            None => None,
            Some((ss, q)) => if q <= p || q > t.len() {
                None
            } else {
                p_if_body(t, q, acc + ss)
            },
        }
    } else {
        match p_stmt(t, p) {
            None => None,
            Some((s, q)) => if q <= p || q > t.len() {
                None
            } else {
                p_if_body(t, q, acc.push(s))
            },
        }
    }
}

// ---------------------------------------------------------------------------
// Top-level items

/// One statement-like item at `p` (an `if` statement or an assignment), as the
/// assignments it stands for.
pub open spec fn p_assignments(t: Seq<STok>, p: int) -> Option<(Seq<SStmt>, int)> {
    if is_kw(t, p, "if"@) {
        p_if(t, p)
    } else {
        match p_stmt(t, p) {
            None => None,
            Some((s, q)) => Some((seq![s], q)),
        }
    }
}

/// Items of a block at `p` up to and including the closing `}`, after `acc`.
pub open spec fn p_block_items(t: Seq<STok>, p: int, acc: SBlock) -> Option<(SBlock, int)>
    decreases t.len() - p,
{
    if p < 0 || p >= t.len() {
        None
    } else if is_sym(t, p, Sym::RBrace) {
        Some((acc, p + 1))
    } else if is_kw(t, p, "var"@) && is_sym(t, p + 2, Sym::Colon) {
        match p_decl(t, p) {
            None => None,
            Some((d, q)) => if q <= p || q > t.len() {
                None
            } else {
                p_block_items(t, q, SBlock { decls: acc.decls.push(d), ..acc })
            },
        }
    } else if is_kw(t, p, "var"@) {
        match p_inst_decl(t, p) {
            None => None,
            Some((i, q)) => if q <= p || q > t.len() {
                None
            } else {
                p_block_items(t, q, SBlock { instances: acc.instances.push(i), ..acc })
            },
        }
    } else {
        match p_assignments(t, p) {
            None => None,
            Some((ss, q)) => if q <= p || q > t.len() {
                None
            } else {
                p_block_items(t, q, SBlock { stmts: acc.stmts + ss, ..acc })
            },
        }
    }
}

/// Items of a module body at `p` up to and including the closing `}`.
pub open spec fn p_module_items(t: Seq<STok>, p: int, acc: SModuleDef) -> Option<(SModuleDef, int)>
    decreases t.len() - p,
{
    if p < 0 || p >= t.len() {
        None
    } else if is_sym(t, p, Sym::RBrace) {
        Some((acc, p + 1))
    } else if is_kw(t, p, "var"@) {
        match p_decl(t, p) {
            None => None,
            Some((d, q)) => if q <= p || q > t.len() {
                None
            } else {
                p_module_items(t, q, SModuleDef { decls: acc.decls.push(d), ..acc })
            },
        }
    } else {
        match p_assignments(t, p) {
            None => None,
            Some((ss, q)) => if q <= p || q > t.len() {
                None
            } else {
                p_module_items(t, q, SModuleDef { stmts: acc.stmts + ss, ..acc })
            },
        }
    }
}

/// Steps of an `initial` block at `p` up to and including the closing `}`.
pub open spec fn p_proc_items(t: Seq<STok>, p: int, acc: Seq<SProcStmt>) -> Option<(Seq<SProcStmt>, int)>
    decreases t.len() - p,
{
    if p < 0 || p >= t.len() {
        None
    } else if is_sym(t, p, Sym::RBrace) {
        Some((acc, p + 1))
    } else if is_kw(t, p, "step"@) {
        if is_sym(t, p + 1, Sym::Semi) {
            p_proc_items(t, p + 2, acc.push(SProcStmt::Step))
        } else {
            None
        }
    } else {
        match name_at(t, p) {
            None => None,
            Some(target) => if !is_sym(t, p + 1, Sym::Assign) {
                None
            } else {
                match p_ternary(t, p + 2) {
                    None => None,
                    Some((expr, q)) => if q <= p + 2 || q > t.len() || !is_sym(t, q, Sym::Semi) {
                        None
                    } else {
                        p_proc_items(t, q + 1, acc.push(SProcStmt::Assign { target, expr }))
                    },
                }
            },
        }
    }
}

/// Items of a testbench at `p` up to and including its closing `}`.
pub open spec fn p_tb_items(t: Seq<STok>, p: int, acc: STestbenchDef) -> Option<(STestbenchDef, int)>
    decreases t.len() - p,
{
    if p < 0 || p >= t.len() {
        None
    } else if is_sym(t, p, Sym::RBrace) {
        Some((acc, p + 1))
    } else if is_kw(t, p, "initial"@) {
        if !is_sym(t, p + 1, Sym::LBrace) {
            None
        } else {
            match p_proc_items(t, p + 2, Seq::empty()) {
                None => None,
                Some((steps, q)) => if is_sym(t, q, Sym::RBrace) {
                    Some((STestbenchDef { initial: steps, ..acc }, q + 1))
                } else {
                    None
                },
            }
        }
    } else if is_kw(t, p, "var"@) && is_sym(t, p + 2, Sym::Colon) {
        match p_decl(t, p) {
            None => None,
            Some((d, q)) => if q <= p || q > t.len() {
                None
            } else {
                p_tb_items(t, q, STestbenchDef { decls: acc.decls.push(d), ..acc })
            },
        }
    } else if is_kw(t, p, "var"@) {
        match p_inst_decl(t, p) {
            None => None,
            Some((i, q)) => if q <= p || q > t.len() {
                None
            } else {
                p_tb_items(t, q, STestbenchDef { instances: acc.instances.push(i), ..acc })
            },
        }
    } else {
        match p_assignments(t, p) {
            None => None,
            Some((ss, q)) => if q <= p || q > t.len() {
                None
            } else {
                p_tb_items(t, q, STestbenchDef { stmts: acc.stmts + ss, ..acc })
            },
        }
    }
}

/// `module_def` at `p`.
pub open spec fn p_module(t: Seq<STok>, p: int) -> Option<(SModuleDef, int)> {
    if !is_kw(t, p, "module"@) || !is_sym(t, p + 2, Sym::LBrace) || !is_kw(t, p + 3, "port"@)
        || !is_sym(t, p + 4, Sym::LBrace) {
        None
    } else {
        match name_at(t, p + 1) {
            None => None,
            Some(name) => match p_ports(t, p + 5, Seq::empty()) {
                None => None,
                Some((ports, q)) => p_module_items(
                    t,
                    q,
                    SModuleDef { name, ports, decls: Seq::empty(), stmts: Seq::empty() },
                ),
            },
        }
    }
}

/// `testbench_def` at `p`.
pub open spec fn p_testbench(t: Seq<STok>, p: int) -> Option<(STestbenchDef, int)> {
    if !is_kw(t, p, "testbench"@) || !is_sym(t, p + 2, Sym::LBrace) {
        None
    } else {
        match name_at(t, p + 1) {
            None => None,
            Some(name) => p_tb_items(
                t,
                p + 3,
                STestbenchDef {
                    name,
                    decls: Seq::empty(),
                    instances: Seq::empty(),
                    stmts: Seq::empty(),
                    initial: Seq::empty(),
                },
            ),
        }
    }
}

pub open spec fn empty_block() -> SBlock {
    SBlock { decls: Seq::empty(), instances: Seq::empty(), stmts: Seq::empty() }
}

/// Top-level items at `p` to the end, after `acc`.
pub open spec fn p_items(t: Seq<STok>, p: int, acc: SProgram) -> Option<SProgram>
    decreases t.len() - p,
{
    if p < 0 || p >= t.len() {
        Some(acc)
    } else if is_kw(t, p, "module"@) {
        match p_module(t, p) {
            None => None,
            Some((m, q)) => if q <= p || q > t.len() {
                None
            } else {
                p_items(t, q, SProgram { modules: acc.modules.push(m), ..acc })
            },
        }
    } else if is_kw(t, p, "testbench"@) {
        match p_testbench(t, p) {
            None => None,
            Some((tb, q)) => if q <= p || q > t.len() {
                None
            } else {
                p_items(t, q, SProgram { testbenches: acc.testbenches.push(tb), ..acc })
            },
        }
    } else if is_sym(t, p, Sym::LBrace) {
        match p_block_items(t, p + 1, empty_block()) {
            None => None,
            Some((b, q)) => if q <= p || q > t.len() {
                None
            } else {
                p_items(t, q, SProgram { blocks: acc.blocks.push(b), ..acc })
            },
        }
    } else {
        None
    }
}

/// The program a token sequence writes; `None` for a syntax error.
pub open spec fn p_program(t: Seq<STok>) -> Option<SProgram> {
    if t.len() == 0 {
        None
    } else {
        p_items(
            t,
            0,
            SProgram { blocks: Seq::empty(), modules: Seq::empty(), testbenches: Seq::empty() },
        )
    }
}

/// The program a source text writes; `None` when the text is not a program.
pub open spec fn spec_parse_program(s: Seq<char>) -> Option<SProgram> {
    match spec_tokenize(s) {
        None => None,
        Some(t) => p_program(t),
    }
}

} // verus!
