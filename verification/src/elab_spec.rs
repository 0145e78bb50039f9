//! What elaboration computes, stated over the models of the syntax tree and
//! of the resolved design.
//!
//! The checks apply in a fixed order, and the first that fails names the
//! error: more than one testbench; then each module definition in source order
//! (a name used before; its ports; its declarations; its assignments; a
//! register without a clock input; a signal driven twice; a combinational
//! cycle); then the top level's declarations, instances and assignments (in
//! blocks first, then in the testbench), a signal driven twice, a
//! combinational cycle; last the `initial` procedure.
use vstd::prelude::*;

use crate::ast::{
    spec_width, Direction, SBlock, SDecl, SExpr, SInstDecl, SModuleDef, SProcStmt, SProgram, SStmt, STestbenchDef,
    SignalType,
};
use crate::elaboration::{SElabErr, SElaborated, SRExpr, SRInstance, SRModule, SRPort, SRProc, SRScope, SRSignal, SRStmt};
use crate::comb_graph::{first_cycle, Search};

verus! {

/// Index of the first element of `s` from `i` on that satisfies `f`, or -1.
pub open spec fn first_from<A>(s: Seq<A>, f: spec_fn(A) -> bool, i: int) -> int
    decreases s.len() - i,
{
    if i < 0 || i >= s.len() {
        -1
    } else if f(s[i]) {
        i
    } else {
        first_from(s, f, i + 1)
    }
}

pub open spec fn find_signal_from(sigs: Seq<SRSignal>, name: Seq<char>, i: int) -> int {
    first_from(sigs, |x: SRSignal| x.name == name, i)
}

pub open spec fn find_signal(sigs: Seq<SRSignal>, name: Seq<char>) -> int {
    find_signal_from(sigs, name, 0)
}

pub open spec fn find_instance_from(tab: Seq<(Seq<char>, Seq<char>)>, name: Seq<char>, i: int) -> int {
    first_from(tab, |x: (Seq<char>, Seq<char>)| x.0 == name, i)
}

pub open spec fn find_instance(tab: Seq<(Seq<char>, Seq<char>)>, name: Seq<char>) -> int {
    find_instance_from(tab, name, 0)
}

pub open spec fn find_module_from(ms: Seq<SRModule>, name: Seq<char>, i: int) -> int {
    first_from(ms, |x: SRModule| x.name == name, i)
}

pub open spec fn find_module(ms: Seq<SRModule>, name: Seq<char>) -> int {
    find_module_from(ms, name, 0)
}

pub open spec fn find_port_from(ps: Seq<SRPort>, name: Seq<char>, i: int) -> int {
    first_from(ps, |x: SRPort| x.name == name, i)
}

pub open spec fn find_port(ps: Seq<SRPort>, name: Seq<char>) -> int {
    find_port_from(ps, name, 0)
}

pub open spec fn find_port_id_from(ps: Seq<SRPort>, id: usize, i: int) -> int {
    first_from(ps, |x: SRPort| x.signal_id == id, i)
}

pub open spec fn find_port_id(ps: Seq<SRPort>, id: usize) -> int {
    find_port_id_from(ps, id, 0)
}

pub open spec fn find_conn_from(cs: Seq<(Seq<char>, SRExpr)>, name: Seq<char>, i: int) -> int {
    first_from(cs, |x: (Seq<char>, SRExpr)| x.0 == name, i)
}

pub open spec fn find_conn(cs: Seq<(Seq<char>, SRExpr)>, name: Seq<char>) -> int {
    find_conn_from(cs, name, 0)
}

/// `first_from` finds the first match at or after `i`, or -1 when none.
pub proof fn lemma_first_from<A>(s: Seq<A>, f: spec_fn(A) -> bool, i: int)
    requires
        0 <= i,
    ensures
        first_from(s, f, i) == -1 || (i <= first_from(s, f, i) < s.len() && f(s[first_from(s, f, i)])),
        first_from(s, f, i) == -1 ==> forall|k: int| i <= k < s.len() ==> !f(#[trigger] s[k]),
        forall|k: int| i <= k < first_from(s, f, i) ==> !f(#[trigger] s[k]),
    decreases s.len() - i,
{
    if i < s.len() && !f(s[i]) {
        lemma_first_from(s, f, i + 1);
    }
}

/// The concatenation of a sequence of sequences.
pub open spec fn concat_all<A>(s: Seq<Seq<A>>) -> Seq<A>
    decreases s.len(),
{
    if s.len() == 0 {
        Seq::empty()
    } else {
        concat_all(s.drop_last()) + s.last()
    }
}

/// An expression with names resolved in a scope whose signals are `sigs`,
/// whose instances are `insts` (name, module name) and whose modules are
/// `mods`.
pub open spec fn resolve_expr_spec(
    e: SExpr,
    sigs: Seq<SRSignal>,
    insts: Seq<(Seq<char>, Seq<char>)>,
    mods: Seq<SRModule>,
) -> Result<SRExpr, SElabErr>
    decreases e,
{
    match e {
        SExpr::Ident(n) => {
            let i = find_signal(sigs, n);
            if i < 0 {
                Err(SElabErr::Undeclared { name: n })
            } else {
                Ok(SRExpr::Ident(i as usize))
            }
        },
        SExpr::Number(n) => Ok(SRExpr::Number(n)),
        SExpr::BitVecLiteral { width, value } => Ok(SRExpr::BitVecLiteral { width, value }),
        SExpr::FieldAccess { instance, field } => {
            let ii = find_instance(insts, instance);
            if ii < 0 {
                Err(SElabErr::InstanceNotFound { instance })
            } else {
                let mname = insts[ii].1;
                let mi = find_module(mods, mname);
                if mi < 0 {
                    Err(SElabErr::UndefinedModule { module: mname })
                } else {
                    let pi = find_port(mods[mi].ports, field);
                    if pi < 0 {
                        Err(SElabErr::NotAPort { module: mname, field })
                    } else if mods[mi].ports[pi].direction != Direction::Output {
                        Err(SElabErr::ReadInputPort { instance, field })
                    } else {
                        Ok(SRExpr::InstanceField { instance_name: instance, port_name: field })
                    }
                }
            }
        },
        SExpr::BinOp { op, lhs, rhs } => match resolve_expr_spec(*lhs, sigs, insts, mods) {
            Err(x) => Err(x),
            Ok(l) => match resolve_expr_spec(*rhs, sigs, insts, mods) {
                Err(x) => Err(x),
                Ok(r) => Ok(SRExpr::BinOp { op, lhs: Box::new(l), rhs: Box::new(r) }),
            },
        },
        SExpr::UnaryOp { op, expr } => match resolve_expr_spec(*expr, sigs, insts, mods) {
            Err(x) => Err(x),
            Ok(v) => Ok(SRExpr::UnaryOp { op, expr: Box::new(v) }),
        },
        SExpr::Ternary { cond, then_branch, else_branch } => match resolve_expr_spec(*cond, sigs, insts, mods) {
            Err(x) => Err(x),
            Ok(c) => match resolve_expr_spec(*then_branch, sigs, insts, mods) {
                Err(x) => Err(x),
                Ok(t) => match resolve_expr_spec(*else_branch, sigs, insts, mods) {
                    Err(x) => Err(x),
                    Ok(f) => Ok(
                        SRExpr::Ternary { cond: Box::new(c), then_branch: Box::new(t), else_branch: Box::new(f) },
                    ),
                },
            },
        },
    }
}

/// The signal ids an expression reads, left to right.
pub open spec fn reads(e: SRExpr) -> Seq<usize>
    decreases e,
{
    match e {
        SRExpr::Ident(id) => seq![id],
        SRExpr::BinOp { lhs, rhs, .. } => reads(*lhs) + reads(*rhs),
        SRExpr::UnaryOp { expr, .. } => reads(*expr),
        SRExpr::Ternary { cond, then_branch, else_branch } => reads(*cond) + reads(*then_branch) + reads(
            *else_branch,
        ),
        _ => Seq::empty(),
    }
}

/// Every signal id the expression reads is below `n`.
pub open spec fn reads_below(e: SRExpr, n: int) -> bool {
    forall|k: int| 0 <= k < reads(e).len() ==> (#[trigger] reads(e)[k]) < n
}

/// Every assignment targets, and reads, signal ids below `n`.
pub open spec fn stmts_below(stmts: Seq<SRStmt>, n: int) -> bool {
    forall|i: int|
        0 <= i < stmts.len() ==> (#[trigger] stmts[i]).target_id() < n && reads_below(stmts[i].expr(), n)
}

/// Signal `u` is read by a combinational assignment to `v`.
pub open spec fn comb_edge(stmts: Seq<SRStmt>, u: int, v: int) -> bool {
    exists|i: int|
        0 <= i < stmts.len() && (#[trigger] stmts[i]) is Combinational && stmts[i].target_id() == v
            && reads(stmts[i].expr()).contains(u as usize)
}

/// `c` is a cycle of combinational dependencies among signals below `n`.
pub open spec fn is_comb_cycle(stmts: Seq<SRStmt>, n: int, c: Seq<int>) -> bool {
    &&& c.len() >= 2
    &&& c[0] == c.last()
    &&& forall|i: int| 0 <= i < c.len() ==> 0 <= #[trigger] c[i] < n
    &&& forall|i: int| 0 <= i < c.len() - 1 ==> comb_edge(stmts, #[trigger] c[i], c[i + 1])
}

/// No signal depends combinationally on itself.
pub open spec fn comb_acyclic(stmts: Seq<SRStmt>, n: int) -> bool {
    !exists|c: Seq<int>| is_comb_cycle(stmts, n, c)
}

/// An earlier assignment drives the target of assignment `i`.
pub open spec fn redriven_at(stmts: Seq<SRStmt>, i: int) -> bool {
    exists|j: int| 0 <= j < i && stmts[j].target_id() == #[trigger] stmts[i].target_id()
}

/// Index of the first assignment from `i` on whose target an earlier
/// assignment drives, or -1.
pub open spec fn first_redriven_from(stmts: Seq<SRStmt>, i: int) -> int
    decreases stmts.len() - i,
{
    if i < 0 || i >= stmts.len() {
        -1
    } else if redriven_at(stmts, i) {
        i
    } else {
        first_redriven_from(stmts, i + 1)
    }
}

pub open spec fn first_redriven(stmts: Seq<SRStmt>) -> int {
    first_redriven_from(stmts, 0)
}

/// With no assignment redriving a signal, no two assignments share a target.
pub proof fn lemma_distinct_targets(stmts: Seq<SRStmt>, i: int)
    requires
        0 <= i,
        first_redriven_from(stmts, i) < 0,
    ensures
        forall|s1: int, s2: int|
            0 <= s1 < s2 < stmts.len() && i <= s2 ==> #[trigger] stmts[s1].target_id() != #[trigger] stmts[s2].target_id(),
    decreases stmts.len() - i,
{
    if i < stmts.len() {
        assert(!redriven_at(stmts, i));
        lemma_distinct_targets(stmts, i + 1);
        assert forall|s1: int, s2: int|
            0 <= s1 < s2 < stmts.len() && i <= s2 implies #[trigger] stmts[s1].target_id() != #[trigger] stmts[s2].target_id() by {
            if s2 == i {
                if stmts[s1].target_id() == stmts[s2].target_id() {
                    assert(redriven_at(stmts, i));
                }
            }
        }
    }
}

pub open spec fn has_sequential(stmts: Seq<SRStmt>) -> bool {
    exists|i: int| 0 <= i < stmts.len() && (#[trigger] stmts[i]) is Sequential
}

pub open spec fn new_signal(sigs: Seq<SRSignal>, name: Seq<char>, t: SignalType) -> SRSignal {
    SRSignal { name, width: spec_width(t), id: sigs.len() as usize, is_clock: t is Clock }
}

/// A module's ports registered as its first signals, from port `i` on.
pub open spec fn ports_spec(
    m: SModuleDef,
    i: int,
    sigs: Seq<SRSignal>,
    ports: Seq<SRPort>,
    clk: Option<usize>,
) -> Result<(Seq<SRSignal>, Seq<SRPort>, Option<usize>), SElabErr>
    decreases m.ports.len() - i,
{
    if i < 0 || i >= m.ports.len() {
        Ok((sigs, ports, clk))
    } else {
        let pd = m.ports[i];
        let is_clock = pd.sig_type is Clock;
        if find_signal(sigs, pd.name) >= 0 {
            Err(SElabErr::DuplicatePort { module: m.name, port: pd.name })
        } else if is_clock && pd.direction == Direction::Output {
            Err(SElabErr::ClockOutputPort { module: m.name, port: pd.name })
        } else if is_clock && clk is Some {
            Err(SElabErr::MultipleClockPorts { module: m.name, port: pd.name })
        } else {
            ports_spec(
                m,
                i + 1,
                sigs.push(new_signal(sigs, pd.name, pd.sig_type)),
                ports.push(
                    SRPort {
                        name: pd.name,
                        direction: pd.direction,
                        signal_id: sigs.len() as usize,
                        is_clock,
                    },
                ),
                if is_clock {
                    Some(sigs.len() as usize)
                } else {
                    clk
                },
            )
        }
    }
}

/// A module's declarations registered after its ports, from declaration `i` on.
pub open spec fn module_decls_spec(m: SModuleDef, i: int, sigs: Seq<SRSignal>) -> Result<Seq<SRSignal>, SElabErr>
    decreases m.decls.len() - i,
{
    if i < 0 || i >= m.decls.len() {
        Ok(sigs)
    } else {
        let d = m.decls[i];
        if find_signal(sigs, d.name) >= 0 {
            Err(SElabErr::DuplicateModuleDecl { module: m.name, name: d.name })
        } else if d.sig_type is Clock {
            Err(SElabErr::ClockDeclInModule { module: m.name, name: d.name })
        } else {
            module_decls_spec(m, i + 1, sigs.push(new_signal(sigs, d.name, d.sig_type)))
        }
    }
}

/// `s` with its target resolved to `id` and its right-hand side to `e`.
pub open spec fn resolved_stmt(s: SStmt, id: usize, e: SRExpr) -> SRStmt {
    match s {
        SStmt::Combinational { .. } => SRStmt::Combinational { target_id: id, expr: e },
        SStmt::Sequential { .. } => SRStmt::Sequential { target_id: id, expr: e },
    }
}

/// A module's assignments resolved, from assignment `i` on.
pub open spec fn module_stmts_spec(
    m: SModuleDef,
    i: int,
    sigs: Seq<SRSignal>,
    ports: Seq<SRPort>,
    acc: Seq<SRStmt>,
) -> Result<Seq<SRStmt>, SElabErr>
    decreases m.stmts.len() - i,
{
    if i < 0 || i >= m.stmts.len() {
        Ok(acc)
    } else {
        let s = m.stmts[i];
        let ti = find_signal(sigs, s.target());
        if ti < 0 {
            Err(SElabErr::UndeclaredInModule { module: m.name, name: s.target() })
        } else {
            let pi = find_port_id(ports, ti as usize);
            if pi >= 0 && ports[pi].direction == Direction::Input {
                Err(SElabErr::AssignToInputPort { module: m.name, port: s.target() })
            } else {
                match resolve_expr_spec(s.expr(), sigs, Seq::empty(), Seq::empty()) {
                    Err(x) => Err(x),
                    Ok(e) => module_stmts_spec(m, i + 1, sigs, ports, acc.push(resolved_stmt(s, ti as usize, e))),
                }
            }
        }
    }
}

/// The names of the signals along the cycle that the search of the scope's
/// dependency graph finds first.
pub open spec fn loop_names(sigs: Seq<SRSignal>, stmts: Seq<SRStmt>) -> Seq<Seq<char>> {
    match first_cycle(stmts, sigs.len() as int) {
        Search::Found(c) => c.map_values(|v: usize| sigs[v as int].name),
        Search::Done(_) => Seq::empty(),
    }
}

/// The checks shared by module bodies and the top level: no signal driven by
/// two assignments, no combinational cycle.
pub open spec fn scope_checks(sigs: Seq<SRSignal>, stmts: Seq<SRStmt>) -> Result<(), SElabErr> {
    let k = first_redriven(stmts);
    if k >= 0 {
        Err(SElabErr::MultipleDrivers { name: sigs[stmts[k].target_id() as int].name })
    } else if !comb_acyclic(stmts, sigs.len() as int) {
        Err(SElabErr::CombinationalLoop { cycle: loop_names(sigs, stmts) })
    } else {
        Ok(())
    }
}

/// A module definition resolved and checked.
pub open spec fn module_def_spec(m: SModuleDef) -> Result<SRModule, SElabErr> {
    match ports_spec(m, 0, Seq::empty(), Seq::empty(), None) {
        Err(x) => Err(x),
        Ok((sigs0, ports, clk)) => match module_decls_spec(m, 0, sigs0) {
            Err(x) => Err(x),
            Ok(sigs) => match module_stmts_spec(m, 0, sigs, ports, Seq::empty()) {
                Err(x) => Err(x),
                Ok(stmts) => if clk is None && has_sequential(stmts) {
                    Err(SElabErr::MissingClockPort { module: m.name })
                } else {
                    match scope_checks(sigs, stmts) {
                        Err(x) => Err(x),
                        Ok(_) => Ok(
                            SRModule {
                                name: m.name,
                                ports,
                                body: SRScope { signals: sigs, stmts, instances: Seq::empty() },
                                clock_port: clk,
                            },
                        ),
                    }
                },
            },
        },
    }
}

/// The module definitions from `i` on resolved, after `acc`.
pub open spec fn modules_spec(ms: Seq<SModuleDef>, i: int, acc: Seq<SRModule>) -> Result<Seq<SRModule>, SElabErr>
    decreases ms.len() - i,
{
    if i < 0 || i >= ms.len() {
        Ok(acc)
    } else if find_module(acc, ms[i].name) >= 0 {
        Err(SElabErr::DuplicateModule { module: ms[i].name })
    } else {
        match module_def_spec(ms[i]) {
            Err(x) => Err(x),
            Ok(rm) => modules_spec(ms, i + 1, acc.push(rm)),
        }
    }
}

pub open spec fn blocks_decls(bs: Seq<SBlock>) -> Seq<Seq<SDecl>> {
    bs.map_values(|b: SBlock| b.decls)
}

pub open spec fn tbs_decls(ts: Seq<STestbenchDef>) -> Seq<Seq<SDecl>> {
    ts.map_values(|t: STestbenchDef| t.decls)
}

pub open spec fn blocks_instances(bs: Seq<SBlock>) -> Seq<Seq<SInstDecl>> {
    bs.map_values(|b: SBlock| b.instances)
}

pub open spec fn tbs_instances(ts: Seq<STestbenchDef>) -> Seq<Seq<SInstDecl>> {
    ts.map_values(|t: STestbenchDef| t.instances)
}

pub open spec fn blocks_stmts(bs: Seq<SBlock>) -> Seq<Seq<SStmt>> {
    bs.map_values(|b: SBlock| b.stmts)
}

pub open spec fn tbs_stmts(ts: Seq<STestbenchDef>) -> Seq<Seq<SStmt>> {
    ts.map_values(|t: STestbenchDef| t.stmts)
}

pub open spec fn tbs_initial(ts: Seq<STestbenchDef>) -> Seq<Seq<SProcStmt>> {
    ts.map_values(|t: STestbenchDef| t.initial)
}

/// Each declaration paired with whether it stands in the testbench.
pub open spec fn tag_decls(ds: Seq<SDecl>, in_testbench: bool) -> Seq<(SDecl, bool)> {
    ds.map_values(|d: SDecl| (d, in_testbench))
}

/// The top-level declarations, blocks first, each with whether it is in the
/// testbench.
pub open spec fn top_decls(p: SProgram) -> Seq<(SDecl, bool)> {
    tag_decls(concat_all(blocks_decls(p.blocks)), false) + tag_decls(concat_all(tbs_decls(p.testbenches)), true)
}

pub open spec fn top_instances(p: SProgram) -> Seq<SInstDecl> {
    concat_all(blocks_instances(p.blocks)) + concat_all(tbs_instances(p.testbenches))
}

pub open spec fn top_stmts(p: SProgram) -> Seq<SStmt> {
    concat_all(blocks_stmts(p.blocks)) + concat_all(tbs_stmts(p.testbenches))
}

pub open spec fn top_initial(p: SProgram) -> Seq<SProcStmt> {
    concat_all(tbs_initial(p.testbenches))
}

/// Concatenating one more sequence.
pub proof fn lemma_concat_all_take<A>(s: Seq<Seq<A>>, b: int)
    requires
        0 <= b < s.len(),
    ensures
        concat_all(s.take(b + 1)) == concat_all(s.take(b)) + s[b],
{
    assert(s.take(b + 1).drop_last() =~= s.take(b));
}

/// The top-level signals, from declaration `i` on.
pub open spec fn signals_spec(ds: Seq<(SDecl, bool)>, i: int, sigs: Seq<SRSignal>) -> Result<Seq<SRSignal>, SElabErr>
    decreases ds.len() - i,
{
    if i < 0 || i >= ds.len() {
        Ok(sigs)
    } else {
        let d = ds[i].0;
        if find_signal(sigs, d.name) >= 0 {
            Err(SElabErr::DuplicateDecl { name: d.name })
        } else if d.sig_type is Clock && !ds[i].1 {
            Err(SElabErr::ClockDeclOutsideTestbench { name: d.name })
        } else {
            signals_spec(ds, i + 1, sigs.push(new_signal(sigs, d.name, d.sig_type)))
        }
    }
}

/// The expression is a direct reference to a `clock` signal.
pub open spec fn rexpr_is_clock(e: SRExpr, sigs: Seq<SRSignal>) -> bool {
    match e {
        SRExpr::Ident(id) => id < sigs.len() && sigs[id as int].is_clock,
        _ => false,
    }
}

/// The arguments of an instantiation from `j` on, matched with the input
/// ports of module `md`.
pub open spec fn args_spec(
    inst: SInstDecl,
    md: SRModule,
    j: int,
    sigs: Seq<SRSignal>,
    tab: Seq<(Seq<char>, Seq<char>)>,
    mods: Seq<SRModule>,
    acc: Seq<(Seq<char>, SRExpr)>,
) -> Result<Seq<(Seq<char>, SRExpr)>, SElabErr>
    decreases inst.args.len() - j,
{
    if j < 0 || j >= inst.args.len() {
        Ok(acc)
    } else {
        let name = inst.args[j].0;
        let pi = find_port(md.ports, name);
        if pi < 0 {
            Err(SElabErr::UnknownPortArg { module: md.name, port: name })
        } else if md.ports[pi].direction != Direction::Input {
            Err(SElabErr::OutputPortArg { module: md.name, port: name })
        } else if find_conn(acc, name) >= 0 {
            Err(SElabErr::DuplicateArg { port: name })
        } else {
            match resolve_expr_spec(inst.args[j].1, sigs, tab, mods) {
                Err(x) => Err(x),
                Ok(e) => if md.ports[pi].is_clock != rexpr_is_clock(e, sigs) {
                    Err(SElabErr::ClockMismatch { module: md.name, port: name })
                } else {
                    args_spec(inst, md, j + 1, sigs, tab, mods, acc.push((name, e)))
                },
            }
        }
    }
}

pub open spec fn first_unconnected_from(md: SRModule, cs: Seq<(Seq<char>, SRExpr)>, i: int) -> int {
    first_from(md.ports, |p: SRPort| p.direction == Direction::Input && find_conn(cs, p.name) < 0, i)
}

/// Index of the first input port of `md` that `cs` leaves unconnected, or -1.
pub open spec fn first_unconnected(md: SRModule, cs: Seq<(Seq<char>, SRExpr)>) -> int {
    first_unconnected_from(md, cs, 0)
}

/// The connections of an instantiation of `md`.
pub open spec fn connections_spec(
    inst: SInstDecl,
    md: SRModule,
    sigs: Seq<SRSignal>,
    tab: Seq<(Seq<char>, Seq<char>)>,
    mods: Seq<SRModule>,
) -> Result<Seq<(Seq<char>, SRExpr)>, SElabErr> {
    match args_spec(inst, md, 0, sigs, tab, mods, Seq::empty()) {
        Err(x) => Err(x),
        Ok(cs) => {
            let k = first_unconnected(md, cs);
            if k >= 0 {
                Err(SElabErr::UnconnectedInput { module: md.name, port: md.ports[k].name })
            } else {
                Ok(cs)
            }
        },
    }
}

/// The top-level instances from `i` on; `tab` lists (instance, module) of the
/// instances before.
pub open spec fn instances_spec(
    is: Seq<SInstDecl>,
    i: int,
    sigs: Seq<SRSignal>,
    mods: Seq<SRModule>,
    tab: Seq<(Seq<char>, Seq<char>)>,
    acc: Seq<SRInstance>,
) -> Result<(Seq<SRInstance>, Seq<(Seq<char>, Seq<char>)>), SElabErr>
    decreases is.len() - i,
{
    if i < 0 || i >= is.len() {
        Ok((acc, tab))
    } else {
        let inst = is[i];
        if find_signal(sigs, inst.instance_name) >= 0 || find_instance(tab, inst.instance_name) >= 0 {
            Err(SElabErr::NameCollision { name: inst.instance_name })
        } else {
            let mi = find_module(mods, inst.module_name);
            if mi < 0 {
                Err(SElabErr::UndefinedModule { module: inst.module_name })
            } else {
                match connections_spec(inst, mods[mi], sigs, tab, mods) {
                    Err(x) => Err(x),
                    Ok(cs) => instances_spec(
                        is,
                        i + 1,
                        sigs,
                        mods,
                        tab.push((inst.instance_name, inst.module_name)),
                        acc.push(
                            SRInstance {
                                instance_name: inst.instance_name,
                                module_name: inst.module_name,
                                connections: cs,
                            },
                        ),
                    ),
                }
            }
        }
    }
}

/// The top-level assignments from `i` on, resolved.
pub open spec fn stmts_spec(
    ss: Seq<SStmt>,
    i: int,
    sigs: Seq<SRSignal>,
    tab: Seq<(Seq<char>, Seq<char>)>,
    mods: Seq<SRModule>,
    acc: Seq<SRStmt>,
) -> Result<Seq<SRStmt>, SElabErr>
    decreases ss.len() - i,
{
    if i < 0 || i >= ss.len() {
        Ok(acc)
    } else {
        let s = ss[i];
        let ti = find_signal(sigs, s.target());
        if ti < 0 {
            Err(SElabErr::Undeclared { name: s.target() })
        } else {
            match resolve_expr_spec(s.expr(), sigs, tab, mods) {
                Err(x) => Err(x),
                Ok(e) => stmts_spec(ss, i + 1, sigs, tab, mods, acc.push(resolved_stmt(s, ti as usize, e))),
            }
        }
    }
}

/// The `initial` steps from `i` on, resolved.
pub open spec fn initial_spec(
    ps: Seq<SProcStmt>,
    i: int,
    sigs: Seq<SRSignal>,
    tab: Seq<(Seq<char>, Seq<char>)>,
    mods: Seq<SRModule>,
    acc: Seq<SRProc>,
) -> Result<Seq<SRProc>, SElabErr>
    decreases ps.len() - i,
{
    if i < 0 || i >= ps.len() {
        Ok(acc)
    } else {
        match ps[i] {
            SProcStmt::Step => initial_spec(ps, i + 1, sigs, tab, mods, acc.push(SRProc::Step)),
            SProcStmt::Assign { target, expr } => {
                let ti = find_signal(sigs, target);
                if ti < 0 {
                    Err(SElabErr::Undeclared { name: target })
                } else {
                    match resolve_expr_spec(expr, sigs, tab, mods) {
                        Err(x) => Err(x),
                        Ok(e) => initial_spec(
                            ps,
                            i + 1,
                            sigs,
                            tab,
                            mods,
                            acc.push(SRProc::Assign { target_id: ti as usize, expr: e }),
                        ),
                    }
                }
            },
        }
    }
}

/// The design a program elaborates to, or the first rule it breaks.
pub open spec fn elaborate_spec(p: SProgram) -> Result<SElaborated, SElabErr> {
    if p.testbenches.len() > 1 {
        Err(SElabErr::MultipleTestbenches)
    } else {
        match modules_spec(p.modules, 0, Seq::empty()) {
            Err(x) => Err(x),
            Ok(mods) => match signals_spec(top_decls(p), 0, Seq::empty()) {
                Err(x) => Err(x),
                Ok(sigs) => match instances_spec(top_instances(p), 0, sigs, mods, Seq::empty(), Seq::empty()) {
                    Err(x) => Err(x),
                    Ok((insts, tab)) => match stmts_spec(top_stmts(p), 0, sigs, tab, mods, Seq::empty()) {
                        Err(x) => Err(x),
                        Ok(stmts) => match scope_checks(sigs, stmts) {
                            Err(x) => Err(x),
                            Ok(_) => match initial_spec(top_initial(p), 0, sigs, tab, mods, Seq::empty()) {
                                Err(x) => Err(x),
                                Ok(init) => Ok(
                                    SElaborated {
                                        top: SRScope { signals: sigs, stmts, instances: insts },
                                        modules: mods,
                                        initial: init,
                                    },
                                ),
                            },
                        },
                    },
                },
            },
        }
    }
}

/// Every read of an instance port in `e` names an instance listed in `tab`,
/// whose module is among `mods` and has a port of that name.
pub open spec fn fields_ok(e: SRExpr, tab: Seq<(Seq<char>, Seq<char>)>, mods: Seq<SRModule>) -> bool
    decreases e,
{
    match e {
        SRExpr::InstanceField { instance_name, port_name } => {
            let ii = find_instance(tab, instance_name);
            &&& ii >= 0
            &&& find_module(mods, tab[ii].1) >= 0
            &&& find_port(mods[find_module(mods, tab[ii].1)].ports, port_name) >= 0
        },
        SRExpr::BinOp { lhs, rhs, .. } => fields_ok(*lhs, tab, mods) && fields_ok(*rhs, tab, mods),
        SRExpr::UnaryOp { expr, .. } => fields_ok(*expr, tab, mods),
        SRExpr::Ternary { cond, then_branch, else_branch } => fields_ok(*cond, tab, mods) && fields_ok(
            *then_branch,
            tab,
            mods,
        ) && fields_ok(*else_branch, tab, mods),
        _ => true,
    }
}

/// An expression without instance-port reads stays so whatever the modules.
pub proof fn lemma_fields_ok_no_instances(e: SRExpr, m1: Seq<SRModule>, m2: Seq<SRModule>)
    requires
        fields_ok(e, Seq::empty(), m1),
    ensures
        fields_ok(e, Seq::empty(), m2),
    decreases e,
{
    match e {
        SRExpr::BinOp { lhs, rhs, .. } => {
            lemma_fields_ok_no_instances(*lhs, m1, m2);
            lemma_fields_ok_no_instances(*rhs, m1, m2);
        },
        SRExpr::UnaryOp { expr, .. } => {
            lemma_fields_ok_no_instances(*expr, m1, m2);
        },
        SRExpr::Ternary { cond, then_branch, else_branch } => {
            lemma_fields_ok_no_instances(*cond, m1, m2);
            lemma_fields_ok_no_instances(*then_branch, m1, m2);
            lemma_fields_ok_no_instances(*else_branch, m1, m2);
        },
        _ => {},
    }
}

/// The instance table (instance, module) of a list of instances.
pub open spec fn inst_tab(is: Seq<SRInstance>) -> Seq<(Seq<char>, Seq<char>)> {
    is.map_values(|i: SRInstance| (i.instance_name, i.module_name))
}

/// Signal `k` of the list has id `k`.
pub open spec fn ids_ok(sigs: Seq<SRSignal>) -> bool {
    forall|k: int| 0 <= k < sigs.len() ==> (#[trigger] sigs[k]).id == k
}

/// A resolved module: no instances in its body, ids in order, port `k` its
/// signal `k` and the clock among its signals, assignments within its
/// signals and reading no instance port, no assignment to an input port and
/// no signal assigned twice.
pub open spec fn module_wf(m: SRModule) -> bool {
    &&& m.body.instances.len() == 0
    &&& ids_ok(m.body.signals)
    &&& forall|k: int| 0 <= k < m.ports.len() ==> (#[trigger] m.ports[k]).signal_id < m.body.signals.len()
    &&& stmts_below(m.body.stmts, m.body.signals.len() as int)
    &&& forall|k: int|
        0 <= k < m.body.stmts.len() ==> fields_ok(#[trigger] m.body.stmts[k].expr(), Seq::empty(), Seq::empty())
    &&& (m.clock_port matches Some(c) ==> c < m.body.signals.len())
    &&& forall|k: int| 0 <= k < m.ports.len() ==> (#[trigger] m.ports[k]).signal_id == k
    &&& forall|s: int|
        0 <= s < m.body.stmts.len() && (#[trigger] m.body.stmts[s]).target_id() < m.ports.len() ==> m.ports[m.body.stmts[s].target_id() as int].direction
            != Direction::Input
    &&& first_redriven(m.body.stmts) < 0
}

/// Instance `i` of the list: its module exists, every input port of it is
/// connected, and each connection reads signals below `nsig` and ports of
/// instances before `i` only.
pub open spec fn inst_ok(insts: Seq<SRInstance>, i: int, nsig: int, mods: Seq<SRModule>) -> bool {
    let inst = insts[i];
    let mi = find_module(mods, inst.module_name);
    &&& mi >= 0
    &&& forall|k: int|
        0 <= k < mods[mi].ports.len() && (#[trigger] mods[mi].ports[k]).direction == Direction::Input
            ==> find_conn(inst.connections, mods[mi].ports[k].name) >= 0
    &&& forall|c: int|
        0 <= c < inst.connections.len() ==> reads_below(#[trigger] inst.connections[c].1, nsig) && fields_ok(
            inst.connections[c].1,
            inst_tab(insts.take(i)),
            mods,
        )
}

/// Instance `i` of the top level is well formed.
pub open spec fn instance_wf(x: SElaborated, i: int) -> bool {
    inst_ok(x.top.instances, i, x.top.signals.len() as int, x.modules)
}

/// A step of an `initial` procedure sets a signal below `nsig` from an
/// expression that reads signals below `nsig` and ports of instances in `tab`.
pub open spec fn proc_ok(p: SRProc, nsig: int, tab: Seq<(Seq<char>, Seq<char>)>, mods: Seq<SRModule>) -> bool {
    match p {
        SRProc::Assign { target_id, expr } => target_id < nsig && reads_below(expr, nsig) && fields_ok(
            expr,
            tab,
            mods,
        ),
        SRProc::Step => true,
    }
}

/// A step of the `initial` procedure refers to top-level signals and
/// instances only.
pub open spec fn proc_wf(x: SElaborated, p: SRProc) -> bool {
    proc_ok(p, x.top.signals.len() as int, inst_tab(x.top.instances), x.modules)
}

/// An elaborated design in which every reference resolves: what flattening
/// it into a netlist relies on.
pub open spec fn elab_wf(x: SElaborated) -> bool {
    &&& ids_ok(x.top.signals)
    &&& stmts_below(x.top.stmts, x.top.signals.len() as int)
    &&& first_redriven(x.top.stmts) < 0
    &&& forall|k: int|
        0 <= k < x.top.stmts.len() ==> fields_ok(#[trigger] x.top.stmts[k].expr(), inst_tab(x.top.instances), x.modules)
    &&& forall|i: int| 0 <= i < x.top.instances.len() ==> #[trigger] instance_wf(x, i)
    &&& forall|m: int| 0 <= m < x.modules.len() ==> #[trigger] module_wf(x.modules[m])
    &&& forall|k: int| 0 <= k < x.initial.len() ==> #[trigger] proc_wf(x, x.initial[k])
}

/// A module lookup gives -1 or a position in the list.
pub proof fn lemma_find_module_range(mods: Seq<SRModule>, name: Seq<char>)
    ensures
        -1 <= find_module(mods, name) < mods.len(),
        find_module(mods, name) >= 0 ==> mods[find_module(mods, name)].name == name,
{
    lemma_first_from(mods, |x: SRModule| x.name == name, 0);
}

} // verus!
