//! What flattening computes: the value and the width of a resolved expression
//! once its signals are given global ids, and the signal list of a flattened
//! design.
use vstd::prelude::*;

use crate::ast::{BinOp, Direction, UnOp};
use crate::elab_spec::{fields_ok, find_instance, find_module, find_port, reads, reads_below};
use crate::elaboration::{SElaborated, SRExpr, SRInstance, SRModule, SRPort, SRProc, SRStmt};
use crate::netlist::{conn_expr, stmt_kind, DriveKind, Node, SNode};
use crate::simulator::{binop_value, mask_value, node_value, unop_value};

verus! {

/// Remapping of an instance: (instance name, module name, global id of each
/// body signal).
pub type IrView = (Seq<char>, Seq<char>, Seq<usize>);

/// The (instance, module) table of a list of instance remappings.
pub open spec fn irs_tab(irs: Seq<IrView>) -> Seq<(Seq<char>, Seq<char>)> {
    irs.map_values(|x: IrView| (x.0, x.1))
}

/// Global id of output port `port` of instance `inst`.
pub open spec fn field_signal(irs: Seq<IrView>, mods: Seq<SRModule>, inst: Seq<char>, port: Seq<char>) -> int {
    let ii = find_instance(irs_tab(irs), inst);
    let mi = find_module(mods, irs[ii].1);
    let pi = find_port(mods[mi].ports, port);
    irs[ii].2[mods[mi].ports[pi].signal_id as int] as int
}

/// Value of a resolved expression whose local signal `k` is global signal
/// `remap[k]`, when the global signals hold `vals`.
pub open spec fn rexpr_value(
    e: SRExpr,
    remap: Seq<usize>,
    irs: Seq<IrView>,
    mods: Seq<SRModule>,
    vals: Seq<u64>,
) -> u64
    decreases e,
{
    match e {
        SRExpr::Ident(id) => vals[remap[id as int] as int],
        SRExpr::Number(n) => n,
        SRExpr::BitVecLiteral { width, value } => mask_value(value, width),
        SRExpr::InstanceField { instance_name, port_name } => vals[field_signal(
            irs,
            mods,
            instance_name,
            port_name,
        )],
        SRExpr::BinOp { op, lhs, rhs } => binop_value(
            op,
            rexpr_value(*lhs, remap, irs, mods, vals),
            rexpr_value(*rhs, remap, irs, mods, vals),
        ),
        SRExpr::UnaryOp { op, expr } => unop_value(op, rexpr_value(*expr, remap, irs, mods, vals)),
        SRExpr::Ternary { cond, then_branch, else_branch } => if rexpr_value(*cond, remap, irs, mods, vals) != 0 {
            rexpr_value(*then_branch, remap, irs, mods, vals)
        } else {
            rexpr_value(*else_branch, remap, irs, mods, vals)
        },
    }
}

/// Number of binary digits of `n` (0 for 0).
pub open spec fn bits(n: nat) -> nat
    decreases n,
{
    if n == 0 {
        0
    } else {
        1 + bits(n / 2)
    }
}

/// Width of a decimal literal: the fewest bits that hold it, at least one.
pub open spec fn num_width(n: u64) -> u64 {
    if n == 0 {
        1
    } else {
        bits(n as nat) as u64
    }
}

/// Operators whose result is a truth value, one bit wide.
pub open spec fn is_truth_op(op: BinOp) -> bool {
    match op {
        BinOp::Or | BinOp::And | BinOp::Eq | BinOp::Neq | BinOp::Lt | BinOp::Le | BinOp::Gt | BinOp::Ge => true,
        _ => false,
    }
}

pub open spec fn max_u64(a: u64, b: u64) -> u64 {
    if a >= b {
        a
    } else {
        b
    }
}

/// Width of a resolved expression, the global signals being `widths` wide: a
/// truth value is one bit; `~`, and arithmetic and bitwise operators, take
/// the wider operand; a conditional takes the wider branch.
pub open spec fn rexpr_width(
    e: SRExpr,
    remap: Seq<usize>,
    irs: Seq<IrView>,
    mods: Seq<SRModule>,
    widths: Seq<u64>,
) -> u64
    decreases e,
{
    match e {
        SRExpr::Ident(id) => widths[remap[id as int] as int],
        SRExpr::Number(n) => num_width(n),
        SRExpr::BitVecLiteral { width, .. } => width,
        SRExpr::InstanceField { instance_name, port_name } => widths[field_signal(
            irs,
            mods,
            instance_name,
            port_name,
        )],
        SRExpr::BinOp { op, lhs, rhs } => if is_truth_op(op) {
            1
        } else {
            max_u64(rexpr_width(*lhs, remap, irs, mods, widths), rexpr_width(*rhs, remap, irs, mods, widths))
        },
        SRExpr::UnaryOp { op, expr } => match op {
            UnOp::Not => 1,
            UnOp::BitNot => rexpr_width(*expr, remap, irs, mods, widths),
        },
        SRExpr::Ternary { then_branch, else_branch, .. } => max_u64(
            rexpr_width(*then_branch, remap, irs, mods, widths),
            rexpr_width(*else_branch, remap, irs, mods, widths),
        ),
    }
}

/// Every remapping names global signals below `nsig`, and covers the ports of
/// its module.
pub open spec fn irs_ok(irs: Seq<IrView>, mods: Seq<SRModule>, nsig: int) -> bool {
    forall|ii: int|
        0 <= ii < irs.len() ==> {
            &&& forall|k: int| 0 <= k < (#[trigger] irs[ii]).2.len() ==> irs[ii].2[k] < nsig
            &&& find_module(mods, irs[ii].1) >= 0 ==> forall|p: int|
                0 <= p < mods[find_module(mods, irs[ii].1)].ports.len() ==> (#[trigger] mods[find_module(
                    mods,
                    irs[ii].1,
                )].ports[p]).signal_id < irs[ii].2.len()
        }
}

/// The remapping `remap` names global signals below `nsig`.
pub open spec fn remap_ok(remap: Seq<usize>, nsig: int) -> bool {
    forall|k: int| 0 <= k < remap.len() ==> #[trigger] remap[k] < nsig
}

/// An expression can be built in a context: its signals are remapped, its
/// instance reads resolve, and every global id is below `nsig`.
pub open spec fn expr_ok(e: SRExpr, remap: Seq<usize>, irs: Seq<IrView>, mods: Seq<SRModule>, nsig: int) -> bool {
    &&& reads_below(e, remap.len() as int)
    &&& fields_ok(e, irs_tab(irs), mods)
    &&& remap_ok(remap, nsig)
    &&& irs_ok(irs, mods, nsig)
}

/// `short` is a prefix of `long`.
pub open spec fn is_prefix<A>(short: Seq<A>, long: Seq<A>) -> bool {
    short.len() <= long.len() && forall|i: int| 0 <= i < short.len() ==> #[trigger] long[i] == short[i]
}

/// Appending nodes leaves the values of the nodes before unchanged.
pub proof fn lemma_node_value_prefix(short: Seq<Node>, long: Seq<Node>, id: int, vals: Seq<u64>)
    requires
        is_prefix(short, long),
        0 <= id < short.len(),
    ensures
        node_value(long, id, vals) == node_value(short, id, vals),
    decreases id,
{
    assert(long[id] == short[id]);
    match short[id] {
        Node::BinOp { lhs, rhs, .. } => {
            if lhs < id && rhs < id {
                lemma_node_value_prefix(short, long, lhs as int, vals);
                lemma_node_value_prefix(short, long, rhs as int, vals);
            }
        },
        Node::UnaryOp { operand, .. } => {
            if operand < id {
                lemma_node_value_prefix(short, long, operand as int, vals);
            }
        },
        Node::Ternary { cond, then_branch, else_branch, .. } => {
            if cond < id && then_branch < id && else_branch < id {
                lemma_node_value_prefix(short, long, cond as int, vals);
                lemma_node_value_prefix(short, long, then_branch as int, vals);
                lemma_node_value_prefix(short, long, else_branch as int, vals);
            }
        },
        Node::Drive { source, .. } => {
            if source < id {
                lemma_node_value_prefix(short, long, source as int, vals);
            }
        },
        _ => {},
    }
}

/// The operands of an expression read what the expression reads.
pub proof fn lemma_reads_below_sub(e: SRExpr, n: int)
    requires
        reads_below(e, n),
    ensures
        match e {
            SRExpr::BinOp { lhs, rhs, .. } => reads_below(*lhs, n) && reads_below(*rhs, n),
            SRExpr::UnaryOp { expr, .. } => reads_below(*expr, n),
            SRExpr::Ternary { cond, then_branch, else_branch } => reads_below(*cond, n) && reads_below(
                *then_branch,
                n,
            ) && reads_below(*else_branch, n),
            _ => true,
        },
{
    match e {
        SRExpr::BinOp { lhs, rhs, .. } => {
            let l = reads(*lhs);
            let r = reads(*rhs);
            assert(reads(e) == l + r);
            assert forall|k: int| 0 <= k < l.len() implies (#[trigger] l[k]) < n by {
                assert(reads(e)[k] == l[k]);
            }
            assert forall|k: int| 0 <= k < r.len() implies (#[trigger] r[k]) < n by {
                assert(reads(e)[l.len() + k] == r[k]);
            }
        },
        SRExpr::UnaryOp { expr, .. } => {
            assert(reads(e) == reads(*expr));
        },
        SRExpr::Ternary { cond, then_branch, else_branch } => {
            let c = reads(*cond);
            let t = reads(*then_branch);
            let f = reads(*else_branch);
            assert(reads(e) == c + t + f);
            assert forall|k: int| 0 <= k < c.len() implies (#[trigger] c[k]) < n by {
                assert(reads(e)[k] == c[k]);
            }
            assert forall|k: int| 0 <= k < t.len() implies (#[trigger] t[k]) < n by {
                assert(reads(e)[c.len() + k] == t[k]);
            }
            assert forall|k: int| 0 <= k < f.len() implies (#[trigger] f[k]) < n by {
                assert(reads(e)[c.len() + t.len() + k] == f[k]);
            }
        },
        _ => {},
    }
}

/// Number of body signals of module `name`.
pub open spec fn body_len(mods: Seq<SRModule>, name: Seq<char>) -> int {
    mods[find_module(mods, name)].body.signals.len() as int
}

/// Global id of the first body signal of instance `i`, the first instance's
/// block starting at `start` and each block following the one before.
pub open spec fn inst_start(insts: Seq<SRInstance>, mods: Seq<SRModule>, start: int, i: int) -> int
    decreases i,
{
    if i <= 0 {
        start
    } else {
        inst_start(insts, mods, start, i - 1) + body_len(mods, insts[i - 1].module_name)
    }
}

/// Blocks come in order.
pub proof fn lemma_inst_start_mono(insts: Seq<SRInstance>, mods: Seq<SRModule>, start: int, i: int, j: int)
    requires
        0 <= i <= j,
    ensures
        inst_start(insts, mods, start, i) <= inst_start(insts, mods, start, j),
    decreases j,
{
    if i < j {
        lemma_inst_start_mono(insts, mods, start, i, j - 1);
    }
}

/// The top-level signals keep their ids.
pub open spec fn top_remap(x: SElaborated) -> Seq<usize> {
    Seq::new(x.top.signals.len(), |k: int| k as usize)
}

/// Global ids of the body signals of top-level instance `i`.
pub open spec fn inst_remap_of(x: SElaborated, i: int) -> Seq<usize> {
    Seq::new(
        body_len(x.modules, x.top.instances[i].module_name) as nat,
        |k: int| (inst_start(x.top.instances, x.modules, x.top.signals.len() as int, i) + k) as usize,
    )
}

/// The remappings of the top-level instances.
pub open spec fn flat_irs(x: SElaborated) -> Seq<IrView> {
    Seq::new(
        x.top.instances.len(),
        |i: int| (x.top.instances[i].instance_name, x.top.instances[i].module_name, inst_remap_of(x, i)),
    )
}

/// The number of signals of the flattened design.
pub open spec fn flat_count(x: SElaborated) -> int {
    inst_start(x.top.instances, x.modules, x.top.signals.len() as int, x.top.instances.len() as int)
}

/// The nodes that flattening emits for expression `e`, numbered from
/// `start`: operands first, left to right, then the operation; the last node
/// computes `e`. `names` and `widths` are those of the global signals.
pub open spec fn expr_nodes(
    e: SRExpr,
    start: int,
    remap: Seq<usize>,
    irs: Seq<IrView>,
    mods: Seq<SRModule>,
    names: Seq<Seq<char>>,
    widths: Seq<u64>,
) -> Seq<SNode>
    decreases e,
{
    match e {
        SRExpr::Number(n) => seq![SNode::Const { id: start, value: n, width: num_width(n) }],
        SRExpr::BitVecLiteral { width, value } => seq![
            SNode::Const { id: start, value: mask_value(value, width), width },
        ],
        SRExpr::Ident(i) => {
            let g = remap[i as int] as int;
            seq![SNode::ReadSignal { id: start, signal_id: g, signal_name: names[g], width: widths[g] }]
        },
        SRExpr::InstanceField { instance_name, port_name } => {
            let g = field_signal(irs, mods, instance_name, port_name);
            seq![SNode::ReadSignal { id: start, signal_id: g, signal_name: names[g], width: widths[g] }]
        },
        SRExpr::BinOp { op, lhs, rhs } => {
            let a = expr_nodes(*lhs, start, remap, irs, mods, names, widths);
            let b = expr_nodes(*rhs, start + a.len(), remap, irs, mods, names, widths);
            a + b + seq![
                SNode::BinOp {
                    id: start + a.len() + b.len(),
                    op,
                    lhs: start + a.len() - 1,
                    rhs: start + a.len() + b.len() - 1,
                    width: rexpr_width(e, remap, irs, mods, widths),
                },
            ]
        },
        SRExpr::UnaryOp { op, expr } => {
            let a = expr_nodes(*expr, start, remap, irs, mods, names, widths);
            a + seq![
                SNode::UnaryOp {
                    id: start + a.len(),
                    op,
                    operand: start + a.len() - 1,
                    width: rexpr_width(e, remap, irs, mods, widths),
                },
            ]
        },
        SRExpr::Ternary { cond, then_branch, else_branch } => {
            let a = expr_nodes(*cond, start, remap, irs, mods, names, widths);
            let b = expr_nodes(*then_branch, start + a.len(), remap, irs, mods, names, widths);
            let c = expr_nodes(*else_branch, start + a.len() + b.len(), remap, irs, mods, names, widths);
            a + b + c + seq![
                SNode::Ternary {
                    id: start + a.len() + b.len() + c.len(),
                    cond: start + a.len() - 1,
                    then_branch: start + a.len() + b.len() - 1,
                    else_branch: start + a.len() + b.len() + c.len() - 1,
                    width: rexpr_width(e, remap, irs, mods, widths),
                },
            ]
        },
    }
}

/// The nodes of one assignment, numbered from `start`: its right-hand side,
/// then the drive of its target.
pub open spec fn stmt_nodes(
    s: SRStmt,
    start: int,
    remap: Seq<usize>,
    irs: Seq<IrView>,
    mods: Seq<SRModule>,
    names: Seq<Seq<char>>,
    widths: Seq<u64>,
) -> Seq<SNode> {
    let a = expr_nodes(s.expr(), start, remap, irs, mods, names, widths);
    let t = remap[s.target_id() as int] as int;
    a + seq![
        SNode::Drive {
            id: start + a.len(),
            signal_id: t,
            signal_name: names[t],
            source: start + a.len() - 1,
            kind: stmt_kind(s),
            width: widths[t],
        },
    ]
}

/// The nodes of a list of assignments, in order, numbered from `start`.
pub open spec fn stmts_nodes(
    ss: Seq<SRStmt>,
    start: int,
    remap: Seq<usize>,
    irs: Seq<IrView>,
    mods: Seq<SRModule>,
    names: Seq<Seq<char>>,
    widths: Seq<u64>,
) -> Seq<SNode>
    decreases ss.len(),
{
    if ss.len() == 0 {
        Seq::empty()
    } else {
        let p = stmts_nodes(ss.drop_last(), start, remap, irs, mods, names, widths);
        p + stmt_nodes(ss.last(), start + p.len(), remap, irs, mods, names, widths)
    }
}

/// The nodes of the connection of one port of an instance, numbered from
/// `start`: for an input port, its connected expression (over the
/// instantiating scope) and the drive of the port's signal; none for an
/// output port.
pub open spec fn port_nodes(
    port: SRPort,
    start: int,
    conns: Seq<(Seq<char>, SRExpr)>,
    inst_remap: Seq<usize>,
    remap: Seq<usize>,
    irs: Seq<IrView>,
    mods: Seq<SRModule>,
    names: Seq<Seq<char>>,
    widths: Seq<u64>,
) -> Seq<SNode> {
    if port.direction == Direction::Input {
        let a = expr_nodes(conn_expr(conns, port.name), start, remap, irs, mods, names, widths);
        let t = inst_remap[port.signal_id as int] as int;
        a + seq![
            SNode::Drive {
                id: start + a.len(),
                signal_id: t,
                signal_name: names[t],
                source: start + a.len() - 1,
                kind: DriveKind::Combinational,
                width: widths[t],
            },
        ]
    } else {
        Seq::empty()
    }
}

/// The nodes of the connections of a list of ports, in order.
pub open spec fn ports_nodes(
    ports: Seq<SRPort>,
    start: int,
    conns: Seq<(Seq<char>, SRExpr)>,
    inst_remap: Seq<usize>,
    remap: Seq<usize>,
    irs: Seq<IrView>,
    mods: Seq<SRModule>,
    names: Seq<Seq<char>>,
    widths: Seq<u64>,
) -> Seq<SNode>
    decreases ports.len(),
{
    if ports.len() == 0 {
        Seq::empty()
    } else {
        let p = ports_nodes(ports.drop_last(), start, conns, inst_remap, remap, irs, mods, names, widths);
        p + port_nodes(ports.last(), start + p.len(), conns, inst_remap, remap, irs, mods, names, widths)
    }
}

/// The nodes of one instance of module `md`, numbered from `start`: its
/// body's assignments over the instance's signals, then its input
/// connections over the instantiating scope.
pub open spec fn inst_nodes(
    md: SRModule,
    start: int,
    conns: Seq<(Seq<char>, SRExpr)>,
    inst_remap: Seq<usize>,
    remap: Seq<usize>,
    irs: Seq<IrView>,
    mods: Seq<SRModule>,
    names: Seq<Seq<char>>,
    widths: Seq<u64>,
) -> Seq<SNode> {
    let a = stmts_nodes(md.body.stmts, start, inst_remap, Seq::empty(), mods, names, widths);
    a + ports_nodes(md.ports, start + a.len(), conns, inst_remap, remap, irs, mods, names, widths)
}

/// The nodes of the first `i` instances of a scope, in order, numbered from
/// `start`; the instance blocks of signals begin at `base`, and each
/// instance's nodes name the signals up to the end of its own block.
pub open spec fn insts_nodes(
    insts: Seq<SRInstance>,
    i: int,
    start: int,
    mods: Seq<SRModule>,
    irs: Seq<IrView>,
    remap: Seq<usize>,
    base: int,
    names: Seq<Seq<char>>,
    widths: Seq<u64>,
) -> Seq<SNode>
    decreases i,
{
    if i <= 0 {
        Seq::empty()
    } else {
        let p = insts_nodes(insts, i - 1, start, mods, irs, remap, base, names, widths);
        let end = inst_start(insts, mods, base, i);
        p + inst_nodes(
            mods[find_module(mods, insts[i - 1].module_name)],
            start + p.len(),
            insts[i - 1].connections,
            irs[i - 1].2,
            remap,
            irs.take(i - 1),
            mods,
            names.take(end),
            widths.take(end),
        )
    }
}

/// The nodes of the first `i` instances depend on the remappings of those
/// instances and on the names and widths of their signals only.
pub proof fn lemma_insts_nodes_same(
    insts: Seq<SRInstance>,
    i: int,
    start: int,
    mods: Seq<SRModule>,
    irs1: Seq<IrView>,
    irs2: Seq<IrView>,
    remap: Seq<usize>,
    base: int,
    names1: Seq<Seq<char>>,
    names2: Seq<Seq<char>>,
    widths1: Seq<u64>,
    widths2: Seq<u64>,
)
    requires
        0 <= i,
        0 <= base,
        i <= irs1.len(),
        i <= irs2.len(),
        irs1.take(i) == irs2.take(i),
        inst_start(insts, mods, base, i) <= names1.len(),
        inst_start(insts, mods, base, i) <= names2.len(),
        inst_start(insts, mods, base, i) <= widths1.len(),
        inst_start(insts, mods, base, i) <= widths2.len(),
        names1.take(inst_start(insts, mods, base, i)) == names2.take(inst_start(insts, mods, base, i)),
        widths1.take(inst_start(insts, mods, base, i)) == widths2.take(inst_start(insts, mods, base, i)),
    ensures
        insts_nodes(insts, i, start, mods, irs1, remap, base, names1, widths1) == insts_nodes(
            insts,
            i,
            start,
            mods,
            irs2,
            remap,
            base,
            names2,
            widths2,
        ),
    decreases i,
{
    if i > 0 {
        let e0 = inst_start(insts, mods, base, i - 1);
        let e1 = inst_start(insts, mods, base, i);
        lemma_inst_start_mono(insts, mods, base, 0, i - 1);
        assert(0 <= e0 <= e1);
        assert(names1.take(e0) =~= names1.take(e1).take(e0));
        assert(names2.take(e0) =~= names2.take(e1).take(e0));
        assert(widths1.take(e0) =~= widths1.take(e1).take(e0));
        assert(widths2.take(e0) =~= widths2.take(e1).take(e0));
        assert(irs1.take(i - 1) =~= irs1.take(i).take(i - 1));
        assert(irs2.take(i - 1) =~= irs2.take(i).take(i - 1));
        assert(irs1[i - 1] == irs1.take(i)[i - 1]);
        assert(irs2[i - 1] == irs2.take(i)[i - 1]);
        lemma_insts_nodes_same(insts, i - 1, start, mods, irs1, irs2, remap, base, names1, names2, widths1, widths2);
    }
}

/// Adding the nodes of instance `i` extends the nodes of the instances before
/// it.
pub proof fn lemma_insts_nodes_step(
    insts: Seq<SRInstance>,
    i: int,
    start: int,
    mods: Seq<SRModule>,
    irs0: Seq<IrView>,
    irs1: Seq<IrView>,
    remap: Seq<usize>,
    base: int,
    names0: Seq<Seq<char>>,
    names1: Seq<Seq<char>>,
    widths0: Seq<u64>,
    widths1: Seq<u64>,
)
    requires
        0 <= i,
        0 <= base,
        irs0.len() == i,
        irs1.len() == i + 1,
        irs1.take(i) == irs0,
        names0.len() == inst_start(insts, mods, base, i),
        widths0.len() == names0.len(),
        names1.len() == inst_start(insts, mods, base, i + 1),
        widths1.len() == names1.len(),
        names1.take(names0.len() as int) == names0,
        widths1.take(widths0.len() as int) == widths0,
    ensures
        insts_nodes(insts, i + 1, start, mods, irs1, remap, base, names1, widths1) == insts_nodes(
            insts,
            i,
            start,
            mods,
            irs0,
            remap,
            base,
            names0,
            widths0,
        ) + inst_nodes(
            mods[find_module(mods, insts[i].module_name)],
            start + insts_nodes(insts, i, start, mods, irs0, remap, base, names0, widths0).len(),
            insts[i].connections,
            irs1[i].2,
            remap,
            irs0,
            mods,
            names1,
            widths1,
        ),
{
    lemma_inst_start_mono(insts, mods, base, i, i + 1);
    assert(names0.take(names0.len() as int) =~= names0);
    assert(widths0.take(widths0.len() as int) =~= widths0);
    assert(irs0.take(i) =~= irs0);
    lemma_insts_nodes_same(insts, i, start, mods, irs1, irs0, remap, base, names1, names0, widths1, widths0);
    assert(names1.take(names1.len() as int) =~= names1);
    assert(widths1.take(widths1.len() as int) =~= widths1);
}

/// The nodes of the assignments of an `initial` procedure, in order,
/// numbered from `start`: each assignment's expression (a `step` has none).
pub open spec fn init_nodes(
    ps: Seq<SRProc>,
    start: int,
    remap: Seq<usize>,
    irs: Seq<IrView>,
    mods: Seq<SRModule>,
    names: Seq<Seq<char>>,
    widths: Seq<u64>,
) -> Seq<SNode>
    decreases ps.len(),
{
    if ps.len() == 0 {
        Seq::empty()
    } else {
        let p = init_nodes(ps.drop_last(), start, remap, irs, mods, names, widths);
        p + match ps.last() {
            SRProc::Assign { expr, .. } => expr_nodes(expr, start + p.len(), remap, irs, mods, names, widths),
            SRProc::Step => Seq::empty(),
        }
    }
}

/// The nodes of a flattened design before its `initial` procedure: those of
/// each top-level instance, then those of the top-level assignments.
pub open spec fn flat_scope_nodes(x: SElaborated, names: Seq<Seq<char>>, widths: Seq<u64>) -> Seq<SNode> {
    let a = insts_nodes(
        x.top.instances,
        x.top.instances.len() as int,
        0,
        x.modules,
        flat_irs(x),
        top_remap(x),
        x.top.signals.len() as int,
        names,
        widths,
    );
    a + stmts_nodes(x.top.stmts, a.len() as int, top_remap(x), flat_irs(x), x.modules, names, widths)
}

/// All the nodes of a flattened design, numbered from 0, given the names and
/// widths of its signals.
pub open spec fn flat_nodes(x: SElaborated, names: Seq<Seq<char>>, widths: Seq<u64>) -> Seq<SNode> {
    let a = flat_scope_nodes(x, names, widths);
    a + init_nodes(x.initial, a.len() as int, top_remap(x), flat_irs(x), x.modules, names, widths)
}

} // verus!
