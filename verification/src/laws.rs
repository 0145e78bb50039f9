//! Properties of the library as a whole, over the models its contracts use.
use vstd::prelude::*;

use crate::ast::{BinOp, Direction, SExpr, SModuleDef, SProgram, UnOp};
use crate::elab_spec::{
    comb_acyclic, comb_edge, elab_wf, elaborate_spec, find_module, first_redriven, instance_wf, is_comb_cycle,
    lemma_find_module_range, loop_names, module_def_spec, module_wf, modules_spec, scope_checks, stmts_below,
    resolve_expr_spec, find_signal, find_instance, find_port,
};
use crate::comb_graph::{dep_graph, first_cycle, is_list_cycle, lemma_dep_graph_ok, lemma_search_all_sound};
use crate::elaboration::{SElaborated, SRExpr, SRModule, SRSignal, SRStmt};
use crate::netlist::{node_widths_ok, conn_expr, drive_fact, drives, netlist_of, netlist_wf, DriveKind, InitialStep, NetlistSignal, Node};
use crate::netlist_spec::{bits, num_width, flat_irs, inst_remap_of, inst_start, rexpr_value, top_remap, IrView};
use crate::lexer::{lex_at, skip_ws, SToken};
use crate::token::{digits_end, ident_end, sym_at, tokens_from, STok};
use crate::grammar::{level_op, p_unary};
use crate::simulator::{binop_value, node_value, unop_value, comb_pass, comb_settle, initial_run, lemma_run_values_len, mask_value, run_values, seq_pass, step_values};

verus! {

/// The checks of a scope passed: no signal driven twice, no combinational
/// cycle.
pub open spec fn scope_checked(m: SRModule) -> bool {
    first_redriven(m.body.stmts) < 0 && comb_acyclic(m.body.stmts, m.body.signals.len() as int)
}

proof fn lemma_modules_spec(ms: Seq<SModuleDef>, i: int, acc: Seq<SRModule>)
    requires
        0 <= i <= ms.len(),
        modules_spec(ms, i, acc) is Ok,
        forall|k: int| 0 <= k < acc.len() ==> #[trigger] scope_checked(acc[k]),
    ensures
        ({
            let r = modules_spec(ms, i, acc)->Ok_0;
            &&& r.len() == acc.len() + ms.len() - i
            &&& forall|k: int| 0 <= k < acc.len() ==> r[k] == acc[k]
            &&& forall|j: int| i <= j < ms.len() ==> module_def_spec(#[trigger] ms[j]) == Ok::<SRModule, crate::elaboration::SElabErr>(r[acc.len() + j - i])
            &&& forall|k: int| 0 <= k < r.len() ==> #[trigger] scope_checked(r[k])
        }),
    decreases ms.len() - i,
{
    if i < ms.len() {
        let rm = module_def_spec(ms[i])->Ok_0;
        let m = ms[i];
        assert(scope_checks(rm.body.signals, rm.body.stmts) is Ok);
        assert(scope_checked(rm));
        let acc2 = acc.push(rm);
        assert forall|k: int| 0 <= k < acc2.len() implies #[trigger] scope_checked(acc2[k]) by {
            if k < acc.len() {
                assert(acc2[k] == acc[k]);
            }
        }
        lemma_modules_spec(ms, i + 1, acc2);
        let r = modules_spec(ms, i, acc)->Ok_0;
        assert(r == modules_spec(ms, i + 1, acc2)->Ok_0);
        assert forall|k: int| 0 <= k < acc.len() implies r[k] == acc[k] by {
            assert(acc2[k] == acc[k]);
        }
    }
}

/// Elaboration accepts a program only when it has at most one testbench,
/// every module definition in it resolves on its own (instantiated or not)
/// and stands in the result in source order, and no scope (the top level or
/// a module body) drives a signal twice or holds a combinational cycle.
pub proof fn law_elaboration_checks(p: SProgram)
    requires
        elaborate_spec(p) is Ok,
    ensures
        ({
            let x = elaborate_spec(p)->Ok_0;
            &&& p.testbenches.len() <= 1
            &&& x.modules.len() == p.modules.len()
            &&& forall|j: int|
                0 <= j < p.modules.len() ==> module_def_spec(#[trigger] p.modules[j]) == Ok::<
                    SRModule,
                    crate::elaboration::SElabErr,
                >(x.modules[j])
            &&& first_redriven(x.top.stmts) < 0
            &&& comb_acyclic(x.top.stmts, x.top.signals.len() as int)
            &&& forall|m: int| 0 <= m < x.modules.len() ==> #[trigger] scope_checked(x.modules[m])
        }),
{
    lemma_modules_spec(p.modules, 0, Seq::empty());
}

/// Cutting a value to a width twice is cutting it once.
pub proof fn law_mask_idempotent(v: u64, w: u64)
    ensures
        mask_value(mask_value(v, w), w) == mask_value(v, w),
{
    if w < 64 {
        let m = ((1u64 << w) - 1) as u64;
        assert((v & m) & m == v & m) by (bit_vector);
    }
}

/// `v` fits in `w` bits.
pub open spec fn fits(v: u64, w: u64) -> bool {
    mask_value(v, w) == v
}

proof fn lemma_comb_pass_fits(nodes: Seq<Node>, sigs: Seq<NetlistSignal>, vals: Seq<u64>, k: nat)
    requires
        netlist_wf(nodes, sigs),
        vals.len() == sigs.len(),
        k <= nodes.len(),
    ensures
        comb_pass(nodes, vals, k).len() == vals.len(),
        forall|i: int|
            0 <= i < sigs.len() && (exists|d: int| 0 <= d < k && #[trigger] drives(nodes, d, i, DriveKind::Combinational))
                ==> fits(comb_pass(nodes, vals, k)[i], sigs[i].width),
        forall|i: int|
            0 <= i < sigs.len() && !(exists|d: int| 0 <= d < k && #[trigger] drives(nodes, d, i, DriveKind::Combinational))
                ==> comb_pass(nodes, vals, k)[i] == vals[i],
    decreases k,
{
    if k > 0 {
        lemma_comb_pass_fits(nodes, sigs, vals, (k - 1) as nat);
        let v = comb_pass(nodes, vals, (k - 1) as nat);
        let d = k - 1;
        assert(nodes[d].refs_below(d, sigs.len() as int));
        match nodes[d] {
            Node::Drive { signal_id, source, kind: DriveKind::Combinational, width, .. } => {
                let x = node_value_at(nodes, source as int, v);
                law_mask_idempotent(x, width);
                assert(width == sigs[signal_id as int].width);
                assert(drives(nodes, d, signal_id as int, DriveKind::Combinational));
                assert forall|i: int|
                    0 <= i < sigs.len() && (exists|e: int| 0 <= e < k && #[trigger] drives(nodes, e, i, DriveKind::Combinational))
                        implies fits(comb_pass(nodes, vals, k)[i], sigs[i].width) by {
                    if i != signal_id {
                        let e = choose|e: int| 0 <= e < k && #[trigger] drives(nodes, e, i, DriveKind::Combinational);
                        assert(e != d);
                    }
                }
                assert forall|i: int|
                    0 <= i < sigs.len() && !(exists|e: int| 0 <= e < k && #[trigger] drives(nodes, e, i, DriveKind::Combinational))
                        implies comb_pass(nodes, vals, k)[i] == vals[i] by {
                    assert(i != signal_id);
                }
            },
            _ => {
                assert forall|i: int|
                    0 <= i < sigs.len() && (exists|e: int| 0 <= e < k && #[trigger] drives(nodes, e, i, DriveKind::Combinational))
                        implies fits(comb_pass(nodes, vals, k)[i], sigs[i].width) by {
                    let e = choose|e: int| 0 <= e < k && #[trigger] drives(nodes, e, i, DriveKind::Combinational);
                    assert(e != d);
                }
            },
        }
    }
}

spec fn node_value_at(nodes: Seq<Node>, id: int, vals: Seq<u64>) -> u64 {
    crate::simulator::node_value(nodes, id, vals)
}

proof fn lemma_settle_fits(nodes: Seq<Node>, sigs: Seq<NetlistSignal>, vals: Seq<u64>, fuel: nat)
    requires
        netlist_wf(nodes, sigs),
        vals.len() == sigs.len(),
        comb_settle(nodes, vals, fuel) is Some,
    ensures
        comb_settle(nodes, vals, fuel)->0.len() == vals.len(),
        forall|i: int|
            0 <= i < sigs.len() && (exists|d: int| #[trigger] drives(nodes, d, i, DriveKind::Combinational)) ==> fits(
                comb_settle(nodes, vals, fuel)->0[i],
                sigs[i].width,
            ),
    decreases fuel,
{
    let next = comb_pass(nodes, vals, nodes.len());
    lemma_comb_pass_fits(nodes, sigs, vals, nodes.len());
    if next == vals {
        assert forall|i: int|
            0 <= i < sigs.len() && (exists|d: int| #[trigger] drives(nodes, d, i, DriveKind::Combinational)) implies fits(
            vals[i],
            sigs[i].width,
        ) by {
            let d = choose|d: int| #[trigger] drives(nodes, d, i, DriveKind::Combinational);
            assert(0 <= d < nodes.len());
            assert(next[i] == vals[i]);
        }
    } else {
        lemma_settle_fits(nodes, sigs, next, (fuel - 1) as nat);
    }
}

proof fn lemma_seq_pass_fits(nodes: Seq<Node>, sigs: Seq<NetlistSignal>, start: Seq<u64>, next: Seq<u64>, k: nat)
    requires
        netlist_wf(nodes, sigs),
        next.len() == sigs.len(),
        k <= nodes.len(),
    ensures
        seq_pass(nodes, start, next, k).len() == next.len(),
        forall|i: int|
            0 <= i < sigs.len() && (exists|d: int| 0 <= d < k && #[trigger] drives(nodes, d, i, DriveKind::Sequential))
                ==> fits(seq_pass(nodes, start, next, k)[i], sigs[i].width),
        forall|i: int|
            0 <= i < sigs.len() && !(exists|d: int| 0 <= d < k && #[trigger] drives(nodes, d, i, DriveKind::Sequential))
                ==> seq_pass(nodes, start, next, k)[i] == next[i],
    decreases k,
{
    if k > 0 {
        lemma_seq_pass_fits(nodes, sigs, start, next, (k - 1) as nat);
        let d = k - 1;
        assert(nodes[d].refs_below(d, sigs.len() as int));
        match nodes[d] {
            Node::Drive { signal_id, source, kind: DriveKind::Sequential, width, .. } => {
                law_mask_idempotent(node_value_at(nodes, source as int, start), width);
                assert(width == sigs[signal_id as int].width);
                assert(drives(nodes, d, signal_id as int, DriveKind::Sequential));
                assert forall|i: int|
                    0 <= i < sigs.len() && (exists|e: int| 0 <= e < k && #[trigger] drives(nodes, e, i, DriveKind::Sequential))
                        implies fits(seq_pass(nodes, start, next, k)[i], sigs[i].width) by {
                    if i != signal_id {
                        let e = choose|e: int| 0 <= e < k && #[trigger] drives(nodes, e, i, DriveKind::Sequential);
                        assert(e != d);
                    }
                }
                assert forall|i: int|
                    0 <= i < sigs.len() && !(exists|e: int| 0 <= e < k && #[trigger] drives(nodes, e, i, DriveKind::Sequential))
                        implies seq_pass(nodes, start, next, k)[i] == next[i] by {
                    assert(i != signal_id);
                }
            },
            _ => {
                assert forall|i: int|
                    0 <= i < sigs.len() && (exists|e: int| 0 <= e < k && #[trigger] drives(nodes, e, i, DriveKind::Sequential))
                        implies fits(seq_pass(nodes, start, next, k)[i], sigs[i].width) by {
                    let e = choose|e: int| 0 <= e < k && #[trigger] drives(nodes, e, i, DriveKind::Sequential);
                    assert(e != d);
                }
            },
        }
    }
}

/// Some drive drives signal `i`.
pub open spec fn driven(nodes: Seq<Node>, i: int) -> bool {
    exists|d: int| drives(nodes, d, i, DriveKind::Combinational) || drives(nodes, d, i, DriveKind::Sequential)
}

/// After a cycle, every signal that some assignment drives holds a value
/// that fits its width: assignments store their value cut to the width of
/// their target.
pub proof fn law_step_values_fit_widths(nodes: Seq<Node>, sigs: Seq<NetlistSignal>, vals: Seq<u64>)
    requires
        netlist_wf(nodes, sigs),
        vals.len() == sigs.len(),
        step_values(nodes, vals) is Some,
    ensures
        step_values(nodes, vals)->0.len() == vals.len(),
        forall|i: int|
            0 <= i < sigs.len() && #[trigger] driven(nodes, i) ==> fits(step_values(nodes, vals)->0[i], sigs[i].width),
{
    let settled = comb_settle(nodes, vals, crate::simulator::MAX_COMB_ITERATIONS as nat)->0;
    lemma_settle_fits(nodes, sigs, vals, crate::simulator::MAX_COMB_ITERATIONS as nat);
    lemma_seq_pass_fits(nodes, sigs, vals, settled, nodes.len());
    let next = step_values(nodes, vals)->0;
    assert forall|i: int| 0 <= i < sigs.len() && #[trigger] driven(nodes, i) implies fits(
        step_values(nodes, vals)->0[i],
        sigs[i].width,
    ) by {
        let d = choose|d: int| drives(nodes, d, i, DriveKind::Combinational) || drives(nodes, d, i, DriveKind::Sequential);
        if drives(nodes, d, i, DriveKind::Sequential) {
            assert(0 <= d < nodes.len());
        } else {
            if exists|e: int| 0 <= e < nodes.len() && #[trigger] drives(nodes, e, i, DriveKind::Sequential) {
            } else {
                assert(next[i] == settled[i]);
            }
        }
    }
}

/// Number of `step`s among the steps of an `initial` procedure.
pub open spec fn step_count(steps: Seq<InitialStep>) -> nat
    decreases steps.len(),
{
    if steps.len() == 0 {
        0
    } else {
        (if steps[0] == InitialStep::Step {
            1nat
        } else {
            0nat
        }) + step_count(steps.drop_first())
    }
}

/// Running an `initial` procedure records one snapshot per `step`, at
/// consecutive cycles from the starting one.
pub proof fn law_initial_run_snapshots(
    nodes: Seq<Node>,
    steps: Seq<InitialStep>,
    widths: Seq<u64>,
    vals: Seq<u64>,
    cycle: u64,
)
    requires
        initial_run(nodes, steps, widths, vals, cycle) is Some,
        cycle + step_count(steps) <= u64::MAX,
    ensures
        initial_run(nodes, steps, widths, vals, cycle)->0.len() == step_count(steps),
        forall|j: int|
            0 <= j < step_count(steps) ==> (#[trigger] initial_run(nodes, steps, widths, vals, cycle)->0[j]).0 == cycle
                + j,
    decreases steps.len(),
{
    if steps.len() > 0 {
        match steps[0] {
            InitialStep::Assign { target, expr_node } => {
                let v2 = vals.update(
                    target as int,
                    mask_value(crate::simulator::node_value(nodes, expr_node as int, vals), widths[target as int]),
                );
                law_initial_run_snapshots(nodes, steps.drop_first(), widths, v2, cycle);
            },
            InitialStep::Step => {
                let next = step_values(nodes, vals)->0;
                law_initial_run_snapshots(nodes, steps.drop_first(), widths, next, (cycle + 1) as u64);
                let rest = initial_run(nodes, steps.drop_first(), widths, next, (cycle + 1) as u64)->0;
                let all = initial_run(nodes, steps, widths, vals, cycle)->0;
                assert(all == seq![(cycle, next)] + rest);
                assert forall|j: int| 0 <= j < step_count(steps) implies (#[trigger] all[j]).0 == cycle + j by {
                    if j > 0 {
                        assert(all[j] == rest[j - 1]);
                    }
                }
            },
        }
    }
}

/// No signal has two combinational drives.
pub open spec fn single_comb_drivers(nodes: Seq<Node>) -> bool {
    forall|d1: int, d2: int, i: int|
        #[trigger] drives(nodes, d1, i, DriveKind::Combinational) && #[trigger] drives(nodes, d2, i, DriveKind::Combinational)
            ==> d1 == d2
}

/// Nodes `k..n` hold no combinational drive of `i`: a pass through them
/// leaves `i` alone.
proof fn lemma_comb_pass_untouched(nodes: Seq<Node>, vals: Seq<u64>, k: nat, n: nat, i: int)
    requires
        k <= n <= nodes.len(),
        crate::netlist::nodes_wf(nodes, vals.len() as int),
        0 <= i < vals.len(),
        forall|d: int| k <= d < n ==> !#[trigger] drives(nodes, d, i, DriveKind::Combinational),
    ensures
        comb_pass(nodes, vals, n)[i] == comb_pass(nodes, vals, k)[i],
    decreases n - k,
{
    if n > k {
        lemma_comb_pass_untouched(nodes, vals, k, (n - 1) as nat, i);
        lemma_comb_pass_len(nodes, vals, (n - 1) as nat);
        let d = n - 1;
        assert(nodes[d].refs_below(d, vals.len() as int));
        assert(!drives(nodes, d, i, DriveKind::Combinational));
    }
}

proof fn lemma_comb_pass_len(nodes: Seq<Node>, vals: Seq<u64>, k: nat)
    requires
        k <= nodes.len(),
        crate::netlist::nodes_wf(nodes, vals.len() as int),
    ensures
        comb_pass(nodes, vals, k).len() == vals.len(),
    decreases k,
{
    if k > 0 {
        lemma_comb_pass_len(nodes, vals, (k - 1) as nat);
        assert(nodes[k - 1].refs_below(k - 1, vals.len() as int));
    }
}

/// A pass that changes nothing, over drives that each own their signal,
/// changes nothing at any point along the way.
proof fn lemma_fixpoint_prefix(nodes: Seq<Node>, s: Seq<u64>, k: nat)
    requires
        crate::netlist::nodes_wf(nodes, s.len() as int),
        single_comb_drivers(nodes),
        comb_pass(nodes, s, nodes.len()) == s,
        k <= nodes.len(),
    ensures
        comb_pass(nodes, s, k) == s,
    decreases k,
{
    if k > 0 {
        lemma_fixpoint_prefix(nodes, s, (k - 1) as nat);
        let d = k - 1;
        let v = comb_pass(nodes, s, (k - 1) as nat);
        assert(nodes[d].refs_below(d, s.len() as int));
        match nodes[d] {
            Node::Drive { signal_id, kind: DriveKind::Combinational, .. } => {
                let i = signal_id as int;
                assert(drives(nodes, d, i, DriveKind::Combinational));
                assert forall|e: int| k <= e < nodes.len() implies !#[trigger] drives(nodes, e, i, DriveKind::Combinational) by {
                    if drives(nodes, e, i, DriveKind::Combinational) {
                        assert(e == d);
                    }
                }
                lemma_comb_pass_untouched(nodes, s, k, nodes.len(), i);
                lemma_comb_pass_len(nodes, s, k);
                assert(comb_pass(nodes, s, k) =~= s);
            },
            _ => {},
        }
    }
}

/// When the combinational phase settles on values `s`, and no signal has
/// two combinational drives, every combinational drive's signal holds in `s`
/// the value of its source on `s`, cut to the drive's width: the settled
/// values satisfy every combinational assignment.
pub proof fn law_settled_values_satisfy_assignments(nodes: Seq<Node>, vals: Seq<u64>, fuel: nat)
    requires
        crate::netlist::nodes_wf(nodes, vals.len() as int),
        single_comb_drivers(nodes),
        comb_settle(nodes, vals, fuel) is Some,
    ensures
        ({
            let s = comb_settle(nodes, vals, fuel)->0;
            forall|d: int|
                0 <= d < nodes.len() ==> (#[trigger] nodes[d] matches Node::Drive {
                    signal_id,
                    source,
                    kind: DriveKind::Combinational,
                    width,
                    ..
                } ==> s[signal_id as int] == mask_value(crate::simulator::node_value(nodes, source as int, s), width))
        }),
    decreases fuel,
{
    let next = comb_pass(nodes, vals, nodes.len());
    lemma_comb_pass_len(nodes, vals, nodes.len());
    if next == vals {
        let s = vals;
        assert forall|d: int|
            0 <= d < nodes.len() implies (#[trigger] nodes[d] matches Node::Drive {
            signal_id,
            source,
            kind: DriveKind::Combinational,
            width,
            ..
        } ==> s[signal_id as int] == mask_value(crate::simulator::node_value(nodes, source as int, s), width)) by {
            assert(nodes[d].refs_below(d, s.len() as int));
            match nodes[d] {
                Node::Drive { signal_id, source, kind: DriveKind::Combinational, width, .. } => {
                    let i = signal_id as int;
                    lemma_fixpoint_prefix(nodes, s, d as nat);
                    assert(drives(nodes, d, i, DriveKind::Combinational));
                    assert forall|e: int| d + 1 <= e < nodes.len() implies !#[trigger] drives(
                        nodes,
                        e,
                        i,
                        DriveKind::Combinational,
                    ) by {
                        if drives(nodes, e, i, DriveKind::Combinational) {
                            assert(e == d);
                        }
                    }
                    lemma_comb_pass_untouched(nodes, s, (d + 1) as nat, nodes.len(), i);
                },
                _ => {},
            }
        }
    } else {
        law_settled_values_satisfy_assignments(nodes, next, (fuel - 1) as nat);
    }
}


/// No signal has two sequential drives.
pub open spec fn single_seq_drivers(nodes: Seq<Node>) -> bool {
    forall|d1: int, d2: int, i: int|
        #[trigger] drives(nodes, d1, i, DriveKind::Sequential) && #[trigger] drives(nodes, d2, i, DriveKind::Sequential)
            ==> d1 == d2
}

/// In a well-formed netlist, and so in every netlist that `build_netlist`
/// makes, no signal has two drives: each assignment target and each
/// instance input is driven once.
pub proof fn law_one_drive_per_signal(nodes: Seq<Node>, sigs: Seq<NetlistSignal>)
    requires
        netlist_wf(nodes, sigs),
    ensures
        forall|d1: int, d2: int, i: int, k1: DriveKind, k2: DriveKind|
            #[trigger] drives(nodes, d1, i, k1) && #[trigger] drives(nodes, d2, i, k2) ==> d1 == d2 && k1 == k2,
        single_comb_drivers(nodes),
        single_seq_drivers(nodes),
{
    assert forall|d1: int, d2: int, i: int, k1: DriveKind, k2: DriveKind|
        #[trigger] drives(nodes, d1, i, k1) && #[trigger] drives(nodes, d2, i, k2) implies d1 == d2 && k1 == k2 by {
        assert(sigs[i].driver_node == Some(d1 as usize));
        assert(sigs[i].driver_node == Some(d2 as usize));
    }
}

proof fn lemma_seq_pass_len(nodes: Seq<Node>, start: Seq<u64>, next: Seq<u64>, k: nat)
    requires
        k <= nodes.len(),
        crate::netlist::nodes_wf(nodes, next.len() as int),
    ensures
        seq_pass(nodes, start, next, k).len() == next.len(),
    decreases k,
{
    if k > 0 {
        lemma_seq_pass_len(nodes, start, next, (k - 1) as nat);
        assert(nodes[k - 1].refs_below(k - 1, next.len() as int));
    }
}

/// After a pass over the first `k` nodes, the signal of a sequential drive
/// among them holds its source's value on `start`, cut to the drive's width.
proof fn lemma_seq_pass_at(nodes: Seq<Node>, start: Seq<u64>, next: Seq<u64>, k: nat, d: int)
    requires
        crate::netlist::nodes_wf(nodes, next.len() as int),
        single_seq_drivers(nodes),
        0 <= d < k <= nodes.len(),
        nodes[d] is Drive,
        nodes[d]->Drive_kind == DriveKind::Sequential,
    ensures
        seq_pass(nodes, start, next, k)[nodes[d]->Drive_signal_id as int] == mask_value(
            crate::simulator::node_value(nodes, nodes[d]->Drive_source as int, start),
            nodes[d]->Drive_width,
        ),
    decreases k,
{
    let i = nodes[d]->Drive_signal_id as int;
    assert(nodes[d].refs_below(d, next.len() as int));
    lemma_seq_pass_len(nodes, start, next, (k - 1) as nat);
    if k - 1 != d {
        lemma_seq_pass_at(nodes, start, next, (k - 1) as nat, d);
        let e = k - 1;
        assert(nodes[e].refs_below(e, next.len() as int));
        assert(drives(nodes, d, i, DriveKind::Sequential));
        if drives(nodes, e, i, DriveKind::Sequential) {
            assert(e == d);
        }
    }
}

/// In a cycle, every sequential assignment is evaluated on the values at the
/// start of the cycle and applied at its end, cut to the width of its target;
/// every signal that no sequential assignment drives ends the cycle with the
/// value the combinational phase settled on.
pub proof fn law_step_registers_take_start_values(nodes: Seq<Node>, vals: Seq<u64>)
    requires
        crate::netlist::nodes_wf(nodes, vals.len() as int),
        single_seq_drivers(nodes),
        step_values(nodes, vals) is Some,
    ensures
        ({
            let next = step_values(nodes, vals)->0;
            let settled = comb_settle(nodes, vals, crate::simulator::MAX_COMB_ITERATIONS as nat)->0;
            &&& next.len() == vals.len()
            &&& forall|d: int|
                0 <= d < nodes.len() ==> (#[trigger] nodes[d] matches Node::Drive {
                    signal_id,
                    source,
                    kind: DriveKind::Sequential,
                    width,
                    ..
                } ==> next[signal_id as int] == mask_value(crate::simulator::node_value(nodes, source as int, vals), width))
            &&& forall|i: int|
                0 <= i < vals.len() && !(exists|d: int| #[trigger] drives(nodes, d, i, DriveKind::Sequential))
                    ==> next[i] == settled[i]
        }),
{
    let settled = comb_settle(nodes, vals, crate::simulator::MAX_COMB_ITERATIONS as nat)->0;
    lemma_settle_len(nodes, vals, crate::simulator::MAX_COMB_ITERATIONS as nat);
    lemma_seq_pass_len(nodes, vals, settled, nodes.len());
    let next = step_values(nodes, vals)->0;
    assert forall|d: int|
        0 <= d < nodes.len() implies (#[trigger] nodes[d] matches Node::Drive {
        signal_id,
        source,
        kind: DriveKind::Sequential,
        width,
        ..
    } ==> next[signal_id as int] == mask_value(crate::simulator::node_value(nodes, source as int, vals), width)) by {
        if nodes[d] is Drive && nodes[d]->Drive_kind == DriveKind::Sequential {
            lemma_seq_pass_at(nodes, vals, settled, nodes.len(), d);
        }
    }
    assert forall|i: int|
        0 <= i < vals.len() && !(exists|d: int| #[trigger] drives(nodes, d, i, DriveKind::Sequential)) implies next[i]
        == settled[i] by {
        lemma_seq_pass_untouched(nodes, vals, settled, nodes.len(), i);
    }
}

proof fn lemma_seq_pass_untouched(nodes: Seq<Node>, start: Seq<u64>, next: Seq<u64>, k: nat, i: int)
    requires
        k <= nodes.len(),
        crate::netlist::nodes_wf(nodes, next.len() as int),
        0 <= i < next.len(),
        !(exists|d: int| #[trigger] drives(nodes, d, i, DriveKind::Sequential)),
    ensures
        seq_pass(nodes, start, next, k)[i] == next[i],
    decreases k,
{
    if k > 0 {
        lemma_seq_pass_untouched(nodes, start, next, (k - 1) as nat, i);
        lemma_seq_pass_len(nodes, start, next, (k - 1) as nat);
        let e = k - 1;
        assert(nodes[e].refs_below(e, next.len() as int));
        assert(!drives(nodes, e, i, DriveKind::Sequential));
    }
}

proof fn lemma_settle_len(nodes: Seq<Node>, vals: Seq<u64>, fuel: nat)
    requires
        crate::netlist::nodes_wf(nodes, vals.len() as int),
        comb_settle(nodes, vals, fuel) is Some,
    ensures
        comb_settle(nodes, vals, fuel)->0.len() == vals.len(),
    decreases fuel,
{
    let next = comb_pass(nodes, vals, nodes.len());
    lemma_comb_pass_len(nodes, vals, nodes.len());
    if next != vals {
        lemma_settle_len(nodes, next, (fuel - 1) as nat);
    }
}


/// A combinational drive that computes `e` leaves its signal holding the
/// value of `e` on the settled values, cut to the signal's width.
proof fn lemma_comb_fact_settled(
    nodes: Seq<Node>,
    sigs: Seq<NetlistSignal>,
    vals: Seq<u64>,
    fuel: nat,
    sig: int,
    e: SRExpr,
    remap: Seq<usize>,
    irs: Seq<IrView>,
    mods: Seq<SRModule>,
)
    requires
        netlist_wf(nodes, sigs),
        single_comb_drivers(nodes),
        vals.len() == sigs.len(),
        comb_settle(nodes, vals, fuel) is Some,
        drive_fact(nodes, sigs.len() as int, sig, DriveKind::Combinational, e, remap, irs, mods),
    ensures
        ({
            let s = comb_settle(nodes, vals, fuel)->0;
            s[sig] == mask_value(rexpr_value(e, remap, irs, mods, s), sigs[sig].width)
        }),
{
    let s = comb_settle(nodes, vals, fuel)->0;
    lemma_settle_len(nodes, vals, fuel);
    law_settled_values_satisfy_assignments(nodes, vals, fuel);
    let d = choose|d: int|
        #[trigger] drives(nodes, d, sig, DriveKind::Combinational) && forall|v: Seq<u64>|
            v.len() >= sigs.len() ==> crate::simulator::node_value(nodes, d, v) == rexpr_value(e, remap, irs, mods, v);
    assert(nodes[d].refs_below(d, sigs.len() as int));
    assert(crate::simulator::node_value(nodes, d, s) == rexpr_value(e, remap, irs, mods, s));
}

/// A sequential drive that computes `e` leaves its signal, after a cycle
/// from `vals`, holding the value of `e` on `vals`, cut to the signal's width.
proof fn lemma_seq_fact_step(
    nodes: Seq<Node>,
    sigs: Seq<NetlistSignal>,
    vals: Seq<u64>,
    sig: int,
    e: SRExpr,
    remap: Seq<usize>,
    irs: Seq<IrView>,
    mods: Seq<SRModule>,
)
    requires
        netlist_wf(nodes, sigs),
        single_seq_drivers(nodes),
        vals.len() == sigs.len(),
        step_values(nodes, vals) is Some,
        drive_fact(nodes, sigs.len() as int, sig, DriveKind::Sequential, e, remap, irs, mods),
    ensures
        step_values(nodes, vals)->0[sig] == mask_value(rexpr_value(e, remap, irs, mods, vals), sigs[sig].width),
{
    law_step_registers_take_start_values(nodes, vals);
    let d = choose|d: int|
        #[trigger] drives(nodes, d, sig, DriveKind::Sequential) && forall|v: Seq<u64>|
            v.len() >= sigs.len() ==> crate::simulator::node_value(nodes, d, v) == rexpr_value(e, remap, irs, mods, v);
    assert(nodes[d].refs_below(d, sigs.len() as int));
    assert(crate::simulator::node_value(nodes, d, vals) == rexpr_value(e, remap, irs, mods, vals));
}

/// The netlist of a design carries its top-level assignments into the
/// simulation: once the combinational phase settles, each top-level `t = e`
/// holds on the settled values, and after a cycle each top-level `t <= e` has
/// given `t` the value of `e` at the start of the cycle; both cut to the
/// declared width of `t`.
pub proof fn law_top_assignments_in_simulation(
    x: SElaborated,
    nodes: Seq<Node>,
    sigs: Seq<NetlistSignal>,
    initial: Seq<InitialStep>,
    vals: Seq<u64>,
)
    requires
        elab_wf(x),
        netlist_of(x, nodes, sigs, initial),
        vals.len() == sigs.len(),
    ensures
        ({
            let fuel = crate::simulator::MAX_COMB_ITERATIONS as nat;
            let s = comb_settle(nodes, vals, fuel)->0;
            let next = step_values(nodes, vals)->0;
            &&& comb_settle(nodes, vals, fuel) is Some ==> forall|t: int|
                0 <= t < x.top.stmts.len() && (#[trigger] x.top.stmts[t]) is Combinational
                    ==> s[x.top.stmts[t].target_id() as int] == mask_value(
                    rexpr_value(x.top.stmts[t].expr(), top_remap(x), flat_irs(x), x.modules, s),
                    x.top.signals[x.top.stmts[t].target_id() as int].width,
                )
            &&& step_values(nodes, vals) is Some ==> forall|t: int|
                0 <= t < x.top.stmts.len() && (#[trigger] x.top.stmts[t]) is Sequential
                    ==> next[x.top.stmts[t].target_id() as int] == mask_value(
                    rexpr_value(x.top.stmts[t].expr(), top_remap(x), flat_irs(x), x.modules, vals),
                    x.top.signals[x.top.stmts[t].target_id() as int].width,
                )
        }),
{
    let fuel = crate::simulator::MAX_COMB_ITERATIONS as nat;
    let n = x.top.signals.len() as int;
    law_one_drive_per_signal(nodes, sigs);
    if comb_settle(nodes, vals, fuel) is Some {
        let s = comb_settle(nodes, vals, fuel)->0;
        assert forall|t: int|
            0 <= t < x.top.stmts.len() && (#[trigger] x.top.stmts[t]) is Combinational implies s[x.top.stmts[t].target_id() as int]
            == mask_value(
            rexpr_value(x.top.stmts[t].expr(), top_remap(x), flat_irs(x), x.modules, s),
            x.top.signals[x.top.stmts[t].target_id() as int].width,
        ) by {
            let st = x.top.stmts[t];
            let k = st.target_id() as int;
            assert(k < n);
            assert(sigs[k].width == x.top.signals[k].width);
            lemma_comb_fact_settled(nodes, sigs, vals, fuel, k, st.expr(), top_remap(x), flat_irs(x), x.modules);
        }
    }
    if step_values(nodes, vals) is Some {
        assert forall|t: int|
            0 <= t < x.top.stmts.len() && (#[trigger] x.top.stmts[t]) is Sequential implies step_values(nodes, vals)->0[x.top.stmts[t].target_id() as int]
            == mask_value(
            rexpr_value(x.top.stmts[t].expr(), top_remap(x), flat_irs(x), x.modules, vals),
            x.top.signals[x.top.stmts[t].target_id() as int].width,
        ) by {
            let st = x.top.stmts[t];
            let k = st.target_id() as int;
            assert(k < n);
            assert(sigs[k].width == x.top.signals[k].width);
            lemma_seq_fact_step(nodes, sigs, vals, k, st.expr(), top_remap(x), flat_irs(x), x.modules);
        }
    }
}

/// The same holds inside every instance: each assignment of the instance's
/// module body drives the instance's copy of its target, computed over the
/// instance's own signals, and cut to the target's declared width.
pub proof fn law_instance_assignments_in_simulation(
    x: SElaborated,
    nodes: Seq<Node>,
    sigs: Seq<NetlistSignal>,
    initial: Seq<InitialStep>,
    vals: Seq<u64>,
)
    requires
        elab_wf(x),
        netlist_of(x, nodes, sigs, initial),
        vals.len() == sigs.len(),
    ensures
        ({
            let fuel = crate::simulator::MAX_COMB_ITERATIONS as nat;
            let s = comb_settle(nodes, vals, fuel)->0;
            let next = step_values(nodes, vals)->0;
            let insts = x.top.instances;
            let mv = x.modules;
            let n = x.top.signals.len() as int;
            &&& comb_settle(nodes, vals, fuel) is Some ==> forall|i: int, t: int|
                0 <= i < insts.len() && 0 <= t < mv[find_module(mv, insts[i].module_name)].body.stmts.len() && (
                #[trigger] mv[find_module(mv, insts[i].module_name)].body.stmts[t]) is Combinational ==> s[inst_start(
                    insts,
                    mv,
                    n,
                    i,
                ) + mv[find_module(mv, insts[i].module_name)].body.stmts[t].target_id()] == mask_value(
                    rexpr_value(
                        mv[find_module(mv, insts[i].module_name)].body.stmts[t].expr(),
                        inst_remap_of(x, i),
                        Seq::empty(),
                        mv,
                        s,
                    ),
                    mv[find_module(mv, insts[i].module_name)].body.signals[mv[find_module(
                        mv,
                        insts[i].module_name,
                    )].body.stmts[t].target_id() as int].width,
                )
            &&& step_values(nodes, vals) is Some ==> forall|i: int, t: int|
                0 <= i < insts.len() && 0 <= t < mv[find_module(mv, insts[i].module_name)].body.stmts.len() && (
                #[trigger] mv[find_module(mv, insts[i].module_name)].body.stmts[t]) is Sequential ==> next[inst_start(
                    insts,
                    mv,
                    n,
                    i,
                ) + mv[find_module(mv, insts[i].module_name)].body.stmts[t].target_id()] == mask_value(
                    rexpr_value(
                        mv[find_module(mv, insts[i].module_name)].body.stmts[t].expr(),
                        inst_remap_of(x, i),
                        Seq::empty(),
                        mv,
                        vals,
                    ),
                    mv[find_module(mv, insts[i].module_name)].body.signals[mv[find_module(
                        mv,
                        insts[i].module_name,
                    )].body.stmts[t].target_id() as int].width,
                )
        }),
{
    let fuel = crate::simulator::MAX_COMB_ITERATIONS as nat;
    let insts = x.top.instances;
    let mv = x.modules;
    let n = x.top.signals.len() as int;
    law_one_drive_per_signal(nodes, sigs);
    assert forall|i: int, t: int|
        #![trigger mv[find_module(mv, insts[i].module_name)].body.stmts[t]]
        0 <= i < insts.len() && 0 <= t < mv[find_module(mv, insts[i].module_name)].body.stmts.len() implies {
        let m = mv[find_module(mv, insts[i].module_name)];
        let k = m.body.stmts[t].target_id() as int;
        &&& (m.body.stmts[t] is Combinational && comb_settle(nodes, vals, fuel) is Some)
            ==> comb_settle(nodes, vals, fuel)->0[inst_start(insts, mv, n, i) + k] == mask_value(
            rexpr_value(m.body.stmts[t].expr(), inst_remap_of(x, i), Seq::empty(), mv, comb_settle(nodes, vals, fuel)->0),
            m.body.signals[k].width,
        )
        &&& (m.body.stmts[t] is Sequential && step_values(nodes, vals) is Some)
            ==> step_values(nodes, vals)->0[inst_start(insts, mv, n, i) + k] == mask_value(
            rexpr_value(m.body.stmts[t].expr(), inst_remap_of(x, i), Seq::empty(), mv, vals),
            m.body.signals[k].width,
        )
    } by {
        let mi = find_module(mv, insts[i].module_name);
        assert(instance_wf(x, i));
        lemma_find_module_range(mv, insts[i].module_name);
        assert(module_wf(mv[mi]));
        let m = mv[mi];
        let st = m.body.stmts[t];
        let k = st.target_id() as int;
        assert(k < m.body.signals.len());
        let g = inst_start(insts, mv, n, i) + k;
        assert(sigs[g].width == m.body.signals[k].width);
        if st is Combinational && comb_settle(nodes, vals, fuel) is Some {
            lemma_comb_fact_settled(nodes, sigs, vals, fuel, g, st.expr(), inst_remap_of(x, i), Seq::empty(), mv);
        }
        if st is Sequential && step_values(nodes, vals) is Some {
            lemma_seq_fact_step(nodes, sigs, vals, g, st.expr(), inst_remap_of(x, i), Seq::empty(), mv);
        }
    }
}

/// Once the combinational phase settles, every input port of every instance
/// holds the value of the expression connected to it, computed over the
/// top-level signals and the outputs of earlier instances, cut to the port's
/// declared width.
pub proof fn law_instance_inputs_follow_connections(
    x: SElaborated,
    nodes: Seq<Node>,
    sigs: Seq<NetlistSignal>,
    initial: Seq<InitialStep>,
    vals: Seq<u64>,
)
    requires
        elab_wf(x),
        netlist_of(x, nodes, sigs, initial),
        vals.len() == sigs.len(),
        comb_settle(nodes, vals, crate::simulator::MAX_COMB_ITERATIONS as nat) is Some,
    ensures
        ({
            let s = comb_settle(nodes, vals, crate::simulator::MAX_COMB_ITERATIONS as nat)->0;
            let insts = x.top.instances;
            let mv = x.modules;
            let n = x.top.signals.len() as int;
            forall|i: int, p: int|
                0 <= i < insts.len() && 0 <= p < mv[find_module(mv, insts[i].module_name)].ports.len() && (
                #[trigger] mv[find_module(mv, insts[i].module_name)].ports[p]).direction == Direction::Input
                    ==> s[inst_start(insts, mv, n, i) + mv[find_module(mv, insts[i].module_name)].ports[p].signal_id]
                    == mask_value(
                    rexpr_value(
                        conn_expr(insts[i].connections, mv[find_module(mv, insts[i].module_name)].ports[p].name),
                        top_remap(x),
                        flat_irs(x).take(i),
                        mv,
                        s,
                    ),
                    mv[find_module(mv, insts[i].module_name)].body.signals[mv[find_module(
                        mv,
                        insts[i].module_name,
                    )].ports[p].signal_id as int].width,
                )
        }),
{
    let fuel = crate::simulator::MAX_COMB_ITERATIONS as nat;
    let insts = x.top.instances;
    let mv = x.modules;
    let n = x.top.signals.len() as int;
    law_one_drive_per_signal(nodes, sigs);
    assert forall|i: int, p: int|
        0 <= i < insts.len() && 0 <= p < mv[find_module(mv, insts[i].module_name)].ports.len() && (
        #[trigger] mv[find_module(mv, insts[i].module_name)].ports[p]).direction == Direction::Input implies comb_settle(
        nodes,
        vals,
        fuel,
    )->0[inst_start(insts, mv, n, i) + mv[find_module(mv, insts[i].module_name)].ports[p].signal_id] == mask_value(
        rexpr_value(
            conn_expr(insts[i].connections, mv[find_module(mv, insts[i].module_name)].ports[p].name),
            top_remap(x),
            flat_irs(x).take(i),
            mv,
            comb_settle(nodes, vals, fuel)->0,
        ),
        mv[find_module(mv, insts[i].module_name)].body.signals[mv[find_module(
            mv,
            insts[i].module_name,
        )].ports[p].signal_id as int].width,
    ) by {
        let mi = find_module(mv, insts[i].module_name);
        assert(instance_wf(x, i));
        lemma_find_module_range(mv, insts[i].module_name);
        assert(module_wf(mv[mi]));
        let m = mv[mi];
        let k = m.ports[p].signal_id as int;
        assert(k < m.body.signals.len());
        let g = inst_start(insts, mv, n, i) + k;
        assert(sigs[g].width == m.body.signals[k].width);
        lemma_comb_fact_settled(
            nodes,
            sigs,
            vals,
            fuel,
            g,
            conn_expr(insts[i].connections, m.ports[p].name),
            top_remap(x),
            flat_irs(x).take(i),
            mv,
        );
    }
}

proof fn lemma_settle_untouched(nodes: Seq<Node>, vals: Seq<u64>, fuel: nat, i: int)
    requires
        crate::netlist::nodes_wf(nodes, vals.len() as int),
        0 <= i < vals.len(),
        !(exists|d: int| #[trigger] drives(nodes, d, i, DriveKind::Combinational)),
        comb_settle(nodes, vals, fuel) is Some,
    ensures
        comb_settle(nodes, vals, fuel)->0[i] == vals[i],
    decreases fuel,
{
    let next = comb_pass(nodes, vals, nodes.len());
    lemma_comb_pass_len(nodes, vals, nodes.len());
    lemma_comb_pass_untouched(nodes, vals, 0, nodes.len(), i);
    if next != vals {
        lemma_settle_untouched(nodes, next, (fuel - 1) as nat, i);
    }
}

/// A signal that no assignment drives keeps its value across a cycle: a value
/// set on it from outside, or by an `initial` procedure, stays until set again.
pub proof fn law_undriven_signals_keep_values(nodes: Seq<Node>, vals: Seq<u64>, i: int)
    requires
        crate::netlist::nodes_wf(nodes, vals.len() as int),
        0 <= i < vals.len(),
        !(exists|d: int| #[trigger] drives(nodes, d, i, DriveKind::Combinational)),
        !(exists|d: int| #[trigger] drives(nodes, d, i, DriveKind::Sequential)),
        step_values(nodes, vals) is Some,
    ensures
        step_values(nodes, vals)->0[i] == vals[i],
{
    let fuel = crate::simulator::MAX_COMB_ITERATIONS as nat;
    let settled = comb_settle(nodes, vals, fuel)->0;
    lemma_settle_len(nodes, vals, fuel);
    lemma_settle_untouched(nodes, vals, fuel, i);
    lemma_seq_pass_untouched(nodes, vals, settled, nodes.len(), i);
}

/// A combinational loop that elaboration reports is a real one: the signals
/// it names, in order, each feed the next through a combinational
/// assignment, and the last is the first.
pub proof fn law_reported_loop_is_a_cycle(sigs: Seq<SRSignal>, stmts: Seq<SRStmt>)
    requires
        stmts_below(stmts, sigs.len() as int),
        first_cycle(stmts, sigs.len() as int) is Found,
    ensures
        exists|c: Seq<int>|
            is_comb_cycle(stmts, sigs.len() as int, c) && loop_names(sigs, stmts) == c.map_values(
                |v: int| sigs[v].name,
            ),
{
    let n = sigs.len() as int;
    let g = dep_graph(stmts, n, stmts.len() as int);
    let white = Seq::new(n as nat, |v: int| crate::comb_graph::WHITE);
    lemma_dep_graph_ok(stmts, n, stmts.len() as int);
    lemma_search_all_sound(g, white, 0, n, (n + 1) as nat);
    let c = first_cycle(stmts, n)->Found_0;
    assert(is_list_cycle(g, c));
    let ci = c.map_values(|v: usize| v as int);
    assert forall|i: int| 0 <= i < ci.len() - 1 implies comb_edge(stmts, #[trigger] ci[i], ci[i + 1]) && 0 <= ci[i] < n
        && 0 <= ci[i + 1] < n by {
        let u = c[i] as int;
        assert(g[u].contains(c[i + 1]));
        let k = choose|k: int| 0 <= k < g[u].len() && g[u][k] == c[i + 1];
        assert(g[u][k] < n && comb_edge(stmts, u, g[u][k] as int));
    }
    assert forall|i: int| 0 <= i < ci.len() implies 0 <= #[trigger] ci[i] < n by {
        if i < ci.len() - 1 {
            assert(0 <= ci[i] < n && 0 <= ci[i + 1] < n);
        } else {
            assert(0 <= ci[i - 1] < n && 0 <= ci[i - 1 + 1] < n);
        }
    }
    assert(is_comb_cycle(stmts, n, ci));
    assert(loop_names(sigs, stmts) =~= ci.map_values(|v: int| sigs[v].name));
}

proof fn lemma_skip_ws_bounds(s: Seq<char>, p: int)
    requires
        0 <= p <= s.len(),
    ensures
        p <= skip_ws(s, p) <= s.len(),
    decreases s.len() - p,
{
    if p < s.len() && crate::lexer::is_ascii_ws(s[p]) {
        lemma_skip_ws_bounds(s, p + 1);
    }
}

proof fn lemma_ident_end_bounds(s: Seq<char>, p: int)
    requires
        0 <= p <= s.len(),
    ensures
        p <= ident_end(s, p) <= s.len(),
    decreases s.len() - p,
{
    if p < s.len() && crate::token::is_ident_cont(s[p]) {
        lemma_ident_end_bounds(s, p + 1);
    }
}

proof fn lemma_digits_end_bounds(s: Seq<char>, p: int)
    requires
        0 <= p <= s.len(),
    ensures
        p <= digits_end(s, p) <= s.len(),
    decreases s.len() - p,
{
    if p < s.len() && crate::token::is_digit(s[p]) {
        lemma_digits_end_bounds(s, p + 1);
    }
}

/// One call of the lexer from position `p`: it stays within the text; a
/// token other than `Eof` consumes at least one character; and once `Eof`
/// comes, the next call gives `Eof` again at the same position.
pub proof fn law_lexer_step(s: Seq<char>, p: int)
    requires
        0 <= p <= s.len(),
    ensures
        lex_at(s, p).1 <= s.len(),
        !(lex_at(s, p).0 is Eof) ==> p < lex_at(s, p).1,
        lex_at(s, p).0 is Eof ==> lex_at(s, lex_at(s, p).1) == (SToken::Eof, lex_at(s, p).1),
{
    let q = skip_ws(s, p);
    lemma_skip_ws_bounds(s, p);
    if q < s.len() {
        if crate::token::is_ident_start(s[q]) {
            lemma_ident_end_bounds(s, q + 1);
            assert(ident_end(s, q) == ident_end(s, q + 1));
        } else if crate::token::is_digit(s[q]) {
            lemma_digits_end_bounds(s, q + 1);
            assert(digits_end(s, q) == digits_end(s, q + 1));
        }
    } else {
        assert(skip_ws(s, q) == q);
    }
}

/// The position of a lexer that started at `p`, after `n` calls.
pub open spec fn lex_pos_after(s: Seq<char>, p: int, n: nat) -> int
    decreases n,
{
    if n == 0 {
        p
    } else {
        lex_pos_after(s, lex_at(s, p).1, (n - 1) as nat)
    }
}

proof fn lemma_eof_stays(s: Seq<char>, p: int, n: nat)
    requires
        0 <= p <= s.len(),
        lex_at(s, p).0 is Eof,
    ensures
        lex_pos_after(s, p, n) == lex_at(s, p).1 || lex_pos_after(s, p, n) == p,
        lex_at(s, lex_pos_after(s, p, n)).0 is Eof,
    decreases n,
{
    law_lexer_step(s, p);
    if n > 0 {
        let q = lex_at(s, p).1;
        law_lexer_step(s, q);
        lemma_eof_stays(s, q, (n - 1) as nat);
    }
}

/// A lexer over `s` that starts at position `p` gives `Eof` after at most
/// as many calls as characters remain, and then `Eof` on every later call.
pub proof fn law_lexer_reaches_eof(s: Seq<char>, p: int, n: nat)
    requires
        0 <= p <= s.len(),
        n >= s.len() - p,
    ensures
        lex_at(s, lex_pos_after(s, p, n)).0 is Eof,
    decreases n,
{
    law_lexer_step(s, p);
    if lex_at(s, p).0 is Eof {
        lemma_eof_stays(s, p, n);
    } else {
        let q = lex_at(s, p).1;
        assert(n > 0);
        law_lexer_reaches_eof(s, q, (n - 1) as nat);
    }
}

/// Every name in `e` resolves: each signal name is declared in `sigs`, and
/// each `instance.field` names an instance of `insts` whose module (in
/// `mods`) has an output port `field`.
pub open spec fn refs_resolve(
    e: SExpr,
    sigs: Seq<SRSignal>,
    insts: Seq<(Seq<char>, Seq<char>)>,
    mods: Seq<SRModule>,
) -> bool
    decreases e,
{
    match e {
        SExpr::Ident(n) => find_signal(sigs, n) >= 0,
        SExpr::FieldAccess { instance, field } => {
            let ii = find_instance(insts, instance);
            let mi = find_module(mods, insts[ii].1);
            let pi = find_port(mods[mi].ports, field);
            &&& ii >= 0
            &&& mi >= 0
            &&& pi >= 0
            &&& mods[mi].ports[pi].direction == Direction::Output
        },
        SExpr::BinOp { lhs, rhs, .. } => refs_resolve(*lhs, sigs, insts, mods) && refs_resolve(*rhs, sigs, insts, mods),
        SExpr::UnaryOp { expr, .. } => refs_resolve(*expr, sigs, insts, mods),
        SExpr::Ternary { cond, then_branch, else_branch } => refs_resolve(*cond, sigs, insts, mods) && refs_resolve(
            *then_branch,
            sigs,
            insts,
            mods,
        ) && refs_resolve(*else_branch, sigs, insts, mods),
        _ => true,
    }
}

/// `e` node for node, each signal name replaced by its id in `sigs` and
/// each `instance.field` by a read of that instance's port.
pub open spec fn resolved_form(e: SExpr, sigs: Seq<SRSignal>) -> SRExpr
    decreases e,
{
    match e {
        SExpr::Ident(n) => SRExpr::Ident(find_signal(sigs, n) as usize),
        SExpr::Number(n) => SRExpr::Number(n),
        SExpr::BitVecLiteral { width, value } => SRExpr::BitVecLiteral { width, value },
        SExpr::FieldAccess { instance, field } => SRExpr::InstanceField { instance_name: instance, port_name: field },
        SExpr::BinOp { op, lhs, rhs } => SRExpr::BinOp {
            op,
            lhs: Box::new(resolved_form(*lhs, sigs)),
            rhs: Box::new(resolved_form(*rhs, sigs)),
        },
        SExpr::UnaryOp { op, expr } => SRExpr::UnaryOp { op, expr: Box::new(resolved_form(*expr, sigs)) },
        SExpr::Ternary { cond, then_branch, else_branch } => SRExpr::Ternary {
            cond: Box::new(resolved_form(*cond, sigs)),
            then_branch: Box::new(resolved_form(*then_branch, sigs)),
            else_branch: Box::new(resolved_form(*else_branch, sigs)),
        },
    }
}

/// Resolving an expression succeeds exactly when every name in it resolves,
/// and then gives the expression node for node with names replaced by what
/// they refer to.
pub proof fn law_resolve_expr(
    e: SExpr,
    sigs: Seq<SRSignal>,
    insts: Seq<(Seq<char>, Seq<char>)>,
    mods: Seq<SRModule>,
)
    ensures
        (resolve_expr_spec(e, sigs, insts, mods) is Ok) == refs_resolve(e, sigs, insts, mods),
        resolve_expr_spec(e, sigs, insts, mods) is Ok ==> resolve_expr_spec(e, sigs, insts, mods)->Ok_0
            == resolved_form(e, sigs),
    decreases e,
{
    match e {
        SExpr::BinOp { lhs, rhs, .. } => {
            law_resolve_expr(*lhs, sigs, insts, mods);
            law_resolve_expr(*rhs, sigs, insts, mods);
        },
        SExpr::UnaryOp { expr, .. } => {
            law_resolve_expr(*expr, sigs, insts, mods);
        },
        SExpr::Ternary { cond, then_branch, else_branch } => {
            law_resolve_expr(*cond, sigs, insts, mods);
            law_resolve_expr(*then_branch, sigs, insts, mods);
            law_resolve_expr(*else_branch, sigs, insts, mods);
        },
        _ => {},
    }
}

/// Running `n` cycles is taking `n` steps in turn: the first state is one
/// step from the start, and each next state is one step from the one before.
/// It fails exactly when one of those steps does not settle.
pub proof fn law_run_is_successive_steps(nodes: Seq<Node>, vals: Seq<u64>, n: nat)
    ensures
        run_values(nodes, vals, n) matches Some(all) ==> {
            &&& all.len() == n
            &&& n > 0 ==> step_values(nodes, vals) == Some(all[0])
            &&& forall|k: int| 0 <= k < n - 1 ==> step_values(nodes, #[trigger] all[k]) == Some(all[k + 1])
        },
        run_values(nodes, vals, n) is None ==> n > 0 && (step_values(nodes, vals) is None || run_values(
            nodes,
            step_values(nodes, vals)->0,
            (n - 1) as nat,
        ) is None),
    decreases n,
{
    if n > 0 {
        if let Some(next) = step_values(nodes, vals) {
            law_run_is_successive_steps(nodes, next, (n - 1) as nat);
            if let Some(all) = run_values(nodes, vals, n) {
                lemma_run_values_len(nodes, vals, n);
                let rest = run_values(nodes, next, (n - 1) as nat)->0;
                assert(all == seq![next] + rest);
                assert forall|k: int| 0 <= k < n - 1 implies step_values(nodes, #[trigger] all[k]) == Some(all[k + 1]) by {
                    assert(all[k + 1] == rest[k]);
                    if k > 0 {
                        assert(all[k] == rest[k - 1]);
                    }
                }
            }
        }
    }
}

/// What each binary operator computes on two 64-bit operands: the logical
/// and comparison operators give 1 for true and 0 for false (comparisons
/// unsigned); `|`, `^`, `&` work bit by bit; shifts by 64 or more give 0;
/// `+`, `-`, `*` wrap around modulo 2^64; division and remainder by 0 give 0.
pub proof fn law_binop_values(op: BinOp, l: u64, r: u64)
    ensures
        op == BinOp::Or ==> binop_value(op, l, r) == (if l != 0 || r != 0 { 1u64 } else { 0u64 }),
        op == BinOp::And ==> binop_value(op, l, r) == (if l != 0 && r != 0 { 1u64 } else { 0u64 }),
        op == BinOp::BitOr ==> binop_value(op, l, r) == l | r,
        op == BinOp::Xor ==> binop_value(op, l, r) == l ^ r,
        op == BinOp::BitAnd ==> binop_value(op, l, r) == l & r,
        op == BinOp::Eq ==> binop_value(op, l, r) == (if l == r { 1u64 } else { 0u64 }),
        op == BinOp::Neq ==> binop_value(op, l, r) == (if l != r { 1u64 } else { 0u64 }),
        op == BinOp::Lt ==> binop_value(op, l, r) == (if l < r { 1u64 } else { 0u64 }),
        op == BinOp::Le ==> binop_value(op, l, r) == (if l <= r { 1u64 } else { 0u64 }),
        op == BinOp::Gt ==> binop_value(op, l, r) == (if l > r { 1u64 } else { 0u64 }),
        op == BinOp::Ge ==> binop_value(op, l, r) == (if l >= r { 1u64 } else { 0u64 }),
        (op == BinOp::Shl || op == BinOp::AShl) ==> binop_value(op, l, r) == (if r < 64 { l << r } else { 0u64 }),
        (op == BinOp::Shr || op == BinOp::AShr) ==> binop_value(op, l, r) == (if r < 64 { l >> r } else { 0u64 }),
        op == BinOp::Add ==> binop_value(op, l, r) as int == (l + r) % 0x1_0000_0000_0000_0000,
        op == BinOp::Sub ==> binop_value(op, l, r) as int == (l - r) % 0x1_0000_0000_0000_0000,
        op == BinOp::Mul ==> binop_value(op, l, r) as int == (l * r) % 0x1_0000_0000_0000_0000,
        op == BinOp::Div ==> binop_value(op, l, r) == (if r == 0 { 0 } else { l / r }),
        op == BinOp::Mod ==> binop_value(op, l, r) == (if r == 0 { 0 } else { l % r }),
{
}

/// `!` gives 1 for 0 and 0 otherwise; `~` flips every bit of the 64.
pub proof fn law_unop_values(v: u64)
    ensures
        unop_value(UnOp::Not, v) == (if v == 0 { 1u64 } else { 0u64 }),
        unop_value(UnOp::BitNot, v) == u64::MAX - v,
{
    assert(!v == u64::MAX - v) by (bit_vector);
}

/// Cutting to a width below 64 keeps the value modulo 2^width; a width of 64
/// or more keeps it whole.
pub proof fn law_mask_is_modulo(v: u64, w: u64)
    ensures
        w < 64 ==> mask_value(v, w) as int == (v as int) % (vstd::arithmetic::power2::pow2(w as nat) as int),
        w >= 64 ==> mask_value(v, w) == v,
{
    if w < 64 {
        vstd::bits::lemma_u64_pow2_no_overflow(w as nat);
        vstd::arithmetic::power2::lemma_pow2_pos(w as nat);
        vstd::bits::lemma_u64_shl_is_mul(1, w);
        vstd::bits::lemma_u64_low_bits_mask_is_mod(v, w as nat);
        assert(vstd::bits::low_bits_mask(w as nat) as u64 == ((1u64 << w) - 1) as u64);
    }
}

/// The operator text `text`, followed by a space, is read as one token of
/// its own length, which stands for binary operator `op` at precedence level
/// `lvl` (0 binds loosest) and at no other level.
pub open spec fn op_written_as(text: Seq<char>, lvl: int, op: BinOp) -> bool {
    let s = text.push(' ');
    &&& sym_at(s, 0) matches Some((sy, n)) && n == text.len() && level_op(lvl, STok::Sym(sy)) == Some(op)
        && forall|l: int| l != lvl ==> level_op(l, STok::Sym(sy)) is None
}

/// Each operator is written as in the language's documentation, at its
/// precedence level: `||` < `&&` < `|` < `^` < `&` < `==` `!=` < `<=` `<`
/// `>=` `>` < `<<<` `<<` `>>>` `>>` < `+` `-` < `*` `/` `%`.
pub proof fn law_operator_table()
    ensures
        op_written_as(seq!['|', '|'], 0, BinOp::Or),
        op_written_as(seq!['&', '&'], 1, BinOp::And),
        op_written_as(seq!['|'], 2, BinOp::BitOr),
        op_written_as(seq!['^'], 3, BinOp::Xor),
        op_written_as(seq!['&'], 4, BinOp::BitAnd),
        op_written_as(seq!['=', '='], 5, BinOp::Eq),
        op_written_as(seq!['!', '='], 5, BinOp::Neq),
        op_written_as(seq!['<', '='], 6, BinOp::Le),
        op_written_as(seq!['<'], 6, BinOp::Lt),
        op_written_as(seq!['>', '='], 6, BinOp::Ge),
        op_written_as(seq!['>'], 6, BinOp::Gt),
        op_written_as(seq!['<', '<', '<'], 7, BinOp::AShl),
        op_written_as(seq!['<', '<'], 7, BinOp::Shl),
        op_written_as(seq!['>', '>', '>'], 7, BinOp::AShr),
        op_written_as(seq!['>', '>'], 7, BinOp::Shr),
        op_written_as(seq!['+'], 8, BinOp::Add),
        op_written_as(seq!['-'], 8, BinOp::Sub),
        op_written_as(seq!['*'], 9, BinOp::Mul),
        op_written_as(seq!['/'], 9, BinOp::Div),
        op_written_as(seq!['%'], 9, BinOp::Mod),
{
}

/// The lexer skips exactly the ASCII whitespace characters (space, tab,
/// newline, form feed, carriage return): at one of them, the next token is
/// the one that follows it; at any other character the token starts there.
pub proof fn law_lexer_skips_ascii_whitespace(s: Seq<char>, p: int)
    requires
        0 <= p < s.len(),
    ensures
        (s[p] == ' ' || s[p] == '\t' || s[p] == '\n' || s[p] == '\x0C' || s[p] == '\r') ==> lex_at(s, p) == lex_at(
            s,
            p + 1,
        ),
        !(s[p] == ' ' || s[p] == '\t' || s[p] == '\n' || s[p] == '\x0C' || s[p] == '\r') ==> skip_ws(s, p) == p,
{
}

/// The parser's tokenizer skips space, tab, carriage return and newline: a
/// text with one of them at `p` has the same tokens from `p` as from `p + 1`.
pub proof fn law_tokenizer_skips_whitespace(s: Seq<char>, p: int)
    requires
        0 <= p < s.len(),
        s[p] == ' ' || s[p] == '\t' || s[p] == '\r' || s[p] == '\n',
    ensures
        tokens_from(s, p) == tokens_from(s, p + 1),
{
}

/// An `initial` procedure runs step by step on the values current at each
/// point: an assignment `t = e` first sets `t` to the value of `e` on the
/// values at that moment (after the assignments and cycles before it), cut
/// to the width of `t`, and the rest runs from there; a `step` records the
/// cycle that follows from the current values, and the rest runs from the
/// values it left, one cycle later.
pub proof fn law_initial_procedure_steps(
    nodes: Seq<Node>,
    first: InitialStep,
    rest: Seq<InitialStep>,
    widths: Seq<u64>,
    vals: Seq<u64>,
    cycle: u64,
)
    ensures
        first matches InitialStep::Assign { target, expr_node } ==> initial_run(
            nodes,
            seq![first] + rest,
            widths,
            vals,
            cycle,
        ) == initial_run(
            nodes,
            rest,
            widths,
            vals.update(target as int, mask_value(node_value(nodes, expr_node as int, vals), widths[target as int])),
            cycle,
        ),
        first is Step ==> initial_run(nodes, seq![first] + rest, widths, vals, cycle) == match step_values(nodes, vals) {
            None => None,
            Some(next) => match initial_run(nodes, rest, widths, next, (cycle + 1) as u64) {
                None => None,
                Some(r) => Some(seq![(cycle, next)] + r),
            },
        },
{
    assert((seq![first] + rest).drop_first() =~= rest);
    assert((seq![first] + rest)[0] == first);
}

/// What each node computes on signal values `vals`: a constant its value, a
/// read its signal's value, an operator its operator applied to the values
/// of its operands, a conditional its then-node's value when the condition
/// node's value is not 0 and its else-node's value otherwise, and a drive
/// its source's value.
pub proof fn law_node_values(nodes: Seq<Node>, id: int, vals: Seq<u64>)
    requires
        0 <= id < nodes.len(),
        nodes[id].refs_below(id, vals.len() as int),
    ensures
        nodes[id] matches Node::Const { value, .. } ==> node_value(nodes, id, vals) == value,
        nodes[id] matches Node::ReadSignal { signal_id, .. } ==> node_value(nodes, id, vals) == vals[signal_id as int],
        nodes[id] matches Node::BinOp { op, lhs, rhs, .. } ==> node_value(nodes, id, vals) == binop_value(
            op,
            node_value(nodes, lhs as int, vals),
            node_value(nodes, rhs as int, vals),
        ),
        nodes[id] matches Node::UnaryOp { op, operand, .. } ==> node_value(nodes, id, vals) == unop_value(
            op,
            node_value(nodes, operand as int, vals),
        ),
        nodes[id] matches Node::Ternary { cond, then_branch, else_branch, .. } ==> node_value(nodes, id, vals) == if node_value(
            nodes,
            cond as int,
            vals,
        ) != 0 {
            node_value(nodes, then_branch as int, vals)
        } else {
            node_value(nodes, else_branch as int, vals)
        },
        nodes[id] matches Node::Drive { source, .. } ==> node_value(nodes, id, vals) == node_value(
            nodes,
            source as int,
            vals,
        ),
{
}

/// In the netlist of a design, every node is as wide as what it reads makes
/// it: a read as its signal; `||`, `&&` and the comparisons 1 bit, the other
/// binary operators as their wider operand; `!` 1 bit, `~` as its operand;
/// a conditional as its wider branch, so at least as wide as each branch.
pub proof fn law_node_widths(
    x: SElaborated,
    nodes: Seq<Node>,
    sigs: Seq<NetlistSignal>,
    initial: Seq<InitialStep>,
    d: int,
)
    requires
        netlist_of(x, nodes, sigs, initial),
        0 <= d < nodes.len(),
    ensures
        nodes[d] matches Node::ReadSignal { signal_id, width, .. } ==> width == sigs[signal_id as int].width,
        nodes[d] matches Node::BinOp { op, lhs, rhs, width, .. } ==> width == (if op == BinOp::Or || op == BinOp::And
            || op == BinOp::Eq || op == BinOp::Neq || op == BinOp::Lt || op == BinOp::Le || op == BinOp::Gt || op
            == BinOp::Ge {
            1
        } else if nodes[lhs as int].spec_width() >= nodes[rhs as int].spec_width() {
            nodes[lhs as int].spec_width()
        } else {
            nodes[rhs as int].spec_width()
        }),
        nodes[d] matches Node::UnaryOp { op, operand, width, .. } ==> width == (if op == UnOp::Not {
            1
        } else {
            nodes[operand as int].spec_width()
        }),
        nodes[d] matches Node::Ternary { then_branch, else_branch, width, .. } ==> {
            &&& width >= nodes[then_branch as int].spec_width()
            &&& width >= nodes[else_branch as int].spec_width()
            &&& (width == nodes[then_branch as int].spec_width() || width == nodes[else_branch as int].spec_width())
        },
{
    reveal(node_widths_ok);
    assert(crate::netlist::node_width_ok(nodes[d], nodes, sigs));
}

proof fn lemma_bits_bounds(n: nat)
    requires
        n > 0,
    ensures
        1 <= bits(n) <= n,
        vstd::arithmetic::power2::pow2((bits(n) - 1) as nat) <= n < vstd::arithmetic::power2::pow2(bits(n)),
    decreases n,
{
    if n / 2 == 0 {
        assert(bits(n / 2) == 0);
        assert(n == 1);
        vstd::arithmetic::power2::lemma2_to64();
    } else {
        lemma_bits_bounds(n / 2);
        let b = bits(n / 2);
        assert(bits(n) == b + 1);
        vstd::arithmetic::power2::lemma_pow2_unfold(b);
        vstd::arithmetic::power2::lemma_pow2_unfold(b + 1);
    }
}

/// A decimal literal is exactly as wide as the number of binary digits of
/// its value (1 for 0): the value fits in that width and not in one bit
/// less.
pub proof fn law_number_width(n: u64)
    ensures
        n == 0 ==> num_width(n) == 1,
        n > 0 ==> vstd::arithmetic::power2::pow2((num_width(n) - 1) as nat) <= n < vstd::arithmetic::power2::pow2(
            num_width(n) as nat,
        ),
{
    if n > 0 {
        lemma_bits_bounds(n as nat);
    }
}

/// `!` and `~` written before an operand give the logical negation and the
/// bit inversion of it.
pub proof fn law_unary_operators(n: u64)
    ensures
        sym_at(seq!['!', ' '], 0) matches Some((sy, len)) && len == 1 && p_unary(seq![STok::Sym(sy), STok::Num(n)], 0) == Some(
            (SExpr::UnaryOp { op: UnOp::Not, expr: Box::new(SExpr::Number(n)) }, 2int),
        ),
        sym_at(seq!['~', ' '], 0) matches Some((sy, len)) && len == 1 && p_unary(seq![STok::Sym(sy), STok::Num(n)], 0) == Some(
            (SExpr::UnaryOp { op: UnOp::BitNot, expr: Box::new(SExpr::Number(n)) }, 2int),
        ),
{
    reveal_with_fuel(p_unary, 3);
}

} // verus!
