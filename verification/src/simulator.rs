//! Cycle simulation of a netlist.
//!
//! A cycle first settles the combinational drives (repeated passes over the
//! node list until a pass changes nothing, at most `MAX_COMB_ITERATIONS`
//! passes), then commits every sequential drive at once, each evaluated on the
//! values the cycle started with.
use vstd::prelude::*;

use crate::ast::{BinOp, UnOp};
use crate::netlist::{nodes_wf, widths_of, DriveKind, InitialStep, Netlist, NetlistSignal, Node, NodeId};
use crate::text::{dec, dec_string, pad_left, push_padded, push_repeat, repeat};

verus! {

/// Upper bound on the combinational passes of one cycle; a design that has not
/// settled by then holds a combinational loop.
pub const MAX_COMB_ITERATIONS: u32 = 1000;

pub open spec fn bool_value(b: bool) -> u64 {
    if b {
        1
    } else {
        0
    }
}

/// Value of a binary operator on 64-bit operands. Arithmetic wraps around
/// modulo 2^64; a shift by 64 or more, and a division or remainder by zero,
/// give 0.
pub open spec fn binop_value(op: BinOp, l: u64, r: u64) -> u64 {
    match op {
        BinOp::Or => bool_value(l != 0 || r != 0),
        BinOp::And => bool_value(l != 0 && r != 0),
        BinOp::BitOr => l | r,
        BinOp::Xor => l ^ r,
        BinOp::BitAnd => l & r,
        BinOp::Eq => bool_value(l == r),
        BinOp::Neq => bool_value(l != r),
        BinOp::Lt => bool_value(l < r),
        BinOp::Le => bool_value(l <= r),
        BinOp::Gt => bool_value(l > r),
        BinOp::Ge => bool_value(l >= r),
        BinOp::Shl | BinOp::AShl => if r < 64 {
            l << r
        } else {
            0
        },
        BinOp::Shr | BinOp::AShr => if r < 64 {
            l >> r
        } else {
            0
        },
        BinOp::Add => ((l + r) % 0x1_0000_0000_0000_0000) as u64,
        BinOp::Sub => ((l - r) % 0x1_0000_0000_0000_0000) as u64,
        BinOp::Mul => ((l * r) % 0x1_0000_0000_0000_0000) as u64,
        BinOp::Div => if r == 0 {
            0
        } else {
            l / r
        },
        BinOp::Mod => if r == 0 {
            0
        } else {
            l % r
        },
    }
}

/// Value of a unary operator: `!` gives 1 for 0 and 0 otherwise, `~` inverts
/// all 64 bits.
pub open spec fn unop_value(op: UnOp, v: u64) -> u64 {
    match op {
        UnOp::Not => bool_value(v == 0),
        UnOp::BitNot => !v,
    }
}

/// `value` cut to its low `width` bits (unchanged when `width` is 64 or more).
pub open spec fn mask_value(value: u64, width: u64) -> u64 {
    if width >= 64 {
        value
    } else {
        value & (((1u64 << width) - 1) as u64)
    }
}

/// Value of node `id` when the signals hold `vals`.
pub open spec fn node_value(nodes: Seq<Node>, id: int, vals: Seq<u64>) -> u64
    decreases id,
{
    if id < 0 || id >= nodes.len() {
        0
    } else {
        match nodes[id] {
            Node::Const { value, .. } => value,
            Node::ReadSignal { signal_id, .. } => vals[signal_id as int],
            Node::BinOp { op, lhs, rhs, .. } => if lhs < id && rhs < id {
                binop_value(op, node_value(nodes, lhs as int, vals), node_value(nodes, rhs as int, vals))
            } else {
                0
            },
            Node::UnaryOp { op, operand, .. } => if operand < id {
                unop_value(op, node_value(nodes, operand as int, vals))
            } else {
                0
            },
            Node::Ternary { cond, then_branch, else_branch, .. } => if cond < id && then_branch < id
                && else_branch < id {
                if node_value(nodes, cond as int, vals) != 0 {
                    node_value(nodes, then_branch as int, vals)
                } else {
                    node_value(nodes, else_branch as int, vals)
                }
            } else {
                0
            },
            Node::Drive { source, .. } => if source < id {
                node_value(nodes, source as int, vals)
            } else {
                0
            },
        }
    }
}

/// One pass over the first `i` nodes, applying each combinational drive in
/// turn to the values as updated so far.
pub open spec fn comb_pass(nodes: Seq<Node>, vals: Seq<u64>, i: nat) -> Seq<u64>
    decreases i,
{
    if i == 0 || i > nodes.len() {
        vals
    } else {
        let v = comb_pass(nodes, vals, (i - 1) as nat);
        match nodes[i - 1] {
            Node::Drive { signal_id, source, kind: DriveKind::Combinational, width, .. } => v.update(
                signal_id as int,
                mask_value(node_value(nodes, source as int, v), width),
            ),
            _ => v,
        }
    }
}

/// Repeats combinational passes until one changes nothing, with at most
/// `fuel` passes; `None` when the values have not settled by then.
pub open spec fn comb_settle(nodes: Seq<Node>, vals: Seq<u64>, fuel: nat) -> Option<Seq<u64>>
    decreases fuel,
{
    if fuel == 0 {
        None
    } else {
        let next = comb_pass(nodes, vals, nodes.len());
        if next == vals {
            Some(vals)
        } else {
            comb_settle(nodes, next, (fuel - 1) as nat)
        }
    }
}

/// Applies the sequential drives among the first `i` nodes to `next`, each
/// evaluated on `start`.
pub open spec fn seq_pass(nodes: Seq<Node>, start: Seq<u64>, next: Seq<u64>, i: nat) -> Seq<u64>
    decreases i,
{
    if i == 0 || i > nodes.len() {
        next
    } else {
        let v = seq_pass(nodes, start, next, (i - 1) as nat);
        match nodes[i - 1] {
            Node::Drive { signal_id, source, kind: DriveKind::Sequential, width, .. } => v.update(
                signal_id as int,
                mask_value(node_value(nodes, source as int, start), width),
            ),
            _ => v,
        }
    }
}

/// Signal values after one cycle that starts from `vals`; `None` when the
/// combinational drives do not settle.
pub open spec fn step_values(nodes: Seq<Node>, vals: Seq<u64>) -> Option<Seq<u64>> {
    match comb_settle(nodes, vals, MAX_COMB_ITERATIONS as nat) {
        Some(settled) => Some(seq_pass(nodes, vals, settled, nodes.len())),
        None => None,
    }
}

/// Values after each of `n` cycles that start from `vals`; `None` when one of
/// them does not settle.
pub open spec fn run_values(nodes: Seq<Node>, vals: Seq<u64>, n: nat) -> Option<Seq<Seq<u64>>>
    decreases n,
{
    if n == 0 {
        Some(Seq::empty())
    } else {
        match step_values(nodes, vals) {
            None => None,
            Some(next) => match run_values(nodes, next, (n - 1) as nat) {
                None => None,
                Some(rest) => Some(seq![next] + rest),
            },
        }
    }
}

/// `run_values` gives one state per cycle.
pub proof fn lemma_run_values_len(nodes: Seq<Node>, vals: Seq<u64>, n: nat)
    requires
        run_values(nodes, vals, n) is Some,
    ensures
        run_values(nodes, vals, n)->0.len() == n,
    decreases n,
{
    if n > 0 {
        lemma_run_values_len(nodes, step_values(nodes, vals)->0, (n - 1) as nat);
    }
}

/// The result of one simulated cycle.
#[derive(Debug)]
pub struct CycleSnapshot {
    /// Number of the cycle, counted from 0.
    pub cycle: u64,
    /// Value of each signal at the end of the cycle, by signal id.
    pub values: Vec<u64>,
}

/// The simulator's state: a value per signal, and the number of cycles run.
pub struct Simulator {
    signal_values: Vec<u64>,
    cycle: u64,
}

impl View for Simulator {
    type V = (Seq<u64>, u64);

    closed spec fn view(&self) -> (Seq<u64>, u64) {
        (self.signal_values@, self.cycle)
    }
}

/// `value` cut to its low `width` bits.
pub fn mask_to_width(value: u64, width: u64) -> (r: u64)
    ensures
        r == mask_value(value, width),
{
    if width >= 64 {
        value
    } else {
        assert(1u64 << width >= 1) by (bit_vector)
            requires
                width < 64,
        ;
        value & ((1u64 << width) - 1)
    }
}

fn bool_to_u64(b: bool) -> (r: u64)
    ensures
        r == bool_value(b),
{
    if b {
        1
    } else {
        0
    }
}

/// Applies a binary operator.
pub fn eval_binop(op: BinOp, l: u64, r: u64) -> (v: u64)
    ensures
        v == binop_value(op, l, r),
{
    match op {
        BinOp::Or => bool_to_u64(l != 0 || r != 0),
        BinOp::And => bool_to_u64(l != 0 && r != 0),
        BinOp::BitOr => l | r,
        BinOp::Xor => l ^ r,
        BinOp::BitAnd => l & r,
        BinOp::Eq => bool_to_u64(l == r),
        BinOp::Neq => bool_to_u64(l != r),
        BinOp::Lt => bool_to_u64(l < r),
        BinOp::Le => bool_to_u64(l <= r),
        BinOp::Gt => bool_to_u64(l > r),
        BinOp::Ge => bool_to_u64(l >= r),
        BinOp::Shl | BinOp::AShl => if r < 64 {
            l << r
        } else {
            0
        },
        BinOp::Shr | BinOp::AShr => if r < 64 {
            l >> r
        } else {
            0
        },
        BinOp::Add => l.wrapping_add(r),
        BinOp::Sub => l.wrapping_sub(r),
        BinOp::Mul => {
            let m = l.wrapping_mul(r);
            proof {
                assert((l * r) % 0x1_0000_0000_0000_0000 == (l as nat * r as nat) % 0x1_0000_0000_0000_0000 as nat);
            }
            m
        },
        BinOp::Div => if r == 0 {
            0
        } else {
            l / r
        },
        BinOp::Mod => if r == 0 {
            0
        } else {
            l % r
        },
    }
}

/// Applies a unary operator.
pub fn eval_unaryop(op: UnOp, v: u64) -> (r: u64)
    ensures
        r == unop_value(op, v),
{
    match op {
        UnOp::Not => bool_to_u64(v == 0),
        UnOp::BitNot => !v,
    }
}

/// Value of node `node_id` when the signals hold `signal_values`.
pub fn eval_node(node_id: NodeId, nodes: &[Node], signal_values: &[u64]) -> (v: u64)
    requires
        nodes_wf(nodes@, signal_values@.len() as int),
        node_id < nodes@.len(),
    ensures
        v == node_value(nodes@, node_id as int, signal_values@),
    decreases node_id,
{
    assert(nodes@[node_id as int].refs_below(node_id as int, signal_values@.len() as int));
    match &nodes[node_id] {
        Node::Const { value, .. } => *value,
        Node::ReadSignal { signal_id, .. } => signal_values[*signal_id],
        Node::BinOp { op, lhs, rhs, .. } => {
            let l = eval_node(*lhs, nodes, signal_values);
            let r = eval_node(*rhs, nodes, signal_values);
            eval_binop(*op, l, r)
        },
        Node::UnaryOp { op, operand, .. } => {
            let v = eval_node(*operand, nodes, signal_values);
            eval_unaryop(*op, v)
        },
        Node::Ternary { cond, then_branch, else_branch, .. } => {
            let c = eval_node(*cond, nodes, signal_values);
            let t = eval_node(*then_branch, nodes, signal_values);
            let e = eval_node(*else_branch, nodes, signal_values);
            if c != 0 {
                t
            } else {
                e
            }
        },
        Node::Drive { source, .. } => eval_node(*source, nodes, signal_values),
    }
}

/// Value of node `node_id`, cut to `width` bits: what an assignment to a
/// signal of that width stores.
pub fn eval_and_mask(node_id: NodeId, nodes: &[Node], signal_values: &[u64], width: u64) -> (v: u64)
    requires
        nodes_wf(nodes@, signal_values@.len() as int),
        node_id < nodes@.len(),
    ensures
        v == mask_value(node_value(nodes@, node_id as int, signal_values@), width),
{
    let raw = eval_node(node_id, nodes, signal_values);
    mask_to_width(raw, width)
}

fn vec_eq(a: &Vec<u64>, b: &Vec<u64>) -> (r: bool)
    ensures
        r == (a@ == b@),
{
    if a.len() != b.len() {
        return false;
    }
    let mut i: usize = 0;
    while i < a.len()
        invariant
            a@.len() == b@.len(),
            i <= a@.len(),
            forall|j: int| 0 <= j < i ==> a@[j] == b@[j],
        decreases a@.len() - i,
    {
        if a[i] != b[i] {
            return false;
        }
        i += 1;
    }
    assert(a@ =~= b@);
    true
}

fn copy_values(v: &Vec<u64>) -> (r: Vec<u64>)
    ensures
        r@ == v@,
{
    let mut r: Vec<u64> = Vec::new();
    let mut i: usize = 0;
    while i < v.len()
        invariant
            i <= v@.len(),
            r@ == v@.take(i as int),
        decreases v@.len() - i,
    {
        r.push(v[i]);
        i += 1;
        assert(r@ =~= v@.take(i as int));
    }
    assert(v@.take(v@.len() as int) =~= v@);
    r
}

/// One combinational pass over all nodes, in place.
fn run_comb_pass(nodes: &[Node], vals: &mut Vec<u64>)
    requires
        nodes_wf(nodes@, old(vals)@.len() as int),
    ensures
        final(vals)@ == comb_pass(nodes@, old(vals)@, nodes@.len()),
        final(vals)@.len() == old(vals)@.len(),
{
    let mut i: usize = 0;
    while i < nodes.len()
        invariant
            i <= nodes@.len(),
            nodes_wf(nodes@, old(vals)@.len() as int),
            vals@ == comb_pass(nodes@, old(vals)@, i as nat),
            vals@.len() == old(vals)@.len(),
        decreases nodes@.len() - i,
    {
        assert(nodes@[i as int].refs_below(i as int, old(vals)@.len() as int));
        match &nodes[i] {
            Node::Drive { signal_id, source, kind: DriveKind::Combinational, width, .. } => {
                let value = eval_node(*source, nodes, vals.as_slice());
                let masked = mask_to_width(value, *width);
                vals.set(*signal_id, masked);
            },
            _ => {},
        }
        i += 1;
    }
}

/// The sequential drives, evaluated on `start`, applied to `next` in place.
fn run_seq_pass(nodes: &[Node], start: &Vec<u64>, next: &mut Vec<u64>)
    requires
        nodes_wf(nodes@, start@.len() as int),
        old(next)@.len() == start@.len(),
    ensures
        final(next)@ == seq_pass(nodes@, start@, old(next)@, nodes@.len()),
        final(next)@.len() == start@.len(),
{
    let mut i: usize = 0;
    while i < nodes.len()
        invariant
            i <= nodes@.len(),
            nodes_wf(nodes@, start@.len() as int),
            next@ == seq_pass(nodes@, start@, old(next)@, i as nat),
            next@.len() == start@.len(),
        decreases nodes@.len() - i,
    {
        assert(nodes@[i as int].refs_below(i as int, start@.len() as int));
        match &nodes[i] {
            Node::Drive { signal_id, source, kind: DriveKind::Sequential, width, .. } => {
                let value = eval_node(*source, nodes, start.as_slice());
                let masked = mask_to_width(value, *width);
                next.set(*signal_id, masked);
            },
            _ => {},
        }
        i += 1;
    }
}

/// Settles the combinational drives starting from `start`; `None` when they
/// have not settled after `MAX_COMB_ITERATIONS` passes.
fn settle(nodes: &[Node], start: &Vec<u64>) -> (r: Option<Vec<u64>>)
    requires
        nodes_wf(nodes@, start@.len() as int),
    ensures
        match r {
            Some(v) => comb_settle(nodes@, start@, MAX_COMB_ITERATIONS as nat) == Some(v@),
            None => comb_settle(nodes@, start@, MAX_COMB_ITERATIONS as nat) is None,
        },
        r matches Some(v) ==> v@.len() == start@.len(),
{
    let mut cur = copy_values(start);
    let mut k: u32 = 0;
    while k < MAX_COMB_ITERATIONS
        invariant
            k <= MAX_COMB_ITERATIONS,
            cur@.len() == start@.len(),
            nodes_wf(nodes@, start@.len() as int),
            comb_settle(nodes@, start@, MAX_COMB_ITERATIONS as nat) == comb_settle(
                nodes@,
                cur@,
                (MAX_COMB_ITERATIONS - k) as nat,
            ),
        decreases MAX_COMB_ITERATIONS - k,
    {
        let old_vals = copy_values(&cur);
        run_comb_pass(nodes, &mut cur);
        if vec_eq(&old_vals, &cur) {
            return Some(cur);
        }
        k += 1;
    }
    None
}

impl Simulator {
    /// A simulator for `signal_count` signals, all 0, at cycle 0.
    pub fn new(signal_count: usize) -> (s: Self)
        ensures
            s@.0 == Seq::new(signal_count as nat, |i: int| 0u64),
            s@.1 == 0,
    {
        let mut v: Vec<u64> = Vec::new();
        let mut i: usize = 0;
        while i < signal_count
            invariant
                i <= signal_count,
                v@ == Seq::new(i as nat, |j: int| 0u64),
            decreases signal_count - i,
        {
            v.push(0);
            i += 1;
            assert(v@ =~= Seq::new(i as nat, |j: int| 0u64));
        }
        Simulator { signal_values: v, cycle: 0 }
    }

    /// Sets signal `id` to `value` (before or between cycles).
    pub fn set_signal(&mut self, id: usize, value: u64)
        requires
            id < old(self)@.0.len(),
        ensures
            final(self)@.0 == old(self)@.0.update(id as int, value),
            final(self)@.1 == old(self)@.1,
    {
        self.signal_values.set(id, value);
    }

    /// The current value of every signal, by signal id.
    pub fn signal_values(&self) -> (v: &[u64])
        ensures
            v@ == self@.0,
    {
        self.signal_values.as_slice()
    }

    /// The number of cycles run so far.
    pub fn cycle(&self) -> (c: u64)
        ensures
            c == self@.1,
    {
        self.cycle
    }

    /// Runs one cycle, or returns `None`, with the state unchanged, when the
    /// combinational drives do not settle.
    pub fn try_step(&mut self, nodes: &[Node]) -> (snap: Option<CycleSnapshot>)
        requires
            nodes_wf(nodes@, old(self)@.0.len() as int),
            old(self)@.1 < u64::MAX,
        ensures
            match step_values(nodes@, old(self)@.0) {
                Some(next) => {
                    &&& snap matches Some(s)
                    &&& s.cycle == old(self)@.1
                    &&& s.values@ == next
                    &&& final(self)@ == (next, (old(self)@.1 + 1) as u64)
                },
                None => snap is None && final(self)@ == old(self)@,
            },
            final(self)@.0.len() == old(self)@.0.len(),
    {
        let start = copy_values(&self.signal_values);
        match settle(nodes, &start) {
            None => None,
            Some(settled) => {
                let mut next = settled;
                run_seq_pass(nodes, &start, &mut next);
                let values = copy_values(&next);
                let snap = CycleSnapshot { cycle: self.cycle, values };
                self.signal_values = next;
                self.cycle = self.cycle + 1;
                Some(snap)
            },
        }
    }

    /// Runs one cycle and returns the values at its end. The combinational
    /// drives must settle within `MAX_COMB_ITERATIONS` passes; a design that
    /// does not is a combinational loop (see `try_step`).
    pub fn step(&mut self, nodes: &[Node]) -> (snap: CycleSnapshot)
        requires
            nodes_wf(nodes@, old(self)@.0.len() as int),
            old(self)@.1 < u64::MAX,
            step_values(nodes@, old(self)@.0) is Some,
        ensures
            snap.cycle == old(self)@.1,
            snap.values@ == step_values(nodes@, old(self)@.0)->0,
            final(self)@ == (snap.values@, (old(self)@.1 + 1) as u64),
            snap.values@.len() == old(self)@.0.len(),
    {
        let r = self.try_step(nodes);
        r.expect(
            "組合せループを検出: 1000回のΔ反復で収束しませんでした。回路に組合せフィードバック（例: a = a ^ 1）がないか確認してください",
        )
    }

    /// Runs `cycles` cycles and returns the snapshot of each, or `None` when
    /// one of them does not settle (the cycles before it are run).
    pub fn try_run(&mut self, nodes: &[Node], cycles: u64) -> (snaps: Option<Vec<CycleSnapshot>>)
        requires
            nodes_wf(nodes@, old(self)@.0.len() as int),
            old(self)@.1 + cycles <= u64::MAX,
        ensures
            match run_values(nodes@, old(self)@.0, cycles as nat) {
                None => snaps is None,
                Some(all) => snaps matches Some(v) && v@.len() == cycles && forall|i: int|
                    0 <= i < cycles ==> #[trigger] v@[i].cycle == old(self)@.1 + i && v@[i].values@ == all[i],
            },
    {
        let ghost len = old(self)@.0.len();
        let mut snaps: Vec<CycleSnapshot> = Vec::new();
        let ghost whole = run_values(nodes@, old(self)@.0, cycles as nat);
        let ghost done: Seq<Seq<u64>> = Seq::empty();
        let mut i: u64 = 0;
        while i < cycles
            invariant
                i <= cycles,
                self@.0.len() == len,
                nodes_wf(nodes@, len as int),
                self@.1 == old(self)@.1 + i,
                old(self)@.1 + cycles <= u64::MAX,
                whole == run_values(nodes@, old(self)@.0, cycles as nat),
                done.len() == i,
                snaps@.len() == i,
                forall|j: int| 0 <= j < i ==> #[trigger] snaps@[j].cycle == old(self)@.1 + j && snaps@[j].values@ == done[j],
                whole == (match run_values(nodes@, self@.0, (cycles - i) as nat) {
                    None => None,
                    Some(rest) => Some(done + rest),
                }),
            decreases cycles - i,
        {
            let ghost before = self@.0;
            match self.try_step(nodes) {
                None => {
                    assert(run_values(nodes@, before, (cycles - i) as nat) is None);
                    assert(whole is None);
                    return None;
                },
                Some(snap) => {
                    let ghost after = self@.0;
                    proof {
                        match run_values(nodes@, after, (cycles - i - 1) as nat) {
                            None => {},
                            Some(rest) => {
                                assert(done + (seq![after] + rest) =~= done.push(after) + rest);
                            },
                        }
                        done = done.push(after);
                    }
                    snaps.push(snap);
                    i += 1;
                },
            }
        }
        assert(run_values(nodes@, self@.0, 0) == Some(Seq::<Seq<u64>>::empty()));
        assert(done + Seq::<Seq<u64>>::empty() =~= done);
        assert(whole == Some(done));
        Some(snaps)
    }

    /// Runs `cycles` cycles and returns the snapshot of each.
    pub fn run(&mut self, nodes: &[Node], cycles: u64) -> (snaps: Vec<CycleSnapshot>)
        requires
            nodes_wf(nodes@, old(self)@.0.len() as int),
            old(self)@.1 + cycles <= u64::MAX,
            run_values(nodes@, old(self)@.0, cycles as nat) is Some,
        ensures
            snaps@.len() == cycles,
            forall|i: int|
                0 <= i < cycles ==> #[trigger] snaps@[i].cycle == old(self)@.1 + i
                    && snaps@[i].values@ == run_values(nodes@, old(self)@.0, cycles as nat)->0[i],
            final(self)@.1 == old(self)@.1 + cycles,
            cycles > 0 ==> final(self)@.0 == run_values(nodes@, old(self)@.0, cycles as nat)->0.last(),
            cycles == 0 ==> final(self)@ == old(self)@,
    {
        let ghost all = run_values(nodes@, old(self)@.0, cycles as nat)->0;
        proof {
            lemma_run_values_len(nodes@, old(self)@.0, cycles as nat);
        }
        let ghost len = old(self)@.0.len();
        let mut snaps: Vec<CycleSnapshot> = Vec::new();
        let mut i: u64 = 0;
        while i < cycles
            invariant
                i <= cycles,
                self@.0.len() == len,
                nodes_wf(nodes@, len as int),
                self@.1 == old(self)@.1 + i,
                old(self)@.1 + cycles <= u64::MAX,
                all == run_values(nodes@, old(self)@.0, cycles as nat)->0,
                all.len() == cycles,
                run_values(nodes@, old(self)@.0, cycles as nat) is Some,
                run_values(nodes@, self@.0, (cycles - i) as nat) is Some,
                all == all.take(i as int) + run_values(nodes@, self@.0, (cycles - i) as nat)->0,
                snaps@.len() == i,
                forall|j: int|
                    0 <= j < i ==> #[trigger] snaps@[j].cycle == old(self)@.1 + j && snaps@[j].values@
                        == all[j],
                i > 0 ==> self@.0 == all[i - 1],
                i == 0 ==> self@ == old(self)@,
            decreases cycles - i,
        {
            let ghost before = self@.0;
            let ghost rest = run_values(nodes@, before, (cycles - i) as nat)->0;
            let snap = self.step(nodes);
            let ghost after = self@.0;
            assert(rest == seq![after] + run_values(nodes@, after, (cycles - i - 1) as nat)->0);
            assert(all[i as int] == after) by {
                assert(all[i as int] == rest[0]);
            }
            let ghost prev = snaps@;
            snaps.push(snap);
            assert forall|j: int| 0 <= j < i + 1 implies #[trigger] snaps@[j].cycle == old(self)@.1 + j
                && snaps@[j].values@ == all[j] by {
                if j < i {
                    assert(snaps@[j] == prev[j]);
                }
            }
            i += 1;
            assert(all == all.take(i as int) + run_values(nodes@, self@.0, (cycles - i) as nat)->0)
                by {
                assert(all.take(i as int) =~= all.take(i - 1) + seq![after]);
            }
        }
        snaps
    }
}

/// Column width of a signal in a waveform: its bit width, at least two.
pub open spec fn col_width(sig: NetlistSignal) -> nat {
    if sig.width >= 2 {
        sig.width as nat
    } else {
        2
    }
}

/// The value a snapshot holds for a signal (0 when it holds none).
pub open spec fn snap_value(snap: CycleSnapshot, sig: NetlistSignal) -> u64 {
    if sig.id < snap.values@.len() {
        snap.values@[sig.id as int]
    } else {
        0
    }
}

pub open spec fn header_cols(sigs: Seq<NetlistSignal>) -> Seq<char>
    decreases sigs.len(),
{
    if sigs.len() == 0 {
        Seq::empty()
    } else {
        header_cols(sigs.drop_last()) + " "@ + pad_left(sigs.last().name@, col_width(sigs.last()))
    }
}

pub open spec fn rule_cols(sigs: Seq<NetlistSignal>) -> Seq<char>
    decreases sigs.len(),
{
    if sigs.len() == 0 {
        Seq::empty()
    } else {
        rule_cols(sigs.drop_last()) + repeat('-', col_width(sigs.last()) + 1)
    }
}

pub open spec fn value_cols(snap: CycleSnapshot, sigs: Seq<NetlistSignal>) -> Seq<char>
    decreases sigs.len(),
{
    if sigs.len() == 0 {
        Seq::empty()
    } else {
        value_cols(snap, sigs.drop_last()) + " "@ + pad_left(
            dec(snap_value(snap, sigs.last()) as nat),
            col_width(sigs.last()),
        )
    }
}

/// One row per snapshot: the cycle in five columns, then each signal's value.
pub open spec fn wave_rows(snaps: Seq<CycleSnapshot>, sigs: Seq<NetlistSignal>) -> Seq<char>
    decreases snaps.len(),
{
    if snaps.len() == 0 {
        Seq::empty()
    } else {
        wave_rows(snaps.drop_last(), sigs) + pad_left(dec(snaps.last().cycle as nat), 5) + value_cols(
            snaps.last(),
            sigs,
        ) + "\n"@
    }
}

/// A waveform table: a header of signal names, a rule, and a row per
/// snapshot; empty when there is no snapshot or no signal.
pub open spec fn waveform_text(snaps: Seq<CycleSnapshot>, sigs: Seq<NetlistSignal>) -> Seq<char> {
    if snaps.len() == 0 || sigs.len() == 0 {
        Seq::empty()
    } else {
        "cycle"@ + header_cols(sigs) + "\n"@ + "-----"@ + rule_cols(sigs) + "\n"@ + wave_rows(snaps, sigs)
    }
}

/// A string holding `t` alone.
fn text_of(t: &str) -> (s: String)
    ensures
        s@ == t@,
{
    String::from_str(t)
}

/// Formats snapshots as a table: a header with the signal names, a rule, then
/// a row per cycle; each column is as wide as its signal's bit width, at
/// least two.
pub fn format_waveform(snapshots: &[CycleSnapshot], signals: &[NetlistSignal]) -> (s: String)
    requires
        forall|k: int| 0 <= k < signals@.len() ==> (#[trigger] signals@[k]).width < u64::MAX,
    ensures
        s@ == waveform_text(snapshots@, signals@),
{
    if snapshots.len() == 0 || signals.len() == 0 {
        return String::new();
    }
    proof {
        reveal_strlit("-");
    }
    let mut out = text_of("cycle");
    let ghost h0 = out@;
    let mut i: usize = 0;
    while i < signals.len()
        invariant
            i <= signals@.len(),
            out@ == h0 + header_cols(signals@.take(i as int)),
        decreases signals@.len() - i,
    {
        let sig = &signals[i];
        let w = if sig.width >= 2 {
            sig.width
        } else {
            2
        };
        out.append(" ");
        push_padded(&mut out, sig.name.as_str(), w);
        assert(signals@.take(i + 1).drop_last() =~= signals@.take(i as int));
        i += 1;
    }
    assert(signals@.take(signals@.len() as int) =~= signals@);
    out.append("\n");
    out.append("-----");
    let ghost h1 = out@;
    let mut i: usize = 0;
    while i < signals.len()
        invariant
            i <= signals@.len(),
            forall|k: int| 0 <= k < signals@.len() ==> (#[trigger] signals@[k]).width < u64::MAX,
            out@ == h1 + rule_cols(signals@.take(i as int)),
        decreases signals@.len() - i,
    {
        let sig = &signals[i];
        let w = if sig.width >= 2 {
            sig.width
        } else {
            2
        };
        proof {
            reveal_strlit("-");
        }
        assert("-"@[0] == '-');
        push_repeat(&mut out, "-", w + 1);
        assert(signals@.take(i + 1).drop_last() =~= signals@.take(i as int));
        i += 1;
    }
    out.append("\n");
    let ghost h2 = out@;
    let mut r: usize = 0;
    while r < snapshots.len()
        invariant
            r <= snapshots@.len(),
            out@ == h2 + wave_rows(snapshots@.take(r as int), signals@),
        decreases snapshots@.len() - r,
    {
        let snap = &snapshots[r];
        let mut line = String::new();
        let cyc = dec_string(snap.cycle);
        push_padded(&mut line, cyc.as_str(), 5);
        assert(line@ =~= pad_left(dec(snap.cycle as nat), 5));
        let ghost l0 = line@;
        let mut i: usize = 0;
        while i < signals.len()
            invariant
                i <= signals@.len(),
                line@ == l0 + value_cols(*snap, signals@.take(i as int)),
            decreases signals@.len() - i,
        {
            let sig = &signals[i];
            let w = if sig.width >= 2 {
                sig.width
            } else {
                2
            };
            let v = if sig.id < snap.values.len() {
                snap.values[sig.id]
            } else {
                0
            };
            let vt = dec_string(v);
            line.append(" ");
            push_padded(&mut line, vt.as_str(), w);
            assert(signals@.take(i + 1).drop_last() =~= signals@.take(i as int));
            i += 1;
        }
        assert(signals@.take(signals@.len() as int) =~= signals@);
        line.append("\n");
        out.append(line.as_str());
        assert(snapshots@.take(r + 1).drop_last() =~= snapshots@.take(r as int));
        assert(out@ =~= h2 + wave_rows(snapshots@.take(r + 1), signals@));
        r += 1;
    }
    assert(snapshots@.take(snapshots@.len() as int) =~= snapshots@);
    assert(out@ =~= waveform_text(snapshots@, signals@));
    out
}

/// `n` zeros.
pub open spec fn zeros(n: nat) -> Seq<u64> {
    Seq::new(n, |i: int| 0u64)
}

/// Snapshots as (cycle, values) pairs.
pub open spec fn snaps_view(v: Seq<CycleSnapshot>) -> Seq<(u64, Seq<u64>)> {
    v.map_values(|x: CycleSnapshot| (x.cycle, x.values@))
}

/// Runs the steps of an `initial` procedure from signal values `vals` at
/// cycle `cycle`: an assignment sets its target at once to its node's value,
/// cut to the target's width; a `step` runs one cycle and records it. `None`
/// when a cycle does not settle.
pub open spec fn initial_run(
    nodes: Seq<Node>,
    steps: Seq<InitialStep>,
    widths: Seq<u64>,
    vals: Seq<u64>,
    cycle: u64,
) -> Option<Seq<(u64, Seq<u64>)>>
    decreases steps.len(),
{
    if steps.len() == 0 {
        Some(Seq::empty())
    } else {
        match steps[0] {
            InitialStep::Assign { target, expr_node } => initial_run(
                nodes,
                steps.drop_first(),
                widths,
                vals.update(target as int, mask_value(node_value(nodes, expr_node as int, vals), widths[target as int])),
                cycle,
            ),
            InitialStep::Step => match step_values(nodes, vals) {
                None => None,
                Some(next) => match initial_run(nodes, steps.drop_first(), widths, next, (cycle + 1) as u64) {
                    None => None,
                    Some(rest) => Some(seq![(cycle, next)] + rest),
                },
            },
        }
    }
}

pub open spec fn prepend(p: Seq<(u64, Seq<u64>)>, r: Option<Seq<(u64, Seq<u64>)>>) -> Option<Seq<(u64, Seq<u64>)>> {
    match r {
        None => None,
        Some(rest) => Some(p + rest),
    }
}

/// Runs a netlist's `initial` procedure from all signals 0 at cycle 0, and
/// returns the snapshot of each `step`; `None` when a cycle does not settle
/// (a combinational loop).
pub fn run_initial_sequence(nl: &Netlist) -> (r: Option<Vec<CycleSnapshot>>)
    requires
        nodes_wf(nl.nodes@, nl.signals@.len() as int),
        nl.initial@.len() <= u64::MAX,
        forall|k: int|
            0 <= k < nl.initial@.len() ==> (#[trigger] nl.initial@[k] matches InitialStep::Assign { target, expr_node }
                ==> target < nl.signals@.len() && expr_node < nl.nodes@.len()),
    ensures
        match initial_run(
            nl.nodes@,
            nl.initial@,
            widths_of(nl.signals@),
            zeros(nl.signals@.len()),
            0,
        ) {
            None => r is None,
            Some(run) => r matches Some(v) && snaps_view(v@) == run,
        },
{
    let ghost widths = widths_of(nl.signals@);
    let ghost steps = nl.initial@;
    let mut sim = Simulator::new(nl.signals.len());
    assert(sim@.0 =~= zeros(nl.signals@.len()));
    let mut snaps: Vec<CycleSnapshot> = Vec::new();
    let ghost whole = initial_run(nl.nodes@, steps, widths, sim@.0, 0);
    assert(snaps_view(snaps@) =~= Seq::empty());
    assert(steps.skip(0) =~= steps);
    let mut k: usize = 0;
    while k < nl.initial.len()
        invariant
            k <= steps.len(),
            steps == nl.initial@,
            steps.len() <= u64::MAX,
            widths == widths_of(nl.signals@),
            sim@.0.len() == nl.signals@.len(),
            nodes_wf(nl.nodes@, nl.signals@.len() as int),
            sim@.1 <= k,
            forall|j: int|
                0 <= j < steps.len() ==> (#[trigger] steps[j] matches InitialStep::Assign { target, expr_node }
                    ==> target < nl.signals@.len() && expr_node < nl.nodes@.len()),
            whole == prepend(snaps_view(snaps@), initial_run(nl.nodes@, steps.skip(k as int), widths, sim@.0, sim@.1)),
            whole == initial_run(nl.nodes@, nl.initial@, widths_of(nl.signals@), zeros(nl.signals@.len()), 0),
        decreases steps.len() - k,
    {
        let ghost rest = steps.skip(k as int);
        assert(rest[0] == steps[k as int]);
        assert(rest.drop_first() =~= steps.skip(k + 1));
        match &nl.initial[k] {
            InitialStep::Assign { target, expr_node } => {
                let width = nl.signals[*target].width;
                let value = eval_and_mask(*expr_node, nl.nodes.as_slice(), sim.signal_values(), width);
                sim.set_signal(*target, value);
            },
            InitialStep::Step => {
                let ghost before = sim@;
                match sim.try_step(nl.nodes.as_slice()) {
                    None => {
                        assert(step_values(nl.nodes@, before.0) is None);
                        assert(initial_run(nl.nodes@, rest, widths, before.0, before.1) is None);
                        return None;
                    },
                    Some(snap) => {
                        let ghost sv = snaps_view(snaps@);
                        snaps.push(snap);
                        proof {
                            assert(snaps_view(snaps@) =~= sv.push((snap.cycle, snap.values@)));
                            let tail = initial_run(nl.nodes@, steps.skip(k + 1), widths, sim@.0, sim@.1);
                            match tail {
                                None => {},
                                Some(t) => {
                                    assert(sv + (seq![(snap.cycle, snap.values@)] + t) =~= sv.push(
                                        (snap.cycle, snap.values@),
                                    ) + t);
                                },
                            }
                        }
                    },
                }
            },
        }
        k += 1;
    }
    proof {
        assert(steps.skip(steps.len() as int) =~= Seq::<InitialStep>::empty());
        assert(snaps_view(snaps@) + Seq::empty() =~= snaps_view(snaps@));
    }
    Some(snaps)
}

} // verus!
