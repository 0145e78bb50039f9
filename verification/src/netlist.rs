//! Netlist: the module hierarchy flattened into one graph of nodes.
use vstd::prelude::*;

use crate::ast::{binop_text, unop_text, BinOp, Direction, UnOp};
use crate::text::{dec, dec_string, pad_left, push_dec, push_padded};
use crate::elab_spec::{
    fields_ok, find_conn, find_instance, find_instance_from, find_module, find_port, first_redriven, lemma_distinct_targets, lemma_fields_ok_no_instances,
    elab_wf, inst_ok, inst_tab, instance_wf, lemma_find_module_range, module_wf, proc_wf, reads, reads_below, stmts_below,
};
use crate::elaboration::{
    conns_view, find_conn_in, find_module_in, find_port_in, insts_view, mods_view, ports_view, sigs_view,
    Elaborated, ResolvedExpr, ResolvedInstance, ResolvedModuleDef, ResolvedProcStmt, ResolvedScope, SElaborated,
    ResolvedSignal, ResolvedStmt, SRExpr, SRModule, SRProc, SRStmt,
};
use crate::comb_graph::stmts_of;
use crate::netlist_spec::{
    bits, body_len, expr_ok, field_signal, flat_count, flat_irs, inst_remap_of, inst_start, top_remap, irs_ok, irs_tab, is_prefix, is_truth_op,
    expr_nodes, flat_nodes, flat_scope_nodes, init_nodes, inst_nodes, insts_nodes, lemma_insts_nodes_step, ports_nodes, port_nodes, stmts_nodes, stmt_nodes, lemma_inst_start_mono, lemma_node_value_prefix, lemma_reads_below_sub, max_u64,
    num_width, remap_ok, rexpr_value, rexpr_width, IrView,
};
use crate::simulator::{mask_to_width, mask_value, node_value};

verus! {

/// Index of a node in `Netlist::nodes`.
pub type NodeId = usize;

/// A netlist node; `id` is its index in the node list.
#[derive(Debug)]
pub enum Node {
    Const { id: NodeId, value: u64, width: u64 },
    ReadSignal { id: NodeId, signal_id: usize, signal_name: String, width: u64 },
    BinOp { id: NodeId, op: BinOp, lhs: NodeId, rhs: NodeId, width: u64 },
    UnaryOp { id: NodeId, op: UnOp, operand: NodeId, width: u64 },
    Ternary { id: NodeId, cond: NodeId, then_branch: NodeId, else_branch: NodeId, width: u64 },
    /// Drives signal `signal_id` with the value of `source`, cut to `width` bits.
    Drive {
        id: NodeId,
        signal_id: usize,
        signal_name: String,
        source: NodeId,
        kind: DriveKind,
        width: u64,
    },
}

/// Model of a node: ids as integers, names as character sequences.
pub enum SNode {
    Const { id: int, value: u64, width: u64 },
    ReadSignal { id: int, signal_id: int, signal_name: Seq<char>, width: u64 },
    BinOp { id: int, op: BinOp, lhs: int, rhs: int, width: u64 },
    UnaryOp { id: int, op: UnOp, operand: int, width: u64 },
    Ternary { id: int, cond: int, then_branch: int, else_branch: int, width: u64 },
    Drive { id: int, signal_id: int, signal_name: Seq<char>, source: int, kind: DriveKind, width: u64 },
}

impl View for Node {
    type V = SNode;

    open spec fn view(&self) -> SNode {
        match self {
            Node::Const { id, value, width } => SNode::Const { id: *id as int, value: *value, width: *width },
            Node::ReadSignal { id, signal_id, signal_name, width } => SNode::ReadSignal {
                id: *id as int,
                signal_id: *signal_id as int,
                signal_name: signal_name@,
                width: *width,
            },
            Node::BinOp { id, op, lhs, rhs, width } => SNode::BinOp {
                id: *id as int,
                op: *op,
                lhs: *lhs as int,
                rhs: *rhs as int,
                width: *width,
            },
            Node::UnaryOp { id, op, operand, width } => SNode::UnaryOp {
                id: *id as int,
                op: *op,
                operand: *operand as int,
                width: *width,
            },
            Node::Ternary { id, cond, then_branch, else_branch, width } => SNode::Ternary {
                id: *id as int,
                cond: *cond as int,
                then_branch: *then_branch as int,
                else_branch: *else_branch as int,
                width: *width,
            },
            Node::Drive { id, signal_id, signal_name, source, kind, width } => SNode::Drive {
                id: *id as int,
                signal_id: *signal_id as int,
                signal_name: signal_name@,
                source: *source as int,
                kind: *kind,
                width: *width,
            },
        }
    }
}

/// The models of a node list.
pub open spec fn nodes_view(v: Seq<Node>) -> Seq<SNode> {
    v.map_values(|n: Node| n@)
}

/// The names of a signal list.
pub open spec fn names_of(s: Seq<NetlistSignal>) -> Seq<Seq<char>> {
    s.map_values(|x: NetlistSignal| x.name@)
}

/// How a signal is driven: `=` (combinational) or `<=` (sequential).
#[derive(Clone, Copy, Debug, PartialEq, Eq, Structural)]
pub enum DriveKind {
    Combinational,
    Sequential,
}

/// Edge of a clock.
#[derive(Clone, Copy, Debug, PartialEq, Eq, Structural)]
pub enum Edge {
    Posedge,
    Negedge,
}

/// The signal and edge that trigger a register.
#[derive(Clone, Copy, Debug, PartialEq, Eq, Structural)]
pub struct ClockTrigger {
    pub signal_id: usize,
    pub edge: Edge,
}

/// Reset of a register (no source construct produces one yet).
#[derive(Clone, Copy, Debug, PartialEq, Eq, Structural)]
pub struct ResetSpec {
    pub trigger: ClockTrigger,
    pub value: u64,
}

/// Kind of a signal: a wire, or a register (driven by `<=`).
#[derive(Clone, Copy, Debug, PartialEq, Eq, Structural)]
pub enum SignalKind {
    Wire,
    Reg { clock: Option<ClockTrigger>, reset: Option<ResetSpec> },
}

/// A step of a testbench's `initial` procedure.
#[derive(Clone, Copy, Debug, PartialEq, Eq, Structural)]
pub enum InitialStep {
    /// Set signal `target` once to the value of node `expr_node`.
    Assign { target: usize, expr_node: NodeId },
    /// Advance the simulation by one cycle.
    Step,
}

/// A signal of the flattened design.
#[derive(Debug)]
pub struct NetlistSignal {
    pub id: usize,
    pub name: String,
    pub width: u64,
    pub driver_node: Option<NodeId>,
    pub driver_kind: Option<DriveKind>,
    pub kind: SignalKind,
}

/// The flattened design.
#[derive(Debug)]
pub struct Netlist {
    pub signals: Vec<NetlistSignal>,
    pub nodes: Vec<Node>,
    pub initial: Vec<InitialStep>,
}

impl Node {
    pub open spec fn spec_id(self) -> NodeId {
        match self {
            Node::Const { id, .. } => id,
            Node::ReadSignal { id, .. } => id,
            Node::BinOp { id, .. } => id,
            Node::UnaryOp { id, .. } => id,
            Node::Ternary { id, .. } => id,
            Node::Drive { id, .. } => id,
        }
    }

    pub open spec fn spec_width(self) -> u64 {
        match self {
            Node::Const { width, .. } => width,
            Node::ReadSignal { width, .. } => width,
            Node::BinOp { width, .. } => width,
            Node::UnaryOp { width, .. } => width,
            Node::Ternary { width, .. } => width,
            Node::Drive { width, .. } => width,
        }
    }

    /// Every operand of the node comes before index `i`, and every signal it
    /// names is below `nsig`.
    pub open spec fn refs_below(self, i: int, nsig: int) -> bool {
        match self {
            Node::Const { .. } => true,
            Node::ReadSignal { signal_id, .. } => signal_id < nsig,
            Node::BinOp { lhs, rhs, .. } => lhs < i && rhs < i,
            Node::UnaryOp { operand, .. } => operand < i,
            Node::Ternary { cond, then_branch, else_branch, .. } => cond < i && then_branch < i
                && else_branch < i,
            Node::Drive { signal_id, source, .. } => source < i && signal_id < nsig,
        }
    }
}

/// The node list is a graph in which operands precede their users, and that
/// names signals below `nsig` only: it can be evaluated bottom-up.
pub open spec fn nodes_wf(nodes: Seq<Node>, nsig: int) -> bool {
    forall|i: int| 0 <= i < nodes.len() ==> #[trigger] nodes[i].refs_below(i, nsig)
}

pub open spec fn widths_of(s: Seq<NetlistSignal>) -> Seq<u64> {
    s.map_values(|x: NetlistSignal| x.width)
}

/// Node `d` drives signal `sig` with kind `kind`.
pub open spec fn drives(nodes: Seq<Node>, d: int, sig: int, kind: DriveKind) -> bool {
    &&& 0 <= d < nodes.len()
    &&& nodes[d] matches Node::Drive { signal_id, kind: k, .. }
    &&& signal_id == sig
    &&& k == kind
}

/// Structure of a netlist: node `k` has id `k` and only earlier operands,
/// signal `k` has id `k`; a signal's recorded driver is a drive of that
/// signal of the recorded kind, and every drive of a signal is its recorded
/// driver, so that no signal has two; a drive cuts to the width of its
/// signal; and a signal is a register exactly when a sequential drive drives
/// it.
pub open spec fn netlist_wf(nodes: Seq<Node>, sigs: Seq<NetlistSignal>) -> bool {
    &&& nodes_wf(nodes, sigs.len() as int)
    &&& forall|k: int| 0 <= k < nodes.len() ==> (#[trigger] nodes[k]).spec_id() == k
    &&& forall|k: int| 0 <= k < sigs.len() ==> (#[trigger] sigs[k]).id == k
    &&& forall|k: int| 0 <= k < sigs.len() ==> ((#[trigger] sigs[k]).driver_node is Some) == (sigs[k].driver_kind is Some)
    &&& forall|k: int|
        0 <= k < sigs.len() && (#[trigger] sigs[k]).driver_node is Some ==> drives(
            nodes,
            sigs[k].driver_node->0 as int,
            k,
            sigs[k].driver_kind->0,
        )
    &&& forall|d: int|
        0 <= d < nodes.len() ==> (#[trigger] nodes[d] matches Node::Drive { signal_id, width, .. } ==> width
            == sigs[signal_id as int].width)
    &&& forall|d: int, i: int| #[trigger] drives(nodes, d, i, DriveKind::Sequential) ==> sigs[i].kind is Reg
    &&& forall|i: int|
        0 <= i < sigs.len() && !((#[trigger] sigs[i]).kind is Wire) ==> exists|d: int|
            #[trigger] drives(nodes, d, i, DriveKind::Sequential)
    &&& forall|d: int, i: int, k: DriveKind|
        #[trigger] drives(nodes, d, i, k) ==> sigs[i].driver_node == Some(d as NodeId) && sigs[i].driver_kind == Some(k)
}

/// The larger of two widths.
pub open spec fn wider(a: u64, b: u64) -> u64 {
    if a >= b {
        a
    } else {
        b
    }
}

/// The width of node `n` follows from what it reads, in node list `nodes`
/// and signal list `sigs`: a read is as wide as its signal; `||`, `&&` and
/// the comparisons give 1 bit and the other binary operators the wider of
/// their operands; `!` gives 1 bit and `~` its operand's width; a
/// conditional the wider of its two branches.
pub open spec fn node_width_ok(n: Node, nodes: Seq<Node>, sigs: Seq<NetlistSignal>) -> bool {
    match n {
        Node::ReadSignal { signal_id, width, .. } => width == sigs[signal_id as int].width,
        Node::BinOp { op, lhs, rhs, width, .. } => width == (if op == BinOp::Or || op == BinOp::And || op
            == BinOp::Eq || op == BinOp::Neq || op == BinOp::Lt || op == BinOp::Le || op == BinOp::Gt || op
            == BinOp::Ge {
            1
        } else {
            wider(nodes[lhs as int].spec_width(), nodes[rhs as int].spec_width())
        }),
        Node::UnaryOp { op, operand, width, .. } => width == (if op == UnOp::Not {
            1
        } else {
            nodes[operand as int].spec_width()
        }),
        Node::Ternary { then_branch, else_branch, width, .. } => width == wider(
            nodes[then_branch as int].spec_width(),
            nodes[else_branch as int].spec_width(),
        ),
        _ => true,
    }
}

/// Every node's width follows from what it reads.
#[verifier::opaque]
pub open spec fn node_widths_ok(nodes: Seq<Node>, sigs: Seq<NetlistSignal>) -> bool {
    forall|d: int| 0 <= d < nodes.len() ==> node_width_ok(#[trigger] nodes[d], nodes, sigs)
}

/// Node widths stay right when nodes are appended and signals are appended
/// or updated without changing their widths.
pub proof fn lemma_node_widths_grow(n1: Seq<Node>, s1: Seq<NetlistSignal>, n2: Seq<Node>, s2: Seq<NetlistSignal>)
    requires
        node_widths_ok(n1, s1),
        nodes_wf(n1, s1.len() as int),
        is_prefix(n1, n2),
        same_shape(s1, s2),
    ensures
        forall|d: int| 0 <= d < n1.len() ==> node_width_ok(#[trigger] n2[d], n2, s2),
{
    reveal(node_widths_ok);
    assert forall|d: int| 0 <= d < n1.len() implies node_width_ok(#[trigger] n2[d], n2, s2) by {
        assert(n2[d] == n1[d]);
        assert(n1[d].refs_below(d, s1.len() as int));
        assert(node_width_ok(n1[d], n1, s1));
        match n1[d] {
            Node::ReadSignal { signal_id, .. } => {
                assert(s2[signal_id as int].width == s1[signal_id as int].width);
            },
            Node::BinOp { lhs, rhs, .. } => {
                assert(n2[lhs as int] == n1[lhs as int]);
                assert(n2[rhs as int] == n1[rhs as int]);
            },
            Node::UnaryOp { operand, .. } => {
                assert(n2[operand as int] == n1[operand as int]);
            },
            Node::Ternary { then_branch, else_branch, .. } => {
                assert(n2[then_branch as int] == n1[then_branch as int]);
                assert(n2[else_branch as int] == n1[else_branch as int]);
            },
            _ => {},
        }
    }
}

/// Builds a netlist: the module hierarchy is walked by `flatten_scope`, which
/// appends each scope's signals, with the instance path as a name prefix, and
/// the nodes of its expressions and drives.
pub struct NetlistBuilder {
    nodes: Vec<Node>,
    signals: Vec<NetlistSignal>,
}

impl View for NetlistBuilder {
    type V = (Seq<Node>, Seq<NetlistSignal>);

    closed spec fn view(&self) -> (Seq<Node>, Seq<NetlistSignal>) {
        (self.nodes@, self.signals@)
    }
}

impl Default for NetlistBuilder {
    /// An empty builder.
    fn default() -> (b: Self)
        ensures
            b.wf(),
            b@.0.len() == 0,
            b@.1.len() == 0,
    {
        Self::new()
    }
}

pub open spec fn irs_view(v: Seq<(String, String, Vec<usize>)>) -> Seq<IrView> {
    v.map_values(|x: (String, String, Vec<usize>)| (x.0@, x.1@, x.2@))
}

/// The number of binary digits of `n`.
fn bit_length(n: u64) -> (w: u64)
    ensures
        w == bits(n as nat),
{
    let mut m: u64 = n;
    let mut w: u64 = 0;
    proof {
        lemma_bits_le(n as nat);
    }
    while m > 0
        invariant
            w + bits(m as nat) == bits(n as nat),
            bits(n as nat) <= n,
        decreases m,
    {
        proof {
            lemma_bits_le(m as nat);
        }
        m = m / 2;
        w = w + 1;
    }
    w
}

impl NetlistBuilder {
    pub closed spec fn wf(&self) -> bool {
        netlist_wf(self.nodes@, self.signals@) && node_widths_ok(self.nodes@, self.signals@)
    }

    /// An empty builder.
    pub fn new() -> (b: Self)
        ensures
            b.wf(),
            b@.0.len() == 0,
            b@.1.len() == 0,
    {
        let b = NetlistBuilder { nodes: Vec::new(), signals: Vec::new() };
        proof {
            reveal(node_widths_ok);
        }
        b
    }

    /// The id the next node gets.
    fn alloc_id(&self) -> (id: NodeId)
        ensures
            id == self.nodes@.len(),
    {
        self.nodes.len()
    }

    /// Appends a node that refers to earlier nodes only.
    fn add_node(&mut self, node: Node) -> (id: NodeId)
        requires
            old(self).wf(),
            node.spec_id() == old(self).nodes@.len(),
            node.refs_below(old(self).nodes@.len() as int, old(self).signals@.len() as int),
            !(node is Drive),
            node_width_ok(node, old(self).nodes@, old(self).signals@),
        ensures
            final(self).wf(),
            final(self).nodes@ == old(self).nodes@.push(node),
            final(self).signals@ == old(self).signals@,
            id == old(self).nodes@.len(),
    {
        let id = match &node {
            Node::Const { id, .. } => *id,
            Node::ReadSignal { id, .. } => *id,
            Node::BinOp { id, .. } => *id,
            Node::UnaryOp { id, .. } => *id,
            Node::Ternary { id, .. } => *id,
            Node::Drive { id, .. } => *id,
        };
        let ghost old_nodes = self.nodes@;
        self.nodes.push(node);
        proof {
            let nodes = self.nodes@;
            let sigs = self.signals@;
            assert forall|k: int| 0 <= k < nodes.len() implies #[trigger] nodes[k].refs_below(k, sigs.len() as int) by {
                if k < old_nodes.len() {
                    assert(nodes[k] == old_nodes[k]);
                }
            }
            assert forall|k: int| 0 <= k < nodes.len() implies (#[trigger] nodes[k]).spec_id() == k by {
                if k < old_nodes.len() {
                    assert(nodes[k] == old_nodes[k]);
                }
            }
            assert forall|k: int| 0 <= k < sigs.len() && (#[trigger] sigs[k]).driver_node is Some implies drives(
                nodes,
                sigs[k].driver_node->0 as int,
                k,
                sigs[k].driver_kind->0,
            ) by {
                assert(drives(old_nodes, sigs[k].driver_node->0 as int, k, sigs[k].driver_kind->0));
            }
            assert forall|d: int|
                0 <= d < nodes.len() implies (#[trigger] nodes[d] matches Node::Drive { signal_id, width, .. }
                ==> width == sigs[signal_id as int].width) by {
                if d < old_nodes.len() {
                    assert(nodes[d] == old_nodes[d]);
                }
            }
            assert forall|d: int, i: int| #[trigger] drives(nodes, d, i, DriveKind::Sequential) implies sigs[i].kind is Reg by {
                assert(drives(old_nodes, d, i, DriveKind::Sequential));
            }
            assert forall|i: int|
                0 <= i < sigs.len() && !((#[trigger] sigs[i]).kind is Wire) implies exists|d: int|
                #[trigger] drives(nodes, d, i, DriveKind::Sequential) by {
                let d = choose|d: int| #[trigger] drives(old_nodes, d, i, DriveKind::Sequential);
                assert(drives(nodes, d, i, DriveKind::Sequential));
            }
            assert forall|d: int, i: int, k: DriveKind| #[trigger] drives(nodes, d, i, k) implies sigs[i].driver_node
                == Some(d as NodeId) && sigs[i].driver_kind == Some(k) by {
                assert(drives(old_nodes, d, i, k));
            }
            lemma_node_widths_grow(old_nodes, sigs, nodes, sigs);
            assert(node_width_ok(nodes[old_nodes.len() as int], nodes, sigs)) by {
                let n = nodes[old_nodes.len() as int];
                assert(n == node);
                match n {
                    Node::BinOp { lhs, rhs, .. } => {
                        assert(nodes[lhs as int] == old_nodes[lhs as int]);
                        assert(nodes[rhs as int] == old_nodes[rhs as int]);
                    },
                    Node::UnaryOp { operand, .. } => {
                        assert(nodes[operand as int] == old_nodes[operand as int]);
                    },
                    Node::Ternary { then_branch, else_branch, .. } => {
                        assert(nodes[then_branch as int] == old_nodes[then_branch as int]);
                        assert(nodes[else_branch as int] == old_nodes[else_branch as int]);
                    },
                    _ => {},
                }
            }
            reveal(node_widths_ok);
        }
        id
    }

    fn make_const(&mut self, value: u64, width: u64) -> (id: NodeId)
        requires
            old(self).wf(),
        ensures
            final(self).wf(),
            final(self).signals@ == old(self).signals@,
            final(self).nodes@ == old(self).nodes@.push(Node::Const { id, value, width }),
            id == old(self).nodes@.len(),
    {
        let id = self.alloc_id();
        self.add_node(Node::Const { id, value, width })
    }

    fn make_read_signal(&mut self, signal_id: usize, signal_name: &str, width: u64) -> (id: NodeId)
        requires
            old(self).wf(),
            signal_id < old(self).signals@.len(),
            width == old(self).signals@[signal_id as int].width,
        ensures
            final(self).wf(),
            final(self).signals@ == old(self).signals@,
            final(self).nodes@.len() == old(self).nodes@.len() + 1,
            is_prefix(old(self).nodes@, final(self).nodes@),
            final(self).nodes@[id as int] matches Node::ReadSignal { signal_id: s, width: w, .. } && s == signal_id && w
                == width,
            nodes_view(final(self).nodes@) == nodes_view(old(self).nodes@).push(
                SNode::ReadSignal { id: id as int, signal_id: signal_id as int, signal_name: signal_name@, width },
            ),
            id == old(self).nodes@.len(),
    {
        let id = self.alloc_id();
        let ghost n0 = self.nodes@;
        let r = self.add_node(Node::ReadSignal { id, signal_id, signal_name: String::from_str(signal_name), width });
        assert(nodes_view(self.nodes@) =~= nodes_view(n0).push(self.nodes@[id as int]@));
        r
    }

    fn make_binop(&mut self, op: BinOp, lhs: NodeId, rhs: NodeId, width: u64) -> (id: NodeId)
        requires
            old(self).wf(),
            lhs < old(self).nodes@.len(),
            rhs < old(self).nodes@.len(),
            node_width_ok(Node::BinOp { id: 0, op, lhs, rhs, width }, old(self).nodes@, old(self).signals@),
        ensures
            final(self).wf(),
            final(self).signals@ == old(self).signals@,
            final(self).nodes@ == old(self).nodes@.push(Node::BinOp { id, op, lhs, rhs, width }),
            id == old(self).nodes@.len(),
    {
        let id = self.alloc_id();
        self.add_node(Node::BinOp { id, op, lhs, rhs, width })
    }

    fn make_unaryop(&mut self, op: UnOp, operand: NodeId, width: u64) -> (id: NodeId)
        requires
            old(self).wf(),
            operand < old(self).nodes@.len(),
            node_width_ok(Node::UnaryOp { id: 0, op, operand, width }, old(self).nodes@, old(self).signals@),
        ensures
            final(self).wf(),
            final(self).signals@ == old(self).signals@,
            final(self).nodes@ == old(self).nodes@.push(Node::UnaryOp { id, op, operand, width }),
            id == old(self).nodes@.len(),
    {
        let id = self.alloc_id();
        self.add_node(Node::UnaryOp { id, op, operand, width })
    }

    fn make_ternary(&mut self, cond: NodeId, then_branch: NodeId, else_branch: NodeId, width: u64) -> (id: NodeId)
        requires
            old(self).wf(),
            cond < old(self).nodes@.len(),
            then_branch < old(self).nodes@.len(),
            else_branch < old(self).nodes@.len(),
            width == wider(
                old(self).nodes@[then_branch as int].spec_width(),
                old(self).nodes@[else_branch as int].spec_width(),
            ),
        ensures
            final(self).wf(),
            final(self).signals@ == old(self).signals@,
            final(self).nodes@ == old(self).nodes@.push(Node::Ternary { id, cond, then_branch, else_branch, width }),
            id == old(self).nodes@.len(),
    {
        let id = self.alloc_id();
        self.add_node(Node::Ternary { id, cond, then_branch, else_branch, width })
    }

    /// Width of node `node_id`.
    fn node_width(&self, node_id: NodeId) -> (w: u64)
        requires
            node_id < self.nodes@.len(),
        ensures
            w == self.nodes@[node_id as int].spec_width(),
    {
        match &self.nodes[node_id] {
            Node::Const { width, .. } => *width,
            Node::ReadSignal { width, .. } => *width,
            Node::BinOp { width, .. } => *width,
            Node::UnaryOp { width, .. } => *width,
            Node::Ternary { width, .. } => *width,
            Node::Drive { width, .. } => *width,
        }
    }
}

/// A number has at most as many binary digits as its value.
proof fn lemma_bits_le(n: nat)
    ensures
        bits(n) <= n,
        n > 0 ==> bits(n) >= 1,
    decreases n,
{
    if n > 0 {
        lemma_bits_le(n / 2);
    }
}

/// Position of the remapping of instance `name`.
fn find_ir_in(irs: &Vec<(String, String, Vec<usize>)>, name: &String) -> (r: Option<usize>)
    ensures
        match r {
            Some(i) => find_instance(irs_tab(irs_view(irs@)), name@) == i && i < irs@.len(),
            None => find_instance(irs_tab(irs_view(irs@)), name@) == -1,
        },
{
    let ghost t = irs_tab(irs_view(irs@));
    let mut i: usize = 0;
    while i < irs.len()
        invariant
            t == irs_tab(irs_view(irs@)),
            i <= irs@.len(),
            find_instance(t, name@) == find_instance_from(t, name@, i as int),
        decreases irs@.len() - i,
    {
        assert(t[i as int].0 == irs@[i as int].0@);
        if irs[i].0 == *name {
            return Some(i);
        }
        i += 1;
    }
    None
}

impl NetlistBuilder {
    /// Builds the nodes of an expression whose local signal `k` is global
    /// signal `remap[k]` and whose instance reads go through `irs`; returns
    /// the node that computes it. A bit-vector literal is cut to its stated
    /// width; a decimal literal is as wide as its value needs.
    #[verifier::rlimit(40)]
    fn build_expr(
        &mut self,
        expr: &ResolvedExpr,
        remap: &Vec<usize>,
        irs: &Vec<(String, String, Vec<usize>)>,
        modules: &Vec<ResolvedModuleDef>,
    ) -> (id: NodeId)
        requires
            old(self).wf(),
            expr_ok(expr@, remap@, irs_view(irs@), mods_view(modules@), old(self).signals@.len() as int),
        ensures
            final(self).wf(),
            final(self).signals@ == old(self).signals@,
            is_prefix(old(self).nodes@, final(self).nodes@),
            old(self).nodes@.len() <= id < final(self).nodes@.len(),
            forall|vals: Seq<u64>|
                vals.len() >= old(self).signals@.len() ==> node_value(final(self).nodes@, id as int, vals)
                    == rexpr_value(expr@, remap@, irs_view(irs@), mods_view(modules@), vals),
            final(self).nodes@[id as int].spec_width() == rexpr_width(
                expr@,
                remap@,
                irs_view(irs@),
                mods_view(modules@),
                widths_of(old(self).signals@),
            ),
            nodes_view(final(self).nodes@) == nodes_view(old(self).nodes@) + expr_nodes(
                expr@,
                old(self).nodes@.len() as int,
                remap@,
                irs_view(irs@),
                mods_view(modules@),
                names_of(old(self).signals@),
                widths_of(old(self).signals@),
            ),
            id == final(self).nodes@.len() - 1,
        decreases expr,
    {
        let ghost irv = irs_view(irs@);
        let ghost mv = mods_view(modules@);
        let ghost nsig = self.signals@.len() as int;
        let ghost n0 = self.nodes@;
        proof {
            lemma_reads_below_sub(expr@, remap@.len() as int);
        }
        match expr {
            ResolvedExpr::Number(n) => {
                let width = if *n == 0 {
                    1
                } else {
                    bit_length(*n)
                };
                let id = self.make_const(*n, width);
                assert(nodes_view(self.nodes@) =~= nodes_view(n0).push(self.nodes@[id as int]@));
                assert(width == num_width(*n));
                assert(self.nodes@[id as int]@ == SNode::Const { id: n0.len() as int, value: *n, width: num_width(*n) });
                assert(nodes_view(self.nodes@) =~= nodes_view(n0) + expr_nodes(
                    expr@,
                    n0.len() as int,
                    remap@,
                    irv,
                    mv,
                    names_of(self.signals@),
                    widths_of(self.signals@),
                ));
                id
            },
            ResolvedExpr::BitVecLiteral { width, value } => {
                let masked = mask_to_width(*value, *width);
                let id = self.make_const(masked, *width);
                assert(nodes_view(self.nodes@) =~= nodes_view(n0).push(self.nodes@[id as int]@));
                assert(nodes_view(self.nodes@) =~= nodes_view(n0) + expr_nodes(
                    expr@,
                    n0.len() as int,
                    remap@,
                    irv,
                    mv,
                    names_of(self.signals@),
                    widths_of(self.signals@),
                ));
                id
            },
            ResolvedExpr::Ident(signal_id) => {
                assert(reads(expr@) == seq![*signal_id]);
                assert(reads(expr@)[0] == *signal_id);
                let global = remap[*signal_id];
                let name = self.signals[global].name.clone();
                let width = self.signals[global].width;
                let id = self.make_read_signal(global, name.as_str(), width);
                assert(nodes_view(self.nodes@) =~= nodes_view(n0) + expr_nodes(
                    expr@,
                    n0.len() as int,
                    remap@,
                    irv,
                    mv,
                    names_of(self.signals@),
                    widths_of(self.signals@),
                ));
                id
            },
            ResolvedExpr::InstanceField { instance_name, port_name } => {
                let ii = match find_ir_in(irs, instance_name) {
                    Some(ii) => ii,
                    None => {
                        assert(false);
                        0
                    },
                };
                let mi = match find_module_in(modules, &irs[ii].1) {
                    Some(mi) => mi,
                    None => {
                        assert(false);
                        0
                    },
                };
                let md = &modules[mi];
                assert(mv[mi as int].ports == ports_view(md.ports@));
                let pi = match find_port_in(&md.ports, port_name) {
                    Some(pi) => pi,
                    None => {
                        assert(false);
                        0
                    },
                };
                assert(irv[ii as int].1 == irs@[ii as int].1@);
                assert(irv[ii as int].2 == irs@[ii as int].2@);
                assert(mv[mi as int].ports[pi as int].signal_id == md.ports@[pi as int].signal_id);
                let local = md.ports[pi].signal_id;
                assert(irs_ok(irv, mv, nsig));
                assert(0 <= ii < irv.len());
                let global = irs[ii].2[local];
                let name = self.signals[global].name.clone();
                let width = self.signals[global].width;
                let id = self.make_read_signal(global, name.as_str(), width);
                assert(nodes_view(self.nodes@) =~= nodes_view(n0) + expr_nodes(
                    expr@,
                    n0.len() as int,
                    remap@,
                    irv,
                    mv,
                    names_of(self.signals@),
                    widths_of(self.signals@),
                ));
                id
            },
            ResolvedExpr::BinOp { op, lhs, rhs } => {
                let l = self.build_expr(lhs, remap, irs, modules);
                let ghost n1 = self.nodes@;
                let r = self.build_expr(rhs, remap, irs, modules);
                let ghost n2 = self.nodes@;
                let lw = self.node_width(l);
                let rw = self.node_width(r);
                assert(n2[l as int] == n1[l as int]);
                let width = match op {
                    BinOp::Or | BinOp::And | BinOp::Eq | BinOp::Neq | BinOp::Lt | BinOp::Le | BinOp::Gt
                    | BinOp::Ge => 1,
                    _ => if lw >= rw {
                        lw
                    } else {
                        rw
                    },
                };
                let id = self.make_binop(*op, l, r, width);
                proof {
                    let n3 = self.nodes@;
                    assert(nodes_view(n3) =~= nodes_view(n2).push(n3[id as int]@));
                    assert(nodes_view(self.nodes@) =~= nodes_view(n0) + expr_nodes(
                        expr@,
                        n0.len() as int,
                        remap@,
                        irv,
                        mv,
                        names_of(self.signals@),
                        widths_of(self.signals@),
                    ));
                    assert forall|vals: Seq<u64>| vals.len() >= nsig implies node_value(n3, id as int, vals)
                        == rexpr_value(expr@, remap@, irv, mv, vals) by {
                        lemma_node_value_prefix(n2, n3, l as int, vals);
                        lemma_node_value_prefix(n2, n3, r as int, vals);
                        lemma_node_value_prefix(n1, n2, l as int, vals);
                    }
                }
                id
            },
            ResolvedExpr::UnaryOp { op, expr: operand } => {
                let o = self.build_expr(operand, remap, irs, modules);
                let ghost n1 = self.nodes@;
                let width = match op {
                    UnOp::Not => 1,
                    UnOp::BitNot => self.node_width(o),
                };
                let id = self.make_unaryop(*op, o, width);
                proof {
                    let n3 = self.nodes@;
                    assert(nodes_view(n3) =~= nodes_view(n1).push(n3[id as int]@));
                    assert(nodes_view(self.nodes@) =~= nodes_view(n0) + expr_nodes(
                        expr@,
                        n0.len() as int,
                        remap@,
                        irv,
                        mv,
                        names_of(self.signals@),
                        widths_of(self.signals@),
                    ));
                    assert forall|vals: Seq<u64>| vals.len() >= nsig implies node_value(n3, id as int, vals)
                        == rexpr_value(expr@, remap@, irv, mv, vals) by {
                        lemma_node_value_prefix(n1, n3, o as int, vals);
                    }
                }
                id
            },
            ResolvedExpr::Ternary { cond, then_branch, else_branch } => {
                let c = self.build_expr(cond, remap, irs, modules);
                let ghost n1 = self.nodes@;
                let t = self.build_expr(then_branch, remap, irs, modules);
                let ghost n2 = self.nodes@;
                let e = self.build_expr(else_branch, remap, irs, modules);
                let ghost n3 = self.nodes@;
                let tw = self.node_width(t);
                let ew = self.node_width(e);
                assert(n3[t as int] == n2[t as int]);
                let width = if tw >= ew {
                    tw
                } else {
                    ew
                };
                let id = self.make_ternary(c, t, e, width);
                proof {
                    let n4 = self.nodes@;
                    assert(nodes_view(n4) =~= nodes_view(n3).push(n4[id as int]@));
                    assert(nodes_view(self.nodes@) =~= nodes_view(n0) + expr_nodes(
                        expr@,
                        n0.len() as int,
                        remap@,
                        irv,
                        mv,
                        names_of(self.signals@),
                        widths_of(self.signals@),
                    ));
                    assert forall|vals: Seq<u64>| vals.len() >= nsig implies node_value(n4, id as int, vals)
                        == rexpr_value(expr@, remap@, irv, mv, vals) by {
                        lemma_node_value_prefix(n3, n4, c as int, vals);
                        lemma_node_value_prefix(n3, n4, t as int, vals);
                        lemma_node_value_prefix(n3, n4, e as int, vals);
                        lemma_node_value_prefix(n1, n3, c as int, vals);
                        lemma_node_value_prefix(n2, n3, t as int, vals);
                    }
                }
                id
            },
        }
    }
}

/// Signals `a` are kept at the front of `b`, with their ids, names and widths.
pub open spec fn same_shape(a: Seq<NetlistSignal>, b: Seq<NetlistSignal>) -> bool {
    &&& a.len() <= b.len()
    &&& forall|k: int|
        0 <= k < a.len() ==> (#[trigger] b[k]).id == a[k].id && b[k].name@ == a[k].name@ && b[k].width
            == a[k].width
}

/// Signal lists of the same shape and length have the same names and widths.
pub proof fn lemma_same_shape_names(a: Seq<NetlistSignal>, b: Seq<NetlistSignal>)
    requires
        same_shape(a, b),
        a.len() == b.len(),
    ensures
        names_of(a) == names_of(b),
        widths_of(a) == widths_of(b),
{
    assert(names_of(a) =~= names_of(b));
    assert(widths_of(a) =~= widths_of(b));
}

/// The names and widths of `a` begin those of a list of the same shape.
pub proof fn lemma_names_prefix(a: Seq<NetlistSignal>, b: Seq<NetlistSignal>)
    requires
        same_shape(a, b),
    ensures
        names_of(b).take(a.len() as int) == names_of(a),
        widths_of(b).take(a.len() as int) == widths_of(a),
{
    assert(names_of(b).take(a.len() as int) =~= names_of(a));
    assert(widths_of(b).take(a.len() as int) =~= widths_of(a));
}

/// A signal name under an instance path (`prefix.name`, or `name` at the top).
pub open spec fn scoped(prefix: Seq<char>, name: Seq<char>) -> Seq<char> {
    if prefix.len() == 0 {
        name
    } else {
        prefix + "."@ + name
    }
}

/// Some drive of signal `sig`, of kind `kind`, computes expression `e` for
/// every assignment of values to at least `nsig` signals.
pub open spec fn drive_fact(
    nodes: Seq<Node>,
    nsig: int,
    sig: int,
    kind: DriveKind,
    e: SRExpr,
    remap: Seq<usize>,
    irs: Seq<IrView>,
    mods: Seq<SRModule>,
) -> bool {
    exists|d: int|
        #[trigger] drives(nodes, d, sig, kind) && forall|vals: Seq<u64>|
            vals.len() >= nsig ==> node_value(nodes, d, vals) == rexpr_value(e, remap, irs, mods, vals)
}

/// A drive fact survives appending nodes and signals.
pub proof fn lemma_drive_fact_grow(
    n1: Seq<Node>,
    n2: Seq<Node>,
    nsig1: int,
    nsig2: int,
    sig: int,
    kind: DriveKind,
    e: SRExpr,
    remap: Seq<usize>,
    irs: Seq<IrView>,
    mods: Seq<SRModule>,
)
    requires
        drive_fact(n1, nsig1, sig, kind, e, remap, irs, mods),
        is_prefix(n1, n2),
        nsig1 <= nsig2,
    ensures
        drive_fact(n2, nsig2, sig, kind, e, remap, irs, mods),
{
    let d = choose|d: int|
        #[trigger] drives(n1, d, sig, kind) && forall|vals: Seq<u64>|
            vals.len() >= nsig1 ==> node_value(n1, d, vals) == rexpr_value(e, remap, irs, mods, vals);
    assert(n2[d] == n1[d]);
    assert(drives(n2, d, sig, kind));
    assert forall|vals: Seq<u64>| vals.len() >= nsig2 implies node_value(n2, d, vals) == rexpr_value(
        e,
        remap,
        irs,
        mods,
        vals,
    ) by {
        lemma_node_value_prefix(n1, n2, d, vals);
    }
}

/// The drive kind of an assignment.
pub open spec fn stmt_kind(s: SRStmt) -> DriveKind {
    match s {
        SRStmt::Combinational { .. } => DriveKind::Combinational,
        SRStmt::Sequential { .. } => DriveKind::Sequential,
    }
}

/// Some sequential assignment of `stmts` targets global signal `k`.
pub open spec fn seq_targets(stmts: Seq<SRStmt>, remap: Seq<usize>, k: int) -> bool {
    exists|s: int| 0 <= s < stmts.len() && (#[trigger] stmts[s]) is Sequential && remap[stmts[s].target_id() as int] == k
}

/// Some assignment of `stmts` targets global signal `k`.
pub open spec fn any_targets(stmts: Seq<SRStmt>, remap: Seq<usize>, k: int) -> bool {
    exists|s: int| 0 <= s < stmts.len() && remap[(#[trigger] stmts[s]).target_id() as int] == k
}

/// No two assignments drive the same global signal.
pub open spec fn targets_distinct(stmts: Seq<SRStmt>, remap: Seq<usize>) -> bool {
    forall|s1: int, s2: int|
        0 <= s1 < stmts.len() && 0 <= s2 < stmts.len() && s1 != s2 ==> remap[(#[trigger] stmts[s1]).target_id() as int]
            != remap[(#[trigger] stmts[s2]).target_id() as int]
}

/// The name of a signal under an instance path.
fn scoped_name(prefix: &str, name: &str) -> (s: String)
    ensures
        s@ == scoped(prefix@, name@),
{
    if prefix.is_empty() {
        String::from_str(name)
    } else {
        String::from_str(prefix).concat(".").concat(name)
    }
}

impl NetlistBuilder {
    /// Appends a drive node.
    fn make_drive(&mut self, signal_id: usize, signal_name: &str, source: NodeId, kind: DriveKind, width: u64) -> (id:
        NodeId)
        ensures
            final(self).signals@ == old(self).signals@,
            final(self).nodes@.len() == old(self).nodes@.len() + 1,
            is_prefix(old(self).nodes@, final(self).nodes@),
            final(self).nodes@[id as int] matches Node::Drive { id: i, signal_id: s, source: src, kind: k, width: w, .. }
                && i == id && s == signal_id && src == source && k == kind && w == width,
            nodes_view(final(self).nodes@) == nodes_view(old(self).nodes@).push(
                SNode::Drive {
                    id: id as int,
                    signal_id: signal_id as int,
                    signal_name: signal_name@,
                    source: source as int,
                    kind,
                    width,
                },
            ),
            id == old(self).nodes@.len(),
    {
        let id = self.alloc_id();
        let ghost n0 = self.nodes@;
        self.nodes.push(
            Node::Drive { id, signal_id, signal_name: String::from_str(signal_name), source, kind, width },
        );
        assert(nodes_view(self.nodes@) =~= nodes_view(n0).push(self.nodes@[id as int]@));
        id
    }

    /// Drives global signal `target_global` from node `source`, records the
    /// driver on the signal, and makes the signal a register (triggered by
    /// `clock`) when the drive is sequential.
    fn drive_signal(&mut self, target_global: usize, source: NodeId, kind: DriveKind, clock: Option<ClockTrigger>) -> (d:
        NodeId)
        requires
            old(self).wf(),
            target_global < old(self).signals@.len(),
            old(self).signals@[target_global as int].driver_node is None,
            source < old(self).nodes@.len(),
        ensures
            final(self).wf(),
            is_prefix(old(self).nodes@, final(self).nodes@),
            same_shape(old(self).signals@, final(self).signals@),
            final(self).signals@.len() == old(self).signals@.len(),
            drives(final(self).nodes@, d as int, target_global as int, kind),
            final(self).nodes@[d as int] matches Node::Drive { source: src, .. } && src == source,
            d == old(self).nodes@.len(),
            nodes_view(final(self).nodes@) == nodes_view(old(self).nodes@).push(
                SNode::Drive {
                    id: d as int,
                    signal_id: target_global as int,
                    signal_name: old(self).signals@[target_global as int].name@,
                    source: source as int,
                    kind,
                    width: old(self).signals@[target_global as int].width,
                },
            ),
            forall|k: int|
                0 <= k < old(self).signals@.len() && k != target_global ==> #[trigger] final(self).signals@[k]
                    == old(self).signals@[k],
            final(self).signals@[target_global as int].kind == (match kind {
                DriveKind::Sequential => SignalKind::Reg { clock, reset: None },
                DriveKind::Combinational => old(self).signals@[target_global as int].kind,
            }),
    {
        let ghost old_nodes = self.nodes@;
        let ghost old_sigs = self.signals@;
        let name = self.signals[target_global].name.clone();
        let width = self.signals[target_global].width;
        let d = self.make_drive(target_global, name.as_str(), source, kind, width);
        let old_sig = &self.signals[target_global];
        let new_kind = match kind {
            DriveKind::Sequential => SignalKind::Reg { clock, reset: None },
            DriveKind::Combinational => old_sig.kind,
        };
        let ns = NetlistSignal {
            id: old_sig.id,
            name: old_sig.name.clone(),
            width: old_sig.width,
            driver_node: Some(d),
            driver_kind: Some(kind),
            kind: new_kind,
        };
        self.signals.set(target_global, ns);
        proof {
            let nodes = self.nodes@;
            let sigs = self.signals@;
            let t = target_global as int;
            assert(drives(nodes, d as int, t, kind));
            assert forall|k: int| 0 <= k < nodes.len() implies #[trigger] nodes[k].refs_below(k, sigs.len() as int) by {
                if k < old_nodes.len() {
                    assert(nodes[k] == old_nodes[k]);
                    assert(old_nodes[k].refs_below(k, old_sigs.len() as int));
                }
            }
            assert forall|k: int| 0 <= k < nodes.len() implies (#[trigger] nodes[k]).spec_id() == k by {
                if k < old_nodes.len() {
                    assert(nodes[k] == old_nodes[k]);
                }
            }
            assert forall|k: int| 0 <= k < sigs.len() && (#[trigger] sigs[k]).driver_node is Some implies drives(
                nodes,
                sigs[k].driver_node->0 as int,
                k,
                sigs[k].driver_kind->0,
            ) by {
                if k != t {
                    assert(sigs[k] == old_sigs[k]);
                    assert(drives(old_nodes, sigs[k].driver_node->0 as int, k, sigs[k].driver_kind->0));
                }
            }
            assert forall|dd: int|
                0 <= dd < nodes.len() implies (#[trigger] nodes[dd] matches Node::Drive { signal_id, width, .. }
                ==> width == sigs[signal_id as int].width) by {
                if dd < old_nodes.len() {
                    assert(nodes[dd] == old_nodes[dd]);
                    assert(old_nodes[dd].refs_below(dd, old_sigs.len() as int));
                    match old_nodes[dd] {
                        Node::Drive { signal_id, .. } => {
                            assert(sigs[signal_id as int].width == old_sigs[signal_id as int].width);
                        },
                        _ => {},
                    }
                }
            }
            assert forall|dd: int, i: int| #[trigger] drives(nodes, dd, i, DriveKind::Sequential) implies sigs[i].kind is Reg by {
                if dd < old_nodes.len() {
                    assert(drives(old_nodes, dd, i, DriveKind::Sequential));
                    assert(old_nodes[dd].refs_below(dd, old_sigs.len() as int));
                    assert(old_sigs[i].kind is Reg);
                    if i == t {
                        assert(sigs[i].kind is Reg);
                    } else {
                        assert(sigs[i] == old_sigs[i]);
                    }
                }
            }
            assert forall|i: int|
                0 <= i < sigs.len() && !((#[trigger] sigs[i]).kind is Wire) implies exists|dd: int|
                #[trigger] drives(nodes, dd, i, DriveKind::Sequential) by {
                if i == t && kind == DriveKind::Sequential {
                    assert(drives(nodes, d as int, i, DriveKind::Sequential));
                } else {
                    assert(sigs[i].kind == old_sigs[i].kind);
                    let w = choose|dd: int| #[trigger] drives(old_nodes, dd, i, DriveKind::Sequential);
                    assert(drives(nodes, w, i, DriveKind::Sequential));
                }
            }
            assert forall|dd: int, i: int, k: DriveKind| #[trigger] drives(nodes, dd, i, k) implies sigs[i].driver_node
                == Some(dd as NodeId) && sigs[i].driver_kind == Some(k) by {
                if dd < old_nodes.len() {
                    assert(nodes[dd] == old_nodes[dd]);
                    assert(drives(old_nodes, dd, i, k));
                    assert(old_nodes[dd].refs_below(dd, old_sigs.len() as int));
                    if i == t {
                        assert(old_sigs[t].driver_node == Some(dd as NodeId));
                    } else {
                        assert(sigs[i] == old_sigs[i]);
                    }
                }
            }
            lemma_node_widths_grow(old_nodes, old_sigs, nodes, sigs);
            reveal(node_widths_ok);
        }
        d
    }
}

impl NetlistBuilder {
    /// Appends the signals of a scope, named under `prefix`, undriven wires;
    /// returns the global id of each.
    fn add_scope_signals(&mut self, sigs: &Vec<ResolvedSignal>, prefix: &str) -> (remap: Vec<usize>)
        requires
            old(self).wf(),
        ensures
            final(self).wf(),
            final(self).nodes@ == old(self).nodes@,
            same_shape(old(self).signals@, final(self).signals@),
            final(self).signals@.len() == old(self).signals@.len() + sigs@.len(),
            forall|k: int| 0 <= k < old(self).signals@.len() ==> #[trigger] final(self).signals@[k] == old(self).signals@[k],
            forall|k: int|
                0 <= k < sigs@.len() ==> {
                    let s = #[trigger] final(self).signals@[old(self).signals@.len() + k];
                    &&& s.name@ == scoped(prefix@, sigs@[k].name@)
                    &&& s.width == sigs@[k].width
                    &&& s.kind == SignalKind::Wire
                    &&& s.driver_node is None
                },
            remap@.len() == sigs@.len(),
            forall|k: int| 0 <= k < sigs@.len() ==> #[trigger] remap@[k] == old(self).signals@.len() + k,
    {
        let ghost base = self.signals@.len();
        let ghost old_sigs = self.signals@;
        let mut remap: Vec<usize> = Vec::new();
        let mut k: usize = 0;
        while k < sigs.len()
            invariant
                netlist_wf(self.nodes@, self.signals@),
                self.nodes@ == old(self).nodes@,
                old_sigs == old(self).signals@,
                base == old_sigs.len(),
                k <= sigs@.len(),
                self.signals@.len() == base + k,
                remap@.len() == k,
                forall|j: int| 0 <= j < base ==> #[trigger] self.signals@[j] == old_sigs[j],
                forall|j: int|
                    0 <= j < k ==> {
                        let s = #[trigger] self.signals@[base + j];
                        &&& s.name@ == scoped(prefix@, sigs@[j].name@)
                        &&& s.width == sigs@[j].width
                        &&& s.kind == SignalKind::Wire
                        &&& s.driver_node is None
                    },
                forall|j: int| 0 <= j < k ==> #[trigger] remap@[j] == base + j,
            decreases sigs@.len() - k,
        {
            let ghost before = self.signals@;
            let id = self.signals.len();
            let sig = NetlistSignal {
                id,
                name: scoped_name(prefix, sigs[k].name.as_str()),
                width: sigs[k].width,
                driver_node: None,
                driver_kind: None,
                kind: SignalKind::Wire,
            };
            self.signals.push(sig);
            remap.push(id);
            proof {
                let nodes = self.nodes@;
                let after = self.signals@;
                assert(after[base + k] == sig);
                assert forall|j: int| 0 <= j < before.len() implies #[trigger] after[j] == before[j] by {}
                assert forall|i: int| 0 <= i < nodes.len() implies #[trigger] nodes[i].refs_below(i, after.len() as int) by {
                    assert(nodes[i].refs_below(i, before.len() as int));
                }
                assert forall|dd: int|
                    0 <= dd < nodes.len() implies (#[trigger] nodes[dd] matches Node::Drive { signal_id, width, .. }
                    ==> width == after[signal_id as int].width) by {
                    assert(nodes[dd].refs_below(dd, before.len() as int));
                }
                assert forall|dd: int, i: int| #[trigger] drives(nodes, dd, i, DriveKind::Sequential) implies after[i].kind is Reg by {
                    assert(nodes[dd].refs_below(dd, before.len() as int));
                }
                assert forall|i: int|
                    0 <= i < after.len() && !((#[trigger] after[i]).kind is Wire) implies exists|dd: int|
                    #[trigger] drives(nodes, dd, i, DriveKind::Sequential) by {
                    assert(i < before.len());
                }
                assert forall|i: int| 0 <= i < after.len() && (#[trigger] after[i]).driver_node is Some implies drives(
                    nodes,
                    after[i].driver_node->0 as int,
                    i,
                    after[i].driver_kind->0,
                ) by {
                    assert(i < before.len());
                }
                assert forall|dd: int, i: int, kk: DriveKind| #[trigger] drives(nodes, dd, i, kk) implies after[i].driver_node
                    == Some(dd as NodeId) && after[i].driver_kind == Some(kk) by {
                    assert(nodes[dd].refs_below(dd, before.len() as int));
                    assert(after[i] == before[i]);
                }
            }
            k += 1;
        }
        proof {
            lemma_node_widths_grow(old(self).nodes@, old_sigs, self.nodes@, self.signals@);
            reveal(node_widths_ok);
        }
        remap
    }

    /// Drives each assignment's target (through `remap`) from the nodes of its
    /// right-hand side; sequential targets become registers triggered by
    /// `clock`.
    fn drive_stmts(
        &mut self,
        stmts: &Vec<ResolvedStmt>,
        remap: &Vec<usize>,
        irs: &Vec<(String, String, Vec<usize>)>,
        modules: &Vec<ResolvedModuleDef>,
        clock: Option<ClockTrigger>,
    )
        requires
            old(self).wf(),
            stmts_below(stmts_of(stmts@), remap@.len() as int),
            forall|s: int|
                0 <= s < stmts@.len() ==> fields_ok(
                    #[trigger] stmts_of(stmts@)[s].expr(),
                    irs_tab(irs_view(irs@)),
                    mods_view(modules@),
                ),
            remap_ok(remap@, old(self).signals@.len() as int),
            irs_ok(irs_view(irs@), mods_view(modules@), old(self).signals@.len() as int),
            targets_distinct(stmts_of(stmts@), remap@),
            forall|s: int|
                0 <= s < stmts@.len() ==> old(self).signals@[remap@[(#[trigger] stmts_of(stmts@)[s]).target_id() as int] as int].driver_node is None,
        ensures
            final(self).wf(),
            is_prefix(old(self).nodes@, final(self).nodes@),
            same_shape(old(self).signals@, final(self).signals@),
            final(self).signals@.len() == old(self).signals@.len(),
            forall|s: int|
                0 <= s < stmts@.len() ==> drive_fact(
                    final(self).nodes@,
                    old(self).signals@.len() as int,
                    remap@[(#[trigger] stmts_of(stmts@)[s]).target_id() as int] as int,
                    stmt_kind(stmts_of(stmts@)[s]),
                    stmts_of(stmts@)[s].expr(),
                    remap@,
                    irs_view(irs@),
                    mods_view(modules@),
                ),
            nodes_view(final(self).nodes@) == nodes_view(old(self).nodes@) + stmts_nodes(
                stmts_of(stmts@),
                old(self).nodes@.len() as int,
                remap@,
                irs_view(irs@),
                mods_view(modules@),
                names_of(old(self).signals@),
                widths_of(old(self).signals@),
            ),
            forall|k: int|
                0 <= k < old(self).signals@.len() && !any_targets(stmts_of(stmts@), remap@, k) ==> #[trigger] final(self).signals@[k] == old(self).signals@[k],
            forall|k: int|
                0 <= k < old(self).signals@.len() && seq_targets(stmts_of(stmts@), remap@, k) ==> (#[trigger] final(self).signals@[k]).kind == (SignalKind::Reg { clock, reset: None }),
            forall|k: int|
                0 <= k < old(self).signals@.len() && !seq_targets(stmts_of(stmts@), remap@, k) ==> (#[trigger] final(self).signals@[k]).kind == old(self).signals@[k].kind,
    {
        let ghost sv = stmts_of(stmts@);
        let ghost nsig = self.signals@.len() as int;
        let ghost old_sigs = self.signals@;
        let ghost old_nodes = self.nodes@;
        let ghost irv = irs_view(irs@);
        let ghost mv = mods_view(modules@);
        let mut i: usize = 0;
        while i < stmts.len()
            invariant
                self.wf(),
                sv == stmts_of(stmts@),
                nsig == old_sigs.len(),
                irv == irs_view(irs@),
                mv == mods_view(modules@),
                old_sigs == old(self).signals@,
                old_nodes == old(self).nodes@,
                i <= stmts@.len(),
                stmts_below(sv, remap@.len() as int),
                forall|s: int| 0 <= s < stmts@.len() ==> fields_ok(#[trigger] sv[s].expr(), irs_tab(irv), mv),
                remap_ok(remap@, nsig),
                irs_ok(irv, mv, nsig),
                targets_distinct(sv, remap@),
                forall|s: int|
                    0 <= s < stmts@.len() ==> old_sigs[remap@[(#[trigger] sv[s]).target_id() as int] as int].driver_node is None,
                is_prefix(old_nodes, self.nodes@),
                same_shape(old_sigs, self.signals@),
                self.signals@.len() == nsig,
                nodes_view(self.nodes@) == nodes_view(old_nodes) + stmts_nodes(
                    sv.take(i as int),
                    old_nodes.len() as int,
                    remap@,
                    irv,
                    mv,
                    names_of(old_sigs),
                    widths_of(old_sigs),
                ),
                forall|s: int|
                    0 <= s < i ==> drive_fact(
                        self.nodes@,
                        nsig,
                        remap@[(#[trigger] sv[s]).target_id() as int] as int,
                        stmt_kind(sv[s]),
                        sv[s].expr(),
                        remap@,
                        irv,
                        mv,
                    ),
                forall|k: int|
                    0 <= k < nsig && !any_targets(sv.take(i as int), remap@, k) ==> #[trigger] self.signals@[k]
                        == old_sigs[k],
                forall|k: int|
                    0 <= k < nsig && seq_targets(sv.take(i as int), remap@, k) ==> (
                    #[trigger] self.signals@[k]).kind == (SignalKind::Reg { clock, reset: None }),
                forall|k: int|
                    0 <= k < nsig && !seq_targets(sv.take(i as int), remap@, k) ==> (
                    #[trigger] self.signals@[k]).kind == old_sigs[k].kind,
            decreases stmts@.len() - i,
        {
            let ghost n_before = self.nodes@;
            let ghost s_before = self.signals@;
            let (target_id, expr, kind) = match &stmts[i] {
                ResolvedStmt::Combinational { target_id, expr } => (*target_id, expr, DriveKind::Combinational),
                ResolvedStmt::Sequential { target_id, expr } => (*target_id, expr, DriveKind::Sequential),
            };
            assert(sv[i as int].target_id() == target_id && sv[i as int].expr() == expr@ && stmt_kind(sv[i as int])
                == kind);
            assert(sv[i as int].target_id() < remap@.len());
            proof {
                lemma_same_shape_names(old_sigs, self.signals@);
            }
            let src = self.build_expr(expr, remap, irs, modules);
            let ghost n_mid = self.nodes@;
            let t = remap[target_id];
            proof {
                let take0 = sv.take(i as int);
                if any_targets(take0, remap@, t as int) {
                    let w = choose|w: int| 0 <= w < take0.len() && remap@[(#[trigger] take0[w]).target_id() as int] == t;
                    assert(take0[w] == sv[w]);
                    assert(remap@[sv[w].target_id() as int] != remap@[sv[i as int].target_id() as int]);
                }
                assert(self.signals@[t as int] == old_sigs[t as int]);
            }
            let d = self.drive_signal(t, src, kind, clock);
            proof {
                let nodes = self.nodes@;
                let sigs = self.signals@;
                let take0 = sv.take(i as int);
                let take1 = sv.take(i + 1);
                assert(take1 =~= take0.push(sv[i as int]));
                assert(take1.drop_last() =~= take0);
                assert(nodes_view(nodes) =~= nodes_view(old_nodes) + stmts_nodes(
                    take1,
                    old_nodes.len() as int,
                    remap@,
                    irv,
                    mv,
                    names_of(old_sigs),
                    widths_of(old_sigs),
                ));
                assert(nodes[d as int] == n_mid.push(nodes[d as int])[d as int]);
                assert forall|vals: Seq<u64>| vals.len() >= nsig implies node_value(nodes, d as int, vals) == rexpr_value(
                    expr@,
                    remap@,
                    irv,
                    mv,
                    vals,
                ) by {
                    lemma_node_value_prefix(n_mid, nodes, src as int, vals);
                }
                assert(drives(nodes, d as int, t as int, kind));
                assert(drive_fact(nodes, nsig, t as int, kind, expr@, remap@, irv, mv));
                assert forall|s: int| 0 <= s < i + 1 implies drive_fact(
                    nodes,
                    nsig,
                    remap@[(#[trigger] sv[s]).target_id() as int] as int,
                    stmt_kind(sv[s]),
                    sv[s].expr(),
                    remap@,
                    irv,
                    mv,
                ) by {
                    if s < i {
                        lemma_drive_fact_grow(
                            n_before,
                            nodes,
                            nsig,
                            nsig,
                            remap@[sv[s].target_id() as int] as int,
                            stmt_kind(sv[s]),
                            sv[s].expr(),
                            remap@,
                            irv,
                            mv,
                        );
                    }
                }
                assert forall|k: int| 0 <= k < nsig && !any_targets(take1, remap@, k) implies #[trigger] sigs[k]
                    == old_sigs[k] by {
                    assert(take1[i as int] == sv[i as int]);
                    assert(k != t);
                    if any_targets(take0, remap@, k) {
                        let w = choose|w: int| 0 <= w < take0.len() && remap@[(#[trigger] take0[w]).target_id() as int] == k;
                        assert(take1[w] == take0[w]);
                    }
                }
                assert forall|k: int| 0 <= k < nsig && seq_targets(take1, remap@, k) implies (
                #[trigger] sigs[k]).kind == (SignalKind::Reg { clock, reset: None }) by {
                    if k == t {
                        if kind == DriveKind::Combinational {
                            let w = choose|w: int|
                                0 <= w < take1.len() && (#[trigger] take1[w]) is Sequential && remap@[take1[w].target_id() as int] == k;
                            assert(w != i);
                            assert(take0[w] == take1[w]);
                            assert(seq_targets(take0, remap@, k));
                        }
                    } else {
                        let w = choose|w: int|
                            0 <= w < take1.len() && (#[trigger] take1[w]) is Sequential && remap@[take1[w].target_id() as int] == k;
                        assert(w != i);
                        assert(take0[w] == take1[w]);
                        assert(seq_targets(take0, remap@, k));
                    }
                }
                assert forall|k: int| 0 <= k < nsig && !seq_targets(take1, remap@, k) implies (
                #[trigger] sigs[k]).kind == old_sigs[k].kind by {
                    if seq_targets(take0, remap@, k) {
                        let w = choose|w: int|
                            0 <= w < take0.len() && (#[trigger] take0[w]) is Sequential && remap@[take0[w].target_id() as int] == k;
                        assert(take1[w] == take0[w]);
                    }
                    if k == t && kind == DriveKind::Sequential {
                        assert(take1[i as int] == sv[i as int]);
                        assert(seq_targets(take1, remap@, k));
                    }
                }
            }
            i += 1;
        }
        proof {
            assert(sv.take(stmts@.len() as int) =~= sv);
        }
    }
}

/// The connection expression of port `name`.
pub open spec fn conn_expr(cs: Seq<(Seq<char>, SRExpr)>, name: Seq<char>) -> SRExpr {
    cs[find_conn(cs, name)].1
}

/// The register trigger of a scope whose clock input is global signal
/// `remap[c]`.
pub open spec fn clock_of(clock_port: Option<usize>, remap: Seq<usize>) -> Option<ClockTrigger> {
    match clock_port {
        Some(c) => Some(ClockTrigger { signal_id: remap[c as int], edge: Edge::Posedge }),
        None => None,
    }
}

impl NetlistBuilder {
    /// Drives each input port of an instance (body signal `p` is global
    /// `inst_remap[p]`) from its connection expression in the instantiating
    /// scope, as a combinational drive.
    fn connect_ports(
        &mut self,
        inst: &ResolvedInstance,
        md: &ResolvedModuleDef,
        inst_remap: &Vec<usize>,
        remap: &Vec<usize>,
        irs: &Vec<(String, String, Vec<usize>)>,
        modules: &Vec<ResolvedModuleDef>,
    )
        requires
            old(self).wf(),
            forall|k: int| 0 <= k < md.ports@.len() ==> (#[trigger] md.ports@[k]).signal_id < inst_remap@.len(),
            remap_ok(inst_remap@, old(self).signals@.len() as int),
            remap_ok(remap@, old(self).signals@.len() as int),
            irs_ok(irs_view(irs@), mods_view(modules@), old(self).signals@.len() as int),
            forall|k: int|
                0 <= k < md.ports@.len() && (#[trigger] md.ports@[k]).direction == Direction::Input ==> find_conn(
                    conns_view(inst.connections@),
                    md.ports@[k].name@,
                ) >= 0,
            forall|c: int|
                0 <= c < inst.connections@.len() ==> reads_below(
                    #[trigger] conns_view(inst.connections@)[c].1,
                    remap@.len() as int,
                ) && fields_ok(conns_view(inst.connections@)[c].1, irs_tab(irs_view(irs@)), mods_view(modules@)),
            forall|p: int|
                0 <= p < md.ports@.len() && (#[trigger] md.ports@[p]).direction == Direction::Input ==> old(
                    self,
                ).signals@[inst_remap@[md.ports@[p].signal_id as int] as int].driver_node is None,
            forall|p1: int, p2: int|
                0 <= p1 < md.ports@.len() && 0 <= p2 < md.ports@.len() && p1 != p2 ==> inst_remap@[(
                #[trigger] md.ports@[p1]).signal_id as int] != inst_remap@[(#[trigger] md.ports@[p2]).signal_id as int],
        ensures
            final(self).wf(),
            is_prefix(old(self).nodes@, final(self).nodes@),
            same_shape(old(self).signals@, final(self).signals@),
            final(self).signals@.len() == old(self).signals@.len(),
            forall|k: int|
                0 <= k < old(self).signals@.len() ==> (#[trigger] final(self).signals@[k]).kind == old(
                    self,
                ).signals@[k].kind,
            forall|k: int|
                0 <= k < old(self).signals@.len() && !(exists|p: int|
                    0 <= p < md.ports@.len() && (#[trigger] md.ports@[p]).direction == Direction::Input
                        && inst_remap@[md.ports@[p].signal_id as int] == k) ==> #[trigger] final(self).signals@[k]
                    == old(self).signals@[k],
            forall|k: int|
                0 <= k < md.ports@.len() && (#[trigger] md.ports@[k]).direction == Direction::Input ==> drive_fact(
                    final(self).nodes@,
                    old(self).signals@.len() as int,
                    inst_remap@[md.ports@[k].signal_id as int] as int,
                    DriveKind::Combinational,
                    conn_expr(conns_view(inst.connections@), md.ports@[k].name@),
                    remap@,
                    irs_view(irs@),
                    mods_view(modules@),
                ),
            nodes_view(final(self).nodes@) == nodes_view(old(self).nodes@) + ports_nodes(
                ports_view(md.ports@),
                old(self).nodes@.len() as int,
                conns_view(inst.connections@),
                inst_remap@,
                remap@,
                irs_view(irs@),
                mods_view(modules@),
                names_of(old(self).signals@),
                widths_of(old(self).signals@),
            ),
    {
        let ghost nsig = self.signals@.len() as int;
        let ghost old_sigs = self.signals@;
        let ghost old_nodes = self.nodes@;
        let ghost irv = irs_view(irs@);
        let ghost mv = mods_view(modules@);
        let ghost cv = conns_view(inst.connections@);
        let mut k: usize = 0;
        while k < md.ports.len()
            invariant
                self.wf(),
                nsig == old_sigs.len(),
                old_sigs == old(self).signals@,
                old_nodes == old(self).nodes@,
                irv == irs_view(irs@),
                mv == mods_view(modules@),
                cv == conns_view(inst.connections@),
                k <= md.ports@.len(),
                forall|q: int| 0 <= q < md.ports@.len() ==> (#[trigger] md.ports@[q]).signal_id < inst_remap@.len(),
                remap_ok(inst_remap@, nsig),
                remap_ok(remap@, nsig),
                irs_ok(irv, mv, nsig),
                forall|q: int|
                    0 <= q < md.ports@.len() && (#[trigger] md.ports@[q]).direction == Direction::Input ==> find_conn(
                        cv,
                        md.ports@[q].name@,
                    ) >= 0,
                forall|c: int|
                    0 <= c < inst.connections@.len() ==> reads_below(#[trigger] cv[c].1, remap@.len() as int)
                        && fields_ok(cv[c].1, irs_tab(irv), mv),
                forall|p: int|
                    0 <= p < md.ports@.len() && (#[trigger] md.ports@[p]).direction == Direction::Input
                        ==> old_sigs[inst_remap@[md.ports@[p].signal_id as int] as int].driver_node is None,
                forall|p1: int, p2: int|
                    0 <= p1 < md.ports@.len() && 0 <= p2 < md.ports@.len() && p1 != p2 ==> inst_remap@[(
                    #[trigger] md.ports@[p1]).signal_id as int] != inst_remap@[(#[trigger] md.ports@[p2]).signal_id as int],
                is_prefix(old_nodes, self.nodes@),
                same_shape(old_sigs, self.signals@),
                self.signals@.len() == nsig,
                forall|j: int| 0 <= j < nsig ==> (#[trigger] self.signals@[j]).kind == old_sigs[j].kind,
                forall|j: int|
                    0 <= j < nsig && !(exists|p: int|
                        0 <= p < k && (#[trigger] md.ports@[p]).direction == Direction::Input
                            && inst_remap@[md.ports@[p].signal_id as int] == j) ==> #[trigger] self.signals@[j]
                        == old_sigs[j],
                forall|q: int|
                    0 <= q < k && (#[trigger] md.ports@[q]).direction == Direction::Input ==> drive_fact(
                        self.nodes@,
                        nsig,
                        inst_remap@[md.ports@[q].signal_id as int] as int,
                        DriveKind::Combinational,
                        conn_expr(cv, md.ports@[q].name@),
                        remap@,
                        irv,
                        mv,
                    ),
                nodes_view(self.nodes@) == nodes_view(old_nodes) + ports_nodes(
                    ports_view(md.ports@).take(k as int),
                    old_nodes.len() as int,
                    cv,
                    inst_remap@,
                    remap@,
                    irv,
                    mv,
                    names_of(old_sigs),
                    widths_of(old_sigs),
                ),
            decreases md.ports@.len() - k,
        {
            let port = &md.ports[k];
            let ghost pv = ports_view(md.ports@);
            let ghost nk = self.nodes@;
            proof {
                assert(pv.take(k + 1).drop_last() =~= pv.take(k as int));
                assert(pv.take(k + 1).last() == port@);
                lemma_same_shape_names(old_sigs, self.signals@);
            }
            if port.direction == Direction::Input {
                let ghost n_before = self.nodes@;
                let ghost s_before = self.signals@;
                let ci = match find_conn_in(&inst.connections, &port.name) {
                    Some(ci) => ci,
                    None => {
                        assert(false);
                        0
                    },
                };
                assert(cv[ci as int].1 == inst.connections@[ci as int].1@);
                let src = self.build_expr(&inst.connections[ci].1, remap, irs, modules);
                let ghost n_mid = self.nodes@;
                let t = inst_remap[port.signal_id];
                proof {
                    if exists|p: int|
                        0 <= p < k && (#[trigger] md.ports@[p]).direction == Direction::Input
                            && inst_remap@[md.ports@[p].signal_id as int] == t {
                        let p = choose|p: int|
                            0 <= p < k && (#[trigger] md.ports@[p]).direction == Direction::Input
                                && inst_remap@[md.ports@[p].signal_id as int] == t;
                        assert(inst_remap@[md.ports@[p].signal_id as int] != inst_remap@[md.ports@[k as int].signal_id as int]);
                    }
                    assert(self.signals@[t as int] == old_sigs[t as int]);
                }
                let d = self.drive_signal(t, src, DriveKind::Combinational, None);
                proof {
                    let nodes = self.nodes@;
                    let e = cv[ci as int].1;
                    assert(e == conn_expr(cv, md.ports@[k as int].name@));
                    assert forall|vals: Seq<u64>| vals.len() >= nsig implies node_value(nodes, d as int, vals)
                        == rexpr_value(e, remap@, irv, mv, vals) by {
                        lemma_node_value_prefix(n_mid, nodes, src as int, vals);
                    }
                    assert(drives(nodes, d as int, t as int, DriveKind::Combinational));
                    assert forall|q: int|
                        0 <= q < k + 1 && (#[trigger] md.ports@[q]).direction == Direction::Input implies drive_fact(
                        nodes,
                        nsig,
                        inst_remap@[md.ports@[q].signal_id as int] as int,
                        DriveKind::Combinational,
                        conn_expr(cv, md.ports@[q].name@),
                        remap@,
                        irv,
                        mv,
                    ) by {
                        if q < k {
                            lemma_drive_fact_grow(
                                n_before,
                                nodes,
                                nsig,
                                nsig,
                                inst_remap@[md.ports@[q].signal_id as int] as int,
                                DriveKind::Combinational,
                                conn_expr(cv, md.ports@[q].name@),
                                remap@,
                                irv,
                                mv,
                            );
                        }
                    }
                    assert forall|j: int|
                        0 <= j < nsig && !(exists|p: int|
                            0 <= p < k + 1 && (#[trigger] md.ports@[p]).direction == Direction::Input
                                && inst_remap@[md.ports@[p].signal_id as int] == j) implies #[trigger] self.signals@[j]
                        == old_sigs[j] by {
                        assert(j != t);
                    }
                }
            }
            k += 1;
        }
        proof {
            assert(ports_view(md.ports@).take(md.ports@.len() as int) =~= ports_view(md.ports@));
        }
    }

    /// Flattens one instance of module `md`: its body's signals under the
    /// instance's path, its body's assignments, and its input connections.
    /// Returns the global id of each body signal.
    fn flatten_instance(
        &mut self,
        inst: &ResolvedInstance,
        md: &ResolvedModuleDef,
        prefix: &str,
        remap: &Vec<usize>,
        irs: &Vec<(String, String, Vec<usize>)>,
        modules: &Vec<ResolvedModuleDef>,
    ) -> (inst_remap: Vec<usize>)
        requires
            old(self).wf(),
            module_wf(md@),
            remap_ok(remap@, old(self).signals@.len() as int),
            irs_ok(irs_view(irs@), mods_view(modules@), old(self).signals@.len() as int),
            forall|k: int|
                0 <= k < md.ports@.len() && (#[trigger] md.ports@[k]).direction == Direction::Input ==> find_conn(
                    conns_view(inst.connections@),
                    md.ports@[k].name@,
                ) >= 0,
            forall|c: int|
                0 <= c < inst.connections@.len() ==> reads_below(
                    #[trigger] conns_view(inst.connections@)[c].1,
                    remap@.len() as int,
                ) && fields_ok(conns_view(inst.connections@)[c].1, irs_tab(irs_view(irs@)), mods_view(modules@)),
        ensures
            ({
                let base = old(self).signals@.len() as int;
                let body = md@.body;
                let sigs = final(self).signals@;
                let nodes = final(self).nodes@;
                let clock = clock_of(md@.clock_port, inst_remap@);
                &&& final(self).wf()
                &&& is_prefix(old(self).nodes@, nodes)
                &&& same_shape(old(self).signals@, sigs)
                &&& sigs.len() == base + body.signals.len()
                &&& forall|k: int| 0 <= k < base ==> #[trigger] sigs[k] == old(self).signals@[k]
                &&& inst_remap@.len() == body.signals.len()
                &&& forall|k: int| 0 <= k < body.signals.len() ==> #[trigger] inst_remap@[k] == base + k
                &&& forall|k: int|
                    0 <= k < body.signals.len() ==> (#[trigger] sigs[base + k]).name@ == scoped(
                        scoped(prefix@, inst.instance_name@),
                        body.signals[k].name,
                    ) && sigs[base + k].width == body.signals[k].width
                &&& forall|s: int|
                    0 <= s < body.stmts.len() ==> drive_fact(
                        nodes,
                        sigs.len() as int,
                        inst_remap@[(#[trigger] body.stmts[s]).target_id() as int] as int,
                        stmt_kind(body.stmts[s]),
                        body.stmts[s].expr(),
                        inst_remap@,
                        Seq::empty(),
                        mods_view(modules@),
                    )
                &&& forall|k: int|
                    0 <= k < md.ports@.len() && (#[trigger] md.ports@[k]).direction == Direction::Input ==> drive_fact(
                        nodes,
                        sigs.len() as int,
                        inst_remap@[md.ports@[k].signal_id as int] as int,
                        DriveKind::Combinational,
                        conn_expr(conns_view(inst.connections@), md.ports@[k].name@),
                        remap@,
                        irs_view(irs@),
                        mods_view(modules@),
                    )
                &&& forall|k: int|
                    0 <= k < body.signals.len() ==> (#[trigger] sigs[base + k]).kind == (if seq_targets(
                        body.stmts,
                        inst_remap@,
                        base + k,
                    ) {
                        SignalKind::Reg { clock, reset: None }
                    } else {
                        SignalKind::Wire
                    })
                &&& forall|k: int|
                    0 <= k < body.signals.len() && !any_targets(body.stmts, inst_remap@, base + k) && !(k
                        < md@.ports.len() && md@.ports[k].direction == Direction::Input) ==> (#[trigger] sigs[base
                        + k]).driver_node is None
                &&& nodes_view(nodes) == nodes_view(old(self).nodes@) + inst_nodes(
                    md@,
                    old(self).nodes@.len() as int,
                    conns_view(inst.connections@),
                    inst_remap@,
                    remap@,
                    irs_view(irs@),
                    mods_view(modules@),
                    names_of(sigs),
                    widths_of(sigs),
                )
            }),
    {
        let ghost base = self.signals@.len() as int;
        let ghost mv = mods_view(modules@);
        let ghost body = md@.body;
        assert(body.signals == sigs_view(md.body.signals@));
        assert(body.stmts == stmts_of(md.body.stmts@));
        assert(md@.ports == ports_view(md.ports@));
        let inst_prefix = scoped_name(prefix, inst.instance_name.as_str());
        let inst_remap = self.add_scope_signals(&md.body.signals, inst_prefix.as_str());
        let ghost s1 = self.signals@;
        let ghost n1 = self.nodes@;
        let clock = match md.clock_port {
            Some(c) => Some(ClockTrigger { signal_id: inst_remap[c], edge: Edge::Posedge }),
            None => None,
        };
        let no_irs: Vec<(String, String, Vec<usize>)> = Vec::new();
        proof {
            assert(irs_view(no_irs@) =~= Seq::empty());
            assert(irs_tab(irs_view(no_irs@)) =~= Seq::empty());
            assert forall|s: int| 0 <= s < md.body.stmts@.len() implies fields_ok(
                #[trigger] stmts_of(md.body.stmts@)[s].expr(),
                irs_tab(irs_view(no_irs@)),
                mv,
            ) by {
                assert(fields_ok(body.stmts[s].expr(), Seq::empty(), Seq::empty()));
                lemma_fields_ok_no_instances(body.stmts[s].expr(), Seq::empty(), mv);
            }
            assert forall|k: int| 0 <= k < inst_remap@.len() implies #[trigger] inst_remap@[k] < s1.len() by {}
            assert(remap_ok(remap@, s1.len() as int));
            lemma_distinct_targets(body.stmts, 0);
            assert(targets_distinct(stmts_of(md.body.stmts@), inst_remap@)) by {
                assert forall|a: int, b: int|
                    0 <= a < body.stmts.len() && 0 <= b < body.stmts.len() && a != b implies inst_remap@[(
                    #[trigger] body.stmts[a]).target_id() as int] != inst_remap@[(#[trigger] body.stmts[b]).target_id() as int] by {
                    if a < b {
                        assert(body.stmts[a].target_id() != body.stmts[b].target_id());
                    } else {
                        assert(body.stmts[b].target_id() != body.stmts[a].target_id());
                    }
                }
            }
            assert forall|st: int| 0 <= st < md.body.stmts@.len() implies s1[inst_remap@[(
            #[trigger] stmts_of(md.body.stmts@)[st]).target_id() as int] as int].driver_node is None by {
                let t = body.stmts[st].target_id() as int;
                assert(s1[base + t].driver_node is None);
            }
        }
        self.drive_stmts(&md.body.stmts, &inst_remap, &no_irs, modules, clock);
        let ghost s2 = self.signals@;
        let ghost n2 = self.nodes@;
        proof {
            assert(irs_ok(irs_view(irs@), mv, s2.len() as int));
            assert forall|k: int| 0 <= k < md.ports@.len() implies (#[trigger] md.ports@[k]).signal_id < inst_remap@.len() by {
                assert(md@.ports[k] == md.ports@[k]@);
            }
            assert forall|p1: int, p2: int|
                0 <= p1 < md.ports@.len() && 0 <= p2 < md.ports@.len() && p1 != p2 implies inst_remap@[(
                #[trigger] md.ports@[p1]).signal_id as int] != inst_remap@[(#[trigger] md.ports@[p2]).signal_id as int] by {
                assert(md@.ports[p1] == md.ports@[p1]@);
                assert(md@.ports[p2] == md.ports@[p2]@);
            }
            assert forall|p: int|
                0 <= p < md.ports@.len() && (#[trigger] md.ports@[p]).direction == Direction::Input implies s2[inst_remap@[md.ports@[p].signal_id as int] as int].driver_node is None by {
                assert(md@.ports[p] == md.ports@[p]@);
                let g = base + p;
                if any_targets(body.stmts, inst_remap@, g) {
                    let w = choose|w: int| 0 <= w < body.stmts.len() && inst_remap@[(#[trigger] body.stmts[w]).target_id() as int] == g;
                    assert(body.stmts[w].target_id() < body.signals.len());
                    assert(body.stmts[w].target_id() == p);
                }
                assert(s2[g] == s1[g]);
            }
        }
        self.connect_ports(inst, md, &inst_remap, remap, irs, modules);
        proof {
            let sigs = self.signals@;
            let nodes = self.nodes@;
            let bl = body.signals.len() as int;
            assert forall|s: int| 0 <= s < body.stmts.len() implies drive_fact(
                nodes,
                sigs.len() as int,
                inst_remap@[(#[trigger] body.stmts[s]).target_id() as int] as int,
                stmt_kind(body.stmts[s]),
                body.stmts[s].expr(),
                inst_remap@,
                Seq::empty(),
                mv,
            ) by {
                assert(irs_view(no_irs@) =~= Seq::empty());
                lemma_drive_fact_grow(
                    n2,
                    nodes,
                    s1.len() as int,
                    sigs.len() as int,
                    inst_remap@[body.stmts[s].target_id() as int] as int,
                    stmt_kind(body.stmts[s]),
                    body.stmts[s].expr(),
                    inst_remap@,
                    Seq::empty(),
                    mv,
                );
            }
            assert forall|k: int| 0 <= k < base implies #[trigger] sigs[k] == old(self).signals@[k] by {
                assert(s1[k] == old(self).signals@[k]);
                if any_targets(body.stmts, inst_remap@, k) {
                    let w = choose|w: int| 0 <= w < body.stmts.len() && inst_remap@[(#[trigger] body.stmts[w]).target_id() as int] == k;
                    assert(body.stmts[w].target_id() < bl);
                }
                assert(s2[k] == s1[k]);
                if exists|p: int| 0 <= p < md.ports@.len() && inst_remap@[(#[trigger] md.ports@[p]).signal_id as int] == k {
                    let p = choose|p: int| 0 <= p < md.ports@.len() && inst_remap@[(#[trigger] md.ports@[p]).signal_id as int] == k;
                    assert(md.ports@[p].signal_id < bl);
                }
            }
            assert forall|k: int|
                0 <= k < bl implies (#[trigger] sigs[base + k]).name@ == scoped(
                scoped(prefix@, inst.instance_name@),
                body.signals[k].name,
            ) && sigs[base + k].width == body.signals[k].width by {
                assert(s1[base + k].name@ == scoped(inst_prefix@, md.body.signals@[k].name@));
            }
            let clk = clock_of(md@.clock_port, inst_remap@);
            assert(clock == clk);
            assert forall|k: int|
                0 <= k < bl implies (#[trigger] sigs[base + k]).kind == (if seq_targets(body.stmts, inst_remap@, base + k) {
                SignalKind::Reg { clock: clk, reset: None }
            } else {
                SignalKind::Wire
            }) by {
                assert(sigs[base + k].kind == s2[base + k].kind);
                assert(s1[base + k].kind == SignalKind::Wire);
            }
            assert forall|k: int|
                0 <= k < bl && !any_targets(body.stmts, inst_remap@, base + k) && !(k < md@.ports.len()
                    && md@.ports[k].direction == Direction::Input) implies (#[trigger] sigs[base + k]).driver_node is None by {
                if exists|p: int|
                    0 <= p < md.ports@.len() && (#[trigger] md.ports@[p]).direction == Direction::Input
                        && inst_remap@[md.ports@[p].signal_id as int] == base + k {
                    let p = choose|p: int|
                        0 <= p < md.ports@.len() && (#[trigger] md.ports@[p]).direction == Direction::Input
                            && inst_remap@[md.ports@[p].signal_id as int] == base + k;
                    assert(md@.ports[p] == md.ports@[p]@);
                    assert(p == k);
                }
                assert(sigs[base + k] == s2[base + k]);
                assert(s2[base + k] == s1[base + k]);
            }
            lemma_same_shape_names(s1, sigs);
            lemma_same_shape_names(s2, sigs);
            assert(irs_view(no_irs@) =~= Seq::empty());
            assert(ports_view(md.ports@) == md@.ports);
        }
        inst_remap
    }
}

impl NetlistBuilder {
    /// Flattens a scope: its signals (named under `prefix`), then each
    /// instance (its body's signals and assignments, then its input
    /// connections), then the scope's assignments. `clock_port` is the
    /// scope's clock input, whose rising edge triggers its registers.
    /// Returns the global id of each scope signal, and each instance's
    /// remapping.
    #[verifier::rlimit(40)]
    fn flatten_scope(
        &mut self,
        scope: &ResolvedScope,
        prefix: &str,
        modules: &Vec<ResolvedModuleDef>,
        clock_port: Option<usize>,
    ) -> (r: (Vec<usize>, Vec<(String, String, Vec<usize>)>))
        requires
            old(self).wf(),
            stmts_below(scope@.stmts, scope@.signals.len() as int),
            forall|s: int|
                0 <= s < scope@.stmts.len() ==> fields_ok(
                    #[trigger] scope@.stmts[s].expr(),
                    inst_tab(scope@.instances),
                    mods_view(modules@),
                ),
            forall|i: int|
                0 <= i < scope@.instances.len() ==> #[trigger] inst_ok(
                    scope@.instances,
                    i,
                    scope@.signals.len() as int,
                    mods_view(modules@),
                ),
            forall|m: int| 0 <= m < modules@.len() ==> #[trigger] module_wf(mods_view(modules@)[m]),
            clock_port matches Some(c) ==> c < scope@.signals.len(),
            first_redriven(scope@.stmts) < 0,
        ensures
            ({
                let sc = scope@;
                let mv = mods_view(modules@);
                let base = old(self).signals@.len() as int;
                let n = sc.signals.len() as int;
                let insts = sc.instances;
                let rv = r.0@;
                let irv = irs_view(r.1@);
                let sigs = final(self).signals@;
                let nodes = final(self).nodes@;
                let nsig = sigs.len() as int;
                &&& final(self).wf()
                &&& is_prefix(old(self).nodes@, nodes)
                &&& same_shape(old(self).signals@, sigs)
                &&& nsig == inst_start(insts, mv, base + n, insts.len() as int)
                &&& forall|k: int| 0 <= k < base ==> #[trigger] sigs[k] == old(self).signals@[k]
                &&& rv.len() == n
                &&& forall|k: int| 0 <= k < n ==> #[trigger] rv[k] == base + k
                &&& forall|k: int|
                    0 <= k < n ==> (#[trigger] sigs[base + k]).name@ == scoped(prefix@, sc.signals[k].name)
                        && sigs[base + k].width == sc.signals[k].width
                &&& irv.len() == insts.len()
                &&& irs_tab(irv) == inst_tab(insts)
                &&& irs_ok(irv, mv, nsig)
                &&& forall|i: int|
                    0 <= i < insts.len() ==> (#[trigger] irv[i]).2.len() == body_len(mv, insts[i].module_name)
                        && forall|k: int| 0 <= k < irv[i].2.len() ==> irv[i].2[k] == inst_start(insts, mv, base + n, i) + k
                &&& forall|i: int, k: int|
                    0 <= i < insts.len() && 0 <= k < body_len(mv, insts[i].module_name) ==> (#[trigger] sigs[inst_start(
                        insts,
                        mv,
                        base + n,
                        i,
                    ) + k]).name@ == scoped(
                        scoped(prefix@, insts[i].instance_name),
                        mv[find_module(mv, insts[i].module_name)].body.signals[k].name,
                    ) && sigs[inst_start(insts, mv, base + n, i) + k].width == mv[find_module(
                        mv,
                        insts[i].module_name,
                    )].body.signals[k].width
                &&& forall|s: int|
                    0 <= s < sc.stmts.len() ==> drive_fact(
                        nodes,
                        nsig,
                        rv[(#[trigger] sc.stmts[s]).target_id() as int] as int,
                        stmt_kind(sc.stmts[s]),
                        sc.stmts[s].expr(),
                        rv,
                        irv,
                        mv,
                    )
                &&& forall|i: int, p: int|
                    0 <= i < insts.len() && 0 <= p < mv[find_module(mv, insts[i].module_name)].ports.len() && (
                    #[trigger] mv[find_module(mv, insts[i].module_name)].ports[p]).direction == Direction::Input
                        ==> drive_fact(
                        nodes,
                        nsig,
                        irv[i].2[mv[find_module(mv, insts[i].module_name)].ports[p].signal_id as int] as int,
                        DriveKind::Combinational,
                        conn_expr(insts[i].connections, mv[find_module(mv, insts[i].module_name)].ports[p].name),
                        rv,
                        irv.take(i),
                        mv,
                    )
                &&& forall|i: int, s: int|
                    0 <= i < insts.len() && 0 <= s < mv[find_module(mv, insts[i].module_name)].body.stmts.len()
                        ==> drive_fact(
                        nodes,
                        nsig,
                        irv[i].2[(#[trigger] mv[find_module(mv, insts[i].module_name)].body.stmts[s]).target_id() as int] as int,
                        stmt_kind(mv[find_module(mv, insts[i].module_name)].body.stmts[s]),
                        mv[find_module(mv, insts[i].module_name)].body.stmts[s].expr(),
                        irv[i].2,
                        Seq::empty(),
                        mv,
                    )
                &&& forall|k: int|
                    0 <= k < n ==> (#[trigger] sigs[base + k]).kind == (if seq_targets(sc.stmts, rv, base + k) {
                        SignalKind::Reg { clock: clock_of(clock_port, rv), reset: None }
                    } else {
                        SignalKind::Wire
                    })
                &&& forall|i: int, k: int|
                    0 <= i < insts.len() && 0 <= k < body_len(mv, insts[i].module_name) ==> (#[trigger] sigs[inst_start(
                        insts,
                        mv,
                        base + n,
                        i,
                    ) + k]).kind == (if seq_targets(
                        mv[find_module(mv, insts[i].module_name)].body.stmts,
                        irv[i].2,
                        inst_start(insts, mv, base + n, i) + k,
                    ) {
                        SignalKind::Reg {
                            clock: clock_of(mv[find_module(mv, insts[i].module_name)].clock_port, irv[i].2),
                            reset: None,
                        }
                    } else {
                        SignalKind::Wire
                    })
                &&& nodes_view(nodes) == nodes_view(old(self).nodes@) + insts_nodes(
                    insts,
                    insts.len() as int,
                    old(self).nodes@.len() as int,
                    mv,
                    irv,
                    rv,
                    base + n,
                    names_of(sigs),
                    widths_of(sigs),
                ) + stmts_nodes(
                    sc.stmts,
                    old(self).nodes@.len() as int + insts_nodes(
                        insts,
                        insts.len() as int,
                        old(self).nodes@.len() as int,
                        mv,
                        irv,
                        rv,
                        base + n,
                        names_of(sigs),
                        widths_of(sigs),
                    ).len(),
                    rv,
                    irv,
                    mv,
                    names_of(sigs),
                    widths_of(sigs),
                )
                &&& forall|k: int|
                    0 <= k < n && !any_targets(sc.stmts, rv, base + k) ==> (#[trigger] sigs[base + k]).driver_node is None
                &&& forall|i: int, k: int|
                    0 <= i < insts.len() && 0 <= k < body_len(mv, insts[i].module_name) && !any_targets(
                        mv[find_module(mv, insts[i].module_name)].body.stmts,
                        irv[i].2,
                        inst_start(insts, mv, base + n, i) + k,
                    ) && !(k < mv[find_module(mv, insts[i].module_name)].ports.len() && mv[find_module(
                        mv,
                        insts[i].module_name,
                    )].ports[k].direction == Direction::Input) ==> (#[trigger] sigs[inst_start(insts, mv, base + n, i)
                        + k]).driver_node is None
            }),
    {
        let ghost sc = scope@;
        let ghost mv = mods_view(modules@);
        let ghost insts = sc.instances;
        let ghost base = self.signals@.len() as int;
        let ghost n = sc.signals.len() as int;
        let ghost old_sigs = self.signals@;
        assert(sc.signals == sigs_view(scope.signals@));
        assert(sc.stmts == stmts_of(scope.stmts@));
        assert(insts == insts_view(scope.instances@));
        let remap = self.add_scope_signals(&scope.signals, prefix);
        let ghost s1 = self.signals@;
        let ghost n1 = self.nodes@;
        let mut irs: Vec<(String, String, Vec<usize>)> = Vec::new();
        proof {
            assert(irs_tab(irs_view(irs@)) =~= inst_tab(insts.take(0)));
        }
        let mut i: usize = 0;
        while i < scope.instances.len()
            invariant
                self.wf(),
                sc == scope@,
                mv == mods_view(modules@),
                insts == sc.instances,
                insts == insts_view(scope.instances@),
                n == sc.signals.len(),
                base == old_sigs.len(),
                old_sigs == old(self).signals@,
                i <= insts.len(),
                forall|q: int| 0 <= q < insts.len() ==> #[trigger] inst_ok(insts, q, n, mv),
                forall|m: int| 0 <= m < modules@.len() ==> #[trigger] module_wf(mv[m]),
                remap@.len() == n,
                forall|k: int| 0 <= k < n ==> #[trigger] remap@[k] == base + k,
                is_prefix(old(self).nodes@, self.nodes@),
                same_shape(old_sigs, self.signals@),
                s1.len() == base + n,
                forall|k: int| 0 <= k < base ==> #[trigger] s1[k] == old_sigs[k],
                forall|k: int|
                    0 <= k < n ==> {
                        let x = #[trigger] s1[base + k];
                        &&& x.name@ == scoped(prefix@, sc.signals[k].name)
                        &&& x.width == sc.signals[k].width
                        &&& x.kind == SignalKind::Wire
                        &&& x.driver_node is None
                    },
                self.signals@.len() == inst_start(insts, mv, base + n, i as int),
                forall|k: int| 0 <= k < base + n ==> #[trigger] self.signals@[k] == s1[k],
                irs@.len() == i,
                n1 == old(self).nodes@,
                nodes_view(self.nodes@) == nodes_view(n1) + insts_nodes(
                    insts,
                    i as int,
                    n1.len() as int,
                    mv,
                    irs_view(irs@),
                    remap@,
                    base + n,
                    names_of(self.signals@),
                    widths_of(self.signals@),
                ),
                irs_tab(irs_view(irs@)) == inst_tab(insts.take(i as int)),
                irs_ok(irs_view(irs@), mv, self.signals@.len() as int),
                forall|q: int|
                    0 <= q < i ==> (#[trigger] irs_view(irs@)[q]).2.len() == body_len(mv, insts[q].module_name)
                        && forall|k: int|
                        0 <= k < irs_view(irs@)[q].2.len() ==> irs_view(irs@)[q].2[k] == inst_start(insts, mv, base + n, q)
                            + k,
                forall|q: int, k: int|
                    0 <= q < i && 0 <= k < body_len(mv, insts[q].module_name) ==> (#[trigger] self.signals@[inst_start(
                        insts,
                        mv,
                        base + n,
                        q,
                    ) + k]).name@ == scoped(
                        scoped(prefix@, insts[q].instance_name),
                        mv[find_module(mv, insts[q].module_name)].body.signals[k].name,
                    ) && self.signals@[inst_start(insts, mv, base + n, q) + k].width == mv[find_module(
                        mv,
                        insts[q].module_name,
                    )].body.signals[k].width,
                forall|q: int, p: int|
                    0 <= q < i && 0 <= p < mv[find_module(mv, insts[q].module_name)].ports.len() && (
                    #[trigger] mv[find_module(mv, insts[q].module_name)].ports[p]).direction == Direction::Input
                        ==> drive_fact(
                        self.nodes@,
                        self.signals@.len() as int,
                        irs_view(irs@)[q].2[mv[find_module(mv, insts[q].module_name)].ports[p].signal_id as int] as int,
                        DriveKind::Combinational,
                        conn_expr(insts[q].connections, mv[find_module(mv, insts[q].module_name)].ports[p].name),
                        remap@,
                        irs_view(irs@).take(q),
                        mv,
                    ),
                forall|q: int, s: int|
                    0 <= q < i && 0 <= s < mv[find_module(mv, insts[q].module_name)].body.stmts.len() ==> drive_fact(
                        self.nodes@,
                        self.signals@.len() as int,
                        irs_view(irs@)[q].2[(#[trigger] mv[find_module(mv, insts[q].module_name)].body.stmts[s]).target_id() as int] as int,
                        stmt_kind(mv[find_module(mv, insts[q].module_name)].body.stmts[s]),
                        mv[find_module(mv, insts[q].module_name)].body.stmts[s].expr(),
                        irs_view(irs@)[q].2,
                        Seq::empty(),
                        mv,
                    ),
                forall|q: int, k: int|
                    0 <= q < i && 0 <= k < body_len(mv, insts[q].module_name) ==> (#[trigger] self.signals@[inst_start(
                        insts,
                        mv,
                        base + n,
                        q,
                    ) + k]).kind == (if seq_targets(
                        mv[find_module(mv, insts[q].module_name)].body.stmts,
                        irs_view(irs@)[q].2,
                        inst_start(insts, mv, base + n, q) + k,
                    ) {
                        SignalKind::Reg {
                            clock: clock_of(mv[find_module(mv, insts[q].module_name)].clock_port, irs_view(irs@)[q].2),
                            reset: None,
                        }
                    } else {
                        SignalKind::Wire
                    }),
                forall|q: int, k: int|
                    0 <= q < i && 0 <= k < body_len(mv, insts[q].module_name) && !any_targets(
                        mv[find_module(mv, insts[q].module_name)].body.stmts,
                        irs_view(irs@)[q].2,
                        inst_start(insts, mv, base + n, q) + k,
                    ) && !(k < mv[find_module(mv, insts[q].module_name)].ports.len() && mv[find_module(
                        mv,
                        insts[q].module_name,
                    )].ports[k].direction == Direction::Input) ==> (#[trigger] self.signals@[inst_start(
                        insts,
                        mv,
                        base + n,
                        q,
                    ) + k]).driver_node is None,
            decreases insts.len() - i,
        {
            let inst = &scope.instances[i];
            assert(insts[i as int] == inst@);
            assert(inst_ok(insts, i as int, n, mv));
            let mi = match find_module_in(modules, &inst.module_name) {
                Some(mi) => mi,
                None => {
                    assert(false);
                    0
                },
            };
            let md = &modules[mi];
            let ghost ii = i as int;
            let ghost bi = self.signals@.len() as int;
            let ghost sb = self.signals@;
            let ghost nb = self.nodes@;
            let ghost irv0 = irs_view(irs@);
            proof {
                assert(mv[mi as int] == md@);
                assert(md@.ports == ports_view(md.ports@));
                assert(inst@.connections == conns_view(inst.connections@));
                assert(module_wf(mv[mi as int]));
                assert forall|k: int|
                    0 <= k < md.ports@.len() && (#[trigger] md.ports@[k]).direction == Direction::Input implies find_conn(
                    conns_view(inst.connections@),
                    md.ports@[k].name@,
                ) >= 0 by {
                    assert(mv[mi as int].ports[k] == md.ports@[k]@);
                }
                assert(irs_tab(irv0) == inst_tab(insts.take(ii)));
                assert forall|c: int| 0 <= c < inst.connections@.len() implies reads_below(
                    #[trigger] conns_view(inst.connections@)[c].1,
                    remap@.len() as int,
                ) && fields_ok(conns_view(inst.connections@)[c].1, irs_tab(irv0), mv) by {
                    assert(inst@.connections[c] == conns_view(inst.connections@)[c]);
                }
                assert forall|k: int| 0 <= k < remap@.len() implies #[trigger] remap@[k] < sb.len() by {
                    lemma_inst_start_mono(insts, mv, base + n, 0, ii);
                }
            }
            let inst_remap = self.flatten_instance(inst, md, prefix, &remap, &irs, modules);
            let ghost s2 = self.signals@;
            let ghost n2 = self.nodes@;
            let entry = (inst.instance_name.clone(), inst.module_name.clone(), inst_remap);
            irs.push(entry);
            proof {
                let irv = irs_view(irs@);
                assert(irv =~= irv0.push((inst@.instance_name, inst@.module_name, entry.2@)));
                assert(irv[ii].2 == entry.2@);
                assert(find_module(mv, insts[ii].module_name) == mi as int);
                assert(body_len(mv, insts[ii].module_name) == md@.body.signals.len());
                assert(s2.len() == inst_start(insts, mv, base + n, ii + 1));
                assert(irs_tab(irv) =~= inst_tab(insts.take(ii + 1))) by {
                    assert(insts.take(ii + 1) =~= insts.take(ii).push(insts[ii]));
                    assert(irs_tab(irv) =~= irs_tab(irv0).push((inst@.instance_name, inst@.module_name)));
                    assert(inst_tab(insts.take(ii + 1)) =~= inst_tab(insts.take(ii)).push(
                        (insts[ii].instance_name, insts[ii].module_name),
                    ));
                }
                assert(irv.take(ii) =~= irv0);
                lemma_names_prefix(sb, s2);
                lemma_insts_nodes_step(
                    insts,
                    ii,
                    n1.len() as int,
                    mv,
                    irv0,
                    irv,
                    remap@,
                    base + n,
                    names_of(sb),
                    names_of(s2),
                    widths_of(sb),
                    widths_of(s2),
                );
                assert(nodes_view(n2) =~= nodes_view(n1) + insts_nodes(
                    insts,
                    ii + 1,
                    n1.len() as int,
                    mv,
                    irv,
                    remap@,
                    base + n,
                    names_of(s2),
                    widths_of(s2),
                ));
                // the scope's own signals are untouched
                assert forall|k: int| 0 <= k < base + n implies #[trigger] s2[k] == s1[k] by {
                    lemma_inst_start_mono(insts, mv, base + n, 0, ii);
                    assert(s2[k] == sb[k]);
                }
                // remappings stay in range
                assert(irs_ok(irv, mv, s2.len() as int)) by {
                    assert forall|q: int| 0 <= q < irv.len() implies {
                        &&& forall|k: int| 0 <= k < (#[trigger] irv[q]).2.len() ==> irv[q].2[k] < s2.len()
                        &&& find_module(mv, irv[q].1) >= 0 ==> forall|p: int|
                            0 <= p < mv[find_module(mv, irv[q].1)].ports.len() ==> (#[trigger] mv[find_module(
                                mv,
                                irv[q].1,
                            )].ports[p]).signal_id < irv[q].2.len()
                    } by {
                        if q < ii {
                            assert(irv[q] == irv0[q]);
                        } else {
                            assert(irv[q].1 == insts[ii].module_name);
                        }
                    }
                }
                // facts of the earlier blocks carry over
                assert forall|q: int|
                    0 <= q < ii + 1 implies (#[trigger] irv[q]).2.len() == body_len(mv, insts[q].module_name) && forall|k: int|
                    0 <= k < irv[q].2.len() ==> irv[q].2[k] == inst_start(insts, mv, base + n, q) + k by {
                    if q < ii {
                        assert(irv[q] == irv0[q]);
                    }
                }
                assert forall|q: int, k: int|
                    0 <= q < ii + 1 && 0 <= k < body_len(mv, insts[q].module_name) implies (#[trigger] s2[inst_start(
                    insts,
                    mv,
                    base + n,
                    q,
                ) + k]).name@ == scoped(
                    scoped(prefix@, insts[q].instance_name),
                    mv[find_module(mv, insts[q].module_name)].body.signals[k].name,
                ) && s2[inst_start(insts, mv, base + n, q) + k].width == mv[find_module(
                    mv,
                    insts[q].module_name,
                )].body.signals[k].width by {
                    if q < ii {
                        lemma_inst_start_mono(insts, mv, base + n, q + 1, ii);
                        lemma_inst_start_mono(insts, mv, base + n, 0, q);
                        assert(inst_start(insts, mv, base + n, q + 1) == inst_start(insts, mv, base + n, q) + body_len(
                            mv,
                            insts[q].module_name,
                        ));
                        assert(s2[inst_start(insts, mv, base + n, q) + k] == sb[inst_start(insts, mv, base + n, q) + k]);
                    }
                }
                assert forall|q: int, k: int|
                    0 <= q < ii + 1 && 0 <= k < body_len(mv, insts[q].module_name) implies (#[trigger] s2[inst_start(
                    insts,
                    mv,
                    base + n,
                    q,
                ) + k]).kind == (if seq_targets(
                    mv[find_module(mv, insts[q].module_name)].body.stmts,
                    irv[q].2,
                    inst_start(insts, mv, base + n, q) + k,
                ) {
                    SignalKind::Reg {
                        clock: clock_of(mv[find_module(mv, insts[q].module_name)].clock_port, irv[q].2),
                        reset: None,
                    }
                } else {
                    SignalKind::Wire
                }) by {
                    if q < ii {
                        lemma_inst_start_mono(insts, mv, base + n, q + 1, ii);
                        lemma_inst_start_mono(insts, mv, base + n, 0, q);
                        assert(inst_start(insts, mv, base + n, q + 1) == inst_start(insts, mv, base + n, q) + body_len(
                            mv,
                            insts[q].module_name,
                        ));
                        assert(s2[inst_start(insts, mv, base + n, q) + k] == sb[inst_start(insts, mv, base + n, q) + k]);
                        assert(irv[q] == irv0[q]);
                    }
                }
                assert forall|q: int, k: int|
                    0 <= q < ii + 1 && 0 <= k < body_len(mv, insts[q].module_name) && !any_targets(
                    mv[find_module(mv, insts[q].module_name)].body.stmts,
                    irv[q].2,
                    inst_start(insts, mv, base + n, q) + k,
                ) && !(k < mv[find_module(mv, insts[q].module_name)].ports.len() && mv[find_module(
                    mv,
                    insts[q].module_name,
                )].ports[k].direction == Direction::Input) implies (#[trigger] s2[inst_start(insts, mv, base + n, q)
                    + k]).driver_node is None by {
                    if q < ii {
                        lemma_inst_start_mono(insts, mv, base + n, q + 1, ii);
                        lemma_inst_start_mono(insts, mv, base + n, 0, q);
                        assert(inst_start(insts, mv, base + n, q + 1) == inst_start(insts, mv, base + n, q) + body_len(
                            mv,
                            insts[q].module_name,
                        ));
                        assert(s2[inst_start(insts, mv, base + n, q) + k] == sb[inst_start(insts, mv, base + n, q) + k]);
                        assert(irv[q] == irv0[q]);
                    }
                }
                assert forall|q: int, p: int|
                    0 <= q < ii + 1 && 0 <= p < mv[find_module(mv, insts[q].module_name)].ports.len() && (
                    #[trigger] mv[find_module(mv, insts[q].module_name)].ports[p]).direction == Direction::Input
                    implies drive_fact(
                    n2,
                    s2.len() as int,
                    irv[q].2[mv[find_module(mv, insts[q].module_name)].ports[p].signal_id as int] as int,
                    DriveKind::Combinational,
                    conn_expr(insts[q].connections, mv[find_module(mv, insts[q].module_name)].ports[p].name),
                    remap@,
                    irv.take(q),
                    mv,
                ) by {
                    if q < ii {
                        assert(irv[q] == irv0[q]);
                        assert(irv.take(q) =~= irv0.take(q));
                        lemma_drive_fact_grow(
                            nb,
                            n2,
                            sb.len() as int,
                            s2.len() as int,
                            irv0[q].2[mv[find_module(mv, insts[q].module_name)].ports[p].signal_id as int] as int,
                            DriveKind::Combinational,
                            conn_expr(insts[q].connections, mv[find_module(mv, insts[q].module_name)].ports[p].name),
                            remap@,
                            irv0.take(q),
                            mv,
                        );
                    } else {
                        assert(mv[mi as int].ports[p] == md.ports@[p]@);
                    }
                }
                assert forall|q: int, s: int|
                    0 <= q < ii + 1 && 0 <= s < mv[find_module(mv, insts[q].module_name)].body.stmts.len() implies drive_fact(
                    n2,
                    s2.len() as int,
                    irv[q].2[(#[trigger] mv[find_module(mv, insts[q].module_name)].body.stmts[s]).target_id() as int] as int,
                    stmt_kind(mv[find_module(mv, insts[q].module_name)].body.stmts[s]),
                    mv[find_module(mv, insts[q].module_name)].body.stmts[s].expr(),
                    irv[q].2,
                    Seq::empty(),
                    mv,
                ) by {
                    if q < ii {
                        assert(irv[q] == irv0[q]);
                        lemma_drive_fact_grow(
                            nb,
                            n2,
                            sb.len() as int,
                            s2.len() as int,
                            irv0[q].2[mv[find_module(mv, insts[q].module_name)].body.stmts[s].target_id() as int] as int,
                            stmt_kind(mv[find_module(mv, insts[q].module_name)].body.stmts[s]),
                            mv[find_module(mv, insts[q].module_name)].body.stmts[s].expr(),
                            irv0[q].2,
                            Seq::empty(),
                            mv,
                        );
                    }
                }
            }
            i += 1;
        }
        let clock = match clock_port {
            Some(c) => Some(ClockTrigger { signal_id: remap[c], edge: Edge::Posedge }),
            None => None,
        };
        let ghost s3 = self.signals@;
        let ghost n3 = self.nodes@;
        proof {
            assert(insts.take(insts.len() as int) =~= insts);
            assert forall|k: int| 0 <= k < remap@.len() implies #[trigger] remap@[k] < s3.len() by {
                lemma_inst_start_mono(insts, mv, base + n, 0, insts.len() as int);
            }
            lemma_distinct_targets(sc.stmts, 0);
            assert(targets_distinct(stmts_of(scope.stmts@), remap@)) by {
                assert forall|a: int, b: int|
                    0 <= a < sc.stmts.len() && 0 <= b < sc.stmts.len() && a != b implies remap@[(
                    #[trigger] sc.stmts[a]).target_id() as int] != remap@[(#[trigger] sc.stmts[b]).target_id() as int] by {
                    if a < b {
                        assert(sc.stmts[a].target_id() != sc.stmts[b].target_id());
                    } else {
                        assert(sc.stmts[b].target_id() != sc.stmts[a].target_id());
                    }
                }
            }
            assert forall|st: int| 0 <= st < scope.stmts@.len() implies s3[remap@[(
            #[trigger] stmts_of(scope.stmts@)[st]).target_id() as int] as int].driver_node is None by {
                let t = sc.stmts[st].target_id() as int;
                assert(s3[base + t] == s1[base + t]);
            }
        }
        self.drive_stmts(&scope.stmts, &remap, &irs, modules, clock);
        proof {
            let sigs = self.signals@;
            let nodes = self.nodes@;
            let irv = irs_view(irs@);
            let rv = remap@;
            let ni = insts.len() as int;
            assert(clock == clock_of(clock_port, rv));
            assert forall|k: int| 0 <= k < base implies #[trigger] sigs[k] == old_sigs[k] by {
                assert(s3[k] == s1[k]);
                if any_targets(sc.stmts, rv, k) {
                    let w = choose|w: int| 0 <= w < sc.stmts.len() && rv[(#[trigger] sc.stmts[w]).target_id() as int] == k;
                    assert(sc.stmts[w].target_id() < n);
                }
            }
            assert forall|k: int|
                0 <= k < n implies (#[trigger] sigs[base + k]).kind == (if seq_targets(sc.stmts, rv, base + k) {
                SignalKind::Reg { clock: clock_of(clock_port, rv), reset: None }
            } else {
                SignalKind::Wire
            }) by {
                lemma_inst_start_mono(insts, mv, base + n, 0, ni);
                assert(s3[base + k] == s1[base + k]);
                assert(s1[base + k].kind == SignalKind::Wire);
            }
            assert forall|k: int| 0 <= k < n && !any_targets(sc.stmts, rv, base + k) implies (#[trigger] sigs[base
                + k]).driver_node is None by {
                lemma_inst_start_mono(insts, mv, base + n, 0, ni);
                assert(s3[base + k] == s1[base + k]);
            }
            assert forall|q: int, k: int|
                0 <= q < ni && 0 <= k < body_len(mv, insts[q].module_name) implies (#[trigger] sigs[inst_start(
                insts,
                mv,
                base + n,
                q,
            ) + k]) == s3[inst_start(insts, mv, base + n, q) + k] by {
                let g = inst_start(insts, mv, base + n, q) + k;
                lemma_inst_start_mono(insts, mv, base + n, 0, q);
                lemma_inst_start_mono(insts, mv, base + n, q + 1, ni);
                if any_targets(sc.stmts, rv, g) {
                    let w = choose|w: int| 0 <= w < sc.stmts.len() && rv[(#[trigger] sc.stmts[w]).target_id() as int] == g;
                    assert(sc.stmts[w].target_id() < n);
                }
            }
            assert forall|q: int, p: int|
                0 <= q < ni && 0 <= p < mv[find_module(mv, insts[q].module_name)].ports.len() && (
                #[trigger] mv[find_module(mv, insts[q].module_name)].ports[p]).direction == Direction::Input implies drive_fact(
                nodes,
                sigs.len() as int,
                irv[q].2[mv[find_module(mv, insts[q].module_name)].ports[p].signal_id as int] as int,
                DriveKind::Combinational,
                conn_expr(insts[q].connections, mv[find_module(mv, insts[q].module_name)].ports[p].name),
                rv,
                irv.take(q),
                mv,
            ) by {
                lemma_drive_fact_grow(
                    n3,
                    nodes,
                    s3.len() as int,
                    sigs.len() as int,
                    irv[q].2[mv[find_module(mv, insts[q].module_name)].ports[p].signal_id as int] as int,
                    DriveKind::Combinational,
                    conn_expr(insts[q].connections, mv[find_module(mv, insts[q].module_name)].ports[p].name),
                    rv,
                    irv.take(q),
                    mv,
                );
            }
            assert forall|q: int, s: int|
                0 <= q < ni && 0 <= s < mv[find_module(mv, insts[q].module_name)].body.stmts.len() implies drive_fact(
                nodes,
                sigs.len() as int,
                irv[q].2[(#[trigger] mv[find_module(mv, insts[q].module_name)].body.stmts[s]).target_id() as int] as int,
                stmt_kind(mv[find_module(mv, insts[q].module_name)].body.stmts[s]),
                mv[find_module(mv, insts[q].module_name)].body.stmts[s].expr(),
                irv[q].2,
                Seq::empty(),
                mv,
            ) by {
                lemma_drive_fact_grow(
                    n3,
                    nodes,
                    s3.len() as int,
                    sigs.len() as int,
                    irv[q].2[mv[find_module(mv, insts[q].module_name)].body.stmts[s].target_id() as int] as int,
                    stmt_kind(mv[find_module(mv, insts[q].module_name)].body.stmts[s]),
                    mv[find_module(mv, insts[q].module_name)].body.stmts[s].expr(),
                    irv[q].2,
                    Seq::empty(),
                    mv,
                );
            }
        }
        proof {
            let sigs = self.signals@;
            let irv = irs_view(irs@);
            let ni = insts.len() as int;
            lemma_inst_start_mono(insts, mv, base + n, 0, ni);
            assert(sigs.len() == inst_start(insts, mv, base + n, ni));
            assert forall|k: int|
                0 <= k < n implies (#[trigger] sigs[base + k]).name@ == scoped(prefix@, sc.signals[k].name)
                && sigs[base + k].width == sc.signals[k].width by {
                assert(s3[base + k] == s1[base + k]);
            }
            assert(irs_tab(irv) == inst_tab(insts));
            lemma_same_shape_names(s3, sigs);
            assert(nodes_view(self.nodes@) =~= nodes_view(old(self).nodes@) + insts_nodes(
                insts,
                ni,
                old(self).nodes@.len() as int,
                mv,
                irv,
                remap@,
                base + n,
                names_of(sigs),
                widths_of(sigs),
            ) + stmts_nodes(
                sc.stmts,
                old(self).nodes@.len() as int + insts_nodes(
                    insts,
                    ni,
                    old(self).nodes@.len() as int,
                    mv,
                    irv,
                    remap@,
                    base + n,
                    names_of(sigs),
                    widths_of(sigs),
                ).len(),
                remap@,
                irv,
                mv,
                names_of(sigs),
                widths_of(sigs),
            ));
        }
        (remap, irs)
    }
}

/// Step `step` of a netlist's `initial` procedure carries out step `p` of the
/// resolved procedure: a `step` stays a `step`; an assignment sets the same
/// signal from a node that computes its expression.
pub open spec fn initial_step_ok(
    step: InitialStep,
    p: SRProc,
    nodes: Seq<Node>,
    nsig: int,
    remap: Seq<usize>,
    irs: Seq<IrView>,
    mods: Seq<SRModule>,
) -> bool {
    match p {
        SRProc::Step => step == InitialStep::Step,
        SRProc::Assign { target_id, expr } => step matches InitialStep::Assign { target, expr_node } && target
            == remap[target_id as int] && expr_node < nodes.len() && forall|vals: Seq<u64>|
            vals.len() >= nsig ==> node_value(nodes, expr_node as int, vals) == rexpr_value(expr, remap, irs, mods, vals),
    }
}

/// `nodes`, `sigs` and `initial` are a flattening of the elaborated design
/// `x`: the top-level signals first, then each instance's body signals, named
/// and sized after their declarations; a drive for every assignment and input
/// connection that computes its right-hand side, and no drive of any other
/// signal; registers exactly where `<=` drives; and the `initial` procedure
/// carried over step by step.
pub open spec fn netlist_of(x: SElaborated, nodes: Seq<Node>, sigs: Seq<NetlistSignal>, initial: Seq<InitialStep>) -> bool {
    let mv = x.modules;
    let insts = x.top.instances;
    let n = x.top.signals.len() as int;
    let rv = top_remap(x);
    let irv = flat_irs(x);
    let nsig = sigs.len() as int;
    &&& netlist_wf(nodes, sigs)
    &&& nsig == flat_count(x)
    &&& forall|k: int|
        0 <= k < n ==> (#[trigger] sigs[k]).name@ == x.top.signals[k].name && sigs[k].width
            == x.top.signals[k].width
    &&& forall|i: int, k: int|
        0 <= i < insts.len() && 0 <= k < body_len(mv, insts[i].module_name) ==> (#[trigger] sigs[inst_start(
            insts,
            mv,
            n,
            i,
        ) + k]).name@ == scoped(
            insts[i].instance_name,
            mv[find_module(mv, insts[i].module_name)].body.signals[k].name,
        ) && sigs[inst_start(insts, mv, n, i) + k].width == mv[find_module(
            mv,
            insts[i].module_name,
        )].body.signals[k].width
    &&& forall|s: int|
        0 <= s < x.top.stmts.len() ==> drive_fact(
            nodes,
            nsig,
            (#[trigger] x.top.stmts[s]).target_id() as int,
            stmt_kind(x.top.stmts[s]),
            x.top.stmts[s].expr(),
            rv,
            irv,
            mv,
        )
    &&& forall|i: int, p: int|
        0 <= i < insts.len() && 0 <= p < mv[find_module(mv, insts[i].module_name)].ports.len() && (
        #[trigger] mv[find_module(mv, insts[i].module_name)].ports[p]).direction == Direction::Input
            ==> drive_fact(
            nodes,
            nsig,
            inst_start(insts, mv, n, i) + mv[find_module(mv, insts[i].module_name)].ports[p].signal_id,
            DriveKind::Combinational,
            conn_expr(insts[i].connections, mv[find_module(mv, insts[i].module_name)].ports[p].name),
            rv,
            irv.take(i),
            mv,
        )
    &&& forall|i: int, s: int|
        0 <= i < insts.len() && 0 <= s < mv[find_module(mv, insts[i].module_name)].body.stmts.len()
            ==> drive_fact(
            nodes,
            nsig,
            inst_start(insts, mv, n, i) + (#[trigger] mv[find_module(
                mv,
                insts[i].module_name,
            )].body.stmts[s]).target_id(),
            stmt_kind(mv[find_module(mv, insts[i].module_name)].body.stmts[s]),
            mv[find_module(mv, insts[i].module_name)].body.stmts[s].expr(),
            inst_remap_of(x, i),
            Seq::empty(),
            mv,
        )
    &&& forall|k: int|
        0 <= k < n ==> (#[trigger] sigs[k]).kind == (if seq_targets(x.top.stmts, rv, k) {
            SignalKind::Reg { clock: None, reset: None }
        } else {
            SignalKind::Wire
        })
    &&& forall|i: int, k: int|
        0 <= i < insts.len() && 0 <= k < body_len(mv, insts[i].module_name) ==> (#[trigger] sigs[inst_start(
            insts,
            mv,
            n,
            i,
        ) + k]).kind == (if seq_targets(
            mv[find_module(mv, insts[i].module_name)].body.stmts,
            inst_remap_of(x, i),
            inst_start(insts, mv, n, i) + k,
        ) {
            SignalKind::Reg {
                clock: clock_of(mv[find_module(mv, insts[i].module_name)].clock_port, inst_remap_of(x, i)),
                reset: None,
            }
        } else {
            SignalKind::Wire
        })
    &&& forall|k: int| 0 <= k < n && !any_targets(x.top.stmts, rv, k) ==> (#[trigger] sigs[k]).driver_node is None
    &&& forall|i: int, k: int|
        0 <= i < insts.len() && 0 <= k < body_len(mv, insts[i].module_name) && !any_targets(
            mv[find_module(mv, insts[i].module_name)].body.stmts,
            inst_remap_of(x, i),
            inst_start(insts, mv, n, i) + k,
        ) && !(k < mv[find_module(mv, insts[i].module_name)].ports.len() && mv[find_module(
            mv,
            insts[i].module_name,
        )].ports[k].direction == Direction::Input) ==> (#[trigger] sigs[inst_start(insts, mv, n, i) + k]).driver_node is None
    &&& nodes_view(nodes) == flat_nodes(x, names_of(sigs), widths_of(sigs))
    &&& node_widths_ok(nodes, sigs)
    &&& forall|k: int|
        0 <= k < x.initial.len() && (#[trigger] x.initial[k]) is Assign ==> initial[k] is Assign
            && initial[k]->Assign_expr_node == flat_scope_nodes(x, names_of(sigs), widths_of(sigs)).len() + init_nodes(
            x.initial.take(k + 1),
            flat_scope_nodes(x, names_of(sigs), widths_of(sigs)).len() as int,
            rv,
            irv,
            mv,
            names_of(sigs),
            widths_of(sigs),
        ).len() - 1
    &&& initial.len() == x.initial.len()
    &&& forall|k: int|
        0 <= k < x.initial.len() ==> initial_step_ok(
            #[trigger] initial[k],
            x.initial[k],
            nodes,
            nsig,
            rv,
            irv,
            mv,
        )
}

/// Flattens an elaborated design into a netlist. The top-level signals come
/// first, with their own ids and names; then, for each instance in order,
/// its module's body signals, named `instance.signal`. Every assignment and
/// every input connection becomes a drive whose node computes its
/// right-hand side; a signal driven by `<=` is a register, triggered by the
/// rising edge of its module's clock input when it lies in a module with
/// one; every other signal is a wire. The `initial` procedure is carried over
/// step by step.
#[verifier::rlimit(40)]
pub fn build_netlist(elab: &Elaborated) -> (nl: Netlist)
    requires
        elab_wf(elab@),
    ensures
        netlist_of(elab@, nl.nodes@, nl.signals@, nl.initial@),
{
    let ghost x = elab@;
    let ghost mv = x.modules;
    let ghost insts = x.top.instances;
    let ghost n = x.top.signals.len() as int;
    let mut builder = NetlistBuilder::new();
    proof {
        assert(mv == mods_view(elab.modules@));
        assert forall|i: int| 0 <= i < insts.len() implies #[trigger] inst_ok(insts, i, n, mv) by {
            assert(instance_wf(x, i));
        }
    }
    let ghost b0 = builder.signals@.len() as int;
    let (remap, irs) = builder.flatten_scope(&elab.top, "", &elab.modules, None);
    let ghost irv = irs_view(irs@);
    let ghost rv = remap@;
    let ghost n1 = builder.nodes@;
    let ghost nsig = builder.signals@.len() as int;
    let ghost s_flat = builder.signals@;
    proof {
        lemma_inst_start_mono(insts, mv, n, 0, insts.len() as int);
        assert(rv =~= top_remap(x));
        assert forall|i: int| 0 <= i < insts.len() implies #[trigger] irv[i] == flat_irs(x)[i] by {
            assert(irv[i].2 =~= inst_remap_of(x, i));
            assert(irs_tab(irv)[i] == inst_tab(insts)[i]);
        }
        assert(irv =~= flat_irs(x));
    }
    let mut initial: Vec<InitialStep> = Vec::new();
    let mut k: usize = 0;
    while k < elab.initial.len()
        invariant
            builder.wf(),
            x == elab@,
            mv == x.modules,
            mv == mods_view(elab.modules@),
            insts == x.top.instances,
            n == x.top.signals.len(),
            rv == remap@,
            irv == irs_view(irs@),
            rv == top_remap(x),
            irv == flat_irs(x),
            irs_tab(irv) == inst_tab(insts),
            irs_ok(irv, mv, nsig),
            elab_wf(x),
            builder.signals@.len() == nsig,
            builder.signals@ == s_flat,
            nsig >= n,
            is_prefix(n1, builder.nodes@),
            k <= elab.initial@.len(),
            initial@.len() == k,
            forall|j: int|
                0 <= j < k ==> initial_step_ok(#[trigger] initial@[j], x.initial[j], builder.nodes@, nsig, rv, irv, mv),
            nodes_view(builder.nodes@) == nodes_view(n1) + init_nodes(
                x.initial.take(k as int),
                n1.len() as int,
                rv,
                irv,
                mv,
                names_of(s_flat),
                widths_of(s_flat),
            ),
            forall|j: int|
                0 <= j < k && (#[trigger] x.initial[j]) is Assign ==> initial@[j] is Assign && initial@[j]->Assign_expr_node
                    == n1.len() + init_nodes(
                    x.initial.take(j + 1),
                    n1.len() as int,
                    rv,
                    irv,
                    mv,
                    names_of(s_flat),
                    widths_of(s_flat),
                ).len() - 1,
        decreases elab.initial@.len() - k,
    {
        let ghost nb = builder.nodes@;
        assert(x.initial[k as int] == elab.initial@[k as int]@);
        assert(proc_wf(x, x.initial[k as int]));
        proof {
            assert(x.initial.take(k + 1).drop_last() =~= x.initial.take(k as int));
            assert(x.initial.take(k + 1).last() == x.initial[k as int]);
        }
        let step = match &elab.initial[k] {
            ResolvedProcStmt::Assign { target_id, expr } => {
                proof {
                    assert forall|j: int| 0 <= j < rv.len() implies #[trigger] rv[j] < nsig by {}
                }
                let expr_node = builder.build_expr(expr, &remap, &irs, &elab.modules);
                InitialStep::Assign { target: remap[*target_id], expr_node }
            },
            ResolvedProcStmt::Step => InitialStep::Step,
        };
        initial.push(step);
        proof {
            let nodes = builder.nodes@;
            assert forall|j: int|
                0 <= j < k + 1 implies initial_step_ok(#[trigger] initial@[j], x.initial[j], nodes, nsig, rv, irv, mv) by {
                if j < k {
                    assert(initial_step_ok(initial@[j], x.initial[j], nb, nsig, rv, irv, mv));
                    match x.initial[j] {
                        SRProc::Assign { .. } => {
                            let en = initial@[j]->Assign_expr_node;
                            assert forall|vals: Seq<u64>| vals.len() >= nsig implies node_value(nodes, en as int, vals)
                                == node_value(nb, en as int, vals) by {
                                lemma_node_value_prefix(nb, nodes, en as int, vals);
                            }
                        },
                        SRProc::Step => {},
                    }
                }
            }
        }
        k += 1;
    }
    let ghost nodes = builder.nodes@;
    let ghost sigs = builder.signals@;
    proof {
        reveal_strlit("");
        assert(""@.len() == 0);
        assert forall|k: int| 0 <= k < n implies (#[trigger] sigs[k]).name@ == x.top.signals[k].name && sigs[k].width
            == x.top.signals[k].width by {
            assert(scoped(""@, x.top.signals[k].name) == x.top.signals[k].name);
            assert(s_flat[b0 + k].name@ == scoped(""@, x.top.signals[k].name));
            assert(s_flat[b0 + k].width == x.top.signals[k].width);
        }
        assert forall|i: int, k: int|
            0 <= i < insts.len() && 0 <= k < body_len(mv, insts[i].module_name) implies (#[trigger] sigs[inst_start(
            insts,
            mv,
            n,
            i,
        ) + k]).name@ == scoped(insts[i].instance_name, mv[find_module(mv, insts[i].module_name)].body.signals[k].name) by {
            assert(scoped(""@, insts[i].instance_name) == insts[i].instance_name);
            assert(inst_start(insts, mv, b0 + n, i) == inst_start(insts, mv, n, i));
        }
        assert forall|j: int| 0 <= j < x.top.stmts.len() implies drive_fact(
            nodes,
            nsig,
            (#[trigger] x.top.stmts[j]).target_id() as int,
            stmt_kind(x.top.stmts[j]),
            x.top.stmts[j].expr(),
            rv,
            irv,
            mv,
        ) by {
            assert(rv[x.top.stmts[j].target_id() as int] == x.top.stmts[j].target_id());
            lemma_drive_fact_grow(
                n1,
                nodes,
                nsig,
                nsig,
                x.top.stmts[j].target_id() as int,
                stmt_kind(x.top.stmts[j]),
                x.top.stmts[j].expr(),
                rv,
                irv,
                mv,
            );
        }
        assert forall|i: int, p: int|
            0 <= i < insts.len() && 0 <= p < mv[find_module(mv, insts[i].module_name)].ports.len() && (
            #[trigger] mv[find_module(mv, insts[i].module_name)].ports[p]).direction == Direction::Input implies drive_fact(
            nodes,
            nsig,
            inst_start(insts, mv, n, i) + mv[find_module(mv, insts[i].module_name)].ports[p].signal_id,
            DriveKind::Combinational,
            conn_expr(insts[i].connections, mv[find_module(mv, insts[i].module_name)].ports[p].name),
            rv,
            irv.take(i),
            mv,
        ) by {
            let md = mv[find_module(mv, insts[i].module_name)];
            assert(instance_wf(x, i));
            lemma_find_module_range(mv, insts[i].module_name);
            assert(module_wf(md));
            assert(md.ports[p].signal_id < md.body.signals.len());
            assert(irv[i].2[md.ports[p].signal_id as int] == inst_start(insts, mv, n, i) + md.ports[p].signal_id);
            lemma_drive_fact_grow(
                n1,
                nodes,
                nsig,
                nsig,
                irv[i].2[md.ports[p].signal_id as int] as int,
                DriveKind::Combinational,
                conn_expr(insts[i].connections, md.ports[p].name),
                rv,
                irv.take(i),
                mv,
            );
        }
        assert forall|i: int, j: int|
            0 <= i < insts.len() && 0 <= j < mv[find_module(mv, insts[i].module_name)].body.stmts.len() implies drive_fact(
            nodes,
            nsig,
            inst_start(insts, mv, n, i) + (#[trigger] mv[find_module(mv, insts[i].module_name)].body.stmts[j]).target_id(),
            stmt_kind(mv[find_module(mv, insts[i].module_name)].body.stmts[j]),
            mv[find_module(mv, insts[i].module_name)].body.stmts[j].expr(),
            inst_remap_of(x, i),
            Seq::empty(),
            mv,
        ) by {
            let md = mv[find_module(mv, insts[i].module_name)];
            assert(instance_wf(x, i));
            lemma_find_module_range(mv, insts[i].module_name);
            assert(module_wf(md));
            assert(md.body.stmts[j].target_id() < md.body.signals.len());
            assert(irv[i].2[md.body.stmts[j].target_id() as int] == inst_start(insts, mv, n, i)
                + md.body.stmts[j].target_id());
            lemma_drive_fact_grow(
                n1,
                nodes,
                nsig,
                nsig,
                irv[i].2[md.body.stmts[j].target_id() as int] as int,
                stmt_kind(md.body.stmts[j]),
                md.body.stmts[j].expr(),
                irv[i].2,
                Seq::empty(),
                mv,
            );
        }
        assert(clock_of(None, rv) == None::<ClockTrigger>);
        assert(b0 + n == n);
        assert forall|k: int|
            0 <= k < n implies (#[trigger] sigs[k]).kind == (if seq_targets(x.top.stmts, rv, k) {
            SignalKind::Reg { clock: None, reset: None }
        } else {
            SignalKind::Wire
        }) by {
            assert(s_flat[b0 + k] == sigs[k]);
        }
        assert forall|i: int, k: int|
            0 <= i < insts.len() && 0 <= k < body_len(mv, insts[i].module_name) implies (#[trigger] sigs[inst_start(
            insts,
            mv,
            n,
            i,
        ) + k]).kind == (if seq_targets(
            mv[find_module(mv, insts[i].module_name)].body.stmts,
            inst_remap_of(x, i),
            inst_start(insts, mv, n, i) + k,
        ) {
            SignalKind::Reg {
                clock: clock_of(mv[find_module(mv, insts[i].module_name)].clock_port, inst_remap_of(x, i)),
                reset: None,
            }
        } else {
            SignalKind::Wire
        }) by {
            assert(irv[i].2 == inst_remap_of(x, i));
            assert(inst_start(insts, mv, b0 + n, i) == inst_start(insts, mv, n, i));
        }
        assert forall|k: int| 0 <= k < n && !any_targets(x.top.stmts, rv, k) implies (#[trigger] sigs[k]).driver_node
            is None by {
            assert(s_flat[b0 + k] == sigs[k]);
        }
        assert forall|i: int, k: int|
            0 <= i < insts.len() && 0 <= k < body_len(mv, insts[i].module_name) && !any_targets(
                mv[find_module(mv, insts[i].module_name)].body.stmts,
                inst_remap_of(x, i),
                inst_start(insts, mv, n, i) + k,
            ) && !(k < mv[find_module(mv, insts[i].module_name)].ports.len() && mv[find_module(
                mv,
                insts[i].module_name,
            )].ports[k].direction == Direction::Input) implies (#[trigger] sigs[inst_start(insts, mv, n, i)
                + k]).driver_node is None by {
            assert(irv[i].2 == inst_remap_of(x, i));
            assert(inst_start(insts, mv, b0 + n, i) == inst_start(insts, mv, n, i));
        }
        assert(nodes_view(n1) =~= flat_scope_nodes(x, names_of(sigs), widths_of(sigs)));
        assert(x.initial.take(x.initial.len() as int) =~= x.initial);
        assert(nodes_view(nodes) =~= flat_nodes(x, names_of(sigs), widths_of(sigs)));
        assert(nsig == flat_count(x));
        assert(netlist_wf(nodes, sigs));
    }
    Netlist { signals: builder.signals, nodes: builder.nodes, initial }
}

/// Text of a drive kind.
pub open spec fn kind_text(k: DriveKind) -> Seq<char> {
    match k {
        DriveKind::Combinational => "blocking"@,
        DriveKind::Sequential => "non-blocking"@,
    }
}

impl DriveKind {
    /// `blocking` for `=`, `non-blocking` for `<=`.
    pub fn text(&self) -> (s: &'static str)
        ensures
            s@ == kind_text(*self),
    {
        match self {
            DriveKind::Combinational => "blocking",
            DriveKind::Sequential => "non-blocking",
        }
    }
}

/// First line of a signal's entry: name, bit range, type and id.
pub open spec fn signal_head(sig: NetlistSignal) -> Seq<char> {
    let a = "  "@ + sig.name@ + "["@ + dec((sig.width - 1) as nat) + ":0] : bit"@;
    let b = if sig.width > 1 {
        a + "["@ + dec(sig.width as nat) + "]"@
    } else {
        a
    };
    b + "  (id="@ + dec(sig.id as nat) + ")\n"@
}

/// Entry of a signal: its first line, then what drives it.
pub open spec fn signal_text(sig: NetlistSignal) -> Seq<char> {
    let c = signal_head(sig) + "             "@;
    let d = match (sig.driver_kind, sig.driver_node) {
        (Some(k), Some(n)) => c + "  driven by N"@ + dec(n as nat) + " ("@ + kind_text(k) + ")"@,
        _ => c + "  (no driver)"@,
    };
    d + "\n"@
}

/// Start of a node's line: its id right-aligned in three columns.
pub open spec fn node_head(id: NodeId) -> Seq<char> {
    "  N"@ + pad_left(dec(id as nat), 3) + ": "@
}

/// Line of a node.
pub open spec fn node_text(node: Node) -> Seq<char> {
    match node {
        Node::Const { id, value, width } => node_head(id) + "Const("@ + dec(value as nat) + ")  ("@ + dec(
            width as nat,
        ) + " bit)\n"@,
        Node::ReadSignal { id, signal_name, width, .. } => node_head(id) + "Read("@ + signal_name@ + ")  ("@ + dec(
            width as nat,
        ) + " bit)\n"@,
        Node::BinOp { id, op, lhs, rhs, width } => node_head(id) + "BinOp("@ + binop_text(op) + ")  ("@ + dec(
            width as nat,
        ) + " bit)  = N"@ + dec(lhs as nat) + " "@ + binop_text(op) + " N"@ + dec(rhs as nat) + "\n"@,
        Node::UnaryOp { id, op, operand, width } => node_head(id) + "UnaryOp("@ + unop_text(op) + ")  ("@ + dec(
            width as nat,
        ) + " bit)  = "@ + unop_text(op) + "N"@ + dec(operand as nat) + "\n"@,
        Node::Ternary { id, cond, then_branch, else_branch, width } => node_head(id) + "Ternary  ("@ + dec(
            width as nat,
        ) + " bit)  = N"@ + dec(cond as nat) + " ? N"@ + dec(then_branch as nat) + " : N"@ + dec(
            else_branch as nat,
        ) + "\n"@,
        Node::Drive { id, signal_name, source, kind, .. } => node_head(id) + "Drive("@ + signal_name@ + ")  ("@
            + kind_text(kind) + ")  <= N"@ + dec(source as nat) + "\n"@,
    }
}

pub open spec fn signals_text(sigs: Seq<NetlistSignal>) -> Seq<char>
    decreases sigs.len(),
{
    if sigs.len() == 0 {
        Seq::empty()
    } else {
        signals_text(sigs.drop_last()) + signal_text(sigs.last())
    }
}

pub open spec fn nodes_text(nodes: Seq<Node>) -> Seq<char>
    decreases nodes.len(),
{
    if nodes.len() == 0 {
        Seq::empty()
    } else {
        nodes_text(nodes.drop_last()) + node_text(nodes.last())
    }
}

/// The text listing of a netlist: a title, the signals, then the nodes.
pub open spec fn netlist_text(sigs: Seq<NetlistSignal>, nodes: Seq<Node>) -> Seq<char> {
    "===== Netlist =====\n\n"@ + "--- Signals ---\n"@ + signals_text(sigs) + "\n--- Nodes ---\n"@ + nodes_text(nodes)
}

/// A string holding `t` alone.
fn text_of(t: &str) -> (s: String)
    ensures
        s@ == t@,
{
    String::from_str(t)
}

/// The entry of a signal.
fn signal_line(sig: &NetlistSignal) -> (line: String)
    requires
        sig.width >= 1,
    ensures
        line@ == signal_text(*sig),
{
    let mut line = text_of("  ");
    line.append(sig.name.as_str());
    line.append("[");
    push_dec(&mut line, sig.width - 1);
    line.append(":0] : bit");
    if sig.width > 1 {
        line.append("[");
        push_dec(&mut line, sig.width);
        line.append("]");
    }
    line.append("  (id=");
    push_dec(&mut line, sig.id as u64);
    line.append(")\n");
    assert(line@ == signal_head(*sig));
    line.append("             ");
    match (&sig.driver_kind, &sig.driver_node) {
        (Some(k), Some(d)) => {
            line.append("  driven by N");
            push_dec(&mut line, *d as u64);
            line.append(" (");
            line.append(k.text());
            line.append(")");
        },
        _ => {
            line.append("  (no driver)");
        },
    }
    line.append("\n");
    line
}

/// The start of a node's line.
fn node_head_line(id: NodeId) -> (line: String)
    ensures
        line@ == node_head(id),
{
    let mut line = text_of("  N");
    let d = dec_string(id as u64);
    push_padded(&mut line, d.as_str(), 3);
    line.append(": ");
    line
}

/// The line of a node.
fn node_line(node: &Node) -> (line: String)
    ensures
        line@ == node_text(*node),
{
    match node {
        Node::Const { id, value, width } => {
            let mut line = node_head_line(*id);
            line.append("Const(");
            push_dec(&mut line, *value);
            line.append(")  (");
            push_dec(&mut line, *width);
            line.append(" bit)\n");
            line
        },
        Node::ReadSignal { id, signal_name, width, .. } => {
            let mut line = node_head_line(*id);
            line.append("Read(");
            line.append(signal_name.as_str());
            line.append(")  (");
            push_dec(&mut line, *width);
            line.append(" bit)\n");
            line
        },
        Node::BinOp { id, op, lhs, rhs, width } => {
            let sym = op.symbol();
            let mut line = node_head_line(*id);
            line.append("BinOp(");
            line.append(sym.as_str());
            line.append(")  (");
            push_dec(&mut line, *width);
            line.append(" bit)  = N");
            push_dec(&mut line, *lhs as u64);
            line.append(" ");
            line.append(sym.as_str());
            line.append(" N");
            push_dec(&mut line, *rhs as u64);
            line.append("\n");
            line
        },
        Node::UnaryOp { id, op, operand, width } => {
            let sym = op.symbol();
            let mut line = node_head_line(*id);
            line.append("UnaryOp(");
            line.append(sym.as_str());
            line.append(")  (");
            push_dec(&mut line, *width);
            line.append(" bit)  = ");
            line.append(sym.as_str());
            line.append("N");
            push_dec(&mut line, *operand as u64);
            line.append("\n");
            line
        },
        Node::Ternary { id, cond, then_branch, else_branch, width } => {
            let mut line = node_head_line(*id);
            line.append("Ternary  (");
            push_dec(&mut line, *width);
            line.append(" bit)  = N");
            push_dec(&mut line, *cond as u64);
            line.append(" ? N");
            push_dec(&mut line, *then_branch as u64);
            line.append(" : N");
            push_dec(&mut line, *else_branch as u64);
            line.append("\n");
            line
        },
        Node::Drive { id, signal_name, source, kind, .. } => {
            let mut line = node_head_line(*id);
            line.append("Drive(");
            line.append(signal_name.as_str());
            line.append(")  (");
            line.append(kind.text());
            line.append(")  <= N");
            push_dec(&mut line, *source as u64);
            line.append("\n");
            line
        },
    }
}

/// The text listing of a netlist: each signal with its bit range, id and
/// driver, then each node with its operands.
pub fn format_netlist(nl: &Netlist) -> (s: String)
    requires
        forall|k: int| 0 <= k < nl.signals@.len() ==> (#[trigger] nl.signals@[k]).width >= 1,
    ensures
        s@ == netlist_text(nl.signals@, nl.nodes@),
{
    let mut out = text_of("===== Netlist =====\n\n");
    out.append("--- Signals ---\n");
    let ghost head = out@;
    let mut i: usize = 0;
    while i < nl.signals.len()
        invariant
            i <= nl.signals@.len(),
            forall|k: int| 0 <= k < nl.signals@.len() ==> (#[trigger] nl.signals@[k]).width >= 1,
            out@ == head + signals_text(nl.signals@.take(i as int)),
        decreases nl.signals@.len() - i,
    {
        let line = signal_line(&nl.signals[i]);
        out.append(line.as_str());
        assert(nl.signals@.take(i + 1).drop_last() =~= nl.signals@.take(i as int));
        i += 1;
    }
    assert(nl.signals@.take(nl.signals@.len() as int) =~= nl.signals@);
    out.append("\n--- Nodes ---\n");
    let ghost mid = out@;
    let mut j: usize = 0;
    while j < nl.nodes.len()
        invariant
            j <= nl.nodes@.len(),
            out@ == mid + nodes_text(nl.nodes@.take(j as int)),
        decreases nl.nodes@.len() - j,
    {
        let line = node_line(&nl.nodes[j]);
        out.append(line.as_str());
        assert(nl.nodes@.take(j + 1).drop_last() =~= nl.nodes@.take(j as int));
        j += 1;
    }
    assert(nl.nodes@.take(nl.nodes@.len() as int) =~= nl.nodes@);
    out
}

} // verus!
