//! Elaboration: name resolution and the static checks of a program.
//!
//! Module definitions are resolved and checked once each, whether instantiated
//! or not; then the top level (blocks and the testbench's concurrent part) is
//! resolved against them, and last the testbench's `initial` procedure.
use vstd::prelude::*;

use crate::ast::{
    spec_width, BinOp, Decl, Direction, Expr, InstDecl, ModuleDef, ProcStmt, Program, SDecl, SExpr, SInstDecl,
    SProcStmt, SStmt, SignalType, Stmt, UnOp,
};
use crate::comb_graph::{check_combinational_loops, first_cycle, loop_text, stmts_of, Search};
use crate::elab_spec::{
    args_spec, fields_ok, inst_ok, proc_ok, inst_tab, ids_ok, module_wf, instance_wf, proc_wf, elab_wf, lemma_fields_ok_no_instances,
    blocks_decls, blocks_instances, blocks_stmts, concat_all, lemma_concat_all_take, tag_decls,
    tbs_decls, tbs_initial, tbs_instances, tbs_stmts, connections_spec, elaborate_spec, find_conn, find_conn_from, find_instance,
    find_instance_from, find_module, find_module_from, find_port, find_port_from, find_port_id,
    find_port_id_from, find_signal, find_signal_from, first_redriven, first_redriven_from,
    first_unconnected, first_unconnected_from, has_sequential, initial_spec, instances_spec,
    lemma_first_from, module_decls_spec, module_def_spec, module_stmts_spec, modules_spec, new_signal,
    ports_spec, reads, reads_below, redriven_at, resolve_expr_spec, resolved_stmt, rexpr_is_clock,
    loop_names, scope_checks, signals_spec, stmts_below, stmts_spec, top_decls, top_initial, top_instances,
    top_stmts,
};

verus! {

/// Why a program was rejected.
#[derive(Debug)]
pub enum ElabErrorKind {
    MultipleTestbenches,
    DuplicateModule { module: String },
    DuplicatePort { module: String, port: String },
    ClockOutputPort { module: String, port: String },
    MultipleClockPorts { module: String, port: String },
    DuplicateModuleDecl { module: String, name: String },
    ClockDeclInModule { module: String, name: String },
    UndeclaredInModule { module: String, name: String },
    AssignToInputPort { module: String, port: String },
    MissingClockPort { module: String },
    Undeclared { name: String },
    DuplicateDecl { name: String },
    ClockDeclOutsideTestbench { name: String },
    NameCollision { name: String },
    UndefinedModule { module: String },
    OutputPortArg { module: String, port: String },
    UnknownPortArg { module: String, port: String },
    DuplicateArg { port: String },
    ClockMismatch { module: String, port: String },
    UnconnectedInput { module: String, port: String },
    InstanceNotFound { instance: String },
    NotAPort { module: String, field: String },
    ReadInputPort { instance: String, field: String },
    MultipleDrivers { name: String },
    /// The names of the signals along a combinational cycle, first and last
    /// being the same signal.
    CombinationalLoop { cycle: Vec<String> },
}

/// Mathematical model of a rejection.
pub enum SElabErr {
    MultipleTestbenches,
    DuplicateModule { module: Seq<char> },
    DuplicatePort { module: Seq<char>, port: Seq<char> },
    ClockOutputPort { module: Seq<char>, port: Seq<char> },
    MultipleClockPorts { module: Seq<char>, port: Seq<char> },
    DuplicateModuleDecl { module: Seq<char>, name: Seq<char> },
    ClockDeclInModule { module: Seq<char>, name: Seq<char> },
    UndeclaredInModule { module: Seq<char>, name: Seq<char> },
    AssignToInputPort { module: Seq<char>, port: Seq<char> },
    MissingClockPort { module: Seq<char> },
    Undeclared { name: Seq<char> },
    DuplicateDecl { name: Seq<char> },
    ClockDeclOutsideTestbench { name: Seq<char> },
    NameCollision { name: Seq<char> },
    UndefinedModule { module: Seq<char> },
    OutputPortArg { module: Seq<char>, port: Seq<char> },
    UnknownPortArg { module: Seq<char>, port: Seq<char> },
    DuplicateArg { port: Seq<char> },
    ClockMismatch { module: Seq<char>, port: Seq<char> },
    UnconnectedInput { module: Seq<char>, port: Seq<char> },
    InstanceNotFound { instance: Seq<char> },
    NotAPort { module: Seq<char>, field: Seq<char> },
    ReadInputPort { instance: Seq<char>, field: Seq<char> },
    MultipleDrivers { name: Seq<char> },
    CombinationalLoop { cycle: Seq<Seq<char>> },
}

impl View for ElabErrorKind {
    type V = SElabErr;

    open spec fn view(&self) -> SElabErr {
        match self {
            ElabErrorKind::MultipleTestbenches => SElabErr::MultipleTestbenches,
            ElabErrorKind::DuplicateModule { module } => SElabErr::DuplicateModule { module: module@ },
            ElabErrorKind::DuplicatePort { module, port } => SElabErr::DuplicatePort {
                module: module@,
                port: port@,
            },
            ElabErrorKind::ClockOutputPort { module, port } => SElabErr::ClockOutputPort {
                module: module@,
                port: port@,
            },
            ElabErrorKind::MultipleClockPorts { module, port } => SElabErr::MultipleClockPorts {
                module: module@,
                port: port@,
            },
            ElabErrorKind::DuplicateModuleDecl { module, name } => SElabErr::DuplicateModuleDecl {
                module: module@,
                name: name@,
            },
            ElabErrorKind::ClockDeclInModule { module, name } => SElabErr::ClockDeclInModule {
                module: module@,
                name: name@,
            },
            ElabErrorKind::UndeclaredInModule { module, name } => SElabErr::UndeclaredInModule {
                module: module@,
                name: name@,
            },
            ElabErrorKind::AssignToInputPort { module, port } => SElabErr::AssignToInputPort {
                module: module@,
                port: port@,
            },
            ElabErrorKind::MissingClockPort { module } => SElabErr::MissingClockPort { module: module@ },
            ElabErrorKind::Undeclared { name } => SElabErr::Undeclared { name: name@ },
            ElabErrorKind::DuplicateDecl { name } => SElabErr::DuplicateDecl { name: name@ },
            ElabErrorKind::ClockDeclOutsideTestbench { name } => SElabErr::ClockDeclOutsideTestbench {
                name: name@,
            },
            ElabErrorKind::NameCollision { name } => SElabErr::NameCollision { name: name@ },
            ElabErrorKind::UndefinedModule { module } => SElabErr::UndefinedModule { module: module@ },
            ElabErrorKind::OutputPortArg { module, port } => SElabErr::OutputPortArg {
                module: module@,
                port: port@,
            },
            ElabErrorKind::UnknownPortArg { module, port } => SElabErr::UnknownPortArg {
                module: module@,
                port: port@,
            },
            ElabErrorKind::DuplicateArg { port } => SElabErr::DuplicateArg { port: port@ },
            ElabErrorKind::ClockMismatch { module, port } => SElabErr::ClockMismatch {
                module: module@,
                port: port@,
            },
            ElabErrorKind::UnconnectedInput { module, port } => SElabErr::UnconnectedInput {
                module: module@,
                port: port@,
            },
            ElabErrorKind::InstanceNotFound { instance } => SElabErr::InstanceNotFound {
                instance: instance@,
            },
            ElabErrorKind::NotAPort { module, field } => SElabErr::NotAPort {
                module: module@,
                field: field@,
            },
            ElabErrorKind::ReadInputPort { instance, field } => SElabErr::ReadInputPort {
                instance: instance@,
                field: field@,
            },
            ElabErrorKind::MultipleDrivers { name } => SElabErr::MultipleDrivers { name: name@ },
            ElabErrorKind::CombinationalLoop { cycle } => SElabErr::CombinationalLoop {
                cycle: cycle@.map_values(|s: String| s@),
            },
        }
    }
}

/// An elaboration error: its kind, and a message in words.
#[derive(Debug)]
pub struct ElabError {
    pub kind: ElabErrorKind,
    pub message: String,
}

/// A resolved signal.
#[derive(Debug)]
pub struct ResolvedSignal {
    pub name: String,
    pub width: u64,
    /// Index in its scope's signal list.
    pub id: usize,
    /// Declared with type `clock`.
    pub is_clock: bool,
}

pub struct SRSignal {
    pub name: Seq<char>,
    pub width: u64,
    pub id: usize,
    pub is_clock: bool,
}

impl View for ResolvedSignal {
    type V = SRSignal;

    open spec fn view(&self) -> SRSignal {
        SRSignal { name: self.name@, width: self.width, id: self.id, is_clock: self.is_clock }
    }
}

/// A resolved expression: signal names replaced by signal ids.
#[derive(Debug)]
pub enum ResolvedExpr {
    Ident(usize),
    Number(u64),
    BitVecLiteral { width: u64, value: u64 },
    /// Output port `port_name` of instance `instance_name` of the same scope.
    InstanceField { instance_name: String, port_name: String },
    BinOp { op: BinOp, lhs: Box<ResolvedExpr>, rhs: Box<ResolvedExpr> },
    UnaryOp { op: UnOp, expr: Box<ResolvedExpr> },
    Ternary { cond: Box<ResolvedExpr>, then_branch: Box<ResolvedExpr>, else_branch: Box<ResolvedExpr> },
}

pub enum SRExpr {
    Ident(usize),
    Number(u64),
    BitVecLiteral { width: u64, value: u64 },
    InstanceField { instance_name: Seq<char>, port_name: Seq<char> },
    BinOp { op: BinOp, lhs: Box<SRExpr>, rhs: Box<SRExpr> },
    UnaryOp { op: UnOp, expr: Box<SRExpr> },
    Ternary { cond: Box<SRExpr>, then_branch: Box<SRExpr>, else_branch: Box<SRExpr> },
}

impl View for ResolvedExpr {
    type V = SRExpr;

    open spec fn view(&self) -> SRExpr
        decreases self,
    {
        match self {
            ResolvedExpr::Ident(i) => SRExpr::Ident(*i),
            ResolvedExpr::Number(n) => SRExpr::Number(*n),
            ResolvedExpr::BitVecLiteral { width, value } => SRExpr::BitVecLiteral { width: *width, value: *value },
            ResolvedExpr::InstanceField { instance_name, port_name } => SRExpr::InstanceField {
                instance_name: instance_name@,
                port_name: port_name@,
            },
            ResolvedExpr::BinOp { op, lhs, rhs } => SRExpr::BinOp {
                op: *op,
                lhs: Box::new((**lhs)@),
                rhs: Box::new((**rhs)@),
            },
            ResolvedExpr::UnaryOp { op, expr } => SRExpr::UnaryOp { op: *op, expr: Box::new((**expr)@) },
            ResolvedExpr::Ternary { cond, then_branch, else_branch } => SRExpr::Ternary {
                cond: Box::new((**cond)@),
                then_branch: Box::new((**then_branch)@),
                else_branch: Box::new((**else_branch)@),
            },
        }
    }
}

/// A resolved assignment.
#[derive(Debug)]
pub enum ResolvedStmt {
    Combinational { target_id: usize, expr: ResolvedExpr },
    Sequential { target_id: usize, expr: ResolvedExpr },
}

pub enum SRStmt {
    Combinational { target_id: usize, expr: SRExpr },
    Sequential { target_id: usize, expr: SRExpr },
}

impl SRStmt {
    pub open spec fn target_id(self) -> usize {
        match self {
            SRStmt::Combinational { target_id, .. } => target_id,
            SRStmt::Sequential { target_id, .. } => target_id,
        }
    }

    pub open spec fn expr(self) -> SRExpr {
        match self {
            SRStmt::Combinational { expr, .. } => expr,
            SRStmt::Sequential { expr, .. } => expr,
        }
    }
}

impl View for ResolvedStmt {
    type V = SRStmt;

    open spec fn view(&self) -> SRStmt {
        match self {
            ResolvedStmt::Combinational { target_id, expr } => SRStmt::Combinational {
                target_id: *target_id,
                expr: expr@,
            },
            ResolvedStmt::Sequential { target_id, expr } => SRStmt::Sequential {
                target_id: *target_id,
                expr: expr@,
            },
        }
    }
}

/// A resolved module port; `signal_id` indexes the module body's signals.
#[derive(Debug)]
pub struct ResolvedPort {
    pub name: String,
    pub direction: Direction,
    pub signal_id: usize,
    pub is_clock: bool,
}

pub struct SRPort {
    pub name: Seq<char>,
    pub direction: Direction,
    pub signal_id: usize,
    pub is_clock: bool,
}

impl View for ResolvedPort {
    type V = SRPort;

    open spec fn view(&self) -> SRPort {
        SRPort {
            name: self.name@,
            direction: self.direction,
            signal_id: self.signal_id,
            is_clock: self.is_clock,
        }
    }
}

/// A resolved module instance: each input port with the expression, in the
/// instantiating scope, that drives it (in argument order).
#[derive(Debug)]
pub struct ResolvedInstance {
    pub instance_name: String,
    pub module_name: String,
    pub connections: Vec<(String, ResolvedExpr)>,
}

pub struct SRInstance {
    pub instance_name: Seq<char>,
    pub module_name: Seq<char>,
    pub connections: Seq<(Seq<char>, SRExpr)>,
}

pub open spec fn conns_view(c: Seq<(String, ResolvedExpr)>) -> Seq<(Seq<char>, SRExpr)> {
    c.map_values(|x: (String, ResolvedExpr)| (x.0@, x.1@))
}

impl View for ResolvedInstance {
    type V = SRInstance;

    open spec fn view(&self) -> SRInstance {
        SRInstance {
            instance_name: self.instance_name@,
            module_name: self.module_name@,
            connections: conns_view(self.connections@),
        }
    }
}

/// Signals, assignments and instances of one scope (the top level or a
/// module body).
#[derive(Debug)]
pub struct ResolvedScope {
    pub signals: Vec<ResolvedSignal>,
    pub stmts: Vec<ResolvedStmt>,
    pub instances: Vec<ResolvedInstance>,
}

pub struct SRScope {
    pub signals: Seq<SRSignal>,
    pub stmts: Seq<SRStmt>,
    pub instances: Seq<SRInstance>,
}

impl View for ResolvedScope {
    type V = SRScope;

    open spec fn view(&self) -> SRScope {
        SRScope {
            signals: self.signals@.map_values(|s: ResolvedSignal| s@),
            stmts: self.stmts@.map_values(|s: ResolvedStmt| s@),
            instances: self.instances@.map_values(|i: ResolvedInstance| i@),
        }
    }
}

/// A resolved module definition. The ports are the first signals of the body;
/// `clock_port` is the body signal id of its `clock` input, if it has one.
#[derive(Debug)]
pub struct ResolvedModuleDef {
    pub name: String,
    pub ports: Vec<ResolvedPort>,
    pub body: ResolvedScope,
    pub clock_port: Option<usize>,
}

pub struct SRModule {
    pub name: Seq<char>,
    pub ports: Seq<SRPort>,
    pub body: SRScope,
    pub clock_port: Option<usize>,
}

impl View for ResolvedModuleDef {
    type V = SRModule;

    open spec fn view(&self) -> SRModule {
        SRModule {
            name: self.name@,
            ports: self.ports@.map_values(|p: ResolvedPort| p@),
            body: self.body@,
            clock_port: self.clock_port,
        }
    }
}

/// A resolved step of the `initial` procedure.
#[derive(Debug)]
pub enum ResolvedProcStmt {
    Assign { target_id: usize, expr: ResolvedExpr },
    Step,
}

pub enum SRProc {
    Assign { target_id: usize, expr: SRExpr },
    Step,
}

impl View for ResolvedProcStmt {
    type V = SRProc;

    open spec fn view(&self) -> SRProc {
        match self {
            ResolvedProcStmt::Assign { target_id, expr } => SRProc::Assign { target_id: *target_id, expr: expr@ },
            ResolvedProcStmt::Step => SRProc::Step,
        }
    }
}

/// The result of elaboration.
#[derive(Debug)]
pub struct Elaborated {
    pub top: ResolvedScope,
    /// The module definitions, in source order (their names are distinct).
    pub modules: Vec<ResolvedModuleDef>,
    pub initial: Vec<ResolvedProcStmt>,
}

pub struct SElaborated {
    pub top: SRScope,
    pub modules: Seq<SRModule>,
    pub initial: Seq<SRProc>,
}

impl View for Elaborated {
    type V = SElaborated;

    open spec fn view(&self) -> SElaborated {
        SElaborated {
            top: self.top@,
            modules: self.modules@.map_values(|m: ResolvedModuleDef| m@),
            initial: self.initial@.map_values(|p: ResolvedProcStmt| p@),
        }
    }
}


// ---------------------------------------------------------------------------
// Error messages

/// The message of an error of kind `k`.
pub open spec fn error_text(k: &ElabErrorKind) -> Seq<char> {
    match k {
        ElabErrorKind::MultipleTestbenches => "テストベンチは1つだけ許可されています"@,
        ElabErrorKind::DuplicateModule { module } => "モジュール '"@ + module@ + "' が重複定義されています"@,
        ElabErrorKind::DuplicatePort { module, port } => "モジュール '"@ + module@ + "' のポート '"@ + port@
            + "' が重複しています"@,
        ElabErrorKind::ClockOutputPort { module, port } => "モジュール '"@ + module@ + "' のポート '"@
            + port@ + "': clock型はoutputポートに使えません"@,
        ElabErrorKind::MultipleClockPorts { module, port } => "モジュール '"@ + module@ + "' のポート '"@
            + port@ + "': clock型の入力ポートは高々1つです"@,
        ElabErrorKind::DuplicateModuleDecl { module, name } => "モジュール '"@ + module@ + "' 内で変数 '"@
            + name@ + "' が重複宣言されています"@,
        ElabErrorKind::ClockDeclInModule { module, name } => "モジュール '"@ + module@ + "' 内で clock型の変数 '"@
            + name@ + "' は宣言できません（テストベンチ内でのみ許可）"@,
        ElabErrorKind::UndeclaredInModule { module, name } => "モジュール '"@ + module@ + "': 変数 '"@ + name@
            + "' が宣言されていません"@,
        ElabErrorKind::AssignToInputPort { module, port } => "モジュール '"@ + module@ + "': 入力ポート '"@
            + port@ + "' に代入できません"@,
        ElabErrorKind::MissingClockPort { module } => "モジュール '"@ + module@
            + "': 順序代入を使うにはclock型の入力ポートが必要です"@,
        ElabErrorKind::Undeclared { name } => "変数 '"@ + name@ + "' が宣言されていません"@,
        ElabErrorKind::DuplicateDecl { name } => "変数 '"@ + name@ + "' が重複宣言されています"@,
        ElabErrorKind::ClockDeclOutsideTestbench { name } => "clock型の変数 '"@ + name@
            + "' はテストベンチ内でのみ宣言できます"@,
        ElabErrorKind::NameCollision { name } => "'"@ + name@ + "' という名前が信号またはインスタンスと重複しています"@,
        ElabErrorKind::UndefinedModule { module } => "モジュール '"@ + module@ + "' が定義されていません"@,
        ElabErrorKind::OutputPortArg { module, port } => "'"@ + port@ + "' はモジュール '"@ + module@
            + "' の出力ポートです。インスタンス化時には入力ポートのみ指定できます"@,
        ElabErrorKind::UnknownPortArg { module, port } => "モジュール '"@ + module@ + "' に入力ポート '"@
            + port@ + "' はありません"@,
        ElabErrorKind::DuplicateArg { port } => "引数 '"@ + port@ + "' が重複しています"@,
        ElabErrorKind::ClockMismatch { module, port } => "モジュール '"@ + module@ + "' のポート '"@ + port@
            + "': clock型のポートにはclock型の信号だけを、bit型のポートにはbit型の信号だけを接続できます"@,
        ElabErrorKind::UnconnectedInput { module, port } => "モジュール '"@ + module@ + "' の入力ポート '"@
            + port@ + "' が接続されていません"@,
        ElabErrorKind::InstanceNotFound { instance } => "インスタンス '"@ + instance@ + "' が見つかりません"@,
        ElabErrorKind::NotAPort { module, field } => "'"@ + field@ + "' はモジュール '"@ + module@
            + "' のポートではありません"@,
        ElabErrorKind::ReadInputPort { instance, field } => "'"@ + instance@ + "."@ + field@
            + "' は入力ポートのため読み出せません"@,
        ElabErrorKind::MultipleDrivers { name } => "変数 '"@ + name@ + "' に複数のドライバがあります（多重代入）"@,
        ElabErrorKind::CombinationalLoop { cycle } => loop_text(cycle@.map_values(|s: String| s@)),
    }
}

impl ElabError {
    /// The message is the text of the kind.
    pub open spec fn wf(&self) -> bool {
        self.message@ == error_text(&self.kind)
    }
}

impl ElabError {
    /// The error as printed: `エラボレーションエラー: ` and the message.
    pub fn text(&self) -> (s: String)
        ensures
            s@ == "エラボレーションエラー: "@ + self.message@,
    {
        let mut t = String::from_str("エラボレーションエラー: ");
        t.append(self.message.as_str());
        t
    }
}

fn text2(a: &str, b: &String, c: &str) -> (s: String)
    ensures
        s@ == a@ + b@ + c@,
{
    String::from_str(a).concat(b.as_str()).concat(c)
}

fn text4(a: &str, b: &String, c: &str, d: &String, e: &str) -> (s: String)
    ensures
        s@ == a@ + b@ + c@ + d@ + e@,
{
    String::from_str(a).concat(b.as_str()).concat(c).concat(d.as_str()).concat(e)
}

/// An error of kind `kind`, with its message.
fn make_error(kind: ElabErrorKind) -> (e: ElabError)
    requires
        !(kind is CombinationalLoop),
    ensures
        e.kind == kind,
        e.wf(),
{
    let message = match &kind {
        ElabErrorKind::MultipleTestbenches => String::from_str("テストベンチは1つだけ許可されています"),
        ElabErrorKind::DuplicateModule { module } => text2("モジュール '", module, "' が重複定義されています"),
        ElabErrorKind::DuplicatePort { module, port } => text4(
            "モジュール '",
            module,
            "' のポート '",
            port,
            "' が重複しています",
        ),
        ElabErrorKind::ClockOutputPort { module, port } => text4(
            "モジュール '",
            module,
            "' のポート '",
            port,
            "': clock型はoutputポートに使えません",
        ),
        ElabErrorKind::MultipleClockPorts { module, port } => text4(
            "モジュール '",
            module,
            "' のポート '",
            port,
            "': clock型の入力ポートは高々1つです",
        ),
        ElabErrorKind::DuplicateModuleDecl { module, name } => text4(
            "モジュール '",
            module,
            "' 内で変数 '",
            name,
            "' が重複宣言されています",
        ),
        ElabErrorKind::ClockDeclInModule { module, name } => text4(
            "モジュール '",
            module,
            "' 内で clock型の変数 '",
            name,
            "' は宣言できません（テストベンチ内でのみ許可）",
        ),
        ElabErrorKind::UndeclaredInModule { module, name } => text4(
            "モジュール '",
            module,
            "': 変数 '",
            name,
            "' が宣言されていません",
        ),
        ElabErrorKind::AssignToInputPort { module, port } => text4(
            "モジュール '",
            module,
            "': 入力ポート '",
            port,
            "' に代入できません",
        ),
        ElabErrorKind::MissingClockPort { module } => text2(
            "モジュール '",
            module,
            "': 順序代入を使うにはclock型の入力ポートが必要です",
        ),
        ElabErrorKind::Undeclared { name } => text2("変数 '", name, "' が宣言されていません"),
        ElabErrorKind::DuplicateDecl { name } => text2("変数 '", name, "' が重複宣言されています"),
        ElabErrorKind::ClockDeclOutsideTestbench { name } => text2(
            "clock型の変数 '",
            name,
            "' はテストベンチ内でのみ宣言できます",
        ),
        ElabErrorKind::NameCollision { name } => text2(
            "'",
            name,
            "' という名前が信号またはインスタンスと重複しています",
        ),
        ElabErrorKind::UndefinedModule { module } => text2("モジュール '", module, "' が定義されていません"),
        ElabErrorKind::OutputPortArg { module, port } => text4(
            "'",
            port,
            "' はモジュール '",
            module,
            "' の出力ポートです。インスタンス化時には入力ポートのみ指定できます",
        ),
        ElabErrorKind::UnknownPortArg { module, port } => text4(
            "モジュール '",
            module,
            "' に入力ポート '",
            port,
            "' はありません",
        ),
        ElabErrorKind::DuplicateArg { port } => text2("引数 '", port, "' が重複しています"),
        ElabErrorKind::ClockMismatch { module, port } => text4(
            "モジュール '",
            module,
            "' のポート '",
            port,
            "': clock型のポートにはclock型の信号だけを、bit型のポートにはbit型の信号だけを接続できます",
        ),
        ElabErrorKind::UnconnectedInput { module, port } => text4(
            "モジュール '",
            module,
            "' の入力ポート '",
            port,
            "' が接続されていません",
        ),
        ElabErrorKind::InstanceNotFound { instance } => text2("インスタンス '", instance, "' が見つかりません"),
        ElabErrorKind::NotAPort { module, field } => text4(
            "'",
            field,
            "' はモジュール '",
            module,
            "' のポートではありません",
        ),
        ElabErrorKind::ReadInputPort { instance, field } => text4(
            "'",
            instance,
            ".",
            field,
            "' は入力ポートのため読み出せません",
        ),
        ElabErrorKind::MultipleDrivers { name } => text2(
            "変数 '",
            name,
            "' に複数のドライバがあります（多重代入）",
        ),
        ElabErrorKind::CombinationalLoop { .. } => String::new(),
    };
    ElabError { kind, message }
}

// ---------------------------------------------------------------------------
// Lookups

pub open spec fn sigs_view(v: Seq<ResolvedSignal>) -> Seq<SRSignal> {
    v.map_values(|s: ResolvedSignal| s@)
}

pub open spec fn tab_view(v: Seq<(String, String)>) -> Seq<(Seq<char>, Seq<char>)> {
    v.map_values(|p: (String, String)| (p.0@, p.1@))
}

pub open spec fn mods_view(v: Seq<ResolvedModuleDef>) -> Seq<SRModule> {
    v.map_values(|m: ResolvedModuleDef| m@)
}

pub open spec fn ports_view(v: Seq<ResolvedPort>) -> Seq<SRPort> {
    v.map_values(|p: ResolvedPort| p@)
}

fn find_signal_in(sigs: &Vec<ResolvedSignal>, name: &String) -> (r: Option<usize>)
    ensures
        match r {
            Some(i) => find_signal(sigs_view(sigs@), name@) == i && i < sigs@.len(),
            None => find_signal(sigs_view(sigs@), name@) == -1,
        },
{
    let ghost v = sigs_view(sigs@);
    let mut i: usize = 0;
    while i < sigs.len()
        invariant
            v == sigs_view(sigs@),
            i <= sigs@.len(),
            find_signal(v, name@) == find_signal_from(v, name@, i as int),
        decreases sigs@.len() - i,
    {
        if sigs[i].name == *name {
            return Some(i);
        }
        i += 1;
    }
    None
}

fn find_instance_in(tab: &Vec<(String, String)>, name: &String) -> (r: Option<usize>)
    ensures
        match r {
            Some(i) => find_instance(tab_view(tab@), name@) == i && i < tab@.len(),
            None => find_instance(tab_view(tab@), name@) == -1,
        },
{
    let ghost v = tab_view(tab@);
    let mut i: usize = 0;
    while i < tab.len()
        invariant
            v == tab_view(tab@),
            i <= tab@.len(),
            find_instance(v, name@) == find_instance_from(v, name@, i as int),
        decreases tab@.len() - i,
    {
        if tab[i].0 == *name {
            return Some(i);
        }
        i += 1;
    }
    None
}

pub(crate) fn find_module_in(mods: &Vec<ResolvedModuleDef>, name: &String) -> (r: Option<usize>)
    ensures
        match r {
            Some(i) => find_module(mods_view(mods@), name@) == i && i < mods@.len(),
            None => find_module(mods_view(mods@), name@) == -1,
        },
{
    let ghost v = mods_view(mods@);
    let mut i: usize = 0;
    while i < mods.len()
        invariant
            v == mods_view(mods@),
            i <= mods@.len(),
            find_module(v, name@) == find_module_from(v, name@, i as int),
        decreases mods@.len() - i,
    {
        if mods[i].name == *name {
            return Some(i);
        }
        i += 1;
    }
    None
}

pub(crate) fn find_port_in(ports: &Vec<ResolvedPort>, name: &String) -> (r: Option<usize>)
    ensures
        match r {
            Some(i) => find_port(ports_view(ports@), name@) == i && i < ports@.len(),
            None => find_port(ports_view(ports@), name@) == -1,
        },
{
    let ghost v = ports_view(ports@);
    let mut i: usize = 0;
    while i < ports.len()
        invariant
            v == ports_view(ports@),
            i <= ports@.len(),
            find_port(v, name@) == find_port_from(v, name@, i as int),
        decreases ports@.len() - i,
    {
        if ports[i].name == *name {
            return Some(i);
        }
        i += 1;
    }
    None
}

fn find_port_id_in(ports: &Vec<ResolvedPort>, id: usize) -> (r: Option<usize>)
    ensures
        match r {
            Some(i) => find_port_id(ports_view(ports@), id) == i && i < ports@.len(),
            None => find_port_id(ports_view(ports@), id) == -1,
        },
{
    let ghost v = ports_view(ports@);
    let mut i: usize = 0;
    while i < ports.len()
        invariant
            v == ports_view(ports@),
            i <= ports@.len(),
            find_port_id(v, id) == find_port_id_from(v, id, i as int),
        decreases ports@.len() - i,
    {
        if ports[i].signal_id == id {
            return Some(i);
        }
        i += 1;
    }
    None
}

pub(crate) fn find_conn_in(cs: &Vec<(String, ResolvedExpr)>, name: &String) -> (r: Option<usize>)
    ensures
        match r {
            Some(i) => find_conn(conns_view(cs@), name@) == i && i < cs@.len(),
            None => find_conn(conns_view(cs@), name@) == -1,
        },
{
    let ghost v = conns_view(cs@);
    let mut i: usize = 0;
    while i < cs.len()
        invariant
            v == conns_view(cs@),
            i <= cs@.len(),
            find_conn(v, name@) == find_conn_from(v, name@, i as int),
        decreases cs@.len() - i,
    {
        if cs[i].0 == *name {
            return Some(i);
        }
        i += 1;
    }
    None
}

// ---------------------------------------------------------------------------
// Expressions

/// A resolved expression reads only signals below the count of the scope it
/// was resolved in, and only ports of instances of that scope.
pub proof fn lemma_resolved_reads_below(
    e: SExpr,
    sigs: Seq<SRSignal>,
    insts: Seq<(Seq<char>, Seq<char>)>,
    mods: Seq<SRModule>,
)
    requires
        resolve_expr_spec(e, sigs, insts, mods) is Ok,
        sigs.len() <= usize::MAX,
    ensures
        reads_below(resolve_expr_spec(e, sigs, insts, mods)->Ok_0, sigs.len() as int),
        fields_ok(resolve_expr_spec(e, sigs, insts, mods)->Ok_0, insts, mods),
    decreases e,
{
    let r = resolve_expr_spec(e, sigs, insts, mods)->Ok_0;
    match e {
        SExpr::Ident(n) => {
            lemma_first_from(sigs, |x: SRSignal| x.name == n, 0);
            let i = find_signal(sigs, n);
            assert(0 <= i < sigs.len());
            assert(reads(r) =~= seq![i as usize]);
            assert(reads(r)[0] == i);
        },
        SExpr::BinOp { lhs, rhs, .. } => {
            lemma_resolved_reads_below(*lhs, sigs, insts, mods);
            lemma_resolved_reads_below(*rhs, sigs, insts, mods);
            let l = resolve_expr_spec(*lhs, sigs, insts, mods)->Ok_0;
            let rr = resolve_expr_spec(*rhs, sigs, insts, mods)->Ok_0;
            assert forall|k: int| 0 <= k < reads(r).len() implies (#[trigger] reads(r)[k]) < sigs.len() by {
                if k < reads(l).len() {
                    assert(reads(r)[k] == reads(l)[k]);
                } else {
                    assert(reads(r)[k] == reads(rr)[k - reads(l).len()]);
                }
            }
        },
        SExpr::UnaryOp { expr, .. } => {
            lemma_resolved_reads_below(*expr, sigs, insts, mods);
            let v = resolve_expr_spec(*expr, sigs, insts, mods)->Ok_0;
            assert(reads(r) == reads(v));
        },
        SExpr::Ternary { cond, then_branch, else_branch } => {
            lemma_resolved_reads_below(*cond, sigs, insts, mods);
            lemma_resolved_reads_below(*then_branch, sigs, insts, mods);
            lemma_resolved_reads_below(*else_branch, sigs, insts, mods);
            let c = resolve_expr_spec(*cond, sigs, insts, mods)->Ok_0;
            let t = resolve_expr_spec(*then_branch, sigs, insts, mods)->Ok_0;
            let f = resolve_expr_spec(*else_branch, sigs, insts, mods)->Ok_0;
            assert forall|k: int| 0 <= k < reads(r).len() implies (#[trigger] reads(r)[k]) < sigs.len() by {
                if k < reads(c).len() {
                    assert(reads(r)[k] == reads(c)[k]);
                } else if k < reads(c).len() + reads(t).len() {
                    assert(reads(r)[k] == reads(t)[k - reads(c).len()]);
                } else {
                    assert(reads(r)[k] == reads(f)[k - reads(c).len() - reads(t).len()]);
                }
            }
        },
        _ => {
            assert(reads(r) =~= Seq::<usize>::empty());
        },
    }
}

/// Resolves the names of an expression in a scope with signals `sigs`,
/// instances `tab` (instance, module) and module definitions `mods`.
fn resolve_expr(
    expr: &Expr,
    sigs: &Vec<ResolvedSignal>,
    tab: &Vec<(String, String)>,
    mods: &Vec<ResolvedModuleDef>,
) -> (r: Result<ResolvedExpr, ElabError>)
    ensures
        match resolve_expr_spec(expr@, sigs_view(sigs@), tab_view(tab@), mods_view(mods@)) {
            Ok(e) => r matches Ok(x) && x@ == e,
            Err(k) => r matches Err(x) && x.kind@ == k && x.wf(),
        },
    decreases expr,
{
    match expr {
        Expr::Ident(name) => match find_signal_in(sigs, name) {
            None => Err(make_error(ElabErrorKind::Undeclared { name: name.clone() })),
            Some(i) => Ok(ResolvedExpr::Ident(i)),
        },
        Expr::Number(n) => Ok(ResolvedExpr::Number(*n)),
        Expr::BitVecLiteral { width, value } => Ok(ResolvedExpr::BitVecLiteral { width: *width, value: *value }),
        Expr::FieldAccess { instance, field } => {
            let ii = match find_instance_in(tab, instance) {
                None => {
                    return Err(make_error(ElabErrorKind::InstanceNotFound { instance: instance.clone() }));
                },
                Some(ii) => ii,
            };
            let mname = &tab[ii].1;
            let mi = match find_module_in(mods, mname) {
                None => {
                    return Err(make_error(ElabErrorKind::UndefinedModule { module: mname.clone() }));
                },
                Some(mi) => mi,
            };
            let md = &mods[mi];
            assert(mods_view(mods@)[mi as int].ports == ports_view(md.ports@));
            let pi = match find_port_in(&md.ports, field) {
                None => {
                    return Err(
                        make_error(ElabErrorKind::NotAPort { module: mname.clone(), field: field.clone() }),
                    );
                },
                Some(pi) => pi,
            };
            if md.ports[pi].direction != Direction::Output {
                return Err(
                    make_error(ElabErrorKind::ReadInputPort { instance: instance.clone(), field: field.clone() }),
                );
            }
            Ok(ResolvedExpr::InstanceField { instance_name: instance.clone(), port_name: field.clone() })
        },
        Expr::BinOp { op, lhs, rhs } => {
            let l = resolve_expr(lhs, sigs, tab, mods)?;
            let r = resolve_expr(rhs, sigs, tab, mods)?;
            Ok(ResolvedExpr::BinOp { op: *op, lhs: Box::new(l), rhs: Box::new(r) })
        },
        Expr::UnaryOp { op, expr } => {
            let v = resolve_expr(expr, sigs, tab, mods)?;
            Ok(ResolvedExpr::UnaryOp { op: *op, expr: Box::new(v) })
        },
        Expr::Ternary { cond, then_branch, else_branch } => {
            let c = resolve_expr(cond, sigs, tab, mods)?;
            let t = resolve_expr(then_branch, sigs, tab, mods)?;
            let f = resolve_expr(else_branch, sigs, tab, mods)?;
            Ok(ResolvedExpr::Ternary { cond: Box::new(c), then_branch: Box::new(t), else_branch: Box::new(f) })
        },
    }
}

// ---------------------------------------------------------------------------
// Module definitions

/// Registers a module's ports as its first signals: the signals, the ports,
/// and the body signal id of its `clock` input if it has one.
fn resolve_module_ports(m: &ModuleDef) -> (r: Result<(Vec<ResolvedSignal>, Vec<ResolvedPort>, Option<usize>), ElabError>)
    ensures
        match ports_spec(m@, 0, Seq::empty(), Seq::empty(), None) {
            Ok((s, p, c)) => r matches Ok((sigs, ports, clk)) && sigs_view(sigs@) == s && ports_view(ports@)
                == p && clk == c,
            Err(k) => r matches Err(e) && e.kind@ == k && e.wf(),
        },
        r matches Ok((sigs, ports, clk)) ==> ids_ok(sigs_view(sigs@)) && (forall|k: int|
            0 <= k < ports@.len() ==> (#[trigger] ports@[k]).signal_id < sigs@.len()) && (clk matches Some(c)
            ==> c < sigs@.len()),
        r matches Ok((sigs, ports, clk)) ==> forall|k: int| 0 <= k < ports@.len() ==> (#[trigger] ports@[k]).signal_id == k,
{
    let mut signals: Vec<ResolvedSignal> = Vec::new();
    let mut ports: Vec<ResolvedPort> = Vec::new();
    let mut clock_port: Option<usize> = None;
    let mut i: usize = 0;
    proof {
        assert(sigs_view(signals@) =~= Seq::empty());
        assert(ports_view(ports@) =~= Seq::empty());
    }
    while i < m.ports.len()
        invariant
            i <= m.ports@.len(),
            signals@.len() == i,
            ports@.len() == i,
            ids_ok(sigs_view(signals@)),
            forall|k: int| 0 <= k < ports@.len() ==> (#[trigger] ports@[k]).signal_id < signals@.len(),
            forall|k: int| 0 <= k < ports@.len() ==> (#[trigger] ports@[k]).signal_id == k,
            clock_port matches Some(c) ==> c < signals@.len(),
            ports_spec(m@, 0, Seq::empty(), Seq::empty(), None) == ports_spec(
                m@,
                i as int,
                sigs_view(signals@),
                ports_view(ports@),
                clock_port,
            ),
        decreases m.ports@.len() - i,
    {
        let p = &m.ports[i];
        assert(m@.ports[i as int] == p@);
        let is_clock = p.sig_type.is_clock();
        if find_signal_in(&signals, &p.name).is_some() {
            return Err(make_error(ElabErrorKind::DuplicatePort { module: m.name.clone(), port: p.name.clone() }));
        }
        if is_clock && p.direction == Direction::Output {
            return Err(make_error(ElabErrorKind::ClockOutputPort { module: m.name.clone(), port: p.name.clone() }));
        }
        if is_clock && clock_port.is_some() {
            return Err(
                make_error(ElabErrorKind::MultipleClockPorts { module: m.name.clone(), port: p.name.clone() }),
            );
        }
        let id = signals.len();
        let sig = ResolvedSignal { name: p.name.clone(), width: p.sig_type.width(), id, is_clock };
        let port = ResolvedPort { name: p.name.clone(), direction: p.direction, signal_id: id, is_clock };
        proof {
            assert(sigs_view(signals@.push(sig)) =~= sigs_view(signals@).push(sig@));
            assert(ports_view(ports@.push(port)) =~= ports_view(ports@).push(port@));
        }
        signals.push(sig);
        ports.push(port);
        if is_clock {
            clock_port = Some(id);
        }
        i += 1;
    }
    Ok((signals, ports, clock_port))
}

/// Registers a module's declarations after its ports.
fn resolve_module_decls(m: &ModuleDef, signals: &mut Vec<ResolvedSignal>) -> (r: Result<(), ElabError>)
    ensures
        match module_decls_spec(m@, 0, sigs_view(old(signals)@)) {
            Ok(s) => r is Ok && sigs_view(final(signals)@) == s,
            Err(k) => r matches Err(e) && e.kind@ == k && e.wf(),
        },
        ids_ok(sigs_view(old(signals)@)) ==> ids_ok(sigs_view(final(signals)@)),
        final(signals)@.len() >= old(signals)@.len(),
{
    let ghost start = sigs_view(signals@);
    let mut i: usize = 0;
    while i < m.decls.len()
        invariant
            i <= m.decls@.len(),
            start == sigs_view(old(signals)@),
            ids_ok(start) ==> ids_ok(sigs_view(signals@)),
            signals@.len() >= old(signals)@.len(),
            module_decls_spec(m@, 0, start) == module_decls_spec(m@, i as int, sigs_view(signals@)),
        decreases m.decls@.len() - i,
    {
        let d = &m.decls[i];
        assert(m@.decls[i as int] == d@);
        if find_signal_in(signals, &d.name).is_some() {
            return Err(
                make_error(ElabErrorKind::DuplicateModuleDecl { module: m.name.clone(), name: d.name.clone() }),
            );
        }
        if d.sig_type.is_clock() {
            return Err(make_error(ElabErrorKind::ClockDeclInModule { module: m.name.clone(), name: d.name.clone() }));
        }
        let sig = ResolvedSignal {
            name: d.name.clone(),
            width: d.sig_type.width(),
            id: signals.len(),
            is_clock: false,
        };
        proof {
            assert(sigs_view(signals@.push(sig)) =~= sigs_view(signals@).push(sig@));
        }
        signals.push(sig);
        i += 1;
    }
    Ok(())
}

/// The resolved form of assignment `s`, with target `id` and right-hand side `e`.
fn resolved_stmt_of(s: &Stmt, target_id: usize, expr: ResolvedExpr) -> (r: ResolvedStmt)
    ensures
        r@ == resolved_stmt(s@, target_id, expr@),
{
    match s {
        Stmt::Combinational { .. } => ResolvedStmt::Combinational { target_id, expr },
        Stmt::Sequential { .. } => ResolvedStmt::Sequential { target_id, expr },
    }
}

/// Resolves a module's assignments: a target must be declared and must not be
/// an input port.
fn resolve_module_stmts(m: &ModuleDef, sigs: &Vec<ResolvedSignal>, ports: &Vec<ResolvedPort>) -> (r: Result<
    Vec<ResolvedStmt>,
    ElabError,
>)
    requires
        forall|k: int| 0 <= k < ports@.len() ==> (#[trigger] ports@[k]).signal_id == k,
    ensures
        r matches Ok(v) ==> forall|k: int|
            0 <= k < v@.len() && (#[trigger] stmts_of(v@)[k]).target_id() < ports@.len() ==> ports@[stmts_of(
                v@,
            )[k].target_id() as int].direction != Direction::Input,
        match module_stmts_spec(m@, 0, sigs_view(sigs@), ports_view(ports@), Seq::empty()) {
            Ok(ss) => r matches Ok(v) && stmts_of(v@) == ss,
            Err(k) => r matches Err(e) && e.kind@ == k && e.wf(),
        },
        r matches Ok(v) ==> stmts_below(stmts_of(v@), sigs@.len() as int),
        r matches Ok(v) ==> forall|k: int|
            0 <= k < v@.len() ==> fields_ok(#[trigger] stmts_of(v@)[k].expr(), Seq::empty(), Seq::empty()),
{
    let no_instances: Vec<(String, String)> = Vec::new();
    let no_modules: Vec<ResolvedModuleDef> = Vec::new();
    assert(tab_view(no_instances@) =~= Seq::empty());
    assert(mods_view(no_modules@) =~= Seq::empty());
    let ghost sv = sigs_view(sigs@);
    let ghost pv = ports_view(ports@);
    let nsig = sigs.len();
    let mut stmts: Vec<ResolvedStmt> = Vec::new();
    assert(stmts_of(stmts@) =~= Seq::empty());
    let mut i: usize = 0;
    while i < m.stmts.len()
        invariant
            i <= m.stmts@.len(),
            sv == sigs_view(sigs@),
            sv.len() == nsig,
            pv == ports_view(ports@),
            tab_view(no_instances@) == Seq::<(Seq<char>, Seq<char>)>::empty(),
            mods_view(no_modules@) == Seq::<SRModule>::empty(),
            module_stmts_spec(m@, 0, sv, pv, Seq::empty()) == module_stmts_spec(
                m@,
                i as int,
                sv,
                pv,
                stmts_of(stmts@),
            ),
            stmts_below(stmts_of(stmts@), sigs@.len() as int),
            forall|k: int|
                0 <= k < stmts@.len() ==> fields_ok(#[trigger] stmts_of(stmts@)[k].expr(), Seq::empty(), Seq::empty()),
            forall|k: int| 0 <= k < ports@.len() ==> (#[trigger] ports@[k]).signal_id == k,
            forall|k: int|
                0 <= k < stmts@.len() && (#[trigger] stmts_of(stmts@)[k]).target_id() < ports@.len() ==> ports@[stmts_of(
                    stmts@,
                )[k].target_id() as int].direction != Direction::Input,
        decreases m.stmts@.len() - i,
    {
        let st = &m.stmts[i];
        assert(m@.stmts[i as int] == st@);
        let target = String::from_str(st.target());
        let ti = match find_signal_in(sigs, &target) {
            None => {
                return Err(make_error(ElabErrorKind::UndeclaredInModule { module: m.name.clone(), name: target }));
            },
            Some(ti) => ti,
        };
        match find_port_id_in(ports, ti) {
            Some(pi) => {
                if ports[pi].direction == Direction::Input {
                    return Err(make_error(ElabErrorKind::AssignToInputPort { module: m.name.clone(), port: target }));
                }
                proof {
                    lemma_first_from(pv, |x: SRPort| x.signal_id == ti, 0);
                    assert(pv[pi as int] == ports@[pi as int]@);
                }
            },
            None => {
                proof {
                    lemma_first_from(pv, |x: SRPort| x.signal_id == ti, 0);
                    if ti < ports@.len() {
                        assert(pv[ti as int] == ports@[ti as int]@);
                    }
                }
            },
        }
        let e = resolve_expr(st.expr(), sigs, &no_instances, &no_modules)?;
        proof {
            lemma_resolved_reads_below(st@.expr(), sv, Seq::empty(), Seq::empty());
        }
        let rs = resolved_stmt_of(st, ti, e);
        proof {
            assert(stmts_of(stmts@.push(rs)) =~= stmts_of(stmts@).push(rs@));
            assert(rs@.target_id() == ti);
        }
        stmts.push(rs);
        i += 1;
    }
    Ok(stmts)
}

/// Whether any assignment is sequential.
fn has_sequential_stmt(stmts: &Vec<ResolvedStmt>) -> (b: bool)
    ensures
        b == has_sequential(stmts_of(stmts@)),
{
    let mut i: usize = 0;
    while i < stmts.len()
        invariant
            i <= stmts@.len(),
            forall|j: int| 0 <= j < i ==> !(#[trigger] stmts_of(stmts@)[j] is Sequential),
        decreases stmts@.len() - i,
    {
        if let ResolvedStmt::Sequential { .. } = &stmts[i] {
            assert(stmts_of(stmts@)[i as int] is Sequential);
            return true;
        }
        i += 1;
    }
    false
}

/// The error for the first assignment whose target an earlier one drives.
pub open spec fn redriven_error(stmts: Seq<SRStmt>, sigs: Seq<SRSignal>) -> SElabErr {
    SElabErr::MultipleDrivers { name: sigs[stmts[first_redriven(stmts)].target_id() as int].name }
}

/// Rejects a signal driven by two assignments, naming the target of the first
/// assignment whose target an earlier one already drives.
fn check_multiple_drivers(stmts: &Vec<ResolvedStmt>, signals: &Vec<ResolvedSignal>) -> (r: Result<(), ElabError>)
    requires
        stmts_below(stmts_of(stmts@), signals@.len() as int),
    ensures
        (first_redriven(stmts_of(stmts@)) < 0) == (r is Ok),
        r matches Err(e) ==> e.wf() && e.kind@ == redriven_error(stmts_of(stmts@), sigs_view(signals@)),
{
    let ghost sv = stmts_of(stmts@);
    let n = signals.len();
    let mut driven: Vec<bool> = Vec::new();
    let mut k: usize = 0;
    while k < n
        invariant
            k <= n,
            driven@.len() == k,
            forall|t: int| 0 <= t < k ==> !(#[trigger] driven@[t]),
        decreases n - k,
    {
        driven.push(false);
        k += 1;
    }
    let mut i: usize = 0;
    while i < stmts.len()
        invariant
            sv == stmts_of(stmts@),
            n == signals@.len(),
            i <= stmts@.len(),
            driven@.len() == n,
            stmts_below(sv, n as int),
            first_redriven(sv) == first_redriven_from(sv, i as int),
            forall|t: int|
                0 <= t < n ==> (#[trigger] driven@[t] <==> exists|j: int| 0 <= j < i && sv[j].target_id() == t),
        decreases stmts@.len() - i,
    {
        let t = match &stmts[i] {
            ResolvedStmt::Combinational { target_id, .. } => *target_id,
            ResolvedStmt::Sequential { target_id, .. } => *target_id,
        };
        assert(sv[i as int].target_id() == t);
        assert(t < n);
        if driven[t] {
            assert(redriven_at(sv, i as int));
            let message_name = signals[t].name.clone();
            return Err(make_error(ElabErrorKind::MultipleDrivers { name: message_name }));
        }
        assert(!redriven_at(sv, i as int));
        driven.set(t, true);
        assert forall|u: int|
            0 <= u < n implies (#[trigger] driven@[u] <==> exists|j: int|
                0 <= j < i + 1 && sv[j].target_id() == u) by {
            if u == t {
                assert(sv[i as int].target_id() == u);
            } else if driven@[u] {
                let j = choose|j: int| 0 <= j < i && sv[j].target_id() == u;
                assert(0 <= j < i + 1 && sv[j].target_id() == u);
            } else {
                if exists|j: int| 0 <= j < i + 1 && sv[j].target_id() == u {
                    let j = choose|j: int| 0 <= j < i + 1 && sv[j].target_id() == u;
                    assert(j != i);
                }
            }
        }
        i += 1;
    }
    Ok(())
}

/// A loop error naming the signals of the first cycle found is the error the
/// scope checks describe.
proof fn lemma_loop_error(e: ElabError, signals: Seq<ResolvedSignal>, stmts: Seq<SRStmt>)
    requires
        first_cycle(stmts, signals.len() as int) is Found,
        e.kind is CombinationalLoop,
        ({
            let c = first_cycle(stmts, signals.len() as int)->Found_0;
            &&& e.kind->cycle@.len() == c.len()
            &&& forall|i: int|
                0 <= i < c.len() ==> #[trigger] c[i] < signals.len() && e.kind->cycle@[i]@ == signals[c[i] as int].name@
        }),
    ensures
        e.kind@ == (SElabErr::CombinationalLoop { cycle: loop_names(sigs_view(signals), stmts) }),
{
    let c = first_cycle(stmts, signals.len() as int)->Found_0;
    let names = e.kind->cycle@.map_values(|s: String| s@);
    let want = c.map_values(|v: usize| sigs_view(signals)[v as int].name);
    assert forall|i: int| 0 <= i < c.len() implies names[i] == want[i] by {
        assert(e.kind->cycle@[i]@ == signals[c[i] as int].name@);
    }
    assert(names =~= want);
}

/// Resolves and checks one module definition.
fn resolve_module_def(m: &ModuleDef) -> (r: Result<ResolvedModuleDef, ElabError>)
    ensures
        match module_def_spec(m@) {
            Ok(rm) => r matches Ok(x) && x@ == rm,
            Err(k) => r matches Err(e) && e.kind@ == k && e.wf(),
        },
        r matches Ok(x) ==> module_wf(x@),
{
    let (mut signals, ports, clock_port) = resolve_module_ports(m)?;
    resolve_module_decls(m, &mut signals)?;
    let stmts = resolve_module_stmts(m, &signals, &ports)?;
    if clock_port.is_none() && has_sequential_stmt(&stmts) {
        return Err(make_error(ElabErrorKind::MissingClockPort { module: m.name.clone() }));
    }
    check_multiple_drivers(&stmts, &signals)?;
    match check_combinational_loops(&stmts, &signals) {
        Err(e) => {
            proof {
                lemma_loop_error(e, signals@, stmts_of(stmts@));
            }
            return Err(e);
        },
        Ok(()) => {},
    }
    let body = ResolvedScope { signals, stmts, instances: Vec::new() };
    let rm = ResolvedModuleDef { name: m.name.clone(), ports, body, clock_port };
    proof {
        assert(rm@.body.instances =~= Seq::empty());
    }
    Ok(rm)
}

/// Resolves every module definition once, in source order; a name defined
/// twice is an error.
fn build_module_defs(prog: &Program) -> (r: Result<Vec<ResolvedModuleDef>, ElabError>)
    ensures
        match modules_spec(prog@.modules, 0, Seq::empty()) {
            Ok(ms) => r matches Ok(v) && mods_view(v@) == ms,
            Err(k) => r matches Err(e) && e.kind@ == k && e.wf(),
        },
        r matches Ok(v) ==> forall|m: int| 0 <= m < v@.len() ==> #[trigger] module_wf(mods_view(v@)[m]),
{
    let mut modules: Vec<ResolvedModuleDef> = Vec::new();
    assert(mods_view(modules@) =~= Seq::empty());
    let mut i: usize = 0;
    while i < prog.modules.len()
        invariant
            i <= prog.modules@.len(),
            modules_spec(prog@.modules, 0, Seq::empty()) == modules_spec(
                prog@.modules,
                i as int,
                mods_view(modules@),
            ),
            forall|k: int| 0 <= k < modules@.len() ==> #[trigger] module_wf(mods_view(modules@)[k]),
        decreases prog.modules@.len() - i,
    {
        let m = &prog.modules[i];
        assert(prog@.modules[i as int] == m@);
        if find_module_in(&modules, &m.name).is_some() {
            return Err(make_error(ElabErrorKind::DuplicateModule { module: m.name.clone() }));
        }
        let rm = resolve_module_def(m)?;
        proof {
            assert(mods_view(modules@.push(rm)) =~= mods_view(modules@).push(rm@));
        }
        modules.push(rm);
        i += 1;
    }
    Ok(modules)
}

// ---------------------------------------------------------------------------
// The top level: blocks first, then the testbench's concurrent part

pub open spec fn decl_list_view(v: Seq<(&Decl, bool)>) -> Seq<(SDecl, bool)> {
    v.map_values(|x: (&Decl, bool)| (x.0@, x.1))
}

/// The top-level declarations in order, each with whether it stands in the
/// testbench.
fn top_decl_list(p: &Program) -> (v: Vec<(&Decl, bool)>)
    ensures
        decl_list_view(v@) == top_decls(p@),
{
    let mut v: Vec<(&Decl, bool)> = Vec::new();
    let ghost bd = blocks_decls(p@.blocks);
    let ghost td = tbs_decls(p@.testbenches);
    assert(decl_list_view(v@) =~= tag_decls(concat_all(bd.take(0)), false));
    let mut b: usize = 0;
    while b < p.blocks.len()
        invariant
            b <= p.blocks@.len(),
            bd == blocks_decls(p@.blocks),
            decl_list_view(v@) == tag_decls(concat_all(bd.take(b as int)), false),
        decreases p.blocks@.len() - b,
    {
        let blk = &p.blocks[b];
        assert(bd[b as int] == blk@.decls);
        let ghost base = decl_list_view(v@);
        let mut j: usize = 0;
        while j < blk.decls.len()
            invariant
                j <= blk.decls@.len(),
                decl_list_view(v@) == base + tag_decls(blk@.decls.take(j as int), false),
            decreases blk.decls@.len() - j,
        {
            assert(blk@.decls[j as int] == blk.decls@[j as int]@);
            let ghost old_v = v@;
            v.push((&blk.decls[j], false));
            assert(decl_list_view(v@) =~= decl_list_view(old_v).push((blk@.decls[j as int], false)));
            assert(tag_decls(blk@.decls.take(j + 1), false) =~= tag_decls(blk@.decls.take(j as int), false).push(
                (blk@.decls[j as int], false),
            ));
            assert(decl_list_view(v@) =~= base + tag_decls(blk@.decls.take(j + 1), false));
            j += 1;
        }
        proof {
            lemma_concat_all_take(bd, b as int);
            assert(blk@.decls.take(blk@.decls.len() as int) =~= blk@.decls);
            assert(tag_decls(concat_all(bd.take(b + 1)), false) =~= tag_decls(concat_all(bd.take(b as int)), false)
                + tag_decls(bd[b as int], false));
        }
        b += 1;
    }
    assert(bd.take(bd.len() as int) =~= bd);
    let ghost first = decl_list_view(v@);
    assert(decl_list_view(v@) =~= first + tag_decls(concat_all(td.take(0)), true));
    let mut t: usize = 0;
    while t < p.testbenches.len()
        invariant
            t <= p.testbenches@.len(),
            td == tbs_decls(p@.testbenches),
            decl_list_view(v@) == first + tag_decls(concat_all(td.take(t as int)), true),
        decreases p.testbenches@.len() - t,
    {
        let tb = &p.testbenches[t];
        assert(td[t as int] == tb@.decls);
        let ghost base = decl_list_view(v@);
        let mut j: usize = 0;
        while j < tb.decls.len()
            invariant
                j <= tb.decls@.len(),
                decl_list_view(v@) == base + tag_decls(tb@.decls.take(j as int), true),
            decreases tb.decls@.len() - j,
        {
            assert(tb@.decls[j as int] == tb.decls@[j as int]@);
            let ghost old_v = v@;
            v.push((&tb.decls[j], true));
            assert(decl_list_view(v@) =~= decl_list_view(old_v).push((tb@.decls[j as int], true)));
            assert(tag_decls(tb@.decls.take(j + 1), true) =~= tag_decls(tb@.decls.take(j as int), true).push(
                (tb@.decls[j as int], true),
            ));
            assert(decl_list_view(v@) =~= base + tag_decls(tb@.decls.take(j + 1), true));
            j += 1;
        }
        proof {
            lemma_concat_all_take(td, t as int);
            assert(tb@.decls.take(tb@.decls.len() as int) =~= tb@.decls);
            assert(tag_decls(concat_all(td.take(t + 1)), true) =~= tag_decls(concat_all(td.take(t as int)), true)
                + tag_decls(td[t as int], true));
        }
        t += 1;
    }
    assert(td.take(td.len() as int) =~= td);
    v
}

pub open spec fn inst_list_view(v: Seq<&InstDecl>) -> Seq<SInstDecl> {
    v.map_values(|x: &InstDecl| x@)
}

/// The top-level instantiations in order.
fn top_instance_list(p: &Program) -> (v: Vec<&InstDecl>)
    ensures
        inst_list_view(v@) == top_instances(p@),
{
    let mut v: Vec<&InstDecl> = Vec::new();
    let ghost bd = blocks_instances(p@.blocks);
    assert(inst_list_view(v@) =~= concat_all(bd.take(0)));
    let mut b: usize = 0;
    while b < p.blocks.len()
        invariant
            b <= p.blocks@.len(),
            bd == blocks_instances(p@.blocks),
            inst_list_view(v@) == concat_all(bd.take(b as int)),
        decreases p.blocks@.len() - b,
    {
        let blk = &p.blocks[b];
        assert(bd[b as int] == blk@.instances);
        let ghost base = inst_list_view(v@);
        let mut j: usize = 0;
        while j < blk.instances.len()
            invariant
                j <= blk.instances@.len(),
                inst_list_view(v@) == base + blk@.instances.take(j as int),
            decreases blk.instances@.len() - j,
        {
            assert(blk@.instances[j as int] == blk.instances@[j as int]@);
            let ghost old_v = v@;
            v.push(&blk.instances[j]);
            assert(inst_list_view(v@) =~= inst_list_view(old_v).push(blk@.instances[j as int]));
            assert(blk@.instances.take(j + 1) =~= blk@.instances.take(j as int).push(blk@.instances[j as int]));
            assert(inst_list_view(v@) =~= base + blk@.instances.take(j + 1));
            j += 1;
        }
        proof {
            lemma_concat_all_take(bd, b as int);
            assert(blk@.instances.take(blk@.instances.len() as int) =~= blk@.instances);
        }
        b += 1;
    }
    assert(bd.take(bd.len() as int) =~= bd);
    let ghost first = inst_list_view(v@);
    let ghost td = tbs_instances(p@.testbenches);
    assert(inst_list_view(v@) =~= first + concat_all(td.take(0)));
    let mut t: usize = 0;
    while t < p.testbenches.len()
        invariant
            t <= p.testbenches@.len(),
            td == tbs_instances(p@.testbenches),
            inst_list_view(v@) == first + concat_all(td.take(t as int)),
        decreases p.testbenches@.len() - t,
    {
        let tb = &p.testbenches[t];
        assert(td[t as int] == tb@.instances);
        let ghost base = inst_list_view(v@);
        let mut j: usize = 0;
        while j < tb.instances.len()
            invariant
                j <= tb.instances@.len(),
                inst_list_view(v@) == base + tb@.instances.take(j as int),
            decreases tb.instances@.len() - j,
        {
            assert(tb@.instances[j as int] == tb.instances@[j as int]@);
            let ghost old_v = v@;
            v.push(&tb.instances[j]);
            assert(inst_list_view(v@) =~= inst_list_view(old_v).push(tb@.instances[j as int]));
            assert(tb@.instances.take(j + 1) =~= tb@.instances.take(j as int).push(tb@.instances[j as int]));
            assert(inst_list_view(v@) =~= base + tb@.instances.take(j + 1));
            j += 1;
        }
        proof {
            lemma_concat_all_take(td, t as int);
            assert(tb@.instances.take(tb@.instances.len() as int) =~= tb@.instances);
        }
        t += 1;
    }
    assert(td.take(td.len() as int) =~= td);
    v
}

pub open spec fn stmt_list_view(v: Seq<&Stmt>) -> Seq<SStmt> {
    v.map_values(|x: &Stmt| x@)
}

/// The top-level assignments in order.
fn top_stmt_list(p: &Program) -> (v: Vec<&Stmt>)
    ensures
        stmt_list_view(v@) == top_stmts(p@),
{
    let mut v: Vec<&Stmt> = Vec::new();
    let ghost bd = blocks_stmts(p@.blocks);
    assert(stmt_list_view(v@) =~= concat_all(bd.take(0)));
    let mut b: usize = 0;
    while b < p.blocks.len()
        invariant
            b <= p.blocks@.len(),
            bd == blocks_stmts(p@.blocks),
            stmt_list_view(v@) == concat_all(bd.take(b as int)),
        decreases p.blocks@.len() - b,
    {
        let blk = &p.blocks[b];
        assert(bd[b as int] == blk@.stmts);
        let ghost base = stmt_list_view(v@);
        let mut j: usize = 0;
        while j < blk.stmts.len()
            invariant
                j <= blk.stmts@.len(),
                stmt_list_view(v@) == base + blk@.stmts.take(j as int),
            decreases blk.stmts@.len() - j,
        {
            assert(blk@.stmts[j as int] == blk.stmts@[j as int]@);
            let ghost old_v = v@;
            v.push(&blk.stmts[j]);
            assert(stmt_list_view(v@) =~= stmt_list_view(old_v).push(blk@.stmts[j as int]));
            assert(blk@.stmts.take(j + 1) =~= blk@.stmts.take(j as int).push(blk@.stmts[j as int]));
            assert(stmt_list_view(v@) =~= base + blk@.stmts.take(j + 1));
            j += 1;
        }
        proof {
            lemma_concat_all_take(bd, b as int);
            assert(blk@.stmts.take(blk@.stmts.len() as int) =~= blk@.stmts);
        }
        b += 1;
    }
    assert(bd.take(bd.len() as int) =~= bd);
    let ghost first = stmt_list_view(v@);
    let ghost td = tbs_stmts(p@.testbenches);
    assert(stmt_list_view(v@) =~= first + concat_all(td.take(0)));
    let mut t: usize = 0;
    while t < p.testbenches.len()
        invariant
            t <= p.testbenches@.len(),
            td == tbs_stmts(p@.testbenches),
            stmt_list_view(v@) == first + concat_all(td.take(t as int)),
        decreases p.testbenches@.len() - t,
    {
        let tb = &p.testbenches[t];
        assert(td[t as int] == tb@.stmts);
        let ghost base = stmt_list_view(v@);
        let mut j: usize = 0;
        while j < tb.stmts.len()
            invariant
                j <= tb.stmts@.len(),
                stmt_list_view(v@) == base + tb@.stmts.take(j as int),
            decreases tb.stmts@.len() - j,
        {
            assert(tb@.stmts[j as int] == tb.stmts@[j as int]@);
            let ghost old_v = v@;
            v.push(&tb.stmts[j]);
            assert(stmt_list_view(v@) =~= stmt_list_view(old_v).push(tb@.stmts[j as int]));
            assert(tb@.stmts.take(j + 1) =~= tb@.stmts.take(j as int).push(tb@.stmts[j as int]));
            assert(stmt_list_view(v@) =~= base + tb@.stmts.take(j + 1));
            j += 1;
        }
        proof {
            lemma_concat_all_take(td, t as int);
            assert(tb@.stmts.take(tb@.stmts.len() as int) =~= tb@.stmts);
        }
        t += 1;
    }
    assert(td.take(td.len() as int) =~= td);
    v
}

pub open spec fn proc_list_view(v: Seq<&ProcStmt>) -> Seq<SProcStmt> {
    v.map_values(|x: &ProcStmt| x@)
}

/// The steps of the `initial` procedure in order.
fn top_initial_list(p: &Program) -> (v: Vec<&ProcStmt>)
    ensures
        proc_list_view(v@) == top_initial(p@),
{
    let mut v: Vec<&ProcStmt> = Vec::new();
    let ghost first = proc_list_view(v@);
    assert(first =~= Seq::empty());
    let ghost td = tbs_initial(p@.testbenches);
    assert(proc_list_view(v@) =~= first + concat_all(td.take(0)));
    let mut t: usize = 0;
    while t < p.testbenches.len()
        invariant
            t <= p.testbenches@.len(),
            td == tbs_initial(p@.testbenches),
            proc_list_view(v@) == first + concat_all(td.take(t as int)),
        decreases p.testbenches@.len() - t,
    {
        let tb = &p.testbenches[t];
        assert(td[t as int] == tb@.initial);
        let ghost base = proc_list_view(v@);
        let mut j: usize = 0;
        while j < tb.initial.len()
            invariant
                j <= tb.initial@.len(),
                proc_list_view(v@) == base + tb@.initial.take(j as int),
            decreases tb.initial@.len() - j,
        {
            assert(tb@.initial[j as int] == tb.initial@[j as int]@);
            let ghost old_v = v@;
            v.push(&tb.initial[j]);
            assert(proc_list_view(v@) =~= proc_list_view(old_v).push(tb@.initial[j as int]));
            assert(tb@.initial.take(j + 1) =~= tb@.initial.take(j as int).push(tb@.initial[j as int]));
            assert(proc_list_view(v@) =~= base + tb@.initial.take(j + 1));
            j += 1;
        }
        proof {
            lemma_concat_all_take(td, t as int);
            assert(tb@.initial.take(tb@.initial.len() as int) =~= tb@.initial);
        }
        t += 1;
    }
    assert(td.take(td.len() as int) =~= td);
    assert(proc_list_view(v@) =~= concat_all(td));
    v
}

/// Registers the top-level declarations as signals: a name declared twice,
/// or a `clock` declared outside the testbench, is an error.
fn build_signals(prog: &Program) -> (r: Result<Vec<ResolvedSignal>, ElabError>)
    ensures
        match signals_spec(top_decls(prog@), 0, Seq::empty()) {
            Ok(s) => r matches Ok(v) && sigs_view(v@) == s,
            Err(k) => r matches Err(e) && e.kind@ == k && e.wf(),
        },
        r matches Ok(v) ==> ids_ok(sigs_view(v@)),
{
    let decls = top_decl_list(prog);
    let ghost dv = decl_list_view(decls@);
    let mut signals: Vec<ResolvedSignal> = Vec::new();
    assert(sigs_view(signals@) =~= Seq::empty());
    let mut i: usize = 0;
    while i < decls.len()
        invariant
            i <= decls@.len(),
            dv == decl_list_view(decls@),
            dv == top_decls(prog@),
            signals_spec(dv, 0, Seq::empty()) == signals_spec(dv, i as int, sigs_view(signals@)),
            ids_ok(sigs_view(signals@)),
        decreases decls@.len() - i,
    {
        let (d, in_testbench) = decls[i];
        assert(dv[i as int] == (d@, in_testbench));
        if find_signal_in(&signals, &d.name).is_some() {
            return Err(make_error(ElabErrorKind::DuplicateDecl { name: d.name.clone() }));
        }
        let is_clock = d.sig_type.is_clock();
        if is_clock && !in_testbench {
            return Err(make_error(ElabErrorKind::ClockDeclOutsideTestbench { name: d.name.clone() }));
        }
        let sig = ResolvedSignal { name: d.name.clone(), width: d.sig_type.width(), id: signals.len(), is_clock };
        proof {
            assert(sigs_view(signals@.push(sig)) =~= sigs_view(signals@).push(sig@));
        }
        signals.push(sig);
        i += 1;
    }
    Ok(signals)
}

/// An instance name must differ from every signal and every earlier instance.
fn check_instance_name_available(name: &String, sigs: &Vec<ResolvedSignal>, tab: &Vec<(String, String)>) -> (r:
    Result<(), ElabError>)
    ensures
        (r is Ok) == (find_signal(sigs_view(sigs@), name@) < 0 && find_instance(tab_view(tab@), name@) < 0),
        r matches Err(e) ==> e.wf() && e.kind@ == (SElabErr::NameCollision { name: name@ }),
{
    if find_signal_in(sigs, name).is_some() || find_instance_in(tab, name).is_some() {
        return Err(make_error(ElabErrorKind::NameCollision { name: name.clone() }));
    }
    Ok(())
}

/// Whether a resolved expression is a direct reference to a `clock` signal.
fn resolved_expr_is_clock(e: &ResolvedExpr, sigs: &Vec<ResolvedSignal>) -> (b: bool)
    ensures
        b == rexpr_is_clock(e@, sigs_view(sigs@)),
{
    match e {
        ResolvedExpr::Ident(id) => *id < sigs.len() && sigs[*id].is_clock,
        _ => false,
    }
}

/// Matches the arguments of an instantiation with the input ports of its
/// module: each names an input port once, a `clock` port takes a `clock`
/// signal and a `bit` port anything else, and no input port is left open.
fn resolve_instance_connections(
    inst: &InstDecl,
    md: &ResolvedModuleDef,
    sigs: &Vec<ResolvedSignal>,
    tab: &Vec<(String, String)>,
    mods: &Vec<ResolvedModuleDef>,
) -> (r: Result<Vec<(String, ResolvedExpr)>, ElabError>)
    ensures
        match connections_spec(inst@, md@, sigs_view(sigs@), tab_view(tab@), mods_view(mods@)) {
            Ok(cs) => r matches Ok(v) && conns_view(v@) == cs,
            Err(k) => r matches Err(e) && e.kind@ == k && e.wf(),
        },
        r matches Ok(v) ==> forall|c: int|
            0 <= c < v@.len() ==> reads_below(#[trigger] conns_view(v@)[c].1, sigs@.len() as int) && fields_ok(
                conns_view(v@)[c].1,
                tab_view(tab@),
                mods_view(mods@),
            ),
        r matches Ok(v) ==> forall|k: int|
            0 <= k < md.ports@.len() && (#[trigger] md.ports@[k]).direction == Direction::Input ==> find_conn(
                conns_view(v@),
                md.ports@[k].name@,
            ) >= 0,
{
    let nsig = sigs.len();
    let ghost sv = sigs_view(sigs@);
    let ghost tv = tab_view(tab@);
    let ghost mv = mods_view(mods@);
    let ghost mdv = md@;
    assert(mdv.ports == ports_view(md.ports@));
    let mut cs: Vec<(String, ResolvedExpr)> = Vec::new();
    assert(conns_view(cs@) =~= Seq::empty());
    let mut j: usize = 0;
    while j < inst.args.len()
        invariant
            j <= inst.args@.len(),
            sv == sigs_view(sigs@),
            tv == tab_view(tab@),
            mv == mods_view(mods@),
            mdv == md@,
            mdv.ports == ports_view(md.ports@),
            sv.len() == nsig,
            forall|c: int|
                0 <= c < cs@.len() ==> reads_below(#[trigger] conns_view(cs@)[c].1, nsig as int) && fields_ok(
                    conns_view(cs@)[c].1,
                    tv,
                    mv,
                ),
            args_spec(inst@, mdv, 0, sv, tv, mv, Seq::empty()) == args_spec(
                inst@,
                mdv,
                j as int,
                sv,
                tv,
                mv,
                conns_view(cs@),
            ),
        decreases inst.args@.len() - j,
    {
        let name = &inst.args[j].0;
        assert(inst@.args[j as int] == (inst.args@[j as int].0@, inst.args@[j as int].1@));
        let pi = match find_port_in(&md.ports, name) {
            None => {
                return Err(make_error(ElabErrorKind::UnknownPortArg { module: md.name.clone(), port: name.clone() }));
            },
            Some(pi) => pi,
        };
        if md.ports[pi].direction != Direction::Input {
            return Err(make_error(ElabErrorKind::OutputPortArg { module: md.name.clone(), port: name.clone() }));
        }
        if find_conn_in(&cs, name).is_some() {
            return Err(make_error(ElabErrorKind::DuplicateArg { port: name.clone() }));
        }
        let e = resolve_expr(&inst.args[j].1, sigs, tab, mods)?;
        proof {
            lemma_resolved_reads_below(inst@.args[j as int].1, sv, tv, mv);
        }
        if md.ports[pi].is_clock != resolved_expr_is_clock(&e, sigs) {
            return Err(make_error(ElabErrorKind::ClockMismatch { module: md.name.clone(), port: name.clone() }));
        }
        let c = (name.clone(), e);
        proof {
            assert(conns_view(cs@.push(c)) =~= conns_view(cs@).push((c.0@, c.1@)));
        }
        cs.push(c);
        j += 1;
    }
    let ghost csv = conns_view(cs@);
    assert(args_spec(inst@, mdv, 0, sv, tv, mv, Seq::empty()) == Ok::<Seq<(Seq<char>, SRExpr)>, SElabErr>(csv));
    let mut k: usize = 0;
    while k < md.ports.len()
        invariant
            k <= md.ports@.len(),
            sv == sigs_view(sigs@),
            tv == tab_view(tab@),
            mv == mods_view(mods@),
            args_spec(inst@, mdv, 0, sv, tv, mv, Seq::empty()) == Ok::<Seq<(Seq<char>, SRExpr)>, SElabErr>(csv),
            mdv == md@,
            mdv.ports == ports_view(md.ports@),
            csv == conns_view(cs@),
            first_unconnected(mdv, csv) == first_unconnected_from(mdv, csv, k as int),
            forall|q: int|
                0 <= q < k && (#[trigger] md.ports@[q]).direction == Direction::Input ==> find_conn(
                    csv,
                    md.ports@[q].name@,
                ) >= 0,
            forall|c: int|
                0 <= c < cs@.len() ==> reads_below(#[trigger] conns_view(cs@)[c].1, nsig as int) && fields_ok(
                    conns_view(cs@)[c].1,
                    tv,
                    mv,
                ),
        decreases md.ports@.len() - k,
    {
        let port = &md.ports[k];
        assert(mdv.ports[k as int] == port@);
        if port.direction == Direction::Input && find_conn_in(&cs, &port.name).is_none() {
            return Err(
                make_error(ElabErrorKind::UnconnectedInput { module: md.name.clone(), port: port.name.clone() }),
            );
        }
        k += 1;
    }
    Ok(cs)
}

pub open spec fn insts_view(v: Seq<ResolvedInstance>) -> Seq<SRInstance> {
    v.map_values(|i: ResolvedInstance| i@)
}

/// Resolves the top-level instantiations in order; each sees the instances
/// before it.
fn build_instances(prog: &Program, sigs: &Vec<ResolvedSignal>, mods: &Vec<ResolvedModuleDef>) -> (r: Result<
    (Vec<ResolvedInstance>, Vec<(String, String)>),
    ElabError,
>)
    ensures
        match instances_spec(
            top_instances(prog@),
            0,
            sigs_view(sigs@),
            mods_view(mods@),
            Seq::empty(),
            Seq::empty(),
        ) {
            Ok((is, t)) => r matches Ok((v, tab)) && insts_view(v@) == is && tab_view(tab@) == t,
            Err(k) => r matches Err(e) && e.kind@ == k && e.wf(),
        },
        r matches Ok((v, tab)) ==> tab_view(tab@) == inst_tab(insts_view(v@)) && forall|i: int|
            0 <= i < v@.len() ==> #[trigger] inst_ok(insts_view(v@), i, sigs@.len() as int, mods_view(mods@)),
{
    let nsig = sigs.len();
    let list = top_instance_list(prog);
    let ghost lv = inst_list_view(list@);
    let ghost sv = sigs_view(sigs@);
    let ghost mv = mods_view(mods@);
    let mut instances: Vec<ResolvedInstance> = Vec::new();
    let mut tab: Vec<(String, String)> = Vec::new();
    assert(insts_view(instances@) =~= Seq::empty());
    assert(tab_view(tab@) =~= Seq::empty());
    let mut i: usize = 0;
    while i < list.len()
        invariant
            i <= list@.len(),
            lv == inst_list_view(list@),
            lv == top_instances(prog@),
            sv == sigs_view(sigs@),
            mv == mods_view(mods@),
            nsig == sigs@.len(),
            tab_view(tab@) == inst_tab(insts_view(instances@)),
            forall|q: int| 0 <= q < instances@.len() ==> #[trigger] inst_ok(insts_view(instances@), q, nsig as int, mv),
            instances_spec(lv, 0, sv, mv, Seq::empty(), Seq::empty()) == instances_spec(
                lv,
                i as int,
                sv,
                mv,
                tab_view(tab@),
                insts_view(instances@),
            ),
        decreases list@.len() - i,
    {
        let inst = list[i];
        assert(lv[i as int] == inst@);
        check_instance_name_available(&inst.instance_name, sigs, &tab)?;
        let mi = match find_module_in(mods, &inst.module_name) {
            None => {
                return Err(make_error(ElabErrorKind::UndefinedModule { module: inst.module_name.clone() }));
            },
            Some(mi) => mi,
        };
        assert(mv[mi as int] == mods@[mi as int]@);
        let connections = resolve_instance_connections(inst, &mods[mi], sigs, &tab, mods)?;
        let ghost cv = conns_view(connections@);
        let entry = (inst.instance_name.clone(), inst.module_name.clone());
        let ri = ResolvedInstance {
            instance_name: inst.instance_name.clone(),
            module_name: inst.module_name.clone(),
            connections,
        };
        proof {
            let old_iv = insts_view(instances@);
            let new_iv = insts_view(instances@.push(ri));
            assert(tab_view(tab@.push(entry)) =~= tab_view(tab@).push((entry.0@, entry.1@)));
            assert(new_iv =~= old_iv.push(ri@));
            assert(inst_tab(new_iv) =~= inst_tab(old_iv).push((ri@.instance_name, ri@.module_name)));
            assert(new_iv.take(old_iv.len() as int) =~= old_iv);
            assert(mods_view(mods@)[mi as int].ports == ports_view(mods@[mi as int].ports@));
            assert(inst_ok(new_iv, old_iv.len() as int, nsig as int, mv)) by {
                let ii = old_iv.len() as int;
                assert(new_iv[ii] == ri@);
                assert(ri@.connections == conns_view(ri.connections@));
                let mdv = mv[mi as int];
                assert(mdv == mods@[mi as int]@);
                assert forall|k: int|
                    0 <= k < mdv.ports.len() && (#[trigger] mdv.ports[k]).direction == Direction::Input implies find_conn(
                        ri@.connections,
                        mdv.ports[k].name,
                    ) >= 0 by {
                    assert(mdv.ports[k] == mods@[mi as int].ports@[k]@);
                }
                assert(inst_tab(new_iv.take(ii)) == tab_view(tab@));
                assert(find_module(mv, new_iv[ii].module_name) == mi as int);
                assert forall|c: int| 0 <= c < new_iv[ii].connections.len() implies reads_below(
                    #[trigger] new_iv[ii].connections[c].1,
                    nsig as int,
                ) && fields_ok(new_iv[ii].connections[c].1, inst_tab(new_iv.take(ii)), mv) by {
                    assert(new_iv[ii].connections == cv);
                    assert(cv[c].1 == conns_view(connections@)[c].1);
                }
            }
            assert forall|q: int| 0 <= q < new_iv.len() implies #[trigger] inst_ok(new_iv, q, nsig as int, mv) by {
                if q < old_iv.len() {
                    assert(inst_ok(old_iv, q, nsig as int, mv));
                    assert(new_iv.take(q) =~= old_iv.take(q));
                    assert(new_iv[q] == old_iv[q]);
                }
            }
        }
        tab.push(entry);
        instances.push(ri);
        i += 1;
    }
    Ok((instances, tab))
}

/// Resolves the top-level assignments in order.
fn resolve_stmts(
    prog: &Program,
    sigs: &Vec<ResolvedSignal>,
    tab: &Vec<(String, String)>,
    mods: &Vec<ResolvedModuleDef>,
) -> (r: Result<Vec<ResolvedStmt>, ElabError>)
    ensures
        match stmts_spec(top_stmts(prog@), 0, sigs_view(sigs@), tab_view(tab@), mods_view(mods@), Seq::empty()) {
            Ok(ss) => r matches Ok(v) && stmts_of(v@) == ss,
            Err(k) => r matches Err(e) && e.kind@ == k && e.wf(),
        },
        r matches Ok(v) ==> stmts_below(stmts_of(v@), sigs@.len() as int),
        r matches Ok(v) ==> forall|k: int|
            0 <= k < v@.len() ==> fields_ok(#[trigger] stmts_of(v@)[k].expr(), tab_view(tab@), mods_view(mods@)),
{
    let list = top_stmt_list(prog);
    let ghost lv = stmt_list_view(list@);
    let ghost sv = sigs_view(sigs@);
    let ghost tv = tab_view(tab@);
    let ghost mv = mods_view(mods@);
    let nsig = sigs.len();
    let mut stmts: Vec<ResolvedStmt> = Vec::new();
    assert(stmts_of(stmts@) =~= Seq::empty());
    let mut i: usize = 0;
    while i < list.len()
        invariant
            i <= list@.len(),
            lv == stmt_list_view(list@),
            lv == top_stmts(prog@),
            sv == sigs_view(sigs@),
            sv.len() == nsig,
            tv == tab_view(tab@),
            mv == mods_view(mods@),
            stmts_spec(lv, 0, sv, tv, mv, Seq::empty()) == stmts_spec(lv, i as int, sv, tv, mv, stmts_of(stmts@)),
            stmts_below(stmts_of(stmts@), sigs@.len() as int),
            forall|k: int| 0 <= k < stmts@.len() ==> fields_ok(#[trigger] stmts_of(stmts@)[k].expr(), tv, mv),
        decreases list@.len() - i,
    {
        let st = list[i];
        assert(lv[i as int] == st@);
        let target = String::from_str(st.target());
        let ti = match find_signal_in(sigs, &target) {
            None => {
                return Err(make_error(ElabErrorKind::Undeclared { name: target }));
            },
            Some(ti) => ti,
        };
        let e = resolve_expr(st.expr(), sigs, tab, mods)?;
        proof {
            lemma_resolved_reads_below(st@.expr(), sv, tv, mv);
        }
        let rs = resolved_stmt_of(st, ti, e);
        proof {
            assert(stmts_of(stmts@.push(rs)) =~= stmts_of(stmts@).push(rs@));
            assert(rs@.target_id() == ti);
        }
        stmts.push(rs);
        i += 1;
    }
    Ok(stmts)
}

pub open spec fn procs_view(v: Seq<ResolvedProcStmt>) -> Seq<SRProc> {
    v.map_values(|p: ResolvedProcStmt| p@)
}

/// Resolves the testbench's `initial` procedure against the top level.
fn resolve_initial(
    prog: &Program,
    sigs: &Vec<ResolvedSignal>,
    tab: &Vec<(String, String)>,
    mods: &Vec<ResolvedModuleDef>,
) -> (r: Result<Vec<ResolvedProcStmt>, ElabError>)
    ensures
        match initial_spec(top_initial(prog@), 0, sigs_view(sigs@), tab_view(tab@), mods_view(mods@), Seq::empty()) {
            Ok(ps) => r matches Ok(v) && procs_view(v@) == ps,
            Err(k) => r matches Err(e) && e.kind@ == k && e.wf(),
        },
        r matches Ok(v) ==> forall|k: int|
            0 <= k < v@.len() ==> #[trigger] proc_ok(procs_view(v@)[k], sigs@.len() as int, tab_view(tab@), mods_view(mods@)),
{
    let list = top_initial_list(prog);
    let nsig = sigs.len();
    let ghost lv = proc_list_view(list@);
    let ghost sv = sigs_view(sigs@);
    let ghost tv = tab_view(tab@);
    let ghost mv = mods_view(mods@);
    let mut result: Vec<ResolvedProcStmt> = Vec::new();
    assert(procs_view(result@) =~= Seq::empty());
    let mut i: usize = 0;
    while i < list.len()
        invariant
            i <= list@.len(),
            lv == proc_list_view(list@),
            lv == top_initial(prog@),
            sv == sigs_view(sigs@),
            tv == tab_view(tab@),
            mv == mods_view(mods@),
            initial_spec(lv, 0, sv, tv, mv, Seq::empty()) == initial_spec(lv, i as int, sv, tv, mv, procs_view(result@)),
            sv.len() == nsig,
            forall|k: int| 0 <= k < result@.len() ==> #[trigger] proc_ok(procs_view(result@)[k], nsig as int, tv, mv),
        decreases list@.len() - i,
    {
        let ps = list[i];
        assert(lv[i as int] == ps@);
        let rp = match ps {
            ProcStmt::Assign { target, expr } => {
                let ti = match find_signal_in(sigs, target) {
                    None => {
                        return Err(make_error(ElabErrorKind::Undeclared { name: target.clone() }));
                    },
                    Some(ti) => ti,
                };
                let e = resolve_expr(expr, sigs, tab, mods)?;
                proof {
                    lemma_resolved_reads_below(expr@, sv, tv, mv);
                }
                ResolvedProcStmt::Assign { target_id: ti, expr: e }
            },
            ProcStmt::Step => ResolvedProcStmt::Step,
        };
        proof {
            assert(procs_view(result@.push(rp)) =~= procs_view(result@).push(rp@));
            assert(proc_ok(rp@, nsig as int, tv, mv));
        }
        result.push(rp);
        i += 1;
    }
    Ok(result)
}

/// Resolves the top level against the module definitions: signals, then
/// instances, then assignments, then the scope checks. Returns the scope and
/// the instance table (instance, module) for the `initial` procedure.
fn elaborate_top(prog: &Program, mods: &Vec<ResolvedModuleDef>) -> (r: Result<
    (ResolvedScope, Vec<(String, String)>),
    ElabError,
>)
    ensures
        match signals_spec(top_decls(prog@), 0, Seq::empty()) {
            Err(k) => r matches Err(e) && e.kind@ == k && e.wf(),
            Ok(sigs) => match instances_spec(top_instances(prog@), 0, sigs, mods_view(mods@), Seq::empty(), Seq::empty()) {
                Err(k) => r matches Err(e) && e.kind@ == k && e.wf(),
                Ok((insts, tab)) => match stmts_spec(top_stmts(prog@), 0, sigs, tab, mods_view(mods@), Seq::empty()) {
                    Err(k) => r matches Err(e) && e.kind@ == k && e.wf(),
                    Ok(stmts) => match scope_checks(sigs, stmts) {
                        Err(k) => r matches Err(e) && e.kind@ == k && e.wf(),
                        Ok(_) => r matches Ok((scope, t)) && scope@ == (SRScope {
                            signals: sigs,
                            stmts,
                            instances: insts,
                        }) && tab_view(t@) == tab,
                    },
                },
            },
        },
        r matches Ok((scope, t)) ==> {
            &&& ids_ok(scope@.signals)
            &&& tab_view(t@) == inst_tab(scope@.instances)
            &&& stmts_below(scope@.stmts, scope@.signals.len() as int)
            &&& forall|i: int|
                0 <= i < scope@.instances.len() ==> #[trigger] inst_ok(
                    scope@.instances,
                    i,
                    scope@.signals.len() as int,
                    mods_view(mods@),
                )
            &&& forall|k: int|
                0 <= k < scope@.stmts.len() ==> fields_ok(#[trigger] scope@.stmts[k].expr(), tab_view(t@), mods_view(mods@))
        },
{
    let signals = build_signals(prog)?;
    let (instances, tab) = build_instances(prog, &signals, mods)?;
    let stmts = resolve_stmts(prog, &signals, &tab, mods)?;
    check_multiple_drivers(&stmts, &signals)?;
    match check_combinational_loops(&stmts, &signals) {
        Err(e) => {
            proof {
                lemma_loop_error(e, signals@, stmts_of(stmts@));
            }
            return Err(e);
        },
        Ok(()) => {},
    }
    let scope = ResolvedScope { signals, stmts, instances };
    proof {
        assert(scope@.signals == sigs_view(scope.signals@));
        assert(scope@.stmts == stmts_of(scope.stmts@));
        assert(scope@.instances == insts_view(scope.instances@));
    }
    Ok((scope, tab))
}

/// Elaborates a program: resolves every module definition once, then the top
/// level (blocks and the testbench's concurrent part) against them, then the
/// testbench's `initial` procedure. At most one testbench is allowed.
pub fn elaborate(prog: &Program) -> (r: Result<Elaborated, ElabError>)
    ensures
        match elaborate_spec(prog@) {
            Ok(x) => r matches Ok(e) && e@ == x,
            Err(k) => r matches Err(e) && e.kind@ == k && e.wf(),
        },
        r matches Ok(e) ==> elab_wf(e@),
{
    if prog.testbenches.len() > 1 {
        return Err(make_error(ElabErrorKind::MultipleTestbenches));
    }
    let modules = build_module_defs(prog)?;
    let (top, tab) = elaborate_top(prog, &modules)?;
    let initial = resolve_initial(prog, &top.signals, &tab, &modules)?;
    let result = Elaborated { top, modules, initial };
    proof {
        assert(result@.modules =~= mods_view(result.modules@));
        assert(result@.initial =~= procs_view(result.initial@));
        let x = result@;
        assert forall|i: int| 0 <= i < x.top.instances.len() implies #[trigger] instance_wf(x, i) by {
            assert(inst_ok(x.top.instances, i, x.top.signals.len() as int, x.modules));
        }
        assert forall|k: int| 0 <= k < x.initial.len() implies #[trigger] proc_wf(x, x.initial[k]) by {
            assert(proc_ok(x.initial[k], x.top.signals.len() as int, inst_tab(x.top.instances), x.modules));
        }
    }
    Ok(result)
}

} // verus!
