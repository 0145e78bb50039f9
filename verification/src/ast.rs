//! Abstract syntax tree of a source program, and its mathematical model.
//!
//! Every executable node has a view (`@`) in which names are `Seq<char>`;
//! the parser's contract and the elaborator's contract are stated over views.
use vstd::prelude::*;

verus! {

/// Direction of a module port.
#[derive(Clone, Copy, Debug, PartialEq, Eq, Structural)]
pub enum Direction {
    Input,
    Output,
}

/// Type of a signal: `bit` (`Bit(None)`), `bit<N>` (`Bit(Some(N))`) or `clock`.
#[derive(Clone, Copy, Debug, PartialEq, Eq, Structural)]
pub enum SignalType {
    Bit(Option<u64>),
    Clock,
}

pub open spec fn spec_width(t: SignalType) -> u64 {
    match t {
        SignalType::Bit(Some(n)) => n,
        SignalType::Bit(None) => 1,
        SignalType::Clock => 1,
    }
}

impl SignalType {
    /// Bit width: `bit` and `clock` are one bit wide, `bit<N>` is `N` bits wide.
    pub fn width(&self) -> (w: u64)
        ensures
            w == spec_width(*self),
    {
        match self {
            SignalType::Bit(Some(n)) => *n,
            SignalType::Bit(None) => 1,
            SignalType::Clock => 1,
        }
    }

    /// Whether this is the `clock` type.
    pub fn is_clock(&self) -> (b: bool)
        ensures
            b == (*self is Clock),
    {
        match self {
            SignalType::Clock => true,
            _ => false,
        }
    }
}

/// Prefix unary operators.
#[derive(Clone, Copy, Debug, PartialEq, Eq, Structural)]
pub enum UnOp {
    /// `!`: logical negation, one bit wide.
    Not,
    /// `~`: bitwise inversion, as wide as its operand.
    BitNot,
}

/// Binary operators, from the loosest binding to the tightest.
#[derive(Clone, Copy, Debug, PartialEq, Eq, Structural)]
pub enum BinOp {
    Or,
    And,
    BitOr,
    Xor,
    BitAnd,
    Eq,
    Neq,
    Lt,
    Le,
    Gt,
    Ge,
    Shl,
    Shr,
    AShl,
    AShr,
    Add,
    Sub,
    Mul,
    Div,
    Mod,
}

/// Operator text of a unary operator.
pub open spec fn unop_text(op: UnOp) -> Seq<char> {
    match op {
        UnOp::Not => seq!['!'],
        UnOp::BitNot => seq!['~'],
    }
}

/// Operator text of a binary operator.
pub open spec fn binop_text(op: BinOp) -> Seq<char> {
    match op {
        BinOp::Or => seq!['|', '|'],
        BinOp::And => seq!['&', '&'],
        BinOp::BitOr => seq!['|'],
        BinOp::Xor => seq!['^'],
        BinOp::BitAnd => seq!['&'],
        BinOp::Eq => seq!['=', '='],
        BinOp::Neq => seq!['!', '='],
        BinOp::Lt => seq!['<'],
        BinOp::Le => seq!['<', '='],
        BinOp::Gt => seq!['>'],
        BinOp::Ge => seq!['>', '='],
        BinOp::Shl => seq!['<', '<'],
        BinOp::Shr => seq!['>', '>'],
        BinOp::AShl => seq!['<', '<', '<'],
        BinOp::AShr => seq!['>', '>', '>'],
        BinOp::Add => seq!['+'],
        BinOp::Sub => seq!['-'],
        BinOp::Mul => seq!['*'],
        BinOp::Div => seq!['/'],
        BinOp::Mod => seq!['%'],
    }
}

impl UnOp {
    /// The operator's source text (`!` or `~`).
    pub fn symbol(&self) -> (s: String)
        ensures
            s@ == unop_text(*self),
    {
        let r = match self {
            UnOp::Not => String::from_str("!"),
            UnOp::BitNot => String::from_str("~"),
        };
        proof {
            reveal_strlit("!");
            reveal_strlit("~");
        }
        r
    }
}

impl BinOp {
    /// The operator's source text (for example `<<<` for `AShl`).
    pub fn symbol(&self) -> (s: String)
        ensures
            s@ == binop_text(*self),
    {
        proof {
            reveal_strlit("||");
            reveal_strlit("&&");
            reveal_strlit("|");
            reveal_strlit("^");
            reveal_strlit("&");
            reveal_strlit("==");
            reveal_strlit("!=");
            reveal_strlit("<");
            reveal_strlit("<=");
            reveal_strlit(">");
            reveal_strlit(">=");
            reveal_strlit("<<");
            reveal_strlit(">>");
            reveal_strlit("<<<");
            reveal_strlit(">>>");
            reveal_strlit("+");
            reveal_strlit("-");
            reveal_strlit("*");
            reveal_strlit("/");
            reveal_strlit("%");
        }
        match self {
            BinOp::Or => String::from_str("||"),
            BinOp::And => String::from_str("&&"),
            BinOp::BitOr => String::from_str("|"),
            BinOp::Xor => String::from_str("^"),
            BinOp::BitAnd => String::from_str("&"),
            BinOp::Eq => String::from_str("=="),
            BinOp::Neq => String::from_str("!="),
            BinOp::Lt => String::from_str("<"),
            BinOp::Le => String::from_str("<="),
            BinOp::Gt => String::from_str(">"),
            BinOp::Ge => String::from_str(">="),
            BinOp::Shl => String::from_str("<<"),
            BinOp::Shr => String::from_str(">>"),
            BinOp::AShl => String::from_str("<<<"),
            BinOp::AShr => String::from_str(">>>"),
            BinOp::Add => String::from_str("+"),
            BinOp::Sub => String::from_str("-"),
            BinOp::Mul => String::from_str("*"),
            BinOp::Div => String::from_str("/"),
            BinOp::Mod => String::from_str("%"),
        }
    }
}

/// An expression.
#[derive(Debug)]
pub enum Expr {
    /// Reference to a signal.
    Ident(String),
    /// Decimal literal; its width is the minimal width of its value.
    Number(u64),
    /// Literal with an explicit width, such as `4'b1010` or `8'hFF`.
    BitVecLiteral { width: u64, value: u64 },
    /// Output port of a module instance: `instance.field`.
    FieldAccess { instance: String, field: String },
    BinOp { op: BinOp, lhs: Box<Expr>, rhs: Box<Expr> },
    UnaryOp { op: UnOp, expr: Box<Expr> },
    /// `cond ? then_branch : else_branch`.
    Ternary { cond: Box<Expr>, then_branch: Box<Expr>, else_branch: Box<Expr> },
}

/// Mathematical model of an expression: names are character sequences.
pub enum SExpr {
    Ident(Seq<char>),
    Number(u64),
    BitVecLiteral { width: u64, value: u64 },
    FieldAccess { instance: Seq<char>, field: Seq<char> },
    BinOp { op: BinOp, lhs: Box<SExpr>, rhs: Box<SExpr> },
    UnaryOp { op: UnOp, expr: Box<SExpr> },
    Ternary { cond: Box<SExpr>, then_branch: Box<SExpr>, else_branch: Box<SExpr> },
}

impl View for Expr {
    type V = SExpr;

    open spec fn view(&self) -> SExpr
        decreases self,
    {
        match self {
            Expr::Ident(s) => SExpr::Ident(s@),
            Expr::Number(n) => SExpr::Number(*n),
            Expr::BitVecLiteral { width, value } => SExpr::BitVecLiteral { width: *width, value: *value },
            Expr::FieldAccess { instance, field } => SExpr::FieldAccess { instance: instance@, field: field@ },
            Expr::BinOp { op, lhs, rhs } => SExpr::BinOp {
                op: *op,
                lhs: Box::new((**lhs)@),
                rhs: Box::new((**rhs)@),
            },
            Expr::UnaryOp { op, expr } => SExpr::UnaryOp { op: *op, expr: Box::new((**expr)@) },
            Expr::Ternary { cond, then_branch, else_branch } => SExpr::Ternary {
                cond: Box::new((**cond)@),
                then_branch: Box::new((**then_branch)@),
                else_branch: Box::new((**else_branch)@),
            },
        }
    }
}

/// A deep copy of an expression.
pub fn clone_expr(e: &Expr) -> (r: Expr)
    ensures
        r@ == e@,
    decreases e,
{
    match e {
        Expr::Ident(s) => Expr::Ident(s.clone()),
        Expr::Number(n) => Expr::Number(*n),
        Expr::BitVecLiteral { width, value } => Expr::BitVecLiteral { width: *width, value: *value },
        Expr::FieldAccess { instance, field } => Expr::FieldAccess {
            instance: instance.clone(),
            field: field.clone(),
        },
        Expr::BinOp { op, lhs, rhs } => Expr::BinOp {
            op: *op,
            lhs: Box::new(clone_expr(lhs)),
            rhs: Box::new(clone_expr(rhs)),
        },
        Expr::UnaryOp { op, expr } => Expr::UnaryOp { op: *op, expr: Box::new(clone_expr(expr)) },
        Expr::Ternary { cond, then_branch, else_branch } => Expr::Ternary {
            cond: Box::new(clone_expr(cond)),
            then_branch: Box::new(clone_expr(then_branch)),
            else_branch: Box::new(clone_expr(else_branch)),
        },
    }
}

/// A signal declaration `var name: type;`.
#[derive(Debug)]
pub struct Decl {
    pub name: String,
    pub sig_type: SignalType,
}

pub struct SDecl {
    pub name: Seq<char>,
    pub sig_type: SignalType,
}

impl View for Decl {
    type V = SDecl;

    open spec fn view(&self) -> SDecl {
        SDecl { name: self.name@, sig_type: self.sig_type }
    }
}

/// A port declaration `name: input|output type;`.
#[derive(Debug)]
pub struct PortDecl {
    pub name: String,
    pub direction: Direction,
    pub sig_type: SignalType,
}

pub struct SPortDecl {
    pub name: Seq<char>,
    pub direction: Direction,
    pub sig_type: SignalType,
}

impl View for PortDecl {
    type V = SPortDecl;

    open spec fn view(&self) -> SPortDecl {
        SPortDecl { name: self.name@, direction: self.direction, sig_type: self.sig_type }
    }
}

/// An assignment: `target = expr` (combinational) or `target <= expr` (sequential).
#[derive(Debug)]
pub enum Stmt {
    Combinational { target: String, expr: Expr },
    Sequential { target: String, expr: Expr },
}

pub enum SStmt {
    Combinational { target: Seq<char>, expr: SExpr },
    Sequential { target: Seq<char>, expr: SExpr },
}

impl SStmt {
    pub open spec fn target(self) -> Seq<char> {
        match self {
            SStmt::Combinational { target, .. } => target,
            SStmt::Sequential { target, .. } => target,
        }
    }

    pub open spec fn expr(self) -> SExpr {
        match self {
            SStmt::Combinational { expr, .. } => expr,
            SStmt::Sequential { expr, .. } => expr,
        }
    }

    pub open spec fn is_seq(self) -> bool {
        self is Sequential
    }
}

impl View for Stmt {
    type V = SStmt;

    open spec fn view(&self) -> SStmt {
        match self {
            Stmt::Combinational { target, expr } => SStmt::Combinational { target: target@, expr: expr@ },
            Stmt::Sequential { target, expr } => SStmt::Sequential { target: target@, expr: expr@ },
        }
    }
}

impl Stmt {
    /// The assigned signal's name.
    pub fn target(&self) -> (t: &str)
        ensures
            t@ == self@.target(),
    {
        match self {
            Stmt::Combinational { target, .. } => target.as_str(),
            Stmt::Sequential { target, .. } => target.as_str(),
        }
    }

    /// The right-hand side.
    pub fn expr(&self) -> (e: &Expr)
        ensures
            e@ == self@.expr(),
    {
        match self {
            Stmt::Combinational { expr, .. } => expr,
            Stmt::Sequential { expr, .. } => expr,
        }
    }
}

/// A module instantiation `var instance = module(port: expr, ...);`.
#[derive(Debug)]
pub struct InstDecl {
    pub instance_name: String,
    pub module_name: String,
    pub args: Vec<(String, Expr)>,
}

pub struct SInstDecl {
    pub instance_name: Seq<char>,
    pub module_name: Seq<char>,
    pub args: Seq<(Seq<char>, SExpr)>,
}

impl View for InstDecl {
    type V = SInstDecl;

    open spec fn view(&self) -> SInstDecl {
        SInstDecl {
            instance_name: self.instance_name@,
            module_name: self.module_name@,
            args: self.args@.map_values(|a: (String, Expr)| (a.0@, a.1@)),
        }
    }
}

/// A statement of an `initial { }` block.
#[derive(Debug)]
pub enum ProcStmt {
    /// `target = expr;`: sets the value once, at that moment.
    Assign { target: String, expr: Expr },
    /// `step;`: advances the simulation by one cycle.
    Step,
}

pub enum SProcStmt {
    Assign { target: Seq<char>, expr: SExpr },
    Step,
}

impl View for ProcStmt {
    type V = SProcStmt;

    open spec fn view(&self) -> SProcStmt {
        match self {
            ProcStmt::Assign { target, expr } => SProcStmt::Assign { target: target@, expr: expr@ },
            ProcStmt::Step => SProcStmt::Step,
        }
    }
}

/// A top-level block `{ ... }`.
#[derive(Debug)]
pub struct Block {
    pub decls: Vec<Decl>,
    pub instances: Vec<InstDecl>,
    pub stmts: Vec<Stmt>,
}

pub struct SBlock {
    pub decls: Seq<SDecl>,
    pub instances: Seq<SInstDecl>,
    pub stmts: Seq<SStmt>,
}

impl View for Block {
    type V = SBlock;

    open spec fn view(&self) -> SBlock {
        SBlock {
            decls: self.decls@.map_values(|d: Decl| d@),
            instances: self.instances@.map_values(|i: InstDecl| i@),
            stmts: self.stmts@.map_values(|s: Stmt| s@),
        }
    }
}

/// A module definition.
#[derive(Debug)]
pub struct ModuleDef {
    pub name: String,
    pub ports: Vec<PortDecl>,
    pub decls: Vec<Decl>,
    pub stmts: Vec<Stmt>,
}

pub struct SModuleDef {
    pub name: Seq<char>,
    pub ports: Seq<SPortDecl>,
    pub decls: Seq<SDecl>,
    pub stmts: Seq<SStmt>,
}

impl View for ModuleDef {
    type V = SModuleDef;

    open spec fn view(&self) -> SModuleDef {
        SModuleDef {
            name: self.name@,
            ports: self.ports@.map_values(|p: PortDecl| p@),
            decls: self.decls@.map_values(|d: Decl| d@),
            stmts: self.stmts@.map_values(|s: Stmt| s@),
        }
    }
}

/// A testbench: concurrent declarations, instances and assignments, and an
/// optional `initial` procedure.
#[derive(Debug)]
pub struct TestbenchDef {
    pub name: String,
    pub decls: Vec<Decl>,
    pub instances: Vec<InstDecl>,
    pub stmts: Vec<Stmt>,
    pub initial: Vec<ProcStmt>,
}

pub struct STestbenchDef {
    pub name: Seq<char>,
    pub decls: Seq<SDecl>,
    pub instances: Seq<SInstDecl>,
    pub stmts: Seq<SStmt>,
    pub initial: Seq<SProcStmt>,
}

impl View for TestbenchDef {
    type V = STestbenchDef;

    open spec fn view(&self) -> STestbenchDef {
        STestbenchDef {
            name: self.name@,
            decls: self.decls@.map_values(|d: Decl| d@),
            instances: self.instances@.map_values(|i: InstDecl| i@),
            stmts: self.stmts@.map_values(|s: Stmt| s@),
            initial: self.initial@.map_values(|p: ProcStmt| p@),
        }
    }
}

/// A whole program: top-level blocks, module definitions and testbenches, each
/// in source order.
#[derive(Debug)]
pub struct Program {
    pub blocks: Vec<Block>,
    pub modules: Vec<ModuleDef>,
    pub testbenches: Vec<TestbenchDef>,
}

pub struct SProgram {
    pub blocks: Seq<SBlock>,
    pub modules: Seq<SModuleDef>,
    pub testbenches: Seq<STestbenchDef>,
}

impl View for Program {
    type V = SProgram;

    open spec fn view(&self) -> SProgram {
        SProgram {
            blocks: self.blocks@.map_values(|b: Block| b@),
            modules: self.modules@.map_values(|m: ModuleDef| m@),
            testbenches: self.testbenches@.map_values(|t: TestbenchDef| t@),
        }
    }
}

} // verus!
