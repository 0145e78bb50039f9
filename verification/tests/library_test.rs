use tinycerilte::ast::{BinOp, UnOp};
use tinycerilte::elaboration::{self, ElabErrorKind};
use tinycerilte::lexer::{Lexer, Token};
use tinycerilte::netlist::{self, ClockTrigger, DriveKind, Edge, Node, SignalKind};
use tinycerilte::parser::Parser;
use tinycerilte::simulator::{self, eval_binop, eval_unaryop, format_waveform, mask_to_width, Simulator};

fn netlist_of(input: &str) -> netlist::Netlist {
    let prog = Parser::parse_program(input).unwrap();
    let elab = elaboration::elaborate(&prog).unwrap();
    netlist::build_netlist(&elab)
}

fn elab_error(input: &str) -> elaboration::ElabError {
    let prog = Parser::parse_program(input).unwrap();
    elaboration::elaborate(&prog).unwrap_err()
}

const INVERTER: &str = "module inv { port { a: input bit; q: output bit; } q = !a; }";

const TOGGLE: &str = "{ var a: bit; var b: bit; a = b ^ 1; b <= a; }";

// --- text output -----------------------------------------------------------

#[test]
fn netlist_listing_of_the_toggle_design_is_exact() {
    let text = netlist::format_netlist(&netlist_of(TOGGLE));
    let expected = "===== Netlist =====\n\n\
--- Signals ---\n\
\x20 a[0:0] : bit  (id=0)\n\
\x20              driven by N3 (blocking)\n\
\x20 b[0:0] : bit  (id=1)\n\
\x20              driven by N5 (non-blocking)\n\
\n--- Nodes ---\n\
\x20 N  0: Read(b)  (1 bit)\n\
\x20 N  1: Const(1)  (1 bit)\n\
\x20 N  2: BinOp(^)  (1 bit)  = N0 ^ N1\n\
\x20 N  3: Drive(a)  (blocking)  <= N2\n\
\x20 N  4: Read(a)  (1 bit)\n\
\x20 N  5: Drive(b)  (non-blocking)  <= N4\n";
    assert_eq!(text, expected);
}

#[test]
fn netlist_listing_shows_vector_width_and_undriven_signal() {
    let text = netlist::format_netlist(&netlist_of("{ var x: bit<8>; var y: bit; y = !x; }"));
    assert!(text.contains("  x[7:0] : bit[8]  (id=0)\n               (no driver)\n"), "{text}");
    assert!(text.contains(": UnaryOp(!)  (1 bit)  = !N0\n"), "{text}");
}

#[test]
fn netlist_listing_shows_ternary_nodes() {
    let text = netlist::format_netlist(&netlist_of("{ var a: bit; var x: bit<4>; x = a ? 5 : 9; }"));
    assert!(text.contains("  N  3: Ternary  (4 bit)  = N0 ? N1 : N2\n"), "{text}");
}

#[test]
fn waveform_of_the_toggle_design_is_exact() {
    let nl = netlist_of(TOGGLE);
    let mut sim = Simulator::new(nl.signals.len());
    let snaps = sim.run(&nl.nodes, 4);
    let text = format_waveform(&snaps, &nl.signals);
    assert_eq!(text, "cycle  a  b\n-----------\n    0  1  0\n    1  1  1\n    2  0  1\n    3  0  0\n");
}

#[test]
fn waveform_columns_widen_with_the_signal_width() {
    let nl = netlist_of("{ var x: bit<4>; x = 12; }");
    let mut sim = Simulator::new(nl.signals.len());
    let snaps = sim.run(&nl.nodes, 1);
    assert_eq!(format_waveform(&snaps, &nl.signals), "cycle    x\n----------\n    0   12\n");
}

#[test]
fn waveform_without_signals_is_empty() {
    let nl = netlist_of(TOGGLE);
    let mut sim = Simulator::new(nl.signals.len());
    let snaps = sim.run(&nl.nodes, 2);
    assert_eq!(format_waveform(&snaps, &[]), "");
}

// --- lexer -----------------------------------------------------------------

fn lex_all(input: &str) -> Vec<Token> {
    let mut lex = Lexer::new(input);
    let mut out = Vec::new();
    loop {
        let t = lex.next_token();
        let end = matches!(t, Token::Eof);
        out.push(t);
        if end {
            break;
        }
    }
    out
}

#[test]
fn lexer_reports_unknown_character_with_its_position() {
    assert_eq!(
        lex_all("a @"),
        vec![Token::Ident("a".into()), Token::Error("予期しない文字 '@' (位置 3)".into()), Token::Eof]
    );
}

#[test]
fn lexer_reports_number_too_large() {
    assert_eq!(
        lex_all("99999999999999999999"),
        vec![Token::Error("数値パース失敗: 99999999999999999999".into()), Token::Eof]
    );
}

#[test]
fn lexer_reads_angle_bracket_declaration() {
    assert_eq!(
        lex_all("var x:\x0cbit<8>;\n x <= y;"),
        vec![
            Token::Var,
            Token::Ident("x".into()),
            Token::Colon,
            Token::Bit,
            Token::LAngle,
            Token::Number(8),
            Token::RAngle,
            Token::Semicolon,
            Token::Ident("x".into()),
            Token::NonBlockAssign,
            Token::Ident("y".into()),
            Token::Semicolon,
            Token::Eof,
        ]
    );
}

#[test]
fn lexer_keeps_returning_eof_at_the_end() {
    let mut lex = Lexer::new("  ");
    assert_eq!(lex.next_token(), Token::Eof);
    assert_eq!(lex.next_token(), Token::Eof);
}

#[test]
fn identifiers_that_start_with_a_keyword_stay_identifiers() {
    assert_eq!(lex_all("variable bits"), vec![Token::Ident("variable".into()), Token::Ident("bits".into()), Token::Eof]);
}

#[test]
fn token_text_matches_its_source_form() {
    assert_eq!(Token::NonBlockAssign.text(), "<=");
    assert_eq!(Token::Number(42).text(), "42");
    assert_eq!(Token::Ident("abc".into()).text(), "abc");
    assert_eq!(Token::Eof.text(), "<EOF>");
    assert_eq!(Token::Error("x".into()).text(), "<ERROR: x>");
}

// --- parser ----------------------------------------------------------------

#[test]
fn parse_error_text_has_its_prefix() {
    let e = Parser::parse_program("testbench tb {").unwrap_err();
    assert!(e.text().starts_with("パースエラー: "));
}

#[test]
fn operator_symbols_are_their_source_text() {
    assert_eq!(BinOp::AShl.symbol(), "<<<");
    assert_eq!(BinOp::Neq.symbol(), "!=");
    assert_eq!(UnOp::BitNot.symbol(), "~");
}

#[test]
fn if_elif_else_selects_the_matching_branch_when_simulated() {
    let nl = netlist_of(
        "{ var a: bit<8>; var x: bit<8>; a = 1; if a == 0 { x = 10; } elif a == 1 { x = 20; } else { x = 30; } }",
    );
    let mut sim = Simulator::new(nl.signals.len());
    let snap = sim.step(&nl.nodes);
    assert_eq!(snap.values[1], 20);
}

// --- elaboration errors ----------------------------------------------------

const ADDER: &str = "module adder { port { a: input bit<8>; b: input bit<8>; sum: output bit<8>; } sum = a + b; }";

#[test]
fn every_elaboration_error_has_its_message() {
    let cases: Vec<(String, &str)> = vec![
        ("testbench a { } testbench b { }".into(), "テストベンチは1つだけ許可されています"),
        (format!("{ADDER} {ADDER}"), "モジュール 'adder' が重複定義されています"),
        ("module m { port { a: input bit; a: output bit; } }".into(), "モジュール 'm' のポート 'a' が重複しています"),
        (
            "module m { port { c: output clock; } }".into(),
            "モジュール 'm' のポート 'c': clock型はoutputポートに使えません",
        ),
        (
            "module m { port { c: input clock; d: input clock; } }".into(),
            "モジュール 'm' のポート 'd': clock型の入力ポートは高々1つです",
        ),
        (
            "module m { port { a: input bit; } var a: bit; }".into(),
            "モジュール 'm' 内で変数 'a' が重複宣言されています",
        ),
        (
            "module m { port { } var c: clock; }".into(),
            "モジュール 'm' 内で clock型の変数 'c' は宣言できません（テストベンチ内でのみ許可）",
        ),
        ("module m { port { q: output bit; } q = z; }".into(), "変数 'z' が宣言されていません"),
        ("module m { port { q: output bit; } z = q; }".into(), "モジュール 'm': 変数 'z' が宣言されていません"),
        ("module m { port { a: input bit; } a = 1; }".into(), "モジュール 'm': 入力ポート 'a' に代入できません"),
        (
            "module m { port { a: input bit; q: output bit; } q <= a; }".into(),
            "モジュール 'm': 順序代入を使うにはclock型の入力ポートが必要です",
        ),
        ("testbench tb { x = 1; }".into(), "変数 'x' が宣言されていません"),
        ("testbench tb { var x: bit; var x: bit; }".into(), "変数 'x' が重複宣言されています"),
        ("{ var c: clock; }".into(), "clock型の変数 'c' はテストベンチ内でのみ宣言できます"),
        (
            format!("{ADDER} testbench tb {{ var x: bit<8>; var x = adder(a: x, b: x); }}"),
            "'x' という名前が信号またはインスタンスと重複しています",
        ),
        ("testbench tb { var u = ghost(); }".into(), "モジュール 'ghost' が定義されていません"),
        (
            format!("{ADDER} testbench tb {{ var x: bit<8>; var u = adder(a: x, b: x, sum: x); }}"),
            "'sum' はモジュール 'adder' の出力ポートです。インスタンス化時には入力ポートのみ指定できます",
        ),
        (
            format!("{ADDER} testbench tb {{ var x: bit<8>; var u = adder(a: x, c: x); }}"),
            "モジュール 'adder' に入力ポート 'c' はありません",
        ),
        (format!("{ADDER} testbench tb {{ var x: bit<8>; var u = adder(a: x, a: x); }}"), "引数 'a' が重複しています"),
        (
            "module r { port { clk: input clock; q: output bit; } q <= q; } testbench tb { var x: bit; var u = r(clk: x); }"
                .into(),
            "モジュール 'r' のポート 'clk': clock型のポートにはclock型の信号だけを、bit型のポートにはbit型の信号だけを接続できます",
        ),
        (
            format!("{ADDER} testbench tb {{ var x: bit<8>; var u = adder(a: x); }}"),
            "モジュール 'adder' の入力ポート 'b' が接続されていません",
        ),
        ("testbench tb { var z: bit; z = u.sum; }".into(), "インスタンス 'u' が見つかりません"),
        (
            format!("{ADDER} testbench tb {{ var x: bit<8>; var u = adder(a: x, b: x); x = u.c; }}"),
            "'c' はモジュール 'adder' のポートではありません",
        ),
        (
            format!("{ADDER} testbench tb {{ var x: bit<8>; var u = adder(a: x, b: x); x = u.a; }}"),
            "'u.a' は入力ポートのため読み出せません",
        ),
        ("testbench tb { var x: bit; x = 1; x <= 0; }".into(), "変数 'x' に複数のドライバがあります（多重代入）"),
        (
            "testbench tb { var a: bit; var b: bit; var c: bit; a = c; b = a; c = b; }".into(),
            "組合せループを検出: a → b → ... → c の循環があります",
        ),
    ];
    for (src, message) in cases {
        let e = elab_error(&src);
        assert_eq!(e.message, message, "source: {src}");
        assert_eq!(e.text(), format!("エラボレーションエラー: {message}"));
    }
}

#[test]
fn combinational_loop_error_carries_its_cycle() {
    let e = elab_error("testbench tb { var a: bit; var b: bit; a = b; b = a; }");
    match e.kind {
        ElabErrorKind::CombinationalLoop { cycle } => {
            assert_eq!(cycle, vec!["a".to_string(), "b".to_string(), "a".to_string()]);
        }
        other => panic!("unexpected {other:?}"),
    }
    assert_eq!(e.message, "組合せループを検出: a → b → ... → b の循環があります");
}

#[test]
fn combinational_loop_search_starts_from_the_lowest_signal() {
    // `p` (id 0) reads the cycle but is not on it; the search finishes it
    // and then finds the cycle from `c`
    let e = elab_error("testbench tb { var p: bit; var c: bit; var d: bit; p = c; c = d; d = c; }");
    match e.kind {
        ElabErrorKind::CombinationalLoop { cycle } => {
            assert_eq!(cycle, vec!["c".to_string(), "d".to_string(), "c".to_string()]);
        }
        other => panic!("unexpected {other:?}"),
    }
}

#[test]
fn clock_signal_cannot_drive_a_bit_port() {
    let e = elab_error(&format!("{ADDER} testbench tb {{ var c: clock; var x: bit<8>; var u = adder(a: c, b: x); }}"));
    assert!(matches!(e.kind, ElabErrorKind::ClockMismatch { .. }));
}

#[test]
fn module_with_register_and_clock_input_elaborates() {
    let prog = Parser::parse_program(
        "module r { port { clk: input clock; d: input bit; q: output bit; } q <= d; } \
         testbench tb { var c: clock; var x: bit; c <= !c; var u = r(clk: c, d: x); }",
    )
    .unwrap();
    let elab = elaboration::elaborate(&prog).unwrap();
    assert_eq!(elab.modules[0].clock_port, Some(0));
    assert!(elab.modules[0].ports[0].is_clock);
    assert!(elab.top.signals[0].is_clock);
}

// --- netlist ---------------------------------------------------------------

#[test]
fn module_register_is_triggered_by_its_clock_input() {
    let nl = netlist_of(
        "module r { port { clk: input clock; d: input bit; q: output bit; } q <= d; } \
         testbench tb { var c: clock; var x: bit; c <= !c; var u = r(clk: c, d: x); }",
    );
    let clk = nl.signals.iter().position(|s| s.name == "u.clk").unwrap();
    let q = nl.signals.iter().find(|s| s.name == "u.q").unwrap();
    assert_eq!(
        q.kind,
        SignalKind::Reg { clock: Some(ClockTrigger { signal_id: clk, edge: Edge::Posedge }), reset: None }
    );
    let c = nl.signals.iter().find(|s| s.name == "c").unwrap();
    assert_eq!(c.kind, SignalKind::Reg { clock: None, reset: None }, "a register outside modules has no clock");
}

#[test]
fn decimal_literal_is_as_wide_as_its_value() {
    let nl = netlist_of("{ var x: bit<8>; var y: bit<8>; x = 5; y = 0; }");
    assert!(matches!(nl.nodes[0], Node::Const { value: 5, width: 3, .. }));
    assert!(matches!(nl.nodes[2], Node::Const { value: 0, width: 1, .. }));
}

#[test]
fn bitvec_literal_is_cut_to_its_width_in_the_netlist() {
    let nl = netlist_of("{ var x: bit<8>; x = 4'b11111; }");
    assert!(matches!(nl.nodes[0], Node::Const { value: 15, width: 4, .. }));
}

#[test]
fn operator_node_widths_follow_their_rules() {
    let nl = netlist_of("{ var a: bit<8>; var b: bit<4>; var x: bit; var y: bit<8>; var z: bit<8>; x = a < b; y = a + b; z = ~b; }");
    let widths: Vec<(u64, bool)> = nl
        .nodes
        .iter()
        .filter_map(|n| match n {
            Node::BinOp { width, op, .. } => Some((*width, *op == BinOp::Lt)),
            Node::UnaryOp { width, .. } => Some((*width, false)),
            _ => None,
        })
        .collect();
    assert_eq!(widths, vec![(1, true), (8, false), (4, false)]);
}

#[test]
fn every_signal_records_its_driver() {
    let nl = netlist_of(TOGGLE);
    for (i, sig) in nl.signals.iter().enumerate() {
        assert_eq!(sig.id, i);
        let d = sig.driver_node.unwrap();
        match &nl.nodes[d] {
            Node::Drive { signal_id, kind, width, .. } => {
                assert_eq!(*signal_id, i);
                assert_eq!(Some(*kind), sig.driver_kind);
                assert_eq!(*width, sig.width);
            }
            _ => panic!("driver must be a drive node"),
        }
    }
    assert_eq!(nl.signals[0].driver_kind, Some(DriveKind::Combinational));
    assert_eq!(DriveKind::Sequential.text(), "non-blocking");
}

#[test]
fn builder_starts_empty() {
    let _a = netlist::NetlistBuilder::new();
    let _b: netlist::NetlistBuilder = Default::default();
}

// --- simulation ------------------------------------------------------------

#[test]
fn assignments_store_values_cut_to_the_target_width() {
    let nl = netlist_of("{ var x: bit<3>; var y: bit<3>; var c: bit<64>; x = 15 + 1; y <= 255; c = 0 - 1; }");
    let mut sim = Simulator::new(nl.signals.len());
    let s0 = sim.step(&nl.nodes);
    assert_eq!(s0.values, vec![0, 7, u64::MAX]);
    let s1 = sim.step(&nl.nodes);
    assert_eq!(s1.values[1], 7);
}

#[test]
fn cycles_are_numbered_from_zero() {
    let nl = netlist_of(TOGGLE);
    let mut sim = Simulator::new(nl.signals.len());
    let snaps = sim.run(&nl.nodes, 3);
    assert_eq!(snaps.iter().map(|s| s.cycle).collect::<Vec<_>>(), vec![0, 1, 2]);
    assert_eq!(sim.cycle(), 3);
}

#[test]
fn try_step_reports_a_combinational_loop_and_keeps_the_state() {
    // a loop through an instance passes elaboration and shows at simulation
    let nl = netlist_of(&format!("{INVERTER} {{ var z: bit; var u = inv(a: z); z = u.q; }}"));
    let mut sim = Simulator::new(nl.signals.len());
    assert!(sim.try_step(&nl.nodes).is_none());
    assert_eq!(sim.cycle(), 0);
    assert_eq!(sim.signal_values(), &[0, 0, 0]);
    assert!(sim.try_run(&nl.nodes, 2).is_none());
}

#[test]
fn try_run_matches_run() {
    let nl = netlist_of(TOGGLE);
    let mut a = Simulator::new(nl.signals.len());
    let mut b = Simulator::new(nl.signals.len());
    let ra = a.run(&nl.nodes, 5);
    let rb = b.try_run(&nl.nodes, 5).unwrap();
    assert_eq!(ra.iter().map(|s| s.values.clone()).collect::<Vec<_>>(), rb.iter().map(|s| s.values.clone()).collect::<Vec<_>>());
}

#[test]
fn initial_sequence_records_one_snapshot_per_step() {
    let nl = netlist_of(
        "testbench tb { var counter: bit<8>; counter <= counter + 1; var x: bit<8>; \
         initial { x = 300; step; step; x = 7; step; } }",
    );
    let snaps = simulator::run_initial_sequence(&nl).unwrap();
    assert_eq!(snaps.len(), 3);
    assert_eq!(snaps.iter().map(|s| s.cycle).collect::<Vec<_>>(), vec![0, 1, 2]);
    assert_eq!(snaps.iter().map(|s| s.values.clone()).collect::<Vec<_>>(), vec![vec![1, 44], vec![2, 44], vec![3, 7]]);
}

#[test]
fn initial_sequence_reports_a_combinational_loop() {
    let nl = netlist_of(&format!("{INVERTER} testbench tb {{ var z: bit; var u = inv(a: z); z = u.q; initial {{ step; }} }}"));
    assert!(simulator::run_initial_sequence(&nl).is_none());
}

#[test]
fn instance_with_clock_input_drives_through_to_the_top() {
    let nl = netlist_of(
        "module r { port { clk: input clock; d: input bit<8>; q: output bit<8>; } q <= d + 1; } \
         testbench tb { var c: clock; var x: bit<8>; var z: bit<8>; c <= !c; var u = r(clk: c, d: x); z = u.q; \
         initial { x = 4; step; step; step; } }",
    );
    let snaps = simulator::run_initial_sequence(&nl).unwrap();
    let z = nl.signals.iter().position(|s| s.name == "z").unwrap();
    let q = nl.signals.iter().position(|s| s.name == "u.q").unwrap();
    assert_eq!(snaps.iter().map(|s| (s.values[q], s.values[z])).collect::<Vec<_>>(), vec![(1, 0), (5, 1), (5, 5)]);
}

#[test]
fn operators_give_their_documented_values() {
    assert_eq!(eval_binop(BinOp::Shl, 1, 64), 0);
    assert_eq!(eval_binop(BinOp::Shr, 8, 3), 1);
    assert_eq!(eval_binop(BinOp::Mod, 7, 0), 0);
    assert_eq!(eval_binop(BinOp::Sub, 0, 1), u64::MAX);
    assert_eq!(eval_binop(BinOp::Mul, u64::MAX, 2), u64::MAX - 1);
    assert_eq!(eval_binop(BinOp::Or, 0, 5), 1);
    assert_eq!(eval_binop(BinOp::Ge, 3, 3), 1);
    assert_eq!(eval_unaryop(UnOp::Not, 9), 0);
    assert_eq!(eval_unaryop(UnOp::BitNot, 0), u64::MAX);
    assert_eq!(mask_to_width(0xABCD, 8), 0xCD);
    assert_eq!(mask_to_width(mask_to_width(0xABCD, 8), 8), 0xCD);
    assert_eq!(mask_to_width(u64::MAX, 64), u64::MAX);
}

#[test]
fn sequential_assignments_read_the_values_at_the_start_of_the_cycle() {
    // swap: both registers read the values the cycle starts with
    let nl = netlist_of("{ var p: bit<4>; var q: bit<4>; p <= q; q <= p; }");
    let mut sim = Simulator::new(nl.signals.len());
    sim.set_signal(0, 3);
    sim.set_signal(1, 9);
    let s0 = sim.step(&nl.nodes);
    assert_eq!(s0.values, vec![9, 3]);
    let s1 = sim.step(&nl.nodes);
    assert_eq!(s1.values, vec![3, 9]);
}

#[test]
fn settled_values_satisfy_the_combinational_assignments() {
    let nl = netlist_of("{ var a: bit<8>; var b: bit<8>; var c: bit<4>; b = a * 3; c = b + 1; }");
    let mut sim = Simulator::new(nl.signals.len());
    sim.set_signal(0, 7);
    let s0 = sim.step(&nl.nodes);
    assert_eq!(s0.values, vec![7, 21, 22 & 0xF]);
}

#[test]
fn instance_input_follows_its_connection() {
    let nl = netlist_of(&format!("{INVERTER} {{ var z: bit<2>; var y: bit; var u = inv(a: z + 1); y = u.q; }}"));
    let a = nl.signals.iter().position(|s| s.name == "u.a").unwrap();
    let mut sim = Simulator::new(nl.signals.len());
    sim.set_signal(0, 2);
    let s0 = sim.step(&nl.nodes);
    // z + 1 == 3, cut to the one bit of the port
    assert_eq!(s0.values[a], 1);
}

#[test]
fn undriven_signal_keeps_a_value_set_from_outside() {
    let nl = netlist_of("{ var a: bit<8>; var b: bit<8>; b = a + 1; }");
    let mut sim = Simulator::new(nl.signals.len());
    sim.set_signal(0, 41);
    let snaps = sim.run(&nl.nodes, 3);
    assert!(snaps.iter().all(|s| s.values == vec![41, 42]));
}

#[test]
fn run_equals_successive_steps() {
    let nl = netlist_of("{ var c: bit<4>; var d: bit<4>; c <= c + 3; d = c ^ 5; }");
    let mut a = Simulator::new(nl.signals.len());
    let mut b = Simulator::new(nl.signals.len());
    let ra = a.run(&nl.nodes, 6);
    let rb: Vec<_> = (0..6).map(|_| b.step(&nl.nodes)).collect();
    assert_eq!(ra.iter().map(|s| (s.cycle, s.values.clone())).collect::<Vec<_>>(), rb.iter().map(|s| (s.cycle, s.values.clone())).collect::<Vec<_>>());
    assert_eq!(a.signal_values(), b.signal_values());
    assert_eq!(a.cycle(), 6);
    assert!(a.run(&nl.nodes, 0).is_empty());
    assert_eq!(a.cycle(), 6);
}

#[test]
fn lexer_reaches_eof_within_the_character_count() {
    let src = "var x : bit ; ]";
    let mut lex = Lexer::new(src);
    let mut calls = 0;
    while lex.next_token() != Token::Eof {
        calls += 1;
    }
    assert!(calls <= src.chars().count());
    assert_eq!(lex.next_token(), Token::Eof);
}
