# tinycerilte

A minimal HDL simulator, written in Verus: source text is lexed and parsed
into a program, elaborated (names resolved, static checks), flattened into a
netlist of nodes and drives, and simulated cycle by cycle.

## Layout

- `src/` — the verified library.
  - `token.rs`, `grammar.rs`, `parser.rs`: the token and grammar
    specifications and the parser that meets them; `lexer.rs`: the
    character-level lexer.
  - `ast.rs`: the syntax tree and its model.
  - `elab_spec.rs`, `elaboration.rs`, `comb_graph.rs`: what elaboration
    computes, the resolver, and the combinational-loop search.
  - `netlist_spec.rs`, `netlist.rs`: what flattening computes (values,
    widths, the exact node list) and the netlist builder and printer.
  - `simulator.rs`: cycle semantics, the simulator, the waveform printer.
  - `text.rs`: decimal and padding helpers for the printers.
  - `laws.rs`: properties of the library as a whole.
- `tests/` — tests of the library.
- `app/` — the command-line program: argument handling, file reading,
  printing.
