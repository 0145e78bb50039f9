//! Detection of combinational loops: the dependency graph among the signals of
//! one scope, and a depth-first search that either finds a cycle or proves
//! there is none.
use vstd::prelude::*;

use crate::elab_spec::{comb_acyclic, comb_edge, is_comb_cycle, reads, reads_below, stmts_below};
use crate::elaboration::{ElabError, ElabErrorKind, ResolvedExpr, ResolvedSignal, ResolvedStmt, SRStmt};

verus! {

/// Color of a signal that the search has not reached yet.
pub const WHITE: u8 = 0;

/// Color of a signal on the current search path.
pub const GRAY: u8 = 1;

/// Color of a signal whose successors have all been searched.
pub const BLACK: u8 = 2;

/// The signal ids that an expression reads, left to right.
pub fn collect_read_signals(expr: &ResolvedExpr) -> (v: Vec<usize>)
    ensures
        v@ == reads(expr@),
    decreases expr,
{
    match expr {
        ResolvedExpr::Ident(id) => {
            let mut v = Vec::new();
            v.push(*id);
            assert(v@ =~= seq![*id]);
            v
        },
        ResolvedExpr::Number(_) => Vec::new(),
        ResolvedExpr::BitVecLiteral { .. } => Vec::new(),
        ResolvedExpr::InstanceField { .. } => Vec::new(),
        ResolvedExpr::BinOp { lhs, rhs, .. } => {
            let mut v = collect_read_signals(lhs);
            let mut w = collect_read_signals(rhs);
            v.append(&mut w);
            v
        },
        ResolvedExpr::UnaryOp { expr, .. } => collect_read_signals(expr),
        ResolvedExpr::Ternary { cond, then_branch, else_branch } => {
            let mut v = collect_read_signals(cond);
            let mut w = collect_read_signals(then_branch);
            let mut x = collect_read_signals(else_branch);
            v.append(&mut w);
            v.append(&mut x);
            v
        },
    }
}

/// An element is in `s.push(x)` when it is `x` or is in `s`.
pub proof fn lemma_push_contains<A>(s: Seq<A>, x: A, y: A)
    ensures
        s.push(x).contains(y) <==> (s.contains(y) || x == y),
{
    if s.contains(y) {
        let i = choose|i: int| 0 <= i < s.len() && s[i] == y;
        assert(s.push(x)[i] == y);
    }
    if x == y {
        assert(s.push(x)[s.len() as int] == y);
    }
    if s.push(x).contains(y) {
        let i = choose|i: int| 0 <= i < s.push(x).len() && s.push(x)[i] == y;
        if i < s.len() {
            assert(s[i] == y);
        }
    }
}

pub open spec fn stmts_of(stmts: Seq<ResolvedStmt>) -> Seq<SRStmt> {
    stmts.map_values(|s: ResolvedStmt| s@)
}

/// The adjacency lists hold exactly the combinational edges, between signals
/// below `n`.
pub open spec fn deps_match(deps: Seq<Vec<usize>>, stmts: Seq<SRStmt>, n: int) -> bool {
    &&& deps.len() == n
    &&& forall|u: int, k: int| 0 <= u < n && 0 <= k < deps[u]@.len() ==> #[trigger] deps[u]@[k] < n
    &&& forall|u: int, v: int|
        0 <= u < n && 0 <= v < n ==> (#[trigger] deps[u]@.contains(v as usize) <==> comb_edge(stmts, u, v))
}

/// The adjacency lists as sequences.
pub open spec fn gview(deps: Seq<Vec<usize>>) -> Seq<Seq<usize>> {
    deps.map_values(|v: Vec<usize>| v@)
}

/// The lists `g` with `t` appended to the list of each of `rs`, in order.
pub open spec fn add_edges(g: Seq<Seq<usize>>, rs: Seq<usize>, t: usize) -> Seq<Seq<usize>>
    decreases rs.len(),
{
    if rs.len() == 0 {
        g
    } else {
        let h = add_edges(g, rs.drop_last(), t);
        h.update(rs.last() as int, h[rs.last() as int].push(t))
    }
}

/// The dependency lists of `n` signals after the first `i` assignments: for
/// each combinational assignment in order, its target is appended to the list
/// of every signal it reads, in reading order.
pub open spec fn dep_graph(stmts: Seq<SRStmt>, n: int, i: int) -> Seq<Seq<usize>>
    decreases i,
{
    if i <= 0 {
        Seq::new(n as nat, |u: int| Seq::<usize>::empty())
    } else {
        let g = dep_graph(stmts, n, i - 1);
        match stmts[i - 1] {
            SRStmt::Combinational { target_id, expr } => add_edges(g, reads(expr), target_id),
            SRStmt::Sequential { .. } => g,
        }
    }
}

/// Every entry of the lists `g` of `n` signals is a signal below `n` that
/// depends combinationally on the list's own signal.
pub open spec fn edges_ok(g: Seq<Seq<usize>>, stmts: Seq<SRStmt>, n: int) -> bool {
    &&& g.len() == n
    &&& forall|u: int, k: int|
        0 <= u < n && 0 <= k < g[u].len() ==> #[trigger] g[u][k] < n && comb_edge(stmts, u, g[u][k] as int)
}

proof fn lemma_add_edges_ok(g: Seq<Seq<usize>>, rs: Seq<usize>, t: usize, stmts: Seq<SRStmt>, n: int)
    requires
        edges_ok(g, stmts, n),
        t < n,
        forall|k: int| 0 <= k < rs.len() ==> #[trigger] rs[k] < n && comb_edge(stmts, rs[k] as int, t as int),
    ensures
        edges_ok(add_edges(g, rs, t), stmts, n),
    decreases rs.len(),
{
    if rs.len() > 0 {
        let r = rs.last();
        assert(rs[rs.len() - 1] == r);
        lemma_add_edges_ok(g, rs.drop_last(), t, stmts, n);
        let h = add_edges(g, rs.drop_last(), t);
        let h2 = h.update(r as int, h[r as int].push(t));
        assert forall|u: int, k: int| 0 <= u < n && 0 <= k < h2[u].len() implies #[trigger] h2[u][k] < n
            && comb_edge(stmts, u, h2[u][k] as int) by {
            if u == r {
                if k < h[u].len() {
                    assert(h2[u][k] == h[u][k]);
                }
            } else {
                assert(h2[u] == h[u]);
            }
        }
    }
}

/// The dependency lists of a scope name only real combinational
/// dependencies.
pub proof fn lemma_dep_graph_ok(stmts: Seq<SRStmt>, n: int, i: int)
    requires
        0 <= n,
        0 <= i <= stmts.len(),
        stmts_below(stmts, n),
    ensures
        edges_ok(dep_graph(stmts, n, i), stmts, n),
    decreases i,
{
    if i > 0 {
        lemma_dep_graph_ok(stmts, n, i - 1);
        let g = dep_graph(stmts, n, i - 1);
        match stmts[i - 1] {
            SRStmt::Combinational { target_id, expr } => {
                assert(stmts[i - 1].target_id() == target_id && stmts[i - 1].expr() == expr);
                assert forall|k: int| 0 <= k < reads(expr).len() implies #[trigger] reads(expr)[k] < n && comb_edge(
                    stmts,
                    reads(expr)[k] as int,
                    target_id as int,
                ) by {
                    assert(reads(expr).contains(reads(expr)[k]));
                }
                lemma_add_edges_ok(g, reads(expr), target_id, stmts, n);
            },
            SRStmt::Sequential { .. } => {},
        }
    }
}

/// `deps[u]` lists the targets of the combinational assignments that read `u`.
fn build_combinational_deps(stmts: &Vec<ResolvedStmt>, signal_count: usize) -> (deps: Vec<Vec<usize>>)
    requires
        stmts_below(stmts_of(stmts@), signal_count as int),
    ensures
        deps_match(deps@, stmts_of(stmts@), signal_count as int),
        gview(deps@) == dep_graph(stmts_of(stmts@), signal_count as int, stmts@.len() as int),
{
    let ghost sv = stmts_of(stmts@);
    let n = signal_count;
    let mut deps: Vec<Vec<usize>> = Vec::new();
    let mut u: usize = 0;
    while u < n
        invariant
            u <= n,
            deps@.len() == u,
            forall|x: int| 0 <= x < u ==> (#[trigger] deps@[x])@.len() == 0,
        decreases n - u,
    {
        deps.push(Vec::new());
        u += 1;
    }
    let mut i: usize = 0;
    assert forall|x: int| 0 <= x < n implies #[trigger] gview(deps@)[x] == dep_graph(sv, n as int, 0)[x] by {
        assert(deps@[x]@ =~= Seq::<usize>::empty());
    }
    assert(gview(deps@) =~= dep_graph(sv, n as int, 0));
    while i < stmts.len()
        invariant
            sv == stmts_of(stmts@),
            stmts_below(sv, n as int),
            i <= stmts@.len(),
            deps@.len() == n,
            gview(deps@) == dep_graph(sv, n as int, i as int),
            forall|a: int, k: int| 0 <= a < n && 0 <= k < deps@[a]@.len() ==> #[trigger] deps@[a]@[k] < n,
            forall|a: int, b: int|
                0 <= a < n && 0 <= b < n ==> (#[trigger] deps@[a]@.contains(b as usize) <==> exists|j: int|
                    0 <= j < i && (#[trigger] sv[j]) is Combinational && sv[j].target_id() == b && reads(
                        sv[j].expr(),
                    ).contains(a as usize)),
        decreases stmts@.len() - i,
    {
        assert(sv[i as int] == stmts@[i as int]@);
        match &stmts[i] {
            ResolvedStmt::Combinational { target_id, expr } => {
                let rs = collect_read_signals(expr);
                let t = *target_id;
                assert(sv[i as int].target_id() == t && sv[i as int].expr() == expr@);
                let mut k: usize = 0;
                while k < rs.len()
                    invariant
                        sv == stmts_of(stmts@),
                        stmts_below(sv, n as int),
                        i < stmts@.len(),
                        sv[i as int] is Combinational,
                        sv[i as int].target_id() == t,
                        rs@ == reads(sv[i as int].expr()),
                        t < n,
                        k <= rs@.len(),
                        deps@.len() == n,
                        gview(deps@) == add_edges(dep_graph(sv, n as int, i as int), rs@.take(k as int), t),
                        forall|a: int, kk: int|
                            0 <= a < n && 0 <= kk < deps@[a]@.len() ==> #[trigger] deps@[a]@[kk] < n,
                        forall|a: int, b: int|
                            0 <= a < n && 0 <= b < n ==> (#[trigger] deps@[a]@.contains(b as usize) <==> (
                            (exists|j: int|
                                0 <= j < i && (#[trigger] sv[j]) is Combinational && sv[j].target_id() == b
                                    && reads(sv[j].expr()).contains(a as usize)) || (b == t
                                && rs@.take(k as int).contains(a as usize)))),
                    decreases rs@.len() - k,
                {
                    let r = rs[k];
                    assert(rs@[k as int] < n) by {
                        assert(reads_below(sv[i as int].expr(), n as int));
                    }
                    let mut inner = deps[r].clone();
                    inner.push(t);
                    let ghost old_deps = deps@;
                    deps.set(r, inner);
                    k += 1;
                    proof {
                        let g0 = dep_graph(sv, n as int, i as int);
                        assert(rs@.take(k as int).drop_last() =~= rs@.take(k - 1));
                        assert(gview(deps@) =~= add_edges(g0, rs@.take(k as int), t));
                    }
                    assert forall|a: int, b: int| 0 <= a < n && 0 <= b < n implies (
                    #[trigger] deps@[a]@.contains(b as usize) <==> ((exists|j: int|
                        0 <= j < i && (#[trigger] sv[j]) is Combinational && sv[j].target_id() == b
                            && reads(sv[j].expr()).contains(a as usize)) || (b == t && rs@.take(
                        k as int,
                    ).contains(a as usize)))) by {
                        assert(rs@.take(k as int) =~= rs@.take(k - 1).push(r));
                        lemma_push_contains(rs@.take(k - 1), r, a as usize);
                        if a == r {
                            assert(deps@[a]@ =~= old_deps[a]@.push(t));
                            lemma_push_contains(old_deps[a]@, t, b as usize);
                        } else {
                            assert(deps@[a] == old_deps[a]);
                        }
                    }
                }
                assert(rs@.take(rs@.len() as int) =~= rs@);
            },
            ResolvedStmt::Sequential { .. } => {},
        }
        i += 1;
    }
    deps
}


pub open spec fn adj(deps: Seq<Vec<usize>>, u: int, v: int) -> bool {
    0 <= u < deps.len() && deps[u]@.contains(v as usize)
}

/// Every adjacency list names signals below `n` only.
pub open spec fn deps_wf(deps: Seq<Vec<usize>>, n: int) -> bool {
    &&& deps.len() == n
    &&& forall|u: int, k: int| 0 <= u < n && 0 <= k < deps[u]@.len() ==> #[trigger] deps[u]@[k] < n
}

/// `c` is a cycle of the adjacency graph.
pub open spec fn is_adj_cycle(deps: Seq<Vec<usize>>, c: Seq<usize>) -> bool {
    &&& c.len() >= 2
    &&& c[0] == c.last()
    &&& forall|i: int| 0 <= i < c.len() - 1 ==> adj(deps, #[trigger] c[i] as int, c[i + 1] as int)
}

/// The search path is a path of the graph without repeats.
pub open spec fn path_ok(deps: Seq<Vec<usize>>, path: Seq<usize>) -> bool {
    &&& path.no_duplicates()
    &&& forall|i: int| 0 <= i < path.len() - 1 ==> adj(deps, #[trigger] path[i] as int, path[i + 1] as int)
}

/// The gray signals are those on the path, the black ones those in `order`.
pub open spec fn colors_ok(color: Seq<u8>, path: Seq<usize>, order: Seq<usize>, n: int) -> bool {
    &&& color.len() == n
    &&& forall|v: usize| v < n ==> (#[trigger] color[v as int] == GRAY <==> path.contains(v))
    &&& forall|v: usize| v < n ==> (#[trigger] color[v as int] == BLACK <==> order.contains(v))
    &&& forall|v: usize| v < n ==> #[trigger] color[v as int] <= BLACK
    &&& forall|i: int| 0 <= i < path.len() ==> #[trigger] path[i] < n
    &&& forall|i: int| 0 <= i < order.len() ==> #[trigger] order[i] < n
    &&& order.no_duplicates()
}

/// Every successor of a finished signal finished before it.
pub open spec fn closed(deps: Seq<Vec<usize>>, order: Seq<usize>) -> bool {
    forall|i: int, v: usize|
        #![trigger order[i], adj(deps, order[i] as int, v as int)]
        0 <= i < order.len() && adj(deps, order[i] as int, v as int) ==> exists|j: int|
            0 <= j < i && #[trigger] order[j] == v
}

/// No signal that is white in `c2` was anything else in `c1`.
pub open spec fn whiter(c1: Seq<u8>, c2: Seq<u8>) -> bool {
    &&& c1.len() == c2.len()
    &&& forall|v: int| 0 <= v < c1.len() && #[trigger] c2[v] == WHITE ==> c1[v] == WHITE
}

pub open spec fn count_white(c: Seq<u8>) -> nat
    decreases c.len(),
{
    if c.len() == 0 {
        0
    } else {
        count_white(c.drop_last()) + if c.last() == WHITE {
            1nat
        } else {
            0nat
        }
    }
}

proof fn lemma_count_white(c1: Seq<u8>, c2: Seq<u8>)
    requires
        whiter(c1, c2),
    ensures
        count_white(c2) <= count_white(c1),
        (exists|x: int| 0 <= x < c1.len() && c1[x] == WHITE && c2[x] != WHITE) ==> count_white(c2) < count_white(
            c1,
        ),
    decreases c1.len(),
{
    if c1.len() > 0 {
        let d1 = c1.drop_last();
        let d2 = c2.drop_last();
        assert(whiter(d1, d2)) by {
            assert forall|v: int| 0 <= v < d1.len() && #[trigger] d2[v] == WHITE implies d1[v] == WHITE by {
                assert(c2[v] == d2[v]);
            }
        }
        lemma_count_white(d1, d2);
        if exists|x: int| 0 <= x < c1.len() && c1[x] == WHITE && c2[x] != WHITE {
            let x = choose|x: int| 0 <= x < c1.len() && c1[x] == WHITE && c2[x] != WHITE;
            if x < c1.len() - 1 {
                assert(d1[x] == WHITE && d2[x] != WHITE);
            }
        }
    }
}

/// Outcome of a depth-first search: the colors it leaves, or the cycle it
/// stopped at.
pub enum Search {
    Done(Seq<u8>),
    Found(Seq<usize>),
}

/// The cycle closed by an edge from the end of `path` back to `v`, which is
/// on it: the path from `v` on, then `v` again.
pub open spec fn cycle_of(path: Seq<usize>, v: usize) -> Seq<usize> {
    path.subrange(path.index_of(v), path.len() as int).push(v)
}

/// The search from white signal `node`, with `path` leading to it: `node`
/// turns gray, its successors are searched in list order, and it turns
/// black; an edge to a gray signal stops the search with the cycle it
/// closes. `fuel` bounds the depth.
#[verifier::opaque]
pub open spec fn search_from(g: Seq<Seq<usize>>, color: Seq<u8>, path: Seq<usize>, node: usize, fuel: nat) -> Search
    decreases fuel, 0int,
{
    if fuel == 0 {
        Search::Done(color)
    } else {
        search_succ(g, color.update(node as int, GRAY), path.push(node), node, 0, (fuel - 1) as nat)
    }
}

/// The rest of the search of gray `node`, from its `k`-th successor on.
#[verifier::opaque]
pub open spec fn search_succ(
    g: Seq<Seq<usize>>,
    color: Seq<u8>,
    path: Seq<usize>,
    node: usize,
    k: int,
    fuel: nat,
) -> Search
    decreases fuel, g[node as int].len() - k + 1,
{
    if k < 0 || k >= g[node as int].len() {
        Search::Done(color.update(node as int, BLACK))
    } else {
        let next = g[node as int][k];
        if color[next as int] == GRAY {
            Search::Found(cycle_of(path, next))
        } else if color[next as int] == WHITE {
            match search_from(g, color, path, next, fuel) {
                Search::Found(c) => Search::Found(c),
                Search::Done(c2) => search_succ(g, c2, path, node, k + 1, fuel),
            }
        } else {
            search_succ(g, color, path, node, k + 1, fuel)
        }
    }
}

/// One step of `search_from`.
pub proof fn lemma_search_from(g: Seq<Seq<usize>>, color: Seq<u8>, path: Seq<usize>, node: usize, fuel: nat)
    requires
        fuel > 0,
    ensures
        search_from(g, color, path, node, fuel) == search_succ(
            g,
            color.update(node as int, GRAY),
            path.push(node),
            node,
            0,
            (fuel - 1) as nat,
        ),
{
    reveal(search_from);
    reveal(search_succ);
}

/// One step of `search_succ`.
pub proof fn lemma_search_succ(
    g: Seq<Seq<usize>>,
    color: Seq<u8>,
    path: Seq<usize>,
    node: usize,
    k: int,
    fuel: nat,
)
    ensures
        (k < 0 || k >= g[node as int].len()) ==> search_succ(g, color, path, node, k, fuel) == Search::Done(
            color.update(node as int, BLACK),
        ),
        (0 <= k < g[node as int].len() && color[g[node as int][k] as int] == GRAY) ==> search_succ(
            g,
            color,
            path,
            node,
            k,
            fuel,
        ) == Search::Found(cycle_of(path, g[node as int][k])),
        (0 <= k < g[node as int].len() && color[g[node as int][k] as int] == WHITE) ==> search_succ(
            g,
            color,
            path,
            node,
            k,
            fuel,
        ) == match search_from(g, color, path, g[node as int][k], fuel) {
            Search::Found(c) => Search::Found(c),
            Search::Done(c2) => search_succ(g, c2, path, node, k + 1, fuel),
        },
        (0 <= k < g[node as int].len() && color[g[node as int][k] as int] != WHITE && color[g[node as int][k] as int]
            != GRAY) ==> search_succ(g, color, path, node, k, fuel) == search_succ(g, color, path, node, k + 1, fuel),
{
    reveal(search_succ);
    reveal(search_from);
}

/// The search over all `n` signals in id order, from each one still white.
pub open spec fn search_all(g: Seq<Seq<usize>>, color: Seq<u8>, i: int, n: int, fuel: nat) -> Search
    decreases n - i,
{
    if i < 0 || i >= n {
        Search::Done(color)
    } else if color[i] == WHITE {
        match search_from(g, color, Seq::empty(), i as usize, fuel) {
            Search::Found(c) => Search::Found(c),
            Search::Done(c2) => search_all(g, c2, i + 1, n, fuel),
        }
    } else {
        search_all(g, color, i + 1, n, fuel)
    }
}

/// `v` is in the list of `u`.
pub open spec fn sadj(g: Seq<Seq<usize>>, u: int, v: int) -> bool {
    0 <= u < g.len() && g[u].contains(v as usize)
}

/// `c` is a cycle of the lists `g`.
pub open spec fn is_list_cycle(g: Seq<Seq<usize>>, c: Seq<usize>) -> bool {
    &&& c.len() >= 2
    &&& c[0] == c.last()
    &&& forall|i: int| 0 <= i < c.len() - 1 ==> sadj(g, #[trigger] c[i] as int, c[i + 1] as int)
}

/// Every entry of the lists is below their number.
pub open spec fn lists_closed(g: Seq<Seq<usize>>) -> bool {
    forall|u: int, k: int| 0 <= u < g.len() && 0 <= k < g[u].len() ==> #[trigger] g[u][k] < g.len()
}

/// The search state: `path` follows the lists, every gray signal is on it.
pub open spec fn search_ok(g: Seq<Seq<usize>>, color: Seq<u8>, path: Seq<usize>) -> bool {
    &&& lists_closed(g)
    &&& color.len() == g.len()
    &&& forall|i: int| 0 <= i < path.len() - 1 ==> sadj(g, #[trigger] path[i] as int, path[i + 1] as int)
    &&& forall|v: int| 0 <= v < color.len() && #[trigger] color[v] == GRAY ==> path.contains(v as usize)
}

/// Colors `c2` have no gray signal that `c1` does not have.
pub open spec fn grays_within(c1: Seq<u8>, c2: Seq<u8>) -> bool {
    &&& c2.len() == c1.len()
    &&& forall|v: int| 0 <= v < c2.len() && #[trigger] c2[v] == GRAY ==> c1[v] == GRAY
}

proof fn lemma_search_from_sound(g: Seq<Seq<usize>>, color: Seq<u8>, path: Seq<usize>, node: usize, fuel: nat)
    requires
        search_ok(g, color, path),
        node < g.len(),
        color[node as int] != GRAY,
        path.len() > 0 ==> sadj(g, path.last() as int, node as int),
    ensures
        match search_from(g, color, path, node, fuel) {
            Search::Found(c) => is_list_cycle(g, c),
            Search::Done(c2) => grays_within(color, c2),
        },
    decreases fuel, 0int,
{
    if fuel > 0 {
        lemma_search_from(g, color, path, node, fuel);
        let c1 = color.update(node as int, GRAY);
        let p1 = path.push(node);
        assert forall|i: int| 0 <= i < p1.len() - 1 implies sadj(g, #[trigger] p1[i] as int, p1[i + 1] as int) by {
            if i < path.len() - 1 {
                assert(p1[i] == path[i] && p1[i + 1] == path[i + 1]);
            } else {
                assert(p1[i] == path.last());
            }
        }
        assert forall|v: int| 0 <= v < c1.len() && #[trigger] c1[v] == GRAY implies p1.contains(v as usize) by {
            lemma_push_contains(path, node, v as usize);
            if v != node {
                assert(color[v] == GRAY);
            }
        }
        lemma_push_contains(path, node, node);
        assert(p1.last() == node);
        lemma_search_succ_sound(g, c1, p1, node, 0, (fuel - 1) as nat);
    } else {
        reveal(search_from);
    }
}

proof fn lemma_search_succ_sound(
    g: Seq<Seq<usize>>,
    color: Seq<u8>,
    path: Seq<usize>,
    node: usize,
    k: int,
    fuel: nat,
)
    requires
        search_ok(g, color, path),
        node < g.len(),
        path.len() > 0,
        path.last() == node,
    ensures
        match search_succ(g, color, path, node, k, fuel) {
            Search::Found(c) => is_list_cycle(g, c),
            Search::Done(c2) => grays_within(color, c2) && forall|v: int|
                0 <= v < c2.len() && #[trigger] c2[v] == GRAY ==> v != node,
        },
    decreases fuel, g[node as int].len() - k + 1,
{
    lemma_search_succ(g, color, path, node, k, fuel);
    if 0 <= k < g[node as int].len() {
        let next = g[node as int][k];
        assert(next < g.len());
        assert(g[node as int].contains(next));
        assert(sadj(g, node as int, next as int));
        if color[next as int] == GRAY {
            assert(path.contains(next));
            let w = path.index_of(next);
            assert(0 <= w < path.len() && path[w] == next);
            let c = cycle_of(path, next);
            assert(c == path.subrange(w, path.len() as int).push(next));
            assert forall|i: int| 0 <= i < c.len() - 1 implies sadj(g, #[trigger] c[i] as int, c[i + 1] as int) by {
                if i < c.len() - 2 {
                    assert(c[i] == path[w + i] && c[i + 1] == path[w + i + 1]);
                } else {
                    assert(c[i] == path.last());
                }
            }
        } else if color[next as int] == WHITE {
            lemma_search_from_sound(g, color, path, next, fuel);
            match search_from(g, color, path, next, fuel) {
                Search::Found(c) => {},
                Search::Done(c2) => {
                    assert forall|v: int| 0 <= v < c2.len() && #[trigger] c2[v] == GRAY implies path.contains(
                        v as usize,
                    ) by {
                        assert(color[v] == GRAY);
                    }
                    lemma_search_succ_sound(g, c2, path, node, k + 1, fuel);
                },
            }
        } else {
            lemma_search_succ_sound(g, color, path, node, k + 1, fuel);
        }
    }
}

/// Every cycle the search over all signals reports is a cycle of the lists.
pub proof fn lemma_search_all_sound(g: Seq<Seq<usize>>, color: Seq<u8>, i: int, n: int, fuel: nat)
    requires
        lists_closed(g),
        color.len() == g.len(),
        n == g.len(),
        forall|v: int| 0 <= v < color.len() ==> #[trigger] color[v] != GRAY,
    ensures
        search_all(g, color, i, n, fuel) matches Search::Found(c) ==> is_list_cycle(g, c),
    decreases n - i,
{
    if 0 <= i < n {
        if color[i] == WHITE {
            assert(search_ok(g, color, Seq::empty()));
            lemma_search_from_sound(g, color, Seq::empty(), i as usize, fuel);
            match search_from(g, color, Seq::empty(), i as usize, fuel) {
                Search::Found(c) => {},
                Search::Done(c2) => {
                    lemma_search_all_sound(g, c2, i + 1, n, fuel);
                },
            }
        } else {
            lemma_search_all_sound(g, color, i + 1, n, fuel);
        }
    }
}

/// The cycle that the search over the dependency graph of a scope with `n`
/// signals finds first, if any.
pub open spec fn first_cycle(stmts: Seq<SRStmt>, n: int) -> Search {
    search_all(
        dep_graph(stmts, n, stmts.len() as int),
        Seq::new(n as nat, |v: int| WHITE),
        0,
        n,
        (n + 1) as nat,
    )
}

proof fn lemma_count_white_len(c: Seq<u8>)
    ensures
        count_white(c) <= c.len(),
    decreases c.len(),
{
    if c.len() > 0 {
        lemma_count_white_len(c.drop_last());
    }
}

/// The cycle closed by an edge from the end of the search path back to
/// `next`, which is on the path.
fn cycle_from_path(deps: &Vec<Vec<usize>>, path: &Vec<usize>, next: usize) -> (cyc: Vec<usize>)
    requires
        path_ok(deps@, path@),
        path@.contains(next),
        path@.len() > 0,
        adj(deps@, path@.last() as int, next as int),
    ensures
        is_adj_cycle(deps@, cyc@),
        cyc@ == cycle_of(path@, next),
{
    let ghost w = choose|w: int| 0 <= w < path@.len() && path@[w] == next;
    let mut j: usize = 0;
    while j < path.len() && path[j] != next
        invariant
            j <= path@.len(),
            0 <= w < path@.len(),
            path@[w] == next,
            forall|jj: int| 0 <= jj < j ==> path@[jj] != next,
        decreases path@.len() - j,
    {
        j += 1;
    }
    assert(j < path@.len());
    assert(j == path@.index_of(next)) by {
        let w2 = path@.index_of(next);
        assert(path@[w2] == next);
    }
    let mut cyc: Vec<usize> = Vec::new();
    let mut i = j;
    while i < path.len()
        invariant
            j <= i <= path@.len(),
            cyc@ == path@.subrange(j as int, i as int),
        decreases path@.len() - i,
    {
        cyc.push(path[i]);
        i += 1;
        assert(cyc@ =~= path@.subrange(j as int, i as int));
    }
    cyc.push(next);
    proof {
        assert forall|x: int| 0 <= x < cyc@.len() - 1 implies adj(deps@, #[trigger] cyc@[x] as int, cyc@[x + 1] as int) by {
            if x + 1 < cyc@.len() - 1 {
                assert(cyc@[x] == path@[j + x] && cyc@[x + 1] == path@[j + x + 1]);
            } else {
                assert(cyc@[x] == path@.last());
            }
        }
    }
    cyc
}

/// Marking a white signal gray and pushing it on the path keeps the colors
/// in step with the path.
proof fn lemma_enter(
    deps: Seq<Vec<usize>>,
    c0: Seq<u8>,
    c1: Seq<u8>,
    p0: Seq<usize>,
    order: Seq<usize>,
    node: usize,
    n: int,
)
    requires
        colors_ok(c0, p0, order, n),
        path_ok(deps, p0),
        node < n,
        c0[node as int] == WHITE,
        c1 == c0.update(node as int, GRAY),
        p0.len() > 0 ==> adj(deps, p0.last() as int, node as int),
    ensures
        colors_ok(c1, p0.push(node), order, n),
        path_ok(deps, p0.push(node)),
        whiter(c0, c1),
{
    let p1 = p0.push(node);
    assert(!p0.contains(node));
    assert forall|v: usize| v < n implies (#[trigger] c1[v as int] == GRAY <==> p1.contains(v)) by {
        lemma_push_contains(p0, node, v);
        if v != node {
            assert(c1[v as int] == c0[v as int]);
        }
    }
    assert forall|v: usize| v < n implies (#[trigger] c1[v as int] == BLACK <==> order.contains(v)) by {
        if v != node {
            assert(c1[v as int] == c0[v as int]);
        }
    }
    assert forall|v: usize| v < n implies #[trigger] c1[v as int] <= BLACK by {
        if v != node {
            assert(c1[v as int] == c0[v as int]);
        }
    }
    assert forall|i: int| 0 <= i < p1.len() implies #[trigger] p1[i] < n by {
        if i < p0.len() {
            assert(p1[i] == p0[i]);
        }
    }
    assert(p1.no_duplicates()) by {
        assert forall|i: int, j: int| 0 <= i < p1.len() && 0 <= j < p1.len() && i != j implies p1[i] != p1[j] by {
            if i < p0.len() && j < p0.len() {
                assert(p1[i] == p0[i] && p1[j] == p0[j]);
            } else if i < p0.len() {
                assert(p1[i] == p0[i]);
            } else if j < p0.len() {
                assert(p1[j] == p0[j]);
            }
        }
    }
    assert forall|i: int| 0 <= i < p1.len() - 1 implies adj(deps, #[trigger] p1[i] as int, p1[i + 1] as int) by {
        if i < p0.len() - 1 {
            assert(p1[i] == p0[i] && p1[i + 1] == p0[i + 1]);
        } else {
            assert(p1[i] == p0.last());
        }
    }
    assert(whiter(c0, c1)) by {
        assert forall|v: int| 0 <= v < c0.len() && #[trigger] c1[v] == WHITE implies c0[v] == WHITE by {
            if v != node {
                assert(c1[v] == c0[v]);
            }
        }
    }
}

/// Marking the path's last signal black and moving it to the finishing order,
/// once all its successors are black, keeps the invariants.
proof fn lemma_leave(
    deps: Seq<Vec<usize>>,
    c1: Seq<u8>,
    c2: Seq<u8>,
    p0: Seq<usize>,
    ord: Seq<usize>,
    node: usize,
    n: int,
)
    requires
        deps_wf(deps, n),
        colors_ok(c1, p0.push(node), ord, n),
        p0.push(node).no_duplicates(),
        closed(deps, ord),
        node < n,
        c2 == c1.update(node as int, BLACK),
        forall|k: int| 0 <= k < deps[node as int]@.len() ==> #[trigger] c1[deps[node as int]@[k] as int] == BLACK,
    ensures
        colors_ok(c2, p0, ord.push(node), n),
        closed(deps, ord.push(node)),
{
    let p1 = p0.push(node);
    let o2 = ord.push(node);
    lemma_push_contains(p0, node, node);
    assert(c1[node as int] == GRAY);
    assert(!ord.contains(node));
    assert(!p0.contains(node)) by {
        if p0.contains(node) {
            let w = choose|w: int| 0 <= w < p0.len() && p0[w] == node;
            assert(p1[w] == p0[w]);
            assert(p1[w] == p1[p0.len() as int]);
        }
    }
    assert forall|v: usize| v < n implies (#[trigger] c2[v as int] == GRAY <==> p0.contains(v)) by {
        lemma_push_contains(p0, node, v);
        if v != node {
            assert(c2[v as int] == c1[v as int]);
        }
    }
    assert forall|v: usize| v < n implies (#[trigger] c2[v as int] == BLACK <==> o2.contains(v)) by {
        lemma_push_contains(ord, node, v);
        if v != node {
            assert(c2[v as int] == c1[v as int]);
        }
    }
    assert forall|v: usize| v < n implies #[trigger] c2[v as int] <= BLACK by {
        if v != node {
            assert(c2[v as int] == c1[v as int]);
        }
    }
    assert forall|i: int| 0 <= i < p0.len() implies #[trigger] p0[i] < n by {
        assert(p1[i] == p0[i]);
    }
    assert forall|i: int| 0 <= i < o2.len() implies #[trigger] o2[i] < n by {
        if i < ord.len() {
            assert(o2[i] == ord[i]);
        }
    }
    assert(o2.no_duplicates()) by {
        assert forall|i: int, j: int| 0 <= i < o2.len() && 0 <= j < o2.len() && i != j implies o2[i] != o2[j] by {
            if i < ord.len() && j < ord.len() {
                assert(o2[i] == ord[i] && o2[j] == ord[j]);
            } else if i < ord.len() {
                assert(o2[i] == ord[i]);
            } else if j < ord.len() {
                assert(o2[j] == ord[j]);
            }
        }
    }
    assert forall|i: int, v: usize|
        #![trigger o2[i], adj(deps, o2[i] as int, v as int)]
        0 <= i < o2.len() && adj(deps, o2[i] as int, v as int) implies exists|j: int|
            0 <= j < i && #[trigger] o2[j] == v by {
        if i < ord.len() {
            assert(o2[i] == ord[i]);
            assert(adj(deps, ord[i] as int, v as int));
            let j = choose|j: int| 0 <= j < i && #[trigger] ord[j] == v;
            assert(o2[j] == ord[j]);
        } else {
            let d = deps[node as int]@;
            let kk = choose|kk: int| 0 <= kk < d.len() && #[trigger] d[kk] == v;
            assert(c1[d[kk] as int] == BLACK);
            assert(d[kk] < n);
            assert(ord.contains(v));
            let j = choose|j: int| 0 <= j < ord.len() && #[trigger] ord[j] == v;
            assert(o2[j] == ord[j]);
        }
    }
}

#[verifier::rlimit(100)]
/// A search from `node`: marks every signal reachable from it black (adding
/// them to the finishing order), or returns a cycle.
fn dfs_visit(
    node: usize,
    deps: &Vec<Vec<usize>>,
    color: &mut Vec<u8>,
    path: &mut Vec<usize>,
    Ghost(order): Ghost<Seq<usize>>,
    Ghost(fuel): Ghost<nat>,
) -> (r: (Result<(), Vec<usize>>, Ghost<Seq<usize>>))
    requires
        count_white(old(color)@) < fuel,
        deps_wf(deps@, old(color)@.len() as int),
        node < old(color)@.len(),
        old(color)@[node as int] == WHITE,
        colors_ok(old(color)@, old(path)@, order, old(color)@.len() as int),
        path_ok(deps@, old(path)@),
        closed(deps@, order),
        old(path)@.len() > 0 ==> adj(deps@, old(path)@.last() as int, node as int),
    ensures
        match r.0 {
            Ok(()) => {
                &&& colors_ok(final(color)@, final(path)@, r.1@, old(color)@.len() as int)
                &&& closed(deps@, r.1@)
                &&& final(path)@ == old(path)@
                &&& order.len() <= r.1@.len()
                &&& r.1@.take(order.len() as int) == order
                &&& final(color)@[node as int] == BLACK
                &&& whiter(old(color)@, final(color)@)
            },
            Err(c) => is_adj_cycle(deps@, c@),
        },
        match search_from(gview(deps@), old(color)@, old(path)@, node, fuel) {
            Search::Done(c) => r.0 is Ok && final(color)@ == c,
            Search::Found(cy) => r.0 matches Err(x) && x@ == cy,
        },
    decreases count_white(old(color)@),
{
    let ghost n = color@.len() as int;
    let ghost c0 = color@;
    let ghost p0 = path@;
    color.set(node, GRAY);
    path.push(node);
    proof {
        lemma_enter(deps@, c0, color@, p0, order, node, n);
    }
    let ghost mut ord = order;
    let ghost g = gview(deps@);
    let succ = &deps[node];
    let mut k: usize = 0;
    proof {
        assert(c0[node as int] == WHITE && color@[node as int] != WHITE);
        lemma_count_white(c0, color@);
        lemma_search_from(g, c0, p0, node, fuel);
    }
    while k < succ.len()
        invariant
            g == gview(deps@),
            count_white(color@) + 1 < fuel,
            search_from(g, c0, p0, node, fuel) == search_succ(g, color@, path@, node, k as int, (fuel - 1) as nat),
            p0 == old(path)@,
            n == color@.len(),
            deps_wf(deps@, n),
            node < n,
            succ == deps@[node as int],
            k <= succ@.len(),
            colors_ok(color@, path@, ord, n),
            path_ok(deps@, path@),
            closed(deps@, ord),
            path@ == p0.push(node),
            order.len() <= ord.len(),
            ord.take(order.len() as int) == order,
            whiter(c0, color@),
            c0 == old(color)@,
            c0[node as int] == WHITE,
            forall|kk: int| 0 <= kk < k ==> #[trigger] color@[succ@[kk] as int] == BLACK,
        decreases succ@.len() - k,
    {
        let next = succ[k];
        assert(next < n);
        proof {
            lemma_push_contains(p0, node, node);
            assert(g[node as int] == succ@);
            assert(g[node as int][k as int] == next);
            lemma_search_succ(g, color@, path@, node, k as int, (fuel - 1) as nat);
        }
        assert(color@[node as int] == GRAY);
        if color[next] == GRAY {
            assert(deps@[node as int]@[k as int] == next);
            let cyc = cycle_from_path(deps, path, next);
            assert(search_succ(g, color@, path@, node, k as int, (fuel - 1) as nat) == Search::Found(cyc@));
            return (Err(cyc), Ghost(ord));
        }
        if color[next] == WHITE {
            proof {
                assert(c0[node as int] == WHITE && color@[node as int] != WHITE);
                lemma_count_white(c0, color@);
            }
            let ghost c_before = color@;
            let ghost p_before = path@;
            let ghost ord_before = ord;
            let (res, Ghost(ord2)) = dfs_visit(next, deps, color, path, Ghost(ord), Ghost((fuel - 1) as nat));
            match res {
                Err(c) => {
                    assert(search_succ(g, c_before, p_before, node, k as int, (fuel - 1) as nat) == Search::Found(c@));
                    return (Err(c), Ghost(ord2));
                },
                Ok(()) => {
                    proof {
                        lemma_count_white(c_before, color@);
                        assert(ord2.take(order.len() as int) =~= ord_before.take(order.len() as int)) by {
                            assert forall|x: int| 0 <= x < order.len() implies ord2[x] == ord_before[x] by {
                                assert(ord2.take(ord_before.len() as int)[x] == ord2[x]);
                            }
                        }
                        assert forall|kk: int| 0 <= kk < k implies #[trigger] color@[succ@[kk] as int] == BLACK by {
                            let x = succ@[kk];
                            assert(x < n);
                            assert(c_before[x as int] == BLACK);
                            assert(ord_before.contains(x));
                            let w = choose|w: int| 0 <= w < ord_before.len() && ord_before[w] == x;
                            assert(ord2[w] == ord_before[w]) by {
                                assert(ord2.take(ord_before.len() as int)[w] == ord2[w]);
                            }
                        }
                        assert(whiter(c0, color@));
                        ord = ord2;
                    }
                },
            }
        }
        assert(color@[next as int] == BLACK);
        k += 1;
    }
    let ghost ord_before = ord;
    let ghost c1 = color@;
    proof {
        lemma_search_succ(g, color@, path@, node, k as int, (fuel - 1) as nat);
    }
    path.pop();
    color.set(node, BLACK);
    proof {
        assert(path@ =~= p0);
        lemma_leave(deps@, c1, color@, p0, ord_before, node, n);
        ord = ord_before.push(node);
        assert(ord.take(order.len() as int) =~= ord_before.take(order.len() as int));
        assert(whiter(c0, color@)) by {
            assert forall|v: int| 0 <= v < c0.len() && #[trigger] color@[v] == WHITE implies c0[v] == WHITE by {
                if v != node {
                    assert(color@[v] == c1[v]);
                }
            }
        }
    }
    (Ok(()), Ghost(ord))
}

/// With every signal finished and the order closed, there is no cycle.
proof fn lemma_finished_acyclic(deps: Seq<Vec<usize>>, order: Seq<usize>, c: Seq<usize>, k: int)
    requires
        closed(deps, order),
        order.no_duplicates(),
        is_adj_cycle(deps, c),
        forall|i: int| 0 <= i < c.len() ==> order.contains(#[trigger] c[i]),
        1 <= k < c.len(),
    ensures
        order.index_of(c[k]) < order.index_of(c[0]),
    decreases k,
{
    let u = c[k - 1];
    let v = c[k];
    assert(adj(deps, u as int, v as int));
    assert(order.contains(u));
    let iu = order.index_of(u);
    assert(order[iu] == u);
    let j = choose|j: int| 0 <= j < iu && #[trigger] order[j] == v;
    assert(order.index_of(v) == j) by {
        let iv = order.index_of(v);
        assert(order[iv] == v);
    }
    if k > 1 {
        lemma_finished_acyclic(deps, order, c, k - 1);
    }
}

/// The names of the signals of a cycle, in order.
fn cycle_names(cyc: &Vec<usize>, signals: &Vec<ResolvedSignal>) -> (names: Vec<String>)
    requires
        forall|i: int| 0 <= i < cyc@.len() ==> #[trigger] cyc@[i] < signals@.len(),
    ensures
        names@.len() == cyc@.len(),
        forall|i: int| 0 <= i < cyc@.len() ==> #[trigger] names@[i]@ == signals@[cyc@[i] as int].name@,
{
    let mut names: Vec<String> = Vec::new();
    let mut i: usize = 0;
    while i < cyc.len()
        invariant
            i <= cyc@.len(),
            names@.len() == i,
            forall|x: int| 0 <= x < cyc@.len() ==> #[trigger] cyc@[x] < signals@.len(),
            forall|x: int| 0 <= x < i ==> #[trigger] names@[x]@ == signals@[cyc@[x] as int].name@,
        decreases cyc@.len() - i,
    {
        names.push(signals[cyc[i]].name.clone());
        i += 1;
    }
    names
}

/// The text of a combinational-loop error, naming the first two signals of
/// the cycle and the last one before it closes.
pub open spec fn loop_text(names: Seq<Seq<char>>) -> Seq<char> {
    "組合せループを検出: "@ + names[0] + " → "@ + names[1] + " → ... → "@ + names[names.len() - 2]
        + " の循環があります"@
}

fn loop_message(names: &Vec<String>) -> (m: String)
    requires
        names@.len() >= 2,
    ensures
        m@ == loop_text(names@.map_values(|s: String| s@)),
{
    let n = names.len();
    let m = String::from_str("組合せループを検出: ").concat(names[0].as_str()).concat(" → ").concat(
        names[1].as_str(),
    ).concat(" → ... → ").concat(names[n - 2].as_str()).concat(" の循環があります");
    m
}

/// Whether the combinational assignments of a scope form a cycle: `Ok`
/// exactly when they do not; otherwise the error names the signals of a cycle.
pub fn check_combinational_loops(stmts: &Vec<ResolvedStmt>, signals: &Vec<ResolvedSignal>) -> (r: Result<(), ElabError>)
    requires
        stmts_below(stmts_of(stmts@), signals@.len() as int),
    ensures
        r is Ok <==> comb_acyclic(stmts_of(stmts@), signals@.len() as int),
        r matches Err(e) ==> e.wf(),
        r matches Err(e) ==> e.kind matches ElabErrorKind::CombinationalLoop { cycle } && exists|c: Seq<int>|
            {
                &&& is_comb_cycle(stmts_of(stmts@), signals@.len() as int, c)
                &&& cycle@.len() == c.len()
                &&& forall|i: int| 0 <= i < c.len() ==> #[trigger] cycle@[i]@ == signals@[c[i]].name@
            },
        match first_cycle(stmts_of(stmts@), signals@.len() as int) {
            Search::Done(_) => r is Ok,
            Search::Found(c) => r matches Err(e) && e.kind matches ElabErrorKind::CombinationalLoop { cycle }
                && cycle@.len() == c.len() && forall|i: int|
                0 <= i < c.len() ==> #[trigger] c[i] < signals@.len() && cycle@[i]@ == signals@[c[i] as int].name@,
        },
{
    let ghost sv = stmts_of(stmts@);
    let n = signals.len();
    let deps = build_combinational_deps(stmts, n);
    let mut color: Vec<u8> = Vec::new();
    let mut i: usize = 0;
    while i < n
        invariant
            i <= n,
            color@.len() == i,
            forall|v: int| 0 <= v < i ==> #[trigger] color@[v] == WHITE,
        decreases n - i,
    {
        color.push(WHITE);
        i += 1;
    }
    let mut path: Vec<usize> = Vec::new();
    let ghost mut order: Seq<usize> = Seq::empty();
    let ghost g = gview(deps@);
    proof {
        assert(color@ =~= Seq::new(n as nat, |v: int| WHITE));
        lemma_count_white_len(color@);
    }
    let mut u: usize = 0;
    while u < n
        invariant
            g == gview(deps@),
            g == dep_graph(sv, n as int, sv.len() as int),
            first_cycle(sv, n as int) == search_all(g, color@, u as int, n as int, (n + 1) as nat),
            count_white(color@) <= n,
            deps_match(deps@, sv, n as int),
            deps_wf(deps@, n as int),
            sv == stmts_of(stmts@),
            n == signals@.len(),
            u <= n,
            colors_ok(color@, path@, order, n as int),
            path@.len() == 0,
            closed(deps@, order),
            forall|v: int| 0 <= v < u ==> #[trigger] color@[v] != WHITE,
        decreases n - u,
    {
        if color[u] == WHITE {
            assert(path@ =~= Seq::<usize>::empty());
            let ghost c_before = color@;
            let (res, Ghost(ord2)) = dfs_visit(u, &deps, &mut color, &mut path, Ghost(order), Ghost((n + 1) as nat));
            match res {
                Err(cyc) => {
                    let ghost c = cyc@.map_values(|x: usize| x as int);
                    proof {
                        assert(forall|x: int| 0 <= x < cyc@.len() ==> #[trigger] cyc@[x] < n) by {
                            assert forall|x: int| 0 <= x < cyc@.len() implies #[trigger] cyc@[x] < n by {
                                if x < cyc@.len() - 1 {
                                    assert(adj(deps@, cyc@[x] as int, cyc@[x + 1] as int));
                                } else {
                                    assert(adj(deps@, cyc@[x - 1] as int, cyc@[x] as int));
                                    let d = deps@[cyc@[x - 1] as int]@;
                                    let kk = choose|kk: int| 0 <= kk < d.len() && #[trigger] d[kk] == cyc@[x];
                                    assert(d[kk] < n);
                                }
                            }
                        }
                        assert forall|x: int| 0 <= x < c.len() - 1 implies comb_edge(sv, #[trigger] c[x], c[x + 1]) by {
                            assert(adj(deps@, cyc@[x] as int, cyc@[x + 1] as int));
                        }
                        assert(is_comb_cycle(sv, n as int, c));
                    }
                    let names = cycle_names(&cyc, signals);
                    let message = loop_message(&names);
                    return Err(ElabError { kind: ElabErrorKind::CombinationalLoop { cycle: names }, message });
                },
                Ok(()) => {
                    proof {
                        order = ord2;
                        lemma_count_white_len(color@);
                    }
                },
            }
        }
        assert(color@[u as int] != WHITE);
        u += 1;
    }
    proof {
        assert forall|c: Seq<int>| !is_comb_cycle(sv, n as int, c) by {
            if is_comb_cycle(sv, n as int, c) {
                let cu = c.map_values(|x: int| x as usize);
                assert forall|x: int| 0 <= x < cu.len() - 1 implies adj(deps@, #[trigger] cu[x] as int, cu[x + 1] as int) by {
                    assert(comb_edge(sv, c[x], c[x + 1]));
                }
                assert forall|x: int| 0 <= x < cu.len() implies order.contains(#[trigger] cu[x]) by {
                    assert(color@[cu[x] as int] != WHITE);
                    assert(!path@.contains(cu[x]));
                }
                lemma_finished_acyclic(deps@, order, cu, cu.len() - 1);
            }
        }
    }
    Ok(())
}

} // verus!
