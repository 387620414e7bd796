//! ZX graphs of the `quizx` crate, as far as this library reads and
//! rewrites them.
//!
//! Nothing here is proved: each function hands its arguments to `quizx`,
//! and its contract states what the source of `quizx::hash_graph` shows of
//! the call.

use quizx::graph::{GraphLike, VType};
use quizx::hash_graph::Graph;
use vstd::prelude::*;

verus! {

/// `quizx::hash_graph::Graph`, of which nothing is known but what the
/// functions below say.
#[verifier::external_type_specification]
#[verifier::external_body]
pub struct ExGraph(Graph);

/// The kind of a vertex, as far as this library tells vertices apart: an X
/// spider, a Z spider, a boundary vertex, or anything else.
#[derive(Debug, Clone, Copy, PartialEq, Eq, Structural)]
pub enum VKind {
    X,
    Z,
    Boundary,
    Other,
}

/// The vertices of a graph, each with its kind: `X` for the type `X`, `Z`
/// for `Z`, `Boundary` for `B`, and `Other` for every other type.
pub uninterp spec fn graph_vertices(g: Graph) -> Map<usize, VKind>;

/// The adjacency of a graph: the pairs `(s, t)` such that `t` is stored as
/// a neighbour of `s`.
pub uninterp spec fn graph_edges(g: Graph) -> Set<(usize, usize)>;

/// The index that the next new vertex of a graph gets.
pub uninterp spec fn graph_next(g: Graph) -> usize;

/// `GraphLike::vertex_vec`: the vertices of the graph, each once, in no
/// order that could be relied on.
#[verifier::external_body]
pub(crate) fn vertex_list(g: &Graph) -> (vs: Vec<usize>)
    ensures
        vs@.no_duplicates(),
        forall|v: usize| vs@.contains(v) <==> graph_vertices(*g).contains_key(v),
{
    g.vertex_vec()
}

/// `GraphLike::vertex_type_opt`: the kind of `v`, or `None` where `v` is no
/// vertex of the graph.
#[verifier::external_body]
pub(crate) fn vertex_kind(g: &Graph, v: usize) -> (r: Option<VKind>)
    ensures
        r == if graph_vertices(*g).contains_key(v) {
            Some(graph_vertices(*g)[v])
        } else {
            None
        },
{
    match g.vertex_type_opt(v) {
        None => None,
        Some(VType::X) => Some(VKind::X),
        Some(VType::Z) => Some(VKind::Z),
        Some(VType::B) => Some(VKind::Boundary),
        Some(VType::H) => Some(VKind::Other),
        Some(VType::WInput) => Some(VKind::Other),
        Some(VType::WOutput) => Some(VKind::Other),
        Some(VType::ZBox) => Some(VKind::Other),
    }
}

/// `GraphLike::neighbor_vec`: the neighbours stored for `v`, each once, in
/// no order that could be relied on. It panics where `v` is no vertex.
#[verifier::external_body]
pub(crate) fn neighbor_list(g: &Graph, v: usize) -> (ns: Vec<usize>)
    requires
        graph_vertices(*g).contains_key(v),
    ensures
        ns@.no_duplicates(),
        forall|n: usize| ns@.contains(n) <==> graph_edges(*g).contains((v, n)),
{
    g.neighbor_vec(v)
}

/// `GraphLike::connected`: whether `b` is stored as a neighbour of `a`.
#[verifier::external_body]
pub(crate) fn connected(g: &Graph, a: usize, b: usize) -> (r: bool)
    ensures
        r == graph_edges(*g).contains((a, b)),
{
    g.connected(a, b)
}

/// `GraphLike::vindex`: the index that the next new vertex gets.
#[verifier::external_body]
pub(crate) fn next_vertex(g: &Graph) -> (v: usize)
    ensures
        v == graph_next(*g),
{
    g.vindex()
}

/// `GraphLike::add_vertex`: adds a vertex of the kind `kind`, with the
/// type `H` for `Other`, under the next index, with an empty list of
/// neighbours, and returns the index. The next index grows by one, which
/// overflows at `usize::MAX`.
#[verifier::external_body]
pub(crate) fn add_vertex(g: &mut Graph, kind: VKind) -> (v: usize)
    requires
        graph_next(*old(g)) < usize::MAX,
    ensures
        v == graph_next(*old(g)),
        graph_next(*final(g)) == v + 1,
        graph_vertices(*final(g)) == graph_vertices(*old(g)).insert(v, kind),
        graph_edges(*final(g)) == Set::new(
            |e: (usize, usize)| graph_edges(*old(g)).contains(e) && e.0 != v,
        ),
{
    g.add_vertex(
        match kind {
            VKind::X => VType::X,
            VKind::Z => VType::Z,
            VKind::Boundary => VType::B,
            VKind::Other => VType::H,
        },
    )
}

/// `GraphLike::add_edge`: stores `t` as a neighbour of `s` and `s` as a
/// neighbour of `t`. It panics where `s` or `t` is no vertex, and `quizx`
/// leaves open what it does where the two are connected already.
#[verifier::external_body]
pub(crate) fn add_edge(g: &mut Graph, s: usize, t: usize)
    requires
        graph_vertices(*old(g)).contains_key(s),
        graph_vertices(*old(g)).contains_key(t),
        s != t,
        !graph_edges(*old(g)).contains((s, t)),
        !graph_edges(*old(g)).contains((t, s)),
    ensures
        graph_next(*final(g)) == graph_next(*old(g)),
        graph_vertices(*final(g)) == graph_vertices(*old(g)),
        graph_edges(*final(g)) == graph_edges(*old(g)).insert((s, t)).insert((t, s)),
{
    g.add_edge(s, t);
}

/// `GraphLike::remove_edge`: removes `t` from the neighbours of `s` and `s`
/// from the neighbours of `t`. `quizx` leaves open what it does where there
/// is no edge between the two.
#[verifier::external_body]
pub(crate) fn remove_edge(g: &mut Graph, s: usize, t: usize)
    requires
        graph_edges(*old(g)).contains((s, t)),
        graph_edges(*old(g)).contains((t, s)),
    ensures
        graph_next(*final(g)) == graph_next(*old(g)),
        graph_vertices(*final(g)) == graph_vertices(*old(g)),
        graph_edges(*final(g)) == graph_edges(*old(g)).remove((s, t)).remove((t, s)),
{
    g.remove_edge(s, t);
}

} // verus!
