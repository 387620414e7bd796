//! Red-green form: rewriting a ZX graph until no edge joins two spiders of
//! one colour.
//!
//! One rewrite takes the first edge between two spiders of the same colour,
//! removes it, and adds a spider of the other colour that is joined to both
//! endpoints and to every other neighbour either endpoint had. "First" is
//! by the smaller index of the first endpoint, then of the second.

use quizx::hash_graph::Graph;
use vstd::prelude::*;
use crate::zx::{
    add_edge, add_vertex, connected, graph_edges, graph_next, graph_vertices, neighbor_list,
    next_vertex, remove_edge, vertex_kind, vertex_list, VKind,
};

verus! {

/// What this library reads of a graph: its vertices with their kinds, its
/// adjacency, and the index of the next new vertex.
pub struct Diagram {
    pub vertices: Map<usize, VKind>,
    pub edges: Set<(usize, usize)>,
    pub next: usize,
}

/// The diagram that a graph holds.
pub open spec fn diagram(g: Graph) -> Diagram {
    Diagram { vertices: graph_vertices(g), edges: graph_edges(g), next: graph_next(g) }
}

/// `t` is the kind of an X spider or of a Z spider.
pub open spec fn is_spider(t: VKind) -> bool {
    t == VKind::X || t == VKind::Z
}

/// The colour opposite to that of a spider of kind `t`.
pub open spec fn opposite(t: VKind) -> VKind {
    if t == VKind::X {
        VKind::Z
    } else {
        VKind::X
    }
}

/// The diagram is sound: every vertex lies below the next index, and what
/// is stored as a neighbour of a vertex is another vertex that has the
/// first as its neighbour in turn. So there are no loops.
pub open spec fn consistent(d: Diagram) -> bool {
    &&& forall|v: usize| d.vertices.contains_key(v) ==> v < d.next
    &&& forall|a: usize, b: usize|
        d.vertices.contains_key(a) && #[trigger] d.edges.contains((a, b)) ==> {
            &&& d.vertices.contains_key(b)
            &&& d.edges.contains((b, a))
            &&& a != b
        }
}

/// `n` is a neighbour of the spider `u` and a spider of the same colour.
pub open spec fn clashes(d: Diagram, u: usize, n: usize) -> bool {
    &&& d.vertices.contains_key(u)
    &&& d.vertices.contains_key(n)
    &&& d.edges.contains((u, n))
    &&& is_spider(d.vertices[u])
    &&& d.vertices[u] == d.vertices[n]
}

/// The diagram is in red-green form: no two neighbours are spiders of the
/// same colour.
pub open spec fn is_rg(d: Diagram) -> bool {
    forall|u: usize, n: usize| !clashes(d, u, n)
}

/// `(u, n)` is the first clash: no clash has a smaller first vertex, and
/// none with the same first vertex a smaller second.
pub open spec fn first_clash(d: Diagram, u: usize, n: usize) -> bool {
    &&& clashes(d, u, n)
    &&& forall|a: usize, b: usize| #[trigger] clashes(d, a, b) ==> u < a || (u == a && n <= b)
}

/// `x` gets an edge to the spider that replaces the edge between `u` and
/// `n`: it is one of the two or a neighbour of one of them.
pub open spec fn attaches(d: Diagram, u: usize, n: usize, x: usize) -> bool {
    x == u || x == n || d.edges.contains((u, x)) || d.edges.contains((n, x))
}

/// The diagram after the rewrite at the clash `(u, n)`.
pub open spec fn subdivide(d: Diagram, u: usize, n: usize) -> Diagram {
    let w = d.next;
    Diagram {
        vertices: d.vertices.insert(w, opposite(d.vertices[u])),
        edges: Set::new(
            |e: (usize, usize)|
                (d.edges.contains(e) && e != (u, n) && e != (n, u) && e.0 != w) || (e.0 == w
                    && attaches(d, u, n, e.1)) || (e.1 == w && attaches(d, u, n, e.0)),
        ),
        next: (w + 1) as usize,
    }
}

/// Why a graph could not be brought into red-green form.
#[derive(Debug, Clone, Copy, PartialEq, Eq, Structural)]
pub enum RgError {
    /// The graph is not sound: a neighbour is missing, or an edge is stored
    /// at one end only, or a vertex is its own neighbour, or a vertex lies
    /// at or above the next index.
    InconsistentGraph,
    /// The allowed number of rewrites was made and a clash is left.
    IterationCap,
    /// A clash is left and there is no index for another vertex.
    VertexIdsExhausted,
}

/// One rewrite that was made: the spider `vertex` replaced the edge
/// between `from` and `to`.
#[derive(Debug, Clone, Copy, PartialEq, Eq, Structural)]
pub struct Subdivision {
    pub vertex: usize,
    pub from: usize,
    pub to: usize,
}

/// The first clash of a diagram that is not in red-green form.
pub open spec fn next_clash(d: Diagram) -> (usize, usize) {
    choose|c: (usize, usize)| first_clash(d, c.0, c.1)
}

/// The diagram after rewriting at the first clash for as long as there is
/// one, but at most `cap` times and only while there is an index left.
pub open spec fn rg_result(d: Diagram, cap: nat) -> Diagram
    decreases cap,
{
    if is_rg(d) || cap == 0 || d.next == usize::MAX {
        d
    } else {
        rg_result(subdivide(d, next_clash(d).0, next_clash(d).1), (cap - 1) as nat)
    }
}

/// The rewrites that lead to `rg_result`, in the order made.
pub open spec fn rg_trace(d: Diagram, cap: nat) -> Seq<Subdivision>
    decreases cap,
{
    if is_rg(d) || cap == 0 || d.next == usize::MAX {
        Seq::empty()
    } else {
        seq![
            Subdivision { vertex: d.next, from: next_clash(d).0, to: next_clash(d).1 },
        ] + rg_trace(subdivide(d, next_clash(d).0, next_clash(d).1), (cap - 1) as nat)
    }
}

/// Why the rewriting stopped with a clash left, if it did.
pub open spec fn rg_failure(d: Diagram, cap: nat) -> Option<RgError>
    decreases cap,
{
    if is_rg(d) {
        None
    } else if cap == 0 {
        Some(RgError::IterationCap)
    } else if d.next == usize::MAX {
        Some(RgError::VertexIdsExhausted)
    } else {
        rg_failure(subdivide(d, next_clash(d).0, next_clash(d).1), (cap - 1) as nat)
    }
}

/// There is only one first clash.
pub proof fn lemma_first_clash_unique(d: Diagram, u: usize, n: usize)
    requires
        first_clash(d, u, n),
    ensures
        next_clash(d) == (u, n),
        !is_rg(d),
{
    let c = next_clash(d);
    assert(first_clash(d, (u, n).0, (u, n).1));
    assert(first_clash(d, c.0, c.1));
    assert(clashes(d, u, n));
    assert(clashes(d, c.0, c.1));
}

/// Among the clashes with a first vertex up to `a` there is one whose first
/// vertex is least.
proof fn lemma_least_first(d: Diagram, a: usize, b: usize) -> (r: (usize, usize))
    requires
        clashes(d, a, b),
    ensures
        clashes(d, r.0, r.1),
        forall|a2: usize, b2: usize| #[trigger] clashes(d, a2, b2) ==> r.0 <= a2,
    decreases a,
{
    if exists|a2: usize, b2: usize| a2 < a && #[trigger] clashes(d, a2, b2) {
        let (a2, b2) = choose|a2: usize, b2: usize| a2 < a && #[trigger] clashes(d, a2, b2);
        lemma_least_first(d, a2, b2)
    } else {
        (a, b)
    }
}

/// Among the clashes at the vertex `u` there is one whose second vertex is
/// least.
proof fn lemma_least_second(d: Diagram, u: usize, b: usize) -> (n: usize)
    requires
        clashes(d, u, b),
    ensures
        clashes(d, u, n),
        forall|b2: usize| #[trigger] clashes(d, u, b2) ==> n <= b2,
    decreases b,
{
    if exists|b2: usize| b2 < b && #[trigger] clashes(d, u, b2) {
        let b2 = choose|b2: usize| b2 < b && #[trigger] clashes(d, u, b2);
        lemma_least_second(d, u, b2)
    } else {
        b
    }
}

/// A diagram that is not in red-green form has a first clash.
pub proof fn lemma_first_clash_exists(d: Diagram)
    requires
        !is_rg(d),
    ensures
        first_clash(d, next_clash(d).0, next_clash(d).1),
{
    let (a, b) = choose|a: usize, b: usize| clashes(d, a, b);
    let (u, b1) = lemma_least_first(d, a, b);
    let n = lemma_least_second(d, u, b1);
    assert(first_clash(d, u, n));
    lemma_first_clash_unique(d, u, n);
}

/// One rewrite keeps the diagram sound, keeps every vertex with its kind,
/// adds one spider, and keeps every edge but the one it replaces.
pub proof fn lemma_subdivide_keeps(d: Diagram, u: usize, n: usize)
    requires
        consistent(d),
        clashes(d, u, n),
        d.next < usize::MAX,
    ensures
        consistent(subdivide(d, u, n)),
        subdivide(d, u, n).next == d.next + 1,
        forall|v: usize| #[trigger]
            d.vertices.contains_key(v) ==> subdivide(d, u, n).vertices.contains_key(v)
                && subdivide(d, u, n).vertices[v] == d.vertices[v],
        forall|v: usize| #[trigger]
            subdivide(d, u, n).vertices.contains_key(v) && !d.vertices.contains_key(v) ==> v
                == d.next && is_spider(subdivide(d, u, n).vertices[v]),
        forall|a: usize, b: usize|
            d.vertices.contains_key(a) && #[trigger] d.edges.contains((a, b)) && !clashes(d, a, b)
                ==> subdivide(d, u, n).edges.contains((a, b)),
{
    let d2 = subdivide(d, u, n);
    let w = d.next;
    assert(!d.vertices.contains_key(w));
    assert(d.edges.contains((u, n)));
    assert(d.edges.contains((n, u)));
    assert forall|a: usize, b: usize|
        d2.vertices.contains_key(a) && #[trigger] d2.edges.contains((a, b)) implies {
        &&& d2.vertices.contains_key(b)
        &&& d2.edges.contains((b, a))
        &&& a != b
    } by {
        if a != w && b != w {
            assert(d.edges.contains((a, b)));
            assert(d.edges.contains((b, a)));
        } else if a == w {
            assert(attaches(d, u, n, b));
        } else {
            assert(attaches(d, u, n, a));
        }
    }
    assert forall|a: usize, b: usize|
        d.vertices.contains_key(a) && #[trigger] d.edges.contains((a, b)) && !clashes(
            d,
            a,
            b,
        ) implies d2.edges.contains((a, b)) by {
        if (a, b) == (n, u) {
            assert(clashes(d, n, u));
        }
    }
}

/// What the rewriting keeps: the diagram stays sound; every vertex stays,
/// with its kind, so that boundary vertices and boxes are never rewritten;
/// every vertex that is added is a spider; and every edge that joins no two
/// spiders of one colour stays.
pub proof fn lemma_rg_result_keeps(d: Diagram, cap: nat)
    requires
        consistent(d),
    ensures
        consistent(rg_result(d, cap)),
        d.next <= rg_result(d, cap).next,
        forall|v: usize| #[trigger]
            d.vertices.contains_key(v) ==> rg_result(d, cap).vertices.contains_key(v) && rg_result(
                d,
                cap,
            ).vertices[v] == d.vertices[v],
        forall|v: usize| #[trigger]
            rg_result(d, cap).vertices.contains_key(v) && !d.vertices.contains_key(v)
                ==> is_spider(rg_result(d, cap).vertices[v]),
        forall|a: usize, b: usize|
            d.vertices.contains_key(a) && #[trigger] d.edges.contains((a, b)) && !clashes(d, a, b)
                ==> rg_result(d, cap).edges.contains((a, b)),
    decreases cap,
{
    if !is_rg(d) && cap > 0 && d.next < usize::MAX {
        lemma_first_clash_exists(d);
        let (u, n) = next_clash(d);
        let d2 = subdivide(d, u, n);
        lemma_subdivide_keeps(d, u, n);
        lemma_rg_result_keeps(d2, (cap - 1) as nat);
        let r = rg_result(d, cap);
        assert(r == rg_result(d2, (cap - 1) as nat));
        assert forall|v: usize| #[trigger]
            d.vertices.contains_key(v) implies r.vertices.contains_key(v) && r.vertices[v]
            == d.vertices[v] by {
            assert(d2.vertices.contains_key(v));
        }
        assert forall|v: usize| #[trigger]
            r.vertices.contains_key(v) && !d.vertices.contains_key(v) implies is_spider(
            r.vertices[v],
        ) by {
            if d2.vertices.contains_key(v) {
                assert(is_spider(d2.vertices[v]));
            }
        }
        assert forall|a: usize, b: usize|
            d.vertices.contains_key(a) && #[trigger] d.edges.contains((a, b)) && !clashes(
                d,
                a,
                b,
            ) implies r.edges.contains((a, b)) by {
            assert(d2.edges.contains((a, b)));
            assert(d2.vertices.contains_key(a));
            assert(d.vertices.contains_key(b));
            assert(!clashes(d2, a, b));
        }
    }
}

/// Whether two kinds are those of two spiders of one colour.
pub(crate) fn same_colour(a: VKind, b: VKind) -> (r: bool)
    ensures
        r == (is_spider(a) && a == b),
{
    (a == VKind::X || a == VKind::Z) && a == b
}

/// Whether the graph is sound.
pub fn is_consistent(g: &Graph) -> (r: bool)
    ensures
        r == consistent(diagram(*g)),
{
    let d = Ghost(diagram(*g));
    let next = next_vertex(g);
    let vs = vertex_list(g);
    let mut i: usize = 0;
    while i < vs.len()
        invariant
            i <= vs@.len(),
            d@ == diagram(*g),
            next == d@.next,
            forall|v: usize| vs@.contains(v) <==> d@.vertices.contains_key(v),
            forall|t: int| 0 <= t < i ==> (#[trigger] vs@[t]) < next,
            forall|t: int, b: usize|
                0 <= t < i && #[trigger] d@.edges.contains((vs@[t], b)) ==> {
                    &&& d@.vertices.contains_key(b)
                    &&& d@.edges.contains((b, vs@[t]))
                    &&& vs@[t] != b
                },
        decreases vs@.len() - i,
    {
        let v = vs[i];
        assert(vs@.contains(v));
        if v >= next {
            return false;
        }
        let ns = neighbor_list(g, v);
        let mut j: usize = 0;
        while j < ns.len()
            invariant
                j <= ns@.len(),
                d@ == diagram(*g),
                d@.vertices.contains_key(v),
                forall|n: usize| ns@.contains(n) <==> d@.edges.contains((v, n)),
                forall|t: int|
                    0 <= t < j ==> {
                        &&& d@.vertices.contains_key(#[trigger] ns@[t])
                        &&& d@.edges.contains((ns@[t], v))
                        &&& v != ns@[t]
                    },
            decreases ns@.len() - j,
        {
            let n = ns[j];
            assert(ns@.contains(n));
            let known = vertex_kind(g, n).is_some();
            if !known || n == v || !connected(g, n, v) {
                proof {
                    assert(d@.edges.contains((v, n)));
                }
                return false;
            }
            j += 1;
        }
        proof {
            assert forall|b: usize| #[trigger] d@.edges.contains((v, b)) implies {
                &&& d@.vertices.contains_key(b)
                &&& d@.edges.contains((b, v))
                &&& v != b
            } by {
                assert(ns@.contains(b));
                let t = choose|t: int| 0 <= t < ns@.len() && ns@[t] == b;
                assert(d@.vertices.contains_key(ns@[t]));
            }
        }
        i += 1;
    }
    proof {
        assert forall|v: usize| d@.vertices.contains_key(v) implies v < d@.next by {
            assert(vs@.contains(v));
            let t = choose|t: int| 0 <= t < vs@.len() && vs@[t] == v;
            assert(vs@[t] < next);
        }
        assert forall|a: usize, b: usize|
            d@.vertices.contains_key(a) && #[trigger] d@.edges.contains((a, b)) implies {
            &&& d@.vertices.contains_key(b)
            &&& d@.edges.contains((b, a))
            &&& a != b
        } by {
            assert(vs@.contains(a));
            let t = choose|t: int| 0 <= t < vs@.len() && vs@[t] == a;
            assert(d@.edges.contains((vs@[t], b)));
        }
    }
    true
}

/// The least neighbour of the spider `u` that is a spider of the same
/// colour, if there is one.
fn least_clash_at(g: &Graph, u: usize) -> (r: Option<usize>)
    requires
        graph_vertices(*g).contains_key(u),
    ensures
        match r {
            Some(n) => clashes(diagram(*g), u, n) && forall|b: usize| #[trigger]
                clashes(diagram(*g), u, b) ==> n <= b,
            None => forall|b: usize| !#[trigger] clashes(diagram(*g), u, b),
        },
{
    let ghost d = diagram(*g);
    let tu = match vertex_kind(g, u) {
        Some(t) => t,
        None => {
            return None;
        },
    };
    if !same_colour(tu, tu) {
        return None;
    }
    let ns = neighbor_list(g, u);
    let mut best: Option<usize> = None;
    let mut j: usize = 0;
    while j < ns.len()
        invariant
            j <= ns@.len(),
            d == diagram(*g),
            d.vertices.contains_key(u),
            tu == d.vertices[u],
            is_spider(tu),
            forall|n: usize| ns@.contains(n) <==> d.edges.contains((u, n)),
            match best {
                Some(n) => clashes(d, u, n),
                None => true,
            },
            forall|t: int|
                0 <= t < j && clashes(d, u, #[trigger] ns@[t]) ==> best is Some && best->0 <= ns@[t],
        decreases ns@.len() - j,
    {
        let n = ns[j];
        assert(ns@.contains(n));
        let clash = match vertex_kind(g, n) {
            Some(tn) => same_colour(tu, tn),
            None => false,
        };
        if clash {
            let better = match best {
                Some(b) => n < b,
                None => true,
            };
            if better {
                best = Some(n);
            }
        }
        j += 1;
    }
    proof {
        assert forall|b: usize| #[trigger] clashes(d, u, b) implies best is Some && best->0 <= b by {
            assert(ns@.contains(b));
            let t = choose|t: int| 0 <= t < ns@.len() && ns@[t] == b;
            assert(clashes(d, u, ns@[t]));
        }
    }
    best
}

/// The first clash of the graph, or `None` where it is in red-green form.
pub fn find_clash(g: &Graph) -> (r: Option<(usize, usize)>)
    ensures
        match r {
            Some((u, n)) => first_clash(diagram(*g), u, n),
            None => is_rg(diagram(*g)),
        },
{
    let ghost d = diagram(*g);
    let vs = vertex_list(g);
    let mut best: Option<(usize, usize)> = None;
    let mut i: usize = 0;
    while i < vs.len()
        invariant
            i <= vs@.len(),
            d == diagram(*g),
            forall|v: usize| vs@.contains(v) <==> d.vertices.contains_key(v),
            match best {
                Some((u, n)) => clashes(d, u, n) && forall|b: usize| #[trigger]
                    clashes(d, u, b) ==> n <= b,
                None => true,
            },
            forall|t: int, b: usize|
                0 <= t < i && #[trigger] clashes(d, vs@[t], b) ==> best is Some && (best->0).0
                    <= vs@[t],
        decreases vs@.len() - i,
    {
        let u = vs[i];
        assert(vs@.contains(u));
        let skip = match best {
            Some((bu, _)) => bu <= u,
            None => false,
        };
        if !skip {
            match least_clash_at(g, u) {
                Some(n) => {
                    best = Some((u, n));
                },
                None => {},
            }
        }
        i += 1;
    }
    proof {
        assert forall|a: usize, b: usize| #[trigger] clashes(d, a, b) implies best is Some && (
        best->0).0 <= a by {
            assert(vs@.contains(a));
            let t = choose|t: int| 0 <= t < vs@.len() && vs@[t] == a;
            assert(clashes(d, vs@[t], b));
        }
    }
    best
}

/// The edges `es` together with an edge between `w` and each vertex of
/// `xs`.
pub open spec fn with_star(es: Set<(usize, usize)>, w: usize, xs: Set<usize>) -> Set<
    (usize, usize),
> {
    Set::new(
        |e: (usize, usize)|
            es.contains(e) || (e.0 == w && xs.contains(e.1)) || (e.1 == w && xs.contains(e.0)),
    )
}

/// Joins `w` to every vertex of `ns` that it is not joined to yet.
fn attach_all(g: &mut Graph, w: usize, ns: &Vec<usize>, Ghost(base): Ghost<Set<(usize, usize)>>, Ghost(
    xs,
): Ghost<Set<usize>>)
    requires
        graph_vertices(*old(g)).contains_key(w),
        forall|t: int| 0 <= t < ns@.len() ==> graph_vertices(*old(g)).contains_key(#[trigger] ns@[t]),
        forall|t: int| 0 <= t < ns@.len() ==> (#[trigger] ns@[t]) != w,
        forall|a: usize, b: usize| #[trigger]
            base.contains((a, b)) ==> a != w && (b == w ==> !graph_vertices(*old(g)).contains_key(a)),
        graph_edges(*old(g)) == with_star(base, w, xs),
    ensures
        graph_vertices(*final(g)) == graph_vertices(*old(g)),
        graph_next(*final(g)) == graph_next(*old(g)),
        graph_edges(*final(g)) == with_star(base, w, xs.union(ns@.to_set())),
{
    let mut j: usize = 0;
    while j < ns.len()
        invariant
            j <= ns@.len(),
            graph_vertices(*g) == graph_vertices(*old(g)),
            graph_next(*g) == graph_next(*old(g)),
            graph_vertices(*g).contains_key(w),
            forall|t: int| 0 <= t < ns@.len() ==> graph_vertices(*g).contains_key(#[trigger] ns@[t]),
            forall|t: int| 0 <= t < ns@.len() ==> (#[trigger] ns@[t]) != w,
            forall|a: usize, b: usize| #[trigger]
                base.contains((a, b)) ==> a != w && (b == w ==> !graph_vertices(*g).contains_key(a)),
            graph_edges(*g) == with_star(base, w, xs.union(ns@.take(j as int).to_set())),
        decreases ns@.len() - j,
    {
        let x = ns[j];
        let ghost seen = xs.union(ns@.take(j as int).to_set());
        let ghost s0 = ns@.take(j as int);
        let ghost s1 = ns@.take(j + 1);
        proof {
            assert(s1 =~= s0.push(x));
            assert(s1.to_set() =~= s0.to_set().insert(x)) by {
                assert forall|y: usize| s1.to_set().contains(y) <==> s0.to_set().insert(x).contains(
                    y,
                ) by {
                    if s1.contains(y) {
                        let t = choose|t: int| 0 <= t < s1.len() && s1[t] == y;
                        if t < j {
                            assert(s0[t] == y);
                        }
                    }
                    if s0.contains(y) {
                        let t = choose|t: int| 0 <= t < s0.len() && s0[t] == y;
                        assert(s1[t] == y);
                    }
                    if y == x {
                        assert(s1[j as int] == x);
                    }
                }
            }
        }
        if !connected(g, w, x) {
            proof {
                assert(!seen.contains(x));
                assert(!graph_edges(*g).contains((x, w)));
            }
            add_edge(g, w, x);
            proof {
                assert(graph_edges(*g) =~= with_star(base, w, seen.insert(x)));
            }
        } else {
            proof {
                assert(seen.contains(x));
                assert(seen.insert(x) =~= seen);
            }
        }
        proof {
            assert(xs.union(ns@.take(j + 1).to_set()) =~= seen.insert(x));
        }
        j += 1;
    }
    proof {
        assert(ns@.take(ns@.len() as int) =~= ns@);
    }
}

/// Rewrites the graph at the clash `(u, n)`: removes the edge between the
/// two and adds a spider of the other colour, joined to both and to every
/// other neighbour of either. Returns the new spider.
pub fn subdivide_edge(g: &mut Graph, u: usize, n: usize) -> (w: usize)
    requires
        consistent(diagram(*old(g))),
        clashes(diagram(*old(g)), u, n),
        graph_next(*old(g)) < usize::MAX,
    ensures
        w == graph_next(*old(g)),
        diagram(*final(g)) == subdivide(diagram(*old(g)), u, n),
        consistent(diagram(*final(g))),
{
    let ghost d = diagram(*g);
    let nu = neighbor_list(g, u);
    let nn = neighbor_list(g, n);
    let ty = match vertex_kind(g, u) {
        Some(VKind::X) => VKind::Z,
        _ => VKind::X,
    };
    remove_edge(g, u, n);
    let w = add_vertex(g, ty);
    let ghost base = Set::new(
        |e: (usize, usize)| d.edges.contains(e) && e != (u, n) && e != (n, u) && e.0 != w,
    );
    proof {
        assert(!d.vertices.contains_key(w));
        assert forall|a: usize, b: usize| #[trigger] base.contains((a, b)) implies a != w && (b == w
            ==> !graph_vertices(*g).contains_key(a)) by {
            if b == w && d.vertices.contains_key(a) {
                assert(d.edges.contains((a, b)));
            }
        }
        assert(graph_edges(*g) =~= with_star(base, w, Set::<usize>::empty()));
    }
    let mut ends: Vec<usize> = Vec::new();
    ends.push(u);
    ends.push(n);
    proof {
        assert(ends@[0] == u && ends@[1] == n);
        assert forall|t: int| 0 <= t < nu@.len() implies graph_vertices(*g).contains_key(
            #[trigger] nu@[t],
        ) && nu@[t] != w by {
            assert(nu@.contains(nu@[t]));
            assert(d.edges.contains((u, nu@[t])));
        }
        assert forall|t: int| 0 <= t < nn@.len() implies graph_vertices(*g).contains_key(
            #[trigger] nn@[t],
        ) && nn@[t] != w by {
            assert(nn@.contains(nn@[t]));
            assert(d.edges.contains((n, nn@[t])));
        }
    }
    attach_all(g, w, &ends, Ghost(base), Ghost(Set::<usize>::empty()));
    attach_all(g, w, &nu, Ghost(base), Ghost(Set::<usize>::empty().union(ends@.to_set())));
    attach_all(
        g,
        w,
        &nn,
        Ghost(base),
        Ghost(Set::<usize>::empty().union(ends@.to_set()).union(nu@.to_set())),
    );
    proof {
        let xs = Set::<usize>::empty().union(ends@.to_set()).union(nu@.to_set()).union(nn@.to_set());
        assert forall|x: usize| xs.contains(x) <==> attaches(d, u, n, x) by {
            if ends@.contains(x) {
                let t = choose|t: int| 0 <= t < ends@.len() && ends@[t] == x;
            }
            assert(ends@.contains(u));
            assert(ends@.contains(n));
        }
        let target = subdivide(d, u, n);
        assert(graph_edges(*g) =~= target.edges);
        assert(diagram(*g).vertices =~= target.vertices);
        let d2 = diagram(*g);
        assert forall|a: usize, b: usize|
            d2.vertices.contains_key(a) && #[trigger] d2.edges.contains((a, b)) implies {
            &&& d2.vertices.contains_key(b)
            &&& d2.edges.contains((b, a))
            &&& a != b
        } by {
            if a != w && b != w {
                assert(d.edges.contains((a, b)));
                assert(d.edges.contains((b, a)));
                assert((b, a) != (u, n));
                assert((b, a) != (n, u));
            } else if a == w {
                assert(attaches(d, u, n, b));
            } else {
                assert(attaches(d, u, n, a));
            }
        }
    }
    w
}

/// The most rewrites that `make_rg` makes on one graph. A rewrite can
/// bring new clashes about, at the edges of the spider it adds, and on
/// many graphs the rewriting then never ends, while the graph grows by as
/// many edges in each rewrite as the two endpoints have neighbours. The cap
/// keeps the cost of finding that out small.
pub const REWRITE_CAP: usize = 1_000;

/// Brings a sound graph into red-green form by at most `cap` rewrites, and
/// returns the rewrites made. Where a clash is left after `cap` rewrites,
/// or no index is left for another vertex, the graph stays as far as it was
/// rewritten and the error says which of the two happened.
pub fn make_rg_within(g: &mut Graph, cap: usize) -> (r: Result<Vec<Subdivision>, RgError>)
    requires
        consistent(diagram(*old(g))),
    ensures
        consistent(diagram(*final(g))),
        diagram(*final(g)) == rg_result(diagram(*old(g)), cap as nat),
        match r {
            Ok(steps) => {
                &&& rg_failure(diagram(*old(g)), cap as nat) is None
                &&& steps@ == rg_trace(diagram(*old(g)), cap as nat)
                &&& is_rg(diagram(*final(g)))
            },
            Err(e) => rg_failure(diagram(*old(g)), cap as nat) == Some(e) && !is_rg(
                diagram(*final(g)),
            ),
        },
{
    let ghost d0 = diagram(*g);
    let mut steps: Vec<Subdivision> = Vec::new();
    let mut left: usize = cap;
    loop
        invariant
            d0 == diagram(*old(g)),
            consistent(diagram(*g)),
            rg_result(d0, cap as nat) == rg_result(diagram(*g), left as nat),
            rg_failure(d0, cap as nat) == rg_failure(diagram(*g), left as nat),
            rg_trace(d0, cap as nat) == steps@ + rg_trace(diagram(*g), left as nat),
        decreases left,
    {
        let ghost d = diagram(*g);
        match find_clash(g) {
            None => {
                proof {
                    assert(steps@ + Seq::<Subdivision>::empty() =~= steps@);
                    assert(rg_result(d, left as nat) == d);
                    assert(rg_trace(d, left as nat) == Seq::<Subdivision>::empty());
                    assert(rg_failure(d, left as nat) is None);
                }
                return Ok(steps);
            },
            Some((u, n)) => {
                proof {
                    lemma_first_clash_unique(d, u, n);
                }
                if left == 0 {
                    proof {
                        assert(rg_result(d, left as nat) == d);
                        assert(rg_failure(d, left as nat) == Some(RgError::IterationCap));
                    }
                    return Err(RgError::IterationCap);
                }
                if next_vertex(g) == usize::MAX {
                    proof {
                        assert(rg_result(d, left as nat) == d);
                        assert(rg_failure(d, left as nat) == Some(RgError::VertexIdsExhausted));
                    }
                    return Err(RgError::VertexIdsExhausted);
                }
                let w = subdivide_edge(g, u, n);
                let ghost before = steps@;
                steps.push(Subdivision { vertex: w, from: u, to: n });
                left -= 1;
                proof {
                    let step = Subdivision { vertex: w, from: u, to: n };
                    assert(rg_trace(d, (left + 1) as nat) == seq![step] + rg_trace(
                        diagram(*g),
                        left as nat,
                    ));
                    assert(before + (seq![step] + rg_trace(diagram(*g), left as nat)) =~= before.push(
                        step,
                    ) + rg_trace(diagram(*g), left as nat));
                }
            },
        }
    }
}

/// Brings the graph into red-green form, so that no edge joins two spiders
/// of one colour, by at most `REWRITE_CAP` rewrites, and returns the
/// rewrites made. A graph that is not sound is refused and left as it is.
pub fn make_rg(oldg: &mut Graph) -> (r: Result<Vec<Subdivision>, RgError>)
    ensures
        !consistent(diagram(*old(oldg))) ==> r == Err::<Vec<Subdivision>, RgError>(
            RgError::InconsistentGraph,
        ) && diagram(*final(oldg)) == diagram(*old(oldg)),
        consistent(diagram(*old(oldg))) ==> {
            &&& consistent(diagram(*final(oldg)))
            &&& diagram(*final(oldg)) == rg_result(diagram(*old(oldg)), REWRITE_CAP as nat)
            &&& match r {
                Ok(steps) => {
                    &&& rg_failure(diagram(*old(oldg)), REWRITE_CAP as nat) is None
                    &&& steps@ == rg_trace(diagram(*old(oldg)), REWRITE_CAP as nat)
                    &&& is_rg(diagram(*final(oldg)))
                },
                Err(e) => rg_failure(diagram(*old(oldg)), REWRITE_CAP as nat) == Some(e)
                    && !is_rg(diagram(*final(oldg))),
            }
        },
{
    if !is_consistent(oldg) {
        return Err(RgError::InconsistentGraph);
    }
    make_rg_within(oldg, REWRITE_CAP)
}

} // verus!
