//! Detection webs: the Pauli webs that the nullspace of a matrix built from
//! a ZX graph in red-green form gives.
//!
//! The vertices are put in order, boundary vertices first. With `n`
//! vertices of which `k` are boundary vertices, the adjacency matrix `N`
//! over that order is put beside a `k` by `k` identity padded with zero
//! rows, and `2k` rows with a single one each are put below, which pin the
//! first `2k` unknowns to zero. Each vector of the nullspace basis of that
//! matrix selects spiders: a one at position `k + p` selects the vertex at
//! place `p` of the order. Every edge at a selected X spider is labelled X
//! and every edge at a selected Z spider is labelled Z; where both ends of
//! an edge are selected, the Z spider's label stands.

use quizx::hash_graph::Graph;
use std::collections::HashMap;
use vstd::prelude::*;
use crate::bits::max_bits;
use crate::bitwisef2linalg::Mat2;
use crate::gf2::{hstack, identity, is_matrix, nullspace_basis, zero_matrix};
use crate::make_rg::{
    consistent, diagram, is_rg, is_spider, make_rg, rg_failure, rg_result, same_colour,
    Diagram, RgError, REWRITE_CAP,
};
use crate::pauliweb::{Pauli, PauliWeb};
use crate::sorting::sort_ids;
use crate::zx::{connected, neighbor_list, vertex_kind, vertex_list, VKind};

verus! {

/// `v` is a boundary vertex of the diagram.
pub open spec fn is_boundary(d: Diagram, v: usize) -> bool {
    d.vertices.contains_key(v) && d.vertices[v] == VKind::Boundary
}

/// The boundary vertices of the diagram.
pub open spec fn boundary_set(d: Diagram) -> Set<usize> {
    Set::new(|v: usize| is_boundary(d, v))
}

/// `a` comes before `b` in the order of the vertices: boundary vertices
/// first, and within each kind by growing index.
pub open spec fn comes_before(d: Diagram, a: usize, b: usize) -> bool {
    (is_boundary(d, a) && !is_boundary(d, b)) || (is_boundary(d, a) == is_boundary(d, b) && a < b)
}

/// `nodes` lists the vertices of the diagram, each once, in their order.
pub open spec fn is_node_order(d: Diagram, nodes: Seq<usize>) -> bool {
    &&& forall|v: usize| nodes.contains(v) <==> d.vertices.contains_key(v)
    &&& forall|i: int, j: int| 0 <= i < j < nodes.len() ==> comes_before(d, nodes[i], nodes[j])
}

/// The adjacency matrix of the diagram over the vertices `nodes`.
pub open spec fn adjacency(d: Diagram, nodes: Seq<usize>) -> Seq<Seq<bool>> {
    Seq::new(
        nodes.len(),
        |i: int|
            Seq::new(
                nodes.len(),
                |j: int|
                    d.edges.contains((nodes[i], nodes[j])) || d.edges.contains(
                        (nodes[j], nodes[i]),
                    ),
            ),
    )
}

/// The constraint matrix for an `n` by `n` adjacency matrix `adj` whose
/// first `k` vertices are boundary vertices: a `k` by `k` identity over
/// `n - k` zero rows, beside `adj`; and below that, a `2k` by `2k` identity
/// beside zeros.
pub open spec fn constraint_matrix(adj: Seq<Seq<bool>>, k: nat, n: nat) -> Seq<Seq<bool>> {
    hstack(identity(k) + zero_matrix((n - k) as nat, k), adj) + hstack(
        identity(2 * k),
        zero_matrix(2 * k, (n - k) as nat),
    )
}

/// Whether `v` is a boundary vertex of the graph.
fn boundary_at(g: &Graph, v: usize) -> (r: bool)
    ensures
        r == is_boundary(diagram(*g), v),
{
    match vertex_kind(g, v) {
        Some(VKind::Boundary) => true,
        _ => false,
    }
}

/// The vertices in their order, and the number of boundary vertices, which
/// come first.
fn order_vertices(g: &Graph) -> (r: (Vec<usize>, usize))
    ensures
        is_node_order(diagram(*g), r.0@),
        r.0@.no_duplicates(),
        r.1 <= r.0@.len(),
        r.1 == boundary_set(diagram(*g)).len(),
        forall|i: int| 0 <= i < r.0@.len()
            ==> (is_boundary(diagram(*g), #[trigger] r.0@[i]) <==> i < r.1),
{
    let ghost d = diagram(*g);
    let mut sorted = vertex_list(g);
    let ghost listed = sorted@;
    sort_ids(&mut sorted);
    let mut nodes: Vec<usize> = Vec::new();
    let mut i: usize = 0;
    while i < sorted.len()
        invariant
            i <= sorted@.len(),
            d == diagram(*g),
            crate::gf2::strictly_increasing(sorted@),
            crate::gf2::strictly_increasing(nodes@),
            forall|t: int| 0 <= t < nodes@.len() ==> is_boundary(d, #[trigger] nodes@[t]),
            forall|t: int|
                0 <= t < nodes@.len() ==> exists|s: int| 0 <= s < i
                    && sorted@[s] == #[trigger] nodes@[t],
            forall|s: int|
                0 <= s < i && is_boundary(d, #[trigger] sorted@[s]) ==> nodes@.contains(sorted@[s]),
        decreases sorted@.len() - i,
    {
        let v = sorted[i];
        if boundary_at(g, v) {
            let ghost before = nodes@;
            nodes.push(v);
            proof {
                assert forall|a: int, b: int| 0 <= a < b < nodes@.len() implies
                    nodes@[a] < nodes@[b] by {
                    if b == before.len() {
                        let s = choose|s: int| 0 <= s < i && sorted@[s] == before[a];
                        assert(sorted@[s] < sorted@[i as int]);
                    }
                }
                assert forall|t: int| 0 <= t < nodes@.len() implies exists|s: int|
                    0 <= s < i + 1 && sorted@[s] == #[trigger] nodes@[t] by {
                    if t < before.len() {
                        let s = choose|s: int| 0 <= s < i && sorted@[s] == before[t];
                        assert(sorted@[s] == nodes@[t]);
                    } else {
                        assert(sorted@[i as int] == nodes@[t]);
                    }
                }
                assert forall|s: int|
                    0 <= s < i + 1 && is_boundary(d, #[trigger] sorted@[s]) implies nodes@.contains(
                    sorted@[s],
                ) by {
                    if s < i {
                        let t = choose|t: int| 0 <= t < before.len() && before[t] == sorted@[s];
                        assert(nodes@[t] == sorted@[s]);
                    } else {
                        assert(nodes@[before.len() as int] == v);
                    }
                }
            }
        }
        i += 1;
    }
    let k = nodes.len();
    let ghost firsts = nodes@;
    let mut j: usize = 0;
    while j < sorted.len()
        invariant
            j <= sorted@.len(),
            d == diagram(*g),
            k == firsts.len(),
            k <= nodes@.len(),
            nodes@.take(k as int) == firsts,
            crate::gf2::strictly_increasing(sorted@),
            forall|a: int, b: int| k <= a < b < nodes@.len() ==> nodes@[a] < nodes@[b],
            forall|t: int| k <= t < nodes@.len() ==> !is_boundary(d, #[trigger] nodes@[t]),
            forall|t: int|
                k <= t < nodes@.len() ==> exists|s: int| 0 <= s < j
                    && sorted@[s] == #[trigger] nodes@[t],
            forall|s: int|
                0 <= s < j && !is_boundary(d, #[trigger] sorted@[s]) ==> exists|t: int|
                    k <= t < nodes@.len() && nodes@[t] == sorted@[s],
        decreases sorted@.len() - j,
    {
        let v = sorted[j];
        if !boundary_at(g, v) {
            let ghost before = nodes@;
            nodes.push(v);
            proof {
                assert(nodes@.take(k as int) =~= before.take(k as int));
                assert forall|a: int, b: int| k <= a < b < nodes@.len() implies
                    nodes@[a] < nodes@[b] by {
                    if b == before.len() {
                        let s = choose|s: int| 0 <= s < j && sorted@[s] == before[a];
                        assert(sorted@[s] < sorted@[j as int]);
                    }
                }
                assert forall|t: int| k <= t < nodes@.len() implies exists|s: int|
                    0 <= s < j + 1 && sorted@[s] == #[trigger] nodes@[t] by {
                    if t < before.len() {
                        let s = choose|s: int| 0 <= s < j && sorted@[s] == before[t];
                        assert(sorted@[s] == nodes@[t]);
                    } else {
                        assert(sorted@[j as int] == nodes@[t]);
                    }
                }
                assert forall|s: int|
                    0 <= s < j + 1 && !is_boundary(d, #[trigger] sorted@[s]) implies exists|t: int|
                    k <= t < nodes@.len() && nodes@[t] == sorted@[s] by {
                    if s < j {
                        let t = choose|t: int| k <= t < before.len() && before[t] == sorted@[s];
                        assert(nodes@[t] == sorted@[s]);
                    } else {
                        assert(nodes@[before.len() as int] == v);
                    }
                }
            }
        }
        j += 1;
    }
    proof {
        assert forall|t: int| 0 <= t < k implies nodes@[t] == firsts[t] by {
            assert(nodes@.take(k as int)[t] == nodes@[t]);
        }
        assert forall|t: int| 0 <= t < nodes@.len() implies (is_boundary(d, #[trigger] nodes@[t]) <==> t
            < k) by {
            if t < k {
                assert(is_boundary(d, firsts[t]));
            }
        }
        assert forall|v: usize| nodes@.contains(v) <==> d.vertices.contains_key(v) by {
            if nodes@.contains(v) {
                let t = choose|t: int| 0 <= t < nodes@.len() && nodes@[t] == v;
                if t < k {
                    assert(is_boundary(d, firsts[t]));
                } else {
                    let s = choose|s: int| 0 <= s < j && sorted@[s] == nodes@[t];
                    assert(sorted@.contains(v));
                    assert(listed.contains(v));
                }
            }
            if d.vertices.contains_key(v) {
                assert(listed.contains(v));
                assert(sorted@.contains(v));
                let s = choose|s: int| 0 <= s < sorted@.len() && sorted@[s] == v;
                if is_boundary(d, sorted@[s]) {
                    assert(firsts.contains(sorted@[s]));
                    let t = choose|t: int| 0 <= t < firsts.len() && firsts[t] == v;
                    assert(nodes@[t] == v);
                } else {
                    let t = choose|t: int| k <= t < nodes@.len() && nodes@[t] == sorted@[s];
                }
            }
        }
        assert forall|a: int, b: int| 0 <= a < b < nodes@.len() implies comes_before(
            d,
            nodes@[a],
            nodes@[b],
        ) by {
            if b < k {
                assert(firsts[a] < firsts[b]);
            }
        }
        assert(nodes@.no_duplicates()) by {
            assert forall|a: int, b: int|
                0 <= a < nodes@.len() && 0 <= b < nodes@.len() && a != b implies nodes@[a]
                != nodes@[b] by {
                if a < b {
                    assert(comes_before(d, nodes@[a], nodes@[b]));
                } else {
                    assert(comes_before(d, nodes@[b], nodes@[a]));
                }
            }
        }
        assert(firsts.no_duplicates()) by {
            assert forall|a: int, b: int|
                0 <= a < firsts.len() && 0 <= b < firsts.len() && a != b implies firsts[a]
                != firsts[b] by {
                if a < b {
                    assert(firsts[a] < firsts[b]);
                } else {
                    assert(firsts[b] < firsts[a]);
                }
            }
        }
        firsts.unique_seq_to_set();
        assert(firsts.to_set() =~= boundary_set(d)) by {
            assert forall|v: usize| firsts.to_set().contains(v) <==> boundary_set(d).contains(v) by {
                if firsts.contains(v) {
                    let t = choose|t: int| 0 <= t < firsts.len() && firsts[t] == v;
                    assert(is_boundary(d, firsts[t]));
                }
                if is_boundary(d, v) {
                    assert(nodes@.contains(v));
                    let t = choose|t: int| 0 <= t < nodes@.len() && nodes@[t] == v;
                    assert(is_boundary(d, nodes@[t]));
                    assert(t < k);
                    assert(firsts[t] == v);
                }
            }
        }
    }
    (nodes, k)
}

/// The position that each vertex has in `nodes`.
pub open spec fn positions(nodes: Seq<usize>) -> Map<usize, usize> {
    Map::new(
        |v: usize| nodes.contains(v),
        |v: usize| (choose|i: int| 0 <= i < nodes.len() && nodes[i] == v) as usize,
    )
}

/// The vertices of the graph in their order, boundary vertices first and
/// within each kind by growing index, and the map from each vertex to its
/// position in that order.
pub fn ordered_nodes(g: &Graph) -> (r: (Vec<usize>, HashMap<usize, usize>))
    ensures
        is_node_order(diagram(*g), r.0@),
        r.0@.no_duplicates(),
        r.1@ == positions(r.0@),
        forall|i: int| 0 <= i < r.0@.len() ==> r.1@[#[trigger] r.0@[i]] == i,
{
    broadcast use vstd::std_specs::hash::group_hash_axioms;

    let (nodes, _) = order_vertices(g);
    let mut index_map: HashMap<usize, usize> = HashMap::new();
    let mut i: usize = 0;
    while i < nodes.len()
        invariant
            i <= nodes@.len(),
            nodes@.no_duplicates(),
            forall|v: usize| index_map@.contains_key(v) <==> nodes@.take(i as int).contains(v),
            forall|t: int| 0 <= t < i ==> index_map@[#[trigger] nodes@[t]] == t,
        decreases nodes@.len() - i,
    {
        let ghost before = index_map@;
        index_map.insert(nodes[i], i);
        proof {
            let s0 = nodes@.take(i as int);
            let s1 = nodes@.take(i + 1);
            assert forall|v: usize| index_map@.contains_key(v) <==> s1.contains(v) by {
                if s1.contains(v) {
                    let t = choose|t: int| 0 <= t < s1.len() && s1[t] == v;
                    if t < i {
                        assert(s0[t] == v);
                    }
                }
                if s0.contains(v) {
                    let t = choose|t: int| 0 <= t < s0.len() && s0[t] == v;
                    assert(s1[t] == v);
                }
                if v == nodes@[i as int] {
                    assert(s1[i as int] == v);
                }
            }
            assert forall|t: int| 0 <= t < i + 1 implies index_map@[#[trigger] nodes@[t]] == t by {
                if t < i {
                    assert(nodes@[t] != nodes@[i as int]);
                }
            }
        }
        i += 1;
    }
    proof {
        assert(nodes@.take(nodes@.len() as int) =~= nodes@);
        assert(index_map@ =~= positions(nodes@)) by {
            assert forall|v: usize| index_map@.contains_key(v) implies index_map@[v] == positions(
                nodes@,
            )[v] by {
                let t = choose|t: int| 0 <= t < nodes@.len() && nodes@[t] == v;
                let c = choose|i: int| 0 <= i < nodes@.len() && nodes@[i] == v;
                assert(index_map@[nodes@[t]] == t);
                if c != t {
                    assert(nodes@[c] != nodes@[t]);
                }
            }
        }
    }
    (nodes, index_map)
}

/// The adjacency matrix of the graph over the vertices `nodelist`: the
/// entry at `(i, j)` is a one where vertex `i` and vertex `j` of the list
/// are neighbours.
pub fn get_adjacency_matrix(g: &Graph, nodelist: &Vec<usize>) -> (adj: Mat2)
    requires
        nodelist@.len() <= max_bits(),
    ensures
        adj.wf(),
        adj.spec_rows() == nodelist@.len(),
        adj.spec_cols() == nodelist@.len(),
        adj@ == adjacency(diagram(*g), nodelist@),
{
    let n = nodelist.len();
    let ghost d = diagram(*g);
    let mut adj = Mat2::new(n, n);
    let mut i: usize = 0;
    while i < n
        invariant
            i <= n,
            n == nodelist@.len(),
            d == diagram(*g),
            adj.wf(),
            adj.spec_rows() == n,
            adj.spec_cols() == n,
            is_matrix(adj@, n as nat, n as nat),
            forall|r: int, c: int|
                0 <= r < i && 0 <= c < n ==> #[trigger] adj@[r][c] == adjacency(d, nodelist@)[r][c],
        decreases n - i,
    {
        let u = nodelist[i];
        let mut j: usize = 0;
        while j < n
            invariant
                j <= n,
                i < n,
                n == nodelist@.len(),
                u == nodelist@[i as int],
                d == diagram(*g),
                adj.wf(),
                adj.spec_rows() == n,
                adj.spec_cols() == n,
                is_matrix(adj@, n as nat, n as nat),
                forall|r: int, c: int|
                    0 <= r < i && 0 <= c < n ==> #[trigger] adj@[r][c] == adjacency(d, nodelist@)[r][c],
                forall|c: int|
                    0 <= c < j ==> #[trigger] adj@[i as int][c] == adjacency(d, nodelist@)[i as int][c],
            decreases n - j,
        {
            let v = nodelist[j];
            let joined = connected(g, u, v) || connected(g, v, u);
            let ghost before = adj@;
            adj.set(i, j, joined);
            proof {
                adj.lemma_shape();
                assert forall|r: int, c: int| 0 <= r < i && 0 <= c < n implies #[trigger] adj@[r][c]
                    == adjacency(d, nodelist@)[r][c] by {
                    assert(adj@[r] == before[r]);
                }
            }
            j += 1;
        }
        i += 1;
    }
    proof {
        assert(adj@ =~~= adjacency(d, nodelist@));
    }
    adj
}

/// Why no detection webs could be given.
#[derive(Debug, Clone, Copy, PartialEq, Eq, Structural)]
pub enum WebError {
    /// The graph could not be brought into red-green form.
    Normalization(RgError),
    /// The graph has more vertices than the columns of a matrix can stand
    /// for.
    TooLarge,
    /// The one at `position` of a vector selects a place beyond the list
    /// of vertices.
    PositionOutOfRange { position: usize },
    /// A selected vertex is no vertex of the graph.
    MissingVertex { vertex: usize },
    /// A selected vertex is neither an X spider nor a Z spider.
    NotASpider { vertex: usize },
}

/// The vector `v` has a one at `i`, past the `2k` positions that belong to
/// the boundary.
pub open spec fn selects(k: nat, v: Seq<bool>, i: int) -> bool {
    2 * k <= i < v.len() && v[i]
}

/// What is wrong with the position `i` of the vector `v`, if anything: it
/// selects a place beyond `nodes`, or a vertex that the diagram lacks, or
/// one that is no spider.
pub open spec fn defect(d: Diagram, nodes: Seq<usize>, k: nat, v: Seq<bool>, i: int) -> Option<
    WebError,
> {
    if !selects(k, v, i) {
        None
    } else if i - k >= nodes.len() {
        Some(WebError::PositionOutOfRange { position: i as usize })
    } else if !d.vertices.contains_key(nodes[i - k]) {
        Some(WebError::MissingVertex { vertex: nodes[i - k] })
    } else if !is_spider(d.vertices[nodes[i - k]]) {
        Some(WebError::NotASpider { vertex: nodes[i - k] })
    } else {
        None
    }
}

/// The spider `u` of kind `t` has the edge between `a` and `b` as one of
/// its edges.
pub open spec fn marks_at(d: Diagram, u: usize, t: VKind, a: usize, b: usize) -> bool {
    &&& d.vertices.contains_key(u)
    &&& d.vertices[u] == t
    &&& (u == a && d.edges.contains((a, b))) || (u == b && d.edges.contains((b, a)))
}

/// The one at position `i` of `v` selects a spider of kind `t` that has
/// the edge between `a` and `b` as one of its edges.
pub open spec fn hit(
    d: Diagram,
    nodes: Seq<usize>,
    k: nat,
    v: Seq<bool>,
    t: VKind,
    a: usize,
    b: usize,
    i: int,
) -> bool {
    selects(k, v, i) && i - k < nodes.len() && marks_at(d, nodes[i - k], t, a, b)
}

/// Some one of `v` before position `end` selects a spider of kind `t` at
/// the edge between `a` and `b`.
pub open spec fn marks_upto(
    d: Diagram,
    nodes: Seq<usize>,
    k: nat,
    v: Seq<bool>,
    t: VKind,
    a: usize,
    b: usize,
    end: int,
) -> bool {
    exists|i: int| 0 <= i < end && #[trigger] hit(d, nodes, k, v, t, a, b, i)
}

/// Some one of `v` selects a spider of kind `t` at the edge between `a`
/// and `b`.
pub open spec fn marks(
    d: Diagram,
    nodes: Seq<usize>,
    k: nat,
    v: Seq<bool>,
    t: VKind,
    a: usize,
    b: usize,
) -> bool {
    marks_upto(d, nodes, k, v, t, a, b, v.len() as int)
}

/// The label that the vector `v` gives the edge between `a` and `b`: Z
/// where it selects a Z spider at the edge, else X where it selects an X
/// spider at the edge, else none.
pub open spec fn web_label(
    d: Diagram,
    nodes: Seq<usize>,
    k: nat,
    v: Seq<bool>,
    a: usize,
    b: usize,
) -> Option<Pauli> {
    if marks(d, nodes, k, v, VKind::Z, a, b) {
        Some(Pauli::Z)
    } else if marks(d, nodes, k, v, VKind::X, a, b) {
        Some(Pauli::X)
    } else {
        None
    }
}

/// `pw` is the web that the vector `v` gives.
pub open spec fn is_web_of(d: Diagram, nodes: Seq<usize>, k: nat, v: Seq<bool>, pw: PauliWeb) -> bool {
    forall|a: usize, b: usize| #[trigger] pw.label(a, b) == web_label(d, nodes, k, v, a, b)
}

/// No position of `v` before `end` has a defect.
pub open spec fn sound_upto(d: Diagram, nodes: Seq<usize>, k: nat, v: Seq<bool>, end: int) -> bool {
    forall|i: int| 0 <= i < end ==> #[trigger] defect(d, nodes, k, v, i) is None
}

/// The number of boundary vertices of the graph.
pub fn count_boundary(g: &Graph) -> (k: usize)
    ensures
        k == boundary_set(diagram(*g)).len(),
{
    let ghost d = diagram(*g);
    let vs = vertex_list(g);
    let ghost mut found: Seq<usize> = Seq::empty();
    let mut k: usize = 0;
    let mut i: usize = 0;
    while i < vs.len()
        invariant
            i <= vs@.len(),
            d == diagram(*g),
            vs@.no_duplicates(),
            k == found.len(),
            k <= i,
            found.no_duplicates(),
            forall|x: usize|
                found.contains(x) <==> is_boundary(d, x) && exists|t: int|
                    0 <= t < i && #[trigger] vs@[t] == x,
        decreases vs@.len() - i,
    {
        let v = vs[i];
        if boundary_at(g, v) {
            proof {
                let before = found;
                assert(!before.contains(v)) by {
                    if before.contains(v) {
                        let t = choose|t: int| 0 <= t < i && #[trigger] vs@[t] == v;
                        assert(vs@[t] == vs@[i as int]);
                    }
                }
                found = found.push(v);
                assert forall|x: usize|
                    found.contains(x) <==> is_boundary(d, x) && exists|t: int|
                        0 <= t < i + 1 && #[trigger] vs@[t] == x by {
                    if found.contains(x) {
                        let s = choose|s: int| 0 <= s < found.len() && found[s] == x;
                        if s < before.len() {
                            assert(before[s] == x);
                            assert(before.contains(x));
                            let t = choose|t: int| 0 <= t < i && #[trigger] vs@[t] == x;
                            assert(0 <= t < i + 1 && vs@[t] == x);
                        } else {
                            assert(vs@[i as int] == x);
                        }
                    }
                    if is_boundary(d, x) && exists|t: int| 0 <= t < i + 1 && #[trigger] vs@[t] == x {
                        let t = choose|t: int| 0 <= t < i + 1 && #[trigger] vs@[t] == x;
                        if t < i {
                            assert(before.contains(x));
                            let s = choose|s: int| 0 <= s < before.len() && before[s] == x;
                            assert(found[s] == x);
                        } else {
                            assert(found[before.len() as int] == x);
                        }
                    }
                }
            }
            k += 1;
        } else {
            proof {
                assert forall|x: usize|
                    found.contains(x) <==> is_boundary(d, x) && exists|t: int|
                        0 <= t < i + 1 && #[trigger] vs@[t] == x by {
                    if found.contains(x) {
                        let t = choose|t: int| 0 <= t < i && #[trigger] vs@[t] == x;
                        assert(0 <= t < i + 1 && vs@[t] == x);
                    }
                    if is_boundary(d, x) && exists|t: int| 0 <= t < i + 1 && #[trigger] vs@[t] == x {
                        let t = choose|t: int| 0 <= t < i + 1 && #[trigger] vs@[t] == x;
                        assert(t < i);
                    }
                }
            }
        }
        i += 1;
    }
    proof {
        found.unique_seq_to_set();
        assert(found.to_set() =~= boundary_set(d)) by {
            assert forall|x: usize| found.to_set().contains(x) <==> boundary_set(d).contains(x) by {
                if is_boundary(d, x) {
                    assert(vs@.contains(x));
                    let t = choose|t: int| 0 <= t < vs@.len() && vs@[t] == x;
                    assert(0 <= t < i && vs@[t] == x);
                }
            }
        }
    }
    k
}

/// The first defect of the vector `v`, if it has one.
fn check_vector(nodes: &Vec<usize>, k: usize, v: &Vec<bool>, g: &Graph) -> (r: Option<WebError>)
    ensures
        match r {
            Some(e) => exists|i: int|
                0 <= i < v@.len() && #[trigger] defect(diagram(*g), nodes@, k as nat, v@, i)
                    == Some(e) && sound_upto(diagram(*g), nodes@, k as nat, v@, i),
            None => sound_upto(diagram(*g), nodes@, k as nat, v@, v@.len() as int),
        },
{
    let ghost d = diagram(*g);
    let mut i: usize = 0;
    while i < v.len()
        invariant
            i <= v@.len(),
            d == diagram(*g),
            sound_upto(d, nodes@, k as nat, v@, i as int),
        decreases v@.len() - i,
    {
        if v[i] && i >= k && i - k >= k {
            let p = i - k;
            if p >= nodes.len() {
                let e = WebError::PositionOutOfRange { position: i };
                proof {
                    assert(defect(d, nodes@, k as nat, v@, i as int) == Some(e));
                }
                return Some(e);
            }
            let u = nodes[p];
            match vertex_kind(g, u) {
                None => {
                    let e = WebError::MissingVertex { vertex: u };
                    proof {
                        assert(defect(d, nodes@, k as nat, v@, i as int) == Some(e));
                    }
                    return Some(e);
                },
                Some(t) => {
                    if !same_colour(t, t) {
                        let e = WebError::NotASpider { vertex: u };
                        proof {
                            assert(defect(d, nodes@, k as nat, v@, i as int) == Some(e));
                        }
                        return Some(e);
                    }
                },
            }
        }
        proof {
            assert(defect(d, nodes@, k as nat, v@, i as int) is None);
        }
        i += 1;
    }
    None
}

/// Labels with `pauli` every edge at a spider of the kind `kind` that `v`
/// selects.
fn paint(
    pw: &mut PauliWeb,
    nodes: &Vec<usize>,
    k: usize,
    v: &Vec<bool>,
    g: &Graph,
    kind: VKind,
    pauli: Pauli,
)
    requires
        is_spider(kind),
        sound_upto(diagram(*g), nodes@, k as nat, v@, v@.len() as int),
    ensures
        forall|a: usize, b: usize| #[trigger]
            final(pw).label(a, b) == if marks(diagram(*g), nodes@, k as nat, v@, kind, a, b) {
                Some(pauli)
            } else {
                old(pw).label(a, b)
            },
{
    let ghost d = diagram(*g);
    let ghost kk = k as nat;
    let mut i: usize = 0;
    while i < v.len()
        invariant
            i <= v@.len(),
            d == diagram(*g),
            kk == k,
            is_spider(kind),
            sound_upto(d, nodes@, kk, v@, v@.len() as int),
            forall|a: usize, b: usize| #[trigger]
                pw.label(a, b) == if marks_upto(d, nodes@, kk, v@, kind, a, b, i as int) {
                    Some(pauli)
                } else {
                    old(pw).label(a, b)
                },
        decreases v@.len() - i,
    {
        let ghost start = *pw;
        let mut painted = false;
        if v[i] && i >= k && i - k >= k {
            proof {
                assert(defect(d, nodes@, kk, v@, i as int) is None);
            }
            let u = nodes[i - k];
            let t = match vertex_kind(g, u) {
                Some(t) => t,
                None => kind,
            };
            if same_colour(kind, t) {
                painted = true;
                let ns = neighbor_list(g, u);
                let mut j: usize = 0;
                while j < ns.len()
                    invariant
                        j <= ns@.len(),
                        d == diagram(*g),
                        d.vertices.contains_key(u),
                        d.vertices[u] == kind,
                        forall|n: usize| ns@.contains(n) <==> d.edges.contains((u, n)),
                        forall|a: usize, b: usize| #[trigger]
                            pw.label(a, b) == if exists|s: int|
                                0 <= s < j && ((a == u && b == #[trigger] ns@[s]) || (b == u && a
                                    == ns@[s])) {
                                Some(pauli)
                            } else {
                                start.label(a, b)
                            },
                    decreases ns@.len() - j,
                {
                    let ghost mid = *pw;
                    let n = ns[j];
                    pw.set_edge(u, n, pauli);
                    proof {
                        assert forall|a: usize, b: usize| #[trigger]
                            pw.label(a, b) == if exists|s: int|
                                0 <= s < j + 1 && ((a == u && b == #[trigger] ns@[s]) || (b == u
                                    && a == ns@[s])) {
                                Some(pauli)
                            } else {
                                start.label(a, b)
                            } by {
                            let now = exists|s: int|
                                0 <= s < j + 1 && ((a == u && b == #[trigger] ns@[s]) || (b == u
                                    && a == ns@[s]));
                            let was = exists|s: int|
                                0 <= s < j && ((a == u && b == #[trigger] ns@[s]) || (b == u && a
                                    == ns@[s]));
                            if (a == u && b == n) || (a == n && b == u) {
                                assert((a == u && b == ns@[j as int]) || (b == u && a == ns@[j as int]));
                                assert(now);
                            } else {
                                assert(pw.label(a, b) == mid.label(a, b));
                                if was {
                                    let s = choose|s: int|
                                        0 <= s < j && ((a == u && b == #[trigger] ns@[s]) || (b
                                            == u && a == ns@[s]));
                                    assert(0 <= s < j + 1 && ((a == u && b == ns@[s]) || (b == u
                                        && a == ns@[s])));
                                    assert(now);
                                }
                                if now {
                                    let s = choose|s: int|
                                        0 <= s < j + 1 && ((a == u && b == #[trigger] ns@[s]) || (
                                        b == u && a == ns@[s]));
                                    assert(s < j);
                                    assert(was);
                                }
                            }
                        }
                    }
                    j += 1;
                }
                proof {
                    assert forall|a: usize, b: usize|
                        (exists|s: int|
                            0 <= s < ns@.len() && ((a == u && b == #[trigger] ns@[s]) || (b == u
                                && a == ns@[s]))) <==> marks_at(d, u, kind, a, b) by {
                        if marks_at(d, u, kind, a, b) {
                            if u == a && d.edges.contains((a, b)) {
                                assert(ns@.contains(b));
                                let s = choose|s: int| 0 <= s < ns@.len() && ns@[s] == b;
                                assert((a == u && b == ns@[s]) || (b == u && a == ns@[s]));
                            } else {
                                assert(ns@.contains(a));
                                let s = choose|s: int| 0 <= s < ns@.len() && ns@[s] == a;
                                assert((a == u && b == ns@[s]) || (b == u && a == ns@[s]));
                            }
                        }
                        if exists|s: int|
                            0 <= s < ns@.len() && ((a == u && b == #[trigger] ns@[s]) || (b == u
                                && a == ns@[s])) {
                            let s = choose|s: int|
                                0 <= s < ns@.len() && ((a == u && b == #[trigger] ns@[s]) || (b
                                    == u && a == ns@[s]));
                            assert(ns@.contains(ns@[s]));
                        }
                    }
                }
            }
        }
        proof {
            assert forall|a: usize, b: usize| #[trigger]
                pw.label(a, b) == if marks_upto(d, nodes@, kk, v@, kind, a, b, i + 1) {
                    Some(pauli)
                } else {
                    old(pw).label(a, b)
                } by {
                let here = hit(d, nodes@, kk, v@, kind, a, b, i as int);
                if marks_upto(d, nodes@, kk, v@, kind, a, b, i as int) {
                    let s = choose|s: int| 0 <= s < i
                        && #[trigger] hit(d, nodes@, kk, v@, kind, a, b, s);
                    assert(0 <= s < i + 1 && hit(d, nodes@, kk, v@, kind, a, b, s));
                }
                if marks_upto(d, nodes@, kk, v@, kind, a, b, i + 1) {
                    let s = choose|s: int|
                        0 <= s < i + 1 && #[trigger] hit(d, nodes@, kk, v@, kind, a, b, s);
                    if s < i {
                        assert(marks_upto(d, nodes@, kk, v@, kind, a, b, i as int));
                    } else {
                        assert(here);
                    }
                }
                if here {
                    assert(painted);
                    assert(marks_upto(d, nodes@, kk, v@, kind, a, b, i + 1));
                } else if painted {
                    assert(!marks_at(d, nodes@[i - k], kind, a, b));
                }
            }
        }
        i += 1;
    }
}

/// The web that the vector `v` gives on a graph with `k` boundary
/// vertices, or the first defect of `v`.
fn web_of(nodes: &Vec<usize>, k: usize, v: &Vec<bool>, g: &Graph) -> (r: Result<PauliWeb, WebError>)
    ensures
        match r {
            Ok(pw) => {
                &&& sound_upto(diagram(*g), nodes@, k as nat, v@, v@.len() as int)
                &&& is_web_of(diagram(*g), nodes@, k as nat, v@, pw)
            },
            Err(e) => exists|i: int|
                0 <= i < v@.len() && #[trigger] defect(diagram(*g), nodes@, k as nat, v@, i)
                    == Some(e) && sound_upto(diagram(*g), nodes@, k as nat, v@, i),
        },
{
    match check_vector(nodes, k, v, g) {
        Some(e) => {
            return Err(e);
        },
        None => {},
    }
    let mut pw = PauliWeb::new();
    paint(&mut pw, nodes, k, v, g, VKind::X, Pauli::X);
    paint(&mut pw, nodes, k, v, g, VKind::Z, Pauli::Z);
    Ok(pw)
}

/// The Pauli web that a vector gives on a graph. `nodes` is the order of
/// the vertices, and a one at position `k + p` of `v`, with `k` the number
/// of boundary vertices of the graph, selects the vertex at place `p`.
/// Ones at the first `2k` positions select nothing. Every edge at a
/// selected X spider is labelled X, every edge at a selected Z spider is
/// labelled Z, and where both ends of an edge are selected the label is Z.
/// A one that selects no X or Z spider of the graph is reported.
pub fn get_pw(nodes: &Vec<usize>, v: &Vec<bool>, g: &Graph) -> (r: Result<PauliWeb, WebError>)
    ensures
        ({
            let d = diagram(*g);
            let k = boundary_set(d).len();
            match r {
                Ok(pw) => sound_upto(d, nodes@, k, v@, v@.len() as int) && is_web_of(
                    d,
                    nodes@,
                    k,
                    v@,
                    pw,
                ),
                Err(e) => exists|i: int|
                    0 <= i < v@.len() && #[trigger] defect(d, nodes@, k, v@, i) == Some(e)
                        && sound_upto(d, nodes@, k, v@, i),
            }
        }),
{
    let k = count_boundary(g);
    web_of(nodes, k, v, g)
}

/// `vs` is the nullspace basis of the constraint matrix of the diagram
/// over the vertex order `nodes`.
pub open spec fn is_detection_basis(d: Diagram, nodes: Seq<usize>, vs: Seq<Seq<bool>>) -> bool {
    let k = boundary_set(d).len();
    nullspace_basis(
        constraint_matrix(adjacency(d, nodes), k, nodes.len()),
        k + nodes.len(),
        vs,
    )
}

/// Each of the first `count` vectors of `vs` is free of defects, and its
/// web is the web at the same place of `webs`.
pub open spec fn are_webs_of(
    d: Diagram,
    nodes: Seq<usize>,
    vs: Seq<Seq<bool>>,
    webs: Seq<PauliWeb>,
    count: int,
) -> bool {
    let k = boundary_set(d).len();
    forall|t: int|
        0 <= t < count ==> sound_upto(d, nodes, k, #[trigger] vs[t], vs[t].len() as int)
            && is_web_of(d, nodes, k, vs[t], webs[t])
}

/// `e` is the first defect of the first vector of `vs` that has one.
pub open spec fn is_first_defect(
    d: Diagram,
    nodes: Seq<usize>,
    vs: Seq<Seq<bool>>,
    e: WebError,
) -> bool {
    let k = boundary_set(d).len();
    exists|t: int, i: int|
        {
            &&& 0 <= t < vs.len()
            &&& 0 <= i < vs[t].len()
            &&& #[trigger] defect(d, nodes, k, vs[t], i) == Some(e)
            &&& sound_upto(d, nodes, k, vs[t], i)
            &&& forall|s: int|
                0 <= s < t ==> sound_upto(d, nodes, k, #[trigger] vs[s], vs[s].len() as int)
        }
}

/// What `get_detection_webs` returns for the vertex order `nodes`:
/// `TooLarge` where the constraint matrix has more columns than a bit
/// vector holds; else the webs of the nullspace basis, in its order, or the
/// first defect among the vectors of the basis.
pub open spec fn is_detection_result_over(
    d: Diagram,
    nodes: Seq<usize>,
    r: Result<Vec<PauliWeb>, WebError>,
) -> bool {
    if boundary_set(d).len() + nodes.len() > max_bits() {
        r == Err::<Vec<PauliWeb>, WebError>(WebError::TooLarge)
    } else {
        exists|vs: Seq<Seq<bool>>|
            {
                &&& #[trigger] is_detection_basis(d, nodes, vs)
                &&& match r {
                    Ok(webs) => webs@.len() == vs.len() && are_webs_of(
                        d,
                        nodes,
                        vs,
                        webs@,
                        vs.len() as int,
                    ),
                    Err(e) => is_first_defect(d, nodes, vs, e),
                }
            }
    }
}

/// What `get_detection_webs` returns on a graph that it has brought into
/// red-green form, with the diagram `d`.
pub open spec fn is_detection_result(d: Diagram, r: Result<Vec<PauliWeb>, WebError>) -> bool {
    exists|nodes: Seq<usize>|
        {
            &&& #[trigger] is_node_order(d, nodes)
            &&& nodes.no_duplicates()
            &&& is_detection_result_over(d, nodes, r)
        }
}

/// The bits of a row vector, as a vector of booleans.
fn row_to_vec(m: &Mat2) -> (v: Vec<bool>)
    requires
        m.wf(),
        m.spec_rows() == 1,
    ensures
        v@ == m@[0],
{
    let n = m.cols();
    let mut v: Vec<bool> = Vec::new();
    let mut i: usize = 0;
    proof {
        m.lemma_shape();
    }
    while i < n
        invariant
            i <= n,
            m.wf(),
            m.spec_rows() == 1,
            n == m.spec_cols(),
            m@[0].len() == n,
            v@ == m@[0].take(i as int),
        decreases n - i,
    {
        v.push(m.get(0, i));
        assert(m@[0].take(i + 1) =~= m@[0].take(i as int).push(m@[0][i as int]));
        i += 1;
    }
    assert(m@[0].take(n as int) =~= m@[0]);
    v
}

/// The detection webs of a graph, which is first brought into red-green
/// form in place.
///
/// Returns one web for each vector of the nullspace basis of the
/// constraint matrix, in the order of the basis: none where the nullspace
/// is trivial. A graph that cannot be brought into red-green form is
/// reported with the reason, as is a basis vector that selects a vertex
/// which is no X or Z spider.
pub fn get_detection_webs(g: &mut Graph) -> (r: Result<Vec<PauliWeb>, WebError>)
    ensures
        !consistent(diagram(*old(g))) ==> diagram(*final(g)) == diagram(*old(g)) && r == Err::<
            Vec<PauliWeb>,
            WebError,
        >(WebError::Normalization(RgError::InconsistentGraph)),
        consistent(diagram(*old(g))) ==> diagram(*final(g)) == rg_result(
            diagram(*old(g)),
            REWRITE_CAP as nat,
        ),
        consistent(diagram(*old(g))) ==> match rg_failure(diagram(*old(g)), REWRITE_CAP as nat) {
            Some(e) => r == Err::<Vec<PauliWeb>, WebError>(WebError::Normalization(e)),
            None => is_rg(diagram(*final(g))) && is_detection_result(diagram(*final(g)), r),
        },
{
    match make_rg(g) {
        Err(e) => {
            return Err(WebError::Normalization(e));
        },
        Ok(_) => {},
    }
    let ghost d = diagram(*g);
    let (nodelist, k) = order_vertices(g);
    let n = nodelist.len();
    let limit = usize::MAX / 8;
    if n > limit || k > limit - n {
        proof {
            let r = Err::<Vec<PauliWeb>, WebError>(WebError::TooLarge);
            assert(is_node_order(d, nodelist@));
            assert(is_detection_result_over(d, nodelist@, r));
        }
        return Err(WebError::TooLarge);
    }
    let big_n = get_adjacency_matrix(g, &nodelist);
    let i_n = Mat2::id(k);
    let zeroblock = Mat2::zeros(n - k, k);
    let mdl = i_n.vstack(&zeroblock);
    let md = mdl.hstack(&big_n);
    let eye_part = Mat2::id(2 * k);
    let zero_part = Mat2::zeros(2 * k, n - k);
    let no_output = eye_part.hstack(&zero_part);
    let md_no_output = md.vstack(&no_output);
    let mdnons = md_no_output.nullspace(false);
    let ghost vs = Seq::new(mdnons@.len(), |t: int| mdnons@[t]@[0]);
    proof {
        assert(md_no_output@ == constraint_matrix(adjacency(d, nodelist@), k as nat, n as nat));
        assert(is_detection_basis(d, nodelist@, vs));
    }
    let mut pws: Vec<PauliWeb> = Vec::new();
    let mut t: usize = 0;
    while t < mdnons.len()
        invariant
            t <= mdnons@.len(),
            d == diagram(*g),
            k == boundary_set(d).len(),
            pws@.len() == t,
            consistent(diagram(*old(g))),
            d == rg_result(diagram(*old(g)), REWRITE_CAP as nat),
            rg_failure(diagram(*old(g)), REWRITE_CAP as nat) is None,
            is_rg(d),
            is_node_order(d, nodelist@),
            nodelist@.no_duplicates(),
            boundary_set(d).len() + nodelist@.len() <= max_bits(),
            is_detection_basis(d, nodelist@, vs),
            vs == Seq::new(mdnons@.len(), |t: int| mdnons@[t]@[0]),
            forall|s: int|
                0 <= s < mdnons@.len() ==> (#[trigger] mdnons@[s]).wf() && mdnons@[s].spec_rows()
                    == 1,
            are_webs_of(d, nodelist@, vs, pws@, t as int),
        decreases mdnons@.len() - t,
    {
        let vec = row_to_vec(&mdnons[t]);
        proof {
            assert(vec@ == vs[t as int]);
        }
        match web_of(&nodelist, k, &vec, g) {
            Ok(pw) => {
                let ghost before = pws@;
                pws.push(pw);
                proof {
                    assert forall|s: int| 0 <= s < t + 1 implies sound_upto(
                        d,
                        nodelist@,
                        k as nat,
                        #[trigger] vs[s],
                        vs[s].len() as int,
                    ) && is_web_of(d, nodelist@, k as nat, vs[s], pws@[s]) by {
                        if s < t {
                            assert(pws@[s] == before[s]);
                        }
                    }
                }
            },
            Err(e) => {
                proof {
                    let r = Err::<Vec<PauliWeb>, WebError>(e);
                    let i = choose|i: int|
                        0 <= i < vec@.len() && #[trigger] defect(d, nodelist@, k as nat, vec@, i)
                            == Some(e) && sound_upto(d, nodelist@, k as nat, vec@, i);
                    assert(defect(d, nodelist@, k as nat, vs[t as int], i) == Some(e));
                    assert(is_first_defect(d, nodelist@, vs, e));
                    assert(is_detection_result_over(d, nodelist@, r));
                    assert(is_detection_result(d, r));
                }
                return Err(e);
            },
        }
        t += 1;
    }
    proof {
        let r = Ok::<Vec<PauliWeb>, WebError>(pws);
        assert(is_detection_result_over(d, nodelist@, r));
        assert(is_detection_result(d, r));
    }
    Ok(pws)
}

} // verus!
