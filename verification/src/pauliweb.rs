//! Pauli webs: labelings of the edges of a ZX diagram with Pauli operators.

use std::collections::HashMap;
use vstd::prelude::*;

verus! {

/// A Pauli operator other than the identity.
#[derive(Debug, Clone, Copy, PartialEq, Eq, Hash, Structural)]
pub enum Pauli {
    X,
    Y,
    Z,
}

/// The key under which the edge between `a` and `b` is stored: the smaller
/// endpoint in the high 64 bits, the larger in the low 64 bits.
pub open spec fn edge_key(a: usize, b: usize) -> u128 {
    if a <= b {
        (a * 0x1_0000_0000_0000_0000 + b) as u128
    } else {
        (b * 0x1_0000_0000_0000_0000 + a) as u128
    }
}

/// Distinct edges have distinct keys.
pub proof fn lemma_edge_key_injective(a: usize, b: usize, c: usize, d: usize)
    requires
        edge_key(a, b) == edge_key(c, d),
    ensures
        (a == c && b == d) || (a == d && b == c),
{
}

/// The color in which an edge with the label `p` is drawn.
pub open spec fn pauli_color(p: Pauli) -> Seq<char> {
    match p {
        Pauli::X => "green"@,
        Pauli::Y => "blue"@,
        Pauli::Z => "red"@,
    }
}

/// A Pauli web: a partial map from the edges of a diagram to Pauli
/// operators. An edge is an unordered pair of vertices.
#[derive(Debug, Clone)]
pub struct PauliWeb {
    /// The label of each labelled edge, under its `edge_key`.
    pub edge_operators: HashMap<u128, Pauli>,
}

impl PauliWeb {
    /// The label of the edge between `a` and `b`, if it has one.
    pub open spec fn label(&self, a: usize, b: usize) -> Option<Pauli> {
        if self.edge_operators@.contains_key(edge_key(a, b)) {
            Some(self.edge_operators@[edge_key(a, b)])
        } else {
            None
        }
    }

    /// The web without labels.
    pub fn new() -> (pw: PauliWeb)
        ensures
            pw.edge_operators@ == Map::<u128, Pauli>::empty(),
            forall|a: usize, b: usize| pw.label(a, b) is None,
    {
        PauliWeb { edge_operators: HashMap::new() }
    }

    /// The key of the edge between `from` and `to`.
    fn key(from: usize, to: usize) -> (k: u128)
        ensures
            k == edge_key(from, to),
    {
        let (lo, hi) = if from <= to {
            (from, to)
        } else {
            (to, from)
        };
        lo as u128 * 0x1_0000_0000_0000_0000u128 + hi as u128
    }

    /// Labels the edge between `from` and `to` with `pauli`, in place of
    /// any label it had.
    pub fn set_edge(&mut self, from: usize, to: usize, pauli: Pauli)
        ensures
            final(self).edge_operators@ == old(self).edge_operators@.insert(
                edge_key(from, to),
                pauli,
            ),
            final(self).label(from, to) == Some(pauli),
            final(self).label(to, from) == Some(pauli),
            forall|a: usize, b: usize|
                !((a == from && b == to) || (a == to && b == from)) ==> final(self).label(a, b)
                    == old(self).label(a, b),
    {
        broadcast use vstd::std_specs::hash::group_hash_axioms;

        let k = PauliWeb::key(from, to);
        self.edge_operators.insert(k, pauli);
        proof {
            assert forall|a: usize, b: usize|
                !((a == from && b == to) || (a == to && b == from)) implies self.label(a, b)
                == old(self).label(a, b) by {
                if edge_key(a, b) == edge_key(from, to) {
                    lemma_edge_key_injective(a, b, from, to);
                }
            }
        }
    }

    /// The label of the edge between `from` and `to`, in either order of
    /// the endpoints.
    pub fn get_edge(&self, from: usize, to: usize) -> (r: Option<Pauli>)
        ensures
            r == self.label(from, to),
            r == self.label(to, from),
    {
        broadcast use vstd::std_specs::hash::group_hash_axioms;

        let k = PauliWeb::key(from, to);
        match self.edge_operators.get(&k) {
            Some(p) => Some(*p),
            None => None,
        }
    }

    /// The color in which to draw the edge between `from` and `to`: green
    /// for X, blue for Y, red for Z, none for an edge without label.
    pub fn get_edge_color(&self, from: usize, to: usize) -> (r: Option<&'static str>)
        ensures
            match self.label(from, to) {
                Some(p) => r matches Some(s) && s@ == pauli_color(p),
                None => r is None,
            },
    {
        match self.get_edge(from, to) {
            Some(Pauli::X) => Some("green"),
            Some(Pauli::Y) => Some("blue"),
            Some(Pauli::Z) => Some("red"),
            None => None,
        }
    }
}

impl Default for PauliWeb {
    /// The web without labels.
    fn default() -> (pw: PauliWeb)
        ensures
            pw.edge_operators@ == Map::<u128, Pauli>::empty(),
    {
        PauliWeb::new()
    }
}

} // verus!
