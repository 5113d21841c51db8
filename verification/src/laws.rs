//! Connectivity is an equivalence relation on the elements of a well-formed
//! forest.  These laws hold in every reachable state: they are true of the
//! freshly constructed forest and every merge preserves well-formedness, so
//! they remain true after any sequence of operations.

use vstd::prelude::*;

verus! {

use crate::forest::UF;

/// Reflexivity: every valid element is connected to itself.
pub proof fn lemma_connected_reflexive(uf: UF, p: int)
    requires
        uf.wf(),
        uf.valid_index(p),
    ensures
        uf.connected(p, p),
{
}

/// Symmetry: connectivity does not depend on the order of the two elements.
pub proof fn lemma_connected_symmetric(uf: UF, p: int, q: int)
    requires
        uf.wf(),
        uf.valid_index(p),
        uf.valid_index(q),
    ensures
        uf.connected(p, q) == uf.connected(q, p),
{
}

/// Transitivity: elements connected to a common element are connected to
/// each other.
pub proof fn lemma_connected_transitive(uf: UF, a: int, b: int, c: int)
    requires
        uf.wf(),
        uf.valid_index(a),
        uf.valid_index(b),
        uf.valid_index(c),
        uf.connected(a, b),
        uf.connected(b, c),
    ensures
        uf.connected(a, c),
{
}

} // verus!
