//! The distance that the graph is built and walked by.
use vstd::prelude::*;

verus! {

/// Per-node distance the graph is generic over. Lower is nearer.
///
/// A scorer folds a query once with [`prepare`](NodeScorer::prepare), or a
/// stored node with [`prepare_node`](NodeScorer::prepare_node), and then scores
/// many nodes against the folded form. Distances are binary32 patterns.
///
/// The specification functions have bodies only so that a scorer outside of
/// verified code can leave them out; a verified scorer gives its own.
pub trait NodeScorer {
    /// A query from outside.
    type Query;

    /// A query folded into the form that makes scoring cheap.
    type Prepared;

    /// Number of stored nodes.
    open spec fn count(&self) -> nat {
        0
    }

    /// Number of coordinates.
    open spec fn vector_dim(&self) -> nat {
        0
    }

    /// The stored data is consistent.
    open spec fn ready(&self) -> bool {
        true
    }

    /// The query has the shape this scorer takes.
    open spec fn accepts(&self, q: Self::Query) -> bool {
        true
    }

    /// The folded query has the shape this scorer takes.
    open spec fn folded(&self, p: Self::Prepared) -> bool {
        true
    }

    /// Distance from a folded query to a node.
    open spec fn score_of(&self, p: Self::Prepared, node: u32) -> u32 {
        0
    }

    /// Distance from a query to a node.
    open spec fn query_dist(&self, q: Self::Query, node: u32) -> u32 {
        0
    }

    /// Distance from the stored node `a` to the stored node `b`.
    open spec fn node_dist(&self, a: u32, b: u32) -> u32 {
        0
    }

    /// Number of stored nodes.
    fn len(&self) -> (r: usize)
        requires
            self.ready(),
        ensures
            r == self.count(),
    ;

    /// Whether the scorer holds no nodes.
    fn is_empty(&self) -> (r: bool)
        requires
            self.ready(),
        ensures
            r == (self.count() == 0),
    {
        self.len() == 0
    }

    /// Vector dimensionality.
    fn dim(&self) -> (r: usize)
        requires
            self.ready(),
        ensures
            r == self.vector_dim(),
    ;

    /// Fold a query.
    fn prepare(&self, q: &Self::Query) -> (p: Self::Prepared)
        requires
            self.ready(),
            self.accepts(*q),
        ensures
            self.folded(p),
            forall|x: u32| #[trigger] self.score_of(p, x) == self.query_dist(*q, x),
    ;

    /// Fold a stored node.
    fn prepare_node(&self, node: u32) -> (p: Self::Prepared)
        requires
            self.ready(),
            node < self.count(),
        ensures
            self.folded(p),
            forall|x: u32| #[trigger] self.score_of(p, x) == self.node_dist(node, x),
    ;

    /// Distance from the folded query to `node`.
    fn score(&self, p: &Self::Prepared, node: u32) -> (r: u32)
        requires
            self.ready(),
            self.folded(*p),
            node < self.count(),
        ensures
            r == self.score_of(*p, node),
    ;
}

/// Distances from one folded query, as a function of the node.
pub open spec fn scores_from<S: NodeScorer>(s: &S, p: S::Prepared) -> spec_fn(u32) -> u32 {
    |x: u32| s.score_of(p, x)
}

/// Distances from one query, as a function of the node.
pub open spec fn query_scores<S: NodeScorer>(s: &S, q: S::Query) -> spec_fn(u32) -> u32 {
    |x: u32| s.query_dist(q, x)
}

/// Distances between stored nodes, as a function of both.
pub open spec fn pair_scores<S: NodeScorer>(s: &S) -> spec_fn(u32, u32) -> u32 {
    |a: u32, b: u32| s.node_dist(a, b)
}

} // verus!
