//! A graph of nodes and undirected edges, both carrying data and
//! addressed by single-character ids.

use vstd::prelude::*;

verus! {

/// Why an edge was rejected.
#[derive(Debug, Clone, Copy, PartialEq, Eq, Structural)]
pub enum GraphError {
    /// The edge's `from` node is not in the graph.
    InvalidFrom,
    /// The edge's `to` node is not in the graph.
    InvalidTo,
}

/// A graph: nodes with data and the ids of their incident edges, and
/// edges with data and their two endpoints.
#[derive(Debug)]
pub struct Graph<T, E> {
    nodes: Vec<(char, T, Vec<char>)>,
    edges: Vec<(char, E, char, char)>,
}

impl<T, E> Graph<T, E> {
    /// The node entries: id, data and incident edge ids.
    pub closed spec fn nodes_view(&self) -> Seq<(char, T, Vec<char>)> {
        self.nodes@
    }

    /// The edge entries: id, data and both endpoints.
    pub closed spec fn edges_view(&self) -> Seq<(char, E, char, char)> {
        self.edges@
    }

    /// Whether a node with this id exists.
    pub open spec fn has_node(&self, id: char) -> bool {
        exists|i: int| 0 <= i < self.nodes_view().len() && (#[trigger] self.nodes_view()[i]).0
            == id
    }

    /// Whether an edge with this id exists.
    pub open spec fn has_edge(&self, id: char) -> bool {
        exists|i: int| 0 <= i < self.edges_view().len() && (#[trigger] self.edges_view()[i]).0
            == id
    }

    /// An empty graph.
    pub fn new() -> (r: Graph<T, E>)
        ensures
            r.nodes_view() == Seq::<(char, T, Vec<char>)>::empty(),
            r.edges_view() == Seq::<(char, E, char, char)>::empty(),
    {
        Graph { nodes: Vec::new(), edges: Vec::new() }
    }

    /// Adds a node with no incident edges yet.
    pub fn add_node(&mut self, id: char, data: T)
        ensures
            final(self).has_node(id),
            final(self).nodes_view().len() == old(self).nodes_view().len() + 1,
            final(self).edges_view() == old(self).edges_view(),
    {
        self.nodes.push((id, data, Vec::new()));
        proof {
            let n = self.nodes_view().len() - 1;
            assert(self.nodes_view()[n].0 == id);
        }
    }

    /// Adds an edge between two existing nodes and registers it with
    /// both; rejected when either endpoint is missing.
    pub fn add_edge(&mut self, id: char, from: char, to: char, data: E) -> (r: Result<
        (),
        GraphError,
    >)
        ensures
            r is Ok <==> old(self).has_node(from) && old(self).has_node(to),
            r is Err ==> *final(self) == *old(self) && r->Err_0 == if !old(self).has_node(from) {
                GraphError::InvalidFrom
            } else {
                GraphError::InvalidTo
            },
            r is Ok ==> {
                &&& final(self).has_edge(id)
                &&& final(self).edges_view().len() == old(self).edges_view().len() + 1
                &&& final(self).nodes_view().len() == old(self).nodes_view().len()
            },
    {
        let fi = match self.find_node(from) {
            Some(i) => i,
            None => {
                return Err(GraphError::InvalidFrom);
            },
        };
        let ti = match self.find_node(to) {
            Some(i) => i,
            None => {
                return Err(GraphError::InvalidTo);
            },
        };
        self.nodes[ti].2.push(id);
        self.nodes[fi].2.push(id);
        self.edges.push((id, data, from, to));
        proof {
            let n = self.edges_view().len() - 1;
            assert(self.edges_view()[n].0 == id);
            assert forall|j: int|
                0 <= j < old(self).nodes_view().len() implies (#[trigger] self.nodes_view()[
                j
            ]).0 == old(self).nodes_view()[j].0 by {}
        }
        Ok(())
    }

    /// The index of the node with this id, scanning in insertion
    /// order.
    fn find_node(&self, id: char) -> (r: Option<usize>)
        ensures
            r is Some ==> r->Some_0 < self.nodes_view().len() && self.nodes_view()[
                r->Some_0 as int
            ].0 == id,
            r is None ==> !self.has_node(id),
    {
        let n = self.nodes.len();
        let mut i: usize = 0;
        while i < n
            invariant
                n == self.nodes_view().len(),
                i <= n,
                forall|j: int| 0 <= j < i ==> (#[trigger] self.nodes_view()[j]).0 != id,
            decreases n - i,
        {
            if self.nodes[i].0 == id {
                return Some(i);
            }
            i = i + 1;
        }
        None
    }
}

} // verus!
