//! A compact directed/undirected graph stored as an incidence list: each
//! vertex's outgoing edges form a singly linked list threaded through
//! parallel arrays indexed by edge id. Edge ids are assigned monotonically
//! from 0 and are never removed or renumbered; adjacency enumeration yields
//! the most recently inserted edge first. A 2-SAT clause encoder adds the two
//! implication edges of a clause under the doubled-vertex convention.

use vstd::prelude::*;

verus! {

/// Every link points at a strictly smaller edge id, so following links from
/// any edge terminates.
pub closed spec fn links_ok(links: Seq<Option<usize>>) -> bool {
    forall|e: int| 0 <= e < links.len() && links[e] is Some ==> links[e]->0 < e
}

/// Every adjacency-list head names an existing edge.
pub closed spec fn heads_ok(heads: Seq<Option<usize>>, num_edges: nat) -> bool {
    forall|u: int| 0 <= u < heads.len() && heads[u] is Some ==> heads[u]->0 < num_edges
}

/// The `(edge id, destination)` pairs reached from `cur` by following the
/// link fields, most recently inserted edge first.
pub closed spec fn chain(
    links: Seq<Option<usize>>,
    dests: Seq<usize>,
    cur: Option<usize>,
) -> Seq<(usize, usize)>
    decreases (match cur {
        Some(e) => e as int + 1,
        None => 0,
    }),
        when links_ok(links) && (cur is Some ==> cur->0 < links.len())
{
    match cur {
        Some(e) => seq![(e, dests[e as int])] + chain(links, dests, links[e as int]),
        None => Seq::empty(),
    }
}

/// Appending a fresh edge record leaves every chain through the existing
/// edges unchanged.
proof fn lemma_chain_push(
    links: Seq<Option<usize>>,
    dests: Seq<usize>,
    x: Option<usize>,
    y: usize,
    cur: Option<usize>,
)
    requires
        links.len() == dests.len(),
        links_ok(links),
        x is Some ==> x->0 < links.len(),
        cur is Some ==> cur->0 < links.len(),
    ensures
        links_ok(links.push(x)),
        chain(links.push(x), dests.push(y), cur) == chain(links, dests, cur),
    decreases (match cur {
        Some(e) => e as int + 1,
        None => 0,
    }),
{
    assert forall|e: int|
        0 <= e < links.push(x).len() && links.push(x)[e] is Some implies links.push(x)[e]->0
        < e by {
        if e < links.len() {
            assert(links.push(x)[e] == links[e]);
        }
    }
    match cur {
        Some(e) => {
            assert(links.push(x)[e as int] == links[e as int]);
            assert(dests.push(y)[e as int] == dests[e as int]);
            lemma_chain_push(links, dests, x, y, links[e as int]);
        },
        None => {},
    }
}

/// A vertex/edge incidence structure with a fixed vertex count, supporting
/// directed and undirected edge insertion and adjacency enumeration.
pub struct Graph {
    vertex_to_edge: Vec<Option<usize>>,
    edge_to_edge: Vec<Option<usize>>,
    edge_to_vertex: Vec<usize>,
}

impl Graph {
    /// Per vertex, the most recently added outgoing edge, if any.
    pub closed spec fn heads(self) -> Seq<Option<usize>> {
        self.vertex_to_edge@
    }

    /// Per edge, the next edge in the same vertex's outgoing list, if any.
    pub closed spec fn links(self) -> Seq<Option<usize>> {
        self.edge_to_edge@
    }

    /// Per edge, its destination vertex.
    pub closed spec fn dests(self) -> Seq<usize> {
        self.edge_to_vertex@
    }

    /// The number of vertices, fixed at construction time.
    pub open spec fn num_vertices(self) -> nat {
        self.heads().len()
    }

    /// The number of directed edge records currently stored.
    pub open spec fn num_edges(self) -> nat {
        self.dests().len()
    }

    /// Heads and links stay within the stored edges and link chains are
    /// acyclic.
    pub closed spec fn wf(self) -> bool {
        &&& self.edge_to_edge@.len() == self.edge_to_vertex@.len()
        &&& links_ok(self.edge_to_edge@)
        &&& heads_ok(self.vertex_to_edge@, self.edge_to_vertex@.len())
    }

    /// The outgoing edges of `u` as `(edge id, destination)` pairs, in
    /// reverse insertion order (most recently added edge first).
    pub open spec fn adjacency(self, u: int) -> Seq<(usize, usize)> {
        chain(self.links(), self.dests(), self.heads()[u])
    }

    /// Allocates `max_vertices` empty adjacency heads; `max_edges_est` is
    /// only a capacity hint, not a limit.
    pub fn new(max_vertices: usize, max_edges_est: usize) -> (g: Graph)
        ensures
            g.wf(),
            g.num_vertices() == max_vertices,
            g.num_edges() == 0,
            forall|u: int| 0 <= u < max_vertices ==> g.adjacency(u) == Seq::<(usize, usize)>::empty(),
    {
        let mut vertex_to_edge: Vec<Option<usize>> = Vec::new();
        let mut i: usize = 0;
        while i < max_vertices
            invariant
                i <= max_vertices,
                vertex_to_edge@.len() == i,
                forall|j: int| 0 <= j < i ==> vertex_to_edge@[j] is None,
            decreases max_vertices - i,
        {
            vertex_to_edge.push(None);
            i = i + 1;
        }
        let g = Graph {
            vertex_to_edge,
            edge_to_edge: Vec::with_capacity(max_edges_est),
            edge_to_vertex: Vec::with_capacity(max_edges_est),
        };
        proof {
            assert forall|u: int|
                0 <= u < max_vertices implies g.adjacency(u) == Seq::<(usize, usize)>::empty() by {
                assert(g.heads()[u] is None);
            }
        }
        g
    }

    /// The vertex count the graph was created with.
    pub fn get_num_vertices(&self) -> (n: usize)
        ensures
            n == self.num_vertices(),
    {
        self.vertex_to_edge.len()
    }

    /// The number of directed edge records stored so far (each undirected
    /// edge insertion counts as two).
    pub fn get_num_edges(&self) -> (n: usize)
        ensures
            n == self.num_edges(),
    {
        self.edge_to_vertex.len()
    }

    /// The destination vertex recorded for the edge `edge`.
    pub fn get_edge_destination(&self, edge: usize) -> (v: usize)
        requires
            edge < self.num_edges(),
        ensures
            v == self.dests()[edge as int],
    {
        self.edge_to_vertex[edge]
    }

    /// Inserts one directed edge from `pair.0` to `pair.1` under the next
    /// free edge id. The new edge becomes the head of the source vertex's
    /// adjacency list; every other vertex's list is unchanged. The
    /// destination is recorded as given, without a bound check, as an
    /// adjacency entry.
    pub fn add_directed_edge(&mut self, pair: (usize, usize))
        requires
            old(self).wf(),
            pair.0 < old(self).num_vertices(),
        ensures
            final(self).wf(),
            final(self).num_vertices() == old(self).num_vertices(),
            final(self).num_edges() == old(self).num_edges() + 1,
            final(self).dests() == old(self).dests().push(pair.1),
            final(self).adjacency(pair.0 as int) == seq![
                (old(self).num_edges() as usize, pair.1),
            ] + old(self).adjacency(pair.0 as int),
            forall|w: int|
                0 <= w < final(self).num_vertices() && w != pair.0 ==> final(self).adjacency(w)
                    == old(self).adjacency(w),
    {
        let e = self.edge_to_vertex.len();
        let head = self.vertex_to_edge[pair.0];
        self.edge_to_edge.push(head);
        self.vertex_to_edge[pair.0] = Some(e);
        self.edge_to_vertex.push(pair.1);
        proof {
            let pre = *old(self);
            assert(self.links() == pre.links().push(head));
            assert(self.dests() == pre.dests().push(pair.1));
            lemma_chain_push(pre.links(), pre.dests(), head, pair.1, head);
            assert(heads_ok(self.heads(), self.num_edges()));
            assert(self.links()[e as int] == head);
            assert(self.dests()[e as int] == pair.1);
            assert(self.adjacency(pair.0 as int) == seq![(e, pair.1)] + chain(
                self.links(),
                self.dests(),
                head,
            ));
            assert forall|w: int|
                0 <= w < self.num_vertices() && w != pair.0 implies self.adjacency(w)
                == pre.adjacency(w) by {
                assert(self.heads()[w] == pre.heads()[w]);
                lemma_chain_push(pre.links(), pre.dests(), head, pair.1, pre.heads()[w]);
            }
        }
    }

    /// Inserts the directed edge `pair.0 -> pair.1` and then the directed
    /// edge `pair.1 -> pair.0`, allocating two consecutive edge ids.
    pub fn add_undirected_edge(&mut self, pair: (usize, usize))
        requires
            old(self).wf(),
            pair.0 < old(self).num_vertices(),
            pair.1 < old(self).num_vertices(),
        ensures
            final(self).wf(),
            final(self).num_vertices() == old(self).num_vertices(),
            final(self).num_edges() == old(self).num_edges() + 2,
            pair.0 != pair.1 ==> final(self).adjacency(pair.0 as int) == seq![
                (old(self).num_edges() as usize, pair.1),
            ] + old(self).adjacency(pair.0 as int),
            pair.0 != pair.1 ==> final(self).adjacency(pair.1 as int) == seq![
                ((old(self).num_edges() + 1) as usize, pair.0),
            ] + old(self).adjacency(pair.1 as int),
            pair.0 == pair.1 ==> final(self).adjacency(pair.0 as int) == seq![
                ((old(self).num_edges() + 1) as usize, pair.0),
                (old(self).num_edges() as usize, pair.1),
            ] + old(self).adjacency(pair.0 as int),
            forall|w: int|
                0 <= w < final(self).num_vertices() && w != pair.0 && w != pair.1
                    ==> final(self).adjacency(w) == old(self).adjacency(w),
    {
        let (u, v) = pair;
        self.add_directed_edge((u, v));
        let ghost mid = *self;
        self.add_directed_edge((v, u));
        proof {
            if u == v {
                assert(self.adjacency(u as int) =~= seq![
                    ((old(self).num_edges() + 1) as usize, u),
                    (old(self).num_edges() as usize, v),
                ] + old(self).adjacency(u as int));
            }
        }
    }

    /// Encodes the 2-SAT clause "literal `u` or literal `v`" under the
    /// doubled-vertex convention, where `x ^ 1` is the negation of literal
    /// `x`: inserts exactly the two directed implication edges
    /// `(u ^ 1) -> v` and then `(v ^ 1) -> u`.
    pub fn boolean_satistfiability(&mut self, u: usize, v: usize)
        requires
            old(self).wf(),
            u ^ 1 < old(self).num_vertices(),
            v ^ 1 < old(self).num_vertices(),
        ensures
            final(self).wf(),
            final(self).num_vertices() == old(self).num_vertices(),
            final(self).num_edges() == old(self).num_edges() + 2,
            u ^ 1 != v ^ 1 ==> final(self).adjacency((u ^ 1) as int) == seq![
                (old(self).num_edges() as usize, v),
            ] + old(self).adjacency((u ^ 1) as int),
            u ^ 1 != v ^ 1 ==> final(self).adjacency((v ^ 1) as int) == seq![
                ((old(self).num_edges() + 1) as usize, u),
            ] + old(self).adjacency((v ^ 1) as int),
            u ^ 1 == v ^ 1 ==> final(self).adjacency((u ^ 1) as int) == seq![
                ((old(self).num_edges() + 1) as usize, u),
                (old(self).num_edges() as usize, v),
            ] + old(self).adjacency((u ^ 1) as int),
            forall|w: int|
                0 <= w < final(self).num_vertices() && w != u ^ 1 && w != v ^ 1
                    ==> final(self).adjacency(w) == old(self).adjacency(w),
    {
        self.add_directed_edge((u ^ 1, v));
        self.add_directed_edge((v ^ 1, u));
        proof {
            if u ^ 1 == v ^ 1 {
                assert(self.adjacency((u ^ 1) as int) =~= seq![
                    ((old(self).num_edges() + 1) as usize, u),
                    (old(self).num_edges() as usize, v),
                ] + old(self).adjacency((u ^ 1) as int));
            }
        }
    }

    /// Returns a single-pass cursor over the outgoing edges of `u`, most
    /// recently inserted edge first, borrowing the graph for its duration.
    pub fn get_adjacency_list<'a>(&'a self, u: usize) -> (it: AdjacencyListIterator<'a>)
        requires
            self.wf(),
            u < self.num_vertices(),
        ensures
            it.wf(),
            it.graph() == *self,
            it.remaining() == self.adjacency(u as int),
    {
        AdjacencyListIterator { graph: self, next_edge: self.vertex_to_edge[u] }
    }
}

/// Every `(edge id, destination)` pair that the adjacency enumeration of any
/// vertex produces names an existing edge, and its destination is exactly
/// that edge's recorded destination vertex.
pub proof fn lemma_adjacency_consistent(g: Graph, u: int, k: int)
    requires
        g.wf(),
        0 <= u < g.num_vertices(),
        0 <= k < g.adjacency(u).len(),
    ensures
        g.adjacency(u)[k].0 < g.num_edges(),
        g.adjacency(u)[k].1 == g.dests()[g.adjacency(u)[k].0 as int],
{
    lemma_chain_consistent(g.links(), g.dests(), g.heads()[u], k);
}

/// Every pair in a chain pairs an existing edge id with that edge's recorded
/// destination.
proof fn lemma_chain_consistent(
    links: Seq<Option<usize>>,
    dests: Seq<usize>,
    cur: Option<usize>,
    k: int,
)
    requires
        links.len() == dests.len(),
        links_ok(links),
        cur is Some ==> cur->0 < links.len(),
        0 <= k < chain(links, dests, cur).len(),
    ensures
        chain(links, dests, cur)[k].0 < links.len(),
        chain(links, dests, cur)[k].1 == dests[chain(links, dests, cur)[k].0 as int],
    decreases (match cur {
        Some(e) => e as int + 1,
        None => 0,
    }),
{
    let e = cur->0;
    if k > 0 {
        lemma_chain_consistent(links, dests, links[e as int], k - 1);
    }
}

/// A single-pass (non-restartable) cursor over one vertex's outgoing edges.
/// It borrows the graph for its whole life, so the graph cannot be mutated
/// while the cursor is in use.
pub struct AdjacencyListIterator<'a> {
    graph: &'a Graph,
    next_edge: Option<usize>,
}

impl<'a> AdjacencyListIterator<'a> {
    /// The graph the cursor was created from.
    pub closed spec fn graph(self) -> Graph {
        *self.graph
    }

    /// The edge the cursor stands on, if it is not exhausted.
    pub closed spec fn cur(self) -> Option<usize> {
        self.next_edge
    }

    /// The `(edge id, destination)` pairs the cursor has yet to produce.
    pub open spec fn remaining(self) -> Seq<(usize, usize)> {
        chain(self.graph().links(), self.graph().dests(), self.cur())
    }

    /// The underlying graph is well formed and the cursor stands on one of
    /// its edges.
    pub open spec fn wf(self) -> bool {
        &&& self.graph().wf()
        &&& (self.cur() is Some ==> self.cur()->0 < self.graph().num_edges())
    }

    /// Produces the next `(edge id, destination)` pair, or `None` once the
    /// link chain has reached its end marker.
    pub fn next(&mut self) -> (item: Option<(usize, usize)>)
        requires
            old(self).wf(),
        ensures
            final(self).wf(),
            final(self).graph() == old(self).graph(),
            old(self).remaining().len() == 0 ==> item is None && final(self).remaining()
                == old(self).remaining(),
            old(self).remaining().len() > 0 ==> item == Some(old(self).remaining()[0])
                && final(self).remaining() == old(self).remaining().drop_first(),
    {
        match self.next_edge {
            None => None,
            Some(edge) => {
                let g = self.graph;
                let vertex = g.edge_to_vertex[edge];
                self.next_edge = g.edge_to_edge[edge];
                proof {
                    assert(old(self).remaining() == seq![(edge, vertex)] + self.remaining());
                    assert(old(self).remaining().drop_first() =~= self.remaining());
                }
                Some((edge, vertex))
            },
        }
    }
}

} // verus!
