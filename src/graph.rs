//! The link graph, stored in petgraph's `DiGraphMap` and walked with its
//! breadth-first search. What the graph holds is named by `graph_nodes` and
//! `graph_edges`; every operation used here states its effect on them.
use petgraph::graphmap::{DiGraphMap, GraphMap};
use petgraph::visit::Bfs;
use petgraph::Directed;
use std::hash::BuildHasher;
use vstd::prelude::*;

verus! {

#[verifier::external_type_specification]
#[verifier::external_body]
#[verifier::reject_recursive_types(N)]
#[verifier::reject_recursive_types(E)]
#[verifier::reject_recursive_types(Ty)]
#[verifier::reject_recursive_types(S)]
pub struct ExGraphMap<N, E, Ty, S: BuildHasher>(GraphMap<N, E, Ty, S>);

#[verifier::external_type_specification]
#[verifier::external_body]
pub struct ExDirected(Directed);

/// The nodes of a link graph.
pub uninterp spec fn graph_nodes(g: DiGraphMap<usize, ()>) -> Set<usize>;

/// The directed edges (from, to) of a link graph.
pub uninterp spec fn graph_edges(g: DiGraphMap<usize, ()>) -> Set<(usize, usize)>;

/// Relies on `GraphMap::new`: a graph with no nodes and no edges.
#[verifier::external_body]
pub(crate) fn new_graph() -> (g: DiGraphMap<usize, ()>)
    ensures
        graph_nodes(g) == Set::<usize>::empty(),
        graph_edges(g) == Set::<(usize, usize)>::empty(),
{
    DiGraphMap::new()
}

/// Relies on `GraphMap::add_node`: adds the node `n` if absent; edges stay.
#[verifier::external_body]
pub(crate) fn add_node(g: &mut DiGraphMap<usize, ()>, n: usize)
    ensures
        graph_nodes(*final(g)) == graph_nodes(*old(g)).insert(n),
        graph_edges(*final(g)) == graph_edges(*old(g)),
{
    g.add_node(n);
}

/// Relies on `GraphMap::add_edge`: adds the edge `a -> b`, and `a` and `b` as
/// nodes where they are absent.
#[verifier::external_body]
pub(crate) fn add_edge(g: &mut DiGraphMap<usize, ()>, a: usize, b: usize)
    ensures
        graph_nodes(*final(g)) == graph_nodes(*old(g)).insert(a).insert(b),
        graph_edges(*final(g)) == graph_edges(*old(g)).insert((a, b)),
{
    g.add_edge(a, b, ());
}

/// The state of a breadth-first walk over a link graph: petgraph's `Bfs`
/// with its queue and its set of discovered nodes. The set is hashbrown's,
/// whose allocator parameter keeps it from being declared to Verus, so the
/// walk is held opaquely and described by `walk_yielded`, `walk_start` and
/// `walk_graph`.
#[verifier::external_body]
pub struct BreadthFirstWalk {
    walk: Bfs<usize, hashbrown::HashSet<usize>>,
}

/// The nodes a walk has yielded so far, in order.
pub uninterp spec fn walk_yielded(w: BreadthFirstWalk) -> Seq<usize>;

/// The node a walk started from.
pub uninterp spec fn walk_start(w: BreadthFirstWalk) -> usize;

/// The graph a walk was started on, and must be continued on.
pub uninterp spec fn walk_graph(w: BreadthFirstWalk) -> DiGraphMap<usize, ()>;

/// Relies on `petgraph::visit::Bfs::new`: a walk that has yielded nothing,
/// with `start` alone queued and discovered.
#[verifier::external_body]
pub(crate) fn walk_from(g: &DiGraphMap<usize, ()>, start: usize) -> (w: BreadthFirstWalk)
    ensures
        walk_yielded(w) == Seq::<usize>::empty(),
        walk_start(w) == start,
        walk_graph(w) == *g,
{
    BreadthFirstWalk { walk: Bfs::new(g, start) }
}

/// Relies on `petgraph::visit::Bfs::next`: pops the front of the queue,
/// queues the out-neighbours of that node not discovered yet, and yields it.
/// The queue holds exactly the discovered nodes not yet yielded, starting
/// with `start`, and every other node is discovered as the target of an edge
/// from a yielded node. So a yielded node is new; the first is `start`, every
/// later one the target of an edge from an earlier one; and once the queue is
/// empty (`None`), every out-neighbour of a yielded node has been yielded.
#[verifier::external_body]
pub(crate) fn walk_next(w: &mut BreadthFirstWalk, g: &DiGraphMap<usize, ()>) -> (r: Option<usize>)
    requires
        walk_graph(*old(w)) == *g,
    ensures
        walk_graph(*final(w)) == walk_graph(*old(w)),
        walk_start(*final(w)) == walk_start(*old(w)),
        match r {
            Some(x) => {
                &&& !walk_yielded(*old(w)).contains(x)
                &&& walk_yielded(*final(w)) == walk_yielded(*old(w)).push(x)
                &&& walk_yielded(*old(w)).len() == 0 ==> x == walk_start(*old(w))
                &&& walk_yielded(*old(w)).len() > 0 ==> exists|y: usize|
                    walk_yielded(*old(w)).contains(y) && #[trigger] graph_edges(*g).contains((y, x))
            },
            None => {
                &&& walk_yielded(*final(w)) == walk_yielded(*old(w))
                &&& walk_yielded(*old(w)).len() > 0
                &&& forall|y: usize, z: usize|
                    walk_yielded(*old(w)).contains(y) && #[trigger] graph_edges(*g).contains((y, z))
                        ==> walk_yielded(*old(w)).contains(z)
            },
        },
{
    w.walk.next(g)
}

} // verus!
