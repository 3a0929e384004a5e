//! The chunk graph, held in a `petgraph::stable_graph::StableGraph`: the id of
//! a chunk stays valid when other chunks are removed.

use crate::chunk::{lemma_sizes_fit, Chunk, ChunkView};
use crate::module_graph::ModuleGraph;
use petgraph::graph::{EdgeIndex, NodeIndex};
use petgraph::stable_graph::StableGraph;
use petgraph::visit::EdgeRef;
use petgraph::Directed;
use petgraph::Direction;
use vstd::prelude::*;

verus! {

/// `petgraph::stable_graph::StableGraph`: what a value of it holds is known
/// only through the functions below.
#[verifier::external_type_specification]
#[verifier::external_body]
#[verifier::reject_recursive_types(N)]
#[verifier::reject_recursive_types(E)]
#[verifier::reject_recursive_types(Ty)]
#[verifier::reject_recursive_types(Ix)]
pub struct ExStableGraph<N, E, Ty, Ix>(StableGraph<N, E, Ty, Ix>);

/// The node slots of a chunk graph by node index: the chunk of a live node,
/// `None` for a removed one.
pub uninterp spec fn graph_chunks(g: StableGraph<Chunk, i32, Directed, usize>) -> Seq<
    Option<ChunkView>,
>;

/// The live edges of a chunk graph by edge index, each as source and target.
pub uninterp spec fn graph_links(g: StableGraph<Chunk, i32, Directed, usize>) -> Map<
    usize,
    (usize, usize),
>;

/// The edge table without edges.
pub open spec fn no_links() -> Map<usize, (usize, usize)> {
    Map::empty()
}

/// Whether the slot `id` holds a chunk.
pub open spec fn slot_live(slots: Seq<Option<ChunkView>>, id: usize) -> bool {
    id < slots.len() && slots[id as int] is Some
}

/// Whether no slot is vacant.
pub open spec fn slots_dense(slots: Seq<Option<ChunkView>>) -> bool {
    forall|i: int| 0 <= i < slots.len() ==> (#[trigger] slots[i]) is Some
}

/// Whether the size of every chunk is the sum of the sizes of its modules.
pub open spec fn slots_sized(slots: Seq<Option<ChunkView>>, sizes: Seq<usize>) -> bool {
    forall|i: int|
        0 <= i < slots.len() && (#[trigger] slots[i]) is Some ==> slots[i].unwrap().sized(sizes)
}

/// The edges that do not touch `id`.
pub open spec fn links_apart(links: Set<(usize, usize)>, id: usize) -> Set<(usize, usize)> {
    Set::new(|p: (usize, usize)| links.contains(p) && p.0 != id && p.1 != id)
}

/// How two slot tables relate when chunks only came or were given more
/// modules: what was there is still there, with its old modules first and with
/// its old source chunks.
pub open spec fn slots_extended(before: Seq<Option<ChunkView>>, after: Seq<Option<ChunkView>>) -> bool {
    &&& before.len() <= after.len()
    &&& forall|i: int|
        0 <= i < before.len() && (#[trigger] before[i]) is Some ==> {
            &&& after[i] is Some
            &&& before[i].unwrap().module_ids.is_prefix_of(after[i].unwrap().module_ids)
            &&& before[i].unwrap().source_chunks == after[i].unwrap().source_chunks
        }
}

/// A table extends itself.
pub proof fn lemma_extended_same(chunks: Seq<Option<ChunkView>>)
    ensures
        slots_extended(chunks, chunks),
{
    assert forall|i: int| 0 <= i < chunks.len() && (#[trigger] chunks[i]) is Some implies chunks[i].unwrap().module_ids.is_prefix_of(
        chunks[i].unwrap().module_ids,
    ) by {
        let a = chunks[i].unwrap().module_ids;
        assert(a =~= a.subrange(0, a.len() as int));
    }
}

/// Extending twice is extending.
pub proof fn lemma_extended_twice(
    first: Seq<Option<ChunkView>>,
    second: Seq<Option<ChunkView>>,
    third: Seq<Option<ChunkView>>,
)
    requires
        slots_extended(first, second),
        slots_extended(second, third),
    ensures
        slots_extended(first, third),
{
    assert forall|i: int| 0 <= i < first.len() && (#[trigger] first[i]) is Some implies {
        &&& third[i] is Some
        &&& first[i].unwrap().module_ids.is_prefix_of(third[i].unwrap().module_ids)
        &&& first[i].unwrap().source_chunks == third[i].unwrap().source_chunks
    } by {
        assert(second[i] is Some);
        let a = first[i].unwrap().module_ids;
        let b = second[i].unwrap().module_ids;
        let c = third[i].unwrap().module_ids;
        assert(a =~= b.subrange(0, a.len() as int));
        assert(b =~= c.subrange(0, b.len() as int));
        assert(a =~= c.subrange(0, a.len() as int));
    }
}

/// A table with one more chunk at the end extends the table.
pub proof fn lemma_extended_by_push(chunks: Seq<Option<ChunkView>>, chunk: Option<ChunkView>)
    ensures
        slots_extended(chunks, chunks.push(chunk)),
{
    lemma_extended_same(chunks);
}

/// A table in which one chunk got one more module extends the table.
pub proof fn lemma_extended_by_module(
    chunks: Seq<Option<ChunkView>>,
    id: usize,
    module_id: usize,
    size: nat,
)
    requires
        slot_live(chunks, id),
    ensures
        slots_extended(
            chunks,
            chunks.update(id as int, Some(chunks[id as int].unwrap().with_module(module_id, size))),
        ),
{
    lemma_extended_same(chunks);
    let a = chunks[id as int].unwrap().module_ids;
    assert(a =~= a.push(module_id).subrange(0, a.len() as int));
}

/// Whether the chunk `id` is there and holds the module.
pub open spec fn holds(chunks: Seq<Option<ChunkView>>, id: usize, module_id: usize) -> bool {
    slot_live(chunks, id) && chunks[id as int].unwrap().module_ids.contains(module_id)
}

/// Whether some chunk holds the module.
pub open spec fn placed_in(chunks: Seq<Option<ChunkView>>, module_id: usize) -> bool {
    exists|id: usize| holds(chunks, id, module_id)
}

/// Whether the chunk `id` is there, has no source chunks, and begins with
/// the module.
pub open spec fn leads(chunks: Seq<Option<ChunkView>>, id: usize, module_id: usize) -> bool {
    &&& slot_live(chunks, id)
    &&& chunks[id as int].unwrap().is_entry()
    &&& chunks[id as int].unwrap().module_ids.len() > 0
    &&& chunks[id as int].unwrap().module_ids[0] == module_id
}

/// A module stays in its chunk, and at its head, when the table is extended.
pub proof fn lemma_extended_keeps(
    before: Seq<Option<ChunkView>>,
    after: Seq<Option<ChunkView>>,
    id: usize,
    module_id: usize,
)
    requires
        slots_extended(before, after),
    ensures
        holds(before, id, module_id) ==> holds(after, id, module_id),
        leads(before, id, module_id) ==> leads(after, id, module_id),
{
    if slot_live(before, id) {
        assert(before[id as int] is Some);
        let a = before[id as int].unwrap().module_ids;
        let b = after[id as int].unwrap().module_ids;
        if a.contains(module_id) {
            let k = choose|k: int| 0 <= k < a.len() && a[k] == module_id;
            assert(b.subrange(0, a.len() as int)[k] == module_id);
            assert(b[k] == module_id);
        }
        if a.len() > 0 {
            assert(b.subrange(0, a.len() as int)[0] == a[0]);
        }
    }
}

/// Whether some edge goes from `from` to `to`.
pub open spec fn joined(links: Map<usize, (usize, usize)>, from: usize, to: usize) -> bool {
    exists|e: usize| #[trigger] links.dom().contains(e) && links[e] == (from, to)
}

/// Whether `edges` lists each edge that touches `id` once, as edge index and
/// other end: the edges that leave `id` if `outgoing`, else those that enter it.
pub open spec fn lists_edges(
    links: Map<usize, (usize, usize)>,
    id: usize,
    outgoing: bool,
    edges: Seq<(usize, usize)>,
) -> bool {
    &&& forall|k: int|
        0 <= k < edges.len() ==> links.dom().contains((#[trigger] edges[k]).0) && links[edges[k].0]
            == if outgoing {
            (id, edges[k].1)
        } else {
            (edges[k].1, id)
        }
    &&& forall|e: usize| #[trigger]
        links.dom().contains(e) && (if outgoing {
            links[e].0
        } else {
            links[e].1
        }) == id ==> exists|k: int| 0 <= k < edges.len() && (#[trigger] edges[k]).0 == e
    &&& forall|j: int, k: int|
        0 <= j < k < edges.len() ==> (#[trigger] edges[j]).0 != (#[trigger] edges[k]).0
}

/// `StableGraph::with_capacity(0, 0)`: a graph without nodes or edges.
#[verifier::external_body]
fn graph_new() -> (g: StableGraph<Chunk, i32, Directed, usize>)
    ensures
        graph_chunks(g) == Seq::<Option<ChunkView>>::empty(),
        graph_links(g) == no_links(),
{
    StableGraph::with_capacity(0, 0)
}

/// `StableGraph::add_node`: the new node takes a vacant slot if there is one,
/// else a new slot at the end. With `usize` indices the graph has no node
/// limit of its own.
#[verifier::external_body]
fn graph_add_node(g: &mut StableGraph<Chunk, i32, Directed, usize>, chunk: Chunk) -> (id: usize)
    ensures
        graph_links(*final(g)) == graph_links(*old(g)),
        slots_dense(graph_chunks(*old(g))) ==> id == graph_chunks(*old(g)).len() && graph_chunks(
            *final(g),
        ) == graph_chunks(*old(g)).push(Some(chunk@)),
        !slots_dense(graph_chunks(*old(g))) ==> id < graph_chunks(*old(g)).len() && graph_chunks(
            *old(g),
        )[id as int] is None && graph_chunks(*final(g)) == graph_chunks(*old(g)).update(
            id as int,
            Some(chunk@),
        ),
{
    g.add_node(chunk).index()
}

/// `StableGraph::node_weight`: the chunk of a live node.
#[verifier::external_body]
fn graph_chunk(g: &StableGraph<Chunk, i32, Directed, usize>, id: usize) -> (chunk: Option<&Chunk>)
    ensures
        match chunk {
            Some(c) => slot_live(graph_chunks(*g), id) && graph_chunks(*g)[id as int] == Some(c@),
            None => !slot_live(graph_chunks(*g), id),
        },
{
    g.node_weight(NodeIndex::new(id))
}

/// `StableGraph::index_mut` by node: the chunk of a live node, to be changed
/// in place.
#[verifier::external_body]
fn graph_chunk_mut(g: &mut StableGraph<Chunk, i32, Directed, usize>, id: usize) -> (chunk:
    &mut Chunk)
    requires
        slot_live(graph_chunks(*old(g)), id),
    ensures
        Some(chunk@) == graph_chunks(*old(g))[id as int],
        graph_chunks(*final(g)) == graph_chunks(*old(g)).update(id as int, Some(final(chunk)@)),
        graph_links(*final(g)) == graph_links(*old(g)),
{
    &mut g[NodeIndex::new(id)]
}

/// `StableGraph::update_edge` with weight 0: the index of an edge from `from`
/// to `to`, which is added only if there was none.
#[verifier::external_body]
fn graph_update_edge(g: &mut StableGraph<Chunk, i32, Directed, usize>, from: usize, to: usize) -> (e:
    usize)
    requires
        slot_live(graph_chunks(*old(g)), from),
        slot_live(graph_chunks(*old(g)), to),
    ensures
        graph_chunks(*final(g)) == graph_chunks(*old(g)),
        joined(graph_links(*old(g)), from, to) ==> graph_links(*final(g)) == graph_links(*old(g)),
        !joined(graph_links(*old(g)), from, to) ==> !graph_links(*old(g)).dom().contains(e)
            && graph_links(*final(g)) == graph_links(*old(g)).insert(e, (from, to)),
{
    g.update_edge(NodeIndex::new(from), NodeIndex::new(to), 0).index()
}

/// `StableGraph::edges_directed`, outgoing: the edges that leave `id`.
#[verifier::external_body]
fn graph_edges_from(g: &StableGraph<Chunk, i32, Directed, usize>, id: usize) -> (edges: Vec<
    (usize, usize),
>)
    ensures
        lists_edges(graph_links(*g), id, true, edges@),
{
    g.edges_directed(NodeIndex::new(id), Direction::Outgoing).map(
        |e| (e.id().index(), e.target().index()),
    ).collect()
}

/// `StableGraph::edges_directed`, incoming: the edges that enter `id`.
#[verifier::external_body]
fn graph_edges_to(g: &StableGraph<Chunk, i32, Directed, usize>, id: usize) -> (edges: Vec<
    (usize, usize),
>)
    ensures
        lists_edges(graph_links(*g), id, false, edges@),
{
    g.edges_directed(NodeIndex::new(id), Direction::Incoming).map(
        |e| (e.id().index(), e.source().index()),
    ).collect()
}

/// `StableGraph::remove_edge`: the edge with this index is gone, the others
/// keep their indices.
#[verifier::external_body]
fn graph_remove_edge(g: &mut StableGraph<Chunk, i32, Directed, usize>, e: usize) -> (removed: bool)
    ensures
        removed == graph_links(*old(g)).dom().contains(e),
        graph_chunks(*final(g)) == graph_chunks(*old(g)),
        graph_links(*final(g)) == graph_links(*old(g)).remove(e),
{
    g.remove_edge(EdgeIndex::new(e)).is_some()
}

/// `StableGraph::remove_node`: a live node leaves its slot vacant and takes
/// the edges that touch it with it; the other nodes and edges keep their
/// indices.
#[verifier::external_body]
fn graph_remove_node(g: &mut StableGraph<Chunk, i32, Directed, usize>, id: usize) -> (chunk: Option<
    Chunk,
>)
    ensures
        match chunk {
            Some(c) => {
                &&& slot_live(graph_chunks(*old(g)), id)
                &&& graph_chunks(*old(g))[id as int] == Some(c@)
                &&& graph_chunks(*final(g)) == graph_chunks(*old(g)).update(id as int, None)
                &&& graph_links(*final(g)) == graph_links(*old(g)).restrict(
                    Set::new(
                        |e: usize|
                            graph_links(*old(g))[e].0 != id && graph_links(*old(g))[e].1 != id,
                    ),
                )
            },
            None => {
                &&& !slot_live(graph_chunks(*old(g)), id)
                &&& graph_chunks(*final(g)) == graph_chunks(*old(g))
                &&& graph_links(*final(g)) == graph_links(*old(g))
            },
        },
{
    g.remove_node(NodeIndex::new(id))
}

/// `StableGraph::node_indices`: the indices of the live nodes, ascending. The
/// slots are held in a `Vec`, so their number fits in `usize`.
#[verifier::external_body]
fn graph_node_ids(g: &StableGraph<Chunk, i32, Directed, usize>) -> (ids: Vec<usize>)
    ensures
        forall|j: int, k: int| 0 <= j < k < ids.len() ==> ids[j] < ids[k],
        forall|id: usize| ids@.contains(id) <==> slot_live(graph_chunks(*g), id),
        ids.len() <= graph_chunks(*g).len() <= usize::MAX,
{
    g.node_indices().map(|n| n.index()).collect()
}

/// The output of the algorithm: chunks, and edges from a chunk group's root to
/// each chunk that the group loads.
pub struct ChunkGraph {
    graph: StableGraph<Chunk, i32, Directed, usize>,
}

impl ChunkGraph {
    /// The chunk slots by chunk id; the slot of a removed chunk is `None`.
    pub closed spec fn chunks(&self) -> Seq<Option<ChunkView>> {
        graph_chunks(self.graph)
    }

    /// The edges, each as source and target.
    pub closed spec fn links(&self) -> Set<(usize, usize)> {
        Set::new(|p: (usize, usize)| joined(graph_links(self.graph), p.0, p.1))
    }

    /// No two edges have the same source and target, and every edge joins
    /// two chunks of the graph.
    pub closed spec fn wf(&self) -> bool {
        &&& forall|e1: usize, e2: usize|
            #![trigger graph_links(self.graph)[e1], graph_links(self.graph)[e2]]
            graph_links(self.graph).dom().contains(e1) && graph_links(self.graph).dom().contains(e2)
                && graph_links(self.graph)[e1] == graph_links(self.graph)[e2] ==> e1 == e2
        &&& forall|e: usize| #[trigger]
            graph_links(self.graph).dom().contains(e) ==> slot_live(
                graph_chunks(self.graph),
                graph_links(self.graph)[e].0,
            ) && slot_live(graph_chunks(self.graph), graph_links(self.graph)[e].1)
    }

    /// Every edge joins two chunks of the graph.
    pub proof fn lemma_links_live(&self)
        requires
            self.wf(),
        ensures
            forall|p: (usize, usize)| #[trigger]
                self.links().contains(p) ==> self.contains(p.0) && self.contains(p.1),
    {
        assert forall|p: (usize, usize)| #[trigger] self.links().contains(p) implies self.contains(
            p.0,
        ) && self.contains(p.1) by {
            let e = choose|e: usize| #[trigger]
                graph_links(self.graph).dom().contains(e) && graph_links(self.graph)[e] == (
                    p.0,
                    p.1,
                );
        }
    }

    /// Whether `id` is the id of a chunk of the graph.
    pub open spec fn contains(&self, id: usize) -> bool {
        slot_live(self.chunks(), id)
    }

    /// The chunk with the given id.
    pub open spec fn chunk_view(&self, id: usize) -> ChunkView {
        self.chunks()[id as int].unwrap()
    }

    /// Whether no chunk was removed so far.
    pub open spec fn dense(&self) -> bool {
        slots_dense(self.chunks())
    }

    /// The chunks to which `id` has an edge.
    pub open spec fn successors(&self, id: usize) -> Set<usize> {
        Set::new(|to: usize| self.links().contains((id, to)))
    }

    /// The chunks that have an edge to `id`.
    pub open spec fn predecessors(&self, id: usize) -> Set<usize> {
        Set::new(|from: usize| self.links().contains((from, id)))
    }

    /// The size of every chunk is the sum of the sizes of its modules.
    pub open spec fn sizes_agree(&self, sizes: Seq<usize>) -> bool {
        slots_sized(self.chunks(), sizes)
    }

    /// The graph without chunks.
    pub fn new() -> (g: ChunkGraph)
        ensures
            g.wf(),
            g.chunks() == Seq::<Option<ChunkView>>::empty(),
            g.links() == Set::<(usize, usize)>::empty(),
    {
        let g = ChunkGraph { graph: graph_new() };
        assert(g.links() =~= Set::<(usize, usize)>::empty());
        g
    }

    /// Adds a chunk and returns its id: the next id after those in use, as
    /// long as no chunk was removed.
    pub fn add_chunk(&mut self, chunk: Chunk) -> (id: usize)
        requires
            old(self).wf(),
        ensures
            final(self).wf(),
            final(self).links() == old(self).links(),
            !old(self).contains(id),
            old(self).dense() ==> id == old(self).chunks().len() && final(self).chunks() == old(
                self,
            ).chunks().push(Some(chunk@)),
            !old(self).dense() ==> id < old(self).chunks().len() && final(self).chunks() == old(
                self,
            ).chunks().update(id as int, Some(chunk@)),
    {
        let id: usize = graph_add_node(&mut self.graph, chunk);
        assert(self.links() =~= old(self).links());
        id
    }

    /// The chunk with the given id, if there is one.
    pub fn chunk(&self, id: usize) -> (chunk: Option<&Chunk>)
        ensures
            match chunk {
                Some(c) => self.contains(id) && self.chunk_view(id) == c@,
                None => !self.contains(id),
            },
    {
        graph_chunk(&self.graph, id)
    }

    /// Whether `id` is the id of a chunk of the graph.
    pub fn contains_chunk(&self, id: usize) -> (found: bool)
        ensures
            found == self.contains(id),
    {
        graph_chunk(&self.graph, id).is_some()
    }

    /// The ids of the chunks, ascending.
    pub fn chunk_ids(&self) -> (ids: Vec<usize>)
        ensures
            forall|j: int, k: int| 0 <= j < k < ids.len() ==> ids[j] < ids[k],
            forall|id: usize| ids@.contains(id) <==> self.contains(id),
            self.chunks().len() <= usize::MAX,
    {
        graph_node_ids(&self.graph)
    }

    /// Makes sure that there is an edge from `from` to `to`.
    pub fn connect(&mut self, from: usize, to: usize)
        requires
            old(self).wf(),
            old(self).contains(from),
            old(self).contains(to),
        ensures
            final(self).wf(),
            final(self).chunks() == old(self).chunks(),
            final(self).links() == old(self).links().insert((from, to)),
    {
        let ghost before = graph_links(self.graph);
        let e: usize = graph_update_edge(&mut self.graph, from, to);
        proof {
            let after = graph_links(self.graph);
            if joined(before, from, to) {
                assert(old(self).links().contains((from, to)));
                assert(self.links() =~= old(self).links().insert((from, to)));
            } else {
                assert(after[e] == (from, to) && after.dom().contains(e));
                assert forall|p: (usize, usize)| self.links().contains(p) == old(
                    self,
                ).links().insert((from, to)).contains(p) by {
                    if joined(after, p.0, p.1) {
                        let w = choose|w: usize| #[trigger]
                            after.dom().contains(w) && after[w] == (p.0, p.1);
                        if w != e {
                            assert(before.dom().contains(w) && before[w] == (p.0, p.1));
                        }
                    }
                    if joined(before, p.0, p.1) {
                        let w = choose|w: usize| #[trigger]
                            before.dom().contains(w) && before[w] == (p.0, p.1);
                        assert(after.dom().contains(w) && after[w] == (p.0, p.1));
                    }
                }
                assert(self.links() =~= old(self).links().insert((from, to)));
                assert forall|e1: usize, e2: usize|
                    #![trigger after[e1], after[e2]]
                    after.dom().contains(e1) && after.dom().contains(e2) && after[e1]
                        == after[e2] implies e1 == e2 by {
                    if e1 != e && e2 != e {
                        assert(before[e1] == before[e2]);
                    } else if e1 != e {
                        assert(before.dom().contains(e1) && before[e1] == (from, to));
                    } else if e2 != e {
                        assert(before.dom().contains(e2) && before[e2] == (from, to));
                    }
                }
            }
        }
    }

    /// Removes the edge from `from` to `to`, if there is one, and says
    /// whether there was.
    pub fn disconnect(&mut self, from: usize, to: usize) -> (removed: bool)
        requires
            old(self).wf(),
        ensures
            final(self).wf(),
            removed == old(self).links().contains((from, to)),
            final(self).chunks() == old(self).chunks(),
            final(self).links() == old(self).links().remove((from, to)),
    {
        let ghost before = graph_links(self.graph);
        let edges = graph_edges_from(&self.graph, from);
        let mut k: usize = 0;
        while k < edges.len()
            invariant
                k <= edges.len(),
                graph_links(self.graph) == before,
                *self == *old(self),
                self.wf(),
                lists_edges(before, from, true, edges@),
                forall|j: int| 0 <= j < k ==> (#[trigger] edges[j]).1 != to,
            decreases edges.len() - k,
        {
            if edges[k].1 == to {
                let e: usize = edges[k].0;
                assert(before.dom().contains(edges[k as int].0) && before[e] == (from, to));
                graph_remove_edge(&mut self.graph, e);
                proof {
                    let after = graph_links(self.graph);
                    assert(old(self).links().contains((from, to)));
                    assert forall|p: (usize, usize)| self.links().contains(p) == old(
                        self,
                    ).links().remove((from, to)).contains(p) by {
                        if joined(after, p.0, p.1) {
                            let w = choose|w: usize| #[trigger]
                                after.dom().contains(w) && after[w] == (p.0, p.1);
                            assert(before.dom().contains(w) && before[w] == (p.0, p.1));
                            assert(before[w] != before[e]);
                        }
                        if joined(before, p.0, p.1) && p != (from, to) {
                            let w = choose|w: usize| #[trigger]
                                before.dom().contains(w) && before[w] == (p.0, p.1);
                            assert(after.dom().contains(w) && after[w] == (p.0, p.1));
                        }
                    }
                    assert(self.links() =~= old(self).links().remove((from, to)));
                    assert forall|e1: usize, e2: usize|
                        #![trigger after[e1], after[e2]]
                        after.dom().contains(e1) && after.dom().contains(e2) && after[e1]
                            == after[e2] implies e1 == e2 by {
                        assert(before[e1] == before[e2]);
                    }
                }
                return true;
            }
            k = k + 1;
        }
        proof {
            if joined(before, from, to) {
                let w = choose|w: usize| #[trigger]
                    before.dom().contains(w) && before[w] == (from, to);
                let j = choose|j: int| 0 <= j < edges.len() && (#[trigger] edges[j]).0 == w;
                assert(before[edges[j].0] == (from, edges[j].1));
            }
            assert(self.links() =~= old(self).links().remove((from, to)));
        }
        false
    }

    /// The chunks to which `id` has an edge, each once.
    pub fn successor_list(&self, id: usize) -> (list: Vec<usize>)
        requires
            self.wf(),
        ensures
            list@.no_duplicates(),
            list@.to_set() == self.successors(id),
    {
        let links = Ghost(graph_links(self.graph));
        let edges = graph_edges_from(&self.graph, id);
        let mut list: Vec<usize> = Vec::new();
        let mut k: usize = 0;
        while k < edges.len()
            invariant
                k <= edges.len(),
                list.len() == k,
                forall|j: int| 0 <= j < k ==> list[j] == (#[trigger] edges[j]).1,
            decreases edges.len() - k,
        {
            list.push(edges[k].1);
            k = k + 1;
        }
        proof {
            assert forall|i: int, j: int| 0 <= i < list.len() && 0 <= j < list.len() && i
                != j implies list[i] != list[j] by {
                if list[i] == list[j] {
                    assert(links@[edges[i].0] == (id, edges[i].1));
                    assert(links@[edges[j].0] == (id, edges[j].1));
                    assert(edges[i].0 != edges[j].0);
                }
            }
            assert forall|to: usize| list@.to_set().contains(to) == self.successors(id).contains(
                to,
            ) by {
                if list@.contains(to) {
                    let j = choose|j: int| 0 <= j < list.len() && list[j] == to;
                    assert(links@.dom().contains(edges[j].0) && links@[edges[j].0] == (id, to));
                }
                if joined(links@, id, to) {
                    let w = choose|w: usize| #[trigger]
                        links@.dom().contains(w) && links@[w] == (id, to);
                    let j = choose|j: int| 0 <= j < edges.len() && (#[trigger] edges[j]).0 == w;
                    assert(list[j] == to);
                }
            }
            assert(list@.to_set() =~= self.successors(id));
        }
        list
    }

    /// The chunks that have an edge to `id`, each once.
    pub fn predecessor_list(&self, id: usize) -> (list: Vec<usize>)
        requires
            self.wf(),
        ensures
            list@.no_duplicates(),
            list@.to_set() == self.predecessors(id),
    {
        let links = Ghost(graph_links(self.graph));
        let edges = graph_edges_to(&self.graph, id);
        let mut list: Vec<usize> = Vec::new();
        let mut k: usize = 0;
        while k < edges.len()
            invariant
                k <= edges.len(),
                list.len() == k,
                forall|j: int| 0 <= j < k ==> list[j] == (#[trigger] edges[j]).1,
            decreases edges.len() - k,
        {
            list.push(edges[k].1);
            k = k + 1;
        }
        proof {
            assert forall|i: int, j: int| 0 <= i < list.len() && 0 <= j < list.len() && i
                != j implies list[i] != list[j] by {
                if list[i] == list[j] {
                    assert(links@[edges[i].0] == (edges[i].1, id));
                    assert(links@[edges[j].0] == (edges[j].1, id));
                    assert(edges[i].0 != edges[j].0);
                }
            }
            assert forall|from: usize| list@.to_set().contains(from) == self.predecessors(
                id,
            ).contains(from) by {
                if list@.contains(from) {
                    let j = choose|j: int| 0 <= j < list.len() && list[j] == from;
                    assert(links@.dom().contains(edges[j].0) && links@[edges[j].0] == (from, id));
                }
                if joined(links@, from, id) {
                    let w = choose|w: usize| #[trigger]
                        links@.dom().contains(w) && links@[w] == (from, id);
                    let j = choose|j: int| 0 <= j < edges.len() && (#[trigger] edges[j]).0 == w;
                    assert(list[j] == from);
                }
            }
            assert(list@.to_set() =~= self.predecessors(id));
        }
        list
    }

    /// Removes a chunk together with the edges that touch it, and returns it.
    pub fn remove_chunk(&mut self, id: usize) -> (chunk: Option<Chunk>)
        requires
            old(self).wf(),
        ensures
            final(self).wf(),
            match chunk {
                Some(c) => {
                    &&& old(self).contains(id)
                    &&& c@ == old(self).chunk_view(id)
                    &&& final(self).chunks() == old(self).chunks().update(id as int, None)
                    &&& final(self).links() == links_apart(old(self).links(), id)
                },
                None => {
                    &&& !old(self).contains(id)
                    &&& final(self).chunks() == old(self).chunks()
                    &&& final(self).links() == old(self).links()
                },
            },
    {
        let ghost before = graph_links(self.graph);
        let chunk = graph_remove_node(&mut self.graph, id);
        proof {
            let after = graph_links(self.graph);
            if chunk is Some {
                assert forall|p: (usize, usize)| self.links().contains(p) == links_apart(
                    old(self).links(),
                    id,
                ).contains(p) by {
                    if joined(after, p.0, p.1) {
                        let w = choose|w: usize| #[trigger]
                            after.dom().contains(w) && after[w] == (p.0, p.1);
                        assert(before.dom().contains(w) && before[w] == (p.0, p.1));
                    }
                    if joined(before, p.0, p.1) && p.0 != id && p.1 != id {
                        let w = choose|w: usize| #[trigger]
                            before.dom().contains(w) && before[w] == (p.0, p.1);
                        assert(after.dom().contains(w) && after[w] == (p.0, p.1));
                    }
                }
                assert(self.links() =~= links_apart(old(self).links(), id));
                assert forall|e1: usize, e2: usize|
                    #![trigger after[e1], after[e2]]
                    after.dom().contains(e1) && after.dom().contains(e2) && after[e1]
                        == after[e2] implies e1 == e2 by {
                    assert(before[e1] == before[e2]);
                }
            }
        }
        chunk
    }

    /// Appends a module to a chunk and adds its size to the chunk's size.
    pub fn push_module(&mut self, modules: &ModuleGraph, id: usize, module_id: usize)
        requires
            old(self).wf(),
            old(self).contains(id),
            old(self).chunk_view(id).sized(modules.sizes()),
            module_id < modules.modules().len(),
        ensures
            final(self).wf(),
            final(self).links() == old(self).links(),
            final(self).chunks() == old(self).chunks().update(
                id as int,
                Some(
                    old(self).chunk_view(id).with_module(
                        module_id,
                        modules.sizes()[module_id as int] as nat,
                    ),
                ),
            ),
            final(self).chunk_view(id).sized(modules.sizes()),
    {
        let size: usize = modules.module_size(module_id);
        let ghost before = old(self).chunk_view(id);
        let chunk = self.chunk_mut(id);
        chunk.module_ids.push(module_id);
        proof {
            assert(chunk.module_ids@.len() == chunk.module_ids.len());
            assert(chunk.module_ids@.drop_last() =~= before.module_ids);
            lemma_sizes_fit(modules.sizes(), chunk.module_ids@);
        }
        chunk.size = chunk.size + size as u128;
        assert(chunk@ == before.with_module(module_id, modules.sizes()[module_id as int] as nat));
    }

    /// Appends modules to a chunk and adds their sizes to the chunk's size.
    pub fn push_modules(&mut self, modules: &ModuleGraph, id: usize, module_ids: &Vec<usize>)
        requires
            old(self).wf(),
            old(self).contains(id),
            old(self).chunk_view(id).sized(modules.sizes()),
            forall|k: int| 0 <= k < module_ids.len() ==> module_ids[k] < modules.modules().len(),
        ensures
            final(self).wf(),
            final(self).links() == old(self).links(),
            final(self).chunks() == old(self).chunks().update(
                id as int,
                Some(old(self).chunk_view(id).with_modules(modules.sizes(), module_ids@)),
            ),
            final(self).chunk_view(id).sized(modules.sizes()),
    {
        let ghost before = old(self).chunk_view(id);
        let ghost sizes = modules.sizes();
        let mut i: usize = 0;
        assert(module_ids@.take(0) =~= Seq::<usize>::empty());
        assert(before.with_modules(sizes, module_ids@.take(0)).module_ids =~= before.module_ids);
        assert(self.chunks() =~= old(self).chunks().update(
            id as int,
            Some(before.with_modules(sizes, module_ids@.take(0))),
        ));
        while i < module_ids.len()
            invariant
                i <= module_ids.len(),
                self.wf(),
                sizes == modules.sizes(),
                before == old(self).chunk_view(id),
                old(self).contains(id),
                self.links() == old(self).links(),
                self.chunks() == old(self).chunks().update(
                    id as int,
                    Some(before.with_modules(sizes, module_ids@.take(i as int))),
                ),
                self.chunk_view(id).sized(sizes),
                forall|k: int|
                    0 <= k < module_ids.len() ==> module_ids[k] < modules.modules().len(),
            decreases module_ids.len() - i,
        {
            let ghost current = self.chunk_view(id);
            self.push_module(modules, id, module_ids[i]);
            proof {
                let done = module_ids@.take(i as int);
                let next = module_ids@.take(i + 1);
                assert(next.drop_last() =~= done);
                assert(next.last() == module_ids[i as int]);
                assert(before.module_ids + next =~= (before.module_ids + done).push(
                    module_ids[i as int],
                ));
                assert(current.with_module(
                    module_ids[i as int],
                    sizes[module_ids[i as int] as int] as nat,
                ) == before.with_modules(sizes, next));
            }
            i = i + 1;
        }
        assert(module_ids@.take(module_ids.len() as int) =~= module_ids@);
    }

    /// The graph itself, to be read.
    pub fn as_graph(&self) -> (g: &StableGraph<Chunk, i32, Directed, usize>)
        ensures
            graph_chunks(*g) == self.chunks(),
            forall|p: (usize, usize)| self.links().contains(p) <==> joined(graph_links(*g), p.0, p.1),
    {
        &self.graph
    }

    /// The chunk with the given id, to be changed in place.
    pub fn chunk_mut(&mut self, id: usize) -> (chunk: &mut Chunk)
        requires
            old(self).wf(),
            old(self).contains(id),
        ensures
            chunk@ == old(self).chunk_view(id),
            final(self).wf(),
            final(self).chunks() == old(self).chunks().update(id as int, Some(final(chunk)@)),
            final(self).links() == old(self).links(),
    {
        graph_chunk_mut(&mut self.graph, id)
    }
}

} // verus!
