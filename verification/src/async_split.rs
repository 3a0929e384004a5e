//! Async split discovery: a depth-first search from the entries that starts
//! a new chunk at the target of every async import it follows, and records
//! below which roots that happens.

use crate::chunk::{lemma_single_sized, Chunk, ChunkView};
use crate::chunk_graph::{
    leads, lemma_extended_by_push, lemma_extended_keeps, lemma_extended_same,
    lemma_extended_twice, slot_live, slots_extended, ChunkGraph,
};
use crate::module_graph::{first_import, ModuleGraph};
use crate::roots::{ChunkRoots, ReachableChunks};
use crate::seeding::{all_entries, roots_below, roots_lead};
use crate::traversal::{
    dfs_events, dfs_trace, enters, follows_to, step_in_graph, trace_in_graph, tree_edges_lead_on,
    DfsStep,
};
use vstd::prelude::*;

verus! {

/// What the discovery keeps while it runs.
pub struct SplitState {
    /// The chunk slots by chunk id.
    pub chunks: Seq<Option<ChunkView>>,
    /// The roots with chunk id and chunk group id.
    pub roots: Map<usize, (usize, usize)>,
    /// The pairs of an ancestor root and a root split off below it.
    pub reachable: Set<(usize, usize)>,
    /// The roots that the search has entered and not left, each with its
    /// chunk group id, the innermost last.
    pub stack: Seq<(usize, usize)>,
}

/// Whether `module` is the root of a frame of the stack.
pub open spec fn on_stack(stack: Seq<(usize, usize)>, module: usize) -> bool {
    exists|k: int| 0 <= k < stack.len() && (#[trigger] stack[k]).0 == module
}

/// The state after one event of the search.
///
/// Entering a root pushes it. Following an async import to `v` gives `v` a
/// new chunk, makes it a root, and records it below every root on the stack.
/// Leaving the module on top of the stack pops it.
pub open spec fn split_step(
    sizes: Seq<usize>,
    imports: Seq<Seq<(usize, bool)>>,
    st: SplitState,
    step: DfsStep,
) -> SplitState {
    match step {
        DfsStep::Discover(m) => if st.roots.dom().contains(m) {
            SplitState { stack: st.stack.push((m, st.roots[m].1)), ..st }
        } else {
            st
        },
        DfsStep::TreeEdge(u, v) => if first_import(imports[u as int], v) == Some(true) {
            let id = st.chunks.len() as usize;
            SplitState {
                chunks: st.chunks.push(Some(ChunkView::single(v, sizes[v as int]))),
                roots: st.roots.insert(v, (id, id)),
                reachable: st.reachable.union(
                    Set::new(|p: (usize, usize)| p.1 == v && on_stack(st.stack, p.0)),
                ),
                stack: st.stack,
            }
        } else {
            st
        },
        DfsStep::Finish(m) => if st.stack.len() > 0 && st.stack.last().0 == m {
            SplitState { stack: st.stack.drop_last(), ..st }
        } else {
            st
        },
        _ => st,
    }
}

/// The state after the events of a trace, one after the other.
pub open spec fn split_fold(
    sizes: Seq<usize>,
    imports: Seq<Seq<(usize, bool)>>,
    st: SplitState,
    trace: Seq<DfsStep>,
) -> SplitState
    decreases trace.len(),
{
    if trace.len() == 0 {
        st
    } else {
        split_step(sizes, imports, split_fold(sizes, imports, st, trace.drop_last()), trace.last())
    }
}

/// The state in which the discovery starts: the seeded chunks and roots,
/// nothing recorded, nothing on the stack.
pub open spec fn split_start(
    chunks: Seq<Option<ChunkView>>,
    roots: Map<usize, (usize, usize)>,
) -> SplitState {
    SplitState { chunks, roots, reachable: Set::empty(), stack: Seq::empty() }
}

/// The index of the first event of the trace that enters `module`; the
/// length of the trace if there is none.
pub open spec fn first_enter(trace: Seq<DfsStep>, module: usize) -> nat
    decreases trace.len(),
{
    if trace.len() == 0 {
        0
    } else if enters(trace[0], module) {
        0
    } else {
        1 + first_enter(trace.drop_first(), module)
    }
}

/// The first entering of a module is an entering, and none comes before it.
pub proof fn lemma_first_enter(trace: Seq<DfsStep>, module: usize)
    ensures
        first_enter(trace, module) <= trace.len(),
        first_enter(trace, module) < trace.len() ==> enters(
            trace[first_enter(trace, module) as int],
            module,
        ),
        forall|q: int| 0 <= q < first_enter(trace, module) ==> !enters(#[trigger] trace[q], module),
    decreases trace.len(),
{
    if trace.len() > 0 && !enters(trace[0], module) {
        let rest = trace.drop_first();
        lemma_first_enter(rest, module);
        assert forall|q: int| 0 <= q < first_enter(trace, module) implies !enters(
            #[trigger] trace[q],
            module,
        ) by {
            if q > 0 {
                assert(trace[q] == rest[q - 1]);
            }
        }
    }
}

/// Whether every root was entered before the roots that were split off
/// below it.
pub open spec fn dominance_ranked(reachable: Set<(usize, usize)>, trace: Seq<DfsStep>) -> bool {
    forall|a: usize, b: usize| #[trigger]
        reachable.contains((a, b)) ==> first_enter(trace, a) < first_enter(trace, b)
}

/// After any number of events, every root on the stack was entered, and
/// every root was entered before the roots that were split off below it.
pub proof fn lemma_split_ranked(
    sizes: Seq<usize>,
    imports: Seq<Seq<(usize, bool)>>,
    start: SplitState,
    trace: Seq<DfsStep>,
    upto: nat,
)
    requires
        upto <= trace.len(),
        start.stack.len() == 0,
        start.reachable == Set::<(usize, usize)>::empty(),
        tree_edges_lead_on(trace),
    ensures
        forall|k: int|
            0 <= k < split_fold(sizes, imports, start, trace.take(upto as int)).stack.len()
                ==> first_enter(
                trace,
                (#[trigger] split_fold(sizes, imports, start, trace.take(upto as int)).stack[k]).0,
            ) < upto,
        dominance_ranked(split_fold(sizes, imports, start, trace.take(upto as int)).reachable, trace),
    decreases upto,
{
    let now = split_fold(sizes, imports, start, trace.take(upto as int));
    if upto == 0 {
        assert(trace.take(0) =~= Seq::<DfsStep>::empty());
    } else {
        let done = trace.take(upto - 1);
        let step = trace[upto - 1];
        assert(trace.take(upto as int).drop_last() =~= done);
        assert(trace.take(upto as int).last() == step);
        let before = split_fold(sizes, imports, start, done);
        lemma_split_ranked(sizes, imports, start, trace, (upto - 1) as nat);
        assert(now == split_step(sizes, imports, before, step));
        match step {
            DfsStep::Discover(m) => {
                lemma_first_enter(trace, m);
                assert(enters(trace[upto - 1], m));
                assert forall|k: int| 0 <= k < now.stack.len() implies first_enter(
                    trace,
                    (#[trigger] now.stack[k]).0,
                ) < upto by {
                    if k < before.stack.len() {
                        assert(now.stack[k] == before.stack[k]);
                    }
                }
            },
            DfsStep::TreeEdge(u, v) => {
                if first_import(imports[u as int], v) == Some(true) {
                    lemma_first_enter(trace, v);
                    assert(follows_to(trace[upto - 1], v));
                    if first_enter(trace, v) < upto {
                        let q = first_enter(trace, v) as int;
                        assert(enters(trace[q], v));
                        assert(q != upto - 1);
                    }
                    assert forall|a: usize, b: usize| #[trigger]
                        now.reachable.contains((a, b)) implies first_enter(trace, a) < first_enter(
                        trace,
                        b,
                    ) by {
                        if !before.reachable.contains((a, b)) {
                            assert(b == v && on_stack(before.stack, a));
                            let k = choose|k: int|
                                0 <= k < before.stack.len() && (#[trigger] before.stack[k]).0 == a;
                        }
                    }
                }
            },
            DfsStep::Finish(m) => {
                assert forall|k: int| 0 <= k < now.stack.len() implies first_enter(
                    trace,
                    (#[trigger] now.stack[k]).0,
                ) < upto by {
                    assert(now.stack[k] == before.stack[k]);
                }
            },
            _ => {},
        }
    }
}

/// Handles one event of the search.
pub fn on_dfs_event(
    modules: &ModuleGraph,
    chunks: &mut ChunkGraph,
    roots: &mut ChunkRoots,
    reachable: &mut ReachableChunks,
    stack: &mut Vec<(usize, usize)>,
    step: DfsStep,
)
    requires
        modules.wf(),
        old(chunks).wf(),
        old(chunks).dense(),
        old(chunks).sizes_agree(modules.sizes()),
        old(roots).capacity() == modules.modules().len(),
        roots_below(old(roots)@, old(chunks).chunks().len()),
        roots_lead(old(roots)@, old(chunks).chunks()),
        all_entries(old(chunks).chunks(), old(roots)@),
        step_in_graph(modules.imports(), step),
    ensures
        final(chunks).wf(),
        final(chunks).dense(),
        final(chunks).sizes_agree(modules.sizes()),
        final(chunks).links() == old(chunks).links(),
        final(roots).capacity() == old(roots).capacity(),
        roots_below(final(roots)@, final(chunks).chunks().len()),
        roots_lead(final(roots)@, final(chunks).chunks()),
        all_entries(final(chunks).chunks(), final(roots)@),
        slots_extended(old(chunks).chunks(), final(chunks).chunks()),
        forall|m: usize| old(roots)@.dom().contains(m) ==> final(roots)@.dom().contains(m),
        (SplitState {
            chunks: final(chunks).chunks(),
            roots: final(roots)@,
            reachable: final(reachable)@,
            stack: final(stack)@,
        }) == split_step(
            modules.sizes(),
            modules.imports(),
            SplitState {
                chunks: old(chunks).chunks(),
                roots: old(roots)@,
                reachable: old(reachable)@,
                stack: old(stack)@,
            },
            step,
        ),
{
    proof {
        lemma_extended_same(chunks.chunks());
    }
    match step {
        DfsStep::Discover(module) => {
            if let Some(ids) = roots.get(module) {
                stack.push((module, ids.1));
            }
        },
        DfsStep::TreeEdge(importer, importee) => {
            if let Some(dependency) = modules.dependency(importer, importee) {
                if dependency.is_async {
                    let chunk = Chunk::from_js_module(importee, modules.module(importee));
                    let chunk_id: usize = chunks.add_chunk(chunk);
                    roots.insert(importee, (chunk_id, chunk_id));
                    proof {
                        lemma_single_sized(modules.sizes(), importee);
                        lemma_extended_by_push(
                            old(chunks).chunks(),
                            Some(ChunkView::single(importee, modules.sizes()[importee as int])),
                        );
                        assert forall|m: usize| #[trigger] roots@.dom().contains(m) implies leads(
                            chunks.chunks(),
                            roots@[m].0,
                            m,
                        ) && slot_live(chunks.chunks(), roots@[m].1) by {
                            if m != importee {
                                assert(old(roots)@.dom().contains(m));
                                lemma_extended_keeps(
                                    old(chunks).chunks(),
                                    chunks.chunks(),
                                    old(roots)@[m].0,
                                    m,
                                );
                            }
                        }
                    }
                    let mut k: usize = 0;
                    while k < stack.len()
                        invariant
                            k <= stack.len(),
                            stack@ == old(stack)@,
                            reachable@ == old(reachable)@.union(
                                Set::new(
                                    |p: (usize, usize)|
                                        p.1 == importee && on_stack(stack@.take(k as int), p.0),
                                ),
                            ),
                        decreases stack.len() - k,
                    {
                        let ghost before = reachable@;
                        reachable.insert(stack[k].0, importee);
                        proof {
                            let done = stack@.take(k as int);
                            let next = stack@.take(k + 1);
                            assert forall|p: (usize, usize)|
                                (p.1 == importee && on_stack(next, p.0)) == ((p.1 == importee
                                    && on_stack(done, p.0)) || p == (stack[k as int].0, importee)) by {
                                if p.1 == importee && on_stack(next, p.0) {
                                    let j = choose|j: int|
                                        0 <= j < next.len() && (#[trigger] next[j]).0 == p.0;
                                    if j < k {
                                        assert(done[j].0 == p.0);
                                    }
                                }
                                if p.1 == importee && on_stack(done, p.0) {
                                    let j = choose|j: int|
                                        0 <= j < done.len() && (#[trigger] done[j]).0 == p.0;
                                    assert(next[j].0 == p.0);
                                }
                                if p == (stack[k as int].0, importee) {
                                    assert(next[k as int].0 == p.0);
                                }
                            }
                            assert(reachable@ =~= old(reachable)@.union(
                                Set::new(
                                    |p: (usize, usize)| p.1 == importee && on_stack(next, p.0),
                                ),
                            ));
                        }
                        k = k + 1;
                    }
                    assert(stack@.take(stack.len() as int) =~= stack@);
                }
            }
        },
        DfsStep::Finish(module) => {
            let depth: usize = stack.len();
            if depth > 0 {
                if stack[depth - 1].0 == module {
                    stack.pop();
                }
            }
        },
        _ => {},
    }
}

/// Walks the module graph depth first from the entries and starts a chunk
/// at every async import that the walk follows.
///
/// Returns the pairs of an ancestor root and a root split off below it.
pub fn discover_async_splits(
    modules: &ModuleGraph,
    entries: &Vec<usize>,
    chunks: &mut ChunkGraph,
    roots: &mut ChunkRoots,
) -> (reachable: ReachableChunks)
    requires
        modules.wf(),
        forall|i: int| 0 <= i < entries.len() ==> entries[i] < modules.modules().len(),
        old(chunks).wf(),
        old(chunks).dense(),
        old(chunks).sizes_agree(modules.sizes()),
        old(roots).capacity() == modules.modules().len(),
        roots_below(old(roots)@, old(chunks).chunks().len()),
        roots_lead(old(roots)@, old(chunks).chunks()),
        all_entries(old(chunks).chunks(), old(roots)@),
    ensures
        final(chunks).wf(),
        final(chunks).dense(),
        final(chunks).sizes_agree(modules.sizes()),
        final(chunks).links() == old(chunks).links(),
        final(roots).capacity() == old(roots).capacity(),
        roots_below(final(roots)@, final(chunks).chunks().len()),
        roots_lead(final(roots)@, final(chunks).chunks()),
        all_entries(final(chunks).chunks(), final(roots)@),
        slots_extended(old(chunks).chunks(), final(chunks).chunks()),
        forall|m: usize| old(roots)@.dom().contains(m) ==> final(roots)@.dom().contains(m),
        dominance_ranked(reachable@, dfs_events(modules.imports(), entries@)),
        ({
            let end = split_fold(
                modules.sizes(),
                modules.imports(),
                split_start(old(chunks).chunks(), old(roots)@),
                dfs_events(modules.imports(), entries@),
            );
            &&& final(chunks).chunks() == end.chunks
            &&& final(roots)@ == end.roots
            &&& reachable@ == end.reachable
        }),
{
    let trace = dfs_trace(modules, entries);
    let mut reachable = ReachableChunks::new();
    let mut stack: Vec<(usize, usize)> = Vec::new();
    let ghost start = split_start(old(chunks).chunks(), old(roots)@);
    let mut i: usize = 0;
    assert(trace@.take(0) =~= Seq::<DfsStep>::empty());
    proof {
        lemma_extended_same(chunks.chunks());
    }
    while i < trace.len()
        invariant
            i <= trace.len(),
            modules.wf(),
            trace_in_graph(modules.imports(), trace@),
            roots_lead(roots@, chunks.chunks()),
            all_entries(chunks.chunks(), roots@),
            slots_extended(old(chunks).chunks(), chunks.chunks()),
            forall|m: usize| old(roots)@.dom().contains(m) ==> roots@.dom().contains(m),
            chunks.wf(),
            chunks.dense(),
            chunks.sizes_agree(modules.sizes()),
            chunks.links() == old(chunks).links(),
            roots.capacity() == modules.modules().len(),
            roots_below(roots@, chunks.chunks().len()),
            (SplitState {
                chunks: chunks.chunks(),
                roots: roots@,
                reachable: reachable@,
                stack: stack@,
            }) == split_fold(
                modules.sizes(),
                modules.imports(),
                start,
                trace@.take(i as int),
            ),
        decreases trace.len() - i,
    {
        let ghost slots = chunks.chunks();
        on_dfs_event(modules, chunks, roots, &mut reachable, &mut stack, trace[i]);
        proof {
            lemma_extended_twice(old(chunks).chunks(), slots, chunks.chunks());
            assert(trace@.take(i + 1).drop_last() =~= trace@.take(i as int));
            assert(trace@.take(i + 1).last() == trace[i as int]);
        }
        i = i + 1;
    }
    proof {
        assert(trace@.take(trace.len() as int) =~= trace@);
        lemma_split_ranked(modules.sizes(), modules.imports(), start, trace@, trace.len() as nat);
    }
    reachable
}

} // verus!
