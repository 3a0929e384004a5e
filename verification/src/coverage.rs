//! Why every module that an entry reaches has a place: the last root on the
//! way to it claims it, and of the roots that claim it the one that the
//! search entered first is dominated by none.

use crate::async_split::{dominance_ranked, first_enter};
use crate::chunk::ChunkView;
use crate::chunk_graph::placed_in;
use crate::module_graph::imports_within;
use crate::placement::has_place;
use crate::placement_key::{lemma_members_below, placement_key, reaching, undominated};
use crate::reachability::{all_claims_closed, claimed_pairs};
use crate::traversal::{claims_closed, dfs_claimed, DfsStep};
use vstd::prelude::*;

verus! {

/// Whether `from` has an import of `to`.
pub open spec fn steps_to(imports: Seq<Seq<(usize, bool)>>, from: usize, to: usize) -> bool {
    from < imports.len() && exists|k: int|
        0 <= k < imports[from as int].len() && (#[trigger] imports[from as int][k]).0 == to
}

/// Whether each module of the path imports the next.
pub open spec fn is_walk(imports: Seq<Seq<(usize, bool)>>, path: Seq<usize>) -> bool {
    path.len() > 0 && forall|i: int|
        0 <= i < path.len() - 1 ==> steps_to(imports, #[trigger] path[i], path[i + 1])
}

/// Whether a path of imports leads from `from` to `to`.
pub open spec fn walks_to(imports: Seq<Seq<(usize, bool)>>, from: usize, to: usize) -> bool {
    exists|path: Seq<usize>| #[trigger] is_walk(imports, path) && path[0] == from && path.last() == to
}

/// Whether a path of imports leads from some entry to `module`.
pub open spec fn reachable_from_entry(
    imports: Seq<Seq<(usize, bool)>>,
    entries: Seq<usize>,
    module: usize,
) -> bool {
    exists|i: int| 0 <= i < entries.len() && walks_to(imports, #[trigger] entries[i], module)
}

/// On a path that starts at a root there is a last root.
pub proof fn lemma_last_root(roots: Set<usize>, path: Seq<usize>) -> (j: int)
    requires
        path.len() > 0,
        roots.contains(path[0]),
    ensures
        0 <= j < path.len(),
        roots.contains(path[j]),
        forall|i: int| j < i < path.len() ==> !roots.contains(#[trigger] path[i]),
    decreases path.len(),
{
    if roots.contains(path.last()) {
        path.len() - 1
    } else {
        let j = lemma_last_root(roots, path.drop_last());
        assert forall|i: int| j < i < path.len() implies !roots.contains(#[trigger] path[i]) by {
            if i < path.len() - 1 {
                assert(path.drop_last()[i] == path[i]);
            }
        }
        j
    }
}

/// A root claims the module at the end of a path that starts at the root and
/// meets no other root.
pub proof fn lemma_walk_is_claimed(
    imports: Seq<Seq<(usize, bool)>>,
    roots: Map<usize, (usize, usize)>,
    path: Seq<usize>,
)
    requires
        all_claims_closed(imports, roots),
        is_walk(imports, path),
        path.len() > 1,
        roots.dom().contains(path[0]),
        forall|i: int| 0 < i < path.len() ==> !roots.dom().contains(#[trigger] path[i]),
    ensures
        dfs_claimed(imports, path[0], roots.dom()).contains(path.last()),
    decreases path.len(),
{
    let root = path[0];
    let found = dfs_claimed(imports, root, roots.dom());
    assert(claims_closed(imports, root, roots.dom(), found));
    let from = path[path.len() - 2];
    let to = path.last();
    assert(steps_to(imports, from, to));
    let k = choose|k: int|
        0 <= k < imports[from as int].len() && (#[trigger] imports[from as int][k]).0 == to;
    assert(!roots.dom().contains(path[path.len() - 1]));
    if path.len() > 2 {
        let shorter = path.drop_last();
        assert forall|i: int| 0 <= i < shorter.len() - 1 implies steps_to(
            imports,
            #[trigger] shorter[i],
            shorter[i + 1],
        ) by {
            assert(shorter[i] == path[i] && shorter[i + 1] == path[i + 1]);
        }
        assert forall|i: int| 0 < i < shorter.len() implies !roots.dom().contains(
            #[trigger] shorter[i],
        ) by {
            assert(shorter[i] == path[i]);
        }
        lemma_walk_is_claimed(imports, roots, shorter);
        assert(shorter.last() == from);
        assert(!roots.dom().contains(path[path.len() - 2]));
    }
    assert(imports[from as int][k].0 != root);
}

/// Of the roots that reach a module, one is dominated by no other.
pub proof fn lemma_some_root_undominated(
    candidates: Set<usize>,
    reachable_chunks: Set<(usize, usize)>,
    trace: Seq<DfsStep>,
    x: usize,
)
    requires
        candidates.contains(x),
        dominance_ranked(reachable_chunks, trace),
    ensures
        exists|b: usize| undominated(candidates, reachable_chunks).contains(b),
    decreases first_enter(trace, x),
{
    if !undominated(candidates, reachable_chunks).contains(x) {
        let a = choose|a: usize|
            candidates.contains(a) && a != x && reachable_chunks.contains((a, x));
        assert(reachable_chunks.contains((a, x)));
        lemma_some_root_undominated(candidates, reachable_chunks, trace, a);
    }
}

/// A path of imports that starts in the graph ends in the graph.
pub proof fn lemma_walk_stays_in_graph(
    imports: Seq<Seq<(usize, bool)>>,
    count: nat,
    path: Seq<usize>,
)
    requires
        imports_within(imports, count),
        is_walk(imports, path),
        path[0] < count,
    ensures
        path.last() < count,
{
    if path.len() > 1 {
        let from = path[path.len() - 2];
        assert(steps_to(imports, from, path[path.len() - 2 + 1]));
        let k = choose|k: int|
            0 <= k < imports[from as int].len() && (#[trigger] imports[from as int][k]).0
                == path.last();
        assert(imports[from as int][k].0 < count);
    }
}

/// The last root on a path of imports claims the module at the end of the
/// path, unless that module is a root itself.
pub proof fn lemma_last_root_claims(
    imports: Seq<Seq<(usize, bool)>>,
    roots: Map<usize, (usize, usize)>,
    path: Seq<usize>,
) -> (root: usize)
    requires
        all_claims_closed(imports, roots),
        is_walk(imports, path),
        roots.dom().contains(path[0]),
        !roots.dom().contains(path.last()),
    ensures
        claimed_pairs(imports, roots).contains((root, path.last())),
{
    let j = lemma_last_root(roots.dom(), path);
    let rest = path.subrange(j, path.len() as int);
    assert(rest.last() == path.last());
    assert(rest[0] == path[j]);
    assert forall|i: int| 0 <= i < rest.len() - 1 implies steps_to(
        imports,
        #[trigger] rest[i],
        rest[i + 1],
    ) by {
        assert(rest[i] == path[j + i] && rest[i + 1] == path[j + i + 1]);
    }
    assert forall|i: int| 0 < i < rest.len() implies !roots.dom().contains(#[trigger] rest[i]) by {
        assert(rest[i] == path[j + i]);
    }
    lemma_walk_is_claimed(imports, roots, rest);
    path[j]
}

/// A module that some root reaches has a key.
pub proof fn lemma_reached_has_key(
    reachable_modules: Set<(usize, usize)>,
    reachable_chunks: Set<(usize, usize)>,
    trace: Seq<DfsStep>,
    count: nat,
    root: usize,
    module: usize,
)
    requires
        count <= usize::MAX + 1,
        forall|p: (usize, usize)| #[trigger] reachable_modules.contains(p) ==> p.0 < count,
        dominance_ranked(reachable_chunks, trace),
        reachable_modules.contains((root, module)),
    ensures
        placement_key(reachable_modules, reachable_chunks, count, module).len() > 0,
{
    let candidates = reaching(reachable_modules, module);
    assert(candidates.contains(root));
    lemma_some_root_undominated(candidates, reachable_chunks, trace, root);
    let b = choose|b: usize| undominated(candidates, reachable_chunks).contains(b);
    assert(candidates.contains(b));
    assert(reachable_modules.contains((b, module)));
    lemma_members_below(undominated(candidates, reachable_chunks), count);
    let key = placement_key(reachable_modules, reachable_chunks, count, module);
    assert(key.contains(b));
}

/// Every module that an entry reaches is a module of the graph and has a
/// place: it is a root, or a root that no other dominates reaches it.
pub proof fn lemma_reachable_has_place(
    imports: Seq<Seq<(usize, bool)>>,
    entries: Seq<usize>,
    roots: Map<usize, (usize, usize)>,
    reachable_chunks: Set<(usize, usize)>,
    trace: Seq<DfsStep>,
    count: nat,
    module: usize,
)
    requires
        count <= usize::MAX + 1,
        imports_within(imports, count),
        forall|i: int| 0 <= i < entries.len() ==> entries[i] < count && roots.dom().contains(
            entries[i],
        ),
        forall|r: usize| roots.dom().contains(r) ==> r < count,
        all_claims_closed(imports, roots),
        dominance_ranked(reachable_chunks, trace),
        reachable_from_entry(imports, entries, module),
    ensures
        module < count,
        has_place(roots, claimed_pairs(imports, roots), reachable_chunks, count, module),
{
    let e = choose|i: int| 0 <= i < entries.len() && walks_to(imports, #[trigger] entries[i], module);
    let path = choose|path: Seq<usize>| #[trigger]
        is_walk(imports, path) && path[0] == entries[e] && path.last() == module;
    lemma_walk_stays_in_graph(imports, count, path);
    if !roots.dom().contains(module) {
        let root = lemma_last_root_claims(imports, roots, path);
        let pairs = claimed_pairs(imports, roots);
        assert forall|p: (usize, usize)| #[trigger] pairs.contains(p) implies p.0 < count by {
            assert(roots.dom().contains(p.0));
        }
        lemma_reached_has_key(pairs, reachable_chunks, trace, count, root, module);
    }
}

/// Every module that an entry reaches is in a chunk, once every module that
/// has a place is in a chunk.
pub proof fn lemma_reachable_is_placed(
    imports: Seq<Seq<(usize, bool)>>,
    entries: Seq<usize>,
    roots: Map<usize, (usize, usize)>,
    reachable_chunks: Set<(usize, usize)>,
    trace: Seq<DfsStep>,
    count: nat,
    chunks: Seq<Option<ChunkView>>,
)
    requires
        count <= usize::MAX + 1,
        imports_within(imports, count),
        forall|i: int| 0 <= i < entries.len() ==> entries[i] < count && roots.dom().contains(
            entries[i],
        ),
        forall|r: usize| roots.dom().contains(r) ==> r < count,
        all_claims_closed(imports, roots),
        dominance_ranked(reachable_chunks, trace),
        forall|m: usize|
            m < count && #[trigger] has_place(
                roots,
                claimed_pairs(imports, roots),
                reachable_chunks,
                count,
                m,
            ) ==> placed_in(chunks, m),
    ensures
        forall|m: usize| reachable_from_entry(imports, entries, m) ==> placed_in(chunks, m),
{
    assert forall|m: usize| reachable_from_entry(imports, entries, m) implies placed_in(
        chunks,
        m,
    ) by {
        lemma_reachable_has_place(imports, entries, roots, reachable_chunks, trace, count, m);
    }
}

} // verus!
