//! The key of a module: the roots that reach it and are not dominated by
//! another root that reaches it, in ascending order.

use crate::reachability::ReachableModules;
use crate::roots::ReachableChunks;
use vstd::prelude::*;

verus! {

/// The roots that reach `module`.
pub open spec fn reaching(reachable_modules: Set<(usize, usize)>, module: usize) -> Set<usize> {
    Set::new(|a: usize| reachable_modules.contains((a, module)))
}

/// The candidates that were not split off below another candidate.
pub open spec fn undominated(candidates: Set<usize>, reachable_chunks: Set<(usize, usize)>) -> Set<
    usize,
> {
    Set::new(
        |b: usize|
            candidates.contains(b) && forall|a: usize|
                candidates.contains(a) && a != b ==> !reachable_chunks.contains((a, b)),
    )
}

/// The members of `s` below `bound`, ascending.
pub open spec fn members_below(s: Set<usize>, bound: nat) -> Seq<usize>
    decreases bound,
{
    if bound == 0 {
        Seq::empty()
    } else if s.contains((bound - 1) as usize) {
        members_below(s, (bound - 1) as nat).push((bound - 1) as usize)
    } else {
        members_below(s, (bound - 1) as nat)
    }
}

/// The key of `module` in a graph of `count` modules.
pub open spec fn placement_key(
    reachable_modules: Set<(usize, usize)>,
    reachable_chunks: Set<(usize, usize)>,
    count: nat,
    module: usize,
) -> Seq<usize> {
    members_below(undominated(reaching(reachable_modules, module), reachable_chunks), count)
}

/// Whether each item is less than the next.
pub open spec fn ascending(list: Seq<usize>) -> bool {
    forall|i: int, j: int| 0 <= i < j < list.len() ==> list[i] < list[j]
}

/// The members of a set below a bound are those members, ascending.
pub proof fn lemma_members_below(s: Set<usize>, bound: nat)
    requires
        bound <= usize::MAX + 1,
    ensures
        ascending(members_below(s, bound)),
        forall|x: usize|
            #![trigger members_below(s, bound).contains(x)]
            #![trigger s.contains(x)]
            members_below(s, bound).contains(x) <==> s.contains(x) && x < bound,
    decreases bound,
{
    if bound > 0 {
        let rest = members_below(s, (bound - 1) as nat);
        let top = (bound - 1) as usize;
        lemma_members_below(s, (bound - 1) as nat);
        if s.contains(top) {
            let all = rest.push(top);
            assert forall|i: int, j: int| 0 <= i < j < all.len() implies all[i] < all[j] by {
                if j == rest.len() {
                    assert(rest.contains(rest[i]));
                    assert(rest[i] < bound - 1);
                } else {
                    assert(rest[i] < rest[j]);
                }
            }
            assert forall|x: usize| all.contains(x) <==> s.contains(x) && x < bound by {
                if all.contains(x) {
                    let i = choose|i: int| 0 <= i < all.len() && all[i] == x;
                    if i < rest.len() {
                        assert(rest.contains(rest[i]));
                    }
                }
                if s.contains(x) && x < bound {
                    if x == top {
                        assert(all[rest.len() as int] == x);
                    } else {
                        assert(rest.contains(x));
                        let i = choose|i: int| 0 <= i < rest.len() && rest[i] == x;
                        assert(all[i] == x);
                    }
                }
            }
        }
    }
}

/// An ascending list is the list of the members of its set.
pub proof fn lemma_ascending_is_members(list: Seq<usize>, s: Set<usize>, bound: nat)
    requires
        bound <= usize::MAX + 1,
        ascending(list),
        forall|x: usize|
            #![trigger list.contains(x)]
            #![trigger s.contains(x)]
            list.contains(x) <==> s.contains(x) && x < bound,
    ensures
        list == members_below(s, bound),
    decreases bound,
{
    if bound == 0 {
        if list.len() > 0 {
            assert(list.contains(list[0]));
        }
        assert(list =~= Seq::<usize>::empty());
    } else {
        let top = (bound - 1) as usize;
        if s.contains(top) {
            assert(list.contains(top));
            let i = choose|i: int| 0 <= i < list.len() && list[i] == top;
            if i < list.len() - 1 {
                assert(list.contains(list[i + 1]));
            }
            let rest = list.drop_last();
            assert forall|x: usize| rest.contains(x) <==> s.contains(x) && x < bound - 1 by {
                if rest.contains(x) {
                    let j = choose|j: int| 0 <= j < rest.len() && rest[j] == x;
                    assert(list[j] == x);
                    assert(list.contains(x));
                }
                if s.contains(x) && x < bound - 1 {
                    assert(list.contains(x));
                    let j = choose|j: int| 0 <= j < list.len() && list[j] == x;
                    assert(rest[j] == x);
                }
            }
            lemma_ascending_is_members(rest, s, (bound - 1) as nat);
            assert(list =~= rest.push(top));
        } else {
            assert forall|x: usize| list.contains(x) <==> s.contains(x) && x < bound - 1 by {
            }
            lemma_ascending_is_members(list, s, (bound - 1) as nat);
        }
    }
}

/// No key holds a root together with another root that was split off below
/// it.
pub proof fn lemma_key_excludes_dominated(
    reachable_modules: Set<(usize, usize)>,
    reachable_chunks: Set<(usize, usize)>,
    count: nat,
    module: usize,
    ancestor: usize,
    descendant: usize,
)
    requires
        count <= usize::MAX + 1,
        reachable_chunks.contains((ancestor, descendant)),
        ancestor != descendant,
    ensures
        !(placement_key(reachable_modules, reachable_chunks, count, module).contains(ancestor)
            && placement_key(reachable_modules, reachable_chunks, count, module).contains(
            descendant,
        )),
{
    let wanted = undominated(reaching(reachable_modules, module), reachable_chunks);
    lemma_members_below(wanted, count);
    let key = placement_key(reachable_modules, reachable_chunks, count, module);
    if key.contains(ancestor) && key.contains(descendant) {
        assert(wanted.contains(ancestor));
        assert(wanted.contains(descendant));
        assert(reaching(reachable_modules, module).contains(ancestor));
    }
}

/// Whether some other candidate has `root` split off below it.
pub fn is_dominated(candidates: &Vec<usize>, reachable_chunks: &ReachableChunks, root: usize) -> (found:
    bool)
    ensures
        found == exists|a: usize|
            candidates@.contains(a) && a != root && reachable_chunks@.contains((a, root)),
{
    let mut i: usize = 0;
    while i < candidates.len()
        invariant
            i <= candidates.len(),
            forall|k: int|
                0 <= k < i ==> !(candidates[k] != root && reachable_chunks@.contains(
                    (candidates[k], root),
                )),
        decreases candidates.len() - i,
    {
        let a: usize = candidates[i];
        if a != root && reachable_chunks.contains(a, root) {
            assert(candidates@.contains(a));
            return true;
        }
        i = i + 1;
    }
    false
}

/// Inserts `x` into an ascending list, unless it is there already.
pub fn insert_ascending(list: &mut Vec<usize>, x: usize)
    requires
        ascending(old(list)@),
    ensures
        ascending(final(list)@),
        forall|y: usize|
            #![trigger final(list)@.contains(y)]
            #![trigger old(list)@.contains(y)]
            final(list)@.contains(y) <==> old(list)@.contains(y) || y == x,
{
    let mut i: usize = 0;
    while i < list.len() && list[i] < x
        invariant
            i <= list.len(),
            list@ == old(list)@,
            forall|k: int| 0 <= k < i ==> list[k] < x,
        decreases list.len() - i,
    {
        i = i + 1;
    }
    if i < list.len() && list[i] == x {
        assert(list@.contains(x));
        return ;
    }
    list.insert(i, x);
    proof {
        let before = old(list)@;
        let after = list@;
        assert forall|y: usize| after.contains(y) <==> before.contains(y) || y == x by {
            if after.contains(y) {
                let k = choose|k: int| 0 <= k < after.len() && after[k] == y;
                if k < i {
                    assert(before[k] == y);
                } else if k > i {
                    assert(before[k - 1] == y);
                }
            }
            if before.contains(y) {
                let k = choose|k: int| 0 <= k < before.len() && before[k] == y;
                if k < i {
                    assert(after[k] == y);
                } else {
                    assert(after[k + 1] == y);
                }
            }
            if y == x {
                assert(after[i as int] == x);
            }
        }
    }
}

/// The key of `module`: the roots in `reaching_roots` that no other of them
/// dominates, ascending and each once.
pub fn key_of(reaching_roots: &Vec<usize>, reachable_chunks: &ReachableChunks, count: usize) -> (key:
    Vec<usize>)
    requires
        forall|k: int| 0 <= k < reaching_roots.len() ==> reaching_roots[k] < count,
    ensures
        key@ == members_below(undominated(reaching_roots@.to_set(), reachable_chunks@), count as nat),
{
    let mut key: Vec<usize> = Vec::new();
    let ghost wanted = undominated(reaching_roots@.to_set(), reachable_chunks@);
    let mut i: usize = 0;
    while i < reaching_roots.len()
        invariant
            i <= reaching_roots.len(),
            wanted == undominated(reaching_roots@.to_set(), reachable_chunks@),
            ascending(key@),
            forall|y: usize|
                #![trigger key@.contains(y)]
                #![trigger wanted.contains(y)]
                key@.contains(y) <==> wanted.contains(y) && reaching_roots@.take(i as int).contains(
                    y,
                ),
        decreases reaching_roots.len() - i,
    {
        let root: usize = reaching_roots[i];
        let ghost before = key@;
        assert(reaching_roots@.contains(root));
        let dominated = is_dominated(reaching_roots, reachable_chunks, root);
        if !dominated {
            insert_ascending(&mut key, root);
        }
        proof {
            let done = reaching_roots@.take(i as int);
            let next = reaching_roots@.take(i + 1);
            assert(next =~= done.push(root));
            if dominated {
                let a = choose|a: usize|
                    reaching_roots@.contains(a) && a != root && reachable_chunks@.contains(
                        (a, root),
                    );
                assert(reaching_roots@.to_set().contains(a));
                assert(!wanted.contains(root));
            } else {
                assert forall|a: usize|
                    reaching_roots@.to_set().contains(a) && a
                        != root implies !reachable_chunks@.contains((a, root)) by {
                    assert(reaching_roots@.contains(a));
                }
                assert(reaching_roots@.to_set().contains(root));
                assert(wanted.contains(root));
            }
            assert forall|y: usize|
                key@.contains(y) <==> wanted.contains(y) && next.contains(y) by {
                if next.contains(y) {
                    let k = choose|k: int| 0 <= k < next.len() && next[k] == y;
                    if k < i {
                        assert(done[k] == y);
                    }
                }
                if done.contains(y) {
                    let k = choose|k: int| 0 <= k < done.len() && done[k] == y;
                    assert(next[k] == y);
                }
                assert(next[i as int] == root);
            }
        }
        i = i + 1;
    }
    proof {
        assert(reaching_roots@.take(reaching_roots.len() as int) =~= reaching_roots@);
        assert forall|y: usize| key@.contains(y) <==> wanted.contains(y) && y < count by {
            if wanted.contains(y) {
                assert(reaching_roots@.contains(y));
                let k = choose|k: int| 0 <= k < reaching_roots.len() && reaching_roots[k] == y;
            }
        }
        lemma_ascending_is_members(key@, wanted, count as nat);
    }
    key
}

/// The roots that reach `module` and are not dominated, ascending.
pub fn placement_key_of(
    reachable_modules: &ReachableModules,
    reachable_chunks: &ReachableChunks,
    count: usize,
    module: usize,
) -> (key: Vec<usize>)
    requires
        forall|p: (usize, usize)| #[trigger] reachable_modules@.contains(p) ==> p.0 < count,
    ensures
        key@ == placement_key(reachable_modules@, reachable_chunks@, count as nat, module),
{
    let reaching_roots = reachable_modules.roots_reaching(module);
    proof {
        assert(reaching_roots@.to_set() =~= reaching(reachable_modules@, module));
        assert forall|k: int| 0 <= k < reaching_roots.len() implies reaching_roots[k] < count by {
            assert(reaching_roots@.contains(reaching_roots[k]));
            assert(reachable_modules@.contains((reaching_roots[k], module)));
        }
    }
    key_of(&reaching_roots, reachable_chunks, count)
}

} // verus!
