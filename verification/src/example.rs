//! A small module graph to try the algorithm on.

use crate::module_graph::{Dependency, JsModule, ModuleGraph};
use vstd::prelude::*;

verus! {

/// The imports of the example graph, the most recently added first.
pub open spec fn example_imports() -> Seq<Seq<(usize, bool)>> {
    seq![
        seq![(4usize, false), (5usize, true), (2usize, false)],
        seq![(4usize, false), (3usize, false)],
        seq![],
        seq![],
        seq![],
        seq![],
    ]
}

/// Adds a module of size 1000.
fn add_example_module(g: &mut ModuleGraph, name: &str) -> (id: usize)
    requires
        old(g).wf(),
    ensures
        final(g).wf(),
        id == old(g).modules().len(),
        final(g).modules().len() == old(g).modules().len() + 1,
        final(g).modules()[id as int].name@ == name@,
        final(g).modules()[id as int].size == 1000,
        forall|i: int| 0 <= i < old(g).modules().len() ==> final(g).modules()[i] == old(g).modules()[i],
        final(g).imports() == old(g).imports().push(Seq::empty()),
{
    g.add_module(JsModule { name: name.to_owned(), size: 1000 })
}

/// Builds the example graph and its list of entries.
///
/// Two entries, `entry-a.js` and `entry-b.js`, import `a.js` and `b.js`, and
/// both import `shared.js`; `entry-a.js` imports `asynced_a.js` async. Every
/// module has size 1000.
pub fn build_graph() -> (built: (ModuleGraph, Vec<usize>))
    ensures
        built.0.wf(),
        built.0.modules().len() == 6,
        built.0.modules()[0].name@ == "entry-a.js"@,
        built.0.modules()[1].name@ == "entry-b.js"@,
        built.0.modules()[2].name@ == "a.js"@,
        built.0.modules()[3].name@ == "b.js"@,
        built.0.modules()[4].name@ == "shared.js"@,
        built.0.modules()[5].name@ == "asynced_a.js"@,
        forall|i: int| 0 <= i < 6 ==> (#[trigger] built.0.modules()[i]).size == 1000,
        built.0.imports() == example_imports(),
        built.1@ == seq![0usize, 1usize],
{
    let mut g = ModuleGraph::new();
    let mut entries: Vec<usize> = Vec::new();
    let entry_a_js: usize = add_example_module(&mut g, "entry-a.js");
    let entry_b_js: usize = add_example_module(&mut g, "entry-b.js");
    let a_js: usize = add_example_module(&mut g, "a.js");
    let b_js: usize = add_example_module(&mut g, "b.js");
    let shared_js: usize = add_example_module(&mut g, "shared.js");
    let asynced_a_js: usize = add_example_module(&mut g, "asynced_a.js");
    g.add_dependency(entry_a_js, a_js, Dependency { is_async: false });
    g.add_dependency(entry_a_js, asynced_a_js, Dependency { is_async: true });
    g.add_dependency(entry_a_js, shared_js, Dependency { is_async: false });
    g.add_dependency(entry_b_js, b_js, Dependency { is_async: false });
    g.add_dependency(entry_b_js, shared_js, Dependency { is_async: false });
    entries.push(entry_a_js);
    entries.push(entry_b_js);
    assert(g.imports() =~~= example_imports());
    assert(entries@ =~= seq![0usize, 1usize]);
    (g, entries)
}

} // verus!
