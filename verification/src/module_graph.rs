//! The module dependency graph: modules with a size, dependencies with an
//! async flag, held in a `petgraph::Graph` that is indexed by `usize`.

use petgraph::graph::{EdgeIndex, NodeIndex};
use petgraph::{Directed, Graph};
use vstd::prelude::*;

verus! {

/// A unit of source input.
#[derive(Debug)]
pub struct JsModule {
    pub name: String,
    pub size: usize,
}

/// A directed import; an async one is loaded on demand.
#[derive(Debug)]
pub struct Dependency {
    pub is_async: bool,
}

/// `petgraph::Graph`: what a value of it holds is known only through the
/// functions below.
#[verifier::external_type_specification]
#[verifier::external_body]
#[verifier::reject_recursive_types(N)]
#[verifier::reject_recursive_types(E)]
#[verifier::reject_recursive_types(Ty)]
#[verifier::reject_recursive_types(Ix)]
pub struct ExGraph<N, E, Ty, Ix>(Graph<N, E, Ty, Ix>);

/// `petgraph::Directed`: the marker of graphs with directed edges.
#[verifier::external_type_specification]
#[verifier::external_body]
pub struct ExDirected(Directed);

/// The weights of the nodes of a module graph, by node index.
pub uninterp spec fn graph_modules(g: Graph<JsModule, Dependency, Directed, usize>) -> Seq<
    JsModule,
>;

/// For each node of a module graph, the edges that leave it, each as target and
/// async flag, in the order in which the graph walks them.
pub uninterp spec fn graph_imports(g: Graph<JsModule, Dependency, Directed, usize>) -> Seq<
    Seq<(usize, bool)>,
>;

/// The async flag of each edge of a module graph, by edge index.
pub uninterp spec fn graph_flags(g: Graph<JsModule, Dependency, Directed, usize>) -> Seq<bool>;

/// The async flag of the first import in `list` that goes to `target`.
pub open spec fn first_import(list: Seq<(usize, bool)>, target: usize) -> Option<bool>
    decreases list.len(),
{
    if list.len() == 0 {
        None
    } else if list[0].0 == target {
        Some(list[0].1)
    } else {
        first_import(list.drop_first(), target)
    }
}

/// Every import in the table goes from and to a node below `count`.
pub open spec fn imports_within(imports: Seq<Seq<(usize, bool)>>, count: nat) -> bool {
    &&& imports.len() == count
    &&& forall|a: int, k: int|
        0 <= a < imports.len() && 0 <= k < imports[a].len() ==> (#[trigger] imports[a][k]).0
            < count
}

/// `Graph::with_capacity(0, 0)`: a graph without nodes or edges.
#[verifier::external_body]
fn graph_new() -> (g: Graph<JsModule, Dependency, Directed, usize>)
    ensures
        graph_modules(g) == Seq::<JsModule>::empty(),
        graph_imports(g) == Seq::<Seq<(usize, bool)>>::empty(),
        graph_flags(g) == Seq::<bool>::empty(),
{
    Graph::with_capacity(0, 0)
}

/// `Graph::node_count`: the number of nodes, each of which has a list of
/// edges that leave it, all to nodes of the graph.
#[verifier::external_body]
fn graph_node_count(g: &Graph<JsModule, Dependency, Directed, usize>) -> (n: usize)
    ensures
        n == graph_modules(*g).len(),
        imports_within(graph_imports(*g), n as nat),
{
    g.node_count()
}

/// `Graph::add_node`: appends a node without edges and returns its index.
/// With `usize` indices the graph has no node limit of its own.
#[verifier::external_body]
fn graph_add_node(g: &mut Graph<JsModule, Dependency, Directed, usize>, module: JsModule) -> (id:
    usize)
    ensures
        id == graph_modules(*old(g)).len(),
        graph_modules(*final(g)) == graph_modules(*old(g)).push(module),
        graph_imports(*final(g)) == graph_imports(*old(g)).push(Seq::empty()),
        graph_flags(*final(g)) == graph_flags(*old(g)),
{
    g.add_node(module).index()
}

/// `Graph::add_edge`: a new edge between two nodes of the graph, which the
/// graph from then on walks before the older edges of its source. The edge
/// gets the next edge index.
#[verifier::external_body]
fn graph_add_edge(
    g: &mut Graph<JsModule, Dependency, Directed, usize>,
    from: usize,
    to: usize,
    dependency: Dependency,
)
    requires
        from < graph_modules(*old(g)).len(),
        to < graph_modules(*old(g)).len(),
    ensures
        graph_modules(*final(g)) == graph_modules(*old(g)),
        graph_imports(*final(g)) == graph_imports(*old(g)).update(
            from as int,
            seq![(to, dependency.is_async)] + graph_imports(*old(g))[from as int],
        ),
        graph_flags(*final(g)) == graph_flags(*old(g)).push(dependency.is_async),
{
    g.add_edge(NodeIndex::new(from), NodeIndex::new(to), dependency);
}

/// `Graph::index` by node: the weight of a node of the graph.
#[verifier::external_body]
fn graph_module(g: &Graph<JsModule, Dependency, Directed, usize>, id: usize) -> (module: &JsModule)
    requires
        id < graph_modules(*g).len(),
    ensures
        *module == graph_modules(*g)[id as int],
{
    &g[NodeIndex::new(id)]
}

/// `Graph::find_edge`: the index of the first edge to `to` among those that
/// the graph walks from `from`.
#[verifier::external_body]
fn graph_find_edge(g: &Graph<JsModule, Dependency, Directed, usize>, from: usize, to: usize) -> (edge:
    Option<usize>)
    requires
        from < graph_modules(*g).len(),
    ensures
        match edge {
            Some(e) => e < graph_flags(*g).len() && first_import(graph_imports(*g)[from as int], to)
                == Some(graph_flags(*g)[e as int]),
            None => first_import(graph_imports(*g)[from as int], to) is None,
        },
{
    g.find_edge(NodeIndex::new(from), NodeIndex::new(to)).map(|e| e.index())
}

/// `Graph::index` by edge: the weight of an edge of the graph.
#[verifier::external_body]
fn graph_dependency(g: &Graph<JsModule, Dependency, Directed, usize>, edge: usize) -> (dependency:
    &Dependency)
    requires
        edge < graph_flags(*g).len(),
    ensures
        dependency.is_async == graph_flags(*g)[edge as int],
{
    &g[EdgeIndex::new(edge)]
}

/// The input of the algorithm: modules and the imports between them.
pub struct ModuleGraph {
    graph: Graph<JsModule, Dependency, Directed, usize>,
}

impl ModuleGraph {
    /// The modules by handle.
    pub closed spec fn modules(&self) -> Seq<JsModule> {
        graph_modules(self.graph)
    }

    /// For each module its imports, each as imported module and async flag,
    /// the most recently added first.
    pub closed spec fn imports(&self) -> Seq<Seq<(usize, bool)>> {
        graph_imports(self.graph)
    }

    /// The size of each module by handle.
    pub open spec fn sizes(&self) -> Seq<usize> {
        Seq::new(self.modules().len(), |i: int| self.modules()[i].size)
    }

    /// Every import connects two modules of the graph.
    pub open spec fn wf(&self) -> bool {
        imports_within(self.imports(), self.modules().len())
    }

    /// Whether `from` imports `to`.
    pub open spec fn has_import(&self, from: usize, to: usize) -> bool {
        from < self.imports().len() && first_import(self.imports()[from as int], to) is Some
    }

    /// The graph without modules.
    pub fn new() -> (g: ModuleGraph)
        ensures
            g.wf(),
            g.modules() == Seq::<JsModule>::empty(),
            g.imports() == Seq::<Seq<(usize, bool)>>::empty(),
    {
        ModuleGraph { graph: graph_new() }
    }

    /// Adds a module and returns its handle.
    pub fn add_module(&mut self, module: JsModule) -> (id: usize)
        requires
            old(self).wf(),
        ensures
            final(self).wf(),
            id == old(self).modules().len(),
            final(self).modules() == old(self).modules().push(module),
            final(self).imports() == old(self).imports().push(Seq::empty()),
    {
        let id: usize = graph_add_node(&mut self.graph, module);
        id
    }

    /// Adds an import, which is walked before the older imports of `from`.
    pub fn add_dependency(&mut self, from: usize, to: usize, dependency: Dependency)
        requires
            old(self).wf(),
            from < old(self).modules().len(),
            to < old(self).modules().len(),
        ensures
            final(self).wf(),
            final(self).modules() == old(self).modules(),
            final(self).imports() == old(self).imports().update(
                from as int,
                seq![(to, dependency.is_async)] + old(self).imports()[from as int],
            ),
    {
        graph_add_edge(&mut self.graph, from, to, dependency);
        proof {
            let before = old(self).imports();
            let after = self.imports();
            assert forall|a: int, k: int|
                0 <= a < after.len() && 0 <= k < after[a].len() implies (#[trigger] after[a][k]).0
                < self.modules().len() by {
                if a == from as int {
                    if k > 0 {
                        assert(after[a][k] == before[a][k - 1]);
                    }
                } else {
                    assert(after[a][k] == before[a][k]);
                }
            }
        }
    }

    /// The number of modules.
    pub fn module_count(&self) -> (n: usize)
        ensures
            n == self.modules().len(),
            self.wf(),
    {
        graph_node_count(&self.graph)
    }

    /// The module with the given handle.
    pub fn module(&self, id: usize) -> (module: &JsModule)
        requires
            id < self.modules().len(),
        ensures
            *module == self.modules()[id as int],
    {
        graph_module(&self.graph, id)
    }

    /// The size of the module with the given handle.
    pub fn module_size(&self, id: usize) -> (size: usize)
        requires
            id < self.modules().len(),
        ensures
            size == self.sizes()[id as int],
    {
        graph_module(&self.graph, id).size
    }

    /// The import from `from` to `to` that the graph walks first, if there is
    /// one.
    pub fn dependency(&self, from: usize, to: usize) -> (found: Option<Dependency>)
        ensures
            match found {
                Some(d) => self.has_import(from, to) && Some(d.is_async) == first_import(
                    self.imports()[from as int],
                    to,
                ),
                None => !self.has_import(from, to),
            },
    {
        let n: usize = graph_node_count(&self.graph);
        if from >= n {
            return None;
        }
        match graph_find_edge(&self.graph, from, to) {
            Some(edge) => Some(Dependency { is_async: graph_dependency(&self.graph, edge).is_async }),
            None => None,
        }
    }

    /// The graph itself, to be read.
    pub fn as_graph(&self) -> (g: &Graph<JsModule, Dependency, Directed, usize>)
        ensures
            graph_modules(*g) == self.modules(),
            graph_imports(*g) == self.imports(),
    {
        &self.graph
    }
}

} // verus!
