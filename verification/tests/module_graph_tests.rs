use code_splitter::module_graph::{Dependency, JsModule, ModuleGraph};

#[test]
fn add_module_returns_consecutive_handles() {
    let mut g = ModuleGraph::new();
    let a = g.add_module(JsModule { name: String::from("a.js"), size: 10 });
    let b = g.add_module(JsModule { name: String::from("b.js"), size: 20 });
    assert_eq!(a, 0);
    assert_eq!(b, 1);
    assert_eq!(g.module_count(), 2);
    assert_eq!(g.module_size(1), 20);
    assert_eq!(g.module(0).name, "a.js");
}

#[test]
fn dependency_finds_the_most_recent_import() {
    let mut g = ModuleGraph::new();
    let a = g.add_module(JsModule { name: String::from("a.js"), size: 10 });
    let b = g.add_module(JsModule { name: String::from("b.js"), size: 20 });
    assert!(g.dependency(a, b).is_none());
    g.add_dependency(a, b, Dependency { is_async: false });
    assert_eq!(g.dependency(a, b).map(|d| d.is_async), Some(false));
    g.add_dependency(a, b, Dependency { is_async: true });
    assert_eq!(g.dependency(a, b).map(|d| d.is_async), Some(true));
    assert!(g.dependency(b, a).is_none());
    assert!(g.dependency(7, a).is_none());
}
