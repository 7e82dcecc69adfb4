use syslua_lib::inputs::graph::{build_initial_graph, DependencyGraph, GraphError, GraphNode};
use syslua_lib::inputs::types::{InputDecl, InputOverride};
use syslua_lib::strmap::{add_to_set_map, StrMap};

#[test]
fn root_input_node() {
    let node = GraphNode::root_input("pkgs".to_string(), InputDecl::Url("git:https://example.com".to_string()));

    assert!(node.is_root_level());
    assert_eq!(node.name, "pkgs");
    assert_eq!(node.full_path, "pkgs");
    assert!(node.parent_path.is_empty());
}

#[test]
fn transitive_node() {
    let node = GraphNode::transitive(
        "utils".to_string(),
        InputDecl::Url("git:https://example.com/utils".to_string()),
        "pkgs",
    );

    assert!(!node.is_root_level());
    assert_eq!(node.name, "utils");
    assert_eq!(node.full_path, "pkgs/utils");
    assert_eq!(node.parent_path, "pkgs");
}

#[test]
fn deeply_nested_node() {
    let node = GraphNode::transitive(
        "helpers".to_string(),
        InputDecl::Url("git:https://example.com/helpers".to_string()),
        "pkgs/utils",
    );

    assert_eq!(node.full_path, "pkgs/utils/helpers");
    assert_eq!(node.parent_path, "pkgs/utils");
}

#[test]
fn add_root_inputs() {
    let mut graph = DependencyGraph::new();
    graph.add_root_input("pkgs", InputDecl::Url("git:https://example.com/pkgs".to_string()));
    graph.add_root_input("utils", InputDecl::Url("git:https://example.com/utils".to_string()));

    assert_eq!(graph.nodes.len(), 2);
    assert!(graph.get("pkgs").is_some());
    assert!(graph.get("utils").is_some());

    let roots = graph.root_inputs();
    assert_eq!(roots.len(), 2);
}

#[test]
fn add_transitive_dependency() {
    let mut graph = DependencyGraph::new();
    graph.add_root_input("pkgs", InputDecl::Url("git:https://example.com/pkgs".to_string()));
    graph.add_transitive("utils", InputDecl::Url("git:https://example.com/utils".to_string()), "pkgs");

    assert_eq!(graph.nodes.len(), 2);
    assert!(graph.get("pkgs/utils").is_some());

    let deps = graph.dependencies("pkgs");
    assert_eq!(deps.len(), 1);
    assert_eq!(deps[0], "pkgs/utils");

    let dependents = graph.dependents("pkgs/utils");
    assert_eq!(dependents.len(), 1);
    assert_eq!(dependents[0], "pkgs");
}

#[test]
fn topological_sort_simple() {
    let mut graph = DependencyGraph::new();
    graph.add_root_input("pkgs", InputDecl::Url("git:a".to_string()));
    graph.add_transitive("utils", InputDecl::Url("git:b".to_string()), "pkgs");

    let order = graph.topological_sort();

    let utils_idx = order.iter().position(|p| p == "pkgs/utils").unwrap();
    let pkgs_idx = order.iter().position(|p| p == "pkgs").unwrap();
    assert!(utils_idx < pkgs_idx);
}

#[test]
fn topological_sort_diamond() {
    // a depends on b and c; b and c both depend on d
    let mut graph = DependencyGraph::new();
    graph.add_root_input("a", InputDecl::Url("git:a".to_string()));
    graph.add_transitive("b", InputDecl::Url("git:b".to_string()), "a");
    graph.add_transitive("c", InputDecl::Url("git:c".to_string()), "a");
    graph.add_transitive("d", InputDecl::Url("git:d".to_string()), "a/b");

    add_to_set_map(&mut graph.edges, "a/c", "a/b/d".to_string());
    add_to_set_map(&mut graph.reverse_edges, "a/b/d", "a/c".to_string());

    let order = graph.topological_sort();

    let d_idx = order.iter().position(|p| p == "a/b/d").unwrap();
    let b_idx = order.iter().position(|p| p == "a/b").unwrap();
    let c_idx = order.iter().position(|p| p == "a/c").unwrap();
    let a_idx = order.iter().position(|p| p == "a").unwrap();

    assert!(d_idx < b_idx);
    assert!(d_idx < c_idx);
    assert!(b_idx < a_idx);
    assert!(c_idx < a_idx);
}

#[test]
fn find_cycles_none() {
    let mut graph = DependencyGraph::new();
    graph.add_root_input("a", InputDecl::Url("git:a".to_string()));
    graph.add_transitive("b", InputDecl::Url("git:b".to_string()), "a");

    let cycles = graph.find_cycles();
    assert!(cycles.is_empty());
}

#[test]
fn find_cycles_simple() {
    let mut graph = DependencyGraph::new();
    graph.add_root_input("a", InputDecl::Url("git:a".to_string()));
    graph.add_root_input("b", InputDecl::Url("git:b".to_string()));

    // a -> b -> a
    add_to_set_map(&mut graph.edges, "a", "b".to_string());
    add_to_set_map(&mut graph.edges, "b", "a".to_string());
    add_to_set_map(&mut graph.reverse_edges, "b", "a".to_string());
    add_to_set_map(&mut graph.reverse_edges, "a", "b".to_string());

    let cycles = graph.find_cycles();
    assert!(!cycles.is_empty());
}

#[test]
fn builds_from_declarations() {
    let mut decls = StrMap::new();
    decls.insert("pkgs".to_string(), InputDecl::Url("git:https://example.com/pkgs".to_string()));
    decls.insert("utils".to_string(), InputDecl::Url("git:https://example.com/utils".to_string()));

    let graph = build_initial_graph(&decls);

    assert_eq!(graph.nodes.len(), 2);
    assert!(graph.get("pkgs").is_some());
    assert!(graph.get("utils").is_some());
}

#[test]
fn simple_follows() {
    let mut decls = StrMap::new();
    decls.insert("my_utils".to_string(), InputDecl::Url("git:https://example.com/utils".to_string()));

    let mut overrides = StrMap::new();
    overrides.insert("utils".to_string(), InputOverride::Follows("my_utils".to_string()));

    decls.insert(
        "pkgs".to_string(),
        InputDecl::Extended { url: Some("git:https://example.com/pkgs".to_string()), inputs: overrides },
    );

    let mut graph = build_initial_graph(&decls);
    graph.resolve_follows().unwrap();

    assert!(graph.follows_resolved.contains_key("pkgs/utils"));
    assert_eq!(graph.follows_resolved.get("pkgs/utils").unwrap(), "my_utils");
}

#[test]
fn follows_chain_resolves() {
    // input_a/utils follows input_b/utils, which follows my_utils
    let mut decls = StrMap::new();
    decls.insert("my_utils".to_string(), InputDecl::Url("git:https://example.com/utils".to_string()));

    let mut b_overrides = StrMap::new();
    b_overrides.insert("utils".to_string(), InputOverride::Follows("my_utils".to_string()));
    decls.insert(
        "input_b".to_string(),
        InputDecl::Extended { url: Some("git:https://example.com/b".to_string()), inputs: b_overrides },
    );

    let mut a_overrides = StrMap::new();
    a_overrides.insert("utils".to_string(), InputOverride::Follows("input_b/utils".to_string()));
    decls.insert(
        "input_a".to_string(),
        InputDecl::Extended { url: Some("git:https://example.com/a".to_string()), inputs: a_overrides },
    );

    let mut graph = build_initial_graph(&decls);
    graph.add_transitive("utils", InputDecl::Url("git:placeholder".to_string()), "input_a");
    graph.add_transitive("utils", InputDecl::Url("git:placeholder".to_string()), "input_b");

    graph.resolve_follows().unwrap();

    assert!(graph.follows_resolved.contains_key("input_a/utils"));
    assert_eq!(graph.follows_resolved.get("input_a/utils").unwrap(), "my_utils");
}

#[test]
fn circular_follows_returns_error() {
    let mut decls = StrMap::new();

    let mut a_overrides = StrMap::new();
    a_overrides.insert("utils".to_string(), InputOverride::Follows("input_b/utils".to_string()));
    decls.insert(
        "input_a".to_string(),
        InputDecl::Extended { url: Some("git:https://example.com/a".to_string()), inputs: a_overrides },
    );

    let mut b_overrides = StrMap::new();
    b_overrides.insert("utils".to_string(), InputOverride::Follows("input_a/utils".to_string()));
    decls.insert(
        "input_b".to_string(),
        InputDecl::Extended { url: Some("git:https://example.com/b".to_string()), inputs: b_overrides },
    );

    let mut graph = build_initial_graph(&decls);
    graph.add_transitive("utils", InputDecl::Url("git:placeholder".to_string()), "input_a");
    graph.add_transitive("utils", InputDecl::Url("git:placeholder".to_string()), "input_b");

    let result = graph.resolve_follows();

    assert!(result.is_err());
    assert!(matches!(result.unwrap_err(), GraphError::CircularFollows { .. }));
}

#[test]
fn every_edge_has_its_reverse_edge() {
    let mut graph = DependencyGraph::new();
    graph.add_root_input("pkgs", InputDecl::Url("git:a".to_string()));
    graph.add_root_input("tools", InputDecl::Url("git:b".to_string()));
    let utils = graph.add_transitive("utils", InputDecl::Url("git:c".to_string()), "pkgs");
    let shared = graph.add_transitive("shared", InputDecl::Url("git:d".to_string()), &utils);
    graph.add_transitive("utils", InputDecl::Url("git:c".to_string()), "tools");

    let paths = vec!["pkgs", "tools", "pkgs/utils", "pkgs/utils/shared", "tools/utils"];
    assert_eq!(shared, "pkgs/utils/shared");
    for u in &paths {
        for v in &paths {
            let forward = graph.dependencies(u).iter().any(|d| d == v);
            let backward = graph.dependents(v).iter().any(|d| d == u);
            assert_eq!(forward, backward, "{} -> {}", u, v);
        }
    }
    assert_eq!(graph.dependencies("pkgs"), vec!["pkgs/utils".to_string()]);
    assert_eq!(graph.dependents("pkgs/utils/shared"), vec!["pkgs/utils".to_string()]);
}

#[test]
fn failed_follows_resolution_keeps_only_earlier_targets() {
    let mut decls = StrMap::new();

    let mut a_overrides = StrMap::new();
    a_overrides.insert("utils".to_string(), InputOverride::Follows("input_b/utils".to_string()));
    decls.insert(
        "input_a".to_string(),
        InputDecl::Extended { url: Some("git:https://example.com/a".to_string()), inputs: a_overrides },
    );

    let mut b_overrides = StrMap::new();
    b_overrides.insert("utils".to_string(), InputOverride::Follows("input_a/utils".to_string()));
    decls.insert(
        "input_b".to_string(),
        InputDecl::Extended { url: Some("git:https://example.com/b".to_string()), inputs: b_overrides },
    );

    let mut graph = build_initial_graph(&decls);
    graph.add_transitive("utils", InputDecl::Url("git:placeholder".to_string()), "input_a");
    graph.add_transitive("utils", InputDecl::Url("git:placeholder".to_string()), "input_b");

    assert!(graph.resolve_follows().is_err());
    assert_eq!(graph.follows_resolved.len(), 0);
}
