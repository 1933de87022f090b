//! Dependency graph behaviour: cycles, build order, affected sets.

use neex::graph::{DepGraph, PackageManifest, WorkspaceNode};

fn node(name: &str, path: &str) -> WorkspaceNode {
    WorkspaceNode {
        name: name.to_string(),
        path: path.to_string(),
        package_json_path: String::new(),
        version: None,
        scripts: Vec::new(),
    }
}

#[test]
fn test_cycle_detection() {
    let mut dep_graph = DepGraph::new();

    let idx_a = dep_graph.add_node(node("A", ""));
    let idx_b = dep_graph.add_node(node("B", ""));

    dep_graph.add_edge(idx_a, idx_b);
    assert!(!dep_graph.has_cycle(), "Should not detect cycle yet");

    dep_graph.add_edge(idx_b, idx_a);
    assert!(dep_graph.has_cycle(), "Should detect cycle!");
}

#[test]
fn test_topological_sort() {
    let mut dep_graph = DepGraph::new();

    let utils_idx = dep_graph.add_node(node("@my/utils", "packages/utils"));
    let ui_idx = dep_graph.add_node(node("@my/ui", "packages/ui"));
    let web_idx = dep_graph.add_node(node("@my/web", "packages/web"));

    dep_graph.add_edge(ui_idx, utils_idx);
    dep_graph.add_edge(web_idx, ui_idx);
    dep_graph.add_edge(web_idx, utils_idx);

    let order = dep_graph.get_build_order().unwrap();
    let names: Vec<&str> =
        order.iter().map(|&i| dep_graph.packages()[i].name.as_str()).collect();

    let utils_pos = names.iter().position(|&n| n == "@my/utils").unwrap();
    let ui_pos = names.iter().position(|&n| n == "@my/ui").unwrap();
    let web_pos = names.iter().position(|&n| n == "@my/web").unwrap();

    assert!(utils_pos < ui_pos, "utils should come before ui");
    assert!(ui_pos < web_pos, "ui should come before web");
}

#[test]
fn test_affected_packages() {
    let mut dep_graph = DepGraph::new();

    let utils_idx = dep_graph.add_node(node("@my/utils", "packages/utils"));
    let ui_idx = dep_graph.add_node(node("@my/ui", "packages/ui"));
    let _web_idx = dep_graph.add_node(node("@my/web", "packages/web"));

    dep_graph.add_edge(ui_idx, utils_idx);
    dep_graph.add_edge(_web_idx, ui_idx);

    let affected = dep_graph.get_affected(&"@my/utils".to_string());
    let names: Vec<&str> =
        affected.iter().map(|&i| dep_graph.packages()[i].name.as_str()).collect();

    assert!(names.contains(&"@my/utils"));
    assert!(names.contains(&"@my/ui"));
    assert!(names.contains(&"@my/web"));
}

#[test]
fn affected_is_exactly_the_dependents() {
    let mut g = DepGraph::new();
    let a = g.add_node(node("a", ""));
    let b = g.add_node(node("b", ""));
    let c = g.add_node(node("c", ""));
    let d = g.add_node(node("d", ""));
    // b depends on a; c depends on b; d stands alone
    g.add_edge(b, a);
    g.add_edge(c, b);
    let affected = g.get_affected(&"a".to_string());
    assert!(affected.contains(&a));
    assert!(affected.contains(&b));
    assert!(affected.contains(&c));
    assert!(!affected.contains(&d));
    assert_eq!(affected.len(), 3);

    let unknown = g.get_affected(&"nope".to_string());
    assert!(unknown.is_empty());
}

#[test]
fn build_order_from_manifests() {
    let manifests = vec![
        PackageManifest {
            name: "utils".to_string(),
            path: "packages/utils".to_string(),
            manifest_path: "packages/utils/package.json".to_string(),
            version: Some("1.0.0".to_string()),
            scripts: vec!["build".to_string()],
            deps: vec![],
        },
        PackageManifest {
            name: "ui".to_string(),
            path: "packages/ui".to_string(),
            manifest_path: "packages/ui/package.json".to_string(),
            version: None,
            scripts: vec!["build".to_string()],
            deps: vec!["utils".to_string(), "left-pad".to_string()],
        },
        PackageManifest {
            name: "web".to_string(),
            path: "packages/web".to_string(),
            manifest_path: "packages/web/package.json".to_string(),
            version: None,
            scripts: vec!["build".to_string()],
            deps: vec!["ui".to_string(), "utils".to_string()],
        },
    ];
    let g = DepGraph::from_manifests(&manifests);
    assert_eq!(g.package_count(), 3);
    // only workspace-local dependencies become edges
    assert_eq!(g.edge_count(), 3);
    assert!(!g.has_cycle());

    let order = g.get_build_order().unwrap();
    let names: Vec<&str> = order.iter().map(|&i| g.packages()[i].name.as_str()).collect();
    assert_eq!(names, vec!["utils", "ui", "web"]);

    let affected = g.get_affected(&"utils".to_string());
    assert_eq!(affected.len(), 3);
}

#[test]
fn cycle_is_an_error_for_build_order() {
    let mut g = DepGraph::new();
    let a = g.add_node(node("a", ""));
    let b = g.add_node(node("b", ""));
    g.add_edge(a, b);
    g.add_edge(b, a);
    let err = g.get_build_order().unwrap_err();
    assert_eq!(err.message(), "circular dependency detected");
}

#[test]
fn lookup_by_name() {
    let mut g = DepGraph::new();
    g.add_node(node("a", "pa"));
    assert!(g.get_package(&"a".to_string()).is_some());
    assert!(g.get_package(&"b".to_string()).is_none());
    assert_eq!(g.find_package(&"a".to_string()), Some(0));
}
