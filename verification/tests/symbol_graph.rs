//! Symbol graph behaviour over an in-memory workspace.

use neex::symbol_graph::{SourceFile, SymbolCache, SymbolGraph};

fn test_workspace() -> (Vec<(String, String)>, Vec<SourceFile>) {
    let packages = vec![
        ("@my/utils".to_string(), "packages/utils".to_string()),
        ("@my/web".to_string(), "packages/web".to_string()),
    ];
    let files = vec![
        SourceFile {
            path: "packages/utils/index.ts".to_string(),
            content: r#"
            export function formatDate() { return "date"; }
            export function formatNumber() { return 123; }
        "#
            .to_string(),
        },
        SourceFile {
            path: "packages/web/index.ts".to_string(),
            content: r#"
            import { formatDate } from "@my/utils";
            export function App() { return formatDate(); }
        "#
            .to_string(),
        },
    ];
    (packages, files)
}

#[test]
fn test_build_graph() {
    let (packages, files) = test_workspace();
    let graph = SymbolGraph::build(packages, &files);

    assert_eq!(graph.packages.len(), 2);
    assert!(graph.packages.iter().any(|(n, _)| n == "@my/utils"));
    assert!(graph.packages.iter().any(|(n, _)| n == "@my/web"));
}

#[test]
fn test_get_consumers() {
    let (packages, files) = test_workspace();
    let graph = SymbolGraph::build(packages, &files);

    let consumers = graph.get_consumers(&"@my/utils".to_string(), &"formatDate".to_string());
    assert_eq!(consumers.len(), 1);

    let consumers = graph.get_consumers(&"@my/utils".to_string(), &"formatNumber".to_string());
    assert_eq!(consumers.len(), 0);
}

#[test]
fn test_symbol_cache() {
    let (packages, files) = test_workspace();
    let graph = SymbolGraph::build(packages, &files);
    let cache = graph.to_cache();

    assert!(cache.hashes.iter().any(|(k, _)| k.contains("formatDate")));
}

#[test]
fn test_changed_detection() {
    let (packages, files) = test_workspace();
    let graph = SymbolGraph::build(packages, &files);

    let cache = SymbolCache::empty();
    let changed = graph.get_changed_symbols(&cache);
    assert!(!changed.is_empty());

    let cache = graph.to_cache();
    let changed = graph.get_changed_symbols(&cache);
    assert!(changed.is_empty());
}

#[test]
fn changed_symbol_names_its_package() {
    let (packages, files) = test_workspace();
    let graph = SymbolGraph::build(packages, &files);
    let changed = graph.get_changed_symbols(&SymbolCache::empty());
    assert!(changed.contains(&"@my/utils:formatDate".to_string()));
    assert!(changed.contains(&"@my/web:App".to_string()));
}

#[test]
fn affected_files_follow_consumers() {
    let (packages, files) = test_workspace();
    let graph = SymbolGraph::build(packages, &files);

    let changed = vec!["@my/utils:formatDate".to_string()];
    let affected = graph.get_affected_files(&changed);
    assert_eq!(affected, vec!["packages/web/index.ts".to_string()]);

    let unchanged = vec!["@my/utils:formatNumber".to_string()];
    assert!(graph.get_affected_files(&unchanged).is_empty());
}

#[test]
fn stats_counts() {
    let (packages, files) = test_workspace();
    let graph = SymbolGraph::build(packages, &files);
    let (pkgs, symbols, links) = graph.stats();
    assert_eq!(pkgs, 2);
    assert_eq!(symbols, 3);
    assert_eq!(links, 1);
}

#[test]
fn duplicate_identifier_with_two_digests_stays_changed() {
    // one package exports the same name twice: a declaration in one file
    // and a bodyless export clause in another, so the digests differ and
    // the single cache slot can only ever match one of them
    let packages = vec![("@my/utils".to_string(), "packages/utils".to_string())];
    let files = vec![
        SourceFile {
            path: "packages/utils/a.ts".to_string(),
            content: "export function f() { return 1; }".to_string(),
        },
        SourceFile {
            path: "packages/utils/b.ts".to_string(),
            content: "const f = 1;\nexport { f };".to_string(),
        },
    ];
    let graph = SymbolGraph::build(packages, &files);
    let cache = graph.to_cache();
    let changed = graph.get_changed_symbols(&cache);
    assert_eq!(changed, vec!["@my/utils:f".to_string()]);
}
