use jsondepnet::cache::{Cache, FileEntry};
use jsondepnet::graph::{Graph, TraversalOpts};
use jsondepnet::paths::RelPath;

fn rp(s: &str) -> RelPath {
    RelPath::from_components(&s.split('/').collect::<Vec<_>>())
}

fn build(entries: &[(&str, &[&str])]) -> Cache {
    let mut cache = Cache::new();
    for (path, imports) in entries {
        cache.upsert(FileEntry {
            path: rp(path),
            mtime: 0,
            imports: imports.iter().map(|s| rp(s)).collect(),
        });
    }
    cache
}

fn names(v: &[RelPath]) -> Vec<&str> {
    v.iter().map(|p| p.as_str()).collect()
}

fn all() -> TraversalOpts {
    TraversalOpts {
        include_libsonnet: true,
    }
}

#[test]
fn forward_closure_chain() {
    let cache = build(&[
        ("a.jsonnet", &["b.libsonnet"]),
        ("b.libsonnet", &["c.libsonnet"]),
        ("c.libsonnet", &[]),
    ]);
    let g = Graph::from_cache(&cache);
    let out = g.closure(&rp("a.jsonnet"), false, all());
    assert_eq!(names(&out), vec!["b.libsonnet", "c.libsonnet"]);
}

#[test]
fn forward_closure_diamond_dedups() {
    let cache = build(&[
        ("a.jsonnet", &["b.libsonnet", "c.libsonnet"]),
        ("b.libsonnet", &["d.libsonnet"]),
        ("c.libsonnet", &["d.libsonnet"]),
        ("d.libsonnet", &[]),
    ]);
    let g = Graph::from_cache(&cache);
    let out = g.closure(&rp("a.jsonnet"), false, all());
    assert_eq!(
        names(&out),
        vec!["b.libsonnet", "c.libsonnet", "d.libsonnet"]
    );
}

#[test]
fn forward_closure_terminates_on_cycle() {
    let cache = build(&[
        ("a.libsonnet", &["b.libsonnet"]),
        ("b.libsonnet", &["a.libsonnet"]),
    ]);
    let g = Graph::from_cache(&cache);
    let out = g.closure(&rp("a.libsonnet"), false, all());
    assert_eq!(names(&out), vec!["a.libsonnet", "b.libsonnet"]);
}

#[test]
fn reverse_closure_mirrors_forward() {
    let cache = build(&[
        ("a.jsonnet", &["b.libsonnet"]),
        ("b.libsonnet", &["c.libsonnet"]),
        ("c.libsonnet", &[]),
        ("other.jsonnet", &["b.libsonnet"]),
    ]);
    let g = Graph::from_cache(&cache);
    let out = g.closure(&rp("c.libsonnet"), true, all());
    assert_eq!(
        names(&out),
        vec!["a.jsonnet", "b.libsonnet", "other.jsonnet"]
    );
}

#[test]
fn no_libsonnet_filters_output() {
    let cache = build(&[
        ("a.jsonnet", &["b.libsonnet"]),
        ("b.libsonnet", &["c.jsonnet"]),
        ("c.jsonnet", &[]),
    ]);
    let g = Graph::from_cache(&cache);
    let out = g.closure(
        &rp("a.jsonnet"),
        false,
        TraversalOpts {
            include_libsonnet: false,
        },
    );
    assert_eq!(
        names(&out),
        vec!["c.jsonnet"],
        "libsonnet must be filtered but its descendants kept"
    );
}

#[test]
fn tree_marks_cycles() {
    let cache = build(&[
        ("a.libsonnet", &["b.libsonnet"]),
        ("b.libsonnet", &["a.libsonnet"]),
    ]);
    let g = Graph::from_cache(&cache);
    let t = g.tree(&rp("a.libsonnet"), false, all());
    assert!(!t.cycle);
    assert_eq!(t.children.len(), 1);
    assert_eq!(t.children[0].path.as_str(), "b.libsonnet");
    assert_eq!(t.children[0].children.len(), 1);
    assert!(t.children[0].children[0].cycle);
    assert_eq!(t.children[0].children[0].path.as_str(), "a.libsonnet");
}

#[test]
fn closure_of_unknown_path_is_empty() {
    let cache = build(&[("a.jsonnet", &["b.libsonnet"])]);
    let g = Graph::from_cache(&cache);
    assert!(g.closure(&rp("zzz.jsonnet"), false, all()).is_empty());
    assert!(g.closure(&rp("a.jsonnet"), true, all()).is_empty());
}

#[test]
fn closure_with_self_import_contains_start() {
    let cache = build(&[("a.libsonnet", &["a.libsonnet"])]);
    let g = Graph::from_cache(&cache);
    assert_eq!(names(&g.closure(&rp("a.libsonnet"), false, all())), vec!["a.libsonnet"]);
}

#[test]
fn tree_without_libsonnet_lifts_grandchildren() {
    let cache = build(&[
        ("a.jsonnet", &["b.libsonnet", "x.jsonnet"]),
        ("b.libsonnet", &["c.jsonnet"]),
        ("c.jsonnet", &[]),
        ("x.jsonnet", &[]),
    ]);
    let g = Graph::from_cache(&cache);
    let t = g.tree(
        &rp("a.jsonnet"),
        false,
        TraversalOpts {
            include_libsonnet: false,
        },
    );
    assert_eq!(t.path.as_str(), "a.jsonnet");
    let kids: Vec<&str> = t.children.iter().map(|c| c.path.as_str()).collect();
    assert_eq!(kids, vec!["c.jsonnet", "x.jsonnet"]);
}

#[test]
fn reverse_tree_lists_importers() {
    let cache = build(&[
        ("a.jsonnet", &["c.libsonnet"]),
        ("b.jsonnet", &["c.libsonnet"]),
        ("c.libsonnet", &[]),
    ]);
    let g = Graph::from_cache(&cache);
    let t = g.tree(&rp("c.libsonnet"), true, all());
    let kids: Vec<&str> = t.children.iter().map(|c| c.path.as_str()).collect();
    assert_eq!(kids, vec!["a.jsonnet", "b.jsonnet"]);
    assert!(t.children.iter().all(|c| c.children.is_empty() && !c.cycle));
}

#[test]
fn forward_deps_are_sorted_and_deduplicated() {
    let cache = build(&[("a.jsonnet", &["z.libsonnet", "b.libsonnet", "z.libsonnet"])]);
    let g = Graph::from_cache(&cache);
    let t = g.tree(&rp("a.jsonnet"), false, all());
    let kids: Vec<&str> = t.children.iter().map(|c| c.path.as_str()).collect();
    assert_eq!(kids, vec!["b.libsonnet", "z.libsonnet"]);
}

fn collect_below(n: &jsondepnet::graph::TreeNode, out: &mut std::collections::BTreeSet<String>) {
    for c in &n.children {
        out.insert(c.path.as_str().to_string());
        collect_below(c, out);
    }
}

#[test]
fn tree_paths_below_root_match_closure() {
    let cache = build(&[
        ("a.jsonnet", &["b.libsonnet", "c.jsonnet"]),
        ("b.libsonnet", &["d.jsonnet", "a.jsonnet"]),
        ("c.jsonnet", &["b.libsonnet"]),
        ("d.jsonnet", &[]),
    ]);
    let g = Graph::from_cache(&cache);
    for lib in [true, false] {
        let opts = TraversalOpts { include_libsonnet: lib };
        for reverse in [false, true] {
            for start in ["a.jsonnet", "b.libsonnet", "d.jsonnet"] {
                let t = g.tree(&rp(start), reverse, opts);
                let mut below = std::collections::BTreeSet::new();
                collect_below(&t, &mut below);
                let closure: std::collections::BTreeSet<String> = g
                    .closure(&rp(start), reverse, opts)
                    .iter()
                    .map(|p| p.as_str().to_string())
                    .collect();
                assert_eq!(below, closure, "start {start}, reverse {reverse}, lib {lib}");
            }
        }
    }
}
