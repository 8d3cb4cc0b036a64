use jsondepnet::graph::TreeNode;
use jsondepnet::output::{render_list, render_tree, OutputError, OutputFormat, PathRenderer, Rendered};
use jsondepnet::paths::{PathStyle, RelPath, Root};

fn rp(s: &str) -> RelPath {
    RelPath::from_components(&s.split('/').collect::<Vec<_>>())
}

fn setup_root() -> (tempfile::TempDir, Root, String) {
    let tmp = tempfile::tempdir().unwrap();
    let canon = tmp.path().canonicalize().unwrap();
    let root = Root::new(canon.to_str().unwrap().to_string());
    let cwd = root.as_path().to_string();
    (tmp, root, cwd)
}

fn text(r: Rendered) -> String {
    match r {
        Rendered::Text(s) => s,
        other => panic!("expected text, got {other:?}"),
    }
}

#[test]
fn list_newline_separated() {
    let (_tmp, root, cwd) = setup_root();
    let renderer = PathRenderer::new(&root, &cwd, PathStyle::Root);
    let items = vec![(rp("a.jsonnet"), vec![rp("b.libsonnet"), rp("c.libsonnet")])];
    let buf = text(render_list(&items, &renderer, OutputFormat::TextNewline));
    assert_eq!(buf.as_bytes(), b"b.libsonnet\nc.libsonnet\n");
}

#[test]
fn list_null_separated() {
    let (_tmp, root, cwd) = setup_root();
    let renderer = PathRenderer::new(&root, &cwd, PathStyle::Root);
    let items = vec![(rp("a.jsonnet"), vec![rp("b.libsonnet")])];
    let buf = text(render_list(&items, &renderer, OutputFormat::TextNul));
    assert_eq!(buf.as_bytes(), b"b.libsonnet\0");
}

#[test]
fn list_json_shape() {
    let (_tmp, root, cwd) = setup_root();
    let renderer = PathRenderer::new(&root, &cwd, PathStyle::Root);
    let items = vec![(rp("a.jsonnet"), vec![rp("b.libsonnet")])];
    match render_list(&items, &renderer, OutputFormat::Json) {
        Rendered::List(parsed) => {
            assert_eq!(parsed.roots.len(), 1);
            assert_eq!(parsed.roots[0].path, "a.jsonnet");
            assert_eq!(parsed.roots[0].deps, vec!["b.libsonnet"]);
        }
        other => panic!("expected list, got {other:?}"),
    }
}

#[test]
fn tree_text_indentation() {
    let (_tmp, root, cwd) = setup_root();
    let renderer = PathRenderer::new(&root, &cwd, PathStyle::Root);
    let tree = TreeNode {
        path: rp("a.jsonnet"),
        cycle: false,
        children: vec![TreeNode {
            path: rp("b.libsonnet"),
            cycle: false,
            children: vec![TreeNode {
                path: rp("c.libsonnet"),
                cycle: true,
                children: vec![],
            }],
        }],
    };
    let s = text(render_tree(&vec![tree], &renderer, OutputFormat::TextNewline).unwrap());
    assert_eq!(s, "a.jsonnet\n  b.libsonnet\n    c.libsonnet (cycle)\n");
}

#[test]
fn tree_text_nul_is_rejected() {
    let (_tmp, root, cwd) = setup_root();
    let renderer = PathRenderer::new(&root, &cwd, PathStyle::Root);
    let tree = TreeNode {
        path: rp("a.jsonnet"),
        cycle: false,
        children: vec![],
    };
    let res = render_tree(&vec![tree], &renderer, OutputFormat::TextNul);
    assert!(matches!(res, Err(OutputError::TreeWithNul)));
}

#[test]
fn tree_json_keeps_shape_and_cycles() {
    let root = Root::new("/r".to_string());
    let renderer = PathRenderer::new(&root, "/r", PathStyle::Absolute);
    let tree = TreeNode {
        path: rp("a.jsonnet"),
        cycle: false,
        children: vec![TreeNode { path: rp("b.libsonnet"), cycle: true, children: vec![] }],
    };
    match render_tree(&vec![tree], &renderer, OutputFormat::Json).unwrap() {
        Rendered::Tree(t) => {
            assert_eq!(t.roots.len(), 1);
            assert_eq!(t.roots[0].path, "/r/a.jsonnet");
            assert!(!t.roots[0].cycle);
            assert_eq!(t.roots[0].children[0].path, "/r/b.libsonnet");
            assert!(t.roots[0].children[0].cycle);
        }
        other => panic!("expected tree, got {other:?}"),
    }
}

#[test]
fn render_styles_of_relative_paths() {
    let root = Root::new("/r".to_string());
    let p = rp("sub/x.jsonnet");
    assert_eq!(PathRenderer::new(&root, "/r/sub", PathStyle::Cwd).render(&p), "x.jsonnet");
    assert_eq!(PathRenderer::new(&root, "/other", PathStyle::Cwd).render(&p), "../r/sub/x.jsonnet");
    assert_eq!(PathRenderer::new(&root, "/", PathStyle::Root).render(&p), "sub/x.jsonnet");
    assert_eq!(PathRenderer::new(&root, "/", PathStyle::Absolute).render(&p), "/r/sub/x.jsonnet");
}

#[test]
fn render_falls_back_to_absolute_outside_root() {
    let root = Root::new("/r".to_string());
    let p = RelPath::from_components(&["", "elsewhere", "x"]);
    assert_eq!(PathRenderer::new(&root, "/", PathStyle::Root).render(&p), "/elsewhere/x");
}

#[test]
fn root_style_shows_stored_parent_steps() {
    let root = Root::new("/".to_string());
    let renderer = PathRenderer::new(&root, "/", PathStyle::Root);
    assert_eq!(renderer.render(&RelPath::from_components(&["..", "x"])), "../x");
    let abs = PathRenderer::new(&root, "/", PathStyle::Absolute);
    assert_eq!(abs.render(&RelPath::from_components(&["..", "x"])), "/../x");
}
