use std::path::Path;

use jsondepnet::paths::{
    components, normalise_to_forward_slashes, pathdiff_to_string, Component, PathError, PathStyle,
    RelPath, Root,
};

#[test]
fn rel_path_libsonnet_detection() {
    assert!(RelPath::from_components(&["a", "b.libsonnet"]).has_libsonnet_extension());
    assert!(!RelPath::from_components(&["a", "b.jsonnet"]).has_libsonnet_extension());
    assert!(!RelPath::from_components(&["libsonnet"]).has_libsonnet_extension());
}

#[test]
fn libsonnet_detection_uses_last_segment() {
    assert!(!RelPath::from_components(&["x.libsonnet", "y"]).has_libsonnet_extension());
    assert!(RelPath::from_components(&[".libsonnet"]).has_libsonnet_extension());
    assert!(!RelPath::from_components(&["a", ""]).has_libsonnet_extension());
}

#[test]
fn from_components_joins_with_slash() {
    assert_eq!(RelPath::from_components(&["foo", "bar.libsonnet"]).as_str(), "foo/bar.libsonnet");
    assert_eq!(RelPath::from_components(&[]).as_str(), "");
    assert_eq!(RelPath::from_components(&["a"]).into_string(), "a".to_string());
}

#[test]
fn normalise_strips_curdir_uses_forward_slash() {
    let p = Path::new("a").join("b").join("c.libsonnet");
    assert_eq!(normalise_to_forward_slashes(p.to_str().unwrap()), "a/b/c.libsonnet");
}

#[test]
fn normalise_drops_dots_and_doubled_separators() {
    assert_eq!(normalise_to_forward_slashes("./a//b/./c/"), "a/b/c");
    assert_eq!(normalise_to_forward_slashes("/a/../b"), "/a/../b");
    assert_eq!(normalise_to_forward_slashes(""), "");
}

#[test]
fn components_follow_the_lexical_rules() {
    let show = |s: &str| -> Vec<String> {
        components(s)
            .into_iter()
            .map(|c| match c {
                Component::RootDir => "/".to_string(),
                Component::CurDir => ".".to_string(),
                Component::ParentDir => "..".to_string(),
                Component::Normal(n) => n,
            })
            .collect()
    };
    for s in ["/a/b", "./a", "a/./b/", "../x", "//a", ".", "", "a/.."] {
        let std: Vec<String> = Path::new(s)
            .components()
            .map(|c| match c {
                std::path::Component::RootDir => "/".to_string(),
                std::path::Component::CurDir => ".".to_string(),
                std::path::Component::ParentDir => "..".to_string(),
                std::path::Component::Normal(n) => n.to_str().unwrap().to_string(),
                std::path::Component::Prefix(_) => unreachable!(),
            })
            .collect();
        assert_eq!(show(s), std, "components of {s:?}");
    }
}

#[test]
fn pathdiff_within_root() {
    let base = Path::new("/a/b");
    let target = Path::new("/a/b/c/d.jsonnet");
    assert_eq!(
        pathdiff_to_string(base.to_str().unwrap(), target.to_str().unwrap()),
        "c/d.jsonnet"
    );
}

#[test]
fn pathdiff_sibling() {
    let base = Path::new("/a/b/c");
    let target = Path::new("/a/b/d/e.jsonnet");
    assert_eq!(
        pathdiff_to_string(base.to_str().unwrap(), target.to_str().unwrap()),
        "../d/e.jsonnet"
    );
}

#[test]
fn pathdiff_equal() {
    let base = Path::new("/a/b");
    let target = Path::new("/a/b");
    assert_eq!(
        pathdiff_to_string(base.to_str().unwrap(), target.to_str().unwrap()),
        "."
    );
}

#[test]
fn pathdiff_to_ancestor() {
    assert_eq!(pathdiff_to_string("/a/b/c", "/a"), "../..");
}

#[test]
fn root_relativise_and_back() {
    let tmp = tempfile::tempdir().unwrap();
    let canon = tmp.path().canonicalize().unwrap();
    let root = Root::new(canon.to_str().unwrap().to_string());
    let abs = format!("{}/sub/x.jsonnet", root.as_path());
    let rel = root.relativise(&abs).unwrap();
    assert_eq!(rel.as_str(), "sub/x.jsonnet");
    assert_eq!(
        root.absolutise(&rel),
        canon.join("sub/x.jsonnet").to_str().unwrap()
    );
}

#[test]
fn root_relativise_outside_errors() {
    let tmp = tempfile::tempdir().unwrap();
    let canon = tmp.path().canonicalize().unwrap();
    let root = Root::new(canon.to_str().unwrap().to_string());
    let outside = Path::new("/").join("etc");
    let err = root.relativise(outside.to_str().unwrap()).unwrap_err();
    assert!(matches!(err, PathError::OutsideRoot(_)));
}

#[test]
fn relativise_of_root_itself_is_empty() {
    let root = Root::new("/r".to_string());
    assert_eq!(root.relativise("/r").unwrap().as_str(), "");
    assert_eq!(root.relativise("/r/").unwrap().as_str(), "");
    assert!(root.relativise("/rx/a").is_err());
}

#[test]
fn absolutise_joins_like_path_join() {
    let root = Root::new("/r".to_string());
    assert_eq!(root.absolutise(&RelPath::from_components(&["a", "b"])), "/r/a/b");
    assert_eq!(root.absolutise(&RelPath::from_components(&["", "abs"])), "/abs");
    let slash = Root::new("/".to_string());
    assert_eq!(slash.absolutise(&RelPath::from_components(&["a"])), "/a");
}

#[test]
fn render_styles() {
    let tmp = tempfile::tempdir().unwrap();
    let canon = tmp.path().canonicalize().unwrap();
    let root = Root::new(canon.to_str().unwrap().to_string());
    let abs = canon.join("a.jsonnet");
    let abs = abs.to_str().unwrap();
    let cwd = root.as_path().to_string();
    assert_eq!(root.render(abs, PathStyle::Root, &cwd).unwrap(), "a.jsonnet");
    assert_eq!(root.render(abs, PathStyle::Cwd, &cwd).unwrap(), "a.jsonnet");
    assert_eq!(root.render(abs, PathStyle::Absolute, &cwd).unwrap(), abs.to_string());
}

#[test]
fn render_root_style_outside_errors() {
    let root = Root::new("/r".to_string());
    assert!(matches!(
        root.render("/elsewhere/x", PathStyle::Root, "/r"),
        Err(PathError::OutsideRoot(p)) if p == "/elsewhere/x"
    ));
}

#[test]
fn filesystem_root_relativises_and_joins_back() {
    let root = Root::new("/".to_string());
    let rel = root.relativise("/etc/app/main.jsonnet").unwrap();
    assert_eq!(rel.as_str(), "etc/app/main.jsonnet");
    assert_eq!(root.absolutise(&rel), "/etc/app/main.jsonnet");
    let joined = root.absolutise(&RelPath::from_components(&["lib", "x.libsonnet"]));
    assert_eq!(root.render(&joined, PathStyle::Root, "/").unwrap(), "lib/x.libsonnet");
}

#[test]
fn relativise_refuses_paths_climbing_out_of_root() {
    let root = Root::new("/r".to_string());
    assert!(matches!(root.relativise("/r/../x"), Err(PathError::OutsideRoot(p)) if p == "/r/../x"));
    assert!(root.relativise("/r/a/../../x").is_err());
    assert_eq!(root.relativise("/r/a/../b").unwrap().as_str(), "a/../b");
    assert_eq!(root.render("/r/../x", PathStyle::Root, "/").unwrap(), "../x");
    let slash = Root::new("/".to_string());
    assert_eq!(slash.render("/../x", PathStyle::Root, "/").unwrap(), "../x");
}

#[test]
fn pathdiff_without_shared_prefix_is_the_target() {
    assert_eq!(pathdiff_to_string("x/y", "/a/b"), "/a/b");
    assert_eq!(pathdiff_to_string("/a", "b/c"), "b/c");
}

#[test]
fn absolutise_after_relativise_has_same_components() {
    let root = Root::new("/r".to_string());
    for abs in ["/r/./a//b", "/r/a/../b", "/r", "/r/x.jsonnet"] {
        let rel = root.relativise(abs).unwrap();
        let back = root.absolutise(&rel);
        let a: Vec<_> = Path::new(abs).components().collect();
        let b: Vec<_> = Path::new(&back).components().collect();
        assert_eq!(a, b, "{abs}");
    }
}
