use jsondepnet::cache::Cache;
use jsondepnet::cache::FileEntry;
use jsondepnet::extract::ExtractResult;
use jsondepnet::cmd::cache::{apply_outcome, entry_from_imports, is_up_to_date, prune, relativise_all, run, stale_candidates, starts_empty, CacheArgs, UpdateOpts};
use jsondepnet::cmd::list::{self, query_closures, query_trees, CacheSource, ListArgs};
use jsondepnet::graph::{Graph, TraversalOpts};
use jsondepnet::cmd::{is_source_extension, override_glob, walk_settings, CommandError, GlobalOpts, WalkOpts};
use jsondepnet::output::OutputFormat;
use jsondepnet::paths::{PathError, PathStyle, RelPath, Root};

fn global(cache_file: Option<&str>) -> GlobalOpts {
    GlobalOpts {
        cache_file: cache_file.map(|s| s.to_string()),
        root: Root::new("/r".to_string()),
        silence_dynamic_imports: false,
        walk: WalkOpts::default(),
    }
}

fn rp(s: &str) -> RelPath {
    RelPath::from_components(&s.split('/').collect::<Vec<_>>())
}

#[test]
fn cache_needs_targets_then_cache_file() {
    let args = CacheArgs { files: vec![], all: false, replace: false, verbose: false };
    assert_eq!(run(&global(Some("c.json")), &args).unwrap_err(), CommandError::NoTargets);
    let args = CacheArgs { files: vec!["a.jsonnet".into()], all: false, replace: true, verbose: false };
    assert_eq!(run(&global(None), &args).unwrap_err(), CommandError::NoCacheFile);
    let opts = run(&global(Some("c.json")), &args).unwrap();
    assert!(opts.replace && !opts.prune_missing && !opts.verbose);
    let args = CacheArgs { files: vec![], all: true, replace: false, verbose: true };
    let opts = run(&global(Some("c.json")), &args).unwrap();
    assert!(!opts.replace && opts.prune_missing && opts.verbose);
}

fn list_args(skip: bool, json: bool, null: bool) -> ListArgs {
    ListArgs {
        files: vec!["a.jsonnet".into()],
        reverse: false,
        no_libsonnet: true,
        skip_update_cache: skip,
        json,
        null,
        path_style: PathStyle::Root,
    }
}

#[test]
fn list_plan_follows_flags() {
    assert_eq!(
        list::run(&global(None), &list_args(true, false, false)).unwrap_err(),
        CommandError::SkipUpdateWithoutCacheFile
    );
    let p = list::run(&global(Some("c.json")), &list_args(true, false, true)).unwrap();
    assert_eq!(p.source, CacheSource::Load);
    assert_eq!(p.format, OutputFormat::TextNul);
    assert!(!p.traversal.include_libsonnet);
    let p = list::run(&global(None), &list_args(false, true, false)).unwrap();
    assert_eq!(p.source, CacheSource::ScanAll);
    assert_eq!(p.format, OutputFormat::Json);
    assert!(p.update.prune_missing && !p.update.replace && !p.update.verbose);
    assert!(p.update.prunes());
    let p = list::run(&global(Some("c.json")), &list_args(false, false, false)).unwrap();
    assert_eq!(p.source, CacheSource::UpdateQueried);
    assert_eq!(p.format, OutputFormat::TextNewline);
    assert!(!p.update.prune_missing && !p.update.replace && !p.update.verbose);
    assert!(!p.update.prunes());
}

#[test]
fn walk_settings_respect_flags() {
    let w = WalkOpts::default();
    let s = walk_settings(&w);
    assert!(s.skip_hidden && s.ignore && s.parents && s.git_ignore && s.git_global && s.git_exclude);
    assert!(!s.follow_links);
    let w = WalkOpts { no_ignore: false, no_ignore_vcs: true, hidden: true, excludes: vec![] };
    let s = walk_settings(&w);
    assert!(!s.skip_hidden && s.ignore && !s.git_ignore && !s.git_global && !s.git_exclude);
    let w = WalkOpts { no_ignore: true, no_ignore_vcs: false, hidden: false, excludes: vec![] };
    let s = walk_settings(&w);
    assert!(!s.ignore && !s.parents && !s.git_ignore);
}

#[test]
fn override_glob_flips_polarity() {
    assert_eq!(override_glob("vendor/"), "!vendor/");
    assert_eq!(override_glob("!keep.jsonnet"), "keep.jsonnet");
    assert_eq!(override_glob(""), "!");
}

#[test]
fn source_extensions() {
    assert!(is_source_extension("jsonnet"));
    assert!(is_source_extension("libsonnet"));
    assert!(!is_source_extension("json"));
    assert!(!is_source_extension(""));
}

#[test]
fn entry_from_imports_keeps_those_below_root() {
    let root = Root::new("/r".to_string());
    let resolved = ExtractResult {
        resolved: vec![
            "/r/z.libsonnet".to_string(),
            "/outside/x.libsonnet".to_string(),
            "/r/a/b.libsonnet".to_string(),
            "/r/z.libsonnet".to_string(),
        ],
        unresolved: vec![],
    };
    let (e, errs) = entry_from_imports(&root, rp("main.jsonnet"), 7, &resolved);
    assert_eq!(e.path.as_str(), "main.jsonnet");
    assert_eq!(e.mtime, 7);
    let imports: Vec<&str> = e.imports.iter().map(|p| p.as_str()).collect();
    assert_eq!(imports, vec!["a/b.libsonnet", "z.libsonnet"]);
    assert_eq!(errs.len(), 1);
    assert!(matches!(&errs[0], PathError::OutsideRoot(p) if p == "/outside/x.libsonnet"));
}

#[test]
fn up_to_date_needs_same_mtime_and_no_replace() {
    let mut cache = Cache::new();
    cache.upsert(FileEntry { path: rp("a.jsonnet"), mtime: 5, imports: vec![] });
    let keep = UpdateOpts { replace: false, prune_missing: false, verbose: false };
    let replace = UpdateOpts { replace: true, ..keep };
    assert!(is_up_to_date(&cache, &rp("a.jsonnet"), 5, keep));
    assert!(!is_up_to_date(&cache, &rp("a.jsonnet"), 6, keep));
    assert!(!is_up_to_date(&cache, &rp("a.jsonnet"), 5, replace));
    assert!(!is_up_to_date(&cache, &rp("b.jsonnet"), 5, keep));
}

#[test]
fn stale_candidates_are_cached_paths_not_scanned() {
    let mut cache = Cache::new();
    for p in ["a.jsonnet", "b.jsonnet", "c.jsonnet"] {
        cache.upsert(FileEntry { path: rp(p), mtime: 0, imports: vec![] });
    }
    let root = Root::new("/r".to_string());
    let targets = relativise_all(&root, &vec!["/r/b.jsonnet".to_string(), "/r/d.jsonnet".to_string()]).unwrap();
    let stale = stale_candidates(&cache, &targets);
    let names: Vec<&str> = stale.iter().map(|p| p.as_str()).collect();
    assert_eq!(names, vec!["a.jsonnet", "c.jsonnet"]);
    assert!(relativise_all(&root, &vec!["/x/y".to_string()]).is_err());
}

#[test]
fn pruning_needs_full_scan_without_replace() {
    assert!(UpdateOpts { replace: false, prune_missing: true, verbose: false }.prunes());
    assert!(!UpdateOpts { replace: true, prune_missing: true, verbose: false }.prunes());
    assert!(!UpdateOpts { replace: false, prune_missing: false, verbose: true }.prunes());
}

#[test]
fn update_starts_empty_when_replacing_or_without_file() {
    let keep = UpdateOpts { replace: false, prune_missing: false, verbose: false };
    let replace = UpdateOpts { replace: true, ..keep };
    assert!(!starts_empty(keep, true));
    assert!(starts_empty(keep, false));
    assert!(starts_empty(replace, true));
    assert!(starts_empty(replace, false));
}

#[test]
fn failed_extraction_keeps_old_entry() {
    let root = Root::new("/r".to_string());
    let mut cache = Cache::new();
    cache.upsert(FileEntry { path: rp("a.jsonnet"), mtime: 1, imports: vec![rp("b.libsonnet")] });
    let errs = apply_outcome(&mut cache, &root, rp("a.jsonnet"), 9, None);
    assert!(errs.is_empty());
    let e = cache.get(&rp("a.jsonnet")).unwrap();
    assert_eq!(e.mtime, 1);
    assert_eq!(e.imports[0].as_str(), "b.libsonnet");
}

#[test]
fn extraction_replaces_entry_and_reports_outside_imports() {
    let root = Root::new("/r".to_string());
    let mut cache = Cache::new();
    cache.upsert(FileEntry { path: rp("a.jsonnet"), mtime: 1, imports: vec![rp("old.libsonnet")] });
    cache.upsert(FileEntry { path: rp("other.jsonnet"), mtime: 3, imports: vec![] });
    let res = ExtractResult {
        resolved: vec!["/r/c.libsonnet".to_string(), "/elsewhere/x.libsonnet".to_string(), "/r/b.libsonnet".to_string()],
        unresolved: vec![],
    };
    let errs = apply_outcome(&mut cache, &root, rp("a.jsonnet"), 9, Some(&res));
    assert_eq!(errs.len(), 1);
    assert!(matches!(&errs[0], PathError::OutsideRoot(p) if p == "/elsewhere/x.libsonnet"));
    let e = cache.get(&rp("a.jsonnet")).unwrap();
    assert_eq!(e.mtime, 9);
    let imports: Vec<&str> = e.imports.iter().map(|p| p.as_str()).collect();
    assert_eq!(imports, vec!["b.libsonnet", "c.libsonnet"]);
    assert_eq!(cache.len(), 2);
}

#[test]
fn replaced_cache_holds_only_updated_targets() {
    let root = Root::new("/r".to_string());
    let opts = UpdateOpts { replace: true, prune_missing: false, verbose: false };
    assert!(starts_empty(opts, true));
    let mut cache = Cache::new();
    let res = ExtractResult { resolved: vec![], unresolved: vec![] };
    apply_outcome(&mut cache, &root, rp("d.libsonnet"), 0, Some(&res));
    assert_eq!(cache.len(), 1);
    assert!(cache.get(&rp("d.libsonnet")).is_some());
    assert!(cache.get(&rp("a.jsonnet")).is_none());
}

#[test]
fn prune_removes_exactly_the_gone_candidates() {
    let mut cache = Cache::new();
    for p in ["a.jsonnet", "b.jsonnet", "c.jsonnet"] {
        cache.upsert(FileEntry { path: rp(p), mtime: 0, imports: vec![] });
    }
    prune(&mut cache, vec![rp("a.jsonnet"), rp("b.jsonnet"), rp("zz.jsonnet")], &vec![true, false, true]);
    assert_eq!(cache.len(), 2);
    assert!(cache.get(&rp("a.jsonnet")).is_none());
    assert!(cache.get(&rp("b.jsonnet")).is_some());
    assert!(cache.get(&rp("c.jsonnet")).is_some());
    prune(&mut cache, vec![rp("b.jsonnet"), rp("c.jsonnet")], &vec![true]);
    assert_eq!(cache.len(), 1);
    assert!(cache.get(&rp("c.jsonnet")).is_some());
}

fn small_graph() -> Graph {
    let mut cache = Cache::new();
    cache.upsert(FileEntry { path: rp("a.jsonnet"), mtime: 0, imports: vec![rp("b.libsonnet")] });
    cache.upsert(FileEntry { path: rp("b.libsonnet"), mtime: 0, imports: vec![rp("c.jsonnet")] });
    cache.upsert(FileEntry { path: rp("c.jsonnet"), mtime: 0, imports: vec![] });
    Graph::from_cache(&cache)
}

#[test]
fn query_closures_relativise_then_traverse() {
    let g = small_graph();
    let root = Root::new("/r".to_string());
    let opts = TraversalOpts { include_libsonnet: false };
    let items = query_closures(&g, &root, &vec!["/r/a.jsonnet".to_string(), "/r/c.jsonnet".to_string()], true, opts)
        .unwrap();
    assert_eq!(items.len(), 2);
    assert_eq!(items[0].0.as_str(), "a.jsonnet");
    assert!(items[0].1.is_empty());
    assert_eq!(items[1].0.as_str(), "c.jsonnet");
    let deps: Vec<&str> = items[1].1.iter().map(|p| p.as_str()).collect();
    assert_eq!(deps, vec!["a.jsonnet"]);
    let err = query_closures(&g, &root, &vec!["/r/a.jsonnet".to_string(), "/x/b".to_string(), "/y/c".to_string()], false, opts)
        .unwrap_err();
    assert!(matches!(err, PathError::OutsideRoot(p) if p == "/x/b"));
}

#[test]
fn query_trees_relativise_then_build() {
    let g = small_graph();
    let root = Root::new("/r".to_string());
    let opts = TraversalOpts { include_libsonnet: false };
    let trees = query_trees(&g, &root, &vec!["/r/a.jsonnet".to_string()], false, opts).unwrap();
    assert_eq!(trees.len(), 1);
    assert_eq!(trees[0].path.as_str(), "a.jsonnet");
    assert_eq!(trees[0].children.len(), 1);
    assert_eq!(trees[0].children[0].path.as_str(), "c.jsonnet");
    assert!(query_trees(&g, &root, &vec!["/r/../a.jsonnet".to_string()], false, opts).is_err());
}
