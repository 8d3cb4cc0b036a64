//! `list` subcommand: where the cache comes from, what is traversed and how
//! the result is written.

use vstd::prelude::*;

use crate::cmd::cache::UpdateOpts;
use crate::cmd::{CommandError, GlobalOpts};
use crate::graph::{closure_set, targets, tree_of, Graph, TraversalOpts, TreeNode};
use crate::output::OutputFormat;
use crate::pathmap::sorted_strict;
use crate::paths::{relative_to, views_of, PathError, PathStyle, RelPath, Root};
use crate::text::string_views;

verus! {

/// The arguments of `list` (and of `tree`).
#[derive(Debug)]
pub struct ListArgs {
    pub files: Vec<String>,
    pub reverse: bool,
    pub no_libsonnet: bool,
    pub skip_update_cache: bool,
    pub json: bool,
    pub null: bool,
    pub path_style: PathStyle,
}

/// Where the cache of a query comes from.
#[derive(Debug, Clone, Copy, PartialEq, Eq, Structural)]
pub enum CacheSource {
    /// Read the cache file as it is.
    Load,
    /// Refresh the queried files in the cache file and trust earlier full
    /// scans for the rest.
    UpdateQueried,
    /// No cache file: scan the whole root so indirect dependencies are
    /// visible, pruning what no longer exists.
    ScanAll,
}

/// What a query does.
#[derive(Debug, Clone, Copy)]
pub struct QueryPlan {
    pub source: CacheSource,
    /// How the cache is updated where it is not only loaded.
    pub update: UpdateOpts,
    pub traversal: TraversalOpts,
    pub format: OutputFormat,
}

/// Decides what `list` does: `--skip-update-cache` needs a cache file to
/// read; without a cache file the whole root is scanned; libsonnet files are
/// reported unless `--no-libsonnet`; JSON, then NUL, then newline format.
/// An update keeps the cache, is quiet, and prunes only after a full scan.
pub fn run(global: &GlobalOpts, args: &ListArgs) -> (res: Result<QueryPlan, CommandError>)
    ensures
        args.skip_update_cache && global.cache_file is None ==> res == Err::<
            QueryPlan,
            CommandError,
        >(CommandError::SkipUpdateWithoutCacheFile),
        !(args.skip_update_cache && global.cache_file is None) ==> (res matches Ok(p) && p.source
            == (if args.skip_update_cache {
            CacheSource::Load
        } else if global.cache_file is None {
            CacheSource::ScanAll
        } else {
            CacheSource::UpdateQueried
        }) && !p.update.replace && !p.update.verbose && p.update.prune_missing == (p.source
            == CacheSource::ScanAll) && p.traversal.include_libsonnet == !args.no_libsonnet && p.format == (if args.json {
            OutputFormat::Json
        } else if args.null {
            OutputFormat::TextNul
        } else {
            OutputFormat::TextNewline
        })),
{
    if args.skip_update_cache && global.cache_file.is_none() {
        return Err(CommandError::SkipUpdateWithoutCacheFile);
    }
    let source = if args.skip_update_cache {
        CacheSource::Load
    } else if global.cache_file.is_none() {
        CacheSource::ScanAll
    } else {
        CacheSource::UpdateQueried
    };
    let format = if args.json {
        OutputFormat::Json
    } else if args.null {
        OutputFormat::TextNul
    } else {
        OutputFormat::TextNewline
    };
    let update = UpdateOpts {
        replace: false,
        prune_missing: global.cache_file.is_none(),
        verbose: false,
    };
    Ok(QueryPlan { source, update, traversal: TraversalOpts { include_libsonnet: !args.no_libsonnet }, format })
}

/// The first queried path outside the root is the `i`-th, and `e` reports it.
pub open spec fn first_outside(root: Seq<char>, queried: Seq<Seq<char>>, e: PathError) -> bool {
    exists|i: int|
        0 <= i < queried.len() && relative_to(root, #[trigger] queried[i]) is None && (forall|k: int|
            0 <= k < i ==> relative_to(root, #[trigger] queried[k]) is Some) && (e matches PathError::OutsideRoot(
            p,
        ) && p@ == queried[i])
}

/// Each queried file, relative to the root, with everything it reaches (the
/// files it depends on, or with `reverse` those depending on it), in
/// increasing order; the first queried file outside the root is an error.
pub fn query_closures(
    graph: &Graph,
    root: &Root,
    queried: &Vec<String>,
    reverse: bool,
    opts: TraversalOpts,
) -> (res: Result<Vec<(RelPath, Vec<RelPath>)>, PathError>)
    requires
        graph.wf(),
    ensures
        match res {
            Ok(items) => items@.len() == queried@.len() && forall|i: int|
                0 <= i < items@.len() ==> relative_to(root@, string_views(queried@)[i]) == Some(
                    (#[trigger] items@[i]).0@,
                ) && sorted_strict(views_of(items@[i].1@)) && views_of(items@[i].1@).to_set()
                    == closure_set(graph.adjacency(reverse), items@[i].0@, opts),
            Err(e) => first_outside(root@, string_views(queried@), e),
        },
{
    let ghost qv = string_views(queried@);
    let mut items: Vec<(RelPath, Vec<RelPath>)> = Vec::new();
    let mut i: usize = 0;
    while i < queried.len()
        invariant
            graph.wf(),
            i <= queried@.len(),
            qv == string_views(queried@),
            items@.len() == i,
            forall|k: int|
                0 <= k < i ==> relative_to(root@, qv[k]) == Some((#[trigger] items@[k]).0@)
                    && sorted_strict(views_of(items@[k].1@)) && views_of(items@[k].1@).to_set()
                    == closure_set(graph.adjacency(reverse), items@[k].0@, opts),
        decreases queried@.len() - i,
    {
        let rel = match root.relativise(queried[i].as_str()) {
            Ok(r) => r,
            Err(e) => {
                proof {
                    assert(qv[i as int] == queried@[i as int]@);
                    assert forall|k: int| 0 <= k < i implies relative_to(root@, #[trigger] qv[k]) is Some by {
                        assert(relative_to(root@, qv[k]) == Some(items@[k].0@));
                    }
                }
                return Err(e);
            },
        };
        let deps = graph.closure(&rel, reverse, opts);
        items.push((rel, deps));
        i = i + 1;
    }
    Ok(items)
}

/// Each queried file's dependency tree (or with `reverse` its tree of
/// dependents); the first queried file outside the root is an error.
pub fn query_trees(
    graph: &Graph,
    root: &Root,
    queried: &Vec<String>,
    reverse: bool,
    opts: TraversalOpts,
) -> (res: Result<Vec<TreeNode>, PathError>)
    requires
        graph.wf(),
    ensures
        match res {
            Ok(trees) => trees@.len() == queried@.len() && forall|i: int|
                0 <= i < trees@.len() ==> relative_to(root@, string_views(queried@)[i]) == Some(
                    (#[trigger] trees@[i])@.path,
                ) && trees@[i]@ == tree_of(
                    graph.adjacency(reverse),
                    targets(graph.adjacency(reverse)),
                    trees@[i]@.path,
                    Set::empty(),
                    opts.include_libsonnet,
                ),
            Err(e) => first_outside(root@, string_views(queried@), e),
        },
{
    let ghost qv = string_views(queried@);
    let mut trees: Vec<TreeNode> = Vec::new();
    let mut i: usize = 0;
    while i < queried.len()
        invariant
            graph.wf(),
            i <= queried@.len(),
            qv == string_views(queried@),
            trees@.len() == i,
            forall|k: int|
                0 <= k < i ==> relative_to(root@, qv[k]) == Some((#[trigger] trees@[k])@.path)
                    && trees@[k]@ == tree_of(
                    graph.adjacency(reverse),
                    targets(graph.adjacency(reverse)),
                    trees@[k]@.path,
                    Set::empty(),
                    opts.include_libsonnet,
                ),
        decreases queried@.len() - i,
    {
        let rel = match root.relativise(queried[i].as_str()) {
            Ok(r) => r,
            Err(e) => {
                proof {
                    assert(qv[i as int] == queried@[i as int]@);
                    assert forall|k: int| 0 <= k < i implies relative_to(root@, #[trigger] qv[k]) is Some by {
                        assert(relative_to(root@, qv[k]) == Some(trees@[k]@.path));
                    }
                }
                return Err(e);
            },
        };
        let t = graph.tree(&rel, reverse, opts);
        proof {
            graph.lemma_targets_finite(reverse);
            crate::graph::law_tree_root(graph.adjacency(reverse), rel@, opts.include_libsonnet);
        }
        trees.push(t);
        i = i + 1;
    }
    Ok(trees)
}

} // verus!
