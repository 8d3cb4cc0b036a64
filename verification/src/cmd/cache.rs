//! `cache` subcommand: which files to (re)extract and what the cache becomes.

use vstd::prelude::*;

use crate::cache::{Cache, FileEntry, FileEntryView};
use crate::cmd::{CommandError, GlobalOpts};
use crate::extract::ExtractResult;
use crate::pathmap::{sorted_strict, sorted_unique, PathMap};
use crate::paths::{relative_to, views_of, PathError, RelPath, Root};
use crate::text::{seq_lt, string_views};

verus! {

broadcast use {vstd::seq_lib::group_seq_properties, vstd::set::group_set_axioms};

/// The arguments of `cache`.
#[derive(Debug)]
pub struct CacheArgs {
    /// Specific files to (re)cache. Mutually exclusive with `all`.
    pub files: Vec<String>,
    /// Scan every *.jsonnet and *.libsonnet file under the root.
    pub all: bool,
    /// Discard the existing cache and write only the newly-collected entries.
    pub replace: bool,
    /// Print each enumerated file as it's processed.
    pub verbose: bool,
}

/// How a cache is updated.
#[derive(Debug, Clone, Copy, Default)]
pub struct UpdateOpts {
    /// Start from an empty cache instead of loading the existing one.
    pub replace: bool,
    /// After updating, drop cache entries whose source file no longer exists.
    /// Only meaningful when the targets were a full root sweep.
    pub prune_missing: bool,
    /// Log every enumerated file, including whether it was extracted afresh
    /// or served from the cache by matching mtime.
    pub verbose: bool,
}

impl UpdateOpts {
    /// Entries whose files are gone are dropped after a full scan that
    /// updated the cache it loaded.
    pub fn prunes(&self) -> (res: bool)
        ensures
            res == (self.prune_missing && !self.replace),
    {
        self.prune_missing && !self.replace
    }
}

/// Decides what `cache` does: it needs files or `--all`, and a cache file to
/// write; it then updates with the given options, pruning after a full scan.
pub fn run(global: &GlobalOpts, args: &CacheArgs) -> (res: Result<UpdateOpts, CommandError>)
    ensures
        !args.all && args.files@.len() == 0 ==> res == Err::<UpdateOpts, CommandError>(
            CommandError::NoTargets,
        ),
        (args.all || args.files@.len() > 0) && global.cache_file is None ==> res == Err::<
            UpdateOpts,
            CommandError,
        >(CommandError::NoCacheFile),
        (args.all || args.files@.len() > 0) && global.cache_file is Some ==> (res matches Ok(o)
            && o.replace == args.replace && o.prune_missing == args.all && o.verbose
            == args.verbose),
{
    if !args.all && args.files.len() == 0 {
        return Err(CommandError::NoTargets);
    }
    if global.cache_file.is_none() {
        return Err(CommandError::NoCacheFile);
    }
    Ok(UpdateOpts { replace: args.replace, prune_missing: args.all, verbose: args.verbose })
}

/// The cache already holds `rel` at this modification time (and the cache is
/// not being replaced), so it need not be extracted again.
pub fn is_up_to_date(cache: &Cache, rel: &RelPath, mtime: i64, opts: UpdateOpts) -> (res: bool)
    requires
        cache.wf(),
    ensures
        res == (!opts.replace && cache@.dom().contains(rel@) && cache@[rel@].mtime == mtime),
{
    if opts.replace {
        return false;
    }
    match cache.get(rel) {
        Some(existing) => existing.mtime == mtime,
        None => false,
    }
}

/// The imports that lie below the root, written relative to it.
pub open spec fn imports_below(root: Seq<char>, resolved: Seq<Seq<char>>) -> Set<Seq<char>> {
    Set::new(|r: Seq<char>| exists|i: int| 0 <= i < resolved.len() && relative_to(root, #[trigger] resolved[i]) == Some(r))
}

/// The resolved imports that lie outside the root, in order.
pub open spec fn imports_outside(root: Seq<char>, resolved: Seq<Seq<char>>) -> Seq<Seq<char>> {
    resolved.filter(|a: Seq<char>| relative_to(root, a) is None)
}

/// Builds the entry of [`entry_from_imports`] from the resolved paths.
fn entry_from_resolved(root: &Root, rel: RelPath, mtime: i64, resolved: &Vec<String>) -> (res: (
    FileEntry,
    Vec<PathError>,
))
    ensures
        res.0.path@ == rel@,
        res.0.mtime == mtime,
        sorted_strict(views_of(res.0.imports@)),
        views_of(res.0.imports@).to_set() == imports_below(root@, string_views(resolved@)),
        res.1@.len() == imports_outside(root@, string_views(resolved@)).len(),
        forall|k: int|
            0 <= k < res.1@.len() ==> (#[trigger] res.1@[k] matches PathError::OutsideRoot(p) && p@
                == imports_outside(root@, string_views(resolved@))[k]),
{
    let ghost rv = string_views(resolved@);
    let mut imports: Vec<RelPath> = Vec::new();
    let mut errors: Vec<PathError> = Vec::new();
    let mut i: usize = 0;
    assert(rv.take(0) =~= Seq::<Seq<char>>::empty());
    while i < resolved.len()
        invariant
            i <= resolved@.len(),
            rv == string_views(resolved@),
            views_of(imports@).to_set() == imports_below(root@, rv.take(i as int)),
            errors@.len() == imports_outside(root@, rv.take(i as int)).len(),
            forall|k: int|
                0 <= k < errors@.len() ==> (#[trigger] errors@[k] matches PathError::OutsideRoot(p)
                    && p@ == imports_outside(root@, rv.take(i as int))[k]),
        decreases resolved@.len() - i,
    {
        let ghost before = views_of(imports@);
        let ghost t = rv.take(i as int);
        let ghost t1 = rv.take(i + 1);
        assert(t1 =~= t.push(rv[i as int]));
        assert(imports_outside(root@, t1) == if relative_to(root@, rv[i as int]) is None {
            imports_outside(root@, t).push(rv[i as int])
        } else {
            imports_outside(root@, t)
        }) by {
            t.lemma_filter_push(rv[i as int], |a: Seq<char>| relative_to(root@, a) is None);
        }
        match root.relativise(resolved[i].as_str()) {
            Ok(r) => {
                imports.push(r);
                proof {
                    assert(views_of(imports@) =~= before.push(r@));
                    assert forall|x: Seq<char>| views_of(imports@).to_set().contains(x) == imports_below(root@, t1).contains(x) by {
                        if imports_below(root@, t).contains(x) {
                            let j = choose|j: int| 0 <= j < t.len() && relative_to(root@, #[trigger] t[j]) == Some(x);
                            assert(t1[j] == t[j]);
                        }
                        if imports_below(root@, t1).contains(x) {
                            let j = choose|j: int| 0 <= j < t1.len() && relative_to(root@, #[trigger] t1[j]) == Some(x);
                            if j < i {
                                assert(t[j] == t1[j]);
                                assert(imports_below(root@, t).contains(x));
                            }
                        }
                        assert(t1[i as int] == rv[i as int]);
                    }
                    assert(views_of(imports@).to_set() =~= imports_below(root@, t1));
                }
            },
            Err(e) => {
                errors.push(e);
                proof {
                    assert forall|x: Seq<char>| imports_below(root@, t).contains(x) == imports_below(root@, t1).contains(x) by {
                        if imports_below(root@, t).contains(x) {
                            let j = choose|j: int| 0 <= j < t.len() && relative_to(root@, #[trigger] t[j]) == Some(x);
                            assert(t1[j] == t[j]);
                        }
                        if imports_below(root@, t1).contains(x) {
                            let j = choose|j: int| 0 <= j < t1.len() && relative_to(root@, #[trigger] t1[j]) == Some(x);
                            assert(j < i);
                            assert(t[j] == t1[j]);
                        }
                    }
                    assert(imports_below(root@, t) =~= imports_below(root@, t1));
                }
            },
        }
        i = i + 1;
    }
    assert(rv.take(resolved@.len() as int) =~= rv);
    let sorted = sorted_unique(&imports);
    (FileEntry { path: rel, mtime, imports: sorted }, errors)
}

/// The cache entry of a file from the absolute paths its imports resolved to:
/// those below the root, relative to it, in increasing order, each once.
/// The others are returned as errors, in order, for the caller to report.
pub fn entry_from_imports(root: &Root, rel: RelPath, mtime: i64, extracted: &ExtractResult) -> (res: (
    FileEntry,
    Vec<PathError>,
))
    ensures
        res.0.path@ == rel@,
        res.0.mtime == mtime,
        sorted_strict(views_of(res.0.imports@)),
        views_of(res.0.imports@).to_set() == imports_below(root@, string_views(extracted.resolved@)),
        res.1@.len() == imports_outside(root@, string_views(extracted.resolved@)).len(),
        forall|k: int|
            0 <= k < res.1@.len() ==> (#[trigger] res.1@[k] matches PathError::OutsideRoot(p) && p@
                == imports_outside(root@, string_views(extracted.resolved@))[k]),
{
    entry_from_resolved(root, rel, mtime, &extracted.resolved)
}

/// The update starts from an empty cache: when replacing it, or when there is
/// no cache file to load.
pub fn starts_empty(opts: UpdateOpts, has_cache_file: bool) -> (res: bool)
    ensures
        res == (opts.replace || !has_cache_file),
{
    opts.replace || !has_cache_file
}

/// One step of an update on the cached map: a file whose imports could not be
/// extracted keeps what the cache held for it; otherwise its new entry
/// replaces the old one.
pub open spec fn apply_step(
    c: Map<Seq<char>, FileEntryView>,
    rel: Seq<char>,
    entry: Option<FileEntryView>,
) -> Map<Seq<char>, FileEntryView> {
    match entry {
        Some(e) => c.insert(rel, e),
        None => c,
    }
}

/// The steps of an update, applied in order.
pub open spec fn apply_steps(
    c: Map<Seq<char>, FileEntryView>,
    steps: Seq<(Seq<char>, Option<FileEntryView>)>,
) -> Map<Seq<char>, FileEntryView>
    decreases steps.len(),
{
    if steps.len() == 0 {
        c
    } else {
        apply_step(apply_steps(c, steps.drop_last()), steps.last().0, steps.last().1)
    }
}

/// `e` is the entry recorded for `rel` at `mtime` from the paths its imports
/// resolved to: those below the root, relative to it, in increasing order,
/// each once.
pub open spec fn is_fresh_entry(
    e: FileEntryView,
    rel: Seq<char>,
    mtime: i64,
    root: Seq<char>,
    resolved: Seq<Seq<char>>,
) -> bool {
    &&& e.path == rel
    &&& e.mtime == mtime
    &&& sorted_strict(e.imports)
    &&& e.imports.to_set() == imports_below(root, resolved)
}

/// Records the outcome of extracting the imports of `rel`: nothing changes
/// when extraction failed (`None`); otherwise the fresh entry is stored, and
/// the imports resolved outside the root are returned, in order, as errors.
pub fn apply_outcome(
    cache: &mut Cache,
    root: &Root,
    rel: RelPath,
    mtime: i64,
    extracted: Option<&ExtractResult>,
) -> (res: Vec<PathError>)
    requires
        old(cache).wf(),
    ensures
        final(cache).wf(),
        extracted is None ==> final(cache)@ == apply_step(old(cache)@, rel@, None) && res@.len() == 0,
        extracted matches Some(x) ==> {
            &&& final(cache)@ == apply_step(old(cache)@, rel@, Some(final(cache)@[rel@]))
            &&& is_fresh_entry(final(cache)@[rel@], rel@, mtime, root@, string_views(x.resolved@))
            &&& res@.len() == imports_outside(root@, string_views(x.resolved@)).len()
            &&& forall|k: int|
                0 <= k < res@.len() ==> (#[trigger] res@[k] matches PathError::OutsideRoot(p) && p@
                    == imports_outside(root@, string_views(x.resolved@))[k])
        },
{
    match extracted {
        None => Vec::new(),
        Some(x) => {
            let (entry, errors) = entry_from_imports(root, rel, mtime, x);
            let ghost e = entry@;
            cache.upsert(entry);
            assert(cache@[e.path] == e);
            errors
        },
    }
}

/// The candidates whose flag in `gone` is set.
pub open spec fn marked_gone(candidates: Seq<Seq<char>>, gone: Seq<bool>) -> Set<Seq<char>> {
    Set::new(|p: Seq<char>| exists|i: int| 0 <= i < candidates.len() && i < gone.len() && gone[i] && #[trigger] candidates[i] == p)
}

/// Removes the candidates whose files are gone (`gone[i]` for
/// `candidates[i]`), and nothing else.
pub fn prune(cache: &mut Cache, candidates: Vec<RelPath>, gone: &Vec<bool>)
    requires
        old(cache).wf(),
    ensures
        final(cache).wf(),
        final(cache)@ == old(cache)@.remove_keys(marked_gone(views_of(candidates@), gone@)),
{
    let ghost cv = views_of(candidates@);
    let n = if candidates.len() < gone.len() { candidates.len() } else { gone.len() };
    let mut i: usize = 0;
    assert(old(cache)@.remove_keys(marked_gone(cv.take(0), gone@)) =~= old(cache)@);
    while i < n
        invariant
            i <= n,
            n <= candidates@.len(),
            n <= gone@.len(),
            cv == views_of(candidates@),
            cache.wf(),
            cache@ == old(cache)@.remove_keys(marked_gone(cv.take(i as int), gone@)),
        decreases n - i,
    {
        let ghost before = cache@;
        if gone[i] {
            let _ = cache.remove(&candidates[i]);
        }
        proof {
            let t = cv.take(i as int);
            let t1 = cv.take(i + 1);
            assert forall|p: Seq<char>| marked_gone(t1, gone@).contains(p) == (marked_gone(t, gone@).contains(p) || (gone@[i as int] && p == cv[i as int])) by {
                if marked_gone(t1, gone@).contains(p) {
                    let j = choose|j: int| 0 <= j < t1.len() && j < gone@.len() && gone@[j] && #[trigger] t1[j] == p;
                    if j < i {
                        assert(t[j] == p);
                    }
                }
                if marked_gone(t, gone@).contains(p) {
                    let j = choose|j: int| 0 <= j < t.len() && j < gone@.len() && gone@[j] && #[trigger] t[j] == p;
                    assert(t1[j] == p);
                }
                if gone@[i as int] && p == cv[i as int] {
                    assert(t1[i as int] == p);
                }
            }
            assert(cache@ =~= old(cache)@.remove_keys(marked_gone(t1, gone@)));
        }
        i = i + 1;
    }
    proof {
        assert forall|p: Seq<char>| marked_gone(cv.take(n as int), gone@).contains(p) == marked_gone(cv, gone@).contains(p) by {
            if marked_gone(cv, gone@).contains(p) {
                let j = choose|j: int| 0 <= j < cv.len() && j < gone@.len() && gone@[j] && #[trigger] cv[j] == p;
                assert(cv.take(n as int)[j] == p);
            }
            if marked_gone(cv.take(n as int), gone@).contains(p) {
                let j = choose|j: int| 0 <= j < cv.take(n as int).len() && j < gone@.len() && gone@[j] && #[trigger] cv.take(n as int)[j] == p;
                assert(cv[j] == p);
            }
        }
        assert(cache@ =~= old(cache)@.remove_keys(marked_gone(cv, gone@)));
    }
}

/// An update that starts from an empty cache (as under `--replace`) ends
/// holding exactly the files whose imports it extracted: no entry of an
/// earlier cache survives.
pub proof fn law_update_from_empty_holds_only_updated(steps: Seq<(Seq<char>, Option<FileEntryView>)>)
    ensures
        apply_steps(Map::empty(), steps).dom() == Set::new(
            |p: Seq<char>| exists|i: int| 0 <= i < steps.len() && #[trigger] steps[i].0 == p && steps[i].1 is Some,
        ),
    decreases steps.len(),
{
    let want = Set::new(
        |p: Seq<char>| exists|i: int| 0 <= i < steps.len() && #[trigger] steps[i].0 == p && steps[i].1 is Some,
    );
    if steps.len() == 0 {
        assert(apply_steps(Map::empty(), steps).dom() =~= want);
    } else {
        let init = steps.drop_last();
        law_update_from_empty_holds_only_updated(init);
        assert forall|p: Seq<char>| apply_steps(Map::empty(), steps).dom().contains(p) == want.contains(p) by {
            if want.contains(p) {
                let i = choose|i: int| 0 <= i < steps.len() && #[trigger] steps[i].0 == p && steps[i].1 is Some;
                if i < steps.len() - 1 {
                    assert(init[i].0 == p);
                }
            }
            if exists|i: int| 0 <= i < init.len() && #[trigger] init[i].0 == p && init[i].1 is Some {
                let i = choose|i: int| 0 <= i < init.len() && #[trigger] init[i].0 == p && init[i].1 is Some;
                assert(steps[i].0 == p);
            }
            if steps.last().1 is Some && steps.last().0 == p {
                assert(steps[steps.len() - 1].0 == p);
            }
        }
        assert(apply_steps(Map::empty(), steps).dom() =~= want);
    }
}

/// The root-relative paths of the targets, or the error of the first target
/// outside the root.
pub fn relativise_all(root: &Root, targets: &Vec<String>) -> (res: Result<PathMap<()>, PathError>)
    ensures
        match res {
            Ok(m) => m.wf() && m@.dom() == imports_below(root@, string_views(targets@)) && forall|
                i: int,
            | 0 <= i < targets@.len() ==> relative_to(root@, #[trigger] string_views(targets@)[i]) is Some,
            Err(e) => exists|i: int|
                0 <= i < targets@.len() && relative_to(root@, #[trigger] string_views(targets@)[i]) is None
                    && (forall|k: int| 0 <= k < i ==> relative_to(root@, #[trigger] string_views(targets@)[k]) is Some)
                    && (e matches PathError::OutsideRoot(p) && p@ == targets@[i]@),
        },
{
    let ghost tv = string_views(targets@);
    let mut set: PathMap<()> = PathMap::new();
    let mut i: usize = 0;
    assert(set@.dom() =~= imports_below(root@, tv.take(0)));
    while i < targets.len()
        invariant
            i <= targets@.len(),
            tv == string_views(targets@),
            set.wf(),
            set@.dom() == imports_below(root@, tv.take(i as int)),
            forall|k: int| 0 <= k < i ==> relative_to(root@, #[trigger] tv[k]) is Some,
        decreases targets@.len() - i,
    {
        let r = match root.relativise(targets[i].as_str()) {
            Ok(r) => r,
            Err(e) => {
                assert(tv[i as int] == targets@[i as int]@);
                return Err(e);
            },
        };
        set.insert(r, ());
        proof {
            let t = tv.take(i as int);
            let t1 = tv.take(i + 1);
            assert forall|x: Seq<char>| set@.dom().contains(x) == imports_below(root@, t1).contains(x) by {
                if imports_below(root@, t).contains(x) {
                    let j = choose|j: int| 0 <= j < t.len() && relative_to(root@, #[trigger] t[j]) == Some(x);
                    assert(t1[j] == t[j]);
                }
                if imports_below(root@, t1).contains(x) {
                    let j = choose|j: int| 0 <= j < t1.len() && relative_to(root@, #[trigger] t1[j]) == Some(x);
                    if j < i {
                        assert(t[j] == t1[j]);
                    }
                }
                assert(t1[i as int] == tv[i as int]);
            }
            assert(set@.dom() =~= imports_below(root@, t1));
        }
        i = i + 1;
    }
    assert(tv.take(targets@.len() as int) =~= tv);
    Ok(set)
}

/// The cached paths that were not among the targets of a full scan, in
/// increasing order: the candidates for pruning (their files are checked for
/// existence by the caller).
pub fn stale_candidates(cache: &Cache, targets: &PathMap<()>) -> (res: Vec<RelPath>)
    requires
        cache.wf(),
        targets.wf(),
    ensures
        sorted_strict(views_of(res@)),
        views_of(res@).to_set() == cache@.dom().difference(targets@.dom()),
{
    proof {
        cache.lemma_wf();
    }
    let paths = cache.paths();
    let mut out: Vec<RelPath> = Vec::new();
    let mut i: usize = 0;
    while i < paths.len()
        invariant
            cache.wf(),
            targets.wf(),
            i <= paths@.len(),
            paths@.len() == cache.path_seq().len(),
            forall|k: int| 0 <= k < paths@.len() ==> (#[trigger] paths@[k])@ == cache.path_seq()[k],
            sorted_strict(cache.path_seq()),
            sorted_strict(views_of(out@)),
            views_of(out@).to_set() == Set::new(
                |x: Seq<char>| exists|a: int| 0 <= a < i && cache.path_seq()[a] == x && !targets@.dom().contains(x),
            ),
        decreases paths@.len() - i,
    {
        let ghost ks = cache.path_seq();
        let ghost before = views_of(out@);
        let p = paths[i];
        let keep = !targets.contains_key(p);
        if keep {
            out.push(p.clone());
            proof {
                assert(views_of(out@) =~= before.push(ks[i as int]));
                let ov = views_of(out@);
                assert forall|a: int, b: int| 0 <= a < b < ov.len() implies seq_lt(
                    #[trigger] ov[a],
                    #[trigger] ov[b],
                ) by {
                    if b == ov.len() - 1 {
                        assert(before.to_set().contains(ov[a]));
                        let t = choose|t: int| 0 <= t < i && ks[t] == ov[a] && !targets@.dom().contains(ov[a]);
                        assert(seq_lt(ks[t], ks[i as int]));
                    }
                }
            }
        }
        proof {
            let ov = views_of(out@);
            assert forall|x: Seq<char>| ov.to_set().contains(x) == (exists|a: int| 0 <= a < i + 1 && ks[a] == x && !targets@.dom().contains(x)) by {
                if ov.to_set().contains(x) {
                    let m = choose|m: int| 0 <= m < ov.len() && ov[m] == x;
                    if m < before.len() {
                        assert(before[m] == x);
                        assert(before.to_set().contains(x));
                    } else {
                        assert(x == ks[i as int]);
                    }
                }
                if exists|a: int| 0 <= a < i + 1 && ks[a] == x && !targets@.dom().contains(x) {
                    let a = choose|a: int| 0 <= a < i + 1 && ks[a] == x && !targets@.dom().contains(x);
                    if a < i {
                        assert(before.to_set().contains(x));
                        let m = choose|m: int| 0 <= m < before.len() && before[m] == x;
                        if keep {
                            assert(ov[m] == x);
                        }
                    } else {
                        assert(ov[ov.len() - 1] == x);
                    }
                }
            }
            assert(ov.to_set() =~= Set::new(
                |x: Seq<char>| exists|a: int| 0 <= a < i + 1 && ks[a] == x && !targets@.dom().contains(x),
            ));
        }
        i = i + 1;
    }
    proof {
        let ks = cache.path_seq();
        assert forall|x: Seq<char>| views_of(out@).to_set().contains(x) == cache@.dom().difference(targets@.dom()).contains(x) by {
            if cache@.dom().contains(x) {
                assert(ks.to_set().contains(x));
                let a = choose|a: int| 0 <= a < ks.len() && ks[a] == x;
            }
        }
        assert(views_of(out@).to_set() =~= cache@.dom().difference(targets@.dom()));
    }
    out
}

} // verus!
