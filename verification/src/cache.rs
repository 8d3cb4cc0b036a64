//! The cache of per-file imports and its versioned file format.
//!
//! The format is versioned: a `version` field gates loading, and unknown
//! versions are rejected outright so a future v2 cache won't silently misread.
//! Turning text into a [`CacheFile`] and back is done by the caller; this
//! module checks the version and keeps the entries keyed by path.

use vstd::prelude::*;

use crate::pathmap::{
    lemma_assoc_map_at, lemma_sorted_strict_no_duplicates, sorted_strict, PathMap,
};
use crate::paths::{views_of, RelPath};
use crate::text::{lemma_seq_lt_irreflexive, lemma_seq_lt_total, lemma_seq_lt_transitive, seq_lt};

verus! {

broadcast use {vstd::seq_lib::group_seq_properties, vstd::set::group_set_axioms};

/// The only cache file version this library reads and writes.
pub const CACHE_VERSION: u32 = 1;

/// The imports of one file, as recorded at its modification time.
#[derive(Debug)]
pub struct FileEntry {
    pub path: RelPath,
    pub mtime: i64,
    pub imports: Vec<RelPath>,
}

/// The mathematical value of a [`FileEntry`].
pub struct FileEntryView {
    pub path: Seq<char>,
    pub mtime: i64,
    pub imports: Seq<Seq<char>>,
}

impl View for FileEntry {
    type V = FileEntryView;

    open spec fn view(&self) -> FileEntryView {
        FileEntryView { path: self.path@, mtime: self.mtime, imports: views_of(self.imports@) }
    }
}

impl Clone for FileEntry {
    fn clone(&self) -> (res: Self)
        ensures
            res@ == self@,
    {
        let imports = self.imports.clone();
        assert(views_of(imports@) =~= views_of(self.imports@));
        FileEntry { path: self.path.clone(), mtime: self.mtime, imports }
    }
}

/// The list of entries stored in a cache file.
#[derive(Debug)]
pub struct CacheData {
    pub files: Vec<FileEntry>,
}

/// The content of a cache file.
#[derive(Debug)]
pub struct CacheFile {
    pub version: u32,
    pub data: CacheData,
}

/// The entries of a file list as a map: a later entry for a path replaces an
/// earlier one.
pub open spec fn entries_map(files: Seq<FileEntryView>) -> Map<Seq<char>, FileEntryView>
    decreases files.len(),
{
    if files.len() == 0 {
        Map::empty()
    } else {
        entries_map(files.drop_last()).insert(files.last().path, files.last())
    }
}

/// The files whose entry lists `dep` among its imports.
pub open spec fn importers_of(c: Map<Seq<char>, FileEntryView>, dep: Seq<char>) -> Set<Seq<char>> {
    Set::new(|p: Seq<char>| c.dom().contains(p) && c[p].imports.contains(dep))
}

/// Every path that some entry imports.
pub open spec fn imported_paths(c: Map<Seq<char>, FileEntryView>) -> Set<Seq<char>> {
    Set::new(|d: Seq<char>| exists|p: Seq<char>| c.dom().contains(p) && #[trigger] c[p].imports.contains(d))
}

/// The lists of a map of path lists, taken by their views.
pub open spec fn lists_view(m: Map<Seq<char>, Vec<RelPath>>) -> Map<Seq<char>, Seq<Seq<char>>> {
    m.map_values(|v: Vec<RelPath>| views_of(v@))
}

/// `m` maps each imported path to the files importing it, in increasing
/// order, each once.
pub open spec fn is_reverse_index(
    c: Map<Seq<char>, FileEntryView>,
    m: Map<Seq<char>, Seq<Seq<char>>>,
) -> bool {
    &&& m.dom() == imported_paths(c)
    &&& forall|d: Seq<char>|
        #[trigger] m.dom().contains(d) ==> sorted_strict(m[d]) && m[d].to_set() == importers_of(c, d)
}

/// The errors of loading or saving a cache.
#[derive(Debug)]
pub enum CacheError {
    /// The file has version `.0`; this library reads version `.1`.
    UnsupportedVersion(u32, u32),
    /// The text is not a cache file.
    Parse(serde_json::Error),
    /// The file system refused an operation on `path`.
    Io { path: String, source: std::io::Error },
}

/// `serde_json::Error`, carried by [`CacheError::Parse`].
#[verifier::external_type_specification]
#[verifier::external_body]
pub struct ExJsonError(serde_json::Error);

/// The views of a sequence of entries.
pub open spec fn entry_views(s: Seq<FileEntry>) -> Seq<FileEntryView> {
    s.map_values(|e: FileEntry| e@)
}

/// In-memory representation of the cache, keyed by relative path. Lists its
/// entries in increasing path order.
#[derive(Debug)]
pub struct Cache {
    entries: PathMap<FileEntry>,
}

/// Entry `k` (of `ks`) lists `d` among its first `j` imports, for `k < i`
/// among all its imports.
spec fn reached(ev: Seq<FileEntryView>, i: int, j: int, k: int, d: Seq<char>) -> bool {
    ||| 0 <= k < i && ev[k].imports.contains(d)
    ||| k == i && 0 <= i < ev.len() && ev[i].imports.take(j).contains(d)
}

impl Cache {
    /// The map is well formed and each entry is stored under its own path.
    pub closed spec fn wf(&self) -> bool {
        &&& self.entries.wf()
        &&& forall|k: Seq<char>| #[trigger]
            self.entries@.dom().contains(k) ==> self.entries@[k].path@ == k
    }

    pub closed spec fn view(&self) -> Map<Seq<char>, FileEntryView> {
        self.entries@.map_values(|e: FileEntry| e@)
    }

    /// The cached paths in increasing order.
    pub closed spec fn path_seq(&self) -> Seq<Seq<char>> {
        self.entries.key_seq()
    }

    /// The paths are listed in increasing order, each once, and are exactly
    /// the cached ones; each entry is stored under its own path.
    pub proof fn lemma_wf(&self)
        requires
            self.wf(),
        ensures
            sorted_strict(self.path_seq()),
            self.path_seq().to_set() == self@.dom(),
            self@.dom().finite(),
            self@.dom().len() == self.path_seq().len(),
            forall|k: Seq<char>| #[trigger] self@.dom().contains(k) ==> self@[k].path == k,
    {
        self.entries.lemma_view();
        assert(self@.dom() =~= self.entries@.dom());
    }

    /// An empty cache.
    pub fn new() -> (res: Self)
        ensures
            res.wf(),
            res@ == Map::<Seq<char>, FileEntryView>::empty(),
    {
        let res = Cache { entries: PathMap::new() };
        assert(res@ =~= Map::<Seq<char>, FileEntryView>::empty());
        res
    }

    /// Stores `entry` under its path, replacing the entry that was there.
    pub fn upsert(&mut self, entry: FileEntry)
        requires
            old(self).wf(),
        ensures
            final(self).wf(),
            final(self)@ == old(self)@.insert(entry.path@, entry@),
    {
        let ghost e = entry@;
        let key = entry.path.clone();
        self.entries.insert(key, entry);
        assert(self@ =~= old(self)@.insert(e.path, e));
    }

    /// Removes and returns the entry stored under `path`.
    pub fn remove(&mut self, path: &RelPath) -> (res: Option<FileEntry>)
        requires
            old(self).wf(),
        ensures
            final(self).wf(),
            final(self)@ == old(self)@.remove(path@),
            match res {
                Some(e) => old(self)@.dom().contains(path@) && e@ == old(self)@[path@],
                None => !old(self)@.dom().contains(path@),
            },
    {
        let res = self.entries.remove(path);
        assert(self@ =~= old(self)@.remove(path@));
        res
    }

    /// The entry stored under `path`.
    pub fn get(&self, path: &RelPath) -> (res: Option<&FileEntry>)
        requires
            self.wf(),
        ensures
            match res {
                Some(e) => self@.dom().contains(path@) && e@ == self@[path@],
                None => !self@.dom().contains(path@),
            },
    {
        self.entries.get(path)
    }

    /// The entries with their paths, in increasing path order.
    pub fn iter(&self) -> (res: Vec<(&RelPath, &FileEntry)>)
        requires
            self.wf(),
        ensures
            res@.len() == self.path_seq().len(),
            forall|i: int|
                0 <= i < res@.len() ==> (#[trigger] res@[i]).0@ == self.path_seq()[i] && res@[i].1@
                    == self@[self.path_seq()[i]],
    {
        proof {
            self.entries.lemma_view();
        }
        let mut out: Vec<(&RelPath, &FileEntry)> = Vec::new();
        let n = self.entries.len();
        let mut i: usize = 0;
        while i < n
            invariant
                self.wf(),
                n == self.path_seq().len(),
                i <= n,
                out@.len() == i,
                forall|k: int|
                    0 <= k < i ==> (#[trigger] out@[k]).0@ == self.path_seq()[k] && out@[k].1@
                        == self@[self.path_seq()[k]],
            decreases n - i,
        {
            proof {
                self.entries.lemma_view();
            }
            let k = self.entries.key_at(i);
            let v = self.entries.value_at(i);
            out.push((k, v));
            i = i + 1;
        }
        out
    }

    /// The number of entries.
    pub fn len(&self) -> (res: usize)
        requires
            self.wf(),
        ensures
            res == self@.dom().len(),
    {
        proof {
            self.lemma_wf();
        }
        self.entries.len()
    }

    /// There is no entry.
    pub fn is_empty(&self) -> (res: bool)
        requires
            self.wf(),
        ensures
            res == (self@.dom().len() == 0),
            res == (self@ == Map::<Seq<char>, FileEntryView>::empty()),
    {
        proof {
            self.lemma_wf();
            if self@.dom().len() == 0 {
                assert(self@.dom() =~= Set::empty());
                assert(self@ =~= Map::<Seq<char>, FileEntryView>::empty());
            }
        }
        self.entries.len() == 0
    }

    /// The cached paths in increasing order.
    pub fn paths(&self) -> (res: Vec<&RelPath>)
        requires
            self.wf(),
        ensures
            res@.len() == self.path_seq().len(),
            forall|i: int| 0 <= i < res@.len() ==> (#[trigger] res@[i])@ == self.path_seq()[i],
    {
        let mut out: Vec<&RelPath> = Vec::new();
        let n = self.entries.len();
        let mut i: usize = 0;
        while i < n
            invariant
                self.wf(),
                n == self.path_seq().len(),
                i <= n,
                out@.len() == i,
                forall|k: int| 0 <= k < i ==> (#[trigger] out@[k])@ == self.path_seq()[k],
            decreases n - i,
        {
            out.push(self.entries.key_at(i));
            i = i + 1;
        }
        out
    }

    /// Builds a reverse index: for each imported path, the files that import
    /// it, in increasing order, each once.
    pub fn build_reverse(&self) -> (res: PathMap<Vec<RelPath>>)
        requires
            self.wf(),
        ensures
            res.wf(),
            is_reverse_index(self@, lists_view(res@)),
    {
        proof {
            self.entries.lemma_view();
        }
        let ghost ks = self.path_seq();
        let ghost ev = self.entries.val_seq().map_values(|e: FileEntry| e@);
        let mut out: PathMap<Vec<RelPath>> = PathMap::new();
        let n = self.entries.len();
        let mut i: usize = 0;
        while i < n
            invariant
                self.wf(),
                ks == self.path_seq(),
                sorted_strict(ks),
                ev == self.entries.val_seq().map_values(|e: FileEntry| e@),
                n == ks.len(),
                ev.len() == n,
                i <= n,
                out.wf(),
                reverse_so_far(out@, ks, ev, i as int, 0),
            decreases n - i,
        {
            let path = self.entries.key_at(i);
            let entry = self.entries.value_at(i);
            let m = entry.imports.len();
            let mut j: usize = 0;
            while j < m
                invariant
                    self.wf(),
                    ks == self.path_seq(),
                    sorted_strict(ks),
                    ev == self.entries.val_seq().map_values(|e: FileEntry| e@),
                    n == ks.len(),
                    ev.len() == n,
                    i < n,
                    path@ == ks[i as int],
                    ev[i as int] == entry@,
                    m == entry.imports@.len(),
                    j <= m,
                    out.wf(),
                    reverse_so_far(out@, ks, ev, i as int, j as int),
                decreases m - j,
            {
                let dep = &entry.imports[j];
                let ghost dv = dep@;
                let ghost p = path@;
                let ghost old_out = out@;
                assert(ev[i as int].imports[j as int] == dv);
                let (found, idx) = out.find(dep);
                proof {
                    out.lemma_view();
                }
                if found {
                    let list = out.value_at(idx);
                    let ghost lv = views_of(list@);
                    assert(out@[dv] == *list);
                    assert(lv.len() > 0) by {
                        let k0 = choose|k: int| #[trigger] reached(ev, i as int, j as int, k, dv);
                        assert(lv.to_set().contains(ks[k0]));
                    }
                    let last = &list[list.len() - 1];
                    proof {
                        // every file listed so far comes at or before `path`
                        assert(lv.to_set().contains(lv.last()));
                        let kl = choose|k: int|
                            reached(ev, i as int, j as int, k, dv) && ks[k] == lv.last();
                        if kl < i {
                            assert(seq_lt(ks[kl], ks[i as int]));
                        }
                        assert(kl <= i);
                    }
                    if !path_eq(last, path) {
                        proof {
                            let kl = choose|k: int|
                                reached(ev, i as int, j as int, k, dv) && ks[k] == lv.last();
                            assert(kl < i);
                            assert(seq_lt(lv.last(), p));
                        }
                        let ghost old_keys = out.key_seq();
                        let ghost old_vals = out.val_seq();
                        out.push_at(idx, path.clone());
                        proof {
                            out.lemma_view();
                            assert forall|d: Seq<char>| #[trigger]
                                out@.dom().contains(d) && d != dv implies out@[d] == old_out[d] by {
                                let q = choose|q: int| 0 <= q < old_keys.len() && old_keys[q] == d;
                                assert(out@[old_keys[q]] == out.val_seq()[q]);
                                assert(old_out[old_keys[q]] == old_vals[q]);
                            }
                            assert(out@.dom() =~= old_out.dom());
                            assert(out@[old_keys[idx as int]] == out.val_seq()[idx as int]);
                            let nv = views_of(out@[dv]@);
                            assert(nv =~= lv.push(p));
                            assert forall|a: int, b: int| 0 <= a < b < nv.len() implies seq_lt(
                                #[trigger] nv[a],
                                #[trigger] nv[b],
                            ) by {
                                if b == nv.len() - 1 && a < lv.len() - 1 {
                                    lemma_seq_lt_transitive(nv[a], lv.last(), p);
                                }
                            }
                            assert(nv.to_set() =~= lv.to_set().insert(p));
                        }
                    } else {
                        proof {
                            assert(lv.to_set() =~= lv.to_set().insert(p));
                        }
                    }
                } else {
                    let mut list: Vec<RelPath> = Vec::new();
                    list.push(path.clone());
                    out.insert(dep.clone(), list);
                    proof {
                        out.lemma_view();
                        assert(views_of(list@) =~= seq![p]);
                        assert(seq![p].to_set() =~= Set::<Seq<char>>::empty().insert(p));
                        assert forall|k: int| !reached(ev, i as int, j as int, k, dv) by {}
                        assert(Set::new(
                            |x: Seq<char>| exists|k: int| reached(ev, i as int, j as int, k, dv) && ks[k] == x,
                        ) =~= Set::<Seq<char>>::empty());
                    }
                }
                proof {
                    assert(out@.dom() =~= old_out.dom().insert(dv));
                    lemma_reverse_step(old_out, out@, ks, ev, i as int, j as int, dv);
                }
                j = j + 1;
            }
            proof {
                lemma_reverse_next_entry(out@, ks, ev, i as int);
            }
            i = i + 1;
        }
        proof {
            self.lemma_wf();
            lemma_reverse_done(self@, out@, ks, ev);
        }
        out
    }
}

/// `m` is the reverse index of the entries before `i` and of the first `j`
/// imports of entry `i`.
spec fn reverse_so_far(
    m: Map<Seq<char>, Vec<RelPath>>,
    ks: Seq<Seq<char>>,
    ev: Seq<FileEntryView>,
    i: int,
    j: int,
) -> bool {
    &&& forall|d: Seq<char>|
        m.dom().contains(d) <==> exists|k: int| #[trigger] reached(ev, i, j, k, d)
    &&& forall|d: Seq<char>|
        #[trigger] m.dom().contains(d) ==> sorted_strict(views_of(m[d]@)) && views_of(m[d]@).to_set()
            == reached_files(ks, ev, i, j, d)
}

/// The files `ks[k]` with `reached(ev, i, j, k, d)`.
spec fn reached_files(
    ks: Seq<Seq<char>>,
    ev: Seq<FileEntryView>,
    i: int,
    j: int,
    d: Seq<char>,
) -> Set<Seq<char>> {
    Set::new(|x: Seq<char>| exists|k: int| reached(ev, i, j, k, d) && ks[k] == x)
}

proof fn lemma_reached_step(ev: Seq<FileEntryView>, i: int, j: int, k: int, d: Seq<char>)
    requires
        0 <= i < ev.len(),
        0 <= j < ev[i].imports.len(),
    ensures
        reached(ev, i, j + 1, k, d) == (reached(ev, i, j, k, d) || (k == i
            && d == ev[i].imports[j])),
{
    assert(ev[i].imports.take(j + 1) =~= ev[i].imports.take(j).push(ev[i].imports[j]));
}

/// Adding file `ks[i]` under its `j`-th import `dv` keeps the index exact.
proof fn lemma_reverse_step(
    old_m: Map<Seq<char>, Vec<RelPath>>,
    m: Map<Seq<char>, Vec<RelPath>>,
    ks: Seq<Seq<char>>,
    ev: Seq<FileEntryView>,
    i: int,
    j: int,
    dv: Seq<char>,
)
    requires
        0 <= i < ev.len(),
        i < ks.len(),
        0 <= j < ev[i].imports.len(),
        ev[i].imports[j] == dv,
        reverse_so_far(old_m, ks, ev, i, j),
        m.dom() == old_m.dom().insert(dv),
        forall|d: Seq<char>| #[trigger] m.dom().contains(d) && d != dv ==> m[d] == old_m[d],
        sorted_strict(views_of(m[dv]@)),
        views_of(m[dv]@).to_set() == reached_files(ks, ev, i, j, dv).insert(ks[i]),
    ensures
        reverse_so_far(m, ks, ev, i, j + 1),
{
    assert forall|d: Seq<char>| m.dom().contains(d) <==> exists|k: int| #[trigger]
        reached(ev, i, j + 1, k, d) by {
        if m.dom().contains(d) {
            if d == dv {
                lemma_reached_step(ev, i, j, i, d);
            } else {
                let k = choose|k: int| #[trigger] reached(ev, i, j, k, d);
                lemma_reached_step(ev, i, j, k, d);
            }
        }
        if exists|k: int| #[trigger] reached(ev, i, j + 1, k, d) {
            let k = choose|k: int| #[trigger] reached(ev, i, j + 1, k, d);
            lemma_reached_step(ev, i, j, k, d);
        }
    }
    assert forall|d: Seq<char>| #[trigger] m.dom().contains(d) implies sorted_strict(
        views_of(m[d]@),
    ) && views_of(m[d]@).to_set() == reached_files(ks, ev, i, j + 1, d) by {
        assert forall|x: Seq<char>|
            reached_files(ks, ev, i, j + 1, d).contains(x) == (reached_files(
                ks,
                ev,
                i,
                j,
                d,
            ).contains(x) || (d == dv && x == ks[i])) by {
            if reached_files(ks, ev, i, j + 1, d).contains(x) {
                let k = choose|k: int| reached(ev, i, j + 1, k, d) && ks[k] == x;
                lemma_reached_step(ev, i, j, k, d);
            }
            if reached_files(ks, ev, i, j, d).contains(x) {
                let k = choose|k: int| reached(ev, i, j, k, d) && ks[k] == x;
                lemma_reached_step(ev, i, j, k, d);
            }
            if d == dv && x == ks[i] {
                lemma_reached_step(ev, i, j, i, d);
            }
        }
        if d == dv {
            assert(reached_files(ks, ev, i, j + 1, d) =~= reached_files(ks, ev, i, j, d).insert(
                ks[i],
            ));
        } else {
            assert(reached_files(ks, ev, i, j + 1, d) =~= reached_files(ks, ev, i, j, d));
        }
    }
}

proof fn lemma_reached_next_entry(ev: Seq<FileEntryView>, i: int, k: int, d: Seq<char>)
    requires
        0 <= i < ev.len(),
    ensures
        reached(ev, i, ev[i].imports.len() as int, k, d) == reached(ev, i + 1, 0, k, d),
{
    assert(ev[i].imports.take(ev[i].imports.len() as int) =~= ev[i].imports);
    if 0 <= i + 1 < ev.len() {
        assert(ev[i + 1].imports.take(0) =~= Seq::<Seq<char>>::empty());
    }
}

/// Having gone through all imports of entry `i` is having reached entry `i + 1`.
proof fn lemma_reverse_next_entry(
    m: Map<Seq<char>, Vec<RelPath>>,
    ks: Seq<Seq<char>>,
    ev: Seq<FileEntryView>,
    i: int,
)
    requires
        0 <= i < ev.len(),
        reverse_so_far(m, ks, ev, i, ev[i].imports.len() as int),
    ensures
        reverse_so_far(m, ks, ev, i + 1, 0),
{
    let len = ev[i].imports.len() as int;
    assert(ev[i].imports.take(len) =~= ev[i].imports);
    assert forall|k: int, d: Seq<char>| #[trigger] reached(ev, i, len, k, d) == reached(ev, i + 1, 0, k, d) by {
        lemma_reached_next_entry(ev, i, k, d);
    }
    assert forall|d: Seq<char>| m.dom().contains(d) <==> exists|k: int| #[trigger]
        reached(ev, i + 1, 0, k, d) by {
        if m.dom().contains(d) {
            let k = choose|k: int| #[trigger] reached(ev, i, len, k, d);
            lemma_reached_next_entry(ev, i, k, d);
        }
        if exists|k: int| #[trigger] reached(ev, i + 1, 0, k, d) {
            let k = choose|k: int| #[trigger] reached(ev, i + 1, 0, k, d);
            lemma_reached_next_entry(ev, i, k, d);
        }
    }
    assert forall|d: Seq<char>| #[trigger] m.dom().contains(d) implies reached_files(
        ks,
        ev,
        i,
        len,
        d,
    ) == reached_files(ks, ev, i + 1, 0, d) by {
        assert(reached_files(ks, ev, i, len, d) =~= reached_files(ks, ev, i + 1, 0, d));
    }
}

/// After all entries, the index is the reverse index of the cache.
proof fn lemma_reverse_done(
    c: Map<Seq<char>, FileEntryView>,
    m: Map<Seq<char>, Vec<RelPath>>,
    ks: Seq<Seq<char>>,
    ev: Seq<FileEntryView>,
)
    requires
        ks.len() == ev.len(),
        c.dom() == ks.to_set(),
        forall|k: int| 0 <= k < ks.len() ==> c[#[trigger] ks[k]] == ev[k],
        reverse_so_far(m, ks, ev, ev.len() as int, 0),
    ensures
        is_reverse_index(c, lists_view(m)),
{
    let n = ev.len() as int;
    let lv = lists_view(m);
    assert forall|d: Seq<char>| lv.dom().contains(d) <==> imported_paths(c).contains(d) by {
        if lv.dom().contains(d) {
            let k = choose|k: int| #[trigger] reached(ev, n, 0, k, d);
            assert(c[ks[k]].imports.contains(d));
        }
        if imported_paths(c).contains(d) {
            let p = choose|p: Seq<char>| c.dom().contains(p) && #[trigger] c[p].imports.contains(d);
            let k = choose|k: int| 0 <= k < ks.len() && ks[k] == p;
            assert(reached(ev, n, 0, k, d));
        }
    }
    assert(lv.dom() =~= imported_paths(c));
    assert forall|d: Seq<char>| #[trigger] lv.dom().contains(d) implies sorted_strict(lv[d])
        && lv[d].to_set() == importers_of(c, d) by {
        assert forall|x: Seq<char>| reached_files(ks, ev, n, 0, d).contains(x) == importers_of(
            c,
            d,
        ).contains(x) by {
            if importers_of(c, d).contains(x) {
                let k = choose|k: int| 0 <= k < ks.len() && ks[k] == x;
                assert(reached(ev, n, 0, k, d));
            }
        }
        assert(reached_files(ks, ev, n, 0, d) =~= importers_of(c, d));
    }
}

impl Cache {
    /// The cache holding the entries of a cache file, a later entry for a
    /// path replacing an earlier one; files of another version are refused.
    pub fn from_file(file: CacheFile) -> (res: Result<Cache, CacheError>)
        ensures
            match res {
                Ok(c) => file.version == CACHE_VERSION && c.wf() && c@ == entries_map(
                    entry_views(file.data.files@),
                ),
                Err(e) => file.version != CACHE_VERSION && e == CacheError::UnsupportedVersion(
                    file.version,
                    CACHE_VERSION,
                ),
            },
    {
        if file.version != CACHE_VERSION {
            return Err(CacheError::UnsupportedVersion(file.version, CACHE_VERSION));
        }
        let files = file.data.files;
        let ghost fv = entry_views(files@);
        let mut cache = Cache::new();
        assert(entries_map(fv.take(0)) =~= Map::<Seq<char>, FileEntryView>::empty());
        for e in it: files
            invariant
                cache.wf(),
                fv == entry_views(it.seq()),
                cache@ == entries_map(fv.take(it.index() as int)),
        {
            assert(fv.take(it.index() + 1).drop_last() =~= fv.take(it.index() as int));
            cache.upsert(e);
        }
        assert(fv.take(fv.len() as int) =~= fv);
        Ok(cache)
    }
}

impl Cache {
    /// The cache file holding the entries in increasing path order.
    pub fn to_file(&self) -> (res: CacheFile)
        requires
            self.wf(),
        ensures
            res.version == CACHE_VERSION,
            entry_views(res.data.files@) == self.path_seq().map_values(|p: Seq<char>| self@[p]),
    {
        let items = self.iter();
        let mut files: Vec<FileEntry> = Vec::new();
        let mut i: usize = 0;
        while i < items.len()
            invariant
                self.wf(),
                items@.len() == self.path_seq().len(),
                forall|k: int|
                    0 <= k < items@.len() ==> (#[trigger] items@[k]).0@ == self.path_seq()[k]
                        && items@[k].1@ == self@[self.path_seq()[k]],
                i <= items@.len(),
                entry_views(files@) == self.path_seq().take(i as int).map_values(|p: Seq<char>| self@[p]),
            decreases items@.len() - i,
        {
            let e = items[i].1.clone();
            let ghost before = files@;
            files.push(e);
            assert(entry_views(files@) =~= entry_views(before).push(e@));
            assert(self.path_seq().take(i + 1).map_values(|p: Seq<char>| self@[p]) =~= self.path_seq().take(
                i as int,
            ).map_values(|p: Seq<char>| self@[p]).push(self@[self.path_seq()[i as int]]));
            i = i + 1;
        }
        assert(self.path_seq().take(items@.len() as int) =~= self.path_seq());
        CacheFile { version: CACHE_VERSION, data: CacheData { files } }
    }
}

/// The entries listed in increasing path order, each under its own path,
/// give back the map they were listed from.
proof fn lemma_entries_map_listed(
    c: Map<Seq<char>, FileEntryView>,
    ks: Seq<Seq<char>>,
)
    requires
        ks.no_duplicates(),
        c.dom() == ks.to_set(),
        forall|k: Seq<char>| #[trigger] c.dom().contains(k) ==> c[k].path == k,
    ensures
        entries_map(ks.map_values(|p: Seq<char>| c[p])) == c,
    decreases ks.len(),
{
    let fs = ks.map_values(|p: Seq<char>| c[p]);
    if ks.len() == 0 {
        assert(c.dom() =~= Set::<Seq<char>>::empty());
        assert(c =~= Map::<Seq<char>, FileEntryView>::empty());
    } else {
        let last = ks.last();
        let c2 = c.remove(last);
        let ks2 = ks.drop_last();
        assert(ks.to_set().contains(last));
        assert forall|x: Seq<char>| c2.dom().contains(x) <==> ks2.to_set().contains(x) by {
            if ks.to_set().contains(x) && x != last {
                let k = choose|k: int| 0 <= k < ks.len() && ks[k] == x;
                assert(ks2[k] == x);
            }
            if ks2.to_set().contains(x) {
                let k = choose|k: int| 0 <= k < ks2.len() && ks2[k] == x;
                assert(ks[k] == x);
                assert(x != last);
            }
        }
        assert(c2.dom() =~= ks2.to_set());
        lemma_entries_map_listed(c2, ks2);
        let fs2 = ks2.map_values(|p: Seq<char>| c2[p]);
        assert(fs.drop_last() =~= fs2) by {
            assert forall|k: int| 0 <= k < fs2.len() implies fs.drop_last()[k] == fs2[k] by {
                assert(ks[k] != last);
            }
        }
        assert(fs.last() == c[last]);
        assert(entries_map(fs) =~= c2.insert(last, c[last]));
        assert(c2.insert(last, c[last]) =~= c);
    }
}

/// Reading back the file of a cache gives the same cache.
pub proof fn law_cache_file_roundtrip(cache: Cache)
    requires
        cache.wf(),
    ensures
        entries_map(cache.path_seq().map_values(|p: Seq<char>| cache@[p])) == cache@,
{
    cache.lemma_wf();
    lemma_sorted_strict_no_duplicates(cache.path_seq());
    lemma_entries_map_listed(cache@, cache.path_seq());
}

/// After an entry is stored, reading its path gives that entry, and every
/// other path reads as before.
pub proof fn law_get_after_upsert(
    before: Map<Seq<char>, FileEntryView>,
    entry: FileEntryView,
    other: Seq<char>,
)
    ensures
        before.insert(entry.path, entry).dom().contains(entry.path),
        before.insert(entry.path, entry)[entry.path] == entry,
        other != entry.path ==> before.insert(entry.path, entry).dom().contains(other)
            == before.dom().contains(other),
        other != entry.path && before.dom().contains(other) ==> before.insert(entry.path, entry)[other]
            == before[other],
{
}

/// After a path is removed, reading it finds nothing, and every other path
/// reads as before.
pub proof fn law_get_after_remove(
    before: Map<Seq<char>, FileEntryView>,
    path: Seq<char>,
    other: Seq<char>,
)
    ensures
        !before.remove(path).dom().contains(path),
        other != path ==> before.remove(path).dom().contains(other) == before.dom().contains(other),
        other != path && before.dom().contains(other) ==> before.remove(path)[other] == before[other],
{
}

/// The two paths are equal.
pub fn path_eq(a: &RelPath, b: &RelPath) -> (res: bool)
    ensures
        res == (a@ == b@),
{
    let sa = a.as_str();
    let sb = b.as_str();
    crate::text::str_eq(sa, sb)
}

} // verus!
