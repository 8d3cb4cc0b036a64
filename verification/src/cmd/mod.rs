//! The decisions of the subcommands: which checks refuse a command line, what
//! gets (re)cached, how the root is scanned and how results are written. The
//! caller performs the file system work they call for.

pub mod cache;
pub mod list;

use vstd::prelude::*;

use crate::paths::Root;

verus! {

/// Top-level options shared by every subcommand.
///
/// `cache_file` is optional: when unset the cache is built in memory for the
/// current run only and never written to disk.
#[derive(Debug)]
pub struct GlobalOpts {
    pub cache_file: Option<String>,
    pub root: Root,
    pub silence_dynamic_imports: bool,
    pub walk: WalkOpts,
}

/// Controls how a full scan walks the root directory.
///
/// Defaults match `ripgrep`/`fd`: gitignore / `.ignore` / global gitignore are
/// respected and hidden entries are skipped, which keeps generated trees
/// out of the cache automatically.
#[derive(Debug, Default)]
pub struct WalkOpts {
    pub no_ignore: bool,
    pub no_ignore_vcs: bool,
    pub hidden: bool,
    /// Extra glob patterns to exclude from the scan, gitignore-style.
    /// A leading `!` re-includes a previously excluded entry.
    pub excludes: Vec<String>,
}

/// The settings of a directory walk.
#[derive(Debug, Clone, Copy, PartialEq, Eq, Structural)]
pub struct WalkSettings {
    /// Skip hidden entries.
    pub skip_hidden: bool,
    /// Read `.ignore` files.
    pub ignore: bool,
    /// Read ignore files of parent directories.
    pub parents: bool,
    /// Read `.gitignore` files.
    pub git_ignore: bool,
    /// Read the global gitignore.
    pub git_global: bool,
    /// Read `.git/info/exclude`.
    pub git_exclude: bool,
    /// Follow symbolic links.
    pub follow_links: bool,
}

/// How to walk the root: ignore files are read unless `no_ignore`, version
/// control ignore files only when also not `no_ignore_vcs`; hidden entries are
/// skipped unless `hidden`; links are never followed.
pub fn walk_settings(w: &WalkOpts) -> (res: WalkSettings)
    ensures
        res.skip_hidden == !w.hidden,
        res.ignore == !w.no_ignore,
        res.parents == !w.no_ignore,
        res.git_ignore == (!w.no_ignore && !w.no_ignore_vcs),
        res.git_global == (!w.no_ignore && !w.no_ignore_vcs),
        res.git_exclude == (!w.no_ignore && !w.no_ignore_vcs),
        !res.follow_links,
{
    let respect_ignore = !w.no_ignore;
    let respect_vcs = respect_ignore && !w.no_ignore_vcs;
    WalkSettings {
        skip_hidden: !w.hidden,
        ignore: respect_ignore,
        parents: respect_ignore,
        git_ignore: respect_vcs,
        git_global: respect_vcs,
        git_exclude: respect_vcs,
        follow_links: false,
    }
}

/// An exclusion pattern in the form of an override glob, whose default is
/// inclusion: gitignore semantics has a leading `!` re-include, so the
/// polarity is flipped (`!x` becomes `x`, `x` becomes `!x`).
pub fn override_glob(pattern: &str) -> (res: String)
    ensures
        pattern@.len() > 0 && pattern@[0] == '!' ==> res@ == pattern@.drop_first(),
        !(pattern@.len() > 0 && pattern@[0] == '!') ==> res@ == seq!['!'] + pattern@,
{
    let cs = crate::text::chars_of(pattern);
    if cs.len() > 0 && cs[0] == '!' {
        let mut rest: Vec<char> = Vec::new();
        let mut i: usize = 1;
        while i < cs.len()
            invariant
                1 <= i <= cs@.len(),
                rest@ == cs@.subrange(1, i as int),
            decreases cs@.len() - i,
        {
            rest.push(cs[i]);
            assert(cs@.subrange(1, i + 1) =~= cs@.subrange(1, i as int).push(cs@[i as int]));
            i = i + 1;
        }
        assert(cs@.subrange(1, cs@.len() as int) =~= cs@.drop_first());
        crate::text::string_from_chars(&rest)
    } else {
        let mut out = String::new();
        crate::text::push_char(&mut out, '!');
        out.append(pattern);
        assert(out@ =~= seq!['!'] + pattern@);
        out
    }
}

/// A file extension of the jsonnet sources that a scan collects.
pub fn is_source_extension(ext: &str) -> (res: bool)
    ensures
        res == (ext@ == "jsonnet"@ || ext@ == "libsonnet"@),
{
    crate::text::str_eq(ext, "jsonnet") || crate::text::str_eq(ext, "libsonnet")
}

/// Command lines refused before any work is done.
#[derive(Debug, Clone, Copy, PartialEq, Eq, Structural)]
pub enum CommandError {
    /// `cache` without files and without `--all`.
    NoTargets,
    /// `cache` without a cache file to write.
    NoCacheFile,
    /// `--skip-update-cache` without a cache file to read.
    SkipUpdateWithoutCacheFile,
}

} // verus!
