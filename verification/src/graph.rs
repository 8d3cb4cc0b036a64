//! Forward/reverse dependency graph derived from a [`Cache`].

use vstd::prelude::*;

use crate::cache::{imported_paths, importers_of, is_reverse_index, lists_view, Cache, FileEntryView};
use crate::pathmap::{sorted_strict, sorted_unique, PathMap};
use crate::paths::{is_libsonnet, views_of, RelPath};
use crate::text::seq_lt;

verus! {

broadcast use {vstd::seq_lib::group_seq_properties, vstd::set::group_set_axioms};

/// Options of a traversal.
#[derive(Debug, Clone, Copy, Default)]
pub struct TraversalOpts {
    /// When false, `*.libsonnet` entries are omitted from output.
    /// Note: they are still walked through (a libsonnet may be the only path
    /// from a jsonnet root to deeper jsonnet deps), only filtered at emit.
    pub include_libsonnet: bool,
}

/// A node of a dependency tree.
#[derive(Debug)]
pub struct TreeNode {
    pub path: RelPath,
    pub children: Vec<TreeNode>,
    /// `true` if traversal stopped here because this node was already visited
    /// higher up the current path (cycle break).
    pub cycle: bool,
}

/// The mathematical value of a [`TreeNode`].
pub struct TreeView {
    pub path: Seq<char>,
    pub children: Seq<TreeView>,
    pub cycle: bool,
}

/// The value of a tree node and of all its descendants.
pub open spec fn tree_node_view(n: TreeNode) -> TreeView
    decreases n,
{
    TreeView {
        path: n.path@,
        children: Seq::new(
            n.children@.len(),
            |i: int|
                {
                    if 0 <= i < n.children@.len() {
                        tree_node_view(n.children@[i])
                    } else {
                        TreeView { path: Seq::empty(), children: Seq::empty(), cycle: false }
                    }
                },
        ),
        cycle: n.cycle,
    }
}

impl View for TreeNode {
    type V = TreeView;

    open spec fn view(&self) -> TreeView {
        tree_node_view(*self)
    }
}

/// The values of a sequence of tree nodes.
pub open spec fn tree_views(s: Seq<TreeNode>) -> Seq<TreeView> {
    s.map_values(|n: TreeNode| n@)
}


/// `m` maps each cached path to its imports, in increasing order, each once.
pub open spec fn is_forward_index(
    c: Map<Seq<char>, FileEntryView>,
    m: Map<Seq<char>, Seq<Seq<char>>>,
) -> bool {
    &&& m.dom() == c.dom()
    &&& forall|p: Seq<char>|
        #[trigger] m.dom().contains(p) ==> sorted_strict(m[p]) && m[p].to_set()
            == c[p].imports.to_set()
}

/// The neighbours of `p` (none when `p` has no entry).
pub open spec fn succ(adj: Map<Seq<char>, Seq<Seq<char>>>, p: Seq<char>) -> Seq<Seq<char>> {
    if adj.dom().contains(p) {
        adj[p]
    } else {
        Seq::empty()
    }
}

/// Every path that is a neighbour of some path.
pub open spec fn targets(adj: Map<Seq<char>, Seq<Seq<char>>>) -> Set<Seq<char>> {
    Set::new(|q: Seq<char>| exists|p: Seq<char>| adj.dom().contains(p) && #[trigger] adj[p].contains(q))
}

/// `w` is a walk of at least one step leaving `start`.
pub open spec fn is_walk(adj: Map<Seq<char>, Seq<Seq<char>>>, start: Seq<char>, w: Seq<Seq<char>>) -> bool {
    &&& w.len() > 0
    &&& succ(adj, start).contains(w[0])
    &&& forall|i: int| 0 <= i < w.len() - 1 ==> succ(adj, #[trigger] w[i]).contains(w[i + 1])
}

/// `q` can be reached from `start` in one step or more.
pub open spec fn reachable(adj: Map<Seq<char>, Seq<Seq<char>>>, start: Seq<char>, q: Seq<char>) -> bool {
    exists|w: Seq<Seq<char>>| #[trigger] is_walk(adj, start, w) && w.last() == q
}

/// The traversal reports `q`.
pub open spec fn keeps(opts: TraversalOpts, q: Seq<char>) -> bool {
    opts.include_libsonnet || !is_libsonnet(q)
}

/// What a closure query reports: the paths reachable from `start` in one
/// step or more, without the `*.libsonnet` ones unless they are asked for.
pub open spec fn closure_set(
    adj: Map<Seq<char>, Seq<Seq<char>>>,
    start: Seq<char>,
    opts: TraversalOpts,
) -> Set<Seq<char>> {
    Set::new(|q: Seq<char>| reachable(adj, start, q) && keeps(opts, q))
}

/// The concatenation of a sequence of lists.
pub open spec fn concat_lists(ls: Seq<Seq<Seq<char>>>) -> Seq<Seq<char>>
    decreases ls.len(),
{
    if ls.len() == 0 {
        Seq::empty()
    } else {
        concat_lists(ls.drop_last()) + ls.last()
    }
}

proof fn lemma_concat_lists_contains(ls: Seq<Seq<Seq<char>>>, q: Seq<char>)
    ensures
        concat_lists(ls).contains(q) <==> exists|i: int| 0 <= i < ls.len() && #[trigger] ls[i].contains(q),
    decreases ls.len(),
{
    if ls.len() > 0 {
        lemma_concat_lists_contains(ls.drop_last(), q);
        let a = concat_lists(ls.drop_last());
        let b = ls.last();
        if (a + b).contains(q) {
            let k = choose|k: int| 0 <= k < (a + b).len() && (a + b)[k] == q;
            if k < a.len() {
                assert(a[k] == q);
                let i = choose|i: int| 0 <= i < ls.drop_last().len() && #[trigger] ls.drop_last()[i].contains(q);
                assert(ls[i].contains(q));
            } else {
                assert(b[k - a.len()] == q);
                assert(ls[ls.len() - 1].contains(q));
            }
        }
        if exists|i: int| 0 <= i < ls.len() && #[trigger] ls[i].contains(q) {
            let i = choose|i: int| 0 <= i < ls.len() && #[trigger] ls[i].contains(q);
            if i < ls.len() - 1 {
                assert(ls.drop_last()[i].contains(q));
                let k = choose|k: int| 0 <= k < a.len() && a[k] == q;
                assert((a + b)[k] == q);
            } else {
                let k = choose|k: int| 0 <= k < b.len() && b[k] == q;
                assert((a + b)[a.len() + k] == q);
            }
        }
    }
}

/// The dependency graph: for each path, its imports (forward) and the files
/// importing it (reverse).
pub struct Graph {
    forward: PathMap<Vec<RelPath>>,
    reverse: PathMap<Vec<RelPath>>,
}

impl Graph {
    pub closed spec fn wf(&self) -> bool {
        self.forward.wf() && self.reverse.wf()
    }

    /// The neighbours of each path in the chosen direction.
    pub closed spec fn adjacency(&self, reverse: bool) -> Map<Seq<char>, Seq<Seq<char>>> {
        if reverse {
            lists_view(self.reverse@)
        } else {
            lists_view(self.forward@)
        }
    }

    closed spec fn map_of(&self, reverse: bool) -> PathMap<Vec<RelPath>> {
        if reverse {
            self.reverse
        } else {
            self.forward
        }
    }

    /// The set of all neighbours in either direction is finite.
    pub proof fn lemma_targets_finite(&self, reverse: bool)
        requires
            self.wf(),
        ensures
            targets(self.adjacency(reverse)).finite(),
    {
        let m = self.map_of(reverse);
        m.lemma_view();
        let adj = self.adjacency(reverse);
        let ls = m.val_seq().map_values(|v: Vec<RelPath>| views_of(v@));
        let flat = concat_lists(ls);
        assert forall|q: Seq<char>| targets(adj).contains(q) <==> flat.to_set().contains(q) by {
            lemma_concat_lists_contains(ls, q);
            if targets(adj).contains(q) {
                let p = choose|p: Seq<char>| adj.dom().contains(p) && #[trigger] adj[p].contains(q);
                let i = choose|i: int| 0 <= i < m.key_seq().len() && m.key_seq()[i] == p;
                assert(m@[m.key_seq()[i]] == m.val_seq()[i]);
                assert(ls[i].contains(q));
            }
            if flat.to_set().contains(q) {
                let i = choose|i: int| 0 <= i < ls.len() && #[trigger] ls[i].contains(q);
                let p = m.key_seq()[i];
                assert(m@[m.key_seq()[i]] == m.val_seq()[i]);
                assert(adj.dom().contains(p));
                assert(adj[p].contains(q));
            }
        }
        assert(targets(adj) =~= flat.to_set());
        vstd::seq_lib::seq_to_set_is_finite(flat);
    }

    /// Builds the graph of a cache.
    pub fn from_cache(cache: &Cache) -> (res: Graph)
        requires
            cache.wf(),
        ensures
            res.wf(),
            is_forward_index(cache@, res.adjacency(false)),
            is_reverse_index(cache@, res.adjacency(true)),
    {
        proof {
            cache.lemma_wf();
        }
        let items = cache.iter();
        let mut forward: PathMap<Vec<RelPath>> = PathMap::new();
        let mut i: usize = 0;
        while i < items.len()
            invariant
                cache.wf(),
                items@.len() == cache.path_seq().len(),
                forall|k: int|
                    0 <= k < items@.len() ==> (#[trigger] items@[k]).0@ == cache.path_seq()[k]
                        && items@[k].1@ == cache@[cache.path_seq()[k]],
                i <= items@.len(),
                forward.wf(),
                forward@.dom() == cache.path_seq().take(i as int).to_set(),
                forall|p: Seq<char>|
                    #[trigger] forward@.dom().contains(p) ==> sorted_strict(views_of(forward@[p]@))
                        && views_of(forward@[p]@).to_set() == cache@[p].imports.to_set(),
            decreases items@.len() - i,
        {
            let (path, entry) = items[i];
            let deps = sorted_unique(&entry.imports);
            forward.insert(path.clone(), deps);
            proof {
                assert(cache.path_seq().take(i + 1) =~= cache.path_seq().take(i as int).push(path@));
                assert(forward@.dom() =~= cache.path_seq().take(i + 1).to_set());
            }
            i = i + 1;
        }
        proof {
            assert(cache.path_seq().take(items@.len() as int) =~= cache.path_seq());
        }
        let reverse = cache.build_reverse();
        let res = Graph { forward, reverse };
        assert(res.adjacency(false).dom() =~= cache@.dom());
        res
    }

    /// The neighbours of `path` in the chosen direction.
    fn neighbours(&self, path: &RelPath, reverse: bool) -> (res: Vec<RelPath>)
        requires
            self.wf(),
        ensures
            views_of(res@) == succ(self.adjacency(reverse), path@),
    {
        let map = if reverse {
            &self.reverse
        } else {
            &self.forward
        };
        match map.get(path) {
            Some(v) => {
                let res = v.clone();
                assert(views_of(res@) =~= views_of(v@));
                res
            },
            None => {
                let res: Vec<RelPath> = Vec::new();
                assert(views_of(res@) =~= Seq::<Seq<char>>::empty());
                res
            },
        }
    }
}


/// A set holding the neighbours of `start` and closed under taking
/// neighbours holds everything reachable from `start`.
proof fn lemma_closed_set_holds_reachable(
    adj: Map<Seq<char>, Seq<Seq<char>>>,
    start: Seq<char>,
    s: Set<Seq<char>>,
    q: Seq<char>,
)
    requires
        forall|x: Seq<char>| #[trigger] succ(adj, start).contains(x) ==> s.contains(x),
        forall|x: Seq<char>, y: Seq<char>|
            s.contains(x) && #[trigger] succ(adj, x).contains(y) ==> s.contains(y),
        reachable(adj, start, q),
    ensures
        s.contains(q),
{
    let w = choose|w: Seq<Seq<char>>| #[trigger] is_walk(adj, start, w) && w.last() == q;
    assert forall|i: int| 0 <= i < w.len() implies s.contains(#[trigger] w[i]) by {
        lemma_walk_prefix_in(adj, start, s, w, i);
    }
}

proof fn lemma_walk_prefix_in(
    adj: Map<Seq<char>, Seq<Seq<char>>>,
    start: Seq<char>,
    s: Set<Seq<char>>,
    w: Seq<Seq<char>>,
    i: int,
)
    requires
        forall|x: Seq<char>| #[trigger] succ(adj, start).contains(x) ==> s.contains(x),
        forall|x: Seq<char>, y: Seq<char>|
            s.contains(x) && #[trigger] succ(adj, x).contains(y) ==> s.contains(y),
        is_walk(adj, start, w),
        0 <= i < w.len(),
    ensures
        s.contains(w[i]),
    decreases i,
{
    if i > 0 {
        lemma_walk_prefix_in(adj, start, s, w, i - 1);
        assert(succ(adj, w[i - 1]).contains(w[i]));
    }
}

/// A walk to `x` followed by a step to a neighbour `y` of `x` reaches `y`.
proof fn lemma_reachable_step(
    adj: Map<Seq<char>, Seq<Seq<char>>>,
    start: Seq<char>,
    x: Seq<char>,
    y: Seq<char>,
)
    requires
        reachable(adj, start, x),
        succ(adj, x).contains(y),
    ensures
        reachable(adj, start, y),
{
    let w = choose|w: Seq<Seq<char>>| #[trigger] is_walk(adj, start, w) && w.last() == x;
    let w2 = w.push(y);
    assert(w2[w.len() - 1] == x);
    assert(is_walk(adj, start, w2));
    assert(w2.last() == y);
}

/// A neighbour of `start` is reachable from it.
proof fn lemma_reachable_first(adj: Map<Seq<char>, Seq<Seq<char>>>, start: Seq<char>, y: Seq<char>)
    requires
        succ(adj, start).contains(y),
    ensures
        reachable(adj, start, y),
{
    let w = seq![y];
    assert(is_walk(adj, start, w));
}

/// A neighbour of a path is one of the graph's targets.
proof fn lemma_succ_in_targets(adj: Map<Seq<char>, Seq<Seq<char>>>, p: Seq<char>, y: Seq<char>)
    requires
        succ(adj, p).contains(y),
    ensures
        targets(adj).contains(y),
{
    assert(adj.dom().contains(p));
    assert(adj[p].contains(y));
}

/// `p` is one of the paths of `v`.
fn contains_path(v: &Vec<RelPath>, p: &RelPath) -> (res: bool)
    ensures
        res == views_of(v@).contains(p@),
{
    let mut i: usize = 0;
    while i < v.len()
        invariant
            i <= v@.len(),
            forall|k: int| 0 <= k < i ==> v@[k]@ != p@,
        decreases v@.len() - i,
    {
        if crate::cache::path_eq(&v[i], p) {
            assert(views_of(v@)[i as int] == p@);
            return true;
        }
        i = i + 1;
    }
    false
}

/// Every path in `s` is a target reachable from `start`.
#[verifier::opaque]
spec fn all_found(
    adj: Map<Seq<char>, Seq<Seq<char>>>,
    start: Seq<char>,
    u: Set<Seq<char>>,
    s: Set<Seq<char>>,
) -> bool {
    forall|x: Seq<char>| #[trigger] s.contains(x) ==> u.contains(x) && reachable(adj, start, x)
}

/// The neighbours of `start`, and those of every path in `seen`, are in
/// `seen` or still on the stack.
#[verifier::opaque]
spec fn covered(
    adj: Map<Seq<char>, Seq<Seq<char>>>,
    start: Seq<char>,
    seen: Set<Seq<char>>,
    stack: Seq<Seq<char>>,
) -> bool {
    &&& forall|y: Seq<char>| #[trigger]
        succ(adj, start).contains(y) ==> seen.contains(y) || stack.contains(y)
    &&& forall|x: Seq<char>, y: Seq<char>|
        seen.contains(x) && #[trigger] succ(adj, x).contains(y) ==> seen.contains(y)
            || stack.contains(y)
}

proof fn lemma_search_start(adj: Map<Seq<char>, Seq<Seq<char>>>, start: Seq<char>)
    ensures
        all_found(adj, start, targets(adj), succ(adj, start).to_set()),
        covered(adj, start, Set::empty(), succ(adj, start)),
{
    reveal(all_found);
    reveal(covered);
    assert forall|x: Seq<char>| #[trigger] succ(adj, start).to_set().contains(x) implies targets(
        adj,
    ).contains(x) && reachable(adj, start, x) by {
        lemma_succ_in_targets(adj, start, x);
        lemma_reachable_first(adj, start, x);
    }
}

/// Popping a path that was already seen keeps everything covered.
proof fn lemma_pop_seen(
    adj: Map<Seq<char>, Seq<Seq<char>>>,
    start: Seq<char>,
    seen: Set<Seq<char>>,
    stack: Seq<Seq<char>>,
    p: Seq<char>,
)
    requires
        covered(adj, start, seen, stack.push(p)),
        seen.contains(p),
    ensures
        covered(adj, start, seen, stack),
{
    reveal(covered);
    assert forall|y: Seq<char>| stack.push(p).contains(y) && y != p implies stack.contains(y) by {
        let k = choose|k: int| 0 <= k < stack.push(p).len() && stack.push(p)[k] == y;
        assert(stack[k] == y);
    }
}

/// Visiting a new path `p` and pushing its unseen neighbours keeps the
/// search sound and everything covered.
proof fn lemma_visit(
    adj: Map<Seq<char>, Seq<Seq<char>>>,
    start: Seq<char>,
    seen: Set<Seq<char>>,
    stack: Seq<Seq<char>>,
    p: Seq<char>,
    pushed: Seq<Seq<char>>,
)
    requires
        all_found(adj, start, targets(adj), seen),
        all_found(adj, start, targets(adj), stack.push(p).to_set()),
        covered(adj, start, seen, stack.push(p)),
        forall|y: Seq<char>| #[trigger] pushed.contains(y) ==> succ(adj, p).contains(y),
        forall|y: Seq<char>| #[trigger]
            succ(adj, p).contains(y) ==> seen.insert(p).contains(y) || (stack + pushed).contains(y),
    ensures
        all_found(adj, start, targets(adj), seen.insert(p)),
        all_found(adj, start, targets(adj), (stack + pushed).to_set()),
        covered(adj, start, seen.insert(p), stack + pushed),
{
    reveal(all_found);
    reveal(covered);
    let s2 = stack + pushed;
    assert(stack.push(p).to_set().contains(p)) by {
        assert(stack.push(p)[stack.len() as int] == p);
    }
    assert forall|y: Seq<char>| stack.push(p).contains(y) && y != p implies s2.contains(y) by {
        let k = choose|k: int| 0 <= k < stack.push(p).len() && stack.push(p)[k] == y;
        assert(s2[k] == y);
    }
    assert forall|y: Seq<char>| #[trigger] s2.to_set().contains(y) implies targets(adj).contains(y)
        && reachable(adj, start, y) by {
        let k = choose|k: int| 0 <= k < s2.len() && s2[k] == y;
        if k < stack.len() {
            assert(stack.push(p)[k] == y);
            assert(stack.push(p).to_set().contains(y));
        } else {
            assert(pushed[k - stack.len()] == y);
            assert(pushed.contains(y));
            lemma_succ_in_targets(adj, p, y);
            lemma_reachable_step(adj, start, p, y);
        }
    }
}

/// After the search, everything reachable has been seen.
proof fn lemma_search_done(
    adj: Map<Seq<char>, Seq<Seq<char>>>,
    start: Seq<char>,
    seen: Set<Seq<char>>,
)
    requires
        all_found(adj, start, targets(adj), seen),
        covered(adj, start, seen, Seq::empty()),
    ensures
        forall|q: Seq<char>| #[trigger] seen.contains(q) <==> reachable(adj, start, q),
{
    reveal(all_found);
    reveal(covered);
    assert forall|q: Seq<char>| reachable(adj, start, q) implies #[trigger] seen.contains(q) by {
        lemma_closed_set_holds_reachable(adj, start, seen, q);
    }
}

/// Pushes onto `stack` the paths of `ns` that are not in `seen`.
fn push_unseen(seen: &PathMap<()>, ns: &Vec<RelPath>, stack: &mut Vec<RelPath>)
    requires
        seen.wf(),
    ensures
        views_of(final(stack)@).subrange(0, old(stack)@.len() as int) == views_of(old(stack)@),
        old(stack)@.len() <= final(stack)@.len(),
        forall|y: Seq<char>| #[trigger]
            views_of(final(stack)@).subrange(old(stack)@.len() as int, final(stack)@.len() as int).contains(y)
                ==> views_of(ns@).contains(y),
        forall|y: Seq<char>| #[trigger]
            views_of(ns@).contains(y) ==> seen@.dom().contains(y) || views_of(final(stack)@).contains(y),
{
    let ghost start_len = stack@.len();
    let ghost orig = views_of(stack@);
    let mut k: usize = 0;
    while k < ns.len()
        invariant
            seen.wf(),
            k <= ns@.len(),
            start_len <= stack@.len(),
            views_of(stack@).subrange(0, start_len as int) == orig,
            forall|t: int|
                start_len <= t < stack@.len() ==> views_of(ns@).contains(#[trigger] views_of(stack@)[t]),
            forall|t: int|
                0 <= t < k ==> seen@.dom().contains(#[trigger] views_of(ns@)[t]) || views_of(
                    stack@,
                ).contains(views_of(ns@)[t]),
        decreases ns@.len() - k,
    {
        let ghost before = views_of(stack@);
        if !seen.contains_key(&ns[k]) {
            let n = ns[k].clone();
            stack.push(n);
            proof {
                let after = views_of(stack@);
                assert(after =~= before.push(n@));
                assert(after.subrange(0, start_len as int) =~= before.subrange(0, start_len as int));
                assert(views_of(ns@)[k as int] == n@);
                assert forall|t: int| 0 <= t < k + 1 implies seen@.dom().contains(
                    #[trigger] views_of(ns@)[t],
                ) || after.contains(views_of(ns@)[t]) by {
                    if t < k && !seen@.dom().contains(views_of(ns@)[t]) {
                        let m = choose|m: int| 0 <= m < before.len() && before[m] == views_of(ns@)[t];
                        assert(after[m] == views_of(ns@)[t]);
                    }
                    if t == k {
                        assert(after[before.len() as int] == n@);
                    }
                }
            }
        }
        k = k + 1;
    }
    proof {
        let fin = views_of(stack@);
        assert forall|y: Seq<char>| #[trigger]
            fin.subrange(start_len as int, fin.len() as int).contains(y) implies views_of(ns@).contains(y) by {
            let m = choose|m: int| 0 <= m < fin.len() - start_len && fin.subrange(start_len as int, fin.len() as int)[m] == y;
            assert(fin[start_len + m] == y);
        }
        assert forall|y: Seq<char>| #[trigger] views_of(ns@).contains(y) implies seen@.dom().contains(y)
            || fin.contains(y) by {
            let t = choose|t: int| 0 <= t < ns@.len() && views_of(ns@)[t] == y;
        }
    }
}

/// The elements `x` of `kv[..i]` that the traversal reports.
spec fn kept_prefix(kv: Seq<Seq<char>>, i: int, opts: TraversalOpts) -> Set<Seq<char>> {
    Set::new(|x: Seq<char>| exists|a: int| 0 <= a < i && kv[a] == x && keeps(opts, x))
}

/// The reported paths among `keys`, in the same order.
fn filter_kept(keys: &Vec<RelPath>, opts: TraversalOpts) -> (res: Vec<RelPath>)
    requires
        sorted_strict(views_of(keys@)),
    ensures
        sorted_strict(views_of(res@)),
        views_of(res@).to_set() == Set::new(
            |x: Seq<char>| views_of(keys@).contains(x) && keeps(opts, x),
        ),
{
    let ghost kv = views_of(keys@);
    let mut out: Vec<RelPath> = Vec::new();
    let mut i: usize = 0;
    while i < keys.len()
        invariant
            kv == views_of(keys@),
            i <= keys@.len(),
            sorted_strict(kv),
            sorted_strict(views_of(out@)),
            views_of(out@).to_set() == kept_prefix(kv, i as int, opts),
        decreases keys@.len() - i,
    {
        let ghost before = views_of(out@);
        let keep = opts.include_libsonnet || !keys[i].has_libsonnet_extension();
        if keep {
            let c = keys[i].clone();
            out.push(c);
            proof {
                assert(views_of(out@) =~= before.push(kv[i as int]));
                let ov = views_of(out@);
                assert forall|a: int, b: int| 0 <= a < b < ov.len() implies seq_lt(
                    #[trigger] ov[a],
                    #[trigger] ov[b],
                ) by {
                    if b == ov.len() - 1 {
                        assert(before.to_set().contains(ov[a]));
                        let t = choose|t: int| 0 <= t < i && kv[t] == ov[a] && keeps(opts, ov[a]);
                        assert(seq_lt(kv[t], kv[i as int]));
                    }
                }
            }
        }
        proof {
            let ov = views_of(out@);
            assert forall|x: Seq<char>| ov.to_set().contains(x) == kept_prefix(kv, i + 1, opts).contains(x) by {
                if ov.to_set().contains(x) {
                    if keep && x == kv[i as int] {
                        assert(kept_prefix(kv, i + 1, opts).contains(x));
                    } else {
                        if keep {
                            let m = choose|m: int| 0 <= m < ov.len() && ov[m] == x;
                            if m < before.len() {
                                assert(before[m] == x);
                            }
                        }
                        assert(before.to_set().contains(x));
                        let a = choose|a: int| 0 <= a < i && kv[a] == x && keeps(opts, x);
                        assert(kept_prefix(kv, i + 1, opts).contains(x));
                    }
                }
                if kept_prefix(kv, i + 1, opts).contains(x) {
                    let a = choose|a: int| 0 <= a < i + 1 && kv[a] == x && keeps(opts, x);
                    if a < i {
                        assert(kept_prefix(kv, i as int, opts).contains(x));
                        let m = choose|m: int| 0 <= m < before.len() && before[m] == x;
                        if keep {
                            assert(ov[m] == x);
                        }
                    } else {
                        assert(ov[ov.len() - 1] == x);
                    }
                }
            }
            assert(ov.to_set() =~= kept_prefix(kv, i + 1, opts));
        }
        i = i + 1;
    }
    proof {
        assert forall|x: Seq<char>| kept_prefix(kv, kv.len() as int, opts).contains(x) == (kv.contains(x) && keeps(opts, x)) by {
            if kv.contains(x) && keeps(opts, x) {
                let a = choose|a: int| 0 <= a < kv.len() && kv[a] == x;
            }
        }
        assert(kept_prefix(kv, kv.len() as int, opts) =~= Set::new(
            |x: Seq<char>| kv.contains(x) && keeps(opts, x),
        ));
    }
    out
}

impl Graph {
    /// All paths reachable from `start` in one step or more, in increasing
    /// order, each once, without the `*.libsonnet` ones unless asked for.
    pub fn closure(&self, start: &RelPath, reverse: bool, opts: TraversalOpts) -> (res: Vec<RelPath>)
        requires
            self.wf(),
        ensures
            sorted_strict(views_of(res@)),
            views_of(res@).to_set() == closure_set(self.adjacency(reverse), start@, opts),
    {
        let ghost adj = self.adjacency(reverse);
        let ghost u = targets(adj);
        proof {
            self.lemma_targets_finite(reverse);
        }
        let mut seen: PathMap<()> = PathMap::new();
        let mut stack: Vec<RelPath> = self.neighbours(start, reverse);
        proof {
            lemma_search_start(adj, start@);
            assert(seen@.dom() =~= Set::<Seq<char>>::empty());
            reveal(all_found);
        }
        while stack.len() > 0
            invariant
                self.wf(),
                adj == self.adjacency(reverse),
                u == targets(adj),
                u.finite(),
                seen.wf(),
                all_found(adj, start@, u, seen@.dom()),
                all_found(adj, start@, u, views_of(stack@).to_set()),
                covered(adj, start@, seen@.dom(), views_of(stack@)),
            decreases u.len() - seen@.dom().len(), stack@.len(),
        {
            proof {
                reveal(all_found);
                assert(seen@.dom().subset_of(u));
                vstd::set_lib::lemma_len_subset(seen@.dom(), u);
            }
            let ghost old_sv = views_of(stack@);
            let p = stack.pop().unwrap();
            proof {
                assert(old_sv =~= views_of(stack@).push(p@));
            }
            if seen.contains_key(&p) {
                proof {
                    lemma_pop_seen(adj, start@, seen@.dom(), views_of(stack@), p@);
                    reveal(all_found);
                    assert forall|x: Seq<char>| #[trigger] views_of(stack@).to_set().contains(x) implies old_sv.to_set().contains(x) by {
                        let k = choose|k: int| 0 <= k < views_of(stack@).len() && views_of(stack@)[k] == x;
                        assert(old_sv[k] == x);
                    }
                }
            } else {
                let ghost old_seen = seen@.dom();
                let ghost mid = views_of(stack@);
                proof {
                    reveal(all_found);
                    assert(old_sv[old_sv.len() - 1] == p@);
                    assert(old_sv.to_set().contains(p@));
                    assert(u.contains(p@));
                    assert(!old_seen.contains(p@));
                }
                seen.insert(p.clone(), ());
                let ns = self.neighbours(&p, reverse);
                push_unseen(&seen, &ns, &mut stack);
                proof {
                    let fin = views_of(stack@);
                    let pushed = fin.subrange(mid.len() as int, fin.len() as int);
                    assert(fin =~= mid + pushed);
                    lemma_visit(adj, start@, old_seen, mid, p@, pushed);
                    assert(seen@.dom() == old_seen.insert(p@));
                    assert(old_seen.insert(p@).len() == old_seen.len() + 1);
                    reveal(all_found);
                    assert(seen@.dom().subset_of(u));
                    vstd::set_lib::lemma_len_subset(seen@.dom(), u);
                }
            }
        }
        proof {
            assert(views_of(stack@) =~= Seq::<Seq<char>>::empty());
            lemma_search_done(adj, start@, seen@.dom());
        }
        let keys = seen.keys_vec();
        let out = filter_kept(&keys, opts);
        proof {
            assert forall|x: Seq<char>| views_of(keys@).contains(x) == seen@.dom().contains(x) by {
                assert(views_of(keys@).to_set().contains(x) == views_of(keys@).contains(x));
            }
            assert(views_of(out@).to_set() =~= closure_set(adj, start@, opts));
        }
        out
    }
}


/// Every neighbour of every path lies in `u`.
pub open spec fn closed_under(adj: Map<Seq<char>, Seq<Seq<char>>>, u: Set<Seq<char>>) -> bool {
    forall|p: Seq<char>, y: Seq<char>| #[trigger] succ(adj, p).contains(y) ==> u.contains(y)
}

/// Putting a new path on the way down shrinks the set of paths that may
/// still be visited below it.
pub proof fn lemma_tree_measure_step(u: Set<Seq<char>>, on_path: Set<Seq<char>>, p: Seq<char>)
    requires
        u.finite(),
        !on_path.contains(p),
    ensures
        u.difference(on_path.insert(p)).len() < u.insert(p).difference(on_path).len(),
{
    let b = u.insert(p).difference(on_path);
    assert(u.difference(on_path.insert(p)) =~= b.remove(p));
    assert(b.contains(p));
    assert(b.subset_of(u.insert(p)));
    vstd::set_lib::lemma_len_subset(b, u.insert(p));
}

/// The dependency tree below `path`, given the paths `on_path` already on the
/// way down from the root: a path already on the way is a leaf marked as a
/// cycle; otherwise its children are the trees of its neighbours, where (when
/// `with_lib` is false) a `*.libsonnet` child is replaced by its own children.
pub open spec fn tree_of(
    adj: Map<Seq<char>, Seq<Seq<char>>>,
    u: Set<Seq<char>>,
    path: Seq<char>,
    on_path: Set<Seq<char>>,
    with_lib: bool,
) -> TreeView
    decreases u.insert(path).difference(on_path).len(), 0nat,
    when u.finite() && closed_under(adj, u)
{
    if on_path.contains(path) {
        TreeView { path, children: Seq::empty(), cycle: true }
    } else {
        proof {
            lemma_tree_measure_step(u, on_path, path);
        }
        TreeView {
            path,
            children: children_of(adj, u, succ(adj, path), on_path.insert(path), with_lib),
            cycle: false,
        }
    }
}

/// The children contributed by the neighbours `kids`, in order.
pub open spec fn children_of(
    adj: Map<Seq<char>, Seq<Seq<char>>>,
    u: Set<Seq<char>>,
    kids: Seq<Seq<char>>,
    on_path: Set<Seq<char>>,
    with_lib: bool,
) -> Seq<TreeView>
    decreases u.difference(on_path).len(), kids.len() + 1,
    when u.finite() && closed_under(adj, u) && (forall|i: int| 0 <= i < kids.len() ==> u.contains(#[trigger] kids[i]))
{
    if kids.len() == 0 {
        Seq::empty()
    } else {
        proof {
            assert(u.insert(kids.last()) =~= u);
        }
        let rest = children_of(adj, u, kids.drop_last(), on_path, with_lib);
        let child = tree_of(adj, u, kids.last(), on_path, with_lib);
        if with_lib || !is_libsonnet(kids.last()) {
            rest.push(child)
        } else {
            rest + child.children
        }
    }
}

proof fn lemma_targets_closed(adj: Map<Seq<char>, Seq<Seq<char>>>)
    ensures
        closed_under(adj, targets(adj)),
{
    assert forall|p: Seq<char>, y: Seq<char>| #[trigger] succ(adj, p).contains(y) implies targets(adj).contains(y) by {
        lemma_succ_in_targets(adj, p, y);
    }
}

impl Graph {
    /// The dependency tree below `start`, each path ending where it would
    /// repeat a path above it (marked as a cycle).
    pub fn tree(&self, start: &RelPath, reverse: bool, opts: TraversalOpts) -> (res: TreeNode)
        requires
            self.wf(),
        ensures
            res@ == tree_of(
                self.adjacency(reverse),
                targets(self.adjacency(reverse)),
                start@,
                Set::empty(),
                opts.include_libsonnet,
            ),
    {
        let mut on_path: Vec<RelPath> = Vec::new();
        assert(views_of(on_path@).to_set() =~= Set::<Seq<char>>::empty());
        self.tree_inner(start, reverse, opts, &mut on_path)
    }

    fn tree_inner(
        &self,
        path: &RelPath,
        reverse: bool,
        opts: TraversalOpts,
        on_path: &mut Vec<RelPath>,
    ) -> (res: TreeNode)
        requires
            self.wf(),
        ensures
            final(on_path)@ == old(on_path)@,
            res@ == tree_of(
                self.adjacency(reverse),
                targets(self.adjacency(reverse)),
                path@,
                views_of(old(on_path)@).to_set(),
                opts.include_libsonnet,
            ),
        decreases targets(self.adjacency(reverse)).insert(path@).difference(
            views_of(old(on_path)@).to_set(),
        ).len(),
    {
        let ghost adj = self.adjacency(reverse);
        let ghost u = targets(adj);
        let ghost on = views_of(on_path@).to_set();
        let ghost inc = opts.include_libsonnet;
        proof {
            self.lemma_targets_finite(reverse);
            lemma_targets_closed(adj);
        }
        if contains_path(on_path, path) {
            let res = TreeNode { path: path.clone(), children: Vec::new(), cycle: true };
            assert(res@.children =~= Seq::<TreeView>::empty());
            return res;
        }
        let ghost saved = on_path@;
        on_path.push(path.clone());
        proof {
            assert(views_of(on_path@) =~= views_of(saved).push(path@));
            assert(views_of(on_path@).to_set() =~= on.insert(path@));
        }
        let kids = self.neighbours(path, reverse);
        let ghost kv = views_of(kids@);
        proof {
            lemma_tree_measure_step(u, on, path@);
            assert(kv.take(0) =~= Seq::<Seq<char>>::empty());
            assert forall|i: int| 0 <= i < kv.len() implies u.contains(#[trigger] kv[i]) by {
                assert(succ(adj, path@).contains(kv[i]));
            }
        }
        let mut children: Vec<TreeNode> = Vec::new();
        let mut k: usize = 0;
        while k < kids.len()
            invariant
                self.wf(),
                adj == self.adjacency(reverse),
                u == targets(adj),
                u.finite(),
                closed_under(adj, u),
                inc == opts.include_libsonnet,
                !on.contains(path@),
                kv == views_of(kids@),
                kv == succ(adj, path@),
                forall|i: int| 0 <= i < kv.len() ==> u.contains(#[trigger] kv[i]),
                on == views_of(old(on_path)@).to_set(),
                views_of(on_path@).to_set() == on.insert(path@),
                on_path@.len() == saved.len() + 1,
                on_path@.subrange(0, saved.len() as int) == saved,
                k <= kids@.len(),
                tree_views(children@) == children_of(adj, u, kv.take(k as int), on.insert(path@), inc),
                targets(self.adjacency(reverse)).insert(path@).difference(on).len() > u.difference(
                    on.insert(path@),
                ).len(),
            decreases kids@.len() - k,
        {
            proof {
                assert(succ(adj, path@).contains(kv[k as int]));
                assert(u.contains(kv[k as int]));
                assert(u.insert(kv[k as int]) =~= u);
                assert(targets(self.adjacency(reverse)).insert(kids@[k as int]@).difference(
                    views_of(on_path@).to_set(),
                ) =~= u.difference(on.insert(path@)));
            }
            let child = self.tree_inner(&kids[k], reverse, opts, on_path);
            let ghost cv = child@;
            let ghost before = children@;
            proof {
                let t = kv.take(k + 1);
                assert(t.drop_last() =~= kv.take(k as int));
                assert(t.last() == kv[k as int]);
                assert forall|i: int| 0 <= i < t.len() implies u.contains(#[trigger] t[i]) by {
                    assert(t[i] == kv[i]);
                }
                assert forall|i: int| 0 <= i < t.drop_last().len() implies u.contains(#[trigger] t.drop_last()[i]) by {
                    assert(t.drop_last()[i] == kv[i]);
                }
            }
            if opts.include_libsonnet || !kids[k].has_libsonnet_extension() {
                children.push(child);
                proof {
                    assert(tree_views(children@) =~= tree_views(before).push(cv));
                }
            } else {
                let mut grand = child.children;
                assert(tree_views(grand@) =~= cv.children);
                children.append(&mut grand);
                proof {
                    assert(tree_views(children@) =~= tree_views(before) + cv.children);
                }
            }
            k = k + 1;
        }
        let _ = on_path.pop();
        proof {
            assert(on_path@ =~= saved);
            assert(kv.take(kids@.len() as int) =~= kv);
        }
        let res = TreeNode { path: path.clone(), children, cycle: false };
        proof {
            assert(res@.children =~= tree_views(children@));
        }
        res
    }
}


/// Each edge of one map is an edge of the other, reversed.
pub open spec fn is_converse(
    fwd: Map<Seq<char>, Seq<Seq<char>>>,
    rev: Map<Seq<char>, Seq<Seq<char>>>,
) -> bool {
    forall|x: Seq<char>, y: Seq<char>|
        #[trigger] succ(fwd, x).contains(y) <==> #[trigger] succ(rev, y).contains(x)
}

/// In the graph of a cache, `d` is a forward neighbour of `p` exactly when
/// `p` is a reverse neighbour of `d`: both say that `p` imports `d`.
pub proof fn law_reverse_is_converse(
    c: Map<Seq<char>, FileEntryView>,
    fwd: Map<Seq<char>, Seq<Seq<char>>>,
    rev: Map<Seq<char>, Seq<Seq<char>>>,
)
    requires
        is_forward_index(c, fwd),
        is_reverse_index(c, rev),
    ensures
        is_converse(fwd, rev),
        forall|p: Seq<char>, d: Seq<char>|
            #[trigger] succ(fwd, p).contains(d) <==> c.dom().contains(p) && c[p].imports.contains(d),
{
    assert forall|x: Seq<char>, y: Seq<char>| #[trigger] succ(fwd, x).contains(y) <==> c.dom().contains(x)
        && c[x].imports.contains(y) by {
        if fwd.dom().contains(x) {
            assert(fwd[x].to_set().contains(y) == fwd[x].contains(y));
            assert(c[x].imports.to_set().contains(y) == c[x].imports.contains(y));
        }
    }
    assert forall|x: Seq<char>, y: Seq<char>| #[trigger] succ(rev, y).contains(x) <==> c.dom().contains(x)
        && c[x].imports.contains(y) by {
        if rev.dom().contains(y) {
            assert(rev[y].to_set().contains(x) == rev[y].contains(x));
            assert(importers_of(c, y).contains(x) == (c.dom().contains(x) && c[x].imports.contains(y)));
        } else {
            if c.dom().contains(x) && c[x].imports.contains(y) {
                assert(imported_paths(c).contains(y));
            }
        }
    }
}

/// A walk reversed along a converse map.
proof fn lemma_reverse_walk(
    fwd: Map<Seq<char>, Seq<Seq<char>>>,
    rev: Map<Seq<char>, Seq<Seq<char>>>,
    p: Seq<char>,
    q: Seq<char>,
)
    requires
        is_converse(fwd, rev),
        reachable(fwd, p, q),
    ensures
        reachable(rev, q, p),
{
    let w = choose|w: Seq<Seq<char>>| #[trigger] is_walk(fwd, p, w) && w.last() == q;
    let n = w.len() as int;
    let w2 = Seq::new(n as nat, |i: int| if i < n - 1 { w[n - 2 - i] } else { p });
    if n == 1 {
        assert(succ(fwd, p).contains(w[0]));
        assert(succ(rev, q).contains(p));
    } else {
        assert(succ(fwd, w[n - 2]).contains(w[n - 1]));
        assert(succ(rev, q).contains(w[n - 2]));
    }
    assert(succ(rev, q).contains(w2[0]));
    assert forall|i: int| 0 <= i < w2.len() - 1 implies succ(rev, #[trigger] w2[i]).contains(w2[i + 1]) by {
        if i + 1 < n - 1 {
            assert(succ(fwd, w[n - 3 - i]).contains(w[n - 3 - i + 1]));
        } else {
            assert(succ(fwd, p).contains(w[0]));
        }
    }
    assert(is_walk(rev, q, w2));
    assert(w2.last() == p);
}

/// In the graph of a cache, `q` is among the dependencies of `p` exactly when
/// `p` is among the reverse dependencies of `q`.
pub proof fn law_reverse_closure_mirrors_forward(
    c: Map<Seq<char>, FileEntryView>,
    fwd: Map<Seq<char>, Seq<Seq<char>>>,
    rev: Map<Seq<char>, Seq<Seq<char>>>,
    p: Seq<char>,
    q: Seq<char>,
)
    requires
        is_forward_index(c, fwd),
        is_reverse_index(c, rev),
    ensures
        closure_set(fwd, p, TraversalOpts { include_libsonnet: true }).contains(q) == closure_set(
            rev,
            q,
            TraversalOpts { include_libsonnet: true },
        ).contains(p),
{
    law_reverse_is_converse(c, fwd, rev);
    if reachable(fwd, p, q) {
        lemma_reverse_walk(fwd, rev, p, q);
    }
    if reachable(rev, q, p) {
        assert(is_converse(rev, fwd));
        lemma_reverse_walk(rev, fwd, q, p);
    }
}

/// Leaving out `*.libsonnet` files only filters the output: what remains is
/// the full closure without them, including what lies beyond them.
pub proof fn law_no_libsonnet_only_filters(adj: Map<Seq<char>, Seq<Seq<char>>>, start: Seq<char>)
    ensures
        closure_set(adj, start, TraversalOpts { include_libsonnet: false }) == closure_set(
            adj,
            start,
            TraversalOpts { include_libsonnet: true },
        ).filter(|q: Seq<char>| !is_libsonnet(q)),
{
    assert(closure_set(adj, start, TraversalOpts { include_libsonnet: false }) =~= closure_set(
        adj,
        start,
        TraversalOpts { include_libsonnet: true },
    ).filter(|q: Seq<char>| !is_libsonnet(q)));
}

/// The root of a tree is the start path and is never marked as a cycle.
pub proof fn law_tree_root(
    adj: Map<Seq<char>, Seq<Seq<char>>>,
    start: Seq<char>,
    with_lib: bool,
)
    requires
        targets(adj).finite(),
    ensures
        tree_of(adj, targets(adj), start, Set::empty(), with_lib).path == start,
        !tree_of(adj, targets(adj), start, Set::empty(), with_lib).cycle,
{
    lemma_targets_closed(adj);
}

/// The paths of a tree: its own and those below it.
pub open spec fn tree_paths(t: TreeView) -> Set<Seq<char>>
    decreases t, 0nat,
{
    set![t.path].union(forest_paths(t.children))
}

/// The paths of a sequence of trees.
pub open spec fn forest_paths(ts: Seq<TreeView>) -> Set<Seq<char>>
    decreases ts, ts.len(),
{
    if ts.len() == 0 {
        Set::empty()
    } else {
        forest_paths(ts.drop_last()).union(tree_paths(ts.last()))
    }
}

proof fn lemma_forest_paths_concat(a: Seq<TreeView>, b: Seq<TreeView>)
    ensures
        forest_paths(a + b) == forest_paths(a).union(forest_paths(b)),
    decreases b.len(),
{
    if b.len() == 0 {
        assert(a + b =~= a);
        assert(forest_paths(a).union(Set::empty()) =~= forest_paths(a));
    } else {
        lemma_forest_paths_concat(a, b.drop_last());
        assert((a + b).drop_last() =~= a + b.drop_last());
        assert((a + b).last() == b.last());
        assert(forest_paths(a + b) =~= forest_paths(a).union(forest_paths(b)));
    }
}

/// `w` is a walk from `p` to `q` whose steps before the last avoid `on` and
/// `p` itself.
spec fn avoiding_walk(
    adj: Map<Seq<char>, Seq<Seq<char>>>,
    p: Seq<char>,
    on: Set<Seq<char>>,
    w: Seq<Seq<char>>,
    q: Seq<char>,
) -> bool {
    &&& is_walk(adj, p, w)
    &&& w.last() == q
    &&& forall|j: int| 0 <= j < w.len() - 1 ==> !on.contains(#[trigger] w[j]) && w[j] != p
}

/// The end points of the walks from `p` that avoid `on` and `p` before
/// their last step.
spec fn walks_avoiding(
    adj: Map<Seq<char>, Seq<Seq<char>>>,
    p: Seq<char>,
    on: Set<Seq<char>>,
) -> Set<Seq<char>> {
    Set::new(|q: Seq<char>| exists|w: Seq<Seq<char>>| #[trigger] avoiding_walk(adj, p, on, w, q))
}

/// `q` is the neighbour `kids[i]`, or lies beyond it by a walk avoiding `on`
/// (when `kids[i]` is not in `on`).
spec fn via_kid(
    adj: Map<Seq<char>, Seq<Seq<char>>>,
    kids: Seq<Seq<char>>,
    on: Set<Seq<char>>,
    i: int,
    q: Seq<char>,
) -> bool {
    &&& 0 <= i < kids.len()
    &&& (kids[i] == q || (!on.contains(kids[i]) && walks_avoiding(adj, kids[i], on).contains(q)))
}

/// A walk from `y` whose steps before the last avoid `s` can be cut so that
/// they avoid `y` too.
proof fn lemma_shorten_walk(
    adj: Map<Seq<char>, Seq<Seq<char>>>,
    y: Seq<char>,
    w: Seq<Seq<char>>,
    s: Set<Seq<char>>,
) -> (w2: Seq<Seq<char>>)
    requires
        is_walk(adj, y, w),
        forall|j: int| 0 <= j < w.len() - 1 ==> !s.contains(#[trigger] w[j]),
    ensures
        avoiding_walk(adj, y, s, w2, w.last()),
    decreases w.len(),
{
    if exists|j: int| 0 <= j < w.len() - 1 && #[trigger] w[j] == y {
        let j = choose|j: int| 0 <= j < w.len() - 1 && #[trigger] w[j] == y;
        let w1 = w.skip(j + 1);
        assert(succ(adj, w[j]).contains(w[j + 1]));
        assert(w1[0] == w[j + 1]);
        assert forall|i: int| 0 <= i < w1.len() - 1 implies succ(adj, #[trigger] w1[i]).contains(w1[i + 1]) by {
            assert(w1[i] == w[j + 1 + i]);
            assert(w1[i + 1] == w[j + 1 + i + 1]);
            assert(succ(adj, w[j + 1 + i]).contains(w[j + 1 + i + 1]));
        }
        assert(is_walk(adj, y, w1));
        assert forall|i: int| 0 <= i < w1.len() - 1 implies !s.contains(#[trigger] w1[i]) by {
            assert(w1[i] == w[j + 1 + i]);
        }
        assert(w1.last() == w.last());
        lemma_shorten_walk(adj, y, w1, s)
    } else {
        w
    }
}

/// The end points of such walks from `p` are its neighbours, and the end
/// points of such walks from the neighbours that are not on the way.
proof fn lemma_first_steps(adj: Map<Seq<char>, Seq<Seq<char>>>, p: Seq<char>, on: Set<Seq<char>>, q: Seq<char>)
    requires
        !on.contains(p),
    ensures
        walks_avoiding(adj, p, on).contains(q) == (exists|i: int| #[trigger] via_kid(adj, succ(adj, p), on.insert(p), i, q)),
{
    let ks = succ(adj, p);
    let on2 = on.insert(p);
    if walks_avoiding(adj, p, on).contains(q) {
        let w = choose|w: Seq<Seq<char>>| #[trigger] avoiding_walk(adj, p, on, w, q);
        let y = w[0];
        assert(ks.contains(y));
        let i = choose|i: int| 0 <= i < ks.len() && ks[i] == y;
        if w.len() == 1 {
            assert(via_kid(adj, ks, on2, i, q));
        } else {
            assert(!on.contains(w[0]) && w[0] != p);
            let rest = w.drop_first();
            assert forall|k: int| 0 <= k < rest.len() - 1 implies succ(adj, #[trigger] rest[k]).contains(rest[k + 1]) by {
                assert(succ(adj, w[k + 1]).contains(w[k + 2]));
            }
            assert(succ(adj, y).contains(rest[0])) by {
                assert(succ(adj, w[0]).contains(w[1]));
            }
            assert(is_walk(adj, y, rest));
            assert forall|k: int| 0 <= k < rest.len() - 1 implies !on2.contains(#[trigger] rest[k]) by {
                assert(rest[k] == w[k + 1]);
            }
            let w2 = lemma_shorten_walk(adj, y, rest, on2);
            assert(walks_avoiding(adj, y, on2).contains(q));
            assert(via_kid(adj, ks, on2, i, q));
        }
    }
    if exists|i: int| #[trigger] via_kid(adj, ks, on2, i, q) {
        let i = choose|i: int| #[trigger] via_kid(adj, ks, on2, i, q);
        let y = ks[i];
        assert(succ(adj, p).contains(y));
        if y == q {
            let w = seq![y];
            assert(is_walk(adj, p, w));
            assert(avoiding_walk(adj, p, on, w, q));
        } else {
            let w = choose|w: Seq<Seq<char>>| #[trigger] avoiding_walk(adj, y, on2, w, q);
            let w2 = seq![y] + w;
            assert(w2[0] == y);
            assert forall|k: int| 0 <= k < w2.len() - 1 implies succ(adj, #[trigger] w2[k]).contains(w2[k + 1]) by {
                if k == 0 {
                    assert(w2[1] == w[0]);
                } else {
                    assert(w2[k] == w[k - 1]);
                    assert(w2[k + 1] == w[k]);
                    assert(succ(adj, w[k - 1]).contains(w[k]));
                }
            }
            assert(is_walk(adj, p, w2));
            assert(w2.last() == q);
            assert forall|j: int| 0 <= j < w2.len() - 1 implies !on.contains(#[trigger] w2[j]) && w2[j] != p by {
                if j > 0 {
                    assert(w2[j] == w[j - 1]);
                }
            }
            assert(avoiding_walk(adj, p, on, w2, q));
        }
    }
}

/// The paths below a tree's root are the end points of the walks from it that
/// avoid the paths on the way, those of `*.libsonnet` files left out when
/// `with_lib` is false.
proof fn lemma_tree_below(
    adj: Map<Seq<char>, Seq<Seq<char>>>,
    u: Set<Seq<char>>,
    p: Seq<char>,
    on: Set<Seq<char>>,
    with_lib: bool,
)
    requires
        u.finite(),
        closed_under(adj, u),
        !on.contains(p),
    ensures
        forest_paths(tree_of(adj, u, p, on, with_lib).children) == Set::new(
            |q: Seq<char>| (with_lib || !is_libsonnet(q)) && walks_avoiding(adj, p, on).contains(q),
        ),
    decreases u.insert(p).difference(on).len(), 0nat,
{
    lemma_tree_measure_step(u, on, p);
    let ks = succ(adj, p);
    let on2 = on.insert(p);
    assert forall|i: int| 0 <= i < ks.len() implies u.contains(#[trigger] ks[i]) by {
        assert(succ(adj, p).contains(ks[i]));
    }
    assert(tree_of(adj, u, p, on, with_lib).children == children_of(adj, u, ks, on2, with_lib));
    lemma_children_below(adj, u, ks, on2, with_lib);
    let lhs = forest_paths(tree_of(adj, u, p, on, with_lib).children);
    let rhs = Set::new(
        |q: Seq<char>| (with_lib || !is_libsonnet(q)) && walks_avoiding(adj, p, on).contains(q),
    );
    assert forall|q: Seq<char>| #[trigger] lhs.contains(q) == rhs.contains(q) by {
        lemma_first_steps(adj, p, on, q);
    }
    assert(lhs =~= rhs);
}

/// The paths of the children contributed by the neighbours `kids`.
proof fn lemma_children_below(
    adj: Map<Seq<char>, Seq<Seq<char>>>,
    u: Set<Seq<char>>,
    kids: Seq<Seq<char>>,
    on: Set<Seq<char>>,
    with_lib: bool,
)
    requires
        u.finite(),
        closed_under(adj, u),
        forall|i: int| 0 <= i < kids.len() ==> u.contains(#[trigger] kids[i]),
    ensures
        forest_paths(children_of(adj, u, kids, on, with_lib)) == Set::new(
            |q: Seq<char>|
                (with_lib || !is_libsonnet(q)) && exists|i: int| #[trigger] via_kid(adj, kids, on, i, q),
        ),
    decreases u.difference(on).len(), kids.len() + 1,
{
    let want = Set::new(
        |q: Seq<char>|
            (with_lib || !is_libsonnet(q)) && exists|i: int| #[trigger] via_kid(adj, kids, on, i, q),
    );
    if kids.len() == 0 {
        assert(forest_paths(children_of(adj, u, kids, on, with_lib)) =~= want);
    } else {
        let init = kids.drop_last();
        let n = init.len() as int;
        let y = kids.last();
        assert forall|i: int| 0 <= i < init.len() implies u.contains(#[trigger] init[i]) by {
            assert(init[i] == kids[i]);
        }
        assert(u.contains(kids[kids.len() - 1]));
        assert(u.insert(y) =~= u);
        lemma_children_below(adj, u, init, on, with_lib);
        let rest = children_of(adj, u, init, on, with_lib);
        let child = tree_of(adj, u, y, on, with_lib);
        if on.contains(y) {
            assert(child.children =~= Seq::<TreeView>::empty());
            assert(forest_paths(child.children) =~= Set::<Seq<char>>::empty());
        } else {
            lemma_tree_below(adj, u, y, on, with_lib);
        }
        if with_lib || !is_libsonnet(y) {
            assert(children_of(adj, u, kids, on, with_lib) == rest.push(child));
            assert(rest.push(child).drop_last() =~= rest);
            assert(forest_paths(rest.push(child)) == forest_paths(rest).union(tree_paths(child)));
        } else {
            assert(children_of(adj, u, kids, on, with_lib) == rest + child.children);
            lemma_forest_paths_concat(rest, child.children);
        }
        assert forall|q: Seq<char>| forest_paths(children_of(adj, u, kids, on, with_lib)).contains(q) == want.contains(q) by {
            assert forall|i: int| 0 <= i < n implies via_kid(adj, init, on, i, q) == #[trigger] via_kid(adj, kids, on, i, q) by {
                assert(init[i] == kids[i]);
            }
            assert(kids[n] == y);
            if exists|i: int| #[trigger] via_kid(adj, kids, on, i, q) {
                let i = choose|i: int| #[trigger] via_kid(adj, kids, on, i, q);
                if i < n {
                    assert(via_kid(adj, init, on, i, q));
                }
            }
            if exists|i: int| #[trigger] via_kid(adj, init, on, i, q) {
                let i = choose|i: int| #[trigger] via_kid(adj, init, on, i, q);
                assert(via_kid(adj, kids, on, i, q));
            }
            if via_kid(adj, kids, on, n, q) {
            }
        }
        assert(forest_paths(children_of(adj, u, kids, on, with_lib)) =~= want);
    }
}

/// The paths below the root of a dependency tree are exactly the paths of the
/// closure query with the same options: everything reachable from the start,
/// and no `*.libsonnet` path when those are left out (a left-out node's
/// children take its place).
pub proof fn law_tree_nodes_are_closure(
    adj: Map<Seq<char>, Seq<Seq<char>>>,
    start: Seq<char>,
    with_lib: bool,
)
    requires
        targets(adj).finite(),
    ensures
        forest_paths(tree_of(adj, targets(adj), start, Set::empty(), with_lib).children) == closure_set(
            adj,
            start,
            TraversalOpts { include_libsonnet: with_lib },
        ),
{
    let u = targets(adj);
    lemma_targets_closed(adj);
    lemma_tree_below(adj, u, start, Set::empty(), with_lib);
    assert forall|q: Seq<char>| walks_avoiding(adj, start, Set::empty()).contains(q) == reachable(adj, start, q) by {
        if reachable(adj, start, q) {
            let w = choose|w: Seq<Seq<char>>| #[trigger] is_walk(adj, start, w) && w.last() == q;
            let w2 = lemma_shorten_walk(adj, start, w, Set::empty());
            assert(avoiding_walk(adj, start, Set::empty(), w2, q));
        }
        if walks_avoiding(adj, start, Set::empty()).contains(q) {
            let w = choose|w: Seq<Seq<char>>| #[trigger] avoiding_walk(adj, start, Set::empty(), w, q);
            assert(is_walk(adj, start, w) && w.last() == q);
        }
    }
    assert(forest_paths(tree_of(adj, u, start, Set::empty(), with_lib).children) =~= closure_set(
        adj,
        start,
        TraversalOpts { include_libsonnet: with_lib },
    ));
}

} // verus!
