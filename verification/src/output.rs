//! Output of the `tree` / `list` subcommands: paths rendered in the requested
//! style, text listings, and the structures written out as JSON.

use vstd::prelude::*;

use crate::graph::{tree_paths, forest_paths, tree_views, TreeNode, TreeView};
use crate::paths::{joined, styled, views_of, PathStyle, RelPath, Root};
use crate::text::{push_char, string_views};

verus! {

broadcast use vstd::seq_lib::group_seq_properties;

/// How results are written.
#[derive(Debug, Clone, Copy, PartialEq, Eq, Structural)]
pub enum OutputFormat {
    TextNewline,
    TextNul,
    Json,
}

/// A root-relative path as the user sees it: joined onto the root, then
/// written in the requested style (absolute when that fails).
pub open spec fn rendered(root: Seq<char>, cwd: Seq<char>, style: PathStyle, rel: Seq<char>) -> Seq<char> {
    let abs = joined(root, rel);
    match styled(root, abs, style, cwd) {
        Some(s) => s,
        None => abs,
    }
}

/// Renders an internal [`RelPath`] (always root-relative) into the user-facing
/// string according to the requested [`PathStyle`]. The renderer owns the
/// canonical `root` and `cwd` so the formatting layer is free of the
/// environment.
pub struct PathRenderer<'a> {
    root: &'a Root,
    cwd: String,
    style: PathStyle,
}

impl<'a> PathRenderer<'a> {
    pub closed spec fn root_view(&self) -> Seq<char> {
        self.root@
    }

    pub closed spec fn cwd_view(&self) -> Seq<char> {
        self.cwd@
    }

    pub closed spec fn style_view(&self) -> PathStyle {
        self.style
    }

    /// What the renderer writes for `rel`.
    pub open spec fn shows(&self, rel: Seq<char>) -> Seq<char> {
        rendered(self.root_view(), self.cwd_view(), self.style_view(), rel)
    }

    pub fn new(root: &'a Root, cwd: &str, style: PathStyle) -> (res: Self)
        ensures
            res.root_view() == root@,
            res.cwd_view() == cwd@,
            res.style_view() == style,
    {
        PathRenderer { root, cwd: cwd.to_owned(), style }
    }

    pub fn render(&self, rel: &RelPath) -> (res: String)
        ensures
            res@ == self.shows(rel@),
    {
        let abs = self.root.absolutise(rel);
        match self.root.render(abs.as_str(), self.style, self.cwd.as_str()) {
            Ok(s) => s,
            Err(_) => abs,
        }
    }
}


/// The JSON form of one queried file and its dependencies.
#[derive(Debug)]
pub struct ListRoot {
    pub path: String,
    pub deps: Vec<String>,
}

/// The JSON form of a `list` result.
#[derive(Debug)]
pub struct ListOutput {
    pub roots: Vec<ListRoot>,
}

/// The JSON form of a tree node (`cycle` is left out of the JSON when false).
#[derive(Debug)]
pub struct TreeJson {
    pub path: String,
    pub cycle: bool,
    pub children: Vec<TreeJson>,
}

/// The JSON form of a `tree` result.
#[derive(Debug)]
pub struct TreeOutput {
    pub roots: Vec<TreeJson>,
}

/// What is written: text, or a structure to be written as JSON.
#[derive(Debug)]
pub enum Rendered {
    Text(String),
    List(ListOutput),
    Tree(TreeOutput),
}

/// Output that cannot be produced.
#[derive(Debug, PartialEq, Eq, Structural)]
pub enum OutputError {
    /// A tree cannot be written with NUL separators.
    TreeWithNul,
}

/// The shape and values of a JSON tree, its paths as written.
pub open spec fn tree_json_view(t: TreeJson) -> TreeView
    decreases t,
{
    TreeView {
        path: t.path@,
        children: Seq::new(
            t.children@.len(),
            |i: int|
                {
                    if 0 <= i < t.children@.len() {
                        tree_json_view(t.children@[i])
                    } else {
                        TreeView { path: Seq::empty(), children: Seq::empty(), cycle: false }
                    }
                },
        ),
        cycle: t.cycle,
    }
}

/// The separator written after each path of a text listing.
pub open spec fn separator(fmt: OutputFormat) -> char {
    if fmt == OutputFormat::TextNul {
        '\0'
    } else {
        '\n'
    }
}

/// The dependency lists of the listed items.
pub open spec fn listed_deps(items: Seq<(RelPath, Vec<RelPath>)>) -> Seq<Seq<Seq<char>>> {
    items.map_values(|it: (RelPath, Vec<RelPath>)| views_of(it.1@))
}

impl<'a> PathRenderer<'a> {
    /// Each path of `deps` as shown, followed by `sep`.
    pub open spec fn lines(&self, deps: Seq<Seq<char>>, sep: char) -> Seq<char>
        decreases deps.len(),
    {
        if deps.len() == 0 {
            Seq::empty()
        } else {
            self.lines(deps.drop_last(), sep) + self.shows(deps.last()) + seq![sep]
        }
    }

    /// The lines of all dependency lists, one after the other.
    pub open spec fn listing(&self, lists: Seq<Seq<Seq<char>>>, sep: char) -> Seq<char>
        decreases lists.len(),
    {
        if lists.len() == 0 {
            Seq::empty()
        } else {
            self.listing(lists.drop_last(), sep) + self.lines(lists.last(), sep)
        }
    }

    /// The tree with each path as shown.
    pub open spec fn shown_tree(&self, t: TreeView) -> TreeView
        decreases t,
    {
        TreeView {
            path: self.shows(t.path),
            children: Seq::new(
                t.children.len(),
                |i: int|
                    {
                        if 0 <= i < t.children.len() {
                            self.shown_tree(t.children[i])
                        } else {
                            TreeView { path: Seq::empty(), children: Seq::empty(), cycle: false }
                        }
                    },
            ),
            cycle: t.cycle,
        }
    }

    /// The text of a tree: a line per node, indented two spaces per level,
    /// cycle nodes marked ` (cycle)`.
    pub open spec fn tree_text(&self, t: TreeView, indent: Seq<char>) -> Seq<char>
        decreases t, 0nat,
    {
        indent + self.shows(t.path) + (if t.cycle {
            " (cycle)"@
        } else {
            Seq::empty()
        }) + seq!['\n'] + self.forest_text(t.children, indent + seq![' ', ' '])
    }

    /// The texts of the trees, one after the other.
    pub open spec fn forest_text(&self, ts: Seq<TreeView>, indent: Seq<char>) -> Seq<char>
        decreases ts, ts.len(),
    {
        if ts.len() == 0 {
            Seq::empty()
        } else {
            self.forest_text(ts.drop_last(), indent) + self.tree_text(ts.last(), indent)
        }
    }
}


/// The rendered paths of `deps`.
fn render_all(deps: &Vec<RelPath>, renderer: &PathRenderer) -> (res: Vec<String>)
    ensures
        string_views(res@) == views_of(deps@).map_values(|p: Seq<char>| renderer.shows(p)),
{
    let mut out: Vec<String> = Vec::new();
    let mut i: usize = 0;
    while i < deps.len()
        invariant
            i <= deps@.len(),
            string_views(out@) == views_of(deps@).take(i as int).map_values(|p: Seq<char>| renderer.shows(p)),
        decreases deps@.len() - i,
    {
        let r = renderer.render(&deps[i]);
        let ghost before = out@;
        out.push(r);
        assert(string_views(out@) =~= string_views(before).push(r@));
        assert(views_of(deps@).take(i + 1).map_values(|p: Seq<char>| renderer.shows(p)) =~= views_of(
            deps@,
        ).take(i as int).map_values(|p: Seq<char>| renderer.shows(p)).push(renderer.shows(deps@[i as int]@)));
        i = i + 1;
    }
    assert(views_of(deps@).take(deps@.len() as int) =~= views_of(deps@));
    out
}

/// Appends the lines of `deps` to `out`.
fn append_lines(out: &mut String, deps: &Vec<RelPath>, renderer: &PathRenderer, sep: char)
    ensures
        final(out)@ == old(out)@ + renderer.lines(views_of(deps@), sep),
{
    let ghost start = out@;
    let ghost dv = views_of(deps@);
    let mut i: usize = 0;
    assert(dv.take(0) =~= Seq::<Seq<char>>::empty());
    assert(start + Seq::<char>::empty() =~= start);
    while i < deps.len()
        invariant
            i <= deps@.len(),
            dv == views_of(deps@),
            out@ == start + renderer.lines(dv.take(i as int), sep),
        decreases deps@.len() - i,
    {
        let r = renderer.render(&deps[i]);
        out.append(r.as_str());
        push_char(out, sep);
        assert(dv.take(i + 1).drop_last() =~= dv.take(i as int));
        assert(out@ =~= start + renderer.lines(dv.take(i + 1), sep));
        i = i + 1;
    }
    assert(dv.take(deps@.len() as int) =~= dv);
}

/// The flat dependency lists: as text, each dependency followed by the
/// separator of the format; as JSON, each queried file with its dependencies.
pub fn render_list(
    items: &Vec<(RelPath, Vec<RelPath>)>,
    renderer: &PathRenderer,
    fmt: OutputFormat,
) -> (res: Rendered)
    ensures
        fmt == OutputFormat::Json ==> (res matches Rendered::List(l) && l.roots@.len() == items@.len()
            && forall|i: int|
            0 <= i < items@.len() ==> (#[trigger] l.roots@[i]).path@ == renderer.shows(items@[i].0@)
                && string_views(l.roots@[i].deps@) == views_of(items@[i].1@).map_values(
                |p: Seq<char>| renderer.shows(p),
            )),
        fmt != OutputFormat::Json ==> (res matches Rendered::Text(t) && t@ == renderer.listing(
            listed_deps(items@),
            separator(fmt),
        )),
{
    if fmt == OutputFormat::Json {
        let mut roots: Vec<ListRoot> = Vec::new();
        let mut i: usize = 0;
        while i < items.len()
            invariant
                i <= items@.len(),
                roots@.len() == i,
                forall|k: int|
                    0 <= k < i ==> (#[trigger] roots@[k]).path@ == renderer.shows(items@[k].0@)
                        && string_views(roots@[k].deps@) == views_of(items@[k].1@).map_values(
                        |p: Seq<char>| renderer.shows(p),
                    ),
            decreases items@.len() - i,
        {
            let path = renderer.render(&items[i].0);
            let deps = render_all(&items[i].1, renderer);
            roots.push(ListRoot { path, deps });
            i = i + 1;
        }
        Rendered::List(ListOutput { roots })
    } else {
        let sep = if fmt == OutputFormat::TextNul {
            '\0'
        } else {
            '\n'
        };
        let ghost lists = listed_deps(items@);
        let mut out = String::new();
        let mut i: usize = 0;
        assert(lists.take(0) =~= Seq::<Seq<Seq<char>>>::empty());
        while i < items.len()
            invariant
                i <= items@.len(),
                lists == listed_deps(items@),
                out@ == renderer.listing(lists.take(i as int), sep),
            decreases items@.len() - i,
        {
            append_lines(&mut out, &items[i].1, renderer, sep);
            assert(lists.take(i + 1).drop_last() =~= lists.take(i as int));
            i = i + 1;
        }
        assert(lists.take(items@.len() as int) =~= lists);
        Rendered::Text(out)
    }
}

/// The JSON form of a tree, paths as shown.
pub fn tree_to_json(node: &TreeNode, renderer: &PathRenderer) -> (res: TreeJson)
    ensures
        tree_json_view(res) == renderer.shown_tree(node@),
    decreases node,
{
    let path = renderer.render(&node.path);
    let mut children: Vec<TreeJson> = Vec::new();
    let mut i: usize = 0;
    while i < node.children.len()
        invariant
            i <= node.children@.len(),
            children@.len() == i,
            forall|k: int|
                0 <= k < i ==> tree_json_view(#[trigger] children@[k]) == renderer.shown_tree(
                    node.children@[k]@,
                ),
        decreases node.children@.len() - i,
    {
        let c = tree_to_json(&node.children[i], renderer);
        children.push(c);
        i = i + 1;
    }
    let res = TreeJson { path, cycle: node.cycle, children };
    proof {
        assert forall|k: int| 0 <= k < node.children@.len() implies node@.children[k] == node.children@[k]@ by {}
        assert(tree_json_view(res).children =~= renderer.shown_tree(node@).children);
    }
    res
}

/// Appends the text of the tree to `out`, its first line indented by `indent`.
fn write_tree_text(out: &mut String, node: &TreeNode, renderer: &PathRenderer, indent: &String)
    ensures
        final(out)@ == old(out)@ + renderer.tree_text(node@, indent@),
    decreases node,
{
    let ghost start = out@;
    out.append(indent.as_str());
    let r = renderer.render(&node.path);
    out.append(r.as_str());
    if node.cycle {
        out.append(" (cycle)");
    }
    push_char(out, '\n');
    let ghost head = out@;
    let mut deeper = indent.clone();
    push_char(&mut deeper, ' ');
    push_char(&mut deeper, ' ');
    assert(deeper@ =~= indent@ + seq![' ', ' ']);
    let ghost kids = tree_views(node.children@);
    assert(kids =~= node@.children);
    assert(kids.take(0) =~= Seq::<TreeView>::empty());
    assert(head + Seq::<char>::empty() =~= head);
    let mut i: usize = 0;
    while i < node.children.len()
        invariant
            i <= node.children@.len(),
            kids == tree_views(node.children@),
            out@ == head + renderer.forest_text(kids.take(i as int), deeper@),
        decreases node.children@.len() - i,
    {
        write_tree_text(out, &node.children[i], renderer, &deeper);
        assert(kids.take(i + 1).drop_last() =~= kids.take(i as int));
        assert(out@ =~= head + renderer.forest_text(kids.take(i + 1), deeper@));
        i = i + 1;
    }
    assert(kids.take(node.children@.len() as int) =~= kids);
    assert(out@ =~= start + renderer.tree_text(node@, indent@));
}

/// The trees: as JSON structures, or as text with newlines; NUL separators
/// are refused.
pub fn render_tree(roots: &Vec<TreeNode>, renderer: &PathRenderer, fmt: OutputFormat) -> (res:
    Result<Rendered, OutputError>)
    ensures
        fmt == OutputFormat::Json ==> (res matches Ok(Rendered::Tree(t)) && t.roots@.len()
            == roots@.len() && forall|i: int|
            0 <= i < roots@.len() ==> tree_json_view(#[trigger] t.roots@[i]) == renderer.shown_tree(
                roots@[i]@,
            )),
        fmt == OutputFormat::TextNewline ==> (res matches Ok(Rendered::Text(s)) && s@
            == renderer.forest_text(tree_views(roots@), Seq::empty())),
        fmt == OutputFormat::TextNul ==> res == Err::<Rendered, OutputError>(OutputError::TreeWithNul),
{
    match fmt {
        OutputFormat::Json => {
            let mut out: Vec<TreeJson> = Vec::new();
            let mut i: usize = 0;
            while i < roots.len()
                invariant
                    i <= roots@.len(),
                    out@.len() == i,
                    forall|k: int|
                        0 <= k < i ==> tree_json_view(#[trigger] out@[k]) == renderer.shown_tree(
                            roots@[k]@,
                        ),
                decreases roots@.len() - i,
            {
                out.push(tree_to_json(&roots[i], renderer));
                i = i + 1;
            }
            Ok(Rendered::Tree(TreeOutput { roots: out }))
        },
        OutputFormat::TextNewline => {
            let ghost ts = tree_views(roots@);
            let mut out = String::new();
            let indent = String::new();
            let mut i: usize = 0;
            assert(ts.take(0) =~= Seq::<TreeView>::empty());
            while i < roots.len()
                invariant
                    i <= roots@.len(),
                    ts == tree_views(roots@),
                    indent@ == Seq::<char>::empty(),
                    out@ == renderer.forest_text(ts.take(i as int), Seq::empty()),
                decreases roots@.len() - i,
            {
                write_tree_text(&mut out, &roots[i], renderer, &indent);
                assert(ts.take(i + 1).drop_last() =~= ts.take(i as int));
                i = i + 1;
            }
            assert(ts.take(roots@.len() as int) =~= ts);
            Ok(Rendered::Text(out))
        },
        OutputFormat::TextNul => Err(OutputError::TreeWithNul),
    }
}

/// A text listing is every dependency's line, over all the listed files, one
/// after the other: listing two groups of lists writes the first group's lines
/// and then the second's, a single list writes its lines, and each
/// dependency's line is its shown path followed by the separator.
pub proof fn law_listing_writes_every_line(
    r: &PathRenderer,
    ls1: Seq<Seq<Seq<char>>>,
    ls2: Seq<Seq<Seq<char>>>,
    ds1: Seq<Seq<char>>,
    ds2: Seq<Seq<char>>,
    d: Seq<char>,
    sep: char,
)
    ensures
        r.listing(ls1 + ls2, sep) == r.listing(ls1, sep) + r.listing(ls2, sep),
        r.listing(seq![ds1], sep) == r.lines(ds1, sep),
        r.lines(ds1 + ds2, sep) == r.lines(ds1, sep) + r.lines(ds2, sep),
        r.lines(seq![d], sep) == r.shows(d) + seq![sep],
        r.listing(Seq::empty(), sep) == Seq::<char>::empty(),
        r.lines(Seq::empty(), sep) == Seq::<char>::empty(),
{
    lemma_listing_concat(r, ls1, ls2, sep);
    lemma_lines_concat(r, ds1, ds2, sep);
    assert(seq![ds1].drop_last() =~= Seq::<Seq<Seq<char>>>::empty());
    assert(seq![d].drop_last() =~= Seq::<Seq<char>>::empty());
    assert(seq![ds1].last() == ds1);
    assert(seq![d].last() == d);
    assert(r.listing(Seq::<Seq<Seq<char>>>::empty(), sep) == Seq::<char>::empty());
    assert(r.lines(Seq::<Seq<char>>::empty(), sep) == Seq::<char>::empty());
    assert(r.listing(seq![ds1], sep) == r.listing(seq![ds1].drop_last(), sep) + r.lines(ds1, sep));
    assert(r.lines(seq![d], sep) == r.lines(seq![d].drop_last(), sep) + r.shows(d) + seq![sep]);
    assert(Seq::<char>::empty() + r.lines(ds1, sep) =~= r.lines(ds1, sep));
    assert(Seq::<char>::empty() + r.shows(d) + seq![sep] =~= r.shows(d) + seq![sep]);
}

proof fn lemma_lines_concat(r: &PathRenderer, a: Seq<Seq<char>>, b: Seq<Seq<char>>, sep: char)
    ensures
        r.lines(a + b, sep) == r.lines(a, sep) + r.lines(b, sep),
    decreases b.len(),
{
    if b.len() == 0 {
        assert(a + b =~= a);
        assert(r.lines(a, sep) + Seq::<char>::empty() =~= r.lines(a, sep));
    } else {
        lemma_lines_concat(r, a, b.drop_last(), sep);
        assert((a + b).drop_last() =~= a + b.drop_last());
        assert((a + b).last() == b.last());
        assert(r.lines(a + b, sep) =~= r.lines(a, sep) + r.lines(b, sep));
    }
}

proof fn lemma_listing_concat(r: &PathRenderer, a: Seq<Seq<Seq<char>>>, b: Seq<Seq<Seq<char>>>, sep: char)
    ensures
        r.listing(a + b, sep) == r.listing(a, sep) + r.listing(b, sep),
    decreases b.len(),
{
    if b.len() == 0 {
        assert(a + b =~= a);
        assert(r.listing(a, sep) + Seq::<char>::empty() =~= r.listing(a, sep));
    } else {
        lemma_listing_concat(r, a, b.drop_last(), sep);
        assert((a + b).drop_last() =~= a + b.drop_last());
        assert((a + b).last() == b.last());
        assert(r.listing(a + b, sep) =~= r.listing(a, sep) + r.listing(b, sep));
    }
}

/// The text of trees is the text of each tree, one after the other: two
/// groups of trees are written as the first group and then the second, and
/// a single tree is written as its own text (its line, then its children's
/// text two spaces further in).
pub proof fn law_forest_text_writes_every_tree(
    r: &PathRenderer,
    ts1: Seq<TreeView>,
    ts2: Seq<TreeView>,
    t: TreeView,
    indent: Seq<char>,
)
    ensures
        r.forest_text(ts1 + ts2, indent) == r.forest_text(ts1, indent) + r.forest_text(ts2, indent),
        r.forest_text(seq![t], indent) == r.tree_text(t, indent),
        r.forest_text(Seq::empty(), indent) == Seq::<char>::empty(),
        r.tree_text(t, indent) == indent + r.shows(t.path) + (if t.cycle {
            " (cycle)"@
        } else {
            Seq::empty()
        }) + seq!['\n'] + r.forest_text(t.children, indent + seq![' ', ' ']),
{
    lemma_forest_text_concat(r, ts1, ts2, indent);
    assert(seq![t].drop_last() =~= Seq::<TreeView>::empty());
    assert(seq![t].last() == t);
    assert(r.forest_text(Seq::<TreeView>::empty(), indent) == Seq::<char>::empty());
    assert(r.forest_text(seq![t], indent) == r.forest_text(seq![t].drop_last(), indent) + r.tree_text(t, indent));
    assert(Seq::<char>::empty() + r.tree_text(t, indent) =~= r.tree_text(t, indent));
}

proof fn lemma_forest_text_concat(r: &PathRenderer, a: Seq<TreeView>, b: Seq<TreeView>, indent: Seq<char>)
    ensures
        r.forest_text(a + b, indent) == r.forest_text(a, indent) + r.forest_text(b, indent),
    decreases b.len(),
{
    if b.len() == 0 {
        assert(a + b =~= a);
        assert(r.forest_text(a, indent) + Seq::<char>::empty() =~= r.forest_text(a, indent));
    } else {
        lemma_forest_text_concat(r, a, b.drop_last(), indent);
        assert((a + b).drop_last() =~= a + b.drop_last());
        assert((a + b).last() == b.last());
        assert(r.forest_text(a + b, indent) =~= r.forest_text(a, indent) + r.forest_text(b, indent));
    }
}

/// A tree as shown keeps the tree's shape at every depth: the same cycle
/// mark and the same number of children, each shown in turn, and the paths
/// it holds are exactly the shown paths of the tree's paths.
pub proof fn law_shown_tree_keeps_shape(r: &PathRenderer, t: TreeView)
    ensures
        r.shown_tree(t).path == r.shows(t.path),
        r.shown_tree(t).cycle == t.cycle,
        r.shown_tree(t).children.len() == t.children.len(),
        forall|k: int| 0 <= k < t.children.len() ==> #[trigger] r.shown_tree(t).children[k] == r.shown_tree(t.children[k]),
        tree_paths(r.shown_tree(t)) == tree_paths(t).map(|p: Seq<char>| r.shows(p)),
{
    lemma_shown_tree_paths(r, t);
}

proof fn lemma_shown_tree_paths(r: &PathRenderer, t: TreeView)
    ensures
        tree_paths(r.shown_tree(t)) == tree_paths(t).map(|p: Seq<char>| r.shows(p)),
    decreases t, 0nat,
{
    let st = r.shown_tree(t);
    assert(st.children =~= Seq::new(t.children.len(), |i: int| r.shown_tree(t.children[i])));
    lemma_shown_forest_paths(r, t.children);
    assert forall|q: Seq<char>| #[trigger] tree_paths(st).contains(q) == tree_paths(t).map(|p: Seq<char>| r.shows(p)).contains(q) by {
        if tree_paths(t).map(|p: Seq<char>| r.shows(p)).contains(q) {
            let p = choose|p: Seq<char>| tree_paths(t).contains(p) && r.shows(p) == q;
            if p != t.path {
                assert(forest_paths(t.children).contains(p));
                assert(forest_paths(t.children).map(|p: Seq<char>| r.shows(p)).contains(q));
            }
        }
        if forest_paths(st.children).contains(q) {
            assert(forest_paths(t.children).map(|p: Seq<char>| r.shows(p)).contains(q));
            let p = choose|p: Seq<char>| forest_paths(t.children).contains(p) && r.shows(p) == q;
            assert(tree_paths(t).contains(p));
        }
        if q == st.path {
            assert(tree_paths(t).contains(t.path));
        }
    }
    assert(tree_paths(st) =~= tree_paths(t).map(|p: Seq<char>| r.shows(p)));
}

proof fn lemma_shown_forest_paths(r: &PathRenderer, ts: Seq<TreeView>)
    ensures
        forest_paths(Seq::new(ts.len(), |i: int| r.shown_tree(ts[i]))) == forest_paths(ts).map(
            |p: Seq<char>| r.shows(p),
        ),
    decreases ts, ts.len(),
{
    let sts = Seq::new(ts.len(), |i: int| r.shown_tree(ts[i]));
    if ts.len() == 0 {
        assert(forest_paths(ts).map(|p: Seq<char>| r.shows(p)) =~= Set::<Seq<char>>::empty());
    } else {
        let init = ts.drop_last();
        lemma_shown_forest_paths(r, init);
        lemma_shown_tree_paths(r, ts.last());
        assert(sts.drop_last() =~= Seq::new(init.len(), |i: int| r.shown_tree(init[i])));
        assert(sts.last() == r.shown_tree(ts.last()));
        assert(forest_paths(sts) == forest_paths(sts.drop_last()).union(tree_paths(sts.last())));
        assert(forest_paths(ts) == forest_paths(init).union(tree_paths(ts.last())));
        assert forall|q: Seq<char>| #[trigger] forest_paths(sts).contains(q) == forest_paths(ts).map(|p: Seq<char>| r.shows(p)).contains(q) by {
            if forest_paths(ts).map(|p: Seq<char>| r.shows(p)).contains(q) {
                let p = choose|p: Seq<char>| forest_paths(ts).contains(p) && r.shows(p) == q;
                if forest_paths(init).contains(p) {
                    assert(forest_paths(init).map(|p: Seq<char>| r.shows(p)).contains(q));
                } else {
                    assert(tree_paths(ts.last()).map(|p: Seq<char>| r.shows(p)).contains(q));
                }
            }
            if forest_paths(sts.drop_last()).contains(q) {
                assert(forest_paths(init).map(|p: Seq<char>| r.shows(p)).contains(q));
                let p = choose|p: Seq<char>| forest_paths(init).contains(p) && r.shows(p) == q;
                assert(forest_paths(ts).contains(p));
            }
            if tree_paths(sts.last()).contains(q) {
                assert(tree_paths(ts.last()).map(|p: Seq<char>| r.shows(p)).contains(q));
                let p = choose|p: Seq<char>| tree_paths(ts.last()).contains(p) && r.shows(p) == q;
                assert(forest_paths(ts).contains(p));
            }
        }
        assert(forest_paths(sts) =~= forest_paths(ts).map(|p: Seq<char>| r.shows(p)));
    }
}

} // verus!
