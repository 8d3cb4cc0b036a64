//! Path helpers: the [`RelPath`] newtype (a path relative to the configured
//! root, always `/`-separated), the lexical component model of host paths,
//! relativisation against the root, and rendering in the requested style.

use vstd::prelude::*;

use crate::text::{
    chars_of, ends_with, join_slash, join_with_slash, push_char, split_slash, str_eq, string_views,
};

verus! {

broadcast use vstd::seq_lib::group_seq_properties;

/// A path stored in the cache or used internally.
/// Always relative to the configured root, components separated by `/`
/// regardless of the host OS, so cache files survive moving between OSes.
#[derive(Debug)]
pub struct RelPath {
    text: String,
}

impl View for RelPath {
    type V = Seq<char>;

    closed spec fn view(&self) -> Seq<char> {
        self.text@
    }
}

impl Clone for RelPath {
    fn clone(&self) -> (res: Self)
        ensures
            res@ == self@,
    {
        RelPath { text: self.text.clone() }
    }
}

/// The views of a sequence of paths.
pub open spec fn views_of(s: Seq<RelPath>) -> Seq<Seq<char>> {
    s.map_values(|p: RelPath| p@)
}

/// The name after the last `/` of a `/`-separated path.
pub open spec fn last_segment(s: Seq<char>) -> Seq<char> {
    split_slash(s).last()
}

/// The path's last segment ends with `.libsonnet`.
pub open spec fn is_libsonnet(s: Seq<char>) -> bool {
    ends_with(last_segment(s), ".libsonnet"@)
}

impl RelPath {
    /// A path made of the given parts joined with `/`.
    pub fn from_components(parts: &[&str]) -> (res: RelPath)
        ensures
            res@ == join_slash(parts@.map_values(|s: &str| s@)),
    {
        let ghost views = parts@.map_values(|s: &str| s@);
        let mut text = String::new();
        let mut i: usize = 0;
        while i < parts.len()
            invariant
                i <= parts@.len(),
                views == parts@.map_values(|s: &str| s@),
                text@ == join_slash(views.take(i as int)),
            decreases parts@.len() - i,
        {
            assert(views.take(i + 1).drop_last() =~= views.take(i as int));
            if i > 0 {
                text.append("/");
                proof {
                    reveal_strlit("/");
                }
            }
            text.append(parts[i]);
            i = i + 1;
        }
        assert(views.take(parts@.len() as int) =~= views);
        RelPath { text }
    }

    /// The path as a string slice.
    pub fn as_str(&self) -> (res: &str)
        ensures
            res@ == self@,
    {
        self.text.as_str()
    }

    /// The path as an owned string.
    pub fn into_string(self) -> (res: String)
        ensures
            res@ == self@,
    {
        self.text
    }

    /// A path whose text is exactly `text`.
    pub fn from_string(text: String) -> (res: RelPath)
        ensures
            res@ == text@,
    {
        RelPath { text }
    }

    /// The file name (the part after the last `/`) ends with `.libsonnet`.
    pub fn has_libsonnet_extension(&self) -> (res: bool)
        ensures
            res == is_libsonnet(self@),
    {
        let cs = chars_of(self.text.as_str());
        // start of the last segment
        let mut start: usize = 0;
        let mut i: usize = 0;
        while i < cs.len()
            invariant
                i <= cs@.len(),
                start <= i,
                split_slash(cs@.take(i as int)).last() == cs@.subrange(start as int, i as int),
            decreases cs@.len() - i,
        {
            proof {
                crate::text::lemma_split_slash_nonempty(cs@.take(i as int));
                assert(cs@.take(i + 1).drop_last() =~= cs@.take(i as int));
            }
            if cs[i] == '/' {
                start = i + 1;
                assert(cs@.subrange(start as int, start as int) =~= Seq::<char>::empty());
            } else {
                assert(cs@.subrange(start as int, i + 1) =~= cs@.subrange(
                    start as int,
                    i as int,
                ).push(cs@[i as int]));
            }
            i = i + 1;
        }
        assert(cs@.take(cs@.len() as int) =~= cs@);
        let suffix = chars_of(".libsonnet");
        proof {
            reveal_strlit(".libsonnet");
        }
        let seg_len = cs.len() - start;
        if suffix.len() > seg_len {
            return false;
        }
        let off = cs.len() - suffix.len();
        let mut j: usize = 0;
        while j < suffix.len()
            invariant
                j <= suffix@.len(),
                off + suffix@.len() == cs@.len(),
                cs@.len() == cs.len(),
                start <= off,
                cs@ == self@,
                suffix@ == ".libsonnet"@,
                last_segment(self@) == cs@.subrange(start as int, cs@.len() as int),
                forall|k: int| 0 <= k < j ==> cs@[off + k] == suffix@[k],
            decreases suffix@.len() - j,
        {
            if cs[off + j] != suffix[j] {
                assert(cs@.subrange(start as int, cs@.len() as int).subrange(
                    cs@.len() - start - suffix@.len(),
                    cs@.len() - start,
                )[j as int] != suffix@[j as int]);
                return false;
            }
            j = j + 1;
        }
        assert(cs@.subrange(start as int, cs@.len() as int).subrange(
            cs@.len() - start - suffix@.len(),
            cs@.len() - start,
        ) =~= suffix@);
        true
    }
}


/// A lexical component of a host path (`/`-separated, as on Unix).
#[derive(Debug)]
pub enum Component {
    RootDir,
    CurDir,
    ParentDir,
    Normal(String),
}

/// The mathematical value of a [`Component`].
pub enum ComponentView {
    RootDir,
    CurDir,
    ParentDir,
    Normal(Seq<char>),
}

impl View for Component {
    type V = ComponentView;

    open spec fn view(&self) -> ComponentView {
        match self {
            Component::RootDir => ComponentView::RootDir,
            Component::CurDir => ComponentView::CurDir,
            Component::ParentDir => ComponentView::ParentDir,
            Component::Normal(s) => ComponentView::Normal(s@),
        }
    }
}

/// The views of a sequence of components.
pub open spec fn component_views(s: Seq<Component>) -> Seq<ComponentView> {
    s.map_values(|c: Component| c@)
}

/// A segment between separators that stands for a component: neither empty
/// nor `.`.
pub open spec fn is_named_segment(seg: Seq<char>) -> bool {
    seg.len() > 0 && seg != seq!['.']
}

/// The component a named segment stands for.
pub open spec fn segment_component(seg: Seq<char>) -> ComponentView {
    if seg == seq!['.', '.'] {
        ComponentView::ParentDir
    } else {
        ComponentView::Normal(seg)
    }
}

/// The components of the named segments, in order.
pub open spec fn segments_components(segs: Seq<Seq<char>>) -> Seq<ComponentView>
    decreases segs.len(),
{
    if segs.len() == 0 {
        Seq::empty()
    } else if is_named_segment(segs.last()) {
        segments_components(segs.drop_last()).push(segment_component(segs.last()))
    } else {
        segments_components(segs.drop_last())
    }
}

/// The components of a path: a leading `/` is the root, a leading `.`
/// segment of a relative path is the current directory, and the other
/// segments give a component each, except empty and `.` ones.
pub open spec fn path_components(s: Seq<char>) -> Seq<ComponentView> {
    let segs = split_slash(s);
    let head = if s.len() > 0 && s[0] == '/' {
        seq![ComponentView::RootDir]
    } else if segs[0] == seq!['.'] {
        seq![ComponentView::CurDir]
    } else {
        Seq::empty()
    };
    head + segments_components(segs)
}

proof fn lemma_split_slash_first(s: Seq<char>)
    ensures
        split_slash(s).len() >= 1,
        s.len() > 0 && s[0] == '/' ==> split_slash(s).len() >= 2 && split_slash(s)[0]
            == Seq::<char>::empty(),
        s.len() > 0 && s[0] != '/' ==> split_slash(s)[0].len() > 0 && split_slash(s)[0][0] == s[0],
    decreases s.len(),
{
    crate::text::lemma_split_slash_nonempty(s);
    if s.len() > 0 {
        let prev = split_slash(s.drop_last());
        lemma_split_slash_first(s.drop_last());
        crate::text::lemma_split_slash_nonempty(s.drop_last());
        if s.len() == 1 {
            assert(s.drop_last() =~= Seq::<char>::empty());
            assert(prev == seq![Seq::<char>::empty()]);
        } else {
            assert(s.drop_last()[0] == s[0]);
            if s[0] != '/' && prev.len() == 1 {
                assert(prev.update(0, prev.last().push(s.last()))[0] == prev[0].push(s.last()));
            }
        }
    }
}

/// The component a named segment stands for.
fn component_of_segment(seg: &Vec<char>) -> (res: Component)
    requires
        is_named_segment(seg@),
    ensures
        res@ == segment_component(seg@),
{
    if seg.len() == 2 && seg[0] == '.' && seg[1] == '.' {
        assert(seg@ =~= seq!['.', '.']);
        Component::ParentDir
    } else {
        assert(seg@ != seq!['.', '.']);
        Component::Normal(crate::text::string_from_chars(seg))
    }
}

/// The segment is neither empty nor `.`.
fn named_segment(seg: &Vec<char>) -> (res: bool)
    ensures
        res == is_named_segment(seg@),
{
    if seg.len() == 0 {
        false
    } else if seg.len() == 1 && seg[0] == '.' {
        assert(seg@ =~= seq!['.']);
        false
    } else {
        proof {
            if seg@.len() == 1 {
                assert(seg@ != seq!['.']) by {
                    assert(seq!['.'][0] == '.');
                }
            }
        }
        true
    }
}

/// The lexical components of a host path.
pub fn components(path: &str) -> (res: Vec<Component>)
    ensures
        component_views(res@) == path_components(path@),
{
    let cs = chars_of(path);
    let mut body: Vec<Component> = Vec::new();
    let mut cur: Vec<char> = Vec::new();
    let mut first: Vec<char> = Vec::new();
    let mut seen_sep = false;
    let mut i: usize = 0;
    while i < cs.len()
        invariant
            i <= cs@.len(),
            split_slash(cs@.take(i as int)).len() >= 1,
            cur@ == split_slash(cs@.take(i as int)).last(),
            component_views(body@) == segments_components(split_slash(cs@.take(i as int)).drop_last()),
            seen_sep ==> first@ == split_slash(cs@.take(i as int))[0],
            seen_sep ==> split_slash(cs@.take(i as int)).len() >= 2,
            !seen_sep ==> split_slash(cs@.take(i as int)).len() == 1,
        decreases cs@.len() - i,
    {
        let ghost prev = split_slash(cs@.take(i as int));
        proof {
            assert(cs@.take(i + 1).drop_last() =~= cs@.take(i as int));
        }
        if cs[i] == '/' {
            if !seen_sep {
                first = cur.clone();
                seen_sep = true;
            }
            if named_segment(&cur) {
                let c = component_of_segment(&cur);
                body.push(c);
            }
            proof {
                let next = split_slash(cs@.take(i + 1));
                assert(next == prev.push(Seq::empty()));
                assert(next.drop_last() =~= prev);
                assert(prev =~= prev.drop_last().push(prev.last()));
                assert(component_views(body@) =~= segments_components(next.drop_last()));
                assert(next[0] == prev[0]);
            }
            cur = Vec::new();
        } else {
            let ghost c = cs@[i as int];
            cur.push(cs[i]);
            proof {
                let next = split_slash(cs@.take(i + 1));
                assert(next == prev.update(prev.len() - 1, prev.last().push(c)));
                assert(next.drop_last() =~= prev.drop_last());
                if seen_sep {
                    assert(next[0] == prev[0]);
                }
            }
        }
        i = i + 1;
    }
    proof {
        assert(cs@.take(cs@.len() as int) =~= cs@);
    }
    let ghost segs = split_slash(cs@);
    if !seen_sep {
        first = cur.clone();
    }
    assert(first@ == segs[0]);
    if named_segment(&cur) {
        let c = component_of_segment(&cur);
        body.push(c);
    }
    proof {
        assert(segs =~= segs.drop_last().push(segs.last()));
        assert(component_views(body@) =~= segments_components(segs));
        lemma_split_slash_first(cs@);
    }
    let mut res: Vec<Component> = Vec::new();
    if cs.len() > 0 && cs[0] == '/' {
        res.push(Component::RootDir);
    } else if first.len() == 1 && first[0] == '.' {
        assert(first@ =~= seq!['.']);
        res.push(Component::CurDir);
    } else {
        proof {
            if first@.len() == 1 {
                assert(first@ != seq!['.']) by {
                    assert(seq!['.'][0] == '.');
                }
            }
        }
    }
    let ghost head = component_views(res@);
    res.append(&mut body);
    proof {
        assert(component_views(res@) =~= head + segments_components(segs));
    }
    res
}


/// The text a component contributes when paths are written with `/`.
pub open spec fn component_text(c: ComponentView) -> Seq<char> {
    match c {
        ComponentView::Normal(s) => s,
        ComponentView::ParentDir => seq!['.', '.'],
        _ => Seq::empty(),
    }
}

/// The texts of the components other than the current directory.
pub open spec fn written_parts(cs: Seq<ComponentView>) -> Seq<Seq<char>>
    decreases cs.len(),
{
    if cs.len() == 0 {
        Seq::empty()
    } else if cs.last() is CurDir {
        written_parts(cs.drop_last())
    } else {
        written_parts(cs.drop_last()).push(component_text(cs.last()))
    }
}

/// The components written with `/` separators (the root contributing an
/// empty first part, so an absolute path starts with `/`).
pub open spec fn forward_slashed(cs: Seq<ComponentView>) -> Seq<char> {
    join_slash(written_parts(cs))
}

/// The text of a component, as an owned string.
fn text_of(c: &Component) -> (res: String)
    ensures
        res@ == component_text(c@),
{
    match c {
        Component::Normal(s) => s.clone(),
        Component::ParentDir => {
            let mut t = String::new();
            push_char(&mut t, '.');
            push_char(&mut t, '.');
            assert(t@ =~= seq!['.', '.']);
            t
        },
        _ => String::new(),
    }
}

/// Writes the components from position `from` on with `/` separators,
/// skipping `.` components.
fn normalise_components(cs: &Vec<Component>, from: usize) -> (res: String)
    requires
        from <= cs@.len(),
    ensures
        res@ == forward_slashed(component_views(cs@).skip(from as int)),
{
    let ghost cv = component_views(cs@).skip(from as int);
    let mut parts: Vec<String> = Vec::new();
    let mut i: usize = from;
    assert(cv.take(0) =~= Seq::<ComponentView>::empty());
    while i < cs.len()
        invariant
            from <= i <= cs@.len(),
            cv == component_views(cs@).skip(from as int),
            string_views(parts@) == written_parts(cv.take(i - from)),
        decreases cs@.len() - i,
    {
        proof {
            assert(cv.take(i - from + 1).drop_last() =~= cv.take(i - from));
            assert(cv.take(i - from + 1).last() == cs@[i as int]@);
        }
        match &cs[i] {
            Component::CurDir => {},
            c => {
                let t = text_of(c);
                let ghost before = parts@;
                parts.push(t);
                assert(string_views(parts@) =~= string_views(before).push(t@));
            },
        }
        i = i + 1;
    }
    assert(cv.take(cs@.len() - from) =~= cv);
    join_with_slash(&parts)
}

/// Writes a host path with `/` separators: `.` components are dropped, the
/// root becomes a leading `/`.
pub fn normalise_to_forward_slashes(path: &str) -> (res: String)
    ensures
        res@ == forward_slashed(path_components(path@)),
{
    let cs = components(path);
    assert(component_views(cs@).skip(0) =~= component_views(cs@));
    normalise_components(&cs, 0)
}

/// The two components are the same.
fn component_eq(a: &Component, b: &Component) -> (res: bool)
    ensures
        res == (a@ == b@),
{
    match (a, b) {
        (Component::RootDir, Component::RootDir) => true,
        (Component::CurDir, Component::CurDir) => true,
        (Component::ParentDir, Component::ParentDir) => true,
        (Component::Normal(x), Component::Normal(y)) => str_eq(x.as_str(), y.as_str()),
        _ => false,
    }
}

/// How many leading components the two sequences share.
pub open spec fn common_prefix_len(a: Seq<ComponentView>, b: Seq<ComponentView>) -> nat
    decreases a.len(),
{
    if a.len() == 0 || b.len() == 0 || a[0] != b[0] {
        0
    } else {
        1 + common_prefix_len(a.drop_first(), b.drop_first())
    }
}

proof fn lemma_common_prefix_len(a: Seq<ComponentView>, b: Seq<ComponentView>, i: int)
    requires
        0 <= i <= a.len(),
        i <= b.len(),
        a.take(i) == b.take(i),
    ensures
        common_prefix_len(a, b) == i + common_prefix_len(a.skip(i), b.skip(i)),
    decreases i,
{
    if i > 0 {
        assert(a[0] == a.take(i)[0]);
        assert(b[0] == b.take(i)[0]);
        assert(a.drop_first().take(i - 1) =~= a.take(i).drop_first());
        assert(b.drop_first().take(i - 1) =~= b.take(i).drop_first());
        lemma_common_prefix_len(a.drop_first(), b.drop_first(), i - 1);
        assert(a.drop_first().skip(i - 1) =~= a.skip(i));
        assert(b.drop_first().skip(i - 1) =~= b.skip(i));
    } else {
        assert(a.skip(0) =~= a);
        assert(b.skip(0) =~= b);
    }
}

/// The texts of the ordinary (named) components, in order.
pub open spec fn named_parts(cs: Seq<ComponentView>) -> Seq<Seq<char>>
    decreases cs.len(),
{
    if cs.len() == 0 {
        Seq::empty()
    } else if let ComponentView::Normal(s) = cs.last() {
        named_parts(cs.drop_last()).push(s)
    } else {
        named_parts(cs.drop_last())
    }
}

/// The parts of the way from `base` to `target`: one `..` per component of
/// `base` past the shared prefix, then the named components of `target` past it.
pub open spec fn relative_parts(base: Seq<ComponentView>, target: Seq<ComponentView>) -> Seq<Seq<char>> {
    let i = common_prefix_len(base, target);
    Seq::new((base.len() - i) as nat, |k: int| seq!['.', '.']) + named_parts(target.skip(i as int))
}

/// `target` written relative to `base` (`.` when there is nothing to write),
/// or `target` itself when the two share no leading component.
pub open spec fn relative_text(base: Seq<char>, target: Seq<char>) -> Seq<char> {
    let parts = relative_parts(path_components(base), path_components(target));
    if common_prefix_len(path_components(base), path_components(target)) == 0 {
        target
    } else if parts.len() == 0 {
        seq!['.']
    } else {
        join_slash(parts)
    }
}

proof fn lemma_common_prefix_bound(a: Seq<ComponentView>, b: Seq<ComponentView>)
    ensures
        common_prefix_len(a, b) <= a.len(),
        common_prefix_len(a, b) <= b.len(),
    decreases a.len(),
{
    if a.len() > 0 && b.len() > 0 && a[0] == b[0] {
        lemma_common_prefix_bound(a.drop_first(), b.drop_first());
    }
}

/// `n` times `..`.
fn parent_steps(n: usize) -> (res: Vec<String>)
    ensures
        string_views(res@) == Seq::new(n as nat, |t: int| seq!['.', '.']),
{
    let mut parts: Vec<String> = Vec::new();
    let mut k: usize = 0;
    while k < n
        invariant
            k <= n,
            string_views(parts@) == Seq::new(k as nat, |t: int| seq!['.', '.']),
        decreases n - k,
    {
        let mut dots = String::new();
        push_char(&mut dots, '.');
        push_char(&mut dots, '.');
        assert(dots@ =~= seq!['.', '.']);
        let ghost before = parts@;
        parts.push(dots);
        assert(string_views(parts@) =~= string_views(before).push(dots@));
        assert(string_views(parts@) =~= Seq::new((k + 1) as nat, |t: int| seq!['.', '.']));
        k = k + 1;
    }
    parts
}

/// Appends the texts of the named components of `cs` from position `from` on.
fn append_named(parts: &mut Vec<String>, cs: &Vec<Component>, from: usize)
    requires
        from <= cs@.len(),
    ensures
        string_views(final(parts)@) == string_views(old(parts)@) + named_parts(
            component_views(cs@).subrange(from as int, cs@.len() as int),
        ),
{
    let ghost cv = component_views(cs@);
    let ghost start = string_views(parts@);
    let mut j: usize = from;
    assert(cv.subrange(from as int, from as int) =~= Seq::<ComponentView>::empty());
    assert(start + Seq::<Seq<char>>::empty() =~= start);
    while j < cs.len()
        invariant
            from <= j <= cs@.len(),
            cv == component_views(cs@),
            string_views(parts@) == start + named_parts(cv.subrange(from as int, j as int)),
        decreases cs@.len() - j,
    {
        proof {
            assert(cv.subrange(from as int, j + 1).drop_last() =~= cv.subrange(from as int, j as int));
            assert(cv.subrange(from as int, j + 1).last() == cs@[j as int]@);
        }
        if let Component::Normal(s) = &cs[j] {
            let ghost before = parts@;
            parts.push(s.clone());
            assert(string_views(parts@) =~= string_views(before).push(s@));
            assert(string_views(parts@) =~= start + named_parts(cv.subrange(from as int, j + 1)));
        }
        j = j + 1;
    }
}

/// Compute a path expressed relative to `base`, falling back to absolute when
/// the two paths don't share a prefix. Operates purely on the lexical
/// representation (both inputs should already be canonicalised by the caller).
pub fn pathdiff_to_string(base: &str, target: &str) -> (res: String)
    ensures
        res@ == relative_text(base@, target@),
{
    let bc = components(base);
    let tc = components(target);
    let ghost bv = component_views(bc@);
    let ghost tv = component_views(tc@);
    let mut i: usize = 0;
    while i < bc.len() && i < tc.len() && component_eq(&bc[i], &tc[i])
        invariant
            i <= bc@.len(),
            i <= tc@.len(),
            bv == component_views(bc@),
            tv == component_views(tc@),
            bv.take(i as int) == tv.take(i as int),
        decreases bc@.len() - i,
    {
        assert(bv.take(i + 1) =~= bv.take(i as int).push(bv[i as int]));
        assert(tv.take(i + 1) =~= tv.take(i as int).push(tv[i as int]));
        i = i + 1;
    }
    proof {
        lemma_common_prefix_len(bv, tv, i as int);
        if i < bv.len() && i < tv.len() {
            assert(bv.skip(i as int)[0] != tv.skip(i as int)[0]);
        }
        assert(common_prefix_len(bv.skip(i as int), tv.skip(i as int)) == 0);
    }
    if i == 0 {
        return target.to_owned();
    }
    let ghost want = relative_parts(bv, tv);
    let mut parts = parent_steps(bc.len() - i);
    append_named(&mut parts, &tc, i);
    proof {
        assert(tv.subrange(i as int, tc@.len() as int) =~= tv.skip(i as int));
        assert(string_views(parts@) =~= want);
    }
    if parts.len() == 0 {
        let mut dot = String::new();
        push_char(&mut dot, '.');
        assert(dot@ =~= seq!['.']);
        dot
    } else {
        join_with_slash(&parts)
    }
}


/// The errors of path handling.
#[derive(Debug)]
pub enum PathError {
    /// The path is not below the root.
    OutsideRoot(String),
    /// The file system refused an operation on `path`.
    Io { path: String, source: std::io::Error },
}

/// `std::io::Error`, carried by [`PathError::Io`].
#[verifier::external_type_specification]
#[verifier::external_body]
pub struct ExIoError(std::io::Error);

/// How paths are written for the user.
#[derive(Debug, Clone, Copy, PartialEq, Eq, Structural)]
pub enum PathStyle {
    /// Paths relative to `--root`.
    Root,
    /// Paths relative to the current working directory at invocation time.
    Cwd,
    /// Absolute (canonicalised) paths.
    Absolute,
}

/// The components of `a` after the leading components `prefix`, if `a`
/// starts with them.
pub open spec fn strip_components(a: Seq<ComponentView>, prefix: Seq<ComponentView>) -> Option<
    Seq<ComponentView>,
> {
    if prefix.len() <= a.len() && a.take(prefix.len() as int) == prefix {
        Some(a.skip(prefix.len() as int))
    } else {
        None
    }
}

/// Going down `depth` levels and then through `cs`, some `..` climbs above
/// the level where it started.
pub open spec fn climbs_out(cs: Seq<ComponentView>, depth: nat) -> bool
    decreases cs.len(),
{
    if cs.len() == 0 {
        false
    } else {
        match cs[0] {
            ComponentView::ParentDir => depth == 0 || climbs_out(cs.drop_first(), (depth - 1) as nat),
            ComponentView::Normal(_) => climbs_out(cs.drop_first(), depth + 1),
            _ => climbs_out(cs.drop_first(), depth),
        }
    }
}

/// `abs` written relative to `root` with `/` separators, when it lies below
/// `root`: it starts with the root's components and the rest never climbs
/// above the root with `..`.
pub open spec fn relative_to(root: Seq<char>, abs: Seq<char>) -> Option<Seq<char>> {
    match strip_components(path_components(abs), path_components(root)) {
        Some(rest) => if climbs_out(rest, 0) {
            None
        } else {
            Some(forward_slashed(rest))
        },
        None => None,
    }
}

/// `abs` after the root's leading components, written with `/` separators,
/// when it starts with them (a lexical strip: a `..` in the rest is kept).
pub open spec fn stripped_text(root: Seq<char>, abs: Seq<char>) -> Option<Seq<char>> {
    match strip_components(path_components(abs), path_components(root)) {
        Some(rest) => Some(forward_slashed(rest)),
        None => None,
    }
}

/// The components of `cs` from position `from` on climb above their start.
fn climbs_out_from(cs: &Vec<Component>, from: usize) -> (res: bool)
    requires
        from <= cs@.len(),
    ensures
        res == climbs_out(component_views(cs@).skip(from as int), 0),
{
    let ghost cv = component_views(cs@);
    let mut depth: usize = 0;
    let mut i: usize = from;
    while i < cs.len()
        invariant
            from <= i <= cs@.len(),
            cv == component_views(cs@),
            depth <= i - from,
            climbs_out(cv.skip(from as int), 0) == climbs_out(cv.skip(i as int), depth as nat),
        decreases cs@.len() - i,
    {
        proof {
            assert(cv.skip(i as int)[0] == cs@[i as int]@);
            assert(cv.skip(i as int).drop_first() =~= cv.skip(i + 1));
        }
        match &cs[i] {
            Component::ParentDir => {
                if depth == 0 {
                    return true;
                }
                depth = depth - 1;
            },
            Component::Normal(_) => {
                depth = depth + 1;
            },
            _ => {},
        }
        i = i + 1;
    }
    assert(cv.skip(i as int).len() == 0);
    false
}

/// `rel` joined onto `base`: an absolute `rel` replaces `base`, otherwise a
/// `/` is put between them unless `base` is empty or already ends with one.
pub open spec fn joined(base: Seq<char>, rel: Seq<char>) -> Seq<char> {
    if rel.len() > 0 && rel[0] == '/' {
        rel
    } else if base.len() > 0 && base.last() != '/' {
        base + seq!['/'] + rel
    } else {
        base + rel
    }
}

/// `abs` written in the given style, or `None` when the root style is asked
/// for a path outside the root.
pub open spec fn styled(root: Seq<char>, abs: Seq<char>, style: PathStyle, cwd: Seq<char>) -> Option<
    Seq<char>,
> {
    match style {
        PathStyle::Root => stripped_text(root, abs),
        PathStyle::Cwd => Some(relative_text(cwd, abs)),
        PathStyle::Absolute => Some(abs),
    }
}

/// The configured root directory, as an absolute canonical path.
#[derive(Debug)]
pub struct Root {
    abs: String,
}

impl Clone for Root {
    fn clone(&self) -> (res: Self)
        ensures
            res@ == self@,
    {
        Root { abs: self.abs.clone() }
    }
}

impl View for Root {
    type V = Seq<char>;

    closed spec fn view(&self) -> Seq<char> {
        self.abs@
    }
}

/// `cs` starts with the components of `prefix`.
fn starts_with_components(cs: &Vec<Component>, prefix: &Vec<Component>) -> (res: bool)
    ensures
        res == (prefix@.len() <= cs@.len() && component_views(cs@).take(prefix@.len() as int)
            == component_views(prefix@)),
{
    if prefix.len() > cs.len() {
        return false;
    }
    let mut i: usize = 0;
    while i < prefix.len()
        invariant
            prefix@.len() <= cs@.len(),
            i <= prefix@.len(),
            forall|k: int| 0 <= k < i ==> cs@[k]@ == prefix@[k]@,
        decreases prefix@.len() - i,
    {
        if !component_eq(&cs[i], &prefix[i]) {
            assert(component_views(cs@).take(prefix@.len() as int)[i as int] != component_views(prefix@)[i as int]);
            return false;
        }
        i = i + 1;
    }
    assert(component_views(cs@).take(prefix@.len() as int) =~= component_views(prefix@));
    true
}

impl Root {
    /// The root at the given absolute canonical path (canonicalising it is
    /// the caller's business).
    pub fn new(abs: String) -> (res: Root)
        ensures
            res@ == abs@,
    {
        Root { abs }
    }

    /// The root's path.
    pub fn as_path(&self) -> (res: &str)
        ensures
            res@ == self@,
    {
        self.abs.as_str()
    }

    /// `abs` below the root, written with `/` separators, when it lies below.
    fn strip_root(&self, abs: &str) -> (res: Option<String>)
        ensures
            match res {
                Some(s) => relative_to(self@, abs@) == Some(s@),
                None => relative_to(self@, abs@) is None,
            },
    {
        let cs = components(abs);
        let rc = components(self.abs.as_str());
        if starts_with_components(&cs, &rc) && !climbs_out_from(&cs, rc.len()) {
            Some(normalise_components(&cs, rc.len()))
        } else {
            None
        }
    }

    /// `abs` after the root's components, written with `/` separators, when
    /// it starts with them.
    fn strip_root_lexically(&self, abs: &str) -> (res: Option<String>)
        ensures
            match res {
                Some(s) => stripped_text(self@, abs@) == Some(s@),
                None => stripped_text(self@, abs@) is None,
            },
    {
        let cs = components(abs);
        let rc = components(self.abs.as_str());
        if starts_with_components(&cs, &rc) {
            Some(normalise_components(&cs, rc.len()))
        } else {
            None
        }
    }

    /// Make an absolute path relative to root. Fails if it points outside root.
    pub fn relativise(&self, abs: &str) -> (res: Result<RelPath, PathError>)
        ensures
            match res {
                Ok(r) => relative_to(self@, abs@) == Some(r@),
                Err(e) => relative_to(self@, abs@) is None && (e matches PathError::OutsideRoot(p) && p@ == abs@),
            },
    {
        match self.strip_root(abs) {
            Some(s) => Ok(RelPath { text: s }),
            None => Err(PathError::OutsideRoot(abs.to_owned())),
        }
    }

    /// Inverse of `relativise`: join with root.
    pub fn absolutise(&self, rel: &RelPath) -> (res: String)
        ensures
            res@ == joined(self@, rel@),
    {
        let r = rel.as_str();
        let rc = chars_of(r);
        let bc = chars_of(self.abs.as_str());
        if rc.len() > 0 && rc[0] == '/' {
            return r.to_owned();
        }
        let mut out = self.abs.clone();
        if bc.len() > 0 && bc[bc.len() - 1] != '/' {
            push_char(&mut out, '/');
        }
        out.append(r);
        out
    }

    /// Render an absolute path according to the requested style; the root
    /// style strips the root's components lexically and fails only for a path
    /// that does not start with them.
    pub fn render(&self, abs: &str, style: PathStyle, cwd: &str) -> (res: Result<String, PathError>)
        ensures
            match res {
                Ok(s) => styled(self@, abs@, style, cwd@) == Some(s@),
                Err(e) => styled(self@, abs@, style, cwd@) is None && (e matches PathError::OutsideRoot(p) && p@ == abs@),
            },
    {
        match style {
            PathStyle::Root => match self.strip_root_lexically(abs) {
                Some(s) => Ok(s),
                None => Err(PathError::OutsideRoot(abs.to_owned())),
            },
            PathStyle::Cwd => Ok(pathdiff_to_string(cwd, abs)),
            PathStyle::Absolute => Ok(abs.to_owned()),
        }
    }
}


/// A component that a separator-free, non-empty segment stands for.
pub open spec fn is_plain(c: ComponentView) -> bool {
    match c {
        ComponentView::ParentDir => true,
        ComponentView::Normal(t) => t.len() > 0 && !t.contains('/'),
        _ => false,
    }
}

proof fn lemma_segments_components_concat(x: Seq<Seq<char>>, y: Seq<Seq<char>>)
    ensures
        segments_components(x + y) == segments_components(x) + segments_components(y),
    decreases y.len(),
{
    if y.len() == 0 {
        assert(x + y =~= x);
    } else {
        lemma_segments_components_concat(x, y.drop_last());
        assert((x + y).drop_last() =~= x + y.drop_last());
    }
}

proof fn lemma_written_parts_concat(x: Seq<ComponentView>, y: Seq<ComponentView>)
    ensures
        written_parts(x + y) == written_parts(x) + written_parts(y),
    decreases y.len(),
{
    if y.len() == 0 {
        assert(x + y =~= x);
    } else {
        lemma_written_parts_concat(x, y.drop_last());
        assert((x + y).drop_last() =~= x + y.drop_last());
    }
}

/// The components of separator-free segments are plain.
proof fn lemma_segments_components_plain(segs: Seq<Seq<char>>, i: int)
    requires
        forall|k: int| 0 <= k < segs.len() ==> !(#[trigger] segs[k]).contains('/'),
        0 <= i < segments_components(segs).len(),
    ensures
        is_plain(segments_components(segs)[i]),
    decreases segs.len(),
{
    if segs.len() > 0 {
        let prev = segments_components(segs.drop_last());
        if i < prev.len() {
            assert forall|k: int| 0 <= k < segs.drop_last().len() implies !(#[trigger] segs.drop_last()[k]).contains('/') by {
                assert(segs.drop_last()[k] == segs[k]);
            }
            lemma_segments_components_plain(segs.drop_last(), i);
        } else {
            assert(!segs[segs.len() - 1].contains('/'));
        }
    }
}

/// Every component but the first is plain.
proof fn lemma_path_components_plain(s: Seq<char>, i: int)
    requires
        1 <= i < path_components(s).len(),
    ensures
        is_plain(path_components(s)[i]),
{
    let segs = split_slash(s);
    crate::text::lemma_split_slash_nonempty(s);
    let head = path_components(s).len() - segments_components(segs).len();
    assert(head <= 1);
    assert forall|k: int| 0 <= k < segs.len() implies !(#[trigger] segs[k]).contains('/') by {
        crate::text::lemma_split_slash_no_separator(s, k);
    }
    lemma_segments_components_plain(segs, i - head);
}

/// Plain components are written as their texts, each non-empty and free of `/`.
proof fn lemma_written_parts_plain(cs: Seq<ComponentView>)
    requires
        forall|k: int| 0 <= k < cs.len() ==> is_plain(#[trigger] cs[k]),
    ensures
        written_parts(cs).len() == cs.len(),
        forall|k: int|
            0 <= k < cs.len() ==> (#[trigger] written_parts(cs)[k]).len() > 0 && !written_parts(cs)[k].contains(
                '/',
            ),
    decreases cs.len(),
{
    if cs.len() > 0 {
        assert forall|k: int| 0 <= k < cs.drop_last().len() implies is_plain(#[trigger] cs.drop_last()[k]) by {
            assert(cs.drop_last()[k] == cs[k]);
        }
        lemma_written_parts_plain(cs.drop_last());
        let last = cs.last();
        assert(is_plain(last));
        if last is ParentDir {
            assert(!seq!['.', '.'].contains('/')) by {
                if seq!['.', '.'].contains('/') {
                    let k = choose|k: int| 0 <= k < 2 && seq!['.', '.'][k] == '/';
                }
            }
        }
    }
}

/// A single empty piece stands for no component.
proof fn lemma_empty_piece_no_components()
    ensures
        segments_components(seq![Seq::<char>::empty()]) == Seq::<ComponentView>::empty(),
{
    let e = seq![Seq::<char>::empty()];
    assert(!is_named_segment(e.last()));
    assert(e.drop_last() =~= Seq::<Seq<char>>::empty());
    assert(segments_components(e) == segments_components(e.drop_last()));
}

/// A root with a final `/` has the components of the root without it.
proof fn lemma_trailing_separator_components(r0: Seq<char>)
    ensures
        segments_components(split_slash(r0 + seq!['/'])) == segments_components(split_slash(r0)),
        split_slash(r0 + seq!['/'])[0] == split_slash(r0)[0],
{
    let root = r0 + seq!['/'];
    let sr0 = split_slash(r0);
    assert(root =~= r0 + seq!['/'] + Seq::<char>::empty());
    crate::text::lemma_split_slash_concat(r0, Seq::<char>::empty());
    crate::text::lemma_split_slash_nonempty(r0);
    assert(split_slash(Seq::<char>::empty()) == seq![Seq::<char>::empty()]);
    lemma_segments_components_concat(sr0, seq![Seq::<char>::empty()]);
    lemma_empty_piece_no_components();
    assert(segments_components(sr0) + Seq::<ComponentView>::empty() =~= segments_components(sr0));
}

/// A relative path joined onto a non-empty root has the root's components
/// followed by those of the path's pieces.
proof fn lemma_joined_components(root: Seq<char>, rel: Seq<char>)
    requires
        root.len() > 0,
        !(rel.len() > 0 && rel[0] == '/'),
    ensures
        path_components(joined(root, rel)) == path_components(root) + segments_components(
            split_slash(rel),
        ),
{
    let abs = joined(root, rel);
    let sl = split_slash(rel);
    let r0 = if root.last() == '/' { root.drop_last() } else { root };
    assert(abs =~= r0 + seq!['/'] + rel);
    crate::text::lemma_split_slash_concat(r0, rel);
    crate::text::lemma_split_slash_nonempty(r0);
    let sr0 = split_slash(r0);
    lemma_segments_components_concat(sr0, sl);
    if root.last() == '/' {
        assert(root =~= r0 + seq!['/']);
        lemma_trailing_separator_components(r0);
    }
    assert(split_slash(abs)[0] == split_slash(root)[0]);
    assert(abs[0] == root[0]);
    assert(path_components(abs) =~= path_components(root) + segments_components(sl));
}

/// A piece free of `/` splits into itself.
proof fn lemma_split_without_separator(s: Seq<char>)
    requires
        !s.contains('/'),
    ensures
        split_slash(s) == seq![s],
    decreases s.len(),
{
    if s.len() > 0 {
        let t = s.drop_last();
        assert(!t.contains('/')) by {
            if t.contains('/') {
                let k = choose|k: int| 0 <= k < t.len() && t[k] == '/';
                assert(s[k] == '/');
            }
        }
        lemma_split_without_separator(t);
        assert(s.last() != '/') by {
            assert(s[s.len() - 1] == s.last());
        }
        assert(t.push(s.last()) =~= s);
        assert(seq![t].update(0, t.push(s.last())) =~= seq![s]);
    }
}

/// Pieces free of `/`, joined and split again, give the pieces back.
proof fn lemma_split_join(parts: Seq<Seq<char>>)
    requires
        parts.len() > 0,
        forall|k: int| 0 <= k < parts.len() ==> !(#[trigger] parts[k]).contains('/'),
    ensures
        split_slash(join_slash(parts)) == parts,
    decreases parts.len(),
{
    if parts.len() == 1 {
        lemma_split_without_separator(parts[0]);
        assert(seq![parts[0]] =~= parts);
    } else {
        let init = parts.drop_last();
        assert forall|k: int| 0 <= k < init.len() implies !(#[trigger] init[k]).contains('/') by {
            assert(init[k] == parts[k]);
        }
        lemma_split_join(init);
        crate::text::lemma_split_slash_concat(join_slash(init), parts.last());
        lemma_split_without_separator(parts.last());
        assert(init + seq![parts.last()] =~= parts);
    }
}

/// No component of the named pieces is a `.` name.
proof fn lemma_segments_components_not_dot(segs: Seq<Seq<char>>, i: int)
    requires
        0 <= i < segments_components(segs).len(),
    ensures
        component_text(segments_components(segs)[i]) != seq!['.'],
    decreases segs.len(),
{
    if segs.len() > 0 {
        let prev = segments_components(segs.drop_last());
        if i < prev.len() {
            lemma_segments_components_not_dot(segs.drop_last(), i);
        } else {
            let seg = segs.last();
            if seg == seq!['.', '.'] {
                assert(seq!['.', '.'].len() != seq!['.'].len());
            }
        }
    }
}

/// A relative path in normal form does not start with a `.` piece.
proof fn lemma_normal_form_no_dot_start(rel: Seq<char>)
    requires
        rel == forward_slashed(path_components(rel)),
        !(rel.len() > 0 && rel[0] == '/'),
    ensures
        split_slash(rel)[0] != seq!['.'],
{
    let segs = split_slash(rel);
    crate::text::lemma_split_slash_nonempty(rel);
    if segs[0] == seq!['.'] {
        let c = path_components(rel);
        let rest = segments_components(segs);
        assert(c =~= seq![ComponentView::CurDir] + rest);
        let one = seq![ComponentView::CurDir];
        lemma_written_parts_concat(one, rest);
        assert(one.last() is CurDir);
        assert(one.drop_last() =~= Seq::<ComponentView>::empty());
        assert(written_parts(Seq::<ComponentView>::empty()) == Seq::<Seq<char>>::empty());
        assert(written_parts(one) =~= Seq::<Seq<char>>::empty());
        let wr = written_parts(rest);
        assert(written_parts(c) =~= wr);
        assert forall|k: int| 0 <= k < segs.len() implies !(#[trigger] segs[k]).contains('/') by {
            crate::text::lemma_split_slash_no_separator(rel, k);
        }
        assert forall|k: int| 0 <= k < rest.len() implies is_plain(#[trigger] rest[k]) by {
            lemma_segments_components_plain(segs, k);
        }
        lemma_written_parts_plain(rest);
        if wr.len() == 0 {
            assert(rel =~= Seq::<char>::empty());
            assert(split_slash(rel) == seq![Seq::<char>::empty()]);
        } else {
            lemma_split_join(wr);
            assert(wr[0] == component_text(rest[0])) by {
                lemma_written_parts_first_plain(rest);
            }
            lemma_segments_components_not_dot(segs, 0);
        }
    }
}

/// The first written part of plain components is the first one's text.
proof fn lemma_written_parts_first_plain(cs: Seq<ComponentView>)
    requires
        cs.len() > 0,
        forall|k: int| 0 <= k < cs.len() ==> is_plain(#[trigger] cs[k]),
    ensures
        written_parts(cs)[0] == component_text(cs[0]),
    decreases cs.len(),
{
    if cs.len() > 1 {
        assert forall|k: int| 0 <= k < cs.drop_last().len() implies is_plain(#[trigger] cs.drop_last()[k]) by {
            assert(cs.drop_last()[k] == cs[k]);
        }
        lemma_written_parts_first_plain(cs.drop_last());
        lemma_written_parts_plain(cs.drop_last());
        assert(is_plain(cs[cs.len() - 1]));
        assert(!(cs.last() is CurDir));
        assert(cs.drop_last()[0] == cs[0]);
        assert(written_parts(cs) == written_parts(cs.drop_last()).push(component_text(cs.last())));
    } else {
        assert(cs.drop_last() =~= Seq::<ComponentView>::empty());
        assert(written_parts(Seq::<ComponentView>::empty()) == Seq::<Seq<char>>::empty());
        assert(is_plain(cs[0]));
        assert(cs.last() == cs[0]);
        assert(!(cs.last() is CurDir));
        assert(written_parts(cs) == written_parts(cs.drop_last()).push(component_text(cs.last())));
    }
}

/// A root-relative path in normal form, joined onto a root and written in
/// the root style, is itself: the renderer shows root-relative paths as they
/// are stored.
pub proof fn law_root_style_shows_stored_path(root: Seq<char>, rel: Seq<char>)
    requires
        rel == forward_slashed(path_components(rel)),
        !(rel.len() > 0 && rel[0] == '/'),
    ensures
        styled(root, joined(root, rel), PathStyle::Root, Seq::empty()) == Some(rel),
{
    let abs = joined(root, rel);
    let sl = split_slash(rel);
    crate::text::lemma_split_slash_nonempty(rel);
    lemma_normal_form_no_dot_start(rel);
    assert(path_components(rel) =~= segments_components(sl));
    let c = path_components(root);
    if root.len() == 0 {
        assert(split_slash(root) == seq![Seq::<char>::empty()]);
        lemma_empty_piece_no_components();
        assert(c =~= Seq::<ComponentView>::empty());
        assert(abs == rel);
    } else {
        lemma_joined_components(root, rel);
    }
    assert(path_components(abs).take(c.len() as int) =~= c);
    assert(path_components(abs).skip(c.len() as int) =~= segments_components(sl));
}

/// A path that starts with `/` writes at least one part.
proof fn lemma_absolute_writes_parts(p: Seq<char>)
    requires
        p.len() > 0,
        p[0] == '/',
    ensures
        written_parts(path_components(p)).len() > 0,
{
    let c = path_components(p);
    assert(c[0] is RootDir);
    let head = seq![c[0]];
    assert(c =~= head + c.drop_first());
    lemma_written_parts_concat(head, c.drop_first());
    assert(head.drop_last() =~= Seq::<ComponentView>::empty());
    assert(written_parts(Seq::<ComponentView>::empty()) == Seq::<Seq<char>>::empty());
    assert(!(head.last() is CurDir));
    assert(written_parts(head).len() == 1);
}

/// A path strictly below the root, relativised and joined back onto the root,
/// is the path again (the path written in normal form, the root too, with or
/// without a final `/`).
pub proof fn law_absolutise_inverts_relativise(root: Seq<char>, abs: Seq<char>)
    requires
        root == forward_slashed(path_components(root)) || root == forward_slashed(
            path_components(root),
        ) + seq!['/'],
        abs == forward_slashed(path_components(abs)),
        relative_to(root, abs) is Some,
        relative_to(root, abs)->0.len() > 0,
    ensures
        joined(root, relative_to(root, abs)->0) == abs,
{
    let c = path_components(root);
    let d = path_components(abs);
    let r = d.skip(c.len() as int);
    let rel = relative_to(root, abs)->0;
    let f = forward_slashed(c);
    assert(d =~= c + r);
    lemma_written_parts_concat(c, r);
    let wc = written_parts(c);
    let wr = written_parts(r);
    assert(rel == join_slash(wr));
    assert(wr.len() > 0);
    if c.len() == 0 {
        assert(wc =~= Seq::<Seq<char>>::empty());
        if root == f + seq!['/'] {
            assert(root =~= seq!['/']);
            lemma_absolute_writes_parts(root);
        }
        assert(root.len() == 0);
        assert(r =~= d);
    } else {
        lemma_joined_root_rel(root, abs);
    }
}

/// The case of [`law_absolutise_inverts_relativise`] where the root has
/// components.
proof fn lemma_joined_root_rel(root: Seq<char>, abs: Seq<char>)
    requires
        root == forward_slashed(path_components(root)) || root == forward_slashed(
            path_components(root),
        ) + seq!['/'],
        abs == forward_slashed(path_components(abs)),
        relative_to(root, abs) is Some,
        relative_to(root, abs)->0.len() > 0,
        path_components(root).len() > 0,
    ensures
        joined(root, relative_to(root, abs)->0) == abs,
{
    let c = path_components(root);
    let d = path_components(abs);
    let r = d.skip(c.len() as int);
    let rel = relative_to(root, abs)->0;
    let f = forward_slashed(c);
    assert(d =~= c + r);
    lemma_written_parts_concat(c, r);
    let wc = written_parts(c);
    let wr = written_parts(r);
    assert(rel == join_slash(wr));
    // the components past the root are plain, so `rel` starts with a name
    assert forall|k: int| 0 <= k < r.len() implies is_plain(#[trigger] r[k]) by {
        lemma_path_components_plain(abs, c.len() + k);
        assert(d[c.len() + k] == r[k]);
    }
    lemma_written_parts_plain(r);
    crate::text::lemma_join_slash_first(wr);
    assert(rel[0] == wr[0][0]);
    if rel[0] == '/' {
        assert(wr[0].contains('/'));
    }
    if wc.len() == 0 {
        assert(f.len() == 0);
        if root == f + seq!['/'] {
            assert(root =~= seq!['/']);
            lemma_absolute_writes_parts(root);
        } else {
            assert(root =~= Seq::<char>::empty());
            lemma_components_of_empty();
        }
    } else {
        crate::text::lemma_join_slash_concat(wc, wr);
        assert(abs == f + seq!['/'] + rel);
        if root == f {
            lemma_normal_form_last(root);
        } else {
            assert(root.last() == '/');
            assert(root + rel =~= f + seq!['/'] + rel);
        }
    }
}

/// A component a named piece stands for is `..`, or a name that is neither
/// empty, `.` nor `..`.
pub open spec fn is_named_component(c: ComponentView) -> bool {
    match c {
        ComponentView::ParentDir => true,
        ComponentView::Normal(t) => is_named_segment(t) && t != seq!['.', '.'],
        _ => false,
    }
}

proof fn lemma_segments_components_named(segs: Seq<Seq<char>>, i: int)
    requires
        0 <= i < segments_components(segs).len(),
    ensures
        is_named_component(segments_components(segs)[i]),
    decreases segs.len(),
{
    if segs.len() > 0 {
        let prev = segments_components(segs.drop_last());
        if i < prev.len() {
            lemma_segments_components_named(segs.drop_last(), i);
        }
    }
}

/// Every component of a path but the first is named.
proof fn lemma_path_components_named(s: Seq<char>, i: int)
    requires
        1 <= i < path_components(s).len(),
    ensures
        is_named_component(path_components(s)[i]),
{
    let segs = split_slash(s);
    crate::text::lemma_split_slash_nonempty(s);
    let head = path_components(s).len() - segments_components(segs).len();
    assert(head <= 1);
    lemma_segments_components_named(segs, i - head);
}

/// Named components, written and read back as pieces, are themselves.
proof fn lemma_segments_of_written(r: Seq<ComponentView>)
    requires
        forall|k: int| 0 <= k < r.len() ==> is_named_component(#[trigger] r[k]),
    ensures
        segments_components(written_parts(r)) == r,
    decreases r.len(),
{
    if r.len() > 0 {
        let init = r.drop_last();
        assert forall|k: int| 0 <= k < init.len() implies is_named_component(#[trigger] init[k]) by {
            assert(init[k] == r[k]);
        }
        lemma_segments_of_written(init);
        let last = r.last();
        assert(is_named_component(r[r.len() - 1]));
        assert(!(last is CurDir));
        let w = written_parts(r);
        assert(w == written_parts(init).push(component_text(last)));
        assert(w.drop_last() =~= written_parts(init));
        assert(w.last() == component_text(last));
        if last is ParentDir {
            assert(is_named_segment(seq!['.', '.'])) by {
                assert(seq!['.', '.'].len() != seq!['.'].len());
            }
        }
        assert(is_named_segment(w.last()));
        assert(segment_component(w.last()) == last);
        assert(segments_components(w) =~= r);
    }
}

/// The root with a final `/` put after it has the root's components.
proof fn lemma_joined_empty_components(root: Seq<char>)
    requires
        root.len() > 0,
    ensures
        path_components(joined(root, Seq::empty())) == path_components(root),
{
    if root.last() != '/' {
        let j = joined(root, Seq::empty());
        assert(j =~= root + seq!['/']);
        lemma_trailing_separator_components(root);
        assert(j[0] == root[0]);
    } else {
        assert(joined(root, Seq::empty()) =~= root);
    }
}

/// A path below the root, relativised and joined back onto the root, has the
/// path's components again (the root's own components are compared as they
/// are, so a `.` root is kept). It fails only where the root has no
/// components at all and the path starts with `.` or is `/` alone.
pub proof fn law_absolutise_relativise_components(root: Seq<char>, abs: Seq<char>)
    requires
        relative_to(root, abs) is Some,
        !(path_components(root).len() == 0 && path_components(abs).len() > 0 && (path_components(
            abs,
        )[0] is CurDir || path_components(abs) == seq![ComponentView::RootDir])),
    ensures
        path_components(joined(root, relative_to(root, abs)->0)) == path_components(abs),
{
    let c = path_components(root);
    let d = path_components(abs);
    let r = d.skip(c.len() as int);
    let rel = relative_to(root, abs)->0;
    assert(d =~= c + r);
    assert(rel == forward_slashed(r));
    if c.len() == 0 {
        if root.len() > 0 {
            lemma_root_has_components(root);
        }
        assert(r =~= d);
        // the path's first component is the root directory or named
        assert forall|k: int| 1 <= k < d.len() implies is_named_component(#[trigger] d[k]) by {
            lemma_path_components_named(abs, k);
        }
        lemma_components_of_forward_slashed(abs);
        if rel.len() > 0 && rel[0] == '/' {
        } else {
            assert(joined(root, rel) =~= rel);
        }
    } else {
        assert(root.len() > 0) by {
            if root.len() == 0 {
                lemma_components_of_empty();
            }
        }
        assert forall|k: int| 0 <= k < r.len() implies is_named_component(#[trigger] r[k]) by {
            lemma_path_components_named(abs, c.len() + k);
            assert(d[c.len() + k] == r[k]);
        }
        if r.len() == 0 {
            assert(written_parts(r) =~= Seq::<Seq<char>>::empty());
            assert(rel =~= Seq::<char>::empty());
            lemma_joined_empty_components(root);
        } else {
            assert forall|k: int| 0 <= k < r.len() implies is_plain(#[trigger] r[k]) by {
                lemma_path_components_plain(abs, c.len() + k);
                assert(d[c.len() + k] == r[k]);
            }
            lemma_written_parts_plain(r);
            let wr = written_parts(r);
            crate::text::lemma_join_slash_first(wr);
            if rel[0] == '/' {
                assert(wr[0].contains('/'));
            }
            lemma_joined_components(root, rel);
            lemma_split_join(wr);
            lemma_segments_of_written(r);
        }
    }
}

/// A non-empty path has at least one component.
proof fn lemma_root_has_components(p: Seq<char>)
    requires
        p.len() > 0,
    ensures
        path_components(p).len() > 0,
{
    let segs = split_slash(p);
    crate::text::lemma_split_slash_nonempty(p);
    lemma_split_slash_first(p);
    if !(p[0] == '/') && segs[0] != seq!['.'] {
        assert(is_named_segment(segs[0]));
        assert(segs =~= seq![segs[0]] + segs.drop_first());
        lemma_segments_components_concat(seq![segs[0]], segs.drop_first());
        assert(seq![segs[0]].drop_last() =~= Seq::<Seq<char>>::empty());
        assert(seq![segs[0]].last() == segs[0]);
        assert(segments_components(Seq::<Seq<char>>::empty()) == Seq::<ComponentView>::empty());
        assert(segments_components(seq![segs[0]]).len() == 1);
    }
}

/// A path whose components after the first are named reads back its
/// components from its written form, unless it starts with `.`.
proof fn lemma_components_of_forward_slashed(p: Seq<char>)
    requires
        forall|k: int| 1 <= k < path_components(p).len() ==> is_named_component(#[trigger] path_components(p)[k]),
        !(path_components(p).len() > 0 && path_components(p)[0] is CurDir),
        path_components(p) != seq![ComponentView::RootDir],
    ensures
        path_components(forward_slashed(path_components(p))) == path_components(p),
{
    let d = path_components(p);
    if d.len() == 0 {
        assert(written_parts(d) =~= Seq::<Seq<char>>::empty());
        assert(forward_slashed(d) =~= Seq::<char>::empty());
        lemma_components_of_empty();
    } else if d[0] is RootDir {
        let rest = d.drop_first();
        assert(d =~= seq![d[0]] + rest);
        assert forall|k: int| 0 <= k < rest.len() implies is_named_component(#[trigger] rest[k]) by {
            assert(d[k + 1] == rest[k]);
        }
        lemma_written_parts_concat(seq![d[0]], rest);
        assert(seq![d[0]].drop_last() =~= Seq::<ComponentView>::empty());
        assert(written_parts(Seq::<ComponentView>::empty()) == Seq::<Seq<char>>::empty());
        assert(written_parts(seq![d[0]]) =~= seq![Seq::<char>::empty()]);
        let wr = written_parts(rest);
        let w = seq![Seq::<char>::empty()] + wr;
        assert(written_parts(d) =~= w);
        lemma_segments_of_written(rest);
        if rest.len() == 0 {
            assert(d =~= seq![ComponentView::RootDir]);
        } else {
            assert forall|k: int| 0 <= k < rest.len() implies is_plain(#[trigger] rest[k]) by {
                lemma_path_components_plain(p, k + 1);
                assert(d[k + 1] == rest[k]);
            }
            lemma_written_parts_plain(rest);
            crate::text::lemma_join_slash_concat(seq![Seq::<char>::empty()], wr);
            assert(join_slash(seq![Seq::<char>::empty()]) == Seq::<char>::empty());
            let f = forward_slashed(d);
            assert(f =~= seq!['/'] + join_slash(wr));
            assert(f =~= Seq::<char>::empty() + seq!['/'] + join_slash(wr));
            crate::text::lemma_split_slash_concat(Seq::<char>::empty(), join_slash(wr));
            lemma_split_join(wr);
            assert(split_slash(Seq::<char>::empty()) == seq![Seq::<char>::empty()]);
            let segs = split_slash(f);
            assert(segs =~= seq![Seq::<char>::empty()] + wr);
            lemma_segments_components_concat(seq![Seq::<char>::empty()], wr);
            lemma_empty_piece_no_components();
            assert(f[0] == '/');
            assert(path_components(f) =~= seq![ComponentView::RootDir] + rest);
        }
    } else {
        let segs = split_slash(p);
        crate::text::lemma_split_slash_nonempty(p);
        assert(!(p.len() > 0 && p[0] == '/'));
        assert(segs[0] != seq!['.']);
        assert(d =~= segments_components(segs));
        assert forall|k: int| 0 <= k < segs.len() implies !(#[trigger] segs[k]).contains('/') by {
            crate::text::lemma_split_slash_no_separator(p, k);
        }
        assert forall|k: int| 0 <= k < d.len() implies is_plain(#[trigger] d[k]) && is_named_component(d[k]) by {
            lemma_segments_components_plain(segs, k);
            lemma_segments_components_named(segs, k);
        }
        lemma_written_parts_plain(d);
        let w = written_parts(d);
        lemma_split_join(w);
        lemma_segments_of_written(d);
        crate::text::lemma_join_slash_first(w);
        let f = forward_slashed(d);
        assert(f[0] == w[0][0]);
        if f[0] == '/' {
            assert(w[0].contains('/'));
        }
        assert(split_slash(f)[0] == w[0]);
        lemma_written_parts_first_plain(d);
        lemma_segments_components_not_dot(segs, 0);
        assert(path_components(f) =~= segments_components(w));
    }
}

/// The empty path has no components.
proof fn lemma_components_of_empty()
    ensures
        path_components(Seq::empty()) == Seq::<ComponentView>::empty(),
{
    let e = Seq::<char>::empty();
    assert(split_slash(e) == seq![Seq::<char>::empty()]);
    assert(seq![Seq::<char>::empty()][0] != seq!['.']) by {
        assert(seq!['.'].len() == 1);
    }
    let one = seq![Seq::<char>::empty()];
    assert(one.drop_last() =~= Seq::<Seq<char>>::empty());
    assert(one.last() == Seq::<char>::empty());
    assert(!is_named_segment(one.last()));
    assert(segments_components(Seq::<Seq<char>>::empty()) == Seq::<ComponentView>::empty());
    assert(segments_components(one) == segments_components(one.drop_last()));
    assert(segments_components(one) =~= Seq::<ComponentView>::empty());
    assert(path_components(e) =~= Seq::<ComponentView>::empty());
}

/// A path in normal form that writes some part does not end with `/`.
proof fn lemma_normal_form_last(p: Seq<char>)
    requires
        p == forward_slashed(path_components(p)),
        written_parts(path_components(p)).len() > 0,
    ensures
        p.len() > 0,
        p.last() != '/',
{
    let c = path_components(p);
    let wc = written_parts(c);
    let rest = c.drop_first();
    assert(c =~= seq![c[0]] + rest);
    assert forall|k: int| 0 <= k < rest.len() implies is_plain(#[trigger] rest[k]) by {
        lemma_path_components_plain(p, k + 1);
        assert(c[k + 1] == rest[k]);
    }
    lemma_written_parts_plain(rest);
    lemma_written_parts_concat(seq![c[0]], rest);
    assert(seq![c[0]].drop_last() =~= Seq::<ComponentView>::empty());
    if rest.len() > 0 {
        assert(wc.last() == written_parts(rest).last());
        assert(written_parts(rest)[rest.len() - 1].len() > 0);
        crate::text::lemma_join_slash_last(wc);
        if p.last() == '/' {
            assert(written_parts(rest)[rest.len() - 1].contains('/'));
        }
    } else {
        assert(wc =~= written_parts(seq![c[0]]));
        if c[0] is RootDir {
            assert(wc =~= seq![Seq::<char>::empty()]);
            assert(p =~= Seq::<char>::empty());
            lemma_components_of_empty();
        } else {
            assert(!(c[0] is CurDir));
            assert(is_plain(c[0])) by {
                let segs = split_slash(p);
                crate::text::lemma_split_slash_nonempty(p);
                assert forall|k: int| 0 <= k < segs.len() implies !(#[trigger] segs[k]).contains('/') by {
                    crate::text::lemma_split_slash_no_separator(p, k);
                }
                if !(p.len() > 0 && p[0] == '/') && segs[0] != seq!['.'] {
                    lemma_segments_components_plain(segs, 0);
                }
            }
            lemma_written_parts_plain(seq![c[0]]);
            crate::text::lemma_join_slash_last(wc);
            if p.last() == '/' {
                assert(wc[0].contains('/'));
            }
        }
    }
}

proof fn lemma_common_prefix_len_self(a: Seq<ComponentView>)
    ensures
        common_prefix_len(a, a) == a.len(),
    decreases a.len(),
{
    if a.len() > 0 {
        lemma_common_prefix_len_self(a.drop_first());
    }
}

/// A path with at least one component, written relative to itself, is `.`.
pub proof fn law_relative_to_itself(p: Seq<char>)
    requires
        path_components(p).len() > 0,
    ensures
        relative_text(p, p) == seq!['.'],
{
    let c = path_components(p);
    lemma_common_prefix_len_self(c);
    assert(c.skip(c.len() as int) =~= Seq::<ComponentView>::empty());
    assert(relative_parts(c, c) =~= Seq::<Seq<char>>::empty());
}

/// Whether a path names a `*.libsonnet` file depends on its last segment
/// alone: putting any directory text in front changes nothing, and a single
/// segment is one exactly when it ends with `.libsonnet`.
pub proof fn law_libsonnet_by_last_segment(dir: Seq<char>, p: Seq<char>)
    ensures
        is_libsonnet(dir + seq!['/'] + p) == is_libsonnet(p),
        !p.contains('/') ==> is_libsonnet(p) == ends_with(p, ".libsonnet"@),
{
    crate::text::lemma_split_slash_concat(dir, p);
    crate::text::lemma_split_slash_nonempty(p);
    assert((split_slash(dir) + split_slash(p)).last() == split_slash(p).last());
    if !p.contains('/') {
        lemma_split_without_separator(p);
        assert(seq![p].last() == p);
    }
}

/// One step of resolving components lexically: `.` is dropped, `..` removes a
/// name before it (and is kept otherwise), anything else is appended.
pub open spec fn resolve_step(acc: Seq<ComponentView>, c: ComponentView) -> Seq<ComponentView> {
    match c {
        ComponentView::CurDir => acc,
        ComponentView::ParentDir => if acc.len() > 0 && acc.last() is Normal {
            acc.drop_last()
        } else {
            acc.push(c)
        },
        _ => acc.push(c),
    }
}

/// `cs` resolved lexically, step by step, after `acc`.
pub open spec fn resolve_onto(acc: Seq<ComponentView>, cs: Seq<ComponentView>) -> Seq<ComponentView>
    decreases cs.len(),
{
    if cs.len() == 0 {
        acc
    } else {
        resolve_step(resolve_onto(acc, cs.drop_last()), cs.last())
    }
}

/// No component is `.` or `..`.
pub open spec fn no_dots(cs: Seq<ComponentView>) -> bool {
    forall|k: int| 0 <= k < cs.len() ==> !(#[trigger] cs[k] is CurDir) && !(cs[k] is ParentDir)
}

proof fn lemma_resolve_concat(acc: Seq<ComponentView>, a: Seq<ComponentView>, b: Seq<ComponentView>)
    ensures
        resolve_onto(acc, a + b) == resolve_onto(resolve_onto(acc, a), b),
    decreases b.len(),
{
    if b.len() == 0 {
        assert(a + b =~= a);
    } else {
        lemma_resolve_concat(acc, a, b.drop_last());
        assert((a + b).drop_last() =~= a + b.drop_last());
        assert((a + b).last() == b.last());
    }
}

proof fn lemma_resolve_plain(acc: Seq<ComponentView>, cs: Seq<ComponentView>)
    requires
        no_dots(cs),
    ensures
        resolve_onto(acc, cs) == acc + cs,
    decreases cs.len(),
{
    if cs.len() == 0 {
        assert(acc + cs =~= acc);
    } else {
        assert(no_dots(cs.drop_last())) by {
            assert forall|k: int| 0 <= k < cs.drop_last().len() implies !(#[trigger] cs.drop_last()[k] is CurDir) && !(cs.drop_last()[k] is ParentDir) by {
                assert(cs.drop_last()[k] == cs[k]);
            }
        }
        lemma_resolve_plain(acc, cs.drop_last());
        assert(!(cs[cs.len() - 1] is CurDir) && !(cs[cs.len() - 1] is ParentDir));
        assert((acc + cs.drop_last()).push(cs.last()) =~= acc + cs);
    }
}

proof fn lemma_resolve_ups(acc: Seq<ComponentView>, m: nat)
    requires
        m <= acc.len(),
        forall|k: int| acc.len() - m <= k < acc.len() ==> #[trigger] acc[k] is Normal,
    ensures
        resolve_onto(acc, Seq::new(m, |k: int| ComponentView::ParentDir)) == acc.take(acc.len() - m),
    decreases m,
{
    let ups = Seq::new(m, |k: int| ComponentView::ParentDir);
    if m == 0 {
        assert(acc.take(acc.len() as int) =~= acc);
    } else {
        lemma_resolve_ups(acc, (m - 1) as nat);
        assert(ups.drop_last() =~= Seq::new((m - 1) as nat, |k: int| ComponentView::ParentDir));
        let prev = acc.take(acc.len() - m + 1);
        assert(prev.last() == acc[acc.len() - m]);
        assert(prev.drop_last() =~= acc.take(acc.len() - m));
    }
}

proof fn lemma_common_prefix_take(a: Seq<ComponentView>, b: Seq<ComponentView>)
    ensures
        common_prefix_len(a, b) <= a.len(),
        common_prefix_len(a, b) <= b.len(),
        a.take(common_prefix_len(a, b) as int) == b.take(common_prefix_len(a, b) as int),
    decreases a.len(),
{
    if a.len() > 0 && b.len() > 0 && a[0] == b[0] {
        lemma_common_prefix_take(a.drop_first(), b.drop_first());
        let i = common_prefix_len(a, b) as int;
        assert(a.take(i) =~= seq![a[0]] + a.drop_first().take(i - 1));
        assert(b.take(i) =~= seq![b[0]] + b.drop_first().take(i - 1));
    } else {
        assert(a.take(0) =~= b.take(0));
    }
}

proof fn lemma_named_parts_of_names(cs: Seq<ComponentView>)
    requires
        forall|k: int| 0 <= k < cs.len() ==> #[trigger] cs[k] is Normal,
    ensures
        named_parts(cs) == written_parts(cs),
    decreases cs.len(),
{
    if cs.len() > 0 {
        assert forall|k: int| 0 <= k < cs.drop_last().len() implies #[trigger] cs.drop_last()[k] is Normal by {
            assert(cs.drop_last()[k] == cs[k]);
        }
        lemma_named_parts_of_names(cs.drop_last());
        assert(cs[cs.len() - 1] is Normal);
    }
}

proof fn lemma_written_ups(m: nat)
    ensures
        written_parts(Seq::new(m, |k: int| ComponentView::ParentDir)) == Seq::new(m, |k: int| seq!['.', '.']),
    decreases m,
{
    if m > 0 {
        lemma_written_ups((m - 1) as nat);
        let ups = Seq::new(m, |k: int| ComponentView::ParentDir);
        assert(ups.drop_last() =~= Seq::new((m - 1) as nat, |k: int| ComponentView::ParentDir));
        assert(ups.last() == ComponentView::ParentDir);
        assert(Seq::new((m - 1) as nat, |k: int| seq!['.', '.']).push(seq!['.', '.']) =~= Seq::new(
            m,
            |k: int| seq!['.', '.'],
        ));
    } else {
        assert(Seq::new(0, |k: int| ComponentView::ParentDir) =~= Seq::<ComponentView>::empty());
        assert(Seq::new(0, |k: int| seq!['.', '.']) =~= Seq::<Seq<char>>::empty());
    }
}

/// The way from `base` to `target` leads there: when the two share a leading
/// component and neither holds `.` or `..`, resolving the base followed by
/// the relative text, lexically, gives the target's components. So the text
/// climbs exactly as many levels as the base lies below the shared prefix.
pub proof fn law_relative_text_leads_to_target(base: Seq<char>, target: Seq<char>)
    requires
        common_prefix_len(path_components(base), path_components(target)) > 0,
        no_dots(path_components(base)),
        no_dots(path_components(target)),
    ensures
        resolve_onto(Seq::empty(), path_components(joined(base, relative_text(base, target))))
            == path_components(target),
{
    let b = path_components(base);
    let t = path_components(target);
    let i = common_prefix_len(b, t) as int;
    lemma_common_prefix_take(b, t);
    let m = (b.len() - i) as nat;
    let ups = Seq::new(m, |k: int| ComponentView::ParentDir);
    let rest = t.skip(i);
    // past the first, every component of a path without dots is a name
    assert forall|k: int| 1 <= k < b.len() implies #[trigger] b[k] is Normal by {
        lemma_path_components_named(base, k);
    }
    assert forall|k: int| 0 <= k < rest.len() implies #[trigger] rest[k] is Normal && is_named_component(rest[k])
        && is_plain(rest[k]) by {
        lemma_path_components_named(target, i + k);
        lemma_path_components_plain(target, i + k);
        assert(rest[k] == t[i + k]);
    }
    let comps = ups + rest;
    assert forall|k: int| 0 <= k < comps.len() implies is_named_component(#[trigger] comps[k]) && is_plain(comps[k]) by {
        if k >= m {
            assert(comps[k] == rest[k - m]);
        }
    }
    lemma_named_parts_of_names(rest);
    lemma_written_ups(m);
    lemma_written_parts_concat(ups, rest);
    let parts = written_parts(comps);
    assert(relative_parts(b, t) == parts);
    lemma_written_parts_plain(comps);
    lemma_segments_of_written(comps);
    assert(base.len() > 0) by {
        if base.len() == 0 {
            lemma_components_of_empty();
        }
    }
    let text = relative_text(base, target);
    // the resolved base is the base itself; then the `..`s climb back to the
    // shared prefix, and the rest of the target follows
    lemma_resolve_plain(Seq::empty(), b);
    assert(Seq::<ComponentView>::empty() + b =~= b);
    lemma_resolve_ups(b, m);
    lemma_resolve_concat(Seq::empty(), b, ups);
    lemma_resolve_concat(Seq::empty(), b + ups, rest);
    assert(no_dots(rest)) by {
        assert forall|k: int| 0 <= k < rest.len() implies !(#[trigger] rest[k] is CurDir) && !(rest[k] is ParentDir) by {
            assert(rest[k] is Normal);
        }
    }
    lemma_resolve_plain(b.take(i), rest);
    assert(b.take(i) + rest =~= t);
    if parts.len() == 0 {
        assert(text == seq!['.']);
        assert(!seq!['.'].contains('/')) by {
            if seq!['.'].contains('/') {
                let k = choose|k: int| 0 <= k < 1 && seq!['.'][k] == '/';
            }
        }
        lemma_split_without_separator(seq!['.']);
        assert(seq![seq!['.']].drop_last() =~= Seq::<Seq<char>>::empty());
        assert(seq![seq!['.']].last() == seq!['.']);
        assert(segments_components(Seq::<Seq<char>>::empty()) == Seq::<ComponentView>::empty());
        assert(segments_components(seq![seq!['.']]) =~= Seq::<ComponentView>::empty());
        lemma_joined_components(base, text);
        assert(comps.len() == 0);
        assert(b + ups + rest =~= b);
        assert(path_components(joined(base, text)) =~= b + ups + rest);
    } else {
        assert(text == join_slash(parts));
        crate::text::lemma_join_slash_first(parts);
        if text[0] == '/' {
            assert(parts[0].contains('/'));
        }
        lemma_joined_components(base, text);
        lemma_split_join(parts);
        assert(path_components(joined(base, text)) =~= b + ups + rest);
    }
    assert(b + ups + rest =~= (b + ups) + rest);
}

} // verus!
