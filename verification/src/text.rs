//! Character-level helpers: the lexicographic order of strings, conversions
//! between `String` and character vectors, and `/`-joined / `/`-split text.

use vstd::prelude::*;

verus! {

broadcast use vstd::seq_lib::group_seq_properties;

/// Strict lexicographic order on character sequences.
///
/// This is the order of `str` and `String`: their `Ord` compares the UTF-8
/// bytes, and UTF-8 encoding preserves the order of code points.
pub open spec fn seq_lt(a: Seq<char>, b: Seq<char>) -> bool
    decreases a.len(),
{
    if a.len() == 0 {
        b.len() > 0
    } else if b.len() == 0 {
        false
    } else if a[0] != b[0] {
        (a[0] as int) < (b[0] as int)
    } else {
        seq_lt(a.drop_first(), b.drop_first())
    }
}

/// No sequence is below itself.
pub proof fn lemma_seq_lt_irreflexive(a: Seq<char>)
    ensures
        !seq_lt(a, a),
    decreases a.len(),
{
    if a.len() > 0 {
        lemma_seq_lt_irreflexive(a.drop_first());
    }
}

/// Two sequences are never below each other.
pub proof fn lemma_seq_lt_asymmetric(a: Seq<char>, b: Seq<char>)
    ensures
        !(seq_lt(a, b) && seq_lt(b, a)),
    decreases a.len(),
{
    if a.len() > 0 && b.len() > 0 && a[0] == b[0] {
        lemma_seq_lt_asymmetric(a.drop_first(), b.drop_first());
    }
}

/// The order is transitive.
pub proof fn lemma_seq_lt_transitive(a: Seq<char>, b: Seq<char>, c: Seq<char>)
    requires
        seq_lt(a, b),
        seq_lt(b, c),
    ensures
        seq_lt(a, c),
    decreases a.len(),
{
    if a.len() > 0 && b.len() > 0 && c.len() > 0 && a[0] == b[0] && b[0] == c[0] {
        lemma_seq_lt_transitive(a.drop_first(), b.drop_first(), c.drop_first());
    }
}

/// Two distinct sequences are ordered one way or the other.
pub proof fn lemma_seq_lt_total(a: Seq<char>, b: Seq<char>)
    ensures
        a == b || seq_lt(a, b) || seq_lt(b, a),
    decreases a.len(),
{
    if a.len() > 0 && b.len() > 0 && a[0] == b[0] {
        lemma_seq_lt_total(a.drop_first(), b.drop_first());
        if a.drop_first() == b.drop_first() {
            assert(a =~= seq![a[0]] + a.drop_first());
            assert(b =~= seq![b[0]] + b.drop_first());
        }
    } else if a.len() == 0 && b.len() == 0 {
        assert(a =~= b);
    } else if a.len() > 0 && b.len() > 0 {
        assert((a[0] as int) != (b[0] as int));
    }
}

/// `lhs` comes strictly before `rhs` in lexicographic order.
pub fn chars_less(lhs: &Vec<char>, rhs: &Vec<char>) -> (res: bool)
    ensures
        res == seq_lt(lhs@, rhs@),
{
    let mut i: usize = 0;
    while i < lhs.len() && i < rhs.len()
        invariant
            i <= lhs@.len(),
            i <= rhs@.len(),
            seq_lt(lhs@, rhs@) == seq_lt(lhs@.skip(i as int), rhs@.skip(i as int)),
        decreases lhs@.len() - i,
    {
        let l = lhs[i];
        let r = rhs[i];
        assert(lhs@.skip(i as int)[0] == l);
        assert(rhs@.skip(i as int)[0] == r);
        if l != r {
            return l < r;
        }
        assert(lhs@.skip(i as int).drop_first() =~= lhs@.skip(i + 1));
        assert(rhs@.skip(i as int).drop_first() =~= rhs@.skip(i + 1));
        i = i + 1;
    }
    i < rhs.len()
}

/// The characters of `s`, in order.
pub fn chars_of(s: &str) -> (v: Vec<char>)
    ensures
        v@ == s@,
{
    let mut v: Vec<char> = Vec::new();
    for c in it: s.chars()
        invariant
            v@ == it.seq().take(it.index() as int),
    {
        v.push(c);
    }
    v
}

/// Appends one character to a `String` (`String::push`).
#[verifier::external_body]
pub(crate) fn push_char(s: &mut String, c: char)
    ensures
        final(s)@ == old(s)@.push(c),
{
    s.push(c);
}

/// The string made of the characters of `cs`, in order.
pub fn string_from_chars(cs: &Vec<char>) -> (s: String)
    ensures
        s@ == cs@,
{
    let mut s = String::new();
    let mut i: usize = 0;
    while i < cs.len()
        invariant
            i <= cs@.len(),
            s@ == cs@.take(i as int),
        decreases cs@.len() - i,
    {
        push_char(&mut s, cs[i]);
        assert(cs@.take(i + 1) =~= cs@.take(i as int).push(cs@[i as int]));
        i = i + 1;
    }
    assert(cs@.take(cs@.len() as int) =~= cs@);
    s
}

/// `parts` joined with `/` between consecutive parts.
pub open spec fn join_slash(parts: Seq<Seq<char>>) -> Seq<char>
    decreases parts.len(),
{
    if parts.len() == 0 {
        Seq::empty()
    } else if parts.len() == 1 {
        parts[0]
    } else {
        join_slash(parts.drop_last()) + seq!['/'] + parts.last()
    }
}

/// `s` split at every `/`; there is always at least one (possibly empty) piece.
pub open spec fn split_slash(s: Seq<char>) -> Seq<Seq<char>>
    decreases s.len(),
{
    if s.len() == 0 {
        seq![Seq::empty()]
    } else {
        let prev = split_slash(s.drop_last());
        if s.last() == '/' {
            prev.push(Seq::empty())
        } else {
            prev.update(prev.len() - 1, prev.last().push(s.last()))
        }
    }
}

pub proof fn lemma_split_slash_nonempty(s: Seq<char>)
    ensures
        split_slash(s).len() >= 1,
    decreases s.len(),
{
    if s.len() > 0 {
        lemma_split_slash_nonempty(s.drop_last());
    }
}

/// `s` ends with `suffix`.
pub open spec fn ends_with(s: Seq<char>, suffix: Seq<char>) -> bool {
    suffix.len() <= s.len() && s.subrange(s.len() - suffix.len(), s.len() as int) == suffix
}

/// The two strings have the same characters.
pub fn str_eq(a: &str, b: &str) -> (res: bool)
    ensures
        res == (a@ == b@),
{
    let ca = chars_of(a);
    let cb = chars_of(b);
    if ca.len() != cb.len() {
        return false;
    }
    let mut i: usize = 0;
    while i < ca.len()
        invariant
            ca@ == a@,
            cb@ == b@,
            ca@.len() == cb@.len(),
            i <= ca@.len(),
            forall|k: int| 0 <= k < i ==> ca@[k] == cb@[k],
        decreases ca@.len() - i,
    {
        if ca[i] != cb[i] {
            return false;
        }
        i = i + 1;
    }
    assert(ca@ =~= cb@);
    true
}

/// The views of a sequence of strings.
pub open spec fn string_views(s: Seq<String>) -> Seq<Seq<char>> {
    s.map_values(|x: String| x@)
}

/// `parts` joined with `/` between consecutive parts.
pub fn join_with_slash(parts: &Vec<String>) -> (res: String)
    ensures
        res@ == join_slash(string_views(parts@)),
{
    let ghost views = string_views(parts@);
    let mut text = String::new();
    let mut i: usize = 0;
    while i < parts.len()
        invariant
            i <= parts@.len(),
            views == string_views(parts@),
            text@ == join_slash(views.take(i as int)),
        decreases parts@.len() - i,
    {
        assert(views.take(i + 1).drop_last() =~= views.take(i as int));
        if i > 0 {
            push_char(&mut text, '/');
        }
        text.append(parts[i].as_str());
        i = i + 1;
    }
    assert(views.take(parts@.len() as int) =~= views);
    text
}

/// Splitting `a/b` at every `/` gives the pieces of `a`, then those of `b`.
pub proof fn lemma_split_slash_concat(a: Seq<char>, b: Seq<char>)
    ensures
        split_slash(a + seq!['/'] + b) == split_slash(a) + split_slash(b),
    decreases b.len(),
{
    lemma_split_slash_nonempty(a);
    let s = a + seq!['/'] + b;
    if b.len() == 0 {
        assert(s.drop_last() =~= a);
        assert(split_slash(b) == seq![Seq::<char>::empty()]);
        assert(split_slash(s) =~= split_slash(a) + split_slash(b));
    } else {
        lemma_split_slash_concat(a, b.drop_last());
        lemma_split_slash_nonempty(b.drop_last());
        assert(s.drop_last() =~= a + seq!['/'] + b.drop_last());
        assert(s.last() == b.last());
        let pa = split_slash(a);
        let pb = split_slash(b.drop_last());
        if b.last() == '/' {
            assert(split_slash(s) =~= (pa + pb).push(Seq::empty()));
            assert((pa + pb).push(Seq::empty()) =~= pa + pb.push(Seq::empty()));
        } else {
            let whole = pa + pb;
            assert(whole.last() == pb.last());
            assert(whole.update(whole.len() - 1, whole.last().push(b.last())) =~= pa + pb.update(
                pb.len() - 1,
                pb.last().push(b.last()),
            ));
        }
    }
}

/// No piece of a split contains `/`.
pub proof fn lemma_split_slash_no_separator(s: Seq<char>, i: int)
    requires
        0 <= i < split_slash(s).len(),
    ensures
        !split_slash(s)[i].contains('/'),
    decreases s.len(),
{
    lemma_split_slash_nonempty(s);
    if s.len() > 0 {
        let prev = split_slash(s.drop_last());
        lemma_split_slash_nonempty(s.drop_last());
        if s.last() == '/' {
            if i < prev.len() {
                lemma_split_slash_no_separator(s.drop_last(), i);
            } else {
                assert(split_slash(s)[i] == Seq::<char>::empty());
            }
        } else {
            if i < prev.len() - 1 {
                lemma_split_slash_no_separator(s.drop_last(), i);
            } else {
                lemma_split_slash_no_separator(s.drop_last(), prev.len() - 1);
                let piece = prev.last().push(s.last());
                assert(split_slash(s)[i] == piece);
                if piece.contains('/') {
                    let k = choose|k: int| 0 <= k < piece.len() && piece[k] == '/';
                    assert(prev.last()[k] == '/');
                }
            }
        }
    }
}

/// Joining two non-empty lists of parts is joining each and putting a `/`
/// between.
pub proof fn lemma_join_slash_concat(x: Seq<Seq<char>>, y: Seq<Seq<char>>)
    requires
        x.len() > 0,
        y.len() > 0,
    ensures
        join_slash(x + y) == join_slash(x) + seq!['/'] + join_slash(y),
    decreases y.len(),
{
    if y.len() == 1 {
        assert((x + y).drop_last() =~= x);
    } else {
        lemma_join_slash_concat(x, y.drop_last());
        assert((x + y).drop_last() =~= x + y.drop_last());
        assert(join_slash(x) + seq!['/'] + join_slash(y.drop_last()) + seq!['/'] + y.last() =~= join_slash(x)
            + seq!['/'] + (join_slash(y.drop_last()) + seq!['/'] + y.last()));
    }
}

/// The first character of a join is that of the first part, when it has one.
pub proof fn lemma_join_slash_first(parts: Seq<Seq<char>>)
    requires
        parts.len() > 0,
        parts[0].len() > 0,
    ensures
        join_slash(parts).len() > 0,
        join_slash(parts)[0] == parts[0][0],
    decreases parts.len(),
{
    if parts.len() > 1 {
        lemma_join_slash_first(parts.drop_last());
    }
}

/// The last character of a join is that of the last part, when it has one.
pub proof fn lemma_join_slash_last(parts: Seq<Seq<char>>)
    requires
        parts.len() > 0,
        parts.last().len() > 0,
    ensures
        join_slash(parts).len() > 0,
        join_slash(parts).last() == parts.last().last(),
{
}

} // verus!
