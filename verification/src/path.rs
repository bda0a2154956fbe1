//! Slash-separated paths as text: when two paths are the same one, and how a
//! path continues another. These are the paths of Unix systems; where a system
//! has another separator, paths are written with slashes before they come here.

use vstd::prelude::*;

use crate::text;
use crate::text::chars_of;

verus! {

/// The length of the first segment: up to the first slash, or the whole text.
pub open spec fn segment_len(s: Seq<char>) -> nat
    decreases s.len(),
{
    if s.len() == 0 || s[0] == '/' {
        0
    } else {
        1 + segment_len(s.drop_first())
    }
}

/// What follows the first segment and its slash.
pub open spec fn after_segment(s: Seq<char>) -> Seq<char> {
    if segment_len(s) < s.len() {
        s.skip(segment_len(s) as int + 1)
    } else {
        Seq::empty()
    }
}

/// A segment that names nothing: an empty one, or a single dot.
pub open spec fn is_idle(segment: Seq<char>) -> bool {
    segment.len() == 0 || segment == seq!['.']
}

/// The segments that name something, in order.
pub open spec fn segments(s: Seq<char>) -> Seq<Seq<char>>
    decreases s.len(),
{
    if s.len() == 0 {
        Seq::empty()
    } else {
        let head = s.take(segment_len(s) as int);
        let rest = segments(after_segment(s));
        if is_idle(head) {
            rest
        } else {
            seq![head] + rest
        }
    }
}

/// What a path stands for.
pub struct PathView {
    /// It starts at the root.
    pub rooted: bool,
    /// It starts with the current directory, written out.
    pub dotted: bool,
    /// The segments that name something.
    pub segments: Seq<Seq<char>>,
}

/// Repeated and trailing slashes are ignored, and so is a dot segment, except as
/// the first one.
pub open spec fn path_view(s: Seq<char>) -> PathView {
    PathView {
        rooted: s.len() > 0 && s[0] == '/',
        dotted: s.take(segment_len(s) as int) == seq!['.'],
        segments: segments(s),
    }
}

/// Whether two paths are the same, component by component.
pub open spec fn same_path(a: Seq<char>, b: Seq<char>) -> bool {
    path_view(a) == path_view(b)
}

/// `path` continued by `next`: an absolute `next` takes its place, otherwise a
/// slash parts the two.
pub open spec fn joined(path: Seq<char>, next: Seq<char>) -> Seq<char> {
    if next.len() > 0 && next[0] == '/' {
        next
    } else if path.len() == 0 || path.last() == '/' {
        path + next
    } else {
        path.push('/') + next
    }
}

proof fn lemma_segment_len(s: Seq<char>)
    ensures
        segment_len(s) <= s.len(),
        segment_len(s) < s.len() ==> s[segment_len(s) as int] == '/',
        forall|i: int| 0 <= i < segment_len(s) ==> s[i] != '/',
    decreases s.len(),
{
    if s.len() != 0 && s[0] != '/' {
        lemma_segment_len(s.drop_first());
        assert forall|i: int| 0 <= i < segment_len(s) implies s[i] != '/' by {
            if i > 0 {
                assert(s[i] == s.drop_first()[i - 1]);
            }
        }
    }
}

/// The length of the first segment that starts at `from`.
fn segment_end(s: &[char], from: usize) -> (end: usize)
    requires
        from <= s@.len(),
    ensures
        end == from + segment_len(s@.skip(from as int)),
        from <= end <= s@.len(),
{
    let mut end: usize = from;
    while end < s.len() && s[end] != '/'
        invariant
            from <= end <= s@.len(),
            segment_len(s@.skip(from as int)) == (end - from) + segment_len(s@.skip(end as int)),
        decreases s.len() - end,
    {
        assert(s@.skip(end as int).drop_first() =~= s@.skip(end + 1));
        end = end + 1;
    }
    end
}

/// The segments of a path that name something.
fn path_segments(s: &[char]) -> (parts: Vec<Vec<char>>)
    ensures
        parts@.map_values(|p: Vec<char>| p@) == segments(s@),
{
    let mut parts: Vec<Vec<char>> = Vec::new();
    let mut from: usize = 0;
    assert(s@.skip(0) =~= s@);
    assert(parts@.map_values(|p: Vec<char>| p@) + segments(s@) =~= segments(s@));
    while from < s.len()
        invariant
            from <= s@.len(),
            segments(s@) == parts@.map_values(|p: Vec<char>| p@) + segments(s@.skip(from as int)),
        decreases s.len() - from,
    {
        let ghost here = s@.skip(from as int);
        let end = segment_end(s, from);
        proof {
            lemma_segment_len(here);
        }
        let ghost head = here.take(segment_len(here) as int);
        assert(head =~= s@.subrange(from as int, end as int));
        if end > from && !(end - from == 1 && s[from] == '.') {
            let mut part: Vec<char> = Vec::new();
            let mut i: usize = from;
            while i < end
                invariant
                    from <= i <= end <= s@.len(),
                    part@ == s@.subrange(from as int, i as int),
                decreases end - i,
            {
                part.push(s[i]);
                i = i + 1;
            }
            assert(!is_idle(head)) by {
                if head.len() == 1 {
                    assert(head[0] == s@[from as int]);
                }
            }
            let ghost before = parts@.map_values(|p: Vec<char>| p@);
            parts.push(part);
            assert(parts@.map_values(|p: Vec<char>| p@) =~= before.push(head));
            assert(before.push(head) + segments(after_segment(here)) =~= before + (seq![head]
                + segments(after_segment(here))));
        } else {
            assert(is_idle(head)) by {
                if head.len() == 1 {
                    assert(head =~= seq!['.']);
                }
            }
        }
        if end < s.len() {
            assert(after_segment(here) =~= s@.skip(end + 1));
            from = end + 1;
        } else {
            assert(after_segment(here) =~= s@.skip(end as int));
            from = end;
        }
    }
    assert(s@.skip(from as int).len() == 0);
    assert(parts@.map_values(|p: Vec<char>| p@) + Seq::<Seq<char>>::empty() =~= parts@.map_values(
        |p: Vec<char>| p@,
    ));
    parts
}

fn chars_equal(a: &Vec<char>, b: &Vec<char>) -> (same: bool)
    ensures
        same == (a@ == b@),
{
    if a.len() != b.len() {
        return false;
    }
    for i in 0..a.len()
        invariant
            a.len() == b.len(),
            forall|j: int| 0 <= j < i ==> a@[j] == b@[j],
    {
        if a[i] != b[i] {
            return false;
        }
    }
    assert(a@ =~= b@);
    true
}

fn starts_dotted(s: &[char]) -> (dotted: bool)
    ensures
        dotted == path_view(s@).dotted,
{
    assert(s@.skip(0) =~= s@);
    let end = segment_end(s, 0);
    let ghost head = s@.take(end as int);
    if end == 1 && s[0] == '.' {
        assert(head =~= seq!['.']);
        true
    } else {
        assert(head != seq!['.']) by {
            if head == seq!['.'] {
                assert(head.len() == 1 && head[0] == '.');
            }
        }
        false
    }
}

/// Whether the two paths are the same (see [`same_path`]).
pub fn paths_equal(a: &str, b: &str) -> (same: bool)
    ensures
        same == same_path(a@, b@),
{
    let x = chars_of(a);
    let y = chars_of(b);
    let x_rooted = x.len() > 0 && x[0] == '/';
    let y_rooted = y.len() > 0 && y[0] == '/';
    if x_rooted != y_rooted {
        return false;
    }
    if starts_dotted(x.as_slice()) != starts_dotted(y.as_slice()) {
        return false;
    }
    let p = path_segments(x.as_slice());
    let q = path_segments(y.as_slice());
    let ghost ps = p@.map_values(|p: Vec<char>| p@);
    let ghost qs = q@.map_values(|p: Vec<char>| p@);
    if p.len() != q.len() {
        assert(ps.len() != qs.len());
        return false;
    }
    for i in 0..p.len()
        invariant
            p.len() == q.len(),
            ps == p@.map_values(|p: Vec<char>| p@),
            qs == q@.map_values(|p: Vec<char>| p@),
            ps == segments(a@),
            qs == segments(b@),
            forall|j: int| 0 <= j < i ==> ps[j] == qs[j],
    {
        if !chars_equal(&p[i], &q[i]) {
            assert(ps[i as int] != qs[i as int]);
            return false;
        }
    }
    assert(ps =~= qs);
    true
}

/// `path` continued by `next` (see [`joined`]).
pub fn join(path: &str, next: &str) -> (whole: String)
    ensures
        whole@ == joined(path@, next@),
{
    let p = chars_of(path);
    let n = chars_of(next);
    if n.len() > 0 && n[0] == '/' {
        return next.to_owned();
    }
    let mut whole = path.to_owned();
    if p.len() > 0 && p[p.len() - 1] != '/' {
        whole.push('/');
    }
    whole.append(next);
    whole
}

proof fn lemma_first_segment(s: Seq<char>, rest: Seq<char>)
    ensures
        segment_len(s + seq!['/'] + rest) == segment_len(s),
        (s + seq!['/'] + rest).take(segment_len(s) as int) == s.take(segment_len(s) as int),
    decreases s.len(),
{
    let whole = s + seq!['/'] + rest;
    lemma_segment_len(s);
    if s.len() > 0 && s[0] != '/' {
        assert(whole.drop_first() =~= s.drop_first() + seq!['/'] + rest);
        lemma_first_segment(s.drop_first(), rest);
    }
    assert(whole.take(segment_len(s) as int) =~= s.take(segment_len(s) as int));
}

/// A slash parts a path into two whose segments follow one another.
pub proof fn segments_split_at_slash(a: Seq<char>, b: Seq<char>)
    ensures
        segments(a + seq!['/'] + b) == segments(a) + segments(b),
        a.len() > 0 ==> path_view(a + seq!['/'] + b).rooted == path_view(a).rooted,
        path_view(a + seq!['/'] + b).dotted == path_view(a).dotted,
    decreases a.len(),
{
    let whole = a + seq!['/'] + b;
    let n = segment_len(a) as int;
    lemma_segment_len(a);
    lemma_first_segment(a, b);
    let head = a.take(n);
    assert(whole.len() > 0);
    if n < a.len() {
        assert(after_segment(whole) =~= after_segment(a) + seq!['/'] + b);
        segments_split_at_slash(after_segment(a), b);
        assert(seq![head] + (segments(after_segment(a)) + segments(b)) =~= (seq![head] + segments(
            after_segment(a),
        )) + segments(b));
    } else {
        assert(after_segment(whole) =~= b);
        assert(head =~= a);
        assert(segments(after_segment(a)) =~= Seq::<Seq<char>>::empty());
        assert(seq![head] + segments(b) =~= (seq![head] + Seq::<Seq<char>>::empty()) + segments(b));
        assert(Seq::<Seq<char>>::empty() + segments(b) =~= segments(b));
        if a.len() == 0 {
            assert(segments(a) =~= Seq::<Seq<char>>::empty());
        }
    }
}

/// Repeated slashes, dots between slashes, and a slash or dot at the end make no
/// other path.
pub proof fn spelling_does_not_matter(a: Seq<char>, b: Seq<char>)
    ensures
        same_path(a + seq!['/', '/'] + b, a + seq!['/'] + b),
        same_path(a + seq!['/', '.', '/'] + b, a + seq!['/'] + b),
        a.len() > 0 ==> same_path(a + seq!['/'], a),
        a.len() > 0 ==> same_path(a + seq!['/', '.'], a),
{
    let none = Seq::<char>::empty();
    let no_segments = Seq::<Seq<char>>::empty();
    let dot = seq!['.'];
    assert(segments(none) =~= no_segments);
    assert(segments(dot) =~= no_segments) by {
        assert(segment_len(dot.drop_first()) == 0);
        assert(segment_len(dot) == 1);
        assert(dot.take(1) =~= dot);
        assert(segments(after_segment(dot)) =~= no_segments);
    }
    segments_split_at_slash(a, b);
    segments_split_at_slash(none, b);
    segments_split_at_slash(dot, b);
    assert(no_segments + segments(b) =~= segments(b));
    assert(segments(a) + no_segments =~= segments(a));
    segments_split_at_slash(a, none + seq!['/'] + b);
    assert(a + seq!['/'] + (none + seq!['/'] + b) =~= a + seq!['/', '/'] + b);
    segments_split_at_slash(a, dot + seq!['/'] + b);
    assert(a + seq!['/'] + (dot + seq!['/'] + b) =~= a + seq!['/', '.', '/'] + b);
    segments_split_at_slash(a, none);
    assert(a + seq!['/'] + none =~= a + seq!['/']);
    segments_split_at_slash(a, dot);
    assert(a + seq!['/'] + dot =~= a + seq!['/', '.']);
    if a.len() == 0 {
        assert((a + seq!['/', '/'] + b)[0] == '/');
        assert((a + seq!['/', '.', '/'] + b)[0] == '/');
        assert((a + seq!['/'] + b)[0] == '/');
    }
}

/// Being the same path is an equivalence.
pub proof fn same_path_is_equivalence(a: Seq<char>, b: Seq<char>, c: Seq<char>)
    ensures
        same_path(a, a),
        same_path(a, b) <==> same_path(b, a),
        same_path(a, b) && same_path(b, c) ==> same_path(a, c),
{
}

/// A path from the root is no relative one, and one that starts with a dot segment
/// is none that does not.
pub proof fn same_paths_start_alike(a: Seq<char>, b: Seq<char>)
    requires
        same_path(a, b),
    ensures
        (a.len() > 0 && a[0] == '/') <==> (b.len() > 0 && b[0] == '/'),
        (a.len() > 0 && a[0] == '.' && (a.len() == 1 || a[1] == '/')) <==> (b.len() > 0 && b[0]
            == '.' && (b.len() == 1 || b[1] == '/')),
{
    lemma_dotted(a);
    lemma_dotted(b);
}

proof fn lemma_dotted(s: Seq<char>)
    ensures
        path_view(s).dotted <==> (s.len() > 0 && s[0] == '.' && (s.len() == 1 || s[1] == '/')),
{
    lemma_segment_len(s);
    let head = s.take(segment_len(s) as int);
    if s.len() > 0 && s[0] == '.' && (s.len() == 1 || s[1] == '/') {
        assert(segment_len(s.drop_first()) == 0);
        assert(head =~= seq!['.']);
    }
    if head == seq!['.'] {
        assert(head.len() == 1 && head[0] == '.');
    }
}

/// A name that a segment can hold.
pub open spec fn is_name(s: Seq<char>) -> bool {
    &&& s.len() > 0
    &&& s != seq!['.']
    &&& forall|i: int| 0 <= i < s.len() ==> #[trigger] s[i] != '/'
}

/// The names with a slash between each two.
pub open spec fn spelled(names: Seq<Seq<char>>) -> Seq<char>
    decreases names.len(),
{
    if names.len() == 0 {
        Seq::empty()
    } else if names.len() == 1 {
        names[0]
    } else {
        names[0] + seq!['/'] + spelled(names.drop_first())
    }
}

proof fn lemma_segments_of_name(name: Seq<char>)
    requires
        is_name(name),
    ensures
        segments(name) == seq![name],
        !path_view(name).rooted,
        !path_view(name).dotted,
{
    lemma_segment_len(name);
    assert(segment_len(name) == name.len());
    assert(name.take(name.len() as int) =~= name);
    assert(segments(after_segment(name)) =~= Seq::<Seq<char>>::empty());
    assert(seq![name] + Seq::<Seq<char>>::empty() =~= seq![name]);
    assert(name[0] != '/');
}

/// The segments of names with slashes between them are the names, each at its
/// place.
pub proof fn segments_are_the_names(names: Seq<Seq<char>>)
    requires
        forall|i: int| 0 <= i < names.len() ==> is_name(#[trigger] names[i]),
    ensures
        segments(spelled(names)) == names,
        !path_view(spelled(names)).rooted,
        !path_view(spelled(names)).dotted,
    decreases names.len(),
{
    if names.len() == 0 {
        let none = spelled(names);
        assert(none.take(segment_len(none) as int).len() == 0);
        assert(segments(none) =~= names);
    } else {
        assert(is_name(names[0]));
        lemma_segments_of_name(names[0]);
        if names.len() == 1 {
            assert(seq![names[0]] =~= names);
        } else {
            let rest = names.drop_first();
            assert forall|i: int| 0 <= i < rest.len() implies is_name(#[trigger] rest[i]) by {
                assert(rest[i] == names[i + 1]);
            }
            segments_are_the_names(rest);
            segments_split_at_slash(names[0], spelled(rest));
            assert(seq![names[0]] + rest =~= names);
        }
    }
}

/// Paths of different names are different paths: relative ones, ones from the root,
/// and ones from the current directory.
pub proof fn same_path_iff_same_names(x: Seq<Seq<char>>, y: Seq<Seq<char>>)
    requires
        forall|i: int| 0 <= i < x.len() ==> is_name(#[trigger] x[i]),
        forall|i: int| 0 <= i < y.len() ==> is_name(#[trigger] y[i]),
    ensures
        same_path(spelled(x), spelled(y)) <==> x == y,
        same_path(seq!['/'] + spelled(x), seq!['/'] + spelled(y)) <==> x == y,
        same_path(seq!['.', '/'] + spelled(x), seq!['.', '/'] + spelled(y)) <==> x == y,
        !same_path(seq!['/'] + spelled(x), spelled(y)),
        !same_path(seq!['.', '/'] + spelled(x), spelled(y)),
        !same_path(seq!['.', '/'] + spelled(x), seq!['/'] + spelled(y)),
{
    segments_are_the_names(x);
    segments_are_the_names(y);
    lemma_prefixed(spelled(x));
    lemma_prefixed(spelled(y));
}

proof fn lemma_prefixed(s: Seq<char>)
    ensures
        path_view(seq!['/'] + s) == (PathView {
            rooted: true,
            dotted: false,
            segments: segments(s),
        }),
        path_view(seq!['.', '/'] + s) == (PathView {
            rooted: false,
            dotted: true,
            segments: segments(s),
        }),
{
    let none = Seq::<char>::empty();
    let dot = seq!['.'];
    segments_split_at_slash(none, s);
    assert(none + seq!['/'] + s =~= seq!['/'] + s);
    segments_split_at_slash(dot, s);
    assert(dot + seq!['/'] + s =~= seq!['.', '/'] + s);
    lemma_dotted(seq!['/'] + s);
    lemma_dotted(seq!['.', '/'] + s);
    assert(segments(none) =~= Seq::<Seq<char>>::empty());
    assert(segments(dot) =~= Seq::<Seq<char>>::empty()) by {
        assert(segment_len(dot.drop_first()) == 0);
        assert(segment_len(dot) == 1);
        assert(dot.take(1) =~= dot);
        assert(segments(after_segment(dot)) =~= Seq::<Seq<char>>::empty());
    }
    assert(Seq::<Seq<char>>::empty() + segments(s) =~= segments(s));
}

/// A relative path in its plainest spelling: it neither starts nor ends with a
/// slash, no two slashes meet, and no segment is a single dot.
pub open spec fn is_plain(s: Seq<char>) -> bool {
    &&& s.len() > 0
    &&& s[0] != '/'
    &&& s.last() != '/'
    &&& forall|i: int| 0 < i < s.len() ==> !(s[i - 1] == '/' && #[trigger] s[i] == '/')
    &&& forall|i: int|
        0 <= i < s.len() && #[trigger] s[i] == '.' && (i == 0 || s[i - 1] == '/') ==> i + 1
            < s.len() && s[i + 1] != '/'
}

proof fn lemma_plain_is_spelled(s: Seq<char>)
    requires
        is_plain(s),
    ensures
        s == spelled(segments(s)),
        segments(s).len() > 0,
        forall|i: int| 0 <= i < segments(s).len() ==> is_name(#[trigger] segments(s)[i]),
    decreases s.len(),
{
    lemma_segment_len(s);
    let n = segment_len(s) as int;
    let head = s.take(n);
    assert(n > 0);
    assert(is_name(head)) by {
        if head == seq!['.'] {
            assert(head.len() == 1 && head[0] == '.');
            assert(s[0] == '.');
        }
        assert forall|i: int| 0 <= i < head.len() implies #[trigger] head[i] != '/' by {
            assert(head[i] == s[i]);
        }
    }
    let rest = after_segment(s);
    assert(segments(s) == seq![head] + segments(rest));
    if n < s.len() {
        assert(s[n] == '/');
        assert(n + 1 < s.len());
        assert(rest =~= s.skip(n + 1));
        assert(rest[0] == s[n + 1]);
        assert(s[n + 1] != '/');
        assert forall|i: int| 0 < i < rest.len() implies !(rest[i - 1] == '/' && #[trigger] rest[i]
            == '/') by {
            assert(rest[i] == s[n + 1 + i] && rest[i - 1] == s[n + i]);
        }
        assert forall|i: int|
            0 <= i < rest.len() && #[trigger] rest[i] == '.' && (i == 0 || rest[i - 1]
                == '/') implies i + 1 < rest.len() && rest[i + 1] != '/' by {
            assert(rest[i] == s[n + 1 + i]);
            assert(s[n + 1 + i - 1] == '/') by {
                if i > 0 {
                    assert(rest[i - 1] == s[n + i]);
                }
            }
            assert(s[n + 1 + i] == '.');
            assert(rest[i + 1] == s[n + 2 + i]);
        }
        lemma_plain_is_spelled(rest);
        assert(segments(s).drop_first() =~= segments(rest));
        assert(s =~= head + seq!['/'] + rest);
    } else {
        assert(rest.len() == 0);
        assert(segments(rest) =~= Seq::<Seq<char>>::empty());
        assert(segments(s) =~= seq![head]);
        assert(head =~= s);
    }
    assert forall|i: int| 0 <= i < segments(s).len() implies is_name(#[trigger] segments(s)[i]) by {
        if i > 0 {
            assert(segments(s)[i] == segments(rest)[i - 1]);
        }
    }
}

/// Two relative paths in their plainest spelling are the same path only if they are
/// the same text.
pub proof fn plain_paths_are_told_apart(a: Seq<char>, b: Seq<char>)
    requires
        is_plain(a),
        is_plain(b),
    ensures
        same_path(a, b) <==> a == b,
{
    lemma_plain_is_spelled(a);
    lemma_plain_is_spelled(b);
    same_path_iff_same_names(segments(a), segments(b));
}

/// The same paths have the same named segments, position by position.
pub proof fn same_paths_have_same_segments(a: Seq<char>, b: Seq<char>, i: int)
    requires
        same_path(a, b),
    ensures
        segments(a).len() == segments(b).len(),
        0 <= i < segments(a).len() ==> segments(a)[i] == segments(b)[i],
{
}

/// An absolute path replaces the one that it continues; any other is appended to
/// it, after one slash where that does not end with one.
pub proof fn joined_keeps_both(path: Seq<char>, next: Seq<char>)
    ensures
        next.len() > 0 && next[0] == '/' ==> joined(path, next) == next,
        !(next.len() > 0 && next[0] == '/') ==> {
            &&& joined(Seq::empty(), next) == next
            &&& joined(path + seq!['/'], next) == path + seq!['/'] + next
            &&& path.len() > 0 && path[path.len() - 1] != '/' ==> joined(path, next) == path
                + seq!['/'] + next
        },
{
    let slashed = path + seq!['/'];
    assert(slashed[slashed.len() - 1] == '/');
    assert(Seq::<char>::empty() + next =~= next);
    assert(path.push('/') =~= slashed);
}

/// It does not matter which two of three paths are joined first.
pub proof fn joined_is_associative(a: Seq<char>, b: Seq<char>, c: Seq<char>)
    ensures
        joined(joined(a, b), c) == joined(a, joined(b, c)),
{
    if !(c.len() > 0 && c[0] == '/') {
        if b.len() > 0 {
            assert(joined(a, b).last() == b.last());
            assert(joined(b, c)[0] == b[0]);
        } else {
            assert(joined(b, c) =~= c);
            assert(joined(a, b) + c =~= joined(a, c));
        }
        assert(joined(joined(a, b), c) =~= joined(a, joined(b, c)));
    }
}

} // verus!
