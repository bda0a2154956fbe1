//! Named placeholders in a text.

use vstd::prelude::*;

use crate::text::chars_of;

verus! {

/// Whether `pattern` stands at the start of `s`.
pub open spec fn starts_with(s: Seq<char>, pattern: Seq<char>) -> bool {
    pattern.len() <= s.len() && s.take(pattern.len() as int) == pattern
}

/// Whether `pattern` stands anywhere in `s`.
pub open spec fn occurs_in(pattern: Seq<char>, s: Seq<char>) -> bool {
    exists|i: int| 0 <= i <= s.len() && #[trigger] starts_with(s.skip(i), pattern)
}

/// `s` with every `pattern` in it, from the left and without overlap, replaced
/// by `value`.
pub open spec fn replaced(s: Seq<char>, pattern: Seq<char>, value: Seq<char>) -> Seq<char>
    decreases s.len(),
{
    if s.len() == 0 || pattern.len() == 0 {
        s
    } else if starts_with(s, pattern) {
        value + replaced(s.skip(pattern.len() as int), pattern, value)
    } else {
        seq![s[0]] + replaced(s.drop_first(), pattern, value)
    }
}

/// The placeholder of `name`: the name in braces.
pub open spec fn placeholder(name: Seq<char>) -> Seq<char> {
    seq!['{'] + name + seq!['}']
}

/// `s` with the placeholder of each argument replaced by its value, one argument
/// after the other.
pub open spec fn substituted(s: Seq<char>, arguments: Seq<(Seq<char>, Seq<char>)>) -> Seq<char>
    decreases arguments.len(),
{
    if arguments.len() == 0 {
        s
    } else {
        replaced(
            substituted(s, arguments.drop_last()),
            placeholder(arguments.last().0),
            arguments.last().1,
        )
    }
}

/// A text in which the pattern does not occur stays as it is.
pub proof fn replaced_without_occurrence(s: Seq<char>, pattern: Seq<char>, value: Seq<char>)
    requires
        !occurs_in(pattern, s),
    ensures
        replaced(s, pattern, value) == s,
    decreases s.len(),
{
    if s.len() > 0 && pattern.len() > 0 {
        assert(s.skip(0) =~= s);
        assert(!starts_with(s.skip(0), pattern));
        assert forall|i: int| 0 <= i <= s.drop_first().len() implies !(#[trigger] starts_with(
            s.drop_first().skip(i),
            pattern,
        )) by {
            assert(s.drop_first().skip(i) =~= s.skip(i + 1));
            assert(!starts_with(s.skip(i + 1), pattern));
        }
        replaced_without_occurrence(s.drop_first(), pattern, value);
        assert(s =~= seq![s[0]] + s.drop_first());
    }
}

/// The first occurrence of the pattern gives way to the value, what stands before
/// it stays, and the rest is treated alike.
pub proof fn replaced_at_first_occurrence(
    before: Seq<char>,
    pattern: Seq<char>,
    after: Seq<char>,
    value: Seq<char>,
)
    requires
        pattern.len() > 0,
        forall|i: int|
            0 <= i < before.len() ==> !(#[trigger] starts_with(
                (before + pattern + after).skip(i),
                pattern,
            )),
    ensures
        replaced(before + pattern + after, pattern, value) == before + value + replaced(
            after,
            pattern,
            value,
        ),
    decreases before.len(),
{
    let s = before + pattern + after;
    if before.len() == 0 {
        assert(s.take(pattern.len() as int) =~= pattern);
        assert(s.skip(pattern.len() as int) =~= after);
        assert(before + value =~= value);
    } else {
        let rest = before.drop_first();
        assert(s.skip(0) =~= s);
        assert(!starts_with(s.skip(0), pattern));
        assert(s.drop_first() =~= rest + pattern + after);
        assert forall|i: int| 0 <= i < rest.len() implies !(#[trigger] starts_with(
            (rest + pattern + after).skip(i),
            pattern,
        )) by {
            assert((rest + pattern + after).skip(i) =~= s.skip(i + 1));
            assert(!starts_with(s.skip(i + 1), pattern));
        }
        replaced_at_first_occurrence(rest, pattern, after, value);
        assert(before + value + replaced(after, pattern, value) =~= seq![before[0]] + (rest + value
            + replaced(after, pattern, value)));
    }
}

fn starts_at(s: &Vec<char>, at: usize, pattern: &Vec<char>) -> (found: bool)
    requires
        at <= s@.len(),
    ensures
        found == starts_with(s@.skip(at as int), pattern@),
{
    if s.len() - at < pattern.len() {
        return false;
    }
    for i in 0..pattern.len()
        invariant
            at + pattern.len() <= s.len(),
            forall|j: int| 0 <= j < i ==> s@[at + j] == pattern@[j],
    {
        if s[at + i] != pattern[i] {
            assert(s@.skip(at as int).take(pattern@.len() as int)[i as int] == s@[at + i]);
            return false;
        }
    }
    assert(s@.skip(at as int).take(pattern@.len() as int) =~= pattern@);
    true
}

/// Replaces every `pattern` in `s` by `value` (see [`replaced`]).
fn replace_all(s: &str, pattern: &str, value: &str) -> (result: String)
    requires
        pattern@.len() > 0,
    ensures
        result@ == replaced(s@, pattern@, value@),
{
    let text = chars_of(s);
    let wanted = chars_of(pattern);
    let mut result = String::new();
    let mut i: usize = 0;
    assert(text@.skip(0) =~= text@);
    assert(result@ + replaced(s@, pattern@, value@) =~= replaced(s@, pattern@, value@));
    while i < text.len()
        invariant
            i <= text@.len(),
            text@ == s@,
            wanted@ == pattern@,
            pattern@.len() > 0,
            replaced(s@, pattern@, value@) == result@ + replaced(
                text@.skip(i as int),
                pattern@,
                value@,
            ),
        decreases text.len() - i,
    {
        let ghost here = text@.skip(i as int);
        let ghost done = result@;
        if starts_at(&text, i, &wanted) {
            result.append(value);
            proof {
                let rest = replaced(here.skip(pattern@.len() as int), pattern@, value@);
                assert(here.skip(pattern@.len() as int) =~= text@.skip(i + wanted@.len()));
                assert(done + (value@ + rest) =~= (done + value@) + rest);
            }
            i = i + wanted.len();
        } else {
            result.push(text[i]);
            proof {
                let rest = replaced(here.drop_first(), pattern@, value@);
                assert(here.drop_first() =~= text@.skip(i + 1));
                assert(done + (seq![here[0]] + rest) =~= done.push(here[0]) + rest);
            }
            i = i + 1;
        }
    }
    assert(text@.skip(i as int) =~= Seq::<char>::empty());
    assert(result@ + Seq::<char>::empty() =~= result@);
    result
}

/// The views of a list of named arguments.
pub open spec fn arguments_view(arguments: Seq<(&str, String)>) -> Seq<(Seq<char>, Seq<char>)> {
    arguments.map_values(|a: (&str, String)| (a.0@, a.1@))
}

/// Puts the value of each argument in place of its placeholder (see
/// [`substituted`]).
pub fn substitute(template: &str, arguments: &[(&str, String)]) -> (result: String)
    ensures
        result@ == substituted(template@, arguments_view(arguments@)),
{
    let ghost views = arguments_view(arguments@);
    let mut result = template.to_owned();
    for i in 0..arguments.len()
        invariant
            views == arguments_view(arguments@),
            result@ == substituted(template@, views.take(i as int)),
    {
        let (name, value) = &arguments[i];
        let mut pattern = String::new();
        pattern.push('{');
        pattern.append(name);
        pattern.push('}');
        assert(pattern@ =~= placeholder(views[i as int].0));
        result = replace_all(result.as_str(), pattern.as_str(), value.as_str());
        assert(views.take(i + 1).drop_last() =~= views.take(i as int));
    }
    assert(views.take(views.len() as int) =~= views);
    result
}

/// A name without braces.
pub open spec fn is_plain(name: Seq<char>) -> bool {
    forall|i: int| 0 <= i < name.len() ==> #[trigger] name[i] != '{' && name[i] != '}'
}

proof fn lemma_placeholder(name: Seq<char>)
    requires
        is_plain(name),
    ensures
        placeholder(name).len() == name.len() + 2,
        placeholder(name)[0] == '{',
        placeholder(name)[name.len() as int + 1] == '}',
        forall|i: int|
            1 <= i <= name.len() ==> #[trigger] placeholder(name)[i] == name[i - 1]
                && placeholder(name)[i] != '{' && placeholder(name)[i] != '}',
{
    assert forall|i: int| 1 <= i <= name.len() implies #[trigger] placeholder(name)[i] == name[i
        - 1] && placeholder(name)[i] != '{' && placeholder(name)[i] != '}' by {
        assert(placeholder(name)[i] == name[i - 1]);
    }
}

/// At a place where the placeholder of `a` stands, the placeholder of another name
/// starts nowhere before its end.
proof fn lemma_placeholders_apart(s: Seq<char>, a: Seq<char>, b: Seq<char>, j: int)
    requires
        is_plain(a),
        is_plain(b),
        a != b,
        starts_with(s, placeholder(a)),
        0 <= j < placeholder(a).len(),
        j <= s.len(),
    ensures
        !starts_with(s.skip(j), placeholder(b)),
{
    lemma_placeholder(a);
    lemma_placeholder(b);
    let p = placeholder(a);
    let q = placeholder(b);
    if starts_with(s.skip(j), q) {
        assert forall|i: int| 0 <= i < p.len() implies #[trigger] p[i] == s[i] by {
            assert(s.take(p.len() as int)[i] == s[i]);
        }
        assert forall|i: int| 0 <= i < q.len() implies #[trigger] q[i] == s[j + i] by {
            assert(s.skip(j).take(q.len() as int)[i] == s[j + i]);
        }
        assert(q[0] == s[j + 0]);
        assert(p[j] == s[j]);
        if j > 0 {
            if j <= a.len() {
                assert(p[j] != '{');
            }
            assert(false);
        } else {
            if a.len() < b.len() {
                let end = a.len() + 1;
                assert(p[end as int] == '}');
                assert(q[end as int] == s[j + end]);
                assert(q[end as int] != '}');
            } else if b.len() < a.len() {
                let end = b.len() + 1;
                assert(q[end as int] == s[j + end]);
                assert(q[end as int] == '}');
                assert(p[end as int] != '}');
            } else {
                assert forall|i: int| 0 <= i < a.len() implies a[i] == b[i] by {
                    assert(p[i + 1] == a[i]);
                    assert(q[i + 1] == b[i]);
                    assert(q[i + 1] == s[j + (i + 1)]);
                }
                assert(a =~= b);
            }
        }
    }
}

proof fn lemma_copied_until(s: Seq<char>, pattern: Seq<char>, value: Seq<char>, n: int)
    requires
        0 <= n <= s.len(),
        pattern.len() > 0,
        forall|j: int| 0 <= j < n ==> !(#[trigger] starts_with(s.skip(j), pattern)),
    ensures
        replaced(s, pattern, value) == s.take(n) + replaced(s.skip(n), pattern, value),
    decreases n,
{
    if n == 0 {
        assert(s.skip(0) =~= s);
        assert(s.take(0) + replaced(s, pattern, value) =~= replaced(s, pattern, value));
    } else {
        assert(s.skip(0) =~= s);
        assert(!starts_with(s.skip(0), pattern));
        let rest = s.drop_first();
        assert forall|j: int| 0 <= j < n - 1 implies !(#[trigger] starts_with(
            rest.skip(j),
            pattern,
        )) by {
            assert(rest.skip(j) =~= s.skip(j + 1));
            assert(!starts_with(s.skip(j + 1), pattern));
        }
        lemma_copied_until(rest, pattern, value, n - 1);
        assert(rest.skip(n - 1) =~= s.skip(n));
        assert(seq![s[0]] + (rest.take(n - 1) + replaced(s.skip(n), pattern, value)) =~= s.take(n)
            + replaced(s.skip(n), pattern, value));
    }
}

proof fn lemma_occurs_after(pattern: Seq<char>, before: Seq<char>, s: Seq<char>)
    requires
        occurs_in(pattern, s),
    ensures
        occurs_in(pattern, before + s),
{
    let i = choose|i: int| 0 <= i <= s.len() && #[trigger] starts_with(s.skip(i), pattern);
    assert((before + s).skip(before.len() + i) =~= s.skip(i));
    assert(starts_with((before + s).skip(before.len() + i), pattern));
}

/// Replacing one placeholder leaves the placeholder of another name visible.
pub proof fn other_placeholder_stays(
    s: Seq<char>,
    name: Seq<char>,
    value: Seq<char>,
    other: Seq<char>,
)
    requires
        is_plain(name),
        is_plain(other),
        name != other,
        occurs_in(placeholder(other), s),
    ensures
        occurs_in(placeholder(other), replaced(s, placeholder(name), value)),
    decreases s.len(),
{
    let p = placeholder(name);
    let q = placeholder(other);
    lemma_placeholder(name);
    lemma_placeholder(other);
    let i = choose|i: int| 0 <= i <= s.len() && #[trigger] starts_with(s.skip(i), q);
    if s.len() > 0 {
        if starts_with(s, p) {
            if i < p.len() {
                lemma_placeholders_apart(s, name, other, i);
            }
            let rest = s.skip(p.len() as int);
            assert(rest.skip(i - p.len()) =~= s.skip(i));
            assert(occurs_in(q, rest));
            other_placeholder_stays(rest, name, value, other);
            lemma_occurs_after(q, value, replaced(rest, p, value));
        } else if i == 0 {
            assert(s.skip(0) =~= s);
            let n = q.len() as int;
            assert forall|j: int| 0 <= j < n implies !(#[trigger] starts_with(s.skip(j), p)) by {
                lemma_placeholders_apart(s, other, name, j);
            }
            lemma_copied_until(s, p, value, n);
            let after = replaced(s, p, value);
            assert(after.skip(0).take(n) =~= q);
            assert(starts_with(after.skip(0), q));
        } else {
            let rest = s.drop_first();
            assert(rest.skip(i - 1) =~= s.skip(i));
            assert(occurs_in(q, rest));
            other_placeholder_stays(rest, name, value, other);
            lemma_occurs_after(q, seq![s[0]], replaced(rest, p, value));
        }
    }
}

/// A placeholder that no argument names stays visible, whatever the values are.
pub proof fn unknown_placeholder_stays(
    s: Seq<char>,
    arguments: Seq<(Seq<char>, Seq<char>)>,
    unknown: Seq<char>,
)
    requires
        is_plain(unknown),
        forall|i: int|
            0 <= i < arguments.len() ==> is_plain((#[trigger] arguments[i]).0) && arguments[i].0
                != unknown,
        occurs_in(placeholder(unknown), s),
    ensures
        occurs_in(placeholder(unknown), substituted(s, arguments)),
    decreases arguments.len(),
{
    if arguments.len() > 0 {
        let front = arguments.drop_last();
        assert forall|i: int| 0 <= i < front.len() implies is_plain((#[trigger] front[i]).0)
            && front[i].0 != unknown by {
            assert(front[i] == arguments[i]);
        }
        unknown_placeholder_stays(s, front, unknown);
        let last = arguments[arguments.len() - 1];
        other_placeholder_stays(substituted(s, front), last.0, last.1, unknown);
    }
}

/// A text in which the placeholder of no argument occurs stays as it is.
pub proof fn text_without_placeholders_stays(
    s: Seq<char>,
    arguments: Seq<(Seq<char>, Seq<char>)>,
)
    requires
        forall|i: int|
            0 <= i < arguments.len() ==> !occurs_in(placeholder((#[trigger] arguments[i]).0), s),
    ensures
        substituted(s, arguments) == s,
    decreases arguments.len(),
{
    if arguments.len() > 0 {
        let front = arguments.drop_last();
        assert forall|i: int| 0 <= i < front.len() implies !occurs_in(
            placeholder((#[trigger] front[i]).0),
            s,
        ) by {
            assert(front[i] == arguments[i]);
        }
        text_without_placeholders_stays(s, front);
        let last = arguments[arguments.len() - 1];
        replaced_without_occurrence(s, placeholder(last.0), last.1);
    }
}

/// A text starts with a pattern exactly if it is the pattern and what follows it.
pub proof fn starts_with_its_prefixes(s: Seq<char>, pattern: Seq<char>, rest: Seq<char>)
    ensures
        starts_with(pattern + rest, pattern),
        starts_with(s, pattern) ==> s == pattern + s.skip(pattern.len() as int),
{
    assert((pattern + rest).take(pattern.len() as int) =~= pattern);
    if starts_with(s, pattern) {
        assert(s =~= s.take(pattern.len() as int) + s.skip(pattern.len() as int));
    }
}

/// A pattern occurs in a text exactly if the text is something, the pattern, and
/// something.
pub proof fn occurs_between(s: Seq<char>, pattern: Seq<char>, before: Seq<char>, after: Seq<char>)
    ensures
        occurs_in(pattern, before + pattern + after),
        occurs_in(pattern, s) ==> exists|a: Seq<char>, b: Seq<char>| s == #[trigger] (a + pattern + b),
{
    let whole = before + pattern + after;
    assert(whole.skip(before.len() as int) =~= pattern + after);
    starts_with_its_prefixes(s, pattern, after);
    assert(starts_with(whole.skip(before.len() as int), pattern));
    if occurs_in(pattern, s) {
        let i = choose|i: int| 0 <= i <= s.len() && #[trigger] starts_with(s.skip(i), pattern);
        starts_with_its_prefixes(s.skip(i), pattern, after);
        let b = s.skip(i).skip(pattern.len() as int);
        assert(s =~= s.take(i) + s.skip(i));
        assert(s =~= s.take(i) + pattern + b);
    }
}

/// Each argument in turn has its name in braces replaced by its value, in what the
/// arguments before it left.
pub proof fn each_argument_is_substituted(
    s: Seq<char>,
    arguments: Seq<(Seq<char>, Seq<char>)>,
    name: Seq<char>,
    value: Seq<char>,
)
    ensures
        substituted(s, Seq::empty()) == s,
        substituted(s, arguments.push((name, value))) == replaced(
            substituted(s, arguments),
            seq!['{'] + name + seq!['}'],
            value,
        ),
{
    let all = arguments.push((name, value));
    assert(all.drop_last() =~= arguments);
    assert(all.last() == (name, value));
}

/// A piece of a template.
pub enum Part {
    /// Text that stands for itself.
    Literal(Seq<char>),
    /// The placeholder of a name.
    Slot(Seq<char>),
}

/// How a template is written.
pub open spec fn written(parts: Seq<Part>) -> Seq<char>
    decreases parts.len(),
{
    if parts.len() == 0 {
        Seq::empty()
    } else {
        (match parts[0] {
            Part::Literal(t) => t,
            Part::Slot(name) => seq!['{'] + name + seq!['}'],
        }) + written(parts.drop_first())
    }
}

/// A template whose only braces are those of its placeholders.
pub open spec fn is_template(parts: Seq<Part>) -> bool {
    forall|i: int|
        0 <= i < parts.len() ==> match #[trigger] parts[i] {
            Part::Literal(t) => is_plain(t),
            Part::Slot(name) => is_plain(name),
        }
}

/// The value of the first argument with the name.
pub open spec fn value_of(arguments: Seq<(Seq<char>, Seq<char>)>, name: Seq<char>) -> Option<
    Seq<char>,
>
    decreases arguments.len(),
{
    if arguments.len() == 0 {
        None
    } else if arguments[0].0 == name {
        Some(arguments[0].1)
    } else {
        value_of(arguments.drop_first(), name)
    }
}

/// A template with the value of its argument in place of each placeholder that has
/// one.
pub open spec fn filled(parts: Seq<Part>, arguments: Seq<(Seq<char>, Seq<char>)>) -> Seq<Part> {
    Seq::new(
        parts.len(),
        |i: int|
            match parts[i] {
                Part::Literal(t) => Part::Literal(t),
                Part::Slot(name) => match value_of(arguments, name) {
                    Some(value) => Part::Literal(value),
                    None => Part::Slot(name),
                },
            },
    )
}

/// The arguments have names and values without braces.
pub open spec fn are_plain(arguments: Seq<(Seq<char>, Seq<char>)>) -> bool {
    forall|i: int|
        0 <= i < arguments.len() ==> is_plain((#[trigger] arguments[i]).0) && is_plain(
            arguments[i].1,
        )
}

/// The placeholder of `name` starts nowhere in the first part of a template, unless
/// that is the placeholder.
proof fn lemma_not_in_first_part(parts: Seq<Part>, name: Seq<char>, j: int)
    requires
        is_template(parts),
        is_plain(name),
        parts.len() > 0,
        parts[0] != Part::Slot(name),
        0 <= j < written(parts).len() - written(parts.drop_first()).len(),
    ensures
        !starts_with(written(parts).skip(j), placeholder(name)),
{
    let s = written(parts);
    let rest = written(parts.drop_first());
    match parts[0] {
        Part::Literal(t) => {
            assert(s == t + rest);
            if starts_with(s.skip(j), placeholder(name)) {
                assert(s.skip(j).take(placeholder(name).len() as int)[0] == s[j]);
                assert(s[j] == t[j]);
                assert(placeholder(name)[0] == '{');
            }
        },
        Part::Slot(other) => {
            assert(s == placeholder(other) + rest);
            starts_with_its_prefixes(s, placeholder(other), rest);
            lemma_placeholders_apart(s, other, name, j);
        },
    }
}

/// Replacing one placeholder in a template fills in the slots of that name.
proof fn lemma_replaced_fills(parts: Seq<Part>, name: Seq<char>, value: Seq<char>)
    requires
        is_template(parts),
        is_plain(name),
    ensures
        replaced(written(parts), placeholder(name), value) == written(
            filled(parts, seq![(name, value)]),
        ),
    decreases parts.len(),
{
    let argument = seq![(name, value)];
    let after = filled(parts, argument);
    let s = written(parts);
    let p = placeholder(name);
    assert forall|m: Seq<char>| #[trigger]
        value_of(argument, m) == if m == name {
            Some(value)
        } else {
            None
        } by {
        assert(value_of(argument.drop_first(), m) is None);
    }
    if parts.len() == 0 {
    } else {
        let front = parts.drop_first();
        let rest = written(front);
        assert forall|i: int| 0 <= i < front.len() implies match #[trigger] front[i] {
            Part::Literal(t) => is_plain(t),
            Part::Slot(name) => is_plain(name),
        } by {
            assert(front[i] == parts[i + 1]);
        }
        lemma_replaced_fills(front, name, value);
        assert(after.drop_first() =~= filled(front, argument));
        if parts[0] == Part::Slot(name) {
            assert(s == p + rest);
            starts_with_its_prefixes(s, p, rest);
            assert(s.skip(p.len() as int) =~= rest);
            assert(p.len() > 0);
        } else {
            let n = s.len() - rest.len();
            assert forall|j: int| 0 <= j < n implies !(#[trigger] starts_with(s.skip(j), p)) by {
                lemma_not_in_first_part(parts, name, j);
            }
            lemma_copied_until(s, p, value, n);
            assert(s.skip(n) =~= rest);
        }
    }
}

proof fn lemma_value_of_push(
    arguments: Seq<(Seq<char>, Seq<char>)>,
    last: (Seq<char>, Seq<char>),
    name: Seq<char>,
)
    ensures
        value_of(arguments.push(last), name) == match value_of(arguments, name) {
            Some(value) => Some(value),
            None => if last.0 == name {
                Some(last.1)
            } else {
                None
            },
        },
    decreases arguments.len(),
{
    let all = arguments.push(last);
    if arguments.len() > 0 {
        assert(all.drop_first() =~= arguments.drop_first().push(last));
        lemma_value_of_push(arguments.drop_first(), last, name);
    } else {
        assert(value_of(all.drop_first(), name) is None);
    }
}

proof fn lemma_value_of_is_plain(arguments: Seq<(Seq<char>, Seq<char>)>, name: Seq<char>)
    requires
        are_plain(arguments),
    ensures
        value_of(arguments, name) matches Some(value) ==> is_plain(value),
    decreases arguments.len(),
{
    if arguments.len() > 0 {
        let rest = arguments.drop_first();
        assert forall|i: int| 0 <= i < rest.len() implies is_plain((#[trigger] rest[i]).0)
            && is_plain(rest[i].1) by {
            assert(rest[i] == arguments[i + 1]);
        }
        lemma_value_of_is_plain(rest, name);
        assert(is_plain(arguments[0].1));
    }
}

proof fn lemma_filled_is_template(parts: Seq<Part>, arguments: Seq<(Seq<char>, Seq<char>)>)
    requires
        is_template(parts),
        are_plain(arguments),
    ensures
        is_template(filled(parts, arguments)),
{
    let after = filled(parts, arguments);
    assert forall|i: int| 0 <= i < after.len() implies match #[trigger] after[i] {
        Part::Literal(t) => is_plain(t),
        Part::Slot(name) => is_plain(name),
    } by {
        let part = parts[i];
        if let Part::Slot(name) = part {
            lemma_value_of_is_plain(arguments, name);
        }
    }
}

/// In a template whose only braces are those of its placeholders, each placeholder
/// that an argument names gives way to the value of the first such argument, every
/// other one stays, and so does the text between them. The names and values of the
/// arguments hold no braces.
pub proof fn template_is_filled(parts: Seq<Part>, arguments: Seq<(Seq<char>, Seq<char>)>)
    requires
        is_template(parts),
        are_plain(arguments),
    ensures
        substituted(written(parts), arguments) == written(filled(parts, arguments)),
    decreases arguments.len(),
{
    if arguments.len() == 0 {
        assert(filled(parts, arguments) =~= parts);
    } else {
        let front = arguments.drop_last();
        let last = arguments[arguments.len() - 1];
        assert(front.push(last) =~= arguments);
        assert forall|i: int| 0 <= i < front.len() implies is_plain((#[trigger] front[i]).0)
            && is_plain(front[i].1) by {
            assert(front[i] == arguments[i]);
        }
        template_is_filled(parts, front);
        lemma_filled_is_template(parts, front);
        let before = filled(parts, front);
        lemma_replaced_fills(before, last.0, last.1);
        let one = seq![(last.0, last.1)];
        assert forall|i: int| 0 <= i < parts.len() implies #[trigger] filled(before, one)[i]
            == filled(parts, arguments)[i] by {
            if let Part::Slot(name) = parts[i] {
                lemma_value_of_push(front, last, name);
                assert(value_of(one.drop_first(), name) is None);
            }
        }
        assert(filled(before, one) =~= filled(parts, arguments));
    }
}

proof fn lemma_no_slot_no_occurrence(parts: Seq<Part>, name: Seq<char>)
    requires
        is_template(parts),
        is_plain(name),
        forall|i: int| 0 <= i < parts.len() ==> #[trigger] parts[i] != Part::Slot(name),
    ensures
        !occurs_in(placeholder(name), written(parts)),
    decreases parts.len(),
{
    let s = written(parts);
    let p = placeholder(name);
    assert(p.len() >= 2);
    if occurs_in(p, s) {
        let i = choose|i: int| 0 <= i <= s.len() && #[trigger] starts_with(s.skip(i), p);
        if parts.len() > 0 {
            let front = parts.drop_first();
            let rest = written(front);
            let n = s.len() - rest.len();
            assert forall|k: int| 0 <= k < front.len() implies match #[trigger] front[k] {
                Part::Literal(t) => is_plain(t),
                Part::Slot(name) => is_plain(name),
            } && front[k] != Part::Slot(name) by {
                assert(front[k] == parts[k + 1]);
            }
            lemma_no_slot_no_occurrence(front, name);
            if i < n {
                lemma_not_in_first_part(parts, name, i);
            } else {
                assert(s.skip(i) =~= rest.skip(i - n));
                assert(starts_with(rest.skip(i - n), p));
            }
        }
    }
}

proof fn lemma_value_of_known(arguments: Seq<(Seq<char>, Seq<char>)>, i: int)
    requires
        0 <= i < arguments.len(),
    ensures
        value_of(arguments, arguments[i].0) is Some,
    decreases arguments.len(),
{
    if i > 0 {
        lemma_value_of_known(arguments.drop_first(), i - 1);
    }
}

/// Nothing is left of the placeholder of any argument.
pub proof fn no_named_placeholder_is_left(
    parts: Seq<Part>,
    arguments: Seq<(Seq<char>, Seq<char>)>,
    i: int,
)
    requires
        is_template(parts),
        are_plain(arguments),
        0 <= i < arguments.len(),
    ensures
        !occurs_in(
            seq!['{'] + arguments[i].0 + seq!['}'],
            substituted(written(parts), arguments),
        ),
{
    template_is_filled(parts, arguments);
    lemma_filled_is_template(parts, arguments);
    lemma_value_of_known(arguments, i);
    let after = filled(parts, arguments);
    assert forall|k: int| 0 <= k < after.len() implies #[trigger] after[k] != Part::Slot(
        arguments[i].0,
    ) by {
        let part = parts[k];
    }
    lemma_no_slot_no_occurrence(after, arguments[i].0);
}

/// The arguments are seen with their names and values, all of them and in order.
pub proof fn arguments_are_seen_whole(arguments: Seq<(&str, String)>, i: int)
    requires
        0 <= i < arguments.len(),
    ensures
        arguments_view(arguments).len() == arguments.len(),
        arguments_view(arguments)[i].0 == arguments[i].0@,
        arguments_view(arguments)[i].1 == arguments[i].1@,
{
}

} // verus!
