//! Target locales: which requests are acceptable, and where a catalog lives.

use vstd::prelude::*;

use crate::model;
use crate::path;
use crate::text;

verus! {

/// Why a list of requested locales is refused.
#[derive(Debug, PartialEq, Eq)]
pub enum LocaleError {
    /// No locale was requested.
    NoLocales,
    /// English was requested, which is the source text in code.
    English,
    /// A locale is not a tag of ASCII letters, digits and hyphens.
    Invalid(String),
    /// A locale was requested twice.
    Duplicate(String),
}

pub enum LocaleFault {
    NoLocales,
    English,
    Invalid(Seq<char>),
    Duplicate(Seq<char>),
}

impl View for LocaleError {
    type V = LocaleFault;

    open spec fn view(&self) -> LocaleFault {
        match *self {
            LocaleError::NoLocales => LocaleFault::NoLocales,
            LocaleError::English => LocaleFault::English,
            LocaleError::Invalid(locale) => LocaleFault::Invalid(locale@),
            LocaleError::Duplicate(locale) => LocaleFault::Duplicate(locale@),
        }
    }
}

impl LocaleFault {
    /// What a user is told.
    pub open spec fn message(self) -> Seq<char> {
        match self {
            LocaleFault::NoLocales =>
                "at least one target locale is required (for example: --locale uk)"@,
            LocaleFault::English => "`en` is source text in code and must not have locales/en.yml"@,
            LocaleFault::Invalid(locale) => "invalid locale `"@ + locale
                + "`; use BCP 47-style tags such as uk or pt-BR"@,
            LocaleFault::Duplicate(locale) => "locale `"@ + locale
                + "` was specified more than once"@,
        }
    }
}

impl LocaleError {
    /// What a user is told.
    pub fn message(&self) -> (s: String)
        ensures
            s@ == self@.message(),
    {
        match self {
            LocaleError::NoLocales =>
                "at least one target locale is required (for example: --locale uk)".to_owned(),
            LocaleError::English =>
                "`en` is source text in code and must not have locales/en.yml".to_owned(),
            LocaleError::Invalid(locale) => {
                let mut s = "invalid locale `".to_owned();
                s.append(locale.as_str());
                s.append("`; use BCP 47-style tags such as uk or pt-BR");
                s
            },
            LocaleError::Duplicate(locale) => {
                let mut s = "locale `".to_owned();
                s.append(locale.as_str());
                s.append("` was specified more than once");
                s
            },
        }
    }
}

/// A character that a locale tag may hold: an ASCII letter or digit, or a hyphen.
pub open spec fn is_tag_char(c: char) -> bool {
    ||| 'a' <= c <= 'z'
    ||| 'A' <= c <= 'Z'
    ||| '0' <= c <= '9'
    ||| c == '-'
}

/// A text that can name a locale.
pub open spec fn is_tag(locale: Seq<char>) -> bool {
    locale.len() > 0 && forall|i: int| 0 <= i < locale.len() ==> is_tag_char(#[trigger] locale[i])
}

/// What is wrong with a locale that follows the `earlier` ones.
pub open spec fn tag_fault(locale: Seq<char>, earlier: Seq<Seq<char>>) -> Option<LocaleFault> {
    if locale == "en"@ {
        Some(LocaleFault::English)
    } else if !is_tag(locale) {
        Some(LocaleFault::Invalid(locale))
    } else if earlier.contains(locale) {
        Some(LocaleFault::Duplicate(locale))
    } else {
        None
    }
}

/// What is wrong with the first faulty locale.
pub open spec fn first_tag_fault(locales: Seq<Seq<char>>) -> Option<LocaleFault>
    decreases locales.len(),
{
    if locales.len() == 0 {
        None
    } else {
        match first_tag_fault(locales.drop_last()) {
            Some(fault) => Some(fault),
            None => tag_fault(locales.last(), locales.drop_last()),
        }
    }
}

/// Why the requested locales are refused, if they are.
pub open spec fn locales_fault(locales: Seq<Seq<char>>) -> Option<LocaleFault> {
    if locales.len() == 0 {
        Some(LocaleFault::NoLocales)
    } else {
        first_tag_fault(locales)
    }
}

/// Locales that a project can have: at least one, none of them English, each a
/// tag, no two the same.
pub open spec fn acceptable(locales: Seq<Seq<char>>) -> bool {
    &&& locales.len() > 0
    &&& forall|i: int| 0 <= i < locales.len() ==> #[trigger] locales[i] != "en"@
    &&& forall|i: int| 0 <= i < locales.len() ==> is_tag(#[trigger] locales[i])
    &&& locales.no_duplicates()
}

proof fn lemma_first_tag_fault(locales: Seq<Seq<char>>)
    ensures
        first_tag_fault(locales) is None <==> {
            &&& forall|i: int| 0 <= i < locales.len() ==> #[trigger] locales[i] != "en"@
            &&& forall|i: int| 0 <= i < locales.len() ==> is_tag(#[trigger] locales[i])
            &&& locales.no_duplicates()
        },
    decreases locales.len(),
{
    if locales.len() > 0 {
        let front = locales.drop_last();
        let last = locales.last();
        lemma_first_tag_fault(front);
        assert(forall|i: int| 0 <= i < front.len() ==> front[i] == locales[i]);
        if first_tag_fault(locales) is None {
            assert(!front.contains(last));
            assert forall|i: int, j: int|
                0 <= i < locales.len() && 0 <= j < locales.len() && i != j implies locales[i]
                != locales[j] by {
                if i < front.len() && j < front.len() {
                    assert(front[i] != front[j]);
                } else if i < front.len() {
                    assert(front.contains(front[i]));
                } else {
                    assert(front.contains(front[j]));
                }
            }
        }
        if locales.no_duplicates() {
            assert(front.no_duplicates());
            assert(!front.contains(last));
        }
    }
}

/// The locales that are not refused are the acceptable ones.
pub proof fn accepted_iff_acceptable(locales: Seq<Seq<char>>)
    ensures
        locales_fault(locales) is None <==> acceptable(locales),
{
    lemma_first_tag_fault(locales);
}

fn tag_char(c: char) -> (ok: bool)
    ensures
        ok == is_tag_char(c),
{
    ('a' <= c && c <= 'z') || ('A' <= c && c <= 'Z') || ('0' <= c && c <= '9') || c == '-'
}

fn tag(locale: &str) -> (ok: bool)
    ensures
        ok == is_tag(locale@),
{
    let chars = text::chars_of(locale);
    if chars.len() == 0 {
        return false;
    }
    for i in 0..chars.len()
        invariant
            chars@ == locale@,
            forall|j: int| 0 <= j < i ==> is_tag_char(#[trigger] locale@[j]),
    {
        if !tag_char(chars[i]) {
            assert(!is_tag_char(locale@[i as int]));
            return false;
        }
    }
    true
}

/// Whether `locale` is one of `locales`.
pub fn lists(locales: &[String], locale: &str) -> (found: bool)
    ensures
        found == model::views(locales@).contains(locale@),
{
    let ghost all = model::views(locales@);
    for i in 0..locales.len()
        invariant
            all == model::views(locales@),
            forall|j: int| 0 <= j < i ==> all[j] != locale@,
    {
        if text::text_eq(locales[i].as_str(), locale) {
            assert(all[i as int] == locale@);
            return true;
        }
    }
    false
}

/// Refuses a request without locales, and otherwise the first locale that is
/// English, no tag, or requested before.
pub fn validate_requested_locales(locales: &[String]) -> (result: Result<(), LocaleError>)
    ensures
        match result {
            Ok(()) => locales_fault(model::views(locales@)) is None,
            Err(error) => locales_fault(model::views(locales@)) == Some(error@),
        },
{
    if locales.len() == 0 {
        return Err(LocaleError::NoLocales);
    }
    let ghost all = model::views(locales@);
    let mut seen: Vec<String> = Vec::new();
    let mut i: usize = 0;
    while i < locales.len()
        invariant
            all == model::views(locales@),
            all.len() > 0,
            i <= locales@.len(),
            model::views(seen@) == all.take(i as int),
            first_tag_fault(all.take(i as int)) is None,
        decreases locales.len() - i,
    {
        let locale = &locales[i];
        proof {
            let next = all.take(i + 1);
            assert(next.drop_last() =~= all.take(i as int));
            assert(next.last() == locale@);
            if tag_fault(locale@, all.take(i as int)) is Some {
                lemma_fault_stays(all, i + 1);
            }
        }
        if text::text_eq(locale.as_str(), "en") {
            return Err(LocaleError::English);
        }
        if !tag(locale.as_str()) {
            return Err(LocaleError::Invalid(locale.clone()));
        }
        if lists(seen.as_slice(), locale.as_str()) {
            return Err(LocaleError::Duplicate(locale.clone()));
        }
        seen.push(locale.clone());
        assert(model::views(seen@) =~= all.take(i + 1));
        i = i + 1;
    }
    assert(all.take(i as int) =~= all);
    Ok(())
}

proof fn lemma_fault_stays(locales: Seq<Seq<char>>, n: int)
    requires
        0 <= n <= locales.len(),
        first_tag_fault(locales.take(n)) is Some,
    ensures
        first_tag_fault(locales) == first_tag_fault(locales.take(n)),
    decreases locales.len(),
{
    if n < locales.len() {
        let front = locales.drop_last();
        assert(front.take(n) =~= locales.take(n));
        lemma_fault_stays(front, n);
    } else {
        assert(locales.take(n) =~= locales);
    }
}

/// The path of a locale's catalog in the project at `root`: a file of its own in
/// the directory of the catalogs.
pub open spec fn catalog_file(root: Seq<char>, locale: Seq<char>) -> Seq<char> {
    path::joined(path::joined(root, "locales"@), locale + ".yml"@)
}

/// The path of the catalog of `locale` in the project at `root`. With an empty
/// `root` it is the path below the project root.
pub fn catalog_path(root: &str, locale: &str) -> (file: String)
    ensures
        file@ == catalog_file(root@, locale@),
{
    let mut name = locale.to_owned();
    name.append(".yml");
    path::join(path::join(root, "locales").as_str(), name.as_str())
}

/// Two tags that share a catalog's path in one project are the same tag.
pub proof fn catalogs_do_not_collide(root: Seq<char>, a: Seq<char>, b: Seq<char>)
    requires
        is_tag(a),
        is_tag(b),
        catalog_file(root, a) == catalog_file(root, b),
    ensures
        a == b,
{
    reveal_strlit(".yml");
    reveal_strlit("locales");
    let x = a + ".yml"@;
    let y = b + ".yml"@;
    assert(is_tag_char(a[0]) && x[0] == a[0]);
    assert(is_tag_char(b[0]) && y[0] == b[0]);
    let directory = path::joined(root, "locales"@);
    assert(directory.len() > 0 && directory.last() == 's');
    let prefix = directory.push('/');
    assert(x =~= (prefix + x).skip(prefix.len() as int));
    assert(y =~= (prefix + y).skip(prefix.len() as int));
    assert(x.len() == y.len());
    assert(a =~= x.take(a.len() as int));
    assert(b =~= y.take(b.len() as int));
}

/// A single requested locale is accepted exactly if it is a text of ASCII letters,
/// digits and hyphens, of any length but none, and other than `en`. English is
/// refused as such, and every other text as invalid.
pub proof fn single_locale_is_accepted_iff_tag(t: Seq<char>)
    ensures
        ({
            let spelled = t.len() > 0 && forall|i: int|
                0 <= i < t.len() ==> {
                    let c = #[trigger] t[i];
                    'a' <= c <= 'z' || 'A' <= c <= 'Z' || '0' <= c <= '9' || c == '-'
                };
            &&& locales_fault(seq![t]) is None <==> spelled && t != seq!['e', 'n']
            &&& t == seq!['e', 'n'] ==> locales_fault(seq![t]) == Some(LocaleFault::English)
            &&& !spelled ==> locales_fault(seq![t]) == Some(LocaleFault::Invalid(t))
        }),
        locales_fault(Seq::empty()) == Some(LocaleFault::NoLocales),
{
    reveal_strlit("en");
    assert("en"@ =~= seq!['e', 'n']);
    let all = seq![t];
    assert(all.drop_last() =~= Seq::<Seq<char>>::empty());
    assert(first_tag_fault(all.drop_last()) is None);
    assert(!all.drop_last().contains(t));
    let spelled = t.len() > 0 && forall|i: int|
        0 <= i < t.len() ==> {
            let c = #[trigger] t[i];
            'a' <= c <= 'z' || 'A' <= c <= 'Z' || '0' <= c <= '9' || c == '-'
        };
    assert(is_tag(t) == spelled) by {
        if is_tag(t) {
            assert forall|i: int| 0 <= i < t.len() implies {
                let c = #[trigger] t[i];
                'a' <= c <= 'z' || 'A' <= c <= 'Z' || '0' <= c <= '9' || c == '-'
            } by {
                assert(is_tag_char(t[i]));
            }
        }
    }
}

/// A request is accepted exactly if it names at least one locale, each would be
/// accepted alone, and no two are the same.
pub proof fn accepted_iff_each_is_accepted(locales: Seq<Seq<char>>)
    ensures
        locales_fault(locales) is None <==> {
            &&& locales.len() > 0
            &&& forall|i: int|
                0 <= i < locales.len() ==> locales_fault(seq![#[trigger] locales[i]]) is None
            &&& forall|i: int, j: int|
                0 <= i < j < locales.len() ==> #[trigger] locales[i] != #[trigger] locales[j]
        },
{
    accepted_iff_acceptable(locales);
    assert forall|t: Seq<char>| #[trigger]
        locales_fault(seq![t]) is None <==> t != "en"@ && is_tag(t) by {
        let one = seq![t];
        accepted_iff_acceptable(one);
        assert(one[0] == t);
    }
    if acceptable(locales) {
        assert forall|i: int| 0 <= i < locales.len() implies locales_fault(
            seq![#[trigger] locales[i]],
        ) is None by {
            assert(is_tag(locales[i]));
        }
    }
    if locales.len() > 0 && (forall|i: int|
        0 <= i < locales.len() ==> locales_fault(seq![#[trigger] locales[i]]) is None) && (forall|
        i: int,
        j: int,
    |
        0 <= i < j < locales.len() ==> #[trigger] locales[i] != #[trigger] locales[j]) {
        assert forall|i: int| 0 <= i < locales.len() implies is_tag(#[trigger] locales[i])
            && locales[i] != "en"@ by {
            assert(locales_fault(seq![locales[i]]) is None);
        }
        assert(locales.no_duplicates());
    }
}

/// The first locale that is refused decides what is said, whatever follows it: what
/// would be said of it alone, or else that it came before.
pub proof fn first_refused_locale_decides(
    front: Seq<Seq<char>>,
    t: Seq<char>,
    rest: Seq<Seq<char>>,
)
    requires
        front.len() == 0 || locales_fault(front) is None,
        locales_fault(seq![t]) is Some || front.contains(t),
    ensures
        locales_fault(front.push(t) + rest) == match locales_fault(seq![t]) {
            Some(fault) => Some(fault),
            None => Some(LocaleFault::Duplicate(t)),
        },
{
    let one = seq![t];
    assert(one.drop_last() =~= Seq::<Seq<char>>::empty());
    assert(first_tag_fault(one.drop_last()) is None);
    assert(!one.drop_last().contains(t));
    let upto = front.push(t);
    let all = upto + rest;
    assert(upto.drop_last() =~= front);
    assert(first_tag_fault(front) is None);
    assert(all.take(upto.len() as int) =~= upto);
    lemma_fault_stays(all, upto.len() as int);
}

/// What a user is told names the locale that is refused.
pub proof fn locale_messages(l: Seq<char>)
    ensures
        LocaleFault::NoLocales.message()
            == "at least one target locale is required (for example: --locale uk)"@,
        LocaleFault::English.message()
            == "`en` is source text in code and must not have locales/en.yml"@,
        LocaleFault::Invalid(l).message() == "invalid locale `"@ + l
            + "`; use BCP 47-style tags such as uk or pt-BR"@,
        LocaleFault::Duplicate(l).message() == "locale `"@ + l + "` was specified more than once"@,
{
}

/// The catalog of a locale is the file of its name in the directory of the
/// catalogs, at the root or below the given one.
pub proof fn catalog_is_named_after_locale(root: Seq<char>, locale: Seq<char>)
    requires
        !(locale.len() > 0 && locale[0] == '/'),
    ensures
        catalog_file(Seq::empty(), locale) == "locales/"@ + locale + ".yml"@,
        root.len() > 0 && root[root.len() - 1] != '/' ==> catalog_file(root, locale) == root
            + "/locales/"@ + locale + ".yml"@,
{
    reveal_strlit("locales");
    reveal_strlit("locales/");
    reveal_strlit("/locales/");
    reveal_strlit(".yml");
    let name = locale + ".yml"@;
    assert(name[0] != '/');
    path::joined_keeps_both(Seq::empty(), "locales"@);
    path::joined_keeps_both("locales"@, name);
    assert("locales"@ + seq!['/'] + name =~= "locales/"@ + locale + ".yml"@);
    if root.len() > 0 && root[root.len() - 1] != '/' {
        path::joined_keeps_both(root, "locales"@);
        let directory = root + seq!['/'] + "locales"@;
        assert(directory[directory.len() - 1] == 's');
        path::joined_keeps_both(directory, name);
        assert(directory + seq!['/'] + name =~= root + "/locales/"@ + locale + ".yml"@);
    }
}

/// A refusal is seen with the locale that it names.
pub proof fn locale_errors_are_seen(locale: String)
    ensures
        LocaleError::NoLocales@ == LocaleFault::NoLocales,
        LocaleError::English@ == LocaleFault::English,
        LocaleError::Invalid(locale)@ == LocaleFault::Invalid(locale@),
        LocaleError::Duplicate(locale)@ == LocaleFault::Duplicate(locale@),
{
}

} // verus!
