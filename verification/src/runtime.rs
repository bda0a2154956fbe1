//! Looking up translations in the catalog of the active locale.

use vstd::prelude::*;

use crate::model::Catalog;
use crate::string_map::StringMap;
use crate::template;
use crate::text;

verus! {

/// The loaded catalogs and the locale that is in use.
#[derive(Debug, PartialEq, Eq)]
pub struct RuntimeState {
    active_locale: Option<String>,
    catalogs: StringMap<Catalog>,
}

pub struct RuntimeView {
    pub active_locale: Option<Seq<char>>,
    pub catalogs: Map<Seq<char>, Map<Seq<char>, Seq<char>>>,
}

impl View for RuntimeState {
    type V = RuntimeView;

    closed spec fn view(&self) -> RuntimeView {
        RuntimeView {
            active_locale: match self.active_locale {
                Some(locale) => Some(locale@),
                None => None,
            },
            catalogs: self.catalogs@,
        }
    }
}

impl RuntimeView {
    /// Whether the catalog of the active locale has a translation for `source`.
    /// A blank entry stands for a text that is not translated yet.
    pub open spec fn translates(self, source: Seq<char>) -> bool {
        match self.active_locale {
            Some(locale) => {
                &&& self.catalogs.contains_key(locale)
                &&& self.catalogs[locale].contains_key(source)
                &&& !text::is_blank(self.catalogs[locale][source])
            },
            None => false,
        }
    }

    /// What the catalog of the active locale makes of `source`; the source text
    /// itself where it has no translation.
    pub open spec fn translation(self, source: Seq<char>) -> Seq<char> {
        if self.translates(source) {
            self.catalogs[self.active_locale->0][source]
        } else {
            source
        }
    }
}

/// Why a catalog was not loaded.
#[derive(Debug)]
pub enum CatalogError {
    /// The file at `path` could not be read.
    Read { path: String, reason: String },
    /// The text is no catalog. `reason` is what `source` says of itself.
    Parse { source: serde_yaml::Error, reason: String },
}

pub enum CatalogFault {
    Read { path: Seq<char>, reason: Seq<char> },
    Parse { reason: Seq<char> },
}

impl View for CatalogError {
    type V = CatalogFault;

    open spec fn view(&self) -> CatalogFault {
        match *self {
            CatalogError::Read { path, reason } => CatalogFault::Read {
                path: path@,
                reason: reason@,
            },
            CatalogError::Parse { source, reason } => CatalogFault::Parse { reason: reason@ },
        }
    }
}

impl CatalogFault {
    /// What a user is told.
    pub open spec fn message(self) -> Seq<char> {
        match self {
            CatalogFault::Read { path, reason } => "read "@ + path + ": "@ + reason,
            CatalogFault::Parse { reason } => "parse target locale catalog: "@ + reason,
        }
    }
}

impl CatalogError {
    /// What a user is told.
    pub fn message(&self) -> (s: String)
        ensures
            s@ == self@.message(),
    {
        match self {
            CatalogError::Read { path, reason } => {
                let mut s = "read ".to_owned();
                s.append(path.as_str());
                s.append(": ");
                s.append(reason.as_str());
                s
            },
            CatalogError::Parse { source: _, reason } => {
                let mut s = "parse target locale catalog: ".to_owned();
                s.append(reason.as_str());
                s
            },
        }
    }
}

/// The error of the YAML parser, as it is.
#[verifier::external_type_specification]
#[verifier::external_body]
pub struct ExYamlError(serde_yaml::Error);

/// The entries of a YAML mapping from text to text, in the order of their keys,
/// each key once; or what the parser says where the text is none.
pub uninterp spec fn yaml_entries(yaml: Seq<char>) -> Result<
    Seq<(Seq<char>, Seq<char>)>,
    Seq<char>,
>;

/// What a list of entries stands for.
pub open spec fn entries_view(entries: Seq<(String, String)>) -> Seq<(Seq<char>, Seq<char>)> {
    Seq::new(entries.len(), |i: int| (entries[i].0@, entries[i].1@))
}

/// Calls `serde_yaml::from_str` for a `BTreeMap<String, String>`. Whether the text
/// parses, the entries of the map and the text of the error depend on the YAML
/// text alone.
#[verifier::external_body]
fn parse_entries(yaml: &str) -> (result: Result<
    Vec<(String, String)>,
    (serde_yaml::Error, String),
>)
    ensures
        match result {
            Ok(entries) => yaml_entries(yaml@) == Ok::<Seq<(Seq<char>, Seq<char>)>, Seq<char>>(
                entries_view(entries@),
            ),
            Err(error) => yaml_entries(yaml@) == Err::<Seq<(Seq<char>, Seq<char>)>, Seq<char>>(
                error.1@,
            ),
        },
{
    match serde_yaml::from_str::<std::collections::BTreeMap<String, String>>(yaml) {
        Ok(map) => Ok(map.into_iter().collect()),
        Err(error) => {
            let reason = error.to_string();
            Err((error, reason))
        },
    }
}

/// The catalog that holds the entries, a later one in place of an earlier one.
pub open spec fn catalog_of(entries: Seq<(Seq<char>, Seq<char>)>) -> Map<Seq<char>, Seq<char>>
    decreases entries.len(),
{
    if entries.len() == 0 {
        Map::empty()
    } else {
        catalog_of(entries.drop_last()).insert(entries.last().0, entries.last().1)
    }
}

/// An entry that no later one replaces is in the catalog.
pub proof fn last_entry_counts(entries: Seq<(Seq<char>, Seq<char>)>, i: int)
    requires
        0 <= i < entries.len(),
        forall|j: int| i < j < entries.len() ==> (#[trigger] entries[j]).0 != entries[i].0,
    ensures
        catalog_of(entries).contains_key(entries[i].0),
        catalog_of(entries)[entries[i].0] == entries[i].1,
    decreases entries.len(),
{
    if i < entries.len() - 1 {
        let front = entries.drop_last();
        assert forall|j: int| i < j < front.len() implies (#[trigger] front[j]).0 != front[i].0 by {
            assert(front[j] == entries[j]);
        }
        last_entry_counts(front, i);
        assert(entries[entries.len() - 1].0 != entries[i].0);
    }
}

/// A catalog has no other entries than those that it was made of.
pub proof fn catalog_holds_entries_only(entries: Seq<(Seq<char>, Seq<char>)>, key: Seq<char>)
    requires
        catalog_of(entries).contains_key(key),
    ensures
        entries.contains((key, catalog_of(entries)[key])),
    decreases entries.len(),
{
    if entries.len() > 0 {
        let front = entries.drop_last();
        if entries.last().0 == key {
            assert(entries[entries.len() - 1] == (key, catalog_of(entries)[key]));
        } else {
            catalog_holds_entries_only(front, key);
            let i = front.index_of((key, catalog_of(front)[key]));
            assert(entries[i] == front[i]);
        }
    }
}

/// Makes a catalog of the entries (see [`catalog_of`]).
pub fn catalog_from_entries(entries: &Vec<(String, String)>) -> (catalog: Catalog)
    ensures
        catalog@ == catalog_of(entries_view(entries@)),
{
    let ghost all = entries_view(entries@);
    let mut catalog: Catalog = StringMap::new();
    for i in 0..entries.len()
        invariant
            all == entries_view(entries@),
            catalog@ == catalog_of(all.take(i as int)),
    {
        let (key, value) = &entries[i];
        catalog.insert(key.clone(), value.clone());
        proof {
            assert(all.take(i + 1).drop_last() =~= all.take(i as int));
        }
    }
    assert(all.take(all.len() as int) =~= all);
    catalog
}

/// Nothing loaded, no locale in use.
pub fn new_runtime() -> (runtime: RuntimeState)
    ensures
        runtime@ == (RuntimeView { active_locale: None, catalogs: Map::empty() }),
{
    RuntimeState { active_locale: None, catalogs: StringMap::new() }
}

impl Default for RuntimeState {
    fn default() -> (runtime: Self)
        ensures
            runtime@ == (RuntimeView { active_locale: None, catalogs: Map::empty() }),
    {
        new_runtime()
    }
}

/// Puts `catalog` in place of the one that `locale` has. The active locale stays.
pub fn replace_catalog(runtime: &mut RuntimeState, locale: String, catalog: Catalog)
    ensures
        final(runtime)@ == (RuntimeView {
            active_locale: old(runtime)@.active_locale,
            catalogs: old(runtime)@.catalogs.insert(locale@, catalog@),
        }),
{
    runtime.catalogs.insert(locale, catalog);
}

/// Puts a catalog of the parsed entries in place of the one that `locale` has.
/// Where the parser failed, nothing changes.
pub fn load_catalog_entries(
    runtime: &mut RuntimeState,
    locale: String,
    parsed: Result<Vec<(String, String)>, (serde_yaml::Error, String)>,
) -> (result: Result<(), CatalogError>)
    ensures
        match parsed {
            Ok(entries) => {
                &&& result is Ok
                &&& final(runtime)@ == (RuntimeView {
                    active_locale: old(runtime)@.active_locale,
                    catalogs: old(runtime)@.catalogs.insert(
                        locale@,
                        catalog_of(entries_view(entries@)),
                    ),
                })
            },
            Err(error) => {
                &&& result == Err::<(), CatalogError>(
                    CatalogError::Parse { source: error.0, reason: error.1 },
                )
                &&& final(runtime)@ == old(runtime)@
            },
        },
{
    match parsed {
        Ok(entries) => {
            let catalog = catalog_from_entries(&entries);
            replace_catalog(runtime, locale, catalog);
            Ok(())
        },
        Err((source, reason)) => Err(CatalogError::Parse { source, reason }),
    }
}

/// Parses a YAML catalog and puts it in place of the one that `locale` has. Text
/// that is no catalog changes nothing.
pub fn load_catalog_yaml(runtime: &mut RuntimeState, locale: String, yaml: &str) -> (result: Result<
    (),
    CatalogError,
>)
    ensures
        match yaml_entries(yaml@) {
            Ok(entries) => {
                &&& result is Ok
                &&& final(runtime)@ == (RuntimeView {
                    active_locale: old(runtime)@.active_locale,
                    catalogs: old(runtime)@.catalogs.insert(locale@, catalog_of(entries)),
                })
            },
            Err(reason) => {
                &&& result matches Err(error) && error@ == (CatalogFault::Parse { reason })
                &&& final(runtime)@ == old(runtime)@
            },
        },
{
    load_catalog_entries(runtime, locale, parse_entries(yaml))
}

/// Loads the catalog of `locale` from what was read of the file at `path`: its
/// content, or the reason why it could not be read.
pub fn load_catalog_file(
    runtime: &mut RuntimeState,
    locale: String,
    path: &str,
    content: Result<String, String>,
) -> (result: Result<(), CatalogError>)
    ensures
        match content {
            Err(reason) => {
                &&& result matches Err(error) && error@ == (CatalogFault::Read {
                    path: path@,
                    reason: reason@,
                })
                &&& final(runtime)@ == old(runtime)@
            },
            Ok(yaml) => match yaml_entries(yaml@) {
                Ok(entries) => {
                    &&& result is Ok
                    &&& final(runtime)@ == (RuntimeView {
                        active_locale: old(runtime)@.active_locale,
                        catalogs: old(runtime)@.catalogs.insert(locale@, catalog_of(entries)),
                    })
                },
                Err(reason) => {
                    &&& result matches Err(error) && error@ == (CatalogFault::Parse { reason })
                    &&& final(runtime)@ == old(runtime)@
                },
            },
        },
{
    match content {
        Ok(yaml) => load_catalog_yaml(runtime, locale, yaml.as_str()),
        Err(reason) => Err(CatalogError::Read { path: path.to_owned(), reason }),
    }
}

/// Makes `locale` the active one. The catalogs stay.
pub fn activate_locale(runtime: &mut RuntimeState, locale: String)
    ensures
        final(runtime)@ == (RuntimeView {
            active_locale: Some(locale@),
            catalogs: old(runtime)@.catalogs,
        }),
{
    runtime.active_locale = Some(locale);
}

/// What the catalog of the active locale makes of `source`; the source text itself
/// where it has no translation.
pub fn translate(runtime: &RuntimeState, source: &str) -> (translation: String)
    ensures
        translation@ == runtime@.translation(source@),
{
    if let Some(locale) = &runtime.active_locale {
        if let Some(catalog) = runtime.catalogs.get(locale.as_str()) {
            if let Some(translation) = catalog.get(source) {
                if !text::blank(translation.as_str()) {
                    return translation.clone();
                }
            }
        }
    }
    source.to_owned()
}

/// The translation of a source template, with the value of each argument in place
/// of its `{name}` placeholders. A placeholder that no argument names stays
/// visible.
pub fn translate_with_args(
    runtime: &RuntimeState,
    source: &str,
    arguments: &[(&str, String)],
) -> (translation: String)
    ensures
        translation@ == template::substituted(
            runtime@.translation(source@),
            template::arguments_view(arguments@),
        ),
{
    let template = translate(runtime, source);
    template::substitute(template.as_str(), arguments)
}

/// Without an active locale every text is its own translation.
pub proof fn source_without_active_locale(runtime: RuntimeView, source: Seq<char>)
    requires
        runtime.active_locale is None,
    ensures
        runtime.translation(source) == source,
{
}

/// As long as the active catalog has no entry for a text, or a blank one, the text
/// is its own translation.
pub proof fn source_until_translated(runtime: RuntimeView, locale: Seq<char>, source: Seq<char>)
    requires
        runtime.active_locale == Some(locale),
        runtime.catalogs.contains_key(locale) && runtime.catalogs[locale].contains_key(source)
            ==> text::is_blank(runtime.catalogs[locale][source]),
    ensures
        runtime.translation(source) == source,
{
}

/// Once a catalog was loaded for a locale and the locale activated, in either
/// order, its translations are in use.
pub proof fn loaded_catalog_is_in_use(
    runtime: RuntimeView,
    locale: Seq<char>,
    catalog: Map<Seq<char>, Seq<char>>,
    source: Seq<char>,
)
    requires
        catalog.contains_key(source),
        !text::is_blank(catalog[source]),
    ensures
        (RuntimeView {
            active_locale: Some(locale),
            catalogs: runtime.catalogs.insert(locale, catalog),
        }).translation(source) == catalog[source],
{
}

/// Replacing the catalog of another locale changes no translation.
pub proof fn other_catalogs_do_not_matter(
    runtime: RuntimeView,
    locale: Seq<char>,
    catalog: Map<Seq<char>, Seq<char>>,
    source: Seq<char>,
)
    requires
        runtime.active_locale != Some(locale),
    ensures
        (RuntimeView {
            active_locale: runtime.active_locale,
            catalogs: runtime.catalogs.insert(locale, catalog),
        }).translation(source) == runtime.translation(source),
{
}

/// The entries are seen with their keys and values, all of them and in order.
pub proof fn entries_are_seen_whole(entries: Seq<(String, String)>, i: int)
    requires
        0 <= i < entries.len(),
    ensures
        entries_view(entries).len() == entries.len(),
        entries_view(entries)[i].0 == entries[i].0@,
        entries_view(entries)[i].1 == entries[i].1@,
{
}

/// A text is translated exactly if the active locale has a catalog with an entry for
/// it that is not blank; the translation is that entry, and otherwise the text.
pub proof fn translation_is_active_entry(
    runtime: RuntimeView,
    locale: Seq<char>,
    catalog: Map<Seq<char>, Seq<char>>,
    source: Seq<char>,
)
    requires
        runtime.active_locale == Some(locale),
        runtime.catalogs.contains_key(locale),
        runtime.catalogs[locale] == catalog,
    ensures
        catalog.contains_key(source) && !text::is_blank(catalog[source]) ==> runtime.translation(
            source,
        ) == catalog[source],
        !catalog.contains_key(source) || text::is_blank(catalog[source]) ==> runtime.translation(
            source,
        ) == source,
{
}

/// What a user is told names the file and the reason.
pub proof fn catalog_messages(path: Seq<char>, reason: Seq<char>)
    ensures
        (CatalogFault::Read { path, reason }).message() == "read "@ + path + ": "@ + reason,
        (CatalogFault::Parse { reason }).message() == "parse target locale catalog: "@ + reason,
{
}

/// A refusal is seen with the file and the reason that it names.
pub proof fn catalog_errors_are_seen(path: String, reason: String, source: serde_yaml::Error)
    ensures
        (CatalogError::Read { path, reason })@ == (CatalogFault::Read {
            path: path@,
            reason: reason@,
        }),
        (CatalogError::Parse { source, reason })@ == (CatalogFault::Parse { reason: reason@ }),
{
}

} // verus!
