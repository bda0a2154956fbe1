//! Planning the translations that are missing, and taking over a response.

use vstd::prelude::*;

use crate::model;
use crate::model::{Catalog, Config, Message, Occurrence, State};
use crate::project;
use crate::string_map;
use crate::string_map::{Duplicate, StringMap};
use crate::text;

verus! {

/// The version of the response format.
pub const RESPONSE_VERSION: u32 = 1;

/// Whether a catalog has no translation for `source`: no entry, or a blank one.
pub open spec fn is_missing(catalog: Map<Seq<char>, Seq<char>>, source: Seq<char>) -> bool {
    !catalog.contains_key(source) || text::is_blank(catalog[source])
}

/// A source text that stood at the place of another one, and how it was
/// translated, where it was.
#[derive(Debug, PartialEq, Eq)]
pub struct PreviousTranslation {
    pub source: String,
    pub translation: Option<String>,
}

pub struct PreviousTranslationView {
    pub source: Seq<char>,
    pub translation: Option<Seq<char>>,
}

impl View for PreviousTranslation {
    type V = PreviousTranslationView;

    open spec fn view(&self) -> PreviousTranslationView {
        PreviousTranslationView {
            source: self.source@,
            translation: model::text_view(self.translation),
        }
    }
}

/// A translation to be made.
#[derive(Debug, PartialEq, Eq)]
pub struct TranslationTask {
    pub source: String,
    pub source_hash: String,
    pub locale: String,
    pub occurrences: Vec<Occurrence>,
    pub previous: Vec<PreviousTranslation>,
}

pub struct TaskView {
    pub source: Seq<char>,
    pub source_hash: Seq<char>,
    pub locale: Seq<char>,
    pub occurrences: Seq<model::OccurrenceView>,
    pub previous: Seq<PreviousTranslationView>,
}

impl View for TranslationTask {
    type V = TaskView;

    open spec fn view(&self) -> TaskView {
        TaskView {
            source: self.source@,
            source_hash: self.source_hash@,
            locale: self.locale@,
            occurrences: model::views(self.occurrences@),
            previous: model::views(self.previous@),
        }
    }
}

/// The translations to be made, and the version of the response that is expected.
#[derive(Debug, PartialEq, Eq)]
pub struct TranslationPlan {
    pub version: u32,
    pub tasks: Vec<TranslationTask>,
}

/// One translation that was made.
#[derive(Debug, PartialEq, Eq)]
pub struct TranslatedMessage {
    pub source: String,
    pub source_hash: String,
    pub locale: String,
    pub translation: String,
}

pub struct TranslatedView {
    pub source: Seq<char>,
    pub source_hash: Seq<char>,
    pub locale: Seq<char>,
    pub translation: Seq<char>,
}

impl View for TranslatedMessage {
    type V = TranslatedView;

    open spec fn view(&self) -> TranslatedView {
        TranslatedView {
            source: self.source@,
            source_hash: self.source_hash@,
            locale: self.locale@,
            translation: self.translation@,
        }
    }
}

/// The translations that were made, in answer to a plan.
#[derive(Debug, PartialEq, Eq)]
pub struct TranslationResponse {
    pub version: u32,
    pub translations: Vec<TranslatedMessage>,
}

/// How many translations of a response were new, and how many were there already.
#[derive(Debug, Clone, Copy, PartialEq, Eq, Structural)]
pub struct TranslationReport {
    pub applied: usize,
    pub already_applied: usize,
}

/// Why a plan cannot be made, or a response is refused.
#[derive(Debug, PartialEq, Eq)]
pub enum TranslationError {
    /// The response is written in another version of the format.
    Version(u32),
    /// The locale is no target locale of the project.
    UnknownLocale(String),
    /// No message has the source text any more.
    UnknownSource { locale: String, source: String },
    /// The source text changed since the plan was made.
    StaleSource { locale: String, source: String },
    /// The translation is blank.
    Blank { locale: String, source: String },
    /// There is another translation already.
    Conflict { locale: String, source: String },
}

pub enum TranslationFault {
    Version(u32),
    UnknownLocale(Seq<char>),
    UnknownSource { locale: Seq<char>, source: Seq<char> },
    StaleSource { locale: Seq<char>, source: Seq<char> },
    Blank { locale: Seq<char>, source: Seq<char> },
    Conflict { locale: Seq<char>, source: Seq<char> },
}

impl View for TranslationError {
    type V = TranslationFault;

    open spec fn view(&self) -> TranslationFault {
        match *self {
            TranslationError::Version(version) => TranslationFault::Version(version),
            TranslationError::UnknownLocale(locale) => TranslationFault::UnknownLocale(locale@),
            TranslationError::UnknownSource { locale, source } => TranslationFault::UnknownSource {
                locale: locale@,
                source: source@,
            },
            TranslationError::StaleSource { locale, source } => TranslationFault::StaleSource {
                locale: locale@,
                source: source@,
            },
            TranslationError::Blank { locale, source } => TranslationFault::Blank {
                locale: locale@,
                source: source@,
            },
            TranslationError::Conflict { locale, source } => TranslationFault::Conflict {
                locale: locale@,
                source: source@,
            },
        }
    }
}

/// What is said of one translation of a response.
pub open spec fn entry_message(
    locale: Seq<char>,
    source: Seq<char>,
    complaint: Seq<char>,
) -> Seq<char> {
    "translation of `"@ + source + "` for "@ + locale + complaint
}

impl TranslationFault {
    /// What a user is told.
    pub open spec fn message(self) -> Seq<char> {
        match self {
            TranslationFault::Version(version) => "unsupported translation response version "@
                + text::decimal(version as nat),
            TranslationFault::UnknownLocale(locale) => "locale `"@ + locale
                + "` is not a target locale of this project"@,
            TranslationFault::UnknownSource { locale, source } => entry_message(
                locale,
                source,
                " is stale: the source text is absent from .l10n/state.yml"@,
            ),
            TranslationFault::StaleSource { locale, source } => entry_message(
                locale,
                source,
                " is stale: the source hash does not match"@,
            ),
            TranslationFault::Blank { locale, source } => entry_message(
                locale,
                source,
                " is blank"@,
            ),
            TranslationFault::Conflict { locale, source } => entry_message(
                locale,
                source,
                " conflicts with an existing translation"@,
            ),
        }
    }
}

fn entry_text(locale: &str, source: &str, complaint: &str) -> (s: String)
    ensures
        s@ == entry_message(locale@, source@, complaint@),
{
    let mut s = "translation of `".to_owned();
    s.append(source);
    s.append("` for ");
    s.append(locale);
    s.append(complaint);
    s
}

impl TranslationError {
    /// What a user is told.
    pub fn message(&self) -> (s: String)
        ensures
            s@ == self@.message(),
    {
        match self {
            TranslationError::Version(version) => {
                let mut s = "unsupported translation response version ".to_owned();
                s.append(text::decimal_text(*version).as_str());
                s
            },
            TranslationError::UnknownLocale(locale) => {
                let mut s = "locale `".to_owned();
                s.append(locale.as_str());
                s.append("` is not a target locale of this project");
                s
            },
            TranslationError::UnknownSource { locale, source } => entry_text(
                locale.as_str(),
                source.as_str(),
                " is stale: the source text is absent from .l10n/state.yml",
            ),
            TranslationError::StaleSource { locale, source } => entry_text(
                locale.as_str(),
                source.as_str(),
                " is stale: the source hash does not match",
            ),
            TranslationError::Blank { locale, source } => entry_text(
                locale.as_str(),
                source.as_str(),
                " is blank",
            ),
            TranslationError::Conflict { locale, source } => entry_text(
                locale.as_str(),
                source.as_str(),
                " conflicts with an existing translation",
            ),
        }
    }
}

/// The translation that a former source text had for `locale`, if any.
pub open spec fn previous_for(
    entry: model::PreviousSourceView,
    locale: Seq<char>,
) -> PreviousTranslationView {
    PreviousTranslationView {
        source: entry.source,
        translation: if is_missing(entry.translations, locale) {
            None
        } else {
            Some(entry.translations[locale])
        },
    }
}

/// The task to translate the message of `source` for `locale`.
pub open spec fn task_for(
    locale: Seq<char>,
    source: Seq<char>,
    message: model::MessageView,
) -> TaskView {
    TaskView {
        source,
        source_hash: message.source_hash,
        locale,
        occurrences: message.occurrences,
        previous: Seq::new(
            message.history.len(),
            |i: int| previous_for(message.history[i], locale),
        ),
    }
}

/// The sources that a catalog does not translate.
pub open spec fn missing_sources(
    messages: Map<Seq<char>, model::MessageView>,
    catalog: Map<Seq<char>, Seq<char>>,
) -> Set<Seq<char>> {
    messages.dom().filter(|k: Seq<char>| is_missing(catalog, k))
}

/// A task for each source that the catalog of `locale` does not translate, in the
/// order of the sources.
pub open spec fn locale_tasks(
    locale: Seq<char>,
    messages: Map<Seq<char>, model::MessageView>,
    catalog: Map<Seq<char>, Seq<char>>,
) -> Seq<TaskView> {
    let sources = string_map::in_order(missing_sources(messages, catalog));
    Seq::new(sources.len(), |i: int| task_for(locale, sources[i], messages[sources[i]]))
}

/// The tasks of each of the `wanted` locales in turn. `catalogs` are those of the
/// `locales`, in their order.
pub open spec fn plan_tasks(
    wanted: Seq<Seq<char>>,
    messages: Map<Seq<char>, model::MessageView>,
    locales: Seq<Seq<char>>,
    catalogs: Seq<Map<Seq<char>, Seq<char>>>,
) -> Seq<TaskView>
    decreases wanted.len(),
{
    if wanted.len() == 0 {
        Seq::empty()
    } else {
        plan_tasks(wanted.drop_last(), messages, locales, catalogs) + locale_tasks(
            wanted.last(),
            messages,
            catalogs[locales.index_of(wanted.last())],
        )
    }
}

/// The locales that a plan is for: the requested ones, or all where none is
/// requested.
pub open spec fn wanted_locales(
    requested: Seq<Seq<char>>,
    locales: Seq<Seq<char>>,
) -> Seq<Seq<char>> {
    if requested.len() == 0 {
        locales
    } else {
        requested
    }
}

/// The first requested locale that the project does not have.
pub open spec fn first_unknown(
    requested: Seq<Seq<char>>,
    locales: Seq<Seq<char>>,
) -> Option<Seq<char>>
    decreases requested.len(),
{
    if requested.len() == 0 {
        None
    } else {
        match first_unknown(requested.drop_last(), locales) {
            Some(locale) => Some(locale),
            None => if locales.contains(requested.last()) {
                None
            } else {
                Some(requested.last())
            },
        }
    }
}

/// Whether a catalog has no translation for `source` (see [`is_missing`]).
fn missing(catalog: &StringMap<String>, source: &str) -> (missing: bool)
    ensures
        missing == is_missing(catalog@, source@),
{
    match catalog.get(source) {
        Some(translation) => text::blank(translation.as_str()),
        None => true,
    }
}

fn previous_translations(message: &Message, locale: &str) -> (previous: Vec<PreviousTranslation>)
    ensures
        model::views(previous@) == task_for(locale@, message@.source, message@).previous,
{
    let ghost wanted = task_for(locale@, message@.source, message@).previous;
    let mut previous: Vec<PreviousTranslation> = Vec::new();
    for i in 0..message.history.len()
        invariant
            wanted == task_for(locale@, message@.source, message@).previous,
            previous@.len() == i,
            forall|j: int| 0 <= j < i ==> (#[trigger] previous@[j])@ == wanted[j],
    {
        let entry = &message.history[i];
        let translation: Option<String> = if missing(&entry.translations, locale) {
            None
        } else {
            match entry.translations.get(locale) {
                Some(t) => Some(t.clone()),
                None => None,
            }
        };
        assert(message@.history[i as int] == entry@);
        previous.push(PreviousTranslation { source: entry.source.clone(), translation });
    }
    assert(model::views(previous@) =~= wanted);
    previous
}

/// The tasks of one locale, appended to `tasks` (see [`locale_tasks`]).
fn add_locale_tasks(
    tasks: &mut Vec<TranslationTask>,
    locale: &str,
    messages: &StringMap<Message>,
    catalog: &Catalog,
)
    ensures
        model::views(final(tasks)@) == model::views(old(tasks)@) + locale_tasks(
            locale@,
            messages@,
            catalog@,
        ),
{
    let ghost start = model::views(tasks@);
    let n = messages.len();
    let ghost keys = messages.keys();
    let ghost wanted = missing_sources(messages@, catalog@);
    let ghost mut sources: Seq<Seq<char>> = Seq::empty();
    let mut i: usize = 0;
    assert(start + Seq::<TaskView>::empty() =~= start);
    assert(Seq::new(0, |i: int| task_for(locale@, sources[i], messages@[sources[i]])) =~= Seq::<
        TaskView,
    >::empty());
    assert(sources.to_set() =~= wanted.intersect(keys.take(0).to_set()));
    while i < n
        invariant
            i <= n,
            n == keys.len(),
            keys == messages.keys(),
            string_map::increasing(keys),
            messages@.dom() == keys.to_set(),
            wanted == missing_sources(messages@, catalog@),
            string_map::increasing(sources),
            sources.to_set() == wanted.intersect(keys.take(i as int).to_set()),
            model::views(tasks@) == start + Seq::new(
                sources.len(),
                |i: int| task_for(locale@, sources[i], messages@[sources[i]]),
            ),
        decreases n - i,
    {
        let source = messages.key_at(i);
        let message = messages.value_at(i);
        let ghost k = keys[i as int];
        let ghost before = model::views(tasks@);
        let ghost earlier = sources;
        proof {
            assert(keys.take(i + 1) =~= keys.take(i as int).push(k));
            keys.take(i as int).lemma_push_to_set_commute(k);
        }
        if missing(catalog, source.as_str()) {
            let task = TranslationTask {
                source: source.clone(),
                source_hash: message.source_hash.clone(),
                locale: locale.to_owned(),
                occurrences: model::duplicate_all(&message.occurrences),
                previous: previous_translations(message, locale),
            };
            let ghost added = task@;
            tasks.push(task);
            proof {
                sources = sources.push(k);
                earlier.lemma_push_to_set_commute(k);
                assert(sources.to_set() =~= wanted.intersect(keys.take(i + 1).to_set()));
                assert forall|x: int, y: int| 0 <= x < y < sources.len() implies text::text_lt(
                    #[trigger] sources[x],
                    #[trigger] sources[y],
                ) by {
                    if y == earlier.len() {
                        assert(earlier.contains(sources[x]));
                        assert(earlier.to_set().contains(sources[x]));
                        let done = keys.take(i as int);
                        assert(done.contains(sources[x]));
                        let p = done.index_of(sources[x]);
                        assert(text::text_lt(keys[p], keys[i as int]));
                    } else {
                        assert(text::text_lt(earlier[x], earlier[y]));
                    }
                }
                assert(added == task_for(locale@, k, messages@[k]));
                assert(model::views(tasks@) =~= before.push(added));
                assert(model::views(tasks@) =~= start + Seq::new(
                    sources.len(),
                    |i: int| task_for(locale@, sources[i], messages@[sources[i]]),
                ));
            }
        } else {
            assert(sources.to_set() =~= wanted.intersect(keys.take(i + 1).to_set()));
        }
        i = i + 1;
    }
    proof {
        assert(keys.take(n as int) =~= keys);
        assert(sources.to_set() =~= wanted);
        let ordered = string_map::in_order(wanted);
        assert(string_map::increasing(ordered) && ordered.to_set() == wanted);
        string_map::lemma_in_order_unique(sources, ordered);
    }
}

/// The position of `locale` among the required ones.
fn position_of(locales: &Vec<String>, locale: &str) -> (found: Option<usize>)
    requires
        model::views(locales@).no_duplicates(),
    ensures
        match found {
            Some(i) => {
                &&& i < locales@.len()
                &&& model::views(locales@).contains(locale@)
                &&& model::views(locales@).index_of(locale@) == i
            },
            None => !model::views(locales@).contains(locale@),
        },
{
    let ghost all = model::views(locales@);
    for i in 0..locales.len()
        invariant
            all == model::views(locales@),
            all.no_duplicates(),
            forall|j: int| 0 <= j < i ==> all[j] != locale@,
    {
        if text::text_eq(locales[i].as_str(), locale) {
            proof {
                assert(all[i as int] == locale@);
                assert(all[all.index_of(locale@)] == locale@);
            }
            return Some(i);
        }
    }
    None
}

proof fn lemma_unknown_stays(requested: Seq<Seq<char>>, locales: Seq<Seq<char>>, n: int)
    requires
        0 <= n <= requested.len(),
        first_unknown(requested.take(n), locales) is Some,
    ensures
        first_unknown(requested, locales) == first_unknown(requested.take(n), locales),
    decreases requested.len(),
{
    if n < requested.len() {
        assert(requested.drop_last().take(n) =~= requested.take(n));
        lemma_unknown_stays(requested.drop_last(), locales, n);
    } else {
        assert(requested.take(n) =~= requested);
    }
}

/// Plans the translations that are missing for the requested locales, or for all
/// target locales where none is requested. `catalogs` are those of the required
/// locales, in their order.
pub fn translation_plan(
    config: &Config,
    state: &State,
    catalogs: &Vec<Catalog>,
    requested: &Vec<String>,
) -> (result: Result<TranslationPlan, TranslationError>)
    requires
        catalogs@.len() == config.required_locales@.len(),
        config@.required_locales.no_duplicates(),
    ensures
        match result {
            Ok(plan) => {
                &&& first_unknown(model::views(requested@), config@.required_locales) is None
                &&& plan.version == RESPONSE_VERSION
                &&& model::views(plan.tasks@) == plan_tasks(
                    wanted_locales(model::views(requested@), config@.required_locales),
                    state@.messages,
                    config@.required_locales,
                    model::views(catalogs@),
                )
            },
            Err(error) => {
                &&& first_unknown(model::views(requested@), config@.required_locales) is Some
                &&& error@ == TranslationFault::UnknownLocale(
                    first_unknown(model::views(requested@), config@.required_locales)->0,
                )
            },
        },
{
    let ghost locales = config@.required_locales;
    let ghost entries = model::views(catalogs@);
    let wanted: &Vec<String> = if requested.len() == 0 {
        &config.required_locales
    } else {
        requested
    };
    let ghost names = model::views(wanted@);
    assert(names =~= wanted_locales(model::views(requested@), locales));
    let mut tasks: Vec<TranslationTask> = Vec::new();
    assert(model::views(tasks@) =~= Seq::<TaskView>::empty());
    proof {
        if requested@.len() == 0 {
            assert(first_unknown(model::views(requested@), locales) is None);
        }
    }
    for i in 0..wanted.len()
        invariant
            catalogs@.len() == config.required_locales@.len(),
            locales == config@.required_locales,
            locales.no_duplicates(),
            entries == model::views(catalogs@),
            names == model::views(wanted@),
            requested@.len() == 0 ==> names == locales,
            requested@.len() != 0 ==> names == model::views(requested@),
            requested@.len() != 0 ==> first_unknown(names.take(i as int), locales) is None,
            model::views(tasks@) == plan_tasks(
                names.take(i as int),
                state@.messages,
                locales,
                entries,
            ),
    {
        let locale = &wanted[i];
        proof {
            assert(names.take(i + 1).drop_last() =~= names.take(i as int));
            assert(names.take(i + 1).last() == names[i as int]);
            assert(locale@ == names[i as int]);
        }
        match position_of(&config.required_locales, locale.as_str()) {
            Some(at) => {
                add_locale_tasks(&mut tasks, locale.as_str(), &state.messages, &catalogs[at]);
                assert(entries[at as int] == catalogs@[at as int]@);
            },
            None => {
                proof {
                    if requested@.len() == 0 {
                        assert(locales.contains(locales[i as int]));
                    }
                    lemma_unknown_stays(names, locales, i + 1);
                }
                return Err(TranslationError::UnknownLocale(locale.clone()));
            },
        }
    }
    assert(names.take(names.len() as int) =~= names);
    Ok(TranslationPlan { version: RESPONSE_VERSION, tasks })
}

/// What is wrong with one translation of a response, where `catalogs` are those
/// of the `locales`, with the translations that stand before it taken over.
pub open spec fn entry_fault(
    locales: Seq<Seq<char>>,
    messages: Map<Seq<char>, model::MessageView>,
    catalogs: Seq<Map<Seq<char>, Seq<char>>>,
    entry: TranslatedView,
) -> Option<TranslationFault> {
    let catalog = catalogs[locales.index_of(entry.locale)];
    if !locales.contains(entry.locale) {
        Some(TranslationFault::UnknownLocale(entry.locale))
    } else if !messages.contains_key(entry.source) {
        Some(TranslationFault::UnknownSource { locale: entry.locale, source: entry.source })
    } else if messages[entry.source].source_hash != entry.source_hash {
        Some(TranslationFault::StaleSource { locale: entry.locale, source: entry.source })
    } else if text::is_blank(entry.translation) {
        Some(TranslationFault::Blank { locale: entry.locale, source: entry.source })
    } else if !is_missing(catalog, entry.source) && catalog[entry.source] != entry.translation {
        Some(TranslationFault::Conflict { locale: entry.locale, source: entry.source })
    } else {
        None
    }
}

/// Whether a translation is still missing.
pub open spec fn is_new(
    locales: Seq<Seq<char>>,
    catalogs: Seq<Map<Seq<char>, Seq<char>>>,
    entry: TranslatedView,
) -> bool {
    is_missing(catalogs[locales.index_of(entry.locale)], entry.source)
}

/// The catalogs after one translation was taken over.
pub open spec fn with_entry(
    locales: Seq<Seq<char>>,
    catalogs: Seq<Map<Seq<char>, Seq<char>>>,
    entry: TranslatedView,
) -> Seq<Map<Seq<char>, Seq<char>>> {
    Seq::new(
        catalogs.len(),
        |i: int|
            if i == locales.index_of(entry.locale) && is_new(locales, catalogs, entry) {
                catalogs[i].insert(entry.source, entry.translation)
            } else {
                catalogs[i]
            },
    )
}

/// The catalogs after each translation was taken over in turn.
pub open spec fn with_entries(
    locales: Seq<Seq<char>>,
    catalogs: Seq<Map<Seq<char>, Seq<char>>>,
    entries: Seq<TranslatedView>,
) -> Seq<Map<Seq<char>, Seq<char>>>
    decreases entries.len(),
{
    if entries.len() == 0 {
        catalogs
    } else {
        with_entry(locales, with_entries(locales, catalogs, entries.drop_last()), entries.last())
    }
}

/// How many of the translations were missing when their turn came.
pub open spec fn new_count(
    locales: Seq<Seq<char>>,
    catalogs: Seq<Map<Seq<char>, Seq<char>>>,
    entries: Seq<TranslatedView>,
) -> nat
    decreases entries.len(),
{
    if entries.len() == 0 {
        0
    } else {
        new_count(locales, catalogs, entries.drop_last()) + if is_new(
            locales,
            with_entries(locales, catalogs, entries.drop_last()),
            entries.last(),
        ) {
            1nat
        } else {
            0nat
        }
    }
}

/// What is wrong with the first faulty translation.
pub open spec fn entries_fault(
    locales: Seq<Seq<char>>,
    messages: Map<Seq<char>, model::MessageView>,
    catalogs: Seq<Map<Seq<char>, Seq<char>>>,
    entries: Seq<TranslatedView>,
) -> Option<TranslationFault>
    decreases entries.len(),
{
    if entries.len() == 0 {
        None
    } else {
        match entries_fault(locales, messages, catalogs, entries.drop_last()) {
            Some(fault) => Some(fault),
            None => entry_fault(
                locales,
                messages,
                with_entries(locales, catalogs, entries.drop_last()),
                entries.last(),
            ),
        }
    }
}

/// Why a response is refused, if it is.
pub open spec fn response_fault(
    locales: Seq<Seq<char>>,
    messages: Map<Seq<char>, model::MessageView>,
    catalogs: Seq<Map<Seq<char>, Seq<char>>>,
    version: u32,
    entries: Seq<TranslatedView>,
) -> Option<TranslationFault> {
    if version != RESPONSE_VERSION {
        Some(TranslationFault::Version(version))
    } else {
        entries_fault(locales, messages, catalogs, entries)
    }
}

proof fn lemma_entries_fault_stays(
    locales: Seq<Seq<char>>,
    messages: Map<Seq<char>, model::MessageView>,
    catalogs: Seq<Map<Seq<char>, Seq<char>>>,
    entries: Seq<TranslatedView>,
    n: int,
)
    requires
        0 <= n <= entries.len(),
        entries_fault(locales, messages, catalogs, entries.take(n)) is Some,
    ensures
        entries_fault(locales, messages, catalogs, entries) == entries_fault(
            locales,
            messages,
            catalogs,
            entries.take(n),
        ),
    decreases entries.len(),
{
    if n < entries.len() {
        assert(entries.drop_last().take(n) =~= entries.take(n));
        lemma_entries_fault_stays(locales, messages, catalogs, entries.drop_last(), n);
    } else {
        assert(entries.take(n) =~= entries);
    }
}

/// The catalogs after a response, and what changed.
#[derive(Debug, PartialEq, Eq)]
pub struct AppliedTranslations {
    /// The catalogs of the required locales, in their order.
    pub catalogs: Vec<Catalog>,
    pub report: TranslationReport,
}

/// Takes over the translations of a response. One that is refused refuses the
/// whole response, so there are no catalogs to be written unless every
/// translation is in order. `catalogs` are those of the required locales, in
/// their order.
pub fn apply_translation_response(
    config: &Config,
    state: &State,
    catalogs: &Vec<Catalog>,
    response: &TranslationResponse,
) -> (result: Result<AppliedTranslations, TranslationError>)
    requires
        catalogs@.len() == config.required_locales@.len(),
        config@.required_locales.no_duplicates(),
    ensures
        ({
            let locales = config@.required_locales;
            let before = model::views(catalogs@);
            let entries = model::views(response.translations@);
            let fault = response_fault(
                locales,
                state@.messages,
                before,
                response.version,
                entries,
            );
            match result {
                Ok(applied) => {
                    &&& fault is None
                    &&& model::views(applied.catalogs@) == with_entries(locales, before, entries)
                    &&& applied.report.applied == new_count(locales, before, entries)
                    &&& applied.report.applied + applied.report.already_applied == entries.len()
                },
                Err(error) => fault == Some(error@),
            }
        }),
{
    if response.version != RESPONSE_VERSION {
        return Err(TranslationError::Version(response.version));
    }
    let ghost locales = config@.required_locales;
    let ghost before = model::views(catalogs@);
    let ghost entries = model::views(response.translations@);
    let mut fresh = model::duplicate_all(catalogs);
    assert(fresh@.len() == model::views(fresh@).len());
    let mut applied: usize = 0;
    let mut already_applied: usize = 0;
    for i in 0..response.translations.len()
        invariant
            locales == config@.required_locales,
            locales.no_duplicates(),
            before == model::views(catalogs@),
            locales.len() == before.len(),
            entries == model::views(response.translations@),
            response.version == RESPONSE_VERSION,
            model::views(fresh@) == with_entries(locales, before, entries.take(i as int)),
            fresh@.len() == locales.len(),
            entries_fault(locales, state@.messages, before, entries.take(i as int)) is None,
            applied == new_count(locales, before, entries.take(i as int)),
            applied + already_applied == i,
    {
        let entry = &response.translations[i];
        let ghost so_far = model::views(fresh@);
        proof {
            let next = entries.take(i + 1);
            assert(next.drop_last() =~= entries.take(i as int));
            assert(next.last() == entry@);
            if entry_fault(locales, state@.messages, so_far, entry@) is Some {
                lemma_entries_fault_stays(locales, state@.messages, before, entries, i + 1);
            }
        }
        let at = match position_of(&config.required_locales, entry.locale.as_str()) {
            Some(at) => at,
            None => {
                return Err(TranslationError::UnknownLocale(entry.locale.clone()));
            },
        };
        assert(so_far[at as int] == fresh@[at as int]@);
        let message = match state.messages.get(entry.source.as_str()) {
            Some(message) => message,
            None => {
                return Err(
                    TranslationError::UnknownSource {
                        locale: entry.locale.clone(),
                        source: entry.source.clone(),
                    },
                );
            },
        };
        if !text::text_eq(message.source_hash.as_str(), entry.source_hash.as_str()) {
            return Err(
                TranslationError::StaleSource {
                    locale: entry.locale.clone(),
                    source: entry.source.clone(),
                },
            );
        }
        if text::blank(entry.translation.as_str()) {
            return Err(
                TranslationError::Blank {
                    locale: entry.locale.clone(),
                    source: entry.source.clone(),
                },
            );
        }
        if missing(&fresh[at], entry.source.as_str()) {
            let mut catalog = fresh[at].duplicate();
            catalog.insert(entry.source.clone(), entry.translation.clone());
            fresh.set(at, catalog);
            assert(model::views(fresh@) =~= with_entry(locales, so_far, entry@));
            applied = applied + 1;
        } else {
            let same = match fresh[at].get(entry.source.as_str()) {
                Some(existing) => text::text_eq(existing.as_str(), entry.translation.as_str()),
                None => false,
            };
            if !same {
                return Err(
                    TranslationError::Conflict {
                        locale: entry.locale.clone(),
                        source: entry.source.clone(),
                    },
                );
            }
            assert(model::views(fresh@) =~= with_entry(locales, so_far, entry@));
            already_applied = already_applied + 1;
        }
    }
    assert(entries.take(entries.len() as int) =~= entries);
    Ok(
        AppliedTranslations {
            catalogs: fresh,
            report: TranslationReport { applied, already_applied },
        },
    )
}

proof fn lemma_with_entries_len(
    locales: Seq<Seq<char>>,
    catalogs: Seq<Map<Seq<char>, Seq<char>>>,
    entries: Seq<TranslatedView>,
)
    ensures
        with_entries(locales, catalogs, entries).len() == catalogs.len(),
    decreases entries.len(),
{
    if entries.len() > 0 {
        lemma_with_entries_len(locales, catalogs, entries.drop_last());
    }
}

/// A response changes no translation that is there already.
pub proof fn existing_translations_stay(
    locales: Seq<Seq<char>>,
    catalogs: Seq<Map<Seq<char>, Seq<char>>>,
    entries: Seq<TranslatedView>,
    i: int,
    source: Seq<char>,
)
    requires
        0 <= i < catalogs.len(),
        !is_missing(catalogs[i], source),
    ensures
        ({
            let after = with_entries(locales, catalogs, entries)[i];
            !is_missing(after, source) && after[source] == catalogs[i][source]
        }),
    decreases entries.len(),
{
    if entries.len() > 0 {
        existing_translations_stay(locales, catalogs, entries.drop_last(), i, source);
        lemma_with_entries_len(locales, catalogs, entries.drop_last());
    }
}

/// What an accepted response says of each translation, whatever the others are.
pub open spec fn is_current(
    locales: Seq<Seq<char>>,
    messages: Map<Seq<char>, model::MessageView>,
    entry: TranslatedView,
) -> bool {
    &&& locales.contains(entry.locale)
    &&& messages.contains_key(entry.source)
    &&& messages[entry.source].source_hash == entry.source_hash
    &&& !text::is_blank(entry.translation)
}

/// Each translation of an accepted response is for a target locale and a source
/// text that is up to date, and is in its catalog afterwards.
pub proof fn accepted_translations_are_in_place(
    locales: Seq<Seq<char>>,
    messages: Map<Seq<char>, model::MessageView>,
    catalogs: Seq<Map<Seq<char>, Seq<char>>>,
    entries: Seq<TranslatedView>,
    i: int,
)
    requires
        locales.len() == catalogs.len(),
        entries_fault(locales, messages, catalogs, entries) is None,
        0 <= i < entries.len(),
    ensures
        is_current(locales, messages, entries[i]),
        ({
            let after = with_entries(locales, catalogs, entries)[locales.index_of(
                entries[i].locale,
            )];
            !is_missing(after, entries[i].source) && after[entries[i].source]
                == entries[i].translation
        }),
    decreases entries.len(),
{
    let front = entries.drop_last();
    let before = with_entries(locales, catalogs, front);
    lemma_with_entries_len(locales, catalogs, front);
    if i < front.len() {
        accepted_translations_are_in_place(locales, messages, catalogs, front, i);
        let at = locales.index_of(front[i].locale);
        existing_translations_stay(
            locales,
            before,
            seq![entries.last()],
            at,
            front[i].source,
        );
        assert(seq![entries.last()].drop_last() =~= Seq::<TranslatedView>::empty());
        assert(with_entries(locales, before, seq![entries.last()].drop_last()) == before);
        assert(with_entries(locales, before, seq![entries.last()]) == with_entries(
            locales,
            catalogs,
            entries,
        ));
    }
}

/// A response with a translation for a locale that is no target, for a source text
/// that is unknown or changed, or with a blank text, is refused as a whole.
pub proof fn outdated_translation_refuses_response(
    locales: Seq<Seq<char>>,
    messages: Map<Seq<char>, model::MessageView>,
    catalogs: Seq<Map<Seq<char>, Seq<char>>>,
    version: u32,
    entries: Seq<TranslatedView>,
    i: int,
)
    requires
        locales.len() == catalogs.len(),
        0 <= i < entries.len(),
        !is_current(locales, messages, entries[i]),
    ensures
        response_fault(locales, messages, catalogs, version, entries) is Some,
{
    if entries_fault(locales, messages, catalogs, entries) is None {
        accepted_translations_are_in_place(locales, messages, catalogs, entries, i);
    }
}

/// A response with another text than an existing translation is refused as a whole.
pub proof fn conflicting_translation_refuses_response(
    locales: Seq<Seq<char>>,
    messages: Map<Seq<char>, model::MessageView>,
    catalogs: Seq<Map<Seq<char>, Seq<char>>>,
    version: u32,
    entries: Seq<TranslatedView>,
    i: int,
)
    requires
        locales.len() == catalogs.len(),
        0 <= i < entries.len(),
        locales.contains(entries[i].locale),
        ({
            let catalog = catalogs[locales.index_of(entries[i].locale)];
            !is_missing(catalog, entries[i].source) && catalog[entries[i].source]
                != entries[i].translation
        }),
    ensures
        response_fault(locales, messages, catalogs, version, entries) is Some,
{
    if entries_fault(locales, messages, catalogs, entries) is None {
        let at = locales.index_of(entries[i].locale);
        assert(locales[at] == entries[i].locale);
        accepted_translations_are_in_place(locales, messages, catalogs, entries, i);
        existing_translations_stay(locales, catalogs, entries, at, entries[i].source);
    }
}

/// A response adds entries for texts of messages only.
pub proof fn response_adds_known_texts_only(
    locales: Seq<Seq<char>>,
    messages: Map<Seq<char>, model::MessageView>,
    catalogs: Seq<Map<Seq<char>, Seq<char>>>,
    entries: Seq<TranslatedView>,
    i: int,
)
    requires
        locales.len() == catalogs.len(),
        entries_fault(locales, messages, catalogs, entries) is None,
        0 <= i < catalogs.len(),
    ensures
        with_entries(locales, catalogs, entries)[i].dom().subset_of(
            catalogs[i].dom().union(messages.dom()),
        ),
    decreases entries.len(),
{
    if entries.len() > 0 {
        response_adds_known_texts_only(locales, messages, catalogs, entries.drop_last(), i);
        lemma_with_entries_len(locales, catalogs, entries.drop_last());
    }
}

/// A response that was taken over can be taken over again: it is accepted, every
/// translation is there already, and nothing changes.
pub proof fn response_can_be_repeated(
    locales: Seq<Seq<char>>,
    messages: Map<Seq<char>, model::MessageView>,
    catalogs: Seq<Map<Seq<char>, Seq<char>>>,
    version: u32,
    entries: Seq<TranslatedView>,
)
    requires
        locales.len() == catalogs.len(),
        response_fault(locales, messages, catalogs, version, entries) is None,
    ensures
        ({
            let after = with_entries(locales, catalogs, entries);
            &&& response_fault(locales, messages, after, version, entries) is None
            &&& with_entries(locales, after, entries) == after
            &&& new_count(locales, after, entries) == 0
        }),
{
    lemma_repeated(locales, messages, catalogs, entries, entries.len() as int);
    assert(entries.take(entries.len() as int) =~= entries);
}

proof fn lemma_repeated(
    locales: Seq<Seq<char>>,
    messages: Map<Seq<char>, model::MessageView>,
    catalogs: Seq<Map<Seq<char>, Seq<char>>>,
    entries: Seq<TranslatedView>,
    n: int,
)
    requires
        locales.len() == catalogs.len(),
        entries_fault(locales, messages, catalogs, entries) is None,
        0 <= n <= entries.len(),
    ensures
        ({
            let after = with_entries(locales, catalogs, entries);
            &&& entries_fault(locales, messages, after, entries.take(n)) is None
            &&& with_entries(locales, after, entries.take(n)) == after
            &&& new_count(locales, after, entries.take(n)) == 0
        }),
    decreases n,
{
    if n > 0 {
        lemma_repeated(locales, messages, catalogs, entries, n - 1);
        accepted_translations_are_in_place(locales, messages, catalogs, entries, n - 1);
        assert(entries.take(n).drop_last() =~= entries.take(n - 1));
        assert(entries.take(n).last() == entries[n - 1]);
    }
}

/// Current translations for texts that are not translated yet, no two for the same
/// text and locale, are accepted, and all of them are new.
pub proof fn new_translations_are_accepted(
    locales: Seq<Seq<char>>,
    messages: Map<Seq<char>, model::MessageView>,
    catalogs: Seq<Map<Seq<char>, Seq<char>>>,
    entries: Seq<TranslatedView>,
)
    requires
        locales.len() == catalogs.len(),
        forall|i: int|
            0 <= i < entries.len() ==> is_current(locales, messages, #[trigger] entries[i])
                && is_new(locales, catalogs, entries[i]),
        forall|i: int, j: int|
            0 <= i < j < entries.len() ==> (#[trigger] entries[i]).locale != (
            #[trigger] entries[j]).locale || entries[i].source != entries[j].source,
    ensures
        response_fault(locales, messages, catalogs, RESPONSE_VERSION, entries) is None,
        new_count(locales, catalogs, entries) == entries.len(),
    decreases entries.len(),
{
    if entries.len() > 0 {
        let front = entries.drop_last();
        let last = entries[entries.len() - 1];
        assert forall|i: int| 0 <= i < front.len() implies is_current(
            locales,
            messages,
            #[trigger] front[i],
        ) && is_new(locales, catalogs, front[i]) by {
            assert(front[i] == entries[i]);
        }
        assert forall|i: int, j: int| 0 <= i < j < front.len() implies (
        #[trigger] front[i]).locale != (#[trigger] front[j]).locale || front[i].source
            != front[j].source by {
            assert(front[i] == entries[i] && front[j] == entries[j]);
        }
        new_translations_are_accepted(locales, messages, catalogs, front);
        lemma_other_entry_untouched(locales, catalogs, front, last);
        assert(is_current(locales, messages, last));
    }
}

proof fn lemma_other_entry_untouched(
    locales: Seq<Seq<char>>,
    catalogs: Seq<Map<Seq<char>, Seq<char>>>,
    entries: Seq<TranslatedView>,
    other: TranslatedView,
)
    requires
        locales.len() == catalogs.len(),
        locales.contains(other.locale),
        is_new(locales, catalogs, other),
        forall|i: int|
            0 <= i < entries.len() ==> locales.contains((#[trigger] entries[i]).locale) && (
            entries[i].locale != other.locale || entries[i].source != other.source),
    ensures
        is_new(locales, with_entries(locales, catalogs, entries), other),
    decreases entries.len(),
{
    if entries.len() > 0 {
        let front = entries.drop_last();
        assert(forall|i: int| 0 <= i < front.len() ==> front[i] == entries[i]);
        lemma_other_entry_untouched(locales, catalogs, front, other);
        lemma_with_entries_len(locales, catalogs, front);
        let last = entries[entries.len() - 1];
        if last.locale != other.locale {
            assert(locales[locales.index_of(last.locale)] == last.locale);
            assert(locales[locales.index_of(other.locale)] == other.locale);
        }
    }
}

/// The tasks of a locale are for its missing translations, each once.
pub proof fn locale_tasks_are_exact(
    locale: Seq<char>,
    messages: Map<Seq<char>, model::MessageView>,
    catalog: Map<Seq<char>, Seq<char>>,
)
    requires
        messages.dom().finite(),
    ensures
        ({
            let tasks = locale_tasks(locale, messages, catalog);
            &&& forall|i: int|
                0 <= i < tasks.len() ==> (#[trigger] tasks[i]).locale == locale
                    && messages.contains_key(tasks[i].source) && is_missing(
                    catalog,
                    tasks[i].source,
                ) && tasks[i] == task_for(locale, tasks[i].source, messages[tasks[i].source])
            &&& forall|i: int, j: int|
                0 <= i < j < tasks.len() ==> (#[trigger] tasks[i]).source != (
                #[trigger] tasks[j]).source
            &&& forall|k: Seq<char>| #[trigger]
                messages.contains_key(k) && is_missing(catalog, k) ==> exists|i: int|
                    0 <= i < tasks.len() && (#[trigger] tasks[i]).source == k
        }),
{
    let wanted = missing_sources(messages, catalog);
    string_map::lemma_in_order(wanted);
    let sources = string_map::in_order(wanted);
    string_map::lemma_increasing_no_duplicates(sources);
    let tasks = locale_tasks(locale, messages, catalog);
    assert forall|i: int| 0 <= i < tasks.len() implies (#[trigger] tasks[i]).locale == locale
        && messages.contains_key(tasks[i].source) && is_missing(catalog, tasks[i].source)
        && tasks[i] == task_for(locale, tasks[i].source, messages[tasks[i].source]) by {
        assert(sources.contains(sources[i]));
        assert(sources.to_set().contains(sources[i]));
        assert(wanted.contains(sources[i]));
    }
    assert forall|k: Seq<char>| #[trigger]
        messages.contains_key(k) && is_missing(catalog, k) implies exists|i: int|
        0 <= i < tasks.len() && (#[trigger] tasks[i]).source == k by {
        assert(wanted.contains(k));
        assert(sources.to_set().contains(k));
        let i = sources.index_of(k);
        assert(sources[i] == k);
        assert(tasks[i].source == k);
    }
}

/// A task of a plan: for a wanted locale, and for a text that its catalog does not
/// translate.
pub open spec fn is_due(
    task: TaskView,
    wanted: Seq<Seq<char>>,
    messages: Map<Seq<char>, model::MessageView>,
    locales: Seq<Seq<char>>,
    catalogs: Seq<Map<Seq<char>, Seq<char>>>,
) -> bool {
    &&& wanted.contains(task.locale)
    &&& messages.contains_key(task.source)
    &&& is_missing(catalogs[locales.index_of(task.locale)], task.source)
    &&& task == task_for(task.locale, task.source, messages[task.source])
}

/// A plan has a task for each missing translation of a wanted locale, and no other
/// task.
pub proof fn plan_is_exact(
    wanted: Seq<Seq<char>>,
    messages: Map<Seq<char>, model::MessageView>,
    locales: Seq<Seq<char>>,
    catalogs: Seq<Map<Seq<char>, Seq<char>>>,
)
    requires
        messages.dom().finite(),
    ensures
        ({
            let tasks = plan_tasks(wanted, messages, locales, catalogs);
            &&& forall|i: int|
                0 <= i < tasks.len() ==> is_due(
                    #[trigger] tasks[i],
                    wanted,
                    messages,
                    locales,
                    catalogs,
                )
            &&& forall|l: Seq<char>, k: Seq<char>|
                #![trigger wanted.contains(l), messages.contains_key(k)]
                wanted.contains(l) && messages.contains_key(k) && is_missing(
                    catalogs[locales.index_of(l)],
                    k,
                ) ==> exists|i: int|
                    0 <= i < tasks.len() && (#[trigger] tasks[i]).locale == l && tasks[i].source
                        == k
        }),
    decreases wanted.len(),
{
    if wanted.len() > 0 {
        let front = wanted.drop_last();
        let last = wanted.last();
        let catalog = catalogs[locales.index_of(last)];
        plan_is_exact(front, messages, locales, catalogs);
        locale_tasks_are_exact(last, messages, catalog);
        let earlier = plan_tasks(front, messages, locales, catalogs);
        let added = locale_tasks(last, messages, catalog);
        let tasks = plan_tasks(wanted, messages, locales, catalogs);
        assert(tasks == earlier + added);
        assert forall|i: int| 0 <= i < tasks.len() implies is_due(
            #[trigger] tasks[i],
            wanted,
            messages,
            locales,
            catalogs,
        ) by {
            if i < earlier.len() {
                assert(tasks[i] == earlier[i]);
                let p = front.index_of(earlier[i].locale);
                assert(front[p] == earlier[i].locale);
                assert(wanted[p] == earlier[i].locale);
            } else {
                assert(tasks[i] == added[i - earlier.len()]);
                assert(wanted[wanted.len() - 1] == last);
            }
        }
        assert forall|l: Seq<char>, k: Seq<char>|
            #![trigger wanted.contains(l), messages.contains_key(k)]
            wanted.contains(l) && messages.contains_key(k) && is_missing(
                catalogs[locales.index_of(l)],
                k,
            ) implies exists|i: int|
            0 <= i < tasks.len() && (#[trigger] tasks[i]).locale == l && tasks[i].source == k by {
            if l == last {
                let i = choose|i: int| 0 <= i < added.len() && (#[trigger] added[i]).source == k;
                assert(tasks[earlier.len() + i] == added[i]);
            } else {
                let p = wanted.index_of(l);
                assert(wanted[p] == l);
                assert(front[p] == l);
                assert(front.contains(l));
                let i = choose|i: int|
                    0 <= i < earlier.len() && (#[trigger] earlier[i]).locale == l
                        && earlier[i].source == k;
                assert(tasks[i] == earlier[i]);
            }
        }
    }
}

proof fn lemma_plan_tasks_differ(
    wanted: Seq<Seq<char>>,
    messages: Map<Seq<char>, model::MessageView>,
    locales: Seq<Seq<char>>,
    catalogs: Seq<Map<Seq<char>, Seq<char>>>,
    i: int,
    j: int,
)
    requires
        messages.dom().finite(),
        wanted.no_duplicates(),
        0 <= i < j < plan_tasks(wanted, messages, locales, catalogs).len(),
    ensures
        ({
            let tasks = plan_tasks(wanted, messages, locales, catalogs);
            tasks[i].locale != tasks[j].locale || tasks[i].source != tasks[j].source
        }),
    decreases wanted.len(),
{
    let front = wanted.drop_last();
    let last = wanted.last();
    let catalog = catalogs[locales.index_of(last)];
    let earlier = plan_tasks(front, messages, locales, catalogs);
    let added = locale_tasks(last, messages, catalog);
    let tasks = plan_tasks(wanted, messages, locales, catalogs);
    locale_tasks_are_exact(last, messages, catalog);
    if j < earlier.len() {
        lemma_plan_tasks_differ(front, messages, locales, catalogs, i, j);
        assert(tasks[i] == earlier[i] && tasks[j] == earlier[j]);
    } else if i < earlier.len() {
        plan_is_exact(front, messages, locales, catalogs);
        assert(tasks[i] == earlier[i]);
        assert(tasks[j] == added[j - earlier.len()]);
        assert(is_due(earlier[i], front, messages, locales, catalogs));
        let p = front.index_of(earlier[i].locale);
        assert(front[p] == earlier[i].locale);
        assert(wanted[p] != wanted[wanted.len() - 1]);
    } else {
        assert(tasks[i] == added[i - earlier.len()]);
        assert(tasks[j] == added[j - earlier.len()]);
    }
}

/// The entries answer the tasks, one for one, with a text that is not blank.
pub open spec fn answers(tasks: Seq<TaskView>, entries: Seq<TranslatedView>) -> bool {
    &&& entries.len() == tasks.len()
    &&& forall|i: int|
        0 <= i < entries.len() ==> {
            &&& (#[trigger] entries[i]).source == tasks[i].source
            &&& entries[i].source_hash == tasks[i].source_hash
            &&& entries[i].locale == tasks[i].locale
            &&& !text::is_blank(entries[i].translation)
        }
}

/// A response that answers every task of a plan is accepted, all its translations
/// are new, and a plan for the same locales made afterwards has no task.
pub proof fn answered_plan_is_done(
    wanted: Seq<Seq<char>>,
    messages: Map<Seq<char>, model::MessageView>,
    locales: Seq<Seq<char>>,
    catalogs: Seq<Map<Seq<char>, Seq<char>>>,
    entries: Seq<TranslatedView>,
)
    requires
        messages.dom().finite(),
        locales.len() == catalogs.len(),
        wanted.no_duplicates(),
        forall|l: Seq<char>| #[trigger] wanted.contains(l) ==> locales.contains(l),
        answers(plan_tasks(wanted, messages, locales, catalogs), entries),
    ensures
        response_fault(locales, messages, catalogs, RESPONSE_VERSION, entries) is None,
        new_count(locales, catalogs, entries) == entries.len(),
        plan_tasks(
            wanted,
            messages,
            locales,
            with_entries(locales, catalogs, entries),
        ).len() == 0,
{
    let tasks = plan_tasks(wanted, messages, locales, catalogs);
    plan_is_exact(wanted, messages, locales, catalogs);
    assert forall|i: int| 0 <= i < entries.len() implies is_current(
        locales,
        messages,
        #[trigger] entries[i],
    ) && is_new(locales, catalogs, entries[i]) by {
        assert(is_due(tasks[i], wanted, messages, locales, catalogs));
    }
    assert forall|i: int, j: int| 0 <= i < j < entries.len() implies (
    #[trigger] entries[i]).locale != (#[trigger] entries[j]).locale || entries[i].source
        != entries[j].source by {
        lemma_plan_tasks_differ(wanted, messages, locales, catalogs, i, j);
    }
    new_translations_are_accepted(locales, messages, catalogs, entries);
    let after = with_entries(locales, catalogs, entries);
    let left = plan_tasks(wanted, messages, locales, after);
    plan_is_exact(wanted, messages, locales, after);
    if left.len() > 0 {
        let task = left[0];
        assert(is_due(task, wanted, messages, locales, after));
        let at = locales.index_of(task.locale);
        assert(locales[at] == task.locale);
        if is_missing(catalogs[at], task.source) {
            let i = choose|i: int|
                0 <= i < tasks.len() && (#[trigger] tasks[i]).locale == task.locale
                    && tasks[i].source == task.source;
            assert(entries[i].source == tasks[i].source);
            accepted_translations_are_in_place(locales, messages, catalogs, entries, i);
        } else {
            existing_translations_stay(locales, catalogs, entries, at, task.source);
        }
    }
}

/// For a catalog with an entry for each message and no other, the plan has no task
/// exactly when no translation is blank.
pub proof fn nothing_to_do_iff_nothing_blank(
    locale: Seq<char>,
    messages: Map<Seq<char>, model::MessageView>,
    catalog: Map<Seq<char>, Seq<char>>,
)
    requires
        messages.dom().finite(),
        catalog.dom() == messages.dom(),
    ensures
        locale_tasks(locale, messages, catalog).len() == 0 <==> project::blank_keys(catalog)
            == Set::<Seq<char>>::empty(),
{
    locale_tasks_are_exact(locale, messages, catalog);
    let tasks = locale_tasks(locale, messages, catalog);
    let blank = project::blank_keys(catalog);
    if tasks.len() == 0 {
        assert forall|k: Seq<char>| !blank.contains(k) by {
            if blank.contains(k) {
                assert(messages.contains_key(k));
                assert(is_missing(catalog, k));
            }
        }
        assert(blank =~= Set::<Seq<char>>::empty());
    } else {
        assert(catalog.dom().contains(tasks[0].source));
        assert(blank.contains(tasks[0].source));
    }
}

/// Catalogs that have an entry for each message and no other, as an extraction
/// leaves them, hold known texts and no blank translation once the plan for all
/// locales is answered.
pub proof fn answered_catalogs_are_complete(
    messages: Map<Seq<char>, model::MessageView>,
    locales: Seq<Seq<char>>,
    catalogs: Seq<Map<Seq<char>, Seq<char>>>,
    entries: Seq<TranslatedView>,
    i: int,
)
    requires
        messages.dom().finite(),
        locales.len() == catalogs.len(),
        locales.no_duplicates(),
        forall|j: int|
            0 <= j < catalogs.len() ==> (#[trigger] catalogs[j]).dom() == messages.dom(),
        answers(plan_tasks(locales, messages, locales, catalogs), entries),
        0 <= i < catalogs.len(),
    ensures
        ({
            let after = with_entries(locales, catalogs, entries)[i];
            &&& project::unknown_keys(after, messages.dom()) == Set::<Seq<char>>::empty()
            &&& project::blank_keys(after) == Set::<Seq<char>>::empty()
        }),
{
    answered_plan_is_done(locales, messages, locales, catalogs, entries);
    response_adds_known_texts_only(locales, messages, catalogs, entries, i);
    let catalogs_after = with_entries(locales, catalogs, entries);
    let after = catalogs_after[i];
    plan_is_exact(locales, messages, locales, catalogs_after);
    assert(catalogs[i].dom() == messages.dom());
    assert(locales.contains(locales[i]));
    assert(locales[locales.index_of(locales[i])] == locales[i]);
    assert(locales.index_of(locales[i]) == i);
    assert(project::unknown_keys(after, messages.dom()) =~= Set::<Seq<char>>::empty()) by {
        assert forall|k: Seq<char>| !project::unknown_keys(after, messages.dom()).contains(k) by {
            if after.dom().contains(k) {
                assert(catalogs[i].dom().union(messages.dom()).contains(k));
            }
        }
    }
    assert forall|k: Seq<char>| !project::blank_keys(after).contains(k) by {
        if project::blank_keys(after).contains(k) {
            assert(!project::unknown_keys(after, messages.dom()).contains(k));
            assert(messages.contains_key(k));
            assert(is_missing(after, k));
        }
    }
    assert(project::blank_keys(after) =~= Set::<Seq<char>>::empty());
}

/// A translation is missing exactly if there is no entry, or a blank one.
pub proof fn missing_iff_absent_or_blank(
    catalog: Map<Seq<char>, Seq<char>>,
    source: Seq<char>,
    translation: Seq<char>,
)
    ensures
        is_missing(catalog.insert(source, translation), source) <==> text::is_blank(translation),
        is_missing(catalog.remove(source), source),
        !is_missing(catalog, source) ==> catalog.contains_key(source) && !text::is_blank(
            catalog[source],
        ),
{
}

/// A plan is for the requested locales, or for all where none is requested.
pub proof fn plan_is_for_requested_locales(requested: Seq<Seq<char>>, locales: Seq<Seq<char>>)
    ensures
        requested.len() > 0 ==> wanted_locales(requested, locales) == requested,
        wanted_locales(Seq::empty(), locales) == locales,
{
}

/// A plan is refused exactly if a requested locale is no target, and the first such
/// locale is named.
pub proof fn first_unknown_locale_is_named(
    requested: Seq<Seq<char>>,
    locales: Seq<Seq<char>>,
    i: int,
)
    ensures
        first_unknown(requested, locales) is None <==> forall|j: int|
            0 <= j < requested.len() ==> locales.contains(#[trigger] requested[j]),
        0 <= i < requested.len() && !locales.contains(requested[i]) && (forall|j: int|
            0 <= j < i ==> locales.contains(#[trigger] requested[j])) ==> first_unknown(
            requested,
            locales,
        ) == Some(requested[i]),
    decreases requested.len(),
{
    if requested.len() > 0 {
        let front = requested.drop_last();
        assert(forall|j: int| 0 <= j < front.len() ==> front[j] == requested[j]);
        first_unknown_locale_is_named(front, locales, i);
        if first_unknown(requested, locales) is None {
            assert forall|j: int| 0 <= j < requested.len() implies locales.contains(
                #[trigger] requested[j],
            ) by {
                if j < front.len() {
                    assert(locales.contains(front[j]));
                }
            }
        }
        if forall|j: int| 0 <= j < requested.len() ==> locales.contains(#[trigger] requested[j]) {
            assert forall|j: int| 0 <= j < front.len() implies locales.contains(
                #[trigger] front[j],
            ) by {
                assert(front[j] == requested[j]);
            }
            assert(locales.contains(requested[requested.len() - 1]));
        }
        if 0 <= i < requested.len() && !locales.contains(requested[i]) && (forall|j: int|
            0 <= j < i ==> locales.contains(#[trigger] requested[j])) {
            assert forall|j: int| 0 <= j < i && j < front.len() implies locales.contains(
                #[trigger] front[j],
            ) by {
                assert(front[j] == requested[j]);
            }
        }
    }
}

/// Each task of a plan is for a wanted locale and a message whose text the catalog
/// of that locale lacks or has blank. It carries the fingerprint and all places of
/// the message, and for each former text of its history, in order, that text and the
/// translation that it had for the locale, if it had one that is not blank.
pub proof fn tasks_tell_what_is_known(
    wanted: Seq<Seq<char>>,
    messages: Map<Seq<char>, model::MessageView>,
    locales: Seq<Seq<char>>,
    catalogs: Seq<Map<Seq<char>, Seq<char>>>,
    i: int,
    p: int,
)
    requires
        messages.dom().finite(),
        locales.no_duplicates(),
        0 <= i < plan_tasks(wanted, messages, locales, catalogs).len(),
    ensures
        ({
            let task = plan_tasks(wanted, messages, locales, catalogs)[i];
            let message = messages[task.source];
            &&& wanted.contains(task.locale)
            &&& messages.contains_key(task.source)
            &&& 0 <= p < locales.len() && locales[p] == task.locale ==> !(
            catalogs[p].contains_key(task.source) && !text::is_blank(catalogs[p][task.source]))
            &&& task.source_hash == message.source_hash
            &&& task.occurrences == message.occurrences
            &&& task.previous.len() == message.history.len()
            &&& forall|j: int|
                0 <= j < message.history.len() ==> {
                    let former = message.history[j];
                    let told = #[trigger] task.previous[j];
                    &&& told.source == former.source
                    &&& former.translations.contains_key(task.locale) && !text::is_blank(
                        former.translations[task.locale],
                    ) ==> told.translation == Some(former.translations[task.locale])
                    &&& !(former.translations.contains_key(task.locale) && !text::is_blank(
                        former.translations[task.locale],
                    )) ==> told.translation is None
                }
        }),
{
    plan_is_exact(wanted, messages, locales, catalogs);
    let task = plan_tasks(wanted, messages, locales, catalogs)[i];
    assert(is_due(task, wanted, messages, locales, catalogs));
    if 0 <= p < locales.len() && locales[p] == task.locale {
        assert(locales.contains(task.locale));
        assert(locales[locales.index_of(task.locale)] == task.locale);
        assert(locales.index_of(task.locale) == p);
    }
}

/// A text that the catalog of a wanted locale lacks or has blank has a task.
pub proof fn each_missing_text_has_a_task(
    wanted: Seq<Seq<char>>,
    messages: Map<Seq<char>, model::MessageView>,
    locales: Seq<Seq<char>>,
    catalogs: Seq<Map<Seq<char>, Seq<char>>>,
    p: int,
    source: Seq<char>,
)
    requires
        messages.dom().finite(),
        locales.no_duplicates(),
        0 <= p < locales.len(),
        wanted.contains(locales[p]),
        messages.contains_key(source),
        !(catalogs[p].contains_key(source) && !text::is_blank(catalogs[p][source])),
    ensures
        exists|i: int|
            0 <= i < plan_tasks(wanted, messages, locales, catalogs).len() && (
            #[trigger] plan_tasks(wanted, messages, locales, catalogs)[i]).locale == locales[p]
                && plan_tasks(wanted, messages, locales, catalogs)[i].source == source,
{
    plan_is_exact(wanted, messages, locales, catalogs);
    assert(locales.contains(locales[p]));
    assert(locales[locales.index_of(locales[p])] == locales[p]);
    assert(locales.index_of(locales[p]) == p);
    assert(is_missing(catalogs[locales.index_of(locales[p])], source));
}

/// The tasks of each wanted locale follow those of the locales before it, and those
/// of one locale come in the order of their texts, each text once.
pub proof fn tasks_come_in_order(
    wanted: Seq<Seq<char>>,
    last: Seq<char>,
    messages: Map<Seq<char>, model::MessageView>,
    locales: Seq<Seq<char>>,
    catalogs: Seq<Map<Seq<char>, Seq<char>>>,
    i: int,
    j: int,
)
    requires
        messages.dom().finite(),
    ensures
        plan_tasks(Seq::empty(), messages, locales, catalogs) == Seq::<TaskView>::empty(),
        plan_tasks(wanted.push(last), messages, locales, catalogs) == plan_tasks(
            wanted,
            messages,
            locales,
            catalogs,
        ) + plan_tasks(seq![last], messages, locales, catalogs),
        ({
            let tasks = plan_tasks(seq![last], messages, locales, catalogs);
            0 <= i < j < tasks.len() ==> text::text_lt(tasks[i].source, tasks[j].source)
        }),
{
    let catalog = catalogs[locales.index_of(last)];
    let added = locale_tasks(last, messages, catalog);
    let one = seq![last];
    assert(wanted.push(last).drop_last() =~= wanted);
    assert(one.drop_last() =~= Seq::<Seq<char>>::empty());
    assert(plan_tasks(one.drop_last(), messages, locales, catalogs) =~= Seq::<TaskView>::empty());
    assert(plan_tasks(one, messages, locales, catalogs) =~= added);
    string_map::lemma_in_order(missing_sources(messages, catalog));
}

/// What one entry of an accepted response does not concern stays as it is.
proof fn lemma_unconcerned_stays(
    locales: Seq<Seq<char>>,
    catalogs: Seq<Map<Seq<char>, Seq<char>>>,
    entries: Seq<TranslatedView>,
    p: int,
    source: Seq<char>,
)
    requires
        locales.len() == catalogs.len(),
        0 <= p < locales.len(),
        forall|i: int|
            0 <= i < entries.len() ==> locales.contains((#[trigger] entries[i]).locale) && !(
            entries[i].locale == locales[p] && entries[i].source == source),
    ensures
        ({
            let after = with_entries(locales, catalogs, entries);
            &&& after.len() == catalogs.len()
            &&& after[p].contains_key(source) == catalogs[p].contains_key(source)
            &&& catalogs[p].contains_key(source) ==> after[p][source] == catalogs[p][source]
        }),
    decreases entries.len(),
{
    if entries.len() > 0 {
        let front = entries.drop_last();
        let last = entries[entries.len() - 1];
        assert(forall|i: int| 0 <= i < front.len() ==> front[i] == entries[i]);
        lemma_unconcerned_stays(locales, catalogs, front, p, source);
        assert(locales[locales.index_of(last.locale)] == last.locale);
    }
}

/// What the catalogs hold after an accepted response: the translation of each entry
/// whose text was not translated before, and otherwise what they held.
pub proof fn catalogs_after_response(
    locales: Seq<Seq<char>>,
    messages: Map<Seq<char>, model::MessageView>,
    catalogs: Seq<Map<Seq<char>, Seq<char>>>,
    entries: Seq<TranslatedView>,
    p: int,
    source: Seq<char>,
    i: int,
)
    requires
        locales.no_duplicates(),
        locales.len() == catalogs.len(),
        response_fault(locales, messages, catalogs, 1, entries) is None,
        0 <= p < locales.len(),
    ensures
        ({
            let after = with_entries(locales, catalogs, entries);
            &&& after.len() == catalogs.len()
            &&& 0 <= i < entries.len() && entries[i].locale == locales[p] && entries[i].source
                == source ==> after[p].contains_key(source) && after[p][source]
                == entries[i].translation
            &&& catalogs[p].contains_key(source) && !text::is_blank(catalogs[p][source])
                ==> after[p].contains_key(source) && after[p][source] == catalogs[p][source]
            &&& (forall|j: int|
                0 <= j < entries.len() ==> !((#[trigger] entries[j]).locale == locales[p]
                    && entries[j].source == source)) ==> {
                &&& after[p].contains_key(source) == catalogs[p].contains_key(source)
                &&& catalogs[p].contains_key(source) ==> after[p][source] == catalogs[p][source]
            }
        }),
{
    lemma_with_entries_len(locales, catalogs, entries);
    assert(locales.contains(locales[p]));
    assert(locales[locales.index_of(locales[p])] == locales[p]);
    if 0 <= i < entries.len() && entries[i].locale == locales[p] && entries[i].source == source {
        accepted_translations_are_in_place(locales, messages, catalogs, entries, i);
    }
    if catalogs[p].contains_key(source) && !text::is_blank(catalogs[p][source]) {
        existing_translations_stay(locales, catalogs, entries, p, source);
    }
    if forall|j: int|
        0 <= j < entries.len() ==> !((#[trigger] entries[j]).locale == locales[p]
            && entries[j].source == source) {
        assert forall|j: int| 0 <= j < entries.len() implies locales.contains(
            (#[trigger] entries[j]).locale,
        ) && !(entries[j].locale == locales[p] && entries[j].source == source) by {
            accepted_translations_are_in_place(locales, messages, catalogs, entries, j);
        }
        lemma_unconcerned_stays(locales, catalogs, entries, p, source);
    }
}

/// Whether the catalogs hold another translation than the entry's.
pub open spec fn contradicts_catalog(
    locales: Seq<Seq<char>>,
    catalogs: Seq<Map<Seq<char>, Seq<char>>>,
    entry: TranslatedView,
) -> bool {
    exists|p: int|
        0 <= p < locales.len() && #[trigger] locales[p] == entry.locale
            && catalogs[p].contains_key(entry.source) && !text::is_blank(
            catalogs[p][entry.source],
        ) && catalogs[p][entry.source] != entry.translation
}

/// Whether one of the entries gives another translation of the same text for the
/// same locale.
pub open spec fn contradicts_entries(entries: Seq<TranslatedView>, entry: TranslatedView) -> bool {
    exists|j: int|
        0 <= j < entries.len() && (#[trigger] entries[j]).locale == entry.locale
            && entries[j].source == entry.source && entries[j].translation != entry.translation
}

proof fn lemma_conflict_after(
    locales: Seq<Seq<char>>,
    messages: Map<Seq<char>, model::MessageView>,
    catalogs: Seq<Map<Seq<char>, Seq<char>>>,
    front: Seq<TranslatedView>,
    entry: TranslatedView,
)
    requires
        locales.no_duplicates(),
        locales.len() == catalogs.len(),
        entries_fault(locales, messages, catalogs, front) is None,
        locales.contains(entry.locale),
    ensures
        ({
            let after = with_entries(locales, catalogs, front)[locales.index_of(entry.locale)];
            let before = catalogs[locales.index_of(entry.locale)];
            &&& (!is_missing(after, entry.source) && after[entry.source] != entry.translation)
                <==> contradicts_catalog(locales, catalogs, entry) || contradicts_entries(
                front,
                entry,
            )
            &&& is_missing(after, entry.source) <==> is_missing(before, entry.source) && forall|
                j: int,
            |
                0 <= j < front.len() ==> !((#[trigger] front[j]).locale == entry.locale
                    && front[j].source == entry.source)
        }),
{
    let p = locales.index_of(entry.locale);
    let source = entry.source;
    assert(locales[p] == entry.locale);
    let after = with_entries(locales, catalogs, front)[p];
    catalogs_after_response(locales, messages, catalogs, front, p, source, 0);
    if contradicts_catalog(locales, catalogs, entry) {
        let q = choose|q: int|
            0 <= q < locales.len() && #[trigger] locales[q] == entry.locale
                && catalogs[q].contains_key(entry.source) && !text::is_blank(
                catalogs[q][entry.source],
            ) && catalogs[q][entry.source] != entry.translation;
        assert(p == q);
    }
    if contradicts_entries(front, entry) {
        let j = choose|j: int|
            0 <= j < front.len() && (#[trigger] front[j]).locale == entry.locale && front[j].source
                == entry.source && front[j].translation != entry.translation;
        catalogs_after_response(locales, messages, catalogs, front, p, source, j);
        accepted_translations_are_in_place(locales, messages, catalogs, front, j);
    }
    if exists|j: int|
        0 <= j < front.len() && (#[trigger] front[j]).locale == entry.locale && front[j].source
            == source {
        let j = choose|j: int|
            0 <= j < front.len() && (#[trigger] front[j]).locale == entry.locale && front[j].source
                == source;
        catalogs_after_response(locales, messages, catalogs, front, p, source, j);
        accepted_translations_are_in_place(locales, messages, catalogs, front, j);
        if !is_missing(after, source) && after[source] != entry.translation {
            assert(contradicts_entries(front, entry));
        }
    } else {
        assert forall|j: int| 0 <= j < front.len() implies !((#[trigger] front[j]).locale
            == locales[p] && front[j].source == source) by {
        }
        if !is_missing(after, source) && after[source] != entry.translation {
            assert(contradicts_catalog(locales, catalogs, entry));
        }
    }
}

/// A response is accepted exactly if it is of the first version, each entry is for a
/// target locale and for a message whose fingerprint it has, with a text that is not
/// blank, and none contradicts a catalog or an entry before it.
pub proof fn accepted_responses(
    locales: Seq<Seq<char>>,
    messages: Map<Seq<char>, model::MessageView>,
    catalogs: Seq<Map<Seq<char>, Seq<char>>>,
    version: u32,
    entries: Seq<TranslatedView>,
)
    requires
        locales.no_duplicates(),
        locales.len() == catalogs.len(),
    ensures
        response_fault(locales, messages, catalogs, version, entries) is None <==> version == 1
            && forall|i: int|
            0 <= i < entries.len() ==> {
                let entry = #[trigger] entries[i];
                &&& locales.contains(entry.locale)
                &&& messages.contains_key(entry.source)
                &&& messages[entry.source].source_hash == entry.source_hash
                &&& !text::is_blank(entry.translation)
                &&& !contradicts_catalog(locales, catalogs, entry)
                &&& !contradicts_entries(entries.take(i), entry)
            },
    decreases entries.len(),
{
    if entries.len() > 0 {
        let front = entries.drop_last();
        let n = front.len() as int;
        let last = entries[n];
        accepted_responses(locales, messages, catalogs, version, front);
        assert(entries.take(n) =~= front);
        assert forall|i: int| 0 <= i < n implies front[i] == entries[i] && #[trigger] front.take(i)
            == entries.take(i) by {
            assert(front.take(i) =~= entries.take(i));
        }
        if entries_fault(locales, messages, catalogs, front) is None && locales.contains(
            last.locale,
        ) {
            lemma_conflict_after(locales, messages, catalogs, front, last);
        }
        if response_fault(locales, messages, catalogs, version, entries) is None {
            assert forall|i: int| 0 <= i < entries.len() implies {
                let entry = #[trigger] entries[i];
                &&& locales.contains(entry.locale)
                &&& messages.contains_key(entry.source)
                &&& messages[entry.source].source_hash == entry.source_hash
                &&& !text::is_blank(entry.translation)
                &&& !contradicts_catalog(locales, catalogs, entry)
                &&& !contradicts_entries(entries.take(i), entry)
            } by {
                if i < n {
                    assert(front[i] == entries[i]);
                    assert(front.take(i) == entries.take(i));
                }
            }
        }
        if version == 1 && forall|i: int|
            0 <= i < entries.len() ==> {
                let entry = #[trigger] entries[i];
                &&& locales.contains(entry.locale)
                &&& messages.contains_key(entry.source)
                &&& messages[entry.source].source_hash == entry.source_hash
                &&& !text::is_blank(entry.translation)
                &&& !contradicts_catalog(locales, catalogs, entry)
                &&& !contradicts_entries(entries.take(i), entry)
            } {
            assert forall|i: int| 0 <= i < front.len() implies {
                let entry = #[trigger] front[i];
                &&& locales.contains(entry.locale)
                &&& messages.contains_key(entry.source)
                &&& messages[entry.source].source_hash == entry.source_hash
                &&& !text::is_blank(entry.translation)
                &&& !contradicts_catalog(locales, catalogs, entry)
                &&& !contradicts_entries(front.take(i), entry)
            } by {
                assert(front.take(i) == entries.take(i));
                assert(front[i] == entries[i]);
            }
            assert(locales.contains(entries[n].locale));
        }
    }
}

/// Another version is refused as such. Otherwise the first entry that cannot stand
/// decides what is said, whatever follows it: in this order that its locale is no
/// target, that no message has its text, that the text changed, that the translation
/// is blank, or that it contradicts a catalog or an entry before it.
pub proof fn first_faulty_entry_decides(
    locales: Seq<Seq<char>>,
    messages: Map<Seq<char>, model::MessageView>,
    catalogs: Seq<Map<Seq<char>, Seq<char>>>,
    version: u32,
    front: Seq<TranslatedView>,
    entry: TranslatedView,
    rest: Seq<TranslatedView>,
)
    requires
        locales.no_duplicates(),
        locales.len() == catalogs.len(),
        response_fault(locales, messages, catalogs, 1, front) is None,
    ensures
        ({
            let fault = response_fault(
                locales,
                messages,
                catalogs,
                version,
                front.push(entry) + rest,
            );
            let locale = entry.locale;
            let source = entry.source;
            if version != 1 {
                fault == Some(TranslationFault::Version(version))
            } else if !locales.contains(locale) {
                fault == Some(TranslationFault::UnknownLocale(locale))
            } else if !messages.contains_key(source) {
                fault == Some(TranslationFault::UnknownSource { locale, source })
            } else if messages[source].source_hash != entry.source_hash {
                fault == Some(TranslationFault::StaleSource { locale, source })
            } else if text::is_blank(entry.translation) {
                fault == Some(TranslationFault::Blank { locale, source })
            } else if contradicts_catalog(locales, catalogs, entry) || contradicts_entries(
                front,
                entry,
            ) {
                fault == Some(TranslationFault::Conflict { locale, source })
            } else {
                response_fault(locales, messages, catalogs, 1, front.push(entry)) is None
            }
        }),
{
    let upto = front.push(entry);
    let all = upto + rest;
    assert(upto.drop_last() =~= front);
    assert(upto.last() == entry);
    assert(all.take(upto.len() as int) =~= upto);
    if locales.contains(entry.locale) {
        lemma_conflict_after(locales, messages, catalogs, front, entry);
    }
    if entries_fault(locales, messages, catalogs, upto) is Some {
        lemma_entries_fault_stays(locales, messages, catalogs, all, upto.len() as int);
    }
}

/// An entry counts as new exactly if its text was not translated for its locale
/// before the response, and no entry before it translates it.
pub proof fn new_entries_are_counted(
    locales: Seq<Seq<char>>,
    messages: Map<Seq<char>, model::MessageView>,
    catalogs: Seq<Map<Seq<char>, Seq<char>>>,
    front: Seq<TranslatedView>,
    entry: TranslatedView,
    p: int,
)
    requires
        locales.no_duplicates(),
        locales.len() == catalogs.len(),
        response_fault(locales, messages, catalogs, 1, front) is None,
        0 <= p < locales.len(),
        locales[p] == entry.locale,
    ensures
        new_count(locales, catalogs, Seq::empty()) == 0,
        ({
            let known = catalogs[p].contains_key(entry.source) && !text::is_blank(
                catalogs[p][entry.source],
            );
            let repeated = exists|j: int|
                0 <= j < front.len() && (#[trigger] front[j]).locale == entry.locale
                    && front[j].source == entry.source;
            new_count(locales, catalogs, front.push(entry)) == new_count(locales, catalogs, front)
                + if known || repeated {
                0int
            } else {
                1int
            }
        }),
{
    let all = front.push(entry);
    assert(all.drop_last() =~= front);
    assert(all.last() == entry);
    assert(locales.contains(locales[p]));
    assert(locales[locales.index_of(entry.locale)] == entry.locale);
    assert(locales.index_of(entry.locale) == p);
    lemma_conflict_after(locales, messages, catalogs, front, entry);
}

/// What a user is told names the version, locale and source text in question.
pub proof fn translation_messages(locale: Seq<char>, source: Seq<char>, n: u32)
    ensures
        TranslationFault::Version(n).message() == "unsupported translation response version "@
            + text::decimal(n as nat),
        TranslationFault::UnknownLocale(locale).message() == "locale `"@ + locale
            + "` is not a target locale of this project"@,
        (TranslationFault::UnknownSource { locale, source }).message() == "translation of `"@
            + source + "` for "@ + locale
            + " is stale: the source text is absent from .l10n/state.yml"@,
        (TranslationFault::StaleSource { locale, source }).message() == "translation of `"@ + source
            + "` for "@ + locale + " is stale: the source hash does not match"@,
        (TranslationFault::Blank { locale, source }).message() == "translation of `"@ + source
            + "` for "@ + locale + " is blank"@,
        (TranslationFault::Conflict { locale, source }).message() == "translation of `"@ + source
            + "` for "@ + locale + " conflicts with an existing translation"@,
{
}

/// A task is seen with all that it holds.
pub proof fn tasks_are_seen(task: TranslationTask, previous: PreviousTranslation)
    ensures
        task@.source == task.source@,
        task@.source_hash == task.source_hash@,
        task@.locale == task.locale@,
        task@.occurrences == model::views(task.occurrences@),
        task@.previous == model::views(task.previous@),
        previous@.source == previous.source@,
        previous@.translation == model::text_view(previous.translation),
{
}

/// An entry of a response is seen with all that it holds.
pub proof fn entries_are_seen(entry: TranslatedMessage)
    ensures
        entry@.source == entry.source@,
        entry@.source_hash == entry.source_hash@,
        entry@.locale == entry.locale@,
        entry@.translation == entry.translation@,
{
}

/// A refusal is seen with all that it names.
pub proof fn translation_errors_are_seen(locale: String, source: String, n: u32)
    ensures
        TranslationError::Version(n)@ == TranslationFault::Version(n),
        TranslationError::UnknownLocale(locale)@ == TranslationFault::UnknownLocale(locale@),
        (TranslationError::UnknownSource { locale, source })@ == (TranslationFault::UnknownSource {
            locale: locale@,
            source: source@,
        }),
        (TranslationError::StaleSource { locale, source })@ == (TranslationFault::StaleSource {
            locale: locale@,
            source: source@,
        }),
        (TranslationError::Blank { locale, source })@ == (TranslationFault::Blank {
            locale: locale@,
            source: source@,
        }),
        (TranslationError::Conflict { locale, source })@ == (TranslationFault::Conflict {
            locale: locale@,
            source: source@,
        }),
{
}

} // verus!
