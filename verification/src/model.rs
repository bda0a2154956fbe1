//! The files of a project as values: configuration, extraction state and target
//! catalogs.

use vstd::prelude::*;

use crate::path;
use crate::string_map::{Duplicate, StringMap};
use crate::text;

verus! {

/// Where the project configuration lives, below the project root.
pub const CONFIG_PATH: &'static str = ".l10n/config.yml";

/// Where the extraction state lives, below the project root.
pub const STATE_PATH: &'static str = ".l10n/state.yml";

/// What each element of a sequence stands for.
pub open spec fn views<T: View>(s: Seq<T>) -> Seq<T::V> {
    Seq::new(s.len(), |i: int| s[i]@)
}

/// What an optional text stands for.
pub open spec fn text_view(t: Option<String>) -> Option<Seq<char>> {
    match t {
        Some(s) => Some(s@),
        None => None,
    }
}

/// Whether two optional texts are the same.
fn optional_text_eq(a: &Option<String>, b: &Option<String>) -> (same: bool)
    ensures
        same == (text_view(*a) == text_view(*b)),
{
    match (a, b) {
        (Some(x), Some(y)) => text::text_eq(x.as_str(), y.as_str()),
        (None, None) => true,
        _ => false,
    }
}

/// Copies every element.
pub fn duplicate_all<T: Duplicate>(items: &Vec<T>) -> (copies: Vec<T>)
    ensures
        views(copies@) == views(items@),
{
    let mut copies: Vec<T> = Vec::new();
    for i in 0..items.len()
        invariant
            copies@.len() == i,
            forall|j: int| 0 <= j < i ==> (#[trigger] copies@[j])@ == items@[j]@,
    {
        copies.push(items[i].duplicate());
    }
    assert(views(copies@) =~= views(items@));
    copies
}

/// The translations of one target locale, keyed by the source text in code.
pub type Catalog = StringMap<String>;

#[derive(Debug, PartialEq, Eq)]
pub struct Config {
    pub version: u32,
    pub source_locale: String,
    pub required_locales: Vec<String>,
}

pub struct ConfigView {
    pub version: u32,
    pub source_locale: Seq<char>,
    pub required_locales: Seq<Seq<char>>,
}

impl View for Config {
    type V = ConfigView;

    open spec fn view(&self) -> ConfigView {
        ConfigView {
            version: self.version,
            source_locale: self.source_locale@,
            required_locales: views(self.required_locales@),
        }
    }
}

impl Duplicate for Config {
    fn duplicate(&self) -> (copy: Self) {
        Config {
            version: self.version,
            source_locale: self.source_locale.clone(),
            required_locales: duplicate_all(&self.required_locales),
        }
    }
}

impl Clone for Config {
    fn clone(&self) -> (copy: Self)
        ensures
            copy@ == self@,
    {
        self.duplicate()
    }
}

/// One place in the code where a source text stands. Two of them are equal if the
/// paths are the same one, however they are written, and the rest is equal.
#[derive(Debug, Eq)]
pub struct Occurrence {
    pub path: String,
    pub line: u32,
    pub column: u32,
    pub symbol: Option<String>,
    pub anchor: Option<String>,
}

pub struct OccurrenceView {
    pub path: Seq<char>,
    pub line: u32,
    pub column: u32,
    pub symbol: Option<Seq<char>>,
    pub anchor: Option<Seq<char>>,
}

impl View for Occurrence {
    type V = OccurrenceView;

    open spec fn view(&self) -> OccurrenceView {
        OccurrenceView {
            path: self.path@,
            line: self.line,
            column: self.column,
            symbol: text_view(self.symbol),
            anchor: text_view(self.anchor),
        }
    }
}

impl PartialEq for Occurrence {
    fn eq(&self, other: &Self) -> (same: bool) {
        path::paths_equal(self.path.as_str(), other.path.as_str()) && self.line == other.line
            && self.column == other.column && optional_text_eq(&self.symbol, &other.symbol)
            && optional_text_eq(&self.anchor, &other.anchor)
    }
}

impl vstd::std_specs::cmp::PartialEqSpecImpl for Occurrence {
    open spec fn obeys_eq_spec() -> bool {
        true
    }

    open spec fn eq_spec(&self, other: &Self) -> bool {
        &&& path::same_path(self.path@, other.path@)
        &&& self.line == other.line
        &&& self.column == other.column
        &&& text_view(self.symbol) == text_view(other.symbol)
        &&& text_view(self.anchor) == text_view(other.anchor)
    }
}

impl Duplicate for Occurrence {
    fn duplicate(&self) -> (copy: Self) {
        Occurrence {
            path: self.path.clone(),
            line: self.line,
            column: self.column,
            symbol: self.symbol.clone(),
            anchor: self.anchor.clone(),
        }
    }
}

impl Clone for Occurrence {
    fn clone(&self) -> (copy: Self)
        ensures
            copy@ == self@,
    {
        self.duplicate()
    }
}

/// A source text that once stood where another one stands now, with the
/// translations that it had.
#[derive(Debug, PartialEq, Eq)]
pub struct PreviousSource {
    pub source: String,
    pub source_hash: String,
    pub translations: StringMap<String>,
}

pub struct PreviousSourceView {
    pub source: Seq<char>,
    pub source_hash: Seq<char>,
    pub translations: Map<Seq<char>, Seq<char>>,
}

impl View for PreviousSource {
    type V = PreviousSourceView;

    open spec fn view(&self) -> PreviousSourceView {
        PreviousSourceView {
            source: self.source@,
            source_hash: self.source_hash@,
            translations: self.translations@,
        }
    }
}

impl Duplicate for PreviousSource {
    fn duplicate(&self) -> (copy: Self) {
        PreviousSource {
            source: self.source.clone(),
            source_hash: self.source_hash.clone(),
            translations: self.translations.duplicate(),
        }
    }
}

impl Clone for PreviousSource {
    fn clone(&self) -> (copy: Self)
        ensures
            copy@ == self@,
    {
        self.duplicate()
    }
}

/// A source text, its fingerprint, where it stands and what stood there before.
#[derive(Debug, PartialEq, Eq)]
pub struct Message {
    pub source: String,
    pub source_hash: String,
    pub occurrences: Vec<Occurrence>,
    pub history: Vec<PreviousSource>,
}

pub struct MessageView {
    pub source: Seq<char>,
    pub source_hash: Seq<char>,
    pub occurrences: Seq<OccurrenceView>,
    pub history: Seq<PreviousSourceView>,
}

impl View for Message {
    type V = MessageView;

    open spec fn view(&self) -> MessageView {
        MessageView {
            source: self.source@,
            source_hash: self.source_hash@,
            occurrences: views(self.occurrences@),
            history: views(self.history@),
        }
    }
}

impl Duplicate for Message {
    fn duplicate(&self) -> (copy: Self) {
        Message {
            source: self.source.clone(),
            source_hash: self.source_hash.clone(),
            occurrences: duplicate_all(&self.occurrences),
            history: duplicate_all(&self.history),
        }
    }
}

impl Clone for Message {
    fn clone(&self) -> (copy: Self)
        ensures
            copy@ == self@,
    {
        self.duplicate()
    }
}

/// The extraction state of a project: every message, keyed by its source text.
#[derive(Debug, PartialEq, Eq)]
pub struct State {
    pub version: u32,
    pub messages: StringMap<Message>,
}

pub struct StateView {
    pub version: u32,
    pub messages: Map<Seq<char>, MessageView>,
}

impl View for State {
    type V = StateView;

    open spec fn view(&self) -> StateView {
        StateView { version: self.version, messages: self.messages@ }
    }
}

impl Duplicate for State {
    fn duplicate(&self) -> (copy: Self) {
        State { version: self.version, messages: self.messages.duplicate() }
    }
}

impl Clone for State {
    fn clone(&self) -> (copy: Self)
        ensures
            copy@ == self@,
    {
        self.duplicate()
    }
}

impl Default for State {
    fn default() -> (state: Self)
        ensures
            state@ == (StateView { version: 0, messages: Map::empty() }),
    {
        State { version: 0, messages: StringMap::new() }
    }
}

impl<V: Duplicate> Clone for StringMap<V> {
    fn clone(&self) -> (copy: Self)
        ensures
            copy@ == self@,
    {
        self.duplicate()
    }
}

/// A source text as an analyzer reports it, with the places where it stands.
#[derive(Debug, PartialEq, Eq)]
pub struct ExtractedMessage {
    pub source: String,
    pub occurrences: Vec<Occurrence>,
}

pub struct ExtractedView {
    pub source: Seq<char>,
    pub occurrences: Seq<OccurrenceView>,
}

impl View for ExtractedMessage {
    type V = ExtractedView;

    open spec fn view(&self) -> ExtractedView {
        ExtractedView { source: self.source@, occurrences: views(self.occurrences@) }
    }
}

impl Duplicate for ExtractedMessage {
    fn duplicate(&self) -> (copy: Self) {
        ExtractedMessage {
            source: self.source.clone(),
            occurrences: duplicate_all(&self.occurrences),
        }
    }
}

impl Clone for ExtractedMessage {
    fn clone(&self) -> (copy: Self)
        ensures
            copy@ == self@,
    {
        self.duplicate()
    }
}

/// What a successful check counted.
#[derive(Debug, Clone, Copy, PartialEq, Eq, Structural)]
pub struct CheckReport {
    pub message_count: usize,
    pub catalog_count: usize,
}

/// How an extraction changed the set of messages.
#[derive(Debug, Clone, Copy, PartialEq, Eq, Structural)]
pub struct ExtractionReport {
    pub added: usize,
    pub removed: usize,
}

/// Each element of a sequence is seen at its place.
pub proof fn elements_are_seen<T: View>(s: Seq<T>, i: int)
    ensures
        views(s).len() == s.len(),
        0 <= i < s.len() ==> views(s)[i] == s[i]@,
{
}

/// An optional text is seen as the text, where there is one.
pub proof fn optional_texts_are_seen(t: Option<String>)
    ensures
        t matches Some(s) ==> text_view(t) == Some(s@),
        t is None ==> text_view(t) is None,
{
}

/// A configuration is seen with all that it holds.
pub proof fn configurations_are_seen(config: Config)
    ensures
        config@.version == config.version,
        config@.source_locale == config.source_locale@,
        config@.required_locales.len() == config.required_locales@.len(),
        forall|i: int|
            0 <= i < config.required_locales@.len() ==> #[trigger] config@.required_locales[i]
                == config.required_locales@[i]@,
{
}

/// An occurrence is seen with all that it holds.
pub proof fn occurrences_are_seen(occurrence: Occurrence)
    ensures
        occurrence@.path == occurrence.path@,
        occurrence@.line == occurrence.line,
        occurrence@.column == occurrence.column,
        occurrence@.symbol == text_view(occurrence.symbol),
        occurrence@.anchor == text_view(occurrence.anchor),
{
}

/// Two occurrences are equal exactly if their paths are the same one and all else
/// that is seen of them is equal.
pub proof fn equal_occurrences(a: Occurrence, b: Occurrence)
    ensures
        vstd::std_specs::cmp::PartialEqSpec::eq_spec(&a, &b) <==> {
            &&& path::same_path(a.path@, b.path@)
            &&& a@.line == b@.line
            &&& a@.column == b@.column
            &&& a@.symbol == b@.symbol
            &&& a@.anchor == b@.anchor
        },
{
}

/// A former source is seen with all that it holds.
pub proof fn previous_sources_are_seen(previous: PreviousSource)
    ensures
        previous@.source == previous.source@,
        previous@.source_hash == previous.source_hash@,
        previous@.translations == previous.translations@,
{
}

/// A message is seen with all that it holds.
pub proof fn messages_are_seen(message: Message, i: int)
    ensures
        message@.source == message.source@,
        message@.source_hash == message.source_hash@,
        message@.occurrences.len() == message.occurrences@.len(),
        message@.history.len() == message.history@.len(),
        0 <= i < message.occurrences@.len() ==> message@.occurrences[i]
            == message.occurrences@[i]@,
        0 <= i < message.history@.len() ==> message@.history[i] == message.history@[i]@,
{
}

/// A state is seen with all that it holds.
pub proof fn states_are_seen(state: State)
    ensures
        state@.version == state.version,
        state@.messages == state.messages@,
{
}

/// An extracted text is seen with all that it holds.
pub proof fn extracted_messages_are_seen(extracted: ExtractedMessage, i: int)
    ensures
        extracted@.source == extracted.source@,
        extracted@.occurrences.len() == extracted.occurrences@.len(),
        0 <= i < extracted.occurrences@.len() ==> extracted@.occurrences[i]
            == extracted.occurrences@[i]@,
{
}

} // verus!
