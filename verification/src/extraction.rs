//! Taking over what an analyzer found in one file.

use vstd::prelude::*;

use crate::digest;
use crate::model;
use crate::model::{
    Catalog, Config, ExtractedMessage, ExtractionReport, Message, Occurrence, PreviousSource, State,
};
use crate::path;
use crate::string_map;
use crate::string_map::{Duplicate, StringMap};
use crate::text;

verus! {

/// The occurrences that are not in the file at `path`, in order.
pub open spec fn elsewhere(
    occurrences: Seq<model::OccurrenceView>,
    path: Seq<char>,
) -> Seq<model::OccurrenceView> {
    occurrences.filter(|o: model::OccurrenceView| !path::same_path(o.path, path))
}

/// The sources of the messages that do not occur anywhere but in the file at
/// `path`.
pub open spec fn stale_sources(
    messages: Map<Seq<char>, model::MessageView>,
    path: Seq<char>,
) -> Set<Seq<char>> {
    messages.dom().filter(|k: Seq<char>| elsewhere(messages[k].occurrences, path).len() == 0)
}

/// The messages that occur in other files, without their occurrences in the file
/// at `path`.
pub open spec fn kept_messages(
    messages: Map<Seq<char>, model::MessageView>,
    path: Seq<char>,
) -> Map<Seq<char>, model::MessageView> {
    Map::new(
        |k: Seq<char>| messages.contains_key(k) && !stale_sources(messages, path).contains(k),
        |k: Seq<char>|
            model::MessageView {
                occurrences: elsewhere(messages[k].occurrences, path),
                ..messages[k]
            },
    )
}

/// Whether one of the occurrences is in the file at `path`, under `anchor`.
pub open spec fn has_anchor(
    occurrences: Seq<model::OccurrenceView>,
    path: Seq<char>,
    anchor: Seq<char>,
) -> bool {
    exists|i: int|
        0 <= i < occurrences.len() && path::same_path((#[trigger] occurrences[i]).path, path)
            && occurrences[i].anchor == Some(anchor)
}

/// The sources that stand under `anchor` in the file at `path`.
pub open spec fn anchored_sources(
    messages: Map<Seq<char>, model::MessageView>,
    path: Seq<char>,
    anchor: Seq<char>,
) -> Set<Seq<char>> {
    messages.dom().filter(|k: Seq<char>| has_anchor(messages[k].occurrences, path, anchor))
}

/// The source that stands under each anchor of the file at `path`. Where several
/// do, the last of them counts.
pub open spec fn prior_sources(
    messages: Map<Seq<char>, model::MessageView>,
    path: Seq<char>,
) -> Map<Seq<char>, Seq<char>> {
    Map::new(
        |a: Seq<char>| anchored_sources(messages, path, a) != Set::<Seq<char>>::empty(),
        |a: Seq<char>| string_map::greatest(anchored_sources(messages, path, a)),
    )
}

/// The translations that `source` has, by locale.
pub open spec fn translations(
    locales: Seq<Seq<char>>,
    catalogs: Seq<Map<Seq<char>, Seq<char>>>,
    source: Seq<char>,
) -> Map<Seq<char>, Seq<char>> {
    Map::new(
        |l: Seq<char>| locales.contains(l) && catalogs[locales.index_of(l)].contains_key(source),
        |l: Seq<char>| catalogs[locales.index_of(l)][source],
    )
}

/// What the project knew before an extraction, as far as histories need it.
pub struct Past {
    /// The source that stood under each anchor of the scanned file.
    pub prior: Map<Seq<char>, Seq<char>>,
    pub locales: Seq<Seq<char>>,
    pub catalogs: Seq<Map<Seq<char>, Seq<char>>>,
}

/// Whether a history tells of `source` already.
pub open spec fn remembers(history: Seq<model::PreviousSourceView>, source: Seq<char>) -> bool {
    exists|i: int| 0 <= i < history.len() && (#[trigger] history[i]).source == source
}

/// The history of `source` after it was found at `occurrence`: if another source
/// stood under the same anchor, and the history does not tell of it yet, that one
/// is appended with the translations that it had.
pub open spec fn history_with(
    history: Seq<model::PreviousSourceView>,
    source: Seq<char>,
    occurrence: model::OccurrenceView,
    past: Past,
) -> Seq<model::PreviousSourceView> {
    match occurrence.anchor {
        None => history,
        Some(anchor) => if past.prior.contains_key(anchor) && past.prior[anchor] != source
            && !remembers(history, past.prior[anchor]) {
            let previous = past.prior[anchor];
            history.push(
                model::PreviousSourceView {
                    source: previous,
                    source_hash: digest::source_hash(previous),
                    translations: translations(past.locales, past.catalogs, previous),
                },
            )
        } else {
            history
        },
    }
}

/// The history of `source` after it was found at each of the occurrences in turn.
pub open spec fn history_after(
    history: Seq<model::PreviousSourceView>,
    source: Seq<char>,
    occurrences: Seq<model::OccurrenceView>,
    past: Past,
) -> Seq<model::PreviousSourceView>
    decreases occurrences.len(),
{
    if occurrences.len() == 0 {
        history
    } else {
        history_with(
            history_after(history, source, occurrences.drop_last(), past),
            source,
            occurrences.last(),
            past,
        )
    }
}

/// The history that a message has among `messages`; empty for an unknown one.
pub open spec fn history_of(
    messages: Map<Seq<char>, model::MessageView>,
    source: Seq<char>,
) -> Seq<model::PreviousSourceView> {
    if messages.contains_key(source) {
        messages[source].history
    } else {
        Seq::empty()
    }
}

/// The message for an extracted source text, where `messages` are those known.
pub open spec fn message_for(
    messages: Map<Seq<char>, model::MessageView>,
    extracted: model::ExtractedView,
    past: Past,
) -> model::MessageView {
    model::MessageView {
        source: extracted.source,
        source_hash: digest::source_hash(extracted.source),
        occurrences: extracted.occurrences,
        history: history_after(
            history_of(messages, extracted.source),
            extracted.source,
            extracted.occurrences,
            past,
        ),
    }
}

/// The messages after each extracted one was recorded in turn.
pub open spec fn recorded(
    messages: Map<Seq<char>, model::MessageView>,
    extracted: Seq<model::ExtractedView>,
    past: Past,
) -> Map<Seq<char>, model::MessageView>
    decreases extracted.len(),
{
    if extracted.len() == 0 {
        messages
    } else {
        let earlier = recorded(messages, extracted.drop_last(), past);
        earlier.insert(extracted.last().source, message_for(earlier, extracted.last(), past))
    }
}

/// The source texts that were extracted.
pub open spec fn extracted_sources(extracted: Seq<model::ExtractedView>) -> Set<Seq<char>> {
    Seq::new(extracted.len(), |i: int| extracted[i].source).to_set()
}

/// A catalog after an extraction: without the stale entries, and with an empty
/// entry for each message that has none.
pub open spec fn refreshed(
    catalog: Map<Seq<char>, Seq<char>>,
    stale: Set<Seq<char>>,
    known: Set<Seq<char>>,
) -> Map<Seq<char>, Seq<char>> {
    Map::new(
        |k: Seq<char>| known.contains(k) || (catalog.contains_key(k) && !stale.contains(k)),
        |k: Seq<char>|
            if catalog.contains_key(k) && !stale.contains(k) {
                catalog[k]
            } else {
                Seq::empty()
            },
    )
}

/// What the project knows before an extraction from the file at `path`.
pub open spec fn past_of(
    locales: Seq<Seq<char>>,
    messages: Map<Seq<char>, model::MessageView>,
    catalogs: Seq<Map<Seq<char>, Seq<char>>>,
    path: Seq<char>,
) -> Past {
    Past { prior: prior_sources(messages, path), locales, catalogs }
}

/// The messages after an extraction from the file at `path`.
pub open spec fn messages_after(
    locales: Seq<Seq<char>>,
    messages: Map<Seq<char>, model::MessageView>,
    catalogs: Seq<Map<Seq<char>, Seq<char>>>,
    path: Seq<char>,
    extracted: Seq<model::ExtractedView>,
) -> Map<Seq<char>, model::MessageView> {
    recorded(
        kept_messages(messages, path),
        extracted,
        past_of(locales, messages, catalogs, path),
    )
}

/// Whether the occurrence is in the file at `path`.
fn is_at(occurrence: &Occurrence, path: &str) -> (at: bool)
    ensures
        at == path::same_path(occurrence@.path, path@),
{
    path::paths_equal(occurrence.path.as_str(), path)
}

/// The occurrences that are not in the file at `path`.
fn occurrences_elsewhere(occurrences: &Vec<Occurrence>, path: &str) -> (others: Vec<Occurrence>)
    ensures
        model::views(others@) == elsewhere(model::views(occurrences@), path@),
{
    let ghost all = model::views(occurrences@);
    let mut others: Vec<Occurrence> = Vec::new();
    proof {
        reveal(Seq::filter);
        assert(model::views(others@) =~= elsewhere(all.take(0), path@));
    }
    for i in 0..occurrences.len()
        invariant
            all == model::views(occurrences@),
            model::views(others@) == elsewhere(all.take(i as int), path@),
    {
        proof {
            assert(all.take(i + 1) =~= all.take(i as int).push(all[i as int]));
            all.take(i as int).lemma_filter_push(
                all[i as int],
                |o: model::OccurrenceView| !path::same_path(o.path, path@),
            );
        }
        let ghost before = model::views(others@);
        if !is_at(&occurrences[i], path) {
            others.push(occurrences[i].duplicate());
            assert(model::views(others@) =~= before.push(all[i as int]));
        }
    }
    assert(all.take(all.len() as int) =~= all);
    others
}

/// The messages that stay, and the sources of those that do not.
fn split_messages(messages: &StringMap<Message>, path: &str) -> (result: (
    StringMap<Message>,
    Vec<String>,
))
    ensures
        result.0@ == kept_messages(messages@, path@),
        model::views(result.1@).to_set() == stale_sources(messages@, path@),
        result.1@.len() == stale_sources(messages@, path@).len(),
        messages@.dom().finite(),
{
    let n = messages.len();
    let ghost keys = messages.keys();
    let ghost stale_set = stale_sources(messages@, path@);
    let mut kept: StringMap<Message> = StringMap::new();
    let mut stale: Vec<String> = Vec::new();
    let mut i: usize = 0;
    while i < n
        invariant
            i <= n,
            n == keys.len(),
            keys == messages.keys(),
            keys.no_duplicates(),
            messages@.dom() == keys.to_set(),
            stale_set == stale_sources(messages@, path@),
            kept@ == kept_messages(messages@, path@).restrict(keys.take(i as int).to_set()),
            model::views(stale@).no_duplicates(),
            model::views(stale@).to_set() == stale_set.intersect(keys.take(i as int).to_set()),
        decreases n - i,
    {
        let key = messages.key_at(i);
        let message = messages.value_at(i);
        let others = occurrences_elsewhere(&message.occurrences, path);
        let ghost k = keys[i as int];
        let ghost before = model::views(stale@);
        proof {
            let done = keys.take(i as int);
            assert(keys.take(i + 1) =~= done.push(k));
            done.lemma_push_to_set_commute(k);
            assert(!done.contains(k)) by {
                if done.contains(k) {
                    let j = done.index_of(k);
                    assert(keys[j] == keys[i as int]);
                }
            }
            assert(!before.contains(k)) by {
                if before.contains(k) {
                    assert(before.to_set().contains(k));
                }
            }
            assert(model::views(others@).len() == others@.len());
        }
        if others.len() == 0 {
            stale.push(key.clone());
            proof {
                assert(stale_set.contains(k));
                assert(model::views(stale@) =~= before.push(k));
                before.lemma_push_to_set_commute(k);
                assert(model::views(stale@).to_set() =~= stale_set.intersect(
                    keys.take(i + 1).to_set(),
                ));
                assert(kept@ =~= kept_messages(messages@, path@).restrict(
                    keys.take(i + 1).to_set(),
                ));
            }
        } else {
            kept.insert(
                key.clone(),
                Message {
                    source: message.source.clone(),
                    source_hash: message.source_hash.clone(),
                    occurrences: others,
                    history: model::duplicate_all(&message.history),
                },
            );
            proof {
                assert(!stale_set.contains(k));
                assert(model::views(stale@).to_set() =~= stale_set.intersect(
                    keys.take(i + 1).to_set(),
                ));
                assert(kept@ =~= kept_messages(messages@, path@).restrict(
                    keys.take(i + 1).to_set(),
                ));
            }
        }
        i = i + 1;
    }
    proof {
        assert(keys.take(n as int) =~= keys);
        assert(kept@ =~= kept_messages(messages@, path@));
        assert(model::views(stale@).to_set() =~= stale_set);
        model::views(stale@).unique_seq_to_set();
    }
    (kept, stale)
}

proof fn lemma_anchor_entered(
    occurrences: Seq<model::OccurrenceView>,
    i: int,
    path: Seq<char>,
    anchor: Seq<char>,
)
    requires
        0 <= i < occurrences.len(),
    ensures
        has_anchor(occurrences.take(i + 1), path, anchor) == (has_anchor(
            occurrences.take(i),
            path,
            anchor,
        ) || (path::same_path(occurrences[i].path, path) && occurrences[i].anchor == Some(anchor))),
{
    let shorter = occurrences.take(i);
    let longer = occurrences.take(i + 1);
    assert(longer[i] == occurrences[i]);
    if has_anchor(shorter, path, anchor) {
        let j = choose|j: int|
            0 <= j < shorter.len() && path::same_path((#[trigger] shorter[j]).path, path)
                && shorter[j].anchor == Some(anchor);
        assert(longer[j] == shorter[j]);
    }
    if has_anchor(longer, path, anchor) {
        let j = choose|j: int|
            0 <= j < longer.len() && path::same_path((#[trigger] longer[j]).path, path)
                && longer[j].anchor == Some(anchor);
        if j < i {
            assert(longer[j] == shorter[j]);
        }
    }
}

/// Enters the anchors that `source` has in the file at `path`, in place of what
/// stood under them.
fn enter_anchors(
    prior: &mut StringMap<String>,
    source: &String,
    occurrences: &Vec<Occurrence>,
    path: &str,
)
    ensures
        forall|a: Seq<char>|
            #![trigger final(prior)@.contains_key(a)]
            final(prior)@.contains_key(a) == (old(prior)@.contains_key(a) || has_anchor(
                model::views(occurrences@),
                path@,
                a,
            )),
        forall|a: Seq<char>|
            #![trigger final(prior)@[a]]
            final(prior)@.contains_key(a) ==> final(prior)@[a] == if has_anchor(
                model::views(occurrences@),
                path@,
                a,
            ) {
                source@
            } else {
                old(prior)@[a]
            },
{
    let ghost all = model::views(occurrences@);
    for i in 0..occurrences.len()
        invariant
            all == model::views(occurrences@),
            forall|a: Seq<char>|
                #![trigger prior@.contains_key(a)]
                prior@.contains_key(a) == (old(prior)@.contains_key(a) || has_anchor(
                    all.take(i as int),
                    path@,
                    a,
                )),
            forall|a: Seq<char>|
                #![trigger prior@[a]]
                prior@.contains_key(a) ==> prior@[a] == if has_anchor(
                    all.take(i as int),
                    path@,
                    a,
                ) {
                    source@
                } else {
                    old(prior)@[a]
                },
    {
        let occurrence = &occurrences[i];
        let ghost before = prior@;
        proof {
            assert(occurrence@ == all[i as int]);
            assert forall|a: Seq<char>| #[trigger]
                has_anchor(all.take(i + 1), path@, a) == (has_anchor(all.take(i as int), path@, a)
                    || (path::same_path(occurrence@.path, path@) && occurrence@.anchor == Some(
                    a,
                ))) by {
                lemma_anchor_entered(all, i as int, path@, a);
            }
        }
        if is_at(occurrence, path) {
            if let Some(anchor) = &occurrence.anchor {
                prior.insert(anchor.clone(), source.clone());
                assert(prior@ == before.insert(anchor@, source@));
            }
        }
    }
    assert(all.take(all.len() as int) =~= all);
}

/// The source that stands under each anchor of the file at `path` (see
/// [`prior_sources`]).
fn prior_by_anchor(messages: &StringMap<Message>, path: &str) -> (prior: StringMap<String>)
    ensures
        prior@ == prior_sources(messages@, path@),
{
    let n = messages.len();
    let ghost keys = messages.keys();
    let mut prior: StringMap<String> = StringMap::new();
    let mut i: usize = 0;
    while i < n
        invariant
            i <= n,
            n == keys.len(),
            keys == messages.keys(),
            string_map::increasing(keys),
            messages@.dom() == keys.to_set(),
            forall|a: Seq<char>|
                #![trigger prior@.contains_key(a)]
                prior@.contains_key(a) ==> {
                    let seen = anchored_sources(messages@, path@, a).intersect(
                        keys.take(i as int).to_set(),
                    );
                    string_map::is_greatest(seen, prior@[a])
                },
            forall|a: Seq<char>, j: int|
                #![trigger prior@.contains_key(a), keys[j]]
                0 <= j < i && anchored_sources(messages@, path@, a).contains(keys[j])
                    ==> prior@.contains_key(a),
        decreases n - i,
    {
        let ghost before = prior@;
        let ghost k = keys[i as int];
        let source = messages.key_at(i);
        let message = messages.value_at(i);
        enter_anchors(&mut prior, source, &message.occurrences, path);
        proof {
            let done = keys.take(i as int);
            let next = keys.take(i + 1);
            assert(next =~= done.push(k));
            done.lemma_push_to_set_commute(k);
            assert forall|a: Seq<char>| #![trigger prior@.contains_key(a)] prior@.contains_key(a) implies {
                let seen = anchored_sources(messages@, path@, a).intersect(next.to_set());
                string_map::is_greatest(seen, prior@[a])
            } by {
                let all = anchored_sources(messages@, path@, a);
                let seen = all.intersect(next.to_set());
                if has_anchor(messages@[k].occurrences, path@, a) {
                    assert(prior@[a] == k);
                    assert(all.contains(k));
                    assert forall|j: Seq<char>| #[trigger] seen.contains(j) implies text::text_le(
                        j,
                        k,
                    ) by {
                        if j != k {
                            assert(done.contains(j));
                            let p = done.index_of(j);
                            assert(text::text_lt(keys[p], keys[i as int]));
                        }
                    }
                } else {
                    assert(before.contains_key(a));
                    assert(prior@[a] == before[a]);
                    assert(!all.contains(k));
                    assert(seen =~= all.intersect(done.to_set()));
                }
            }
            assert forall|a: Seq<char>, j: int|
                #![trigger prior@.contains_key(a), keys[j]]
                0 <= j < i + 1 && anchored_sources(messages@, path@, a).contains(
                    keys[j],
                ) implies prior@.contains_key(a) by {
                if j < i {
                    assert(before.contains_key(a));
                }
            }
        }
        i = i + 1;
    }
    proof {
        assert(keys.take(n as int) =~= keys);
        let wanted = prior_sources(messages@, path@);
        assert forall|a: Seq<char>| prior@.contains_key(a) == wanted.contains_key(a) by {
            let all = anchored_sources(messages@, path@, a);
            assert(all =~= all.intersect(keys.to_set()));
            if prior@.contains_key(a) {
                assert(all.contains(prior@[a]));
            }
            if all != Set::<Seq<char>>::empty() {
                let k = choose|k: Seq<char>| all.contains(k);
                assert(all.contains(k)) by {
                    if forall|k: Seq<char>| !all.contains(k) {
                        assert(all =~= Set::<Seq<char>>::empty());
                    }
                }
                assert(keys.contains(k));
                assert(keys[keys.index_of(k)] == k);
            }
        }
        assert forall|a: Seq<char>| prior@.contains_key(a) implies prior@[a] == wanted[a] by {
            let all = anchored_sources(messages@, path@, a);
            assert(all =~= all.intersect(keys.to_set()));
            string_map::lemma_greatest_unique(all, prior@[a]);
        }
        assert(prior@ =~= wanted);
    }
    prior
}

/// The translations that `source` has, by locale (see [`translations`]).
fn translations_of(locales: &Vec<String>, catalogs: &Vec<Catalog>, source: &str) -> (found:
    StringMap<String>)
    requires
        locales@.len() == catalogs@.len(),
        model::views(locales@).no_duplicates(),
    ensures
        found@ == translations(model::views(locales@), model::views(catalogs@), source@),
{
    let ghost names = model::views(locales@);
    let ghost entries = model::views(catalogs@);
    let ghost wanted = translations(names, entries, source@);
    let mut found: StringMap<String> = StringMap::new();
    for i in 0..locales.len()
        invariant
            names == model::views(locales@),
            entries == model::views(catalogs@),
            names.len() == entries.len(),
            names.no_duplicates(),
            wanted == translations(names, entries, source@),
            found@ == wanted.restrict(names.take(i as int).to_set()),
    {
        let ghost name = names[i as int];
        proof {
            let done = names.take(i as int);
            assert(names.take(i + 1) =~= done.push(name));
            done.lemma_push_to_set_commute(name);
            assert(names[names.index_of(name)] == name);
            assert(names.index_of(name) == i);
        }
        match catalogs[i].get(source) {
            Some(value) => {
                found.insert(locales[i].clone(), value.clone());
                assert(found@ =~= wanted.restrict(names.take(i + 1).to_set()));
            },
            None => {
                assert(found@ =~= wanted.restrict(names.take(i + 1).to_set()));
            },
        }
    }
    assert(names.take(names.len() as int) =~= names);
    assert(found@ =~= wanted);
    found
}

fn history_mentions(history: &Vec<PreviousSource>, source: &str) -> (found: bool)
    ensures
        found == remembers(model::views(history@), source@),
{
    let ghost all = model::views(history@);
    for i in 0..history.len()
        invariant
            all == model::views(history@),
            forall|j: int| 0 <= j < i ==> (#[trigger] all[j]).source != source@,
    {
        if text::text_eq(history[i].source.as_str(), source) {
            assert(all[i as int].source == source@);
            return true;
        }
    }
    false
}

/// What the project knows before an extraction, at run time.
struct Memory<'a> {
    prior: &'a StringMap<String>,
    locales: &'a Vec<String>,
    catalogs: &'a Vec<Catalog>,
}

impl<'a> Memory<'a> {
    spec fn past(self) -> Past {
        Past {
            prior: self.prior@,
            locales: model::views(self.locales@),
            catalogs: model::views(self.catalogs@),
        }
    }

    spec fn usable(self) -> bool {
        &&& self.locales@.len() == self.catalogs@.len()
        &&& model::views(self.locales@).no_duplicates()
    }
}

/// Extends a history by what stood at the occurrences before (see
/// [`history_after`]).
fn extend_history(
    history: Vec<PreviousSource>,
    source: &str,
    occurrences: &Vec<Occurrence>,
    memory: &Memory,
) -> (extended: Vec<PreviousSource>)
    requires
        memory.usable(),
    ensures
        model::views(extended@) == history_after(
            model::views(history@),
            source@,
            model::views(occurrences@),
            memory.past(),
        ),
{
    let ghost start = model::views(history@);
    let ghost all = model::views(occurrences@);
    let ghost past = memory.past();
    let mut extended = history;
    for i in 0..occurrences.len()
        invariant
            memory.usable(),
            past == memory.past(),
            all == model::views(occurrences@),
            model::views(extended@) == history_after(start, source@, all.take(i as int), past),
    {
        let ghost before = model::views(extended@);
        proof {
            assert(all.take(i + 1).drop_last() =~= all.take(i as int));
            assert(all.take(i + 1).last() == all[i as int]);
        }
        if let Some(anchor) = &occurrences[i].anchor {
            if let Some(previous) = memory.prior.get(anchor.as_str()) {
                if !text::text_eq(previous.as_str(), source) && !history_mentions(
                    &extended,
                    previous.as_str(),
                ) {
                    let entry = PreviousSource {
                        source: previous.clone(),
                        source_hash: digest::hex_sha256(previous.as_str()),
                        translations: translations_of(
                            memory.locales,
                            memory.catalogs,
                            previous.as_str(),
                        ),
                    };
                    let ghost seen = entry@;
                    extended.push(entry);
                    assert(model::views(extended@) =~= before.push(seen));
                }
            }
        }
    }
    assert(all.take(all.len() as int) =~= all);
    extended
}

/// The sources of the extracted messages, one by one.
proof fn lemma_extracted_sources_grow(extracted: Seq<model::ExtractedView>, i: int)
    requires
        0 <= i < extracted.len(),
    ensures
        extracted_sources(extracted.take(i + 1)) == extracted_sources(extracted.take(i)).insert(
            extracted[i].source,
        ),
{
    let shorter = extracted.take(i);
    let longer = extracted.take(i + 1);
    let a = Seq::new(shorter.len(), |i: int| shorter[i].source);
    let b = Seq::new(longer.len(), |i: int| longer[i].source);
    assert(b =~= a.push(extracted[i].source));
    a.lemma_push_to_set_commute(extracted[i].source);
}

/// Recording messages adds exactly their sources.
pub proof fn recorded_sources(
    messages: Map<Seq<char>, model::MessageView>,
    extracted: Seq<model::ExtractedView>,
    past: Past,
)
    ensures
        recorded(messages, extracted, past).dom() == messages.dom().union(
            extracted_sources(extracted),
        ),
    decreases extracted.len(),
{
    if extracted.len() == 0 {
        assert(extracted_sources(extracted) =~= Set::<Seq<char>>::empty());
        assert(messages.dom() =~= messages.dom().union(Set::<Seq<char>>::empty()));
    } else {
        recorded_sources(messages, extracted.drop_last(), past);
        lemma_extracted_sources_grow(extracted, extracted.len() - 1);
        assert(extracted.take(extracted.len() - 1) =~= extracted.drop_last());
        assert(extracted.take(extracted.len() as int) =~= extracted);
        assert(recorded(messages, extracted, past).dom() =~= messages.dom().union(
            extracted_sources(extracted),
        ));
    }
}

/// Records each extracted message in turn, and counts the sources that were not
/// known.
fn record_messages(
    kept: StringMap<Message>,
    extracted: &Vec<ExtractedMessage>,
    memory: &Memory,
) -> (result: (StringMap<Message>, usize))
    requires
        memory.usable(),
    ensures
        result.0@ == recorded(kept@, model::views(extracted@), memory.past()),
        result.1 == extracted_sources(model::views(extracted@)).difference(kept@.dom()).len(),
{
    let ghost start = kept@;
    let ghost all = model::views(extracted@);
    let ghost past = memory.past();
    let mut messages = kept;
    let mut added: usize = 0;
    proof {
        assert(extracted_sources(all.take(0)).difference(start.dom()) =~= Set::<Seq<char>>::empty());
    }
    for i in 0..extracted.len()
        invariant
            memory.usable(),
            past == memory.past(),
            all == model::views(extracted@),
            messages@ == recorded(start, all.take(i as int), past),
            added <= i,
            extracted_sources(all.take(i as int)).difference(start.dom()).finite(),
            added == extracted_sources(all.take(i as int)).difference(start.dom()).len(),
    {
        let message = &extracted[i];
        proof {
            assert(all[i as int] == message@);
            assert(all.take(i + 1).drop_last() =~= all.take(i as int));
            assert(all.take(i + 1).last() == all[i as int]);
            recorded_sources(start, all.take(i as int), past);
            lemma_extracted_sources_grow(all, i as int);
            let known = extracted_sources(all.take(i as int));
            let source = message@.source;
            if messages@.contains_key(source) {
                assert(known.insert(source).difference(start.dom()) =~= known.difference(
                    start.dom(),
                ));
            } else {
                assert(known.insert(source).difference(start.dom()) =~= known.difference(
                    start.dom(),
                ).insert(source));
            }
        }
        let (history, is_new) = match messages.get(message.source.as_str()) {
            Some(existing) => (model::duplicate_all(&existing.history), false),
            None => {
                let empty: Vec<PreviousSource> = Vec::new();
                assert(model::views(empty@) =~= Seq::<model::PreviousSourceView>::empty());
                (empty, true)
            },
        };
        let history = extend_history(
            history,
            message.source.as_str(),
            &message.occurrences,
            memory,
        );
        if is_new {
            added = added + 1;
        }
        messages.insert(
            message.source.clone(),
            Message {
                source: message.source.clone(),
                source_hash: digest::hex_sha256(message.source.as_str()),
                occurrences: model::duplicate_all(&message.occurrences),
                history,
            },
        );
    }
    assert(all.take(all.len() as int) =~= all);
    (messages, added)
}

/// Drops the stale entries of a catalog and adds an empty one for each message
/// that has none (see [`refreshed`]).
fn refresh_catalog(catalog: &Catalog, stale: &Vec<String>, messages: &StringMap<Message>) -> (fresh:
    Catalog)
    ensures
        fresh@ == refreshed(catalog@, model::views(stale@).to_set(), messages@.dom()),
{
    let ghost gone = model::views(stale@);
    let mut fresh = catalog.duplicate();
    for i in 0..stale.len()
        invariant
            gone == model::views(stale@),
            fresh@ == catalog@.remove_keys(gone.take(i as int).to_set()),
    {
        fresh.remove(stale[i].as_str());
        proof {
            assert(gone.take(i + 1) =~= gone.take(i as int).push(gone[i as int]));
            gone.take(i as int).lemma_push_to_set_commute(gone[i as int]);
            assert(fresh@ =~= catalog@.remove_keys(gone.take(i + 1).to_set()));
        }
    }
    assert(gone.take(gone.len() as int) =~= gone);
    let n = messages.len();
    let ghost keys = messages.keys();
    let mut i: usize = 0;
    while i < n
        invariant
            i <= n,
            n == keys.len(),
            keys == messages.keys(),
            messages@.dom() == keys.to_set(),
            fresh@ == refreshed(catalog@, gone.to_set(), keys.take(i as int).to_set()),
        decreases n - i,
    {
        let key = messages.key_at(i);
        proof {
            assert(keys.take(i + 1) =~= keys.take(i as int).push(keys[i as int]));
            keys.take(i as int).lemma_push_to_set_commute(keys[i as int]);
        }
        if !fresh.contains_key(key.as_str()) {
            fresh.insert(key.clone(), String::new());
        }
        assert(fresh@ =~= refreshed(catalog@, gone.to_set(), keys.take(i + 1).to_set()));
        i = i + 1;
    }
    assert(keys.take(n as int) =~= keys);
    fresh
}

/// A project's state and catalogs after an extraction, and what changed.
#[derive(Debug, PartialEq, Eq)]
pub struct Extraction {
    pub state: State,
    /// The catalogs of the required locales, in their order.
    pub catalogs: Vec<Catalog>,
    pub report: ExtractionReport,
}

/// Takes over what an analyzer found in the file at `scanned_path`: a message
/// that occurs nowhere else is dropped, with its translations, before the
/// extracted ones are recorded, and each catalog gets an empty entry for every
/// message that it does not translate. `catalogs` are those of the required
/// locales, in their order.
pub fn apply_extraction(
    config: &Config,
    state: &State,
    catalogs: &Vec<Catalog>,
    scanned_path: &str,
    extracted: Vec<ExtractedMessage>,
) -> (result: Extraction)
    requires
        catalogs@.len() == config.required_locales@.len(),
        config@.required_locales.no_duplicates(),
    ensures
        result.state@.version == state@.version,
        result.state@.messages == messages_after(
            config@.required_locales,
            state@.messages,
            model::views(catalogs@),
            scanned_path@,
            model::views(extracted@),
        ),
        result.catalogs@.len() == catalogs@.len(),
        forall|i: int|
            0 <= i < catalogs@.len() ==> (#[trigger] result.catalogs@[i])@ == refreshed(
                catalogs@[i]@,
                stale_sources(state@.messages, scanned_path@),
                result.state@.messages.dom(),
            ),
        result.report.removed == stale_sources(state@.messages, scanned_path@).len(),
        result.report.added == extracted_sources(model::views(extracted@)).difference(
            kept_messages(state@.messages, scanned_path@).dom(),
        ).len(),
        result.state@.messages.len() + result.report.removed == state@.messages.len()
            + result.report.added,
{
    let prior = prior_by_anchor(&state.messages, scanned_path);
    let (kept, stale) = split_messages(&state.messages, scanned_path);
    let memory = Memory { prior: &prior, locales: &config.required_locales, catalogs };
    let (messages, added) = record_messages(kept, &extracted, &memory);
    let mut fresh: Vec<Catalog> = Vec::new();
    for i in 0..catalogs.len()
        invariant
            model::views(stale@).to_set() == stale_sources(state@.messages, scanned_path@),
            fresh@.len() == i,
            forall|j: int|
                0 <= j < i ==> (#[trigger] fresh@[j])@ == refreshed(
                    catalogs@[j]@,
                    stale_sources(state@.messages, scanned_path@),
                    messages@.dom(),
                ),
    {
        fresh.push(refresh_catalog(&catalogs[i], &stale, &messages));
    }
    let removed = stale.len();
    proof {
        report_balances(
            config@.required_locales,
            state@.messages,
            model::views(catalogs@),
            scanned_path@,
            model::views(extracted@),
        );
    }
    Extraction {
        state: State { version: state.version, messages },
        catalogs: fresh,
        report: ExtractionReport { added, removed },
    }
}

proof fn lemma_elsewhere(occurrences: Seq<model::OccurrenceView>, path: Seq<char>)
    ensures
        forall|i: int|
            0 <= i < elsewhere(occurrences, path).len() ==> !path::same_path(
                (#[trigger] elsewhere(occurrences, path)[i]).path,
                path,
            ),
        (forall|i: int|
            0 <= i < occurrences.len() ==> !path::same_path(
                (#[trigger] occurrences[i]).path,
                path,
            )) ==> elsewhere(occurrences, path) == occurrences,
    decreases occurrences.len(),
{
    reveal(Seq::filter);
    if occurrences.len() > 0 {
        let front = occurrences.drop_last();
        lemma_elsewhere(front, path);
        if forall|i: int|
            0 <= i < occurrences.len() ==> !path::same_path(
                (#[trigger] occurrences[i]).path,
                path,
            ) {
            assert forall|i: int| 0 <= i < front.len() implies !path::same_path(
                (#[trigger] front[i]).path,
                path,
            ) by {
                assert(front[i] == occurrences[i]);
            }
            assert(!path::same_path(occurrences[occurrences.len() - 1].path, path));
            assert(elsewhere(occurrences, path) =~= occurrences);
        }
    }
}

/// The sources that are known after an extraction: those that stay, and the
/// extracted ones.
pub proof fn sources_after_extraction(
    locales: Seq<Seq<char>>,
    messages: Map<Seq<char>, model::MessageView>,
    catalogs: Seq<Map<Seq<char>, Seq<char>>>,
    path: Seq<char>,
    extracted: Seq<model::ExtractedView>,
)
    ensures
        messages_after(locales, messages, catalogs, path, extracted).dom() == messages.dom().difference(
            stale_sources(messages, path),
        ).union(extracted_sources(extracted)),
{
    recorded_sources(
        kept_messages(messages, path),
        extracted,
        past_of(locales, messages, catalogs, path),
    );
    assert(kept_messages(messages, path).dom() =~= messages.dom().difference(
        stale_sources(messages, path),
    ));
}

/// A catalog that translates only texts of messages has, after an extraction, an
/// entry for each message and no other.
pub proof fn catalogs_follow_messages(
    locales: Seq<Seq<char>>,
    messages: Map<Seq<char>, model::MessageView>,
    catalogs: Seq<Map<Seq<char>, Seq<char>>>,
    path: Seq<char>,
    extracted: Seq<model::ExtractedView>,
    i: int,
)
    requires
        0 <= i < catalogs.len(),
        catalogs[i].dom().subset_of(messages.dom()),
    ensures
        ({
            let after = messages_after(locales, messages, catalogs, path, extracted);
            refreshed(catalogs[i], stale_sources(messages, path), after.dom()).dom() == after.dom()
        }),
{
    sources_after_extraction(locales, messages, catalogs, path, extracted);
    let after = messages_after(locales, messages, catalogs, path, extracted);
    assert(refreshed(catalogs[i], stale_sources(messages, path), after.dom()).dom()
        =~= after.dom());
}

/// The translation of a text that also occurs in another file survives an
/// extraction.
pub proof fn translations_survive(
    messages: Map<Seq<char>, model::MessageView>,
    catalog: Map<Seq<char>, Seq<char>>,
    path: Seq<char>,
    known: Set<Seq<char>>,
    source: Seq<char>,
)
    requires
        catalog.contains_key(source),
        !stale_sources(messages, path).contains(source),
    ensures
        ({
            let after = refreshed(catalog, stale_sources(messages, path), known);
            after.contains_key(source) && after[source] == catalog[source]
        }),
{
}

/// A message that occurs nowhere but in the scanned file loses its translations:
/// its entry is empty if the text is found again, and gone if it is not.
pub proof fn stale_translations_are_dropped(
    locales: Seq<Seq<char>>,
    messages: Map<Seq<char>, model::MessageView>,
    catalogs: Seq<Map<Seq<char>, Seq<char>>>,
    path: Seq<char>,
    extracted: Seq<model::ExtractedView>,
    i: int,
    source: Seq<char>,
)
    requires
        0 <= i < catalogs.len(),
        stale_sources(messages, path).contains(source),
    ensures
        ({
            let known = messages_after(locales, messages, catalogs, path, extracted).dom();
            let after = refreshed(catalogs[i], stale_sources(messages, path), known);
            &&& after.contains_key(source) <==> extracted_sources(extracted).contains(source)
            &&& after.contains_key(source) ==> after[source] == Seq::<char>::empty()
        }),
{
    sources_after_extraction(locales, messages, catalogs, path, extracted);
}

/// The messages gained and lost account for the change in their number.
pub proof fn report_balances(
    locales: Seq<Seq<char>>,
    messages: Map<Seq<char>, model::MessageView>,
    catalogs: Seq<Map<Seq<char>, Seq<char>>>,
    path: Seq<char>,
    extracted: Seq<model::ExtractedView>,
)
    requires
        messages.dom().finite(),
    ensures
        ({
            let added = extracted_sources(extracted).difference(
                kept_messages(messages, path).dom(),
            );
            let removed = stale_sources(messages, path);
            messages_after(locales, messages, catalogs, path, extracted).dom().len() + removed.len()
                == messages.dom().len() + added.len()
        }),
{
    let after = messages_after(locales, messages, catalogs, path, extracted);
    let kept = kept_messages(messages, path).dom();
    let removed = stale_sources(messages, path);
    let added = extracted_sources(extracted).difference(kept);
    sources_after_extraction(locales, messages, catalogs, path, extracted);
    vstd::seq_lib::seq_to_set_is_finite(
        Seq::new(extracted.len(), |i: int| extracted[i].source),
    );
    assert(kept =~= messages.dom().difference(removed));
    assert(kept.finite() && removed.finite() && added.finite());
    assert(after.dom() =~= kept.union(added));
    vstd::set_lib::lemma_set_disjoint_lens(kept, added);
    assert(messages.dom() =~= kept.union(removed));
    vstd::set_lib::lemma_set_disjoint_lens(kept, removed);
}

/// A message that is not extracted but occurs in another file keeps its source
/// text, fingerprint and history, and those of its occurrences that are not in the
/// scanned file.
pub proof fn unextracted_message_stays(
    locales: Seq<Seq<char>>,
    messages: Map<Seq<char>, model::MessageView>,
    catalogs: Seq<Map<Seq<char>, Seq<char>>>,
    path: Seq<char>,
    extracted: Seq<model::ExtractedView>,
    source: Seq<char>,
)
    requires
        messages.contains_key(source),
        !stale_sources(messages, path).contains(source),
        !extracted_sources(extracted).contains(source),
    ensures
        ({
            let after = messages_after(locales, messages, catalogs, path, extracted);
            after.contains_key(source) && after[source] == (model::MessageView {
                source: messages[source].source,
                source_hash: messages[source].source_hash,
                occurrences: elsewhere(messages[source].occurrences, path),
                history: messages[source].history,
            })
        }),
{
    lemma_unextracted_stays(
        kept_messages(messages, path),
        extracted,
        past_of(locales, messages, catalogs, path),
        source,
    );
}

/// A message that is neither extracted nor occurs in the scanned file stays as it
/// is.
pub proof fn other_messages_stay(
    locales: Seq<Seq<char>>,
    messages: Map<Seq<char>, model::MessageView>,
    catalogs: Seq<Map<Seq<char>, Seq<char>>>,
    path: Seq<char>,
    extracted: Seq<model::ExtractedView>,
    source: Seq<char>,
)
    requires
        messages.contains_key(source),
        messages[source].occurrences.len() > 0,
        forall|i: int|
            0 <= i < messages[source].occurrences.len() ==> !path::same_path(
                (#[trigger] messages[source].occurrences[i]).path,
                path,
            ),
        !extracted_sources(extracted).contains(source),
    ensures
        ({
            let after = messages_after(locales, messages, catalogs, path, extracted);
            after.contains_key(source) && after[source] == messages[source]
        }),
{
    lemma_elsewhere(messages[source].occurrences, path);
    unextracted_message_stays(locales, messages, catalogs, path, extracted, source);
}

proof fn lemma_unextracted_stays(
    messages: Map<Seq<char>, model::MessageView>,
    extracted: Seq<model::ExtractedView>,
    past: Past,
    source: Seq<char>,
)
    requires
        !extracted_sources(extracted).contains(source),
    ensures
        ({
            let after = recorded(messages, extracted, past);
            &&& after.contains_key(source) == messages.contains_key(source)
            &&& after.contains_key(source) ==> after[source] == messages[source]
        }),
    decreases extracted.len(),
{
    if extracted.len() > 0 {
        let n = extracted.len() - 1;
        lemma_extracted_sources_grow(extracted, n);
        assert(extracted.take(n) =~= extracted.drop_last());
        assert(extracted.take(n + 1) =~= extracted);
        lemma_unextracted_stays(messages, extracted.drop_last(), past, source);
    }
}

/// Each message is kept under its own source text, with the fingerprint of it.
pub open spec fn well_keyed(messages: Map<Seq<char>, model::MessageView>) -> bool {
    forall|k: Seq<char>| #[trigger]
        messages.contains_key(k) ==> messages[k].source == k && messages[k].source_hash
            == digest::source_hash(k)
}

/// An extraction keeps each message under its own source text, with the
/// fingerprint of it.
pub proof fn extraction_keeps_well_keyed(
    locales: Seq<Seq<char>>,
    messages: Map<Seq<char>, model::MessageView>,
    catalogs: Seq<Map<Seq<char>, Seq<char>>>,
    path: Seq<char>,
    extracted: Seq<model::ExtractedView>,
)
    requires
        well_keyed(messages),
    ensures
        well_keyed(messages_after(locales, messages, catalogs, path, extracted)),
{
    lemma_recorded_well_keyed(
        kept_messages(messages, path),
        extracted,
        past_of(locales, messages, catalogs, path),
    );
}

proof fn lemma_recorded_well_keyed(
    messages: Map<Seq<char>, model::MessageView>,
    extracted: Seq<model::ExtractedView>,
    past: Past,
)
    requires
        well_keyed(messages),
    ensures
        well_keyed(recorded(messages, extracted, past)),
    decreases extracted.len(),
{
    if extracted.len() > 0 {
        lemma_recorded_well_keyed(messages, extracted.drop_last(), past);
    }
}

/// Each message occurs somewhere.
pub open spec fn all_occur(messages: Map<Seq<char>, model::MessageView>) -> bool {
    forall|k: Seq<char>| #[trigger]
        messages.contains_key(k) ==> messages[k].occurrences.len() > 0
}

/// After an extraction in which each text was found somewhere, each message
/// occurs somewhere.
pub proof fn no_message_without_occurrence(
    locales: Seq<Seq<char>>,
    messages: Map<Seq<char>, model::MessageView>,
    catalogs: Seq<Map<Seq<char>, Seq<char>>>,
    path: Seq<char>,
    extracted: Seq<model::ExtractedView>,
)
    requires
        forall|i: int|
            0 <= i < extracted.len() ==> (#[trigger] extracted[i]).occurrences.len() > 0,
    ensures
        all_occur(messages_after(locales, messages, catalogs, path, extracted)),
{
    lemma_recorded_all_occur(
        kept_messages(messages, path),
        extracted,
        past_of(locales, messages, catalogs, path),
    );
}

proof fn lemma_recorded_all_occur(
    messages: Map<Seq<char>, model::MessageView>,
    extracted: Seq<model::ExtractedView>,
    past: Past,
)
    requires
        all_occur(messages),
        forall|i: int|
            0 <= i < extracted.len() ==> (#[trigger] extracted[i]).occurrences.len() > 0,
    ensures
        all_occur(recorded(messages, extracted, past)),
    decreases extracted.len(),
{
    if extracted.len() > 0 {
        let front = extracted.drop_last();
        assert(forall|i: int| 0 <= i < front.len() ==> front[i] == extracted[i]);
        lemma_recorded_all_occur(messages, front, past);
        assert(extracted[extracted.len() - 1].occurrences.len() > 0);
    }
}

/// A message that is not found in the scanned file has no occurrence there after
/// the extraction.
pub proof fn scanned_file_is_replaced(
    locales: Seq<Seq<char>>,
    messages: Map<Seq<char>, model::MessageView>,
    catalogs: Seq<Map<Seq<char>, Seq<char>>>,
    path: Seq<char>,
    extracted: Seq<model::ExtractedView>,
    source: Seq<char>,
    i: int,
)
    requires
        !extracted_sources(extracted).contains(source),
        ({
            let after = messages_after(locales, messages, catalogs, path, extracted);
            after.contains_key(source) && 0 <= i < after[source].occurrences.len()
        }),
    ensures
        !path::same_path(
            messages_after(
                locales,
                messages,
                catalogs,
                path,
                extracted,
            )[source].occurrences[i].path,
            path,
        ),
{
    lemma_unextracted_stays(
        kept_messages(messages, path),
        extracted,
        past_of(locales, messages, catalogs, path),
        source,
    );
    lemma_elsewhere(messages[source].occurrences, path);
}

/// A history only grows: what it told of first, it still tells of first.
pub proof fn history_only_grows(
    history: Seq<model::PreviousSourceView>,
    source: Seq<char>,
    occurrences: Seq<model::OccurrenceView>,
    past: Past,
)
    ensures
        history.is_prefix_of(history_after(history, source, occurrences, past)),
    decreases occurrences.len(),
{
    if occurrences.len() > 0 {
        history_only_grows(history, source, occurrences.drop_last(), past);
        let before = history_after(history, source, occurrences.drop_last(), past);
        let after = history_after(history, source, occurrences, past);
        assert(history =~= before.subrange(0, history.len() as int));
        assert(after.subrange(0, history.len() as int) =~= before.subrange(
            0,
            history.len() as int,
        ));
    }
}

/// If another text stood under the anchor of an occurrence, the history tells of
/// it.
pub proof fn replaced_source_is_remembered(
    history: Seq<model::PreviousSourceView>,
    source: Seq<char>,
    occurrences: Seq<model::OccurrenceView>,
    past: Past,
    i: int,
)
    requires
        0 <= i < occurrences.len(),
        occurrences[i].anchor matches Some(anchor) && past.prior.contains_key(anchor)
            && past.prior[anchor] != source,
    ensures
        remembers(
            history_after(history, source, occurrences, past),
            past.prior[occurrences[i].anchor->0],
        ),
    decreases occurrences.len(),
{
    let previous = past.prior[occurrences[i].anchor->0];
    let before = history_after(history, source, occurrences.drop_last(), past);
    let after = history_after(history, source, occurrences, past);
    if i < occurrences.len() - 1 {
        replaced_source_is_remembered(history, source, occurrences.drop_last(), past, i);
        let j = choose|j: int| 0 <= j < before.len() && (#[trigger] before[j]).source == previous;
        assert(after[j] == before[j]);
    } else if remembers(before, previous) {
        assert(after == before);
    } else {
        assert(after[before.len() as int].source == previous);
    }
}

/// No source is told of twice.
pub open spec fn tells_once(history: Seq<model::PreviousSourceView>) -> bool {
    forall|i: int, j: int|
        0 <= i < j < history.len() ==> (#[trigger] history[i]).source != (
        #[trigger] history[j]).source
}

/// A history that tells of no source twice keeps to it.
pub proof fn history_tells_once(
    history: Seq<model::PreviousSourceView>,
    source: Seq<char>,
    occurrences: Seq<model::OccurrenceView>,
    past: Past,
)
    requires
        tells_once(history),
    ensures
        tells_once(history_after(history, source, occurrences, past)),
    decreases occurrences.len(),
{
    if occurrences.len() > 0 {
        history_tells_once(history, source, occurrences.drop_last(), past);
    }
}

/// A history entry as an extraction writes it: another text than `source`, its
/// fingerprint and the translations that it had.
pub open spec fn faithful(
    entry: model::PreviousSourceView,
    source: Seq<char>,
    past: Past,
) -> bool {
    &&& entry.source != source
    &&& entry.source_hash == digest::source_hash(entry.source)
    &&& entry.translations == translations(past.locales, past.catalogs, entry.source)
}

/// What an extraction appends to a history is another text, with its fingerprint
/// and the translations that it had.
pub proof fn history_gains_faithful_entries(
    history: Seq<model::PreviousSourceView>,
    source: Seq<char>,
    occurrences: Seq<model::OccurrenceView>,
    past: Past,
)
    ensures
        forall|i: int|
            history.len() <= i < history_after(history, source, occurrences, past).len()
                ==> faithful(
                #[trigger] history_after(history, source, occurrences, past)[i],
                source,
                past,
            ),
    decreases occurrences.len(),
{
    if occurrences.len() > 0 {
        history_gains_faithful_entries(history, source, occurrences.drop_last(), past);
        let before = history_after(history, source, occurrences.drop_last(), past);
        let after = history_after(history, source, occurrences, past);
        assert forall|i: int| history.len() <= i < after.len() implies faithful(
            #[trigger] after[i],
            source,
            past,
        ) by {
            if i < before.len() {
                assert(after[i] == before[i]);
            }
        }
    }
}

proof fn lemma_recorded_splits(
    messages: Map<Seq<char>, model::MessageView>,
    extracted: Seq<model::ExtractedView>,
    past: Past,
    i: int,
)
    requires
        0 <= i < extracted.len(),
        forall|j: int|
            i < j < extracted.len() ==> (#[trigger] extracted[j]).source != extracted[i].source,
    ensures
        ({
            let earlier = recorded(messages, extracted.take(i), past);
            let after = recorded(messages, extracted, past);
            &&& after.contains_key(extracted[i].source)
            &&& after[extracted[i].source] == message_for(earlier, extracted[i], past)
        }),
    decreases extracted.len(),
{
    let front = extracted.drop_last();
    if i < front.len() {
        assert(forall|j: int| 0 <= j < front.len() ==> front[j] == extracted[j]);
        lemma_recorded_splits(messages, front, past, i);
        assert(front.take(i) =~= extracted.take(i));
        assert(extracted[extracted.len() - 1].source != extracted[i].source);
    } else {
        assert(extracted.take(i) =~= front);
    }
}

/// An extracted text is a message afterwards, under its own source text, with its
/// fingerprint and the occurrences that were found. Where a text was extracted
/// more than once, the last time counts.
pub proof fn extracted_message_is_recorded(
    locales: Seq<Seq<char>>,
    messages: Map<Seq<char>, model::MessageView>,
    catalogs: Seq<Map<Seq<char>, Seq<char>>>,
    path: Seq<char>,
    extracted: Seq<model::ExtractedView>,
    i: int,
)
    requires
        0 <= i < extracted.len(),
        forall|j: int|
            i < j < extracted.len() ==> (#[trigger] extracted[j]).source != extracted[i].source,
    ensures
        ({
            let source = extracted[i].source;
            let after = messages_after(locales, messages, catalogs, path, extracted);
            &&& after.contains_key(source)
            &&& after[source].source == source
            &&& after[source].source_hash == digest::source_hash(source)
            &&& after[source].occurrences == extracted[i].occurrences
        }),
{
    lemma_recorded_splits(
        kept_messages(messages, path),
        extracted,
        past_of(locales, messages, catalogs, path),
        i,
    );
}

/// Where an extracted text stands under an anchor of the scanned file that belonged
/// to another text, its history tells of that text afterwards.
pub proof fn changed_text_is_remembered(
    locales: Seq<Seq<char>>,
    messages: Map<Seq<char>, model::MessageView>,
    catalogs: Seq<Map<Seq<char>, Seq<char>>>,
    path: Seq<char>,
    extracted: Seq<model::ExtractedView>,
    i: int,
    j: int,
)
    requires
        0 <= i < extracted.len(),
        forall|k: int|
            i < k < extracted.len() ==> (#[trigger] extracted[k]).source != extracted[i].source,
        0 <= j < extracted[i].occurrences.len(),
        extracted[i].occurrences[j].anchor matches Some(anchor) && prior_sources(
            messages,
            path,
        ).contains_key(anchor) && prior_sources(messages, path)[anchor] != extracted[i].source,
    ensures
        remembers(
            messages_after(
                locales,
                messages,
                catalogs,
                path,
                extracted,
            )[extracted[i].source].history,
            prior_sources(messages, path)[extracted[i].occurrences[j].anchor->0],
        ),
{
    let past = past_of(locales, messages, catalogs, path);
    let kept = kept_messages(messages, path);
    lemma_recorded_splits(kept, extracted, past, i);
    replaced_source_is_remembered(
        history_of(recorded(kept, extracted.take(i), past), extracted[i].source),
        extracted[i].source,
        extracted[i].occurrences,
        past,
        j,
    );
}

/// Whether the `j`th place of the `i`th extracted text, which is `source`, is one
/// where `previous` stood.
pub open spec fn takes_place_of(
    extracted: Seq<model::ExtractedView>,
    i: int,
    j: int,
    source: Seq<char>,
    previous: Seq<char>,
    past: Past,
) -> bool {
    &&& 0 <= i < extracted.len()
    &&& extracted[i].source == source
    &&& 0 <= j < extracted[i].occurrences.len()
    &&& extracted[i].occurrences[j].anchor matches Some(anchor)
    &&& past.prior.contains_key(anchor)
    &&& past.prior[anchor] == previous
}

/// Whether `source` was extracted at some place where `previous` stood.
pub open spec fn takes_some_place_of(
    extracted: Seq<model::ExtractedView>,
    source: Seq<char>,
    previous: Seq<char>,
    past: Past,
) -> bool {
    exists|i: int, j: int| takes_place_of(extracted, i, j, source, previous, past)
}

proof fn lemma_gained_at_anchor(
    history: Seq<model::PreviousSourceView>,
    source: Seq<char>,
    occurrences: Seq<model::OccurrenceView>,
    past: Past,
    at: int,
) -> (j: int)
    requires
        history.len() <= at < history_after(history, source, occurrences, past).len(),
    ensures
        0 <= j < occurrences.len(),
        occurrences[j].anchor matches Some(anchor) && past.prior.contains_key(anchor)
            && past.prior[anchor] == history_after(history, source, occurrences, past)[at].source,
    decreases occurrences.len(),
{
    let before = history_after(history, source, occurrences.drop_last(), past);
    if at < before.len() {
        let j = lemma_gained_at_anchor(history, source, occurrences.drop_last(), past, at);
        assert(occurrences.drop_last()[j] == occurrences[j]);
        j
    } else {
        occurrences.len() - 1
    }
}

proof fn lemma_recorded_history(
    messages: Map<Seq<char>, model::MessageView>,
    extracted: Seq<model::ExtractedView>,
    past: Past,
    source: Seq<char>,
)
    ensures
        ({
            let former = history_of(messages, source);
            let after = history_of(recorded(messages, extracted, past), source);
            &&& former.is_prefix_of(after)
            &&& tells_once(former) ==> tells_once(after)
            &&& forall|k: int|
                former.len() <= k < after.len() ==> faithful(#[trigger] after[k], source, past)
            &&& forall|k: int|
                former.len() <= k < after.len() ==> takes_some_place_of(
                    extracted,
                    source,
                    (#[trigger] after[k]).source,
                    past,
                )
        }),
    decreases extracted.len(),
{
    let former = history_of(messages, source);
    let after = history_of(recorded(messages, extracted, past), source);
    if extracted.len() == 0 {
        assert(former =~= after.subrange(0, former.len() as int));
    } else {
        let front = extracted.drop_last();
        let last = extracted.len() - 1;
        let before = history_of(recorded(messages, front, past), source);
        lemma_recorded_history(messages, front, past, source);
        let found = extracted[last].occurrences;
        if extracted[last].source == source {
            assert(after == history_after(before, source, found, past));
            history_only_grows(before, source, found, past);
            history_gains_faithful_entries(before, source, found, past);
            if tells_once(before) {
                history_tells_once(before, source, found, past);
            }
        } else {
            assert(after == before);
        }
        assert(forall|k: int| 0 <= k < before.len() ==> after[k] == before[k]);
        assert(former =~= after.subrange(0, former.len() as int));
        assert forall|k: int| former.len() <= k < after.len() implies faithful(
            #[trigger] after[k],
            source,
            past,
        ) by {
            if k < before.len() {
                assert(faithful(before[k], source, past));
            }
        }
        assert forall|k: int| former.len() <= k < after.len() implies takes_some_place_of(
            extracted,
            source,
            (#[trigger] after[k]).source,
            past,
        ) by {
            let previous = after[k].source;
            if k < before.len() {
                assert(takes_some_place_of(front, source, before[k].source, past));
                let (i, j) = choose|i: int, j: int|
                    takes_place_of(front, i, j, source, before[k].source, past);
                assert(front[i] == extracted[i]);
                assert(takes_place_of(extracted, i, j, source, previous, past));
            } else {
                let j = lemma_gained_at_anchor(before, source, found, past, k);
                assert(takes_place_of(extracted, last, j, source, previous, past));
            }
        }
    }
}

/// Over a whole extraction the history of a message that stays is extended at its
/// end only.
pub proof fn extraction_extends_history(
    locales: Seq<Seq<char>>,
    messages: Map<Seq<char>, model::MessageView>,
    catalogs: Seq<Map<Seq<char>, Seq<char>>>,
    path: Seq<char>,
    extracted: Seq<model::ExtractedView>,
    source: Seq<char>,
)
    requires
        messages.contains_key(source),
        !stale_sources(messages, path).contains(source),
    ensures
        ({
            let after = messages_after(locales, messages, catalogs, path, extracted);
            &&& after.contains_key(source)
            &&& messages[source].history.is_prefix_of(after[source].history)
        }),
{
    sources_after_extraction(locales, messages, catalogs, path, extracted);
    lemma_recorded_history(
        kept_messages(messages, path),
        extracted,
        past_of(locales, messages, catalogs, path),
        source,
    );
}

/// Over a whole extraction no history comes to tell of a source twice.
pub proof fn extraction_tells_once(
    locales: Seq<Seq<char>>,
    messages: Map<Seq<char>, model::MessageView>,
    catalogs: Seq<Map<Seq<char>, Seq<char>>>,
    path: Seq<char>,
    extracted: Seq<model::ExtractedView>,
    source: Seq<char>,
)
    requires
        messages.contains_key(source) ==> tells_once(messages[source].history),
    ensures
        tells_once(
            history_of(messages_after(locales, messages, catalogs, path, extracted), source),
        ),
{
    lemma_recorded_history(
        kept_messages(messages, path),
        extracted,
        past_of(locales, messages, catalogs, path),
        source,
    );
}

/// What a whole extraction adds to the history of a text is another text, with its
/// fingerprint and the translations that it had, and one that stood in the scanned
/// file under an anchor where the text was found. A message that occurs in no other
/// file starts with an empty history.
pub proof fn extraction_adds_replaced_texts(
    locales: Seq<Seq<char>>,
    messages: Map<Seq<char>, model::MessageView>,
    catalogs: Seq<Map<Seq<char>, Seq<char>>>,
    path: Seq<char>,
    extracted: Seq<model::ExtractedView>,
    source: Seq<char>,
    k: int,
)
    requires
        messages.dom().finite(),
        history_of(kept_messages(messages, path), source).len() <= k < history_of(
            messages_after(locales, messages, catalogs, path, extracted),
            source,
        ).len(),
    ensures
        ({
            let past = past_of(locales, messages, catalogs, path);
            let entry = history_of(
                messages_after(locales, messages, catalogs, path, extracted),
                source,
            )[k];
            &&& faithful(entry, source, past)
            &&& messages.contains_key(entry.source)
            &&& exists|i: int, j: int|
                {
                    &&& #[trigger] takes_place_of(extracted, i, j, source, entry.source, past)
                    &&& has_anchor(
                        messages[entry.source].occurrences,
                        path,
                        extracted[i].occurrences[j].anchor->0,
                    )
                }
        }),
{
    let past = past_of(locales, messages, catalogs, path);
    lemma_recorded_history(kept_messages(messages, path), extracted, past, source);
    let entry = history_of(
        messages_after(locales, messages, catalogs, path, extracted),
        source,
    )[k];
    let (i, j) = choose|i: int, j: int|
        takes_place_of(extracted, i, j, source, entry.source, past);
    let anchor = extracted[i].occurrences[j].anchor->0;
    string_map::lemma_greatest(anchored_sources(messages, path, anchor));
    assert(anchored_sources(messages, path, anchor).contains(entry.source));
    assert(takes_place_of(extracted, i, j, source, entry.source, past));
}

/// Of a list of occurrences, those stay whose path is not the scanned one, each of
/// them and in their order.
pub proof fn occurrences_elsewhere_stay(
    occurrences: Seq<model::OccurrenceView>,
    last: model::OccurrenceView,
    path: Seq<char>,
)
    ensures
        elsewhere(Seq::empty(), path) == Seq::<model::OccurrenceView>::empty(),
        path::same_path(last.path, path) ==> elsewhere(occurrences.push(last), path) == elsewhere(
            occurrences,
            path,
        ),
        !path::same_path(last.path, path) ==> elsewhere(occurrences.push(last), path) == elsewhere(
            occurrences,
            path,
        ).push(last),
{
    reveal(Seq::filter);
    occurrences.lemma_filter_push(
        last,
        |o: model::OccurrenceView| !path::same_path(o.path, path),
    );
    assert(elsewhere(Seq::empty(), path) =~= Seq::<model::OccurrenceView>::empty());
}

proof fn lemma_elsewhere_empty(occurrences: Seq<model::OccurrenceView>, path: Seq<char>)
    ensures
        elsewhere(occurrences, path).len() == 0 <==> forall|i: int|
            0 <= i < occurrences.len() ==> path::same_path((#[trigger] occurrences[i]).path, path),
    decreases occurrences.len(),
{
    if occurrences.len() == 0 {
        occurrences_elsewhere_stay(
            occurrences,
            model::OccurrenceView { path, line: 0, column: 0, symbol: None, anchor: None },
            path,
        );
        assert(occurrences =~= Seq::empty());
    } else {
        let front = occurrences.drop_last();
        let last = occurrences[occurrences.len() - 1];
        assert(front.push(last) =~= occurrences);
        occurrences_elsewhere_stay(front, last, path);
        lemma_elsewhere_empty(front, path);
        assert(forall|i: int| 0 <= i < front.len() ==> front[i] == occurrences[i]);
        if elsewhere(occurrences, path).len() == 0 {
            assert forall|i: int| 0 <= i < occurrences.len() implies path::same_path(
                (#[trigger] occurrences[i]).path,
                path,
            ) by {
                if i < front.len() {
                    assert(path::same_path(front[i].path, path));
                }
            }
        }
        if forall|i: int|
            0 <= i < occurrences.len() ==> path::same_path((#[trigger] occurrences[i]).path, path) {
            assert forall|i: int| 0 <= i < front.len() implies path::same_path(
                (#[trigger] front[i]).path,
                path,
            ) by {
                assert(front[i] == occurrences[i]);
            }
            assert(path::same_path(occurrences[occurrences.len() - 1].path, path));
        }
    }
}

/// A message is stale exactly if each of its occurrences is in the scanned file, and
/// kept exactly if it has one in another.
pub proof fn stale_iff_only_in_scanned_file(
    messages: Map<Seq<char>, model::MessageView>,
    path: Seq<char>,
    k: Seq<char>,
)
    ensures
        stale_sources(messages, path).contains(k) <==> messages.contains_key(k) && forall|i: int|
            0 <= i < messages[k].occurrences.len() ==> path::same_path(
                (#[trigger] messages[k].occurrences[i]).path,
                path,
            ),
        kept_messages(messages, path).contains_key(k) <==> messages.contains_key(k) && exists|
            i: int,
        |
            0 <= i < messages[k].occurrences.len() && !path::same_path(
                (#[trigger] messages[k].occurrences[i]).path,
                path,
            ),
{
    lemma_elsewhere_empty(messages[k].occurrences, path);
}

/// The extracted sources are those of the extracted texts.
pub proof fn extracted_sources_are_those_extracted(
    extracted: Seq<model::ExtractedView>,
    k: Seq<char>,
)
    ensures
        extracted_sources(extracted).contains(k) <==> exists|i: int|
            0 <= i < extracted.len() && (#[trigger] extracted[i]).source == k,
{
    let sources = Seq::new(extracted.len(), |i: int| extracted[i].source);
    if extracted_sources(extracted).contains(k) {
        let i = sources.index_of(k);
        assert(sources[i] == k);
        assert(extracted[i].source == k);
    }
    if exists|i: int| 0 <= i < extracted.len() && (#[trigger] extracted[i]).source == k {
        let i = choose|i: int| 0 <= i < extracted.len() && (#[trigger] extracted[i]).source == k;
        assert(sources[i] == k);
        assert(sources.contains(k));
    }
}

/// Under an anchor of the scanned file stood a text that has it there, and of
/// several the last one in order.
pub proof fn anchors_lead_to_their_texts(
    messages: Map<Seq<char>, model::MessageView>,
    path: Seq<char>,
    anchor: Seq<char>,
    k: Seq<char>,
    i: int,
)
    requires
        messages.dom().finite(),
    ensures
        ({
            let prior = prior_sources(messages, path);
            &&& messages.contains_key(k) && 0 <= i < messages[k].occurrences.len()
                && path::same_path(messages[k].occurrences[i].path, path)
                && messages[k].occurrences[i].anchor == Some(anchor) ==> prior.contains_key(anchor)
                && !text::text_lt(prior[anchor], k)
            &&& prior.contains_key(anchor) ==> messages.contains_key(prior[anchor]) && exists|
                j: int,
            |
                0 <= j < messages[prior[anchor]].occurrences.len() && path::same_path(
                    (#[trigger] messages[prior[anchor]].occurrences[j]).path,
                    path,
                ) && messages[prior[anchor]].occurrences[j].anchor == Some(anchor)
        }),
{
    let prior = prior_sources(messages, path);
    let all = anchored_sources(messages, path, anchor);
    if messages.contains_key(k) && 0 <= i < messages[k].occurrences.len() && path::same_path(
        messages[k].occurrences[i].path,
        path,
    ) && messages[k].occurrences[i].anchor == Some(anchor) {
        assert(has_anchor(messages[k].occurrences, path, anchor));
        assert(all.contains(k));
        assert(all != Set::<Seq<char>>::empty());
        string_map::first_and_last(all, k);
    }
    if prior.contains_key(anchor) {
        string_map::lemma_greatest(all);
        assert(all.contains(prior[anchor]));
        assert(has_anchor(messages[prior[anchor]].occurrences, path, anchor));
    }
}

/// A text has, for each locale, the entry of that locale's catalog, where there is
/// one, and nothing else.
pub proof fn translations_are_catalog_entries(
    locales: Seq<Seq<char>>,
    catalogs: Seq<Map<Seq<char>, Seq<char>>>,
    source: Seq<char>,
    i: int,
    l: Seq<char>,
)
    requires
        locales.len() == catalogs.len(),
        forall|a: int, b: int|
            0 <= a < b < locales.len() ==> #[trigger] locales[a] != #[trigger] locales[b],
        0 <= i < locales.len(),
    ensures
        translations(locales, catalogs, source).contains_key(locales[i])
            <==> catalogs[i].contains_key(source),
        catalogs[i].contains_key(source) ==> translations(locales, catalogs, source)[locales[i]]
            == catalogs[i][source],
        translations(locales, catalogs, source).contains_key(l) ==> locales.contains(l),
{
    assert(locales.contains(locales[i]));
    let j = locales.index_of(locales[i]);
    assert(locales[j] == locales[i]);
    assert(j == i);
}

/// What one more occurrence adds to a history: if another text stood under its
/// anchor that the history does not tell of, that text at the end, with its
/// fingerprint and the translations that it had; otherwise nothing.
pub proof fn each_occurrence_adds_what_stood_there(
    history: Seq<model::PreviousSourceView>,
    source: Seq<char>,
    occurrences: Seq<model::OccurrenceView>,
    last: model::OccurrenceView,
    past: Past,
)
    ensures
        history_after(history, source, Seq::empty(), past) == history,
        ({
            let before = history_after(history, source, occurrences, past);
            let after = history_after(history, source, occurrences.push(last), past);
            match last.anchor {
                Some(anchor) if past.prior.contains_key(anchor) && past.prior[anchor] != source && (
                forall|i: int|
                    0 <= i < before.len() ==> (#[trigger] before[i]).source
                        != past.prior[anchor]) => {
                    &&& after.len() == before.len() + 1
                    &&& after.take(before.len() as int) == before
                    &&& after[before.len() as int].source == past.prior[anchor]
                    &&& after[before.len() as int].source_hash == digest::source_hash(
                        past.prior[anchor],
                    )
                    &&& after[before.len() as int].translations == translations(
                        past.locales,
                        past.catalogs,
                        past.prior[anchor],
                    )
                },
                _ => after == before,
            }
        }),
{
    let all = occurrences.push(last);
    assert(all.drop_last() =~= occurrences);
    let before = history_after(history, source, occurrences, past);
    let after = history_after(history, source, all, past);
    if let Some(anchor) = last.anchor {
        if past.prior.contains_key(anchor) && past.prior[anchor] != source && !remembers(
            before,
            past.prior[anchor],
        ) {
            assert(after.take(before.len() as int) =~= before);
        }
    }
}

/// Without any extracted text, the messages with an occurrence in another file are
/// left, with their source text, fingerprint and history, and those occurrences.
pub proof fn extraction_of_nothing(
    locales: Seq<Seq<char>>,
    messages: Map<Seq<char>, model::MessageView>,
    catalogs: Seq<Map<Seq<char>, Seq<char>>>,
    path: Seq<char>,
    k: Seq<char>,
)
    ensures
        ({
            let after = messages_after(locales, messages, catalogs, path, Seq::empty());
            &&& after.contains_key(k) <==> messages.contains_key(k) && exists|i: int|
                0 <= i < messages[k].occurrences.len() && !path::same_path(
                    (#[trigger] messages[k].occurrences[i]).path,
                    path,
                )
            &&& after.contains_key(k) ==> {
                &&& after[k].source == messages[k].source
                &&& after[k].source_hash == messages[k].source_hash
                &&& after[k].occurrences == elsewhere(messages[k].occurrences, path)
                &&& after[k].history == messages[k].history
            }
        }),
{
    stale_iff_only_in_scanned_file(messages, path, k);
}

/// One more extracted text changes the message of that text only. It is recorded
/// under the text, with its fingerprint and the places where it was found, and its
/// history goes on from the one that it had, or from an empty one.
pub proof fn each_extracted_text_is_recorded(
    locales: Seq<Seq<char>>,
    messages: Map<Seq<char>, model::MessageView>,
    catalogs: Seq<Map<Seq<char>, Seq<char>>>,
    path: Seq<char>,
    extracted: Seq<model::ExtractedView>,
    last: model::ExtractedView,
    k: Seq<char>,
)
    ensures
        ({
            let before = messages_after(locales, messages, catalogs, path, extracted);
            let after = messages_after(locales, messages, catalogs, path, extracted.push(last));
            let past = Past { prior: prior_sources(messages, path), locales, catalogs };
            &&& k != last.source ==> after.contains_key(k) == before.contains_key(k)
            &&& k != last.source && before.contains_key(k) ==> after[k] == before[k]
            &&& after.contains_key(last.source)
            &&& after[last.source].source == last.source
            &&& after[last.source].source_hash == digest::source_hash(last.source)
            &&& after[last.source].occurrences == last.occurrences
            &&& before.contains_key(last.source) ==> after[last.source].history == history_after(
                before[last.source].history,
                last.source,
                last.occurrences,
                past,
            )
            &&& !before.contains_key(last.source) ==> after[last.source].history == history_after(
                Seq::empty(),
                last.source,
                last.occurrences,
                past,
            )
        }),
{
    let all = extracted.push(last);
    assert(all.drop_last() =~= extracted);
    assert(all.last() == last);
}

/// After an extraction a catalog has its former entries, except for those of stale
/// messages, and an empty one for each message that has no other.
pub proof fn catalogs_are_refreshed(
    catalog: Map<Seq<char>, Seq<char>>,
    stale: Set<Seq<char>>,
    known: Set<Seq<char>>,
    k: Seq<char>,
)
    ensures
        ({
            let after = refreshed(catalog, stale, known);
            &&& catalog.contains_key(k) && !stale.contains(k) ==> after.contains_key(k) && after[k]
                == catalog[k]
            &&& !(catalog.contains_key(k) && !stale.contains(k)) && known.contains(k)
                ==> after.contains_key(k) && after[k].len() == 0
            &&& !(catalog.contains_key(k) && !stale.contains(k)) && !known.contains(k)
                ==> !after.contains_key(k)
        }),
{
}

} // verus!
