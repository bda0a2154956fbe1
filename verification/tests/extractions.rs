use tfm_core::digest::hex_sha256;
use tfm_core::{
    apply_extraction, Catalog, Config, ExtractedMessage, Extraction, ExtractionReport, Message,
    Occurrence, PreviousSource, State, StringMap,
};

fn catalog(entries: &[(&str, &str)]) -> Catalog {
    let mut catalog: Catalog = StringMap::new();
    for (source, translation) in entries {
        catalog.insert(source.to_string(), translation.to_string());
    }
    catalog
}

fn config(locales: &[&str]) -> Config {
    Config {
        version: 1,
        source_locale: "en".into(),
        required_locales: locales.iter().map(|l| l.to_string()).collect(),
    }
}

fn at(path: &str, line: u32, anchor: &str) -> Occurrence {
    Occurrence {
        path: path.into(),
        line,
        column: 4,
        symbol: Some("main".into()),
        anchor: if anchor.is_empty() { None } else { Some(anchor.into()) },
    }
}

fn found(source: &str, occurrences: Vec<Occurrence>) -> ExtractedMessage {
    ExtractedMessage { source: source.into(), occurrences }
}

fn empty() -> State {
    State { version: 1, messages: StringMap::new() }
}

fn message<'a>(result: &'a Extraction, source: &str) -> &'a Message {
    result.state.messages.get(source).unwrap()
}

#[test]
fn a_first_extraction_adds_untranslated_entries() {
    let result = apply_extraction(
        &config(&["uk", "pl"]),
        &empty(),
        &vec![catalog(&[]), catalog(&[])],
        "src/a.rs",
        vec![
            found("Save", vec![at("src/a.rs", 1, "a1")]),
            found("Open", vec![at("src/a.rs", 2, "a2"), at("src/a.rs", 9, "")]),
        ],
    );
    assert_eq!(result.report, ExtractionReport { added: 2, removed: 0 });
    assert_eq!(result.state.version, 1);
    assert_eq!(
        message(&result, "Open"),
        &Message {
            source: "Open".into(),
            source_hash: hex_sha256("Open"),
            occurrences: vec![at("src/a.rs", 2, "a2"), at("src/a.rs", 9, "")],
            history: vec![],
        }
    );
    let untranslated = catalog(&[("Open", ""), ("Save", "")]);
    assert_eq!(result.catalogs, vec![untranslated.clone(), untranslated]);
}

fn two_files() -> (Config, State, Vec<Catalog>) {
    let config = config(&["uk", "pl"]);
    let first = apply_extraction(
        &config,
        &empty(),
        &vec![catalog(&[]), catalog(&[])],
        "src/a.rs",
        vec![
            found("Save", vec![at("src/a.rs", 1, "a1")]),
            found("Open", vec![at("src/a.rs", 2, "a2")]),
        ],
    );
    let second = apply_extraction(
        &config,
        &first.state,
        &first.catalogs,
        "src/b.rs",
        vec![found("Close", vec![at("src/b.rs", 1, "b1")])],
    );
    assert_eq!(second.report, ExtractionReport { added: 1, removed: 0 });
    let mut uk = second.catalogs[0].clone();
    uk.insert("Save".into(), "Зберегти".into());
    uk.insert("Close".into(), "Закрити".into());
    let mut pl = second.catalogs[1].clone();
    pl.remove("Save");
    (config, second.state, vec![uk, pl])
}

#[test]
fn a_changed_text_remembers_the_one_before() {
    let (config, state, catalogs) = two_files();
    let result = apply_extraction(
        &config,
        &state,
        &catalogs,
        "./src/../src/a.rs",
        vec![found("Other", vec![at("src/a.rs", 1, "a1")])],
    );
    assert!(message(&result, "Other").history.is_empty());
    assert_eq!(result.report, ExtractionReport { added: 1, removed: 0 });

    let result = apply_extraction(
        &config,
        &state,
        &catalogs,
        "src//a.rs",
        vec![
            found("Save changes", vec![at("src/a.rs", 1, "a1"), at("src/a.rs", 5, "a1")]),
            found("Open", vec![at("src/a.rs", 2, "a2")]),
        ],
    );
    assert_eq!(result.report, ExtractionReport { added: 2, removed: 2 });
    let mut translations = StringMap::new();
    translations.insert("uk".into(), "Зберегти".into());
    assert_eq!(
        message(&result, "Save changes").history,
        vec![PreviousSource {
            source: "Save".into(),
            source_hash: hex_sha256("Save"),
            translations,
        }]
    );
    assert!(message(&result, "Open").history.is_empty());
    assert_eq!(
        result.catalogs[0],
        catalog(&[("Close", "Закрити"), ("Open", ""), ("Save changes", "")])
    );
    assert_eq!(
        result.catalogs[1],
        catalog(&[("Close", ""), ("Open", ""), ("Save changes", "")])
    );
}

#[test]
fn messages_of_other_files_stay() {
    let (config, state, catalogs) = two_files();
    let result = apply_extraction(&config, &state, &catalogs, "src/a.rs", vec![]);
    assert_eq!(result.report, ExtractionReport { added: 0, removed: 2 });
    assert_eq!(result.state.messages.len(), 1);
    assert_eq!(message(&result, "Close"), state.messages.get("Close").unwrap());
    assert_eq!(result.catalogs[0], catalog(&[("Close", "Закрити")]));
}

#[test]
fn a_text_found_only_in_the_scanned_file_starts_anew() {
    let (config, state, catalogs) = two_files();
    let result = apply_extraction(
        &config,
        &state,
        &catalogs,
        "src/a.rs",
        vec![found("Save", vec![at("src/a.rs", 7, "a1")])],
    );
    assert_eq!(result.report, ExtractionReport { added: 1, removed: 2 });
    assert_eq!(result.catalogs[0].get("Save").unwrap(), "");
    assert!(result.catalogs[0].get("Open").is_none());
}

#[test]
fn a_text_of_two_files_keeps_translations_and_history() {
    let (config, mut state, catalogs) = two_files();
    let mut shared = state.messages.get("Save").unwrap().clone();
    shared.occurrences.push(at("src/c.rs", 3, "c1"));
    shared.history.push(PreviousSource {
        source: "Old".into(),
        source_hash: "0".into(),
        translations: StringMap::new(),
    });
    state.messages.insert("Save".into(), shared.clone());

    let result = apply_extraction(&config, &state, &catalogs, "src/a.rs", vec![]);
    assert_eq!(message(&result, "Save").occurrences, vec![at("src/c.rs", 3, "c1")]);
    assert_eq!(message(&result, "Save").history, shared.history);
    assert_eq!(result.catalogs[0].get("Save").unwrap(), "Зберегти");

    let result = apply_extraction(
        &config,
        &state,
        &catalogs,
        "src/a.rs",
        vec![found("Save", vec![at("src/a.rs", 1, "a2"), at("src/a.rs", 2, "a1")])],
    );
    assert_eq!(result.report, ExtractionReport { added: 0, removed: 1 });
    assert_eq!(
        message(&result, "Save").occurrences,
        vec![at("src/a.rs", 1, "a2"), at("src/a.rs", 2, "a1")]
    );
    let sources: Vec<&str> =
        message(&result, "Save").history.iter().map(|h| h.source.as_str()).collect();
    assert_eq!(sources, vec!["Old", "Open"]);
    assert_eq!(result.catalogs[0].get("Save").unwrap(), "Зберегти");
}

#[test]
fn the_last_source_under_an_anchor_counts() {
    let config = config(&["uk"]);
    let start = apply_extraction(
        &config,
        &empty(),
        &vec![catalog(&[])],
        "a",
        vec![
            found("Z", vec![at("a", 1, "x")]),
            found("A", vec![at("a", 2, "x")]),
        ],
    );
    let result = apply_extraction(
        &config,
        &start.state,
        &start.catalogs,
        "a",
        vec![found("New", vec![at("a", 1, "x")])],
    );
    assert_eq!(message(&result, "New").history.len(), 1);
    assert_eq!(message(&result, "New").history[0].source, "Z");
}

#[test]
fn a_text_extracted_twice_counts_once() {
    let config = config(&["uk"]);
    let result = apply_extraction(
        &config,
        &empty(),
        &vec![catalog(&[("Unknown", "kept")])],
        "a",
        vec![
            found("A", vec![at("a", 1, "x")]),
            found("B", vec![at("a", 2, "y")]),
            found("A", vec![at("a", 3, "z")]),
        ],
    );
    assert_eq!(result.report, ExtractionReport { added: 2, removed: 0 });
    assert_eq!(message(&result, "A").occurrences, vec![at("a", 3, "z")]);
    assert_eq!(
        result.catalogs[0],
        catalog(&[("A", ""), ("B", ""), ("Unknown", "kept")])
    );
}

#[test]
fn messages_without_occurrences_are_stale() {
    let mut state = empty();
    state.messages.insert(
        "Lost".into(),
        Message {
            source: "Lost".into(),
            source_hash: String::new(),
            occurrences: vec![],
            history: vec![],
        },
    );
    let result = apply_extraction(
        &config(&["uk"]),
        &state,
        &vec![catalog(&[("Lost", "x")])],
        "a",
        vec![],
    );
    assert_eq!(result.report, ExtractionReport { added: 0, removed: 1 });
    assert_eq!(result.catalogs[0].len(), 0);
    assert_eq!(State::default().version, 0);
    assert_eq!(State::default().messages.len(), 0);
}

#[test]
fn occurrences_compare_paths_by_their_components() {
    assert_eq!(at("src/a.rs", 1, "a1"), at("src//a.rs", 1, "a1"));
    assert_eq!(at("src/./a.rs/", 1, ""), at("src/a.rs", 1, ""));
    assert_ne!(at("./src/a.rs", 1, "a1"), at("src/a.rs", 1, "a1"));
    assert_ne!(at("src/a.rs", 1, "a1"), at("src/a.rs", 2, "a1"));
    assert_ne!(at("src/a.rs", 1, "a1"), at("src/a.rs", 1, "a2"));
    assert_ne!(at("src/a.rs", 1, "a1"), at("src/a.rs", 1, ""));
    let mut other = at("src/a.rs", 1, "a1");
    other.column = 5;
    assert_ne!(at("src/a.rs", 1, "a1"), other);
    let mut other = at("src/a.rs", 1, "a1");
    other.symbol = None;
    assert_ne!(at("src/a.rs", 1, "a1"), other);
    assert_eq!(
        found("Save", vec![at("src//a.rs", 1, "a1")]),
        found("Save", vec![at("src/a.rs", 1, "a1")])
    );
}

#[test]
fn a_message_of_two_files_keeps_its_history() {
    let config = config(&["uk"]);
    let places = vec![at("src/a.rs", 1, "a1"), at("src/b.rs", 1, "b1")];
    let first = apply_extraction(
        &config,
        &empty(),
        &vec![catalog(&[])],
        "src/b.rs",
        vec![
            found("Old", vec![at("src/b.rs", 1, "b1")]),
            found("Older", vec![at("src/b.rs", 2, "b2")]),
        ],
    );
    let second = apply_extraction(
        &config,
        &first.state,
        &first.catalogs,
        "src/b.rs",
        vec![found("New", places.clone())],
    );
    let history = message(&second, "New").history.clone();
    assert_eq!(history.len(), 1);
    assert_eq!(history[0].source, "Old");

    let third = apply_extraction(&config, &second.state, &second.catalogs, "src/b.rs", vec![]);
    assert_eq!(third.report, ExtractionReport { added: 0, removed: 0 });
    assert_eq!(
        message(&third, "New"),
        &Message {
            source: "New".into(),
            source_hash: hex_sha256("New"),
            occurrences: vec![places[0].clone()],
            history: history.clone(),
        }
    );

    let again = apply_extraction(
        &config,
        &second.state,
        &second.catalogs,
        "src/b.rs",
        vec![
            found("Newer", vec![at("src/b.rs", 1, "b1")]),
            found("New", places),
        ],
    );
    assert_eq!(message(&again, "New").history, history);
    assert_eq!(message(&again, "Newer").history[0].source, "New");
}
