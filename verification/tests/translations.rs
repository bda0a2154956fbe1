use tfm_core::digest::hex_sha256;
use tfm_core::project::{check_project, ProjectFiles};
use tfm_core::{
    apply_extraction, apply_translation_response, translation_plan, Catalog, Config,
    ExtractedMessage, Occurrence, State, StringMap, TranslatedMessage, TranslationError,
    TranslationReport, TranslationResponse,
};

fn catalog(entries: &[(&str, &str)]) -> Catalog {
    let mut catalog: Catalog = StringMap::new();
    for (source, translation) in entries {
        catalog.insert(source.to_string(), translation.to_string());
    }
    catalog
}

fn found(source: &str, line: u32, anchor: &str) -> ExtractedMessage {
    ExtractedMessage {
        source: source.into(),
        occurrences: vec![Occurrence {
            path: "src/a.rs".into(),
            line,
            column: 1,
            symbol: None,
            anchor: Some(anchor.into()),
        }],
    }
}

fn project() -> (Config, State, Vec<Catalog>) {
    let config = Config {
        version: 1,
        source_locale: "en".into(),
        required_locales: vec!["uk".into(), "pl".into()],
    };
    let start = apply_extraction(
        &config,
        &State { version: 1, messages: StringMap::new() },
        &vec![catalog(&[]), catalog(&[])],
        "src/a.rs",
        vec![found("Save", 1, "a1"), found("Open", 2, "a2")],
    );
    let catalogs = vec![
        catalog(&[("Open", "Відкрити"), ("Save", "Зберегти")]),
        catalog(&[("Open", ""), ("Save", " ")]),
    ];
    let next = apply_extraction(
        &config,
        &start.state,
        &catalogs,
        "src/a.rs",
        vec![found("Save changes", 1, "a1"), found("Open", 2, "a2")],
    );
    let mut catalogs = next.catalogs;
    catalogs[0].insert("Open".into(), "Відкрити".into());
    (config, next.state, catalogs)
}

fn entry(source: &str, locale: &str, translation: &str) -> TranslatedMessage {
    TranslatedMessage {
        source: source.into(),
        source_hash: hex_sha256(source),
        locale: locale.into(),
        translation: translation.into(),
    }
}

fn response(translations: Vec<TranslatedMessage>) -> TranslationResponse {
    TranslationResponse { version: 1, translations }
}

#[test]
fn a_plan_lists_missing_translations_only() {
    let (config, state, catalogs) = project();
    let plan = translation_plan(&config, &state, &catalogs, &vec![]).unwrap();
    assert_eq!(plan.version, 1);
    let tasks: Vec<(&str, &str)> =
        plan.tasks.iter().map(|t| (t.locale.as_str(), t.source.as_str())).collect();
    assert_eq!(
        tasks,
        vec![("uk", "Save changes"), ("pl", "Open"), ("pl", "Save changes")]
    );
    let task = &plan.tasks[0];
    assert_eq!(task.source_hash, hex_sha256("Save changes"));
    assert_eq!(task.occurrences.len(), 1);
    assert_eq!(task.occurrences[0].line, 1);
    assert_eq!(task.previous.len(), 1);
    assert_eq!(task.previous[0].source, "Save");
    assert_eq!(task.previous[0].translation, Some("Зберегти".into()));
    assert_eq!(plan.tasks[2].previous[0].source, "Save");
    assert_eq!(plan.tasks[2].previous[0].translation, None);
}

#[test]
fn a_plan_can_be_limited_to_some_locales() {
    let (config, state, catalogs) = project();
    let plan = translation_plan(&config, &state, &catalogs, &vec!["uk".into()]).unwrap();
    assert_eq!(plan.tasks.len(), 1);
    let error =
        translation_plan(&config, &state, &catalogs, &vec!["uk".into(), "de".into()]).unwrap_err();
    assert_eq!(error, TranslationError::UnknownLocale("de".into()));
    assert_eq!(error.message(), "locale `de` is not a target locale of this project");
}

#[test]
fn a_response_fills_the_catalogs() {
    let (config, state, catalogs) = project();
    let applied = apply_translation_response(
        &config,
        &state,
        &catalogs,
        &response(vec![
            entry("Save changes", "uk", "Зберегти зміни"),
            entry("Open", "uk", "Відкрити"),
            entry("Open", "pl", "Otwórz"),
            entry("Open", "pl", "Otwórz"),
        ]),
    )
    .unwrap();
    assert_eq!(applied.report, TranslationReport { applied: 2, already_applied: 2 });
    assert_eq!(
        applied.catalogs,
        vec![
            catalog(&[("Open", "Відкрити"), ("Save changes", "Зберегти зміни")]),
            catalog(&[("Open", "Otwórz"), ("Save changes", "")]),
        ]
    );
}

#[test]
fn an_answered_plan_makes_the_project_valid() {
    let (config, state, catalogs) = project();
    let plan = translation_plan(&config, &state, &catalogs, &vec![]).unwrap();
    let answers = response(
        plan.tasks
            .iter()
            .map(|t| TranslatedMessage {
                source: t.source.clone(),
                source_hash: t.source_hash.clone(),
                locale: t.locale.clone(),
                translation: format!("{} ({})", t.source, t.locale),
            })
            .collect(),
    );
    let applied = apply_translation_response(&config, &state, &catalogs, &answers).unwrap();
    assert_eq!(applied.report, TranslationReport { applied: 3, already_applied: 0 });
    let plan = translation_plan(&config, &state, &applied.catalogs, &vec![]).unwrap();
    assert!(plan.tasks.is_empty());
    let again = apply_translation_response(&config, &state, &applied.catalogs, &answers).unwrap();
    assert_eq!(again.report, TranslationReport { applied: 0, already_applied: 3 });
    assert_eq!(again.catalogs, applied.catalogs);
    let report = check_project(&ProjectFiles {
        config: Ok(config),
        state: Ok(state),
        english_catalog_path: "locales/en.yml".into(),
        english_catalog_exists: false,
        catalogs: applied.catalogs.into_iter().map(Ok).collect(),
    })
    .unwrap();
    assert_eq!(report.message_count, 2);
}

fn refused(translations: Vec<TranslatedMessage>) -> TranslationError {
    let (config, state, catalogs) = project();
    apply_translation_response(&config, &state, &catalogs, &response(translations)).unwrap_err()
}

#[test]
fn one_invalid_entry_refuses_the_response() {
    let good = || entry("Save changes", "uk", "Зберегти зміни");
    assert_eq!(
        refused(vec![good(), entry("Open", "de", "x")]),
        TranslationError::UnknownLocale("de".into())
    );
    let error = refused(vec![good(), entry("Save", "uk", "x")]);
    assert_eq!(
        error,
        TranslationError::UnknownSource { locale: "uk".into(), source: "Save".into() }
    );
    assert_eq!(
        error.message(),
        "translation of `Save` for uk is stale: the source text is absent from .l10n/state.yml"
    );
    let mut stale = entry("Open", "pl", "x");
    stale.source_hash = hex_sha256("Opened");
    let error = refused(vec![good(), stale]);
    assert_eq!(
        error,
        TranslationError::StaleSource { locale: "pl".into(), source: "Open".into() }
    );
    assert_eq!(
        error.message(),
        "translation of `Open` for pl is stale: the source hash does not match"
    );
    let error = refused(vec![entry("Open", "pl", " ")]);
    assert_eq!(error, TranslationError::Blank { locale: "pl".into(), source: "Open".into() });
    assert_eq!(error.message(), "translation of `Open` for pl is blank");
}

#[test]
fn conflicting_translations_are_refused() {
    let error = refused(vec![entry("Open", "uk", "Інше")]);
    assert_eq!(
        error,
        TranslationError::Conflict { locale: "uk".into(), source: "Open".into() }
    );
    assert_eq!(
        error.message(),
        "translation of `Open` for uk conflicts with an existing translation"
    );
    assert_eq!(
        refused(vec![entry("Open", "pl", "a"), entry("Open", "pl", "b")]),
        TranslationError::Conflict { locale: "pl".into(), source: "Open".into() }
    );
}

#[test]
fn other_response_versions_are_refused() {
    let (config, state, catalogs) = project();
    let error = apply_translation_response(
        &config,
        &state,
        &catalogs,
        &TranslationResponse { version: 2, translations: vec![entry("x", "y", "z")] },
    )
    .unwrap_err();
    assert_eq!(error, TranslationError::Version(2));
    assert_eq!(error.message(), "unsupported translation response version 2");
}
