use tfm_core::model::{Message, Occurrence};
use tfm_core::{
    apply_extraction, check_project, init_project, Catalog, CheckReport, Config,
    ExtractedMessage, FileError, LocaleError, ProjectError, ProjectFiles, State, StringMap,
    CONFIG_PATH, STATE_PATH,
};

fn catalog(entries: &[(&str, &str)]) -> Catalog {
    let mut catalog: Catalog = StringMap::new();
    for (source, translation) in entries {
        catalog.insert(source.to_string(), translation.to_string());
    }
    catalog
}

fn state(sources: &[&str]) -> State {
    let mut messages = StringMap::new();
    for source in sources {
        messages.insert(
            source.to_string(),
            Message {
                source: source.to_string(),
                source_hash: String::new(),
                occurrences: vec![Occurrence {
                    path: "src/main.rs".into(),
                    line: 1,
                    column: 1,
                    symbol: None,
                    anchor: None,
                }],
                history: vec![],
            },
        );
    }
    State { version: 1, messages }
}

fn config(locales: &[&str]) -> Config {
    Config {
        version: 1,
        source_locale: "en".into(),
        required_locales: locales.iter().map(|l| l.to_string()).collect(),
    }
}

fn files(locales: &[&str], sources: &[&str], catalogs: Vec<Catalog>) -> ProjectFiles {
    ProjectFiles {
        config: Ok(config(locales)),
        state: Ok(state(sources)),
        english_catalog_path: "locales/en.yml".into(),
        english_catalog_exists: false,
        catalogs: catalogs.into_iter().map(Ok).collect(),
    }
}

#[test]
fn paths_of_the_project_files() {
    assert_eq!(CONFIG_PATH, ".l10n/config.yml");
    assert_eq!(STATE_PATH, ".l10n/state.yml");
}

#[test]
fn a_new_project_has_target_catalogs_only() {
    let project =
        init_project(false, ".l10n/config.yml", &["uk".into(), "pl".into()]).unwrap();
    assert_eq!(project.directories, vec![".l10n", ".l10n/plugins", "locales"]);
    assert_eq!(project.config, config(&["uk", "pl"]));
    assert_eq!(project.state, state(&[]));
    let paths: Vec<&str> = project.catalogs.iter().map(|c| c.0.as_str()).collect();
    assert_eq!(paths, vec!["locales/uk.yml", "locales/pl.yml"]);
    assert!(project.catalogs.iter().all(|c| c.1.len() == 0));
}

#[test]
fn a_new_project_passes_the_check() {
    let project = init_project(false, "config", &["uk".into(), "pl".into()]).unwrap();
    let report = check_project(&ProjectFiles {
        config: Ok(project.config),
        state: Ok(project.state),
        english_catalog_path: "locales/en.yml".into(),
        english_catalog_exists: false,
        catalogs: project.catalogs.into_iter().map(|c| Ok(c.1)).collect(),
    });
    assert_eq!(report, Ok(CheckReport { message_count: 0, catalog_count: 2 }));
}

#[test]
fn an_existing_project_is_not_overwritten() {
    let error = init_project(true, "x/.l10n/config.yml", &["uk".into()]).unwrap_err();
    assert_eq!(
        error.message(),
        "x/.l10n/config.yml already exists; refusing to overwrite a TFM project"
    );
    let error = init_project(true, "x", &[]).unwrap_err();
    assert_eq!(error, ProjectError::Locales(LocaleError::NoLocales));
}

#[test]
fn a_complete_project_is_valid() {
    let report = check_project(&files(
        &["uk", "pl"],
        &["Open", "Save"],
        vec![catalog(&[("Save", "S"), ("Open", "O")]), catalog(&[("Save", "T")])],
    ));
    assert_eq!(report, Ok(CheckReport { message_count: 2, catalog_count: 2 }));
}

#[test]
fn other_schemas_are_refused() {
    let mut project = files(&["uk"], &[], vec![catalog(&[])]);
    project.config.as_mut().unwrap().version = 20;
    let error = check_project(&project).unwrap_err();
    assert_eq!(error, ProjectError::ConfigVersion(20));
    assert_eq!(error.message(), "unsupported config schema version 20");

    let mut project = files(&["uk"], &[], vec![catalog(&[])]);
    project.state.as_mut().unwrap().version = 0;
    let error = check_project(&project).unwrap_err();
    assert_eq!(error, ProjectError::StateVersion(0));
    assert_eq!(error.message(), "unsupported state schema version 0");
}

#[test]
fn the_source_locale_must_be_english() {
    let mut project = files(&["uk"], &[], vec![catalog(&[])]);
    project.config.as_mut().unwrap().source_locale = "de".into();
    let error = check_project(&project).unwrap_err();
    assert_eq!(error, ProjectError::SourceLocale);
    assert_eq!(
        error.message(),
        "source_locale must be `en`; English source text lives in code, not a catalog"
    );
}

#[test]
fn target_locales_are_checked() {
    let project = files(&["en"], &[], vec![catalog(&[])]);
    let error = check_project(&project).unwrap_err();
    assert_eq!(error, ProjectError::Locales(LocaleError::English));
    assert!(error.message().contains("source text"));
}

#[test]
fn an_english_catalog_is_refused() {
    let mut project = files(&["uk"], &[], vec![catalog(&[("x", "y")])]);
    project.english_catalog_exists = true;
    let error = check_project(&project).unwrap_err();
    assert_eq!(
        error.message(),
        "locales/en.yml must not exist; English is the source in code"
    );
}

#[test]
fn the_first_unknown_key_is_reported() {
    let project = files(
        &["uk", "pl"],
        &["Save"],
        vec![
            catalog(&[("Save", "S")]),
            catalog(&[("A", ""), ("Save", ""), ("Z", ""), ("B", "b")]),
        ],
    );
    let error = check_project(&project).unwrap_err();
    assert_eq!(
        error,
        ProjectError::UnknownKey { locale: "pl".into(), key: "A".into() }
    );
    assert_eq!(
        error.message(),
        "locales/pl.yml contains `A`, which is absent from .l10n/state.yml"
    );
}

#[test]
fn the_first_blank_translation_is_reported() {
    let project = files(
        &["uk"],
        &["A", "B", "C"],
        vec![catalog(&[("A", "a"), ("C", ""), ("B", " \n")])],
    );
    let error = check_project(&project).unwrap_err();
    assert_eq!(
        error,
        ProjectError::MissingTranslation { locale: "uk".into(), key: "B".into() }
    );
    assert_eq!(
        error.message(),
        "locales/uk.yml is missing a translation for `B`"
    );
}

#[test]
fn unreadable_files_are_reported_in_turn() {
    let unreadable = |name: &str| FileError { message: format!("read {}", name) };
    let mut project = files(&["uk", "pl"], &[], vec![catalog(&[("x", "y")])]);
    project.catalogs.push(Err(unreadable("pl")));
    assert_eq!(
        check_project(&project).unwrap_err(),
        ProjectError::UnknownKey { locale: "uk".into(), key: "x".into() }
    );
    project.catalogs[0] = Ok(catalog(&[]));
    assert_eq!(check_project(&project).unwrap_err().message(), "read pl");
    project.state = Err(unreadable("state"));
    assert_eq!(check_project(&project).unwrap_err().message(), "read state");
    project.config.as_mut().unwrap().version = 2;
    assert_eq!(check_project(&project).unwrap_err(), ProjectError::ConfigVersion(2));
    project.config = Err(unreadable("config"));
    assert_eq!(check_project(&project).unwrap_err().message(), "read config");
}

#[test]
fn a_new_message_awaits_its_translation() {
    let catalogs = vec![catalog(&[("Save", "Zapisz")]), catalog(&[("Save", "Зберегти")])];
    let before = files(&["pl", "uk"], &["Save"], catalogs.clone());
    assert!(check_project(&before).is_ok());
    let result = apply_extraction(
        &config(&["pl", "uk"]),
        &state(&["Save"]),
        &catalogs,
        "src/other.rs",
        vec![ExtractedMessage { source: "Open".into(), occurrences: vec![] }],
    );
    assert_eq!(result.report.added, 1);
    let after = ProjectFiles {
        state: Ok(result.state),
        catalogs: result.catalogs.into_iter().map(Ok).collect(),
        ..before
    };
    assert_eq!(
        check_project(&after),
        Err(ProjectError::MissingTranslation { locale: "pl".into(), key: "Open".into() })
    );
}
