use tfm_core::runtime::{catalog_from_entries, load_catalog_entries, new_runtime};
use tfm_core::{
    activate_locale, load_catalog_file, load_catalog_yaml, replace_catalog, translate,
    translate_with_args, Catalog, CatalogError, RuntimeState, StringMap,
};

fn catalog(entries: &[(&str, &str)]) -> Catalog {
    let mut catalog: Catalog = StringMap::new();
    for (source, translation) in entries {
        catalog.insert(source.to_string(), translation.to_string());
    }
    catalog
}

#[test]
fn translates_from_the_active_catalog_and_falls_back_to_source() {
    let mut runtime = new_runtime();
    load_catalog_yaml(&mut runtime, "uk".into(), "Save: Зберегти\n").unwrap();
    activate_locale(&mut runtime, "uk".into());

    assert_eq!(translate(&runtime, "Save"), "Зберегти");
    assert_eq!({ translate(&runtime, "Save") }, "Зберегти");
    assert_eq!(translate(&runtime, "Cancel"), "Cancel");
}

#[test]
fn substitutes_named_template_arguments_after_translation() {
    let mut runtime = new_runtime();
    load_catalog_yaml(
        &mut runtime,
        "uk".into(),
        "\"YAML: {name}\": \"YAML: {name}\"\n",
    )
    .unwrap();
    activate_locale(&mut runtime, "uk".into());

    assert_eq!(
        translate_with_args(&runtime, "YAML: {name}", &[("name", "config.yml".into())]),
        "YAML: config.yml"
    );
    assert_eq!(
        translate_with_args(
            &runtime,
            "YAML: {name}",
            &[("name", format!("{}", "config.yml"))]
        ),
        "YAML: config.yml"
    );
}

#[test]
fn source_text_without_an_active_locale() {
    let mut runtime = RuntimeState::default();
    replace_catalog(&mut runtime, "uk".into(), catalog(&[("Save", "Зберегти")]));
    assert_eq!(translate(&runtime, "Save"), "Save");
    activate_locale(&mut runtime, "uk".into());
    assert_eq!(translate(&runtime, "Save"), "Зберегти");
    activate_locale(&mut runtime, "pl".into());
    assert_eq!(translate(&runtime, "Save"), "Save");
}

#[test]
fn an_untranslated_entry_shows_the_source_text() {
    let mut runtime = new_runtime();
    replace_catalog(
        &mut runtime,
        "uk".into(),
        catalog(&[("Save", ""), ("Open", " \u{3000}")]),
    );
    activate_locale(&mut runtime, "uk".into());
    assert_eq!(translate(&runtime, "Save"), "Save");
    assert_eq!(translate(&runtime, "Open"), "Open");
}

#[test]
fn replacing_a_catalog_keeps_the_active_locale() {
    let mut runtime = new_runtime();
    activate_locale(&mut runtime, "uk".into());
    replace_catalog(&mut runtime, "uk".into(), catalog(&[("Save", "A")]));
    replace_catalog(&mut runtime, "pl".into(), catalog(&[("Save", "B")]));
    assert_eq!(translate(&runtime, "Save"), "A");
    replace_catalog(&mut runtime, "uk".into(), catalog(&[("Open", "C")]));
    assert_eq!(translate(&runtime, "Save"), "Save");
    assert_eq!(translate(&runtime, "Open"), "C");
}

#[test]
fn malformed_yaml_is_reported_and_changes_nothing() {
    let mut runtime = new_runtime();
    activate_locale(&mut runtime, "uk".into());
    load_catalog_yaml(&mut runtime, "uk".into(), "Save: A\n").unwrap();
    let error = load_catalog_yaml(&mut runtime, "uk".into(), "- a\n- b\n").unwrap_err();
    assert!(matches!(error, CatalogError::Parse { .. }));
    assert!(error.message().starts_with("parse target locale catalog: "));
    assert!(error.message().contains("invalid type: sequence"));
    assert_eq!(translate(&runtime, "Save"), "A");
}

#[test]
fn catalog_files_load_what_was_read() {
    let mut runtime = new_runtime();
    activate_locale(&mut runtime, "uk".into());
    load_catalog_file(
        &mut runtime,
        "uk".into(),
        "locales/uk.yml",
        Ok("Save: Зберегти\nOpen: Відкрити\n".into()),
    )
    .unwrap();
    assert_eq!(translate(&runtime, "Open"), "Відкрити");

    let error = load_catalog_file(
        &mut runtime,
        "uk".into(),
        "locales/uk.yml",
        Err("no such file".into()),
    )
    .unwrap_err();
    assert!(matches!(error, CatalogError::Read { .. }));
    assert_eq!(error.message(), "read locales/uk.yml: no such file");
    assert_eq!(translate(&runtime, "Open"), "Відкрити");
}

#[test]
fn parsed_entries_become_a_catalog() {
    let entries: Vec<(String, String)> = vec![
        ("b".into(), "1".into()),
        ("a".into(), "2".into()),
        ("b".into(), "3".into()),
    ];
    let catalog = catalog_from_entries(&entries);
    assert_eq!(catalog.len(), 2);
    assert_eq!(catalog.get("b").unwrap(), "3");

    let mut runtime = new_runtime();
    activate_locale(&mut runtime, "uk".into());
    load_catalog_entries(&mut runtime, "uk".into(), Ok(entries)).unwrap();
    assert_eq!(translate(&runtime, "a"), "2");
}

#[test]
fn arguments_are_substituted_one_after_the_other() {
    let runtime = new_runtime();
    assert_eq!(
        translate_with_args(
            &runtime,
            "{a}{a} {b} {c}",
            &[("a", "{b}".into()), ("b", "x".into())]
        ),
        "xx x {c}"
    );
    assert_eq!(translate_with_args(&runtime, "{a}", &[]), "{a}");
    assert_eq!(
        translate_with_args(&runtime, "{{a}}", &[("a", "1".into())]),
        "{1}"
    );
    assert_eq!(
        translate_with_args(&runtime, "{}", &[("", "empty".into())]),
        "empty"
    );
    assert_eq!(
        translate_with_args(&runtime, "Привіт, {name}!", &[("name", "Оля".into())]),
        "Привіт, Оля!"
    );
}

#[test]
fn unknown_placeholders_stay_visible() {
    let runtime = new_runtime();
    assert_eq!(
        translate_with_args(
            &runtime,
            "{known} and {unknown}",
            &[("known", "{x}".into())]
        ),
        "{x} and {unknown}"
    );
}
