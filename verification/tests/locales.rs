use tfm_core::{catalog_path, validate_requested_locales, LocaleError};

#[test]
fn rejects_english_as_a_target_catalog() {
    let error = validate_requested_locales(&["en".into()]).unwrap_err();
    assert!(error.message().contains("source text"));
}

#[test]
fn accepts_a_bcp47_style_target_locale() {
    validate_requested_locales(&["uk".into(), "pt-BR".into()]).unwrap();
}

#[test]
fn rejects_a_request_without_locales() {
    let error = validate_requested_locales(&[]).unwrap_err();
    assert_eq!(error, LocaleError::NoLocales);
    assert_eq!(
        error.message(),
        "at least one target locale is required (for example: --locale uk)"
    );
}

#[test]
fn rejects_text_that_is_no_tag() {
    for bad in ["", "pt_BR", "uk ", "фр", "../uk", "a.b"] {
        let error = validate_requested_locales(&["uk".into(), bad.into()]).unwrap_err();
        assert_eq!(error, LocaleError::Invalid(bad.into()));
    }
    assert_eq!(
        LocaleError::Invalid("pt_BR".into()).message(),
        "invalid locale `pt_BR`; use BCP 47-style tags such as uk or pt-BR"
    );
    validate_requested_locales(&["-".into(), "EN".into(), "0Az-9".into()]).unwrap();
}

#[test]
fn rejects_a_repeated_locale() {
    let error =
        validate_requested_locales(&["uk".into(), "pl".into(), "uk".into()]).unwrap_err();
    assert_eq!(error, LocaleError::Duplicate("uk".into()));
    assert_eq!(error.message(), "locale `uk` was specified more than once");
}

#[test]
fn reports_the_first_faulty_locale() {
    assert_eq!(
        validate_requested_locales(&["uk".into(), "uk".into(), "en".into()]).unwrap_err(),
        LocaleError::Duplicate("uk".into())
    );
    assert_eq!(
        validate_requested_locales(&["en".into(), "".into()]).unwrap_err(),
        LocaleError::English
    );
}

#[test]
fn catalogs_have_a_file_of_their_own() {
    assert_eq!(catalog_path("", "uk"), "locales/uk.yml");
    assert_eq!(catalog_path("", "pt-BR"), "locales/pt-BR.yml");
    assert_eq!(catalog_path("", "/abs"), "/abs.yml");
    assert_eq!(catalog_path("example", "uk"), "example/locales/uk.yml");
    assert_eq!(catalog_path("/srv/", "uk"), "/srv/locales/uk.yml");
}
