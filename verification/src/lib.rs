//! Git-native localization: the project model, its checks, extraction of source
//! texts, translation plans, and lookup at run time.
//!
//! English is the source text in code. A project has a configuration, a state
//! that records every message with its occurrences, and one catalog for each
//! target locale. The modules work on these as values; reading and writing files
//! is left to the program around them.

pub mod digest;
pub mod extraction;
pub mod locale;
pub mod model;
pub mod path;
pub mod plugin;
pub mod project;
pub mod runtime;
pub mod string_map;
pub mod template;
pub mod text;
pub mod translation;

pub use extraction::{apply_extraction, Extraction};
pub use locale::{catalog_path, validate_requested_locales, LocaleError};
pub use model::{
    Catalog, CheckReport, Config, ExtractedMessage, ExtractionReport, Message, Occurrence,
    PreviousSource, State, CONFIG_PATH, STATE_PATH,
};
pub use project::{
    check_project, init_project, FileError, NewProject, ProjectError, ProjectFiles,
};
pub use runtime::{
    activate_locale, load_catalog_file, load_catalog_yaml, replace_catalog, translate,
    translate_with_args, CatalogError, RuntimeState,
};
pub use string_map::StringMap;
pub use translation::{
    apply_translation_response, translation_plan, TranslatedMessage, TranslationError,
    TranslationPlan, TranslationReport, TranslationResponse,
};
