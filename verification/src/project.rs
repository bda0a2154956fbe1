//! Creating a project and checking one.

use vstd::prelude::*;

use crate::extraction;
use crate::locale;
use crate::locale::LocaleError;
use crate::model;
use crate::model::{Catalog, CheckReport, Config, State};
use crate::string_map;
use crate::string_map::StringMap;
use crate::text;

verus! {

/// Why a file of the project could not be read or understood.
#[derive(Debug, PartialEq, Eq)]
pub struct FileError {
    pub message: String,
}

/// Why a project is refused.
#[derive(Debug, PartialEq, Eq)]
pub enum ProjectError {
    /// A file could not be read or understood.
    File(FileError),
    /// There is a project already, with its configuration at this path.
    Exists(String),
    /// The configuration is written in another schema.
    ConfigVersion(u32),
    /// The source locale is not English.
    SourceLocale,
    /// The target locales are refused.
    Locales(LocaleError),
    /// The state is written in another schema.
    StateVersion(u32),
    /// There is an English catalog, at this path.
    EnglishCatalog(String),
    /// A catalog translates a text that no message has.
    UnknownKey { locale: String, key: String },
    /// A catalog has a blank translation.
    MissingTranslation { locale: String, key: String },
}

pub enum ProjectFault {
    File(Seq<char>),
    Exists(Seq<char>),
    ConfigVersion(u32),
    SourceLocale,
    Locales(locale::LocaleFault),
    StateVersion(u32),
    EnglishCatalog(Seq<char>),
    UnknownKey { locale: Seq<char>, key: Seq<char> },
    MissingTranslation { locale: Seq<char>, key: Seq<char> },
}

impl View for ProjectError {
    type V = ProjectFault;

    open spec fn view(&self) -> ProjectFault {
        match *self {
            ProjectError::File(error) => ProjectFault::File(error.message@),
            ProjectError::Exists(path) => ProjectFault::Exists(path@),
            ProjectError::ConfigVersion(version) => ProjectFault::ConfigVersion(version),
            ProjectError::SourceLocale => ProjectFault::SourceLocale,
            ProjectError::Locales(error) => ProjectFault::Locales(error@),
            ProjectError::StateVersion(version) => ProjectFault::StateVersion(version),
            ProjectError::EnglishCatalog(path) => ProjectFault::EnglishCatalog(path@),
            ProjectError::UnknownKey { locale, key } => ProjectFault::UnknownKey {
                locale: locale@,
                key: key@,
            },
            ProjectError::MissingTranslation { locale, key } => ProjectFault::MissingTranslation {
                locale: locale@,
                key: key@,
            },
        }
    }
}

impl ProjectFault {
    /// What a user is told.
    pub open spec fn message(self) -> Seq<char> {
        match self {
            ProjectFault::File(message) => message,
            ProjectFault::Exists(path) => path
                + " already exists; refusing to overwrite a TFM project"@,
            ProjectFault::ConfigVersion(version) => "unsupported config schema version "@
                + text::decimal(version as nat),
            ProjectFault::SourceLocale =>
                "source_locale must be `en`; English source text lives in code, not a catalog"@,
            ProjectFault::Locales(fault) => fault.message(),
            ProjectFault::StateVersion(version) => "unsupported state schema version "@
                + text::decimal(version as nat),
            ProjectFault::EnglishCatalog(path) => path
                + " must not exist; English is the source in code"@,
            ProjectFault::UnknownKey { locale, key } => "locales/"@ + locale + ".yml contains `"@
                + key + "`, which is absent from .l10n/state.yml"@,
            ProjectFault::MissingTranslation { locale, key } => "locales/"@ + locale
                + ".yml is missing a translation for `"@ + key + "`"@,
        }
    }
}

impl ProjectError {
    /// What a user is told.
    pub fn message(&self) -> (s: String)
        ensures
            s@ == self@.message(),
    {
        match self {
            ProjectError::File(error) => error.message.clone(),
            ProjectError::Exists(path) => {
                let mut s = path.clone();
                s.append(" already exists; refusing to overwrite a TFM project");
                s
            },
            ProjectError::ConfigVersion(version) => {
                let mut s = "unsupported config schema version ".to_owned();
                s.append(text::decimal_text(*version).as_str());
                s
            },
            ProjectError::SourceLocale =>
                "source_locale must be `en`; English source text lives in code, not a catalog".to_owned(),
            ProjectError::Locales(error) => error.message(),
            ProjectError::StateVersion(version) => {
                let mut s = "unsupported state schema version ".to_owned();
                s.append(text::decimal_text(*version).as_str());
                s
            },
            ProjectError::EnglishCatalog(path) => {
                let mut s = path.clone();
                s.append(" must not exist; English is the source in code");
                s
            },
            ProjectError::UnknownKey { locale, key } => {
                let mut s = "locales/".to_owned();
                s.append(locale.as_str());
                s.append(".yml contains `");
                s.append(key.as_str());
                s.append("`, which is absent from .l10n/state.yml");
                s
            },
            ProjectError::MissingTranslation { locale, key } => {
                let mut s = "locales/".to_owned();
                s.append(locale.as_str());
                s.append(".yml is missing a translation for `");
                s.append(key.as_str());
                s.append("`");
                s
            },
        }
    }
}

/// The contents of a new project: the directories that it needs, and its files.
#[derive(Debug, PartialEq, Eq)]
pub struct NewProject {
    /// The directories, below the project root.
    pub directories: Vec<String>,
    pub config: Config,
    pub state: State,
    /// The catalogs, each with its path below the project root.
    pub catalogs: Vec<(String, Catalog)>,
}

/// The paths of a project's catalogs below its root, in the order of its locales.
pub open spec fn catalog_files(locales: Seq<Seq<char>>) -> Seq<Seq<char>> {
    Seq::new(locales.len(), |i: int| locale::catalog_file(Seq::empty(), locales[i]))
}

/// The configuration of a new project.
pub open spec fn new_config(locales: Seq<Seq<char>>) -> model::ConfigView {
    model::ConfigView { version: 1, source_locale: "en"@, required_locales: locales }
}

/// The state of a new project: no messages.
pub open spec fn new_state() -> model::StateView {
    model::StateView { version: 1, messages: Map::empty() }
}

/// Why no project is created, if none is.
pub open spec fn init_fault(
    config_exists: bool,
    config_path: Seq<char>,
    locales: Seq<Seq<char>>,
) -> Option<ProjectFault> {
    match locale::locales_fault(locales) {
        Some(fault) => Some(ProjectFault::Locales(fault)),
        None => if config_exists {
            Some(ProjectFault::Exists(config_path))
        } else {
            None
        },
    }
}

/// Lays out a new project for the target `locales`: a configuration, a state
/// without messages and an empty catalog for each locale. A request whose locales
/// are refused, or whose configuration exists at `config_path` already, is
/// refused.
pub fn init_project(config_exists: bool, config_path: &str, locales: &[String]) -> (result: Result<
    NewProject,
    ProjectError,
>)
    ensures
        match result {
            Ok(project) => {
                let wanted = model::views(locales@);
                &&& init_fault(config_exists, config_path@, wanted) is None
                &&& model::views(project.directories@) == seq![
                    ".l10n"@,
                    ".l10n/plugins"@,
                    "locales"@,
                ]
                &&& project.config@ == new_config(wanted)
                &&& project.state@ == new_state()
                &&& project.catalogs@.map_values(|c: (String, Catalog)| c.0@) == catalog_files(
                    wanted,
                )
                &&& forall|i: int|
                    0 <= i < project.catalogs@.len() ==> (#[trigger] project.catalogs@[i]).1@
                        == Map::<Seq<char>, Seq<char>>::empty()
            },
            Err(error) => init_fault(config_exists, config_path@, model::views(locales@)) == Some(
                error@,
            ),
        },
{
    match locale::validate_requested_locales(locales) {
        Err(error) => {
            return Err(ProjectError::Locales(error));
        },
        Ok(()) => {},
    }
    if config_exists {
        return Err(ProjectError::Exists(config_path.to_owned()));
    }
    let ghost wanted = model::views(locales@);
    let mut directories: Vec<String> = Vec::new();
    directories.push(".l10n".to_owned());
    directories.push(".l10n/plugins".to_owned());
    directories.push("locales".to_owned());
    assert(model::views(directories@) =~= seq![".l10n"@, ".l10n/plugins"@, "locales"@]);
    let mut required_locales: Vec<String> = Vec::new();
    let mut catalogs: Vec<(String, Catalog)> = Vec::new();
    for i in 0..locales.len()
        invariant
            wanted == model::views(locales@),
            required_locales@.len() == i,
            catalogs@.len() == i,
            forall|j: int| 0 <= j < i ==> (#[trigger] required_locales@[j])@ == wanted[j],
            forall|j: int|
                0 <= j < i ==> (#[trigger] catalogs@[j]).0@ == locale::catalog_file(
                    Seq::empty(),
                    wanted[j],
                ),
            forall|j: int|
                0 <= j < i ==> (#[trigger] catalogs@[j]).1@ == Map::<
                    Seq<char>,
                    Seq<char>,
                >::empty(),
    {
        required_locales.push(locales[i].clone());
        proof {
            reveal_strlit("");
            assert(""@ =~= Seq::<char>::empty());
        }
        catalogs.push((locale::catalog_path("", locales[i].as_str()), StringMap::new()));
    }
    assert(model::views(required_locales@) =~= wanted);
    assert(catalogs@.map_values(|c: (String, Catalog)| c.0@) =~= catalog_files(wanted));
    Ok(
        NewProject {
            directories,
            config: Config { version: 1, source_locale: "en".to_owned(), required_locales },
            state: State { version: 1, messages: StringMap::new() },
            catalogs,
        },
    )
}

/// What was found on reading the files of a project. Each file that can be absent
/// or malformed is a `Result`.
#[derive(Debug, PartialEq, Eq)]
pub struct ProjectFiles {
    pub config: Result<Config, FileError>,
    pub state: Result<State, FileError>,
    /// Where an English catalog would be.
    pub english_catalog_path: String,
    /// Whether there is one.
    pub english_catalog_exists: bool,
    /// The catalogs of the required locales, in their order.
    pub catalogs: Vec<Result<Catalog, FileError>>,
}

impl ProjectFiles {
    /// There is an outcome for the catalog of each required locale.
    pub open spec fn complete(self) -> bool {
        self.config matches Ok(config) ==> self.catalogs@.len() == config.required_locales@.len()
    }
}

/// The keys of a catalog that no message has.
pub open spec fn unknown_keys(
    catalog: Map<Seq<char>, Seq<char>>,
    known: Set<Seq<char>>,
) -> Set<Seq<char>> {
    catalog.dom().difference(known)
}

/// The keys of a catalog whose translation is blank.
pub open spec fn blank_keys(catalog: Map<Seq<char>, Seq<char>>) -> Set<Seq<char>> {
    catalog.dom().filter(|k: Seq<char>| text::is_blank(catalog[k]))
}

/// What is wrong with the catalog of `locale`, as it was read: the first key that
/// no message has, or else the first blank translation.
pub open spec fn catalog_fault(
    locale: Seq<char>,
    catalog: Result<Catalog, FileError>,
    known: Set<Seq<char>>,
) -> Option<ProjectFault> {
    match catalog {
        Err(error) => Some(ProjectFault::File(error.message@)),
        Ok(catalog) => if unknown_keys(catalog@, known) != Set::<Seq<char>>::empty() {
            Some(
                ProjectFault::UnknownKey {
                    locale,
                    key: string_map::least(unknown_keys(catalog@, known)),
                },
            )
        } else if blank_keys(catalog@) != Set::<Seq<char>>::empty() {
            Some(
                ProjectFault::MissingTranslation {
                    locale,
                    key: string_map::least(blank_keys(catalog@)),
                },
            )
        } else {
            None
        },
    }
}

/// What is wrong with the first faulty catalog.
pub open spec fn catalogs_fault(
    locales: Seq<Seq<char>>,
    catalogs: Seq<Result<Catalog, FileError>>,
    known: Set<Seq<char>>,
) -> Option<ProjectFault>
    decreases locales.len(),
{
    if locales.len() == 0 {
        None
    } else {
        match catalogs_fault(locales.drop_last(), catalogs.drop_last(), known) {
            Some(fault) => Some(fault),
            None => catalog_fault(locales.last(), catalogs.last(), known),
        }
    }
}

/// What is wrong with a configuration.
pub open spec fn config_fault(config: model::ConfigView) -> Option<ProjectFault> {
    if config.version != 1 {
        Some(ProjectFault::ConfigVersion(config.version))
    } else if config.source_locale != "en"@ {
        Some(ProjectFault::SourceLocale)
    } else {
        match locale::locales_fault(config.required_locales) {
            Some(fault) => Some(ProjectFault::Locales(fault)),
            None => None,
        }
    }
}

/// What is wrong with a project: the first thing, in the order configuration,
/// state, English catalog, target catalogs.
pub open spec fn project_fault(files: ProjectFiles) -> Option<ProjectFault> {
    match files.config {
        Err(error) => Some(ProjectFault::File(error.message@)),
        Ok(config) => match config_fault(config@) {
            Some(fault) => Some(fault),
            None => match files.state {
                Err(error) => Some(ProjectFault::File(error.message@)),
                Ok(state) => if state.version != 1 {
                    Some(ProjectFault::StateVersion(state.version))
                } else if files.english_catalog_exists {
                    Some(ProjectFault::EnglishCatalog(files.english_catalog_path@))
                } else {
                    catalogs_fault(
                        config@.required_locales,
                        files.catalogs@,
                        state@.messages.dom(),
                    )
                },
            },
        },
    }
}

proof fn lemma_catalogs_fault_stays(
    locales: Seq<Seq<char>>,
    catalogs: Seq<Result<Catalog, FileError>>,
    known: Set<Seq<char>>,
    n: int,
)
    requires
        0 <= n <= locales.len(),
        locales.len() == catalogs.len(),
        catalogs_fault(locales.take(n), catalogs.take(n), known) is Some,
    ensures
        catalogs_fault(locales, catalogs, known) == catalogs_fault(
            locales.take(n),
            catalogs.take(n),
            known,
        ),
    decreases locales.len(),
{
    if n < locales.len() {
        assert(locales.drop_last().take(n) =~= locales.take(n));
        assert(catalogs.drop_last().take(n) =~= catalogs.take(n));
        lemma_catalogs_fault_stays(locales.drop_last(), catalogs.drop_last(), known, n);
    } else {
        assert(locales.take(n) =~= locales);
        assert(catalogs.take(n) =~= catalogs);
    }
}

/// The first of the keys, in order, at which `wanted` holds is the least one.
proof fn lemma_first_is_least(keys: Seq<Seq<char>>, wanted: Set<Seq<char>>, i: int)
    requires
        string_map::increasing(keys),
        forall|k: Seq<char>| wanted.contains(k) ==> keys.contains(k),
        0 <= i < keys.len(),
        wanted.contains(keys[i]),
        forall|j: int| 0 <= j < i ==> !wanted.contains(#[trigger] keys[j]),
    ensures
        string_map::least(wanted) == keys[i],
        wanted != Set::<Seq<char>>::empty(),
{
    assert forall|k: Seq<char>| #[trigger] wanted.contains(k) implies text::text_le(keys[i], k) by {
        let j = keys.index_of(k);
        assert(keys[j] == k);
        assert(j >= i);
        if j > i {
            assert(text::text_lt(keys[i], keys[j]));
        }
    }
    string_map::lemma_least_unique(wanted, keys[i]);
}

/// Keys at none of which `wanted` holds are all outside it.
proof fn lemma_none_wanted(keys: Seq<Seq<char>>, wanted: Set<Seq<char>>)
    requires
        forall|k: Seq<char>| wanted.contains(k) ==> keys.contains(k),
        forall|j: int| 0 <= j < keys.len() ==> !wanted.contains(#[trigger] keys[j]),
    ensures
        wanted == Set::<Seq<char>>::empty(),
{
    assert forall|k: Seq<char>| !wanted.contains(k) by {
        if wanted.contains(k) {
            assert(keys[keys.index_of(k)] == k);
        }
    }
    assert(wanted =~= Set::<Seq<char>>::empty());
}

/// Refuses a catalog with a key that no message has, or with a blank translation.
fn check_catalog(locale: &String, catalog: &Catalog, state: &State) -> (result: Result<
    (),
    ProjectError,
>)
    ensures
        match result {
            Ok(()) => catalog_fault(locale@, Ok(*catalog), state@.messages.dom()) is None,
            Err(error) => catalog_fault(locale@, Ok(*catalog), state@.messages.dom()) == Some(
                error@,
            ),
        },
{
    let n = catalog.len();
    let ghost keys = catalog.keys();
    let ghost unknown = unknown_keys(catalog@, state@.messages.dom());
    let ghost blank = blank_keys(catalog@);
    let mut i: usize = 0;
    while i < n
        invariant
            i <= n,
            n == keys.len(),
            keys == catalog.keys(),
            string_map::increasing(keys),
            catalog@.dom() == keys.to_set(),
            unknown == unknown_keys(catalog@, state@.messages.dom()),
            forall|j: int| 0 <= j < i ==> !unknown.contains(#[trigger] keys[j]),
        decreases n - i,
    {
        let key = catalog.key_at(i);
        if !state.messages.contains_key(key.as_str()) {
            proof {
                lemma_first_is_least(keys, unknown, i as int);
            }
            return Err(ProjectError::UnknownKey { locale: locale.clone(), key: key.clone() });
        }
        i = i + 1;
    }
    proof {
        lemma_none_wanted(keys, unknown);
    }
    let mut i: usize = 0;
    while i < n
        invariant
            i <= n,
            n == keys.len(),
            keys == catalog.keys(),
            string_map::increasing(keys),
            catalog@.dom() == keys.to_set(),
            unknown == unknown_keys(catalog@, state@.messages.dom()),
            unknown == Set::<Seq<char>>::empty(),
            blank == blank_keys(catalog@),
            forall|j: int| 0 <= j < i ==> !blank.contains(#[trigger] keys[j]),
        decreases n - i,
    {
        let key = catalog.key_at(i);
        let translation = catalog.value_at(i);
        if text::blank(translation.as_str()) {
            proof {
                lemma_first_is_least(keys, blank, i as int);
            }
            return Err(
                ProjectError::MissingTranslation { locale: locale.clone(), key: key.clone() },
            );
        }
        i = i + 1;
    }
    proof {
        lemma_none_wanted(keys, blank);
    }
    Ok(())
}

/// Refuses a configuration of another schema, with another source locale than
/// English, or with target locales that are refused.
pub fn check_config(config: &Config) -> (result: Result<(), ProjectError>)
    ensures
        match result {
            Ok(()) => config_fault(config@) is None,
            Err(error) => config_fault(config@) == Some(error@),
        },
{
    if config.version != 1 {
        return Err(ProjectError::ConfigVersion(config.version));
    }
    if !text::text_eq(config.source_locale.as_str(), "en") {
        return Err(ProjectError::SourceLocale);
    }
    match locale::validate_requested_locales(config.required_locales.as_slice()) {
        Ok(()) => Ok(()),
        Err(error) => Err(ProjectError::Locales(error)),
    }
}

fn file_error(error: &FileError) -> (copy: ProjectError)
    ensures
        copy@ == ProjectFault::File(error.message@),
{
    ProjectError::File(FileError { message: error.message.clone() })
}

/// Checks a project as it was read: configuration, state and target catalogs must
/// agree, and there must be no English catalog. The first fault is reported.
pub fn check_project(files: &ProjectFiles) -> (result: Result<CheckReport, ProjectError>)
    requires
        files.complete(),
    ensures
        match result {
            Ok(report) => {
                &&& project_fault(*files) is None
                &&& files.config matches Ok(config) && report.catalog_count
                    == config@.required_locales.len()
                &&& files.state matches Ok(state) && report.message_count == state@.messages.len()
            },
            Err(error) => project_fault(*files) == Some(error@),
        },
{
    let config = match &files.config {
        Ok(config) => config,
        Err(error) => {
            return Err(file_error(error));
        },
    };
    match check_config(config) {
        Ok(()) => {},
        Err(error) => {
            return Err(error);
        },
    }
    let state = match &files.state {
        Ok(state) => state,
        Err(error) => {
            return Err(file_error(error));
        },
    };
    if state.version != 1 {
        return Err(ProjectError::StateVersion(state.version));
    }
    if files.english_catalog_exists {
        return Err(ProjectError::EnglishCatalog(files.english_catalog_path.clone()));
    }
    let ghost locales = config@.required_locales;
    let ghost known = state@.messages.dom();
    let mut i: usize = 0;
    while i < config.required_locales.len()
        invariant
            i <= config.required_locales@.len(),
            locales == config@.required_locales,
            known == state@.messages.dom(),
            files.catalogs@.len() == locales.len(),
            project_fault(*files) == catalogs_fault(locales, files.catalogs@, known),
            catalogs_fault(locales.take(i as int), files.catalogs@.take(i as int), known) is None,
        decreases config.required_locales.len() - i,
    {
        let locale = &config.required_locales[i];
        proof {
            let next = locales.take(i + 1);
            assert(next.drop_last() =~= locales.take(i as int));
            assert(next.last() == locale@);
            let read = files.catalogs@.take(i + 1);
            assert(read.drop_last() =~= files.catalogs@.take(i as int));
            assert(read.last() == files.catalogs@[i as int]);
            if catalog_fault(locale@, files.catalogs@[i as int], known) is Some {
                lemma_catalogs_fault_stays(locales, files.catalogs@, known, i + 1);
            }
        }
        match &files.catalogs[i] {
            Err(error) => {
                return Err(file_error(error));
            },
            Ok(catalog) => match check_catalog(locale, catalog, state) {
                Ok(()) => {},
                Err(error) => {
                    return Err(error);
                },
            },
        }
        i = i + 1;
    }
    assert(locales.take(i as int) =~= locales);
    assert(files.catalogs@.take(i as int) =~= files.catalogs@);
    Ok(
        CheckReport {
            message_count: state.messages.len(),
            catalog_count: config.required_locales.len(),
        },
    )
}

/// A catalog in order: it was read, it translates only texts that messages have,
/// and no translation is blank.
pub open spec fn catalog_in_order(
    catalog: Result<Catalog, FileError>,
    known: Set<Seq<char>>,
) -> bool {
    &&& catalog matches Ok(catalog)
    &&& forall|k: Seq<char>| #[trigger] catalog@.contains_key(k) ==> known.contains(k)
    &&& forall|k: Seq<char>| #[trigger] catalog@.contains_key(k) ==> !text::is_blank(catalog@[k])
}

/// A project in order.
pub open spec fn project_in_order(files: ProjectFiles) -> bool {
    &&& files.config matches Ok(config)
    &&& files.state matches Ok(state)
    &&& config.version == 1
    &&& config.source_locale@ == "en"@
    &&& locale::acceptable(config@.required_locales)
    &&& state.version == 1
    &&& !files.english_catalog_exists
    &&& forall|i: int|
        0 <= i < files.catalogs@.len() ==> catalog_in_order(
            #[trigger] files.catalogs@[i],
            state@.messages.dom(),
        )
}

proof fn lemma_catalog_fault(
    locale: Seq<char>,
    catalog: Result<Catalog, FileError>,
    known: Set<Seq<char>>,
)
    ensures
        catalog_fault(locale, catalog, known) is None <==> catalog_in_order(catalog, known),
{
    if let Ok(catalog) = catalog {
        let unknown = unknown_keys(catalog@, known);
        let blank = blank_keys(catalog@);
        if catalog_in_order(Ok(catalog), known) {
            assert(unknown =~= Set::<Seq<char>>::empty());
            assert(blank =~= Set::<Seq<char>>::empty());
        }
        if unknown == Set::<Seq<char>>::empty() && blank == Set::<Seq<char>>::empty() {
            assert forall|k: Seq<char>| #[trigger] catalog@.contains_key(k) implies known.contains(k)
                && !text::is_blank(catalog@[k]) by {
                assert(!unknown.contains(k));
                assert(!blank.contains(k));
            }
        }
    }
}

proof fn lemma_catalogs_fault(
    locales: Seq<Seq<char>>,
    catalogs: Seq<Result<Catalog, FileError>>,
    known: Set<Seq<char>>,
)
    requires
        locales.len() == catalogs.len(),
    ensures
        catalogs_fault(locales, catalogs, known) is None <==> forall|i: int|
            0 <= i < catalogs.len() ==> catalog_in_order(#[trigger] catalogs[i], known),
    decreases locales.len(),
{
    if locales.len() > 0 {
        let front = catalogs.drop_last();
        lemma_catalogs_fault(locales.drop_last(), front, known);
        lemma_catalog_fault(locales.last(), catalogs.last(), known);
        assert(forall|i: int| 0 <= i < front.len() ==> front[i] == catalogs[i]);
        if catalogs_fault(locales, catalogs, known) is None {
            assert forall|i: int| 0 <= i < catalogs.len() implies catalog_in_order(
                #[trigger] catalogs[i],
                known,
            ) by {
                if i < front.len() {
                    assert(catalog_in_order(front[i], known));
                }
            }
        }
    }
}

/// The projects that a check accepts are those in order.
pub proof fn accepted_iff_in_order(files: ProjectFiles)
    requires
        files.complete(),
    ensures
        project_fault(files) is None <==> project_in_order(files),
{
    if let Ok(config) = files.config {
        locale::accepted_iff_acceptable(config@.required_locales);
        if let Ok(state) = files.state {
            lemma_catalogs_fault(
                config@.required_locales,
                files.catalogs@,
                state@.messages.dom(),
            );
        }
    }
}

/// The catalogs of a project, as they were read.
pub open spec fn read_catalogs(files: ProjectFiles) -> Seq<Map<Seq<char>, Seq<char>>> {
    Seq::new(files.catalogs@.len(), |i: int| files.catalogs@[i]->Ok_0@)
}

/// Whether `after` is what there is to be read once an extraction from the file at
/// `path` was applied to `before`.
pub open spec fn follows_extraction(
    before: ProjectFiles,
    after: ProjectFiles,
    path: Seq<char>,
    extracted: Seq<model::ExtractedView>,
) -> bool {
    let config = before.config->Ok_0@;
    let state = before.state->Ok_0@;
    &&& after.config matches Ok(same) && same@ == config
    &&& after.state matches Ok(fresh) && fresh@ == (model::StateView {
        version: state.version,
        messages: extraction::messages_after(
            config.required_locales,
            state.messages,
            read_catalogs(before),
            path,
            extracted,
        ),
    })
    &&& after.english_catalog_exists == before.english_catalog_exists
    &&& after.catalogs@.len() == before.catalogs@.len()
    &&& forall|i: int|
        0 <= i < after.catalogs@.len() ==> (#[trigger] after.catalogs@[i] matches Ok(catalog)
            && catalog@ == extraction::refreshed(
            read_catalogs(before)[i],
            extraction::stale_sources(state.messages, path),
            after.state->Ok_0@.messages.dom(),
        ))
}

/// Once an extraction added a message to an accepted project, the check refuses the
/// project until the text is translated: it misses a translation in the catalog of
/// the first required locale.
pub proof fn new_message_awaits_translation(
    before: ProjectFiles,
    after: ProjectFiles,
    path: Seq<char>,
    extracted: Seq<model::ExtractedView>,
)
    requires
        before.complete(),
        project_fault(before) is None,
        follows_extraction(before, after, path, extracted),
        extraction::extracted_sources(extracted).difference(
            extraction::kept_messages(before.state->Ok_0@.messages, path).dom(),
        ).len() > 0,
    ensures
        after.complete(),
        project_fault(after) == Some(
            ProjectFault::MissingTranslation {
                locale: before.config->Ok_0@.required_locales[0],
                key: string_map::least(blank_keys(read_catalogs(after)[0])),
            },
        ),
{
    accepted_iff_in_order(before);
    let config = before.config->Ok_0@;
    let locales = config.required_locales;
    let messages = before.state->Ok_0@.messages;
    let known = after.state->Ok_0@.messages.dom();
    let stale = extraction::stale_sources(messages, path);
    assert(after.config->Ok_0@ == config);
    assert(locales.len() == before.config->Ok_0.required_locales@.len());
    assert(after.config->Ok_0@.required_locales.len()
        == after.config->Ok_0.required_locales@.len());
    let first = read_catalogs(before)[0];
    let fresh = after.catalogs@[0]->Ok_0@;
    assert(catalog_in_order(before.catalogs@[0], messages.dom()));
    assert(after.catalogs@[0] is Ok);
    assert(fresh == extraction::refreshed(first, stale, known));
    assert(first.dom().subset_of(messages.dom())) by {
        assert forall|k: Seq<char>| first.dom().contains(k) implies messages.dom().contains(k) by {
            assert(first.contains_key(k));
        }
    }
    extraction::catalogs_follow_messages(
        locales,
        messages,
        read_catalogs(before),
        path,
        extracted,
        0,
    );
    assert(unknown_keys(fresh, known) =~= Set::<Seq<char>>::empty());
    let kept = extraction::kept_messages(messages, path).dom();
    let added = extraction::extracted_sources(extracted).difference(kept);
    let k = added.choose();
    assert(added.contains(k)) by {
        if forall|k: Seq<char>| !added.contains(k) {
            assert(added =~= Set::<Seq<char>>::empty());
        }
    }
    extraction::sources_after_extraction(
        locales,
        messages,
        read_catalogs(before),
        path,
        extracted,
    );
    assert(known.contains(k));
    assert(!(first.contains_key(k) && !stale.contains(k)));
    assert(fresh[k] == Seq::<char>::empty());
    assert(blank_keys(fresh).contains(k));
    let one = locales.take(1);
    let read = after.catalogs@.take(1);
    assert(one.len() == 1 && one.last() == locales[0]);
    assert(catalogs_fault(one.drop_last(), read.drop_last(), known) is None);
    assert(read.last() == after.catalogs@[0]);
    assert(catalogs_fault(one, read, known) == catalog_fault(
        locales[0],
        after.catalogs@[0],
        known,
    ));
    lemma_catalogs_fault_stays(locales, after.catalogs@, known, 1);
}

/// A new project, read back as it was laid out, passes the check.
pub proof fn new_project_is_accepted(locales: Seq<Seq<char>>, files: ProjectFiles)
    requires
        locale::locales_fault(locales) is None,
        files.config matches Ok(config) && config@ == new_config(locales),
        files.state matches Ok(state) && state@ == new_state(),
        !files.english_catalog_exists,
        files.catalogs@.len() == locales.len(),
        forall|i: int|
            0 <= i < locales.len() ==> (#[trigger] files.catalogs@[i] matches Ok(catalog)
                && catalog@ == Map::<Seq<char>, Seq<char>>::empty()),
    ensures
        files.complete(),
        project_fault(files) is None,
{
    let config = files.config->Ok_0;
    assert(config@.required_locales.len() == config.required_locales@.len());
    locale::accepted_iff_acceptable(locales);
    accepted_iff_in_order(files);
}

/// A new project has no English catalog.
pub proof fn new_project_has_no_english_catalog(locales: Seq<Seq<char>>)
    requires
        locale::locales_fault(locales) is None,
    ensures
        !catalog_files(locales).contains(locale::catalog_file(Seq::empty(), "en"@)),
{
    locale::accepted_iff_acceptable(locales);
    let files = catalog_files(locales);
    let english = locale::catalog_file(Seq::empty(), "en"@);
    if files.contains(english) {
        let i = files.index_of(english);
        assert(locale::is_tag("en"@)) by {
            reveal_strlit("en");
        }
        locale::catalogs_do_not_collide(Seq::empty(), locales[i], "en"@);
    }
}

/// A new project is in the current schema, with English as its source locale and
/// the requested locales, all and in order; it has no messages, and one catalog for
/// each locale, named after it.
pub proof fn new_project_layout(locales: Seq<Seq<char>>)
    requires
        locale::locales_fault(locales) is None,
    ensures
        new_config(locales).version == 1,
        new_config(locales).source_locale == seq!['e', 'n'],
        new_config(locales).required_locales == locales,
        new_state().version == 1,
        forall|k: Seq<char>| !(#[trigger] new_state().messages.contains_key(k)),
        catalog_files(locales).len() == locales.len(),
        forall|i: int|
            0 <= i < locales.len() ==> #[trigger] catalog_files(locales)[i] == "locales/"@
                + locales[i] + ".yml"@,
{
    reveal_strlit("en");
    assert("en"@ =~= seq!['e', 'n']);
    locale::accepted_iff_acceptable(locales);
    assert forall|i: int| 0 <= i < locales.len() implies #[trigger] catalog_files(locales)[i]
        == "locales/"@ + locales[i] + ".yml"@ by {
        assert(locale::is_tag(locales[i]));
        assert(locale::is_tag_char(locales[i][0]));
        locale::catalog_is_named_after_locale(Seq::empty(), locales[i]);
    }
}

/// A project is created exactly if the locales are accepted and there is none yet;
/// refused locales are reported first.
pub proof fn created_iff_locales_accepted_and_new(
    config_exists: bool,
    config_path: Seq<char>,
    locales: Seq<Seq<char>>,
)
    ensures
        init_fault(config_exists, config_path, locales) is None <==> locale::locales_fault(
            locales,
        ) is None && !config_exists,
        locale::locales_fault(locales) matches Some(fault) ==> init_fault(
            config_exists,
            config_path,
            locales,
        ) == Some(ProjectFault::Locales(fault)),
        locale::locales_fault(locales) is None && config_exists ==> init_fault(
            config_exists,
            config_path,
            locales,
        ) == Some(ProjectFault::Exists(config_path)),
{
}

/// A configuration that cannot be read, is in another schema, has another source
/// locale than English or refused target locales is reported before anything else,
/// in this order.
pub proof fn configuration_is_checked_first(files: ProjectFiles)
    ensures
        files.config matches Err(error) ==> project_fault(files) == Some(
            ProjectFault::File(error.message@),
        ),
        files.config matches Ok(config) ==> {
            &&& config.version != 1 ==> project_fault(files) == Some(
                ProjectFault::ConfigVersion(config.version),
            )
            &&& config.version == 1 && config.source_locale@ != seq!['e', 'n'] ==> project_fault(
                files,
            ) == Some(ProjectFault::SourceLocale)
            &&& config.version == 1 && config.source_locale@ == seq!['e', 'n'] ==> (
            locale::locales_fault(config@.required_locales) matches Some(fault) ==> project_fault(
                files,
            ) == Some(ProjectFault::Locales(fault)))
        },
{
    reveal_strlit("en");
    assert("en"@ =~= seq!['e', 'n']);
}

/// With a configuration in order, a state that cannot be read or is in another
/// schema is reported next, and then an English catalog.
pub proof fn state_is_checked_next(files: ProjectFiles)
    requires
        files.config matches Ok(config) && config.version == 1 && config.source_locale@ == seq![
            'e',
            'n',
        ] && locale::locales_fault(config@.required_locales) is None,
    ensures
        files.state matches Err(error) ==> project_fault(files) == Some(
            ProjectFault::File(error.message@),
        ),
        files.state matches Ok(state) ==> {
            &&& state.version != 1 ==> project_fault(files) == Some(
                ProjectFault::StateVersion(state.version),
            )
            &&& state.version == 1 && files.english_catalog_exists ==> project_fault(files) == Some(
                ProjectFault::EnglishCatalog(files.english_catalog_path@),
            )
        },
{
    reveal_strlit("en");
    assert("en"@ =~= seq!['e', 'n']);
}

/// The first catalog that is not in order decides: that it could not be read, or
/// else its first key that no message has, or else its first blank translation, with
/// the locale that it belongs to.
pub proof fn first_faulty_catalog_decides(files: ProjectFiles, i: int)
    requires
        files.complete(),
        files.config matches Ok(config) && config.version == 1 && config.source_locale@ == seq![
            'e',
            'n',
        ] && locale::locales_fault(config@.required_locales) is None,
        files.state matches Ok(state) && state.version == 1,
        !files.english_catalog_exists,
        0 <= i < files.catalogs@.len(),
        forall|j: int|
            0 <= j < i ==> ((#[trigger] files.catalogs@[j]) matches Ok(catalog) && forall|
                k: Seq<char>,
            |
                #[trigger] catalog@.contains_key(k) ==> files.state->Ok_0@.messages.contains_key(k)
                    && !text::is_blank(catalog@[k])),
    ensures
        ({
            let locale = files.config->Ok_0@.required_locales[i];
            let messages = files.state->Ok_0@.messages;
            match files.catalogs@[i] {
                Err(error) => project_fault(files) == Some(ProjectFault::File(error.message@)),
                Ok(catalog) => {
                    &&& forall|key: Seq<char>|
                        #[trigger] catalog@.contains_key(key) && !messages.contains_key(key) && (
                        forall|k: Seq<char>|
                            #[trigger] catalog@.contains_key(k) && !messages.contains_key(k)
                                ==> !text::text_lt(k, key)) ==> project_fault(files) == Some(
                            ProjectFault::UnknownKey { locale, key },
                        )
                    &&& forall|key: Seq<char>|
                        #[trigger] catalog@.contains_key(key) && text::is_blank(catalog@[key]) && (
                        forall|k: Seq<char>| #[trigger]
                            catalog@.contains_key(k) ==> messages.contains_key(k)) && (forall|
                            k: Seq<char>,
                        |
                            #[trigger] catalog@.contains_key(k) && text::is_blank(catalog@[k])
                                ==> !text::text_lt(k, key)) ==> project_fault(files) == Some(
                            ProjectFault::MissingTranslation { locale, key },
                        )
                },
            }
        }),
{
    reveal_strlit("en");
    assert("en"@ =~= seq!['e', 'n']);
    let locales = files.config->Ok_0@.required_locales;
    assert(locales.len() == files.config->Ok_0.required_locales@.len());
    let known = files.state->Ok_0@.messages.dom();
    let read = files.catalogs@;
    assert(project_fault(files) == catalogs_fault(locales, read, known));
    let front = read.take(i);
    assert forall|j: int| 0 <= j < front.len() implies catalog_in_order(
        #[trigger] front[j],
        known,
    ) by {
        assert(front[j] == read[j]);
    }
    lemma_catalogs_fault(locales.take(i), front, known);
    let upto = read.take(i + 1);
    assert(locales.take(i + 1).drop_last() =~= locales.take(i));
    assert(upto.drop_last() =~= front);
    assert(locales.take(i + 1).last() == locales[i]);
    assert(upto.last() == read[i]);
    assert(catalogs_fault(locales.take(i + 1), upto, known) == catalog_fault(
        locales[i],
        read[i],
        known,
    ));
    if catalog_fault(locales[i], read[i], known) is Some {
        lemma_catalogs_fault_stays(locales, read, known, i + 1);
    }
    if let Ok(catalog) = read[i] {
        let unknown = unknown_keys(catalog@, known);
        let blank = blank_keys(catalog@);
        assert forall|key: Seq<char>|
            #[trigger] catalog@.contains_key(key) && !known.contains(key) && (forall|k: Seq<char>|
                #[trigger] catalog@.contains_key(k) && !known.contains(k) ==> !text::text_lt(
                    k,
                    key,
                )) implies project_fault(files) == Some(
            ProjectFault::UnknownKey { locale: locales[i], key },
        ) by {
            assert(unknown.contains(key));
            assert forall|k: Seq<char>| #[trigger] unknown.contains(k) implies text::text_le(
                key,
                k,
            ) by {
                assert(catalog@.contains_key(k));
                text::lemma_text_lt_total(k, key);
            }
            string_map::lemma_least_unique(unknown, key);
        }
        assert forall|key: Seq<char>|
            #[trigger] catalog@.contains_key(key) && text::is_blank(catalog@[key]) && (forall|
                k: Seq<char>,
            | #[trigger]
                catalog@.contains_key(k) ==> known.contains(k)) && (forall|k: Seq<char>|
                #[trigger] catalog@.contains_key(k) && text::is_blank(catalog@[k])
                    ==> !text::text_lt(k, key)) implies project_fault(files) == Some(
            ProjectFault::MissingTranslation { locale: locales[i], key },
        ) by {
            assert(unknown =~= Set::<Seq<char>>::empty());
            assert(blank.contains(key));
            assert forall|k: Seq<char>| #[trigger] blank.contains(k) implies text::text_le(
                key,
                k,
            ) by {
                assert(catalog@.contains_key(k));
                text::lemma_text_lt_total(k, key);
            }
            string_map::lemma_least_unique(blank, key);
        }
    }
}

/// A project is accepted exactly if configuration and state were read and are in the
/// current schema, the source locale is English, the target locales are accepted,
/// there is no English catalog, and each catalog was read and translates texts of
/// messages only, none of them with a blank text.
pub proof fn accepted_projects(files: ProjectFiles)
    requires
        files.complete(),
    ensures
        project_fault(files) is None <==> (files.config matches Ok(config) && files.state matches Ok(
            state,
        ) && {
            &&& config.version == 1
            &&& config.source_locale@ == seq!['e', 'n']
            &&& locale::locales_fault(config@.required_locales) is None
            &&& state.version == 1
            &&& !files.english_catalog_exists
            &&& forall|i: int|
                0 <= i < files.catalogs@.len() ==> ((#[trigger] files.catalogs@[i]) matches Ok(
                    catalog,
                ) && forall|k: Seq<char>| #[trigger]
                    catalog@.contains_key(k) ==> state@.messages.contains_key(k) && !text::is_blank(
                        catalog@[k],
                    ))
        }),
{
    reveal_strlit("en");
    assert("en"@ =~= seq!['e', 'n']);
    accepted_iff_in_order(files);
    if let Ok(config) = files.config {
        locale::accepted_iff_acceptable(config@.required_locales);
        if let Ok(state) = files.state {
            let known = state@.messages.dom();
            assert forall|i: int| 0 <= i < files.catalogs@.len() implies catalog_in_order(
                #[trigger] files.catalogs@[i],
                known,
            ) == (files.catalogs@[i] matches Ok(catalog) && forall|k: Seq<char>| #[trigger]
                catalog@.contains_key(k) ==> state@.messages.contains_key(k) && !text::is_blank(
                    catalog@[k],
                )) by {
            }
        }
    }
}

/// What a user is told names the path, version, locale and key in question.
pub proof fn project_messages(a: Seq<char>, b: Seq<char>, n: u32, fault: locale::LocaleFault)
    ensures
        ProjectFault::File(a).message() == a,
        ProjectFault::Exists(a).message() == a
            + " already exists; refusing to overwrite a TFM project"@,
        ProjectFault::ConfigVersion(n).message() == "unsupported config schema version "@
            + text::decimal(n as nat),
        ProjectFault::SourceLocale.message()
            == "source_locale must be `en`; English source text lives in code, not a catalog"@,
        ProjectFault::Locales(fault).message() == fault.message(),
        ProjectFault::StateVersion(n).message() == "unsupported state schema version "@
            + text::decimal(n as nat),
        ProjectFault::EnglishCatalog(a).message() == a
            + " must not exist; English is the source in code"@,
        (ProjectFault::UnknownKey { locale: a, key: b }).message() == "locales/"@ + a
            + ".yml contains `"@ + b + "`, which is absent from .l10n/state.yml"@,
        (ProjectFault::MissingTranslation { locale: a, key: b }).message() == "locales/"@ + a
            + ".yml is missing a translation for `"@ + b + "`"@,
{
}

/// A refusal is seen with all that it names.
pub proof fn project_errors_are_seen(
    a: String,
    b: String,
    n: u32,
    file: FileError,
    refused: LocaleError,
)
    ensures
        ProjectError::File(file)@ == ProjectFault::File(file.message@),
        ProjectError::Exists(a)@ == ProjectFault::Exists(a@),
        ProjectError::ConfigVersion(n)@ == ProjectFault::ConfigVersion(n),
        ProjectError::SourceLocale@ == ProjectFault::SourceLocale,
        ProjectError::Locales(refused)@ == ProjectFault::Locales(refused@),
        ProjectError::StateVersion(n)@ == ProjectFault::StateVersion(n),
        ProjectError::EnglishCatalog(a)@ == ProjectFault::EnglishCatalog(a@),
        (ProjectError::UnknownKey { locale: a, key: b })@ == (ProjectFault::UnknownKey {
            locale: a@,
            key: b@,
        }),
        (ProjectError::MissingTranslation { locale: a, key: b })@ == (
        ProjectFault::MissingTranslation { locale: a@, key: b@ }),
{
}

} // verus!
