//! Which analyzer reads which file.

use vstd::prelude::*;

use crate::locale;
use crate::model;
use crate::text;

verus! {

/// Why no analyzer is chosen.
#[derive(Debug, PartialEq, Eq)]
pub enum PluginError {
    /// No plugin supports the language.
    NoneMatches(String),
    /// More than one plugin supports the language.
    SeveralMatch(String),
}

pub enum PluginFault {
    NoneMatches(Seq<char>),
    SeveralMatch(Seq<char>),
}

impl View for PluginError {
    type V = PluginFault;

    open spec fn view(&self) -> PluginFault {
        match *self {
            PluginError::NoneMatches(language) => PluginFault::NoneMatches(language@),
            PluginError::SeveralMatch(language) => PluginFault::SeveralMatch(language@),
        }
    }
}

impl PluginFault {
    /// What a user is told.
    pub open spec fn message(self) -> Seq<char> {
        match self {
            PluginFault::NoneMatches(language) => "no plugin supports "@ + language,
            PluginFault::SeveralMatch(language) => "more than one plugin supports "@ + language,
        }
    }
}

impl PluginError {
    /// What a user is told.
    pub fn message(&self) -> (s: String)
        ensures
            s@ == self@.message(),
    {
        match self {
            PluginError::NoneMatches(language) => {
                let mut s = "no plugin supports ".to_owned();
                s.append(language.as_str());
                s
            },
            PluginError::SeveralMatch(language) => {
                let mut s = "more than one plugin supports ".to_owned();
                s.append(language.as_str());
                s
            },
        }
    }
}

/// Whether the `i`th plugin declares support for the language.
pub open spec fn supports(
    plugins: Seq<Vec<String>>,
    i: int,
    language: Seq<char>,
) -> bool {
    0 <= i < plugins.len() && model::views(plugins[i]@).contains(language)
}

/// Chooses the one plugin that declares support for the language. Each plugin is
/// given by the languages of its manifest. It fails if none or more than one
/// does.
pub fn select_plugin(plugins: &Vec<Vec<String>>, language: &str) -> (result: Result<
    usize,
    PluginError,
>)
    ensures
        match result {
            Ok(chosen) => {
                &&& supports(plugins@, chosen as int, language@)
                &&& forall|i: int| #[trigger] supports(plugins@, i, language@) ==> i == chosen
            },
            Err(PluginError::NoneMatches(named)) => {
                &&& named@ == language@
                &&& forall|i: int| !(#[trigger] supports(plugins@, i, language@))
            },
            Err(PluginError::SeveralMatch(named)) => {
                &&& named@ == language@
                &&& exists|i: int, j: int|
                    i != j && #[trigger] supports(plugins@, i, language@) && #[trigger] supports(
                        plugins@,
                        j,
                        language@,
                    )
            },
        },
{
    let mut chosen: Option<usize> = None;
    for i in 0..plugins.len()
        invariant
            match chosen {
                Some(c) => {
                    &&& c < i
                    &&& supports(plugins@, c as int, language@)
                    &&& forall|j: int|
                        j < i && #[trigger] supports(plugins@, j, language@) ==> j == c
                },
                None => forall|j: int| j < i ==> !(#[trigger] supports(plugins@, j, language@)),
            },
    {
        if locale::lists(plugins[i].as_slice(), language) {
            assert(supports(plugins@, i as int, language@));
            if chosen.is_some() {
                return Err(PluginError::SeveralMatch(language.to_owned()));
            }
            chosen = Some(i);
        } else {
            assert(!supports(plugins@, i as int, language@));
        }
    }
    match chosen {
        Some(c) => Ok(c),
        None => Err(PluginError::NoneMatches(language.to_owned())),
    }
}

/// Chooses the plugin for one of all the source files of a project, as
/// [`select_plugin`] does, except that a file in a language that no plugin supports
/// gets none.
pub fn plugin_for_each(plugins: &Vec<Vec<String>>, language: &str) -> (result: Result<
    Option<usize>,
    PluginError,
>)
    ensures
        match result {
            Ok(Some(chosen)) => {
                &&& supports(plugins@, chosen as int, language@)
                &&& forall|i: int| #[trigger] supports(plugins@, i, language@) ==> i == chosen
            },
            Ok(None) => forall|i: int| !(#[trigger] supports(plugins@, i, language@)),
            Err(error) => {
                &&& error@ == PluginFault::SeveralMatch(language@)
                &&& exists|i: int, j: int|
                    i != j && #[trigger] supports(plugins@, i, language@) && #[trigger] supports(
                        plugins@,
                        j,
                        language@,
                    )
            },
        },
{
    match select_plugin(plugins, language) {
        Ok(chosen) => Ok(Some(chosen)),
        Err(PluginError::NoneMatches(_)) => Ok(None),
        Err(error) => Err(error),
    }
}

/// The language of the source file with the given extension.
pub open spec fn language_for(extension: Seq<char>) -> Option<Seq<char>> {
    if extension == "rs"@ {
        Some("rust"@)
    } else if extension == "js"@ {
        Some("javascript"@)
    } else if extension == "ts"@ {
        Some("typescript"@)
    } else if extension == "tsx"@ {
        Some("tsx"@)
    } else {
        None
    }
}

/// The language of a source file, by the extension of its name.
pub fn source_language(extension: &str) -> (language: Option<String>)
    ensures
        model::text_view(language) == language_for(extension@),
{
    if text::text_eq(extension, "rs") {
        Some("rust".to_owned())
    } else if text::text_eq(extension, "js") {
        Some("javascript".to_owned())
    } else if text::text_eq(extension, "ts") {
        Some("typescript".to_owned())
    } else if text::text_eq(extension, "tsx") {
        Some("tsx".to_owned())
    } else {
        None
    }
}

/// The language that a plugin named by the user is told: that of the file, or Rust
/// where the file's extension tells nothing.
pub open spec fn told_language(extension: Option<Seq<char>>) -> Seq<char> {
    match extension {
        Some(extension) => match language_for(extension) {
            Some(language) => language,
            None => "rust"@,
        },
        None => "rust"@,
    }
}

/// The language that a plugin named by the user is told (see [`told_language`]).
pub fn language_to_tell(extension: Option<&str>) -> (language: String)
    ensures
        language@ == told_language(
            match extension {
                Some(extension) => Some(extension@),
                None => None,
            },
        ),
{
    if let Some(extension) = extension {
        if let Some(language) = source_language(extension) {
            return language;
        }
    }
    "rust".to_owned()
}

/// Directories that hold no source files of the project.
pub open spec fn is_skipped(directory: Seq<char>) -> bool {
    ||| directory == ".git"@
    ||| directory == ".l10n"@
    ||| directory == "node_modules"@
    ||| directory == "target"@
}

/// Whether a directory of the given name is left out when all sources of a project
/// are extracted.
pub fn skips_directory(name: &str) -> (skipped: bool)
    ensures
        skipped == is_skipped(name@),
{
    text::text_eq(name, ".git") || text::text_eq(name, ".l10n") || text::text_eq(
        name,
        "node_modules",
    ) || text::text_eq(name, "target")
}

/// A plugin supports exactly the languages of its manifest, letter for letter.
pub proof fn supports_languages_of_manifest(
    plugins: Seq<Vec<String>>,
    i: int,
    j: int,
    language: Seq<char>,
)
    requires
        0 <= i < plugins.len(),
    ensures
        0 <= j < plugins[i]@.len() ==> supports(plugins, i, plugins[i]@[j]@),
        supports(plugins, i, language) ==> exists|k: int|
            0 <= k < plugins[i]@.len() && (#[trigger] plugins[i]@[k])@ == language,
{
    let languages = model::views(plugins[i]@);
    if 0 <= j < plugins[i]@.len() {
        assert(languages[j] == plugins[i]@[j]@);
    }
    if supports(plugins, i, language) {
        let k = languages.index_of(language);
        assert(plugins[i]@[k]@ == language);
    }
}

/// Four extensions have a language, and no other has one.
pub proof fn languages_of_extensions(e: Seq<char>)
    ensures
        e == seq!['r', 's'] ==> language_for(e) == Some("rust"@) && told_language(Some(e))
            == "rust"@,
        e == seq!['j', 's'] ==> language_for(e) == Some("javascript"@) && told_language(Some(e))
            == "javascript"@,
        e == seq!['t', 's'] ==> language_for(e) == Some("typescript"@) && told_language(Some(e))
            == "typescript"@,
        e == seq!['t', 's', 'x'] ==> language_for(e) == Some("tsx"@) && told_language(Some(e))
            == "tsx"@,
        e != seq!['r', 's'] && e != seq!['j', 's'] && e != seq!['t', 's'] && e != seq!['t', 's', 'x']
            ==> language_for(e) is None && told_language(Some(e)) == "rust"@,
        told_language(None) == "rust"@,
{
    reveal_strlit("rs");
    reveal_strlit("js");
    reveal_strlit("ts");
    reveal_strlit("tsx");
    assert("rs"@ =~= seq!['r', 's']);
    assert("js"@ =~= seq!['j', 's']);
    assert("ts"@ =~= seq!['t', 's']);
    assert("tsx"@ =~= seq!['t', 's', 'x']);
}

/// Four directories are left out, and no other is.
pub proof fn left_out_directories(name: Seq<char>)
    ensures
        is_skipped(name) <==> name == seq!['.', 'g', 'i', 't'] || name == seq![
            '.',
            'l',
            '1',
            '0',
            'n',
        ] || name == "node_modules"@ || name == seq!['t', 'a', 'r', 'g', 'e', 't'],
{
    reveal_strlit(".git");
    reveal_strlit(".l10n");
    reveal_strlit("target");
    assert(".git"@ =~= seq!['.', 'g', 'i', 't']);
    assert(".l10n"@ =~= seq!['.', 'l', '1', '0', 'n']);
    assert("target"@ =~= seq!['t', 'a', 'r', 'g', 'e', 't']);
}

/// What a user is told names the language.
pub proof fn plugin_messages(language: Seq<char>)
    ensures
        PluginFault::NoneMatches(language).message() == "no plugin supports "@ + language,
        PluginFault::SeveralMatch(language).message() == "more than one plugin supports "@
            + language,
{
}

/// A refusal is seen with the language that it names.
pub proof fn plugin_errors_are_seen(language: String)
    ensures
        PluginError::NoneMatches(language)@ == PluginFault::NoneMatches(language@),
        PluginError::SeveralMatch(language)@ == PluginFault::SeveralMatch(language@),
{
}

} // verus!
