//! Languages, the environment-based configuration, and where an index lives.
use vstd::prelude::*;
use crate::path::{extension, extension_of, join, join_of, last_dot, lemma_file_name_of_a_name, texts};
use vstd::string::StringSliceAdditionalSpecFns;
use crate::text::{
    append_chars, ascii_lowercase, chars_equal, copy_chars, chars_of, decimal, parse_u64, parse_u64_chars, string_from_chars,
    split_chars, split_on, to_ascii_lowercase, trim, trim_end, trim_start, trimmed,
    unicode_white_space, views,
};

verus! {

pub const ROOT_ENV: &'static str = "CFIND_ROOT";

pub const LANGUAGES_ENV: &'static str = "CFIND_LANGUAGES";

pub const INDEX_ENV: &'static str = "CFIND_INDEX";

pub const STALE_AFTER_HOURS_ENV: &'static str = "CFIND_STALE_AFTER_HOURS";

pub const DATA_HOME_ENV: &'static str = "XDG_DATA_HOME";

/// The value `CFIND_LANGUAGES` has when it is not set.
pub const DEFAULT_LANGUAGES: &'static str = "rust,javascript,typescript,csharp";

/// The value `CFIND_STALE_AFTER_HOURS` has when it is not set.
pub const DEFAULT_STALE_AFTER_HOURS: u64 = 6;

/// A source language that the index understands.
#[derive(Debug, Clone, Copy, PartialEq, Eq, Hash, Structural)]
pub enum SupportedLanguage {
    Rust,
    JavaScript,
    TypeScript,
    CSharp,
}

/// The language a user-facing name or alias (already trimmed and lowered)
/// stands for.
pub open spec fn alias_language(s: Seq<char>) -> Option<SupportedLanguage> {
    if s == "rust"@ || s == "rs"@ {
        Some(SupportedLanguage::Rust)
    } else if s == "javascript"@ || s == "js"@ {
        Some(SupportedLanguage::JavaScript)
    } else if s == "typescript"@ || s == "ts"@ {
        Some(SupportedLanguage::TypeScript)
    } else if s == "csharp"@ || s == "c#"@ || s == "cs"@ {
        Some(SupportedLanguage::CSharp)
    } else {
        None
    }
}

/// The language of a file extension (already lowered).
pub open spec fn extension_language(s: Seq<char>) -> Option<SupportedLanguage> {
    if s == "rs"@ {
        Some(SupportedLanguage::Rust)
    } else if s == "js"@ || s == "jsx"@ || s == "mjs"@ || s == "cjs"@ {
        Some(SupportedLanguage::JavaScript)
    } else if s == "ts"@ || s == "tsx"@ || s == "mts"@ || s == "cts"@ {
        Some(SupportedLanguage::TypeScript)
    } else if s == "cs"@ {
        Some(SupportedLanguage::CSharp)
    } else {
        None
    }
}

/// The language of a path, decided by its extension.
pub open spec fn path_language(path: Seq<char>) -> Option<SupportedLanguage> {
    match extension(path) {
        Some(e) => extension_language(ascii_lowercase(e)),
        None => None,
    }
}

impl SupportedLanguage {
    /// The canonical lower-case name of the language.
    pub open spec fn name_of(self) -> Seq<char> {
        match self {
            SupportedLanguage::Rust => "rust"@,
            SupportedLanguage::JavaScript => "javascript"@,
            SupportedLanguage::TypeScript => "typescript"@,
            SupportedLanguage::CSharp => "csharp"@,
        }
    }

    /// The language named by `value`, ignoring surrounding white space and
    /// ASCII case.
    pub fn parse(value: &str) -> (language: Option<Self>)
        ensures
            language == alias_language(ascii_lowercase(trim(value@))),
    {
        let lowered = to_ascii_lowercase(&trimmed(&chars_of(value)));
        Self::from_alias(&lowered)
    }

    fn from_alias(s: &[char]) -> (language: Option<Self>)
        ensures
            language == alias_language(s@),
    {
        if chars_equal(s, "rust") || chars_equal(s, "rs") {
            Some(SupportedLanguage::Rust)
        } else if chars_equal(s, "javascript") || chars_equal(s, "js") {
            Some(SupportedLanguage::JavaScript)
        } else if chars_equal(s, "typescript") || chars_equal(s, "ts") {
            Some(SupportedLanguage::TypeScript)
        } else if chars_equal(s, "csharp") || chars_equal(s, "c#") || chars_equal(s, "cs") {
            Some(SupportedLanguage::CSharp)
        } else {
            None
        }
    }

    /// The language of a file extension, ignoring ASCII case.
    pub fn from_extension(extension: &[char]) -> (language: Option<Self>)
        ensures
            language == extension_language(ascii_lowercase(extension@)),
    {
        let s = to_ascii_lowercase(extension);
        if chars_equal(&s, "rs") {
            Some(SupportedLanguage::Rust)
        } else if chars_equal(&s, "js") || chars_equal(&s, "jsx") || chars_equal(&s, "mjs")
            || chars_equal(&s, "cjs") {
            Some(SupportedLanguage::JavaScript)
        } else if chars_equal(&s, "ts") || chars_equal(&s, "tsx") || chars_equal(&s, "mts")
            || chars_equal(&s, "cts") {
            Some(SupportedLanguage::TypeScript)
        } else if chars_equal(&s, "cs") {
            Some(SupportedLanguage::CSharp)
        } else {
            None
        }
    }

    /// The language of the file at `path`, by its extension.
    pub fn from_path(path: &str) -> (language: Option<Self>)
        ensures
            language == path_language(path@),
    {
        match extension_of(&chars_of(path)) {
            Some(e) => Self::from_extension(&e),
            None => None,
        }
    }

    pub fn as_str(self) -> (name: &'static str)
        ensures
            name@ == self.name_of(),
    {
        match self {
            SupportedLanguage::Rust => "rust",
            SupportedLanguage::JavaScript => "javascript",
            SupportedLanguage::TypeScript => "typescript",
            SupportedLanguage::CSharp => "csharp",
        }
    }
}

/// Each language's canonical name is one of its names, already in lower
/// case, and no two languages share it; so the canonical name, whose first
/// and last characters are not white space, parses back to its language.
pub proof fn lemma_language_names_round_trip(language: SupportedLanguage, other: SupportedLanguage)
    ensures
        alias_language(language.name_of()) == Some(language),
        ascii_lowercase(language.name_of()) == language.name_of(),
        language.name_of() == other.name_of() ==> language == other,
        !unicode_white_space(language.name_of()[0]) && !unicode_white_space(language.name_of().last())
            ==> alias_language(ascii_lowercase(trim(language.name_of()))) == Some(language),
{
    reveal_strlit("rust");
    reveal_strlit("rs");
    reveal_strlit("javascript");
    reveal_strlit("js");
    reveal_strlit("typescript");
    reveal_strlit("ts");
    reveal_strlit("csharp");
    reveal_strlit("c#");
    reveal_strlit("cs");
    let name = language.name_of();
    assert(ascii_lowercase(name) =~= name);
    if !unicode_white_space(name[0]) && !unicode_white_space(name.last()) {
        assert(trim_start(name) == name);
        assert(trim_end(name) == name);
    }
}
/// `c` raised to upper case when it is an ASCII lower-case letter.
pub open spec fn ascii_upper_char(c: char) -> char {
    if 'a' <= c && c <= 'z' {
        ((c as u32) - 32) as char
    } else {
        c
    }
}

/// `s` with its ASCII lower-case letters raised to upper case.
pub open spec fn ascii_uppercase(s: Seq<char>) -> Seq<char> {
    s.map_values(|c: char| ascii_upper_char(c))
}

/// A language's canonical name in upper case with white space on both
/// sides still names the language, provided the padding is white space and
/// the name's first and last letters are not.
pub proof fn lemma_padded_upper_case_names_parse_back(language: SupportedLanguage, pad: char)
    requires
        unicode_white_space(pad),
        !unicode_white_space(ascii_uppercase(language.name_of())[0]),
        !unicode_white_space(ascii_uppercase(language.name_of()).last()),
    ensures
        alias_language(ascii_lowercase(trim(seq![pad] + ascii_uppercase(language.name_of()) + seq![pad])))
            == Some(language),
{
    reveal_strlit("rust");
    reveal_strlit("javascript");
    reveal_strlit("typescript");
    reveal_strlit("csharp");
    let name = language.name_of();
    let upper = ascii_uppercase(name);
    let padded = seq![pad] + upper + seq![pad];
    assert(padded[0] == pad);
    assert(padded.drop_first() =~= upper + seq![pad]);
    assert((upper + seq![pad])[0] == upper[0]);
    assert(trim_start(upper + seq![pad]) == upper + seq![pad]);
    assert(trim_start(padded) == upper + seq![pad]);
    assert((upper + seq![pad]).drop_last() =~= upper);
    assert(trim_end(upper) == upper);
    assert(trim(padded) == upper);
    assert(ascii_lowercase(upper) =~= name);
    lemma_language_names_round_trip(language, language);
}
/// The extension table is the path rule: a path named `f.` and an extension
/// (without `.` or `/`) has the language that the table gives the extension.
pub proof fn lemma_extension_table_matches_paths(ext: Seq<char>)
    requires
        forall|k: int| 0 <= k < ext.len() ==> ext[k] != '.' && ext[k] != '/',
    ensures
        path_language(seq!['f', '.'] + ext) == extension_language(ascii_lowercase(ext)),
{
    let path = seq!['f', '.'] + ext;
    assert forall|k: int| 0 <= k < path.len() implies path[k] != '/' by {
        if k >= 2 {
            assert(path[k] == ext[k - 2]);
        }
    }
    lemma_file_name_of_a_name(path);
    assert(path[1] == '.');
    let i = choose|i: int| 0 <= i < path.len() && path[i] == '.' && forall|j: int| i < j < path.len() ==> path[j] != '.';
    assert(last_dot(path) == Some(i));
    if i > 1 {
        assert(path[i] == ext[i - 2]);
    }
    assert(i == 1);
    assert(path.subrange(2, path.len() as int) =~= ext);
    assert(extension(path) == Some(ext));
}
/// The extensions that name a language: `rs` Rust; `js`, `jsx`, `mjs` and
/// `cjs` JavaScript; `ts`, `tsx`, `mts` and `cts` TypeScript; `cs` C#; no
/// other extension names one.
pub proof fn lemma_extension_table(extension: Seq<char>)
    ensures
        extension_language("rs"@) == Some(SupportedLanguage::Rust),
        extension_language("js"@) == Some(SupportedLanguage::JavaScript),
        extension_language("jsx"@) == Some(SupportedLanguage::JavaScript),
        extension_language("mjs"@) == Some(SupportedLanguage::JavaScript),
        extension_language("cjs"@) == Some(SupportedLanguage::JavaScript),
        extension_language("ts"@) == Some(SupportedLanguage::TypeScript),
        extension_language("tsx"@) == Some(SupportedLanguage::TypeScript),
        extension_language("mts"@) == Some(SupportedLanguage::TypeScript),
        extension_language("cts"@) == Some(SupportedLanguage::TypeScript),
        extension_language("cs"@) == Some(SupportedLanguage::CSharp),
        extension_language(extension) is Some ==> (extension == "rs"@ || extension == "js"@ || extension == "jsx"@ || extension == "mjs"@ || extension == "cjs"@ || extension == "ts"@ || extension == "tsx"@ || extension == "mts"@ || extension == "cts"@ || extension == "cs"@),
{
    reveal_strlit("rs");
    reveal_strlit("js");
    reveal_strlit("jsx");
    reveal_strlit("mjs");
    reveal_strlit("cjs");
    reveal_strlit("ts");
    reveal_strlit("tsx");
    reveal_strlit("mts");
    reveal_strlit("cts");
    reveal_strlit("cs");
    assert("rs"@[0] != "js"@[0]);
    assert("rs"@.len() != "jsx"@.len());
    assert("rs"@.len() != "mjs"@.len());
    assert("rs"@.len() != "cjs"@.len());
    assert("rs"@[0] != "ts"@[0]);
    assert("rs"@.len() != "tsx"@.len());
    assert("rs"@.len() != "mts"@.len());
    assert("rs"@.len() != "cts"@.len());
    assert("rs"@[0] != "cs"@[0]);
    assert("js"@.len() != "jsx"@.len());
    assert("js"@.len() != "mjs"@.len());
    assert("js"@.len() != "cjs"@.len());
    assert("js"@[0] != "ts"@[0]);
    assert("js"@.len() != "tsx"@.len());
    assert("js"@.len() != "mts"@.len());
    assert("js"@.len() != "cts"@.len());
    assert("js"@[0] != "cs"@[0]);
    assert("jsx"@[0] != "mjs"@[0]);
    assert("jsx"@[0] != "cjs"@[0]);
    assert("jsx"@.len() != "ts"@.len());
    assert("jsx"@[0] != "tsx"@[0]);
    assert("jsx"@[0] != "mts"@[0]);
    assert("jsx"@[0] != "cts"@[0]);
    assert("jsx"@.len() != "cs"@.len());
    assert("mjs"@[0] != "cjs"@[0]);
    assert("mjs"@.len() != "ts"@.len());
    assert("mjs"@[0] != "tsx"@[0]);
    assert("mjs"@[1] != "mts"@[1]);
    assert("mjs"@[0] != "cts"@[0]);
    assert("mjs"@.len() != "cs"@.len());
    assert("cjs"@.len() != "ts"@.len());
    assert("cjs"@[0] != "tsx"@[0]);
    assert("cjs"@[0] != "mts"@[0]);
    assert("cjs"@[1] != "cts"@[1]);
    assert("cjs"@.len() != "cs"@.len());
    assert("ts"@.len() != "tsx"@.len());
    assert("ts"@.len() != "mts"@.len());
    assert("ts"@.len() != "cts"@.len());
    assert("ts"@[0] != "cs"@[0]);
    assert("tsx"@[0] != "mts"@[0]);
    assert("tsx"@[0] != "cts"@[0]);
    assert("tsx"@.len() != "cs"@.len());
    assert("mts"@[0] != "cts"@[0]);
    assert("mts"@.len() != "cs"@.len());
    assert("cts"@.len() != "cs"@.len());
}

/// The names that a language goes by: `rust` and `rs`; `javascript` and
/// `js`; `typescript` and `ts`; `csharp`, `c#` and `cs`; no other name
/// stands for a language.
pub proof fn lemma_alias_table(name: Seq<char>)
    ensures
        alias_language("rust"@) == Some(SupportedLanguage::Rust),
        alias_language("rs"@) == Some(SupportedLanguage::Rust),
        alias_language("javascript"@) == Some(SupportedLanguage::JavaScript),
        alias_language("js"@) == Some(SupportedLanguage::JavaScript),
        alias_language("typescript"@) == Some(SupportedLanguage::TypeScript),
        alias_language("ts"@) == Some(SupportedLanguage::TypeScript),
        alias_language("csharp"@) == Some(SupportedLanguage::CSharp),
        alias_language("c#"@) == Some(SupportedLanguage::CSharp),
        alias_language("cs"@) == Some(SupportedLanguage::CSharp),
        alias_language(name) is Some ==> (name == "rust"@ || name == "rs"@ || name == "javascript"@ || name == "js"@ || name == "typescript"@ || name == "ts"@ || name == "csharp"@ || name == "c#"@ || name == "cs"@),
{
    reveal_strlit("rust");
    reveal_strlit("rs");
    reveal_strlit("javascript");
    reveal_strlit("js");
    reveal_strlit("typescript");
    reveal_strlit("ts");
    reveal_strlit("csharp");
    reveal_strlit("c#");
    reveal_strlit("cs");
    assert("rust"@.len() != "rs"@.len());
    assert("rust"@.len() != "javascript"@.len());
    assert("rust"@.len() != "js"@.len());
    assert("rust"@.len() != "typescript"@.len());
    assert("rust"@.len() != "ts"@.len());
    assert("rust"@.len() != "csharp"@.len());
    assert("rust"@.len() != "c#"@.len());
    assert("rust"@.len() != "cs"@.len());
    assert("rs"@.len() != "javascript"@.len());
    assert("rs"@[0] != "js"@[0]);
    assert("rs"@.len() != "typescript"@.len());
    assert("rs"@[0] != "ts"@[0]);
    assert("rs"@.len() != "csharp"@.len());
    assert("rs"@[0] != "c#"@[0]);
    assert("rs"@[0] != "cs"@[0]);
    assert("javascript"@.len() != "js"@.len());
    assert("javascript"@[0] != "typescript"@[0]);
    assert("javascript"@.len() != "ts"@.len());
    assert("javascript"@.len() != "csharp"@.len());
    assert("javascript"@.len() != "c#"@.len());
    assert("javascript"@.len() != "cs"@.len());
    assert("js"@.len() != "typescript"@.len());
    assert("js"@[0] != "ts"@[0]);
    assert("js"@.len() != "csharp"@.len());
    assert("js"@[0] != "c#"@[0]);
    assert("js"@[0] != "cs"@[0]);
    assert("typescript"@.len() != "ts"@.len());
    assert("typescript"@.len() != "csharp"@.len());
    assert("typescript"@.len() != "c#"@.len());
    assert("typescript"@.len() != "cs"@.len());
    assert("ts"@.len() != "csharp"@.len());
    assert("ts"@[0] != "c#"@[0]);
    assert("ts"@[0] != "cs"@[0]);
    assert("csharp"@.len() != "c#"@.len());
    assert("csharp"@.len() != "cs"@.len());
    assert("c#"@[1] != "cs"@[1]);
}

// ---------------------------------------------------------------------------
// The configuration.
// ---------------------------------------------------------------------------

/// The kind of operating system, which decides where per-user data lives
/// and how a command is written for the user's shell.
#[derive(Debug, Clone, Copy, PartialEq, Eq, Structural)]
pub enum Platform {
    /// Linux and the other systems that follow the XDG base directories.
    Linux,
    MacOs,
    Windows,
}

/// Why a configuration could not be formed.
#[derive(Debug, Clone, PartialEq, Eq)]
pub enum ConfigError {
    /// `CFIND_ROOT` is unset or empty; the message's example suits the
    /// platform's shell.
    RootRequired(Platform),
    /// The root exists but is not a directory.
    RootNotDirectory(String),
    /// A piece of `CFIND_LANGUAGES` names no supported language.
    UnsupportedLanguage(String),
    /// `CFIND_INDEX` is set but empty.
    EmptyIndexPath,
    /// `CFIND_STALE_AFTER_HOURS` is not a number of hours that fits.
    InvalidStaleAfterHours,
    /// Neither `XDG_DATA_HOME` nor `HOME` gives a data directory.
    HomeNotSet,
    /// `LOCALAPPDATA` is unset or empty (on Windows).
    LocalAppDataNotSet,
}

impl ConfigError {
    /// The message shown to the user.
    pub fn message(&self) -> (m: String)
        ensures
            m@ == match self {
                ConfigError::RootRequired(platform) => if *platform == Platform::Windows {
                    "CFIND_ROOT is required; set it to the directory containing your repositories, for example: $env:CFIND_ROOT=\"C:\\path\\to\\code\""@
                } else {
                    "CFIND_ROOT is required; set it to the directory containing your repositories, for example: export CFIND_ROOT=\"$HOME/code\""@
                },
                ConfigError::RootNotDirectory(root) => "search root is not a directory: "@ + root@,
                ConfigError::UnsupportedLanguage(value) => "unsupported language in CFIND_LANGUAGES: "@ + value@,
                ConfigError::EmptyIndexPath => "CFIND_INDEX must not be empty"@,
                ConfigError::InvalidStaleAfterHours => "CFIND_STALE_AFTER_HOURS must be a non-negative number of hours"@,
                ConfigError::HomeNotSet => "HOME is not set; set CFIND_INDEX to choose an index location"@,
                ConfigError::LocalAppDataNotSet => "LOCALAPPDATA is not set; set CFIND_INDEX to choose an index location"@,
            },
    {
        match self {
            ConfigError::RootRequired(platform) => if *platform == Platform::Windows {
                String::from_str(
                    "CFIND_ROOT is required; set it to the directory containing your repositories, for example: $env:CFIND_ROOT=\"C:\\path\\to\\code\"",
                )
            } else {
                String::from_str(
                    "CFIND_ROOT is required; set it to the directory containing your repositories, for example: export CFIND_ROOT=\"$HOME/code\"",
                )
            },
            ConfigError::RootNotDirectory(root) => {
                let mut m = String::from_str("search root is not a directory: ");
                m.append(root.as_str());
                m
            },
            ConfigError::UnsupportedLanguage(value) => {
                let mut m = String::from_str("unsupported language in CFIND_LANGUAGES: ");
                m.append(value.as_str());
                m
            },
            ConfigError::EmptyIndexPath => String::from_str("CFIND_INDEX must not be empty"),
            ConfigError::InvalidStaleAfterHours => String::from_str(
                "CFIND_STALE_AFTER_HOURS must be a non-negative number of hours",
            ),
            ConfigError::HomeNotSet => String::from_str(
                "HOME is not set; set CFIND_INDEX to choose an index location",
            ),
            ConfigError::LocalAppDataNotSet => String::from_str(
                "LOCALAPPDATA is not set; set CFIND_INDEX to choose an index location",
            ),
        }
    }
}

/// The settings one run works with.
#[derive(Debug, Clone)]
pub struct Config {
    /// The canonical directory whose repositories are indexed.
    pub root: String,
    /// Where the index database lives.
    pub index_path: String,
    /// The languages to index; no language occurs twice.
    pub languages: Vec<SupportedLanguage>,
    /// After this many seconds an index is old; zero disables every age and
    /// Git-state check.
    pub stale_after: u64,
}

impl Config {
    /// The age after which the user is warned that the index is old.
    pub fn warn_after(&self) -> (seconds: u64)
        ensures
            seconds == self.stale_after,
    {
        self.stale_after
    }

    /// The age after which the index is rebuilt without asking: three
    /// warning periods (saturating).
    pub fn automatic_rebuild_after(&self) -> (seconds: u64)
        ensures
            seconds == saturating(3 * self.stale_after),
    {
        if self.stale_after > u64::MAX / 3 {
            u64::MAX
        } else {
            self.stale_after * 3
        }
    }

    /// The fetch age after which a repository's Git state is reported:
    /// twelve warning periods (saturating).
    pub fn fetch_stale_after(&self) -> (seconds: u64)
        ensures
            seconds == saturating(12 * self.stale_after),
    {
        if self.stale_after > u64::MAX / 12 {
            u64::MAX
        } else {
            self.stale_after * 12
        }
    }
}

/// `n`, or `u64::MAX` when `n` does not fit.
pub open spec fn saturating(n: int) -> u64 {
    if n > u64::MAX {
        u64::MAX
    } else {
        n as u64
    }
}

/// The pieces of `s` between commas, empty pieces included.
pub open spec fn comma_pieces(s: Seq<char>) -> Seq<Seq<char>> {
    split_on(s, ',')
}

/// The language a piece of `CFIND_LANGUAGES` names.
pub open spec fn piece_language(piece: Seq<char>) -> Option<SupportedLanguage> {
    alias_language(ascii_lowercase(trim(piece)))
}

/// Whether every piece names a language.
pub open spec fn all_pieces_supported(pieces: Seq<Seq<char>>) -> bool {
    forall|i: int| 0 <= i < pieces.len() ==> (#[trigger] piece_language(pieces[i])) is Some
}

/// Whether piece `i` is the first one that names no language.
pub open spec fn first_unsupported(pieces: Seq<Seq<char>>, i: int) -> bool {
    &&& 0 <= i < pieces.len()
    &&& piece_language(pieces[i]) is None
    &&& forall|j: int| 0 <= j < i ==> (#[trigger] piece_language(pieces[j])) is Some
}

/// Whether `language` is named by some piece.
pub open spec fn named_by_some_piece(pieces: Seq<Seq<char>>, language: SupportedLanguage) -> bool {
    exists|i: int| 0 <= i < pieces.len() && piece_language(pieces[i]) == Some(language)
}

/// The languages `CFIND_LANGUAGES` names: each comma-separated piece,
/// trimmed and without regard to ASCII case, must name a language.
pub fn parse_languages(value: &str) -> (r: Result<Vec<SupportedLanguage>, ConfigError>)
    ensures
        r is Ok <==> all_pieces_supported(comma_pieces(value@)),
        r matches Ok(languages) ==> {
            &&& languages@.no_duplicates()
            &&& languages@.len() > 0
            &&& forall|l: SupportedLanguage|
                languages@.contains(l) <==> named_by_some_piece(comma_pieces(value@), l)
        },
        r matches Err(e) ==> exists|i: int|
            first_unsupported(comma_pieces(value@), i) && (e matches ConfigError::UnsupportedLanguage(
                piece,
            ) && piece@ == comma_pieces(value@)[i]),
{
    let pieces = split_chars(&chars_of(value), ',');
    let ghost ps = comma_pieces(value@);
    let mut languages: Vec<SupportedLanguage> = Vec::new();
    let mut i: usize = 0;
    while i < pieces.len()
        invariant
            views(pieces@) == ps,
            ps == comma_pieces(value@),
            i <= ps.len(),
            forall|j: int| 0 <= j < i ==> (#[trigger] piece_language(ps[j])) is Some,
            languages@.no_duplicates(),
            forall|l: SupportedLanguage|
                languages@.contains(l) <==> exists|j: int| 0 <= j < i && piece_language(ps[j]) == Some(l),
        decreases ps.len() - i,
    {
        assert(pieces@[i as int]@ == ps[i as int]);
        let lowered = to_ascii_lowercase(&trimmed(&pieces[i]));
        match SupportedLanguage::from_alias(&lowered) {
            Some(language) => {
                let ghost before = languages@;
                if !contains_language(&languages, language) {
                    languages.push(language);
                    proof {
                        assert forall|a: int, b: int| 0 <= a < b < languages@.len() implies languages@[a] != languages@[b] by {
                            if b == languages@.len() - 1 {
                                assert(before.contains(languages@[a]));
                            }
                        }
                    }
                }
                proof {
                    assert forall|l: SupportedLanguage| languages@.contains(l) <==> exists|j: int| 0 <= j < i + 1 && piece_language(ps[j]) == Some(l) by {
                        if languages@.contains(l) {
                            if before.contains(l) {
                                let j = choose|j: int| 0 <= j < i && piece_language(ps[j]) == Some(l);
                                assert(0 <= j < i + 1 && piece_language(ps[j]) == Some(l));
                            } else {
                                assert(l == language);
                                assert(piece_language(ps[i as int]) == Some(l));
                            }
                        }
                        if exists|j: int| 0 <= j < i + 1 && piece_language(ps[j]) == Some(l) {
                            let j = choose|j: int| 0 <= j < i + 1 && piece_language(ps[j]) == Some(l);
                            if j < i {
                                assert(before.contains(l));
                                let k = choose|k: int| 0 <= k < before.len() && before[k] == l;
                                assert(languages@[k] == l);
                            } else {
                                assert(l == language);
                                if !before.contains(l) {
                                    assert(languages@[languages@.len() - 1] == l);
                                } else {
                                    let k = choose|k: int| 0 <= k < before.len() && before[k] == l;
                                    assert(languages@[k] == l);
                                }
                            }
                        }
                    }
                }
            },
            None => {
                let e = ConfigError::UnsupportedLanguage(string_from_chars(&pieces[i]));
                assert(first_unsupported(ps, i as int));
                assert(!all_pieces_supported(ps));
                return Err(e);
            },
        }
        i += 1;
    }
    proof {
        assert(ps.len() > 0);
        let l = piece_language(ps[0]).unwrap();
        assert(exists|j: int| 0 <= j < ps.len() && piece_language(ps[j]) == Some(l));
        assert(languages@.contains(l));
    }
    Ok(languages)
}

fn contains_language(languages: &Vec<SupportedLanguage>, language: SupportedLanguage) -> (b: bool)
    ensures
        b == languages@.contains(language),
{
    let mut i: usize = 0;
    while i < languages.len()
        invariant
            i <= languages@.len(),
            forall|j: int| 0 <= j < i ==> languages@[j] != language,
        decreases languages@.len() - i,
    {
        if languages[i] == language {
            return true;
        }
        i += 1;
    }
    false
}


/// The number of seconds `CFIND_STALE_AFTER_HOURS` asks for, if it is valid:
/// six hours when unset.
pub open spec fn stale_after_seconds(value: Option<Seq<char>>) -> Option<u64> {
    match value {
        None => Some((DEFAULT_STALE_AFTER_HOURS * 3600) as u64),
        Some(v) => match parse_u64(v) {
            Some(hours) => if hours * 3600 <= u64::MAX {
                Some((hours * 3600) as u64)
            } else {
                None
            },
            None => None,
        },
    }
}

/// Reads `CFIND_STALE_AFTER_HOURS` as a number of seconds.
pub fn parse_stale_after(value: Option<&str>) -> (r: Result<u64, ConfigError>)
    ensures
        r matches Ok(seconds) ==> stale_after_seconds(opt_view(value)) == Some(seconds),
        r matches Err(e) ==> stale_after_seconds(opt_view(value)) is None
            && e == ConfigError::InvalidStaleAfterHours,
{
    match value {
        None => Ok(DEFAULT_STALE_AFTER_HOURS * 3600),
        Some(v) => match parse_u64_chars(&chars_of(v)) {
            Some(hours) => if hours <= u64::MAX / 3600 {
                Ok(hours * 3600)
            } else {
                Err(ConfigError::InvalidStaleAfterHours)
            },
            None => Err(ConfigError::InvalidStaleAfterHours),
        },
    }
}

/// The view of an optional string.
pub open spec fn opt_view(value: Option<&str>) -> Option<Seq<char>> {
    match value {
        Some(v) => Some(v@),
        None => None,
    }
}

/// The directory that holds per-user data: on Windows `LOCALAPPDATA` when
/// it is set and not empty; on macOS `Library/Application Support` under
/// `HOME`; elsewhere `XDG_DATA_HOME` when it is set and not empty, otherwise
/// `.local/share` under `HOME`.
pub open spec fn data_home(
    platform: Platform,
    xdg_data_home: Option<Seq<char>>,
    home: Option<Seq<char>>,
    local_app_data: Option<Seq<char>>,
) -> Option<Seq<char>> {
    match platform {
        Platform::Windows => match local_app_data {
            Some(l) if l.len() > 0 => Some(l),
            _ => None,
        },
        Platform::MacOs => match home {
            Some(h) => Some(join(h, "Library/Application Support"@)),
            None => None,
        },
        Platform::Linux => match xdg_data_home {
            Some(x) if x.len() > 0 => Some(x),
            _ => match home {
                Some(h) => Some(join(h, ".local/share"@)),
                None => None,
            },
        },
    }
}

/// The error when the platform gives no data directory.
pub open spec fn data_home_error(platform: Platform) -> ConfigError {
    if platform == Platform::Windows {
        ConfigError::LocalAppDataNotSet
    } else {
        ConfigError::HomeNotSet
    }
}

/// The directory that holds per-user data on `platform`, from the values of
/// `XDG_DATA_HOME`, `HOME` and `LOCALAPPDATA`.
pub fn platform_data_home(
    platform: Platform,
    xdg_data_home: Option<&str>,
    home: Option<&str>,
    local_app_data: Option<&str>,
) -> (r: Result<String, ConfigError>)
    ensures
        r matches Ok(dir) ==> data_home(platform, opt_view(xdg_data_home), opt_view(home), opt_view(local_app_data))
            == Some(dir@),
        r matches Err(e) ==> data_home(platform, opt_view(xdg_data_home), opt_view(home), opt_view(local_app_data))
            is None && e == data_home_error(platform),
{
    match platform {
        Platform::Windows => match local_app_data {
            Some(l) => if l.is_empty() {
                Err(ConfigError::LocalAppDataNotSet)
            } else {
                Ok(String::from_str(l))
            },
            None => Err(ConfigError::LocalAppDataNotSet),
        },
        Platform::MacOs => match home {
            Some(h) => Ok(string_from_chars(&join_of(&chars_of(h), &chars_of("Library/Application Support")))),
            None => Err(ConfigError::HomeNotSet),
        },
        Platform::Linux => {
            if let Some(x) = xdg_data_home {
                if !x.is_empty() {
                    return Ok(String::from_str(x));
                }
            }
            match home {
                Some(h) => Ok(string_from_chars(&join_of(&chars_of(h), &chars_of(".local/share")))),
                None => Err(ConfigError::HomeNotSet),
            }
        },
    }
}

pub open spec fn fnv_offset_basis() -> u128 {
    0x6c62272e07bb014262b821756295c58d
}

pub open spec fn fnv_prime() -> u128 {
    0x0000000001000000000000000000013b
}

/// The 128-bit FNV-1a hash of `bytes`, which names an index after its root.
pub open spec fn namespace_hash(bytes: Seq<u8>) -> u128
    decreases bytes.len(),
{
    if bytes.len() == 0 {
        fnv_offset_basis()
    } else {
        (namespace_hash(bytes.drop_last()) ^ (bytes.last() as u128)).wrapping_mul(fnv_prime())
    }
}

/// The hash of the UTF-8 bytes of `root`.
pub fn namespace_hash_of(root: &str) -> (hash: u128)
    ensures
        hash == namespace_hash(root.spec_bytes()),
{
    let bytes = root.as_bytes();
    let mut hash: u128 = 0x6c62272e07bb014262b821756295c58d;
    let mut i: usize = 0;
    while i < bytes.len()
        invariant
            i <= bytes@.len(),
            hash == namespace_hash(bytes@.subrange(0, i as int)),
        decreases bytes@.len() - i,
    {
        proof {
            assert(bytes@.subrange(0, i + 1).drop_last() =~= bytes@.subrange(0, i as int));
        }
        hash = (hash ^ (bytes[i] as u128)).wrapping_mul(0x0000000001000000000000000000013b);
        i += 1;
    }
    assert(bytes@.subrange(0, i as int) =~= bytes@);
    hash
}

/// The lower-case hexadecimal digit for `d` (`0 <= d < 16`).
pub open spec fn hex_char(d: nat) -> char {
    if d < 10 {
        (('0' as u32) as nat + d) as char
    } else {
        (('a' as u32) as nat + d - 10) as char
    }
}

/// The last `count` hexadecimal digits of `n`, most significant first.
pub open spec fn hex_digits(n: nat, count: nat) -> Seq<char>
    decreases count,
{
    if count == 0 {
        Seq::empty()
    } else {
        hex_digits(n / 16, (count - 1) as nat).push(hex_char(n % 16))
    }
}

fn hex_digit(d: u128) -> (c: char)
    requires
        d < 16,
    ensures
        c == hex_char(d as nat),
{
    if d < 10 {
        ((d as u8) + 48u8) as char
    } else {
        ((d as u8) + 87u8) as char
    }
}

fn hex_chars(n: u128, count: u32) -> (r: Vec<char>)
    ensures
        r@ == hex_digits(n as nat, count as nat),
    decreases count,
{
    if count == 0 {
        Vec::new()
    } else {
        let mut r = hex_chars(n / 16, count - 1);
        r.push(hex_digit(n % 16));
        r
    }
}

/// The file name of the index for `root`: its hash as 32 lower-case
/// hexadecimal digits, then `.sqlite`.
pub open spec fn index_file_name(root: Seq<char>) -> Seq<char> {
    hex_digits(namespace_hash(vstd::utf8::encode_utf8(root)) as nat, 32) + ".sqlite"@
}

/// Whether `s` is a bare drive, such as `C:`.
pub open spec fn is_bare_drive(s: Seq<char>) -> bool {
    s.len() == 2 && s[1] == ':' && (('a' <= s[0] && s[0] <= 'z') || ('A' <= s[0] && s[0] <= 'Z'))
}

/// A relative path `rest` (with no drive or root of its own) appended to
/// `base` as a Windows path is extended: a backslash goes between them
/// unless `base` is empty, already ends with a separator, or is a bare
/// drive.
pub open spec fn windows_join(base: Seq<char>, rest: Seq<char>) -> Seq<char> {
    if base.len() == 0 || base.last() == '\\' || base.last() == '/' || is_bare_drive(base) {
        base + rest
    } else {
        base + seq!['\\'] + rest
    }
}

/// `rest` appended to the path `base` as the platform's paths are extended.
pub open spec fn platform_join(platform: Platform, base: Seq<char>, rest: Seq<char>) -> Seq<char> {
    if platform == Platform::Windows {
        windows_join(base, rest)
    } else {
        join(base, rest)
    }
}

fn windows_join_of(base: &[char], rest: &[char]) -> (r: Vec<char>)
    ensures
        r@ == windows_join(base@, rest@),
{
    let n = base.len();
    let bare_drive = n == 2 && base[1] == ':' && (('a' <= base[0] && base[0] <= 'z') || ('A' <= base[0]
        && base[0] <= 'Z'));
    let mut r = copy_chars(base);
    if !(n == 0 || base[n - 1] == '\\' || base[n - 1] == '/' || bare_drive) {
        r.push('\\');
    }
    append_chars(&mut r, rest);
    r
}

fn platform_join_of(platform: Platform, base: &[char], rest: &[char]) -> (r: Vec<char>)
    ensures
        r@ == platform_join(platform, base@, rest@),
{
    if platform == Platform::Windows {
        windows_join_of(base, rest)
    } else {
        join_of(base, rest)
    }
}

/// Where the index for `root` lives under a data directory.
pub open spec fn default_index_location(platform: Platform, data_home: Seq<char>, root: Seq<char>) -> Seq<char> {
    platform_join(platform, platform_join(platform, data_home, "cfind/indexes"@), index_file_name(root))
}

/// The directory text that index file names are appended to.
pub open spec fn index_directory_text(platform: Platform, data_home: Seq<char>) -> Seq<char> {
    let base = platform_join(platform, data_home, "cfind/indexes"@);
    if platform == Platform::Windows {
        base + seq!['\\']
    } else if base.len() > 0 && base.last() != '/' {
        base + seq!['/']
    } else {
        base
    }
}

proof fn lemma_hex_digits_shape(n: nat, count: nat)
    ensures
        hex_digits(n, count).len() == count,
        forall|i: int| 0 <= i < count ==> #[trigger] hex_digits(n, count)[i] != '/',
    decreases count,
{
    if count > 0 {
        lemma_hex_digits_shape(n / 16, (count - 1) as nat);
        let d = n % 16;
        if d < 10 {
            assert(hex_char(d) as u32 == 48 + d);
        } else {
            assert(hex_char(d) as u32 == 97 + d - 10);
        }
        assert forall|i: int| 0 <= i < count implies #[trigger] hex_digits(n, count)[i] != '/' by {
            if i < count - 1 {
                assert(hex_digits(n, count)[i] == hex_digits(n / 16, (count - 1) as nat)[i]);
            }
        }
    }
}

/// Indexes are kept side by side: every root's index lies in the same
/// directory under the data directory, in a file named by the root's hash
/// (32 hexadecimal digits) that ends in `.sqlite`.
pub proof fn lemma_index_locations_share_a_directory(platform: Platform, data_home: Seq<char>, root: Seq<char>)
    ensures
        default_index_location(platform, data_home, root) == index_directory_text(platform, data_home) + index_file_name(
            root,
        ),
        index_file_name(root).len() == 39,
        index_file_name(root).subrange(32, 39) == ".sqlite"@,
{
    let name = index_file_name(root);
    let digits = hex_digits(namespace_hash(vstd::utf8::encode_utf8(root)) as nat, 32);
    lemma_hex_digits_shape(namespace_hash(vstd::utf8::encode_utf8(root)) as nat, 32);
    reveal_strlit(".sqlite");
    assert(name[0] == digits[0]);
    let base = platform_join(platform, data_home, "cfind/indexes"@);
    if platform == Platform::Windows {
        reveal_strlit("cfind/indexes");
        assert(base.last() == 's');
        assert(base.len() >= 13);
        assert(base + seq!['\\'] + name =~= index_directory_text(platform, data_home) + name);
    } else if base.len() > 0 && base.last() != '/' {
        assert(base + seq!['/'] + name =~= index_directory_text(platform, data_home) + name);
    }
    assert(name.subrange(32, 39) =~= ".sqlite"@);
}

/// The index path for `root` under the data directory `data_home`: each
/// root gets a database of its own, named by a stable hash of the root.
pub fn default_index_path(platform: Platform, data_home: &str, root: &str) -> (path: String)
    ensures
        path@ == default_index_location(platform, data_home@, root@),
{
    let mut name = hex_chars(namespace_hash_of(root), 32);
    let suffix = chars_of(".sqlite");
    let ghost digits = name@;
    let mut i: usize = 0;
    while i < suffix.len()
        invariant
            i <= suffix@.len(),
            name@ == digits + suffix@.subrange(0, i as int),
        decreases suffix@.len() - i,
    {
        name.push(suffix[i]);
        i += 1;
        assert(name@ =~= digits + suffix@.subrange(0, i as int));
    }
    assert(suffix@.subrange(0, i as int) =~= suffix@);
    let directory = platform_join_of(platform, &chars_of(data_home), &chars_of("cfind/indexes"));
    string_from_chars(&platform_join_of(platform, &directory, &name))
}

/// The search root that `CFIND_ROOT` names, as given; an error when it is
/// unset or empty.
pub fn root_setting(platform: Platform, value: Option<&str>) -> (r: Result<String, ConfigError>)
    ensures
        match value {
            Some(v) => if v@.len() > 0 {
                r matches Ok(root) && root@ == v@
            } else {
                r == Err::<String, ConfigError>(ConfigError::RootRequired(platform))
            },
            None => r == Err::<String, ConfigError>(ConfigError::RootRequired(platform)),
        },
{
    match value {
        Some(v) => if v.is_empty() {
            Err(ConfigError::RootRequired(platform))
        } else {
            Ok(String::from_str(v))
        },
        None => Err(ConfigError::RootRequired(platform)),
    }
}

impl Config {
    /// The configuration the environment describes. `root` is the canonical
    /// form of `CFIND_ROOT`; the other arguments are the values of
    /// `CFIND_LANGUAGES`, `CFIND_INDEX`, `CFIND_STALE_AFTER_HOURS`,
    /// `XDG_DATA_HOME`, `HOME` and `LOCALAPPDATA`, read on `platform`. The
    /// checks run in that order and the first that fails is reported.
    pub fn from_values(
        platform: Platform,
        root: &str,
        root_is_directory: bool,
        languages: Option<&str>,
        index_path: Option<&str>,
        stale_after_hours: Option<&str>,
        xdg_data_home: Option<&str>,
        home: Option<&str>,
        local_app_data: Option<&str>,
    ) -> (r: Result<Config, ConfigError>)
        ensures
            !root_is_directory ==> (r matches Err(ConfigError::RootNotDirectory(p)) && p@ == root@),
            root_is_directory ==> match r {
                Ok(config) => {
                    &&& config.root@ == root@
                    &&& language_value_accepted(languages)
                    &&& config.languages@.no_duplicates()
                    &&& forall|l: SupportedLanguage| config.languages@.contains(l) <==> named_by_some_piece(
                        comma_pieces(language_value(languages)),
                        l,
                    )
                    &&& index_location(platform, index_path, xdg_data_home, home, local_app_data, root@) == Some(config.index_path@)
                    &&& stale_after_seconds(opt_view(stale_after_hours)) == Some(config.stale_after)
                },
                Err(e) => if !language_value_accepted(languages) {
                    exists|i: int|
                        first_unsupported(comma_pieces(language_value(languages)), i) && (e matches ConfigError::UnsupportedLanguage(
                            piece,
                        ) && piece@ == comma_pieces(language_value(languages))[i])
                } else if index_path matches Some(p) && p@.len() == 0 {
                    e == ConfigError::EmptyIndexPath
                } else if index_location(platform, index_path, xdg_data_home, home, local_app_data, root@) is None {
                    e == data_home_error(platform)
                } else {
                    stale_after_seconds(opt_view(stale_after_hours)) is None
                        && e == ConfigError::InvalidStaleAfterHours
                },
            },
    {
        if !root_is_directory {
            return Err(ConfigError::RootNotDirectory(String::from_str(root)));
        }
        let language_list = match languages {
            Some(value) => parse_languages(value),
            None => parse_languages(DEFAULT_LANGUAGES),
        };
        let language_list = match language_list {
            Ok(l) => l,
            Err(e) => return Err(e),
        };
        let index = match index_path {
            Some(p) => {
                if p.is_empty() {
                    return Err(ConfigError::EmptyIndexPath);
                }
                String::from_str(p)
            },
            None => match platform_data_home(platform, xdg_data_home, home, local_app_data) {
                Ok(dir) => default_index_path(platform, dir.as_str(), root),
                Err(e) => return Err(e),
            },
        };
        let stale_after = match parse_stale_after(stale_after_hours) {
            Ok(s) => s,
            Err(e) => return Err(e),
        };
        Ok(Config { root: String::from_str(root), index_path: index, languages: language_list, stale_after })
    }
}

/// The value of `CFIND_LANGUAGES`, or the default list when it is unset.
pub open spec fn language_value(languages: Option<&str>) -> Seq<char> {
    match languages {
        Some(v) => v@,
        None => DEFAULT_LANGUAGES@,
    }
}

pub open spec fn language_value_accepted(languages: Option<&str>) -> bool {
    all_pieces_supported(comma_pieces(language_value(languages)))
}

/// Where the index lives: `CFIND_INDEX` when set and not empty, otherwise
/// the default location under the data directory, if there is one.
pub open spec fn index_location(
    platform: Platform,
    index_path: Option<&str>,
    xdg_data_home: Option<&str>,
    home: Option<&str>,
    local_app_data: Option<&str>,
    root: Seq<char>,
) -> Option<Seq<char>> {
    match index_path {
        Some(p) => if p@.len() > 0 {
            Some(p@)
        } else {
            None
        },
        None => match data_home(platform, opt_view(xdg_data_home), opt_view(home), opt_view(local_app_data)) {
            Some(d) => Some(default_index_location(platform, d, root)),
            None => None,
        },
    }
}

} // verus!
