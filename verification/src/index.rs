//! The rules around the index database: what it records about the
//! configuration it was built for, when it is stale, which tracked files go
//! into it, where the repositories under the root are, and how a rebuild is
//! reported.
use vstd::prelude::*;
use crate::config::{Config, Platform, SupportedLanguage};
use crate::git::TrackedFile;
use crate::order::{
    chars_less, lemma_path_less_asymmetric, lemma_path_less_irreflexive, lemma_path_less_total,
    lemma_path_less_transitive, path_before, path_less, texts_of,
};
use crate::path::{components, components_of, join, join_of, texts};
use crate::text::{
    ascii_lowercase, split_state, to_ascii_lowercase,
    append_chars, append_str, chars_of, decimal, decimal_chars, join_with, lemma_decimal_parses,
    parse_u64, parse_u64_chars, string_from_chars, trim, trimmed,
};
use crate::config::{path_language, saturating};
use crate::string_opt;
use crate::git::chars_same;

verus! {

/// The format version of the index; an index of another version is rebuilt.
pub const INDEX_VERSION: u64 = 9;

/// How an index on disk relates to the configuration.
#[derive(Debug, Clone, Copy, PartialEq, Eq, Structural)]
pub enum IndexState {
    /// There is no index.
    Missing,
    /// The index was built for another configuration or format.
    ConfigurationMismatch,
    /// The index is current.
    Fresh,
    /// The index is older than the warning period.
    Warn,
    /// The index is older than the automatic rebuild period.
    Rebuild,
}

/// What an existing index file holds about itself.
#[derive(Debug, Clone)]
pub struct StoredIndex {
    /// Whether the metadata, repository, file and symbol tables all exist.
    pub tables_present: bool,
    pub version: Option<String>,
    pub root: Option<String>,
    pub languages: Option<String>,
    pub created_at: Option<String>,
}

/// What a new index records about the configuration it was built for.
#[derive(Debug, Clone)]
pub struct IndexMetadata {
    pub version: String,
    pub root: String,
    pub languages: String,
    /// When it was built, in seconds since the Unix epoch.
    pub created_at: String,
}

/// The languages in the order of their names.
pub open spec fn name_order() -> Seq<SupportedLanguage> {
    seq![
        SupportedLanguage::CSharp,
        SupportedLanguage::JavaScript,
        SupportedLanguage::Rust,
        SupportedLanguage::TypeScript,
    ]
}

/// The names of the configured languages, in sorted order.
pub open spec fn sorted_language_names(languages: Seq<SupportedLanguage>) -> Seq<Seq<char>> {
    name_order().filter(|l: SupportedLanguage| languages.contains(l)).map_values(
        |l: SupportedLanguage| l.name_of(),
    )
}

/// The language set as an index records it: the names, sorted and joined
/// by commas.
pub open spec fn language_list(languages: Seq<SupportedLanguage>) -> Seq<char> {
    join_with(sorted_language_names(languages), ","@)
}

/// The names of the languages, in sorted order, each once, exactly for
/// the languages that are configured.
pub proof fn lemma_language_names_sorted(languages: Seq<SupportedLanguage>)
    ensures
        forall|i: int, j: int|
            0 <= i < j < sorted_language_names(languages).len() ==> chars_less(
                #[trigger] sorted_language_names(languages)[i],
                #[trigger] sorted_language_names(languages)[j],
            ),
        forall|l: SupportedLanguage|
            #![trigger languages.contains(l)]
            languages.contains(l) <==> sorted_language_names(languages).contains(l.name_of()),
{
    let order = name_order();
    let kept = order.filter(|l: SupportedLanguage| languages.contains(l));
    let names = sorted_language_names(languages);
    reveal_with_fuel(vstd::seq::Seq::filter, 5);
    assert(order.drop_last() =~= seq![SupportedLanguage::CSharp, SupportedLanguage::JavaScript, SupportedLanguage::Rust]);
    assert(order.drop_last().drop_last() =~= seq![SupportedLanguage::CSharp, SupportedLanguage::JavaScript]);
    assert(order.drop_last().drop_last().drop_last() =~= seq![SupportedLanguage::CSharp]);
    assert(order.drop_last().drop_last().drop_last().drop_last() =~= Seq::<SupportedLanguage>::empty());
    reveal_strlit("csharp");
    reveal_strlit("javascript");
    reveal_strlit("rust");
    reveal_strlit("typescript");
    assert forall|a: SupportedLanguage, b: SupportedLanguage|
        #![trigger a.name_of(), b.name_of()]
        position(a) < position(b) implies chars_less(a.name_of(), b.name_of()) by {
        assert(a.name_of()[0] != b.name_of()[0]);
    }
    assert forall|i: int, j: int| 0 <= i < j < names.len() implies chars_less(
        #[trigger] names[i],
        #[trigger] names[j],
    ) by {
        assert(position(kept[i]) < position(kept[j]));
    }
    assert forall|l: SupportedLanguage| #![trigger languages.contains(l)]
        languages.contains(l) <==> names.contains(l.name_of()) by {
        if languages.contains(l) {
            assert(kept.contains(l));
            let k = choose|k: int| 0 <= k < kept.len() && kept[k] == l;
            assert(names[k] == l.name_of());
        }
        if names.contains(l.name_of()) {
            let k = choose|k: int| 0 <= k < names.len() && names[k] == l.name_of();
            assert(kept[k].name_of() == l.name_of());
            assert(kept[k].name_of()[0] == l.name_of()[0]);
            assert(kept[k].name_of().len() == l.name_of().len());
            assert(kept[k] == l);
        }
    }
}

/// Where a language stands in `name_order`.
pub open spec fn position(l: SupportedLanguage) -> int {
    match l {
        SupportedLanguage::CSharp => 0,
        SupportedLanguage::JavaScript => 1,
        SupportedLanguage::Rust => 2,
        SupportedLanguage::TypeScript => 3,
    }
}

/// The language set of `config` as an index records it.
pub fn configured_languages(config: &Config) -> (list: String)
    ensures
        list@ == language_list(config.languages@),
{
    let ghost languages = config.languages@;
    let order = [
        SupportedLanguage::CSharp,
        SupportedLanguage::JavaScript,
        SupportedLanguage::Rust,
        SupportedLanguage::TypeScript,
    ];
    let mut out: Vec<char> = Vec::new();
    let mut first = true;
    let mut k: usize = 0;
    assert(order@ =~= name_order());
    while k < 4
        invariant
            k <= 4,
            order@ == name_order(),
            languages == config.languages@,
            out@ == join_with(sorted_language_names_upto(languages, k as int), ","@),
            first == (sorted_language_names_upto(languages, k as int).len() == 0),
        decreases 4 - k,
    {
        let language = order[k];
        let mut present = false;
        let mut j: usize = 0;
        while j < config.languages.len()
            invariant
                j <= config.languages@.len(),
                languages == config.languages@,
                present == (exists|i: int| 0 <= i < j && config.languages@[i] == language),
            decreases config.languages@.len() - j,
        {
            if config.languages[j] == language {
                present = true;
            }
            j += 1;
        }
        proof {
            lemma_names_upto_step(languages, k as int);
            if present {
                let i = choose|i: int| 0 <= i < j && config.languages@[i] == language;
                assert(languages.contains(language));
            } else {
                assert(!languages.contains(language));
            }
        }
        if present {
            let ghost before = out@;
            if !first {
                out.push(',');
            }
            append_str(&mut out, language.as_str());
            proof {
                let names = sorted_language_names_upto(languages, k as int);
                lemma_join_push(names, language.name_of());
                if names.len() > 0 {
                    assert(out@ =~= before + ","@ + language.name_of()) by {
                        reveal_strlit(",");
                    }
                } else {
                    assert(out@ =~= language.name_of());
                }
            }
            first = false;
        }
        k += 1;
    }
    proof {
        lemma_names_upto_all(languages);
    }
    string_from_chars(&out)
}

/// The sorted names of the configured languages among the first `k` of
/// `name_order`.
pub open spec fn sorted_language_names_upto(languages: Seq<SupportedLanguage>, k: int) -> Seq<Seq<char>> {
    name_order().take(k).filter(|l: SupportedLanguage| languages.contains(l)).map_values(
        |l: SupportedLanguage| l.name_of(),
    )
}

proof fn lemma_names_upto_step(languages: Seq<SupportedLanguage>, k: int)
    requires
        0 <= k < 4,
    ensures
        sorted_language_names_upto(languages, k + 1) == if languages.contains(name_order()[k]) {
            sorted_language_names_upto(languages, k).push(name_order()[k].name_of())
        } else {
            sorted_language_names_upto(languages, k)
        },
{
    let f = |l: SupportedLanguage| languages.contains(l);
    let longer = name_order().take(k + 1);
    assert(longer.drop_last() =~= name_order().take(k));
    assert(longer.last() == name_order()[k]);
    reveal_with_fuel(vstd::seq::Seq::filter, 1);
    assert(longer.filter(f) == if f(longer.last()) {
        longer.drop_last().filter(f).push(longer.last())
    } else {
        longer.drop_last().filter(f)
    });
    if languages.contains(name_order()[k]) {
        assert(longer.filter(f).map_values(|l: SupportedLanguage| l.name_of()) =~= name_order().take(k).filter(
            f,
        ).map_values(|l: SupportedLanguage| l.name_of()).push(name_order()[k].name_of()));
    }
}

proof fn lemma_names_upto_all(languages: Seq<SupportedLanguage>)
    ensures
        sorted_language_names_upto(languages, 4) == sorted_language_names(languages),
{
    assert(name_order().take(4) =~= name_order());
}

proof fn lemma_join_push(parts: Seq<Seq<char>>, last: Seq<char>)
    ensures
        join_with(parts.push(last), ","@) == if parts.len() == 0 {
            last
        } else {
            join_with(parts, ","@) + ","@ + last
        },
{
    assert(parts.push(last).drop_last() =~= parts);
}


// ---------------------------------------------------------------------------
// Index metadata and staleness.
// ---------------------------------------------------------------------------

/// The metadata of an index built for `config` at `created_at`.
pub open spec fn records(metadata: IndexMetadata, config: Config, created_at: u64) -> bool {
    &&& metadata.version@ == decimal(INDEX_VERSION as nat)
    &&& metadata.root@ == config.root@
    &&& metadata.languages@ == language_list(config.languages@)
    &&& metadata.created_at@ == decimal(created_at as nat)
}

/// What an index built for `config` at `created_at` records about itself.
pub fn index_metadata(config: &Config, created_at: u64) -> (metadata: IndexMetadata)
    ensures
        records(metadata, *config, created_at),
{
    IndexMetadata {
        version: string_from_chars(&decimal_chars(INDEX_VERSION as u128)),
        root: config.root.clone(),
        languages: configured_languages(config),
        created_at: string_from_chars(&decimal_chars(created_at as u128)),
    }
}

/// How old an index of age `age` counts: never stale when the period is
/// zero; otherwise to be rebuilt after three periods, warned about after
/// one.
pub open spec fn age_state(stale_after: u64, age: u64) -> IndexState {
    if stale_after == 0 {
        IndexState::Fresh
    } else if age > saturating(3 * stale_after) {
        IndexState::Rebuild
    } else if age > stale_after {
        IndexState::Warn
    } else {
        IndexState::Fresh
    }
}

/// How the index described by `stored` (none when there is no index file)
/// relates to `config` at time `now`: a mismatch unless its tables exist
/// and it records this format version, root and language set and a
/// readable creation time; otherwise judged by its age.
pub open spec fn stored_state(stored: Option<StoredIndex>, config: Config, now: u64) -> IndexState {
    match stored {
        None => IndexState::Missing,
        Some(index) => if !index.tables_present || string_opt(index.version) != Some(
            decimal(INDEX_VERSION as nat),
        ) || string_opt(index.root) != Some(config.root@) || string_opt(index.languages) != Some(
            language_list(config.languages@),
        ) {
            IndexState::ConfigurationMismatch
        } else {
            match index.created_at {
                Some(text) => match parse_u64(text@) {
                    Some(created_at) => age_state(
                        config.stale_after,
                        if now >= created_at {
                            (now - created_at) as u64
                        } else {
                            0
                        },
                    ),
                    None => IndexState::ConfigurationMismatch,
                },
                None => IndexState::ConfigurationMismatch,
            }
        },
    }
}

fn text_is(value: &Option<String>, expected: &Vec<char>) -> (b: bool)
    ensures
        b == (string_opt(*value) == Some(expected@)),
{
    match value {
        Some(v) => chars_same(&chars_of(v.as_str()), expected),
        None => false,
    }
}

/// How the index described by `stored` relates to `config` at `now`
/// (seconds since the Unix epoch).
pub fn index_state(stored: &Option<StoredIndex>, config: &Config, now: u64) -> (state: IndexState)
    ensures
        state == stored_state(*stored, *config, now),
{
    let index = match stored {
        None => return IndexState::Missing,
        Some(index) => index,
    };
    if !index.tables_present || !text_is(&index.version, &decimal_chars(INDEX_VERSION as u128)) || !text_is(
        &index.root,
        &chars_of(config.root.as_str()),
    ) || !text_is(&index.languages, &chars_of(configured_languages(config).as_str())) {
        return IndexState::ConfigurationMismatch;
    }
    let created_at = match &index.created_at {
        Some(text) => match parse_u64_chars(&chars_of(text.as_str())) {
            Some(t) => t,
            None => return IndexState::ConfigurationMismatch,
        },
        None => return IndexState::ConfigurationMismatch,
    };
    let age = if now >= created_at { now - created_at } else { 0 };
    if config.stale_after == 0 {
        IndexState::Fresh
    } else if age > config.automatic_rebuild_after() {
        IndexState::Rebuild
    } else if age > config.warn_after() {
        IndexState::Warn
    } else {
        IndexState::Fresh
    }
}

/// What an index file holds when it was written with `metadata`.
pub open spec fn read_back(metadata: IndexMetadata) -> StoredIndex {
    StoredIndex {
        tables_present: true,
        version: Some(metadata.version),
        root: Some(metadata.root),
        languages: Some(metadata.languages),
        created_at: Some(metadata.created_at),
    }
}

/// An index read back as it was recorded for a configuration matches that
/// configuration: it is judged by its age alone (and is fresh when read at
/// the time it was built).
pub proof fn lemma_recorded_index_matches(metadata: IndexMetadata, config: Config, created_at: u64, now: u64)
    requires
        records(metadata, config, created_at),
    ensures
        stored_state(Some(read_back(metadata)), config, now) == age_state(
            config.stale_after,
            if now >= created_at {
                (now - created_at) as u64
            } else {
                0
            },
        ),
        stored_state(Some(read_back(metadata)), config, created_at) == IndexState::Fresh,
{
    lemma_decimal_parses(created_at as nat);
}

/// An index recorded for one root is a configuration mismatch for a
/// configuration with another root.
pub proof fn lemma_other_root_mismatches(metadata: IndexMetadata, config: Config, other: Config, created_at: u64, now: u64)
    requires
        records(metadata, config, created_at),
        other.root@ != config.root@,
    ensures
        stored_state(Some(read_back(metadata)), other, now) == IndexState::ConfigurationMismatch,
{
}


// ---------------------------------------------------------------------------
// Preparing the index for a search.
// ---------------------------------------------------------------------------

/// What a search does with the index before searching.
#[derive(Debug, Clone)]
pub struct Preparation {
    /// What to tell the user (on standard error) first.
    pub notices: Vec<String>,
    /// Whether to rebuild the index before searching.
    pub rebuild: bool,
    /// Whether to warn that the index is old.
    pub warn: bool,
}

pub open spec fn string_views(v: Seq<String>) -> Seq<Seq<char>> {
    v.map_values(|s: String| s@)
}

/// A missing index is created, a mismatched or too old one rebuilt, each
/// with a notice; an old one is used with a warning; a fresh one is used.
pub fn prepare_index(state: IndexState, index_path: &str) -> (p: Preparation)
    ensures
        p.rebuild == (state == IndexState::Missing || state == IndexState::ConfigurationMismatch || state
            == IndexState::Rebuild),
        p.warn == (state == IndexState::Warn),
        string_views(p.notices@) == match state {
            IndexState::Missing => seq![
                "No index found."@,
                "Creating SQLite index at "@ + index_path@ + "."@,
            ],
            IndexState::ConfigurationMismatch => seq!["Index configuration changed; rebuilding SQLite index."@],
            IndexState::Rebuild => seq!["Index age exceeded the automatic rebuild threshold; rebuilding."@],
            _ => Seq::<Seq<char>>::empty(),
        },
{
    let mut notices: Vec<String> = Vec::new();
    match state {
        IndexState::Missing => {
            notices.push(String::from_str("No index found."));
            let mut line: Vec<char> = Vec::new();
            append_str(&mut line, "Creating SQLite index at ");
            append_str(&mut line, index_path);
            append_str(&mut line, ".");
            notices.push(string_from_chars(&line));
        },
        IndexState::ConfigurationMismatch => {
            notices.push(String::from_str("Index configuration changed; rebuilding SQLite index."));
        },
        IndexState::Rebuild => {
            notices.push(String::from_str("Index age exceeded the automatic rebuild threshold; rebuilding."));
        },
        _ => {},
    }
    let p = Preparation {
        notices,
        rebuild: state == IndexState::Missing || state == IndexState::ConfigurationMismatch || state
            == IndexState::Rebuild,
        warn: state == IndexState::Warn,
    };
    assert(string_views(p.notices@) =~= match state {
        IndexState::Missing => seq!["No index found."@, "Creating SQLite index at "@ + index_path@ + "."@],
        IndexState::ConfigurationMismatch => seq!["Index configuration changed; rebuilding SQLite index."@],
        IndexState::Rebuild => seq!["Index age exceeded the automatic rebuild threshold; rebuilding."@],
        _ => Seq::<Seq<char>>::empty(),
    });
    p
}

/// The warning period in words: "1 hour" or "N hours".
pub open spec fn period_text(stale_after: u64) -> Seq<char> {
    let hours = stale_after / 3600;
    if hours == 1 {
        "1 hour"@
    } else {
        decimal(hours as nat) + " hours"@
    }
}

pub fn warning_period(config: &Config) -> (text: String)
    ensures
        text@ == period_text(config.stale_after),
{
    let hours = config.warn_after() / 3600;
    if hours == 1 {
        String::from_str("1 hour")
    } else {
        let mut text = decimal_chars(hours as u128);
        append_str(&mut text, " hours");
        string_from_chars(&text)
    }
}

/// `s` quoted for a POSIX shell: in single quotes, each single quote
/// written as `'\''`.
pub open spec fn shell_quoted(s: Seq<char>) -> Seq<char> {
    "'"@ + escaped_quotes(s) + "'"@
}

pub open spec fn escaped_quotes(s: Seq<char>) -> Seq<char>
    decreases s.len(),
{
    if s.len() == 0 {
        Seq::empty()
    } else {
        escaped_quotes(s.drop_last()) + if s.last() == '\'' {
            "'\\''"@
        } else {
            seq![s.last()]
        }
    }
}

fn shell_quote(s: &str, out: &mut Vec<char>)
    ensures
        final(out)@ == old(out)@ + shell_quoted(s@),
{
    let chars = chars_of(s);
    let ghost start = out@;
    append_str(out, "'");
    let ghost head = out@;
    let mut i: usize = 0;
    while i < chars.len()
        invariant
            i <= chars@.len(),
            chars@ == s@,
            out@ == head + escaped_quotes(chars@.subrange(0, i as int)),
        decreases chars@.len() - i,
    {
        let ghost before = out@;
        if chars[i] == '\'' {
            append_str(out, "'\\''");
        } else {
            out.push(chars[i]);
        }
        proof {
            assert(chars@.subrange(0, i + 1).drop_last() =~= chars@.subrange(0, i as int));
            assert(out@ =~= head + escaped_quotes(chars@.subrange(0, i + 1)));
        }
        i += 1;
    }
    assert(chars@.subrange(0, i as int) =~= chars@);
    append_str(out, "'");
    assert(out@ =~= start + shell_quoted(s@));
}

/// `s` quoted for PowerShell: in single quotes, each single quote doubled.
pub open spec fn powershell_quoted(s: Seq<char>) -> Seq<char> {
    "'"@ + doubled_quotes(s) + "'"@
}

pub open spec fn doubled_quotes(s: Seq<char>) -> Seq<char>
    decreases s.len(),
{
    if s.len() == 0 {
        Seq::empty()
    } else {
        doubled_quotes(s.drop_last()) + if s.last() == '\'' {
            "''"@
        } else {
            seq![s.last()]
        }
    }
}

fn powershell_quote(s: &str, out: &mut Vec<char>)
    ensures
        final(out)@ == old(out)@ + powershell_quoted(s@),
{
    let chars = chars_of(s);
    let ghost start = out@;
    append_str(out, "'");
    let ghost head = out@;
    let mut i: usize = 0;
    while i < chars.len()
        invariant
            i <= chars@.len(),
            chars@ == s@,
            out@ == head + doubled_quotes(chars@.subrange(0, i as int)),
        decreases chars@.len() - i,
    {
        if chars[i] == '\'' {
            append_str(out, "''");
        } else {
            out.push(chars[i]);
        }
        proof {
            assert(chars@.subrange(0, i + 1).drop_last() =~= chars@.subrange(0, i as int));
            assert(out@ =~= head + doubled_quotes(chars@.subrange(0, i + 1)));
        }
        i += 1;
    }
    assert(chars@.subrange(0, i as int) =~= chars@);
    append_str(out, "'");
    assert(out@ =~= start + powershell_quoted(s@));
}

/// The command that rebuilds this index by hand, in the platform's shell:
/// PowerShell on Windows, a POSIX shell elsewhere.
pub open spec fn reindex_text(platform: Platform, root: Seq<char>, index_path: Seq<char>) -> Seq<char> {
    if platform == Platform::Windows {
        "$env:CFIND_ROOT="@ + powershell_quoted(root) + "; $env:CFIND_INDEX="@ + powershell_quoted(index_path)
            + "; cfind --index"@
    } else {
        "CFIND_ROOT="@ + shell_quoted(root) + " CFIND_INDEX="@ + shell_quoted(index_path) + " cfind --index"@
    }
}

/// The command that rebuilds this index by hand.
pub fn reindex_command(platform: Platform, config: &Config) -> (command: String)
    ensures
        command@ == reindex_text(platform, config.root@, config.index_path@),
{
    let mut out: Vec<char> = Vec::new();
    if platform == Platform::Windows {
        append_str(&mut out, "$env:CFIND_ROOT=");
        powershell_quote(config.root.as_str(), &mut out);
        append_str(&mut out, "; $env:CFIND_INDEX=");
        powershell_quote(config.index_path.as_str(), &mut out);
        append_str(&mut out, "; cfind --index");
    } else {
        append_str(&mut out, "CFIND_ROOT=");
        shell_quote(config.root.as_str(), &mut out);
        append_str(&mut out, " CFIND_INDEX=");
        shell_quote(config.index_path.as_str(), &mut out);
        append_str(&mut out, " cfind --index");
    }
    string_from_chars(&out)
}

// ---------------------------------------------------------------------------
// Building the index.
// ---------------------------------------------------------------------------

/// A tracked file that the index parses, with its language.
#[derive(Debug, Clone)]
pub struct SourceFile {
    pub path: String,
    pub language: SupportedLanguage,
}

/// The tracked files whose language is one of `languages`, in order, each
/// with its language.
pub open spec fn source_files(files: Seq<TrackedFile>, languages: Seq<SupportedLanguage>) -> Seq<(Seq<char>, SupportedLanguage)>
    decreases files.len(),
{
    if files.len() == 0 {
        Seq::empty()
    } else {
        let earlier = source_files(files.drop_last(), languages);
        match path_language(files.last().path@) {
            Some(language) => if languages.contains(language) {
                earlier.push((files.last().path@, language))
            } else {
                earlier
            },
            None => earlier,
        }
    }
}

pub open spec fn source_views(files: Seq<SourceFile>) -> Seq<(Seq<char>, SupportedLanguage)> {
    files.map_values(|f: SourceFile| (f.path@, f.language))
}

fn contains_language(languages: &[SupportedLanguage], language: SupportedLanguage) -> (b: bool)
    ensures
        b == languages@.contains(language),
{
    let mut i: usize = 0;
    while i < languages.len()
        invariant
            i <= languages@.len(),
            forall|j: int| 0 <= j < i ==> languages@[j] != language,
        decreases languages@.len() - i,
    {
        if languages[i] == language {
            assert(languages@[i as int] == language);
            return true;
        }
        i += 1;
    }
    false
}

/// The tracked files that the index parses: those in a configured language.
pub fn select_source_files(files: &[TrackedFile], languages: &[SupportedLanguage]) -> (selected: Vec<SourceFile>)
    ensures
        source_views(selected@) == source_files(files@, languages@),
{
    let mut selected: Vec<SourceFile> = Vec::new();
    let mut i: usize = 0;
    while i < files.len()
        invariant
            i <= files@.len(),
            source_views(selected@) == source_files(files@.subrange(0, i as int), languages@),
        decreases files@.len() - i,
    {
        proof {
            assert(files@.subrange(0, i + 1).drop_last() =~= files@.subrange(0, i as int));
            assert(files@.subrange(0, i + 1).last() == files@[i as int]);
        }
        let ghost before = source_views(selected@);
        match crate::config::SupportedLanguage::from_path(files[i].path.as_str()) {
            Some(language) => {
                if contains_language(languages, language) {
                    selected.push(SourceFile { path: files[i].path.clone(), language });
                    assert(source_views(selected@) =~= before.push((files@[i as int].path@, language)));
                }
            },
            None => {},
        }
        i += 1;
    }
    assert(files@.subrange(0, i as int) =~= files@);
    selected
}

/// The form of a name that the index looks names up by: in ASCII lower
/// case.
pub fn normalized_name(name: &str) -> (normalized: String)
    ensures
        normalized@ == ascii_lowercase(name@),
{
    string_from_chars(&to_ascii_lowercase(&chars_of(name)))
}

/// The counts a rebuild reports.
#[derive(Debug, Clone, Copy)]
pub struct IndexStats {
    pub repositories: usize,
    pub tracked_source_files: usize,
    pub parsed_files: usize,
    pub symbols: usize,
    pub elapsed_ms: u128,
}

impl IndexStats {
    /// The counts before any repository is indexed.
    pub fn new(repositories: usize) -> (stats: IndexStats)
        ensures
            stats.repositories == repositories,
            stats.tracked_source_files == 0,
            stats.parsed_files == 0,
            stats.symbols == 0,
            stats.elapsed_ms == 0,
    {
        IndexStats { repositories, tracked_source_files: 0, parsed_files: 0, symbols: 0, elapsed_ms: 0 }
    }

    /// Counts the source files of one more repository, all of which are
    /// parsed (saturating): every source file found is parsed, so counts
    /// that agree before agree after.
    pub fn add_source_files(&mut self, count: usize)
        ensures
            old(self).tracked_source_files == old(self).parsed_files ==> final(self).tracked_source_files
                == final(self).parsed_files,
            final(self).tracked_source_files == (if old(self).tracked_source_files + count > usize::MAX {
                usize::MAX
            } else {
                (old(self).tracked_source_files + count) as usize
            }),
            final(self).parsed_files == (if old(self).parsed_files + count > usize::MAX {
                usize::MAX
            } else {
                (old(self).parsed_files + count) as usize
            }),
            final(self).repositories == old(self).repositories,
            final(self).symbols == old(self).symbols,
            final(self).elapsed_ms == old(self).elapsed_ms,
    {
        self.tracked_source_files = if self.tracked_source_files > usize::MAX - count {
            usize::MAX
        } else {
            self.tracked_source_files + count
        };
        self.parsed_files = if self.parsed_files > usize::MAX - count {
            usize::MAX
        } else {
            self.parsed_files + count
        };
    }
}

/// The line that reports a rebuild.
pub fn index_summary(stats: &IndexStats) -> (line: String)
    ensures
        line@ == "Indexed "@ + decimal(stats.symbols as nat) + " symbols from "@ + decimal(
            stats.tracked_source_files as nat,
        ) + " source files in "@ + decimal(stats.repositories as nat) + " repositories ("@ + decimal(
            stats.parsed_files as nat,
        ) + " parsed) in "@ + decimal(stats.elapsed_ms as nat) + " ms."@,
{
    let mut out: Vec<char> = Vec::new();
    append_str(&mut out, "Indexed ");
    append_chars(&mut out, &decimal_chars(stats.symbols as u128));
    append_str(&mut out, " symbols from ");
    append_chars(&mut out, &decimal_chars(stats.tracked_source_files as u128));
    append_str(&mut out, " source files in ");
    append_chars(&mut out, &decimal_chars(stats.repositories as u128));
    append_str(&mut out, " repositories (");
    append_chars(&mut out, &decimal_chars(stats.parsed_files as u128));
    append_str(&mut out, " parsed) in ");
    append_chars(&mut out, &decimal_chars(stats.elapsed_ms));
    append_str(&mut out, " ms.");
    string_from_chars(&out)
}

/// What `--status` reports when the index cannot be counted: none when
/// it can.
pub fn status_without_counts(state: IndexState, index_path: &str) -> (line: Option<String>)
    ensures
        match state {
            IndexState::Missing => line matches Some(l) && l@ == "No index at "@ + index_path@,
            IndexState::ConfigurationMismatch => line matches Some(l) && l@
                == "Index configuration does not match at "@ + index_path@,
            _ => line is None,
        },
{
    let mut out: Vec<char> = Vec::new();
    match state {
        IndexState::Missing => append_str(&mut out, "No index at "),
        IndexState::ConfigurationMismatch => append_str(&mut out, "Index configuration does not match at "),
        _ => return None,
    }
    append_str(&mut out, index_path);
    Some(string_from_chars(&out))
}

/// What `--status` reports about a readable index.
pub fn status_with_counts(index_path: &str, repositories: usize, files: usize, symbols: usize) -> (report: String)
    ensures
        report@ == "Index: "@ + index_path@ + "\nRepositories: "@ + decimal(repositories as nat) + "\nFiles: "@
            + decimal(files as nat) + "\nSymbols: "@ + decimal(symbols as nat),
{
    let mut out: Vec<char> = Vec::new();
    append_str(&mut out, "Index: ");
    append_str(&mut out, index_path);
    append_str(&mut out, "\nRepositories: ");
    append_chars(&mut out, &decimal_chars(repositories as u128));
    append_str(&mut out, "\nFiles: ");
    append_chars(&mut out, &decimal_chars(files as u128));
    append_str(&mut out, "\nSymbols: ");
    append_chars(&mut out, &decimal_chars(symbols as u128));
    string_from_chars(&out)
}

/// The name of the file that a rebuild writes before it replaces the
/// index: beside the index, hidden, marked with the process and attempt.
pub fn temporary_index_name(file_name: &str, process: u32, attempt: u32) -> (name: String)
    ensures
        name@ == "."@ + file_name@ + ".tmp-"@ + decimal(process as nat) + "-"@ + decimal(attempt as nat),
{
    let mut out: Vec<char> = Vec::new();
    append_str(&mut out, ".");
    append_str(&mut out, file_name);
    append_str(&mut out, ".tmp-");
    append_chars(&mut out, &decimal_chars(process as u128));
    append_str(&mut out, "-");
    append_chars(&mut out, &decimal_chars(attempt as u128));
    string_from_chars(&out)
}

/// The files SQLite may leave beside a database: its write-ahead log and
/// shared-memory file.
pub fn sidecar_paths(database: &str) -> (paths: (String, String))
    ensures
        paths.0@ == database@ + "-wal"@,
        paths.1@ == database@ + "-shm"@,
{
    let mut wal: Vec<char> = Vec::new();
    append_str(&mut wal, database);
    append_str(&mut wal, "-wal");
    let mut shm: Vec<char> = Vec::new();
    append_str(&mut shm, database);
    append_str(&mut shm, "-shm");
    (string_from_chars(&wal), string_from_chars(&shm))
}

/// Where a file that `git rev-parse --git-path` names lives: the printed
/// path, relative to the repository unless it is absolute.
pub fn git_metadata_path(repository: &str, printed: &str) -> (path: String)
    ensures
        path@ == join(repository@, trim(printed@)),
{
    string_from_chars(&join_of(&chars_of(repository), &trimmed(&chars_of(printed))))
}


// ---------------------------------------------------------------------------
// Repositories under the root.
// ---------------------------------------------------------------------------

/// Whether the path `path` lies within (or is) the path `base`, comparing
/// whole components, as `Path::starts_with`.
pub open spec fn path_within(path: Seq<char>, base: Seq<char>) -> bool {
    let p = components(path);
    let b = components(base);
    b.len() <= p.len() && p.take(b.len() as int) == b
}

fn path_within_of(path: &Vec<Vec<char>>, base: &Vec<Vec<char>>) -> (r: bool)
    ensures
        r == (base@.len() <= path@.len() && texts_of(path@).take(base@.len() as int) == texts_of(base@)),
{
    if base.len() > path.len() {
        return false;
    }
    let mut i: usize = 0;
    while i < base.len()
        invariant
            i <= base@.len(),
            base@.len() <= path@.len(),
            forall|k: int| 0 <= k < i ==> path@[k]@ == base@[k]@,
        decreases base@.len() - i,
    {
        if !chars_same(&path[i], &base[i]) {
            assert(texts_of(path@).take(base@.len() as int)[i as int] != texts_of(base@)[i as int]);
            return false;
        }
        i += 1;
    }
    assert(texts_of(path@).take(base@.len() as int) =~= texts_of(base@));
    true
}

/// The repository that Git reports for the root itself (what `git
/// rev-parse --show-toplevel` printed), when it lies within the root or
/// holds it.
pub open spec fn related_toplevel(root: Seq<char>, toplevel: Option<Seq<char>>) -> Option<Seq<char>> {
    match toplevel {
        Some(t) => if path_within(trim(t), root) || path_within(root, trim(t)) {
            Some(trim(t))
        } else {
            None
        },
        None => None,
    }
}

/// Every repository root found: the related top level first, then the
/// directories found holding a `.git` entry.
pub open spec fn root_candidates(root: Seq<char>, toplevel: Option<Seq<char>>, found: Seq<Seq<char>>) -> Seq<Seq<char>> {
    match related_toplevel(root, toplevel) {
        Some(t) => seq![t] + found,
        None => found,
    }
}

pub open spec fn texts_of_strings(v: Seq<String>) -> Seq<Seq<char>> {
    v.map_values(|s: String| s@)
}

/// Whether `roots` are in path order, no two the same path.
pub open spec fn strictly_path_ordered(roots: Seq<Seq<char>>) -> bool {
    forall|i: int, j: int| 0 <= i < j < roots.len() ==> path_less(components(#[trigger] roots[i]), components(#[trigger] roots[j]))
}

/// The repository roots, each once (paths being the same when their
/// components are), in path order. `toplevel` is what `git rev-parse
/// --show-toplevel` printed in the root, if it succeeded; `found` are the
/// directories under the root that hold a `.git` entry.
pub fn repository_roots(root: &str, toplevel: Option<&str>, found: &[String]) -> (roots: Vec<String>)
    ensures
        strictly_path_ordered(texts_of_strings(roots@)),
        forall|i: int| 0 <= i < roots@.len() ==> root_candidates(root@, crate::config::opt_view(toplevel), texts_of_strings(found@)).contains(#[trigger] roots@[i]@),
        forall|c: Seq<char>| #[trigger] root_candidates(root@, crate::config::opt_view(toplevel), texts_of_strings(found@)).contains(c)
            ==> exists|i: int| 0 <= i < roots@.len() && components(#[trigger] roots@[i]@) == components(c),
{
    let ghost candidates = root_candidates(root@, crate::config::opt_view(toplevel), texts_of_strings(found@));
    let mut pending: Vec<Vec<char>> = Vec::new();
    let root_components = components_of(&chars_of(root));
    match toplevel {
        Some(t) => {
            let top = trimmed(&chars_of(t));
            let top_components = components_of(&top);
            proof {
                assert(texts_of(top_components@) =~= texts(top_components@));
                assert(texts_of(root_components@) =~= texts(root_components@));
            }
            if path_within_of(&top_components, &root_components) || path_within_of(&root_components, &top_components) {
                pending.push(top);
            }
        },
        None => {},
    }
    let mut i: usize = 0;
    while i < found.len()
        invariant
            i <= found@.len(),
            candidates == root_candidates(root@, crate::config::opt_view(toplevel), texts_of_strings(found@)),
            texts(pending@) == root_candidates(root@, crate::config::opt_view(toplevel), texts_of_strings(found@.subrange(0, i as int))),
        decreases found@.len() - i,
    {
        let ghost before = texts(pending@);
        pending.push(chars_of(found[i].as_str()));
        proof {
            assert(texts(pending@) =~= before.push(found@[i as int]@));
            assert(texts_of_strings(found@.subrange(0, i + 1)) =~= texts_of_strings(found@.subrange(0, i as int)).push(found@[i as int]@));
            match related_toplevel(root@, crate::config::opt_view(toplevel)) {
                Some(t) => {
                    assert(seq![t] + texts_of_strings(found@.subrange(0, i + 1)) =~= (seq![t] + texts_of_strings(found@.subrange(0, i as int))).push(found@[i as int]@));
                },
                None => {},
            }
        }
        i += 1;
    }
    assert(found@.subrange(0, i as int) =~= found@);
    assert(texts(pending@) == candidates);
    let mut roots: Vec<String> = Vec::new();
    let mut keys: Vec<Vec<Vec<char>>> = Vec::new();
    let mut k: usize = 0;
    while k < pending.len()
        invariant
            k <= pending@.len(),
            texts(pending@) == candidates,
            keys@.len() == roots@.len(),
            forall|j: int| 0 <= j < keys@.len() ==> texts_of(#[trigger] keys@[j]@) == components(roots@[j]@),
            strictly_path_ordered(texts_of_strings(roots@)),
            forall|j: int| 0 <= j < roots@.len() ==> candidates.contains(#[trigger] roots@[j]@),
            forall|m: int| 0 <= m < k ==> exists|j: int| 0 <= j < roots@.len() && components(#[trigger] roots@[j]@) == components(#[trigger] candidates[m]),
        decreases pending@.len() - k,
    {
        let key = components_of(&pending[k]);
        let ghost c = pending@[k as int]@;
        assert(c == candidates[k as int]);
        assert(texts_of(key@) =~= components(c));
        let mut p: usize = 0;
        while p < keys.len() && path_before(&keys[p], &key)
            invariant
                p <= keys@.len(),
                keys@.len() == roots@.len(),
                forall|j: int| 0 <= j < keys@.len() ==> texts_of(#[trigger] keys@[j]@) == components(roots@[j]@),
                texts_of(key@) == components(c),
                forall|j: int| 0 <= j < p ==> path_less(components(#[trigger] roots@[j]@), components(c)),
            decreases keys@.len() - p,
        {
            p += 1;
        }
        let duplicate = p < keys.len() && !path_before(&key, &keys[p]);
        if duplicate {
            proof {
                lemma_path_less_total(components(roots@[p as int]@), components(c));
                assert(components(roots@[p as int]@) == components(c));
            }
        } else {
            let ghost old_roots = roots@;
            let ghost old_keys = keys@;
            proof {
                if p < old_roots.len() {
                    assert(path_less(components(c), components(old_roots[p as int]@)));
                }
            }
            roots.insert(p, string_from_chars(&pending[k]));
            keys.insert(p, key);
            proof {
                let new_roots = roots@;
                assert(new_roots == old_roots.insert(p as int, new_roots[p as int]));
                assert(new_roots[p as int]@ == c);
                assert forall|j: int| 0 <= j < keys@.len() implies texts_of(#[trigger] keys@[j]@) == components(roots@[j]@) by {
                    if j < p {
                        assert(keys@[j] == old_keys[j] && roots@[j] == old_roots[j]);
                    } else if j > p {
                        assert(keys@[j] == old_keys[j - 1] && roots@[j] == old_roots[j - 1]);
                    }
                }
                let rv = texts_of_strings(new_roots);
                assert forall|a: int, b: int| 0 <= a < b < rv.len() implies path_less(components(#[trigger] rv[a]), components(#[trigger] rv[b])) by {
                    let ov = texts_of_strings(old_roots);
                    if a < p && b < p {
                        assert(rv[a] == ov[a] && rv[b] == ov[b]);
                    } else if a < p && b == p {
                        assert(rv[a] == old_roots[a]@);
                    } else if a < p && b > p {
                        assert(rv[a] == ov[a] && rv[b] == ov[b - 1]);
                    } else if a == p {
                        assert(rv[b] == ov[b - 1]);
                        assert(ov[p as int] == old_roots[p as int]@);
                        if b - 1 > p {
                            lemma_path_less_transitive(components(c), components(ov[p as int]), components(ov[b - 1]));
                        }
                    } else {
                        assert(rv[a] == ov[a - 1] && rv[b] == ov[b - 1]);
                    }
                }
                assert forall|j: int| 0 <= j < roots@.len() implies candidates.contains(#[trigger] roots@[j]@) by {
                    if j < p {
                        assert(roots@[j] == old_roots[j]);
                    } else if j > p {
                        assert(roots@[j] == old_roots[j - 1]);
                    } else {
                        assert(candidates[k as int] == c);
                    }
                }
                assert forall|m: int| 0 <= m < k + 1 implies exists|j: int| 0 <= j < roots@.len() && components(#[trigger] roots@[j]@) == components(#[trigger] candidates[m]) by {
                    if m < k {
                        let j = choose|j: int| 0 <= j < old_roots.len() && components(#[trigger] old_roots[j]@) == components(candidates[m]);
                        if j < p {
                            assert(roots@[j] == old_roots[j]);
                        } else {
                            assert(roots@[j + 1] == old_roots[j]);
                        }
                    } else {
                        assert(roots@[p as int]@ == c);
                    }
                }
            }
        }
        k += 1;
    }
    roots
}


// ---------------------------------------------------------------------------
// The recorded language list determines the language set.
// ---------------------------------------------------------------------------

proof fn lemma_split_append_plain(p: Seq<char>, b: Seq<char>, sep: char)
    requires
        !b.contains(sep),
    ensures
        split_state(p + b, sep) == (split_state(p, sep).0, split_state(p, sep).1 + b),
    decreases b.len(),
{
    if b.len() == 0 {
        assert(p + b =~= p);
        assert(split_state(p, sep).1 + b =~= split_state(p, sep).1);
    } else {
        assert(!b.drop_last().contains(sep)) by {
            if b.drop_last().contains(sep) {
                let k = choose|k: int| 0 <= k < b.drop_last().len() && b.drop_last()[k] == sep;
                assert(b[k] == sep);
            }
        }
        lemma_split_append_plain(p, b.drop_last(), sep);
        assert((p + b).drop_last() =~= p + b.drop_last());
        assert((p + b).last() == b.last());
        assert(b.last() != sep) by {
            assert(b[b.len() - 1] == b.last());
        }
        assert((split_state(p, sep).1 + b.drop_last()).push(b.last()) =~= split_state(p, sep).1 + b);
    }
}

proof fn lemma_split_join(parts: Seq<Seq<char>>, sep: char)
    requires
        parts.len() > 0,
        forall|k: int| 0 <= k < parts.len() ==> !(#[trigger] parts[k]).contains(sep),
    ensures
        split_state(join_with(parts, seq![sep]), sep) == (parts.drop_last(), parts.last()),
    decreases parts.len(),
{
    if parts.len() == 1 {
        lemma_split_append_plain(Seq::empty(), parts[0], sep);
        assert(Seq::<char>::empty() + parts[0] =~= parts[0]);
        assert(parts.drop_last() =~= Seq::<Seq<char>>::empty());
        assert(Seq::<char>::empty() + parts[0] =~= parts[0]);
    } else {
        let init = parts.drop_last();
        assert forall|k: int| 0 <= k < init.len() implies !(#[trigger] init[k]).contains(sep) by {
            assert(init[k] == parts[k]);
        }
        lemma_split_join(init, sep);
        let joined = join_with(init, seq![sep]);
        let with_sep = joined.push(sep);
        assert(with_sep.drop_last() =~= joined);
        assert(split_state(with_sep, sep) == (init.drop_last().push(init.last()), Seq::<char>::empty()));
        assert(init.drop_last().push(init.last()) =~= init);
        assert(!parts.last().contains(sep)) by {
            assert(parts[parts.len() - 1] == parts.last());
        }
        lemma_split_append_plain(with_sep, parts.last(), sep);
        assert(join_with(parts, seq![sep]) =~= with_sep + parts.last());
        assert(Seq::<char>::empty() + parts.last() =~= parts.last());
    }
}

/// The recorded language list tells the language set apart: two sets with
/// the same list are the same set, so an index built for another set of
/// languages is a configuration mismatch.
pub proof fn lemma_language_list_determines_set(a: Seq<SupportedLanguage>, b: Seq<SupportedLanguage>)
    requires
        language_list(a) == language_list(b),
    ensures
        forall|l: SupportedLanguage| a.contains(l) <==> b.contains(l),
{
    let na = sorted_language_names(a);
    let nb = sorted_language_names(b);
    lemma_language_names_sorted(a);
    lemma_language_names_sorted(b);
    reveal_strlit("csharp");
    reveal_strlit("javascript");
    reveal_strlit("rust");
    reveal_strlit("typescript");
    reveal_strlit(",");
    assert(","@ =~= seq![',']);
    assert forall|l: SupportedLanguage| !(#[trigger] l.name_of()).contains(',') by {
        if l.name_of().contains(',') {
            let k = choose|k: int| 0 <= k < l.name_of().len() && l.name_of()[k] == ',';
        }
    }
    assert forall|k: int| 0 <= k < na.len() implies !(#[trigger] na[k]).contains(',') by {
        let kept = name_order().filter(|x: SupportedLanguage| a.contains(x));
        assert(na[k] == kept[k].name_of());
    }
    assert forall|k: int| 0 <= k < nb.len() implies !(#[trigger] nb[k]).contains(',') by {
        let kept = name_order().filter(|x: SupportedLanguage| b.contains(x));
        assert(nb[k] == kept[k].name_of());
    }
    if na.len() > 0 && nb.len() > 0 {
        lemma_split_join(na, ',');
        lemma_split_join(nb, ',');
        assert(na =~= na.drop_last().push(na.last()));
        assert(nb =~= nb.drop_last().push(nb.last()));
        assert(na == nb);
    } else if na.len() > 0 {
        lemma_split_join(na, ',');
        assert(join_with(nb, ","@) =~= Seq::<char>::empty());
        assert(split_state(Seq::<char>::empty(), ',') == (Seq::<Seq<char>>::empty(), Seq::<char>::empty()));
        assert(na =~= na.drop_last().push(na.last()));
        assert(na.len() == 1);
        assert(na[0].len() > 0) by {
            let kept = name_order().filter(|x: SupportedLanguage| a.contains(x));
            assert(na[0] == kept[0].name_of());
        }
    } else if nb.len() > 0 {
        lemma_split_join(nb, ',');
        assert(join_with(na, ","@) =~= Seq::<char>::empty());
        assert(split_state(Seq::<char>::empty(), ',') == (Seq::<Seq<char>>::empty(), Seq::<char>::empty()));
        assert(nb =~= nb.drop_last().push(nb.last()));
        assert(nb.len() == 1);
        assert(nb[0].len() > 0) by {
            let kept = name_order().filter(|x: SupportedLanguage| b.contains(x));
            assert(nb[0] == kept[0].name_of());
        }
    } else {
        assert(na =~= nb);
    }
}

/// An index recorded for one language set is a configuration mismatch for
/// a configuration with another language set.
pub proof fn lemma_other_languages_mismatch(metadata: IndexMetadata, config: Config, other: Config, created_at: u64, now: u64)
    requires
        records(metadata, config, created_at),
        exists|l: SupportedLanguage| config.languages@.contains(l) != other.languages@.contains(l),
    ensures
        stored_state(Some(read_back(metadata)), other, now) == IndexState::ConfigurationMismatch,
{
    if language_list(other.languages@) == language_list(config.languages@) {
        lemma_language_list_determines_set(config.languages@, other.languages@);
    }
}

/// An index of another format version is a configuration mismatch.
pub proof fn lemma_other_version_mismatches(stored: StoredIndex, config: Config, now: u64)
    requires
        stored.version matches Some(v) && v@ != decimal(INDEX_VERSION as nat),
    ensures
        stored_state(Some(stored), config, now) == IndexState::ConfigurationMismatch,
{
}


/// A period of zero disables every age check: the index never counts as
/// old and no repository's Git state is reported.
pub proof fn lemma_zero_period_disables_age_checks(
    age: u64,
    remote: Option<Seq<char>>,
    origin_branch: Option<Seq<char>>,
    current_branch: Option<Seq<char>>,
    last_fetch_at: Option<u64>,
    now: Option<u64>,
)
    ensures
        age_state(0, age) == IndexState::Fresh,
        crate::search::git_state_note(remote, origin_branch, current_branch, last_fetch_at, 0, now) is None,
{
}

/// An index is warned about once it is older than the period and rebuilt
/// once it is older than three periods.
pub proof fn lemma_age_thresholds(stale_after: u64, age: u64)
    requires
        stale_after > 0,
        3 * stale_after <= u64::MAX,
    ensures
        (age_state(stale_after, age) == IndexState::Rebuild) <==> age > 3 * stale_after,
        (age_state(stale_after, age) == IndexState::Warn) <==> (stale_after < age && age <= 3 * stale_after),
        (age_state(stale_after, age) == IndexState::Fresh) <==> age <= stale_after,
{
}

} // verus!
