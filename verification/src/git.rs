//! What the library makes of Git: the tracked files of a repository, as read
//! from `git ls-files`, the branch and revision facts recorded for it, and the
//! GitHub and GitLab links built from its remote.
use vstd::prelude::*;
use vstd::utf8::{decode_utf8, valid_utf8};
use crate::config::{extension_language, opt_view, SupportedLanguage};
use crate::text::{
    ascii_lowercase, chars_equal, chars_of, contains, copy_chars, decimal, decimal_chars,
    has_suffix, occurs_at, split_chars, split_on, split_whitespace, string_from_chars,
    strip_prefix, strip_prefix_chars, sub_chars, to_ascii_lowercase, trim, trimmed, utf8_text,
    views, words, join_with, append_chars, append_str, ends_with, starts_with, has_prefix,
    has_substring, split_once, split_once_chars, trim_char, trim_char_chars, trim_suffix,
    trim_suffix_chars,
};
use vstd::string::StringSliceAdditionalSpecFns;

verus! {

/// A Git repository found under the configured root.
#[derive(Debug, Clone)]
pub struct Repository {
    /// The repository's top-level directory.
    pub root: String,
    /// The URL of the `origin` remote.
    pub remote: Option<String>,
    /// The commit `HEAD` names; empty before the first commit.
    pub revision: String,
    /// The branch links point at: origin's default, else the upstream, else
    /// the current branch.
    pub branch: Option<String>,
    /// origin's default branch.
    pub origin_branch: Option<String>,
    /// The checked-out branch.
    pub current_branch: Option<String>,
    /// When origin was last fetched, in seconds since the Unix epoch.
    pub last_fetch_at: Option<u64>,
}

/// A file Git tracks, by its path relative to the repository root.
#[derive(Debug, Clone)]
pub struct TrackedFile {
    pub path: String,
}

/// Why Git's answer could not be used.
#[derive(Debug, Clone, PartialEq, Eq)]
pub enum GitError {
    /// A tracked path with a supported source extension is not valid UTF-8.
    NonUtf8SourcePath(String),
    /// The stage metadata of `git ls-files` is not valid UTF-8.
    NonUtf8Metadata,
    /// Git printed text that is not valid UTF-8.
    NonUtf8Output,
    /// `HEAD` could not be read in the repository.
    UnreadableHead(String),
}

impl GitError {
    /// The message shown to the user.
    pub fn message(&self) -> (m: String)
        ensures
            m@ == match self {
                GitError::NonUtf8SourcePath(repository) => "tracked source path is not valid UTF-8 in "@ + repository@
                    + "; cfind cannot index it"@,
                GitError::NonUtf8Metadata => "git ls-files returned non-UTF-8 metadata"@,
                GitError::NonUtf8Output => "Git returned non-UTF-8 output"@,
                GitError::UnreadableHead(repository) => "could not read HEAD for "@ + repository@,
            },
    {
        match self {
            GitError::NonUtf8SourcePath(repository) => {
                let mut m = String::from_str("tracked source path is not valid UTF-8 in ");
                m.append(repository.as_str());
                m.append("; cfind cannot index it");
                m
            },
            GitError::NonUtf8Metadata => String::from_str("git ls-files returned non-UTF-8 metadata"),
            GitError::NonUtf8Output => String::from_str("Git returned non-UTF-8 output"),
            GitError::UnreadableHead(repository) => {
                let mut m = String::from_str("could not read HEAD for ");
                m.append(repository.as_str());
                m
            },
        }
    }
}

// ---------------------------------------------------------------------------
// Tracked files.
// ---------------------------------------------------------------------------

/// The NUL-separated fields completed so far and the field in progress.
pub open spec fn nul_state(b: Seq<u8>) -> (Seq<Seq<u8>>, Seq<u8>)
    decreases b.len(),
{
    if b.len() == 0 {
        (Seq::empty(), Seq::empty())
    } else {
        let (done, current) = nul_state(b.drop_last());
        if b.last() == 0 {
            if current.len() > 0 {
                (done.push(current), Seq::empty())
            } else {
                (done, Seq::empty())
            }
        } else {
            (done, current.push(b.last()))
        }
    }
}

/// The non-empty fields of a NUL-separated listing, in order.
pub open spec fn nul_fields(b: Seq<u8>) -> Seq<Seq<u8>> {
    let (done, current) = nul_state(b);
    if current.len() > 0 {
        done.push(current)
    } else {
        done
    }
}

pub open spec fn byte_views(v: Seq<Vec<u8>>) -> Seq<Seq<u8>> {
    v.map_values(|w: Vec<u8>| w@)
}

fn nul_fields_of(b: &[u8]) -> (r: Vec<Vec<u8>>)
    ensures
        byte_views(r@) == nul_fields(b@),
{
    let mut done: Vec<Vec<u8>> = Vec::new();
    let mut current: Vec<u8> = Vec::new();
    let mut i: usize = 0;
    while i < b.len()
        invariant
            i <= b@.len(),
            (byte_views(done@), current@) == nul_state(b@.subrange(0, i as int)),
        decreases b@.len() - i,
    {
        proof {
            assert(b@.subrange(0, i + 1).drop_last() =~= b@.subrange(0, i as int));
        }
        let ghost old_done = byte_views(done@);
        if b[i] == 0 {
            if current.len() > 0 {
                let field = current;
                current = Vec::new();
                done.push(field);
                assert(byte_views(done@) =~= old_done.push(field@));
            }
        } else {
            current.push(b[i]);
        }
        i += 1;
        assert(current@ =~= nul_state(b@.subrange(0, i as int)).1);
    }
    assert(b@.subrange(0, i as int) =~= b@);
    if current.len() > 0 {
        let ghost old_done = byte_views(done@);
        done.push(current);
        assert(byte_views(done@) =~= old_done.push(nul_fields(b@).last()));
    }
    done
}

fn sub_bytes(s: &[u8], from: usize, to: usize) -> (r: Vec<u8>)
    requires
        from <= to <= s@.len(),
    ensures
        r@ == s@.subrange(from as int, to as int),
{
    let mut r: Vec<u8> = Vec::new();
    let mut i = from;
    while i < to
        invariant
            from <= i <= to <= s@.len(),
            r@ == s@.subrange(from as int, i as int),
        decreases to - i,
    {
        r.push(s[i]);
        i += 1;
    }
    r
}

/// The bytes after the last `.` of `path`, or all of `path` when it has none.
pub open spec fn last_dot_piece(path: Seq<u8>) -> Seq<u8> {
    if exists|i: int| 0 <= i < path.len() && path[i] == 46u8 {
        let i = choose|i: int| 0 <= i < path.len() && path[i] == 46u8 && forall|j: int| i < j < path.len() ==> path[j] != 46u8;
        path.subrange(i + 1, path.len() as int)
    } else {
        path
    }
}

/// Whether the text after the last `.` of a raw path is a supported source
/// extension.
pub open spec fn supported_source_extension(path: Seq<u8>) -> bool {
    let e = last_dot_piece(path);
    valid_utf8(e) && extension_language(ascii_lowercase(decode_utf8(e))) is Some
}

/// Whether the text after the last `.` of a raw path is a supported source
/// extension.
pub fn has_supported_source_extension(path: &[u8]) -> (b: bool)
    ensures
        b == supported_source_extension(path@),
{
    let mut i = path.len();
    while i > 0 && path[i - 1] != 46u8
        invariant
            i <= path@.len(),
            forall|j: int| i <= j < path@.len() ==> path@[j] != 46u8,
        decreases i,
    {
        i -= 1;
    }
    proof {
        if i > 0 {
            let c = choose|k: int| 0 <= k < path@.len() && path@[k] == 46u8 && forall|j: int| k < j < path@.len() ==> path@[j] != 46u8;
            if c < i - 1 {
                assert(path@[i - 1] == 46u8);
            }
            if c > i - 1 {
                assert(path@[c] == 46u8);
            }
        } else {
            assert(path@.subrange(0, path@.len() as int) =~= path@);
        }
    }
    let extension = sub_bytes(path, i, path.len());
    assert(extension@ == last_dot_piece(path@));
    match utf8_text(&extension) {
        Some(text) => SupportedLanguage::from_extension(&chars_of(text.as_str())).is_some(),
        None => false,
    }
}

/// What a raw tracked path becomes: its text when it is valid UTF-8; an
/// error when it is not but looks like a supported source file; otherwise
/// nothing (the file is skipped).
pub open spec fn git_path_outcome(path: Seq<u8>) -> Result<Option<Seq<char>>, ()> {
    if valid_utf8(path) {
        Ok(Some(decode_utf8(path)))
    } else if supported_source_extension(path) {
        Err(())
    } else {
        Ok(None)
    }
}

/// The text of a raw tracked path of the repository at `repository`.
pub fn git_path(path: &[u8], repository: &str) -> (r: Result<Option<String>, GitError>)
    ensures
        match git_path_outcome(path@) {
            Ok(Some(text)) => r matches Ok(Some(s)) && s@ == text,
            Ok(None) => r matches Ok(None),
            Err(_) => r matches Err(GitError::NonUtf8SourcePath(repo)) && repo@ == repository@,
        },
{
    match utf8_text(path) {
        Some(text) => Ok(Some(text)),
        None => {
            if has_supported_source_extension(path) {
                Err(GitError::NonUtf8SourcePath(String::from_str(repository)))
            } else {
                Ok(None)
            }
        },
    }
}

/// The paths `git ls-files --deleted -z` lists, or `Err` when one of them is
/// a source path that is not valid UTF-8.
pub open spec fn deleted_paths(fields: Seq<Seq<u8>>) -> Result<Seq<Seq<char>>, ()>
    decreases fields.len(),
{
    if fields.len() == 0 {
        Ok(Seq::empty())
    } else {
        match deleted_paths(fields.drop_last()) {
            Err(_) => Err(()),
            Ok(paths) => match git_path_outcome(fields.last()) {
                Err(_) => Err(()),
                Ok(None) => Ok(paths),
                Ok(Some(p)) => Ok(paths.push(p)),
            },
        }
    }
}

/// The kinds of failure reading `git ls-files -s -z` can meet.
#[derive(Debug, Clone, Copy, PartialEq, Eq, Structural)]
pub enum ListingFailure {
    SourcePath,
    Metadata,
}

/// The position of the first tab in `entry`.
pub open spec fn first_tab(entry: Seq<u8>) -> Option<int> {
    if exists|i: int| 0 <= i < entry.len() && entry[i] == 9u8 {
        Some(choose|i: int| 0 <= i < entry.len() && entry[i] == 9u8 && forall|j: int| 0 <= j < i ==> entry[j] != 9u8)
    } else {
        None
    }
}

/// What one `<mode> <blob> <stage>\t<path>` entry of `git ls-files -s -z`
/// contributes: the path when it is at stage 0 and not deleted from the
/// working tree; nothing when the entry is malformed, skipped or excluded.
pub open spec fn entry_outcome(entry: Seq<u8>, deleted: Seq<Seq<char>>) -> Result<Option<Seq<char>>, ListingFailure> {
    match first_tab(entry) {
        None => Ok(None),
        Some(tab) => {
            let metadata = entry.subrange(0, tab);
            if !valid_utf8(metadata) {
                Err(ListingFailure::Metadata)
            } else {
                match git_path_outcome(entry.subrange(tab + 1, entry.len() as int)) {
                    Err(_) => Err(ListingFailure::SourcePath),
                    Ok(None) => Ok(None),
                    Ok(Some(path)) => {
                        let fields = words(decode_utf8(metadata));
                        let stage = if fields.len() >= 3 { fields[2] } else { "0"@ };
                        if fields.len() >= 2 && stage == "0"@ && !deleted.contains(path) {
                            Ok(Some(path))
                        } else {
                            Ok(None)
                        }
                    },
                }
            }
        },
    }
}

/// The paths kept from the entries, in order, or the first failure.
pub open spec fn staged_paths(entries: Seq<Seq<u8>>, deleted: Seq<Seq<char>>) -> Result<Seq<Seq<char>>, ListingFailure>
    decreases entries.len(),
{
    if entries.len() == 0 {
        Ok(Seq::empty())
    } else {
        match staged_paths(entries.drop_last(), deleted) {
            Err(f) => Err(f),
            Ok(paths) => match entry_outcome(entries.last(), deleted) {
                Err(f) => Err(f),
                Ok(None) => Ok(paths),
                Ok(Some(p)) => Ok(paths.push(p)),
            },
        }
    }
}

/// The files of a repository to index, given what `git ls-files --deleted -z`
/// and `git ls-files -s -z` printed: the merged (stage 0) entries that are
/// still present in the working tree.
pub open spec fn tracked_paths(deleted_listing: Seq<u8>, staged_listing: Seq<u8>) -> Result<Seq<Seq<char>>, ListingFailure> {
    match deleted_paths(nul_fields(deleted_listing)) {
        Err(_) => Err(ListingFailure::SourcePath),
        Ok(deleted) => staged_paths(nul_fields(staged_listing), deleted),
    }
}

proof fn lemma_staged_paths_not_deleted(entries: Seq<Seq<u8>>, deleted: Seq<Seq<char>>)
    ensures
        staged_paths(entries, deleted) matches Ok(paths) ==> forall|i: int|
            0 <= i < paths.len() ==> !deleted.contains(#[trigger] paths[i]),
    decreases entries.len(),
{
    if entries.len() > 0 {
        lemma_staged_paths_not_deleted(entries.drop_last(), deleted);
        if let Ok(paths) = staged_paths(entries, deleted) {
            if let Ok(earlier) = staged_paths(entries.drop_last(), deleted) {
                assert forall|i: int| 0 <= i < paths.len() implies !deleted.contains(#[trigger] paths[i]) by {
                    if i < earlier.len() {
                        assert(paths[i] == earlier[i]);
                    }
                }
            }
        }
    }
}

/// Files deleted from the working tree are never indexed: no tracked path
/// is among the paths `git ls-files --deleted` lists.
pub proof fn lemma_deleted_files_are_not_tracked(deleted_listing: Seq<u8>, staged_listing: Seq<u8>)
    ensures
        tracked_paths(deleted_listing, staged_listing) matches Ok(paths) ==> (deleted_paths(nul_fields(deleted_listing)) matches Ok(
            deleted,
        ) && forall|i: int| 0 <= i < paths.len() ==> !deleted.contains(#[trigger] paths[i])),
{
    if let Ok(deleted) = deleted_paths(nul_fields(deleted_listing)) {
        lemma_staged_paths_not_deleted(nul_fields(staged_listing), deleted);
    }
}

pub open spec fn file_paths(files: Seq<TrackedFile>) -> Seq<Seq<char>> {
    files.map_values(|f: TrackedFile| f.path@)
}

fn contains_path(paths: &Vec<Vec<char>>, path: &Vec<char>) -> (b: bool)
    ensures
        b == views(paths@).contains(path@),
{
    let mut i: usize = 0;
    while i < paths.len()
        invariant
            i <= paths@.len(),
            forall|j: int| 0 <= j < i ==> paths@[j]@ != path@,
        decreases paths@.len() - i,
    {
        if chars_same(&paths[i], path) {
            assert(views(paths@)[i as int] == path@);
            return true;
        }
        i += 1;
    }
    assert forall|j: int| 0 <= j < views(paths@).len() implies views(paths@)[j] != path@ by {
        assert(views(paths@)[j] == paths@[j]@);
    }
    false
}

/// Whether two character sequences are equal.
pub fn chars_same(a: &[char], b: &[char]) -> (r: bool)
    ensures
        r == (a@ == b@),
{
    if a.len() != b.len() {
        return false;
    }
    let mut i: usize = 0;
    while i < a.len()
        invariant
            a@.len() == b@.len(),
            i <= a@.len(),
            forall|k: int| 0 <= k < i ==> a@[k] == b@[k],
        decreases a@.len() - i,
    {
        if a[i] != b[i] {
            return false;
        }
        i += 1;
    }
    assert(a@ =~= b@);
    true
}

fn entry_path(entry: &[u8], deleted: &Vec<Vec<char>>, repository: &str) -> (r: Result<Option<Vec<char>>, GitError>)
    ensures
        match entry_outcome(entry@, views(deleted@)) {
            Ok(Some(p)) => r matches Ok(Some(q)) && q@ == p,
            Ok(None) => r matches Ok(None),
            Err(ListingFailure::Metadata) => r == Err::<Option<Vec<char>>, GitError>(GitError::NonUtf8Metadata),
            Err(ListingFailure::SourcePath) => r matches Err(GitError::NonUtf8SourcePath(repo)) && repo@ == repository@,
        },
{
    let mut tab: usize = 0;
    while tab < entry.len() && entry[tab] != 9u8
        invariant
            tab <= entry@.len(),
            forall|j: int| 0 <= j < tab ==> entry@[j] != 9u8,
        decreases entry@.len() - tab,
    {
        tab += 1;
    }
    if tab == entry.len() {
        return Ok(None);
    }
    proof {
        let c = choose|i: int| 0 <= i < entry@.len() && entry@[i] == 9u8 && forall|j: int| 0 <= j < i ==> entry@[j] != 9u8;
        if c < tab {
            assert(entry@[c] == 9u8);
        }
        if c > tab {
            assert(entry@[tab as int] == 9u8);
        }
        assert(first_tab(entry@) == Some(tab as int));
    }
    let metadata = sub_bytes(entry, 0, tab);
    let metadata = match utf8_text(&metadata) {
        Some(m) => m,
        None => return Err(GitError::NonUtf8Metadata),
    };
    let raw_path = sub_bytes(entry, tab + 1, entry.len());
    let path = match git_path(&raw_path, repository) {
        Ok(Some(p)) => chars_of(p.as_str()),
        Ok(None) => return Ok(None),
        Err(e) => return Err(e),
    };
    let fields = split_whitespace(&chars_of(metadata.as_str()));
    if fields.len() < 2 {
        return Ok(None);
    }
    let stage_zero = if fields.len() >= 3 {
        assert(views(fields@)[2] == fields@[2]@);
        chars_equal(&fields[2], "0")
    } else {
        true
    };
    if stage_zero && !contains_path(deleted, &path) {
        Ok(Some(path))
    } else {
        Ok(None)
    }
}

/// The files of `repository` to index, given what `git ls-files --deleted -z`
/// and `git ls-files -s -z` printed in it: every merged (stage 0) entry whose
/// file is still present in the working tree, in listing order.
pub fn tracked_files(repository: &Repository, deleted_listing: &[u8], staged_listing: &[u8]) -> (r: Result<Vec<TrackedFile>, GitError>)
    ensures
        match tracked_paths(deleted_listing@, staged_listing@) {
            Ok(paths) => r matches Ok(files) && file_paths(files@) == paths,
            Err(ListingFailure::Metadata) => r == Err::<Vec<TrackedFile>, GitError>(GitError::NonUtf8Metadata),
            Err(ListingFailure::SourcePath) => r matches Err(GitError::NonUtf8SourcePath(repo)) && repo@ == repository.root@,
        },
{
    let root = repository.root.as_str();
    let deleted_fields = nul_fields_of(deleted_listing);
    let mut deleted: Vec<Vec<char>> = Vec::new();
    let mut i: usize = 0;
    assert(byte_views(deleted_fields@).subrange(0, 0) =~= Seq::<Seq<u8>>::empty());
    assert(views(deleted@) =~= Seq::<Seq<char>>::empty());
    while i < deleted_fields.len()
        invariant
            i <= deleted_fields@.len(),
            byte_views(deleted_fields@) == nul_fields(deleted_listing@),
            deleted_paths(byte_views(deleted_fields@).subrange(0, i as int)) == Ok::<Seq<Seq<char>>, ()>(views(deleted@)),
            root@ == repository.root@,
        decreases deleted_fields@.len() - i,
    {
        proof {
            assert(byte_views(deleted_fields@).subrange(0, i + 1).drop_last() =~= byte_views(deleted_fields@).subrange(0, i as int));
            assert(byte_views(deleted_fields@)[i as int] == deleted_fields@[i as int]@);
        }
        let ghost before = views(deleted@);
        match git_path(&deleted_fields[i], root) {
            Ok(Some(p)) => {
                deleted.push(chars_of(p.as_str()));
                assert(views(deleted@) =~= before.push(p@));
            },
            Ok(None) => {},
            Err(e) => {
                proof {
                    lemma_deleted_error_persists(byte_views(deleted_fields@), (i + 1) as int);
                    assert(byte_views(deleted_fields@).subrange(0, deleted_fields@.len() as int) =~= byte_views(deleted_fields@));
                }
                return Err(e);
            },
        }
        i += 1;
    }
    assert(byte_views(deleted_fields@).subrange(0, i as int) =~= byte_views(deleted_fields@));
    let entries = nul_fields_of(staged_listing);
    let mut files: Vec<TrackedFile> = Vec::new();
    let mut k: usize = 0;
    assert(byte_views(entries@).subrange(0, 0) =~= Seq::<Seq<u8>>::empty());
    assert(file_paths(files@) =~= Seq::<Seq<char>>::empty());
    while k < entries.len()
        invariant
            k <= entries@.len(),
            byte_views(entries@) == nul_fields(staged_listing@),
            deleted_paths(nul_fields(deleted_listing@)) == Ok::<Seq<Seq<char>>, ()>(views(deleted@)),
            staged_paths(byte_views(entries@).subrange(0, k as int), views(deleted@)) == Ok::<Seq<Seq<char>>, ListingFailure>(file_paths(files@)),
            root@ == repository.root@,
        decreases entries@.len() - k,
    {
        proof {
            assert(byte_views(entries@).subrange(0, k + 1).drop_last() =~= byte_views(entries@).subrange(0, k as int));
            assert(byte_views(entries@)[k as int] == entries@[k as int]@);
            assert(byte_views(entries@).subrange(0, k + 1).last() == entries@[k as int]@);
        }
        let ghost before = file_paths(files@);
        match entry_path(&entries[k], &deleted, root) {
            Ok(Some(p)) => {
                files.push(TrackedFile { path: string_from_chars(&p) });
                assert(file_paths(files@) =~= before.push(p@));
            },
            Ok(None) => {},
            Err(e) => {
                proof {
                    lemma_staged_error_persists(byte_views(entries@), views(deleted@), (k + 1) as int);
                    assert(byte_views(entries@).subrange(0, entries@.len() as int) =~= byte_views(entries@));
                }
                return Err(e);
            },
        }
        k += 1;
    }
    assert(byte_views(entries@).subrange(0, k as int) =~= byte_views(entries@));
    Ok(files)
}

proof fn lemma_deleted_error_persists(fields: Seq<Seq<u8>>, n: int)
    requires
        0 <= n <= fields.len(),
        deleted_paths(fields.subrange(0, n)) is Err,
    ensures
        deleted_paths(fields) is Err,
    decreases fields.len() - n,
{
    if n < fields.len() {
        assert(fields.subrange(0, n + 1).drop_last() =~= fields.subrange(0, n));
        lemma_deleted_error_persists(fields, n + 1);
    } else {
        assert(fields.subrange(0, n) =~= fields);
    }
}

proof fn lemma_staged_error_persists(entries: Seq<Seq<u8>>, deleted: Seq<Seq<char>>, n: int)
    requires
        0 <= n <= entries.len(),
        staged_paths(entries.subrange(0, n), deleted) is Err,
    ensures
        staged_paths(entries, deleted) == staged_paths(entries.subrange(0, n), deleted),
    decreases entries.len() - n,
{
    if n < entries.len() {
        assert(entries.subrange(0, n + 1).drop_last() =~= entries.subrange(0, n));
        lemma_staged_error_persists(entries, deleted, n + 1);
    } else {
        assert(entries.subrange(0, n) =~= entries);
    }
}


// ---------------------------------------------------------------------------
// Links to files on GitHub and GitLab.
// ---------------------------------------------------------------------------

/// Whether a byte passes through percent-encoding unchanged: an ASCII letter
/// or digit, `-`, `_`, `.` or `~`.
pub open spec fn is_unreserved(b: u8) -> bool {
    (48u8 <= b <= 57u8) || (65u8 <= b <= 90u8) || (97u8 <= b <= 122u8) || b == 45u8 || b == 95u8
        || b == 46u8 || b == 126u8
}

/// The upper-case hexadecimal digit for `d` (`0 <= d < 16`).
pub open spec fn hex_upper(d: nat) -> char {
    if d < 10 {
        (('0' as u32) as nat + d) as char
    } else {
        (('A' as u32) as nat + d - 10) as char
    }
}

/// How one byte is written in a URL path segment.
pub open spec fn byte_encoding(b: u8) -> Seq<char> {
    if is_unreserved(b) {
        seq![b as char]
    } else {
        seq!['%', hex_upper((b / 16) as nat), hex_upper((b % 16) as nat)]
    }
}

/// The percent-encoding of `bytes`.
pub open spec fn percent_encoded(bytes: Seq<u8>) -> Seq<char>
    decreases bytes.len(),
{
    if bytes.len() == 0 {
        Seq::empty()
    } else {
        percent_encoded(bytes.drop_last()) + byte_encoding(bytes.last())
    }
}

fn hex_upper_digit(d: u8) -> (c: char)
    requires
        d < 16,
    ensures
        c == hex_upper(d as nat),
{
    if d < 10 {
        (d + 48u8) as char
    } else {
        (d + 55u8) as char
    }
}

/// The UTF-8 bytes of `segment`, each percent-encoded unless unreserved.
pub fn percent_encode_segment(segment: &str) -> (encoded: String)
    ensures
        encoded@ == percent_encoded(segment.spec_bytes()),
{
    let bytes = segment.as_bytes();
    let mut out: Vec<char> = Vec::new();
    let mut i: usize = 0;
    while i < bytes.len()
        invariant
            i <= bytes@.len(),
            out@ == percent_encoded(bytes@.subrange(0, i as int)),
        decreases bytes@.len() - i,
    {
        let b = bytes[i];
        proof {
            assert(bytes@.subrange(0, i + 1).drop_last() =~= bytes@.subrange(0, i as int));
        }
        let ghost before = out@;
        if (48u8 <= b && b <= 57u8) || (65u8 <= b && b <= 90u8) || (97u8 <= b && b <= 122u8) || b == 45u8
            || b == 95u8 || b == 46u8 || b == 126u8 {
            out.push(b as char);
            assert(out@ =~= before + byte_encoding(b));
        } else {
            out.push('%');
            out.push(hex_upper_digit(b / 16));
            out.push(hex_upper_digit(b % 16));
            assert(out@ =~= before + byte_encoding(b));
        }
        i += 1;
    }
    assert(bytes@.subrange(0, i as int) =~= bytes@);
    string_from_chars(&out)
}

/// `value` without the first of `https://`, `http://` and `ssh://` it
/// begins with.
pub open spec fn without_scheme(value: Seq<char>) -> Seq<char> {
    match strip_prefix(value, "https://"@) {
        Some(rest) => rest,
        None => match strip_prefix(value, "http://"@) {
            Some(rest) => rest,
            None => match strip_prefix(value, "ssh://"@) {
                Some(rest) => rest,
                None => value,
            },
        },
    }
}

/// `value` without a leading `git@`.
pub open spec fn without_user(value: Seq<char>) -> Seq<char> {
    match strip_prefix(value, "git@"@) {
        Some(rest) => rest,
        None => value,
    }
}

/// The host and repository path of a remote URL, in either the URL form
/// (`https://host/owner/repo.git`) or the scp-like form
/// (`git@host:owner/repo.git`): the host lowered, the path with one leading
/// `/`, no trailing `/` and no `.git` suffix.
pub open spec fn normalized_remote(value: Seq<char>) -> Option<(Seq<char>, Seq<char>)> {
    let bare = without_user(without_scheme(value));
    let split = match split_once(bare, ':') {
        Some((host, path)) => if !bare_has_slash(host) {
            Some((host, path))
        } else {
            split_once(bare, '/')
        },
        None => split_once(bare, '/'),
    };
    match split {
        Some((host, path)) => Some(
            (ascii_lowercase(host), seq!['/'] + trim_suffix(trim_char(path, '/'), ".git"@)),
        ),
        None => None,
    }
}

pub open spec fn bare_has_slash(s: Seq<char>) -> bool {
    exists|i: int| 0 <= i < s.len() && s[i] == '/'
}

fn has_slash(s: &[char]) -> (b: bool)
    ensures
        b == bare_has_slash(s@),
{
    let mut i: usize = 0;
    while i < s.len()
        invariant
            i <= s@.len(),
            forall|j: int| 0 <= j < i ==> s@[j] != '/',
        decreases s@.len() - i,
    {
        if s[i] == '/' {
            return true;
        }
        i += 1;
    }
    false
}

fn strip_first_prefix(value: &[char]) -> (r: Vec<char>)
    ensures
        r@ == without_scheme(value@),
{
    match strip_prefix_chars(value, "https://") {
        Some(rest) => rest,
        None => match strip_prefix_chars(value, "http://") {
            Some(rest) => rest,
            None => match strip_prefix_chars(value, "ssh://") {
                Some(rest) => rest,
                None => copy_chars(value),
            },
        },
    }
}

/// The host and path of a remote URL.
pub fn normalize_remote(value: &str) -> (r: Option<(Vec<char>, Vec<char>)>)
    ensures
        r matches Some((host, path)) ==> normalized_remote(value@) == Some((host@, path@)),
        r is None ==> normalized_remote(value@) is None,
{
    let without_scheme_chars = strip_first_prefix(&chars_of(value));
    let bare = match strip_prefix_chars(&without_scheme_chars, "git@") {
        Some(rest) => rest,
        None => without_scheme_chars,
    };
    let split = match split_once_chars(&bare, ':') {
        Some((host, path)) => if !has_slash(&host) {
            Some((host, path))
        } else {
            split_once_chars(&bare, '/')
        },
        None => split_once_chars(&bare, '/'),
    };
    match split {
        Some((host, path)) => {
            let trimmed_path = trim_suffix_chars(&trim_char_chars(&path, '/'), ".git");
            let mut full_path: Vec<char> = Vec::new();
            full_path.push('/');
            append_chars(&mut full_path, &trimmed_path);
            assert(full_path@ =~= seq!['/'] + trimmed_path@);
            Some((to_ascii_lowercase(&host), full_path))
        },
        None => None,
    }
}

/// The path of a file in a URL: each `/`-separated piece percent-encoded.
pub open spec fn encoded_path(relative_path: Seq<char>) -> Seq<char> {
    join_with(
        split_on(relative_path, '/').map_values(|piece: Seq<char>| percent_encoded(vstd::utf8::encode_utf8(piece))),
        seq!['/'],
    )
}

/// The fragment that selects source lines.
pub open spec fn line_fragment(lines: Option<(usize, usize)>) -> Seq<char> {
    match lines {
        Some((start, end)) => if start == end {
            "#L"@ + decimal(start as nat)
        } else {
            "#L"@ + decimal(start as nat) + "-L"@ + decimal(end as nat)
        },
        None => Seq::empty(),
    }
}

/// The blob separator of the hosting service, if it is GitLab or GitHub.
pub open spec fn blob_separator(host: Seq<char>) -> Option<Seq<char>> {
    if has_substring(host, "gitlab"@) {
        Some("/-/blob/"@)
    } else if has_substring(host, "github"@) {
        Some("/blob/"@)
    } else {
        None
    }
}

/// The link to a file (and, when given, its lines) at `reference` on the
/// GitHub or GitLab host of `remote`; none when the reference is empty or
/// the remote is missing, malformed or elsewhere.
pub open spec fn remote_link(
    remote: Option<Seq<char>>,
    reference: Seq<char>,
    relative_path: Seq<char>,
    lines: Option<(usize, usize)>,
) -> Option<Seq<char>> {
    if reference.len() == 0 {
        None
    } else {
        match remote {
            None => None,
            Some(r) => match normalized_remote(r) {
                None => None,
                Some((host, path)) => match blob_separator(host) {
                    None => None,
                    Some(separator) => Some(
                        "https://"@ + host + path + separator + reference + "/"@ + encoded_path(
                            relative_path,
                        ) + line_fragment(lines),
                    ),
                },
            },
        }
    }
}

fn encode_path(relative_path: &str) -> (r: Vec<char>)
    ensures
        r@ == encoded_path(relative_path@),
{
    let pieces = split_chars(&chars_of(relative_path), '/');
    let ghost encoded = views(pieces@).map_values(|piece: Seq<char>| percent_encoded(vstd::utf8::encode_utf8(piece)));
    let mut out: Vec<char> = Vec::new();
    let mut i: usize = 0;
    while i < pieces.len()
        invariant
            i <= pieces@.len(),
            views(pieces@) == split_on(relative_path@, '/'),
            encoded == views(pieces@).map_values(|piece: Seq<char>| percent_encoded(vstd::utf8::encode_utf8(piece))),
            out@ == join_with(encoded.subrange(0, i as int), seq!['/']),
        decreases pieces@.len() - i,
    {
        let piece = string_from_chars(&pieces[i]);
        let piece_encoded = percent_encode_segment(piece.as_str());
        let ghost before = out@;
        if i > 0 {
            out.push('/');
        }
        append_str(&mut out, piece_encoded.as_str());
        proof {
            assert(encoded.subrange(0, i + 1).drop_last() =~= encoded.subrange(0, i as int));
            assert(encoded.subrange(0, i + 1).last() == encoded[i as int]);
            assert(views(pieces@)[i as int] == pieces@[i as int]@);
            if i == 0 {
                assert(out@ =~= encoded.subrange(0, 1)[0]);
            } else {
                assert(out@ =~= before + seq!['/'] + encoded[i as int]);
            }
        }
        i += 1;
    }
    assert(encoded.subrange(0, i as int) =~= encoded);
    out
}

fn append_fragment(out: &mut Vec<char>, lines: Option<(usize, usize)>)
    ensures
        final(out)@ == old(out)@ + line_fragment(lines),
{
    match lines {
        Some((start, end)) => {
            append_str(out, "#L");
            append_chars(out, &decimal_chars(start as u128));
            if start != end {
                append_str(out, "-L");
                append_chars(out, &decimal_chars(end as u128));
            }
        },
        None => {
            assert(old(out)@ + line_fragment(lines) =~= old(out)@);
        },
    }
}

/// The link to a file, and to its lines when they are given, at
/// `reference` on the GitHub or GitLab host of `remote`.
pub fn remote_url(
    remote: Option<&str>,
    reference: &str,
    relative_path: &str,
    lines: Option<(usize, usize)>,
) -> (url: Option<String>)
    ensures
        url matches Some(u) ==> remote_link(opt_view(remote), reference@, relative_path@, lines) == Some(u@),
        url is None ==> remote_link(opt_view(remote), reference@, relative_path@, lines) is None,
{
    if reference.is_empty() {
        return None;
    }
    let remote = match remote {
        Some(r) => r,
        None => return None,
    };
    let (host, path) = match normalize_remote(remote) {
        Some(hp) => hp,
        None => return None,
    };
    let separator = if contains(&host, &chars_of("gitlab")) {
        "/-/blob/"
    } else if contains(&host, &chars_of("github")) {
        "/blob/"
    } else {
        return None;
    };
    let mut out: Vec<char> = Vec::new();
    append_str(&mut out, "https://");
    append_chars(&mut out, &host);
    append_chars(&mut out, &path);
    append_str(&mut out, separator);
    append_str(&mut out, reference);
    append_str(&mut out, "/");
    append_chars(&mut out, &encode_path(relative_path));
    append_fragment(&mut out, lines);
    Some(string_from_chars(&out))
}

/// The link to lines `start_line` to `end_line` of a file as of the commit
/// `revision`.
pub fn remote_file_url(
    remote: Option<&str>,
    revision: &str,
    relative_path: &str,
    start_line: usize,
    end_line: usize,
) -> (url: Option<String>)
    ensures
        url matches Some(u) ==> remote_link(opt_view(remote), revision@, relative_path@, Some((start_line, end_line))) == Some(u@),
        url is None ==> remote_link(opt_view(remote), revision@, relative_path@, Some((start_line, end_line))) is None,
{
    remote_url(remote, revision, relative_path, Some((start_line, end_line)))
}

/// The link to a file on `branch`.
pub fn remote_branch_file_url(remote: Option<&str>, branch: &str, relative_path: &str) -> (url: Option<String>)
    ensures
        url matches Some(u) ==> remote_link(opt_view(remote), branch@, relative_path@, None) == Some(u@),
        url is None ==> remote_link(opt_view(remote), branch@, relative_path@, None) is None,
{
    remote_url(remote, branch, relative_path, None)
}


// ---------------------------------------------------------------------------
// What Git says about a repository.
// ---------------------------------------------------------------------------

/// Git's output as text.
pub fn git_output(bytes: &[u8]) -> (r: Result<String, GitError>)
    ensures
        r matches Ok(text) ==> valid_utf8(bytes@) && text@ == decode_utf8(bytes@),
        r matches Err(e) ==> !valid_utf8(bytes@) && e == GitError::NonUtf8Output,
{
    match utf8_text(bytes) {
        Some(text) => Ok(text),
        None => Err(GitError::NonUtf8Output),
    }
}

/// The first line of `s`, as `str::lines().next()`: nothing for empty text,
/// otherwise the text before the first line feed, without a carriage return
/// that ends it.
pub open spec fn first_line(s: Seq<char>) -> Option<Seq<char>> {
    if s.len() == 0 {
        None
    } else {
        match split_once(s, '\n') {
            Some((line, _)) => if line.len() > 0 && line.last() == '\r' {
                Some(line.drop_last())
            } else {
                Some(line)
            },
            None => Some(s),
        }
    }
}

fn first_line_of(s: &[char]) -> (r: Option<Vec<char>>)
    ensures
        r matches Some(line) ==> first_line(s@) == Some(line@),
        r is None ==> first_line(s@) is None,
{
    if s.len() == 0 {
        return None;
    }
    match split_once_chars(s, '\n') {
        Some((line, _rest)) => {
            if line.len() > 0 && line[line.len() - 1] == '\r' {
                let n = line.len() - 1;
                let shorter = sub_chars(&line, 0, n);
                assert(shorter@ =~= line@.drop_last());
                Some(shorter)
            } else {
                Some(line)
            }
        },
        None => Some(copy_chars(s)),
    }
}

/// `origin/<branch>` reduced to `<branch>`.
pub open spec fn origin_relative(name: Seq<char>) -> Option<Seq<char>> {
    strip_prefix(name, "origin/"@)
}

/// origin's default branch, from what `git symbolic-ref --short
/// refs/remotes/origin/HEAD` printed (if it succeeded), or else from the
/// first line of what `git for-each-ref --format=%(refname:short)
/// refs/remotes/origin/main refs/remotes/origin/master` printed.
pub open spec fn origin_branch_of(origin_head: Option<Seq<char>>, remote_refs: Option<Seq<char>>) -> Option<Seq<char>> {
    let from_head = match origin_head {
        Some(o) => origin_relative(trim(o)),
        None => None,
    };
    if from_head is Some {
        from_head
    } else {
        match remote_refs {
            Some(r) => match first_line(r) {
                Some(line) => origin_relative(line),
                None => None,
            },
            None => None,
        }
    }
}

/// origin's default branch.
pub fn origin_branch(origin_head: Option<&str>, remote_refs: Option<&str>) -> (branch: Option<String>)
    ensures
        branch matches Some(b) ==> origin_branch_of(opt_view(origin_head), opt_view(remote_refs)) == Some(b@),
        branch is None ==> origin_branch_of(opt_view(origin_head), opt_view(remote_refs)) is None,
{
    if let Some(o) = origin_head {
        if let Some(b) = strip_prefix_chars(&trimmed(&chars_of(o)), "origin/") {
            return Some(string_from_chars(&b));
        }
    }
    match remote_refs {
        Some(r) => match first_line_of(&chars_of(r)) {
            Some(line) => match strip_prefix_chars(&line, "origin/") {
                Some(b) => Some(string_from_chars(&b)),
                None => None,
            },
            None => None,
        },
        None => None,
    }
}

/// The upstream branch on origin, from what `git rev-parse --abbrev-ref
/// --symbolic-full-name @{upstream}` printed (if it succeeded).
pub fn tracked_branch(upstream: Option<&str>) -> (branch: Option<String>)
    ensures
        branch matches Some(b) ==> upstream matches Some(u) && origin_relative(trim(u@)) == Some(b@),
        branch is None ==> (upstream matches Some(u) ==> origin_relative(trim(u@)) is None),
{
    match upstream {
        Some(u) => match strip_prefix_chars(&trimmed(&chars_of(u)), "origin/") {
            Some(b) => Some(string_from_chars(&b)),
            None => None,
        },
        None => None,
    }
}

/// The checked-out branch, from what `git symbolic-ref --short HEAD`
/// printed (if it succeeded): the trimmed text, unless it is empty.
pub fn current_branch_name(head: Option<&str>) -> (branch: Option<String>)
    ensures
        branch matches Some(b) ==> head matches Some(h) && b@ == trim(h@) && b@.len() > 0,
        branch is None ==> (head matches Some(h) ==> trim(h@).len() == 0),
{
    match head {
        Some(h) => {
            let t = trimmed(&chars_of(h));
            if t.len() > 0 {
                Some(string_from_chars(&t))
            } else {
                None
            }
        },
        None => None,
    }
}

/// When origin was last fetched: the time of `FETCH_HEAD`, or, before the
/// first fetch, the time the clone created `refs/remotes/origin/HEAD`.
pub fn last_fetch_at(fetch_head_time: Option<u64>, origin_head_time: Option<u64>) -> (at: Option<u64>)
    ensures
        at == (if fetch_head_time is Some { fetch_head_time } else { origin_head_time }),
{
    match fetch_head_time {
        Some(t) => Some(t),
        None => origin_head_time,
    }
}

/// The first of the given branches that is known.
pub open spec fn preferred_branch(
    origin_branch: Option<String>,
    tracked_branch: Option<String>,
    current_branch: Option<String>,
) -> Option<String> {
    if origin_branch is Some {
        origin_branch
    } else if tracked_branch is Some {
        tracked_branch
    } else {
        current_branch
    }
}

impl Repository {
    /// The facts recorded for the repository at `root`, from what Git said:
    /// `head` is what `git rev-parse --verify HEAD` printed, if it succeeded;
    /// `unborn_head` whether `git symbolic-ref -q HEAD` succeeded (a
    /// repository before its first commit); `remote` what `git remote
    /// get-url origin` printed, if it succeeded.
    pub fn from_git(
        root: &str,
        head: Option<&str>,
        unborn_head: bool,
        remote: Option<&str>,
        origin_branch: Option<String>,
        tracked_branch: Option<String>,
        current_branch: Option<String>,
        last_fetch_at: Option<u64>,
    ) -> (r: Result<Repository, GitError>)
        ensures
            head is None && !unborn_head ==> (r matches Err(GitError::UnreadableHead(p)) && p@ == root@),
            head is Some || unborn_head ==> (r matches Ok(repository) && {
                &&& repository.root@ == root@
                &&& repository.revision@ == (match head {
                    Some(h) => trim(h@),
                    None => Seq::empty(),
                })
                &&& match remote {
                    Some(u) if trim(u@).len() > 0 => repository.remote matches Some(v) && v@ == trim(u@),
                    _ => repository.remote is None,
                }
                &&& repository.origin_branch == origin_branch
                &&& repository.current_branch == current_branch
                &&& repository.branch == preferred_branch(origin_branch, tracked_branch, current_branch)
                &&& repository.last_fetch_at == last_fetch_at
            }),
    {
        let revision = match head {
            Some(h) => string_from_chars(&trimmed(&chars_of(h))),
            None => {
                if unborn_head {
                    String::new()
                } else {
                    return Err(GitError::UnreadableHead(String::from_str(root)));
                }
            },
        };
        let remote = match remote {
            Some(u) => {
                let t = trimmed(&chars_of(u));
                if t.len() > 0 {
                    Some(string_from_chars(&t))
                } else {
                    None
                }
            },
            None => None,
        };
        let branch = match &origin_branch {
            Some(_) => origin_branch.clone(),
            None => match &tracked_branch {
                Some(_) => tracked_branch.clone(),
                None => current_branch.clone(),
            },
        };
        Ok(Repository {
            root: String::from_str(root),
            remote,
            revision,
            branch,
            origin_branch,
            current_branch,
            last_fetch_at,
        })
    }
}

// ---------------------------------------------------------------------------
// Laws of remote normalization.
// ---------------------------------------------------------------------------

#[verifier::spinoff_prover]
proof fn lemma_split_at_first(a: Seq<char>, sep: char, b: Seq<char>)
    requires
        forall|k: int| 0 <= k < a.len() ==> a[k] != sep,
    ensures
        split_once(a + seq![sep] + b, sep) == Some((a, b)),
{
    let s = a + seq![sep] + b;
    assert(s[a.len() as int] == sep);
    let i = choose|i: int| 0 <= i < s.len() && s[i] == sep && forall|j: int| 0 <= j < i ==> s[j] != sep;
    if i < a.len() {
        assert(s[i] == a[i]);
    }
    assert(i == a.len());
    assert(s.subrange(0, i) =~= a);
    assert(s.subrange(i + 1, s.len() as int) =~= b);
}

/// The repository path that a remote's path part `rest` becomes.
#[verifier::spinoff_prover]
proof fn lemma_path_part(rest: Seq<char>)
    requires
        rest.len() > 0 ==> rest[0] != '/' && rest.last() != '/',
        !has_suffix(rest, ".git"@),
    ensures
        trim_suffix(trim_char(rest, '/'), ".git"@) == rest,
        trim_suffix(trim_char(rest + ".git"@, '/'), ".git"@) == rest,
{
    reveal_strlit(".git");
    let dotted = rest + ".git"@;
    assert(dotted.last() == 't');
    if rest.len() > 0 {
        assert(dotted[0] == rest[0]);
    } else {
        assert(dotted[0] == '.');
    }
    assert(trim_char(dotted, '/') == dotted);
    assert(trim_char(rest, '/') == rest);
    assert(trim_suffix(rest, ".git"@) == rest);
    assert(dotted.subrange(dotted.len() - 4, dotted.len() as int) =~= ".git"@);
    assert(has_suffix(dotted, ".git"@));
    assert(dotted.subrange(0, dotted.len() - 4) =~= rest);
    assert(trim_suffix(dotted, ".git"@) == trim_suffix(dotted.subrange(0, dotted.len() - 4), ".git"@));
}

/// When `s` has a `/` at `n` and no `:` before it, whatever precedes its
/// first `:` holds a `/`.
#[verifier::spinoff_prover]
proof fn lemma_first_index(s: Seq<char>, sep: char, k: int)
    requires
        0 <= k < s.len(),
        s[k] == sep,
    ensures
        exists|i: int| 0 <= i <= k && s[i] == sep && forall|j: int| 0 <= j < i ==> s[j] != sep,
    decreases k,
{
    if exists|j: int| 0 <= j < k && s[j] == sep {
        let j = choose|j: int| 0 <= j < k && s[j] == sep;
        lemma_first_index(s, sep, j);
    } else {
        assert(forall|j: int| 0 <= j < k ==> s[j] != sep);
    }
}

proof fn lemma_colon_after_slash(s: Seq<char>, n: int)
    requires
        0 <= n < s.len(),
        s[n] == '/',
        forall|j: int| 0 <= j < n ==> s[j] != ':',
    ensures
        split_once(s, ':') is Some ==> bare_has_slash(split_once(s, ':').unwrap().0),
{
    if exists|i: int| 0 <= i < s.len() && s[i] == ':' {
        let k = choose|i: int| 0 <= i < s.len() && s[i] == ':';
        lemma_first_index(s, ':', k);
        let i = choose|i: int| 0 <= i < s.len() && s[i] == ':' && forall|j: int| 0 <= j < i ==> s[j] != ':';
        assert(s[i] == ':');
        assert(i != n);
        assert(!(i < n));
        let before = s.subrange(0, i);
        assert(split_once(s, ':').unwrap().0 == before);
        assert(before[n] == '/');
    }
}

#[verifier::spinoff_prover]
proof fn lemma_https_remote(host: Seq<char>, rest: Seq<char>)
    requires
        forall|k: int| 0 <= k < host.len() ==> host[k] != '/' && host[k] != ':',
        !has_prefix(host, "git@"@),
    ensures
        normalized_remote("https://"@ + host + seq!['/'] + rest) == Some(
            (ascii_lowercase(host), seq!['/'] + trim_suffix(trim_char(rest, '/'), ".git"@)),
        ),
{
    reveal_strlit("https://");
    reveal_strlit("git@");
    let value = "https://"@ + host + seq!['/'] + rest;
    let bare = host + seq!['/'] + rest;
    assert(value.subrange(0, 8) =~= "https://"@);
    assert(value.subrange(8, value.len() as int) =~= bare);
    assert(without_scheme(value) == bare);
    assert(!has_prefix(bare, "git@"@)) by {
        if has_prefix(bare, "git@"@) {
            if host.len() >= 4 {
                assert(host.subrange(0, 4) =~= bare.subrange(0, 4));
            } else {
                assert(bare.subrange(0, 4)[host.len() as int] == bare[host.len() as int]);
            }
        }
    }
    assert(without_user(bare) == bare);
    lemma_split_at_first(host, '/', rest);
    assert forall|j: int| 0 <= j < host.len() implies bare[j] != ':' by {
        assert(bare[j] == host[j]);
    }
    lemma_colon_after_slash(bare, host.len() as int);
}

#[verifier::spinoff_prover]
proof fn lemma_scp_remote(host: Seq<char>, rest: Seq<char>)
    requires
        forall|k: int| 0 <= k < host.len() ==> host[k] != '/' && host[k] != ':',
    ensures
        normalized_remote("git@"@ + host + seq![':'] + rest) == Some(
            (ascii_lowercase(host), seq!['/'] + trim_suffix(trim_char(rest, '/'), ".git"@)),
        ),
{
    reveal_strlit("https://");
    reveal_strlit("http://");
    reveal_strlit("ssh://");
    reveal_strlit("git@");
    let value = "git@"@ + host + seq![':'] + rest;
    let bare = host + seq![':'] + rest;
    assert(value[0] == 'g');
    assert(!has_prefix(value, "https://"@)) by {
        if has_prefix(value, "https://"@) {
            assert(value.subrange(0, 8)[0] == value[0]);
        }
    }
    assert(!has_prefix(value, "http://"@)) by {
        if has_prefix(value, "http://"@) {
            assert(value.subrange(0, 7)[0] == value[0]);
        }
    }
    assert(!has_prefix(value, "ssh://"@)) by {
        if has_prefix(value, "ssh://"@) {
            assert(value.subrange(0, 6)[0] == value[0]);
        }
    }
    assert(without_scheme(value) == value);
    assert(value.subrange(0, 4) =~= "git@"@);
    assert(value.subrange(4, value.len() as int) =~= bare);
    assert(without_user(value) == bare);
    lemma_split_at_first(host, ':', rest);
}

/// A remote keeps its repository path whole: for a remote written as
/// `https://host/path` or `git@host:path` (a host without `/` or `:`), the
/// host is lowered and the path kept as it is, unless it ends in `.git`:
/// that suffix, and nothing else, is dropped, so the path with `.git` added
/// names the same repository.
#[verifier::spinoff_prover]
pub proof fn lemma_remote_paths_kept_whole(host: Seq<char>, path: Seq<char>)
    requires
        forall|k: int| 0 <= k < host.len() ==> host[k] != '/' && host[k] != ':',
        path.len() > 0 ==> path[0] != '/' && path.last() != '/',
        !has_suffix(path, ".git"@),
    ensures
        !has_prefix(host, "git@"@) ==> normalized_remote("https://"@ + host + seq!['/'] + path) == Some(
            (ascii_lowercase(host), seq!['/'] + path),
        ),
        !has_prefix(host, "git@"@) ==> normalized_remote("https://"@ + host + seq!['/'] + path + ".git"@)
            == normalized_remote("https://"@ + host + seq!['/'] + path),
        normalized_remote("git@"@ + host + seq![':'] + path) == Some((ascii_lowercase(host), seq!['/'] + path)),
        normalized_remote("git@"@ + host + seq![':'] + path + ".git"@) == normalized_remote(
            "git@"@ + host + seq![':'] + path,
        ),
{
    lemma_path_part(path);
    let dotted = path + ".git"@;
    lemma_scp_remote(host, path);
    lemma_scp_remote(host, dotted);
    assert("git@"@ + host + seq![':'] + path + ".git"@ =~= "git@"@ + host + seq![':'] + dotted);
    if !has_prefix(host, "git@"@) {
        lemma_https_remote(host, path);
        lemma_https_remote(host, dotted);
        assert("https://"@ + host + seq!['/'] + path + ".git"@ =~= "https://"@ + host + seq!['/'] + dotted);
    }
}

} // verus!
