//! How search results and requests are put into words for the user.
use vstd::prelude::*;
use crate::text::{
    append_chars, append_str, ascii_lowercase, chars_of, decimal, decimal_chars, join_with,
    string_from_chars, to_ascii_lowercase, trim, trimmed,
};
use crate::git::chars_same;
use crate::{string_opt, SearchResult, SearchResultView};

verus! {

/// `text` on a line of its own, indented by two spaces.
pub open spec fn indented(text: Seq<char>) -> Seq<char> {
    "  "@ + text + "\n"@
}

/// The link shown for a result: none when quiet; with `prefer_commit`, the
/// commit link, falling back to the branch link; otherwise the branch link.
pub open spec fn shown_url(result: SearchResultView, quiet: bool, prefer_commit: bool) -> Option<Seq<char>> {
    if quiet {
        None
    } else if prefer_commit && result.commit_url is Some {
        result.commit_url
    } else {
        result.remote_url
    }
}

/// How a search result is shown: its kind, name, parent, score and Git
/// state; where it is; its link; its qualified name when that differs from
/// its name (or, with `verbose`, its namespace otherwise); and a blank line.
pub open spec fn result_text(result: SearchResultView, quiet: bool, prefer_commit: bool, verbose: bool) -> Seq<char> {
    let heading = result.kind + "  "@ + result.name + match result.parent {
        Some(p) => " in "@ + p,
        None => Seq::empty(),
    } + "  "@ + decimal(result.match_score as nat) + match result.git_state {
        Some(s) => " "@ + s,
        None => Seq::empty(),
    } + "\n"@;
    let place = indented(result.local_path + ":"@ + decimal(result.start_line as nat));
    let link = match shown_url(result, quiet, prefer_commit) {
        Some(u) => indented(u),
        None => Seq::empty(),
    };
    let qualification = if result.qualified_name != result.name {
        indented(result.qualified_name)
    } else if verbose && result.namespace is Some {
        indented(result.namespace.unwrap())
    } else {
        Seq::empty()
    };
    heading + place + link + qualification + "\n"@
}

fn append_indented(out: &mut Vec<char>, text: &str)
    ensures
        final(out)@ == old(out)@ + indented(text@),
{
    append_str(out, "  ");
    append_str(out, text);
    append_str(out, "\n");
    assert(final(out)@ =~= old(out)@ + indented(text@));
}

pub open spec fn heading_text(result: SearchResultView) -> Seq<char> {
    result.kind + "  "@ + result.name + match result.parent {
        Some(p) => " in "@ + p,
        None => Seq::empty(),
    } + "  "@ + decimal(result.match_score as nat) + match result.git_state {
        Some(s) => " "@ + s,
        None => Seq::empty(),
    } + "\n"@
}

pub open spec fn link_text(result: SearchResultView, quiet: bool, prefer_commit: bool) -> Seq<char> {
    match shown_url(result, quiet, prefer_commit) {
        Some(u) => indented(u),
        None => Seq::empty(),
    }
}

pub open spec fn qualification_text(result: SearchResultView, verbose: bool) -> Seq<char> {
    if result.qualified_name != result.name {
        indented(result.qualified_name)
    } else if verbose && result.namespace is Some {
        indented(result.namespace.unwrap())
    } else {
        Seq::empty()
    }
}

fn append_heading(out: &mut Vec<char>, result: &SearchResult)
    ensures
        final(out)@ == old(out)@ + heading_text(result@),
{
    let ghost start = out@;
    append_str(out, result.kind.as_str());
    append_str(out, "  ");
    append_str(out, result.name.as_str());
    let ghost a = out@;
    match &result.parent {
        Some(p) => {
            append_str(out, " in ");
            append_str(out, p.as_str());
        },
        None => {},
    }
    let ghost b = out@;
    assert(b == a + match result@.parent {
        Some(p) => " in "@ + p,
        None => Seq::<char>::empty(),
    }) by {
        if result.parent.is_none() {
            assert(b =~= a + Seq::<char>::empty());
        }
    }
    append_str(out, "  ");
    append_chars(out, &decimal_chars(result.match_score as u128));
    let ghost c = out@;
    match &result.git_state {
        Some(s) => {
            append_str(out, " ");
            append_str(out, s.as_str());
        },
        None => {},
    }
    let ghost d = out@;
    assert(d == c + match result@.git_state {
        Some(s) => " "@ + s,
        None => Seq::<char>::empty(),
    }) by {
        if result.git_state.is_none() {
            assert(d =~= c + Seq::<char>::empty());
        }
    }
    append_str(out, "\n");
    assert(out@ =~= start + heading_text(result@));
}

fn append_link(out: &mut Vec<char>, result: &SearchResult, quiet: bool, prefer_commit: bool)
    ensures
        final(out)@ == old(out)@ + link_text(result@, quiet, prefer_commit),
{
    let url = if quiet {
        None
    } else if prefer_commit && result.commit_url.is_some() {
        result.commit_url.as_ref()
    } else {
        result.remote_url.as_ref()
    };
    assert(match url {
        Some(u) => shown_url(result@, quiet, prefer_commit) == Some(u@),
        None => shown_url(result@, quiet, prefer_commit) is None,
    });
    match url {
        Some(u) => append_indented(out, u.as_str()),
        None => {
            assert(old(out)@ + link_text(result@, quiet, prefer_commit) =~= old(out)@);
        },
    }
}

fn append_qualification(out: &mut Vec<char>, result: &SearchResult, verbose: bool)
    ensures
        final(out)@ == old(out)@ + qualification_text(result@, verbose),
{
    if !chars_same(&chars_of(result.qualified_name.as_str()), &chars_of(result.name.as_str())) {
        append_indented(out, result.qualified_name.as_str());
    } else {
        match &result.namespace {
            Some(n) => {
                if verbose {
                    append_indented(out, n.as_str());
                } else {
                    assert(old(out)@ + qualification_text(result@, verbose) =~= old(out)@);
                }
            },
            None => {
                assert(old(out)@ + qualification_text(result@, verbose) =~= old(out)@);
            },
        }
    }
}

/// The text that shows `result`.
pub fn format_result(result: &SearchResult, quiet: bool, prefer_commit: bool, verbose: bool) -> (text: String)
    ensures
        text@ == result_text(result@, quiet, prefer_commit, verbose),
{
    let mut out: Vec<char> = Vec::new();
    append_heading(&mut out, result);
    let mut place: Vec<char> = Vec::new();
    append_str(&mut place, result.local_path.as_str());
    append_str(&mut place, ":");
    append_chars(&mut place, &decimal_chars(result.start_line as u128));
    append_indented(&mut out, string_from_chars(&place).as_str());
    append_link(&mut out, result, quiet, prefer_commit);
    append_qualification(&mut out, result, verbose);
    append_str(&mut out, "\n");
    assert(out@ =~= heading_text(result@) + indented(result@.local_path + ":"@ + decimal(result@.start_line as nat))
        + link_text(result@, quiet, prefer_commit) + qualification_text(result@, verbose) + "\n"@);
    string_from_chars(&out)
}

/// Why a requested symbol kind cannot be searched for.
#[derive(Debug, Clone)]
pub struct UnknownKind {
    /// The kind as it was normalized.
    pub kind: String,
    /// The kinds the index holds.
    pub available: Vec<String>,
}

impl UnknownKind {
    /// The message shown to the user.
    pub fn message(&self) -> (m: String)
        ensures
            m@ == "unknown type '"@ + self.kind@ + "'; available types: "@ + join_with(
                string_views(self.available@),
                ", "@,
            ),
    {
        let mut out: Vec<char> = Vec::new();
        append_str(&mut out, "unknown type '");
        append_str(&mut out, self.kind.as_str());
        append_str(&mut out, "'; available types: ");
        let ghost head = out@;
        let ghost names = string_views(self.available@);
        let mut i: usize = 0;
        while i < self.available.len()
            invariant
                i <= self.available@.len(),
                names == string_views(self.available@),
                out@ == head + join_with(names.subrange(0, i as int), ", "@),
            decreases self.available@.len() - i,
        {
            let ghost before = out@;
            if i > 0 {
                append_str(&mut out, ", ");
            }
            append_str(&mut out, self.available[i].as_str());
            proof {
                let prefix = names.subrange(0, i + 1);
                assert(prefix.drop_last() =~= names.subrange(0, i as int));
                assert(prefix.last() == self.available@[i as int]@);
                if i == 0 {
                    assert(out@ =~= head + prefix[0]);
                } else {
                    assert(out@ =~= head + (join_with(names.subrange(0, i as int), ", "@) + ", "@ + prefix.last()));
                }
            }
            i += 1;
        }
        assert(names.subrange(0, i as int) =~= names);
        string_from_chars(&out)
    }
}

pub open spec fn string_views(v: Seq<String>) -> Seq<Seq<char>> {
    v.map_values(|s: String| s@)
}

/// A requested symbol kind as it is searched for: without surrounding white
/// space, in ASCII lower case.
pub open spec fn normalized_kind(requested: Seq<char>) -> Seq<char> {
    ascii_lowercase(trim(requested))
}

/// The symbol kind to search for, when the index holds it (among
/// `available`); otherwise why not.
pub fn requested_kind(requested: &str, available: &[String]) -> (r: Result<String, UnknownKind>)
    ensures
        match r {
            Ok(kind) => kind@ == normalized_kind(requested@) && string_views(available@).contains(kind@),
            Err(e) => e.kind@ == normalized_kind(requested@) && !string_views(available@).contains(e.kind@)
                && string_views(e.available@) == string_views(available@),
        },
{
    let kind = to_ascii_lowercase(&trimmed(&chars_of(requested)));
    let mut i: usize = 0;
    while i < available.len()
        invariant
            i <= available@.len(),
            kind@ == normalized_kind(requested@),
            forall|j: int| 0 <= j < i ==> available@[j]@ != kind@,
        decreases available@.len() - i,
    {
        if chars_same(&chars_of(available[i].as_str()), &kind) {
            assert(string_views(available@)[i as int] == kind@);
            return Ok(string_from_chars(&kind));
        }
        i += 1;
    }
    let mut copies: Vec<String> = Vec::new();
    let mut j: usize = 0;
    while j < available.len()
        invariant
            j <= available@.len(),
            string_views(copies@) == string_views(available@.subrange(0, j as int)),
        decreases available@.len() - j,
    {
        let ghost before = string_views(copies@);
        let copy = available[j].clone();
        assert(copy@ == available@[j as int]@);
        copies.push(copy);
        assert(string_views(copies@) =~= before.push(copy@));
        assert(available@.subrange(0, j + 1) =~= available@.subrange(0, j as int).push(available@[j as int]));
        assert(string_views(available@.subrange(0, j + 1)) =~= string_views(available@.subrange(0, j as int)).push(available@[j as int]@));
        j += 1;
    }
    assert(available@.subrange(0, j as int) =~= available@);
    proof {
        if string_views(available@).contains(kind@) {
            let k = choose|k: int| 0 <= k < available@.len() && string_views(available@)[k] == kind@;
            assert(available@[k]@ == kind@);
        }
    }
    Err(UnknownKind { kind: string_from_chars(&kind), available: copies })
}

/// What is said when a search finds nothing.
pub fn no_match_message(query: &str) -> (message: String)
    ensures
        message@ == "no symbols matched '"@ + query@ + "'"@,
{
    let mut out: Vec<char> = Vec::new();
    append_str(&mut out, "no symbols matched '");
    append_str(&mut out, query);
    append_str(&mut out, "'");
    string_from_chars(&out)
}

/// The text that shows `results`, one after another.
pub open spec fn results_text(results: Seq<SearchResultView>, quiet: bool, prefer_commit: bool, verbose: bool) -> Seq<char>
    decreases results.len(),
{
    if results.len() == 0 {
        Seq::empty()
    } else {
        results_text(results.drop_last(), quiet, prefer_commit, verbose) + result_text(
            results.last(),
            quiet,
            prefer_commit,
            verbose,
        )
    }
}

/// What a search for `query` shows: the text of its results in order, or,
/// when it found none, the message that says so as an error.
pub fn render_results(
    results: &[SearchResult],
    query: &str,
    quiet: bool,
    prefer_commit: bool,
    verbose: bool,
) -> (r: Result<String, String>)
    ensures
        results@.len() == 0 ==> (r matches Err(message) && message@ == "no symbols matched '"@ + query@ + "'"@),
        results@.len() > 0 ==> (r matches Ok(text) && text@ == results_text(
            results@.map_values(|x: SearchResult| x@),
            quiet,
            prefer_commit,
            verbose,
        )),
{
    if results.len() == 0 {
        return Err(no_match_message(query));
    }
    let ghost shown = results@.map_values(|x: SearchResult| x@);
    let mut out: Vec<char> = Vec::new();
    let mut i: usize = 0;
    while i < results.len()
        invariant
            i <= results@.len(),
            shown == results@.map_values(|x: SearchResult| x@),
            out@ == results_text(shown.subrange(0, i as int), quiet, prefer_commit, verbose),
        decreases results@.len() - i,
    {
        let text = format_result(&results[i], quiet, prefer_commit, verbose);
        append_str(&mut out, text.as_str());
        proof {
            assert(shown.subrange(0, i + 1).drop_last() =~= shown.subrange(0, i as int));
            assert(shown.subrange(0, i + 1).last() == results@[i as int]@);
        }
        i += 1;
    }
    assert(shown.subrange(0, i as int) =~= shown);
    Ok(string_from_chars(&out))
}

/// Which link a result shows: none when quiet; when commit links are
/// preferred, the commit link whenever the result has one, else the branch
/// link; otherwise the branch link. A shown link is on its own indented line
/// right after the result's place.
pub proof fn lemma_shown_link(result: SearchResultView, quiet: bool, prefer_commit: bool, verbose: bool)
    ensures
        quiet ==> shown_url(result, quiet, prefer_commit) is None,
        !quiet && prefer_commit && result.commit_url is Some ==> shown_url(result, quiet, prefer_commit)
            == result.commit_url,
        !quiet && prefer_commit && result.commit_url is None ==> shown_url(result, quiet, prefer_commit)
            == result.remote_url,
        !quiet && !prefer_commit ==> shown_url(result, quiet, prefer_commit) == result.remote_url,
        shown_url(result, quiet, prefer_commit) matches Some(url) ==> result_text(result, quiet, prefer_commit, verbose)
            == heading_text(result) + indented(result.local_path + ":"@ + decimal(result.start_line as nat)) + indented(url)
            + qualification_text(result, verbose) + "\n"@,
{
}

} // verus!
