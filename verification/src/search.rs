//! Matching and ranking indexed symbols against a query.
use vstd::prelude::*;
use crate::text::{
    ascii_lowercase, char_is_alphabetic, char_is_alphanumeric, char_is_lowercase,
    char_is_uppercase, char_to_lowercase, chars_of, first_occurrence, find, has_prefix,
    starts_with, string_from_chars, unicode_alphabetic, unicode_alphanumeric, unicode_lowercase,
    unicode_lowercase_mapping, unicode_uppercase, append_chars, append_str, decimal,
    decimal_chars, join_with, split_whitespace, trim, trim_bounds, views, words, chars_equal,
    to_ascii_lowercase, unicode_white_space, word_state, lemma_trim_shape, lemma_words_shape,
    lemma_words_of_word, is_word, has_non_white,
};
use crate::path::{components, components_of, join, join_of, parent_components, texts};
use crate::git::{chars_same, remote_branch_file_url, remote_file_url, remote_link};
use crate::filter::{compile_filter, filter_matches, regex_error_message, regex_finds, regex_compiles, PathFilter};
use crate::{string_opt, SearchResult, SearchResultView};
use crate::config::opt_view as str_view;
use crate::order::{
    lemma_path_less_asymmetric, lemma_path_less_irreflexive, lemma_path_less_total,
    lemma_path_less_transitive, path_before, path_less, texts_of,
};

verus! {

// ---------------------------------------------------------------------------
// Canonical names.
// ---------------------------------------------------------------------------

/// A name reduced for matching: its letters and digits, lowered, and the
/// positions in that text where a word starts.
pub struct CanonicalName {
    pub text: Vec<char>,
    pub boundaries: Vec<usize>,
}

/// The lowered text, the word starts and the last letter or digit seen
/// (none right after a separator) after reading `s`.
pub open spec fn canonical_state(s: Seq<char>) -> (Seq<char>, Seq<usize>, Option<char>)
    decreases s.len(),
{
    if s.len() == 0 {
        (Seq::empty(), Seq::empty(), None)
    } else {
        let (text, boundaries, previous) = canonical_state(s.drop_last());
        let c = s.last();
        if !unicode_alphanumeric(c) {
            (text, boundaries, None)
        } else {
            let starts_word = match previous {
                None => true,
                Some(p) => (unicode_lowercase(p) && unicode_uppercase(c)) || (unicode_alphabetic(p)
                    != unicode_alphabetic(c)),
            };
            let boundaries = if starts_word {
                boundaries.push(text.len() as usize)
            } else {
                boundaries
            };
            (text + unicode_lowercase_mapping(c), boundaries, Some(c))
        }
    }
}

/// The matching text of a name: its letters and digits, lowered.
pub open spec fn canonical_text(s: Seq<char>) -> Seq<char> {
    canonical_state(s).0
}

/// Where words start in the matching text of a name: after a separator,
/// at a lower-to-upper case change, and between letters and digits.
pub open spec fn canonical_boundaries(s: Seq<char>) -> Seq<usize> {
    canonical_state(s).1
}

/// The canonical form of `value`.
pub fn canonical_name(value: &str) -> (name: CanonicalName)
    ensures
        name.text@ == canonical_text(value@),
        name.boundaries@ == canonical_boundaries(value@),
{
    let chars = chars_of(value);
    let mut text: Vec<char> = Vec::new();
    let mut boundaries: Vec<usize> = Vec::new();
    let mut previous: Option<char> = None;
    let mut i: usize = 0;
    while i < chars.len()
        invariant
            i <= chars@.len(),
            chars@ == value@,
            (text@, boundaries@, previous) == canonical_state(chars@.subrange(0, i as int)),
        decreases chars@.len() - i,
    {
        let c = chars[i];
        proof {
            assert(chars@.subrange(0, i + 1).drop_last() =~= chars@.subrange(0, i as int));
        }
        if !char_is_alphanumeric(c) {
            previous = None;
        } else {
            let starts_word = match previous {
                None => true,
                Some(p) => (char_is_lowercase(p) && char_is_uppercase(c)) || (char_is_alphabetic(p)
                    != char_is_alphabetic(c)),
            };
            if starts_word {
                boundaries.push(text.len());
            }
            let lowered = char_to_lowercase(c);
            append_chars(&mut text, &lowered);
            previous = Some(c);
        }
        i += 1;
    }
    assert(chars@.subrange(0, i as int) =~= chars@);
    CanonicalName { text, boundaries }
}

/// Separators are dropped from the matching text and leave the word starts
/// alone, and a letter or digit right after a separator starts a word: its
/// position in the matching text is a word start.
pub proof fn lemma_separators_start_words(s: Seq<char>, sep: char, c: char)
    requires
        !unicode_alphanumeric(sep),
        unicode_alphanumeric(c),
    ensures
        canonical_text(s.push(sep)) == canonical_text(s),
        canonical_boundaries(s.push(sep)) == canonical_boundaries(s),
        canonical_boundaries(s.push(sep).push(c)).contains(canonical_text(s).len() as usize),
        canonical_text(s.push(sep).push(c)) == canonical_text(s) + unicode_lowercase_mapping(c),
{
    let t = s.push(sep);
    assert(t.drop_last() =~= s);
    assert(t.push(c).drop_last() =~= t);
    assert(canonical_state(t).2 is None);
    let b = canonical_boundaries(t.push(c));
    assert(b == canonical_boundaries(s).push(canonical_text(s).len() as usize));
    assert(b[b.len() - 1] == canonical_text(s).len() as usize);
}

/// The first letter or digit of a name starts its first word, and a change
/// from a lower-case to an upper-case letter, or between a letter and a
/// digit, starts a word at the second character.
pub proof fn lemma_word_starts(s: Seq<char>, c: char)
    requires
        unicode_alphanumeric(c),
    ensures
        (forall|k: int| 0 <= k < s.len() ==> !unicode_alphanumeric(#[trigger] s[k])) ==> canonical_boundaries(
            s.push(c),
        ) == seq![0usize],
        s.len() > 0 && unicode_alphanumeric(s.last()) && ((unicode_lowercase(s.last()) && unicode_uppercase(c)) || (
        unicode_alphabetic(s.last()) != unicode_alphabetic(c))) ==> canonical_boundaries(s.push(c)).contains(
            canonical_text(s).len() as usize,
        ),
        s.len() > 0 && unicode_alphanumeric(s.last()) && !(unicode_lowercase(s.last()) && unicode_uppercase(c))
            && unicode_alphabetic(s.last()) == unicode_alphabetic(c) ==> canonical_boundaries(s.push(c))
            == canonical_boundaries(s),
{
    assert(s.push(c).drop_last() =~= s);
    if s.len() > 0 && unicode_alphanumeric(s.last()) {
        assert(s.drop_last().push(s.last()) =~= s);
        assert(canonical_state(s).2 == Some(s.last()));
        let b = canonical_boundaries(s.push(c));
        if (unicode_lowercase(s.last()) && unicode_uppercase(c)) || (unicode_alphabetic(s.last()) != unicode_alphabetic(c)) {
            assert(b[b.len() - 1] == canonical_text(s).len() as usize);
        }
    }
    if forall|k: int| 0 <= k < s.len() ==> !unicode_alphanumeric(#[trigger] s[k]) {
        lemma_no_letters_no_words(s);
        assert(Seq::<usize>::empty().push(0usize) =~= seq![0usize]);
    }
}

proof fn lemma_no_letters_no_words(s: Seq<char>)
    requires
        forall|k: int| 0 <= k < s.len() ==> !unicode_alphanumeric(#[trigger] s[k]),
    ensures
        canonical_state(s) == (Seq::<char>::empty(), Seq::<usize>::empty(), None::<char>),
    decreases s.len(),
{
    if s.len() > 0 {
        let shorter = s.drop_last();
        assert forall|k: int| 0 <= k < shorter.len() implies !unicode_alphanumeric(#[trigger] shorter[k]) by {
            assert(shorter[k] == s[k]);
        }
        lemma_no_letters_no_words(shorter);
        assert(!unicode_alphanumeric(s[s.len() - 1]));
    }
}

// ---------------------------------------------------------------------------
// Similarity tiers.
// ---------------------------------------------------------------------------

/// The optimal string alignment distance between the first `i` characters
/// of `a` and the first `j` of `b`: the fewest single-character insertions,
/// deletions and substitutions, and swaps of two adjacent differing
/// characters, no substring being edited more than once.
pub open spec fn osa_prefix(a: Seq<char>, b: Seq<char>, i: nat, j: nat) -> nat
    decreases i + j,
{
    if i == 0 {
        j
    } else if j == 0 {
        i
    } else {
        let cost: nat = if a[i - 1] == b[j - 1] { 0 } else { 1 };
        let deleted = osa_prefix(a, b, (i - 1) as nat, j) + 1;
        let inserted = osa_prefix(a, b, i, (j - 1) as nat) + 1;
        let replaced = osa_prefix(a, b, (i - 1) as nat, (j - 1) as nat) + cost;
        let best = if deleted <= inserted && deleted <= replaced {
            deleted
        } else if inserted <= replaced {
            inserted
        } else {
            replaced
        };
        if i > 1 && j > 1 && a[i - 1] != b[j - 1] && a[i - 1] == b[j - 2] && a[i - 2] == b[j - 1] {
            let swapped = osa_prefix(a, b, (i - 2) as nat, (j - 2) as nat) + 1;
            if swapped < best {
                swapped
            } else {
                best
            }
        } else {
            best
        }
    }
}

/// The optimal string alignment distance between `a` and `b`.
pub open spec fn osa(a: Seq<char>, b: Seq<char>) -> nat {
    osa_prefix(a, b, a.len(), b.len())
}

/// `strsim::osa_distance`: the optimal string alignment distance of the
/// two strings' characters, which it computes row by row by the recurrence
/// that `osa_prefix` states.
#[verifier::external_body]
fn osa_distance(a: &str, b: &str) -> (d: usize)
    ensures
        d == osa(a@, b@),
{
    strsim::osa_distance(a, b)
}

/// How close in length a query is to a candidate, scaled to `range`.
pub open spec fn closeness(query_length: nat, candidate_length: nat, range: nat) -> nat {
    let shorter = if query_length < candidate_length { query_length } else { candidate_length };
    let longer = if candidate_length > 1 { candidate_length } else { 1 };
    (shorter * range) / longer
}

pub fn length_closeness(query_length: usize, candidate_length: usize, range: u32) -> (c: u32)
    ensures
        c == closeness(query_length as nat, candidate_length as nat, range as nat),
        c <= range,
{
    let shorter: u128 = if query_length < candidate_length { query_length as u128 } else { candidate_length as u128 };
    let longer: u128 = if candidate_length > 1 { candidate_length as u128 } else { 1 };
    assert(shorter * (range as u128) <= longer * (range as u128)) by (nonlinear_arith)
        requires
            shorter <= longer,
    ;
    assert(shorter <= 0xffff_ffff_ffff_ffffu128);
    assert(shorter * (range as u128) <= 0xffff_ffff_ffff_ffffu128 * 0xffff_ffffu128) by (nonlinear_arith)
        requires
            shorter <= 0xffff_ffff_ffff_ffffu128,
            range <= 0xffff_ffffu128,
    ;
    let product = shorter * (range as u128);
    let value = product / longer;
    assert(value <= range) by (nonlinear_arith)
        requires
            value as int == product as int / longer as int,
            product <= longer * (range as u128),
            longer >= 1,
    ;
    value as u32
}

/// Whether position `p` of the matching text starts a word.
pub open spec fn is_boundary(boundaries: Seq<usize>, p: int) -> bool {
    exists|k: int| 0 <= k < boundaries.len() && boundaries[k] as int == p
}

pub fn boundary_at(boundaries: &Vec<usize>, p: usize) -> (b: bool)
    ensures
        b == is_boundary(boundaries@, p as int),
{
    let mut k: usize = 0;
    while k < boundaries.len()
        invariant
            k <= boundaries@.len(),
            forall|j: int| 0 <= j < k ==> boundaries@[j] != p,
        decreases boundaries@.len() - k,
    {
        if boundaries[k] == p {
            return true;
        }
        k += 1;
    }
    false
}

/// The most word starts an embedding of the first `k` query characters into
/// the first `n` candidate characters can land on; none when there is no
/// such embedding.
pub open spec fn best_boundary_hits(
    query: Seq<char>,
    candidate: Seq<char>,
    boundaries: Seq<usize>,
    n: nat,
    k: nat,
) -> Option<nat>
    decreases n,
{
    if k == 0 {
        Some(0)
    } else if n == 0 {
        None
    } else {
        let skip = best_boundary_hits(query, candidate, boundaries, (n - 1) as nat, k);
        let take = if candidate[n - 1] == query[k - 1] {
            match best_boundary_hits(query, candidate, boundaries, (n - 1) as nat, (k - 1) as nat) {
                Some(h) => Some(h + if is_boundary(boundaries, n - 1) { 1nat } else { 0nat }),
                None => None,
            }
        } else {
            None
        };
        larger(skip, take)
    }
}

/// The larger of two optional counts, where none is the smallest.
pub open spec fn larger(a: Option<nat>, b: Option<nat>) -> Option<nat> {
    match (a, b) {
        (Some(x), Some(y)) => Some(if x >= y { x } else { y }),
        (Some(x), None) => Some(x),
        (None, _) => b,
    }
}

/// Whether the query is an abbreviation of the candidate: its characters
/// occur in the candidate in order, at least two of them at word starts.
pub open spec fn boundary_abbreviation(query: Seq<char>, candidate: Seq<char>, boundaries: Seq<usize>) -> bool {
    match best_boundary_hits(query, candidate, boundaries, candidate.len(), query.len()) {
        Some(h) => h >= 2,
        None => false,
    }
}

pub fn ordered_boundary_subsequence(query: &Vec<char>, candidate: &Vec<char>, boundaries: &Vec<usize>) -> (b: bool)
    ensures
        b == boundary_abbreviation(query@, candidate@, boundaries@),
{
    let qn = query.len();
    let mut best: Vec<Option<usize>> = Vec::new();
    best.push(Some(0));
    let mut j: usize = 0;
    while j < qn
        invariant
            j <= qn,
            qn == query@.len(),
            best@.len() == j + 1,
            best@[0] == Some(0usize),
            forall|k: int| 1 <= k <= j ==> best@[k] is None,
        decreases qn - j,
    {
        best.push(None);
        j += 1;
    }
    let mut position: usize = 0;
    while position < candidate.len()
        invariant
            position <= candidate@.len(),
            qn == query@.len(),
            best@.len() == qn + 1,
            forall|k: int| 0 <= k <= qn ==> opt_view(#[trigger] best@[k]) == best_boundary_hits(
                query@,
                candidate@,
                boundaries@,
                position as nat,
                k as nat,
            ),
            forall|k: int| 0 <= k <= qn ==> match #[trigger] best@[k] {
                Some(h) => h <= position,
                None => true,
            },
        decreases candidate@.len() - position,
    {
        let hit: usize = if boundary_at(boundaries, position) { 1 } else { 0 };
        let c = candidate[position];
        let ghost old_best = best@;
        let mut qp = qn;
        while qp > 0
            invariant
                qp <= qn,
                qn == query@.len(),
                position < candidate@.len(),
                position < candidate.len(),
                c == candidate@[position as int],
                hit == (if is_boundary(boundaries@, position as int) { 1usize } else { 0usize }),
                best@.len() == qn + 1,
                forall|k: int| 0 <= k <= qp ==> best@[k] == old_best[k],
                forall|k: int| qp < k <= qn ==> opt_view(#[trigger] best@[k]) == best_boundary_hits(
                    query@,
                    candidate@,
                    boundaries@,
                    (position + 1) as nat,
                    k as nat,
                ),
                forall|k: int| 0 <= k <= qn ==> opt_view(#[trigger] old_best[k]) == best_boundary_hits(
                    query@,
                    candidate@,
                    boundaries@,
                    position as nat,
                    k as nat,
                ),
                forall|k: int| 0 <= k <= qn ==> match #[trigger] old_best[k] {
                    Some(h) => h <= position,
                    None => true,
                },
                forall|k: int| qp < k <= qn ==> match #[trigger] best@[k] {
                    Some(h) => h <= position + 1,
                    None => true,
                },
            decreases qp,
        {
            let k = qp - 1;
            assert(best@[k as int] == old_best[k as int]);
            if c == query[k] {
                match best[k] {
                    Some(score) => {
                        assert(score <= position);
                        let candidate_score = score + hit;
                        let updated = match best[k + 1] {
                            Some(existing) => if existing >= candidate_score { existing } else { candidate_score },
                            None => candidate_score,
                        };
                        best.set(k + 1, Some(updated));
                    },
                    None => {},
                }
            }
            proof {
                assert(best_boundary_hits(query@, candidate@, boundaries@, (position + 1) as nat, (k + 1) as nat)
                    == larger(
                        best_boundary_hits(query@, candidate@, boundaries@, position as nat, (k + 1) as nat),
                        if candidate@[position as int] == query@[k as int] {
                            match best_boundary_hits(query@, candidate@, boundaries@, position as nat, k as nat) {
                                Some(h) => Some(h + if is_boundary(boundaries@, position as int) { 1nat } else { 0nat }),
                                None => None,
                            }
                        } else {
                            None
                        },
                    ));
                assert(opt_view(old_best[k as int]) == best_boundary_hits(query@, candidate@, boundaries@, position as nat, k as nat));
                assert(opt_view(old_best[k + 1]) == best_boundary_hits(query@, candidate@, boundaries@, position as nat, (k + 1) as nat));
            }
            qp = k;
        }
        proof {
            assert(best@[0] == old_best[0]);
            assert(opt_view(old_best[0]) == best_boundary_hits(query@, candidate@, boundaries@, position as nat, 0));
            assert(best_boundary_hits(query@, candidate@, boundaries@, (position + 1) as nat, 0) == Some(0nat));
            assert(opt_view(best@[0]) == best_boundary_hits(query@, candidate@, boundaries@, (position + 1) as nat, 0));
        }
        position += 1;
    }
    match best[qn] {
        Some(h) => h >= 2,
        None => false,
    }
}

/// An optional machine count as an optional natural number.
pub open spec fn opt_view(o: Option<usize>) -> Option<nat> {
    match o {
        Some(x) => Some(x as nat),
        None => None,
    }
}

/// How many edits a typo match may need for a query of `length` characters:
/// none up to three characters, one up to seven, two beyond.
pub open spec fn typo_limit(length: nat) -> nat {
    if length <= 3 {
        0
    } else if length <= 7 {
        1
    } else {
        2
    }
}

/// The score of a candidate name for a query, both in canonical form, by
/// tiers: exact 10000; prefix 9000 and up; a substring of at least three
/// characters 8000 and up at a word start, else 7000 and up; an ordered
/// abbreviation hitting two word starts 6000 and up; a bounded typo 5000 and
/// up; otherwise 0.
pub open spec fn similarity(query: Seq<char>, candidate: Seq<char>, boundaries: Seq<usize>) -> nat {
    if query.len() == 0 || candidate.len() == 0 {
        0
    } else if query == candidate {
        10000
    } else if has_prefix(candidate, query) {
        9000 + closeness(query.len(), candidate.len(), 900)
    } else if query.len() >= 3 && first_occurrence(candidate, query) is Some {
        let p = first_occurrence(candidate, query).unwrap();
        if is_boundary(boundaries, p) {
            8000 + closeness(query.len(), candidate.len(), 900)
        } else {
            7000 + closeness(query.len(), candidate.len(), 900)
        }
    } else if query.len() >= 3 && boundary_abbreviation(query, candidate, boundaries) {
        6000 + closeness(query.len(), candidate.len(), 500)
    } else {
        let limit = typo_limit(query.len());
        let gap = if query.len() >= candidate.len() {
            query.len() - candidate.len()
        } else {
            candidate.len() - query.len()
        };
        if limit == 0 || gap > limit {
            0
        } else {
            typo_points(limit, osa(query, candidate))
        }
    }
}

/// The similarity of two names in canonical form.
pub fn canonical_similarity(query: &CanonicalName, candidate: &CanonicalName) -> (score: u32)
    ensures
        score == similarity(query.text@, candidate.text@, candidate.boundaries@),
        score <= 10000,
{
    let q = &query.text;
    let c = &candidate.text;
    if q.len() == 0 || c.len() == 0 {
        return 0;
    }
    if crate::git::chars_same(q, c) {
        return 10000;
    }
    if starts_with(c, q) {
        return 9000 + length_closeness(q.len(), c.len(), 900);
    }
    if q.len() >= 3 {
        if let Some(position) = find(c, q) {
            let close = length_closeness(q.len(), c.len(), 900);
            return if boundary_at(&candidate.boundaries, position) {
                8000 + close
            } else {
                7000 + close
            };
        }
    }
    if q.len() >= 3 && ordered_boundary_subsequence(q, c, &candidate.boundaries) {
        return 6000 + length_closeness(q.len(), c.len(), 500);
    }
    let limit: usize = if q.len() <= 3 {
        0
    } else if q.len() <= 7 {
        1
    } else {
        2
    };
    let gap = if q.len() >= c.len() { q.len() - c.len() } else { c.len() - q.len() };
    if limit == 0 || gap > limit {
        return 0;
    }
    let distance = osa_distance(string_from_chars(q).as_str(), string_from_chars(c).as_str());
    typo_score(limit, distance)
}

/// The score of a typo match: 5000 and 250 more for each edit fewer than
/// the limit allows; 0 when the distance exceeds the limit.
pub open spec fn typo_points(limit: nat, distance: nat) -> nat {
    if distance > limit {
        0
    } else {
        5000 + ((limit - distance) * 250) as nat
    }
}

/// The score of a typo match within `limit` edits (at most two) at
/// `distance` edits.
pub fn typo_score(limit: usize, distance: usize) -> (score: u32)
    requires
        limit <= 2,
    ensures
        score == typo_points(limit as nat, distance as nat),
{
    if distance > limit {
        0
    } else {
        5000 + ((limit - distance) as u32) * 250
    }
}

/// The similarity of two names.
pub open spec fn name_score(query: Seq<char>, candidate: Seq<char>) -> nat {
    similarity(canonical_text(query), canonical_text(candidate), canonical_boundaries(candidate))
}

/// How well `candidate` matches `query`, from 0 to 10000.
pub fn name_similarity(query: &str, candidate: &str) -> (score: u32)
    ensures
        score == name_score(query@, candidate@),
        score <= 10000,
{
    let query = canonical_name(query);
    let candidate = canonical_name(candidate);
    canonical_similarity(&query, &candidate)
}


// ---------------------------------------------------------------------------
// Local Git state.
// ---------------------------------------------------------------------------

pub const SECONDS_PER_DAY: u64 = 86400;

/// Why a repository's local state may be out of date: it is not on origin's
/// default branch (or that branch is unknown), and origin was fetched more
/// than `stale_after` seconds before `now` (or never, as far as is known).
/// Without a clock reading, a fetch counts as just made.
pub open spec fn staleness_reasons(
    origin_branch: Option<Seq<char>>,
    current_branch: Option<Seq<char>>,
    last_fetch_at: Option<u64>,
    stale_after: u64,
    now: Option<u64>,
) -> Seq<Seq<char>> {
    let branch = match (current_branch, origin_branch) {
        (Some(c), Some(o)) => if c == o {
            Seq::<Seq<char>>::empty()
        } else {
            seq!["not-origin-branch"@]
        },
        (_, Some(_)) => seq!["not-origin-branch"@],
        (_, None) => seq!["origin-branch-unknown"@],
    };
    let fetch = match last_fetch_at {
        Some(fetched_at) => {
            let now_seconds = match now {
                Some(n) => n,
                None => fetched_at,
            };
            let age = if now_seconds >= fetched_at { now_seconds - fetched_at } else { 0 };
            if age > stale_after {
                seq!["fetch>"@ + decimal((age / (SECONDS_PER_DAY as int)) as nat) + "d"@]
            } else {
                Seq::<Seq<char>>::empty()
            }
        },
        None => seq!["fetch-unknown"@],
    };
    branch + fetch
}

/// The note shown beside results from a repository whose local state may be
/// out of date; none without a remote, when the check is disabled
/// (`stale_after == 0`), or when nothing is out of date.
pub open spec fn git_state_note(
    remote: Option<Seq<char>>,
    origin_branch: Option<Seq<char>>,
    current_branch: Option<Seq<char>>,
    last_fetch_at: Option<u64>,
    stale_after: u64,
    now: Option<u64>,
) -> Option<Seq<char>> {
    if remote is None || stale_after == 0 {
        None
    } else {
        let reasons = staleness_reasons(origin_branch, current_branch, last_fetch_at, stale_after, now);
        if reasons.len() == 0 {
            None
        } else {
            Some("local-state("@ + join_with(reasons, ","@) + ")"@)
        }
    }
}

/// The note on a repository's local Git state, if it may be out of date.
/// `now` is the current time in seconds since the Unix epoch, if the clock
/// gives one.
pub fn stale_git_state(
    remote: Option<&str>,
    origin_branch: Option<&str>,
    current_branch: Option<&str>,
    last_fetch_at: Option<u64>,
    stale_after: u64,
    now: Option<u64>,
) -> (state: Option<String>)
    ensures
        state matches Some(s) ==> git_state_note(str_view(remote), str_view(origin_branch), str_view(current_branch), last_fetch_at, stale_after, now) == Some(s@),
        state is None ==> git_state_note(str_view(remote), str_view(origin_branch), str_view(current_branch), last_fetch_at, stale_after, now) is None,
{
    if remote.is_none() || stale_after == 0 {
        return None;
    }
    let mut out: Vec<char> = Vec::new();
    append_str(&mut out, "local-state(");
    let ghost head = out@;
    let mut count: usize = 0;
    let ghost mut reasons: Seq<Seq<char>> = Seq::empty();
    match (current_branch, origin_branch) {
        (Some(c), Some(o)) => {
            if !crate::git::chars_same(&chars_of(c), &chars_of(o)) {
                append_str(&mut out, "not-origin-branch");
                count = 1;
                proof { reasons = seq!["not-origin-branch"@]; }
            }
        },
        (_, Some(_)) => {
            append_str(&mut out, "not-origin-branch");
            count = 1;
            proof { reasons = seq!["not-origin-branch"@]; }
        },
        (_, None) => {
            append_str(&mut out, "origin-branch-unknown");
            count = 1;
            proof { reasons = seq!["origin-branch-unknown"@]; }
        },
    }
    assert(reasons == staleness_reasons(str_view(origin_branch), str_view(current_branch), None, stale_after, now).subrange(0, count as int)) by {
        assert(seq!["fetch-unknown"@].len() == 1);
    }
    assert(out@ == head + join_with(reasons, ","@)) by {
        if count == 1 {
            assert(out@ =~= head + reasons[0]);
        } else {
            assert(out@ =~= head);
        }
    }
    let ghost before = out@;
    let ghost before_reasons = reasons;
    match last_fetch_at {
        Some(fetched_at) => {
            let now_seconds = match now {
                Some(n) => n,
                None => fetched_at,
            };
            let age = if now_seconds >= fetched_at { now_seconds - fetched_at } else { 0 };
            if age > stale_after {
                if count > 0 {
                    append_str(&mut out, ",");
                }
                let mut reason: Vec<char> = Vec::new();
                append_str(&mut reason, "fetch>");
                append_chars(&mut reason, &decimal_chars((age / SECONDS_PER_DAY) as u128));
                append_str(&mut reason, "d");
                append_chars(&mut out, &reason);
                count += 1;
                proof {
                    reasons = reasons.push(reason@);
                    assert(reason@ =~= "fetch>"@ + decimal((age / SECONDS_PER_DAY) as nat) + "d"@);
                    if before_reasons.len() == 0 {
                        assert(out@ =~= before + reason@);
                        assert(reasons =~= seq![reason@]);
                    } else {
                        assert(reasons.drop_last() =~= before_reasons);
                        assert(out@ =~= before + ","@ + reason@);
                    }
                }
            }
        },
        None => {
            if count > 0 {
                append_str(&mut out, ",");
            }
            append_str(&mut out, "fetch-unknown");
            count += 1;
            proof {
                reasons = reasons.push("fetch-unknown"@);
                if before_reasons.len() == 0 {
                    assert(out@ =~= before + "fetch-unknown"@);
                    assert(reasons =~= seq!["fetch-unknown"@]);
                } else {
                    assert(reasons.drop_last() =~= before_reasons);
                    assert(out@ =~= before + ","@ + "fetch-unknown"@);
                }
            }
        },
    }
    assert(reasons =~= staleness_reasons(str_view(origin_branch), str_view(current_branch), last_fetch_at, stale_after, now));
    if count == 0 {
        return None;
    }
    append_str(&mut out, ")");
    Some(string_from_chars(&out))
}

// ---------------------------------------------------------------------------
// Query terms.
// ---------------------------------------------------------------------------

/// Why a query cannot be searched for.
#[derive(Debug, Clone, Copy, PartialEq, Eq, Structural)]
pub enum QueryError {
    /// The query is empty or only white space.
    Empty,
    /// No term holds a letter or digit.
    NoLetterOrNumber,
}

/// The message for a query without terms.
pub open spec fn query_error_text(error: QueryError) -> Seq<char> {
    match error {
        QueryError::Empty => "search query cannot be empty"@,
        QueryError::NoLetterOrNumber => "search query must contain a letter or number"@,
    }
}

impl QueryError {
    /// The message shown to the user.
    pub fn message(&self) -> (m: String)
        ensures
            m@ == query_error_text(*self),
    {
        match self {
            QueryError::Empty => String::from_str("search query cannot be empty"),
            QueryError::NoLetterOrNumber => String::from_str("search query must contain a letter or number"),
        }
    }
}

/// Whether `s` holds a letter or a digit.
pub open spec fn has_alphanumeric(s: Seq<char>) -> bool {
    exists|i: int| 0 <= i < s.len() && unicode_alphanumeric(s[i])
}

/// The words that hold a letter or a digit, in order.
pub open spec fn meaningful(ws: Seq<Seq<char>>) -> Seq<Seq<char>>
    decreases ws.len(),
{
    if ws.len() == 0 {
        Seq::empty()
    } else if has_alphanumeric(ws.last()) {
        meaningful(ws.drop_last()).push(ws.last())
    } else {
        meaningful(ws.drop_last())
    }
}

/// The search terms of a query given in parts: every white-space-separated
/// word of every part, in order, except words without a letter or digit.
pub open spec fn terms_of(parts: Seq<Seq<char>>) -> Seq<Seq<char>>
    decreases parts.len(),
{
    if parts.len() == 0 {
        Seq::empty()
    } else {
        terms_of(parts.drop_last()) + meaningful(words(parts.last()))
    }
}

pub open spec fn string_views(v: Seq<String>) -> Seq<Seq<char>> {
    v.map_values(|s: String| s@)
}

fn holds_alphanumeric(s: &Vec<char>) -> (b: bool)
    ensures
        b == has_alphanumeric(s@),
{
    let mut i: usize = 0;
    while i < s.len()
        invariant
            i <= s@.len(),
            forall|j: int| 0 <= j < i ==> !unicode_alphanumeric(s@[j]),
        decreases s@.len() - i,
    {
        if char_is_alphanumeric(s[i]) {
            return true;
        }
        i += 1;
    }
    false
}

/// The terms of a query given in parts (as the command line splits it).
/// Quoted and unquoted white space mean the same; words without a letter
/// or digit are ignored.
pub fn query_terms(query_parts: &[String]) -> (r: Result<Vec<String>, QueryError>)
    ensures
        (forall|i: int| 0 <= i < query_parts@.len() ==> trim(#[trigger] query_parts@[i]@).len() == 0)
            ==> r == Err::<Vec<String>, QueryError>(QueryError::Empty),
        !(forall|i: int| 0 <= i < query_parts@.len() ==> trim(#[trigger] query_parts@[i]@).len() == 0)
            ==> match r {
            Ok(terms) => string_views(terms@) == terms_of(string_views(query_parts@)) && terms@.len() > 0,
            Err(e) => terms_of(string_views(query_parts@)).len() == 0 && e == QueryError::NoLetterOrNumber,
        },
{
    let ghost parts = string_views(query_parts@);
    let mut terms: Vec<String> = Vec::new();
    let mut all_blank = true;
    let mut p: usize = 0;
    while p < query_parts.len()
        invariant
            p <= query_parts@.len(),
            parts == string_views(query_parts@),
            string_views(terms@) == terms_of(parts.subrange(0, p as int)),
            all_blank == (forall|i: int| 0 <= i < p ==> trim(#[trigger] query_parts@[i]@).len() == 0),
        decreases query_parts@.len() - p,
    {
        let chars = chars_of(query_parts[p].as_str());
        let (start, end) = trim_bounds(&chars);
        if start < end {
            all_blank = false;
        }
        let ws = split_whitespace(&chars);
        let ghost before = string_views(terms@);
        let mut k: usize = 0;
        while k < ws.len()
            invariant
                k <= ws@.len(),
                views(ws@) == words(chars@),
                string_views(terms@) == before + meaningful(views(ws@).subrange(0, k as int)),
            decreases ws@.len() - k,
        {
            proof {
                assert(views(ws@).subrange(0, k + 1).drop_last() =~= views(ws@).subrange(0, k as int));
                assert(views(ws@).subrange(0, k + 1).last() == ws@[k as int]@);
            }
            if holds_alphanumeric(&ws[k]) {
                let ghost t = string_views(terms@);
                terms.push(string_from_chars(&ws[k]));
                assert(string_views(terms@) =~= t.push(ws@[k as int]@));
            }
            k += 1;
        }
        proof {
            assert(views(ws@).subrange(0, k as int) =~= views(ws@));
            assert(parts.subrange(0, p + 1).drop_last() =~= parts.subrange(0, p as int));
            assert(parts.subrange(0, p + 1).last() == chars@);
            assert(chars@.subrange(start as int, end as int).len() == end - start);
        }
        p += 1;
    }
    assert(parts.subrange(0, p as int) =~= parts);
    if all_blank {
        return Err(QueryError::Empty);
    }
    if terms.len() == 0 {
        return Err(QueryError::NoLetterOrNumber);
    }
    Ok(terms)
}

// ---------------------------------------------------------------------------
// Directory distance.
// ---------------------------------------------------------------------------

/// How many leading components `a` and `b` share.
pub open spec fn common_prefix(a: Seq<Seq<char>>, b: Seq<Seq<char>>) -> nat
    decreases a.len(),
{
    if a.len() == 0 || b.len() == 0 || a[0] != b[0] {
        0
    } else {
        1 + common_prefix(a.drop_first(), b.drop_first())
    }
}

/// The components of the directory a path stands for: the path itself when
/// it names a directory, else its parent (the path itself when it has none).
pub open spec fn directory_components(c: Seq<Seq<char>>, is_file: bool) -> Seq<Seq<char>> {
    if is_file {
        match parent_components(c) {
            Some(p) => p,
            None => c,
        }
    } else {
        c
    }
}

/// How many directory steps lead from `from` (or from its directory, when it
/// names a file) to the directory that holds `target`: up to their common
/// ancestor, then down.
pub open spec fn directory_distance(from: Seq<char>, from_is_file: bool, target: Seq<char>) -> nat {
    let f = directory_components(components(from), from_is_file);
    let t = directory_components(components(target), true);
    (f.len() + t.len() - 2 * common_prefix(f, t)) as nat
}

/// The directory distance, saturated at `usize::MAX`.
pub open spec fn capped_distance(from: Seq<char>, from_is_file: bool, target: Seq<char>) -> nat {
    if directory_distance(from, from_is_file, target) > usize::MAX {
        usize::MAX as nat
    } else {
        directory_distance(from, from_is_file, target)
    }
}

/// Replaces a file path's components with those of its directory.
fn to_directory(c: &mut Vec<Vec<char>>)
    ensures
        texts(final(c)@) == directory_components(texts(old(c)@), true),
{
    if c.len() > 0 && !(c[c.len() - 1].len() == 1 && c[c.len() - 1][0] == '/') {
        proof {
            assert(texts(c@).last() == c@[c@.len() - 1]@);
            if c@[c@.len() - 1]@ == crate::path::root_text() {
                assert(c@[c@.len() - 1]@[0] == '/');
            }
        }
        let ghost before = texts(c@);
        c.pop();
        assert(texts(c@) =~= before.drop_last());
    } else {
        proof {
            if c@.len() > 0 {
                assert(texts(c@).last() == c@[c@.len() - 1]@);
                assert(c@[c@.len() - 1]@ =~= crate::path::root_text());
            }
        }
    }
}

/// The distance, in directory steps, from `from` (from its directory, when
/// `from_is_file`) to the directory of `target`, saturated at `usize::MAX`.
pub fn path_distance(from: &str, from_is_file: bool, target: &str) -> (d: usize)
    ensures
        d == capped_distance(from@, from_is_file, target@),
{
    let mut f = components_of(&chars_of(from));
    if from_is_file {
        to_directory(&mut f);
    }
    let mut t = components_of(&chars_of(target));
    to_directory(&mut t);
    let ghost ft = texts(f@);
    let ghost tt = texts(t@);
    let mut common: usize = 0;
    assert(ft.subrange(0, ft.len() as int) =~= ft);
    assert(tt.subrange(0, tt.len() as int) =~= tt);
    while common < f.len() && common < t.len() && crate::git::chars_same(&f[common], &t[common])
        invariant
            common <= f@.len(),
            common <= t@.len(),
            ft == texts(f@),
            tt == texts(t@),
            common_prefix(ft, tt) == common + common_prefix(ft.subrange(common as int, ft.len() as int), tt.subrange(common as int, tt.len() as int)),
        decreases f@.len() - common,
    {
        proof {
            let x = ft.subrange(common as int, ft.len() as int);
            let y = tt.subrange(common as int, tt.len() as int);
            assert(x[0] == f@[common as int]@);
            assert(y[0] == t@[common as int]@);
            assert(x.drop_first() =~= ft.subrange(common + 1, ft.len() as int));
            assert(y.drop_first() =~= tt.subrange(common + 1, tt.len() as int));
        }
        common += 1;
    }
    proof {
        let x = ft.subrange(common as int, ft.len() as int);
        let y = tt.subrange(common as int, tt.len() as int);
        if common < f@.len() && common < t@.len() {
            assert(x[0] == f@[common as int]@);
            assert(y[0] == t@[common as int]@);
        }
        assert(common_prefix(x, y) == 0);
    }
    let up = f.len() - common;
    let down = t.len() - common;
    if up > usize::MAX - down {
        usize::MAX
    } else {
        up + down
    }
}

// ---------------------------------------------------------------------------
// Rank order.
// ---------------------------------------------------------------------------

/// What a result is ranked by: whether it matches every term, how many terms
/// it matches, how many terms equal its short name, its mean similarity, its
/// directory distance, its path, and its first line.
pub type RankView = (bool, nat, nat, nat, nat, Seq<Seq<char>>, nat);

/// Whether a result with key `a` ranks ahead of one with key `b`: complete
/// coverage first, then more covered terms, more exact short-name terms,
/// higher similarity, nearer directory, earlier path, earlier line.
pub open spec fn ranks_ahead(a: RankView, b: RankView) -> bool {
    if a.0 != b.0 {
        a.0
    } else if a.1 != b.1 {
        a.1 > b.1
    } else if a.2 != b.2 {
        a.2 > b.2
    } else if a.3 != b.3 {
        a.3 > b.3
    } else if a.4 != b.4 {
        a.4 < b.4
    } else if a.5 != b.5 {
        path_less(a.5, b.5)
    } else {
        a.6 < b.6
    }
}

pub proof fn lemma_ranks_ahead_strict(a: RankView, b: RankView)
    ensures
        !ranks_ahead(a, a),
        !(ranks_ahead(a, b) && ranks_ahead(b, a)),
        a == b || ranks_ahead(a, b) || ranks_ahead(b, a),
{
    lemma_path_less_irreflexive(a.5);
    lemma_path_less_asymmetric(a.5, b.5);
    lemma_path_less_total(a.5, b.5);
}

pub proof fn lemma_ranks_ahead_transitive(a: RankView, b: RankView, c: RankView)
    requires
        ranks_ahead(a, b),
        ranks_ahead(b, c),
    ensures
        ranks_ahead(a, c),
{
    lemma_ranks_ahead_strict(a, b);
    lemma_ranks_ahead_strict(b, c);
    lemma_ranks_ahead_strict(a, c);
    if a.0 == b.0 && b.0 == c.0 && a.1 == b.1 && b.1 == c.1 && a.2 == b.2 && b.2 == c.2 && a.3 == b.3
        && b.3 == c.3 && a.4 == b.4 && b.4 == c.4 {
        if a.5 != b.5 && b.5 != c.5 {
            lemma_path_less_transitive(a.5, b.5, c.5);
            if a.5 == c.5 {
                lemma_path_less_asymmetric(a.5, b.5);
            }
        }
    }
}

/// Whether entry `i` precedes entry `j` in rank order: a better key, or an
/// equal key and an earlier position.
pub open spec fn precedes(keys: Seq<RankView>, i: int, j: int) -> bool {
    ranks_ahead(keys[i], keys[j]) || (keys[i] == keys[j] && i < j)
}

pub proof fn lemma_precedes_transitive(keys: Seq<RankView>, i: int, j: int, k: int)
    requires
        precedes(keys, i, j),
        precedes(keys, j, k),
    ensures
        precedes(keys, i, k),
{
    if ranks_ahead(keys[i], keys[j]) && ranks_ahead(keys[j], keys[k]) {
        lemma_ranks_ahead_transitive(keys[i], keys[j], keys[k]);
    }
}

/// Whether `order` lists the positions `0..keys.len()` once each, in rank
/// order.
pub open spec fn rank_ordered(keys: Seq<RankView>, order: Seq<usize>) -> bool {
    &&& order.len() == keys.len()
    &&& forall|a: int| 0 <= a < order.len() ==> (#[trigger] order[a]) < keys.len()
    &&& forall|i: usize| i < keys.len() ==> #[trigger] order.contains(i)
    &&& forall|a: int, b: int| 0 <= a < b < order.len() ==> precedes(keys, #[trigger] order[a] as int, #[trigger] order[b] as int)
}

/// What a result is ranked by, in executable form.
pub struct RankKey {
    pub full_coverage: bool,
    pub covered_terms: usize,
    pub exact_short_terms: usize,
    pub similarity: u32,
    pub path_distance: usize,
    pub path: Vec<Vec<char>>,
    pub start_line: usize,
}

impl RankKey {
    pub open spec fn rank_view(&self) -> RankView {
        (
            self.full_coverage,
            self.covered_terms as nat,
            self.exact_short_terms as nat,
            self.similarity as nat,
            self.path_distance as nat,
            texts_of(self.path@),
            self.start_line as nat,
        )
    }
}

pub open spec fn rank_views(keys: Seq<RankKey>) -> Seq<RankView> {
    keys.map_values(|k: RankKey| k.rank_view())
}

fn ranks_ahead_of(a: &RankKey, b: &RankKey) -> (r: bool)
    ensures
        r == ranks_ahead(a.rank_view(), b.rank_view()),
{
    if a.full_coverage != b.full_coverage {
        a.full_coverage
    } else if a.covered_terms != b.covered_terms {
        a.covered_terms > b.covered_terms
    } else if a.exact_short_terms != b.exact_short_terms {
        a.exact_short_terms > b.exact_short_terms
    } else if a.similarity != b.similarity {
        a.similarity > b.similarity
    } else if a.path_distance != b.path_distance {
        a.path_distance < b.path_distance
    } else if path_before(&a.path, &b.path) {
        proof {
            lemma_path_less_irreflexive(texts_of(a.path@));
        }
        true
    } else if path_before(&b.path, &a.path) {
        false
    } else {
        proof {
            lemma_path_less_total(texts_of(a.path@), texts_of(b.path@));
        }
        a.start_line < b.start_line
    }
}

/// The positions of `keys` in rank order (ties kept in their given order).
pub fn rank_order(keys: &Vec<RankKey>) -> (order: Vec<usize>)
    ensures
        rank_ordered(rank_views(keys@), order@),
{
    let ghost kv = rank_views(keys@);
    let mut order: Vec<usize> = Vec::new();
    let mut i: usize = 0;
    while i < keys.len()
        invariant
            i <= keys@.len(),
            kv == rank_views(keys@),
            order@.len() == i,
            forall|a: int| 0 <= a < order@.len() ==> (#[trigger] order@[a]) < i,
            forall|j: usize| j < i ==> #[trigger] order@.contains(j),
            forall|a: int, b: int| 0 <= a < b < order@.len() ==> precedes(kv, #[trigger] order@[a] as int, #[trigger] order@[b] as int),
        decreases keys@.len() - i,
    {
        let mut p: usize = 0;
        while p < order.len() && !ranks_ahead_of(&keys[i], &keys[order[p]])
            invariant
                p <= order@.len(),
                i < keys@.len(),
                kv == rank_views(keys@),
                forall|a: int| 0 <= a < order@.len() ==> (#[trigger] order@[a]) < i,
                forall|a: int| 0 <= a < p ==> !ranks_ahead(kv[i as int], kv[#[trigger] order@[a] as int]),
            decreases order@.len() - p,
        {
            assert(kv[order@[p as int] as int] == keys@[order@[p as int] as int].rank_view());
            p += 1;
        }
        proof {
            assert(kv[i as int] == keys@[i as int].rank_view());
            if p < order@.len() {
                assert(kv[order@[p as int] as int] == keys@[order@[p as int] as int].rank_view());
                assert(ranks_ahead(kv[i as int], kv[order@[p as int] as int]));
            }
        }
        let ghost old_order = order@;
        order.insert(p, i);
        proof {
            assert(order@ == old_order.insert(p as int, i));
            assert forall|a: int| 0 <= a < order@.len() implies (#[trigger] order@[a]) < i + 1 by {
                if a < p {
                    assert(order@[a] == old_order[a]);
                } else if a > p {
                    assert(order@[a] == old_order[a - 1]);
                }
            }
            assert forall|j: usize| j < i + 1 implies #[trigger] order@.contains(j) by {
                if j < i {
                    assert(old_order.contains(j));
                    let a = choose|a: int| 0 <= a < old_order.len() && old_order[a] == j;
                    if a < p {
                        assert(order@[a] == j);
                    } else {
                        assert(order@[a + 1] == j);
                    }
                } else {
                    assert(order@[p as int] == i);
                }
            }
            assert forall|a: int, b: int| 0 <= a < b < order@.len() implies precedes(kv, #[trigger] order@[a] as int, #[trigger] order@[b] as int) by {
                let ii = i as int;
                if a < p && b < p {
                    assert(order@[a] == old_order[a] && order@[b] == old_order[b]);
                } else if a < p && b == p {
                    let oa = old_order[a] as int;
                    assert(order@[a] as int == oa);
                    assert(!ranks_ahead(kv[ii], kv[oa]));
                    lemma_ranks_ahead_strict(kv[ii], kv[oa]);
                    assert(oa < ii);
                } else if a < p && b > p {
                    assert(order@[a] == old_order[a] && order@[b] == old_order[b - 1]);
                } else if a == p {
                    let ob = old_order[b - 1] as int;
                    assert(order@[b] as int == ob);
                    let op = old_order[p as int] as int;
                    assert(ranks_ahead(kv[ii], kv[op]));
                    if b - 1 > p {
                        assert(precedes(kv, op, ob));
                        assert(precedes(kv, ii, op));
                        lemma_precedes_transitive(kv, ii, op, ob);
                    }
                } else {
                    assert(order@[a] == old_order[a - 1] && order@[b] == old_order[b - 1]);
                }
            }
        }
        i += 1;
    }
    order
}


// ---------------------------------------------------------------------------
// Searching indexed symbols.
// ---------------------------------------------------------------------------

/// One indexed symbol together with its file and repository, as the index
/// stores them.
#[derive(Debug, Clone)]
pub struct SymbolRow {
    pub name: String,
    pub qualified_name: String,
    pub kind: String,
    pub parent: Option<String>,
    pub namespace: Option<String>,
    pub start_line: usize,
    pub end_line: usize,
    /// The file's path relative to its repository root.
    pub relative_path: String,
    /// The repository root on this machine.
    pub root: String,
    pub remote: Option<String>,
    /// The commit that was current when the repository was indexed.
    pub revision: String,
    /// The branch that links point at.
    pub branch: Option<String>,
    pub origin_branch: Option<String>,
    pub current_branch: Option<String>,
    /// When origin was last fetched, in seconds since the Unix epoch.
    pub last_fetch_at: Option<u64>,
}

/// Why a search could not be run.
#[derive(Debug, Clone, PartialEq, Eq)]
pub enum SearchError {
    /// The query has no usable term.
    Query(QueryError),
    /// The path filter is not a regular expression that the `regex` crate
    /// compiles; the crate's explanation.
    InvalidFilter(String),
}

impl SearchError {
    /// The message shown to the user.
    pub fn message(&self) -> (m: String)
        ensures
            m@ == match self {
                SearchError::Query(error) => query_error_text(*error),
                SearchError::InvalidFilter(reason) => "invalid --filter regex: "@ + reason@,
            },
    {
        match self {
            SearchError::Query(error) => error.message(),
            SearchError::InvalidFilter(reason) => {
                let mut out: Vec<char> = Vec::new();
                append_str(&mut out, "invalid --filter regex: ");
                append_str(&mut out, reason.as_str());
                string_from_chars(&out)
            },
        }
    }
}

/// The terms of a query, or why it has none (what `query_terms` returns).
pub open spec fn query_outcome(parts: Seq<Seq<char>>) -> Result<Seq<Seq<char>>, QueryError> {
    if forall|i: int| 0 <= i < parts.len() ==> trim(#[trigger] parts[i]).len() == 0 {
        Err(QueryError::Empty)
    } else if terms_of(parts).len() == 0 {
        Err(QueryError::NoLetterOrNumber)
    } else {
        Ok(terms_of(parts))
    }
}

/// How well a term matches a qualified name: only when it differs from the
/// short name, and then slightly discounted, so that an exact short-name
/// match stays strongest (an exact qualified match scores 9900).
pub open spec fn qualified_score(term: Seq<char>, name: Seq<char>, qualified: Seq<char>) -> nat {
    if qualified == name {
        0
    } else {
        let score = name_score(term, qualified);
        if score == 10000 {
            9900
        } else {
            score * 95 / 100
        }
    }
}

/// How well a term matches a symbol: the better of its short-name and
/// qualified-name scores.
pub open spec fn term_score(term: Seq<char>, name: Seq<char>, qualified: Seq<char>) -> nat {
    let short = name_score(term, name);
    let long = qualified_score(term, name, qualified);
    if short >= long {
        short
    } else {
        long
    }
}

/// How many terms match a symbol at all.
pub open spec fn covered_terms(terms: Seq<Seq<char>>, name: Seq<char>, qualified: Seq<char>) -> nat
    decreases terms.len(),
{
    if terms.len() == 0 {
        0
    } else {
        covered_terms(terms.drop_last(), name, qualified) + if term_score(terms.last(), name, qualified) > 0 {
            1nat
        } else {
            0nat
        }
    }
}

/// How many terms equal a symbol's short name, as matching sees names.
pub open spec fn exact_short_terms(terms: Seq<Seq<char>>, name: Seq<char>) -> nat
    decreases terms.len(),
{
    if terms.len() == 0 {
        0
    } else {
        exact_short_terms(terms.drop_last(), name) + if name_score(terms.last(), name) == 10000 {
            1nat
        } else {
            0nat
        }
    }
}

/// The sum of the terms' scores for a symbol.
pub open spec fn total_score(terms: Seq<Seq<char>>, name: Seq<char>, qualified: Seq<char>) -> nat
    decreases terms.len(),
{
    if terms.len() == 0 {
        0
    } else {
        total_score(terms.drop_last(), name, qualified) + term_score(terms.last(), name, qualified)
    }
}

/// The mean of the terms' scores for a symbol, rounded down.
pub open spec fn mean_score(terms: Seq<Seq<char>>, name: Seq<char>, qualified: Seq<char>) -> nat {
    if terms.len() == 0 {
        0
    } else {
        total_score(terms, name, qualified) / terms.len()
    }
}

/// Whether a search selects a row: its kind is the requested one, its path
/// matches the filter, and some term matches it.
pub open spec fn row_selected(
    row: SymbolRow,
    terms: Seq<Seq<char>>,
    path_filter: Option<Seq<char>>,
    symbol_kind: Option<Seq<char>>,
) -> bool {
    &&& (symbol_kind matches Some(kind) ==> row.kind@ == kind)
    &&& (path_filter matches Some(pattern) ==> regex_finds(pattern, row.relative_path@))
    &&& covered_terms(terms, row.name@, row.qualified_name@) > 0
}

/// The rows a search selects, in their given order.
pub open spec fn selected_rows(
    rows: Seq<SymbolRow>,
    terms: Seq<Seq<char>>,
    path_filter: Option<Seq<char>>,
    symbol_kind: Option<Seq<char>>,
) -> Seq<SymbolRow>
    decreases rows.len(),
{
    if rows.len() == 0 {
        Seq::empty()
    } else {
        let earlier = selected_rows(rows.drop_last(), terms, path_filter, symbol_kind);
        if row_selected(rows.last(), terms, path_filter, symbol_kind) {
            earlier.push(rows.last())
        } else {
            earlier
        }
    }
}

/// Where a row's file lives on this machine.
pub open spec fn local_path_of(row: SymbolRow) -> Seq<char> {
    join(row.root@, row.relative_path@)
}

/// What a selected row is ranked by.
pub open spec fn row_rank(row: SymbolRow, terms: Seq<Seq<char>>, from: Seq<char>, from_is_file: bool) -> RankView {
    let covered = covered_terms(terms, row.name@, row.qualified_name@);
    (
        covered == terms.len(),
        covered,
        exact_short_terms(terms, row.name@),
        mean_score(terms, row.name@, row.qualified_name@),
        capped_distance(from, from_is_file, local_path_of(row)),
        components(local_path_of(row)),
        row.start_line as nat,
    )
}

/// The rank keys of the rows a search selects.
pub open spec fn ranking_keys(
    rows: Seq<SymbolRow>,
    terms: Seq<Seq<char>>,
    path_filter: Option<Seq<char>>,
    symbol_kind: Option<Seq<char>>,
    from: Seq<char>,
    from_is_file: bool,
) -> Seq<RankView> {
    selected_rows(rows, terms, path_filter, symbol_kind).map_values(
        |row: SymbolRow| row_rank(row, terms, from, from_is_file),
    )
}

pub open spec fn is_namespace(row: SymbolRow) -> bool {
    row.kind@ == "namespace"@
}

/// Namespaces are the same when they are in one repository and their names
/// agree up to ASCII case.
pub open spec fn namespace_key(row: SymbolRow) -> (Seq<char>, Seq<char>) {
    (row.root@, ascii_lowercase(row.name@))
}

/// Whether `row` declares a namespace that one of `earlier` already declared.
pub open spec fn repeats_namespace(earlier: Seq<SymbolRow>, row: SymbolRow) -> bool {
    is_namespace(row) && exists|b: int|
        0 <= b < earlier.len() && is_namespace(#[trigger] earlier[b]) && namespace_key(earlier[b])
            == namespace_key(row)
}

/// Ranked rows with every repeated namespace declaration dropped, so that
/// the best ranked declaration of each namespace stays.
pub open spec fn collapse_namespaces(ranked: Seq<SymbolRow>) -> Seq<SymbolRow>
    decreases ranked.len(),
{
    if ranked.len() == 0 {
        Seq::empty()
    } else {
        let earlier = collapse_namespaces(ranked.drop_last());
        if repeats_namespace(ranked.drop_last(), ranked.last()) {
            earlier
        } else {
            earlier.push(ranked.last())
        }
    }
}

/// At most the first `n` entries of `s`.
pub open spec fn first_n<A>(s: Seq<A>, n: nat) -> Seq<A> {
    if s.len() <= n {
        s
    } else {
        s.take(n as int)
    }
}

/// The rows a search returns: the selected rows arranged by `order`,
/// repeated namespaces collapsed, at most `limit`.
pub open spec fn found_rows(selected: Seq<SymbolRow>, order: Seq<usize>, limit: nat) -> Seq<SymbolRow> {
    first_n(collapse_namespaces(order.map_values(|o: usize| selected[o as int])), limit)
}

/// The result that reports `row` with the given match score.
pub open spec fn result_view(row: SymbolRow, score: u16, stale_after: Option<u64>, now: Option<u64>) -> SearchResultView {
    SearchResultView {
        name: row.name@,
        qualified_name: row.qualified_name@,
        kind: row.kind@,
        match_score: score,
        namespace: string_opt(row.namespace),
        parent: string_opt(row.parent),
        local_path: local_path_of(row),
        relative_path: row.relative_path@,
        start_line: row.start_line,
        end_line: row.end_line,
        remote_url: match row.branch {
            Some(branch) => remote_link(string_opt(row.remote), branch@, row.relative_path@, None),
            None => None,
        },
        commit_url: remote_link(
            string_opt(row.remote),
            row.revision@,
            row.relative_path@,
            Some((row.start_line, row.end_line)),
        ),
        git_state: match stale_after {
            Some(seconds) => git_state_note(
                string_opt(row.remote),
                string_opt(row.origin_branch),
                string_opt(row.current_branch),
                row.last_fetch_at,
                seconds,
                now,
            ),
            None => None,
        },
    }
}

/// The match score reported for a row: its mean term score, at most 10000.
pub open spec fn reported_score(row: SymbolRow, terms: Seq<Seq<char>>) -> u16 {
    let mean = mean_score(terms, row.name@, row.qualified_name@);
    if mean > 10000 {
        10000u16
    } else {
        mean as u16
    }
}

/// The result a search for `terms` reports for `row`.
pub open spec fn expected_result(
    row: SymbolRow,
    terms: Seq<Seq<char>>,
    stale_after: Option<u64>,
    now: Option<u64>,
) -> SearchResultView {
    result_view(row, reported_score(row, terms), stale_after, now)
}

pub open spec fn result_views(results: Seq<SearchResult>) -> Seq<SearchResultView> {
    results.map_values(|r: SearchResult| r@)
}


/// The canonical forms of `terms`.
fn canonical_terms(terms: &Vec<String>) -> (canonical: Vec<CanonicalName>)
    ensures
        canonical@.len() == terms@.len(),
        forall|k: int| 0 <= k < terms@.len() ==> (#[trigger] canonical@[k]).text@ == canonical_text(terms@[k]@),
{
    let mut canonical: Vec<CanonicalName> = Vec::new();
    let mut k: usize = 0;
    while k < terms.len()
        invariant
            k <= terms@.len(),
            canonical@.len() == k,
            forall|j: int| 0 <= j < k ==> (#[trigger] canonical@[j]).text@ == canonical_text(terms@[j]@),
        decreases terms@.len() - k,
    {
        canonical.push(canonical_name(terms[k].as_str()));
        k += 1;
    }
    canonical
}

/// The score of one term against a symbol, and whether the term equals the
/// symbol's short name, from the canonical forms of the term and the names.
fn score_term(
    term: &CanonicalName,
    short_name: &CanonicalName,
    qualified_name: &CanonicalName,
    same: bool,
    Ghost(term_text): Ghost<Seq<char>>,
    Ghost(name): Ghost<Seq<char>>,
    Ghost(qualified): Ghost<Seq<char>>,
) -> (r: (u32, bool))
    requires
        term.text@ == canonical_text(term_text),
        short_name.text@ == canonical_text(name),
        short_name.boundaries@ == canonical_boundaries(name),
        qualified_name.text@ == canonical_text(qualified),
        qualified_name.boundaries@ == canonical_boundaries(qualified),
        same == (name == qualified),
    ensures
        r.0 as nat == term_score(term_text, name, qualified),
        r.0 <= 10000,
        r.1 == (name_score(term_text, name) == 10000),
{
    let short_score = canonical_similarity(term, short_name);
    let qualified_part: u32 = if same {
        0
    } else {
        let score = canonical_similarity(term, qualified_name);
        if score == 10000 {
            9900
        } else {
            score * 95 / 100
        }
    };
    let score = if short_score >= qualified_part { short_score } else { qualified_part };
    (score, short_score == 10000)
}

/// How the terms match a symbol: how many match it at all, how many equal
/// its short name, and the sum of their scores.
#[verifier::spinoff_prover]
#[verifier::rlimit(60)]
fn assess(terms: &Vec<String>, canonical: &Vec<CanonicalName>, name: &str, qualified: &str) -> (a: (usize, usize, u128))
    requires
        canonical@.len() == terms@.len(),
        forall|k: int| 0 <= k < terms@.len() ==> (#[trigger] canonical@[k]).text@ == canonical_text(terms@[k]@),
    ensures
        a.0 as nat == covered_terms(string_views(terms@), name@, qualified@),
        a.1 as nat == exact_short_terms(string_views(terms@), name@),
        a.2 as nat == total_score(string_views(terms@), name@, qualified@),
        a.0 <= terms@.len(),
        a.2 <= 10000 * terms@.len(),
{
    let ghost tv = string_views(terms@);
    let short_name = canonical_name(name);
    let qualified_name = canonical_name(qualified);
    let same = chars_same(&chars_of(name), &chars_of(qualified));
    let mut covered: usize = 0;
    let mut exact: usize = 0;
    let mut total: u128 = 0;
    let mut k: usize = 0;
    while k < canonical.len()
        invariant
            k <= canonical@.len(),
            canonical@.len() == terms@.len(),
            tv == string_views(terms@),
            forall|j: int| 0 <= j < terms@.len() ==> (#[trigger] canonical@[j]).text@ == canonical_text(terms@[j]@),
            short_name.text@ == canonical_text(name@),
            short_name.boundaries@ == canonical_boundaries(name@),
            qualified_name.text@ == canonical_text(qualified@),
            qualified_name.boundaries@ == canonical_boundaries(qualified@),
            same == (name@ == qualified@),
            covered as nat == covered_terms(tv.subrange(0, k as int), name@, qualified@),
            exact as nat == exact_short_terms(tv.subrange(0, k as int), name@),
            total as nat == total_score(tv.subrange(0, k as int), name@, qualified@),
            covered <= k,
            exact <= k,
            total <= 10000 * k,
        decreases canonical@.len() - k,
    {
        let ghost term = tv[k as int];
        assert(term == terms@[k as int]@);
        let (score, is_exact) = score_term(
            &canonical[k],
            &short_name,
            &qualified_name,
            same,
            Ghost(term),
            Ghost(name@),
            Ghost(qualified@),
        );
        if is_exact {
            exact += 1;
        }
        if score > 0 {
            covered += 1;
            total = total + score as u128;
        }
        proof {
            assert(tv.subrange(0, k + 1).drop_last() =~= tv.subrange(0, k as int));
            assert(tv.subrange(0, k + 1).last() == term);
        }
        k += 1;
    }
    assert(tv.subrange(0, k as int) =~= tv);
    (covered, exact, total)
}

/// The rows a search selects, given by their positions in `rows`.
pub open spec fn picked_rows(rows: Seq<SymbolRow>, picks: Seq<usize>) -> Seq<SymbolRow> {
    picks.map_values(|p: usize| rows[p as int])
}

/// Selects the rows that the search keeps and computes their rank keys.
#[verifier::spinoff_prover]
#[verifier::rlimit(60)]
fn select_rows(
    rows: &[SymbolRow],
    terms: &Vec<String>,
    canonical: &Vec<CanonicalName>,
    from: &str,
    from_is_file: bool,
    filter: &Option<PathFilter>,
    path_filter: Option<&str>,
    symbol_kind: Option<&str>,
) -> (selection: (Vec<usize>, Vec<RankKey>))
    requires
        terms@.len() > 0,
        canonical@.len() == terms@.len(),
        forall|k: int| 0 <= k < terms@.len() ==> (#[trigger] canonical@[k]).text@ == canonical_text(terms@[k]@),
        match filter {
            Some(f) => path_filter matches Some(p) && f@ == p@,
            None => path_filter is None,
        },
    ensures
        selection.0@.len() == selection.1@.len(),
        forall|k: int| 0 <= k < selection.0@.len() ==> (#[trigger] selection.0@[k]) < rows@.len(),
        picked_rows(rows@, selection.0@) == selected_rows(rows@, string_views(terms@), str_view(path_filter), str_view(symbol_kind)),
        rank_views(selection.1@) == ranking_keys(rows@, string_views(terms@), str_view(path_filter), str_view(symbol_kind), from@, from_is_file),
{
    let ghost tv = string_views(terms@);
    let ghost pf = str_view(path_filter);
    let ghost sk = str_view(symbol_kind);
    let n = terms.len();
    let mut picks: Vec<usize> = Vec::new();
    let mut keys: Vec<RankKey> = Vec::new();
    let mut i: usize = 0;
    while i < rows.len()
        invariant
            i <= rows@.len(),
            n == terms@.len(),
            n > 0,
            tv == string_views(terms@),
            pf == str_view(path_filter),
            sk == str_view(symbol_kind),
            canonical@.len() == terms@.len(),
            forall|k: int| 0 <= k < terms@.len() ==> (#[trigger] canonical@[k]).text@ == canonical_text(terms@[k]@),
            match filter {
                Some(f) => path_filter matches Some(p) && f@ == p@,
                None => path_filter is None,
            },
            picks@.len() == keys@.len(),
            forall|k: int| 0 <= k < picks@.len() ==> (#[trigger] picks@[k]) < i,
            picked_rows(rows@, picks@) == selected_rows(rows@.subrange(0, i as int), tv, pf, sk),
            rank_views(keys@) == selected_rows(rows@.subrange(0, i as int), tv, pf, sk).map_values(
                |row: SymbolRow| row_rank(row, tv, from@, from_is_file),
            ),
        decreases rows@.len() - i,
    {
        let row = &rows[i];
        let ghost before = rows@.subrange(0, i as int);
        proof {
            assert(rows@.subrange(0, i + 1).drop_last() =~= before);
            assert(rows@.subrange(0, i + 1).last() == *row);
        }
        let kind_ok = match symbol_kind {
            Some(kind) => chars_equal(&chars_of(row.kind.as_str()), kind),
            None => true,
        };
        let path_ok = if kind_ok {
            match filter {
                Some(f) => filter_matches(f, row.relative_path.as_str()),
                None => true,
            }
        } else {
            false
        };
        let mut picked = false;
        if kind_ok && path_ok {
            let (covered, exact, total) = assess(terms, canonical, row.name.as_str(), row.qualified_name.as_str());
            if covered > 0 {
                let similarity = total / (n as u128);
                assert(similarity <= 10000) by (nonlinear_arith)
                    requires
                        similarity == total / (n as u128),
                        total <= 10000 * n,
                        n > 0,
                ;
                let local = join_of(&chars_of(row.root.as_str()), &chars_of(row.relative_path.as_str()));
                let distance = path_distance(from, from_is_file, string_from_chars(&local).as_str());
                let path = components_of(&local);
                let key = RankKey {
                    full_coverage: covered == n,
                    covered_terms: covered,
                    exact_short_terms: exact,
                    similarity: similarity as u32,
                    path_distance: distance,
                    path,
                    start_line: row.start_line,
                };
                proof {
                    assert(texts_of(key.path@) =~= texts(key.path@));
                    assert(key.rank_view() == row_rank(*row, tv, from@, from_is_file));
                }
                let ghost old_keys = rank_views(keys@);
                let ghost old_picks = picks@;
                keys.push(key);
                picks.push(i);
                picked = true;
                proof {
                    assert(rank_views(keys@) =~= old_keys.push(key.rank_view()));
                    assert(picked_rows(rows@, picks@) =~= picked_rows(rows@, old_picks).push(*row));
                }
            }
        }
        proof {
            assert(row_selected(*row, tv, pf, sk) == picked);
            let earlier = selected_rows(before, tv, pf, sk);
            if picked {
                assert(selected_rows(rows@.subrange(0, i + 1), tv, pf, sk) == earlier.push(*row));
                assert(earlier.push(*row).map_values(|r: SymbolRow| row_rank(r, tv, from@, from_is_file))
                    =~= earlier.map_values(|r: SymbolRow| row_rank(r, tv, from@, from_is_file)).push(row_rank(*row, tv, from@, from_is_file)));
            } else {
                assert(selected_rows(rows@.subrange(0, i + 1), tv, pf, sk) == earlier);
            }
        }
        i += 1;
    }
    assert(rows@.subrange(0, i as int) =~= rows@);
    (picks, keys)
}


pub open spec fn pair_views(v: Seq<(Vec<char>, Vec<char>)>) -> Seq<(Seq<char>, Seq<char>)> {
    v.map_values(|p: (Vec<char>, Vec<char>)| (p.0@, p.1@))
}

pub open spec fn key_seen(seen: Seq<(Seq<char>, Seq<char>)>, key: (Seq<char>, Seq<char>)) -> bool {
    exists|j: int| 0 <= j < seen.len() && seen[j] == key
}

fn seen_contains(seen: &Vec<(Vec<char>, Vec<char>)>, root: &Vec<char>, name: &Vec<char>) -> (b: bool)
    ensures
        b == key_seen(pair_views(seen@), (root@, name@)),
{
    let mut j: usize = 0;
    while j < seen.len()
        invariant
            j <= seen@.len(),
            forall|i: int| 0 <= i < j ==> pair_views(seen@)[i] != (root@, name@),
        decreases seen@.len() - j,
    {
        if chars_same(&seen[j].0, root) && chars_same(&seen[j].1, name) {
            assert(pair_views(seen@)[j as int] == (root@, name@));
            return true;
        }
        j += 1;
    }
    false
}

fn opt_str(value: &Option<String>) -> (r: Option<&str>)
    ensures
        str_view(r) == string_opt(*value),
{
    match value {
        Some(s) => Some(s.as_str()),
        None => None,
    }
}

fn clone_opt(value: &Option<String>) -> (r: Option<String>)
    ensures
        r == *value,
{
    match value {
        Some(s) => Some(s.clone()),
        None => None,
    }
}

/// The result that reports `row` with match score `score`.
fn make_result(row: &SymbolRow, score: u16, stale_after: Option<u64>, now: Option<u64>) -> (r: SearchResult)
    ensures
        r@ == result_view(*row, score, stale_after, now),
{
    let local = join_of(&chars_of(row.root.as_str()), &chars_of(row.relative_path.as_str()));
    let remote = opt_str(&row.remote);
    let remote_url = match &row.branch {
        Some(branch) => remote_branch_file_url(remote, branch.as_str(), row.relative_path.as_str()),
        None => None,
    };
    let commit_url = remote_file_url(
        remote,
        row.revision.as_str(),
        row.relative_path.as_str(),
        row.start_line,
        row.end_line,
    );
    let git_state = match stale_after {
        Some(seconds) => stale_git_state(
            remote,
            opt_str(&row.origin_branch),
            opt_str(&row.current_branch),
            row.last_fetch_at,
            seconds,
            now,
        ),
        None => None,
    };
    let r = SearchResult {
        name: row.name.clone(),
        qualified_name: row.qualified_name.clone(),
        kind: row.kind.clone(),
        match_score: score,
        namespace: clone_opt(&row.namespace),
        parent: clone_opt(&row.parent),
        local_path: string_from_chars(&local),
        relative_path: row.relative_path.clone(),
        start_line: row.start_line,
        end_line: row.end_line,
        remote_url,
        commit_url,
        git_state,
    };
    assert(string_opt(r.remote_url) == result_view(*row, score, stale_after, now).remote_url);
    assert(string_opt(r.git_state) == result_view(*row, score, stale_after, now).git_state);
    r
}

proof fn lemma_collapse_prefix(s: Seq<SymbolRow>, n: int)
    requires
        0 <= n <= s.len(),
    ensures
        collapse_namespaces(s.take(n)).len() <= collapse_namespaces(s).len(),
        collapse_namespaces(s).take(collapse_namespaces(s.take(n)).len() as int) == collapse_namespaces(s.take(n)),
    decreases s.len() - n,
{
    if n < s.len() {
        lemma_collapse_prefix(s, n + 1);
        assert(s.take(n + 1).drop_last() =~= s.take(n));
        let short = collapse_namespaces(s.take(n));
        let long = collapse_namespaces(s.take(n + 1));
        assert(long.take(short.len() as int) =~= short);
        assert(collapse_namespaces(s).take(short.len() as int) =~= long.take(short.len() as int));
    } else {
        assert(s.take(n) =~= s);
        assert(collapse_namespaces(s).take(collapse_namespaces(s).len() as int) =~= collapse_namespaces(s));
    }
}

/// The results of the ranked rows: repeated namespaces collapsed, at most
/// `limit`.
#[verifier::spinoff_prover]
#[verifier::rlimit(60)]
fn collect_results(
    rows: &[SymbolRow],
    picks: &Vec<usize>,
    keys: &Vec<RankKey>,
    order: &Vec<usize>,
    limit: usize,
    terms: &Vec<String>,
    stale_after: Option<u64>,
    now: Option<u64>,
) -> (results: Vec<SearchResult>)
    requires
        limit > 0,
        picks@.len() == keys@.len(),
        forall|k: int| 0 <= k < picks@.len() ==> (#[trigger] picks@[k]) < rows@.len(),
        forall|k: int| 0 <= k < keys@.len() ==> (#[trigger] keys@[k]).similarity as nat == mean_score(
            string_views(terms@),
            rows@[picks@[k] as int].name@,
            rows@[picks@[k] as int].qualified_name@,
        ),
        rank_ordered(rank_views(keys@), order@),
    ensures
        result_views(results@) == found_rows(picked_rows(rows@, picks@), order@, limit as nat).map_values(
            |row: SymbolRow| expected_result(row, string_views(terms@), stale_after, now),
        ),
{
    let ghost tv = string_views(terms@);
    let ghost sel = picked_rows(rows@, picks@);
    let ghost ranked = order@.map_values(|o: usize| sel[o as int]);
    let mut results: Vec<SearchResult> = Vec::new();
    let mut seen: Vec<(Vec<char>, Vec<char>)> = Vec::new();
    let ghost mut seen_at: Seq<int> = Seq::empty();
    let mut a: usize = 0;
    while a < order.len() && results.len() < limit
        invariant
            a <= order@.len(),
            results@.len() <= limit,
            order@.len() == keys@.len(),
            picks@.len() == keys@.len(),
            forall|k: int| 0 <= k < picks@.len() ==> (#[trigger] picks@[k]) < rows@.len(),
            forall|k: int| 0 <= k < keys@.len() ==> (#[trigger] keys@[k]).similarity as nat == mean_score(
                tv,
                rows@[picks@[k] as int].name@,
                rows@[picks@[k] as int].qualified_name@,
            ),
            forall|x: int| 0 <= x < order@.len() ==> (#[trigger] order@[x]) < keys@.len(),
            tv == string_views(terms@),
            sel == picked_rows(rows@, picks@),
            ranked == order@.map_values(|o: usize| sel[o as int]),
            result_views(results@) == collapse_namespaces(ranked.take(a as int)).map_values(
                |row: SymbolRow| expected_result(row, tv, stale_after, now),
            ),
            seen_at.len() == seen@.len(),
            forall|j: int| 0 <= j < seen_at.len() ==> 0 <= #[trigger] seen_at[j] < a && is_namespace(ranked[seen_at[j]])
                && namespace_key(ranked[seen_at[j]]) == pair_views(seen@)[j],
            forall|b: int| 0 <= b < a && is_namespace(#[trigger] ranked[b]) ==> key_seen(pair_views(seen@), namespace_key(ranked[b])),
        decreases order@.len() - a,
    {
        let k = order[a];
        let row = &rows[picks[k]];
        assert(ranked[a as int] == *row);
        let namespace = chars_equal(&chars_of(row.kind.as_str()), "namespace");
        let mut keep = true;
        let ghost old_seen = pair_views(seen@);
        if namespace {
            let root = chars_of(row.root.as_str());
            let lowered = to_ascii_lowercase(&chars_of(row.name.as_str()));
            if seen_contains(&seen, &root, &lowered) {
                keep = false;
                proof {
                    let j = choose|j: int| 0 <= j < old_seen.len() && old_seen[j] == (root@, lowered@);
                    let b = seen_at[j];
                    assert(ranked.take(a as int)[b] == ranked[b]);
                    assert(repeats_namespace(ranked.take(a as int), *row));
                }
            } else {
                proof {
                    if repeats_namespace(ranked.take(a as int), *row) {
                        let b = choose|b: int| 0 <= b < a && is_namespace(#[trigger] ranked.take(a as int)[b])
                            && namespace_key(ranked.take(a as int)[b]) == namespace_key(*row);
                        assert(ranked.take(a as int)[b] == ranked[b]);
                        assert(key_seen(old_seen, namespace_key(ranked[b])));
                        assert(false);
                    }
                }
                seen.push((root, lowered));
                proof {
                    seen_at = seen_at.push(a as int);
                    assert(pair_views(seen@) =~= old_seen.push(namespace_key(*row)));
                    assert(pair_views(seen@)[old_seen.len() as int] == namespace_key(*row));
                    assert forall|b: int| 0 <= b < a + 1 && is_namespace(#[trigger] ranked[b]) implies key_seen(pair_views(seen@), namespace_key(ranked[b])) by {
                        if b < a {
                            let j = choose|j: int| 0 <= j < old_seen.len() && old_seen[j] == namespace_key(ranked[b]);
                            assert(pair_views(seen@)[j] == old_seen[j]);
                        } else {
                            assert(pair_views(seen@)[old_seen.len() as int] == namespace_key(ranked[b]));
                        }
                    }
                }
            }
        }
        assert(keep == !repeats_namespace(ranked.take(a as int), *row));
        let ghost old_results = result_views(results@);
        if keep {
            let similarity = keys[k].similarity;
            let score: u16 = if similarity > 10000 { 10000 } else { similarity as u16 };
            assert(score == reported_score(*row, tv));
            results.push(make_result(row, score, stale_after, now));
            assert(result_views(results@) =~= old_results.push(expected_result(*row, tv, stale_after, now)));
        }
        proof {
            let prefix = ranked.take(a + 1);
            assert(prefix.drop_last() =~= ranked.take(a as int));
            assert(prefix.last() == *row);
            let before = collapse_namespaces(ranked.take(a as int));
            if keep {
                assert(before.push(*row).map_values(|r: SymbolRow| expected_result(r, tv, stale_after, now))
                    =~= before.map_values(|r: SymbolRow| expected_result(r, tv, stale_after, now)).push(expected_result(*row, tv, stale_after, now)));
            }
        }
        a += 1;
    }
    proof {
        let all = collapse_namespaces(ranked);
        let got = collapse_namespaces(ranked.take(a as int));
        lemma_collapse_prefix(ranked, a as int);
        if a == order@.len() {
            assert(ranked.take(a as int) =~= ranked);
        }
        assert(got.len() == results@.len());
        assert(found_rows(sel, order@, limit as nat) == first_n(all, limit as nat));
        if a < order@.len() {
            assert(results@.len() == limit);
            if all.len() > limit {
                assert(first_n(all, limit as nat) =~= got);
            } else {
                assert(all.take(got.len() as int) =~= all);
            }
        }
    }
    results
}


/// What a search returns when its query has terms: nothing when `limit` is
/// zero; an error when the path filter does not compile; otherwise, for
/// some arrangement `order` of the selected rows in rank order, the found
/// rows' results.
pub open spec fn search_succeeds_with(
    rows: Seq<SymbolRow>,
    terms: Seq<Seq<char>>,
    from: Seq<char>,
    from_is_file: bool,
    limit: usize,
    path_filter: Option<Seq<char>>,
    symbol_kind: Option<Seq<char>>,
    stale_after: Option<u64>,
    now: Option<u64>,
    results: Seq<SearchResult>,
) -> bool {
    exists|order: Seq<usize>|
        #[trigger] rank_ordered(ranking_keys(rows, terms, path_filter, symbol_kind, from, from_is_file), order)
            && result_views(results) == found_rows(selected_rows(rows, terms, path_filter, symbol_kind), order, limit as nat).map_values(
            |row: SymbolRow| expected_result(row, terms, stale_after, now),
        )
}

/// Searches `rows` for the terms of a query given in parts, ranking from
/// the directory `from` (from its directory, when `from_is_file`).
///
/// The query's terms are found as `query_terms` finds them; a query without
/// terms is an error. A `limit` of zero returns nothing. Otherwise
/// `path_filter` must compile as a regular expression. A row is selected
/// when its kind is `symbol_kind` (if given), its relative path matches the
/// filter (if given) and some term matches its short or qualified name.
/// Selected rows are ranked: those matching every term first, then by how
/// many terms they match, how many terms equal their short name, their mean
/// term score, their directory distance from `from`, their path and their
/// first line (ties keep the rows' order). Among ranked namespace
/// declarations, only the first of each name (up to ASCII case) within a
/// repository is kept; then at most `limit` results are returned. Git state
/// notes are added when `stale_after` is given; `now` is the clock's reading
/// in seconds since the Unix epoch, if any.
pub fn search_filtered_terms(
    rows: &[SymbolRow],
    query_parts: &[String],
    from: &str,
    from_is_file: bool,
    limit: usize,
    path_filter: Option<&str>,
    symbol_kind: Option<&str>,
    stale_after: Option<u64>,
    now: Option<u64>,
) -> (r: Result<Vec<SearchResult>, SearchError>)
    ensures
        match query_outcome(string_views(query_parts@)) {
            Err(e) => r == Err::<Vec<SearchResult>, SearchError>(SearchError::Query(e)),
            Ok(terms) => if limit == 0 {
                r matches Ok(results) && results@.len() == 0
            } else if path_filter matches Some(p) && !regex_compiles(p@) {
                r matches Err(SearchError::InvalidFilter(text)) && text@ == regex_error_message(path_filter.unwrap()@)
            } else {
                r matches Ok(results) && search_succeeds_with(
                    rows@,
                    terms,
                    from@,
                    from_is_file,
                    limit,
                    str_view(path_filter),
                    str_view(symbol_kind),
                    stale_after,
                    now,
                    results@,
                )
            },
        },
{
    proof {
        let parts = string_views(query_parts@);
        if forall|i: int| 0 <= i < parts.len() ==> trim(#[trigger] parts[i]).len() == 0 {
            assert forall|i: int| 0 <= i < query_parts@.len() implies trim(#[trigger] query_parts@[i]@).len() == 0 by {
                assert(parts[i] == query_parts@[i]@);
            }
        }
        if forall|i: int| 0 <= i < query_parts@.len() ==> trim(#[trigger] query_parts@[i]@).len() == 0 {
            assert forall|i: int| 0 <= i < parts.len() implies trim(#[trigger] parts[i]).len() == 0 by {
                assert(parts[i] == query_parts@[i]@);
            }
        }
    }
    let terms = match query_terms(query_parts) {
        Ok(terms) => terms,
        Err(error) => return Err(SearchError::Query(error)),
    };
    let ghost tv = string_views(terms@);
    if limit == 0 {
        return Ok(Vec::new());
    }
    let canonical = canonical_terms(&terms);
    let filter = match path_filter {
        Some(pattern) => match compile_filter(pattern) {
            Ok(filter) => Some(filter),
            Err(text) => return Err(SearchError::InvalidFilter(text)),
        },
        None => None,
    };
    let (picks, keys) = select_rows(
        rows,
        &terms,
        &canonical,
        from,
        from_is_file,
        &filter,
        path_filter,
        symbol_kind,
    );
    let ghost sel = picked_rows(rows@, picks@);
    proof {
        assert forall|k: int| 0 <= k < keys@.len() implies (#[trigger] keys@[k]).similarity as nat == mean_score(
            tv,
            rows@[picks@[k] as int].name@,
            rows@[picks@[k] as int].qualified_name@,
        ) by {
            assert(rank_views(keys@)[k] == keys@[k].rank_view());
            assert(sel[k] == rows@[picks@[k] as int]);
        }
    }
    let order = rank_order(&keys);
    let results = collect_results(rows, &picks, &keys, &order, limit, &terms, stale_after, now);
    assert(rank_ordered(
        ranking_keys(rows@, tv, str_view(path_filter), str_view(symbol_kind), from@, from_is_file),
        order@,
    ));
    Ok(results)
}

/// Searches `rows` for `query` as `search_filtered_terms` does with the one
/// part `query`.
pub fn search_filtered(
    rows: &[SymbolRow],
    query: &str,
    from: &str,
    from_is_file: bool,
    limit: usize,
    path_filter: Option<&str>,
    symbol_kind: Option<&str>,
    stale_after: Option<u64>,
    now: Option<u64>,
) -> (r: Result<Vec<SearchResult>, SearchError>)
    ensures
        match query_outcome(seq![query@]) {
            Err(e) => r == Err::<Vec<SearchResult>, SearchError>(SearchError::Query(e)),
            Ok(terms) => if limit == 0 {
                r matches Ok(results) && results@.len() == 0
            } else if path_filter matches Some(p) && !regex_compiles(p@) {
                r matches Err(SearchError::InvalidFilter(text)) && text@ == regex_error_message(path_filter.unwrap()@)
            } else {
                r matches Ok(results) && search_succeeds_with(
                    rows@,
                    terms,
                    from@,
                    from_is_file,
                    limit,
                    str_view(path_filter),
                    str_view(symbol_kind),
                    stale_after,
                    now,
                    results@,
                )
            },
        },
{
    let parts = vec![query.to_string()];
    assert(string_views(parts@) =~= seq![query@]);
    search_filtered_terms(rows, parts.as_slice(), from, from_is_file, limit, path_filter, symbol_kind, stale_after, now)
}

/// Searches `rows` for `query` with no filter and no Git state notes.
pub fn search(rows: &[SymbolRow], query: &str, from: &str, from_is_file: bool, limit: usize) -> (r: Result<Vec<SearchResult>, SearchError>)
    ensures
        match query_outcome(seq![query@]) {
            Err(e) => r == Err::<Vec<SearchResult>, SearchError>(SearchError::Query(e)),
            Ok(terms) => if limit == 0 {
                r matches Ok(results) && results@.len() == 0
            } else {
                r matches Ok(results) && search_succeeds_with(
                    rows@,
                    terms,
                    from@,
                    from_is_file,
                    limit,
                    None,
                    None,
                    None,
                    None,
                    results@,
                )
            },
        },
{
    search_filtered(rows, query, from, from_is_file, limit, None, None, None, None)
}


// ---------------------------------------------------------------------------
// Laws of the ranking.
// ---------------------------------------------------------------------------

proof fn lemma_precedes_strict(keys: Seq<RankView>, i: int, j: int)
    ensures
        !precedes(keys, i, i),
        !(precedes(keys, i, j) && precedes(keys, j, i)),
{
    lemma_ranks_ahead_strict(keys[i], keys[j]);
    lemma_ranks_ahead_strict(keys[i], keys[i]);
}

proof fn lemma_sorted_unique(keys: Seq<RankView>, a: Seq<usize>, b: Seq<usize>)
    requires
        a.len() == b.len(),
        forall|x: usize| a.contains(x) <==> b.contains(x),
        forall|i: int, j: int| 0 <= i < j < a.len() ==> precedes(keys, #[trigger] a[i] as int, #[trigger] a[j] as int),
        forall|i: int, j: int| 0 <= i < j < b.len() ==> precedes(keys, #[trigger] b[i] as int, #[trigger] b[j] as int),
    ensures
        a == b,
    decreases a.len(),
{
    if a.len() > 0 {
        let x = a[0];
        let y = b[0];
        assert(a.contains(x));
        assert(b.contains(y));
        let i = choose|i: int| 0 <= i < b.len() && b[i] == x;
        let j = choose|j: int| 0 <= j < a.len() && a[j] == y;
        if i > 0 {
            assert(precedes(keys, y as int, x as int));
            if j > 0 {
                assert(precedes(keys, x as int, y as int));
                lemma_precedes_strict(keys, x as int, y as int);
            } else {
                lemma_precedes_strict(keys, x as int, x as int);
            }
        }
        assert(x == y);
        let a2 = a.drop_first();
        let b2 = b.drop_first();
        assert forall|z: usize| a2.contains(z) <==> b2.contains(z) by {
            if a2.contains(z) {
                let k = choose|k: int| 0 <= k < a2.len() && a2[k] == z;
                assert(a[k + 1] == z);
                lemma_precedes_strict(keys, x as int, x as int);
                assert(z != x);
                assert(b.contains(z));
                let m = choose|m: int| 0 <= m < b.len() && b[m] == z;
                assert(m != 0);
                assert(b2[m - 1] == z);
            }
            if b2.contains(z) {
                let k = choose|k: int| 0 <= k < b2.len() && b2[k] == z;
                assert(b[k + 1] == z);
                lemma_precedes_strict(keys, y as int, y as int);
                assert(z != y);
                assert(a.contains(z));
                let m = choose|m: int| 0 <= m < a.len() && a[m] == z;
                assert(m != 0);
                assert(a2[m - 1] == z);
            }
        }
        assert forall|p: int, q: int| 0 <= p < q < a2.len() implies precedes(keys, #[trigger] a2[p] as int, #[trigger] a2[q] as int) by {
            assert(a2[p] == a[p + 1] && a2[q] == a[q + 1]);
        }
        assert forall|p: int, q: int| 0 <= p < q < b2.len() implies precedes(keys, #[trigger] b2[p] as int, #[trigger] b2[q] as int) by {
            assert(b2[p] == b[p + 1] && b2[q] == b[q + 1]);
        }
        lemma_sorted_unique(keys, a2, b2);
        assert(a =~= seq![x] + a2);
        assert(b =~= seq![y] + b2);
    } else {
        assert(a =~= b);
    }
}

/// Ranking is deterministic: there is exactly one arrangement of a set of
/// results in rank order, since ties in every key are broken by the rows'
/// given order.
pub proof fn lemma_rank_order_unique(keys: Seq<RankView>, a: Seq<usize>, b: Seq<usize>)
    requires
        rank_ordered(keys, a),
        rank_ordered(keys, b),
    ensures
        a == b,
{
    assert forall|x: usize| a.contains(x) <==> b.contains(x) by {
        if a.contains(x) {
            let k = choose|k: int| 0 <= k < a.len() && a[k] == x;
            assert(a[k] < keys.len());
        }
        if b.contains(x) {
            let k = choose|k: int| 0 <= k < b.len() && b[k] == x;
            assert(b[k] < keys.len());
        }
    }
    lemma_sorted_unique(keys, a, b);
}


/// Where the rows that `collapse_namespaces` keeps stand among the ranked
/// rows.
pub open spec fn collapse_positions(ranked: Seq<SymbolRow>) -> Seq<int>
    decreases ranked.len(),
{
    if ranked.len() == 0 {
        Seq::empty()
    } else {
        let earlier = collapse_positions(ranked.drop_last());
        if repeats_namespace(ranked.drop_last(), ranked.last()) {
            earlier
        } else {
            earlier.push(ranked.len() - 1)
        }
    }
}

proof fn lemma_collapse_positions(ranked: Seq<SymbolRow>)
    ensures
        collapse_positions(ranked).len() == collapse_namespaces(ranked).len(),
        forall|k: int| 0 <= k < collapse_positions(ranked).len() ==> 0 <= #[trigger] collapse_positions(ranked)[k] < ranked.len()
            && collapse_namespaces(ranked)[k] == ranked[collapse_positions(ranked)[k]],
        forall|k: int, l: int| 0 <= k < l < collapse_positions(ranked).len() ==> #[trigger] collapse_positions(ranked)[k] < #[trigger] collapse_positions(ranked)[l],
    decreases ranked.len(),
{
    if ranked.len() > 0 {
        let shorter = ranked.drop_last();
        lemma_collapse_positions(shorter);
        let p = collapse_positions(shorter);
        let c = collapse_namespaces(shorter);
        assert forall|k: int| 0 <= k < p.len() implies shorter[p[k]] == ranked[p[k]] by {}
        if !repeats_namespace(shorter, ranked.last()) {
            let p2 = p.push(ranked.len() - 1);
            let c2 = c.push(ranked.last());
            assert forall|k: int| 0 <= k < p2.len() implies 0 <= #[trigger] p2[k] < ranked.len() && c2[k] == ranked[p2[k]] by {
                if k < p.len() {
                    assert(p2[k] == p[k] && c2[k] == c[k]);
                }
            }
            assert forall|k: int, l: int| 0 <= k < l < p2.len() implies #[trigger] p2[k] < #[trigger] p2[l] by {
                if l < p.len() {
                    assert(p2[k] == p[k] && p2[l] == p[l]);
                } else {
                    assert(p2[k] == p[k]);
                }
            }
        }
    }
}

/// Collapsing keeps one declaration per namespace: no two namespace rows
/// that it keeps are in the same repository with the same name up to ASCII
/// case.
pub proof fn lemma_collapsed_namespaces_distinct(ranked: Seq<SymbolRow>)
    ensures
        forall|i: int, j: int|
            0 <= i < j < collapse_namespaces(ranked).len() && is_namespace(#[trigger] collapse_namespaces(ranked)[i])
                && is_namespace(#[trigger] collapse_namespaces(ranked)[j]) ==> namespace_key(collapse_namespaces(ranked)[i])
                != namespace_key(collapse_namespaces(ranked)[j]),
    decreases ranked.len(),
{
    if ranked.len() > 0 {
        let shorter = ranked.drop_last();
        lemma_collapsed_namespaces_distinct(shorter);
        lemma_collapse_positions(shorter);
        let c = collapse_namespaces(shorter);
        let p = collapse_positions(shorter);
        if !repeats_namespace(shorter, ranked.last()) {
            let c2 = c.push(ranked.last());
            assert forall|i: int, j: int|
                0 <= i < j < c2.len() && is_namespace(#[trigger] c2[i]) && is_namespace(#[trigger] c2[j]) implies namespace_key(c2[i])
                    != namespace_key(c2[j]) by {
                if j == c.len() {
                    assert(c2[i] == c[i]);
                    assert(c[i] == shorter[p[i]]);
                    if namespace_key(c2[i]) == namespace_key(c2[j]) {
                        assert(is_namespace(shorter[p[i]]));
                        assert(repeats_namespace(shorter, ranked.last()));
                    }
                } else {
                    assert(c2[i] == c[i] && c2[j] == c[j]);
                }
            }
        }
    }
}

/// Collapsing drops only repeated namespace declarations: every other
/// ranked row is kept.
pub proof fn lemma_collapse_keeps_other_rows(ranked: Seq<SymbolRow>, p: int)
    requires
        0 <= p < ranked.len(),
        !repeats_namespace(ranked.take(p), ranked[p]),
    ensures
        collapse_namespaces(ranked).contains(ranked[p]),
    decreases ranked.len(),
{
    let shorter = ranked.drop_last();
    if p == ranked.len() - 1 {
        assert(ranked.take(p) =~= shorter);
        assert(collapse_namespaces(ranked).last() == ranked[p]);
    } else {
        assert(shorter.take(p) =~= ranked.take(p));
        lemma_collapse_keeps_other_rows(shorter, p);
        let c = collapse_namespaces(shorter);
        let k = choose|k: int| 0 <= k < c.len() && c[k] == shorter[p];
        assert(collapse_namespaces(ranked)[k] == c[k]);
    }
}

/// A search's results come best first: no result ranks ahead of one listed
/// before it.
pub proof fn lemma_found_rows_best_first(
    rows: Seq<SymbolRow>,
    terms: Seq<Seq<char>>,
    path_filter: Option<Seq<char>>,
    symbol_kind: Option<Seq<char>>,
    from: Seq<char>,
    from_is_file: bool,
    order: Seq<usize>,
    limit: nat,
)
    requires
        rank_ordered(ranking_keys(rows, terms, path_filter, symbol_kind, from, from_is_file), order),
    ensures
        forall|i: int, j: int|
            0 <= i < j < found_rows(selected_rows(rows, terms, path_filter, symbol_kind), order, limit).len() ==> !ranks_ahead(
                row_rank(#[trigger] found_rows(selected_rows(rows, terms, path_filter, symbol_kind), order, limit)[j], terms, from, from_is_file),
                row_rank(#[trigger] found_rows(selected_rows(rows, terms, path_filter, symbol_kind), order, limit)[i], terms, from, from_is_file),
            ),
{
    let sel = selected_rows(rows, terms, path_filter, symbol_kind);
    let keys = ranking_keys(rows, terms, path_filter, symbol_kind, from, from_is_file);
    let ranked = order.map_values(|o: usize| sel[o as int]);
    let c = collapse_namespaces(ranked);
    let f = found_rows(sel, order, limit);
    lemma_collapse_positions(ranked);
    let pos = collapse_positions(ranked);
    assert forall|i: int, j: int| 0 <= i < j < f.len() implies !ranks_ahead(
        row_rank(#[trigger] f[j], terms, from, from_is_file),
        row_rank(#[trigger] f[i], terms, from, from_is_file),
    ) by {
        assert(f[i] == c[i] && f[j] == c[j]);
        let a = pos[i];
        let b = pos[j];
        assert(a < b);
        let oa = order[a] as int;
        let ob = order[b] as int;
        assert(precedes(keys, oa, ob));
        assert(keys[oa] == row_rank(sel[oa], terms, from, from_is_file));
        assert(keys[ob] == row_rank(sel[ob], terms, from, from_is_file));
        assert(c[i] == ranked[a] && ranked[a] == sel[oa]);
        assert(c[j] == ranked[b] && ranked[b] == sel[ob]);
        lemma_ranks_ahead_strict(keys[oa], keys[ob]);
    }
}

/// A search returns at most `limit` results.
pub proof fn lemma_found_rows_within_limit(selected: Seq<SymbolRow>, order: Seq<usize>, limit: nat)
    ensures
        found_rows(selected, order, limit).len() <= limit,
{
}


/// The sum of `g` over the terms.
pub open spec fn sum_over(terms: Seq<Seq<char>>, g: spec_fn(Seq<char>) -> nat) -> nat
    decreases terms.len(),
{
    if terms.len() == 0 {
        0
    } else {
        sum_over(terms.drop_last(), g) + g(terms.last())
    }
}

proof fn lemma_sum_remove(terms: Seq<Seq<char>>, g: spec_fn(Seq<char>) -> nat, i: int)
    requires
        0 <= i < terms.len(),
    ensures
        sum_over(terms, g) == sum_over(terms.remove(i), g) + g(terms[i]),
    decreases terms.len(),
{
    if i == terms.len() - 1 {
        assert(terms.remove(i) =~= terms.drop_last());
    } else {
        lemma_sum_remove(terms.drop_last(), g, i);
        assert(terms.remove(i).drop_last() =~= terms.drop_last().remove(i));
        assert(terms.remove(i).last() == terms.last());
    }
}

proof fn lemma_sum_permutation(terms: Seq<Seq<char>>, reordered: Seq<Seq<char>>, g: spec_fn(Seq<char>) -> nat)
    requires
        terms.to_multiset() == reordered.to_multiset(),
    ensures
        sum_over(terms, g) == sum_over(reordered, g),
    decreases terms.len(),
{
    broadcast use vstd::seq_lib::group_to_multiset_ensures;

    if terms.len() == 0 {
        assert(terms.to_multiset().len() == 0);
        assert(reordered.to_multiset().len() == reordered.len());
    } else {
        let x = terms.last();
        let rest = terms.drop_last();
        assert(rest.push(x) =~= terms);
        assert(terms.contains(x));
        assert(reordered.to_multiset().count(x) > 0);
        assert(reordered.contains(x));
        let i = choose|i: int| 0 <= i < reordered.len() && reordered[i] == x;
        lemma_sum_remove(reordered, g, i);
        assert(rest.to_multiset() =~= terms.to_multiset().remove(x));
        assert(reordered.remove(i).to_multiset() =~= reordered.to_multiset().remove(x));
        lemma_sum_permutation(rest, reordered.remove(i), g);
    }
}

proof fn lemma_counts_are_sums(terms: Seq<Seq<char>>, name: Seq<char>, qualified: Seq<char>)
    ensures
        covered_terms(terms, name, qualified) == sum_over(
            terms,
            |t: Seq<char>| if term_score(t, name, qualified) > 0 { 1nat } else { 0nat },
        ),
        exact_short_terms(terms, name) == sum_over(
            terms,
            |t: Seq<char>| if name_score(t, name) == 10000 { 1nat } else { 0nat },
        ),
        total_score(terms, name, qualified) == sum_over(terms, |t: Seq<char>| term_score(t, name, qualified)),
    decreases terms.len(),
{
    if terms.len() > 0 {
        lemma_counts_are_sums(terms.drop_last(), name, qualified);
    }
}

proof fn lemma_row_assessment_permutation(row: SymbolRow, terms: Seq<Seq<char>>, reordered: Seq<Seq<char>>)
    requires
        terms.to_multiset() == reordered.to_multiset(),
    ensures
        covered_terms(terms, row.name@, row.qualified_name@) == covered_terms(reordered, row.name@, row.qualified_name@),
        exact_short_terms(terms, row.name@) == exact_short_terms(reordered, row.name@),
        total_score(terms, row.name@, row.qualified_name@) == total_score(reordered, row.name@, row.qualified_name@),
        terms.len() == reordered.len(),
{
    broadcast use vstd::seq_lib::group_to_multiset_ensures;

    let n = row.name@;
    let q = row.qualified_name@;
    lemma_counts_are_sums(terms, n, q);
    lemma_counts_are_sums(reordered, n, q);
    lemma_sum_permutation(terms, reordered, |t: Seq<char>| if term_score(t, n, q) > 0 { 1nat } else { 0nat });
    lemma_sum_permutation(terms, reordered, |t: Seq<char>| if name_score(t, n) == 10000 { 1nat } else { 0nat });
    lemma_sum_permutation(terms, reordered, |t: Seq<char>| term_score(t, n, q));
    assert(terms.len() == terms.to_multiset().len());
    assert(reordered.len() == reordered.to_multiset().len());
}

proof fn lemma_selected_rows_agree(
    rows: Seq<SymbolRow>,
    terms: Seq<Seq<char>>,
    reordered: Seq<Seq<char>>,
    path_filter: Option<Seq<char>>,
    symbol_kind: Option<Seq<char>>,
)
    requires
        terms.to_multiset() == reordered.to_multiset(),
    ensures
        selected_rows(rows, terms, path_filter, symbol_kind) == selected_rows(rows, reordered, path_filter, symbol_kind),
    decreases rows.len(),
{
    if rows.len() > 0 {
        lemma_selected_rows_agree(rows.drop_last(), terms, reordered, path_filter, symbol_kind);
        lemma_row_assessment_permutation(rows.last(), terms, reordered);
    }
}

proof fn lemma_keys_agree(
    rows: Seq<SymbolRow>,
    terms: Seq<Seq<char>>,
    reordered: Seq<Seq<char>>,
    path_filter: Option<Seq<char>>,
    symbol_kind: Option<Seq<char>>,
    from: Seq<char>,
    from_is_file: bool,
)
    requires
        terms.to_multiset() == reordered.to_multiset(),
    ensures
        ranking_keys(rows, terms, path_filter, symbol_kind, from, from_is_file) == ranking_keys(
            rows,
            reordered,
            path_filter,
            symbol_kind,
            from,
            from_is_file,
        ),
{
    lemma_selected_rows_agree(rows, terms, reordered, path_filter, symbol_kind);
    let sel = selected_rows(rows, terms, path_filter, symbol_kind);
    assert forall|k: int| 0 <= k < sel.len() implies row_rank(sel[k], terms, from, from_is_file) == row_rank(
        sel[k],
        reordered,
        from,
        from_is_file,
    ) by {
        lemma_row_assessment_permutation(sel[k], terms, reordered);
    }
    assert(ranking_keys(rows, terms, path_filter, symbol_kind, from, from_is_file) =~= ranking_keys(
        rows,
        reordered,
        path_filter,
        symbol_kind,
        from,
        from_is_file,
    ));
}

proof fn lemma_results_agree(
    found: Seq<SymbolRow>,
    terms: Seq<Seq<char>>,
    reordered: Seq<Seq<char>>,
    stale_after: Option<u64>,
    now: Option<u64>,
)
    requires
        terms.to_multiset() == reordered.to_multiset(),
    ensures
        found.map_values(|row: SymbolRow| expected_result(row, terms, stale_after, now)) == found.map_values(
            |row: SymbolRow| expected_result(row, reordered, stale_after, now),
        ),
{
    assert forall|k: int| 0 <= k < found.len() implies expected_result(found[k], terms, stale_after, now)
        == expected_result(found[k], reordered, stale_after, now) by {
        lemma_row_assessment_permutation(found[k], terms, reordered);
    }
    assert(found.map_values(|row: SymbolRow| expected_result(row, terms, stale_after, now)) =~= found.map_values(
        |row: SymbolRow| expected_result(row, reordered, stale_after, now),
    ));
}

/// The order of a query's terms does not matter: a query with the same
/// terms in another order finds the same results in the same order.
pub proof fn lemma_term_order_irrelevant(
    rows: Seq<SymbolRow>,
    terms: Seq<Seq<char>>,
    reordered: Seq<Seq<char>>,
    from: Seq<char>,
    from_is_file: bool,
    limit: usize,
    path_filter: Option<Seq<char>>,
    symbol_kind: Option<Seq<char>>,
    stale_after: Option<u64>,
    now: Option<u64>,
    results: Seq<SearchResult>,
)
    requires
        terms.to_multiset() == reordered.to_multiset(),
    ensures
        search_succeeds_with(rows, terms, from, from_is_file, limit, path_filter, symbol_kind, stale_after, now, results)
            == search_succeeds_with(rows, reordered, from, from_is_file, limit, path_filter, symbol_kind, stale_after, now, results),
{
    lemma_selected_rows_agree(rows, terms, reordered, path_filter, symbol_kind);
    lemma_keys_agree(rows, terms, reordered, path_filter, symbol_kind, from, from_is_file);
    let sel = selected_rows(rows, terms, path_filter, symbol_kind);
    let keys = ranking_keys(rows, terms, path_filter, symbol_kind, from, from_is_file);
    if search_succeeds_with(rows, terms, from, from_is_file, limit, path_filter, symbol_kind, stale_after, now, results) {
        let order = choose|order: Seq<usize>|
            #[trigger] rank_ordered(keys, order) && result_views(results) == found_rows(sel, order, limit as nat).map_values(
                |row: SymbolRow| expected_result(row, terms, stale_after, now),
            );
        lemma_results_agree(found_rows(sel, order, limit as nat), terms, reordered, stale_after, now);
    }
    if search_succeeds_with(rows, reordered, from, from_is_file, limit, path_filter, symbol_kind, stale_after, now, results) {
        let order = choose|order: Seq<usize>|
            #[trigger] rank_ordered(keys, order) && result_views(results) == found_rows(sel, order, limit as nat).map_values(
                |row: SymbolRow| expected_result(row, reordered, stale_after, now),
            );
        lemma_results_agree(found_rows(sel, order, limit as nat), terms, reordered, stale_after, now);
    }
}


/// Parts that are all blank hold no terms.
proof fn lemma_blank_parts_have_no_terms(parts: Seq<Seq<char>>)
    requires
        forall|i: int| 0 <= i < parts.len() ==> trim(#[trigger] parts[i]).len() == 0,
    ensures
        terms_of(parts).len() == 0,
    decreases parts.len(),
{
    if parts.len() > 0 {
        let shorter = parts.drop_last();
        assert forall|i: int| 0 <= i < shorter.len() implies trim(#[trigger] shorter[i]).len() == 0 by {
            assert(shorter[i] == parts[i]);
        }
        lemma_blank_parts_have_no_terms(shorter);
        let last = parts.last();
        assert(trim(parts[parts.len() - 1]).len() == 0);
        lemma_trim_shape(last);
        lemma_words_shape(last);
        assert(words(last).len() == 0);
        assert(meaningful(words(last)) == Seq::<Seq<char>>::empty());
        assert(terms_of(parts) =~= terms_of(shorter));
    }
}

/// A query given in parts has terms exactly when its terms are not empty.
proof fn lemma_outcome_has_terms(parts: Seq<Seq<char>>)
    ensures
        query_outcome(parts) is Ok <==> terms_of(parts).len() > 0,
        query_outcome(parts) is Ok ==> query_outcome(parts) == Ok::<Seq<Seq<char>>, QueryError>(terms_of(parts)),
{
    if forall|i: int| 0 <= i < parts.len() ==> trim(#[trigger] parts[i]).len() == 0 {
        lemma_blank_parts_have_no_terms(parts);
    }
}

/// The order of a query's words does not matter: query parts whose terms
/// are the same up to order both have terms or both have none, and a search
/// for either finds the same results in the same order.
pub proof fn lemma_query_part_order_irrelevant(
    rows: Seq<SymbolRow>,
    parts: Seq<Seq<char>>,
    reordered: Seq<Seq<char>>,
    from: Seq<char>,
    from_is_file: bool,
    limit: usize,
    path_filter: Option<Seq<char>>,
    symbol_kind: Option<Seq<char>>,
    stale_after: Option<u64>,
    now: Option<u64>,
    results: Seq<SearchResult>,
)
    requires
        terms_of(parts).to_multiset() == terms_of(reordered).to_multiset(),
    ensures
        query_outcome(parts) is Ok <==> query_outcome(reordered) is Ok,
        query_outcome(parts) is Ok ==> search_succeeds_with(
            rows,
            query_outcome(parts)->Ok_0,
            from,
            from_is_file,
            limit,
            path_filter,
            symbol_kind,
            stale_after,
            now,
            results,
        ) == search_succeeds_with(
            rows,
            query_outcome(reordered)->Ok_0,
            from,
            from_is_file,
            limit,
            path_filter,
            symbol_kind,
            stale_after,
            now,
            results,
        ),
{
    broadcast use vstd::seq_lib::group_to_multiset_ensures;

    lemma_outcome_has_terms(parts);
    lemma_outcome_has_terms(reordered);
    assert(terms_of(parts).len() == terms_of(parts).to_multiset().len());
    assert(terms_of(reordered).len() == terms_of(reordered).to_multiset().len());
    if query_outcome(parts) is Ok && query_outcome(reordered) is Ok {
        assert(query_outcome(parts)->Ok_0 == terms_of(parts));
        assert(query_outcome(reordered)->Ok_0 == terms_of(reordered));
    }
    lemma_term_order_irrelevant(
        rows,
        terms_of(parts),
        terms_of(reordered),
        from,
        from_is_file,
        limit,
        path_filter,
        symbol_kind,
        stale_after,
        now,
        results,
    );
}

/// Words given as parts have the terms of the words themselves.
proof fn lemma_terms_of_words(ws: Seq<Seq<char>>)
    requires
        forall|i: int| 0 <= i < ws.len() ==> is_word(#[trigger] ws[i]),
    ensures
        terms_of(ws) == meaningful(ws),
    decreases ws.len(),
{
    if ws.len() > 0 {
        let shorter = ws.drop_last();
        assert forall|i: int| 0 <= i < shorter.len() implies is_word(#[trigger] shorter[i]) by {
            assert(shorter[i] == ws[i]);
        }
        lemma_terms_of_words(shorter);
        let w = ws.last();
        assert(is_word(ws[ws.len() - 1]));
        lemma_words_of_word(w);
        assert(seq![w].drop_last() =~= Seq::<Seq<char>>::empty());
        assert(seq![w].last() == w);
        assert(meaningful(seq![w].drop_last()) == Seq::<Seq<char>>::empty());
        if has_alphanumeric(w) {
            assert(meaningful(seq![w]) =~= seq![w]);
            assert(terms_of(ws) =~= meaningful(shorter).push(w));
        } else {
            assert(meaningful(seq![w]) =~= Seq::<Seq<char>>::empty());
            assert(terms_of(ws) =~= meaningful(shorter));
        }
    }
}

/// Splitting a query at white space changes nothing: a query has the
/// outcome of its white-space-separated words given as separate parts, so
/// `search_filtered` on a query finds what `search_filtered_terms` finds on
/// the query's words.
pub proof fn lemma_query_words_as_parts(query: Seq<char>)
    ensures
        query_outcome(seq![query]) == query_outcome(words(query)),
{
    let ws = words(query);
    lemma_words_shape(query);
    lemma_trim_shape(query);
    lemma_terms_of_words(ws);
    assert(seq![query].drop_last() =~= Seq::<Seq<char>>::empty());
    assert(seq![query].last() == query);
    assert(terms_of(seq![query].drop_last()) == Seq::<Seq<char>>::empty());
    assert(terms_of(seq![query]) =~= meaningful(ws));
    assert forall|i: int| 0 <= i < ws.len() implies trim(#[trigger] ws[i]).len() > 0 by {
        assert(is_word(ws[i]));
        assert(!unicode_white_space(ws[i][0]));
        lemma_trim_shape(ws[i]);
    }
    let one_blank = forall|i: int| 0 <= i < seq![query].len() ==> trim(#[trigger] seq![query][i]).len() == 0;
    let words_blank = forall|i: int| 0 <= i < ws.len() ==> trim(#[trigger] ws[i]).len() == 0;
    assert(one_blank <==> trim(query).len() == 0) by {
        if trim(query).len() == 0 {
            assert forall|i: int| 0 <= i < seq![query].len() implies trim(#[trigger] seq![query][i]).len() == 0 by {
                assert(seq![query][i] == query);
            }
        }
        if one_blank {
            assert(seq![query][0] == query);
        }
    }
    assert(trim(query).len() == 0 <==> !has_non_white(query)) by {
        if !has_non_white(query) {
            assert forall|k: int| 0 <= k < query.len() implies unicode_white_space(#[trigger] query[k]) by {}
        }
    }
    assert(words_blank <==> ws.len() == 0) by {
        if ws.len() > 0 {
            assert(trim(ws[0]).len() > 0);
        }
    }
}

/// Every row a search selects is one of its rows, and qualifies.
proof fn lemma_selected_rows_qualify(
    rows: Seq<SymbolRow>,
    terms: Seq<Seq<char>>,
    path_filter: Option<Seq<char>>,
    symbol_kind: Option<Seq<char>>,
)
    ensures
        forall|k: int|
            0 <= k < selected_rows(rows, terms, path_filter, symbol_kind).len() ==> row_selected(
                #[trigger] selected_rows(rows, terms, path_filter, symbol_kind)[k],
                terms,
                path_filter,
                symbol_kind,
            ) && rows.contains(selected_rows(rows, terms, path_filter, symbol_kind)[k]),
    decreases rows.len(),
{
    if rows.len() > 0 {
        let shorter = rows.drop_last();
        lemma_selected_rows_qualify(shorter, terms, path_filter, symbol_kind);
        let e = selected_rows(shorter, terms, path_filter, symbol_kind);
        let s = selected_rows(rows, terms, path_filter, symbol_kind);
        assert forall|k: int| 0 <= k < s.len() implies row_selected(#[trigger] s[k], terms, path_filter, symbol_kind)
            && rows.contains(s[k]) by {
            if k < e.len() {
                assert(s[k] == e[k]);
                let j = choose|j: int| 0 <= j < shorter.len() && shorter[j] == e[k];
                assert(rows[j] == shorter[j]);
            } else {
                assert(s[k] == rows.last());
                assert(rows[rows.len() - 1] == rows.last());
            }
        }
    }
}

/// The selected rows arranged by `order`, repeated namespaces collapsed:
/// what a search's results are the first entries of.
pub open spec fn collapsed_ranking(selected: Seq<SymbolRow>, order: Seq<usize>) -> Seq<SymbolRow> {
    collapse_namespaces(order.map_values(|o: usize| selected[o as int]))
}

/// In the collapsed ranking no row ranks ahead of one listed before it.
proof fn lemma_collapsed_ranking_best_first(
    rows: Seq<SymbolRow>,
    terms: Seq<Seq<char>>,
    path_filter: Option<Seq<char>>,
    symbol_kind: Option<Seq<char>>,
    from: Seq<char>,
    from_is_file: bool,
    order: Seq<usize>,
)
    requires
        rank_ordered(ranking_keys(rows, terms, path_filter, symbol_kind, from, from_is_file), order),
    ensures
        forall|i: int, j: int|
            0 <= i < j < collapsed_ranking(selected_rows(rows, terms, path_filter, symbol_kind), order).len() ==> !ranks_ahead(
                row_rank(#[trigger] collapsed_ranking(selected_rows(rows, terms, path_filter, symbol_kind), order)[j], terms, from, from_is_file),
                row_rank(#[trigger] collapsed_ranking(selected_rows(rows, terms, path_filter, symbol_kind), order)[i], terms, from, from_is_file),
            ),
        forall|i: int|
            0 <= i < collapsed_ranking(selected_rows(rows, terms, path_filter, symbol_kind), order).len() ==> selected_rows(
                rows,
                terms,
                path_filter,
                symbol_kind,
            ).contains(#[trigger] collapsed_ranking(selected_rows(rows, terms, path_filter, symbol_kind), order)[i]),
{
    let sel = selected_rows(rows, terms, path_filter, symbol_kind);
    let keys = ranking_keys(rows, terms, path_filter, symbol_kind, from, from_is_file);
    let ranked = order.map_values(|o: usize| sel[o as int]);
    let c = collapsed_ranking(sel, order);
    lemma_collapse_positions(ranked);
    let pos = collapse_positions(ranked);
    assert forall|i: int, j: int| 0 <= i < j < c.len() implies !ranks_ahead(
        row_rank(#[trigger] c[j], terms, from, from_is_file),
        row_rank(#[trigger] c[i], terms, from, from_is_file),
    ) by {
        let a = pos[i];
        let b = pos[j];
        assert(a < b);
        let oa = order[a] as int;
        let ob = order[b] as int;
        assert(precedes(keys, oa, ob));
        assert(keys[oa] == row_rank(sel[oa], terms, from, from_is_file));
        assert(keys[ob] == row_rank(sel[ob], terms, from, from_is_file));
        assert(c[i] == ranked[a] && ranked[a] == sel[oa]);
        assert(c[j] == ranked[b] && ranked[b] == sel[ob]);
        lemma_ranks_ahead_strict(keys[oa], keys[ob]);
    }
    assert forall|i: int| 0 <= i < c.len() implies sel.contains(#[trigger] c[i]) by {
        let a = pos[i];
        let oa = order[a] as int;
        assert(oa < keys.len());
        assert(c[i] == ranked[a] && ranked[a] == sel[oa]);
    }
}

proof fn lemma_selected_rows_fewer(
    rows: Seq<SymbolRow>,
    terms: Seq<Seq<char>>,
    path_filter: Option<Seq<char>>,
    symbol_kind: Option<Seq<char>>,
)
    ensures
        selected_rows(rows, terms, path_filter, symbol_kind).len() <= rows.len(),
    decreases rows.len(),
{
    if rows.len() > 0 {
        lemma_selected_rows_fewer(rows.drop_last(), terms, path_filter, symbol_kind);
    }
}

/// A namespace declaration that collapsing drops repeats one that an
/// earlier entry of the ranking declares and collapsing keeps.
proof fn lemma_dropped_namespace_has_kept_peer(ranked: Seq<SymbolRow>, p: int)
    requires
        0 <= p < ranked.len(),
        repeats_namespace(ranked.take(p), ranked[p]),
    ensures
        exists|b: int|
            0 <= b < p && is_namespace(#[trigger] ranked[b]) && namespace_key(ranked[b]) == namespace_key(ranked[p])
                && !repeats_namespace(ranked.take(b), ranked[b]),
    decreases p,
{
    let earlier = ranked.take(p);
    let b = choose|b: int|
        0 <= b < earlier.len() && is_namespace(#[trigger] earlier[b]) && namespace_key(earlier[b]) == namespace_key(ranked[p]);
    assert(earlier[b] == ranked[b]);
    if repeats_namespace(ranked.take(b), ranked[b]) {
        lemma_dropped_namespace_has_kept_peer(ranked, b);
        let c = choose|c: int|
            0 <= c < b && is_namespace(#[trigger] ranked[c]) && namespace_key(ranked[c]) == namespace_key(ranked[b])
                && !repeats_namespace(ranked.take(c), ranked[c]);
        assert(is_namespace(ranked[c]));
    } else {
        assert(is_namespace(ranked[b]));
    }
}

/// Collapsing keeps the best ranked declaration of each namespace: every
/// selected row stays in the collapsed ranking, or it declares a namespace
/// that a row of the collapsed ranking declares too (in the same repository,
/// with the same name up to ASCII case), and that row ranks no worse.
pub proof fn lemma_collapse_keeps_best_of_each_namespace(
    rows: Seq<SymbolRow>,
    terms: Seq<Seq<char>>,
    path_filter: Option<Seq<char>>,
    symbol_kind: Option<Seq<char>>,
    from: Seq<char>,
    from_is_file: bool,
    order: Seq<usize>,
)
    requires
        rows.len() <= usize::MAX,
        rank_ordered(ranking_keys(rows, terms, path_filter, symbol_kind, from, from_is_file), order),
    ensures
        forall|k: int|
            0 <= k < selected_rows(rows, terms, path_filter, symbol_kind).len() ==> collapsed_ranking(
                selected_rows(rows, terms, path_filter, symbol_kind),
                order,
            ).contains(#[trigger] selected_rows(rows, terms, path_filter, symbol_kind)[k]) || (is_namespace(
                selected_rows(rows, terms, path_filter, symbol_kind)[k],
            ) && exists|j: int|
                0 <= j < collapsed_ranking(selected_rows(rows, terms, path_filter, symbol_kind), order).len()
                    && is_namespace(#[trigger] collapsed_ranking(selected_rows(rows, terms, path_filter, symbol_kind), order)[j])
                    && namespace_key(collapsed_ranking(selected_rows(rows, terms, path_filter, symbol_kind), order)[j])
                    == namespace_key(selected_rows(rows, terms, path_filter, symbol_kind)[k]) && !ranks_ahead(
                    row_rank(selected_rows(rows, terms, path_filter, symbol_kind)[k], terms, from, from_is_file),
                    row_rank(
                        collapsed_ranking(selected_rows(rows, terms, path_filter, symbol_kind), order)[j],
                        terms,
                        from,
                        from_is_file,
                    ),
                )),
{
    let sel = selected_rows(rows, terms, path_filter, symbol_kind);
    let keys = ranking_keys(rows, terms, path_filter, symbol_kind, from, from_is_file);
    let ranked = order.map_values(|o: usize| sel[o as int]);
    let c = collapsed_ranking(sel, order);
    lemma_selected_rows_fewer(rows, terms, path_filter, symbol_kind);
    assert forall|k: int| 0 <= k < sel.len() implies c.contains(#[trigger] sel[k]) || (is_namespace(sel[k]) && exists|j: int|
        0 <= j < c.len() && is_namespace(#[trigger] c[j]) && namespace_key(c[j]) == namespace_key(sel[k]) && !ranks_ahead(
            row_rank(sel[k], terms, from, from_is_file),
            row_rank(c[j], terms, from, from_is_file),
        )) by {
        assert(order.contains(k as usize));
        let a = choose|a: int| 0 <= a < order.len() && order[a] == k as usize;
        assert(ranked[a] == sel[k]);
        if !repeats_namespace(ranked.take(a), ranked[a]) {
            lemma_collapse_keeps_other_rows(ranked, a);
        } else {
            lemma_dropped_namespace_has_kept_peer(ranked, a);
            let b = choose|b: int|
                0 <= b < a && is_namespace(#[trigger] ranked[b]) && namespace_key(ranked[b]) == namespace_key(ranked[a])
                    && !repeats_namespace(ranked.take(b), ranked[b]);
            lemma_collapse_keeps_other_rows(ranked, b);
            let j = choose|j: int| 0 <= j < c.len() && c[j] == ranked[b];
            let ob = order[b] as int;
            assert(precedes(keys, ob, k));
            assert(keys[ob] == row_rank(sel[ob], terms, from, from_is_file));
            assert(keys[k] == row_rank(sel[k], terms, from, from_is_file));
            assert(ranked[b] == sel[ob]);
            lemma_ranks_ahead_strict(keys[ob], keys[k]);
            assert(is_namespace(c[j]));
        }
    }
}

/// What a search returns is a prefix of its ranking: for an arrangement
/// `order` of the selected rows in rank order, the results report the first
/// rows of the collapsed ranking, in that order; fewer than `limit` only
/// when the ranking has no more; no row of the ranking that is left out
/// ranks ahead of one returned; and no two returned namespace declarations
/// are of one namespace in one repository.
pub proof fn lemma_results_are_a_ranking_prefix(
    rows: Seq<SymbolRow>,
    terms: Seq<Seq<char>>,
    from: Seq<char>,
    from_is_file: bool,
    limit: usize,
    path_filter: Option<Seq<char>>,
    symbol_kind: Option<Seq<char>>,
    stale_after: Option<u64>,
    now: Option<u64>,
    results: Seq<SearchResult>,
)
    requires
        search_succeeds_with(rows, terms, from, from_is_file, limit, path_filter, symbol_kind, stale_after, now, results),
    ensures
        exists|order: Seq<usize>|
            #[trigger] rank_ordered(ranking_keys(rows, terms, path_filter, symbol_kind, from, from_is_file), order)
                && ranking_prefix(
                collapsed_ranking(selected_rows(rows, terms, path_filter, symbol_kind), order),
                terms,
                from,
                from_is_file,
                limit,
                stale_after,
                now,
                results,
            ),
{
    let sel = selected_rows(rows, terms, path_filter, symbol_kind);
    let keys = ranking_keys(rows, terms, path_filter, symbol_kind, from, from_is_file);
    let order = choose|order: Seq<usize>|
        #[trigger] rank_ordered(keys, order) && result_views(results) == found_rows(sel, order, limit as nat).map_values(
            |row: SymbolRow| expected_result(row, terms, stale_after, now),
        );
    let c = collapsed_ranking(sel, order);
    let f = found_rows(sel, order, limit as nat);
    assert(f == first_n(c, limit as nat));
    lemma_collapsed_ranking_best_first(rows, terms, path_filter, symbol_kind, from, from_is_file, order);
    lemma_collapsed_namespaces_distinct(order.map_values(|o: usize| sel[o as int]));
    assert(results.len() == result_views(results).len());
    assert forall|i: int| 0 <= i < results.len() implies #[trigger] results[i]@ == expected_result(
        c[i],
        terms,
        stale_after,
        now,
    ) by {
        assert(result_views(results)[i] == results[i]@);
        assert(f[i] == c[i]);
    }
    assert(ranking_prefix(c, terms, from, from_is_file, limit, stale_after, now, results));
}

/// Whether `results` report the first entries of the collapsed ranking
/// `ranked`, as `lemma_results_are_a_ranking_prefix` states.
pub open spec fn ranking_prefix(
    ranked: Seq<SymbolRow>,
    terms: Seq<Seq<char>>,
    from: Seq<char>,
    from_is_file: bool,
    limit: usize,
    stale_after: Option<u64>,
    now: Option<u64>,
    results: Seq<SearchResult>,
) -> bool {
    &&& results.len() <= ranked.len()
    &&& results.len() <= limit
    &&& (results.len() < limit ==> results.len() == ranked.len())
    &&& forall|i: int| 0 <= i < results.len() ==> #[trigger] results[i]@ == expected_result(ranked[i], terms, stale_after, now)
    &&& forall|i: int, m: int|
        0 <= i < results.len() <= m < ranked.len() ==> !ranks_ahead(
            row_rank(#[trigger] ranked[m], terms, from, from_is_file),
            row_rank(#[trigger] ranked[i], terms, from, from_is_file),
        )
    &&& forall|i: int, j: int|
        0 <= i < j < results.len() && is_namespace(#[trigger] ranked[i]) && is_namespace(#[trigger] ranked[j])
            ==> namespace_key(ranked[i]) != namespace_key(ranked[j])
}

/// Every result of a search reports a row the search selects, as such a
/// row is reported: it has the requested kind, its path matches the filter,
/// some term matches its name, its score is at most 10000, its local path
/// and its links are those of its own row, and it has a Git state note only
/// when one was asked for.
pub proof fn lemma_results_report_selected_rows(
    rows: Seq<SymbolRow>,
    terms: Seq<Seq<char>>,
    from: Seq<char>,
    from_is_file: bool,
    limit: usize,
    path_filter: Option<Seq<char>>,
    symbol_kind: Option<Seq<char>>,
    stale_after: Option<u64>,
    now: Option<u64>,
    results: Seq<SearchResult>,
)
    requires
        search_succeeds_with(rows, terms, from, from_is_file, limit, path_filter, symbol_kind, stale_after, now, results),
    ensures
        results.len() <= limit,
        forall|i: int|
            #![trigger results[i]]
            0 <= i < results.len() ==> exists|row: SymbolRow|
                #[trigger] rows.contains(row) && row_selected(row, terms, path_filter, symbol_kind) && results[i]@
                    == expected_result(row, terms, stale_after, now) && results[i]@.local_path == join(
                    row.root@,
                    row.relative_path@,
                ) && results[i]@.commit_url == remote_link(
                    string_opt(row.remote),
                    row.revision@,
                    row.relative_path@,
                    Some((row.start_line, row.end_line)),
                ),
        forall|i: int|
            0 <= i < results.len() ==> (symbol_kind matches Some(k) ==> (#[trigger] results[i])@.kind == k) && (
            path_filter matches Some(p) ==> regex_finds(p, results[i]@.relative_path)) && results[i]@.match_score
                <= 10000 && covered_terms(terms, results[i]@.name, results[i]@.qualified_name) > 0 && (
            stale_after is None ==> results[i]@.git_state is None),
{
    let sel = selected_rows(rows, terms, path_filter, symbol_kind);
    lemma_results_are_a_ranking_prefix(
        rows,
        terms,
        from,
        from_is_file,
        limit,
        path_filter,
        symbol_kind,
        stale_after,
        now,
        results,
    );
    let order = choose|order: Seq<usize>|
        #[trigger] rank_ordered(ranking_keys(rows, terms, path_filter, symbol_kind, from, from_is_file), order)
            && ranking_prefix(collapsed_ranking(sel, order), terms, from, from_is_file, limit, stale_after, now, results);
    let c = collapsed_ranking(sel, order);
    lemma_collapsed_ranking_best_first(rows, terms, path_filter, symbol_kind, from, from_is_file, order);
    lemma_selected_rows_qualify(rows, terms, path_filter, symbol_kind);
    assert forall|i: int|
        #![trigger results[i]]
        0 <= i < results.len() implies exists|row: SymbolRow|
        #[trigger] rows.contains(row) && row_selected(row, terms, path_filter, symbol_kind) && results[i]@
            == expected_result(row, terms, stale_after, now) && results[i]@.local_path == join(
            row.root@,
            row.relative_path@,
        ) && results[i]@.commit_url == remote_link(
            string_opt(row.remote),
            row.revision@,
            row.relative_path@,
            Some((row.start_line, row.end_line)),
        ) by {
        assert(results[i]@ == expected_result(c[i], terms, stale_after, now));
        assert(sel.contains(c[i]));
        let k = choose|k: int| 0 <= k < sel.len() && sel[k] == c[i];
        assert(row_selected(sel[k], terms, path_filter, symbol_kind) && rows.contains(sel[k]));
    }
    assert forall|i: int| 0 <= i < results.len() implies (symbol_kind matches Some(k) ==> (#[trigger] results[i])@.kind
        == k) && (path_filter matches Some(p) ==> regex_finds(p, results[i]@.relative_path)) && results[i]@.match_score
        <= 10000 && covered_terms(terms, results[i]@.name, results[i]@.qualified_name) > 0 && (stale_after is None
        ==> results[i]@.git_state is None) by {
        assert(results[i]@ == expected_result(c[i], terms, stale_after, now));
        assert(sel.contains(c[i]));
        let k = choose|k: int| 0 <= k < sel.len() && sel[k] == c[i];
        assert(row_selected(sel[k], terms, path_filter, symbol_kind));
    }
}

proof fn lemma_closeness_bound(query_length: nat, candidate_length: nat, range: nat)
    ensures
        closeness(query_length, candidate_length, range) <= range,
{
    let shorter = if query_length < candidate_length { query_length } else { candidate_length };
    let longer = if candidate_length > 1 { candidate_length } else { 1 };
    assert(shorter <= longer);
    assert(shorter * range <= longer * range) by (nonlinear_arith)
        requires
            shorter <= longer,
    ;
    assert((shorter * range) / longer <= range) by (nonlinear_arith)
        requires
            shorter * range <= longer * range,
            longer >= 1,
    ;
}

/// Match tiers score in separate bands, so a better kind of match always
/// outscores a worse one: an exact match 10000; a prefix 9000 to 9900; a
/// substring of three or more characters starting a word 8000 to 8900,
/// elsewhere 7000 to 7900; an ordered abbreviation touching two word starts
/// 6000 to 6500; a bounded typo 5000 to 5500 (only for queries of four or
/// more characters, within one edit up to seven characters and two beyond);
/// anything else 0.
pub proof fn lemma_similarity_tiers(query: Seq<char>, candidate: Seq<char>, boundaries: Seq<usize>)
    ensures
        ({
            let s = similarity(query, candidate, boundaries);
            if query.len() == 0 || candidate.len() == 0 {
                s == 0
            } else if query == candidate {
                s == 10000
            } else if has_prefix(candidate, query) {
                9000 <= s <= 9900
            } else if query.len() >= 3 && first_occurrence(candidate, query) is Some {
                if is_boundary(boundaries, first_occurrence(candidate, query).unwrap()) {
                    8000 <= s <= 8900
                } else {
                    7000 <= s <= 7900
                }
            } else if query.len() >= 3 && boundary_abbreviation(query, candidate, boundaries) {
                6000 <= s <= 6500
            } else {
                s == 0 || (5000 <= s <= 5500 && query.len() >= 4 && osa(query, candidate) <= typo_limit(query.len()))
            }
        }),
{
    lemma_closeness_bound(query.len(), candidate.len(), 900);
    lemma_closeness_bound(query.len(), candidate.len(), 500);
}

/// Every score lies between 0 and 10000, and a qualified-name match scores
/// at most 9900, so an exact short-name match stays strongest.
pub proof fn lemma_score_bounds(term: Seq<char>, name: Seq<char>, qualified: Seq<char>)
    ensures
        name_score(term, name) <= 10000,
        qualified_score(term, name, qualified) <= 9900,
        term_score(term, name, qualified) <= 10000,
        term_score(term, name, qualified) == 10000 <==> name_score(term, name) == 10000,
{
    let t = canonical_text(term);
    lemma_similarity_tiers(t, canonical_text(name), canonical_boundaries(name));
    lemma_similarity_tiers(t, canonical_text(qualified), canonical_boundaries(qualified));
}

/// A name matches itself exactly unless it has no letter or digit.
pub proof fn lemma_exact_names_score_top(name: Seq<char>)
    requires
        canonical_text(name).len() > 0,
    ensures
        name_score(name, name) == 10000,
{
}


proof fn lemma_word_state_after_blank(a: Seq<char>, blank: char)
    requires
        unicode_white_space(blank),
    ensures
        word_state(a.push(blank)) == (words(a), Seq::<char>::empty()),
{
    assert(a.push(blank).drop_last() =~= a);
}

proof fn lemma_word_state_append(p: Seq<char>, b: Seq<char>)
    requires
        word_state(p).1.len() == 0,
    ensures
        word_state(p + b) == (word_state(p).0 + word_state(b).0, word_state(b).1),
    decreases b.len(),
{
    if b.len() == 0 {
        assert(p + b =~= p);
        assert(word_state(p).0 + Seq::<Seq<char>>::empty() =~= word_state(p).0);
        assert(word_state(p).1 =~= Seq::<char>::empty());
    } else {
        lemma_word_state_append(p, b.drop_last());
        assert((p + b).drop_last() =~= p + b.drop_last());
        assert((p + b).last() == b.last());
        let (d, c) = word_state(b.drop_last());
        if unicode_white_space(b.last()) && c.len() > 0 {
            assert(word_state(p).0 + d.push(c) =~= (word_state(p).0 + d).push(c));
        }
    }
}

proof fn lemma_meaningful_append(x: Seq<Seq<char>>, y: Seq<Seq<char>>)
    ensures
        meaningful(x + y) == meaningful(x) + meaningful(y),
    decreases y.len(),
{
    if y.len() == 0 {
        assert(x + y =~= x);
        assert(meaningful(x) + meaningful(y) =~= meaningful(x));
    } else {
        lemma_meaningful_append(x, y.drop_last());
        assert((x + y).drop_last() =~= x + y.drop_last());
        assert((x + y).last() == y.last());
        if has_alphanumeric(y.last()) {
            assert(meaningful(x) + meaningful(y.drop_last()).push(y.last()) =~= (meaningful(x) + meaningful(
                y.drop_last(),
            )).push(y.last()));
        }
    }
}

/// Quoted and unquoted white space mean the same: a query part with white
/// space between two pieces has the terms of the two pieces given as two
/// parts.
pub proof fn lemma_quoted_white_space_splits_terms(a: Seq<char>, blank: char, b: Seq<char>)
    requires
        unicode_white_space(blank),
    ensures
        terms_of(seq![a.push(blank) + b]) == terms_of(seq![a, b]),
{
    lemma_word_state_after_blank(a, blank);
    lemma_word_state_append(a.push(blank), b);
    let (d, c) = word_state(b);
    assert(words(a.push(blank) + b) == words(a) + words(b)) by {
        if c.len() > 0 {
            assert((words(a) + d).push(c) =~= words(a) + d.push(c));
        }
    }
    lemma_meaningful_append(words(a), words(b));
    assert(seq![a.push(blank) + b].drop_last() =~= Seq::<Seq<char>>::empty());
    assert(seq![a, b].drop_last() =~= seq![a]);
    assert(seq![a].drop_last() =~= Seq::<Seq<char>>::empty());
    assert(terms_of(Seq::<Seq<char>>::empty()) == Seq::<Seq<char>>::empty());
    assert(terms_of(seq![a]) =~= meaningful(words(a)));
    assert(terms_of(seq![a.push(blank) + b]) =~= meaningful(words(a.push(blank) + b)));
}


/// Whether `positions` spell the first `k` query characters in the first
/// `n` candidate characters: `k` increasing positions below `n` whose
/// candidate characters are the query's, in order.
pub open spec fn is_embedding(query: Seq<char>, candidate: Seq<char>, positions: Seq<int>, n: int, k: int) -> bool {
    &&& positions.len() == k
    &&& forall|i: int| 0 <= i < k ==> 0 <= #[trigger] positions[i] < n && n <= candidate.len() && candidate[positions[i]] == query[i]
    &&& forall|i: int, j: int| 0 <= i < j < k ==> #[trigger] positions[i] < #[trigger] positions[j]
}

/// How many of `positions` start a word.
pub open spec fn boundary_hits(boundaries: Seq<usize>, positions: Seq<int>) -> nat
    decreases positions.len(),
{
    if positions.len() == 0 {
        0
    } else {
        boundary_hits(boundaries, positions.drop_last()) + if is_boundary(boundaries, positions.last()) {
            1nat
        } else {
            0nat
        }
    }
}

proof fn lemma_best_hits_sound(query: Seq<char>, candidate: Seq<char>, boundaries: Seq<usize>, n: nat, k: nat)
    requires
        n <= candidate.len(),
        k <= query.len(),
    ensures
        best_boundary_hits(query, candidate, boundaries, n, k) matches Some(h) ==> exists|positions: Seq<int>|
            #[trigger] is_embedding(query, candidate, positions, n as int, k as int) && boundary_hits(boundaries, positions) == h,
    decreases n,
{
    if k == 0 {
        let empty = Seq::<int>::empty();
        assert(is_embedding(query, candidate, empty, n as int, 0));
    } else if n > 0 {
        let skip = best_boundary_hits(query, candidate, boundaries, (n - 1) as nat, k);
        let prior = best_boundary_hits(query, candidate, boundaries, (n - 1) as nat, (k - 1) as nat);
        lemma_best_hits_sound(query, candidate, boundaries, (n - 1) as nat, k);
        lemma_best_hits_sound(query, candidate, boundaries, (n - 1) as nat, (k - 1) as nat);
        let hit: nat = if is_boundary(boundaries, n - 1) { 1 } else { 0 };
        let take = if candidate[n - 1] == query[k - 1] {
            match prior {
                Some(h) => Some(h + hit),
                None => None,
            }
        } else {
            None
        };
        match best_boundary_hits(query, candidate, boundaries, n, k) {
            Some(h) => {
                if skip == Some(h) {
                    let positions = choose|positions: Seq<int>|
                        #[trigger] is_embedding(query, candidate, positions, (n - 1) as int, k as int)
                            && boundary_hits(boundaries, positions) == h;
                    assert(is_embedding(query, candidate, positions, n as int, k as int));
                } else {
                    assert(take == Some(h));
                    let h0 = prior.unwrap();
                    let earlier = choose|positions: Seq<int>|
                        #[trigger] is_embedding(query, candidate, positions, (n - 1) as int, (k - 1) as int)
                            && boundary_hits(boundaries, positions) == h0;
                    let positions = earlier.push(n - 1);
                    assert(positions.drop_last() =~= earlier);
                    assert(is_embedding(query, candidate, positions, n as int, k as int)) by {
                        assert forall|i: int| 0 <= i < k implies 0 <= #[trigger] positions[i] < n && n <= candidate.len()
                            && candidate[positions[i]] == query[i] by {
                            if i < k - 1 {
                                assert(positions[i] == earlier[i]);
                            }
                        }
                        assert forall|i: int, j: int| 0 <= i < j < k implies #[trigger] positions[i] < #[trigger] positions[j] by {
                            if j < k - 1 {
                                assert(positions[i] == earlier[i] && positions[j] == earlier[j]);
                            } else {
                                assert(positions[i] == earlier[i]);
                            }
                        }
                    }
                    assert(boundary_hits(boundaries, positions) == h0 + hit);
                }
            },
            None => {},
        }
    }
}

proof fn lemma_best_hits_optimal(
    query: Seq<char>,
    candidate: Seq<char>,
    boundaries: Seq<usize>,
    n: nat,
    k: nat,
    positions: Seq<int>,
)
    requires
        n <= candidate.len(),
        k <= query.len(),
        is_embedding(query, candidate, positions, n as int, k as int),
    ensures
        best_boundary_hits(query, candidate, boundaries, n, k) matches Some(h) && h >= boundary_hits(boundaries, positions),
    decreases n,
{
    if k == 0 {
        assert(positions.len() == 0);
    } else {
        assert(0 <= positions[0] < n);
        let last = positions[k - 1];
        if last < n - 1 {
            assert(is_embedding(query, candidate, positions, n - 1, k as int)) by {
                assert forall|i: int| 0 <= i < k implies 0 <= #[trigger] positions[i] < n - 1 && n - 1 <= candidate.len()
                    && candidate[positions[i]] == query[i] by {
                    if i < k - 1 {
                        assert(positions[i] < positions[k - 1]);
                    }
                }
            }
            lemma_best_hits_optimal(query, candidate, boundaries, (n - 1) as nat, k, positions);
        } else {
            let earlier = positions.drop_last();
            assert(is_embedding(query, candidate, earlier, n - 1, k - 1)) by {
                assert forall|i: int| 0 <= i < k - 1 implies 0 <= #[trigger] earlier[i] < n - 1 && n - 1 <= candidate.len()
                    && candidate[earlier[i]] == query[i] by {
                    assert(earlier[i] == positions[i]);
                    assert(positions[i] < positions[k - 1]);
                }
                assert forall|i: int, j: int| 0 <= i < j < k - 1 implies #[trigger] earlier[i] < #[trigger] earlier[j] by {
                    assert(earlier[i] == positions[i] && earlier[j] == positions[j]);
                }
            }
            lemma_best_hits_optimal(query, candidate, boundaries, (n - 1) as nat, (k - 1) as nat, earlier);
            assert(candidate[n - 1] == query[k - 1]);
        }
    }
}

/// The abbreviation tier means what it says: the query is an abbreviation
/// of the candidate exactly when the query's characters occur in the
/// candidate in order with at least two of them at word starts.
pub proof fn lemma_abbreviation_is_an_embedding(query: Seq<char>, candidate: Seq<char>, boundaries: Seq<usize>)
    ensures
        boundary_abbreviation(query, candidate, boundaries) <==> exists|positions: Seq<int>|
            #[trigger] is_embedding(query, candidate, positions, candidate.len() as int, query.len() as int)
                && boundary_hits(boundaries, positions) >= 2,
{
    lemma_best_hits_sound(query, candidate, boundaries, candidate.len(), query.len());
    if exists|positions: Seq<int>|
        #[trigger] is_embedding(query, candidate, positions, candidate.len() as int, query.len() as int)
            && boundary_hits(boundaries, positions) >= 2 {
        let positions = choose|positions: Seq<int>|
            #[trigger] is_embedding(query, candidate, positions, candidate.len() as int, query.len() as int)
                && boundary_hits(boundaries, positions) >= 2;
        lemma_best_hits_optimal(query, candidate, boundaries, candidate.len(), query.len(), positions);
    }
}

} // verus!
