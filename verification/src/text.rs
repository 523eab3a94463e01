//! Character classification and the string building blocks the rest of the
//! library is written with. Strings are modelled by their `Seq<char>` view.
use vstd::prelude::*;
use vstd::utf8::*;

verus! {

// ---------------------------------------------------------------------------
// Unicode character properties, as std computes them from its Unicode tables.
// ---------------------------------------------------------------------------

/// Whether std classifies `c` as alphanumeric (Unicode Alphabetic or Numeric).
pub uninterp spec fn unicode_alphanumeric(c: char) -> bool;

/// Whether std classifies `c` as alphabetic (Unicode Alphabetic).
pub uninterp spec fn unicode_alphabetic(c: char) -> bool;

/// Whether std classifies `c` as lower case (Unicode Lowercase).
pub uninterp spec fn unicode_lowercase(c: char) -> bool;

/// Whether std classifies `c` as upper case (Unicode Uppercase).
pub uninterp spec fn unicode_uppercase(c: char) -> bool;

/// Whether std classifies `c` as white space (Unicode White_Space).
pub uninterp spec fn unicode_white_space(c: char) -> bool;

/// The characters std's `char::to_lowercase` yields for `c`.
pub uninterp spec fn unicode_lowercase_mapping(c: char) -> Seq<char>;

pub open spec fn is_ascii_upper(c: char) -> bool {
    'A' <= c && c <= 'Z'
}

pub open spec fn is_ascii_lower(c: char) -> bool {
    'a' <= c && c <= 'z'
}

pub open spec fn is_ascii_digit(c: char) -> bool {
    '0' <= c && c <= '9'
}

pub open spec fn is_ascii_alnum(c: char) -> bool {
    is_ascii_upper(c) || is_ascii_lower(c) || is_ascii_digit(c)
}

pub open spec fn is_ascii_white_space(c: char) -> bool {
    c == ' ' || c == '\t' || c == '\n' || c == '\r' || c == '\x0B' || c == '\x0C'
}

/// Maps an ASCII upper-case letter to its lower-case letter, and leaves every
/// other character unchanged.
pub open spec fn ascii_lower_char(c: char) -> char {
    if is_ascii_upper(c) {
        ((c as u32) + 32) as char
    } else {
        c
    }
}

/// `char::is_alphanumeric`: Unicode Alphabetic or Numeric; on ASCII the
/// letters and the decimal digits.
#[verifier::external_body]
pub(crate) fn char_is_alphanumeric(c: char) -> (b: bool)
    ensures
        b == unicode_alphanumeric(c),
        (c as u32) < 128 ==> (b <==> is_ascii_alnum(c)),
{
    c.is_alphanumeric()
}

/// `char::is_alphabetic`: Unicode Alphabetic; on ASCII the letters.
#[verifier::external_body]
pub(crate) fn char_is_alphabetic(c: char) -> (b: bool)
    ensures
        b == unicode_alphabetic(c),
        (c as u32) < 128 ==> (b <==> (is_ascii_upper(c) || is_ascii_lower(c))),
{
    c.is_alphabetic()
}

/// `char::is_lowercase`: Unicode Lowercase; on ASCII `a` to `z`.
#[verifier::external_body]
pub(crate) fn char_is_lowercase(c: char) -> (b: bool)
    ensures
        b == unicode_lowercase(c),
        (c as u32) < 128 ==> (b <==> is_ascii_lower(c)),
{
    c.is_lowercase()
}

/// `char::is_uppercase`: Unicode Uppercase; on ASCII `A` to `Z`.
#[verifier::external_body]
pub(crate) fn char_is_uppercase(c: char) -> (b: bool)
    ensures
        b == unicode_uppercase(c),
        (c as u32) < 128 ==> (b <==> is_ascii_upper(c)),
{
    c.is_uppercase()
}

/// `char::is_whitespace`: Unicode White_Space; on ASCII the space, tab, line
/// feed, vertical tab, form feed and carriage return.
#[verifier::external_body]
pub(crate) fn char_is_whitespace(c: char) -> (b: bool)
    ensures
        b == unicode_white_space(c),
        (c as u32) < 128 ==> (b <==> is_ascii_white_space(c)),
{
    c.is_whitespace()
}

/// `char::to_lowercase`, collected: the Unicode lower-case mapping of `c`;
/// on ASCII a single character, the letter lowered.
#[verifier::external_body]
pub(crate) fn char_to_lowercase(c: char) -> (lowered: Vec<char>)
    ensures
        lowered@ == unicode_lowercase_mapping(c),
        (c as u32) < 128 ==> lowered@ == seq![ascii_lower_char(c)],
{
    c.to_lowercase().collect()
}

// ---------------------------------------------------------------------------
// Conversions between strings, characters and bytes.
// ---------------------------------------------------------------------------

/// `str::chars`, collected into a vector.
#[verifier::external_body]
pub(crate) fn chars_of(s: &str) -> (chars: Vec<char>)
    ensures
        chars@ == s@,
{
    s.chars().collect()
}

/// `String: FromIterator<char>`: the string of the given characters.
#[verifier::external_body]
pub(crate) fn string_from_chars(chars: &[char]) -> (s: String)
    ensures
        s@ == chars@,
{
    chars.iter().collect()
}

/// `std::str::from_utf8`: the decoded text when `bytes` is valid UTF-8.
#[verifier::external_body]
pub(crate) fn utf8_text(bytes: &[u8]) -> (text: Option<String>)
    ensures
        text is Some <==> valid_utf8(bytes@),
        text matches Some(t) ==> t@ == decode_utf8(bytes@),
{
    std::str::from_utf8(bytes).ok().map(str::to_owned)
}

// ---------------------------------------------------------------------------
// Pure string functions.
// ---------------------------------------------------------------------------

pub open spec fn ascii_lowercase(s: Seq<char>) -> Seq<char> {
    s.map_values(|c: char| ascii_lower_char(c))
}

pub fn ascii_lower(c: char) -> (r: char)
    ensures
        r == ascii_lower_char(c),
{
    if 'A' <= c && c <= 'Z' {
        let v = (c as u32) + 32;
        let b = v as u8;
        assert(b as u32 == v);
        b as char
    } else {
        c
    }
}


/// The characters of `s` from `from` up to, but not including, `to`.
pub fn sub_chars(s: &[char], from: usize, to: usize) -> (r: Vec<char>)
    requires
        from <= to <= s@.len(),
    ensures
        r@ == s@.subrange(from as int, to as int),
{
    let mut r: Vec<char> = Vec::new();
    let mut i = from;
    while i < to
        invariant
            from <= i <= to <= s@.len(),
            r@ == s@.subrange(from as int, i as int),
        decreases to - i,
    {
        r.push(s[i]);
        i += 1;
    }
    r
}

/// A copy of `s`.
pub fn copy_chars(s: &[char]) -> (r: Vec<char>)
    ensures
        r@ == s@,
{
    let r = sub_chars(s, 0, s.len());
    assert(s@.subrange(0, s@.len() as int) =~= s@);
    r
}

/// `s` with every ASCII upper-case letter lowered, as `str::to_ascii_lowercase`.
pub fn to_ascii_lowercase(s: &[char]) -> (r: Vec<char>)
    ensures
        r@ == ascii_lowercase(s@),
{
    let mut r: Vec<char> = Vec::new();
    let mut i: usize = 0;
    while i < s.len()
        invariant
            i <= s@.len(),
            r@ == ascii_lowercase(s@.subrange(0, i as int)),
        decreases s@.len() - i,
    {
        r.push(ascii_lower(s[i]));
        i += 1;
        assert(ascii_lowercase(s@.subrange(0, i as int)) =~= ascii_lowercase(s@.subrange(0, i - 1)).push(ascii_lower_char(s@[i - 1])));
    }
    assert(s@.subrange(0, s@.len() as int) =~= s@);
    r
}

/// `s` without its leading white space.
pub open spec fn trim_start(s: Seq<char>) -> Seq<char>
    decreases s.len(),
{
    if s.len() > 0 && unicode_white_space(s[0]) {
        trim_start(s.drop_first())
    } else {
        s
    }
}

/// `s` without its trailing white space.
pub open spec fn trim_end(s: Seq<char>) -> Seq<char>
    decreases s.len(),
{
    if s.len() > 0 && unicode_white_space(s.last()) {
        trim_end(s.drop_last())
    } else {
        s
    }
}

/// `s` without leading and trailing white space, as `str::trim`.
pub open spec fn trim(s: Seq<char>) -> Seq<char> {
    trim_end(trim_start(s))
}

proof fn lemma_trim_start_skip(s: Seq<char>, i: int)
    requires
        0 <= i <= s.len(),
        forall|k: int| 0 <= k < i ==> unicode_white_space(#[trigger] s[k]),
    ensures
        trim_start(s) == trim_start(s.subrange(i, s.len() as int)),
    decreases i,
{
    if i > 0 {
        assert(s.drop_first() =~= s.subrange(1, s.len() as int));
        lemma_trim_start_skip(s.drop_first(), i - 1);
        assert(s.drop_first().subrange(i - 1, s.drop_first().len() as int) =~= s.subrange(i, s.len() as int));
    } else {
        assert(s.subrange(0, s.len() as int) =~= s);
    }
}

proof fn lemma_trim_end_cut(s: Seq<char>, j: int)
    requires
        0 <= j <= s.len(),
        forall|k: int| j <= k < s.len() ==> unicode_white_space(#[trigger] s[k]),
    ensures
        trim_end(s) == trim_end(s.subrange(0, j)),
    decreases s.len() - j,
{
    if j < s.len() {
        assert(s.drop_last() =~= s.subrange(0, s.len() - 1));
        lemma_trim_end_cut(s.drop_last(), j);
        assert(s.drop_last().subrange(0, j) =~= s.subrange(0, j));
    } else {
        assert(s.subrange(0, j) =~= s);
    }
}

proof fn lemma_trim_start_shape(s: Seq<char>)
    ensures
        trim_start(s).len() == 0 || !unicode_white_space(trim_start(s)[0]),
        (exists|k: int| 0 <= k < s.len() && !unicode_white_space(#[trigger] s[k])) ==> trim_start(s).len() > 0,
        (forall|k: int| 0 <= k < s.len() ==> unicode_white_space(#[trigger] s[k])) ==> trim_start(s).len() == 0,
    decreases s.len(),
{
    if s.len() > 0 && unicode_white_space(s[0]) {
        lemma_trim_start_shape(s.drop_first());
        if exists|k: int| 0 <= k < s.len() && !unicode_white_space(#[trigger] s[k]) {
            let k = choose|k: int| 0 <= k < s.len() && !unicode_white_space(#[trigger] s[k]);
            assert(s.drop_first()[k - 1] == s[k]);
        }
        if forall|k: int| 0 <= k < s.len() ==> unicode_white_space(#[trigger] s[k]) {
            assert forall|k: int| 0 <= k < s.drop_first().len() implies unicode_white_space(#[trigger] s.drop_first()[k]) by {
                assert(s.drop_first()[k] == s[k + 1]);
            }
        }
    } else if s.len() > 0 {
        assert(!unicode_white_space(s[0]));
    }
}

proof fn lemma_trim_end_shape(t: Seq<char>)
    requires
        t.len() > 0,
        !unicode_white_space(t[0]),
    ensures
        trim_end(t).len() > 0,
        trim_end(t)[0] == t[0],
        !unicode_white_space(trim_end(t).last()),
    decreases t.len(),
{
    if unicode_white_space(t.last()) {
        assert(t.len() > 1);
        lemma_trim_end_shape(t.drop_last());
    }
}

/// Trimmed text that is not empty begins and ends with a character that is
/// not white space; text with such a character does not trim to nothing, and
/// text of white space alone does.
pub proof fn lemma_trim_shape(s: Seq<char>)
    ensures
        trim(s).len() > 0 ==> !unicode_white_space(trim(s)[0]) && !unicode_white_space(trim(s).last()),
        (exists|k: int| 0 <= k < s.len() && !unicode_white_space(#[trigger] s[k])) ==> trim(s).len() > 0,
        (forall|k: int| 0 <= k < s.len() ==> unicode_white_space(#[trigger] s[k])) ==> trim(s).len() == 0,
{
    lemma_trim_start_shape(s);
    let t = trim_start(s);
    if t.len() > 0 {
        lemma_trim_end_shape(t);
    }
}

/// The bounds of `s` once white space is trimmed from both ends.
pub fn trim_bounds(s: &[char]) -> (bounds: (usize, usize))
    ensures
        bounds.0 <= bounds.1 <= s@.len(),
        s@.subrange(bounds.0 as int, bounds.1 as int) == trim(s@),
{
    let mut i: usize = 0;
    while i < s.len() && char_is_whitespace(s[i])
        invariant
            i <= s@.len(),
            forall|k: int| 0 <= k < i ==> unicode_white_space(#[trigger] s@[k]),
        decreases s@.len() - i,
    {
        i += 1;
    }
    proof {
        lemma_trim_start_skip(s@, i as int);
    }
    let ghost rest = s@.subrange(i as int, s@.len() as int);
    assert(i < s@.len() ==> !unicode_white_space(rest[0]));
    assert(trim_start(rest) == rest);
    let mut j: usize = s.len();
    while j > i && char_is_whitespace(s[j - 1])
        invariant
            i <= j <= s@.len(),
            rest == s@.subrange(i as int, s@.len() as int),
            forall|k: int| j <= k < s@.len() ==> unicode_white_space(#[trigger] s@[k]),
        decreases j - i,
    {
        j -= 1;
    }
    proof {
        assert forall|k: int| (j - i) <= k < rest.len() implies unicode_white_space(#[trigger] rest[k]) by {
            assert(rest[k] == s@[k + i]);
        }
        lemma_trim_end_cut(rest, j - i);
        assert(rest.subrange(0, j - i) =~= s@.subrange(i as int, j as int));
        let t = s@.subrange(i as int, j as int);
        if t.len() > 0 {
            assert(t.last() == s@[j - 1]);
        }
    }
    (i, j)
}

/// `str::trim`, on characters.
pub fn trimmed(s: &[char]) -> (r: Vec<char>)
    ensures
        r@ == trim(s@),
{
    let (i, j) = trim_bounds(s);
    sub_chars(s, i, j)
}

/// Whether `s` begins with `prefix`.
pub open spec fn has_prefix(s: Seq<char>, prefix: Seq<char>) -> bool {
    prefix.len() <= s.len() && s.subrange(0, prefix.len() as int) == prefix
}

/// Whether `s` ends with `suffix`.
pub open spec fn has_suffix(s: Seq<char>, suffix: Seq<char>) -> bool {
    suffix.len() <= s.len() && s.subrange(s.len() - suffix.len(), s.len() as int) == suffix
}

pub fn starts_with(s: &[char], prefix: &[char]) -> (b: bool)
    ensures
        b == has_prefix(s@, prefix@),
{
    if prefix.len() > s.len() {
        return false;
    }
    let mut i: usize = 0;
    while i < prefix.len()
        invariant
            prefix@.len() <= s@.len(),
            i <= prefix@.len(),
            forall|k: int| 0 <= k < i ==> s@[k] == prefix@[k],
        decreases prefix@.len() - i,
    {
        if s[i] != prefix[i] {
            assert(s@.subrange(0, prefix@.len() as int)[i as int] != prefix@[i as int]);
            return false;
        }
        i += 1;
    }
    assert(s@.subrange(0, prefix@.len() as int) =~= prefix@);
    true
}

pub fn ends_with(s: &[char], suffix: &[char]) -> (b: bool)
    ensures
        b == has_suffix(s@, suffix@),
{
    if suffix.len() > s.len() {
        return false;
    }
    let offset = s.len() - suffix.len();
    let mut i: usize = 0;
    while i < suffix.len()
        invariant
            suffix@.len() <= s@.len(),
            offset == s@.len() - suffix@.len(),
            s@.len() == s.len(),
            suffix@.len() == suffix.len(),
            i <= suffix@.len(),
            forall|k: int| 0 <= k < i ==> s@[offset + k] == suffix@[k],
        decreases suffix@.len() - i,
    {
        if s[offset + i] != suffix[i] {
            assert(s@.subrange(offset as int, s@.len() as int)[i as int] != suffix@[i as int]);
            return false;
        }
        i += 1;
    }
    assert(s@.subrange(offset as int, s@.len() as int) =~= suffix@);
    true
}

/// Whether `pattern` occurs in `s` at position `p`.
pub open spec fn occurs_at(s: Seq<char>, pattern: Seq<char>, p: int) -> bool {
    0 <= p && p + pattern.len() <= s.len() && s.subrange(p, p + pattern.len()) == pattern
}

/// The first position at which `pattern` occurs in `s`.
pub open spec fn first_occurrence(s: Seq<char>, pattern: Seq<char>) -> Option<int> {
    if exists|p: int| occurs_at(s, pattern, p) {
        Some(choose|p: int| occurs_at(s, pattern, p) && forall|q: int| 0 <= q < p ==> !occurs_at(s, pattern, q))
    } else {
        None
    }
}

proof fn lemma_first_occurrence(s: Seq<char>, pattern: Seq<char>, p: int)
    requires
        occurs_at(s, pattern, p),
        forall|q: int| 0 <= q < p ==> !occurs_at(s, pattern, q),
    ensures
        first_occurrence(s, pattern) == Some(p),
{
    let c = choose|p: int| occurs_at(s, pattern, p) && forall|q: int| 0 <= q < p ==> !occurs_at(s, pattern, q);
    assert(occurs_at(s, pattern, c) && forall|q: int| 0 <= q < c ==> !occurs_at(s, pattern, q));
    if c < p {
        assert(!occurs_at(s, pattern, c));
    }
    if p < c {
        assert(!occurs_at(s, pattern, p));
    }
}

/// The first position at which `pattern` occurs in `s`, if any.
pub fn find(s: &[char], pattern: &[char]) -> (r: Option<usize>)
    ensures
        r matches Some(p) ==> first_occurrence(s@, pattern@) == Some(p as int),
        r is None ==> first_occurrence(s@, pattern@) is None,
{
    if pattern.len() > s.len() {
        assert forall|p: int| !occurs_at(s@, pattern@, p) by {}
        return None;
    }
    if pattern.len() == 0 {
        assert(s@.subrange(0, 0) =~= pattern@);
        proof {
            lemma_first_occurrence(s@, pattern@, 0);
        }
        return Some(0);
    }
    let last = s.len() - pattern.len();
    let mut p: usize = 0;
    while p <= last
        invariant
            last == s@.len() - pattern@.len(),
            s@.len() == s.len(),
            pattern@.len() == pattern.len(),
            pattern@.len() > 0,
            p <= last + 1,
            forall|q: int| 0 <= q < p ==> !occurs_at(s@, pattern@, q),
        decreases last + 1 - p,
    {
        let mut k: usize = 0;
        let mut matched = true;
        while k < pattern.len()
            invariant
                p <= last,
                last == s@.len() - pattern@.len(),
                s@.len() == s.len(),
                pattern@.len() == pattern.len(),
                k <= pattern@.len(),
                matched ==> forall|j: int| 0 <= j < k ==> s@[p + j] == pattern@[j],
                !matched ==> !occurs_at(s@, pattern@, p as int),
            decreases pattern@.len() - k,
        {
            if s[p + k] != pattern[k] {
                assert(s@.subrange(p as int, p + pattern@.len())[k as int] != pattern@[k as int]);
                matched = false;
            }
            k += 1;
        }
        if matched {
            assert(s@.subrange(p as int, p + pattern@.len()) =~= pattern@);
            proof {
                lemma_first_occurrence(s@, pattern@, p as int);
            }
            return Some(p);
        }
        p += 1;
    }
    assert forall|q: int| !occurs_at(s@, pattern@, q) by {
        if 0 <= q && q < p {
        }
    }
    None
}

/// Whether `pattern` occurs anywhere in `s`.
pub fn contains(s: &[char], pattern: &[char]) -> (b: bool)
    ensures
        b == (exists|p: int| occurs_at(s@, pattern@, p)),
{
    let r = find(s, pattern);
    proof {
        if let Some(p) = r {
            let c = choose|p: int| occurs_at(s@, pattern@, p) && forall|q: int| 0 <= q < p ==> !occurs_at(s@, pattern@, q);
            if !(exists|p: int| occurs_at(s@, pattern@, p)) {
                assert(first_occurrence(s@, pattern@) is None);
            }
        }
    }
    r.is_some()
}


// ---------------------------------------------------------------------------
// Decimal numbers.
// ---------------------------------------------------------------------------

/// The ASCII digit for `d` (`0 <= d < 10`).
pub open spec fn digit_char(d: nat) -> char {
    ((('0' as u32) as nat + d) as u32) as char
}

/// The value of an ASCII digit.
pub open spec fn digit_value(c: char) -> nat {
    ((c as u32) - ('0' as u32)) as nat
}

/// The decimal representation of `n`, without sign or leading zeros.
pub open spec fn decimal(n: nat) -> Seq<char>
    decreases n,
{
    if n < 10 {
        seq![digit_char(n)]
    } else {
        decimal(n / 10).push(digit_char(n % 10))
    }
}

fn digit(d: u128) -> (c: char)
    requires
        d < 10,
    ensures
        c == digit_char(d as nat),
        is_ascii_digit(c),
{
    let b = (d as u8) + 48u8;
    b as char
}

/// The decimal representation of `n`, as `n.to_string()`.
pub fn decimal_chars(n: u128) -> (r: Vec<char>)
    ensures
        r@ == decimal(n as nat),
    decreases n,
{
    if n < 10 {
        let mut r: Vec<char> = Vec::new();
        r.push(digit(n));
        assert(r@ =~= seq![digit_char(n as nat)]);
        r
    } else {
        let mut r = decimal_chars(n / 10);
        r.push(digit(n % 10));
        r
    }
}

proof fn lemma_digit_char(d: nat)
    requires
        d < 10,
    ensures
        is_ascii_digit(digit_char(d)),
        digit_value(digit_char(d)) == d,
        digit_char(d) != '+',
{
    assert(digit_char(d) as u32 == 48 + d);
}

/// The decimal representation of a number reads back as that number.
pub proof fn lemma_decimal_parses(n: nat)
    ensures
        decimal(n).len() > 0,
        all_digits(decimal(n)),
        digits_value(decimal(n)) == n,
        decimal(n)[0] != '+',
        n <= u64::MAX ==> parse_u64(decimal(n)) == Some(n as u64),
    decreases n,
{
    if n < 10 {
        lemma_digit_char(n);
        assert(decimal(n) =~= seq![digit_char(n)]);
        assert(decimal(n).drop_last() =~= Seq::<char>::empty());
        assert(digits_value(Seq::<char>::empty()) == 0);
        assert(digits_value(decimal(n)) == digits_value(decimal(n).drop_last()) * 10 + digit_value(decimal(n).last()));
    } else {
        lemma_decimal_parses(n / 10);
        lemma_digit_char(n % 10);
        let s = decimal(n);
        assert(s.drop_last() =~= decimal(n / 10));
        assert(s[0] == decimal(n / 10)[0]);
        assert(digits_value(s) == digits_value(decimal(n / 10)) * 10 + digit_value(digit_char(n % 10)));
        assert((n / 10) * 10 + n % 10 == n) by (nonlinear_arith);
        assert forall|i: int| 0 <= i < s.len() implies is_ascii_digit(#[trigger] s[i]) by {
            if i < s.len() - 1 {
                assert(s[i] == decimal(n / 10)[i]);
            }
        }
    }
}

/// Whether every character of `s` is an ASCII digit.
pub open spec fn all_digits(s: Seq<char>) -> bool {
    forall|i: int| 0 <= i < s.len() ==> is_ascii_digit(#[trigger] s[i])
}

/// The value of a string of ASCII digits read in base ten.
pub open spec fn digits_value(s: Seq<char>) -> nat
    decreases s.len(),
{
    if s.len() == 0 {
        0
    } else {
        digits_value(s.drop_last()) * 10 + digit_value(s.last())
    }
}

/// What `str::parse::<u64>` accepts: an optional `+`, then one or more ASCII
/// digits whose value fits in a `u64`.
pub open spec fn parse_u64(s: Seq<char>) -> Option<u64> {
    let body = if s.len() > 0 && s[0] == '+' {
        s.drop_first()
    } else {
        s
    };
    if body.len() > 0 && all_digits(body) && digits_value(body) <= u64::MAX {
        Some(digits_value(body) as u64)
    } else {
        None
    }
}

proof fn lemma_digits_value_prefix(s: Seq<char>, i: int)
    requires
        0 <= i <= s.len(),
        all_digits(s),
    ensures
        digits_value(s.subrange(0, i)) <= digits_value(s),
    decreases s.len() - i,
{
    if i < s.len() {
        lemma_digits_value_prefix(s, i + 1);
        assert(s.subrange(0, i + 1).drop_last() =~= s.subrange(0, i));
        assert(is_ascii_digit(s[i]));
    } else {
        assert(s.subrange(0, i) =~= s);
    }
}

/// `str::parse::<u64>`.
pub fn parse_u64_chars(s: &[char]) -> (r: Option<u64>)
    ensures
        r == parse_u64(s@),
{
    let start: usize = if s.len() > 0 && s[0] == '+' { 1 } else { 0 };
    let ghost body = if s@.len() > 0 && s@[0] == '+' { s@.drop_first() } else { s@ };
    assert(body =~= s@.subrange(start as int, s@.len() as int));
    if start == s.len() {
        return None;
    }
    let mut value: u64 = 0;
    let mut i: usize = start;
    while i < s.len()
        invariant
            start <= i <= s@.len(),
            start < s@.len(),
            body == s@.subrange(start as int, s@.len() as int),
            body == (if s@.len() > 0 && s@[0] == '+' { s@.drop_first() } else { s@ }),
            all_digits(body.subrange(0, i - start)),
            value as nat == digits_value(body.subrange(0, i - start)),
        decreases s@.len() - i,
    {
        let c = s[i];
        if !('0' <= c && c <= '9') {
            assert(!is_ascii_digit(body[i - start]));
            assert(!all_digits(body));
            return None;
        }
        let d = (c as u32 - '0' as u32) as u64;
        proof {
            assert(body.subrange(0, i + 1 - start).drop_last() =~= body.subrange(0, i - start));
            assert(body.subrange(0, i + 1 - start).last() == c);
        }
        match value.checked_mul(10) {
            Some(v) => match v.checked_add(d) {
                Some(w) => {
                    value = w;
                },
                None => {
                    proof {
                        self::lemma_overflow(body, (i + 1 - start) as int);
                    }
                    assert(parse_u64_body_rejected(body));
                    return None;
                },
            },
            None => {
                proof {
                    self::lemma_overflow(body, (i + 1 - start) as int);
                }
                return None;
            },
        }
        i += 1;
    }
    assert(body.subrange(0, i - start) =~= body);
    Some(value)
}

proof fn lemma_overflow(body: Seq<char>, n: int)
    requires
        0 < n <= body.len(),
        all_digits(body.subrange(0, n - 1)),
        is_ascii_digit(body[n - 1]),
        digits_value(body.subrange(0, n)) > u64::MAX,
    ensures
        parse_u64_body_rejected(body),
{
    if all_digits(body) {
        lemma_digits_value_prefix(body, n);
    }
    assert(body.len() > 0);
}

pub open spec fn parse_u64_body_rejected(body: Seq<char>) -> bool {
    !(body.len() > 0 && all_digits(body) && digits_value(body) <= u64::MAX)
}


// ---------------------------------------------------------------------------
// Splitting on white space.
// ---------------------------------------------------------------------------

/// The words completed so far and the word in progress after reading `s`.
pub open spec fn word_state(s: Seq<char>) -> (Seq<Seq<char>>, Seq<char>)
    decreases s.len(),
{
    if s.len() == 0 {
        (Seq::empty(), Seq::empty())
    } else {
        let (done, current) = word_state(s.drop_last());
        let c = s.last();
        if unicode_white_space(c) {
            if current.len() > 0 {
                (done.push(current), Seq::empty())
            } else {
                (done, current)
            }
        } else {
            (done, current.push(c))
        }
    }
}

/// The maximal runs of non-white-space characters of `s`, in order, as
/// `str::split_whitespace`.
pub open spec fn words(s: Seq<char>) -> Seq<Seq<char>> {
    let (done, current) = word_state(s);
    if current.len() > 0 {
        done.push(current)
    } else {
        done
    }
}

/// Whether `w` is a word: not empty and free of white space.
pub open spec fn is_word(w: Seq<char>) -> bool {
    w.len() > 0 && forall|k: int| 0 <= k < w.len() ==> !unicode_white_space(#[trigger] w[k])
}

/// Whether `s` holds a character that is not white space.
pub open spec fn has_non_white(s: Seq<char>) -> bool {
    exists|k: int| 0 <= k < s.len() && !unicode_white_space(#[trigger] s[k])
}

proof fn lemma_word_state_shape(s: Seq<char>)
    ensures
        forall|i: int| 0 <= i < word_state(s).0.len() ==> is_word(#[trigger] word_state(s).0[i]),
        forall|k: int| 0 <= k < word_state(s).1.len() ==> !unicode_white_space(#[trigger] word_state(s).1[k]),
        (word_state(s).0.len() > 0 || word_state(s).1.len() > 0) <==> has_non_white(s),
    decreases s.len(),
{
    if s.len() > 0 {
        let prefix = s.drop_last();
        lemma_word_state_shape(prefix);
        let (done, current) = word_state(prefix);
        let c = s.last();
        if has_non_white(prefix) {
            let k = choose|k: int| 0 <= k < prefix.len() && !unicode_white_space(#[trigger] prefix[k]);
            assert(s[k] == prefix[k]);
        }
        if has_non_white(s) {
            let k = choose|k: int| 0 <= k < s.len() && !unicode_white_space(#[trigger] s[k]);
            if k < s.len() - 1 {
                assert(prefix[k] == s[k]);
            }
        }
        if !unicode_white_space(c) {
            assert(!unicode_white_space(s[s.len() - 1]));
            assert forall|k: int| 0 <= k < current.push(c).len() implies !unicode_white_space(#[trigger] current.push(c)[k]) by {
                if k < current.len() {
                    assert(current.push(c)[k] == current[k]);
                }
            }
        } else if current.len() > 0 {
            assert forall|i: int| 0 <= i < done.push(current).len() implies is_word(#[trigger] done.push(current)[i]) by {
                if i < done.len() {
                    assert(done.push(current)[i] == done[i]);
                }
            }
        }
    }
}

/// The words of text are words, and there are some exactly when the text
/// holds a character that is not white space.
pub proof fn lemma_words_shape(s: Seq<char>)
    ensures
        forall|i: int| 0 <= i < words(s).len() ==> is_word(#[trigger] words(s)[i]),
        words(s).len() > 0 <==> has_non_white(s),
{
    lemma_word_state_shape(s);
    let (done, current) = word_state(s);
    if current.len() > 0 {
        assert forall|i: int| 0 <= i < done.push(current).len() implies is_word(#[trigger] done.push(current)[i]) by {
            if i < done.len() {
                assert(done.push(current)[i] == done[i]);
            }
        }
    }
}

proof fn lemma_word_state_of_word(w: Seq<char>)
    requires
        forall|k: int| 0 <= k < w.len() ==> !unicode_white_space(#[trigger] w[k]),
    ensures
        word_state(w) == (Seq::<Seq<char>>::empty(), w),
    decreases w.len(),
{
    if w.len() > 0 {
        assert forall|k: int| 0 <= k < w.drop_last().len() implies !unicode_white_space(#[trigger] w.drop_last()[k]) by {
            assert(w.drop_last()[k] == w[k]);
        }
        lemma_word_state_of_word(w.drop_last());
        assert(!unicode_white_space(w[w.len() - 1]));
        assert(w.drop_last().push(w.last()) =~= w);
    } else {
        assert(w =~= Seq::<char>::empty());
    }
}

/// A word is its own only word.
pub proof fn lemma_words_of_word(w: Seq<char>)
    requires
        is_word(w),
    ensures
        words(w) == seq![w],
{
    lemma_word_state_of_word(w);
    assert(Seq::<Seq<char>>::empty().push(w) =~= seq![w]);
}

/// The character sequences of a sequence of character vectors.
pub open spec fn views(v: Seq<Vec<char>>) -> Seq<Seq<char>> {
    v.map_values(|w: Vec<char>| w@)
}

/// `str::split_whitespace`, on characters.
pub fn split_whitespace(s: &[char]) -> (r: Vec<Vec<char>>)
    ensures
        views(r@) == words(s@),
{
    let mut done: Vec<Vec<char>> = Vec::new();
    let mut current: Vec<char> = Vec::new();
    let mut i: usize = 0;
    while i < s.len()
        invariant
            i <= s@.len(),
            (views(done@), current@) == word_state(s@.subrange(0, i as int)),
        decreases s@.len() - i,
    {
        let c = s[i];
        proof {
            assert(s@.subrange(0, i + 1).drop_last() =~= s@.subrange(0, i as int));
        }
        let ghost old_done = views(done@);
        if char_is_whitespace(c) {
            if current.len() > 0 {
                let word = current;
                current = Vec::new();
                done.push(word);
                assert(views(done@) =~= old_done.push(word@));
            }
        } else {
            current.push(c);
        }
        i += 1;
        assert(current@ =~= word_state(s@.subrange(0, i as int)).1);
    }
    assert(s@.subrange(0, i as int) =~= s@);
    if current.len() > 0 {
        let ghost old_done = views(done@);
        done.push(current);
        assert(views(done@) =~= old_done.push(words(s@).last()));
    }
    done
}

/// Whether the characters of `a` are those of `b`.
pub fn chars_equal(a: &[char], b: &str) -> (r: bool)
    ensures
        r == (a@ == b@),
{
    let bc = chars_of(b);
    if a.len() != bc.len() {
        return false;
    }
    let mut i: usize = 0;
    while i < a.len()
        invariant
            bc@ == b@,
            a@.len() == b@.len(),
            i <= a@.len(),
            forall|k: int| 0 <= k < i ==> a@[k] == b@[k],
        decreases a@.len() - i,
    {
        if a[i] != bc[i] {
            return false;
        }
        i += 1;
    }
    assert(a@ =~= b@);
    true
}


// ---------------------------------------------------------------------------
// Building and splitting character sequences.
// ---------------------------------------------------------------------------

/// Appends `s` to `v`.
pub fn append_chars(v: &mut Vec<char>, s: &[char])
    ensures
        final(v)@ == old(v)@ + s@,
{
    let ghost start = v@;
    let mut i: usize = 0;
    while i < s.len()
        invariant
            i <= s@.len(),
            v@ == start + s@.subrange(0, i as int),
        decreases s@.len() - i,
    {
        v.push(s[i]);
        i += 1;
        assert(v@ =~= start + s@.subrange(0, i as int));
    }
    assert(s@.subrange(0, i as int) =~= s@);
}

/// Appends the characters of `s` to `v`.
pub fn append_str(v: &mut Vec<char>, s: &str)
    ensures
        final(v)@ == old(v)@ + s@,
{
    let chars = chars_of(s);
    append_chars(v, &chars);
}

/// The pieces completed so far and the piece in progress after reading `s`,
/// where `sep` separates pieces.
pub open spec fn split_state(s: Seq<char>, sep: char) -> (Seq<Seq<char>>, Seq<char>)
    decreases s.len(),
{
    if s.len() == 0 {
        (Seq::empty(), Seq::empty())
    } else {
        let (done, current) = split_state(s.drop_last(), sep);
        if s.last() == sep {
            (done.push(current), Seq::empty())
        } else {
            (done, current.push(s.last()))
        }
    }
}

/// The pieces of `s` between occurrences of `sep`, empty pieces included, as
/// `str::split`.
pub open spec fn split_on(s: Seq<char>, sep: char) -> Seq<Seq<char>> {
    let (done, current) = split_state(s, sep);
    done.push(current)
}

/// `str::split` on one character.
pub fn split_chars(s: &[char], sep: char) -> (r: Vec<Vec<char>>)
    ensures
        views(r@) == split_on(s@, sep),
{
    let mut done: Vec<Vec<char>> = Vec::new();
    let mut current: Vec<char> = Vec::new();
    let mut i: usize = 0;
    while i < s.len()
        invariant
            i <= s@.len(),
            (views(done@), current@) == split_state(s@.subrange(0, i as int), sep),
        decreases s@.len() - i,
    {
        proof {
            assert(s@.subrange(0, i + 1).drop_last() =~= s@.subrange(0, i as int));
        }
        let ghost old_done = views(done@);
        if s[i] == sep {
            let piece = current;
            current = Vec::new();
            done.push(piece);
            assert(views(done@) =~= old_done.push(piece@));
        } else {
            current.push(s[i]);
        }
        i += 1;
        assert(current@ =~= split_state(s@.subrange(0, i as int), sep).1);
    }
    assert(s@.subrange(0, i as int) =~= s@);
    let ghost old_done = views(done@);
    done.push(current);
    assert(views(done@) =~= old_done.push(split_state(s@, sep).1));
    done
}

/// The pieces joined with `sep` between neighbours, as `[T]::join`.
pub open spec fn join_with(parts: Seq<Seq<char>>, sep: Seq<char>) -> Seq<char>
    decreases parts.len(),
{
    if parts.len() == 0 {
        Seq::empty()
    } else if parts.len() == 1 {
        parts[0]
    } else {
        join_with(parts.drop_last(), sep) + sep + parts.last()
    }
}

/// `s` without `prefix`, when it begins with it, as `str::strip_prefix`.
pub open spec fn strip_prefix(s: Seq<char>, prefix: Seq<char>) -> Option<Seq<char>> {
    if has_prefix(s, prefix) {
        Some(s.subrange(prefix.len() as int, s.len() as int))
    } else {
        None
    }
}

pub fn strip_prefix_chars(s: &[char], prefix: &str) -> (r: Option<Vec<char>>)
    ensures
        r matches Some(rest) ==> strip_prefix(s@, prefix@) == Some(rest@),
        r is None ==> strip_prefix(s@, prefix@) is None,
{
    let p = chars_of(prefix);
    if starts_with(s, &p) {
        Some(sub_chars(s, p.len(), s.len()))
    } else {
        None
    }
}


/// Whether `pattern` occurs somewhere in `s`, as `str::contains`.
pub open spec fn has_substring(s: Seq<char>, pattern: Seq<char>) -> bool {
    exists|p: int| occurs_at(s, pattern, p)
}

/// The text before and after the first `sep` in `s`, as `str::split_once`.
pub open spec fn split_once(s: Seq<char>, sep: char) -> Option<(Seq<char>, Seq<char>)> {
    if exists|i: int| 0 <= i < s.len() && s[i] == sep {
        let i = choose|i: int| 0 <= i < s.len() && s[i] == sep && forall|j: int| 0 <= j < i ==> s[j] != sep;
        Some((s.subrange(0, i), s.subrange(i + 1, s.len() as int)))
    } else {
        None
    }
}

pub fn split_once_chars(s: &[char], sep: char) -> (r: Option<(Vec<char>, Vec<char>)>)
    ensures
        r matches Some((a, b)) ==> split_once(s@, sep) == Some((a@, b@)),
        r is None ==> split_once(s@, sep) is None,
{
    let mut i: usize = 0;
    while i < s.len() && s[i] != sep
        invariant
            i <= s@.len(),
            forall|j: int| 0 <= j < i ==> s@[j] != sep,
        decreases s@.len() - i,
    {
        i += 1;
    }
    if i == s.len() {
        return None;
    }
    proof {
        let c = choose|k: int| 0 <= k < s@.len() && s@[k] == sep && forall|j: int| 0 <= j < k ==> s@[j] != sep;
        if c < i {
            assert(s@[c] == sep);
        }
        if c > i {
            assert(s@[i as int] == sep);
        }
    }
    Some((sub_chars(s, 0, i), sub_chars(s, i + 1, s.len())))
}

/// `s` without every leading and trailing `c`, as `str::trim_matches`.
pub open spec fn trim_char(s: Seq<char>, c: char) -> Seq<char>
    decreases s.len(),
{
    if s.len() > 0 && s[0] == c {
        trim_char(s.drop_first(), c)
    } else if s.len() > 0 && s.last() == c {
        trim_char(s.drop_last(), c)
    } else {
        s
    }
}

pub fn trim_char_chars(s: &[char], c: char) -> (r: Vec<char>)
    ensures
        r@ == trim_char(s@, c),
{
    let mut i: usize = 0;
    let mut j: usize = s.len();
    assert(s@.subrange(0, s@.len() as int) =~= s@);
    while i < j && (s[i] == c || s[j - 1] == c)
        invariant
            i <= j <= s@.len(),
            trim_char(s@, c) == trim_char(s@.subrange(i as int, j as int), c),
        decreases j - i,
    {
        let ghost t = s@.subrange(i as int, j as int);
        if s[i] == c {
            assert(t.drop_first() =~= s@.subrange(i + 1, j as int));
            i += 1;
        } else {
            assert(t.drop_last() =~= s@.subrange(i as int, j - 1));
            j -= 1;
        }
    }
    proof {
        if i == 0 && j == s@.len() {
            assert(s@.subrange(0, s@.len() as int) =~= s@);
        }
    }
    sub_chars(s, i, j)
}

/// `s` without every trailing repetition of `suffix`, as
/// `str::trim_end_matches`.
pub open spec fn trim_suffix(s: Seq<char>, suffix: Seq<char>) -> Seq<char>
    decreases s.len(),
{
    if suffix.len() > 0 && has_suffix(s, suffix) {
        trim_suffix(s.subrange(0, s.len() - suffix.len()), suffix)
    } else {
        s
    }
}

pub fn trim_suffix_chars(s: &[char], suffix: &str) -> (r: Vec<char>)
    ensures
        r@ == trim_suffix(s@, suffix@),
{
    let suffix_chars = chars_of(suffix);
    let mut current = copy_chars(s);
    if suffix_chars.len() == 0 {
        return current;
    }
    while ends_with(&current, &suffix_chars)
        invariant
            suffix_chars@ == suffix@,
            suffix@.len() > 0,
            trim_suffix(s@, suffix@) == trim_suffix(current@, suffix@),
        decreases current@.len(),
    {
        let n = current.len() - suffix_chars.len();
        current = sub_chars(&current, 0, n);
    }
    current
}

} // verus!
