//! Unix paths as text: their components, file names, extensions, parents,
//! joining, and the component-wise order that `std::path::Path` uses.
//!
//! A component is represented by its text: `/` for the root directory, `.`
//! for a leading current-directory marker, `..` for a parent-directory
//! marker, and the name itself otherwise (a name is never empty, never `.` or
//! `..`, and never holds a `/`).
use vstd::prelude::*;
use crate::text::copy_chars;

verus! {

/// The names completed so far and the name in progress after reading `s`,
/// where `/` separates names and empty names and `.` are dropped.
pub open spec fn name_state(s: Seq<char>) -> (Seq<Seq<char>>, Seq<char>)
    decreases s.len(),
{
    if s.len() == 0 {
        (Seq::empty(), Seq::empty())
    } else {
        let (done, current) = name_state(s.drop_last());
        let c = s.last();
        if c == '/' {
            if is_kept_name(current) {
                (done.push(current), Seq::empty())
            } else {
                (done, Seq::empty())
            }
        } else {
            (done, current.push(c))
        }
    }
}

/// Whether a piece between separators is a component of its own.
pub open spec fn is_kept_name(name: Seq<char>) -> bool {
    name.len() > 0 && name != seq!['.']
}

/// The names of `s` between separators, without empty names and `.`.
pub open spec fn names(s: Seq<char>) -> Seq<Seq<char>> {
    let (done, current) = name_state(s);
    if is_kept_name(current) {
        done.push(current)
    } else {
        done
    }
}

pub open spec fn has_root(s: Seq<char>) -> bool {
    s.len() > 0 && s[0] == '/'
}

/// A relative path that begins with `.` as a name of its own keeps that
/// current-directory marker as its first component.
pub open spec fn leading_cur_dir(s: Seq<char>) -> bool {
    s.len() > 0 && s[0] == '.' && (s.len() == 1 || s[1] == '/')
}

pub open spec fn root_text() -> Seq<char> {
    seq!['/']
}

pub open spec fn cur_dir_text() -> Seq<char> {
    seq!['.']
}

pub open spec fn parent_dir_text() -> Seq<char> {
    seq!['.', '.']
}

/// The components of `s`, as `Path::components`.
pub open spec fn components(s: Seq<char>) -> Seq<Seq<char>> {
    if has_root(s) {
        seq![root_text()] + names(s)
    } else if leading_cur_dir(s) {
        seq![cur_dir_text()] + names(s)
    } else {
        names(s)
    }
}

/// Whether a component is a name (not the root, `.` or `..`).
pub open spec fn is_normal(component: Seq<char>) -> bool {
    component != root_text() && component != cur_dir_text() && component != parent_dir_text()
}

/// The last component of `s` when it is a name, as `Path::file_name`.
pub open spec fn file_name(s: Seq<char>) -> Option<Seq<char>> {
    let c = components(s);
    if c.len() > 0 && is_normal(c.last()) {
        Some(c.last())
    } else {
        None
    }
}

/// The position of the last `.` in `name`.
pub open spec fn last_dot(name: Seq<char>) -> Option<int> {
    if exists|i: int| 0 <= i < name.len() && name[i] == '.' {
        Some(choose|i: int| 0 <= i < name.len() && name[i] == '.' && forall|j: int| i < j < name.len() ==> name[j] != '.')
    } else {
        None
    }
}

/// The text after the last `.` of a file name, unless the only `.` starts
/// the name, as `Path::extension`.
pub open spec fn extension(s: Seq<char>) -> Option<Seq<char>> {
    match file_name(s) {
        Some(name) => match last_dot(name) {
            Some(i) => if i == 0 {
                None
            } else {
                Some(name.subrange(i + 1, name.len() as int))
            },
            None => None,
        },
        None => None,
    }
}

/// The components of the parent of a path with components `c`, as
/// `Path::parent`: every component but the last, unless the last is the root.
pub open spec fn parent_components(c: Seq<Seq<char>>) -> Option<Seq<Seq<char>>> {
    if c.len() > 0 && c.last() != root_text() {
        Some(c.drop_last())
    } else {
        None
    }
}

/// The text of `base` joined with `rest`, as `Path::join`: an absolute `rest`
/// replaces `base`; otherwise a separator is added where `base` lacks one.
pub open spec fn join(base: Seq<char>, rest: Seq<char>) -> Seq<char> {
    if has_root(rest) {
        rest
    } else if base.len() > 0 && base.last() != '/' {
        base + seq!['/'] + rest
    } else {
        base + rest
    }
}

proof fn lemma_name_state_without_separator(s: Seq<char>)
    requires
        forall|k: int| 0 <= k < s.len() ==> s[k] != '/',
    ensures
        name_state(s) == (Seq::<Seq<char>>::empty(), s),
    decreases s.len(),
{
    if s.len() > 0 {
        lemma_name_state_without_separator(s.drop_last());
        assert(s.drop_last().push(s.last()) =~= s);
    }
}

/// A relative path without separators, other than `.` and `..`, is a file
/// name of its own.
pub proof fn lemma_file_name_of_a_name(s: Seq<char>)
    requires
        s.len() > 0,
        s[0] != '.',
        forall|k: int| 0 <= k < s.len() ==> s[k] != '/',
    ensures
        components(s) == seq![s],
        file_name(s) == Some(s),
{
    lemma_name_state_without_separator(s);
    assert(s != seq!['.']);
    assert(Seq::<Seq<char>>::empty().push(s) =~= seq![s]);
    assert(s != root_text() && s != cur_dir_text() && s != parent_dir_text());
}

// ---------------------------------------------------------------------------
// Executable counterparts.
// ---------------------------------------------------------------------------

/// The view of a vector of character vectors.
pub open spec fn texts(v: Seq<Vec<char>>) -> Seq<Seq<char>> {
    v.map_values(|w: Vec<char>| w@)
}

fn is_kept(name: &Vec<char>) -> (b: bool)
    ensures
        b == is_kept_name(name@),
{
    if name.len() == 0 {
        false
    } else if name.len() == 1 && name[0] == '.' {
        assert(name@ =~= seq!['.']);
        false
    } else {
        assert(name@.len() != 1 ==> name@ != seq!['.']);
        assert(name@.len() == 1 ==> name@[0] != seq!['.'][0]);
        true
    }
}

fn names_of(s: &[char]) -> (r: Vec<Vec<char>>)
    ensures
        texts(r@) == names(s@),
{
    let mut done: Vec<Vec<char>> = Vec::new();
    let mut current: Vec<char> = Vec::new();
    let mut i: usize = 0;
    while i < s.len()
        invariant
            i <= s@.len(),
            (texts(done@), current@) == name_state(s@.subrange(0, i as int)),
        decreases s@.len() - i,
    {
        let c = s[i];
        proof {
            assert(s@.subrange(0, i + 1).drop_last() =~= s@.subrange(0, i as int));
        }
        let ghost old_done = texts(done@);
        if c == '/' {
            if is_kept(&current) {
                let name = current;
                current = Vec::new();
                done.push(name);
                assert(texts(done@) =~= old_done.push(name@));
            } else {
                current = Vec::new();
            }
        } else {
            current.push(c);
        }
        i += 1;
        assert(current@ =~= name_state(s@.subrange(0, i as int)).1);
    }
    assert(s@.subrange(0, i as int) =~= s@);
    if is_kept(&current) {
        let ghost old_done = texts(done@);
        done.push(current);
        assert(texts(done@) =~= old_done.push(names(s@).last()));
    }
    done
}

/// `Path::components`, each component as its text.
pub fn components_of(s: &[char]) -> (r: Vec<Vec<char>>)
    ensures
        texts(r@) == components(s@),
{
    let rest = names_of(s);
    let mut r: Vec<Vec<char>> = Vec::new();
    if s.len() > 0 && s[0] == '/' {
        let mut root: Vec<char> = Vec::new();
        root.push('/');
        assert(root@ =~= root_text());
        r.push(root);
    } else if s.len() > 0 && s[0] == '.' && (s.len() == 1 || s[1] == '/') {
        let mut cur: Vec<char> = Vec::new();
        cur.push('.');
        assert(cur@ =~= cur_dir_text());
        r.push(cur);
    }
    let ghost head = texts(r@);
    assert(head =~= (if has_root(s@) {
        seq![root_text()]
    } else if leading_cur_dir(s@) {
        seq![cur_dir_text()]
    } else {
        Seq::<Seq<char>>::empty()
    }));
    let mut i: usize = 0;
    while i < rest.len()
        invariant
            i <= rest@.len(),
            texts(r@) == head + texts(rest@).subrange(0, i as int),
        decreases rest@.len() - i,
    {
        let ghost before = r@;
        r.push(copy_chars(&rest[i]));
        assert(texts(r@) =~= texts(before).push(texts(rest@)[i as int]));
        assert(texts(rest@).subrange(0, i + 1) =~= texts(rest@).subrange(0, i as int).push(texts(rest@)[i as int]));
        i += 1;
        assert(texts(r@) =~= head + texts(rest@).subrange(0, i as int));
    }
    assert(texts(rest@).subrange(0, i as int) =~= texts(rest@));
    assert(texts(r@) =~= components(s@));
    r
}

/// Whether a component is a name (not the root, `.` or `..`).
pub fn component_is_normal(component: &Vec<char>) -> (b: bool)
    ensures
        b == is_normal(component@),
{
    let n = component.len();
    if n == 1 && (component[0] == '/' || component[0] == '.') {
        assert(component@ =~= root_text() || component@ =~= cur_dir_text());
        false
    } else if n == 2 && component[0] == '.' && component[1] == '.' {
        assert(component@ =~= parent_dir_text());
        false
    } else {
        assert(component@.len() == 1 ==> component@[0] != root_text()[0] && component@[0] != cur_dir_text()[0]);
        assert(component@.len() == 2 ==> component@[0] != parent_dir_text()[0] || component@[1] != parent_dir_text()[1]);
        true
    }
}

/// `Path::file_name`.
pub fn file_name_of(s: &[char]) -> (r: Option<Vec<char>>)
    ensures
        r matches Some(n) ==> file_name(s@) == Some(n@),
        r is None ==> file_name(s@) is None,
{
    let c = components_of(s);
    if c.len() > 0 && component_is_normal(&c[c.len() - 1]) {
        Some(copy_chars(&c[c.len() - 1]))
    } else {
        None
    }
}

/// `Path::extension`.
pub fn extension_of(s: &[char]) -> (r: Option<Vec<char>>)
    ensures
        r matches Some(e) ==> extension(s@) == Some(e@),
        r is None ==> extension(s@) is None,
{
    let name = match file_name_of(s) {
        Some(name) => name,
        None => return None,
    };
    let mut i = name.len();
    while i > 0 && name[i - 1] != '.'
        invariant
            i <= name@.len(),
            forall|j: int| i <= j < name@.len() ==> name@[j] != '.',
        decreases i,
    {
        i -= 1;
    }
    if i == 0 {
        assert(!exists|k: int| 0 <= k < name@.len() && name@[k] == '.');
        return None;
    }
    let dot = i - 1;
    proof {
        let c = choose|k: int| 0 <= k < name@.len() && name@[k] == '.' && forall|j: int| k < j < name@.len() ==> name@[j] != '.';
        if c < dot {
            assert(name@[dot as int] == '.');
        }
        if c > dot {
            assert(name@[c] == '.');
        }
        assert(last_dot(name@) == Some(dot as int));
    }
    if dot == 0 {
        return None;
    }
    let mut e: Vec<char> = Vec::new();
    let mut k = i;
    while k < name.len()
        invariant
            i <= k <= name@.len(),
            e@ == name@.subrange(i as int, k as int),
        decreases name@.len() - k,
    {
        e.push(name[k]);
        k += 1;
    }
    Some(e)
}

/// `Path::join`, on text.
pub fn join_of(base: &[char], rest: &[char]) -> (r: Vec<char>)
    ensures
        r@ == join(base@, rest@),
{
    let mut r: Vec<char> = Vec::new();
    if !(rest.len() > 0 && rest[0] == '/') {
        let mut i: usize = 0;
        while i < base.len()
            invariant
                i <= base@.len(),
                r@ == base@.subrange(0, i as int),
            decreases base@.len() - i,
        {
            r.push(base[i]);
            i += 1;
        }
        assert(base@.subrange(0, i as int) =~= base@);
        if base.len() > 0 && base[base.len() - 1] != '/' {
            r.push('/');
        }
    }
    let ghost head = r@;
    let mut j: usize = 0;
    while j < rest.len()
        invariant
            j <= rest@.len(),
            r@ == head + rest@.subrange(0, j as int),
        decreases rest@.len() - j,
    {
        r.push(rest[j]);
        j += 1;
        assert(r@ =~= head + rest@.subrange(0, j as int));
    }
    assert(rest@.subrange(0, j as int) =~= rest@);
    r
}

} // verus!
