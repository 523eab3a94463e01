//! The orders results are ranked by: text compared character by character,
//! and paths compared component by component as `std::path::Path` does.
use vstd::prelude::*;
use crate::path::{cur_dir_text, parent_dir_text, root_text};

verus! {

/// Whether `a` comes before `b` when compared character by character (by
/// code point), a proper prefix coming first.
pub open spec fn chars_less(a: Seq<char>, b: Seq<char>) -> bool
    decreases a.len(),
{
    if a.len() == 0 {
        b.len() > 0
    } else if b.len() == 0 {
        false
    } else if a[0] != b[0] {
        (a[0] as u32) < (b[0] as u32)
    } else {
        chars_less(a.drop_first(), b.drop_first())
    }
}

pub proof fn lemma_chars_less_irreflexive(a: Seq<char>)
    ensures
        !chars_less(a, a),
    decreases a.len(),
{
    if a.len() > 0 {
        lemma_chars_less_irreflexive(a.drop_first());
    }
}

pub proof fn lemma_chars_less_total(a: Seq<char>, b: Seq<char>)
    ensures
        a == b || chars_less(a, b) || chars_less(b, a),
    decreases a.len(),
{
    if a.len() > 0 && b.len() > 0 {
        if a[0] == b[0] {
            lemma_chars_less_total(a.drop_first(), b.drop_first());
            if a.drop_first() == b.drop_first() {
                assert(a =~= seq![a[0]] + a.drop_first());
                assert(b =~= seq![b[0]] + b.drop_first());
            }
        } else {
            let x = a[0] as u32;
            let y = b[0] as u32;
            vstd::utf8::char_u32_cast(a[0], x);
            vstd::utf8::char_u32_cast(b[0], y);
        }
    } else if a.len() == 0 && b.len() == 0 {
        assert(a =~= b);
    }
}

pub proof fn lemma_chars_less_asymmetric(a: Seq<char>, b: Seq<char>)
    ensures
        !(chars_less(a, b) && chars_less(b, a)),
    decreases a.len(),
{
    if a.len() > 0 && b.len() > 0 && a[0] == b[0] {
        lemma_chars_less_asymmetric(a.drop_first(), b.drop_first());
    }
}

pub proof fn lemma_chars_less_transitive(a: Seq<char>, b: Seq<char>, c: Seq<char>)
    requires
        chars_less(a, b),
        chars_less(b, c),
    ensures
        chars_less(a, c),
    decreases a.len(),
{
    if a.len() > 0 && b.len() > 0 && c.len() > 0 {
        if a[0] == b[0] && b[0] == c[0] {
            lemma_chars_less_transitive(a.drop_first(), b.drop_first(), c.drop_first());
        }
    }
}

/// The kind of a path component: the root, `.`, `..`, then names, in the
/// order `std::path::Component` puts them.
pub open spec fn component_rank(c: Seq<char>) -> int {
    if c == root_text() {
        0
    } else if c == cur_dir_text() {
        1
    } else if c == parent_dir_text() {
        2
    } else {
        3
    }
}

/// Whether component `a` comes before component `b`.
pub open spec fn component_less(a: Seq<char>, b: Seq<char>) -> bool {
    component_rank(a) < component_rank(b) || (component_rank(a) == component_rank(b)
        && component_rank(a) == 3 && chars_less(a, b))
}

pub proof fn lemma_component_less_total(a: Seq<char>, b: Seq<char>)
    ensures
        a == b || component_less(a, b) || component_less(b, a),
{
    lemma_chars_less_total(a, b);
}

pub proof fn lemma_component_less_asymmetric(a: Seq<char>, b: Seq<char>)
    ensures
        !(component_less(a, b) && component_less(b, a)),
        !component_less(a, a),
{
    lemma_chars_less_asymmetric(a, b);
    lemma_chars_less_irreflexive(a);
}

pub proof fn lemma_component_less_transitive(a: Seq<char>, b: Seq<char>, c: Seq<char>)
    requires
        component_less(a, b),
        component_less(b, c),
    ensures
        component_less(a, c),
{
    if component_rank(a) == 3 && component_rank(b) == 3 && component_rank(c) == 3 {
        lemma_chars_less_transitive(a, b, c);
    }
}

/// Whether the path with components `a` comes before the path with
/// components `b`, as `Path`'s order: component by component, a proper
/// prefix first.
pub open spec fn path_less(a: Seq<Seq<char>>, b: Seq<Seq<char>>) -> bool
    decreases a.len(),
{
    if a.len() == 0 {
        b.len() > 0
    } else if b.len() == 0 {
        false
    } else if a[0] != b[0] {
        component_less(a[0], b[0])
    } else {
        path_less(a.drop_first(), b.drop_first())
    }
}

pub proof fn lemma_path_less_irreflexive(a: Seq<Seq<char>>)
    ensures
        !path_less(a, a),
    decreases a.len(),
{
    if a.len() > 0 {
        lemma_path_less_irreflexive(a.drop_first());
    }
}

pub proof fn lemma_path_less_total(a: Seq<Seq<char>>, b: Seq<Seq<char>>)
    ensures
        a == b || path_less(a, b) || path_less(b, a),
    decreases a.len(),
{
    if a.len() > 0 && b.len() > 0 {
        if a[0] == b[0] {
            lemma_path_less_total(a.drop_first(), b.drop_first());
            if a.drop_first() == b.drop_first() {
                assert(a =~= seq![a[0]] + a.drop_first());
                assert(b =~= seq![b[0]] + b.drop_first());
            }
        } else {
            lemma_component_less_total(a[0], b[0]);
        }
    } else if a.len() == 0 && b.len() == 0 {
        assert(a =~= b);
    }
}

pub proof fn lemma_path_less_asymmetric(a: Seq<Seq<char>>, b: Seq<Seq<char>>)
    ensures
        !(path_less(a, b) && path_less(b, a)),
    decreases a.len(),
{
    if a.len() > 0 && b.len() > 0 {
        if a[0] == b[0] {
            lemma_path_less_asymmetric(a.drop_first(), b.drop_first());
        } else {
            lemma_component_less_asymmetric(a[0], b[0]);
        }
    }
}

pub proof fn lemma_path_less_transitive(a: Seq<Seq<char>>, b: Seq<Seq<char>>, c: Seq<Seq<char>>)
    requires
        path_less(a, b),
        path_less(b, c),
    ensures
        path_less(a, c),
    decreases a.len(),
{
    if a.len() > 0 && b.len() > 0 && c.len() > 0 {
        if a[0] == b[0] && b[0] == c[0] {
            lemma_path_less_transitive(a.drop_first(), b.drop_first(), c.drop_first());
        } else if a[0] == b[0] {
        } else if b[0] == c[0] {
        } else {
            lemma_component_less_transitive(a[0], b[0], c[0]);
            if a[0] == c[0] {
                lemma_component_less_asymmetric(a[0], b[0]);
            }
        }
    }
}

// ---------------------------------------------------------------------------
// Executable comparisons.
// ---------------------------------------------------------------------------

/// Whether `a` comes before `b`, character by character.
pub fn chars_before(a: &[char], b: &[char]) -> (r: bool)
    ensures
        r == chars_less(a@, b@),
{
    let mut i: usize = 0;
    assert(a@.subrange(0, a@.len() as int) =~= a@);
    assert(b@.subrange(0, b@.len() as int) =~= b@);
    while i < a.len() && i < b.len() && a[i] == b[i]
        invariant
            i <= a@.len(),
            i <= b@.len(),
            chars_less(a@, b@) == chars_less(a@.subrange(i as int, a@.len() as int), b@.subrange(i as int, b@.len() as int)),
        decreases a@.len() - i,
    {
        proof {
            let x = a@.subrange(i as int, a@.len() as int);
            let y = b@.subrange(i as int, b@.len() as int);
            assert(x.drop_first() =~= a@.subrange(i + 1, a@.len() as int));
            assert(y.drop_first() =~= b@.subrange(i + 1, b@.len() as int));
        }
        i += 1;
    }
    proof {
        if i == 0 {
            assert(a@.subrange(0, a@.len() as int) =~= a@);
            assert(b@.subrange(0, b@.len() as int) =~= b@);
        }
    }
    if i == a.len() {
        i < b.len()
    } else if i == b.len() {
        false
    } else {
        (a[i] as u32) < (b[i] as u32)
    }
}

fn rank_of(c: &Vec<char>) -> (r: u8)
    ensures
        r as int == component_rank(c@),
{
    if c.len() == 1 && c[0] == '/' {
        assert(c@ =~= root_text());
        0
    } else if c.len() == 1 && c[0] == '.' {
        assert(c@ =~= cur_dir_text());
        assert(c@ != root_text());
        1
    } else if c.len() == 2 && c[0] == '.' && c[1] == '.' {
        assert(c@ =~= parent_dir_text());
        2
    } else {
        assert(c@.len() == 1 ==> c@[0] != root_text()[0] && c@[0] != cur_dir_text()[0]);
        assert(c@.len() == 2 ==> c@[0] != parent_dir_text()[0] || c@[1] != parent_dir_text()[1]);
        3
    }
}

/// Whether component `a` comes before component `b`.
pub fn component_before(a: &Vec<char>, b: &Vec<char>) -> (r: bool)
    ensures
        r == component_less(a@, b@),
{
    let ra = rank_of(a);
    let rb = rank_of(b);
    ra < rb || (ra == rb && ra == 3 && chars_before(a, b))
}

pub open spec fn texts_of(v: Seq<Vec<char>>) -> Seq<Seq<char>> {
    v.map_values(|w: Vec<char>| w@)
}

/// Whether the path with components `a` comes before the path with
/// components `b`.
pub fn path_before(a: &Vec<Vec<char>>, b: &Vec<Vec<char>>) -> (r: bool)
    ensures
        r == path_less(texts_of(a@), texts_of(b@)),
{
    let ghost ta = texts_of(a@);
    let ghost tb = texts_of(b@);
    let mut i: usize = 0;
    assert(ta.subrange(0, ta.len() as int) =~= ta);
    assert(tb.subrange(0, tb.len() as int) =~= tb);
    while i < a.len() && i < b.len() && crate::git::chars_same(&a[i], &b[i])
        invariant
            i <= a@.len(),
            i <= b@.len(),
            ta == texts_of(a@),
            tb == texts_of(b@),
            path_less(ta, tb) == path_less(ta.subrange(i as int, ta.len() as int), tb.subrange(i as int, tb.len() as int)),
        decreases a@.len() - i,
    {
        proof {
            let x = ta.subrange(i as int, ta.len() as int);
            let y = tb.subrange(i as int, tb.len() as int);
            assert(x[0] == a@[i as int]@);
            assert(y[0] == b@[i as int]@);
            assert(x.drop_first() =~= ta.subrange(i + 1, ta.len() as int));
            assert(y.drop_first() =~= tb.subrange(i + 1, tb.len() as int));
        }
        i += 1;
    }
    proof {
        if i == 0 {
            assert(ta.subrange(0, ta.len() as int) =~= ta);
            assert(tb.subrange(0, tb.len() as int) =~= tb);
        }
    }
    if i == a.len() {
        i < b.len()
    } else if i == b.len() {
        false
    } else {
        proof {
            let x = ta.subrange(i as int, ta.len() as int);
            let y = tb.subrange(i as int, tb.len() as int);
            assert(x[0] == a@[i as int]@);
            assert(y[0] == b@[i as int]@);
        }
        component_before(&a[i], &b[i])
    }
}

} // verus!
