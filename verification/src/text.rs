//! Comparing names: fixture models and path segments are told apart and put
//! in order by their characters.

use std::sync::Arc;
use vstd::prelude::*;
use vstd::std_specs::iter::IteratorSpec;

verus! {

/// The texts of a list of names.
pub open spec fn texts(names: Seq<Arc<str>>) -> Seq<Seq<char>> {
    names.map_values(|name: Arc<str>| name@)
}

/// Whether `a` comes strictly before `b` in dictionary order, characters
/// compared by code point: a name comes after each of its proper beginnings.
pub open spec fn precedes(a: Seq<char>, b: Seq<char>) -> bool
    decreases a.len(),
{
    if b.len() == 0 {
        false
    } else if a.len() == 0 {
        true
    } else if a[0] != b[0] {
        (a[0] as int) < (b[0] as int)
    } else {
        precedes(a.drop_first(), b.drop_first())
    }
}

/// No name precedes itself.
pub proof fn lemma_precedes_irreflexive(a: Seq<char>)
    ensures
        !precedes(a, a),
    decreases a.len(),
{
    if a.len() > 0 {
        lemma_precedes_irreflexive(a.drop_first());
    }
}

/// Of two names, one precedes the other or they are the same name.
pub proof fn lemma_precedes_total(a: Seq<char>, b: Seq<char>)
    ensures
        precedes(a, b) || precedes(b, a) || a == b,
    decreases a.len(),
{
    if a.len() == 0 || b.len() == 0 {
        assert(a.len() == 0 && b.len() == 0 ==> a =~= b);
    } else if a[0] == b[0] {
        lemma_precedes_total(a.drop_first(), b.drop_first());
        if a.drop_first() == b.drop_first() {
            assert(a.len() == a.drop_first().len() + 1);
            assert(b.len() == b.drop_first().len() + 1);
            assert forall|i: int| 0 <= i < a.len() implies a[i] == b[i] by {
                if i > 0 {
                    assert(a[i] == a.drop_first()[i - 1]);
                    assert(b[i] == b.drop_first()[i - 1]);
                }
            }
            assert(a =~= b);
        }
    }
}

/// No two names precede each other.
pub proof fn lemma_precedes_asymmetric(a: Seq<char>, b: Seq<char>)
    requires
        precedes(a, b),
    ensures
        !precedes(b, a),
    decreases a.len(),
{
    if a.len() > 0 && b.len() > 0 && a[0] == b[0] {
        lemma_precedes_asymmetric(a.drop_first(), b.drop_first());
    }
}

/// What precedes a name also precedes all that the name precedes.
pub proof fn lemma_precedes_transitive(a: Seq<char>, b: Seq<char>, c: Seq<char>)
    requires
        precedes(a, b),
        precedes(b, c),
    ensures
        precedes(a, c),
    decreases a.len(),
{
    if a.len() > 0 && a[0] == b[0] && b[0] == c[0] {
        lemma_precedes_transitive(a.drop_first(), b.drop_first(), c.drop_first());
    }
}

/// Whether the path `a` comes strictly before the path `b`: the paths are
/// compared name by name, the first names that differ decide, and a path
/// comes before every path that it is the beginning of. A folder so comes
/// before everything below it, and that before the folder's next sibling.
pub open spec fn path_precedes(a: Seq<Seq<char>>, b: Seq<Seq<char>>) -> bool
    decreases a.len(),
{
    if b.len() == 0 {
        false
    } else if a.len() == 0 {
        true
    } else if a[0] != b[0] {
        precedes(a[0], b[0])
    } else {
        path_precedes(a.drop_first(), b.drop_first())
    }
}

/// No path precedes itself.
pub proof fn lemma_path_precedes_irreflexive(a: Seq<Seq<char>>)
    ensures
        !path_precedes(a, a),
    decreases a.len(),
{
    if a.len() > 0 {
        lemma_path_precedes_irreflexive(a.drop_first());
    }
}

/// Of two paths, one precedes the other or they are the same path.
pub proof fn lemma_path_precedes_total(a: Seq<Seq<char>>, b: Seq<Seq<char>>)
    ensures
        path_precedes(a, b) || path_precedes(b, a) || a == b,
    decreases a.len(),
{
    if a.len() == 0 || b.len() == 0 {
        assert(a.len() == 0 && b.len() == 0 ==> a =~= b);
    } else if a[0] == b[0] {
        lemma_path_precedes_total(a.drop_first(), b.drop_first());
        if a.drop_first() == b.drop_first() {
            assert(a.len() == a.drop_first().len() + 1);
            assert(b.len() == b.drop_first().len() + 1);
            assert forall|i: int| 0 <= i < a.len() implies a[i] == b[i] by {
                if i > 0 {
                    assert(a[i] == a.drop_first()[i - 1]);
                    assert(b[i] == b.drop_first()[i - 1]);
                }
            }
            assert(a =~= b);
        }
    } else {
        lemma_precedes_total(a[0], b[0]);
    }
}

/// No two paths precede each other.
pub proof fn lemma_path_precedes_asymmetric(a: Seq<Seq<char>>, b: Seq<Seq<char>>)
    requires
        path_precedes(a, b),
    ensures
        !path_precedes(b, a),
    decreases a.len(),
{
    if a.len() > 0 && b.len() > 0 {
        if a[0] == b[0] {
            lemma_path_precedes_asymmetric(a.drop_first(), b.drop_first());
        } else {
            lemma_precedes_asymmetric(a[0], b[0]);
        }
    }
}

/// What precedes a path also precedes all that the path precedes.
pub proof fn lemma_path_precedes_transitive(a: Seq<Seq<char>>, b: Seq<Seq<char>>, c: Seq<Seq<char>>)
    requires
        path_precedes(a, b),
        path_precedes(b, c),
    ensures
        path_precedes(a, c),
    decreases a.len(),
{
    if a.len() > 0 {
        if a[0] == b[0] && b[0] == c[0] {
            lemma_path_precedes_transitive(a.drop_first(), b.drop_first(), c.drop_first());
        } else if a[0] != b[0] && b[0] != c[0] {
            lemma_precedes_transitive(a[0], b[0], c[0]);
            lemma_precedes_irreflexive(a[0]);
        }
    }
}

/// The code point of a character.
fn code_point(c: char) -> (r: u32)
    ensures
        r == c as int,
{
    c as u32
}

/// Whether two names are the same, character by character.
pub fn same_text(a: &str, b: &str) -> (r: bool)
    ensures
        r == (a@ == b@),
{
    let mut rest_a = a.chars();
    let mut rest_b = b.chars();
    let ghost mut read: int = 0;
    loop
        invariant
            0 <= read <= a@.len(),
            read <= b@.len(),
            rest_a.remaining() == a@.skip(read),
            rest_b.remaining() == b@.skip(read),
            a@.take(read) == b@.take(read),
        decreases a@.len() - read,
    {
        let next_a = rest_a.next();
        let next_b = rest_b.next();
        match (next_a, next_b) {
            (None, None) => {
                proof {
                    assert(a@ =~= a@.take(read));
                    assert(b@ =~= b@.take(read));
                }
                return true;
            },
            (Some(x), Some(y)) => {
                if x != y {
                    assert(a@[read] != b@[read]);
                    return false;
                }
                proof {
                    assert(a@.skip(read).drop_first() =~= a@.skip(read + 1));
                    assert(b@.skip(read).drop_first() =~= b@.skip(read + 1));
                    assert(a@.take(read + 1) =~= a@.take(read).push(x));
                    assert(b@.take(read + 1) =~= b@.take(read).push(y));
                    read = read + 1;
                }
            },
            _ => {
                assert(a@.len() != b@.len());
                return false;
            },
        }
    }
}

/// Whether `a` comes strictly before `b` in dictionary order.
pub fn text_precedes(a: &str, b: &str) -> (r: bool)
    ensures
        r == precedes(a@, b@),
{
    let mut rest_a = a.chars();
    let mut rest_b = b.chars();
    let ghost mut left = a@;
    let ghost mut right = b@;
    loop
        invariant
            precedes(a@, b@) == precedes(left, right),
            rest_a.remaining() == left,
            rest_b.remaining() == right,
        decreases left.len(),
    {
        let next_a = rest_a.next();
        let next_b = rest_b.next();
        match (next_a, next_b) {
            (_, None) => {
                return false;
            },
            (None, Some(_)) => {
                return true;
            },
            (Some(x), Some(y)) => {
                if x != y {
                    return code_point(x) < code_point(y);
                }
                proof {
                    left = left.drop_first();
                    right = right.drop_first();
                }
            },
        }
    }
}

/// Whether the path `a` comes strictly before the path `b`.
pub fn path_goes_before(a: &Vec<Arc<str>>, b: &Vec<Arc<str>>) -> (r: bool)
    ensures
        r == path_precedes(texts(a@), texts(b@)),
{
    let ghost left = texts(a@);
    let ghost right = texts(b@);
    let mut i: usize = 0;
    proof {
        assert(left.skip(0) =~= left);
        assert(right.skip(0) =~= right);
    }
    loop
        invariant
            i <= a@.len(),
            i <= b@.len(),
            left == texts(a@),
            right == texts(b@),
            path_precedes(left, right) == path_precedes(left.skip(i as int), right.skip(i as int)),
        decreases a@.len() - i,
    {
        if i >= b.len() {
            return false;
        }
        if i >= a.len() {
            return true;
        }
        proof {
            assert(left.skip(i as int)[0] == a@[i as int]@);
            assert(right.skip(i as int)[0] == b@[i as int]@);
            assert(left.skip(i as int).drop_first() =~= left.skip(i + 1));
            assert(right.skip(i as int).drop_first() =~= right.skip(i + 1));
        }
        if !same_text(&a[i], &b[i]) {
            return text_precedes(&a[i], &b[i]);
        }
        i += 1;
    }
}

} // verus!
