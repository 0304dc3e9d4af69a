//! Task labels and call paths: equality, containment and a total order.
use vstd::prelude::*;
use vstd::string::*;

verus! {

/// A call path as the text of its labels, outermost first.
pub open spec fn path_view(p: Seq<&'static str>) -> Seq<Seq<char>> {
    p.map_values(|s: &'static str| s@)
}

/// Lexicographic order on label text, by code point.
pub open spec fn text_lt(a: Seq<char>, b: Seq<char>) -> bool
    decreases a.len(),
{
    if a.len() == 0 {
        b.len() > 0
    } else if b.len() == 0 {
        false
    } else if a[0] != b[0] {
        (a[0] as int) < (b[0] as int)
    } else {
        text_lt(a.drop_first(), b.drop_first())
    }
}

/// Lexicographic order on paths, comparing labels by `text_lt`.
pub open spec fn path_lt(a: Seq<Seq<char>>, b: Seq<Seq<char>>) -> bool
    decreases a.len(),
{
    if a.len() == 0 {
        b.len() > 0
    } else if b.len() == 0 {
        false
    } else if a[0] != b[0] {
        text_lt(a[0], b[0])
    } else {
        path_lt(a.drop_first(), b.drop_first())
    }
}

/// Position of the first occurrence of `s` in `p` (or `p.len()` if absent).
pub open spec fn first_at(p: Seq<Seq<char>>, s: Seq<char>) -> nat
    decreases p.len(),
{
    if p.len() == 0 {
        0
    } else if p[0] == s {
        0
    } else {
        1 + first_at(p.drop_first(), s)
    }
}

/// The way of `s` in `p`: `p` cut just after the first occurrence of `s`.
pub open spec fn way_key(p: Seq<Seq<char>>, s: Seq<char>) -> Seq<Seq<char>> {
    p.subrange(0, first_at(p, s) as int + 1)
}

pub proof fn lemma_first_at(p: Seq<Seq<char>>, s: Seq<char>)
    ensures
        first_at(p, s) <= p.len(),
        p.contains(s) <==> first_at(p, s) < p.len(),
        p.contains(s) ==> p[first_at(p, s) as int] == s,
        forall|i: int| 0 <= i < first_at(p, s) ==> p[i] != s,
    decreases p.len(),
{
    if p.len() > 0 && p[0] != s {
        lemma_first_at(p.drop_first(), s);
        if p.contains(s) {
            let j = choose|j: int| 0 <= j < p.len() && p[j] == s;
            assert(p.drop_first()[j - 1] == s);
        }
        if p.drop_first().contains(s) {
            let j = choose|j: int| 0 <= j < p.drop_first().len() && p.drop_first()[j] == s;
            assert(p[j + 1] == s);
        }
        assert forall|i: int| 0 <= i < first_at(p, s) implies p[i] != s by {
            if i > 0 {
                assert(p[i] == p.drop_first()[i - 1]);
            }
        }
    } else if p.len() > 0 {
        assert(p[0] == s);
    }
}

pub proof fn lemma_text_lt_irreflexive(a: Seq<char>)
    ensures
        !text_lt(a, a),
    decreases a.len(),
{
    if a.len() > 0 {
        lemma_text_lt_irreflexive(a.drop_first());
    }
}

pub proof fn lemma_text_lt_transitive(a: Seq<char>, b: Seq<char>, c: Seq<char>)
    requires
        text_lt(a, b),
        text_lt(b, c),
    ensures
        text_lt(a, c),
    decreases a.len(),
{
    if a.len() > 0 && b.len() > 0 && c.len() > 0 && a[0] == b[0] && b[0] == c[0] {
        lemma_text_lt_transitive(a.drop_first(), b.drop_first(), c.drop_first());
    }
}

pub proof fn lemma_text_lt_total(a: Seq<char>, b: Seq<char>)
    ensures
        a == b || text_lt(a, b) || text_lt(b, a),
        !(text_lt(a, b) && text_lt(b, a)),
    decreases a.len(),
{
    if a.len() > 0 && b.len() > 0 {
        if a[0] == b[0] {
            lemma_text_lt_total(a.drop_first(), b.drop_first());
            if a.drop_first() == b.drop_first() {
                assert(a =~= seq![a[0]] + a.drop_first());
                assert(b =~= seq![b[0]] + b.drop_first());
            }
        } else {
            assert((a[0] as int) != (b[0] as int));
        }
    } else if a.len() == 0 && b.len() == 0 {
        assert(a =~= b);
    }
}

pub proof fn lemma_path_lt_irreflexive(a: Seq<Seq<char>>)
    ensures
        !path_lt(a, a),
    decreases a.len(),
{
    if a.len() > 0 {
        lemma_path_lt_irreflexive(a.drop_first());
    }
}

pub proof fn lemma_path_lt_transitive(a: Seq<Seq<char>>, b: Seq<Seq<char>>, c: Seq<Seq<char>>)
    requires
        path_lt(a, b),
        path_lt(b, c),
    ensures
        path_lt(a, c),
    decreases a.len(),
{
    if a.len() > 0 && b.len() > 0 && c.len() > 0 {
        if a[0] == b[0] && b[0] == c[0] {
            lemma_path_lt_transitive(a.drop_first(), b.drop_first(), c.drop_first());
        } else if a[0] != b[0] && b[0] != c[0] {
            lemma_text_lt_transitive(a[0], b[0], c[0]);
            lemma_text_lt_irreflexive(a[0]);
        }
    }
}

pub proof fn lemma_path_lt_total(a: Seq<Seq<char>>, b: Seq<Seq<char>>)
    ensures
        a == b || path_lt(a, b) || path_lt(b, a),
        !(path_lt(a, b) && path_lt(b, a)),
    decreases a.len(),
{
    if a.len() > 0 && b.len() > 0 {
        if a[0] == b[0] {
            lemma_path_lt_total(a.drop_first(), b.drop_first());
            if a.drop_first() == b.drop_first() {
                assert(a =~= seq![a[0]] + a.drop_first());
                assert(b =~= seq![b[0]] + b.drop_first());
            }
        } else {
            lemma_text_lt_total(a[0], b[0]);
        }
    } else if a.len() == 0 && b.len() == 0 {
        assert(a =~= b);
    }
}

/// Whether two labels have the same text.
pub fn text_eq(a: &str, b: &str) -> (r: bool)
    ensures
        r == (a@ == b@),
{
    let n = a.unicode_len();
    if n != b.unicode_len() {
        return false;
    }
    let mut i: usize = 0;
    while i < n
        invariant
            n == a@.len(),
            n == b@.len(),
            i <= n,
            forall|j: int| 0 <= j < i ==> a@[j] == b@[j],
        decreases n - i,
    {
        if a.get_char(i) != b.get_char(i) {
            return false;
        }
        i = i + 1;
    }
    assert(a@ =~= b@);
    true
}

/// Whether label `a` comes strictly before label `b`.
pub fn text_less(a: &str, b: &str) -> (r: bool)
    ensures
        r == text_lt(a@, b@),
{
    let n = a.unicode_len();
    let m = b.unicode_len();
    let mut i: usize = 0;
    assert(a@.skip(0) =~= a@);
    assert(b@.skip(0) =~= b@);
    while i < n && i < m
        invariant
            n == a@.len(),
            m == b@.len(),
            i <= n,
            i <= m,
            text_lt(a@, b@) == text_lt(a@.skip(i as int), b@.skip(i as int)),
        decreases n - i,
    {
        let x = a.get_char(i);
        let y = b.get_char(i);
        assert(a@.skip(i as int)[0] == x);
        assert(b@.skip(i as int)[0] == y);
        if x != y {
            return (x as u32) < (y as u32);
        }
        assert(a@.skip(i as int).drop_first() =~= a@.skip(i as int + 1));
        assert(b@.skip(i as int).drop_first() =~= b@.skip(i as int + 1));
        i = i + 1;
    }
    i < m
}

/// Whether two paths are equal label by label.
pub fn path_eq(a: &Vec<&'static str>, b: &Vec<&'static str>) -> (r: bool)
    ensures
        r == (path_view(a@) == path_view(b@)),
{
    if a.len() != b.len() {
        assert(path_view(a@).len() != path_view(b@).len());
        return false;
    }
    let mut i: usize = 0;
    while i < a.len()
        invariant
            a.len() == b.len(),
            i <= a.len(),
            forall|j: int| 0 <= j < i ==> a@[j]@ == b@[j]@,
        decreases a.len() - i,
    {
        if !text_eq(a[i], b[i]) {
            assert(path_view(a@)[i as int] != path_view(b@)[i as int]);
            return false;
        }
        i = i + 1;
    }
    assert(path_view(a@) =~= path_view(b@));
    true
}

/// Whether path `a` comes strictly before path `b`.
pub fn path_less(a: &Vec<&'static str>, b: &Vec<&'static str>) -> (r: bool)
    ensures
        r == path_lt(path_view(a@), path_view(b@)),
{
    let ghost va = path_view(a@);
    let ghost vb = path_view(b@);
    let mut i: usize = 0;
    assert(va.skip(0) =~= va);
    assert(vb.skip(0) =~= vb);
    while i < a.len() && i < b.len()
        invariant
            va == path_view(a@),
            vb == path_view(b@),
            i <= a.len(),
            i <= b.len(),
            path_lt(va, vb) == path_lt(va.skip(i as int), vb.skip(i as int)),
        decreases a.len() - i,
    {
        assert(va.skip(i as int)[0] == a@[i as int]@);
        assert(vb.skip(i as int)[0] == b@[i as int]@);
        if !text_eq(a[i], b[i]) {
            return text_less(a[i], b[i]);
        }
        assert(va.skip(i as int).drop_first() =~= va.skip(i as int + 1));
        assert(vb.skip(i as int).drop_first() =~= vb.skip(i as int + 1));
        i = i + 1;
    }
    i < b.len()
}

/// Whether label `s` occurs in path `p`.
pub fn path_contains(p: &Vec<&'static str>, s: &str) -> (r: bool)
    ensures
        r == path_view(p@).contains(s@),
{
    let mut i: usize = 0;
    while i < p.len()
        invariant
            i <= p.len(),
            forall|j: int| 0 <= j < i ==> p@[j]@ != s@,
        decreases p.len() - i,
    {
        if text_eq(p[i], s) {
            assert(path_view(p@)[i as int] == s@);
            return true;
        }
        i = i + 1;
    }
    false
}

/// The way of `s` in `p`: the labels of `p` up to and including the first `s`.
pub fn way_of(p: &Vec<&'static str>, s: &'static str) -> (r: Vec<&'static str>)
    requires
        path_view(p@).contains(s@),
    ensures
        path_view(r@) == way_key(path_view(p@), s@),
{
    proof {
        lemma_first_at(path_view(p@), s@);
    }
    let mut r: Vec<&'static str> = Vec::new();
    let mut i: usize = 0;
    while !text_eq(p[i], s)
        invariant
            path_view(p@).contains(s@),
            first_at(path_view(p@), s@) < p.len(),
            path_view(p@)[first_at(path_view(p@), s@) as int] == s@,
            forall|j: int| 0 <= j < first_at(path_view(p@), s@) ==> path_view(p@)[j] != s@,
            i <= first_at(path_view(p@), s@),
            path_view(r@) == path_view(p@).subrange(0, i as int),
        decreases p.len() - i,
    {
        assert(path_view(p@)[i as int] == p@[i as int]@);
        let ghost r0 = r@;
        assert(path_view(r0).len() == r0.len());
        r.push(p[i]);
        assert forall|j: int| 0 <= j < i ==> path_view(r@)[j] == path_view(r0)[j] by {
            if 0 <= j < i {
                assert(r@[j] == r0[j]);
            }
        }
        assert(path_view(r@) =~= path_view(p@).subrange(0, i as int + 1));
        i = i + 1;
    }
    assert(path_view(p@)[i as int] == p@[i as int]@);
    assert(i as int == first_at(path_view(p@), s@));
    let ghost r0 = r@;
    assert(path_view(r0).len() == r0.len());
    r.push(p[i]);
    assert forall|j: int| 0 <= j < i ==> path_view(r@)[j] == path_view(r0)[j] by {
        if 0 <= j < i {
            assert(r@[j] == r0[j]);
        }
    }
    assert(path_view(r@) =~= path_view(p@).subrange(0, i as int + 1));
    r
}

} // verus!
