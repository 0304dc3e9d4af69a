//! Aggregation of recorded paths by label, and by the way each label is reached.
use vstd::prelude::*;
use crate::labels::{
    path_view, text_lt, path_lt, way_key, text_eq, text_less, path_eq, path_less, path_contains,
    way_of, lemma_text_lt_irreflexive, lemma_text_lt_transitive, lemma_text_lt_total,
    lemma_path_lt_irreflexive, lemma_path_lt_transitive, lemma_path_lt_total,
};
use crate::tally::{
    occurs, Entry, entries_of, sum_of, total_time, total_count, time_all, count_all, time_with, count_with,
    time_by, count_by, cum_time, cum_count, way_time, way_count, lemma_sum_le, lemma_sum_take,
    lemma_sum_prefix_le,
};

verus! {

/// Whether some recorded path reaches label `s` by the way `w`.
pub open spec fn reaches(es: Seq<Entry>, s: Seq<char>, w: Seq<Seq<char>>) -> bool {
    exists|j: int| 0 <= j < es.len() && es[j].0.contains(s) && way_key(es[j].0, s) == w
}

/// Whether label `s` occurs in one of `paths`.
pub open spec fn in_paths(paths: Seq<Vec<&'static str>>, s: Seq<char>) -> bool {
    exists|j: int| 0 <= j < paths.len() && path_view(paths[j]@).contains(s)
}

/// Whether label `s` is among `r`.
pub open spec fn listed(r: Seq<&'static str>, s: Seq<char>) -> bool {
    exists|a: int| 0 <= a < r.len() && r[a]@ == s
}

/// Whether one of `paths` reaches label `s` by the way `w`.
pub open spec fn way_in_paths(paths: Seq<Vec<&'static str>>, s: Seq<char>, w: Seq<Seq<char>>) -> bool {
    exists|j: int| 0 <= j < paths.len() && path_view(paths[j]@).contains(s) && way_key(path_view(paths[j]@), s) == w
}

/// Whether the way `w` is among `r`.
pub open spec fn way_listed(r: Seq<Vec<&'static str>>, w: Seq<Seq<char>>) -> bool {
    exists|a: int| 0 <= a < r.len() && path_view(r[a]@) == w
}

pub open spec fn entry_at(paths: Seq<Vec<&'static str>>, times: Seq<u64>, counts: Seq<u64>, i: int) -> Entry {
    (path_view(paths[i]@), times[i] as nat, counts[i] as nat)
}

/// One way of reaching a label, with the time and starts of the paths that take it.
pub struct WayLine {
    pub path: Vec<&'static str>,
    pub time: u64,
    pub count: u64,
}

/// One label, with the time and starts of the paths that contain it, and its ways.
pub struct LabelLine {
    pub label: &'static str,
    pub time: u64,
    pub count: u64,
    pub ways: Vec<WayLine>,
}

/// A label's text, cumulative time, cumulative starts and ways.
pub type LabelV = (Seq<char>, nat, nat, Seq<Entry>);

pub open spec fn way_view(w: WayLine) -> Entry {
    (path_view(w.path@), w.time as nat, w.count as nat)
}

pub open spec fn ways_view(v: Seq<WayLine>) -> Seq<Entry> {
    v.map_values(|w: WayLine| way_view(w))
}

pub open spec fn label_view(l: LabelLine) -> LabelV {
    (l.label@, l.time as nat, l.count as nat, ways_view(l.ways@))
}

pub open spec fn lines_view(v: Seq<LabelLine>) -> Seq<LabelV> {
    v.map_values(|l: LabelLine| label_view(l))
}

/// Ways are listed by descending time, equal times by path order.
pub open spec fn way_before(a: Entry, b: Entry) -> bool {
    a.1 > b.1 || (a.1 == b.1 && path_lt(a.0, b.0))
}

/// Labels are listed by descending time, equal times by label order.
pub open spec fn label_before(a: LabelV, b: LabelV) -> bool {
    a.1 > b.1 || (a.1 == b.1 && text_lt(a.0, b.0))
}

pub open spec fn ways_sorted(ws: Seq<Entry>) -> bool {
    forall|a: int, b: int| 0 <= a < b < ws.len() ==> way_before(#[trigger] ws[a], #[trigger] ws[b])
}

pub open spec fn labels_sorted(ls: Seq<LabelV>) -> bool {
    forall|a: int, b: int| 0 <= a < b < ls.len() ==> label_before(#[trigger] ls[a], #[trigger] ls[b])
}

/// Whether `w` is the way `w.0` of label `s` with its exact time and starts.
pub open spec fn way_ok(es: Seq<Entry>, s: Seq<char>, w: Entry) -> bool {
    &&& reaches(es, s, w.0)
    &&& w.1 == way_time(es, s, w.0)
    &&& w.2 == way_count(es, s, w.0)
}

pub open spec fn has_way(ws: Seq<Entry>, w: Seq<Seq<char>>) -> bool {
    exists|a: int| 0 <= a < ws.len() && ws[a].0 == w
}

/// `ws` lists each way of label `s` once, sorted, with its time and starts.
pub open spec fn ways_ok(es: Seq<Entry>, s: Seq<char>, ws: Seq<Entry>) -> bool {
    &&& ways_sorted(ws)
    &&& forall|a: int, b: int| 0 <= a < ws.len() && 0 <= b < ws.len() && a != b ==> ws[a].0 != ws[b].0
    &&& forall|a: int| 0 <= a < ws.len() ==> way_ok(es, s, #[trigger] ws[a])
    &&& forall|w: Seq<Seq<char>>| #[trigger] reaches(es, s, w) ==> has_way(ws, w)
}

/// Whether `l` is label `l.0` with its exact cumulative time, starts and ways.
pub open spec fn line_ok(es: Seq<Entry>, l: LabelV) -> bool {
    &&& occurs(es, l.0)
    &&& l.1 == cum_time(es, l.0)
    &&& l.2 == cum_count(es, l.0)
    &&& ways_ok(es, l.0, l.3)
}

pub open spec fn has_label(ls: Seq<LabelV>, s: Seq<char>) -> bool {
    exists|a: int| 0 <= a < ls.len() && ls[a].0 == s
}

/// `ls` lists each label of the recorded paths once, sorted, with its figures.
pub open spec fn is_summary(es: Seq<Entry>, ls: Seq<LabelV>) -> bool {
    &&& labels_sorted(ls)
    &&& forall|a: int, b: int| 0 <= a < ls.len() && 0 <= b < ls.len() && a != b ==> ls[a].0 != ls[b].0
    &&& forall|a: int| 0 <= a < ls.len() ==> line_ok(es, #[trigger] ls[a])
    &&& forall|s: Seq<char>| #[trigger] occurs(es, s) ==> has_label(ls, s)
}

pub proof fn lemma_way_before_order(a: Entry, b: Entry, c: Entry)
    ensures
        !way_before(a, a),
        a.0 != b.0 ==> way_before(a, b) || way_before(b, a),
        way_before(a, b) && way_before(b, c) ==> way_before(a, c),
{
    lemma_path_lt_irreflexive(a.0);
    lemma_path_lt_total(a.0, b.0);
    if way_before(a, b) && way_before(b, c) && a.1 == b.1 && b.1 == c.1 {
        lemma_path_lt_transitive(a.0, b.0, c.0);
    }
}

pub proof fn lemma_label_before_order(a: LabelV, b: LabelV, c: LabelV)
    ensures
        !label_before(a, a),
        a.0 != b.0 ==> label_before(a, b) || label_before(b, a),
        label_before(a, b) && label_before(b, c) ==> label_before(a, c),
{
    lemma_text_lt_irreflexive(a.0);
    lemma_text_lt_total(a.0, b.0);
    if label_before(a, b) && label_before(b, c) && a.1 == b.1 && b.1 == c.1 {
        lemma_text_lt_transitive(a.0, b.0, c.0);
    }
}

/// Inserts `x` into the sorted ways `v` at the place that keeps them sorted.
fn insert_way(v: &mut Vec<WayLine>, x: WayLine) -> (i: usize)
    requires
        ways_sorted(ways_view(old(v)@)),
        forall|a: int| 0 <= a < old(v).len() ==> path_view(old(v)@[a].path@) != path_view(x.path@),
    ensures
        i <= old(v).len(),
        ways_view(final(v)@) == ways_view(old(v)@).insert(i as int, way_view(x)),
        ways_sorted(ways_view(final(v)@)),
{
    let ghost o = ways_view(v@);
    let ghost xv = way_view(x);
    let ghost v0 = v@;
    let mut i: usize = 0;
    let mut done = false;
    while !done && i < v.len()
        invariant
            v@ == v0,
            o == ways_view(v0),
            xv == way_view(x),
            i <= v.len(),
            forall|a: int| 0 <= a < i ==> way_before(o[a], xv),
            done ==> i < v.len() && way_before(xv, o[i as int]),
            forall|a: int| 0 <= a < v.len() ==> path_view(v@[a].path@) != path_view(x.path@),
        decreases v.len() - i + (if done { 0int } else { 1int }),
    {
        let ahead = x.time > v[i].time || (x.time == v[i].time && path_less(&x.path, &v[i].path));
        proof {
            assert(o[i as int] == way_view(v@[i as int]));
            lemma_way_before_order(xv, o[i as int], xv);
        }
        if ahead {
            done = true;
        } else {
            i = i + 1;
        }
    }
    v.insert(i, x);
    proof {
        v0.insert_ensures(i as int, x);
        o.insert_ensures(i as int, xv);
        let n = o.insert(i as int, xv);
        assert(ways_view(v@) =~= n) by {
            assert forall|k: int| 0 <= k < n.len() implies ways_view(v@)[k] == n[k] by {
                if k < i {
                    assert(v@[k] == v0[k]);
                } else if k > i {
                    assert(v@[k] == v0[k - 1]);
                }
            }
        }
        assert forall|a: int, b: int| 0 <= a < b < n.len() implies way_before(#[trigger] n[a], #[trigger] n[b]) by {
            if b < i {
                assert(n[a] == o[a] && n[b] == o[b]);
            } else if b == i {
                assert(n[a] == o[a]);
            } else if a < i {
                assert(n[a] == o[a] && n[b] == o[b - 1]);
                assert(way_before(o[a], o[b - 1]));
            } else if a == i {
                assert(n[b] == o[b - 1]);
                if b - 1 > i {
                    assert(way_before(o[i as int], o[b - 1]));
                    lemma_way_before_order(xv, o[i as int], o[b - 1]);
                }
            } else {
                assert(n[a] == o[a - 1] && n[b] == o[b - 1]);
                assert(way_before(o[a - 1], o[b - 1]));
            }
        }
    }
    i
}

/// Inserts `x` into the sorted labels `v` at the place that keeps them sorted.
fn insert_label(v: &mut Vec<LabelLine>, x: LabelLine) -> (i: usize)
    requires
        labels_sorted(lines_view(old(v)@)),
        forall|a: int| 0 <= a < old(v).len() ==> old(v)@[a].label@ != x.label@,
    ensures
        i <= old(v).len(),
        lines_view(final(v)@) == lines_view(old(v)@).insert(i as int, label_view(x)),
        labels_sorted(lines_view(final(v)@)),
{
    let ghost o = lines_view(v@);
    let ghost xv = label_view(x);
    let ghost v0 = v@;
    let mut i: usize = 0;
    let mut done = false;
    while !done && i < v.len()
        invariant
            v@ == v0,
            o == lines_view(v0),
            xv == label_view(x),
            i <= v.len(),
            forall|a: int| 0 <= a < i ==> label_before(o[a], xv),
            done ==> i < v.len() && label_before(xv, o[i as int]),
            forall|a: int| 0 <= a < v.len() ==> v@[a].label@ != x.label@,
        decreases v.len() - i + (if done { 0int } else { 1int }),
    {
        let ahead = x.time > v[i].time || (x.time == v[i].time && text_less(x.label, v[i].label));
        proof {
            assert(o[i as int] == label_view(v@[i as int]));
            lemma_label_before_order(xv, o[i as int], xv);
        }
        if ahead {
            done = true;
        } else {
            i = i + 1;
        }
    }
    v.insert(i, x);
    proof {
        v0.insert_ensures(i as int, x);
        o.insert_ensures(i as int, xv);
        let n = o.insert(i as int, xv);
        assert(lines_view(v@) =~= n) by {
            assert forall|k: int| 0 <= k < n.len() implies lines_view(v@)[k] == n[k] by {
                if k < i {
                    assert(v@[k] == v0[k]);
                } else if k > i {
                    assert(v@[k] == v0[k - 1]);
                }
            }
        }
        assert forall|a: int, b: int| 0 <= a < b < n.len() implies label_before(#[trigger] n[a], #[trigger] n[b]) by {
            if b < i {
                assert(n[a] == o[a] && n[b] == o[b]);
            } else if b == i {
                assert(n[a] == o[a]);
            } else if a < i {
                assert(n[a] == o[a] && n[b] == o[b - 1]);
                assert(label_before(o[a], o[b - 1]));
            } else if a == i {
                assert(n[b] == o[b - 1]);
                if b - 1 > i {
                    assert(label_before(o[i as int], o[b - 1]));
                    lemma_label_before_order(xv, o[i as int], o[b - 1]);
                }
            } else {
                assert(n[a] == o[a - 1] && n[b] == o[b - 1]);
                assert(label_before(o[a - 1], o[b - 1]));
            }
        }
    }
    i
}

/// The distinct labels that occur in the recorded paths, in order of first occurrence.
pub fn distinct_labels(paths: &Vec<Vec<&'static str>>) -> (r: Vec<&'static str>)
    ensures
        forall|a: int, b: int| 0 <= a < r.len() && 0 <= b < r.len() && a != b ==> r@[a]@ != r@[b]@,
        forall|a: int| 0 <= a < r.len() ==> in_paths(paths@, #[trigger] r@[a]@),
        forall|j: int, m: int| 0 <= j < paths.len() && 0 <= m < paths@[j].len() ==>
            listed(r@, #[trigger] paths@[j]@[m]@),
{
    let mut r: Vec<&'static str> = Vec::new();
    let mut j: usize = 0;
    while j < paths.len()
        invariant
            j <= paths.len(),
            forall|a: int, b: int| 0 <= a < r.len() && 0 <= b < r.len() && a != b ==> r@[a]@ != r@[b]@,
            forall|a: int| 0 <= a < r.len() ==> in_paths(paths@, #[trigger] r@[a]@),
            forall|jj: int, m: int| 0 <= jj < j && 0 <= m < paths@[jj].len() ==>
                listed(r@, #[trigger] paths@[jj]@[m]@),
        decreases paths.len() - j,
    {
        let p = &paths[j];
        let mut m: usize = 0;
        while m < p.len()
            invariant
                j < paths.len(),
                p == paths@[j as int],
                m <= p.len(),
                forall|a: int, b: int| 0 <= a < r.len() && 0 <= b < r.len() && a != b ==> r@[a]@ != r@[b]@,
                forall|a: int| 0 <= a < r.len() ==> in_paths(paths@, #[trigger] r@[a]@),
                forall|jj: int, mm: int| 0 <= jj < j && 0 <= mm < paths@[jj].len() ==>
                    listed(r@, #[trigger] paths@[jj]@[mm]@),
                forall|mm: int| 0 <= mm < m ==> listed(r@, #[trigger] p@[mm]@),
            decreases p.len() - m,
        {
            let s = p[m];
            let mut a: usize = 0;
            let mut found = false;
            while a < r.len()
                invariant
                    a <= r.len(),
                    !found ==> forall|b: int| 0 <= b < a ==> r@[b]@ != s@,
                    found ==> listed(r@, s@),
                decreases r.len() - a,
            {
                if text_eq(r[a], s) {
                    found = true;
                    assert(r@[a as int]@ == s@);
                }
                a = a + 1;
            }
            if !found {
                let ghost r0 = r@;
                proof {
                    assert(path_view(p@)[m as int] == s@);
                    assert(path_view(paths@[j as int]@).contains(s@));
                }
                r.push(s);
                assert(r@[r0.len() as int] == s);
                assert forall|a: int| 0 <= a < r.len() implies in_paths(paths@, #[trigger] r@[a]@) by {
                    if a < r0.len() {
                        assert(r@[a] == r0[a]);
                    } else {
                        assert(path_view(paths@[j as int]@).contains(r@[a]@));
                    }
                }
                assert forall|jj: int, mm: int| 0 <= jj < j && 0 <= mm < paths@[jj].len() implies
                    listed(r@, #[trigger] paths@[jj]@[mm]@) by {
                    let b = choose|b: int| 0 <= b < r0.len() && r0[b]@ == paths@[jj]@[mm]@;
                    assert(r@[b] == r0[b]);
                }
                assert forall|mm: int| 0 <= mm <= m implies listed(r@, #[trigger] p@[mm]@) by {
                    if mm < m {
                        let b = choose|b: int| 0 <= b < r0.len() && r0[b]@ == p@[mm]@;
                        assert(r@[b] == r0[b]);
                    } else {
                        assert(r@[r0.len() as int]@ == p@[mm]@);
                    }
                }
            }
            m = m + 1;
        }
        assert forall|jj: int, mm: int| 0 <= jj <= j && 0 <= mm < paths@[jj].len() implies
            listed(r@, #[trigger] paths@[jj]@[mm]@) by {
            if jj == j {
                assert(paths@[jj]@[mm] == p@[mm]);
            }
        }
        j = j + 1;
    }
    r
}

/// The total time and starts of every recorded path that contains label `s`.
pub fn cumulate(paths: &Vec<Vec<&'static str>>, times: &Vec<u64>, counts: &Vec<u64>, s: &'static str) -> (r: (u64, u64))
    requires
        paths.len() == times.len(),
        paths.len() == counts.len(),
        total_time(entries_of(paths@, times@, counts@)) <= u64::MAX,
        total_count(entries_of(paths@, times@, counts@)) <= u64::MAX,
    ensures
        r.0 == cum_time(entries_of(paths@, times@, counts@), s@),
        r.1 == cum_count(entries_of(paths@, times@, counts@), s@),
{
    let ghost es = entries_of(paths@, times@, counts@);
    proof {
        lemma_sum_le(es, time_with(s@), time_all());
        lemma_sum_le(es, count_with(s@), count_all());
    }
    let mut t: u64 = 0;
    let mut c: u64 = 0;
    let mut i: usize = 0;
    assert(es.take(0) =~= Seq::<Entry>::empty());
    while i < paths.len()
        invariant
            es == entries_of(paths@, times@, counts@),
            paths.len() == times.len(),
            paths.len() == counts.len(),
            i <= paths.len(),
            sum_of(es, time_with(s@)) <= u64::MAX,
            sum_of(es, count_with(s@)) <= u64::MAX,
            t == sum_of(es.take(i as int), time_with(s@)),
            c == sum_of(es.take(i as int), count_with(s@)),
        decreases paths.len() - i,
    {
        proof {
            lemma_sum_take(es, i as int, time_with(s@));
            lemma_sum_take(es, i as int, count_with(s@));
            lemma_sum_prefix_le(es, i as int + 1, time_with(s@));
            lemma_sum_prefix_le(es, i as int + 1, count_with(s@));
            assert(es[i as int] == entry_at(paths@, times@, counts@, i as int));
        }
        if path_contains(&paths[i], s) {
            t = t + times[i];
            c = c + counts[i];
        }
        i = i + 1;
    }
    assert(es.take(i as int) =~= es);
    (t, c)
}

/// The total time and starts of every recorded path that reaches label `s` by way `w`.
pub fn way_sums(paths: &Vec<Vec<&'static str>>, times: &Vec<u64>, counts: &Vec<u64>, s: &'static str, w: &Vec<&'static str>) -> (r: (u64, u64))
    requires
        paths.len() == times.len(),
        paths.len() == counts.len(),
        total_time(entries_of(paths@, times@, counts@)) <= u64::MAX,
        total_count(entries_of(paths@, times@, counts@)) <= u64::MAX,
    ensures
        r.0 == way_time(entries_of(paths@, times@, counts@), s@, path_view(w@)),
        r.1 == way_count(entries_of(paths@, times@, counts@), s@, path_view(w@)),
{
    let ghost es = entries_of(paths@, times@, counts@);
    let ghost wv = path_view(w@);
    proof {
        lemma_sum_le(es, time_by(s@, wv), time_all());
        lemma_sum_le(es, count_by(s@, wv), count_all());
    }
    let mut t: u64 = 0;
    let mut c: u64 = 0;
    let mut i: usize = 0;
    assert(es.take(0) =~= Seq::<Entry>::empty());
    while i < paths.len()
        invariant
            es == entries_of(paths@, times@, counts@),
            wv == path_view(w@),
            paths.len() == times.len(),
            paths.len() == counts.len(),
            i <= paths.len(),
            sum_of(es, time_by(s@, wv)) <= u64::MAX,
            sum_of(es, count_by(s@, wv)) <= u64::MAX,
            t == sum_of(es.take(i as int), time_by(s@, wv)),
            c == sum_of(es.take(i as int), count_by(s@, wv)),
        decreases paths.len() - i,
    {
        proof {
            lemma_sum_take(es, i as int, time_by(s@, wv));
            lemma_sum_take(es, i as int, count_by(s@, wv));
            lemma_sum_prefix_le(es, i as int + 1, time_by(s@, wv));
            lemma_sum_prefix_le(es, i as int + 1, count_by(s@, wv));
            assert(es[i as int] == entry_at(paths@, times@, counts@, i as int));
        }
        if path_contains(&paths[i], s) {
            let k = way_of(&paths[i], s);
            if path_eq(&k, w) {
                t = t + times[i];
                c = c + counts[i];
            }
        }
        i = i + 1;
    }
    assert(es.take(i as int) =~= es);
    (t, c)
}

/// The distinct ways by which the recorded paths reach label `s`.
pub fn distinct_ways(paths: &Vec<Vec<&'static str>>, s: &'static str) -> (r: Vec<Vec<&'static str>>)
    ensures
        forall|a: int, b: int| 0 <= a < r.len() && 0 <= b < r.len() && a != b ==> path_view(r@[a]@) != path_view(r@[b]@),
        forall|a: int| 0 <= a < r.len() ==> way_in_paths(paths@, s@, path_view(#[trigger] r@[a]@)),
        forall|j: int| 0 <= j < paths.len() && (#[trigger] path_view(paths@[j]@)).contains(s@) ==>
            way_listed(r@, way_key(path_view(paths@[j]@), s@)),
{
    let mut r: Vec<Vec<&'static str>> = Vec::new();
    let mut j: usize = 0;
    while j < paths.len()
        invariant
            j <= paths.len(),
            forall|a: int, b: int| 0 <= a < r.len() && 0 <= b < r.len() && a != b ==> path_view(r@[a]@) != path_view(r@[b]@),
            forall|a: int| 0 <= a < r.len() ==> way_in_paths(paths@, s@, path_view(#[trigger] r@[a]@)),
            forall|jj: int| 0 <= jj < j && (#[trigger] path_view(paths@[jj]@)).contains(s@) ==>
                way_listed(r@, way_key(path_view(paths@[jj]@), s@)),
        decreases paths.len() - j,
    {
        if path_contains(&paths[j], s) {
            let k = way_of(&paths[j], s);
            let mut a: usize = 0;
            let mut found = false;
            while a < r.len()
                invariant
                    a <= r.len(),
                    !found ==> forall|b: int| 0 <= b < a ==> path_view(r@[b]@) != path_view(k@),
                    found ==> way_listed(r@, path_view(k@)),
                decreases r.len() - a,
            {
                if path_eq(&r[a], &k) {
                    found = true;
                    assert(path_view(r@[a as int]@) == path_view(k@));
                }
                a = a + 1;
            }
            if !found {
                let ghost r0 = r@;
                r.push(k);
                assert(r@[r0.len() as int] == k);
                assert forall|a: int| 0 <= a < r.len() implies way_in_paths(paths@, s@, path_view(#[trigger] r@[a]@)) by {
                    if a < r0.len() {
                        assert(r@[a] == r0[a]);
                    } else {
                        assert(path_view(paths@[j as int]@).contains(s@));
                    }
                }
                assert forall|jj: int| 0 <= jj <= j && (#[trigger] path_view(paths@[jj]@)).contains(s@) implies
                    way_listed(r@, way_key(path_view(paths@[jj]@), s@)) by {
                    if jj < j {
                        let b = choose|b: int| 0 <= b < r0.len() && path_view(r0[b]@) == way_key(path_view(paths@[jj]@), s@);
                        assert(r@[b] == r0[b]);
                    } else {
                        assert(path_view(r@[r0.len() as int]@) == way_key(path_view(paths@[jj]@), s@));
                    }
                }
            }
        }
        j = j + 1;
    }
    r
}

/// Whether some of the first `n` ways in `ks` is `w`.
pub open spec fn among_ways(ks: Seq<Vec<&'static str>>, n: int, w: Seq<Seq<char>>) -> bool {
    exists|b: int| 0 <= b < n && path_view(ks[b]@) == w
}

/// Whether some of the first `n` labels in `ks` is `s`.
pub open spec fn among_labels(ks: Seq<&'static str>, n: int, s: Seq<char>) -> bool {
    exists|b: int| 0 <= b < n && ks[b]@ == s
}

proof fn lemma_bridge(paths: Seq<Vec<&'static str>>, times: Seq<u64>, counts: Seq<u64>)
    requires
        paths.len() == times.len(),
        paths.len() == counts.len(),
    ensures
        forall|s: Seq<char>| #[trigger] occurs(entries_of(paths, times, counts), s) <==> in_paths(paths, s),
        forall|s: Seq<char>, w: Seq<Seq<char>>| #[trigger] reaches(entries_of(paths, times, counts), s, w)
            <==> way_in_paths(paths, s, w),
{
    let es = entries_of(paths, times, counts);
    assert forall|s: Seq<char>| #[trigger] occurs(es, s) <==> in_paths(paths, s) by {
        if occurs(es, s) {
            let j = choose|j: int| 0 <= j < es.len() && es[j].0.contains(s);
            assert(es[j].0 == path_view(paths[j]@));
        }
        if in_paths(paths, s) {
            let j = choose|j: int| 0 <= j < paths.len() && path_view(paths[j]@).contains(s);
            assert(es[j].0 == path_view(paths[j]@));
        }
    }
    assert forall|s: Seq<char>, w: Seq<Seq<char>>| #[trigger] reaches(es, s, w) <==> way_in_paths(paths, s, w) by {
        if reaches(es, s, w) {
            let j = choose|j: int| 0 <= j < es.len() && es[j].0.contains(s) && way_key(es[j].0, s) == w;
            assert(es[j].0 == path_view(paths[j]@));
        }
        if way_in_paths(paths, s, w) {
            let j = choose|j: int| 0 <= j < paths.len() && path_view(paths[j]@).contains(s)
                && way_key(path_view(paths[j]@), s) == w;
            assert(es[j].0 == path_view(paths[j]@));
        }
    }
}

proof fn lemma_ways_insert(o: Seq<Entry>, i: int, x: Entry)
    requires
        0 <= i <= o.len(),
        forall|a: int, b: int| 0 <= a < o.len() && 0 <= b < o.len() && a != b ==> o[a].0 != o[b].0,
        forall|a: int| 0 <= a < o.len() ==> o[a].0 != x.0,
    ensures
        forall|a: int, b: int| 0 <= a < o.len() + 1 && 0 <= b < o.len() + 1 && a != b
            ==> o.insert(i, x)[a].0 != o.insert(i, x)[b].0,
        forall|a: int| 0 <= a < o.len() + 1 ==> #[trigger] o.insert(i, x)[a] == x || o.contains(o.insert(i, x)[a]),
        forall|w: Seq<Seq<char>>| has_way(o, w) ==> #[trigger] has_way(o.insert(i, x), w),
        has_way(o.insert(i, x), x.0),
{
    o.insert_ensures(i, x);
    let n = o.insert(i, x);
    assert forall|a: int| 0 <= a < o.len() + 1 implies #[trigger] n[a] == x || o.contains(n[a]) by {
        if a < i {
            assert(n[a] == o[a]);
        } else if a > i {
            assert(n[a] == o[a - 1]);
        }
    }
    assert forall|a: int, b: int| 0 <= a < o.len() + 1 && 0 <= b < o.len() + 1 && a != b implies n[a].0 != n[b].0 by {
        let ia = if a < i { a } else { a - 1 };
        let ib = if b < i { b } else { b - 1 };
        if a != i && b != i {
            assert(n[a] == o[ia] && n[b] == o[ib]);
        } else if a == i {
            assert(n[b] == o[ib]);
        } else {
            assert(n[a] == o[ia]);
        }
    }
    assert forall|w: Seq<Seq<char>>| has_way(o, w) implies #[trigger] has_way(n, w) by {
        let c = choose|c: int| 0 <= c < o.len() && o[c].0 == w;
        if c < i {
            assert(n[c] == o[c]);
        } else {
            assert(n[c + 1] == o[c]);
        }
    }
    assert(n[i] == x);
}

proof fn lemma_labels_insert(o: Seq<LabelV>, i: int, x: LabelV)
    requires
        0 <= i <= o.len(),
        forall|a: int, b: int| 0 <= a < o.len() && 0 <= b < o.len() && a != b ==> o[a].0 != o[b].0,
        forall|a: int| 0 <= a < o.len() ==> o[a].0 != x.0,
    ensures
        forall|a: int, b: int| 0 <= a < o.len() + 1 && 0 <= b < o.len() + 1 && a != b
            ==> o.insert(i, x)[a].0 != o.insert(i, x)[b].0,
        forall|a: int| 0 <= a < o.len() + 1 ==> #[trigger] o.insert(i, x)[a] == x || o.contains(o.insert(i, x)[a]),
        forall|s: Seq<char>| has_label(o, s) ==> #[trigger] has_label(o.insert(i, x), s),
        has_label(o.insert(i, x), x.0),
{
    o.insert_ensures(i, x);
    let n = o.insert(i, x);
    assert forall|a: int| 0 <= a < o.len() + 1 implies #[trigger] n[a] == x || o.contains(n[a]) by {
        if a < i {
            assert(n[a] == o[a]);
        } else if a > i {
            assert(n[a] == o[a - 1]);
        }
    }
    assert forall|a: int, b: int| 0 <= a < o.len() + 1 && 0 <= b < o.len() + 1 && a != b implies n[a].0 != n[b].0 by {
        let ia = if a < i { a } else { a - 1 };
        let ib = if b < i { b } else { b - 1 };
        if a != i && b != i {
            assert(n[a] == o[ia] && n[b] == o[ib]);
        } else if a == i {
            assert(n[b] == o[ib]);
        } else {
            assert(n[a] == o[ia]);
        }
    }
    assert forall|s: Seq<char>| has_label(o, s) implies #[trigger] has_label(n, s) by {
        let c = choose|c: int| 0 <= c < o.len() && o[c].0 == s;
        if c < i {
            assert(n[c] == o[c]);
        } else {
            assert(n[c + 1] == o[c]);
        }
    }
    assert(n[i] == x);
}

/// The ways of label `s`, each once, sorted, with their time and starts.
fn ways_for(paths: &Vec<Vec<&'static str>>, times: &Vec<u64>, counts: &Vec<u64>, s: &'static str) -> (r: Vec<WayLine>)
    requires
        paths.len() == times.len(),
        paths.len() == counts.len(),
        total_time(entries_of(paths@, times@, counts@)) <= u64::MAX,
        total_count(entries_of(paths@, times@, counts@)) <= u64::MAX,
    ensures
        ways_ok(entries_of(paths@, times@, counts@), s@, ways_view(r@)),
{
    let ghost es = entries_of(paths@, times@, counts@);
    proof {
        lemma_bridge(paths@, times@, counts@);
    }
    let keys = distinct_ways(paths, s);
    let mut ways: Vec<WayLine> = Vec::new();
    let mut b: usize = 0;
    while b < keys.len()
        invariant
            es == entries_of(paths@, times@, counts@),
            paths.len() == times.len(),
            paths.len() == counts.len(),
            total_time(es) <= u64::MAX,
            total_count(es) <= u64::MAX,
            forall|s2: Seq<char>, w: Seq<Seq<char>>| #[trigger] reaches(es, s2, w) <==> way_in_paths(paths@, s2, w),
            forall|a: int, c: int| 0 <= a < keys.len() && 0 <= c < keys.len() && a != c ==> path_view(keys@[a]@) != path_view(keys@[c]@),
            forall|a: int| 0 <= a < keys.len() ==> way_in_paths(paths@, s@, path_view(#[trigger] keys@[a]@)),
            b <= keys.len(),
            ways_sorted(ways_view(ways@)),
            forall|a: int, c: int| 0 <= a < ways.len() && 0 <= c < ways.len() && a != c ==> ways_view(ways@)[a].0 != ways_view(ways@)[c].0,
            forall|a: int| 0 <= a < ways.len() ==> way_ok(es, s@, #[trigger] ways_view(ways@)[a]),
            forall|a: int| 0 <= a < ways.len() ==> among_ways(keys@, b as int, (#[trigger] ways_view(ways@)[a]).0),
            forall|c: int| 0 <= c < b ==> has_way(ways_view(ways@), path_view(#[trigger] keys@[c]@)),
        decreases keys.len() - b,
    {
        let (t, c) = way_sums(paths, times, counts, s, &keys[b]);
        let x = WayLine { path: keys[b].clone(), time: t, count: c };
        let ghost o = ways_view(ways@);
        let ghost xv = way_view(x);
        proof {
            assert(xv.0 == path_view(keys@[b as int]@));
            assert forall|a: int| 0 <= a < ways@.len() implies path_view(ways@[a].path@) != path_view(x.path@) by {
                assert(o[a] == way_view(ways@[a]));
                let c = choose|c: int| 0 <= c < b && path_view(keys@[c]@) == o[a].0;
            }
            assert(reaches(es, s@, xv.0));
        }
        let i = insert_way(&mut ways, x);
        proof {
            let n = ways_view(ways@);
            assert forall|a: int| 0 <= a < o.len() implies o[a].0 != xv.0 by {
                let c = choose|c: int| 0 <= c < b && path_view(keys@[c]@) == o[a].0;
            }
            lemma_ways_insert(o, i as int, xv);
            assert forall|a: int| 0 <= a < n.len() implies way_ok(es, s@, #[trigger] n[a])
                && among_ways(keys@, b as int + 1, n[a].0) by {
                if n[a] != xv {
                    let c = choose|c: int| 0 <= c < o.len() && o[c] == n[a];
                    assert(way_ok(es, s@, o[c]));
                    assert(among_ways(keys@, b as int, o[c].0));
                    let d = choose|d: int| 0 <= d < b && path_view(keys@[d]@) == o[c].0;
                    assert(among_ways(keys@, b as int + 1, n[a].0));
                } else {
                    assert(path_view(keys@[b as int]@) == n[a].0);
                }
            }
            assert forall|c: int| 0 <= c < b + 1 implies has_way(n, path_view(#[trigger] keys@[c]@)) by {
                if c < b {
                    assert(has_way(o, path_view(keys@[c]@)));
                }
            }
        }
        b = b + 1;
    }
    proof {
        let n = ways_view(ways@);
        assert forall|w: Seq<Seq<char>>| #[trigger] reaches(es, s@, w) implies has_way(n, w) by {
            assert(way_in_paths(paths@, s@, w));
            let j = choose|j: int| 0 <= j < paths.len() && path_view(paths@[j]@).contains(s@)
                && way_key(path_view(paths@[j]@), s@) == w;
            assert(way_listed(keys@, way_key(path_view(paths@[j]@), s@)));
            let a = choose|a: int| 0 <= a < keys.len() && path_view(keys@[a]@) == w;
            assert(has_way(n, path_view(keys@[a]@)));
        }
    }
    ways
}

/// Every label of the recorded paths, once each, sorted by descending cumulative time
/// (equal times by label order), with its cumulative time and starts and its ways.
pub fn summarize(paths: &Vec<Vec<&'static str>>, times: &Vec<u64>, counts: &Vec<u64>) -> (r: Vec<LabelLine>)
    requires
        paths.len() == times.len(),
        paths.len() == counts.len(),
        total_time(entries_of(paths@, times@, counts@)) <= u64::MAX,
        total_count(entries_of(paths@, times@, counts@)) <= u64::MAX,
    ensures
        is_summary(entries_of(paths@, times@, counts@), lines_view(r@)),
{
    let ghost es = entries_of(paths@, times@, counts@);
    proof {
        lemma_bridge(paths@, times@, counts@);
    }
    let keys = distinct_labels(paths);
    let mut out: Vec<LabelLine> = Vec::new();
    let mut b: usize = 0;
    while b < keys.len()
        invariant
            es == entries_of(paths@, times@, counts@),
            paths.len() == times.len(),
            paths.len() == counts.len(),
            total_time(es) <= u64::MAX,
            total_count(es) <= u64::MAX,
            forall|s2: Seq<char>| #[trigger] occurs(es, s2) <==> in_paths(paths@, s2),
            forall|a: int, c: int| 0 <= a < keys.len() && 0 <= c < keys.len() && a != c ==> keys@[a]@ != keys@[c]@,
            forall|a: int| 0 <= a < keys.len() ==> in_paths(paths@, #[trigger] keys@[a]@),
            b <= keys.len(),
            labels_sorted(lines_view(out@)),
            forall|a: int, c: int| 0 <= a < out.len() && 0 <= c < out.len() && a != c ==> lines_view(out@)[a].0 != lines_view(out@)[c].0,
            forall|a: int| 0 <= a < out.len() ==> line_ok(es, #[trigger] lines_view(out@)[a]),
            forall|a: int| 0 <= a < out.len() ==> among_labels(keys@, b as int, (#[trigger] lines_view(out@)[a]).0),
            forall|c: int| 0 <= c < b ==> has_label(lines_view(out@), (#[trigger] keys@[c])@),
        decreases keys.len() - b,
    {
        let s = keys[b];
        let (t, c) = cumulate(paths, times, counts, s);
        let ways = ways_for(paths, times, counts, s);
        let x = LabelLine { label: s, time: t, count: c, ways };
        let ghost o = lines_view(out@);
        let ghost xv = label_view(x);
        proof {
            assert(xv.0 == keys@[b as int]@);
            assert forall|a: int| 0 <= a < out@.len() implies out@[a].label@ != x.label@ by {
                assert(o[a] == label_view(out@[a]));
                let c = choose|c: int| 0 <= c < b && keys@[c]@ == o[a].0;
            }
            assert(occurs(es, xv.0));
            assert(line_ok(es, xv));
        }
        let i = insert_label(&mut out, x);
        proof {
            let n = lines_view(out@);
            assert forall|a: int| 0 <= a < o.len() implies o[a].0 != xv.0 by {
                let c = choose|c: int| 0 <= c < b && keys@[c]@ == o[a].0;
            }
            lemma_labels_insert(o, i as int, xv);
            assert forall|a: int| 0 <= a < n.len() implies line_ok(es, #[trigger] n[a])
                && among_labels(keys@, b as int + 1, n[a].0) by {
                if n[a] != xv {
                    let c = choose|c: int| 0 <= c < o.len() && o[c] == n[a];
                    assert(line_ok(es, o[c]));
                    assert(among_labels(keys@, b as int, o[c].0));
                    let d = choose|d: int| 0 <= d < b && keys@[d]@ == o[c].0;
                    assert(among_labels(keys@, b as int + 1, n[a].0));
                } else {
                    assert(keys@[b as int]@ == n[a].0);
                }
            }
            assert forall|c: int| 0 <= c < b + 1 implies has_label(n, (#[trigger] keys@[c])@) by {
                if c < b {
                    assert(has_label(o, keys@[c]@));
                }
            }
        }
        b = b + 1;
    }
    proof {
        let n = lines_view(out@);
        assert forall|s2: Seq<char>| #[trigger] occurs(es, s2) implies has_label(n, s2) by {
            assert(in_paths(paths@, s2));
            let j = choose|j: int| 0 <= j < paths.len() && path_view(paths@[j]@).contains(s2);
            let m = choose|m: int| 0 <= m < path_view(paths@[j]@).len() && path_view(paths@[j]@)[m] == s2;
            assert(path_view(paths@[j]@)[m] == paths@[j]@[m]@);
            assert(listed(keys@, paths@[j]@[m]@));
            let a = choose|a: int| 0 <= a < keys.len() && keys@[a]@ == s2;
            assert(has_label(n, keys@[a]@));
        }
    }
    out
}

} // verus!
