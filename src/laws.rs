//! Properties that relate several operations of the profiler.
use vstd::prelude::*;
use crate::profile::Profile;
use crate::tally::{
    Entry, sum_of, occurs, total_time, time_with, count_with, time_by, count_by, time_all,
};
use crate::summary::{
    LabelV, is_summary, line_ok, ways_ok, way_ok, way_before, label_before, has_way, has_label,
    reaches, lemma_way_before_order, lemma_label_before_order,
};
use crate::render::report_text;

verus! {

/// Clearing twice in a row leaves what clearing once leaves: any two states cleared
/// at the same time agree on everything recorded, the active path, the last commit
/// and the number of starts.
pub proof fn lemma_clear_idempotent(once: Profile, twice: Profile, now: nat)
    requires
        once.is_fresh(now),
        twice.is_fresh(now),
    ensures
        once.entries() == twice.entries(),
        once.active() == twice.active(),
        once.last_commit() == twice.last_commit(),
        once.events() == twice.events(),
        forall|q: Seq<Seq<char>>| #[trigger] once.time_of(q) == twice.time_of(q),
        forall|q: Seq<Seq<char>>| #[trigger] once.count_of(q) == twice.count_of(q),
{
    assert(once.entries() =~= twice.entries());
    assert(once.active() =~= twice.active());
}

proof fn lemma_sum_remove(s: Seq<Entry>, j: int, f: spec_fn(Entry) -> nat)
    requires
        0 <= j < s.len(),
    ensures
        sum_of(s, f) == sum_of(s.remove(j), f) + f(s[j]),
    decreases s.len(),
{
    if j == s.len() - 1 {
        assert(s.remove(j) =~= s.drop_last());
    } else {
        lemma_sum_remove(s.drop_last(), j, f);
        assert(s.remove(j).drop_last() =~= s.drop_last().remove(j));
        assert(s.remove(j).last() == s.last());
    }
}

/// A sum over the entries does not depend on their order.
proof fn lemma_sum_perm(s1: Seq<Entry>, s2: Seq<Entry>, f: spec_fn(Entry) -> nat)
    requires
        s1.to_multiset() == s2.to_multiset(),
    ensures
        sum_of(s1, f) == sum_of(s2, f),
    decreases s1.len(),
{
    broadcast use vstd::seq_lib::group_to_multiset_ensures;

    if s1.len() == 0 {
        assert(s2.to_multiset().len() == 0);
    } else {
        let x = s1.last();
        let r1 = s1.drop_last();
        assert(r1.push(x) =~= s1);
        assert(s1.to_multiset() =~= r1.to_multiset().insert(x));
        assert(s2.to_multiset().count(x) > 0);
        assert(s2.contains(x));
        let j = choose|j: int| 0 <= j < s2.len() && s2[j] == x;
        assert(s2.remove(j).to_multiset() =~= s2.to_multiset().remove(x));
        assert(r1.to_multiset() =~= r1.to_multiset().insert(x).remove(x));
        lemma_sum_perm(r1, s2.remove(j), f);
        lemma_sum_remove(s2, j, f);
    }
}

proof fn lemma_sorted_unique<A>(l1: Seq<A>, l2: Seq<A>, before: spec_fn(A, A) -> bool)
    requires
        forall|a: int, b: int| 0 <= a < b < l1.len() ==> before(l1[a], l1[b]),
        forall|a: int, b: int| 0 <= a < b < l2.len() ==> before(l2[a], l2[b]),
        forall|x: A, y: A| #[trigger] before(x, y) ==> !before(y, x),
        forall|x: A| l1.contains(x) <==> l2.contains(x),
    ensures
        l1 == l2,
    decreases l1.len(),
{
    if l1.len() == 0 {
        if l2.len() > 0 {
            assert(l2.contains(l2[0]));
        }
        assert(l1 =~= l2);
    } else {
        assert(l1.contains(l1[0]));
        let k = choose|k: int| 0 <= k < l2.len() && l2[k] == l1[0];
        assert(l2.contains(l2[0]));
        let m = choose|m: int| 0 <= m < l1.len() && l1[m] == l2[0];
        if k > 0 && m > 0 {
            assert(before(l2[0], l2[k]));
            assert(before(l1[0], l1[m]));
        }
        assert(l1[0] == l2[0]);
        let x = l1[0];
        let t1 = l1.drop_first();
        let t2 = l2.drop_first();
        assert forall|z: A| t1.contains(z) <==> t2.contains(z) by {
            if t1.contains(z) {
                let i = choose|i: int| 0 <= i < t1.len() && t1[i] == z;
                assert(l1[i + 1] == z);
                assert(l2.contains(z));
                let i2 = choose|i2: int| 0 <= i2 < l2.len() && l2[i2] == z;
                if i2 == 0 {
                    assert(before(l1[0], l1[i + 1]));
                }
                assert(t2[i2 - 1] == z);
            }
            if t2.contains(z) {
                let i = choose|i: int| 0 <= i < t2.len() && t2[i] == z;
                assert(l2[i + 1] == z);
                assert(l1.contains(z));
                let i1 = choose|i1: int| 0 <= i1 < l1.len() && l1[i1] == z;
                if i1 == 0 {
                    assert(before(l2[0], l2[i + 1]));
                }
                assert(t1[i1 - 1] == z);
            }
        }
        assert forall|a: int, b: int| 0 <= a < b < t1.len() implies before(t1[a], t1[b]) by {
            assert(before(l1[a + 1], l1[b + 1]));
        }
        assert forall|a: int, b: int| 0 <= a < b < t2.len() implies before(t2[a], t2[b]) by {
            assert(before(l2[a + 1], l2[b + 1]));
        }
        lemma_sorted_unique(t1, t2, before);
        assert(l1 =~= seq![x] + t1);
        assert(l2 =~= seq![x] + t2);
    }
}

proof fn lemma_ways_unique(es: Seq<Entry>, s: Seq<char>, w1: Seq<Entry>, w2: Seq<Entry>)
    requires
        ways_ok(es, s, w1),
        ways_ok(es, s, w2),
    ensures
        w1 == w2,
{
    let before = |a: Entry, b: Entry| way_before(a, b);
    assert forall|x: Entry, y: Entry| #[trigger] before(x, y) implies !before(y, x) by {
        lemma_way_before_order(x, y, x);
    }
    assert forall|x: Entry| w1.contains(x) implies w2.contains(x) by {
        let i = choose|i: int| 0 <= i < w1.len() && w1[i] == x;
        assert(way_ok(es, s, w1[i]));
        assert(has_way(w2, x.0));
        let a = choose|a: int| 0 <= a < w2.len() && w2[a].0 == x.0;
        assert(way_ok(es, s, w2[a]));
        assert(w2[a] == x);
    }
    assert forall|x: Entry| w2.contains(x) implies w1.contains(x) by {
        let i = choose|i: int| 0 <= i < w2.len() && w2[i] == x;
        assert(way_ok(es, s, w2[i]));
        assert(has_way(w1, x.0));
        let a = choose|a: int| 0 <= a < w1.len() && w1[a].0 == x.0;
        assert(way_ok(es, s, w1[a]));
        assert(w1[a] == x);
    }
    lemma_sorted_unique(w1, w2, before);
}

/// The recorded entries determine their summary: there is exactly one order of
/// labels, and of ways under each label, that a report can follow.
pub proof fn lemma_summary_unique(es: Seq<Entry>, ls1: Seq<LabelV>, ls2: Seq<LabelV>)
    requires
        is_summary(es, ls1),
        is_summary(es, ls2),
    ensures
        ls1 == ls2,
{
    let before = |a: LabelV, b: LabelV| label_before(a, b);
    assert forall|x: LabelV, y: LabelV| #[trigger] before(x, y) implies !before(y, x) by {
        lemma_label_before_order(x, y, x);
    }
    assert forall|x: LabelV| ls1.contains(x) implies ls2.contains(x) by {
        let i = choose|i: int| 0 <= i < ls1.len() && ls1[i] == x;
        assert(line_ok(es, ls1[i]));
        assert(has_label(ls2, x.0));
        let a = choose|a: int| 0 <= a < ls2.len() && ls2[a].0 == x.0;
        assert(line_ok(es, ls2[a]));
        lemma_ways_unique(es, x.0, x.3, ls2[a].3);
        assert(ls2[a] == x);
    }
    assert forall|x: LabelV| ls2.contains(x) implies ls1.contains(x) by {
        let i = choose|i: int| 0 <= i < ls2.len() && ls2[i] == x;
        assert(line_ok(es, ls2[i]));
        assert(has_label(ls1, x.0));
        let a = choose|a: int| 0 <= a < ls1.len() && ls1[a].0 == x.0;
        assert(line_ok(es, ls1[a]));
        lemma_ways_unique(es, x.0, x.3, ls1[a].3);
        assert(ls1[a] == x);
    }
    lemma_sorted_unique(ls1, ls2, before);
}

/// A report depends on the recorded (path, time, starts) entries alone, not on the
/// order in which they were recorded: the same entries in any order give the same
/// lines in the same order, with ways sorted by descending time.
pub proof fn lemma_report_ignores_record_order(
    es1: Seq<Entry>,
    es2: Seq<Entry>,
    ls1: Seq<LabelV>,
    ls2: Seq<LabelV>,
)
    requires
        es1.to_multiset() == es2.to_multiset(),
        is_summary(es1, ls1),
        is_summary(es2, ls2),
    ensures
        ls1 == ls2,
        report_text(ls1, total_time(es1)) == report_text(ls2, total_time(es2)),
{
    broadcast use vstd::seq_lib::group_to_multiset_ensures;

    lemma_sum_perm(es1, es2, time_all());
    assert forall|e: Entry| es1.contains(e) <==> es2.contains(e) by {
        vstd::seq_lib::to_multiset_contains(es1, e);
        vstd::seq_lib::to_multiset_contains(es2, e);
    }
    assert forall|s: Seq<char>| #[trigger] occurs(es1, s) <==> occurs(es2, s) by {
        if occurs(es1, s) {
            let j = choose|j: int| 0 <= j < es1.len() && es1[j].0.contains(s);
            assert(es1.contains(es1[j]));
            let k = choose|k: int| 0 <= k < es2.len() && es2[k] == es1[j];
        }
        if occurs(es2, s) {
            let j = choose|j: int| 0 <= j < es2.len() && es2[j].0.contains(s);
            assert(es2.contains(es2[j]));
            let k = choose|k: int| 0 <= k < es1.len() && es1[k] == es2[j];
        }
    }
    assert forall|s: Seq<char>, w: Seq<Seq<char>>| #[trigger] reaches(es1, s, w) <==> reaches(es2, s, w) by {
        if reaches(es1, s, w) {
            let j = choose|j: int| 0 <= j < es1.len() && es1[j].0.contains(s) && crate::labels::way_key(es1[j].0, s) == w;
            assert(es1.contains(es1[j]));
            let k = choose|k: int| 0 <= k < es2.len() && es2[k] == es1[j];
        }
        if reaches(es2, s, w) {
            let j = choose|j: int| 0 <= j < es2.len() && es2[j].0.contains(s) && crate::labels::way_key(es2[j].0, s) == w;
            assert(es2.contains(es2[j]));
            let k = choose|k: int| 0 <= k < es1.len() && es1[k] == es2[j];
        }
    }
    assert forall|a: int| 0 <= a < ls2.len() implies line_ok(es1, #[trigger] ls2[a]) by {
        let l = ls2[a];
        assert(line_ok(es2, l));
        lemma_sum_perm(es1, es2, time_with(l.0));
        lemma_sum_perm(es1, es2, count_with(l.0));
        assert forall|i: int| 0 <= i < l.3.len() implies way_ok(es1, l.0, #[trigger] l.3[i]) by {
            assert(way_ok(es2, l.0, l.3[i]));
            lemma_sum_perm(es1, es2, time_by(l.0, l.3[i].0));
            lemma_sum_perm(es1, es2, count_by(l.0, l.3[i].0));
        }
        assert forall|w: Seq<Seq<char>>| #[trigger] reaches(es1, l.0, w) implies has_way(l.3, w) by {
            assert(reaches(es2, l.0, w));
        }
    }
    assert forall|s: Seq<char>| #[trigger] occurs(es1, s) implies has_label(ls2, s) by {
        assert(occurs(es2, s));
    }
    assert(is_summary(es1, ls2));
    lemma_summary_unique(es1, ls1, ls2);
}

} // verus!
