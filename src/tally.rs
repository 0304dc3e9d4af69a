//! Sums over the recorded entries of a profile.
use vstd::prelude::*;
use crate::labels::{path_view, way_key};

verus! {

/// One recorded path with its total time (in nanoseconds) and its number of starts.
pub type Entry = (Seq<Seq<char>>, nat, nat);

/// The entries held by three parallel vectors.
pub open spec fn entries_of(paths: Seq<Vec<&'static str>>, times: Seq<u64>, counts: Seq<u64>) -> Seq<Entry> {
    Seq::new(paths.len(), |i: int| (path_view(paths[i]@), times[i] as nat, counts[i] as nat))
}

pub open spec fn sum_of(s: Seq<Entry>, f: spec_fn(Entry) -> nat) -> nat
    decreases s.len(),
{
    if s.len() == 0 {
        0
    } else {
        sum_of(s.drop_last(), f) + f(s.last())
    }
}

/// The time of an entry whose path is exactly `k`.
pub open spec fn time_at(k: Seq<Seq<char>>) -> spec_fn(Entry) -> nat {
    |e: Entry| if e.0 == k { e.1 } else { 0 }
}

/// The starts of an entry whose path is exactly `k`.
pub open spec fn count_at(k: Seq<Seq<char>>) -> spec_fn(Entry) -> nat {
    |e: Entry| if e.0 == k { e.2 } else { 0 }
}

pub open spec fn time_all() -> spec_fn(Entry) -> nat {
    |e: Entry| e.1
}

pub open spec fn count_all() -> spec_fn(Entry) -> nat {
    |e: Entry| e.2
}

/// The time of an entry whose path contains label `s`.
pub open spec fn time_with(s: Seq<char>) -> spec_fn(Entry) -> nat {
    |e: Entry| if e.0.contains(s) { e.1 } else { 0 }
}

/// The starts of an entry whose path contains label `s`.
pub open spec fn count_with(s: Seq<char>) -> spec_fn(Entry) -> nat {
    |e: Entry| if e.0.contains(s) { e.2 } else { 0 }
}

/// The time of an entry whose path reaches label `s` by the way `w`.
pub open spec fn time_by(s: Seq<char>, w: Seq<Seq<char>>) -> spec_fn(Entry) -> nat {
    |e: Entry| if e.0.contains(s) && way_key(e.0, s) == w { e.1 } else { 0 }
}

/// The starts of an entry whose path reaches label `s` by the way `w`.
pub open spec fn count_by(s: Seq<char>, w: Seq<Seq<char>>) -> spec_fn(Entry) -> nat {
    |e: Entry| if e.0.contains(s) && way_key(e.0, s) == w { e.2 } else { 0 }
}

/// Time recorded for exactly the path `k`.
pub open spec fn time_in(es: Seq<Entry>, k: Seq<Seq<char>>) -> nat {
    sum_of(es, time_at(k))
}

/// Starts recorded for exactly the path `k`.
pub open spec fn count_in(es: Seq<Entry>, k: Seq<Seq<char>>) -> nat {
    sum_of(es, count_at(k))
}

pub open spec fn total_time(es: Seq<Entry>) -> nat {
    sum_of(es, time_all())
}

pub open spec fn total_count(es: Seq<Entry>) -> nat {
    sum_of(es, count_all())
}

/// Time of every path that contains label `s`.
pub open spec fn cum_time(es: Seq<Entry>, s: Seq<char>) -> nat {
    sum_of(es, time_with(s))
}

/// Starts of every path that contains label `s`.
pub open spec fn cum_count(es: Seq<Entry>, s: Seq<char>) -> nat {
    sum_of(es, count_with(s))
}

/// Time of every path that contains `s` and reaches it by the way `w`.
pub open spec fn way_time(es: Seq<Entry>, s: Seq<char>, w: Seq<Seq<char>>) -> nat {
    sum_of(es, time_by(s, w))
}

/// Starts of every path that contains `s` and reaches it by the way `w`.
pub open spec fn way_count(es: Seq<Entry>, s: Seq<char>, w: Seq<Seq<char>>) -> nat {
    sum_of(es, count_by(s, w))
}

/// Whether label `s` occurs in some recorded path.
pub open spec fn occurs(es: Seq<Entry>, s: Seq<char>) -> bool {
    exists|j: int| 0 <= j < es.len() && es[j].0.contains(s)
}

/// No two entries share a path.
pub open spec fn distinct_paths(s: Seq<Entry>) -> bool {
    forall|i: int, j: int| 0 <= i < s.len() && 0 <= j < s.len() && i != j ==> s[i].0 != s[j].0
}

pub proof fn lemma_sum_push(s: Seq<Entry>, e: Entry, f: spec_fn(Entry) -> nat)
    ensures
        sum_of(s.push(e), f) == sum_of(s, f) + f(e),
{
    assert(s.push(e).drop_last() =~= s);
}

pub proof fn lemma_sum_update(s: Seq<Entry>, i: int, e: Entry, f: spec_fn(Entry) -> nat)
    requires
        0 <= i < s.len(),
    ensures
        sum_of(s.update(i, e), f) + f(s[i]) == sum_of(s, f) + f(e),
    decreases s.len(),
{
    if i == s.len() - 1 {
        assert(s.update(i, e).drop_last() =~= s.drop_last());
    } else {
        lemma_sum_update(s.drop_last(), i, e, f);
        assert(s.update(i, e).drop_last() =~= s.drop_last().update(i, e));
    }
}

pub proof fn lemma_sum_le(s: Seq<Entry>, f: spec_fn(Entry) -> nat, g: spec_fn(Entry) -> nat)
    requires
        forall|i: int| 0 <= i < s.len() ==> f(s[i]) <= g(s[i]),
    ensures
        sum_of(s, f) <= sum_of(s, g),
    decreases s.len(),
{
    if s.len() > 0 {
        lemma_sum_le(s.drop_last(), f, g);
    }
}

/// One summand never exceeds the sum.
pub proof fn lemma_sum_ge_at(s: Seq<Entry>, i: int, f: spec_fn(Entry) -> nat)
    requires
        0 <= i < s.len(),
    ensures
        f(s[i]) <= sum_of(s, f),
    decreases s.len(),
{
    if i < s.len() - 1 {
        lemma_sum_ge_at(s.drop_last(), i, f);
    }
}

/// The sum over a prefix never exceeds the whole sum.
pub proof fn lemma_sum_prefix_le(s: Seq<Entry>, n: int, f: spec_fn(Entry) -> nat)
    requires
        0 <= n <= s.len(),
    ensures
        sum_of(s.take(n), f) <= sum_of(s, f),
    decreases s.len(),
{
    if n == s.len() {
        assert(s.take(n) =~= s);
    } else {
        lemma_sum_prefix_le(s.drop_last(), n, f);
        assert(s.drop_last().take(n) =~= s.take(n));
    }
}

/// The sum over a prefix, extended by one entry.
pub proof fn lemma_sum_take(s: Seq<Entry>, n: int, f: spec_fn(Entry) -> nat)
    requires
        0 <= n < s.len(),
    ensures
        sum_of(s.take(n + 1), f) == sum_of(s.take(n), f) + f(s[n]),
{
    assert(s.take(n + 1).drop_last() =~= s.take(n));
}

} // verus!
