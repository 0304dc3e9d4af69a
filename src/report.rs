//! The report: every pending interval committed, then the breakdown by label and way.
use vstd::prelude::*;
use crate::profile::{Profile, elapsed, later};
use crate::tally::{occurs, Entry, entries_of, sum_of, total_time, time_all, lemma_sum_take, lemma_sum_prefix_le};
use crate::summary::{summarize, is_summary, line_ok, lines_view, LabelV};
use crate::render::{render, report_text};

verus! {

/// The text of a report on `p`'s entries: `ls` is their summary.
pub open spec fn reports(p: Profile, ls: Seq<LabelV>, text: Seq<char>) -> bool {
    &&& is_summary(p.entries(), ls)
    &&& text == report_text(ls, total_time(p.entries()))
}

/// Commits the time since the last commit, then returns the breakdown of all recorded
/// time: one block per label, by descending cumulative time, with percentages of
/// the total recorded time.
pub fn report(p: &mut Profile, now: u64) -> (r: String)
    requires
        old(p).wf(),
    ensures
        final(p).wf(),
        final(p).active() == old(p).active(),
        forall|q: Seq<Seq<char>>| #[trigger] final(p).time_of(q) == old(p).time_of(q) + (
        if q == old(p).active() { elapsed(old(p).last_commit(), now as nat) } else { 0 }),
        forall|q: Seq<Seq<char>>| #[trigger] final(p).count_of(q) == old(p).count_of(q),
        final(p).last_commit() == later(old(p).last_commit(), now as nat),
        final(p).events() == old(p).events(),
        final(p).cleared_at() == old(p).cleared_at(),
        exists|ls: Seq<LabelV>| reports(*final(p), ls, r@),
        old(p).is_cleared() ==> r@.len() == 0,
{
    p.add_time(now);
    let (paths, times, counts) = p.records();
    let ls = summarize(paths, times, counts);
    let ghost es = entries_of(paths@, times@, counts@);
    let mut total: u64 = 0;
    let mut i: usize = 0;
    assert(es.take(0) =~= Seq::<Entry>::empty());
    while i < times.len()
        invariant
            es == entries_of(paths@, times@, counts@),
            paths.len() == times.len(),
            paths.len() == counts.len(),
            i <= times.len(),
            total_time(es) <= u64::MAX,
            total == sum_of(es.take(i as int), time_all()),
        decreases times.len() - i,
    {
        proof {
            lemma_sum_take(es, i as int, time_all());
            lemma_sum_prefix_le(es, i as int + 1, time_all());
        }
        total = total + times[i];
        i = i + 1;
    }
    assert(es.take(i as int) =~= es);
    let r = render(&ls, total);
    assert(reports(*p, lines_view(ls@), r@));
    proof {
        if old(p).is_cleared() && ls.len() > 0 {
            let l0 = lines_view(ls@)[0];
            assert(line_ok(p.entries(), l0));
            assert(occurs(p.entries(), l0.0));
        }
    }
    r
}

} // verus!
