//! Sums of token counts over days, projects and files.

use crate::clock::{earlier, instants_are_ordered, Timestamp};
use crate::table::{ascending, Key, Part, Table};
use crate::transcript::{
    count_at, counted, counts_of, day_counts, instant_of, last_use, no_tokens, project_at,
    project_counts, project_counts_of, Count, Filed, Line, ProjectCount, ProjectTotals, Totals,
};
use vstd::prelude::*;

verus! {

/// The tokens of the days from `lo` up to before `hi`.
pub open spec fn span_sum(m: Map<i32, Count>, lo: int, hi: int) -> nat
    decreases hi - lo,
{
    if hi <= lo {
        0
    } else {
        span_sum(m, lo, hi - 1) + count_at(m, (hi - 1) as i32).sum()
    }
}

pub(crate) proof fn lemma_span_gap(m: Map<i32, Count>, lo: int, mid: int, hi: int)
    requires
        lo <= mid <= hi,
        i32::MIN <= lo,
        hi <= i32::MAX + 1,
        forall|d: i32| mid <= d < hi ==> !(#[trigger] m.dom().contains(d)),
    ensures
        span_sum(m, lo, hi) == span_sum(m, lo, mid),
    decreases hi - mid,
{
    if mid < hi {
        lemma_span_gap(m, lo, mid, hi - 1);
        assert(!m.dom().contains((hi - 1) as i32));
    }
}

proof fn lemma_span_grows(m: Map<i32, Count>, lo: int, mid: int, hi: int)
    requires
        lo <= mid <= hi,
    ensures
        span_sum(m, lo, mid) <= span_sum(m, lo, hi),
    decreases hi - mid,
{
    if mid < hi {
        lemma_span_grows(m, lo, mid, hi - 1);
    }
}

pub(crate) proof fn lemma_span_split(m: Map<i32, Count>, lo: int, mid: int, hi: int)
    requires
        lo <= mid <= hi,
    ensures
        span_sum(m, lo, hi) == span_sum(m, lo, mid) + span_sum(m, mid, hi),
    decreases hi - mid,
{
    if mid < hi {
        lemma_span_split(m, lo, mid, hi - 1);
    }
}

/// `x`, moved into the range from `lo` to `hi`.
spec fn kept_within(x: int, lo: int, hi: int) -> int {
    if x < lo {
        lo
    } else if x > hi {
        hi
    } else {
        x
    }
}

/// The tokens of the days from `lo` up to before `hi`.
pub(crate) fn sum_between(t: &Table<i32, Totals>, lo: i64, hi: i64) -> (r: u64)
    requires
        i32::MIN <= lo <= hi <= i32::MAX + 1,
        span_sum(counts_of(t@), lo as int, hi as int) <= u64::MAX,
    ensures
        r == span_sum(counts_of(t@), lo as int, hi as int),
{
    match sum_within(t, lo, hi) {
        Some(sum) => sum,
        None => 0,
    }
}

/// The tokens of the days from `lo` up to before `hi`, where they fit in 64
/// bits.
pub(crate) fn sum_within(t: &Table<i32, Totals>, lo: i64, hi: i64) -> (r: Option<u64>)
    requires
        i32::MIN <= lo <= hi <= i32::MAX + 1,
    ensures
        match r {
            Some(sum) => sum == span_sum(counts_of(t@), lo as int, hi as int),
            None => span_sum(counts_of(t@), lo as int, hi as int) > u64::MAX,
        },
{
    let ghost m = counts_of(t@);
    let n: usize = t.len();
    let ghost keys = t.keys();
    let ghost end = |j: int| if j < keys.len() { keys[j] as int } else { hi as int };
    let mut total: u64 = 0;
    let mut j: usize = 0;
    proof {
        let stop = kept_within(end(0), lo as int, hi as int);
        assert forall|d: i32| lo <= d < stop implies !(#[trigger] m.dom().contains(d)) by {
            if m.dom().contains(d) {
                let k = keys.index_of(d);
                assert(keys[k] == d);
            }
        }
        lemma_span_gap(m, lo as int, lo as int, stop);
    }
    while j < n
        invariant
            j <= n,
            n == keys.len(),
            n == t.values().len(),
            keys == t.keys(),
            ascending::<i32>(keys),
            m == counts_of(t@),
            end == |j: int| if j < keys.len() { keys[j] as int } else { hi as int },
            i32::MIN <= lo <= hi <= i32::MAX + 1,
            total == span_sum(m, lo as int, kept_within(end(j as int), lo as int, hi as int)),
        decreases n - j,
    {
        let day: i32 = *t.key_at(j);
        let of_day = t.value_at(j);
        let ghost stop = kept_within(end(j + 1), lo as int, hi as int);
        proof {
            assert(count_at(m, day) == of_day@);
            assert forall|d: i32| lo <= d && day < d < stop implies !(#[trigger] m.dom().contains(
                d,
            )) by {
                if m.dom().contains(d) {
                    let k = keys.index_of(d);
                    assert(keys[k] == d);
                    assert(k > j);
                    assert(keys[j + 1] <= d);
                }
            }
        }
        if lo <= day as i64 && (day as i64) < hi {
            proof {
                assert(day < stop || stop == hi);
                assert(span_sum(m, lo as int, day + 1) == total + of_day@.sum());
                lemma_span_gap(m, lo as int, day + 1, stop);
                lemma_span_grows(m, lo as int, day + 1, hi as int);
            }
            let more: u64 = match of_day.checked_sum() {
                Some(sum) => sum,
                None => {
                    return None;
                },
            };
            if more > u64::MAX - total {
                return None;
            }
            total = total + more;
        } else {
            proof {
                if (day as int) < lo {
                    lemma_span_gap(m, lo as int, lo as int, stop);
                }
            }
        }
        j = j + 1;
    }
    Some(total)
}

/// The tokens of a day over all files.
pub open spec fn day_sum(files: Seq<(Seq<Part>, Filed)>, day: i32) -> Count
    decreases files.len(),
{
    if files.len() == 0 {
        no_tokens()
    } else {
        day_sum(files.drop_last(), day).plus(count_at(files.last().1.by_day, day))
    }
}

/// The tokens of a project over all files.
pub open spec fn project_sum(files: Seq<(Seq<Part>, Filed)>, project: Seq<char>) -> nat
    decreases files.len(),
{
    if files.len() == 0 {
        0
    } else {
        project_sum(files.drop_last(), project) + project_at(
            files.last().1.by_project,
            project,
        ).total
    }
}

/// The later of two last uses.
pub open spec fn later(a: Option<Timestamp>, b: Option<Timestamp>) -> Option<Timestamp> {
    match (a, b) {
        (None, x) => x,
        (Some(x), Some(y)) => if earlier(x, y) {
            b
        } else {
            a
        },
        _ => a,
    }
}

/// The last use of a project over all files.
pub open spec fn project_last(files: Seq<(Seq<Part>, Filed)>, project: Seq<char>) -> Option<
    Timestamp,
>
    decreases files.len(),
{
    if files.len() == 0 {
        None
    } else {
        later(
            project_last(files.drop_last(), project),
            project_at(files.last().1.by_project, project).last_used,
        )
    }
}

/// `m` holds the tokens of each day that some file has.
pub open spec fn rolls_up_days(m: Map<i32, Count>, files: Seq<(Seq<Part>, Filed)>) -> bool {
    forall|d: i32|
        #![trigger m.dom().contains(d)]
        #![trigger count_at(m, d)]
        {
            &&& m.dom().contains(d) <==> exists|i: int|
                0 <= i < files.len() && (#[trigger] files[i]).1.by_day.dom().contains(d)
            &&& count_at(m, d) == day_sum(files, d)
        }
}

/// `m` holds the tokens of each project that some file has.
pub open spec fn rolls_up_projects(
    m: Map<Seq<char>, ProjectCount>,
    files: Seq<(Seq<Part>, Filed)>,
) -> bool {
    forall|p: Seq<char>|
        #![trigger m.dom().contains(p)]
        #![trigger project_at(m, p)]
        {
            &&& m.dom().contains(p) <==> exists|i: int|
                0 <= i < files.len() && (#[trigger] files[i]).1.by_project.dom().contains(p)
            &&& project_at(m, p) == (ProjectCount {
                total: project_sum(files, p),
                last_used: project_last(files, p),
            })
        }
}

/// Whether no rolled up count goes beyond 64 bits.
pub open spec fn rollups_fit(files: Seq<(Seq<Part>, Filed)>) -> bool {
    &&& forall|d: i32| (#[trigger] day_sum(files, d)).fits()
    &&& forall|p: Seq<char>| #[trigger] project_sum(files, p) <= u64::MAX
}

pub(crate) proof fn lemma_fit_prefix(files: Seq<(Seq<Part>, Filed)>, i: int)
    requires
        rollups_fit(files),
        0 <= i <= files.len(),
    ensures
        rollups_fit(files.take(i)),
    decreases files.len() - i,
{
    if i == files.len() {
        assert(files.take(i) =~= files);
    } else {
        lemma_fit_prefix(files, i + 1);
        let more = files.take(i + 1);
        assert(more.drop_last() =~= files.take(i));
        assert forall|d: i32| (#[trigger] day_sum(files.take(i), d)).fits() by {
            assert(day_sum(more, d).fits());
        }
        assert forall|p: Seq<char>| #[trigger] project_sum(files.take(i), p) <= u64::MAX by {
            assert(project_sum(more, p) <= u64::MAX);
        }
    }
}

/// Whether the tokens of each day of `from` can be added.
pub(crate) fn can_add_days(into: &Table<i32, Totals>, from: &Table<i32, Totals>) -> (r: bool)
    ensures
        r <==> forall|d: i32|
            (#[trigger] count_at(counts_of(into@), d)).plus(count_at(counts_of(from@), d)).fits(),
{
    let ghost ours = counts_of(into@);
    let ghost theirs = counts_of(from@);
    let n: usize = from.len();
    let mut j: usize = 0;
    while j < n
        invariant
            j <= n,
            n == from.keys().len(),
            n == from.values().len(),
            ours == counts_of(into@),
            theirs == counts_of(from@),
            forall|k: int|
                0 <= k < j ==> count_at(ours, #[trigger] from.keys()[k]).plus(
                    count_at(theirs, from.keys()[k]),
                ).fits(),
        decreases n - j,
    {
        let day: i32 = *from.key_at(j);
        let more = from.value_at(j);
        let was: Totals = match into.get(&day) {
            Some(t) => *t,
            None => Totals::default(),
        };
        assert(was@ == count_at(ours, day));
        assert(more@ == count_at(theirs, day));
        if !was.can_add(more) {
            return false;
        }
        j = j + 1;
    }
    assert forall|d: i32| (#[trigger] count_at(ours, d)).plus(count_at(theirs, d)).fits() by {
        if theirs.dom().contains(d) {
            let k = from.keys().index_of(d);
            assert(from.keys()[k] == d);
        }
    }
    true
}

/// Adds the tokens of each day of `from`.
pub(crate) fn add_days(into: &mut Table<i32, Totals>, from: &Table<i32, Totals>)
    requires
        forall|d: i32|
            (#[trigger] count_at(counts_of(old(into)@), d)).plus(
                count_at(counts_of(from@), d),
            ).fits(),
    ensures
        final(into)@.dom() == old(into)@.dom().union(from@.dom()),
        forall|d: i32| #[trigger]
            count_at(counts_of(final(into)@), d) == count_at(counts_of(old(into)@), d).plus(
                count_at(counts_of(from@), d),
            ),
{
    let ghost start = into@;
    let n: usize = from.len();
    let mut j: usize = 0;
    while j < n
        invariant
            j <= n,
            n == from.keys().len(),
            n == from.values().len(),
            ascending::<i32>(from.keys()),
            forall|d: i32|
                (#[trigger] count_at(counts_of(start), d)).plus(count_at(counts_of(from@), d)).fits(),
            into@.dom() == start.dom().union(from.keys().take(j as int).to_set()),
            forall|d: i32| #[trigger]
                count_at(counts_of(into@), d) == if from.keys().take(j as int).contains(d) {
                    count_at(counts_of(start), d).plus(count_at(counts_of(from@), d))
                } else {
                    count_at(counts_of(start), d)
                },
        decreases n - j,
    {
        let day: i32 = *from.key_at(j);
        let more = from.value_at(j);
        let mut sum: Totals = match into.get(&day) {
            Some(t) => *t,
            None => Totals::default(),
        };
        let ghost before = into@;
        let ghost taken = from.keys().take(j as int);
        proof {
            assert(!taken.contains(day)) by {
                if taken.contains(day) {
                    let k = taken.index_of(day);
                    assert(from.keys()[k] == from.keys()[j as int]);
                }
            }
            assert(sum@ == count_at(counts_of(start), day)) by {
                assert(sum@ == count_at(counts_of(before), day));
            }
            assert(more@ == count_at(counts_of(from@), day));
        }
        sum.add(more);
        into.insert(day, sum);
        proof {
            let next = from.keys().take(j + 1);
            assert(next =~= taken.push(day));
            assert forall|d: i32| next.contains(d) <==> taken.contains(d) || d == day by {
                if taken.contains(d) {
                    assert(next[taken.index_of(d)] == d);
                }
                assert(next[j as int] == day);
                if next.contains(d) && d != day {
                    let k = next.index_of(d);
                    assert(taken[k] == d);
                }
            }
            assert(into@.dom() =~= start.dom().union(next.to_set()));
            assert forall|d: i32| #[trigger]
                count_at(counts_of(into@), d) == if next.contains(d) {
                    count_at(counts_of(start), d).plus(count_at(counts_of(from@), d))
                } else {
                    count_at(counts_of(start), d)
                } by {
                assert(d != day ==> count_at(counts_of(into@), d) == count_at(counts_of(before), d));
            }
        }
        j = j + 1;
    }
    proof {
        let keys = from.keys();
        assert(keys.take(n as int) =~= keys);
        assert forall|d: i32| keys.contains(d) <==> from@.dom().contains(d) by {}
        assert(into@.dom() =~= start.dom().union(from@.dom()));
    }
}

/// What two counts of one project come to.
pub open spec fn combined(a: ProjectCount, b: ProjectCount) -> ProjectCount {
    ProjectCount { total: a.total + b.total, last_used: later(a.last_used, b.last_used) }
}

fn later_of(a: Option<Timestamp>, b: Option<Timestamp>) -> (r: Option<Timestamp>)
    ensures
        r == later(a, b),
{
    match (a, b) {
        (None, x) => x,
        (Some(x), Some(y)) => if x.is_before(&y) {
            b
        } else {
            a
        },
        _ => a,
    }
}

/// Whether the tokens of each project of `from` can be added.
pub(crate) fn can_add_projects(
    into: &Table<String, ProjectTotals>,
    from: &Table<String, ProjectTotals>,
) -> (r: bool)
    ensures
        r <==> forall|p: Seq<char>|
            (#[trigger] project_at(project_counts_of(into@), p)).total + project_at(
                project_counts_of(from@),
                p,
            ).total <= u64::MAX,
{
    let ghost ours = project_counts_of(into@);
    let ghost theirs = project_counts_of(from@);
    let n: usize = from.len();
    let mut j: usize = 0;
    while j < n
        invariant
            j <= n,
            n == from.keys().len(),
            n == from.values().len(),
            ours == project_counts_of(into@),
            theirs == project_counts_of(from@),
            forall|k: int|
                0 <= k < j ==> project_at(ours, #[trigger] from.keys()[k]).total + project_at(
                    theirs,
                    from.keys()[k],
                ).total <= u64::MAX,
        decreases n - j,
    {
        let project = from.key_at(j);
        let more: u64 = from.value_at(j).total;
        let was: u64 = match into.get(project) {
            Some(t) => t.total,
            None => 0,
        };
        assert(was == project_at(ours, project@).total);
        assert(more == project_at(theirs, project@).total);
        if more > u64::MAX - was {
            return false;
        }
        j = j + 1;
    }
    assert forall|p: Seq<char>|
        (#[trigger] project_at(ours, p)).total + project_at(theirs, p).total <= u64::MAX by {
        if theirs.dom().contains(p) {
            let k = from.keys().index_of(p);
            assert(from.keys()[k] == p);
        }
    }
    true
}

/// Adds the tokens of each project of `from`.
pub(crate) fn add_projects(into: &mut Table<String, ProjectTotals>, from: &Table<String, ProjectTotals>)
    requires
        forall|p: Seq<char>|
            (#[trigger] project_at(project_counts_of(old(into)@), p)).total + project_at(
                project_counts_of(from@),
                p,
            ).total <= u64::MAX,
    ensures
        final(into)@.dom() == old(into)@.dom().union(from@.dom()),
        forall|p: Seq<char>| #[trigger]
            project_at(project_counts_of(final(into)@), p) == combined(
                project_at(project_counts_of(old(into)@), p),
                project_at(project_counts_of(from@), p),
            ),
{
    let ghost start = into@;
    let ghost ours = project_counts_of(start);
    let ghost theirs = project_counts_of(from@);
    let n: usize = from.len();
    let mut j: usize = 0;
    while j < n
        invariant
            j <= n,
            n == from.keys().len(),
            n == from.values().len(),
            ascending::<String>(from.keys()),
            ours == project_counts_of(start),
            theirs == project_counts_of(from@),
            forall|p: Seq<char>|
                (#[trigger] project_at(ours, p)).total + project_at(theirs, p).total <= u64::MAX,
            into@.dom() == start.dom().union(from.keys().take(j as int).to_set()),
            forall|p: Seq<char>| #[trigger]
                project_at(project_counts_of(into@), p) == if from.keys().take(j as int).contains(p) {
                    combined(project_at(ours, p), project_at(theirs, p))
                } else {
                    project_at(ours, p)
                },
        decreases n - j,
    {
        let project = from.key_at(j);
        let more = from.value_at(j);
        let was: ProjectTotals = match into.get(project) {
            Some(t) => *t,
            None => ProjectTotals { total: 0, last_used: None },
        };
        let ghost key = project@;
        let ghost before = into@;
        let ghost taken = from.keys().take(j as int);
        proof {
            assert(!taken.contains(key)) by {
                if taken.contains(key) {
                    let k = taken.index_of(key);
                    assert(from.keys()[k] == from.keys()[j as int]);
                    String::irreflexive(key);
                }
            }
            assert(was@ == project_at(ours, key)) by {
                assert(was@ == project_at(project_counts_of(before), key));
            }
            assert(more@ == project_at(theirs, key));
        }
        let now = ProjectTotals {
            total: was.total + more.total,
            last_used: later_of(was.last_used, more.last_used),
        };
        into.insert(project.clone(), now);
        proof {
            let next = from.keys().take(j + 1);
            assert(next =~= taken.push(key));
            assert forall|p: Seq<char>| next.contains(p) <==> taken.contains(p) || p == key by {
                if taken.contains(p) {
                    assert(next[taken.index_of(p)] == p);
                }
                assert(next[j as int] == key);
                if next.contains(p) && p != key {
                    let k = next.index_of(p);
                    assert(taken[k] == p);
                }
            }
            assert(into@.dom() =~= start.dom().union(next.to_set()));
            assert forall|p: Seq<char>| #[trigger]
                project_at(project_counts_of(into@), p) == if next.contains(p) {
                    combined(project_at(ours, p), project_at(theirs, p))
                } else {
                    project_at(ours, p)
                } by {
                assert(p != key ==> project_at(project_counts_of(into@), p) == project_at(
                    project_counts_of(before),
                    p,
                ));
            }
        }
        j = j + 1;
    }
    proof {
        let keys = from.keys();
        assert(keys.take(n as int) =~= keys);
        assert forall|p: Seq<char>| keys.contains(p) <==> from@.dom().contains(p) by {}
        assert(into@.dom() =~= start.dom().union(from@.dom()));
    }
}

pub(crate) proof fn lemma_extended(
    before: Seq<(Seq<Part>, Filed)>,
    last: (Seq<Part>, Filed),
    after: Seq<(Seq<Part>, Filed)>,
)
    requires
        after == before.push(last),
    ensures
        forall|d: i32|
            (exists|k: int| 0 <= k < after.len() && (#[trigger] after[k]).1.by_day.dom().contains(d))
                <==> (last.1.by_day.dom().contains(d) || exists|k: int|
                0 <= k < before.len() && (#[trigger] before[k]).1.by_day.dom().contains(d)),
        forall|p: Seq<char>|
            (exists|k: int|
                0 <= k < after.len() && (#[trigger] after[k]).1.by_project.dom().contains(p)) <==> (
            last.1.by_project.dom().contains(p) || exists|k: int|
                0 <= k < before.len() && (#[trigger] before[k]).1.by_project.dom().contains(p)),
{
    assert(after[before.len() as int] == last);
    assert(forall|k: int| 0 <= k < before.len() ==> after[k] == #[trigger] before[k]);
}

/// The tokens of the lines that count.
pub open spec fn counted_sum(lines: Seq<Line>) -> nat
    decreases lines.len(),
{
    if lines.len() == 0 {
        0
    } else {
        counted_sum(lines.drop_last()) + match counted(lines.last()) {
            Some(c) => c.sum(),
            None => 0,
        }
    }
}

proof fn lemma_span_insert(m: Map<i32, Count>, d: i32, c: Count, lo: int, hi: int)
    requires
        i32::MIN <= lo,
        hi <= i32::MAX + 1,
    ensures
        span_sum(m.insert(d, c), lo, hi) == if lo <= d < hi {
            span_sum(m, lo, hi) + c.sum() - count_at(m, d).sum()
        } else {
            span_sum(m, lo, hi) as int
        },
    decreases hi - lo,
{
    if lo < hi {
        lemma_span_insert(m, d, c, lo, hi - 1);
    }
}

/// Every token of a transcript is counted on one day.
pub proof fn day_counts_add_up(lines: Seq<Line>, days: Seq<i32>)
    ensures
        span_sum(day_counts(lines, days), i32::MIN as int, i32::MAX + 1) == counted_sum(lines),
    decreases lines.len(),
{
    if lines.len() == 0 {
        lemma_span_gap(
            day_counts(lines, days),
            i32::MIN as int,
            i32::MIN as int,
            i32::MAX + 1,
        );
    } else {
        day_counts_add_up(lines.drop_last(), days);
        if let Some(c) = counted(lines.last()) {
            let m = day_counts(lines.drop_last(), days);
            let d = days[lines.len() - 1];
            lemma_span_insert(m, d, count_at(m, d).plus(c), i32::MIN as int, i32::MAX + 1);
        }
    }
}

/// The tokens of each day do not rest on days beyond the lines.
proof fn lemma_days_beyond(lines: Seq<Line>, days: Seq<i32>, more: Seq<i32>)
    requires
        lines.len() <= days.len(),
    ensures
        day_counts(lines, days + more) == day_counts(lines, days),
    decreases lines.len(),
{
    if lines.len() > 0 {
        lemma_days_beyond(lines.drop_last(), days, more);
    }
}

proof fn lemma_later_use(a: Option<Timestamp>, b: Option<Timestamp>, t: Timestamp)
    ensures
        last_use(later(a, b), t) == later(a, last_use(b, t)),
{
    if let Some(x) = a {
        instants_are_ordered(x, t);
        if let Some(y) = b {
            instants_are_ordered(y, t);
            instants_are_ordered(x, y);
        }
    }
}

/// What is kept of two transcripts in one is what is kept of each of them, added
/// up: the tokens of each day and each project, and the later of the last uses.
pub proof fn joined_transcripts_add_up(
    a: Seq<Line>,
    b: Seq<Line>,
    days_a: Seq<i32>,
    days_b: Seq<i32>,
    d: i32,
    p: Seq<char>,
)
    requires
        days_a.len() == a.len(),
        days_b.len() >= b.len(),
    ensures
        count_at(day_counts(a + b, days_a + days_b), d) == count_at(day_counts(a, days_a), d).plus(
            count_at(day_counts(b, days_b), d),
        ),
        day_counts(a + b, days_a + days_b).dom().contains(d) <==> day_counts(
            a,
            days_a,
        ).dom().contains(d) || day_counts(b, days_b).dom().contains(d),
        project_at(project_counts(a + b), p) == combined(
            project_at(project_counts(a), p),
            project_at(project_counts(b), p),
        ),
        project_counts(a + b).dom().contains(p) <==> project_counts(a).dom().contains(p)
            || project_counts(b).dom().contains(p),
    decreases b.len(),
{
    if b.len() == 0 {
        assert(a + b =~= a);
        lemma_days_beyond(a, days_a, days_b);
    } else {
        let rest = b.drop_last();
        assert((a + b).drop_last() =~= a + rest);
        assert((a + b).last() == b.last());
        assert((days_a + days_b)[(a + b).len() - 1] == days_b[b.len() - 1]);
        joined_transcripts_add_up(a, rest, days_a, days_b, d, p);
        lemma_later_use(
            project_at(project_counts(a), p).last_used,
            project_at(project_counts(rest), p).last_used,
            instant_of(b.last()),
        );
    }
}

/// No project of a transcript has more tokens than all its lines together, and
/// each that is kept has some.
pub proof fn projects_have_their_part(lines: Seq<Line>, p: Seq<char>)
    ensures
        project_at(project_counts(lines), p).total <= counted_sum(lines),
        project_counts(lines).dom().contains(p) ==> project_counts(lines)[p].total > 0,
    decreases lines.len(),
{
    if lines.len() > 0 {
        projects_have_their_part(lines.drop_last(), p);
    }
}

/// Spans that meet add up, a span of one day has the tokens of that day in all
/// four categories, and one without days has none.
pub proof fn spans_add_up(m: Map<i32, Count>, lo: int, mid: int, hi: int, day: i32)
    requires
        lo <= mid <= hi,
    ensures
        span_sum(m, lo, hi) == span_sum(m, lo, mid) + span_sum(m, mid, hi),
        span_sum(m, lo, lo) == 0,
        span_sum(m, day as int, day + 1) == count_at(m, day).input + count_at(m, day).output
            + count_at(m, day).cache_creation + count_at(m, day).cache_read,
{
    lemma_span_split(m, lo, mid, hi);
    assert(span_sum(m, day as int, day as int) == 0);
}

/// What is counted on a day counts in the spans that the day lies in, and in no
/// other.
pub proof fn a_day_counts_in_its_spans(m: Map<i32, Count>, day: i32, c: Count, lo: int, hi: int)
    requires
        i32::MIN <= lo <= hi <= i32::MAX + 1,
    ensures
        lo <= day < hi ==> span_sum(m.insert(day, c), lo, hi) + count_at(m, day).sum() == span_sum(
            m,
            lo,
            hi,
        ) + c.sum(),
        !(lo <= day < hi) ==> span_sum(m.insert(day, c), lo, hi) == span_sum(m, lo, hi),
{
    lemma_span_insert(m, day, c, lo, hi);
}

/// Files that are counted one after the other add up, by category, by project and
/// in the last use; a single file counts as it is.
pub proof fn files_add_up(
    a: Seq<(Seq<Part>, Filed)>,
    b: Seq<(Seq<Part>, Filed)>,
    one: (Seq<Part>, Filed),
    day: i32,
    project: Seq<char>,
)
    ensures
        day_sum(a + b, day) == day_sum(a, day).plus(day_sum(b, day)),
        project_sum(a + b, project) == project_sum(a, project) + project_sum(b, project),
        day_sum(seq![one], day) == count_at(one.1.by_day, day),
        project_sum(seq![one], project) == project_at(one.1.by_project, project).total,
        project_last(seq![one], project) == project_at(one.1.by_project, project).last_used,
    decreases b.len(),
{
    assert(seq![one].drop_last() =~= seq![]);
    assert(day_sum(seq![], day) == no_tokens());
    assert(project_sum(seq![], project) == 0);
    assert(project_last(seq![], project) is None);
    if b.len() == 0 {
        assert(a + b =~= a);
    } else {
        files_add_up(a, b.drop_last(), one, day, project);
        assert((a + b).drop_last() =~= a + b.drop_last());
        assert((a + b).last() == b.last());
    }
}

/// The later of two last uses is one of them, and neither comes after it; where
/// one is unknown it is the other.
pub proof fn the_later_use_is_kept(a: Option<Timestamp>, b: Option<Timestamp>)
    ensures
        later(a, b) == a || later(a, b) == b,
        a is None ==> later(a, b) == b,
        b is None ==> later(a, b) == a,
        a matches Some(x) ==> (later(a, b) matches Some(t) && !earlier(t, x)),
        b matches Some(y) ==> (later(a, b) matches Some(t) && !earlier(t, y)),
{
    if let Some(x) = a {
        if let Some(y) = b {
            instants_are_ordered(x, y);
        }
    }
}

/// No file used a project after its last use over all files, and that is the last
/// use of one of them.
pub proof fn the_last_use_is_that_of_a_file(files: Seq<(Seq<Part>, Filed)>, p: Seq<char>, i: int)
    requires
        0 <= i < files.len(),
    ensures
        project_at(files[i].1.by_project, p).last_used matches Some(t) ==> (project_last(
            files,
            p,
        ) matches Some(last) && !earlier(last, t)),
        project_last(files, p) matches Some(last) ==> exists|k: int|
            0 <= k < files.len() && project_at((#[trigger] files[k]).1.by_project, p).last_used
                == Some(last),
    decreases files.len(),
{
    let rest = files.drop_last();
    let last = files[files.len() - 1];
    assert(files.last() == last);
    let (before, of_last) = (project_last(rest, p), project_at(last.1.by_project, p).last_used);
    the_later_use_is_kept(before, of_last);
    if i < rest.len() {
        the_last_use_is_that_of_a_file(rest, p, i);
        assert(rest[i] == files[i]);
        if let Some(t) = project_at(files[i].1.by_project, p).last_used {
            if let Some(x) = before {
                if let Some(y) = project_last(files, p) {
                    instants_are_ordered(x, y);
                    instants_are_ordered(t, y);
                    instants_are_ordered(t, x);
                }
            }
        }
    } else if rest.len() > 0 {
        the_last_use_is_that_of_a_file(rest, p, 0);
    }
    if let Some(t) = project_last(files, p) {
        if of_last == Some(t) {
            assert(project_at(files[files.len() - 1].1.by_project, p).last_used == Some(t));
        } else {
            let k = choose|k: int|
                0 <= k < rest.len() && project_at((#[trigger] rest[k]).1.by_project, p).last_used
                    == Some(t);
            assert(files[k] == rest[k]);
        }
    }
}

} // verus!
