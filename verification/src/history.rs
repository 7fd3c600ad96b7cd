//! Token use gathered over all transcripts.

use crate::calendar::{
    date_is_unique, date_of, day_in_range, day_number, day_of, every_day_has_a_date, is_date,
    month_length, next_year, range_of_days, year_in_range,
};
use crate::clock::{is_near, Timestamp};
use crate::double::{
    amounts_round_within_a_half, counts_are_finite, cut, half_away, multiples_are_close,
    one_has_many_steps, over, positive_numbers_have_steps, products_commute, quotient_with_itself,
    quotients_are_close, ratio_value, steps_of, times, whole_numbers_are_exact,
    whole_numbers_stay_whole, whole_products_are_exact, Double, Value,
};
use crate::ranking::{is_ranking, rank, ranks_before, Weight};
use crate::rollup::{
    add_days, add_projects, can_add_days, can_add_projects, day_counts_add_up, day_sum, lemma_extended, lemma_fit_prefix,
    lemma_span_gap, lemma_span_split, project_last, project_sum, projects_have_their_part,
    rolls_up_days, rolls_up_projects, rollups_fit, span_sum, sum_between,
    sum_within,
};
use crate::table::{ascending, text_below, FilePath, Key, Part, Table};
use crate::text::{from_chars, same, to_chars};
use crate::transcript::{
    count_at, counts_of, heaviest, pick_heaviest, picks_the_heaviest, project_at,
    project_counts_of, prompts_of, tallied, the_heaviest_are_picked, Count, FileEntry, Filed, Line,
    ProjectCount, Prompt,
};
pub use crate::transcript::{ProjectTotals, PromptStat, Totals};
use vstd::arithmetic::power2::pow2;
use vstd::prelude::*;

verus! {

/// The files of a table, each with its path, in the order of the paths.
pub open spec fn filed(t: Table<FilePath, FileEntry>) -> Seq<(Seq<Part>, Filed)> {
    Seq::new(t.keys().len(), |i: int| (t.keys()[i], t.values()[i]@))
}

/// Token use over all transcripts.
#[derive(Clone, Debug)]
pub struct Aggregates {
    pub file_totals: Table<FilePath, FileEntry>,
    pub by_day: Table<i32, Totals>,
    pub by_project: Table<String, ProjectTotals>,
    pub scanned_files: usize,
    pub last_scanned_at: Option<Timestamp>,
    /// The version of the layout that the counts were made for.
    pub version: u32,
}

impl Aggregates {
    /// The transcripts, each with its path, in the order of the paths.
    pub open spec fn files(self) -> Seq<(Seq<Part>, Filed)> {
        filed(self.file_totals)
    }

    /// The rolled up counts are those of the files.
    pub open spec fn rolled_up(self) -> bool {
        &&& rolls_up_days(counts_of(self.by_day@), self.files())
        &&& rolls_up_projects(project_counts_of(self.by_project@), self.files())
    }

    fn rebuild_rollups(&mut self)
        requires
            rollups_fit(old(self).files()),
        ensures
            final(self).rolled_up(),
            final(self).file_totals == old(self).file_totals,
            final(self).scanned_files == old(self).scanned_files,
            final(self).last_scanned_at == old(self).last_scanned_at,
            final(self).version == old(self).version,
    {
        let mut by_day: Table<i32, Totals> = Table::new();
        let mut by_project: Table<String, ProjectTotals> = Table::new();
        let ghost files = self.files();
        let n: usize = self.file_totals.len();
        let mut i: usize = 0;
        while i < n
            invariant
                i <= n,
                n == self.file_totals.values().len(),
                files == self.files(),
                n == files.len(),
                rollups_fit(files),
                rolls_up_days(counts_of(by_day@), files.take(i as int)),
                rolls_up_projects(project_counts_of(by_project@), files.take(i as int)),
            decreases n - i,
        {
            proof {
                lemma_fit_prefix(files, i + 1);
                assert(files.take(i + 1) =~= files.take(i as int).push(files[i as int]));
            }
            let fe = self.file_totals.value_at(i);
            let _added = add_file(
                &mut by_day,
                &mut by_project,
                fe,
                Ghost(files.take(i as int)),
                Ghost(files[i as int]),
            );
            i = i + 1;
        }
        assert(files.take(n as int) =~= files);
        self.by_day = by_day;
        self.by_project = by_project;
    }
}

/// Adds what is kept of a file to the rolled up counts of the files before it,
/// where they fit. Says whether they do.
fn add_file(
    by_day: &mut Table<i32, Totals>,
    by_project: &mut Table<String, ProjectTotals>,
    fe: &FileEntry,
    Ghost(before): Ghost<Seq<(Seq<Part>, Filed)>>,
    Ghost(file): Ghost<(Seq<Part>, Filed)>,
) -> (r: bool)
    requires
        file.1 == fe@,
        rolls_up_days(counts_of(old(by_day)@), before),
        rolls_up_projects(project_counts_of(old(by_project)@), before),
    ensures
        r == rollups_fit(before.push(file)),
        r ==> rolls_up_days(counts_of(final(by_day)@), before.push(file)),
        r ==> rolls_up_projects(project_counts_of(final(by_project)@), before.push(file)),
{
    let ghost after = before.push(file);
    let ghost days = counts_of(by_day@);
    let ghost projects = project_counts_of(by_project@);
    let fits = can_add_days(by_day, &fe.by_day) && can_add_projects(by_project, &fe.by_project);
    proof {
        assert(after.drop_last() =~= before);
        assert(after.last() == file);
        assert forall|d: i32|
            #![trigger count_at(days, d)]
            #![trigger day_sum(after, d)]
            count_at(days, d).plus(count_at(counts_of(fe.by_day@), d)) == day_sum(after, d) by {}
        assert forall|p: Seq<char>|
            #![trigger project_at(projects, p)]
            #![trigger project_sum(after, p)]
            project_at(projects, p).total + project_at(project_counts_of(fe.by_project@), p).total
                == project_sum(after, p) by {}
        if fits {
            assert forall|d: i32| (#[trigger] day_sum(after, d)).fits() by {
                assert(count_at(days, d).plus(count_at(counts_of(fe.by_day@), d)).fits());
            }
            assert forall|p: Seq<char>| #[trigger] project_sum(after, p) <= u64::MAX by {
                assert(project_at(projects, p).total + project_at(
                    project_counts_of(fe.by_project@),
                    p,
                ).total <= u64::MAX);
            }
        } else if rollups_fit(after) {
            assert forall|d: i32|
                (#[trigger] count_at(days, d)).plus(count_at(counts_of(fe.by_day@), d)).fits() by {
                assert(day_sum(after, d).fits());
            }
            assert forall|p: Seq<char>|
                (#[trigger] project_at(projects, p)).total + project_at(
                    project_counts_of(fe.by_project@),
                    p,
                ).total <= u64::MAX by {
                assert(project_sum(after, p) <= u64::MAX);
            }
        }
    }
    if !fits {
        return false;
    }
    add_days(by_day, &fe.by_day);
    add_projects(by_project, &fe.by_project);
    proof {
        lemma_extended(before, file, after);
        let more_days = counts_of(by_day@);
        assert forall|d: i32|
            #![trigger more_days.dom().contains(d)]
            #![trigger count_at(more_days, d)]
            {
                &&& more_days.dom().contains(d) <==> exists|k: int|
                    0 <= k < after.len() && (#[trigger] after[k]).1.by_day.dom().contains(d)
                &&& count_at(more_days, d) == day_sum(after, d)
            } by {
            assert(more_days.dom().contains(d) <==> days.dom().contains(d)
                || file.1.by_day.dom().contains(d));
            assert(count_at(more_days, d) == count_at(days, d).plus(count_at(file.1.by_day, d)));
        }
        let more = project_counts_of(by_project@);
        assert forall|p: Seq<char>|
            #![trigger more.dom().contains(p)]
            #![trigger project_at(more, p)]
            {
                &&& more.dom().contains(p) <==> exists|k: int|
                    0 <= k < after.len() && (#[trigger] after[k]).1.by_project.dom().contains(p)
                &&& project_at(more, p) == (ProjectCount {
                    total: project_sum(after, p),
                    last_used: project_last(after, p),
                })
            } by {
        }
    }
    true
}

proof fn lemma_unfit_prefix(files: Seq<(Seq<Part>, Filed)>, i: int)
    requires
        0 <= i <= files.len(),
        !rollups_fit(files.take(i)),
    ensures
        !rollups_fit(files),
{
    if rollups_fit(files) {
        lemma_fit_prefix(files, i);
    }
}

/// The version of the layout that counts are made for now.
pub const HISTORY_VERSION: u32 = 1;

/// A live file whose transcript has to be read again.
pub open spec fn outdated(f: (Seq<Part>, Filed)) -> (Seq<Part>, Filed) {
    if f.1.tombstoned {
        f
    } else {
        (f.0, Filed { mtime: i128::MIN as int, ..f.1 })
    }
}

impl Default for Aggregates {
    fn default() -> (r: Aggregates)
        ensures
            r.files() == Seq::<(Seq<Part>, Filed)>::empty(),
            r.by_day@ == Map::<i32, Totals>::empty(),
            r.by_project@ == Map::<Seq<char>, ProjectTotals>::empty(),
            r.scanned_files == 0,
            r.last_scanned_at is None,
            r.version == 0,
            r.rolled_up(),
    {
        let r = Aggregates {
            file_totals: Table::new(),
            by_day: Table::new(),
            by_project: Table::new(),
            scanned_files: 0,
            last_scanned_at: None,
            version: 0,
        };
        assert(r.files() =~= Seq::<(Seq<Part>, Filed)>::empty());
        r
    }
}

/// `b` is what `a` becomes when it is read from a cache: counts of another
/// layout are kept, and the transcripts that are still there are read again.
pub open spec fn migrates(a: Aggregates, b: Aggregates) -> bool {
    &&& a.version == 1 ==> b == a
    &&& a.version != 1 ==> {
        &&& b.files() == a.files().map_values(|f: (Seq<Part>, Filed)| outdated(f))
        &&& b.by_day == a.by_day
        &&& b.by_project == a.by_project
        &&& b.scanned_files == a.scanned_files
        &&& b.last_scanned_at == a.last_scanned_at
        &&& b.version == 1
    }
}

impl Aggregates {
    /// The counts of a cache, or none where there is no cache that can be read.
    pub fn load_or_default(cached: Option<Aggregates>) -> (r: Aggregates)
        ensures
            match cached {
                Some(a) => migrates(a, r),
                None => r.files() == Seq::<(Seq<Part>, Filed)>::empty() && r.by_day@ == Map::<
                    i32,
                    Totals,
                >::empty() && r.by_project@ == Map::<Seq<char>, ProjectTotals>::empty()
                    && r.scanned_files == 0 && r.last_scanned_at is None && r.version == 1,
            },
    {
        let mut agg = match cached {
            Some(a) => a,
            None => Aggregates::default(),
        };
        let ghost before = agg;
        agg.migrate();
        proof {
            if cached is None {
                assert(before.files() =~= Seq::<(Seq<Part>, Filed)>::empty());
                assert(agg.files() =~= Seq::<(Seq<Part>, Filed)>::empty());
            }
        }
        agg
    }

    /// Has the transcripts read again that are still there, where the counts
    /// are of another layout.
    pub fn migrate(&mut self)
        ensures
            migrates(*old(self), *final(self)),
    {
        if self.version == HISTORY_VERSION {
            return;
        }
        let ghost files = self.files();
        let mut table: Table<FilePath, FileEntry> = Table::new();
        std::mem::swap(&mut table, &mut self.file_totals);
        let ghost keys = table.keys();
        let ghost start = table.values();
        let (paths, mut entries) = table.into_parts();
        let mut i: usize = 0;
        while i < entries.len()
            invariant
                i <= entries.len(),
                entries.len() == files.len(),
                files.len() == start.len(),
                forall|k: int| 0 <= k < files.len() ==> files[k].1 == (#[trigger] start[k])@,
                forall|k: int| 0 <= k < i ==> (#[trigger] entries@[k])@ == outdated(files[k]).1,
                forall|k: int| i <= k < entries.len() ==> #[trigger] entries@[k] == start[k],
            decreases entries.len() - i,
        {
            if !entries[i].tombstoned {
                let fe = &mut entries[i];
                fe.mtime_unix_ns = i128::MIN;
            }
            i = i + 1;
        }
        self.file_totals = Table::from_parts(paths, entries);
        self.version = HISTORY_VERSION;
        assert(self.files() =~= files.map_values(|f: (Seq<Part>, Filed)| outdated(f)));
    }
}

/// A transcript that was found, with what is kept of it where it was read.
#[derive(Debug)]
pub struct Scanned {
    pub path: FilePath,
    pub mtime: i128,
    pub entry: Option<FileEntry>,
}

/// Whether a transcript last changed at `mtime` has to be read.
pub open spec fn stale(m: Map<Seq<Part>, Filed>, path: Seq<Part>, mtime: int) -> bool {
    !m.dom().contains(path) || m[path].mtime != mtime || m[path].tombstoned
}

/// Whether a transcript that was found changes what is kept.
pub open spec fn takes_in(m: Map<Seq<Part>, Filed>, f: Scanned) -> bool {
    stale(m, f.path@, f.mtime as int) && f.entry is Some
}

/// What is kept once the transcripts that were found are taken in.
pub open spec fn taken_in(m: Map<Seq<Part>, Filed>, found: Seq<Scanned>) -> Map<Seq<Part>, Filed>
    decreases found.len(),
{
    if found.len() == 0 {
        m
    } else {
        let before = taken_in(m, found.drop_last());
        let f = found.last();
        if takes_in(before, f) {
            before.insert(f.path@, f.entry->0@)
        } else {
            before
        }
    }
}

pub open spec fn is_found(found: Seq<Scanned>, path: Seq<Part>) -> bool {
    exists|i: int| 0 <= i < found.len() && (#[trigger] found[i]).path@ == path
}

/// The entry of a transcript that was not found.
pub open spec fn buried(f: Filed) -> Filed {
    Filed { tombstoned: true, ..f }
}

/// What is kept after a scan: the transcripts that were found are taken in, and
/// the others are marked as gone.
pub open spec fn rescanned(m: Map<Seq<Part>, Filed>, found: Seq<Scanned>) -> Map<Seq<Part>, Filed> {
    let taken = taken_in(m, found);
    Map::new(
        |p: Seq<Part>| taken.dom().contains(p),
        |p: Seq<Part>|
            if is_found(found, p) {
                taken[p]
            } else {
                buried(taken[p])
            },
    )
}

/// Whether transcript `i` is taken in.
pub open spec fn takes_at(m: Map<Seq<Part>, Filed>, found: Seq<Scanned>, i: int) -> bool {
    takes_in(taken_in(m, found.take(i)), found[i])
}

/// Whether one of the first `n` transcripts that were found is taken in.
pub open spec fn some_taken_in(m: Map<Seq<Part>, Filed>, found: Seq<Scanned>, n: int) -> bool {
    exists|i: int| 0 <= i < n && #[trigger] takes_at(m, found, i)
}

/// Whether a scan changes what is kept.
pub open spec fn scan_changes(m: Map<Seq<Part>, Filed>, found: Seq<Scanned>) -> bool {
    ||| some_taken_in(m, found, found.len() as int)
    ||| exists|p: Seq<Part>|
        taken_in(m, found).dom().contains(p) && !is_found(found, p) && !(
        #[trigger] taken_in(m, found)[p]).tombstoned
}

/// The number of files that are still there.
pub open spec fn live_count(files: Seq<(Seq<Part>, Filed)>) -> nat {
    files.filter(|f: (Seq<Part>, Filed)| !f.1.tombstoned).len()
}

/// The number of files that are gone.
pub open spec fn gone_count(files: Seq<(Seq<Part>, Filed)>) -> nat {
    files.filter(|f: (Seq<Part>, Filed)| f.1.tombstoned).len()
}

/// The files of a table by path.
pub open spec fn catalog(t: Table<FilePath, FileEntry>) -> Map<Seq<Part>, Filed> {
    t@.map_values(|fe: FileEntry| fe@)
}

impl Aggregates {
    /// Whether the transcript at `path`, last changed at `mtime`, has to be read.
    pub fn is_stale(&self, path: &FilePath, mtime: i128) -> (r: bool)
        ensures
            r == stale(catalog(self.file_totals), path@, mtime as int),
    {
        match self.file_totals.get(path) {
            Some(fe) => fe.mtime_unix_ns != mtime || fe.tombstoned,
            None => true,
        }
    }

    /// The number of files whose transcript is gone.
    pub fn tombstoned_count(&self) -> (r: usize)
        ensures
            r == gone_count(self.files()),
    {
        let ghost files = self.files();
        let ghost gone = |f: (Seq<Part>, Filed)| f.1.tombstoned;
        let n: usize = self.file_totals.len();
        let mut count: usize = 0;
        let mut i: usize = 0;
        proof {
            reveal(Seq::filter);
        }
        while i < n
            invariant
                i <= n,
                n == self.file_totals.values().len(),
                n == files.len(),
                files == self.files(),
                gone == |f: (Seq<Part>, Filed)| f.1.tombstoned,
                count == files.take(i as int).filter(gone).len(),
                count <= i,
            decreases n - i,
        {
            proof {
                reveal(Seq::filter);
                assert(files.take(i + 1).drop_last() =~= files.take(i as int));
            }
            if self.file_totals.value_at(i).tombstoned {
                count = count + 1;
            }
            i = i + 1;
        }
        assert(files.take(n as int) =~= files);
        count
    }

    fn live_files(&self) -> (r: usize)
        ensures
            r == live_count(self.files()),
    {
        let ghost files = self.files();
        let ghost live = |f: (Seq<Part>, Filed)| !f.1.tombstoned;
        let n: usize = self.file_totals.len();
        let mut count: usize = 0;
        let mut i: usize = 0;
        proof {
            reveal(Seq::filter);
        }
        while i < n
            invariant
                i <= n,
                n == self.file_totals.values().len(),
                n == files.len(),
                files == self.files(),
                live == |f: (Seq<Part>, Filed)| !f.1.tombstoned,
                count == files.take(i as int).filter(live).len(),
                count <= i,
            decreases n - i,
        {
            proof {
                reveal(Seq::filter);
                assert(files.take(i + 1).drop_last() =~= files.take(i as int));
            }
            if !self.file_totals.value_at(i).tombstoned {
                count = count + 1;
            }
            i = i + 1;
        }
        assert(files.take(n as int) =~= files);
        count
    }
}

/// `s` lists the files of `m` in the order of their paths.
pub open spec fn is_listing(s: Seq<(Seq<Part>, Filed)>, m: Map<Seq<Part>, Filed>) -> bool {
    &&& ascending::<FilePath>(s.map_values(|f: (Seq<Part>, Filed)| f.0))
    &&& forall|i: int|
        0 <= i < s.len() ==> m.dom().contains((#[trigger] s[i]).0) && m[s[i].0] == s[i].1
    &&& forall|p: Seq<Part>| #[trigger]
        m.dom().contains(p) ==> exists|i: int| 0 <= i < s.len() && (#[trigger] s[i]).0 == p
}

/// The files of `m` in the order of their paths.
pub open spec fn listing(m: Map<Seq<Part>, Filed>) -> Seq<(Seq<Part>, Filed)> {
    choose|s: Seq<(Seq<Part>, Filed)>| is_listing(s, m)
}

/// Files are listed in one way.
pub proof fn listing_is_unique(
    a: Seq<(Seq<Part>, Filed)>,
    b: Seq<(Seq<Part>, Filed)>,
    m: Map<Seq<Part>, Filed>,
)
    requires
        is_listing(a, m),
        is_listing(b, m),
    ensures
        a == b,
{
    let pa = a.map_values(|f: (Seq<Part>, Filed)| f.0);
    let pb = b.map_values(|f: (Seq<Part>, Filed)| f.0);
    assert forall|x: Seq<Part>| #![auto] pa.contains(x) <==> pb.contains(x) by {
        if pa.contains(x) {
            let i = pa.index_of(x);
            assert(a[i].0 == x);
            let j = choose|j: int| 0 <= j < b.len() && (#[trigger] b[j]).0 == x;
            assert(pb[j] == x);
        }
        if pb.contains(x) {
            let i = pb.index_of(x);
            assert(b[i].0 == x);
            let j = choose|j: int| 0 <= j < a.len() && (#[trigger] a[j]).0 == x;
            assert(pa[j] == x);
        }
    }
    crate::table::order_is_unique::<FilePath>(pa, pb);
    assert(pa.len() == a.len() && pb.len() == b.len());
    assert(a.len() == b.len());
    assert forall|i: int| 0 <= i < a.len() implies #[trigger] a[i] == b[i] by {
        assert(pa[i] == a[i].0 && pb[i] == b[i].0);
        assert(m[a[i].0] == a[i].1 && m[b[i].0] == b[i].1);
    }
    assert(a =~= b);
}

proof fn lemma_filed(t: Table<FilePath, FileEntry>)
    requires
        ascending::<FilePath>(t.keys()),
        t.keys().len() == t.values().len(),
    ensures
        is_listing(filed(t), catalog(t)),
        filed(t) == listing(catalog(t)),
{
    let s = filed(t);
    let m = catalog(t);
    assert(s.map_values(|f: (Seq<Part>, Filed)| f.0) =~= t.keys());
    assert forall|i: int| 0 <= i < s.len() implies m.dom().contains((#[trigger] s[i]).0)
        && m[s[i].0] == s[i].1 by {
        crate::table::paired_at::<FilePath, FileEntry>(t.keys(), t.values(), i);
    }
    assert forall|p: Seq<Part>| #[trigger] m.dom().contains(p) implies exists|i: int|
        0 <= i < s.len() && (#[trigger] s[i]).0 == p by {
        let i = t.keys().index_of(p);
        assert(s[i].0 == p);
    }
    listing_is_unique(s, listing(m), m);
}

proof fn lemma_taken_step(m: Map<Seq<Part>, Filed>, found: Seq<Scanned>, i: int)
    requires
        0 <= i < found.len(),
    ensures
        taken_in(m, found.take(i + 1)) == if takes_in(taken_in(m, found.take(i)), found[i]) {
            taken_in(m, found.take(i)).insert(found[i].path@, found[i].entry->0@)
        } else {
            taken_in(m, found.take(i))
        },
        some_taken_in(m, found, i + 1) <==> some_taken_in(m, found, i) || takes_at(m, found, i),
{
    assert(found.take(i + 1).drop_last() =~= found.take(i));
}

proof fn lemma_found_step(found: Seq<Scanned>, i: int, p: Seq<Part>)
    requires
        0 <= i < found.len(),
    ensures
        is_found(found.take(i + 1), p) <==> is_found(found.take(i), p) || p == found[i].path@,
{
    let was = found.take(i);
    let next = found.take(i + 1);
    if is_found(was, p) {
        let k = choose|k: int| 0 <= k < was.len() && (#[trigger] was[k]).path@ == p;
        assert(next[k].path@ == p);
    }
    assert(next[i] == found[i]);
    if is_found(next, p) && p != found[i].path@ {
        let k = choose|k: int| 0 <= k < next.len() && (#[trigger] next[k]).path@ == p;
        assert(was[k].path@ == p);
    }
}

/// `after` is what `before` becomes in a scan at `now` that changes anything.
pub open spec fn is_rescanned(
    before: Aggregates,
    after: Aggregates,
    found: Seq<Scanned>,
    now: Timestamp,
) -> bool {
    let kept = rescanned(catalog(before.file_totals), found);
    &&& catalog(after.file_totals) == kept
    &&& is_listing(after.files(), kept)
    &&& after.files() == listing(kept)
    &&& after.rolled_up()
    &&& after.scanned_files == live_count(after.files())
    &&& after.last_scanned_at == Some(now)
    &&& after.version == before.version
}

impl Aggregates {
    /// Takes in the transcripts that were found and marks the others as gone.
    /// Where that changes anything, rolls the counts up again. Says whether it
    /// does. Nothing changes where there is no directory to look in.
    pub fn refresh(&mut self, found: Option<Vec<Scanned>>, now: Timestamp) -> (r: bool)
        requires
            found matches Some(list) ==> rollups_fit(
                listing(rescanned(catalog(old(self).file_totals), list@)),
            ),
        ensures
            match found {
                Some(list) => {
                    &&& r == scan_changes(catalog(old(self).file_totals), list@)
                    &&& r ==> is_rescanned(*old(self), *final(self), list@, now)
                },
                None => !r,
            },
            !r ==> *final(self) == *old(self),
    {
        match found {
            Some(list) => self.take_in(list, now),
            None => false,
        }
    }

    fn take_in(&mut self, found: Vec<Scanned>, now: Timestamp) -> (r: bool)
        requires
            rollups_fit(listing(rescanned(catalog(old(self).file_totals), found@))),
        ensures
            r == scan_changes(catalog(old(self).file_totals), found@),
            r ==> is_rescanned(*old(self), *final(self), found@, now),
            !r ==> *final(self) == *old(self),
    {
        let ghost start = catalog(self.file_totals);
        let mut seen: Table<FilePath, bool> = Table::new();
        let mut changed = false;
        let ghost initial = *self;
        for f in it: found
            invariant
                it.seq() == found@,
                start == catalog(initial.file_totals),
                catalog(self.file_totals) == taken_in(start, found@.take(it.index() as int)),
                changed == some_taken_in(start, found@, it.index() as int),
                !changed ==> *self == initial,
                self.version == initial.version,
                forall|p: Seq<Part>| #[trigger]
                    seen@.dom().contains(p) <==> is_found(found@.take(it.index() as int), p),
        {
            let ghost i = it.index() as int;
            let ghost before = catalog(self.file_totals);
            let ghost prior = seen@;
            proof {
                lemma_taken_step(start, found@, i);
                assert(found@[i] == f);
            }
            let Scanned { path, mtime, entry } = f;
            let ghost key = path@;
            seen.insert(path.duplicate(), true);
            if self.is_stale(&path, mtime) {
                if let Some(fe) = entry {
                    self.file_totals.insert(path, fe);
                    changed = true;
                    assert(catalog(self.file_totals) =~= before.insert(key, fe@));
                }
            }
            proof {
                assert forall|p: Seq<Part>| #[trigger] seen@.dom().contains(p) <==> is_found(
                    found@.take(i + 1),
                    p,
                ) by {
                    lemma_found_step(found@, i, p);
                    assert(seen@.dom().contains(p) <==> prior.dom().contains(p) || p == key);
                }
            }
        }
        assert(found@.take(found@.len() as int) =~= found@);
        let ghost taken = catalog(self.file_totals);
        let lost = any_unseen(&self.file_totals, &seen);
        proof {
            assert(lost <==> exists|p: Seq<Part>|
                taken.dom().contains(p) && !is_found(found@, p) && !(#[trigger] taken[p]).tombstoned);
        }
        if lost {
            let mut table: Table<FilePath, FileEntry> = Table::new();
            std::mem::swap(&mut table, &mut self.file_totals);
            self.file_totals = bury_unseen(table, &seen);
            changed = true;
        }
        if changed {
            assert(catalog(self.file_totals) =~= rescanned(start, found@));
            let _count: usize = self.file_totals.len();
            proof {
                lemma_filed(self.file_totals);
            }
            self.rebuild_rollups();
            self.scanned_files = self.live_files();
            self.last_scanned_at = Some(now);
        }
        changed
    }
}

/// The file that entry `c` of a plan stands for: one that was found and read, or
/// one that is kept.
spec fn planned(kept: Seq<FileEntry>, found: Seq<Scanned>, c: (bool, usize)) -> Filed {
    if c.0 {
        found[c.1 as int].entry->0@
    } else {
        kept[c.1 as int]@
    }
}

spec fn can_be_planned(kept: Seq<FileEntry>, found: Seq<Scanned>, c: (bool, usize)) -> bool {
    if c.0 {
        c.1 < found.len() && found[c.1 as int].entry is Some
    } else {
        c.1 < kept.len()
    }
}

/// The files of a plan by path.
spec fn plan_of(
    plan: Map<Seq<Part>, (bool, usize)>,
    kept: Seq<FileEntry>,
    found: Seq<Scanned>,
) -> Map<Seq<Part>, Filed> {
    plan.map_values(|c: (bool, usize)| planned(kept, found, c))
}

/// The files of a plan in the order of their paths.
spec fn planned_files(
    plan: Table<FilePath, (bool, usize)>,
    kept: Seq<FileEntry>,
    found: Seq<Scanned>,
) -> Seq<(Seq<Part>, Filed)> {
    Seq::new(
        plan.keys().len(),
        |i: int| (plan.keys()[i], planned(kept, found, plan.values()[i])),
    )
}

proof fn lemma_plan_listed(
    plan: Table<FilePath, (bool, usize)>,
    kept: Seq<FileEntry>,
    found: Seq<Scanned>,
)
    requires
        ascending::<FilePath>(plan.keys()),
        plan.keys().len() == plan.values().len(),
    ensures
        is_listing(planned_files(plan, kept, found), plan_of(plan@, kept, found)),
{
    let s = planned_files(plan, kept, found);
    let m = plan_of(plan@, kept, found);
    assert(s.map_values(|f: (Seq<Part>, Filed)| f.0) =~= plan.keys());
    assert forall|i: int| 0 <= i < s.len() implies m.dom().contains((#[trigger] s[i]).0)
        && m[s[i].0] == s[i].1 by {
        crate::table::paired_at::<FilePath, (bool, usize)>(plan.keys(), plan.values(), i);
    }
    assert forall|p: Seq<Part>| #[trigger] m.dom().contains(p) implies exists|i: int|
        0 <= i < s.len() && (#[trigger] s[i]).0 == p by {
        let i = plan.keys().index_of(p);
        assert(s[i].0 == p);
    }
}

/// The counts after a scan fit exactly when those of the files taken in do: that
/// files are marked as gone changes no sum.
proof fn lemma_scan_sums(
    files: Seq<(Seq<Part>, Filed)>,
    m: Map<Seq<Part>, Filed>,
    found: Seq<Scanned>,
)
    requires
        is_listing(files, taken_in(m, found)),
    ensures
        rollups_fit(listing(rescanned(m, found))) == rollups_fit(files),
{
    lemma_seen_or_buried(files, m, found);
    let after = listing(rescanned(m, found));
    assert forall|d: i32| #[trigger] day_sum(after, d) == day_sum(files, d) by {
        gone_files_still_count(after, files, d, seq![]);
    }
    assert forall|p: Seq<char>| #[trigger] project_sum(after, p) == project_sum(files, p) by {
        gone_files_still_count(after, files, 0, p);
    }
    if rollups_fit(files) {
        assert forall|d: i32| (#[trigger] day_sum(after, d)).fits() by {
            assert(day_sum(files, d).fits());
        }
        assert forall|p: Seq<char>| #[trigger] project_sum(after, p) <= u64::MAX by {
            assert(project_sum(files, p) <= u64::MAX);
        }
    }
    if rollups_fit(after) {
        assert forall|d: i32| (#[trigger] day_sum(files, d)).fits() by {
            assert(day_sum(after, d).fits());
        }
        assert forall|p: Seq<char>| #[trigger] project_sum(files, p) <= u64::MAX by {
            assert(project_sum(after, p) <= u64::MAX);
        }
    }
}

impl Aggregates {
    /// Which file each path stands for once the transcripts that were found are
    /// taken in.
    fn plan_scan(&self, found: &Vec<Scanned>) -> (r: Table<FilePath, (bool, usize)>)
        ensures
            plan_of(r@, self.file_totals.values(), found@) == taken_in(
                catalog(self.file_totals),
                found@,
            ),
            forall|p: Seq<Part>| #[trigger]
                r@.dom().contains(p) ==> can_be_planned(
                    self.file_totals.values(),
                    found@,
                    r@[p],
                ),
    {
        let ghost kept = self.file_totals.values();
        let ghost start = catalog(self.file_totals);
        let ghost keys = self.file_totals.keys();
        let n: usize = self.file_totals.len();
        let mut paths: Vec<FilePath> = Vec::new();
        let mut sources: Vec<(bool, usize)> = Vec::new();
        let mut i: usize = 0;
        while i < n
            invariant
                i <= n,
                n == keys.len(),
                keys == self.file_totals.keys(),
                paths.len() == i,
                sources.len() == i,
                paths@.map_values(|k: FilePath| k@) =~= keys.take(i as int),
                forall|k: int| 0 <= k < i ==> #[trigger] sources@[k] == (false, k as usize),
            decreases n - i,
        {
            let ghost before = paths@;
            paths.push(self.file_totals.key_at(i).duplicate());
            assert(paths@.map_values(|k: FilePath| k@) =~= before.map_values(
                |k: FilePath| k@,
            ).push(keys[i as int]));
            sources.push((false, i));
            i = i + 1;
        }
        assert(keys.take(n as int) =~= keys);
        let mut plan = Table::from_parts(paths, sources);
        proof {
            assert forall|p: Seq<Part>| #[trigger] plan@.dom().contains(p) implies {
                &&& can_be_planned(kept, found@, plan@[p])
                &&& planned(kept, found@, plan@[p]) == start[p]
            } by {
                let k = keys.index_of(p);
                assert(keys[k] == p);
                crate::table::paired_at::<FilePath, (bool, usize)>(keys, plan.values(), k);
                crate::table::paired_at::<FilePath, FileEntry>(keys, kept, k);
            }
            assert(plan_of(plan@, kept, found@) =~= start);
            assert(found@.take(0) =~= seq![]);
        }
        let mut j: usize = 0;
        while j < found.len()
            invariant
                j <= found.len(),
                kept == self.file_totals.values(),
                plan_of(plan@, kept, found@) == taken_in(start, found@.take(j as int)),
                forall|p: Seq<Part>| #[trigger]
                    plan@.dom().contains(p) ==> can_be_planned(kept, found@, plan@[p]),
            decreases found.len() - j,
        {
            let f = &found[j];
            proof {
                lemma_taken_step(start, found@, j as int);
            }
            let ghost before = plan@;
            let stale = match plan.get(&f.path) {
                Some((read, k)) => {
                    assert(can_be_planned(kept, found@, before[f.path@]));
                    let fe = self.planned_entry(found, *read, *k);
                    fe.mtime_unix_ns != f.mtime || fe.tombstoned
                },
                None => true,
            };
            assert(stale == crate::history::stale(
                plan_of(before, kept, found@),
                f.path@,
                f.mtime as int,
            ));
            if stale && f.entry.is_some() {
                plan.insert(f.path.duplicate(), (true, j));
                assert(plan_of(plan@, kept, found@) =~= plan_of(before, kept, found@).insert(
                    f.path@,
                    f.entry->0@,
                ));
            }
            j = j + 1;
        }
        assert(found@.take(found@.len() as int) =~= found@);
        plan
    }

    fn planned_entry<'a>(&'a self, found: &'a Vec<Scanned>, read: bool, k: usize) -> (r:
        &'a FileEntry)
        requires
            can_be_planned(self.file_totals.values(), found@, (read, k)),
        ensures
            r@ == planned(self.file_totals.values(), found@, (read, k)),
    {
        if read {
            match &found[k].entry {
                Some(fe) => fe,
                None => self.file_totals.value_at(0),
            }
        } else {
            self.file_totals.value_at(k)
        }
    }

    /// Whether no rolled up count goes beyond 64 bits once the transcripts that
    /// were found are taken in.
    pub fn scan_fits(&self, found: &Vec<Scanned>) -> (r: bool)
        ensures
            r == rollups_fit(listing(rescanned(catalog(self.file_totals), found@))),
    {
        let ghost kept = self.file_totals.values();
        let plan = self.plan_scan(found);
        let n: usize = plan.len();
        let ghost files = planned_files(plan, kept, found@);
        proof {
            lemma_plan_listed(plan, kept, found@);
            lemma_scan_sums(files, catalog(self.file_totals), found@);
        }
        let mut by_day: Table<i32, Totals> = Table::new();
        let mut by_project: Table<String, ProjectTotals> = Table::new();
        let mut i: usize = 0;
        while i < n
            invariant
                i <= n,
                n == plan.keys().len(),
                n == plan.values().len(),
                ascending::<FilePath>(plan.keys()),
                kept == self.file_totals.values(),
                files == planned_files(plan, kept, found@),
                forall|p: Seq<Part>| #[trigger]
                    plan@.dom().contains(p) ==> can_be_planned(kept, found@, plan@[p]),
                rollups_fit(files.take(i as int)),
                rolls_up_days(counts_of(by_day@), files.take(i as int)),
                rolls_up_projects(project_counts_of(by_project@), files.take(i as int)),
                rollups_fit(files) == rollups_fit(
                    listing(rescanned(catalog(self.file_totals), found@)),
                ),
            decreases n - i,
        {
            let (read, k): (bool, usize) = *plan.value_at(i);
            let fe = self.planned_entry(found, read, k);
            let fits = add_file(
                &mut by_day,
                &mut by_project,
                fe,
                Ghost(files.take(i as int)),
                Ghost(files[i as int]),
            );
            assert(files.take(i + 1) =~= files.take(i as int).push(files[i as int]));
            if !fits {
                proof {
                    lemma_unfit_prefix(files, i + 1);
                }
                return false;
            }
            i = i + 1;
        }
        assert(files.take(n as int) =~= files);
        true
    }

    /// Whether no rolled up count goes beyond 64 bits once the files that are
    /// gone are dropped.
    pub fn purge_fits(&self) -> (r: bool)
        ensures
            r == rollups_fit(live_only(self.files())),
    {
        let ghost all = self.files();
        let n: usize = self.file_totals.len();
        let mut by_day: Table<i32, Totals> = Table::new();
        let mut by_project: Table<String, ProjectTotals> = Table::new();
        proof {
            reveal(Seq::filter);
            assert(live_only(all.take(0)) =~= seq![]);
        }
        let mut i: usize = 0;
        while i < n
            invariant
                i <= n,
                n == self.file_totals.values().len(),
                all == self.files(),
                n == all.len(),
                rollups_fit(live_only(all.take(i as int))),
                rolls_up_days(counts_of(by_day@), live_only(all.take(i as int))),
                rolls_up_projects(project_counts_of(by_project@), live_only(all.take(i as int))),
            decreases n - i,
        {
            let fe = self.file_totals.value_at(i);
            let ghost before = live_only(all.take(i as int));
            proof {
                reveal(Seq::filter);
                assert(all.take(i + 1).drop_last() =~= all.take(i as int));
                assert(all.take(i + 1).last() == all[i as int]);
            }
            if !fe.tombstoned {
                let fits = add_file(
                    &mut by_day,
                    &mut by_project,
                    fe,
                    Ghost(before),
                    Ghost(all[i as int]),
                );
                if !fits {
                    proof {
                        lemma_live_prefix(all, i + 1);
                        lemma_unfit_prefix(
                            live_only(all),
                            live_only(all.take(i + 1)).len() as int,
                        );
                    }
                    return false;
                }
            }
            i = i + 1;
        }
        assert(all.take(n as int) =~= all);
        true
    }
}

/// The files that are still there among the first `i` are the first of those
/// that are still there.
proof fn lemma_live_prefix(files: Seq<(Seq<Part>, Filed)>, i: int)
    requires
        0 <= i <= files.len(),
    ensures
        live_only(files.take(i)).len() <= live_only(files).len(),
        live_only(files).take(live_only(files.take(i)).len() as int) == live_only(files.take(i)),
    decreases files.len(),
{
    reveal(Seq::filter);
    let part = live_only(files.take(i));
    if i == files.len() {
        assert(files.take(i) =~= files);
        assert(live_only(files).take(part.len() as int) =~= part);
    } else {
        let rest = files.drop_last();
        assert(rest.take(i) =~= files.take(i));
        lemma_live_prefix(rest, i);
        assert(live_only(files).take(part.len() as int) =~= live_only(rest).take(
            part.len() as int,
        ));
    }
}

/// Whether some file that is still there has a path outside `seen`.
fn any_unseen(table: &Table<FilePath, FileEntry>, seen: &Table<FilePath, bool>) -> (r: bool)
    ensures
        r <==> exists|p: Seq<Part>|
            catalog(*table).dom().contains(p) && !seen@.dom().contains(p) && !(
            #[trigger] catalog(*table)[p]).tombstoned,
{
    let n: usize = table.len();
    let ghost m = catalog(*table);
    let mut i: usize = 0;
    while i < n
        invariant
            i <= n,
            n == table.keys().len(),
            n == table.values().len(),
            m == catalog(*table),
            forall|k: int|
                0 <= k < i ==> seen@.dom().contains(#[trigger] table.keys()[k])
                    || m[table.keys()[k]].tombstoned,
        decreases n - i,
    {
        let fe = table.value_at(i);
        let path = table.key_at(i);
        if !fe.tombstoned && seen.get(path).is_none() {
            assert(m.dom().contains(path@) && !m[path@].tombstoned);
            return true;
        }
        i = i + 1;
    }
    assert forall|p: Seq<Part>| m.dom().contains(p) && !seen@.dom().contains(p) implies (
    #[trigger] m[p]).tombstoned by {
        let k = table.keys().index_of(p);
        assert(table.keys()[k] == p);
    }
    false
}

/// Marks the files whose path is outside `seen` as gone.
fn bury_unseen(table: Table<FilePath, FileEntry>, seen: &Table<FilePath, bool>) -> (r: Table<
    FilePath,
    FileEntry,
>)
    ensures
        catalog(r).dom() == catalog(table).dom(),
        forall|p: Seq<Part>| #[trigger]
            catalog(r).dom().contains(p) ==> catalog(r)[p] == if seen@.dom().contains(p) {
                catalog(table)[p]
            } else {
                buried(catalog(table)[p])
            },
{
    let ghost keys = table.keys();
    let ghost start = table.values();
    let ghost m = catalog(table);
    let (paths, mut entries) = table.into_parts();
    let mut i: usize = 0;
    while i < entries.len()
        invariant
            i <= entries.len(),
            entries.len() == paths.len(),
            entries.len() == start.len(),
            keys == paths@.map_values(|k: FilePath| k@),
            forall|k: int|
                0 <= k < i ==> (#[trigger] entries@[k])@ == if seen@.dom().contains(keys[k]) {
                    start[k]@
                } else {
                    buried(start[k]@)
                },
            forall|k: int| i <= k < entries.len() ==> #[trigger] entries@[k] == start[k],
        decreases entries.len() - i,
    {
        assert(keys[i as int] == paths@[i as int]@);
        if seen.get(&paths[i]).is_none() {
            let fe = &mut entries[i];
            fe.tombstoned = true;
        }
        i = i + 1;
    }
    let r = Table::from_parts(paths, entries);
    proof {
        assert forall|p: Seq<Part>| #[trigger] catalog(r).dom().contains(p) implies catalog(r)[p]
            == if seen@.dom().contains(p) {
            m[p]
        } else {
            buried(m[p])
        } by {
            let k = keys.index_of(p);
            assert(keys[k] == p);
            assert(entries@[k]@ == r.values()[k]@);
        }
        assert(catalog(r).dom() =~= m.dom());
    }
    r
}

/// The files that are still there.
pub open spec fn live_only(files: Seq<(Seq<Part>, Filed)>) -> Seq<(Seq<Part>, Filed)> {
    files.filter(|f: (Seq<Part>, Filed)| !f.1.tombstoned)
}

/// The files of a table that are still there.
fn drop_gone(table: Table<FilePath, FileEntry>) -> (r: Table<FilePath, FileEntry>)
    ensures
        filed(r) == live_only(filed(table)),
        r.keys().len() == filed(r).len(),
{
    let ghost files = filed(table);
    let ghost keys = table.keys();
    let (paths, entries) = table.into_parts();
    let mut kept_paths: Vec<FilePath> = Vec::new();
    let mut kept: Vec<FileEntry> = Vec::new();
    let ghost live = |f: (Seq<Part>, Filed)| !f.1.tombstoned;
    let ghost values = entries@;
    let mut i: usize = 0;
    proof {
        reveal(Seq::filter);
    }
    for fe in it: entries
        invariant
            it.seq() == values,
            i == it.index(),
            values.len() == paths.len(),
            files.len() == values.len(),
            keys == paths@.map_values(|k: FilePath| k@),
            ascending::<FilePath>(keys),
            forall|k: int| 0 <= k < files.len() ==> #[trigger] files[k] == (keys[k], values[k]@),
            live == |f: (Seq<Part>, Filed)| !f.1.tombstoned,
            kept.len() == kept_paths.len(),
            kept.len() == files.take(i as int).filter(live).len(),
            forall|k: int|
                0 <= k < kept.len() ==> #[trigger] files.take(i as int).filter(live)[k] == (
                    kept_paths@[k]@,
                    kept@[k]@,
                ),
            ascending::<FilePath>(kept_paths@.map_values(|k: FilePath| k@)),
            forall|k: int, j: int|
                0 <= k < kept_paths.len() && i <= j < keys.len() ==> FilePath::below(
                    (#[trigger] kept_paths@[k])@,
                    #[trigger] keys[j],
                ),
    {
        proof {
            reveal(Seq::filter);
            assert(files.take(i + 1).drop_last() =~= files.take(i as int));
            assert(keys[i as int] == paths@[i as int]@);
            assert(files[i as int] == (keys[i as int], fe@));
        }
        if !fe.tombstoned {
            let ghost before = kept_paths@.map_values(|k: FilePath| k@);
            kept_paths.push(paths[i].duplicate());
            kept.push(fe);
            assert(kept_paths@.map_values(|k: FilePath| k@) =~= before.push(keys[i as int]));
        }
        i = i + 1;
    }
    assert(files.take(i as int) =~= files);
    let r = Table::from_parts(kept_paths, kept);
    assert(filed(r) =~= live_only(files));
    r
}

/// A file is either still there or gone.
pub proof fn live_and_gone(files: Seq<(Seq<Part>, Filed)>)
    ensures
        live_only(files).len() + gone_count(files) == files.len(),
    decreases files.len(),
{
    reveal(Seq::filter);
    if files.len() > 0 {
        live_and_gone(files.drop_last());
    }
}

/// `after` is what `before` becomes when the files that are gone are dropped, of
/// which there are `n`.
pub open spec fn is_purged(before: Aggregates, after: Aggregates, n: nat) -> bool {
    &&& n == gone_count(before.files())
    &&& n > 0 ==> {
        &&& after.files() == live_only(before.files())
        &&& after.rolled_up()
        &&& after.scanned_files == after.files().len()
        &&& after.last_scanned_at == before.last_scanned_at
        &&& after.version == before.version
    }
    &&& n == 0 ==> after == before
}

impl Aggregates {
    /// Drops the files whose transcript is gone. Says how many there were.
    pub fn purge_tombstoned(&mut self) -> (r: usize)
        requires
            gone_count(old(self).files()) > 0 ==> rollups_fit(live_only(old(self).files())),
        ensures
            is_purged(*old(self), *final(self), r as nat),
    {
        let removed: usize = self.tombstoned_count();
        if removed > 0 {
            let mut table: Table<FilePath, FileEntry> = Table::new();
            std::mem::swap(&mut table, &mut self.file_totals);
            self.file_totals = drop_gone(table);
            self.rebuild_rollups();
            self.scanned_files = self.file_totals.len();
        }
        removed
    }

    /// The tokens of each of the `n` days up to `today`, oldest first.
    pub fn last_n_days(&self, n: usize, today: i32) -> (r: Vec<(i32, Totals)>)
        requires
            n > 0 ==> day_in_range(today as int) && day_in_range(today - (n - 1)),
        ensures
            r.len() == n,
            forall|i: int|
                0 <= i < n ==> (#[trigger] r@[i]).0 == today - (n - 1 - i) && r@[i].1@ == count_at(
                    counts_of(self.by_day@),
                    r@[i].0,
                ),
    {
        let mut out: Vec<(i32, Totals)> = Vec::new();
        let mut i: usize = 0;
        while i < n
            invariant
                i <= n,
                n > 0 ==> day_in_range(today as int) && day_in_range(today - (n - 1)),
                out.len() == i,
                forall|k: int|
                    0 <= k < i ==> (#[trigger] out@[k]).0 == today - (n - 1 - k) && out@[k].1@
                        == count_at(counts_of(self.by_day@), out@[k].0),
            decreases n - i,
        {
            let day: i32 = today - (n - 1 - i) as i32;
            let t: Totals = match self.by_day.get(&day) {
                Some(t) => *t,
                None => Totals::default(),
            };
            out.push((day, t));
            i = i + 1;
        }
        out
    }
}

/// The first day of the month after month `m` of year `y`.
pub open spec fn next_month(y: int, m: int) -> int {
    if m == 12 {
        day_number(y + 1, 1, 1)
    } else {
        day_number(y, m + 1, 1)
    }
}

/// `n`, held to 64 bits.
pub open spec fn saturated(n: nat) -> nat {
    if n > u64::MAX {
        u64::MAX as nat
    } else {
        n
    }
}

/// The tokens of month `m` of year `y` and what they come to at its end when
/// they go on as up to day `d`; nothing in the last month there is.
pub open spec fn month_figures(days: Map<i32, Count>, y: int, m: int, d: int) -> (nat, nat) {
    if day_in_range(next_month(y, m)) {
        let current = span_sum(days, day_number(y, m, 1), next_month(y, m));
        (current, saturated(current * (month_length(y, m) as nat)) / (d as nat))
    } else {
        (0, 0)
    }
}

proof fn lemma_month(y: int, m: int, d: int)
    requires
        is_date(y, m, d),
        day_in_range(day_number(y, m, d)),
    ensures
        next_month(y, m) == day_number(y, m, 1) + month_length(y, m),
        day_in_range(day_number(y, m, 1)),
        28 <= month_length(y, m) <= 31,
        m == 12 ==> (day_in_range(next_month(y, m)) <==> year_in_range(y + 1)),
        m < 12 ==> day_in_range(next_month(y, m)),
        m < 12 ==> is_date(y, m + 1, 1),
        year_in_range(y),
{
    range_of_days(y, m, d);
    range_of_days(y, m, 1);
    if m == 12 {
        range_of_days(y + 1, 1, 1);
        next_year(y);
    } else {
        range_of_days(y, m + 1, 1);
    }
}

impl Aggregates {
    /// The tokens of the month of `today` and a linear projection to its end.
    pub fn current_month_total_and_projection(&self, today: i32) -> (r: (u64, u64))
        requires
            day_in_range(today as int),
            forall|y: int, m: int, d: int|
                is_date(y, m, d) && #[trigger] day_number(y, m, d) == today && day_in_range(
                    next_month(y, m),
                ) ==> span_sum(
                    counts_of(self.by_day@),
                    day_number(y, m, 1),
                    next_month(y, m),
                ) <= u64::MAX,
        ensures
            forall|y: int, m: int, d: int|
                is_date(y, m, d) && #[trigger] day_number(y, m, d) == today ==> (
                r.0 as nat,
                r.1 as nat,
            ) == month_figures(counts_of(self.by_day@), y, m, d),
    {
        proof {
            every_day_has_a_date(today as int);
        }
        match self.month_if_fits(today) {
            Some(figures) => figures,
            None => (0, 0),
        }
    }

    /// The tokens of the month of `today` and a linear projection to its end,
    /// where they fit in 64 bits.
    pub fn month_if_fits(&self, today: i32) -> (r: Option<(u64, u64)>)
        requires
            day_in_range(today as int),
        ensures
            forall|y: int, m: int, d: int|
                is_date(y, m, d) && #[trigger] day_number(y, m, d) == today ==> match r {
                    Some(figures) => (figures.0 as nat, figures.1 as nat) == month_figures(
                        counts_of(self.by_day@),
                        y,
                        m,
                        d,
                    ),
                    None => month_figures(counts_of(self.by_day@), y, m, d).0 > u64::MAX,
                },
    {
        let (year, month, day): (i32, u32, u32) = match date_of(today) {
            Some(date) => date,
            None => {
                return Some((0, 0));
            },
        };
        let ghost days = counts_of(self.by_day@);
        let ghost (y, m, d) = (year as int, month as int, day as int);
        proof {
            lemma_month(y, m, d);
            assert forall|y1: int, m1: int, d1: int|
                is_date(y1, m1, d1) && #[trigger] day_number(y1, m1, d1) == today implies y1 == y && m1
                == m && d1 == d by {
                date_is_unique(y1, m1, d1, y, m, d);
            }
        }
        let start: i32 = match day_of(year, month, 1) {
            Some(s) => s,
            None => {
                return Some((0, 0));
            },
        };
        let next = if month == 12 {
            day_of(year + 1, 1, 1)
        } else {
            day_of(year, month + 1, 1)
        };
        let end: i32 = match next {
            Some(e) => e,
            None => {
                return Some((0, 0));
            },
        };
        let days_in_month: u64 = (end - start) as u64;
        let days_elapsed: u64 = (today - start + 1) as u64;
        let current: u64 = match sum_within(&self.by_day, start as i64, end as i64) {
            Some(sum) => sum,
            None => {
                return None;
            },
        };
        let scaled: u64 = match current.checked_mul(days_in_month) {
            Some(s) => s,
            None => u64::MAX,
        };
        assert(scaled == saturated((current * days_in_month) as nat));
        Some((current, scaled / days_elapsed))
    }
}

/// All tokens of a file.
pub open spec fn file_sum(f: Filed) -> nat {
    span_sum(f.by_day, i32::MIN as int, i32::MAX + 1)
}

/// The tokens of a file from day `since` on.
pub open spec fn recent_sum(f: Filed, since: i32) -> nat {
    span_sum(f.by_day, since as int, i32::MAX + 1)
}

/// `total` times `part`, rounded.
pub open spec fn share(total: nat, part: Value) -> nat {
    cut(half_away(times(ratio_value(total, 1), part)), 0, u64::MAX as int) as nat
}

/// What a project is taken to have used in a file from day `since` on: the same
/// part of its tokens as of all tokens of the file.
pub open spec fn portion(f: Filed, since: i32, project: Seq<char>) -> nat {
    if f.by_project.dom().contains(project) && recent_sum(f, since) > 0 {
        share(
            f.by_project[project].total,
            over(ratio_value(recent_sum(f, since), 1), ratio_value(file_sum(f), 1)),
        )
    } else {
        0
    }
}

/// What a project is taken to have used from day `since` on.
pub open spec fn portion_sum(files: Seq<(Seq<Part>, Filed)>, since: i32, project: Seq<char>) -> nat
    decreases files.len(),
{
    if files.len() == 0 {
        0
    } else {
        portion_sum(files.drop_last(), since, project) + portion(files.last().1, since, project)
    }
}

/// The tokens by which projects are ranked.
pub open spec fn standings(agg: Aggregates, since: Option<i32>) -> Map<Seq<char>, nat> {
    match since {
        None => agg.by_project@.map_values(|t: ProjectTotals| t.total as nat),
        Some(day) => Map::new(
            |p: Seq<char>| portion_sum(agg.files(), day, p) > 0,
            |p: Seq<char>| portion_sum(agg.files(), day, p),
        ),
    }
}

/// Project `a` stands before project `b`: it has more tokens, or as many and a
/// name that comes first.
pub open spec fn stands_before(m: Map<Seq<char>, nat>, a: Seq<char>, b: Seq<char>) -> bool {
    m[a] > m[b] || (m[a] == m[b] && text_below(a, b))
}

/// `r` lists the first `n` projects of `m`.
pub open spec fn leads(r: Seq<(Seq<char>, nat)>, m: Map<Seq<char>, nat>, n: int) -> bool {
    &&& r.len() <= n
    &&& forall|i: int|
        0 <= i < r.len() ==> m.dom().contains((#[trigger] r[i]).0) && m[r[i].0] == r[i].1
    &&& forall|i: int, j: int|
        0 <= i < j < r.len() ==> stands_before(m, (#[trigger] r[i]).0, (#[trigger] r[j]).0)
    &&& forall|p: Seq<char>|
        #![trigger m.dom().contains(p)]
        m.dom().contains(p) ==> (exists|i: int| 0 <= i < r.len() && (#[trigger] r[i]).0 == p) || (
        r.len() == n && forall|i: int|
            0 <= i < r.len() ==> stands_before(m, (#[trigger] r[i]).0, p))
}

/// The first `n` projects of `m`.
pub open spec fn leaders(m: Map<Seq<char>, nat>, n: int) -> Seq<(Seq<char>, nat)> {
    choose|r: Seq<(Seq<char>, nat)>| leads(r, m, n)
}

pub open spec fn projects_of(v: Seq<(String, u64)>) -> Seq<(Seq<char>, nat)> {
    v.map_values(|p: (String, u64)| (p.0@, p.1 as nat))
}

/// The first `n` entries of a table by weight, heaviest first.
fn pick_leading(acc: &Table<String, u64>, n: usize) -> (r: Vec<(String, u64)>)
    ensures
        leads(projects_of(r@), acc@.map_values(|t: u64| t as nat), n as int),
        projects_of(r@) == leaders(acc@.map_values(|t: u64| t as nat), n as int),
{
    let len: usize = acc.len();
    let ghost keys = acc.keys();
    let ghost m = acc@.map_values(|t: u64| t as nat);
    let mut standing: Vec<Weight> = Vec::new();
    let mut i: usize = 0;
    while i < len
        invariant
            i <= len,
            len == acc.values().len(),
            standing.len() == i,
            forall|j: int| 0 <= j < i ==> (#[trigger] standing@[j]).tokens == acc.values()[j],
        decreases len - i,
    {
        standing.push(Weight { tokens: *acc.value_at(i) });
        i = i + 1;
    }
    let ghost weights = standing@.map_values(|k: Weight| k@);
    assert(weights =~= acc.values());
    let order = rank(&standing);
    let mut out: Vec<(String, u64)> = Vec::new();
    let mut k: usize = 0;
    while k < n && k < len
        invariant
            k <= n,
            k <= len,
            len == order.len(),
            len == keys.len(),
            len == weights.len(),
            keys == acc.keys(),
            weights == acc.values(),
            is_ranking::<Weight>(order@, weights),
            out.len() == k,
            forall|j: int|
                0 <= j < k ==> (#[trigger] out@[j]).0@ == keys[order@[j] as int] && out@[j].1
                    == weights[order@[j] as int],
        decreases len - k,
    {
        let at: usize = order[k];
        out.push((acc.key_at(at).clone(), *acc.value_at(at)));
        k = k + 1;
    }
    proof {
        assert forall|j: int| 0 <= j < len implies m.dom().contains(#[trigger] keys[j]) && m[keys[j]]
            == weights[j] by {
            crate::table::paired_at::<String, u64>(keys, acc.values(), j);
        }
        assert forall|a: usize, b: usize|
            a < len && b < len && ranks_before::<Weight>(weights, a, b) implies stands_before(
            m,
            keys[a as int],
            keys[b as int],
        ) by {
            assert(m[keys[a as int]] == weights[a as int]);
            assert(m[keys[b as int]] == weights[b as int]);
        }
        let list = projects_of(out@);
        assert forall|p: Seq<char>| #![trigger m.dom().contains(p)] m.dom().contains(p) implies (
        exists|i: int| 0 <= i < list.len() && (#[trigger] list[i]).0 == p) || (list.len() == n
            && forall|i: int|
            0 <= i < list.len() ==> stands_before(m, (#[trigger] list[i]).0, p)) by {
            let at = keys.index_of(p);
            assert(keys[at] == p);
            crate::ranking::every_item_is_ranked::<Weight>(order@, weights, at as usize);
            let h = order@.index_of(at as usize);
            assert(order@[h] == at);
            if h < k {
                assert(list[h].0 == p);
            } else {
                assert forall|i: int| 0 <= i < list.len() implies stands_before(
                    m,
                    (#[trigger] list[i]).0,
                    p,
                ) by {
                    assert(out@[i].0@ == list[i].0);
                    assert(ranks_before::<Weight>(weights, order@[i], order@[h]));
                }
            }
        }
        assert forall|i: int| 0 <= i < list.len() implies m.dom().contains((#[trigger] list[i]).0)
            && m[list[i].0] == list[i].1 by {
            assert(out@[i].0@ == list[i].0);
            assert(m.dom().contains(keys[order@[i] as int]));
        }
        assert forall|i: int, j: int| 0 <= i < j < list.len() implies stands_before(
            m,
            (#[trigger] list[i]).0,
            (#[trigger] list[j]).0,
        ) by {
            assert(out@[i].0@ == list[i].0);
            assert(out@[j].0@ == list[j].0);
            assert(ranks_before::<Weight>(weights, order@[i], order@[j]));
        }
        assert(leads(list, m, n as int));
        leading_list_is_unique(list, leaders(m, n as int), m, n as int);
    }
    out
}

spec fn share_at(m: Map<Seq<char>, ProjectTotals>, part: Value, p: Seq<char>) -> nat {
    if m.dom().contains(p) {
        share(m[p].total as nat, part)
    } else {
        0
    }
}

spec fn amount_at(m: Map<Seq<char>, u64>, p: Seq<char>) -> nat {
    if m.dom().contains(p) {
        m[p] as nat
    } else {
        0
    }
}

spec fn all_positive(m: Map<Seq<char>, u64>) -> bool {
    forall|p: Seq<char>| #[trigger] m.dom().contains(p) ==> m[p] > 0
}

/// Adds the share `part` of each project of a file.
fn add_portions(acc: &mut Table<String, u64>, from: &Table<String, ProjectTotals>, part: Double)
    requires
        all_positive(old(acc)@),
        forall|p: Seq<char>| #[trigger]
            amount_at(old(acc)@, p) + share_at(from@, part@, p) <= u64::MAX,
    ensures
        all_positive(final(acc)@),
        forall|p: Seq<char>| #[trigger]
            amount_at(final(acc)@, p) == amount_at(old(acc)@, p) + share_at(from@, part@, p),
{
    let ghost start = acc@;
    let n: usize = from.len();
    let ghost keys = from.keys();
    let mut j: usize = 0;
    while j < n
        invariant
            j <= n,
            n == keys.len(),
            n == from.values().len(),
            keys == from.keys(),
            ascending::<String>(keys),
            all_positive(acc@),
            forall|p: Seq<char>| #[trigger]
                amount_at(start, p) + share_at(from@, part@, p) <= u64::MAX,
            forall|p: Seq<char>| #[trigger]
                amount_at(acc@, p) == amount_at(start, p) + if keys.take(j as int).contains(p) {
                    share_at(from@, part@, p)
                } else {
                    0
                },
        decreases n - j,
    {
        let project = from.key_at(j);
        let of_project = from.value_at(j);
        let amount: u64 = Double::from_u64(of_project.total).mul(part).round().to_u64();
        let ghost key = project@;
        let ghost taken = keys.take(j as int);
        let ghost before = acc@;
        proof {
            assert(amount == share_at(from@, part@, key));
            assert(!taken.contains(key)) by {
                if taken.contains(key) {
                    let k = taken.index_of(key);
                    assert(keys[k] == keys[j as int]);
                    String::irreflexive(key);
                }
            }
            assert(amount_at(before, key) == amount_at(start, key));
            let next = keys.take(j + 1);
            assert forall|p: Seq<char>| next.contains(p) <==> taken.contains(p) || p == key by {
                if taken.contains(p) {
                    assert(next[taken.index_of(p)] == p);
                }
                assert(next[j as int] == key);
                if next.contains(p) && p != key {
                    let k = next.index_of(p);
                    assert(taken[k] == p);
                }
            }
        }
        if amount > 0 {
            let was: u64 = match acc.get(project) {
                Some(t) => *t,
                None => 0,
            };
            acc.insert(project.clone(), was + amount);
            assert forall|p: Seq<char>| p != key implies #[trigger] amount_at(acc@, p) == amount_at(
                before,
                p,
            ) by {}
        }
        j = j + 1;
    }
    assert(keys.take(n as int) =~= keys);
    assert forall|p: Seq<char>| keys.contains(p) <==> from@.dom().contains(p) by {}
}

proof fn lemma_portion_prefix(files: Seq<(Seq<Part>, Filed)>, i: int, since: i32, p: Seq<char>)
    requires
        0 <= i <= files.len(),
    ensures
        portion_sum(files.take(i), since, p) <= portion_sum(files, since, p),
    decreases files.len() - i,
{
    if i == files.len() {
        assert(files.take(i) =~= files);
    } else {
        lemma_portion_prefix(files, i + 1, since, p);
        assert(files.take(i + 1).drop_last() =~= files.take(i));
    }
}

impl Aggregates {
    /// The first `n` projects by tokens, of all time or from day `since` on.
    pub fn top_projects(&self, n: usize, since: Option<i32>) -> (r: Vec<(String, u64)>)
        requires
            match since {
                Some(day) => portions_fit(self.files(), day),
                None => true,
            },
        ensures
            leads(projects_of(r@), standings(*self, since), n as int),
            projects_of(r@) == leaders(standings(*self, since), n as int),
            r.len() <= n,
            forall|i: int, j: int|
                0 <= i < j < r.len() ==> (#[trigger] r@[i]).1 >= (#[trigger] r@[j]).1,
    {
        let mut acc: Table<String, u64> = Table::new();
        match since {
            None => {
                let len: usize = self.by_project.len();
                let ghost keys = self.by_project.keys();
                let mut i: usize = 0;
                while i < len
                    invariant
                        i <= len,
                        len == keys.len(),
                        keys == self.by_project.keys(),
                        len == self.by_project.values().len(),
                        forall|p: Seq<char>| #[trigger]
                            acc@.dom().contains(p) <==> keys.take(i as int).contains(p),
                        forall|p: Seq<char>| #[trigger]
                            acc@.dom().contains(p) ==> self.by_project@.dom().contains(p) && acc@[p]
                                == self.by_project@[p].total,
                    decreases len - i,
                {
                    let project = self.by_project.key_at(i);
                    let totals = self.by_project.value_at(i);
                    proof {
                        let taken = keys.take(i as int);
                        let next = keys.take(i + 1);
                        let key = project@;
                        assert forall|p: Seq<char>| #[trigger] next.contains(p) <==> taken.contains(p)
                            || p == key by {
                            if taken.contains(p) {
                                assert(next[taken.index_of(p)] == p);
                            }
                            assert(next[i as int] == key);
                            if next.contains(p) && p != key {
                                let k = next.index_of(p);
                                assert(taken[k] == p);
                            }
                        }
                    }
                    acc.insert(project.clone(), totals.total);
                    i = i + 1;
                }
                assert(keys.take(len as int) =~= keys);
                assert(acc@.map_values(|t: u64| t as nat) =~= standings(*self, since));
            },
            Some(day) => {
                let ghost files = self.files();
                let len: usize = self.file_totals.len();
                let mut i: usize = 0;
                while i < len
                    invariant
                        i <= len,
                        len == files.len(),
                        files == self.files(),
                        len == self.file_totals.values().len(),
                        forall|k: int|
                            0 <= k < files.len() ==> file_sum((#[trigger] files[k]).1) <= u64::MAX,
                        forall|p: Seq<char>| #[trigger] portion_sum(files, day, p) <= u64::MAX,
                        all_positive(acc@),
                        forall|p: Seq<char>| #[trigger]
                            amount_at(acc@, p) == portion_sum(files.take(i as int), day, p),
                    decreases len - i,
                {
                    let fe = self.file_totals.value_at(i);
                    let ghost after = files.take(i + 1);
                    let ghost before = acc@;
                    proof {
                        assert(after.drop_last() =~= files.take(i as int));
                        assert(after.last() == files[i as int]);
                        assert(files[i as int].1 == fe@);
                        lemma_recent(fe@, day);
                    }
                    let all: u64 = sum_between(&fe.by_day, i32::MIN as i64, i32::MAX as i64 + 1);
                    let recent: u64 = sum_between(&fe.by_day, day as i64, i32::MAX as i64 + 1);
                    if all > 0 && recent > 0 {
                        let part = Double::from_u64(recent).div(Double::from_u64(all));
                        proof {
                            assert forall|p: Seq<char>| #[trigger]
                                amount_at(acc@, p) + share_at(fe.by_project@, part@, p)
                                    <= u64::MAX by {
                                lemma_portion_prefix(files, i + 1, day, p);
                                assert(share_at(fe.by_project@, part@, p) == portion(fe@, day, p));
                                assert(portion_sum(files, day, p) <= u64::MAX);
                            }
                        }
                        add_portions(&mut acc, &fe.by_project, part);
                        assert forall|p: Seq<char>| #[trigger] amount_at(acc@, p) == portion_sum(
                            after,
                            day,
                            p,
                        ) by {
                            assert(amount_at(before, p) == portion_sum(files.take(i as int), day, p));
                            assert(share_at(fe.by_project@, part@, p) == portion(fe@, day, p));
                        }
                    }
                    i = i + 1;
                }
                assert(files.take(len as int) =~= files);
                proof {
                    let m = standings(*self, since);
                    assert forall|p: Seq<char>| #[trigger] acc@.dom().contains(p) <==> m.dom().contains(
                        p,
                    ) by {
                        assert(amount_at(acc@, p) == portion_sum(files, day, p));
                    }
                    assert forall|p: Seq<char>| #[trigger] acc@.dom().contains(p) implies acc@[p] as nat
                        == m[p] by {
                        assert(amount_at(acc@, p) == portion_sum(files, day, p));
                    }
                    assert(acc@.map_values(|t: u64| t as nat) =~= m);
                }
            },
        }
        let r = pick_leading(&acc, n);
        proof {
            let list = projects_of(r@);
            assert forall|i: int, j: int| 0 <= i < j < r.len() implies (#[trigger] r@[i]).1 >= (
            #[trigger] r@[j]).1 by {
                assert(stands_before(standings(*self, since), list[i].0, list[j].0));
            }
        }
        r
    }
}

/// Whether the share `part` of each project of a file can be added.
fn can_add_portions(
    acc: &Table<String, u64>,
    from: &Table<String, ProjectTotals>,
    part: Double,
) -> (r: bool)
    ensures
        r <==> forall|p: Seq<char>| #[trigger]
            amount_at(acc@, p) + share_at(from@, part@, p) <= u64::MAX,
{
    let n: usize = from.len();
    let ghost keys = from.keys();
    let mut j: usize = 0;
    while j < n
        invariant
            j <= n,
            n == keys.len(),
            n == from.values().len(),
            keys == from.keys(),
            forall|k: int|
                0 <= k < j ==> amount_at(acc@, #[trigger] keys[k]) + share_at(from@, part@, keys[k])
                    <= u64::MAX,
        decreases n - j,
    {
        let project = from.key_at(j);
        let of_project = from.value_at(j);
        let amount: u64 = Double::from_u64(of_project.total).mul(part).round().to_u64();
        let was: u64 = match acc.get(project) {
            Some(t) => *t,
            None => 0,
        };
        assert(amount == share_at(from@, part@, project@));
        assert(was == amount_at(acc@, project@));
        if amount > u64::MAX - was {
            return false;
        }
        j = j + 1;
    }
    assert forall|p: Seq<char>| #[trigger]
        amount_at(acc@, p) + share_at(from@, part@, p) <= u64::MAX by {
        if from@.dom().contains(p) {
            let k = keys.index_of(p);
            assert(keys[k] == p);
        }
    }
    true
}

/// Whether no count of the projects from day `day` on goes beyond 64 bits.
pub open spec fn portions_fit(files: Seq<(Seq<Part>, Filed)>, day: i32) -> bool {
    &&& forall|i: int| 0 <= i < files.len() ==> file_sum((#[trigger] files[i]).1) <= u64::MAX
    &&& forall|p: Seq<char>| #[trigger] portion_sum(files, day, p) <= u64::MAX
}

impl Aggregates {
    /// Whether the tokens of the `n` days up to `today` fit in 64 bits all
    /// together.
    pub fn days_fit(&self, n: i32, today: i32) -> (r: bool)
        requires
            0 < n,
            i32::MIN <= today - (n - 1),
        ensures
            r == (span_sum(counts_of(self.by_day@), today - (n - 1), today + 1) <= u64::MAX),
    {
        sum_within(&self.by_day, today as i64 - (n as i64 - 1), today as i64 + 1).is_some()
    }

    /// Whether no count of the projects from day `day` on goes beyond 64 bits.
    pub fn projects_fit(&self, day: i32) -> (r: bool)
        ensures
            r == portions_fit(self.files(), day),
    {
        let mut acc: Table<String, u64> = Table::new();
        let ghost files = self.files();
        let len: usize = self.file_totals.len();
        let mut i: usize = 0;
        while i < len
            invariant
                i <= len,
                len == files.len(),
                files == self.files(),
                len == self.file_totals.values().len(),
                forall|k: int| 0 <= k < i ==> file_sum((#[trigger] files[k]).1) <= u64::MAX,
                all_positive(acc@),
                forall|p: Seq<char>| #[trigger]
                    amount_at(acc@, p) == portion_sum(files.take(i as int), day, p),
            decreases len - i,
        {
            let fe = self.file_totals.value_at(i);
            let ghost after = files.take(i + 1);
            let ghost before = acc@;
            proof {
                assert(after.drop_last() =~= files.take(i as int));
                assert(after.last() == files[i as int]);
                assert(files[i as int].1 == fe@);
                lemma_recent(fe@, day);
            }
            let all: u64 = match sum_within(&fe.by_day, i32::MIN as i64, i32::MAX as i64 + 1) {
                Some(sum) => sum,
                None => {
                    return false;
                },
            };
            let recent: u64 = sum_between(&fe.by_day, day as i64, i32::MAX as i64 + 1);
            if all > 0 && recent > 0 {
                let part = Double::from_u64(recent).div(Double::from_u64(all));
                assert forall|p: Seq<char>| #[trigger] share_at(fe.by_project@, part@, p)
                    == portion(fe@, day, p) by {}
                if !can_add_portions(&acc, &fe.by_project, part) {
                    proof {
                        let p = choose|p: Seq<char>|
                            #[trigger] amount_at(acc@, p) + share_at(fe.by_project@, part@, p)
                                > u64::MAX;
                        assert(amount_at(acc@, p) == portion_sum(files.take(i as int), day, p));
                        assert(share_at(fe.by_project@, part@, p) == portion(fe@, day, p));
                        lemma_portion_prefix(files, i + 1, day, p);
                        assert(portion_sum(files, day, p) > u64::MAX);
                    }
                    return false;
                }
                add_portions(&mut acc, &fe.by_project, part);
                assert forall|p: Seq<char>| #[trigger] amount_at(acc@, p) == portion_sum(
                    after,
                    day,
                    p,
                ) by {
                    assert(amount_at(before, p) == portion_sum(files.take(i as int), day, p));
                    assert(share_at(fe.by_project@, part@, p) == portion(fe@, day, p));
                }
            }
            i = i + 1;
        }
        assert(files.take(len as int) =~= files);
        assert forall|p: Seq<char>| #[trigger] portion_sum(files, day, p) <= u64::MAX by {
            assert(amount_at(acc@, p) == portion_sum(files, day, p));
        }
        true
    }
}

proof fn lemma_recent(f: Filed, since: i32)
    ensures
        recent_sum(f, since) <= file_sum(f),
{
    lemma_span_split(f.by_day, i32::MIN as int, since as int, i32::MAX + 1);
}

/// The prompts of the files that are still there, in the order of the files.
pub open spec fn live_prompts(files: Seq<(Seq<Part>, Filed)>) -> Seq<Prompt>
    decreases files.len(),
{
    if files.len() == 0 {
        seq![]
    } else {
        let before = live_prompts(files.drop_last());
        if files.last().1.tombstoned {
            before
        } else {
            before + files.last().1.prompts
        }
    }
}

/// The prompts of day `since` and later, prompt `i` being of day `days[i]`.
pub open spec fn recent_prompts(prompts: Seq<Prompt>, days: Seq<i32>, since: i32) -> Seq<Prompt>
    decreases prompts.len(),
{
    if prompts.len() == 0 {
        seq![]
    } else {
        let before = recent_prompts(prompts.drop_last(), days, since);
        if days[prompts.len() - 1] < since {
            before
        } else {
            before.push(prompts.last())
        }
    }
}

/// The `n` heaviest of the prompts of day `since` and later, prompt `i` being of
/// day `days[i]`.
pub open spec fn heaviest_since(prompts: Seq<Prompt>, days: Seq<i32>, since: i32, n: int) -> Seq<
    Prompt,
> {
    heaviest(recent_prompts(prompts, days, since), n)
}

/// `days[i]` may be the local day of prompt `i`.
pub open spec fn may_be_of(prompts: Seq<Prompt>, days: Seq<i32>) -> bool {
    &&& days.len() == prompts.len()
    &&& forall|i: int|
        0 <= i < prompts.len() ==> is_near(days[i], (#[trigger] prompts[i]).timestamp)
}

/// The prompts of day `since` and later, prompt `i` being of day `days[i]`.
pub fn prompts_since(prompts: &Vec<PromptStat>, days: &Vec<i32>, since: i32) -> (r: Vec<PromptStat>)
    requires
        days.len() == prompts.len(),
    ensures
        prompts_of(r@) == recent_prompts(prompts_of(prompts@), days@, since),
{
    let ghost all = prompts_of(prompts@);
    let mut out: Vec<PromptStat> = Vec::new();
    let mut i: usize = 0;
    while i < prompts.len()
        invariant
            i <= prompts.len(),
            days.len() == prompts.len(),
            all == prompts_of(prompts@),
            prompts_of(out@) =~= recent_prompts(all.take(i as int), days@, since),
        decreases prompts.len() - i,
    {
        assert(all.take(i + 1).drop_last() =~= all.take(i as int));
        if days[i] >= since {
            let ghost before = out@;
            out.push(prompts[i].clone());
            assert(prompts_of(out@) =~= prompts_of(before).push(prompts@[i as int]@));
        }
        i = i + 1;
    }
    assert(all.take(i as int) =~= all);
    out
}

impl Aggregates {
    fn collect_prompts(&self) -> (r: Vec<PromptStat>)
        ensures
            prompts_of(r@) == live_prompts(self.files()),
    {
        let ghost files = self.files();
        let n: usize = self.file_totals.len();
        let mut out: Vec<PromptStat> = Vec::new();
        let mut i: usize = 0;
        assert(prompts_of(out@) =~= live_prompts(files.take(0)));
        while i < n
            invariant
                i <= n,
                n == files.len(),
                files == self.files(),
                n == self.file_totals.values().len(),
                prompts_of(out@) == live_prompts(files.take(i as int)),
            decreases n - i,
        {
            let fe = self.file_totals.value_at(i);
            proof {
                assert(files.take(i + 1).drop_last() =~= files.take(i as int));
                assert(files[i as int].1 == fe@);
            }
            if !fe.tombstoned {
                let ghost before = prompts_of(out@);
                let mut j: usize = 0;
                while j < fe.top_prompts.len()
                    invariant
                        j <= fe.top_prompts.len(),
                        prompts_of(out@) =~= before + prompts_of(fe.top_prompts@).take(j as int),
                    decreases fe.top_prompts.len() - j,
                {
                    let ghost was = out@;
                    out.push(fe.top_prompts[j].clone());
                    assert(prompts_of(out@) =~= prompts_of(was).push(fe.top_prompts@[j as int]@));
                    j = j + 1;
                }
                assert(prompts_of(fe.top_prompts@).take(j as int) =~= prompts_of(fe.top_prompts@));
            }
            i = i + 1;
        }
        assert(files.take(n as int) =~= files);
        out
    }

    /// The `n` heaviest prompts of the files that are still there, of all time
    /// or from local day `since` on.
    pub fn top_prompts(&self, n: usize, since: Option<i32>) -> (r: Vec<PromptStat>)
        requires
            since is Some ==> forall|i: int|
                0 <= i < live_prompts(self.files()).len() ==> (#[trigger] live_prompts(
                    self.files(),
                )[i]).timestamp.localizable(),
        ensures
            match since {
                None => prompts_of(r@) == heaviest(live_prompts(self.files()), n as int),
                Some(day) => exists|days: Seq<i32>| #[trigger]
                    may_be_of(live_prompts(self.files()), days) && prompts_of(r@) == heaviest(
                        recent_prompts(live_prompts(self.files()), days, day),
                        n as int,
                    ) && prompts_of(r@) == heaviest_since(
                        live_prompts(self.files()),
                        days,
                        day,
                        n as int,
                    ),
            },
            r.len() <= n,
            forall|i: int, j: int|
                0 <= i < j < r.len() ==> (#[trigger] r@[i]).tokens >= (#[trigger] r@[j]).tokens,
    {
        let all = self.collect_prompts();
        match since {
            None => pick_heaviest(&all, n),
            Some(day) => {
                let ghost prompts = prompts_of(all@);
                let mut days: Vec<i32> = Vec::new();
                let mut i: usize = 0;
                while i < all.len()
                    invariant
                        i <= all.len(),
                        days.len() == i,
                        prompts == prompts_of(all@),
                        forall|k: int|
                            0 <= k < prompts.len() ==> (
                            #[trigger] prompts[k]).timestamp.localizable(),
                        forall|k: int|
                            0 <= k < i ==> is_near(days@[k], (#[trigger] prompts[k]).timestamp),
                    decreases all.len() - i,
                {
                    assert(prompts[i as int] == all@[i as int]@);
                    days.push(all[i].timestamp.local_day());
                    i = i + 1;
                }
                assert(may_be_of(prompts, days@));
                pick_heaviest(&prompts_since(&all, &days, day), n)
            },
        }
    }
}

/// Where the last slash of `s` stands; -1 where there is none.
pub open spec fn last_slash(s: Seq<char>) -> int
    decreases s.len(),
{
    if s.len() == 0 || s.last() == '/' {
        s.len() - 1
    } else {
        last_slash(s.drop_last())
    }
}

/// What follows the last slash.
pub open spec fn base_name(s: Seq<char>) -> Seq<char> {
    s.skip(last_slash(s) + 1)
}

/// What stands between the last two slashes, or before the only one.
pub open spec fn parent_name(s: Seq<char>) -> Seq<char> {
    if last_slash(s) < 0 {
        seq![]
    } else {
        base_name(s.take(last_slash(s)))
    }
}

/// Another project of `all` has the same last name as `full`.
pub open spec fn collides(full: Seq<char>, all: Seq<Seq<char>>) -> bool {
    exists|i: int|
        0 <= i < all.len() && #[trigger] all[i] != full && base_name(all[i]) == base_name(full)
}

/// How the project `full` is called beside the projects `all`.
pub open spec fn short_name_of(full: Seq<char>, all: Seq<Seq<char>>) -> Seq<char> {
    if collides(full, all) && parent_name(full).len() > 0 {
        parent_name(full) + seq!['/'] + base_name(full)
    } else {
        base_name(full)
    }
}

/// Where the part of `chars` before `end` that follows its last slash starts.
fn start_of_last(chars: &Vec<char>, end: usize) -> (r: usize)
    requires
        end <= chars.len(),
    ensures
        r <= end,
        r == last_slash(chars@.take(end as int)) + 1,
{
    let mut i: usize = end;
    while i > 0 && chars[i - 1] != '/'
        invariant
            i <= end <= chars.len(),
            last_slash(chars@.take(i as int)) == last_slash(chars@.take(end as int)),
        decreases i,
    {
        assert(chars@.take(i as int).drop_last() =~= chars@.take(i - 1));
        i = i - 1;
    }
    i
}

pub open spec fn texts_of(v: Seq<&str>) -> Seq<Seq<char>> {
    v.map_values(|s: &str| s@)
}

/// The last part of a project's path, and the part before it as well where
/// another project of `all` ends in the same way.
pub fn short_name(full: &str, all: &[&str]) -> (r: String)
    ensures
        r@ == short_name_of(full@, texts_of(all@)),
{
    let ghost names = texts_of(all@);
    let chars = to_chars(full);
    assert(chars@.take(chars.len() as int) =~= chars@);
    let start: usize = start_of_last(&chars, chars.len());
    let base = from_chars(&chars, start, chars.len());
    assert(base@ =~= base_name(full@));
    let mut found = false;
    let mut i: usize = 0;
    while i < all.len() && !found
        invariant
            i <= all.len(),
            base@ == base_name(full@),
            names == texts_of(all@),
            found ==> collides(full@, names),
            !found ==> forall|k: int|
                0 <= k < i ==> #[trigger] names[k] == full@ || base_name(names[k]) != base_name(full@),
        decreases all.len() - i,
    {
        let other = to_chars(all[i]);
        let from: usize = start_of_last(&other, other.len());
        let name = from_chars(&other, from, other.len());
        proof {
            assert(other@.take(other.len() as int) =~= other@);
            assert(names[i as int] == all@[i as int]@);
            assert(name@ =~= base_name(names[i as int]));
        }
        if !same(all[i], full) && same(name.as_str(), base.as_str()) {
            found = true;
        }
        i = i + 1;
    }
    if !found || start == 0 {
        assert(!found ==> !collides(full@, names));
        return base;
    }
    let from: usize = start_of_last(&chars, start - 1);
    let mut out = from_chars(&chars, from, start - 1);
    assert(out@ =~= parent_name(full@));
    if from == start - 1 {
        return base;
    }
    out.push('/');
    out.append(base.as_str());
    assert(out@ =~= short_name_of(full@, names));
    out
}

/// The name of a transcript: something, then `.jsonl`.
pub open spec fn is_transcript_name(name: Seq<char>) -> bool {
    name.len() > 6 && name.skip(name.len() - 6) == ".jsonl"@
}

/// Whether a file of this name is a transcript.
pub fn is_transcript(name: &str) -> (r: bool)
    ensures
        r == is_transcript_name(name@),
{
    let chars = to_chars(name);
    if chars.len() <= 6 {
        return false;
    }
    let end = from_chars(&chars, chars.len() - 6, chars.len());
    assert(end@ =~= name@.skip(name@.len() - 6));
    same(end.as_str(), ".jsonl")
}

proof fn lemma_not_found(m: Map<Seq<Part>, Filed>, found: Seq<Scanned>, p: Seq<Part>)
    requires
        !is_found(found, p),
    ensures
        taken_in(m, found).dom().contains(p) == m.dom().contains(p),
        m.dom().contains(p) ==> taken_in(m, found)[p] == m[p],
    decreases found.len(),
{
    if found.len() > 0 {
        let rest = found.drop_last();
        assert(!is_found(rest, p)) by {
            if is_found(rest, p) {
                let i = choose|i: int| 0 <= i < rest.len() && (#[trigger] rest[i]).path@ == p;
                assert(found[i].path@ == p);
            }
        }
        assert(found[found.len() - 1].path@ != p);
        lemma_not_found(m, rest, p);
    }
}

/// A file whose transcript is gone is kept with all its counts.
pub proof fn removed_files_keep_their_counts(
    m: Map<Seq<Part>, Filed>,
    found: Seq<Scanned>,
    p: Seq<Part>,
)
    requires
        m.dom().contains(p),
        !is_found(found, p),
    ensures
        rescanned(m, found).dom().contains(p),
        rescanned(m, found)[p] == (Filed { tombstoned: true, ..m[p] }),
{
    lemma_not_found(m, found, p);
}

/// No path is found twice.
pub open spec fn found_once(found: Seq<Scanned>) -> bool {
    forall|i: int, j: int|
        0 <= i < j < found.len() ==> (#[trigger] found[i]).path@ != (#[trigger] found[j]).path@
}

proof fn lemma_taken_at(m: Map<Seq<Part>, Filed>, found: Seq<Scanned>, i: int)
    requires
        found_once(found),
        0 <= i < found.len(),
    ensures
        takes_at(m, found, i) == takes_in(m, found[i]),
        ({
            let p = found[i].path@;
            let taken = taken_in(m, found);
            if takes_in(m, found[i]) {
                taken.dom().contains(p) && taken[p] == found[i].entry->0@
            } else {
                taken.dom().contains(p) == m.dom().contains(p) && (m.dom().contains(p) ==> taken[p]
                    == m[p])
            }
        }),
    decreases found.len(),
{
    let p = found[i].path@;
    let before = found.take(i);
    assert(!is_found(before, p)) by {
        if is_found(before, p) {
            let k = choose|k: int| 0 <= k < before.len() && (#[trigger] before[k]).path@ == p;
            assert(found[k].path@ == p);
        }
    }
    lemma_not_found(m, before, p);
    let rest = found.drop_last();
    if i < found.len() - 1 {
        assert(found_once(rest)) by {
            assert forall|a: int, b: int| 0 <= a < b < rest.len() implies (
            #[trigger] rest[a]).path@ != (#[trigger] rest[b]).path@ by {
                assert(found[a].path@ != found[b].path@);
            }
        }
        lemma_taken_at(m, rest, i);
        assert(rest[i] == found[i]);
        assert(found[i].path@ != found[found.len() - 1].path@);
    } else {
        assert(rest =~= before);
    }
}

/// A transcript that is read again replaces what was kept of it, gone or not.
pub proof fn read_files_are_replaced(m: Map<Seq<Part>, Filed>, found: Seq<Scanned>, i: int)
    requires
        found_once(found),
        0 <= i < found.len(),
        stale(m, found[i].path@, found[i].mtime as int),
        found[i].entry is Some,
    ensures
        rescanned(m, found).dom().contains(found[i].path@),
        rescanned(m, found)[found[i].path@] == found[i].entry->0@,
{
    lemma_taken_at(m, found, i);
    assert(is_found(found, found[i].path@));
}

/// A transcript that has not changed is kept as it is.
pub proof fn unchanged_files_are_kept(m: Map<Seq<Part>, Filed>, found: Seq<Scanned>, i: int)
    requires
        found_once(found),
        0 <= i < found.len(),
        !stale(m, found[i].path@, found[i].mtime as int),
    ensures
        rescanned(m, found).dom().contains(found[i].path@),
        rescanned(m, found)[found[i].path@] == m[found[i].path@],
{
    lemma_taken_at(m, found, i);
    assert(is_found(found, found[i].path@));
}

/// What was read of a transcript says when it was last changed and is not gone.
pub open spec fn entries_are_current(found: Seq<Scanned>) -> bool {
    forall|i: int|
        0 <= i < found.len() ==> ((#[trigger] found[i]).entry matches Some(fe) ==> fe@.mtime
            == found[i].mtime && !fe@.tombstoned)
}

/// `again` finds the transcripts that `found` found, none of them changed. What
/// could not be read still cannot; what need not be read may be left out.
pub open spec fn finds_the_same(
    m: Map<Seq<Part>, Filed>,
    found: Seq<Scanned>,
    again: Seq<Scanned>,
) -> bool {
    &&& forall|i: int| 0 <= i < found.len() ==> is_found(again, (#[trigger] found[i]).path@)
    &&& forall|j: int| 0 <= j < again.len() ==> is_found(found, (#[trigger] again[j]).path@)
    &&& forall|i: int, j: int|
        0 <= i < found.len() && 0 <= j < again.len() && (#[trigger] found[i]).path@ == (
        #[trigger] again[j]).path@ ==> {
            &&& again[j].mtime == found[i].mtime
            &&& stale(m, found[i].path@, found[i].mtime as int) && found[i].entry is None
                ==> again[j].entry is None
        }
}

/// A scan that changes nothing keeps the files as they are.
proof fn lemma_nothing_changes(m: Map<Seq<Part>, Filed>, found: Seq<Scanned>)
    requires
        !scan_changes(m, found),
    ensures
        rescanned(m, found) == m,
{
    lemma_none_taken(m, found, found.len() as int);
    assert(found.take(found.len() as int) =~= found);
    assert(rescanned(m, found) =~= m);
}

proof fn lemma_none_taken(m: Map<Seq<Part>, Filed>, found: Seq<Scanned>, n: int)
    requires
        0 <= n <= found.len(),
        !some_taken_in(m, found, n),
    ensures
        taken_in(m, found.take(n)) == m,
    decreases n,
{
    if n > 0 {
        lemma_taken_step(m, found, n - 1);
        lemma_none_taken(m, found, n - 1);
        assert(!takes_at(m, found, n - 1));
    }
}

/// A second scan that finds the same transcripts changes nothing, whether or
/// not the first one changed anything.
pub proof fn second_scan_changes_nothing(
    m: Map<Seq<Part>, Filed>,
    found: Seq<Scanned>,
    again: Seq<Scanned>,
)
    requires
        found_once(found),
        found_once(again),
        entries_are_current(found),
        finds_the_same(m, found, again),
    ensures
        !scan_changes(rescanned(m, found), again),
        !scan_changes(m, found) ==> !scan_changes(m, again),
{
    let after = rescanned(m, found);
    let kept = taken_in(after, again);
    assert forall|j: int| 0 <= j < again.len() implies !#[trigger] takes_at(after, again, j) by {
        let p = again[j].path@;
        let i = choose|i: int| 0 <= i < found.len() && (#[trigger] found[i]).path@ == p;
        lemma_taken_at(m, found, i);
        lemma_taken_at(after, again, j);
        assert(is_found(found, p));
        assert(found[i].path@ == again[j].path@);
    }
    assert forall|p: Seq<Part>| kept.dom().contains(p) && !is_found(again, p) implies (
    #[trigger] kept[p]).tombstoned by {
        lemma_not_found(after, again, p);
        if is_found(found, p) {
            let i = choose|i: int| 0 <= i < found.len() && (#[trigger] found[i]).path@ == p;
            assert(is_found(again, found[i].path@));
        }
    }
    if !scan_changes(m, found) {
        lemma_nothing_changes(m, found);
    }
}

/// After the files that are gone were dropped, a second time drops nothing and
/// changes nothing. The files that are still there are kept as they were, and no
/// others.
pub proof fn a_second_purge_changes_nothing(
    before: Aggregates,
    after: Aggregates,
    again: Aggregates,
    n: nat,
    k: nat,
)
    requires
        is_purged(before, after, n),
        is_purged(after, again, k),
    ensures
        gone_count(after.files()) == 0,
        k == 0,
        again == after,
        forall|f: (Seq<Part>, Filed)| #[trigger]
            after.files().contains(f) <==> before.files().contains(f) && !f.1.tombstoned,
{
    nothing_is_gone_after_a_purge(before.files());
    assert forall|f: (Seq<Part>, Filed)| #[trigger]
        after.files().contains(f) <==> before.files().contains(f) && !f.1.tombstoned by {
        lemma_live_only(before.files(), f);
        if n == 0 {
            live_and_gone(before.files());
            lemma_all_live(before.files());
        }
    }
}

proof fn lemma_live_only(files: Seq<(Seq<Part>, Filed)>, f: (Seq<Part>, Filed))
    ensures
        live_only(files).contains(f) <==> files.contains(f) && !f.1.tombstoned,
    decreases files.len(),
{
    reveal(Seq::filter);
    if files.len() > 0 {
        let rest = files.drop_last();
        lemma_live_only(rest, f);
        let live = live_only(files);
        assert(files[files.len() - 1] == files.last());
        if rest.contains(f) {
            assert(files[rest.index_of(f)] == f);
        }
        if files.contains(f) && f != files.last() {
            assert(rest[files.index_of(f)] == f);
        }
        if !files.last().1.tombstoned {
            assert(live[live.len() - 1] == files.last());
            if live_only(rest).contains(f) {
                assert(live[live_only(rest).index_of(f)] == f);
            }
            if live.contains(f) && f != files.last() {
                assert(live_only(rest)[live.index_of(f)] == f);
            }
        }
    }
}

proof fn lemma_all_live(files: Seq<(Seq<Part>, Filed)>)
    requires
        gone_count(files) == 0,
    ensures
        live_only(files) == files,
    decreases files.len(),
{
    reveal(Seq::filter);
    if files.len() > 0 {
        lemma_all_live(files.drop_last());
        assert(live_only(files) =~= files);
    } else {
        assert(live_only(files) =~= files);
    }
}

/// Each project that is kept of a file has some of its tokens, and no more than
/// all of them.
pub open spec fn is_sound(f: Filed) -> bool {
    forall|p: Seq<char>| #[trigger]
        f.by_project.dom().contains(p) ==> 0 < f.by_project[p].total <= file_sum(f)
}

/// What is kept of a transcript is sound.
pub proof fn transcripts_are_sound(fe: FileEntry, lines: Seq<Line>, days: Seq<i32>, mtime: i128)
    requires
        tallied(fe, lines, days, mtime),
    ensures
        is_sound(fe@),
{
    day_counts_add_up(lines, days);
    assert forall|p: Seq<char>| #[trigger] fe@.by_project.dom().contains(p) implies 0
        < fe@.by_project[p].total <= file_sum(fe@) by {
        projects_have_their_part(lines, p);
    }
}

/// Scans keep what is kept of files sound.
pub proof fn scans_keep_files_sound(m: Map<Seq<Part>, Filed>, found: Seq<Scanned>)
    requires
        forall|p: Seq<Part>| #[trigger] m.dom().contains(p) ==> is_sound(m[p]),
        forall|i: int|
            0 <= i < found.len() ==> ((#[trigger] found[i]).entry matches Some(fe) ==> is_sound(fe@)),
    ensures
        forall|p: Seq<Part>| #[trigger]
            rescanned(m, found).dom().contains(p) ==> is_sound(rescanned(m, found)[p]),
{
    lemma_taken_sound(m, found);
    assert forall|p: Seq<Part>| #[trigger] rescanned(m, found).dom().contains(p) implies is_sound(
        rescanned(m, found)[p],
    ) by {
        let f = taken_in(m, found)[p];
        assert(taken_in(m, found).dom().contains(p));
        assert(is_sound(f));
        assert(file_sum(buried(f)) == file_sum(f));
        assert(is_sound(buried(f))) by {
            assert forall|q: Seq<char>| #[trigger]
                buried(f).by_project.dom().contains(q) implies 0 < buried(f).by_project[q].total
                <= file_sum(buried(f)) by {
                assert(f.by_project.dom().contains(q));
            }
        }
    }
}

/// Purges keep what is kept of files sound.
pub proof fn purges_keep_files_sound(files: Seq<(Seq<Part>, Filed)>)
    requires
        forall|i: int| 0 <= i < files.len() ==> is_sound((#[trigger] files[i]).1),
    ensures
        forall|i: int|
            0 <= i < live_only(files).len() ==> is_sound((#[trigger] live_only(files)[i]).1),
{
    assert forall|i: int| 0 <= i < live_only(files).len() implies is_sound(
        (#[trigger] live_only(files)[i]).1,
    ) by {
        let f = live_only(files)[i];
        assert(live_only(files).contains(f));
        lemma_live_only(files, f);
        assert(is_sound(files[files.index_of(f)].1));
    }
}

proof fn lemma_taken_sound(m: Map<Seq<Part>, Filed>, found: Seq<Scanned>)
    requires
        forall|p: Seq<Part>| #[trigger] m.dom().contains(p) ==> is_sound(m[p]),
        forall|i: int|
            0 <= i < found.len() ==> ((#[trigger] found[i]).entry matches Some(fe) ==> is_sound(fe@)),
    ensures
        forall|p: Seq<Part>| #[trigger]
            taken_in(m, found).dom().contains(p) ==> is_sound(taken_in(m, found)[p]),
    decreases found.len(),
{
    if found.len() > 0 {
        let rest = found.drop_last();
        assert forall|i: int| 0 <= i < rest.len() implies ((
        #[trigger] rest[i]).entry matches Some(fe) ==> is_sound(fe@)) by {
            assert(rest[i] == found[i]);
        }
        lemma_taken_sound(m, rest);
        let last = found[found.len() - 1];
        let before = taken_in(m, rest);
        assert forall|p: Seq<Part>| #[trigger] taken_in(m, found).dom().contains(p) implies is_sound(
            taken_in(m, found)[p],
        ) by {
            if takes_in(before, last) && p == last.path@ {
                assert(is_sound(last.entry->0@));
            } else {
                assert(before.dom().contains(p));
            }
        }
    }
}

proof fn lemma_whole_portion(f: Filed, since: i32, p: Seq<char>)
    requires
        is_sound(f),
        forall|d: i32| #[trigger] f.by_day.dom().contains(d) ==> since <= d,
        file_sum(f) <= u64::MAX,
        project_at(f.by_project, p).total < 0x20_0000_0000_0000,
    ensures
        portion(f, since, p) == project_at(f.by_project, p).total,
{
    lemma_span_gap(f.by_day, i32::MIN as int, i32::MIN as int, since as int);
    lemma_span_split(f.by_day, i32::MIN as int, since as int, i32::MAX + 1);
    assert(recent_sum(f, since) == file_sum(f));
    if f.by_project.dom().contains(p) {
        let total = f.by_project[p].total;
        counts_are_finite(file_sum(f));
        quotient_with_itself(ratio_value(file_sum(f), 1));
        whole_products_are_exact(total, 1);
        assert(total * 1 == total) by (nonlinear_arith);
        whole_numbers_stay_whole(total);
        whole_numbers_are_exact(total);
    }
}

proof fn lemma_whole_portions(files: Seq<(Seq<Part>, Filed)>, since: i32, p: Seq<char>)
    requires
        forall|i: int|
            0 <= i < files.len() ==> is_sound((#[trigger] files[i]).1) && file_sum(files[i].1)
                <= u64::MAX,
        forall|i: int, d: i32|
            #![trigger files[i].1.by_day.dom().contains(d)]
            0 <= i < files.len() && files[i].1.by_day.dom().contains(d) ==> since <= d,
        project_sum(files, p) < 0x20_0000_0000_0000,
    ensures
        portion_sum(files, since, p) == project_sum(files, p),
        project_sum(files, p) > 0 <==> exists|i: int|
            0 <= i < files.len() && (#[trigger] files[i]).1.by_project.dom().contains(p),
    decreases files.len(),
{
    if files.len() > 0 {
        let rest = files.drop_last();
        let last = files[files.len() - 1];
        assert forall|i: int| 0 <= i < rest.len() implies is_sound((#[trigger] rest[i]).1)
            && file_sum(rest[i].1) <= u64::MAX by {
            assert(rest[i] == files[i]);
        }
        assert forall|i: int, d: i32|
            #![trigger rest[i].1.by_day.dom().contains(d)]
            0 <= i < rest.len() && rest[i].1.by_day.dom().contains(d) implies since <= d by {
            assert(files[i].1.by_day.dom().contains(d));
        }
        lemma_whole_portions(rest, since, p);
        assert forall|d: i32| #[trigger] last.1.by_day.dom().contains(d) implies since <= d by {
            assert(files[files.len() - 1].1.by_day.dom().contains(d));
        }
        lemma_whole_portion(last.1, since, p);
        if exists|i: int| 0 <= i < rest.len() && (#[trigger] rest[i]).1.by_project.dom().contains(p) {
            let i = choose|i: int|
                0 <= i < rest.len() && (#[trigger] rest[i]).1.by_project.dom().contains(p);
            assert(files[i].1.by_project.dom().contains(p));
        }
        if exists|i: int|
            0 <= i < files.len() && (#[trigger] files[i]).1.by_project.dom().contains(p) {
            let i = choose|i: int|
                0 <= i < files.len() && (#[trigger] files[i]).1.by_project.dom().contains(p);
            if i < rest.len() {
                assert(rest[i].1.by_project.dom().contains(p));
            }
        }
        if last.1.by_project.dom().contains(p) {
            assert(files[files.len() - 1].1.by_project.dom().contains(p));
        }
    }
}

/// From a day before all use on, the projects stand as they do over all time.
pub proof fn all_use_counts_from_a_day_before_it(agg: Aggregates, since: i32)
    requires
        agg.rolled_up(),
        forall|i: int|
            0 <= i < agg.files().len() ==> is_sound((#[trigger] agg.files()[i]).1) && file_sum(
                agg.files()[i].1,
            ) <= u64::MAX,
        forall|p: Seq<char>| #[trigger]
            agg.by_project@.dom().contains(p) ==> agg.by_project@[p].total < 0x20_0000_0000_0000,
        forall|d: i32| #[trigger] agg.by_day@.dom().contains(d) ==> since <= d,
    ensures
        standings(agg, Some(since)) == standings(agg, None),
{
    let files = agg.files();
    let days = counts_of(agg.by_day@);
    let projects = project_counts_of(agg.by_project@);
    assert forall|i: int, d: i32|
        #![trigger files[i].1.by_day.dom().contains(d)]
        0 <= i < files.len() && files[i].1.by_day.dom().contains(d) implies since <= d by {
        assert(days.dom().contains(d));
        assert(agg.by_day@.dom().contains(d));
    }
    assert forall|p: Seq<char>|
        #![trigger portion_sum(files, since, p)]
        {
            &&& portion_sum(files, since, p) > 0 <==> agg.by_project@.dom().contains(p)
            &&& agg.by_project@.dom().contains(p) ==> portion_sum(files, since, p)
                == agg.by_project@[p].total
        } by {
        assert(project_at(projects, p).total == project_sum(files, p));
        lemma_whole_portions(files, since, p);
        assert(projects.dom().contains(p) <==> agg.by_project@.dom().contains(p));
    }
    assert(standings(agg, Some(since)) =~= standings(agg, None));
}

proof fn lemma_no_portions(files: Seq<(Seq<Part>, Filed)>, since: i32, p: Seq<char>)
    requires
        forall|i: int, d: i32|
            #![trigger files[i].1.by_day.dom().contains(d)]
            0 <= i < files.len() && files[i].1.by_day.dom().contains(d) ==> d < since,
    ensures
        portion_sum(files, since, p) == 0,
    decreases files.len(),
{
    if files.len() > 0 {
        let rest = files.drop_last();
        let last = files[files.len() - 1];
        assert forall|i: int, d: i32|
            #![trigger rest[i].1.by_day.dom().contains(d)]
            0 <= i < rest.len() && rest[i].1.by_day.dom().contains(d) implies d < since by {
            assert(files[i].1.by_day.dom().contains(d));
        }
        lemma_no_portions(rest, since, p);
        assert forall|d: i32| since <= d implies !(#[trigger] last.1.by_day.dom().contains(d)) by {
            if last.1.by_day.dom().contains(d) {
                assert(files[files.len() - 1].1.by_day.dom().contains(d));
            }
        }
        lemma_span_gap(last.1.by_day, since as int, since as int, i32::MAX + 1);
    }
}

/// From a day after all use on, no project stands anywhere.
pub proof fn nothing_counts_from_a_day_after_all_use(
    agg: Aggregates,
    since: i32,
    r: Seq<(Seq<char>, nat)>,
    n: int,
)
    requires
        agg.rolled_up(),
        forall|d: i32| #[trigger] agg.by_day@.dom().contains(d) ==> d < since,
        leads(r, standings(agg, Some(since)), n),
    ensures
        standings(agg, Some(since)) == Map::<Seq<char>, nat>::empty(),
        r.len() == 0,
{
    let files = agg.files();
    let days = counts_of(agg.by_day@);
    let m = standings(agg, Some(since));
    assert forall|i: int, d: i32|
        #![trigger files[i].1.by_day.dom().contains(d)]
        0 <= i < files.len() && files[i].1.by_day.dom().contains(d) implies d < since by {
        assert(days.dom().contains(d));
        assert(agg.by_day@.dom().contains(d));
    }
    assert forall|p: Seq<char>| !(#[trigger] m.dom().contains(p)) by {
        lemma_no_portions(files, since, p);
    }
    assert(m =~= Map::<Seq<char>, nat>::empty());
    if r.len() > 0 {
        assert(m.dom().contains(r[0].0));
    }
}

proof fn lemma_base_name(s: Seq<char>)
    ensures
        -1 <= last_slash(s) < s.len(),
        !base_name(s).contains('/'),
    decreases s.len(),
{
    if s.len() > 0 && s.last() != '/' {
        let rest = s.drop_last();
        lemma_base_name(rest);
        assert(base_name(s) =~= base_name(rest).push(s.last()));
        if base_name(s).contains('/') {
            let i = base_name(s).index_of('/');
            assert(base_name(rest)[i] == '/');
        }
    } else {
        assert(base_name(s).len() == 0);
    }
}

proof fn lemma_apart(a: Seq<char>, b: Seq<char>, c: Seq<char>, d: Seq<char>)
    requires
        !b.contains('/'),
        !d.contains('/'),
        a + seq!['/'] + b == c + seq!['/'] + d,
    ensures
        a == c,
        b == d,
{
    let (x, y) = (a + seq!['/'] + b, c + seq!['/'] + d);
    assert(x.len() == a.len() + 1 + b.len() && y.len() == c.len() + 1 + d.len());
    if a.len() < c.len() {
        assert(y[c.len() as int] == '/');
        assert(x[c.len() as int] == b[c.len() - a.len() - 1]);
        assert(b.contains('/'));
    }
    if c.len() < a.len() {
        assert(x[a.len() as int] == '/');
        assert(y[a.len() as int] == d[a.len() - c.len() - 1]);
        assert(d.contains('/'));
    }
    assert(a =~= x.take(a.len() as int));
    assert(c =~= y.take(c.len() as int));
    assert(b =~= x.skip(a.len() as int + 1));
    assert(d =~= y.skip(c.len() as int + 1));
}

/// Projects that differ in the last part of their path or the part before it
/// have different names beside each other.
pub proof fn short_names_tell_projects_apart(a: Seq<char>, b: Seq<char>, all: Seq<Seq<char>>)
    requires
        all.contains(a),
        all.contains(b),
        base_name(a) != base_name(b) || parent_name(a) != parent_name(b),
    ensures
        short_name_of(a, all) != short_name_of(b, all),
{
    lemma_base_name(a);
    lemma_base_name(b);
    let (x, y) = (short_name_of(a, all), short_name_of(b, all));
    if base_name(a) == base_name(b) {
        let (i, j) = (all.index_of(a), all.index_of(b));
        assert(all[j] == b && all[i] == a);
        assert(collides(a, all) && collides(b, all));
    }
    if x == y {
        let (pa, pb) = (parent_name(a), parent_name(b));
        if collides(a, all) && pa.len() > 0 {
            if collides(b, all) && pb.len() > 0 {
                lemma_apart(pa, base_name(a), pb, base_name(b));
            } else {
                assert(x[pa.len() as int] == '/');
                assert(base_name(b).contains('/'));
            }
        } else if collides(b, all) && pb.len() > 0 {
            assert(y[pb.len() as int] == '/');
            assert(base_name(a).contains('/'));
        } else {
            assert(pa =~= pb);
        }
    }
}

/// Once the files that are gone are dropped, none is left.
pub proof fn nothing_is_gone_after_a_purge(files: Seq<(Seq<Part>, Filed)>)
    ensures
        gone_count(live_only(files)) == 0,
        live_only(live_only(files)) == live_only(files),
    decreases files.len(),
{
    reveal(Seq::filter);
    if files.len() > 0 {
        let rest = files.drop_last();
        nothing_is_gone_after_a_purge(rest);
        if !files.last().1.tombstoned {
            assert(live_only(files).drop_last() =~= live_only(rest));
        }
    }
}

/// After a change of layout, every transcript that is still there is read again,
/// and those that are gone keep what is known of them.
pub proof fn migration_has_live_files_read_again(f: (Seq<Part>, Filed), mtime: i128)
    requires
        mtime != i128::MIN,
    ensures
        !f.1.tombstoned ==> outdated(f).1.mtime != mtime,
        f.1.tombstoned ==> outdated(f) == f,
        outdated(f).0 == f.0,
        outdated(f).1.by_day == f.1.by_day,
        outdated(f).1.by_project == f.1.by_project,
        outdated(f).1.prompts == f.1.prompts,
        outdated(f).1.tombstoned == f.1.tombstoned,
{
}

/// Whether a file is gone, and when it was last changed, makes no difference to
/// the counts of days and projects.
pub proof fn gone_files_still_count(
    a: Seq<(Seq<Part>, Filed)>,
    b: Seq<(Seq<Part>, Filed)>,
    day: i32,
    project: Seq<char>,
)
    requires
        a.len() == b.len(),
        forall|i: int|
            0 <= i < a.len() ==> (#[trigger] a[i]).1.by_day == b[i].1.by_day && a[i].1.by_project
                == b[i].1.by_project,
    ensures
        day_sum(a, day) == day_sum(b, day),
        project_sum(a, project) == project_sum(b, project),
        project_last(a, project) == project_last(b, project),
    decreases a.len(),
{
    if a.len() > 0 {
        gone_files_still_count(a.drop_last(), b.drop_last(), day, project);
        assert(a[a.len() - 1].1.by_day == b[a.len() - 1].1.by_day);
    }
}

/// One list of projects leads.
pub proof fn leading_list_is_unique(
    a: Seq<(Seq<char>, nat)>,
    b: Seq<(Seq<char>, nat)>,
    m: Map<Seq<char>, nat>,
    n: int,
)
    requires
        leads(a, m, n),
        leads(b, m, n),
    ensures
        a == b,
{
    let k = if a.len() < b.len() {
        a.len() as int
    } else {
        b.len() as int
    };
    lemma_same_leaders(a, b, m, n, k);
    lemma_no_more(a, b, m, n);
    lemma_no_more(b, a, m, n);
    assert(a =~= b);
}

proof fn lemma_not_both(m: Map<Seq<char>, nat>, x: Seq<char>, y: Seq<char>)
    requires
        stands_before(m, x, y),
    ensures
        x != y,
        !stands_before(m, y, x),
{
    String::irreflexive(x);
    if stands_before(m, y, x) {
        String::transitive(x, y, x);
    }
}

proof fn lemma_same_leaders(
    a: Seq<(Seq<char>, nat)>,
    b: Seq<(Seq<char>, nat)>,
    m: Map<Seq<char>, nat>,
    n: int,
    k: int,
)
    requires
        leads(a, m, n),
        leads(b, m, n),
        0 <= k <= a.len(),
        k <= b.len(),
    ensures
        forall|i: int| 0 <= i < k ==> (#[trigger] a[i]).0 == b[i].0 && a[i].1 == b[i].1,
    decreases k,
{
    if k > 0 {
        lemma_same_leaders(a, b, m, n, k - 1);
        let x = a[k - 1].0;
        let y = b[k - 1].0;
        assert(m.dom().contains(x) && m.dom().contains(y));
        if x != y {
            assert(stands_before(m, y, x)) by {
                if exists|i: int| 0 <= i < b.len() && (#[trigger] b[i]).0 == x {
                    let i = choose|i: int| 0 <= i < b.len() && (#[trigger] b[i]).0 == x;
                    if i < k - 1 {
                        assert(a[i].0 == x);
                        assert(stands_before(m, a[i].0, a[k - 1].0));
                        lemma_not_both(m, x, x);
                    }
                }
            }
            assert(stands_before(m, x, y)) by {
                if exists|i: int| 0 <= i < a.len() && (#[trigger] a[i]).0 == y {
                    let i = choose|i: int| 0 <= i < a.len() && (#[trigger] a[i]).0 == y;
                    if i < k - 1 {
                        assert(b[i].0 == y);
                        assert(stands_before(m, b[i].0, b[k - 1].0));
                        lemma_not_both(m, y, y);
                    }
                }
            }
            lemma_not_both(m, x, y);
        }
    }
}

proof fn lemma_no_more(
    a: Seq<(Seq<char>, nat)>,
    b: Seq<(Seq<char>, nat)>,
    m: Map<Seq<char>, nat>,
    n: int,
)
    requires
        leads(a, m, n),
        leads(b, m, n),
    ensures
        a.len() >= b.len(),
{
    if a.len() < b.len() {
        let k = a.len() as int;
        lemma_same_leaders(a, b, m, n, k);
        let y = b[k].0;
        assert(m.dom().contains(y));
        let i = choose|i: int| 0 <= i < a.len() && (#[trigger] a[i]).0 == y;
        assert(b[i].0 == y);
        assert(stands_before(m, b[i].0, b[k].0));
        lemma_not_both(m, y, y);
    }
}

/// A projection is at least what was used already, and on the last day of the
/// month it is that, as long as the month's tokens times its days fit in 64
/// bits.
pub proof fn projection_covers_the_month_so_far(days: Map<i32, Count>, y: int, m: int, d: int)
    requires
        is_date(y, m, d),
        month_figures(days, y, m, d).0 * month_length(y, m) <= u64::MAX,
    ensures
        month_figures(days, y, m, d).1 >= month_figures(days, y, m, d).0,
        d == month_length(y, m) ==> month_figures(days, y, m, d).1 == month_figures(
            days,
            y,
            m,
            d,
        ).0,
{
    let c = month_figures(days, y, m, d).0;
    let len = month_length(y, m) as nat;
    let k = d as nat;
    if day_in_range(next_month(y, m)) {
        assert((c * len) / k >= c) by (nonlinear_arith)
            requires
                len >= k,
                k >= 1,
        ;
        if k == len {
            assert((c * len) / len == c) by (nonlinear_arith)
                requires
                    len >= 1,
            ;
        }
    }
}

/// Whether there is anything to show: tokens on some day, or a file that was scanned.
pub open spec fn has_something(days: Set<i32>, scanned: nat) -> bool {
    scanned > 0 || exists|d: i32| days.contains(d)
}

impl Aggregates {
    /// Whether there is anything to show.
    pub fn has_data(&self) -> (r: bool)
        ensures
            r == (self.by_day.keys().len() > 0 || self.scanned_files > 0),
            r == has_something(self.by_day@.dom(), self.scanned_files as nat),
    {
        proof {
            if self.by_day.keys().len() > 0 {
                assert(self.by_day@.dom().contains(self.by_day.keys()[0]));
            }
        }
        self.by_day.len() > 0 || self.scanned_files > 0
    }
}

proof fn lemma_nothing_taken_in(m: Map<Seq<Part>, Filed>, found: Seq<Scanned>)
    requires
        forall|i: int| 0 <= i < found.len() ==> !takes_in(m, #[trigger] found[i]),
    ensures
        taken_in(m, found) == m,
    decreases found.len(),
{
    if found.len() > 0 {
        let rest = found.drop_last();
        assert forall|i: int| 0 <= i < rest.len() implies !takes_in(m, #[trigger] rest[i]) by {
            assert(rest[i] == found[i]);
        }
        lemma_nothing_taken_in(m, rest);
        assert(!takes_in(m, found[found.len() - 1]));
    }
}

/// A file as it is kept after a scan that reads nothing.
pub open spec fn seen_or_buried(found: Seq<Scanned>, f: (Seq<Part>, Filed)) -> (Seq<Part>, Filed) {
    if is_found(found, f.0) {
        f
    } else {
        (f.0, buried(f.1))
    }
}

proof fn lemma_seen_or_buried(
    files: Seq<(Seq<Part>, Filed)>,
    m: Map<Seq<Part>, Filed>,
    found: Seq<Scanned>,
)
    requires
        is_listing(files, taken_in(m, found)),
    ensures
        listing(rescanned(m, found)) == files.map_values(
            |f: (Seq<Part>, Filed)| seen_or_buried(found, f),
        ),
{
    let after = files.map_values(|f: (Seq<Part>, Filed)| seen_or_buried(found, f));
    let r = rescanned(m, found);
    assert(after.map_values(|f: (Seq<Part>, Filed)| f.0) =~= files.map_values(
        |f: (Seq<Part>, Filed)| f.0,
    ));
    assert forall|i: int| 0 <= i < after.len() implies r.dom().contains((#[trigger] after[i]).0)
        && r[after[i].0] == after[i].1 by {
        assert(taken_in(m, found).dom().contains(files[i].0));
    }
    assert forall|p: Seq<Part>| #[trigger] r.dom().contains(p) implies exists|i: int|
        0 <= i < after.len() && (#[trigger] after[i]).0 == p by {
        let i = choose|i: int| 0 <= i < files.len() && (#[trigger] files[i]).0 == p;
        assert(after[i].0 == p);
    }
    assert(is_listing(after, r));
    listing_is_unique(after, listing(r), r);
}

/// That transcripts disappear changes no count of a day or a project: a scan
/// that reads nothing new keeps every file, marks those as gone that it did not
/// find, and leaves the sums as they were.
pub proof fn counts_outlive_their_transcripts(
    files: Seq<(Seq<Part>, Filed)>,
    m: Map<Seq<Part>, Filed>,
    found: Seq<Scanned>,
    day: i32,
    project: Seq<char>,
)
    requires
        is_listing(files, m),
        forall|i: int| 0 <= i < found.len() ==> !takes_in(m, #[trigger] found[i]),
    ensures
        listing(rescanned(m, found)) == files.map_values(
            |f: (Seq<Part>, Filed)| seen_or_buried(found, f),
        ),
        day_sum(listing(rescanned(m, found)), day) == day_sum(files, day),
        project_sum(listing(rescanned(m, found)), project) == project_sum(files, project),
        project_last(listing(rescanned(m, found)), project) == project_last(files, project),
{
    lemma_nothing_taken_in(m, found);
    lemma_seen_or_buried(files, m, found);
    gone_files_still_count(listing(rescanned(m, found)), files, day, project);
}

/// A change of layout leaves the rolled up counts those of the files.
pub proof fn migration_keeps_the_rollups(a: Aggregates, b: Aggregates)
    requires
        migrates(a, b),
        a.rolled_up(),
    ensures
        b.rolled_up(),
{
    if a.version != 1 {
        let (fa, fb) = (a.files(), b.files());
        let days = counts_of(b.by_day@);
        let projects = project_counts_of(b.by_project@);
        assert forall|d: i32|
            #![trigger days.dom().contains(d)]
            #![trigger count_at(days, d)]
            {
                &&& days.dom().contains(d) <==> exists|k: int|
                    0 <= k < fb.len() && (#[trigger] fb[k]).1.by_day.dom().contains(d)
                &&& count_at(days, d) == day_sum(fb, d)
            } by {
            gone_files_still_count(fb, fa, d, seq![]);
            if exists|k: int| 0 <= k < fa.len() && (#[trigger] fa[k]).1.by_day.dom().contains(d) {
                let k = choose|k: int|
                    0 <= k < fa.len() && (#[trigger] fa[k]).1.by_day.dom().contains(d);
                assert(fb[k].1.by_day.dom().contains(d));
            }
            if exists|k: int| 0 <= k < fb.len() && (#[trigger] fb[k]).1.by_day.dom().contains(d) {
                let k = choose|k: int|
                    0 <= k < fb.len() && (#[trigger] fb[k]).1.by_day.dom().contains(d);
                assert(fa[k].1.by_day.dom().contains(d));
            }
        }
        assert forall|p: Seq<char>|
            #![trigger projects.dom().contains(p)]
            #![trigger project_at(projects, p)]
            {
                &&& projects.dom().contains(p) <==> exists|k: int|
                    0 <= k < fb.len() && (#[trigger] fb[k]).1.by_project.dom().contains(p)
                &&& project_at(projects, p) == (ProjectCount {
                    total: project_sum(fb, p),
                    last_used: project_last(fb, p),
                })
            } by {
            gone_files_still_count(fb, fa, 0, p);
            if exists|k: int| 0 <= k < fa.len() && (#[trigger] fa[k]).1.by_project.dom().contains(p) {
                let k = choose|k: int|
                    0 <= k < fa.len() && (#[trigger] fa[k]).1.by_project.dom().contains(p);
                assert(fb[k].1.by_project.dom().contains(p));
            }
            if exists|k: int| 0 <= k < fb.len() && (#[trigger] fb[k]).1.by_project.dom().contains(p) {
                let k = choose|k: int|
                    0 <= k < fb.len() && (#[trigger] fb[k]).1.by_project.dom().contains(p);
                assert(fa[k].1.by_project.dom().contains(p));
            }
        }
    }
}

/// A transcript has to be read exactly when nothing is kept of it, when it was
/// changed since, or when it was taken for gone.
pub proof fn when_a_transcript_is_read(m: Map<Seq<Part>, Filed>, path: Seq<Part>, mtime: int)
    ensures
        !m.dom().contains(path) ==> stale(m, path, mtime),
        m.dom().contains(path) && m[path].mtime != mtime ==> stale(m, path, mtime),
        m.dom().contains(path) && m[path].tombstoned ==> stale(m, path, mtime),
        m.dom().contains(path) && m[path].mtime == mtime && !m[path].tombstoned ==> !stale(
            m,
            path,
            mtime,
        ),
        stale(m.insert(path, Filed { mtime, tombstoned: false, ..m[path] }), path, mtime) == false,
{
}

/// After a scan there is an entry for each that there was before and for each
/// transcript that was read, and for no other.
pub proof fn scans_lose_nothing(m: Map<Seq<Part>, Filed>, found: Seq<Scanned>, p: Seq<Part>)
    requires
        found_once(found),
    ensures
        rescanned(m, found).dom().contains(p) <==> m.dom().contains(p) || exists|i: int|
            0 <= i < found.len() && (#[trigger] found[i]).path@ == p && found[i].entry is Some,
        rescanned(m, found).dom().contains(p) && !rescanned(m, found)[p].tombstoned ==> is_found(
            found,
            p,
        ),
{
    if is_found(found, p) {
        let i = choose|i: int| 0 <= i < found.len() && (#[trigger] found[i]).path@ == p;
        lemma_taken_at(m, found, i);
        if exists|j: int|
            0 <= j < found.len() && (#[trigger] found[j]).path@ == p && found[j].entry is Some {
            let j = choose|j: int|
                0 <= j < found.len() && (#[trigger] found[j]).path@ == p && found[j].entry is Some;
            assert(i == j);
        }
        if rescanned(m, found).dom().contains(p) && !m.dom().contains(p) {
            assert(takes_in(m, found[i]));
        }
    } else {
        lemma_not_found(m, found, p);
    }
}

/// A scan is said to change something exactly when what is kept afterwards is not
/// what was kept before.
pub proof fn a_change_is_told(m: Map<Seq<Part>, Filed>, found: Seq<Scanned>)
    requires
        found_once(found),
        entries_are_current(found),
    ensures
        scan_changes(m, found) <==> rescanned(m, found) != m,
{
    if !scan_changes(m, found) {
        lemma_nothing_changes(m, found);
    } else {
        let after = rescanned(m, found);
        if some_taken_in(m, found, found.len() as int) {
            let i = choose|i: int| 0 <= i < found.len() && #[trigger] takes_at(m, found, i);
            lemma_taken_at(m, found, i);
            read_files_are_replaced(m, found, i);
            let p = found[i].path@;
            assert(found[i].entry matches Some(fe) && fe@.mtime == found[i].mtime
                && !fe@.tombstoned);
            if after == m {
                assert(m[p] == found[i].entry->0@);
            }
        } else {
            let p = choose|p: Seq<Part>|
                taken_in(m, found).dom().contains(p) && !is_found(found, p) && !(
                #[trigger] taken_in(m, found)[p]).tombstoned;
            lemma_not_found(m, found, p);
            removed_files_keep_their_counts(m, found, p);
        }
    }
}

/// Each file that is gone counts once among those that are, and each that is
/// still there once among the others.
pub proof fn files_are_counted_one_by_one(files: Seq<(Seq<Part>, Filed)>, f: (Seq<Part>, Filed))
    ensures
        gone_count(seq![]) == 0,
        live_count(seq![]) == 0,
        gone_count(files.push(f)) == gone_count(files) + if f.1.tombstoned {
            1nat
        } else {
            0
        },
        live_count(files.push(f)) == live_count(files) + if f.1.tombstoned {
            0nat
        } else {
            1
        },
        gone_count(files) + live_count(files) == files.len(),
    decreases files.len(),
{
    reveal(Seq::filter);
    assert(files.push(f).drop_last() =~= files);
    live_and_gone(files);
}

/// What is projected is what the month comes to at the pace so far, rounded down:
/// the tokens so far times the days of the month, divided by the days so far. It
/// grows no faster than that nor slower.
pub proof fn the_projection_keeps_the_pace(days: Map<i32, Count>, y: int, m: int, d: int)
    requires
        is_date(y, m, d),
        month_figures(days, y, m, d).0 * month_length(y, m) <= u64::MAX,
    ensures
        month_figures(days, y, m, d).1 * d <= month_figures(days, y, m, d).0 * month_length(y, m)
            < (month_figures(days, y, m, d).1 + 1) * d || !day_in_range(next_month(y, m)),
{
    let c = month_figures(days, y, m, d).0;
    let len = month_length(y, m) as nat;
    if day_in_range(next_month(y, m)) {
        let n = c * len;
        vstd::arithmetic::div_mod::lemma_fundamental_div_mod(n as int, d);
        let q = n as int / d;
        let r = n as int % d;
        assert(q * d <= n < (q + 1) * d) by (nonlinear_arith)
            requires
                n == d * q + r,
                0 <= r < d,
        ;
    }
}

/// The tokens of a month are those of its days, all of them and no others: what
/// is counted on one of them adds to it, and what is counted on another day does
/// not.
pub proof fn a_month_has_its_days(
    days: Map<i32, Count>,
    y: int,
    m: int,
    d: int,
    day: i32,
    c: Count,
)
    requires
        is_date(y, m, d),
        day_in_range(day_number(y, m, d)),
        day_in_range(next_month(y, m)),
    ensures
        ({
            let first = day_number(y, m, d) - (d - 1);
            let before = month_figures(days, y, m, d).0;
            let after = month_figures(days.insert(day, c), y, m, d).0;
            if first <= day < first + month_length(y, m) {
                after + count_at(days, day).sum() == before + c.sum()
            } else {
                after == before
            }
        }),
        month_figures(Map::empty(), y, m, d).0 == 0,
{
    lemma_month(y, m, d);
    let (lo, hi) = (day_number(y, m, 1), next_month(y, m));
    crate::rollup::a_day_counts_in_its_spans(days, day, c, lo, hi);
    lemma_span_gap(Map::empty(), lo, lo, hi);
    assert(span_sum(Map::<i32, Count>::empty(), lo, lo) == 0);
}

/// What a project is taken to have used from a day on is its share of what the
/// file used from that day on: its tokens times those of the file from that day
/// on, divided by all tokens of the file, rounded to a whole number.
pub proof fn portions_are_shares(f: Filed, since: i32, project: Seq<char>)
    requires
        f.by_project.dom().contains(project),
        0 < f.by_project[project].total <= file_sum(f),
        file_sum(f) < 0x8_0000_0000_0000,
    ensures
        ({
            let exact = f.by_project[project].total * recent_sum(f, since);
            let told = portion(f, since, project) * file_sum(f);
            -(file_sum(f) * 0x100_0000_0001 + exact) <= 2 * (told - exact) * 0x100_0000_0000
                <= file_sum(f) * 0x100_0000_0001 + exact
        }),
        recent_sum(f, since) == 0 ==> portion(f, since, project) == 0,
{
    let t = f.by_project[project].total;
    let (r, w) = (recent_sum(f, since), file_sum(f));
    lemma_span_split(f.by_day, i32::MIN as int, since as int, i32::MAX + 1);
    if r > 0 {
        lemma_share(t, r, w);
    } else {
        assert(t * 0 == 0 && 0 * w == 0) by (nonlinear_arith);
    }
}

proof fn lemma_share(t: nat, r: nat, w: nat)
    requires
        0 < t <= w < 0x8_0000_0000_0000,
        0 < r <= w,
    ensures
        ({
            let n = share(t, over(ratio_value(r, 1), ratio_value(w, 1)));
            -(w * 0x100_0000_0001 + t * r) <= 2 * (n * w - t * r) * 0x100_0000_0000 <= w
                * 0x100_0000_0001 + t * r
        }),
{
    let p = pow2(1074) as int;
    one_has_many_steps();
    let (x, y) = (ratio_value(r, 1), ratio_value(w, 1));
    whole_numbers_are_exact(r);
    whole_numbers_are_exact(w);
    whole_numbers_are_exact(t);
    assert(r * p > 0 && w * p > 0) by (nonlinear_arith)
        requires
            r > 0,
            w > 0,
            p > 0,
    ;
    positive_numbers_have_steps(y);
    assert(0x10_0000_0000_0000 * (w * p) <= (r * p) * p && r * p <= 1 * (w * p)) by (nonlinear_arith)
        requires
            1 <= r <= w,
            w < 0x10_0000_0000_0000,
            p >= 0x1_0000_0000_0000_0000,
            p >= 0x10_0000_0000_0000 * 0x10_0000_0000_0000,
    {
        assert(0x10_0000_0000_0000 * (w * p) <= (0x10_0000_0000_0000 * 0x10_0000_0000_0000) * p);
        assert((r * p) * p >= p * p);
        assert(p * p >= (0x10_0000_0000_0000 * 0x10_0000_0000_0000) * p);
    }
    quotients_are_close(x, y, 1);
    let part = over(x, y);
    let q = steps_of(part);
    assert(q * (w * p) == (q * w) * p && (r * p) * p == (r * p) * p) by (nonlinear_arith);
    let (a, b) = (q * w, r * p);
    assert(-b <= (a - b) * 0x20_0000_0000_0000 <= b) by (nonlinear_arith)
        requires
            -(b * p) <= (a * p - b * p) * 0x20_0000_0000_0000 <= b * p,
            p > 0,
    {
        assert((a * p - b * p) * 0x20_0000_0000_0000 == ((a - b) * 0x20_0000_0000_0000) * p);
        assert(-(b * p) == (-b) * p);
    }
    assert(0 <= q <= 2 * p) by (nonlinear_arith)
        requires
            a == q * w,
            b == r * p,
            (a - b) * 0x20_0000_0000_0000 <= b,
            -b <= (a - b) * 0x20_0000_0000_0000,
            1 <= r <= w,
            p > 0,
    {
        assert(b <= w * p);
        assert(b > 0);
        assert(q * w <= (2 * p) * w);
        assert(q * w > 0);
    }
    assert(t * q <= (2 * t) * p) by (nonlinear_arith)
        requires
            q <= 2 * p,
    ;
    multiples_are_close(part, t, 2 * t);
    products_commute(ratio_value(t, 1), part);
    let product = times(ratio_value(t, 1), part);
    let z = steps_of(product);
    assert(z <= (2 * t + 1) * p) by (nonlinear_arith)
        requires
            (z - t * q) * 0x20_0000_0000_0000 <= t * q + 0x10_0000_0000_0000,
            t * q <= (2 * t) * p,
            t < 0x10_0000_0000_0000,
            p >= 0x1_0000_0000_0000_0000,
    {
        assert((2 * t) * p <= 0x20_0000_0000_0000 * p);
    }
    amounts_round_within_a_half(product, 2 * t + 1, u64::MAX as int);
    let n = share(t, part) as int;
    lemma_share_in_integers(t as int, r as int, w as int, p, q, z, n);
}

proof fn lemma_share_in_integers(t: int, r: int, w: int, p: int, q: int, z: int, n: int)
    requires
        0 < t <= w < 0x10_0000_0000_0000,
        0 < r <= w,
        p >= 0x1_0000_0000_0000_0000,
        q >= 0,
        -(r * p) <= (q * w - r * p) * 0x20_0000_0000_0000 <= r * p,
        -(t * q + 0x10_0000_0000_0000) <= (z - t * q) * 0x20_0000_0000_0000 <= t * q
            + 0x10_0000_0000_0000,
        (2 * n - 1) * p <= 2 * z < (2 * n + 1) * p,
    ensures
        -(w * 0x100_0000_0001 + t * r) <= 2 * (n * w - t * r) * 0x100_0000_0000 <= w
            * 0x100_0000_0001 + t * r,
{
    let e = (t * r) * p;
    let g = (t * q) * w;
    let h = z * w;
    let k = (n * w) * p;
    assert(-e <= (g - e) * 0x20_0000_0000_0000 <= e) by (nonlinear_arith)
        requires
            e == (t * r) * p,
            g == (t * q) * w,
            t > 0,
            -(r * p) <= (q * w - r * p) * 0x20_0000_0000_0000 <= r * p,
    {
        assert((g - e) * 0x20_0000_0000_0000 == ((q * w - r * p) * 0x20_0000_0000_0000) * t);
        assert(e == (r * p) * t);
        assert(-e == (-(r * p)) * t);
    }
    assert(-(g + 0x10_0000_0000_0000 * w) <= (h - g) * 0x20_0000_0000_0000 <= g
        + 0x10_0000_0000_0000 * w) by (nonlinear_arith)
        requires
            g == (t * q) * w,
            h == z * w,
            w > 0,
            -(t * q + 0x10_0000_0000_0000) <= (z - t * q) * 0x20_0000_0000_0000 <= t * q
                + 0x10_0000_0000_0000,
    {
        assert((h - g) * 0x20_0000_0000_0000 == ((z - t * q) * 0x20_0000_0000_0000) * w);
        assert((t * q + 0x10_0000_0000_0000) * w == g + 0x10_0000_0000_0000 * w);
        assert((-(t * q + 0x10_0000_0000_0000)) * w == -(g + 0x10_0000_0000_0000 * w));
    }
    let m = w * p;
    assert(2 * k - m <= 2 * h <= 2 * k + m) by (nonlinear_arith)
        requires
            k == (n * w) * p,
            h == z * w,
            m == w * p,
            w > 0,
            (2 * n - 1) * p <= 2 * z < (2 * n + 1) * p,
    {
        assert(((2 * n - 1) * p) * w <= (2 * z) * w);
        assert((2 * z) * w <= ((2 * n + 1) * p) * w);
        assert(((2 * n - 1) * p) * w == 2 * k - m);
        assert(((2 * n + 1) * p) * w == 2 * k + m);
    }
    assert(0 <= e && 0x10_0000_0000_0000 * w <= m) by (nonlinear_arith)
        requires
            e == (t * r) * p,
            m == w * p,
            t > 0,
            r > 0,
            w > 0,
            p >= 0x1_0000_0000_0000_0000,
    {
        assert(t * r > 0);
    }
    assert(0 <= g);
    let bound = m * 0x100_0000_0001 + e;
    assert(-bound <= 2 * (k - e) * 0x100_0000_0000 <= bound);
    let (told, exact) = (n * w, t * r);
    assert(-(w * 0x100_0000_0001 + exact) <= 2 * (told - exact) * 0x100_0000_0000 <= w
        * 0x100_0000_0001 + exact) by (nonlinear_arith)
        requires
            -(m * 0x100_0000_0001 + e) <= 2 * (k - e) * 0x100_0000_0000 <= m * 0x100_0000_0001 + e,
            m == w * p,
            e == exact * p,
            k == told * p,
            p > 0,
    {
        let lim = w * 0x100_0000_0001 + exact;
        let v = 2 * (told - exact) * 0x100_0000_0000;
        assert(m * 0x100_0000_0001 + e == lim * p);
        assert(2 * (k - e) * 0x100_0000_0000 == v * p);
        assert(-(lim * p) == (-lim) * p);
    }
}

/// A list that leads has the projects with the most tokens, most first, and those
/// with as many in the order of their names; none that is left out has more than
/// one that is listed, and none is left out while there is room.
pub proof fn leaders_have_the_most(
    r: Seq<(Seq<char>, nat)>,
    m: Map<Seq<char>, nat>,
    n: int,
    p: Seq<char>,
)
    requires
        leads(r, m, n),
    ensures
        r.len() <= n,
        forall|i: int| 0 <= i < r.len() ==> (#[trigger] r[i]).1 == m[r[i].0],
        forall|i: int, j: int|
            0 <= i < j < r.len() ==> (#[trigger] r[i]).1 > (#[trigger] r[j]).1 || (r[i].1 == r[j].1
                && text_below(r[i].0, r[j].0)),
        m.dom().contains(p) && !(exists|i: int| 0 <= i < r.len() && (#[trigger] r[i]).0 == p) ==> {
            &&& r.len() == n
            &&& forall|i: int| 0 <= i < r.len() ==> (#[trigger] r[i]).1 >= m[p]
        },
{
}

/// The prompts that are looked at are those of every file that is still there,
/// each with all that is kept of it, and no others.
pub proof fn prompts_are_those_of_live_files(
    a: Seq<(Seq<Part>, Filed)>,
    b: Seq<(Seq<Part>, Filed)>,
    one: (Seq<Part>, Filed),
)
    ensures
        live_prompts(a + b) == live_prompts(a) + live_prompts(b),
        one.1.tombstoned ==> live_prompts(seq![one]).len() == 0,
        !one.1.tombstoned ==> live_prompts(seq![one]) == one.1.prompts,
    decreases b.len(),
{
    assert(seq![one].drop_last() =~= seq![]);
    assert(live_prompts(seq![]) =~= seq![]);
    assert(live_prompts(seq![one]) =~= if one.1.tombstoned {
        seq![]
    } else {
        one.1.prompts
    });
    if b.len() == 0 {
        assert(a + b =~= a);
    } else {
        prompts_are_those_of_live_files(a, b.drop_last(), one);
        assert((a + b).drop_last() =~= a + b.drop_last());
        assert((a + b).last() == b.last());
    }
    assert(live_prompts(a + b) =~= live_prompts(a) + live_prompts(b));
}

/// Of some prompts those are recent whose day is the given one or a later one, in
/// their order.
pub proof fn prompts_are_recent_from_a_day_on(
    prompts: Seq<Prompt>,
    days: Seq<i32>,
    since: i32,
    next: Prompt,
    day: i32,
)
    requires
        days.len() == prompts.len(),
    ensures
        recent_prompts(seq![], seq![], since) == Seq::<Prompt>::empty(),
        day >= since ==> recent_prompts(prompts.push(next), days.push(day), since)
            == recent_prompts(prompts, days, since).push(next),
        day < since ==> recent_prompts(prompts.push(next), days.push(day), since) == recent_prompts(
            prompts,
            days,
            since,
        ),
{
    assert(prompts.push(next).drop_last() =~= prompts);
    lemma_recent_beyond(prompts, days, day, since);
}

proof fn lemma_recent_beyond(prompts: Seq<Prompt>, days: Seq<i32>, day: i32, since: i32)
    requires
        prompts.len() <= days.len(),
    ensures
        recent_prompts(prompts, days.push(day), since) == recent_prompts(prompts, days, since),
    decreases prompts.len(),
{
    if prompts.len() > 0 {
        lemma_recent_beyond(prompts.drop_last(), days, day, since);
    }
}

/// A project is called by the last part of its path, and by the last two where
/// another project ends in the same part and there are two.
pub proof fn projects_are_called_by_their_last_parts(
    front: Seq<char>,
    parent: Seq<char>,
    base: Seq<char>,
    all: Seq<Seq<char>>,
)
    requires
        !base.contains('/'),
        !parent.contains('/'),
    ensures
        base_name(base) == base,
        base_name(parent + seq!['/'] + base) == base,
        base_name(front + seq!['/'] + parent + seq!['/'] + base) == base,
        parent_name(base).len() == 0,
        parent_name(parent + seq!['/'] + base) == parent,
        parent_name(front + seq!['/'] + parent + seq!['/'] + base) == parent,
        short_name_of(base, all) == base,
        ({
            let full = front + seq!['/'] + parent + seq!['/'] + base;
            &&& parent.len() == 0 ==> short_name_of(full, all) == base
            &&& (forall|i: int|
                0 <= i < all.len() && #[trigger] all[i] != full ==> base_name(all[i]) != base)
                ==> short_name_of(full, all) == base
            &&& parent.len() > 0 && (exists|i: int|
                0 <= i < all.len() && #[trigger] all[i] != full && base_name(all[i]) == base)
                ==> short_name_of(full, all) == parent + seq!['/'] + base
        }),
{
    lemma_last_part(seq![], base, false);
    assert(seq![] + base =~= base);
    lemma_last_part(parent, base, true);
    let head = front + seq!['/'] + parent;
    lemma_last_part(head, base, true);
    lemma_last_part(seq![], parent, false);
    assert(seq![] + parent =~= parent);
    lemma_last_part(front, parent, true);
    assert((parent + seq!['/'] + base).take(parent.len() as int) =~= parent);
    let full = front + seq!['/'] + parent + seq!['/'] + base;
    assert(full =~= head + seq!['/'] + base);
    assert(full.take(head.len() as int) =~= head);
}

proof fn lemma_last_part(head: Seq<char>, tail: Seq<char>, slash: bool)
    requires
        !tail.contains('/'),
        !slash ==> head.len() == 0,
    ensures
        slash ==> last_slash(head + seq!['/'] + tail) == head.len() && base_name(
            head + seq!['/'] + tail,
        ) == tail,
        !slash ==> last_slash(head + tail) == -1 && base_name(head + tail) == tail,
    decreases tail.len(),
{
    let s = if slash {
        head + seq!['/'] + tail
    } else {
        head + tail
    };
    if tail.len() > 0 {
        let rest = tail.drop_last();
        assert(!rest.contains('/')) by {
            if rest.contains('/') {
                assert(tail[rest.index_of('/')] == '/');
            }
        }
        lemma_last_part(head, rest, slash);
        assert(tail[tail.len() - 1] != '/');
        assert(s.last() == tail.last());
        if slash {
            assert(s.drop_last() =~= head + seq!['/'] + rest);
        } else {
            assert(s.drop_last() =~= head + rest);
        }
    }
    assert(s.skip(last_slash(s) + 1) =~= tail);
}

/// A transcript is a file whose name is something followed by the suffix.
pub proof fn transcripts_have_their_suffix(name: Seq<char>, stem: Seq<char>)
    ensures
        stem.len() > 0 ==> is_transcript_name(stem + ".jsonl"@),
        !is_transcript_name(".jsonl"@),
        is_transcript_name(name) ==> name.len() > 6 && name == name.take(name.len() - 6) + ".jsonl"@,
{
    reveal_strlit(".jsonl");
    let s = stem + ".jsonl"@;
    assert(s.skip(s.len() - 6) =~= ".jsonl"@);
    if is_transcript_name(name) {
        assert(name =~= name.take(name.len() - 6) + name.skip(name.len() - 6));
    }
}

/// After a scan that changed anything, the files that were scanned are those that
/// are still there, and the time of the scan is known.
pub proof fn what_a_scan_leaves(
    before: Aggregates,
    after: Aggregates,
    found: Seq<Scanned>,
    now: Timestamp,
)
    requires
        is_rescanned(before, after, found, now),
    ensures
        after.scanned_files + gone_count(after.files()) == after.files().len(),
        after.last_scanned_at == Some(now),
        after.version == before.version,
        after.rolled_up(),
{
    live_and_gone(after.files());
}

/// A purge drops as many files as it says, and leaves none that is gone.
pub proof fn what_a_purge_leaves(before: Aggregates, after: Aggregates, n: nat)
    requires
        is_purged(before, after, n),
    ensures
        after.files().len() + n == before.files().len(),
        gone_count(after.files()) == 0,
        n > 0 ==> after.scanned_files == after.files().len(),
        after.last_scanned_at == before.last_scanned_at,
        after.version == before.version,
        n > 0 || before.rolled_up() ==> after.rolled_up(),
{
    live_and_gone(before.files());
    nothing_is_gone_after_a_purge(before.files());
}

/// The projects stand by all their tokens over all time, and by what they are taken
/// to have used from a day on; one that used nothing since does not stand anywhere.
pub proof fn how_projects_stand(agg: Aggregates, since: i32, p: Seq<char>)
    ensures
        standings(agg, None).dom().contains(p) <==> agg.by_project@.dom().contains(p),
        agg.by_project@.dom().contains(p) ==> standings(agg, None)[p] == agg.by_project@[p].total,
        standings(agg, Some(since)).dom().contains(p) <==> portion_sum(agg.files(), since, p) > 0,
        standings(agg, Some(since)).dom().contains(p) ==> standings(agg, Some(since))[p]
            == portion_sum(agg.files(), since, p),
{
}

/// What a project is taken to have used in several files adds up over the files.
pub proof fn portions_add_up(
    a: Seq<(Seq<Part>, Filed)>,
    b: Seq<(Seq<Part>, Filed)>,
    one: (Seq<Part>, Filed),
    since: i32,
    p: Seq<char>,
)
    ensures
        portion_sum(a + b, since, p) == portion_sum(a, since, p) + portion_sum(b, since, p),
        portion_sum(seq![one], since, p) == portion(one.1, since, p),
        !one.1.by_project.dom().contains(p) ==> portion(one.1, since, p) == 0,
    decreases b.len(),
{
    assert(seq![one].drop_last() =~= seq![]);
    assert(portion_sum(seq![], since, p) == 0);
    if b.len() == 0 {
        assert(a + b =~= a);
    } else {
        portions_add_up(a, b.drop_last(), one, since, p);
        assert((a + b).drop_last() =~= a + b.drop_last());
        assert((a + b).last() == b.last());
    }
}

/// The heaviest prompts of a day and later are picked among those alone: as many as
/// are asked for or there are, and none that is left out is of that day or later
/// and heavier than one that is picked.
pub proof fn the_heaviest_recent_prompts_are_picked(
    prompts: Seq<Prompt>,
    days: Seq<i32>,
    since: i32,
    n: int,
)
    requires
        n >= 0,
        days.len() == prompts.len(),
        prompts.len() <= usize::MAX,
        forall|i: int| 0 <= i < prompts.len() ==> (#[trigger] prompts[i]).tokens <= u64::MAX,
    ensures
        ({
            let recent = recent_prompts(prompts, days, since);
            let top = heaviest_since(prompts, days, since, n);
            &&& top.len() == if n < recent.len() {
                n
            } else {
                recent.len() as int
            }
            &&& exists|order: Seq<usize>| picks_the_heaviest(recent, order, top)
            &&& forall|i: int|
                0 <= i < prompts.len() && days[i] >= since ==> recent.contains(#[trigger] prompts[i])
        }),
{
    lemma_recent_small(prompts, days, since);
    let recent = recent_prompts(prompts, days, since);
    the_heaviest_are_picked(recent, n);
    let top = heaviest(recent, n);
    let order = choose|order: Seq<usize>| picks_the_heaviest(recent, order, top);
    assert(picks_the_heaviest(recent, order, heaviest_since(prompts, days, since, n)));
}

proof fn lemma_recent_small(prompts: Seq<Prompt>, days: Seq<i32>, since: i32)
    requires
        prompts.len() <= days.len(),
        forall|i: int| 0 <= i < prompts.len() ==> (#[trigger] prompts[i]).tokens <= u64::MAX,
    ensures
        recent_prompts(prompts, days, since).len() <= prompts.len(),
        forall|i: int|
            0 <= i < recent_prompts(prompts, days, since).len() ==> (#[trigger] recent_prompts(
                prompts,
                days,
                since,
            )[i]).tokens <= u64::MAX,
        forall|i: int|
            0 <= i < prompts.len() && days[i] >= since ==> recent_prompts(
                prompts,
                days,
                since,
            ).contains(#[trigger] prompts[i]),
    decreases prompts.len(),
{
    if prompts.len() > 0 {
        let rest = prompts.drop_last();
        let (was, all) = (recent_prompts(rest, days, since), recent_prompts(prompts, days, since));
        assert forall|i: int| 0 <= i < rest.len() implies (#[trigger] rest[i]).tokens <= u64::MAX by {
            assert(rest[i] == prompts[i]);
        }
        lemma_recent_small(rest, days, since);
        let last = prompts[prompts.len() - 1];
        assert(prompts.last() == last);
        assert forall|i: int| 0 <= i < all.len() implies (#[trigger] all[i]).tokens <= u64::MAX by {
            if i < was.len() {
                assert(all[i] == was[i]);
            }
        }
        assert forall|i: int| 0 <= i < prompts.len() && days[i] >= since implies all.contains(
            #[trigger] prompts[i],
        ) by {
            if i < rest.len() {
                assert(rest[i] == prompts[i]);
                assert(all[was.index_of(rest[i])] == prompts[i]);
            } else {
                assert(all[all.len() - 1] == prompts[i]);
            }
        }
    }
}

/// What a file used on a day counts from that day and every earlier one on, and
/// among all that it used.
pub proof fn what_counts_from_a_day_on(f: Filed, g: Filed, day: i32, c: Count, since: i32)
    requires
        g.by_day == f.by_day.insert(day, c),
    ensures
        file_sum(g) + count_at(f.by_day, day).sum() == file_sum(f) + c.sum(),
        day >= since ==> recent_sum(g, since) + count_at(f.by_day, day).sum() == recent_sum(f, since)
            + c.sum(),
        day < since ==> recent_sum(g, since) == recent_sum(f, since),
{
    crate::rollup::a_day_counts_in_its_spans(f.by_day, day, c, i32::MIN as int, i32::MAX + 1);
    crate::rollup::a_day_counts_in_its_spans(f.by_day, day, c, since as int, i32::MAX + 1);
}

/// Counts of another layout are kept under the new one, all of them; the
/// transcripts that are still there have to be read again, whenever they were
/// changed. Counts of the same layout are left as they are.
pub proof fn what_a_change_of_layout_does(a: Aggregates, b: Aggregates, i: int)
    requires
        migrates(a, b),
        0 <= i < a.files().len(),
    ensures
        b.version == 1,
        a.version == 1 ==> b == a,
        b.files().len() == a.files().len(),
        b.files()[i].0 == a.files()[i].0,
        b.files()[i].1.by_day == a.files()[i].1.by_day,
        b.files()[i].1.by_project == a.files()[i].1.by_project,
        b.files()[i].1.prompts == a.files()[i].1.prompts,
        b.files()[i].1.tombstoned == a.files()[i].1.tombstoned,
        a.version != 1 && !a.files()[i].1.tombstoned ==> b.files()[i].1.mtime == i128::MIN,
        a.files()[i].1.tombstoned ==> b.files()[i] == a.files()[i],
        b.by_day == a.by_day,
        b.by_project == a.by_project,
{
}

/// There is something to show as soon as a file was scanned or a day has tokens,
/// and nothing before.
pub proof fn when_there_is_something_to_show(days: Set<i32>, day: i32, scanned: nat)
    ensures
        scanned > 0 ==> has_something(days, scanned),
        days.contains(day) ==> has_something(days, scanned),
        !has_something(Set::empty(), 0),
{
}

} // verus!
