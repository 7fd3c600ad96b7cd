//! Alarms: quotas that reach a level, and use that climbs too fast.

use crate::api::{Reading, Usage, UsageResponse, Window};
use crate::brand::{product_heading, product_title};
use crate::clock::{seconds_between, Timestamp};
use crate::double::{
    at_most, climbs_are_finite, cut, differences_are_close, differences_tell_the_order,
    dyadic_fractions_are_exact, fixed0, fixed1, fractions_are_close,
    half_a_minute_is_thirty_seconds, half_away, halving_adds_nothing, int_value, is_close,
    lemma_scaled_close, lemma_three_roundings, lemma_unscaled_close, less, minus,
    multiples_round_to_the_nearest, one_has_many_steps, over, percentages_with_a_decimal,
    positive_numbers_have_steps, quotients_are_close, quotients_of_negatives, ratio_value,
    rounding_keeps_order, steps_of, times, up_to_a_hundred, whole_numbers_are_exact,
    whole_numbers_divide, zero_is_least, Double, Value,
};
use crate::text::{decimal, push_decimal};
use vstd::arithmetic::power2::{lemma2_to64, pow2};
use vstd::prelude::*;

verus! {

/// A message for the user.
#[derive(Debug, Clone, PartialEq)]
pub struct Notification {
    pub title: String,
    pub body: String,
}

/// What a `Notification` says.
pub struct Notice {
    pub title: Seq<char>,
    pub body: Seq<char>,
}

impl View for Notification {
    type V = Notice;

    open spec fn view(&self) -> Notice {
        Notice { title: self.title@, body: self.body@ }
    }
}

pub open spec fn notices(v: Seq<Notification>) -> Seq<Notice> {
    v.map_values(|n: Notification| n@)
}

/// Which levels a window has reached since it was last renewed.
#[derive(Debug)]
struct WindowState {
    fired: Vec<bool>,
    reset_at: Option<Timestamp>,
}

/// What a tracker knows of a window: the levels that were announced, and when
/// the window is renewed.
pub struct Reached {
    pub fired: Seq<bool>,
    pub reset_at: Option<Timestamp>,
}

impl WindowState {
    spec fn reached(self) -> Reached {
        Reached { fired: self.fired@, reset_at: self.reset_at }
    }

    fn new(n: usize) -> (r: WindowState)
        ensures
            r.reached() == (Reached { fired: Seq::new(n as nat, |i: int| false), reset_at: None }),
    {
        let mut fired: Vec<bool> = Vec::new();
        let mut i: usize = 0;
        while i < n
            invariant
                i <= n,
                fired@ =~= Seq::new(i as nat, |i: int| false),
            decreases n - i,
        {
            fired.push(false);
            i = i + 1;
        }
        WindowState { fired, reset_at: None }
    }
}

/// Announces each level once per window.
#[derive(Debug)]
pub struct ThresholdTracker {
    thresholds: Vec<Double>,
    session: WindowState,
    weekly: WindowState,
}

/// A percentage, without decimals.
pub open spec fn level_percent(level: Value) -> nat {
    cut(half_away(times(level, ratio_value(100, 1))), 0, u32::MAX as int) as nat
}

/// The message for a level that is reached.
pub open spec fn level_notice(label: Seq<char>, level: Value, utilization: Value) -> Notice {
    Notice {
        title: product_title() + " "@ + label + " quota at "@ + decimal(level_percent(level)) + "%"@,
        body: "Current usage: "@ + fixed0(half_away(times(utilization, ratio_value(100, 1)))) + "%"@,
    }
}

/// The levels still unannounced in the window that is renewed at `reset_at`.
pub open spec fn rearmed(w: Reached, reset_at: Option<Timestamp>) -> Seq<bool> {
    if w.reset_at == reset_at {
        w.fired
    } else {
        Seq::new(w.fired.len(), |i: int| false)
    }
}

/// What is known of a window after a reading.
pub open spec fn after_reading(levels: Seq<Value>, w: Reached, r: Reading) -> Reached {
    let fired = rearmed(w, r.resets_at);
    Reached {
        fired: Seq::new(fired.len(), |i: int| fired[i] || at_most(levels[i], r.utilization)),
        reset_at: r.resets_at,
    }
}

/// The messages for the levels that a reading reaches and that were not
/// announced.
pub open spec fn level_notices(
    levels: Seq<Value>,
    fired: Seq<bool>,
    utilization: Value,
    label: Seq<char>,
) -> Seq<Notice>
    decreases levels.len(),
{
    if levels.len() == 0 {
        seq![]
    } else {
        let rest = level_notices(levels.drop_last(), fired, utilization, label);
        if at_most(levels.last(), utilization) && !fired[levels.len() - 1] {
            rest.push(level_notice(label, levels.last(), utilization))
        } else {
            rest
        }
    }
}

/// What is known of a window after a report, which may say nothing of it.
pub open spec fn reached_after(levels: Seq<Value>, w: Reached, r: Option<Reading>) -> Reached {
    match r {
        Some(x) => after_reading(levels, w, x),
        None => w,
    }
}

/// The messages that a report gives rise to for a window.
pub open spec fn window_notices(
    levels: Seq<Value>,
    w: Reached,
    r: Option<Reading>,
    label: Seq<char>,
) -> Seq<Notice> {
    match r {
        Some(x) => level_notices(levels, rearmed(w, x.resets_at), x.utilization, label),
        None => seq![],
    }
}

/// The messages on a window, if they are wanted.
pub open spec fn if_wanted(wanted: bool, messages: Seq<Notice>) -> Seq<Notice> {
    if wanted {
        messages
    } else {
        seq![]
    }
}

/// `after` is `before` once a report is taken in, whatever messages are wanted.
pub open spec fn takes_levels(before: ThresholdTracker, after: ThresholdTracker, u: Usage) -> bool {
    &&& after.levels() == before.levels()
    &&& after.session_reached() == reached_after(
        before.levels(),
        before.session_reached(),
        u.five_hour,
    )
    &&& after.weekly_reached() == reached_after(
        before.levels(),
        before.weekly_reached(),
        u.seven_day,
    )
}

pub open spec fn values_of(v: Seq<Double>) -> Seq<Value> {
    v.map_values(|d: Double| d@)
}

impl Default for ThresholdTracker {
    /// The levels 75, 90 and 95 percent.
    fn default() -> (r: ThresholdTracker)
        ensures
            r.levels() == seq![ratio_value(75, 100), ratio_value(90, 100), ratio_value(95, 100)],
            r.session_reached() == nothing_reached(3),
            r.weekly_reached() == nothing_reached(3),
    {
        let mut thresholds: Vec<Double> = Vec::new();
        thresholds.push(Double::ratio(75, 100));
        thresholds.push(Double::ratio(90, 100));
        thresholds.push(Double::ratio(95, 100));
        let r = ThresholdTracker::new(thresholds);
        assert(r.levels() =~= seq![ratio_value(75, 100), ratio_value(90, 100), ratio_value(95, 100)]);
        r
    }
}

impl Clone for ThresholdTracker {
    fn clone(&self) -> (r: ThresholdTracker)
        ensures
            r.levels() == self.levels(),
            r.session_reached() == self.session_reached(),
            r.weekly_reached() == self.weekly_reached(),
    {
        proof {
            use_type_invariant(self);
        }
        let thresholds = self.thresholds.clone();
        let session = WindowState {
            fired: self.session.fired.clone(),
            reset_at: self.session.reset_at,
        };
        let weekly = WindowState {
            fired: self.weekly.fired.clone(),
            reset_at: self.weekly.reset_at,
        };
        assert(thresholds@ =~= self.thresholds@);
        assert(session.fired@ =~= self.session.fired@);
        assert(weekly.fired@ =~= self.weekly.fired@);
        ThresholdTracker { thresholds, session, weekly }
    }
}

impl ThresholdTracker {
    /// The levels that are announced.
    pub closed spec fn levels(self) -> Seq<Value> {
        values_of(self.thresholds@)
    }

    pub closed spec fn session_reached(self) -> Reached {
        self.session.reached()
    }

    pub closed spec fn weekly_reached(self) -> Reached {
        self.weekly.reached()
    }

    #[verifier::type_invariant]
    spec fn one_flag_per_level(self) -> bool {
        &&& self.session.fired.len() == self.thresholds.len()
        &&& self.weekly.fired.len() == self.thresholds.len()
    }

    pub fn new(thresholds: Vec<Double>) -> (r: ThresholdTracker)
        ensures
            r.levels() == values_of(thresholds@),
            r.session_reached() == nothing_reached(thresholds@.len()),
            r.weekly_reached() == nothing_reached(thresholds@.len()),
    {
        let n: usize = thresholds.len();
        ThresholdTracker { thresholds, session: WindowState::new(n), weekly: WindowState::new(n) }
    }

    /// Takes in a report and gives the messages that it gives rise to.
    pub fn observe(&mut self, u: &UsageResponse) -> (r: Vec<Notification>)
        ensures
            final(self).levels() == old(self).levels(),
            final(self).session_reached() == reached_after(
                old(self).levels(),
                old(self).session_reached(),
                u@.five_hour,
            ),
            final(self).weekly_reached() == reached_after(
                old(self).levels(),
                old(self).weekly_reached(),
                u@.seven_day,
            ),
            takes_levels(*old(self), *final(self), u@),
            notices(r@) == window_notices(
                old(self).levels(),
                old(self).session_reached(),
                u@.five_hour,
                "Session"@,
            ) + window_notices(
                old(self).levels(),
                old(self).weekly_reached(),
                u@.seven_day,
                "Weekly"@,
            ),
    {
        self.observe_wanted(u, true, true)
    }

    /// Takes in a report and gives the messages on the session and on the week
    /// that it gives rise to, each where they are wanted.
    pub fn observe_wanted(&mut self, u: &UsageResponse, session: bool, weekly: bool) -> (r: Vec<
        Notification,
    >)
        ensures
            final(self).levels() == old(self).levels(),
            final(self).session_reached() == reached_after(
                old(self).levels(),
                old(self).session_reached(),
                u@.five_hour,
            ),
            final(self).weekly_reached() == reached_after(
                old(self).levels(),
                old(self).weekly_reached(),
                u@.seven_day,
            ),
            takes_levels(*old(self), *final(self), u@),
            notices(r@) == if_wanted(
                session,
                window_notices(
                    old(self).levels(),
                    old(self).session_reached(),
                    u@.five_hour,
                    "Session"@,
                ),
            ) + if_wanted(
                weekly,
                window_notices(
                    old(self).levels(),
                    old(self).weekly_reached(),
                    u@.seven_day,
                    "Weekly"@,
                ),
            ),
    {
        proof {
            use_type_invariant(&*self);
        }
        let ghost of_session = window_notices(
            self.levels(),
            self.session_reached(),
            u@.five_hour,
            "Session"@,
        );
        let ghost of_week = window_notices(
            self.levels(),
            self.weekly_reached(),
            u@.seven_day,
            "Weekly"@,
        );
        let mut out: Vec<Notification> = Vec::new();
        let mut unwanted: Vec<Notification> = Vec::new();
        let mut taken = ThresholdTracker {
            thresholds: Vec::new(),
            session: WindowState { fired: Vec::new(), reset_at: None },
            weekly: WindowState { fired: Vec::new(), reset_at: None },
        };
        std::mem::swap(&mut taken, self);
        let ThresholdTracker { thresholds, session: mut five_hour, weekly: mut seven_day } = taken;
        if let Some(w) = &u.five_hour {
            if session {
                crossings(&thresholds, &mut five_hour, *w, "Session", &mut out);
            } else {
                crossings(&thresholds, &mut five_hour, *w, "Session", &mut unwanted);
            }
        }
        assert(notices(out@) =~= if_wanted(session, of_session));
        let ghost before = notices(out@);
        if let Some(w) = &u.seven_day {
            if weekly {
                crossings(&thresholds, &mut seven_day, *w, "Weekly", &mut out);
            } else {
                crossings(&thresholds, &mut seven_day, *w, "Weekly", &mut unwanted);
            }
        }
        assert(notices(out@) =~= before + if_wanted(weekly, of_week));
        *self = ThresholdTracker { thresholds, session: five_hour, weekly: seven_day };
        out
    }
}

/// Announces the levels that a reading reaches, each once per window.
fn crossings(
    thresholds: &Vec<Double>,
    state: &mut WindowState,
    reading: Window,
    label: &str,
    out: &mut Vec<Notification>,
)
    requires
        old(state).fired.len() == thresholds.len(),
    ensures
        final(state).fired.len() == thresholds.len(),
        final(state).reached() == after_reading(
            values_of(thresholds@),
            old(state).reached(),
            reading@,
        ),
        notices(final(out)@) == notices(old(out)@) + level_notices(
            values_of(thresholds@),
            rearmed(old(state).reached(), reading@.resets_at),
            reading@.utilization,
            label@,
        ),
{
    let ghost levels = values_of(thresholds@);
    let ghost start = notices(out@);
    let ghost armed = rearmed(state.reached(), reading.resets_at);
    let n: usize = thresholds.len();
    if state.reset_at != reading.resets_at {
        *state = WindowState::new(n);
        state.reset_at = reading.resets_at;
    }
    assert(state.fired@ =~= armed);
    let mut i: usize = 0;
    while i < n
        invariant
            i <= n,
            n == thresholds.len(),
            n == state.fired.len(),
            n == armed.len(),
            levels == values_of(thresholds@),
            state.reset_at == reading.resets_at,
            forall|k: int|
                0 <= k < i ==> #[trigger] state.fired@[k] == (armed[k] || at_most(
                    levels[k],
                    reading.utilization@,
                )),
            forall|k: int| i <= k < n ==> #[trigger] state.fired@[k] == armed[k],
            notices(out@) =~= start + level_notices(
                levels.take(i as int),
                armed,
                reading.utilization@,
                label@,
            ),
        decreases n - i,
    {
        let t = thresholds[i];
        proof {
            assert(levels.take(i + 1).drop_last() =~= levels.take(i as int));
            assert(levels[i as int] == t@);
        }
        if reading.utilization.ge(t) && !state.fired[i] {
            let fired = &mut state.fired;
            fired.set(i, true);
            let note = announce(label, t, reading.utilization);
            let ghost before = out@;
            out.push(note);
            assert(notices(out@) =~= notices(before).push(note@));
        }
        i = i + 1;
    }
    assert(levels.take(n as int) =~= levels);
    assert(state.reached().fired =~= after_reading(
        levels,
        old(state).reached(),
        reading@,
    ).fired);
}

fn announce(label: &str, level: Double, utilization: Double) -> (r: Notification)
    ensures
        r@ == level_notice(label@, level@, utilization@),
{
    let hundred = Double::from_u64(100);
    let mut title = product_heading();
    title.append(" ");
    title.append(label);
    title.append(" quota at ");
    push_decimal(&mut title, level.mul(hundred).round().to_u32() as u64);
    title.append("%");
    let mut body = "Current usage: ".to_owned();
    utilization.mul(hundred).round().push_fixed0(&mut body);
    body.append("%");
    Notification { title, body }
}

/// A reading and when it was taken.
#[derive(Debug, Clone, Copy)]
pub struct SpikeSample {
    pub utilization: Double,
    pub at: Timestamp,
    pub reset_at: Option<Timestamp>,
}

/// What a `SpikeSample` says.
pub struct Sample {
    pub utilization: Value,
    pub at: Timestamp,
    pub reset_at: Option<Timestamp>,
}

impl View for SpikeSample {
    type V = Sample;

    open spec fn view(&self) -> Sample {
        Sample { utilization: self.utilization@, at: self.at, reset_at: self.reset_at }
    }
}

/// What is known of how fast a window is used up.
#[derive(Debug, Clone, Copy)]
pub struct SpikeWindow {
    pub prev: Option<SpikeSample>,
    pub armed: bool,
    pub last_rate: Double,
}

/// What a `SpikeWindow` says.
pub struct Climb {
    pub prev: Option<Sample>,
    pub armed: bool,
    pub last_rate: Value,
}

impl View for SpikeWindow {
    type V = Climb;

    open spec fn view(&self) -> Climb {
        Climb {
            prev: match self.prev {
                Some(s) => Some(s@),
                None => None,
            },
            armed: self.armed,
            last_rate: self.last_rate@,
        }
    }
}

pub open spec fn no_rate() -> Value {
    ratio_value(0, 1)
}

impl SpikeWindow {
    pub fn new() -> (r: SpikeWindow)
        ensures
            r@ == no_samples(),
    {
        SpikeWindow { prev: None, armed: true, last_rate: Double::ratio(0, 1) }
    }
}

/// Warns when use climbs too fast, which is what a runaway agent looks like.
#[derive(Debug, Clone)]
pub struct SpikeTracker {
    pub threshold_per_min: Double,
    pub rearm_factor: Double,
    pub track_weekly: bool,
    pub session: SpikeWindow,
    pub weekly: SpikeWindow,
}

/// The minutes from `a` to `b`.
pub open spec fn minutes_between(a: Timestamp, b: Timestamp) -> Value {
    over(int_value(seconds_between(b, a)), ratio_value(60, 1))
}

/// How fast use climbed between two samples, per minute.
pub open spec fn climb_rate(prev: Sample, now: Sample) -> Value {
    over(minus(now.utilization, prev.utilization), minutes_between(prev.at, now.at))
}

/// Two samples at most half a minute apart give no rate.
pub open spec fn too_close(prev: Sample, now: Sample) -> bool {
    at_most(minutes_between(prev.at, now.at), ratio_value(1, 2))
}

/// Use that has not grown.
pub open spec fn flat(prev: Sample, now: Sample) -> bool {
    at_most(minus(now.utilization, prev.utilization), ratio_value(0, 1))
}

/// What is known of a window after a sample.
pub open spec fn climbed(threshold: Value, factor: Value, w: Climb, s: Sample) -> Climb {
    if !(s.utilization is Fin) {
        Climb { last_rate: no_rate(), ..w }
    } else {
        match w.prev {
            None => Climb { prev: Some(s), last_rate: no_rate(), ..w },
            Some(prev) => if prev.reset_at != s.reset_at {
                Climb { prev: Some(s), armed: true, last_rate: no_rate() }
            } else if too_close(prev, s) {
                Climb { prev: Some(s), ..w }
            } else if flat(prev, s) {
                Climb { prev: Some(s), armed: true, last_rate: no_rate() }
            } else if !(climb_rate(prev, s) is Fin) {
                Climb { prev: Some(s), ..w }
            } else {
                let rate = climb_rate(prev, s);
                Climb {
                    prev: Some(s),
                    armed: (w.armed || less(rate, times(threshold, factor))) && !at_most(
                        threshold,
                        rate,
                    ),
                    last_rate: rate,
                }
            },
        }
    }
}

/// Whether a sample sets off the alarm: use climbed at the threshold or faster,
/// and the alarm was armed or the climb has slowed down enough to arm it.
pub open spec fn sets_off(threshold: Value, factor: Value, w: Climb, s: Sample) -> bool {
    &&& s.utilization is Fin
    &&& w.prev matches Some(prev) && {
        &&& prev.reset_at == s.reset_at
        &&& !too_close(prev, s)
        &&& !flat(prev, s)
        &&& climb_rate(prev, s) is Fin
        &&& w.armed || less(climb_rate(prev, s), times(threshold, factor))
        &&& at_most(threshold, climb_rate(prev, s))
    }
}

/// The alarm for use that climbs at `rate`.
pub open spec fn spike_notice(label: Seq<char>, rate: Value) -> Notice {
    Notice {
        title: product_title() + " "@ + label + " usage spiking"@,
        body: "+"@ + fixed1(times(rate, ratio_value(100, 1))) + "%/min — possible runaway"@,
    }
}

pub open spec fn spike_notices(
    threshold: Value,
    factor: Value,
    w: Climb,
    s: Sample,
    label: Seq<char>,
) -> Seq<Notice> {
    if sets_off(threshold, factor, w, s) {
        seq![spike_notice(label, climb_rate(w.prev->0, s))]
    } else {
        seq![]
    }
}

pub open spec fn sample_of(r: Reading, now: Timestamp) -> Sample {
    Sample { utilization: r.utilization, at: now, reset_at: r.resets_at }
}

/// What is known of a window after a report, which may say nothing of it.
pub open spec fn climbed_by(
    threshold: Value,
    factor: Value,
    w: Climb,
    r: Option<Reading>,
    now: Timestamp,
) -> Climb {
    match r {
        Some(x) => climbed(threshold, factor, w, sample_of(x, now)),
        None => w,
    }
}

/// The alarms that a report sets off for a window.
pub open spec fn alarms(
    threshold: Value,
    factor: Value,
    w: Climb,
    r: Option<Reading>,
    now: Timestamp,
    label: Seq<char>,
) -> Seq<Notice> {
    match r {
        Some(x) => spike_notices(threshold, factor, w, sample_of(x, now), label),
        None => seq![],
    }
}

/// The report on the week, where it is followed.
pub open spec fn followed(track: bool, r: Option<Reading>) -> Option<Reading> {
    if track {
        r
    } else {
        None
    }
}

impl SpikeTracker {
    pub fn new(threshold_per_min: Double, track_weekly: bool) -> (r: SpikeTracker)
        ensures
            r.threshold_per_min == threshold_per_min,
            r.rearm_factor@ == ratio_value(1, 2),
            r.track_weekly == track_weekly,
            r.session@ == no_samples(),
            r.weekly@ == no_samples(),
    {
        SpikeTracker {
            threshold_per_min,
            rearm_factor: Double::ratio(1, 2),
            track_weekly,
            session: SpikeWindow::new(),
            weekly: SpikeWindow::new(),
        }
    }

    /// Takes in a report of the time `now` and gives the alarms that it sets
    /// off.
    pub fn observe(&mut self, u: &UsageResponse, now: Timestamp) -> (r: Vec<Notification>)
        ensures
            final(self).threshold_per_min == old(self).threshold_per_min,
            final(self).rearm_factor == old(self).rearm_factor,
            final(self).track_weekly == old(self).track_weekly,
            final(self).session@ == climbed_by(
                old(self).threshold_per_min@,
                old(self).rearm_factor@,
                old(self).session@,
                u@.five_hour,
                now,
            ),
            final(self).weekly@ == climbed_by(
                old(self).threshold_per_min@,
                old(self).rearm_factor@,
                old(self).weekly@,
                followed(old(self).track_weekly, u@.seven_day),
                now,
            ),
            notices(r@) == alarms(
                old(self).threshold_per_min@,
                old(self).rearm_factor@,
                old(self).session@,
                u@.five_hour,
                now,
                "session"@,
            ) + alarms(
                old(self).threshold_per_min@,
                old(self).rearm_factor@,
                old(self).weekly@,
                followed(old(self).track_weekly, u@.seven_day),
                now,
                "weekly"@,
            ),
    {
        let mut out: Vec<Notification> = Vec::new();
        if let Some(w) = &u.five_hour {
            self.session = check_spike(
                self.threshold_per_min,
                self.rearm_factor,
                self.session,
                *w,
                now,
                "session",
                &mut out,
            );
        }
        if self.track_weekly {
            if let Some(w) = &u.seven_day {
                self.weekly = check_spike(
                    self.threshold_per_min,
                    self.rearm_factor,
                    self.weekly,
                    *w,
                    now,
                    "weekly",
                    &mut out,
                );
            }
        }
        assert(notices(out@) =~= alarms(
            old(self).threshold_per_min@,
            old(self).rearm_factor@,
            old(self).session@,
            u@.five_hour,
            now,
            "session"@,
        ) + alarms(
            old(self).threshold_per_min@,
            old(self).rearm_factor@,
            old(self).weekly@,
            followed(old(self).track_weekly, u@.seven_day),
            now,
            "weekly"@,
        ));
        out
    }

    /// Whether the session climbs at the threshold or faster.
    pub fn session_spiking(&self) -> (r: bool)
        ensures
            r == at_most(self.threshold_per_min@, self.session@.last_rate),
    {
        self.session.last_rate.ge(self.threshold_per_min)
    }
}

/// The state of a window after a reading. Adds the alarm that it sets off.
pub fn check_spike(
    threshold: Double,
    rearm_factor: Double,
    state: SpikeWindow,
    reading: Window,
    now: Timestamp,
    label: &str,
    out: &mut Vec<Notification>,
) -> (r: SpikeWindow)
    ensures
        r@ == climbed(threshold@, rearm_factor@, state@, sample_of(reading@, now)),
        notices(final(out)@) == notices(old(out)@) + spike_notices(
            threshold@,
            rearm_factor@,
            state@,
            sample_of(reading@, now),
            label@,
        ),
{
    let nothing = Double::ratio(0, 1);
    let utilization = reading.utilization;
    let sample = SpikeSample { utilization, at: now, reset_at: reading.resets_at };
    let ghost s = sample_of(reading@, now);
    let ghost start = notices(out@);
    assert(start + seq![] =~= start);
    if !utilization.is_finite() {
        return SpikeWindow { last_rate: nothing, ..state };
    }
    let prev = match state.prev {
        Some(p) => p,
        None => {
            return SpikeWindow { prev: Some(sample), last_rate: nothing, ..state };
        },
    };
    if prev.reset_at != reading.resets_at {
        return SpikeWindow { prev: Some(sample), armed: true, last_rate: nothing };
    }
    let minutes = Double::from_i64(now.seconds_since(&prev.at)).div(Double::from_u64(60));
    if minutes.le(Double::ratio(1, 2)) {
        return SpikeWindow { prev: Some(sample), ..state };
    }
    let delta = utilization.sub(prev.utilization);
    if delta.le(nothing) {
        return SpikeWindow { prev: Some(sample), armed: true, last_rate: nothing };
    }
    let rate = delta.div(minutes);
    if !rate.is_finite() {
        return SpikeWindow { prev: Some(sample), ..state };
    }
    let mut armed = state.armed;
    if rate.lt(threshold.mul(rearm_factor)) {
        armed = true;
    }
    if armed && rate.ge(threshold) {
        armed = false;
        let mut title = product_heading();
        title.append(" ");
        title.append(label);
        title.append(" usage spiking");
        let mut body = "+".to_owned();
        rate.mul(Double::from_u64(100)).push_fixed1(&mut body);
        body.append("%/min — possible runaway");
        let note = Notification { title, body };
        let ghost before = out@;
        out.push(note);
        assert(note@ == spike_notice(label@, climb_rate(prev@, s)));
        assert(notices(out@) =~= notices(before).push(note@));
        assert(notices(out@) =~= start + seq![note@]);
    }
    SpikeWindow { prev: Some(sample), armed, last_rate: rate }
}

/// Whether a reading has level `i` announced.
pub open spec fn announced(levels: Seq<Value>, w: Reached, r: Reading, i: int) -> bool {
    at_most(levels[i], r.utilization) && !rearmed(w, r.resets_at)[i]
}

/// What is known of a window of `n` levels before the first report.
pub open spec fn nothing_reached(n: nat) -> Reached {
    Reached { fired: Seq::new(n, |i: int| false), reset_at: None }
}

/// What is known of a window after some reports, each of which may say nothing
/// of it.
pub open spec fn after_reports(levels: Seq<Value>, reports: Seq<Option<Reading>>) -> Reached
    decreases reports.len(),
{
    if reports.len() == 0 {
        nothing_reached(levels.len())
    } else {
        reached_after(levels, after_reports(levels, reports.drop_last()), reports.last())
    }
}

/// Whether report `k` has level `i` announced.
pub open spec fn announced_at(levels: Seq<Value>, reports: Seq<Option<Reading>>, k: int, i: int) -> bool {
    reports[k] matches Some(r) && announced(levels, after_reports(levels, reports.take(k)), r, i)
}

/// Whether report `j` has level `i` announced and the readings from there up to
/// before report `k` are of the window that is renewed at `t`.
pub open spec fn announced_since(
    levels: Seq<Value>,
    reports: Seq<Option<Reading>>,
    j: int,
    k: int,
    t: Option<Timestamp>,
    i: int,
) -> bool {
    &&& 0 <= j < k
    &&& announced_at(levels, reports, j, i)
    &&& forall|m: int|
        j <= m < k ==> (#[trigger] reports[m] matches Some(r) ==> r.resets_at == t)
}

/// A level is announced exactly when a reading has reached it and it was not
/// announced before in the same window, that is since the last time at which
/// the readings changed when the window is renewed.
pub proof fn a_level_is_announced_once_per_window(
    levels: Seq<Value>,
    reports: Seq<Option<Reading>>,
    k: int,
    i: int,
)
    requires
        0 <= k < reports.len(),
        0 <= i < levels.len(),
    ensures
        announced_at(levels, reports, k, i) <==> match reports[k] {
            Some(r) => at_most(levels[i], r.utilization) && !exists|j: int|
                #[trigger] announced_since(levels, reports, j, k, r.resets_at, i),
            None => false,
        },
{
    lemma_announced(levels, reports, k, i);
    if let Some(r) = reports[k] {
        let w = after_reports(levels, reports.take(k));
        if w.reset_at != r.resets_at {
            assert forall|j: int| !#[trigger]
                announced_since(levels, reports, j, k, r.resets_at, i) by {
                if announced_since(levels, reports, j, k, r.resets_at, i) {
                    let m = lemma_last_reading(levels, reports, j, k);
                    assert(reports[m] matches Some(x) ==> x.resets_at == r.resets_at);
                }
            }
        }
    }
}

/// The window known after the first `k` reports is that of the last reading.
proof fn lemma_last_reading(levels: Seq<Value>, reports: Seq<Option<Reading>>, j: int, k: int) -> (m:
    int)
    requires
        0 <= j < k <= reports.len(),
        reports[j] is Some,
    ensures
        j <= m < k,
        reports[m] matches Some(r) && after_reports(levels, reports.take(k)).reset_at == r.resets_at,
    decreases k,
{
    assert(reports.take(k).drop_last() =~= reports.take(k - 1));
    assert(reports.take(k).last() == reports[k - 1]);
    if reports[k - 1] is Some {
        k - 1
    } else {
        lemma_last_reading(levels, reports, j, k - 1)
    }
}

/// After the first `k` reports, the flag of a level says whether it was
/// announced in the window of the last reading.
proof fn lemma_announced(levels: Seq<Value>, reports: Seq<Option<Reading>>, k: int, i: int)
    requires
        0 <= k <= reports.len(),
        0 <= i < levels.len(),
    ensures
        ({
            let w = after_reports(levels, reports.take(k));
            &&& w.fired.len() == levels.len()
            &&& w.fired[i] <==> exists|j: int|
                #[trigger] announced_since(levels, reports, j, k, w.reset_at, i)
        }),
    decreases k,
{
    if k > 0 {
        lemma_announced(levels, reports, k - 1, i);
        assert(reports.take(k).drop_last() =~= reports.take(k - 1));
        assert(reports.take(k).last() == reports[k - 1]);
        let was = after_reports(levels, reports.take(k - 1));
        let now = after_reports(levels, reports.take(k));
        assert forall|j: int| #[trigger]
            announced_since(levels, reports, j, k - 1, now.reset_at, i) implies announced_since(
            levels,
            reports,
            j,
            k,
            now.reset_at,
            i,
        ) by {}
        assert forall|j: int| #[trigger]
            announced_since(levels, reports, j, k, now.reset_at, i) && j < k
            - 1 implies announced_since(levels, reports, j, k - 1, now.reset_at, i) by {}
        if let Some(r) = reports[k - 1] {
            if was.reset_at != r.resets_at {
                assert forall|j: int| !#[trigger]
                    announced_since(levels, reports, j, k - 1, r.resets_at, i) by {
                    if announced_since(levels, reports, j, k - 1, r.resets_at, i) {
                        let m = lemma_last_reading(levels, reports, j, k - 1);
                        assert(reports[m] matches Some(x) ==> x.resets_at == r.resets_at);
                    }
                }
            }
            if announced_at(levels, reports, k - 1, i) {
                assert(announced_since(levels, reports, k - 1, k, now.reset_at, i));
            }
            if exists|j: int| #[trigger] announced_since(levels, reports, j, k, now.reset_at, i) {
                let j = choose|j: int| #[trigger]
                    announced_since(levels, reports, j, k, now.reset_at, i);
                if j < k - 1 {
                    assert(announced_since(levels, reports, j, k - 1, now.reset_at, i));
                }
            }
            if now.fired[i] && !announced_at(levels, reports, k - 1, i) {
                let j = choose|j: int| #[trigger]
                    announced_since(levels, reports, j, k - 1, was.reset_at, i);
                assert(announced_since(levels, reports, j, k, now.reset_at, i));
            }
        } else {
            if exists|j: int| #[trigger] announced_since(levels, reports, j, k, now.reset_at, i) {
                let j = choose|j: int| #[trigger]
                    announced_since(levels, reports, j, k, now.reset_at, i);
                assert(reports[j] is Some);
                assert(announced_since(levels, reports, j, k - 1, now.reset_at, i));
            }
            if now.fired[i] {
                let j = choose|j: int| #[trigger]
                    announced_since(levels, reports, j, k - 1, was.reset_at, i);
                assert(announced_since(levels, reports, j, k, now.reset_at, i));
            }
        }
    }
}

/// When a window is renewed, every level that it has reached is announced
/// again.
pub proof fn a_renewed_window_is_announced_afresh(
    levels: Seq<Value>,
    w: Reached,
    r: Reading,
    i: int,
)
    requires
        w.fired.len() == levels.len(),
        0 <= i < levels.len(),
        r.resets_at != w.reset_at,
    ensures
        announced(levels, w, r, i) <==> at_most(levels[i], r.utilization),
{
}

/// The first `n` levels that a reading has announced, in their order.
pub open spec fn announced_levels(levels: Seq<Value>, w: Reached, r: Reading, n: int) -> Seq<int>
    decreases n,
{
    if n <= 0 {
        seq![]
    } else {
        let before = announced_levels(levels, w, r, n - 1);
        if announced(levels, w, r, n - 1) {
            before.push(n - 1)
        } else {
            before
        }
    }
}

/// There is one message for each level that is announced, in the order of the
/// levels.
pub proof fn one_message_per_level(
    levels: Seq<Value>,
    w: Reached,
    r: Reading,
    label: Seq<char>,
    n: int,
)
    requires
        0 <= n <= levels.len(),
    ensures
        level_notices(levels.take(n), rearmed(w, r.resets_at), r.utilization, label)
            == announced_levels(levels, w, r, n).map_values(
            |i: int| level_notice(label, levels[i], r.utilization),
        ),
        forall|i: int| #[trigger]
            announced_levels(levels, w, r, n).contains(i) <==> 0 <= i < n && announced(
                levels,
                w,
                r,
                i,
            ),
        forall|a: int, b: int|
            0 <= a < b < announced_levels(levels, w, r, n).len() ==> #[trigger] announced_levels(
                levels,
                w,
                r,
                n,
            )[a] < #[trigger] announced_levels(levels, w, r, n)[b],
    decreases n,
{
    let list = announced_levels(levels, w, r, n);
    let message = |i: int| level_notice(label, levels[i], r.utilization);
    if n > 0 {
        one_message_per_level(levels, w, r, label, n - 1);
        assert(levels.take(n).drop_last() =~= levels.take(n - 1));
        let before = announced_levels(levels, w, r, n - 1);
        if announced(levels, w, r, n - 1) {
            assert(list.map_values(message) =~= before.map_values(message).push(message(n - 1)));
            assert forall|i: int| #[trigger] list.contains(i) <==> 0 <= i < n && announced(
                levels,
                w,
                r,
                i,
            ) by {
                if before.contains(i) {
                    assert(list[before.index_of(i)] == i);
                }
                assert(list[before.len() as int] == n - 1);
                if list.contains(i) && i != n - 1 {
                    assert(before[list.index_of(i)] == i);
                }
            }
            assert forall|a: int, b: int| 0 <= a < b < list.len() implies #[trigger] list[a]
                < #[trigger] list[b] by {
                assert(before.contains(before[a]));
            }
        }
    } else {
        assert(list.map_values(message) =~= seq![]);
    }
}

/// A reading that is no number announces nothing.
pub proof fn a_nan_announces_nothing(levels: Seq<Value>, fired: Seq<bool>, label: Seq<char>)
    ensures
        level_notices(levels, fired, Value::Nan, label).len() == 0,
    decreases levels.len(),
{
    if levels.len() > 0 {
        a_nan_announces_nothing(levels.drop_last(), fired, label);
    }
}

/// The first reading of a window, the first after it is renewed, one that is
/// too close to the last, one that is not larger, and one that is no number set
/// off no alarm.
pub proof fn when_no_alarm_is_set_off(threshold: Value, factor: Value, w: Climb, s: Sample)
    ensures
        !(s.utilization is Fin) ==> !sets_off(threshold, factor, w, s),
        w.prev is None ==> !sets_off(threshold, factor, w, s),
        w.prev matches Some(p) ==> (p.reset_at != s.reset_at || too_close(p, s) || flat(p, s)
            ==> !sets_off(threshold, factor, w, s)),
{
}

/// A reading that is no number is not compared with later ones.
pub proof fn a_nan_is_no_baseline(threshold: Value, factor: Value, w: Climb, s: Sample)
    requires
        !(s.utilization is Fin),
    ensures
        climbed(threshold, factor, w, s).prev == w.prev,
        climbed(threshold, factor, w, s).armed == w.armed,
{
}

/// After an alarm there is no other one as long as the climb does not slow down
/// to below `factor` times the threshold, the window is not renewed and use
/// does not stop growing.
pub proof fn a_climb_sets_off_one_alarm(
    threshold: Value,
    factor: Value,
    w: Climb,
    s: Sample,
    next: Sample,
)
    requires
        sets_off(threshold, factor, w, s),
        !less(climb_rate(s, next), times(threshold, factor)),
    ensures
        !sets_off(threshold, factor, climbed(threshold, factor, w, s), next),
        next.utilization is Fin && next.reset_at == s.reset_at && !flat(s, next) ==> !climbed(
            threshold,
            factor,
            climbed(threshold, factor, w, s),
            next,
        ).armed,
{
}

/// The window is taken for spiking from the sample that sets off the alarm on.
pub proof fn an_alarm_lights_the_badge(threshold: Value, factor: Value, w: Climb, s: Sample)
    requires
        sets_off(threshold, factor, w, s),
    ensures
        at_most(threshold, climbed(threshold, factor, w, s).last_rate),
{
}

/// What is known of a window before the first sample.
pub open spec fn no_samples() -> Climb {
    Climb { prev: None, armed: true, last_rate: no_rate() }
}

/// What is known of a window after some samples.
pub open spec fn after_samples(threshold: Value, factor: Value, samples: Seq<Sample>) -> Climb
    decreases samples.len(),
{
    if samples.len() == 0 {
        no_samples()
    } else {
        climbed(
            threshold,
            factor,
            after_samples(threshold, factor, samples.drop_last()),
            samples.last(),
        )
    }
}

/// Whether sample `k` sets off the alarm.
#[verifier::opaque]
pub open spec fn alarm_at(threshold: Value, factor: Value, samples: Seq<Sample>, k: int) -> bool {
    sets_off(threshold, factor, after_samples(threshold, factor, samples.take(k)), samples[k])
}

/// Samples of one window, more than half a minute apart.
pub open spec fn comparable(prev: Sample, now: Sample) -> bool {
    &&& up_to_a_hundred(prev.utilization)
    &&& up_to_a_hundred(now.utilization)
    &&& prev.reset_at == now.reset_at
    &&& seconds_between(now.at, prev.at) >= 31
}

/// Samples of one window, each more than half a minute after the one before.
pub open spec fn steady(samples: Seq<Sample>) -> bool {
    &&& forall|k: int| 0 <= k < samples.len() ==> up_to_a_hundred((#[trigger] samples[k]).utilization)
    &&& forall|k: int| 0 < k < samples.len() ==> #[trigger] comparable(samples[k - 1], samples[k])
}

/// Use climbed at the threshold or faster up to sample `k`.
pub open spec fn fast_at(threshold: Value, samples: Seq<Sample>, k: int) -> bool {
    at_most(threshold, climb_rate(samples[k - 1], samples[k]))
}

/// Use climbed below `factor` times the threshold up to sample `k`, or not at
/// all.
#[verifier::opaque]
pub open spec fn slow_at(threshold: Value, factor: Value, samples: Seq<Sample>, k: int) -> bool {
    ||| flat(samples[k - 1], samples[k])
    ||| less(climb_rate(samples[k - 1], samples[k]), times(threshold, factor))
}

/// Since every alarm set off before sample `k` the climb has slowed down.
pub open spec fn slowed_since(threshold: Value, factor: Value, samples: Seq<Sample>, k: int) -> bool {
    forall|j: int|
        0 < j < k && #[trigger] alarm_at(threshold, factor, samples, j) ==> exists|m: int|
            j < m < k && #[trigger] slow_at(threshold, factor, samples, m)
}

/// Samples that can be compared give a finite rate, which is not above zero
/// where use has not grown.
proof fn lemma_comparable(prev: Sample, now: Sample)
    requires
        comparable(prev, now),
    ensures
        !too_close(prev, now),
        climb_rate(prev, now) is Fin,
        flat(prev, now) <==> at_most(now.utilization, prev.utilization),
        flat(prev, now) ==> at_most(climb_rate(prev, now), ratio_value(0, 1)),
{
    half_a_minute_is_thirty_seconds(seconds_between(now.at, prev.at));
    climbs_are_finite(prev.utilization, now.utilization, minutes_between(prev.at, now.at));
    differences_tell_the_order(now.utilization, prev.utilization);
}

/// A sample sets off the alarm exactly when use climbed up to it at the
/// threshold or faster and, after each alarm before, the climb has slowed down
/// to below half the threshold in the meantime or use has stopped growing. The
/// first sample sets off none.
pub proof fn alarms_over_time(threshold: Double, samples: Seq<Sample>, k: int)
    requires
        less(ratio_value(0, 1), threshold@),
        steady(samples),
        0 <= k < samples.len(),
    ensures
        alarm_at(threshold@, ratio_value(1, 2), samples, k) <==> k > 0 && fast_at(
            threshold@,
            samples,
            k,
        ) && slowed_since(threshold@, ratio_value(1, 2), samples, k),
{
    reveal(alarm_at);
    if k > 0 {
        lemma_armed(threshold, samples, k);
        assert(comparable(samples[k - 1], samples[k]));
        let w = after_samples(threshold@, ratio_value(1, 2), samples.take(k));
        lemma_armed_step(threshold, w, samples[k - 1], samples[k]);
    } else {
        assert(samples.take(0) =~= seq![]);
    }
}

/// A fast climb sets off an armed alarm and leaves it unarmed; a slow one arms
/// it; any other leaves it as it is.
proof fn lemma_armed_step(threshold: Double, w: Climb, prev: Sample, now: Sample)
    requires
        less(ratio_value(0, 1), threshold@),
        comparable(prev, now),
        w.prev == Some(prev),
    ensures
        ({
            let (t, half) = (threshold@, ratio_value(1, 2));
            let after = climbed(t, half, w, now);
            let slow = flat(prev, now) || less(climb_rate(prev, now), times(t, half));
            let fast = at_most(t, climb_rate(prev, now));
            &&& after.prev == Some(now)
            &&& fast ==> !slow
            &&& sets_off(t, half, w, now) <==> fast && w.armed
            &&& after.armed <==> slow || (w.armed && !fast)
        }),
{
    lemma_comparable(prev, now);
    whole_numbers_are_exact(0);
    halving_adds_nothing(threshold);
}

/// How the climbs since the last alarms go on from one sample to the next.
proof fn lemma_slowed_step(threshold: Value, factor: Value, samples: Seq<Sample>, k: int)
    requires
        1 < k,
        slow_at(threshold, factor, samples, k - 1) ==> !alarm_at(threshold, factor, samples, k - 1),
    ensures
        slowed_since(threshold, factor, samples, k) <==> slow_at(threshold, factor, samples, k - 1)
            || (slowed_since(threshold, factor, samples, k - 1) && !alarm_at(
            threshold,
            factor,
            samples,
            k - 1,
        )),
{
    let before = slowed_since(threshold, factor, samples, k - 1);
    let slow = slow_at(threshold, factor, samples, k - 1);
    if slow {
        assert forall|j: int| 0 < j < k && #[trigger]
            alarm_at(threshold, factor, samples, j) implies exists|m: int|
            j < m < k && #[trigger] slow_at(threshold, factor, samples, m) by {
            assert(j < k - 1 && slow_at(threshold, factor, samples, k - 1));
        }
    } else {
        if slowed_since(threshold, factor, samples, k) {
            assert forall|j: int| 0 < j < k - 1 && #[trigger]
                alarm_at(threshold, factor, samples, j) implies exists|m: int|
                j < m < k - 1 && #[trigger] slow_at(threshold, factor, samples, m) by {
                let m = choose|m: int|
                    j < m < k && #[trigger] slow_at(threshold, factor, samples, m);
                assert(m < k - 1);
            }
        }
        if before && !alarm_at(threshold, factor, samples, k - 1) {
            assert forall|j: int| 0 < j < k && #[trigger]
                alarm_at(threshold, factor, samples, j) implies exists|m: int|
                j < m < k && #[trigger] slow_at(threshold, factor, samples, m) by {
                let m = choose|m: int|
                    j < m < k - 1 && #[trigger] slow_at(threshold, factor, samples, m);
                assert(j < m < k && slow_at(threshold, factor, samples, m));
            }
        }
    }
}

/// After the first `k` samples the alarm is armed exactly when the climb has
/// slowed down since every alarm.
proof fn lemma_armed(threshold: Double, samples: Seq<Sample>, k: int)
    requires
        less(ratio_value(0, 1), threshold@),
        steady(samples),
        0 < k <= samples.len(),
    ensures
        ({
            let w = after_samples(threshold@, ratio_value(1, 2), samples.take(k));
            &&& w.prev == Some(samples[k - 1])
            &&& w.armed <==> slowed_since(threshold@, ratio_value(1, 2), samples, k)
        }),
    decreases k,
{
    let (t, half) = (threshold@, ratio_value(1, 2));
    assert(samples.take(k).drop_last() =~= samples.take(k - 1));
    assert(samples.take(k).last() == samples[k - 1]);
    assert(up_to_a_hundred(samples[k - 1].utilization));
    if k == 1 {
        assert(samples.take(0) =~= seq![]);
    } else {
        lemma_armed(threshold, samples, k - 1);
        assert(comparable(samples[k - 2], samples[k - 1]));
        let was = after_samples(t, half, samples.take(k - 1));
        lemma_armed_step(threshold, was, samples[k - 2], samples[k - 1]);
        assert(alarm_at(t, half, samples, k - 1) == sets_off(t, half, was, samples[k - 1])) by {
            reveal(alarm_at);
        }
        assert(slow_at(t, half, samples, k - 1) == (flat(samples[k - 2], samples[k - 1]) || less(
            climb_rate(samples[k - 2], samples[k - 1]),
            times(t, half),
        ))) by {
            reveal(slow_at);
        }
        lemma_slowed_step(t, half, samples, k);
    }
}

/// After two samples that can be compared, the session is taken for spiking
/// exactly when use has grown and climbed at the threshold or faster, whether
/// or not that set off the alarm.
pub proof fn the_badge_shows_the_last_climb(
    threshold: Value,
    factor: Value,
    w: Climb,
    first: Sample,
    second: Sample,
)
    requires
        less(ratio_value(0, 1), threshold),
        comparable(first, second),
    ensures
        ({
            let after = climbed(threshold, factor, climbed(threshold, factor, w, first), second);
            at_most(threshold, after.last_rate) <==> less(first.utilization, second.utilization)
                && at_most(
                threshold,
                over(
                    minus(second.utilization, first.utilization),
                    over(int_value(seconds_between(second.at, first.at)), ratio_value(60, 1)),
                ),
            )
        }),
{
    lemma_comparable(first, second);
    whole_numbers_are_exact(0);
}

/// Two samples give no rate unless they are more than half a minute apart: up to
/// thirty seconds they are too close, and from then on they are not. Samples that
/// are too close change neither the last rate nor whether the alarm is armed.
pub proof fn half_a_minute_is_too_close(
    threshold: Value,
    factor: Value,
    w: Climb,
    prev: Sample,
    now: Sample,
)
    requires
        -100_000_000_000_000 < seconds_between(now.at, prev.at),
    ensures
        too_close(prev, now) <==> seconds_between(now.at, prev.at) <= 30,
        seconds_between(now.at, prev.at) <= 30 && w.prev == Some(prev) && now.utilization is Fin
            && prev.reset_at == now.reset_at ==> {
            let after = climbed(threshold, factor, w, now);
            &&& after.last_rate == w.last_rate
            &&& after.armed == w.armed
            &&& after.prev == Some(now)
            &&& !sets_off(threshold, factor, w, now)
        },
{
    let s = seconds_between(now.at, prev.at);
    let p = pow2(1074);
    one_has_many_steps();
    if s >= 31 {
        half_a_minute_is_thirty_seconds(s);
    } else {
        let n = (if s < 0 { -s } else { s }) as nat;
        let (a, b) = (ratio_value(n, 1), ratio_value(60, 1));
        whole_numbers_are_exact(n);
        whole_numbers_are_exact(60);
        positive_numbers_have_steps(b);
        whole_numbers_divide(n, 60);
        lemma2_to64();
        dyadic_fractions_are_exact(1, 1);
        if s >= 0 {
            assert((n * p) * 2 <= (1 * p) * 60) by (nonlinear_arith)
                requires
                    n <= 30,
            ;
            rounding_keeps_order(n * p, 60, 1 * p, 2);
            zero_is_least(n, 60);
        } else {
            quotients_of_negatives(a, b);
            fractions_are_close(n, 60);
            positive_numbers_have_steps(ratio_value(n, 60));
            assert(1 * pow2(1073) >= 0) by (nonlinear_arith);
        }
    }
}

/// The rate is what use grew by a minute: times the seconds between two samples it
/// is sixty times what use grew by, but for rounding.
pub proof fn the_rate_is_the_growth_by_a_minute(prev: Sample, now: Sample)
    requires
        up_to_a_hundred(prev.utilization),
        up_to_a_hundred(now.utilization),
        steps_of(now.utilization) - steps_of(prev.utilization) >= 0x1_0000_0000_0000_0000
            * 0x1_0000_0000_0000,
        31 <= seconds_between(now.at, prev.at) < 10_000_000_000_000,
    ensures
        climb_rate(prev, now) is Fin,
        is_close(
            steps_of(climb_rate(prev, now)) * seconds_between(now.at, prev.at),
            60 * (steps_of(now.utilization) - steps_of(prev.utilization)),
            0x4_0000_0000_0000,
        ),
{
    let p = pow2(1074) as int;
    one_has_many_steps();
    let s = seconds_between(now.at, prev.at);
    let n = s as nat;
    whole_numbers_are_exact(n);
    whole_numbers_are_exact(60);
    whole_numbers_are_exact(0);
    whole_numbers_are_exact(100);
    whole_numbers_divide(n, 60);
    fractions_are_close(n, 60);
    let minutes = minutes_between(prev.at, now.at);
    let rise = minus(now.utilization, prev.utilization);
    let d = steps_of(now.utilization) - steps_of(prev.utilization);
    assert(0 * p == 0) by (nonlinear_arith);
    differences_are_close(now.utilization, prev.utilization, 100);
    let (m, r) = (steps_of(minutes), steps_of(rise));
    positive_numbers_have_steps(minutes);
    let t = n * p;
    assert(31 * p <= t <= 10_000_000_000_000 * p) by (nonlinear_arith)
        requires
            t == n * p,
            31 <= n < 10_000_000_000_000,
            p > 0,
    ;
    assert(2 * m >= p && m <= p * 1_000_000_000_000);
    assert(0x10_0000_0000_0000 * m <= r * p && r <= 400 * m) by (nonlinear_arith)
        requires
            2 * m >= p,
            m <= p * 1_000_000_000_000,
            r >= 0x8000_0000_0000_0000 * 0x1_0000_0000_0000,
            r <= 200 * p,
            p > 0,
    {
        assert(0x10_0000_0000_0000 * m <= (0x10_0000_0000_0000 * 1_000_000_000_000) * p);
        assert(r * p >= (0x8000_0000_0000_0000 * 0x1_0000_0000_0000) * p);
    }
    quotients_are_close(rise, minutes, 400);
    let q = steps_of(over(rise, minutes));
    positive_numbers_have_steps(over(rise, minutes));
    assert(q >= 0) by {
        if let Value::Fin { mant, exp, .. } = over(rise, minutes) {
            assert(mant * pow2(exp) >= 0) by (nonlinear_arith);
        }
    }
    lemma_scaled_close(m * 60, n * p, q, 0x20_0000_0000_0000);
    lemma_scaled_close(q * m, r * p, 60, 0x20_0000_0000_0000);
    lemma_scaled_close(r, d, 60 * p, 0x20_0000_0000_0000);
    assert((m * 60) * q == (q * m) * 60 && (n * p) * q == (q * s) * p && (r * p) * 60 == r * (60 * p)
        && d * (60 * p) == (60 * d) * p && (q * s) * p >= 0 && r * (60 * p) >= 0 && (60 * d) * p
        >= 0) by (nonlinear_arith)
        requires
            n == s,
            q >= 0,
            s >= 0,
            p > 0,
            r >= 0,
            d >= 0,
    {
        assert(q * s >= 0);
    }
    lemma_three_roundings((q * s) * p, (q * m) * 60, (r * p) * 60, (60 * d) * p);
    lemma_unscaled_close(q * s, 60 * d, p, 0x4_0000_0000_0000);
}

/// A message on a level says whose quota it is and both percentages in whole
/// numbers: that of the level, and how far the quota is used up.
pub proof fn what_a_level_message_says(
    label: Seq<char>,
    level: Value,
    utilization: Value,
    n: nat,
    used: nat,
)
    requires
        level matches Value::Fin { neg, .. } && !neg,
        utilization matches Value::Fin { neg, .. } && !neg,
        n <= 1_000_000_000,
        used <= 1_000_000_000,
        ((2 * n - 1) * 0x10_0000 + 1) * pow2(1074) <= 200 * steps_of(level) * 0x10_0000 <= ((2 * n
            + 1) * 0x10_0000 - 1) * pow2(1074),
        ((2 * used - 1) * 0x10_0000 + 1) * pow2(1074) <= 200 * steps_of(utilization) * 0x10_0000
            <= ((2 * used + 1) * 0x10_0000 - 1) * pow2(1074),
    ensures
        level_notice(label, level, utilization).title == product_title() + " "@ + label
            + " quota at "@ + decimal(n) + "%"@,
        level_notice(label, level, utilization).body == "Current usage: "@ + decimal(used) + "%"@,
{
    multiples_round_to_the_nearest(level, 100, n, 0, u32::MAX as int);
    multiples_round_to_the_nearest(utilization, 100, used, 0, u32::MAX as int);
    whole_numbers_are_exact(used);
}

/// An alarm says whose quota it is and how many percent of it are used up a
/// minute, to the nearest decimal.
pub proof fn what_an_alarm_says(label: Seq<char>, rate: Value, tenths: nat)
    requires
        rate matches Value::Fin { neg, .. } && !neg,
        tenths <= 1_000_000_000,
        ((2 * tenths - 1) * 0x10_0000 + 1) * pow2(1074) <= 2000 * steps_of(rate) * 0x10_0000 <= ((2
            * tenths + 1) * 0x10_0000 - 1) * pow2(1074),
    ensures
        spike_notice(label, rate).title == product_title() + " "@ + label + " usage spiking"@,
        spike_notice(label, rate).body == "+"@ + (decimal(tenths / 10) + seq![
            '.',
            crate::text::digit(tenths),
        ]) + "%/min — possible runaway"@,
{
    percentages_with_a_decimal(rate, tenths);
}

/// A report that says nothing of a window changes nothing of what is known of it
/// and announces nothing; the week sets off alarms only where it is followed.
pub proof fn silence_changes_nothing(
    levels: Seq<Value>,
    w: Reached,
    threshold: Value,
    factor: Value,
    c: Climb,
    r: Option<Reading>,
    now: Timestamp,
    label: Seq<char>,
)
    ensures
        reached_after(levels, w, None) == w,
        window_notices(levels, w, None, label).len() == 0,
        climbed_by(threshold, factor, c, None, now) == c,
        alarms(threshold, factor, c, None, now, label).len() == 0,
        climbed_by(threshold, factor, c, followed(false, r), now) == c,
        alarms(threshold, factor, c, followed(false, r), now, label).len() == 0,
        followed(true, r) == r,
{
}

/// What a sample leaves behind, before rates are compared: the first of a window,
/// and the first after it is renewed, is what the next is measured against, and the
/// latter arms the alarm; use that has not grown arms it too. None of these climbs,
/// nor does what is no number, which is not measured against.
pub proof fn what_a_sample_leaves_behind(threshold: Value, factor: Value, w: Climb, s: Sample)
    ensures
        ({
            let after = climbed(threshold, factor, w, s);
            let still = ratio_value(0, 1);
            &&& s.utilization is Fin ==> after.prev == Some(s)
            &&& !(s.utilization is Fin) ==> after.prev == w.prev && after.armed == w.armed
                && after.last_rate == still
            &&& s.utilization is Fin && w.prev is None ==> after.armed == w.armed
                && after.last_rate == still
            &&& s.utilization is Fin && (w.prev matches Some(p) && p.reset_at != s.reset_at)
                ==> after.armed && after.last_rate == still
            &&& s.utilization is Fin && (w.prev matches Some(p) && p.reset_at == s.reset_at
                && !too_close(p, s) && flat(p, s)) ==> after.armed && after.last_rate == still
        }),
{
}

/// A report marks every level that its reading of a quota has reached, whether or
/// not messages are wanted, and unmarks the others only when the window is renewed;
/// each quota by its own reading.
pub proof fn reached_levels_are_remembered(
    before: ThresholdTracker,
    after: ThresholdTracker,
    u: Usage,
    i: int,
)
    requires
        takes_levels(before, after, u),
        before.session_reached().fired.len() == before.levels().len(),
        before.weekly_reached().fired.len() == before.levels().len(),
        0 <= i < before.levels().len(),
    ensures
        after.levels() == before.levels(),
        u.five_hour is None ==> after.session_reached() == before.session_reached(),
        u.seven_day is None ==> after.weekly_reached() == before.weekly_reached(),
        u.five_hour matches Some(r) ==> {
            &&& after.session_reached().reset_at == r.resets_at
            &&& after.session_reached().fired[i] <==> at_most(before.levels()[i], r.utilization) || (
            before.session_reached().reset_at == r.resets_at && before.session_reached().fired[i])
        },
        u.seven_day matches Some(r) ==> {
            &&& after.weekly_reached().reset_at == r.resets_at
            &&& after.weekly_reached().fired[i] <==> at_most(before.levels()[i], r.utilization) || (
            before.weekly_reached().reset_at == r.resets_at && before.weekly_reached().fired[i])
        },
{
}

} // verus!
