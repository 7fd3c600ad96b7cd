//! What the application shows.

use crate::api::UsageResponse;
use crate::brand::{login_command, product_heading, product_title, push_login_command};
use crate::clock::Timestamp;
use crate::double::{at_most, less, Value};
use crate::history::Aggregates;
use crate::notifications::{
    alarms, climbed_by, followed, if_wanted, notices, reached_after, sets_off, takes_levels,
    window_notices, Notice, Notification, Sample, SpikeTracker, ThresholdTracker,
};
use crate::poller::PollEvent;
use crate::settings::Settings;
use vstd::prelude::*;

verus! {

/// What is known of the quotas.
#[derive(Debug, Clone)]
pub enum DataState {
    Loading,
    Ready { usage: UsageResponse, fetched_at: Timestamp },
    AuthRequired,
    Error(String),
}

#[derive(Debug, Clone)]
pub struct AppState {
    pub data: DataState,
    pub launch_at_login: bool,
    pub history: Option<Aggregates>,
}

/// The message when the token has expired.
pub open spec fn token_notice() -> Notice {
    Notice { title: product_title() + " Code token expired — run "@ + login_command(), body: seq![] }
}

/// What is known of the quotas after an event at `now`.
pub open spec fn shows(event: PollEvent, now: Timestamp, data: DataState) -> bool {
    match (event, data) {
        (PollEvent::Updated(told), DataState::Ready { usage, fetched_at }) => usage == told
            && fetched_at == now,
        (PollEvent::AuthRequired, DataState::AuthRequired) => true,
        (PollEvent::Error(why), DataState::Error(msg)) => msg == why,
        _ => false,
    }
}

/// The alarms that a report sets off where use climbs too fast.
pub open spec fn spike_alarms(spikes: SpikeTracker, usage: UsageResponse, now: Timestamp) -> Seq<
    Notice,
> {
    alarms(
        spikes.threshold_per_min@,
        spikes.rearm_factor@,
        spikes.session@,
        usage@.five_hour,
        now,
        "session"@,
    ) + alarms(
        spikes.threshold_per_min@,
        spikes.rearm_factor@,
        spikes.weekly@,
        followed(spikes.track_weekly, usage@.seven_day),
        now,
        "weekly"@,
    )
}

/// The messages that an event gives rise to, as far as the user wants them.
pub open spec fn event_notices(
    event: PollEvent,
    now: Timestamp,
    before: DataState,
    settings: Settings,
    tracker: ThresholdTracker,
    spikes: SpikeTracker,
) -> Seq<Notice> {
    match event {
        PollEvent::Updated(usage) => if_wanted(
            settings.notify_spike,
            spike_alarms(spikes, usage, now),
        ) + if_wanted(
            settings.notify_session,
            window_notices(
                tracker.levels(),
                tracker.session_reached(),
                usage@.five_hour,
                "Session"@,
            ),
        ) + if_wanted(
            settings.notify_weekly,
            window_notices(
                tracker.levels(),
                tracker.weekly_reached(),
                usage@.seven_day,
                "Weekly"@,
            ),
        ),
        PollEvent::AuthRequired => if before is AuthRequired {
            seq![]
        } else {
            seq![token_notice()]
        },
        PollEvent::Error(_) => seq![],
    }
}

/// `after` is `before` once a report of the time `now` is taken in.
pub open spec fn takes_sample(
    before: SpikeTracker,
    after: SpikeTracker,
    usage: UsageResponse,
    now: Timestamp,
) -> bool {
    &&& after.threshold_per_min == before.threshold_per_min
    &&& after.rearm_factor == before.rearm_factor
    &&& after.track_weekly == before.track_weekly
    &&& after.session@ == climbed_by(
        before.threshold_per_min@,
        before.rearm_factor@,
        before.session@,
        usage@.five_hour,
        now,
    )
    &&& after.weekly@ == climbed_by(
        before.threshold_per_min@,
        before.rearm_factor@,
        before.weekly@,
        followed(before.track_weekly, usage@.seven_day),
        now,
    )
}

/// Whether the icon carries the badge, given whether the user wants to be warned,
/// how fast is too fast, and how fast the session climbs.
pub open spec fn is_badged(wanted: bool, threshold: Value, rate: Value) -> bool {
    wanted && at_most(threshold, rate)
}

impl AppState {
    pub fn new(launch_at_login: bool) -> (r: AppState)
        ensures
            r.data is Loading,
            r.launch_at_login == launch_at_login,
            r.history is None,
    {
        AppState { data: DataState::Loading, launch_at_login, history: None }
    }

    /// Takes in what a poll has to tell at `now` and gives the messages for the
    /// user, as far as the settings ask for them.
    pub fn apply(
        &mut self,
        event: PollEvent,
        now: Timestamp,
        settings: &Settings,
        tracker: &mut ThresholdTracker,
        spikes: &mut SpikeTracker,
    ) -> (r: Vec<Notification>)
        ensures
            shows(event, now, final(self).data),
            final(self).launch_at_login == old(self).launch_at_login,
            final(self).history == old(self).history,
            notices(r@) == event_notices(
                event,
                now,
                old(self).data,
                *settings,
                *old(tracker),
                *old(spikes),
            ),
            match event {
                PollEvent::Updated(usage) => if settings.notify_spike {
                    takes_sample(*old(spikes), *final(spikes), usage, now)
                } else {
                    *final(spikes) == *old(spikes)
                },
                _ => *final(spikes) == *old(spikes),
            },
            match event {
                PollEvent::Updated(usage) => {
                    &&& takes_levels(*old(tracker), *final(tracker), usage@)
                    &&& final(tracker).levels() == old(tracker).levels()
                    &&& final(tracker).session_reached() == reached_after(
                        old(tracker).levels(),
                        old(tracker).session_reached(),
                        usage@.five_hour,
                    )
                    &&& final(tracker).weekly_reached() == reached_after(
                        old(tracker).levels(),
                        old(tracker).weekly_reached(),
                        usage@.seven_day,
                    )
                },
                _ => *final(tracker) == *old(tracker),
            },
    {
        match event {
            PollEvent::Updated(usage) => {
                let mut out: Vec<Notification> = Vec::new();
                if settings.notify_spike {
                    out = spikes.observe(&usage, now);
                }
                let mut levels = tracker.observe_wanted(
                    &usage,
                    settings.notify_session,
                    settings.notify_weekly,
                );
                let ghost first = out@;
                let ghost second = levels@;
                out.append(&mut levels);
                assert(notices(out@) =~= notices(first) + notices(second));
                assert(notices(first) =~= if_wanted(
                    settings.notify_spike,
                    spike_alarms(*old(spikes), usage, now),
                ));
                assert(notices(out@) =~= event_notices(
                    event,
                    now,
                    old(self).data,
                    *settings,
                    *old(tracker),
                    *old(spikes),
                ));
                self.data = DataState::Ready { usage, fetched_at: now };
                out
            },
            PollEvent::AuthRequired => {
                let mut out: Vec<Notification> = Vec::new();
                let known = matches!(self.data, DataState::AuthRequired);
                if !known {
                    let mut title = product_heading();
                    title.append(" Code token expired — run ");
                    push_login_command(&mut title);
                    out.push(Notification { title, body: String::new() });
                    assert(notices(out@) =~= seq![token_notice()]);
                } else {
                    assert(notices(out@) =~= seq![]);
                }
                self.data = DataState::AuthRequired;
                out
            },
            PollEvent::Error(msg) => {
                self.data = DataState::Error(msg);
                let out: Vec<Notification> = Vec::new();
                assert(notices(out@) =~= seq![]);
                out
            },
        }
    }

    /// Whether the icon carries the badge: the session climbs too fast, and the
    /// user wants to be warned of that.
    pub fn badge(settings: &Settings, spikes: &SpikeTracker) -> (r: bool)
        ensures
            r == (settings.notify_spike && at_most(
                spikes.threshold_per_min@,
                spikes.session@.last_rate,
            )),
            r == is_badged(
                settings.notify_spike,
                spikes.threshold_per_min@,
                spikes.session@.last_rate,
            ),
    {
        settings.notify_spike && spikes.session_spiking()
    }
}

/// What is shown after an event goes by the event alone: a report only when there
/// is one, with the time at which it came; that a token is missing only when it
/// is; and otherwise what went wrong.
pub proof fn the_last_event_is_shown(event: PollEvent, now: Timestamp, data: DataState)
    requires
        shows(event, now, data),
    ensures
        !(data is Loading),
        data is Ready <==> event is Updated,
        data is AuthRequired <==> event is AuthRequired,
        data is Error <==> event is Error,
        event matches PollEvent::Updated(told) ==> (data matches DataState::Ready { usage, fetched_at }
            && usage == told && fetched_at == now),
        event matches PollEvent::Error(why) ==> (data matches DataState::Error(msg) && msg == why),
{
}

/// That the token has expired is announced when it was not known before, and only
/// then. An error announces nothing.
pub proof fn an_expired_token_is_announced_once(
    why: String,
    now: Timestamp,
    before: DataState,
    settings: Settings,
    tracker: ThresholdTracker,
    spikes: SpikeTracker,
)
    ensures
        before is AuthRequired ==> event_notices(
            PollEvent::AuthRequired,
            now,
            before,
            settings,
            tracker,
            spikes,
        ).len() == 0,
        !(before is AuthRequired) ==> event_notices(
            PollEvent::AuthRequired,
            now,
            before,
            settings,
            tracker,
            spikes,
        ) == seq![token_notice()],
        event_notices(PollEvent::Error(why), now, before, settings, tracker, spikes).len() == 0,
{
}

/// Each kind of message comes where it is wanted, and none where it is not: alarms
/// first, then the levels of the session, then those of the week.
pub proof fn only_wanted_messages_come(
    usage: UsageResponse,
    now: Timestamp,
    before: DataState,
    settings: Settings,
    tracker: ThresholdTracker,
    spikes: SpikeTracker,
)
    ensures
        ({
            let all = event_notices(
                PollEvent::Updated(usage),
                now,
                before,
                settings,
                tracker,
                spikes,
            );
            let of_session = window_notices(
                tracker.levels(),
                tracker.session_reached(),
                usage@.five_hour,
                "Session"@,
            );
            let of_week = window_notices(
                tracker.levels(),
                tracker.weekly_reached(),
                usage@.seven_day,
                "Weekly"@,
            );
            let of_spikes = spike_alarms(spikes, usage, now);
            let (a, b, c) = (settings.notify_spike, settings.notify_session, settings.notify_weekly);
            &&& !a && !b && !c ==> all.len() == 0
            &&& a && !b && !c ==> all == of_spikes
            &&& !a && b && !c ==> all == of_session
            &&& !a && !b && c ==> all == of_week
            &&& a && b && c ==> all == of_spikes + of_session + of_week
            &&& a && b && !c ==> all == of_spikes + of_session
            &&& a && !b && c ==> all == of_spikes + of_week
            &&& !a && b && c ==> all == of_session + of_week
        }),
{
    let of_session = window_notices(
        tracker.levels(),
        tracker.session_reached(),
        usage@.five_hour,
        "Session"@,
    );
    let of_week = window_notices(
        tracker.levels(),
        tracker.weekly_reached(),
        usage@.seven_day,
        "Weekly"@,
    );
    let of_spikes = spike_alarms(spikes, usage, now);
    let none = Seq::<Notice>::empty();
    let all = event_notices(PollEvent::Updated(usage), now, before, settings, tracker, spikes);
    assert(all =~= if_wanted(settings.notify_spike, of_spikes) + if_wanted(
        settings.notify_session,
        of_session,
    ) + if_wanted(settings.notify_weekly, of_week));
    assert(none + none + none =~= none);
    assert(of_spikes + none + none =~= of_spikes);
    assert(none + of_session + none =~= of_session);
    assert(none + none + of_week =~= of_week);
    assert(of_spikes + of_session + none =~= of_spikes + of_session);
    assert(of_spikes + none + of_week =~= of_spikes + of_week);
    assert(none + of_session + of_week =~= of_session + of_week);
}

/// A report is a sample of the session, and of the week where that is followed,
/// each taken of its own quota at the time of the report; a quota that it says
/// nothing of stays as it was, and what the alarms go by is not changed.
pub proof fn each_quota_has_its_own_samples(
    before: SpikeTracker,
    after: SpikeTracker,
    usage: UsageResponse,
    now: Timestamp,
)
    requires
        takes_sample(before, after, usage, now),
    ensures
        after.threshold_per_min == before.threshold_per_min,
        after.rearm_factor == before.rearm_factor,
        after.track_weekly == before.track_weekly,
        usage.five_hour is None ==> after.session@ == before.session@,
        usage.seven_day is None || !before.track_weekly ==> after.weekly@ == before.weekly@,
        usage.five_hour matches Some(r) ==> (r.utilization@ is Fin ==> (
        after.session@.prev matches Some(s) && s.utilization == r.utilization@ && s.at == now
            && s.reset_at == r.resets_at)),
        usage.seven_day matches Some(r) ==> (before.track_weekly && r.utilization@ is Fin ==> (
        after.weekly@.prev matches Some(s) && s.utilization == r.utilization@ && s.at == now
            && s.reset_at == r.resets_at)),
{
}

/// The badge is shown only where it is wanted, exactly when the session climbs at
/// the threshold or faster; a faster climb never takes it away.
pub proof fn when_the_badge_is_shown(wanted: bool, threshold: Value, rate: Value, faster: Value)
    ensures
        !is_badged(false, threshold, rate),
        !(threshold is Nan) && !(rate is Nan) ==> (is_badged(true, threshold, rate) <==> !less(
            rate,
            threshold,
        )),
        is_badged(wanted, threshold, rate) && at_most(rate, faster) ==> is_badged(
            wanted,
            threshold,
            faster,
        ),
{
}

/// Each quota sets off its own alarm, by its own reading and what is known of it:
/// the session first, and the week only where it is followed.
pub proof fn alarms_go_by_their_quota(spikes: SpikeTracker, usage: UsageResponse, now: Timestamp)
    ensures
        ({
            let (t, f) = (spikes.threshold_per_min@, spikes.rearm_factor@);
            let on_session = usage.five_hour matches Some(r) && sets_off(
                t,
                f,
                spikes.session@,
                Sample { utilization: r.utilization@, at: now, reset_at: r.resets_at },
            );
            let on_week = spikes.track_weekly && (usage.seven_day matches Some(r) && sets_off(
                t,
                f,
                spikes.weekly@,
                Sample { utilization: r.utilization@, at: now, reset_at: r.resets_at },
            ));
            let all = spike_alarms(spikes, usage, now);
            &&& all.len() == (if on_session {
                1int
            } else {
                0
            }) + (if on_week {
                1int
            } else {
                0
            })
            &&& on_session ==> all[0].title == product_title() + " "@ + "session"@
                + " usage spiking"@
            &&& on_week ==> all.last().title == product_title() + " "@ + "weekly"@
                + " usage spiking"@
        }),
{
}

} // verus!
