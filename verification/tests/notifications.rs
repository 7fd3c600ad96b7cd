use chrono::{DateTime, TimeZone, Utc};
use claude_o_meter::api::{UsageResponse, Window};
use claude_o_meter::app_state::{AppState, DataState};
use claude_o_meter::clock::Timestamp;
use claude_o_meter::double::Double;
use claude_o_meter::notifications::{check_spike, SpikeTracker, SpikeWindow, ThresholdTracker};
use claude_o_meter::poller::PollEvent;
use claude_o_meter::settings::Settings;
use claude_o_meter::table::Table;

fn d(x: f64) -> Double {
    Double::from_bits(x.to_bits())
}

/// The name of the product: the first word of the package's name.
fn product() -> &'static str {
    "claude_o_meter".split('_').next().unwrap()
}

fn title() -> String {
    let name = product();
    format!("{}{}", name[..1].to_uppercase(), &name[1..])
}

fn stamp(t: DateTime<Utc>) -> Timestamp {
    Timestamp::new(t.timestamp(), t.timestamp_subsec_nanos()).unwrap()
}

fn hms(h: u32) -> Timestamp {
    stamp(Utc.with_ymd_and_hms(2026, 5, 19, h, 0, 0).unwrap())
}

fn resp(session: Option<f64>, weekly: Option<f64>, reset: Timestamp) -> UsageResponse {
    UsageResponse {
        five_hour: session.map(|u| Window { utilization: d(u), resets_at: Some(reset) }),
        seven_day: weekly.map(|u| Window { utilization: d(u), resets_at: Some(reset) }),
        extra: Table::new(),
    }
}

#[test]
fn fires_each_threshold_once_per_window() {
    let mut t = ThresholdTracker::default();
    let r = hms(17);

    assert_eq!(t.observe(&resp(Some(0.50), None, r)).len(), 0);
    let n1 = t.observe(&resp(Some(0.76), None, r));
    assert_eq!(n1.len(), 1);
    assert!(n1[0].title.contains("75"));
    assert_eq!(n1[0].title, format!("{} Session quota at 75%", title()));
    assert_eq!(n1[0].body, "Current usage: 76%");

    let n2 = t.observe(&resp(Some(0.80), None, r));
    assert_eq!(n2.len(), 0);

    let n3 = t.observe(&resp(Some(0.91), None, r));
    assert_eq!(n3.len(), 1);
    assert!(n3[0].title.contains("90"));

    let n4 = t.observe(&resp(Some(0.97), None, r));
    assert_eq!(n4.len(), 1);
    assert!(n4[0].title.contains("95"));
}

#[test]
fn rearms_after_reset() {
    let mut t = ThresholdTracker::default();
    let _ = t.observe(&resp(Some(0.99), None, hms(17)));
    let n = t.observe(&resp(Some(0.99), None, hms(22)));
    assert_eq!(n.len(), 3, "all three thresholds should re-arm at new window");
}

#[test]
fn jump_past_multiple_thresholds() {
    let mut t = ThresholdTracker::default();
    let n = t.observe(&resp(Some(0.99), None, hms(17)));
    assert_eq!(n.len(), 3);
}

#[test]
fn session_and_weekly_tracked_independently() {
    let mut t = ThresholdTracker::default();
    let n = t.observe(&resp(Some(0.80), Some(0.80), hms(17)));
    assert_eq!(n.len(), 2);
    let session_titles: Vec<_> = n.iter().filter(|x| x.title.contains("Session")).collect();
    let weekly_titles: Vec<_> = n.iter().filter(|x| x.title.contains("Weekly")).collect();
    assert_eq!(session_titles.len(), 1);
    assert_eq!(weekly_titles.len(), 1);
}

#[test]
fn empty_thresholds_never_fires() {
    let mut t = ThresholdTracker::new(Vec::new());
    assert_eq!(t.observe(&resp(Some(0.99), Some(0.99), hms(17))).len(), 0);
}

#[test]
fn unsorted_thresholds_each_fire_once() {
    let mut t = ThresholdTracker::new(vec![d(0.95), d(0.75), d(0.90)]);
    let n = t.observe(&resp(Some(0.99), None, hms(17)));
    assert_eq!(n.len(), 3);
    assert_eq!(t.observe(&resp(Some(1.0), None, hms(17))).len(), 0);
}

#[test]
fn nan_utilization_never_fires() {
    let mut t = ThresholdTracker::default();
    assert_eq!(t.observe(&resp(Some(f64::NAN), None, hms(17))).len(), 0);
}

#[test]
fn exact_threshold_value_fires() {
    let mut t = ThresholdTracker::default();
    let n = t.observe(&resp(Some(0.75), None, hms(17)));
    assert_eq!(n.len(), 1);
    assert!(n[0].title.contains("75"));
}

#[test]
fn a_clone_goes_its_own_way() {
    let mut t = ThresholdTracker::default();
    let mut u = t.clone();
    assert_eq!(t.observe(&resp(Some(0.99), None, hms(17))).len(), 3);
    assert_eq!(u.observe(&resp(Some(0.80), None, hms(17))).len(), 1);
}

const SPIKE_T: f64 = 0.02;

fn ts(minute: i64) -> Timestamp {
    stamp(Utc.with_ymd_and_hms(2026, 5, 19, 12, 0, 0).unwrap() + chrono::Duration::minutes(minute))
}

fn sresp(util: f64, reset: Timestamp) -> UsageResponse {
    resp(Some(util), None, reset)
}

#[test]
fn spike_first_sample_never_fires() {
    let mut s = SpikeTracker::new(d(SPIKE_T), false);
    assert_eq!(s.observe(&sresp(0.10, ts(300)), ts(0)).len(), 0);
    assert!(!s.session_spiking());
}

#[test]
fn spike_rate_below_threshold_no_fire() {
    let mut s = SpikeTracker::new(d(SPIKE_T), false);
    let r = ts(300);
    let _ = s.observe(&sresp(0.10, r), ts(0));
    let n = s.observe(&sresp(0.11, r), ts(7));
    assert_eq!(n.len(), 0);
    assert!(!s.session_spiking());
}

#[test]
fn spike_rate_above_threshold_fires_once() {
    let mut s = SpikeTracker::new(d(SPIKE_T), false);
    let r = ts(300);
    let _ = s.observe(&sresp(0.10, r), ts(0));
    let n = s.observe(&sresp(0.30, r), ts(7));
    assert_eq!(n.len(), 1);
    assert!(n[0].body.contains("/min"));
    assert_eq!(n[0].title, format!("{} session usage spiking", title()));
    let rate = (0.30_f64 - 0.10) / 7.0 * 100.0;
    assert_eq!(n[0].body, format!("+{rate:.1}%/min — possible runaway"));
    assert!(s.session_spiking());
}

#[test]
fn spike_cooldown_prevents_spam() {
    let mut s = SpikeTracker::new(d(SPIKE_T), false);
    let r = ts(300);
    let _ = s.observe(&sresp(0.10, r), ts(0));
    assert_eq!(s.observe(&sresp(0.30, r), ts(7)).len(), 1);
    assert_eq!(s.observe(&sresp(0.55, r), ts(14)).len(), 0);
    assert_eq!(s.observe(&sresp(0.80, r), ts(21)).len(), 0);
    assert!(s.session_spiking(), "badge stays lit while still climbing");
}

#[test]
fn spike_rearms_after_rate_falls() {
    let mut s = SpikeTracker::new(d(SPIKE_T), false);
    let r = ts(300);
    let _ = s.observe(&sresp(0.10, r), ts(0));
    assert_eq!(s.observe(&sresp(0.30, r), ts(7)).len(), 1);
    assert_eq!(s.observe(&sresp(0.301, r), ts(14)).len(), 0);
    assert!(!s.session_spiking());
    assert_eq!(s.observe(&sresp(0.50, r), ts(21)).len(), 1);
}

#[test]
fn spike_reset_rearms_baseline() {
    let mut s = SpikeTracker::new(d(SPIKE_T), false);
    let r1 = ts(300);
    let r2 = ts(600);
    let _ = s.observe(&sresp(0.10, r1), ts(0));
    assert_eq!(s.observe(&sresp(0.30, r1), ts(7)).len(), 1);
    let n = s.observe(&sresp(0.0, r2), ts(14));
    assert_eq!(n.len(), 0);
    assert!(!s.session_spiking());
    assert_eq!(s.observe(&sresp(0.25, r2), ts(21)).len(), 1);
}

#[test]
fn spike_decrease_never_fires() {
    let mut s = SpikeTracker::new(d(SPIKE_T), false);
    let r = ts(300);
    let _ = s.observe(&sresp(0.50, r), ts(0));
    let n = s.observe(&sresp(0.20, r), ts(7));
    assert_eq!(n.len(), 0);
    assert_eq!(f64::from_bits(s.session.last_rate.bits), 0.0);
    assert!(!s.session_spiking());
}

#[test]
fn spike_nan_never_fires_and_is_not_a_baseline() {
    let mut s = SpikeTracker::new(d(SPIKE_T), false);
    let r = ts(300);
    assert_eq!(s.observe(&sresp(f64::NAN, r), ts(0)).len(), 0);
    assert_eq!(s.observe(&sresp(0.10, r), ts(7)).len(), 0);
    assert_eq!(s.observe(&sresp(0.40, r), ts(14)).len(), 1);
}

#[test]
fn spike_zero_or_negative_dt_no_fire() {
    let mut s = SpikeTracker::new(d(SPIKE_T), false);
    let r = ts(300);
    let _ = s.observe(&sresp(0.10, r), ts(0));
    let n = s.observe(&sresp(0.90, r), ts(0));
    assert_eq!(n.len(), 0);
    assert!(f64::from_bits(s.session.last_rate.bits).is_finite());
}

fn week(w: f64, r: Timestamp) -> UsageResponse {
    UsageResponse {
        five_hour: None,
        seven_day: Some(Window { utilization: d(w), resets_at: Some(r) }),
        extra: Table::new(),
    }
}

#[test]
fn spike_weekly_ignored_when_track_weekly_false() {
    let mut s = SpikeTracker::new(d(SPIKE_T), false);
    let r = ts(300);
    let _ = s.observe(&week(0.10, r), ts(0));
    assert_eq!(s.observe(&week(0.40, r), ts(7)).len(), 0);
}

#[test]
fn spike_weekly_fires_when_enabled() {
    let mut s = SpikeTracker::new(d(SPIKE_T), true);
    let r = ts(300);
    let _ = s.observe(&week(0.10, r), ts(0));
    let n = s.observe(&week(0.40, r), ts(7));
    assert_eq!(n.len(), 1);
    assert!(n[0].title.contains("weekly"));
}

#[test]
fn an_expired_token_is_announced_once() {
    let mut state = AppState::new(false);
    let settings = Settings::default();
    let mut tracker = ThresholdTracker::default();
    let mut spikes = SpikeTracker::new(d(SPIKE_T), false);
    let mut apply = |state: &mut AppState, event: PollEvent, now: Timestamp| {
        state.apply(event, now, &settings, &mut tracker, &mut spikes)
    };
    let first = apply(&mut state, PollEvent::AuthRequired, hms(1));
    assert_eq!(first.len(), 1);
    assert_eq!(
        first[0].title,
        format!("{} Code token expired — run `{} login`", title(), product())
    );
    assert!(matches!(state.data, DataState::AuthRequired));
    assert!(apply(&mut state, PollEvent::AuthRequired, hms(2)).is_empty());
    assert!(apply(&mut state, PollEvent::Error("x".to_string()), hms(3)).is_empty());
    assert!(matches!(&state.data, DataState::Error(m) if m == "x"));
    let n = apply(&mut state, PollEvent::Updated(resp(Some(0.8), None, hms(17))), hms(4));
    assert_eq!(n.len(), 1);
    match &state.data {
        DataState::Ready { fetched_at, .. } => assert_eq!(*fetched_at, hms(4)),
        other => panic!("{other:?}"),
    }
    assert_eq!(apply(&mut state, PollEvent::AuthRequired, hms(5)).len(), 1);
}

#[test]
fn only_wanted_messages_are_given() {
    let told = |settings: &Settings| -> Vec<String> {
        let mut state = AppState::new(false);
        let mut tracker = ThresholdTracker::default();
        let mut spikes = SpikeTracker::new(d(SPIKE_T), false);
        let mut out = Vec::new();
        for (u, at) in [(0.10, ts(0)), (0.80, ts(7))] {
            let event = PollEvent::Updated(resp(Some(u), Some(u), ts(300)));
            out.extend(state.apply(event, at, settings, &mut tracker, &mut spikes));
        }
        assert_eq!(AppState::badge(settings, &spikes), settings.notify_spike);
        out.into_iter().map(|n| n.title.replacen(&format!("{} ", title()), "", 1)).collect()
    };
    let mut settings = Settings::default();
    assert_eq!(
        told(&settings),
        vec!["session usage spiking", "Session quota at 75%", "Weekly quota at 75%"]
    );
    settings.notify_session = false;
    assert_eq!(told(&settings), vec!["session usage spiking", "Weekly quota at 75%"]);
    settings.notify_weekly = false;
    assert_eq!(told(&settings), vec!["session usage spiking"]);
    settings.notify_spike = false;
    settings.notify_weekly = true;
    assert_eq!(told(&settings), vec!["Weekly quota at 75%"]);
}

#[test]
fn a_level_is_announced_once_in_each_window() {
    let mut t = ThresholdTracker::new(vec![d(0.5)]);
    let mut told = Vec::new();
    for (u, reset) in [(0.6, 5), (0.7, 5), (0.4, 5), (0.6, 5), (0.6, 10), (0.2, 10), (0.9, 5), (0.6, 5)] {
        told.push(t.observe(&resp(Some(u), None, hms(reset))).len());
    }
    assert_eq!(told, vec![1, 0, 0, 0, 1, 0, 1, 0]);
}

#[test]
fn alarms_follow_the_climbs() {
    let mut s = SpikeTracker::new(d(0.02), false);
    let mut told = Vec::new();
    let mut lit = Vec::new();
    for (minute, u) in
        [(0, 0.10), (1, 0.13), (2, 0.16), (3, 0.175), (4, 0.20), (5, 0.205), (6, 0.25), (7, 0.25), (8, 0.30)]
    {
        told.push(s.observe(&resp(Some(u), None, ts(300)), ts(minute)).len());
        lit.push(s.session_spiking());
    }
    assert_eq!(told, vec![0, 1, 0, 0, 0, 0, 1, 0, 1]);
    assert_eq!(lit, vec![false, true, true, false, true, false, true, false, true]);
}

#[test]
fn a_single_window_is_checked() {
    let mut out = Vec::new();
    let mut w = SpikeWindow::new();
    for (minute, u, n) in [(0, 0.10, 0), (1, 0.13, 1), (2, 0.16, 1), (3, 0.16, 1), (4, 0.19, 2)] {
        let reading = Window { utilization: d(u), resets_at: Some(ts(300)) };
        w = check_spike(d(0.02), d(0.5), w, reading, ts(minute), "session", &mut out);
        assert_eq!(out.len(), n);
    }
    assert!(w.prev.is_some() && !w.armed);
}
