use chrono::{DateTime, Datelike, NaiveDate, TimeZone, Utc};
use claude_o_meter::api::{Extra, UsageResponse, Window};
use claude_o_meter::app_state::{AppState, DataState};
use claude_o_meter::bars::{
    render_bar, render_bar_rgba, render_solid_bar_rgba, CANVAS_H, CANVAS_W,
};
use claude_o_meter::clock::Timestamp;
use claude_o_meter::double::Double;
use claude_o_meter::history::Aggregates;
use claude_o_meter::icons::Band;
use claude_o_meter::menu::{
    bands_for, build_menu, build_rows, burn_rate_line, humanize_hours, humanize_tokens, monthly_line,
    pad_left_figure, status_items, title_for, Action, Item, Row, Submenu, COLOR_OUTPUT,
};
use claude_o_meter::table::Table;
use claude_o_meter::theme::Appearance;
use claude_o_meter::time_fmt::{humanize, resets_in};
use claude_o_meter::transcript::{ProjectTotals, Totals};
use std::time::Duration;

fn d(x: f64) -> Double {
    Double::from_bits(x.to_bits())
}

fn f(x: Double) -> f64 {
    f64::from_bits(x.bits)
}

/// The name of the product: the first word of the package's name.
fn product() -> &'static str {
    "claude_o_meter".split('_').next().unwrap()
}

fn stamp(t: DateTime<Utc>) -> Timestamp {
    Timestamp::new(t.timestamp(), t.timestamp_subsec_nanos()).unwrap()
}

fn ts(year: i32, month: u32, day: u32, hour: u32) -> Timestamp {
    stamp(Utc.with_ymd_and_hms(year, month, day, hour, 0, 0).unwrap())
}

fn hours_before(hours: i64) -> Timestamp {
    stamp(Utc.with_ymd_and_hms(2026, 5, 26, 12, 0, 0).unwrap() - chrono::Duration::hours(hours))
}

fn usage(session: Option<f64>, weekly: Option<f64>) -> UsageResponse {
    let r = ts(2026, 5, 19, 17);
    UsageResponse {
        five_hour: session.map(|u| Window { utilization: d(u), resets_at: Some(r) }),
        seven_day: weekly.map(|u| Window { utilization: d(u), resets_at: Some(r) }),
        extra: Table::new(),
    }
}

fn ready(u: UsageResponse) -> AppState {
    let mut s = AppState::new(false);
    s.data = DataState::Ready { usage: u, fetched_at: ts(2026, 5, 19, 12) };
    s
}

#[test]
fn title_loading() {
    let s = AppState::new(false);
    assert_eq!(title_for(&s), "…");
}

#[test]
fn title_auth_required() {
    let mut s = AppState::new(false);
    s.data = DataState::AuthRequired;
    assert_eq!(title_for(&s), "?");
}

#[test]
fn title_error() {
    let mut s = AppState::new(false);
    s.data = DataState::Error("x".to_string());
    assert_eq!(title_for(&s), "!");
    assert_eq!(bands_for(&s), (Band::Red, Band::Red));
}

#[test]
fn title_ok_takes_max() {
    let s = ready(usage(Some(0.30), Some(0.74)));
    assert_eq!(title_for(&s), " 74%");
}

#[test]
fn bands_ok_match_fractions() {
    let s = ready(usage(Some(0.95), Some(0.20)));
    assert_eq!(bands_for(&s), (Band::Red, Band::Blue));
}

#[test]
fn bands_loading_is_blue() {
    let s = AppState::new(false);
    assert_eq!(bands_for(&s), (Band::Blue, Band::Blue));
}

#[test]
fn bands_auth_required_is_red() {
    let mut s = AppState::new(false);
    s.data = DataState::AuthRequired;
    assert_eq!(bands_for(&s), (Band::Red, Band::Red));
}

#[test]
fn bands_missing_window_falls_back_to_zero() {
    let s = ready(usage(Some(0.80), None));
    assert_eq!(bands_for(&s), (Band::Orange, Band::Blue));
}

#[test]
fn pad_left_figure_fills_with_figure_space() {
    let s = pad_left_figure("47", 5);
    assert_eq!(s.chars().count(), 5);
    assert_eq!(s.chars().filter(|c| *c == '\u{2007}').count(), 3);
    assert!(s.ends_with("47"));
}

#[test]
fn pad_left_figure_leaves_overlong_alone() {
    assert_eq!(pad_left_figure("123456", 4), "123456");
}

#[test]
fn humanize_tokens_scales() {
    assert_eq!(humanize_tokens(42), "42");
    assert_eq!(humanize_tokens(1500), "2K");
    assert_eq!(humanize_tokens(1_200_000), "1.2M");
    assert_eq!(humanize_tokens(2_500_000_000), "2.5B");
}

#[test]
fn humanize_tokens_rounds_as_std_does() {
    for n in [
        0u64, 999, 1000, 1499, 2500, 3500, 999_499, 999_500, 999_999, 1_000_000, 1_050_000, 1_150_000,
        1_250_000, 999_949_999, 999_950_000, 1_000_000_000, 123_456_789_012, u64::MAX,
    ] {
        let expected = if n >= 1_000_000_000 {
            format!("{:.1}B", n as f64 / 1_000_000_000.0)
        } else if n >= 1_000_000 {
            format!("{:.1}M", n as f64 / 1_000_000.0)
        } else if n >= 1_000 {
            format!("{:.0}K", n as f64 / 1_000.0)
        } else {
            n.to_string()
        };
        assert_eq!(humanize_tokens(n), expected, "{n}");
    }
}

#[test]
fn burn_rate_none_when_window_too_fresh() {
    let resets = ts(2026, 5, 26, 12);
    assert_eq!(burn_rate_line(d(0.5), Some(resets), hours_before(167)), None);
}

#[test]
fn burn_rate_none_when_utilization_too_low() {
    let resets = ts(2026, 5, 26, 12);
    assert_eq!(burn_rate_line(d(0.01), Some(resets), hours_before(100)), None);
}

#[test]
fn burn_rate_on_track_when_pace_slow() {
    let resets = ts(2026, 5, 26, 12);
    let line = burn_rate_line(d(0.30), Some(resets), hours_before(84)).unwrap();
    assert!(line.contains("on track"), "got: {line}");
    assert_eq!(line, "Pace: on track to reset under cap");
}

#[test]
fn burn_rate_warns_when_pace_will_exceed_cap() {
    let resets = ts(2026, 5, 26, 12);
    let line = burn_rate_line(d(0.50), Some(resets), hours_before(144)).unwrap();
    assert!(line.contains("cap in"), "got: {line}");
    assert_eq!(line, "Pace: cap in 1d");
}

#[test]
fn burn_rate_says_nothing_without_a_reset_time() {
    assert_eq!(burn_rate_line(d(1.0), None, ts(2026, 5, 26, 12)), None);
    assert_eq!(burn_rate_line(d(0.5), None, ts(2026, 5, 26, 12)), None);
    assert_eq!(burn_rate_line(d(f64::NAN), Some(ts(2026, 5, 26, 12)), hours_before(50)), None);
}

#[test]
fn burn_rate_at_cap() {
    let resets = ts(2026, 5, 26, 12);
    assert_eq!(
        burn_rate_line(d(1.0), Some(resets), hours_before(50)),
        Some("Pace: at cap".to_string())
    );
}

#[test]
fn burn_rate_nan_yields_none() {
    let resets = ts(2026, 5, 26, 12);
    assert_eq!(burn_rate_line(d(f64::NAN), Some(resets), hours_before(50)), None);
}

#[test]
fn burn_rate_none_when_resets_at_missing() {
    assert_eq!(burn_rate_line(d(0.5), None, ts(2026, 5, 26, 12)), None);
}

#[test]
fn humanize_hours_formats_buckets() {
    assert_eq!(humanize_hours(d(0.25)), "15m");
    assert_eq!(humanize_hours(d(3.4)), "3h");
    assert_eq!(humanize_hours(d(48.0)), "2d");
    assert_eq!(humanize_hours(d(50.0)), "2d 2h");
}

#[test]
fn humanize_hours_edge_cases() {
    assert_eq!(humanize_hours(d(0.0)), "1m");
    assert_eq!(humanize_hours(d(-3.0)), "1m");
    assert_eq!(humanize_hours(d(0.999)), "60m");
    assert_eq!(humanize_hours(d(23.9)), "24h");
    assert_eq!(humanize_hours(d(47.9)), "1d 24h");
    assert_eq!(humanize_hours(d(f64::NAN)), "0d");
}

#[test]
fn empty_zero() {
    assert_eq!(render_bar(d(0.0), 5), "░░░░░");
}

#[test]
fn full_one() {
    assert_eq!(render_bar(d(1.0), 5), "🟧🟧🟧🟧🟧");
}

#[test]
fn half() {
    assert_eq!(render_bar(d(0.5), 4), "🟧🟧░░");
}

#[test]
fn rounds_up() {
    assert_eq!(render_bar(d(0.51), 4), "🟧🟧░░");
    assert_eq!(render_bar(d(0.6), 5), "🟧🟧🟧░░");
}

#[test]
fn clamps_over_one() {
    assert_eq!(render_bar(d(1.7), 5), "🟧🟧🟧🟧🟧");
}

#[test]
fn clamps_negative() {
    assert_eq!(render_bar(d(-0.3), 5), "░░░░░");
}

#[test]
fn a_bar_of_nothing_and_of_nan() {
    assert_eq!(render_bar(d(0.5), 0), "");
    assert_eq!(render_bar(d(f64::NAN), 3), "░░░");
    assert_eq!(render_bar(d(f64::INFINITY), 3), "🟧🟧🟧");
}

#[test]
fn light_bg_is_lighter_than_dark_bg() {
    let l = Appearance::Light.theme().empty_bg;
    let k = Appearance::Dark.theme().empty_bg;
    let l_sum = l[0] as u32 + l[1] as u32 + l[2] as u32;
    let d_sum = k[0] as u32 + k[1] as u32 + k[2] as u32;
    assert!(l_sum > d_sum);
}

#[test]
fn appearance_goes_by_the_best_match() {
    assert_eq!(Appearance::detect(None), Appearance::Light);
    assert_eq!(Appearance::detect(Some("NSAppearanceNameAqua")), Appearance::Light);
    assert_eq!(Appearance::detect(Some("NSAppearanceNameDarkAqua")), Appearance::Dark);
}

#[test]
fn hours_and_minutes() {
    assert_eq!(humanize(Duration::from_secs(2 * 3600 + 14 * 60).as_secs()), "2h 14m");
}

#[test]
fn minutes_only() {
    assert_eq!(humanize(Duration::from_secs(47 * 60).as_secs()), "47m");
}

#[test]
fn seconds_only() {
    assert_eq!(humanize(Duration::from_secs(12).as_secs()), "12s");
}

#[test]
fn zero_is_now() {
    assert_eq!(humanize(Duration::from_secs(0).as_secs()), "now");
}

#[test]
fn minutes_are_padded_after_hours() {
    assert_eq!(humanize(3600), "1h 00m");
    assert_eq!(humanize(3600 * 100 + 61), "100h 01m");
    assert_eq!(humanize(119), "1m");
}

#[test]
fn resets_in_future() {
    let now = stamp(Utc.with_ymd_and_hms(2026, 5, 19, 12, 0, 0).unwrap());
    let target = stamp(Utc.with_ymd_and_hms(2026, 5, 19, 14, 14, 0).unwrap());
    assert_eq!(resets_in(target, now), "resets in 2h 14m");
}

#[test]
fn resets_in_past() {
    let now = stamp(Utc.with_ymd_and_hms(2026, 5, 19, 12, 0, 0).unwrap());
    let target = stamp(Utc.with_ymd_and_hms(2026, 5, 19, 11, 0, 0).unwrap());
    assert_eq!(resets_in(target, now), "resets soon");
    assert_eq!(resets_in(now, now), "resets soon");
}

fn text(i: &Item) -> String {
    match i {
        Item::Text(s) => s.clone(),
        Item::Separator => "-".to_string(),
        Item::Solid { label, .. } => label.clone(),
        Item::Stacked { label, .. } => label.clone(),
    }
}

#[test]
fn status_lines_without_a_report() {
    let now = ts(2026, 5, 19, 12);
    let lines = |data: DataState| -> Vec<String> {
        status_items(&data, now, "").iter().map(text).collect()
    };
    assert_eq!(lines(DataState::Loading), vec!["Loading…"]);
    assert_eq!(lines(DataState::AuthRequired), vec![format!("Token expired — run `{} login`", product())]);
    assert_eq!(lines(DataState::Error("boom".to_string())), vec!["Error: boom"]);
}

#[test]
fn status_lines_of_a_report() {
    let now = ts(2026, 5, 19, 12);
    let mut u = usage(Some(0.255), Some(1.0));
    u.seven_day = Some(Window { utilization: d(1.0), resets_at: None });
    u.extra.insert(
        "seven_day_sonnet".to_string(),
        Extra::Object { utilization: Some(d(0.04)), resets_at: Some(None) },
    );
    let items = status_items(&ready(u).data, now, "14:00:00");
    let lines: Vec<String> = items.iter().map(text).collect();
    assert_eq!(
        lines,
        vec![
            "Session  26%  resets in 5h 00m",
            "Weekly  100%",
            "Sonnet  4%",
            "-",
            "Updated 14:00:00",
        ]
    );
    match &items[0] {
        Item::Solid { fraction, color, .. } => {
            assert_eq!(f(*fraction), 0.255);
            assert_eq!(*color, Band::Green.rgb());
        }
        other => panic!("{other:?}"),
    }
}

fn day(y: i32, m: u32, n: u32) -> i32 {
    NaiveDate::from_ymd_opt(y, m, n).unwrap().num_days_from_ce()
}

/// What a row of the menu says.
fn label(row: &Row) -> String {
    match row {
        Row::Plain(item) => text(item),
        Row::Part(part) => part.label.clone(),
        Row::Button { label, .. } => label.clone(),
        Row::Switch { label, .. } => label.clone(),
    }
}

#[test]
fn rows_of_the_menu_from_the_top() {
    let mut s = AppState::new(true);
    s.data = DataState::AuthRequired;
    s.history = Some(Aggregates::default());
    let rows = build_rows(&s, ts(2026, 5, 19, 13), day(2026, 5, 19), "");
    let token = format!("Token expired — run `{} login`", product());
    let name = format!("{}{}", product()[..1].to_uppercase(), &product()[1..]);
    let quit = format!("Quit {name}-O-Meter");
    assert_eq!(
        rows.iter().map(|r| (label(r), r.enabled())).collect::<Vec<_>>(),
        [
            (token.as_str(), false),
            ("-", false),
            ("History — last 7d: 0", true),
            ("Top projects (7d)", true),
            ("Top projects (all-time)", true),
            ("-", false),
            ("Refresh now", true),
            ("Purge removed sessions", false),
            ("Launch at Login", true),
            ("-", false),
            (quit.as_str(), true),
        ]
        .map(|(l, e)| (l.to_string(), e))
        .to_vec()
    );
    assert!(matches!(&rows[6], Row::Button { action: Action::Refresh, .. }));
    assert!(matches!(&rows[7], Row::Button { action: Action::Purge, .. }));
    assert!(matches!(&rows[8], Row::Switch { action: Action::LaunchAtLogin, on: true, .. }));
    assert!(matches!(&rows[10], Row::Button { action: Action::Quit, .. }));
}

#[test]
fn menu_without_a_history() {
    let s = AppState::new(false);
    let rows = build_menu(&s, ts(2026, 5, 19, 13), day(2026, 5, 19));
    assert_eq!(rows.iter().map(label).collect::<Vec<_>>()[..3], ["Loading…", "-", "Refresh now"]);
    assert_eq!(rows.len(), 7);
    assert!(matches!(&rows[4], Row::Switch { on: false, .. }));
}

#[test]
fn menu_shows_the_history() {
    let today = day(2026, 5, 19);
    let mut h = Aggregates::default();
    h.by_day.insert(today, Totals { input: 1_500, output: 0, cache_creation: 0, cache_read: 0 });
    h.by_day.insert(today - 2, Totals { input: 0, output: 500, cache_creation: 0, cache_read: 0 });
    h.by_project.insert("/a/p".to_string(), ProjectTotals { total: 4_000, last_used: None });
    h.by_project.insert("/b/p".to_string(), ProjectTotals { total: 1_000, last_used: None });
    assert_eq!(monthly_line(&h, today), Some("Month: 2K (proj 3K)".to_string()));
    assert_eq!(monthly_line(&h, day(2026, 6, 1)), None);
    let mut s = ready(usage(Some(0.1), None));
    s.launch_at_login = true;
    s.history = Some(h);
    let rows = build_menu(&s, ts(2026, 5, 19, 13), today);
    let mut parts: Vec<&Submenu> = Vec::new();
    for row in &rows {
        if let Row::Part(part) = row {
            parts.push(part);
        }
    }
    assert_eq!(parts.len(), 3);
    let (week, recent, all_time) = (parts[0], parts[1], parts[2]);
    let lines: Vec<String> = rows.iter().map(label).collect();
    assert_eq!(lines[lines.len() - 7], "Top projects (all-time)");
    assert!(lines.contains(&"Month: 2K (proj 3K)".to_string()));
    assert_eq!(week.label, "History — last 7d: 2K");
    let shown: Vec<String> = week.items.iter().map(text).collect();
    assert_eq!(shown.len(), 9);
    assert_eq!(shown[0], "input · output · cache write · cache read");
    assert_eq!(shown[1], "-");
    assert_eq!(shown[2], "\u{2007}\u{2007}\u{2007}\u{2007}2K  Tue 05-19");
    assert_eq!(shown[3], "\u{2007}\u{2007}\u{2007}\u{2007}\u{2007}0  Mon 05-18");
    assert_eq!(shown[4], "\u{2007}\u{2007}\u{2007}500  Sun 05-17");
    match &week.items[4] {
        Item::Stacked { totals, basis, .. } => {
            assert_eq!(totals.output, 500);
            assert_eq!(*basis, 1_500);
        }
        other => panic!("{other:?}"),
    }
    assert_eq!(recent.label, "Top projects (7d)");
    assert_eq!(recent.items.iter().map(text).collect::<Vec<_>>(), vec!["(no data)"]);
    let top: Vec<String> = all_time.items.iter().map(text).collect();
    assert_eq!(
        top,
        vec![
            "\u{2007}\u{2007}\u{2007}\u{2007}4K  a/p",
            "\u{2007}\u{2007}\u{2007}\u{2007}1K  b/p",
        ]
    );
    match &all_time.items[1] {
        Item::Solid { fraction, color, .. } => {
            assert_eq!(f(*fraction), 0.25);
            assert_eq!(*color, COLOR_OUTPUT);
        }
        other => panic!("{other:?}"),
    }
    let last = &lines[2];
    let local = Utc.with_ymd_and_hms(2026, 5, 19, 12, 0, 0).unwrap().with_timezone(&chrono::Local);
    assert_eq!(*last, format!("Updated {}", local.format("%H:%M:%S")));
}

#[test]
fn weekdays_are_named_as_in_the_calendar() {
    let mut h = Aggregates::default();
    h.by_day.insert(0, Totals::default());
    for today in [day(2024, 2, 29), day(2000, 1, 1), day(1999, 12, 31), day(-44, 3, 15), day(2100, 3, 1)] {
        let mut s = AppState::new(false);
        s.history = Some(h.clone());
        let rows = build_menu(&s, ts(2026, 5, 19, 13), today);
        let row = match &rows[2] {
            Row::Part(week) => text(&week.items[2]),
            other => panic!("{other:?}"),
        };
        let date = NaiveDate::from_num_days_from_ce_opt(today).unwrap();
        assert!(row.ends_with(&date.format("  %a %m-%d").to_string()), "{row}");
    }
}

#[test]
fn larger_fractions_fill_no_fewer_cells() {
    let mut before = 0;
    for i in -20..=120 {
        let filled = render_bar(d(f64::from(i) / 100.0), 10).chars().filter(|c| *c != '░').count();
        assert!(before <= filled, "{i}");
        before = filled;
    }
    assert_eq!(before, 10);
}

/// The colours of a row of a picture, each with the number of pixels it has.
fn runs(rgba: &[u8]) -> Vec<([u8; 4], usize)> {
    assert_eq!(rgba.len(), (4 * CANVAS_W * CANVAS_H) as usize);
    let row = &rgba[..4 * CANVAS_W as usize];
    for y in 0..CANVAS_H as usize {
        assert_eq!(&rgba[y * row.len()..(y + 1) * row.len()], row);
    }
    let mut out: Vec<([u8; 4], usize)> = Vec::new();
    for p in row.chunks(4) {
        let p = [p[0], p[1], p[2], p[3]];
        match out.last_mut() {
            Some((color, n)) if *color == p => *n += 1,
            _ => out.push((p, 1)),
        }
    }
    out
}

#[test]
fn bars_are_drawn_in_their_colours() {
    let theme = Appearance::Dark.theme();
    let empty = theme.empty_bg;
    let half = runs(&render_solid_bar_rgba(d(0.5), [1, 2, 3], &theme));
    assert_eq!(half, vec![([1, 2, 3, 255], 60), (empty, 60)]);
    assert_eq!(runs(&render_solid_bar_rgba(d(0.0), [1, 2, 3], &theme)), vec![(empty, 120)]);
    assert_eq!(runs(&render_solid_bar_rgba(d(7.0), [1, 2, 3], &theme)), vec![([1, 2, 3, 255], 120)]);
    let segments = [(10, [1, 0, 0]), (0, [2, 0, 0]), (20, [3, 0, 0]), (10, [4, 0, 0])];
    assert_eq!(
        runs(&render_bar_rgba(&segments, 80, &theme)),
        vec![([1, 0, 0, 255], 15), ([3, 0, 0, 255], 30), ([4, 0, 0, 255], 15), (empty, 60)]
    );
}
