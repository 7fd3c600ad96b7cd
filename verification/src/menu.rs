//! What the menu shows.

use crate::api::{by_label, headline, models, models_of, reading_of, zero, Reading, Window};
use crate::app_state::{AppState, DataState};
use crate::brand::{login_command, product_heading, product_title, push_login_command};
use crate::calendar::{
    date_is_unique, date_on, day_in_range, day_label, day_number, day_text, every_day_has_a_date,
    is_date, is_day,
};
use crate::clock::{is_clock_face, seconds_between, Timestamp};
use crate::double::{
    at_most, cut, differences_are_close, differences_shrink, differences_tell_the_order,
    equal_numbers_round_alike, fixed0, fixed1, half_away, int_value, is_close, is_positive, larger,
    lemma_scaled_close, lemma_three_roundings, lemma_unscaled_close, less, minus, moderate_numbers,
    multiples_round_to_the_nearest, one_has_many_steps, over, positive_numbers_have_steps,
    quotients_are_close, quotients_are_shown_rounded, quotients_grow, quotients_of_negatives,
    quotients_shrink, ratio_value, steps_of, the_gap_below_one, the_nearest_whole_number, times,
    whole_numbers_are_exact, whole_numbers_grow, whole_products_are_exact,
    whole_quotients_are_exact, zero_over, Double, Value,
};
use crate::history::{
    gone_count, leaders, leads, month_figures, portions_fit, projects_of, short_name,
    short_name_of, standings, texts_of, Aggregates,
};
use crate::icons::{band_of, colour, Band};
use crate::rollup::span_sum;
use crate::text::{decimal, push_decimal, push_signed, signed_decimal, to_chars};
use crate::time_fmt::{reset_text, resets_in};
use crate::transcript::{count_at, counts_of, Count, Totals};
use vstd::arithmetic::power2::{lemma2_to64, lemma_pow2_adds, lemma_pow2_pos, pow2};
use vstd::prelude::*;

verus! {

/// The colours of the token categories.
pub const COLOR_INPUT: [u8; 3] = [0x4D, 0x9D, 0xE0];

pub const COLOR_OUTPUT: [u8; 3] = [0xF2, 0x9E, 0x4C];

pub const COLOR_CACHE_CREATION: [u8; 3] = [0xB5, 0x7E, 0xDC];

pub const COLOR_CACHE_READ: [u8; 3] = [0x3A, 0xC0, 0x6E];

/// How many projects are listed.
const TOP_PROJECTS_N: usize = 8;

/// The width of the column of token counts.
const TOKEN_COL_WIDTH: usize = 6;

/// A number of tokens, shortened.
pub open spec fn token_text(n: nat) -> Seq<char> {
    if n >= 1_000_000_000 {
        fixed1(over(ratio_value(n, 1), ratio_value(1_000_000_000, 1))) + "B"@
    } else if n >= 1_000_000 {
        fixed1(over(ratio_value(n, 1), ratio_value(1_000_000, 1))) + "M"@
    } else if n >= 1_000 {
        fixed0(over(ratio_value(n, 1), ratio_value(1_000, 1))) + "K"@
    } else {
        decimal(n)
    }
}

/// A number of tokens, shortened: "2K", "1.2M".
pub fn humanize_tokens(n: u64) -> (r: String)
    ensures
        r@ == token_text(n as nat),
{
    let mut out = String::new();
    let x = Double::from_u64(n);
    if n >= 1_000_000_000 {
        x.div(Double::from_u64(1_000_000_000)).push_fixed1(&mut out);
        out.append("B");
    } else if n >= 1_000_000 {
        x.div(Double::from_u64(1_000_000)).push_fixed1(&mut out);
        out.append("M");
    } else if n >= 1_000 {
        x.div(Double::from_u64(1_000)).push_fixed0(&mut out);
        out.append("K");
    } else {
        push_decimal(&mut out, n);
    }
    assert(out@ =~= token_text(n as nat));
    out
}

/// `s` after as many figure spaces as bring it to `width` characters.
pub open spec fn padded(s: Seq<char>, width: nat) -> Seq<char> {
    if s.len() >= width {
        s
    } else {
        Seq::new((width - s.len()) as nat, |i: int| '\u{2007}') + s
    }
}

/// `s`, padded on the left with figure spaces, which are as wide as a digit.
pub fn pad_left_figure(s: &str, width: usize) -> (r: String)
    ensures
        r@ == padded(s@, width as nat),
{
    let n: usize = to_chars(s).len();
    let mut out = String::new();
    let mut i: usize = n;
    while i < width
        invariant
            n == s@.len(),
            n <= i,
            i <= width || i == n,
            out@ =~= Seq::new((i - n) as nat, |i: int| '\u{2007}'),
        decreases width - i,
    {
        out.push('\u{2007}');
        i = i + 1;
    }
    out.append(s);
    assert(out@ =~= padded(s@, width as nat));
    out
}

/// A percentage, rounded.
pub open spec fn percent(v: Value) -> int {
    cut(half_away(times(v, ratio_value(100, 1))), i64::MIN as int, i64::MAX as int)
}

fn percent_of(v: Double) -> (r: i64)
    ensures
        r == percent(v@),
{
    v.mul(Double::from_u64(100)).round().to_i64()
}

/// A number of hours in words. Days are counted from 24 hours on, where cutting
/// off is rounding down.
pub open spec fn hours_text(h: Value) -> Seq<char> {
    let lo = i64::MIN as int;
    let hi = i64::MAX as int;
    if less(h, ratio_value(1, 1)) {
        let m = cut(larger(half_away(times(h, ratio_value(60, 1))), ratio_value(1, 1)), lo, hi);
        signed_decimal(m) + "m"@
    } else if less(h, ratio_value(24, 1)) {
        signed_decimal(cut(half_away(h), lo, hi)) + "h"@
    } else {
        let days = cut(over(h, ratio_value(24, 1)), lo, hi);
        let rest = cut(half_away(minus(h, times(int_value(days), ratio_value(24, 1)))), lo, hi);
        if rest == 0 {
            signed_decimal(days) + "d"@
        } else {
            signed_decimal(days) + "d "@ + signed_decimal(rest) + "h"@
        }
    }
}

/// A number of hours in words: "15m", "3h", "2d 2h".
pub fn humanize_hours(h: Double) -> (r: String)
    ensures
        r@ == hours_text(h@),
{
    let mut out = String::new();
    if h.lt(Double::ratio(1, 1)) {
        let m: i64 = h.mul(Double::from_u64(60)).round().max(Double::ratio(1, 1)).to_i64();
        push_signed(&mut out, m);
        out.append("m");
    } else if h.lt(Double::from_u64(24)) {
        push_signed(&mut out, h.round().to_i64());
        out.append("h");
    } else {
        let day = Double::from_u64(24);
        let days: i64 = h.div(day).to_i64();
        let rest: i64 = h.sub(Double::from_i64(days).mul(day)).round().to_i64();
        push_signed(&mut out, days);
        if rest == 0 {
            out.append("d");
        } else {
            out.append("d ");
            push_signed(&mut out, rest);
            out.append("h");
        }
    }
    assert(out@ =~= hours_text(h@));
    out
}

/// The hours from `now` to `target`.
pub open spec fn hours_until(target: Timestamp, now: Timestamp) -> Value {
    over(int_value(seconds_between(target, now)), ratio_value(3600, 1))
}

/// The hours at the pace so far until nothing is left of a quota of which
/// `utilization` was used up in `elapsed` hours.
pub open spec fn hours_to_cap(utilization: Value, elapsed: Value) -> Value {
    over(minus(ratio_value(1, 1), utilization), over(utilization, elapsed))
}

/// What is said of the pace at which the week is used up. Nothing is said where
/// it is not known when the week is renewed. At the cap that is said at once;
/// below it nothing is said before six hours have passed and five percent are
/// used up.
pub open spec fn pace(utilization: Value, resets_at: Option<Timestamp>, now: Timestamp) -> Option<
    Seq<char>,
> {
    match resets_at {
        None => None,
        Some(t) => {
            if !(utilization is Fin) {
                None
            } else if at_most(ratio_value(1, 1), utilization) {
                Some("Pace: at cap"@)
            } else {
                let remaining = hours_until(t, now);
                let elapsed = minus(times(ratio_value(7, 1), ratio_value(24, 1)), remaining);
                let cap = hours_to_cap(utilization, elapsed);
                if less(elapsed, ratio_value(6, 1)) || less(utilization, ratio_value(5, 100)) {
                    None
                } else if at_most(remaining, cap) {
                    Some("Pace: on track to reset under cap"@)
                } else {
                    Some("Pace: cap in "@ + hours_text(cap))
                }
            }
        },
    }
}

pub open spec fn text_of(s: Option<String>) -> Option<Seq<char>> {
    match s {
        Some(x) => Some(x@),
        None => None,
    }
}

/// What is said of the pace at which the week is used up.
pub fn burn_rate_line(utilization: Double, resets_at: Option<Timestamp>, now: Timestamp) -> (r:
    Option<String>)
    ensures
        text_of(r) == pace(utilization@, resets_at, now),
{
    let t = match resets_at {
        Some(t) => t,
        None => {
            return None;
        },
    };
    if !utilization.is_finite() {
        return None;
    }
    let one = Double::ratio(1, 1);
    if utilization.ge(one) {
        return Some("Pace: at cap".to_owned());
    }
    let remaining = Double::from_i64(t.seconds_since(&now)).div(Double::from_u64(3600));
    let elapsed = Double::from_u64(7).mul(Double::from_u64(24)).sub(remaining);
    if elapsed.lt(Double::from_u64(6)) || utilization.lt(Double::ratio(5, 100)) {
        return None;
    }
    let cap = one.sub(utilization).div(utilization.div(elapsed));
    if cap.ge(remaining) {
        Some("Pace: on track to reset under cap".to_owned())
    } else {
        let mut out = "Pace: cap in ".to_owned();
        out.append(humanize_hours(cap).as_str());
        Some(out)
    }
}

/// A row of the menu that cannot be chosen.
#[derive(Debug)]
pub enum Item {
    Text(String),
    Separator,
    /// A row with a bar of one colour, filled up to `fraction`.
    Solid { label: String, fraction: Double, color: [u8; 3] },
    /// A row with a bar of four colours, one for each token category, where
    /// `basis` tokens fill the bar.
    Stacked { label: String, totals: Totals, basis: u64 },
}

/// What an `Item` shows.
pub enum Shown {
    Text(Seq<char>),
    Separator,
    Solid { label: Seq<char>, fraction: Value, color: Seq<u8> },
    Stacked { label: Seq<char>, counts: Count, basis: nat },
}

impl View for Item {
    type V = Shown;

    open spec fn view(&self) -> Shown {
        match self {
            Item::Text(s) => Shown::Text(s@),
            Item::Separator => Shown::Separator,
            Item::Solid { label, fraction, color } => Shown::Solid {
                label: label@,
                fraction: fraction@,
                color: color@,
            },
            Item::Stacked { label, totals, basis } => Shown::Stacked {
                label: label@,
                counts: totals@,
                basis: *basis as nat,
            },
        }
    }
}

pub open spec fn shown(v: Seq<Item>) -> Seq<Shown> {
    v.map_values(|i: Item| i@)
}

/// The row of a quota.
pub open spec fn quota_row(name: Seq<char>, r: Reading, now: Timestamp) -> Shown {
    let head = name + "  "@ + signed_decimal(percent(r.utilization)) + "%"@;
    Shown::Solid {
        label: match r.resets_at {
            Some(t) => head + "  "@ + reset_text(t, now),
            None => head,
        },
        fraction: r.utilization,
        color: colour(band_of(r.utilization)),
    }
}

fn window_row(name: &str, w: Window, now: Timestamp) -> (r: Item)
    ensures
        r@ == quota_row(name@, w@, now),
{
    let mut label = name.to_owned();
    label.append("  ");
    push_signed(&mut label, percent_of(w.utilization));
    label.append("%");
    if let Some(t) = w.resets_at {
        label.append("  ");
        label.append(resets_in(t, now).as_str());
    }
    Item::Solid { label, fraction: w.utilization, color: Band::from_fraction(w.utilization).rgb() }
}

/// The row of a quota, if there is a reading of it.
pub open spec fn quota_rows(name: Seq<char>, r: Option<Reading>, now: Timestamp) -> Seq<Shown> {
    match r {
        Some(x) => seq![quota_row(name, x, now)],
        None => seq![],
    }
}

/// The row on the pace at which the week is used up, if there is anything to
/// say.
pub open spec fn pace_rows(r: Option<Reading>, now: Timestamp) -> Seq<Shown> {
    match r {
        Some(x) => match pace(x.utilization, x.resets_at, now) {
            Some(line) => seq![Shown::Text(line)],
            None => seq![],
        },
        None => seq![],
    }
}

/// The rows of single models.
pub open spec fn model_rows(list: Seq<(Seq<char>, Reading)>, now: Timestamp) -> Seq<Shown> {
    list.map_values(|m: (Seq<char>, Reading)| quota_row(m.0, m.1, now))
}

/// The rows at the top of the menu. `updated` is the time of day of the last
/// report.
pub open spec fn status_rows(data: DataState, now: Timestamp, updated: Seq<char>) -> Seq<Shown> {
    match data {
        DataState::Loading => seq![Shown::Text("Loading…"@)],
        DataState::AuthRequired => seq![
            Shown::Text("Token expired — run "@ + login_command()),
        ],
        DataState::Error(msg) => seq![Shown::Text("Error: "@ + msg@)],
        DataState::Ready { usage, .. } => quota_rows("Session"@, usage@.five_hour, now) + quota_rows(
            "Weekly"@,
            usage@.seven_day,
            now,
        ) + pace_rows(usage@.seven_day, now) + model_rows(
            by_label(models(usage@.names, usage@.fields)),
            now,
        ) + seq![Shown::Separator, Shown::Text("Updated "@ + updated)],
    }
}

/// The rows at the top of the menu. `updated` is the time of day of the last
/// report.
pub fn status_items(data: &DataState, now: Timestamp, updated: &str) -> (r: Vec<Item>)
    ensures
        shown(r@) == status_rows(*data, now, updated@),
{
    let mut out: Vec<Item> = Vec::new();
    match data {
        DataState::Loading => {
            out.push(Item::Text("Loading…".to_owned()));
        },
        DataState::AuthRequired => {
            let mut line = "Token expired — run ".to_owned();
            push_login_command(&mut line);
            out.push(Item::Text(line));
        },
        DataState::Error(msg) => {
            let mut line = "Error: ".to_owned();
            line.append(msg.as_str());
            out.push(Item::Text(line));
        },
        DataState::Ready { usage, .. } => {
            if let Some(w) = usage.five_hour {
                out.push(window_row("Session", w, now));
            }
            assert(shown(out@) =~= quota_rows("Session"@, usage@.five_hour, now));
            if let Some(w) = usage.seven_day {
                out.push(window_row("Weekly", w, now));
                assert(shown(out@) =~= quota_rows("Session"@, usage@.five_hour, now) + quota_rows(
                    "Weekly"@,
                    usage@.seven_day,
                    now,
                ));
                if let Some(line) = burn_rate_line(w.utilization, w.resets_at, now) {
                    out.push(Item::Text(line));
                }
            }
            let ghost head = quota_rows("Session"@, usage@.five_hour, now) + quota_rows(
                "Weekly"@,
                usage@.seven_day,
                now,
            ) + pace_rows(usage@.seven_day, now);
            assert(shown(out@) =~= head);
            let per_model = usage.per_model();
            let ghost list = models_of(per_model@);
            let ghost rows = model_rows(list, now);
            let mut i: usize = 0;
            while i < per_model.len()
                invariant
                    i <= per_model.len(),
                    list == models_of(per_model@),
                    rows == model_rows(list, now),
                    shown(out@) =~= head + rows.take(i as int),
                decreases per_model.len() - i,
            {
                assert(list[i as int] == (per_model@[i as int].0@, per_model@[i as int].1@));
                let ghost before = out@;
                out.push(window_row(per_model[i].0.as_str(), per_model[i].1, now));
                assert(shown(out@) =~= shown(before).push(rows[i as int]));
                i = i + 1;
            }
            assert(rows.take(i as int) =~= rows);
            let ghost before = out@;
            out.push(Item::Separator);
            let mut line = "Updated ".to_owned();
            line.append(updated);
            out.push(Item::Text(line));
            assert(shown(out@) =~= shown(before) + seq![
                Shown::Separator,
                Shown::Text("Updated "@ + updated@),
            ]);
        },
    }
    assert(shown(out@) =~= status_rows(*data, now, updated@));
    out
}

/// A part of the menu that opens on its own.
#[derive(Debug)]
pub struct Submenu {
    pub label: String,
    pub items: Vec<Item>,
}

/// A number of tokens, then a name.
pub open spec fn token_label(n: nat, name: Seq<char>) -> Seq<char> {
    padded(token_text(n), 6) + "  "@ + name
}

fn label_tokens(n: u64, name: &str) -> (r: String)
    ensures
        r@ == token_label(n as nat, name@),
{
    let mut out = pad_left_figure(humanize_tokens(n).as_str(), TOKEN_COL_WIDTH);
    out.append("  ");
    out.append(name);
    out
}

/// The largest number of tokens of the `n` days up to `today`.
pub open spec fn busiest(days: Map<i32, Count>, today: int, n: int) -> nat
    decreases n,
{
    if n <= 0 {
        0
    } else {
        let before = busiest(days, today, n - 1);
        let of_day = count_at(days, (today - (n - 1)) as i32).sum();
        if of_day > before {
            of_day
        } else {
            before
        }
    }
}

/// The number of tokens that fills a bar of the week.
pub open spec fn week_basis(days: Map<i32, Count>, today: int) -> nat {
    if busiest(days, today, 7) == 0 {
        1
    } else {
        busiest(days, today, 7)
    }
}

/// The row of a day.
pub open spec fn day_row(days: Map<i32, Count>, day: int, basis: nat) -> Shown {
    let counts = count_at(days, day as i32);
    Shown::Stacked { label: token_label(counts.sum(), day_text(day)), counts, basis }
}

/// The rows of the last seven days, today first.
pub open spec fn week_rows(days: Map<i32, Count>, today: int) -> Seq<Shown> {
    seq![Shown::Text("input · output · cache write · cache read"@), Shown::Separator] + Seq::new(
        7,
        |i: int| day_row(days, today - i, week_basis(days, today)),
    )
}

/// The tokens of the last seven days.
pub open spec fn week_sum(days: Map<i32, Count>, today: int) -> nat {
    span_sum(days, today - 6, today + 1)
}

/// Whether the last seven days can be shown: they are in range, and their tokens
/// fit in 64 bits.
pub open spec fn week_fits(days: Map<i32, Count>, today: int) -> bool {
    &&& day_in_range(today)
    &&& day_in_range(today - 6)
    &&& week_sum(days, today) <= u64::MAX
}

proof fn lemma_week_day(days: Map<i32, Count>, today: int, i: int)
    requires
        0 <= i < 7,
    ensures
        span_sum(days, today - 6, today - i) + count_at(days, (today - i) as i32).sum() == span_sum(
            days,
            today - 6,
            today - i + 1,
        ),
        span_sum(days, today - 6, today - i + 1) <= week_sum(days, today),
    decreases i,
{
    if i > 0 {
        lemma_week_day(days, today, i - 1);
    }
}

fn history_submenu(h: &Aggregates, today: i32) -> (r: Submenu)
    requires
        week_fits(counts_of(h.by_day@), today as int),
    ensures
        r.label@ == "History — last 7d: "@ + token_text(week_sum(counts_of(h.by_day@), today as int)),
        shown(r.items@) == week_rows(counts_of(h.by_day@), today as int),
{
    let ghost m = counts_of(h.by_day@);
    let days = h.last_n_days(7, today);
    let mut peak: u64 = 0;
    let mut rest: u64 = 0;
    let mut i: usize = 0;
    while i < 7
        invariant
            i <= 7,
            days.len() == 7,
            m == counts_of(h.by_day@),
            week_fits(m, today as int),
            forall|k: int|
                0 <= k < 7 ==> (#[trigger] days@[k]).0 == today - (6 - k) && days@[k].1@ == count_at(
                    m,
                    days@[k].0,
                ),
            peak == busiest(m, today as int, i as int),
            rest + span_sum(m, today - 6, today - i + 1) == week_sum(m, today as int),
        decreases 7 - i,
    {
        let t = days[6 - i].1;
        proof {
            lemma_week_day(m, today as int, i as int);
            assert(days@[6 - i].0 == today - i);
        }
        let sum: u64 = t.sum();
        if sum > peak {
            peak = sum;
        }
        rest = rest + sum;
        i = i + 1;
    }
    assert(span_sum(m, today - 6, today - 6) == 0);
    let mut label = "History — last 7d: ".to_owned();
    label.append(humanize_tokens(rest).as_str());
    let basis: u64 = if peak == 0 {
        1
    } else {
        peak
    };
    let mut items: Vec<Item> = Vec::new();
    items.push(Item::Text("input · output · cache write · cache read".to_owned()));
    items.push(Item::Separator);
    let ghost rows = week_rows(m, today as int);
    let mut k: usize = 0;
    while k < 7
        invariant
            k <= 7,
            days.len() == 7,
            m == counts_of(h.by_day@),
            week_fits(m, today as int),
            forall|j: int|
                0 <= j < 7 ==> (#[trigger] days@[j]).0 == today - (6 - j) && days@[j].1@ == count_at(
                    m,
                    days@[j].0,
                ),
            basis == week_basis(m, today as int),
            rows == week_rows(m, today as int),
            shown(items@) =~= rows.take(2 + k),
        decreases 7 - k,
    {
        let (day, t) = days[6 - k];
        proof {
            lemma_week_day(m, today as int, k as int);
            assert(days@[6 - k].0 == today - k);
        }
        let ghost before = items@;
        let row = Item::Stacked {
            label: label_tokens(t.sum(), day_label(day).as_str()),
            totals: t,
            basis,
        };
        items.push(row);
        assert(shown(items@) =~= shown(before).push(row@));
        k = k + 1;
    }
    assert(shown(items@) =~= rows);
    Submenu { label, items }
}

/// The row of a project. `most` tokens fill the bar.
pub open spec fn project_row(p: (Seq<char>, nat), most: nat, all: Seq<Seq<char>>) -> Shown {
    Shown::Solid {
        label: token_label(p.1, short_name_of(p.0, all)),
        fraction: over(ratio_value(p.1, 1), ratio_value(most, 1)),
        color: seq![0xF2, 0x9E, 0x4C],
    }
}

/// The number of tokens that fills the bar of a project.
pub open spec fn project_basis(top: Seq<(Seq<char>, nat)>) -> nat {
    if top[0].1 == 0 {
        1
    } else {
        top[0].1
    }
}

/// The rows of the projects that lead.
pub open spec fn project_rows(top: Seq<(Seq<char>, nat)>, all: Seq<Seq<char>>) -> Seq<Shown> {
    if top.len() == 0 {
        seq![Shown::Text("(no data)"@)]
    } else {
        top.map_values(|p: (Seq<char>, nat)| project_row(p, project_basis(top), all))
    }
}

/// Whether no count of the projects from day `since` on goes beyond 64 bits.
pub open spec fn projects_fit(h: Aggregates, since: Option<i32>) -> bool {
    match since {
        Some(day) => portions_fit(h.files(), day),
        None => true,
    }
}

fn top_projects_submenu(label: &str, h: &Aggregates, since: Option<i32>) -> (r: Submenu)
    requires
        projects_fit(*h, since),
    ensures
        r.label@ == label@,
        leads(leaders(standings(*h, since), 8), standings(*h, since), 8),
        shown(r.items@) == project_rows(leaders(standings(*h, since), 8), h.by_project.keys()),
{
    let top = h.top_projects(TOP_PROJECTS_N, since);
    let ghost list = projects_of(top@);
    let mut items: Vec<Item> = Vec::new();
    if top.len() == 0 {
        items.push(Item::Text("(no data)".to_owned()));
        assert(shown(items@) =~= project_rows(list, h.by_project.keys()));
        return Submenu { label: label.to_owned(), items };
    }
    let first: u64 = top[0].1;
    let most: u64 = if first == 0 {
        1
    } else {
        first
    };
    let n: usize = h.by_project.len();
    let mut all: Vec<&str> = Vec::new();
    let mut i: usize = 0;
    while i < n
        invariant
            i <= n,
            n == h.by_project.keys().len(),
            texts_of(all@) =~= h.by_project.keys().take(i as int),
        decreases n - i,
    {
        let ghost before = all@;
        let name = h.by_project.key_at(i).as_str();
        all.push(name);
        assert(texts_of(all@) =~= texts_of(before).push(name@));
        i = i + 1;
    }
    assert(texts_of(all@) =~= h.by_project.keys());
    let ghost rows = project_rows(list, h.by_project.keys());
    let mut k: usize = 0;
    while k < top.len()
        invariant
            k <= top.len(),
            top.len() > 0,
            list == projects_of(top@),
            most == project_basis(list),
            texts_of(all@) == h.by_project.keys(),
            rows == project_rows(list, h.by_project.keys()),
            shown(items@) =~= rows.take(k as int),
        decreases top.len() - k,
    {
        let total: u64 = top[k].1;
        let name = short_name(top[k].0.as_str(), all.as_slice());
        assert(list[k as int] == (top@[k as int].0@, total as nat));
        let ghost before = items@;
        let row = Item::Solid {
            label: label_tokens(total, name.as_str()),
            fraction: Double::from_u64(total).div(Double::from_u64(most)),
            color: COLOR_OUTPUT,
        };
        assert(COLOR_OUTPUT@ =~= seq![0xF2, 0x9E, 0x4C]);
        items.push(row);
        assert(row@ == rows[k as int]);
        assert(shown(items@) =~= shown(before).push(row@));
        k = k + 1;
    }
    assert(shown(items@) =~= rows);
    Submenu { label: label.to_owned(), items }
}

/// What is said of the tokens of a month so far and at its end.
pub open spec fn month_text(figures: (nat, nat)) -> Option<Seq<char>> {
    if figures.0 == 0 {
        None
    } else {
        Some("Month: "@ + token_text(figures.0) + " (proj "@ + token_text(figures.1) + ")"@)
    }
}

/// The tokens of the month of `today` so far and at its end.
pub open spec fn this_month(days: Map<i32, Count>, today: int) -> (nat, nat) {
    let (y, m, d) = date_on(today);
    month_figures(days, y, m, d)
}

/// Whether the tokens of the month of `today` fit in 64 bits.
pub open spec fn month_fits(days: Map<i32, Count>, today: int) -> bool {
    day_in_range(today) && this_month(days, today).0 <= u64::MAX
}

/// What is said of the tokens of this month, if there are any.
pub fn monthly_line(history: &Aggregates, today: i32) -> (r: Option<String>)
    requires
        month_fits(counts_of(history.by_day@), today as int),
    ensures
        text_of(r) == month_text(this_month(counts_of(history.by_day@), today as int)),
{
    proof {
        every_day_has_a_date(today as int);
        let (y, m, d) = date_on(today as int);
        assert forall|y1: int, m1: int, d1: int|
            is_date(y1, m1, d1) && #[trigger] day_number(y1, m1, d1) == today implies y1 == y && m1
            == m && d1 == d by {
            date_is_unique(y1, m1, d1, y, m, d);
        }
    }
    let (current, projected) = history.current_month_total_and_projection(today);
    if current == 0 {
        return None;
    }
    let mut out = "Month: ".to_owned();
    out.append(humanize_tokens(current).as_str());
    out.append(" (proj ");
    out.append(humanize_tokens(projected).as_str());
    out.append(")");
    Some(out)
}

/// What the user can have done from the menu.
#[derive(Debug, Clone, Copy, PartialEq, Eq, Structural)]
pub enum Action {
    Refresh,
    Purge,
    LaunchAtLogin,
    Quit,
}

/// A row at the top level of the menu.
#[derive(Debug)]
pub enum Row {
    /// One that only shows something.
    Plain(Item),
    /// One that opens a part of the menu.
    Part(Submenu),
    /// One that has something done.
    Button { action: Action, label: String, enabled: bool },
    /// One that is ticked or not, and changes that.
    Switch { action: Action, label: String, on: bool },
}

/// What a `Row` shows.
pub enum ShownRow {
    Plain(Shown),
    Part { label: Seq<char>, rows: Seq<Shown> },
    Button { action: Action, label: Seq<char>, enabled: bool },
    Switch { action: Action, label: Seq<char>, on: bool },
}

impl View for Row {
    type V = ShownRow;

    open spec fn view(&self) -> ShownRow {
        match self {
            Row::Plain(item) => ShownRow::Plain(item@),
            Row::Part(part) => ShownRow::Part { label: part.label@, rows: shown(part.items@) },
            Row::Button { action, label, enabled } => ShownRow::Button {
                action: *action,
                label: label@,
                enabled: *enabled,
            },
            Row::Switch { action, label, on } => ShownRow::Switch {
                action: *action,
                label: label@,
                on: *on,
            },
        }
    }
}

pub open spec fn shown_rows(v: Seq<Row>) -> Seq<ShownRow> {
    v.map_values(|r: Row| r@)
}

/// Whether a row can be chosen.
pub open spec fn can_be_chosen(r: ShownRow) -> bool {
    match r {
        ShownRow::Plain(_) => false,
        ShownRow::Part { .. } => true,
        ShownRow::Button { enabled, .. } => enabled,
        ShownRow::Switch { .. } => true,
    }
}

impl Row {
    /// Whether the row can be chosen.
    pub fn enabled(&self) -> (r: bool)
        ensures
            r == can_be_chosen(self@),
    {
        match self {
            Row::Plain(_) => false,
            Row::Part(_) => true,
            Row::Button { enabled, .. } => *enabled,
            Row::Switch { .. } => true,
        }
    }
}

/// Rows that only show something.
pub open spec fn plain_rows(items: Seq<Shown>) -> Seq<ShownRow> {
    items.map_values(|i: Shown| ShownRow::Plain(i))
}

pub open spec fn separator() -> ShownRow {
    ShownRow::Plain(Shown::Separator)
}

/// Whether past use can be shown.
pub open spec fn history_fits(h: Aggregates, today: int) -> bool {
    &&& week_fits(counts_of(h.by_day@), today)
    &&& month_fits(counts_of(h.by_day@), today)
    &&& projects_fit(h, Some((today - 6) as i32))
}

/// Whether past use can be shown as of `today`.
pub fn can_show(h: &Aggregates, today: i32) -> (r: bool)
    ensures
        r == history_fits(*h, today as int),
{
    if !is_day(today) || !is_day(today - 6) {
        return false;
    }
    proof {
        every_day_has_a_date(today as int);
    }
    let month = match h.month_if_fits(today) {
        Some(_) => true,
        None => false,
    };
    h.days_fit(7, today) && month && h.projects_fit(today - 6)
}

/// The row on the tokens of this month, if there are any.
pub open spec fn month_rows(days: Map<i32, Count>, today: int) -> Seq<ShownRow> {
    match month_text(this_month(days, today)) {
        Some(line) => seq![ShownRow::Plain(Shown::Text(line))],
        None => seq![],
    }
}

/// The part of the menu with the projects that lead from day `since` on.
pub open spec fn projects_part(label: Seq<char>, h: Aggregates, since: Option<i32>) -> ShownRow {
    ShownRow::Part {
        label,
        rows: project_rows(leaders(standings(h, since), 8), h.by_project.keys()),
    }
}

/// The rows on past use as of `today`: the last seven days, the month, and the
/// projects that lead.
pub open spec fn history_rows(h: Aggregates, today: int) -> Seq<ShownRow> {
    let days = counts_of(h.by_day@);
    seq![
        separator(),
        ShownRow::Part {
            label: "History — last 7d: "@ + token_text(week_sum(days, today)),
            rows: week_rows(days, today),
        },
    ] + month_rows(days, today) + seq![
        projects_part("Top projects (7d)"@, h, Some((today - 6) as i32)),
        projects_part("Top projects (all-time)"@, h, None),
    ]
}

/// How many transcripts are gone.
pub open spec fn removed(history: Option<Aggregates>) -> nat {
    match history {
        Some(h) => gone_count(h.files()),
        None => 0,
    }
}

/// The row to purge what was removed.
pub open spec fn purge_text(n: nat) -> Seq<char> {
    if n > 0 {
        "Purge removed sessions ("@ + decimal(n) + ")"@
    } else {
        "Purge removed sessions"@
    }
}

/// The rows at the end of the menu: to refresh, to purge `gone` transcripts, to
/// launch at login and to quit.
pub open spec fn action_rows(gone: nat, launch_at_login: bool) -> Seq<ShownRow> {
    seq![
        separator(),
        ShownRow::Button { action: Action::Refresh, label: "Refresh now"@, enabled: true },
        ShownRow::Button { action: Action::Purge, label: purge_text(gone), enabled: gone > 0 },
        ShownRow::Switch {
            action: Action::LaunchAtLogin,
            label: "Launch at Login"@,
            on: launch_at_login,
        },
        separator(),
        ShownRow::Button {
            action: Action::Quit,
            label: "Quit "@ + product_title() + "-O-Meter"@,
            enabled: true,
        },
    ]
}

/// The rows of the menu from the top: what is known of the quotas, past use
/// where it is known, and what can be done. `updated` is the time of day of the
/// last report.
pub open spec fn menu_rows(state: AppState, now: Timestamp, today: int, updated: Seq<char>) -> Seq<
    ShownRow,
> {
    plain_rows(status_rows(state.data, now, updated)) + match state.history {
        Some(h) => history_rows(h, today),
        None => seq![],
    } + action_rows(removed(state.history), state.launch_at_login)
}

/// The projects that lead, in the last seven days and over all time, are ranked
/// by their tokens.
pub open spec fn leaders_are_ranked(h: Aggregates, today: int) -> bool {
    let recent = standings(h, Some((today - 6) as i32));
    &&& leads(leaders(recent, 8), recent, 8)
    &&& leads(leaders(standings(h, None), 8), standings(h, None), 8)
}

/// Adds the rows on past use.
fn push_history(out: &mut Vec<Row>, h: &Aggregates, today: i32)
    requires
        history_fits(*h, today as int),
    ensures
        shown_rows(final(out)@) == shown_rows(old(out)@) + history_rows(*h, today as int),
        leaders_are_ranked(*h, today as int),
{
    let since: i32 = today - 6;
    let ghost start = shown_rows(out@);
    let ghost days = counts_of(h.by_day@);
    out.push(Row::Plain(Item::Separator));
    out.push(Row::Part(history_submenu(h, today)));
    assert(shown_rows(out@) =~= start + seq![
        separator(),
        ShownRow::Part {
            label: "History — last 7d: "@ + token_text(week_sum(days, today as int)),
            rows: week_rows(days, today as int),
        },
    ]);
    let ghost head = shown_rows(out@);
    if let Some(line) = monthly_line(h, today) {
        out.push(Row::Plain(Item::Text(line)));
    }
    assert(shown_rows(out@) =~= head + month_rows(days, today as int));
    let ghost before = shown_rows(out@);
    out.push(Row::Part(top_projects_submenu("Top projects (7d)", h, Some(since))));
    out.push(Row::Part(top_projects_submenu("Top projects (all-time)", h, None)));
    assert(shown_rows(out@) =~= before + seq![
        projects_part("Top projects (7d)"@, *h, Some((today - 6) as i32)),
        projects_part("Top projects (all-time)"@, *h, None),
    ]);
    assert(shown_rows(out@) =~= start + history_rows(*h, today as int));
}

/// Adds the rows at the end of the menu.
fn push_actions(out: &mut Vec<Row>, gone: usize, launch_at_login: bool)
    ensures
        shown_rows(final(out)@) == shown_rows(old(out)@) + action_rows(gone as nat, launch_at_login),
{
    let ghost start = shown_rows(out@);
    let mut purge = "Purge removed sessions".to_owned();
    if gone > 0 {
        purge = "Purge removed sessions (".to_owned();
        push_decimal(&mut purge, gone as u64);
        purge.append(")");
    }
    let mut quit = "Quit ".to_owned();
    quit.append(product_heading().as_str());
    quit.append("-O-Meter");
    out.push(Row::Plain(Item::Separator));
    out.push(
        Row::Button { action: Action::Refresh, label: "Refresh now".to_owned(), enabled: true },
    );
    out.push(Row::Button { action: Action::Purge, label: purge, enabled: gone > 0 });
    out.push(
        Row::Switch {
            action: Action::LaunchAtLogin,
            label: "Launch at Login".to_owned(),
            on: launch_at_login,
        },
    );
    out.push(Row::Plain(Item::Separator));
    out.push(Row::Button { action: Action::Quit, label: quit, enabled: true });
    assert(shown_rows(out@) =~= start + action_rows(gone as nat, launch_at_login));
}

/// The rows of the menu at `now`, `today` being the local day and `updated` the
/// time of day of the last report.
pub fn build_rows(state: &AppState, now: Timestamp, today: i32, updated: &str) -> (r: Vec<Row>)
    requires
        state.history matches Some(h) ==> history_fits(h, today as int),
    ensures
        shown_rows(r@) == menu_rows(*state, now, today as int, updated@),
        state.history matches Some(h) ==> leaders_are_ranked(h, today as int),
{
    let items = status_items(&state.data, now, updated);
    let ghost status = shown(items@);
    let ghost all = items@;
    let mut out: Vec<Row> = Vec::new();
    for item in it: items
        invariant
            it.seq() == all,
            status == shown(all),
            shown_rows(out@) =~= plain_rows(status.take(it.index() as int)),
    {
        let ghost before = out@;
        out.push(Row::Plain(item));
        assert(shown_rows(out@) =~= shown_rows(before).push(out@.last()@));
    }
    assert(status.take(status.len() as int) =~= status);
    let gone: usize = match &state.history {
        Some(h) => {
            push_history(&mut out, h, today);
            h.tombstoned_count()
        },
        None => 0,
    };
    push_actions(&mut out, gone, state.launch_at_login);
    assert(shown_rows(out@) =~= menu_rows(*state, now, today as int, updated@));
    out
}

/// The rows of the menu at `now`, `today` being the local day. The time of the
/// last report is shown in the machine's time zone.
pub fn build_menu(state: &AppState, now: Timestamp, today: i32) -> (r: Vec<Row>)
    requires
        state.history matches Some(h) ==> history_fits(h, today as int),
    ensures
        exists|updated: Seq<char>|
            shown_rows(r@) == #[trigger] menu_rows(*state, now, today as int, updated) && (
            state.data is Ready ==> is_clock_face(updated)),
        state.history matches Some(h) ==> leaders_are_ranked(h, today as int),
{
    let updated: String = match &state.data {
        DataState::Ready { fetched_at, .. } => fetched_at.local_time(),
        _ => String::new(),
    };
    build_rows(state, now, today, updated.as_str())
}

/// What stands beside the icon.
pub open spec fn title(data: DataState) -> Seq<char> {
    match data {
        DataState::Loading => "…"@,
        DataState::AuthRequired => "?"@,
        DataState::Error(_) => "!"@,
        DataState::Ready { usage, .. } => " "@ + signed_decimal(percent(headline(usage@))) + "%"@,
    }
}

/// What stands beside the icon: the higher of session and week, in percent.
pub fn title_for(state: &AppState) -> (r: String)
    ensures
        r@ == title(state.data),
{
    match &state.data {
        DataState::Loading => "…".to_owned(),
        DataState::AuthRequired => "?".to_owned(),
        DataState::Error(_) => "!".to_owned(),
        DataState::Ready { usage, .. } => {
            let mut out = " ".to_owned();
            push_signed(&mut out, percent_of(usage.headline_fraction()));
            out.append("%");
            out
        },
    }
}

/// The band of a quota, that of zero where there is no reading.
pub open spec fn quota_band(r: Option<Reading>) -> Band {
    match r {
        Some(x) => band_of(x.utilization),
        None => band_of(zero()),
    }
}

/// The bands of the icon: session on the left, week on the right.
pub open spec fn bands(data: DataState) -> (Band, Band) {
    match data {
        DataState::Ready { usage, .. } => (
            quota_band(usage@.five_hour),
            quota_band(usage@.seven_day),
        ),
        DataState::AuthRequired => (Band::Red, Band::Red),
        DataState::Error(_) => (Band::Red, Band::Red),
        DataState::Loading => (Band::Blue, Band::Blue),
    }
}

fn band_for(w: Option<Window>) -> (r: Band)
    ensures
        r == quota_band(reading_of(w)),
{
    match w {
        Some(x) => Band::from_fraction(x.utilization),
        None => Band::from_fraction(Double::ratio(0, 1)),
    }
}

/// The bands of the icon: session on the left, week on the right.
pub fn bands_for(state: &AppState) -> (r: (Band, Band))
    ensures
        r == bands(state.data),
{
    match &state.data {
        DataState::Ready { usage, .. } => (band_for(usage.five_hour), band_for(usage.seven_day)),
        DataState::AuthRequired => (Band::Red, Band::Red),
        DataState::Error(_) => (Band::Red, Band::Red),
        DataState::Loading => (Band::Blue, Band::Blue),
    }
}

/// Padding brings a text to the width, adds nothing but figure spaces in front,
/// and leaves a text alone that is wide enough.
pub proof fn padding_fills_the_width(s: Seq<char>, width: nat)
    ensures
        s.len() <= width ==> padded(s, width).len() == width,
        s.len() >= width ==> padded(s, width) == s,
        padded(s, width).skip(padded(s, width).len() - s.len()) == s,
        forall|i: int|
            0 <= i < padded(s, width).len() - s.len() ==> #[trigger] padded(s, width)[i]
                == '\u{2007}',
{
    assert(padded(s, width).skip(padded(s, width).len() - s.len()) =~= s);
}

/// What is used up of a quota and how long that took, where the pace tells
/// something: from five percent on and short of the cap, and from an hour on.
pub open spec fn tells_a_pace(u: Double, elapsed: Value) -> bool {
    &&& at_most(ratio_value(5, 100), u@)
    &&& less(u@, ratio_value(1, 1))
    &&& elapsed is Fin
    &&& pow2(1074) <= steps_of(elapsed) <= 1_000_000_000_000 * pow2(1074)
}

proof fn lemma_what_is_left(u: Double, e: Value)
    requires
        tells_a_pace(u, e),
    ensures
        u@ matches Value::Fin { neg, .. } && !neg,
        is_positive(e),
        pow2(1074) <= steps_of(u@) * 128,
        steps_of(u@) < pow2(1074),
        minus(ratio_value(1, 1), u@) matches Value::Fin { neg, .. } && !neg,
        is_close(
            steps_of(minus(ratio_value(1, 1), u@)),
            pow2(1074) - steps_of(u@),
            0x20_0000_0000_0000,
        ),
        steps_of(minus(ratio_value(1, 1), u@)) >= 0x20_0000_0000_0000,
        is_positive(over(u@, e)),
        is_close(
            steps_of(over(u@, e)) * steps_of(e),
            steps_of(u@) * pow2(1074),
            0x20_0000_0000_0000,
        ),
{
    let p = pow2(1074);
    let one = ratio_value(1, 1);
    lemma_pow2_pos(1074);
    moderate_numbers(5, 100, 1, 1);
    the_gap_below_one(u);
    positive_numbers_have_steps(u@);
    positive_numbers_have_steps(e);
    let (x, y) = (steps_of(u@), steps_of(e));
    assert(1 * p == p) by (nonlinear_arith);
    differences_are_close(one, u@, 1);
    lemma_pow2_adds(60, 961);
    lemma2_to64();
    vstd::arithmetic::power2::lemma2_to64_rest();
    lemma_pow2_pos(961);
    assert(pow2(1021) >= 0x40_0000_0000_0000) by (nonlinear_arith)
        requires
            pow2(1021) == 0x1000_0000_0000_0000 * pow2(961),
            pow2(961) > 0,
    ;
    let q = over(u@, e);
    assert(0x10_0000_0000_0000 * y <= x * p) by (nonlinear_arith)
        requires
            y <= 1_000_000_000_000 * p,
            p <= x * 128,
            p == 0x20_0000_0000_0000 * pow2(1021),
            pow2(1021) >= 0x40_0000_0000_0000,
    {
        let big = 0x10_0000_0000_0000 * 1_000_000_000_000int;
        assert(0x10_0000_0000_0000 * y <= big * p);
        assert(x >= big);
        assert(big * p <= x * p);
    }
    assert(x <= 1 * y);
    quotients_are_close(u@, e, 1);
    positive_numbers_have_steps(q);
    let z = steps_of(q);
    assert(z > 0) by (nonlinear_arith)
        requires
            -(x * p) <= (z * y - x * p) * 0x20_0000_0000_0000,
            x > 0,
            p > 0,
            y > 0,
    {
        assert(x * p > 0);
        assert(z * y > 0);
    }
}

/// The hours to the cap go by what was used up: times the part that is used up
/// they are the hours that have passed times the part that is left, but for
/// rounding.
pub proof fn the_rest_takes_its_share_of_time(u: Double, elapsed: Value)
    requires
        tells_a_pace(u, elapsed),
    ensures
        hours_to_cap(u@, elapsed) matches Value::Fin { neg, .. } && !neg,
        is_close(
            steps_of(hours_to_cap(u@, elapsed)) * steps_of(u@),
            steps_of(elapsed) * (pow2(1074) - steps_of(u@)),
            0x4_0000_0000_0000,
        ),
{
    let p = pow2(1074);
    lemma_pow2_pos(1074);
    lemma_what_is_left(u, elapsed);
    let left = minus(ratio_value(1, 1), u@);
    let rate = over(u@, elapsed);
    let (x, y, a, q) = (steps_of(u@), steps_of(elapsed), steps_of(left), steps_of(rate));
    positive_numbers_have_steps(rate);
    positive_numbers_have_steps(left);
    assert(q <= 2 * p) by (nonlinear_arith)
        requires
            (q * y - x * p) * 0x20_0000_0000_0000 <= x * p,
            x <= p,
            y >= p,
            p > 0,
            q > 0,
    {
        assert(x * p <= p * p);
        assert(q * y >= q * p);
        assert(q * p <= 2 * (p * p));
    }
    assert(0x10_0000_0000_0000 * q <= a * p) by (nonlinear_arith)
        requires
            q <= 2 * p,
            a >= 0x20_0000_0000_0000,
            p > 0,
    ;
    assert(p <= q * 256_000_000_000_000) by (nonlinear_arith)
        requires
            -(x * p) <= (q * y - x * p) * 0x20_0000_0000_0000,
            p <= x * 128,
            y <= 1_000_000_000_000 * p,
            p > 0,
            q > 0,
            x > 0,
    {
        assert(x * p > 0);
        assert(2 * (q * y) >= x * p);
        assert(q * y <= q * (1_000_000_000_000 * p));
        assert(128 * (x * p) >= p * p);
        assert(256 * (q * y) >= p * p);
        assert(256_000_000_000_000 * (q * p) >= p * p);
    }
    quotients_are_close(left, rate, 512_000_000_000_000);
    let c = steps_of(over(left, rate));
    assert(c >= 0) by {
        positive_numbers_have_steps(over(left, rate));
        if let Value::Fin { mant, exp, .. } = over(left, rate) {
            assert(mant * pow2(exp) >= 0) by (nonlinear_arith);
        }
    }
    // What is left against what would be, in like terms.
    lemma_scaled_close(c * q, a * p, y, 0x20_0000_0000_0000);
    lemma_scaled_close(q * y, x * p, c, 0x20_0000_0000_0000);
    lemma_scaled_close(a, p - x, p * y, 0x20_0000_0000_0000);
    assert((q * y) * c == (c * q) * y && (x * p) * c == (c * x) * p && a * (p * y) == (a * p) * y
        && (p - x) * (p * y) == (y * (p - x)) * p) by (nonlinear_arith);
    assert(0 <= (c * x) * p && 0 <= (a * p) * y && 0 <= (y * (p - x)) * p) by (nonlinear_arith)
        requires
            c >= 0,
            x >= 0,
            p >= 0,
            a >= 0,
            y >= 0,
            p >= x,
    {
        assert(c * x >= 0);
        assert(a * p >= 0);
        assert(y * (p - x) >= 0);
    }
    lemma_three_roundings((c * x) * p, (c * q) * y, (a * p) * y, (y * (p - x)) * p);
    lemma_unscaled_close(c * x, y * (p - x), p as int, 0x4_0000_0000_0000);
}

/// In the same time, more use leaves no more hours to the cap.
pub proof fn more_use_brings_the_cap_nearer(u1: Double, u2: Double, elapsed: Value)
    requires
        tells_a_pace(u1, elapsed),
        tells_a_pace(u2, elapsed),
        at_most(u1@, u2@),
    ensures
        at_most(hours_to_cap(u2@, elapsed), hours_to_cap(u1@, elapsed)),
{
    lemma_what_is_left(u1, elapsed);
    lemma_what_is_left(u2, elapsed);
    whole_numbers_are_exact(1);
    differences_shrink(ratio_value(1, 1), u1@, u2@);
    quotients_grow(u1@, u2@, elapsed);
    quotients_shrink(
        minus(ratio_value(1, 1), u1@),
        over(u1@, elapsed),
        minus(ratio_value(1, 1), u2@),
        over(u2@, elapsed),
    );
}

/// The longer the same use took, the more hours are left to the cap.
pub proof fn more_time_moves_the_cap_away(u: Double, e1: Value, e2: Value)
    requires
        tells_a_pace(u, e1),
        tells_a_pace(u, e2),
        at_most(e1, e2),
    ensures
        at_most(hours_to_cap(u@, e1), hours_to_cap(u@, e2)),
{
    lemma_what_is_left(u, e1);
    lemma_what_is_left(u, e2);
    quotients_shrink(u@, e1, u@, e2);
    let left = minus(ratio_value(1, 1), u@);
    quotients_shrink(left, over(u@, e2), left, over(u@, e1));
}

/// The hours that are left of the week, in steps, against the seconds.
proof fn lemma_remaining(target: Timestamp, now: Timestamp)
    requires
        -100_000_000_000_000 < seconds_between(target, now) < 100_000_000_000_000,
    ensures
        hours_until(target, now) is Fin,
        seconds_between(target, now) >= 0 ==> is_close(
            3600 * steps_of(hours_until(target, now)),
            seconds_between(target, now) * pow2(1074),
            0x20_0000_0000_0000,
        ),
        seconds_between(target, now) < 0 ==> is_close(
            -3600 * steps_of(hours_until(target, now)),
            -seconds_between(target, now) * pow2(1074),
            0x20_0000_0000_0000,
        ),
{
    let p = pow2(1074);
    lemma_pow2_pos(1074);
    let s = seconds_between(target, now);
    let n = (if s < 0 { -s } else { s }) as nat;
    let hour = ratio_value(3600, 1);
    whole_numbers_are_exact(n);
    whole_numbers_are_exact(3600);
    positive_numbers_have_steps(hour);
    if n == 0 {
        zero_over(hour);
        if let Value::Fin { mant, exp, .. } = hours_until(target, now) {
            assert(0 * pow2(exp) == 0 && 0 * p == 0) by (nonlinear_arith);
        }
    } else {
        lemma_pow2_adds(64, 1010);
        lemma2_to64();
        vstd::arithmetic::power2::lemma2_to64_rest();
        lemma_pow2_pos(1010);
        let a = ratio_value(n, 1);
        assert(0x10_0000_0000_0000 * (3600 * p) <= (n * p) * p && n * p <= n * (3600 * p))
            by (nonlinear_arith)
            requires
                n >= 1,
                p == 0x1_0000_0000_0000_0000 * pow2(1010),
                pow2(1010) >= 1,
        {
            assert(p >= 0x1_0000_0000_0000_0000);
            assert(n * p >= p);
            assert((n * p) * p >= p * p);
            assert(p * p >= 0x1_0000_0000_0000_0000 * p);
        }
        quotients_are_close(a, hour, n);
        let r = steps_of(over(a, hour));
        assert(r * (3600 * p) == (3600 * r) * p) by (nonlinear_arith);
        lemma_unscaled_close(3600 * r, (n * p) as int, p as int, 0x20_0000_0000_0000);
        quotients_of_negatives(a, hour);
    }
}

proof fn lemma_elapsed(x: int, p: int, r: int, e: int)
    requires
        21_600 <= x <= 604_800,
        p > 0,
        is_close(3600 * r, 604_800 * p - x * p, 0x20_0000_0000_0000),
        is_close(e, 168 * p - r, 0x20_0000_0000_0000),
    ensures
        is_close(3600 * e, x * p, 0x8000_0000_0000),
{
    assert(21_600 * p <= x * p) by (nonlinear_arith)
        requires
            x >= 21_600,
            p > 0,
    ;
}

proof fn lemma_cap_in_seconds(x: int, p: int, u: int, e: int, c: int)
    requires
        0 < u < p,
        x >= 0,
        is_close(3600 * e, x * p, 0x8000_0000_0000),
        is_close(c * u, e * (p - u), 0x4_0000_0000_0000),
    ensures
        is_close((3600 * c) * u, (x * p) * (p - u), 0x4000_0000_0000),
{
    lemma_scaled_close(3600 * e, x * p, p - u, 0x8000_0000_0000);
    let (w, z, t) = ((3600 * c) * u, (3600 * e) * (p - u), (x * p) * (p - u));
    assert(w == 3600 * (c * u) && z == 3600 * (e * (p - u))) by (nonlinear_arith)
        requires
            w == (3600 * c) * u,
            z == (3600 * e) * (p - u),
    ;
    assert(t >= 0) by (nonlinear_arith)
        requires
            t == (x * p) * (p - u),
            x >= 0,
            p > u,
            u > 0,
    {
        assert(x * p >= 0);
    }
}

proof fn lemma_on_track(x: int, p: int, u: int, r: int, c: int)
    requires
        21_600 <= x <= 604_800,
        0 < u < p,
        is_close(3600 * r, 604_800 * p - x * p, 0x20_0000_0000_0000),
        is_close((3600 * c) * u, (x * p) * (p - u), 0x4000_0000_0000),
    ensures
        u * 604_800 * 0x100_0000_0000 <= p * x * 0xFF_FFFF_FFFF ==> r <= c,
        p * x * 0x100_0000_0001 <= u * 604_800 * 0x100_0000_0000 ==> c < r,
{
    let (w, m, t) = ((3600 * c) * u, (3600 * r) * u, (x * p) * (p - u));
    let v = (604_800 * p - x * p) * u;
    let g = (x * p) * p;
    lemma_scaled_close(3600 * r, 604_800 * p - x * p, u, 0x20_0000_0000_0000);
    assert(t == g - (x * p) * u && v == 604_800 * (p * u) - (x * p) * u) by (nonlinear_arith)
        requires
            t == (x * p) * (p - u),
            v == (604_800 * p - x * p) * u,
            g == (x * p) * p,
    ;
    assert(0 <= (x * p) * u && 0 <= t && 0 < g && 604_800 * (p * u) <= 28 * g) by (nonlinear_arith)
        requires
            t == (x * p) * (p - u),
            g == (x * p) * p,
            x >= 21_600,
            0 < u < p,
    {
        assert(x * p >= 21_600 * p);
        assert((x * p) * p >= (21_600 * p) * p);
        assert(p * u <= p * p);
    }
    let f = 604_800 * (p * u);
    if u * 604_800 * 0x100_0000_0000 <= p * x * 0xFF_FFFF_FFFF {
        assert(f * 0x100_0000_0000 <= g * 0xFF_FFFF_FFFF) by (nonlinear_arith)
            requires
                u * 604_800 * 0x100_0000_0000 <= p * x * 0xFF_FFFF_FFFF,
                f == 604_800 * (p * u),
                g == (x * p) * p,
                p > 0,
        {
            assert((u * 604_800 * 0x100_0000_0000) * p <= (p * x * 0xFF_FFFF_FFFF) * p);
        }
        assert(w >= m);
        assert(r <= c) by (nonlinear_arith)
            requires
                (3600 * c) * u >= (3600 * r) * u,
                u > 0,
        ;
    }
    if p * x * 0x100_0000_0001 <= u * 604_800 * 0x100_0000_0000 {
        assert(g * 0x100_0000_0001 <= f * 0x100_0000_0000) by (nonlinear_arith)
            requires
                p * x * 0x100_0000_0001 <= u * 604_800 * 0x100_0000_0000,
                f == 604_800 * (p * u),
                g == (x * p) * p,
                p > 0,
        {
            assert((p * x * 0x100_0000_0001) * p <= (u * 604_800 * 0x100_0000_0000) * p);
        }
        assert(w < m);
        assert(c < r) by (nonlinear_arith)
            requires
                (3600 * c) * u < (3600 * r) * u,
                u > 0,
        ;
    }
}

/// What is said below the cap once six hours of the week have passed and five
/// percent of it are used up. `passed` is how many seconds of the week have
/// passed. The week is on track when the part that is used up is at most the part
/// that has passed, but for rounding; otherwise it is said in how many hours the
/// cap is reached, which is what has passed times what is left by what is used
/// up. Once the week is over, it is on track.
pub proof fn the_pace_goes_by_use_and_time(u: Double, target: Timestamp, now: Timestamp)
    requires
        at_most(ratio_value(5, 100), u@),
        less(u@, ratio_value(1, 1)),
        -100_000_000_000_000 < seconds_between(target, now) <= 604_800 - 21_600,
    ensures
        ({
            let passed = 604_800 - seconds_between(target, now);
            let (used, all) = (steps_of(u@), pow2(1074) as int);
            let said = pace(u@, Some(target), now);
            let on_track = "Pace: on track to reset under cap"@;
            &&& used * 604_800 * 0x100_0000_0000 <= all * passed * 0xFF_FFFF_FFFF ==> said == Some(
                on_track,
            )
            &&& seconds_between(target, now) <= 0 ==> said == Some(on_track)
            &&& all * passed * 0x100_0000_0001 <= used * 604_800 * 0x100_0000_0000
                && seconds_between(target, now) > 0 ==> exists|hours: Value|
                hours is Fin && is_close(
                    (3600 * steps_of(hours)) * used,
                    (passed * all) * (all - used),
                    0x4000_0000_0000,
                ) && said == Some("Pace: cap in "@ + #[trigger] hours_text(hours))
            &&& said is Some
        }),
{
    let p = pow2(1074) as int;
    lemma_pow2_pos(1074);
    let s = seconds_between(target, now);
    let x = 604_800 - s;
    let remaining = hours_until(target, now);
    let week = times(ratio_value(7, 1), ratio_value(24, 1));
    let elapsed = minus(week, remaining);
    whole_products_are_exact(7, 24);
    whole_numbers_are_exact(168);
    whole_numbers_are_exact(162);
    whole_numbers_are_exact(6);
    lemma_remaining(target, now);
    let r = steps_of(remaining);
    let used = steps_of(u@);
    assert(s * p == 604_800 * p - x * p) by (nonlinear_arith)
        requires
            x == 604_800 - s,
    ;
    if s <= 0 {
        assert(r <= 0 && -r <= 60_000_000_000 * p) by (nonlinear_arith)
            requires
                s >= 0 ==> -(s * p) <= (3600 * r - s * p) * 0x20_0000_0000_0000 <= s * p,
                s < 0 ==> -(-s * p) <= (-3600 * r - (-s * p)) * 0x20_0000_0000_0000 <= -s * p,
                -100_000_000_000_000 < s <= 0,
                p > 0,
        {
            assert(0 <= -s * p <= 100_000_000_000_000 * p);
            assert(s == 0 ==> s * p == 0);
        }
        differences_are_close(week, remaining, 100_000_000_000);
    } else {
        whole_quotients_are_exact(162, 3600);
        whole_numbers_grow(s as nat, 583_200);
        whole_numbers_are_exact(3600);
        positive_numbers_have_steps(ratio_value(3600, 1));
        quotients_grow(int_value(s), ratio_value(583_200, 1), ratio_value(3600, 1));
        differences_are_close(week, remaining, 168);
        differences_shrink(week, remaining, ratio_value(162, 1));
        assert(minus(week, ratio_value(162, 1)) == ratio_value(6, 1));
        lemma_elapsed(x, p, r, steps_of(elapsed));
    }
    let e = steps_of(elapsed);
    assert(tells_a_pace(u, elapsed));
    assert(!less(elapsed, ratio_value(6, 1)));
    lemma_what_is_left(u, elapsed);
    the_rest_takes_its_share_of_time(u, elapsed);
    let cap = hours_to_cap(u@, elapsed);
    let c = steps_of(cap);
    if s > 0 {
        lemma_cap_in_seconds(x, p, used, e, c);
        lemma_on_track(x, p, used, r, c);
        if !at_most(remaining, cap) {
            assert(pace(u@, Some(target), now) == Some("Pace: cap in "@ + hours_text(cap)));
        }
    } else {
        if let Value::Fin { mant, exp, .. } = cap {
            assert(mant * pow2(exp) >= 0) by (nonlinear_arith);
        }
    }
}

/// When nothing is said of the pace, and when the cap is reached. Nothing is said
/// where it is not known when the week is renewed, of a utilization that is no
/// number, below five percent, or before six hours have passed.
pub proof fn when_the_pace_tells_nothing(u: Value, target: Timestamp, now: Timestamp)
    ensures
        pace(u, None, now) is None,
        !(u is Fin) ==> pace(u, Some(target), now) is None,
        less(u, ratio_value(5, 100)) ==> pace(u, Some(target), now) is None,
        u is Fin && at_most(ratio_value(1, 1), u) ==> pace(u, Some(target), now) == Some(
            "Pace: at cap"@,
        ),
        less(u, ratio_value(1, 1)) && 604_800 - 21_600 < seconds_between(target, now)
            < 100_000_000_000_000 ==> pace(u, Some(target), now) is None,
{
    moderate_numbers(5, 100, 1, 1);
    whole_numbers_are_exact(1);
    if less(u, ratio_value(5, 100)) {
        lemma_five_percent_is_below_one();
    }
    if less(u, ratio_value(1, 1)) && 604_800 - 21_600 < seconds_between(target, now)
        < 100_000_000_000_000 {
        let p = pow2(1074) as int;
        lemma_pow2_pos(1074);
        let s = seconds_between(target, now);
        let remaining = hours_until(target, now);
        let week = times(ratio_value(7, 1), ratio_value(24, 1));
        whole_products_are_exact(7, 24);
        whole_numbers_are_exact(168);
        whole_numbers_are_exact(6);
        whole_numbers_are_exact(0);
        lemma_remaining(target, now);
        let r = steps_of(remaining);
        assert(s * p >= 583_201 * p) by (nonlinear_arith)
            requires
                s >= 583_201,
                p > 0,
        ;
        if r <= 168 * p {
            assert(168 * p <= 168 * pow2(1074));
            assert(r >= 0);
            differences_are_close(week, remaining, 168);
        } else {
            differences_tell_the_order(week, remaining);
        }
        assert(less(minus(week, remaining), ratio_value(6, 1)));
    }
}

proof fn lemma_five_percent_is_below_one()
    ensures
        less(ratio_value(5, 100), ratio_value(1, 1)),
{
    let p = pow2(1074);
    lemma_pow2_pos(1074);
    crate::double::dyadic_fractions_are_exact(1, 1);
    lemma2_to64();
    whole_numbers_are_exact(1);
    vstd::arithmetic::power2::lemma_pow2_unfold(1074);
    assert((5 * p) * 2 <= (1 * p) * 100) by (nonlinear_arith);
    crate::double::rounding_keeps_order(5 * p, 100, 1 * p, 2);
    moderate_numbers(5, 100, 1, 1);
}

/// A percentage is the whole number that is nearest to a hundred times the
/// utilization, as far as rounding leaves no doubt which that is.
pub proof fn percentages_are_nearest(v: Value, n: nat)
    requires
        v matches Value::Fin { neg, .. } && !neg,
        n <= 1_000_000_000,
        ((2 * n - 1) * 0x10_0000 + 1) * pow2(1074) <= 200 * steps_of(v) * 0x10_0000 <= ((2 * n + 1)
            * 0x10_0000 - 1) * pow2(1074),
    ensures
        percent(v) == n,
{
    multiples_round_to_the_nearest(v, 100, n, i64::MIN as int, i64::MAX as int);
}

/// How far a quota is used up, zero where there is no reading.
pub open spec fn used_of(w: Option<Window>) -> Value {
    match w {
        Some(x) => x.utilization@,
        None => ratio_value(0, 1),
    }
}

/// With a report, the title shows the percentage of one of the two quotas, and
/// neither is higher than that one.
pub proof fn the_title_shows_the_higher_quota(data: DataState)
    ensures
        data matches DataState::Ready { usage, .. } ==> exists|v: Value|
            (v == used_of(usage.five_hour) || v == used_of(usage.seven_day)) && !less(
                v,
                used_of(usage.five_hour),
            ) && !less(v, used_of(usage.seven_day)) && title(data) == " "@ + signed_decimal(
                #[trigger] percent(v),
            ) + "%"@,
{
    if let DataState::Ready { usage, .. } = data {
        let v = headline(usage@);
        assert(title(data) == " "@ + signed_decimal(percent(v)) + "%"@);
    }
}

/// The title gives the higher quota in whole percent: no matter which of the two
/// it is, it is the number that is nearest to a hundred times it.
pub proof fn the_title_in_digits(data: DataState, higher: Value, n: nat)
    requires
        data matches DataState::Ready { usage, .. } && (higher == used_of(usage.five_hour)
            || higher == used_of(usage.seven_day)) && at_most(used_of(usage.five_hour), higher)
            && at_most(used_of(usage.seven_day), higher),
        higher matches Value::Fin { neg, .. } && !neg,
        n <= 1_000_000_000,
        ((2 * n - 1) * 0x10_0000 + 1) * pow2(1074) <= 200 * steps_of(higher) * 0x10_0000 <= ((2 * n
            + 1) * 0x10_0000 - 1) * pow2(1074),
    ensures
        title(data) == " "@ + decimal(n) + "%"@,
{
    if let DataState::Ready { usage, .. } = data {
        let v = headline(usage@);
        whole_numbers_are_exact(100);
        percentages_are_nearest(higher, n);
        equal_numbers_round_alike(
            v,
            higher,
            ratio_value(100, 1),
            i64::MIN as int,
            i64::MAX as int,
        );
    }
}

/// The title does not tell session from week: with the two readings swapped it
/// is the same.
pub proof fn the_title_is_the_same_when_quotas_are_swapped(a: DataState, b: DataState)
    requires
        a matches DataState::Ready { usage: x, .. } && b matches DataState::Ready { usage: y, .. }
            && x.five_hour == y.seven_day && x.seven_day == y.five_hour,
    ensures
        title(a) == title(b),
{
    if let DataState::Ready { usage: x, .. } = a {
        let (s, w) = (used_of(x.five_hour), used_of(x.seven_day));
        whole_numbers_are_exact(100);
        if s is Fin && w is Fin && !less(s, w) && !less(w, s) {
            equal_numbers_round_alike(
                s,
                w,
                ratio_value(100, 1),
                i64::MIN as int,
                i64::MAX as int,
            );
        }
    }
}

/// Without a report the title is a sign that tells why, and no two of the signs
/// are the same.
pub proof fn the_title_without_a_report(why: String)
    ensures
        title(DataState::Loading) == seq!['…'],
        title(DataState::AuthRequired) == seq!['?'],
        title(DataState::Error(why)) == seq!['!'],
{
    reveal_strlit("…");
    reveal_strlit("?");
    reveal_strlit("!");
    assert(title(DataState::Loading) =~= seq!['…']);
    assert(title(DataState::AuthRequired) =~= seq!['?']);
    assert(title(DataState::Error(why)) =~= seq!['!']);
}

/// The left half of the icon goes by the session alone, the right half by the
/// week alone, each by its own reading; without one a quota counts as untouched.
pub proof fn halves_go_by_their_quota(a: DataState, b: DataState)
    requires
        a is Ready,
        b is Ready,
    ensures
        a matches DataState::Ready { usage: x, .. } ==> {
            &&& bands(a) == (band_of(used_of(x.five_hour)), band_of(used_of(x.seven_day)))
            &&& b matches DataState::Ready { usage: y, .. } ==> {
                &&& x.five_hour == y.five_hour ==> bands(a).0 == bands(b).0
                &&& x.seven_day == y.seven_day ==> bands(a).1 == bands(b).1
                &&& x.five_hour == y.seven_day && x.seven_day == y.five_hour ==> bands(b) == (
                    bands(a).1,
                    bands(a).0,
                )
            }
        },
{
}

/// A number of tokens is shown in the largest unit that it reaches: below a
/// thousand as it is, in thousands to the nearest whole number, and in millions
/// and above to the nearest decimal.
pub proof fn tokens_are_shown_rounded(n: nat, told: nat)
    requires
        n < 100_000_000_000_000,
    ensures
        n < 1_000 ==> token_text(n) == decimal(n),
        1_000 <= n < 1_000_000 && 1_000 * told - 500 < n < 1_000 * told + 500 ==> token_text(n)
            == decimal(told) + "K"@,
        1_000_000 <= n < 1_000_000_000 && 100_000 * told - 50_000 < n < 100_000 * told + 50_000
            ==> token_text(n) == decimal(told / 10) + seq!['.', crate::text::digit(told)] + "M"@,
        1_000_000_000 <= n && 100_000_000 * told - 50_000_000 < n < 100_000_000 * told + 50_000_000
            ==> token_text(n) == decimal(told / 10) + seq!['.', crate::text::digit(told)] + "B"@,
{
    if n >= 1_000_000_000 {
        quotients_are_shown_rounded(n, 1_000_000_000, told);
    } else if n >= 1_000_000 {
        quotients_are_shown_rounded(n, 1_000_000, told);
    } else if n >= 1_000 {
        quotients_are_shown_rounded(n, 1_000, told);
    }
}

/// Below an hour, the time is shown in minutes, rounded to the nearest one but at
/// least one; from an hour up to a day in hours, rounded to the nearest one.
pub proof fn short_times_are_shown_rounded(h: Value, n: nat)
    requires
        h matches Value::Fin { neg, .. } && !neg,
        n <= 60,
    ensures
        steps_of(h) < pow2(1074) && ((2 * n - 1) * 0x10_0000 + 1) * pow2(1074) <= 120 * steps_of(h)
            * 0x10_0000 <= ((2 * n + 1) * 0x10_0000 - 1) * pow2(1074) ==> hours_text(h) == decimal(
            if n == 0 {
                1
            } else {
                n
            },
        ) + "m"@,
        pow2(1074) <= steps_of(h) < 24 * pow2(1074) && (2 * n - 1) * pow2(1074) <= 2 * steps_of(h)
            < (2 * n + 1) * pow2(1074) ==> hours_text(h) == decimal(n) + "h"@,
{
    let p = pow2(1074);
    one_has_many_steps();
    whole_numbers_are_exact(1);
    whole_numbers_are_exact(24);
    whole_numbers_are_exact(n);
    if steps_of(h) < p && ((2 * n - 1) * 0x10_0000 + 1) * p <= 120 * steps_of(h) * 0x10_0000 <= ((2
        * n + 1) * 0x10_0000 - 1) * p {
        multiples_round_to_the_nearest(h, 60, n, i64::MIN as int, i64::MAX as int);
        let m: nat = if n == 0 {
            1
        } else {
            n
        };
        let told = larger(ratio_value(n, 1), ratio_value(1, 1));
        assert(n > 0 ==> n * p >= p) by (nonlinear_arith)
            requires
                p > 0,
        ;
        assert(0 * p == 0 && 1 * p == p) by (nonlinear_arith);
        assert(told == ratio_value(m, 1));
        lemma_whole_cut(m);
    }
    if p <= steps_of(h) < 24 * p && (2 * n - 1) * p <= 2 * steps_of(h) < (2 * n + 1) * p {
        the_nearest_whole_number(h, n, i64::MIN as int, i64::MAX as int);
    }
}

proof fn lemma_whole_cut(n: nat)
    requires
        n <= 1_000_000_000,
    ensures
        cut(ratio_value(n, 1), i64::MIN as int, i64::MAX as int) == n,
{
    whole_numbers_are_exact(n);
}

/// From a day on, the time is shown in days, rounded down, and in the hours that
/// are left over, rounded to the nearest one and left out where there are none.
pub proof fn long_times_are_shown_in_days(h: Value, days: nat, rest: nat)
    requires
        h matches Value::Fin { neg, .. } && !neg,
        1 <= days <= 1_000_000,
        rest <= 24,
        24 * days * pow2(1074) <= steps_of(h),
        steps_of(h) * 0x10_0000 <= (24 * (days + 1) * 0x10_0000 - 1) * pow2(1074),
        ((2 * rest - 1) * 0x10_0000 + 1) * pow2(1074) <= 2 * (steps_of(h) - 24 * days * pow2(1074))
            * 0x10_0000 <= ((2 * rest + 1) * 0x10_0000 - 1) * pow2(1074),
    ensures
        rest == 0 ==> hours_text(h) == decimal(days) + "d"@,
        rest > 0 ==> hours_text(h) == decimal(days) + "d "@ + decimal(rest) + "h"@,
{
    let p = pow2(1074) as int;
    one_has_many_steps();
    let x = steps_of(h);
    let day = ratio_value(24, 1);
    let n = 24 * days;
    whole_numbers_are_exact(1);
    whole_numbers_are_exact(24);
    whole_numbers_are_exact(days);
    whole_numbers_are_exact(n);
    positive_numbers_have_steps(day);
    let t = n * p;
    assert(24 * days * p == t && (24 * (days + 1) * 0x10_0000 - 1) * p == (t + 24 * p) * 0x10_0000
        - p && t >= 24 * p && t <= 24_000_000 * p && t == 24 * (days * p)) by (nonlinear_arith)
        requires
            n == 24 * days,
            t == n * p,
            1 <= days <= 1_000_000,
            p > 0,
    ;
    assert(0x10_0000_0000_0000 * (24 * p) <= x * p && x <= 2_000_000 * (24 * p)) by (nonlinear_arith)
        requires
            24 * p <= x <= 24_000_000 * p + 24 * p,
            p >= 0x1_0000_0000_0000_0000 * 0x1_0000_0000_0000_0000,
    {
        assert(x * p >= (24 * p) * p);
        assert((24 * p) * p >= (24 * p) * 0x10_0000_0000_0000);
    }
    quotients_are_close(h, day, 2_000_000);
    let quotient = over(h, day);
    let q = steps_of(quotient);
    assert(q * (24 * p) == (24 * q) * p) by (nonlinear_arith);
    lemma_unscaled_close(24 * q, x, p, 0x20_0000_0000_0000);
    whole_quotients_are_exact(days, 24);
    assert(days * 24 == n);
    quotients_grow(ratio_value(n, 1), h, day);
    assert(days * p <= q < days * p + p);
    if let Value::Fin { mant, exp, .. } = quotient {
        assert(mant * pow2(exp) == q);
        vstd::arithmetic::div_mod::lemma_fundamental_div_mod_converse(
            q,
            p,
            days as int,
            q - days * p,
        );
    }
    assert(cut(quotient, i64::MIN as int, i64::MAX as int) == days);
    whole_products_are_exact(days, 24);
    let left = minus(h, ratio_value(n, 1));
    differences_are_close(h, ratio_value(n, 1), 24);
    let (d, r) = (x - t, steps_of(left));
    let e = rest * p;
    assert(((2 * rest - 1) * 0x10_0000 + 1) * p == 2 * e * 0x10_0000 - 0xF_FFFF * p && ((2 * rest + 1)
        * 0x10_0000 - 1) * p == 2 * e * 0x10_0000 + 0xF_FFFF * p && (2 * rest - 1) * p == 2 * e - p
        && (2 * rest + 1) * p == 2 * e + p && e <= 24 * p) by (nonlinear_arith)
        requires
            e == rest * p,
            rest <= 24,
            p > 0,
    ;
    assert(r >= 0);
    the_nearest_whole_number(left, rest, i64::MIN as int, i64::MAX as int);
    assert(!less(h, ratio_value(24, 1)) && !less(h, ratio_value(1, 1)));
}

/// No day of the week has more tokens than fill a bar, and a day that has the most
/// fills it; a week without tokens fills none.
pub proof fn the_busiest_day_fills_the_bar(days: Map<i32, Count>, today: int, n: int, i: int)
    requires
        0 <= i < n,
    ensures
        count_at(days, (today - i) as i32).sum() <= busiest(days, today, n),
        busiest(days, today, n) > 0 ==> exists|k: int|
            0 <= k < n && busiest(days, today, n) == count_at(
                days,
                #[trigger] day_before(today, k),
            ).sum(),
        week_basis(days, today) > 0,
        busiest(days, today, 7) > 0 ==> week_basis(days, today) == busiest(days, today, 7),
    decreases n,
{
    let last = count_at(days, day_before(today, n - 1)).sum();
    if i < n - 1 {
        the_busiest_day_fills_the_bar(days, today, n - 1, i);
    } else if n > 1 {
        the_busiest_day_fills_the_bar(days, today, n - 1, 0);
    }
    if busiest(days, today, n) == last {
        assert(busiest(days, today, n) == count_at(days, day_before(today, n - 1)).sum());
    } else {
        let k = choose|k: int|
            0 <= k < n - 1 && busiest(days, today, n - 1) == count_at(
                days,
                #[trigger] day_before(today, k),
            ).sum();
        assert(busiest(days, today, n) == count_at(days, day_before(today, k)).sum());
    }
}

/// The day `k` days before `today`.
pub open spec fn day_before(today: int, k: int) -> i32 {
    (today - k) as i32
}

/// The week is shown as its seven days, today first, each under its own label with
/// its own tokens, all bars by the same measure.
pub proof fn the_week_is_shown_day_by_day(days: Map<i32, Count>, today: int, i: int)
    requires
        0 <= i < 7,
    ensures
        week_rows(days, today).len() == 9,
        week_rows(days, today)[2 + i] matches Shown::Stacked { label, counts, basis } && counts
            == count_at(days, day_before(today, i)) && basis == week_basis(days, today) && label
            == padded(token_text(counts.sum()), 6) + "  "@ + day_text(today - i),
{
}

/// The tokens of the week are those of its seven days.
pub proof fn the_week_has_seven_days(days: Map<i32, Count>, today: int)
    ensures
        week_sum(days, today) == count_at(days, day_before(today, 0)).sum() + count_at(
            days,
            day_before(today, 1),
        ).sum() + count_at(days, day_before(today, 2)).sum() + count_at(
            days,
            day_before(today, 3),
        ).sum() + count_at(days, day_before(today, 4)).sum() + count_at(
            days,
            day_before(today, 5),
        ).sum() + count_at(days, day_before(today, 6)).sum(),
{
    lemma_week_day(days, today, 0);
    lemma_week_day(days, today, 1);
    lemma_week_day(days, today, 2);
    lemma_week_day(days, today, 3);
    lemma_week_day(days, today, 4);
    lemma_week_day(days, today, 5);
    lemma_week_day(days, today, 6);
    assert(span_sum(days, today - 6, today - 6) == 0);
}

/// The project that leads fills its bar, and the others fill theirs by their part
/// of its tokens.
pub proof fn projects_are_measured_by_the_first(
    top: Seq<(Seq<char>, nat)>,
    all: Seq<Seq<char>>,
    i: int,
)
    requires
        0 <= i < top.len(),
        top[0].1 > 0,
    ensures
        project_rows(top, all).len() == top.len(),
        project_rows(top, all)[i] matches Shown::Solid { label, fraction, .. } && fraction == over(
            ratio_value(top[i].1, 1),
            ratio_value(top[0].1, 1),
        ) && label == padded(token_text(top[i].1), 6) + "  "@ + short_name_of(top[i].0, all),
        project_rows(seq![], all) == seq![Shown::Text("(no data)"@)],
{
}

/// A row of a quota says its name and its percentage, and when it is renewed if
/// that is known; its bar is filled as far as the quota is used up, in the colour
/// of its band.
pub proof fn a_quota_is_shown_with_its_percentage(
    name: Seq<char>,
    r: Reading,
    now: Timestamp,
    n: nat,
)
    requires
        r.utilization matches Value::Fin { neg, .. } && !neg,
        n <= 1_000_000_000,
        ((2 * n - 1) * 0x10_0000 + 1) * pow2(1074) <= 200 * steps_of(r.utilization) * 0x10_0000 <= ((
        2 * n + 1) * 0x10_0000 - 1) * pow2(1074),
    ensures
        quota_row(name, r, now) matches Shown::Solid { label, fraction, color } && fraction
            == r.utilization && color == colour(band_of(r.utilization)) && label == match r.resets_at {
            Some(t) => name + "  "@ + decimal(n) + "%"@ + "  "@ + reset_text(t, now),
            None => name + "  "@ + decimal(n) + "%"@,
        },
{
    percentages_are_nearest(r.utilization, n);
}

/// The month that is shown is the one that the day falls in.
pub proof fn the_month_is_that_of_the_day(days: Map<i32, Count>, y: int, m: int, d: int)
    requires
        is_date(y, m, d),
    ensures
        this_month(days, day_number(y, m, d)) == month_figures(days, y, m, d),
        month_figures(days, y, m, d).0 == 0 ==> month_text(this_month(days, day_number(y, m, d)))
            is None,
        month_figures(days, y, m, d).0 > 0 ==> month_text(this_month(days, day_number(y, m, d)))
            == Some(
            "Month: "@ + token_text(month_figures(days, y, m, d).0) + " (proj "@ + token_text(
                month_figures(days, y, m, d).1,
            ) + ")"@,
        ),
{
    let day = day_number(y, m, d);
    every_day_has_a_date(day);
    let (y1, m1, d1) = date_on(day);
    date_is_unique(y1, m1, d1, y, m, d);
}

/// What was removed can be purged exactly when there is some, and the row says how
/// much; the switch is on exactly when the meter starts at login; the other two
/// rows can always be chosen.
pub proof fn what_can_be_done(gone: nat, launch_at_login: bool)
    ensures
        ({
            let rows = action_rows(gone, launch_at_login);
            &&& rows.len() == 6
            &&& rows[1] matches ShownRow::Button { action, enabled, .. } && action == Action::Refresh
                && enabled
            &&& rows[2] matches ShownRow::Button { action, label, enabled } && action
                == Action::Purge && (enabled <==> gone > 0) && (gone > 0 ==> label
                == "Purge removed sessions ("@ + decimal(gone) + ")"@)
            &&& rows[3] matches ShownRow::Switch { action, on, .. } && action
                == Action::LaunchAtLogin && on == launch_at_login
            &&& rows[5] matches ShownRow::Button { action, enabled, .. } && action == Action::Quit
                && enabled
            &&& forall|i: int|
                0 <= i < 6 ==> (can_be_chosen(#[trigger] rows[i]) <==> i == 1 || i == 3 || i == 5 || (
                i == 2 && gone > 0))
        }),
{
}

/// With a report, the status has a row for each quota that there is a reading of,
/// one on the pace where there is something to say, one for each model, and at the
/// end when the report came.
pub proof fn what_the_status_shows(data: DataState, now: Timestamp, updated: Seq<char>)
    ensures
        data matches DataState::Ready { usage, .. } ==> {
            let rows = status_rows(data, now, updated);
            let (s, w) = (usage@.five_hour, usage@.seven_day);
            let list = by_label(models(usage@.names, usage@.fields));
            let a: int = if s is Some {
                1
            } else {
                0
            };
            let b: int = if w is Some {
                1
            } else {
                0
            };
            let c: int = if w is Some && pace(w->0.utilization, w->0.resets_at, now) is Some {
                1
            } else {
                0
            };
            &&& rows.len() == a + b + c + list.len() + 2
            &&& s is Some ==> rows[0] == quota_row("Session"@, s->0, now)
            &&& w is Some ==> rows[a] == quota_row("Weekly"@, w->0, now)
            &&& c == 1 ==> rows[a + b] == Shown::Text(
                pace(w->0.utilization, w->0.resets_at, now)->0,
            )
            &&& forall|i: int|
                0 <= i < list.len() ==> rows[a + b + c + i] == quota_row(
                    (#[trigger] list[i]).0,
                    list[i].1,
                    now,
                )
            &&& rows.last() == Shown::Text("Updated "@ + updated)
        },
        data matches DataState::Error(why) ==> status_rows(data, now, updated) == seq![
            Shown::Text("Error: "@ + why@),
        ],
{
}

/// The menu begins with the status and ends with what can be done; past use stands
/// between them where it is known.
pub proof fn the_menu_from_top_to_bottom(
    state: AppState,
    now: Timestamp,
    today: int,
    updated: Seq<char>,
    i: int,
)
    requires
        0 <= i,
    ensures
        ({
            let rows = menu_rows(state, now, today, updated);
            let status = status_rows(state.data, now, updated);
            let past = match state.history {
                Some(h) => history_rows(h, today),
                None => seq![],
            };
            let gone = match state.history {
                Some(h) => gone_count(h.files()),
                None => 0,
            };
            let actions = action_rows(gone, state.launch_at_login);
            &&& rows.len() == status.len() + past.len() + actions.len()
            &&& i < status.len() ==> rows[i] == ShownRow::Plain(status[i])
            &&& i < past.len() ==> rows[status.len() + i] == past[i]
            &&& i < actions.len() ==> rows[status.len() + past.len() + i] == actions[i]
        }),
{
}

/// Past use is shown as the week, the month where it has tokens, the projects that
/// lead over the last seven days, and those that lead over all time.
pub proof fn what_is_shown_of_past_use(h: Aggregates, today: int)
    ensures
        ({
            let days = counts_of(h.by_day@);
            let rows = history_rows(h, today);
            let month = month_text(this_month(days, today));
            let n: int = if month is Some {
                3
            } else {
                2
            };
            &&& rows.len() == n + 2
            &&& rows[1] == (ShownRow::Part {
                label: "History — last 7d: "@ + token_text(week_sum(days, today)),
                rows: week_rows(days, today),
            })
            &&& month matches Some(line) ==> rows[2] == ShownRow::Plain(Shown::Text(line))
            &&& rows[n] == (ShownRow::Part {
                label: "Top projects (7d)"@,
                rows: project_rows(
                    leaders(standings(h, Some(day_before(today, 6))), 8),
                    h.by_project.keys(),
                ),
            })
            &&& rows[n + 1] == (ShownRow::Part {
                label: "Top projects (all-time)"@,
                rows: project_rows(leaders(standings(h, None), 8), h.by_project.keys()),
            })
        }),
{
}

} // verus!
