use chrono::{DateTime, Utc};
use claude_o_meter::api::{
    humanize_model, reply_error, take_report, usage_url, Extra, FetchError, ScaleLatch, UsageResponse, Window,
    BASE_URL,
};
use claude_o_meter::clock::Timestamp;
use claude_o_meter::double::Double;
use claude_o_meter::table::Table;
use serde_json::Value;

fn d(x: f64) -> Double {
    Double::from_bits(x.to_bits())
}

fn f(x: Double) -> f64 {
    f64::from_bits(x.bits)
}

fn at(text: &str) -> Timestamp {
    let t = text.parse::<DateTime<Utc>>().unwrap();
    Timestamp::new(t.timestamp(), t.timestamp_subsec_nanos()).unwrap()
}

/// The name of the product: the first word of the package's name.
fn product() -> &'static str {
    "claude_o_meter".split('_').next().unwrap()
}

fn title() -> String {
    let name = product();
    format!("{}{}", name[..1].to_uppercase(), &name[1..])
}

/// The reset time of an object: `None` when it is no time.
fn reset_of(v: &Value) -> Option<Option<Timestamp>> {
    match v.get("resets_at") {
        None | Some(Value::Null) => Some(None),
        Some(Value::String(s)) => s.parse::<DateTime<Utc>>().ok().map(|t| {
            Some(Timestamp::new(t.timestamp(), t.timestamp_subsec_nanos()).unwrap())
        }),
        Some(_) => None,
    }
}

fn extra_of(v: &Value) -> Extra {
    if v.is_object() {
        Extra::Object {
            utilization: v.get("utilization").and_then(|x| x.as_f64()).map(d),
            resets_at: reset_of(v),
        }
    } else {
        Extra::Other { window: None }
    }
}

fn window_of(v: Option<&Value>) -> Option<Window> {
    v.map(|v| Window {
        utilization: d(v.get("utilization").unwrap().as_f64().unwrap()),
        resets_at: reset_of(v).unwrap(),
    })
}

fn report(body: &str) -> UsageResponse {
    let v: Value = serde_json::from_str(body).unwrap();
    let mut extra = Table::new();
    for (k, x) in v.as_object().unwrap() {
        if k != "five_hour" && k != "seven_day" {
            extra.insert(k.clone(), extra_of(x));
        }
    }
    UsageResponse {
        five_hour: window_of(v.get("five_hour")),
        seven_day: window_of(v.get("seven_day")),
        extra,
    }
}

const NOMINAL: &str = r#"{
    "five_hour": {"utilization": 0.21, "resets_at": "2026-05-19T17:00:00Z"},
    "seven_day": {"utilization": 0.47, "resets_at": "2026-05-26T12:00:00Z"},
    "seven_day_sonnet": {"utilization": 0.04, "resets_at": "2026-05-26T12:00:00Z"}
}"#;

const PERCENTAGE: &str = r#"{
    "five_hour": {"utilization": 21.0, "resets_at": "2026-05-19T17:00:00Z"},
    "seven_day": {"utilization": 7.0, "resets_at": "2026-05-26T12:00:00Z"},
    "seven_day_sonnet": {"utilization": 4.0, "resets_at": "2026-05-26T12:00:00Z"},
    "seven_day_opus": {"utilization": 3.0, "resets_at": null},
    "note": "text"
}"#;

#[test]
fn headline_is_max_of_session_and_weekly() {
    let r = report(NOMINAL);
    let s = f(r.five_hour.as_ref().unwrap().utilization);
    let w = f(r.seven_day.as_ref().unwrap().utilization);
    assert_eq!(f(r.headline_fraction()), s.max(w));
}

#[test]
fn headline_of_an_empty_report_is_zero() {
    let r = report("{}");
    assert_eq!(f(r.headline_fraction()), 0.0);
    let mut nan = synth(f64::NAN);
    assert_eq!(f(nan.headline_fraction()), 0.0);
    nan.seven_day = Some(Window { utilization: d(-0.5), resets_at: None });
    assert_eq!(f(nan.headline_fraction()), -0.5);
}

#[test]
fn humanize_model_capitalizes_underscored_names() {
    assert_eq!(humanize_model("sonnet"), "Sonnet");
    assert_eq!(humanize_model("claude_design"), format!("{} Design", title()));
}

#[test]
fn humanize_model_edge_cases() {
    assert_eq!(humanize_model(""), "");
    assert_eq!(humanize_model("4o_Mini_-x_~"), "4o Mini -x ~");
    assert_eq!(humanize_model("_a__b_"), " A  B ");
    assert_eq!(humanize_model("ßx"), "SSx");
    assert_eq!(humanize_model("3_opus"), "3 Opus");
    assert_eq!(humanize_model("éa_Öb"), "Éa Öb");
}

fn close(a: f64, b: f64) -> bool {
    (a - b).abs() < 1e-9
}

#[test]
fn normalizes_percentage_scale() {
    let mut r = report(PERCENTAGE);
    r.normalize_scale(&mut ScaleLatch::default());
    assert!(close(f(r.five_hour.as_ref().unwrap().utilization), 0.21));
    assert!(close(f(r.seven_day.as_ref().unwrap().utilization), 0.07));
    let per_model = r.per_model();
    let sonnet = per_model.iter().find(|(k, _)| k == "Sonnet").unwrap();
    let opus = per_model.iter().find(|(k, _)| k == "Opus").unwrap();
    assert!(close(f(sonnet.1.utilization), 0.04));
    assert!(close(f(opus.1.utilization), 0.03));
}

#[test]
fn leaves_fraction_scale_alone() {
    let mut r = report(NOMINAL);
    let before_session = r.five_hour.as_ref().unwrap().utilization;
    let before_weekly = r.seven_day.as_ref().unwrap().utilization;
    r.normalize_scale(&mut ScaleLatch::default());
    assert_eq!(r.five_hour.unwrap().utilization, before_session);
    assert_eq!(r.seven_day.unwrap().utilization, before_weekly);
}

fn synth(util: f64) -> UsageResponse {
    UsageResponse {
        five_hour: Some(Window {
            utilization: d(util),
            resets_at: Some(at("2026-05-19T17:00:00Z")),
        }),
        seven_day: None,
        extra: Table::new(),
    }
}

#[test]
fn boundary_at_1_5_stays_fraction() {
    let mut r = synth(1.5);
    r.normalize_scale(&mut ScaleLatch::default());
    assert_eq!(f(r.five_hour.unwrap().utilization), 1.5);
}

#[test]
fn boundary_above_1_5_is_percentage() {
    let mut r = synth(1.51);
    r.normalize_scale(&mut ScaleLatch::default());
    assert!(close(f(r.five_hour.unwrap().utilization), 0.0151));
}

#[test]
fn normalizes_extra_per_model_fields_too() {
    let mut r = report(PERCENTAGE);
    r.normalize_scale(&mut ScaleLatch::default());
    match r.extra.get(&"seven_day_sonnet".to_string()).unwrap() {
        Extra::Object { utilization: Some(u), .. } => assert!(close(f(*u), 0.04)),
        other => panic!("{other:?}"),
    }
    assert!(matches!(r.extra.get(&"note".to_string()), Some(Extra::Other { window: None })));
}

#[test]
fn a_large_field_alone_latches() {
    let mut latch = ScaleLatch::default();
    let mut r = synth(0.5);
    r.extra.insert(
        "x".to_string(),
        Extra::Object { utilization: Some(d(40.0)), resets_at: None },
    );
    r.normalize_scale(&mut latch);
    assert!(latch.is_percentage());
    assert_eq!(f(r.five_hour.unwrap().utilization), 0.5 / 100.0);
}

#[test]
fn nan_utilization_is_left_untouched() {
    let mut latch = ScaleLatch::default();
    let mut r = synth(f64::NAN);
    r.normalize_scale(&mut latch);
    assert!(f(r.five_hour.unwrap().utilization).is_nan());
    assert!(!latch.is_percentage(), "NaN must not latch percentage mode");
}

#[test]
fn latch_makes_scale_detection_sticky() {
    let mut latch = ScaleLatch::default();
    let mut high = synth(2.0);
    high.normalize_scale(&mut latch);
    assert!(latch.is_percentage());
    assert!(close(f(high.five_hour.unwrap().utilization), 0.02));
    let mut low = synth(1.0);
    low.normalize_scale(&mut latch);
    assert!(close(f(low.five_hour.unwrap().utilization), 0.01));
}

#[test]
fn preseeded_latch_normalizes_first_low_reading() {
    let mut latch = ScaleLatch::new(true);
    let mut r = synth(1.0);
    r.normalize_scale(&mut latch);
    assert!(close(f(r.five_hour.unwrap().utilization), 0.01));
}

#[test]
fn per_model_skips_malformed_extra_entries() {
    let mut r = synth(0.5);
    for (name, body) in [
        ("seven_day_sonnet", r#"{"utilization": 0.04, "resets_at": "2026-05-19T17:00:00Z"}"#),
        ("seven_day_opus", r#"{"utilization": 0.10, "resets_at": null}"#),
        ("seven_day_borked", r#"{"utilization": "nope"}"#),
        ("seven_day_string", r#""nope""#),
    ] {
        let v: Value = serde_json::from_str(body).unwrap();
        r.extra.insert(name.to_string(), extra_of(&v));
    }
    let per_model = r.per_model();
    let labels: Vec<&str> = per_model.iter().map(|(k, _)| k.as_str()).collect();
    assert_eq!(labels, vec!["Opus", "Sonnet"]);
    assert_eq!(per_model[1].1.resets_at, Some(at("2026-05-19T17:00:00Z")));
}

#[test]
fn per_model_ignores_other_fields_and_bad_times() {
    let mut r = synth(0.5);
    let whole = Extra::Object { utilization: Some(d(0.1)), resets_at: Some(None) };
    r.extra.insert("sonnet".to_string(), whole);
    r.extra.insert("seven_day".to_string(), whole);
    r.extra.insert(
        "seven_day_late".to_string(),
        Extra::Object { utilization: Some(d(0.1)), resets_at: None },
    );
    r.extra.insert(
        "seven_day_list".to_string(),
        Extra::Other { window: Some(Window { utilization: d(0.3), resets_at: None }) },
    );
    r.extra.insert("seven_day_".to_string(), whole);
    let names: Vec<String> = r.per_model().into_iter().map(|m| m.0).collect();
    assert_eq!(names, vec!["", "List"]);
}

#[test]
fn unauthorized_401() {
    let err = reply_error(401, None).unwrap();
    assert!(matches!(err, FetchError::Unauthorized));
    assert_eq!(err.message(), "unauthorized — token expired or revoked");
}

#[test]
fn rate_limited_429_with_retry_after() {
    match reply_error(429, Some("120")).unwrap() {
        FetchError::RateLimited { retry_after } => assert_eq!(retry_after, Some(120)),
        other => panic!("expected RateLimited, got {other:?}"),
    }
}

#[test]
fn rate_limited_429_no_retry_after() {
    let err = reply_error(429, None).unwrap();
    assert!(matches!(err, FetchError::RateLimited { retry_after: None }));
    assert_eq!(err.message(), "rate limited (retry after None)");
}

#[test]
fn server_error_5xx() {
    let err = reply_error(503, None).unwrap();
    assert!(matches!(err, FetchError::Server(503)));
    assert_eq!(err.message(), "server error: HTTP 503");
}

#[test]
fn happy_path_200() {
    assert!(reply_error(200, None).is_none());
    let mut latch = ScaleLatch::default();
    let resp = take_report(Ok(report(NOMINAL)), &mut latch).unwrap();
    assert!(resp.five_hour.is_some());
    let scaled = take_report(Ok(report(PERCENTAGE)), &mut latch).unwrap();
    assert!(latch.is_percentage());
    assert_eq!(f(scaled.five_hour.unwrap().utilization), 21.0 / 100.0);
}

#[test]
fn malformed_body_is_decode_error() {
    let mut latch = ScaleLatch::default();
    let why = serde_json::from_str::<Value>("not json").unwrap_err().to_string();
    let err = take_report(Err(why.clone()), &mut latch).unwrap_err();
    assert!(matches!(err, FetchError::Decode(m) if m == why));
    assert!(!latch.is_percentage());
}

#[test]
fn success_is_no_error() {
    assert!(reply_error(200, None).is_none());
    assert!(reply_error(299, Some("5")).is_none());
    assert!(matches!(reply_error(300, None), Some(FetchError::Server(300))));
    assert!(matches!(reply_error(199, None), Some(FetchError::Server(199))));
}

#[test]
fn retry_after_is_read_as_a_number() {
    let words = [
        "0", "7", "+7", "-7", "", "+", "1.5", " 3", "18446744073709551615", "18446744073709551616",
        "00000000000000000000000000000012", "99999999999999999999999", "١",
    ];
    for w in words {
        match reply_error(429, Some(w)).unwrap() {
            FetchError::RateLimited { retry_after } => {
                assert_eq!(retry_after, w.parse::<u64>().ok(), "{w}")
            }
            other => panic!("{other:?}"),
        }
    }
}

#[test]
fn messages_show_durations_as_std_does() {
    for n in [0u64, 1, 120, u64::MAX] {
        let shown = Some(std::time::Duration::from_secs(n));
        let err = FetchError::RateLimited { retry_after: Some(n) };
        assert_eq!(err.message(), format!("rate limited (retry after {shown:?})"));
    }
    assert_eq!(FetchError::Network("x".to_string()).message(), "network error: x");
    assert_eq!(FetchError::Decode("x".to_string()).message(), "decode error: x");
}

#[test]
fn address_of_the_endpoint() {
    assert_eq!(usage_url(BASE_URL), "https://api.anthropic.com/api/oauth/usage");
}

#[test]
fn the_latch_stays_set() {
    let report = |x: f64| UsageResponse {
        five_hour: Some(Window { utilization: Double::from_bits(x.to_bits()), resets_at: None }),
        seven_day: None,
        extra: Table::new(),
    };
    let mut latch = ScaleLatch::new(false);
    let mut seen = Vec::new();
    for x in [0.5, 1.5, 21.0, 0.5, 1.0] {
        let mut r = report(x);
        r.normalize_scale(&mut latch);
        seen.push((latch.is_percentage(), f64::from_bits(r.five_hour.unwrap().utilization.bits)));
    }
    assert_eq!(seen, vec![(false, 0.5), (false, 1.5), (true, 0.21), (true, 0.005), (true, 0.01)]);
}

#[test]
fn plain_names_are_capitalized() {
    assert_eq!(humanize_model("a_bc__d"), "A Bc  D");
    assert_eq!(humanize_model("_x"), " X");
    assert_eq!(humanize_model(""), "");
    assert_eq!(humanize_model("4o_Mini_-x_~"), "4o Mini -x ~");
}
