use chrono::{TimeZone, Utc};
use claude_o_meter::api::{FetchError, UsageResponse};
use claude_o_meter::clock::Timestamp;
use claude_o_meter::credentials::{
    keychain_error, parse_blob, service, CredError, OauthBlob, StoredCreds,
};
use claude_o_meter::double::Double;
use claude_o_meter::poller::{
    token_for_poll, without_credentials, without_report, PollError, PollEvent, Schedule, MAX_DELAY, MIN_DELAY,
};
use claude_o_meter::settings::{Settings, SettingsFile, StoredSettings};
use claude_o_meter::table::Table;
use serde_json::Value;

fn stamp(t: chrono::DateTime<Utc>) -> Timestamp {
    Timestamp::new(t.timestamp(), t.timestamp_subsec_nanos()).unwrap()
}

/// The name of the product: the first word of the package's name.
fn product() -> &'static str {
    "claude_o_meter".split('_').next().unwrap()
}

fn title() -> String {
    let name = product();
    format!("{}{}", name[..1].to_uppercase(), &name[1..])
}

fn blob_of(bytes: &[u8]) -> Result<OauthBlob, String> {
    let v: Value = serde_json::from_slice(bytes).map_err(|e| e.to_string())?;
    let inner = v.get("claudeAiOauth").ok_or("missing field `claudeAiOauth`")?;
    let token = inner.get("accessToken").and_then(|t| t.as_str());
    let millis = inner.get("expiresAt").and_then(|t| t.as_i64());
    Ok(OauthBlob {
        access_token: token.ok_or("missing field `accessToken`")?.to_string(),
        expires_at: millis.ok_or("missing field `expiresAt`")?,
    })
}

#[test]
fn parses_nominal_blob() {
    let blob = br#"{
        "claudeAiOauth": {
            "accessToken": "sk-ant-oat01-test",
            "expiresAt": 1779984000000,
            "refreshToken": "sk-ant-ort01-test"
        }
    }"#;
    let creds = parse_blob(blob_of(blob)).unwrap();
    assert_eq!(creds.access_token, "sk-ant-oat01-test");
    assert_eq!(creds.expires_at.secs() * 1000, 1779984000000);
    assert_eq!(creds.expires_at.nanos(), 0);
}

#[test]
fn ignores_extra_fields() {
    let blob = br#"{
        "claudeAiOauth": {
            "accessToken": "tok",
            "expiresAt": 1779984000000,
            "scopes": ["user:inference"]
        },
        "version": 2
    }"#;
    assert!(parse_blob(blob_of(blob)).is_ok());
}

#[test]
fn malformed_returns_error() {
    assert!(matches!(parse_blob(blob_of(b"not json")), Err(CredError::Malformed(_))));
}

#[test]
fn missing_field_returns_error() {
    let blob = br#"{"claudeAiOauth": {"accessToken": "x"}}"#;
    assert!(matches!(parse_blob(blob_of(blob)), Err(CredError::Malformed(_))));
}

#[test]
fn expiry_out_of_range_is_malformed() {
    let blob = OauthBlob { access_token: "x".to_string(), expires_at: i64::MAX };
    match parse_blob(Ok(blob)) {
        Err(CredError::Malformed(why)) => assert_eq!(why, "expiresAt out of range"),
        other => panic!("{other:?}"),
    }
}

#[test]
fn instants_of_milliseconds() {
    for ms in [0i64, 1, -1, 999, -999, 1000, -1000, 1779984000123, -62135596800001] {
        let ours = Timestamp::from_millis(ms).unwrap();
        assert_eq!(ours, stamp(Utc.timestamp_millis_opt(ms).single().unwrap()));
    }
    assert!(Timestamp::from_millis(i64::MIN).is_none());
}

#[test]
fn expiry_check_with_margin() {
    let creds = StoredCreds {
        access_token: "x".into(),
        expires_at: stamp(Utc.with_ymd_and_hms(2026, 5, 19, 12, 0, 0).unwrap()),
    };
    let inside_margin = stamp(Utc.with_ymd_and_hms(2026, 5, 19, 11, 59, 30).unwrap());
    let outside_margin = stamp(Utc.with_ymd_and_hms(2026, 5, 19, 11, 58, 0).unwrap());
    let after = stamp(Utc.with_ymd_and_hms(2026, 5, 19, 12, 5, 0).unwrap());
    assert!(creds.is_expired(inside_margin), "inside 60s margin -> expired");
    assert!(!creds.is_expired(outside_margin), "outside margin -> valid");
    assert!(creds.is_expired(after));
    let edge = stamp(Utc.with_ymd_and_hms(2026, 5, 19, 11, 59, 0).unwrap());
    assert!(creds.is_expired(edge));
}

#[test]
fn keychain_codes() {
    assert!(matches!(keychain_error(-25300, "e"), CredError::NotFound));
    assert!(matches!(keychain_error(-128, "e"), CredError::AccessDenied));
    assert!(matches!(keychain_error(-25293, "e"), CredError::AccessDenied));
    match keychain_error(-1, "odd") {
        CredError::Other(why) => assert_eq!(why, "odd (code=-1)"),
        other => panic!("{other:?}"),
    }
    match keychain_error(i32::MIN, "") {
        CredError::Other(why) => assert_eq!(why, " (code=-2147483648)"),
        other => panic!("{other:?}"),
    }
}

#[test]
fn credential_messages() {
    assert_eq!(
        CredError::NotFound.message(),
        format!("Keychain entry not found — run `{} login`", product())
    );
    assert_eq!(service(), format!("{} Code-credentials", title()));
    assert_eq!(CredError::AccessDenied.message(), "Keychain access denied");
    assert_eq!(
        CredError::Malformed("x".to_string()).message(),
        "Keychain returned malformed JSON: x"
    );
    assert_eq!(CredError::Other("x".to_string()).message(), "Keychain error: x");
}

#[test]
fn errors_of_a_poll() {
    assert!(matches!(without_credentials(CredError::NotFound), PollError::AuthRequired));
    assert!(matches!(without_credentials(CredError::AccessDenied), PollError::AuthRequired));
    match without_credentials(CredError::Other("x".to_string())) {
        PollError::Transient(m) => assert_eq!(m, "Keychain error: x"),
        other => panic!("{other:?}"),
    }
    assert!(matches!(without_report(FetchError::Unauthorized), PollError::AuthRequired));
    assert!(matches!(
        without_report(FetchError::RateLimited { retry_after: Some(3) }),
        PollError::RateLimited { retry_after: Some(3) }
    ));
    match without_report(FetchError::Server(500)) {
        PollError::Transient(m) => assert_eq!(m, "server error: HTTP 500"),
        other => panic!("{other:?}"),
    }
}

#[test]
fn a_poll_needs_a_token_that_holds() {
    let expires_at = stamp(Utc.with_ymd_and_hms(2026, 5, 19, 12, 0, 0).unwrap());
    let creds = || StoredCreds { access_token: "tok".to_string(), expires_at };
    let early = stamp(Utc.with_ymd_and_hms(2026, 5, 19, 11, 0, 0).unwrap());
    assert_eq!(token_for_poll(Ok(creds()), early).unwrap(), "tok");
    assert!(matches!(token_for_poll(Ok(creds()), expires_at), Err(PollError::AuthRequired)));
    let gone = token_for_poll(Err(CredError::NotFound), early);
    assert!(matches!(gone, Err(PollError::AuthRequired)));
    match token_for_poll(Err(CredError::Malformed("x".to_string())), early) {
        Err(PollError::Transient(m)) => assert_eq!(m, "Keychain returned malformed JSON: x"),
        other => panic!("{other:?}"),
    }
}

fn empty() -> UsageResponse {
    UsageResponse { five_hour: None, seven_day: None, extra: Table::new() }
}

#[test]
fn backoff_doubles_up_to_half_an_hour() {
    let mut s = Schedule::new(100);
    assert_eq!(s.next_delay, 0);
    let mut waits = Vec::new();
    for _ in 0..7 {
        let e = s.step(Err(PollError::RateLimited { retry_after: None }));
        assert!(matches!(e, PollEvent::Error(m) if m == "rate limited"));
        waits.push(s.next_delay);
    }
    assert_eq!(waits, vec![200, 400, 800, 1600, 1800, 1800, 1800]);
    assert_eq!(s.consecutive_429, 7);
    assert!(matches!(s.step(Ok(empty())), PollEvent::Updated(_)));
    assert_eq!((s.consecutive_429, s.next_delay), (0, 100));
}

#[test]
fn waits_are_floored_and_capped() {
    let mut s = Schedule::new(1);
    s.step(Err(PollError::RateLimited { retry_after: Some(0) }));
    assert_eq!(s.next_delay, MIN_DELAY);
    s.step(Err(PollError::RateLimited { retry_after: Some(500) }));
    assert_eq!(s.next_delay, 500);
    s.step(Err(PollError::RateLimited { retry_after: Some(u64::MAX) }));
    assert_eq!(s.next_delay, MAX_DELAY);
    assert!(matches!(s.step(Err(PollError::AuthRequired)), PollEvent::AuthRequired));
    assert_eq!((s.consecutive_429, s.next_delay), (0, 60));
    let e = s.step(Err(PollError::Transient("x".to_string())));
    assert!(matches!(e, PollEvent::Error(m) if m == "x"));
    assert_eq!(s.next_delay, 60);
    s.step(Ok(empty()));
    assert_eq!(s.next_delay, 1);
    let mut t = Schedule::new(u64::MAX);
    t.step(Err(PollError::RateLimited { retry_after: None }));
    assert_eq!(t.next_delay, MAX_DELAY);
    t.step(Err(PollError::AuthRequired));
    assert_eq!(t.next_delay, u64::MAX);
}

#[test]
fn defaults_are_sane() {
    let s = Settings::default();
    assert!(s.refresh_secs >= 60);
    assert!(!s.thresholds.is_empty());
    assert_eq!(s.refresh_secs, 420);
    assert_eq!(s.idle_refresh_secs, 1200);
    let levels: Vec<f64> = s.thresholds.iter().map(|t| f64::from_bits(t.bits)).collect();
    assert_eq!(levels, vec![0.75, 0.90, 0.95]);
    assert_eq!(f64::from_bits(s.spike_threshold_per_min.bits), 0.02);
    assert!(s.notify_spike && !s.notify_spike_weekly && !s.percentage_scale);
}

#[test]
fn malformed_settings_are_put_aside() {
    let (s, backup) = Settings::load(SettingsFile::Malformed);
    assert!(backup);
    assert_eq!(s.refresh_secs, 420);
    assert!(!Settings::load(SettingsFile::Unavailable).1);
    let mine = Settings { refresh_secs: 7, ..Settings::default() };
    let (kept, backup) = Settings::load(SettingsFile::Parsed(mine.to_stored()));
    assert_eq!(kept.refresh_secs, 7);
    assert!(!backup);
}

fn double(v: &Value) -> Double {
    Double::from_bits(v.as_f64().unwrap().to_bits())
}

/// The settings of a file with this content.
fn stored(json: &str) -> StoredSettings {
    let v: Value = serde_json::from_str(json).unwrap();
    let flag = |key: &str| v.get(key).map(|x| x.as_bool().unwrap());
    StoredSettings {
        refresh_secs: v["refresh_secs"].as_u64().unwrap(),
        idle_refresh_secs: v["idle_refresh_secs"].as_u64().unwrap(),
        notify_session: flag("notify_session").unwrap(),
        notify_weekly: flag("notify_weekly").unwrap(),
        thresholds: v["thresholds"].as_array().unwrap().iter().map(double).collect(),
        notify_spike: flag("notify_spike"),
        notify_spike_weekly: flag("notify_spike_weekly"),
        spike_threshold_per_min: v.get("spike_threshold_per_min").map(double),
        percentage_scale: flag("percentage_scale"),
    }
}

/// The content of a file that these settings are saved to.
fn json_of(s: &StoredSettings) -> String {
    let float = |x: &Double| f64::from_bits(x.bits);
    let mut map = serde_json::Map::new();
    map.insert("refresh_secs".to_string(), s.refresh_secs.into());
    map.insert("idle_refresh_secs".to_string(), s.idle_refresh_secs.into());
    map.insert("notify_session".to_string(), s.notify_session.into());
    map.insert("notify_weekly".to_string(), s.notify_weekly.into());
    let levels: Vec<Value> = s.thresholds.iter().map(|t| float(t).into()).collect();
    map.insert("thresholds".to_string(), Value::Array(levels));
    map.insert("notify_spike".to_string(), s.notify_spike.unwrap().into());
    map.insert("notify_spike_weekly".to_string(), s.notify_spike_weekly.unwrap().into());
    let rate = s.spike_threshold_per_min.as_ref().map(float).unwrap();
    map.insert("spike_threshold_per_min".to_string(), rate.into());
    map.insert("percentage_scale".to_string(), s.percentage_scale.unwrap().into());
    Value::Object(map).to_string()
}

const EARLY: &str = r#"{
    "refresh_secs": 420,
    "idle_refresh_secs": 1200,
    "notify_session": true,
    "notify_weekly": true,
    "thresholds": [0.75, 0.9, 0.95]
}"#;

#[test]
fn round_trip_json() {
    let s = Settings::default();
    let json = json_of(&s.to_stored());
    let (back, backup) = Settings::load(SettingsFile::Parsed(stored(&json)));
    assert!(!backup);
    assert_eq!(s.refresh_secs, back.refresh_secs);
    assert_eq!(s.thresholds, back.thresholds);
    assert_eq!(s.notify_spike, back.notify_spike);
    assert_eq!(s.notify_spike_weekly, back.notify_spike_weekly);
    assert_eq!(s.spike_threshold_per_min, back.spike_threshold_per_min);
    assert_eq!(s.percentage_scale, back.percentage_scale);
    assert_eq!(format!("{:?}", s.clone()), format!("{back:?}"));
}

#[test]
fn missing_percentage_scale_defaults_to_false() {
    let s = Settings::from_stored(stored(EARLY));
    assert!(!s.percentage_scale);
}

#[test]
fn missing_spike_keys_deserialize_to_defaults() {
    let s = Settings::from_stored(stored(EARLY));
    assert!(s.notify_spike);
    assert!(!s.notify_spike_weekly);
    assert_eq!(f64::from_bits(s.spike_threshold_per_min.bits), 0.02);
}
