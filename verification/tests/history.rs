use chrono::{DateTime, Datelike, NaiveDate, Utc};
use claude_o_meter::clock::Timestamp;
use claude_o_meter::history::{
    is_transcript, prompts_since, short_name, Aggregates, ProjectTotals, PromptStat, Scanned, Totals,
};
use claude_o_meter::menu::can_show;
use claude_o_meter::table::{FilePath, Table};
use claude_o_meter::transcript::{
    extract_prompt_text, parse_file, parse_if_fits, pick_heaviest, tally, Block, Content, FileEntry, Line, Message,
    UsageBlock, PER_FILE_PROMPTS,
};
use serde_json::Value;

fn stamp(t: DateTime<Utc>) -> Timestamp {
    Timestamp::new(t.timestamp(), t.timestamp_subsec_nanos()).unwrap()
}

fn at(text: &str) -> Timestamp {
    stamp(text.parse::<DateTime<Utc>>().unwrap())
}

fn text_of(v: Option<&Value>) -> Option<String> {
    v.and_then(|x| x.as_str()).map(|s| s.to_string())
}

fn content_of(v: &Value) -> Content {
    match v {
        Value::String(s) => Content::Text(s.clone()),
        Value::Array(blocks) => Content::Blocks(
            blocks
                .iter()
                .map(|b| Block { kind: text_of(b.get("type")), text: text_of(b.get("text")) })
                .collect(),
        ),
        _ => Content::Other,
    }
}

fn line_of(text: &str) -> Option<Line> {
    let v: Value = serde_json::from_str(text).ok()?;
    let message = v.get("message").map(|m| Message {
        usage: m.get("usage").map(|u| {
            let n = |key: &str| u.get(key).and_then(|x| x.as_u64());
            UsageBlock {
                input_tokens: n("input_tokens"),
                output_tokens: n("output_tokens"),
                cache_creation_input_tokens: n("cache_creation_input_tokens"),
                cache_read_input_tokens: n("cache_read_input_tokens"),
            }
        }),
        content: m.get("content").map(content_of),
    });
    Some(Line {
        kind: text_of(v.get("type")),
        timestamp: text_of(v.get("timestamp")).map(|t| at(&t)),
        read_at: at("2026-05-21T00:00:00Z"),
        cwd: text_of(v.get("cwd")),
        is_sidechain: v.get("isSidechain").and_then(|x| x.as_bool()).unwrap_or(false),
        message,
    })
}

fn lines_of(lines: &[&str]) -> Vec<Line> {
    lines.iter().filter_map(|l| line_of(l)).collect()
}

fn path(text: &str) -> FilePath {
    FilePath::new(text.as_bytes().to_vec())
}

/// A directory of transcripts: name, time of the last change, lines.
type Dir<'a> = Vec<(&'a str, i128, Vec<&'a str>)>;

fn refresh(agg: &mut Aggregates, dir: &Dir) -> bool {
    let mut found = Vec::new();
    for (name, mtime, lines) in dir {
        let path = self::path(&format!("/t/{name}"));
        let entry = if agg.is_stale(&path, *mtime) {
            Some(parse_file(&lines_of(lines), *mtime))
        } else {
            None
        };
        found.push(Scanned { path, mtime: *mtime, entry });
    }
    agg.refresh(Some(found), at("2026-05-22T12:00:00Z"))
}

fn day(y: i32, m: u32, d: u32) -> i32 {
    NaiveDate::from_ymd_opt(y, m, d).unwrap().num_days_from_ce()
}

fn project(agg: &Aggregates, name: &str) -> Option<u64> {
    agg.by_project.get(&name.to_string()).map(|p| p.total)
}

#[test]
fn parses_assistant_token_counts() {
    let mut agg = Aggregates::default();
    refresh(
        &mut agg,
        &vec![(
            "s1.jsonl",
            1,
            vec![
                r#"{"type":"user","message":{"content":"hi"}}"#,
                r#"{"type":"assistant","timestamp":"2026-05-19T08:00:00Z","cwd":"/Users/a/proj","message":{"usage":{"input_tokens":100,"output_tokens":200,"cache_creation_input_tokens":10,"cache_read_input_tokens":50}}}"#,
                r#"{"type":"assistant","timestamp":"2026-05-19T09:00:00Z","cwd":"/Users/a/proj","message":{"usage":{"input_tokens":50,"output_tokens":100}}}"#,
            ],
        )],
    );
    assert_eq!(agg.scanned_files, 1);
    assert_eq!(project(&agg, "/Users/a/proj").unwrap(), 100 + 200 + 10 + 50 + 50 + 100);
}

#[test]
fn skips_user_messages_and_malformed_lines() {
    let mut agg = Aggregates::default();
    refresh(
        &mut agg,
        &vec![(
            "s.jsonl",
            1,
            vec![
                "not json at all",
                r#"{"type":"user"}"#,
                r#"{"type":"assistant","timestamp":"2026-05-19T08:00:00Z","cwd":"/p","message":{"usage":{"input_tokens":1,"output_tokens":2}}}"#,
            ],
        )],
    );
    assert_eq!(project(&agg, "/p").unwrap(), 3);
}

#[test]
fn incremental_refresh_replaces_changed_file() {
    let mut agg = Aggregates::default();
    refresh(
        &mut agg,
        &vec![(
            "s.jsonl",
            1,
            vec![r#"{"type":"assistant","timestamp":"2026-05-19T08:00:00Z","cwd":"/p","message":{"usage":{"input_tokens":100}}}"#],
        )],
    );
    assert_eq!(project(&agg, "/p").unwrap(), 100);
    refresh(
        &mut agg,
        &vec![(
            "s.jsonl",
            2,
            vec![r#"{"type":"assistant","timestamp":"2026-05-19T08:00:00Z","cwd":"/p","message":{"usage":{"input_tokens":500}}}"#],
        )],
    );
    assert_eq!(project(&agg, "/p").unwrap(), 500);
}

const A: &str = r#"{"type":"assistant","timestamp":"2026-05-19T08:00:00Z","cwd":"/x","message":{"usage":{"input_tokens":10}}}"#;
const B: &str = r#"{"type":"assistant","timestamp":"2026-05-19T08:00:00Z","cwd":"/y","message":{"usage":{"input_tokens":20}}}"#;

#[test]
fn removed_files_are_tombstoned_not_dropped() {
    let mut agg = Aggregates::default();
    refresh(&mut agg, &vec![("a.jsonl", 1, vec![A]), ("b.jsonl", 1, vec![B])]);
    assert_eq!(agg.scanned_files, 2);
    assert_eq!(agg.tombstoned_count(), 0);
    refresh(&mut agg, &vec![("b.jsonl", 1, vec![B])]);
    assert_eq!(agg.scanned_files, 1);
    assert_eq!(agg.tombstoned_count(), 1);
    assert!(project(&agg, "/x").is_some());
    assert!(project(&agg, "/y").is_some());
    assert_eq!(project(&agg, "/x").unwrap(), 10);
}

#[test]
fn purge_tombstoned_drops_only_dead_entries() {
    let mut agg = Aggregates::default();
    refresh(&mut agg, &vec![("a.jsonl", 1, vec![A]), ("b.jsonl", 1, vec![B])]);
    refresh(&mut agg, &vec![("b.jsonl", 1, vec![B])]);
    let purged = agg.purge_tombstoned();
    assert_eq!(purged, 1);
    assert_eq!(agg.tombstoned_count(), 0);
    assert!(project(&agg, "/x").is_none());
    assert!(project(&agg, "/y").is_some());
    assert_eq!(agg.scanned_files, 1);
    assert_eq!(agg.purge_tombstoned(), 0);
}

#[test]
fn re_appearing_file_clears_tombstone() {
    let mut agg = Aggregates::default();
    refresh(&mut agg, &vec![("a.jsonl", 1, vec![A])]);
    refresh(&mut agg, &vec![]);
    assert_eq!(agg.tombstoned_count(), 1);
    refresh(
        &mut agg,
        &vec![(
            "a.jsonl",
            2,
            vec![r#"{"type":"assistant","timestamp":"2026-05-20T08:00:00Z","cwd":"/x","message":{"usage":{"input_tokens":500}}}"#],
        )],
    );
    assert_eq!(agg.tombstoned_count(), 0);
    assert_eq!(project(&agg, "/x").unwrap(), 500);
}

#[test]
fn a_file_that_is_back_unchanged_is_read_again() {
    let mut agg = Aggregates::default();
    refresh(&mut agg, &vec![("a.jsonl", 1, vec![A])]);
    refresh(&mut agg, &vec![]);
    let path = self::path("/t/a.jsonl");
    assert!(agg.is_stale(&path, 1));
    assert!(refresh(&mut agg, &vec![("a.jsonl", 1, vec![A])]));
    assert!(!agg.is_stale(&path, 1));
    assert!(agg.is_stale(&path, 2));
}

#[test]
fn second_scan_finds_nothing_new() {
    let mut agg = Aggregates::default();
    let dir = vec![("a.jsonl", 1, vec![A]), ("b.jsonl", 1, vec![B])];
    assert!(refresh(&mut agg, &dir));
    assert_eq!(agg.last_scanned_at, Some(at("2026-05-22T12:00:00Z")));
    assert!(!refresh(&mut agg, &dir));
}

#[test]
fn an_empty_history_has_nothing_to_show() {
    let mut agg = Aggregates::default();
    assert!(!agg.has_data());
    refresh(&mut agg, &vec![("a.jsonl", 1, vec![])]);
    assert!(agg.has_data());
    let days = agg_with_days(&[(day(2026, 5, 1), 1)]);
    assert!(days.has_data());
}

#[test]
fn unreadable_file_is_seen_but_not_taken_in() {
    let mut agg = Aggregates::default();
    refresh(&mut agg, &vec![("a.jsonl", 1, vec![A])]);
    let found = vec![Scanned {
        path: path("/t/a.jsonl"),
        mtime: 9,
        entry: None,
    }];
    assert!(!agg.refresh(Some(found), at("2026-05-23T12:00:00Z")));
    assert_eq!(agg.tombstoned_count(), 0);
    assert_eq!(project(&agg, "/x"), Some(10));
}

#[test]
fn top_projects_returns_n_sorted_desc() {
    let mut agg = Aggregates::default();
    refresh(
        &mut agg,
        &vec![
            ("a.jsonl", 1, vec![r#"{"type":"assistant","timestamp":"2026-05-19T08:00:00Z","cwd":"/small","message":{"usage":{"input_tokens":10}}}"#]),
            ("b.jsonl", 1, vec![r#"{"type":"assistant","timestamp":"2026-05-19T08:00:00Z","cwd":"/big","message":{"usage":{"input_tokens":1000}}}"#]),
            ("c.jsonl", 1, vec![r#"{"type":"assistant","timestamp":"2026-05-19T08:00:00Z","cwd":"/medium","message":{"usage":{"input_tokens":100}}}"#]),
        ],
    );
    let top = agg.top_projects(2, None);
    assert_eq!(top.len(), 2);
    assert_eq!(top[0].0, "/big");
    assert_eq!(top[1].0, "/medium");
}

#[test]
fn windowed_projects_get_the_recent_share() {
    let mut agg = Aggregates::default();
    refresh(
        &mut agg,
        &vec![(
            "a.jsonl",
            1,
            vec![
                r#"{"type":"assistant","timestamp":"2026-05-01T12:00:00Z","cwd":"/p","message":{"usage":{"input_tokens":300}}}"#,
                r#"{"type":"assistant","timestamp":"2026-05-20T12:00:00Z","cwd":"/q","message":{"usage":{"input_tokens":100}}}"#,
            ],
        )],
    );
    // A quarter of the file is recent: 75 of 300 and 25 of 100.
    let top = agg.top_projects(8, Some(day(2026, 5, 10)));
    assert_eq!(top, vec![("/p".to_string(), 75), ("/q".to_string(), 25)]);
    assert!(agg.top_projects(8, Some(day(2026, 6, 10))).is_empty());
    assert_eq!(agg.top_projects(1, None), vec![("/p".to_string(), 300)]);
}

#[test]
fn equal_projects_are_listed_by_name() {
    let mut agg = Aggregates::default();
    for name in ["/c", "/a", "/b"] {
        agg.by_project.insert(name.to_string(), ProjectTotals { total: 5, last_used: None });
    }
    let names: Vec<String> = agg.top_projects(3, None).into_iter().map(|p| p.0).collect();
    assert_eq!(names, vec!["/a", "/b", "/c"]);
}

#[test]
fn last_n_days_pads_missing_days_with_zero() {
    let mut agg = Aggregates::default();
    refresh(
        &mut agg,
        &vec![(
            "s.jsonl",
            1,
            vec![r#"{"type":"assistant","timestamp":"2026-05-19T08:00:00Z","cwd":"/p","message":{"usage":{"input_tokens":1}}}"#],
        )],
    );
    let today = day(2026, 5, 22);
    let days = agg.last_n_days(7, today);
    assert_eq!(days.len(), 7);
    assert_eq!(days.last().unwrap().0, today);
    assert_eq!(days.last().unwrap().1.sum(), 0);
    assert_eq!(days.iter().map(|d| d.1.sum()).sum::<u64>(), 1);
    assert_eq!(days[0].0, day(2026, 5, 16));
}

fn agg_with_days(days: &[(i32, u64)]) -> Aggregates {
    let mut agg = Aggregates::default();
    for (d, n) in days {
        agg.by_day.insert(*d, Totals { input: *n, ..Default::default() });
    }
    agg
}

#[test]
fn monthly_projection_extrapolates_to_month_end() {
    let agg = agg_with_days(&[(day(2026, 5, 1), 100), (day(2026, 5, 2), 100)]);
    let (current, projected) = agg.current_month_total_and_projection(day(2026, 5, 2));
    assert_eq!(current, 200);
    assert_eq!(projected, 200 * 31 / 2);
}

#[test]
fn monthly_projection_excludes_prior_months() {
    let agg = agg_with_days(&[(day(2026, 4, 30), 99_999), (day(2026, 5, 1), 50)]);
    let (current, _) = agg.current_month_total_and_projection(day(2026, 5, 1));
    assert_eq!(current, 50);
}

#[test]
fn monthly_projection_zero_when_no_data() {
    let agg = Aggregates::default();
    assert_eq!(agg.current_month_total_and_projection(day(2026, 5, 15)), (0, 0));
}

#[test]
fn monthly_projection_handles_december_rollover() {
    let agg = agg_with_days(&[(day(2026, 12, 1), 100)]);
    let (current, projected) = agg.current_month_total_and_projection(day(2026, 12, 1));
    assert_eq!(current, 100);
    assert_eq!(projected, 100 * 31);
}

#[test]
fn monthly_projection_february_non_leap() {
    let agg = agg_with_days(&[(day(2026, 2, 14), 140)]);
    let (current, projected) = agg.current_month_total_and_projection(day(2026, 2, 14));
    assert_eq!(current, 140);
    assert_eq!(projected, 280);
}

#[test]
fn monthly_projection_february_leap() {
    let agg = agg_with_days(&[(day(2028, 2, 1), 10)]);
    assert_eq!(agg.current_month_total_and_projection(day(2028, 2, 1)), (10, 290));
    assert_eq!(agg.current_month_total_and_projection(day(2028, 2, 29)), (10, 10));
}

#[test]
fn last_month_of_all_has_no_figures() {
    let last = NaiveDate::MAX.num_days_from_ce();
    let agg = agg_with_days(&[(last, 10)]);
    assert_eq!(agg.current_month_total_and_projection(last), (0, 0));
}

#[test]
fn month_product_saturates() {
    let agg = agg_with_days(&[(day(2026, 5, 1), u64::MAX)]);
    let (current, projected) = agg.current_month_total_and_projection(day(2026, 5, 2));
    assert_eq!(current, u64::MAX);
    assert_eq!(projected, u64::MAX / 2);
}

#[test]
fn short_name_disambiguates_on_collision() {
    assert_eq!(short_name("/Users/a/proj", &["/Users/a/proj"]), "proj");
    assert_eq!(short_name("/Users/a/proj", &["/Users/a/proj", "/Users/b/proj"]), "a/proj");
}

#[test]
fn short_name_edge_cases() {
    assert_eq!(short_name("proj", &["proj", "/b/proj"]), "proj");
    assert_eq!(short_name("/proj", &["/proj", "/b/proj"]), "proj");
    assert_eq!(short_name("a/proj", &["a/proj", "b/proj"]), "a/proj");
    assert_eq!(short_name("", &[]), "");
    assert_eq!(short_name("/a/", &["/b/"]), "a/");
}

#[test]
fn transcripts_are_told_by_their_name() {
    assert!(is_transcript("s.jsonl"));
    assert!(is_transcript("..jsonl"));
    assert!(!is_transcript(".jsonl"));
    assert!(!is_transcript("s.json"));
    assert!(!is_transcript("s.jsonl.bak"));
    for name in ["a.jsonl", ".jsonl", "..jsonl", "jsonl", "a.b.jsonl", "a.JSONL", "é.jsonl"] {
        let ext = std::path::Path::new(name).extension().and_then(|e| e.to_str());
        assert_eq!(is_transcript(name), ext == Some("jsonl"), "{name}");
    }
}

#[test]
fn prompt_attribution_sums_assistant_tokens_per_turn() {
    let mut agg = Aggregates::default();
    refresh(
        &mut agg,
        &vec![(
            "s.jsonl",
            1,
            vec![
                r#"{"type":"user","timestamp":"2026-05-19T08:00:00Z","cwd":"/p","message":{"content":"cheap prompt"}}"#,
                r#"{"type":"assistant","timestamp":"2026-05-19T08:00:01Z","cwd":"/p","message":{"usage":{"output_tokens":30}}}"#,
                r#"{"type":"user","timestamp":"2026-05-19T09:00:00Z","cwd":"/p","message":{"content":"expensive prompt"}}"#,
                r#"{"type":"assistant","timestamp":"2026-05-19T09:00:01Z","cwd":"/p","message":{"usage":{"input_tokens":100,"output_tokens":200}}}"#,
                r#"{"type":"assistant","timestamp":"2026-05-19T09:00:02Z","cwd":"/p","message":{"usage":{"output_tokens":50}}}"#,
            ],
        )],
    );
    let top = agg.top_prompts(5, None);
    assert_eq!(top.len(), 2);
    assert_eq!(top[0].text, "expensive prompt");
    assert_eq!(top[0].tokens, 100 + 200 + 50);
    assert_eq!(top[0].project, "/p");
    assert_eq!(top[1].text, "cheap prompt");
    assert_eq!(top[1].tokens, 30);
}

#[test]
fn tool_result_user_lines_are_not_prompts() {
    let mut agg = Aggregates::default();
    refresh(
        &mut agg,
        &vec![(
            "s.jsonl",
            1,
            vec![
                r#"{"type":"user","timestamp":"2026-05-19T08:00:00Z","cwd":"/p","message":{"content":"real prompt"}}"#,
                r#"{"type":"assistant","timestamp":"2026-05-19T08:00:01Z","cwd":"/p","message":{"usage":{"output_tokens":10}}}"#,
                r#"{"type":"user","timestamp":"2026-05-19T08:00:02Z","cwd":"/p","message":{"content":[{"type":"tool_result","content":"ok"}]}}"#,
                r#"{"type":"assistant","timestamp":"2026-05-19T08:00:03Z","cwd":"/p","message":{"usage":{"output_tokens":90}}}"#,
            ],
        )],
    );
    let top = agg.top_prompts(5, None);
    assert_eq!(top.len(), 1);
    assert_eq!(top[0].text, "real prompt");
    assert_eq!(top[0].tokens, 100);
}

#[test]
fn sidechain_lines_are_skipped_for_prompts() {
    let mut agg = Aggregates::default();
    refresh(
        &mut agg,
        &vec![(
            "s.jsonl",
            1,
            vec![
                r#"{"type":"user","timestamp":"2026-05-19T08:00:00Z","cwd":"/p","message":{"content":"top-level prompt"}}"#,
                r#"{"type":"user","isSidechain":true,"timestamp":"2026-05-19T08:00:01Z","cwd":"/p","message":{"content":"subagent prompt"}}"#,
                r#"{"type":"assistant","isSidechain":true,"timestamp":"2026-05-19T08:00:02Z","cwd":"/p","message":{"usage":{"output_tokens":500}}}"#,
                r#"{"type":"assistant","timestamp":"2026-05-19T08:00:03Z","cwd":"/p","message":{"usage":{"output_tokens":10}}}"#,
            ],
        )],
    );
    let top = agg.top_prompts(5, None);
    assert_eq!(top.len(), 1);
    assert_eq!(top[0].text, "top-level prompt");
    assert_eq!(top[0].tokens, 10);
    assert_eq!(project(&agg, "/p").unwrap(), 510);
}

#[test]
fn multi_block_text_and_image_prompt_is_captured() {
    let mut agg = Aggregates::default();
    refresh(
        &mut agg,
        &vec![(
            "s.jsonl",
            1,
            vec![
                r#"{"type":"user","timestamp":"2026-05-19T08:00:00Z","cwd":"/p","message":{"content":[{"type":"image","source":{}},{"type":"text","text":"describe this"}]}}"#,
                r#"{"type":"assistant","timestamp":"2026-05-19T08:00:01Z","cwd":"/p","message":{"usage":{"output_tokens":42}}}"#,
            ],
        )],
    );
    let top = agg.top_prompts(5, None);
    assert_eq!(top.len(), 1);
    assert_eq!(top[0].text, "describe this");
    assert_eq!(top[0].tokens, 42);
}

#[test]
fn top_prompts_respects_since_window() {
    let mut agg = Aggregates::default();
    refresh(
        &mut agg,
        &vec![(
            "s.jsonl",
            1,
            vec![
                r#"{"type":"user","timestamp":"2026-05-10T08:00:00Z","cwd":"/p","message":{"content":"old big prompt"}}"#,
                r#"{"type":"assistant","timestamp":"2026-05-10T08:00:01Z","cwd":"/p","message":{"usage":{"output_tokens":1000}}}"#,
                r#"{"type":"user","timestamp":"2026-05-20T08:00:00Z","cwd":"/p","message":{"content":"recent small prompt"}}"#,
                r#"{"type":"assistant","timestamp":"2026-05-20T08:00:01Z","cwd":"/p","message":{"usage":{"output_tokens":5}}}"#,
            ],
        )],
    );
    let recent = agg.top_prompts(5, Some(day(2026, 5, 15)));
    assert_eq!(recent.len(), 1);
    assert_eq!(recent[0].text, "recent small prompt");
    assert_eq!(agg.top_prompts(5, None)[0].text, "old big prompt");
}

#[test]
fn per_file_prompt_list_is_capped() {
    let mut lines: Vec<String> = Vec::new();
    for i in 0..(PER_FILE_PROMPTS + 5) {
        lines.push(format!(
            r#"{{"type":"user","timestamp":"2026-05-19T08:00:00Z","cwd":"/p","message":{{"content":"prompt {i}"}}}}"#
        ));
        lines.push(format!(
            r#"{{"type":"assistant","timestamp":"2026-05-19T08:00:01Z","cwd":"/p","message":{{"usage":{{"output_tokens":{}}}}}}}"#,
            i + 1
        ));
    }
    let refs: Vec<&str> = lines.iter().map(|s| s.as_str()).collect();
    let mut agg = Aggregates::default();
    refresh(&mut agg, &vec![("s.jsonl", 1, refs)]);
    let all = agg.top_prompts(1000, None);
    assert_eq!(all.len(), PER_FILE_PROMPTS);
    assert_eq!(all[0].tokens, (PER_FILE_PROMPTS + 5) as u64);
}

#[test]
fn version_migration_reparses_live_files_for_prompts() {
    let dir = vec![(
        "s.jsonl",
        1,
        vec![
            r#"{"type":"user","timestamp":"2026-05-19T08:00:00Z","cwd":"/p","message":{"content":"a prompt"}}"#,
            r#"{"type":"assistant","timestamp":"2026-05-19T08:00:01Z","cwd":"/p","message":{"usage":{"output_tokens":7}}}"#,
        ],
    )];
    let mut old = Aggregates::default();
    refresh(&mut old, &dir);
    let (paths, mut entries) = old.file_totals.clone().into_parts();
    for fe in entries.iter_mut() {
        fe.top_prompts.clear();
    }
    old.file_totals = Table::from_parts(paths, entries);
    old.version = 0;

    let mut reloaded = Aggregates::load_or_default(Some(old));
    assert!(reloaded.top_prompts(5, None).is_empty());
    refresh(&mut reloaded, &dir);
    let top = reloaded.top_prompts(5, None);
    assert_eq!(top.len(), 1);
    assert_eq!(top[0].text, "a prompt");
    assert_eq!(top[0].tokens, 7);
}

#[test]
fn migration_leaves_gone_files_alone() {
    let mut agg = Aggregates::default();
    refresh(&mut agg, &vec![("a.jsonl", 5, vec![A]), ("b.jsonl", 5, vec![B])]);
    refresh(&mut agg, &vec![("b.jsonl", 5, vec![B])]);
    agg.version = 0;
    agg.migrate();
    assert_eq!(agg.version, 1);
    assert_eq!(agg.file_totals.value_at(0).mtime_unix_ns, 5);
    assert_eq!(agg.file_totals.value_at(1).mtime_unix_ns, i128::MIN);
    agg.migrate();
    assert_eq!(agg.file_totals.value_at(0).mtime_unix_ns, 5);
    let empty = Aggregates::load_or_default(None);
    assert_eq!(empty.version, 1);
    assert_eq!(empty.scanned_files, 0);
}

#[test]
fn last_use_is_the_latest() {
    let mut agg = Aggregates::default();
    refresh(
        &mut agg,
        &vec![
            ("a.jsonl", 1, vec![
                r#"{"type":"assistant","timestamp":"2026-05-19T09:00:00Z","cwd":"/p","message":{"usage":{"input_tokens":1}}}"#,
                r#"{"type":"assistant","timestamp":"2026-05-19T08:00:00Z","cwd":"/p","message":{"usage":{"input_tokens":1}}}"#,
            ]),
            ("b.jsonl", 1, vec![
                r#"{"type":"assistant","timestamp":"2026-05-18T08:00:00Z","cwd":"/p","message":{"usage":{"input_tokens":1}}}"#,
            ]),
        ],
    );
    let p = agg.by_project.get(&"/p".to_string()).unwrap();
    assert_eq!(p.total, 3);
    assert_eq!(p.last_used, Some(at("2026-05-19T09:00:00Z")));
}

#[test]
fn day_totals_follow_the_given_days() {
    let lines = lines_of(&[
        r#"{"type":"assistant","timestamp":"2026-05-19T23:59:59Z","message":{"usage":{"input_tokens":1,"cache_read_input_tokens":4}}}"#,
        r#"{"type":"assistant","message":{"usage":{"output_tokens":2}}}"#,
        r#"{"type":"assistant","message":{"usage":{"output_tokens":0}}}"#,
    ]);
    let fe: FileEntry = tally(&lines, &vec![7, 8, 9], 3);
    assert_eq!(fe.mtime_unix_ns, 3);
    assert_eq!(fe.by_day.len(), 2);
    assert_eq!(*fe.by_day.get(&7).unwrap(), Totals { input: 1, output: 0, cache_creation: 0, cache_read: 4 });
    assert_eq!(fe.by_day.get(&8).unwrap().output, 2);
    assert_eq!(fe.by_project.len(), 0);
    assert!(!fe.tombstoned);
}

#[test]
fn local_day_is_that_of_the_machine() {
    let t = "2026-05-19T23:30:00Z".parse::<DateTime<Utc>>().unwrap();
    let expected = t.with_timezone(&chrono::Local).date_naive().num_days_from_ce();
    assert_eq!(stamp(t).local_day(), expected);
    let shown = t.with_timezone(&chrono::Local).format("%H:%M:%S").to_string();
    assert_eq!(stamp(t).local_time(), shown);
}

#[test]
fn previews_are_collapsed_and_cut() {
    let text = |s: &str| extract_prompt_text(&Some(Content::Text(s.to_string())));
    assert_eq!(text("  a \n\t b  "), Some("a b".to_string()));
    assert_eq!(text(" \u{3000}\n"), None);
    let long: String = "x".repeat(200);
    let cut = text(&long).unwrap();
    assert_eq!(cut.chars().count(), 120);
    assert!(cut.ends_with('…'));
    let exact: String = "y".repeat(120);
    assert_eq!(text(&exact), Some(exact.clone()));
    assert_eq!(extract_prompt_text(&None), None);
    assert_eq!(extract_prompt_text(&Some(Content::Other)), None);
    assert_eq!(extract_prompt_text(&Some(Content::Blocks(vec![]))), None);
}

fn prompt(tokens: u64, text: &str) -> PromptStat {
    PromptStat {
        text: text.to_string(),
        tokens,
        project: String::new(),
        timestamp: at("2026-05-19T08:00:00Z"),
    }
}

#[test]
fn equal_prompts_keep_their_order() {
    let all = vec![prompt(1, "a"), prompt(5, "b"), prompt(5, "c"), prompt(9, "d")];
    let names: Vec<String> = pick_heaviest(&all, 3).into_iter().map(|p| p.text).collect();
    assert_eq!(names, vec!["d", "b", "c"]);
    let late: Vec<String> =
        prompts_since(&all, &vec![1, 2, 3, 4], 3).into_iter().map(|p| p.text).collect();
    assert_eq!(late, vec!["c", "d"]);
}

#[test]
fn files_are_ordered_as_paths() {
    let texts = ["/a/b", "/a.b", "/a", "/a/b/c", "/b", "/a-b/c", "/ab", "/a/", "x", "/é"];
    let mut table: Table<FilePath, u64> = Table::new();
    let mut map: std::collections::BTreeMap<std::path::PathBuf, u64> = Default::default();
    for (i, t) in texts.iter().enumerate() {
        if *t == "/a/" {
            continue;
        }
        table.insert(path(t), i as u64);
        map.insert(std::path::PathBuf::from(t), i as u64);
    }
    let ours: Vec<u64> = (0..table.len()).map(|i| *table.value_at(i)).collect();
    let theirs: Vec<u64> = map.values().copied().collect();
    assert_eq!(ours, theirs);
}

#[test]
fn strings_are_ordered_as_strings() {
    let texts = ["b", "a", "", "aa", "é", "z", "A", "a/b", "a.b", "\u{10000}", "\u{ffff}"];
    let mut table: Table<String, u64> = Table::new();
    let mut map: std::collections::BTreeMap<String, u64> = Default::default();
    for (i, t) in texts.iter().enumerate() {
        table.insert(t.to_string(), i as u64);
        map.insert(t.to_string(), i as u64);
    }
    let ours: Vec<u64> = (0..table.len()).map(|i| *table.value_at(i)).collect();
    assert_eq!(ours, map.values().copied().collect::<Vec<u64>>());
    table.insert("aa".to_string(), 99);
    assert_eq!(table.get(&"aa".to_string()), Some(&99));
    assert_eq!(table.len(), texts.len());
}

#[test]
fn nothing_changes_without_a_directory() {
    let mut agg = Aggregates::default();
    refresh(&mut agg, &vec![("a.jsonl", 1, vec![A])]);
    assert!(!agg.refresh(None, at("2026-05-23T12:00:00Z")));
    assert_eq!(agg.tombstoned_count(), 0);
    assert_eq!(agg.last_scanned_at, Some(at("2026-05-22T12:00:00Z")));
}

#[test]
fn a_second_scan_or_purge_changes_nothing() {
    let mut agg = Aggregates::default();
    refresh(&mut agg, &vec![("a.jsonl", 1, vec![A]), ("b.jsonl", 1, vec![B])]);
    let dir: Dir = vec![("b.jsonl", 1, vec![B])];
    assert!(refresh(&mut agg, &dir));
    assert!(!refresh(&mut agg, &dir));
    assert_eq!(agg.purge_tombstoned(), 1);
    let shown = format!("{agg:?}");
    assert_eq!(agg.purge_tombstoned(), 0);
    assert!(!refresh(&mut agg, &dir));
    assert_eq!(format!("{agg:?}"), shown);
}

/// The days of a transcript with their tokens, and the total of a project.
fn kept(lines: &[&str], project: &str) -> (Vec<(i32, u64)>, Option<(u64, Option<Timestamp>)>) {
    let fe = parse_file(&lines_of(lines), 1);
    let days = (0..fe.by_day.len()).map(|i| (*fe.by_day.key_at(i), fe.by_day.value_at(i).sum()));
    let of = fe.by_project.get(&project.to_string()).map(|p| (p.total, p.last_used));
    (days.collect(), of)
}

#[test]
fn joined_transcripts_add_up() {
    let one = r#"{"type":"assistant","timestamp":"2026-05-20T12:00:00Z","cwd":"/x","message":{"usage":{"input_tokens":3,"output_tokens":4}}}"#;
    let two = r#"{"type":"assistant","timestamp":"2026-05-19T12:00:00Z","cwd":"/x","message":{"usage":{"input_tokens":5}}}"#;
    let (a, pa) = kept(&[one, two], "/x");
    let (b, pb) = kept(&[one], "/x");
    let (c, pc) = kept(&[one, two, one], "/x");
    assert_eq!(c.iter().map(|d| d.1).sum::<u64>(), 19);
    assert_eq!(a.iter().map(|d| d.1).sum::<u64>() + b.iter().map(|d| d.1).sum::<u64>(), 19);
    assert_eq!((pa.unwrap().0, pb.unwrap().0, pc.unwrap().0), (12, 7, 19));
    assert_eq!(pa.unwrap().1, Some(at("2026-05-20T12:00:00Z")));
    assert_eq!(pc.unwrap().1, Some(at("2026-05-20T12:00:00Z")));
    let idle = r#"{"type":"summary","timestamp":"2026-05-18T12:00:00Z","cwd":"/x","message":{"usage":{"input_tokens":9}}}"#;
    assert_eq!(kept(&[idle, one, "", "{", idle, two, one, idle], "/x"), (c, pc));
}

#[test]
fn projects_from_a_day_before_or_after_all_use() {
    let mut agg = Aggregates::default();
    refresh(&mut agg, &vec![("a.jsonl", 1, vec![A]), ("b.jsonl", 1, vec![B])]);
    let first = *agg.by_day.key_at(0);
    let last = *agg.by_day.key_at(agg.by_day.len() - 1);
    assert_eq!(agg.top_projects(9, Some(first)), agg.top_projects(9, None));
    assert_eq!(agg.top_projects(9, Some(first - 100)), agg.top_projects(9, None));
    assert!(!agg.top_projects(9, None).is_empty());
    assert!(agg.top_projects(9, Some(last + 1)).is_empty());
}

#[test]
fn short_names_tell_projects_apart() {
    let all = ["/a/x", "/b/x", "/b/y", "x"];
    let mut names: Vec<String> = all.iter().map(|p| short_name(p, &all)).collect();
    assert_eq!(names, vec!["a/x", "b/x", "y", "x"]);
    names.sort();
    names.dedup();
    assert_eq!(names.len(), 4);
}

#[test]
fn paths_are_told_apart_by_components() {
    let texts = [
        "", ".", "..", "/", "//", "/.", "/..", "./a", "a", "a/", "a/.", "a//b", "a/b", "a/./b", "a/../b",
        "../a", "/a/..", "/a/!", "/a/..x", "/a/.x", "/a/-", "...", "./.", "./..", "/é/x", "/e/x",
    ];
    let mut table: Table<FilePath, usize> = Table::new();
    let mut map: std::collections::BTreeMap<std::path::PathBuf, usize> = Default::default();
    for (i, t) in texts.iter().enumerate() {
        table.insert(path(t), i);
        map.insert(std::path::PathBuf::from(t), i);
    }
    let ours: Vec<(Vec<u8>, usize)> =
        (0..table.len()).map(|i| (table.key_at(i).bytes().clone(), *table.value_at(i))).collect();
    let theirs: Vec<(Vec<u8>, usize)> =
        map.iter().map(|(k, v)| (k.to_str().unwrap().as_bytes().to_vec(), *v)).collect();
    assert_eq!(ours, theirs);
    assert_eq!(table.get(&path("a/b/")), map.get(std::path::Path::new("a/b/")));
    let odd = FilePath::new(vec![b'/', 0xff]);
    table.insert(odd.clone(), 99);
    table.insert(FilePath::new(vec![b'/', 0xfe]), 98);
    assert_eq!(table.get(&odd), Some(&99));
}

fn big(kind: &str, tokens: u64) -> Line {
    let text = format!(
        r#"{{"type":"{kind}","timestamp":"2026-05-20T12:00:00Z","cwd":"/x","message":{{"usage":{{"input_tokens":{tokens}}}}}}}"#
    );
    line_of(&text).unwrap()
}

#[test]
fn counts_that_do_not_fit_are_told() {
    let half = u64::MAX / 2 + 1;
    assert!(parse_if_fits(&vec![big("assistant", half)], 1).is_some());
    assert!(parse_if_fits(&vec![big("assistant", half), big("assistant", half)], 1).is_none());
    let answers = vec![big("assistant", half), big("user", half), big("summary", half)];
    assert!(parse_if_fits(&answers, 1).is_some());
    let entry = |n: u64| parse_if_fits(&vec![big("assistant", n)], 1);
    let found = |name: &str, n: u64| Scanned { path: path(name), mtime: 1, entry: entry(n) };
    let mut agg = Aggregates::default();
    assert!(agg.scan_fits(&vec![found("/a", half), found("/b", half - 1)]));
    assert!(!agg.scan_fits(&vec![found("/a", half), found("/b", half)]));
    assert!(agg.scan_fits(&vec![found("/a", half), found("//a/", half)]));
    assert!(agg.refresh(Some(vec![found("/a", half)]), at("2026-05-23T12:00:00Z")));
    let newer = Scanned { mtime: 2, ..found("/a", half) };
    assert!(agg.scan_fits(&vec![newer]));
    assert!(!agg.scan_fits(&vec![found("/b", half)]));
    assert!(agg.purge_fits());
    let day = *agg.by_day.key_at(0);
    assert!(can_show(&agg, day));
    assert!(agg.projects_fit(day) && agg.days_fit(7, day) && agg.month_if_fits(day).is_some());
    agg.by_day.insert(day - 1, Totals { input: half, output: 0, cache_creation: 0, cache_read: 0 });
    assert!(!agg.days_fit(7, day));
    assert!(!can_show(&agg, day));
    assert!(!can_show(&Aggregates::default(), i32::MIN));
}
