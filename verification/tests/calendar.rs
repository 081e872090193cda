use mail_focus::academic_calendar::{
    parse_entries, validate_source_url, CURRENT_ENTRIES, CURRENT_SEMESTER, CURRENT_SOURCE_URL,
};

#[test]
fn expands_academic_calendar_date_ranges() {
    let events = parse_entries("2026-09-01~2026-09-03 | 选课增删期\n2026-12-11 | 最后上课日").unwrap();
    assert_eq!(events.len(), 4);
    assert_eq!(events[0].title, "选课增删期");
    assert!(events[3].starts_at.starts_with("2026-12-11T09:00:00"));
}

#[test]
fn each_day_starts_at_nine_in_china_time() {
    let events = parse_entries("2026-09-01~2026-09-02 | 选课").unwrap();
    assert_eq!(events[0].starts_at, "2026-09-01T09:00:00+08:00");
    assert_eq!(events[1].starts_at, "2026-09-02T09:00:00+08:00");
}

#[test]
fn blank_lines_and_carriage_returns_are_skipped() {
    let events = parse_entries("\r\n  2026-09-01 | 开学  \r\n\n").unwrap();
    assert_eq!(events.len(), 1);
    assert_eq!(events[0].title, "开学");
}

#[test]
fn calendar_line_errors_name_the_line() {
    assert_eq!(parse_entries("2026-09-01 | A\n2026-09-02").unwrap_err(), "第 2 行格式错误，应为 日期 | 事件");
    assert_eq!(parse_entries("2026-09-01 |   ").unwrap_err(), "第 1 行缺少事件名称");
    assert_eq!(parse_entries("2026-13-01 | A").unwrap_err(), "第 1 行开始日期无效");
    assert_eq!(parse_entries("2026-09-01~2026-09-31 | A").unwrap_err(), "第 1 行结束日期无效");
    assert_eq!(parse_entries("2026-09-03~2026-09-01 | A").unwrap_err(), "第 1 行日期范围无效或超过 120 天");
    assert_eq!(parse_entries("2026-01-01~2026-05-02 | A").unwrap_err(), "第 1 行日期范围无效或超过 120 天");
}

#[test]
fn a_range_of_exactly_one_hundred_twenty_days_is_accepted() {
    let events = parse_entries("2026-01-01~2026-05-01 | A").unwrap();
    assert_eq!(events.len(), 121);
}

#[test]
fn empty_and_oversized_calendars_are_refused() {
    assert_eq!(parse_entries("  \n").unwrap_err(), "请至少填写一条校历事件");
    let big = "2026-01-01~2026-04-30 | A\n2026-05-01~2026-08-28 | B\n2026-09-01~2026-12-29 | C\n2027-01-01~2027-04-30 | D\n2027-05-01~2027-08-28 | E";
    assert_eq!(parse_entries(big).unwrap_err(), "单个学期最多导入 500 个校历日期");
}

#[test]
fn the_shipped_calendar_parses() {
    let events = parse_entries(CURRENT_ENTRIES).unwrap();
    assert!(!events.is_empty());
    assert_eq!(events[0].title, "暑期学期结束（2025-26）");
    assert_eq!(CURRENT_SEMESTER, "2026-27 第一学期");
    assert!(validate_source_url(CURRENT_SOURCE_URL).is_ok());
}

#[test]
fn calendar_sources_must_be_the_registry_over_https() {
    assert!(validate_source_url("  https://ar.bnbu.edu.cn/cal.pdf ").is_ok());
    assert_eq!(validate_source_url("http://ar.bnbu.edu.cn/cal.pdf").unwrap_err(), "请使用 BNBU 教务处 ar.bnbu.edu.cn 的 HTTPS 校历链接");
    assert_eq!(validate_source_url("https://evil.example/cal.pdf").unwrap_err(), "请使用 BNBU 教务处 ar.bnbu.edu.cn 的 HTTPS 校历链接");
    assert_eq!(validate_source_url("not a url").unwrap_err(), "BNBU 校历来源 URL 格式无效");
}

#[test]
fn chrono_day_limits_match_the_stated_range() {
    assert_eq!(chrono::Datelike::num_days_from_ce(&chrono::NaiveDate::MIN), -95746129);
    assert_eq!(chrono::Datelike::num_days_from_ce(&chrono::NaiveDate::MAX), 95745399);
    assert_eq!(chrono::DateTime::<chrono::Utc>::MIN_UTC.timestamp(), -8334601228800);
    assert_eq!(chrono::DateTime::<chrono::Utc>::MAX_UTC.timestamp(), 8210266876799);
}
