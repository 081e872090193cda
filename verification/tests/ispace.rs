use mail_focus::ispace_provider::{
    check_feed_url, parse_assignments, parse_ical_date, read_feed_response, request_failure,
    try_parse_assignments, unescape, unfold_lines, UtcInstant,
};
use mail_focus::links::check_ispace_calendar_url;

fn at(seconds: i64) -> UtcInstant {
    UtcInstant { seconds, nanos: 0 }
}

#[test]
fn extracts_only_future_assignments() {
    let ics = "BEGIN:VCALENDAR\r\nBEGIN:VEVENT\r\nUID:a1\r\nSUMMARY:Essay 1 Assignment\r\nCATEGORIES:Academic English\r\nDTSTART:20260905T180000\r\nURL:https://ispace.bnbu.edu.cn/mod/assign/view.php?id=1\r\nEND:VEVENT\r\nBEGIN:VEVENT\r\nUID:e1\r\nSUMMARY:Campus event\r\nDTSTART:20260906T100000\r\nEND:VEVENT\r\nEND:VCALENDAR";
    // 2026-08-28T00:00:00Z
    let now = at(1787875200);
    let items = parse_assignments(ics, now);
    assert_eq!(items.len(), 1);
    assert_eq!(items[0].course, "Academic English");
}

#[test]
fn assignment_fields_come_from_the_event() {
    let ics = "BEGIN:VEVENT\nSUMMARY:Quiz 2\nDTSTART:20260905T180000\nLOCATION:Room 1\nDESCRIPTION:Bring\\, a pen\nEND:VEVENT";
    let items = parse_assignments(ics, at(1787875200));
    assert_eq!(items.len(), 1);
    let a = &items[0];
    assert_eq!(a.title, "Quiz 2");
    assert_eq!(a.course, "Room 1");
    assert_eq!(a.description, "Bring, a pen");
    assert_eq!(a.due_at, "2026-09-05T10:00:00+00:00");
    assert_eq!(a.source, "iSpace");
    assert_eq!(a.url, None);
    // 2026-09-05T10:00:00Z
    assert_eq!(a.id, "Quiz 2:1788602400");
}

#[test]
fn past_coursework_is_dropped_and_the_rest_is_ordered_by_due_time() {
    let ics = "BEGIN:VEVENT\nSUMMARY:Late quiz\nDTSTART:20261001T080000\nEND:VEVENT\n\
BEGIN:VEVENT\nSUMMARY:Early quiz\nDTSTART:20260910T080000\nEND:VEVENT\n\
BEGIN:VEVENT\nSUMMARY:Old quiz\nDTSTART:20260801T080000\nEND:VEVENT";
    let items = parse_assignments(ics, at(1787875200));
    assert_eq!(items.len(), 2);
    assert_eq!(items[0].title, "Early quiz");
    assert_eq!(items[1].title, "Late quiz");
    assert_eq!(items[0].course, "iSpace 课程");
}

#[test]
fn an_event_due_exactly_now_counts_but_not_a_moment_later() {
    let ics = "BEGIN:VEVENT\nSUMMARY:quiz\nDTSTART:20260828T080000\nEND:VEVENT";
    assert_eq!(parse_assignments(ics, at(1787875200)).len(), 1);
    assert_eq!(parse_assignments(ics, UtcInstant { seconds: 1787875200, nanos: 1 }).len(), 0);
}

#[test]
fn html_descriptions_are_rendered_as_text() {
    let ics = "BEGIN:VEVENT\nSUMMARY:Project\nDTSTART:20260905\nDESCRIPTION:<p>Hello</p>\nEND:VEVENT";
    let items = try_parse_assignments(ics, at(1787875200)).unwrap();
    assert_eq!(items.len(), 1);
    assert_eq!(items[0].description, "Hello");
    // a date alone means 23:59 in China time
    assert_eq!(items[0].due_at, "2026-09-05T15:59:00+00:00");
}

#[test]
fn ical_dates_in_three_forms() {
    // the UTC form carries no offset field, so chrono's `DateTime::parse_from_str` refuses it
    assert_eq!(parse_ical_date("20260905T180000Z"), None);
    assert_eq!(parse_ical_date("20260905T180000"), Some(1788602400));
    assert_eq!(parse_ical_date("20260905"), Some(1788623940));
    assert_eq!(parse_ical_date("2026-09-05"), None);
}

#[test]
fn folded_lines_are_joined() {
    let lines = unfold_lines("A:1\r\n  2\r\n\tthree\nB:x");
    assert_eq!(lines, vec!["A:12three".to_string(), "B:x".to_string()]);
}

#[test]
fn escapes_are_undone_in_order() {
    assert_eq!(unescape("a\\nb\\Nc\\,d\\;e\\\\f"), "a\nb\nc,d;e\\f");
}

#[test]
fn feed_addresses_must_be_university_https() {
    assert!(check_feed_url("https://ispace.bnbu.edu.cn/calendar/export.php").is_ok());
    assert!(check_feed_url("https://x.bnbu.edu.cn/feed").is_ok());
    assert_eq!(check_feed_url("http://ispace.bnbu.edu.cn/feed").unwrap_err(), "请使用 https://ispace.bnbu.edu.cn 生成的日历 URL");
    assert_eq!(check_feed_url("https://bnbu.edu.cn.evil.com/feed").unwrap_err(), "请使用 https://ispace.bnbu.edu.cn 生成的日历 URL");
    assert_eq!(check_feed_url("::").unwrap_err(), "iSpace 日历 URL 格式无效");
    assert_eq!(check_ispace_calendar_url("  https://ispace.bnbu.edu.cn/f  ").unwrap(), "https://ispace.bnbu.edu.cn/f");
    assert_eq!(check_ispace_calendar_url("https://example.com/f").unwrap_err(), "请粘贴由 BNBU iSpace 生成的 HTTPS 日历 URL");
}

#[test]
fn feed_responses_are_checked() {
    assert_eq!(read_feed_response(true, 200, b"BEGIN:VCALENDAR\nEND:VCALENDAR").unwrap(), "BEGIN:VCALENDAR\nEND:VCALENDAR");
    assert_eq!(read_feed_response(false, 403, b"").unwrap_err(), "iSpace 日历拒绝访问（HTTP 403），请重新生成订阅 URL；若当前网络被学校限制，请联系 ITSC");
    assert_eq!(read_feed_response(true, 200, &[0xff, 0xfe]).unwrap_err(), "iSpace 返回的日历编码无效");
    assert_eq!(read_feed_response(true, 200, b"<html>").unwrap_err(), "iSpace 返回的不是日历数据，请检查订阅 URL 是否有效");
    let big = vec![b'a'; 5 * 1024 * 1024 + 1];
    assert_eq!(read_feed_response(true, 200, &big).unwrap_err(), "iSpace 日历数据异常过大");
}

#[test]
fn request_failures_are_told_apart() {
    assert_eq!(request_failure(true, true), "直接连接 iSpace 超时，请检查网络后重试");
    assert_eq!(request_failure(false, true), "无法直接连接 iSpace；当前网络可能无法访问学校服务器");
    assert_eq!(request_failure(false, false), "无法通过 HTTPS 读取 iSpace 日历，请检查网络后重试");
}

#[test]
fn property_names_are_read_in_upper_case_without_parameters() {
    let ics = "BEGIN:VEVENT\nsummary;LANGUAGE=en:Quiz 3\ndtstart;TZID=Asia/Shanghai:20260905T180000\ncategories:Maths\nEND:VEVENT";
    let items = parse_assignments(ics, at(1787875200));
    assert_eq!(items.len(), 1);
    assert_eq!(items[0].title, "Quiz 3");
    assert_eq!(items[0].course, "Maths");
}

#[test]
fn a_later_reading_drops_what_fell_due_and_keeps_the_order() {
    let ics = "BEGIN:VEVENT\nSUMMARY:Late quiz\nDTSTART:20261001T080000\nEND:VEVENT\n\
BEGIN:VEVENT\nSUMMARY:Early quiz\nDTSTART:20260910T080000\nEND:VEVENT\n\
BEGIN:VEVENT\nSUMMARY:Middle quiz\nDTSTART:20260920T080000\nEND:VEVENT";
    let early = parse_assignments(ics, at(1787875200));
    // 2026-09-15T00:00:00Z
    let later = parse_assignments(ics, at(1789430400));
    let titles = |items: &Vec<mail_focus::models::AssignmentDeadline>| items.iter().map(|a| a.title.clone()).collect::<Vec<_>>();
    assert_eq!(titles(&early), vec!["Early quiz", "Middle quiz", "Late quiz"]);
    assert_eq!(titles(&later), vec!["Middle quiz", "Late quiz"]);
}
