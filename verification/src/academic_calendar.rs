//! The university's academic calendar: its source address and the textual
//! list of dated events, expanded into one entry per day.
use vstd::prelude::*;

use crate::times::china_offset_seconds;
use crate::links::{parsed_url, scheme_and_host};
use crate::text::{
    chars_equal_str, chars_of, decimal, find_char, first_index_of, lemma_first_index_of,
    push_all, push_decimal, push_str, slice_chars, string_of, trim, trim_chars, trimmed,
};

verus! {

/// The semester whose calendar ships with the application.
pub const CURRENT_SEMESTER: &'static str = "2026-27 第一学期";

/// Where the shipped calendar was published.
pub const CURRENT_SOURCE_URL: &'static str =
    "https://ar.bnbu.edu.cn/attachment/file/Academic_Calendar_for_S1_AY202627.pdf";

/// The shipped calendar, one `date | event` or `date~date | event` per line.
pub const CURRENT_ENTRIES: &'static str = "2026-08-18 | 暑期学期结束（2025-26）
2026-08-23~2026-08-24 | 大一新生注册
2026-08-25~2026-08-31 | 新生迎新与英语强化课程
2026-09-01 | 第一学期开始 / 正式上课
2026-09-01~2026-09-14 | 选课增删期
2026-09-20 | 补星期五课程 / 全体教职员上班
2026-09-25~2026-09-27 | 中秋节假期
2026-10-01~2026-10-07 | 国庆节假期
2026-10-10 | 补星期一课程 / 全体教职员上班
2026-10-25~2026-10-31 | 阅读周
2026-12-11 | 第一学期最后上课日
2026-12-12 | 全国大学英语考试预留日
2026-12-13~2026-12-15 | 期末考试复习
2026-12-16~2026-12-27 | 第一学期期末考试
2026-12-28~2026-12-31 | 大一学生军训
2027-01-01 | 元旦假期
2027-01-02~2027-01-11 | 大一学生军训
2027-01-06 | 学部委员会会议
2027-01-08 | 校教务议会会议
2027-01-11 | 成绩发布 / 第一学期结束
2027-01-24~2027-01-31 | 春节假期（学校关闭）";

/// One day of the academic calendar.
#[derive(Debug, Clone)]
pub struct AcademicCalendarEntry {
    pub title: String,
    pub starts_at: String,
}

// ---------------------------------------------------------------------------
// Source address
// ---------------------------------------------------------------------------
/// Outcome of checking a calendar source address: after trimming it must parse,
/// use HTTPS and have the host `ar.bnbu.edu.cn`.
pub open spec fn source_url_check(value: Seq<char>) -> Result<(), Seq<char>> {
    match parsed_url(trim(value)) {
        None => Err("BNBU 校历来源 URL 格式无效"@),
        Some((scheme, host)) => if scheme == "https"@ && host == Some("ar.bnbu.edu.cn"@) {
            Ok(())
        } else {
            Err("请使用 BNBU 教务处 ar.bnbu.edu.cn 的 HTTPS 校历链接"@)
        },
    }
}

/// Checks the address that a calendar is imported from.
pub fn validate_source_url(value: &str) -> (r: Result<(), String>)
    ensures
        match source_url_check(value@) {
            Ok(()) => r is Ok,
            Err(e) => r matches Err(m) && m@ == e,
        },
{
    let t = trimmed(value);
    let text = string_of(&t);
    match scheme_and_host(text.as_str()) {
        None => Err(String::from_str("BNBU 校历来源 URL 格式无效")),
        Some((scheme, host)) => {
            let secure = chars_equal_str(&chars_of(scheme.as_str()), "https");
            let trusted = match &host {
                Some(h) => chars_equal_str(&chars_of(h.as_str()), "ar.bnbu.edu.cn"),
                None => false,
            };
            if secure && trusted {
                Ok(())
            } else {
                Err(String::from_str("请使用 BNBU 教务处 ar.bnbu.edu.cn 的 HTTPS 校历链接"))
            }
        },
    }
}

// ---------------------------------------------------------------------------
// Calendar days (chrono)
// ---------------------------------------------------------------------------
/// Day number (`NaiveDate::num_days_from_ce`) of chrono's earliest date (`NaiveDate::MIN`).
pub open spec fn first_day() -> int {
    -95746129
}

/// Day number of chrono's latest date (`NaiveDate::MAX`).
pub open spec fn last_day() -> int {
    95745399
}

/// What `NaiveDate::parse_from_str(text, "%Y-%m-%d")` gives, as a day number
/// counted from 0001-01-01 (day 1); `None` when chrono rejects the text.
pub uninterp spec fn iso_date_day(text: Seq<char>) -> Option<int>;

/// What chrono writes with `to_rfc3339` for `hour:minute:00` of a day (a day
/// number) at the fixed offset of `offset` seconds east of UTC.
pub uninterp spec fn day_time_rfc3339(day: int, hour: int, minute: int, offset: int) -> Seq<char>;

/// The hour at which a day of the academic calendar starts.
pub open spec fn calendar_start_hour() -> int {
    9
}

/// Parses `text` with `NaiveDate::parse_from_str` and the format `%Y-%m-%d`
/// and converts the date to its day number (`num_days_from_ce`). The result is
/// named `iso_date_day`; every date chrono can hold lies between `first_day`
/// and `last_day`.
#[verifier::external_body]
fn parse_iso_day(text: &str) -> (r: Option<i32>)
    ensures
        r matches Some(d) ==> iso_date_day(text@) == Some(d as int) && first_day() <= d
            <= last_day(),
        r is None ==> iso_date_day(text@) is None,
{
    match chrono::NaiveDate::parse_from_str(text, "%Y-%m-%d") {
        Ok(date) => Some(chrono::Datelike::num_days_from_ce(&date)),
        Err(_) => None,
    }
}

/// Formats `hour:minute:00` of the given day at the fixed offset of
/// `offset_seconds` east of UTC with `DateTime::to_rfc3339` (chrono). The text
/// is named `day_time_rfc3339` of the four values. For a day in chrono's range,
/// a valid time and an offset between zero and that time of day, the instant
/// falls on the same day in UTC, so no step of it fails.
#[verifier::external_body]
fn format_day_time(day: i32, hour: u32, minute: u32, offset_seconds: i32) -> (r: String)
    requires
        first_day() <= day <= last_day(),
        hour < 24,
        minute < 60,
        0 <= offset_seconds <= hour * 3600 + minute * 60,
    ensures
        r@ == day_time_rfc3339(day as int, hour as int, minute as int, offset_seconds as int),
{
    let date = chrono::NaiveDate::from_num_days_from_ce_opt(day).unwrap();
    let zone = chrono::FixedOffset::east_opt(offset_seconds).unwrap();
    let local = date.and_hms_opt(hour, minute, 0).unwrap();
    chrono::TimeZone::from_local_datetime(&zone, &local).single().unwrap().to_rfc3339()
}

// ---------------------------------------------------------------------------
// Lines
// ---------------------------------------------------------------------------
/// `line` without one trailing carriage return.
pub open spec fn strip_cr(line: Seq<char>) -> Seq<char> {
    if line.len() > 0 && line.last() == '\r' {
        line.drop_last()
    } else {
        line
    }
}

/// The lines of a text as `str::lines` gives them: split at each `\n`, one
/// `\r` before it dropped, no empty line after a final `\n`.
pub open spec fn text_lines(s: Seq<char>) -> Seq<Seq<char>>
    decreases s.len(),
{
    if s.len() == 0 {
        Seq::empty()
    } else {
        match first_index_of(s, '\n') {
            None => seq![s],
            Some(i) => if 0 <= i < s.len() {
                seq![strip_cr(s.subrange(0, i))] + text_lines(s.subrange(i + 1, s.len() as int))
            } else {
                Seq::empty()
            },
        }
    }
}

/// The lines of `s`.
pub fn split_lines(s: &[char]) -> (r: Vec<Vec<char>>)
    ensures
        r@.len() == text_lines(s@).len(),
        forall|k: int| 0 <= k < r@.len() ==> #[trigger] r@[k]@ == text_lines(s@)[k],
{
    let mut out: Vec<Vec<char>> = Vec::new();
    let mut start: usize = 0;
    let mut rest = slice_chars(s, 0, s.len());
    let ghost done: Seq<Seq<char>> = Seq::empty();
    proof {
        assert(rest@ =~= s@);
        assert(done + text_lines(rest@) =~= text_lines(s@));
    }
    while rest.len() > 0
        invariant
            out@.len() == done.len(),
            forall|k: int| 0 <= k < out@.len() ==> #[trigger] out@[k]@ == done[k],
            done + text_lines(rest@) == text_lines(s@),
        decreases rest@.len(),
    {
        proof {
            lemma_first_index_of(rest@, '\n');
        }
        match find_char(&rest, '\n') {
            None => {
                proof {
                    assert(text_lines(rest@) == seq![rest@]);
                    assert(done.push(rest@) =~= done + text_lines(rest@));
                    done = done.push(rest@);
                }
                out.push(rest);
                rest = Vec::new();
                proof {
                    assert(text_lines(rest@) =~= Seq::<Seq<char>>::empty());
                    assert(done + text_lines(rest@) =~= done);
                }
            },
            Some(i) => {
                let mut line = slice_chars(&rest, 0, i);
                if line.len() > 0 && line[line.len() - 1] == '\r' {
                    line = slice_chars(&line, 0, line.len() - 1);
                    proof {
                        assert(line@ =~= strip_cr(rest@.subrange(0, i as int)));
                    }
                }
                let next = slice_chars(&rest, i + 1, rest.len());
                proof {
                    assert(line@ == strip_cr(rest@.subrange(0, i as int)));
                    assert(text_lines(rest@) == seq![line@] + text_lines(next@));
                    assert(done.push(line@) + text_lines(next@) =~= done + text_lines(rest@));
                    done = done.push(line@);
                }
                out.push(line);
                rest = next;
            },
        }
    }
    proof {
        assert(text_lines(rest@) =~= Seq::<Seq<char>>::empty());
        assert(done =~= text_lines(s@));
    }
    out
}

// ---------------------------------------------------------------------------
// Entries
// ---------------------------------------------------------------------------
/// "第 {number} 行" followed by `tail`: the form of every per-line error.
pub open spec fn line_error(number: nat, tail: Seq<char>) -> Seq<char> {
    "第 "@ + decimal(number) + tail
}

/// The longest span, in days after the first day, that one line may cover.
pub open spec fn max_span_days() -> int {
    120
}

/// What one line contributes: nothing for a blank line, else the title and the
/// first and last day, or the error for the line (`number` counts from 1).
pub open spec fn line_outcome(raw: Seq<char>, number: nat) -> Result<
    Option<(Seq<char>, int, int)>,
    Seq<char>,
> {
    let line = trim(raw);
    if line.len() == 0 {
        Ok(None)
    } else {
        match first_index_of(line, '|') {
            None => Err(line_error(number, " 行格式错误，应为 日期 | 事件"@)),
            Some(bar) => {
                let range = line.subrange(0, bar);
                let title = trim(line.subrange(bar + 1, line.len() as int));
                if title.len() == 0 {
                    Err(line_error(number, " 行缺少事件名称"@))
                } else {
                    let span = trim(range);
                    let (start, end) = match first_index_of(span, '~') {
                        Some(t) => (span.subrange(0, t), span.subrange(t + 1, span.len() as int)),
                        None => (span, span),
                    };
                    match iso_date_day(trim(start)) {
                        None => Err(line_error(number, " 行开始日期无效"@)),
                        Some(first) => match iso_date_day(trim(end)) {
                            None => Err(line_error(number, " 行结束日期无效"@)),
                            Some(last) => if last < first || last - first > max_span_days() {
                                Err(line_error(number, " 行日期范围无效或超过 120 天"@))
                            } else {
                                Ok(Some((title, first, last)))
                            },
                        },
                    }
                }
            },
        }
    }
}

/// One entry per day from `first` to `last`, all with the same title.
pub open spec fn expand_days(title: Seq<char>, first: int, last: int) -> Seq<(Seq<char>, int)> {
    Seq::new((last - first + 1) as nat, |k: int| (title, first + k))
}

/// The entries of the first `n` lines, or the error of the first line in
/// them that has one.
pub open spec fn entries_of_lines(lines: Seq<Seq<char>>, n: nat) -> Result<
    Seq<(Seq<char>, int)>,
    Seq<char>,
>
    decreases n,
{
    if n == 0 {
        Ok(Seq::empty())
    } else {
        match entries_of_lines(lines, (n - 1) as nat) {
            Err(e) => Err(e),
            Ok(found) => match line_outcome(lines[n - 1], n) {
                Err(e) => Err(e),
                Ok(None) => Ok(found),
                Ok(Some((title, first, last))) => Ok(found + expand_days(title, first, last)),
            },
        }
    }
}

/// The most days one import may hold.
pub open spec fn max_calendar_days() -> int {
    500
}

/// The titles and days that a calendar text describes, or the error it causes.
pub open spec fn calendar_days(value: Seq<char>) -> Result<Seq<(Seq<char>, int)>, Seq<char>> {
    let lines = text_lines(value);
    match entries_of_lines(lines, lines.len()) {
        Err(e) => Err(e),
        Ok(found) => if found.len() == 0 {
            Err("请至少填写一条校历事件"@)
        } else if found.len() > max_calendar_days() {
            Err("单个学期最多导入 500 个校历日期"@)
        } else {
            Ok(found)
        },
    }
}

/// The entry for a title on a day.
pub open spec fn entry_matches(entry: AcademicCalendarEntry, day: (Seq<char>, int)) -> bool {
    entry.title@ == day.0 && entry.starts_at@ == day_time_rfc3339(
        day.1,
        calendar_start_hour(),
        0,
        china_offset_seconds(),
    )
}

/// The error message `第 {number}{tail}`.
fn numbered_error(number: usize, tail: &str) -> (r: String)
    ensures
        r@ == line_error(number as nat, tail@),
{
    let mut msg: Vec<char> = chars_of("第 ");
    push_decimal(&mut msg, number as u64);
    push_str(&mut msg, tail);
    string_of(&msg)
}

/// Parses one line into its title and first and last day.
fn parse_line(raw: &[char], number: usize) -> (r: Result<Option<(Vec<char>, i32, i32)>, String>)
    ensures
        match line_outcome(raw@, number as nat) {
            Ok(None) => r matches Ok(None),
            Ok(Some((title, first, last))) => r matches Ok(Some((t, a, b))) && t@ == title && a
                == first && b == last && first_day() <= a <= b <= last_day(),
            Err(e) => r matches Err(m) && m@ == e,
        },
{
    let line = trim_chars(raw);
    if line.len() == 0 {
        return Ok(None);
    }
    proof {
        lemma_first_index_of(line@, '|');
    }
    let bar = match find_char(&line, '|') {
        None => {
            return Err(numbered_error(number, " 行格式错误，应为 日期 | 事件"));
        },
        Some(b) => b,
    };
    let range = slice_chars(&line, 0, bar);
    let title_raw = slice_chars(&line, bar + 1, line.len());
    let title = trim_chars(&title_raw);
    if title.len() == 0 {
        return Err(numbered_error(number, " 行缺少事件名称"));
    }
    let span = trim_chars(&range);
    proof {
        lemma_first_index_of(span@, '~');
    }
    let (start, end) = match find_char(&span, '~') {
        Some(t) => (slice_chars(&span, 0, t), slice_chars(&span, t + 1, span.len())),
        None => (slice_chars(&span, 0, span.len()), slice_chars(&span, 0, span.len())),
    };
    proof {
        assert(span@.subrange(0, span@.len() as int) =~= span@);
    }
    let start_text = string_of(&trim_chars(&start));
    let first = match parse_iso_day(start_text.as_str()) {
        None => {
            return Err(numbered_error(number, " 行开始日期无效"));
        },
        Some(d) => d,
    };
    let end_text = string_of(&trim_chars(&end));
    let last = match parse_iso_day(end_text.as_str()) {
        None => {
            return Err(numbered_error(number, " 行结束日期无效"));
        },
        Some(d) => d,
    };
    if last < first || (last as i64) - (first as i64) > 120 {
        return Err(numbered_error(number, " 行日期范围无效或超过 120 天"));
    }
    Ok(Some((title, first, last)))
}

/// Parses the calendar text: each non-blank line is `date | title` or
/// `first~last | title` with ISO dates, and gives one entry per day, at 09:00
/// UTC+8 of that day.
pub fn parse_entries(value: &str) -> (r: Result<Vec<AcademicCalendarEntry>, String>)
    ensures
        match calendar_days(value@) {
            Ok(days) => r matches Ok(v) && v@.len() == days.len() && forall|k: int|
                0 <= k < days.len() ==> #[trigger] entry_matches(v@[k], days[k]),
            Err(e) => r matches Err(m) && m@ == e,
        },
{
    let chars = chars_of(value);
    let lines = split_lines(&chars);
    let ghost all = text_lines(value@);
    let mut output: Vec<AcademicCalendarEntry> = Vec::new();
    let mut index: usize = 0;
    while index < lines.len()
        invariant
            index <= lines@.len(),
            lines@.len() == all.len(),
            all == text_lines(value@),
            forall|k: int| 0 <= k < lines@.len() ==> #[trigger] lines@[k]@ == all[k],
            entries_of_lines(all, index as nat) matches Ok(found) && output@.len() == found.len()
                && forall|k: int| 0 <= k < found.len() ==> #[trigger] entry_matches(output@[k], found[k]),
        decreases lines@.len() - index,
    {
        let ghost found = entries_of_lines(all, index as nat)->Ok_0;
        let outcome = parse_line(&lines[index], index + 1);
        assert(lines@[index as int]@ == all[index as int]);
        match outcome {
            Err(e) => {
                proof {
                    lemma_errors_persist(all, (index + 1) as nat, all.len());
                }
                return Err(e);
            },
            Ok(None) => {},
            Ok(Some((title, first, last))) => {
                let ghost before = output@;
                let mut day = first;
                while day <= last
                    invariant
                        first_day() <= first <= last <= last_day(),
                        first <= day <= last + 1,
                        output@.len() == before.len() + (day - first),
                        forall|k: int| 0 <= k < before.len() ==> output@[k] == before[k],
                        forall|k: int|
                            before.len() <= k < output@.len() ==> #[trigger] entry_matches(
                                output@[k],
                                (title@, first + (k - before.len())),
                            ),
                    decreases last + 1 - day,
                {
                    let entry = AcademicCalendarEntry {
                        title: string_of(&title),
                        starts_at: format_day_time(day, 9, 0, 28800),
                    };
                    output.push(entry);
                    day = day + 1;
                }
                proof {
                    let added = expand_days(title@, first as int, last as int);
                    assert(line_outcome(all[index as int], (index + 1) as nat) == Ok::<
                        Option<(Seq<char>, int, int)>,
                        Seq<char>,
                    >(Some((title@, first as int, last as int))));
                    assert(entries_of_lines(all, (index + 1) as nat) == Ok::<
                        Seq<(Seq<char>, int)>,
                        Seq<char>,
                    >(found + added));
                    assert(output@.len() == (found + added).len());
                    assert forall|k: int| 0 <= k < found.len() + added.len() implies #[trigger] entry_matches(
                        output@[k],
                        (found + added)[k],
                    ) by {
                        if k < found.len() {
                            assert(output@[k] == before[k]);
                        } else {
                            assert((found + added)[k] == added[k - found.len()]);
                            assert(entry_matches(output@[k], (title@, first + (k - before.len()))));
                        }
                    }
                }
            },
        }
        index = index + 1;
    }
    proof {
        assert(lines@.len() == all.len());
    }
    let ghost found = entries_of_lines(all, all.len())->Ok_0;
    if output.len() == 0 {
        return Err(String::from_str("请至少填写一条校历事件"));
    }
    if output.len() > 500 {
        return Err(String::from_str("单个学期最多导入 500 个校历日期"));
    }
    Ok(output)
}

/// Once a line has an error, every longer prefix of the lines has it too.
proof fn lemma_errors_persist(lines: Seq<Seq<char>>, n: nat, m: nat)
    requires
        n <= m,
        entries_of_lines(lines, n) is Err,
    ensures
        entries_of_lines(lines, m) == entries_of_lines(lines, n),
    decreases m - n,
{
    if n < m {
        lemma_errors_persist(lines, n, (m - 1) as nat);
    }
}

proof fn lemma_entries_titled(lines: Seq<Seq<char>>, n: nat)
    ensures
        entries_of_lines(lines, n) matches Ok(found) ==> forall|k: int|
            0 <= k < found.len() ==> (#[trigger] found[k]).0.len() > 0,
    decreases n,
{
    if n > 0 {
        lemma_entries_titled(lines, (n - 1) as nat);
        match entries_of_lines(lines, (n - 1) as nat) {
            Ok(found) => match line_outcome(lines[n - 1], n) {
                Ok(Some((title, first, last))) => {
                    let all = found + expand_days(title, first, last);
                    assert forall|k: int| 0 <= k < all.len() implies (#[trigger] all[k]).0.len() > 0 by {
                        if k >= found.len() {
                            assert(all[k] == expand_days(title, first, last)[k - found.len()]);
                        }
                    }
                },
                _ => {},
            },
            Err(_) => {},
        }
    }
}

/// A line that names days names at least one and spans at most 120 days after
/// its first, under a title that is not empty.
pub proof fn lemma_line_span_bounded(raw: Seq<char>, number: nat)
    ensures
        line_outcome(raw, number) matches Ok(Some((title, first, last))) ==> title.len() > 0
            && first <= last <= first + 120,
{
}

/// An imported calendar holds at least one and at most 500 days, each with a
/// title that is not empty.
pub proof fn lemma_calendar_days_bounded(value: Seq<char>)
    ensures
        calendar_days(value) matches Ok(days) ==> 1 <= days.len() <= 500 && forall|
            k: int,
        |
            0 <= k < days.len() ==> (#[trigger] days[k]).0.len() > 0,
{
    let lines = text_lines(value);
    lemma_entries_titled(lines, lines.len());
}

/// Line `line` (numbered `number`) names day `d`: it is a valid line whose
/// range runs from its first to its last day and `d` lies in it.
pub open spec fn line_has_day(line: Seq<char>, number: nat, d: int) -> bool {
    match line_outcome(line, number) {
        Ok(Some((_, a, b))) => a <= d <= b,
        _ => false,
    }
}

/// Entry `entry` is a day of line `line` with the line's title.
pub open spec fn line_names(line: Seq<char>, number: nat, entry: (Seq<char>, int)) -> bool {
    line_has_day(line, number, entry.1) && line_title(line, number) == entry.0
}

/// The title of a valid line.
pub open spec fn line_title(line: Seq<char>, number: nat) -> Seq<char> {
    match line_outcome(line, number) {
        Ok(Some((t, _, _))) => t,
        _ => Seq::empty(),
    }
}

/// Some line among the first `n` names `entry`.
pub open spec fn named_by_a_line(lines: Seq<Seq<char>>, n: int, entry: (Seq<char>, int)) -> bool {
    exists|i: int| 0 <= i < n && #[trigger] line_names(lines[i], (i + 1) as nat, entry)
}

proof fn lemma_entries_cover_lines(lines: Seq<Seq<char>>, n: nat)
    requires
        n <= lines.len(),
    ensures
        entries_of_lines(lines, n) matches Ok(found) ==> {
            &&& forall|i: int, d: int|
                0 <= i < n && #[trigger] line_has_day(lines[i], (i + 1) as nat, d) ==> found.contains(
                    (line_title(lines[i], (i + 1) as nat), d),
                )
            &&& forall|k: int| 0 <= k < found.len() ==> named_by_a_line(lines, n as int, #[trigger] found[k])
        },
    decreases n,
{
    if n > 0 {
        let m = (n - 1) as nat;
        lemma_entries_cover_lines(lines, m);
        let last = n - 1;
        assert(((last + 1) as nat) == n);
        match entries_of_lines(lines, m) {
            Ok(prev) => {
                assert forall|k: int| 0 <= k < prev.len() implies named_by_a_line(lines, n as int, #[trigger] prev[k]) by {
                    assert(named_by_a_line(lines, m as int, prev[k]));
                    let i = choose|i: int| 0 <= i < m && #[trigger] line_names(lines[i], (i + 1) as nat, prev[k]);
                    assert(line_names(lines[i], (i + 1) as nat, prev[k]));
                }
                match line_outcome(lines[last], n) {
                    Ok(Some((t, a, b))) => {
                        let e = expand_days(t, a, b);
                        let found = prev + e;
                        assert(entries_of_lines(lines, n) == Ok::<Seq<(Seq<char>, int)>, Seq<char>>(found));
                        assert forall|i: int, d: int|
                            0 <= i < n && #[trigger] line_has_day(lines[i], (i + 1) as nat, d) implies found.contains(
                            (line_title(lines[i], (i + 1) as nat), d),
                        ) by {
                            if i < last {
                                let x = (line_title(lines[i], (i + 1) as nat), d);
                                assert(prev.contains(x));
                                let w = choose|w: int| 0 <= w < prev.len() && prev[w] == x;
                                assert(found[w] == prev[w]);
                            } else {
                                assert(found[prev.len() + (d - a)] == e[d - a]);
                            }
                        }
                        assert forall|k: int| 0 <= k < found.len() implies named_by_a_line(lines, n as int, #[trigger] found[k]) by {
                            if k < prev.len() {
                                assert(found[k] == prev[k]);
                            } else {
                                assert(found[k] == e[k - prev.len()]);
                                assert(line_names(lines[last], (last + 1) as nat, found[k]));
                            }
                        }
                    },
                    Ok(None) => {
                        assert(entries_of_lines(lines, n) == Ok::<Seq<(Seq<char>, int)>, Seq<char>>(prev));
                        assert forall|i: int, d: int|
                            0 <= i < n && #[trigger] line_has_day(lines[i], (i + 1) as nat, d) implies prev.contains(
                            (line_title(lines[i], (i + 1) as nat), d),
                        ) by {
                            if i == last {
                                assert(!line_has_day(lines[last], n, d));
                            }
                        }
                    },
                    Err(_) => {},
                }
            },
            Err(_) => {},
        }
    }
}

/// An imported calendar holds exactly the days its lines name: for every
/// valid line `first~last | title` (or a single date) every day from the
/// first to the last appears with the line's title, and every entry is such
/// a day of some line.
pub proof fn lemma_calendar_days_cover_lines(value: Seq<char>)
    ensures
        calendar_days(value) matches Ok(days) ==> {
            let lines = text_lines(value);
            &&& forall|i: int, d: int|
                0 <= i < lines.len() && #[trigger] line_has_day(lines[i], (i + 1) as nat, d)
                    ==> days.contains((line_title(lines[i], (i + 1) as nat), d))
            &&& forall|k: int|
                0 <= k < days.len() ==> named_by_a_line(lines, lines.len() as int, #[trigger] days[k])
        },
{
    let lines = text_lines(value);
    lemma_entries_cover_lines(lines, lines.len());
}

} // verus!
