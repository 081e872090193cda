//! Coursework deadlines from the iSpace (Moodle) iCalendar feed.
use vstd::prelude::*;

use crate::html::{html_rendering, html_to_text};
use crate::links::{is_university_host, parsed_url, scheme_and_host, university_host};
use crate::models::AssignmentDeadline;
use crate::text::{
    chars_equal, chars_equal_str, chars_lex_le, chars_of, contains, contains_chars, contains_str,
    find_char, first_index_of, is_unicode_whitespace, lemma_first_index_of, lemma_lex_le_total,
    lemma_lex_le_transitive,
    lex_le, lowercase_chars, push_all,
    push_signed_decimal, push_str, replace_all, replace_chars, replace_str, signed_decimal,
    slice_chars, starts_with, starts_with_str, string_of, trim, trim_chars, trim_start, trim_start_chars,
    unicode_lowercase, unicode_uppercase, uppercase_chars,
};
use crate::mail_provider::{split_chars, split_on};
use crate::times::{
    china_offset_seconds, first_timestamp, last_timestamp, rfc3339_of_timestamp, utc_rfc3339,
};

verus! {

/// An instant as chrono's `DateTime<Utc>` holds it: Unix seconds and the
/// nanoseconds within that second.
#[derive(Debug, Clone, Copy)]
pub struct UtcInstant {
    pub seconds: i64,
    pub nanos: u32,
}

// ---------------------------------------------------------------------------
// Lines and values of an iCalendar text
// ---------------------------------------------------------------------------
/// The lines of an iCalendar text with folded continuation lines (starting
/// with a space or a tab) joined to the line before, without their leading
/// whitespace.
pub open spec fn unfold(lines: Seq<Seq<char>>) -> Seq<Seq<char>>
    decreases lines.len(),
{
    if lines.len() == 0 {
        Seq::empty()
    } else {
        let prev = unfold(lines.drop_last());
        let line = lines.last();
        if (starts_with(line, " "@) || starts_with(line, "\t"@)) && prev.len() > 0 {
            prev.update(prev.len() - 1, prev.last() + trim_start(line))
        } else {
            prev.push(line)
        }
    }
}

/// The unfolded lines of an iCalendar text, `\r\n` taken as `\n`.
pub open spec fn unfolded_lines(input: Seq<char>) -> Seq<Seq<char>> {
    unfold(split_on(replace_all(input, "\r\n"@, "\n"@), '\n'))
}

proof fn lemma_trim_start_head(s: Seq<char>)
    ensures
        trim_start(s).len() > 0 ==> !is_unicode_whitespace(trim_start(s)[0]),
    decreases s.len(),
{
    if s.len() > 0 && is_unicode_whitespace(s[0]) {
        lemma_trim_start_head(s.drop_first());
    }
}

proof fn lemma_starts_with_char(s: Seq<char>, c: char)
    ensures
        starts_with(s, seq![c]) <==> s.len() > 0 && s[0] == c,
{
    if s.len() > 0 && s[0] == c {
        assert(s.subrange(0, 1) =~= seq![c]);
    }
    if starts_with(s, seq![c]) {
        assert(s.subrange(0, 1)[0] == s[0]);
    }
}

proof fn lemma_unfold_no_continuation(lines: Seq<Seq<char>>)
    ensures
        forall|i: int|
            0 < i < unfold(lines).len() ==> !starts_with(#[trigger] unfold(lines)[i], " "@)
                && !starts_with(unfold(lines)[i], "\t"@),
    decreases lines.len(),
{
    reveal_strlit(" ");
    reveal_strlit("\t");
    assert(" "@ =~= seq![' ']);
    assert("\t"@ =~= seq!['\t']);
    if lines.len() > 0 {
        let prev = unfold(lines.drop_last());
        let line = lines.last();
        lemma_unfold_no_continuation(lines.drop_last());
        if (starts_with(line, " "@) || starts_with(line, "\t"@)) && prev.len() > 0 {
            let joined = prev.last() + trim_start(line);
            let r = prev.update(prev.len() - 1, joined);
            assert(r == unfold(lines));
            lemma_trim_start_head(line);
            lemma_starts_with_char(joined, ' ');
            lemma_starts_with_char(joined, '\t');
            lemma_starts_with_char(prev.last(), ' ');
            lemma_starts_with_char(prev.last(), '\t');
            assert forall|i: int| 0 < i < r.len() implies !starts_with(#[trigger] r[i], " "@)
                && !starts_with(r[i], "\t"@) by {
                if i == prev.len() - 1 {
                    assert(r[i] == joined);
                    if joined.len() > 0 {
                        if prev.last().len() > 0 {
                            assert(joined[0] == prev.last()[0]);
                            assert(prev[i] == prev.last());
                        } else {
                            assert(joined =~= trim_start(line));
                            assert(!is_unicode_whitespace(joined[0]));
                        }
                    }
                } else {
                    assert(r[i] == prev[i]);
                }
            }
        } else {
            let r = prev.push(line);
            assert(r == unfold(lines));
            assert forall|i: int| 0 < i < r.len() implies !starts_with(#[trigger] r[i], " "@)
                && !starts_with(r[i], "\t"@) by {
                if i < prev.len() {
                    assert(r[i] == prev[i]);
                }
            }
        }
    }
}

/// Unfolding leaves no continuation line: after the first, no line starts
/// with a space or a tab.
pub proof fn lemma_unfolded_lines_have_no_continuation(input: Seq<char>)
    ensures
        forall|i: int|
            0 < i < unfolded_lines(input).len() ==> !starts_with(
                #[trigger] unfolded_lines(input)[i],
                " "@,
            ) && !starts_with(unfolded_lines(input)[i], "\t"@),
{
    lemma_unfold_no_continuation(split_on(replace_all(input, "\r\n"@, "\n"@), '\n'));
}

/// Splits an iCalendar text into its unfolded lines.
pub fn unfold_lines(input: &str) -> (r: Vec<String>)
    ensures
        r@.len() == unfolded_lines(input@).len(),
        forall|k: int| 0 <= k < r@.len() ==> #[trigger] r@[k]@ == unfolded_lines(input@)[k],
{
    let lines = unfolded_line_chars(input);
    let mut out: Vec<String> = Vec::new();
    let mut i: usize = 0;
    while i < lines.len()
        invariant
            i <= lines@.len(),
            lines@.len() == unfolded_lines(input@).len(),
            forall|k: int| 0 <= k < lines@.len() ==> #[trigger] lines@[k]@ == unfolded_lines(input@)[k],
            out@.len() == i,
            forall|k: int| 0 <= k < i ==> #[trigger] out@[k]@ == unfolded_lines(input@)[k],
        decreases lines@.len() - i,
    {
        out.push(string_of(&lines[i]));
        i = i + 1;
    }
    out
}

/// The unfolded lines of an iCalendar text, as characters.
fn unfolded_line_chars(input: &str) -> (r: Vec<Vec<char>>)
    ensures
        r@.len() == unfolded_lines(input@).len(),
        forall|k: int| 0 <= k < r@.len() ==> #[trigger] r@[k]@ == unfolded_lines(input@)[k],
{
    let c = chars_of(input);
    proof {
        reveal_strlit("\r\n");
    }
    let c = replace_str(&c, "\r\n", "\n");
    let pieces = split_chars(&c, '\n');
    let ghost all = split_on(c@, '\n');
    let mut out: Vec<Vec<char>> = Vec::new();
    let mut i: usize = 0;
    proof {
        assert(all.take(0) =~= Seq::<Seq<char>>::empty());
    }
    while i < pieces.len()
        invariant
            i <= pieces@.len(),
            all == split_on(c@, '\n'),
            pieces@.len() == all.len(),
            forall|k: int| 0 <= k < pieces@.len() ==> #[trigger] pieces@[k]@ == all[k],
            out@.len() == unfold(all.take(i as int)).len(),
            forall|k: int| 0 <= k < out@.len() ==> #[trigger] out@[k]@ == unfold(all.take(i as int))[k],
        decreases pieces@.len() - i,
    {
        proof {
            assert(all.take(i + 1).drop_last() =~= all.take(i as int));
            assert(all.take(i + 1).last() == pieces@[i as int]@);
        }
        let line = &pieces[i];
        let continues = starts_with_str(line, " ") || starts_with_str(line, "\t");
        if continues && out.len() > 0 {
            let last_index = out.len() - 1;
            let mut last = slice_chars(&out[last_index], 0, out[last_index].len());
            let rest = trim_start_chars(line);
            push_all(&mut last, &rest);
            let ghost prev = out@;
            out.set(last_index, last);
            proof {
                let expected = unfold(all.take(i as int));
                assert forall|k: int| 0 <= k < out@.len() implies #[trigger] out@[k]@ == unfold(
                    all.take(i + 1),
                )[k] by {
                    if k < last_index {
                        assert(out@[k] == prev[k]);
                    }
                }
            }
        } else {
            out.push(slice_chars(line, 0, line.len()));
        }
        i = i + 1;
    }
    proof {
        assert(all.take(pieces@.len() as int) =~= all);
    }
    out
}

/// An iCalendar value with its escapes `\n`, `\N`, `\,`, `\;` and `\\`
/// resolved, in that order.
pub open spec fn unescaped(value: Seq<char>) -> Seq<char> {
    let a = replace_all(value, "\\n"@, "\n"@);
    let b = replace_all(a, "\\N"@, "\n"@);
    let c = replace_all(b, "\\,"@, ","@);
    let d = replace_all(c, "\\;"@, ";"@);
    replace_all(d, "\\\\"@, "\\"@)
}

/// Resolves the escapes of an iCalendar value.
pub fn unescape(value: &str) -> (r: String)
    ensures
        r@ == unescaped(value@),
{
    let c = chars_of(value);
    let c = unescape_chars(&c);
    string_of(&c)
}

fn unescape_chars(value: &[char]) -> (r: Vec<char>)
    ensures
        r@ == unescaped(value@),
{
    proof {
        reveal_strlit("\\n");
        reveal_strlit("\\N");
        reveal_strlit("\\,");
        reveal_strlit("\\;");
        reveal_strlit("\\\\");
    }
    let c = replace_str(value, "\\n", "\n");
    let c = replace_str(&c, "\\N", "\n");
    let c = replace_str(&c, "\\,", ",");
    let c = replace_str(&c, "\\;", ";");
    replace_str(&c, "\\\\", "\\")
}

// ---------------------------------------------------------------------------
// Dates of an event (chrono)
// ---------------------------------------------------------------------------
/// What `DateTime::parse_from_str(value, "%Y%m%dT%H%M%SZ")` gives, as Unix seconds.
pub uninterp spec fn zulu_compact_timestamp(value: Seq<char>) -> Option<int>;

/// What `NaiveDateTime::parse_from_str(value, "%Y%m%dT%H%M%S")` gives, read
/// at the fixed offset of `offset` seconds east of UTC
/// (`from_local_datetime(..).single()`): `None` when the text does not parse,
/// `Some(None)` when the local time has no instant chrono holds, else Unix
/// seconds.
pub uninterp spec fn compact_local_timestamp(value: Seq<char>, offset: int) -> Option<Option<int>>;

/// What `NaiveDate::parse_from_str(value, "%Y%m%d")` gives, taken at
/// `hour:minute:00` at the fixed offset of `offset` seconds east of UTC, as
/// Unix seconds.
pub uninterp spec fn date_time_timestamp(value: Seq<char>, hour: int, minute: int, offset: int) -> Option<int>;

/// The hour and minute at which an event given by its date alone is due.
pub open spec fn day_end_hour() -> int {
    23
}

/// See `day_end_hour`.
pub open spec fn day_end_minute() -> int {
    59
}

/// Calls `chrono::DateTime::parse_from_str` with `%Y%m%dT%H%M%SZ`; the instant
/// is named `zulu_compact_timestamp` and lies in chrono's range. chrono needs
/// an offset in the text for a `DateTime` and this format has no offset field,
/// so the call gives an error for every text; that is left unstated here.
#[verifier::external_body]
fn parse_zulu_compact(value: &str) -> (r: Option<i64>)
    ensures
        r matches Some(t) ==> zulu_compact_timestamp(value@) == Some(t as int) && first_timestamp()
            <= t <= last_timestamp(),
        r is None ==> zulu_compact_timestamp(value@) is None,
{
    match chrono::DateTime::parse_from_str(value, "%Y%m%dT%H%M%SZ") {
        Ok(instant) => Some(instant.timestamp()),
        Err(_) => None,
    }
}

/// Calls `chrono::NaiveDateTime::parse_from_str` with `%Y%m%dT%H%M%S` and
/// places the result at the fixed offset of `offset_seconds` east of UTC with
/// `TimeZone::from_local_datetime(..).single()`; named
/// `compact_local_timestamp` of the text and the offset; the instant lies in
/// chrono's range. `FixedOffset::east_opt` accepts every offset `requires`
/// admits.
#[verifier::external_body]
fn parse_compact_local(value: &str, offset_seconds: i32) -> (r: Option<Option<i64>>)
    requires
        -86400 < offset_seconds < 86400,
    ensures
        r matches Some(Some(t)) ==> compact_local_timestamp(value@, offset_seconds as int) == Some(
            Some(t as int),
        ) && first_timestamp() <= t <= last_timestamp(),
        r matches Some(None) ==> compact_local_timestamp(value@, offset_seconds as int) == Some(
            None::<int>,
        ),
        r is None ==> compact_local_timestamp(value@, offset_seconds as int) is None,
{
    let zone = chrono::FixedOffset::east_opt(offset_seconds).unwrap();
    match chrono::NaiveDateTime::parse_from_str(value, "%Y%m%dT%H%M%S") {
        Ok(local) => match chrono::TimeZone::from_local_datetime(&zone, &local).single() {
            Some(instant) => Some(Some(instant.timestamp())),
            None => Some(None),
        },
        Err(_) => None,
    }
}

/// Calls `chrono::NaiveDate::parse_from_str` with `%Y%m%d`, takes
/// `hour:minute:00` of that day (`and_hms_opt`) at the fixed offset of
/// `offset_seconds` east of UTC (`from_local_datetime(..).single()`); named
/// `date_time_timestamp`; the instant lies in chrono's range.
#[verifier::external_body]
fn parse_date_at(value: &str, hour: u32, minute: u32, offset_seconds: i32) -> (r: Option<i64>)
    requires
        hour < 24,
        minute < 60,
        -86400 < offset_seconds < 86400,
    ensures
        r matches Some(t) ==> date_time_timestamp(
            value@,
            hour as int,
            minute as int,
            offset_seconds as int,
        ) == Some(t as int) && first_timestamp() <= t <= last_timestamp(),
        r is None ==> date_time_timestamp(value@, hour as int, minute as int, offset_seconds as int) is None,
{
    let zone = chrono::FixedOffset::east_opt(offset_seconds).unwrap();
    match chrono::NaiveDate::parse_from_str(value, "%Y%m%d") {
        Ok(date) => match date.and_hms_opt(hour, minute, 0) {
            Some(local) => match chrono::TimeZone::from_local_datetime(&zone, &local).single() {
                Some(instant) => Some(instant.timestamp()),
                None => None,
            },
            None => None,
        },
        Err(_) => None,
    }
}

/// The instant of an event's `DTSTART` value: a UTC `…Z` time, else a local
/// time at UTC+8 (if it parses, its instant or nothing), else a date taken at
/// 23:59 UTC+8.
pub open spec fn ical_date(value: Seq<char>) -> Option<int> {
    match zulu_compact_timestamp(value) {
        Some(t) => Some(t),
        None => match compact_local_timestamp(value, china_offset_seconds()) {
            Some(local) => local,
            None => date_time_timestamp(value, day_end_hour(), day_end_minute(), china_offset_seconds()),
        },
    }
}

/// Parses the date of an event.
pub fn parse_ical_date(value: &str) -> (r: Option<i64>)
    ensures
        r matches Some(t) ==> ical_date(value@) == Some(t as int) && first_timestamp() <= t
            <= last_timestamp(),
        r is None ==> ical_date(value@) is None,
{
    match parse_zulu_compact(value) {
        Some(t) => {
            return Some(t);
        },
        None => {},
    }
    match parse_compact_local(value, 28800) {
        Some(local) => {
            return local;
        },
        None => {},
    }
    parse_date_at(value, 23, 59, 28800)
}

// ---------------------------------------------------------------------------
// Events
// ---------------------------------------------------------------------------
/// The properties of an event: name (upper-cased, parameters dropped) and value.
pub type Fields = Seq<(Seq<char>, Seq<char>)>;

/// An assignment as sequences: id, title, course, due time, description, URL
/// and source.
pub type AssignmentText = (
    Seq<char>,
    Seq<char>,
    Seq<char>,
    Seq<char>,
    Seq<char>,
    Option<Seq<char>>,
    Seq<char>,
);

/// The value of the first property called `name`.
pub open spec fn field(fields: Fields, name: Seq<char>) -> Option<Seq<char>>
    decreases fields.len(),
{
    if fields.len() == 0 {
        None
    } else if fields[0].0 == name {
        Some(fields[0].1)
    } else {
        field(fields.drop_first(), name)
    }
}

/// Markers of coursework in an event's title, description or URL.
pub open spec fn coursework_markers() -> Seq<Seq<char>> {
    seq![
        "/mod/assign/"@,
        "/mod/quiz/"@,
        "/mod/turnitintooltwo/"@,
        "/mod/workshop/"@,
        "assignment"@,
        "quiz"@,
        "turnitin"@,
        "作业"@,
        "测验"@,
        "提交"@,
        "报告"@,
        "project"@,
    ]
}

/// Some coursework marker occurs in the text.
pub open spec fn has_marker(haystack: Seq<char>) -> bool {
    exists|i: int| 0 <= i < coursework_markers().len() && contains(haystack, coursework_markers()[i])
}

/// `due` is earlier than `now`.
pub open spec fn before_instant(due: int, now: UtcInstant) -> bool {
    due < now.seconds || (due == now.seconds && now.nanos > 0)
}

/// A value or a default.
pub open spec fn or_else(o: Option<Seq<char>>, d: Seq<char>) -> Seq<char> {
    match o {
        Some(v) => v,
        None => d,
    }
}

/// What an event offers before the present time is looked at: `None` when it
/// is no coursework or has no readable start, else its due instant and its
/// assignment, or `Err(())` when its HTML description cannot be rendered.
pub open spec fn event_candidate(fields: Fields) -> Option<(int, Result<AssignmentText, ()>)> {
    match field(fields, "SUMMARY"@) {
        None => None,
        Some(title) => {
            let description = or_else(field(fields, "DESCRIPTION"@), Seq::empty());
            let url = field(fields, "URL"@);
            let haystack = unicode_lowercase(
                title + " "@ + description + " "@ + or_else(url, Seq::empty()),
            );
            if !has_marker(haystack) {
                None
            } else {
                match field(fields, "DTSTART"@) {
                    None => None,
                    Some(start) => match ical_date(start) {
                        None => None,
                        Some(due) => {
                            let id = or_else(
                                field(fields, "UID"@),
                                title + ":"@ + signed_decimal(due),
                            );
                            let course = match field(fields, "CATEGORIES"@) {
                                Some(c) => c,
                                None => or_else(field(fields, "LOCATION"@), "iSpace 课程"@),
                            };
                            let plain = if contains(description, "<"@) {
                                html_rendering(description, 100)
                            } else {
                                Some(description)
                            };
                            Some(
                                (
                                    due,
                                    match plain {
                                        None => Err(()),
                                        Some(p) => Ok(
                                            (
                                                id,
                                                title,
                                                course,
                                                utc_rfc3339(due)->Some_0,
                                                trim(p),
                                                url,
                                                "iSpace"@,
                                            ),
                                        ),
                                    },
                                ),
                            )
                        },
                    },
                }
            }
        },
    }
}

/// What an event gives: `Ok(None)` when it is no future coursework,
/// `Ok(Some(a))` for an assignment, `Err(())` when its HTML description cannot
/// be rendered (where reading the feed panics).
pub open spec fn event_assignment(fields: Fields, now: UtcInstant) -> Result<
    Option<AssignmentText>,
    (),
> {
    match event_candidate(fields) {
        None => Ok(None),
        Some((due, r)) => if before_instant(due, now) {
            Ok(None)
        } else {
            match r {
                Err(()) => Err(()),
                Ok(a) => Ok(Some(a)),
            }
        },
    }
}

/// The state of reading an iCalendar text line by line: assignments so far,
/// properties of the open event, whether an event is open, and whether an
/// event could not be read.
pub type FeedState = (Seq<AssignmentText>, Fields, bool, bool);

/// The property of a line inside an event, if the line has a `:`.
pub open spec fn line_property(line: Seq<char>) -> Option<(Seq<char>, Seq<char>)> {
    match first_index_of(line, ':') {
        None => None,
        Some(colon) => {
            let key = line.subrange(0, colon);
            let name = match first_index_of(key, ';') {
                Some(semi) => key.subrange(0, semi),
                None => key,
            };
            Some((unicode_uppercase(name), unescaped(line.subrange(colon + 1, line.len() as int))))
        },
    }
}

/// The state after one line.
pub open spec fn feed_step(state: FeedState, line: Seq<char>, now: UtcInstant) -> FeedState {
    let (events, current, inside, failed) = state;
    if line == "BEGIN:VEVENT"@ {
        (events, Seq::empty(), true, failed)
    } else if line == "END:VEVENT"@ {
        if inside {
            match event_assignment(current, now) {
                Err(()) => (events, current, false, true),
                Ok(None) => (events, current, false, failed),
                Ok(Some(a)) => (events.push(a), current, false, failed),
            }
        } else {
            (events, current, false, failed)
        }
    } else if inside {
        match line_property(line) {
            Some(p) => (events, current.push(p), inside, failed),
            None => state,
        }
    } else {
        state
    }
}

/// The state after the first `n` lines.
pub open spec fn feed_state(lines: Seq<Seq<char>>, n: nat, now: UtcInstant) -> FeedState
    decreases n,
{
    if n == 0 {
        (Seq::empty(), Seq::empty(), false, false)
    } else {
        feed_step(feed_state(lines, (n - 1) as nat, now), lines[n - 1], now)
    }
}

/// Position at which an assignment due at `due` goes into `sorted`: after
/// every assignment due at or before it.
pub open spec fn insertion_point(sorted: Seq<AssignmentText>, due: Seq<char>) -> int
    decreases sorted.len(),
{
    if sorted.len() == 0 {
        0
    } else if lex_le(sorted[0].3, due) {
        1 + insertion_point(sorted.drop_first(), due)
    } else {
        0
    }
}

/// The assignments ordered by their due text, stably (`sort_by` on `due_at`).
pub open spec fn sorted_by_due(items: Seq<AssignmentText>) -> Seq<AssignmentText>
    decreases items.len(),
{
    if items.len() == 0 {
        Seq::empty()
    } else {
        let prefix = sorted_by_due(items.drop_last());
        prefix.insert(insertion_point(prefix, items.last().3), items.last())
    }
}

/// The feed can be read without a panic.
pub open spec fn feed_readable(ics: Seq<char>, now: UtcInstant) -> bool {
    let lines = unfolded_lines(ics);
    !feed_state(lines, lines.len(), now).3
}

/// The future coursework of a feed, ordered by due time.
pub open spec fn feed_assignments(ics: Seq<char>, now: UtcInstant) -> Seq<AssignmentText> {
    let lines = unfolded_lines(ics);
    sorted_by_due(feed_state(lines, lines.len(), now).0)
}

/// The sequences of an assignment record.
pub open spec fn assignment_text(a: AssignmentDeadline) -> AssignmentText {
    (a.id@, a.title@, a.course@, a.due_at@, a.description@, crate::links::opt_view(a.url), a.source@)
}

// ---------------------------------------------------------------------------
// Implementation of the feed reading
// ---------------------------------------------------------------------------
/// The sequences of a list of properties.
pub open spec fn fields_view(v: Seq<(Vec<char>, Vec<char>)>) -> Fields {
    v.map_values(|p: (Vec<char>, Vec<char>)| (p.0@, p.1@))
}

/// The value of the first property called `name`.
fn field_value(fields: &Vec<(Vec<char>, Vec<char>)>, name: &str) -> (r: Option<Vec<char>>)
    ensures
        r matches Some(v) ==> field(fields_view(fields@), name@) == Some(v@),
        r is None ==> field(fields_view(fields@), name@) is None,
{
    let n = chars_of(name);
    let ghost all = fields_view(fields@);
    let mut i: usize = 0;
    proof {
        assert(all.subrange(0, all.len() as int) =~= all);
    }
    while i < fields.len()
        invariant
            i <= fields@.len(),
            all == fields_view(fields@),
            n@ == name@,
            field(all, name@) == field(all.subrange(i as int, all.len() as int), name@),
        decreases fields@.len() - i,
    {
        proof {
            let rest = all.subrange(i as int, all.len() as int);
            assert(rest[0] == (fields@[i as int].0@, fields@[i as int].1@));
            assert(rest.drop_first() =~= all.subrange(i + 1, all.len() as int));
        }
        if chars_equal(&fields[i].0, &n) {
            return Some(slice_chars(&fields[i].1, 0, fields[i].1.len()));
        }
        i = i + 1;
    }
    proof {
        assert(all.subrange(i as int, all.len() as int).len() == 0);
    }
    None
}

fn coursework_marker_list() -> (r: Vec<&'static str>)
    ensures
        r@.map_values(|w: &str| w@) == coursework_markers(),
{
    let r = vec![
        "/mod/assign/",
        "/mod/quiz/",
        "/mod/turnitintooltwo/",
        "/mod/workshop/",
        "assignment",
        "quiz",
        "turnitin",
        "作业",
        "测验",
        "提交",
        "报告",
        "project",
    ];
    assert(r@.map_values(|w: &str| w@) =~= coursework_markers());
    r
}

/// Whether some coursework marker occurs in `haystack`.
fn mentions_coursework(haystack: &[char]) -> (r: bool)
    ensures
        r == has_marker(haystack@),
{
    let markers = coursework_marker_list();
    let mut i: usize = 0;
    while i < markers.len()
        invariant
            i <= markers@.len(),
            markers@.map_values(|w: &str| w@) == coursework_markers(),
            forall|j: int| 0 <= j < i ==> !contains(haystack@, #[trigger] coursework_markers()[j]),
        decreases markers@.len() - i,
    {
        assert(markers@[i as int]@ == coursework_markers()[i as int]);
        if contains_str(haystack, markers[i]) {
            return true;
        }
        i = i + 1;
    }
    false
}

/// `due` is earlier than `now`.
fn is_before(due: i64, now: &UtcInstant) -> (r: bool)
    ensures
        r == before_instant(due as int, *now),
{
    due < now.seconds || (due == now.seconds && now.nanos > 0)
}

/// An optional character sequence as an optional string.
fn opt_string(v: &Option<Vec<char>>) -> (r: Option<String>)
    ensures
        crate::links::opt_view(r) == (match v {
            Some(x) => Some(x@),
            None => None::<Seq<char>>,
        }),
{
    match v {
        Some(x) => Some(string_of(x)),
        None => None,
    }
}

/// What an event gives; `Err(())` when its HTML description cannot be rendered.
fn assignment_of_event(fields: &Vec<(Vec<char>, Vec<char>)>, now: &UtcInstant) -> (r: Result<
    Option<AssignmentDeadline>,
    (),
>)
    ensures
        match event_assignment(fields_view(fields@), *now) {
            Err(()) => r is Err,
            Ok(None) => r matches Ok(None),
            Ok(Some(a)) => r matches Ok(Some(d)) && assignment_text(d) == a,
        },
{
    let title = match field_value(fields, "SUMMARY") {
        None => {
            return Ok(None);
        },
        Some(t) => t,
    };
    let description = match field_value(fields, "DESCRIPTION") {
        Some(d) => d,
        None => Vec::new(),
    };
    let url = field_value(fields, "URL");
    let mut hay: Vec<char> = slice_chars(&title, 0, title.len());
    push_str(&mut hay, " ");
    push_all(&mut hay, &description);
    push_str(&mut hay, " ");
    match &url {
        Some(u) => push_all(&mut hay, u),
        None => {},
    }
    proof {
        let u = or_else(field(fields_view(fields@), "URL"@), Seq::empty());
        assert(hay@ =~= title@ + " "@ + description@ + " "@ + u);
    }
    let haystack = lowercase_chars(&hay);
    if !mentions_coursework(&haystack) {
        return Ok(None);
    }
    let start = match field_value(fields, "DTSTART") {
        None => {
            return Ok(None);
        },
        Some(s) => s,
    };
    let start_text = string_of(&start);
    let due = match parse_ical_date(start_text.as_str()) {
        None => {
            return Ok(None);
        },
        Some(d) => d,
    };
    if is_before(due, now) {
        return Ok(None);
    }
    let id = match field_value(fields, "UID") {
        Some(v) => v,
        None => {
            let mut v = slice_chars(&title, 0, title.len());
            push_str(&mut v, ":");
            push_signed_decimal(&mut v, due);
            v
        },
    };
    let course = match field_value(fields, "CATEGORIES") {
        Some(c) => c,
        None => match field_value(fields, "LOCATION") {
            Some(l) => l,
            None => chars_of("iSpace 课程"),
        },
    };
    let plain = if contains_str(&description, "<") {
        let html = string_of(&description);
        match html_to_text(html.as_str(), 100) {
            Some(t) => chars_of(t.as_str()),
            None => {
                return Err(());
            },
        }
    } else {
        description
    };
    let due_at = match rfc3339_of_timestamp(due) {
        Some(t) => t,
        None => {
            return Ok(None);
        },
    };
    let description_text = trim_chars(&plain);
    Ok(
        Some(
            AssignmentDeadline {
                id: string_of(&id),
                title: string_of(&title),
                course: string_of(&course),
                due_at,
                description: string_of(&description_text),
                url: opt_string(&url),
                source: String::from_str("iSpace"),
            },
        ),
    )
}

/// The property of a line inside an event.
fn property_of_line(line: &[char]) -> (r: Option<(Vec<char>, Vec<char>)>)
    ensures
        match line_property(line@) {
            Some(p) => r matches Some(q) && q.0@ == p.0 && q.1@ == p.1,
            None => r is None,
        },
{
    proof {
        lemma_first_index_of(line@, ':');
    }
    let colon = match find_char(line, ':') {
        None => {
            return None;
        },
        Some(c) => c,
    };
    let key = slice_chars(line, 0, colon);
    proof {
        lemma_first_index_of(key@, ';');
    }
    let name = match find_char(&key, ';') {
        Some(semi) => slice_chars(&key, 0, semi),
        None => key,
    };
    assert(colon < line@.len() && line@.len() == line.len());
    let value = slice_chars(line, colon + 1, line.len());
    Some((uppercase_chars(&name), unescape_chars(&value)))
}

/// Once an event cannot be read, the state says so for every longer prefix.
proof fn lemma_failure_persists(lines: Seq<Seq<char>>, n: nat, m: nat, now: UtcInstant)
    requires
        n <= m,
        feed_state(lines, n, now).3,
    ensures
        feed_state(lines, m, now).3,
    decreases m - n,
{
    if n < m {
        lemma_failure_persists(lines, n, (m - 1) as nat, now);
    }
}

/// The assignment texts of a list of records.
pub open spec fn assignment_texts(v: Seq<AssignmentDeadline>) -> Seq<AssignmentText> {
    v.map_values(|a: AssignmentDeadline| assignment_text(a))
}

/// Reads the events of the feed in order; `None` when an event cannot be read.
fn read_feed(ics: &str, now: &UtcInstant) -> (r: Option<Vec<AssignmentDeadline>>)
    ensures
        r is None <==> !feed_readable(ics@, *now),
        r matches Some(v) ==> assignment_texts(v@) == feed_state(
            unfolded_lines(ics@),
            unfolded_lines(ics@).len(),
            *now,
        ).0,
{
    let lines = unfolded_line_chars(ics);
    let ghost all = unfolded_lines(ics@);
    let mut events: Vec<AssignmentDeadline> = Vec::new();
    let mut current: Vec<(Vec<char>, Vec<char>)> = Vec::new();
    let mut inside = false;
    let mut i: usize = 0;
    while i < lines.len()
        invariant
            i <= lines@.len(),
            all == unfolded_lines(ics@),
            lines@.len() == all.len(),
            forall|k: int| 0 <= k < lines@.len() ==> #[trigger] lines@[k]@ == all[k],
            feed_state(all, i as nat, *now) == (
                assignment_texts(events@),
                fields_view(current@),
                inside,
                false,
            ),
        decreases lines@.len() - i,
    {
        let line = &lines[i];
        assert(line@ == all[i as int]);
        let ghost prev = feed_state(all, i as nat, *now);
        if chars_equal_str(line, "BEGIN:VEVENT") {
            inside = true;
            current = Vec::new();
            proof {
                assert(fields_view(current@) =~= Seq::<(Seq<char>, Seq<char>)>::empty());
            }
        } else if chars_equal_str(line, "END:VEVENT") {
            if inside {
                match assignment_of_event(&current, now) {
                    Err(()) => {
                        proof {
                            lemma_failure_persists(all, (i + 1) as nat, all.len(), *now);
                        }
                        return None;
                    },
                    Ok(None) => {},
                    Ok(Some(a)) => {
                        let ghost before = assignment_texts(events@);
                        events.push(a);
                        proof {
                            assert(assignment_texts(events@) =~= before.push(
                                assignment_text(events@.last()),
                            ));
                        }
                    },
                }
            }
            inside = false;
        } else if inside {
            match property_of_line(line) {
                Some(p) => {
                    let ghost before = fields_view(current@);
                    current.push(p);
                    proof {
                        assert(fields_view(current@) =~= before.push(
                            (current@.last().0@, current@.last().1@),
                        ));
                    }
                },
                None => {},
            }
        }
        i = i + 1;
    }
    Some(events)
}

/// Where an assignment due at `due` goes into `sorted`.
fn insertion_index(sorted: &Vec<AssignmentDeadline>, due: &[char]) -> (r: usize)
    ensures
        r == insertion_point(assignment_texts(sorted@), due@),
        r <= sorted@.len(),
{
    let ghost all = assignment_texts(sorted@);
    let mut k: usize = 0;
    proof {
        assert(all.subrange(0, all.len() as int) =~= all);
    }
    loop
        invariant
            k <= sorted@.len(),
            all == assignment_texts(sorted@),
            insertion_point(all, due@) == k + insertion_point(
                all.subrange(k as int, all.len() as int),
                due@,
            ),
        decreases sorted@.len() - k,
    {
        let rest = Ghost(all.subrange(k as int, all.len() as int));
        if k == sorted.len() {
            return k;
        }
        let key = chars_of(sorted[k].due_at.as_str());
        proof {
            assert(rest@[0] == assignment_text(sorted@[k as int]));
            assert(rest@.drop_first() =~= all.subrange(k + 1, all.len() as int));
        }
        if !chars_lex_le(&key, due) {
            return k;
        }
        k = k + 1;
    }
}

/// The assignments in stable order of their due text.
fn sort_by_due(items: Vec<AssignmentDeadline>) -> (r: Vec<AssignmentDeadline>)
    ensures
        assignment_texts(r@) == sorted_by_due(assignment_texts(items@)),
{
    let ghost all = assignment_texts(items@);
    let mut sorted: Vec<AssignmentDeadline> = Vec::new();
    let mut rest = items;
    let mut taken: Vec<AssignmentDeadline> = Vec::new();
    let mut i: usize = 0;
    let n = rest.len();
    proof {
        assert(all.take(0) =~= Seq::<AssignmentText>::empty());
    }
    while i < n
        invariant
            n == all.len(),
            i <= n,
            rest@.len() == n,
            all == assignment_texts(rest@),
            assignment_texts(sorted@) == sorted_by_due(all.take(i as int)),
        decreases n - i,
    {
        proof {
            assert(all.take(i + 1).drop_last() =~= all.take(i as int));
            assert(all.take(i + 1).last() == assignment_text(rest@[i as int]));
        }
        let item = rest[i].clone_record();
        let due = chars_of(item.due_at.as_str());
        let pos = insertion_index(&sorted, &due);
        let ghost before = assignment_texts(sorted@);
        sorted.insert(pos, item);
        proof {
            assert(assignment_texts(sorted@) =~= before.insert(pos as int, all[i as int]));
        }
        i = i + 1;
    }
    proof {
        assert(all.take(n as int) =~= all);
    }
    sorted
}

impl AssignmentDeadline {
    /// A copy of the record.
    pub fn clone_record(&self) -> (r: AssignmentDeadline)
        ensures
            assignment_text(r) == assignment_text(*self),
    {
        AssignmentDeadline {
            id: self.id.clone(),
            title: self.title.clone(),
            course: self.course.clone(),
            due_at: self.due_at.clone(),
            description: self.description.clone(),
            url: match &self.url {
                Some(u) => Some(u.clone()),
                None => None,
            },
            source: self.source.clone(),
        }
    }
}

/// The future coursework of an iSpace calendar feed: events whose title,
/// description or URL mark them as coursework and whose start is not before
/// `now`, in stable order of their due time's RFC 3339 text.
pub fn parse_assignments(ics: &str, now: UtcInstant) -> (r: Vec<AssignmentDeadline>)
    requires
        feed_readable(ics@, now),
    ensures
        assignment_texts(r@) == feed_assignments(ics@, now),
{
    match read_feed(ics, &now) {
        Some(events) => sort_by_due(events),
        None => Vec::new(),
    }
}

/// `parse_assignments` for any feed: `None` exactly where an HTML description
/// of a future coursework event cannot be rendered, the inputs on which reading
/// the feed panics.
pub fn try_parse_assignments(ics: &str, now: UtcInstant) -> (r: Option<Vec<AssignmentDeadline>>)
    ensures
        r is None <==> !feed_readable(ics@, now),
        r matches Some(v) ==> assignment_texts(v@) == feed_assignments(ics@, now),
{
    match read_feed(ics, &now) {
        None => None,
        Some(_) => Some(parse_assignments(ics, now)),
    }
}

// ---------------------------------------------------------------------------
// Fetching the feed: the decisions around the HTTP request
// ---------------------------------------------------------------------------
/// Outcome of checking the stored feed address before it is requested.
pub open spec fn feed_url_check(url: Seq<char>) -> Result<(), Seq<char>> {
    match parsed_url(url) {
        None => Err("iSpace 日历 URL 格式无效"@),
        Some((scheme, host)) => if scheme == "https"@ && (host matches Some(h)
            && is_university_host(h)) {
            Ok(())
        } else {
            Err("请使用 https://ispace.bnbu.edu.cn 生成的日历 URL"@)
        },
    }
}

/// Checks the feed address before it is requested.
pub fn check_feed_url(calendar_url: &str) -> (r: Result<(), String>)
    ensures
        match feed_url_check(calendar_url@) {
            Ok(()) => r is Ok,
            Err(e) => r matches Err(m) && m@ == e,
        },
{
    match scheme_and_host(calendar_url) {
        None => Err(String::from_str("iSpace 日历 URL 格式无效")),
        Some((scheme, host)) => {
            let trusted = match &host {
                Some(h) => university_host(h.as_str()),
                None => false,
            };
            if !chars_equal_str(&chars_of(scheme.as_str()), "https") || !trusted {
                Err(String::from_str("请使用 https://ispace.bnbu.edu.cn 生成的日历 URL"))
            } else {
                Ok(())
            }
        },
    }
}

/// The message for a request that failed before any response.
pub open spec fn request_failure_message(is_timeout: bool, is_connect: bool) -> Seq<char> {
    if is_timeout {
        "直接连接 iSpace 超时，请检查网络后重试"@
    } else if is_connect {
        "无法直接连接 iSpace；当前网络可能无法访问学校服务器"@
    } else {
        "无法通过 HTTPS 读取 iSpace 日历，请检查网络后重试"@
    }
}

/// The message for a request that failed before any response, by its kind.
pub fn request_failure(is_timeout: bool, is_connect: bool) -> (r: String)
    ensures
        r@ == request_failure_message(is_timeout, is_connect),
{
    if is_timeout {
        String::from_str("直接连接 iSpace 超时，请检查网络后重试")
    } else if is_connect {
        String::from_str("无法直接连接 iSpace；当前网络可能无法访问学校服务器")
    } else {
        String::from_str("无法通过 HTTPS 读取 iSpace 日历，请检查网络后重试")
    }
}

/// The largest feed accepted, in bytes.
pub open spec fn max_feed_bytes() -> int {
    5242880
}

/// Outcome of reading a feed response: refused statuses, oversized bodies,
/// invalid UTF-8 and texts without a calendar are errors; else the text.
pub open spec fn feed_response(success: bool, status: u16, body: Seq<u8>) -> Result<Seq<char>, Seq<char>> {
    if !success {
        Err(
            "iSpace 日历拒绝访问（HTTP "@ + crate::text::decimal(status as nat)
                + "），请重新生成订阅 URL；若当前网络被学校限制，请联系 ITSC"@,
        )
    } else if body.len() > max_feed_bytes() {
        Err("iSpace 日历数据异常过大"@)
    } else if !vstd::utf8::valid_utf8(body) {
        Err("iSpace 返回的日历编码无效"@)
    } else if !contains(vstd::utf8::decode_utf8(body), "BEGIN:VCALENDAR"@) {
        Err("iSpace 返回的不是日历数据，请检查订阅 URL 是否有效"@)
    } else {
        Ok(vstd::utf8::decode_utf8(body))
    }
}

/// A feed response is read only when the request succeeded and its body is at
/// most 5 MiB of UTF-8 text holding a calendar; a successful response with a
/// larger body is refused as oversized.
pub proof fn lemma_feed_response_bounded(success: bool, status: u16, body: Seq<u8>)
    ensures
        feed_response(success, status, body) matches Ok(text) ==> success && body.len() <= 5
            * 1024 * 1024 && vstd::utf8::valid_utf8(body) && text == vstd::utf8::decode_utf8(body)
            && contains(text, "BEGIN:VCALENDAR"@),
        success && body.len() > 5 * 1024 * 1024 ==> feed_response(success, status, body) == Err::<
            Seq<char>,
            Seq<char>,
        >("iSpace 日历数据异常过大"@),
{
}

/// Calls `String::from_utf8` on the bytes: it succeeds exactly on valid
/// UTF-8, and the text is what the bytes encode.
#[verifier::external_body]
fn utf8_text(bytes: Vec<u8>) -> (r: Option<String>)
    ensures
        r is Some <==> vstd::utf8::valid_utf8(bytes@),
        r matches Some(t) ==> t@ == vstd::utf8::decode_utf8(bytes@),
{
    String::from_utf8(bytes).ok()
}

/// Checks a feed response and gives its text.
pub fn read_feed_response(success: bool, status: u16, body: &[u8]) -> (r: Result<String, String>)
    ensures
        match feed_response(success, status, body@) {
            Ok(t) => r matches Ok(s) && s@ == t,
            Err(e) => r matches Err(m) && m@ == e,
        },
{
    if !success {
        let mut msg: Vec<char> = chars_of("iSpace 日历拒绝访问（HTTP ");
        crate::text::push_decimal(&mut msg, status as u64);
        push_str(&mut msg, "），请重新生成订阅 URL；若当前网络被学校限制，请联系 ITSC");
        return Err(string_of(&msg));
    }
    if body.len() > 5242880 {
        return Err(String::from_str("iSpace 日历数据异常过大"));
    }
    let text = match utf8_text(vstd::slice::slice_to_vec(body)) {
        None => {
            return Err(String::from_str("iSpace 返回的日历编码无效"));
        },
        Some(t) => t,
    };
    let chars = chars_of(text.as_str());
    if !contains_str(&chars, "BEGIN:VCALENDAR") {
        return Err(String::from_str("iSpace 返回的不是日历数据，请检查订阅 URL 是否有效"));
    }
    Ok(text)
}

// ---------------------------------------------------------------------------
// Laws of the feed reading
// ---------------------------------------------------------------------------
/// An assignment due at an instant that is not before `now`: its due text is
/// the RFC 3339 text of such an instant.
pub open spec fn due_from(a: AssignmentText, now: UtcInstant) -> bool {
    exists|due: int| !before_instant(due, now) && a.3 == (#[trigger] utc_rfc3339(due))->Some_0
}

proof fn lemma_event_is_upcoming(fields: Fields, now: UtcInstant)
    ensures
        event_assignment(fields, now) matches Ok(Some(a)) ==> due_from(a, now),
{
    match event_assignment(fields, now) {
        Ok(Some(a)) => {
            let due = ical_date(field(fields, "DTSTART"@)->Some_0)->Some_0;
            assert(!before_instant(due, now) && a.3 == utc_rfc3339(due)->Some_0);
        },
        _ => {},
    }
}

proof fn lemma_feed_state_upcoming(lines: Seq<Seq<char>>, n: nat, now: UtcInstant)
    ensures
        forall|i: int|
            0 <= i < feed_state(lines, n, now).0.len() ==> due_from(
                #[trigger] feed_state(lines, n, now).0[i],
                now,
            ),
    decreases n,
{
    if n > 0 {
        lemma_feed_state_upcoming(lines, (n - 1) as nat, now);
        let prev = feed_state(lines, (n - 1) as nat, now);
        lemma_event_is_upcoming(prev.1, now);
    }
}

proof fn lemma_insertion_point(sorted: Seq<AssignmentText>, due: Seq<char>)
    ensures
        0 <= insertion_point(sorted, due) <= sorted.len(),
        forall|i: int|
            0 <= i < insertion_point(sorted, due) ==> lex_le(#[trigger] sorted[i].3, due),
        insertion_point(sorted, due) < sorted.len() ==> !lex_le(
            sorted[insertion_point(sorted, due)].3,
            due,
        ),
    decreases sorted.len(),
{
    if sorted.len() > 0 && lex_le(sorted[0].3, due) {
        let t = sorted.drop_first();
        lemma_insertion_point(t, due);
        assert forall|i: int| 1 <= i < sorted.len() implies sorted[i] == t[i - 1] by {}
    }
}

/// Ordered by due text: each item's due text is at most the next ones'.
pub open spec fn ordered_by_due(items: Seq<AssignmentText>) -> bool {
    forall|i: int, j: int| 0 <= i < j < items.len() ==> lex_le(items[i].3, items[j].3)
}

proof fn lemma_sorted_by_due(items: Seq<AssignmentText>)
    ensures
        ordered_by_due(sorted_by_due(items)),
        sorted_by_due(items).len() == items.len(),
        forall|k: int|
            0 <= k < sorted_by_due(items).len() ==> items.contains(#[trigger] sorted_by_due(items)[k]),
        sorted_by_due(items).to_multiset() == items.to_multiset(),
    decreases items.len(),
{
    if items.len() == 0 {
        assert(sorted_by_due(items) =~= items);
    } else {
        let rest = items.drop_last();
        let x = items.last();
        lemma_sorted_by_due(rest);
        let prefix = sorted_by_due(rest);
        let p = insertion_point(prefix, x.3);
        lemma_insertion_point(prefix, x.3);
        let r = prefix.insert(p, x);
        assert(r == sorted_by_due(items));
        vstd::seq_lib::to_multiset_insert(prefix, p, x);
        vstd::seq_lib::to_multiset_build(rest, x);
        assert(rest.push(x) =~= items);
        assert forall|i: int, j: int| 0 <= i < j < r.len() implies lex_le(r[i].3, r[j].3) by {
            if j < p {
                assert(r[i] == prefix[i] && r[j] == prefix[j]);
            } else if j == p {
                assert(r[i] == prefix[i]);
            } else if i < p {
                assert(r[i] == prefix[i] && r[j] == prefix[j - 1]);
                assert(lex_le(prefix[i].3, x.3));
                lemma_lex_le_total(prefix[p].3, x.3);
                if p < j - 1 {
                    lemma_lex_le_transitive(x.3, prefix[p].3, prefix[j - 1].3);
                }
                lemma_lex_le_transitive(prefix[i].3, x.3, prefix[j - 1].3);
            } else if i == p {
                assert(r[j] == prefix[j - 1]);
                lemma_lex_le_total(prefix[p].3, x.3);
                if p < j - 1 {
                    lemma_lex_le_transitive(x.3, prefix[p].3, prefix[j - 1].3);
                }
            } else {
                assert(r[i] == prefix[i - 1] && r[j] == prefix[j - 1]);
            }
        }
        assert forall|k: int| 0 <= k < r.len() implies items.contains(#[trigger] r[k]) by {
            if k < p {
                assert(rest.contains(prefix[k]));
                let w = choose|w: int| 0 <= w < rest.len() && rest[w] == prefix[k];
                assert(items[w] == rest[w]);
            } else if k == p {
                assert(items[items.len() - 1] == x);
            } else {
                assert(r[k] == prefix[k - 1]);
                assert(rest.contains(prefix[k - 1]));
                let w = choose|w: int| 0 <= w < rest.len() && rest[w] == prefix[k - 1];
                assert(items[w] == rest[w]);
            }
        }
    }
}

/// What reading a feed gives is future coursework in order of due time: every
/// assignment is due at an instant not before `now`, the assignments are
/// ordered by their due texts, and ordering them loses or repeats none of
/// the assignments read from the events.
pub proof fn lemma_feed_assignments_upcoming_in_order(ics: Seq<char>, now: UtcInstant)
    ensures
        ordered_by_due(feed_assignments(ics, now)),
        feed_assignments(ics, now).to_multiset() == feed_state(
            unfolded_lines(ics),
            unfolded_lines(ics).len(),
            now,
        ).0.to_multiset(),
        forall|k: int|
            0 <= k < feed_assignments(ics, now).len() ==> due_from(
                #[trigger] feed_assignments(ics, now)[k],
                now,
            ),
{
    let lines = unfolded_lines(ics);
    let events = feed_state(lines, lines.len(), now).0;
    lemma_feed_state_upcoming(lines, lines.len(), now);
    lemma_sorted_by_due(events);
    assert forall|k: int|
        0 <= k < feed_assignments(ics, now).len() implies due_from(
        #[trigger] feed_assignments(ics, now)[k],
        now,
    ) by {
        let a = feed_assignments(ics, now)[k];
        assert(events.contains(a));
        let w = choose|w: int| 0 <= w < events.len() && events[w] == a;
        assert(due_from(events[w], now));
    }
}

// ---------------------------------------------------------------------------
// The feed at two times
// ---------------------------------------------------------------------------
/// An event that offers coursework: its due instant and its assignment, or
/// `Err(())` when its description cannot be rendered.
pub type Candidate = (int, Result<AssignmentText, ()>);

/// The state of reading the events of a feed regardless of the time: the
/// events offered so far, the properties of the open event, and whether an
/// event is open.
pub type CandidateState = (Seq<Candidate>, Fields, bool);

/// The state after one line, as `feed_step` reads it but keeping every event
/// that offers coursework with its due instant.
pub open spec fn candidate_step(state: CandidateState, line: Seq<char>) -> CandidateState {
    let (cands, current, inside) = state;
    if line == "BEGIN:VEVENT"@ {
        (cands, Seq::empty(), true)
    } else if line == "END:VEVENT"@ {
        if inside {
            match event_candidate(current) {
                None => (cands, current, false),
                Some(c) => (cands.push(c), current, false),
            }
        } else {
            (cands, current, false)
        }
    } else if inside {
        match line_property(line) {
            Some(p) => (cands, current.push(p), inside),
            None => state,
        }
    } else {
        state
    }
}

/// The state after the first `n` lines.
pub open spec fn candidate_state(lines: Seq<Seq<char>>, n: nat) -> CandidateState
    decreases n,
{
    if n == 0 {
        (Seq::empty(), Seq::empty(), false)
    } else {
        candidate_step(candidate_state(lines, (n - 1) as nat), lines[n - 1])
    }
}

/// The events of a feed that offer coursework, in calendar order.
pub open spec fn feed_candidates(ics: Seq<char>) -> Seq<Candidate> {
    let lines = unfolded_lines(ics);
    candidate_state(lines, lines.len()).0
}

/// The readable events due at or after `now`, each as its assignment and its
/// due instant, in calendar order.
pub open spec fn upcoming(cands: Seq<Candidate>, now: UtcInstant) -> Seq<(AssignmentText, int)>
    decreases cands.len(),
{
    if cands.len() == 0 {
        Seq::empty()
    } else {
        let rest = upcoming(cands.drop_last(), now);
        let c = cands.last();
        if !before_instant(c.0, now) && c.1 is Ok {
            rest.push((c.1->Ok_0, c.0))
        } else {
            rest
        }
    }
}

/// Some event due at or after `now` cannot be read.
pub open spec fn any_unreadable(cands: Seq<Candidate>, now: UtcInstant) -> bool
    decreases cands.len(),
{
    if cands.len() == 0 {
        false
    } else {
        any_unreadable(cands.drop_last(), now) || (!before_instant(cands.last().0, now)
            && cands.last().1 is Err)
    }
}

/// The assignments of dated assignments.
pub open spec fn firsts(ps: Seq<(AssignmentText, int)>) -> Seq<AssignmentText> {
    Seq::new(ps.len(), |i: int| ps[i].0)
}

/// Dated assignments still due at or after `now`, in order.
pub open spec fn still_due(ps: Seq<(AssignmentText, int)>, now: UtcInstant) -> Seq<(AssignmentText, int)>
    decreases ps.len(),
{
    if ps.len() == 0 {
        Seq::empty()
    } else if before_instant(ps.last().1, now) {
        still_due(ps.drop_last(), now)
    } else {
        still_due(ps.drop_last(), now).push(ps.last())
    }
}

/// Position at which a dated assignment due at text `due` goes into `sorted`.
pub open spec fn dated_insertion_point(sorted: Seq<(AssignmentText, int)>, due: Seq<char>) -> int
    decreases sorted.len(),
{
    if sorted.len() == 0 {
        0
    } else if lex_le(sorted[0].0.3, due) {
        1 + dated_insertion_point(sorted.drop_first(), due)
    } else {
        0
    }
}

/// Dated assignments ordered by their due texts, stably.
pub open spec fn dated_by_due(items: Seq<(AssignmentText, int)>) -> Seq<(AssignmentText, int)>
    decreases items.len(),
{
    if items.len() == 0 {
        Seq::empty()
    } else {
        let prefix = dated_by_due(items.drop_last());
        prefix.insert(dated_insertion_point(prefix, items.last().0.3), items.last())
    }
}

/// The future coursework of a feed with its due instants, ordered by due time.
pub open spec fn dated_feed(ics: Seq<char>, now: UtcInstant) -> Seq<(AssignmentText, int)> {
    dated_by_due(upcoming(feed_candidates(ics), now))
}

/// `a` is not later than `b`.
pub open spec fn not_after(a: UtcInstant, b: UtcInstant) -> bool {
    a.seconds < b.seconds || (a.seconds == b.seconds && a.nanos <= b.nanos)
}

proof fn lemma_feed_state_from_candidates(lines: Seq<Seq<char>>, n: nat, now: UtcInstant)
    ensures
        feed_state(lines, n, now).0 == firsts(upcoming(candidate_state(lines, n).0, now)),
        feed_state(lines, n, now).1 == candidate_state(lines, n).1,
        feed_state(lines, n, now).2 == candidate_state(lines, n).2,
        feed_state(lines, n, now).3 == any_unreadable(candidate_state(lines, n).0, now),
    decreases n,
{
    if n == 0 {
        assert(firsts(upcoming(Seq::<Candidate>::empty(), now)) =~= Seq::<AssignmentText>::empty());
    } else {
        let m = (n - 1) as nat;
        lemma_feed_state_from_candidates(lines, m, now);
        let c = candidate_state(lines, m);
        let line = lines[n - 1];
        if line != "BEGIN:VEVENT"@ && line == "END:VEVENT"@ && c.2 {
            match event_candidate(c.1) {
                Some(cand) => {
                    let cs = c.0.push(cand);
                    assert(cs.drop_last() =~= c.0);
                    let u = upcoming(c.0, now);
                    if !before_instant(cand.0, now) && cand.1 is Ok {
                        assert(firsts(u.push((cand.1->Ok_0, cand.0))) =~= firsts(u).push(cand.1->Ok_0));
                    }
                },
                None => {},
            }
        }
    }
}

proof fn lemma_firsts_push(ps: Seq<(AssignmentText, int)>, p: (AssignmentText, int))
    ensures
        firsts(ps.push(p)) == firsts(ps).push(p.0),
{
    assert(firsts(ps.push(p)) =~= firsts(ps).push(p.0));
}

proof fn lemma_dated_insertion_point(sorted: Seq<(AssignmentText, int)>, due: Seq<char>)
    ensures
        dated_insertion_point(sorted, due) == insertion_point(firsts(sorted), due),
    decreases sorted.len(),
{
    if sorted.len() > 0 {
        assert(firsts(sorted.drop_first()) =~= firsts(sorted).drop_first());
        lemma_dated_insertion_point(sorted.drop_first(), due);
    }
}

proof fn lemma_dated_by_due_firsts(items: Seq<(AssignmentText, int)>)
    ensures
        firsts(dated_by_due(items)) == sorted_by_due(firsts(items)),
        dated_by_due(items).len() == items.len(),
    decreases items.len(),
{
    if items.len() > 0 {
        let rest = items.drop_last();
        let x = items.last();
        lemma_dated_by_due_firsts(rest);
        let prefix = dated_by_due(rest);
        lemma_dated_insertion_point(prefix, x.0.3);
        lemma_insertion_point(firsts(prefix), x.0.3);
        let p = dated_insertion_point(prefix, x.0.3);
        assert(firsts(rest) =~= firsts(items).drop_last());
        assert(firsts(items).last() == x.0);
        assert(firsts(prefix.insert(p, x)) =~= firsts(prefix).insert(p, x.0));
    }
}

/// Ordered by due text.
pub open spec fn dated_in_order(ps: Seq<(AssignmentText, int)>) -> bool {
    forall|i: int, j: int| 0 <= i < j < ps.len() ==> lex_le(ps[i].0.3, ps[j].0.3)
}

proof fn lemma_dated_by_due_in_order(items: Seq<(AssignmentText, int)>)
    ensures
        dated_in_order(dated_by_due(items)),
{
    lemma_dated_by_due_firsts(items);
    lemma_sorted_by_due(firsts(items));
    let d = dated_by_due(items);
    assert forall|i: int, j: int| 0 <= i < j < d.len() implies lex_le(d[i].0.3, d[j].0.3) by {
        assert(firsts(d)[i] == d[i].0 && firsts(d)[j] == d[j].0);
    }
}

proof fn lemma_before_later(due: int, now1: UtcInstant, now2: UtcInstant)
    requires
        not_after(now1, now2),
        before_instant(due, now1),
    ensures
        before_instant(due, now2),
{
}

proof fn lemma_upcoming_later(cands: Seq<Candidate>, now1: UtcInstant, now2: UtcInstant)
    requires
        not_after(now1, now2),
    ensures
        upcoming(cands, now2) == still_due(upcoming(cands, now1), now2),
        any_unreadable(cands, now2) ==> any_unreadable(cands, now1),
    decreases cands.len(),
{
    if cands.len() > 0 {
        let c = cands.last();
        lemma_upcoming_later(cands.drop_last(), now1, now2);
        if before_instant(c.0, now1) {
            lemma_before_later(c.0, now1, now2);
        }
        let u1 = upcoming(cands.drop_last(), now1);
        if !before_instant(c.0, now1) && c.1 is Ok {
            let q = u1.push((c.1->Ok_0, c.0));
            assert(q.drop_last() =~= u1);
        }
    }
}

proof fn lemma_still_due_add(a: Seq<(AssignmentText, int)>, b: Seq<(AssignmentText, int)>, now: UtcInstant)
    ensures
        still_due(a + b, now) == still_due(a, now) + still_due(b, now),
    decreases b.len(),
{
    if b.len() == 0 {
        assert(a + b =~= a);
        assert(still_due(a, now) + still_due(b, now) =~= still_due(a, now));
    } else {
        assert((a + b).drop_last() =~= a + b.drop_last());
        assert((a + b).last() == b.last());
        lemma_still_due_add(a, b.drop_last(), now);
        if !before_instant(b.last().1, now) {
            assert(still_due(a, now) + still_due(b.drop_last(), now).push(b.last()) =~= (still_due(
                a,
                now,
            ) + still_due(b.drop_last(), now)).push(b.last()));
        }
    }
}

proof fn lemma_still_due_members(ps: Seq<(AssignmentText, int)>, now: UtcInstant)
    ensures
        forall|k: int| 0 <= k < still_due(ps, now).len() ==> ps.contains(#[trigger] still_due(ps, now)[k]),
    decreases ps.len(),
{
    if ps.len() > 0 {
        let rest = ps.drop_last();
        lemma_still_due_members(rest, now);
        let f = still_due(ps, now);
        assert forall|k: int| 0 <= k < f.len() implies ps.contains(#[trigger] f[k]) by {
            if k < still_due(rest, now).len() {
                assert(f[k] == still_due(rest, now)[k]);
                assert(rest.contains(f[k]));
                let w = choose|w: int| 0 <= w < rest.len() && rest[w] == f[k];
                assert(ps[w] == rest[w]);
            } else {
                assert(ps[ps.len() - 1] == f[k]);
            }
        }
    }
}

proof fn lemma_dated_insertion_point_split(
    a: Seq<(AssignmentText, int)>,
    b: Seq<(AssignmentText, int)>,
    due: Seq<char>,
)
    requires
        forall|i: int| 0 <= i < a.len() ==> lex_le(#[trigger] a[i].0.3, due),
        b.len() > 0 ==> !lex_le(b[0].0.3, due),
    ensures
        dated_insertion_point(a + b, due) == a.len(),
    decreases a.len(),
{
    if a.len() == 0 {
        assert(a + b =~= b);
    } else {
        assert((a + b)[0] == a[0]);
        assert((a + b).drop_first() =~= a.drop_first() + b);
        assert forall|i: int| 0 <= i < a.drop_first().len() implies lex_le(
            #[trigger] a.drop_first()[i].0.3,
            due,
        ) by {
            assert(a.drop_first()[i] == a[i + 1]);
        }
        lemma_dated_insertion_point_split(a.drop_first(), b, due);
    }
}

/// Filtering by time commutes with ordering: inserting one more dated
/// assignment and then keeping those still due is keeping first and then
/// inserting, when the list is in order.
proof fn lemma_still_due_insert(s: Seq<(AssignmentText, int)>, x: (AssignmentText, int), now: UtcInstant)
    requires
        dated_in_order(s),
    ensures
        before_instant(x.1, now) ==> still_due(s.insert(dated_insertion_point(s, x.0.3), x), now)
            == still_due(s, now),
        !before_instant(x.1, now) ==> still_due(s.insert(dated_insertion_point(s, x.0.3), x), now)
            == still_due(s, now).insert(dated_insertion_point(still_due(s, now), x.0.3), x),
{
    let k = x.0.3;
    let j = dated_insertion_point(s, k);
    lemma_dated_insertion_point(s, k);
    lemma_insertion_point(firsts(s), k);
    let a = s.take(j);
    let b = s.skip(j);
    assert(s =~= a + b);
    assert(s.insert(j, x) =~= a + (seq![x] + b));
    lemma_still_due_add(a, seq![x] + b, now);
    lemma_still_due_add(seq![x], b, now);
    lemma_still_due_add(a, b, now);
    let one = seq![x];
    assert(one.len() == 1);
    assert(one.last() == x);
    assert(one.drop_last() =~= Seq::<(AssignmentText, int)>::empty());
    assert(still_due(one.drop_last(), now) =~= Seq::<(AssignmentText, int)>::empty());
    if before_instant(x.1, now) {
        assert(still_due(seq![x], now) =~= Seq::<(AssignmentText, int)>::empty());
        assert(still_due(a, now) + (Seq::<(AssignmentText, int)>::empty() + still_due(b, now))
            =~= still_due(a, now) + still_due(b, now));
    } else {
        assert(still_due(one, now) =~= Seq::<(AssignmentText, int)>::empty().push(x));
        assert(still_due(seq![x], now) =~= seq![x]);
        let fa = still_due(a, now);
        let fb = still_due(b, now);
        lemma_still_due_members(a, now);
        lemma_still_due_members(b, now);
        assert forall|i: int| 0 <= i < fa.len() implies lex_le(#[trigger] fa[i].0.3, k) by {
            assert(a.contains(fa[i]));
            let w = choose|w: int| 0 <= w < a.len() && a[w] == fa[i];
            assert(firsts(s)[w] == s[w].0);
        }
        if fb.len() > 0 {
            assert(b.contains(fb[0]));
            let w = choose|w: int| 0 <= w < b.len() && b[w] == fb[0];
            assert(b[w] == s[j + w]);
            assert(firsts(s)[j] == s[j].0);
            if lex_le(fb[0].0.3, k) {
                if w > 0 {
                    assert(lex_le(s[j].0.3, s[j + w].0.3));
                    lemma_lex_le_transitive(s[j].0.3, s[j + w].0.3, k);
                }
            }
        }
        lemma_dated_insertion_point_split(fa, fb, k);
        assert((fa + fb).insert(fa.len() as int, x) =~= fa + (seq![x] + fb));
    }
}

proof fn lemma_dated_by_due_still_due(items: Seq<(AssignmentText, int)>, now: UtcInstant)
    ensures
        dated_by_due(still_due(items, now)) == still_due(dated_by_due(items), now),
    decreases items.len(),
{
    if items.len() > 0 {
        let rest = items.drop_last();
        let x = items.last();
        lemma_dated_by_due_still_due(rest, now);
        lemma_dated_by_due_in_order(rest);
        lemma_still_due_insert(dated_by_due(rest), x, now);
        if !before_instant(x.1, now) {
            let f = still_due(rest, now).push(x);
            assert(f.drop_last() =~= still_due(rest, now));
            assert(f.last() == x);
        }
    }
}

/// A dated assignment due at or after `now`, whose due text is the RFC 3339
/// text of its due instant and whose source is iSpace.
pub open spec fn well_dated(p: (AssignmentText, int), now: UtcInstant) -> bool {
    !before_instant(p.1, now) && p.0.3 == utc_rfc3339(p.1)->Some_0 && p.0.6 == "iSpace"@
}

/// An offered assignment's due text is that of its due instant and its source
/// is iSpace.
pub open spec fn candidate_dated(c: Candidate) -> bool {
    c.1 matches Ok(a) ==> a.3 == utc_rfc3339(c.0)->Some_0 && a.6 == "iSpace"@
}

proof fn lemma_candidate_state_dated(lines: Seq<Seq<char>>, n: nat)
    ensures
        forall|k: int|
            0 <= k < candidate_state(lines, n).0.len() ==> candidate_dated(
                #[trigger] candidate_state(lines, n).0[k],
            ),
    decreases n,
{
    if n > 0 {
        lemma_candidate_state_dated(lines, (n - 1) as nat);
        let c = candidate_state(lines, (n - 1) as nat);
        match event_candidate(c.1) {
            Some(cand) => {
                assert(candidate_dated(cand));
                let cs = c.0.push(cand);
                assert forall|k: int| 0 <= k < cs.len() implies candidate_dated(#[trigger] cs[k]) by {
                    if k < c.0.len() {
                        assert(cs[k] == c.0[k]);
                    }
                }
            },
            None => {},
        }
    }
}

proof fn lemma_upcoming_well_dated(cands: Seq<Candidate>, now: UtcInstant)
    requires
        forall|k: int| 0 <= k < cands.len() ==> candidate_dated(#[trigger] cands[k]),
    ensures
        forall|k: int|
            0 <= k < upcoming(cands, now).len() ==> well_dated(#[trigger] upcoming(cands, now)[k], now),
    decreases cands.len(),
{
    if cands.len() > 0 {
        let rest = cands.drop_last();
        assert forall|k: int| 0 <= k < rest.len() implies candidate_dated(#[trigger] rest[k]) by {
            assert(rest[k] == cands[k]);
        }
        lemma_upcoming_well_dated(rest, now);
        assert(candidate_dated(cands[cands.len() - 1]));
        let u = upcoming(cands, now);
        let r = upcoming(rest, now);
        assert forall|k: int| 0 <= k < u.len() implies well_dated(#[trigger] u[k], now) by {
            if k < r.len() {
                assert(u[k] == r[k]);
            }
        }
    }
}

proof fn lemma_dated_by_due_members(items: Seq<(AssignmentText, int)>)
    ensures
        forall|k: int|
            0 <= k < dated_by_due(items).len() ==> items.contains(#[trigger] dated_by_due(items)[k]),
    decreases items.len(),
{
    if items.len() > 0 {
        let rest = items.drop_last();
        let x = items.last();
        lemma_dated_by_due_members(rest);
        lemma_dated_by_due_firsts(rest);
        let prefix = dated_by_due(rest);
        lemma_dated_insertion_point(prefix, x.0.3);
        lemma_insertion_point(firsts(prefix), x.0.3);
        let p = dated_insertion_point(prefix, x.0.3);
        let r = prefix.insert(p, x);
        assert forall|k: int| 0 <= k < r.len() implies items.contains(#[trigger] r[k]) by {
            if k < p {
                assert(rest.contains(prefix[k]));
                let w = choose|w: int| 0 <= w < rest.len() && rest[w] == prefix[k];
                assert(items[w] == rest[w]);
            } else if k == p {
                assert(items[items.len() - 1] == x);
            } else {
                assert(r[k] == prefix[k - 1]);
                assert(rest.contains(prefix[k - 1]));
                let w = choose|w: int| 0 <= w < rest.len() && rest[w] == prefix[k - 1];
                assert(items[w] == rest[w]);
            }
        }
    }
}

/// Every assignment a feed gives with its due instant is due at or after
/// `now`, carries the RFC 3339 text of that instant, and comes from iSpace;
/// the assignments are ordered by their due texts.
pub proof fn lemma_dated_feed_well_dated(ics: Seq<char>, now: UtcInstant)
    ensures
        dated_in_order(dated_feed(ics, now)),
        forall|k: int|
            0 <= k < dated_feed(ics, now).len() ==> well_dated(#[trigger] dated_feed(ics, now)[k], now),
{
    let lines = unfolded_lines(ics);
    let cands = feed_candidates(ics);
    lemma_candidate_state_dated(lines, lines.len());
    lemma_upcoming_well_dated(cands, now);
    let u = upcoming(cands, now);
    lemma_dated_by_due_members(u);
    lemma_dated_by_due_in_order(u);
    let d = dated_feed(ics, now);
    assert forall|k: int| 0 <= k < d.len() implies well_dated(#[trigger] d[k], now) by {
        assert(u.contains(d[k]));
        let w = choose|w: int| 0 <= w < u.len() && u[w] == d[k];
        assert(well_dated(u[w], now));
    }
}

/// The feed at a later time is the feed at an earlier time without what has
/// fallen due in between: reading a feed gives its future coursework with
/// due instants (`dated_feed`), ordered by due time; for `now1` not after
/// `now2`, what `now2` gives is what `now1` gives less the assignments due
/// before `now2`, in the same order; and a feed that can be read at `now1`
/// can be read at `now2`.
pub proof fn lemma_later_feed_drops_what_fell_due(ics: Seq<char>, now1: UtcInstant, now2: UtcInstant)
    requires
        not_after(now1, now2),
    ensures
        feed_assignments(ics, now1) == firsts(dated_feed(ics, now1)),
        feed_assignments(ics, now2) == firsts(dated_feed(ics, now2)),
        dated_feed(ics, now2) == still_due(dated_feed(ics, now1), now2),
        feed_readable(ics, now1) ==> feed_readable(ics, now2),
{
    let lines = unfolded_lines(ics);
    let cands = feed_candidates(ics);
    lemma_feed_state_from_candidates(lines, lines.len(), now1);
    lemma_feed_state_from_candidates(lines, lines.len(), now2);
    lemma_dated_by_due_firsts(upcoming(cands, now1));
    lemma_dated_by_due_firsts(upcoming(cands, now2));
    lemma_upcoming_later(cands, now1, now2);
    lemma_dated_by_due_still_due(upcoming(cands, now1), now2);
}

/// An event with a title and a start not before `now` that carries a
/// coursework marker anywhere in its title, description or URL (searched in
/// lower case, as `title description url`) is kept: it gives an assignment
/// with that title, URL, due text and source iSpace, or, when its HTML
/// description cannot be rendered, the feed cannot be read; it is never
/// dropped.
pub proof fn lemma_marked_events_are_kept(fields: Fields, now: UtcInstant, m: int)
    requires
        field(fields, "SUMMARY"@) is Some,
        field(fields, "DTSTART"@) is Some,
        ical_date(field(fields, "DTSTART"@)->Some_0) is Some,
        !before_instant(ical_date(field(fields, "DTSTART"@)->Some_0)->Some_0, now),
        0 <= m < coursework_markers().len(),
        contains(
            unicode_lowercase(
                field(fields, "SUMMARY"@)->Some_0 + " "@ + or_else(
                    field(fields, "DESCRIPTION"@),
                    Seq::empty(),
                ) + " "@ + or_else(field(fields, "URL"@), Seq::empty()),
            ),
            coursework_markers()[m],
        ),
    ensures
        match event_assignment(fields, now) {
            Ok(None) => false,
            Ok(Some(a)) => a.1 == field(fields, "SUMMARY"@)->Some_0 && a.5 == field(fields, "URL"@)
                && a.6 == "iSpace"@ && a.3 == utc_rfc3339(
                ical_date(field(fields, "DTSTART"@)->Some_0)->Some_0,
            )->Some_0 && a.0 == (match field(fields, "UID"@) {
                Some(u) => u,
                None => field(fields, "SUMMARY"@)->Some_0 + ":"@ + signed_decimal(
                    ical_date(field(fields, "DTSTART"@)->Some_0)->Some_0,
                ),
            }) && a.2 == (match field(fields, "CATEGORIES"@) {
                Some(c) => c,
                None => match field(fields, "LOCATION"@) {
                    Some(l) => l,
                    None => "iSpace 课程"@,
                },
            }) && (!contains(or_else(field(fields, "DESCRIPTION"@), Seq::empty()), "<"@) ==> a.4
                == trim(or_else(field(fields, "DESCRIPTION"@), Seq::empty()))),
            Err(()) => contains(or_else(field(fields, "DESCRIPTION"@), Seq::empty()), "<"@)
                && html_rendering(or_else(field(fields, "DESCRIPTION"@), Seq::empty()), 100) is None,
        },
{
}

} // verus!
