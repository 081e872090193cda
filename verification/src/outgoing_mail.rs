//! Writing mail: checking and composing an outgoing mail, splitting text for
//! translation, and reading the staff directory.
use vstd::prelude::*;

use crate::html::{html_rendering, html_to_text};
use crate::mail_provider::{join_lines, lemma_counted_twice, lemma_twice_counts_twice};
use crate::models::{OutgoingAttachment, OutgoingMail, ProfessorContact};
use crate::text::{
    chars_lex_le, chars_of, contains, contains_chars, ends_with, ends_with_str, find_char,
    first_index_of, is_blank, is_unicode_whitespace, is_whitespace, lemma_first_index_of,
    lemma_lex_le_total, lemma_lex_le_transitive,
    lex_le, lowercase_chars, push_all, push_str, replace_all, replace_chars, slice_chars,
    string_of, trim, trim_chars, trim_end, trim_start, trimmed, unicode_lowercase,
};

verus! {

// ---------------------------------------------------------------------------
// Signature
// ---------------------------------------------------------------------------
/// A name with the HTML special characters `&`, `<`, `>` and `"` escaped.
pub open spec fn html_escaped(name: Seq<char>) -> Seq<char> {
    replace_all(
        replace_all(replace_all(replace_all(name, "&"@, "&amp;"@), "<"@, "&lt;"@), ">"@, "&gt;"@),
        "\""@,
        "&quot;"@,
    )
}

/// Replacing a character `p` by a text without `c` leaves no `c` behind when
/// `c` is `p` or the input holds no `c`.
proof fn lemma_replace_char_excludes(s: Seq<char>, p: char, rep: Seq<char>, c: char)
    requires
        !rep.contains(c),
        c == p || !s.contains(c),
    ensures
        !replace_all(s, seq![p], rep).contains(c),
    decreases s.len(),
{
    if s.len() > 0 {
        let pat = seq![p];
        if s.subrange(0, 1) == pat {
            let rest = s.subrange(1, s.len() as int);
            if c != p {
                assert forall|i: int| 0 <= i < rest.len() implies rest[i] != c by {
                    assert(rest[i] == s[i + 1]);
                }
            }
            lemma_replace_char_excludes(rest, p, rep, c);
            assert(replace_all(s, pat, rep) == rep + replace_all(rest, pat, rep));
        } else {
            let rest = s.drop_first();
            assert(s.subrange(0, 1) =~= seq![s[0]]);
            assert(s[0] != c);
            if c != p {
                assert forall|i: int| 0 <= i < rest.len() implies rest[i] != c by {
                    assert(rest[i] == s[i + 1]);
                }
            }
            lemma_replace_char_excludes(rest, p, rep, c);
            let r = replace_all(s, pat, rep);
            assert(r == seq![s[0]] + replace_all(rest, pat, rep));
            if r.contains(c) {
                let i = choose|i: int| 0 <= i < r.len() && r[i] == c;
                if i > 0 {
                    assert(replace_all(rest, pat, rep)[i - 1] == c);
                }
            }
        }
    }
}

/// An escaped name holds none of `<`, `>` and `"`: it can neither open nor
/// close a tag, nor end an attribute value.
pub proof fn lemma_escaped_name_is_inert(name: Seq<char>)
    ensures
        !html_escaped(name).contains('<'),
        !html_escaped(name).contains('>'),
        !html_escaped(name).contains('"'),
{
    reveal_strlit("&");
    reveal_strlit("&amp;");
    reveal_strlit("<");
    reveal_strlit("&lt;");
    reveal_strlit(">");
    reveal_strlit("&gt;");
    reveal_strlit("\"");
    reveal_strlit("&quot;");
    assert("<"@ =~= seq!['<']);
    assert(">"@ =~= seq!['>']);
    assert("\""@ =~= seq!['"']);
    let s1 = replace_all(name, "&"@, "&amp;"@);
    let s2 = replace_all(s1, "<"@, "&lt;"@);
    let s3 = replace_all(s2, ">"@, "&gt;"@);
    let s4 = replace_all(s3, "\""@, "&quot;"@);
    assert(!"&lt;"@.contains('<')) by {
        assert("&lt;"@ =~= seq!['&', 'l', 't', ';']);
    }
    assert(!"&gt;"@.contains('<') && !"&gt;"@.contains('>')) by {
        assert("&gt;"@ =~= seq!['&', 'g', 't', ';']);
    }
    assert(!"&quot;"@.contains('<') && !"&quot;"@.contains('>') && !"&quot;"@.contains('"')) by {
        assert("&quot;"@ =~= seq!['&', 'q', 'u', 'o', 't', ';']);
    }
    lemma_replace_char_excludes(s1, '<', "&lt;"@, '<');
    lemma_replace_char_excludes(s2, '>', "&gt;"@, '<');
    lemma_replace_char_excludes(s2, '>', "&gt;"@, '>');
    lemma_replace_char_excludes(s3, '"', "&quot;"@, '<');
    lemma_replace_char_excludes(s3, '"', "&quot;"@, '>');
    lemma_replace_char_excludes(s3, '"', "&quot;"@, '"');
}

/// The plain-text and HTML bodies with the university signature of the
/// sender appended; unchanged when the sender's name is blank.
pub open spec fn signed_bodies(text: Seq<char>, html: Seq<char>, sender_name: Seq<char>) -> (
    Seq<char>,
    Seq<char>,
) {
    let name = trim(sender_name);
    if name.len() == 0 {
        (text, html)
    } else {
        (
            trim_end(text) + "\n\n北师港浸大 BNBU\n"@ + name,
            trim_end(html)
                + "<div style=\"margin-top:32px;border-top:1px solid #e5e7eb;padding-top:14px;color:#4b5563\"><div>北师港浸大 BNBU</div><strong>"@
                + html_escaped(name) + "</strong></div>"@,
        )
    }
}

/// `s` without trailing whitespace.
fn trim_end_chars(s: &[char]) -> (r: Vec<char>)
    ensures
        r@ == trim_end(s@),
{
    let mut e: usize = s.len();
    proof {
        assert(s@.subrange(0, s@.len() as int) =~= s@);
    }
    while e > 0 && is_whitespace(s[e - 1])
        invariant
            e <= s@.len(),
            trim_end(s@) == trim_end(s@.subrange(0, e as int)),
        decreases e,
    {
        proof {
            let t = s@.subrange(0, e as int);
            assert(t.drop_last() =~= s@.subrange(0, e - 1));
        }
        e = e - 1;
    }
    proof {
        let t = s@.subrange(0, e as int);
        if t.len() > 0 {
            assert(t.last() == s@[e - 1]);
        }
    }
    slice_chars(s, 0, e)
}

/// The name shown with the sender's address: the sender's name trimmed, or
/// none when it is blank.
pub fn sender_display_name(sender_name: &str) -> (r: Option<String>)
    ensures
        is_blank(sender_name@) ==> r is None,
        !is_blank(sender_name@) ==> (r matches Some(n) && n@ == trim(sender_name@)),
{
    let name = trimmed(sender_name);
    if name.len() == 0 {
        None
    } else {
        Some(string_of(&name))
    }
}

/// Appends the university signature of the sender to both mail formats.
pub fn append_signature(text: String, html: String, sender_name: &str) -> (r: (String, String))
    ensures
        (r.0@, r.1@) == signed_bodies(text@, html@, sender_name@),
{
    let name = trimmed(sender_name);
    if name.len() == 0 {
        return (text, html);
    }
    proof {
        reveal_strlit("&");
        reveal_strlit("<");
        reveal_strlit(">");
        reveal_strlit("\"");
    }
    let e1 = crate::text::replace_str(&name, "&", "&amp;");
    let e2 = crate::text::replace_str(&e1, "<", "&lt;");
    let e3 = crate::text::replace_str(&e2, ">", "&gt;");
    let escaped = crate::text::replace_str(&e3, "\"", "&quot;");
    let mut plain = trim_end_chars(&chars_of(text.as_str()));
    push_str(&mut plain, "\n\n北师港浸大 BNBU\n");
    push_all(&mut plain, &name);
    let mut rich = trim_end_chars(&chars_of(html.as_str()));
    push_str(
        &mut rich,
        "<div style=\"margin-top:32px;border-top:1px solid #e5e7eb;padding-top:14px;color:#4b5563\"><div>北师港浸大 BNBU</div><strong>",
    );
    push_all(&mut rich, &escaped);
    push_str(&mut rich, "</strong></div>");
    (string_of(&plain), string_of(&rich))
}

// ---------------------------------------------------------------------------
// Staff directory
// ---------------------------------------------------------------------------
/// One entry of the staff directory's answer: its `name`, `name_en`, `email`,
/// `username`, `teacher_title.title` and `teacher_title.title_en` strings,
/// each empty where the answer has none.
#[derive(Debug, Clone)]
pub struct StaffRecord {
    pub name: String,
    pub name_en: String,
    pub email: String,
    pub username: String,
    pub title: String,
    pub title_en: String,
}

/// A contact as sequences: name, email, department and profile address.
pub type ContactText = (Seq<char>, Seq<char>, Seq<char>, Seq<char>);

/// Two names joined by ` · `, either alone when the other is empty, or the
/// default when both are.
pub open spec fn joined_pair(a: Seq<char>, b: Seq<char>, default: Seq<char>) -> Seq<char> {
    if a.len() != 0 && b.len() != 0 {
        a + " · "@ + b
    } else if a.len() != 0 {
        a
    } else if b.len() != 0 {
        b
    } else {
        default
    }
}

/// The part of an address before its first `@`.
pub open spec fn local_part(email: Seq<char>) -> Seq<char> {
    match first_index_of(email, '@') {
        Some(i) => email.subrange(0, i),
        None => email,
    }
}

/// A character allowed in a directory user name: ASCII letters and digits,
/// `-`, `_` and `.`.
pub open spec fn is_username_char(c: char) -> bool {
    ('0' <= c && c <= '9') || ('A' <= c && c <= 'Z') || ('a' <= c && c <= 'z') || c == '-' || c
        == '_' || c == '.'
}

/// The profile page of a user name, or the directory's list page when the
/// name is empty or has other characters.
pub open spec fn profile_url(username: Seq<char>) -> Seq<char> {
    if username.len() > 0 && forall|i: int| 0 <= i < username.len() ==> is_username_char(username[i]) {
        "https://www.bnbu.edu.cn/faculty.htm#/"@ + username + "/cn"@
    } else {
        "https://www.bnbu.edu.cn/faculty.htm#/list/people/cn.html"@
    }
}

/// The trimmed, lower-cased address of an entry.
pub open spec fn record_email(r: StaffRecord) -> Seq<char> {
    unicode_lowercase(trim(r.email@))
}

/// The lower-cased text an entry is searched in.
pub open spec fn record_haystack(r: StaffRecord) -> Seq<char> {
    unicode_lowercase(trim(r.name@) + " "@ + trim(r.name_en@) + " "@ + record_email(r))
}

/// An entry with a university address whose text holds the search words.
pub open spec fn record_eligible(r: StaffRecord, needle: Seq<char>) -> bool {
    let email = record_email(r);
    email.len() > 0 && ends_with(email, "@bnbu.edu.cn"@) && contains(record_haystack(r), needle)
}

/// The contact of an entry.
pub open spec fn record_contact(r: StaffRecord) -> ContactText {
    let email = record_email(r);
    (
        joined_pair(trim(r.name@), trim(r.name_en@), local_part(email)),
        email,
        joined_pair(trim(r.title@), trim(r.title_en@), "BNBU 教师"@),
        profile_url(r.username@),
    )
}

/// The contacts of the entries, each address once (the first entry with it),
/// and the addresses taken.
pub open spec fn directory_scan(records: Seq<StaffRecord>, needle: Seq<char>) -> (
    Seq<ContactText>,
    Seq<Seq<char>>,
)
    decreases records.len(),
{
    if records.len() == 0 {
        (Seq::empty(), Seq::empty())
    } else {
        let (contacts, seen) = directory_scan(records.drop_last(), needle);
        let r = records.last();
        if record_eligible(r, needle) && !seen.contains(record_email(r)) {
            (contacts.push(record_contact(r)), seen.push(record_email(r)))
        } else {
            (contacts, seen)
        }
    }
}

/// The sequences of a contact.
pub open spec fn contact_text(c: ProfessorContact) -> ContactText {
    (c.name@, c.email@, c.department@, c.source_url@)
}

/// The sequences of a list of contacts.
pub open spec fn contact_texts(v: Seq<ProfessorContact>) -> Seq<ContactText> {
    v.map_values(|c: ProfessorContact| contact_text(c))
}

/// `a` and `b` joined as `joined_pair` states.
fn join_pair(a: &Vec<char>, b: &Vec<char>, default: Vec<char>) -> (r: Vec<char>)
    ensures
        r@ == joined_pair(a@, b@, default@),
{
    if a.len() != 0 && b.len() != 0 {
        let mut out = slice_chars(a, 0, a.len());
        push_str(&mut out, " · ");
        push_all(&mut out, b);
        out
    } else if a.len() != 0 {
        slice_chars(a, 0, a.len())
    } else if b.len() != 0 {
        slice_chars(b, 0, b.len())
    } else {
        default
    }
}

/// Whether `c` may appear in a directory user name.
fn username_char(c: char) -> (r: bool)
    ensures
        r == is_username_char(c),
{
    ('0' <= c && c <= '9') || ('A' <= c && c <= 'Z') || ('a' <= c && c <= 'z') || c == '-' || c
        == '_' || c == '.'
}

/// The profile address for a user name.
fn profile_link(username: &str) -> (r: Vec<char>)
    ensures
        r@ == profile_url(username@),
{
    let u = chars_of(username);
    let mut ok = u.len() > 0;
    let mut i: usize = 0;
    while i < u.len()
        invariant
            i <= u@.len(),
            ok == (u@.len() > 0 && forall|j: int| 0 <= j < i ==> is_username_char(u@[j])),
        decreases u@.len() - i,
    {
        if !username_char(u[i]) {
            ok = false;
        }
        i = i + 1;
    }
    if ok {
        let mut out = chars_of("https://www.bnbu.edu.cn/faculty.htm#/");
        push_all(&mut out, &u);
        push_str(&mut out, "/cn");
        out
    } else {
        chars_of("https://www.bnbu.edu.cn/faculty.htm#/list/people/cn.html")
    }
}

/// Whether `seen` holds `email`.
fn seen_before(seen: &Vec<Vec<char>>, email: &Vec<char>) -> (r: bool)
    ensures
        r == crate::mail_provider::views_of(seen@).contains(email@),
{
    let ghost all = crate::mail_provider::views_of(seen@);
    let mut i: usize = 0;
    while i < seen.len()
        invariant
            i <= seen@.len(),
            all == crate::mail_provider::views_of(seen@),
            forall|j: int| 0 <= j < i ==> all[j] != email@,
        decreases seen@.len() - i,
    {
        if crate::text::chars_equal(&seen[i], email) {
            assert(all[i as int] == email@);
            return true;
        }
        i = i + 1;
    }
    false
}

/// The contacts in a staff directory answer that match the search words
/// (compared in lower case), keeping the first entry of each university
/// address.
pub fn parse_staff_directory(records: &[StaffRecord], query: &str) -> (r: Vec<ProfessorContact>)
    ensures
        contact_texts(r@) == directory_scan(records@, unicode_lowercase(query@)).0,
{
    let needle = lowercase_chars(&chars_of(query));
    let mut seen: Vec<Vec<char>> = Vec::new();
    let mut out: Vec<ProfessorContact> = Vec::new();
    let mut i: usize = 0;
    proof {
        assert(records@.take(0) =~= Seq::<StaffRecord>::empty());
        assert(contact_texts(out@) =~= Seq::<ContactText>::empty());
        assert(crate::mail_provider::views_of(seen@) =~= Seq::<Seq<char>>::empty());
    }
    while i < records.len()
        invariant
            i <= records@.len(),
            needle@ == unicode_lowercase(query@),
            (contact_texts(out@), crate::mail_provider::views_of(seen@)) == directory_scan(
                records@.take(i as int),
                needle@,
            ),
        decreases records@.len() - i,
    {
        proof {
            assert(records@.take(i + 1).drop_last() =~= records@.take(i as int));
            assert(records@.take(i + 1).last() == records@[i as int]);
        }
        let r = &records[i];
        let email = lowercase_chars(&trimmed(r.email.as_str()));
        let cn = trimmed(r.name.as_str());
        let en = trimmed(r.name_en.as_str());
        let mut hay = slice_chars(&cn, 0, cn.len());
        push_str(&mut hay, " ");
        push_all(&mut hay, &en);
        push_str(&mut hay, " ");
        push_all(&mut hay, &email);
        let haystack = lowercase_chars(&hay);
        let eligible = email.len() > 0 && ends_with_str(&email, "@bnbu.edu.cn") && contains_chars(
            &haystack,
            &needle,
        );
        proof {
            assert(hay@ =~= trim(r.name@) + " "@ + trim(r.name_en@) + " "@ + record_email(*r));
            assert(eligible == record_eligible(*r, needle@));
        }
        if eligible && !seen_before(&seen, &email) {
            let local = match find_char(&email, '@') {
                Some(at) => {
                    proof {
                        lemma_first_index_of(email@, '@');
                    }
                    slice_chars(&email, 0, at)
                },
                None => slice_chars(&email, 0, email.len()),
            };
            let name = join_pair(&cn, &en, local);
            let title_cn = trimmed(r.title.as_str());
            let title_en = trimmed(r.title_en.as_str());
            let department = join_pair(&title_cn, &title_en, chars_of("BNBU 教师"));
            let link = profile_link(r.username.as_str());
            proof {
                assert(local@ == local_part(email@));
            }
            let contact = ProfessorContact {
                name: string_of(&name),
                email: string_of(&email),
                department: string_of(&department),
                source_url: string_of(&link),
            };
            let ghost before_contacts = contact_texts(out@);
            let ghost before_seen = crate::mail_provider::views_of(seen@);
            out.push(contact);
            seen.push(email);
            proof {
                assert(contact_texts(out@) =~= before_contacts.push(contact_text(out@.last())));
                assert(crate::mail_provider::views_of(seen@) =~= before_seen.push(seen@.last()@));
            }
        }
        i = i + 1;
    }
    proof {
        assert(records@.take(records@.len() as int) =~= records@);
    }
    out
}

/// The most contacts one search gives.
pub open spec fn max_contacts() -> int {
    50
}

/// Position at which a contact named `key` (lower-cased) goes into `sorted`.
pub open spec fn contact_insertion_point(sorted: Seq<ContactText>, key: Seq<char>) -> int
    decreases sorted.len(),
{
    if sorted.len() == 0 {
        0
    } else if lex_le(unicode_lowercase(sorted[0].0), key) {
        1 + contact_insertion_point(sorted.drop_first(), key)
    } else {
        0
    }
}

/// The contacts ordered by their lower-cased names, stably.
pub open spec fn sorted_by_name(items: Seq<ContactText>) -> Seq<ContactText>
    decreases items.len(),
{
    if items.len() == 0 {
        Seq::empty()
    } else {
        let prefix = sorted_by_name(items.drop_last());
        prefix.insert(contact_insertion_point(prefix, unicode_lowercase(items.last().0)), items.last())
    }
}

/// The answer to a directory search: an error unless the directory reports
/// code 0, else at most `max_contacts()` matching contacts ordered by name.
pub open spec fn directory_answer(code: Option<i64>, records: Seq<StaffRecord>, query: Seq<char>) -> Result<
    Seq<ContactText>,
    Seq<char>,
> {
    if code != Some(0i64) {
        Err("BNBU 教师名录查询失败，请稍后重试"@)
    } else {
        let sorted = sorted_by_name(directory_scan(records, unicode_lowercase(query)).0);
        Ok(
            if sorted.len() > max_contacts() {
                sorted.take(max_contacts())
            } else {
                sorted
            },
        )
    }
}

proof fn lemma_directory_scan(records: Seq<StaffRecord>, needle: Seq<char>)
    ensures
        directory_scan(records, needle).0.len() == directory_scan(records, needle).1.len(),
        forall|i: int|
            0 <= i < directory_scan(records, needle).0.len() ==> (#[trigger] directory_scan(
                records,
                needle,
            ).0[i]).1 == directory_scan(records, needle).1[i],
        forall|i: int|
            0 <= i < directory_scan(records, needle).1.len() ==> ends_with(
                #[trigger] directory_scan(records, needle).1[i],
                "@bnbu.edu.cn"@,
            ),
        forall|i: int, j: int|
            0 <= i < j < directory_scan(records, needle).1.len() ==> directory_scan(
                records,
                needle,
            ).1[i] != directory_scan(records, needle).1[j],
    decreases records.len(),
{
    if records.len() > 0 {
        lemma_directory_scan(records.drop_last(), needle);
    }
}

proof fn lemma_scan_sees_eligible(records: Seq<StaffRecord>, needle: Seq<char>)
    ensures
        forall|i: int|
            0 <= i < records.len() && record_eligible(#[trigger] records[i], needle) ==> directory_scan(
                records,
                needle,
            ).1.contains(record_email(records[i])),
    decreases records.len(),
{
    if records.len() > 0 {
        let rest = records.drop_last();
        lemma_scan_sees_eligible(rest, needle);
        let prev = directory_scan(rest, needle);
        let cur = directory_scan(records, needle);
        assert forall|i: int|
            0 <= i < records.len() && record_eligible(#[trigger] records[i], needle) implies cur.1.contains(
            record_email(records[i]),
        ) by {
            if i < rest.len() {
                assert(records[i] == rest[i]);
                assert(prev.1.contains(record_email(rest[i])));
                let w = choose|w: int| 0 <= w < prev.1.len() && prev.1[w] == record_email(rest[i]);
                if cur.1 != prev.1 {
                    assert(cur.1 == prev.1.push(record_email(records.last())));
                    assert(cur.1[w] == prev.1[w]);
                }
            } else {
                if !prev.1.contains(record_email(records.last())) {
                    assert(cur.1 == prev.1.push(record_email(records.last())));
                    assert(cur.1[prev.1.len() as int] == record_email(records.last()));
                }
            }
        }
    }
}

/// Every entry with a university address whose Chinese name, English name or
/// address contains the search words is found: when the lower-cased text
/// `name name_en email` (names trimmed, address trimmed and lower-cased)
/// contains `needle`, some contact carries that entry's address.
pub proof fn lemma_matching_entries_are_found(records: Seq<StaffRecord>, needle: Seq<char>, i: int)
    requires
        0 <= i < records.len(),
        unicode_lowercase(trim(records[i].email@)).len() > 0,
        ends_with(unicode_lowercase(trim(records[i].email@)), "@bnbu.edu.cn"@),
        contains(
            unicode_lowercase(
                trim(records[i].name@) + " "@ + trim(records[i].name_en@) + " "@ + unicode_lowercase(
                    trim(records[i].email@),
                ),
            ),
            needle,
        ),
    ensures
        exists|k: int|
            0 <= k < directory_scan(records, needle).0.len() && (#[trigger] directory_scan(
                records,
                needle,
            ).0[k]).1 == unicode_lowercase(trim(records[i].email@)),
{
    assert(record_eligible(records[i], needle));
    lemma_scan_sees_eligible(records, needle);
    lemma_directory_scan(records, needle);
    let scan = directory_scan(records, needle);
    let w = choose|w: int| 0 <= w < scan.1.len() && scan.1[w] == record_email(records[i]);
    assert(scan.0[w].1 == scan.1[w]);
}

proof fn lemma_scan_contacts_from_records(records: Seq<StaffRecord>, needle: Seq<char>)
    ensures
        forall|k: int|
            0 <= k < directory_scan(records, needle).0.len() ==> exists|i: int|
                0 <= i < records.len() && record_eligible(records[i], needle)
                    && #[trigger] directory_scan(records, needle).0[k] == record_contact(records[i]),
    decreases records.len(),
{
    if records.len() > 0 {
        let rest = records.drop_last();
        lemma_scan_contacts_from_records(rest, needle);
        let prev = directory_scan(rest, needle);
        let cur = directory_scan(records, needle);
        assert forall|k: int| 0 <= k < cur.0.len() implies exists|i: int|
            0 <= i < records.len() && record_eligible(records[i], needle) && #[trigger] cur.0[k]
                == record_contact(records[i]) by {
            if k < prev.0.len() {
                assert(cur.0[k] == prev.0[k]);
                let i = choose|i: int|
                    0 <= i < rest.len() && record_eligible(rest[i], needle) && prev.0[k]
                        == record_contact(rest[i]);
                assert(records[i] == rest[i]);
            } else {
                assert(cur.0[k] == record_contact(records[records.len() - 1]));
            }
        }
    }
}

/// What a contact says: each contact comes from an entry with a university
/// address that matches the search; its name is the trimmed Chinese and
/// English names joined by ` · ` (either alone when the other is empty, the
/// address's local part when both are), its address is the trimmed,
/// lower-cased address, its department the trimmed titles joined the same
/// way (`BNBU 教师` when both are empty), and its page the profile page of a
/// user name of ASCII letters, digits, `-`, `_` and `.`, else the list page.
pub proof fn lemma_contacts_describe_entries(records: Seq<StaffRecord>, needle: Seq<char>, k: int)
    requires
        0 <= k < directory_scan(records, needle).0.len(),
    ensures
        exists|i: int|
            #![trigger records[i]]
            0 <= i < records.len() && {
                let r = records[i];
                let c = directory_scan(records, needle).0[k];
                let email = unicode_lowercase(trim(r.email@));
                let cn = trim(r.name@);
                let en = trim(r.name_en@);
                let t1 = trim(r.title@);
                let t2 = trim(r.title_en@);
                let u = r.username@;
                &&& email.len() > 0 && ends_with(email, "@bnbu.edu.cn"@)
                &&& contains(unicode_lowercase(cn + " "@ + en + " "@ + email), needle)
                &&& c.1 == email
                &&& c.0 == (if cn.len() > 0 && en.len() > 0 {
                    cn + " · "@ + en
                } else if cn.len() > 0 {
                    cn
                } else if en.len() > 0 {
                    en
                } else {
                    match first_index_of(email, '@') {
                        Some(a) => email.subrange(0, a),
                        None => email,
                    }
                })
                &&& c.2 == (if t1.len() > 0 && t2.len() > 0 {
                    t1 + " · "@ + t2
                } else if t1.len() > 0 {
                    t1
                } else if t2.len() > 0 {
                    t2
                } else {
                    "BNBU 教师"@
                })
                &&& c.3 == (if u.len() > 0 && forall|j: int|
                    0 <= j < u.len() ==> (('0' <= u[j] && u[j] <= '9') || ('A' <= u[j] && u[j]
                        <= 'Z') || ('a' <= u[j] && u[j] <= 'z') || u[j] == '-' || u[j] == '_'
                        || u[j] == '.') {
                    "https://www.bnbu.edu.cn/faculty.htm#/"@ + u + "/cn"@
                } else {
                    "https://www.bnbu.edu.cn/faculty.htm#/list/people/cn.html"@
                })
            },
{
    lemma_scan_contacts_from_records(records, needle);
    let c = directory_scan(records, needle).0[k];
    let i = choose|i: int|
        0 <= i < records.len() && record_eligible(records[i], needle) && c == record_contact(
            records[i],
        );
    assert(record_eligible(records[i], needle));
}

/// The contacts a directory answer gives have university addresses, each
/// address once.
pub proof fn lemma_directory_contacts_distinct(records: Seq<StaffRecord>, needle: Seq<char>)
    ensures
        forall|i: int|
            0 <= i < directory_scan(records, needle).0.len() ==> ends_with(
                (#[trigger] directory_scan(records, needle).0[i]).1,
                "@bnbu.edu.cn"@,
            ),
        forall|i: int, j: int|
            0 <= i < j < directory_scan(records, needle).0.len() ==> (#[trigger] directory_scan(
                records,
                needle,
            ).0[i]).1 != (#[trigger] directory_scan(records, needle).0[j]).1,
{
    lemma_directory_scan(records, needle);
    let scan = directory_scan(records, needle);
    assert forall|i: int| 0 <= i < scan.0.len() implies ends_with(
        (#[trigger] scan.0[i]).1,
        "@bnbu.edu.cn"@,
    ) by {
        assert(scan.0[i].1 == scan.1[i]);
    }
    assert forall|i: int, j: int| 0 <= i < j < scan.0.len() implies (#[trigger] scan.0[i]).1
        != (#[trigger] scan.0[j]).1 by {
        assert(scan.0[i].1 == scan.1[i]);
        assert(scan.0[j].1 == scan.1[j]);
    }
}

proof fn lemma_contact_insertion_point(sorted: Seq<ContactText>, key: Seq<char>)
    ensures
        0 <= contact_insertion_point(sorted, key) <= sorted.len(),
        forall|i: int|
            0 <= i < contact_insertion_point(sorted, key) ==> lex_le(
                unicode_lowercase(#[trigger] sorted[i].0),
                key,
            ),
        contact_insertion_point(sorted, key) < sorted.len() ==> !lex_le(
            unicode_lowercase(sorted[contact_insertion_point(sorted, key)].0),
            key,
        ),
    decreases sorted.len(),
{
    if sorted.len() > 0 && lex_le(unicode_lowercase(sorted[0].0), key) {
        let t = sorted.drop_first();
        lemma_contact_insertion_point(t, key);
        assert forall|i: int| 1 <= i < sorted.len() implies sorted[i] == t[i - 1] by {}
    }
}

/// Ordered by lower-cased name.
pub open spec fn ordered_by_name(items: Seq<ContactText>) -> bool {
    forall|i: int, j: int|
        0 <= i < j < items.len() ==> lex_le(unicode_lowercase(items[i].0), unicode_lowercase(items[j].0))
}

proof fn lemma_sorted_by_name(items: Seq<ContactText>)
    ensures
        ordered_by_name(sorted_by_name(items)),
        sorted_by_name(items).len() == items.len(),
        forall|k: int|
            0 <= k < sorted_by_name(items).len() ==> items.contains(#[trigger] sorted_by_name(items)[k]),
        sorted_by_name(items).to_multiset() == items.to_multiset(),
    decreases items.len(),
{
    if items.len() == 0 {
        assert(sorted_by_name(items) =~= items);
    } else {
        let rest = items.drop_last();
        let x = items.last();
        let key = unicode_lowercase(x.0);
        lemma_sorted_by_name(rest);
        let prefix = sorted_by_name(rest);
        let p = contact_insertion_point(prefix, key);
        lemma_contact_insertion_point(prefix, key);
        let r = prefix.insert(p, x);
        assert(r == sorted_by_name(items));
        vstd::seq_lib::to_multiset_insert(prefix, p, x);
        vstd::seq_lib::to_multiset_build(rest, x);
        assert(rest.push(x) =~= items);
        assert forall|i: int, j: int| 0 <= i < j < r.len() implies lex_le(
            unicode_lowercase(r[i].0),
            unicode_lowercase(r[j].0),
        ) by {
            if j < p {
                assert(r[i] == prefix[i] && r[j] == prefix[j]);
            } else if j == p {
                assert(r[i] == prefix[i]);
            } else if i < p {
                assert(r[i] == prefix[i] && r[j] == prefix[j - 1]);
                lemma_lex_le_total(unicode_lowercase(prefix[p].0), key);
                if p < j - 1 {
                    lemma_lex_le_transitive(
                        key,
                        unicode_lowercase(prefix[p].0),
                        unicode_lowercase(prefix[j - 1].0),
                    );
                }
                lemma_lex_le_transitive(
                    unicode_lowercase(prefix[i].0),
                    key,
                    unicode_lowercase(prefix[j - 1].0),
                );
            } else if i == p {
                assert(r[j] == prefix[j - 1]);
                lemma_lex_le_total(unicode_lowercase(prefix[p].0), key);
                if p < j - 1 {
                    lemma_lex_le_transitive(
                        key,
                        unicode_lowercase(prefix[p].0),
                        unicode_lowercase(prefix[j - 1].0),
                    );
                }
            } else {
                assert(r[i] == prefix[i - 1] && r[j] == prefix[j - 1]);
            }
        }
        assert forall|k: int| 0 <= k < r.len() implies items.contains(#[trigger] r[k]) by {
            if k < p {
                assert(rest.contains(prefix[k]));
                let w = choose|w: int| 0 <= w < rest.len() && rest[w] == prefix[k];
                assert(items[w] == rest[w]);
            } else if k == p {
                assert(items[items.len() - 1] == x);
            } else {
                assert(r[k] == prefix[k - 1]);
                assert(rest.contains(prefix[k - 1]));
                let w = choose|w: int| 0 <= w < rest.len() && rest[w] == prefix[k - 1];
                assert(items[w] == rest[w]);
            }
        }
    }
}

/// A successful directory search gives at most 50 contacts,
/// ordered by lower-cased name, each with a university address, and no
/// address twice.
pub proof fn lemma_directory_answer_ordered(code: Option<i64>, records: Seq<StaffRecord>, query: Seq<char>)
    ensures
        directory_answer(code, records, query) matches Ok(cs) ==> cs.len() <= 50
            && ordered_by_name(cs) && (forall|k: int|
            0 <= k < cs.len() ==> ends_with((#[trigger] cs[k]).1, "@bnbu.edu.cn"@)) && (forall|
            i: int,
            j: int,
        | 0 <= i < j < cs.len() ==> (#[trigger] cs[i]).1 != (#[trigger] cs[j]).1),
{
    let found = directory_scan(records, unicode_lowercase(query)).0;
    lemma_sorted_by_name(found);
    lemma_directory_contacts_distinct(records, unicode_lowercase(query));
    let sorted = sorted_by_name(found);
    assert forall|i: int, j: int| 0 <= i < j < sorted.len() implies (#[trigger] sorted[i]).1
        != (#[trigger] sorted[j]).1 by {
        if sorted[i].1 == sorted[j].1 {
            if sorted[i] == sorted[j] {
                lemma_twice_counts_twice(sorted, i, j);
                lemma_counted_twice(found, sorted[i]);
                let (a, b) = choose|a: int, b: int|
                    0 <= a < b < found.len() && found[a] == sorted[i] && found[b] == sorted[i];
                assert(found[a].1 != found[b].1);
            } else {
                assert(found.contains(sorted[i]));
                assert(found.contains(sorted[j]));
                let a = choose|a: int| 0 <= a < found.len() && found[a] == sorted[i];
                let b = choose|b: int| 0 <= b < found.len() && found[b] == sorted[j];
                assert(a != b);
                if a < b {
                    assert(found[a].1 != found[b].1);
                } else {
                    assert(found[b].1 != found[a].1);
                }
            }
        }
    }
    assert forall|k: int| 0 <= k < sorted.len() implies ends_with(
        (#[trigger] sorted[k]).1,
        "@bnbu.edu.cn"@,
    ) by {
        assert(found.contains(sorted[k]));
        let w = choose|w: int| 0 <= w < found.len() && found[w] == sorted[k];
        assert(ends_with(found[w].1, "@bnbu.edu.cn"@));
    }
    if sorted.len() > max_contacts() {
        let cut = sorted.take(max_contacts());
        assert forall|k: int| 0 <= k < cut.len() implies ends_with(
            (#[trigger] cut[k]).1,
            "@bnbu.edu.cn"@,
        ) by {
            assert(cut[k] == sorted[k]);
        }
        assert forall|i: int, j: int| 0 <= i < j < cut.len() implies lex_le(
            unicode_lowercase(cut[i].0),
            unicode_lowercase(cut[j].0),
        ) by {
            assert(cut[i] == sorted[i] && cut[j] == sorted[j]);
        }
        assert forall|i: int, j: int| 0 <= i < j < cut.len() implies (#[trigger] cut[i]).1
            != (#[trigger] cut[j]).1 by {
            assert(cut[i] == sorted[i] && cut[j] == sorted[j]);
        }
    }
}

/// A successful directory search answers with contacts that the scan found:
/// all of them when it found at most 50, else 50 of them, and none that a
/// contact left out precedes by name.
pub proof fn lemma_directory_answer_keeps_found(records: Seq<StaffRecord>, query: Seq<char>)
    ensures
        ({
            let found = directory_scan(records, unicode_lowercase(query)).0;
            directory_answer(Some(0i64), records, query) matches Ok(cs) && {
                &&& cs.len() == if found.len() <= 50 {
                    found.len() as int
                } else {
                    50
                }
                &&& forall|k: int| 0 <= k < cs.len() ==> found.contains(#[trigger] cs[k])
                &&& found.len() <= 50 ==> cs.to_multiset() == found.to_multiset()
                &&& forall|k: int, c: ContactText|
                    #![trigger cs[k], found.contains(c)]
                    0 <= k < cs.len() && found.contains(c) && !cs.contains(c) ==> lex_le(
                        unicode_lowercase(cs[k].0),
                        unicode_lowercase(c.0),
                    )
            }
        }),
{
    let found = directory_scan(records, unicode_lowercase(query)).0;
    lemma_sorted_by_name(found);
    let sorted = sorted_by_name(found);
    let cs = if sorted.len() > max_contacts() {
        sorted.take(max_contacts())
    } else {
        sorted
    };
    assert forall|k: int| 0 <= k < cs.len() implies found.contains(#[trigger] cs[k]) by {
        assert(cs[k] == sorted[k]);
    }
    assert forall|k: int, c: ContactText|
        #![trigger cs[k], found.contains(c)]
        0 <= k < cs.len() && found.contains(c) && !cs.contains(c) implies lex_le(
        unicode_lowercase(cs[k].0),
        unicode_lowercase(c.0),
    ) by {
        found.to_multiset_ensures();
        sorted.to_multiset_ensures();
        assert(found.to_multiset().count(c) > 0);
        assert(sorted.contains(c));
        let w = choose|w: int| 0 <= w < sorted.len() && sorted[w] == c;
        assert(cs[k] == sorted[k]);
        if w < cs.len() {
            assert(cs[w] == c);
            assert(cs.contains(c));
        }
        assert(k < w);
    }
}

/// Copy of a contact.
fn copy_contact(c: &ProfessorContact) -> (r: ProfessorContact)
    ensures
        contact_text(r) == contact_text(*c),
{
    ProfessorContact {
        name: c.name.clone(),
        email: c.email.clone(),
        department: c.department.clone(),
        source_url: c.source_url.clone(),
    }
}

/// The contacts in stable order of their lower-cased names.
fn sort_contacts(items: &Vec<ProfessorContact>) -> (r: Vec<ProfessorContact>)
    ensures
        contact_texts(r@) == sorted_by_name(contact_texts(items@)),
{
    let ghost all = contact_texts(items@);
    let mut sorted: Vec<ProfessorContact> = Vec::new();
    let mut keys: Vec<Vec<char>> = Vec::new();
    let mut i: usize = 0;
    proof {
        assert(all.take(0) =~= Seq::<ContactText>::empty());
    }
    while i < items.len()
        invariant
            i <= items@.len(),
            all == contact_texts(items@),
            keys@.len() == sorted@.len(),
            forall|k: int|
                0 <= k < keys@.len() ==> #[trigger] keys@[k]@ == unicode_lowercase(sorted@[k].name@),
            contact_texts(sorted@) == sorted_by_name(all.take(i as int)),
        decreases items@.len() - i,
    {
        proof {
            assert(all.take(i + 1).drop_last() =~= all.take(i as int));
            assert(all.take(i + 1).last() == contact_text(items@[i as int]));
        }
        let item = copy_contact(&items[i]);
        let key = lowercase_chars(&chars_of(item.name.as_str()));
        let ghost prefix = contact_texts(sorted@);
        let mut pos: usize = 0;
        proof {
            assert(prefix.subrange(0, prefix.len() as int) =~= prefix);
        }
        while pos < sorted.len() && chars_lex_le(&keys[pos], &key)
            invariant
                pos <= sorted@.len(),
                prefix == contact_texts(sorted@),
                keys@.len() == sorted@.len(),
                forall|k: int|
                    0 <= k < keys@.len() ==> #[trigger] keys@[k]@ == unicode_lowercase(sorted@[k].name@),
                contact_insertion_point(prefix, key@) == pos + contact_insertion_point(
                    prefix.subrange(pos as int, prefix.len() as int),
                    key@,
                ),
            decreases sorted@.len() - pos,
        {
            proof {
                let rest = prefix.subrange(pos as int, prefix.len() as int);
                assert(rest[0] == contact_text(sorted@[pos as int]));
                assert(rest.drop_first() =~= prefix.subrange(pos + 1, prefix.len() as int));
            }
            pos = pos + 1;
        }
        proof {
            let rest = prefix.subrange(pos as int, prefix.len() as int);
            if pos == sorted@.len() {
                assert(rest.len() == 0);
            } else {
                assert(rest[0] == contact_text(sorted@[pos as int]));
                assert(!lex_le(keys@[pos as int]@, key@));
            }
            assert(contact_insertion_point(prefix, key@) == pos);
            assert(key@ == unicode_lowercase(all[i as int].0));
        }
        let ghost before_keys = keys@;
        let ghost before_sorted = sorted@;
        sorted.insert(pos, item);
        keys.insert(pos, key);
        proof {
            assert(contact_texts(sorted@) =~= prefix.insert(pos as int, all[i as int]));
            assert forall|k: int| 0 <= k < keys@.len() implies #[trigger] keys@[k]@ == unicode_lowercase(
                sorted@[k].name@,
            ) by {
                if k < pos {
                    assert(keys@[k] == before_keys[k] && sorted@[k] == before_sorted[k]);
                } else if k > pos {
                    assert(keys@[k] == before_keys[k - 1] && sorted@[k] == before_sorted[k - 1]);
                }
            }
        }
        i = i + 1;
    }
    proof {
        assert(all.take(items@.len() as int) =~= all);
    }
    sorted
}

/// Finishes a directory search from the directory's answer code and entries.
pub fn finish_professor_search(code: Option<i64>, records: &[StaffRecord], query: &str) -> (r: Result<
    Vec<ProfessorContact>,
    String,
>)
    ensures
        match directory_answer(code, records@, query@) {
            Ok(cs) => r matches Ok(v) && contact_texts(v@) == cs,
            Err(e) => r matches Err(m) && m@ == e,
        },
{
    let zero = match code {
        Some(c) => c == 0,
        None => false,
    };
    if !zero {
        return Err(String::from_str("BNBU 教师名录查询失败，请稍后重试"));
    }
    let contacts = parse_staff_directory(records, query);
    let mut sorted = sort_contacts(&contacts);
    if sorted.len() > 50 {
        let ghost full = contact_texts(sorted@);
        sorted.truncate(50);
        proof {
            assert(contact_texts(sorted@) =~= full.take(50));
        }
    }
    Ok(sorted)
}

/// Outcome of checking the words of a directory search: trimmed, at least
/// one and at most 60 characters.
pub open spec fn professor_query_check(query: Seq<char>) -> Result<Seq<char>, Seq<char>> {
    let q = trim(query);
    if q.len() == 0 || q.len() > 60 {
        Err("请输入教授姓名的一部分"@)
    } else {
        Ok(q)
    }
}

/// Checks the words of a directory search and gives them trimmed.
pub fn check_professor_query(query: &str) -> (r: Result<String, String>)
    ensures
        match professor_query_check(query@) {
            Ok(q) => r matches Ok(s) && s@ == q,
            Err(e) => r matches Err(m) && m@ == e,
        },
{
    let q = trimmed(query);
    if q.len() == 0 || q.len() > 60 {
        Err(String::from_str("请输入教授姓名的一部分"))
    } else {
        Ok(string_of(&q))
    }
}

// ---------------------------------------------------------------------------
// Splitting text for translation
// ---------------------------------------------------------------------------
/// The number of bytes of `c` in UTF-8 (`char::len_utf8`).
pub open spec fn char_width(c: char) -> int {
    if (c as int) < 0x80 {
        1
    } else if (c as int) < 0x800 {
        2
    } else if (c as int) < 0x10000 {
        3
    } else {
        4
    }
}

/// The number of bytes of `s` in UTF-8.
pub open spec fn byte_len(s: Seq<char>) -> int
    decreases s.len(),
{
    if s.len() == 0 {
        0
    } else {
        byte_len(s.drop_last()) + char_width(s.last())
    }
}

/// A character after which a piece may end: whitespace or sentence punctuation.
pub open spec fn is_break_char(c: char) -> bool {
    is_unicode_whitespace(c) || c == '.' || c == '!' || c == '?' || c == ';' || c == ':' || c == ','
        || c == '。' || c == '！' || c == '？'
}

/// How many leading characters of `s`, from index `k` on, start within the
/// first `max` bytes.
pub open spec fn reach_from(s: Seq<char>, max: int, k: int) -> int
    decreases s.len() - k,
{
    if 0 <= k < s.len() && byte_len(s.take(k)) <= max {
        reach_from(s, max, k + 1)
    } else {
        k
    }
}

/// The end of the last break character among the first `m` characters.
pub open spec fn last_break(s: Seq<char>, m: int) -> Option<int>
    decreases m,
{
    if m <= 0 {
        None
    } else if is_break_char(s[m - 1]) {
        Some(m)
    } else {
        last_break(s, m - 1)
    }
}

/// Where the first piece of `s` ends: after the last break character that
/// starts within `max` bytes, else after the last character that does.
pub open spec fn cut_point(s: Seq<char>, max: int) -> int {
    let m = reach_from(s, max, 0);
    match last_break(s, m) {
        Some(b) => b,
        None => m,
    }
}

/// The consecutive pieces that `s` is cut into while more than `max` bytes
/// remain.
pub open spec fn pieces(s: Seq<char>, max: int) -> Seq<Seq<char>>
    decreases s.len(),
{
    if byte_len(s) > max {
        let c = cut_point(s, max);
        if 0 < c <= s.len() {
            seq![s.take(c)] + pieces(s.skip(c), max)
        } else {
            Seq::empty()
        }
    } else if s.len() > 0 {
        seq![s]
    } else {
        Seq::empty()
    }
}

/// The trimmed pieces that are not empty.
pub open spec fn trimmed_pieces(ps: Seq<Seq<char>>) -> Seq<Seq<char>>
    decreases ps.len(),
{
    if ps.len() == 0 {
        Seq::empty()
    } else {
        let rest = trimmed_pieces(ps.drop_last());
        if trim(ps.last()).len() > 0 {
            rest.push(trim(ps.last()))
        } else {
            rest
        }
    }
}

/// The chunks a text is translated in.
pub open spec fn translation_chunks(s: Seq<char>, max: int) -> Seq<Seq<char>> {
    trimmed_pieces(pieces(s, max))
}

/// The pieces joined together.
pub open spec fn concat_all(ps: Seq<Seq<char>>) -> Seq<char>
    decreases ps.len(),
{
    if ps.len() == 0 {
        Seq::empty()
    } else {
        ps[0] + concat_all(ps.drop_first())
    }
}

proof fn lemma_byte_len_step(s: Seq<char>, k: int)
    requires
        0 <= k < s.len(),
    ensures
        byte_len(s.take(k + 1)) == byte_len(s.take(k)) + char_width(s[k]),
{
    assert(s.take(k + 1).drop_last() =~= s.take(k));
}

proof fn lemma_byte_len_bounds(s: Seq<char>)
    ensures
        s.len() <= byte_len(s) <= 4 * s.len(),
    decreases s.len(),
{
    if s.len() > 0 {
        lemma_byte_len_bounds(s.drop_last());
    }
}

proof fn lemma_reach_bounds(s: Seq<char>, max: int, k: int)
    requires
        0 <= k <= s.len(),
    ensures
        k <= reach_from(s, max, k) <= s.len(),
    decreases s.len() - k,
{
    if k < s.len() && byte_len(s.take(k)) <= max {
        lemma_reach_bounds(s, max, k + 1);
    }
}

proof fn lemma_last_break_bounds(s: Seq<char>, m: int)
    requires
        m <= s.len(),
    ensures
        last_break(s, m) matches Some(b) ==> 0 < b <= m,
    decreases m,
{
    if m > 0 && !is_break_char(s[m - 1]) {
        lemma_last_break_bounds(s, m - 1);
    }
}

proof fn lemma_cut_bounds(s: Seq<char>, max: int)
    requires
        s.len() > 0,
        max >= 0,
    ensures
        0 < cut_point(s, max) <= s.len(),
{
    assert(s.take(0).len() == 0);
    assert(byte_len(s.take(0)) == 0);
    lemma_reach_bounds(s, max, 1);
    let m = reach_from(s, max, 0);
    assert(m == reach_from(s, max, 1));
    lemma_last_break_bounds(s, m);
}

/// Cutting a text into pieces loses nothing: the pieces, joined, are the text.
pub proof fn lemma_pieces_cover_text(s: Seq<char>, max: int)
    requires
        max >= 0,
    ensures
        concat_all(pieces(s, max)) == s,
    decreases s.len(),
{
    if byte_len(s) > max {
        lemma_byte_len_bounds(s);
        lemma_cut_bounds(s, max);
        let c = cut_point(s, max);
        lemma_pieces_cover_text(s.skip(c), max);
        let ps = pieces(s, max);
        assert(ps == seq![s.take(c)] + pieces(s.skip(c), max));
        assert(ps[0] == s.take(c));
        assert(ps.drop_first() =~= pieces(s.skip(c), max));
        assert(concat_all(ps) == ps[0] + concat_all(ps.drop_first()));
        assert(s.take(c) + s.skip(c) =~= s);
    } else if s.len() > 0 {
        let ps = pieces(s, max);
        assert(ps == seq![s]);
        assert(ps.drop_first() =~= Seq::<Seq<char>>::empty());
        assert(concat_all(ps) == ps[0] + concat_all(ps.drop_first()));
        assert(s + Seq::<char>::empty() =~= s);
    } else {
        assert(s =~= Seq::<char>::empty());
    }
}

/// Character `j` of `s` starts within the first `max` bytes.
pub open spec fn starts_within(s: Seq<char>, max: int, j: int) -> bool {
    0 <= j < s.len() && byte_len(s.take(j)) <= max
}

proof fn lemma_byte_len_monotone(s: Seq<char>, a: int, b: int)
    requires
        0 <= a <= b <= s.len(),
    ensures
        byte_len(s.take(a)) <= byte_len(s.take(b)),
    decreases b - a,
{
    if a < b {
        lemma_byte_len_monotone(s, a, b - 1);
        lemma_byte_len_step(s, b - 1);
    }
}

proof fn lemma_reach_from_spec(s: Seq<char>, max: int, k: int)
    requires
        0 <= k <= s.len(),
        forall|j: int| 0 <= j < k ==> starts_within(s, max, j),
    ensures
        k <= reach_from(s, max, k) <= s.len(),
        forall|j: int| 0 <= j < reach_from(s, max, k) ==> starts_within(s, max, j),
        forall|j: int|
            reach_from(s, max, k) <= j < s.len() ==> !starts_within(s, max, j),
    decreases s.len() - k,
{
    if k < s.len() && byte_len(s.take(k)) <= max {
        assert(starts_within(s, max, k));
        lemma_reach_from_spec(s, max, k + 1);
    } else {
        assert forall|j: int| k <= j < s.len() implies !starts_within(s, max, j) by {
            lemma_byte_len_monotone(s, k, j);
        }
    }
}

proof fn lemma_last_break_spec(s: Seq<char>, m: int)
    requires
        m <= s.len(),
    ensures
        match last_break(s, m) {
            Some(b) => 0 < b <= m && is_break_char(s[b - 1]) && forall|j: int|
                b <= j < m ==> !is_break_char(#[trigger] s[j]),
            None => forall|j: int| 0 <= j < m ==> !is_break_char(#[trigger] s[j]),
        },
    decreases m,
{
    if m > 0 && !is_break_char(s[m - 1]) {
        lemma_last_break_spec(s, m - 1);
    }
}

/// Where a text longer than `max` bytes is cut first: its first piece is a
/// non-empty prefix; it ends just after the last whitespace or punctuation
/// character that starts within the first `max` bytes, if there is one, and
/// otherwise just after the last character that starts within them; the
/// other pieces are those of the rest.
pub proof fn lemma_first_piece_ends_at_last_break(s: Seq<char>, max: int)
    requires
        max >= 0,
        byte_len(s) > max,
    ensures
        pieces(s, max).len() > 0,
        ({
            let c = pieces(s, max)[0].len() as int;
            &&& 0 < c <= s.len()
            &&& pieces(s, max)[0] == s.take(c)
            &&& pieces(s, max).drop_first() == pieces(s.skip(c), max)
            &&& (exists|j: int| starts_within(s, max, j) && is_break_char(#[trigger] s[j])) ==> {
                &&& starts_within(s, max, c - 1)
                &&& is_break_char(s[c - 1])
                &&& forall|j: int|
                    c <= j < s.len() && starts_within(s, max, j) ==> !is_break_char(#[trigger] s[j])
            }
            &&& (forall|j: int| starts_within(s, max, j) ==> !is_break_char(#[trigger] s[j])) ==> {
                &&& forall|j: int| 0 <= j < c ==> starts_within(s, max, j)
                &&& c == s.len() || !starts_within(s, max, c)
            }
        }),
{
    lemma_byte_len_bounds(s);
    lemma_cut_bounds(s, max);
    let c = cut_point(s, max);
    let ps = pieces(s, max);
    assert(ps == seq![s.take(c)] + pieces(s.skip(c), max));
    assert(ps[0] == s.take(c));
    assert(ps.drop_first() =~= pieces(s.skip(c), max));
    lemma_reach_from_spec(s, max, 0);
    let m = reach_from(s, max, 0);
    lemma_last_break_spec(s, m);
    if exists|j: int| starts_within(s, max, j) && is_break_char(#[trigger] s[j]) {
        let j0 = choose|j: int| starts_within(s, max, j) && is_break_char(#[trigger] s[j]);
        assert(j0 < m);
        match last_break(s, m) {
            Some(b) => {
                assert(c == b);
            },
            None => {
                assert(!is_break_char(s[j0]));
            },
        }
    }
    if forall|j: int| starts_within(s, max, j) ==> !is_break_char(#[trigger] s[j]) {
        match last_break(s, m) {
            Some(b) => {
                assert(starts_within(s, max, b - 1));
                assert(!is_break_char(s[b - 1]));
            },
            None => {
                assert(c == m);
            },
        }
    }
}

/// A text of at most `max` bytes is not cut: it is one piece, or none when
/// it is empty.
pub proof fn lemma_short_text_is_one_piece(s: Seq<char>, max: int)
    requires
        byte_len(s) <= max,
    ensures
        pieces(s, max) == (if s.len() > 0 {
            seq![s]
        } else {
            Seq::<Seq<char>>::empty()
        }),
{
}

/// The characters of `s` that are not whitespace, in order.
pub open spec fn visible(s: Seq<char>) -> Seq<char>
    decreases s.len(),
{
    if s.len() == 0 {
        Seq::empty()
    } else if is_unicode_whitespace(s.last()) {
        visible(s.drop_last())
    } else {
        visible(s.drop_last()).push(s.last())
    }
}

proof fn lemma_visible_add(a: Seq<char>, b: Seq<char>)
    ensures
        visible(a + b) == visible(a) + visible(b),
    decreases b.len(),
{
    if b.len() == 0 {
        assert(a + b =~= a);
        assert(visible(a) + visible(b) =~= visible(a));
    } else {
        assert((a + b).drop_last() =~= a + b.drop_last());
        assert((a + b).last() == b.last());
        lemma_visible_add(a, b.drop_last());
        if !is_unicode_whitespace(b.last()) {
            assert(visible(a) + visible(b.drop_last()).push(b.last()) =~= (visible(a) + visible(
                b.drop_last(),
            )).push(b.last()));
        }
    }
}

proof fn lemma_visible_trim_start(s: Seq<char>)
    ensures
        visible(trim_start(s)) == visible(s),
    decreases s.len(),
{
    if s.len() > 0 && is_unicode_whitespace(s[0]) {
        lemma_visible_trim_start(s.drop_first());
        let head = seq![s[0]];
        lemma_visible_add(head, s.drop_first());
        assert(head + s.drop_first() =~= s);
        assert(head.last() == s[0]);
        assert(head.drop_last().len() == 0);
        assert(visible(head.drop_last()) == Seq::<char>::empty());
        assert(visible(head) =~= Seq::<char>::empty());
        assert(visible(head) + visible(s.drop_first()) =~= visible(s.drop_first()));
    }
}

proof fn lemma_visible_trim_end(s: Seq<char>)
    ensures
        visible(trim_end(s)) == visible(s),
    decreases s.len(),
{
    if s.len() > 0 && is_unicode_whitespace(s.last()) {
        lemma_visible_trim_end(s.drop_last());
    }
}

proof fn lemma_visible_trim(s: Seq<char>)
    ensures
        visible(trim(s)) == visible(s),
{
    lemma_visible_trim_start(s);
    lemma_visible_trim_end(trim_start(s));
}

proof fn lemma_concat_push(ps: Seq<Seq<char>>, x: Seq<char>)
    ensures
        concat_all(ps.push(x)) == concat_all(ps) + x,
    decreases ps.len(),
{
    let q = ps.push(x);
    if ps.len() == 0 {
        assert(q.drop_first() =~= Seq::<Seq<char>>::empty());
        assert(concat_all(q.drop_first()) == Seq::<char>::empty());
        assert(q[0] == x);
        assert(concat_all(q) == x + Seq::<char>::empty());
        assert(x + Seq::<char>::empty() =~= x);
        assert(concat_all(ps) == Seq::<char>::empty());
        assert(Seq::<char>::empty() + x =~= x);
    } else {
        assert(q.drop_first() =~= ps.drop_first().push(x));
        assert(q[0] == ps[0]);
        lemma_concat_push(ps.drop_first(), x);
        assert(concat_all(q) == q[0] + concat_all(q.drop_first()));
        assert(concat_all(ps) == ps[0] + concat_all(ps.drop_first()));
        assert(ps[0] + (concat_all(ps.drop_first()) + x) =~= (ps[0] + concat_all(ps.drop_first()))
            + x);
    }
}

proof fn lemma_trimmed_pieces_visible(ps: Seq<Seq<char>>)
    ensures
        visible(concat_all(trimmed_pieces(ps))) == visible(concat_all(ps)),
    decreases ps.len(),
{
    if ps.len() > 0 {
        let rest = ps.drop_last();
        let last = ps.last();
        lemma_trimmed_pieces_visible(rest);
        assert(rest.push(last) =~= ps);
        lemma_concat_push(rest, last);
        lemma_visible_add(concat_all(rest), last);
        lemma_visible_trim(last);
        if trim(last).len() > 0 {
            lemma_concat_push(trimmed_pieces(rest), trim(last));
            lemma_visible_add(concat_all(trimmed_pieces(rest)), trim(last));
        } else {
            assert(visible(trim(last)) =~= Seq::<char>::empty());
            assert(visible(concat_all(rest)) + visible(last) =~= visible(concat_all(rest)));
        }
    }
}

/// Splitting a text for translation keeps its content: the chunks, joined,
/// hold every character of the text that is not whitespace, in order, and no
/// other.
pub proof fn lemma_translation_chunks_keep_text(s: Seq<char>, max: int)
    requires
        max >= 0,
    ensures
        visible(concat_all(translation_chunks(s, max))) == visible(s),
{
    lemma_pieces_cover_text(s, max);
    lemma_trimmed_pieces_visible(pieces(s, max));
}

proof fn lemma_trim_start_shape(s: Seq<char>)
    ensures
        exists|k: int| 0 <= k <= s.len() && trim_start(s) == s.skip(k),
        trim_start(s).len() > 0 ==> !is_unicode_whitespace(trim_start(s)[0]),
    decreases s.len(),
{
    if s.len() > 0 && is_unicode_whitespace(s[0]) {
        lemma_trim_start_shape(s.drop_first());
        let k = choose|k: int|
            0 <= k <= s.drop_first().len() && trim_start(s.drop_first()) == s.drop_first().skip(k);
        assert(s.drop_first().skip(k) =~= s.skip(k + 1));
    } else {
        assert(s.skip(0) =~= s);
    }
}

proof fn lemma_trim_end_shape(s: Seq<char>)
    ensures
        exists|k: int| 0 <= k <= s.len() && trim_end(s) == s.take(k),
        trim_end(s).len() > 0 ==> !is_unicode_whitespace(trim_end(s).last()),
    decreases s.len(),
{
    if s.len() > 0 && is_unicode_whitespace(s.last()) {
        lemma_trim_end_shape(s.drop_last());
        let k = choose|k: int|
            0 <= k <= s.drop_last().len() && trim_end(s.drop_last()) == s.drop_last().take(k);
        assert(s.drop_last().take(k) =~= s.take(k));
    } else {
        assert(s.take(s.len() as int) =~= s);
    }
}

/// A text that is trimmed and not empty begins and ends with a character
/// that is not whitespace.
proof fn lemma_trim_bounds(s: Seq<char>)
    ensures
        trim(s).len() > 0 ==> !is_unicode_whitespace(trim(s)[0]) && !is_unicode_whitespace(
            trim(s).last(),
        ),
{
    let t = trim_start(s);
    lemma_trim_start_shape(s);
    lemma_trim_end_shape(t);
    if trim(s).len() > 0 {
        let k = choose|k: int| 0 <= k <= t.len() && trim_end(t) == t.take(k);
        assert(trim(s)[0] == t[0]);
    }
}

proof fn lemma_trimmed_pieces_shape(ps: Seq<Seq<char>>)
    ensures
        forall|k: int|
            0 <= k < trimmed_pieces(ps).len() ==> (#[trigger] trimmed_pieces(ps)[k]).len() > 0
                && !is_unicode_whitespace(trimmed_pieces(ps)[k][0]) && !is_unicode_whitespace(
                trimmed_pieces(ps)[k].last(),
            ),
    decreases ps.len(),
{
    if ps.len() > 0 {
        lemma_trimmed_pieces_shape(ps.drop_last());
        lemma_trim_bounds(ps.last());
        let rest = trimmed_pieces(ps.drop_last());
        assert forall|k: int| 0 <= k < trimmed_pieces(ps).len() implies (
        #[trigger] trimmed_pieces(ps)[k]).len() > 0 && !is_unicode_whitespace(
            trimmed_pieces(ps)[k][0],
        ) && !is_unicode_whitespace(trimmed_pieces(ps)[k].last()) by {
            if k < rest.len() {
                assert(trimmed_pieces(ps)[k] == rest[k]);
            }
        }
    }
}

/// Every chunk of a text split for translation holds text: it is not empty,
/// and it neither begins nor ends with whitespace.
pub proof fn lemma_translation_chunks_trimmed(s: Seq<char>, max: int)
    ensures
        forall|k: int|
            0 <= k < translation_chunks(s, max).len() ==> (#[trigger] translation_chunks(s, max)[k]).len()
                > 0 && !is_unicode_whitespace(translation_chunks(s, max)[k][0])
                && !is_unicode_whitespace(translation_chunks(s, max)[k].last()),
{
    lemma_trimmed_pieces_shape(pieces(s, max));
}

/// Whether `c` ends a piece.
fn break_char(c: char) -> (r: bool)
    ensures
        r == is_break_char(c),
{
    is_whitespace(c) || c == '.' || c == '!' || c == '?' || c == ';' || c == ':' || c == ','
        || c == '。' || c == '！' || c == '？'
}

/// The UTF-8 width of a character.
fn width_of(c: char) -> (r: u128)
    ensures
        r == char_width(c),
{
    if (c as u32) < 0x80 {
        1
    } else if (c as u32) < 0x800 {
        2
    } else if (c as u32) < 0x10000 {
        3
    } else {
        4
    }
}

/// The UTF-8 length of `s`.
fn utf8_len(s: &[char]) -> (r: u128)
    ensures
        r == byte_len(s@),
{
    let mut total: u128 = 0;
    let mut k: usize = 0;
    proof {
        assert(s@.take(0).len() == 0);
    }
    while k < s.len()
        invariant
            k <= s@.len(),
            total == byte_len(s@.take(k as int)),
            total <= 4 * k,
        decreases s@.len() - k,
    {
        proof {
            lemma_byte_len_step(s@, k as int);
        }
        total = total + width_of(s[k]);
        k = k + 1;
    }
    proof {
        assert(s@.take(s@.len() as int) =~= s@);
    }
    total
}

/// The end of the first piece of `s`.
fn cut_of(s: &[char], max: usize) -> (r: usize)
    requires
        s@.len() > 0,
    ensures
        r == cut_point(s@, max as int),
{
    let mut offset: u128 = 0;
    let mut k: usize = 0;
    let mut boundary: usize = 0;
    proof {
        assert(s@.take(0).len() == 0);
    }
    while k < s.len() && offset <= max as u128
        invariant
            k <= s@.len(),
            offset == byte_len(s@.take(k as int)),
            offset <= 4 * k,
            reach_from(s@, max as int, 0) == reach_from(s@, max as int, k as int),
            boundary <= k,
            boundary > 0 ==> last_break(s@, k as int) == Some(boundary as int),
            boundary == 0 ==> last_break(s@, k as int) is None,
        decreases s@.len() - k,
    {
        proof {
            lemma_byte_len_step(s@, k as int);
        }
        if break_char(s[k]) {
            boundary = k + 1;
        }
        offset = offset + width_of(s[k]);
        k = k + 1;
    }
    if boundary > 0 {
        boundary
    } else {
        k
    }
}

/// Splits a text into the trimmed, non-empty chunks sent for translation:
/// while more than `max_bytes` bytes (UTF-8) remain, a chunk ends after the
/// last whitespace or punctuation that starts within `max_bytes` bytes, or
/// after the last character that does; chunks never split a character.
pub fn split_utf8_chunks(value: &str, max_bytes: usize) -> (r: Vec<String>)
    ensures
        r@.len() == translation_chunks(value@, max_bytes as int).len(),
        forall|k: int|
            0 <= k < r@.len() ==> #[trigger] r@[k]@ == translation_chunks(value@, max_bytes as int)[k],
{
    let ghost max = max_bytes as int;
    let mut rest = chars_of(value);
    let ghost done: Seq<Seq<char>> = Seq::empty();
    let mut out: Vec<String> = Vec::new();
    proof {
        assert(done + pieces(rest@, max) =~= pieces(value@, max));
    }
    loop
        invariant
            done + pieces(rest@, max) == pieces(value@, max),
            max == max_bytes as int,
            out@.len() == trimmed_pieces(done).len(),
            forall|k: int| 0 <= k < out@.len() ==> #[trigger] out@[k]@ == trimmed_pieces(done)[k],
        decreases rest@.len(),
    {
        let remaining = utf8_len(&rest);
        if remaining <= max_bytes as u128 {
            let piece = trim_chars(&rest);
            let ghost before = done;
            proof {
                if rest@.len() > 0 {
                    assert(pieces(rest@, max) == seq![rest@]);
                    done = done.push(rest@);
                    assert(done.drop_last() =~= before);
                    assert(before + seq![rest@] =~= done);
                } else {
                    assert(pieces(rest@, max) =~= Seq::<Seq<char>>::empty());
                    assert(before + Seq::<Seq<char>>::empty() =~= before);
                }
            }
            if rest.len() > 0 && piece.len() > 0 {
                out.push(string_of(&piece));
            }
            proof {
                assert(done =~= pieces(value@, max));
            }
            return out;
        }
        proof {
            lemma_byte_len_bounds(rest@);
            lemma_cut_bounds(rest@, max);
        }
        let cut = cut_of(&rest, max_bytes);
        let piece_raw = slice_chars(&rest, 0, cut);
        let next = slice_chars(&rest, cut, rest.len());
        let piece = trim_chars(&piece_raw);
        proof {
            assert(piece_raw@ =~= rest@.take(cut as int));
            assert(next@ =~= rest@.skip(cut as int));
            assert(pieces(rest@, max) == seq![piece_raw@] + pieces(next@, max));
            let before = done;
            done = done.push(piece_raw@);
            assert(done.drop_last() =~= before);
            assert(done + pieces(next@, max) =~= before + pieces(rest@, max));
        }
        if piece.len() > 0 {
            out.push(string_of(&piece));
        }
        rest = next;
    }
}

// ---------------------------------------------------------------------------
// Translation requests and answers
// ---------------------------------------------------------------------------
/// The longest text, in characters, sent for translation.
pub open spec fn max_translation_chars() -> int {
    12000
}

/// Outcome of checking a text before translation: trimmed, not empty, at most
/// `max_translation_chars()` characters.
pub open spec fn translation_input(text: Seq<char>) -> Result<Seq<char>, Seq<char>> {
    let t = trim(text);
    if t.len() == 0 {
        Err("邮件正文为空"@)
    } else if t.len() > max_translation_chars() {
        Err("邮件正文过长，请展开后选择需要翻译的部分"@)
    } else {
        Ok(t)
    }
}

/// Checks a text before translation and gives it trimmed.
pub fn check_translation_text(text: &str) -> (r: Result<String, String>)
    ensures
        match translation_input(text@) {
            Ok(t) => r matches Ok(s) && s@ == t,
            Err(e) => r matches Err(m) && m@ == e,
        },
{
    let t = trimmed(text);
    if t.len() == 0 {
        Err(String::from_str("邮件正文为空"))
    } else if t.len() > 12000 {
        Err(String::from_str("邮件正文过长，请展开后选择需要翻译的部分"))
    } else {
        Ok(string_of(&t))
    }
}

/// Outcome of one translation answer: its text trimmed, an error when it is
/// missing or blank.
pub open spec fn translation_answer(value: Option<String>) -> Result<Seq<char>, Seq<char>> {
    let t = trim(
        match value {
            Some(v) => v@,
            None => Seq::empty(),
        },
    );
    if t.len() == 0 {
        Err("翻译服务没有返回译文"@)
    } else {
        Ok(t)
    }
}

/// Accepts the translated text of one chunk.
pub fn accept_translation(value: Option<String>) -> (r: Result<String, String>)
    ensures
        match translation_answer(value) {
            Ok(t) => r matches Ok(s) && s@ == t,
            Err(e) => r matches Err(m) && m@ == e,
        },
{
    let t = match &value {
        Some(v) => trimmed(v.as_str()),
        None => Vec::new(),
    };
    proof {
        if value is None {
            assert(trim(Seq::<char>::empty()) =~= Seq::<char>::empty());
        }
    }
    if t.len() == 0 {
        Err(String::from_str("翻译服务没有返回译文"))
    } else {
        Ok(string_of(&t))
    }
}

/// The translated chunks joined by newlines.
pub fn join_translations(parts: &Vec<String>) -> (r: String)
    ensures
        r@ == join_lines(parts@.map_values(|p: String| p@)),
{
    let ghost all = parts@.map_values(|p: String| p@);
    let mut out: Vec<char> = Vec::new();
    let mut i: usize = 0;
    proof {
        assert(all.take(0) =~= Seq::<Seq<char>>::empty());
    }
    while i < parts.len()
        invariant
            i <= parts@.len(),
            all == parts@.map_values(|p: String| p@),
            out@ == join_lines(all.take(i as int)),
        decreases parts@.len() - i,
    {
        proof {
            assert(all.take(i + 1).drop_last() =~= all.take(i as int));
            assert(all.take(i + 1).last() == parts@[i as int]@);
        }
        if i > 0 {
            out.push('\n');
        }
        push_str(&mut out, parts[i].as_str());
        proof {
            if i == 0 {
                assert(out@ =~= join_lines(all.take(1)));
            } else {
                assert(out@ =~= join_lines(all.take(i + 1)));
            }
        }
        i = i + 1;
    }
    proof {
        assert(all.take(parts@.len() as int) =~= all);
    }
    string_of(&out)
}

// ---------------------------------------------------------------------------
// Outgoing mail: addresses and attachments (lettre, base64)
// ---------------------------------------------------------------------------
/// Whether lettre's `Address::from_str` accepts a text.
pub uninterp spec fn lettre_accepts_address(text: Seq<char>) -> bool;

/// Whether lettre's `Mailbox::from_str` accepts a text.
pub uninterp spec fn lettre_accepts_mailbox(text: Seq<char>) -> bool;

/// What base64's `STANDARD` engine decodes a text to, `None` on a decode error.
pub uninterp spec fn base64_standard(text: Seq<char>) -> Option<Seq<u8>>;

/// Parses `text` as a `lettre::Address` and tells whether that succeeded;
/// named `lettre_accepts_address`.
#[verifier::external_body]
fn address_parses(text: &str) -> (r: bool)
    ensures
        r == lettre_accepts_address(text@),
{
    text.parse::<lettre::Address>().is_ok()
}

/// Parses `text` as a `lettre::message::Mailbox` and tells whether that
/// succeeded; named `lettre_accepts_mailbox`.
#[verifier::external_body]
fn mailbox_parses(text: &str) -> (r: bool)
    ensures
        r == lettre_accepts_mailbox(text@),
{
    text.parse::<lettre::message::Mailbox>().is_ok()
}

/// Decodes `text` with `base64::engine::general_purpose::STANDARD`; the outcome
/// is named `base64_standard`.
#[verifier::external_body]
fn decode_base64(text: &str) -> (r: Option<Vec<u8>>)
    ensures
        r matches Some(b) ==> base64_standard(text@) == Some(b@),
        r is None ==> base64_standard(text@) is None,
{
    base64::Engine::decode(&base64::engine::general_purpose::STANDARD, text).ok()
}

/// The decoded attachments' total size, accumulated like a checked `usize`
/// sum over the first `n` attachments, or the error of the first attachment
/// that has a blank name or does not decode, or of an overflow.
pub open spec fn attachment_total(items: Seq<OutgoingAttachment>, n: nat) -> Result<int, Seq<char>>
    decreases n,
{
    if n == 0 {
        Ok(0)
    } else {
        match attachment_total(items, (n - 1) as nat) {
            Err(e) => Err(e),
            Ok(sum) => {
                let item = items[n - 1];
                if is_blank(item.name@) {
                    Err("附件名称不能为空"@)
                } else {
                    match base64_standard(item.data_base64@) {
                        None => Err("附件 "@ + item.name@ + " 数据无效"@),
                        Some(bytes) => if sum + bytes.len() > usize::MAX {
                            Err("附件总大小无效"@)
                        } else {
                            Ok(sum + bytes.len())
                        },
                    }
                }
            },
        }
    }
}

/// The largest total size of attachments, in bytes.
pub open spec fn max_attachment_bytes() -> int {
    20971520
}

/// The recipients, copies and blind copies, in that order.
pub open spec fn all_recipients(m: OutgoingMail) -> Seq<String> {
    m.to@ + m.cc@ + m.bcc@
}

/// Index of the first address that lettre does not accept as a mailbox once
/// trimmed.
pub open spec fn first_bad_mailbox(addresses: Seq<String>) -> Option<int>
    decreases addresses.len(),
{
    if addresses.len() == 0 {
        None
    } else if !lettre_accepts_mailbox(trim(addresses[0]@)) {
        Some(0)
    } else {
        match first_bad_mailbox(addresses.drop_first()) {
            Some(i) => Some(i + 1),
            None => None,
        }
    }
}

/// Outcome of checking an outgoing mail before it is built: it needs a
/// recipient, a subject and a body, a sender address and recipient mailboxes
/// that lettre accepts, and attachments that are named, decode, and together
/// hold at most `max_attachment_bytes()`.
pub open spec fn outgoing_check(sender_email: Seq<char>, m: OutgoingMail) -> Result<(), Seq<char>> {
    if m.to@.len() == 0 {
        Err("请至少填写一位收件人"@)
    } else if is_blank(m.subject@) {
        Err("请填写邮件主题"@)
    } else if is_blank(m.text_body@) && is_blank(m.html_body@) {
        Err("请填写邮件正文"@)
    } else if !lettre_accepts_address(sender_email) {
        Err("发件邮箱格式无效"@)
    } else {
        match first_bad_mailbox(all_recipients(m)) {
            Some(i) => Err("邮箱地址格式无效："@ + all_recipients(m)[i]@),
            None => match attachment_total(m.attachments@, m.attachments@.len()) {
                Err(e) => Err(e),
                Ok(total) => if total > max_attachment_bytes() {
                    Err("附件总大小不能超过 20 MB"@)
                } else {
                    Ok(())
                },
            },
        }
    }
}

proof fn lemma_first_bad_mailbox(addresses: Seq<String>)
    ensures
        match first_bad_mailbox(addresses) {
            Some(i) => 0 <= i < addresses.len() && !lettre_accepts_mailbox(trim(addresses[i]@))
                && forall|j: int| 0 <= j < i ==> lettre_accepts_mailbox(trim(#[trigger] addresses[j]@)),
            None => forall|j: int|
                0 <= j < addresses.len() ==> lettre_accepts_mailbox(trim(#[trigger] addresses[j]@)),
        },
    decreases addresses.len(),
{
    if addresses.len() > 0 && lettre_accepts_mailbox(trim(addresses[0]@)) {
        let t = addresses.drop_first();
        lemma_first_bad_mailbox(t);
        assert forall|j: int| 1 <= j < addresses.len() implies addresses[j] == t[j - 1] by {}
    }
}

proof fn lemma_attachment_error_persists(items: Seq<OutgoingAttachment>, n: nat, m: nat)
    requires
        n <= m,
        attachment_total(items, n) is Err,
    ensures
        attachment_total(items, m) == attachment_total(items, n),
    decreases m - n,
{
    if n < m {
        lemma_attachment_error_persists(items, n, (m - 1) as nat);
    }
}

/// Whether an attachment is named and its data decodes as base64.
pub open spec fn attachment_usable(a: OutgoingAttachment) -> bool {
    !is_blank(a.name@) && base64_standard(a.data_base64@) is Some
}

/// The total decoded size of the first `n` attachments (one whose data does
/// not decode adds nothing).
pub open spec fn decoded_size(items: Seq<OutgoingAttachment>, n: nat) -> int
    decreases n,
{
    if n == 0 {
        0
    } else {
        decoded_size(items, (n - 1) as nat) + match base64_standard(items[n - 1].data_base64@) {
            Some(bytes) => bytes.len() as int,
            None => 0int,
        }
    }
}

proof fn lemma_attachment_total_is_decoded_size(items: Seq<OutgoingAttachment>, n: nat)
    requires
        n <= items.len(),
    ensures
        0 <= decoded_size(items, n),
        attachment_total(items, n) is Ok ==> attachment_total(items, n) == Ok::<int, Seq<char>>(
            decoded_size(items, n),
        ) && forall|j: int| 0 <= j < n ==> attachment_usable(#[trigger] items[j]),
        (forall|j: int| 0 <= j < n ==> attachment_usable(#[trigger] items[j])) && decoded_size(
            items,
            n,
        ) <= usize::MAX ==> attachment_total(items, n) == Ok::<int, Seq<char>>(
            decoded_size(items, n),
        ),
    decreases n,
{
    if n > 0 {
        lemma_attachment_total_is_decoded_size(items, (n - 1) as nat);
        let k = (n - 1) as int;
        if (forall|j: int| 0 <= j < n ==> attachment_usable(#[trigger] items[j])) {
            assert(attachment_usable(items[k]));
        }
    }
}

/// A mail passes the check exactly when it has a recipient, a subject and a
/// body, lettre accepts the sender's address and, once trimmed, every address
/// in To, Cc and Bcc, every attachment is named and decodes, and the decoded
/// attachments together hold at most 20 MB.
pub proof fn lemma_outgoing_check_accepts(sender_email: Seq<char>, m: OutgoingMail)
    ensures
        outgoing_check(sender_email, m) is Ok <==> {
            &&& m.to@.len() > 0
            &&& !is_blank(m.subject@)
            &&& !(is_blank(m.text_body@) && is_blank(m.html_body@))
            &&& lettre_accepts_address(sender_email)
            &&& forall|j: int| 0 <= j < m.to@.len() ==> lettre_accepts_mailbox(trim(#[trigger] m.to@[j]@))
            &&& forall|j: int| 0 <= j < m.cc@.len() ==> lettre_accepts_mailbox(trim(#[trigger] m.cc@[j]@))
            &&& forall|j: int|
                0 <= j < m.bcc@.len() ==> lettre_accepts_mailbox(trim(#[trigger] m.bcc@[j]@))
            &&& forall|j: int|
                0 <= j < m.attachments@.len() ==> attachment_usable(#[trigger] m.attachments@[j])
            &&& decoded_size(m.attachments@, m.attachments@.len()) <= 20 * 1024 * 1024
        },
{
    let all = all_recipients(m);
    let a = m.to@.len() as int;
    let b = m.cc@.len() as int;
    lemma_first_bad_mailbox(all);
    let items = m.attachments@;
    lemma_attachment_total_is_decoded_size(items, items.len());
    assert forall|j: int| 0 <= j < a implies all[j] == m.to@[j] by {}
    assert forall|j: int| 0 <= j < b implies all[a + j] == m.cc@[j] by {}
    assert forall|j: int| 0 <= j < m.bcc@.len() implies all[a + b + j] == m.bcc@[j] by {}
    let recipients_ok = (forall|j: int|
        0 <= j < m.to@.len() ==> lettre_accepts_mailbox(trim(#[trigger] m.to@[j]@))) && (forall|
        j: int,
    | 0 <= j < m.cc@.len() ==> lettre_accepts_mailbox(trim(#[trigger] m.cc@[j]@))) && (forall|
        j: int,
    | 0 <= j < m.bcc@.len() ==> lettre_accepts_mailbox(trim(#[trigger] m.bcc@[j]@)));
    if recipients_ok {
        assert forall|j: int| 0 <= j < all.len() implies lettre_accepts_mailbox(
            trim(#[trigger] all[j]@),
        ) by {
            if j < a {
                assert(all[j] == m.to@[j]);
            } else if j < a + b {
                assert(all[a + (j - a)] == m.cc@[j - a]);
            } else {
                assert(all[a + b + (j - a - b)] == m.bcc@[j - a - b]);
            }
        }
        assert(first_bad_mailbox(all) is None);
    }
    if first_bad_mailbox(all) is None {
        assert forall|j: int| 0 <= j < m.to@.len() implies lettre_accepts_mailbox(
            trim(#[trigger] m.to@[j]@),
        ) by {
            assert(all[j] == m.to@[j]);
        }
        assert forall|j: int| 0 <= j < m.cc@.len() implies lettre_accepts_mailbox(
            trim(#[trigger] m.cc@[j]@),
        ) by {
            assert(all[a + j] == m.cc@[j]);
        }
        assert forall|j: int| 0 <= j < m.bcc@.len() implies lettre_accepts_mailbox(
            trim(#[trigger] m.bcc@[j]@),
        ) by {
            assert(all[a + b + j] == m.bcc@[j]);
        }
    }
}

/// Checks an outgoing mail before it is built and sent.
pub fn check_outgoing(sender_email: &str, outgoing: &OutgoingMail) -> (r: Result<(), String>)
    ensures
        match outgoing_check(sender_email@, *outgoing) {
            Ok(()) => r is Ok,
            Err(e) => r matches Err(m) && m@ == e,
        },
{
    if outgoing.to.len() == 0 {
        return Err(String::from_str("请至少填写一位收件人"));
    }
    if trimmed(outgoing.subject.as_str()).len() == 0 {
        return Err(String::from_str("请填写邮件主题"));
    }
    if trimmed(outgoing.text_body.as_str()).len() == 0 && trimmed(outgoing.html_body.as_str()).len()
        == 0 {
        return Err(String::from_str("请填写邮件正文"));
    }
    if !address_parses(sender_email) {
        return Err(String::from_str("发件邮箱格式无效"));
    }
    let ghost all = all_recipients(*outgoing);
    proof {
        lemma_first_bad_mailbox(all);
    }
    let mut group: usize = 0;
    while group < 3
        invariant
            outgoing.to@.len() > 0,
            !is_blank(outgoing.subject@),
            !(is_blank(outgoing.text_body@) && is_blank(outgoing.html_body@)),
            lettre_accepts_address(sender_email@),
            group <= 3,
            all == all_recipients(*outgoing),
            forall|j: int|
                0 <= j < (if group == 0 {
                    0
                } else if group == 1 {
                    outgoing.to@.len() as int
                } else if group == 2 {
                    (outgoing.to@.len() + outgoing.cc@.len()) as int
                } else {
                    all.len() as int
                }) ==> lettre_accepts_mailbox(trim(#[trigger] all[j]@)),
            match first_bad_mailbox(all) {
                Some(i) => 0 <= i < all.len() && !lettre_accepts_mailbox(trim(all[i]@)) && forall|j: int|
                    0 <= j < i ==> lettre_accepts_mailbox(trim(#[trigger] all[j]@)),
                None => forall|j: int|
                    0 <= j < all.len() ==> lettre_accepts_mailbox(trim(#[trigger] all[j]@)),
            },
        decreases 3 - group,
    {
        let list = if group == 0 {
            &outgoing.to
        } else if group == 1 {
            &outgoing.cc
        } else {
            &outgoing.bcc
        };
        let ghost offset: int = if group == 0 {
            0
        } else if group == 1 {
            outgoing.to@.len() as int
        } else {
            (outgoing.to@.len() + outgoing.cc@.len()) as int
        };
        proof {
            assert forall|k: int| 0 <= k < list@.len() implies all[offset + k] == list@[k] by {}
        }
        let mut i: usize = 0;
        while i < list.len()
            invariant
                outgoing.to@.len() > 0,
                !is_blank(outgoing.subject@),
                !(is_blank(outgoing.text_body@) && is_blank(outgoing.html_body@)),
                lettre_accepts_address(sender_email@),
                i <= list@.len(),
                all == all_recipients(*outgoing),
                forall|k: int| 0 <= k < list@.len() ==> all[offset + k] == #[trigger] list@[k],
                0 <= offset,
                offset + list@.len() <= all.len(),
                forall|j: int| 0 <= j < offset + i ==> lettre_accepts_mailbox(trim(#[trigger] all[j]@)),
                match first_bad_mailbox(all) {
                    Some(b) => 0 <= b < all.len() && !lettre_accepts_mailbox(trim(all[b]@))
                        && forall|j: int| 0 <= j < b ==> lettre_accepts_mailbox(trim(#[trigger] all[j]@)),
                    None => forall|j: int|
                        0 <= j < all.len() ==> lettre_accepts_mailbox(trim(#[trigger] all[j]@)),
                },
            decreases list@.len() - i,
        {
            let text = string_of(&trimmed(list[i].as_str()));
            if !mailbox_parses(text.as_str()) {
                proof {
                    assert(all[offset + i] == list@[i as int]);
                    match first_bad_mailbox(all) {
                        Some(b) => {
                            if b < offset + i {
                                assert(lettre_accepts_mailbox(trim(all[b]@)));
                            }
                            if b > offset + i {
                                assert(lettre_accepts_mailbox(trim(all[offset + i]@)));
                            }
                        },
                        None => {
                            assert(lettre_accepts_mailbox(trim(all[offset + i]@)));
                        },
                    }
                }
                let mut msg: Vec<char> = chars_of("邮箱地址格式无效：");
                push_str(&mut msg, list[i].as_str());
                return Err(string_of(&msg));
            }
            proof {
                assert(all[offset + i] == list@[i as int]);
            }
            i = i + 1;
        }
        group = group + 1;
    }
    proof {
        match first_bad_mailbox(all) {
            Some(b) => {
                assert(lettre_accepts_mailbox(trim(all[b]@)));
            },
            None => {},
        }
    }
    let items = &outgoing.attachments;
    let mut total: usize = 0;
    let mut k: usize = 0;
    while k < items.len()
        invariant
            outgoing.to@.len() > 0,
            !is_blank(outgoing.subject@),
            !(is_blank(outgoing.text_body@) && is_blank(outgoing.html_body@)),
            lettre_accepts_address(sender_email@),
            first_bad_mailbox(all_recipients(*outgoing)) is None,
            items == &outgoing.attachments,
            k <= items@.len(),
            attachment_total(items@, k as nat) == Ok::<int, Seq<char>>(total as int),
        decreases items@.len() - k,
    {
        let item = &items[k];
        if trimmed(item.name.as_str()).len() == 0 {
            proof {
                lemma_attachment_error_persists(items@, (k + 1) as nat, items@.len());
            }
            return Err(String::from_str("附件名称不能为空"));
        }
        let bytes = match decode_base64(item.data_base64.as_str()) {
            Some(b) => b,
            None => {
                proof {
                    lemma_attachment_error_persists(items@, (k + 1) as nat, items@.len());
                }
                let mut msg: Vec<char> = chars_of("附件 ");
                push_str(&mut msg, item.name.as_str());
                push_str(&mut msg, " 数据无效");
                return Err(string_of(&msg));
            },
        };
        match total.checked_add(bytes.len()) {
            Some(t) => {
                total = t;
            },
            None => {
                proof {
                    lemma_attachment_error_persists(items@, (k + 1) as nat, items@.len());
                }
                return Err(String::from_str("附件总大小无效"));
            },
        }
        k = k + 1;
    }
    if total > 20971520 {
        return Err(String::from_str("附件总大小不能超过 20 MB"));
    }
    Ok(())
}

// ---------------------------------------------------------------------------
// Composing the bodies of an outgoing mail (regex, html2text)
// ---------------------------------------------------------------------------
/// What `regex::Regex::new(pattern)` followed by `replace_all(text,
/// replacement)` gives, `None` when the pattern does not compile.
pub uninterp spec fn regex_replaced(pattern: Seq<char>, text: Seq<char>, replacement: Seq<char>) -> Option<
    Seq<char>,
>;

/// Compiles `pattern` with `regex::Regex::new` and replaces every match in
/// `text` by `replacement` (`Regex::replace_all`); the outcome is named
/// `regex_replaced` of the three texts.
#[verifier::external_body]
fn regex_replace_all(pattern: &str, text: &str, replacement: &str) -> (r: Option<String>)
    ensures
        r matches Some(t) ==> regex_replaced(pattern@, text@, replacement@) == Some(t@),
        r is None ==> regex_replaced(pattern@, text@, replacement@) is None,
{
    match regex::Regex::new(pattern) {
        Ok(re) => Some(re.replace_all(text, replacement).into_owned()),
        Err(_) => None,
    }
}

/// Script, frame, object, embed and style elements with their content.
pub open spec fn blocked_markup_pattern() -> Seq<char> {
    "(?is)<\\s*(?:script|iframe|object|embed|style)[^>]*>.*?<\\s*/\\s*(?:script|iframe|object|embed|style)\\s*>"@
}

/// Inline event handler attributes such as `onclick="..."`.
pub open spec fn event_attribute_pattern() -> Seq<char> {
    "(?i)\\s+on[a-z]+\\s*=\\s*(?:\"[^\"]*\"|'[^']*'|[^\\s>]+)"@
}

/// The editor's HTML with blocked elements removed and then event handler
/// attributes removed, `None` when a pattern does not compile.
pub open spec fn sanitized_html(html: Seq<char>) -> Option<Seq<char>> {
    match regex_replaced(blocked_markup_pattern(), html, ""@) {
        None => None,
        Some(a) => regex_replaced(event_attribute_pattern(), a, ""@),
    }
}

/// The plain-text and HTML bodies sent for an outgoing mail: the sanitised
/// HTML, the plain text as written or, when it is blank, the HTML rendered at
/// 100 columns, both with the sender's signature. `None` where a regex or the
/// HTML rendering fails.
pub open spec fn composed_bodies(m: OutgoingMail, sender_name: Seq<char>) -> Option<(Seq<char>, Seq<char>)> {
    match sanitized_html(m.html_body@) {
        None => None,
        Some(html) => {
            let text = if is_blank(m.text_body@) {
                html_rendering(html, 100)
            } else {
                Some(m.text_body@)
            };
            match text {
                None => None,
                Some(t) => Some(signed_bodies(t, html, sender_name)),
            }
        },
    }
}

/// The editor's HTML without scripts, frames, objects, embeds, styles and
/// event handler attributes.
fn safe_editor_html(value: &str) -> (r: Option<String>)
    ensures
        r matches Some(t) ==> sanitized_html(value@) == Some(t@),
        r is None ==> sanitized_html(value@) is None,
{
    let blocked = "(?is)<\\s*(?:script|iframe|object|embed|style)[^>]*>.*?<\\s*/\\s*(?:script|iframe|object|embed|style)\\s*>";
    let events = "(?i)\\s+on[a-z]+\\s*=\\s*(?:\"[^\"]*\"|'[^']*'|[^\\s>]+)";
    let empty = "";
    let first = regex_replace_all(blocked, value, empty);
    match first {
        None => None,
        Some(a) => regex_replace_all(events, a.as_str(), empty),
    }
}

/// The plain-text and HTML bodies of an outgoing mail, signed by the sender.
pub fn compose_bodies(outgoing: &OutgoingMail, sender_name: &str) -> (r: Option<(String, String)>)
    ensures
        r matches Some(b) ==> composed_bodies(*outgoing, sender_name@) == Some((b.0@, b.1@)),
        r is None ==> composed_bodies(*outgoing, sender_name@) is None,
{
    let html = match safe_editor_html(outgoing.html_body.as_str()) {
        Some(h) => h,
        None => return None,
    };
    let text = if trimmed(outgoing.text_body.as_str()).len() == 0 {
        match html_to_text(html.as_str(), 100) {
            Some(t) => t,
            None => return None,
        }
    } else {
        outgoing.text_body.clone()
    };
    Some(append_signature(text, html, sender_name))
}

/// The composed bodies are the sanitised HTML and the plain text (as typed,
/// or the HTML rendered at 100 columns when none was typed), and for a sender
/// whose name is not blank both end with the university signature: the text
/// with `\n\n北师港浸大 BNBU\n` and the trimmed name, the HTML with the
/// signature block holding the escaped name, each after the body's trailing
/// whitespace is removed. A blank name leaves both bodies as they are.
pub proof fn lemma_composed_bodies_are_signed(m: OutgoingMail, sender_name: Seq<char>)
    ensures
        composed_bodies(m, sender_name) matches Some((t, h)) ==> {
            let html = sanitized_html(m.html_body@)->Some_0;
            let plain = if is_blank(m.text_body@) {
                html_rendering(html, 100)->Some_0
            } else {
                m.text_body@
            };
            &&& sanitized_html(m.html_body@) is Some
            &&& !is_blank(sender_name) ==> t == trim_end(plain) + "\n\n北师港浸大 BNBU\n"@ + trim(
                sender_name,
            )
            &&& !is_blank(sender_name) ==> h == trim_end(html)
                + "<div style=\"margin-top:32px;border-top:1px solid #e5e7eb;padding-top:14px;color:#4b5563\"><div>北师港浸大 BNBU</div><strong>"@
                + html_escaped(trim(sender_name)) + "</strong></div>"@
            &&& is_blank(sender_name) ==> t == plain && h == html
        },
        composed_bodies(m, sender_name) is None <==> (sanitized_html(m.html_body@) is None || (
        is_blank(m.text_body@) && html_rendering(sanitized_html(m.html_body@)->Some_0, 100) is None)),
{
}

} // verus!
