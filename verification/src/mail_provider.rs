//! Reading mail: the text of a MIME message, addresses, and the plan of an
//! incremental synchronisation by UID.
use vstd::prelude::*;

use crate::html::{html_rendering, html_to_text};
use crate::mime::{
    mime_structure, parse_mail_date, parse_mime, rfc2822_timestamp, MimeMessage, MimePart,
};
use crate::models::ParsedMail;
use crate::text::{
    chars_eq_ignore_ascii_case, chars_of, contains, decimal, eq_ignore_ascii_case, find_char,
    first_index_of, is_blank, last_index_of, lemma_first_index_of, lemma_last_index_of,
    push_all, push_decimal, push_str, replace_all, replace_chars, replace_str, rfind_char,
    occurs_at, slice_chars, starts_with, starts_with_str, string_of, trim, trim_chars,
};
use crate::times::{rfc3339_of_timestamp, utc_rfc3339};

verus! {

/// The mails fetched by one synchronisation and the highest UID seen.
#[derive(Debug, Clone)]
pub struct SyncBatch {
    pub mails: Vec<ParsedMail>,
    pub last_uid: u32,
}

// ---------------------------------------------------------------------------
// Body text
// ---------------------------------------------------------------------------
/// A body text with the non-breaking-space entities and characters that mail
/// clients leave behind turned into plain spaces.
pub open spec fn normalized_body(text: Seq<char>) -> Seq<char> {
    let a = replace_all(text, "&amp;nbsp;"@, " "@);
    let b = replace_all(a, "&nbsp;"@, " "@);
    let c = replace_all(b, "&#160;"@, " "@);
    let d = replace_all(c, "&#xA0;"@, " "@);
    let e = replace_all(d, "&#xa0;"@, " "@);
    replace_all(e, seq!['\u{a0}'], " "@)
}

proof fn lemma_replace_char_removes(s: Seq<char>, c: char, rep: Seq<char>)
    requires
        !rep.contains(c),
    ensures
        !replace_all(s, seq![c], rep).contains(c),
    decreases s.len(),
{
    if s.len() > 0 {
        let r = replace_all(s, seq![c], rep);
        if s.subrange(0, 1) == seq![c] {
            let t = s.subrange(1, s.len() as int);
            lemma_replace_char_removes(t, c, rep);
            assert(r == rep + replace_all(t, seq![c], rep));
            if r.contains(c) {
                let k = choose|k: int| 0 <= k < r.len() && r[k] == c;
                if k >= rep.len() {
                    assert(replace_all(t, seq![c], rep)[k - rep.len()] == c);
                } else {
                    assert(rep[k] == c);
                }
            }
        } else {
            assert(s[0] != c) by {
                if s[0] == c {
                    assert(s.subrange(0, 1) =~= seq![c]);
                }
            }
            let t = s.drop_first();
            lemma_replace_char_removes(t, c, rep);
            assert(r == seq![s[0]] + replace_all(t, seq![c], rep));
            if r.contains(c) {
                let k = choose|k: int| 0 <= k < r.len() && r[k] == c;
                if k >= 1 {
                    assert(replace_all(t, seq![c], rep)[k - 1] == c);
                }
            }
        }
    }
}

proof fn lemma_replace_keeps_spaceless_prefix(t: Seq<char>, q: Seq<char>, m: int)
    requires
        q.len() > 0,
        0 <= m <= replace_all(t, q, seq![' ']).len(),
        forall|k: int| 0 <= k < m ==> replace_all(t, q, seq![' '])[k] != ' ',
    ensures
        m <= t.len(),
        forall|k: int| 0 <= k < m ==> replace_all(t, q, seq![' '])[k] == t[k],
    decreases t.len(),
{
    let r = replace_all(t, q, seq![' ']);
    if t.len() > 0 && m > 0 {
        if t.len() >= q.len() && t.subrange(0, q.len() as int) == q {
            assert(r[0] == ' ');
        } else {
            let u = t.drop_first();
            let ru = replace_all(u, q, seq![' ']);
            assert(r == seq![t[0]] + ru);
            assert forall|k: int| 0 <= k < m - 1 implies ru[k] != ' ' by {
                assert(r[k + 1] == ru[k]);
            }
            lemma_replace_keeps_spaceless_prefix(u, q, m - 1);
            assert forall|k: int| 0 <= k < m implies r[k] == t[k] by {
                if k > 0 {
                    assert(r[k] == ru[k - 1]);
                    assert(t[k] == u[k - 1]);
                }
            }
        }
    }
}

proof fn lemma_replace_leaves_no_pattern(s: Seq<char>, q: Seq<char>, p: Seq<char>)
    requires
        q.len() > 0,
        p.len() > 0,
        forall|k: int| 0 <= k < p.len() ==> p[k] != ' ',
        !contains(s, p) || p == q,
    ensures
        !contains(replace_all(s, q, seq![' ']), p),
    decreases s.len(),
{
    let r = replace_all(s, q, seq![' ']);
    if s.len() > 0 {
        if s.len() >= q.len() && s.subrange(0, q.len() as int) == q {
            let u = s.subrange(q.len() as int, s.len() as int);
            let ru = replace_all(u, q, seq![' ']);
            assert(r == seq![' '] + ru);
            if contains(u, p) && p != q {
                let i = choose|i: int| occurs_at(u, p, i);
                assert(s.subrange(i + q.len(), i + q.len() + p.len()) =~= u.subrange(i, i + p.len()));
                assert(occurs_at(s, p, i + q.len()));
            }
            lemma_replace_leaves_no_pattern(u, q, p);
            if contains(r, p) {
                let i = choose|i: int| occurs_at(r, p, i);
                if i == 0 {
                    assert(r.subrange(0, p.len() as int)[0] == p[0]);
                } else {
                    assert(ru.subrange(i - 1, i - 1 + p.len()) =~= r.subrange(i, i + p.len()));
                    assert(occurs_at(ru, p, i - 1));
                }
            }
        } else {
            let u = s.drop_first();
            let ru = replace_all(u, q, seq![' ']);
            assert(r == seq![s[0]] + ru);
            if contains(u, p) && p != q {
                let i = choose|i: int| occurs_at(u, p, i);
                assert(s.subrange(i + 1, i + 1 + p.len()) =~= u.subrange(i, i + p.len()));
                assert(occurs_at(s, p, i + 1));
            }
            lemma_replace_leaves_no_pattern(u, q, p);
            if contains(r, p) {
                let i = choose|i: int| occurs_at(r, p, i);
                if i == 0 {
                    let w = r.subrange(0, p.len() as int);
                    assert forall|k: int| 0 <= k < p.len() - 1 implies ru[k] != ' ' by {
                        assert(ru[k] == r[k + 1]);
                        assert(w[k + 1] == p[k + 1]);
                    }
                    lemma_replace_keeps_spaceless_prefix(u, q, p.len() - 1);
                    assert(s.subrange(0, p.len() as int) =~= p) by {
                        assert forall|k: int| 0 <= k < p.len() implies s[k] == p[k] by {
                            assert(w[k] == p[k]);
                            if k > 0 {
                                assert(r[k] == ru[k - 1]);
                                assert(s[k] == u[k - 1]);
                            }
                        }
                    }
                    assert(occurs_at(s, p, 0));
                } else {
                    assert(ru.subrange(i - 1, i - 1 + p.len()) =~= r.subrange(i, i + p.len()));
                    assert(occurs_at(ru, p, i - 1));
                }
            }
        }
    }
}

/// A normalised body holds none of the entities it replaces.
pub proof fn lemma_normalized_body_has_no_entities(text: Seq<char>)
    ensures
        !contains(normalized_body(text), "&amp;nbsp;"@),
        !contains(normalized_body(text), "&nbsp;"@),
        !contains(normalized_body(text), "&#160;"@),
        !contains(normalized_body(text), "&#xA0;"@),
        !contains(normalized_body(text), "&#xa0;"@),
{
    reveal_strlit(" ");
    reveal_strlit("&amp;nbsp;");
    reveal_strlit("&nbsp;");
    reveal_strlit("&#160;");
    reveal_strlit("&#xA0;");
    reveal_strlit("&#xa0;");
    assert(" "@ =~= seq![' ']);
    let p1 = "&amp;nbsp;"@;
    let p2 = "&nbsp;"@;
    let p3 = "&#160;"@;
    let p4 = "&#xA0;"@;
    let p5 = "&#xa0;"@;
    let p6 = seq!['\u{a0}'];
    let a = replace_all(text, p1, seq![' ']);
    let b = replace_all(a, p2, seq![' ']);
    let c = replace_all(b, p3, seq![' ']);
    let d = replace_all(c, p4, seq![' ']);
    let e = replace_all(d, p5, seq![' ']);
    let f = replace_all(e, p6, seq![' ']);
    assert(f == normalized_body(text));
    lemma_replace_leaves_no_pattern(text, p1, p1);
    lemma_replace_leaves_no_pattern(a, p2, p1);
    lemma_replace_leaves_no_pattern(a, p2, p2);
    lemma_replace_leaves_no_pattern(b, p3, p1);
    lemma_replace_leaves_no_pattern(b, p3, p2);
    lemma_replace_leaves_no_pattern(b, p3, p3);
    lemma_replace_leaves_no_pattern(c, p4, p1);
    lemma_replace_leaves_no_pattern(c, p4, p2);
    lemma_replace_leaves_no_pattern(c, p4, p3);
    lemma_replace_leaves_no_pattern(c, p4, p4);
    lemma_replace_leaves_no_pattern(d, p5, p1);
    lemma_replace_leaves_no_pattern(d, p5, p2);
    lemma_replace_leaves_no_pattern(d, p5, p3);
    lemma_replace_leaves_no_pattern(d, p5, p4);
    lemma_replace_leaves_no_pattern(d, p5, p5);
    lemma_replace_leaves_no_pattern(e, p6, p1);
    lemma_replace_leaves_no_pattern(e, p6, p2);
    lemma_replace_leaves_no_pattern(e, p6, p3);
    lemma_replace_leaves_no_pattern(e, p6, p4);
    lemma_replace_leaves_no_pattern(e, p6, p5);
}

/// A normalised body holds no non-breaking space character.
pub proof fn lemma_normalized_body_has_no_nbsp(text: Seq<char>)
    ensures
        !normalized_body(text).contains('\u{a0}'),
{
    reveal_strlit(" ");
    let a = replace_all(text, "&amp;nbsp;"@, " "@);
    let b = replace_all(a, "&nbsp;"@, " "@);
    let c = replace_all(b, "&#160;"@, " "@);
    let d = replace_all(c, "&#xA0;"@, " "@);
    let e = replace_all(d, "&#xa0;"@, " "@);
    assert(" "@[0] == ' ');
    assert(!" "@.contains('\u{a0}'));
    lemma_replace_char_removes(e, '\u{a0}', " "@);
}

proof fn lemma_replace_absent(s: Seq<char>, pat: Seq<char>, rep: Seq<char>)
    requires
        pat.len() > 0,
        !contains(s, pat),
    ensures
        replace_all(s, pat, rep) == s,
    decreases s.len(),
{
    if s.len() > 0 {
        if s.len() >= pat.len() && s.subrange(0, pat.len() as int) == pat {
            assert(occurs_at(s, pat, 0));
        } else {
            let u = s.drop_first();
            if contains(u, pat) {
                let i = choose|i: int| occurs_at(u, pat, i);
                assert(s.subrange(i + 1, i + 1 + pat.len()) =~= u.subrange(i, i + pat.len()));
                assert(occurs_at(s, pat, i + 1));
            }
            lemma_replace_absent(u, pat, rep);
            assert(seq![s[0]] + u =~= s);
        }
    }
}

proof fn lemma_no_first_char_no_pattern(s: Seq<char>, pat: Seq<char>)
    requires
        pat.len() > 0,
        !s.contains(pat[0]),
    ensures
        !contains(s, pat),
{
    if contains(s, pat) {
        let i = choose|i: int| occurs_at(s, pat, i);
        assert(s.subrange(i, i + pat.len())[0] == s[i]);
    }
}

/// Normalising is idempotent: a second pass changes nothing. And a text that
/// holds neither `&` nor a non-breaking space comes back unchanged.
pub proof fn lemma_normalized_body_stable(text: Seq<char>)
    ensures
        normalized_body(normalized_body(text)) == normalized_body(text),
        !text.contains('&') && !text.contains('\u{a0}') ==> normalized_body(text) == text,
{
    reveal_strlit(" ");
    reveal_strlit("&amp;nbsp;");
    reveal_strlit("&nbsp;");
    reveal_strlit("&#160;");
    reveal_strlit("&#xA0;");
    reveal_strlit("&#xa0;");
    let p1 = "&amp;nbsp;"@;
    let p2 = "&nbsp;"@;
    let p3 = "&#160;"@;
    let p4 = "&#xA0;"@;
    let p5 = "&#xa0;"@;
    let p6 = seq!['\u{a0}'];
    let sp = " "@;
    let r = normalized_body(text);
    lemma_normalized_body_has_no_entities(text);
    lemma_normalized_body_has_no_nbsp(text);
    lemma_no_first_char_no_pattern(r, p6);
    lemma_replace_absent(r, p1, sp);
    lemma_replace_absent(r, p2, sp);
    lemma_replace_absent(r, p3, sp);
    lemma_replace_absent(r, p4, sp);
    lemma_replace_absent(r, p5, sp);
    lemma_replace_absent(r, p6, sp);
    if !text.contains('&') && !text.contains('\u{a0}') {
        lemma_no_first_char_no_pattern(text, p1);
        lemma_no_first_char_no_pattern(text, p2);
        lemma_no_first_char_no_pattern(text, p3);
        lemma_no_first_char_no_pattern(text, p4);
        lemma_no_first_char_no_pattern(text, p5);
        lemma_no_first_char_no_pattern(text, p6);
        lemma_replace_absent(text, p1, sp);
        lemma_replace_absent(text, p2, sp);
        lemma_replace_absent(text, p3, sp);
        lemma_replace_absent(text, p4, sp);
        lemma_replace_absent(text, p5, sp);
        lemma_replace_absent(text, p6, sp);
    }
}

/// Replaces `&amp;nbsp;`, `&nbsp;`, `&#160;`, `&#xA0;`, `&#xa0;` and U+00A0,
/// in that order, by a space.
pub fn normalize_body_text(text: String) -> (r: String)
    ensures
        r@ == normalized_body(text@),
{
    let c = chars_of(text.as_str());
    proof {
        reveal_strlit("&amp;nbsp;");
        reveal_strlit("&nbsp;");
        reveal_strlit("&#160;");
        reveal_strlit("&#xA0;");
        reveal_strlit("&#xa0;");
    }
    let c = replace_str(&c, "&amp;nbsp;", " ");
    let c = replace_str(&c, "&nbsp;", " ");
    let c = replace_str(&c, "&#160;", " ");
    let c = replace_str(&c, "&#xA0;", " ");
    let c = replace_str(&c, "&#xa0;", " ");
    let nbsp = vec!['\u{a0}'];
    assert(nbsp@ =~= seq!['\u{a0}']);
    let space = chars_of(" ");
    let c = replace_chars(&c, &nbsp, &space);
    string_of(&c)
}

// ---------------------------------------------------------------------------
// Addresses
// ---------------------------------------------------------------------------
/// `s` without leading `c` characters.
pub open spec fn strip_start(s: Seq<char>, c: char) -> Seq<char>
    decreases s.len(),
{
    if s.len() > 0 && s[0] == c {
        strip_start(s.drop_first(), c)
    } else {
        s
    }
}

/// `s` without trailing `c` characters.
pub open spec fn strip_end(s: Seq<char>, c: char) -> Seq<char>
    decreases s.len(),
{
    if s.len() > 0 && s.last() == c {
        strip_end(s.drop_last(), c)
    } else {
        s
    }
}

/// `s` without the double quotes around it (`str::trim_matches('"')`).
pub open spec fn trim_quotes(s: Seq<char>) -> Seq<char> {
    strip_end(strip_start(s, '"'), '"')
}

/// The name and the address of a `Name <address>` text: the text before the
/// last `<`, trimmed and unquoted, and the text between it and the last `>`,
/// trimmed; a text without both brackets is its own name and address.
pub open spec fn address_parts(value: Seq<char>) -> (Seq<char>, Seq<char>) {
    match (last_index_of(value, '<'), last_index_of(value, '>')) {
        (Some(start), Some(end)) => (
            trim_quotes(trim(value.subrange(0, start))),
            trim(value.subrange(start + 1, end)),
        ),
        _ => (trim(value), trim(value)),
    }
}

/// The last `>` does not come before the last `<` (else the slicing between
/// them panics).
pub open spec fn address_splittable(value: Seq<char>) -> bool {
    match (last_index_of(value, '<'), last_index_of(value, '>')) {
        (Some(start), Some(end)) => start < end,
        _ => true,
    }
}

proof fn lemma_strip_start_skip(s: Seq<char>, c: char, k: int)
    requires
        0 <= k <= s.len(),
        forall|i: int| 0 <= i < k ==> #[trigger] s[i] == c,
    ensures
        strip_start(s, c) == strip_start(s.subrange(k, s.len() as int), c),
    decreases k,
{
    if k == 0 {
        assert(s.subrange(0, s.len() as int) =~= s);
    } else {
        let t = s.drop_first();
        assert forall|i: int| 0 <= i < k - 1 implies #[trigger] t[i] == c by {
            assert(t[i] == s[i + 1]);
        }
        lemma_strip_start_skip(t, c, k - 1);
        assert(t.subrange(k - 1, t.len() as int) =~= s.subrange(k, s.len() as int));
    }
}

proof fn lemma_strip_end_skip(s: Seq<char>, c: char, k: int)
    requires
        0 <= k <= s.len(),
        forall|i: int| k <= i < s.len() ==> #[trigger] s[i] == c,
    ensures
        strip_end(s, c) == strip_end(s.subrange(0, k), c),
    decreases s.len() - k,
{
    if k == s.len() {
        assert(s.subrange(0, k) =~= s);
    } else {
        let t = s.drop_last();
        assert forall|i: int| k <= i < t.len() implies #[trigger] t[i] == c by {
            assert(t[i] == s[i]);
        }
        lemma_strip_end_skip(t, c, k);
        assert(t.subrange(0, k) =~= s.subrange(0, k));
    }
}

/// `s` without the `c` characters at both ends.
pub fn strip_char(s: &[char], c: char) -> (r: Vec<char>)
    ensures
        r@ == strip_end(strip_start(s@, c), c),
{
    let mut k: usize = 0;
    while k < s.len() && s[k] == c
        invariant
            k <= s@.len(),
            forall|i: int| 0 <= i < k ==> #[trigger] s@[i] == c,
        decreases s@.len() - k,
    {
        k = k + 1;
    }
    proof {
        lemma_strip_start_skip(s@, c, k as int);
        let rest = s@.subrange(k as int, s@.len() as int);
        if rest.len() > 0 {
            assert(rest[0] == s@[k as int]);
        }
    }
    let mut e: usize = s.len();
    while e > k && s[e - 1] == c
        invariant
            k <= e <= s@.len(),
            forall|i: int| e <= i < s@.len() ==> #[trigger] s@[i] == c,
        decreases e,
    {
        e = e - 1;
    }
    proof {
        let t = s@.subrange(k as int, s@.len() as int);
        assert forall|i: int| e - k <= i < t.len() implies #[trigger] t[i] == c by {
            assert(t[i] == s@[i + k]);
        }
        lemma_strip_end_skip(t, c, e - k);
        assert(t.subrange(0, e - k) =~= s@.subrange(k as int, e as int));
        let u = s@.subrange(k as int, e as int);
        if u.len() > 0 {
            assert(u.last() == s@[e - 1]);
        }
    }
    slice_chars(s, k, e)
}

/// The name and address of a header value, as characters.
fn address_chars(v: &[char]) -> (r: (Vec<char>, Vec<char>))
    requires
        address_splittable(v@),
    ensures
        (r.0@, r.1@) == address_parts(v@),
{
    proof {
        lemma_last_index_of(v@, '<');
        lemma_last_index_of(v@, '>');
    }
    match (rfind_char(v, '<'), rfind_char(v, '>')) {
        (Some(start), Some(end)) => {
            let before = slice_chars(v, 0, start);
            let name = strip_char(&trim_chars(&before), '"');
            let inner = slice_chars(v, start + 1, end);
            let email = trim_chars(&inner);
            (name, email)
        },
        _ => {
            let t = trim_chars(v);
            (slice_chars(&t, 0, t.len()), t)
        },
    }
}

/// Splits a `Name <address>` header value into the name and the address.
pub fn split_address(value: &str) -> (r: (String, String))
    requires
        address_splittable(value@),
    ensures
        (r.0@, r.1@) == address_parts(value@),
{
    let v = chars_of(value);
    let (name, email) = address_chars(&v);
    (string_of(&name), string_of(&email))
}

/// Whether a header value can be split into name and address.
pub fn can_split_address(value: &str) -> (r: bool)
    ensures
        r == address_splittable(value@),
{
    let v = chars_of(value);
    match (rfind_char(&v, '<'), rfind_char(&v, '>')) {
        (Some(start), Some(end)) => start < end,
        _ => true,
    }
}

/// The pieces of `s` between the occurrences of `c` (`str::split` with a `char`).
pub open spec fn split_on(s: Seq<char>, c: char) -> Seq<Seq<char>>
    decreases s.len(),
{
    match first_index_of(s, c) {
        None => seq![s],
        Some(i) => if 0 <= i < s.len() {
            seq![s.subrange(0, i)] + split_on(s.subrange(i + 1, s.len() as int), c)
        } else {
            seq![s]
        },
    }
}

/// The pieces of `s` between the occurrences of `c`.
pub fn split_chars(s: &[char], c: char) -> (r: Vec<Vec<char>>)
    ensures
        r@.len() == split_on(s@, c).len(),
        forall|k: int| 0 <= k < r@.len() ==> #[trigger] r@[k]@ == split_on(s@, c)[k],
{
    let mut out: Vec<Vec<char>> = Vec::new();
    let mut rest = slice_chars(s, 0, s.len());
    let ghost done: Seq<Seq<char>> = Seq::empty();
    proof {
        assert(rest@ =~= s@);
        assert(done + split_on(rest@, c) =~= split_on(s@, c));
    }
    loop
        invariant
            out@.len() == done.len(),
            forall|k: int| 0 <= k < out@.len() ==> #[trigger] out@[k]@ == done[k],
            done + split_on(rest@, c) == split_on(s@, c),
        decreases rest@.len(),
    {
        proof {
            lemma_first_index_of(rest@, c);
        }
        match find_char(&rest, c) {
            None => {
                proof {
                    assert(done.push(rest@) =~= done + split_on(rest@, c));
                    done = done.push(rest@);
                }
                out.push(rest);
                proof {
                    assert(done =~= split_on(s@, c));
                }
                return out;
            },
            Some(i) => {
                assert(i < rest@.len());
                assert(i + 1 <= rest.len());
                let piece = slice_chars(&rest, 0, i);
                let next = slice_chars(&rest, i + 1, rest.len());
                proof {
                    assert(split_on(rest@, c) == seq![piece@] + split_on(next@, c));
                    assert(done.push(piece@) + split_on(next@, c) =~= done + split_on(rest@, c));
                    done = done.push(piece@);
                }
                out.push(piece);
                rest = next;
            },
        }
    }
}

/// The non-empty texts of `s`, in order.
pub open spec fn non_empty_only(s: Seq<Seq<char>>) -> Seq<Seq<char>>
    decreases s.len(),
{
    if s.len() == 0 {
        Seq::empty()
    } else if s.last().len() > 0 {
        non_empty_only(s.drop_last()).push(s.last())
    } else {
        non_empty_only(s.drop_last())
    }
}

/// The addresses of a `To` header: the address part of each comma-separated
/// piece, empty ones left out.
pub open spec fn recipient_addresses(to: Seq<char>) -> Seq<Seq<char>> {
    non_empty_only(split_on(to, ',').map_values(|v: Seq<char>| address_parts(v).1))
}

/// Every comma-separated piece of a `To` header can be split.
pub open spec fn recipients_splittable(to: Seq<char>) -> bool {
    forall|k: int| 0 <= k < split_on(to, ',').len() ==> address_splittable(#[trigger] split_on(to, ',')[k])
}

/// The recipient addresses of a `To` header value.
pub fn recipients_of(to: &str) -> (r: Vec<String>)
    requires
        recipients_splittable(to@),
    ensures
        r@.len() == recipient_addresses(to@).len(),
        forall|k: int| 0 <= k < r@.len() ==> #[trigger] r@[k]@ == recipient_addresses(to@)[k],
{
    let t = chars_of(to);
    let pieces = split_chars(&t, ',');
    let ghost all = split_on(to@, ',').map_values(|v: Seq<char>| address_parts(v).1);
    let mut out: Vec<String> = Vec::new();
    let mut i: usize = 0;
    while i < pieces.len()
        invariant
            i <= pieces@.len(),
            pieces@.len() == split_on(to@, ',').len(),
            forall|k: int| 0 <= k < pieces@.len() ==> #[trigger] pieces@[k]@ == split_on(to@, ',')[k],
            recipients_splittable(to@),
            all == split_on(to@, ',').map_values(|v: Seq<char>| address_parts(v).1),
            out@.len() == non_empty_only(all.take(i as int)).len(),
            forall|k: int|
                0 <= k < out@.len() ==> #[trigger] out@[k]@ == non_empty_only(all.take(i as int))[k],
        decreases pieces@.len() - i,
    {
        assert(address_splittable(split_on(to@, ',')[i as int]));
        let (_, address) = address_chars(&pieces[i]);
        proof {
            assert(all.take(i + 1).drop_last() =~= all.take(i as int));
            assert(all.take(i + 1).last() == address@);
        }
        if address.len() > 0 {
            out.push(string_of(&address));
        }
        i = i + 1;
    }
    proof {
        assert(all.take(pieces@.len() as int) =~= all);
    }
    out
}

// ---------------------------------------------------------------------------
// Text of a MIME part
// ---------------------------------------------------------------------------
/// The width at which HTML bodies are rendered.
pub open spec fn render_width() -> nat {
    100
}

/// A part whose body is a message's plain text: of type `text/plain`
/// (ignoring ASCII case) and not an attachment.
pub open spec fn is_plain_body(part: MimePart) -> bool {
    !part.is_attachment && eq_ignore_ascii_case(part.mimetype@, "text/plain"@)
}

/// Index of the first subpart that is a plain body.
pub open spec fn first_plain_part(parts: Seq<MimePart>) -> Option<int>
    decreases parts.len(),
{
    if parts.len() == 0 {
        None
    } else if is_plain_body(parts[0]) {
        Some(0)
    } else {
        match first_plain_part(parts.drop_first()) {
            Some(i) => Some(i + 1),
            None => None,
        }
    }
}

/// Within a multipart, attachments are skipped: the plain part chosen as
/// the text is never an attachment, and each attachment among the parts
/// gives empty text, which the joining of non-blank texts leaves out.
pub proof fn lemma_attachment_parts_are_skipped(parts: Seq<MimePart>)
    ensures
        first_plain_part(parts) matches Some(i) ==> !parts[i].is_attachment,
        subpart_texts(parts) matches Some(texts) ==> texts.len() == parts.len() && forall|i: int|
            0 <= i < parts.len() && (#[trigger] parts[i]).is_attachment ==> texts[i] == Seq::<
                char,
            >::empty() && is_blank(texts[i]),
    decreases parts.len(),
{
    lemma_first_plain_part(parts);
    if parts.len() > 0 {
        lemma_attachment_parts_are_skipped(parts.drop_last());
        match subpart_texts(parts) {
            Some(texts) => {
                let prev = subpart_texts(parts.drop_last())->Some_0;
                assert(texts == prev.push(part_text(parts.last())->Some_0));
                assert forall|i: int|
                    0 <= i < parts.len() && (#[trigger] parts[i]).is_attachment implies texts[i]
                    == Seq::<char>::empty() && is_blank(texts[i]) by {
                    if i < parts.len() - 1 {
                        assert(parts[i] == parts.drop_last()[i]);
                    }
                    assert(trim(Seq::<char>::empty()) =~= Seq::<char>::empty());
                }
            },
            None => {},
        }
    }
}

/// `texts` joined by `\n`.
pub open spec fn join_lines(texts: Seq<Seq<char>>) -> Seq<char>
    decreases texts.len(),
{
    if texts.len() == 0 {
        Seq::empty()
    } else if texts.len() == 1 {
        texts[0]
    } else {
        join_lines(texts.drop_last()) + seq!['\n'] + texts.last()
    }
}

/// The texts of `texts` that are not blank, in order.
pub open spec fn non_blank_only(texts: Seq<Seq<char>>) -> Seq<Seq<char>>
    decreases texts.len(),
{
    if texts.len() == 0 {
        Seq::empty()
    } else if is_blank(texts.last()) {
        non_blank_only(texts.drop_last())
    } else {
        non_blank_only(texts.drop_last()).push(texts.last())
    }
}

/// The readable text of a part: nothing for attachments and for non-text
/// leaves, the rendering of an HTML leaf, the body of another text leaf; for a
/// multipart, the body of its first `text/plain` subpart that is not an
/// attachment, or else the non-blank
/// texts of its subparts joined by newlines. `None` when an HTML body cannot
/// be rendered.
pub open spec fn part_text(p: MimePart) -> Option<Seq<char>>
    decreases p,
{
    if p.is_attachment {
        Some(Seq::empty())
    } else if p.subparts@.len() != 0 && !starts_with(p.mimetype@, "multipart/"@) {
        Some(Seq::empty())
    } else if p.subparts@.len() == 0 {
        if !starts_with(p.mimetype@, "text/"@) {
            Some(Seq::empty())
        } else if eq_ignore_ascii_case(p.mimetype@, "text/html"@) {
            html_rendering(p.body@, render_width())
        } else {
            Some(p.body@)
        }
    } else {
        match first_plain_part(p.subparts@) {
            Some(i) => Some(p.subparts@[i].body@),
            None => match subpart_texts(p.subparts@) {
                Some(texts) => Some(join_lines(non_blank_only(texts))),
                None => None,
            },
        }
    }
}

/// Which text a part reads as: a multipart (not an attachment) reads as the
/// body of its first subpart of type `text/plain` (in any ASCII case) that is
/// not an attachment; an HTML leaf as its rendering at 100 columns; another
/// `text/` leaf as its body.
pub proof fn lemma_part_text_choices(p: MimePart, i: int)
    ensures
        !p.is_attachment && starts_with(p.mimetype@, "multipart/"@) && 0 <= i < p.subparts@.len()
            && !p.subparts@[i].is_attachment && eq_ignore_ascii_case(
            p.subparts@[i].mimetype@,
            "text/plain"@,
        ) && (forall|j: int|
            0 <= j < i ==> (#[trigger] p.subparts@[j]).is_attachment || !eq_ignore_ascii_case(
                p.subparts@[j].mimetype@,
                "text/plain"@,
            )) ==> part_text(p) == Some(p.subparts@[i].body@),
        !p.is_attachment && p.subparts@.len() == 0 && starts_with(p.mimetype@, "text/"@)
            && eq_ignore_ascii_case(p.mimetype@, "text/html"@) ==> part_text(p) == html_rendering(
            p.body@,
            100,
        ),
        !p.is_attachment && p.subparts@.len() == 0 && starts_with(p.mimetype@, "text/"@)
            && !eq_ignore_ascii_case(p.mimetype@, "text/html"@) ==> part_text(p) == Some(p.body@),
{
    lemma_first_plain_part(p.subparts@);
    if !p.is_attachment && starts_with(p.mimetype@, "multipart/"@) && 0 <= i < p.subparts@.len()
        && is_plain_body(p.subparts@[i]) && (forall|j: int|
        0 <= j < i ==> (#[trigger] p.subparts@[j]).is_attachment || !eq_ignore_ascii_case(
            p.subparts@[j].mimetype@,
            "text/plain"@,
        )) {
        match first_plain_part(p.subparts@) {
            Some(k) => {
                if k < i {
                    assert(p.subparts@[k].is_attachment || !eq_ignore_ascii_case(
                        p.subparts@[k].mimetype@,
                        "text/plain"@,
                    ));
                }
                if k > i {
                    assert(!is_plain_body(p.subparts@[i]));
                }
            },
            None => {
                assert(!is_plain_body(p.subparts@[i]));
            },
        }
    }
}

/// A part declared as an attachment gives no text, whatever it holds.
pub proof fn lemma_attachments_give_no_text(p: MimePart)
    requires
        p.is_attachment,
    ensures
        part_text(p) == Some(Seq::<char>::empty()),
{
}

/// The texts of a list of parts, `None` if one of them has none.
pub open spec fn subpart_texts(parts: Seq<MimePart>) -> Option<Seq<Seq<char>>>
    decreases parts,
{
    if parts.len() == 0 {
        Some(Seq::empty())
    } else {
        match (subpart_texts(parts.drop_last()), part_text(parts.last())) {
            (Some(texts), Some(t)) => Some(texts.push(t)),
            _ => None,
        }
    }
}

proof fn lemma_first_plain_part(parts: Seq<MimePart>)
    ensures
        match first_plain_part(parts) {
            Some(i) => 0 <= i < parts.len() && is_plain_body(parts[i]) && forall|j: int|
                0 <= j < i ==> !is_plain_body(#[trigger] parts[j]),
            None => forall|j: int| 0 <= j < parts.len() ==> !is_plain_body(#[trigger] parts[j]),
        },
    decreases parts.len(),
{
    if parts.len() > 0 && !is_plain_body(parts[0]) {
        let t = parts.drop_first();
        lemma_first_plain_part(t);
        assert forall|j: int| 1 <= j < parts.len() implies parts[j] == t[j - 1] by {}
    }
}

proof fn lemma_subpart_texts_none(parts: Seq<MimePart>, n: int)
    requires
        0 <= n <= parts.len(),
        subpart_texts(parts.take(n)) is None,
    ensures
        subpart_texts(parts) is None,
    decreases parts.len() - n,
{
    if n < parts.len() {
        assert(parts.take(n + 1).drop_last() =~= parts.take(n));
        lemma_subpart_texts_none(parts, n + 1);
    } else {
        assert(parts.take(n) =~= parts);
    }
}

/// The views of a list of character vectors.
pub open spec fn views_of(v: Seq<Vec<char>>) -> Seq<Seq<char>> {
    v.map_values(|x: Vec<char>| x@)
}

/// Whether `t` is blank.
pub fn blank(t: &[char]) -> (r: bool)
    ensures
        r == is_blank(t@),
{
    trim_chars(t).len() == 0
}

/// The non-blank texts joined by newlines.
pub fn join_non_blank(texts: &Vec<Vec<char>>) -> (r: Vec<char>)
    ensures
        r@ == join_lines(non_blank_only(views_of(texts@))),
{
    let ghost all = views_of(texts@);
    let mut out: Vec<char> = Vec::new();
    let mut count: usize = 0;
    let mut i: usize = 0;
    proof {
        assert(all.take(0) =~= Seq::<Seq<char>>::empty());
    }
    while i < texts.len()
        invariant
            i <= texts@.len(),
            all == views_of(texts@),
            count == non_blank_only(all.take(i as int)).len(),
            count <= i,
            out@ == join_lines(non_blank_only(all.take(i as int))),
        decreases texts@.len() - i,
    {
        proof {
            assert(all.take(i + 1).drop_last() =~= all.take(i as int));
            assert(all.take(i + 1).last() == texts@[i as int]@);
        }
        if !blank(&texts[i]) {
            if count > 0 {
                out.push('\n');
            }
            push_all(&mut out, &texts[i]);
            proof {
                let prev = non_blank_only(all.take(i as int));
                let next = prev.push(texts@[i as int]@);
                assert(next.drop_last() =~= prev);
                if count == 0 {
                    assert(prev.len() == 0);
                    assert(join_lines(prev) =~= Seq::<char>::empty());
                    assert(out@ =~= join_lines(next));
                } else {
                    assert(out@ =~= join_lines(next));
                }
            }
            count = count + 1;
        }
        i = i + 1;
    }
    proof {
        assert(all.take(texts@.len() as int) =~= all);
    }
    out
}

/// The readable text of a MIME part, `None` when an HTML body in it cannot be
/// rendered.
pub fn part_text_of(p: &MimePart) -> (r: Option<Vec<char>>)
    ensures
        r matches Some(t) ==> part_text(*p) == Some(t@),
        r is None ==> part_text(*p) is None,
    decreases p,
{
    if p.is_attachment {
        return Some(Vec::new());
    }
    let mt = chars_of(p.mimetype.as_str());
    let n = p.subparts.len();
    if n != 0 && !starts_with_str(&mt, "multipart/") {
        return Some(Vec::new());
    }
    if n == 0 {
        if !starts_with_str(&mt, "text/") {
            return Some(Vec::new());
        }
        let html = chars_of("text/html");
        if chars_eq_ignore_ascii_case(&mt, &html) {
            return match html_to_text(p.body.as_str(), 100) {
                Some(t) => Some(chars_of(t.as_str())),
                None => None,
            };
        }
        return Some(chars_of(p.body.as_str()));
    }
    let plain = chars_of("text/plain");
    proof {
        lemma_first_plain_part(p.subparts@);
    }
    let mut i: usize = 0;
    while i < n
        invariant
            n == p.subparts@.len(),
            n > 0,
            !p.is_attachment,
            starts_with(p.mimetype@, "multipart/"@),
            i <= n,
            plain@ == "text/plain"@,
            forall|j: int| 0 <= j < i ==> !is_plain_body(#[trigger] p.subparts@[j]),
        decreases n - i,
    {
        let sub_type = chars_of(p.subparts[i].mimetype.as_str());
        if !p.subparts[i].is_attachment && chars_eq_ignore_ascii_case(&sub_type, &plain) {
            proof {
                lemma_first_plain_part(p.subparts@);
                match first_plain_part(p.subparts@) {
                    Some(f) => {
                        if f < i {
                            assert(!is_plain_body(p.subparts@[f]));
                        }
                        assert(f == i);
                    },
                    None => {
                        assert(!is_plain_body(p.subparts@[i as int]));
                    },
                }
            }
            return Some(chars_of(p.subparts[i].body.as_str()));
        }
        i = i + 1;
    }
    proof {
        lemma_first_plain_part(p.subparts@);
        match first_plain_part(p.subparts@) {
            Some(f) => {
                assert(!is_plain_body(p.subparts@[f]));
            },
            None => {},
        }
    }
    let ghost parts = p.subparts@;
    let mut texts: Vec<Vec<char>> = Vec::new();
    let mut k: usize = 0;
    proof {
        assert(parts.take(0) =~= Seq::<MimePart>::empty());
    }
    while k < n
        invariant
            n == parts.len(),
            n > 0,
            !p.is_attachment,
            starts_with(p.mimetype@, "multipart/"@),
            first_plain_part(p.subparts@) is None,
            parts == p.subparts@,
            k <= n,
            subpart_texts(parts.take(k as int)) == Some(views_of(texts@)),
        decreases n - k,
    {
        proof {
            assert(parts.take(k + 1).drop_last() =~= parts.take(k as int));
            assert(parts.take(k + 1).last() == parts[k as int]);
            assert(decreases_to!(*p => p.subparts));
        }
        match part_text_of(&p.subparts[k]) {
            None => {
                proof {
                    assert(part_text(parts[k as int]) is None);
                    assert(subpart_texts(parts.take(k + 1)) is None);
                    lemma_subpart_texts_none(parts, k + 1);
                }
                return None;
            },
            Some(t) => {
                let ghost before = views_of(texts@);
                texts.push(t);
                proof {
                    assert(views_of(texts@) =~= before.push(texts@.last()@));
                }
            },
        }
        k = k + 1;
    }
    proof {
        assert(parts.take(n as int) =~= parts);
    }
    Some(join_non_blank(&texts))
}

// ---------------------------------------------------------------------------
// A mail from its raw bytes
// ---------------------------------------------------------------------------
/// A header's value, empty when the header is missing.
pub open spec fn header_or_empty(h: Option<String>) -> Seq<char> {
    match h {
        Some(v) => v@,
        None => Seq::empty(),
    }
}

/// When a mail was received: its `Date` header as an RFC 3339 instant, or the
/// fallback (the time of reading) when the header is missing or unreadable.
pub open spec fn received_text(date: Option<String>, fallback: Seq<char>) -> Seq<char> {
    match date {
        Some(d) => match rfc2822_timestamp(d@) {
            Some(seconds) => match utc_rfc3339(seconds) {
                Some(t) => t,
                None => fallback,
            },
            None => fallback,
        },
        None => fallback,
    }
}

/// A parsed message can be turned into a mail without a panic: its sender and
/// recipients can be split and its text rendered.
pub open spec fn mime_mail_ok(m: MimeMessage) -> bool {
    &&& address_splittable(header_or_empty(m.from))
    &&& recipients_splittable(header_or_empty(m.to))
    &&& part_text(m.root) is Some
}

/// The raw bytes of a mail can be read without a panic.
pub open spec fn raw_mail_ok(raw: Seq<u8>) -> bool {
    mime_structure(raw) matches Ok(m) ==> mime_mail_ok(m)
}

/// `mail` is what a parsed message gives for the UID, the read flag and the
/// fallback reception time.
pub open spec fn mail_of_mime(
    mail: ParsedMail,
    uid: u32,
    m: MimeMessage,
    is_read: bool,
    fallback: Seq<char>,
) -> bool {
    let recipients = recipient_addresses(header_or_empty(m.to));
    &&& mail.uid == uid
    &&& (mail.sender_name@, mail.sender_email@) == address_parts(header_or_empty(m.from))
    &&& mail.recipients@.len() == recipients.len()
    &&& forall|k: int| 0 <= k < recipients.len() ==> #[trigger] mail.recipients@[k]@ == recipients[k]
    &&& mail.subject@ == match m.subject {
        Some(s) => s@,
        None => "（无主题）"@,
    }
    &&& mail.received_at@ == received_text(m.date, fallback)
    &&& mail.body_text@ == normalized_body(part_text(m.root)->Some_0)
    &&& mail.is_read == is_read
}

/// The reception time of a parsed message.
fn received_at_of(date: &Option<String>, fallback: &str) -> (r: String)
    ensures
        r@ == received_text(*date, fallback@),
{
    match date {
        Some(d) => match parse_mail_date(d.as_str()) {
            Some(seconds) => match rfc3339_of_timestamp(seconds) {
                Some(t) => t,
                None => String::from_str(fallback),
            },
            None => String::from_str(fallback),
        },
        None => String::from_str(fallback),
    }
}

/// The value of an optional header, empty when it is missing.
fn header_text(h: &Option<String>) -> (r: String)
    ensures
        r@ == header_or_empty(*h),
{
    match h {
        Some(v) => v.clone(),
        None => String::new(),
    }
}

/// Turns the raw header and text of a fetched mail into a `ParsedMail`;
/// `received_fallback` is the time of reading, used when the `Date` header is
/// missing or unreadable. Fails with mailparse's message when the bytes do not
/// parse.
pub fn parse_message(uid: u32, raw: &[u8], is_read: bool, received_fallback: &str) -> (r: Result<
    ParsedMail,
    String,
>)
    requires
        raw_mail_ok(raw@),
    ensures
        match mime_structure(raw@) {
            Ok(m) => r matches Ok(mail) && mail_of_mime(mail, uid, m, is_read, received_fallback@),
            Err(e) => r matches Err(msg) && msg@ == e,
        },
{
    let m = match parse_mime(raw) {
        Ok(m) => m,
        Err(e) => {
            return Err(e);
        },
    };
    let from = header_text(&m.from);
    let (sender_name, sender_email) = split_address(from.as_str());
    let to = header_text(&m.to);
    let recipients = recipients_of(to.as_str());
    let received_at = received_at_of(&m.date, received_fallback);
    let subject = match &m.subject {
        Some(s) => s.clone(),
        None => String::from_str("（无主题）"),
    };
    let text = match part_text_of(&m.root) {
        Some(t) => t,
        None => Vec::new(),
    };
    let body_text = normalize_body_text(string_of(&text));
    Ok(
        ParsedMail {
            uid,
            sender_name,
            sender_email,
            recipients,
            subject,
            received_at,
            body_text,
            is_read,
        },
    )
}

/// Whether a parsed message can be turned into a mail.
fn mime_mail_ready(m: &MimeMessage) -> (r: bool)
    ensures
        r == mime_mail_ok(*m),
{
    let from = header_text(&m.from);
    if !can_split_address(from.as_str()) {
        return false;
    }
    let to = header_text(&m.to);
    let t = chars_of(to.as_str());
    let pieces = split_chars(&t, ',');
    let mut i: usize = 0;
    while i < pieces.len()
        invariant
            i <= pieces@.len(),
            to@ == header_or_empty(m.to),
            pieces@.len() == split_on(to@, ',').len(),
            forall|k: int| 0 <= k < pieces@.len() ==> #[trigger] pieces@[k]@ == split_on(to@, ',')[k],
            forall|k: int| 0 <= k < i ==> address_splittable(#[trigger] split_on(to@, ',')[k]),
        decreases pieces@.len() - i,
    {
        let piece = string_of(&pieces[i]);
        if !can_split_address(piece.as_str()) {
            return false;
        }
        i = i + 1;
    }
    part_text_of(&m.root).is_some()
}

/// `parse_message` for any raw bytes: `None` exactly where the message parses
/// but its sender or recipients cannot be split or its text cannot be
/// rendered, the inputs on which reading the mail panics; otherwise what
/// `parse_message` gives.
pub fn try_parse_message(uid: u32, raw: &[u8], is_read: bool, received_fallback: &str) -> (r: Option<
    Result<ParsedMail, String>,
>)
    ensures
        r is None <==> !raw_mail_ok(raw@),
        r matches Some(res) ==> match mime_structure(raw@) {
            Ok(m) => res matches Ok(mail) && mail_of_mime(mail, uid, m, is_read, received_fallback@),
            Err(e) => res matches Err(msg) && msg@ == e,
        },
{
    match parse_mime(raw) {
        Ok(m) => {
            if !mime_mail_ready(&m) {
                return None;
            }
        },
        Err(_) => {},
    }
    Some(parse_message(uid, raw, is_read, received_fallback))
}

// ---------------------------------------------------------------------------
// Incremental synchronisation
// ---------------------------------------------------------------------------
/// The UID from which a first synchronisation starts: one below the mailbox's
/// next UID (`UIDNEXT`, taken as 1 when the server gives none), not below 0;
/// mail up to it is not fetched.
pub open spec fn baseline(uid_next: Option<u32>) -> u32 {
    match uid_next {
        Some(n) => if n == 0 {
            0
        } else {
            (n - 1) as u32
        },
        None => 0,
    }
}

/// The baseline UID for a mailbox whose next UID is `uid_next`.
pub fn baseline_uid(uid_next: Option<u32>) -> (r: u32)
    ensures
        r == baseline(uid_next),
{
    match uid_next {
        Some(n) => if n == 0 {
            0
        } else {
            n - 1
        },
        None => 0,
    }
}

/// The IMAP search for the UIDs after `after_uid`: `UID {after_uid + 1}:*`,
/// the addition saturating.
pub open spec fn uid_search(after_uid: u32) -> Seq<char> {
    let first: int = if after_uid == u32::MAX {
        u32::MAX as int
    } else {
        after_uid + 1
    };
    "UID "@ + decimal(first as nat) + ":*"@
}

/// The search query for the mail after `after_uid`.
pub fn uid_search_query(after_uid: u32) -> (r: String)
    ensures
        r@ == uid_search(after_uid),
{
    let first: u32 = if after_uid == u32::MAX {
        u32::MAX
    } else {
        after_uid + 1
    };
    let mut q: Vec<char> = chars_of("UID ");
    push_decimal(&mut q, first as u64);
    push_str(&mut q, ":*");
    string_of(&q)
}

/// The UIDs of `ids` greater than `after_uid`, in order.
pub open spec fn uids_after(ids: Seq<u32>, after_uid: u32) -> Seq<u32>
    decreases ids.len(),
{
    if ids.len() == 0 {
        Seq::empty()
    } else if ids.last() > after_uid {
        uids_after(ids.drop_last(), after_uid).push(ids.last())
    } else {
        uids_after(ids.drop_last(), after_uid)
    }
}

/// The newer UIDs are exactly those of the search that are greater than
/// `after_uid`: none is lost and none is added.
pub proof fn lemma_uids_after_members(ids: Seq<u32>, after_uid: u32, x: u32)
    ensures
        uids_after(ids, after_uid).contains(x) <==> ids.contains(x) && x > after_uid,
    decreases ids.len(),
{
    if ids.len() > 0 {
        let rest = ids.drop_last();
        lemma_uids_after_members(rest, after_uid, x);
        let u = uids_after(rest, after_uid);
        let r = uids_after(ids, after_uid);
        let last = ids.last();
        if last > after_uid {
            assert(r == u.push(last));
        } else {
            assert(r == u);
        }
        if ids.contains(x) && x > after_uid {
            let i = choose|i: int| 0 <= i < ids.len() && ids[i] == x;
            if i < ids.len() - 1 {
                assert(rest[i] == x);
                assert(rest.contains(x));
                let j = choose|j: int| 0 <= j < u.len() && u[j] == x;
                assert(r[j] == x);
            } else {
                assert(last == x);
                assert(r[u.len() as int] == x);
            }
            assert(r.contains(x));
        }
        if r.contains(x) {
            let i = choose|i: int| 0 <= i < r.len() && r[i] == x;
            if last > after_uid && i == u.len() {
                assert(ids[ids.len() - 1] == x);
            } else {
                assert(u[i] == x);
                assert(u.contains(x));
                let w = choose|w: int| 0 <= w < rest.len() && rest[w] == x;
                assert(ids[w] == x);
            }
            assert(ids.contains(x));
        }
    }
}

/// `s` is in ascending order.
pub open spec fn ascending(s: Seq<u32>) -> bool {
    forall|i: int, j: int| 0 <= i <= j < s.len() ==> s[i] <= s[j]
}

pub(crate) proof fn lemma_twice_counts_twice<A>(s: Seq<A>, i: int, j: int)
    requires
        0 <= i < s.len(),
        0 <= j < s.len(),
        i != j,
        s[i] == s[j],
    ensures
        s.to_multiset().count(s[i]) >= 2,
{
    let x = s[i];
    let t = s.remove(j);
    vstd::seq_lib::to_multiset_remove(s, j);
    let k = if i < j {
        i
    } else {
        i - 1
    };
    assert(t[k] == x);
    vstd::seq_lib::to_multiset_contains(t, x);
    vstd::seq_lib::to_multiset_contains(s, x);
    assert(s.contains(x));
}

pub(crate) proof fn lemma_counted_twice<A>(s: Seq<A>, x: A)
    requires
        s.to_multiset().count(x) >= 2,
    ensures
        exists|i: int, j: int| 0 <= i < j < s.len() && s[i] == x && s[j] == x,
{
    vstd::seq_lib::to_multiset_contains(s, x);
    let i = choose|i: int| 0 <= i < s.len() && s[i] == x;
    let t = s.remove(i);
    vstd::seq_lib::to_multiset_remove(s, i);
    vstd::seq_lib::to_multiset_contains(t, x);
    let k = choose|k: int| 0 <= k < t.len() && t[k] == x;
    let j = if k < i {
        k
    } else {
        k + 1
    };
    assert(s[j] == x);
    if i < j {
        assert(s[i] == x && s[j] == x);
    } else {
        assert(s[j] == x && s[i] == x);
    }
}

proof fn lemma_uids_after_from_ids(ids: Seq<u32>, after_uid: u32)
    ensures
        forall|k: int|
            0 <= k < uids_after(ids, after_uid).len() ==> ids.contains(
                #[trigger] uids_after(ids, after_uid)[k],
            ),
        (forall|i: int, j: int| 0 <= i < j < ids.len() ==> ids[i] != ids[j]) ==> forall|
            i: int,
            j: int,
        | 0 <= i < j < uids_after(ids, after_uid).len() ==> uids_after(ids, after_uid)[i]
            != uids_after(ids, after_uid)[j],
    decreases ids.len(),
{
    if ids.len() > 0 {
        let rest = ids.drop_last();
        lemma_uids_after_from_ids(rest, after_uid);
        let prev = uids_after(rest, after_uid);
        let cur = uids_after(ids, after_uid);
        assert forall|k: int| 0 <= k < cur.len() implies ids.contains(#[trigger] cur[k]) by {
            if k < prev.len() {
                assert(cur[k] == prev[k]);
                assert(rest.contains(prev[k]));
                let w = choose|w: int| 0 <= w < rest.len() && rest[w] == prev[k];
                assert(ids[w] == rest[w]);
            } else {
                assert(ids[ids.len() - 1] == cur[k]);
            }
        }
        if forall|i: int, j: int| 0 <= i < j < ids.len() ==> ids[i] != ids[j] {
            assert forall|i: int, j: int| 0 <= i < j < rest.len() implies rest[i] != rest[j] by {
                assert(rest[i] == ids[i] && rest[j] == ids[j]);
            }
            assert forall|i: int, j: int| 0 <= i < j < cur.len() implies cur[i] != cur[j] by {
                if j >= prev.len() {
                    assert(cur[i] == prev[i]);
                    assert(cur[j] == ids.last());
                    assert(rest.contains(prev[i]));
                    let w = choose|w: int| 0 <= w < rest.len() && rest[w] == prev[i];
                    assert(ids[w] == rest[w] && ids[ids.len() - 1] == ids.last());
                } else {
                    assert(cur[i] == prev[i] && cur[j] == prev[j]);
                }
            }
        }
    }
}

/// When the search names each UID once, so does `new_uids`: the new UIDs are
/// in strictly ascending order.
proof fn lemma_new_uids_distinct(ids: Seq<u32>, after_uid: u32, r: Seq<u32>)
    requires
        forall|i: int, j: int| 0 <= i < j < ids.len() ==> ids[i] != ids[j],
        ascending(r),
        r.to_multiset() == uids_after(ids, after_uid).to_multiset(),
    ensures
        forall|i: int, j: int| 0 <= i < j < r.len() ==> r[i] < r[j],
{
    lemma_uids_after_from_ids(ids, after_uid);
    let u = uids_after(ids, after_uid);
    assert forall|i: int, j: int| 0 <= i < j < r.len() implies r[i] < r[j] by {
        if r[i] == r[j] {
            lemma_twice_counts_twice(r, i, j);
            lemma_counted_twice(u, r[i]);
            let (a, b) = choose|a: int, b: int| 0 <= a < b < u.len() && u[a] == r[i] && u[b] == r[i];
            assert(u[a] != u[b]);
        }
    }
}

/// The UIDs that a search returned that are newer than `after_uid`, in
/// ascending order, and the highest of them (`after_uid` when there is none).
pub fn new_uids(ids: &[u32], after_uid: u32) -> (r: (Vec<u32>, u32))
    ensures
        ascending(r.0@),
        r.0@.to_multiset() == uids_after(ids@, after_uid).to_multiset(),
        r.1 == if r.0@.len() == 0 {
            after_uid
        } else {
            r.0@.last()
        },
        forall|k: int| 0 <= k < r.0@.len() ==> r.0@[k] > after_uid,
        r.1 >= after_uid,
        (forall|i: int, j: int| 0 <= i < j < ids@.len() ==> ids@[i] != ids@[j]) ==> forall|
            i: int,
            j: int,
        | 0 <= i < j < r.0@.len() ==> r.0@[i] < r.0@[j],
{
    let mut sorted: Vec<u32> = Vec::new();
    let mut i: usize = 0;
    while i < ids.len()
        invariant
            i <= ids@.len(),
            ascending(sorted@),
            forall|k: int| 0 <= k < sorted@.len() ==> sorted@[k] > after_uid,
            sorted@.to_multiset() == uids_after(ids@.take(i as int), after_uid).to_multiset(),
        decreases ids@.len() - i,
    {
        proof {
            assert(ids@.take(i + 1).drop_last() =~= ids@.take(i as int));
            assert(ids@.take(i + 1).last() == ids@[i as int]);
        }
        let uid = ids[i];
        if uid > after_uid {
            let mut pos: usize = 0;
            while pos < sorted.len() && sorted[pos] <= uid
                invariant
                    pos <= sorted@.len(),
                    forall|k: int| 0 <= k < pos ==> sorted@[k] <= uid,
                decreases sorted@.len() - pos,
            {
                pos = pos + 1;
            }
            let ghost before = sorted@;
            sorted.insert(pos, uid);
            proof {
                assert(sorted@ == before.insert(pos as int, uid));
                assert(uids_after(ids@.take(i + 1), after_uid) == uids_after(
                    ids@.take(i as int),
                    after_uid,
                ).push(uid));
                vstd::seq_lib::to_multiset_insert(before, pos as int, uid);
                vstd::seq_lib::to_multiset_build(uids_after(ids@.take(i as int), after_uid), uid);
                assert(sorted@.to_multiset() == before.to_multiset().insert(uid));
                assert(uids_after(ids@.take(i as int), after_uid).push(uid).to_multiset()
                    == uids_after(ids@.take(i as int), after_uid).to_multiset().insert(uid));
                assert forall|k: int| 0 <= k < sorted@.len() implies sorted@[k] > after_uid by {
                    if k < pos {
                        assert(sorted@[k] == before[k]);
                    } else if k > pos {
                        assert(sorted@[k] == before[k - 1]);
                    }
                }
                assert forall|a: int, b: int| 0 <= a <= b < sorted@.len() implies sorted@[a] <= sorted@[b] by {
                    if a < pos && b < pos {
                        assert(sorted@[a] == before[a] && sorted@[b] == before[b]);
                    } else if a < pos && b == pos {
                        assert(sorted@[a] == before[a]);
                    } else if a < pos {
                        assert(sorted@[a] == before[a] && sorted@[b] == before[b - 1]);
                    } else if a == pos && b > pos {
                        assert(sorted@[b] == before[b - 1]);
                        assert(pos < before.len());
                        assert(!(before[pos as int] <= uid));
                    } else if a > pos {
                        assert(sorted@[a] == before[a - 1] && sorted@[b] == before[b - 1]);
                    }
                }
            }
        }
        else {
            assert(uids_after(ids@.take(i + 1), after_uid) == uids_after(
                ids@.take(i as int),
                after_uid,
            ));
        }
        i = i + 1;
    }
    proof {
        assert(ids@.take(ids@.len() as int) =~= ids@);
        if forall|a: int, b: int| 0 <= a < b < ids@.len() ==> ids@[a] != ids@[b] {
            lemma_new_uids_distinct(ids@, after_uid, sorted@);
        }
    }
    let last = if sorted.len() == 0 {
        after_uid
    } else {
        sorted[sorted.len() - 1]
    };
    (sorted, last)
}

/// How many UIDs go into one fetch command.
pub open spec fn fetch_chunk() -> int {
    25
}

/// UIDs written in decimal and separated by commas.
pub open spec fn uid_set(uids: Seq<u32>) -> Seq<char>
    decreases uids.len(),
{
    if uids.len() == 0 {
        Seq::empty()
    } else if uids.len() == 1 {
        decimal(uids[0] as nat)
    } else {
        uid_set(uids.drop_last()) + seq![','] + decimal(uids.last() as nat)
    }
}

/// The `k`-th group of at most `fetch_chunk()` consecutive UIDs.
pub open spec fn uid_chunk(uids: Seq<u32>, k: int) -> Seq<u32> {
    let start = k * fetch_chunk();
    let end = if start + fetch_chunk() <= uids.len() {
        start + fetch_chunk()
    } else {
        uids.len() as int
    };
    uids.subrange(start, end)
}

/// The first `n` groups of UIDs, joined in order.
pub open spec fn chunks_joined(uids: Seq<u32>, n: nat) -> Seq<u32>
    decreases n,
{
    if n == 0 {
        Seq::empty()
    } else {
        chunks_joined(uids, (n - 1) as nat) + uid_chunk(uids, n - 1)
    }
}

proof fn lemma_chunks_joined_prefix(uids: Seq<u32>, n: nat)
    requires
        n * fetch_chunk() <= uids.len() + fetch_chunk() - 1,
    ensures
        chunks_joined(uids, n) == uids.take(
            if n * fetch_chunk() <= uids.len() {
                n * fetch_chunk()
            } else {
                uids.len() as int
            },
        ),
    decreases n,
{
    if n == 0 {
        assert(uids.take(0) =~= Seq::<u32>::empty());
    } else {
        let m = (n - 1) as nat;
        lemma_chunks_joined_prefix(uids, m);
        let start = m * fetch_chunk();
        assert(start == n * fetch_chunk() - fetch_chunk());
        assert(start < uids.len());
        let end: int = if start + fetch_chunk() <= uids.len() {
            start + fetch_chunk()
        } else {
            uids.len() as int
        };
        assert(uid_chunk(uids, m as int) == uids.subrange(start, end));
        assert(uids.take(start) + uids.subrange(start, end) =~= uids.take(end));
    }
}

/// Fetching in groups loses no UID and repeats none: the groups that
/// `fetch_sets` writes, joined in order, are the UIDs.
pub proof fn lemma_fetch_groups_cover_uids(uids: Seq<u32>)
    ensures
        chunks_joined(uids, ((uids.len() + fetch_chunk() - 1) / fetch_chunk()) as nat) == uids,
{
    let n = (uids.len() + fetch_chunk() - 1) / fetch_chunk();
    assert(n * 25 <= uids.len() + 24 && n * 25 >= uids.len()) by (nonlinear_arith)
        requires
            n == (uids.len() + 24) / 25,
    ;
    lemma_chunks_joined_prefix(uids, n as nat);
    assert(uids.take(uids.len() as int) =~= uids);
}

/// Each fetch command asks for at least one and at most 25 UIDs.
pub proof fn lemma_fetch_groups_sized(uids: Seq<u32>)
    ensures
        forall|k: int|
            0 <= k < (uids.len() + fetch_chunk() - 1) / fetch_chunk() ==> 1 <= (#[trigger] uid_chunk(
                uids,
                k,
            )).len() <= 25,
{
    assert forall|k: int| 0 <= k < (uids.len() + fetch_chunk() - 1) / fetch_chunk() implies 1 <= (
    #[trigger] uid_chunk(uids, k)).len() <= 25 by {
        let len = uids.len() as int;
        assert(k * 25 < len && 0 <= k * 25) by (nonlinear_arith)
            requires
                0 <= k < (len + 24) / 25,
                len >= 0,
        ;
    }
}

/// The UID sets of the fetch commands for `uids`, in groups of `fetch_chunk()`.
pub fn fetch_sets(uids: &[u32]) -> (r: Vec<String>)
    ensures
        r@.len() == (uids@.len() + fetch_chunk() - 1) / fetch_chunk(),
        forall|k: int| 0 <= k < r@.len() ==> #[trigger] r@[k]@ == uid_set(uid_chunk(uids@, k)),
{
    let n = uids.len();
    let count: usize = if n == 0 {
        0
    } else {
        (n - 1) / 25 + 1
    };
    proof {
        assert(count == (n + 24) / 25) by (nonlinear_arith)
            requires
                count == (if n == 0 {
                    0
                } else {
                    (n - 1) / 25 + 1
                }),
        ;
    }
    let mut out: Vec<String> = Vec::new();
    let mut k: usize = 0;
    while k < count
        invariant
            n == uids@.len(),
            count == (n + 24) / 25,
            k <= count,
            out@.len() == k,
            forall|c: int| 0 <= c < out@.len() ==> #[trigger] out@[c]@ == uid_set(uid_chunk(uids@, c)),
        decreases count - k,
    {
        proof {
            assert(k * 25 < n) by (nonlinear_arith)
                requires
                    k < count,
                    count == (n + 24) / 25,
            ;
        }
        let start: usize = k * 25;
        let end: usize = if n - start >= 25 {
            start + 25
        } else {
            n
        };
        let mut text: Vec<char> = Vec::new();
        let mut j: usize = start;
        while j < end
            invariant
                start <= j <= end <= uids@.len(),
                start < end,
                j == start ==> text@.len() == 0,
                j > start ==> text@ == uid_set(uids@.subrange(start as int, j as int)),
            decreases end - j,
        {
            if j > start {
                text.push(',');
            }
            push_decimal(&mut text, uids[j] as u64);
            proof {
                let piece = uids@.subrange(start as int, j + 1);
                assert(piece.drop_last() =~= uids@.subrange(start as int, j as int));
                if j == start {
                    assert(piece.len() == 1);
                    assert(text@ =~= uid_set(piece));
                } else {
                    assert(text@ =~= uid_set(piece));
                }
            }
            j = j + 1;
        }
        proof {
            assert(uid_chunk(uids@, k as int) =~= uids@.subrange(start as int, end as int));
        }
        out.push(string_of(&text));
        k = k + 1;
    }
    out
}
} // verus!
