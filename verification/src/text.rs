//! Character-level text utilities shared by the rest of the library.
//!
//! Text is handled as sequences of Unicode scalar values (`char`); a `&str`
//! or `String` is viewed by Verus as the `Seq<char>` of its characters.
use vstd::prelude::*;

verus! {

// ---------------------------------------------------------------------------
// Conversions between `str`/`String` and character vectors
// ---------------------------------------------------------------------------
/// The characters of `s`, in order.
pub fn chars_of(s: &str) -> (r: Vec<char>)
    ensures
        r@ == s@,
{
    let mut out: Vec<char> = Vec::new();
    for c in it: s.chars()
        invariant
            out@ == it.seq().take(it.index() as int),
    {
        out.push(c);
    }
    proof {
        assert(out@ =~= s@);
    }
    out
}

/// Collects characters into a `String` (std's `FromIterator<char>` for `String`).
#[verifier::external_body]
pub(crate) fn string_of(chars: &[char]) -> (r: String)
    ensures
        r@ == chars@,
{
    chars.iter().collect()
}

/// Appends all characters of `tail` to `out`.
pub fn push_all(out: &mut Vec<char>, tail: &[char])
    ensures
        final(out)@ == old(out)@ + tail@,
{
    let mut i: usize = 0;
    while i < tail.len()
        invariant
            i <= tail@.len(),
            out@ == old(out)@ + tail@.subrange(0, i as int),
        decreases tail@.len() - i,
    {
        out.push(tail[i]);
        i = i + 1;
        proof {
            assert(tail@.subrange(0, i as int) =~= tail@.subrange(0, i - 1) + seq![tail@[i - 1]]);
        }
    }
    proof {
        assert(tail@.subrange(0, tail@.len() as int) =~= tail@);
    }
}

/// Appends all characters of the string `tail` to `out`.
pub fn push_str(out: &mut Vec<char>, tail: &str)
    ensures
        final(out)@ == old(out)@ + tail@,
{
    let chars = chars_of(tail);
    push_all(out, &chars);
}

/// The characters `s[from..to]` as a new vector.
pub fn slice_chars(s: &[char], from: usize, to: usize) -> (r: Vec<char>)
    requires
        from <= to <= s@.len(),
    ensures
        r@ == s@.subrange(from as int, to as int),
{
    let mut out: Vec<char> = Vec::new();
    let mut i: usize = from;
    while i < to
        invariant
            from <= i <= to <= s@.len(),
            out@ == s@.subrange(from as int, i as int),
        decreases to - i,
    {
        out.push(s[i]);
        i = i + 1;
        proof {
            assert(s@.subrange(from as int, i as int) =~= s@.subrange(from as int, i - 1) + seq![
                s@[i - 1],
            ]);
        }
    }
    out
}

/// Character-wise equality of two character sequences.
pub fn chars_equal(a: &[char], b: &[char]) -> (r: bool)
    ensures
        r == (a@ == b@),
{
    if a.len() != b.len() {
        return false;
    }
    let mut i: usize = 0;
    while i < a.len()
        invariant
            a@.len() == b@.len(),
            i <= a@.len(),
            forall|j: int| 0 <= j < i ==> a@[j] == b@[j],
        decreases a@.len() - i,
    {
        if a[i] != b[i] {
            return false;
        }
        i = i + 1;
    }
    proof {
        assert(a@ =~= b@);
    }
    true
}

/// Equality of a character vector with a string.
pub fn chars_equal_str(a: &[char], b: &str) -> (r: bool)
    ensures
        r == (a@ == b@),
{
    let bc = chars_of(b);
    chars_equal(a, &bc)
}

// ---------------------------------------------------------------------------
// Unicode case mapping (std)
// ---------------------------------------------------------------------------
/// What `str::to_lowercase` returns for a text: its Unicode lowercase mapping.
pub uninterp spec fn unicode_lowercase(s: Seq<char>) -> Seq<char>;

/// What `str::to_uppercase` returns for a text: its Unicode uppercase mapping.
pub uninterp spec fn unicode_uppercase(s: Seq<char>) -> Seq<char>;

/// Every character of `s` is ASCII.
pub open spec fn is_ascii_text(s: Seq<char>) -> bool {
    forall|i: int| 0 <= i < s.len() ==> (s[i] as u32) < 128
}

/// The ASCII lowercase of a character: `A`..`Z` become `a`..`z`.
pub open spec fn ascii_lower(c: char) -> char {
    if 'A' <= c && c <= 'Z' {
        ((c as u32) + 32) as char
    } else {
        c
    }
}

/// The ASCII uppercase of a character: `a`..`z` become `A`..`Z`.
pub open spec fn ascii_upper(c: char) -> char {
    if 'a' <= c && c <= 'z' {
        ((c as u32) - 32) as char
    } else {
        c
    }
}

/// Calls `str::to_lowercase`; the result is the Unicode lowercase mapping of `s`,
/// named `unicode_lowercase` (its tables are not restated here). Of an ASCII
/// text, the mapping lowers each ASCII letter and keeps every other character,
/// as std's documentation shows.
#[verifier::external_body]
pub(crate) fn to_lowercase(s: &str) -> (r: String)
    ensures
        r@ == unicode_lowercase(s@),
        is_ascii_text(s@) ==> r@ == s@.map_values(|c: char| ascii_lower(c)),
{
    s.to_lowercase()
}

/// Calls `str::to_uppercase`; the result is the Unicode uppercase mapping of `s`,
/// named `unicode_uppercase`. Of an ASCII text, the mapping raises each ASCII
/// letter and keeps every other character.
#[verifier::external_body]
pub(crate) fn to_uppercase(s: &str) -> (r: String)
    ensures
        r@ == unicode_uppercase(s@),
        is_ascii_text(s@) ==> r@ == s@.map_values(|c: char| ascii_upper(c)),
{
    s.to_uppercase()
}

/// The lowercase mapping of a character sequence.
pub fn lowercase_chars(s: &[char]) -> (r: Vec<char>)
    ensures
        r@ == unicode_lowercase(s@),
        is_ascii_text(s@) ==> r@ == s@.map_values(|c: char| ascii_lower(c)),
{
    let text = string_of(s);
    let lower = to_lowercase(text.as_str());
    chars_of(lower.as_str())
}

/// The uppercase mapping of a character sequence.
pub fn uppercase_chars(s: &[char]) -> (r: Vec<char>)
    ensures
        r@ == unicode_uppercase(s@),
        is_ascii_text(s@) ==> r@ == s@.map_values(|c: char| ascii_upper(c)),
{
    let text = string_of(s);
    let upper = to_uppercase(text.as_str());
    chars_of(upper.as_str())
}

// ---------------------------------------------------------------------------
// Unicode whitespace and trimming
// ---------------------------------------------------------------------------
/// The Unicode `White_Space` property, which is what `char::is_whitespace` tests.
pub open spec fn is_unicode_whitespace(c: char) -> bool {
    ||| ('\u{9}' <= c && c <= '\u{d}')
    ||| c == ' '
    ||| c == '\u{85}'
    ||| c == '\u{a0}'
    ||| c == '\u{1680}'
    ||| ('\u{2000}' <= c && c <= '\u{200a}')
    ||| c == '\u{2028}'
    ||| c == '\u{2029}'
    ||| c == '\u{202f}'
    ||| c == '\u{205f}'
    ||| c == '\u{3000}'
}

/// Whether `c` is Unicode whitespace.
pub fn is_whitespace(c: char) -> (r: bool)
    ensures
        r == is_unicode_whitespace(c),
{
    ('\u{9}' <= c && c <= '\u{d}') || c == ' ' || c == '\u{85}' || c == '\u{a0}' || c
        == '\u{1680}' || ('\u{2000}' <= c && c <= '\u{200a}') || c == '\u{2028}' || c
        == '\u{2029}' || c == '\u{202f}' || c == '\u{205f}' || c == '\u{3000}'
}

/// `s` without its leading whitespace (`str::trim_start`).
pub open spec fn trim_start(s: Seq<char>) -> Seq<char>
    decreases s.len(),
{
    if s.len() > 0 && is_unicode_whitespace(s[0]) {
        trim_start(s.drop_first())
    } else {
        s
    }
}

/// `s` without its trailing whitespace (`str::trim_end`).
pub open spec fn trim_end(s: Seq<char>) -> Seq<char>
    decreases s.len(),
{
    if s.len() > 0 && is_unicode_whitespace(s.last()) {
        trim_end(s.drop_last())
    } else {
        s
    }
}

/// `s` without leading and trailing whitespace (`str::trim`).
pub open spec fn trim(s: Seq<char>) -> Seq<char> {
    trim_end(trim_start(s))
}

/// Whether `s` holds nothing but whitespace (`s.trim().is_empty()`).
pub open spec fn is_blank(s: Seq<char>) -> bool {
    trim(s).len() == 0
}

proof fn lemma_trim_start_skip(s: Seq<char>, k: int)
    requires
        0 <= k <= s.len(),
        forall|i: int| 0 <= i < k ==> is_unicode_whitespace(#[trigger] s[i]),
    ensures
        trim_start(s) == trim_start(s.subrange(k, s.len() as int)),
    decreases k,
{
    if k == 0 {
        assert(s.subrange(0, s.len() as int) =~= s);
    } else {
        assert(is_unicode_whitespace(s[0]));
        let t = s.drop_first();
        assert forall|i: int| 0 <= i < k - 1 implies is_unicode_whitespace(#[trigger] t[i]) by {
            assert(t[i] == s[i + 1]);
        }
        lemma_trim_start_skip(t, k - 1);
        assert(t.subrange(k - 1, t.len() as int) =~= s.subrange(k, s.len() as int));
    }
}

proof fn lemma_trim_end_skip(s: Seq<char>, k: int)
    requires
        0 <= k <= s.len(),
        forall|i: int| k <= i < s.len() ==> is_unicode_whitespace(#[trigger] s[i]),
    ensures
        trim_end(s) == trim_end(s.subrange(0, k)),
    decreases s.len() - k,
{
    if k == s.len() {
        assert(s.subrange(0, k) =~= s);
    } else {
        assert(is_unicode_whitespace(s[s.len() - 1]));
        let t = s.drop_last();
        assert forall|i: int| k <= i < t.len() implies is_unicode_whitespace(#[trigger] t[i]) by {
            assert(t[i] == s[i]);
        }
        lemma_trim_end_skip(t, k);
        assert(t.subrange(0, k) =~= s.subrange(0, k));
    }
}

/// Number of leading whitespace characters of `s`.
pub fn leading_whitespace(s: &[char]) -> (k: usize)
    ensures
        k <= s@.len(),
        forall|i: int| 0 <= i < k ==> is_unicode_whitespace(#[trigger] s@[i]),
        k < s@.len() ==> !is_unicode_whitespace(s@[k as int]),
        trim_start(s@) == s@.subrange(k as int, s@.len() as int),
{
    let mut k: usize = 0;
    while k < s.len() && is_whitespace(s[k])
        invariant
            k <= s@.len(),
            forall|i: int| 0 <= i < k ==> is_unicode_whitespace(#[trigger] s@[i]),
        decreases s@.len() - k,
    {
        k = k + 1;
    }
    proof {
        lemma_trim_start_skip(s@, k as int);
        let rest = s@.subrange(k as int, s@.len() as int);
        if rest.len() > 0 {
            assert(rest[0] == s@[k as int]);
        }
    }
    k
}

/// `s` with leading whitespace removed.
pub fn trim_start_chars(s: &[char]) -> (r: Vec<char>)
    ensures
        r@ == trim_start(s@),
{
    let k = leading_whitespace(s);
    slice_chars(s, k, s.len())
}

/// `s` with leading and trailing whitespace removed.
pub fn trim_chars(s: &[char]) -> (r: Vec<char>)
    ensures
        r@ == trim(s@),
{
    let k = leading_whitespace(s);
    let mut e: usize = s.len();
    while e > k && is_whitespace(s[e - 1])
        invariant
            k <= e <= s@.len(),
            forall|i: int| e <= i < s@.len() ==> is_unicode_whitespace(#[trigger] s@[i]),
        decreases e,
    {
        e = e - 1;
    }
    let r = slice_chars(s, k, e);
    proof {
        let t = s@.subrange(k as int, s@.len() as int);
        assert forall|i: int| e - k <= i < t.len() implies is_unicode_whitespace(#[trigger] t[i]) by {
            assert(t[i] == s@[i + k]);
        }
        lemma_trim_end_skip(t, e - k);
        assert(t.subrange(0, e - k) =~= s@.subrange(k as int, e as int));
        let u = s@.subrange(k as int, e as int);
        if u.len() > 0 {
            assert(u.last() == s@[e - 1]);
            if e == k {
            } else {
                assert(!is_unicode_whitespace(s@[e - 1]));
            }
        }
        if e == k {
            assert(u.len() == 0);
        }
    }
    r
}

/// The trimmed characters of the string `s`.
pub fn trimmed(s: &str) -> (r: Vec<char>)
    ensures
        r@ == trim(s@),
{
    let c = chars_of(s);
    trim_chars(&c)
}

// ---------------------------------------------------------------------------
// Substring search
// ---------------------------------------------------------------------------
/// `pat` occurs in `s` starting at position `i`.
pub open spec fn occurs_at(s: Seq<char>, pat: Seq<char>, i: int) -> bool {
    0 <= i && i + pat.len() <= s.len() && s.subrange(i, i + pat.len()) == pat
}

/// `pat` occurs somewhere in `s` (`str::contains`).
pub open spec fn contains(s: Seq<char>, pat: Seq<char>) -> bool {
    exists|i: int| occurs_at(s, pat, i)
}

/// `s` starts with `pat` (`str::starts_with`).
pub open spec fn starts_with(s: Seq<char>, pat: Seq<char>) -> bool {
    occurs_at(s, pat, 0)
}

/// `s` ends with `pat` (`str::ends_with`).
pub open spec fn ends_with(s: Seq<char>, pat: Seq<char>) -> bool {
    occurs_at(s, pat, s.len() - pat.len())
}

/// Whether `pat` occurs in `s` at position `i`.
pub fn matches_at(s: &[char], pat: &[char], i: usize) -> (r: bool)
    ensures
        r == occurs_at(s@, pat@, i as int),
{
    if i > s.len() || pat.len() > s.len() - i {
        return false;
    }
    let mut j: usize = 0;
    while j < pat.len()
        invariant
            i <= s@.len(),
            s@.len() == s.len(),
            i + pat@.len() <= s@.len(),
            j <= pat@.len(),
            forall|k: int| 0 <= k < j ==> s@[i + k] == pat@[k],
        decreases pat@.len() - j,
    {
        if s[i + j] != pat[j] {
            proof {
                assert(s@.subrange(i as int, i + pat@.len())[j as int] != pat@[j as int]);
            }
            return false;
        }
        j = j + 1;
    }
    proof {
        assert(s@.subrange(i as int, i + pat@.len()) =~= pat@);
    }
    true
}

/// Whether `pat` occurs in `s`.
pub fn contains_chars(s: &[char], pat: &[char]) -> (r: bool)
    ensures
        r == contains(s@, pat@),
{
    if pat.len() == 0 {
        assert(occurs_at(s@, pat@, 0)) by {
            assert(s@.subrange(0, 0) =~= pat@);
        }
        return true;
    }
    if pat.len() > s.len() {
        return false;
    }
    let last = s.len() - pat.len();
    let mut i: usize = 0;
    while i <= last
        invariant
            last == s@.len() - pat@.len(),
            last < s@.len(),
            s@.len() == s.len(),
            i <= last + 1,
            forall|k: int| 0 <= k < i ==> !occurs_at(s@, pat@, k),
        decreases last + 1 - i,
    {
        if matches_at(s, pat, i) {
            return true;
        }
        i = i + 1;
    }
    false
}

/// Whether the string `pat` occurs in `s`.
pub fn contains_str(s: &[char], pat: &str) -> (r: bool)
    ensures
        r == contains(s@, pat@),
{
    let p = chars_of(pat);
    contains_chars(s, &p)
}

/// Whether `s` starts with the string `pat`.
pub fn starts_with_str(s: &[char], pat: &str) -> (r: bool)
    ensures
        r == starts_with(s@, pat@),
{
    let p = chars_of(pat);
    matches_at(s, &p, 0)
}

/// Whether `s` ends with the string `pat`.
pub fn ends_with_str(s: &[char], pat: &str) -> (r: bool)
    ensures
        r == ends_with(s@, pat@),
{
    let p = chars_of(pat);
    if p.len() > s.len() {
        false
    } else {
        matches_at(s, &p, s.len() - p.len())
    }
}

/// Index of the first occurrence of `c` in `s`.
pub open spec fn first_index_of(s: Seq<char>, c: char) -> Option<int>
    decreases s.len(),
{
    if s.len() == 0 {
        None
    } else if s[0] == c {
        Some(0)
    } else {
        match first_index_of(s.drop_first(), c) {
            Some(i) => Some(i + 1),
            None => None,
        }
    }
}

/// Index of the last occurrence of `c` in `s`.
pub open spec fn last_index_of(s: Seq<char>, c: char) -> Option<int>
    decreases s.len(),
{
    if s.len() == 0 {
        None
    } else if s.last() == c {
        Some(s.len() - 1)
    } else {
        last_index_of(s.drop_last(), c)
    }
}

pub proof fn lemma_first_index_of(s: Seq<char>, c: char)
    ensures
        match first_index_of(s, c) {
            Some(i) => 0 <= i < s.len() && s[i] == c && forall|j: int| 0 <= j < i ==> s[j] != c,
            None => forall|j: int| 0 <= j < s.len() ==> s[j] != c,
        },
    decreases s.len(),
{
    if s.len() > 0 && s[0] != c {
        lemma_first_index_of(s.drop_first(), c);
        let t = s.drop_first();
        match first_index_of(t, c) {
            Some(i) => {
                assert forall|j: int| 0 <= j < i + 1 implies s[j] != c by {
                    if j > 0 {
                        assert(s[j] == t[j - 1]);
                    }
                }
            },
            None => {
                assert forall|j: int| 0 <= j < s.len() implies s[j] != c by {
                    if j > 0 {
                        assert(s[j] == t[j - 1]);
                    }
                }
            },
        }
    }
}

pub proof fn lemma_last_index_of(s: Seq<char>, c: char)
    ensures
        match last_index_of(s, c) {
            Some(i) => 0 <= i < s.len() && s[i] == c && forall|j: int| i < j < s.len() ==> s[j] != c,
            None => forall|j: int| 0 <= j < s.len() ==> s[j] != c,
        },
    decreases s.len(),
{
    if s.len() > 0 && s.last() != c {
        lemma_last_index_of(s.drop_last(), c);
        let t = s.drop_last();
        match last_index_of(t, c) {
            Some(i) => {
                assert forall|j: int| i < j < s.len() implies s[j] != c by {
                    if j < s.len() - 1 {
                        assert(s[j] == t[j]);
                    }
                }
            },
            None => {
                assert forall|j: int| 0 <= j < s.len() implies s[j] != c by {
                    if j < s.len() - 1 {
                        assert(s[j] == t[j]);
                    }
                }
            },
        }
    }
}

/// Position of the first `c` in `s` (`str::find` with a `char`).
pub fn find_char(s: &[char], c: char) -> (r: Option<usize>)
    ensures
        r matches Some(i) ==> first_index_of(s@, c) == Some(i as int),
        r is None ==> first_index_of(s@, c) is None,
{
    proof {
        lemma_first_index_of(s@, c);
    }
    let mut i: usize = 0;
    while i < s.len()
        invariant
            i <= s@.len(),
            forall|j: int| 0 <= j < i ==> s@[j] != c,
            match first_index_of(s@, c) {
                Some(k) => 0 <= k < s@.len() && s@[k] == c && forall|j: int|
                    0 <= j < k ==> s@[j] != c,
                None => forall|j: int| 0 <= j < s@.len() ==> s@[j] != c,
            },
        decreases s@.len() - i,
    {
        if s[i] == c {
            return Some(i);
        }
        i = i + 1;
    }
    None
}

/// Position of the last `c` in `s` (`str::rfind` with a `char`).
pub fn rfind_char(s: &[char], c: char) -> (r: Option<usize>)
    ensures
        r matches Some(i) ==> last_index_of(s@, c) == Some(i as int),
        r is None ==> last_index_of(s@, c) is None,
{
    proof {
        lemma_last_index_of(s@, c);
    }
    let mut i: usize = s.len();
    while i > 0
        invariant
            i <= s@.len(),
            forall|j: int| i <= j < s@.len() ==> s@[j] != c,
            match last_index_of(s@, c) {
                Some(k) => 0 <= k < s@.len() && s@[k] == c && forall|j: int|
                    k < j < s@.len() ==> s@[j] != c,
                None => forall|j: int| 0 <= j < s@.len() ==> s@[j] != c,
            },
        decreases i,
    {
        if s[i - 1] == c {
            return Some(i - 1);
        }
        i = i - 1;
    }
    None
}

// ---------------------------------------------------------------------------
// Replacement
// ---------------------------------------------------------------------------
/// Replaces every non-overlapping occurrence of `pat` in `s`, scanning from
/// the left, by `rep` (`str::replace`); `pat` is non-empty.
pub open spec fn replace_all(s: Seq<char>, pat: Seq<char>, rep: Seq<char>) -> Seq<char>
    decreases s.len(),
{
    if pat.len() == 0 || s.len() == 0 {
        s
    } else if s.len() >= pat.len() && s.subrange(0, pat.len() as int) == pat {
        rep + replace_all(s.subrange(pat.len() as int, s.len() as int), pat, rep)
    } else {
        seq![s[0]] + replace_all(s.drop_first(), pat, rep)
    }
}

/// `s` with every occurrence of `pat` replaced by `rep`.
pub fn replace_chars(s: &[char], pat: &[char], rep: &[char]) -> (r: Vec<char>)
    requires
        pat@.len() > 0,
    ensures
        r@ == replace_all(s@, pat@, rep@),
{
    let mut out: Vec<char> = Vec::new();
    let mut i: usize = 0;
    proof {
        assert(s@.subrange(0, s@.len() as int) =~= s@);
        assert(out@ + replace_all(s@, pat@, rep@) =~= replace_all(s@, pat@, rep@));
    }
    while i < s.len()
        invariant
            pat@.len() > 0,
            i <= s@.len(),
            out@ + replace_all(s@.subrange(i as int, s@.len() as int), pat@, rep@) == replace_all(
                s@,
                pat@,
                rep@,
            ),
        decreases s@.len() - i,
    {
        let ghost rest = s@.subrange(i as int, s@.len() as int);
        if matches_at(s, pat, i) {
            proof {
                assert(rest.subrange(0, pat@.len() as int) =~= s@.subrange(
                    i as int,
                    i + pat@.len(),
                ));
                assert(rest.subrange(pat@.len() as int, rest.len() as int) =~= s@.subrange(
                    i + pat@.len(),
                    s@.len() as int,
                ));
                assert(out@ + rep@ + replace_all(
                    rest.subrange(pat@.len() as int, rest.len() as int),
                    pat@,
                    rep@,
                ) =~= out@ + (rep@ + replace_all(
                    rest.subrange(pat@.len() as int, rest.len() as int),
                    pat@,
                    rep@,
                )));
            }
            push_all(&mut out, rep);
            i = i + pat.len();
        } else {
            proof {
                if rest.len() >= pat@.len() {
                    assert(rest.subrange(0, pat@.len() as int) =~= s@.subrange(
                        i as int,
                        i + pat@.len(),
                    ));
                }
                assert(rest.drop_first() =~= s@.subrange(i + 1, s@.len() as int));
                assert(rest[0] == s@[i as int]);
                assert(out@.push(s@[i as int]) + replace_all(rest.drop_first(), pat@, rep@) =~= out@
                    + (seq![rest[0]] + replace_all(rest.drop_first(), pat@, rep@)));
            }
            out.push(s[i]);
            i = i + 1;
        }
    }
    proof {
        assert(s@.subrange(s@.len() as int, s@.len() as int).len() == 0);
        assert(out@ + Seq::<char>::empty() =~= out@);
    }
    out
}

/// `s` with every occurrence of the string `pat` replaced by the string `rep`.
pub fn replace_str(s: &[char], pat: &str, rep: &str) -> (r: Vec<char>)
    requires
        pat@.len() > 0,
    ensures
        r@ == replace_all(s@, pat@, rep@),
{
    let p = chars_of(pat);
    let q = chars_of(rep);
    replace_chars(s, &p, &q)
}

// ---------------------------------------------------------------------------
// ASCII case folding
// ---------------------------------------------------------------------------
/// The code of `c` with ASCII upper-case letters folded to lower case.
pub open spec fn ascii_fold(c: char) -> u32 {
    if 'A' <= c && c <= 'Z' {
        (c as u32 + 32) as u32
    } else {
        c as u32
    }
}

/// `str::eq_ignore_ascii_case`.
pub open spec fn eq_ignore_ascii_case(a: Seq<char>, b: Seq<char>) -> bool {
    a.len() == b.len() && forall|i: int| 0 <= i < a.len() ==> ascii_fold(a[i]) == ascii_fold(b[i])
}

fn fold_code(c: char) -> (r: u32)
    ensures
        r == ascii_fold(c),
{
    if 'A' <= c && c <= 'Z' {
        (c as u32) + 32
    } else {
        c as u32
    }
}

/// Whether `a` and `b` are equal up to ASCII case.
pub fn chars_eq_ignore_ascii_case(a: &[char], b: &[char]) -> (r: bool)
    ensures
        r == eq_ignore_ascii_case(a@, b@),
{
    if a.len() != b.len() {
        return false;
    }
    let mut i: usize = 0;
    while i < a.len()
        invariant
            a@.len() == b@.len(),
            i <= a@.len(),
            forall|j: int| 0 <= j < i ==> ascii_fold(a@[j]) == ascii_fold(b@[j]),
        decreases a@.len() - i,
    {
        if fold_code(a[i]) != fold_code(b[i]) {
            return false;
        }
        i = i + 1;
    }
    true
}

// ---------------------------------------------------------------------------
// Lexicographic order
// ---------------------------------------------------------------------------
/// `a <= b` in the order of `Ord for str`: code point by code point, a proper
/// prefix first.
pub open spec fn lex_le(a: Seq<char>, b: Seq<char>) -> bool
    decreases a.len(),
{
    if a.len() == 0 {
        true
    } else if b.len() == 0 {
        false
    } else if a[0] != b[0] {
        (a[0] as int) < (b[0] as int)
    } else {
        lex_le(a.drop_first(), b.drop_first())
    }
}

/// `a <= b` in lexicographic order.
pub fn chars_lex_le(a: &[char], b: &[char]) -> (r: bool)
    ensures
        r == lex_le(a@, b@),
{
    let mut i: usize = 0;
    proof {
        assert(a@.subrange(0, a@.len() as int) =~= a@);
        assert(b@.subrange(0, b@.len() as int) =~= b@);
    }
    while i < a.len() && i < b.len() && a[i] == b[i]
        invariant
            i <= a@.len(),
            i <= b@.len(),
            lex_le(a@, b@) == lex_le(a@.subrange(i as int, a@.len() as int), b@.subrange(
                i as int,
                b@.len() as int,
            )),
        decreases a@.len() - i,
    {
        proof {
            let sa = a@.subrange(i as int, a@.len() as int);
            let sb = b@.subrange(i as int, b@.len() as int);
            assert(sa.drop_first() =~= a@.subrange(i + 1, a@.len() as int));
            assert(sb.drop_first() =~= b@.subrange(i + 1, b@.len() as int));
        }
        i = i + 1;
    }
    let ghost sa = a@.subrange(i as int, a@.len() as int);
    let ghost sb = b@.subrange(i as int, b@.len() as int);
    if i == a.len() {
        assert(sa.len() == 0);
        true
    } else if i == b.len() {
        false
    } else {
        assert(sa[0] == a@[i as int] && sb[0] == b@[i as int]);
        a[i] < b[i]
    }
}

pub proof fn lemma_lex_le_total(a: Seq<char>, b: Seq<char>)
    ensures
        lex_le(a, b) || lex_le(b, a),
    decreases a.len(),
{
    if a.len() > 0 && b.len() > 0 {
        if a[0] == b[0] {
            lemma_lex_le_total(a.drop_first(), b.drop_first());
        } else {
            assert((a[0] as int) != (b[0] as int));
        }
    }
}

pub proof fn lemma_lex_le_transitive(a: Seq<char>, b: Seq<char>, c: Seq<char>)
    requires
        lex_le(a, b),
        lex_le(b, c),
    ensures
        lex_le(a, c),
    decreases a.len(),
{
    if a.len() > 0 && b.len() > 0 && c.len() > 0 && a[0] == b[0] && b[0] == c[0] {
        lemma_lex_le_transitive(a.drop_first(), b.drop_first(), c.drop_first());
    }
}

// ---------------------------------------------------------------------------
// Decimal formatting
// ---------------------------------------------------------------------------
/// The ASCII digit for `d < 10`.
pub open spec fn digit_char(d: int) -> char {
    (48 + d) as char
}

/// Decimal representation of a natural number (`Display` for unsigned integers).
pub open spec fn decimal(n: nat) -> Seq<char>
    decreases n,
{
    if n < 10 {
        seq![digit_char(n as int)]
    } else {
        decimal(n / 10).push(digit_char((n % 10) as int))
    }
}

/// Decimal representation of an integer (`Display` for signed integers).
pub open spec fn signed_decimal(n: int) -> Seq<char> {
    if n < 0 {
        seq!['-'] + decimal((-n) as nat)
    } else {
        decimal(n as nat)
    }
}

fn digit(d: u64) -> (c: char)
    requires
        d < 10,
    ensures
        c == digit_char(d as int),
{
    match d {
        0 => '0',
        1 => '1',
        2 => '2',
        3 => '3',
        4 => '4',
        5 => '5',
        6 => '6',
        7 => '7',
        8 => '8',
        _ => '9',
    }
}

/// Appends the decimal digits of `n` to `out`.
pub fn push_decimal(out: &mut Vec<char>, n: u64)
    ensures
        final(out)@ == old(out)@ + decimal(n as nat),
    decreases n,
{
    if n < 10 {
        out.push(digit(n));
    } else {
        push_decimal(out, n / 10);
        out.push(digit(n % 10));
        proof {
            assert(old(out)@ + decimal((n / 10) as nat) + seq![digit_char((n % 10) as int)]
                =~= old(out)@ + decimal(n as nat));
        }
    }
}

/// Appends the decimal representation of the signed `n` to `out`.
pub fn push_signed_decimal(out: &mut Vec<char>, n: i64)
    ensures
        final(out)@ == old(out)@ + signed_decimal(n as int),
{
    if n < 0 {
        out.push('-');
        let m: u64 = ((-(n + 1)) as u64) + 1;
        push_decimal(out, m);
        proof {
            assert(old(out)@.push('-') + decimal(m as nat) =~= old(out)@ + (seq!['-'] + decimal(
                m as nat,
            )));
        }
    } else {
        push_decimal(out, n as u64);
    }
}

} // verus!
