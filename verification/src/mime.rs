//! The structure of a MIME message as `mailparse` reads it.
use vstd::prelude::*;

use mailparse::{MailHeaderMap, ParsedMail as MimeMail};

verus! {

// ---------------------------------------------------------------------------
// MIME structure (mailparse)
// ---------------------------------------------------------------------------
/// One part of a MIME message: its content type, whether it is declared an
/// attachment, its decoded body (empty when it cannot be decoded) and its
/// subparts.
#[derive(Debug)]
pub struct MimePart {
    pub mimetype: String,
    pub is_attachment: bool,
    pub body: String,
    pub subparts: Vec<MimePart>,
}

/// The headers that the application reads, decoded, and the part tree.
#[derive(Debug)]
pub struct MimeMessage {
    pub from: Option<String>,
    pub to: Option<String>,
    pub date: Option<String>,
    pub subject: Option<String>,
    pub root: MimePart,
}

#[verifier::external_type_specification]
#[verifier::external_body]
pub struct ExMimeMail<'a>(MimeMail<'a>);

/// What `mailparse::parse_mail` makes of the raw bytes: the `From`, `To`,
/// `Date` and `Subject` values (`get_first_value`) and, for each part, its
/// `ctype.mimetype`, whether its content disposition is `Attachment`, its
/// body (`get_body`, empty on error) and subparts; or the error's text.
pub uninterp spec fn mime_structure(raw: Seq<u8>) -> Result<MimeMessage, Seq<char>>;

/// Copies one parsed part, and its subparts, into a `MimePart`; a field-by-field
/// conversion of mailparse's value, used only by `parse_mime`.
#[verifier::external_body]
fn mime_part_of(part: &MimeMail<'_>) -> MimePart {
    MimePart {
        mimetype: part.ctype.mimetype.clone(),
        is_attachment: part.get_content_disposition().disposition
            == mailparse::DispositionType::Attachment,
        body: part.get_body().unwrap_or_default(),
        subparts: part.subparts.iter().map(|sub| mime_part_of(sub)).collect(),
    }
}

/// Calls `mailparse::parse_mail` on the raw message and reads its headers with
/// `MailHeaderMap::get_first_value`. The outcome is named `mime_structure`
/// of the bytes.
#[verifier::external_body]
pub(crate) fn parse_mime(raw: &[u8]) -> (r: Result<MimeMessage, String>)
    ensures
        match r {
            Ok(m) => mime_structure(raw@) == Ok::<MimeMessage, Seq<char>>(m),
            Err(e) => mime_structure(raw@) == Err::<MimeMessage, Seq<char>>(e@),
        },
{
    match mailparse::parse_mail(raw) {
        Ok(parsed) => Ok(MimeMessage {
            from: parsed.headers.get_first_value("From"),
            to: parsed.headers.get_first_value("To"),
            date: parsed.headers.get_first_value("Date"),
            subject: parsed.headers.get_first_value("Subject"),
            root: mime_part_of(&parsed),
        }),
        Err(e) => Err(e.to_string()),
    }
}

/// What `mailparse::dateparse` gives for a `Date` header value, in Unix seconds.
pub uninterp spec fn rfc2822_timestamp(text: Seq<char>) -> Option<int>;

/// Calls `mailparse::dateparse`; the outcome is named `rfc2822_timestamp`.
#[verifier::external_body]
pub(crate) fn parse_mail_date(text: &str) -> (r: Option<i64>)
    ensures
        r matches Some(t) ==> rfc2822_timestamp(text@) == Some(t as int),
        r is None ==> rfc2822_timestamp(text@) is None,
{
    mailparse::dateparse(text).ok()
}

} // verus!
