//! Rendering HTML to plain text with `html2text`.
use vstd::prelude::*;

verus! {

/// What `html2text`'s plain configuration renders of an HTML text at the given
/// width (`config::plain().string_from_read`), `None` when it reports an error.
pub uninterp spec fn html_rendering(html: Seq<char>, width: nat) -> Option<Seq<char>>;

/// Calls `html2text::config::plain().string_from_read` on the UTF-8 bytes of
/// `html`. `html2text::from_read`, which the application's rendering stands
/// for, returns the same text and panics where this returns an error. The
/// outcome is named `html_rendering` of the text and the width.
#[verifier::external_body]
fn render_html_plain(html: &str, width: usize) -> (r: Option<String>)
    ensures
        r matches Some(t) ==> html_rendering(html@, width as nat) == Some(t@),
        r is None ==> html_rendering(html@, width as nat) is None,
{
    html2text::config::plain().string_from_read(html.as_bytes(), width).ok()
}

/// The plain text of an HTML text wrapped at `width` columns, if `html2text`
/// can lay it out.
pub fn html_to_text(html: &str, width: usize) -> (r: Option<String>)
    ensures
        r matches Some(t) ==> html_rendering(html@, width as nat) == Some(t@),
        r is None ==> html_rendering(html@, width as nat) is None,
{
    render_html_plain(html, width)
}

} // verus!
