//! Rendering content from CommonMark to HTML.
//!
//! Rendering is a pure function of the content's bytes, but its value
//! is the rendering library's own; it is therefore given a name,
//! `html_of`, and computed in exactly one place.

use vstd::prelude::*;

verus! {

/// The HTML that the CommonMark compiler produces for the given
/// UTF-8 text. The rendering depends on the bytes alone; this names
/// its result rather than restating the whole CommonMark dialect.
pub uninterp spec fn html_of(text: Seq<u8>) -> Seq<u8>;

/// Relies on `markdown::to_html`: compiles CommonMark text to HTML,
/// deterministically, from the input alone, and never errors with
/// the default options.
#[verifier::external_body]
pub(crate) fn render_markdown(text: &Vec<u8>) -> (html: Vec<u8>)
    ensures
        html@ == html_of(text@),
{
    markdown::to_html(&String::from_utf8_lossy(text.as_slice())).into_bytes()
}

} // verus!
