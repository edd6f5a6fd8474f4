//! The markdown sanitization pipeline: untrusted entry bodies are parsed as
//! markdown (with smart punctuation), emitted as HTML, and passed through an
//! allow-list sanitizer as the final step, so unsanitized content never
//! reaches a caller. The whole pipeline is pure and deterministic.

use vstd::prelude::*;

verus! {

/// The HTML that markdown rendering, with smart punctuation enabled, produces
/// for a text. A fixed function of the text alone.
pub uninterp spec fn html_of(md: Seq<char>) -> Seq<char>;

/// The allow-list sanitization of an HTML text: every element or attribute
/// capable of running script or loading active content is stripped. A fixed
/// function of the text alone.
pub uninterp spec fn clean_of(html: Seq<char>) -> Seq<char>;

/// Relies on `pulldown_cmark::Parser::new_ext` and
/// `pulldown_cmark::html::push_html`: rendering markdown to HTML, with the
/// fixed option set that enables smart punctuation, is a pure function of the
/// input text.
#[verifier::external_body]
fn markdown_html(md: &str) -> (r: String)
    ensures
        r@ == html_of(md@),
{
    let mut options = pulldown_cmark::Options::empty();
    options.insert(pulldown_cmark::Options::ENABLE_SMART_PUNCTUATION);
    let parser = pulldown_cmark::Parser::new_ext(md, options);
    let mut html = String::new();
    pulldown_cmark::html::push_html(&mut html, parser);
    html
}

/// Relies on `ammonia::clean`: sanitizes HTML with ammonia's default
/// conservative allow-list, a pure function of the input text.
#[verifier::external_body]
fn clean_html(html: &str) -> (r: String)
    ensures
        r@ == clean_of(html@),
{
    ammonia::clean(html)
}

/// Sanitizes an HTML text with the allow-list sanitizer alone, without the
/// markdown step.
pub fn sanitize(html: &str) -> (r: String)
    ensures
        r@ == clean_of(html@),
{
    clean_html(html)
}

/// Renders a raw markdown entry body to safe HTML: markdown to HTML first,
/// then the sanitizer as the last step before the text is returned.
pub fn render(raw: &str) -> (r: String)
    ensures
        r@ == clean_of(html_of(raw@)),
{
    let unsafe_html = markdown_html(raw);
    clean_html(unsafe_html.as_str())
}

} // verus!
