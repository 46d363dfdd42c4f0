//! Markdown to HTML. The rendering itself is comrak's; the library decides
//! when it is needed.
use crate::text::{has_prefix, to_chars, trim, trim_bounds, trim_start};
use vstd::prelude::*;

verus! {

/// What comrak renders from `md` with raw HTML allowed and the given GFM
/// extensions (tables, strikethrough, autolinks, task lists) turned on or
/// off.
pub uninterp spec fn comrak_html(
    md: Seq<char>,
    table: bool,
    strikethrough: bool,
    autolink: bool,
    tasklist: bool,
) -> Seq<char>;

/// `comrak::markdown_to_html` with raw HTML allowed (`render.unsafe_`) and
/// the extensions set as given; other options at their defaults. The
/// contract only names the result: comrak's rendering is not restated.
#[verifier::external_body]
fn markdown_to_html(md: &str, table: bool, strikethrough: bool, autolink: bool, tasklist: bool) -> (r: String)
    ensures
        r@ == comrak_html(md@, table, strikethrough, autolink, tasklist),
{
    let mut options = comrak::Options::default();
    options.render.unsafe_ = true;
    options.extension.table = table;
    options.extension.strikethrough = strikethrough;
    options.extension.autolink = autolink;
    options.extension.tasklist = tasklist;
    comrak::markdown_to_html(md, &options)
}

/// comrak's rendering with the GFM extensions a slide uses.
pub open spec fn gfm_html(md: Seq<char>) -> Seq<char> {
    comrak_html(md, true, true, true, true)
}

/// comrak's rendering without extensions.
pub open spec fn plain_html(md: Seq<char>) -> Seq<char> {
    comrak_html(md, false, false, false, false)
}

/// A slide's Markdown as HTML: nothing for blank text, else comrak's GFM
/// rendering.
pub open spec fn markdown_spec(text: Seq<char>) -> Seq<char> {
    if trim(text).len() == 0 {
        seq![]
    } else {
        gfm_html(text)
    }
}

fn is_blank(v: &[char]) -> (b: bool)
    ensures
        b == (trim(v@).len() == 0),
{
    let (a, e) = trim_bounds(v, 0, v.len());
    assert(v@.subrange(0, v@.len() as int) =~= v@);
    a == e
}

/// Renders a slide's Markdown.
pub fn render_markdown(text: &str) -> (r: String)
    ensures
        r@ == markdown_spec(text@),
{
    if is_blank(to_chars(text).as_slice()) {
        String::new()
    } else {
        markdown_to_html(text, true, true, true, true)
    }
}

/// The `monocle-slide` renderer: nothing for blank text, the text itself when it
/// starts (after whitespace) with `<`, else comrak without extensions.
pub open spec fn passthrough_spec(text: Seq<char>) -> Seq<char> {
    if trim(text).len() == 0 {
        seq![]
    } else if has_prefix(trim_start(text), seq!['<']) {
        text
    } else {
        plain_html(text)
    }
}

/// Renders Markdown, passing text that starts with an HTML tag through.
pub fn render_markdown_passthrough(text: &str) -> (r: String)
    ensures
        r@ == passthrough_spec(text@),
{
    let v = to_chars(text);
    if is_blank(v.as_slice()) {
        return String::new();
    }
    let (a, _) = trim_bounds(v.as_slice(), 0, v.len());
    assert(v@.subrange(0, v@.len() as int) =~= v@);
    if a < v.len() && v[a] == '<' {
        assert(trim_start(v@).subrange(0, 1) =~= seq!['<']);
        String::from_str(text)
    } else {
        assert(!has_prefix(trim_start(v@), seq!['<'])) by {
            if has_prefix(trim_start(v@), seq!['<']) {
                assert(trim_start(v@).subrange(0, 1)[0] == '<');
                assert(trim_start(v@)[0] == v@[a as int]);
            }
        }
        markdown_to_html(text, false, false, false, false)
    }
}

} // verus!
