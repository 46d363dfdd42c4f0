//! Assembling the presentation page: every slide rendered, the client
//! scripts of script layouts (each once), the framework CSS and JS, and the
//! HTML document around them.
use crate::assets::{file_text, pair_views, AssetBundle};
use crate::deck::{slide_views, Slide, SlideView};
use crate::render::{
    builtin_path, first_attr, last_text, local_after, slide_html, slide_layout, template_layout,
    theme_layout, triple_views, LayoutSet,
};
use crate::text::{
    find, find_exec, has_prefix, lines, lines_exec, push_all, push_range, slice, spairs, to_chars,
    to_string, to_char_pairs, trim, trim_bounds, views,
};
use crate::theme::{guard_spec, iife_close, iife_open, LoadedTheme, ThemeSpec};
use vstd::prelude::*;

verus! {

/// Rendered slides: the HTML to inline, and the client-side JS that
/// script layouts need.
pub struct RenderedSlides {
    pub html: String,
    pub client_js: String,
}

impl Default for RenderedSlides {
    /// Nothing rendered yet.
    fn default() -> (r: Self)
        ensures
            r.html@ == Seq::<char>::empty(),
            r.client_js@ == Seq::<char>::empty(),
    {
        RenderedSlides { html: String::new(), client_js: String::new() }
    }
}

/// `s` with every occurrence of `from` replaced by `to`, left to right
/// (`str::replace`, for a non-empty `from`).
pub open spec fn replace_all(s: Seq<char>, from: Seq<char>, to: Seq<char>) -> Seq<char>
    decreases s.len(),
{
    if from.len() == 0 {
        s
    } else {
        match find(s, from) {
            None => s,
            Some(k) => {
                proof {
                    crate::text::lemma_find_some(s, from, 0);
                }
                s.subrange(0, k) + to + replace_all(
                    s.subrange(k + from.len(), s.len() as int),
                    from,
                    to,
                )
            },
        }
    }
}

pub(crate) fn replace_all_exec(s: &[char], from: &[char], to: &[char]) -> (r: Vec<char>)
    requires
        from@.len() > 0,
    ensures
        r@ == replace_all(s@, from@, to@),
{
    let n = s.len();
    let mut out: Vec<char> = Vec::new();
    let mut pos: usize = 0;
    assert(s@.subrange(0, n as int) =~= s@);
    assert(out@ + replace_all(s@, from@, to@) =~= replace_all(s@, from@, to@));
    loop
        invariant
            n == s@.len(),
            from@.len() > 0,
            0 <= pos <= n,
            out@ + replace_all(s@.subrange(pos as int, n as int), from@, to@) == replace_all(
                s@,
                from@,
                to@,
            ),
        decreases n - pos,
    {
        let ghost rest = s@.subrange(pos as int, n as int);
        let ghost before = out@;
        proof {
            crate::text::lemma_find_shift(s@, from@, pos as int);
        }
        match find_exec(s, from, pos) {
            None => {
                push_range(&mut out, s, pos, n);
                return out;
            },
            Some(k) => {
                push_range(&mut out, s, pos, k);
                push_all(&mut out, to);
                proof {
                    assert(rest.subrange(0, k - pos) =~= s@.subrange(pos as int, k as int));
                    assert(rest.subrange(k - pos + from@.len(), rest.len() as int) =~= s@.subrange(
                        k + from@.len(),
                        n as int,
                    ));
                    assert(before + replace_all(rest, from@, to@) =~= out@ + replace_all(
                        s@.subrange(k + from@.len(), n as int),
                        from@,
                        to@,
                    ));
                }
                pos = k + from.len();
            },
        }
    }
}

/// `layout`, `watermark`, `footer`.
pub open spec fn key_layout() -> Seq<char> {
    seq!['l', 'a', 'y', 'o', 'u', 't']
}

pub open spec fn key_watermark() -> Seq<char> {
    seq!['w', 'a', 't', 'e', 'r', 'm', 'a', 'r', 'k']
}

pub open spec fn key_footer() -> Seq<char> {
    seq!['f', 'o', 'o', 't', 'e', 'r']
}

/// The entries of `fm` other than `layout`.
pub open spec fn without_layout(fm: Seq<(Seq<char>, Seq<char>)>) -> Seq<(Seq<char>, Seq<char>)> {
    fm.filter(|p: (Seq<char>, Seq<char>)| p.0 != key_layout())
}

/// The attributes a slide's layout receives: its frontmatter without
/// `layout`, plus the deck-wide watermark and footer where the slide sets
/// none.
pub open spec fn slide_attrs(
    fm: Seq<(Seq<char>, Seq<char>)>,
    gw: Seq<char>,
    gf: Seq<char>,
) -> Seq<(Seq<char>, Seq<char>)> {
    let a = without_layout(fm);
    let a = if gw.len() > 0 && file_text(fm, key_watermark()) is None {
        a.push((key_watermark(), gw))
    } else {
        a
    };
    if gf.len() > 0 && file_text(fm, key_footer()) is None {
        a.push((key_footer(), gf))
    } else {
        a
    }
}

/// The layout name a slide asks for.
pub open spec fn slide_layout_name(s: SlideView) -> Seq<char> {
    match file_text(s.frontmatter, key_layout()) {
        Some(l) => l,
        None => "slide-default"@,
    }
}

pub open spec fn import_up() -> Seq<char> {
    "import { SlideBase } from '../slide-base.js';"@
}

pub open spec fn import_here() -> Seq<char> {
    "import { SlideBase } from './slide-base.js';"@
}

/// What a script layout's source adds to the client JS.
pub open spec fn client_script(js: Seq<char>) -> Seq<char> {
    iife_open() + guard_spec(replace_all(replace_all(js, import_up(), seq![]), import_here(), seq![]))
        + iife_close() + seq!['\n']
}

/// Rendering slides `ss` from `i` on, having emitted `html` and `js` so far
/// with script layouts `seen` already inlined: the final HTML and JS.
#[verifier::opaque]
pub open spec fn render_from_slide(
    ss: Seq<SlideView>,
    i: int,
    gm: Seq<(Seq<char>, Seq<char>)>,
    layouts: LayoutSet,
    base: Option<Seq<char>>,
    seen: Seq<Seq<char>>,
    html: Seq<char>,
    js: Seq<char>,
) -> (Seq<char>, Seq<char>)
    decreases ss.len() - i,
{
    if i < 0 || i >= ss.len() {
        (html, js)
    } else {
        let s = ss[i];
        let name = slide_layout_name(s);
        let attrs = slide_attrs(
            s.frontmatter,
            first_attr(gm, key_watermark()),
            first_attr(gm, key_footer()),
        );
        let r = slide_html(name, attrs, s.slots, s.body_html, (i + 1) as nat, ss.len(), layouts);
        let html2 = html + r.0 + seq!['\n'];
        match r.1 {
            Some(src) => if seen.contains(name) {
                render_from_slide(ss, i + 1, gm, layouts, base, seen, html2, js)
            } else {
                let js2 = js + (if seen.len() == 0 {
                    match base {
                        Some(b) => b + seq!['\n'],
                        None => seq![],
                    }
                } else {
                    seq![]
                }) + client_script(src);
                render_from_slide(ss, i + 1, gm, layouts, base, seen.push(name), html2, js2)
            },
            None => render_from_slide(ss, i + 1, gm, layouts, base, seen, html2, js),
        }
    }
}

/// The rendered deck: each slide's HTML followed by a newline; the shared
/// `slide-base.js` (when there is one) and then each script layout's source,
/// once per layout, in order of first use.
pub open spec fn render_all_spec(
    ss: Seq<SlideView>,
    gm: Seq<(Seq<char>, Seq<char>)>,
    layouts: LayoutSet,
    assets: Seq<(Seq<char>, Seq<char>)>,
) -> (Seq<char>, Seq<char>) {
    render_from_slide(ss, 0, gm, layouts, file_text(assets, "slide-base.js"@), seq![], seq![], seq![])
}

proof fn lemma_render_step(
    ss: Seq<SlideView>,
    i: int,
    gm: Seq<(Seq<char>, Seq<char>)>,
    layouts: LayoutSet,
    base: Option<Seq<char>>,
    seen: Seq<Seq<char>>,
    html: Seq<char>,
    js: Seq<char>,
    r: (Seq<char>, Option<Seq<char>>),
)
    requires
        0 <= i < ss.len(),
        r == slide_html(
            slide_layout_name(ss[i]),
            slide_attrs(ss[i].frontmatter, first_attr(gm, key_watermark()), first_attr(gm, key_footer())),
            ss[i].slots,
            ss[i].body_html,
            (i + 1) as nat,
            ss.len(),
            layouts,
        ),
    ensures
        render_from_slide(ss, i, gm, layouts, base, seen, html, js) == match r.1 {
            Some(src) => if seen.contains(slide_layout_name(ss[i])) {
                render_from_slide(ss, i + 1, gm, layouts, base, seen, html + r.0 + seq!['\n'], js)
            } else {
                render_from_slide(
                    ss,
                    i + 1,
                    gm,
                    layouts,
                    base,
                    seen.push(slide_layout_name(ss[i])),
                    html + r.0 + seq!['\n'],
                    js + (if seen.len() == 0 {
                        match base {
                            Some(b) => b + seq!['\n'],
                            None => seq![],
                        }
                    } else {
                        seq![]
                    }) + client_script(src),
                )
            },
            None => render_from_slide(ss, i + 1, gm, layouts, base, seen, html + r.0 + seq!['\n'], js),
        },
{
    reveal(render_from_slide);
}

proof fn lemma_render_done(
    ss: Seq<SlideView>,
    i: int,
    gm: Seq<(Seq<char>, Seq<char>)>,
    layouts: LayoutSet,
    base: Option<Seq<char>>,
    seen: Seq<Seq<char>>,
    html: Seq<char>,
    js: Seq<char>,
)
    requires
        i >= ss.len(),
    ensures
        render_from_slide(ss, i, gm, layouts, base, seen, html, js) == (html, js),
{
    reveal(render_from_slide);
}

fn seen_contains(seen: &Vec<Vec<char>>, name: &[char]) -> (b: bool)
    ensures
        b == views(seen@).contains(name@),
{
    let mut i: usize = 0;
    while i < seen.len()
        invariant
            0 <= i <= seen@.len(),
            forall|j: int| 0 <= j < i ==> views(seen@)[j] != name@,
        decreases seen@.len() - i,
    {
        if crate::text::chars_eq(seen[i].as_slice(), name) {
            assert(views(seen@)[i as int] == name@);
            return true;
        }
        i = i + 1;
    }
    false
}

fn slide_attrs_exec(slide: &Slide, gw: &Vec<char>, gf: &Vec<char>) -> (r: Vec<(String, String)>)
    ensures
        spairs(r@) == slide_attrs(slide.view().frontmatter, gw@, gf@),
{
    let ghost fm = slide.view().frontmatter;
    let ghost pred = |p: (Seq<char>, Seq<char>)| p.0 != key_layout();
    let lay: Vec<char> = vec!['l', 'a', 'y', 'o', 'u', 't'];
    assert(lay@ =~= key_layout());
    let mut attrs: Vec<(String, String)> = Vec::new();
    let mut i: usize = 0;
    while i < slide.frontmatter.len()
        invariant
            fm == slide.view().frontmatter,
            lay@ == key_layout(),
            pred == (|p: (Seq<char>, Seq<char>)| p.0 != key_layout()),
            0 <= i <= fm.len(),
            spairs(attrs@) == fm.take(i as int).filter(pred),
        decreases fm.len() - i,
    {
        let k = to_chars(slide.frontmatter[i].0.as_str());
        let ghost before = spairs(attrs@);
        assert(fm[i as int] == (slide.frontmatter@[i as int].0@, slide.frontmatter@[i as int].1@));
        if !crate::text::chars_eq(k.as_slice(), lay.as_slice()) {
            let a = String::from_str(slide.frontmatter[i].0.as_str());
            let b = String::from_str(slide.frontmatter[i].1.as_str());
            attrs.push((a, b));
            assert(spairs(attrs@) =~= before.push(fm[i as int]));
        }
        proof {
            reveal_with_fuel(Seq::<_>::filter, 1);
            assert(fm.take(i + 1).drop_last() =~= fm.take(i as int));
            assert(fm.take(i + 1).last() == fm[i as int]);
        }
        i = i + 1;
    }
    assert(fm.take(fm.len() as int) =~= fm);
    proof {
        reveal_strlit("watermark");
        reveal_strlit("footer");
        assert("watermark"@ =~= key_watermark());
        assert("footer"@ =~= key_footer());
    }
    if gw.len() > 0 && crate::deck::get_fm(slide, "watermark").is_none() {
        let ghost before = spairs(attrs@);
        let w = to_string(gw.as_slice());
        attrs.push((String::from_str("watermark"), w));
        assert(spairs(attrs@) =~= before.push((key_watermark(), gw@)));
    }
    if gf.len() > 0 && crate::deck::get_fm(slide, "footer").is_none() {
        let ghost before = spairs(attrs@);
        let f = to_string(gf.as_slice());
        attrs.push((String::from_str("footer"), f));
        assert(spairs(attrs@) =~= before.push((key_footer(), gf@)));
    }
    attrs
}

/// Renders every slide and collects the client JS of script layouts.
pub fn render_all_slides(
    slides: &[Slide],
    global_meta: &[(String, String)],
    layouts: &LayoutSet,
    assets: &AssetBundle,
) -> (r: RenderedSlides)
    ensures
        (r.html@, r.client_js@) == render_all_spec(
            slide_views(slides@),
            spairs(global_meta@),
            *layouts,
            assets.files(),
        ),
{
    let ghost ss = slide_views(slides@);
    let ghost gm = spairs(global_meta@);
    proof {
        reveal_strlit("watermark");
        reveal_strlit("footer");
        assert("watermark"@ =~= key_watermark());
        assert("footer"@ =~= key_footer());
        assert(crate::assets::pair_views(global_meta@) =~= gm);
    }
    let gw = crate::render::first_attr_chars(global_meta, "watermark");
    let gf = crate::render::first_attr_chars(global_meta, "footer");
    let base_name = to_chars("slide-base.js");
    let base: Option<&String> = assets.get(base_name.as_slice());
    let ghost bv = file_text(assets.files(), "slide-base.js"@);
    let up = to_chars("import { SlideBase } from '../slide-base.js';");
    let here = to_chars("import { SlideBase } from './slide-base.js';");
    proof {
        reveal_strlit("import { SlideBase } from '../slide-base.js';");
        reveal_strlit("import { SlideBase } from './slide-base.js';");
    }
    let total = slides.len();
    let mut html: Vec<char> = Vec::new();
    let mut js: Vec<char> = Vec::new();
    let mut seen: Vec<Vec<char>> = Vec::new();
    let mut i: usize = 0;
    assert(views(seen@) =~= Seq::<Seq<char>>::empty());
    while i < total
        invariant
            total == slides@.len(),
            ss == slide_views(slides@),
            gm == spairs(global_meta@),
            gw@ == first_attr(gm, key_watermark()),
            gf@ == first_attr(gm, key_footer()),
            match base {
                Some(b) => bv == Some(b@),
                None => bv is None,
            },
            up@ == import_up(),
            here@ == import_here(),
            up@.len() > 0,
            here@.len() > 0,
            0 <= i <= total,
            render_all_spec(ss, gm, *layouts, assets.files()) == render_from_slide(
                ss,
                i as int,
                gm,
                *layouts,
                bv,
                views(seen@),
                html@,
                js@,
            ),
        decreases total - i,
    {
        let slide = &slides[i];
        assert(ss[i as int] == slide.view());
        let name = match crate::deck::get_fm(slide, "layout") {
            Some(l) => l,
            None => String::from_str("slide-default"),
        };
        proof {
            reveal_strlit("layout");
            assert("layout"@ =~= key_layout());
        }
        assert(name@ == slide_layout_name(slide.view()));
        let attrs = slide_attrs_exec(slide, &gw, &gf);
        let (shtml, maybe_js) = crate::render::render_slide(
            name.as_str(),
            attrs.as_slice(),
            slide.slots.as_slice(),
            slide.body_html.as_str(),
            i + 1,
            total,
            layouts,
        );
        proof {
            lemma_render_step(
                ss,
                i as int,
                gm,
                *layouts,
                bv,
                views(seen@),
                html@,
                js@,
                slide_html(
                    name@,
                    spairs(attrs@),
                    spairs(slide.slots@),
                    slide.body_html@,
                    (i + 1) as nat,
                    total as nat,
                    *layouts,
                ),
            );
        }
        let ghost html0 = html@;
        let ghost js0 = js@;
        let ghost seen0 = views(seen@);
        push_all(&mut html, to_chars(shtml.as_str()).as_slice());
        html.push('\n');
        assert(html@ =~= html0 + shtml@ + seq!['\n']);
        let nm = to_chars(name.as_str());
        match maybe_js {
            Some(src) => {
                if !seen_contains(&seen, nm.as_slice()) {
                    let ghost sv = views(seen@);
                    seen.push(nm);
                    assert(views(seen@) =~= sv.push(name@));
                    if seen.len() == 1 {
                        match base {
                            Some(b) => {
                                push_all(&mut js, to_chars(b.as_str()).as_slice());
                                js.push('\n');
                            },
                            None => {},
                        }
                    }
                    let s0 = to_chars(src.as_str());
                    let empty: Vec<char> = Vec::new();
                    let s1 = replace_all_exec(s0.as_slice(), up.as_slice(), empty.as_slice());
                    let s2 = replace_all_exec(s1.as_slice(), here.as_slice(), empty.as_slice());
                    let mut g: Vec<char> = Vec::new();
                    crate::theme::guard_chars(s2.as_slice(), &mut g);
                    crate::theme::wrap_in_iife_chars(g.as_slice(), &mut js);
                    js.push('\n');
                    assert(js@ =~= js0 + (if seen0.len() == 0 {
                        match bv {
                            Some(b) => b + seq!['\n'],
                            None => seq![],
                        }
                    } else {
                        seq![]
                    }) + client_script(src@));
                }
            },
            None => {},
        }
        i = i + 1;
    }
    proof {
        lemma_render_done(ss, i as int, gm, *layouts, bv, views(seen@), html@, js@);
    }
    RenderedSlides { html: to_string(html.as_slice()), client_js: to_string(js.as_slice()) }
}


/// What the presentation page is assembled from.
pub struct HtmlOptions<'a> {
    pub title: &'a str,
    pub slides_html: &'a str,
    pub framework_css: &'a str,
    pub framework_js: &'a str,
    pub client_js: &'a str,
    pub theme_css: Option<&'a str>,
    pub user_css: Option<&'a str>,
}

/// The text of an optional string.
pub open spec fn opt_text(o: Option<&str>) -> Option<Seq<char>> {
    match o {
        Some(s) => Some(s@),
        None => None,
    }
}

/// `<style data-source="theme">css</style>`, or nothing without a theme.
pub open spec fn theme_style_tag(css: Option<Seq<char>>) -> Seq<char> {
    match css {
        Some(c) => "<style data-source=\"theme\">"@ + c + "</style>"@,
        None => seq![],
    }
}

/// `<style data-source="user">css</style>`, or nothing without user CSS.
pub open spec fn user_style_tag(css: Option<Seq<char>>) -> Seq<char> {
    match css {
        Some(c) => "<style data-source=\"user\">"@ + c + "</style>"@,
        None => seq![],
    }
}

/// A module script holding `js`, or nothing when `js` is empty.
pub open spec fn client_script_tag(js: Seq<char>) -> Seq<char> {
    if js.len() == 0 {
        seq![]
    } else {
        "<script type=\"module\">"@ + js + "</script>"@
    }
}

pub open spec fn page_head() -> Seq<char> {
    "<!DOCTYPE html>\n<html lang=\"ko\">\n<head>\n  <meta charset=\"utf-8\">\n  <meta name=\"viewport\" content=\"width=device-width, initial-scale=1\">\n  <title>"@
}

pub open spec fn page_style_open() -> Seq<char> {
    "</title>\n  <style>"@
}

pub open spec fn page_style_close() -> Seq<char> {
    "</style>\n  "@
}

pub open spec fn page_tag_sep() -> Seq<char> {
    "\n  "@
}

pub open spec fn page_body_open() -> Seq<char> {
    "\n</head>\n<body>\n  <div id=\"monocle-slide-deck\">\n    <div class=\"ms-viewport\">\n"@
}

pub open spec fn page_body_mid() -> Seq<char> {
    "\n    </div>\n  </div>\n  "@
}

pub open spec fn page_script_open() -> Seq<char> {
    "\n  <script>"@
}

pub open spec fn page_end() -> Seq<char> {
    "</script>\n</body>\n</html>"@
}

/// The whole HTML document of a presentation.
pub open spec fn index_html(
    title: Seq<char>,
    slides_html: Seq<char>,
    framework_css: Seq<char>,
    framework_js: Seq<char>,
    client_js: Seq<char>,
    theme_css: Option<Seq<char>>,
    user_css: Option<Seq<char>>,
) -> Seq<char> {
    page_head() + title + page_style_open() + framework_css + page_style_close()
        + theme_style_tag(theme_css) + page_tag_sep() + user_style_tag(user_css)
        + page_body_open() + slides_html + page_body_mid() + client_script_tag(client_js)
        + page_script_open() + framework_js + page_end()
}

pub(crate) fn push_str_chars(out: &mut Vec<char>, s: &str)
    ensures
        final(out)@ == old(out)@ + s@,
{
    push_all(out, to_chars(s).as_slice());
}

/// The HTML document that shows the rendered slides.
pub fn build_index_html(opts: &HtmlOptions) -> (r: String)
    ensures
        r@ == index_html(
            opts.title@,
            opts.slides_html@,
            opts.framework_css@,
            opts.framework_js@,
            opts.client_js@,
            opt_text(opts.theme_css),
            opt_text(opts.user_css),
        ),
{
    let mut out: Vec<char> = Vec::new();
    push_str_chars(&mut out, "<!DOCTYPE html>\n<html lang=\"ko\">\n<head>\n  <meta charset=\"utf-8\">\n  <meta name=\"viewport\" content=\"width=device-width, initial-scale=1\">\n  <title>");
    push_str_chars(&mut out, opts.title);
    push_str_chars(&mut out, "</title>\n  <style>");
    push_str_chars(&mut out, opts.framework_css);
    push_str_chars(&mut out, "</style>\n  ");
    let ghost a = out@;
    match opts.theme_css {
        Some(css) => {
            push_str_chars(&mut out, "<style data-source=\"theme\">");
            push_str_chars(&mut out, css);
            push_str_chars(&mut out, "</style>");
        },
        None => {},
    }
    assert(out@ =~= a + theme_style_tag(opt_text(opts.theme_css)));
    push_str_chars(&mut out, "\n  ");
    let ghost b = out@;
    match opts.user_css {
        Some(css) => {
            push_str_chars(&mut out, "<style data-source=\"user\">");
            push_str_chars(&mut out, css);
            push_str_chars(&mut out, "</style>");
        },
        None => {},
    }
    assert(out@ =~= b + user_style_tag(opt_text(opts.user_css)));
    push_str_chars(&mut out, "\n</head>\n<body>\n  <div id=\"monocle-slide-deck\">\n    <div class=\"ms-viewport\">\n");
    push_str_chars(&mut out, opts.slides_html);
    push_str_chars(&mut out, "\n    </div>\n  </div>\n  ");
    let ghost c = out@;
    let cjs = to_chars(opts.client_js);
    if cjs.len() > 0 {
        push_str_chars(&mut out, "<script type=\"module\">");
        push_all(&mut out, cjs.as_slice());
        push_str_chars(&mut out, "</script>");
    }
    assert(out@ =~= c + client_script_tag(opts.client_js@));
    push_str_chars(&mut out, "\n  <script>");
    push_str_chars(&mut out, opts.framework_js);
    push_str_chars(&mut out, "</script>\n</body>\n</html>");
    to_string(out.as_slice())
}

/// A framework file's text followed by a newline, or nothing when the
/// bundle lacks it.
pub open spec fn file_line(fs: Seq<(Seq<char>, Seq<char>)>, path: Seq<char>) -> Seq<char> {
    match file_text(fs, path) {
        Some(t) => t + seq!['\n'],
        None => seq![],
    }
}

/// The framework style sheets `theme.css`, `utilities.css`, `print.css`, in
/// that order, each followed by a newline.
pub open spec fn framework_css_spec(fs: Seq<(Seq<char>, Seq<char>)>) -> Seq<char> {
    file_line(fs, "theme.css"@) + file_line(fs, "utilities.css"@) + file_line(fs, "print.css"@)
}

pub(crate) fn push_file_line(out: &mut Vec<char>, assets: &AssetBundle, path: &str)
    ensures
        final(out)@ == old(out)@ + file_line(assets.files(), path@),
{
    let p = to_chars(path);
    match assets.get(p.as_slice()) {
        Some(t) => {
            push_all(out, to_chars(t.as_str()).as_slice());
            out.push('\n');
        },
        None => {},
    }
}

/// The framework CSS inlined into the page.
pub fn collect_framework_css(assets: &AssetBundle) -> (r: String)
    ensures
        r@ == framework_css_spec(assets.files()),
{
    let mut out: Vec<char> = Vec::new();
    push_file_line(&mut out, assets, "theme.css");
    push_file_line(&mut out, assets, "utilities.css");
    push_file_line(&mut out, assets, "print.css");
    assert(out@ =~= framework_css_spec(assets.files()));
    to_string(out.as_slice())
}

/// The lines that do not start with `import `, each followed by a newline.
pub open spec fn non_import_lines(ls: Seq<Seq<char>>) -> Seq<char>
    decreases ls.len(),
{
    if ls.len() == 0 {
        seq![]
    } else {
        non_import_lines(ls.drop_last()) + if has_prefix(ls.last(), "import "@) {
            seq![]
        } else {
            ls.last() + seq!['\n']
        }
    }
}

/// `monocle-slide.js` without its `import` lines, or nothing when the bundle
/// lacks it.
pub open spec fn framework_js_spec(fs: Seq<(Seq<char>, Seq<char>)>) -> Seq<char> {
    match file_text(fs, "monocle-slide.js"@) {
        Some(t) => non_import_lines(lines(t)),
        None => seq![],
    }
}

/// The framework script inlined into the page.
pub fn collect_framework_js(assets: &AssetBundle) -> (r: String)
    ensures
        r@ == framework_js_spec(assets.files()),
{
    let p = to_chars("monocle-slide.js");
    match assets.get(p.as_slice()) {
        Some(t) => {
            let ls = lines_exec(to_chars(t.as_str()).as_slice());
            let kw = to_chars("import ");
            let mut out: Vec<char> = Vec::new();
            let mut i: usize = 0;
            while i < ls.len()
                invariant
                    0 <= i <= ls@.len(),
                    kw@ == "import "@,
                    out@ == non_import_lines(views(ls@).take(i as int)),
                decreases ls@.len() - i,
            {
                let line = &ls[i];
                let imp = crate::text::starts_with_at(line.as_slice(), 0, line.len(), kw.as_slice());
                assert(line@.subrange(0, line@.len() as int) =~= line@);
                if !imp {
                    push_all(&mut out, line.as_slice());
                    out.push('\n');
                }
                assert(views(ls@).take(i + 1).drop_last() =~= views(ls@).take(i as int));
                i = i + 1;
            }
            assert(views(ls@).take(ls@.len() as int) =~= views(ls@));
            to_string(out.as_slice())
        },
        None => String::new(),
    }
}

/// The file name has the extension `css`, as `Path::extension` reads it:
/// the text after the last `.`, where that `.` does not start the name.
pub open spec fn has_css_ext(name: Seq<char>) -> bool {
    match crate::theme::rfind(name, '.') {
        Some(k) => k > 0 && name.subrange(k + 1, name.len() as int) == "css"@,
        None => false,
    }
}

/// The user style sheets among `files` (name and text, in name order),
/// each followed by a newline.
pub open spec fn user_css_text(files: Seq<(Seq<char>, Seq<char>)>) -> Seq<char>
    decreases files.len(),
{
    if files.len() == 0 {
        seq![]
    } else {
        user_css_text(files.drop_last()) + if has_css_ext(files.last().0) {
            files.last().1 + seq!['\n']
        } else {
            seq![]
        }
    }
}

/// The deck's own CSS from the files of its `styles` directory (name and
/// text, sorted by name): the `.css` ones concatenated, or `None` when that
/// is empty.
pub fn assemble_user_css(files: &[(String, String)]) -> (r: Option<String>)
    ensures
        match r {
            Some(c) => c@ == user_css_text(spairs(files@)) && c@.len() > 0,
            None => user_css_text(spairs(files@)).len() == 0,
        },
{
    let ghost fs = spairs(files@);
    let mut out: Vec<char> = Vec::new();
    let mut i: usize = 0;
    while i < files.len()
        invariant
            fs == spairs(files@),
            0 <= i <= fs.len(),
            out@ == user_css_text(fs.take(i as int)),
        decreases fs.len() - i,
    {
        let name = to_chars(files[i].0.as_str());
        let n = name.len();
        let is_css = match crate::theme::rfind_exec(name.as_slice(), '.') {
            Some(k) => {
                let css = to_chars("css");
                assert(k < n);
                let ext = slice(name.as_slice(), k + 1, n);
                k > 0 && crate::text::chars_eq(ext.as_slice(), css.as_slice())
            },
            None => false,
        };
        assert(is_css == has_css_ext(fs[i as int].0));
        if is_css {
            push_all(&mut out, to_chars(files[i].1.as_str()).as_slice());
            out.push('\n');
        }
        assert(fs.take(i + 1).drop_last() =~= fs.take(i as int));
        i = i + 1;
    }
    assert(fs.take(fs.len() as int) =~= fs);
    if out.len() == 0 {
        None
    } else {
        Some(to_string(out.as_slice()))
    }
}

/// The deck file in a directory: `slides.md` where there is one, else
/// `index.md`.
pub fn slides_file_name(has_slides_md: bool) -> (r: String)
    ensures
        r@ == if has_slides_md {
            "slides.md"@
        } else {
            "index.md"@
        },
{
    if has_slides_md {
        String::from_str("slides.md")
    } else {
        String::from_str("index.md")
    }
}

/// The deck's title: its `title`, or `WB Slide`.
pub open spec fn deck_title_spec(gm: Seq<(Seq<char>, Seq<char>)>) -> Seq<char> {
    match file_text(gm, "title"@) {
        Some(t) => t,
        None => "WB Slide"@,
    }
}

/// The deck's title.
pub fn deck_title(global_meta: &[(String, String)]) -> (r: String)
    ensures
        r@ == deck_title_spec(spairs(global_meta@)),
{
    proof {
        assert(crate::assets::pair_views(global_meta@) =~= spairs(global_meta@));
    }
    match crate::assets::meta_value(global_meta, "title") {
        Some(t) => t,
        None => String::from_str("WB Slide"),
    }
}

/// The theme a deck asks for in its `theme` key, if any.
pub fn deck_theme(global_meta: &[(String, String)]) -> (r: Option<ThemeSpec>)
    ensures
        match r {
            Some(ThemeSpec::Url(u)) => file_text(spairs(global_meta@), "theme"@) == Some(u@)
                && crate::theme::is_http_url(u@),
            Some(ThemeSpec::Name(n)) => file_text(spairs(global_meta@), "theme"@) == Some(n@)
                && !crate::theme::is_http_url(n@),
            None => file_text(spairs(global_meta@), "theme"@) is None,
        },
{
    proof {
        assert(crate::assets::pair_views(global_meta@) =~= spairs(global_meta@));
    }
    match crate::assets::meta_value(global_meta, "theme") {
        Some(v) => Some(ThemeSpec::parse(v.as_str())),
        None => None,
    }
}

/// The layouts a deck can use: the framework's built-ins, the theme's, and
/// the deck's own files (stem, extension, text), by precedence.
pub fn build_layouts(
    assets: &AssetBundle,
    theme: Option<&LoadedTheme>,
    local: &Vec<(String, String, String)>,
) -> (r: LayoutSet)
    ensures
        forall|k: Seq<char>|
            #[trigger] r.local_layout(k) == local_after(triple_views(local@), None, k),
        forall|k: Seq<char>|
            #[trigger] r.theme_layout(k) == match theme {
                Some(t) => match last_text(pair_views(t.layouts@), k) {
                    Some(src) => Some(theme_layout(k, src)),
                    None => None,
                },
                None => None,
            },
        forall|k: Seq<char>|
            #[trigger] r.builtin_layout(k) == match last_text(assets.files(), builtin_path(k)) {
                Some(src) => Some(template_layout(k, src)),
                None => None,
            },
{
    let mut set = LayoutSet::new();
    set.load_builtin(assets);
    match theme {
        Some(t) => set.load_theme(t),
        None => {},
    }
    set.load_local(local);
    set
}

/// The presentation page of a parsed deck.
pub fn assemble_page(
    global_meta: &[(String, String)],
    slides: &[Slide],
    layouts: &LayoutSet,
    theme_css: Option<&str>,
    user_css: Option<&str>,
    assets: &AssetBundle,
) -> (r: String)
    ensures
        r@ == index_html(
            deck_title_spec(spairs(global_meta@)),
            render_all_spec(slide_views(slides@), spairs(global_meta@), *layouts, assets.files()).0,
            framework_css_spec(assets.files()),
            framework_js_spec(assets.files()),
            render_all_spec(slide_views(slides@), spairs(global_meta@), *layouts, assets.files()).1,
            opt_text(theme_css),
            opt_text(user_css),
        ),
{
    let title = deck_title(global_meta);
    let rendered = render_all_slides(slides, global_meta, layouts, assets);
    let framework_css = collect_framework_css(assets);
    let framework_js = collect_framework_js(assets);
    let opts = HtmlOptions {
        title: title.as_str(),
        slides_html: rendered.html.as_str(),
        framework_css: framework_css.as_str(),
        framework_js: framework_js.as_str(),
        client_js: rendered.client_js.as_str(),
        theme_css,
        user_css,
    };
    build_index_html(&opts)
}

/// The content type a served file is sent with.
pub fn content_type(path: &str) -> (r: String)
    ensures
        r@ == crate::embed::guessed_mime(path@),
{
    crate::embed::mime_for_path(path)
}

// ---------------------------------------------------------------------------
// Laws
// ---------------------------------------------------------------------------

proof fn lemma_without_layout_lookup(fm: Seq<(Seq<char>, Seq<char>)>, k: Seq<char>)
    ensures
        k != key_layout() ==> file_text(without_layout(fm), k) == file_text(fm, k),
        file_text(without_layout(fm), key_layout()) is None,
    decreases fm.len(),
{
    let pred = |p: (Seq<char>, Seq<char>)| p.0 != key_layout();
    if fm.len() == 0 {
        crate::assets::lemma_file_text_absent(without_layout(fm), k);
        crate::assets::lemma_file_text_absent(without_layout(fm), key_layout());
    } else {
        let d = fm.drop_last();
        let x = fm.last();
        lemma_without_layout_lookup(d, k);
        assert(fm =~= d.push(x));
        reveal_with_fuel(Seq::<_>::filter, 1);
        assert(without_layout(fm) == if pred(x) {
            without_layout(d).push(x)
        } else {
            without_layout(d)
        });
        crate::assets::lemma_file_text_push(d, x, k);
        if pred(x) {
            crate::assets::lemma_file_text_push(without_layout(d), x, k);
            crate::assets::lemma_file_text_push(without_layout(d), x, key_layout());
        }
    }
}

/// Deck-wide defaults: every frontmatter key other than `layout` reaches
/// the layout as an attribute, `layout` itself does not, and a slide
/// without its own `watermark` or `footer` gets the deck's.
pub proof fn law_slide_attributes(
    fm: Seq<(Seq<char>, Seq<char>)>,
    gw: Seq<char>,
    gf: Seq<char>,
    k: Seq<char>,
)
    ensures
        k != key_layout() && file_text(fm, k) is Some ==> file_text(slide_attrs(fm, gw, gf), k)
            == file_text(fm, k),
        file_text(slide_attrs(fm, gw, gf), key_layout()) is None,
        file_text(fm, key_watermark()) is None && gw.len() > 0 ==> file_text(
            slide_attrs(fm, gw, gf),
            key_watermark(),
        ) == Some(gw),
        file_text(fm, key_footer()) is None && gf.len() > 0 ==> file_text(
            slide_attrs(fm, gw, gf),
            key_footer(),
        ) == Some(gf),
{
    let a0 = without_layout(fm);
    let a1 = if gw.len() > 0 && file_text(fm, key_watermark()) is None {
        a0.push((key_watermark(), gw))
    } else {
        a0
    };
    lemma_without_layout_lookup(fm, k);
    lemma_without_layout_lookup(fm, key_watermark());
    lemma_without_layout_lookup(fm, key_footer());
    assert(key_watermark() != key_layout()) by {
        assert(key_watermark().len() != key_layout().len());
    }
    assert(key_footer() != key_layout()) by {
        assert(key_footer()[0] != key_layout()[0]);
    }
    assert(key_footer() != key_watermark()) by {
        assert(key_footer().len() != key_watermark().len());
    }
    crate::assets::lemma_file_text_push(a0, (key_watermark(), gw), k);
    crate::assets::lemma_file_text_push(a0, (key_watermark(), gw), key_layout());
    crate::assets::lemma_file_text_push(a0, (key_watermark(), gw), key_watermark());
    crate::assets::lemma_file_text_push(a0, (key_watermark(), gw), key_footer());
    crate::assets::lemma_file_text_push(a1, (key_footer(), gf), k);
    crate::assets::lemma_file_text_push(a1, (key_footer(), gf), key_layout());
    crate::assets::lemma_file_text_push(a1, (key_footer(), gf), key_watermark());
    crate::assets::lemma_file_text_push(a1, (key_footer(), gf), key_footer());
}

/// When no slide's layout is a script layout, no client JS is emitted.
pub proof fn law_no_script_layouts_no_client_js(
    ss: Seq<SlideView>,
    i: int,
    gm: Seq<(Seq<char>, Seq<char>)>,
    layouts: LayoutSet,
    base: Option<Seq<char>>,
    seen: Seq<Seq<char>>,
    html: Seq<char>,
    js: Seq<char>,
)
    requires
        0 <= i,
        forall|j: int|
            i <= j < ss.len() ==> (#[trigger] slide_layout(
                layouts,
                slide_layout_name(ss[j]),
            )) is Some && slide_layout(layouts, slide_layout_name(ss[j]))->0.is_template,
    ensures
        render_from_slide(ss, i, gm, layouts, base, seen, html, js).1 == js,
    decreases ss.len() - i,
{
    if i >= ss.len() {
        lemma_render_done(ss, i, gm, layouts, base, seen, html, js);
    } else {
        let s = ss[i];
        let name = slide_layout_name(s);
        let attrs = slide_attrs(s.frontmatter, first_attr(gm, key_watermark()), first_attr(gm, key_footer()));
        let r = slide_html(name, attrs, s.slots, s.body_html, (i + 1) as nat, ss.len(), layouts);
        assert(slide_layout(layouts, name) is Some);
        assert(r.1 is None) by {
            reveal(slide_html);
        }
        lemma_render_step(ss, i, gm, layouts, base, seen, html, js, r);
        law_no_script_layouts_no_client_js(ss, i + 1, gm, layouts, base, seen, html + r.0 + seq!['\n'], js);
    }
}

/// A script layout used by many slides is inlined once: when every slide
/// from `i` on uses the script layout `name`, already inlined, the client JS
/// does not grow.
pub proof fn law_script_layout_inlined_once(
    ss: Seq<SlideView>,
    i: int,
    gm: Seq<(Seq<char>, Seq<char>)>,
    layouts: LayoutSet,
    base: Option<Seq<char>>,
    seen: Seq<Seq<char>>,
    html: Seq<char>,
    js: Seq<char>,
    name: Seq<char>,
)
    requires
        0 <= i,
        seen.contains(name),
        forall|j: int| i <= j < ss.len() ==> #[trigger] slide_layout_name(ss[j]) == name,
    ensures
        render_from_slide(ss, i, gm, layouts, base, seen, html, js).1 == js,
    decreases ss.len() - i,
{
    if i >= ss.len() {
        lemma_render_done(ss, i, gm, layouts, base, seen, html, js);
    } else {
        let s = ss[i];
        assert(slide_layout_name(s) == name);
        let attrs = slide_attrs(s.frontmatter, first_attr(gm, key_watermark()), first_attr(gm, key_footer()));
        let r = slide_html(name, attrs, s.slots, s.body_html, (i + 1) as nat, ss.len(), layouts);
        lemma_render_step(ss, i, gm, layouts, base, seen, html, js, r);
        law_script_layout_inlined_once(ss, i + 1, gm, layouts, base, seen, html + r.0 + seq!['\n'], js, name);
    }
}

/// CSS cascade: in the page the framework CSS comes first, then the theme's
/// style tag, then the user's, so the user's styles win.
pub proof fn law_css_cascade_order(
    title: Seq<char>,
    slides_html: Seq<char>,
    framework_css: Seq<char>,
    framework_js: Seq<char>,
    client_js: Seq<char>,
    theme_css: Option<Seq<char>>,
    user_css: Option<Seq<char>>,
)
    ensures
        ({
            let page = index_html(
                title,
                slides_html,
                framework_css,
                framework_js,
                client_js,
                theme_css,
                user_css,
            );
            let f = (page_head().len() + title.len() + page_style_open().len()) as int;
            let t = f + framework_css.len() + page_style_close().len();
            let u = t + theme_style_tag(theme_css).len() + page_tag_sep().len();
            &&& page.subrange(f, f + framework_css.len()) == framework_css
            &&& page.subrange(t, t + theme_style_tag(theme_css).len()) == theme_style_tag(theme_css)
            &&& page.subrange(u, u + user_style_tag(user_css).len()) == user_style_tag(user_css)
            &&& f + framework_css.len() <= t
            &&& t + theme_style_tag(theme_css).len() <= u
        }),
{
    let page = index_html(
        title,
        slides_html,
        framework_css,
        framework_js,
        client_js,
        theme_css,
        user_css,
    );
    let a = page_head() + title + page_style_open();
    let b = a + framework_css + page_style_close();
    let c = b + theme_style_tag(theme_css) + page_tag_sep();
    let rest = page_body_open() + slides_html + page_body_mid() + client_script_tag(client_js)
        + page_script_open() + framework_js + page_end();
    assert(page =~= c + user_style_tag(user_css) + rest);
    assert(page.subrange(a.len() as int, (a.len() + framework_css.len()) as int) =~= framework_css);
    assert(page.subrange(b.len() as int, (b.len() + theme_style_tag(theme_css).len()) as int) =~= theme_style_tag(
        theme_css,
    ));
    assert(page.subrange(c.len() as int, (c.len() + user_style_tag(user_css).len()) as int) =~= user_style_tag(
        user_css,
    ));
}

} // verus!
