//! The client-rendered format of the `monocle-slide` program: slides are parsed
//! into frontmatter and HTML, handed to the browser as a JSON array, and
//! every framework layout script is bundled into the page.
use crate::assets::{file_text, AssetBundle};
use crate::deck::{block_sep, frontmatter_spec, global_block, parse_frontmatter_checked, strip_all_exec};
use crate::markdown::{passthrough_spec, render_markdown_passthrough};
use crate::page::{file_line, import_up, push_file_line, push_str_chars, replace_all, replace_all_exec};
use crate::text::{
    cpairs, decimal, has_prefix, has_suffix, join, push_all, push_decimal, slice, spairs, split,
    split_exec, to_chars, to_string, to_string_pairs, views,
};
use vstd::prelude::*;

verus! {

// ---------------------------------------------------------------------------
// JSON strings
// ---------------------------------------------------------------------------

/// A lowercase hexadecimal digit.
pub open spec fn hex_lower(d: int) -> char {
    if d < 10 {
        (48 + d) as char
    } else {
        (87 + d) as char
    }
}

/// How a character appears inside a JSON string: `"` and `\` escaped with a
/// backslash, backspace, tab, line feed, form feed and carriage return by
/// their short escapes, other control characters as `\u00XX`.
pub open spec fn json_char(c: char) -> Seq<char> {
    if c == '"' {
        seq!['\\', '"']
    } else if c == '\\' {
        seq!['\\', '\\']
    } else if c == '\u{8}' {
        seq!['\\', 'b']
    } else if c == '\t' {
        seq!['\\', 't']
    } else if c == '\n' {
        seq!['\\', 'n']
    } else if c == '\u{c}' {
        seq!['\\', 'f']
    } else if c == '\r' {
        seq!['\\', 'r']
    } else if (c as int) < 0x20 {
        seq!['\\', 'u', '0', '0', hex_lower((c as int) / 16), hex_lower((c as int) % 16)]
    } else {
        seq![c]
    }
}

/// The characters of `s`, each as it appears inside a JSON string.
pub open spec fn json_escaped(s: Seq<char>) -> Seq<char>
    decreases s.len(),
{
    if s.len() == 0 {
        seq![]
    } else {
        json_escaped(s.drop_last()) + json_char(s.last())
    }
}

/// `s` as a JSON string literal.
pub open spec fn json_string(s: Seq<char>) -> Seq<char> {
    seq!['"'] + json_escaped(s) + seq!['"']
}

/// `serde_json::to_string` of a string: the JSON string literal. It cannot
/// fail for a string.
#[verifier::external_body]
fn to_json_string(s: &str) -> (r: String)
    ensures
        r@ == json_string(s@),
{
    serde_json::to_string(s).unwrap()
}

// ---------------------------------------------------------------------------
// Slides
// ---------------------------------------------------------------------------

/// A slide of the client-rendered format: frontmatter and HTML body.
pub struct MonocleSlide {
    pub frontmatter: Vec<(String, String)>,
    pub body_html: String,
}

/// A slide of the client-rendered format as a mathematical value.
pub struct MonocleSlideView {
    pub frontmatter: Seq<(Seq<char>, Seq<char>)>,
    pub body_html: Seq<char>,
}

impl MonocleSlide {
    pub open spec fn view(&self) -> MonocleSlideView {
        MonocleSlideView { frontmatter: spairs(self.frontmatter@), body_html: self.body_html@ }
    }
}

pub open spec fn monocle_views(s: Seq<MonocleSlide>) -> Seq<MonocleSlideView> {
    s.map_values(|x: MonocleSlide| x.view())
}

/// The slides of the blocks `bs`, each block a frontmatter and a body; a
/// block with neither makes no slide. `None` where a frontmatter value is a
/// lone quote character.
pub open spec fn monocle_rest(bs: Seq<Seq<char>>) -> Option<Seq<MonocleSlideView>>
    decreases bs.len(),
{
    if bs.len() == 0 {
        Some(seq![])
    } else {
        match (monocle_rest(bs.drop_last()), frontmatter_spec(bs.last())) {
            (Some(r), Some(p)) => Some(
                if p.1.len() > 0 || p.0.len() > 0 {
                    r.push(MonocleSlideView { frontmatter: p.0, body_html: passthrough_spec(p.1) })
                } else {
                    r
                },
            ),
            _ => None,
        }
    }
}

/// The global frontmatter and slides of a deck in the client-rendered format: the
/// body after the global frontmatter is a first slide when it is not empty,
/// and every later block is a slide of its own.
pub open spec fn monocle_slides_spec(raw: Seq<char>) -> Option<(Seq<(Seq<char>, Seq<char>)>, Seq<MonocleSlideView>)> {
    let blocks = split(raw, block_sep());
    match frontmatter_spec(global_block(raw)) {
        None => None,
        Some(g) => {
            let first = if g.1.len() > 0 {
                seq![MonocleSlideView { frontmatter: seq![], body_html: passthrough_spec(g.1) }]
            } else {
                seq![]
            };
            match monocle_rest(blocks.skip(1)) {
                Some(r) => Some((g.0, first + r)),
                None => None,
            }
        },
    }
}

proof fn lemma_rest_none(s: Seq<Seq<char>>, k: int, n: int)
    requires
        0 <= k <= n <= s.len(),
        monocle_rest(s.take(k)) is None,
    ensures
        monocle_rest(s.take(n)) is None,
    decreases n - k,
{
    if k < n {
        lemma_rest_none(s, k, n - 1);
        assert(s.take(n).drop_last() =~= s.take(n - 1));
    }
}

fn monocle_slide(fm: &Vec<(Vec<char>, Vec<char>)>, body: &[char]) -> (s: MonocleSlide)
    ensures
        s.view() == (MonocleSlideView {
            frontmatter: cpairs(fm@),
            body_html: passthrough_spec(body@),
        }),
{
    MonocleSlide {
        frontmatter: to_string_pairs(fm),
        body_html: render_markdown_passthrough(to_string(body).as_str()),
    }
}

/// Parses a deck in the client-rendered format, or `None` where a frontmatter value
/// is a lone quote character.
pub fn parse_slides_checked(raw: &str) -> (r: Option<(Vec<(String, String)>, Vec<MonocleSlide>)>)
    ensures
        match r {
            Some(p) => monocle_slides_spec(raw@) == Some((spairs(p.0@), monocle_views(p.1@))),
            None => monocle_slides_spec(raw@) is None,
        },
{
    let v = to_chars(raw);
    let sep: Vec<char> = vec!['\n', '-', '-', '-', '\n'];
    assert(sep@ =~= block_sep());
    let blocks = split_exec(v.as_slice(), sep.as_slice());
    let ghost bv = views(blocks@);
    let p1: Vec<char> = vec!['-', '-', '-', '\n'];
    let p2: Vec<char> = vec!['-', '-', '-', '\r', '\n'];
    assert(p1@ =~= seq!['-', '-', '-', '\n']);
    assert(p2@ =~= seq!['-', '-', '-', '\r', '\n']);
    let b0 = &blocks[0];
    assert(bv[0] == b0@);
    let k1 = strip_all_exec(b0.as_slice(), 0, p1.as_slice());
    let k2 = strip_all_exec(b0.as_slice(), k1, p2.as_slice());
    assert(b0@.subrange(0, b0@.len() as int) =~= b0@);
    let first = slice(b0.as_slice(), k2, b0.len());
    assert(first@ == global_block(raw@));
    let (global_meta, first_body) = match parse_frontmatter_checked(first.as_slice()) {
        None => {
            return None;
        },
        Some(p) => p,
    };
    let mut slides: Vec<MonocleSlide> = Vec::new();
    if first_body.len() > 0 {
        let empty: Vec<(Vec<char>, Vec<char>)> = Vec::new();
        let s = monocle_slide(&empty, first_body.as_slice());
        slides.push(s);
        assert(cpairs(empty@) =~= Seq::<(Seq<char>, Seq<char>)>::empty());
    }
    let ghost firsts = monocle_views(slides@);
    assert(firsts =~= if first_body@.len() > 0 {
        seq![MonocleSlideView { frontmatter: seq![], body_html: passthrough_spec(first_body@) }]
    } else {
        Seq::<MonocleSlideView>::empty()
    });
    let ghost rest = bv.skip(1);
    let nb = blocks.len();
    let mut i: usize = 1;
    assert(rest.take(0) =~= Seq::<Seq<char>>::empty());
    while i < nb
        invariant
            nb == blocks@.len(),
            bv == views(blocks@),
            bv == split(raw@, block_sep()),
            frontmatter_spec(global_block(raw@)) == Some((cpairs(global_meta@), first_body@)),
            rest == bv.skip(1),
            1 <= i <= nb,
            firsts.len() <= slides@.len(),
            monocle_views(slides@).subrange(0, firsts.len() as int) == firsts,
            monocle_rest(rest.take(i - 1)) == Some(
                monocle_views(slides@).subrange(firsts.len() as int, slides@.len() as int),
            ),
        decreases nb - i,
    {
        assert(bv[i as int] == blocks@[i as int]@);
        let ghost prev = monocle_views(slides@);
        let ghost acc = prev.subrange(firsts.len() as int, prev.len() as int);
        assert(rest.take(i as int).drop_last() =~= rest.take(i - 1));
        assert(rest.take(i as int).last() == bv[i as int]);
        let (fm, body) = match parse_frontmatter_checked(blocks[i].as_slice()) {
            None => {
                proof {
                    assert(monocle_rest(rest.take(i as int)) is None);
                    lemma_rest_none(rest, i as int, rest.len() as int);
                    assert(rest.take(rest.len() as int) =~= rest);
                }
                return None;
            },
            Some(p) => p,
        };
        if body.len() > 0 || fm.len() > 0 {
            let s = monocle_slide(&fm, body.as_slice());
            slides.push(s);
            assert(monocle_views(slides@) =~= prev.push(s.view()));
            assert(monocle_views(slides@).subrange(firsts.len() as int, slides@.len() as int)
                =~= acc.push(s.view()));
            assert(monocle_views(slides@).subrange(0, firsts.len() as int) =~= prev.subrange(
                0,
                firsts.len() as int,
            ));
        }
        i = i + 1;
    }
    proof {
        assert(rest.take(nb - 1) =~= rest);
        assert(monocle_views(slides@) =~= firsts + monocle_views(slides@).subrange(
            firsts.len() as int,
            slides@.len() as int,
        ));
    }
    Some((to_string_pairs(&global_meta), slides))
}

/// Parses a deck in the client-rendered format.
pub fn parse_slides(raw: &str) -> (r: (Vec<(String, String)>, Vec<MonocleSlide>))
    requires
        monocle_slides_spec(raw@) is Some,
    ensures
        monocle_slides_spec(raw@) == Some((spairs(r.0@), monocle_views(r.1@))),
{
    match parse_slides_checked(raw) {
        Some(p) => p,
        None => (Vec::new(), Vec::new()),
    }
}

// ---------------------------------------------------------------------------
// The slides as JSON
// ---------------------------------------------------------------------------

/// An attribute value inside the JSON built by hand: backslashes doubled,
/// quotes escaped.
pub open spec fn attr_char(c: char) -> Seq<char> {
    if c == '\\' {
        seq!['\\', '\\']
    } else if c == '"' {
        seq!['\\', '"']
    } else {
        seq![c]
    }
}

/// The characters of `v`, each as `attr_char` writes it.
pub open spec fn attr_value(v: Seq<char>) -> Seq<char>
    decreases v.len(),
{
    if v.len() == 0 {
        seq![]
    } else {
        attr_value(v.drop_last()) + attr_char(v.last())
    }
}

/// `"key":"value"` for each attribute other than `layout`.
pub open spec fn attr_items(fm: Seq<(Seq<char>, Seq<char>)>) -> Seq<Seq<char>> {
    fm.filter(|p: (Seq<char>, Seq<char>)| p.0 != crate::page::key_layout()).map_values(
        |p: (Seq<char>, Seq<char>)| seq!['"'] + p.0 + "\":\""@ + attr_value(p.1) + seq!['"'],
    )
}

/// The JSON object of slide number `index`.
pub open spec fn slide_json(s: MonocleSlideView, index: nat) -> Seq<char> {
    let layout = match file_text(s.frontmatter, crate::page::key_layout()) {
        Some(l) => l,
        None => "slide-default"@,
    };
    "{\"layout\":\""@ + layout + "\",\"index\":"@ + decimal(index) + ",\"attrs\":{"@ + join(
        attr_items(s.frontmatter),
        seq![','],
    ) + "},\"body\":"@ + json_string(s.body_html) + seq!['}']
}

/// The JSON objects of the slides, numbered from 1.
pub open spec fn slide_jsons(ss: Seq<MonocleSlideView>) -> Seq<Seq<char>> {
    Seq::new(ss.len(), |i: int| slide_json(ss[i], (i + 1) as nat))
}

/// The slides as a JSON array.
pub open spec fn slides_json_spec(ss: Seq<MonocleSlideView>) -> Seq<char> {
    seq!['['] + join(slide_jsons(ss), seq![',']) + seq![']']
}

fn push_attr_value(out: &mut Vec<char>, v: &[char])
    ensures
        final(out)@ == old(out)@ + attr_value(v@),
{
    let ghost start = out@;
    let mut i: usize = 0;
    while i < v.len()
        invariant
            0 <= i <= v@.len(),
            out@ == start + attr_value(v@.take(i as int)),
        decreases v@.len() - i,
    {
        let c = v[i];
        if c == '\\' {
            out.push('\\');
            out.push('\\');
        } else if c == '"' {
            out.push('\\');
            out.push('"');
        } else {
            out.push(c);
        }
        assert(v@.take(i + 1).drop_last() =~= v@.take(i as int));
        assert(out@ =~= start + attr_value(v@.take(i + 1)));
        i = i + 1;
    }
    assert(v@.take(v@.len() as int) =~= v@);
}

fn slide_json_exec(s: &MonocleSlide, index: usize) -> (r: Vec<char>)
    ensures
        r@ == slide_json(s.view(), index as nat),
{
    let ghost fm = s.view().frontmatter;
    let ghost pred = |p: (Seq<char>, Seq<char>)| p.0 != crate::page::key_layout();
    let ghost item = |p: (Seq<char>, Seq<char>)| seq!['"'] + p.0 + "\":\""@ + attr_value(p.1) + seq!['"'];
    let lay = to_chars("layout");
    proof {
        reveal_strlit("layout");
    }
    assert(lay@ =~= crate::page::key_layout());
    let mut layout: Option<Vec<char>> = None;
    let mut items: Vec<Vec<char>> = Vec::new();
    let mut i: usize = 0;
    while i < s.frontmatter.len()
        invariant
            fm == s.view().frontmatter,
            lay@ == crate::page::key_layout(),
            pred == (|p: (Seq<char>, Seq<char>)| p.0 != crate::page::key_layout()),
            item == (|p: (Seq<char>, Seq<char>)| seq!['"'] + p.0 + "\":\""@ + attr_value(p.1) + seq!['"']),
            0 <= i <= fm.len(),
            views(items@) == fm.take(i as int).filter(pred).map_values(item),
            match layout {
                Some(l) => crate::assets::first_file(fm, lay@, choose|k: int| crate::assets::first_file(fm, lay@, k))
                    && (choose|k: int| crate::assets::first_file(fm, lay@, k)) < i
                    && fm[choose|k: int| crate::assets::first_file(fm, lay@, k)].1 == l@,
                None => forall|j: int| 0 <= j < i ==> (#[trigger] fm[j]).0 != lay@,
            },
        decreases fm.len() - i,
    {
        let k = to_chars(s.frontmatter[i].0.as_str());
        let v = to_chars(s.frontmatter[i].1.as_str());
        assert(fm[i as int] == (k@, v@));
        let ghost before = views(items@);
        if crate::text::chars_eq(k.as_slice(), lay.as_slice()) {
            if layout.is_none() {
                proof {
                    assert(crate::assets::first_file(fm, lay@, i as int));
                    let c = choose|c: int| crate::assets::first_file(fm, lay@, c);
                    if c < i {
                        assert(fm[c].0 != lay@);
                    } else if i < c {
                        assert(fm[i as int].0 != lay@);
                    }
                }
                layout = Some(v);
            }
        } else {
            let mut it: Vec<char> = vec!['"'];
            push_all(&mut it, k.as_slice());
            push_str_chars(&mut it, "\":\"");
            push_attr_value(&mut it, v.as_slice());
            it.push('"');
            assert(it@ =~= item(fm[i as int]));
            items.push(it);
            assert(views(items@) =~= before.push(item(fm[i as int])));
        }
        proof {
            reveal_with_fuel(Seq::<_>::filter, 1);
            assert(fm.take(i + 1).drop_last() =~= fm.take(i as int));
            assert(fm.take(i + 1).last() == fm[i as int]);
            assert(fm.take(i + 1).filter(pred) =~= if pred(fm[i as int]) {
                fm.take(i as int).filter(pred).push(fm[i as int])
            } else {
                fm.take(i as int).filter(pred)
            });
            assert(views(items@) =~= fm.take(i + 1).filter(pred).map_values(item));
        }
        i = i + 1;
    }
    assert(fm.take(fm.len() as int) =~= fm);
    let mut out = to_chars("{\"layout\":\"");
    match layout {
        Some(l) => {
            push_all(&mut out, l.as_slice());
            assert(file_text(fm, crate::page::key_layout()) == Some(l@));
        },
        None => {
            push_str_chars(&mut out, "slide-default");
            assert(file_text(fm, crate::page::key_layout()) is None);
        },
    }
    push_str_chars(&mut out, "\",\"index\":");
    push_decimal(&mut out, index);
    push_str_chars(&mut out, ",\"attrs\":{");
    let comma: Vec<char> = vec![','];
    assert(comma@ =~= seq![',']);
    crate::text::push_joined(&mut out, &items, 0, items.len(), comma.as_slice());
    assert(views(items@).subrange(0, items@.len() as int) =~= views(items@));
    push_str_chars(&mut out, "},\"body\":");
    let body = to_json_string(s.body_html.as_str());
    push_all(&mut out, to_chars(body.as_str()).as_slice());
    out.push('}');
    out
}

/// The slides as the JSON array the browser renders from.
pub fn build_slides_json(slides: &[MonocleSlide]) -> (r: String)
    requires
        slides@.len() < usize::MAX,
    ensures
        r@ == slides_json_spec(monocle_views(slides@)),
{
    let ghost ss = monocle_views(slides@);
    let mut objs: Vec<Vec<char>> = Vec::new();
    let mut i: usize = 0;
    while i < slides.len()
        invariant
            ss == monocle_views(slides@),
            slides@.len() < usize::MAX,
            0 <= i <= slides@.len(),
            views(objs@) == slide_jsons(ss).take(i as int),
        decreases slides@.len() - i,
    {
        let o = slide_json_exec(&slides[i], i + 1);
        let ghost before = views(objs@);
        objs.push(o);
        assert(views(objs@) =~= before.push(o@));
        assert(slide_jsons(ss).take(i + 1) =~= slide_jsons(ss).take(i as int).push(
            slide_jsons(ss)[i as int],
        ));
        i = i + 1;
    }
    assert(slide_jsons(ss).take(ss.len() as int) =~= slide_jsons(ss));
    let mut out: Vec<char> = vec!['['];
    let comma: Vec<char> = vec![','];
    assert(comma@ =~= seq![',']);
    crate::text::push_joined(&mut out, &objs, 0, objs.len(), comma.as_slice());
    assert(views(objs@).subrange(0, objs@.len() as int) =~= views(objs@));
    out.push(']');
    assert(out@ =~= slides_json_spec(ss));
    to_string(out.as_slice())
}

// ---------------------------------------------------------------------------
// The page
// ---------------------------------------------------------------------------

/// The page of the client-rendered format.
pub open spec fn monocle_index_html(
    slides_json: Seq<char>,
    custom_css: Option<Seq<char>>,
    framework_css: Seq<char>,
    framework_js: Seq<char>,
    layout_js: Seq<char>,
) -> Seq<char> {
    "<!DOCTYPE html>\n<html lang=\"ko\">\n<head>\n  <meta charset=\"utf-8\">\n  <meta name=\"viewport\" content=\"width=device-width, initial-scale=1\">\n  <title>Monocle Slide</title>\n  <style>"@
        + framework_css + "</style>\n  "@ + match custom_css {
        Some(c) => "<style>"@ + c + "</style>"@,
        None => seq![],
    } + "\n</head>\n<body>\n  <monocle-slide></monocle-slide>\n  <script>window.__MONOCLE_SLIDES__ = "@
        + slides_json + ";</script>\n  <script type=\"module\">"@ + layout_js + "\n\n"@
        + framework_js + "</script>\n</body>\n</html>"@
}

/// Builds the page of the client-rendered format.
pub fn build_index_html(
    slides_json: &str,
    custom_css: Option<&str>,
    framework_css: &str,
    framework_js: &str,
    layout_js: &str,
) -> (r: String)
    ensures
        r@ == monocle_index_html(
            slides_json@,
            crate::page::opt_text(custom_css),
            framework_css@,
            framework_js@,
            layout_js@,
        ),
{
    let mut out: Vec<char> = Vec::new();
    push_str_chars(&mut out, "<!DOCTYPE html>\n<html lang=\"ko\">\n<head>\n  <meta charset=\"utf-8\">\n  <meta name=\"viewport\" content=\"width=device-width, initial-scale=1\">\n  <title>Monocle Slide</title>\n  <style>");
    push_str_chars(&mut out, framework_css);
    push_str_chars(&mut out, "</style>\n  ");
    let ghost a = out@;
    match custom_css {
        Some(c) => {
            push_str_chars(&mut out, "<style>");
            push_str_chars(&mut out, c);
            push_str_chars(&mut out, "</style>");
        },
        None => {},
    }
    assert(out@ =~= a + match crate::page::opt_text(custom_css) {
        Some(c) => "<style>"@ + c + "</style>"@,
        None => seq![],
    });
    push_str_chars(&mut out, "\n</head>\n<body>\n  <monocle-slide></monocle-slide>\n  <script>window.__MONOCLE_SLIDES__ = ");
    push_str_chars(&mut out, slides_json);
    push_str_chars(&mut out, ";</script>\n  <script type=\"module\">");
    push_str_chars(&mut out, layout_js);
    push_str_chars(&mut out, "\n\n");
    push_str_chars(&mut out, framework_js);
    push_str_chars(&mut out, "</script>\n</body>\n</html>");
    to_string(out.as_slice())
}

/// The layout scripts among `fs` (`layouts/*.js`, in bundle order), each
/// without its `SlideBase` import and followed by a newline.
pub open spec fn layout_scripts(fs: Seq<(Seq<char>, Seq<char>)>) -> Seq<char>
    decreases fs.len(),
{
    if fs.len() == 0 {
        seq![]
    } else {
        layout_scripts(fs.drop_last()) + if has_prefix(fs.last().0, "layouts/"@) && has_suffix(
            fs.last().0,
            ".js"@,
        ) {
            replace_all(fs.last().1, import_up(), seq![]) + seq!['\n']
        } else {
            seq![]
        }
    }
}

/// `slide-base.js`, then every framework layout script.
pub open spec fn layout_js_spec(fs: Seq<(Seq<char>, Seq<char>)>) -> Seq<char> {
    file_line(fs, "slide-base.js"@) + layout_scripts(fs)
}

/// All client-side layout code of the framework, in one script.
pub fn collect_layout_js(assets: &AssetBundle) -> (r: String)
    ensures
        r@ == layout_js_spec(assets.files()),
{
    let ghost fs = assets.files();
    let mut out: Vec<char> = Vec::new();
    push_file_line(&mut out, assets, "slide-base.js");
    let ghost base = out@;
    let pre = to_chars("layouts/");
    let ext = to_chars(".js");
    let up = to_chars("import { SlideBase } from '../slide-base.js';");
    proof {
        reveal_strlit("import { SlideBase } from '../slide-base.js';");
    }
    let empty: Vec<char> = Vec::new();
    let mut i: usize = 0;
    while i < assets.len()
        invariant
            fs == assets.files(),
            pre@ == "layouts/"@,
            ext@ == ".js"@,
            up@ == import_up(),
            up@.len() > 0,
            empty@.len() == 0,
            0 <= i <= fs.len(),
            out@ == base + layout_scripts(fs.take(i as int)),
        decreases fs.len() - i,
    {
        let (name, text) = assets.entry(i);
        let n = to_chars(name.as_str());
        assert(n@.subrange(0, n@.len() as int) =~= n@);
        let is_layout = crate::text::starts_with_at(n.as_slice(), 0, n.len(), pre.as_slice())
            && crate::text::ends_with_at(n.as_slice(), 0, n.len(), ext.as_slice());
        if is_layout {
            let t = to_chars(text.as_str());
            let r = replace_all_exec(t.as_slice(), up.as_slice(), empty.as_slice());
            assert(empty@ =~= Seq::<char>::empty());
            push_all(&mut out, r.as_slice());
            out.push('\n');
        }
        assert(fs.take(i + 1).drop_last() =~= fs.take(i as int));
        assert(fs.take(i + 1).last() == fs[i as int]);
        i = i + 1;
    }
    assert(fs.take(fs.len() as int) =~= fs);
    to_string(out.as_slice())
}

} // verus!
