//! Static checks over a deck (`validate`): unknown layouts, dropped
//! frontmatter, blank lines inside raw HTML blocks, missing local assets,
//! and slides likely to overflow the canvas.
use crate::deck::{
    block_sep, first_key_index, frontmatter_spec, global_block, layout_key, parse_frontmatter_checked,
    slide_body, slides_spec, strip_all,
};
use crate::render::LayoutSet;
use crate::text::{
    alphanumeric, contains, contains_exec, cpairs, find, find_exec, has_prefix, is_alphanumeric,
    is_whitespace, is_ws, lines, lines_exec, push_all, slice, split, split_exec, to_chars,
    to_string, trim, trim_bounds, trimmed, views,
};
use vstd::prelude::*;

verus! {

// ---------------------------------------------------------------------------
// Raw HTML blocks
// ---------------------------------------------------------------------------

/// Tags that open an HTML block.
pub open spec fn open_tags() -> Seq<Seq<char>> {
    seq!["<svg"@, "<table"@, "<div"@, "<ul"@, "<ol"@, "<g "@, "<g>"@]
}

/// Tags that close an HTML block.
pub open spec fn close_tags() -> Seq<Seq<char>> {
    seq!["</svg>"@, "</table>"@, "</div>"@, "</ul>"@, "</ol>"@, "</g>"@]
}

/// How many of `tags` occur in `t`.
pub open spec fn count_tags(t: Seq<char>, tags: Seq<Seq<char>>) -> int
    decreases tags.len(),
{
    if tags.len() == 0 {
        0
    } else {
        count_tags(t, tags.drop_last()) + if contains(t, tags.last()) {
            1int
        } else {
            0int
        }
    }
}

/// Open-block depth after a non-blank (trimmed) line `t`, from `depth`.
pub open spec fn next_depth(depth: int, t: Seq<char>) -> int {
    let d = depth + count_tags(t, open_tags()) - count_tags(t, close_tags());
    if d < 0 {
        0
    } else {
        d
    }
}

/// Whether a blank line comes while an HTML block is open, scanning lines
/// `ls` from `i` at open-block depth `depth`.
pub open spec fn blank_scan(ls: Seq<Seq<char>>, i: int, depth: int) -> bool
    decreases ls.len() - i,
{
    if i < 0 || i >= ls.len() {
        false
    } else {
        let t = trim(ls[i]);
        if t.len() == 0 {
            if depth > 0 {
                true
            } else {
                blank_scan(ls, i + 1, depth)
            }
        } else {
            blank_scan(ls, i + 1, next_depth(depth, t))
        }
    }
}

/// A blank line appears while inside an unclosed block-level HTML tag; the
/// Markdown renderer ends the HTML block there, so what follows renders as
/// literal text.
pub open spec fn raw_html_blank_line_spec(body: Seq<char>) -> bool {
    blank_scan(lines(body), 0, 0)
}

fn count_tags_exec(t: &[char], tags: &Vec<Vec<char>>) -> (n: i128)
    requires
        tags@.len() <= 7,
    ensures
        n == count_tags(t@, views(tags@)),
        0 <= n <= tags@.len(),
{
    let ghost tv = views(tags@);
    let mut n: i128 = 0;
    let mut i: usize = 0;
    while i < tags.len()
        invariant
            tv == views(tags@),
            tags@.len() <= 7,
            0 <= i <= tags@.len(),
            n == count_tags(t@, tv.take(i as int)),
            0 <= n <= i,
        decreases tags@.len() - i,
    {
        assert(tv.take(i + 1).drop_last() =~= tv.take(i as int));
        assert(tv.take(i + 1).last() == tags@[i as int]@);
        if contains_exec(t, tags[i].as_slice()) {
            n = n + 1;
        }
        i = i + 1;
    }
    assert(tv.take(tags@.len() as int) =~= tv);
    n
}

fn tag_lists() -> (r: (Vec<Vec<char>>, Vec<Vec<char>>))
    ensures
        views(r.0@) == open_tags(),
        views(r.1@) == close_tags(),
        r.0@.len() == 7,
        r.1@.len() == 6,
{
    let mut o: Vec<Vec<char>> = Vec::new();
    o.push(to_chars("<svg"));
    o.push(to_chars("<table"));
    o.push(to_chars("<div"));
    o.push(to_chars("<ul"));
    o.push(to_chars("<ol"));
    o.push(to_chars("<g "));
    o.push(to_chars("<g>"));
    let mut c: Vec<Vec<char>> = Vec::new();
    c.push(to_chars("</svg>"));
    c.push(to_chars("</table>"));
    c.push(to_chars("</div>"));
    c.push(to_chars("</ul>"));
    c.push(to_chars("</ol>"));
    c.push(to_chars("</g>"));
    assert(views(o@) =~= open_tags());
    assert(views(c@) =~= close_tags());
    (o, c)
}

/// Whether a blank line appears inside an unclosed raw HTML block.
pub fn raw_html_blank_line(body: &str) -> (b: bool)
    ensures
        b == raw_html_blank_line_spec(body@),
{
    raw_html_blank_line_chars(to_chars(body).as_slice())
}

/// `raw_html_blank_line` on characters.
pub fn raw_html_blank_line_chars(body: &[char]) -> (b: bool)
    ensures
        b == raw_html_blank_line_spec(body@),
{
    let (opens, closes) = tag_lists();
    let ls = lines_exec(body);
    let ghost lv = views(ls@);
    let n = ls.len();
    let mut depth: i128 = 0;
    let mut i: usize = 0;
    while i < n
        invariant
            n == ls@.len(),
            lv == views(ls@),
            views(opens@) == open_tags(),
            views(closes@) == close_tags(),
            opens@.len() == 7,
            closes@.len() == 6,
            0 <= i <= n,
            0 <= depth <= 7 * i,
            raw_html_blank_line_spec(body@) == blank_scan(lv, i as int, depth as int),
            lv == lines(body@),
        decreases n - i,
    {
        let t = trimmed(ls[i].as_slice());
        assert(lv[i as int] == ls@[i as int]@);
        if t.len() == 0 {
            if depth > 0 {
                return true;
            }
        } else {
            let up = count_tags_exec(t.as_slice(), &opens);
            let down = count_tags_exec(t.as_slice(), &closes);
            depth = depth + up - down;
            if depth < 0 {
                depth = 0;
            }
        }
        i = i + 1;
    }
    false
}

// ---------------------------------------------------------------------------
// Asset references
// ---------------------------------------------------------------------------

/// `p` refers to a file of the deck rather than to a remote resource, an
/// inline `data:` URI, an anchor or a mail address.
pub open spec fn is_local_ref_spec(p: Seq<char>) -> bool {
    let t = trim(p);
    !(t.len() == 0 || has_prefix(t, "http://"@) || has_prefix(t, "https://"@) || has_prefix(
        t,
        "//"@,
    ) || has_prefix(t, "data:"@) || has_prefix(t, seq!['#']) || has_prefix(t, "mailto:"@))
}

/// Whether `p` refers to a local file.
pub fn is_local_ref(p: &[char]) -> (b: bool)
    ensures
        b == is_local_ref_spec(p@),
{
    let n = p.len();
    let (a, e) = trim_bounds(p, 0, n);
    assert(p@.subrange(0, n as int) =~= p@);
    let t = slice(p, a, e);
    let m = t.len();
    assert(t@.subrange(0, m as int) =~= t@);
    let hash: Vec<char> = vec!['#'];
    assert(hash@ =~= seq!['#']);
    !(m == 0 || crate::text::starts_with_at(t.as_slice(), 0, m, to_chars("http://").as_slice())
        || crate::text::starts_with_at(t.as_slice(), 0, m, to_chars("https://").as_slice())
        || crate::text::starts_with_at(t.as_slice(), 0, m, to_chars("//").as_slice())
        || crate::text::starts_with_at(t.as_slice(), 0, m, to_chars("data:").as_slice())
        || crate::text::starts_with_at(t.as_slice(), 0, m, hash.as_slice())
        || crate::text::starts_with_at(t.as_slice(), 0, m, to_chars("mailto:").as_slice()))
}

/// The text between each `marker` and the next `close` after it, in order.
pub open spec fn refs_spec(s: Seq<char>, marker: Seq<char>, close: char) -> Seq<Seq<char>>
    decreases s.len(),
{
    if marker.len() == 0 {
        seq![]
    } else {
        match find(s, marker) {
            None => seq![],
            Some(p) => {
                proof {
                    crate::text::lemma_find_some(s, marker, 0);
                }
                let after = s.subrange(p + marker.len(), s.len() as int);
                match find(after, seq![close]) {
                    None => seq![],
                    Some(e) => {
                        proof {
                            crate::text::lemma_find_some(after, seq![close], 0);
                        }
                        seq![after.subrange(0, e)] + refs_spec(
                            after.subrange(e, after.len() as int),
                            marker,
                            close,
                        )
                    },
                }
            },
        }
    }
}

/// Appends `refs_spec(s[lo..], marker, close)` to `out`.
pub(crate) fn refs_between(s: &[char], marker: &[char], close: char, out: &mut Vec<Vec<char>>)
    requires
        marker@.len() > 0,
    ensures
        views(final(out)@) == views(old(out)@) + refs_spec(s@, marker@, close),
{
    let ghost o0 = views(out@);
    let n = s.len();
    let cl: Vec<char> = vec![close];
    assert(cl@ =~= seq![close]);
    let mut pos: usize = 0;
    assert(s@.subrange(0, n as int) =~= s@);
    loop
        invariant
            n == s@.len(),
            marker@.len() > 0,
            cl@ == seq![close],
            0 <= pos <= n,
            o0 == views(old(out)@),
            o0 + refs_spec(s@, marker@, close) == views(out@) + refs_spec(
                s@.subrange(pos as int, n as int),
                marker@,
                close,
            ),
        decreases n - pos,
    {
        let ghost rest = s@.subrange(pos as int, n as int);
        proof {
            crate::text::lemma_find_shift(s@, marker@, pos as int);
        }
        match find_exec(s, marker, pos) {
            None => {
                assert(refs_spec(rest, marker@, close) =~= Seq::<Seq<char>>::empty());
                assert(views(out@) + refs_spec(rest, marker@, close) =~= views(out@));
                return;
            },
            Some(p) => {
                let a = p + marker.len();
                let ghost after = rest.subrange(p - pos + marker@.len(), rest.len() as int);
                assert(after =~= s@.subrange(a as int, n as int));
                proof {
                    crate::text::lemma_find_shift(s@, cl@, a as int);
                }
                match find_exec(s, cl.as_slice(), a) {
                    None => {
                        assert(refs_spec(rest, marker@, close) =~= Seq::<Seq<char>>::empty());
                        assert(views(out@) + refs_spec(rest, marker@, close) =~= views(out@));
                        return;
                    },
                    Some(e) => {
                        let ghost before = views(out@);
                        let item = slice(s, a, e);
                        out.push(item);
                        proof {
                            assert(after.subrange(0, e - a) =~= s@.subrange(a as int, e as int));
                            assert(after.subrange(e - a, after.len() as int) =~= s@.subrange(
                                e as int,
                                n as int,
                            ));
                            assert(views(out@) =~= before.push(item@));
                            assert(before + refs_spec(rest, marker@, close) =~= views(out@)
                                + refs_spec(s@.subrange(e as int, n as int), marker@, close));
                        }
                        pos = e;
                    },
                }
            },
        }
    }
}

/// `s` with every leading and trailing `c` removed (`str::trim_matches`).
pub open spec fn strip_char(s: Seq<char>, c: char) -> Seq<char>
    decreases s.len(),
{
    if s.len() > 0 && s[0] == c {
        strip_char(s.drop_first(), c)
    } else if s.len() > 0 && s.last() == c {
        strip_char(s.drop_last(), c)
    } else {
        s
    }
}

fn strip_char_exec(s: &[char], c: char) -> (r: Vec<char>)
    ensures
        r@ == strip_char(s@, c),
{
    let n = s.len();
    let mut a: usize = 0;
    let mut b: usize = n;
    assert(s@.subrange(0, n as int) =~= s@);
    while a < b && s[a] == c
        invariant
            0 <= a <= b <= n,
            n == s@.len(),
            b == n,
            strip_char(s@, c) == strip_char(s@.subrange(a as int, b as int), c),
        decreases b - a,
    {
        assert(s@.subrange(a as int, b as int).drop_first() =~= s@.subrange(a + 1, b as int));
        a = a + 1;
    }
    while a < b && s[b - 1] == c
        invariant
            0 <= a <= b <= n,
            n == s@.len(),
            a < b ==> s@[a as int] != c,
            strip_char(s@, c) == strip_char(s@.subrange(a as int, b as int), c),
        decreases b - a,
    {
        assert(s@.subrange(a as int, b as int).drop_last() =~= s@.subrange(a as int, b - 1));
        b = b - 1;
    }
    slice(s, a, b)
}

/// The first whitespace-separated word of `s`, or `s` if it has none.
pub open spec fn first_word(s: Seq<char>) -> Seq<char> {
    let t = crate::text::trim_start(s);
    if t.len() == 0 {
        s
    } else if exists|k: int| 0 <= k < t.len() && is_ws(t[k]) {
        t.subrange(0, choose|k: int| 0 <= k < t.len() && is_ws(t[k]) && forall|j: int| 0 <= j < k ==> !is_ws(#[trigger] t[j]))
    } else {
        t
    }
}

/// Paths of the Markdown images `![alt](path "title")` in `s`.
pub open spec fn md_image_refs(s: Seq<char>) -> Seq<Seq<char>>
    decreases s.len(),
{
    match find(s, "!["@) {
        None => seq![],
        Some(b) => {
            proof {
                crate::text::lemma_find_some(s, "!["@, 0);
                reveal_strlit("![");
            }
            let after = s.subrange(b, s.len() as int);
            match find(after, "]("@) {
                Some(op) => {
                    proof {
                        crate::text::lemma_find_some(after, "]("@, 0);
                        reveal_strlit("](");
                    }
                    let tail = after.subrange(op + 2, after.len() as int);
                    match find(tail, seq![')']) {
                        Some(cp) => {
                            proof {
                                crate::text::lemma_find_some(tail, seq![')'], 0);
                            }
                            seq![first_word(trim(tail.subrange(0, cp)))] + md_image_refs(
                                tail.subrange(cp, tail.len() as int),
                            )
                        },
                        None => md_image_refs(after.subrange(2, after.len() as int)),
                    }
                },
                None => md_image_refs(after.subrange(2, after.len() as int)),
            }
        },
    }
}

fn first_word_exec(s: &[char]) -> (r: Vec<char>)
    ensures
        r@ == first_word(s@),
{
    let n = s.len();
    let (a, _) = trim_bounds(s, 0, n);
    assert(s@.subrange(0, n as int) =~= s@);
    let ghost t = s@.subrange(a as int, n as int);
    if a == n {
        return slice(s, 0, n);
    }
    let mut k = a;
    while k < n && !is_whitespace(s[k])
        invariant
            a <= k <= n,
            n == s@.len(),
            t == s@.subrange(a as int, n as int),
            forall|j: int| 0 <= j < k - a ==> !is_ws(#[trigger] t[j]),
        decreases n - k,
    {
        assert(t[k - a] == s@[k as int]);
        k = k + 1;
    }
    if k < n {
        proof {
            let w = k - a;
            assert(t[w] == s@[k as int]);
            assert(0 <= w < t.len() && is_ws(t[w]));
            let c = choose|c: int| 0 <= c < t.len() && is_ws(t[c]) && forall|j: int| 0 <= j < c ==> !is_ws(#[trigger] t[j]);
            if c < w {
                assert(!is_ws(t[c]));
            } else if w < c {
                assert(!is_ws(t[w]));
            }
            assert(t.subrange(0, w) =~= s@.subrange(a as int, k as int));
        }
        slice(s, a, k)
    } else {
        proof {
            assert forall|q: int| 0 <= q < t.len() implies !is_ws(t[q]) by {}
        }
        slice(s, a, n)
    }
}

/// Appends the paths of the Markdown images in `s` to `out`.
fn md_image_refs_exec(s: &[char], out: &mut Vec<Vec<char>>)
    ensures
        views(final(out)@) == views(old(out)@) + md_image_refs(s@),
{
    let ghost o0 = views(out@);
    let n = s.len();
    let bang = to_chars("![");
    let op_pat = to_chars("](");
    let cl: Vec<char> = vec![')'];
    assert(cl@ =~= seq![')']);
    proof {
        reveal_strlit("![");
        reveal_strlit("](");
    }
    let mut pos: usize = 0;
    assert(s@.subrange(0, n as int) =~= s@);
    loop
        invariant
            n == s@.len(),
            bang@ == "!["@,
            op_pat@ == "]("@,
            bang@.len() == 2,
            op_pat@.len() == 2,
            cl@ == seq![')'],
            0 <= pos <= n,
            o0 == views(old(out)@),
            o0 + md_image_refs(s@) == views(out@) + md_image_refs(s@.subrange(pos as int, n as int)),
        decreases n - pos,
    {
        let ghost rest = s@.subrange(pos as int, n as int);
        proof {
            crate::text::lemma_find_shift(s@, bang@, pos as int);
        }
        match find_exec(s, bang.as_slice(), pos) {
            None => {
                assert(md_image_refs(rest) =~= Seq::<Seq<char>>::empty());
                assert(views(out@) + md_image_refs(rest) =~= views(out@));
                return;
            },
            Some(b) => {
                let ghost after = rest.subrange(b - pos, rest.len() as int);
                assert(after =~= s@.subrange(b as int, n as int));
                proof {
                    crate::text::lemma_find_shift(s@, op_pat@, b as int);
                }
                match find_exec(s, op_pat.as_slice(), b) {
                    Some(op) => {
                        let t0 = op + 2;
                        let ghost tail = after.subrange(op - b + 2, after.len() as int);
                        assert(tail =~= s@.subrange(t0 as int, n as int));
                        proof {
                            crate::text::lemma_find_shift(s@, cl@, t0 as int);
                        }
                        match find_exec(s, cl.as_slice(), t0) {
                            Some(cp) => {
                                let raw = trimmed(slice(s, t0, cp).as_slice());
                                let path = first_word_exec(raw.as_slice());
                                let ghost before = views(out@);
                                out.push(path);
                                proof {
                                    assert(tail.subrange(0, cp - t0) =~= s@.subrange(t0 as int, cp as int));
                                    assert(tail.subrange(cp - t0, tail.len() as int) =~= s@.subrange(
                                        cp as int,
                                        n as int,
                                    ));
                                    assert(views(out@) =~= before.push(path@));
                                    assert(before + md_image_refs(rest) =~= views(out@)
                                        + md_image_refs(s@.subrange(cp as int, n as int)));
                                }
                                pos = cp;
                            },
                            None => {
                                assert(after.subrange(2, after.len() as int) =~= s@.subrange(
                                    b + 2,
                                    n as int,
                                ));
                                pos = b + 2;
                            },
                        }
                    },
                    None => {
                        assert(after.subrange(2, after.len() as int) =~= s@.subrange(b + 2, n as int));
                        pos = b + 2;
                    },
                }
            },
        }
    }
}

/// All references a slide body makes to files: `src="..."`, `src='...'`,
/// CSS `url(...)` (quotes removed) and Markdown images, in that order, before
/// dropping the non-local ones.
pub open spec fn all_refs(body: Seq<char>) -> Seq<Seq<char>> {
    refs_spec(body, "src=\""@, '"') + refs_spec(body, "src='"@, '\'') + refs_spec(
        body,
        "url("@,
        ')',
    ).map_values(|u: Seq<char>| strip_char(strip_char(trim(u), '"'), '\'')) + md_image_refs(body)
}

/// The local asset paths a slide body references.
pub open spec fn local_refs_spec(body: Seq<char>) -> Seq<Seq<char>> {
    all_refs(body).filter(|r: Seq<char>| is_local_ref_spec(r))
}

/// All local asset paths referenced in a slide body: `<img src>`, CSS
/// `url()`, and Markdown images `![](path)`.
pub fn collect_local_refs(body: &str) -> (r: Vec<String>)
    ensures
        crate::theme::string_views(r@) == local_refs_spec(body@),
{
    let v = collect_local_refs_chars(to_chars(body).as_slice());
    let mut r: Vec<String> = Vec::new();
    let mut i: usize = 0;
    while i < v.len()
        invariant
            0 <= i <= v@.len(),
            crate::theme::string_views(r@) == views(v@).take(i as int),
        decreases v@.len() - i,
    {
        let s = to_string(v[i].as_slice());
        let ghost prev = r@;
        r.push(s);
        assert(crate::theme::string_views(r@) =~= crate::theme::string_views(prev).push(s@));
        assert(views(v@).take(i + 1) =~= views(v@).take(i as int).push(views(v@)[i as int]));
        i = i + 1;
    }
    assert(views(v@).take(v@.len() as int) =~= views(v@));
    r
}

/// `collect_local_refs` on characters.
pub fn collect_local_refs_chars(body: &[char]) -> (r: Vec<Vec<char>>)
    ensures
        views(r@) == local_refs_spec(body@),
{
    let mut refs: Vec<Vec<char>> = Vec::new();
    let m1 = to_chars("src=\"");
    let m2 = to_chars("src='");
    let m3 = to_chars("url(");
    proof {
        reveal_strlit("src=\"");
        reveal_strlit("src='");
        reveal_strlit("url(");
    }
    refs_between(body, m1.as_slice(), '"', &mut refs);
    refs_between(body, m2.as_slice(), '\'', &mut refs);
    let mut urls: Vec<Vec<char>> = Vec::new();
    refs_between(body, m3.as_slice(), ')', &mut urls);
    let ghost uv = views(urls@);
    let ghost base = views(refs@);
    let mut i: usize = 0;
    while i < urls.len()
        invariant
            0 <= i <= urls@.len(),
            uv == views(urls@),
            views(refs@) == base + uv.take(i as int).map_values(
                |u: Seq<char>| strip_char(strip_char(trim(u), '"'), '\''),
            ),
        decreases urls@.len() - i,
    {
        let t = trimmed(urls[i].as_slice());
        let a = strip_char_exec(t.as_slice(), '"');
        let v = strip_char_exec(a.as_slice(), '\'');
        let ghost prev = views(refs@);
        refs.push(v);
        proof {
            assert(uv[i as int] == urls@[i as int]@);
            assert(views(refs@) =~= prev.push(v@));
            assert(uv.take(i + 1).map_values(|u: Seq<char>| strip_char(strip_char(trim(u), '"'), '\''))
                =~= uv.take(i as int).map_values(
                |u: Seq<char>| strip_char(strip_char(trim(u), '"'), '\''),
            ).push(strip_char(strip_char(trim(uv[i as int]), '"'), '\'')));
        }
        i = i + 1;
    }
    assert(uv.take(urls@.len() as int) =~= uv);
    md_image_refs_exec(body, &mut refs);
    let ghost all = views(refs@);
    assert(all =~= all_refs(body@));
    let ghost pred = |r: Seq<char>| is_local_ref_spec(r);
    let mut kept: Vec<Vec<char>> = Vec::new();
    let mut j: usize = 0;
    while j < refs.len()
        invariant
            0 <= j <= refs@.len(),
            all == views(refs@),
            pred == (|r: Seq<char>| is_local_ref_spec(r)),
            views(kept@) == all.take(j as int).filter(pred),
        decreases refs@.len() - j,
    {
        let ghost before = views(kept@);
        let keep = is_local_ref(refs[j].as_slice());
        if keep {
            kept.push(slice(refs[j].as_slice(), 0, refs[j].len()));
        }
        proof {
            reveal_with_fuel(Seq::<_>::filter, 1);
            assert(refs@[j as int]@.subrange(0, refs@[j as int]@.len() as int) =~= refs@[j as int]@);
            assert(all.take(j + 1).drop_last() =~= all.take(j as int));
            assert(all.take(j + 1).last() == all[j as int]);
            assert(views(kept@) =~= all.take(j + 1).filter(pred));
        }
        j = j + 1;
    }
    assert(all.take(refs@.len() as int) =~= all);
    kept
}

// ---------------------------------------------------------------------------
// Diagnostics
// ---------------------------------------------------------------------------

#[derive(PartialEq, Eq, Structural, Clone, Copy, Debug)]
pub enum Severity {
    Error,
    Warning,
}

/// One problem found in a deck.
pub struct Diagnostic {
    pub severity: Severity,
    /// The slide's number, counting from 1; `None` for the global block.
    pub slide: Option<usize>,
    pub message: String,
}

/// A diagnostic as a mathematical value.
pub struct DiagView {
    pub error: bool,
    pub slide: Option<usize>,
    pub message: Seq<char>,
}

impl Diagnostic {
    pub open spec fn view(&self) -> DiagView {
        DiagView { error: self.severity == Severity::Error, slide: self.slide, message: self.message@ }
    }
}

pub open spec fn diag_views(d: Seq<Diagnostic>) -> Seq<DiagView> {
    d.map_values(|x: Diagnostic| x.view())
}

/// A warning about `slide`.
pub open spec fn warning(slide: Option<usize>, message: Seq<char>) -> DiagView {
    DiagView { error: false, slide, message }
}

/// Warnings for indented `key: value` lines at the top of a block (they are
/// dropped: frontmatter is flat), scanning lines `ls` from `i` up to the
/// first blank line.
pub open spec fn indent_diags(ls: Seq<Seq<char>>, i: int, slide: Option<usize>) -> Seq<DiagView>
    decreases ls.len() - i,
{
    if i < 0 || i >= ls.len() {
        seq![]
    } else {
        let line = ls[i];
        let t = trim(line);
        if t.len() == 0 {
            seq![]
        } else {
            (if line.len() > 0 && (line[0] == ' ' || line[0] == '\t') && contains(t, seq![':'])
                && alphanumeric(t[0]) {
                seq![
                    warning(
                        slide,
                        "indented frontmatter is ignored (use flat `key: value` only): `"@ + t
                            + "`"@,
                    ),
                ]
            } else {
                seq![]
            }) + indent_diags(ls, i + 1, slide)
        }
    }
}

fn push_diag(diags: &mut Vec<Diagnostic>, severity: Severity, slide: Option<usize>, message: Vec<char>)
    ensures
        diag_views(final(diags)@) == diag_views(old(diags)@).push(
            DiagView { error: severity == Severity::Error, slide, message: message@ },
        ),
{
    let ghost before = diag_views(diags@);
    let d = Diagnostic { severity, slide, message: to_string(message.as_slice()) };
    diags.push(d);
    assert(diag_views(diags@) =~= before.push(d.view()));
}

/// Warns about indented frontmatter lines, which are silently dropped.
pub fn check_frontmatter_indent(block: &[char], slide: Option<usize>, diags: &mut Vec<Diagnostic>)
    ensures
        diag_views(final(diags)@) == diag_views(old(diags)@) + indent_diags(lines(block@), 0, slide),
{
    let ls = lines_exec(block);
    let ghost lv = views(ls@);
    let ghost d0 = diag_views(diags@);
    let colon: Vec<char> = vec![':'];
    assert(colon@ =~= seq![':']);
    let n = ls.len();
    let mut i: usize = 0;
    while i < n
        invariant
            n == ls@.len(),
            lv == views(ls@),
            lv == lines(block@),
            colon@ == seq![':'],
            0 <= i <= n,
            d0 == diag_views(old(diags)@),
            d0 + indent_diags(lv, 0, slide) == diag_views(diags@) + indent_diags(lv, i as int, slide),
        decreases n - i,
    {
        let line = &ls[i];
        assert(lv[i as int] == line@);
        let t = trimmed(line.as_slice());
        if t.len() == 0 {
            assert(indent_diags(lv, i as int, slide) =~= Seq::<DiagView>::empty());
            assert(diag_views(diags@) + indent_diags(lv, i as int, slide) =~= diag_views(diags@));
            return;
        }
        let ghost before = diag_views(diags@);
        let m = line.len();
        if m > 0 && (line[0] == ' ' || line[0] == '\t') {
            if contains_exec(t.as_slice(), colon.as_slice()) && is_alphanumeric(t[0]) {
                let mut msg = to_chars("indented frontmatter is ignored (use flat `key: value` only): `");
                push_all(&mut msg, t.as_slice());
                push_all(&mut msg, to_chars("`").as_slice());
                push_diag(diags, Severity::Warning, slide, msg);
            }
        }
        assert(before + indent_diags(lv, i as int, slide) =~= diag_views(diags@) + indent_diags(
            lv,
            i + 1,
            slide,
        ));
        i = i + 1;
    }
    assert(indent_diags(lv, n as int, slide) =~= Seq::<DiagView>::empty());
    assert(diag_views(diags@) + indent_diags(lv, n as int, slide) =~= diag_views(diags@));
}

/// Errors for the references whose file is missing: `present` lists the
/// paths (relative, without a leading `./`) that exist.
pub open spec fn missing_diags(refs: Seq<Seq<char>>, present: Seq<Seq<char>>, no: usize) -> Seq<DiagView>
    decreases refs.len(),
{
    if refs.len() == 0 {
        seq![]
    } else {
        let r = refs.last();
        missing_diags(refs.drop_last(), present, no) + if present.contains(strip_all(r, "./"@)) {
            seq![]
        } else {
            seq![DiagView { error: true, slide: Some(no), message: "asset not found: `"@ + r + "`"@ }]
        }
    }
}

/// Number of non-blank lines.
pub open spec fn nonblank_count(ls: Seq<Seq<char>>) -> int
    decreases ls.len(),
{
    if ls.len() == 0 {
        0
    } else {
        nonblank_count(ls.drop_last()) + if trim(ls.last()).len() > 0 {
            1int
        } else {
            0int
        }
    }
}

/// Layouts with little content, exempt from the density check.
pub open spec fn is_sparse_layout(name: Seq<char>) -> bool {
    name == "slide-cover"@ || name == "slide-section"@ || name == "slide-image-full"@ || name
        == "slide-quote"@
}

/// The diagnostics for slide `no` with layout `layout` and body `body`.
pub open spec fn slide_diags(
    no: usize,
    layout: Option<Seq<char>>,
    body: Seq<char>,
    present: Seq<Seq<char>>,
    layouts: LayoutSet,
) -> Seq<DiagView> {
    let lname = match layout {
        Some(l) => l,
        None => "slide-default"@,
    };
    (if layouts.resolve_spec(lname) is None {
        seq![
            warning(
                Some(no),
                "unknown layout `"@ + lname + "` \u{2014} wb-slide falls back to slide-default"@,
            ),
        ]
    } else {
        seq![]
    }) + (if raw_html_blank_line_spec(body) {
        seq![
            warning(
                Some(no),
                "blank line inside a raw HTML/SVG block \u{2014} content after it renders as literal text"@,
            ),
        ]
    } else {
        seq![]
    }) + missing_diags(local_refs_spec(body), present, no) + (if !is_sparse_layout(lname) && (
    body.len() > 1100 || nonblank_count(lines(body)) > 22) {
        seq![
            warning(
                Some(no),
                "slide looks dense and may overflow the 960x540 canvas (heuristic) \u{2014} consider splitting"@,
            ),
        ]
    } else {
        seq![]
    })
}

fn is_present(present: &Vec<String>, rel: &[char]) -> (b: bool)
    ensures
        b == crate::theme::string_views(present@).contains(rel@),
{
    let ghost pv = crate::theme::string_views(present@);
    let mut i: usize = 0;
    while i < present.len()
        invariant
            pv == crate::theme::string_views(present@),
            0 <= i <= pv.len(),
            forall|j: int| 0 <= j < i ==> pv[j] != rel@,
        decreases pv.len() - i,
    {
        assert(pv[i as int] == present@[i as int]@);
        if crate::text::chars_eq(to_chars(present[i].as_str()).as_slice(), rel) {
            return true;
        }
        i = i + 1;
    }
    false
}

fn nonblank_lines(body: &[char]) -> (n: usize)
    ensures
        n == nonblank_count(lines(body@)),
{
    let ls = lines_exec(body);
    let ghost lv = views(ls@);
    let mut n: usize = 0;
    let mut i: usize = 0;
    while i < ls.len()
        invariant
            lv == views(ls@),
            0 <= i <= ls@.len(),
            0 <= n <= i,
            n == nonblank_count(lv.take(i as int)),
        decreases ls@.len() - i,
    {
        assert(lv.take(i + 1).drop_last() =~= lv.take(i as int));
        assert(lv.take(i + 1).last() == ls@[i as int]@);
        let (a, e) = trim_bounds(ls[i].as_slice(), 0, ls[i].len());
        assert(ls@[i as int]@.subrange(0, ls@[i as int]@.len() as int) =~= ls@[i as int]@);
        if a < e {
            n = n + 1;
        }
        i = i + 1;
    }
    assert(lv.take(ls@.len() as int) =~= lv);
    n
}

/// Checks one slide.
pub fn check_slide(
    no: usize,
    layout: Option<&[char]>,
    body: &[char],
    present: &Vec<String>,
    layouts: &LayoutSet,
    diags: &mut Vec<Diagnostic>,
)
    ensures
        diag_views(final(diags)@) == diag_views(old(diags)@) + slide_diags(
            no,
            match layout {
                Some(l) => Some(l@),
                None => None,
            },
            body@,
            crate::theme::string_views(present@),
            *layouts,
        ),
{
    let ghost d0 = diag_views(diags@);
    let lname = match layout {
        Some(l) => slice(l, 0, l.len()),
        None => to_chars("slide-default"),
    };
    proof {
        match layout {
            Some(l) => assert(l@.subrange(0, l@.len() as int) =~= l@),
            None => {},
        }
    }
    if layouts.resolve_chars(lname.as_slice()).is_none() {
        let mut msg = to_chars("unknown layout `");
        push_all(&mut msg, lname.as_slice());
        push_all(&mut msg, to_chars("` \u{2014} wb-slide falls back to slide-default").as_slice());
        push_diag(diags, Severity::Warning, Some(no), msg);
    }
    let ghost d1 = diag_views(diags@);
    if raw_html_blank_line_chars(body) {
        push_diag(
            diags,
            Severity::Warning,
            Some(no),
            to_chars(
                "blank line inside a raw HTML/SVG block \u{2014} content after it renders as literal text",
            ),
        );
    }
    let ghost d2 = diag_views(diags@);
    let refs = collect_local_refs_chars(body);
    let ghost rv = views(refs@);
    let ghost pv = crate::theme::string_views(present@);
    let dot = to_chars("./");
    let mut i: usize = 0;
    while i < refs.len()
        invariant
            0 <= i <= refs@.len(),
            rv == views(refs@),
            pv == crate::theme::string_views(present@),
            dot@ == "./"@,
            diag_views(diags@) == d2 + missing_diags(rv.take(i as int), pv, no),
        decreases refs@.len() - i,
    {
        let r = &refs[i];
        assert(rv[i as int] == r@);
        let k = crate::deck::strip_all_chars(r.as_slice(), dot.as_slice());
        let rel = slice(r.as_slice(), k, r.len());
        proof {
            assert(r@.subrange(0, r@.len() as int) =~= r@);
            assert(rv.take(i + 1).drop_last() =~= rv.take(i as int));
            assert(rv.take(i + 1).last() == r@);
        }
        if !is_present(present, rel.as_slice()) {
            let mut msg = to_chars("asset not found: `");
            push_all(&mut msg, r.as_slice());
            push_all(&mut msg, to_chars("`").as_slice());
            push_diag(diags, Severity::Error, Some(no), msg);
        }
        assert(diag_views(diags@) =~= d2 + missing_diags(rv.take(i + 1), pv, no));
        i = i + 1;
    }
    assert(rv.take(refs@.len() as int) =~= rv);
    let ghost d3 = diag_views(diags@);
    let sparse = crate::text::chars_eq(lname.as_slice(), to_chars("slide-cover").as_slice())
        || crate::text::chars_eq(lname.as_slice(), to_chars("slide-section").as_slice())
        || crate::text::chars_eq(lname.as_slice(), to_chars("slide-image-full").as_slice())
        || crate::text::chars_eq(lname.as_slice(), to_chars("slide-quote").as_slice());
    if !sparse && (body.len() > 1100 || nonblank_lines(body) > 22) {
        push_diag(
            diags,
            Severity::Warning,
            Some(no),
            to_chars(
                "slide looks dense and may overflow the 960x540 canvas (heuristic) \u{2014} consider splitting",
            ),
        );
    }
    assert(diag_views(diags@) =~= d0 + slide_diags(
        no,
        match layout {
            Some(l) => Some(l@),
            None => None,
        },
        body@,
        pv,
        *layouts,
    ));
}

/// The diagnostics of the slides whose frontmatter blocks are `blocks[i]`,
/// `blocks[i + 2]`, ...; the slide of block `i` is number `i / 2 + 1`.
pub open spec fn later_diags(
    blocks: Seq<Seq<char>>,
    i: int,
    present: Seq<Seq<char>>,
    layouts: LayoutSet,
) -> Seq<DiagView>
    decreases blocks.len() + 1 - i,
{
    if i < 0 || i >= blocks.len() {
        seq![]
    } else {
        match frontmatter_spec(blocks[i]) {
            None => seq![],
            Some(p) => {
                let no = (i / 2 + 1) as usize;
                indent_diags(lines(blocks[i]), 0, Some(no)) + slide_diags(
                    no,
                    crate::assets::file_text(p.0, layout_key()),
                    slide_body(blocks, i, p.1),
                    present,
                    layouts,
                ) + later_diags(blocks, i + 2, present, layouts)
            },
        }
    }
}

/// All diagnostics of a deck, in order: the global block's, then each
/// slide's. `present` lists the asset paths that exist.
pub open spec fn deck_diags(raw: Seq<char>, present: Seq<Seq<char>>, layouts: LayoutSet) -> Seq<
    DiagView,
> {
    let blocks = split(raw, block_sep());
    let gb = global_block(raw);
    let gl = match frontmatter_spec(gb) {
        Some(p) => crate::assets::file_text(p.0, layout_key()),
        None => None,
    };
    indent_diags(lines(gb), 0, None) + (if blocks.len() > 1 {
        slide_diags(1, gl, trim(blocks[1]), present, layouts)
    } else {
        seq![]
    }) + later_diags(blocks, 2, present, layouts)
}

proof fn lemma_diags_step(
    bv: Seq<Seq<char>>,
    i: int,
    pv: Seq<Seq<char>>,
    layouts: LayoutSet,
    fm: Seq<(Seq<char>, Seq<char>)>,
    inline: Seq<char>,
)
    requires
        0 <= i < bv.len(),
        frontmatter_spec(bv[i]) == Some((fm, inline)),
    ensures
        later_diags(bv, i, pv, layouts) == indent_diags(lines(bv[i]), 0, Some((i / 2 + 1) as usize))
            + slide_diags(
            (i / 2 + 1) as usize,
            crate::assets::file_text(fm, layout_key()),
            slide_body(bv, i, inline),
            pv,
            layouts,
        ) + later_diags(bv, i + 2, pv, layouts),
{
}

/// Runs all static checks over a deck's raw `slides.md`. `present` lists
/// the referenced asset paths (relative, without a leading `./`) that exist.
pub fn validate_deck(raw: &str, present: &Vec<String>, layouts: &LayoutSet) -> (r: Vec<Diagnostic>)
    requires
        slides_spec(raw@) is Some,
    ensures
        diag_views(r@) == deck_diags(raw@, crate::theme::string_views(present@), *layouts),
{
    let ghost pv = crate::theme::string_views(present@);
    let v = to_chars(raw);
    let sep: Vec<char> = vec!['\n', '-', '-', '-', '\n'];
    assert(sep@ =~= block_sep());
    let blocks = split_exec(v.as_slice(), sep.as_slice());
    let ghost bv = views(blocks@);
    let p1: Vec<char> = vec!['-', '-', '-', '\n'];
    let p2: Vec<char> = vec!['-', '-', '-', '\r', '\n'];
    assert(p1@ =~= seq!['-', '-', '-', '\n']);
    assert(p2@ =~= seq!['-', '-', '-', '\r', '\n']);
    let b0 = &blocks[0];
    assert(bv[0] == b0@);
    let k1 = crate::deck::strip_all_exec(b0.as_slice(), 0, p1.as_slice());
    let k2 = crate::deck::strip_all_exec(b0.as_slice(), k1, p2.as_slice());
    assert(b0@.subrange(0, b0@.len() as int) =~= b0@);
    let gb = slice(b0.as_slice(), k2, b0.len());
    assert(gb@ == global_block(raw@));
    let lay = to_chars("layout");
    assert(lay@ =~= layout_key()) by {
        reveal_strlit("layout");
    }
    let global_layout: Option<Vec<char>> = match parse_frontmatter_checked(gb.as_slice()) {
        None => None,
        Some((m, _)) => match first_key_index(&m, lay.as_slice()) {
            Some(j) => {
                let g = slice(m[j].1.as_slice(), 0, m[j].1.len());
                assert(m@[j as int].1@.subrange(0, m@[j as int].1@.len() as int) =~= m@[j as int].1@);
                Some(g)
            },
            None => None,
        },
    };
    let ghost gl = match frontmatter_spec(gb@) {
        Some(p) => crate::assets::file_text(p.0, layout_key()),
        None => None,
    };
    assert(match global_layout {
        Some(g) => gl == Some(g@),
        None => gl is None,
    });
    let mut diags: Vec<Diagnostic> = Vec::new();
    assert(diag_views(diags@) =~= Seq::<DiagView>::empty());
    check_frontmatter_indent(gb.as_slice(), None, &mut diags);
    let nb = blocks.len();
    if nb > 1 {
        assert(bv[1] == blocks@[1]@);
        let body = trimmed(blocks[1].as_slice());
        match &global_layout {
            Some(g) => check_slide(1, Some(g.as_slice()), body.as_slice(), present, layouts, &mut diags),
            None => check_slide(1, None, body.as_slice(), present, layouts, &mut diags),
        }
    }
    let ghost head = diag_views(diags@);
    let ghost dd = deck_diags(raw@, pv, *layouts);
    assert(dd =~= head + later_diags(bv, 2, pv, *layouts));
    proof {
        let g = frontmatter_spec(global_block(raw@));
        assert(g is Some);
        assert(crate::deck::later_slides(bv, 2) is Some);
    }
    let mut i: usize = 2;
    while i < nb
        invariant
            nb == blocks@.len(),
            bv == views(blocks@),
            pv == crate::theme::string_views(present@),
            lay@ == layout_key(),
            2 <= i,
            crate::deck::later_slides(bv, i as int) is Some,
            dd == diag_views(diags@) + later_diags(bv, i as int, pv, *layouts),
        decreases nb + 1 - i,
    {
        assert(bv[i as int] == blocks@[i as int]@);
        assert(frontmatter_spec(bv[i as int]) is Some);
        let (fm, inline) = match parse_frontmatter_checked(blocks[i].as_slice()) {
            None => {
                proof {
                    assert(false);
                }
                return diags;
            },
            Some(p) => p,
        };
        let no = i / 2 + 1;
        let ghost before = diag_views(diags@);
        check_frontmatter_indent(blocks[i].as_slice(), Some(no), &mut diags);
        let layout: Option<Vec<char>> = match first_key_index(&fm, lay.as_slice()) {
            Some(j) => {
                let g = slice(fm[j].1.as_slice(), 0, fm[j].1.len());
                assert(fm@[j as int].1@.subrange(0, fm@[j as int].1@.len() as int) =~= fm@[j as int].1@);
                Some(g)
            },
            None => None,
        };
        let body = if i + 1 < nb {
            assert(bv[i + 1] == blocks@[i + 1]@);
            let next = trimmed(blocks[i + 1].as_slice());
            if inline.len() == 0 {
                next
            } else {
                let mut b = inline;
                b.push('\n');
                push_all(&mut b, next.as_slice());
                b
            }
        } else {
            inline
        };
        assert(body@ == slide_body(bv, i as int, inline@));
        match &layout {
            Some(g) => check_slide(no, Some(g.as_slice()), body.as_slice(), present, layouts, &mut diags),
            None => check_slide(no, None, body.as_slice(), present, layouts, &mut diags),
        }
        proof {
            lemma_diags_step(bv, i as int, pv, *layouts, cpairs(fm@), inline@);
            assert(diag_views(diags@) =~= before + (indent_diags(lines(bv[i as int]), 0, Some(no))
                + slide_diags(
                no,
                crate::assets::file_text(cpairs(fm@), layout_key()),
                slide_body(bv, i as int, inline@),
                pv,
                *layouts,
            )));
            assert(dd =~= diag_views(diags@) + later_diags(bv, i + 2, pv, *layouts));
        }
        i = i + 1;
        if i < nb {
            i = i + 1;
        } else {
            assert(later_diags(bv, i + 1, pv, *layouts) == later_diags(bv, i as int, pv, *layouts));
            assert(crate::deck::later_slides(bv, i + 1) == crate::deck::later_slides(bv, i as int));
        }
    }
    assert(later_diags(bv, i as int, pv, *layouts) =~= Seq::<DiagView>::empty());
    assert(diag_views(diags@) + later_diags(bv, i as int, pv, *layouts) =~= diag_views(diags@));
    diags
}

/// The bodies `validate_deck` checks, slide by slide, from block `i` on.
pub open spec fn later_bodies(blocks: Seq<Seq<char>>, i: int) -> Seq<Seq<char>>
    decreases blocks.len() + 1 - i,
{
    if i < 0 || i >= blocks.len() {
        seq![]
    } else {
        match frontmatter_spec(blocks[i]) {
            None => seq![],
            Some(p) => seq![slide_body(blocks, i, p.1)] + later_bodies(blocks, i + 2),
        }
    }
}

/// The slide bodies of a deck as `validate_deck` checks them.
pub open spec fn deck_bodies(raw: Seq<char>) -> Seq<Seq<char>> {
    let blocks = split(raw, block_sep());
    (if blocks.len() > 1 {
        seq![trim(blocks[1])]
    } else {
        seq![]
    }) + later_bodies(blocks, 2)
}

proof fn lemma_bodies_step(bv: Seq<Seq<char>>, i: int, inline: Seq<char>)
    requires
        0 <= i < bv.len(),
        frontmatter_spec(bv[i]) matches Some(p) && p.1 == inline,
    ensures
        later_bodies(bv, i) == seq![slide_body(bv, i, inline)] + later_bodies(bv, i + 2),
{
}

/// The slide bodies of a deck, as `validate_deck` checks them; their local
/// references are the assets whose presence matters.
pub fn slide_bodies(raw: &str) -> (r: Vec<String>)
    requires
        slides_spec(raw@) is Some,
    ensures
        crate::theme::string_views(r@) == deck_bodies(raw@),
{
    let v = to_chars(raw);
    let sep: Vec<char> = vec!['\n', '-', '-', '-', '\n'];
    assert(sep@ =~= block_sep());
    let blocks = split_exec(v.as_slice(), sep.as_slice());
    let ghost bv = views(blocks@);
    let nb = blocks.len();
    let mut out: Vec<Vec<char>> = Vec::new();
    if nb > 1 {
        assert(bv[1] == blocks@[1]@);
        out.push(trimmed(blocks[1].as_slice()));
    }
    let ghost db = deck_bodies(raw@);
    assert(db =~= views(out@) + later_bodies(bv, 2));
    assert(crate::deck::later_slides(bv, 2) is Some);
    let mut i: usize = 2;
    while i < nb
        invariant
            nb == blocks@.len(),
            bv == views(blocks@),
            2 <= i,
            crate::deck::later_slides(bv, i as int) is Some,
            db == views(out@) + later_bodies(bv, i as int),
        decreases nb + 1 - i,
    {
        assert(bv[i as int] == blocks@[i as int]@);
        let ghost fs = frontmatter_spec(bv[i as int]);
        assert(fs is Some);
        let (_, inline) = match parse_frontmatter_checked(blocks[i].as_slice()) {
            None => {
                proof {
                    assert(false);
                }
                return Vec::new();
            },
            Some(p) => p,
        };
        let body = if i + 1 < nb {
            assert(bv[i + 1] == blocks@[i + 1]@);
            let next = trimmed(blocks[i + 1].as_slice());
            if inline.len() == 0 {
                next
            } else {
                let mut b = inline;
                b.push('\n');
                push_all(&mut b, next.as_slice());
                b
            }
        } else {
            inline
        };
        proof {
            assert(body@ == slide_body(bv, i as int, inline@));
            lemma_bodies_step(bv, i as int, inline@);
        }
        let ghost before = views(out@);
        let ghost bb = body@;
        out.push(body);
        assert(views(out@) =~= before.push(bb));
        assert(db =~= views(out@) + later_bodies(bv, i + 2));
        i = i + 1;
        if i < nb {
            i = i + 1;
        } else {
            assert(later_bodies(bv, i + 1) == later_bodies(bv, i as int));
            assert(crate::deck::later_slides(bv, i + 1) == crate::deck::later_slides(bv, i as int));
        }
    }
    assert(later_bodies(bv, i as int) =~= Seq::<Seq<char>>::empty());
    assert(views(out@) + later_bodies(bv, i as int) =~= views(out@));
    crate::theme::to_strings(&out)
}

/// The path, relative to the deck, that a local reference names: leading
/// `./` removed.
pub fn asset_rel_path(r: &str) -> (p: String)
    ensures
        p@ == strip_all(r@, "./"@),
{
    let v = to_chars(r);
    let k = crate::deck::strip_all_chars(v.as_slice(), to_chars("./").as_slice());
    to_string(slice(v.as_slice(), k, v.len()).as_slice())
}

// ---------------------------------------------------------------------------
// Report
// ---------------------------------------------------------------------------

/// How a diagnostic is printed: `  [error] slide 3: message`, with `warn `
/// for warnings and `global` for the global block.
pub open spec fn diag_line(d: DiagView) -> Seq<char> {
    "  ["@ + (if d.error {
        "error"@
    } else {
        "warn "@
    }) + "] "@ + match d.slide {
        Some(n) => "slide "@ + crate::text::decimal(n as nat),
        None => "global"@,
    } + ": "@ + d.message
}

/// Number of errors among `ds`.
pub open spec fn error_count(ds: Seq<DiagView>) -> nat
    decreases ds.len(),
{
    if ds.len() == 0 {
        0
    } else {
        error_count(ds.drop_last()) + if ds.last().error {
            1nat
        } else {
            0nat
        }
    }
}

/// Number of warnings among `ds`.
pub open spec fn warning_count(ds: Seq<DiagView>) -> nat
    decreases ds.len(),
{
    if ds.len() == 0 {
        0
    } else {
        warning_count(ds.drop_last()) + if ds.last().error {
            0nat
        } else {
            1nat
        }
    }
}

/// What `validate` prints and whether it fails.
pub struct ValidationReport {
    /// One line per diagnostic, in order.
    pub lines: Vec<String>,
    /// `\n<e> error(s), <w> warning(s)`; `None` when there is nothing to
    /// report.
    pub summary: Option<String>,
    /// The run fails on any error, and on any warning in strict mode.
    pub failed: bool,
}

/// The report of a validation run: each diagnostic's line, the counts, and
/// the exit decision.
pub fn validation_report(diags: &Vec<Diagnostic>, strict: bool) -> (r: ValidationReport)
    ensures
        crate::theme::string_views(r.lines@) == diag_views(diags@).map_values(|d: DiagView| diag_line(d)),
        match r.summary {
            Some(s) => diags@.len() > 0 && s@ == seq!['\n'] + crate::text::decimal(
                error_count(diag_views(diags@)),
            ) + " error(s), "@ + crate::text::decimal(warning_count(diag_views(diags@)))
                + " warning(s)"@,
            None => diags@.len() == 0,
        },
        r.failed == (error_count(diag_views(diags@)) > 0 || (strict && warning_count(
            diag_views(diags@),
        ) > 0)),
{
    let ghost ds = diag_views(diags@);
    let mut lines: Vec<String> = Vec::new();
    let mut errors: usize = 0;
    let mut warnings: usize = 0;
    let mut i: usize = 0;
    while i < diags.len()
        invariant
            ds == diag_views(diags@),
            0 <= i <= ds.len(),
            errors == error_count(ds.take(i as int)),
            warnings == warning_count(ds.take(i as int)),
            errors + warnings == i,
            crate::theme::string_views(lines@) == ds.take(i as int).map_values(
                |d: DiagView| diag_line(d),
            ),
        decreases ds.len() - i,
    {
        let d = &diags[i];
        assert(ds[i as int] == d.view());
        let mut out: Vec<char> = Vec::new();
        push_all(&mut out, to_chars("  [").as_slice());
        match d.severity {
            Severity::Error => push_all(&mut out, to_chars("error").as_slice()),
            Severity::Warning => push_all(&mut out, to_chars("warn ").as_slice()),
        }
        push_all(&mut out, to_chars("] ").as_slice());
        match d.slide {
            Some(n) => {
                push_all(&mut out, to_chars("slide ").as_slice());
                crate::text::push_decimal(&mut out, n);
            },
            None => push_all(&mut out, to_chars("global").as_slice()),
        }
        push_all(&mut out, to_chars(": ").as_slice());
        push_all(&mut out, to_chars(d.message.as_str()).as_slice());
        assert(out@ =~= diag_line(ds[i as int]));
        let ghost prev = lines@;
        lines.push(to_string(out.as_slice()));
        proof {
            assert(ds.take(i + 1).drop_last() =~= ds.take(i as int));
            assert(ds.take(i + 1).last() == ds[i as int]);
            assert(crate::theme::string_views(lines@) =~= crate::theme::string_views(prev).push(
                diag_line(ds[i as int]),
            ));
            assert(ds.take(i + 1).map_values(|d: DiagView| diag_line(d)) =~= ds.take(
                i as int,
            ).map_values(|d: DiagView| diag_line(d)).push(diag_line(ds[i as int])));
        }
        match d.severity {
            Severity::Error => {
                errors = errors + 1;
            },
            Severity::Warning => {
                warnings = warnings + 1;
            },
        }
        i = i + 1;
    }
    assert(ds.take(ds.len() as int) =~= ds);
    let summary = if diags.len() == 0 {
        None
    } else {
        let mut out: Vec<char> = vec!['\n'];
        crate::text::push_decimal(&mut out, errors);
        push_all(&mut out, to_chars(" error(s), ").as_slice());
        crate::text::push_decimal(&mut out, warnings);
        push_all(&mut out, to_chars(" warning(s)").as_slice());
        Some(to_string(out.as_slice()))
    };
    ValidationReport { lines, summary, failed: errors > 0 || (strict && warnings > 0) }
}

// ---------------------------------------------------------------------------
// Laws
// ---------------------------------------------------------------------------

/// `asset not found: ``
pub open spec fn missing_prefix() -> Seq<char> {
    "asset not found: `"@
}

/// Every error among `ds` reports a missing asset.
pub open spec fn errors_are_missing_assets(ds: Seq<DiagView>) -> bool {
    forall|i: int| 0 <= i < ds.len() && (#[trigger] ds[i]).error ==> has_prefix(ds[i].message, missing_prefix())
}

proof fn lemma_errors_concat(a: Seq<DiagView>, b: Seq<DiagView>)
    requires
        errors_are_missing_assets(a),
        errors_are_missing_assets(b),
    ensures
        errors_are_missing_assets(a + b),
{
    assert forall|i: int| 0 <= i < (a + b).len() && (#[trigger] (a + b)[i]).error implies has_prefix(
        (a + b)[i].message,
        missing_prefix(),
    ) by {
        if i < a.len() {
            assert((a + b)[i] == a[i]);
        } else {
            assert((a + b)[i] == b[i - a.len()]);
        }
    }
}

proof fn lemma_indent_no_errors(ls: Seq<Seq<char>>, i: int, slide: Option<usize>)
    ensures
        forall|j: int| 0 <= j < indent_diags(ls, i, slide).len() ==> !(#[trigger] indent_diags(ls, i, slide)[j]).error,
    decreases ls.len() - i,
{
    if 0 <= i < ls.len() {
        lemma_indent_no_errors(ls, i + 1, slide);
        let rest = indent_diags(ls, i + 1, slide);
        let line = ls[i];
        let t = trim(line);
        if t.len() > 0 {
            let head = if line.len() > 0 && (line[0] == ' ' || line[0] == '\t') && contains(t, seq![':'])
                && alphanumeric(t[0]) {
                seq![
                    warning(
                        slide,
                        "indented frontmatter is ignored (use flat `key: value` only): `"@ + t
                            + "`"@,
                    ),
                ]
            } else {
                Seq::<DiagView>::empty()
            };
            assert(indent_diags(ls, i, slide) == head + rest);
            assert forall|j: int| 0 <= j < (head + rest).len() implies !(#[trigger] (head + rest)[j]).error by {
                if j < head.len() {
                    assert((head + rest)[j] == head[j]);
                } else {
                    assert((head + rest)[j] == rest[j - head.len()]);
                }
            }
        }
    }
}

proof fn lemma_missing_errors(refs: Seq<Seq<char>>, present: Seq<Seq<char>>, no: usize)
    ensures
        errors_are_missing_assets(missing_diags(refs, present, no)),
        (forall|j: int| 0 <= j < refs.len() ==> present.contains(strip_all(#[trigger] refs[j], "./"@)))
            ==> missing_diags(refs, present, no).len() == 0,
    decreases refs.len(),
{
    if refs.len() > 0 {
        lemma_missing_errors(refs.drop_last(), present, no);
        let r = refs.last();
        let tail = if present.contains(strip_all(r, "./"@)) {
            Seq::<DiagView>::empty()
        } else {
            seq![DiagView { error: true, slide: Some(no), message: "asset not found: `"@ + r + "`"@ }]
        };
        assert(tail.len() > 0 ==> has_prefix(tail[0].message, missing_prefix())) by {
            if tail.len() > 0 {
                assert(tail[0].message.subrange(0, missing_prefix().len() as int) =~= missing_prefix());
            }
        }
        lemma_errors_concat(missing_diags(refs.drop_last(), present, no), tail);
        if forall|j: int| 0 <= j < refs.len() ==> present.contains(strip_all(#[trigger] refs[j], "./"@)) {
            assert forall|j: int| 0 <= j < refs.drop_last().len() implies present.contains(
                strip_all(#[trigger] refs.drop_last()[j], "./"@),
            ) by {
                assert(refs.drop_last()[j] == refs[j]);
            }
            assert(present.contains(strip_all(refs[refs.len() - 1], "./"@)));
        }
    }
}

proof fn lemma_slide_errors(
    no: usize,
    layout: Option<Seq<char>>,
    body: Seq<char>,
    present: Seq<Seq<char>>,
    layouts: LayoutSet,
)
    ensures
        errors_are_missing_assets(slide_diags(no, layout, body, present, layouts)),
        (forall|j: int|
            0 <= j < local_refs_spec(body).len() ==> present.contains(
                strip_all(#[trigger] local_refs_spec(body)[j], "./"@),
            )) ==> forall|j: int|
            0 <= j < slide_diags(no, layout, body, present, layouts).len() ==> !(#[trigger] slide_diags(
                no,
                layout,
                body,
                present,
                layouts,
            )[j]).error,
{
    let lname = match layout {
        Some(l) => l,
        None => "slide-default"@,
    };
    let a = if layouts.resolve_spec(lname) is None {
        seq![
            warning(
                Some(no),
                "unknown layout `"@ + lname + "` \u{2014} wb-slide falls back to slide-default"@,
            ),
        ]
    } else {
        Seq::<DiagView>::empty()
    };
    let b = if raw_html_blank_line_spec(body) {
        seq![
            warning(
                Some(no),
                "blank line inside a raw HTML/SVG block \u{2014} content after it renders as literal text"@,
            ),
        ]
    } else {
        Seq::<DiagView>::empty()
    };
    let c = missing_diags(local_refs_spec(body), present, no);
    let d = if !is_sparse_layout(lname) && (body.len() > 1100 || nonblank_count(lines(body)) > 22) {
        seq![
            warning(
                Some(no),
                "slide looks dense and may overflow the 960x540 canvas (heuristic) \u{2014} consider splitting"@,
            ),
        ]
    } else {
        Seq::<DiagView>::empty()
    };
    let all = slide_diags(no, layout, body, present, layouts);
    assert(all == a + b + c + d);
    lemma_missing_errors(local_refs_spec(body), present, no);
    assert(errors_are_missing_assets(a));
    assert(errors_are_missing_assets(b));
    assert(errors_are_missing_assets(d));
    lemma_errors_concat(a, b);
    lemma_errors_concat(a + b, c);
    lemma_errors_concat(a + b + c, d);
    assert forall|j: int| 0 <= j < all.len() && (#[trigger] all[j]).error implies j >= (a + b).len()
        && j < (a + b + c).len() by {
        if j < a.len() {
            assert(all[j] == a[j]);
        } else if j < (a + b).len() {
            assert(all[j] == b[j - a.len()]);
        } else if j >= (a + b + c).len() {
            assert(all[j] == d[j - (a + b + c).len()]);
        }
    }
}

proof fn lemma_later_errors(blocks: Seq<Seq<char>>, i: int, present: Seq<Seq<char>>, layouts: LayoutSet)
    ensures
        errors_are_missing_assets(later_diags(blocks, i, present, layouts)),
    decreases blocks.len() + 1 - i,
{
    if 0 <= i < blocks.len() {
        match frontmatter_spec(blocks[i]) {
            None => {},
            Some(p) => {
                let no = (i / 2 + 1) as usize;
                lemma_later_errors(blocks, i + 2, present, layouts);
                lemma_indent_no_errors(lines(blocks[i]), 0, Some(no));
                lemma_slide_errors(
                    no,
                    crate::assets::file_text(p.0, layout_key()),
                    slide_body(blocks, i, p.1),
                    present,
                    layouts,
                );
                let x = indent_diags(lines(blocks[i]), 0, Some(no));
                assert(errors_are_missing_assets(x));
                lemma_errors_concat(
                    x,
                    slide_diags(
                        no,
                        crate::assets::file_text(p.0, layout_key()),
                        slide_body(blocks, i, p.1),
                        present,
                        layouts,
                    ),
                );
                lemma_errors_concat(
                    x + slide_diags(
                        no,
                        crate::assets::file_text(p.0, layout_key()),
                        slide_body(blocks, i, p.1),
                        present,
                        layouts,
                    ),
                    later_diags(blocks, i + 2, present, layouts),
                );
            },
        }
    }
}

/// Only missing assets are errors: every other finding (unknown layout,
/// dropped frontmatter, blank line in raw HTML, dense slide) is a warning.
pub proof fn law_only_missing_assets_are_errors(raw: Seq<char>, present: Seq<Seq<char>>, layouts: LayoutSet)
    ensures
        errors_are_missing_assets(deck_diags(raw, present, layouts)),
{
    let blocks = split(raw, block_sep());
    let gb = global_block(raw);
    let gl = match frontmatter_spec(gb) {
        Some(p) => crate::assets::file_text(p.0, layout_key()),
        None => None,
    };
    lemma_indent_no_errors(lines(gb), 0, None);
    let x = indent_diags(lines(gb), 0, None);
    assert(errors_are_missing_assets(x));
    let y = if blocks.len() > 1 {
        slide_diags(1, gl, trim(blocks[1]), present, layouts)
    } else {
        Seq::<DiagView>::empty()
    };
    if blocks.len() > 1 {
        lemma_slide_errors(1, gl, trim(blocks[1]), present, layouts);
    }
    lemma_later_errors(blocks, 2, present, layouts);
    lemma_errors_concat(x, y);
    lemma_errors_concat(x + y, later_diags(blocks, 2, present, layouts));
}

/// The references a slide is checked for are files of the deck: none is
/// empty, an inline `data:` URI, an `http`, `https` or protocol-relative
/// URL, an anchor or a mail address. So none of those can ever be reported
/// as a missing asset.
pub proof fn law_local_refs_are_files(body: Seq<char>)
    ensures
        forall|i: int|
            0 <= i < local_refs_spec(body).len() ==> {
                let t = trim(#[trigger] local_refs_spec(body)[i]);
                &&& t.len() > 0
                &&& !has_prefix(t, "data:"@)
                &&& !has_prefix(t, "http://"@)
                &&& !has_prefix(t, "https://"@)
                &&& !has_prefix(t, "//"@)
                &&& !has_prefix(t, "#"@)
                &&& !has_prefix(t, "mailto:"@)
            },
{
    let pred = |r: Seq<char>| is_local_ref_spec(r);
    assert forall|i: int| 0 <= i < local_refs_spec(body).len() implies {
        let t = trim(#[trigger] local_refs_spec(body)[i]);
        &&& t.len() > 0
        &&& !has_prefix(t, "data:"@)
        &&& !has_prefix(t, "http://"@)
        &&& !has_prefix(t, "https://"@)
        &&& !has_prefix(t, "//"@)
        &&& !has_prefix(t, "#"@)
        &&& !has_prefix(t, "mailto:"@)
    } by {
        all_refs(body).lemma_filter_pred(pred, i);
        reveal_strlit("#");
        assert("#"@ =~= seq!['#']);
    }
}

/// A slide whose referenced local files all exist gets no error.
pub proof fn law_present_assets_no_errors(
    no: usize,
    layout: Option<Seq<char>>,
    body: Seq<char>,
    present: Seq<Seq<char>>,
    layouts: LayoutSet,
)
    requires
        forall|j: int|
            0 <= j < local_refs_spec(body).len() ==> present.contains(
                strip_all(#[trigger] local_refs_spec(body)[j], "./"@),
            ),
    ensures
        forall|j: int|
            0 <= j < slide_diags(no, layout, body, present, layouts).len() ==> !(#[trigger] slide_diags(
                no,
                layout,
                body,
                present,
                layouts,
            )[j]).error,
{
    lemma_slide_errors(no, layout, body, present, layouts);
}

} // verus!
