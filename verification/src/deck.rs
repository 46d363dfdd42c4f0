//! Parsing `slides.md`: the deck's global frontmatter, and for each slide its
//! frontmatter, its body and its named `::slot::` sections.
//!
//! `parse_frontmatter` and `parse_slots` return the Markdown the author
//! wrote; `parse_slides` renders each slide's body and slots to HTML.
use crate::text::{
    alphanumeric, cpairs, find, find_exec, has_prefix, has_suffix, is_alphanumeric, is_whitespace,
    is_ws, join, lines, lines_exec, push_all, push_joined, slice, split, split_exec, spairs,
    to_chars, to_string, to_string_pairs, trim, trim_bounds, trimmed, views,
};
use crate::markdown::{markdown_spec, render_markdown};
use vstd::prelude::*;

verus! {

// ---------------------------------------------------------------------------
// Frontmatter
// ---------------------------------------------------------------------------

/// A frontmatter key: letters, digits, `-` and `_` only.
pub open spec fn key_ok(k: Seq<char>) -> bool {
    forall|j: int| 0 <= j < k.len() ==> alphanumeric(#[trigger] k[j]) || k[j] == '-' || k[j] == '_'
}

/// `v` is wrapped in a pair of single or double quotes.
pub open spec fn is_quoted(v: Seq<char>) -> bool {
    (has_prefix(v, seq!['\'']) && has_suffix(v, seq!['\''])) || (has_prefix(v, seq!['"'])
        && has_suffix(v, seq!['"']))
}

/// Scanning frontmatter lines `ls` from `i`, with the entries `meta` found so
/// far and the body starting at line `bs`: the entries and the first body
/// line. `None` where a value is a lone quote character, which the slicing
/// cannot handle.
pub open spec fn fm_scan(ls: Seq<Seq<char>>, i: int, meta: Seq<(Seq<char>, Seq<char>)>, bs: int) -> Option<
    (Seq<(Seq<char>, Seq<char>)>, int),
>
    decreases ls.len() - i,
{
    if i < 0 || i >= ls.len() {
        Some((meta, bs))
    } else {
        let line = ls[i];
        if line.len() > 0 && is_ws(line[0]) {
            fm_scan(ls, i + 1, meta, i + 1)
        } else {
            match find(line, seq![':']) {
                None => Some((meta, bs)),
                Some(c) => {
                    let key = trim(line.subrange(0, c));
                    if key.len() > 0 && key_ok(key) {
                        let v0 = trim(line.subrange(c + 1, line.len() as int));
                        if is_quoted(v0) && v0.len() < 2 {
                            None
                        } else {
                            let v = if is_quoted(v0) {
                                v0.subrange(1, v0.len() - 1)
                            } else {
                                v0
                            };
                            let m = if v.len() > 0 {
                                meta.push((key, v))
                            } else {
                                meta
                            };
                            fm_scan(ls, i + 1, m, i + 1)
                        }
                    } else {
                        Some((meta, bs))
                    }
                },
            }
        }
    }
}

/// The `key: value` entries at the top of a slide block, and the rest of the
/// block as its body. Lines indented with whitespace are skipped; the
/// entries end at the first line that is not `key: value`; quotes around a
/// value are removed and empty values dropped. `None` where a value is a
/// lone quote character.
pub open spec fn frontmatter_spec(block: Seq<char>) -> Option<(Seq<(Seq<char>, Seq<char>)>, Seq<char>)> {
    let ls = lines(trim(block));
    match fm_scan(ls, 0, seq![], 0) {
        None => None,
        Some(r) => Some((r.0, trim(join(ls.subrange(r.1, ls.len() as int), seq!['\n'])))),
    }
}

/// A quoted frontmatter value loses its quotes: the line
/// `key:<spaces>"value"` (or with single quotes) is the entry `(key, value)`
/// with nothing after it, for any key the parser accepts and any non-empty
/// value on one line.
pub proof fn law_quoted_value(key: Seq<char>, pad: Seq<char>, q: char, v: Seq<char>)
    requires
        q == '"' || q == '\'',
        key.len() > 0,
        trim(key) == key,
        key_ok(key),
        forall|j: int| 0 <= j < key.len() ==> #[trigger] key[j] != ':' && key[j] != '\n',
        forall|j: int| 0 <= j < pad.len() ==> is_ws(#[trigger] pad[j]) && pad[j] != '\n',
        v.len() > 0,
        forall|j: int| 0 <= j < v.len() ==> #[trigger] v[j] != '\n',
    ensures
        frontmatter_spec(key + seq![':'] + pad + seq![q] + v + seq![q]) == Some(
            (seq![(key, v)], Seq::<char>::empty()),
        ),
{
    let qv = seq![q] + v + seq![q];
    let line = key + seq![':'] + pad + qv;
    assert(line =~= key + seq![':'] + pad + seq![q] + v + seq![q]);
    let n = key.len() as int;
    crate::text::lemma_lead_exists(key);
    crate::text::lemma_trail_exists(crate::text::trim_start(key));
    assert(crate::text::lead(key) == 0) by {
        assert(trim(key).len() == key.len());
    }
    assert(!is_ws(key[0]));
    assert(line[0] == key[0]);
    assert(qv.last() == q);
    assert(qv[0] == q);
    assert(line.last() == q);
    crate::text::lemma_trim_padded(Seq::<char>::empty(), line);
    assert(Seq::<char>::empty() + line =~= line);
    assert forall|j: int| 0 <= j < line.len() implies #[trigger] line[j] != '\n' by {
        if j < n {
            assert(line[j] == key[j]);
        } else if j == n {
        } else if j < n + 1 + pad.len() {
            assert(line[j] == pad[j - n - 1]);
        } else if j == n + 1 + pad.len() || j == line.len() - 1 {
        } else {
            assert(line[j] == v[j - n - 2 - pad.len()]);
        }
    }
    crate::text::lemma_single_line(line);
    let ls = lines(trim(line));
    assert(ls == seq![line]);
    assert forall|k: int| 0 <= k < n implies !crate::text::occurs_at(line, seq![':'], k) by {
        if crate::text::occurs_at(line, seq![':'], k) {
            assert(line.subrange(k, k + 1)[0] == line[k]);
            assert(line[k] == key[k]);
        }
    }
    assert(line.subrange(n, n + 1) =~= seq![':']);
    crate::text::lemma_first_unique(line, seq![':'], 0, n);
    assert(line.subrange(0, n) =~= key);
    assert(line.subrange(n + 1, line.len() as int) =~= pad + qv);
    crate::text::lemma_trim_padded(pad, qv);
    assert(is_quoted(qv)) by {
        assert(qv.subrange(0, 1) =~= seq![q]);
        assert(qv.subrange(qv.len() - 1, qv.len() as int) =~= seq![q]);
    }
    assert(qv.subrange(1, qv.len() - 1) =~= v);
    reveal_with_fuel(fm_scan, 2);
    assert(fm_scan(ls, 0, seq![], 0) == Some((seq![(key, v)], 1int)));
    assert(ls.subrange(1, 1) =~= Seq::<Seq<char>>::empty());
    assert(join(ls.subrange(1, 1), seq!['\n']) =~= Seq::<char>::empty());
    crate::text::lemma_trim_empty();
}

proof fn lemma_fm_scan_bounds(ls: Seq<Seq<char>>, i: int, meta: Seq<(Seq<char>, Seq<char>)>, bs: int)
    requires
        0 <= bs <= i,
        bs <= ls.len(),
    ensures
        fm_scan(ls, i, meta, bs) matches Some(r) ==> 0 <= r.1 <= ls.len(),
    decreases ls.len() - i,
{
    if 0 <= i < ls.len() {
        let line = ls[i];
        if line.len() > 0 && is_ws(line[0]) {
            lemma_fm_scan_bounds(ls, i + 1, meta, i + 1);
        } else {
            match find(line, seq![':']) {
                None => {},
                Some(c) => {
                    let key = trim(line.subrange(0, c));
                    let v0 = trim(line.subrange(c + 1, line.len() as int));
                    let v = if is_quoted(v0) {
                        v0.subrange(1, v0.len() - 1)
                    } else {
                        v0
                    };
                    lemma_fm_scan_bounds(ls, i + 1, meta.push((key, v)), i + 1);
                    lemma_fm_scan_bounds(ls, i + 1, meta, i + 1);
                },
            }
        }
    }
}

fn key_ok_exec(k: &[char]) -> (b: bool)
    ensures
        b == key_ok(k@),
{
    let mut i: usize = 0;
    while i < k.len()
        invariant
            0 <= i <= k@.len(),
            forall|j: int| 0 <= j < i ==> alphanumeric(#[trigger] k@[j]) || k@[j] == '-' || k@[j] == '_',
        decreases k@.len() - i,
    {
        let c = k[i];
        if !(is_alphanumeric(c) || c == '-' || c == '_') {
            return false;
        }
        i = i + 1;
    }
    true
}

fn is_quoted_exec(v: &[char]) -> (b: bool)
    ensures
        b == is_quoted(v@),
{
    let n = v.len();
    proof {
        if n > 0 {
            assert(v@.subrange(0, 1) =~= seq![v@[0]]);
            assert(v@.subrange(n - 1, n as int) =~= seq![v@[n - 1]]);
        }
        if has_prefix(v@, seq!['\'']) {
            assert(v@.subrange(0, 1)[0] == '\'');
        }
        if has_prefix(v@, seq!['"']) {
            assert(v@.subrange(0, 1)[0] == '"');
        }
        if has_suffix(v@, seq!['\'']) {
            assert(v@.subrange(n - 1, n as int)[0] == '\'');
        }
        if has_suffix(v@, seq!['"']) {
            assert(v@.subrange(n - 1, n as int)[0] == '"');
        }
    }
    n > 0 && ((v[0] == '\'' && v[n - 1] == '\'') || (v[0] == '"' && v[n - 1] == '"'))
}

/// `frontmatter_spec(block)`, computed.
pub fn parse_frontmatter_checked(block: &[char]) -> (r: Option<(Vec<(Vec<char>, Vec<char>)>, Vec<char>)>)
    ensures
        match r {
            Some(p) => frontmatter_spec(block@) == Some((cpairs(p.0@), p.1@)),
            None => frontmatter_spec(block@) is None,
        },
{
    let t = trimmed(block);
    let ls = lines_exec(t.as_slice());
    let ghost lv = views(ls@);
    let colon: Vec<char> = vec![':'];
    assert(colon@ =~= seq![':']);
    let mut meta: Vec<(Vec<char>, Vec<char>)> = Vec::new();
    let mut body_start: usize = 0;
    let mut i: usize = 0;
    let n = ls.len();
    assert(cpairs(meta@) =~= Seq::<(Seq<char>, Seq<char>)>::empty());
    while i < n
        invariant
            n == ls@.len(),
            lv == views(ls@),
            lv == lines(trim(block@)),
            colon@ == seq![':'],
            0 <= body_start <= i <= n,
            fm_scan(lv, 0, seq![], 0) == fm_scan(lv, i as int, cpairs(meta@), body_start as int),
        ensures
            0 <= body_start <= n,
            fm_scan(lv, 0, seq![], 0) == Some((cpairs(meta@), body_start as int)),
        decreases n - i,
    {
        let line = &ls[i];
        assert(lv[i as int] == line@);
        let m = line.len();
        if m > 0 && is_whitespace(line[0]) {
            body_start = i + 1;
            i = i + 1;
            continue ;
        }
        match find_exec(line.as_slice(), colon.as_slice(), 0) {
            None => {
                break ;
            },
            Some(c) => {
                let key = {
                    let (a, b) = trim_bounds(line.as_slice(), 0, c);
                    slice(line.as_slice(), a, b)
                };
                if key.len() > 0 && key_ok_exec(key.as_slice()) {
                    let v0 = {
                        let (a, b) = trim_bounds(line.as_slice(), c + 1, m);
                        slice(line.as_slice(), a, b)
                    };
                    let q = is_quoted_exec(v0.as_slice());
                    if q && v0.len() < 2 {
                        return None;
                    }
                    let v = if q {
                        slice(v0.as_slice(), 1, v0.len() - 1)
                    } else {
                        v0
                    };
                    if v.len() > 0 {
                        let ghost prev = cpairs(meta@);
                        let ghost kv = (key@, v@);
                        meta.push((key, v));
                        assert(cpairs(meta@) =~= prev.push(kv));
                    }
                    body_start = i + 1;
                    i = i + 1;
                } else {
                    break ;
                }
            },
        }
    }
    proof {
        lemma_fm_scan_bounds(lv, 0, seq![], 0);
    }
    let mut body: Vec<char> = Vec::new();
    let nl: Vec<char> = vec!['\n'];
    assert(nl@ =~= seq!['\n']);
    push_joined(&mut body, &ls, body_start, n, nl.as_slice());
    assert(body@ =~= join(lv.subrange(body_start as int, n as int), seq!['\n']));
    Some((meta, trimmed(body.as_slice())))
}

/// The frontmatter entries at the top of a slide block, and its body.
pub fn parse_frontmatter(block: &str) -> (r: (Vec<(String, String)>, String))
    requires
        frontmatter_spec(block@) is Some,
    ensures
        frontmatter_spec(block@) == Some((spairs(r.0@), r.1@)),
{
    let b = to_chars(block);
    match parse_frontmatter_checked(b.as_slice()) {
        Some((meta, body)) => (to_string_pairs(&meta), to_string(body.as_slice())),
        None => (Vec::new(), String::new()),
    }
}

// ---------------------------------------------------------------------------
// Slots
// ---------------------------------------------------------------------------

/// A trimmed line `t` that opens a named slot: `::name::`.
pub open spec fn is_slot_marker(t: Seq<char>) -> bool {
    has_prefix(t, seq![':', ':']) && has_suffix(t, seq![':', ':']) && t.len() > 4
}

/// Scanning body lines `ls` from `i`: the default lines `dflt`, the finished
/// slots, the slot being read (if any) and its lines so far; the result is
/// the default content and the slots.
pub open spec fn slot_scan(
    ls: Seq<Seq<char>>,
    i: int,
    dflt: Seq<Seq<char>>,
    slots: Seq<(Seq<char>, Seq<char>)>,
    cur: Option<Seq<char>>,
    content: Seq<Seq<char>>,
) -> (Seq<char>, Seq<(Seq<char>, Seq<char>)>)
    decreases ls.len() - i,
{
    if i < 0 || i >= ls.len() {
        match cur {
            Some(name) => (
                trim(join(dflt, seq!['\n'])),
                slots.push((name, trim(join(content, seq!['\n'])))),
            ),
            None => (trim(join(dflt + content, seq!['\n'])), slots),
        }
    } else {
        let t = trim(ls[i]);
        if is_slot_marker(t) {
            let name = trim(t.subrange(2, t.len() - 2));
            match cur {
                Some(prev) => slot_scan(
                    ls,
                    i + 1,
                    dflt,
                    slots.push((prev, trim(join(content, seq!['\n'])))),
                    Some(name),
                    seq![],
                ),
                None => slot_scan(ls, i + 1, dflt + content, slots, Some(name), seq![]),
            }
        } else {
            slot_scan(ls, i + 1, dflt, slots, cur, content.push(ls[i]))
        }
    }
}

/// The default content of a slide body (everything before the first
/// `::name::` line) and its named slots, each trimmed.
pub open spec fn slots_spec(body: Seq<char>) -> (Seq<char>, Seq<(Seq<char>, Seq<char>)>) {
    slot_scan(lines(body), 0, seq![], seq![], None, seq![])
}

fn joined_trimmed(parts: &Vec<Vec<char>>) -> (r: Vec<char>)
    ensures
        r@ == trim(join(views(parts@), seq!['\n'])),
{
    let nl: Vec<char> = vec!['\n'];
    assert(nl@ =~= seq!['\n']);
    let mut out: Vec<char> = Vec::new();
    push_joined(&mut out, parts, 0, parts.len(), nl.as_slice());
    assert(views(parts@).subrange(0, parts@.len() as int) =~= views(parts@));
    trimmed(out.as_slice())
}

fn append_lines(dst: &mut Vec<Vec<char>>, src: &mut Vec<Vec<char>>)
    ensures
        views(final(dst)@) == views(old(dst)@) + views(old(src)@),
        final(src)@.len() == 0,
{
    let ghost a = views(dst@);
    let ghost b = views(src@);
    dst.append(src);
    assert(views(dst@) =~= a + b);
}

/// Splits a slide body into its default content and its `::name::` slots.
pub fn parse_slots_chars(body: &[char]) -> (r: (Vec<char>, Vec<(Vec<char>, Vec<char>)>))
    ensures
        (r.0@, cpairs(r.1@)) == slots_spec(body@),
{
    let ls = lines_exec(body);
    let ghost lv = views(ls@);
    let mut slots: Vec<(Vec<char>, Vec<char>)> = Vec::new();
    let mut default_parts: Vec<Vec<char>> = Vec::new();
    let mut current_slot: Option<Vec<char>> = None;
    let mut current_content: Vec<Vec<char>> = Vec::new();
    let n = ls.len();
    let mut i: usize = 0;
    assert(cpairs(slots@) =~= Seq::<(Seq<char>, Seq<char>)>::empty());
    assert(views(default_parts@) =~= Seq::<Seq<char>>::empty());
    assert(views(current_content@) =~= Seq::<Seq<char>>::empty());
    while i < n
        invariant
            n == ls@.len(),
            lv == views(ls@),
            lv == lines(body@),
            0 <= i <= n,
            slots_spec(body@) == slot_scan(
                lv,
                i as int,
                views(default_parts@),
                cpairs(slots@),
                match current_slot {
                    Some(s) => Some(s@),
                    None => None,
                },
                views(current_content@),
            ),
        decreases n - i,
    {
        let line = &ls[i];
        assert(lv[i as int] == line@);
        let m = line.len();
        let (a, b) = trim_bounds(line.as_slice(), 0, m);
        assert(line@.subrange(0, m as int) =~= line@);
        let ghost t = line@.subrange(a as int, b as int);
        let is_marker = b - a > 4 && line[a] == ':' && line[a + 1] == ':' && line[b - 2] == ':'
            && line[b - 1] == ':';
        proof {
            if b - a >= 2 {
                assert(t.subrange(0, 2) =~= seq![t[0], t[1]]);
                assert(t.subrange(t.len() - 2, t.len() as int) =~= seq![t[t.len() - 2], t[t.len() - 1]]);
            }
            if is_slot_marker(t) {
                assert(t.subrange(0, 2)[0] == ':' && t.subrange(0, 2)[1] == ':');
                assert(t.subrange(t.len() - 2, t.len() as int)[0] == ':');
                assert(t.subrange(t.len() - 2, t.len() as int)[1] == ':');
            }
        }
        if is_marker {
            let name = {
                let (c, d) = trim_bounds(line.as_slice(), a + 2, b - 2);
                slice(line.as_slice(), c, d)
            };
            assert(name@ == trim(t.subrange(2, t.len() - 2))) by {
                assert(t.subrange(2, t.len() - 2) =~= line@.subrange(a + 2, b - 2));
            }
            match current_slot {
                Some(prev) => {
                    let text = joined_trimmed(&current_content);
                    let ghost before = cpairs(slots@);
                    let ghost pv = prev@;
                    slots.push((prev, text));
                    assert(cpairs(slots@) =~= before.push((pv, text@)));
                },
                None => {
                    append_lines(&mut default_parts, &mut current_content);
                },
            }
            current_content = Vec::new();
            assert(views(current_content@) =~= Seq::<Seq<char>>::empty());
            current_slot = Some(name);
        } else {
            let ghost before = views(current_content@);
            current_content.push(slice(line.as_slice(), 0, m));
            assert(views(current_content@) =~= before.push(lv[i as int]));
        }
        i = i + 1;
    }
    match current_slot {
        Some(name) => {
            let text = joined_trimmed(&current_content);
            let ghost before = cpairs(slots@);
            let ghost nv = name@;
            slots.push((name, text));
            assert(cpairs(slots@) =~= before.push((nv, text@)));
            (joined_trimmed(&default_parts), slots)
        },
        None => {
            append_lines(&mut default_parts, &mut current_content);
            (joined_trimmed(&default_parts), slots)
        },
    }
}

/// Splits a slide body into its default content and its `::name::` slots.
pub fn parse_slots(body: &str) -> (r: (String, Vec<(String, String)>))
    ensures
        (r.0@, spairs(r.1@)) == slots_spec(body@),
{
    let (d, s) = parse_slots_chars(to_chars(body).as_slice());
    (to_string(d.as_slice()), to_string_pairs(&s))
}

// ---------------------------------------------------------------------------
// Slides
// ---------------------------------------------------------------------------

/// A slide of the deck: its frontmatter, its default body and its named
/// slots, both rendered to HTML.
pub struct Slide {
    pub frontmatter: Vec<(String, String)>,
    pub body_html: String,
    pub slots: Vec<(String, String)>,
}

/// A slide as a mathematical value.
pub struct SlideView {
    pub frontmatter: Seq<(Seq<char>, Seq<char>)>,
    pub body_html: Seq<char>,
    pub slots: Seq<(Seq<char>, Seq<char>)>,
}

impl Slide {
    pub open spec fn view(&self) -> SlideView {
        SlideView {
            frontmatter: spairs(self.frontmatter@),
            body_html: self.body_html@,
            slots: spairs(self.slots@),
        }
    }
}

/// Slots with their Markdown rendered.
pub open spec fn rendered_slots(sl: Seq<(Seq<char>, Seq<char>)>) -> Seq<(Seq<char>, Seq<char>)> {
    sl.map_values(|p: (Seq<char>, Seq<char>)| (p.0, markdown_spec(p.1)))
}

pub open spec fn slide_views(s: Seq<Slide>) -> Seq<SlideView> {
    s.map_values(|x: Slide| x.view())
}

/// The separator between blocks: a line holding only `---`.
pub open spec fn block_sep() -> Seq<char> {
    seq!['\n', '-', '-', '-', '\n']
}

/// `s` with every leading copy of `p` removed (`str::trim_start_matches`).
pub open spec fn strip_all(s: Seq<char>, p: Seq<char>) -> Seq<char>
    decreases s.len(),
{
    if p.len() > 0 && has_prefix(s, p) {
        strip_all(s.subrange(p.len() as int, s.len() as int), p)
    } else {
        s
    }
}

/// The deck's first block with its opening `---` line removed.
pub open spec fn global_block(raw: Seq<char>) -> Seq<char> {
    strip_all(
        strip_all(split(raw, block_sep())[0], seq!['-', '-', '-', '\n']),
        seq!['-', '-', '-', '\r', '\n'],
    )
}

/// A slide with frontmatter `fm` and Markdown body `body`: split into the
/// default body and slots, each rendered.
pub open spec fn slide_of(fm: Seq<(Seq<char>, Seq<char>)>, body: Seq<char>) -> SlideView {
    let p = slots_spec(body);
    SlideView { frontmatter: fm, body_html: markdown_spec(p.0), slots: rendered_slots(p.1) }
}

/// `layout`
pub open spec fn layout_key() -> Seq<char> {
    seq!['l', 'a', 'y', 'o', 'u', 't']
}

/// The first slide: body from the block after the global frontmatter,
/// layout from the global frontmatter.
pub open spec fn first_slide(gm: Seq<(Seq<char>, Seq<char>)>, blocks: Seq<Seq<char>>) -> SlideView {
    let fm = match crate::assets::file_text(gm, layout_key()) {
        Some(v) => seq![(layout_key(), v)],
        None => seq![],
    };
    slide_of(fm, trim(blocks[1]))
}

/// The body of the slide whose frontmatter block is `blocks[i]`: what
/// follows the frontmatter in that block, then the next block.
pub open spec fn slide_body(blocks: Seq<Seq<char>>, i: int, inline: Seq<char>) -> Seq<char> {
    if i + 1 < blocks.len() {
        let next = trim(blocks[i + 1]);
        if inline.len() == 0 {
            next
        } else {
            inline + seq!['\n'] + next
        }
    } else {
        inline
    }
}

pub open spec fn opt_prepend(acc: Seq<SlideView>, o: Option<Seq<SlideView>>) -> Option<Seq<SlideView>> {
    match o {
        Some(r) => Some(acc + r),
        None => None,
    }
}

/// The slides whose frontmatter blocks are `blocks[i]`, `blocks[i + 2]`, ...
pub open spec fn later_slides(blocks: Seq<Seq<char>>, i: int) -> Option<Seq<SlideView>>
    decreases blocks.len() + 1 - i,
{
    if i < 0 || i >= blocks.len() {
        Some(seq![])
    } else {
        match frontmatter_spec(blocks[i]) {
            None => None,
            Some(p) => opt_prepend(
                seq![slide_of(p.0, slide_body(blocks, i, p.1))],
                later_slides(blocks, i + 2),
            ),
        }
    }
}

/// The global frontmatter and the slides of a deck. `None` where a
/// frontmatter value is a lone quote character.
pub open spec fn slides_spec(raw: Seq<char>) -> Option<(Seq<(Seq<char>, Seq<char>)>, Seq<SlideView>)> {
    let blocks = split(raw, block_sep());
    match frontmatter_spec(global_block(raw)) {
        None => None,
        Some(g) => {
            let first = if blocks.len() > 1 {
                seq![first_slide(g.0, blocks)]
            } else {
                seq![]
            };
            match later_slides(blocks, 2) {
                Some(r) => Some((g.0, first + r)),
                None => None,
            }
        },
    }
}

/// Where `strip_all(v[lo..], p)` starts in `v`.
pub fn strip_all_exec(v: &[char], lo: usize, p: &[char]) -> (k: usize)
    requires
        lo <= v@.len(),
    ensures
        lo <= k <= v@.len(),
        v@.subrange(k as int, v@.len() as int) == strip_all(
            v@.subrange(lo as int, v@.len() as int),
            p@,
        ),
{
    let n = v.len();
    let mut k = lo;
    if p.len() == 0 {
        return k;
    }
    while crate::text::starts_with_at(v, k, n, p)
        invariant
            n == v@.len(),
            p@.len() > 0,
            lo <= k <= n,
            strip_all(v@.subrange(lo as int, n as int), p@) == strip_all(
                v@.subrange(k as int, n as int),
                p@,
            ),
        decreases n - k,
    {
        assert(v@.subrange(k as int, n as int).subrange(p@.len() as int, n - k) =~= v@.subrange(
            k + p@.len(),
            n as int,
        ));
        k = k + p.len();
    }
    k
}

/// Position of the first pair whose key is `key`.
pub fn first_key_index(pairs: &Vec<(Vec<char>, Vec<char>)>, key: &[char]) -> (r: Option<usize>)
    ensures
        match r {
            Some(j) => j < pairs@.len() && crate::assets::first_file(cpairs(pairs@), key@, j as int)
                && crate::assets::file_text(cpairs(pairs@), key@) == Some(pairs@[j as int].1@),
            None => crate::assets::file_text(cpairs(pairs@), key@) is None,
        },
{
    let ghost gm = cpairs(pairs@);
    let mut j: usize = 0;
    while j < pairs.len()
        invariant
            gm == cpairs(pairs@),
            0 <= j <= gm.len(),
            forall|q: int| 0 <= q < j ==> (#[trigger] gm[q]).0 != key@,
        decreases gm.len() - j,
    {
        assert(gm[j as int] == (pairs@[j as int].0@, pairs@[j as int].1@));
        if crate::text::chars_eq(pairs[j].0.as_slice(), key) {
            proof {
                assert(crate::assets::first_file(gm, key@, j as int));
                let c = choose|c: int| crate::assets::first_file(gm, key@, c);
                if c < j {
                    assert(gm[c].0 != key@);
                } else if j < c {
                    assert(gm[j as int].0 != key@);
                }
            }
            return Some(j);
        }
        j = j + 1;
    }
    None
}

fn render_slots(sl: &Vec<(Vec<char>, Vec<char>)>) -> (r: Vec<(String, String)>)
    ensures
        spairs(r@) == rendered_slots(cpairs(sl@)),
{
    let ghost want = rendered_slots(cpairs(sl@));
    let mut r: Vec<(String, String)> = Vec::new();
    let mut i: usize = 0;
    while i < sl.len()
        invariant
            0 <= i <= sl@.len(),
            want == rendered_slots(cpairs(sl@)),
            spairs(r@) == want.take(i as int),
        decreases sl@.len() - i,
    {
        let name = to_string(sl[i].0.as_slice());
        let html = render_markdown(to_string(sl[i].1.as_slice()).as_str());
        let ghost prev = r@;
        r.push((name, html));
        assert(spairs(r@) =~= spairs(prev).push((name@, html@)));
        assert(want.take(i + 1) =~= want.take(i as int).push(want[i as int]));
        i = i + 1;
    }
    assert(want.take(sl@.len() as int) =~= want);
    r
}

fn make_slide(fm: Vec<(Vec<char>, Vec<char>)>, body: &[char]) -> (s: Slide)
    ensures
        s.view() == slide_of(cpairs(fm@), body@),
{
    let (d, sl) = parse_slots_chars(body);
    Slide {
        frontmatter: to_string_pairs(&fm),
        body_html: render_markdown(to_string(d.as_slice()).as_str()),
        slots: render_slots(&sl),
    }
}

/// The global frontmatter and the slides of a deck, or `None` where a
/// frontmatter value is a lone quote character.
pub fn parse_slides_checked(raw: &str) -> (r: Option<(Vec<(String, String)>, Vec<Slide>)>)
    ensures
        match r {
            Some(p) => slides_spec(raw@) == Some((spairs(p.0@), slide_views(p.1@))),
            None => slides_spec(raw@) is None,
        },
{
    let v = to_chars(raw);
    let sep: Vec<char> = vec!['\n', '-', '-', '-', '\n'];
    assert(sep@ =~= block_sep());
    let blocks = split_exec(v.as_slice(), sep.as_slice());
    let ghost bv = views(blocks@);
    let p1: Vec<char> = vec!['-', '-', '-', '\n'];
    let p2: Vec<char> = vec!['-', '-', '-', '\r', '\n'];
    assert(p1@ =~= seq!['-', '-', '-', '\n']);
    assert(p2@ =~= seq!['-', '-', '-', '\r', '\n']);
    let b0 = &blocks[0];
    assert(bv[0] == b0@);
    let k1 = strip_all_exec(b0.as_slice(), 0, p1.as_slice());
    let k2 = strip_all_exec(b0.as_slice(), k1, p2.as_slice());
    assert(b0@.subrange(0, b0@.len() as int) =~= b0@);
    let first = slice(b0.as_slice(), k2, b0.len());
    assert(first@ == global_block(raw@));
    let global_meta = match parse_frontmatter_checked(first.as_slice()) {
        None => {
            return None;
        },
        Some((m, _)) => m,
    };
    let mut slides: Vec<Slide> = Vec::new();
    if blocks.len() > 1 {
        let lay: Vec<char> = vec!['l', 'a', 'y', 'o', 'u', 't'];
        assert(lay@ =~= layout_key());
        let ghost gm = cpairs(global_meta@);
        let mut fm: Vec<(Vec<char>, Vec<char>)> = Vec::new();
        match first_key_index(&global_meta, lay.as_slice()) {
            Some(j) => {
                let val = slice(global_meta[j].1.as_slice(), 0, global_meta[j].1.len());
                assert(global_meta@[j as int].1@.subrange(0, global_meta@[j as int].1@.len() as int)
                    =~= global_meta@[j as int].1@);
                let kk = slice(lay.as_slice(), 0, 6);
                assert(kk@ =~= layout_key());
                let ghost vv = val@;
                fm.push((kk, val));
                assert(cpairs(fm@) =~= seq![(layout_key(), vv)]);
            },
            None => {
                assert(cpairs(fm@) =~= Seq::<(Seq<char>, Seq<char>)>::empty());
            },
        }
        assert(cpairs(fm@) =~= match crate::assets::file_text(gm, layout_key()) {
            Some(v) => seq![(layout_key(), v)],
            None => seq![],
        });
        assert(bv[1] == blocks@[1]@);
        let body = trimmed(blocks[1].as_slice());
        slides.push(make_slide(fm, body.as_slice()));
    }
    let ghost firsts = slide_views(slides@);
    let nb = blocks.len();
    let mut i: usize = 2;
    while i < nb
        invariant
            nb == blocks@.len(),
            bv == views(blocks@),
            bv == split(raw@, block_sep()),
            2 <= i,
            i < nb ==> i <= nb,
            firsts.len() <= slides@.len(),
            later_slides(bv, 2) == opt_prepend(
                slide_views(slides@).subrange(firsts.len() as int, slides@.len() as int),
                later_slides(bv, i as int),
            ),
            slide_views(slides@).subrange(0, firsts.len() as int) == firsts,
        decreases nb - i,
    {
        assert(bv[i as int] == blocks@[i as int]@);
        let (fm, inline) = match parse_frontmatter_checked(blocks[i].as_slice()) {
            None => {
                return None;
            },
            Some(p) => p,
        };
        let body = if i + 1 < nb {
            assert(bv[i + 1] == blocks@[i + 1]@);
            let next = trimmed(blocks[i + 1].as_slice());
            if inline.len() == 0 {
                next
            } else {
                let mut b = inline;
                b.push('\n');
                push_all(&mut b, next.as_slice());
                b
            }
        } else {
            inline
        };
        let ghost prev = slide_views(slides@);
        let ghost acc = prev.subrange(firsts.len() as int, prev.len() as int);
        let s = make_slide(fm, body.as_slice());
        proof {
            assert(body@ == slide_body(bv, i as int, inline@));
            assert(later_slides(bv, i as int) == opt_prepend(seq![s.view()], later_slides(bv, i + 2)));
            match later_slides(bv, i + 2) {
                Some(r) => {
                    assert(acc + (seq![s.view()] + r) =~= acc.push(s.view()) + r);
                },
                None => {},
            }
        }
        slides.push(s);
        proof {
            assert(slide_views(slides@) =~= prev.push(s.view()));
            assert(slide_views(slides@).subrange(firsts.len() as int, slides@.len() as int) =~= prev.subrange(
                firsts.len() as int,
                prev.len() as int,
            ).push(s.view()));
            assert(slide_views(slides@).subrange(0, firsts.len() as int) =~= prev.subrange(
                0,
                firsts.len() as int,
            ));
        }
        i = i + 1;
        if i < nb {
            i = i + 1;
        } else {
            assert(later_slides(bv, i + 1) == later_slides(bv, i as int));
        }
    }
    proof {
        assert(slide_views(slides@) =~= firsts + slide_views(slides@).subrange(
            firsts.len() as int,
            slides@.len() as int,
        ));
    }
    Some((to_string_pairs(&global_meta), slides))
}

/// The global frontmatter and the slides of a deck.
pub fn parse_slides(raw: &str) -> (r: (Vec<(String, String)>, Vec<Slide>))
    requires
        slides_spec(raw@) is Some,
    ensures
        slides_spec(raw@) == Some((spairs(r.0@), slide_views(r.1@))),
{
    match parse_slides_checked(raw) {
        Some(p) => p,
        None => (Vec::new(), Vec::new()),
    }
}

/// The value of the first frontmatter entry of `slide` named `key`.
pub fn get_fm(slide: &Slide, key: &str) -> (r: Option<String>)
    ensures
        match r {
            Some(v) => crate::assets::file_text(slide.view().frontmatter, key@) == Some(v@),
            None => crate::assets::file_text(slide.view().frontmatter, key@) is None,
        },
{
    let ghost fm = slide.view().frontmatter;
    let k = to_chars(key);
    let mut i: usize = 0;
    while i < slide.frontmatter.len()
        invariant
            fm == slide.view().frontmatter,
            k@ == key@,
            0 <= i <= fm.len(),
            forall|j: int| 0 <= j < i ==> (#[trigger] fm[j]).0 != key@,
        decreases fm.len() - i,
    {
        assert(fm[i as int] == (slide.frontmatter@[i as int].0@, slide.frontmatter@[i as int].1@));
        if crate::text::chars_eq(to_chars(slide.frontmatter[i].0.as_str()).as_slice(), k.as_slice()) {
            proof {
                assert(crate::assets::first_file(fm, key@, i as int));
                let c = choose|c: int| crate::assets::first_file(fm, key@, c);
                if c < i {
                    assert(fm[c].0 != key@);
                } else if i < c {
                    assert(fm[i as int].0 != key@);
                }
            }
            return Some(String::from_str(slide.frontmatter[i].1.as_str()));
        }
        i = i + 1;
    }
    None
}

/// Where `strip_all(v, p)` starts in `v`.
pub fn strip_all_chars(v: &[char], p: &[char]) -> (k: usize)
    ensures
        k <= v@.len(),
        v@.subrange(k as int, v@.len() as int) == strip_all(v@, p@),
{
    let k = strip_all_exec(v, 0, p);
    assert(v@.subrange(0, v@.len() as int) =~= v@);
    k
}

} // verus!
