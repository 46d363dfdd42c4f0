//! Server-side rendering of slides to static HTML.
//!
//! Layouts are HTML templates (mustache subset) or, as an escape hatch,
//! JavaScript custom elements. A slide's layout is resolved, its template
//! filled, and the result wrapped with the chrome (watermark, footer, page
//! number).
//!
//! Layout resolution order (highest precedence first):
//!   1. Local `./layouts/<name>.html` in the deck working directory
//!   2. Theme-provided layouts
//!   3. Framework built-ins
use crate::assets::AssetBundle;
use crate::strmap::StrMap;
use crate::text::{
    chars_eq, contains, contains_exec, find, find_exec, find_from, has_prefix, has_suffix,
    lemma_find_none, lemma_find_some, lines, lines_exec, occurs_at, push_all, push_range, slice,
    starts_with_at, to_chars, to_string, trim, trim_bounds, trim_start, views,
};
use crate::theme::LoadedTheme;
use vstd::prelude::*;

verus! {

/// A layout's source: an HTML template (rendered server-side) or a
/// JavaScript Web Component (rendered client-side).
pub enum LayoutSource {
    Template(String),
    Script(String),
}

/// A layout and its metadata.
pub struct Layout {
    pub name: String,
    pub source: LayoutSource,
    /// Whether watermark, footer and page number are added around it.
    pub chrome: bool,
}

/// A layout as a mathematical value.
pub struct LayoutView {
    pub name: Seq<char>,
    pub is_template: bool,
    pub text: Seq<char>,
    pub chrome: bool,
}

impl Layout {
    pub open spec fn view(&self) -> LayoutView {
        match self.source {
            LayoutSource::Template(t) => LayoutView {
                name: self.name@,
                is_template: true,
                text: t@,
                chrome: self.chrome,
            },
            LayoutSource::Script(t) => LayoutView {
                name: self.name@,
                is_template: false,
                text: t@,
                chrome: self.chrome,
            },
        }
    }
}

pub open spec fn opt_layout(o: Option<Layout>) -> Option<LayoutView> {
    match o {
        Some(l) => Some(l.view()),
        None => None,
    }
}

// ---------------------------------------------------------------------------
// Layout files
// ---------------------------------------------------------------------------

pub open spec fn nl() -> Seq<char> {
    seq!['\n']
}

/// `---`
pub open spec fn dashes() -> Seq<char> {
    seq!['-', '-', '-']
}

/// A line that is exactly `---`, followed by a line ending, starts `s`.
pub open spec fn dash_line(s: Seq<char>) -> bool {
    has_prefix(s, dashes() + nl()) || has_prefix(s, dashes() + seq!['\r', '\n'])
}

/// Position of the closing `---` line of a frontmatter block, scanning the
/// line starts of `s` from `pos`.
pub open spec fn fm_close_from(s: Seq<char>, pos: int) -> Option<int>
    decreases s.len() - pos,
{
    if pos < 0 || pos >= s.len() {
        None
    } else {
        let rest = s.subrange(pos, s.len() as int);
        if dash_line(rest) || rest == dashes() {
            Some(pos)
        } else {
            match find_from(s, nl(), pos) {
                Some(i) => {
                    proof {
                        lemma_find_some(s, nl(), pos);
                    }
                    fm_close_from(s, i + 1)
                },
                None => None,
            }
        }
    }
}

/// `k` is where the leading byte order marks of `s` end.
pub open spec fn is_bom_lead(s: Seq<char>, k: int) -> bool {
    &&& 0 <= k <= s.len()
    &&& forall|j: int| 0 <= j < k ==> #[trigger] s[j] == '\u{feff}'
    &&& k < s.len() ==> s[k] != '\u{feff}'
}

/// `s` without its leading byte order marks.
pub open spec fn strip_boms(s: Seq<char>) -> Seq<char> {
    s.subrange(choose|k: int| is_bom_lead(s, k), s.len() as int)
}

/// The frontmatter text and the body of a layout file that opens with a
/// `---` line and has a closing `---` line. The body is what follows the
/// closing line; it is empty when that line is the last one.
pub open spec fn fm_split(s: Seq<char>) -> Option<(Seq<char>, Seq<char>)> {
    let t = strip_boms(s);
    if !dash_line(t) {
        None
    } else {
        match find(t, nl()) {
            None => None,
            Some(k) => {
                let after = t.subrange(k + 1, t.len() as int);
                match fm_close_from(after, 0) {
                    None => None,
                    Some(e) => {
                        let bs = match find_from(after, nl(), e) {
                            Some(i) => i + 1,
                            None => after.len() as int,
                        };
                        Some((after.subrange(0, e), after.subrange(bs, after.len() as int)))
                    },
                }
            },
        }
    }
}

/// The `key: value` pair of a frontmatter line of a layout file.
pub open spec fn line_kv(line: Seq<char>) -> Option<(Seq<char>, Seq<char>)> {
    match find(line, seq![':']) {
        None => None,
        Some(i) => {
            let k = trim(line.subrange(0, i));
            if k.len() > 0 {
                Some((k, trim(line.subrange(i + 1, line.len() as int))))
            } else {
                None
            }
        },
    }
}

/// Value of `key` in frontmatter lines `ls`: the last line that sets it wins.
pub open spec fn meta_value(ls: Seq<Seq<char>>, key: Seq<char>) -> Option<Seq<char>>
    decreases ls.len(),
{
    if ls.len() == 0 {
        None
    } else {
        match line_kv(ls.last()) {
            Some(kv) => if kv.0 == key {
                Some(kv.1)
            } else {
                meta_value(ls.drop_last(), key)
            },
            None => meta_value(ls.drop_last(), key),
        }
    }
}

/// Frontmatter value of `key` in a layout file.
pub open spec fn fm_value(s: Seq<char>, key: Seq<char>) -> Option<Seq<char>> {
    match fm_split(s) {
        None => None,
        Some(p) => meta_value(lines(p.0), key),
    }
}

/// The template body of a layout file.
pub open spec fn template_body(s: Seq<char>) -> Seq<char> {
    match fm_split(s) {
        None => s,
        Some(p) => p.1,
    }
}

/// `chrome`
pub open spec fn chrome_key() -> Seq<char> {
    seq!['c', 'h', 'r', 'o', 'm', 'e']
}

/// `false`
pub open spec fn false_word() -> Seq<char> {
    seq!['f', 'a', 'l', 's', 'e']
}

/// Chrome is on unless the template's frontmatter says `chrome: false`.
pub open spec fn template_chrome(s: Seq<char>) -> bool {
    match fm_value(s, chrome_key()) {
        Some(v) => v != false_word(),
        None => true,
    }
}

/// A script layout asks for no chrome when its `showChrome()` method returns
/// false: the source holds `showChrome() { return false`.
pub open spec fn script_chrome(s: Seq<char>) -> bool {
    !contains(s, "showChrome() { return false"@)
}

/// The layout an HTML template file becomes.
pub open spec fn template_layout(name: Seq<char>, source: Seq<char>) -> LayoutView {
    LayoutView {
        name,
        is_template: true,
        text: template_body(source),
        chrome: template_chrome(source),
    }
}

/// The layout a script file becomes.
pub open spec fn script_layout(name: Seq<char>, source: Seq<char>) -> LayoutView {
    LayoutView { name, is_template: false, text: source, chrome: script_chrome(source) }
}

fn find_frontmatter_close(s: &[char]) -> (r: Option<usize>)
    ensures
        match r {
            Some(p) => fm_close_from(s@, 0) == Some(p as int) && p < s@.len(),
            None => fm_close_from(s@, 0) is None,
        },
{
    let n = s.len();
    let nlv: Vec<char> = vec!['\n'];
    let d1: Vec<char> = vec!['-', '-', '-', '\n'];
    let d2: Vec<char> = vec!['-', '-', '-', '\r', '\n'];
    let d0: Vec<char> = vec!['-', '-', '-'];
    assert(nlv@ =~= nl());
    assert(d1@ =~= dashes() + nl());
    assert(d2@ =~= dashes() + seq!['\r', '\n']);
    assert(d0@ =~= dashes());
    let mut pos: usize = 0;
    while pos < n
        invariant
            n == s@.len(),
            nlv@ == nl(),
            d1@ == dashes() + nl(),
            d2@ == dashes() + seq!['\r', '\n'],
            d0@ == dashes(),
            0 <= pos,
            fm_close_from(s@, 0) == fm_close_from(s@, pos as int),
        decreases n - pos,
    {
        let is_close = starts_with_at(s, pos, n, d1.as_slice()) || starts_with_at(
            s,
            pos,
            n,
            d2.as_slice(),
        ) || chars_eq(slice(s, pos, n).as_slice(), d0.as_slice());
        if is_close {
            return Some(pos);
        }
        match find_exec(s, nlv.as_slice(), pos) {
            Some(i) => {
                pos = i + 1;
            },
            None => {
                return None;
            },
        }
    }
    None
}

/// Length of the leading run of byte order marks.
fn bom_lead(s: &[char]) -> (k: usize)
    ensures
        is_bom_lead(s@, k as int),
        strip_boms(s@) == s@.subrange(k as int, s@.len() as int),
{
    let mut k: usize = 0;
    while k < s.len() && s[k] == '\u{feff}'
        invariant
            0 <= k <= s@.len(),
            forall|j: int| 0 <= j < k ==> #[trigger] s@[j] == '\u{feff}',
        decreases s@.len() - k,
    {
        k = k + 1;
    }
    proof {
        let c = choose|c: int| is_bom_lead(s@, c);
        assert(is_bom_lead(s@, k as int));
        if c < k {
            assert(s@[c] == '\u{feff}');
        } else if k < c {
            assert(s@[k as int] == '\u{feff}');
        }
    }
    k
}

/// Key and value of a frontmatter line, as positions in `line`.
fn line_kv_exec(line: &[char]) -> (r: Option<(Vec<char>, Vec<char>)>)
    ensures
        match r {
            Some(kv) => line_kv(line@) == Some((kv.0@, kv.1@)),
            None => line_kv(line@) is None,
        },
{
    let colon: Vec<char> = vec![':'];
    assert(colon@ =~= seq![':']);
    let n = line.len();
    match find_exec(line, colon.as_slice(), 0) {
        None => None,
        Some(i) => {
            let (a, b) = trim_bounds(line, 0, i);
            if a < b {
                let (c, d) = trim_bounds(line, i + 1, n);
                Some((slice(line, a, b), slice(line, c, d)))
            } else {
                None
            }
        },
    }
}

/// Splits a layout file into its frontmatter (as a map) and its body.
fn split_frontmatter(s: &[char]) -> (r: (StrMap<Vec<char>>, Vec<char>))
    ensures
        r.1@ == template_body(s@),
        forall|k: Seq<char>| crate::template::opt_view(#[trigger] r.0.get_spec(k)) == fm_value(s@, k),
{
    let n = s.len();
    let b = bom_lead(s);
    let ghost t = s@.subrange(b as int, n as int);
    let d1: Vec<char> = vec!['-', '-', '-', '\n'];
    let d2: Vec<char> = vec!['-', '-', '-', '\r', '\n'];
    assert(d1@ =~= dashes() + nl());
    assert(d2@ =~= dashes() + seq!['\r', '\n']);
    if !(starts_with_at(s, b, n, d1.as_slice()) || starts_with_at(s, b, n, d2.as_slice())) {
        let m = StrMap::new();
        return (m, slice(s, 0, n));
    }
    let nlv: Vec<char> = vec!['\n'];
    assert(nlv@ =~= nl());
    proof {
        crate::text::lemma_find_shift(s@, nl(), b as int);
    }
    let k = match find_exec(s, nlv.as_slice(), b) {
        Some(k) => k,
        None => {
            proof {
                assert(t.subrange(0, 4)[3] == '\n' || t.subrange(0, 5)[4] == '\n');
                if t.subrange(0, 4) == dashes() + nl() {
                    assert(occurs_at(s@, nl(), b + 3)) by {
                        assert(s@.subrange(b + 3, b + 4) =~= nl());
                    }
                } else {
                    assert(occurs_at(s@, nl(), b + 4)) by {
                        assert(s@.subrange(b + 4, b + 5) =~= nl());
                    }
                }
                lemma_find_none(s@, nl(), b as int);
            }
            return (StrMap::new(), slice(s, 0, n));
        },
    };
    let after = slice(s, k + 1, n);
    assert(after@ =~= t.subrange(k - b + 1, t.len() as int));
    let e = match find_frontmatter_close(after.as_slice()) {
        None => {
            return (StrMap::new(), slice(s, 0, n));
        },
        Some(e) => e,
    };
    let bs = match find_exec(after.as_slice(), nlv.as_slice(), e) {
        Some(i) => i + 1,
        None => after.len(),
    };
    let body = slice(after.as_slice(), bs, after.len());
    let meta_text = slice(after.as_slice(), 0, e);
    let ls = lines_exec(meta_text.as_slice());
    let ghost all = views(ls@);
    let mut meta: StrMap<Vec<char>> = StrMap::new();
    let mut i: usize = 0;
    while i < ls.len()
        invariant
            0 <= i <= ls@.len(),
            all == views(ls@),
            forall|key: Seq<char>| crate::template::opt_view(#[trigger] meta.get_spec(key))
                == meta_value(all.take(i as int), key),
        decreases ls@.len() - i,
    {
        let ghost prev = meta;
        assert(all[i as int] == ls@[i as int]@);
        match line_kv_exec(ls[i].as_slice()) {
            Some(kv) => {
                let ghost kk = kv.0@;
                let ghost vv = kv.1@;
                meta.insert(kv.0, kv.1);
                proof {
                    assert forall|key: Seq<char>| crate::template::opt_view(
                        #[trigger] meta.get_spec(key),
                    ) == meta_value(all.take(i + 1), key) by {
                        assert(all.take(i + 1).drop_last() =~= all.take(i as int));
                        assert(all.take(i + 1).last() == all[i as int]);
                    }
                }
            },
            None => {
                proof {
                    assert forall|key: Seq<char>| crate::template::opt_view(
                        #[trigger] meta.get_spec(key),
                    ) == meta_value(all.take(i + 1), key) by {
                        assert(all.take(i + 1).drop_last() =~= all.take(i as int));
                        assert(all.take(i + 1).last() == all[i as int]);
                    }
                }
            },
        }
        i = i + 1;
    }
    assert(all.take(ls@.len() as int) =~= all);
    (meta, body)
}

impl Layout {
    /// Parses an HTML layout file: optional frontmatter, then the template
    /// body.
    pub fn parse_template(name: &str, source: &str) -> (l: Self)
        ensures
            l.view() == template_layout(name@, source@),
    {
        let src = to_chars(source);
        Self::parse_template_chars(to_chars(name).as_slice(), src.as_slice())
    }

    /// Parses a JavaScript layout file: chrome is on unless the script has a
    /// `showChrome()` whose body starts `return false`.
    pub fn parse_script(name: &str, source: &str) -> (l: Self)
        ensures
            l.view() == script_layout(name@, source@),
    {
        let src = to_chars(source);
        Self::parse_script_chars(to_chars(name).as_slice(), src.as_slice())
    }

    pub fn parse_template_chars(name: &[char], source: &[char]) -> (l: Self)
        ensures
            l.view() == template_layout(name@, source@),
    {
        let (meta, body) = split_frontmatter(source);
        let key: Vec<char> = vec!['c', 'h', 'r', 'o', 'm', 'e'];
        assert(key@ =~= chrome_key());
        let fw: Vec<char> = vec!['f', 'a', 'l', 's', 'e'];
        assert(fw@ =~= false_word());
        let chrome = match meta.get(key.as_slice()) {
            Some(v) => !chars_eq(v.as_slice(), fw.as_slice()),
            None => true,
        };
        assert(crate::template::opt_view(meta.get_spec(key@)) == fm_value(source@, key@));
        Layout {
            name: to_string(name),
            source: LayoutSource::Template(to_string(body.as_slice())),
            chrome,
        }
    }

    pub fn parse_script_chars(name: &[char], source: &[char]) -> (l: Self)
        ensures
            l.view() == script_layout(name@, source@),
    {
        let opt_out = to_chars("showChrome() { return false");
        let chrome = !contains_exec(source, opt_out.as_slice());
        Layout {
            name: to_string(name),
            source: LayoutSource::Script(to_string(source)),
            chrome,
        }
    }
}

// ---------------------------------------------------------------------------
// Layout sets
// ---------------------------------------------------------------------------

/// Layout lookup from the three sources.
pub struct LayoutSet {
    local: StrMap<Layout>,
    theme: StrMap<Layout>,
    builtin: StrMap<Layout>,
}

/// The layout named `name` in a set whose sources are `local`, `theme` and
/// `builtin`: the first that has it wins.
pub open spec fn first_layout(
    local: Option<LayoutView>,
    theme: Option<LayoutView>,
    builtin: Option<LayoutView>,
) -> Option<LayoutView> {
    if local is Some {
        local
    } else if theme is Some {
        theme
    } else {
        builtin
    }
}

/// `layouts/`
pub open spec fn layouts_dir() -> Seq<char> {
    seq!['l', 'a', 'y', 'o', 'u', 't', 's', '/']
}

/// `.html`
pub open spec fn html_ext() -> Seq<char> {
    seq!['.', 'h', 't', 'm', 'l']
}

/// The framework file that defines the built-in layout `name`.
pub open spec fn builtin_path(name: Seq<char>) -> Seq<char> {
    layouts_dir() + name + html_ext()
}

/// Text of the last file at `path` among `fs`.
pub open spec fn last_text(fs: Seq<(Seq<char>, Seq<char>)>, path: Seq<char>) -> Option<Seq<char>>
    decreases fs.len(),
{
    if fs.len() == 0 {
        None
    } else if fs.last().0 == path {
        Some(fs.last().1)
    } else {
        last_text(fs.drop_last(), path)
    }
}

/// `html`
pub open spec fn html_word() -> Seq<char> {
    seq!['h', 't', 'm', 'l']
}

/// `js`
pub open spec fn js_word() -> Seq<char> {
    seq!['j', 's']
}

pub open spec fn triple_views(s: Seq<(String, String, String)>) -> Seq<(Seq<char>, Seq<char>, Seq<char>)> {
    s.map_values(|t: (String, String, String)| (t.0@, t.1@, t.2@))
}

/// The local layout `k` after loading the deck's layout files `fs` (stem,
/// extension, text), in order, on top of `base`: an `.html` file replaces
/// whatever was there, a `.js` file only fills a gap.
pub open spec fn local_after(
    fs: Seq<(Seq<char>, Seq<char>, Seq<char>)>,
    base: Option<LayoutView>,
    k: Seq<char>,
) -> Option<LayoutView>
    decreases fs.len(),
{
    if fs.len() == 0 {
        base
    } else {
        let prev = local_after(fs.drop_last(), base, k);
        let f = fs.last();
        if f.0 != k {
            prev
        } else if f.1 == html_word() {
            Some(template_layout(k, f.2))
        } else if f.1 == js_word() && prev is None {
            Some(script_layout(k, f.2))
        } else {
            prev
        }
    }
}

/// `s` looks like an HTML template rather than a script: after leading
/// whitespace it starts with `---`, `<` or `{{`.
pub open spec fn looks_like_template_spec(s: Seq<char>) -> bool {
    let t = trim_start(s);
    has_prefix(t, dashes()) || has_prefix(t, seq!['<']) || has_prefix(t, seq!['{', '{'])
}

/// The layout a theme file with this name and text becomes.
pub open spec fn theme_layout(name: Seq<char>, source: Seq<char>) -> LayoutView {
    if looks_like_template_spec(source) {
        template_layout(name, source)
    } else {
        script_layout(name, source)
    }
}

fn looks_like_template(src: &[char]) -> (b: bool)
    ensures
        b == looks_like_template_spec(src@),
{
    let n = src.len();
    let (t, _) = trim_bounds(src, 0, n);
    assert(src@.subrange(0, n as int) =~= src@);
    let d: Vec<char> = vec!['-', '-', '-'];
    let lt: Vec<char> = vec!['<'];
    let br: Vec<char> = vec!['{', '{'];
    assert(d@ =~= dashes());
    assert(lt@ =~= seq!['<']);
    assert(br@ =~= seq!['{', '{']);
    starts_with_at(src, t, n, d.as_slice()) || starts_with_at(src, t, n, lt.as_slice())
        || starts_with_at(src, t, n, br.as_slice())
}

impl LayoutSet {
    /// The deck-local layout `k`.
    pub closed spec fn local_layout(&self, k: Seq<char>) -> Option<LayoutView> {
        opt_layout(self.local.get_spec(k))
    }

    /// The theme layout `k`.
    pub closed spec fn theme_layout(&self, k: Seq<char>) -> Option<LayoutView> {
        opt_layout(self.theme.get_spec(k))
    }

    /// The built-in layout `k`.
    pub closed spec fn builtin_layout(&self, k: Seq<char>) -> Option<LayoutView> {
        opt_layout(self.builtin.get_spec(k))
    }

    /// What `resolve(k)` finds.
    pub open spec fn resolve_spec(&self, k: Seq<char>) -> Option<LayoutView> {
        first_layout(self.local_layout(k), self.theme_layout(k), self.builtin_layout(k))
    }

    /// An empty set.
    pub fn new() -> (s: Self)
        ensures
            forall|k: Seq<char>| s.local_layout(k) is None,
            forall|k: Seq<char>| s.theme_layout(k) is None,
            forall|k: Seq<char>| s.builtin_layout(k) is None,
    {
        LayoutSet { local: StrMap::new(), theme: StrMap::new(), builtin: StrMap::new() }
    }

    /// The layout named `name`, from the highest-precedence source that has
    /// it.
    pub fn resolve(&self, name: &str) -> (r: Option<&Layout>)
        ensures
            opt_layout(
                match r {
                    Some(l) => Some(*l),
                    None => None,
                },
            ) == self.resolve_spec(name@),
    {
        self.resolve_chars(to_chars(name).as_slice())
    }

    pub fn resolve_chars(&self, name: &[char]) -> (r: Option<&Layout>)
        ensures
            opt_layout(
                match r {
                    Some(l) => Some(*l),
                    None => None,
                },
            ) == self.resolve_spec(name@),
    {
        match self.local.get(name) {
            Some(l) => Some(l),
            None => match self.theme.get(name) {
                Some(l) => Some(l),
                None => self.builtin.get(name),
            },
        }
    }

    /// Loads the built-in layouts from the framework files
    /// `layouts/<name>.html`; other files are ignored.
    pub fn load_builtin(&mut self, assets: &AssetBundle)
        ensures
            forall|k: Seq<char>|
                #[trigger] final(self).builtin_layout(k) == match last_text(
                    assets.files(),
                    builtin_path(k),
                ) {
                    Some(src) => Some(template_layout(k, src)),
                    None => old(self).builtin_layout(k),
                },
            forall|k: Seq<char>| #[trigger] final(self).local_layout(k) == old(self).local_layout(k),
            forall|k: Seq<char>| #[trigger] final(self).theme_layout(k) == old(self).theme_layout(k),
    {
        let ghost fs = assets.files();
        let ghost b0 = *self;
        let pre: Vec<char> = vec!['l', 'a', 'y', 'o', 'u', 't', 's', '/'];
        let ext: Vec<char> = vec!['.', 'h', 't', 'm', 'l'];
        assert(pre@ =~= layouts_dir());
        assert(ext@ =~= html_ext());
        let mut i: usize = 0;
        while i < assets.len()
            invariant
                fs == assets.files(),
                pre@ == layouts_dir(),
                ext@ == html_ext(),
                0 <= i <= fs.len(),
                forall|k: Seq<char>|
                    #[trigger] self.builtin_layout(k) == match last_text(
                        fs.take(i as int),
                        builtin_path(k),
                    ) {
                        Some(src) => Some(template_layout(k, src)),
                        None => b0.builtin_layout(k),
                    },
                forall|k: Seq<char>| #[trigger] self.local_layout(k) == b0.local_layout(k),
                forall|k: Seq<char>| #[trigger] self.theme_layout(k) == b0.theme_layout(k),
            decreases fs.len() - i,
        {
            let (path, content) = assets.entry(i);
            let p = to_chars(path.as_str());
            let m = p.len();
            let ghost prev = *self;
            proof {
                assert(fs.take(i + 1).drop_last() =~= fs.take(i as int));
                assert(fs.take(i + 1).last() == fs[i as int]);
            }
            if m >= 13 && starts_with_at(p.as_slice(), 0, m, pre.as_slice()) && crate::text::ends_with_at(
                p.as_slice(),
                8,
                m,
                ext.as_slice(),
            ) {
                let name = slice(p.as_slice(), 8, m - 5);
                let src = to_chars(content.as_str());
                let layout = Layout::parse_template_chars(name.as_slice(), src.as_slice());
                let ghost nm = name@;
                proof {
                    assert(p@.subrange(0, 8) =~= layouts_dir());
                    assert(p@.subrange(8, m as int).subrange(m - 13, m - 8) =~= p@.subrange(
                        m - 5,
                        m as int,
                    ));
                    assert(p@ =~= builtin_path(nm));
                }
                self.builtin.insert(name, layout);
                proof {
                    assert forall|k: Seq<char>| #[trigger] self.builtin_layout(k) == match last_text(
                        fs.take(i + 1),
                        builtin_path(k),
                    ) {
                        Some(src) => Some(template_layout(k, src)),
                        None => b0.builtin_layout(k),
                    } by {
                        assert(prev.builtin_layout(k) == match last_text(
                            fs.take(i as int),
                            builtin_path(k),
                        ) {
                            Some(src) => Some(template_layout(k, src)),
                            None => b0.builtin_layout(k),
                        });
                        if k != nm {
                            if builtin_path(k) == builtin_path(nm) {
                                assert(builtin_path(k).subrange(8, builtin_path(k).len() - 5)
                                    =~= k);
                                assert(builtin_path(nm).subrange(8, builtin_path(nm).len() - 5)
                                    =~= nm);
                            }
                        }
                    }
                }
            } else {
                proof {
                    assert forall|k: Seq<char>| #[trigger] self.builtin_layout(k) == match last_text(
                        fs.take(i + 1),
                        builtin_path(k),
                    ) {
                        Some(src) => Some(template_layout(k, src)),
                        None => b0.builtin_layout(k),
                    } by {
                        assert(prev.builtin_layout(k) == match last_text(
                            fs.take(i as int),
                            builtin_path(k),
                        ) {
                            Some(src) => Some(template_layout(k, src)),
                            None => b0.builtin_layout(k),
                        });
                        if p@ == builtin_path(k) {
                            let bp = builtin_path(k);
                            assert(p@.subrange(0, m as int) =~= p@);
                            assert(bp.subrange(0, 8).len() == 8);
                            assert(bp.subrange(0, 8) =~= layouts_dir());
                            assert(bp.subrange(8, bp.len() as int).subrange(
                                bp.len() - 13,
                                bp.len() - 8,
                            ) =~= html_ext());
                        }
                    }
                }
            }
            assert forall|k: Seq<char>| #[trigger] self.local_layout(k) == b0.local_layout(k) by {
                assert(prev.local_layout(k) == b0.local_layout(k));
            }
            assert forall|k: Seq<char>| #[trigger] self.theme_layout(k) == b0.theme_layout(k) by {
                assert(prev.theme_layout(k) == b0.theme_layout(k));
            }
            i = i + 1;
        }
        assert(fs.take(fs.len() as int) =~= fs);
    }

    /// Loads the deck's own layout files, each given as (file stem,
    /// extension, text). An `.html` file takes precedence over a `.js` file
    /// of the same name, in whatever order they come; other extensions are
    /// ignored.
    /// The deck-local layout `name`, if any.
    pub fn local_get(&self, name: &str) -> (r: Option<&Layout>)
        ensures
            opt_layout(
                match r {
                    Some(l) => Some(*l),
                    None => None,
                },
            ) == self.local_layout(name@),
    {
        self.local.get(to_chars(name).as_slice())
    }

    /// The theme layout `name`, if any.
    pub fn theme_get(&self, name: &str) -> (r: Option<&Layout>)
        ensures
            opt_layout(
                match r {
                    Some(l) => Some(*l),
                    None => None,
                },
            ) == self.theme_layout(name@),
    {
        self.theme.get(to_chars(name).as_slice())
    }

    /// The built-in layout `name`, if any.
    pub fn builtin_get(&self, name: &str) -> (r: Option<&Layout>)
        ensures
            opt_layout(
                match r {
                    Some(l) => Some(*l),
                    None => None,
                },
            ) == self.builtin_layout(name@),
    {
        self.builtin.get(to_chars(name).as_slice())
    }

    /// Adds the theme layout `layout` under `name`, replacing any theme layout
    /// of that name.
    pub fn insert_theme(&mut self, name: &str, layout: Layout)
        ensures
            final(self).theme_layout(name@) == Some(layout.view()),
            forall|k: Seq<char>| k != name@ ==> #[trigger] final(self).theme_layout(k) == old(self).theme_layout(k),
            forall|k: Seq<char>| #[trigger] final(self).local_layout(k) == old(self).local_layout(k),
            forall|k: Seq<char>| #[trigger] final(self).builtin_layout(k) == old(self).builtin_layout(k),
    {
        self.theme.insert(to_chars(name), layout);
    }

    /// Adds the built-in layout `layout` under `name`, replacing any built-in
    /// layout of that name.
    pub fn insert_builtin(&mut self, name: &str, layout: Layout)
        ensures
            final(self).builtin_layout(name@) == Some(layout.view()),
            forall|k: Seq<char>| k != name@ ==> #[trigger] final(self).builtin_layout(k) == old(self).builtin_layout(k),
            forall|k: Seq<char>| #[trigger] final(self).local_layout(k) == old(self).local_layout(k),
            forall|k: Seq<char>| #[trigger] final(self).theme_layout(k) == old(self).theme_layout(k),
    {
        self.builtin.insert(to_chars(name), layout);
    }

    /// Adds the deck-local layout `layout` under `name`, replacing any
    /// deck-local layout of that name. It then resolves `name`; every other
    /// name resolves as before.
    pub fn insert_local(&mut self, name: &str, layout: Layout)
        ensures
            final(self).local_layout(name@) == Some(layout.view()),
            forall|k: Seq<char>| k != name@ ==> #[trigger] final(self).local_layout(k) == old(self).local_layout(k),
            forall|k: Seq<char>| #[trigger] final(self).theme_layout(k) == old(self).theme_layout(k),
            forall|k: Seq<char>| #[trigger] final(self).builtin_layout(k) == old(self).builtin_layout(k),
            final(self).resolve_spec(name@) == Some(layout.view()),
            forall|k: Seq<char>| k != name@ ==> #[trigger] final(self).resolve_spec(k) == old(self).resolve_spec(k),
    {
        self.local.insert(to_chars(name), layout);
    }

    pub fn load_local(&mut self, files: &Vec<(String, String, String)>)
        ensures
            forall|k: Seq<char>|
                #[trigger] final(self).local_layout(k) == local_after(
                    triple_views(files@),
                    old(self).local_layout(k),
                    k,
                ),
            forall|k: Seq<char>| #[trigger] final(self).theme_layout(k) == old(self).theme_layout(k),
            forall|k: Seq<char>| #[trigger] final(self).builtin_layout(k) == old(self).builtin_layout(
                k,
            ),
    {
        let ghost fs = triple_views(files@);
        let ghost b0 = *self;
        let html: Vec<char> = vec!['h', 't', 'm', 'l'];
        let js: Vec<char> = vec!['j', 's'];
        assert(html@ =~= html_word());
        assert(js@ =~= js_word());
        let mut i: usize = 0;
        while i < files.len()
            invariant
                fs == triple_views(files@),
                html@ == html_word(),
                js@ == js_word(),
                0 <= i <= fs.len(),
                forall|k: Seq<char>|
                    #[trigger] self.local_layout(k) == local_after(
                        fs.take(i as int),
                        b0.local_layout(k),
                        k,
                    ),
                forall|k: Seq<char>| #[trigger] self.theme_layout(k) == b0.theme_layout(k),
                forall|k: Seq<char>| #[trigger] self.builtin_layout(k) == b0.builtin_layout(k),
            decreases fs.len() - i,
        {
            let stem = to_chars(files[i].0.as_str());
            let ext = to_chars(files[i].1.as_str());
            let content = to_chars(files[i].2.as_str());
            let ghost prev = *self;
            proof {
                assert(fs.take(i + 1).drop_last() =~= fs.take(i as int));
                assert(fs.take(i + 1).last() == fs[i as int]);
                assert(fs[i as int] == (stem@, ext@, content@));
            }
            let ghost st = stem@;
            if chars_eq(ext.as_slice(), html.as_slice()) {
                let layout = Layout::parse_template_chars(stem.as_slice(), content.as_slice());
                self.local.insert(stem, layout);
            } else if chars_eq(ext.as_slice(), js.as_slice()) {
                if !self.local.contains_key(stem.as_slice()) {
                    let layout = Layout::parse_script_chars(stem.as_slice(), content.as_slice());
                    self.local.insert(stem, layout);
                }
            }
            assert forall|k: Seq<char>|
                #[trigger] self.local_layout(k) == local_after(fs.take(i + 1), b0.local_layout(k), k) by {
                assert(prev.local_layout(k) == local_after(fs.take(i as int), b0.local_layout(k), k));
            }
            assert forall|k: Seq<char>| #[trigger] self.theme_layout(k) == b0.theme_layout(k) by {
                assert(prev.theme_layout(k) == b0.theme_layout(k));
            }
            assert forall|k: Seq<char>| #[trigger] self.builtin_layout(k) == b0.builtin_layout(k) by {
                assert(prev.builtin_layout(k) == b0.builtin_layout(k));
            }
            i = i + 1;
        }
        assert(fs.take(fs.len() as int) =~= fs);
    }

    /// Loads the layouts a theme provides; each is a template if it looks
    /// like one, a script otherwise.
    pub fn load_theme(&mut self, theme: &LoadedTheme)
        ensures
            forall|k: Seq<char>|
                #[trigger] final(self).theme_layout(k) == match last_text(
                    crate::assets::pair_views(theme.layouts@),
                    k,
                ) {
                    Some(src) => Some(theme_layout(k, src)),
                    None => old(self).theme_layout(k),
                },
            forall|k: Seq<char>| #[trigger] final(self).local_layout(k) == old(self).local_layout(k),
            forall|k: Seq<char>| #[trigger] final(self).builtin_layout(k) == old(self).builtin_layout(
                k,
            ),
    {
        let ghost fs = crate::assets::pair_views(theme.layouts@);
        let ghost b0 = *self;
        let mut i: usize = 0;
        while i < theme.layouts.len()
            invariant
                fs == crate::assets::pair_views(theme.layouts@),
                0 <= i <= fs.len(),
                forall|k: Seq<char>|
                    #[trigger] self.theme_layout(k) == match last_text(fs.take(i as int), k) {
                        Some(src) => Some(theme_layout(k, src)),
                        None => b0.theme_layout(k),
                    },
                forall|k: Seq<char>| #[trigger] self.local_layout(k) == b0.local_layout(k),
                forall|k: Seq<char>| #[trigger] self.builtin_layout(k) == b0.builtin_layout(k),
            decreases fs.len() - i,
        {
            let name = to_chars(theme.layouts[i].0.as_str());
            let source = to_chars(theme.layouts[i].1.as_str());
            proof {
                assert(fs.take(i + 1).drop_last() =~= fs.take(i as int));
                assert(fs.take(i + 1).last() == fs[i as int]);
                assert(fs[i as int] == (name@, source@));
            }
            let ghost prev = *self;
            let ghost nm = name@;
            let layout = if looks_like_template(source.as_slice()) {
                Layout::parse_template_chars(name.as_slice(), source.as_slice())
            } else {
                Layout::parse_script_chars(name.as_slice(), source.as_slice())
            };
            self.theme.insert(name, layout);
            assert forall|k: Seq<char>|
                #[trigger] self.theme_layout(k) == match last_text(fs.take(i + 1), k) {
                    Some(src) => Some(theme_layout(k, src)),
                    None => b0.theme_layout(k),
                } by {
                assert(prev.theme_layout(k) == match last_text(fs.take(i as int), k) {
                    Some(src) => Some(theme_layout(k, src)),
                    None => b0.theme_layout(k),
                });
            }
            assert forall|k: Seq<char>| #[trigger] self.local_layout(k) == b0.local_layout(k) by {
                assert(prev.local_layout(k) == b0.local_layout(k));
            }
            assert forall|k: Seq<char>| #[trigger] self.builtin_layout(k) == b0.builtin_layout(k) by {
                assert(prev.builtin_layout(k) == b0.builtin_layout(k));
            }
            i = i + 1;
        }
        assert(fs.take(fs.len() as int) =~= fs);
    }
}

// ---------------------------------------------------------------------------
// Rendering one slide
// ---------------------------------------------------------------------------

/// Value of the first attribute named `key`, or empty.
pub open spec fn first_attr(attrs: Seq<(Seq<char>, Seq<char>)>, key: Seq<char>) -> Seq<char> {
    match crate::assets::file_text(attrs, key) {
        Some(v) => v,
        None => seq![],
    }
}

/// Watermark, footer (each only when non-empty) and page number, when the
/// layout shows chrome.
pub open spec fn chrome_html(show: bool, wm: Seq<char>, footer: Seq<char>, index: nat) -> Seq<char> {
    if !show {
        seq![]
    } else {
        (if wm.len() > 0 {
            "<div class=\"ms-watermark\">"@ + wm + "</div>"@
        } else {
            seq![]
        }) + (if footer.len() > 0 {
            "<div class=\"ms-footer-logo\">"@ + footer + "</div>"@
        } else {
            seq![]
        }) + "<div class=\"ms-page-number\">"@ + crate::text::decimal(index) + "</div>"@
    }
}

/// What a template placeholder of a slide refers to: the slide's attributes
/// (the last one of a name wins), its slots, its body as `content` (both as
/// variable and slot), and `slide-index` / `total-slides`.
pub open spec fn slide_look(
    attrs: Seq<(Seq<char>, Seq<char>)>,
    slots: Seq<(Seq<char>, Seq<char>)>,
    body: Seq<char>,
    index: nat,
    total: nat,
) -> spec_fn(Seq<char>) -> Option<Seq<char>> {
    |name: Seq<char>|
        if has_prefix(name, crate::template::slot_prefix()) {
            let k = name.subrange(5, name.len() as int);
            if k == "content"@ {
                Some(body)
            } else {
                last_text(slots, k)
            }
        } else if name == "total-slides"@ {
            Some(crate::text::decimal(total))
        } else if name == "slide-index"@ {
            Some(crate::text::decimal(index))
        } else if name == "content"@ {
            Some(body)
        } else {
            last_text(attrs, name)
        }
}

/// How an attribute value is written inside double quotes.
pub open spec fn attr_escape_char(c: char) -> Seq<char> {
    if c == '&' {
        "&amp;"@
    } else if c == '"' {
        "&quot;"@
    } else if c == '<' {
        "&lt;"@
    } else {
        seq![c]
    }
}

/// `s` with `&`, `"` and `<` replaced by HTML entities.
pub open spec fn attr_escape(s: Seq<char>) -> Seq<char>
    decreases s.len(),
{
    if s.len() == 0 {
        seq![]
    } else {
        attr_escape(s.drop_last()) + attr_escape_char(s.last())
    }
}

/// The attributes, except `layout`, written as ` key="value"`.
pub open spec fn script_attrs(attrs: Seq<(Seq<char>, Seq<char>)>) -> Seq<char>
    decreases attrs.len(),
{
    if attrs.len() == 0 {
        seq![]
    } else {
        let a = attrs.last();
        script_attrs(attrs.drop_last()) + if a.0 == "layout"@ {
            seq![]
        } else {
            seq![' '] + a.0 + "=\""@ + attr_escape(a.1) + seq!['"']
        }
    }
}

/// The opening tag of a slide container.
pub open spec fn container_open(class: Seq<char>, index: nat) -> Seq<char> {
    "<div class=\"ms-slide-container "@ + class + (if index == 1 {
        " active"@
    } else {
        seq![]
    }) + "\" data-slide-index=\""@ + crate::text::decimal(index) + "\">"@
}

/// The layout a slide uses: the one it names, else `slide-default`.
pub open spec fn slide_layout(layouts: LayoutSet, name: Seq<char>) -> Option<LayoutView> {
    match layouts.resolve_spec(name) {
        Some(l) => Some(l),
        None => layouts.resolve_spec("slide-default"@),
    }
}

/// HTML of a slide, and the client script its layout needs if it is a
/// script layout.
#[verifier::opaque]
pub open spec fn slide_html(
    layout_name: Seq<char>,
    attrs: Seq<(Seq<char>, Seq<char>)>,
    slots: Seq<(Seq<char>, Seq<char>)>,
    body: Seq<char>,
    index: nat,
    total: nat,
    layouts: LayoutSet,
) -> (Seq<char>, Option<Seq<char>>) {
    let lay = slide_layout(layouts, layout_name);
    let show = match lay {
        Some(l) => l.chrome,
        None => true,
    };
    let ch = chrome_html(
        show,
        first_attr(attrs, "watermark"@),
        first_attr(attrs, "footer"@),
        index,
    );
    let class = match lay {
        Some(l) => l.name,
        None => "slide-default"@,
    };
    let open = container_open(class, index);
    match lay {
        Some(l) => if l.is_template {
            (
                open + ch + crate::template::render_spec(
                    l.text,
                    slide_look(attrs, slots, body, index, total),
                ) + "</div>"@,
                None,
            )
        } else {
            (
                open + ch + seq!['<'] + layout_name + script_attrs(attrs) + " slide-index=\""@
                    + crate::text::decimal(index) + "\" total-slides=\""@ + crate::text::decimal(
                    total,
                ) + "\">"@ + body + "</"@ + layout_name + seq!['>'] + "</div>"@,
                Some(l.text),
            )
        },
        None => (open + ch + body + "</div>"@, None),
    }
}

fn push_lit(out: &mut Vec<char>, lit: &str)
    ensures
        final(out)@ == old(out)@ + lit@,
{
    push_all(out, to_chars(lit).as_slice());
}

fn push_attr_escaped(out: &mut Vec<char>, s: &[char])
    ensures
        final(out)@ == old(out)@ + attr_escape(s@),
{
    let ghost start = out@;
    let mut i: usize = 0;
    while i < s.len()
        invariant
            0 <= i <= s@.len(),
            out@ == start + attr_escape(s@.subrange(0, i as int)),
        decreases s@.len() - i,
    {
        let c = s[i];
        if c == '&' {
            push_lit(out, "&amp;");
        } else if c == '"' {
            push_lit(out, "&quot;");
        } else if c == '<' {
            push_lit(out, "&lt;");
        } else {
            out.push(c);
        }
        proof {
            let t = s@.subrange(0, i + 1);
            assert(t.drop_last() =~= s@.subrange(0, i as int));
            assert(t.last() == c);
            assert(out@ =~= start + attr_escape(t));
        }
        i = i + 1;
    }
    assert(s@.subrange(0, s@.len() as int) =~= s@);
}

/// The value of the first attribute named `key`, or nothing.
pub fn first_attr_chars(attrs: &[(String, String)], key: &str) -> (r: Vec<char>)
    ensures
        r@ == first_attr(crate::assets::pair_views(attrs@), key@),
{
    let ghost a = crate::assets::pair_views(attrs@);
    let k = to_chars(key);
    let mut i: usize = 0;
    while i < attrs.len()
        invariant
            a == crate::assets::pair_views(attrs@),
            k@ == key@,
            0 <= i <= a.len(),
            forall|j: int| 0 <= j < i ==> (#[trigger] a[j]).0 != key@,
        decreases a.len() - i,
    {
        let name = to_chars(attrs[i].0.as_str());
        assert(a[i as int] == (attrs@[i as int].0@, attrs@[i as int].1@));
        if chars_eq(name.as_slice(), k.as_slice()) {
            proof {
                assert(crate::assets::first_file(a, key@, i as int));
                let c = choose|c: int| crate::assets::first_file(a, key@, c);
                if c < i {
                    assert(a[c].0 != key@);
                } else if i < c {
                    assert(a[i as int].0 != key@);
                }
            }
            return to_chars(attrs[i].1.as_str());
        }
        i = i + 1;
    }
    Vec::new()
}

fn push_chrome(out: &mut Vec<char>, show: bool, wm: &Vec<char>, footer: &Vec<char>, index: usize)
    ensures
        final(out)@ == old(out)@ + chrome_html(show, wm@, footer@, index as nat),
{
    let ghost start = out@;
    if show {
        if wm.len() > 0 {
            push_lit(out, "<div class=\"ms-watermark\">");
            push_all(out, wm.as_slice());
            push_lit(out, "</div>");
        }
        let ghost mid = out@;
        if footer.len() > 0 {
            push_lit(out, "<div class=\"ms-footer-logo\">");
            push_all(out, footer.as_slice());
            push_lit(out, "</div>");
        }
        let ghost mid2 = out@;
        push_lit(out, "<div class=\"ms-page-number\">");
        crate::text::push_decimal(out, index);
        push_lit(out, "</div>");
        assert(out@ =~= start + chrome_html(show, wm@, footer@, index as nat));
    } else {
        assert(out@ =~= start + chrome_html(show, wm@, footer@, index as nat));
    }
}

fn push_script_attrs(out: &mut Vec<char>, attrs: &[(String, String)])
    ensures
        final(out)@ == old(out)@ + script_attrs(crate::assets::pair_views(attrs@)),
{
    let ghost a = crate::assets::pair_views(attrs@);
    let ghost start = out@;
    let lay = to_chars("layout");
    let mut i: usize = 0;
    while i < attrs.len()
        invariant
            a == crate::assets::pair_views(attrs@),
            lay@ == "layout"@,
            0 <= i <= a.len(),
            out@ == start + script_attrs(a.take(i as int)),
        decreases a.len() - i,
    {
        let k = to_chars(attrs[i].0.as_str());
        let v = to_chars(attrs[i].1.as_str());
        assert(a[i as int] == (k@, v@));
        let ghost before = out@;
        if !chars_eq(k.as_slice(), lay.as_slice()) {
            out.push(' ');
            push_all(out, k.as_slice());
            push_lit(out, "=\"");
            push_attr_escaped(out, v.as_slice());
            out.push('"');
        }
        proof {
            let t = a.take(i + 1);
            assert(t.drop_last() =~= a.take(i as int));
            assert(t.last() == a[i as int]);
            assert(out@ =~= start + script_attrs(t));
        }
        i = i + 1;
    }
    assert(a.take(a.len() as int) =~= a);
}

/// Renders one slide: its HTML, and the client script of its layout when
/// that is a script layout.
pub fn render_slide(
    layout_name: &str,
    attrs: &[(String, String)],
    slots: &[(String, String)],
    body_html: &str,
    index: usize,
    total: usize,
    layouts: &LayoutSet,
) -> (r: (String, Option<String>))
    ensures
        r.0@ == slide_html(
            layout_name@,
            crate::assets::pair_views(attrs@),
            crate::assets::pair_views(slots@),
            body_html@,
            index as nat,
            total as nat,
            *layouts,
        ).0,
        match (r.1, slide_html(
            layout_name@,
            crate::assets::pair_views(attrs@),
            crate::assets::pair_views(slots@),
            body_html@,
            index as nat,
            total as nat,
            *layouts,
        ).1) {
            (Some(a), Some(b)) => a@ == b,
            (None, None) => true,
            _ => false,
        },
{
    reveal(slide_html);
    let ghost av = crate::assets::pair_views(attrs@);
    let ghost sv = crate::assets::pair_views(slots@);
    let name = to_chars(layout_name);
    let layout = match layouts.resolve_chars(name.as_slice()) {
        Some(l) => Some(l),
        None => layouts.resolve_chars(to_chars("slide-default").as_slice()),
    };
    let ghost lay = slide_layout(*layouts, layout_name@);
    assert(opt_layout(
        match layout {
            Some(l) => Some(*l),
            None => None,
        },
    ) == lay);
    let wm = first_attr_chars(attrs, "watermark");
    let footer = first_attr_chars(attrs, "footer");
    let show = match layout {
        Some(l) => l.chrome,
        None => true,
    };
    let mut chrome: Vec<char> = Vec::new();
    push_chrome(&mut chrome, show, &wm, &footer, index);
    let class = match layout {
        Some(l) => to_chars(l.name.as_str()),
        None => to_chars("slide-default"),
    };
    let mut out: Vec<char> = Vec::new();
    push_lit(&mut out, "<div class=\"ms-slide-container ");
    push_all(&mut out, class.as_slice());
    if index == 1 {
        push_lit(&mut out, " active");
    }
    push_lit(&mut out, "\" data-slide-index=\"");
    crate::text::push_decimal(&mut out, index);
    push_lit(&mut out, "\">");
    let ghost open = out@;
    assert(open =~= container_open(class@, index as nat));
    push_all(&mut out, chrome.as_slice());
    match layout {
        Some(l) => match &l.source {
            LayoutSource::Template(tpl) => {
                let ctx = slide_context(attrs, slots, body_html, index, total);
                let t = to_chars(tpl.as_str());
                crate::template::render_chars(t.as_slice(), &ctx, &mut out);
                push_lit(&mut out, "</div>");
                assert(out@ =~= slide_html(
                    layout_name@,
                    av,
                    sv,
                    body_html@,
                    index as nat,
                    total as nat,
                    *layouts,
                ).0);
                (to_string(out.as_slice()), None)
            },
            LayoutSource::Script(js) => {
                out.push('<');
                push_all(&mut out, name.as_slice());
                push_script_attrs(&mut out, attrs);
                push_lit(&mut out, " slide-index=\"");
                crate::text::push_decimal(&mut out, index);
                push_lit(&mut out, "\" total-slides=\"");
                crate::text::push_decimal(&mut out, total);
                push_lit(&mut out, "\">");
                push_all(&mut out, to_chars(body_html).as_slice());
                push_lit(&mut out, "</");
                push_all(&mut out, name.as_slice());
                out.push('>');
                push_lit(&mut out, "</div>");
                assert(out@ =~= slide_html(
                    layout_name@,
                    av,
                    sv,
                    body_html@,
                    index as nat,
                    total as nat,
                    *layouts,
                ).0);
                (to_string(out.as_slice()), Some(String::from_str(js.as_str())))
            },
        },
        None => {
            push_all(&mut out, to_chars(body_html).as_slice());
            push_lit(&mut out, "</div>");
            assert(out@ =~= slide_html(
                layout_name@,
                av,
                sv,
                body_html@,
                index as nat,
                total as nat,
                *layouts,
            ).0);
            (to_string(out.as_slice()), None)
        },
    }
}

/// The template context of a slide.
fn slide_context(
    attrs: &[(String, String)],
    slots: &[(String, String)],
    body_html: &str,
    index: usize,
    total: usize,
) -> (ctx: crate::template::Context)
    ensures
        ctx.lookup_fn() == slide_look(
            crate::assets::pair_views(attrs@),
            crate::assets::pair_views(slots@),
            body_html@,
            index as nat,
            total as nat,
        ),
{
    let ghost av = crate::assets::pair_views(attrs@);
    let ghost sv = crate::assets::pair_views(slots@);
    let mut ctx = crate::template::Context::new();
    let mut i: usize = 0;
    while i < attrs.len()
        invariant
            av == crate::assets::pair_views(attrs@),
            0 <= i <= av.len(),
            forall|k: Seq<char>| #[trigger] ctx.var(k) == last_text(av.take(i as int), k),
            forall|k: Seq<char>| #[trigger] ctx.slot(k) is None,
        decreases av.len() - i,
    {
        let k = to_chars(attrs[i].0.as_str());
        let v = to_chars(attrs[i].1.as_str());
        assert(av[i as int] == (k@, v@));
        let ghost prev = ctx;
        let ghost kk = k@;
        ctx.set_chars(k, v);
        assert forall|q: Seq<char>| #[trigger] ctx.var(q) == last_text(av.take(i + 1), q) by {
            assert(av.take(i + 1).drop_last() =~= av.take(i as int));
            assert(av.take(i + 1).last() == av[i as int]);
            assert(prev.var(q) == last_text(av.take(i as int), q));
        }
        assert forall|q: Seq<char>| #[trigger] ctx.slot(q) is None by {
            assert(prev.slot(q) is None);
        }
        i = i + 1;
    }
    assert(av.take(av.len() as int) =~= av);
    let mut j: usize = 0;
    while j < slots.len()
        invariant
            sv == crate::assets::pair_views(slots@),
            0 <= j <= sv.len(),
            forall|k: Seq<char>| #[trigger] ctx.var(k) == last_text(av, k),
            forall|k: Seq<char>| #[trigger] ctx.slot(k) == last_text(sv.take(j as int), k),
        decreases sv.len() - j,
    {
        let k = to_chars(slots[j].0.as_str());
        let v = to_chars(slots[j].1.as_str());
        assert(sv[j as int] == (k@, v@));
        let ghost prev = ctx;
        ctx.set_slot_chars(k, v);
        assert forall|q: Seq<char>| #[trigger] ctx.slot(q) == last_text(sv.take(j + 1), q) by {
            assert(sv.take(j + 1).drop_last() =~= sv.take(j as int));
            assert(sv.take(j + 1).last() == sv[j as int]);
            assert(prev.slot(q) == last_text(sv.take(j as int), q));
        }
        assert forall|q: Seq<char>| #[trigger] ctx.var(q) == last_text(av, q) by {
            assert(prev.var(q) == last_text(av, q));
        }
        j = j + 1;
    }
    assert(sv.take(sv.len() as int) =~= sv);
    let body = to_chars(body_html);
    let mut idx: Vec<char> = Vec::new();
    crate::text::push_decimal(&mut idx, index);
    let mut tot: Vec<char> = Vec::new();
    crate::text::push_decimal(&mut tot, total);
    assert(idx@ =~= crate::text::decimal(index as nat));
    assert(tot@ =~= crate::text::decimal(total as nat));
    ctx.set_chars(to_chars("content"), body.clone());
    ctx.set_chars(to_chars("slide-index"), idx);
    ctx.set_chars(to_chars("total-slides"), tot);
    ctx.set_slot_chars(to_chars("content"), body);
    let ghost look = slide_look(av, sv, body_html@, index as nat, total as nat);
    assert forall|n: Seq<char>| #[trigger] ctx.lookup_fn()(n) == look(n) by {}
    assert(ctx.lookup_fn() =~= look);
    ctx
}

impl Default for LayoutSet {
    /// An empty set.
    fn default() -> (s: Self)
        ensures
            forall|k: Seq<char>| s.local_layout(k) is None,
            forall|k: Seq<char>| s.theme_layout(k) is None,
            forall|k: Seq<char>| s.builtin_layout(k) is None,
    {
        LayoutSet::new()
    }
}

// ---------------------------------------------------------------------------
// Laws
// ---------------------------------------------------------------------------

/// Resolution precedence: a deck-local layout wins over a theme layout of
/// the same name, which wins over a built-in one.
pub proof fn law_resolution_precedence(set: LayoutSet, k: Seq<char>)
    ensures
        set.local_layout(k) is Some ==> set.resolve_spec(k) == set.local_layout(k),
        set.local_layout(k) is None && set.theme_layout(k) is Some ==> set.resolve_spec(k)
            == set.theme_layout(k),
        set.local_layout(k) is None && set.theme_layout(k) is None ==> set.resolve_spec(k)
            == set.builtin_layout(k),
{
}

/// Among the deck's own layout files, an `.html` file wins over a `.js` file
/// of the same name, whatever order they are read in: the layout is the
/// template of the last `.html` file with that name.
pub proof fn law_html_beats_js(
    fs: Seq<(Seq<char>, Seq<char>, Seq<char>)>,
    base: Option<LayoutView>,
    k: Seq<char>,
    j: int,
)
    requires
        0 <= j < fs.len(),
        fs[j].0 == k,
        fs[j].1 == html_word(),
        forall|m: int| j < m < fs.len() ==> !(#[trigger] fs[m].0 == k && fs[m].1 == html_word()),
    ensures
        local_after(fs, base, k) == Some(template_layout(k, fs[j].2)),
    decreases fs.len(),
{
    if j < fs.len() - 1 {
        let d = fs.drop_last();
        assert forall|m: int| j < m < d.len() implies !(#[trigger] d[m].0 == k && d[m].1 == html_word()) by {
            assert(d[m] == fs[m]);
        }
        law_html_beats_js(d, base, k, j);
        assert(!(fs.last().0 == k && fs.last().1 == html_word())) by {
            assert(fs.last() == fs[fs.len() - 1]);
        }
        assert(html_word() != js_word()) by {
            assert(html_word().len() != js_word().len());
        }
    }
}

/// Adding a deck-local layout `n` makes `n` resolve to it, whatever theme or
/// built-in layout has that name, and leaves every other name as it was.
pub proof fn law_local_layout_overrides(before: LayoutSet, after: LayoutSet, n: Seq<char>, l: LayoutView)
    requires
        after.local_layout(n) == Some(l),
        forall|k: Seq<char>| k != n ==> #[trigger] after.local_layout(k) == before.local_layout(k),
        forall|k: Seq<char>| #[trigger] after.theme_layout(k) == before.theme_layout(k),
        forall|k: Seq<char>| #[trigger] after.builtin_layout(k) == before.builtin_layout(k),
    ensures
        after.resolve_spec(n) == Some(l),
        forall|k: Seq<char>| k != n ==> #[trigger] after.resolve_spec(k) == before.resolve_spec(k),
{
    assert forall|k: Seq<char>| k != n implies #[trigger] after.resolve_spec(k) == before.resolve_spec(k) by {
        assert(after.local_layout(k) == before.local_layout(k));
        assert(after.theme_layout(k) == before.theme_layout(k));
        assert(after.builtin_layout(k) == before.builtin_layout(k));
    }
}

/// Loading the deck's layout files leaves a name none of them has as it was.
pub proof fn law_load_local_keeps_other_names(
    fs: Seq<(Seq<char>, Seq<char>, Seq<char>)>,
    base: Option<LayoutView>,
    k: Seq<char>,
)
    requires
        forall|j: int| 0 <= j < fs.len() ==> (#[trigger] fs[j]).0 != k,
    ensures
        local_after(fs, base, k) == base,
    decreases fs.len(),
{
    if fs.len() > 0 {
        let d = fs.drop_last();
        assert forall|j: int| 0 <= j < d.len() implies (#[trigger] d[j]).0 != k by {
            assert(d[j] == fs[j]);
        }
        law_load_local_keeps_other_names(d, base, k);
        assert(fs.last() == fs[fs.len() - 1]);
    }
}

/// The footer of the chrome does not depend on the watermark: the chrome
/// without a watermark is a suffix of the chrome with any watermark, and a
/// non-empty footer is written, in its own `ms-footer-logo` div, right
/// before the page number.
pub proof fn law_chrome_footer(wm: Seq<char>, footer: Seq<char>, index: nat)
    ensures
        has_suffix(chrome_html(true, wm, footer, index), chrome_html(true, seq![], footer, index)),
        footer.len() > 0 ==> has_suffix(
            chrome_html(true, wm, footer, index),
            "<div class=\"ms-footer-logo\">"@ + footer + "</div><div class=\"ms-page-number\">"@
                + crate::text::decimal(index) + "</div>"@,
        ),
{
    let c = chrome_html(true, wm, footer, index);
    let c0 = chrome_html(true, seq![], footer, index);
    let w = if wm.len() > 0 {
        "<div class=\"ms-watermark\">"@ + wm + "</div>"@
    } else {
        Seq::<char>::empty()
    };
    assert(c0 =~= (if footer.len() > 0 {
        "<div class=\"ms-footer-logo\">"@ + footer + "</div>"@
    } else {
        Seq::<char>::empty()
    }) + "<div class=\"ms-page-number\">"@ + crate::text::decimal(index) + "</div>"@);
    assert(c =~= w + c0);
    assert(c.subrange(c.len() - c0.len(), c.len() as int) =~= c0);
    if footer.len() > 0 {
        let t = "<div class=\"ms-footer-logo\">"@ + footer + "</div><div class=\"ms-page-number\">"@
            + crate::text::decimal(index) + "</div>"@;
        reveal_strlit("</div><div class=\"ms-page-number\">");
        reveal_strlit("</div>");
        reveal_strlit("<div class=\"ms-page-number\">");
        assert("</div><div class=\"ms-page-number\">"@ =~= "</div>"@ + "<div class=\"ms-page-number\">"@);
        assert(c0 =~= t);
        assert(c.subrange(c.len() - t.len(), c.len() as int) =~= t);
    }
}

/// The HTML of a slide starts with its container's opening tag and then the
/// chrome.
proof fn lemma_slide_starts_with_chrome(
    layout_name: Seq<char>,
    attrs: Seq<(Seq<char>, Seq<char>)>,
    slots: Seq<(Seq<char>, Seq<char>)>,
    body: Seq<char>,
    index: nat,
    total: nat,
    layouts: LayoutSet,
)
    ensures
        ({
            let lay = slide_layout(layouts, layout_name);
            let show = match lay {
                Some(l) => l.chrome,
                None => true,
            };
            let class = match lay {
                Some(l) => l.name,
                None => "slide-default"@,
            };
            let head = container_open(class, index) + chrome_html(
                show,
                first_attr(attrs, "watermark"@),
                first_attr(attrs, "footer"@),
                index,
            );
            let out = slide_html(layout_name, attrs, slots, body, index, total, layouts).0;
            head.len() <= out.len() && out.subrange(0, head.len() as int) == head
        }),
{
    reveal(slide_html);
    let lay = slide_layout(layouts, layout_name);
    let show = match lay {
        Some(l) => l.chrome,
        None => true,
    };
    let class = match lay {
        Some(l) => l.name,
        None => "slide-default"@,
    };
    let head = container_open(class, index) + chrome_html(
        show,
        first_attr(attrs, "watermark"@),
        first_attr(attrs, "footer"@),
        index,
    );
    let out = slide_html(layout_name, attrs, slots, body, index, total, layouts).0;
    let tail = out.subrange(head.len() as int, out.len() as int);
    match lay {
        Some(l) => {
            if l.is_template {
                let x = crate::template::render_spec(
                    l.text,
                    slide_look(attrs, slots, body, index, total),
                ) + "</div>"@;
                assert(out == head + x);
            } else {
                let x = seq!['<'] + layout_name + script_attrs(attrs) + " slide-index=\""@
                    + crate::text::decimal(index) + "\" total-slides=\""@ + crate::text::decimal(
                    total,
                ) + "\">"@ + body + "</"@ + layout_name + seq!['>'] + "</div>"@;
                assert(out =~= head + x);
            }
        },
        None => {
            assert(out =~= head + (body + "</div>"@));
        },
    }
    assert(out.subrange(0, head.len() as int) =~= head);
}

/// A slide whose layout shows chrome carries its footer: when the slide's
/// `footer` attribute is non-empty, its HTML holds
/// `<div class="ms-footer-logo">footer</div>`, whatever the watermark.
pub proof fn law_footer_in_slide(
    layout_name: Seq<char>,
    attrs: Seq<(Seq<char>, Seq<char>)>,
    slots: Seq<(Seq<char>, Seq<char>)>,
    body: Seq<char>,
    index: nat,
    total: nat,
    layouts: LayoutSet,
)
    requires
        match slide_layout(layouts, layout_name) {
            Some(l) => l.chrome,
            None => true,
        },
        first_attr(attrs, "footer"@).len() > 0,
    ensures
        contains(
            slide_html(layout_name, attrs, slots, body, index, total, layouts).0,
            "<div class=\"ms-footer-logo\">"@ + first_attr(attrs, "footer"@) + "</div>"@,
        ),
{
    lemma_slide_starts_with_chrome(layout_name, attrs, slots, body, index, total, layouts);
    let f = first_attr(attrs, "footer"@);
    let wm = first_attr(attrs, "watermark"@);
    let fd = "<div class=\"ms-footer-logo\">"@ + f + "</div>"@;
    let w = if wm.len() > 0 {
        "<div class=\"ms-watermark\">"@ + wm + "</div>"@
    } else {
        Seq::<char>::empty()
    };
    let pg = "<div class=\"ms-page-number\">"@ + crate::text::decimal(index) + "</div>"@;
    let ch = chrome_html(true, wm, f, index);
    assert(ch =~= w + fd + pg);
    let lay = slide_layout(layouts, layout_name);
    let class = match lay {
        Some(l) => l.name,
        None => "slide-default"@,
    };
    let open = container_open(class, index);
    let out = slide_html(layout_name, attrs, slots, body, index, total, layouts).0;
    let k = (open + w).len() as int;
    assert(out.subrange(0, (open + ch).len() as int) == open + ch);
    assert(out.subrange(k, k + fd.len()) =~= (open + ch).subrange(k, k + fd.len()));
    assert((open + ch).subrange(k, k + fd.len()) =~= fd);
    assert(occurs_at(out, fd, k));
}

/// Theme files are told apart by their first characters: a file whose text,
/// after leading whitespace, starts with a `---` frontmatter fence, a `<` or
/// `{{` is a template layout; any other file is a script layout.
pub proof fn law_theme_file_kind(name: Seq<char>, source: Seq<char>)
    ensures
        has_prefix(trim_start(source), "---"@) ==> theme_layout(name, source) == template_layout(
            name,
            source,
        ),
        has_prefix(trim_start(source), "<"@) ==> theme_layout(name, source) == template_layout(
            name,
            source,
        ),
        has_prefix(trim_start(source), "{{"@) ==> theme_layout(name, source) == template_layout(
            name,
            source,
        ),
        !has_prefix(trim_start(source), "---"@) && !has_prefix(trim_start(source), "<"@)
            && !has_prefix(trim_start(source), "{{"@) ==> theme_layout(name, source)
            == script_layout(name, source),
{
    reveal_strlit("---");
    reveal_strlit("<");
    reveal_strlit("{{");
    assert("---"@ =~= dashes());
    assert("<"@ =~= seq!['<']);
    assert("{{"@ =~= seq!['{', '{']);
}

/// A slide whose layout is unknown is rendered with `slide-default`.
pub proof fn law_unknown_layout_falls_back(layouts: LayoutSet, name: Seq<char>)
    requires
        layouts.resolve_spec(name) is None,
    ensures
        slide_layout(layouts, name) == layouts.resolve_spec("slide-default"@),
{
}

/// A template layout without chrome adds no watermark, footer or page
/// number: the slide is its container around the filled template.
pub proof fn law_no_chrome_no_decoration(
    layout_name: Seq<char>,
    attrs: Seq<(Seq<char>, Seq<char>)>,
    slots: Seq<(Seq<char>, Seq<char>)>,
    body: Seq<char>,
    index: nat,
    total: nat,
    layouts: LayoutSet,
    l: LayoutView,
)
    requires
        slide_layout(layouts, layout_name) == Some(l),
        l.is_template,
        !l.chrome,
    ensures
        slide_html(layout_name, attrs, slots, body, index, total, layouts) == (
            container_open(l.name, index) + crate::template::render_spec(
                l.text,
                slide_look(attrs, slots, body, index, total),
            ) + "</div>"@,
            None::<Seq<char>>,
        ),
{
    reveal(slide_html);
    assert(chrome_html(false, first_attr(attrs, "watermark"@), first_attr(attrs, "footer"@), index)
        =~= Seq::<char>::empty());
}

/// A template without frontmatter keeps the chrome; `chrome: false` in its
/// frontmatter removes it.
pub proof fn law_chrome_default(s: Seq<char>)
    ensures
        fm_split(s) is None ==> template_chrome(s),
        fm_value(s, chrome_key()) == Some(false_word()) ==> !template_chrome(s),
{
}

} // verus!
