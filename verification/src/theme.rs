//! Themes: how a theme is named, how its manifest and the registry index are
//! read, and how its layout scripts are made safe to inline.
//!
//! Fetching the files (with a local cache) is the caller's business; this
//! module decides what to fetch and how the fetched text is assembled.
use crate::text::{
    find, find_exec, find_from, has_prefix, is_ws, lead, lemma_find_none, lemma_find_some,
    lines, lines_exec, occurs_at, push_all, push_joined, push_range, slice, to_chars, to_string,
    trim_bounds, trim_start, views, join,
};
use vstd::prelude::*;

verus! {

// ---------------------------------------------------------------------------
// ThemeSpec
// ---------------------------------------------------------------------------

/// How a deck names its theme.
pub enum ThemeSpec {
    /// `theme: monocle-brochure`
    Name(String),
    /// `theme: https://example.com/theme.json`
    Url(String),
}

pub open spec fn http_prefix() -> Seq<char> {
    seq!['h', 't', 't', 'p', ':', '/', '/']
}

pub open spec fn https_prefix() -> Seq<char> {
    seq!['h', 't', 't', 'p', 's', ':', '/', '/']
}

/// `s` is an absolute http(s) URL.
pub open spec fn is_http_url(s: Seq<char>) -> bool {
    has_prefix(s, http_prefix()) || has_prefix(s, https_prefix())
}

impl ThemeSpec {
    /// A value starting with `http://` or `https://` is a URL, anything else
    /// a registry name.
    pub fn parse(s: &str) -> (r: Self)
        ensures
            match r {
                ThemeSpec::Url(u) => u@ == s@ && is_http_url(s@),
                ThemeSpec::Name(n) => n@ == s@ && !is_http_url(s@),
            },
    {
        let v = to_chars(s);
        if starts_with_lit(&v, &vec!['h', 't', 't', 'p', ':', '/', '/']) || starts_with_lit(
            &v,
            &vec!['h', 't', 't', 'p', 's', ':', '/', '/'],
        ) {
            ThemeSpec::Url(to_string(v.as_slice()))
        } else {
            ThemeSpec::Name(to_string(v.as_slice()))
        }
    }
}

/// Whether `v` starts with `p`.
pub fn starts_with_lit(v: &Vec<char>, p: &Vec<char>) -> (b: bool)
    ensures
        b == has_prefix(v@, p@),
{
    let r = crate::text::starts_with_at(v.as_slice(), 0, v.len(), p.as_slice());
    assert(v@.subrange(0, v@.len() as int) =~= v@);
    r
}

// ---------------------------------------------------------------------------
// Wrapping layout scripts
// ---------------------------------------------------------------------------

pub open spec fn iife_open() -> Seq<char> {
    seq!['(', '(', ')', ' ', '=', '>', ' ', '{', '\n']
}

pub open spec fn iife_close() -> Seq<char> {
    seq!['\n', '}', ')', '(', ')', ';', '\n']
}

/// Wrap a layout JS file in an IIFE so class declarations don't leak into the
/// surrounding module scope (preventing redeclaration errors when multiple
/// sources define a layout with the same class name).
pub fn wrap_in_iife(js: &str) -> (r: String)
    ensures
        r@ == iife_open() + js@ + iife_close(),
{
    let mut out: Vec<char> = Vec::new();
    wrap_in_iife_chars(to_chars(js).as_slice(), &mut out);
    to_string(out.as_slice())
}

/// Appends `js` wrapped in an IIFE to `out`.
pub fn wrap_in_iife_chars(js: &[char], out: &mut Vec<char>)
    ensures
        final(out)@ == old(out)@ + iife_open() + js@ + iife_close(),
{
    let open: Vec<char> = vec!['(', '(', ')', ' ', '=', '>', ' ', '{', '\n'];
    let close: Vec<char> = vec!['\n', '}', ')', '(', ')', ';', '\n'];
    assert(open@ =~= iife_open());
    assert(close@ =~= iife_close());
    push_all(out, open.as_slice());
    push_all(out, js);
    push_all(out, close.as_slice());
}

/// `customElements.define(`
pub open spec fn define_needle() -> Seq<char> {
    seq![
        'c', 'u', 's', 't', 'o', 'm', 'E', 'l', 'e', 'm', 'e', 'n', 't', 's', '.', 'd', 'e', 'f',
        'i', 'n', 'e', '(',
    ]
}

/// `(customElements.get(`
pub open spec fn get_open() -> Seq<char> {
    seq![
        '(', 'c', 'u', 's', 't', 'o', 'm', 'E', 'l', 'e', 'm', 'e', 'n', 't', 's', '.', 'g', 'e',
        't', '(',
    ]
}

/// `) || customElements.define(`
pub open spec fn or_define() -> Seq<char> {
    seq![')', ' ', '|', '|', ' '] + define_needle()
}

pub open spec fn is_quote(c: char) -> bool {
    c == '"' || c == '\'' || c == '`'
}

/// Scanning the arguments of a call (just after its `(`) from `i`, with
/// `depth` parentheses open, inside the string literal `in_str` (if any),
/// right after a backslash (`esc`): the position of the `)` closing the call.
pub open spec fn scan_close(a: Seq<char>, i: int, depth: int, in_str: Option<char>, esc: bool) -> Option<
    int,
>
    decreases a.len() - i,
{
    if i < 0 || i >= a.len() {
        None
    } else if esc {
        scan_close(a, i + 1, depth, in_str, false)
    } else {
        let c = a[i];
        match in_str {
            Some(q) => if c == '\\' {
                scan_close(a, i + 1, depth, in_str, true)
            } else if c == q {
                scan_close(a, i + 1, depth, None, false)
            } else {
                scan_close(a, i + 1, depth, in_str, false)
            },
            None => if is_quote(c) {
                scan_close(a, i + 1, depth, Some(c), false)
            } else if c == '(' {
                scan_close(a, i + 1, depth + 1, None, false)
            } else if c == ')' {
                if depth - 1 == 0 {
                    Some(i)
                } else {
                    scan_close(a, i + 1, depth - 1, None, false)
                }
            } else {
                scan_close(a, i + 1, depth, None, false)
            },
        }
    }
}

/// Position of the `)` closing a call whose arguments start `a`, skipping
/// nested parentheses and string literals.
pub open spec fn call_close(a: Seq<char>) -> Option<int> {
    scan_close(a, 0, 1, None, false)
}

pub proof fn lemma_scan_close_bounds(a: Seq<char>, i: int, depth: int, in_str: Option<char>, esc: bool)
    ensures
        scan_close(a, i, depth, in_str, esc) matches Some(k) ==> 0 <= i <= k < a.len(),
    decreases a.len() - i,
{
    if 0 <= i < a.len() {
        lemma_scan_close_bounds(a, i + 1, depth, in_str, false);
        lemma_scan_close_bounds(a, i + 1, depth, in_str, true);
        lemma_scan_close_bounds(a, i + 1, depth, None, false);
        lemma_scan_close_bounds(a, i + 1, depth + 1, None, false);
        lemma_scan_close_bounds(a, i + 1, depth - 1, None, false);
        lemma_scan_close_bounds(a, i + 1, depth, Some(a[i]), false);
    }
}

/// The text that replaces `customElements.define(<inner>)`: guarded by
/// `customElements.get(<name>)` when the first argument is a quoted name,
/// unchanged otherwise.
pub open spec fn guarded_call(inner: Seq<char>) -> Seq<char> {
    let t = trim_start(inner);
    if t.len() > 0 && is_quote(t[0]) {
        let q = t[0];
        let rest = t.drop_first();
        match find(rest, seq![q]) {
            Some(e) => get_open() + seq![q] + rest.subrange(0, e) + seq![q] + or_define() + inner
                + seq![')', ')'],
            None => define_needle() + inner + seq![')'],
        }
    } else {
        define_needle() + inner + seq![')']
    }
}

/// `js` with every `customElements.define(name, ...)` call made a no-op when
/// `name` is already registered.
pub open spec fn guard_spec(js: Seq<char>) -> Seq<char>
    decreases js.len(),
{
    match find(js, define_needle()) {
        None => js,
        Some(idx) => {
            proof {
                lemma_find_some(js, define_needle(), 0);
            }
            let after = js.subrange(idx + 22, js.len() as int);
            match call_close(after) {
                None => js,
                Some(ci) => {
                    proof {
                        lemma_scan_close_bounds(after, 0, 1, None, false);
                    }
                    js.subrange(0, idx) + guarded_call(after.subrange(0, ci)) + guard_spec(
                        after.subrange(ci + 1, after.len() as int),
                    )
                },
            }
        },
    }
}

/// Finds the `)` closing a call whose arguments start at `from` in `js`.
fn find_call_close(js: &[char], from: usize) -> (r: Option<usize>)
    requires
        1 <= from <= js@.len(),
    ensures
        match r {
            Some(k) => from <= k < js@.len() && call_close(
                js@.subrange(from as int, js@.len() as int),
            ) == Some(k - from),
            None => call_close(js@.subrange(from as int, js@.len() as int)) is None,
        },
{
    let ghost a = js@.subrange(from as int, js@.len() as int);
    let n = js.len();
    let mut depth: usize = 1;
    let mut in_str: Option<char> = None;
    let mut escape = false;
    let mut i = from;
    while i < n
        invariant
            n == js@.len(),
            a == js@.subrange(from as int, n as int),
            1 <= from <= i <= n,
            1 <= depth <= i - from + 1,
            call_close(a) == scan_close(a, i - from, depth as int, in_str, escape),
        decreases n - i,
    {
        let c = js[i];
        assert(a[i - from] == c);
        if escape {
            escape = false;
        } else {
            match in_str {
                Some(q) => {
                    if c == '\\' {
                        escape = true;
                    } else if c == q {
                        in_str = None;
                    }
                },
                None => {
                    if c == '"' || c == '\'' || c == '`' {
                        in_str = Some(c);
                    } else if c == '(' {
                        depth = depth + 1;
                    } else if c == ')' {
                        depth = depth - 1;
                        if depth == 0 {
                            return Some(i);
                        }
                    }
                },
            }
        }
        i = i + 1;
    }
    None
}

/// Appends `guarded_call(js[lo..hi])` to `out`.
fn push_guarded_call(js: &[char], lo: usize, hi: usize, out: &mut Vec<char>)
    requires
        lo <= hi <= js@.len(),
    ensures
        final(out)@ == old(out)@ + guarded_call(js@.subrange(lo as int, hi as int)),
{
    let ghost inner = js@.subrange(lo as int, hi as int);
    let needle: Vec<char> = vec![
        'c', 'u', 's', 't', 'o', 'm', 'E', 'l', 'e', 'm', 'e', 'n', 't', 's', '.', 'd', 'e', 'f',
        'i', 'n', 'e', '(',
    ];
    assert(needle@ =~= define_needle());
    let (t0, _) = trim_bounds(js, lo, hi);
    let ghost t = js@.subrange(t0 as int, hi as int);
    assert(t == trim_start(inner));
    if t0 < hi && (js[t0] == '"' || js[t0] == '\'' || js[t0] == '`') {
        let q = js[t0];
        assert(t[0] == q);
        let qv: Vec<char> = vec![q];
        assert(qv@ =~= seq![q]);
        let ghost rest = t.drop_first();
        assert(rest =~= js@.subrange(t0 + 1, hi as int));
        let name_part = slice(js, t0 + 1, hi);
        assert(name_part@ == rest);
        match find_exec(name_part.as_slice(), qv.as_slice(), 0) {
            Some(e) => {
                let get: Vec<char> = vec![
                    '(', 'c', 'u', 's', 't', 'o', 'm', 'E', 'l', 'e', 'm', 'e', 'n', 't', 's', '.',
                    'g', 'e', 't', '(',
                ];
                assert(get@ =~= get_open());
                let orr: Vec<char> = vec![')', ' ', '|', '|', ' '];
                let ghost o0 = out@;
                push_all(out, get.as_slice());
                out.push(q);
                push_range(out, name_part.as_slice(), 0, e);
                out.push(q);
                push_all(out, orr.as_slice());
                push_all(out, needle.as_slice());
                push_range(out, js, lo, hi);
                out.push(')');
                out.push(')');
                assert(out@ =~= o0 + guarded_call(inner));
            },
            None => {
                let ghost o0 = out@;
                push_all(out, needle.as_slice());
                push_range(out, js, lo, hi);
                out.push(')');
                assert(out@ =~= o0 + guarded_call(inner));
            },
        }
    } else {
        let ghost o0 = out@;
        push_all(out, needle.as_slice());
        push_range(out, js, lo, hi);
        out.push(')');
        assert(out@ =~= o0 + guarded_call(inner));
    }
}

/// Wrap `customElements.define(name, ...)` calls so they no-op when the
/// element is already registered. Lets users override theme-provided
/// layouts by defining their own first.
pub fn guard_custom_elements_define(js: &str) -> (r: String)
    ensures
        r@ == guard_spec(js@),
{
    let v = to_chars(js);
    let mut out: Vec<char> = Vec::new();
    guard_chars(v.as_slice(), &mut out);
    to_string(out.as_slice())
}

proof fn lemma_guard_found(js: Seq<char>, pos: int, idx: int, ci: int)
    requires
        0 <= pos <= js.len(),
        find_from(js, define_needle(), pos) == Some(idx),
        idx + 22 <= ci < js.len(),
        call_close(js.subrange(idx + 22, js.len() as int)) == Some(ci - idx - 22),
    ensures
        guard_spec(js.subrange(pos, js.len() as int)) == js.subrange(pos, idx) + guarded_call(
            js.subrange(idx + 22, ci),
        ) + guard_spec(js.subrange(ci + 1, js.len() as int)),
{
    let rest = js.subrange(pos, js.len() as int);
    crate::text::lemma_find_shift(js, define_needle(), pos);
    lemma_find_some(js, define_needle(), pos);
    let after = rest.subrange(idx - pos + 22, rest.len() as int);
    assert(after =~= js.subrange(idx + 22, js.len() as int));
    assert(rest.subrange(0, idx - pos) =~= js.subrange(pos, idx));
    assert(after.subrange(0, ci - idx - 22) =~= js.subrange(idx + 22, ci));
    assert(after.subrange(ci - idx - 22 + 1, after.len() as int) =~= js.subrange(
        ci + 1,
        js.len() as int,
    ));
}

proof fn lemma_guard_unclosed(js: Seq<char>, pos: int, idx: int)
    requires
        0 <= pos <= js.len(),
        find_from(js, define_needle(), pos) == Some(idx),
        idx + 22 <= js.len(),
        call_close(js.subrange(idx + 22, js.len() as int)) is None,
    ensures
        guard_spec(js.subrange(pos, js.len() as int)) == js.subrange(pos, js.len() as int),
{
    let rest = js.subrange(pos, js.len() as int);
    crate::text::lemma_find_shift(js, define_needle(), pos);
    let after = rest.subrange(idx - pos + 22, rest.len() as int);
    assert(after =~= js.subrange(idx + 22, js.len() as int));
}

proof fn lemma_guard_none(js: Seq<char>, pos: int)
    requires
        0 <= pos <= js.len(),
        find_from(js, define_needle(), pos) is None,
    ensures
        guard_spec(js.subrange(pos, js.len() as int)) == js.subrange(pos, js.len() as int),
{
    crate::text::lemma_find_shift(js, define_needle(), pos);
}

/// A script that never calls `customElements.define(` is left unchanged.
pub proof fn law_guard_keeps_scripts_without_define(js: Seq<char>)
    requires
        !crate::text::contains(js, define_needle()),
    ensures
        guard_spec(js) == js,
{
    crate::text::lemma_none_found(js, define_needle(), 0);
}

/// A pattern whose last character occurs nowhere else in it is found first
/// right after a prefix that does not hold it.
proof fn lemma_first_after_prefix(p: Seq<char>, nd: Seq<char>, tail: Seq<char>)
    requires
        nd.len() > 0,
        forall|j: int| 0 <= j < nd.len() - 1 ==> #[trigger] nd[j] != nd[nd.len() - 1],
        !crate::text::contains(p, nd),
    ensures
        find(p + nd + tail, nd) == Some(p.len() as int),
{
    let s = p + nd + tail;
    let m = p.len() as int;
    let l = nd.len() as int;
    assert(s.subrange(m, m + l) =~= nd);
    assert forall|k: int| 0 <= k < m implies !occurs_at(s, nd, k) by {
        if occurs_at(s, nd, k) {
            if k + l <= m {
                assert(p.subrange(k, k + l) =~= s.subrange(k, k + l));
                assert(occurs_at(p, nd, k));
            } else {
                assert(s.subrange(k, k + l)[l - 1] == s[k + l - 1]);
                assert(s[k + l - 1] == nd[k + l - 1 - m]);
            }
        }
    }
    crate::text::lemma_first_unique(s, nd, 0, m);
}

proof fn lemma_needle_shape()
    ensures
        define_needle().len() == 22,
        forall|j: int| 0 <= j < 21 ==> #[trigger] define_needle()[j] != define_needle()[21],
{
}

/// Guarding decomposes at the first define call: the text before it is kept,
/// the call is replaced by its guarded form, and the rest is guarded in turn.
/// `a` is the call's arguments, up to the `)` that closes the call.
pub proof fn law_guard_decomposition(p: Seq<char>, a: Seq<char>, rest: Seq<char>)
    requires
        !crate::text::contains(p, define_needle()),
        call_close(a + seq![')'] + rest) == Some(a.len() as int),
    ensures
        guard_spec(p + define_needle() + a + seq![')'] + rest) == p + guarded_call(a) + guard_spec(
            rest,
        ),
{
    let tail = a + seq![')'] + rest;
    let js = p + define_needle() + a + seq![')'] + rest;
    assert(js =~= p + define_needle() + tail);
    lemma_needle_shape();
    lemma_first_after_prefix(p, define_needle(), tail);
    let m = p.len() as int;
    let after = js.subrange(m + 22, js.len() as int);
    assert(after =~= tail);
    assert(js.subrange(0, m) =~= p);
    assert(after.subrange(0, a.len() as int) =~= a);
    assert(after.subrange(a.len() as int + 1, after.len() as int) =~= rest);
}

proof fn lemma_find_closing_quote(name: Seq<char>, q: char, t: Seq<char>)
    requires
        forall|j: int| 0 <= j < name.len() ==> #[trigger] name[j] != q,
    ensures
        find(name + seq![q] + t, seq![q]) == Some(name.len() as int),
{
    let r = name + seq![q] + t;
    assert forall|k: int| 0 <= k < name.len() implies !occurs_at(r, seq![q], k) by {
        if occurs_at(r, seq![q], k) {
            assert(r.subrange(k, k + 1)[0] == r[k]);
            assert(r[k] == name[k]);
        }
    }
    assert(r.subrange(name.len() as int, name.len() as int + 1) =~= seq![q]);
    crate::text::lemma_first_unique(r, seq![q], 0, name.len() as int);
}

/// A define call whose first argument is a quoted name is guarded by
/// `customElements.get` of that name.
pub proof fn law_guarded_call_quoted(a: Seq<char>, q: char, name: Seq<char>, t: Seq<char>)
    requires
        is_quote(q),
        forall|j: int| 0 <= j < name.len() ==> #[trigger] name[j] != q,
        trim_start(a) == seq![q] + name + seq![q] + t,
    ensures
        guarded_call(a) == get_open() + seq![q] + name + seq![q] + or_define() + a + seq![')', ')'],
{
    let ts = trim_start(a);
    let r = name + seq![q] + t;
    assert(ts =~= seq![q] + r);
    assert(ts[0] == q);
    assert(ts.drop_first() =~= r);
    lemma_find_closing_quote(name, q, t);
    assert(r.subrange(0, name.len() as int) =~= name);
}

/// Appends `guard_spec(js)` to `out`.
pub fn guard_chars(js: &[char], out: &mut Vec<char>)
    ensures
        final(out)@ == old(out)@ + guard_spec(js@),
{
    let needle: Vec<char> = vec![
        'c', 'u', 's', 't', 'o', 'm', 'E', 'l', 'e', 'm', 'e', 'n', 't', 's', '.', 'd', 'e', 'f',
        'i', 'n', 'e', '(',
    ];
    assert(needle@ =~= define_needle());
    let n = js.len();
    let ghost o0 = out@;
    let mut pos: usize = 0;
    assert(js@.subrange(0, n as int) =~= js@);
    loop
        invariant
            n == js@.len(),
            needle@ == define_needle(),
            0 <= pos <= n,
            o0 == old(out)@,
            o0 + guard_spec(js@) == out@ + guard_spec(js@.subrange(pos as int, n as int)),
        decreases n - pos,
    {
        match find_exec(js, needle.as_slice(), pos) {
            None => {
                proof {
                    lemma_guard_none(js@, pos as int);
                }
                push_range(out, js, pos, n);
                return;
            },
            Some(idx) => {
                let from = idx + 22;
                match find_call_close(js, from) {
                    None => {
                        proof {
                            lemma_guard_unclosed(js@, pos as int, idx as int);
                        }
                        push_range(out, js, pos, n);
                        return;
                    },
                    Some(ci) => {
                        proof {
                            lemma_guard_found(js@, pos as int, idx as int, ci as int);
                        }
                        let ghost here = out@;
                        push_range(out, js, pos, idx);
                        push_guarded_call(js, from, ci, out);
                        assert(here + guard_spec(js@.subrange(pos as int, n as int)) =~= out@
                            + guard_spec(js@.subrange(ci + 1, n as int)));
                        pos = ci + 1;
                    },
                }
            },
        }
    }
}

// ---------------------------------------------------------------------------
// Reading manifest JSON
// ---------------------------------------------------------------------------

/// `"key"`
pub open spec fn quoted(key: Seq<char>) -> Seq<char> {
    seq!['"'] + key + seq!['"']
}

pub open spec fn prepend(acc: Seq<char>, o: Option<Seq<char>>) -> Option<Seq<char>> {
    match o {
        Some(x) => Some(acc + x),
        None => None,
    }
}

/// The text of a JSON-ish string whose opening quote was just consumed: up
/// to the first unescaped `"`, with each backslash dropped and the character
/// after it kept. No closing quote means no value.
pub open spec fn string_body(r: Seq<char>) -> Option<Seq<char>>
    decreases r.len(),
{
    if r.len() == 0 {
        None
    } else if r[0] == '\\' {
        if r.len() >= 2 {
            prepend(seq![r[1]], string_body(r.subrange(2, r.len() as int)))
        } else {
            None
        }
    } else if r[0] == '"' {
        Some(seq![])
    } else {
        prepend(seq![r[0]], string_body(r.subrange(1, r.len() as int)))
    }
}

/// What follows the first `:` after `"key"` in `json`, with leading
/// whitespace removed.
pub open spec fn after_key(json: Seq<char>, key: Seq<char>) -> Option<Seq<char>> {
    match find(json, quoted(key)) {
        None => None,
        Some(st) => {
            let after = json.subrange(st + key.len() + 2, json.len() as int);
            match find(after, seq![':']) {
                None => None,
                Some(c) => Some(trim_start(after.subrange(c + 1, after.len() as int))),
            }
        },
    }
}

/// The string value of the first `"key"` in `json`.
pub open spec fn string_field(json: Seq<char>, key: Seq<char>) -> Option<Seq<char>> {
    match after_key(json, key) {
        None => None,
        Some(rest) => if has_prefix(rest, seq!['"']) {
            string_body(rest.subrange(1, rest.len() as int))
        } else {
            None
        },
    }
}

/// The quoted items of an array's inside, scanning from `i`.
pub open spec fn array_items(s: Seq<char>, i: int, in_str: bool, esc: bool, buf: Seq<char>) -> Seq<
    Seq<char>,
>
    decreases s.len() - i,
{
    if i < 0 || i >= s.len() {
        seq![]
    } else {
        let c = s[i];
        if esc {
            array_items(s, i + 1, in_str, false, buf.push(c))
        } else if in_str {
            if c == '\\' {
                array_items(s, i + 1, true, true, buf)
            } else if c == '"' {
                seq![buf] + array_items(s, i + 1, false, false, seq![])
            } else {
                array_items(s, i + 1, true, false, buf.push(c))
            }
        } else if c == '"' {
            array_items(s, i + 1, true, false, buf)
        } else {
            array_items(s, i + 1, false, false, buf)
        }
    }
}

/// The string items of the array value of the first `"key"` in `json`; the
/// array ends at the first `]`. Anything that does not fit gives no items.
pub open spec fn string_array(json: Seq<char>, key: Seq<char>) -> Seq<Seq<char>> {
    match after_key(json, key) {
        None => seq![],
        Some(rest) => if has_prefix(rest, seq!['[']) {
            match find(rest, seq![']']) {
                None => seq![],
                Some(end) => array_items(rest.subrange(1, end), 0, false, false, seq![]),
            }
        } else {
            seq![]
        },
    }
}

/// Position in `json` just after the first `:` that follows `"key"`, then
/// past leading whitespace.
fn after_key_exec(json: &[char], key: &[char]) -> (r: Option<usize>)
    ensures
        match r {
            Some(p) => p <= json@.len() && after_key(json@, key@) == Some(
                json@.subrange(p as int, json@.len() as int),
            ),
            None => after_key(json@, key@) is None,
        },
{
    let mut pat: Vec<char> = Vec::new();
    pat.push('"');
    push_all(&mut pat, key);
    pat.push('"');
    assert(pat@ =~= quoted(key@));
    let n = json.len();
    match find_exec(json, pat.as_slice(), 0) {
        None => None,
        Some(st) => {
            let a = st + pat.len();
            let colon: Vec<char> = vec![':'];
            assert(colon@ =~= seq![':']);
            proof {
                crate::text::lemma_find_shift(json@, colon@, a as int);
            }
            match find_exec(json, colon.as_slice(), a) {
                None => None,
                Some(c) => {
                    let ghost after = json@.subrange(a as int, n as int);
                    assert(after.subrange(c - a + 1, after.len() as int) =~= json@.subrange(
                        c + 1,
                        n as int,
                    ));
                    let (t, _) = trim_bounds(json, c + 1, n);
                    Some(t)
                },
            }
        },
    }
}

/// Reads `string_body(v[i..])`.
fn string_body_exec(v: &[char], i: usize) -> (r: Option<Vec<char>>)
    requires
        i <= v@.len(),
    ensures
        match r {
            Some(x) => string_body(v@.subrange(i as int, v@.len() as int)) == Some(x@),
            None => string_body(v@.subrange(i as int, v@.len() as int)) is None,
        },
{
    let n = v.len();
    let mut out: Vec<char> = Vec::new();
    let mut k = i;
    while k < n
        invariant
            n == v@.len(),
            i <= k <= n,
            string_body(v@.subrange(i as int, n as int)) == prepend(
                out@,
                string_body(v@.subrange(k as int, n as int)),
            ),
        decreases n - k,
    {
        let ghost r = v@.subrange(k as int, n as int);
        let ghost acc = out@;
        let c = v[k];
        assert(r[0] == c);
        if c == '\\' {
            if k + 1 < n {
                out.push(v[k + 1]);
                proof {
                    assert(r[1] == v@[k + 1]);
                    assert(r.subrange(2, r.len() as int) =~= v@.subrange(k + 2, n as int));
                    match string_body(v@.subrange(k + 2, n as int)) {
                        Some(x) => assert(acc + (seq![r[1]] + x) =~= out@ + x),
                        None => {},
                    }
                }
                k = k + 2;
            } else {
                return None;
            }
        } else if c == '"' {
            assert(out@ + seq![] =~= out@);
            return Some(out);
        } else {
            out.push(c);
            proof {
                assert(r.subrange(1, r.len() as int) =~= v@.subrange(k + 1, n as int));
                match string_body(v@.subrange(k + 1, n as int)) {
                    Some(x) => assert(acc + (seq![c] + x) =~= out@ + x),
                    None => {},
                }
            }
            k = k + 1;
        }
    }
    None
}

/// The string value of the first `"key"` in `json`.
pub fn extract_string_field(json: &[char], key: &[char]) -> (r: Option<Vec<char>>)
    ensures
        match r {
            Some(x) => string_field(json@, key@) == Some(x@),
            None => string_field(json@, key@) is None,
        },
{
    let n = json.len();
    match after_key_exec(json, key) {
        None => None,
        Some(p) => {
            if p < n && json[p] == '"' {
                proof {
                    let rest = json@.subrange(p as int, n as int);
                    assert(rest.subrange(0, 1) =~= seq!['"']);
                    assert(rest.subrange(1, rest.len() as int) =~= json@.subrange(p + 1, n as int));
                }
                string_body_exec(json, p + 1)
            } else {
                proof {
                    let rest = json@.subrange(p as int, n as int);
                    if has_prefix(rest, seq!['"']) {
                        assert(rest.subrange(0, 1)[0] == '"');
                    }
                }
                None
            }
        },
    }
}

/// The string items of the array value of the first `"key"` in `json`.
pub fn extract_string_array(json: &[char], key: &[char]) -> (r: Vec<Vec<char>>)
    ensures
        views(r@) == string_array(json@, key@),
{
    let n = json.len();
    let p = match after_key_exec(json, key) {
        None => {
            return Vec::new();
        },
        Some(p) => p,
    };
    let ghost rest = json@.subrange(p as int, n as int);
    if !(p < n && json[p] == '[') {
        proof {
            if has_prefix(rest, seq!['[']) {
                assert(rest.subrange(0, 1)[0] == '[');
            }
        }
        return Vec::new();
    }
    assert(rest.subrange(0, 1) =~= seq!['[']);
    let close: Vec<char> = vec![']'];
    assert(close@ =~= seq![']']);
    proof {
        crate::text::lemma_find_shift(json@, close@, p as int);
    }
    let end = match find_exec(json, close.as_slice(), p) {
        None => {
            return Vec::new();
        },
        Some(e) => e,
    };
    let ghost inside = rest.subrange(1, end - p);
    assert(inside =~= json@.subrange(p + 1, end as int));
    let mut items: Vec<Vec<char>> = Vec::new();
    let mut in_str = false;
    let mut esc = false;
    let mut buf: Vec<char> = Vec::new();
    let mut k = p + 1;
    while k < end
        invariant
            p + 1 <= k <= end <= n,
            n == json@.len(),
            inside == json@.subrange(p + 1, end as int),
            esc ==> in_str,
            string_array(json@, key@) == views(items@) + array_items(
                inside,
                k - (p + 1),
                in_str,
                esc,
                buf@,
            ),
        decreases end - k,
    {
        let c = json[k];
        assert(inside[k - (p + 1)] == c);
        let ghost before = views(items@);
        if esc {
            buf.push(c);
            esc = false;
        } else if in_str {
            if c == '\\' {
                esc = true;
            } else if c == '"' {
                let done = buf;
                buf = Vec::new();
                items.push(done);
                proof {
                    assert(views(items@) =~= before.push(done@));
                    assert(seq![done@] + array_items(inside, k + 1 - (p + 1), false, false, seq![])
                        == seq![done@] + array_items(inside, k + 1 - (p + 1), false, false, buf@));
                    assert(views(items@) + array_items(inside, k + 1 - (p + 1), false, false, buf@)
                        =~= before + (seq![done@] + array_items(
                        inside,
                        k + 1 - (p + 1),
                        false,
                        false,
                        seq![],
                    )));
                }
                in_str = false;
            } else {
                buf.push(c);
            }
        } else if c == '"' {
            in_str = true;
        }
        k = k + 1;
    }
    assert(array_items(inside, end - (p + 1), in_str, esc, buf@) =~= Seq::<Seq<char>>::empty());
    assert(string_array(json@, key@) =~= views(items@));
    items
}

// ---------------------------------------------------------------------------
// Layout scripts, registry and manifest
// ---------------------------------------------------------------------------

/// `import `
pub open spec fn import_kw() -> Seq<char> {
    seq!['i', 'm', 'p', 'o', 'r', 't', ' ']
}

/// A line that stays when imports are stripped.
pub open spec fn not_import(l: Seq<char>) -> bool {
    !has_prefix(trim_start(l), import_kw())
}

/// `js` without the lines that start (after indentation) with `import `.
pub open spec fn strip_imports_spec(js: Seq<char>) -> Seq<char> {
    join(lines(js).filter(|l: Seq<char>| not_import(l)), seq!['\n'])
}

/// Drops `import` lines from a layout script, which is inlined where module
/// imports cannot resolve.
pub fn strip_slidebase_import(js: &[char]) -> (r: Vec<char>)
    ensures
        r@ == strip_imports_spec(js@),
{
    let ls = lines_exec(js);
    let kw: Vec<char> = vec!['i', 'm', 'p', 'o', 'r', 't', ' '];
    assert(kw@ =~= import_kw());
    let ghost all = views(ls@);
    let ghost pred = |l: Seq<char>| not_import(l);
    let mut kept: Vec<Vec<char>> = Vec::new();
    let mut i: usize = 0;
    while i < ls.len()
        invariant
            0 <= i <= ls@.len(),
            all == views(ls@),
            kw@ == import_kw(),
            pred == (|l: Seq<char>| not_import(l)),
            views(kept@) == all.take(i as int).filter(pred),
        decreases ls@.len() - i,
    {
        let line = &ls[i];
        let (t, _) = trim_bounds(line.as_slice(), 0, line.len());
        assert(line@.subrange(0, line@.len() as int) =~= line@);
        let is_import = crate::text::starts_with_at(line.as_slice(), t, line.len(), kw.as_slice());
        let ghost before = views(kept@);
        if !is_import {
            kept.push(slice(line.as_slice(), 0, line.len()));
        }
        proof {
            reveal_with_fuel(Seq::<_>::filter, 1);
            assert(all.take(i + 1).drop_last() =~= all.take(i as int));
            assert(all.take(i + 1).last() == line@);
            assert(views(kept@) =~= all.take(i + 1).filter(pred));
        }
        i = i + 1;
    }
    assert(all.take(ls@.len() as int) =~= all);
    let nl: Vec<char> = vec!['\n'];
    assert(nl@ =~= seq!['\n']);
    let mut out: Vec<char> = Vec::new();
    push_joined(&mut out, &kept, 0, kept.len(), nl.as_slice());
    assert(views(kept@).subrange(0, kept@.len() as int) =~= views(kept@));
    assert(out@ =~= strip_imports_spec(js@));
    out
}

pub open spec fn is_ascii_alnum(c: char) -> bool {
    ('a' <= c && c <= 'z') || ('A' <= c && c <= 'Z') || ('0' <= c && c <= '9')
}

pub open spec fn cache_char(c: char) -> char {
    if is_ascii_alnum(c) {
        c
    } else {
        '_'
    }
}

/// `.cache`
pub open spec fn cache_ext() -> Seq<char> {
    seq!['.', 'c', 'a', 'c', 'h', 'e']
}

/// File name under which the text fetched from `url` is cached: every
/// character other than an ASCII letter or digit becomes `_`.
pub fn cache_file_name(url: &str) -> (r: String)
    ensures
        r@ == url@.map_values(|c: char| cache_char(c)) + cache_ext(),
{
    let v = to_chars(url);
    let mut out: Vec<char> = Vec::new();
    let mut i: usize = 0;
    while i < v.len()
        invariant
            0 <= i <= v@.len(),
            out@ == v@.take(i as int).map_values(|c: char| cache_char(c)),
        decreases v@.len() - i,
    {
        let c = v[i];
        if ('a' <= c && c <= 'z') || ('A' <= c && c <= 'Z') || ('0' <= c && c <= '9') {
            out.push(c);
        } else {
            out.push('_');
        }
        assert(v@.take(i + 1).map_values(|c: char| cache_char(c)) =~= v@.take(i as int).map_values(
            |c: char| cache_char(c),
        ).push(cache_char(c)));
        i = i + 1;
    }
    assert(v@.take(v@.len() as int) =~= v@);
    let ext: Vec<char> = vec!['.', 'c', 'a', 'c', 'h', 'e'];
    assert(ext@ =~= cache_ext());
    push_all(&mut out, ext.as_slice());
    to_string(out.as_slice())
}

/// `"themes"`
pub open spec fn themes_key() -> Seq<char> {
    quoted(seq!['t', 'h', 'e', 'm', 'e', 's'])
}

/// `url`
pub open spec fn url_key() -> Seq<char> {
    seq!['u', 'r', 'l']
}

/// Where the registry index says the manifest of theme `name` is: the `url`
/// field that follows the first `"name"` after the `"themes"` key.
pub open spec fn registry_url(index: Seq<char>, name: Seq<char>) -> Result<Seq<char>, Seq<char>> {
    match find(index, themes_key()) {
        None => Err("registry index has no \"themes\" field"@),
        Some(ts) => {
            let section = index.subrange(ts, index.len() as int);
            match find(section, quoted(name)) {
                None => Err("theme \""@ + name + "\" not found in registry"@),
                Some(es) => match string_field(
                    section.subrange(es, section.len() as int),
                    url_key(),
                ) {
                    Some(u) => Ok(u),
                    None => Err("theme \""@ + name + "\" has no url field in registry"@),
                },
            }
        },
    }
}

fn chars_of_result(r: Result<Vec<char>, Vec<char>>) -> (s: Result<String, String>)
    ensures
        match (r, s) {
            (Ok(a), Ok(b)) => a@ == b@,
            (Err(a), Err(b)) => a@ == b@,
            _ => false,
        },
{
    match r {
        Ok(a) => Ok(to_string(a.as_slice())),
        Err(a) => Err(to_string(a.as_slice())),
    }
}

/// Resolves a theme name to its manifest URL using the registry index text.
pub fn theme_url_from_index(index: &str, name: &str) -> (r: Result<String, String>)
    ensures
        match (r, registry_url(index@, name@)) {
            (Ok(a), Ok(b)) => a@ == b,
            (Err(a), Err(b)) => a@ == b,
            _ => false,
        },
{
    let v = to_chars(index);
    let nm = to_chars(name);
    let r = registry_url_chars(v.as_slice(), nm.as_slice());
    chars_of_result(r)
}

fn registry_url_chars(index: &[char], name: &[char]) -> (r: Result<Vec<char>, Vec<char>>)
    ensures
        match (r, registry_url(index@, name@)) {
            (Ok(a), Ok(b)) => a@ == b,
            (Err(a), Err(b)) => a@ == b,
            _ => false,
        },
{
    let key: Vec<char> = vec!['"', 't', 'h', 'e', 'm', 'e', 's', '"'];
    assert(key@ =~= themes_key());
    let n = index.len();
    let ts = match find_exec(index, key.as_slice(), 0) {
        None => {
            return Err(to_chars("registry index has no \"themes\" field"));
        },
        Some(ts) => ts,
    };
    let section = slice(index, ts, n);
    let mut pat: Vec<char> = Vec::new();
    pat.push('"');
    push_all(&mut pat, name);
    pat.push('"');
    assert(pat@ =~= quoted(name@));
    let es = match find_exec(section.as_slice(), pat.as_slice(), 0) {
        None => {
            let mut e = to_chars("theme \"");
            push_all(&mut e, name);
            push_all(&mut e, to_chars("\" not found in registry").as_slice());
            return Err(e);
        },
        Some(es) => es,
    };
    let entry = slice(section.as_slice(), es, section.len());
    let url: Vec<char> = vec!['u', 'r', 'l'];
    assert(url@ =~= url_key());
    match extract_string_field(entry.as_slice(), url.as_slice()) {
        Some(u) => Ok(u),
        None => {
            let mut e = to_chars("theme \"");
            push_all(&mut e, name);
            push_all(&mut e, to_chars("\" has no url field in registry").as_slice());
            Err(e)
        },
    }
}

/// `k` is the last position of `c` in `s`.
pub open spec fn is_last(s: Seq<char>, c: char, k: int) -> bool {
    &&& 0 <= k < s.len()
    &&& s[k] == c
    &&& forall|j: int| k < j < s.len() ==> s[j] != c
}

/// `s.rfind(c)`.
pub open spec fn rfind(s: Seq<char>, c: char) -> Option<int> {
    if exists|k: int| is_last(s, c, k) {
        Some(choose|k: int| is_last(s, c, k))
    } else {
        None
    }
}

/// Last position of `c` in `v`.
pub fn rfind_exec(v: &[char], c: char) -> (r: Option<usize>)
    ensures
        match r {
            Some(k) => rfind(v@, c) == Some(k as int) && is_last(v@, c, k as int),
            None => rfind(v@, c) is None && forall|j: int| 0 <= j < v@.len() ==> v@[j] != c,
        },
{
    let mut k = v.len();
    while k > 0
        invariant
            k <= v@.len(),
            forall|j: int| k <= j < v@.len() ==> v@[j] != c,
        decreases k,
    {
        if v[k - 1] == c {
            proof {
                let w = choose|w: int| is_last(v@, c, w);
                assert(is_last(v@, c, k - 1));
                if w != k - 1 {
                    assert(is_last(v@, c, w));
                }
            }
            return Some(k - 1);
        }
        k = k - 1;
    }
    None
}

/// The URL a theme file `rel` is fetched from, next to the manifest.
pub open spec fn manifest_base(manifest_url: Seq<char>) -> Seq<char> {
    match rfind(manifest_url, '/') {
        Some(k) => manifest_url.subrange(0, k),
        None => seq![],
    }
}

/// The name a layout file is known by: its file name without the extension.
pub open spec fn file_stem(rel: Seq<char>) -> Seq<char> {
    let base = match rfind(rel, '/') {
        Some(k) => rel.subrange(k + 1, rel.len() as int),
        None => rel,
    };
    match rfind(base, '.') {
        Some(d) => if d > 0 {
            base.subrange(0, d)
        } else {
            base
        },
        None => base,
    }
}

/// What a theme manifest (`theme.json`) asks for.
pub struct ThemeManifest {
    pub name: String,
    pub version: String,
    /// The manifest URL up to its last `/`: theme files are relative to it.
    pub base_url: String,
    /// Layout files, relative to `base_url`.
    pub layouts: Vec<String>,
    /// Style sheets, relative to `base_url`.
    pub styles: Vec<String>,
}

/// The character sequences held by a list of strings.
pub open spec fn string_views(v: Seq<String>) -> Seq<Seq<char>> {
    v.map_values(|s: String| s@)
}

/// The character vectors as strings.
pub fn to_strings(v: &Vec<Vec<char>>) -> (r: Vec<String>)
    ensures
        string_views(r@) == views(v@),
{
    let mut r: Vec<String> = Vec::new();
    let mut i: usize = 0;
    while i < v.len()
        invariant
            0 <= i <= v@.len(),
            string_views(r@) == views(v@).take(i as int),
        decreases v@.len() - i,
    {
        let s = to_string(v[i].as_slice());
        assert(s@ == views(v@)[i as int]);
        let ghost prev = r@;
        r.push(s);
        assert(r@ == prev.push(s));
        assert(string_views(r@) =~= string_views(prev).push(s@));
        assert(views(v@).take(i + 1) =~= views(v@).take(i as int).push(views(v@)[i as int]));
        i = i + 1;
    }
    assert(views(v@).take(v@.len() as int) =~= views(v@));
    r
}

impl ThemeManifest {
    /// Reads the manifest fetched from `manifest_url`. A missing name is
    /// `unknown`, a missing version empty.
    pub fn parse(manifest_url: &str, manifest: &str) -> (m: Self)
        ensures
            m.name@ == match string_field(manifest@, seq!['n', 'a', 'm', 'e']) {
                Some(n) => n,
                None => "unknown"@,
            },
            m.version@ == match string_field(manifest@, seq!['v', 'e', 'r', 's', 'i', 'o', 'n']) {
                Some(v) => v,
                None => seq![],
            },
            m.base_url@ == manifest_base(manifest_url@),
            string_views(m.layouts@) == string_array(
                manifest@,
                seq!['l', 'a', 'y', 'o', 'u', 't', 's'],
            ),
            string_views(m.styles@) == string_array(manifest@, seq!['s', 't', 'y', 'l', 'e', 's']),
    {
        let text = to_chars(manifest);
        let url = to_chars(manifest_url);
        let kname: Vec<char> = vec!['n', 'a', 'm', 'e'];
        let kver: Vec<char> = vec!['v', 'e', 'r', 's', 'i', 'o', 'n'];
        let klay: Vec<char> = vec!['l', 'a', 'y', 'o', 'u', 't', 's'];
        let ksty: Vec<char> = vec!['s', 't', 'y', 'l', 'e', 's'];
        assert(kname@ =~= seq!['n', 'a', 'm', 'e']);
        assert(kver@ =~= seq!['v', 'e', 'r', 's', 'i', 'o', 'n']);
        assert(klay@ =~= seq!['l', 'a', 'y', 'o', 'u', 't', 's']);
        assert(ksty@ =~= seq!['s', 't', 'y', 'l', 'e', 's']);
        let name = match extract_string_field(text.as_slice(), kname.as_slice()) {
            Some(n) => to_string(n.as_slice()),
            None => String::from_str("unknown"),
        };
        let version = match extract_string_field(text.as_slice(), kver.as_slice()) {
            Some(v) => to_string(v.as_slice()),
            None => String::new(),
        };
        let base_url = match rfind_exec(url.as_slice(), '/') {
            Some(k) => to_string(slice(url.as_slice(), 0, k).as_slice()),
            None => String::new(),
        };
        let layouts = to_strings(&extract_string_array(text.as_slice(), klay.as_slice()));
        let styles = to_strings(&extract_string_array(text.as_slice(), ksty.as_slice()));
        ThemeManifest { name, version, base_url, layouts, styles }
    }

    /// Where the theme file `rel` is fetched from.
    pub fn file_url(&self, rel: &str) -> (r: String)
        ensures
            r@ == self.base_url@ + seq!['/'] + rel@,
    {
        let mut out = to_chars(self.base_url.as_str());
        out.push('/');
        push_all(&mut out, to_chars(rel).as_slice());
        to_string(out.as_slice())
    }
}

/// A loaded theme: its layouts and its aggregated JS and CSS, ready to inline.
pub struct LoadedTheme {
    pub name: String,
    pub version: String,
    pub js: String,
    pub css: String,
    /// Layout name and source text, in manifest order.
    pub layouts: Vec<(String, String)>,
}

/// What the script of a theme layout contributes to the theme's JS.
pub open spec fn layout_js(content: Seq<char>) -> Seq<char> {
    iife_open() + guard_spec(strip_imports_spec(content)) + iife_close() + seq!['\n']
}

/// The name of the layout stored in `rel`.
pub fn layout_stem(rel: &[char]) -> (r: Vec<char>)
    ensures
        r@ == file_stem(rel@),
{
    let n = rel.len();
    let base = match rfind_exec(rel, '/') {
        Some(k) => slice(rel, k + 1, n),
        None => slice(rel, 0, rel.len()),
    };
    assert(rel@.subrange(0, rel@.len() as int) =~= rel@);
    match rfind_exec(base.as_slice(), '.') {
        Some(d) => if d > 0 {
            slice(base.as_slice(), 0, d)
        } else {
            base
        },
        None => base,
    }
}

impl LoadedTheme {
    /// A theme with nothing loaded yet.
    pub fn new(name: &str, version: &str) -> (t: Self)
        ensures
            t.name@ == name@,
            t.version@ == version@,
            t.js@ == Seq::<char>::empty(),
            t.css@ == Seq::<char>::empty(),
            t.layouts@.len() == 0,
    {
        LoadedTheme {
            name: String::from_str(name),
            version: String::from_str(version),
            js: String::new(),
            css: String::new(),
            layouts: Vec::new(),
        }
    }

    /// Adds the layout file `rel` with text `content`.
    pub fn add_layout(&mut self, rel: &str, content: &str)
        ensures
            final(self).js@ == old(self).js@ + layout_js(content@),
            final(self).layouts@.len() == old(self).layouts@.len() + 1,
            forall|i: int|
                0 <= i < old(self).layouts@.len() ==> final(self).layouts@[i] == old(
                    self,
                ).layouts@[i],
            final(self).layouts@.last().0@ == file_stem(rel@),
            final(self).layouts@.last().1@ == content@,
            final(self).css == old(self).css,
            final(self).name == old(self).name,
            final(self).version == old(self).version,
    {
        let text = to_chars(content);
        let stripped = strip_slidebase_import(text.as_slice());
        let mut guarded: Vec<char> = Vec::new();
        guard_chars(stripped.as_slice(), &mut guarded);
        let mut js = to_chars(self.js.as_str());
        wrap_in_iife_chars(guarded.as_slice(), &mut js);
        js.push('\n');
        self.js = to_string(js.as_slice());
        let name = to_string(layout_stem(to_chars(rel).as_slice()).as_slice());
        self.layouts.push((name, String::from_str(content)));
    }

    /// Adds the style sheet text `content`.
    pub fn add_style(&mut self, content: &str)
        ensures
            final(self).css@ == old(self).css@ + content@ + seq!['\n'],
            final(self).js == old(self).js,
            final(self).layouts == old(self).layouts,
            final(self).name == old(self).name,
            final(self).version == old(self).version,
    {
        let mut css = to_chars(self.css.as_str());
        push_all(&mut css, to_chars(content).as_slice());
        css.push('\n');
        self.css = to_string(css.as_slice());
    }
}

impl Default for LoadedTheme {
    /// A theme with no name and nothing loaded.
    fn default() -> (t: Self)
        ensures
            t.name@ == Seq::<char>::empty(),
            t.version@ == Seq::<char>::empty(),
            t.js@ == Seq::<char>::empty(),
            t.css@ == Seq::<char>::empty(),
            t.layouts@.len() == 0,
    {
        LoadedTheme {
            name: String::new(),
            version: String::new(),
            js: String::new(),
            css: String::new(),
            layouts: Vec::new(),
        }
    }
}

} // verus!
