//! Minimal mustache-style template engine for layout templates.
//!
//! Supports:
//! - `{{name}}`               HTML-escaped variable
//! - `{{{name}}}`             raw variable (no escape)
//! - `{{#name}}...{{/name}}`  section: renders block if `name` is non-empty
//! - `{{^name}}...{{/name}}`  inverted section: renders block if `name` is empty
//! - `{{slot:name}}`          named slot, raw (alias for `{{{slot:name}}}`)
//!
//! Whitespace is preserved literally. Rendering tokenizes the template in one
//! pass, then walks the tokens, handling sections recursively.
use crate::strmap::StrMap;
use crate::text::{
    find_exec, find_from, has_prefix, is_first_at, lemma_find_some, occurs_at, push_all,
    push_range, slice, to_chars, to_string, trim, trim_bounds, trimmed,
};
use vstd::prelude::*;

verus! {

// ---------------------------------------------------------------------------
// Context
// ---------------------------------------------------------------------------

/// Variables and slot content available to a template render.
pub struct Context {
    vars: StrMap<Vec<char>>,
    slots: StrMap<Vec<char>>,
}

pub open spec fn slot_prefix() -> Seq<char> {
    seq!['s', 'l', 'o', 't', ':']
}

/// A section named `name` is shown under `look`: the value exists and is
/// not empty.
pub open spec fn truthy_in(look: spec_fn(Seq<char>) -> Option<Seq<char>>, name: Seq<char>) -> bool {
    match look(name) {
        Some(v) => v.len() > 0,
        None => false,
    }
}

pub open spec fn opt_view(o: Option<Vec<char>>) -> Option<Seq<char>> {
    match o {
        Some(v) => Some(v@),
        None => None,
    }
}

impl Context {
    /// The variable `k`.
    pub closed spec fn var(&self, k: Seq<char>) -> Option<Seq<char>> {
        opt_view(self.vars.get_spec(k))
    }

    /// The slot `k`.
    pub closed spec fn slot(&self, k: Seq<char>) -> Option<Seq<char>> {
        opt_view(self.slots.get_spec(k))
    }

    /// The value of variable `k`, if set.
    pub fn var_value(&self, k: &str) -> (r: Option<String>)
        ensures
            match r {
                Some(v) => self.var(k@) == Some(v@),
                None => self.var(k@) is None,
            },
    {
        match self.vars.get(to_chars(k).as_slice()) {
            Some(v) => Some(to_string(v.as_slice())),
            None => None,
        }
    }

    /// The content of slot `name`, if set.
    pub fn slot_value(&self, name: &str) -> (r: Option<String>)
        ensures
            match r {
                Some(v) => self.slot(name@) == Some(v@),
                None => self.slot(name@) is None,
            },
    {
        match self.slots.get(to_chars(name).as_slice()) {
            Some(v) => Some(to_string(v.as_slice())),
            None => None,
        }
    }

    /// What a placeholder `name` refers to: the slot after a `slot:` prefix,
    /// else the variable.
    pub open spec fn lookup(&self, name: Seq<char>) -> Option<Seq<char>> {
        if has_prefix(name, slot_prefix()) {
            self.slot(name.subrange(5, name.len() as int))
        } else {
            self.var(name)
        }
    }

    /// A section named `name` is shown: the value exists and is not empty.
    pub open spec fn truthy(&self, name: Seq<char>) -> bool {
        truthy_in(self.lookup_fn(), name)
    }

    /// Placeholder names to their values.
    pub open spec fn lookup_fn(&self) -> spec_fn(Seq<char>) -> Option<Seq<char>> {
        |name: Seq<char>| self.lookup(name)
    }

    /// An empty context.
    pub fn new() -> (c: Self)
        ensures
            forall|k: Seq<char>| c.var(k) is None,
            forall|k: Seq<char>| c.slot(k) is None,
    {
        Context { vars: StrMap::new(), slots: StrMap::new() }
    }

    /// Sets variable `k` to `v`; returns the context for chaining.
    pub fn set(&mut self, k: &str, v: &str) -> (r: &mut Self)
        ensures
            r.var(k@) == Some(v@),
            forall|o: Seq<char>| o != k@ ==> r.var(o) == old(self).var(o),
            forall|o: Seq<char>| r.slot(o) == old(self).slot(o),
            *final(self) == *final(r),
    {
        self.set_chars(to_chars(k), to_chars(v));
        self
    }

    /// Sets slot `name` to `html`; returns the context for chaining.
    pub fn set_slot(&mut self, name: &str, html: &str) -> (r: &mut Self)
        ensures
            r.slot(name@) == Some(html@),
            forall|o: Seq<char>| o != name@ ==> r.slot(o) == old(self).slot(o),
            forall|o: Seq<char>| r.var(o) == old(self).var(o),
            *final(self) == *final(r),
    {
        self.set_slot_chars(to_chars(name), to_chars(html));
        self
    }

    /// Sets variable `k` to `v`.
    pub fn set_chars(&mut self, k: Vec<char>, v: Vec<char>)
        ensures
            final(self).var(k@) == Some(v@),
            forall|o: Seq<char>| o != k@ ==> final(self).var(o) == old(self).var(o),
            forall|o: Seq<char>| final(self).slot(o) == old(self).slot(o),
    {
        self.vars.insert(k, v);
    }

    /// Sets slot `name` to `html`.
    pub fn set_slot_chars(&mut self, name: Vec<char>, html: Vec<char>)
        ensures
            final(self).slot(name@) == Some(html@),
            forall|o: Seq<char>| o != name@ ==> final(self).slot(o) == old(self).slot(o),
            forall|o: Seq<char>| final(self).var(o) == old(self).var(o),
    {
        self.slots.insert(name, html);
    }

    fn lookup_var(&self, name: &[char]) -> (r: Option<&Vec<char>>)
        ensures
            match r {
                Some(v) => self.lookup(name@) == Some(v@),
                None => self.lookup(name@) is None,
            },
    {
        let pre: Vec<char> = vec!['s', 'l', 'o', 't', ':'];
        assert(pre@ =~= slot_prefix());
        if crate::text::starts_with_at(name, 0, name.len(), pre.as_slice()) {
            assert(name@.subrange(0, name@.len() as int) =~= name@);
            let rest = slice(name, 5, name.len());
            self.slots.get(rest.as_slice())
        } else {
            assert(name@.subrange(0, name@.len() as int) =~= name@);
            self.vars.get(name)
        }
    }

    fn is_truthy(&self, name: &[char]) -> (b: bool)
        ensures
            b == self.truthy(name@),
    {
        match self.lookup_var(name) {
            None => false,
            Some(v) => v.len() > 0,
        }
    }
}

// ---------------------------------------------------------------------------
// Tokens
// ---------------------------------------------------------------------------

/// A template token, as a mathematical value.
pub enum Tok {
    Text(Seq<char>),
    Var(Seq<char>),
    Raw(Seq<char>),
    SecOpen(Seq<char>),
    InvOpen(Seq<char>),
    SecClose(Seq<char>),
}

enum Token {
    Text(Vec<char>),
    Var(Vec<char>),
    Raw(Vec<char>),
    SecOpen(Vec<char>),
    InvOpen(Vec<char>),
    SecClose(Vec<char>),
}

impl View for Token {
    type V = Tok;

    closed spec fn view(&self) -> Tok {
        match self {
            Token::Text(s) => Tok::Text(s@),
            Token::Var(s) => Tok::Var(s@),
            Token::Raw(s) => Tok::Raw(s@),
            Token::SecOpen(s) => Tok::SecOpen(s@),
            Token::InvOpen(s) => Tok::InvOpen(s@),
            Token::SecClose(s) => Tok::SecClose(s@),
        }
    }
}

spec fn toks_view(t: Seq<Token>) -> Seq<Tok> {
    t.map_values(|x: Token| x@)
}

pub open spec fn open2() -> Seq<char> {
    seq!['{', '{']
}

pub open spec fn close2() -> Seq<char> {
    seq!['}', '}']
}

pub open spec fn close3() -> Seq<char> {
    seq!['}', '}', '}']
}

/// The token for the trimmed inside of a `{{...}}` tag.
pub open spec fn classify(inner: Seq<char>) -> Tok {
    if has_prefix(inner, seq!['#']) {
        Tok::SecOpen(trim(inner.drop_first()))
    } else if has_prefix(inner, seq!['^']) {
        Tok::InvOpen(trim(inner.drop_first()))
    } else if has_prefix(inner, seq!['/']) {
        Tok::SecClose(trim(inner.drop_first()))
    } else if has_prefix(inner, slot_prefix()) {
        Tok::Raw(inner)
    } else {
        Tok::Var(inner)
    }
}

/// Pending text `s[ts..i]` as a token list.
pub open spec fn pending(s: Seq<char>, ts: int, i: int) -> Seq<Tok> {
    if ts < i {
        seq![Tok::Text(s.subrange(ts, i))]
    } else {
        seq![]
    }
}

/// Tokens of `s`, scanning from `i` with unflushed text starting at `ts`.
pub open spec fn tokens_from(s: Seq<char>, i: int, ts: int) -> Seq<Tok>
    decreases s.len() - i,
{
    if i < 0 || i >= s.len() {
        pending(s, ts, s.len() as int)
    } else if i + 1 < s.len() && s[i] == '{' && s[i + 1] == '{' {
        if i + 2 < s.len() && s[i + 2] == '{' {
            match find_from(s, close3(), i + 3) {
                Some(e) => {
                    proof {
                        lemma_find_some(s, close3(), i + 3);
                    }
                    pending(s, ts, i) + seq![Tok::Raw(trim(s.subrange(i + 3, e)))] + tokens_from(
                        s,
                        e + 3,
                        e + 3,
                    )
                },
                None => pending(s, ts, i) + seq![Tok::Text(s.subrange(i, s.len() as int))],
            }
        } else {
            match find_from(s, close2(), i + 2) {
                Some(e) => {
                    proof {
                        lemma_find_some(s, close2(), i + 2);
                    }
                    pending(s, ts, i) + seq![classify(trim(s.subrange(i + 2, e)))] + tokens_from(
                        s,
                        e + 2,
                        e + 2,
                    )
                },
                None => pending(s, ts, i) + seq![Tok::Text(s.subrange(i, s.len() as int))],
            }
        }
    } else {
        tokens_from(s, i + 1, ts)
    }
}

/// The tokens of a template.
pub open spec fn tokenize_spec(s: Seq<char>) -> Seq<Tok> {
    tokens_from(s, 0, 0)
}

fn classify_exec(inner: Vec<char>) -> (t: Token)
    ensures
        t@ == classify(inner@),
{
    let n = inner.len();
    proof {
        if n > 0 {
            assert(inner@.subrange(0, 1) =~= seq![inner@[0]]);
        }
        if has_prefix(inner@, seq!['#']) {
            assert(inner@.subrange(0, 1)[0] == '#');
        }
        if has_prefix(inner@, seq!['^']) {
            assert(inner@.subrange(0, 1)[0] == '^');
        }
        if has_prefix(inner@, seq!['/']) {
            assert(inner@.subrange(0, 1)[0] == '/');
        }
    }
    if n > 0 && inner[0] == '#' {
        proof {
            assert(inner@.subrange(0, 1) =~= seq!['#']);
        }
        let rest = slice(inner.as_slice(), 1, n);
        assert(rest@ =~= inner@.drop_first());
        return Token::SecOpen(trimmed(rest.as_slice()));
    }
    if n > 0 && inner[0] == '^' {
        proof {
            assert(inner@.subrange(0, 1) =~= seq!['^']);
        }
        let rest = slice(inner.as_slice(), 1, n);
        assert(rest@ =~= inner@.drop_first());
        return Token::InvOpen(trimmed(rest.as_slice()));
    }
    if n > 0 && inner[0] == '/' {
        proof {
            assert(inner@.subrange(0, 1) =~= seq!['/']);
        }
        let rest = slice(inner.as_slice(), 1, n);
        assert(rest@ =~= inner@.drop_first());
        return Token::SecClose(trimmed(rest.as_slice()));
    }
    proof {
        if n > 0 {
            assert(inner@.subrange(0, 1) =~= seq![inner@[0]]);
        }
    }
    let pre: Vec<char> = vec!['s', 'l', 'o', 't', ':'];
    assert(pre@ =~= slot_prefix());
    assert(inner@.subrange(0, n as int) =~= inner@);
    if crate::text::starts_with_at(inner.as_slice(), 0, n, pre.as_slice()) {
        Token::Raw(inner)
    } else {
        Token::Var(inner)
    }
}

fn push_pending(tokens: &mut Vec<Token>, s: &[char], ts: usize, i: usize)
    requires
        ts <= i <= s@.len(),
    ensures
        toks_view(final(tokens)@) == toks_view(old(tokens)@) + pending(s@, ts as int, i as int),
{
    let ghost before = toks_view(tokens@);
    if ts < i {
        tokens.push(Token::Text(slice(s, ts, i)));
        assert(toks_view(tokens@) =~= before + pending(s@, ts as int, i as int));
    } else {
        assert(toks_view(tokens@) =~= before + pending(s@, ts as int, i as int));
    }
}

fn tokenize(s: &[char]) -> (tokens: Vec<Token>)
    ensures
        toks_view(tokens@) == tokenize_spec(s@),
{
    let open3: Vec<char> = vec!['}', '}', '}'];
    let close: Vec<char> = vec!['}', '}'];
    assert(open3@ =~= close3());
    assert(close@ =~= close2());
    let mut tokens: Vec<Token> = Vec::new();
    let n = s.len();
    let mut i: usize = 0;
    let mut text_start: usize = 0;

    while i < n
        invariant
            n == s@.len(),
            open3@ == close3(),
            close@ == close2(),
            text_start <= i <= n,
            toks_view(tokens@) + tokens_from(s@, i as int, text_start as int) == tokenize_spec(
                s@,
            ),
        decreases n - i,
    {
        let ghost before = toks_view(tokens@);
        if i + 1 < n && s[i] == '{' && s[i + 1] == '{' {
            if i + 2 < n && s[i + 2] == '{' {
                match find_exec(s, open3.as_slice(), i + 3) {
                    Some(end) => {
                        push_pending(&mut tokens, s, text_start, i);
                        let (a, b) = trim_bounds(s, i + 3, end);
                        tokens.push(Token::Raw(slice(s, a, b)));
                        proof {
                            assert(toks_view(tokens@) =~= before + pending(
                                s@,
                                text_start as int,
                                i as int,
                            ) + seq![Tok::Raw(trim(s@.subrange(i + 3, end as int)))]);
                        }
                        i = end + 3;
                        text_start = i;
                        continue ;
                    },
                    None => {
                        push_pending(&mut tokens, s, text_start, i);
                        tokens.push(Token::Text(slice(s, i, n)));
                        proof {
                            assert(toks_view(tokens@) =~= before + pending(
                                s@,
                                text_start as int,
                                i as int,
                            ) + seq![Tok::Text(s@.subrange(i as int, n as int))]);
                        }
                        return tokens;
                    },
                }
            }
            match find_exec(s, close.as_slice(), i + 2) {
                Some(end) => {
                    push_pending(&mut tokens, s, text_start, i);
                    let (a, b) = trim_bounds(s, i + 2, end);
                    let tok = classify_exec(slice(s, a, b));
                    tokens.push(tok);
                    proof {
                        assert(toks_view(tokens@) =~= before + pending(
                            s@,
                            text_start as int,
                            i as int,
                        ) + seq![classify(trim(s@.subrange(i + 2, end as int)))]);
                    }
                    i = end + 2;
                    text_start = i;
                    continue ;
                },
                None => {
                    push_pending(&mut tokens, s, text_start, i);
                    tokens.push(Token::Text(slice(s, i, n)));
                    proof {
                        assert(toks_view(tokens@) =~= before + pending(
                            s@,
                            text_start as int,
                            i as int,
                        ) + seq![Tok::Text(s@.subrange(i as int, n as int))]);
                    }
                    return tokens;
                },
            }
        }
        i = i + 1;
    }
    push_pending(&mut tokens, s, text_start, n);
    tokens
}

// ---------------------------------------------------------------------------
// Rendering
// ---------------------------------------------------------------------------

/// How a character is written inside HTML text.
pub open spec fn escape_char(c: char) -> Seq<char> {
    if c == '<' {
        seq!['&', 'l', 't', ';']
    } else if c == '>' {
        seq!['&', 'g', 't', ';']
    } else if c == '&' {
        seq!['&', 'a', 'm', 'p', ';']
    } else if c == '"' {
        seq!['&', 'q', 'u', 'o', 't', ';']
    } else if c == '\'' {
        seq!['&', '#', '3', '9', ';']
    } else {
        seq![c]
    }
}

/// `s` with `< > & " '` replaced by HTML entities.
pub open spec fn html_escape_spec(s: Seq<char>) -> Seq<char>
    decreases s.len(),
{
    if s.len() == 0 {
        seq![]
    } else {
        html_escape_spec(s.drop_last()) + escape_char(s.last())
    }
}

fn html_escape(s: &[char], out: &mut Vec<char>)
    ensures
        final(out)@ == old(out)@ + html_escape_spec(s@),
{
    let ghost start = out@;
    let mut i: usize = 0;
    while i < s.len()
        invariant
            0 <= i <= s@.len(),
            out@ == start + html_escape_spec(s@.subrange(0, i as int)),
        decreases s@.len() - i,
    {
        let c = s[i];
        if c == '<' {
            out.push('&');
            out.push('l');
            out.push('t');
            out.push(';');
        } else if c == '>' {
            out.push('&');
            out.push('g');
            out.push('t');
            out.push(';');
        } else if c == '&' {
            out.push('&');
            out.push('a');
            out.push('m');
            out.push('p');
            out.push(';');
        } else if c == '"' {
            out.push('&');
            out.push('q');
            out.push('u');
            out.push('o');
            out.push('t');
            out.push(';');
        } else if c == '\'' {
            out.push('&');
            out.push('#');
            out.push('3');
            out.push('9');
            out.push(';');
        } else {
            out.push(c);
        }
        proof {
            let t = s@.subrange(0, i + 1);
            assert(t.drop_last() =~= s@.subrange(0, i as int));
            assert(t.last() == c);
            assert(out@ =~= start + html_escape_spec(t));
        }
        i = i + 1;
    }
    assert(s@.subrange(0, s@.len() as int) =~= s@);
}

/// Index of the `{{/name}}` closing the section opened just before `i`, with
/// `depth` sections of that name still open; the token count if none closes it.
pub open spec fn section_close(t: Seq<Tok>, i: int, name: Seq<char>, depth: int) -> int
    decreases t.len() - i,
{
    if i < 0 || i >= t.len() {
        t.len() as int
    } else {
        match t[i] {
            Tok::SecOpen(n) => if n == name {
                section_close(t, i + 1, name, depth + 1)
            } else {
                section_close(t, i + 1, name, depth)
            },
            Tok::InvOpen(n) => if n == name {
                section_close(t, i + 1, name, depth + 1)
            } else {
                section_close(t, i + 1, name, depth)
            },
            Tok::SecClose(n) => if n == name {
                if depth - 1 == 0 {
                    i
                } else {
                    section_close(t, i + 1, name, depth - 1)
                }
            } else {
                section_close(t, i + 1, name, depth)
            },
            _ => section_close(t, i + 1, name, depth),
        }
    }
}

pub proof fn lemma_section_close_bounds(t: Seq<Tok>, i: int, name: Seq<char>, depth: int)
    requires
        0 <= i,
    ensures
        i <= section_close(t, i, name, depth) <= t.len() || (i > t.len() && section_close(
            t,
            i,
            name,
            depth,
        ) == t.len()),
    decreases t.len() - i,
{
    if i < t.len() {
        lemma_section_close_bounds(t, i + 1, name, depth + 1);
        lemma_section_close_bounds(t, i + 1, name, depth);
        lemma_section_close_bounds(t, i + 1, name, depth - 1);
    }
}

/// Output of rendering tokens `t` from index `i` up to the first unmatched
/// section close.
pub open spec fn render_from(t: Seq<Tok>, i: int, look: spec_fn(Seq<char>) -> Option<Seq<char>>) -> Seq<char>
    decreases t.len() + 1 - i,
{
    if i < 0 || i >= t.len() {
        seq![]
    } else {
        match t[i] {
            Tok::Text(s) => s + render_from(t, i + 1, look),
            Tok::Var(n) => match look(n) {
                Some(v) => html_escape_spec(v) + render_from(t, i + 1, look),
                None => render_from(t, i + 1, look),
            },
            Tok::Raw(n) => match look(n) {
                Some(v) => v + render_from(t, i + 1, look),
                None => render_from(t, i + 1, look),
            },
            Tok::SecOpen(n) => {
                let close = section_close(t, i + 1, n, 1);
                proof {
                    lemma_section_close_bounds(t, i + 1, n, 1);
                }
                (if truthy_in(look, n) {
                    render_from(t, i + 1, look)
                } else {
                    seq![]
                }) + render_from(t, close + 1, look)
            },
            Tok::InvOpen(n) => {
                let close = section_close(t, i + 1, n, 1);
                proof {
                    lemma_section_close_bounds(t, i + 1, n, 1);
                }
                (if !truthy_in(look, n) {
                    render_from(t, i + 1, look)
                } else {
                    seq![]
                }) + render_from(t, close + 1, look)
            },
            Tok::SecClose(_) => seq![],
        }
    }
}

/// The rendered template.
pub open spec fn render_spec(template: Seq<char>, look: spec_fn(Seq<char>) -> Option<Seq<char>>) -> Seq<char> {
    render_from(tokenize_spec(template), 0, look)
}

/// Renders `template` with `ctx`.
pub fn render(template: &str, ctx: &Context) -> (r: String)
    ensures
        r@ == render_spec(template@, ctx.lookup_fn()),
{
    let chars = to_chars(template);
    let tokens = tokenize(chars.as_slice());
    let mut out: Vec<char> = Vec::new();
    render_tokens(&tokens, 0, ctx, &mut out);
    to_string(out.as_slice())
}

/// Renders `template` with `ctx`, appending to `out`.
pub fn render_chars(template: &[char], ctx: &Context, out: &mut Vec<char>)
    ensures
        final(out)@ == old(out)@ + render_spec(template@, ctx.lookup_fn()),
{
    let tokens = tokenize(template);
    render_tokens(&tokens, 0, ctx, out);
}

fn find_section_close(tokens: &Vec<Token>, from: usize, name: &[char]) -> (r: usize)
    requires
        1 <= from <= tokens@.len(),
    ensures
        r == section_close(toks_view(tokens@), from as int, name@, 1),
{
    let ghost t = toks_view(tokens@);
    let n = tokens.len();
    let mut depth: usize = 1;
    let mut i = from;
    while i < n
        invariant
            n == tokens@.len(),
            1 <= from,
            t == toks_view(tokens@),
            from <= i <= tokens@.len(),
            1 <= depth <= i - from + 1,
            section_close(t, from as int, name@, 1) == section_close(
                t,
                i as int,
                name@,
                depth as int,
            ),
        decreases tokens@.len() - i,
    {
        assert(t[i as int] == tokens@[i as int]@);
        match &tokens[i] {
            Token::SecOpen(n) => {
                if crate::text::chars_eq(n.as_slice(), name) {
                    depth = depth + 1;
                }
            },
            Token::InvOpen(n) => {
                if crate::text::chars_eq(n.as_slice(), name) {
                    depth = depth + 1;
                }
            },
            Token::SecClose(n) => {
                if crate::text::chars_eq(n.as_slice(), name) {
                    depth = depth - 1;
                    if depth == 0 {
                        return i;
                    }
                }
            },
            _ => {},
        }
        i = i + 1;
    }
    tokens.len()
}

/// Renders tokens from `start` up to the first unmatched section close,
/// appending to `out`.
fn render_tokens(tokens: &Vec<Token>, start: usize, ctx: &Context, out: &mut Vec<char>)
    requires
        start <= tokens@.len(),
    ensures
        final(out)@ == old(out)@ + render_from(toks_view(tokens@), start as int, ctx.lookup_fn()),
    decreases tokens@.len() + 1 - start,
{
    let ghost t = toks_view(tokens@);
    let ghost out0 = out@;
    let mut i = start;
    while i < tokens.len()
        invariant
            t == toks_view(tokens@),
            start <= i <= tokens@.len(),
            out0 == old(out)@,
            out0 + render_from(t, start as int, ctx.lookup_fn()) == out@ + render_from(t, i as int, ctx.lookup_fn()),
        decreases tokens@.len() - i,
    {
        assert(t[i as int] == tokens@[i as int]@);
        let ghost here = out@;
        match &tokens[i] {
            Token::Text(s) => {
                push_all(out, s.as_slice());
                assert(here + render_from(t, i as int, ctx.lookup_fn()) =~= out@ + render_from(
                    t,
                    i + 1,
                    ctx.lookup_fn(),
                ));
            },
            Token::Var(name) => {
                match ctx.lookup_var(name.as_slice()) {
                    Some(v) => {
                        html_escape(v.as_slice(), out);
                        assert(here + render_from(t, i as int, ctx.lookup_fn()) =~= out@ + render_from(
                            t,
                            i + 1,
                            ctx.lookup_fn(),
                        ));
                    },
                    None => {},
                }
            },
            Token::Raw(name) => {
                match ctx.lookup_var(name.as_slice()) {
                    Some(v) => {
                        push_all(out, v.as_slice());
                        assert(here + render_from(t, i as int, ctx.lookup_fn()) =~= out@ + render_from(
                            t,
                            i + 1,
                            ctx.lookup_fn(),
                        ));
                    },
                    None => {},
                }
            },
            Token::SecOpen(name) => {
                let close = find_section_close(tokens, i + 1, name.as_slice());
                proof {
                    lemma_section_close_bounds(t, i + 1, name@, 1);
                }
                if ctx.is_truthy(name.as_slice()) {
                    render_tokens(tokens, i + 1, ctx, out);
                }
                assert(here + render_from(t, i as int, ctx.lookup_fn()) =~= out@ + render_from(
                    t,
                    close + 1,
                    ctx.lookup_fn(),
                ));
                if close >= tokens.len() {
                    assert(out0 + render_from(t, start as int, ctx.lookup_fn()) =~= out@);
                    return;
                }
                i = close;
            },
            Token::InvOpen(name) => {
                let close = find_section_close(tokens, i + 1, name.as_slice());
                proof {
                    lemma_section_close_bounds(t, i + 1, name@, 1);
                }
                if !ctx.is_truthy(name.as_slice()) {
                    render_tokens(tokens, i + 1, ctx, out);
                }
                assert(here + render_from(t, i as int, ctx.lookup_fn()) =~= out@ + render_from(
                    t,
                    close + 1,
                    ctx.lookup_fn(),
                ));
                if close >= tokens.len() {
                    assert(out0 + render_from(t, start as int, ctx.lookup_fn()) =~= out@);
                    return;
                }
                i = close;
            },
            Token::SecClose(_) => {
                assert(render_from(t, i as int, ctx.lookup_fn()) =~= Seq::<char>::empty());
                assert(out0 + render_from(t, start as int, ctx.lookup_fn()) =~= out@);
                return;
            },
        }
        i = i + 1;
    }
    assert(render_from(t, i as int, ctx.lookup_fn()) =~= Seq::<char>::empty());
    assert(out0 + render_from(t, start as int, ctx.lookup_fn()) =~= out@);
}


// ---------------------------------------------------------------------------
// Laws
// ---------------------------------------------------------------------------

proof fn lemma_no_tags_tokens(s: Seq<char>, i: int)
    requires
        0 <= i <= s.len(),
        !crate::text::contains(s, open2()),
    ensures
        tokens_from(s, i, 0) == pending(s, 0, s.len() as int),
    decreases s.len() - i,
{
    if i < s.len() {
        if i + 1 < s.len() {
            assert(s.subrange(i, i + 2) =~= seq![s[i], s[i + 1]]);
            assert(!occurs_at(s, open2(), i));
        }
        lemma_no_tags_tokens(s, i + 1);
    }
}

/// A template without any `{{` renders to itself: text, including all
/// whitespace, is copied literally.
pub proof fn law_plain_text_is_literal(template: Seq<char>, look: spec_fn(Seq<char>) -> Option<Seq<char>>)
    requires
        !crate::text::contains(template, open2()),
    ensures
        render_spec(template, look) == template,
{
    lemma_no_tags_tokens(template, 0);
    let t = tokenize_spec(template);
    if template.len() > 0 {
        assert(template.subrange(0, template.len() as int) =~= template);
        assert(render_from(t, 1, look) =~= Seq::<char>::empty());
        assert(render_from(t, 0, look) =~= template);
    } else {
        assert(t.len() == 0);
        assert(render_from(t, 0, look) =~= template);
    }
}

/// Escaped text never contains a raw `<`, `>`, `"` or `'`.
pub proof fn law_escape_removes_markup(s: Seq<char>)
    ensures
        forall|i: int|
            0 <= i < html_escape_spec(s).len() ==> {
                let c = #[trigger] html_escape_spec(s)[i];
                c != '<' && c != '>' && c != '"' && c != '\''
            },
    decreases s.len(),
{
    if s.len() > 0 {
        law_escape_removes_markup(s.drop_last());
        let a = html_escape_spec(s.drop_last());
        let b = escape_char(s.last());
        assert(html_escape_spec(s) == a + b);
        assert forall|i: int| 0 <= i < (a + b).len() implies {
            let c = #[trigger] (a + b)[i];
            c != '<' && c != '>' && c != '"' && c != '\''
        } by {
            if i >= a.len() {
                assert((a + b)[i] == b[i - a.len()]);
            } else {
                assert((a + b)[i] == a[i]);
            }
        }
    }
}

/// `{{name}}` renders the value of `name` HTML-escaped and `{{{name}}}` renders
/// it as is; a name with no value renders as nothing.
pub proof fn law_placeholder_values(look: spec_fn(Seq<char>) -> Option<Seq<char>>, name: Seq<char>)
    requires
        trim(name) == name,
        !has_prefix(name, seq!['#']),
        !has_prefix(name, seq!['^']),
        !has_prefix(name, seq!['/']),
        !has_prefix(name, slot_prefix()),
        forall|j: int| 0 <= j < name.len() ==> #[trigger] name[j] != '{' && name[j] != '}',
    ensures
        render_spec(open2() + name + close2(), look) == match look(name) {
            Some(v) => html_escape_spec(v),
            None => Seq::<char>::empty(),
        },
        render_spec(seq!['{'] + open2() + name + close3(), look) == match look(name) {
            Some(v) => v,
            None => Seq::<char>::empty(),
        },
{
    let n = name.len() as int;
    let s = open2() + name + close2();
    assert(s.len() == n + 4);
    assert forall|k: int| 2 <= k < n + 2 implies !occurs_at(s, close2(), k) by {
        assert(s[k] == name[k - 2]);
        if occurs_at(s, close2(), k) {
            assert(s.subrange(k, k + 2)[0] == s[k]);
        }
    }
    assert(s.subrange(n + 2, n + 4) =~= close2());
    crate::text::lemma_first_unique(s, close2(), 2, n + 2);
    assert(s.subrange(2, n + 2) =~= name);
    if n > 0 {
        assert(s[2] == name[0]);
    }
    assert(s[0] == '{' && s[1] == '{' && s[2] != '{');
    assert(classify(trim(s.subrange(2, n + 2))) == Tok::Var(name));
    assert(tokens_from(s, n + 4, n + 4) =~= Seq::<Tok>::empty());
    assert(pending(s, 0, 0) =~= Seq::<Tok>::empty());
    let t = tokenize_spec(s);
    assert(t =~= seq![Tok::Var(name)]);
    assert(render_from(t, 1, look) =~= Seq::<char>::empty());

    let r = seq!['{'] + open2() + name + close3();
    assert(r.len() == n + 6);
    assert forall|k: int| 3 <= k < n + 3 implies !occurs_at(r, close3(), k) by {
        assert(r[k] == name[k - 3]);
        if occurs_at(r, close3(), k) {
            assert(r.subrange(k, k + 3)[0] == r[k]);
        }
    }
    assert(r.subrange(n + 3, n + 6) =~= close3());
    crate::text::lemma_first_unique(r, close3(), 3, n + 3);
    assert(r.subrange(3, n + 3) =~= name);
    assert(r[0] == '{' && r[1] == '{' && r[2] == '{');
    assert(tokens_from(r, n + 6, n + 6) =~= Seq::<Tok>::empty());
    assert(pending(r, 0, 0) =~= Seq::<Tok>::empty());
    let u = tokenize_spec(r);
    assert(u =~= seq![Tok::Raw(name)]);
    assert(render_from(u, 1, look) =~= Seq::<char>::empty());
}

proof fn lemma_trim_prefixed(c: char, n: Seq<char>)
    requires
        !crate::text::is_ws(c),
        trim(n) == n,
    ensures
        trim(seq![c] + n) == seq![c] + n,
{
    let s = seq![c] + n;
    assert(crate::text::is_lead(s, 0));
    crate::text::lemma_lead_unique(s, 0);
    assert(crate::text::trim_start(s) =~= s);
    if n.len() > 0 {
        crate::text::lemma_lead_exists(n);
        crate::text::lemma_trail_exists(crate::text::trim_start(n));
        assert(crate::text::lead(n) == 0);
        assert(crate::text::trim_start(n) =~= n);
        assert(crate::text::trail(n) == n.len());
        assert(s[s.len() - 1] == n[n.len() - 1]);
    }
    assert(crate::text::is_trail(s, s.len() as int));
    crate::text::lemma_trail_unique(s, s.len() as int);
    assert(crate::text::trim_end(s) =~= s);
}

proof fn lemma_skip_text(s: Seq<char>, i: int, j: int, ts: int)
    requires
        0 <= i <= j <= s.len(),
        forall|k: int| i <= k < j ==> s[k] != '{',
    ensures
        tokens_from(s, i, ts) == tokens_from(s, j, ts),
    decreases j - i,
{
    if i < j {
        lemma_skip_text(s, i + 1, j, ts);
    }
}

proof fn lemma_tag_at(s: Seq<char>, i: int, inner: Seq<char>, ts: int)
    requires
        0 <= i,
        i + 4 + inner.len() <= s.len(),
        inner.len() > 0,
        inner[0] != '{',
        forall|j: int| 0 <= j < inner.len() ==> inner[j] != '}',
        s.subrange(i, i + 4 + inner.len()) == open2() + inner + close2(),
    ensures
        tokens_from(s, i, ts) == pending(s, ts, i) + seq![classify(trim(inner))] + tokens_from(
            s,
            i + 4 + inner.len(),
            i + 4 + inner.len(),
        ),
{
    let m = inner.len() as int;
    let tag = open2() + inner + close2();
    assert(s[i] == tag[0]);
    assert(s[i + 1] == tag[1]);
    assert(s[i + 2] == tag[2]);
    assert forall|k: int| i + 2 <= k < i + 2 + m implies !occurs_at(s, close2(), k) by {
        assert(s[k] == tag[k - i]);
        assert(tag[k - i] == inner[k - i - 2]);
        if occurs_at(s, close2(), k) {
            assert(s.subrange(k, k + 2)[0] == s[k]);
        }
    }
    assert(s.subrange(i + 2 + m, i + 4 + m) =~= tag.subrange(2 + m, 4 + m));
    assert(tag.subrange(2 + m, 4 + m) =~= close2());
    assert(occurs_at(s, close2(), i + 2 + m));
    crate::text::lemma_first_unique(s, close2(), i + 2, i + 2 + m);
    assert(s.subrange(i + 2, i + 2 + m) =~= tag.subrange(2, 2 + m));
    assert(tag.subrange(2, 2 + m) =~= inner);
}

/// The text of a section (`sig` is `#`) or inverted section (`sig` is `^`)
/// named `name` around `body`.
pub open spec fn section_text(sig: char, name: Seq<char>, body: Seq<char>) -> Seq<char> {
    open2() + seq![sig] + name + close2() + body + open2() + seq!['/'] + name + close2()
}

spec fn section_open_tok(sig: char, name: Seq<char>) -> Tok {
    if sig == '#' {
        Tok::SecOpen(name)
    } else {
        Tok::InvOpen(name)
    }
}

proof fn lemma_classify_tag(c: char, name: Seq<char>)
    requires
        c == '#' || c == '^' || c == '/',
        trim(name) == name,
    ensures
        classify(trim(seq![c] + name)) == if c == '#' {
            Tok::SecOpen(name)
        } else if c == '^' {
            Tok::InvOpen(name)
        } else {
            Tok::SecClose(name)
        },
{
    let tag = seq![c] + name;
    lemma_trim_prefixed(c, name);
    assert(tag.drop_first() =~= name);
    assert(tag.subrange(0, 1) =~= seq![c]);
    assert(has_prefix(tag, seq![c]));
    if c != '#' {
        assert(!has_prefix(tag, seq!['#'])) by {
            assert(tag.subrange(0, 1)[0] == c);
        }
    }
    if c == '/' {
        assert(!has_prefix(tag, seq!['^'])) by {
            assert(tag.subrange(0, 1)[0] == c);
        }
    }
}

proof fn lemma_no_close_brace(c: char, name: Seq<char>)
    requires
        c != '}',
        forall|j: int| 0 <= j < name.len() ==> #[trigger] name[j] != '{' && name[j] != '}',
    ensures
        forall|j: int| 0 <= j < (seq![c] + name).len() ==> (seq![c] + name)[j] != '}',
{
    assert forall|j: int| 0 <= j < (seq![c] + name).len() implies (seq![c] + name)[j] != '}' by {
        if j > 0 {
            assert((seq![c] + name)[j] == name[j - 1]);
        }
    }
}

proof fn lemma_section_layout(sig: char, name: Seq<char>, body: Seq<char>)
    ensures
        ({
            let s = section_text(sig, name, body);
            let n = name.len() as int;
            let p = 5 + n + body.len();
            &&& s.len() == p + 5 + n
            &&& s.subrange(0, 5 + n) == open2() + (seq![sig] + name) + close2()
            &&& s.subrange(5 + n, p) == body
            &&& s.subrange(p, p + 5 + n) == open2() + (seq!['/'] + name) + close2()
        }),
{
    let n = name.len() as int;
    let p = 5 + n + body.len();
    let left = open2() + (seq![sig] + name) + close2();
    let right = open2() + (seq!['/'] + name) + close2();
    let s = section_text(sig, name, body);
    assert(s =~= left + body + right);
    assert(s.subrange(0, 5 + n) =~= left);
    assert(s.subrange(5 + n, p) =~= body);
    assert(s.subrange(p, p + 5 + n) =~= right);
}

proof fn lemma_tokens_of_layout(s: Seq<char>, open_tag: Seq<char>, close_tag: Seq<char>, body: Seq<char>)
    requires
        open_tag.len() > 0,
        open_tag.len() == close_tag.len(),
        open_tag[0] != '{',
        close_tag[0] != '{',
        forall|j: int| 0 <= j < open_tag.len() ==> open_tag[j] != '}',
        forall|j: int| 0 <= j < close_tag.len() ==> close_tag[j] != '}',
        forall|j: int| 0 <= j < body.len() ==> #[trigger] body[j] != '{',
        s.len() == 8 + 2 * open_tag.len() + body.len(),
        s.subrange(0, 4 + open_tag.len() as int) == open2() + open_tag + close2(),
        s.subrange(4 + open_tag.len() as int, 4 + open_tag.len() as int + body.len() as int) == body,
        s.subrange(4 + open_tag.len() as int + body.len() as int, s.len() as int) == open2()
            + close_tag + close2(),
    ensures
        tokenize_spec(s) == seq![classify(trim(open_tag))] + (if body.len() > 0 {
            seq![Tok::Text(body)]
        } else {
            Seq::<Tok>::empty()
        }) + seq![classify(trim(close_tag))],
{
    let m = open_tag.len() as int;
    let p = 4 + m + body.len();
    lemma_tag_at(s, 0, open_tag, 0);
    assert forall|k: int| 4 + m <= k < p implies s[k] != '{' by {
        assert(s[k] == s.subrange(4 + m, p)[k - 4 - m]);
    }
    lemma_skip_text(s, 4 + m, p, 4 + m);
    lemma_tag_at(s, p, close_tag, 4 + m);
    assert(tokens_from(s, s.len() as int, s.len() as int) =~= Seq::<Tok>::empty());
    assert(pending(s, 0, 0) =~= Seq::<Tok>::empty());
    if body.len() > 0 {
        assert(pending(s, 4 + m, p) =~= seq![Tok::Text(body)]);
    } else {
        assert(pending(s, 4 + m, p) =~= Seq::<Tok>::empty());
    }
}

proof fn lemma_section_tokens(sig: char, name: Seq<char>, body: Seq<char>)
    requires
        sig == '#' || sig == '^',
        trim(name) == name,
        forall|j: int| 0 <= j < name.len() ==> #[trigger] name[j] != '{' && name[j] != '}',
        forall|j: int| 0 <= j < body.len() ==> #[trigger] body[j] != '{',
    ensures
        tokenize_spec(section_text(sig, name, body)) == seq![section_open_tok(sig, name)] + (if body.len()
            > 0 {
            seq![Tok::Text(body)]
        } else {
            Seq::<Tok>::empty()
        }) + seq![Tok::SecClose(name)],
{
    lemma_section_layout(sig, name, body);
    lemma_no_close_brace(sig, name);
    lemma_no_close_brace('/', name);
    lemma_tokens_of_layout(section_text(sig, name, body), seq![sig] + name, seq!['/'] + name, body);
    lemma_classify_tag(sig, name);
    lemma_classify_tag('/', name);
}

proof fn lemma_render_section_tokens(
    look: spec_fn(Seq<char>) -> Option<Seq<char>>,
    t: Seq<Tok>,
    open_tok: Tok,
    name: Seq<char>,
    body: Seq<char>,
)
    requires
        open_tok == Tok::SecOpen(name) || open_tok == Tok::InvOpen(name),
        t == seq![open_tok] + (if body.len() > 0 {
            seq![Tok::Text(body)]
        } else {
            Seq::<Tok>::empty()
        }) + seq![Tok::SecClose(name)],
    ensures
        render_from(t, 0, look) == if (open_tok == Tok::SecOpen(name)) == truthy_in(look, name) {
            body
        } else {
            Seq::<char>::empty()
        },
{
    if body.len() > 0 {
        assert(t.len() == 3);
        assert(t[1] == Tok::Text(body));
        assert(t[2] == Tok::SecClose(name));
        assert(section_close(t, 2, name, 1) == 2);
        assert(section_close(t, 1, name, 1) == 2);
        assert(render_from(t, 3, look) == Seq::<char>::empty());
        assert(render_from(t, 2, look) == Seq::<char>::empty());
        assert(render_from(t, 1, look) == body + Seq::<char>::empty());
        assert(body + Seq::<char>::empty() =~= body);
        assert(Seq::<char>::empty() + Seq::<char>::empty() =~= Seq::<char>::empty());
        assert(body + Seq::<char>::empty() + Seq::<char>::empty() =~= body);
    } else {
        assert(t.len() == 2);
        assert(t[1] == Tok::SecClose(name));
        assert(section_close(t, 1, name, 1) == 1);
        assert(render_from(t, 2, look) == Seq::<char>::empty());
        assert(render_from(t, 1, look) == Seq::<char>::empty());
        assert(body =~= Seq::<char>::empty());
        assert(Seq::<char>::empty() + Seq::<char>::empty() =~= Seq::<char>::empty());
    }
}

proof fn lemma_section_renders(
    look: spec_fn(Seq<char>) -> Option<Seq<char>>,
    name: Seq<char>,
    body: Seq<char>,
    sig: char,
)
    requires
        sig == '#' || sig == '^',
        trim(name) == name,
        forall|j: int| 0 <= j < name.len() ==> #[trigger] name[j] != '{' && name[j] != '}',
        forall|j: int| 0 <= j < body.len() ==> #[trigger] body[j] != '{',
    ensures
        render_spec(section_text(sig, name, body), look) == if (sig == '#') == truthy_in(look, name) {
            body
        } else {
            Seq::<char>::empty()
        },
{
    lemma_section_tokens(sig, name, body);
    lemma_render_section_tokens(
        look,
        tokenize_spec(section_text(sig, name, body)),
        section_open_tok(sig, name),
        name,
        body,
    );
}

/// A section `{{#name}}…{{/name}}` around plain text renders that text when
/// `name` has a non-empty value and nothing otherwise; an inverted section
/// `{{^name}}…{{/name}}` does the opposite.
pub proof fn law_sections(look: spec_fn(Seq<char>) -> Option<Seq<char>>, name: Seq<char>, body: Seq<char>)
    requires
        trim(name) == name,
        forall|j: int| 0 <= j < name.len() ==> #[trigger] name[j] != '{' && name[j] != '}',
        forall|j: int| 0 <= j < body.len() ==> #[trigger] body[j] != '{',
    ensures
        render_spec(section_text('#', name, body), look) == if truthy_in(look, name) {
            body
        } else {
            Seq::<char>::empty()
        },
        render_spec(section_text('^', name, body), look) == if !truthy_in(look, name) {
            body
        } else {
            Seq::<char>::empty()
        },
{
    lemma_section_renders(look, name, body, '#');
    lemma_section_renders(look, name, body, '^');
}

/// `{{slot:name}}` inserts the slot's content as is, without escaping; a
/// slot with no content renders as nothing.
pub proof fn law_slot_placeholder(look: spec_fn(Seq<char>) -> Option<Seq<char>>, name: Seq<char>)
    requires
        trim(name) == name,
        forall|j: int| 0 <= j < name.len() ==> #[trigger] name[j] != '{' && name[j] != '}',
    ensures
        render_spec(open2() + slot_prefix() + name + close2(), look) == match look(
            slot_prefix() + name,
        ) {
            Some(v) => v,
            None => Seq::<char>::empty(),
        },
{
    let inner = slot_prefix() + name;
    lemma_slot_inner(name);
    let s = open2() + inner + close2();
    assert(s.subrange(0, 4 + inner.len() as int) =~= s);
    lemma_tag_at(s, 0, inner, 0);
    assert(inner.subrange(0, 5) =~= slot_prefix());
    assert(!has_prefix(inner, seq!['#']) && !has_prefix(inner, seq!['^']) && !has_prefix(
        inner,
        seq!['/'],
    )) by {
        assert(inner.subrange(0, 1)[0] == 's');
    }
    assert(classify(trim(inner)) == Tok::Raw(inner));
    assert(tokens_from(s, s.len() as int, s.len() as int) =~= Seq::<Tok>::empty());
    assert(pending(s, 0, 0) =~= Seq::<Tok>::empty());
    let t = tokenize_spec(s);
    assert(t =~= seq![Tok::Raw(inner)]);
    assert(render_from(t, 1, look) =~= Seq::<char>::empty());
    assert(s =~= open2() + slot_prefix() + name + close2());
    match look(inner) {
        Some(v) => {
            assert(render_from(t, 0, look) == v + Seq::<char>::empty());
            assert(v + Seq::<char>::empty() =~= v);
        },
        None => {},
    }
}

proof fn lemma_triple_tag(s: Seq<char>, inner: Seq<char>)
    requires
        inner.len() > 0,
        inner[0] != '{',
        forall|j: int| 0 <= j < inner.len() ==> inner[j] != '}',
        s == seq!['{'] + open2() + inner + close3(),
    ensures
        tokenize_spec(s) == seq![Tok::Raw(trim(inner))],
{
    let m = inner.len() as int;
    assert(s[0] == '{' && s[1] == '{' && s[2] == '{');
    assert forall|k: int| 3 <= k < 3 + m implies !occurs_at(s, close3(), k) by {
        assert(s[k] == inner[k - 3]);
        if occurs_at(s, close3(), k) {
            assert(s.subrange(k, k + 3)[0] == s[k]);
        }
    }
    assert(s.subrange(3 + m, 6 + m) =~= close3());
    crate::text::lemma_first_unique(s, close3(), 3, 3 + m);
    assert(s.subrange(3, 3 + m) =~= inner);
    assert(tokens_from(s, 6 + m, 6 + m) =~= Seq::<Tok>::empty());
    assert(pending(s, 0, 0) =~= Seq::<Tok>::empty());
}

proof fn lemma_slot_inner(name: Seq<char>)
    requires
        trim(name) == name,
        forall|j: int| 0 <= j < name.len() ==> #[trigger] name[j] != '{' && name[j] != '}',
    ensures
        trim(slot_prefix() + name) == slot_prefix() + name,
        (slot_prefix() + name)[0] == 's',
        forall|j: int| 0 <= j < (slot_prefix() + name).len() ==> (slot_prefix() + name)[j] != '}',
{
    let inner = slot_prefix() + name;
    lemma_trim_prefixed(':', name);
    lemma_trim_prefixed('t', seq![':'] + name);
    lemma_trim_prefixed('o', seq!['t'] + (seq![':'] + name));
    lemma_trim_prefixed('l', seq!['o'] + (seq!['t'] + (seq![':'] + name)));
    lemma_trim_prefixed('s', seq!['l'] + (seq!['o'] + (seq!['t'] + (seq![':'] + name))));
    assert(inner =~= seq!['s'] + (seq!['l'] + (seq!['o'] + (seq!['t'] + (seq![':'] + name)))));
    assert forall|j: int| 0 <= j < inner.len() implies inner[j] != '}' by {
        if j >= 5 {
            assert(inner[j] == name[j - 5]);
        }
    }
}

proof fn lemma_slot_lookup(ctx: Context, name: Seq<char>)
    ensures
        (ctx.lookup_fn())(slot_prefix() + name) == ctx.slot(name),
{
    let inner = slot_prefix() + name;
    assert(inner.subrange(0, 5) =~= slot_prefix());
    assert(inner.subrange(5, inner.len() as int) =~= name);
}

proof fn lemma_triple_slot_renders(look: spec_fn(Seq<char>) -> Option<Seq<char>>, name: Seq<char>)
    requires
        trim(name) == name,
        forall|j: int| 0 <= j < name.len() ==> #[trigger] name[j] != '{' && name[j] != '}',
    ensures
        render_spec(seq!['{'] + open2() + slot_prefix() + name + close3(), look) == match look(
            slot_prefix() + name,
        ) {
            Some(v) => v,
            None => Seq::<char>::empty(),
        },
{
    let inner = slot_prefix() + name;
    lemma_slot_inner(name);
    let s = seq!['{'] + open2() + inner + close3();
    assert(s =~= seq!['{'] + open2() + slot_prefix() + name + close3());
    lemma_triple_tag(s, inner);
    let t = tokenize_spec(s);
    assert(render_from(t, 1, look) =~= Seq::<char>::empty());
    match look(inner) {
        Some(v) => {
            assert(render_from(t, 0, look) == v + Seq::<char>::empty());
            assert(v + Seq::<char>::empty() =~= v);
        },
        None => {},
    }
}

/// `{{{slot:name}}}` renders exactly what `{{slot:name}}` does: the slot's
/// content as is, never a variable's value; a slot with no content renders
/// as nothing.
pub proof fn law_slot_forms(ctx: Context, name: Seq<char>)
    requires
        trim(name) == name,
        forall|j: int| 0 <= j < name.len() ==> #[trigger] name[j] != '{' && name[j] != '}',
    ensures
        render_spec(seq!['{'] + open2() + slot_prefix() + name + close3(), ctx.lookup_fn()) == match ctx.slot(
            name,
        ) {
            Some(v) => v,
            None => Seq::<char>::empty(),
        },
        render_spec(open2() + slot_prefix() + name + close2(), ctx.lookup_fn()) == match ctx.slot(
            name,
        ) {
            Some(v) => v,
            None => Seq::<char>::empty(),
        },
{
    law_slot_placeholder(ctx.lookup_fn(), name);
    lemma_triple_slot_renders(ctx.lookup_fn(), name);
    lemma_slot_lookup(ctx, name);
}

impl Default for Context {
    /// An empty context.
    fn default() -> (c: Self)
        ensures
            forall|k: Seq<char>| c.var(k) is None,
            forall|k: Seq<char>| c.slot(k) is None,
    {
        Context::new()
    }
}

} // verus!
