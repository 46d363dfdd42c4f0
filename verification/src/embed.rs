//! Export with embedded assets: local files referenced by `src="..."`,
//! `src='...'` and CSS `url(...)` are replaced by `data:` URIs, so the page
//! is a single portable file. Remote URLs, existing data URIs and anchors
//! are left as they are.
use crate::text::{find, find_exec, has_prefix, push_all, slice, to_chars, to_string, trim, trim_bounds, views};
use crate::validate::{refs_between, refs_spec};
use base64::Engine;
use vstd::prelude::*;

verus! {

// ---------------------------------------------------------------------------
// Outside calls
// ---------------------------------------------------------------------------

/// The character of the standard base64 alphabet (RFC 4648, section 4) for
/// a six-bit value.
pub open spec fn b64_digit(v: int) -> char {
    if v < 26 {
        (65 + v) as char
    } else if v < 52 {
        (97 + v - 26) as char
    } else if v < 62 {
        (48 + v - 52) as char
    } else if v == 62 {
        '+'
    } else {
        '/'
    }
}

/// Standard base64 with `=` padding: each group of three bytes becomes four
/// characters; a final group of one or two bytes is padded.
pub open spec fn base64_spec(s: Seq<u8>) -> Seq<char>
    decreases s.len(),
{
    let b0 = s[0] as int;
    let b1 = s[1] as int;
    let b2 = s[2] as int;
    if s.len() == 0 {
        seq![]
    } else if s.len() == 1 {
        seq![b64_digit(b0 / 4), b64_digit((b0 % 4) * 16), '=', '=']
    } else if s.len() == 2 {
        seq![b64_digit(b0 / 4), b64_digit((b0 % 4) * 16 + b1 / 16), b64_digit((b1 % 16) * 4), '=']
    } else {
        seq![
            b64_digit(b0 / 4),
            b64_digit((b0 % 4) * 16 + b1 / 16),
            b64_digit((b1 % 16) * 4 + b2 / 64),
            b64_digit(b2 % 64),
        ] + base64_spec(s.subrange(3, s.len() as int))
    }
}

/// `base64::engine::general_purpose::STANDARD.encode`: the standard alphabet
/// with padding. The crate computes the output length with checked
/// arithmetic and panics when it overflows, so the input is bounded.
#[verifier::external_body]
fn encode_base64(bytes: &[u8]) -> (r: String)
    requires
        bytes@.len() <= usize::MAX / 2,
    ensures
        r@ == base64_spec(bytes@),
{
    base64::engine::general_purpose::STANDARD.encode(bytes)
}

/// The MIME type `mime_guess` gives a path, from its extension by the
/// crate's table; `application/octet-stream` where the table has none.
pub uninterp spec fn guessed_mime(path: Seq<char>) -> Seq<char>;

/// `mime_guess::from_path(path).first_or_octet_stream()`, written out. The
/// contract only names the result: the extension table is not restated.
#[verifier::external_body]
pub(crate) fn mime_for_path(path: &str) -> (r: String)
    ensures
        r@ == guessed_mime(path@),
{
    mime_guess::from_path(path).first_or_octet_stream().to_string()
}

// ---------------------------------------------------------------------------
// Which references are embedded
// ---------------------------------------------------------------------------

/// The files available for embedding, by path relative to the deck.
pub open spec fn file_views(files: Seq<(String, Vec<u8>)>) -> Seq<(Seq<char>, Seq<u8>)> {
    files.map_values(|p: (String, Vec<u8>)| (p.0@, p.1@))
}

/// `i` is the first file at `path`.
pub open spec fn first_at(fs: Seq<(Seq<char>, Seq<u8>)>, path: Seq<char>, i: int) -> bool {
    &&& 0 <= i < fs.len()
    &&& fs[i].0 == path
    &&& forall|j: int| 0 <= j < i ==> (#[trigger] fs[j]).0 != path
}

/// Contents of the first file at `path`.
pub open spec fn file_bytes(fs: Seq<(Seq<char>, Seq<u8>)>, path: Seq<char>) -> Option<Seq<u8>> {
    if exists|i: int| first_at(fs, path, i) {
        Some(fs[choose|i: int| first_at(fs, path, i)].1)
    } else {
        None
    }
}

/// The file a reference points at, relative to the deck (a leading `./`
/// dropped), or `None` for an empty reference, a `data:` URI, an `http`,
/// `https` or protocol-relative URL, or an anchor.
pub open spec fn asset_target(raw: Seq<char>) -> Option<Seq<char>> {
    let p = trim(raw);
    if p.len() == 0 || has_prefix(p, "data:"@) || has_prefix(p, "http://"@) || has_prefix(
        p,
        "https://"@,
    ) || has_prefix(p, "//"@) || has_prefix(p, seq!['#']) {
        None
    } else if has_prefix(p, "./"@) {
        Some(p.subrange(2, p.len() as int))
    } else {
        Some(p)
    }
}

/// `data:<mime>;base64,<contents>` for the file a reference points at, or
/// `None` where the reference is not local or the file is not available.
pub open spec fn data_uri_for(raw: Seq<char>, fs: Seq<(Seq<char>, Seq<u8>)>) -> Option<Seq<char>> {
    match asset_target(raw) {
        None => None,
        Some(rel) => match file_bytes(fs, rel) {
            None => None,
            Some(b) => Some("data:"@ + guessed_mime(rel) + ";base64,"@ + base64_spec(b)),
        },
    }
}

/// The inner text of `url(...)` starts with a quote.
pub open spec fn starts_quoted(inner: Seq<char>) -> bool {
    inner.len() > 0 && (inner[0] == '"' || inner[0] == '\'')
}

/// The reference inside `url(...)`: trimmed, and without its first and last
/// character when it starts with a quote.
pub open spec fn css_value(raw: Seq<char>) -> Seq<char> {
    let inner = trim(raw);
    if starts_quoted(inner) && inner.len() >= 2 {
        inner.subrange(1, inner.len() - 1)
    } else {
        inner
    }
}

/// The reference a pass looks at: the whole attribute value, or the value
/// inside `url(...)`.
pub open spec fn ref_value(raw: Seq<char>, css: bool) -> Seq<char> {
    if css {
        css_value(raw)
    } else {
        raw
    }
}

/// What the text `raw` between a marker and its closing character becomes.
#[verifier::opaque]
pub open spec fn replacement(raw: Seq<char>, fs: Seq<(Seq<char>, Seq<u8>)>, css: bool) -> Seq<char> {
    match data_uri_for(ref_value(raw, css), fs) {
        Some(u) => if css && starts_quoted(trim(raw)) {
            seq!['"'] + u + seq!['"']
        } else {
            u
        },
        None => raw,
    }
}

/// One embedding pass over `s`: each text between `marker` and the next
/// `close` after it is replaced; the rest is copied.
pub open spec fn rewrite_spec(
    s: Seq<char>,
    marker: Seq<char>,
    close: char,
    fs: Seq<(Seq<char>, Seq<u8>)>,
    css: bool,
) -> Seq<char>
    decreases s.len(),
{
    if marker.len() == 0 {
        s
    } else {
        match find(s, marker) {
            None => s,
            Some(p) => {
                proof {
                    crate::text::lemma_find_some(s, marker, 0);
                }
                let a = p + marker.len();
                let after = s.subrange(a, s.len() as int);
                match find(after, seq![close]) {
                    None => s,
                    Some(e) => {
                        proof {
                            crate::text::lemma_find_some(after, seq![close], 0);
                        }
                        s.subrange(0, a) + replacement(after.subrange(0, e), fs, css)
                            + rewrite_spec(after.subrange(e, after.len() as int), marker, close, fs, css)
                    },
                }
            },
        }
    }
}

/// `src="`
pub open spec fn src_dq() -> Seq<char> {
    "src=\""@
}

/// `src='`
pub open spec fn src_sq() -> Seq<char> {
    "src='"@
}

/// `url(`
pub open spec fn url_open() -> Seq<char> {
    "url("@
}

/// The three passes: double-quoted `src`, single-quoted `src`, CSS `url()`.
pub open spec fn embed_spec(html: Seq<char>, fs: Seq<(Seq<char>, Seq<u8>)>) -> Seq<char> {
    rewrite_spec(
        rewrite_spec(rewrite_spec(html, src_dq(), '"', fs, false), src_sq(), '\'', fs, false),
        url_open(),
        ')',
        fs,
        true,
    )
}

/// The files a pass would embed, relative to the deck, in order.
pub open spec fn targets_of(vals: Seq<Seq<char>>, css: bool) -> Seq<Seq<char>>
    decreases vals.len(),
{
    if vals.len() == 0 {
        seq![]
    } else {
        targets_of(vals.drop_last(), css) + match asset_target(ref_value(vals.last(), css)) {
            Some(t) => seq![t],
            None => seq![],
        }
    }
}

/// All file contents fit the base64 encoder.
pub open spec fn encodable(fs: Seq<(Seq<char>, Seq<u8>)>) -> bool {
    forall|i: int| 0 <= i < fs.len() ==> (#[trigger] fs[i]).1.len() <= usize::MAX / 2
}

// ---------------------------------------------------------------------------
// Executable
// ---------------------------------------------------------------------------

fn has_prefix_exec(v: &[char], p: &str) -> (b: bool)
    ensures
        b == has_prefix(v@, p@),
{
    let pc = to_chars(p);
    assert(v@.subrange(0, v@.len() as int) =~= v@);
    crate::text::starts_with_at(v, 0, v.len(), pc.as_slice())
}

/// The file a reference points at, relative to the deck, when it is local.
pub fn asset_target_exec(raw: &[char]) -> (r: Option<Vec<char>>)
    ensures
        match r {
            Some(t) => asset_target(raw@) == Some(t@),
            None => asset_target(raw@) is None,
        },
{
    let (a, e) = trim_bounds(raw, 0, raw.len());
    assert(raw@.subrange(0, raw@.len() as int) =~= raw@);
    let p = slice(raw, a, e);
    let hash: Vec<char> = vec!['#'];
    assert(hash@ =~= seq!['#']);
    assert(p@.subrange(0, p@.len() as int) =~= p@);
    if p.len() == 0 || has_prefix_exec(p.as_slice(), "data:") || has_prefix_exec(
        p.as_slice(),
        "http://",
    ) || has_prefix_exec(p.as_slice(), "https://") || has_prefix_exec(p.as_slice(), "//")
        || crate::text::starts_with_at(p.as_slice(), 0, p.len(), hash.as_slice()) {
        None
    } else if has_prefix_exec(p.as_slice(), "./") {
        proof {
            reveal_strlit("./");
        }
        Some(slice(p.as_slice(), 2, p.len()))
    } else {
        Some(p)
    }
}

fn lookup_bytes<'a>(files: &'a [(String, Vec<u8>)], rel: &[char]) -> (r: Option<&'a Vec<u8>>)
    ensures
        match r {
            Some(b) => file_bytes(file_views(files@), rel@) == Some(b@),
            None => file_bytes(file_views(files@), rel@) is None,
        },
{
    let ghost fs = file_views(files@);
    let mut i: usize = 0;
    while i < files.len()
        invariant
            fs == file_views(files@),
            0 <= i <= fs.len(),
            forall|j: int| 0 <= j < i ==> (#[trigger] fs[j]).0 != rel@,
        decreases fs.len() - i,
    {
        assert(fs[i as int].0 == files@[i as int].0@);
        if crate::text::chars_eq(to_chars(files[i].0.as_str()).as_slice(), rel) {
            proof {
                assert(first_at(fs, rel@, i as int));
                let c = choose|k: int| first_at(fs, rel@, k);
                if c < i {
                    assert(fs[c].0 != rel@);
                } else if i < c {
                    assert(fs[i as int].0 != rel@);
                }
            }
            return Some(&files[i].1);
        }
        i = i + 1;
    }
    None
}

fn data_uri_exec(raw: &[char], files: &[(String, Vec<u8>)]) -> (r: Option<Vec<char>>)
    requires
        encodable(file_views(files@)),
    ensures
        match r {
            Some(u) => data_uri_for(raw@, file_views(files@)) == Some(u@),
            None => data_uri_for(raw@, file_views(files@)) is None,
        },
{
    let rel = match asset_target_exec(raw) {
        None => return None,
        Some(rel) => rel,
    };
    let bytes = match lookup_bytes(files, rel.as_slice()) {
        None => return None,
        Some(b) => b,
    };
    proof {
        let fs = file_views(files@);
        let c = choose|k: int| first_at(fs, rel@, k);
        assert(fs[c].1.len() <= usize::MAX / 2);
    }
    let mime = mime_for_path(to_string(rel.as_slice()).as_str());
    let b64 = encode_base64(bytes.as_slice());
    let mut out = to_chars("data:");
    push_all(&mut out, to_chars(mime.as_str()).as_slice());
    push_all(&mut out, to_chars(";base64,").as_slice());
    push_all(&mut out, to_chars(b64.as_str()).as_slice());
    Some(out)
}

fn replacement_exec(raw: &[char], files: &[(String, Vec<u8>)], css: bool) -> (r: Vec<char>)
    requires
        encodable(file_views(files@)),
    ensures
        r@ == replacement(raw@, file_views(files@), css),
{
    reveal(replacement);
    if css {
        let (a, e) = trim_bounds(raw, 0, raw.len());
        assert(raw@.subrange(0, raw@.len() as int) =~= raw@);
        let quoted = e > a && (raw[a] == '"' || raw[a] == '\'');
        let inner = slice(raw, a, e);
        let value = if quoted && e - a >= 2 {
            slice(raw, a + 1, e - 1)
        } else {
            slice(raw, a, e)
        };
        assert(value@ == css_value(raw@)) by {
            if quoted && e - a >= 2 {
                assert(inner@.subrange(1, inner@.len() - 1) =~= raw@.subrange(a + 1, e - 1));
            }
        }
        match data_uri_exec(value.as_slice(), files) {
            Some(u) => {
                if quoted {
                    let mut out: Vec<char> = vec!['"'];
                    push_all(&mut out, u.as_slice());
                    out.push('"');
                    assert(out@ =~= seq!['"'] + u@ + seq!['"']);
                    out
                } else {
                    u
                }
            },
            None => slice(raw, 0, raw.len()),
        }
    } else {
        match data_uri_exec(raw, files) {
            Some(u) => u,
            None => slice(raw, 0, raw.len()),
        }
    }
}

fn rewrite_pass(s: &[char], marker: &[char], close: char, files: &[(String, Vec<u8>)], css: bool) -> (r: Vec<char>)
    requires
        marker@.len() > 0,
        encodable(file_views(files@)),
    ensures
        r@ == rewrite_spec(s@, marker@, close, file_views(files@), css),
{
    let ghost fs = file_views(files@);
    let n = s.len();
    let cl: Vec<char> = vec![close];
    assert(cl@ =~= seq![close]);
    let mut out: Vec<char> = Vec::new();
    let mut pos: usize = 0;
    assert(s@.subrange(0, n as int) =~= s@);
    loop
        invariant
            n == s@.len(),
            marker@.len() > 0,
            cl@ == seq![close],
            fs == file_views(files@),
            encodable(fs),
            0 <= pos <= n,
            out@ + rewrite_spec(s@.subrange(pos as int, n as int), marker@, close, fs, css)
                == rewrite_spec(s@, marker@, close, fs, css),
        decreases n - pos,
    {
        let ghost rest = s@.subrange(pos as int, n as int);
        let ghost before = out@;
        proof {
            crate::text::lemma_find_shift(s@, marker@, pos as int);
        }
        match find_exec(s, marker, pos) {
            None => {
                crate::text::push_range(&mut out, s, pos, n);
                return out;
            },
            Some(p) => {
                let a = p + marker.len();
                let ghost after = rest.subrange(p - pos + marker@.len(), rest.len() as int);
                assert(after =~= s@.subrange(a as int, n as int));
                proof {
                    crate::text::lemma_find_shift(s@, cl@, a as int);
                }
                match find_exec(s, cl.as_slice(), a) {
                    None => {
                        crate::text::push_range(&mut out, s, pos, n);
                        return out;
                    },
                    Some(e) => {
                        crate::text::push_range(&mut out, s, pos, a);
                        let raw = slice(s, a, e);
                        let rep = replacement_exec(raw.as_slice(), files, css);
                        push_all(&mut out, rep.as_slice());
                        proof {
                            assert(rest.subrange(0, a - pos) =~= s@.subrange(pos as int, a as int));
                            assert(after.subrange(0, e - a) =~= s@.subrange(a as int, e as int));
                            assert(after.subrange(e - a, after.len() as int) =~= s@.subrange(
                                e as int,
                                n as int,
                            ));
                            assert(before + rewrite_spec(rest, marker@, close, fs, css) =~= out@
                                + rewrite_spec(s@.subrange(e as int, n as int), marker@, close, fs, css));
                        }
                        pos = e;
                    },
                }
            },
        }
    }
}

/// Replaces each value between `marker` and the next `close` by the data
/// URI of the local file it names, where `files` has that file.
pub fn rewrite_attr(input: &str, marker: &str, close: char, files: &[(String, Vec<u8>)]) -> (r: String)
    requires
        encodable(file_views(files@)),
    ensures
        r@ == rewrite_spec(input@, marker@, close, file_views(files@), false),
{
    let m = to_chars(marker);
    if m.len() == 0 {
        return String::from_str(input);
    }
    let out = rewrite_pass(to_chars(input).as_slice(), m.as_slice(), close, files, false);
    to_string(out.as_slice())
}

/// Replaces `url(...)` references (with optional quotes) by data URIs.
pub fn rewrite_css_urls(input: &str, files: &[(String, Vec<u8>)]) -> (r: String)
    requires
        encodable(file_views(files@)),
    ensures
        r@ == rewrite_spec(input@, url_open(), ')', file_views(files@), true),
{
    let m = to_chars("url(");
    proof {
        reveal_strlit("url(");
    }
    let out = rewrite_pass(to_chars(input).as_slice(), m.as_slice(), ')', files, true);
    to_string(out.as_slice())
}

/// Inlines every local asset that `files` holds into the exported page.
pub fn embed_assets(html: &str, files: &[(String, Vec<u8>)]) -> (r: String)
    requires
        encodable(file_views(files@)),
    ensures
        r@ == embed_spec(html@, file_views(files@)),
{
    proof {
        reveal_strlit("src=\"");
        reveal_strlit("src='");
    }
    let h1 = rewrite_attr(html, "src=\"", '"', files);
    let h2 = rewrite_attr(h1.as_str(), "src='", '\'', files);
    rewrite_css_urls(h2.as_str(), files)
}

/// The files a pass over `input` would embed, relative to the deck: what an
/// exporter reads before running that pass.
pub fn embed_targets(input: &str, marker: &str, close: char, css: bool) -> (r: Vec<String>)
    ensures
        crate::theme::string_views(r@) == targets_of(refs_spec(input@, marker@, close), css),
{
    let m = to_chars(marker);
    let mut vals: Vec<Vec<char>> = Vec::new();
    if m.len() > 0 {
        refs_between(to_chars(input).as_slice(), m.as_slice(), close, &mut vals);
    }
    assert(views(vals@) =~= refs_spec(input@, marker@, close));
    let mut out: Vec<String> = Vec::new();
    let mut i: usize = 0;
    while i < vals.len()
        invariant
            0 <= i <= vals@.len(),
            views(vals@) == refs_spec(input@, marker@, close),
            crate::theme::string_views(out@) == targets_of(views(vals@).take(i as int), css),
        decreases vals@.len() - i,
    {
        let v = &vals[i];
        let value = if css {
            let (a, e) = trim_bounds(v.as_slice(), 0, v.len());
            assert(v@.subrange(0, v@.len() as int) =~= v@);
            let quoted = e > a && (v[a] == '"' || v[a] == '\'');
            if quoted && e - a >= 2 {
                let w = slice(v.as_slice(), a + 1, e - 1);
                assert(w@ =~= trim(v@).subrange(1, trim(v@).len() - 1));
                w
            } else {
                slice(v.as_slice(), a, e)
            }
        } else {
            slice(v.as_slice(), 0, v.len())
        };
        assert(value@ == ref_value(v@, css));
        let ghost prev = crate::theme::string_views(out@);
        match asset_target_exec(value.as_slice()) {
            Some(t) => {
                out.push(to_string(t.as_slice()));
            },
            None => {},
        }
        assert(views(vals@).take(i + 1).drop_last() =~= views(vals@).take(i as int));
        assert(crate::theme::string_views(out@) =~= targets_of(views(vals@).take(i + 1), css));
        i = i + 1;
    }
    assert(views(vals@).take(vals@.len() as int) =~= views(vals@));
    out
}

/// Embedding changes nothing when no file is available.
pub proof fn law_no_files_no_change(
    s: Seq<char>,
    marker: Seq<char>,
    close: char,
    css: bool,
)
    ensures
        rewrite_spec(s, marker, close, seq![], css) == s,
    decreases s.len(),
{
    if marker.len() > 0 {
        match find(s, marker) {
            None => {},
            Some(p) => {
                crate::text::lemma_find_some(s, marker, 0);
                let a = p + marker.len();
                let after = s.subrange(a, s.len() as int);
                match find(after, seq![close]) {
                    None => {},
                    Some(e) => {
                        crate::text::lemma_find_some(after, seq![close], 0);
                        let raw = after.subrange(0, e);
                        reveal(replacement);
                        assert(file_bytes(seq![], asset_target(ref_value(raw, css)).unwrap_or(seq![])) is None);
                        assert(data_uri_for(ref_value(raw, css), seq![]) is None);
                        law_no_files_no_change(after.subrange(e, after.len() as int), marker, close, css);
                        assert(s.subrange(0, a) + raw + after.subrange(e, after.len() as int) =~= s);
                    },
                }
            },
        }
    }
}

proof fn lemma_single_url(q: char, f: Seq<char>)
    requires
        q != ')',
        forall|j: int| 0 <= j < f.len() ==> #[trigger] f[j] != ')',
    ensures
        ({
            let s = url_open() + seq![q] + f + seq![q] + seq![')'];
            let after = s.subrange(4, s.len() as int);
            &&& find(s, url_open()) == Some(0int)
            &&& after == seq![q] + f + seq![q] + seq![')']
            &&& find(after, seq![')']) == Some(f.len() as int + 2)
            &&& after.subrange(0, f.len() as int + 2) == seq![q] + f + seq![q]
            &&& after.subrange(f.len() as int + 2, after.len() as int) == seq![')']
            &&& find(seq![')'], url_open()) is None
        }),
{
    reveal_strlit("url(");
    let s = url_open() + seq![q] + f + seq![q] + seq![')'];
    assert(s.subrange(0, 4) =~= url_open());
    crate::text::lemma_first_unique(s, url_open(), 0, 0);
    let inner = seq![q] + f + seq![q];
    let after = s.subrange(4, s.len() as int);
    assert(after =~= inner + seq![')']);
    let m = f.len() as int + 2;
    assert forall|k: int| 0 <= k < m implies !crate::text::occurs_at(after, seq![')'], k) by {
        if crate::text::occurs_at(after, seq![')'], k) {
            assert(after.subrange(k, k + 1)[0] == after[k]);
            if k > 0 && k < m - 1 {
                assert(after[k] == f[k - 1]);
            }
        }
    }
    assert(after.subrange(m, m + 1) =~= seq![')']);
    crate::text::lemma_first_unique(after, seq![')'], 0, m);
    assert(after.subrange(0, m) =~= inner);
    assert(after.subrange(m, after.len() as int) =~= seq![')']);
    crate::text::lemma_none_found(seq![')'], url_open(), 0);
}

/// A CSS `url()` embeds the same way with double or single quotes: for a
/// file `f` the bundle holds, `url("f")` and `url('f')` both become
/// `url("data:<mime>;base64,<contents>")`, and `f` (without its quotes) is
/// the file an exporter reads for it.
pub proof fn law_css_url_quotes(q: char, f: Seq<char>, fs: Seq<(Seq<char>, Seq<u8>)>, b: Seq<u8>)
    requires
        q == '"' || q == '\'',
        asset_target(f) == Some(f),
        file_bytes(fs, f) == Some(b),
        forall|j: int| 0 <= j < f.len() ==> #[trigger] f[j] != ')',
    ensures
        rewrite_spec(url_open() + seq![q] + f + seq![q] + seq![')'], url_open(), ')', fs, true)
            == url_open() + seq!['"'] + "data:"@ + guessed_mime(f) + ";base64,"@ + base64_spec(b)
            + seq!['"'] + seq![')'],
        targets_of(refs_spec(url_open() + seq![q] + f + seq![q] + seq![')'], url_open(), ')'), true)
            == seq![f],
{
    reveal_strlit("url(");
    lemma_single_url(q, f);
    let s = url_open() + seq![q] + f + seq![q] + seq![')'];
    let raw = seq![q] + f + seq![q];
    assert(raw[0] == q && raw.last() == q);
    crate::text::lemma_trim_padded(Seq::<char>::empty(), raw);
    assert(Seq::<char>::empty() + raw =~= raw);
    assert(raw.subrange(1, raw.len() - 1) =~= f);
    assert(css_value(raw) == f);
    assert(starts_quoted(trim(raw)));
    let u = "data:"@ + guessed_mime(f) + ";base64,"@ + base64_spec(b);
    assert(data_uri_for(f, fs) == Some(u));
    reveal(replacement);
    assert(replacement(raw, fs, true) == seq!['"'] + u + seq!['"']);
    assert(rewrite_spec(seq![')'], url_open(), ')', fs, true) == seq![')']);
    assert(s.subrange(0, 4) =~= url_open());
    assert(rewrite_spec(s, url_open(), ')', fs, true) =~= url_open() + seq!['"'] + u + seq!['"']
        + seq![')']);
    let vals = refs_spec(s, url_open(), ')');
    assert(refs_spec(seq![')'], url_open(), ')') =~= Seq::<Seq<char>>::empty());
    assert(vals =~= seq![raw]);
    assert(vals.drop_last() =~= Seq::<Seq<char>>::empty());
    assert(ref_value(raw, true) == f);
    assert(vals.last() == raw);
    assert(targets_of(vals.drop_last(), true) =~= Seq::<Seq<char>>::empty());
    assert(targets_of(vals, true) =~= seq![f]);
}

} // verus!
