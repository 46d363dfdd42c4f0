//! Character-sequence helpers shared by every parser in the crate.
//!
//! Text is modelled as `Seq<char>`. The spec functions here give the meaning
//! of the string operations the parsers rely on (`trim`, `find`,
//! `starts_with`, line splitting); the executable functions work on
//! `Vec<char>` and are proved against them.
use vstd::prelude::*;

verus! {

// ---------------------------------------------------------------------------
// Specifications
// ---------------------------------------------------------------------------

/// Unicode `White_Space`, the property that `char::is_whitespace` and
/// `str::trim` use.
pub open spec fn is_ws(c: char) -> bool {
    ||| ('\u{9}' <= c && c <= '\u{d}')
    ||| c == ' '
    ||| c == '\u{85}'
    ||| c == '\u{a0}'
    ||| c == '\u{1680}'
    ||| ('\u{2000}' <= c && c <= '\u{200a}')
    ||| c == '\u{2028}'
    ||| c == '\u{2029}'
    ||| c == '\u{202f}'
    ||| c == '\u{205f}'
    ||| c == '\u{3000}'
}

/// `k` is where the leading whitespace of `s` ends.
pub open spec fn is_lead(s: Seq<char>, k: int) -> bool {
    &&& 0 <= k <= s.len()
    &&& forall|j: int| 0 <= j < k ==> is_ws(#[trigger] s[j])
    &&& k < s.len() ==> !is_ws(s[k])
}

/// `k` is where the trailing whitespace of `s` starts.
pub open spec fn is_trail(s: Seq<char>, k: int) -> bool {
    &&& 0 <= k <= s.len()
    &&& forall|j: int| k <= j < s.len() ==> is_ws(#[trigger] s[j])
    &&& k > 0 ==> !is_ws(s[k - 1])
}

pub open spec fn lead(s: Seq<char>) -> int {
    choose|k: int| is_lead(s, k)
}

pub open spec fn trail(s: Seq<char>) -> int {
    choose|k: int| is_trail(s, k)
}

/// `str::trim_start`.
pub open spec fn trim_start(s: Seq<char>) -> Seq<char> {
    s.subrange(lead(s), s.len() as int)
}

/// `str::trim_end`.
pub open spec fn trim_end(s: Seq<char>) -> Seq<char> {
    s.subrange(0, trail(s))
}

/// `str::trim`.
pub open spec fn trim(s: Seq<char>) -> Seq<char> {
    trim_end(trim_start(s))
}

/// `s` starts with `p`.
pub open spec fn has_prefix(s: Seq<char>, p: Seq<char>) -> bool {
    p.len() <= s.len() && s.subrange(0, p.len() as int) == p
}

/// `s` ends with `p`.
pub open spec fn has_suffix(s: Seq<char>, p: Seq<char>) -> bool {
    p.len() <= s.len() && s.subrange(s.len() - p.len(), s.len() as int) == p
}

/// `p` occurs in `s` at position `i`.
pub open spec fn occurs_at(s: Seq<char>, p: Seq<char>, i: int) -> bool {
    0 <= i && i + p.len() <= s.len() && s.subrange(i, i + p.len()) == p
}

/// `j` is the first position at or after `i` where `p` occurs in `s`.
pub open spec fn is_first_at(s: Seq<char>, p: Seq<char>, i: int, j: int) -> bool {
    &&& i <= j
    &&& occurs_at(s, p, j)
    &&& forall|k: int| i <= k < j ==> !occurs_at(s, p, k)
}

/// `s[i..].find(p)`, as a position in `s`.
pub open spec fn find_from(s: Seq<char>, p: Seq<char>, i: int) -> Option<int> {
    if exists|j: int| is_first_at(s, p, i, j) {
        Some(choose|j: int| is_first_at(s, p, i, j))
    } else {
        None
    }
}

/// `s.find(p)`.
pub open spec fn find(s: Seq<char>, p: Seq<char>) -> Option<int> {
    find_from(s, p, 0)
}

/// `s.contains(p)`.
pub open spec fn contains(s: Seq<char>, p: Seq<char>) -> bool {
    exists|j: int| occurs_at(s, p, j)
}

/// A line as `str::lines` yields it: one trailing `'\r'` is dropped.
pub open spec fn strip_cr(l: Seq<char>) -> Seq<char> {
    if l.len() > 0 && l.last() == '\r' {
        l.drop_last()
    } else {
        l
    }
}

/// `str::lines`: split at `'\n'`; the last line ending is optional and a
/// final line without one keeps a trailing `'\r'`.
pub open spec fn lines(s: Seq<char>) -> Seq<Seq<char>>
    decreases s.len(),
{
    if s.len() == 0 {
        seq![]
    } else if exists|j: int| is_first_at(s, seq!['\n'], 0, j) {
        let k = choose|j: int| is_first_at(s, seq!['\n'], 0, j);
        seq![strip_cr(s.subrange(0, k))] + lines(s.subrange(k + 1, s.len() as int))
    } else {
        seq![s]
    }
}

/// `str::split(sep)` for a non-empty separator.
pub open spec fn split(s: Seq<char>, sep: Seq<char>) -> Seq<Seq<char>>
    decreases s.len(),
{
    if sep.len() > 0 && exists|j: int| is_first_at(s, sep, 0, j) {
        let k = choose|j: int| is_first_at(s, sep, 0, j);
        seq![s.subrange(0, k)] + split(s.subrange(k + sep.len(), s.len() as int), sep)
    } else {
        seq![s]
    }
}

/// The character sequences held by a list of vectors.
pub open spec fn views(v: Seq<Vec<char>>) -> Seq<Seq<char>> {
    v.map_values(|x: Vec<char>| x@)
}

/// `parts.join(sep)`.
pub open spec fn join(parts: Seq<Seq<char>>, sep: Seq<char>) -> Seq<char>
    decreases parts.len(),
{
    if parts.len() == 0 {
        seq![]
    } else if parts.len() == 1 {
        parts[0]
    } else {
        join(parts.drop_last(), sep) + sep + parts.last()
    }
}

// ---------------------------------------------------------------------------
// Lemmas
// ---------------------------------------------------------------------------

pub proof fn lemma_lead_exists(s: Seq<char>)
    ensures
        is_lead(s, lead(s)),
    decreases s.len(),
{
    if s.len() == 0 {
        assert(is_lead(s, 0));
    } else if !is_ws(s[0]) {
        assert(is_lead(s, 0));
    } else {
        let t = s.drop_first();
        lemma_lead_exists(t);
        let k = lead(t);
        assert forall|j: int| 0 <= j < k + 1 implies is_ws(#[trigger] s[j]) by {
            if j > 0 {
                assert(s[j] == t[j - 1]);
            }
        }
        if k + 1 < s.len() {
            assert(s[k + 1] == t[k]);
        }
        assert(is_lead(s, k + 1));
    }
}

pub proof fn lemma_lead_unique(s: Seq<char>, k: int)
    requires
        is_lead(s, k),
    ensures
        lead(s) == k,
{
    lemma_lead_exists(s);
    let c = lead(s);
    if c < k {
        assert(is_ws(s[c]));
    } else if k < c {
        assert(is_ws(s[k]));
    }
}

pub proof fn lemma_trail_exists(s: Seq<char>)
    ensures
        is_trail(s, trail(s)),
    decreases s.len(),
{
    if s.len() == 0 {
        assert(is_trail(s, 0));
    } else if !is_ws(s.last()) {
        assert(is_trail(s, s.len() as int));
    } else {
        let t = s.drop_last();
        lemma_trail_exists(t);
        let k = trail(t);
        assert forall|j: int| k <= j < s.len() implies is_ws(#[trigger] s[j]) by {
            if j < s.len() - 1 {
                assert(s[j] == t[j]);
            }
        }
        if k > 0 {
            assert(s[k - 1] == t[k - 1]);
        }
        assert(is_trail(s, k));
    }
}

pub proof fn lemma_trail_unique(s: Seq<char>, k: int)
    requires
        is_trail(s, k),
    ensures
        trail(s) == k,
{
    lemma_trail_exists(s);
    let c = trail(s);
    if c < k {
        assert(is_ws(s[k - 1]));
    } else if k < c {
        assert(is_ws(s[c - 1]));
    }
}

/// Trimming drops a whitespace-only `pad` before text that starts and ends
/// with a non-whitespace character.
pub proof fn lemma_trim_padded(pad: Seq<char>, x: Seq<char>)
    requires
        x.len() > 0,
        !is_ws(x[0]),
        !is_ws(x.last()),
        forall|j: int| 0 <= j < pad.len() ==> #[trigger] is_ws(pad[j]),
    ensures
        trim(pad + x) == x,
{
    let s = pad + x;
    assert forall|j: int| 0 <= j < pad.len() implies is_ws(#[trigger] s[j]) by {
        assert(s[j] == pad[j]);
    }
    assert(s[pad.len() as int] == x[0]);
    assert(is_lead(s, pad.len() as int));
    lemma_lead_unique(s, pad.len() as int);
    let t = trim_start(s);
    assert(t =~= x);
    assert(is_trail(t, t.len() as int));
    lemma_trail_unique(t, t.len() as int);
    assert(trim_end(t) =~= t);
}

/// Trimming empty text gives empty text.
pub proof fn lemma_trim_empty()
    ensures
        trim(Seq::<char>::empty()) == Seq::<char>::empty(),
{
    let e = Seq::<char>::empty();
    assert(is_lead(e, 0));
    lemma_lead_unique(e, 0);
    assert(trim_start(e) =~= e);
    assert(is_trail(e, 0));
    lemma_trail_unique(e, 0);
}

/// Text without a line feed is one line.
pub proof fn lemma_single_line(s: Seq<char>)
    requires
        s.len() > 0,
        forall|j: int| 0 <= j < s.len() ==> #[trigger] s[j] != '\n',
    ensures
        lines(s) == seq![s],
{
    assert forall|j: int| !is_first_at(s, seq!['\n'], 0, j) by {
        if is_first_at(s, seq!['\n'], 0, j) {
            assert(s.subrange(j, j + 1)[0] == s[j]);
        }
    }
}

pub proof fn lemma_first_unique(s: Seq<char>, p: Seq<char>, i: int, j: int)
    requires
        is_first_at(s, p, i, j),
    ensures
        find_from(s, p, i) == Some(j),
{
    let c = choose|j: int| is_first_at(s, p, i, j);
    assert(is_first_at(s, p, i, c));
    if c < j {
        assert(!occurs_at(s, p, c));
    } else if j < c {
        assert(!occurs_at(s, p, j));
    }
}

pub proof fn lemma_none_found(s: Seq<char>, p: Seq<char>, i: int)
    requires
        forall|j: int| i <= j ==> !occurs_at(s, p, j),
    ensures
        find_from(s, p, i) == None::<int>,
{
}

/// A found position really is an occurrence, and the first one.
pub proof fn lemma_find_some(s: Seq<char>, p: Seq<char>, i: int)
    requires
        find_from(s, p, i) is Some,
    ensures
        is_first_at(s, p, i, find_from(s, p, i)->0),
{
}

/// Nothing is found exactly when `p` does not occur at or after `i`.
pub proof fn lemma_find_none(s: Seq<char>, p: Seq<char>, i: int)
    requires
        find_from(s, p, i) is None,
    ensures
        forall|j: int| i <= j ==> !occurs_at(s, p, j),
{
    assert forall|j: int| i <= j implies !occurs_at(s, p, j) by {
        if occurs_at(s, p, j) {
            lemma_first_exists(s, p, i, j);
        }
    }
}

/// If `p` occurs at some `j >= i`, there is a first occurrence at or after `i`.
pub proof fn lemma_first_exists(s: Seq<char>, p: Seq<char>, i: int, j: int)
    requires
        i <= j,
        occurs_at(s, p, j),
    ensures
        exists|k: int| is_first_at(s, p, i, k),
    decreases j - i,
{
    if forall|k: int| i <= k < j ==> !occurs_at(s, p, k) {
        assert(is_first_at(s, p, i, j));
    } else {
        let k = choose|k: int| i <= k < j && occurs_at(s, p, k);
        lemma_first_exists(s, p, i, k);
    }
}

// ---------------------------------------------------------------------------
// Executable helpers
// ---------------------------------------------------------------------------

/// `String::push`: appends one character.
#[verifier::external_body]
pub fn push_char(s: &mut String, c: char)
    ensures
        final(s)@ == old(s)@.push(c),
{
    s.push(c);
}

/// The characters of `s`, in order.
pub fn to_chars(s: &str) -> (v: Vec<char>)
    ensures
        v@ == s@,
{
    let mut v: Vec<char> = Vec::new();
    for c in it: s.chars()
        invariant
            v@ == it.seq().take(it.index() as int),
    {
        v.push(c);
    }
    v
}

/// A `String` holding exactly the characters `v`.
pub fn to_string(v: &[char]) -> (s: String)
    ensures
        s@ == v@,
{
    let mut s = String::new();
    let mut i: usize = 0;
    while i < v.len()
        invariant
            0 <= i <= v@.len(),
            s@ == v@.subrange(0, i as int),
        decreases v@.len() - i,
    {
        push_char(&mut s, v[i]);
        i = i + 1;
        assert(s@ =~= v@.subrange(0, i as int));
    }
    assert(v@.subrange(0, v@.len() as int) =~= v@);
    s
}

/// Appends `v[lo..hi]` to `out`.
pub fn push_range(out: &mut Vec<char>, v: &[char], lo: usize, hi: usize)
    requires
        lo <= hi <= v@.len(),
    ensures
        final(out)@ == old(out)@ + v@.subrange(lo as int, hi as int),
{
    let ghost start = out@;
    let mut i = lo;
    while i < hi
        invariant
            lo <= i <= hi <= v@.len(),
            out@ == start + v@.subrange(lo as int, i as int),
        decreases hi - i,
    {
        out.push(v[i]);
        i = i + 1;
        assert(out@ =~= start + v@.subrange(lo as int, i as int));
    }
}

/// Appends all of `v` to `out`.
pub fn push_all(out: &mut Vec<char>, v: &[char])
    ensures
        final(out)@ == old(out)@ + v@,
{
    push_range(out, v, 0, v.len());
    assert(v@.subrange(0, v@.len() as int) =~= v@);
}

/// `v[lo..hi]` as a new vector.
pub fn slice(v: &[char], lo: usize, hi: usize) -> (r: Vec<char>)
    requires
        lo <= hi <= v@.len(),
    ensures
        r@ == v@.subrange(lo as int, hi as int),
{
    let mut r: Vec<char> = Vec::new();
    push_range(&mut r, v, lo, hi);
    assert(r@ =~= v@.subrange(lo as int, hi as int));
    r
}

/// `char::is_whitespace`.
pub fn is_whitespace(c: char) -> (b: bool)
    ensures
        b == is_ws(c),
{
    ('\u{9}' <= c && c <= '\u{d}') || c == ' ' || c == '\u{85}' || c == '\u{a0}' || c
        == '\u{1680}' || ('\u{2000}' <= c && c <= '\u{200a}') || c == '\u{2028}' || c
        == '\u{2029}' || c == '\u{202f}' || c == '\u{205f}' || c == '\u{3000}'
}

/// Bounds of `trim(v[lo..hi])` inside `v`.
pub fn trim_bounds(v: &[char], lo: usize, hi: usize) -> (r: (usize, usize))
    requires
        lo <= hi <= v@.len(),
    ensures
        lo <= r.0 <= r.1 <= hi,
        v@.subrange(r.0 as int, r.1 as int) == trim(v@.subrange(lo as int, hi as int)),
        v@.subrange(r.0 as int, hi as int) == trim_start(v@.subrange(lo as int, hi as int)),
{
    let ghost s = v@.subrange(lo as int, hi as int);
    let mut a = lo;
    while a < hi && is_whitespace(v[a])
        invariant
            lo <= a <= hi <= v@.len(),
            forall|j: int| lo <= j < a ==> is_ws(#[trigger] v@[j]),
        decreases hi - a,
    {
        a = a + 1;
    }
    proof {
        assert(is_lead(s, a - lo)) by {
            assert forall|j: int| 0 <= j < a - lo implies is_ws(#[trigger] s[j]) by {
                assert(s[j] == v@[lo + j]);
            }
            if a < hi {
                assert(s[a - lo] == v@[a as int]);
            }
        }
        lemma_lead_unique(s, a - lo);
        assert(trim_start(s) =~= v@.subrange(a as int, hi as int));
    }
    let ghost t = v@.subrange(a as int, hi as int);
    let mut b = hi;
    while b > a && is_whitespace(v[b - 1])
        invariant
            lo <= a <= b <= hi <= v@.len(),
            forall|j: int| b <= j < hi ==> is_ws(#[trigger] v@[j]),
        decreases b - a,
    {
        b = b - 1;
    }
    proof {
        assert(is_trail(t, b - a)) by {
            assert forall|j: int| b - a <= j < t.len() implies is_ws(#[trigger] t[j]) by {
                assert(t[j] == v@[a + j]);
            }
            if b > a {
                assert(t[b - a - 1] == v@[b - 1]);
            }
        }
        lemma_trail_unique(t, b - a);
        assert(trim(s) =~= v@.subrange(a as int, b as int));
    }
    (a, b)
}

/// `trim(v)` as a new vector.
pub fn trimmed(v: &[char]) -> (r: Vec<char>)
    ensures
        r@ == trim(v@),
{
    let (a, b) = trim_bounds(v, 0, v.len());
    assert(v@.subrange(0, v@.len() as int) =~= v@);
    slice(v, a, b)
}

/// Whether `p` occurs in `v` at position `i`.
pub fn occurs_at_exec(v: &[char], p: &[char], i: usize) -> (b: bool)
    ensures
        b == occurs_at(v@, p@, i as int),
{
    if i > v.len() || p.len() > v.len() - i {
        return false;
    }
    let n = v.len();
    let mut k: usize = 0;
    while k < p.len()
        invariant
            n == v@.len(),
            i + p@.len() <= v@.len(),
            0 <= k <= p@.len(),
            forall|m: int| 0 <= m < k ==> v@[i + m] == p@[m],
        decreases p@.len() - k,
    {
        if v[i + k] != p[k] {
            assert(v@.subrange(i as int, i + p@.len())[k as int] != p@[k as int]);
            return false;
        }
        k = k + 1;
    }
    assert(v@.subrange(i as int, i + p@.len()) =~= p@);
    true
}

/// `v[from..].find(p)`, as a position in `v`.
pub fn find_exec(v: &[char], p: &[char], from: usize) -> (r: Option<usize>)
    ensures
        match r {
            Some(j) => find_from(v@, p@, from as int) == Some(j as int),
            None => find_from(v@, p@, from as int) is None,
        },
        r is Some ==> from <= r->0 && r->0 + p@.len() <= v@.len(),
{
    let mut i = from;
    while i < v.len()
        invariant
            from <= i,
            forall|k: int| from <= k < i ==> !occurs_at(v@, p@, k),
        decreases v@.len() - i,
    {
        if occurs_at_exec(v, p, i) {
            proof {
                lemma_first_unique(v@, p@, from as int, i as int);
            }
            return Some(i);
        }
        i = i + 1;
    }
    if i == v.len() && p.len() == 0 && from <= v.len() {
        proof {
            assert(v@.subrange(i as int, i as int) =~= p@);
            lemma_first_unique(v@, p@, from as int, i as int);
        }
        return Some(i);
    }
    proof {
        assert forall|j: int| from <= j implies !occurs_at(v@, p@, j) by {
            if j >= i && occurs_at(v@, p@, j) {
                assert(j + p@.len() <= v@.len());
                if p@.len() == 0 {
                    assert(j == v@.len());
                }
            }
        }
        lemma_none_found(v@, p@, from as int);
    }
    None
}

/// Whether `v[lo..hi]` starts with `p`.
pub fn starts_with_at(v: &[char], lo: usize, hi: usize, p: &[char]) -> (b: bool)
    requires
        lo <= hi <= v@.len(),
    ensures
        b == has_prefix(v@.subrange(lo as int, hi as int), p@),
{
    if p.len() > hi - lo {
        return false;
    }
    let r = occurs_at_exec(v, p, lo);
    proof {
        let s = v@.subrange(lo as int, hi as int);
        assert(s.subrange(0, p@.len() as int) =~= v@.subrange(lo as int, lo + p@.len()));
    }
    r
}

/// Whether `v[lo..hi]` ends with `p`.
pub fn ends_with_at(v: &[char], lo: usize, hi: usize, p: &[char]) -> (b: bool)
    requires
        lo <= hi <= v@.len(),
    ensures
        b == has_suffix(v@.subrange(lo as int, hi as int), p@),
{
    if p.len() > hi - lo {
        return false;
    }
    let r = occurs_at_exec(v, p, hi - p.len());
    proof {
        let s = v@.subrange(lo as int, hi as int);
        assert(s.subrange(s.len() - p@.len(), s.len() as int) =~= v@.subrange(
            hi - p@.len(),
            hi as int,
        ));
    }
    r
}

/// Whether `a` and `b` hold the same characters.
pub fn chars_eq(a: &[char], b: &[char]) -> (r: bool)
    ensures
        r == (a@ == b@),
{
    if a.len() != b.len() {
        return false;
    }
    let mut i: usize = 0;
    while i < a.len()
        invariant
            a@.len() == b@.len(),
            0 <= i <= a@.len(),
            forall|k: int| 0 <= k < i ==> a@[k] == b@[k],
        decreases a@.len() - i,
    {
        if a[i] != b[i] {
            return false;
        }
        i = i + 1;
    }
    assert(a@ =~= b@);
    true
}

/// Whether `p` occurs anywhere in `v`.
pub fn contains_exec(v: &[char], p: &[char]) -> (b: bool)
    ensures
        b == contains(v@, p@),
{
    match find_exec(v, p, 0) {
        Some(_) => true,
        None => {
            proof {
                lemma_find_none(v@, p@, 0);
            }
            false
        },
    }
}


/// Positions in a suffix of `v` correspond to positions in `v`.
pub proof fn lemma_occurs_shift(v: Seq<char>, p: Seq<char>, pos: int, j: int)
    requires
        0 <= pos <= v.len(),
        0 <= j,
    ensures
        occurs_at(v.subrange(pos, v.len() as int), p, j) == occurs_at(v, p, pos + j),
{
    let s = v.subrange(pos, v.len() as int);
    if j + p.len() <= s.len() {
        assert(s.subrange(j, j + p.len()) =~= v.subrange(pos + j, pos + j + p.len()));
    }
}

/// The first occurrence at or after `pos` in `v` is the first occurrence in
/// `v[pos..]`, shifted.
pub proof fn lemma_find_shift(v: Seq<char>, p: Seq<char>, pos: int)
    requires
        0 <= pos <= v.len(),
    ensures
        match find_from(v, p, pos) {
            Some(k) => find_from(v.subrange(pos, v.len() as int), p, 0) == Some(k - pos),
            None => find_from(v.subrange(pos, v.len() as int), p, 0) is None,
        },
{
    let s = v.subrange(pos, v.len() as int);
    match find_from(v, p, pos) {
        Some(k) => {
            assert(is_first_at(v, p, pos, k));
            lemma_occurs_shift(v, p, pos, k - pos);
            assert forall|m: int| 0 <= m < k - pos implies !occurs_at(s, p, m) by {
                lemma_occurs_shift(v, p, pos, m);
            }
            lemma_first_unique(s, p, 0, k - pos);
        },
        None => {
            lemma_find_none(v, p, pos);
            assert forall|m: int| 0 <= m implies !occurs_at(s, p, m) by {
                lemma_occurs_shift(v, p, pos, m);
            }
            lemma_none_found(s, p, 0);
        },
    }
}

/// One step of `lines`.
pub proof fn lemma_lines_step(s: Seq<char>)
    requires
        s.len() > 0,
    ensures
        match find(s, seq!['\n']) {
            Some(k) => lines(s) == seq![strip_cr(s.subrange(0, k))] + lines(
                s.subrange(k + 1, s.len() as int),
            ),
            None => lines(s) == seq![s],
        },
{
}

/// One step of `split`.
pub proof fn lemma_split_step(s: Seq<char>, sep: Seq<char>)
    requires
        sep.len() > 0,
    ensures
        match find(s, sep) {
            Some(k) => split(s, sep) == seq![s.subrange(0, k)] + split(
                s.subrange(k + sep.len(), s.len() as int),
                sep,
            ),
            None => split(s, sep) == seq![s],
        },
{
}

/// `strip_cr(v[lo..hi])` as a new vector.
pub fn strip_cr_range(v: &[char], lo: usize, hi: usize) -> (r: Vec<char>)
    requires
        lo <= hi <= v@.len(),
    ensures
        r@ == strip_cr(v@.subrange(lo as int, hi as int)),
{
    if hi > lo && v[hi - 1] == '\r' {
        let r = slice(v, lo, hi - 1);
        assert(r@ =~= v@.subrange(lo as int, hi as int).drop_last());
        r
    } else {
        slice(v, lo, hi)
    }
}

/// `str::lines`.
pub fn lines_exec(v: &[char]) -> (r: Vec<Vec<char>>)
    ensures
        views(r@) == lines(v@),
{
    let nl: Vec<char> = vec!['\n'];
    assert(nl@ =~= seq!['\n']);
    let mut r: Vec<Vec<char>> = Vec::new();
    let mut pos: usize = 0;
    let n = v.len();
    assert(v@.subrange(0, n as int) =~= v@);
    while pos < n
        invariant
            n == v@.len(),
            nl@ == seq!['\n'],
            0 <= pos <= n,
            views(r@) + lines(v@.subrange(pos as int, n as int)) == lines(v@),
        decreases n - pos,
    {
        let ghost s = v@.subrange(pos as int, n as int);
        let ghost before = views(r@);
        proof {
            lemma_find_shift(v@, nl@, pos as int);
            lemma_lines_step(s);
        }
        match find_exec(v, nl.as_slice(), pos) {
            Some(k) => {
                let line = strip_cr_range(v, pos, k);
                r.push(line);
                proof {
                    assert(s.subrange(0, k - pos) =~= v@.subrange(pos as int, k as int));
                    assert(s.subrange(k - pos + 1, s.len() as int) =~= v@.subrange(
                        k + 1,
                        n as int,
                    ));
                    assert(views(r@) =~= before.push(line@));
                    assert(views(r@) + lines(v@.subrange(k + 1, n as int)) =~= before + lines(s));
                }
                pos = k + 1;
            },
            None => {
                let line = slice(v, pos, n);
                r.push(line);
                proof {
                    assert(views(r@) =~= before.push(line@));
                    assert(v@.subrange(n as int, n as int) =~= Seq::<char>::empty());
                    assert(lines(Seq::<char>::empty()) =~= Seq::<Seq<char>>::empty());
                    assert(views(r@) + lines(v@.subrange(n as int, n as int)) =~= before + lines(s));
                }
                pos = n;
            },
        }
    }
    proof {
        assert(v@.subrange(n as int, n as int) =~= Seq::<char>::empty());
        assert(views(r@) + lines(Seq::<char>::empty()) =~= views(r@));
    }
    r
}

/// `str::split(sep)` for a non-empty separator.
pub fn split_exec(v: &[char], sep: &[char]) -> (r: Vec<Vec<char>>)
    requires
        sep@.len() > 0,
    ensures
        views(r@) == split(v@, sep@),
        r@.len() >= 1,
{
    let mut r: Vec<Vec<char>> = Vec::new();
    let mut pos: usize = 0;
    let n = v.len();
    assert(v@.subrange(0, n as int) =~= v@);
    loop
        invariant
            n == v@.len(),
            sep@.len() > 0,
            0 <= pos <= n,
            views(r@) + split(v@.subrange(pos as int, n as int), sep@) == split(v@, sep@),
        decreases n - pos,
    {
        let ghost s = v@.subrange(pos as int, n as int);
        let ghost before = views(r@);
        proof {
            lemma_find_shift(v@, sep@, pos as int);
            lemma_split_step(s, sep@);
        }
        match find_exec(v, sep, pos) {
            Some(k) => {
                let part = slice(v, pos, k);
                r.push(part);
                proof {
                    assert(s.subrange(0, k - pos) =~= v@.subrange(pos as int, k as int));
                    assert(s.subrange(k - pos + sep@.len(), s.len() as int) =~= v@.subrange(
                        k + sep@.len(),
                        n as int,
                    ));
                    assert(views(r@) =~= before.push(part@));
                    assert(views(r@) + split(v@.subrange(k + sep@.len(), n as int), sep@)
                        =~= before + split(s, sep@));
                }
                pos = k + sep.len();
            },
            None => {
                let part = slice(v, pos, n);
                r.push(part);
                proof {
                    assert(views(r@) =~= before.push(part@));
                    assert(views(r@) =~= before + split(s, sep@));
                }
                return r;
            },
        }
    }
}

/// `parts[lo..hi].join(sep)` appended to `out`.
pub fn push_joined(out: &mut Vec<char>, parts: &Vec<Vec<char>>, lo: usize, hi: usize, sep: &[char])
    requires
        lo <= hi <= parts@.len(),
    ensures
        final(out)@ == old(out)@ + join(views(parts@).subrange(lo as int, hi as int), sep@),
{
    let ghost start = out@;
    let ghost all = views(parts@);
    if lo == hi {
        assert(all.subrange(lo as int, hi as int).len() == 0);
        assert(out@ =~= start + join(all.subrange(lo as int, hi as int), sep@));
        return;
    }
    push_all(out, parts[lo].as_slice());
    proof {
        assert(all.subrange(lo as int, lo + 1) =~= seq![all[lo as int]]);
        assert(out@ =~= start + join(all.subrange(lo as int, lo + 1), sep@));
    }
    let mut i = lo + 1;
    while i < hi
        invariant
            lo < i <= hi <= parts@.len(),
            all == views(parts@),
            out@ == start + join(all.subrange(lo as int, i as int), sep@),
        decreases hi - i,
    {
        push_all(out, sep);
        push_all(out, parts[i].as_slice());
        proof {
            let t = all.subrange(lo as int, i + 1);
            assert(t.drop_last() =~= all.subrange(lo as int, i as int));
            assert(t.last() == all[i as int]);
            assert(out@ =~= start + join(t, sep@));
        }
        i = i + 1;
    }
}

/// The decimal digit for `d < 10`.
pub open spec fn digit(d: nat) -> char {
    if d == 0 { '0' }
    else if d == 1 { '1' }
    else if d == 2 { '2' }
    else if d == 3 { '3' }
    else if d == 4 { '4' }
    else if d == 5 { '5' }
    else if d == 6 { '6' }
    else if d == 7 { '7' }
    else if d == 8 { '8' }
    else { '9' }
}

/// `n` written in decimal, as `usize::to_string` does.
pub open spec fn decimal(n: nat) -> Seq<char>
    decreases n,
{
    if n < 10 {
        seq![digit(n)]
    } else {
        decimal(n / 10).push(digit(n % 10))
    }
}

fn digit_exec(d: usize) -> (c: char)
    requires
        d < 10,
    ensures
        c == digit(d as nat),
{
    if d == 0 { '0' }
    else if d == 1 { '1' }
    else if d == 2 { '2' }
    else if d == 3 { '3' }
    else if d == 4 { '4' }
    else if d == 5 { '5' }
    else if d == 6 { '6' }
    else if d == 7 { '7' }
    else if d == 8 { '8' }
    else { '9' }
}

/// Appends `decimal(n)` to `out`.
pub fn push_decimal(out: &mut Vec<char>, n: usize)
    ensures
        final(out)@ == old(out)@ + decimal(n as nat),
    decreases n,
{
    if n >= 10 {
        push_decimal(out, n / 10);
    }
    let ghost before = out@;
    out.push(digit_exec(n % 10));
    proof {
        if n >= 10 {
            assert(out@ =~= old(out)@ + decimal(n as nat));
        } else {
            assert(out@ =~= old(out)@ + decimal(n as nat));
        }
    }
}

/// Whether `char::is_alphanumeric` holds of `c` (Unicode `Alphabetic` or
/// `Numeric`).
pub uninterp spec fn alphanumeric(c: char) -> bool;

/// `char::is_alphanumeric`. The contract only names the result: the Unicode
/// tables behind it are not restated here.
#[verifier::external_body]
pub fn is_alphanumeric(c: char) -> (b: bool)
    ensures
        b == alphanumeric(c),
{
    c.is_alphanumeric()
}

/// The character pairs held by a list of vector pairs.
pub open spec fn cpairs(s: Seq<(Vec<char>, Vec<char>)>) -> Seq<(Seq<char>, Seq<char>)> {
    s.map_values(|p: (Vec<char>, Vec<char>)| (p.0@, p.1@))
}

/// The character pairs held by a list of string pairs.
pub open spec fn spairs(s: Seq<(String, String)>) -> Seq<(Seq<char>, Seq<char>)> {
    s.map_values(|p: (String, String)| (p.0@, p.1@))
}

/// The same pairs as strings.
pub fn to_string_pairs(v: &Vec<(Vec<char>, Vec<char>)>) -> (r: Vec<(String, String)>)
    ensures
        spairs(r@) == cpairs(v@),
{
    let mut r: Vec<(String, String)> = Vec::new();
    let mut i: usize = 0;
    while i < v.len()
        invariant
            0 <= i <= v@.len(),
            spairs(r@) == cpairs(v@).take(i as int),
        decreases v@.len() - i,
    {
        let a = to_string(v[i].0.as_slice());
        let b = to_string(v[i].1.as_slice());
        let ghost prev = r@;
        r.push((a, b));
        assert(spairs(r@) =~= spairs(prev).push((a@, b@)));
        assert(cpairs(v@).take(i + 1) =~= cpairs(v@).take(i as int).push(cpairs(v@)[i as int]));
        i = i + 1;
    }
    assert(cpairs(v@).take(v@.len() as int) =~= cpairs(v@));
    r
}

/// The same pairs as character vectors.
pub fn to_char_pairs(v: &[(String, String)]) -> (r: Vec<(Vec<char>, Vec<char>)>)
    ensures
        cpairs(r@) == spairs(v@),
{
    let mut r: Vec<(Vec<char>, Vec<char>)> = Vec::new();
    let mut i: usize = 0;
    while i < v.len()
        invariant
            0 <= i <= v@.len(),
            cpairs(r@) == spairs(v@).take(i as int),
        decreases v@.len() - i,
    {
        let a = to_chars(v[i].0.as_str());
        let b = to_chars(v[i].1.as_str());
        let ghost prev = r@;
        r.push((a, b));
        assert(cpairs(r@) =~= cpairs(prev).push((a@, b@)));
        assert(spairs(v@).take(i + 1) =~= spairs(v@).take(i as int).push(spairs(v@)[i as int]));
        i = i + 1;
    }
    assert(spairs(v@).take(v@.len() as int) =~= spairs(v@));
    r
}

} // verus!
