//! What the program asks of the host system, decided from plain values: the
//! folder a picker dialog returned, the scripts of the message dialogs, and
//! where the theme cache lives.
use crate::text::{push_all, slice, to_chars, to_string, trim, trim_bounds};
use vstd::prelude::*;

verus! {

/// The folder a picker dialog chose: its trimmed output, when the dialog
/// succeeded and printed one.
pub open spec fn picked_spec(success: bool, stdout: Seq<char>) -> Option<Seq<char>> {
    if success && trim(stdout).len() > 0 {
        Some(trim(stdout))
    } else {
        None
    }
}

/// Reads the folder a picker dialog printed.
pub fn picked_folder(success: bool, stdout: &str) -> (r: Option<String>)
    ensures
        match r {
            Some(p) => picked_spec(success, stdout@) == Some(p@),
            None => picked_spec(success, stdout@) is None,
        },
{
    if !success {
        return None;
    }
    let v = to_chars(stdout);
    let (a, e) = trim_bounds(v.as_slice(), 0, v.len());
    assert(v@.subrange(0, v@.len() as int) =~= v@);
    if a == e {
        None
    } else {
        Some(to_string(slice(v.as_slice(), a, e).as_slice()))
    }
}

/// `c` inside an AppleScript string literal: quotes escaped.
pub open spec fn applescript_char(c: char) -> Seq<char> {
    if c == '"' {
        seq!['\\', '"']
    } else {
        seq![c]
    }
}

/// `c` inside a PowerShell string literal: quotes and line breaks escaped
/// with a backtick.
pub open spec fn powershell_char(c: char) -> Seq<char> {
    if c == '"' {
        seq!['`', '"']
    } else if c == '\n' {
        seq!['`', 'n']
    } else {
        seq![c]
    }
}

/// `s` with each character escaped for AppleScript (`ps == false`) or
/// PowerShell (`ps == true`).
pub open spec fn escaped(s: Seq<char>, ps: bool) -> Seq<char>
    decreases s.len(),
{
    if s.len() == 0 {
        seq![]
    } else {
        escaped(s.drop_last(), ps) + if ps {
            powershell_char(s.last())
        } else {
            applescript_char(s.last())
        }
    }
}

fn push_escaped(out: &mut Vec<char>, s: &[char], ps: bool)
    ensures
        final(out)@ == old(out)@ + escaped(s@, ps),
{
    let ghost start = out@;
    let mut i: usize = 0;
    while i < s.len()
        invariant
            0 <= i <= s@.len(),
            out@ == start + escaped(s@.take(i as int), ps),
        decreases s@.len() - i,
    {
        let c = s[i];
        if c == '"' {
            out.push(if ps { '`' } else { '\\' });
            out.push('"');
        } else if ps && c == '\n' {
            out.push('`');
            out.push('n');
        } else {
            out.push(c);
        }
        assert(s@.take(i + 1).drop_last() =~= s@.take(i as int));
        assert(out@ =~= start + escaped(s@.take(i + 1), ps));
        i = i + 1;
    }
    assert(s@.take(s@.len() as int) =~= s@);
}

/// The AppleScript that shows `msg` in a dialog with an OK button.
pub open spec fn applescript_dialog_spec(msg: Seq<char>) -> Seq<char> {
    "display dialog \""@ + escaped(msg, false)
        + "\" with title \"WB Slide\" buttons {\"OK\"} default button \"OK\""@
}

/// The AppleScript for a message dialog showing `msg`.
pub fn applescript_dialog(msg: &str) -> (r: String)
    ensures
        r@ == applescript_dialog_spec(msg@),
{
    let mut out = to_chars("display dialog \"");
    push_escaped(&mut out, to_chars(msg).as_slice(), false);
    push_all(&mut out, to_chars("\" with title \"WB Slide\" buttons {\"OK\"} default button \"OK\"").as_slice());
    to_string(out.as_slice())
}

/// The PowerShell command that shows `msg` in a message box.
pub open spec fn powershell_message_spec(msg: Seq<char>) -> Seq<char> {
    "Add-Type -AssemblyName System.Windows.Forms; [System.Windows.Forms.MessageBox]::Show(\""@
        + escaped(msg, true) + "\", \"WB Slide\") | Out-Null"@
}

/// The PowerShell command for a message box showing `msg`.
pub fn powershell_message(msg: &str) -> (r: String)
    ensures
        r@ == powershell_message_spec(msg@),
{
    let mut out = to_chars(
        "Add-Type -AssemblyName System.Windows.Forms; [System.Windows.Forms.MessageBox]::Show(\"",
    );
    push_escaped(&mut out, to_chars(msg).as_slice(), true);
    push_all(&mut out, to_chars("\", \"WB Slide\") | Out-Null").as_slice());
    to_string(out.as_slice())
}

/// Where the theme cache directory `wb-slide` is made.
pub enum CacheRoot {
    /// Under `$XDG_CACHE_HOME`.
    Xdg(String),
    /// Under `$HOME/.cache`.
    Home(String),
    /// Under the system's temporary directory.
    Temp,
}

/// The cache root from `$XDG_CACHE_HOME` and `$HOME`: a non-empty
/// `XDG_CACHE_HOME` first, then `HOME`, then the temporary directory.
pub fn cache_root(xdg: Option<&str>, home: Option<&str>) -> (r: CacheRoot)
    ensures
        match r {
            CacheRoot::Xdg(d) => xdg is Some && d@ == xdg->0@ && d@.len() > 0,
            CacheRoot::Home(h) => (xdg is None || xdg->0@.len() == 0) && home is Some && h@
                == home->0@,
            CacheRoot::Temp => (xdg is None || xdg->0@.len() == 0) && home is None,
        },
{
    match xdg {
        Some(x) => {
            if to_chars(x).len() > 0 {
                return CacheRoot::Xdg(String::from_str(x));
            }
        },
        None => {},
    }
    match home {
        Some(h) => CacheRoot::Home(String::from_str(h)),
        None => CacheRoot::Temp,
    }
}

} // verus!
