//! Release checks and self-update decisions: the latest tag named by the
//! release API's reply, the platform name, the archive to download, and
//! when the theme cache may be used.
use crate::deck::{strip_all, strip_all_chars};
use crate::text::{chars_eq, has_suffix, push_all, slice, split, split_exec, to_chars, to_string};
use vstd::prelude::*;

verus! {

/// `"tag_name"`
pub open spec fn tag_key() -> Seq<char> {
    "\"tag_name\""@
}

/// The tag named in a release API reply: the first quoted string after the
/// first `"tag_name"`.
pub open spec fn latest_tag_spec(reply: Seq<char>) -> Option<Seq<char>> {
    let parts = split(reply, tag_key());
    if parts.len() < 2 {
        None
    } else {
        let q = split(parts[1], seq!['"']);
        if q.len() < 2 {
            None
        } else {
            Some(q[1])
        }
    }
}

/// Reads the latest release tag out of the API reply.
pub fn parse_latest_tag(reply: &str) -> (r: Result<String, String>)
    ensures
        match (r, latest_tag_spec(reply@)) {
            (Ok(t), Some(s)) => t@ == s,
            (Err(e), None) => e@ == "could not parse response"@,
            _ => false,
        },
{
    let v = to_chars(reply);
    let key = to_chars("\"tag_name\"");
    proof {
        reveal_strlit("\"tag_name\"");
    }
    let parts = split_exec(v.as_slice(), key.as_slice());
    if parts.len() < 2 {
        return Err(String::from_str("could not parse response"));
    }
    let quote: Vec<char> = vec!['"'];
    assert(quote@ =~= seq!['"']);
    let q = split_exec(parts[1].as_slice(), quote.as_slice());
    if q.len() < 2 {
        return Err(String::from_str("could not parse response"));
    }
    Ok(to_string(q[1].as_slice()))
}

/// A tag without its leading `v`s.
pub open spec fn version_of(tag: Seq<char>) -> Seq<char> {
    strip_all(tag, seq!['v'])
}

/// The version a release tag names (`v1.2.0` names `1.2.0`).
pub fn version_label(tag: &str) -> (r: String)
    ensures
        r@ == version_of(tag@),
{
    let v = to_chars(tag);
    let p: Vec<char> = vec!['v'];
    assert(p@ =~= seq!['v']);
    let k = strip_all_chars(v.as_slice(), p.as_slice());
    to_string(slice(v.as_slice(), k, v.len()).as_slice())
}

/// Whether the running version `current` is the latest release `tag`.
pub fn is_up_to_date(tag: &str, current: &str) -> (b: bool)
    ensures
        b == (version_of(tag@) == current@),
{
    let l = version_label(tag);
    chars_eq(to_chars(l.as_str()).as_slice(), to_chars(current).as_slice())
}

/// The platform name releases are published under, from the operating
/// system and architecture names Rust reports.
pub open spec fn platform_spec(os: Seq<char>, arch: Seq<char>) -> Seq<char> {
    if os == "macos"@ && arch == "aarch64"@ {
        "macos-arm64"@
    } else if os == "linux"@ && arch == "x86_64"@ {
        "linux-x64"@
    } else if os == "windows"@ && arch == "x86_64"@ {
        "windows-x64"@
    } else {
        os + seq!['-'] + arch
    }
}

fn str_eq(a: &str, b: &str) -> (r: bool)
    ensures
        r == (a@ == b@),
{
    chars_eq(to_chars(a).as_slice(), to_chars(b).as_slice())
}

/// The platform name for `os` and `arch`.
pub fn platform_name(os: &str, arch: &str) -> (r: String)
    ensures
        r@ == platform_spec(os@, arch@),
{
    if str_eq(os, "macos") && str_eq(arch, "aarch64") {
        String::from_str("macos-arm64")
    } else if str_eq(os, "linux") && str_eq(arch, "x86_64") {
        String::from_str("linux-x64")
    } else if str_eq(os, "windows") && str_eq(arch, "x86_64") {
        String::from_str("windows-x64")
    } else {
        let mut out = to_chars(os);
        out.push('-');
        push_all(&mut out, to_chars(arch).as_slice());
        to_string(out.as_slice())
    }
}

/// The release archive built for `platform`, if there is one.
pub open spec fn asset_spec(platform: Seq<char>) -> Option<Seq<char>> {
    if platform == "macos-arm64"@ {
        Some("wb-slide-macos-arm64.tar.gz"@)
    } else if platform == "linux-x64"@ {
        Some("wb-slide-linux-x64.tar.gz"@)
    } else if platform == "windows-x64"@ {
        Some("wb-slide-windows-x64.zip"@)
    } else {
        None
    }
}

/// What `update` does once the latest tag is known.
pub enum UpdatePlan {
    /// The running version is the latest.
    UpToDate,
    /// No archive is published for this platform.
    Unsupported,
    /// Download `asset` from `url`; `extract` when it is a `.tar.gz` that
    /// can replace the running binary, else it is left for the user.
    Download { asset: String, url: String, extract: bool },
}

/// Where a release archive is downloaded from.
pub open spec fn download_url_spec(tag: Seq<char>, asset: Seq<char>) -> Seq<char> {
    "https://github.com/warmblood-kr/wb-slide/releases/download/"@ + tag + seq!['/'] + asset
}

/// The update decision for release `tag`, running version `current`, on
/// `platform`.
pub open spec fn plan_spec(tag: Seq<char>, current: Seq<char>, platform: Seq<char>) -> (
    bool,
    Option<(Seq<char>, Seq<char>, bool)>,
) {
    if version_of(tag) == current {
        (true, None)
    } else {
        match asset_spec(platform) {
            None => (false, None),
            Some(a) => (false, Some((a, download_url_spec(tag, a), has_suffix(a, ".tar.gz"@)))),
        }
    }
}

/// Decides what `update` does.
pub fn update_plan(tag: &str, current: &str, platform: &str) -> (r: UpdatePlan)
    ensures
        match r {
            UpdatePlan::UpToDate => plan_spec(tag@, current@, platform@) == (
                true,
                None::<(Seq<char>, Seq<char>, bool)>,
            ),
            UpdatePlan::Unsupported => plan_spec(tag@, current@, platform@) == (
                false,
                None::<(Seq<char>, Seq<char>, bool)>,
            ),
            UpdatePlan::Download { asset, url, extract } => plan_spec(tag@, current@, platform@)
                == (false, Some((asset@, url@, extract))),
        },
{
    if is_up_to_date(tag, current) {
        return UpdatePlan::UpToDate;
    }
    let asset = if str_eq(platform, "macos-arm64") {
        String::from_str("wb-slide-macos-arm64.tar.gz")
    } else if str_eq(platform, "linux-x64") {
        String::from_str("wb-slide-linux-x64.tar.gz")
    } else if str_eq(platform, "windows-x64") {
        String::from_str("wb-slide-windows-x64.zip")
    } else {
        return UpdatePlan::Unsupported;
    };
    let mut url = to_chars("https://github.com/warmblood-kr/wb-slide/releases/download/");
    push_all(&mut url, to_chars(tag).as_slice());
    url.push('/');
    push_all(&mut url, to_chars(asset.as_str()).as_slice());
    let a = to_chars(asset.as_str());
    let ext = to_chars(".tar.gz");
    let extract = crate::text::ends_with_at(a.as_slice(), 0, a.len(), ext.as_slice());
    assert(a@.subrange(0, a@.len() as int) =~= a@);
    UpdatePlan::Download { asset, url: to_string(url.as_slice()), extract }
}

/// How long fetched theme files are trusted without asking the network
/// again, in seconds.
pub const CACHE_TTL_SECS: u64 = 3600;

/// Whether a cached fetch of age `age_secs` (`None` when the cache file is
/// missing or its age cannot be told) is used without fetching: only when
/// no refresh is asked and it is younger than the time to live.
pub fn use_cache_first(refresh: bool, age_secs: Option<u64>) -> (b: bool)
    ensures
        b == (!refresh && match age_secs {
            Some(a) => a < CACHE_TTL_SECS,
            None => false,
        }),
{
    if refresh {
        return false;
    }
    match age_secs {
        Some(a) => a < CACHE_TTL_SECS,
        None => false,
    }
}

/// The outcome of a fetch: what was fetched, or else the stale cached copy
/// when there is one, or else the fetch error.
pub fn after_fetch(fetched: Result<String, String>, cached: Option<String>) -> (r: Result<String, String>)
    ensures
        match fetched {
            Ok(t) => r == Ok::<String, String>(t),
            Err(e) => match cached {
                Some(c) => r == Ok::<String, String>(c),
                None => r == Err::<String, String>(e),
            },
        },
{
    match fetched {
        Ok(t) => Ok(t),
        Err(e) => match cached {
            Some(c) => Ok(c),
            None => Err(e),
        },
    }
}

} // verus!
