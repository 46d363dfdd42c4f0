//! The framework files shipped with the program (layouts, CSS, JS), as the
//! library sees them: paths with their text.
use crate::text::{chars_eq, to_chars};
use vstd::prelude::*;

verus! {

/// Path and text of each framework file.
pub struct AssetBundle {
    files: Vec<(String, String)>,
}

pub open spec fn pair_views(s: Seq<(String, String)>) -> Seq<(Seq<char>, Seq<char>)> {
    crate::text::spairs(s)
}

/// `i` is the first file of `fs` at `path`.
pub open spec fn first_file(fs: Seq<(Seq<char>, Seq<char>)>, path: Seq<char>, i: int) -> bool {
    &&& 0 <= i < fs.len()
    &&& fs[i].0 == path
    &&& forall|j: int| 0 <= j < i ==> (#[trigger] fs[j]).0 != path
}

/// Text of the first file at `path`.
pub open spec fn file_text(fs: Seq<(Seq<char>, Seq<char>)>, path: Seq<char>) -> Option<Seq<char>> {
    if exists|i: int| first_file(fs, path, i) {
        Some(fs[choose|i: int| first_file(fs, path, i)].1)
    } else {
        None
    }
}

/// A key that occurs in `fs` has a first occurrence.
pub proof fn lemma_first_exists(fs: Seq<(Seq<char>, Seq<char>)>, path: Seq<char>, j: int)
    requires
        0 <= j < fs.len(),
        fs[j].0 == path,
    ensures
        exists|i: int| first_file(fs, path, i),
    decreases j,
{
    if forall|m: int| 0 <= m < j ==> (#[trigger] fs[m]).0 != path {
        assert(first_file(fs, path, j));
    } else {
        let m = choose|m: int| 0 <= m < j && (#[trigger] fs[m]).0 == path;
        lemma_first_exists(fs, path, m);
    }
}

/// The first occurrence is unique.
pub proof fn lemma_first_unique(fs: Seq<(Seq<char>, Seq<char>)>, path: Seq<char>, i: int)
    requires
        first_file(fs, path, i),
    ensures
        file_text(fs, path) == Some(fs[i].1),
{
    let c = choose|c: int| first_file(fs, path, c);
    if c < i {
        assert(fs[c].0 != path);
    } else if i < c {
        assert(fs[i].0 != path);
    }
}

/// Looking a path up after adding a file: an earlier file keeps precedence.
pub proof fn lemma_file_text_push(
    fs: Seq<(Seq<char>, Seq<char>)>,
    x: (Seq<char>, Seq<char>),
    path: Seq<char>,
)
    ensures
        file_text(fs.push(x), path) == match file_text(fs, path) {
            Some(v) => Some(v),
            None => if x.0 == path {
                Some(x.1)
            } else {
                None
            },
        },
{
    let g = fs.push(x);
    if exists|i: int| first_file(fs, path, i) {
        let i = choose|i: int| first_file(fs, path, i);
        assert(first_file(g, path, i)) by {
            assert forall|j: int| 0 <= j < i implies (#[trigger] g[j]).0 != path by {
                assert(g[j] == fs[j]);
                assert(fs[j].0 != path);
            }
        }
        lemma_first_unique(g, path, i);
    } else {
        assert forall|j: int| 0 <= j < fs.len() implies (#[trigger] fs[j]).0 != path by {
            if fs[j].0 == path {
                lemma_first_exists(fs, path, j);
            }
        }
        if x.0 == path {
            assert(first_file(g, path, fs.len() as int)) by {
                assert forall|j: int| 0 <= j < fs.len() implies (#[trigger] g[j]).0 != path by {
                    assert(g[j] == fs[j]);
                }
            }
            lemma_first_unique(g, path, fs.len() as int);
        } else {
            assert forall|i: int| !first_file(g, path, i) by {
                if 0 <= i < g.len() && g[i].0 == path {
                    if i < fs.len() {
                        assert(g[i] == fs[i]);
                    }
                }
            }
        }
    }
}

/// A path no file has is not found.
pub proof fn lemma_file_text_absent(fs: Seq<(Seq<char>, Seq<char>)>, path: Seq<char>)
    requires
        forall|j: int| 0 <= j < fs.len() ==> (#[trigger] fs[j]).0 != path,
    ensures
        file_text(fs, path) is None,
{
    assert forall|i: int| !first_file(fs, path, i) by {
        if 0 <= i < fs.len() {
            assert(fs[i].0 != path);
        }
    }
}

/// The value of the first entry named `key` among `pairs`.
pub fn meta_value(pairs: &[(String, String)], key: &str) -> (r: Option<String>)
    ensures
        match r {
            Some(v) => file_text(pair_views(pairs@), key@) == Some(v@),
            None => file_text(pair_views(pairs@), key@) is None,
        },
{
    let ghost a = pair_views(pairs@);
    let k = to_chars(key);
    let mut i: usize = 0;
    while i < pairs.len()
        invariant
            a == pair_views(pairs@),
            k@ == key@,
            0 <= i <= a.len(),
            forall|j: int| 0 <= j < i ==> (#[trigger] a[j]).0 != key@,
        decreases a.len() - i,
    {
        assert(a[i as int] == (pairs@[i as int].0@, pairs@[i as int].1@));
        if chars_eq(to_chars(pairs[i].0.as_str()).as_slice(), k.as_slice()) {
            proof {
                assert(first_file(a, key@, i as int));
                lemma_first_unique(a, key@, i as int);
            }
            return Some(String::from_str(pairs[i].1.as_str()));
        }
        i = i + 1;
    }
    proof {
        lemma_file_text_absent(a, key@);
    }
    None
}

impl AssetBundle {
    /// The files, in the order they were added.
    pub closed spec fn files(&self) -> Seq<(Seq<char>, Seq<char>)> {
        pair_views(self.files@)
    }

    /// No files.
    pub fn new() -> (b: Self)
        ensures
            b.files().len() == 0,
    {
        AssetBundle { files: Vec::new() }
    }

    /// Adds the file `path` with text `text`.
    pub fn add(&mut self, path: &str, text: &str)
        ensures
            final(self).files() == old(self).files().push((path@, text@)),
    {
        let ghost before = self.files@;
        self.files.push((String::from_str(path), String::from_str(text)));
        assert(pair_views(self.files@) =~= pair_views(before).push((path@, text@)));
    }

    /// Number of files.
    pub fn len(&self) -> (n: usize)
        ensures
            n == self.files().len(),
    {
        self.files.len()
    }

    /// The `i`-th file.
    pub fn entry(&self, i: usize) -> (r: (&String, &String))
        requires
            i < self.files().len(),
        ensures
            (r.0@, r.1@) == self.files()[i as int],
    {
        (&self.files[i].0, &self.files[i].1)
    }

    /// Text of the file at `path`.
    pub fn get(&self, path: &[char]) -> (r: Option<&String>)
        ensures
            match r {
                Some(t) => file_text(self.files(), path@) == Some(t@),
                None => file_text(self.files(), path@) is None,
            },
    {
        let ghost fs = self.files();
        let mut i: usize = 0;
        while i < self.files.len()
            invariant
                fs == self.files(),
                0 <= i <= fs.len(),
                forall|j: int| 0 <= j < i ==> (#[trigger] fs[j]).0 != path@,
            decreases fs.len() - i,
        {
            assert(fs[i as int].0 == self.files@[i as int].0@);
            if chars_eq(to_chars(self.files[i].0.as_str()).as_slice(), path) {
                proof {
                    assert(first_file(fs, path@, i as int));
                    let c = choose|k: int| first_file(fs, path@, k);
                    if c < i {
                        assert(fs[c].0 != path@);
                    } else if i < c {
                        assert(fs[i as int].0 != path@);
                    }
                }
                return Some(&self.files[i].1);
            }
            i = i + 1;
        }
        None
    }
}

} // verus!
