//! Loading a theme one fetched file at a time. The caller fetches what
//! `next_url` names and hands the outcome to `feed`; the loader decides what
//! comes next and assembles the theme: layout scripts in manifest order,
//! then style sheets.
use crate::text::{push_all, spairs, to_chars, to_string};
use crate::theme::{file_stem, layout_js, string_views, LoadedTheme, ThemeManifest};
use vstd::prelude::*;

verus! {

/// The theme JS contributed by the layout scripts `cs`, in order.
pub open spec fn js_of(cs: Seq<Seq<char>>) -> Seq<char>
    decreases cs.len(),
{
    if cs.len() == 0 {
        seq![]
    } else {
        js_of(cs.drop_last()) + layout_js(cs.last())
    }
}

/// The theme CSS made of the style sheets `cs`, each followed by a newline.
pub open spec fn css_of(cs: Seq<Seq<char>>) -> Seq<char>
    decreases cs.len(),
{
    if cs.len() == 0 {
        seq![]
    } else {
        css_of(cs.drop_last()) + cs.last() + seq!['\n']
    }
}

/// Layout names (file stems of `rels`) paired with the fetched sources `cs`.
pub open spec fn layout_pairs(rels: Seq<Seq<char>>, cs: Seq<Seq<char>>) -> Seq<(Seq<char>, Seq<char>)> {
    Seq::new(cs.len(), |i: int| (file_stem(rels[i]), cs[i]))
}

/// The first `n` items of `s`, or all of them.
pub open spec fn first_n(s: Seq<Seq<char>>, n: int) -> Seq<Seq<char>> {
    if n < s.len() {
        s.take(n)
    } else {
        s
    }
}

/// The items of `s` after the first `n`, or none.
pub open spec fn after_n(s: Seq<Seq<char>>, n: int) -> Seq<Seq<char>> {
    if n < s.len() {
        s.skip(n)
    } else {
        seq![]
    }
}

/// Error text when fetching the layout `rel` of theme `name` failed with `e`.
pub open spec fn layout_error(name: Seq<char>, rel: Seq<char>, e: Seq<char>) -> Seq<char> {
    "theme "@ + name + ": layout "@ + rel + ": "@ + e
}

/// Error text when fetching the style sheet `rel` of theme `name` failed.
pub open spec fn style_error(name: Seq<char>, rel: Seq<char>, e: Seq<char>) -> Seq<char> {
    "theme "@ + name + ": style "@ + rel + ": "@ + e
}

/// A theme being loaded.
pub struct ThemeLoader {
    manifest: ThemeManifest,
    theme: LoadedTheme,
    /// Layout scripts and style sheets fed so far.
    done_layouts: usize,
    done_styles: usize,
    fed: Ghost<Seq<Seq<char>>>,
}

impl ThemeLoader {
    /// Layout files the manifest lists.
    pub closed spec fn layouts(&self) -> Seq<Seq<char>> {
        string_views(self.manifest.layouts@)
    }

    /// Style sheets the manifest lists.
    pub closed spec fn styles(&self) -> Seq<Seq<char>> {
        string_views(self.manifest.styles@)
    }

    /// Base URL and name of the theme.
    pub closed spec fn base(&self) -> Seq<char> {
        self.manifest.base_url@
    }

    pub closed spec fn name(&self) -> Seq<char> {
        self.manifest.name@
    }

    pub closed spec fn version(&self) -> Seq<char> {
        self.manifest.version@
    }

    /// Contents fed so far: layouts first, then styles.
    pub closed spec fn fed(&self) -> Seq<Seq<char>> {
        self.fed@
    }

    /// Every file the manifest lists, in the order they are fetched.
    pub open spec fn files(&self) -> Seq<Seq<char>> {
        self.layouts() + self.styles()
    }

    /// The loader's state agrees with what was fed.
    pub closed spec fn wf(&self) -> bool {
        let nl = self.layouts().len();
        &&& self.fed@.len() == self.done_layouts + self.done_styles
        &&& self.done_layouts <= nl
        &&& self.done_styles <= self.styles().len()
        &&& self.done_styles > 0 ==> self.done_layouts == nl
        &&& self.theme.name@ == self.manifest.name@
        &&& self.theme.version@ == self.manifest.version@
        &&& self.theme.js@ == js_of(first_n(self.fed@, nl as int))
        &&& self.theme.css@ == css_of(after_n(self.fed@, nl as int))
        &&& spairs(self.theme.layouts@) == layout_pairs(
            self.layouts(),
            first_n(self.fed@, nl as int),
        )
    }

    /// Starts loading the theme described by `manifest`.
    pub fn new(manifest: ThemeManifest) -> (l: Self)
        ensures
            l.wf(),
            l.fed().len() == 0,
            l.layouts() == string_views(manifest.layouts@),
            l.styles() == string_views(manifest.styles@),
            l.base() == manifest.base_url@,
            l.name() == manifest.name@,
            l.version() == manifest.version@,
    {
        let theme = LoadedTheme::new(manifest.name.as_str(), manifest.version.as_str());
        let l = ThemeLoader { manifest, theme, done_layouts: 0, done_styles: 0, fed: Ghost(Seq::<Seq<char>>::empty()) };
        assert(spairs(l.theme.layouts@) =~= layout_pairs(l.layouts(), first_n(seq![], l.layouts().len() as int)));
        l
    }

    /// The URL of the next file to fetch, or `None` when all are in.
    pub fn next_url(&self) -> (r: Option<String>)
        requires
            self.wf(),
        ensures
            match r {
                Some(u) => self.fed().len() < self.files().len() && u@ == self.base() + seq!['/']
                    + self.files()[self.fed().len() as int],
                None => self.fed().len() == self.files().len(),
            },
    {
        let nl = self.manifest.layouts.len();
        if self.done_layouts < nl {
            let k = self.done_layouts;
            assert(self.files()[self.fed@.len() as int] == self.manifest.layouts@[k as int]@);
            Some(self.manifest.file_url(self.manifest.layouts[k].as_str()))
        } else if self.done_styles < self.manifest.styles.len() {
            let k = self.done_styles;
            assert(self.files()[self.fed@.len() as int] == self.manifest.styles@[k as int]@);
            Some(self.manifest.file_url(self.manifest.styles[k].as_str()))
        } else {
            None
        }
    }

    /// Takes the outcome of fetching the next file. Text is added to the
    /// theme; a failure ends the load with an error that names the file.
    pub fn feed(&mut self, fetched: Result<String, String>) -> (r: Result<(), String>)
        requires
            old(self).wf(),
            old(self).fed().len() < old(self).files().len(),
        ensures
            final(self).layouts() == old(self).layouts(),
            final(self).styles() == old(self).styles(),
            final(self).base() == old(self).base(),
            final(self).name() == old(self).name(),
            final(self).version() == old(self).version(),
            match fetched {
                Ok(c) => r is Ok && final(self).wf() && final(self).fed() == old(self).fed().push(c@),
                Err(e) => *final(self) == *old(self) && match r {
                    Err(m) => m@ == if old(self).fed().len() < old(self).layouts().len() {
                        layout_error(
                            old(self).name(),
                            old(self).files()[old(self).fed().len() as int],
                            e@,
                        )
                    } else {
                        style_error(
                            old(self).name(),
                            old(self).files()[old(self).fed().len() as int],
                            e@,
                        )
                    },
                    Ok(_) => false,
                },
            },
    {
        let nl = self.manifest.layouts.len();
        let ghost f0 = self.fed@;
        let ghost ls = self.layouts();
        let is_layout = self.done_layouts < nl;
        let rel: &String = if is_layout {
            &self.manifest.layouts[self.done_layouts]
        } else {
            &self.manifest.styles[self.done_styles]
        };
        assert(rel@ == self.files()[f0.len() as int]);
        let ghost ds0 = self.done_styles;
        let ns = self.manifest.styles.len();
        assert(!is_layout ==> ds0 < ns);
        match fetched {
            Err(e) => {
                let mut m = to_chars("theme ");
                push_all(&mut m, to_chars(self.manifest.name.as_str()).as_slice());
                if is_layout {
                    push_all(&mut m, to_chars(": layout ").as_slice());
                } else {
                    push_all(&mut m, to_chars(": style ").as_slice());
                }
                push_all(&mut m, to_chars(rel.as_str()).as_slice());
                push_all(&mut m, to_chars(": ").as_slice());
                push_all(&mut m, to_chars(e.as_str()).as_slice());
                Err(to_string(m.as_slice()))
            },
            Ok(c) => {
                let ghost t0 = self.theme;
                if is_layout {
                    let rel2 = String::from_str(rel.as_str());
                    let ghost lp0 = spairs(self.theme.layouts@);
                    self.theme.add_layout(rel2.as_str(), c.as_str());
                    proof {
                        let f1 = f0.push(c@);
                        assert(spairs(self.theme.layouts@) =~= lp0.push((file_stem(rel@), c@)));
                        assert(first_n(f0, nl as int) =~= f0);
                        assert(layout_pairs(ls, f0.push(c@)) =~= layout_pairs(ls, f0).push(
                            (file_stem(ls[f0.len() as int]), c@),
                        ));
                        assert(first_n(f1, nl as int) =~= first_n(f0, nl as int).push(c@));
                        assert(first_n(f1, nl as int).drop_last() =~= first_n(f0, nl as int));
                        assert(after_n(f1, nl as int) =~= after_n(f0, nl as int));
                        assert(spairs(self.theme.layouts@) =~= layout_pairs(ls, first_n(f1, nl as int)));
                    }
                } else {
                    self.theme.add_style(c.as_str());
                    proof {
                        let f1 = f0.push(c@);
                        assert(first_n(f1, nl as int) =~= first_n(f0, nl as int));
                        if f0.len() == nl {
                            assert(after_n(f0, nl as int) =~= Seq::<Seq<char>>::empty());
                            assert(after_n(f1, nl as int) =~= seq![c@]);
                            assert(after_n(f1, nl as int).drop_last() =~= after_n(f0, nl as int));
                        } else {
                            assert(after_n(f1, nl as int) =~= after_n(f0, nl as int).push(c@));
                            assert(after_n(f1, nl as int).drop_last() =~= after_n(f0, nl as int));
                        }
                    }
                }
                self.fed = Ghost(f0.push(c@));
                if is_layout {
                    self.done_layouts = self.done_layouts + 1;
                } else {
                    assert(self.done_styles == ds0 && ds0 < ns);
                    self.done_styles = self.done_styles + 1;
                }
                Ok(())
            },
        }
    }

    /// The loaded theme, once every file is in.
    pub fn finish(self) -> (t: LoadedTheme)
        requires
            self.wf(),
            self.fed().len() == self.files().len(),
        ensures
            t.name@ == self.name(),
            t.version@ == self.version(),
            t.js@ == js_of(self.fed().take(self.layouts().len() as int)),
            t.css@ == css_of(self.fed().skip(self.layouts().len() as int)),
            spairs(t.layouts@) == layout_pairs(
                self.layouts(),
                self.fed().take(self.layouts().len() as int),
            ),
    {
        proof {
            let nl = self.layouts().len() as int;
            if nl == self.fed@.len() {
                assert(self.fed@.take(nl) =~= self.fed@);
                assert(self.fed@.skip(nl) =~= Seq::<Seq<char>>::empty());
            }
        }
        self.theme
    }
}

} // verus!
