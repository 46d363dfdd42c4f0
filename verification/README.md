# wb_slide

Markdown in, slides out: a slide deck (`slides.md`) becomes one HTML page.

`src/` is the library, written in Verus. Every function states what it
returns in its contract and is proved against a model over character
sequences:

| module | what it holds |
|---|---|
| `text` | string operations (`trim`, `find`, `lines`, `split`, `join`) as spec functions, with proved executable versions |
| `strmap` | a small map keyed by text |
| `template` | the mustache-style template engine and its laws |
| `deck` | frontmatter, slots and slides of a deck |
| `markdown` | when Markdown is rendered (comrak does the rendering) |
| `render` | layouts, their resolution order and the HTML of a slide |
| `theme`, `themeload` | theme names, manifests, the registry index, and assembling a theme one fetched file at a time |
| `page` | every slide rendered, the framework CSS/JS, and the page document |
| `validate` | the static checks of `wb-slide validate` |
| `embed` | inlining local assets as `data:` URIs on export |
| `release`, `host` | update and cache decisions, dialog scripts |
| `monocle` | the client-rendered format of the `monocle-slide` program |

Calls into outside crates (comrak, base64, mime_guess, serde_json, and a
few std functions) go through small trusted wrappers whose contracts say
what the crate documents, or name the result where restating it would
take pages.

`app/` is the program around the library: the command line (clap), the
local server (axum, tokio), theme downloads (reqwest) with their cache,
the embedded framework files (rust-embed), and the desktop helpers. It
reads and writes files and hands the library plain values.

`tests/` runs the library on concrete decks.
