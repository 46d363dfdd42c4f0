//! wb-slide: Markdown in, slides out.
//!
//! A deck (`slides.md`) is split into slides with frontmatter, rendered
//! through HTML layout templates (deck-local, theme or built-in), and
//! assembled into one self-contained page. The modules hold the parsers,
//! the template engine, layout resolution, theme assembly, validation and
//! asset embedding, each stated and proved against a model over character
//! sequences. Reading files, fetching themes and serving pages is left to
//! the caller.
pub mod text;
pub mod strmap;
pub mod template;
pub mod theme;
pub mod themeload;
pub mod assets;
pub mod render;
pub mod markdown;
pub mod deck;
pub mod validate;
pub mod embed;
pub mod release;
pub mod host;
pub mod page;
pub mod monocle;
