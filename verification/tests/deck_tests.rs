use wb_slide::assets::AssetBundle;
use wb_slide::deck::{parse_frontmatter, parse_slides, parse_slots};
use wb_slide::embed::embed_assets;
use wb_slide::markdown::render_markdown;
use wb_slide::render::LayoutSet;
use wb_slide::validate::{collect_local_refs, raw_html_blank_line, validate_deck, Severity};

#[test]
fn test_raw_html_blank_line() {
    assert!(raw_html_blank_line("<svg>\n<rect/>\n\n<rect/>\n</svg>"));
    assert!(!raw_html_blank_line("<svg>\n<rect/>\n<rect/>\n</svg>"));
    assert!(!raw_html_blank_line("# Heading\n\nA paragraph.\n\nAnother."));
}

#[test]
fn test_collect_local_refs() {
    let body = r#"<img src="assets/a.png"> ![x](assets/b.png) <img src="https://h/c.png">
<style>.x{background:url('assets/d.png')}</style> [link](https://x)"#;
    let refs = collect_local_refs(body);
    assert!(refs.contains(&"assets/a.png".to_string()));
    assert!(refs.contains(&"assets/b.png".to_string()));
    assert!(refs.contains(&"assets/d.png".to_string()));
    assert!(!refs.iter().any(|r| r.starts_with("http")));
}

#[test]
fn test_validate_deck_flags_issues() {
    let mut layouts = LayoutSet::default();
    let mut assets = AssetBundle::new();
    assets.add("layouts/slide-cover.html", "<section>{{{content}}}</section>");
    layouts.load_builtin(&assets);
    // no asset exists: nothing is present
    let present: Vec<String> = Vec::new();
    let raw = "---\ntitle: T\nfonts:\n  sans: Inter\nlayout: slide-cover\n---\n\n# Hi\n\n---\nlayout: slide-nope\n---\n\n![c](assets/missing.png)";
    let diags = validate_deck(raw, &present, &layouts);
    assert!(diags.iter().any(|d| d.message.contains("indented frontmatter")));
    assert!(diags.iter().any(|d| d.message.contains("unknown layout")));
    assert!(diags
        .iter()
        .any(|d| d.severity == Severity::Error && d.message.contains("asset not found")));
}

#[test]
fn test_embed_skips_remote_and_data_uris() {
    let files: Vec<(String, Vec<u8>)> = Vec::new();
    let html = r#"<img src="https://x/y.png"><img src="data:image/png;base64,AAAA">"#;
    // nothing local to read → unchanged
    assert_eq!(embed_assets(html, &files), html);
}

#[test]
fn test_embed_inlines_local_image() {
    // a 1x1 transparent PNG
    let png: &[u8] = &[
        0x89, 0x50, 0x4E, 0x47, 0x0D, 0x0A, 0x1A, 0x0A, 0x00, 0x00, 0x00, 0x0D, 0x49, 0x48, 0x44,
        0x52, 0x00, 0x00, 0x00, 0x01, 0x00, 0x00, 0x00, 0x01, 0x08, 0x06, 0x00, 0x00, 0x00, 0x1F,
        0x15, 0xC4, 0x89, 0x00, 0x00, 0x00, 0x0A, 0x49, 0x44, 0x41, 0x54, 0x78, 0x9C, 0x63, 0x00,
        0x01, 0x00, 0x00, 0x05, 0x00, 0x01, 0x0D, 0x0A, 0x2D, 0xB4, 0x00, 0x00, 0x00, 0x00, 0x49,
        0x45, 0x4E, 0x44, 0xAE, 0x42, 0x60, 0x82,
    ];
    let files = vec![("assets/pixel.png".to_string(), png.to_vec())];

    let html = r#"<img src="assets/pixel.png"><img src='./assets/pixel.png'>"#;
    let out = embed_assets(html, &files);
    assert!(!out.contains("assets/pixel.png"), "local refs should be replaced");
    assert_eq!(out.matches("data:image/png;base64,").count(), 2);

    let css = "background: url(assets/pixel.png); mask: url('assets/pixel.png');";
    let out_css = embed_assets(css, &files);
    assert_eq!(out_css.matches("data:image/png;base64,").count(), 2);
}

#[test]
fn test_parse_frontmatter_simple() {
    let (meta, body) = parse_frontmatter("layout: slide-feature\nheading: Hello\n\nBody here");
    assert_eq!(
        meta,
        vec![
            ("layout".to_string(), "slide-feature".to_string()),
            ("heading".to_string(), "Hello".to_string()),
        ]
    );
    assert_eq!(body, "Body here");
}

#[test]
fn test_parse_frontmatter_quoted_value() {
    let (meta, _) = parse_frontmatter("title: 'My Title'");
    assert_eq!(meta[0].1, "My Title");
}

#[test]
fn test_parse_frontmatter_colon_in_value() {
    let (meta, _) = parse_frontmatter("subtitle: M365: Office Integration");
    assert_eq!(meta[0].1, "M365: Office Integration");
}

#[test]
fn test_parse_frontmatter_nested_yaml_skipped() {
    let (meta, body) = parse_frontmatter("title: Test\nfonts:\n  sans: Pretendard\n\nBody");
    assert_eq!(meta.len(), 1);
    assert_eq!(meta[0], ("title".to_string(), "Test".to_string()));
    assert_eq!(body, "Body");
}

#[test]
fn test_parse_slots_no_slots() {
    let (default, slots) = parse_slots("<img src=\"test.png\" />");
    assert_eq!(default, "<img src=\"test.png\" />");
    assert!(slots.is_empty());
}

#[test]
fn test_parse_slots_two_slots() {
    let input = "::left::\n\n## Before\n\nOld way\n\n::right::\n\n## After\n\nNew way";
    let (default, slots) = parse_slots(input);
    assert!(default.is_empty());
    assert_eq!(slots.len(), 2);
    assert_eq!(slots[0].0, "left");
    assert!(slots[0].1.contains("Before"));
    assert!(slots[0].1.contains("Old way"));
    assert_eq!(slots[1].0, "right");
    assert!(slots[1].1.contains("After"));
    assert!(slots[1].1.contains("New way"));
}

#[test]
fn test_parse_slots_default_before_slot() {
    let input = "Default content\n\n::sidebar::\n\nSidebar content";
    let (default, slots) = parse_slots(input);
    assert_eq!(default, "Default content");
    assert_eq!(slots.len(), 1);
    assert_eq!(slots[0].0, "sidebar");
    assert!(slots[0].1.contains("Sidebar content"));
}

#[test]
fn test_parse_slides_basic() {
    let raw = "---\ntitle: Test\nlayout: slide-cover\n---\n\n# Cover\n\n---\nlayout: slide-feature\nheading: Feature\n---\n\nBody content";
    let (meta, slides) = parse_slides(raw);
    assert_eq!(meta.iter().find(|(k, _)| k == "title").unwrap().1, "Test");
    assert_eq!(slides.len(), 2);
    assert_eq!(
        slides[0].frontmatter.iter().find(|(k, _)| k == "layout").unwrap().1,
        "slide-cover"
    );
    assert!(slides[0].body_html.contains("Cover"));
    assert_eq!(
        slides[1].frontmatter.iter().find(|(k, _)| k == "layout").unwrap().1,
        "slide-feature"
    );
    assert!(slides[1].body_html.contains("Body content"));
}

#[test]
fn test_parse_slides_with_slots() {
    let raw = "---\ntitle: Test\n---\n\nDefault\n\n---\nlayout: slide-two-column\n---\n\n::left::\n\nLeft content\n\n::right::\n\nRight content";
    let (_, slides) = parse_slides(raw);
    assert_eq!(slides.len(), 2);
    assert_eq!(slides[1].slots.len(), 2);
    assert_eq!(slides[1].slots[0].0, "left");
    assert!(slides[1].slots[0].1.contains("Left content"));
    assert_eq!(slides[1].slots[1].0, "right");
    assert!(slides[1].slots[1].1.contains("Right content"));
}

#[test]
fn test_render_markdown_html_passthrough() {
    let html = "<div class=\"flex\"><img src=\"test.png\" /></div>";
    let result = render_markdown(html);
    assert!(result.contains("<img"));
    assert!(result.contains("test.png"));
}

#[test]
fn test_render_markdown_basic() {
    let md = "## Hello\n\n**bold** text";
    let result = render_markdown(md);
    assert!(result.contains("<h2>"));
    assert!(result.contains("<strong>bold</strong>"));
}

#[test]
fn test_render_markdown_gfm_table() {
    let md = "| A | B |\n| --- | ---: |\n| 1 | 2 |";
    let result = render_markdown(md);
    assert!(result.contains("<table>"), "GFM tables should render: {result}");
    assert!(result.contains("<th"));
    assert!(result.contains("<td"));
}

#[test]
fn test_render_markdown_gfm_strikethrough() {
    assert!(render_markdown("~~gone~~").contains("<del>"));
}
