use wb_slide::assets::AssetBundle;
use wb_slide::deck::parse_slides;
use wb_slide::embed::{embed_assets, embed_targets, rewrite_attr, rewrite_css_urls};
use wb_slide::host::{applescript_dialog, cache_root, picked_folder, powershell_message, CacheRoot};
use wb_slide::monocle;
use wb_slide::markdown::{render_markdown, render_markdown_passthrough};
use wb_slide::page::{
    assemble_page, assemble_user_css, build_index_html, build_layouts, collect_framework_css,
    collect_framework_js, content_type, deck_theme, deck_title, render_all_slides,
    slides_file_name, HtmlOptions,
};
use wb_slide::release::{
    after_fetch, is_up_to_date, parse_latest_tag, platform_name, update_plan, use_cache_first,
    version_label, UpdatePlan, CACHE_TTL_SECS,
};
use wb_slide::render::{render_slide, Layout, LayoutSet};
use wb_slide::theme::{
    cache_file_name, guard_custom_elements_define, theme_url_from_index, wrap_in_iife,
    LoadedTheme, ThemeManifest, ThemeSpec,
};
use wb_slide::themeload::ThemeLoader;
use wb_slide::validate::{validate_deck, Severity};

fn s(x: &str) -> String {
    x.to_string()
}

fn pairs(v: &[(&str, &str)]) -> Vec<(String, String)> {
    v.iter().map(|(a, b)| (s(a), s(b))).collect()
}

// ---------------------------------------------------------------- page

#[test]
fn index_html_exact_document() {
    let opts = HtmlOptions {
        title: "T",
        slides_html: "<p>s</p>",
        framework_css: "F",
        framework_js: "J",
        client_js: "",
        theme_css: Some("TH"),
        user_css: None,
    };
    let expected = "<!DOCTYPE html>\n<html lang=\"ko\">\n<head>\n  <meta charset=\"utf-8\">\n  <meta name=\"viewport\" content=\"width=device-width, initial-scale=1\">\n  <title>T</title>\n  <style>F</style>\n  <style data-source=\"theme\">TH</style>\n  \n</head>\n<body>\n  <div id=\"monocle-slide-deck\">\n    <div class=\"ms-viewport\">\n<p>s</p>\n    </div>\n  </div>\n  \n  <script>J</script>\n</body>\n</html>";
    assert_eq!(build_index_html(&opts), expected);
}

#[test]
fn index_html_client_script_and_user_css() {
    let opts = HtmlOptions {
        title: "T",
        slides_html: "",
        framework_css: "",
        framework_js: "",
        client_js: "x()",
        theme_css: None,
        user_css: Some("U"),
    };
    let page = build_index_html(&opts);
    assert!(page.contains("<script type=\"module\">x()</script>"));
    assert!(page.contains("<style data-source=\"user\">U</style>"));
    assert!(!page.contains("data-source=\"theme\""));
}

#[test]
fn css_cascade_framework_then_theme_then_user() {
    let opts = HtmlOptions {
        title: "T",
        slides_html: "",
        framework_css: "FRAMEWORK",
        framework_js: "",
        client_js: "",
        theme_css: Some("THEME"),
        user_css: Some("USER"),
    };
    let page = build_index_html(&opts);
    let f = page.find("FRAMEWORK").unwrap();
    let t = page.find("THEME").unwrap();
    let u = page.find("USER").unwrap();
    assert!(f < t && t < u);
}

#[test]
fn framework_css_in_fixed_order() {
    let mut assets = AssetBundle::new();
    assets.add("print.css", "P");
    assets.add("theme.css", "T");
    assets.add("other.css", "O");
    assert_eq!(collect_framework_css(&assets), "T\nP\n");
    assert_eq!(collect_framework_css(&AssetBundle::new()), "");
}

#[test]
fn framework_js_drops_import_lines() {
    let mut assets = AssetBundle::new();
    assets.add("monocle-slide.js", "import { A } from './a.js';\nconst x = 1;\n  import b;\nrun();");
    assert_eq!(collect_framework_js(&assets), "const x = 1;\n  import b;\nrun();\n");
    assert_eq!(collect_framework_js(&AssetBundle::new()), "");
}

#[test]
fn user_css_only_css_files() {
    let files = pairs(&[("a.css", "A"), ("b.txt", "B"), (".css", "H"), ("c.css", "C")]);
    assert_eq!(assemble_user_css(&files), Some(s("A\nC\n")));
    assert_eq!(assemble_user_css(&pairs(&[("x.md", "X")])), None);
}

#[test]
fn slides_file_prefers_slides_md() {
    assert_eq!(slides_file_name(true), "slides.md");
    assert_eq!(slides_file_name(false), "index.md");
}

#[test]
fn deck_title_and_theme() {
    let gm = pairs(&[("title", "Deck"), ("theme", "https://x/theme.json")]);
    assert_eq!(deck_title(&gm), "Deck");
    assert_eq!(deck_title(&[]), "WB Slide");
    match deck_theme(&gm) {
        Some(ThemeSpec::Url(u)) => assert_eq!(u, "https://x/theme.json"),
        _ => panic!("expected a URL theme"),
    }
    match deck_theme(&pairs(&[("theme", "brochure")])) {
        Some(ThemeSpec::Name(n)) => assert_eq!(n, "brochure"),
        _ => panic!("expected a named theme"),
    }
    assert!(deck_theme(&[]).is_none());
}

#[test]
fn content_type_by_extension() {
    assert_eq!(content_type("assets/a.png"), "image/png");
    assert_eq!(content_type("style.css"), "text/css");
    assert_eq!(content_type("noext"), "application/octet-stream");
}

fn builtin_assets() -> AssetBundle {
    let mut assets = AssetBundle::new();
    assets.add("layouts/slide-default.html", "<div class=\"d\">{{{content}}}</div>");
    assets.add("layouts/slide-cover.html", "---\nchrome: false\n---\n<div class=\"c\">{{{content}}}</div>");
    assets.add("layouts/slide-feature.html", "<h1>{{heading}}</h1>{{{content}}}");
    assets.add("slide-base.js", "class SlideBase {}");
    assets
}

#[test]
fn render_slide_with_chrome_and_without() {
    let mut layouts = LayoutSet::new();
    layouts.load_builtin(&builtin_assets());
    let attrs = pairs(&[("heading", "H"), ("watermark", "W")]);
    let (html, js) = render_slide("slide-feature", &attrs, &[], "<p>b</p>", 1, 2, &layouts);
    assert_eq!(
        html,
        "<div class=\"ms-slide-container slide-feature active\" data-slide-index=\"1\"><div class=\"ms-watermark\">W</div><div class=\"ms-page-number\">1</div><h1>H</h1><p>b</p></div>"
    );
    assert!(js.is_none());
    let (cover, _) = render_slide("slide-cover", &attrs, &[], "x", 2, 2, &layouts);
    assert_eq!(
        cover,
        "<div class=\"ms-slide-container slide-cover\" data-slide-index=\"2\"><div class=\"c\">x</div></div>"
    );
}

#[test]
fn unknown_layout_falls_back_to_default() {
    let mut layouts = LayoutSet::new();
    layouts.load_builtin(&builtin_assets());
    let (html, _) = render_slide("slide-nope", &[], &[], "B", 3, 3, &layouts);
    assert_eq!(
        html,
        "<div class=\"ms-slide-container slide-default\" data-slide-index=\"3\"><div class=\"ms-page-number\">3</div><div class=\"d\">B</div></div>"
    );
}

#[test]
fn resolution_precedence_local_theme_builtin() {
    let mut theme = LoadedTheme::new("t", "1");
    theme.add_layout("layouts/slide-feature.html", "<p>theme</p>");
    theme.add_layout("layouts/slide-extra.html", "<p>extra</p>");
    let local = vec![(s("slide-feature"), s("html"), s("<p>local</p>"))];
    let layouts = build_layouts(&builtin_assets(), Some(&theme), &local);
    let feature = layouts.resolve("slide-feature").unwrap();
    assert_eq!(feature.name, "slide-feature");
    match &feature.source {
        wb_slide::render::LayoutSource::Template(t) => assert_eq!(t, "<p>local</p>"),
        _ => panic!("expected a template"),
    }
    match &layouts.resolve("slide-extra").unwrap().source {
        wb_slide::render::LayoutSource::Template(t) => assert_eq!(t, "<p>extra</p>"),
        _ => panic!("expected a template"),
    }
    assert!(layouts.resolve("slide-cover").is_some());
    assert!(layouts.resolve("missing").is_none());
}

#[test]
fn html_beats_js_in_either_order() {
    for files in [
        vec![(s("x"), s("js"), s("class X {}")), (s("x"), s("html"), s("<b>t</b>"))],
        vec![(s("x"), s("html"), s("<b>t</b>")), (s("x"), s("js"), s("class X {}"))],
    ] {
        let mut set = LayoutSet::new();
        set.load_local(&files);
        match &set.resolve("x").unwrap().source {
            wb_slide::render::LayoutSource::Template(t) => assert_eq!(t, "<b>t</b>"),
            _ => panic!("the .html layout should win"),
        }
    }
}

#[test]
fn chrome_false_in_template_frontmatter() {
    assert!(!Layout::parse_template("a", "---\nchrome: false\n---\n<p/>").chrome);
    assert!(Layout::parse_template("a", "<p/>").chrome);
    assert!(Layout::parse_template("a", "---\nchrome: true\n---\n<p/>").chrome);
}

#[test]
fn deck_defaults_reach_every_slide() {
    let raw = "---\ntitle: D\nwatermark: WM\n---\n\nfirst\n\n---\nlayout: slide-feature\nheading: H\nwatermark: own\n---\n\nsecond";
    let (gm, slides) = parse_slides(raw);
    let mut layouts = LayoutSet::new();
    layouts.load_builtin(&builtin_assets());
    let out = render_all_slides(&slides, &gm, &layouts, &builtin_assets());
    assert!(out.html.contains("<div class=\"ms-watermark\">WM</div>"));
    assert!(out.html.contains("<div class=\"ms-watermark\">own</div>"));
    assert!(out.html.contains("<h1>H</h1>"));
    assert_eq!(out.client_js, "");
}

#[test]
fn script_layout_inlined_once() {
    let raw = "---\ntitle: D\nlayout: slide-fancy\n---\n\none\n\n---\nlayout: slide-fancy\n---\n\ntwo";
    let (gm, slides) = parse_slides(raw);
    let mut layouts = LayoutSet::new();
    let assets = builtin_assets();
    layouts.load_builtin(&assets);
    let local = vec![(
        s("slide-fancy"),
        s("js"),
        s("import { SlideBase } from '../slide-base.js';\ncustomElements.define('slide-fancy', X);"),
    )];
    layouts.load_local(&local);
    let out = render_all_slides(&slides, &gm, &layouts, &assets);
    assert_eq!(out.client_js.matches("customElements.define(").count(), 1);
    assert_eq!(out.client_js.matches("class SlideBase").count(), 1);
    assert!(!out.client_js.contains("import { SlideBase }"));
    assert!(out.html.contains("<slide-fancy slide-index=\"1\" total-slides=\"2\">"));
}

#[test]
fn assemble_page_end_to_end() {
    let raw = "---\ntitle: Hello\n---\n\n# Hi";
    let (gm, slides) = parse_slides(raw);
    let assets = builtin_assets();
    let layouts = build_layouts(&assets, None, &Vec::new());
    let page = assemble_page(&gm, &slides, &layouts, None, Some("U"), &assets);
    assert!(page.contains("<title>Hello</title>"));
    assert!(page.contains("<h1>Hi</h1>"));
    assert!(page.contains("<style data-source=\"user\">U</style>"));
}

// ---------------------------------------------------------------- embed

#[test]
fn embed_exact_data_uri() {
    let files = vec![(s("a.png"), b"Man".to_vec()), (s("b.bin"), vec![0xfb, 0xff])];
    assert_eq!(
        rewrite_attr("<img src=\"./a.png\">", "src=\"", '"', &files),
        "<img src=\"data:image/png;base64,TWFu\">"
    );
    assert_eq!(
        rewrite_css_urls("url( 'b.bin' )", &files),
        "url(\"data:application/octet-stream;base64,+/8=\")"
    );
    assert_eq!(rewrite_css_urls("url(missing.png)", &files), "url(missing.png)");
}

#[test]
fn embed_pixel_base64() {
    let png: Vec<u8> = vec![
        0x89, 0x50, 0x4E, 0x47, 0x0D, 0x0A, 0x1A, 0x0A, 0x00, 0x00, 0x00, 0x0D, 0x49, 0x48, 0x44,
        0x52, 0x00, 0x00, 0x00, 0x01, 0x00, 0x00, 0x00, 0x01, 0x08, 0x06, 0x00, 0x00, 0x00, 0x1F,
        0x15, 0xC4, 0x89, 0x00, 0x00, 0x00, 0x0A, 0x49, 0x44, 0x41, 0x54, 0x78, 0x9C, 0x63, 0x00,
        0x01, 0x00, 0x00, 0x05, 0x00, 0x01, 0x0D, 0x0A, 0x2D, 0xB4, 0x00, 0x00, 0x00, 0x00, 0x49,
        0x45, 0x4E, 0x44, 0xAE, 0x42, 0x60, 0x82,
    ];
    let files = vec![(s("p.png"), png)];
    assert_eq!(
        embed_assets("<img src='p.png'>", &files),
        "<img src='data:image/png;base64,iVBORw0KGgoAAAANSUhEUgAAAAEAAAABCAYAAAAfFcSJAAAACklEQVR4nGMAAQAABQABDQottAAAAABJRU5ErkJggg=='>"
    );
}

#[test]
fn embed_without_files_changes_nothing() {
    let html = "<img src=\"a.png\"><img src='./b.png'> url(c.png) src=\"unclosed";
    assert_eq!(embed_assets(html, &[]), html);
}

#[test]
fn embed_targets_lists_local_files() {
    let html = "<img src=\"./a.png\"><img src=\"https://x/y.png\"><img src=\"#top\"><img src=\" b.png \">";
    assert_eq!(embed_targets(html, "src=\"", '"', false), vec![s("a.png"), s("b.png")]);
    assert_eq!(
        embed_targets("url('./c.svg') url(data:x) url(//cdn/x)", "url(", ')', true),
        vec![s("c.svg")]
    );
}

// ---------------------------------------------------------------- markdown

#[test]
fn markdown_blank_is_empty() {
    assert_eq!(render_markdown("  \n\t"), "");
    assert_eq!(render_markdown("*a*"), "<p><em>a</em></p>\n");
}

#[test]
fn monocle_markdown_passthrough() {
    assert_eq!(render_markdown_passthrough("  <div>x</div>"), "  <div>x</div>");
    assert_eq!(render_markdown_passthrough(""), "");
    assert_eq!(render_markdown_passthrough("~~x~~"), "<p>~~x~~</p>\n");
}

// ---------------------------------------------------------------- validate

#[test]
fn validate_only_missing_assets_are_errors() {
    let mut layouts = LayoutSet::new();
    layouts.load_builtin(&builtin_assets());
    let raw = "---\ntitle: T\n---\n\n<svg>\n\n</svg>\n\n---\nlayout: slide-zzz\n---\n\n![a](./assets/a.png) ![b](assets/b.png)";
    let present = vec![s("assets/a.png")];
    let diags = validate_deck(raw, &present, &layouts);
    let errors: Vec<_> = diags.iter().filter(|d| d.severity == Severity::Error).collect();
    assert_eq!(errors.len(), 1);
    assert_eq!(errors[0].message, "asset not found: `assets/b.png`");
    assert_eq!(errors[0].slide, Some(2));
    assert!(diags
        .iter()
        .any(|d| d.severity == Severity::Warning && d.message.contains("blank line inside")));
    let all = vec![s("assets/a.png"), s("assets/b.png")];
    assert!(validate_deck(raw, &all, &layouts).iter().all(|d| d.severity == Severity::Warning));
}

// ---------------------------------------------------------------- release

#[test]
fn latest_tag_from_reply() {
    assert_eq!(
        parse_latest_tag("{\"url\":\"x\",\"tag_name\": \"v0.9.1\",\"name\":\"n\"}"),
        Ok(s("v0.9.1"))
    );
    assert_eq!(parse_latest_tag("{}"), Err(s("could not parse response")));
    assert_eq!(parse_latest_tag("\"tag_name\""), Err(s("could not parse response")));
}

#[test]
fn version_checks() {
    assert_eq!(version_label("vv1.2"), "1.2");
    assert!(is_up_to_date("v0.9.0", "0.9.0"));
    assert!(!is_up_to_date("v0.9.1", "0.9.0"));
}

#[test]
fn platform_names() {
    assert_eq!(platform_name("macos", "aarch64"), "macos-arm64");
    assert_eq!(platform_name("linux", "x86_64"), "linux-x64");
    assert_eq!(platform_name("windows", "x86_64"), "windows-x64");
    assert_eq!(platform_name("freebsd", "x86_64"), "freebsd-x86_64");
}

#[test]
fn update_plans() {
    assert!(matches!(update_plan("v1.0.0", "1.0.0", "linux-x64"), UpdatePlan::UpToDate));
    assert!(matches!(update_plan("v1.0.1", "1.0.0", "freebsd-x86_64"), UpdatePlan::Unsupported));
    match update_plan("v1.0.1", "1.0.0", "linux-x64") {
        UpdatePlan::Download { asset, url, extract } => {
            assert_eq!(asset, "wb-slide-linux-x64.tar.gz");
            assert_eq!(
                url,
                "https://github.com/warmblood-kr/wb-slide/releases/download/v1.0.1/wb-slide-linux-x64.tar.gz"
            );
            assert!(extract);
        }
        _ => panic!("expected a download"),
    }
    match update_plan("v1.0.1", "1.0.0", "windows-x64") {
        UpdatePlan::Download { asset, extract, .. } => {
            assert_eq!(asset, "wb-slide-windows-x64.zip");
            assert!(!extract);
        }
        _ => panic!("expected a download"),
    }
}

#[test]
fn cache_decisions() {
    assert_eq!(CACHE_TTL_SECS, 3600);
    assert!(use_cache_first(false, Some(10)));
    assert!(!use_cache_first(false, Some(3600)));
    assert!(!use_cache_first(true, Some(10)));
    assert!(!use_cache_first(false, None));
    assert_eq!(after_fetch(Ok(s("new")), Some(s("old"))), Ok(s("new")));
    assert_eq!(after_fetch(Err(s("down")), Some(s("old"))), Ok(s("old")));
    assert_eq!(after_fetch(Err(s("down")), None), Err(s("down")));
}

// ---------------------------------------------------------------- host

#[test]
fn folder_picker_output() {
    assert_eq!(picked_folder(true, " /tmp/deck\n"), Some(s("/tmp/deck")));
    assert_eq!(picked_folder(true, "  \n"), None);
    assert_eq!(picked_folder(false, "/tmp/deck"), None);
}

#[test]
fn dialog_scripts_escape_quotes() {
    assert_eq!(
        applescript_dialog("say \"hi\""),
        "display dialog \"say \\\"hi\\\"\" with title \"WB Slide\" buttons {\"OK\"} default button \"OK\""
    );
    assert_eq!(
        powershell_message("a\"b\nc"),
        "Add-Type -AssemblyName System.Windows.Forms; [System.Windows.Forms.MessageBox]::Show(\"a`\"b`nc\", \"WB Slide\") | Out-Null"
    );
}

#[test]
fn cache_root_choice() {
    assert!(matches!(cache_root(Some("/x"), Some("/h")), CacheRoot::Xdg(d) if d == "/x"));
    assert!(matches!(cache_root(Some(""), Some("/h")), CacheRoot::Home(h) if h == "/h"));
    assert!(matches!(cache_root(None, None), CacheRoot::Temp));
}

// ---------------------------------------------------------------- themes

#[test]
fn theme_spec_and_urls() {
    assert!(matches!(ThemeSpec::parse("https://a/t.json"), ThemeSpec::Url(_)));
    assert!(matches!(ThemeSpec::parse("brochure"), ThemeSpec::Name(_)));
    let index = "{\"themes\": {\"brochure\": {\"url\": \"https://r/b/theme.json\"}}}";
    assert_eq!(theme_url_from_index(index, "brochure"), Ok(s("https://r/b/theme.json")));
    assert_eq!(
        theme_url_from_index(index, "nope"),
        Err(s("theme \"nope\" not found in registry"))
    );
    assert_eq!(
        theme_url_from_index("{}", "x"),
        Err(s("registry index has no \"themes\" field"))
    );
    assert_eq!(
        theme_url_from_index("{\"themes\": {\"x\": {}}}", "x"),
        Err(s("theme \"x\" has no url field in registry"))
    );
    assert_eq!(cache_file_name("https://a.b/c"), "https___a_b_c.cache");
}

#[test]
fn iife_and_guard() {
    assert_eq!(wrap_in_iife("x();"), "(() => {\nx();\n})();\n");
    assert_eq!(
        guard_custom_elements_define("customElements.define('a-b', C);"),
        "(customElements.get('a-b') || customElements.define('a-b', C));"
    );
    assert_eq!(guard_custom_elements_define("let x = 1;"), "let x = 1;");
}

#[test]
fn theme_loader_fetch_order_and_errors() {
    let manifest = ThemeManifest::parse(
        "https://r/t/theme.json",
        "{\"name\": \"t\", \"version\": \"2\", \"layouts\": [\"layouts/a.html\"], \"styles\": [\"s.css\"]}",
    );
    let mut loader = ThemeLoader::new(manifest);
    assert_eq!(loader.next_url(), Some(s("https://r/t/layouts/a.html")));
    assert!(loader.feed(Ok(s("<p>a</p>"))).is_ok());
    assert_eq!(loader.next_url(), Some(s("https://r/t/s.css")));
    assert!(loader.feed(Ok(s("body{}"))).is_ok());
    assert_eq!(loader.next_url(), None);
    let theme = loader.finish();
    assert_eq!(theme.name, "t");
    assert_eq!(theme.version, "2");
    assert_eq!(theme.css, "body{}\n");
    assert_eq!(theme.layouts, pairs(&[("a", "<p>a</p>")]));
    assert_eq!(theme.js, "(() => {\n<p>a</p>\n})();\n\n");

    let manifest = ThemeManifest::parse("https://r/t/theme.json", "{\"layouts\": [\"x.html\"]}");
    let mut loader = ThemeLoader::new(manifest);
    assert_eq!(
        loader.feed(Err(s("HTTP 404"))),
        Err(s("theme unknown: layout x.html: HTTP 404"))
    );
}

// ---------------------------------------------------------------- client-rendered format

#[test]
fn monocle_slides_and_json() {
    let raw = "---\ntitle: T\n---\n\n<b>first</b>\n---\nlayout: slide-x\nnote: a\"b\\c\n\nbody";
    let (gm, slides) = monocle::parse_slides(raw);
    assert_eq!(gm, pairs(&[("title", "T")]));
    assert_eq!(slides.len(), 2);
    assert_eq!(slides[0].body_html, "<b>first</b>");
    let json = monocle::build_slides_json(&slides);
    assert_eq!(
        json,
        "[{\"layout\":\"slide-default\",\"index\":1,\"attrs\":{},\"body\":\"<b>first</b>\"},{\"layout\":\"slide-x\",\"index\":2,\"attrs\":{\"note\":\"a\\\"b\\\\c\"},\"body\":\"<p>body</p>\\n\"}]"
    );
}

#[test]
fn monocle_page_and_layout_js() {
    let mut assets = AssetBundle::new();
    assets.add("slide-base.js", "B");
    assets.add("layouts/a.js", "import { SlideBase } from '../slide-base.js';A");
    assets.add("layouts/b.html", "H");
    assert_eq!(monocle::collect_layout_js(&assets), "B\nA\n");
    let page = monocle::build_index_html("[]", None, "F", "J", "L");
    assert!(page.contains("<script>window.__MONOCLE_SLIDES__ = [];</script>"));
    assert!(page.contains("<script type=\"module\">L\n\nJ</script>"));
    assert!(page.ends_with("</html>"));
}

#[test]
fn validate_messages_and_density() {
    let mut layouts = LayoutSet::new();
    layouts.load_builtin(&builtin_assets());
    let many_lines: Vec<String> = (0..23).map(|i| format!("line {i}")).collect();
    let raw = format!(
        "---\ntitle: T\n  nested: x\n---\n\nshort\n\n---\nlayout: slide-gone\n---\n\n{}\n\n---\nlayout: slide-cover\n---\n\n{}",
        many_lines.join("\n"),
        many_lines.join("\n")
    );
    let diags = validate_deck(&raw, &Vec::new(), &layouts);
    let msgs: Vec<(Option<usize>, String)> =
        diags.iter().map(|d| (d.slide, d.message.clone())).collect();
    assert_eq!(
        msgs,
        vec![
            (None, s("indented frontmatter is ignored (use flat `key: value` only): `nested: x`")),
            (Some(2), s("unknown layout `slide-gone` \u{2014} wb-slide falls back to slide-default")),
            (
                Some(2),
                s("slide looks dense and may overflow the 960x540 canvas (heuristic) \u{2014} consider splitting")
            ),
        ]
    );
    assert!(diags.iter().all(|d| d.severity == Severity::Warning));
}

#[test]
fn frontmatter_keys_are_alphanumeric() {
    let (meta, body) = wb_slide::deck::parse_frontmatter("héading_1: ok\nbad.key: no\nrest");
    assert_eq!(meta, pairs(&[("héading_1", "ok")]));
    assert_eq!(body, "bad.key: no\nrest");
}

#[test]
fn context_setters_chain() {
    let mut ctx = wb_slide::template::Context::new();
    ctx.set("a", "1").set("b", "<2>").set_slot("s", "<i>x</i>");
    assert_eq!(
        wb_slide::template::render("{{a}}{{b}}{{slot:s}}{{#b}}!{{/b}}{{^c}}?{{/c}}", &ctx),
        "1&lt;2&gt;<i>x</i>!?"
    );
}

#[test]
fn whitespace_value_counts_as_non_empty() {
    let mut ctx = wb_slide::template::Context::new();
    ctx.set("x", " ");
    assert_eq!(wb_slide::template::render("{{#x}}shown{{/x}}", &ctx), "shown");
    assert_eq!(wb_slide::template::render("{{^x}}no{{/x}}", &ctx), "");
    ctx.set("x", "");
    assert_eq!(wb_slide::template::render("{{#x}}shown{{/x}}", &ctx), "");
    assert_eq!(wb_slide::template::render("{{^x}}no{{/x}}", &ctx), "no");
}

#[test]
fn closing_fence_on_last_line_leaves_empty_body() {
    let l = Layout::parse_template("x", "---\nchrome: false\n---");
    assert!(!l.chrome);
    match &l.source {
        wb_slide::render::LayoutSource::Template(b) => assert_eq!(b, ""),
        _ => panic!("expected a template"),
    }
    let l = Layout::parse_template("x", "---\nchrome: false\n---\n<p/>");
    match &l.source {
        wb_slide::render::LayoutSource::Template(b) => assert_eq!(b, "<p/>"),
        _ => panic!("expected a template"),
    }
}

#[test]
fn triple_brace_slot_reads_the_slot() {
    let mut ctx = wb_slide::template::Context::new();
    ctx.set("slot:left", "VAR").set("left", "VAR2").set_slot("left", "<b>L</b>");
    assert_eq!(wb_slide::template::render("{{{slot:left}}}", &ctx), "<b>L</b>");
    assert_eq!(wb_slide::template::render("{{slot:left}}", &ctx), "<b>L</b>");
    assert_eq!(wb_slide::template::render("{{{slot:none}}}", &ctx), "");
}

#[test]
fn local_insert_overrides_one_name() {
    let mut layouts = LayoutSet::new();
    layouts.load_builtin(&builtin_assets());
    layouts.insert_local("slide-feature", Layout::parse_template("slide-feature", "<p>mine</p>"));
    match &layouts.resolve("slide-feature").unwrap().source {
        wb_slide::render::LayoutSource::Template(t) => assert_eq!(t, "<p>mine</p>"),
        _ => panic!("expected a template"),
    }
    match &layouts.resolve("slide-default").unwrap().source {
        wb_slide::render::LayoutSource::Template(t) => assert_eq!(t, "<div class=\"d\">{{{content}}}</div>"),
        _ => panic!("expected a template"),
    }
}

#[test]
fn guard_decomposes_at_first_define() {
    assert_eq!(
        guard_custom_elements_define("a;customElements.define(\"x-y\", f(1));b;customElements.define(`z`, C)"),
        "a;(customElements.get(\"x-y\") || customElements.define(\"x-y\", f(1)));b;(customElements.get(`z`) || customElements.define(`z`, C))"
    );
    assert_eq!(
        guard_custom_elements_define("customElements.define(name, C);"),
        "customElements.define(name, C);"
    );
}

#[test]
fn script_chrome_only_when_show_chrome_returns_false() {
    let keeps = "class C extends SlideBase { showChrome() { return true; } f() { return false; } }";
    assert!(Layout::parse_script("slide-c", keeps).chrome);
    let drops = "class C extends SlideBase { showChrome() { return false; } }";
    assert!(!Layout::parse_script("slide-c", drops).chrome);
    assert!(Layout::parse_script("slide-c", "class C {}").chrome);
}

#[test]
fn validation_report_lines_counts_and_exit() {
    let mut layouts = LayoutSet::new();
    layouts.load_builtin(&builtin_assets());
    let raw = "---\ntitle: T\n  nested: x\n---\n\n![a](a.png)";
    let diags = validate_deck(raw, &Vec::new(), &layouts);
    let report = wb_slide::validate::validation_report(&diags, false);
    assert_eq!(
        report.lines,
        vec![
            s("  [warn ] global: indented frontmatter is ignored (use flat `key: value` only): `nested: x`"),
            s("  [error] slide 1: asset not found: `a.png`"),
        ]
    );
    assert_eq!(report.summary, Some(s("\n1 error(s), 1 warning(s)")));
    assert!(report.failed);

    let raw = "---\ntitle: T\n  nested: x\n---\n\nok";
    let diags = validate_deck(raw, &Vec::new(), &layouts);
    assert!(!wb_slide::validate::validation_report(&diags, false).failed);
    assert!(wb_slide::validate::validation_report(&diags, true).failed);
    let empty = wb_slide::validate::validation_report(&Vec::new(), true);
    assert!(empty.lines.is_empty() && empty.summary.is_none() && !empty.failed);
}

#[test]
fn accessors_read_what_was_set() {
    let mut ctx = wb_slide::template::Context::new();
    ctx.set("a", "1").set_slot("s", "<p/>");
    assert_eq!(ctx.var_value("a"), Some(s("1")));
    assert_eq!(ctx.var_value("s"), None);
    assert_eq!(ctx.slot_value("s"), Some(s("<p/>")));
    let mut layouts = LayoutSet::new();
    layouts.load_builtin(&builtin_assets());
    layouts.insert_theme("slide-feature", Layout::parse_template("slide-feature", "<p>t</p>"));
    assert!(layouts.builtin_get("slide-feature").is_some());
    assert!(layouts.theme_get("slide-feature").is_some());
    assert!(layouts.local_get("slide-feature").is_none());
    layouts.insert_builtin("extra", Layout::parse_template("extra", "<p>x</p>"));
    assert_eq!(layouts.resolve("extra").unwrap().name, "extra");
}
