use wb_slide::template::{render, Context};

#[test]
fn test_plain_text() {
    let ctx = Context::new();
    assert_eq!(render("hello world", &ctx), "hello world");
}

#[test]
fn test_variable_substitution() {
    let mut ctx = Context::new();
    ctx.set("name", "Alice");
    assert_eq!(render("Hello {{name}}!", &ctx), "Hello Alice!");
}

#[test]
fn test_html_escape() {
    let mut ctx = Context::new();
    ctx.set("x", "<script>alert('x')</script>");
    let out = render("{{x}}", &ctx);
    assert!(out.contains("&lt;script&gt;"));
    assert!(!out.contains("<script>"));
}

#[test]
fn test_raw_no_escape() {
    let mut ctx = Context::new();
    ctx.set("x", "<b>bold</b>");
    assert_eq!(render("{{{x}}}", &ctx), "<b>bold</b>");
}

#[test]
fn test_missing_var_empty() {
    let ctx = Context::new();
    assert_eq!(render("Hello {{name}}!", &ctx), "Hello !");
}

#[test]
fn test_section_truthy() {
    let mut ctx = Context::new();
    ctx.set("x", "yes");
    assert_eq!(render("{{#x}}shown{{/x}}", &ctx), "shown");
}

#[test]
fn test_section_empty_string() {
    let mut ctx = Context::new();
    ctx.set("x", "");
    assert_eq!(render("{{#x}}shown{{/x}}", &ctx), "");
}

#[test]
fn test_section_missing() {
    let ctx = Context::new();
    assert_eq!(render("{{#x}}shown{{/x}}", &ctx), "");
}

#[test]
fn test_inverted_section() {
    let ctx = Context::new();
    assert_eq!(render("{{^x}}no{{/x}}", &ctx), "no");

    let mut ctx2 = Context::new();
    ctx2.set("x", "y");
    assert_eq!(render("{{^x}}no{{/x}}", &ctx2), "");
}

#[test]
fn test_nested_var_in_section() {
    let mut ctx = Context::new();
    ctx.set("title", "Hello");
    ctx.set("show", "1");
    assert_eq!(
        render("{{#show}}<h1>{{title}}</h1>{{/show}}", &ctx),
        "<h1>Hello</h1>"
    );
}

#[test]
fn test_nested_sections() {
    let mut ctx = Context::new();
    ctx.set("a", "1");
    ctx.set("b", "1");
    let tpl = "{{#a}}A{{#b}}B{{/b}}A2{{/a}}";
    assert_eq!(render(tpl, &ctx), "ABA2");
}

#[test]
fn test_slot_lookup() {
    let mut ctx = Context::new();
    ctx.set_slot("left", "<p>left content</p>");
    assert_eq!(
        render("col: {{slot:left}}", &ctx),
        "col: <p>left content</p>"
    );
}

#[test]
fn test_slot_section() {
    let mut ctx = Context::new();
    ctx.set_slot("left", "x");
    let tpl = "{{#slot:left}}has left{{/slot:left}}";
    assert_eq!(render(tpl, &ctx), "has left");
}

#[test]
fn test_real_layout_template() {
    let tpl = r#"<div class="ms-feature-layout">
  <h1 class="ms-slide-title">{{heading}}</h1>
  {{#subtitle}}<p class="ms-slide-subtitle">{{subtitle}}</p>{{/subtitle}}
  <div class="ms-slot-area">{{{content}}}</div>
</div>"#;
    let mut ctx = Context::new();
    ctx.set("heading", "Multi Vendor");
    ctx.set("subtitle", "");
    ctx.set("content", "<img src=\"foo.png\" />");
    let out = render(tpl, &ctx);
    assert!(out.contains("<h1 class=\"ms-slide-title\">Multi Vendor</h1>"));
    assert!(!out.contains("ms-slide-subtitle"));
    assert!(out.contains("<img src=\"foo.png\" />"));
}

#[test]
fn test_unmatched_open_renders_literal() {
    let ctx = Context::new();
    assert_eq!(render("{{x", &ctx), "{{x");
}
