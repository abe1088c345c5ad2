use webcore::ast::{Component, Element, Layout, Page, StateVar, WebCoreDocument};
use webcore::html::HtmlPageOptions;
use webcore::parser::parse_webc;
use webcore::site::{build_site, default_page_content, generate_index_html};

fn options() -> HtmlPageOptions {
    HtmlPageOptions { lang: "fr".to_string(), title: "WebCore App".to_string() }
}

fn with_layout() -> WebCoreDocument {
    let mut doc = WebCoreDocument::new();
    doc.insert_layout(Layout { name: "MainLayout".to_string(), content: vec![Element::Slot("content".to_string())] });
    doc
}

#[test]
fn empty_document_gets_default_index_page() {
    let out = build_site(&with_layout(), None, &options(), false).unwrap();
    assert_eq!(out.pages.len(), 1);
    assert_eq!(out.pages[0].name, "index");
    assert!(out.pages[0].html.contains("Welcome to WebCore"));
    assert!(out.pages[0].html.contains("This is a default page."));
    assert!(out.css.is_none());
}

#[test]
fn default_content_shape() {
    let c = default_page_content();
    assert_eq!(c.len(), 2);
    assert!(matches!(&c[0], Element::Tag { name, .. } if name == "h1"));
}

#[test]
fn empty_document_without_layout_fails() {
    let err = build_site(&WebCoreDocument::new(), None, &options(), false).err().unwrap();
    assert_eq!(err, "No layout found (tried MainLayout and default)");
}

#[test]
fn pages_and_page_components_are_generated() {
    let mut doc = with_layout();
    doc.insert_page(Page { name: "b".to_string(), content: vec![Element::Text("B".to_string())] });
    doc.insert_page(Page { name: "a".to_string(), content: vec![Element::Text("A".to_string())] });
    doc.insert_component(Component {
        name: "HomePage".to_string(),
        props: vec![],
        state: vec![StateVar { name: "count".to_string(), type_: "Number".to_string(), default_value: Some("3".to_string()) }],
        view: vec![Element::Text("H".to_string())],
        style: vec![],
    });
    doc.insert_component(Component { name: "Card".to_string(), props: vec![], state: vec![], view: vec![], style: vec![] });
    let out = build_site(&doc, None, &options(), false).unwrap();
    let names: Vec<&str> = out.pages.iter().map(|p| p.name.as_str()).collect();
    assert_eq!(names, vec!["b", "a", "HomePage"]);
    assert!(out.pages[2].html.contains("<body>\nH  <script"));
    assert!(out.js.ends_with("\n// Component: HomePage\nwindow.__webcore_state__.set('count', 3);\n"));
    let h = out.index.find("HomePage.html").unwrap();
    let a = out.index.find("a.html").unwrap();
    let b = out.index.find("b.html").unwrap();
    assert!(h < a && a < b);
}

#[test]
fn handlers_of_all_pages_reach_the_runtime() {
    let src = "layout MainLayout { slot } page \"one\" { button on:click={count += 1} \"+\" } page \"two\" { button on:submit={count = 0} \"0\" }";
    let doc = parse_webc(src).unwrap();
    let out = build_site(&doc, None, &options(), false).unwrap();
    assert_eq!(out.pages[0].handlers.len(), 1);
    assert_eq!(out.pages[1].handlers.len(), 1);
    assert!(out.js.contains("(window.__webcore_state__.get('count') || 0) + 1)"));
    assert!(out.js.contains("window.__webcore_state__.set('count', 0)"));
}

#[test]
fn theme_css_is_processed() {
    let theme = webcore::theme::Theme {
        name: "t".to_string(),
        colors: vec![("primary".to_string(), "red".to_string())],
        fonts: vec![],
        radius: vec![],
        breakpoints: vec![],
    };
    let out = build_site(&with_layout(), Some(&theme), &options(), true).unwrap();
    let css = out.css.unwrap();
    assert!(css.contains("--color-primary:red"));
    assert!(!css.contains('\n'));
}

#[test]
fn build_is_deterministic() {
    let src = "layout MainLayout { slot } page \"one\" { button on:click={count += 1} \"+\" p \"<b>\" }";
    let doc = parse_webc(src).unwrap();
    let a = build_site(&doc, None, &options(), false).unwrap();
    let b = build_site(&doc, None, &options(), false).unwrap();
    assert_eq!(a.pages[0].html, b.pages[0].html);
    assert_eq!(a.js, b.js);
    assert_eq!(a.index, b.index);
}

#[test]
fn index_lists_names_sorted() {
    let html = generate_index_html(vec!["zeta".to_string(), "Alpha".to_string(), "beta".to_string()]);
    let z = html.find("zeta.html").unwrap();
    let a = html.find("Alpha.html").unwrap();
    let b = html.find("beta.html").unwrap();
    assert!(a < b && b < z);
    assert!(html.contains("  <li><a href=\"beta.html\">beta</a></li>\n"));
}

#[test]
fn merge_keeps_last_definition() {
    let mut doc = parse_webc("page \"x\" { p \"one\" } layout L { }").unwrap();
    let other = parse_webc("page \"x\" { p \"two\" } page \"y\" { }").unwrap();
    doc.merge_from(other);
    assert_eq!(doc.pages.len(), 2);
    assert_eq!(doc.layouts.len(), 1);
    match &doc.pages[0].content[0] {
        Element::Tag { content, .. } => assert!(matches!(&content[0], Element::Text(t) if t == "two")),
        _ => panic!("expected a tag"),
    }
}
