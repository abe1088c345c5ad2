use webcore::ast::{Attribute, AttributeValue, Component, Element, Layout, Page, WebCoreDocument};
use webcore::html::{generate_html, HtmlPageOptions};

fn text(t: &str) -> Element {
    Element::Text(t.to_string())
}

fn tag(name: &str, attributes: Vec<Attribute>, content: Vec<Element>) -> Element {
    Element::Tag { name: name.to_string(), attributes, content }
}

fn attr(name: &str, value: AttributeValue) -> Attribute {
    Attribute { name: name.to_string(), value }
}

fn options() -> HtmlPageOptions {
    HtmlPageOptions { lang: "fr".to_string(), title: "t".to_string() }
}

fn doc_with(layout: Vec<Element>, page: Vec<Element>) -> WebCoreDocument {
    let mut doc = WebCoreDocument::new();
    doc.insert_layout(Layout { name: "MainLayout".to_string(), content: layout });
    doc.insert_page(Page { name: "test".to_string(), content: page });
    doc
}

fn content_slot() -> Element {
    Element::Slot("content".to_string())
}

#[test]
fn event_fallback_uses_on_event_attribute() {
    let mut doc = WebCoreDocument::new();
    doc.insert_layout(Layout {
        name: "MainLayout".to_string(),
        content: vec![Element::Slot("content".to_string())],
    });
    doc.insert_page(Page {
        name: "test".to_string(),
        content: vec![Element::Tag {
            name: "button".to_string(),
            attributes: vec![Attribute {
                name: "on:foo".to_string(),
                value: AttributeValue::Expression("count += 1".to_string()),
            }],
            content: vec![],
        }],
    });

    let opts = HtmlPageOptions { lang: "fr".to_string(), title: "t".to_string() };
    let res = generate_html(&doc, "test", &opts).expect("html ok");
    assert!(res.html.contains("onfoo=\"webcore_handle_event('foo',"));
}

#[test]
fn unknown_event_names_generic_dispatcher_and_handler() {
    let page = vec![tag(
        "button",
        vec![attr("on:foo", AttributeValue::Expression("count += 1".to_string()))],
        vec![],
    )];
    let res = generate_html(&doc_with(vec![content_slot()], page), "test", &options()).unwrap();
    assert!(res.html.contains("id=\"btn1\" onfoo=\"webcore_handle_event('foo','btn1')\""));
    assert_eq!(res.handlers.len(), 1);
    assert_eq!(res.handlers[0].event_type, "foo");
    assert_eq!(res.handlers[0].expression, "count += 1");
}

#[test]
fn click_uses_dedicated_dispatcher() {
    let page = vec![tag(
        "button",
        vec![attr("on:click", AttributeValue::Expression("count += 1".to_string()))],
        vec![text("+")],
    )];
    let res = generate_html(&doc_with(vec![content_slot()], page), "test", &options()).unwrap();
    assert!(res.html.contains("<button id=\"btn1\" onclick=\"webcore_handle_click('btn1')\">+</button>"));
}

#[test]
fn slot_is_replaced_by_page_content() {
    let res = generate_html(
        &doc_with(vec![content_slot()], vec![tag("p", vec![], vec![text("hi")])]),
        "test",
        &options(),
    )
    .unwrap();
    assert!(res.html.contains("<body>\n<p>hi</p>  <script src=\"webcore.js\"></script>"));
    assert!(!res.html.contains("<!-- Slot"));
}

#[test]
fn nested_content_slot_in_layout_is_filled() {
    let layout = vec![tag("main", vec![], vec![content_slot()])];
    let res = generate_html(&doc_with(layout, vec![tag("p", vec![], vec![text("hi")])]), "test", &options())
        .unwrap();
    assert!(res.html.contains("<main><p>hi</p></main>"));
}

#[test]
fn other_slots_stay_as_comments() {
    let layout = vec![Element::Slot("sidebar".to_string()), content_slot()];
    let res = generate_html(&doc_with(layout, vec![text("x")]), "test", &options()).unwrap();
    assert!(res.html.contains("<!-- Slot: sidebar -->x"));
}

#[test]
fn link_maps_to_anchor_with_href() {
    let page = vec![
        tag("link", vec![attr("to", AttributeValue::String("/a".to_string()))], vec![text("A")]),
        tag("link", vec![], vec![text("B")]),
        tag("link", vec![attr("href", AttributeValue::String("/c".to_string()))], vec![]),
    ];
    let res = generate_html(&doc_with(vec![content_slot()], page), "test", &options()).unwrap();
    assert!(res.html.contains("<a href=\"/a\">A</a>"));
    assert!(res.html.contains("<a href=\"#\">B</a>"));
    assert!(res.html.contains("<a href=\"/c\"></a>"));
}

#[test]
fn text_tag_renders_only_its_children() {
    let page = vec![tag("text", vec![], vec![text("plain")])];
    let res = generate_html(&doc_with(vec![content_slot()], page), "test", &options()).unwrap();
    assert!(res.html.contains("<body>\nplain  <script"));
}

#[test]
fn two_click_handlers_get_distinct_ids() {
    let button = |label: &str| {
        tag(
            "button",
            vec![attr("on:click", AttributeValue::Expression("count += 1".to_string()))],
            vec![text(label)],
        )
    };
    let layout = vec![
        tag("nav", vec![attr("on:click", AttributeValue::Expression("count = 0".to_string()))], vec![]),
        content_slot(),
    ];
    let res = generate_html(&doc_with(layout, vec![button("a"), button("b")]), "test", &options()).unwrap();
    let ids: Vec<&str> = res.handlers.iter().map(|h| h.id.as_str()).collect();
    assert_eq!(ids, vec!["btn1", "btn2", "btn3"]);
    assert!(res.html.contains("id=\"btn2\""));
    assert!(res.html.contains("id=\"btn3\""));
}

#[test]
fn unresolved_component_renders_literal_tag() {
    let page = vec![Element::Component { name: "Missing".to_string(), attributes: vec![], content: vec![] }];
    let res = generate_html(&doc_with(vec![content_slot()], page), "test", &options()).unwrap();
    assert!(res.html.contains("<Missing></Missing>"));
}

#[test]
fn component_view_is_inlined() {
    let mut doc = doc_with(
        vec![content_slot()],
        vec![Element::Component { name: "Card".to_string(), attributes: vec![], content: vec![] }],
    );
    doc.insert_component(Component {
        name: "Card".to_string(),
        props: vec![],
        state: vec![],
        view: vec![tag("div", vec![attr("class", AttributeValue::String("card".to_string()))], vec![])],
        style: vec![],
    });
    let res = generate_html(&doc, "test", &options()).unwrap();
    assert!(res.html.contains("<div class=\"card\"></div>"));
    assert!(!res.html.contains("<Card"));
}

#[test]
fn component_cycle_is_an_error() {
    let mut doc = doc_with(
        vec![content_slot()],
        vec![Element::Component { name: "Loop".to_string(), attributes: vec![], content: vec![] }],
    );
    doc.insert_component(Component {
        name: "Loop".to_string(),
        props: vec![],
        state: vec![],
        view: vec![Element::Component { name: "Loop".to_string(), attributes: vec![], content: vec![] }],
        style: vec![],
    });
    let err = generate_html(&doc, "test", &options()).err().unwrap();
    assert_eq!(err, "component cycle detected at Loop");
}

#[test]
fn text_is_escaped() {
    let page = vec![text("<script>alert('x') & \"y\"</script>")];
    let res = generate_html(&doc_with(vec![content_slot()], page), "test", &options()).unwrap();
    assert!(res.html.contains("&lt;script&gt;alert(&#x27;x&#x27;) &amp; &quot;y&quot;&lt;/script&gt;"));
    assert!(!res.html.contains("<script>alert"));
}

#[test]
fn attributes_render_by_kind() {
    let page = vec![tag(
        "input",
        vec![
            attr("disabled", AttributeValue::Boolean(true)),
            attr("hidden", AttributeValue::Boolean(false)),
            attr("value", AttributeValue::Expression("count".to_string())),
            attr("title", AttributeValue::String("a<b".to_string())),
        ],
        vec![],
    )];
    let res = generate_html(&doc_with(vec![content_slot()], page), "test", &options()).unwrap();
    assert!(res.html.contains("<input disabled value=\"{}\" title=\"a&lt;b\"></input>"));
}

#[test]
fn interpolation_renders_span() {
    let page = vec![Element::Interpolation("n".to_string()), Element::Interpolation("a {n} b".to_string())];
    let res = generate_html(&doc_with(vec![content_slot()], page), "test", &options()).unwrap();
    assert!(res.html.contains(
        "<span data-webcore-interpolation=\"n\">0</span>a <span data-webcore-interpolation=\"n\">0</span> b"
    ));
}

#[test]
fn page_shell_holds_lang_and_title() {
    let opts = HtmlPageOptions { lang: "en".to_string(), title: "A & B".to_string() };
    let res = generate_html(&doc_with(vec![content_slot()], vec![]), "test", &opts).unwrap();
    assert!(res.html.starts_with("<!DOCTYPE html>\n<html lang=\"en\">\n<head>\n"));
    assert!(res.html.contains("<title>A &amp; B</title>"));
    assert!(res.html.ends_with("</body>\n</html>"));
}

#[test]
fn missing_page_is_an_error() {
    let err = generate_html(&doc_with(vec![content_slot()], vec![]), "nope", &options()).err().unwrap();
    assert_eq!(err, "Page 'nope' not found");
}

#[test]
fn missing_layout_is_an_error() {
    let mut doc = WebCoreDocument::new();
    doc.insert_page(Page { name: "test".to_string(), content: vec![] });
    let err = generate_html(&doc, "test", &options()).err().unwrap();
    assert_eq!(err, "No layout found (tried MainLayout and default)");
}

#[test]
fn default_layout_is_the_fallback() {
    let mut doc = WebCoreDocument::new();
    doc.insert_layout(Layout { name: "default".to_string(), content: vec![tag("div", vec![], vec![content_slot()])] });
    doc.insert_page(Page { name: "test".to_string(), content: vec![text("x")] });
    let res = generate_html(&doc, "test", &options()).unwrap();
    assert!(res.html.contains("<div>x</div>"));
}

#[test]
fn generation_is_deterministic() {
    let page = vec![
        tag("button", vec![attr("on:click", AttributeValue::Expression("count += 1".to_string()))], vec![]),
        tag("p", vec![], vec![text("hi")]),
    ];
    let doc = doc_with(vec![content_slot()], page);
    let a = generate_html(&doc, "test", &options()).unwrap();
    let b = generate_html(&doc, "test", &options()).unwrap();
    assert_eq!(a.html, b.html);
    assert_eq!(a.handlers.len(), b.handlers.len());
    assert_eq!(a.handlers[0].id, b.handlers[0].id);
}
