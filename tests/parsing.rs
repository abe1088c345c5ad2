use webcore::ast::{AttributeValue, Element};
use webcore::parser::{parse_webc, split_interpolated_text, ParseError};

#[test]
fn splits_mixed_text_and_interpolation() {
    let src = r#"
component CounterPage {
  view {
    p "Nombre de clics: {count}"
  }
}
"#;
    let doc = parse_webc(src).expect("parse ok");
    let comp = doc.components.iter().find(|c| c.name == "CounterPage").expect("component exists");
    // Expect: p tag with children [Text("Nombre de clics: "), Interpolation("count")]
    match &comp.view[0] {
        Element::Tag { name, content, .. } => {
            assert_eq!(name, "p");
            assert!(matches!(content.get(0), Some(Element::Text(t)) if t == "Nombre de clics: "));
            assert!(matches!(content.get(1), Some(Element::Interpolation(v)) if v == "count"));
        }
        _ => panic!("expected p tag"),
    }
}

#[test]
fn interpolation_split_keeps_text_around() {
    let parts = split_interpolated_text("Count: {n} now");
    assert_eq!(parts.len(), 3);
    assert!(matches!(&parts[0], Element::Text(t) if t == "Count: "));
    assert!(matches!(&parts[1], Element::Interpolation(v) if v == "n"));
    assert!(matches!(&parts[2], Element::Text(t) if t == " now"));
}

#[test]
fn interpolation_split_edge_cases() {
    let empty = split_interpolated_text("");
    assert_eq!(empty.len(), 1);
    assert!(matches!(&empty[0], Element::Text(t) if t.is_empty()));
    let trimmed = split_interpolated_text("{ a }{b}");
    assert!(matches!(&trimmed[0], Element::Interpolation(v) if v == "a"));
    assert!(matches!(&trimmed[1], Element::Interpolation(v) if v == "b"));
    let open = split_interpolated_text("x {y");
    assert_eq!(open.len(), 2);
    assert!(matches!(&open[0], Element::Text(t) if t == "x "));
    assert!(matches!(&open[1], Element::Text(t) if t == "{y"));
}

#[test]
fn layout_with_slot_parses() {
    let doc = parse_webc("layout MainLayout { header { h1 \"Site\" } slot content slot }").unwrap();
    assert_eq!(doc.layouts.len(), 1);
    let layout = &doc.layouts[0];
    assert_eq!(layout.name, "MainLayout");
    assert_eq!(layout.content.len(), 3);
    assert!(matches!(&layout.content[1], Element::Slot(s) if s == "content"));
    assert!(matches!(&layout.content[2], Element::Slot(s) if s == "content"));
}

#[test]
fn page_name_is_a_string() {
    let doc = parse_webc("page \"about\" { p \"hello\" }").unwrap();
    assert_eq!(doc.pages.len(), 1);
    assert_eq!(doc.pages[0].name, "about");
}

#[test]
fn stray_elements_replace_the_default_page() {
    let doc = parse_webc("p \"a\" p \"b\"").unwrap();
    assert_eq!(doc.pages.len(), 1);
    assert_eq!(doc.pages[0].name, "default");
    match &doc.pages[0].content[0] {
        Element::Tag { content, .. } => assert!(matches!(&content[0], Element::Text(t) if t == "b")),
        _ => panic!("expected a tag"),
    }
}

#[test]
fn later_definition_wins() {
    let doc = parse_webc("page \"x\" { p \"one\" } page \"x\" { p \"two\" }").unwrap();
    assert_eq!(doc.pages.len(), 1);
    match &doc.pages[0].content[0] {
        Element::Tag { content, .. } => assert!(matches!(&content[0], Element::Text(t) if t == "two")),
        _ => panic!("expected a tag"),
    }
}

#[test]
fn attributes_of_each_kind() {
    let doc = parse_webc(
        "page \"p\" { button class=\"big\" disabled on:click={count = max(0, count - 1)} \"Go\" }",
    )
    .unwrap();
    match &doc.pages[0].content[0] {
        Element::Tag { name, attributes, content } => {
            assert_eq!(name, "button");
            assert_eq!(attributes.len(), 3);
            assert!(matches!(&attributes[0].value, AttributeValue::String(v) if v == "big"));
            assert!(matches!(&attributes[1].value, AttributeValue::Boolean(true)));
            assert_eq!(attributes[2].name, "on:click");
            assert!(matches!(&attributes[2].value, AttributeValue::Expression(x) if x == "count=max(0,count-1)"));
            assert!(matches!(&content[0], Element::Text(t) if t == "Go"));
        }
        _ => panic!("expected a tag"),
    }
}

#[test]
fn expression_tokens_are_restrung() {
    let doc = parse_webc("page \"p\" { button on:click={count += 1} \"+\" }").unwrap();
    match &doc.pages[0].content[0] {
        Element::Tag { attributes, .. } => {
            assert!(matches!(&attributes[0].value, AttributeValue::Expression(x) if x == "count+=1"));
        }
        _ => panic!("expected a tag"),
    }
}

#[test]
fn capitalised_names_are_components() {
    let doc = parse_webc("page \"p\" { Counter Écran café \"x\" }").unwrap();
    let content = &doc.pages[0].content;
    assert!(matches!(&content[0], Element::Component { name, .. } if name == "Counter"));
    match &content[0] {
        Element::Component { attributes, .. } => {
            assert_eq!(attributes[0].name, "Écran");
            assert_eq!(attributes[1].name, "café");
        }
        _ => panic!("expected a component"),
    }
    let doc = parse_webc("page \"p\" { Écran { } café { } }").unwrap();
    let content = &doc.pages[0].content;
    assert!(matches!(&content[0], Element::Component { name, .. } if name == "Écran"));
    assert!(matches!(&content[1], Element::Tag { name, .. } if name == "café"));
}

#[test]
fn lone_braced_string_is_an_interpolation() {
    let doc = parse_webc("page \"p\" { \"{count}\" \"plain\" }").unwrap();
    let content = &doc.pages[0].content;
    assert!(matches!(&content[0], Element::Interpolation(v) if v == "count"));
    assert!(matches!(&content[1], Element::Text(t) if t == "plain"));
}

#[test]
fn component_sections_parse() {
    let src = r#"
component Counter {
  props { label : String step }
  state { count : Number = 0 name : String = "x" flag : Boolean }
  view { p "{count}" }
  style { button { color : "red" padding : big } }
}
"#;
    let doc = parse_webc(src).unwrap();
    let c = &doc.components[0];
    assert_eq!(c.name, "Counter");
    assert_eq!(c.props.len(), 2);
    assert_eq!(c.props[0].type_.as_deref(), Some("String"));
    assert!(c.props[1].type_.is_none());
    assert_eq!(c.state.len(), 3);
    assert_eq!(c.state[0].default_value.as_deref(), Some("0"));
    assert_eq!(c.state[1].default_value.as_deref(), Some("x"));
    assert!(c.state[2].default_value.is_none());
    assert_eq!(c.view.len(), 1);
    assert_eq!(c.style.len(), 1);
    assert_eq!(c.style[0].selector, "button");
    assert_eq!(c.style[0].properties[0].value, "red");
    assert_eq!(c.style[0].properties[1].value, "big");
}

#[test]
fn app_section_parses() {
    let doc = parse_webc("app Demo { theme : \"dark\" layout : MainLayout routes { \"/\": HomePage \"/\": Other } }")
        .unwrap();
    let app = doc.app.unwrap();
    assert_eq!(app.name, "Demo");
    assert_eq!(app.theme.as_deref(), Some("dark"));
    assert_eq!(app.layout.as_deref(), Some("MainLayout"));
    assert_eq!(app.routes.len(), 1);
    assert_eq!(app.routes[0].component, "Other");
}

#[test]
fn colon_after_a_name_belongs_to_the_name() {
    let err = parse_webc("component C { state { count: Number } }").err().unwrap();
    assert!(matches!(err, ParseError::ExpectedToken(m) if m == "Colon"));
}

#[test]
fn unknown_characters_are_dropped() {
    let doc = parse_webc("page \"p\" { p @#$ \"x\" }").unwrap();
    match &doc.pages[0].content[0] {
        Element::Tag { content, .. } => assert!(matches!(&content[0], Element::Text(t) if t == "x")),
        _ => panic!("expected a tag"),
    }
}

#[test]
fn missing_layout_name_is_an_expected_token_error() {
    let err = parse_webc("layout { }").err().unwrap();
    assert!(matches!(err, ParseError::ExpectedToken(m) if m == "layout name"));
}

#[test]
fn missing_brace_is_an_expected_token_error() {
    let err = parse_webc("page \"x\" p").err().unwrap();
    assert!(matches!(err, ParseError::ExpectedToken(m) if m == "LeftBrace"));
}

#[test]
fn unexpected_token_is_reported() {
    let err = parse_webc("page \"x\" { } }").err().unwrap();
    assert!(matches!(err, ParseError::UnexpectedToken(m) if m == "RightBrace"));
}

#[test]
fn unclosed_block_is_reported() {
    let err = parse_webc("page \"x\" { p \"a\"").err().unwrap();
    assert!(matches!(err, ParseError::UnexpectedToken(m) if m == "Eof"));
}

#[test]
fn unclosed_expression_is_reported() {
    let err = parse_webc("page \"x\" { button on:click={count").err().unwrap();
    assert!(matches!(err, ParseError::ExpectedToken(m) if m == "RightBrace"));
}

#[test]
fn tags_flags_expressions_and_components_parse() {
    let doc = parse_webc("page \"p\" { button disabled \"Go\" b on:click={count += max(1, 2)} \"x\" Card title=\"T\" }").unwrap();
    let content = &doc.pages[0].content;
    match &content[0] {
        Element::Tag { name, attributes, content } => {
            assert_eq!(name, "button");
            assert_eq!(attributes[0].name, "disabled");
            assert!(matches!(attributes[0].value, AttributeValue::Boolean(true)));
            assert!(matches!(&content[0], Element::Text(t) if t == "Go"));
        }
        _ => panic!("expected a tag"),
    }
    match &content[1] {
        Element::Tag { attributes, .. } => {
            assert!(matches!(&attributes[0].value, AttributeValue::Expression(x) if x == "count+=max(1,2)"));
        }
        _ => panic!("expected a tag"),
    }
    match &content[2] {
        Element::Component { name, attributes, content } => {
            assert_eq!(name, "Card");
            assert!(matches!(&attributes[0].value, AttributeValue::String(v) if v == "T"));
            assert!(content.is_empty());
        }
        _ => panic!("expected a component"),
    }
}

#[test]
fn app_errors_name_the_token() {
    let err = parse_webc("app { }").err().unwrap();
    assert!(matches!(err, ParseError::ExpectedToken(m) if m == "app name"));
    let err = parse_webc("app A { \"x\" }").err().unwrap();
    assert!(matches!(err, ParseError::UnexpectedToken(m) if m == "String(\"x\")"));
}

#[test]
fn stray_identifier_error_shows_its_text() {
    let err = parse_webc("page \"p\" { } = ").err().unwrap();
    assert!(matches!(err, ParseError::UnexpectedToken(m) if m == "Equals"));
}

#[test]
fn component_with_bare_string_view() {
    let doc = parse_webc("component C { \"hi\" }").unwrap();
    let c = &doc.components[0];
    assert!(c.props.is_empty() && c.state.is_empty() && c.style.is_empty());
    assert!(matches!(&c.view[0], Element::Text(t) if t == "hi"));
}
