use webcore::ast::{Component, StateVar};
use webcore::css::{generate_css, generate_theme_css};
use webcore::css_processor::{format_css, minify_css, process_css};
use webcore::html::HandlerMapping;
use webcore::js::{compile_expression, generate_component_js, generate_js, generate_runtime_js};
use webcore::theme::Theme;

fn pair(a: &str, b: &str) -> (String, String) {
    (a.to_string(), b.to_string())
}

#[test]
fn increment_compiles_to_store_update() {
    assert_eq!(
        compile_expression("count += 1"),
        "window.__webcore_state__.set('count', (window.__webcore_state__.get('count') || 0) + 1)"
    );
}

#[test]
fn decrement_compiles_to_store_update() {
    assert_eq!(
        compile_expression(" total -= 2 "),
        "window.__webcore_state__.set('total', (window.__webcore_state__.get('total') || 0) - 2)"
    );
}

#[test]
fn assignment_rewrites_calls_and_count() {
    assert_eq!(
        compile_expression("count = max(0, count - 1)"),
        "window.__webcore_state__.set('count', window.__webcore_utils__.max(0, window.__webcore_state__.get('count') - 1))"
    );
    assert_eq!(
        compile_expression("x=min(count,3)"),
        "window.__webcore_state__.set('x', window.__webcore_utils__.min(window.__webcore_state__.get('count'),3))"
    );
}

#[test]
fn plain_expression_is_a_read() {
    assert_eq!(compile_expression("count"), "window.__webcore_state__.get('count')");
    assert_eq!(compile_expression("a == b"), "a == b");
    assert_eq!(compile_expression("a += b += c"), "a += b += c");
    assert_eq!(compile_expression("a = b = c"), "a = b = c");
}

#[test]
fn runtime_lists_compiled_handlers() {
    let handlers = vec![
        HandlerMapping { id: "btn1".to_string(), event_type: "click".to_string(), expression: "count += 1".to_string() },
        HandlerMapping { id: "btn2".to_string(), event_type: "foo".to_string(), expression: "count = 0".to_string() },
    ];
    let js = generate_runtime_js(&handlers);
    assert!(js.starts_with("// WebCore Runtime\n(function() {\n"));
    assert!(js.contains("    'btn1': function() {\n      try {\n        window.__webcore_state__.set('count', (window.__webcore_state__.get('count') || 0) + 1)\n"));
    assert!(js.contains("    'btn2': function() {\n      try {\n        window.__webcore_state__.set('count', 0)\n"));
    assert!(js.find("'btn1'").unwrap() < js.find("'btn2'").unwrap());
    assert!(js.contains("window.webcore_handle_event = function(eventType, handlerId)"));
    assert!(js.ends_with("})();\n"));
}

#[test]
fn empty_runtime_has_empty_table() {
    let js = generate_runtime_js(&[]);
    assert!(js.contains("  window.__webcore_handlers__ = {\n  };\n"));
}

#[test]
fn component_state_initialisation() {
    let c = Component {
        name: "Counter".to_string(),
        props: vec![],
        state: vec![
            StateVar { name: "count".to_string(), type_: "Number".to_string(), default_value: Some("0".to_string()) },
            StateVar { name: "label".to_string(), type_: "String".to_string(), default_value: None },
        ],
        view: vec![],
        style: vec![],
    };
    assert_eq!(
        generate_component_js(&c),
        "// Component: Counter\nwindow.__webcore_state__.set('count', 0);\nwindow.__webcore_state__.set('label', null);\n"
    );
}

#[test]
fn placeholders() {
    assert_eq!(generate_js(), "// JS output placeholder");
    assert_eq!(generate_css(), "/* CSS output placeholder */");
}

fn theme() -> Theme {
    Theme {
        name: "light".to_string(),
        colors: vec![pair("primary", "#fff"), pair("accent-dark", "#123")],
        fonts: vec![pair("body", "Inter")],
        radius: vec![pair("sm", "4px")],
        breakpoints: vec![pair("md", "768px")],
    }
}

#[test]
fn theme_css_declares_each_token() {
    let css = generate_theme_css(&theme());
    assert!(css.starts_with(":root {\n"));
    assert!(css.ends_with("}\n"));
    for line in [
        "  --color-primary: #fff;\n",
        "  --color-accent-dark: #123;\n",
        "  --font-body: Inter;\n",
        "  --radius-sm: 4px;\n",
        "  --breakpoint-md: 768px;\n",
    ] {
        assert!(css.contains(line), "missing {line}");
    }
    assert_eq!(css.lines().count(), 7);
}

#[test]
fn empty_theme_css() {
    let t = Theme { name: "e".to_string(), colors: vec![], fonts: vec![], radius: vec![], breakpoints: vec![] };
    assert_eq!(generate_theme_css(&t), ":root {\n}\n");
}

#[test]
fn minified_css_differs_from_source() {
    let source = generate_theme_css(&theme());
    let out = minify_css(&source).unwrap();
    assert_ne!(out, source);
    assert!(!out.contains('\n'));
    assert!(out.contains("--color-primary:#fff"));
}

#[test]
fn formatted_css_keeps_declarations() {
    let out = format_css(":root{--font-body:Inter}").unwrap();
    assert_ne!(out, ":root{--font-body:Inter}");
    assert!(out.contains("--font-body: Inter"));
}

#[test]
fn unparsable_css_is_an_error() {
    let err = process_css("a { color: red; } }}} @media {", false);
    if let Err(m) = err {
        assert!(m.starts_with("Failed to parse CSS: ") || m.starts_with("Failed to generate CSS: "));
    }
}

#[test]
fn minify_is_processing_with_minify_set() {
    let source = ":root {\n  --a: 1px;\n}\n";
    assert_eq!(minify_css(source), process_css(source, true));
    assert_eq!(format_css(source), process_css(source, false));
}
