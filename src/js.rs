//! JavaScript generation: the reactive runtime with its compiled handler
//! table, and the state initialisation of components.
use crate::ast::{Component, StateVar};
use crate::html::{views, HandlerMapping, HandlerView};
use crate::text::{
    contains, contains_seq, find_from, first_occ, replace_all, replace_seq, string_of,
    to_chars, trim, trim_range,
};
use vstd::prelude::*;
use vstd::string::*;

verus! {

/// The runtime up to its handler table.
pub const RUNTIME_HEAD: &'static str = "// WebCore Runtime\n(function() {\n  'use strict';\n\n  // Compiled Event Handlers\n  window.__webcore_handlers__ = {\n";

/// The runtime after its handler table: the state store, the dispatch
/// functions and the utilities.
pub const RUNTIME_TAIL: &'static str = "  };\n\n  // State Management\n  class WebCoreState {\n    constructor() {\n      this.data = new Map();\n      this.listeners = new Map();\n    }\n\n    set(key, value) {\n      this.data.set(key, value);\n      this.notify(key, value);\n    }\n\n    get(key) {\n      return this.data.get(key);\n    }\n\n    subscribe(key, callback) {\n      if (!this.listeners.has(key)) {\n        this.listeners.set(key, []);\n      }\n      this.listeners.get(key).push(callback);\n    }\n\n    notify(key, value) {\n      const callbacks = this.listeners.get(key) || [];\n      callbacks.forEach(callback => callback(value));\n    }\n  }\n\n  window.__webcore_state__ = new WebCoreState();\n  \n  // Initialize default state\n  window.__webcore_state__.set('count', 0);\n\n  // Event Handlers\n  function handleEvent(event, handler) {\n    event.preventDefault();\n    try {\n      handler();\n    } catch (error) {\n      console.error('WebCore event handler error:', error);\n    }\n  }\n\n  // Utility Functions\n  window.__webcore_utils__ = {\n    max: Math.max,\n    min: Math.min,\n    abs: Math.abs,\n    round: Math.round,\n    floor: Math.floor,\n    ceil: Math.ceil\n  };\n\n  // Initialize WebCore\n  document.addEventListener('DOMContentLoaded', function() {\n    console.log('WebCore Runtime initialized');\n    \n    // Initialize interpolations\n    const interpolations = document.querySelectorAll('[data-webcore-interpolation]');\n    interpolations.forEach(function(element) {\n      const varName = element.getAttribute('data-webcore-interpolation');\n      const updateText = function() {\n        const value = window.__webcore_state__.get(varName);\n        element.textContent = value !== undefined ? value : '';\n      };\n      updateText();\n      window.__webcore_state__.subscribe(varName, updateText);\n    });\n    \n    // Global HTML5 event handlers\n    window.webcore_handle_click = function(handlerId) {\n      if (window.__webcore_handlers__[handlerId]) {\n        window.__webcore_handlers__[handlerId]();\n      }\n    };\n    \n    window.webcore_handle_submit = function(handlerId) {\n      if (window.__webcore_handlers__[handlerId]) {\n        window.__webcore_handlers__[handlerId]();\n      }\n    };\n    \n    window.webcore_handle_change = function(handlerId) {\n      if (window.__webcore_handlers__[handlerId]) {\n        window.__webcore_handlers__[handlerId]();\n      }\n    };\n    \n    window.webcore_handle_input = function(handlerId) {\n      if (window.__webcore_handlers__[handlerId]) {\n        window.__webcore_handlers__[handlerId]();\n      }\n    };\n    \n    window.webcore_handle_event = function(eventType, handlerId) {\n      if (window.__webcore_handlers__[handlerId]) {\n        window.__webcore_handlers__[handlerId]();\n      }\n    };\n  });\n})();\n";

/// The names in a value expression rewritten to the store and utilities:
/// `max(` and `min(` to the utility functions, and `count` to a store read.
pub open spec fn rewrite_names(s: Seq<char>) -> Seq<char> {
    replace_all(
        replace_all(
            replace_all(s, "max("@, "window.__webcore_utils__.max("@),
            "min("@,
            "window.__webcore_utils__.min("@,
        ),
        "count"@,
        "window.__webcore_state__.get('count')"@,
    )
}

/// `x` split at its first `op`, where `op` occurs exactly once: the trimmed
/// left and right sides.
pub open spec fn sides(x: Seq<char>, op: Seq<char>) -> Option<(Seq<char>, Seq<char>)> {
    let i = first_occ(x, op, 0);
    if i < 0 || contains(x.subrange(i + op.len(), x.len() as int), op) {
        None
    } else {
        Some((trim(x.subrange(0, i)), trim(x.subrange(i + op.len(), x.len() as int))))
    }
}

/// `var op= value` as a store update; `sign` is `+` or `-`.
pub open spec fn update_code(v: Seq<char>, sign: Seq<char>, value: Seq<char>) -> Seq<char> {
    "window.__webcore_state__.set('"@ + v + "', (window.__webcore_state__.get('"@ + v
        + "') || 0) "@ + sign + " "@ + value + ")"@
}

/// `var = value` as a store write.
pub open spec fn assign_code(v: Seq<char>, value: Seq<char>) -> Seq<char> {
    "window.__webcore_state__.set('"@ + v + "', "@ + value + ")"@
}

/// The statement that a handler expression compiles to, by the first rule
/// that applies: `+=`, `-=`, a single `=` (not `==` or `!=`), else a value
/// read. An expression that splits into more than two sides is kept as is.
pub open spec fn compile(x: Seq<char>) -> Seq<char> {
    if contains(x, "+="@) {
        match sides(x, "+="@) {
            Some(p) => update_code(p.0, "+"@, p.1),
            None => x,
        }
    } else if contains(x, "-="@) {
        match sides(x, "-="@) {
            Some(p) => update_code(p.0, "-"@, p.1),
            None => x,
        }
    } else if contains(x, "="@) && !contains(x, "=="@) && !contains(x, "!="@) {
        match sides(x, "="@) {
            Some(p) => assign_code(p.0, rewrite_names(p.1)),
            None => x,
        }
    } else {
        rewrite_names(x)
    }
}

/// Rewrites the names of a value expression, as `rewrite_names` says.
fn rewrite(s: &Vec<char>) -> (r: Vec<char>)
    ensures
        r@ == rewrite_names(s@),
{
    let a = replace_seq(s, &to_chars("max("), &to_chars("window.__webcore_utils__.max("));
    let b = replace_seq(&a, &to_chars("min("), &to_chars("window.__webcore_utils__.min("));
    replace_seq(&b, &to_chars("count"), &to_chars("window.__webcore_state__.get('count')"))
}

/// Splits `x` at its only `op`, as `sides` says.
fn split_sides(x: &Vec<char>, op: &str) -> (r: Option<(Vec<char>, Vec<char>)>)
    ensures
        match r {
            Some(p) => sides(x@, op@) == Some((p.0@, p.1@)),
            None => sides(x@, op@) is None,
        },
{
    let p = to_chars(op);
    let n = x.len();
    match find_from(x, &p, 0) {
        None => None,
        Some(i) => {
            assert(i + p@.len() <= n);
            let after = i + p.len();
            let rest = string_of(x, after, x.len());
            let rest_chars = to_chars(rest.as_str());
            if contains_seq(&rest_chars, &p) {
                None
            } else {
                Some((trim_range(x, 0, i), trim_range(x, after, x.len())))
            }
        },
    }
}

fn vec_string(v: &Vec<char>) -> (r: String)
    ensures
        r@ == v@,
{
    let r = string_of(v, 0, v.len());
    assert(v@.subrange(0, v@.len() as int) =~= v@);
    r
}

/// Compiles a handler expression into a statement on the reactive store.
pub fn compile_expression(expr: &str) -> (r: String)
    ensures
        r@ == compile(expr@),
{
    let x = to_chars(expr);
    if contains_seq(&x, &to_chars("+=")) || contains_seq(&x, &to_chars("-=")) {
        let plus = contains_seq(&x, &to_chars("+="));
        let op = if plus {
            "+="
        } else {
            "-="
        };
        let sign = if plus {
            "+"
        } else {
            "-"
        };
        match split_sides(&x, op) {
            Some((v, value)) => {
                let mut out = String::from_str("window.__webcore_state__.set('");
                out.append(vec_string(&v).as_str());
                out.append("', (window.__webcore_state__.get('");
                out.append(vec_string(&v).as_str());
                out.append("') || 0) ");
                out.append(sign);
                out.append(" ");
                out.append(vec_string(&value).as_str());
                out.append(")");
                assert(out@ =~= update_code(v@, sign@, value@));
                out
            },
            None => String::from_str(expr),
        }
    } else if contains_seq(&x, &to_chars("=")) && !contains_seq(&x, &to_chars("=="))
        && !contains_seq(&x, &to_chars("!=")) {
        match split_sides(&x, "=") {
            Some((v, value)) => {
                let mut out = String::from_str("window.__webcore_state__.set('");
                out.append(vec_string(&v).as_str());
                out.append("', ");
                out.append(vec_string(&rewrite(&value)).as_str());
                out.append(")");
                assert(out@ =~= assign_code(v@, rewrite_names(value@)));
                out
            },
            None => String::from_str(expr),
        }
    } else {
        vec_string(&rewrite(&x))
    }
}

/// The table entry of one handler.
pub open spec fn handler_entry(h: HandlerView) -> Seq<char> {
    "    '"@ + h.id + "': function() {\n"@ + "      try {\n"@ + "        "@ + compile(h.expression)
        + "\n"@ + "      } catch (error) {\n"@
        + "        console.error('Error executing handler:', error);\n"@ + "      }\n"@
        + "    },\n"@
}

/// The table entries of a sequence of handlers, in order.
pub open spec fn handler_entries(hs: Seq<HandlerView>) -> Seq<char>
    decreases hs.len(),
{
    if hs.len() == 0 {
        Seq::empty()
    } else {
        handler_entries(hs.drop_last()) + handler_entry(hs.last())
    }
}

/// The whole runtime for a handler table.
pub open spec fn runtime_js(hs: Seq<HandlerView>) -> Seq<char> {
    RUNTIME_HEAD@ + handler_entries(hs) + RUNTIME_TAIL@
}

/// Generates the runtime with the handlers compiled into its dispatch table.
pub fn generate_runtime_js(handlers: &[HandlerMapping]) -> (r: String)
    ensures
        r@ == runtime_js(views(handlers@)),
{
    let mut js = String::from_str(RUNTIME_HEAD);
    let mut i: usize = 0;
    while i < handlers.len()
        invariant
            0 <= i <= handlers@.len(),
            js@ == RUNTIME_HEAD@ + handler_entries(views(handlers@.subrange(0, i as int))),
        decreases handlers@.len() - i,
    {
        let h = &handlers[i];
        let ghost before = js@;
        js.append("    '");
        js.append(h.id.as_str());
        js.append("': function() {\n");
        js.append("      try {\n");
        js.append("        ");
        js.append(compile_expression(h.expression.as_str()).as_str());
        js.append("\n");
        js.append("      } catch (error) {\n");
        js.append("        console.error('Error executing handler:', error);\n");
        js.append("      }\n");
        js.append("    },\n");
        assert(js@ =~= before + handler_entry(h@));
        proof {
            let pre = views(handlers@.subrange(0, i as int + 1));
            assert(pre.drop_last() =~= views(handlers@.subrange(0, i as int)));
            assert(pre.last() == h@);
        }
        i = i + 1;
    }
    assert(handlers@.subrange(0, handlers@.len() as int) =~= handlers@);
    js.append(RUNTIME_TAIL);
    js
}

/// Placeholder output of the stand-alone JavaScript generator.
pub fn generate_js() -> (r: String)
    ensures
        r@ == "// JS output placeholder"@,
{
    String::from_str("// JS output placeholder")
}

/// The store write that initialises one state variable.
pub open spec fn state_init(v: StateVar) -> Seq<char> {
    "window.__webcore_state__.set('"@ + v.name@ + "', "@ + (match v.default_value {
        Some(d) => d@,
        None => "null"@,
    }) + ");\n"@
}

/// The store writes of a sequence of state variables, in order.
pub open spec fn state_inits(vs: Seq<StateVar>) -> Seq<char>
    decreases vs.len(),
{
    if vs.len() == 0 {
        Seq::empty()
    } else {
        state_inits(vs.drop_last()) + state_init(vs.last())
    }
}

/// A component's state initialisation, headed by its name.
pub open spec fn component_js(c: Component) -> Seq<char> {
    "// Component: "@ + c.name@ + "\n"@ + state_inits(c.state@)
}

/// Generates the state initialisation of a component.
pub fn generate_component_js(component: &Component) -> (r: String)
    ensures
        r@ == component_js(*component),
{
    let mut js = String::from_str("// Component: ");
    js.append(component.name.as_str());
    js.append("\n");
    let ghost head = js@;
    let mut i: usize = 0;
    assert(component.state@.subrange(0, 0) =~= Seq::<StateVar>::empty());
    while i < component.state.len()
        invariant
            0 <= i <= component.state@.len(),
            js@ == head + state_inits(component.state@.subrange(0, i as int)),
        decreases component.state@.len() - i,
    {
        let v = &component.state[i];
        let ghost before = js@;
        js.append("window.__webcore_state__.set('");
        js.append(v.name.as_str());
        js.append("', ");
        match &v.default_value {
            Some(d) => js.append(d.as_str()),
            None => js.append("null"),
        }
        js.append(");\n");
        assert(js@ =~= before + state_init(*v));
        proof {
            let pre = component.state@.subrange(0, i as int + 1);
            assert(pre.drop_last() =~= component.state@.subrange(0, i as int));
        }
        i = i + 1;
    }
    assert(component.state@.subrange(0, component.state@.len() as int) =~= component.state@);
    js
}

} // verus!
