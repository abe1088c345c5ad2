//! HTML generation: a page's layout is walked, its content slot filled with the
//! page, components inlined by name, and event bindings collected into a
//! handler table with ids drawn from one counter per page.
use crate::ast::{find_key, find_named, Attribute, AttributeValue, Element, WebCoreDocument};
use crate::text::{
    lemma_decimal_injective, lemma_escape_no_markup, decimal, escape, find_from, first_occ, matches_at, push_decimal, push_escaped,
    push_escaped_str, push_range, starts_with, str_eq, string_of, to_chars,
};
use vstd::prelude::*;
use vstd::string::*;

verus! {

/// Options that shape the page shell.
#[derive(Debug, Clone)]
pub struct HtmlPageOptions {
    pub lang: String,
    pub title: String,
}

/// An event binding found while generating a page.
#[derive(Debug, Clone)]
pub struct HandlerMapping {
    pub id: String,
    pub event_type: String,
    pub expression: String,
}

/// What a handler mapping holds, as character sequences.
pub struct HandlerView {
    pub id: Seq<char>,
    pub event_type: Seq<char>,
    pub expression: Seq<char>,
}

impl View for HandlerMapping {
    type V = HandlerView;

    open spec fn view(&self) -> HandlerView {
        HandlerView { id: self.id@, event_type: self.event_type@, expression: self.expression@ }
    }
}

pub open spec fn views(hs: Seq<HandlerMapping>) -> Seq<HandlerView> {
    hs.map_values(|h: HandlerMapping| h@)
}

pub struct HtmlGenerationResult {
    pub html: String,
    pub handlers: Vec<HandlerMapping>,
}

/// The outcome of generating part of a page: its HTML and handlers and the
/// counter after it, or the error that stopped it.
pub struct Rendered {
    pub ok: bool,
    pub error: Seq<char>,
    pub html: Seq<char>,
    pub handlers: Seq<HandlerView>,
    pub next: nat,
}

pub open spec fn emit(html: Seq<char>, c: nat) -> Rendered {
    Rendered { ok: true, error: Seq::empty(), html, handlers: Seq::empty(), next: c }
}

pub open spec fn fail(error: Seq<char>, c: nat) -> Rendered {
    Rendered { ok: false, error, html: Seq::empty(), handlers: Seq::empty(), next: c }
}

/// `r` followed by `s`, stopping at the first failure.
pub open spec fn then(r: Rendered, s: Rendered) -> Rendered {
    if !r.ok {
        r
    } else if !s.ok {
        s
    } else {
        Rendered {
            ok: true,
            error: Seq::empty(),
            html: r.html + s.html,
            handlers: r.handlers + s.handlers,
            next: s.next,
        }
    }
}

/// The id of the `n`th handler of a page.
pub open spec fn handler_id(n: nat) -> Seq<char> {
    "btn"@ + decimal(n)
}

/// Event types with a dedicated dispatch function of their own.
pub open spec fn known_event(ev: Seq<char>) -> bool {
    ev == "click"@ || ev == "submit"@ || ev == "change"@ || ev == "input"@
}

/// The attributes that bind event `ev` to the element with id `id`.
pub open spec fn event_attrs(ev: Seq<char>, id: Seq<char>) -> Seq<char> {
    " id=\""@ + id + "\" on"@ + ev + "=\""@ + (if known_event(ev) {
        "webcore_handle_"@ + ev + "('"@ + id + "')"@
    } else {
        "webcore_handle_event('"@ + ev + "','"@ + id + "')"@
    }) + "\""@
}

pub open spec fn too_many_handlers() -> Seq<char> {
    "too many event handlers in one page"@
}

pub open spec fn cycle_error(name: Seq<char>) -> Seq<char> {
    "component cycle detected at "@ + name
}

/// One attribute of an element whose handlers so far number `c`.
pub open spec fn attr_out(a: Attribute, is_link: bool, c: nat) -> Rendered {
    match a.value {
        AttributeValue::String(v) => {
            if is_link && a.name@ == "to"@ {
                emit(Seq::empty(), c)
            } else {
                emit(" "@ + a.name@ + "=\""@ + escape(v@) + "\""@, c)
            }
        },
        AttributeValue::Boolean(b) => {
            if b {
                emit(" "@ + a.name@, c)
            } else {
                emit(Seq::empty(), c)
            }
        },
        AttributeValue::Expression(x) => {
            if starts_with(a.name@, "on:"@) {
                if c + 1 > usize::MAX {
                    fail(too_many_handlers(), c)
                } else {
                    let ev = a.name@.subrange(3, a.name@.len() as int);
                    let id = handler_id(c + 1);
                    Rendered {
                        ok: true,
                        error: Seq::empty(),
                        html: event_attrs(ev, id),
                        handlers: seq![HandlerView { id, event_type: ev, expression: x@ }],
                        next: c + 1,
                    }
                }
            } else {
                emit(" "@ + a.name@ + "=\"{}\""@, c)
            }
        },
    }
}

/// A sequence of attributes, left to right.
pub open spec fn attrs_out(attrs: Seq<Attribute>, is_link: bool, c: nat) -> Rendered
    decreases attrs.len(),
{
    if attrs.len() == 0 {
        emit(Seq::empty(), c)
    } else {
        let r = attrs_out(attrs.drop_last(), is_link, c);
        then(r, attr_out(attrs.last(), is_link, r.next))
    }
}

/// The value of the last `to` attribute holding a string.
pub open spec fn link_target(attrs: Seq<Attribute>) -> Option<Seq<char>>
    decreases attrs.len(),
{
    if attrs.len() == 0 {
        None
    } else {
        match attrs.last().value {
            AttributeValue::String(v) if attrs.last().name@ == "to"@ => Some(v@),
            _ => link_target(attrs.drop_last()),
        }
    }
}

/// Some attribute is named `name`.
pub open spec fn has_attr(attrs: Seq<Attribute>, name: Seq<char>) -> bool {
    exists|i: int| 0 <= i < attrs.len() && #[trigger] attrs[i].name@ == name
}

/// The `href` of an anchor: its `to` target, else `#` where no `href` is given.
pub open spec fn href_out(attrs: Seq<Attribute>) -> Seq<char> {
    match link_target(attrs) {
        Some(h) => " href=\""@ + escape(h) + "\""@,
        None => if has_attr(attrs, "href"@) {
            Seq::empty()
        } else {
            " href=\"#\""@
        },
    }
}

/// The markup of an interpolation of `x`.
pub open spec fn interpolation_out(x: Seq<char>) -> Seq<char> {
    let lb = first_occ(x, seq!['{'], 0);
    let rb = first_occ(x, seq!['}'], 0);
    if 0 <= lb && lb < rb {
        escape(x.subrange(0, lb)) + "<span data-webcore-interpolation=\""@ + x.subrange(lb + 1, rb)
            + "\">0</span>"@ + escape(x.subrange(rb + 1, x.len() as int))
    } else {
        "<span data-webcore-interpolation=\""@ + escape(x) + "\">0</span>"@
    }
}

pub open spec fn host_rank(host: Option<Seq<Element>>) -> int {
    if host is Some {
        1
    } else {
        0
    }
}

/// How many more components may be entered below `path`.
pub open spec fn fuel(doc: WebCoreDocument, path: Seq<String>) -> int {
    doc.components@.len() - path.len()
}

/// Some component on `path` is named `name`.
pub open spec fn on_path(path: Seq<String>, name: Seq<char>) -> bool {
    exists|i: int| 0 <= i < path.len() && #[trigger] path[i]@ == name
}

/// One element. `host` is the page content that a `content` slot stands for
/// (only within the layout's own tree); `path` lists the components being
/// inlined around it; `c` counts the handlers so far.
pub open spec fn render_elem(
    doc: WebCoreDocument,
    e: Element,
    host: Option<Seq<Element>>,
    path: Seq<String>,
    c: nat,
) -> Rendered
    decreases host_rank(host), fuel(doc, path), e,
{
    match e {
        Element::Text(t) => emit(escape(t@), c),
        Element::Tag { name, attributes, content } => {
            if name@ == "text"@ {
                render_seq(doc, content@, host, path, c)
            } else {
                let mapped = if name@ == "link"@ {
                    "a"@
                } else {
                    name@
                };
                let is_link = mapped == "a"@;
                let a = attrs_out(attributes@, is_link, c);
                if !a.ok {
                    a
                } else {
                    let kids = render_seq(doc, content@, host, path, a.next);
                    if !kids.ok {
                        kids
                    } else {
                        Rendered {
                            ok: true,
                            error: Seq::empty(),
                            html: "<"@ + mapped + a.html + (if is_link {
                                href_out(attributes@)
                            } else {
                                Seq::empty()
                            }) + ">"@ + kids.html + "</"@ + mapped + ">"@,
                            handlers: a.handlers + kids.handlers,
                            next: kids.next,
                        }
                    }
                }
            }
        },
        Element::Slot(name) => {
            if host is Some && name@ == "content"@ {
                render_seq(doc, host->0, None, path, c)
            } else {
                emit("<!-- Slot: "@ + name@ + " -->"@, c)
            }
        },
        Element::Component { name, attributes, content } => {
            let k = find_key(doc.components@, name@);
            if k >= 0 {
                if on_path(path, name@) || fuel(doc, path) <= 0 {
                    fail(cycle_error(name@), c)
                } else {
                    render_seq(doc, doc.components@[k].view@, None, path.push(name), c)
                }
            } else {
                let a = attrs_out(attributes@, false, c);
                if !a.ok {
                    a
                } else {
                    let kids = render_seq(doc, content@, host, path, a.next);
                    if !kids.ok {
                        kids
                    } else {
                        Rendered {
                            ok: true,
                            error: Seq::empty(),
                            html: "<"@ + name@ + a.html + ">"@ + kids.html + "</"@ + name@ + ">"@,
                            handlers: a.handlers + kids.handlers,
                            next: kids.next,
                        }
                    }
                }
            }
        },
        Element::Interpolation(x) => emit(interpolation_out(x@), c),
    }
}

/// A sequence of elements, left to right, with the counter threaded through.
pub open spec fn render_seq(
    doc: WebCoreDocument,
    es: Seq<Element>,
    host: Option<Seq<Element>>,
    path: Seq<String>,
    c: nat,
) -> Rendered
    decreases host_rank(host), fuel(doc, path), es,
{
    if es.len() == 0 {
        emit(Seq::empty(), c)
    } else {
        let r = render_seq(doc, es.drop_last(), host, path, c);
        then(r, render_elem(doc, es.last(), host, path, r.next))
    }
}

/// The exec state `(out, handlers, counter)` went from its old to its new value
/// as `R` says, and the call returned `r` accordingly.
pub open spec fn realizes(
    rd: Rendered,
    r: Result<(), String>,
    out0: Seq<char>,
    out1: Seq<char>,
    h0: Seq<HandlerMapping>,
    h1: Seq<HandlerMapping>,
    c1: nat,
) -> bool {
    &&& (r is Ok <==> rd.ok)
    &&& rd.ok ==> out1 == out0 + rd.html && views(h1) == views(h0) + rd.handlers && c1 == rd.next
    &&& !rd.ok ==> r->Err_0@ == rd.error
}

pub open spec fn host_view(host: Option<&Vec<Element>>) -> Option<Seq<Element>> {
    match host {
        Some(v) => Some(v@),
        None => None,
    }
}

proof fn lemma_attrs_fail_extends(attrs: Seq<Attribute>, n: int, is_link: bool, c: nat)
    requires
        0 <= n <= attrs.len(),
        !attrs_out(attrs.subrange(0, n), is_link, c).ok,
    ensures
        attrs_out(attrs, is_link, c) == attrs_out(attrs.subrange(0, n), is_link, c),
    decreases attrs.len() - n,
{
    if n < attrs.len() {
        assert(attrs.drop_last().subrange(0, n) =~= attrs.subrange(0, n));
        lemma_attrs_fail_extends(attrs.drop_last(), n, is_link, c);
    } else {
        assert(attrs.subrange(0, n) =~= attrs);
    }
}

proof fn lemma_seq_fail_extends(
    doc: WebCoreDocument,
    es: Seq<Element>,
    n: int,
    host: Option<Seq<Element>>,
    path: Seq<String>,
    c: nat,
)
    requires
        0 <= n <= es.len(),
        !render_seq(doc, es.subrange(0, n), host, path, c).ok,
    ensures
        render_seq(doc, es, host, path, c) == render_seq(doc, es.subrange(0, n), host, path, c),
    decreases es.len() - n,
{
    if n < es.len() {
        assert(es.drop_last().subrange(0, n) =~= es.subrange(0, n));
        lemma_seq_fail_extends(doc, es.drop_last(), n, host, path, c);
    } else {
        assert(es.subrange(0, n) =~= es);
    }
}

/// Appends the attributes that bind event `ev` to the element with id `id`.
fn push_event_attrs(out: &mut String, ev: &String, id: &String)
    ensures
        final(out)@ == old(out)@ + event_attrs(ev@, id@),
{
    out.append(" id=\"");
    out.append(id.as_str());
    out.append("\" on");
    out.append(ev.as_str());
    out.append("=\"");
    let known = str_eq(ev.as_str(), "click") || str_eq(ev.as_str(), "submit") || str_eq(
        ev.as_str(),
        "change",
    ) || str_eq(ev.as_str(), "input");
    if known {
        out.append("webcore_handle_");
        out.append(ev.as_str());
        out.append("('");
        out.append(id.as_str());
        out.append("')");
    } else {
        out.append("webcore_handle_event('");
        out.append(ev.as_str());
        out.append("','");
        out.append(id.as_str());
        out.append("')");
    }
    out.append("\"");
    assert(final(out)@ =~= old(out)@ + event_attrs(ev@, id@));
}

/// Appends the markup of one attribute, allocating a handler for an event binding.
fn render_attr(
    a: &Attribute,
    is_link: bool,
    counter: &mut usize,
    out: &mut String,
    handlers: &mut Vec<HandlerMapping>,
) -> (r: Result<(), String>)
    ensures
        realizes(
            attr_out(*a, is_link, *old(counter) as nat),
            r,
            old(out)@,
            final(out)@,
            old(handlers)@,
            final(handlers)@,
            *final(counter) as nat,
        ),
{
    let ghost out0 = out@;
    let ghost h0 = handlers@;
    match &a.value {
        AttributeValue::String(v) => {
            if is_link && str_eq(a.name.as_str(), "to") {
                assert(out@ =~= out0 + Seq::<char>::empty());
            } else {
                out.append(" ");
                out.append(a.name.as_str());
                out.append("=\"");
                push_escaped_str(out, v.as_str());
                out.append("\"");
                assert(out@ =~= out0 + (" "@ + a.name@ + "=\""@ + escape(v@) + "\""@));
            }
            assert(views(handlers@) =~= views(h0) + Seq::<HandlerView>::empty());
            Ok(())
        },
        AttributeValue::Boolean(b) => {
            if *b {
                out.append(" ");
                out.append(a.name.as_str());
                assert(out@ =~= out0 + (" "@ + a.name@));
            } else {
                assert(out@ =~= out0 + Seq::<char>::empty());
            }
            assert(views(handlers@) =~= views(h0) + Seq::<HandlerView>::empty());
            Ok(())
        },
        AttributeValue::Expression(x) => {
            let name = to_chars(a.name.as_str());
            let prefix = to_chars("on:");
            if matches_at(&name, &prefix, 0) {
                if *counter == usize::MAX {
                    return Err(String::from_str("too many event handlers in one page"));
                }
                *counter = *counter + 1;
                proof {
                    reveal_strlit("on:");
                }
                let ev = string_of(&name, 3, name.len());
                let mut id = String::from_str("btn");
                push_decimal(&mut id, *counter);
                let ghost hid = handler_id(*counter as nat);
                assert(id@ == hid);
                push_event_attrs(out, &ev, &id);
                assert(out@ =~= out0 + event_attrs(ev@, id@));
                let m = HandlerMapping { id, event_type: ev, expression: x.clone() };
                let ghost mv = m@;
                handlers.push(m);
                assert(views(handlers@) =~= views(h0) + seq![mv]);
                Ok(())
            } else {
                out.append(" ");
                out.append(a.name.as_str());
                out.append("=\"{}\"");
                assert(out@ =~= out0 + (" "@ + a.name@ + "=\"{}\""@));
                assert(views(handlers@) =~= views(h0) + Seq::<HandlerView>::empty());
                Ok(())
            }
        },
    }
}

/// Appends the markup of a sequence of attributes.
fn render_attrs(
    attrs: &Vec<Attribute>,
    is_link: bool,
    counter: &mut usize,
    out: &mut String,
    handlers: &mut Vec<HandlerMapping>,
) -> (r: Result<(), String>)
    ensures
        realizes(
            attrs_out(attrs@, is_link, *old(counter) as nat),
            r,
            old(out)@,
            final(out)@,
            old(handlers)@,
            final(handlers)@,
            *final(counter) as nat,
        ),
{
    let ghost c0 = *counter as nat;
    let ghost out0 = out@;
    let ghost h0 = handlers@;
    let mut i: usize = 0;
    assert(attrs@.subrange(0, 0) =~= Seq::<Attribute>::empty());
    assert(out@ =~= out0 + Seq::<char>::empty());
    assert(views(handlers@) =~= views(h0) + Seq::<HandlerView>::empty());
    while i < attrs.len()
        invariant
            0 <= i <= attrs@.len(),
            c0 == *old(counter) as nat,
            out0 == old(out)@,
            h0 == old(handlers)@,
            ({
                let rd = attrs_out(attrs@.subrange(0, i as int), is_link, c0);
                &&& rd.ok
                &&& out@ == out0 + rd.html
                &&& views(handlers@) == views(h0) + rd.handlers
                &&& *counter as nat == rd.next
            }),
        decreases attrs@.len() - i,
    {
        let ghost rd = attrs_out(attrs@.subrange(0, i as int), is_link, c0);
        let ghost o1 = out@;
        let ghost h1 = handlers@;
        let ghost pre = attrs@.subrange(0, i as int + 1);
        let ghost cb = *counter as nat;
        assert(pre.drop_last() =~= attrs@.subrange(0, i as int));
        assert(pre.last() == attrs@[i as int]);
        match render_attr(&attrs[i], is_link, counter, out, handlers) {
            Err(m) => {
                proof {
                    assert(cb == rd.next);
                    assert(!attr_out(attrs@[i as int], is_link, cb).ok);
                    assert(attrs_out(pre, is_link, c0) == then(
                        rd,
                        attr_out(attrs@[i as int], is_link, rd.next),
                    ));
                    lemma_attrs_fail_extends(attrs@, i as int + 1, is_link, c0);
                    assert(!attrs_out(attrs@, is_link, c0).ok);
                    assert(m@ == attr_out(attrs@[i as int], is_link, cb).error);
                    assert(m@ == attrs_out(attrs@, is_link, c0).error);
                }
                return Err(m);
            },
            Ok(()) => {},
        }
        assert(out@ =~= out0 + attrs_out(pre, is_link, c0).html);
        assert(views(handlers@) =~= views(h0) + attrs_out(pre, is_link, c0).handlers);
        i = i + 1;
    }
    assert(attrs@.subrange(0, attrs@.len() as int) =~= attrs@);
    Ok(())
}

/// Whether some attribute is named `name`.
fn attrs_have(attrs: &Vec<Attribute>, name: &str) -> (r: bool)
    ensures
        r == has_attr(attrs@, name@),
{
    let mut i: usize = 0;
    while i < attrs.len()
        invariant
            0 <= i <= attrs@.len(),
            forall|j: int| 0 <= j < i ==> #[trigger] attrs@[j].name@ != name@,
        decreases attrs@.len() - i,
    {
        if str_eq(attrs[i].name.as_str(), name) {
            return true;
        }
        i = i + 1;
    }
    false
}

/// Appends the `href` of an anchor.
fn push_href(out: &mut String, attrs: &Vec<Attribute>)
    ensures
        final(out)@ == old(out)@ + href_out(attrs@),
{
    let mut target: Option<&String> = None;
    let mut i: usize = 0;
    while i < attrs.len()
        invariant
            0 <= i <= attrs@.len(),
            match target {
                Some(t) => link_target(attrs@.subrange(0, i as int)) == Some(t@),
                None => link_target(attrs@.subrange(0, i as int)) is None,
            },
        decreases attrs@.len() - i,
    {
        let ghost pre = attrs@.subrange(0, i as int + 1);
        assert(pre.drop_last() =~= attrs@.subrange(0, i as int));
        match &attrs[i].value {
            AttributeValue::String(v) => {
                if str_eq(attrs[i].name.as_str(), "to") {
                    target = Some(v);
                }
            },
            _ => {},
        }
        i = i + 1;
    }
    assert(attrs@.subrange(0, attrs@.len() as int) =~= attrs@);
    match target {
        Some(h) => {
            out.append(" href=\"");
            push_escaped_str(out, h.as_str());
            out.append("\"");
            assert(final(out)@ =~= old(out)@ + href_out(attrs@));
        },
        None => {
            if !attrs_have(attrs, "href") {
                out.append(" href=\"#\"");
            }
            assert(final(out)@ =~= old(out)@ + href_out(attrs@));
        },
    }
}

/// Appends the markup of an interpolation.
fn push_interpolation(out: &mut String, x: &String)
    ensures
        final(out)@ == old(out)@ + interpolation_out(x@),
{
    let xs = to_chars(x.as_str());
    let open_brace = vec!['{'];
    let close_brace = vec!['}'];
    assert(seq!['{'] =~= open_brace@);
    assert(seq!['}'] =~= close_brace@);
    let lb = find_from(&xs, &open_brace, 0);
    let rb = find_from(&xs, &close_brace, 0);
    if let Some(l) = lb {
        if let Some(r) = rb {
            if l < r {
                let n = xs.len();
                assert(close_brace@.len() == 1);
                assert(r + 1 <= n);
                push_escaped(out, &xs, 0, l);
                out.append("<span data-webcore-interpolation=\"");
                push_range(out, &xs, l + 1, r);
                out.append("\">0</span>");
                push_escaped(out, &xs, r + 1, n);
                assert(final(out)@ =~= old(out)@ + interpolation_out(x@));
                return ;
            }
        }
    }
    out.append("<span data-webcore-interpolation=\"");
    push_escaped_str(out, x.as_str());
    out.append("\">0</span>");
    assert(final(out)@ =~= old(out)@ + interpolation_out(x@));
}

/// Whether a component named `name` is on `path`.
fn path_has(path: &Vec<String>, name: &str) -> (r: bool)
    ensures
        r == on_path(path@, name@),
{
    let mut i: usize = 0;
    while i < path.len()
        invariant
            0 <= i <= path@.len(),
            forall|j: int| 0 <= j < i ==> #[trigger] path@[j]@ != name@,
        decreases path@.len() - i,
    {
        if str_eq(path[i].as_str(), name) {
            return true;
        }
        i = i + 1;
    }
    false
}

/// Appends the markup of a tag.
#[verifier::spinoff_prover]
#[verifier::rlimit(50)]
fn render_tag(
    doc: &WebCoreDocument,
    e: &Element,
    host: Option<&Vec<Element>>,
    path: &mut Vec<String>,
    counter: &mut usize,
    out: &mut String,
    handlers: &mut Vec<HandlerMapping>,
) -> (r: Result<(), String>)
    requires
        e is Tag,
    ensures
        final(path)@ == old(path)@,
        realizes(
            render_elem(*doc, *e, host_view(host), old(path)@, *old(counter) as nat),
            r,
            old(out)@,
            final(out)@,
            old(handlers)@,
            final(handlers)@,
            *final(counter) as nat,
        ),
    decreases host_rank(host_view(host)), fuel(*doc, old(path)@), *e,
{
    let ghost out0 = out@;
    let ghost h0 = handlers@;
    match e {
        Element::Tag { name, attributes, content } => {
            if str_eq(name.as_str(), "text") {
                return render_nodes(doc, content, host, path, counter, out, handlers);
            }
            let mapped: &str = if str_eq(name.as_str(), "link") {
                "a"
            } else {
                name.as_str()
            };
            let is_link = str_eq(mapped, "a");
            out.append("<");
            out.append(mapped);
            let ghost o1 = out@;
            let ghost c1 = *counter as nat;
            let ghost a = attrs_out(attributes@, is_link, c1);
            match render_attrs(attributes, is_link, counter, out, handlers) {
                Err(m) => {
                    return Err(m);
                },
                Ok(()) => {},
            }
            let ghost o2 = out@;
            let ghost h2 = handlers@;
            if is_link {
                push_href(out, attributes);
            }
            let ghost o3 = out@;
            out.append(">");
            let ghost o4 = out@;
            let ghost kids = render_seq(*doc, content@, host_view(host), path@, a.next);
            match render_nodes(doc, content, host, path, counter, out, handlers) {
                Err(m) => {
                    return Err(m);
                },
                Ok(()) => {},
            }
            out.append("</");
            out.append(mapped);
            out.append(">");
            assert(out@ =~= out0 + ("<"@ + mapped@ + a.html + (if is_link {
                href_out(attributes@)
            } else {
                Seq::empty()
            }) + ">"@ + kids.html + "</"@ + mapped@ + ">"@));
            assert(views(handlers@) =~= views(h0) + (a.handlers + kids.handlers));
            Ok(())
        },
        _ => Ok(()),
    }
}

/// Appends the markup of a component reference: the component's view where
/// it is defined, else a tag of the same name.
#[verifier::spinoff_prover]
#[verifier::rlimit(50)]
fn render_component(
    doc: &WebCoreDocument,
    e: &Element,
    host: Option<&Vec<Element>>,
    path: &mut Vec<String>,
    counter: &mut usize,
    out: &mut String,
    handlers: &mut Vec<HandlerMapping>,
) -> (r: Result<(), String>)
    requires
        e is Component,
    ensures
        final(path)@ == old(path)@,
        realizes(
            render_elem(*doc, *e, host_view(host), old(path)@, *old(counter) as nat),
            r,
            old(out)@,
            final(out)@,
            old(handlers)@,
            final(handlers)@,
            *final(counter) as nat,
        ),
    decreases host_rank(host_view(host)), fuel(*doc, old(path)@), *e,
{
    let ghost out0 = out@;
    let ghost h0 = handlers@;
    match e {
        Element::Component { name, attributes, content } => {
            match find_named(&doc.components, name.as_str()) {
                Some(k) => {
                    proof {
                        crate::ast::lemma_find_key_range(doc.components@, name@);
                    }
                    if path_has(path, name.as_str()) || path.len() >= doc.components.len() {
                        let mut m = String::from_str("component cycle detected at ");
                        m.append(name.as_str());
                        return Err(m);
                    }
                    let ghost path0 = path@;
                    path.push(name.clone());
                    assert(path@ == path0.push(*name));
                    let r = render_nodes(
                        doc,
                        &doc.components[k].view,
                        None,
                        path,
                        counter,
                        out,
                        handlers,
                    );
                    path.pop();
                    assert(path@ =~= path0);
                    r
                },
                None => {
                    out.append("<");
                    out.append(name.as_str());
                    let ghost c1 = *counter as nat;
                    let ghost a = attrs_out(attributes@, false, c1);
                    match render_attrs(attributes, false, counter, out, handlers) {
                        Err(m) => {
                            return Err(m);
                        },
                        Ok(()) => {},
                    }
                    out.append(">");
                    let ghost kids = render_seq(*doc, content@, host_view(host), path@, a.next);
                    match render_nodes(doc, content, host, path, counter, out, handlers) {
                        Err(m) => {
                            return Err(m);
                        },
                        Ok(()) => {},
                    }
                    out.append("</");
                    out.append(name.as_str());
                    out.append(">");
                    assert(out@ =~= out0 + ("<"@ + name@ + a.html + ">"@ + kids.html + "</"@
                        + name@ + ">"@));
                    assert(views(handlers@) =~= views(h0) + (a.handlers + kids.handlers));
                    Ok(())
                },
            }
        },
        _ => Ok(()),
    }
}

/// Appends the markup of text, a slot or an interpolation.
fn render_leaf(
    doc: &WebCoreDocument,
    e: &Element,
    host: Option<&Vec<Element>>,
    path: &mut Vec<String>,
    counter: &mut usize,
    out: &mut String,
    handlers: &mut Vec<HandlerMapping>,
) -> (r: Result<(), String>)
    requires
        !(e is Tag),
        !(e is Component),
    ensures
        final(path)@ == old(path)@,
        realizes(
            render_elem(*doc, *e, host_view(host), old(path)@, *old(counter) as nat),
            r,
            old(out)@,
            final(out)@,
            old(handlers)@,
            final(handlers)@,
            *final(counter) as nat,
        ),
    decreases host_rank(host_view(host)), fuel(*doc, old(path)@), *e,
{
    let ghost out0 = out@;
    let ghost h0 = handlers@;
    match e {
        Element::Text(t) => {
            push_escaped_str(out, t.as_str());
            assert(views(handlers@) =~= views(h0) + Seq::<HandlerView>::empty());
            Ok(())
        },
        Element::Slot(name) => {
            if let Some(p) = host {
                if str_eq(name.as_str(), "content") {
                    return render_nodes(doc, p, None, path, counter, out, handlers);
                }
            }
            out.append("<!-- Slot: ");
            out.append(name.as_str());
            out.append(" -->");
            assert(out@ =~= out0 + ("<!-- Slot: "@ + name@ + " -->"@));
            assert(views(handlers@) =~= views(h0) + Seq::<HandlerView>::empty());
            Ok(())
        },
        Element::Interpolation(x) => {
            push_interpolation(out, x);
            assert(views(handlers@) =~= views(h0) + Seq::<HandlerView>::empty());
            Ok(())
        },
        _ => Ok(()),
    }
}

/// Appends the markup of a sequence of elements.
fn render_nodes(
    doc: &WebCoreDocument,
    es: &Vec<Element>,
    host: Option<&Vec<Element>>,
    path: &mut Vec<String>,
    counter: &mut usize,
    out: &mut String,
    handlers: &mut Vec<HandlerMapping>,
) -> (r: Result<(), String>)
    ensures
        final(path)@ == old(path)@,
        realizes(
            render_seq(*doc, es@, host_view(host), old(path)@, *old(counter) as nat),
            r,
            old(out)@,
            final(out)@,
            old(handlers)@,
            final(handlers)@,
            *final(counter) as nat,
        ),
    decreases host_rank(host_view(host)), fuel(*doc, old(path)@), es@,
{
    let ghost c0 = *counter as nat;
    let ghost out0 = out@;
    let ghost h0 = handlers@;
    let ghost path0 = path@;
    let mut i: usize = 0;
    assert(es@.subrange(0, 0) =~= Seq::<Element>::empty());
    assert(out@ =~= out0 + Seq::<char>::empty());
    assert(views(handlers@) =~= views(h0) + Seq::<HandlerView>::empty());
    while i < es.len()
        invariant
            0 <= i <= es@.len(),
            c0 == *old(counter) as nat,
            out0 == old(out)@,
            h0 == old(handlers)@,
            path0 == old(path)@,
            path@ == path0,
            ({
                let rd = render_seq(*doc, es@.subrange(0, i as int), host_view(host), path0, c0);
                &&& rd.ok
                &&& out@ == out0 + rd.html
                &&& views(handlers@) == views(h0) + rd.handlers
                &&& *counter as nat == rd.next
            }),
        decreases es@.len() - i,
    {
        let ghost rd = render_seq(*doc, es@.subrange(0, i as int), host_view(host), path0, c0);
        let ghost pre = es@.subrange(0, i as int + 1);
        let ghost cb = *counter as nat;
        assert(pre.drop_last() =~= es@.subrange(0, i as int));
        assert(pre.last() == es@[i as int]);
        proof {
            assert(decreases_to!(es@ => es@[i as int]));
        }
        let step = match &es[i] {
            Element::Tag { .. } => render_tag(doc, &es[i], host, path, counter, out, handlers),
            Element::Component { .. } => render_component(
                doc,
                &es[i],
                host,
                path,
                counter,
                out,
                handlers,
            ),
            _ => render_leaf(doc, &es[i], host, path, counter, out, handlers),
        };
        match step {
            Err(m) => {
                proof {
                    assert(cb == rd.next);
                    assert(render_seq(*doc, pre, host_view(host), path0, c0) == then(
                        rd,
                        render_elem(*doc, es@[i as int], host_view(host), path0, rd.next),
                    ));
                    lemma_seq_fail_extends(*doc, es@, i as int + 1, host_view(host), path0, c0);
                }
                return Err(m);
            },
            Ok(()) => {},
        }
        assert(out@ =~= out0 + render_seq(*doc, pre, host_view(host), path0, c0).html);
        assert(views(handlers@) =~= views(h0) + render_seq(
            *doc,
            pre,
            host_view(host),
            path0,
            c0,
        ).handlers);
        i = i + 1;
    }
    assert(es@.subrange(0, es@.len() as int) =~= es@);
    Ok(())
}

/// The document head and the opening of the body.
pub open spec fn shell_head(lang: Seq<char>, title: Seq<char>) -> Seq<char> {
    "<!DOCTYPE html>\n"@ + "<html lang=\""@ + escape(lang) + "\">\n<head>\n"@
        + "  <meta charset=\"UTF-8\">\n"@
        + "  <meta name=\"viewport\" content=\"width=device-width, initial-scale=1.0\">\n"@
        + "  <title>"@ + escape(title) + "</title>\n"@
        + "  <link rel=\"stylesheet\" href=\"theme.css\">\n"@ + "</head>\n<body>\n"@
}

/// The runtime script and the closing of the document.
pub open spec fn shell_tail() -> Seq<char> {
    "  <script src=\"webcore.js\"></script>\n"@ + "</body>\n</html>"@
}

/// The layout used for every page: `MainLayout`, else `default`, else none (-1).
pub open spec fn chosen_layout(doc: WebCoreDocument) -> int {
    let m = find_key(doc.layouts@, "MainLayout"@);
    if m >= 0 {
        m
    } else {
        find_key(doc.layouts@, "default"@)
    }
}

pub open spec fn no_layout_error() -> Seq<char> {
    "No layout found (tried MainLayout and default)"@
}

pub open spec fn page_not_found_error(name: Seq<char>) -> Seq<char> {
    "Page '"@ + name + "' not found"@
}

/// A full page whose content is `content`, inside the chosen layout.
pub open spec fn page_output(
    doc: WebCoreDocument,
    content: Seq<Element>,
    lang: Seq<char>,
    title: Seq<char>,
) -> Rendered {
    let l = chosen_layout(doc);
    if l < 0 {
        fail(no_layout_error(), 0)
    } else {
        let body = render_seq(doc, doc.layouts@[l].content@, Some(content), Seq::empty(), 0);
        if !body.ok {
            body
        } else {
            Rendered {
                ok: true,
                error: Seq::empty(),
                html: shell_head(lang, title) + body.html + shell_tail(),
                handlers: body.handlers,
                next: body.next,
            }
        }
    }
}

/// The page named `name`, or the error that stops it.
pub open spec fn named_page_output(
    doc: WebCoreDocument,
    name: Seq<char>,
    lang: Seq<char>,
    title: Seq<char>,
) -> Rendered {
    let p = find_key(doc.pages@, name);
    if p < 0 {
        fail(page_not_found_error(name), 0)
    } else {
        page_output(doc, doc.pages@[p].content@, lang, title)
    }
}

/// `r` is the result that `rd` describes.
pub open spec fn delivers(rd: Rendered, r: Result<HtmlGenerationResult, String>) -> bool {
    match r {
        Ok(res) => rd.ok && res.html@ == rd.html && views(res.handlers@) == rd.handlers,
        Err(m) => !rd.ok && m@ == rd.error,
    }
}

/// Generates a full page whose content is `content`, inside the layout named
/// `MainLayout`, or else `default`.
pub fn generate_page_html(
    document: &WebCoreDocument,
    content: &Vec<Element>,
    options: &HtmlPageOptions,
) -> (r: Result<HtmlGenerationResult, String>)
    ensures
        delivers(page_output(*document, content@, options.lang@, options.title@), r),
{
    let main = find_named(&document.layouts, "MainLayout");
    let l = match main {
        Some(k) => k,
        None => match find_named(&document.layouts, "default") {
            Some(k) => k,
            None => {
                return Err(String::from_str("No layout found (tried MainLayout and default)"));
            },
        },
    };
    proof {
        crate::ast::lemma_find_key_range(document.layouts@, "MainLayout"@);
        crate::ast::lemma_find_key_range(document.layouts@, "default"@);
    }
    let mut html = String::from_str("<!DOCTYPE html>\n");
    html.append("<html lang=\"");
    push_escaped_str(&mut html, options.lang.as_str());
    html.append("\">\n<head>\n");
    html.append("  <meta charset=\"UTF-8\">\n");
    html.append("  <meta name=\"viewport\" content=\"width=device-width, initial-scale=1.0\">\n");
    html.append("  <title>");
    push_escaped_str(&mut html, options.title.as_str());
    html.append("</title>\n");
    html.append("  <link rel=\"stylesheet\" href=\"theme.css\">\n");
    html.append("</head>\n<body>\n");
    assert(html@ =~= shell_head(options.lang@, options.title@));
    let ghost head = html@;
    let mut handlers: Vec<HandlerMapping> = Vec::new();
    let mut path: Vec<String> = Vec::new();
    let mut counter: usize = 0;
    assert(views(handlers@) =~= Seq::<HandlerView>::empty());
    assert(path@ =~= Seq::<String>::empty());
    match render_nodes(
        document,
        &document.layouts[l].content,
        Some(content),
        &mut path,
        &mut counter,
        &mut html,
        &mut handlers,
    ) {
        Err(m) => {
            return Err(m);
        },
        Ok(()) => {},
    }
    html.append("  <script src=\"webcore.js\"></script>\n");
    html.append("</body>\n</html>");
    let ghost body = render_seq(
        *document,
        document.layouts@[l as int].content@,
        Some(content@),
        Seq::empty(),
        0,
    );
    assert(html@ =~= shell_head(options.lang@, options.title@) + body.html + shell_tail());
    assert(views(handlers@) =~= body.handlers);
    Ok(HtmlGenerationResult { html, handlers })
}

/// Generates the page named `page_name`: its content inside the layout, with
/// its event bindings collected into a handler table.
pub fn generate_html(
    document: &WebCoreDocument,
    page_name: &str,
    options: &HtmlPageOptions,
) -> (r: Result<HtmlGenerationResult, String>)
    ensures
        delivers(named_page_output(*document, page_name@, options.lang@, options.title@), r),
{
    match find_named(&document.pages, page_name) {
        Some(p) => {
            proof {
                crate::ast::lemma_find_key_range(document.pages@, page_name@);
            }
            generate_page_html(document, &document.pages[p].content, options)
        },
        None => {
            let mut m = String::from_str("Page '");
            m.append(page_name);
            m.append("' not found");
            Err(m)
        },
    }
}

/// The handlers of `r` are numbered `c + 1`, `c + 2`, ... up to `r.next`.
pub open spec fn numbered(r: Rendered, c: nat) -> bool {
    &&& r.next >= c
    &&& r.handlers.len() == r.next - c
    &&& forall|k: int|
        0 <= k < r.handlers.len() ==> #[trigger] r.handlers[k].id == handler_id((c + k + 1) as nat)
}

proof fn lemma_then_numbered(r: Rendered, s: Rendered, c: nat)
    requires
        r.ok ==> numbered(r, c),
        r.ok && s.ok ==> numbered(s, r.next),
    ensures
        then(r, s).ok ==> numbered(then(r, s), c),
{
    if r.ok && s.ok {
        let t = then(r, s);
        assert forall|k: int| 0 <= k < t.handlers.len() implies #[trigger] t.handlers[k].id
            == handler_id((c + k + 1) as nat) by {
            if k < r.handlers.len() {
                assert(t.handlers[k] == r.handlers[k]);
            } else {
                let k2 = k - r.handlers.len();
                assert(t.handlers[k] == s.handlers[k2]);
                assert(s.handlers[k2].id == handler_id((r.next + k2 + 1) as nat));
            }
        }
    }
}

proof fn lemma_attrs_numbered(attrs: Seq<Attribute>, is_link: bool, c: nat)
    ensures
        attrs_out(attrs, is_link, c).ok ==> numbered(attrs_out(attrs, is_link, c), c),
    decreases attrs.len(),
{
    if attrs.len() > 0 {
        let r = attrs_out(attrs.drop_last(), is_link, c);
        lemma_attrs_numbered(attrs.drop_last(), is_link, c);
        let a = attr_out(attrs.last(), is_link, r.next);
        assert(a.ok ==> numbered(a, r.next));
        lemma_then_numbered(r, a, c);
    }
}

proof fn lemma_elem_numbered(
    doc: WebCoreDocument,
    e: Element,
    host: Option<Seq<Element>>,
    path: Seq<String>,
    c: nat,
)
    ensures
        render_elem(doc, e, host, path, c).ok ==> numbered(render_elem(doc, e, host, path, c), c),
    decreases host_rank(host), fuel(doc, path), e,
{
    match e {
        Element::Tag { name, attributes, content } => {
            if name@ == "text"@ {
                lemma_seq_numbered(doc, content@, host, path, c);
            } else {
                let mapped = if name@ == "link"@ {
                    "a"@
                } else {
                    name@
                };
                let a = attrs_out(attributes@, mapped == "a"@, c);
                lemma_attrs_numbered(attributes@, mapped == "a"@, c);
                if a.ok {
                    lemma_seq_numbered(doc, content@, host, path, a.next);
                    lemma_then_numbered(a, render_seq(doc, content@, host, path, a.next), c);
                }
            }
        },
        Element::Slot(name) => {
            if host is Some && name@ == "content"@ {
                lemma_seq_numbered(doc, host->0, None, path, c);
            }
        },
        Element::Component { name, attributes, content } => {
            let k = find_key(doc.components@, name@);
            if k >= 0 {
                if !(on_path(path, name@) || fuel(doc, path) <= 0) {
                    lemma_seq_numbered(doc, doc.components@[k].view@, None, path.push(name), c);
                }
            } else {
                let a = attrs_out(attributes@, false, c);
                lemma_attrs_numbered(attributes@, false, c);
                if a.ok {
                    lemma_seq_numbered(doc, content@, host, path, a.next);
                    lemma_then_numbered(a, render_seq(doc, content@, host, path, a.next), c);
                }
            }
        },
        _ => {},
    }
}

proof fn lemma_seq_numbered(
    doc: WebCoreDocument,
    es: Seq<Element>,
    host: Option<Seq<Element>>,
    path: Seq<String>,
    c: nat,
)
    ensures
        render_seq(doc, es, host, path, c).ok ==> numbered(render_seq(doc, es, host, path, c), c),
    decreases host_rank(host), fuel(doc, path), es,
{
    if es.len() > 0 {
        let r = render_seq(doc, es.drop_last(), host, path, c);
        lemma_seq_numbered(doc, es.drop_last(), host, path, c);
        lemma_elem_numbered(doc, es.last(), host, path, r.next);
        lemma_then_numbered(r, render_elem(doc, es.last(), host, path, r.next), c);
    }
}

/// Distinct handler numbers give distinct ids.
pub proof fn lemma_handler_id_injective(a: nat, b: nat)
    requires
        handler_id(a) == handler_id(b),
    ensures
        a == b,
{
    reveal_strlit("btn");
    assert(decimal(a) =~= handler_id(a).subrange(3, handler_id(a).len() as int));
    assert(decimal(b) =~= handler_id(b).subrange(3, handler_id(b).len() as int));
    lemma_decimal_injective(a, b);
}

/// The handlers of a generated page are numbered `btn1`, `btn2`, ... in the
/// order of the walk, with one counter for the layout, the page and every
/// inlined component; so no two of them share an id.
pub proof fn lemma_page_handler_ids(
    doc: WebCoreDocument,
    content: Seq<Element>,
    lang: Seq<char>,
    title: Seq<char>,
)
    ensures
        page_output(doc, content, lang, title).ok ==> {
            let hs = page_output(doc, content, lang, title).handlers;
            &&& forall|k: int| 0 <= k < hs.len() ==> #[trigger] hs[k].id == handler_id((k + 1) as nat)
            &&& forall|i: int, j: int|
                0 <= i < hs.len() && 0 <= j < hs.len() && i != j ==> #[trigger] hs[i].id
                    != #[trigger] hs[j].id
        },
{
    let l = chosen_layout(doc);
    if l >= 0 {
        lemma_seq_numbered(doc, doc.layouts@[l].content@, Some(content), Seq::empty(), 0);
    }
    if page_output(doc, content, lang, title).ok {
        let hs = page_output(doc, content, lang, title).handlers;
        assert forall|i: int, j: int|
            0 <= i < hs.len() && 0 <= j < hs.len() && i != j implies #[trigger] hs[i].id
            != #[trigger] hs[j].id by {
            assert(hs[i].id == handler_id((i + 1) as nat));
            assert(hs[j].id == handler_id((j + 1) as nat));
            if hs[i].id == hs[j].id {
                lemma_handler_id_injective((i + 1) as nat, (j + 1) as nat);
            }
        }
    }
}

/// Generating a page is deterministic: two results that meet the contract of
/// `generate_html` for the same document, page and options hold the same HTML
/// and the same handler table, or the same error.
pub proof fn lemma_generate_html_deterministic(
    doc: WebCoreDocument,
    name: Seq<char>,
    o: HtmlPageOptions,
    r1: Result<HtmlGenerationResult, String>,
    r2: Result<HtmlGenerationResult, String>,
)
    requires
        delivers(named_page_output(doc, name, o.lang@, o.title@), r1),
        delivers(named_page_output(doc, name, o.lang@, o.title@), r2),
    ensures
        r1 is Ok <==> r2 is Ok,
        r1 is Ok ==> r1->Ok_0.html@ == r2->Ok_0.html@ && views(r1->Ok_0.handlers@) == views(
            r2->Ok_0.handlers@,
        ),
        r1 is Err ==> r1->Err_0@ == r2->Err_0@,
{
}

/// A text element renders as its escaped text, which holds no raw `<`, `>`,
/// `"` or `'`: text cannot inject markup into a page.
pub proof fn lemma_text_renders_escaped(
    doc: WebCoreDocument,
    t: String,
    host: Option<Seq<Element>>,
    path: Seq<String>,
    c: nat,
)
    ensures
        render_elem(doc, Element::Text(t), host, path, c).ok,
        render_elem(doc, Element::Text(t), host, path, c).html == escape(t@),
        forall|k: int|
            0 <= k < escape(t@).len() ==> #[trigger] escape(t@)[k] != '<' && escape(t@)[k] != '>',
{
    lemma_escape_no_markup(t@);
}

} // verus!
