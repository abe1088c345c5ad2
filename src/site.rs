//! A whole build: every page of a document, the runtime with the handlers of
//! all pages, the theme's CSS and an index of the pages.
use crate::ast::{Component, Element, WebCoreDocument};
use crate::css::theme_css;
use crate::css_processor::{process_css, processed_css, processes};
use crate::html::{
    generate_page_html, page_output, views, HandlerMapping, HandlerView, HtmlPageOptions,
};
use crate::js::{component_js, generate_component_js, generate_runtime_js, runtime_js};
use crate::text::{ends_with, matches_at, to_chars};
use crate::theme::Theme;
use vstd::prelude::*;
use vstd::string::*;

verus! {

broadcast use vstd::seq_lib::group_to_multiset_ensures, vstd::seq_lib::to_multiset_insert;

/// One generated page: its file stem, its HTML and its handlers.
pub struct PageFile {
    pub name: String,
    pub html: String,
    pub handlers: Vec<HandlerMapping>,
}

/// Everything that a build produces.
pub struct SiteOutput {
    pub pages: Vec<PageFile>,
    pub css: Option<String>,
    pub js: String,
    pub index: String,
}

/// A component that is also generated as a page: its name ends in `Page`.
pub open spec fn is_page_component(c: Component) -> bool {
    ends_with(c.name@, "Page"@)
}

/// The components generated as pages, in order.
pub open spec fn page_components(cs: Seq<Component>) -> Seq<Component>
    decreases cs.len(),
{
    if cs.len() == 0 {
        Seq::empty()
    } else if is_page_component(cs.last()) {
        page_components(cs.drop_last()).push(cs.last())
    } else {
        page_components(cs.drop_last())
    }
}

proof fn lemma_page_components_prefix(s: Seq<Component>, n: int)
    requires
        0 <= n <= s.len(),
    ensures
        page_components(s.subrange(0, n)).len() <= page_components(s).len(),
        page_components(s).subrange(0, page_components(s.subrange(0, n)).len() as int)
            == page_components(s.subrange(0, n)),
    decreases s.len() - n,
{
    if n < s.len() {
        let p = s.drop_last();
        assert(p.subrange(0, n) =~= s.subrange(0, n));
        lemma_page_components_prefix(p, n);
        let a = page_components(p);
        let b = page_components(s.subrange(0, n));
        if is_page_component(s.last()) {
            assert(a.push(s.last()).subrange(0, b.len() as int) =~= a.subrange(0, b.len() as int));
        }
    } else {
        assert(s.subrange(0, n) =~= s);
        assert(page_components(s).subrange(0, page_components(s).len() as int) =~= page_components(s));
    }
}

/// The document has neither a page nor a page component.
pub open spec fn needs_default_page(doc: WebCoreDocument) -> bool {
    doc.pages@.len() == 0 && page_components(doc.components@).len() == 0
}

/// A one-child element `tag` holding the text `t`, without attributes.
pub open spec fn simple_element(e: Element, tag: Seq<char>, t: Seq<char>) -> bool {
    match e {
        Element::Tag { name, attributes, content } => {
            &&& name@ == tag
            &&& attributes@.len() == 0
            &&& content@.len() == 1
            &&& content@[0] matches Element::Text(x)
            &&& content@[0]->Text_0@ == t
        },
        _ => false,
    }
}

/// The content of the page generated for a document without pages.
pub open spec fn is_default_content(c: Seq<Element>) -> bool {
    &&& c.len() == 2
    &&& simple_element(c[0], "h1"@, "Welcome to WebCore"@)
    &&& simple_element(c[1], "p"@, "This is a default page."@)
}

/// `f` is the page named `name` generated from `content`.
pub open spec fn page_file(
    doc: WebCoreDocument,
    f: PageFile,
    name: Seq<char>,
    content: Seq<Element>,
    o: HtmlPageOptions,
) -> bool {
    let rd = page_output(doc, content, o.lang@, o.title@);
    &&& rd.ok
    &&& f.name@ == name
    &&& f.html@ == rd.html
    &&& views(f.handlers@) == rd.handlers
}

/// The handlers of all pages, in page order.
pub open spec fn all_handlers(pages: Seq<PageFile>) -> Seq<HandlerView>
    decreases pages.len(),
{
    if pages.len() == 0 {
        Seq::empty()
    } else {
        all_handlers(pages.drop_last()) + views(pages.last().handlers@)
    }
}

/// The state initialisation of every component that has state, in order.
pub open spec fn state_js(cs: Seq<Component>) -> Seq<char>
    decreases cs.len(),
{
    if cs.len() == 0 {
        Seq::empty()
    } else if cs.last().state@.len() > 0 {
        state_js(cs.drop_last()) + "\n"@ + component_js(cs.last())
    } else {
        state_js(cs.drop_last())
    }
}

/// `a` comes strictly before `b`, comparing characters by code point.
pub open spec fn lex_lt(a: Seq<char>, b: Seq<char>) -> bool
    decreases a.len(),
{
    if a.len() == 0 {
        b.len() > 0
    } else if b.len() == 0 {
        false
    } else if a[0] == b[0] {
        lex_lt(a.drop_first(), b.drop_first())
    } else {
        (a[0] as int) < (b[0] as int)
    }
}

pub open spec fn lex_le(a: Seq<char>, b: Seq<char>) -> bool {
    a == b || lex_lt(a, b)
}

/// Each name comes no later than the next one.
pub open spec fn sorted_names(s: Seq<String>) -> bool {
    forall|i: int| 0 <= i < s.len() - 1 ==> lex_le(#[trigger] s[i]@, s[i + 1]@)
}

proof fn lemma_lex_total(a: Seq<char>, b: Seq<char>)
    ensures
        !lex_lt(a, b) ==> lex_le(b, a),
    decreases a.len(),
{
    if a.len() > 0 && b.len() > 0 && a[0] == b[0] {
        lemma_lex_total(a.drop_first(), b.drop_first());
        if a.drop_first() == b.drop_first() {
            assert(a =~= seq![a[0]] + a.drop_first());
            assert(b =~= seq![b[0]] + b.drop_first());
        }
    } else if a.len() > 0 && b.len() == 0 {
    } else if a.len() == 0 && b.len() == 0 {
        assert(a =~= b);
    } else if a.len() > 0 && b.len() > 0 {
        assert(a[0] as int != b[0] as int);
    }
}

/// Whether `a` comes strictly before `b`.
fn less_than(a: &str, b: &str) -> (r: bool)
    ensures
        r == lex_lt(a@, b@),
{
    let x = to_chars(a);
    let y = to_chars(b);
    let mut i: usize = 0;
    assert(x@.subrange(0, x@.len() as int) =~= x@);
    assert(y@.subrange(0, y@.len() as int) =~= y@);
    while i < x.len() && i < y.len() && x[i] == y[i]
        invariant
            0 <= i <= x@.len(),
            i <= y@.len(),
            lex_lt(x@.subrange(i as int, x@.len() as int), y@.subrange(i as int, y@.len() as int))
                == lex_lt(x@, y@),
        decreases x@.len() - i,
    {
        proof {
            let xs = x@.subrange(i as int, x@.len() as int);
            let ys = y@.subrange(i as int, y@.len() as int);
            assert(xs.drop_first() =~= x@.subrange(i + 1, x@.len() as int));
            assert(ys.drop_first() =~= y@.subrange(i + 1, y@.len() as int));
        }
        i = i + 1;
    }
    let xs = Ghost(x@.subrange(i as int, x@.len() as int));
    let ys = Ghost(y@.subrange(i as int, y@.len() as int));
    if i == x.len() {
        i < y.len()
    } else if i == y.len() {
        false
    } else {
        assert(xs@[0] == x@[i as int] && ys@[0] == y@[i as int]);
        assert(xs@[0] != ys@[0]);
        assert(lex_lt(xs@, ys@) == ((xs@[0] as int) < (ys@[0] as int)));
        x[i] < y[i]
    }
}

/// Sorts names by code point, keeping each once for each time it was given.
fn sort_names(names: Vec<String>) -> (r: Vec<String>)
    ensures
        sorted_names(r@),
        r@.to_multiset() == names@.to_multiset(),
{
    let mut out: Vec<String> = Vec::new();
    let mut i: usize = 0;
    assert(names@.subrange(0, 0) =~= out@);
    while i < names.len()
        invariant
            0 <= i <= names@.len(),
            sorted_names(out@),
            out@.to_multiset() == names@.subrange(0, i as int).to_multiset(),
        decreases names@.len() - i,
    {
        let x = names[i].clone();
        let mut j: usize = 0;
        while j < out.len() && !less_than(x.as_str(), out[j].as_str())
            invariant
                0 <= j <= out@.len(),
                forall|k: int| 0 <= k < j ==> !lex_lt(x@, #[trigger] out@[k]@),
            decreases out@.len() - j,
        {
            j = j + 1;
        }
        proof {
            if j > 0 {
                lemma_lex_total(x@, out@[j - 1]@);
            }
            if j < out@.len() {
                assert(lex_lt(x@, out@[j as int]@));
            }
        }
        let ghost before = out@;
        out.insert(j, x);
        proof {
            assert(out@ == before.insert(j as int, x));
            assert forall|k: int| 0 <= k < out@.len() - 1 implies lex_le(
                #[trigger] out@[k]@,
                out@[k + 1]@,
            ) by {
                if k < j as int - 1 {
                    assert(out@[k] == before[k] && out@[k + 1] == before[k + 1]);
                } else if k == j as int - 1 {
                } else if k == j as int {
                } else {
                    assert(out@[k] == before[k - 1] && out@[k + 1] == before[k]);
                }
            }
            assert(names@.subrange(0, i as int + 1) =~= names@.subrange(0, i as int).push(
                names@[i as int],
            ));
            assert(x == names@[i as int]);
        }
        i = i + 1;
    }
    assert(names@.subrange(0, names@.len() as int) =~= names@);
    out
}

/// The index page's entry for a page.
pub open spec fn index_entry(name: Seq<char>) -> Seq<char> {
    "  <li><a href=\""@ + name + ".html\">"@ + name + "</a></li>\n"@
}

pub open spec fn index_entries(names: Seq<String>) -> Seq<char>
    decreases names.len(),
{
    if names.len() == 0 {
        Seq::empty()
    } else {
        index_entries(names.drop_last()) + index_entry(names.last()@)
    }
}

/// The index page linking to the pages named `names`, in that order.
pub open spec fn index_html(names: Seq<String>) -> Seq<char> {
    "<!DOCTYPE html>\n<html lang=\"fr\">\n<head>\n"@ + "  <meta charset=\"UTF-8\">\n"@
        + "  <meta name=\"viewport\" content=\"width=device-width, initial-scale=1.0\">\n"@
        + "  <title>Index</title>\n"@ + "  <link rel=\"stylesheet\" href=\"theme.css\">\n"@
        + "</head>\n<body>\n<h1>Pages</h1>\n<ul>\n"@ + index_entries(names)
        + "</ul>\n<script src=\"webcore.js\"></script>\n</body>\n</html>\n"@
}

/// Generates the index page of the given pages, sorted by name.
pub fn generate_index_html(names: Vec<String>) -> (r: String)
    ensures
        exists|sorted: Seq<String>|
            sorted_names(sorted) && sorted.to_multiset() == names@.to_multiset() && r@ == index_html(
                sorted,
            ),
{
    let sorted = sort_names(names);
    let mut html = String::from_str("<!DOCTYPE html>\n<html lang=\"fr\">\n<head>\n");
    html.append("  <meta charset=\"UTF-8\">\n");
    html.append("  <meta name=\"viewport\" content=\"width=device-width, initial-scale=1.0\">\n");
    html.append("  <title>Index</title>\n");
    html.append("  <link rel=\"stylesheet\" href=\"theme.css\">\n");
    html.append("</head>\n<body>\n<h1>Pages</h1>\n<ul>\n");
    let ghost head = html@;
    let mut i: usize = 0;
    assert(sorted@.subrange(0, 0) =~= Seq::<String>::empty());
    while i < sorted.len()
        invariant
            0 <= i <= sorted@.len(),
            html@ == head + index_entries(sorted@.subrange(0, i as int)),
        decreases sorted@.len() - i,
    {
        let ghost before = html@;
        html.append("  <li><a href=\"");
        html.append(sorted[i].as_str());
        html.append(".html\">");
        html.append(sorted[i].as_str());
        html.append("</a></li>\n");
        assert(html@ =~= before + index_entry(sorted@[i as int]@));
        proof {
            let pre = sorted@.subrange(0, i as int + 1);
            assert(pre.drop_last() =~= sorted@.subrange(0, i as int));
        }
        i = i + 1;
    }
    assert(sorted@.subrange(0, sorted@.len() as int) =~= sorted@);
    html.append("</ul>\n<script src=\"webcore.js\"></script>\n</body>\n</html>\n");
    assert(html@ =~= index_html(sorted@));
    html
}

/// The pages of a build: every page, then every page component, each inside
/// the layout; or, where there is neither, the default page named `index`.
pub open spec fn pages_generated(doc: WebCoreDocument, o: HtmlPageOptions, files: Seq<PageFile>) -> bool {
    let np = doc.pages@.len();
    let cs = page_components(doc.components@);
    if needs_default_page(doc) {
        &&& files.len() == 1
        &&& exists|c: Seq<Element>| is_default_content(c) && page_file(doc, files[0], "index"@, c, o)
    } else {
        &&& files.len() == np + cs.len()
        &&& forall|k: int|
            0 <= k < np ==> page_file(
                doc,
                #[trigger] files[k],
                doc.pages@[k].name@,
                doc.pages@[k].content@,
                o,
            )
        &&& forall|j: int|
            0 <= j < cs.len() ==> page_file(doc, #[trigger] files[np + j], cs[j].name@, cs[j].view@, o)
    }
}

/// Every page of the build generates without error.
pub open spec fn all_pages_generate(doc: WebCoreDocument, o: HtmlPageOptions) -> bool {
    let cs = page_components(doc.components@);
    &&& forall|k: int|
        0 <= k < doc.pages@.len() ==> (#[trigger] page_output(
            doc,
            doc.pages@[k].content@,
            o.lang@,
            o.title@,
        )).ok
    &&& forall|j: int|
        0 <= j < cs.len() ==> (#[trigger] page_output(doc, cs[j].view@, o.lang@, o.title@)).ok
    &&& needs_default_page(doc) ==> forall|c: Seq<Element>|
        is_default_content(c) ==> (#[trigger] page_output(doc, c, o.lang@, o.title@)).ok
}

/// The names that the index lists: the pages, then the page components.
pub open spec fn listed_names(doc: WebCoreDocument) -> Seq<String> {
    doc.pages@.map_values(|p: crate::ast::Page| p.name) + page_components(doc.components@).map_values(
        |c: Component| c.name,
    )
}

/// What a successful build holds.
pub open spec fn site_built(
    doc: WebCoreDocument,
    theme: Option<Theme>,
    o: HtmlPageOptions,
    production: bool,
    out: SiteOutput,
) -> bool {
    &&& pages_generated(doc, o, out.pages@)
    &&& out.js@ == runtime_js(all_handlers(out.pages@)) + state_js(doc.components@)
    &&& match theme {
        Some(t) => out.css matches Some(c) && c@ == processed_css(theme_css(t), production),
        None => out.css is None,
    }
    &&& exists|sorted: Seq<String>|
        sorted_names(sorted) && sorted.to_multiset() == listed_names(doc).to_multiset()
            && out.index@ == index_html(sorted)
}

/// The content of the page generated for a document without pages.
pub fn default_page_content() -> (r: Vec<Element>)
    ensures
        is_default_content(r@),
{
    let heading = Element::Tag {
        name: String::from_str("h1"),
        attributes: Vec::new(),
        content: vec![Element::Text(String::from_str("Welcome to WebCore"))],
    };
    let paragraph = Element::Tag {
        name: String::from_str("p"),
        attributes: Vec::new(),
        content: vec![Element::Text(String::from_str("This is a default page."))],
    };
    vec![heading, paragraph]
}

fn copy_string(s: &String) -> (r: String)
    ensures
        r@ == s@,
{
    String::from_str(s.as_str())
}

/// Appends copies of `hs` to `all`.
fn extend_handlers(all: &mut Vec<HandlerMapping>, hs: &Vec<HandlerMapping>)
    ensures
        views(final(all)@) == views(old(all)@) + views(hs@),
{
    let mut i: usize = 0;
    assert(views(hs@.subrange(0, 0)) =~= Seq::<HandlerView>::empty());
    assert(views(all@) =~= views(old(all)@) + Seq::<HandlerView>::empty());
    while i < hs.len()
        invariant
            0 <= i <= hs@.len(),
            views(all@) == views(old(all)@) + views(hs@.subrange(0, i as int)),
        decreases hs@.len() - i,
    {
        let h = HandlerMapping {
            id: copy_string(&hs[i].id),
            event_type: copy_string(&hs[i].event_type),
            expression: copy_string(&hs[i].expression),
        };
        let ghost before = all@;
        all.push(h);
        assert(views(all@) =~= views(before).push(hs@[i as int]@));
        assert(views(hs@.subrange(0, i as int + 1)) =~= views(hs@.subrange(0, i as int)).push(
            hs@[i as int]@,
        ));
        i = i + 1;
    }
    assert(hs@.subrange(0, hs@.len() as int) =~= hs@);
}

/// Generates one page and adds it, with its handlers, to the build.
fn add_page(
    document: &WebCoreDocument,
    name: &String,
    content: &Vec<Element>,
    options: &HtmlPageOptions,
    pages: &mut Vec<PageFile>,
    all: &mut Vec<HandlerMapping>,
) -> (r: Result<(), String>)
    requires
        views(old(all)@) == all_handlers(old(pages)@),
    ensures
        r is Ok <==> page_output(*document, content@, options.lang@, options.title@).ok,
        r is Ok ==> final(pages)@.len() == old(pages)@.len() + 1 && final(pages)@.drop_last()
            == old(pages)@ && page_file(
            *document,
            final(pages)@.last(),
            name@,
            content@,
            *options,
        ) && views(final(all)@) == all_handlers(final(pages)@),
{
    match generate_page_html(document, content, options) {
        Ok(res) => {
            extend_handlers(all, &res.handlers);
            let f = PageFile { name: copy_string(name), html: res.html, handlers: res.handlers };
            let ghost before = pages@;
            pages.push(f);
            assert(pages@.drop_last() =~= before);
            Ok(())
        },
        Err(m) => Err(m),
    }
}

/// Builds every page of a document, the runtime, the theme's CSS (minified in
/// production) and the index of pages.
pub fn build_site(
    document: &WebCoreDocument,
    theme: Option<&Theme>,
    options: &HtmlPageOptions,
    production: bool,
) -> (r: Result<SiteOutput, String>)
    ensures
        r matches Ok(out) ==> site_built(
            *document,
            match theme {
                Some(t) => Some(*t),
                None => None,
            },
            *options,
            production,
            out,
        ),
        all_pages_generate(*document, *options) && (theme matches Some(t) ==> processes(
            theme_css(*t),
            production,
        )) ==> r is Ok,
{
    let mut pages: Vec<PageFile> = Vec::new();
    let mut all: Vec<HandlerMapping> = Vec::new();
    let ghost o = *options;
    let ghost cs = page_components(document.components@);
    let ghost np = document.pages@.len();
    assert(views(all@) =~= all_handlers(pages@));
    let mut names: Vec<String> = Vec::new();
    let mut k: usize = 0;
    assert(names@ =~= document.pages@.subrange(0, 0).map_values(|p: crate::ast::Page| p.name));
    while k < document.pages.len()
        invariant
            0 <= k <= document.pages@.len(),
            pages@.len() == k,
            names@ == document.pages@.subrange(0, k as int).map_values(|p: crate::ast::Page| p.name),
            views(all@) == all_handlers(pages@),
            forall|q: int|
                0 <= q < k ==> page_file(
                    *document,
                    #[trigger] pages@[q],
                    document.pages@[q].name@,
                    document.pages@[q].content@,
                    *options,
                ),
            forall|q: int|
                0 <= q < k ==> (#[trigger] page_output(
                    *document,
                    document.pages@[q].content@,
                    options.lang@,
                    options.title@,
                )).ok,
        decreases document.pages@.len() - k,
    {
        let ghost before = pages@;
        let page = &document.pages[k];
        match add_page(document, &page.name, &page.content, options, &mut pages, &mut all) {
            Err(m) => {
                return Err(m);
            },
            Ok(()) => {},
        }
        assert forall|q: int| 0 <= q < k implies #[trigger] pages@[q] == before[q] by {
            assert(pages@.drop_last()[q] == pages@[q]);
        }
        names.push(page.name.clone());
        assert(names@ =~= document.pages@.subrange(0, k as int + 1).map_values(
            |p: crate::ast::Page| p.name,
        ));
        k = k + 1;
    }
    let mut j: usize = 0;
    assert(document.components@.subrange(0, 0) =~= Seq::<Component>::empty());
    assert(document.pages@.subrange(0, np as int) =~= document.pages@);
    assert(names@ =~= document.pages@.map_values(|p: crate::ast::Page| p.name) + page_components(
        document.components@.subrange(0, 0),
    ).map_values(|c: Component| c.name));
    while j < document.components.len()
        invariant
            0 <= j <= document.components@.len(),
            np == document.pages@.len(),
            names@ == document.pages@.map_values(|p: crate::ast::Page| p.name) + page_components(
                document.components@.subrange(0, j as int),
            ).map_values(|c: Component| c.name),
            pages@.len() == np + page_components(document.components@.subrange(0, j as int)).len(),
            views(all@) == all_handlers(pages@),
            forall|q: int|
                0 <= q < np ==> page_file(
                    *document,
                    #[trigger] pages@[q],
                    document.pages@[q].name@,
                    document.pages@[q].content@,
                    *options,
                ),
            forall|q: int|
                0 <= q < np ==> (#[trigger] page_output(
                    *document,
                    document.pages@[q].content@,
                    options.lang@,
                    options.title@,
                )).ok,
            ({
                let ps = page_components(document.components@.subrange(0, j as int));
                &&& forall|q: int|
                    0 <= q < ps.len() ==> page_file(
                        *document,
                        #[trigger] pages@[np + q],
                        ps[q].name@,
                        ps[q].view@,
                        *options,
                    )
                &&& forall|q: int|
                    0 <= q < ps.len() ==> (#[trigger] page_output(
                        *document,
                        ps[q].view@,
                        options.lang@,
                        options.title@,
                    )).ok
            }),
        decreases document.components@.len() - j,
    {
        let c = &document.components[j];
        let ghost pre = document.components@.subrange(0, j as int + 1);
        let ghost ps0 = page_components(document.components@.subrange(0, j as int));
        assert(pre.drop_last() =~= document.components@.subrange(0, j as int));
        assert(pre.last() == *c);
        let name_chars = to_chars(c.name.as_str());
        let suffix = to_chars("Page");
        let is_page = name_chars.len() >= suffix.len() && matches_at(
            &name_chars,
            &suffix,
            name_chars.len() - suffix.len(),
        );
        assert(is_page == is_page_component(*c));
        if is_page {
            let ghost before = pages@;
            match add_page(document, &c.name, &c.view, options, &mut pages, &mut all) {
                Err(m) => {
                    proof {
                        assert(page_components(pre) == ps0.push(*c));
                        lemma_page_components_prefix(document.components@, j as int + 1);
                        let all_cs = page_components(document.components@);
                        assert(all_cs[ps0.len() as int] == page_components(pre)[ps0.len() as int]);
                        assert(!page_output(*document, all_cs[ps0.len() as int].view@, options.lang@, options.title@).ok);
                    }
                    return Err(m);
                },
                Ok(()) => {},
            }
            names.push(c.name.clone());
            proof {
                let ps = page_components(pre);
                assert(ps == ps0.push(*c));
                assert forall|q: int| 0 <= q < np + ps0.len() implies #[trigger] pages@[q] == before[q] by {
                    assert(pages@.drop_last()[q] == pages@[q]);
                }
                assert(names@ =~= document.pages@.map_values(|p: crate::ast::Page| p.name)
                    + ps.map_values(|c: Component| c.name));
                assert forall|q: int| 0 <= q < ps.len() implies page_file(
                    *document,
                    #[trigger] pages@[np + q],
                    ps[q].name@,
                    ps[q].view@,
                    *options,
                ) by {
                    if q < ps0.len() {
                        assert(pages@[np + q] == before[np + q]);
                    }
                }
            }
        }
        j = j + 1;
    }
    assert(document.components@.subrange(0, document.components@.len() as int) =~= document.components@);
    if pages.len() == 0 {
        let content = default_page_content();
        let name = String::from_str("index");
        match add_page(document, &name, &content, options, &mut pages, &mut all) {
            Err(m) => {
                assert(!page_output(*document, content@, options.lang@, options.title@).ok);
                return Err(m);
            },
            Ok(()) => {},
        }
        assert(is_default_content(content@) && page_file(*document, pages@[0], "index"@, content@, *options));
    }
    let mut js = generate_runtime_js(all.as_slice());
    let ghost runtime = js@;
    let mut m: usize = 0;
    assert(document.components@.subrange(0, 0) =~= Seq::<Component>::empty());
    assert(js@ =~= runtime + state_js(document.components@.subrange(0, 0)));
    while m < document.components.len()
        invariant
            0 <= m <= document.components@.len(),
            js@ == runtime + state_js(document.components@.subrange(0, m as int)),
        decreases document.components@.len() - m,
    {
        let c = &document.components[m];
        let ghost before = js@;
        proof {
            let pre = document.components@.subrange(0, m as int + 1);
            assert(pre.drop_last() =~= document.components@.subrange(0, m as int));
        }
        if c.state.len() > 0 {
            js.append("\n");
            js.append(generate_component_js(c).as_str());
            assert(js@ =~= before + "\n"@ + component_js(*c));
        }
        m = m + 1;
    }
    assert(document.components@.subrange(0, document.components@.len() as int) =~= document.components@);
    let css = match theme {
        Some(t) => {
            let raw = crate::css::generate_theme_css(t);
            match process_css(raw.as_str(), production) {
                Ok(c) => Some(c),
                Err(e) => {
                    return Err(e);
                },
            }
        },
        None => None,
    };
    let index = generate_index_html(names);
    Ok(SiteOutput { pages, css, js, index })
}

proof fn lemma_all_handlers_equal(a: Seq<PageFile>, b: Seq<PageFile>)
    requires
        a.len() == b.len(),
        forall|k: int| 0 <= k < a.len() ==> views(#[trigger] a[k].handlers@) == views(b[k].handlers@),
    ensures
        all_handlers(a) == all_handlers(b),
    decreases a.len(),
{
    if a.len() > 0 {
        assert forall|k: int| 0 <= k < a.len() - 1 implies views(
            #[trigger] a.drop_last()[k].handlers@,
        ) == views(b.drop_last()[k].handlers@) by {
            assert(a.drop_last()[k] == a[k] && b.drop_last()[k] == b[k]);
        }
        lemma_all_handlers_equal(a.drop_last(), b.drop_last());
        assert(views(a.last().handlers@) == views(b.last().handlers@));
    }
}

/// A build is deterministic: for a document with pages or page components,
/// two outputs that meet the contract of `build_site` for the same inputs hold
/// byte-identical pages, JavaScript and CSS.
pub proof fn lemma_build_deterministic(
    doc: WebCoreDocument,
    theme: Option<Theme>,
    o: HtmlPageOptions,
    production: bool,
    out1: SiteOutput,
    out2: SiteOutput,
)
    requires
        !needs_default_page(doc),
        site_built(doc, theme, o, production, out1),
        site_built(doc, theme, o, production, out2),
    ensures
        out1.pages@.len() == out2.pages@.len(),
        forall|k: int|
            0 <= k < out1.pages@.len() ==> (#[trigger] out1.pages@[k]).name@ == out2.pages@[k].name@
                && out1.pages@[k].html@ == out2.pages@[k].html@,
        out1.js@ == out2.js@,
        out1.css is Some <==> out2.css is Some,
        out1.css is Some ==> out1.css->Some_0@ == out2.css->Some_0@,
{
    let np = doc.pages@.len();
    let cs = page_components(doc.components@);
    let p1 = out1.pages@;
    let p2 = out2.pages@;
    assert forall|k: int| 0 <= k < p1.len() implies (#[trigger] p1[k]).name@ == p2[k].name@
        && p1[k].html@ == p2[k].html@ && views(p1[k].handlers@) == views(p2[k].handlers@) by {
        if k < np {
            assert(page_file(doc, p1[k], doc.pages@[k].name@, doc.pages@[k].content@, o));
            assert(page_file(doc, p2[k], doc.pages@[k].name@, doc.pages@[k].content@, o));
        } else {
            let j = k - np;
            assert(page_file(doc, p1[np + j], cs[j].name@, cs[j].view@, o));
            assert(page_file(doc, p2[np + j], cs[j].name@, cs[j].view@, o));
        }
    }
    lemma_all_handlers_equal(p1, p2);
}

} // verus!
