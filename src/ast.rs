//! The syntax tree of a WebCore source: apps, layouts, pages and components.
use vstd::prelude::*;

verus! {

/// An item of a document that is stored under its own name.
pub trait Named {
    spec fn key(&self) -> Seq<char>;

    fn name_ref(&self) -> (r: &String)
        ensures
            r@ == self.key(),
    ;
}

/// A route of an app: a path and the component shown there.
#[derive(Debug, Clone)]
pub struct Route {
    pub path: String,
    pub component: String,
}

#[derive(Debug, Clone)]
pub struct App {
    pub name: String,
    pub theme: Option<String>,
    pub layout: Option<String>,
    pub routes: Vec<Route>,
}

#[derive(Debug)]
pub struct Layout {
    pub name: String,
    pub content: Vec<Element>,
}

#[derive(Debug)]
pub struct Page {
    pub name: String,
    pub content: Vec<Element>,
}

#[derive(Debug)]
pub struct Component {
    pub name: String,
    pub props: Vec<Prop>,
    pub state: Vec<StateVar>,
    pub view: Vec<Element>,
    pub style: Vec<StyleRule>,
}

#[derive(Debug, Clone)]
pub struct Prop {
    pub name: String,
    pub type_: Option<String>,
}

#[derive(Debug, Clone)]
pub struct StateVar {
    pub name: String,
    pub type_: String,
    pub default_value: Option<String>,
}

#[derive(Debug)]
pub enum Element {
    Text(String),
    Tag { name: String, attributes: Vec<Attribute>, content: Vec<Element> },
    Slot(String),
    Component { name: String, attributes: Vec<Attribute>, content: Vec<Element> },
    Interpolation(String),
}

#[derive(Debug, Clone)]
pub struct Attribute {
    pub name: String,
    pub value: AttributeValue,
}

#[derive(Debug, Clone)]
pub enum AttributeValue {
    String(String),
    Expression(String),
    Boolean(bool),
}

#[derive(Debug, Clone)]
pub struct StyleRule {
    pub selector: String,
    pub properties: Vec<StyleProperty>,
}

#[derive(Debug, Clone)]
pub struct StyleProperty {
    pub name: String,
    pub value: String,
}

impl Named for Layout {
    open spec fn key(&self) -> Seq<char> {
        self.name@
    }

    fn name_ref(&self) -> (r: &String) {
        &self.name
    }
}

impl Named for Page {
    open spec fn key(&self) -> Seq<char> {
        self.name@
    }

    fn name_ref(&self) -> (r: &String) {
        &self.name
    }
}

impl Named for Component {
    open spec fn key(&self) -> Seq<char> {
        self.name@
    }

    fn name_ref(&self) -> (r: &String) {
        &self.name
    }
}

impl Named for Route {
    open spec fn key(&self) -> Seq<char> {
        self.path@
    }

    fn name_ref(&self) -> (r: &String) {
        &self.path
    }
}

/// The index of the first item stored under `name`, or -1.
pub open spec fn find_key<T: Named>(s: Seq<T>, name: Seq<char>) -> int
    decreases s.len(),
{
    if s.len() == 0 {
        -1
    } else {
        let k = find_key(s.drop_last(), name);
        if k >= 0 {
            k
        } else if s.last().key() == name {
            s.len() - 1
        } else {
            -1
        }
    }
}

/// Storing `item` replaces the item of the same name, or else appends it.
pub open spec fn insert_key<T: Named>(s: Seq<T>, item: T) -> Seq<T> {
    let k = find_key(s, item.key());
    if k >= 0 {
        s.update(k, item)
    } else {
        s.push(item)
    }
}

/// No two items share a name.
pub open spec fn unique_keys<T: Named>(s: Seq<T>) -> bool {
    forall|i: int, j: int|
        0 <= i < s.len() && 0 <= j < s.len() && #[trigger] s[i].key() == #[trigger] s[j].key()
            ==> i == j
}

pub proof fn lemma_find_key_range<T: Named>(s: Seq<T>, name: Seq<char>)
    ensures
        -1 <= find_key(s, name) < s.len(),
        find_key(s, name) >= 0 ==> s[find_key(s, name)].key() == name,
        find_key(s, name) < 0 ==> forall|i: int| 0 <= i < s.len() ==> s[i].key() != name,
    decreases s.len(),
{
    if s.len() > 0 {
        lemma_find_key_range(s.drop_last(), name);
        let p = s.drop_last();
        assert forall|i: int| 0 <= i < p.len() implies p[i] == s[i] by {}
    }
}

/// A match in a prefix is the first match of the whole sequence.
pub proof fn lemma_find_key_prefix<T: Named>(s: Seq<T>, n: int, name: Seq<char>)
    requires
        0 <= n <= s.len(),
        find_key(s.subrange(0, n), name) >= 0,
    ensures
        find_key(s, name) == find_key(s.subrange(0, n), name),
    decreases s.len() - n,
{
    if n < s.len() {
        let p = s.drop_last();
        assert(p.subrange(0, n) =~= s.subrange(0, n));
        lemma_find_key_prefix(p, n, name);
    } else {
        assert(s.subrange(0, n) =~= s);
    }
}

/// The index of the first item named `name`, as `find_key` describes it.
pub fn find_named<T: Named>(v: &Vec<T>, name: &str) -> (r: Option<usize>)
    ensures
        match r {
            Some(i) => find_key(v@, name@) == i as int,
            None => find_key(v@, name@) == -1,
        },
{
    let mut i: usize = 0;
    while i < v.len()
        invariant
            0 <= i <= v@.len(),
            find_key(v@.subrange(0, i as int), name@) == -1,
        decreases v@.len() - i,
    {
        let key = v[i].name_ref();
        if crate::text::str_eq(key.as_str(), name) {
            proof {
                let p = v@.subrange(0, i as int + 1);
                assert(p.drop_last() =~= v@.subrange(0, i as int));
                lemma_find_key_prefix(v@, i as int + 1, name@);
            }
            return Some(i);
        }
        proof {
            let p = v@.subrange(0, i as int + 1);
            assert(p.drop_last() =~= v@.subrange(0, i as int));
        }
        i = i + 1;
    }
    proof {
        assert(v@.subrange(0, v@.len() as int) =~= v@);
    }
    None
}

/// Stores `item` under its name: the item of the same name is replaced.
pub fn insert_named<T: Named>(v: &mut Vec<T>, item: T)
    ensures
        final(v)@ == insert_key(old(v)@, item),
{
    let k = find_named(v, item.name_ref().as_str());
    proof {
        lemma_find_key_range(v@, item.key());
    }
    match k {
        Some(i) => {
            v.set(i, item);
        },
        None => {
            v.push(item);
        },
    }
}

pub proof fn lemma_insert_keeps_unique<T: Named>(s: Seq<T>, item: T)
    requires
        unique_keys(s),
    ensures
        unique_keys(insert_key(s, item)),
{
    lemma_find_key_range(s, item.key());
    let t = insert_key(s, item);
    lemma_find_key_range(t, item.key());
    assert forall|i: int, j: int|
        0 <= i < t.len() && 0 <= j < t.len() && #[trigger] t[i].key() == #[trigger] t[j].key()
            implies i == j by {
        if find_key(s, item.key()) < 0 {
            if i < s.len() && j < s.len() {
                assert(s[i].key() == s[j].key());
            }
        } else {
            let k = find_key(s, item.key());
            if i != k && j != k {
                assert(s[i].key() == s[j].key());
            } else if i == k && j != k {
                assert(s[j].key() == s[k].key());
            } else if j == k && i != k {
                assert(s[i].key() == s[k].key());
            }
        }
    }
}


/// Storing `items` one after another, each replacing an item of its name.
pub open spec fn insert_all<T: Named>(s: Seq<T>, items: Seq<T>) -> Seq<T>
    decreases items.len(),
{
    if items.len() == 0 {
        s
    } else {
        insert_key(insert_all(s, items.drop_last()), items.last())
    }
}

/// Stores each of `items`, in order, under its name.
pub fn insert_all_named<T: Named>(v: &mut Vec<T>, items: Vec<T>)
    ensures
        final(v)@ == insert_all(old(v)@, items@),
        unique_keys(old(v)@) ==> unique_keys(final(v)@),
{
    let ghost orig = items@;
    let mut items = items;
    let total = items.len();
    let mut k: usize = 0;
    assert(orig.subrange(0, 0) =~= Seq::<T>::empty());
    assert(items@ =~= orig.subrange(0, orig.len() as int));
    while items.len() > 0
        invariant
            0 <= k <= orig.len(),
            orig.len() == total,
            items@ == orig.subrange(k as int, orig.len() as int),
            v@ == insert_all(old(v)@, orig.subrange(0, k as int)),
            unique_keys(old(v)@) ==> unique_keys(v@),
        decreases items@.len(),
    {
        let item = items.remove(0);
        assert(item == orig[k as int]);
        proof {
            if unique_keys(v@) {
                lemma_insert_keeps_unique(v@, item);
            }
            let pre = orig.subrange(0, k as int + 1);
            assert(pre.drop_last() =~= orig.subrange(0, k as int));
        }
        insert_named(v, item);
        k = k + 1;
        assert(items@ =~= orig.subrange(k as int, orig.len() as int));
    }
    assert(orig.subrange(0, orig.len() as int) =~= orig);
}

/// A whole program: its app, and its layouts, pages and components by name.
#[derive(Debug)]
pub struct WebCoreDocument {
    pub app: Option<App>,
    pub layouts: Vec<Layout>,
    pub pages: Vec<Page>,
    pub components: Vec<Component>,
}

impl WebCoreDocument {
    /// Names are unique within each of the three collections.
    pub open spec fn wf(&self) -> bool {
        &&& unique_keys(self.layouts@)
        &&& unique_keys(self.pages@)
        &&& unique_keys(self.components@)
    }

    pub fn new() -> (r: WebCoreDocument)
        ensures
            r.app is None,
            r.layouts@.len() == 0,
            r.pages@.len() == 0,
            r.components@.len() == 0,
            r.wf(),
    {
        WebCoreDocument { app: None, layouts: Vec::new(), pages: Vec::new(), components: Vec::new() }
    }

    /// Adds everything of `other`; a later definition replaces an earlier one
    /// of the same name, and an app of `other` replaces this one.
    pub fn merge_from(&mut self, other: WebCoreDocument)
        ensures
            final(self).layouts@ == insert_all(old(self).layouts@, other.layouts@),
            final(self).pages@ == insert_all(old(self).pages@, other.pages@),
            final(self).components@ == insert_all(old(self).components@, other.components@),
            final(self).app == (if other.app is Some {
                other.app
            } else {
                old(self).app
            }),
            old(self).wf() ==> final(self).wf(),
    {
        let WebCoreDocument { app, layouts, pages, components } = other;
        if app.is_some() {
            self.app = app;
        }
        insert_all_named(&mut self.layouts, layouts);
        insert_all_named(&mut self.pages, pages);
        insert_all_named(&mut self.components, components);
    }

    pub fn insert_layout(&mut self, layout: Layout)
        ensures
            final(self).layouts@ == insert_key(old(self).layouts@, layout),
            final(self).pages == old(self).pages,
            final(self).components == old(self).components,
            final(self).app == old(self).app,
            old(self).wf() ==> final(self).wf(),
    {
        proof {
            if unique_keys(self.layouts@) {
                lemma_insert_keeps_unique(self.layouts@, layout);
            }
        }
        insert_named(&mut self.layouts, layout);
    }

    pub fn insert_page(&mut self, page: Page)
        ensures
            final(self).pages@ == insert_key(old(self).pages@, page),
            final(self).layouts == old(self).layouts,
            final(self).components == old(self).components,
            final(self).app == old(self).app,
            old(self).wf() ==> final(self).wf(),
    {
        proof {
            if unique_keys(self.pages@) {
                lemma_insert_keeps_unique(self.pages@, page);
            }
        }
        insert_named(&mut self.pages, page);
    }

    pub fn insert_component(&mut self, component: Component)
        ensures
            final(self).components@ == insert_key(old(self).components@, component),
            final(self).layouts == old(self).layouts,
            final(self).pages == old(self).pages,
            final(self).app == old(self).app,
            old(self).wf() ==> final(self).wf(),
    {
        proof {
            if unique_keys(self.components@) {
                lemma_insert_keeps_unique(self.components@, component);
            }
        }
        insert_named(&mut self.components, component);
    }
}

} // verus!
