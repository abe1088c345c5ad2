//! CSS generation: a theme's tokens as custom properties of `:root`.
use crate::theme::Theme;
use vstd::prelude::*;
use vstd::string::*;

verus! {

/// One custom property declaration, `--<prefix><name>: <value>;`.
pub open spec fn css_var(prefix: Seq<char>, entry: (String, String)) -> Seq<char> {
    "  --"@ + prefix + entry.0@ + ": "@ + entry.1@ + ";\n"@
}

/// The declarations of a list of tokens, in order.
pub open spec fn css_vars(prefix: Seq<char>, entries: Seq<(String, String)>) -> Seq<char>
    decreases entries.len(),
{
    if entries.len() == 0 {
        Seq::empty()
    } else {
        css_vars(prefix, entries.drop_last()) + css_var(prefix, entries.last())
    }
}

/// The `:root` block of a theme: colors, fonts, radii and breakpoints.
pub open spec fn theme_css(t: Theme) -> Seq<char> {
    ":root {\n"@ + css_vars("color-"@, t.colors@) + css_vars("font-"@, t.fonts@) + css_vars(
        "radius-"@,
        t.radius@,
    ) + css_vars("breakpoint-"@, t.breakpoints@) + "}\n"@
}

/// Placeholder output of the stand-alone CSS generator.
pub fn generate_css() -> (r: String)
    ensures
        r@ == "/* CSS output placeholder */"@,
{
    String::from_str("/* CSS output placeholder */")
}

/// Appends the declarations of `entries` with names prefixed by `prefix`.
fn push_vars(css: &mut String, prefix: &str, entries: &Vec<(String, String)>)
    ensures
        final(css)@ == old(css)@ + css_vars(prefix@, entries@),
{
    let mut i: usize = 0;
    assert(entries@.subrange(0, 0) =~= Seq::<(String, String)>::empty());
    assert(css@ =~= old(css)@ + Seq::<char>::empty());
    while i < entries.len()
        invariant
            0 <= i <= entries@.len(),
            css@ == old(css)@ + css_vars(prefix@, entries@.subrange(0, i as int)),
        decreases entries@.len() - i,
    {
        let ghost before = css@;
        css.append("  --");
        css.append(prefix);
        css.append(entries[i].0.as_str());
        css.append(": ");
        css.append(entries[i].1.as_str());
        css.append(";\n");
        assert(css@ =~= before + css_var(prefix@, entries@[i as int]));
        proof {
            let pre = entries@.subrange(0, i as int + 1);
            assert(pre.drop_last() =~= entries@.subrange(0, i as int));
        }
        i = i + 1;
    }
    assert(entries@.subrange(0, entries@.len() as int) =~= entries@);
}

/// Renders a theme's tokens as custom properties of `:root`.
pub fn generate_theme_css(theme: &Theme) -> (r: String)
    ensures
        r@ == theme_css(*theme),
{
    let mut css = String::from_str(":root {\n");
    push_vars(&mut css, "color-", &theme.colors);
    push_vars(&mut css, "font-", &theme.fonts);
    push_vars(&mut css, "radius-", &theme.radius);
    push_vars(&mut css, "breakpoint-", &theme.breakpoints);
    css.append("}\n");
    assert(css@ =~= theme_css(*theme));
    css
}

} // verus!
