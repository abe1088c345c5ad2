//! Post-processing of generated CSS: minified or formatted for a fixed set
//! of browser targets.
use lightningcss::stylesheet::{ParserOptions, PrinterOptions, StyleSheet};
use lightningcss::targets::{Browsers, Targets};
use vstd::prelude::*;
use vstd::string::*;

verus! {

/// The Chrome version that processed CSS targets, 90.0.0, encoded as
/// lightningcss reads versions: `(major << 16) | (minor << 8) | patch`.
pub const CHROME_TARGET: u32 = 90 << 16;

/// The Firefox version that processed CSS targets, 88.0.0, encoded likewise.
pub const FIREFOX_TARGET: u32 = 88 << 16;

/// The Safari version that processed CSS targets, 14.0.0, encoded likewise.
pub const SAFARI_TARGET: u32 = 14 << 16;

/// The CSS that lightningcss prints for `css` with the given browser targets,
/// minified or not.
pub uninterp spec fn lightning_css(
    css: Seq<char>,
    minify: bool,
    chrome: u32,
    firefox: u32,
    safari: u32,
) -> Seq<char>;

/// Whether lightningcss parses and prints `css` with the given targets.
pub uninterp spec fn lightning_ok(css: Seq<char>, minify: bool, chrome: u32, firefox: u32, safari: u32) -> bool;

/// Whether, where it fails, lightningcss fails while parsing (else while printing).
pub uninterp spec fn lightning_parse_fails(
    css: Seq<char>,
    minify: bool,
    chrome: u32,
    firefox: u32,
    safari: u32,
) -> bool;

/// The text of lightningcss's error, where it fails.
pub uninterp spec fn lightning_error(
    css: Seq<char>,
    minify: bool,
    chrome: u32,
    firefox: u32,
    safari: u32,
) -> Seq<char>;

/// Which stage of lightningcss failed, with its message.
pub enum CssFailure {
    Parse(String),
    Print(String),
}

/// Relies on lightningcss's StyleSheet::parse and StyleSheet::to_css: whether
/// they succeed, the printed code and the error's text depend on the source,
/// the targets and `minify` alone.
#[verifier::external_body]
fn lightning_process(css: &str, minify: bool, chrome: u32, firefox: u32, safari: u32) -> (r: Result<
    String,
    CssFailure,
>)
    ensures
        r is Ok <==> lightning_ok(css@, minify, chrome, firefox, safari),
        r matches Ok(out) ==> out@ == lightning_css(css@, minify, chrome, firefox, safari),
        r matches Err(f) ==> (f is Parse <==> lightning_parse_fails(
            css@,
            minify,
            chrome,
            firefox,
            safari,
        )) && failure_text(f) == lightning_error(css@, minify, chrome, firefox, safari),
{
    let browsers = Browsers { chrome: Some(chrome), firefox: Some(firefox), safari: Some(safari), ..Browsers::default() };
    let targets = Targets { browsers: Some(browsers), ..Targets::default() };
    let sheet = match StyleSheet::parse(css, ParserOptions::default()) {
        Ok(sheet) => sheet,
        Err(e) => return Err(CssFailure::Parse(e.to_string())),
    };
    match sheet.to_css(PrinterOptions { minify, targets, ..PrinterOptions::default() }) {
        Ok(out) => Ok(out.code),
        Err(e) => Err(CssFailure::Print(e.to_string())),
    }
}

/// The CSS that processing `css` yields, for the library's browser targets.
pub open spec fn processed_css(css: Seq<char>, minify: bool) -> Seq<char> {
    lightning_css(css, minify, CHROME_TARGET, FIREFOX_TARGET, SAFARI_TARGET)
}

/// The text that lightningcss gave for a failure.
pub open spec fn failure_text(f: CssFailure) -> Seq<char> {
    match f {
        CssFailure::Parse(m) => m@,
        CssFailure::Print(m) => m@,
    }
}

/// Processing `css` succeeds, for the library's browser targets.
pub open spec fn processes(css: Seq<char>, minify: bool) -> bool {
    lightning_ok(css, minify, CHROME_TARGET, FIREFOX_TARGET, SAFARI_TARGET)
}

/// The message of a failed processing of `css`.
pub open spec fn processing_error(css: Seq<char>, minify: bool) -> Seq<char> {
    (if lightning_parse_fails(css, minify, CHROME_TARGET, FIREFOX_TARGET, SAFARI_TARGET) {
        "Failed to parse CSS: "@
    } else {
        "Failed to generate CSS: "@
    }) + lightning_error(css, minify, CHROME_TARGET, FIREFOX_TARGET, SAFARI_TARGET)
}

/// The message of a failed processing stage.
pub open spec fn failure_message(f: CssFailure) -> Seq<char> {
    match f {
        CssFailure::Parse(m) => "Failed to parse CSS: "@ + m@,
        CssFailure::Print(m) => "Failed to generate CSS: "@ + m@,
    }
}

/// Turns a processing failure into its message.
pub fn describe_failure(f: CssFailure) -> (r: String)
    ensures
        r@ == failure_message(f),
{
    match f {
        CssFailure::Parse(m) => {
            let mut r = String::from_str("Failed to parse CSS: ");
            r.append(m.as_str());
            r
        },
        CssFailure::Print(m) => {
            let mut r = String::from_str("Failed to generate CSS: ");
            r.append(m.as_str());
            r
        },
    }
}

/// Parses `css` and prints it back, minified or formatted, for the library's
/// browser targets.
pub fn process_css(css: &str, minify: bool) -> (r: Result<String, String>)
    ensures
        r is Ok <==> processes(css@, minify),
        r matches Ok(out) ==> out@ == processed_css(css@, minify),
        r matches Err(m) ==> m@ == processing_error(css@, minify),
{
    match lightning_process(css, minify, CHROME_TARGET, FIREFOX_TARGET, SAFARI_TARGET) {
        Ok(out) => Ok(out),
        Err(f) => {
            let m = describe_failure(f);
            Err(m)
        },
    }
}

/// Processes `css` into its minified form.
pub fn minify_css(css: &str) -> (r: Result<String, String>)
    ensures
        r is Ok <==> processes(css@, true),
        r matches Ok(out) ==> out@ == processed_css(css@, true),
        r matches Err(m) ==> m@ == processing_error(css@, true),
{
    process_css(css, true)
}

/// Processes `css` into its formatted, unminified form.
pub fn format_css(css: &str) -> (r: Result<String, String>)
    ensures
        r is Ok <==> processes(css@, false),
        r matches Ok(out) ==> out@ == processed_css(css@, false),
        r matches Err(m) ==> m@ == processing_error(css@, false),
{
    process_css(css, false)
}

} // verus!
