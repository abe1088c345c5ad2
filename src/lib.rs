//! WebCore: compiles component, page and layout sources into HTML, a
//! reactive JavaScript runtime and theme CSS.
pub mod ast;
pub mod text;
pub mod html;
pub mod parser;
pub mod js;
pub mod theme;
pub mod css;
pub mod css_processor;
pub mod site;
