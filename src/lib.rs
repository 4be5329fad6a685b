//! Rewrites the `id` of every SVG element that carries an editor label
//! (`inkscape:label`) so that it equals that label.

pub mod attrs;
pub mod text;
mod xml;
pub mod document;
