//! A small browser engine: HTML and CSS parsing, style resolution, the
//! decisions behind drawing a page and the blending of its pixels, together
//! with the bookkeeping of a tabbed browser window and the reading of what is
//! typed into its address bar.

pub mod chars;
pub mod cursor;
pub mod strmap;
pub mod display_list;
pub mod dom;
pub mod html;
pub mod css;
pub mod style;
pub mod render;
pub mod pixels;
pub mod fonts;
pub mod url;
pub mod tabs;

