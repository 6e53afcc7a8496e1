//! Sites of pages: where pages are, how a site's directories are walked, and how text is
//! rendered into the formats a page is written in.
pub mod block;
pub mod location;
pub mod render;
pub mod section;
pub mod site;
pub mod text_format;
