//! Reads data out of annotated HTML and writes data back into it.
//!
//! Elements carry `rmx-name` (the key) and `rmx-type` (`text`, the default;
//! `image`; `attr:NAME`; `list`); custom elements carry `data-rmx`. Extraction
//! gives the JSON object those annotations mark; rendering fills a template's
//! annotated places from such an object.
pub mod dom;
pub mod extract;
pub mod json;
pub mod render;
pub mod sections;
pub mod text;

pub use extract::extract_data;
pub use render::render_data;
