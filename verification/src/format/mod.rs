//! Markdown to Telegram HTML conversion and text chunking.
//!
//! Telegram supports a limited HTML subset: `<b>`, `<i>`, `<code>`, `<pre>`,
//! `<a href="...">`. The modules here turn markdown into that subset and cut the result
//! into messages that Telegram accepts.
pub mod boundary;
pub mod chunks;
pub mod code;
pub mod cutting;
pub mod escape;
pub mod laws;
pub mod markdown;
pub mod marks;
pub mod patterns;
pub mod stages;
pub mod subset;
pub mod tags;

pub use boundary::{find_safe_html_boundary, find_split_point};
pub use chunks::{chunk_html, truncate_for_edit};
pub use escape::{html_escape, html_unescape};
pub use markdown::md_to_telegram_html;
pub use tags::close_open_tags;
