//! Semantic-CMS transreptors: org-mode bookmarks become one RDF graph in
//! Turtle, each bookmark a skolemized resource carrying its URL as
//! `dc:identifier`, a `dc:title` and a `dc:subject` per tag.
pub mod text;
pub mod org;
pub mod turtle;
pub mod bookmarks;
pub mod laws;

pub use bookmarks::bookmarks_to_turtle;
pub use org::{collapse_ws, heading_link, opens_unclosed_link, tag_line};
pub use turtle::{emit, skolem, ttl_str, Bookmark};
