//! A table-of-contents library: builds a rooted tree from the flat, ordered
//! sequence of `(level, title)` headings of a document and renders it as an
//! indented, box-drawn outline.
//!
//! Three parts, in dependency order: [`tree`] is an ordered, parent-linked
//! tree kept in an arena of integer handles; [`builder`] turns a heading
//! list and a base level into one such tree in a single forward pass,
//! bridging level gaps with placeholder nodes; [`render`] walks the tree in
//! preorder and produces the outline text. [`laws`] states and proves what
//! holds across these parts: size accounting, depth and height
//! decomposition, the render round trip, and determinism of rendering.

pub mod builder;
pub mod laws;
pub mod render;
pub mod tree;

pub use builder::StructureError;
pub use builder::construct;
pub use render::pretty_print;
pub use render::preorder;
pub use tree::GenTree;
pub use tree::Heading;
pub use tree::Node;
pub use tree::Pos;
