//! Flattens a network of interlinked notes into one plaintext document.
//!
//! A note has a header of named fields and a body. The body is a
//! [`Hyperstring`]: literal text interleaved with links (`[[name]]`,
//! rendered as the title of the note they name) and transclusions
//! (`![[name]]`, rendered as the whole body of the note they name).
//!
//! A run goes through these steps:
//!
//! 1. [`Crawl`] finds every note that the root refers to, directly or
//!    through other notes. The caller reads the notes; [`parse_page`] turns
//!    each text into a header and a body.
//! 2. [`cyclic_transclusion_check`] makes sure that no note transcludes
//!    itself, directly or through other notes.
//! 3. [`linearize`] walks the links from the root and so decides which
//!    notes become entries of the output, and in which order.
//! 4. [`Hyperstring::to_plaintext`] renders each entry, and
//!    [`hyperstrings_to_string`] joins them.
//!
//! [`Vault::flatten`] runs steps 2 to 4 on the outcome of step 1.
//!
//! Searching text for patterns, sorting a graph and reading the header
//! block are left to the crates `regex`, `petgraph` and `gray_matter`. The
//! modules [`pattern`], [`graph`] and [`frontmatter`] hold the calls and
//! say what is taken on trust about them.

pub mod crawl;
pub mod error;
pub mod frontmatter;
pub mod graph;
pub mod linearize;
pub mod metadata;
pub mod page;
pub mod parse;
pub mod pattern;
pub mod render;
pub mod segment;
pub mod text;
pub mod transclusion;
pub mod vault;

pub use crawl::{Crawl, CrawlStep};
pub use error::Error;
pub use frontmatter::{header_from, parse_frontmatter, parse_page};
pub use linearize::{linearize, transform};
pub use metadata::{Metadata, MetadataValue};
pub use page::{Page, PageMap};
pub use parse::{parse_hyperstring, strip_dataview_block};
pub use pattern::Capture;
pub use render::{hyperstrings_to_string, link_title_or_name};
pub use segment::{Hyperstring, HyperstringSegment, SegmentView};
pub use transclusion::cyclic_transclusion_check;
pub use vault::Vault;
