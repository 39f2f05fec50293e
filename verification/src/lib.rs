//! Builds validated, sorted product-link records out of a sectioned
//! configuration document: every section must be named and non-empty, and every
//! value must parse as a URL; the records come back sorted by name.
pub mod document;
pub mod order;
pub mod records;
pub mod url_check;

pub use document::Section;
pub use order::name_le;
pub use records::{ini_to_links, Link, LinkError};
pub use url_check::is_valid_url;
