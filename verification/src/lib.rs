//! Selection of pages from a page tree by the exercise number drawn on them.
//!
//! A document of exercises announces each exercise on its first page. This
//! library finds those announcements ([`scanner`]), follows them from page to
//! page ([`labels`]), takes the pages that a request does not select out of
//! the page tree ([`filter`]), checks that every requested exercise was found
//! ([`extractor`]), and reads requests and words responses ([`gateway`]).

pub mod decimal;
pub mod extractor;
pub mod filter;
pub mod gateway;
pub mod labels;
pub mod scanner;
pub mod tree;

pub use extractor::{Catalog, Document, ExerciseExtractor, ExtractError};
pub use gateway::has_duplicate_elements;
pub use tree::PageTreeNode;
