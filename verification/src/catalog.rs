//! An entry of the download catalog.
use vstd::prelude::*;

verus! {

/// A piece that the catalog offers: who wrote it, its title, the page it comes
/// from, and where it goes below the library directory.
#[derive(Debug, Clone, PartialEq, Eq)]
pub struct CatalogEntry {
    pub composer: String,
    pub title: String,
    pub source_page: String,
    pub target_path: String,
}

} // verus!
