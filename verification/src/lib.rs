//! Resolves a website's sitemap tree: starting from one root sitemap URL, it
//! discovers all leaf page URLs by recursively following nested sitemap-index
//! references.
//!
//! The verified core works on plain bytes: an XML `<loc>` extractor, a
//! classifier that tells nested sitemaps from page URLs, and the frontier
//! controller that drives the breadth-first traversal. Fetching documents and
//! writing the output file are left to the (unverified) caller.

use vstd::prelude::*;

pub mod classify;
pub mod extract;
pub mod output;
pub mod traversal;

verus! {

/// The mathematical views of a vector of byte strings.
pub open spec fn views_of(vs: Seq<Vec<u8>>) -> Seq<Seq<u8>> {
    vs.map_values(|v: Vec<u8>| v@)
}

/// The byte sequence of the literal suffix `.xml`.
pub open spec fn xml_suffix() -> Seq<u8> {
    seq![46u8, 120u8, 109u8, 108u8]
}

/// A location string names a nested sitemap exactly when it ends with `.xml`.
pub open spec fn is_sitemap_ref(s: Seq<u8>) -> bool {
    s.len() >= 4 && s.subrange(s.len() - 4, s.len() as int) == xml_suffix()
}

} // verus!
