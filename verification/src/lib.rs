//! Merging of document object graphs: renumbering object identifiers into
//! disjoint ranges, classifying objects by role, folding the page trees and
//! catalogs of several documents into one, and synthesizing an outline.

pub mod model;
pub mod graph;
pub mod merge;
pub mod outline;
pub mod codec;
