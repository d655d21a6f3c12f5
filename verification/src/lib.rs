//! Finds every combination of five words, each five letters long with five
//! distinct letters, whose twenty-five letters are all different.
//!
//! The pipeline runs strictly downward: raw tokens become candidate letter
//! masks (`candidates`), the masks become a forward-edge disjointness graph
//! (`index`), the graph is searched exhaustively for 5-cliques (`search`),
//! and each found tuple is mapped back to concrete spellings
//! (`materialize`). The bit-packed letter set that all stages share lives in
//! `letterset`.

pub mod candidates;
pub mod index;
pub mod letterset;
pub mod materialize;
pub mod search;
