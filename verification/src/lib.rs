//! Bidirectional maps: containers of pairs `(L, R)` in which every left value
//! and every right value occurs at most once, searchable from either side.
//!
//! There are two variants. [`BiHashMap`] keeps its two indexes in hash
//! tables and hands its pairs out in no particular order; [`BiBTreeMap`]
//! keeps them in ordered trees and hands its pairs out in ascending order of
//! their left values. Inserting a pair never fails: pairs that hold one of
//! its values are removed first, and [`Overwritten`] says what they held.
//!
//! Both variants are described by one mathematical model, [`Pairing`]: the
//! view of a bimap is the pairing it stands for, and every operation states
//! its result and its effect on that view. That a bimap's two indexes have
//! the same size and mirror each other is a type invariant, so it holds of
//! every bimap at every moment. What follows from it, and what holds of the
//! operations taken together, is proved in [`laws`].

pub mod btree;
pub mod hash;
pub mod keys;
pub mod laws;
pub mod order;
pub mod overwritten;
pub mod pairing;

pub use btree::BiBTreeMap;
pub use hash::BiHashMap;
pub use overwritten::Overwritten;
pub use pairing::Pairing;
