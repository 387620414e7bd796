//! Detection webs of ZX diagrams.
//!
//! The crate has three layers.
//!
//! The mathematics: `gf2` defines vectors and matrices over the field with
//! two elements as sequences of booleans, with row operations, echelon
//! forms, pivot columns and rank. `elimination` says which row operations
//! Gaussian elimination performs. `gf2_lemmas`, `echelon` and `products`
//! prove what the executable code needs of them, and `algebra` the laws of
//! the arithmetic and of the nullspace.
//!
//! The matrices: `f2linalg` is a matrix type with one field element per
//! cell, `bitwisef2linalg` one with each row packed into a bit vector of
//! the `bitvec` crate, which `bits` wraps. Both state their contracts over
//! the model of `gf2`.
//!
//! The graphs: `zx` wraps the graphs of the `quizx` crate. `make_rg`
//! rewrites a graph into red-green form, and `detection_webs` reads the
//! detection webs of a graph, as the `PauliWeb`s of `pauliweb`, off the
//! nullspace of a matrix built from it.

pub mod algebra;
pub mod bits;
pub mod bitwisef2linalg;
pub mod detection_webs;
pub mod echelon;
pub mod elimination;
pub mod f2linalg;
pub mod gf2;
pub mod gf2_lemmas;
pub mod make_rg;
pub mod pauliweb;
pub mod pivots;
pub mod products;
pub mod slices;
pub mod sorting;
pub mod zx;
