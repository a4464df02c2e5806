//! Currency-arbitrage detection.
//!
//! Exchange rates come in as batches of `FROM/TO/RATE` triples. Each rate
//! becomes two edges of a directed graph over the currencies, one for each
//! direction, weighted so that a chain of conversions that returns more than
//! was spent is a cycle of negative weight. After each batch a search from
//! every currency looks for such a cycle, and every cycle found is handed out
//! together with the rates along it.
//!
//! The arithmetic of this crate is integer arithmetic. A rate is carried as
//! the bit pattern of a 64-bit binary floating-point number, and a path
//! weight as a signed fixed-point number in a unit of the caller's choice.
//! Turning a rate into a weight takes a logarithm, and a cycle's conversion
//! factor is a product of rates: both are the caller's to compute.
//!
//! - [`store`]: the graph store, that is currency ids and edges.
//! - [`parse`]: reading a batch of triples.
//! - [`detect`]: the search for a negative cycle from one source.
//! - [`cycle`]: closing a detected path at its source, and its rates.
//! - [`engine`]: taking in a batch and sweeping the graph.
//! - [`report`]: the lines that go out.
//! - [`theory`], [`walks`]: what the search is proved to find.
//! - [`scan`], [`text`]: searching sequences, cutting and joining text.
//! - [`backend`]: the graph container underneath the store.

pub mod backend;
pub mod cycle;
pub mod detect;
pub mod engine;
pub mod parse;
pub mod report;
pub mod scan;
pub mod store;
pub mod text;
pub mod theory;
pub mod walks;
