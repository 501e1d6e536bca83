//! A sparse, directed, weighted graph of stars, and the cost of travelling
//! through it.
//!
//! Stars are named points, each identified by its coordinate. A [`Space`] owns
//! the stars, lets the caller join two of them by a one-way weighted link, and
//! answers what the cheapest journey from one star to another costs.
//!
//! Weights are whole numbers of the caller's unit (`i64`): a caller who
//! measures in fractions picks a smaller unit. The cost of a journey is
//! returned as an `i128`, which every sum of weights along a journey fits.
//!
//! The modules:
//! - [`star`]: coordinates, links and stars;
//! - [`error`]: why a request was refused;
//! - [`space`]: the registry, with insertion, linking and the distance query;
//! - [`chart`]: a space as a mathematical map, and what insertion and linking
//!   do to it;
//! - [`route`]: what a journey costs, and what a distance query is answered;
//! - [`trail`]: the cost as the least weight of a journey written out link by
//!   link, and what follows for stars that no links join;
//! - [`walk`]: which stars are joined by links, and charts without circles;
//! - [`acyclic`]: the plain rule that the cost obeys on charts without circles;
//! - [`chain`]: the distance along stars linked in a row.

pub mod acyclic;
pub mod chain;
pub mod chart;
pub mod error;
pub mod route;
pub mod space;
pub mod star;
pub mod trail;
pub mod walk;

pub use error::SpaceError;
pub use space::Space;
pub use star::{Coord, Link, Star, StarView};
