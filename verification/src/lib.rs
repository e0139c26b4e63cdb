//! Keyset (seek-based) pagination for SQL queries.
//!
//! The crate models the two halves of a keyset paginator:
//!
//! * [`sql`] renders a paginated query — a wrapped base query, an order
//!   expression and a cursor specification — into one SQL statement with
//!   positional bind parameters, without `OFFSET`.
//! * [`page`] gives the meaning of such a statement over a modelled result
//!   set: the page of rows strictly after the anchor row in the order, and
//!   the proofs that repeated cursoring walks the whole result set in order
//!   with no row skipped or repeated.

pub mod keys;
pub mod page;
pub mod sql;
