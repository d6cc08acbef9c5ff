//! Rolling-window anomaly statistics over grouped tabular logs.
//!
//! A [`table::Table`] is an ordered list of named, typed columns of equal
//! length; [`merge`] stacks the tables of several sources into one, in the
//! order of the list. The engine partitions the rows of a table by the
//! values of its key columns and gives every row the trailing window of its
//! partition ([`window`], [`partition`]). Of each window it derives exact
//! integer moments ([`stats`]), from which the rolling mean, the rolling
//! standard deviation, the z-score and the anomaly flag follow. What holds
//! of windows and moments whatever the table is proved in [`laws`].
pub mod error;
pub mod table;
pub mod merge;
pub mod wide;
pub mod window;
pub mod partition;
pub mod stats;
pub mod laws;
