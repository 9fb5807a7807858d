//! A minimal time-based job scheduler: a sorted job store, a parser for
//! the two time-expression grammars, and the decisions of the scheduling
//! daemon, each stated as a contract over a mathematical model.

pub mod calendar;
pub mod timeline;
pub mod text;
pub mod stamp;
pub mod timeexpr;
pub mod jobs;
pub mod store;
pub mod daemon;
pub mod launch;
