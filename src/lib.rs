pub mod accumulator;
pub mod bulk;
pub mod canonical;
pub mod error;
pub mod scan;
pub mod tally;
