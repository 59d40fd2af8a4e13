//! Pieces of the benchmark observer that decide rather than move data:
//! which identifiers may name files, how level references sort, and what a
//! run's summary says of it.

pub mod gateway;
pub mod index;
pub mod native;
pub mod publish;
pub mod replay;
pub mod run;
pub mod storage;
