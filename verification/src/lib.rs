//! A verified parser and query layer for Linux-style per-process memory-map
//! reports (the `smaps` format): an address-annotated, multi-record text
//! report is parsed into a sequence of memory regions, each carrying a
//! half-open byte range and a map of named kilobyte statistics, and the
//! parsed structure can be queried for the statistic whose region contains
//! a given address.

pub mod grammar;
pub mod query;
pub mod report;
pub mod scan;
pub mod stats;
