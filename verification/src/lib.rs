//! Aggregation of weather-station measurements given as lines of the form
//! `<station>;<temperature>`: temperature parsing, splitting a file into
//! line-aligned chunks, an open-addressing statistics table keyed by station
//! name, and merging of per-chunk results.

pub mod temperature;
pub mod probe;
pub mod words;
pub mod table;
pub mod slots;
pub mod lines;
pub mod process;
pub mod aggregate;
pub mod chunk;
pub mod merge;
pub mod sorted;
pub mod order;
pub mod fnv;
pub mod offset_table;
pub mod args;
pub mod stations;
pub mod summary;
