//! Ranking the most frequent URLs of a large data set by a map / reduce
//! pipeline: mappers count URLs in blocks of text, reducers merge the
//! counts of the keys in their share into a bounded top list, and a ranker
//! merges the reducers' lists by frequency.

pub mod mul_thread;
pub mod ranker;
pub mod reader;
pub mod record;
pub mod text;

pub use ranker::map_f;
pub use ranker::reduce_f;
