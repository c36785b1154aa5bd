// Word frequencies of a byte buffer, counted partition by partition and merged: the buffer is
// cut into about N ranges that end on delimiter bytes, each range's words are counted into a
// sorted table, and the tables are merged with their counts summed.

pub mod delims;
pub mod job;
pub mod lex;
pub mod table;
pub mod words;

pub use delims::{isdelim, DelimSet};
pub use job::{Job, JobChunkIter};
pub use table::{merge, MergeSortIter, Table};
pub use words::count_words;
