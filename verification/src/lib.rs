//! Two Sets: split the numbers 1 to n into two sets of equal sum, with the
//! byte-level scanner and writer that read the input and render the answer.
pub mod text;
pub mod scanner;
pub mod split;
pub mod block_stride;
pub mod greedy;
pub mod writer;
pub mod answer;

pub use scanner::FastScanner;
pub use writer::FastWriter;
pub use block_stride::solve_block_stride;
pub use greedy::solve_greedy_vector;
pub use answer::write_answer;
