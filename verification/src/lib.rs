//! Verified building blocks of a set of small systems programs: a grid
//! robot, a minesweeper annotator, a slug maker, a decoder of little-endian
//! records, sensor readings and their buffers, an in-memory file tree with
//! queries and the commands of its shell, an arithmetic puzzle, barriers, a
//! reactive cell network, the scheduler of a thread pool and the decisions
//! of a one-command-at-a-time terminal.
pub mod robot;
pub mod react;
pub mod text;
pub mod clock;
pub mod filesystem;
pub mod operations;
pub mod puzzle;
pub mod ring_buffer;
pub mod barrier;
pub mod sensor;
pub mod slug;
pub mod minesweeper;
pub mod records;
pub mod scheduler;
pub mod terminal;
pub mod shell;
