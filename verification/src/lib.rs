//! Runikraft: the data structures and rules of a small unikernel, with
//! their behaviour stated and proved.

pub mod bitcount;
pub mod blkdev;
pub mod blkfront;
pub mod chain;
pub mod compat_list;
pub mod cursor;
pub mod rklist;
pub mod list;
pub mod align_as;
pub mod entry_list;
pub mod errno;
pub mod sudoku;
pub mod sudoku_input;
pub mod rkinput;
pub mod sudoku_draw;
pub mod rklock;
pub mod buddy;
pub mod gpu;
pub mod mbox;
pub mod mpi;
pub mod netdev;
pub mod argparse;
pub mod param;
pub mod rkalloc;
pub mod time;
