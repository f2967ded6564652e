//! Enumeration of 5×5 word squares: every row and every column of a
//! completed grid is a dictionary word.

pub mod words;
pub mod squares;
mod lfu;
pub mod dict;
pub mod appstate;
pub mod search;
