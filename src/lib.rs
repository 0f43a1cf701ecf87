//! Enumeration of word rectangles: grids of letters whose rows and columns
//! are all words of a dictionary.
pub mod charset;
pub mod codec;
pub mod words;
pub mod index;
pub mod search;
pub mod laws;
pub mod text;
pub mod stream;
