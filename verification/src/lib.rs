//! Line, word, character, byte and display-width counting, in the manner of `wc`.

pub mod boundary;
pub mod model;
pub mod count;
pub mod reader;
pub mod report;
pub mod laws;
