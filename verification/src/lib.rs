//! Phone numbers spelled in dictionary words.
//!
//! Every letter stands for one decimal digit. A phone number is spelled by
//! cutting its digits into pieces, each piece being either a dictionary word
//! whose letters map to exactly these digits, or a single digit left as it is
//! where no word could start.

pub mod keypad;
pub mod dictionary;
pub mod translate;
pub mod laws;
