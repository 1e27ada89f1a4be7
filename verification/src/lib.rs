//! A Wordle solver library: clue computation, clue parsing and candidate filtering.

pub mod clue;
pub mod text;
pub mod wordlist;
pub mod solver;
pub mod guess_set;
pub mod wordfile;
pub mod results;
pub mod report;
