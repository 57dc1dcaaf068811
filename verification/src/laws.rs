//! What holds of the library as a whole, beyond the contract of any one
//! function.

pub mod assigning;
pub mod calling;
pub mod context;
pub mod declaring;
pub mod lexing;
pub mod parsing;
pub mod raising;
pub mod requoting;
pub mod rewriting;
pub mod scanning;
pub mod searching;
pub mod selecting;
pub mod splicing;
pub mod wording;
