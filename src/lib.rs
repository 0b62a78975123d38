//! Arithmetic edits of the cell parameters of crystallographic structure files.
//!
//! The library parses a small instruction language, applies the instructions
//! to the textual values of known fields with exact decimal arithmetic, and
//! rewrites the lines of a file while keeping their column alignment.

pub mod arguments;
pub mod decimal;
pub mod instructions;
pub mod keywords;
pub mod paths;
pub mod rewrite;
pub mod text;
pub mod utilities;

pub use arguments::Args;
pub use decimal::Decimal;
pub use instructions::{ApplyError, Instruction, Instructions, Operator};
pub use keywords::FIELD_COUNT;
pub use rewrite::{apply_instructions_to_lines, rewrite_line};
pub use utilities::precision_of_value;
pub use utilities::remove_uncertainty_digits;
pub use utilities::whitespace_between_two_values;
pub use utilities::RemoveUncertaintyDigits;
