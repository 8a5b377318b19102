//! A formatter for Miden assembly.
//!
//! [`format_code`] takes the text of a file and gives the text in canonical
//! form: each line indented by four spaces for each block that is open
//! around it, the imports at the head of the file sorted, runs of blank lines
//! cut down to one line, and exactly one line feed at the end. The content
//! of the lines is left as it is.
//!
//! The work is done in three steps, each a module of its own: [`imports`]
//! reads the leading lines and sorts the imports, [`indent`] is the machine
//! that indents the body, and [`blank_lines`] is the pass that normalizes
//! blank lines. [`line`] tells the kinds of lines apart, [`text`] and
//! [`order`] hold what they need of characters and of the order of lines,
//! and [`format`] puts the steps together.
//!
//! Every function is specified by a function on sequences of characters and
//! proved against it. What holds of the formatted text is proved from these
//! specifications: [`format`] shows how the text ends, [`spacing`] where blank
//! lines are left and where they are removed, [`content`] that no content is
//! lost, and [`fixed_point`] and [`attachment`] for which texts formatting
//! twice gives what formatting once gives.

pub mod attachment;
pub mod blank_lines;
pub mod content;
pub mod fixed_point;
pub mod format;
pub mod imports;
pub mod indent;
pub mod line;
pub mod order;
pub mod spacing;
pub mod text;

pub use crate::format::format_code;
