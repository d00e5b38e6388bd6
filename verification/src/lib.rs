//! Human-readable rendering of dynamically typed values.
//!
//! [`repr::repr`] turns a [`value::Value`] into text: nil, booleans and
//! numbers as literals, a string between quotes with its control bytes made
//! visible, a table between braces with one entry on each line, the entries
//! in the order of the texts of their keys. [`print::print_line`] gives what
//! printing a list of values writes.
//!
//! Every function states its result over the models in [`value`],
//! [`escape`], [`order`] and [`repr`], and is proved against it. What holds
//! of every rendering is proved in [`laws`], [`strings`] and [`valid`].
//!
//! [`box_drawing`] stands apart: it looks up box-drawing characters.

pub mod value;
pub mod bytes;
pub mod decimal;
pub mod escape;
pub mod strings;
pub mod names;
pub mod order;
pub mod sort;
pub mod repr;
pub mod valid;
pub mod laws;
pub mod print;
pub mod box_drawing;
