//! Replaces placeholders of the form `${KEY}` in text with the values of a
//! variable table. A run of two or more dollar signs before `{` is an escape:
//! it loses one dollar sign, and the text after it stands as it is.
//!
//! - [`syntax`] is the mathematical model: what the tokens of a text are and
//!   what each of them turns into.
//! - [`lemmas`] says how token sequences compose, and [`laws`] what holds of
//!   the model for every text and every table.
//! - [`table`] holds the variables.
//! - [`replacer`] scans a text once and is proved against the model.
//! - [`key_value`] reads `KEY=VALUE` pairs, one by one and from the lines of
//!   a file.
//! - [`tools`] holds the quoting helpers and the merging of variables with an
//!   environment.
//! - [`strings`] states what is taken on trust of `String`.

pub mod syntax;
pub mod lemmas;
pub mod laws;
pub mod strings;
pub mod table;
pub mod key_value;
pub mod tools;
pub mod replacer;
