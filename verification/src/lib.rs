//! The statement executor of a command shell, as a machine that is driven
//! from outside.
//!
//! A [`shell::Shell`] holds the interpreter's state: the last status, the
//! flags, the interrupt latch, the scoped variables and the control stack of
//! the statement in progress. It never runs a pipeline, expands a word,
//! reads a clock or polls for signals itself. [`shell::Shell::on_command`]
//! takes up a command line, and each call of [`shell::Shell::answer`] lets
//! the shell go on until it hands back a [`protocol::Request`] that names
//! the outside work to do next; the driver does that work and answers with
//! the matching [`protocol::Reply`]. [`shell::Shell::step`] makes the single
//! transitions that this is made of.
//!
//! Every transition is specified by the spec function [`machine::step`] over
//! the mathematical model [`machine::State`]. What a whole statement comes
//! to is said in [`semantics`], independently of how deep the executions
//! may nest ([`depth`]), and [`adequacy`] proves that the machine, step by
//! step, does just that. That the machine keeps its invariant is proved in
//! [`preservation`], that it cannot go on forever by itself in [`measure`];
//! what else holds of every execution is proved in [`laws`].

pub mod adequacy;
pub mod clock;
pub mod condition;
pub mod depth;
pub mod frame;
pub mod laws;
pub mod machine;
pub mod measure;
pub mod preservation;
pub mod protocol;
pub mod semantics;
pub mod shell;
pub mod statement;
pub mod text;
pub mod variables;
