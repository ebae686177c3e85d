//! What the shell and its driver say to each other.

use crate::clock::Instant;
use crate::machine::{Delivery, ForExpressionView, ReplyView, RequestView};
use crate::statement::{optional_text, statements_view, Statement};
use crate::text::texts;
use vstd::prelude::*;

verus! {

/// What the words of a `for` loop expand to.
#[derive(Debug, PartialEq, Eq)]
pub enum ForExpression {
    /// An explicit list of strings.
    Multiple(Vec<String>),
    /// One string, which is gone through line by line.
    Normal(String),
    /// The integers from the first up to, but without, the second.
    Range(i64, i64),
}

impl View for ForExpression {
    type V = ForExpressionView;

    open spec fn view(&self) -> ForExpressionView {
        match self {
            ForExpression::Multiple(list) => ForExpressionView::Multiple(texts(list@)),
            ForExpression::Normal(text) => ForExpressionView::Normal(text@),
            ForExpression::Range(start, end) => ForExpressionView::Range(*start, *end),
        }
    }
}

/// What the shell asks of its driver.
#[derive(Debug, PartialEq, Eq)]
pub enum Request {
    /// The command line is done; the shell is idle.
    Finished,
    /// Nothing: step again.
    Proceed,
    /// End the process with the status.
    Exit(i32),
    /// Take the next pending signal, if there is one, and handle it.
    PollSignal,
    /// Evaluate the assignment and perform it.
    Assign { export: bool, action: String },
    /// Run the pipeline and record its status in the shell.
    RunPipeline(String),
    /// Expand the words of a `for` loop.
    ExpandFor(Vec<String>),
    /// Expand the subject of a `match`, and say whether it is an array.
    ExpandSubject(String),
    /// Expand the patterns of a case into one list.
    ExpandPatterns(Vec<String>),
    /// Parse the command line into complete statements.
    Parse(String),
    /// Print the diagnostic to the error stream and reset the parser.
    Report(String),
    /// Read the monotonic clock.
    ReadClock,
    /// Print the line to standard output.
    Print(String),
}

impl View for Request {
    type V = RequestView;

    open spec fn view(&self) -> RequestView {
        match self {
            Request::Finished => RequestView::Finished,
            Request::Proceed => RequestView::Proceed,
            Request::Exit(code) => RequestView::Exit(*code),
            Request::PollSignal => RequestView::PollSignal,
            Request::Assign { export, action } => RequestView::Assign {
                export: *export,
                action: action@,
            },
            Request::RunPipeline(pipeline) => RequestView::RunPipeline(pipeline@),
            Request::ExpandFor(values) => RequestView::ExpandFor(texts(values@)),
            Request::ExpandSubject(expression) => RequestView::ExpandSubject(expression@),
            Request::ExpandPatterns(patterns) => RequestView::ExpandPatterns(texts(patterns@)),
            Request::Parse(line) => RequestView::Parse(line@),
            Request::Report(message) => RequestView::Report(message@),
            Request::ReadClock => RequestView::ReadClock,
            Request::Print(line) => RequestView::Print(line@),
        }
    }
}

impl Request {
    /// Whether nothing is asked but to step again.
    pub fn is_proceed(&self) -> (yes: bool)
        ensures
            yes == (self@ is Proceed),
    {
        match self {
            Request::Proceed => true,
            _ => false,
        }
    }
}

/// What the driver answers.
#[derive(Debug, PartialEq, Eq)]
pub enum Reply {
    /// The work is done and has no result.
    Proceed,
    /// The signal that was pending.
    Signal(Option<Delivery>),
    /// The status of the assignment.
    Status(i32),
    /// What running the pipeline returned: its status, or nothing where
    /// the pipeline could not be run.
    Pipeline(Option<i32>),
    /// What the words of a `for` loop expand to.
    Values(ForExpression),
    /// What the subject of a `match` expands to.
    Subject { is_array: bool, values: Vec<String> },
    /// What the patterns of a case expand to.
    Expanded(Vec<String>),
    /// The complete statements of a command line, and the diagnostic of the
    /// error that ended the parsing, if one did.
    Parsed { statements: Vec<Statement>, diagnostic: Option<String> },
    /// A reading of the clock.
    Clock(Instant),
}

impl View for Reply {
    type V = ReplyView;

    open spec fn view(&self) -> ReplyView {
        match self {
            Reply::Proceed => ReplyView::Proceed,
            Reply::Signal(signal) => ReplyView::Signal(*signal),
            Reply::Status(status) => ReplyView::Status(*status),
            Reply::Pipeline(returned) => ReplyView::Pipeline(*returned),
            Reply::Values(values) => ReplyView::Values(values@),
            Reply::Subject { is_array, values } => ReplyView::Subject {
                is_array: *is_array,
                values: texts(values@),
            },
            Reply::Expanded(values) => ReplyView::Expanded(texts(values@)),
            Reply::Parsed { statements, diagnostic } => ReplyView::Parsed {
                statements: statements_view(statements@),
                diagnostic: optional_text(*diagnostic),
            },
            Reply::Clock(now) => ReplyView::Clock(*now),
        }
    }
}

} // verus!
