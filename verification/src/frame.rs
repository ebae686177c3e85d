//! The constructs that are under way, as the shell holds them.

use crate::clock::Instant;
use crate::condition::Condition;
use crate::machine::{
    CommandStage, ControlView, ForIterView, FrameView, MatchStage, TimeView, Wrapper,
};
use crate::statement::{
    cases_view, else_ifs_view, optional_text, statements_view, Case, ElseIf, Statement,
};
use crate::text::texts;
use crate::variables::Value;
use vstd::prelude::*;

verus! {

/// How far a `time` statement has come.
pub enum TimeStage {
    Starting(Statement),
    Running(Instant),
    Stopping(Instant, Condition),
    Printing(Condition),
}

impl View for TimeStage {
    type V = TimeView;

    open spec fn view(&self) -> TimeView {
        match self {
            TimeStage::Starting(statement) => TimeView::Starting(statement@),
            TimeStage::Running(start) => TimeView::Running(*start),
            TimeStage::Stopping(start, condition) => TimeView::Stopping(*start, *condition),
            TimeStage::Printing(condition) => TimeView::Printing(*condition),
        }
    }
}

/// The values that a `for` loop has still to go through.
pub enum ForIter {
    Waiting,
    Items(Vec<String>),
    Range(i64, i64),
}

impl View for ForIter {
    type V = ForIterView;

    open spec fn view(&self) -> ForIterView {
        match self {
            ForIter::Waiting => ForIterView::Waiting,
            ForIter::Items(items) => ForIterView::Items(texts(items@)),
            ForIter::Range(next, end) => ForIterView::Range(*next, *end),
        }
    }
}

/// One construct that is under way.
#[allow(inconsistent_fields)]
pub enum Frame {
    Command { rest: Vec<Statement>, diagnostic: Option<String>, stage: CommandStage },
    Block { rest: Vec<Statement> },
    Probe,
    Assign,
    Pipeline,
    After(Wrapper),
    Time(TimeStage),
    If { success: Vec<Statement>, else_if: Vec<ElseIf>, failure: Vec<Statement> },
    While { expression: String, statements: Vec<Statement> },
    For { variable: String, statements: Vec<Statement>, iter: ForIter },
    Match {
        is_array: bool,
        subject: Vec<String>,
        cases: Vec<Case>,
        stage: MatchStage,
        saved: Option<Value>,
    },
}

/// What an optional value is.
pub open spec fn optional_value(value: Option<Value>) -> Option<crate::variables::ValueView> {
    match value {
        Some(value) => Some(value@),
        None => None,
    }
}

impl View for Frame {
    type V = FrameView;

    open spec fn view(&self) -> FrameView {
        match self {
            Frame::Command { rest, diagnostic, stage } => FrameView::Command {
                rest: statements_view(rest@),
                diagnostic: optional_text(*diagnostic),
                stage: *stage,
            },
            Frame::Block { rest } => FrameView::Block { rest: statements_view(rest@) },
            Frame::Probe => FrameView::Probe,
            Frame::Assign => FrameView::Assign,
            Frame::Pipeline => FrameView::Pipeline,
            Frame::After(wrapper) => FrameView::After(*wrapper),
            Frame::Time(stage) => FrameView::Time(stage@),
            Frame::If { success, else_if, failure } => FrameView::If {
                success: statements_view(success@),
                else_if: else_ifs_view(else_if@),
                failure: statements_view(failure@),
            },
            Frame::While { expression, statements } => FrameView::While {
                expression: expression@,
                statements: statements_view(statements@),
            },
            Frame::For { variable, statements, iter } => FrameView::For {
                variable: variable@,
                statements: statements_view(statements@),
                iter: iter@,
            },
            Frame::Match { is_array, subject, cases, stage, saved } => FrameView::Match {
                is_array: *is_array,
                subject: texts(subject@),
                cases: cases_view(cases@),
                stage: *stage,
                saved: optional_value(*saved),
            },
        }
    }
}

/// What a stack of frames is.
pub open spec fn frames_view(stack: Seq<Frame>) -> Seq<FrameView> {
    stack.map_values(|frame: Frame| frame@)
}

/// What the shell does next.
pub enum Control {
    Idle,
    Run(Statement),
    Deliver(Condition),
    Wait,
    Halted(i32),
}

impl View for Control {
    type V = ControlView;

    open spec fn view(&self) -> ControlView {
        match self {
            Control::Idle => ControlView::Idle,
            Control::Run(statement) => ControlView::Run(statement@),
            Control::Deliver(condition) => ControlView::Deliver(*condition),
            Control::Wait => ControlView::Wait,
            Control::Halted(code) => ControlView::Halted(*code),
        }
    }
}

} // verus!
