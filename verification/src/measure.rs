//! How much the machine can do by itself.
//!
//! The machine does not run forever between two requests to its driver:
//! every transition that asks nothing of the driver lowers the measure
//! defined here.

use crate::condition::Condition;
use crate::machine::{
    step, CommandStage, ControlView, ForIterView, FrameView, MatchStage, ReplyView, RequestView,
    State, TimeView,
};
use crate::statement::{CaseView, ElseIfView, StatementView};
use vstd::prelude::*;

verus! {

/// A bound on the transitions that a statement takes before the driver is
/// asked or the statement has yielded.
pub open spec fn weight(statement: StatementView) -> nat
    decreases statement, 0nat,
{
    match statement {
        StatementView::And(inner) => 2 + weight(*inner),
        StatementView::Or(inner) => 2 + weight(*inner),
        StatementView::Not(inner) => 2 + weight(*inner),
        StatementView::If { expression, success, else_if, failure } => 8 + weight(*expression)
            + list_weight(success, 0) + arms_weight(else_if, 0) + list_weight(failure, 0),
        _ => 1,
    }
}

/// A bound for the statements of a list from the one at `from` on.
pub open spec fn list_weight(statements: Seq<StatementView>, from: nat) -> nat
    decreases statements, statements.len() - from,
{
    if from >= statements.len() {
        0
    } else {
        1 + weight(statements[from as int]) + list_weight(statements, from + 1)
    }
}

/// A bound for the arms of an `if` from the one at `from` on.
pub open spec fn arms_weight(arms: Seq<ElseIfView>, from: nat) -> nat
    decreases arms, arms.len() - from,
{
    if from >= arms.len() {
        0
    } else {
        4 + weight(arms[from as int].expression) + list_weight(arms[from as int].success, 0)
            + arms_weight(arms, from + 1)
    }
}

/// A bound for a block.
pub open spec fn block_weight(statements: Seq<StatementView>) -> nat {
    1 + list_weight(statements, 0)
}

/// A bound for the cases of a `match` from the one at `from` on.
pub open spec fn cases_weight(cases: Seq<CaseView>, from: nat) -> nat
    decreases cases.len() - from,
{
    if from >= cases.len() {
        0
    } else {
        2 + block_weight(cases[from as int].body) + cases_weight(cases, from + 1)
    }
}

/// How many values a loop has still to go through.
pub open spec fn turns(iter: ForIterView) -> nat {
    match iter {
        ForIterView::Waiting => 0,
        ForIterView::Items(items) => items.len(),
        ForIterView::Range(next, end) => if next < end {
            (end - next) as nat
        } else {
            0
        },
    }
}

/// A bound on the transitions that a frame takes part in before the driver
/// is asked.
pub open spec fn frame_weight(frame: FrameView) -> nat {
    match frame {
        FrameView::Command { rest, stage: CommandStage::Running, .. } => block_weight(rest),
        FrameView::Block { rest } => block_weight(rest),
        FrameView::After(_) => 1,
        FrameView::Time(TimeView::Running(_)) => 1,
        FrameView::If { success, else_if, failure } => 2 + block_weight(success) + arms_weight(
            else_if,
            0,
        ) + block_weight(failure),
        FrameView::While { .. } => 1,
        FrameView::For { statements, iter, .. } => 1 + turns(iter) * (1 + block_weight(statements)),
        FrameView::Match { cases, stage: MatchStage::Guard, .. } => 1 + cases_weight(cases, 0),
        FrameView::Match { stage: MatchStage::Body, .. } => 1,
        _ => 0,
    }
}

/// The weights of the frames together.
pub open spec fn stack_weight(stack: Seq<FrameView>) -> nat
    decreases stack.len(),
{
    if stack.len() == 0 {
        0
    } else {
        stack_weight(stack.drop_last()) + frame_weight(stack.last())
    }
}

/// A bound on the transitions that the machine makes before it asks its
/// driver, halts or is idle.
pub open spec fn measure(state: State) -> nat {
    stack_weight(state.stack) + match state.control {
        ControlView::Run(statement) => weight(statement),
        _ => 0,
    }
}

/// A frame on top of the others adds its weight.
pub broadcast proof fn lemma_weight_push(stack: Seq<FrameView>, frame: FrameView)
    ensures
        #[trigger] stack_weight(stack.push(frame)) == stack_weight(stack) + frame_weight(frame),
{
    assert(stack.push(frame).drop_last() =~= stack);
}

/// Without its first statement, a list weighs what it weighs behind that
/// statement.
pub proof fn lemma_list_shift(statements: Seq<StatementView>, from: nat)
    requires
        statements.len() > 0,
    ensures
        list_weight(statements.drop_first(), from) == list_weight(statements, from + 1),
    decreases statements.len() - from,
{
    if from + 1 < statements.len() {
        lemma_list_shift(statements, from + 1);
        assert(statements.drop_first()[from as int] == statements[from as int + 1]);
    }
}

proof fn lemma_arms_shift(arms: Seq<ElseIfView>, from: nat)
    requires
        arms.len() > 0,
    ensures
        arms_weight(arms.drop_first(), from) == arms_weight(arms, from + 1),
    decreases arms.len() - from,
{
    if from + 1 < arms.len() {
        lemma_arms_shift(arms, from + 1);
        assert(arms.drop_first()[from as int] == arms[from as int + 1]);
    }
}

proof fn lemma_cases_shift(cases: Seq<CaseView>, from: nat)
    requires
        cases.len() > 0,
    ensures
        cases_weight(cases.drop_first(), from) == cases_weight(cases, from + 1),
    decreases cases.len() - from,
{
    if from + 1 < cases.len() {
        lemma_cases_shift(cases, from + 1);
        assert(cases.drop_first()[from as int] == cases[from as int + 1]);
    }
}

/// A block of one statement.
proof fn lemma_single(statement: StatementView)
    ensures
        block_weight(seq![statement]) == 2 + weight(statement),
{
    reveal_with_fuel(list_weight, 3);
}

/// One value less to go through.
proof fn lemma_turn(count: nat, body: nat)
    requires
        count > 0,
    ensures
        count * (1 + body) == (count - 1) * (1 + body) + 1 + body,
{
    assert(count * (1 + body) == (count - 1) * (1 + body) + 1 + body) by (nonlinear_arith)
        requires
            count > 0,
    ;
}

proof fn lemma_statement_lowers(state: State, statement: StatementView)
    requires
        state.control == ControlView::Run(statement),
    ensures
        state.execute_statement(statement).1 is Proceed ==> measure(
            state.execute_statement(statement).0,
        ) < measure(state),
{
    broadcast use lemma_weight_push;

    match statement {
        StatementView::If { expression, success, else_if, failure } => {
            lemma_single(*expression);
        },
        _ => {},
    }
}

proof fn lemma_command_lowers(state: State, rest: Seq<StatementView>, diagnostic: Option<Seq<char>>)
    ensures
        state.advance_command(rest, diagnostic).1 is Proceed ==> measure(
            state.advance_command(rest, diagnostic).0,
        ) < stack_weight(state.stack) + block_weight(rest),
{
    broadcast use lemma_weight_push;

    if rest.len() > 0 {
        lemma_list_shift(rest, 0);
    }
}

proof fn lemma_for_lowers(
    state: State,
    variable: Seq<char>,
    statements: Seq<StatementView>,
    iter: ForIterView,
)
    ensures
        measure(state.advance_for(variable, statements, iter).0) < stack_weight(state.stack) + 1
            + turns(iter) * (1 + block_weight(statements)),
{
    broadcast use lemma_weight_push;

    if turns(iter) > 0 {
        lemma_turn(turns(iter), block_weight(statements));
        match iter {
            ForIterView::Items(items) => {
                assert(turns(ForIterView::Items(items.drop_first())) == turns(iter) - 1);
            },
            ForIterView::Range(next, end) => {
                assert(turns(ForIterView::Range((next + 1) as i64, end)) == turns(iter) - 1);
            },
            _ => {},
        }
    }
}

proof fn lemma_case_lowers(state: State, is_array: bool, subject: Seq<Seq<char>>, cases: Seq<CaseView>)
    requires
        cases.len() > 0,
    ensures
        state.take_case(is_array, subject, cases).1 is Proceed ==> measure(
            state.take_case(is_array, subject, cases).0,
        ) < stack_weight(state.stack) + 1 + cases_weight(cases, 0),
{
    broadcast use lemma_weight_push;

}

proof fn lemma_match_lowers(state: State, is_array: bool, subject: Seq<Seq<char>>, cases: Seq<CaseView>)
    ensures
        state.advance_match(is_array, subject, cases).1 is Proceed ==> measure(
            state.advance_match(is_array, subject, cases).0,
        ) < stack_weight(state.stack) + 1 + cases_weight(cases, 0),
{
    broadcast use lemma_weight_push;

    if cases.len() > 0 {
        lemma_case_lowers(state, is_array, subject, cases);
    }
}

proof fn lemma_resume_lowers(state: State, condition: Condition)
    requires
        state.control == ControlView::Deliver(condition),
    ensures
        state.resume(condition) matches Some((next, RequestView::Proceed)) ==> measure(next)
            < measure(state),
{
    broadcast use lemma_weight_push;

    if state.stack.len() > 0 {
        let below = state.popped();
        assert(stack_weight(state.stack) == stack_weight(below.stack) + frame_weight(
            state.stack.last(),
        ));
        match state.stack.last() {
            FrameView::Command { rest, diagnostic, stage: CommandStage::Running } => {
                lemma_command_lowers(below, rest, diagnostic);
            },
            FrameView::Block { rest } => {
                if rest.len() > 0 {
                    lemma_list_shift(rest, 0);
                }
            },
            FrameView::If { success, else_if, failure } => {
                if else_if.len() > 0 {
                    lemma_arms_shift(else_if, 0);
                    lemma_single(else_if[0].expression);
                }
            },
            FrameView::For { variable, statements, iter } => {
                lemma_for_lowers(below, variable, statements, iter);
            },
            FrameView::Match { is_array, subject, cases, stage, saved } => {
                if cases.len() > 0 {
                    lemma_cases_shift(cases, 0);
                    lemma_match_lowers(
                        below.restored(cases[0].binding, saved),
                        is_array,
                        subject,
                        cases.drop_first(),
                    );
                }
            },
            _ => {},
        }
    }
}

/// Every transition that the machine makes by itself, and that asks nothing
/// of the driver, lowers the measure.
pub proof fn own_step_lowers_measure(state: State)
    requires
        state.control is Run || state.control is Deliver,
    ensures
        step(state, ReplyView::Proceed) matches Some((next, RequestView::Proceed)) ==> measure(next)
            < measure(state),
{
    match state.control {
        ControlView::Run(statement) => lemma_statement_lowers(state, statement),
        ControlView::Deliver(condition) => lemma_resume_lowers(state, condition),
        _ => {},
    }
}

/// Where the machine comes to by itself: the state in which it next asks
/// something of its driver, and what it asks. `request` is what the machine
/// in `state` has asked last; as long as that is nothing, the machine
/// steps.
pub open spec fn until_asked(state: State, request: RequestView) -> (State, RequestView)
    decreases measure(state),
{
    if request is Proceed && (state.control is Run || state.control is Deliver) {
        match step(state, ReplyView::Proceed) {
            Some((next, RequestView::Proceed)) => {
                proof {
                    own_step_lowers_measure(state);
                }
                until_asked(next, RequestView::Proceed)
            },
            Some((next, asked)) => (next, asked),
            None => (state, request),
        }
    } else {
        (state, request)
    }
}

} // verus!
