//! The proof that the machine keeps its invariant.

use crate::condition::Condition;
use crate::machine::{
    blocks, frame_wf, inverted, iteration, step, takes_condition, takes_reply, CommandStage,
    ControlView, ForIterView, FrameView, MatchStage, ReplyView, RequestView, State, TimeView,
    Wrapper,
};
use crate::statement::{CaseView, ElseIfView, StatementView};
use crate::text::decimal;
use vstd::prelude::*;

verus! {

/// A frame on top of the others adds one to the blocks if it is a block.
pub broadcast proof fn lemma_blocks_push(stack: Seq<FrameView>, frame: FrameView)
    ensures
        #[trigger] blocks(stack.push(frame)) == blocks(stack) + if frame is Block {
            1nat
        } else {
            0nat
        },
{
    assert(stack.push(frame).drop_last() =~= stack);
}

/// A frame that is no block and is ready for a condition can be put on the
/// stack.
proof fn lemma_pushed(state: State, frame: FrameView)
    requires
        state.steady(),
        !(frame is Block),
        frame_wf(frame),
        takes_condition(frame),
    ensures
        state.pushed(frame).steady(),
{
    broadcast use lemma_blocks_push;

}

/// A frame that is no block and waits for the driver can be put on the
/// stack when the driver is asked.
proof fn lemma_waits(state: State, frame: FrameView, request: RequestView)
    requires
        state.steady(),
        !(frame is Block),
        frame_wf(frame),
        takes_reply(frame),
    ensures
        state.pushed(frame).wait(request).0.wf(),
{
    broadcast use lemma_blocks_push;

    assert(state.stack.push(frame).drop_last() =~= state.stack);
}

/// A block can be entered where no frame waits for the driver.
pub proof fn lemma_execute_statements(state: State, statements: Seq<StatementView>)
    requires
        state.steady(),
    ensures
        state.execute_statements(statements).0.wf(),
{
    broadcast use lemma_blocks_push;

}

proof fn lemma_on_command(state: State, line: Seq<char>)
    requires
        state.steady(),
    ensures
        state.on_command(line).0.wf(),
{
    lemma_waits(
        State { break_flow: false, ..state },
        FrameView::Command { rest: Seq::empty(), diagnostic: None, stage: CommandStage::Parsing },
        RequestView::Parse(line),
    );
}

/// An idle machine can take up a command line.
pub proof fn lemma_on_command_wf(state: State, line: Seq<char>)
    requires
        state.wf(),
        state.control is Idle,
    ensures
        state.on_command(line).0.wf(),
{
    lemma_on_command(state, line);
}

proof fn lemma_advance_command(state: State, rest: Seq<StatementView>, diagnostic: Option<Seq<char>>)
    requires
        state.steady(),
    ensures
        state.advance_command(rest, diagnostic).0.wf(),
{
    if rest.len() > 0 {
        lemma_pushed(
            state,
            FrameView::Command { rest: rest.drop_first(), diagnostic, stage: CommandStage::Running },
        );
    } else {
        match diagnostic {
            Some(message) => lemma_waits(
                state,
                FrameView::Command { rest, diagnostic: None, stage: CommandStage::Reporting },
                RequestView::Report(message),
            ),
            None => {},
        }
    }
}

proof fn lemma_advance_for(
    state: State,
    variable: Seq<char>,
    statements: Seq<StatementView>,
    iter: ForIterView,
)
    requires
        state.steady(),
    ensures
        state.advance_for(variable, statements, iter).0.wf(),
{
    match iter {
        ForIterView::Items(items) if items.len() > 0 => {
            let frame = FrameView::For {
                variable,
                statements,
                iter: ForIterView::Items(items.drop_first()),
            };
            lemma_pushed(state, frame);
            lemma_execute_statements(state.pushed(frame).bound(variable, items[0]), statements);
        },
        ForIterView::Range(next, end) if next < end => {
            let frame = FrameView::For {
                variable,
                statements,
                iter: ForIterView::Range((next + 1) as i64, end),
            };
            lemma_pushed(state, frame);
            lemma_execute_statements(
                state.pushed(frame).bound(variable, decimal(next as int)),
                statements,
            );
        },
        _ => {},
    }
}

proof fn lemma_take_case(state: State, is_array: bool, subject: Seq<Seq<char>>, cases: Seq<CaseView>)
    requires
        state.steady(),
        cases.len() > 0,
    ensures
        state.take_case(is_array, subject, cases).0.wf(),
{
    let case = cases[0];
    let saved = match case.binding {
        Some(name) => state.previous(is_array, name),
        None => None,
    };
    let bound = match case.binding {
        Some(name) => state.set(name, State::binding_value(is_array, subject)),
        None => state,
    };
    assert(bound.steady());
    match case.guard {
        Some(guard) => {
            let frame = FrameView::Match {
                is_array,
                subject,
                cases,
                stage: MatchStage::Guard,
                saved,
            };
            lemma_pushed(bound, frame);
            lemma_on_command(bound.pushed(frame), guard);
        },
        None => {
            let frame = FrameView::Match { is_array, subject, cases, stage: MatchStage::Body, saved };
            lemma_pushed(bound, frame);
            lemma_execute_statements(bound.pushed(frame), case.body);
        },
    }
}

proof fn lemma_advance_match(
    state: State,
    is_array: bool,
    subject: Seq<Seq<char>>,
    cases: Seq<CaseView>,
)
    requires
        state.steady(),
    ensures
        state.advance_match(is_array, subject, cases).0.wf(),
        !(state.advance_match(is_array, subject, cases).0.control is Idle),
{
    if cases.len() > 0 {
        match cases[0].patterns {
            None => lemma_take_case(state, is_array, subject, cases),
            Some(patterns) => lemma_waits(
                state,
                FrameView::Match {
                    is_array,
                    subject,
                    cases,
                    stage: MatchStage::Patterns,
                    saved: None,
                },
                RequestView::ExpandPatterns(patterns),
            ),
        }
    }
}

proof fn lemma_probe(state: State)
    requires
        state.steady(),
    ensures
        state.probe().0.wf(),
        state.pass(Condition::NoOp).0.wf(),
{
    lemma_waits(state, FrameView::Probe, RequestView::PollSignal);
}

proof fn lemma_execute_if(
    state: State,
    expression: StatementView,
    success: Seq<StatementView>,
    else_if: Seq<ElseIfView>,
    failure: Seq<StatementView>,
)
    requires
        state.steady(),
    ensures
        state.execute_if(expression, success, else_if, failure).0.wf(),
{
    let frame = FrameView::If { success, else_if, failure };
    lemma_pushed(state, frame);
    lemma_execute_statements(state.pushed(frame), seq![expression]);
}

proof fn lemma_execute_statement(state: State, statement: StatementView)
    requires
        state.steady(),
    ensures
        state.execute_statement(statement).0.wf(),
{
    let compound = state.pushed(FrameView::After(Wrapper::Compound));
    let looping = state.pushed(FrameView::After(Wrapper::Loop));
    lemma_pushed(state, FrameView::After(Wrapper::Compound));
    lemma_pushed(state, FrameView::After(Wrapper::Loop));
    lemma_pushed(state, FrameView::After(Wrapper::Not));
    match statement {
        StatementView::Error(number) => lemma_probe(state.with_status(number)),
        StatementView::Let(action) => lemma_waits(
            state,
            FrameView::Assign,
            RequestView::Assign { export: false, action },
        ),
        StatementView::Export(action) => lemma_waits(
            state,
            FrameView::Assign,
            RequestView::Assign { export: true, action },
        ),
        StatementView::Pipeline(pipeline) => lemma_waits(
            state,
            FrameView::Pipeline,
            RequestView::RunPipeline(pipeline),
        ),
        StatementView::If { expression, success, else_if, failure } => lemma_execute_if(
            compound,
            *expression,
            success,
            else_if,
            failure,
        ),
        StatementView::While { expression, statements } => lemma_waits(
            looping,
            FrameView::While { expression, statements },
            RequestView::RunPipeline(expression),
        ),
        StatementView::For { variable, values, statements } => lemma_waits(
            looping,
            FrameView::For { variable, statements, iter: ForIterView::Waiting },
            RequestView::ExpandFor(values),
        ),
        StatementView::Match { expression, cases } => lemma_waits(
            compound,
            FrameView::Match {
                is_array: false,
                subject: Seq::empty(),
                cases,
                stage: MatchStage::Subject,
                saved: None,
            },
            RequestView::ExpandSubject(expression),
        ),
        StatementView::Function { name, args, statements, description } => lemma_probe(
            state.set(
                name,
                crate::variables::ValueView::Function(
                    crate::variables::FunctionView { description, name, args, statements },
                ),
            ),
        ),
        StatementView::Time(inner) => lemma_waits(
            state,
            FrameView::Time(TimeView::Starting(*inner)),
            RequestView::ReadClock,
        ),
        StatementView::And(inner) => lemma_probe(state),
        StatementView::Or(inner) => lemma_probe(state),
        StatementView::Not(inner) => {},
        StatementView::Break => {},
        StatementView::Continue => {},
        StatementView::Default => lemma_probe(state),
    }
}

/// Without its innermost frame, a state with the invariant is steady,
/// unless that frame is a block or the machine is halted.
proof fn lemma_popped(state: State)
    requires
        state.wf(),
        state.stack.len() > 0,
        state.control is Deliver || state.control is Wait,
        !(state.stack.last() is Block),
    ensures
        state.popped().steady(),
{
    assert forall|i: int| 0 <= i < state.popped().stack.len() implies takes_condition(
        #[trigger] state.popped().stack[i],
    ) by {
        assert(state.popped().stack[i] == state.stack[i]);
        if state.control is Wait {
            assert(state.stack.drop_last()[i] == state.stack[i]);
        }
    }
}

proof fn lemma_resume_block(state: State, rest: Seq<StatementView>, condition: Condition)
    requires
        state.wf(),
        state.control is Deliver,
        state.stack.len() > 0,
        state.stack.last() == (FrameView::Block { rest }),
    ensures
        state.popped().resume_block(rest, condition).0.wf(),
{
    broadcast use lemma_blocks_push;

    let below = state.popped();
    assert forall|i: int| 0 <= i < below.stack.len() implies takes_condition(
        #[trigger] below.stack[i],
    ) by {
        assert(below.stack[i] == state.stack[i]);
    }
}

proof fn lemma_resume_after(state: State, wrapper: Wrapper, condition: Condition)
    requires
        state.steady(),
    ensures
        state.resume_after(wrapper, condition).0.wf(),
{
    lemma_probe(state);
    lemma_probe(state.with_status(inverted(state.status)).mirrored());
}

proof fn lemma_resume_if(
    state: State,
    success: Seq<StatementView>,
    else_if: Seq<ElseIfView>,
    failure: Seq<StatementView>,
    condition: Condition,
)
    requires
        state.steady(),
    ensures
        state.resume_if(success, else_if, failure, condition).0.wf(),
{
    lemma_execute_statements(state, success);
    lemma_execute_statements(state, failure);
    if else_if.len() > 0 {
        lemma_execute_if(
            state,
            else_if[0].expression,
            else_if[0].success,
            else_if.drop_first(),
            failure,
        );
    }
}

proof fn lemma_resume_guard(
    state: State,
    is_array: bool,
    subject: Seq<Seq<char>>,
    cases: Seq<CaseView>,
    saved: Option<crate::variables::ValueView>,
)
    requires
        state.steady(),
        cases.len() > 0,
    ensures
        state.resume_guard(is_array, subject, cases, saved).0.wf(),
        !(state.resume_guard(is_array, subject, cases, saved).0.control is Idle),
{
    let restored = state.restored(cases[0].binding, saved);
    assert(restored.steady());
    lemma_advance_match(restored, is_array, subject, cases.drop_first());
    let next = FrameView::Match { is_array, subject, cases, stage: MatchStage::Body, saved };
    lemma_pushed(state, next);
    lemma_execute_statements(state.pushed(next), cases[0].body);
}

proof fn lemma_resume(state: State, condition: Condition)
    requires
        state.wf(),
        state.control is Deliver,
    ensures
        state.resume(condition) matches Some((next, _)) ==> next.wf(),
{
    if state.stack.len() > 0 {
        let below = state.popped();
        let frame = state.stack.last();
        if !(frame is Block) {
            lemma_popped(state);
        }
        match frame {
            FrameView::Command { rest, diagnostic, stage: CommandStage::Running } => {
                lemma_advance_command(below, rest, diagnostic);
            },
            FrameView::Block { rest } => {
                lemma_resume_block(state, rest, condition);
            },
            FrameView::After(wrapper) => {
                lemma_resume_after(below, wrapper, condition);
            },
            FrameView::Time(TimeView::Running(start)) => {
                assert(frame_wf(state.stack[state.stack.len() - 1]));
                lemma_waits(
                    below,
                    FrameView::Time(TimeView::Stopping(start, condition)),
                    RequestView::ReadClock,
                );
            },
            FrameView::If { success, else_if, failure } => {
                lemma_resume_if(below, success, else_if, failure, condition);
            },
            FrameView::While { expression, statements } => {
                lemma_waits(
                    below,
                    FrameView::While { expression, statements },
                    RequestView::RunPipeline(expression),
                );
            },
            FrameView::For { variable, statements, iter } => {
                lemma_advance_for(below, variable, statements, iter);
            },
            FrameView::Match { is_array, subject, cases, stage, saved } => {
                if cases.len() > 0 {
                    lemma_resume_guard(below, is_array, subject, cases, saved);
                    assert(below.restored(cases[0].binding, saved).steady());
                }
            },
            _ => {},
        }
    }
}

proof fn lemma_receive(state: State, reply: ReplyView)
    requires
        state.wf(),
        state.control is Wait,
    ensures
        state.receive(reply) matches Some((next, _)) ==> next.wf(),
{
    if state.stack.len() > 0 {
        let below = state.popped();
        let frame = state.stack.last();
        lemma_popped(state);
        match (frame, reply) {
            (FrameView::Probe, ReplyView::Signal(signal)) => {
                assert((State { break_flow: false, ..below }).steady());
            },
            (FrameView::Assign, ReplyView::Status(status)) => {
                lemma_probe(below.with_status(status).mirrored());
            },
            (FrameView::Pipeline, ReplyView::Pipeline(_)) => {
                lemma_probe(below);
            },
            (FrameView::While { expression, statements }, ReplyView::Pipeline(returned)) => {
                lemma_pushed(below, frame);
                lemma_execute_statements(below.pushed(frame), statements);
            },
            (
                FrameView::For { variable, statements, iter: ForIterView::Waiting },
                ReplyView::Values(values),
            ) => {
                lemma_advance_for(below, variable, statements, iteration(values));
            },
            (
                FrameView::Match { is_array: _, subject: _, cases, stage: MatchStage::Subject, saved: _ },
                ReplyView::Subject { is_array, values },
            ) => {
                lemma_advance_match(below, is_array, values, cases);
            },
            (
                FrameView::Match { is_array, subject, cases, stage: MatchStage::Patterns, saved: _ },
                ReplyView::Expanded(values),
            ) => {
                if cases.len() > 0 {
                    lemma_take_case(below, is_array, subject, cases);
                    lemma_advance_match(below, is_array, subject, cases.drop_first());
                }
            },
            (
                FrameView::Command { rest: _, diagnostic: _, stage: CommandStage::Parsing },
                ReplyView::Parsed { statements, diagnostic },
            ) => {
                lemma_advance_command(below, statements, diagnostic);
            },
            (FrameView::Time(TimeView::Starting(statement)), ReplyView::Clock(now)) => {
                if now.valid() {
                    lemma_pushed(below, FrameView::Time(TimeView::Running(now)));
                }
            },
            (FrameView::Time(TimeView::Stopping(start, condition)), ReplyView::Clock(now)) => {
                lemma_waits(
                    below,
                    FrameView::Time(TimeView::Printing(condition)),
                    RequestView::Print(start.until(now).line()),
                );
            },
            (FrameView::Time(TimeView::Printing(condition)), ReplyView::Proceed) => {
                lemma_probe(below);
            },
            _ => {},
        }
    }
}

/// Every transition keeps the invariant.
pub proof fn lemma_step_wf(state: State, reply: ReplyView)
    requires
        state.wf(),
    ensures
        step(state, reply) matches Some((next, _)) ==> next.wf(),
{
    match state.control {
        ControlView::Run(statement) => lemma_execute_statement(state, statement),
        ControlView::Deliver(condition) => lemma_resume(state, condition),
        ControlView::Wait => lemma_receive(state, reply),
        _ => {},
    }
}

/// What a statement does is the same whatever the machine was about to do.
pub proof fn lemma_execute_statement_control(
    state: State,
    control: ControlView,
    statement: StatementView,
)
    ensures
        (State { control, ..state }).execute_statement(statement) == state.execute_statement(
            statement,
        ),
{
}

} // verus!
