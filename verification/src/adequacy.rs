//! The proof that the machine does what the statements come to.
//!
//! [`crate::semantics`] says what a whole statement does. Here it is shown
//! that the machine of [`crate::machine`], stepped while it is at work and
//! served by a driver that makes the same moves, ends where the statement
//! ends: in the same world, with the same condition, having asked the same
//! of the driver, and with the stack as it was before the statement.

use crate::condition::Condition;
use crate::machine::{
    after, step, CommandStage, ControlView, ForIterView, FrameView, MatchStage, Move, ReplyView,
    RequestView, State, TimeView, World, Wrapper,
};
use crate::semantics::{
    drive, execute_body, execute_for, execute_if, execute_match, execute_statement,
    execute_statements, execute_while, logged, on_command, run_command, run_statements,
    take_case, Course, Finish,
};
use crate::statement::{CaseView, ElseIfView, StatementView};
use vstd::prelude::*;

verus! {

/// Taking a frame off a stack on which it was just put gives the stack.
pub broadcast proof fn lemma_push_pop(stack: Seq<FrameView>, frame: FrameView)
    ensures
        #[trigger] stack.push(frame).drop_last() == stack,
{
    assert(stack.push(frame).drop_last() =~= stack);
}

/// Driving for `first` and then for `second` moves is driving for both.
pub proof fn lemma_drive_add(
    state: State,
    events: Seq<Move>,
    asked: Seq<RequestView>,
    first: nat,
    second: nat,
)
    ensures
        drive(state, events, asked, first + second) == ({
            let (middle, rest, log) = drive(state, events, asked, first);
            drive(middle, rest, log, second)
        }),
    decreases first,
{
    if first == 0 {
    } else {
        reveal_with_fuel(drive, 2);
        match state.control {
            ControlView::Run(_) | ControlView::Deliver(_) => {
                match step(state, ReplyView::Proceed) {
                    Some((next, request)) => {
                        lemma_drive_add(
                            next,
                            events,
                            logged(asked, request),
                            (first - 1) as nat,
                            second,
                        );
                    },
                    None => {},
                }
            },
            ControlView::Wait => {
                if events.len() > 0 {
                    match events[0] {
                        Move::Step(reply) => {
                            match step(state, reply) {
                                Some((next, request)) => {
                                    lemma_drive_add(
                                        next,
                                        events.drop_first(),
                                        logged(asked, request),
                                        (first - 1) as nat,
                                        second,
                                    );
                                },
                                None => {},
                            }
                        },
                        other => {
                            lemma_drive_add(
                                after(state, other),
                                events.drop_first(),
                                asked,
                                (first - 1) as nat,
                                second,
                            );
                        },
                    }
                }
            },
            _ => {},
        }
    }
}

/// One step of the machine itself.
proof fn lemma_step(state: State, events: Seq<Move>, asked: Seq<RequestView>)
    requires
        state.control is Run || state.control is Deliver,
        step(state, ReplyView::Proceed) is Some,
    ensures
        drive(state, events, asked, 1) == (
            step(state, ReplyView::Proceed).unwrap().0,
            events,
            logged(asked, step(state, ReplyView::Proceed).unwrap().1),
        ),
{
    reveal_with_fuel(drive, 2);
}

/// The driver makes its moves up to its answer, and the machine takes the
/// answer.
proof fn lemma_settle(course: Course, stack: Seq<FrameView>) -> (moves: nat)
    requires
        course.settle() matches Some((end, reply)) && step(
            end.world.at(stack, ControlView::Wait),
            reply,
        ) is Some,
    ensures
        course.settle() matches Some((end, reply)) && end.asked == course.asked && drive(
            course.world.at(stack, ControlView::Wait),
            course.events,
            course.asked,
            moves,
        ) == (
            step(end.world.at(stack, ControlView::Wait), reply).unwrap().0,
            end.events,
            logged(course.asked, step(end.world.at(stack, ControlView::Wait), reply).unwrap().1),
        ),
    decreases course.events.len(),
{
    reveal_with_fuel(drive, 2);
    let state = course.world.at(stack, ControlView::Wait);
    match course.events[0] {
        Move::Step(reply) => {
            1
        },
        other => {
            let next = Course {
                world: course.world.moved(other),
                events: course.events.drop_first(),
                ..course
            };
            let moves = lemma_settle(next, stack);
            assert(after(state, other) == next.world.at(stack, ControlView::Wait));
            moves + 1
        },
    }
}

/// The driver is asked, makes its moves up to its answer, and the machine
/// takes the answer.
proof fn lemma_ask(course: Course, request: RequestView, stack: Seq<FrameView>) -> (moves: nat)
    requires
        course.ask(request) matches Some((end, reply)) && step(
            end.world.at(stack, ControlView::Wait),
            reply,
        ) is Some,
    ensures
        course.ask(request) matches Some((end, reply)) && drive(
            course.world.at(stack, ControlView::Wait),
            course.events,
            course.asked.push(request),
            moves,
        ) == (
            step(end.world.at(stack, ControlView::Wait), reply).unwrap().0,
            end.events,
            logged(end.asked, step(end.world.at(stack, ControlView::Wait), reply).unwrap().1),
        ),
{
    lemma_settle(Course { asked: course.asked.push(request), ..course }, stack)
}

/// Whether an execution comes to an end.
pub open spec fn ended(outcome: Option<(Course, Finish)>) -> bool {
    outcome is Some
}

/// Whether the machine, driven from `start` for `moves` moves, ends where
/// `outcome` ends. Where the execution yields, the machine is in the same
/// world, has the condition for the innermost of the frames `below` and
/// nothing above them, and the driver has the same moves left and was asked
/// the same. Where the execution ends the process, the machine has halted
/// with the same status in the same world, and the driver has the same
/// moves left and was asked the same.
pub open spec fn reaches(
    start: State,
    events: Seq<Move>,
    asked: Seq<RequestView>,
    moves: nat,
    outcome: Option<(Course, Finish)>,
    below: Seq<FrameView>,
) -> bool {
    match outcome {
        Some((end, Finish::Yield(condition))) => drive(start, events, asked, moves) == (
            end.world.at(below, ControlView::Deliver(condition)),
            end.events,
            end.asked,
        ),
        Some((end, Finish::Exit(code))) => halted(
            drive(start, events, asked, moves),
            end,
            code,
        ),
        None => false,
    }
}

/// Whether the machine has halted with `code` where the execution `end`
/// ended the process.
pub open spec fn halted(
    driven: (State, Seq<Move>, Seq<RequestView>),
    end: Course,
    code: i32,
) -> bool {
    &&& driven.0.control == ControlView::Halted(code)
    &&& World::of(driven.0) == end.world
    &&& driven.1 == end.events
    &&& driven.2 == end.asked
}

/// Driving on from where a first drive is known to have ended.
proof fn lemma_join(
    state: State,
    events: Seq<Move>,
    asked: Seq<RequestView>,
    first: nat,
    middle: State,
    rest: Seq<Move>,
    log: Seq<RequestView>,
    second: nat,
)
    requires
        drive(state, events, asked, first) == (middle, rest, log),
    ensures
        drive(state, events, asked, first + second) == drive(middle, rest, log, second),
{
    lemma_drive_add(state, events, asked, first, second);
}

/// The signal probe of the machine ends as the probe of a statement does.
proof fn lemma_probe(course: Course, below: Seq<FrameView>) -> (moves: nat)
    requires
        ended(course.probe()),
    ensures
        reaches(
            course.world.at(below.push(FrameView::Probe), ControlView::Wait),
            course.events,
            course.asked.push(RequestView::PollSignal),
            moves,
            course.probe(),
            below,
        ),
{
    broadcast use lemma_push_pop;

    lemma_ask(course, RequestView::PollSignal, below.push(FrameView::Probe))
}

/// A statement around a construct that has yielded goes on in the machine
/// as it does in the statement.
proof fn lemma_pass(
    course: Course,
    condition: Condition,
    below: Seq<FrameView>,
    control: ControlView,
) -> (moves: nat)
    requires
        ended(course.pass(Finish::Yield(condition))),
    ensures
        reaches(
            course.world.at(below, control).pass(condition).0,
            course.events,
            logged(course.asked, course.world.at(below, control).pass(condition).1),
            moves,
            course.pass(Finish::Yield(condition)),
            below,
        ),
{
    if condition == Condition::NoOp {
        lemma_probe(course, below)
    } else {
        reveal_with_fuel(drive, 1);
        0
    }
}

/// A statement around a loop that has yielded goes on in the machine as it
/// does in the statement.
proof fn lemma_pass_loop(
    course: Course,
    condition: Condition,
    below: Seq<FrameView>,
    control: ControlView,
) -> (moves: nat)
    requires
        ended(course.pass_loop(Finish::Yield(condition))),
    ensures
        reaches(
            course.world.at(below, control).resume_after(Wrapper::Loop, condition).0,
            course.events,
            logged(
                course.asked,
                course.world.at(below, control).resume_after(Wrapper::Loop, condition).1,
            ),
            moves,
            course.pass_loop(Finish::Yield(condition)),
            below,
        ),
{
    if condition == Condition::SigInt {
        reveal_with_fuel(drive, 1);
        0
    } else {
        lemma_probe(course, below)
    }
}

/// A statement that does its work at once.
proof fn lemma_simple(statement: StatementView, course: Course, depth: nat, below: Seq<FrameView>) -> (moves:
    nat)
    requires
        statement is Error || statement is Function || statement is Default,
        ended(execute_statement(statement, course, depth)),
    ensures
        reaches(
            course.world.at(below, ControlView::Run(statement)),
            course.events,
            course.asked,
            moves,
            execute_statement(statement, course, depth),
            below,
        ),
{
    let start = course.world.at(below, ControlView::Run(statement));
    lemma_step(start, course.events, course.asked);
    let (next, request) = step(start, ReplyView::Proceed).unwrap();
    let world = World::of(next);
    assert(next == world.at(below.push(FrameView::Probe), ControlView::Wait));
    let moves = lemma_probe(course.with_world(world), below);
    lemma_join(
        start,
        course.events,
        course.asked,
        1,
        next,
        course.events,
        logged(course.asked, request),
        moves,
    );
    1 + moves
}

/// An assignment.
proof fn lemma_assign(statement: StatementView, course: Course, depth: nat, below: Seq<FrameView>) -> (moves:
    nat)
    requires
        statement is Let || statement is Export,
        ended(execute_statement(statement, course, depth)),
    ensures
        reaches(
            course.world.at(below, ControlView::Run(statement)),
            course.events,
            course.asked,
            moves,
            execute_statement(statement, course, depth),
            below,
        ),
{
    broadcast use lemma_push_pop;

    let start = course.world.at(below, ControlView::Run(statement));
    lemma_step(start, course.events, course.asked);
    let (waiting, request) = step(start, ReplyView::Proceed).unwrap();
    let stack = below.push(FrameView::Assign);
    assert(waiting == course.world.at(stack, ControlView::Wait));
    let (answered, reply) = course.ask(request).unwrap();
    let first = lemma_ask(course, request, stack);
    let (probing, poll) = step(answered.world.at(stack, ControlView::Wait), reply).unwrap();
    let world = World::of(probing);
    assert(probing == world.at(below.push(FrameView::Probe), ControlView::Wait));
    let second = lemma_probe(answered.with_world(world), below);
    lemma_join(
        start,
        course.events,
        course.asked,
        1,
        waiting,
        course.events,
        course.asked.push(request),
        first,
    );
    lemma_join(
        start,
        course.events,
        course.asked,
        1 + first,
        probing,
        answered.events,
        logged(answered.asked, poll),
        second,
    );
    1 + first + second
}

/// A pipeline statement.
proof fn lemma_pipeline(statement: StatementView, course: Course, depth: nat, below: Seq<FrameView>) -> (moves:
    nat)
    requires
        statement is Pipeline,
        ended(execute_statement(statement, course, depth)),
    ensures
        reaches(
            course.world.at(below, ControlView::Run(statement)),
            course.events,
            course.asked,
            moves,
            execute_statement(statement, course, depth),
            below,
        ),
{
    broadcast use lemma_push_pop;

    let start = course.world.at(below, ControlView::Run(statement));
    lemma_step(start, course.events, course.asked);
    let (waiting, request) = step(start, ReplyView::Proceed).unwrap();
    let stack = below.push(FrameView::Pipeline);
    assert(waiting == course.world.at(stack, ControlView::Wait));
    let (answered, reply) = course.ask(request).unwrap();
    let first = lemma_ask(course, request, stack);
    let (next, poll) = step(answered.world.at(stack, ControlView::Wait), reply).unwrap();
    lemma_join(
        start,
        course.events,
        course.asked,
        1,
        waiting,
        course.events,
        course.asked.push(request),
        first,
    );
    if crate::machine::errexit(answered.world.flags) && answered.world.status
        != crate::machine::SUCCESS {
        1 + first
    } else {
        assert(next == answered.world.at(below.push(FrameView::Probe), ControlView::Wait));
        let second = lemma_probe(answered, below);
        lemma_join(
            start,
            course.events,
            course.asked,
            1 + first,
            next,
            answered.events,
            logged(answered.asked, poll),
            second,
        );
        1 + first + second
    }
}

/// A statement in the machine ends as the statement does.
proof fn lemma_statement(
    statement: StatementView,
    course: Course,
    depth: nat,
    below: Seq<FrameView>,
) -> (moves: nat)
    requires
        ended(execute_statement(statement, course, depth)),
    ensures
        reaches(
            course.world.at(below, ControlView::Run(statement)),
            course.events,
            course.asked,
            moves,
            execute_statement(statement, course, depth),
            below,
        ),
    decreases depth, 5nat,
{
    match statement {
        StatementView::Error(_) => lemma_simple(statement, course, depth, below),
        StatementView::Function { .. } => lemma_simple(statement, course, depth, below),
        StatementView::Default => lemma_simple(statement, course, depth, below),
        StatementView::Let(_) => lemma_assign(statement, course, depth, below),
        StatementView::Export(_) => lemma_assign(statement, course, depth, below),
        StatementView::Pipeline(_) => lemma_pipeline(statement, course, depth, below),
        StatementView::And(inner) => lemma_conditional(statement, *inner, course, depth, below),
        StatementView::Or(inner) => lemma_conditional(statement, *inner, course, depth, below),
        StatementView::Not(inner) => lemma_not(*inner, course, depth, below),
        StatementView::Time(inner) => lemma_time(*inner, course, depth, below),
        StatementView::If { expression, success, else_if, failure } => lemma_if_statement(
            *expression,
            success,
            else_if,
            failure,
            course,
            depth,
            below,
        ),
        StatementView::While { expression, statements } => lemma_while_statement(
            expression,
            statements,
            course,
            depth,
            below,
        ),
        StatementView::For { variable, values, statements } => lemma_for_statement(
            variable,
            values,
            statements,
            course,
            depth,
            below,
        ),
        StatementView::Match { expression, cases } => lemma_match_statement(
            expression,
            cases,
            course,
            depth,
            below,
        ),
        StatementView::Break => {
            let start = course.world.at(below, ControlView::Run(statement));
            lemma_step(start, course.events, course.asked);
            1
        },
        StatementView::Continue => {
            let start = course.world.at(below, ControlView::Run(statement));
            lemma_step(start, course.events, course.asked);
            1
        },
    }
}

/// What stands around a construct goes on when the construct has ended:
/// the machine delivers what was yielded, and `after` says how the machine
/// ends from there.
proof fn lemma_around(
    start: State,
    events: Seq<Move>,
    asked: Seq<RequestView>,
    first: nat,
    inner: Option<(Course, Finish)>,
    around: Seq<FrameView>,
    second: nat,
    outcome: Option<(Course, Finish)>,
    below: Seq<FrameView>,
)
    requires
        reaches(start, events, asked, first, inner, around),
        inner matches Some((end, Finish::Exit(_))) ==> outcome == inner,
        inner matches Some((end, Finish::Yield(condition))) ==> ({
            let yielded = end.world.at(around, ControlView::Deliver(condition));
            &&& step(yielded, ReplyView::Proceed) is Some
            &&& reaches(
                step(yielded, ReplyView::Proceed).unwrap().0,
                end.events,
                logged(end.asked, step(yielded, ReplyView::Proceed).unwrap().1),
                second,
                outcome,
                below,
            )
        }),
    ensures
        reaches(
            start,
            events,
            asked,
            if inner matches Some((_, Finish::Yield(_))) {
                first + 1 + second
            } else {
                first
            },
            outcome,
            below,
        ),
{
    match inner {
        Some((end, Finish::Yield(condition))) => {
            let yielded = end.world.at(around, ControlView::Deliver(condition));
            lemma_step(yielded, end.events, end.asked);
            let (next, request) = step(yielded, ReplyView::Proceed).unwrap();
            lemma_join(start, events, asked, first, yielded, end.events, end.asked, 1);
            lemma_join(
                start,
                events,
                asked,
                first + 1,
                next,
                end.events,
                logged(end.asked, request),
                second,
            );
        },
        _ => {},
    }
}

/// What follows a first stretch of the machine's way.
proof fn lemma_onward(
    start: State,
    events: Seq<Move>,
    asked: Seq<RequestView>,
    first: nat,
    middle: State,
    rest: Seq<Move>,
    log: Seq<RequestView>,
    second: nat,
    outcome: Option<(Course, Finish)>,
    below: Seq<FrameView>,
)
    requires
        drive(start, events, asked, first) == (middle, rest, log),
        reaches(middle, rest, log, second, outcome, below),
    ensures
        reaches(start, events, asked, first + second, outcome, below),
{
    lemma_join(start, events, asked, first, middle, rest, log, second);
}

/// `and` and `or`.
proof fn lemma_conditional(
    statement: StatementView,
    inner: StatementView,
    course: Course,
    depth: nat,
    below: Seq<FrameView>,
) -> (moves: nat)
    requires
        statement == StatementView::And(Box::new(inner)) || statement == StatementView::Or(
            Box::new(inner),
        ),
        ended(execute_statement(statement, course, depth)),
    ensures
        reaches(
            course.world.at(below, ControlView::Run(statement)),
            course.events,
            course.asked,
            moves,
            execute_statement(statement, course, depth),
            below,
        ),
    decreases depth, 4nat,
{
    broadcast use lemma_push_pop;

    let outcome = execute_statement(statement, course, depth);
    let start = course.world.at(below, ControlView::Run(statement));
    lemma_step(start, course.events, course.asked);
    let (next, request) = step(start, ReplyView::Proceed).unwrap();
    let taken = if statement is And {
        course.world.status == crate::machine::SUCCESS
    } else {
        course.world.status == crate::machine::FAILURE
    };
    if taken {
        let around = below.push(FrameView::After(Wrapper::Compound));
        assert(next == course.world.at(around, ControlView::Run(inner)));
        let first = lemma_statement(inner, course, (depth - 1) as nat, around);
        let run = execute_statement(inner, course, (depth - 1) as nat);
        let second = match run {
            Some((end, Finish::Yield(condition))) => lemma_pass(
                end,
                condition,
                below,
                ControlView::Deliver(condition),
            ),
            _ => 0,
        };
        lemma_around(next, course.events, course.asked, first, run, around, second, outcome, below);
        let moves = if run matches Some((_, Finish::Yield(_))) {
            first + 1 + second
        } else {
            first
        };
        lemma_onward(
            start,
            course.events,
            course.asked,
            1,
            next,
            course.events,
            course.asked,
            moves,
            outcome,
            below,
        );
        1 + moves
    } else {
        assert(next == course.world.at(below.push(FrameView::Probe), ControlView::Wait));
        let moves = lemma_probe(course, below);
        lemma_onward(
            start,
            course.events,
            course.asked,
            1,
            next,
            course.events,
            logged(course.asked, request),
            moves,
            outcome,
            below,
        );
        1 + moves
    }
}

/// `not`.
proof fn lemma_not(inner: StatementView, course: Course, depth: nat, below: Seq<FrameView>) -> (moves:
    nat)
    requires
        ended(execute_statement(StatementView::Not(Box::new(inner)), course, depth)),
    ensures
        reaches(
            course.world.at(below, ControlView::Run(StatementView::Not(Box::new(inner)))),
            course.events,
            course.asked,
            moves,
            execute_statement(StatementView::Not(Box::new(inner)), course, depth),
            below,
        ),
    decreases depth, 4nat,
{
    broadcast use lemma_push_pop;

    let statement = StatementView::Not(Box::new(inner));
    let outcome = execute_statement(statement, course, depth);
    let start = course.world.at(below, ControlView::Run(statement));
    lemma_step(start, course.events, course.asked);
    let (next, request) = step(start, ReplyView::Proceed).unwrap();
    let around = below.push(FrameView::After(Wrapper::Not));
    assert(next == course.world.at(around, ControlView::Run(inner)));
    let first = lemma_statement(inner, course, (depth - 1) as nat, around);
    let run = execute_statement(inner, course, (depth - 1) as nat);
    let second = match run {
        Some((end, Finish::Yield(condition))) => {
            let world = end.world.with_status(
                crate::machine::inverted(end.world.status),
            ).mirrored();
            let yielded = end.world.at(around, ControlView::Deliver(condition));
            assert(step(yielded, ReplyView::Proceed).unwrap().0 == world.at(
                below.push(FrameView::Probe),
                ControlView::Wait,
            ));
            lemma_probe(end.with_world(world), below)
        },
        _ => 0,
    };
    lemma_around(next, course.events, course.asked, first, run, around, second, outcome, below);
    let moves = if run matches Some((_, Finish::Yield(_))) {
        first + 1 + second
    } else {
        first
    };
    lemma_onward(
        start,
        course.events,
        course.asked,
        1,
        next,
        course.events,
        course.asked,
        moves,
        outcome,
        below,
    );
    1 + moves
}

/// `time`, from the end of its statement on.
proof fn lemma_time_report(
    begin: crate::clock::Instant,
    condition: Condition,
    course: Course,
    below: Seq<FrameView>,
    outcome: Option<(Course, Finish)>,
) -> (moves: nat)
    requires
        course.ask(RequestView::ReadClock) matches Some((stopped, ReplyView::Clock(now)))
            && now.valid() && (stopped.ask(RequestView::Print(begin.until(now).line())) matches Some(
            (printed, ReplyView::Proceed),
        ) && outcome == printed.pass(Finish::Yield(condition)) && outcome is Some),
    ensures
        reaches(
            course.world.at(
                below.push(FrameView::Time(TimeView::Stopping(begin, condition))),
                ControlView::Wait,
            ),
            course.events,
            course.asked.push(RequestView::ReadClock),
            moves,
            outcome,
            below,
        ),
{
    broadcast use lemma_push_pop;

    let stopping = below.push(FrameView::Time(TimeView::Stopping(begin, condition)));
    let start = course.world.at(stopping, ControlView::Wait);
    let (stopped, clock) = course.ask(RequestView::ReadClock).unwrap();
    let now = clock->Clock_0;
    let first = lemma_ask(course, RequestView::ReadClock, stopping);
    let printing = below.push(FrameView::Time(TimeView::Printing(condition)));
    let line = RequestView::Print(begin.until(now).line());
    let (writing, print) = step(stopped.world.at(stopping, ControlView::Wait), clock).unwrap();
    assert(writing == stopped.world.at(printing, ControlView::Wait));
    assert(print == line);
    let (printed, done) = stopped.ask(line).unwrap();
    let second = lemma_ask(stopped, line, printing);
    let (passed, asking) = step(printed.world.at(printing, ControlView::Wait), done).unwrap();
    let third = lemma_pass(printed, condition, below, ControlView::Wait);
    lemma_onward(
        writing,
        stopped.events,
        stopped.asked.push(line),
        second,
        passed,
        printed.events,
        logged(printed.asked, asking),
        third,
        outcome,
        below,
    );
    lemma_onward(
        start,
        course.events,
        course.asked.push(RequestView::ReadClock),
        first,
        writing,
        stopped.events,
        stopped.asked.push(line),
        second + third,
        outcome,
        below,
    );
    first + (second + third)
}

/// `time`.
proof fn lemma_time(inner: StatementView, course: Course, depth: nat, below: Seq<FrameView>) -> (moves:
    nat)
    requires
        ended(execute_statement(StatementView::Time(Box::new(inner)), course, depth)),
    ensures
        reaches(
            course.world.at(below, ControlView::Run(StatementView::Time(Box::new(inner)))),
            course.events,
            course.asked,
            moves,
            execute_statement(StatementView::Time(Box::new(inner)), course, depth),
            below,
        ),
    decreases depth, 4nat,
{
    broadcast use lemma_push_pop;

    let statement = StatementView::Time(Box::new(inner));
    let outcome = execute_statement(statement, course, depth);
    let start = course.world.at(below, ControlView::Run(statement));
    lemma_step(start, course.events, course.asked);
    let (waiting, request) = step(start, ReplyView::Proceed).unwrap();
    let starting = below.push(FrameView::Time(TimeView::Starting(inner)));
    assert(waiting == course.world.at(starting, ControlView::Wait));
    let (begun, reply) = course.ask(RequestView::ReadClock).unwrap();
    let begin = reply->Clock_0;
    let first = lemma_ask(course, RequestView::ReadClock, starting);
    let running = below.push(FrameView::Time(TimeView::Running(begin)));
    let (next, _) = step(begun.world.at(starting, ControlView::Wait), reply).unwrap();
    assert(next == begun.world.at(running, ControlView::Run(inner)));
    let second = lemma_statement(inner, begun, (depth - 1) as nat, running);
    let run = execute_statement(inner, begun, (depth - 1) as nat);
    let third = match run {
        Some((end, Finish::Yield(condition))) => {
            let yielded = end.world.at(running, ControlView::Deliver(condition));
            assert(step(yielded, ReplyView::Proceed).unwrap().0 == end.world.at(
                below.push(FrameView::Time(TimeView::Stopping(begin, condition))),
                ControlView::Wait,
            ));
            lemma_time_report(begin, condition, end, below, outcome)
        },
        _ => 0,
    };
    lemma_around(next, begun.events, begun.asked, second, run, running, third, outcome, below);
    let moves = if run matches Some((_, Finish::Yield(_))) {
        second + 1 + third
    } else {
        second
    };
    lemma_onward(
        waiting,
        course.events,
        course.asked.push(RequestView::ReadClock),
        first,
        next,
        begun.events,
        begun.asked,
        moves,
        outcome,
        below,
    );
    lemma_onward(
        start,
        course.events,
        course.asked,
        1,
        waiting,
        course.events,
        course.asked.push(RequestView::ReadClock),
        first + moves,
        outcome,
        below,
    );
    1 + (first + moves)
}

/// Where the statements of a block end: where they yield, the scope of
/// the block is closed.
pub open spec fn closed(outcome: Option<(Course, Finish)>) -> Option<(Course, Finish)> {
    match outcome {
        Some((end, Finish::Yield(condition))) => Some(
            (
                end.with_world(World { scopes: end.world.scopes.drop_last(), ..end.world }),
                Finish::Yield(condition),
            ),
        ),
        other => other,
    }
}

/// The statements of a block in the machine end as they do in the block,
/// with the scope of the block closed.
proof fn lemma_run_statements(
    statements: Seq<StatementView>,
    course: Course,
    depth: nat,
    below: Seq<FrameView>,
) -> (moves: nat)
    requires
        ended(run_statements(statements, course, depth)),
    ensures
        reaches(
            course.world.at(
                below.push(FrameView::Block { rest: statements }),
                ControlView::Deliver(Condition::NoOp),
            ),
            course.events,
            course.asked,
            moves,
            closed(run_statements(statements, course, depth)),
            below,
        ),
    decreases depth, 3nat,
{
    broadcast use lemma_push_pop;

    let outcome = closed(run_statements(statements, course, depth));
    let start = course.world.at(
        below.push(FrameView::Block { rest: statements }),
        ControlView::Deliver(Condition::NoOp),
    );
    lemma_step(start, course.events, course.asked);
    let (next, request) = step(start, ReplyView::Proceed).unwrap();
    if statements.len() == 0 {
        1
    } else {
        let around = below.push(FrameView::Block { rest: statements.drop_first() });
        assert(next == course.world.at(around, ControlView::Run(statements[0])));
        let first = lemma_statement(statements[0], course, (depth - 1) as nat, around);
        let run = execute_statement(statements[0], course, (depth - 1) as nat);
        let moves = match run {
            Some((end, Finish::Yield(condition))) => {
                let yielded = end.world.at(around, ControlView::Deliver(condition));
                if condition == Condition::NoOp {
                    let second = lemma_run_statements(
                        statements.drop_first(),
                        end,
                        (depth - 1) as nat,
                        below,
                    );
                    lemma_onward(
                        next,
                        course.events,
                        course.asked,
                        first,
                        yielded,
                        end.events,
                        end.asked,
                        second,
                        outcome,
                        below,
                    );
                    first + second
                } else {
                    lemma_step(yielded, end.events, end.asked);
                    lemma_join(
                        next,
                        course.events,
                        course.asked,
                        first,
                        yielded,
                        end.events,
                        end.asked,
                        1,
                    );
                    first + 1
                }
            },
            _ => first,
        };
        lemma_onward(
            start,
            course.events,
            course.asked,
            1,
            next,
            course.events,
            course.asked,
            moves,
            outcome,
            below,
        );
        1 + moves
    }
}

/// A block in the machine ends as the block does.
proof fn lemma_statements(
    statements: Seq<StatementView>,
    course: Course,
    depth: nat,
    below: Seq<FrameView>,
    control: ControlView,
) -> (moves: nat)
    requires
        ended(execute_statements(statements, course, depth)),
    ensures
        reaches(
            course.world.at(below, control).execute_statements(statements).0,
            course.events,
            course.asked,
            moves,
            execute_statements(statements, course, depth),
            below,
        ),
    decreases depth, 4nat,
{
    let inside = course.with_world(
        World { scopes: crate::variables::opened(course.world.scopes, false), ..course.world },
    );
    lemma_run_statements(statements, inside, (depth - 1) as nat, below)
}

/// An `if` in the machine, from its first condition on, ends as the `if`
/// does.
proof fn lemma_if(
    expression: StatementView,
    success: Seq<StatementView>,
    else_if: Seq<ElseIfView>,
    failure: Seq<StatementView>,
    course: Course,
    depth: nat,
    below: Seq<FrameView>,
    control: ControlView,
) -> (moves: nat)
    requires
        ended(execute_if(expression, success, else_if, failure, course, depth)),
    ensures
        reaches(
            course.world.at(below, control).execute_if(expression, success, else_if, failure).0,
            course.events,
            course.asked,
            moves,
            execute_if(expression, success, else_if, failure, course, depth),
            below,
        ),
    decreases depth, 5nat,
{
    broadcast use lemma_push_pop;

    let outcome = execute_if(expression, success, else_if, failure, course, depth);
    let start = course.world.at(below, control).execute_if(expression, success, else_if, failure).0;
    let around = below.push(FrameView::If { success, else_if, failure });
    assert(start == course.world.at(around, control).execute_statements(seq![expression]).0);
    let first = lemma_statements(seq![expression], course, (depth - 1) as nat, around, control);
    let run = execute_statements(seq![expression], course, (depth - 1) as nat);
    let second = match run {
        Some((tested, Finish::Yield(condition))) => {
            if condition == Condition::SigInt {
                reveal_with_fuel(drive, 1);
                0
            } else if tested.world.status == crate::machine::SUCCESS {
                lemma_statements(
                    success,
                    tested,
                    (depth - 1) as nat,
                    below,
                    ControlView::Deliver(condition),
                )
            } else if else_if.len() > 0 {
                lemma_if(
                    else_if[0].expression,
                    else_if[0].success,
                    else_if.drop_first(),
                    failure,
                    tested,
                    (depth - 1) as nat,
                    below,
                    ControlView::Deliver(condition),
                )
            } else {
                lemma_statements(
                    failure,
                    tested,
                    (depth - 1) as nat,
                    below,
                    ControlView::Deliver(condition),
                )
            }
        },
        _ => 0,
    };
    lemma_around(start, course.events, course.asked, first, run, around, second, outcome, below);
    if run matches Some((_, Finish::Yield(_))) {
        first + 1 + second
    } else {
        first
    }
}

/// An `if` statement.
proof fn lemma_if_statement(
    expression: StatementView,
    success: Seq<StatementView>,
    else_if: Seq<ElseIfView>,
    failure: Seq<StatementView>,
    course: Course,
    depth: nat,
    below: Seq<FrameView>,
) -> (moves: nat)
    requires
        ended(
            execute_statement(
                StatementView::If { expression: Box::new(expression), success, else_if, failure },
                course,
                depth,
            ),
        ),
    ensures
        reaches(
            course.world.at(
                below,
                ControlView::Run(
                    StatementView::If {
                        expression: Box::new(expression),
                        success,
                        else_if,
                        failure,
                    },
                ),
            ),
            course.events,
            course.asked,
            moves,
            execute_statement(
                StatementView::If { expression: Box::new(expression), success, else_if, failure },
                course,
                depth,
            ),
            below,
        ),
    decreases depth, 4nat,
{
    broadcast use lemma_push_pop;

    let statement = StatementView::If { expression: Box::new(expression), success, else_if, failure };
    let outcome = execute_statement(statement, course, depth);
    let start = course.world.at(below, ControlView::Run(statement));
    lemma_step(start, course.events, course.asked);
    let (next, _) = step(start, ReplyView::Proceed).unwrap();
    let around = below.push(FrameView::After(Wrapper::Compound));
    assert(next == course.world.at(around, ControlView::Run(statement)).execute_if(
        expression,
        success,
        else_if,
        failure,
    ).0);
    let first = lemma_if(
        expression,
        success,
        else_if,
        failure,
        course,
        (depth - 1) as nat,
        around,
        ControlView::Run(statement),
    );
    let run = execute_if(expression, success, else_if, failure, course, (depth - 1) as nat);
    let second = match run {
        Some((end, Finish::Yield(condition))) => lemma_pass(
            end,
            condition,
            below,
            ControlView::Deliver(condition),
        ),
        _ => 0,
    };
    lemma_around(next, course.events, course.asked, first, run, around, second, outcome, below);
    let moves = if run matches Some((_, Finish::Yield(_))) {
        first + 1 + second
    } else {
        first
    };
    lemma_onward(
        start,
        course.events,
        course.asked,
        1,
        next,
        course.events,
        course.asked,
        moves,
        outcome,
        below,
    );
    1 + moves
}

/// A `while` loop in the machine, from the run of its pipeline on, ends as
/// the loop does.
proof fn lemma_while(
    expression: Seq<char>,
    statements: Seq<StatementView>,
    course: Course,
    depth: nat,
    below: Seq<FrameView>,
) -> (moves: nat)
    requires
        ended(execute_while(expression, statements, course, depth)),
    ensures
        reaches(
            course.world.at(
                below.push(FrameView::While { expression, statements }),
                ControlView::Wait,
            ),
            course.events,
            course.asked.push(RequestView::RunPipeline(expression)),
            moves,
            execute_while(expression, statements, course, depth),
            below,
        ),
    decreases depth, 5nat,
{
    broadcast use lemma_push_pop;

    let outcome = execute_while(expression, statements, course, depth);
    let frame = FrameView::While { expression, statements };
    let around = below.push(frame);
    let start = course.world.at(around, ControlView::Wait);
    let request = RequestView::RunPipeline(expression);
    let (tested, reply) = course.ask(request).unwrap();
    let first = lemma_ask(course, request, around);
    let (next, _) = step(tested.world.at(around, ControlView::Wait), reply).unwrap();
    if reply->Pipeline_0 == Some(crate::machine::SUCCESS) {
        assert(next == tested.world.at(around, ControlView::Wait).execute_statements(statements).0);
        let second = lemma_statements(
            statements,
            tested,
            (depth - 1) as nat,
            around,
            ControlView::Wait,
        );
        let run = execute_statements(statements, tested, (depth - 1) as nat);
        let third = match run {
            Some((end, Finish::Yield(condition))) => {
                if condition.loop_exit() is Some {
                    reveal_with_fuel(drive, 1);
                    0
                } else {
                    let yielded = end.world.at(around, ControlView::Deliver(condition));
                    assert(step(yielded, ReplyView::Proceed).unwrap().0 == end.world.at(
                        around,
                        ControlView::Wait,
                    ));
                    lemma_while(expression, statements, end, (depth - 1) as nat, below)
                }
            },
            _ => 0,
        };
        lemma_around(next, tested.events, tested.asked, second, run, around, third, outcome, below);
        let moves = if run matches Some((_, Finish::Yield(_))) {
            second + 1 + third
        } else {
            second
        };
        lemma_onward(
            start,
            course.events,
            course.asked.push(request),
            first,
            next,
            tested.events,
            tested.asked,
            moves,
            outcome,
            below,
        );
        first + moves
    } else {
        first
    }
}

/// A `while` statement.
proof fn lemma_while_statement(
    expression: Seq<char>,
    statements: Seq<StatementView>,
    course: Course,
    depth: nat,
    below: Seq<FrameView>,
) -> (moves: nat)
    requires
        ended(execute_statement(StatementView::While { expression, statements }, course, depth)),
    ensures
        reaches(
            course.world.at(
                below,
                ControlView::Run(StatementView::While { expression, statements }),
            ),
            course.events,
            course.asked,
            moves,
            execute_statement(StatementView::While { expression, statements }, course, depth),
            below,
        ),
    decreases depth, 4nat,
{
    broadcast use lemma_push_pop;

    let statement = StatementView::While { expression, statements };
    let outcome = execute_statement(statement, course, depth);
    let start = course.world.at(below, ControlView::Run(statement));
    lemma_step(start, course.events, course.asked);
    let (next, request) = step(start, ReplyView::Proceed).unwrap();
    let around = below.push(FrameView::After(Wrapper::Loop));
    assert(next == course.world.at(
        around.push(FrameView::While { expression, statements }),
        ControlView::Wait,
    ));
    let first = lemma_while(expression, statements, course, (depth - 1) as nat, around);
    let run = execute_while(expression, statements, course, (depth - 1) as nat);
    let second = match run {
        Some((end, Finish::Yield(condition))) => lemma_pass_loop(
            end,
            condition,
            below,
            ControlView::Deliver(condition),
        ),
        _ => 0,
    };
    lemma_around(
        next,
        course.events,
        logged(course.asked, request),
        first,
        run,
        around,
        second,
        outcome,
        below,
    );
    let moves = if run matches Some((_, Finish::Yield(_))) {
        first + 1 + second
    } else {
        first
    };
    lemma_onward(
        start,
        course.events,
        course.asked,
        1,
        next,
        course.events,
        logged(course.asked, request),
        moves,
        outcome,
        below,
    );
    1 + moves
}

/// A `for` loop in the machine, from its next value on, ends as the loop
/// does.
proof fn lemma_for(
    variable: Seq<char>,
    statements: Seq<StatementView>,
    iter: ForIterView,
    course: Course,
    depth: nat,
    below: Seq<FrameView>,
    control: ControlView,
) -> (moves: nat)
    requires
        ended(execute_for(variable, statements, iter, course, depth)),
    ensures
        reaches(
            course.world.at(below, control).advance_for(variable, statements, iter).0,
            course.events,
            course.asked,
            moves,
            execute_for(variable, statements, iter, course, depth),
            below,
        ),
    decreases depth, 5nat,
{
    broadcast use lemma_push_pop;

    let outcome = execute_for(variable, statements, iter, course, depth);
    let start = course.world.at(below, control).advance_for(variable, statements, iter).0;
    let more = match iter {
        ForIterView::Items(items) => items.len() > 0,
        ForIterView::Range(next, end) => next < end,
        ForIterView::Waiting => false,
    };
    if more {
        let (value, rest) = match iter {
            ForIterView::Items(items) => (items[0], ForIterView::Items(items.drop_first())),
            ForIterView::Range(next, end) => (
                crate::text::decimal(next as int),
                ForIterView::Range((next + 1) as i64, end),
            ),
            ForIterView::Waiting => (Seq::empty(), iter),
        };
        let around = below.push(FrameView::For { variable, statements, iter: rest });
        let bound = course.with_world(course.world.bound(variable, value));
        assert(start == bound.world.at(around, control).execute_statements(statements).0);
        let first = lemma_statements(statements, bound, (depth - 1) as nat, around, control);
        let run = execute_statements(statements, bound, (depth - 1) as nat);
        let second = match run {
            Some((end, Finish::Yield(condition))) => {
                if condition.loop_exit() is Some {
                    reveal_with_fuel(drive, 1);
                    0
                } else {
                    lemma_for(
                        variable,
                        statements,
                        rest,
                        end,
                        (depth - 1) as nat,
                        below,
                        ControlView::Deliver(condition),
                    )
                }
            },
            _ => 0,
        };
        lemma_around(start, course.events, course.asked, first, run, around, second, outcome, below);
        if run matches Some((_, Finish::Yield(_))) {
            first + 1 + second
        } else {
            first
        }
    } else {
        reveal_with_fuel(drive, 1);
        0
    }
}

/// A `for` statement.
proof fn lemma_for_statement(
    variable: Seq<char>,
    values: Seq<Seq<char>>,
    statements: Seq<StatementView>,
    course: Course,
    depth: nat,
    below: Seq<FrameView>,
) -> (moves: nat)
    requires
        ended(
            execute_statement(StatementView::For { variable, values, statements }, course, depth),
        ),
    ensures
        reaches(
            course.world.at(
                below,
                ControlView::Run(StatementView::For { variable, values, statements }),
            ),
            course.events,
            course.asked,
            moves,
            execute_statement(StatementView::For { variable, values, statements }, course, depth),
            below,
        ),
    decreases depth, 4nat,
{
    broadcast use lemma_push_pop;

    let statement = StatementView::For { variable, values, statements };
    let outcome = execute_statement(statement, course, depth);
    let start = course.world.at(below, ControlView::Run(statement));
    lemma_step(start, course.events, course.asked);
    let (waiting, request) = step(start, ReplyView::Proceed).unwrap();
    let around = below.push(FrameView::After(Wrapper::Loop));
    let stack = around.push(FrameView::For { variable, statements, iter: ForIterView::Waiting });
    assert(waiting == course.world.at(stack, ControlView::Wait));
    let (expanded, reply) = course.ask(request).unwrap();
    let iter = crate::machine::iteration(reply->Values_0);
    let first = lemma_ask(course, request, stack);
    let (next, _) = step(expanded.world.at(stack, ControlView::Wait), reply).unwrap();
    assert(next == expanded.world.at(around, ControlView::Wait).advance_for(
        variable,
        statements,
        iter,
    ).0);
    let second = lemma_for(
        variable,
        statements,
        iter,
        expanded,
        (depth - 1) as nat,
        around,
        ControlView::Wait,
    );
    let run = execute_for(variable, statements, iter, expanded, (depth - 1) as nat);
    let third = match run {
        Some((end, Finish::Yield(condition))) => lemma_pass_loop(
            end,
            condition,
            below,
            ControlView::Deliver(condition),
        ),
        _ => 0,
    };
    lemma_around(next, expanded.events, expanded.asked, second, run, around, third, outcome, below);
    let moves = if run matches Some((_, Finish::Yield(_))) {
        second + 1 + third
    } else {
        second
    };
    lemma_onward(
        waiting,
        course.events,
        course.asked.push(request),
        first,
        next,
        expanded.events,
        expanded.asked,
        moves,
        outcome,
        below,
    );
    lemma_onward(
        start,
        course.events,
        course.asked,
        1,
        waiting,
        course.events,
        course.asked.push(request),
        first + moves,
        outcome,
        below,
    );
    1 + (first + moves)
}

/// The body of a case in the machine ends as the body does.
proof fn lemma_body(
    is_array: bool,
    subject: Seq<Seq<char>>,
    cases: Seq<CaseView>,
    saved: Option<crate::variables::ValueView>,
    course: Course,
    depth: nat,
    below: Seq<FrameView>,
    control: ControlView,
) -> (moves: nat)
    requires
        cases.len() > 0,
        ended(execute_body(cases[0], saved, course, depth)),
    ensures
        reaches(
            course.world.at(
                below.push(
                    FrameView::Match { is_array, subject, cases, stage: MatchStage::Body, saved },
                ),
                control,
            ).execute_statements(cases[0].body).0,
            course.events,
            course.asked,
            moves,
            execute_body(cases[0], saved, course, depth),
            below,
        ),
    decreases depth, 5nat,
{
    broadcast use lemma_push_pop;

    let outcome = execute_body(cases[0], saved, course, depth);
    let around = below.push(
        FrameView::Match { is_array, subject, cases, stage: MatchStage::Body, saved },
    );
    let start = course.world.at(around, control).execute_statements(cases[0].body).0;
    let first = lemma_statements(cases[0].body, course, (depth - 1) as nat, around, control);
    let run = execute_statements(cases[0].body, course, (depth - 1) as nat);
    reveal_with_fuel(drive, 1);
    lemma_around(start, course.events, course.asked, first, run, around, 0, outcome, below);
    if run matches Some((_, Finish::Yield(_))) {
        first + 1 + 0
    } else {
        first
    }
}

/// Where the machine is when the statements of a command line have come
/// to `outcome`: where they have yielded, it turns to what is behind the
/// last statement.
pub open spec fn command_reaches(
    start: State,
    events: Seq<Move>,
    asked: Seq<RequestView>,
    moves: nat,
    outcome: Option<(Course, Finish)>,
    below: Seq<FrameView>,
    control: ControlView,
    diagnostic: Option<Seq<char>>,
) -> bool {
    match outcome {
        Some((end, Finish::Yield(_))) => drive(start, events, asked, moves) == (
            end.world.at(below, control).advance_command(Seq::empty(), diagnostic).0,
            end.events,
            logged(
                end.asked,
                end.world.at(below, control).advance_command(Seq::empty(), diagnostic).1,
            ),
        ),
        Some((end, Finish::Exit(code))) => halted(drive(start, events, asked, moves), end, code),
        None => false,
    }
}

/// The statements of a command line in the machine end as they do in the
/// command line.
proof fn lemma_run_command(
    statements: Seq<StatementView>,
    diagnostic: Option<Seq<char>>,
    course: Course,
    depth: nat,
    below: Seq<FrameView>,
    control: ControlView,
) -> (moves: nat)
    requires
        ended(run_command(statements, course, depth)),
    ensures
        command_reaches(
            course.world.at(below, control).advance_command(statements, diagnostic).0,
            course.events,
            logged(
                course.asked,
                course.world.at(below, control).advance_command(statements, diagnostic).1,
            ),
            moves,
            run_command(statements, course, depth),
            below,
            control,
            diagnostic,
        ),
    decreases depth, 4nat,
{
    broadcast use lemma_push_pop;

    let (start, request) = course.world.at(below, control).advance_command(statements, diagnostic);
    if statements.len() == 0 {
        reveal_with_fuel(drive, 1);
        assert(statements =~= Seq::empty());
        0
    } else {
        let around = below.push(
            FrameView::Command {
                rest: statements.drop_first(),
                diagnostic,
                stage: CommandStage::Running,
            },
        );
        assert(start == course.world.at(around, ControlView::Run(statements[0])));
        let first = lemma_statement(statements[0], course, (depth - 1) as nat, around);
        let run = execute_statement(statements[0], course, (depth - 1) as nat);
        match run {
            Some((end, Finish::Yield(condition))) => {
                let yielded = end.world.at(around, ControlView::Deliver(condition));
                lemma_step(yielded, end.events, end.asked);
                let (next, asking) = step(yielded, ReplyView::Proceed).unwrap();
                assert((next, asking) == end.world.at(below, control).advance_command(
                    statements.drop_first(),
                    diagnostic,
                ));
                let second = lemma_run_command(
                    statements.drop_first(),
                    diagnostic,
                    end,
                    (depth - 1) as nat,
                    below,
                    control,
                );
                lemma_join(start, course.events, course.asked, first, yielded, end.events, end.asked, 1);
                lemma_join(
                    start,
                    course.events,
                    course.asked,
                    first + 1,
                    next,
                    end.events,
                    logged(end.asked, asking),
                    second,
                );
                first + 1 + second
            },
            _ => first,
        }
    }
}

/// Where the machine is when a command line has come to `outcome`: where
/// it has yielded, the machine has left the command line.
pub open spec fn line_reaches(
    start: State,
    events: Seq<Move>,
    asked: Seq<RequestView>,
    moves: nat,
    outcome: Option<(Course, Finish)>,
    below: Seq<FrameView>,
) -> bool {
    match outcome {
        Some((end, Finish::Yield(_))) => drive(start, events, asked, moves) == (
            end.world.at(below, ControlView::Idle).leave_command().0,
            end.events,
            end.asked,
        ),
        Some((end, Finish::Exit(code))) => halted(drive(start, events, asked, moves), end, code),
        None => false,
    }
}

/// A command line in the machine, from its parsing on, ends as the command
/// line does.
proof fn lemma_command(line: Seq<char>, course: Course, depth: nat, below: Seq<FrameView>) -> (moves:
    nat)
    requires
        ended(on_command(line, course, depth)),
    ensures
        line_reaches(
            course.world.at(below, ControlView::Idle).on_command(line).0,
            course.events,
            course.asked.push(RequestView::Parse(line)),
            moves,
            on_command(line, course, depth),
            below,
        ),
    decreases depth, 5nat,
{
    broadcast use lemma_push_pop;

    let cleared = course.with_world(World { break_flow: false, ..course.world });
    let stack = below.push(
        FrameView::Command { rest: Seq::empty(), diagnostic: None, stage: CommandStage::Parsing },
    );
    let start = course.world.at(below, ControlView::Idle).on_command(line).0;
    assert(start == cleared.world.at(stack, ControlView::Wait));
    let request = RequestView::Parse(line);
    let (parsed, reply) = cleared.ask(request).unwrap();
    let first = lemma_ask(cleared, request, stack);
    let statements = reply->Parsed_statements;
    let diagnostic = reply->Parsed_diagnostic;
    let (next, asking) = step(parsed.world.at(stack, ControlView::Wait), reply).unwrap();
    assert((next, asking) == parsed.world.at(below, ControlView::Wait).advance_command(
        statements,
        diagnostic,
    ));
    let second = lemma_run_command(
        statements,
        diagnostic,
        parsed,
        (depth - 1) as nat,
        below,
        ControlView::Wait,
    );
    lemma_join(
        start,
        course.events,
        course.asked.push(request),
        first,
        next,
        parsed.events,
        logged(parsed.asked, asking),
        second,
    );
    match run_command(statements, parsed, (depth - 1) as nat) {
        Some((ended, Finish::Yield(_))) => {
            let (last, closing) = ended.world.at(below, ControlView::Wait).advance_command(
                Seq::empty(),
                diagnostic,
            );
            match diagnostic {
                Some(message) => {
                    let reporting = below.push(
                        FrameView::Command {
                            rest: Seq::empty(),
                            diagnostic: None,
                            stage: CommandStage::Reporting,
                        },
                    );
                    assert(last == ended.world.at(reporting, ControlView::Wait));
                    let third = lemma_ask(ended, RequestView::Report(message), reporting);
                    lemma_join(
                        start,
                        course.events,
                        course.asked.push(request),
                        first + second,
                        last,
                        ended.events,
                        ended.asked.push(RequestView::Report(message)),
                        third,
                    );
                    first + second + third
                },
                None => first + second,
            }
        },
        _ => first + second,
    }
}

/// A case that matches is taken in the machine as it is in the `match`.
proof fn lemma_take_case(
    is_array: bool,
    subject: Seq<Seq<char>>,
    cases: Seq<CaseView>,
    course: Course,
    depth: nat,
    below: Seq<FrameView>,
    control: ControlView,
) -> (moves: nat)
    requires
        ended(take_case(is_array, subject, cases, course, depth)),
    ensures
        reaches(
            course.world.at(below, control).take_case(is_array, subject, cases).0,
            course.events,
            logged(course.asked, course.world.at(below, control).take_case(is_array, subject, cases).1),
            moves,
            take_case(is_array, subject, cases, course, depth),
            below,
        ),
    decreases depth, 6nat,
{
    broadcast use lemma_push_pop;

    let outcome = take_case(is_array, subject, cases, course, depth);
    let case = cases[0];
    let saved = match case.binding {
        Some(name) => course.world.previous(is_array, name),
        None => None,
    };
    let bound = match case.binding {
        Some(name) => course.with_world(
            course.world.set(name, State::binding_value(is_array, subject)),
        ),
        None => course,
    };
    let (start, request) = course.world.at(below, control).take_case(is_array, subject, cases);
    match case.guard {
        Some(guard) => {
            let around = below.push(
                FrameView::Match { is_array, subject, cases, stage: MatchStage::Guard, saved },
            );
            assert(start == bound.world.at(around, ControlView::Idle).on_command(guard).0);
            let first = lemma_command(guard, bound, (depth - 1) as nat, around);
            match on_command(guard, bound, (depth - 1) as nat) {
                Some((guarded, Finish::Yield(_))) => {
                    let yielded = guarded.world.at(around, ControlView::Deliver(Condition::NoOp));
                    assert(yielded == guarded.world.at(around, ControlView::Idle).leave_command().0);
                    lemma_step(yielded, guarded.events, guarded.asked);
                    let (next, asking) = step(yielded, ReplyView::Proceed).unwrap();
                    lemma_join(
                        start,
                        course.events,
                        logged(course.asked, request),
                        first,
                        yielded,
                        guarded.events,
                        guarded.asked,
                        1,
                    );
                    let second = if guarded.world.status != crate::machine::SUCCESS {
                        let restored = guarded.with_world(
                            guarded.world.restored(case.binding, saved),
                        );
                        assert((next, asking) == restored.world.at(
                            below,
                            ControlView::Deliver(Condition::NoOp),
                        ).advance_match(is_array, subject, cases.drop_first()));
                        lemma_match(
                            is_array,
                            subject,
                            cases.drop_first(),
                            restored,
                            (depth - 1) as nat,
                            below,
                            ControlView::Deliver(Condition::NoOp),
                        )
                    } else {
                        lemma_body(
                            is_array,
                            subject,
                            cases,
                            saved,
                            guarded,
                            (depth - 1) as nat,
                            below,
                            ControlView::Deliver(Condition::NoOp),
                        )
                    };
                    lemma_onward(
                        start,
                        course.events,
                        logged(course.asked, request),
                        first + 1,
                        next,
                        guarded.events,
                        logged(guarded.asked, asking),
                        second,
                        outcome,
                        below,
                    );
                    first + 1 + second
                },
                _ => first,
            }
        },
        None => lemma_body(is_array, subject, cases, saved, bound, (depth - 1) as nat, below, control),
    }
}

/// A `match` in the machine, from its first case on, ends as the `match`
/// does.
proof fn lemma_match(
    is_array: bool,
    subject: Seq<Seq<char>>,
    cases: Seq<CaseView>,
    course: Course,
    depth: nat,
    below: Seq<FrameView>,
    control: ControlView,
) -> (moves: nat)
    requires
        ended(execute_match(is_array, subject, cases, course, depth)),
    ensures
        reaches(
            course.world.at(below, control).advance_match(is_array, subject, cases).0,
            course.events,
            logged(
                course.asked,
                course.world.at(below, control).advance_match(is_array, subject, cases).1,
            ),
            moves,
            execute_match(is_array, subject, cases, course, depth),
            below,
        ),
    decreases depth, 7nat,
{
    broadcast use lemma_push_pop;

    let outcome = execute_match(is_array, subject, cases, course, depth);
    let (start, request) = course.world.at(below, control).advance_match(is_array, subject, cases);
    if cases.len() == 0 {
        reveal_with_fuel(drive, 1);
        0
    } else {
        match cases[0].patterns {
            None => lemma_take_case(
                is_array,
                subject,
                cases,
                course,
                (depth - 1) as nat,
                below,
                control,
            ),
            Some(patterns) => {
                let around = below.push(
                    FrameView::Match {
                        is_array,
                        subject,
                        cases,
                        stage: MatchStage::Patterns,
                        saved: None,
                    },
                );
                assert(start == course.world.at(around, ControlView::Wait));
                let (expanded, reply) = course.ask(RequestView::ExpandPatterns(patterns)).unwrap();
                let values = reply->Expanded_0;
                let first = lemma_ask(course, RequestView::ExpandPatterns(patterns), around);
                let (next, asking) = step(expanded.world.at(around, ControlView::Wait), reply).unwrap();
                let second = if crate::text::overlapping(values, subject) {
                    assert((next, asking) == expanded.world.at(
                        below,
                        ControlView::Wait,
                    ).take_case(is_array, subject, cases));
                    lemma_take_case(
                        is_array,
                        subject,
                        cases,
                        expanded,
                        (depth - 1) as nat,
                        below,
                        ControlView::Wait,
                    )
                } else {
                    assert((next, asking) == expanded.world.at(
                        below,
                        ControlView::Wait,
                    ).advance_match(is_array, subject, cases.drop_first()));
                    lemma_match(
                        is_array,
                        subject,
                        cases.drop_first(),
                        expanded,
                        (depth - 1) as nat,
                        below,
                        ControlView::Wait,
                    )
                };
                lemma_onward(
                    start,
                    course.events,
                    logged(course.asked, request),
                    first,
                    next,
                    expanded.events,
                    logged(expanded.asked, asking),
                    second,
                    outcome,
                    below,
                );
                first + second
            },
        }
    }
}

/// A `match` statement.
proof fn lemma_match_statement(
    expression: Seq<char>,
    cases: Seq<CaseView>,
    course: Course,
    depth: nat,
    below: Seq<FrameView>,
) -> (moves: nat)
    requires
        ended(execute_statement(StatementView::Match { expression, cases }, course, depth)),
    ensures
        reaches(
            course.world.at(below, ControlView::Run(StatementView::Match { expression, cases })),
            course.events,
            course.asked,
            moves,
            execute_statement(StatementView::Match { expression, cases }, course, depth),
            below,
        ),
    decreases depth, 4nat,
{
    broadcast use lemma_push_pop;

    let statement = StatementView::Match { expression, cases };
    let outcome = execute_statement(statement, course, depth);
    let start = course.world.at(below, ControlView::Run(statement));
    lemma_step(start, course.events, course.asked);
    let (waiting, request) = step(start, ReplyView::Proceed).unwrap();
    let around = below.push(FrameView::After(Wrapper::Compound));
    let stack = around.push(
        FrameView::Match {
            is_array: false,
            subject: Seq::empty(),
            cases,
            stage: MatchStage::Subject,
            saved: None,
        },
    );
    assert(waiting == course.world.at(stack, ControlView::Wait));
    let (expanded, reply) = course.ask(request).unwrap();
    let is_array = reply->Subject_is_array;
    let subject = reply->Subject_values;
    let first = lemma_ask(course, request, stack);
    let (next, asking) = step(expanded.world.at(stack, ControlView::Wait), reply).unwrap();
    assert((next, asking) == expanded.world.at(around, ControlView::Wait).advance_match(
        is_array,
        subject,
        cases,
    ));
    let second = lemma_match(
        is_array,
        subject,
        cases,
        expanded,
        (depth - 1) as nat,
        around,
        ControlView::Wait,
    );
    let run = execute_match(is_array, subject, cases, expanded, (depth - 1) as nat);
    let third = match run {
        Some((end, Finish::Yield(condition))) => lemma_pass(
            end,
            condition,
            below,
            ControlView::Deliver(condition),
        ),
        _ => 0,
    };
    lemma_around(
        next,
        expanded.events,
        logged(expanded.asked, asking),
        second,
        run,
        around,
        third,
        outcome,
        below,
    );
    let moves = if run matches Some((_, Finish::Yield(_))) {
        second + 1 + third
    } else {
        second
    };
    lemma_onward(
        waiting,
        course.events,
        course.asked.push(request),
        first,
        next,
        expanded.events,
        logged(expanded.asked, asking),
        moves,
        outcome,
        below,
    );
    lemma_onward(
        start,
        course.events,
        course.asked,
        1,
        waiting,
        course.events,
        course.asked.push(request),
        first + moves,
        outcome,
        below,
    );
    1 + (first + moves)
}

/// Adequacy, for a statement. Whatever frames are under way, a machine
/// that is about to execute a statement and is driven far enough ends
/// where the statement ends: if the statement yields, the machine has the
/// condition for the frames that were under way, in the world in which the
/// statement ended; if the statement ends the process, the machine has
/// halted with the same status in the same world. Either way the driver
/// has been asked what the statement asks, in the same order, and has the
/// same moves left.
pub proof fn statement_is_executed(
    statement: StatementView,
    course: Course,
    depth: nat,
    below: Seq<FrameView>,
) -> (moves: nat)
    requires
        execute_statement(statement, course, depth) is Some,
    ensures
        reaches(
            course.world.at(below, ControlView::Run(statement)),
            course.events,
            course.asked,
            moves,
            execute_statement(statement, course, depth),
            below,
        ),
{
    lemma_statement(statement, course, depth, below)
}

/// Adequacy, for a block. A machine that has just entered a block and is
/// driven far enough ends where the block ends.
pub proof fn block_is_executed(
    statements: Seq<StatementView>,
    course: Course,
    depth: nat,
    below: Seq<FrameView>,
    control: ControlView,
) -> (moves: nat)
    requires
        execute_statements(statements, course, depth) is Some,
    ensures
        reaches(
            course.world.at(below, control).execute_statements(statements).0,
            course.events,
            course.asked,
            moves,
            execute_statements(statements, course, depth),
            below,
        ),
{
    lemma_statements(statements, course, depth, below, control)
}

/// Adequacy, for a command line. A machine that is idle, takes up a command
/// line and is driven far enough ends where the command line ends: if the
/// command line comes to its end, the machine is idle again, in the world
/// in which the command line ended; if the command line ends the process,
/// the machine has halted with the same status in the same world. Either
/// way the driver has been asked what the command line asks, in the same
/// order, and has the same moves left.
pub proof fn command_line_is_executed(line: Seq<char>, course: Course, depth: nat) -> (moves: nat)
    requires
        on_command(line, course, depth) is Some,
    ensures
        match on_command(line, course, depth) {
            Some((end, Finish::Yield(_))) => drive(
                course.world.at(Seq::empty(), ControlView::Idle).on_command(line).0,
                course.events,
                course.asked.push(RequestView::Parse(line)),
                moves,
            ) == (end.world.at(Seq::empty(), ControlView::Idle), end.events, end.asked),
            Some((end, Finish::Exit(code))) => halted(
                drive(
                    course.world.at(Seq::empty(), ControlView::Idle).on_command(line).0,
                    course.events,
                    course.asked.push(RequestView::Parse(line)),
                    moves,
                ),
                end,
                code,
            ),
            None => false,
        },
{
    lemma_command(line, course, depth, Seq::empty())
}

} // verus!
