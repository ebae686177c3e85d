//! What executing a statement comes to.
//!
//! The machine in [`crate::machine`] says what the executor does next. The
//! functions here say what a whole statement does: given the state of the
//! shell and what the driver is going to do, in order, they give the state
//! in which the statement ends, what it yields, and what it has asked of
//! the driver on the way. [`crate::adequacy`] proves that the machine, run
//! on the same moves of the driver, comes to the same end.
//!
//! Each function takes a number of nested executions that it may go
//! through; where that number, or what the driver does, does not suffice
//! for the statement to end, or where the driver gives an answer that was
//! not asked for, the result is `None`.

use crate::condition::Condition;
use crate::machine::{
    after, errexit, inverted, iteration, step, ControlView, Delivery, ForIterView, Move,
    ReplyView, RequestView, State, World, FAILURE, SUCCESS,
};
use crate::statement::{CaseView, ElseIfView, StatementView};
use crate::text::{decimal, overlapping};
use crate::variables::{opened, FunctionView, ValueView};
use vstd::prelude::*;

verus! {

/// How an execution ends.
pub enum Finish {
    /// With a condition for the construct around it.
    Yield(Condition),
    /// With the end of the process.
    Exit(i32),
}

/// An execution at one moment: what the shell remembers, what the driver is
/// going to do from now on, and what has been asked of it so far.
pub struct Course {
    pub world: World,
    pub events: Seq<Move>,
    pub asked: Seq<RequestView>,
}

/// The requests that have been made once `request` has been: the ones that
/// ask something of the driver are kept in order.
pub open spec fn logged(asked: Seq<RequestView>, request: RequestView) -> Seq<RequestView> {
    match request {
        RequestView::Proceed => asked,
        RequestView::Finished => asked,
        RequestView::Exit(_) => asked,
        _ => asked.push(request),
    }
}

impl Course {
    /// The execution in another world.
    pub open spec fn with_world(self, world: World) -> Course {
        Course { world, ..self }
    }

    /// The driver does what it does before it answers, and answers.
    pub open spec fn settle(self) -> Option<(Course, ReplyView)>
        decreases self.events.len(),
    {
        if self.events.len() == 0 {
            None
        } else {
            match self.events[0] {
                Move::Step(reply) => Some((Course { events: self.events.drop_first(), ..self }, reply)),
                other => Course {
                    world: self.world.moved(other),
                    events: self.events.drop_first(),
                    ..self
                }.settle(),
            }
        }
    }

    /// The driver is asked for `request`, and answers.
    pub open spec fn ask(self, request: RequestView) -> Option<(Course, ReplyView)> {
        Course { asked: self.asked.push(request), ..self }.settle()
    }

    /// A statement that has done its work yields what the signals decide.
    pub open spec fn probe(self) -> Option<(Course, Finish)> {
        match self.ask(RequestView::PollSignal) {
            Some((course, ReplyView::Signal(signal))) => Some(course.decide(signal)),
            _ => None,
        }
    }

    /// What a statement yields by the signal that was pending: a terminal
    /// signal ends the process, another one interrupts, and so does the
    /// interrupt latch, which is cleared by that.
    pub open spec fn decide(self, signal: Option<Delivery>) -> (Course, Finish) {
        match signal {
            Some(delivery) => if delivery.terminal {
                (self, Finish::Exit(delivery.code))
            } else {
                (self, Finish::Yield(Condition::SigInt))
            },
            None => if self.world.break_flow {
                (
                    self.with_world(World { break_flow: false, ..self.world }),
                    Finish::Yield(Condition::SigInt),
                )
            } else {
                (self, Finish::Yield(Condition::NoOp))
            },
        }
    }

    /// A statement around a construct goes on after the construct: where
    /// the construct yielded nothing the statement has done its work, else
    /// it ends as the construct did.
    pub open spec fn pass(self, finish: Finish) -> Option<(Course, Finish)> {
        match finish {
            Finish::Yield(Condition::NoOp) => self.probe(),
            other => Some((self, other)),
        }
    }

    /// A statement around a loop goes on after the loop: an interrupt gets
    /// through, after anything else the statement has done its work.
    pub open spec fn pass_loop(self, finish: Finish) -> Option<(Course, Finish)> {
        match finish {
            Finish::Yield(Condition::SigInt) => Some((self, finish)),
            Finish::Yield(_) => self.probe(),
            Finish::Exit(_) => Some((self, finish)),
        }
    }
}

/// What a statement comes to.
pub open spec fn execute_statement(statement: StatementView, course: Course, depth: nat) -> Option<
    (Course, Finish),
>
    decreases depth, 0nat,
{
    if depth == 0 {
        None
    } else {
        let world = course.world;
        match statement {
            StatementView::Error(number) => course.with_world(world.with_status(number)).probe(),
            StatementView::Let(action) => match course.ask(
                RequestView::Assign { export: false, action },
            ) {
                Some((course, ReplyView::Status(status))) => course.with_world(
                    course.world.with_status(status).mirrored(),
                ).probe(),
                _ => None,
            },
            StatementView::Export(action) => match course.ask(
                RequestView::Assign { export: true, action },
            ) {
                Some((course, ReplyView::Status(status))) => course.with_world(
                    course.world.with_status(status).mirrored(),
                ).probe(),
                _ => None,
            },
            StatementView::Pipeline(pipeline) => match course.ask(
                RequestView::RunPipeline(pipeline),
            ) {
                Some((course, ReplyView::Pipeline(_))) => if errexit(course.world.flags)
                    && course.world.status != SUCCESS {
                    Some((course, Finish::Exit(course.world.status)))
                } else {
                    course.probe()
                },
                _ => None,
            },
            StatementView::If { expression, success, else_if, failure } => match execute_if(
                *expression,
                success,
                else_if,
                failure,
                course,
                (depth - 1) as nat,
            ) {
                Some((course, finish)) => course.pass(finish),
                None => None,
            },
            StatementView::While { expression, statements } => match execute_while(
                expression,
                statements,
                course,
                (depth - 1) as nat,
            ) {
                Some((course, finish)) => course.pass_loop(finish),
                None => None,
            },
            StatementView::For { variable, values, statements } => match course.ask(
                RequestView::ExpandFor(values),
            ) {
                Some((course, ReplyView::Values(values))) => match execute_for(
                    variable,
                    statements,
                    iteration(values),
                    course,
                    (depth - 1) as nat,
                ) {
                    Some((course, finish)) => course.pass_loop(finish),
                    None => None,
                },
                _ => None,
            },
            StatementView::Match { expression, cases } => match course.ask(
                RequestView::ExpandSubject(expression),
            ) {
                Some((course, ReplyView::Subject { is_array, values })) => match execute_match(
                    is_array,
                    values,
                    cases,
                    course,
                    (depth - 1) as nat,
                ) {
                    Some((course, finish)) => course.pass(finish),
                    None => None,
                },
                _ => None,
            },
            StatementView::Function { name, args, statements, description } => course.with_world(
                world.set(
                    name,
                    ValueView::Function(FunctionView { description, name, args, statements }),
                ),
            ).probe(),
            StatementView::Time(inner) => match course.ask(RequestView::ReadClock) {
                Some((course, ReplyView::Clock(start))) => if start.valid() {
                    match execute_statement(*inner, course, (depth - 1) as nat) {
                        Some((course, Finish::Yield(condition))) => match course.ask(
                            RequestView::ReadClock,
                        ) {
                            Some((course, ReplyView::Clock(now))) => if now.valid() {
                                match course.ask(RequestView::Print(start.until(now).line())) {
                                    Some((course, ReplyView::Proceed)) => course.pass(
                                        Finish::Yield(condition),
                                    ),
                                    _ => None,
                                }
                            } else {
                                None
                            },
                            _ => None,
                        },
                        other => other,
                    }
                } else {
                    None
                },
                _ => None,
            },
            StatementView::And(inner) => if world.status == SUCCESS {
                match execute_statement(*inner, course, (depth - 1) as nat) {
                    Some((course, finish)) => course.pass(finish),
                    None => None,
                }
            } else {
                course.probe()
            },
            StatementView::Or(inner) => if world.status == FAILURE {
                match execute_statement(*inner, course, (depth - 1) as nat) {
                    Some((course, finish)) => course.pass(finish),
                    None => None,
                }
            } else {
                course.probe()
            },
            StatementView::Not(inner) => match execute_statement(*inner, course, (depth - 1) as nat) {
                Some((course, Finish::Yield(_))) => course.with_world(
                    course.world.with_status(inverted(course.world.status)).mirrored(),
                ).probe(),
                other => other,
            },
            StatementView::Break => Some((course, Finish::Yield(Condition::Break))),
            StatementView::Continue => Some((course, Finish::Yield(Condition::Continue))),
            StatementView::Default => course.probe(),
        }
    }
}

/// What the statements of a block come to, one after the other: the first
/// that does not yield [`Condition::NoOp`] ends them.
pub open spec fn run_statements(statements: Seq<StatementView>, course: Course, depth: nat) -> Option<
    (Course, Finish),
>
    decreases depth, 1nat,
{
    if depth == 0 {
        None
    } else if statements.len() == 0 {
        Some((course, Finish::Yield(Condition::NoOp)))
    } else {
        match execute_statement(statements[0], course, (depth - 1) as nat) {
            Some((course, Finish::Yield(Condition::NoOp))) => run_statements(
                statements.drop_first(),
                course,
                (depth - 1) as nat,
            ),
            other => other,
        }
    }
}

/// What a block comes to: its statements are executed in a scope of their
/// own, which is closed when they have yielded.
pub open spec fn execute_statements(statements: Seq<StatementView>, course: Course, depth: nat) -> Option<
    (Course, Finish),
>
    decreases depth, 2nat,
{
    if depth == 0 {
        None
    } else {
        let inside = course.with_world(
            World { scopes: opened(course.world.scopes, false), ..course.world },
        );
        match run_statements(statements, inside, (depth - 1) as nat) {
            Some((course, Finish::Yield(condition))) => Some(
                (
                    course.with_world(
                        World { scopes: course.world.scopes.drop_last(), ..course.world },
                    ),
                    Finish::Yield(condition),
                ),
            ),
            other => other,
        }
    }
}

/// What an `if` comes to: the conditions of its arms are executed in order
/// until one leaves the status of a success, and the body of that arm is
/// executed; without such an arm the `else` body is. An interrupt in a
/// condition ends it.
pub open spec fn execute_if(
    expression: StatementView,
    success: Seq<StatementView>,
    else_if: Seq<ElseIfView>,
    failure: Seq<StatementView>,
    course: Course,
    depth: nat,
) -> Option<(Course, Finish)>
    decreases depth, 3nat,
{
    if depth == 0 {
        None
    } else {
        match execute_statements(seq![expression], course, (depth - 1) as nat) {
            Some((course, Finish::Yield(Condition::SigInt))) => Some(
                (course, Finish::Yield(Condition::SigInt)),
            ),
            Some((course, Finish::Yield(_))) => if course.world.status == SUCCESS {
                execute_statements(success, course, (depth - 1) as nat)
            } else if else_if.len() > 0 {
                execute_if(
                    else_if[0].expression,
                    else_if[0].success,
                    else_if.drop_first(),
                    failure,
                    course,
                    (depth - 1) as nat,
                )
            } else {
                execute_statements(failure, course, (depth - 1) as nat)
            },
            other => other,
        }
    }
}

/// What a `while` loop comes to: as long as its pipeline returns success
/// its body is executed; `break` ends the loop, an interrupt ends it and is
/// passed on.
pub open spec fn execute_while(
    expression: Seq<char>,
    statements: Seq<StatementView>,
    course: Course,
    depth: nat,
) -> Option<(Course, Finish)>
    decreases depth, 3nat,
{
    if depth == 0 {
        None
    } else {
        match course.ask(RequestView::RunPipeline(expression)) {
            Some((course, ReplyView::Pipeline(returned))) => if returned == Some(SUCCESS) {
                match execute_statements(statements, course, (depth - 1) as nat) {
                    Some((course, Finish::Yield(condition))) => match condition.loop_exit() {
                        Some(exit) => Some((course, Finish::Yield(exit))),
                        None => execute_while(expression, statements, course, (depth - 1) as nat),
                    },
                    other => other,
                }
            } else {
                Some((course, Finish::Yield(Condition::NoOp)))
            },
            _ => None,
        }
    }
}

/// What a `for` loop comes to, once its words are expanded: for each value
/// in turn the variable is bound, unless its name is `_`, and the body is
/// executed; `break` ends the loop, an interrupt ends it and is passed on.
pub open spec fn execute_for(
    variable: Seq<char>,
    statements: Seq<StatementView>,
    iter: ForIterView,
    course: Course,
    depth: nat,
) -> Option<(Course, Finish)>
    decreases depth, 3nat,
{
    if depth == 0 {
        None
    } else {
        match iter {
            ForIterView::Items(items) if items.len() > 0 => match execute_statements(
                statements,
                course.with_world(course.world.bound(variable, items[0])),
                (depth - 1) as nat,
            ) {
                Some((course, Finish::Yield(condition))) => match condition.loop_exit() {
                    Some(exit) => Some((course, Finish::Yield(exit))),
                    None => execute_for(
                        variable,
                        statements,
                        ForIterView::Items(items.drop_first()),
                        course,
                        (depth - 1) as nat,
                    ),
                },
                other => other,
            },
            ForIterView::Range(next, end) if next < end => match execute_statements(
                statements,
                course.with_world(course.world.bound(variable, decimal(next as int))),
                (depth - 1) as nat,
            ) {
                Some((course, Finish::Yield(condition))) => match condition.loop_exit() {
                    Some(exit) => Some((course, Finish::Yield(exit))),
                    None => execute_for(
                        variable,
                        statements,
                        ForIterView::Range((next + 1) as i64, end),
                        course,
                        (depth - 1) as nat,
                    ),
                },
                other => other,
            },
            _ => Some((course, Finish::Yield(Condition::NoOp))),
        }
    }
}

/// What a `match` comes to, once its subject is expanded: the cases are
/// looked at in order. A case without patterns matches; another one
/// matches if some member of what its patterns expand to is a member of
/// the subject. The first case that matches, and whose guard succeeds if
/// it has one, has its body executed, and no other.
pub open spec fn execute_match(
    is_array: bool,
    subject: Seq<Seq<char>>,
    cases: Seq<CaseView>,
    course: Course,
    depth: nat,
) -> Option<(Course, Finish)>
    decreases depth, 3nat,
{
    if depth == 0 {
        None
    } else if cases.len() == 0 {
        Some((course, Finish::Yield(Condition::NoOp)))
    } else {
        match cases[0].patterns {
            None => take_case(is_array, subject, cases, course, (depth - 1) as nat),
            Some(patterns) => match course.ask(RequestView::ExpandPatterns(patterns)) {
                Some((course, ReplyView::Expanded(values))) => if overlapping(values, subject) {
                    take_case(is_array, subject, cases, course, (depth - 1) as nat)
                } else {
                    execute_match(
                        is_array,
                        subject,
                        cases.drop_first(),
                        course,
                        (depth - 1) as nat,
                    )
                },
                _ => None,
            },
        }
    }
}

/// What a case that matches comes to: the subject is bound to the binding
/// of the case, and the guard is executed as a command line of its own.
/// After a guard that fails the binding is undone and the cases behind are
/// looked at. Else the body is executed, and the binding is undone when it
/// has yielded.
pub open spec fn take_case(
    is_array: bool,
    subject: Seq<Seq<char>>,
    cases: Seq<CaseView>,
    course: Course,
    depth: nat,
) -> Option<(Course, Finish)>
    decreases depth, 2nat,
{
    if depth == 0 || cases.len() == 0 {
        None
    } else {
        let case = cases[0];
        let saved = match case.binding {
            Some(name) => course.world.previous(is_array, name),
            None => None,
        };
        let bound = match case.binding {
            Some(name) => course.with_world(
                course.world.set(name, State::binding_value(is_array, subject)),
            ),
            None => course,
        };
        match case.guard {
            Some(guard) => match on_command(guard, bound, (depth - 1) as nat) {
                Some((course, Finish::Yield(_))) => if course.world.status != SUCCESS {
                    execute_match(
                        is_array,
                        subject,
                        cases.drop_first(),
                        course.with_world(course.world.restored(case.binding, saved)),
                        (depth - 1) as nat,
                    )
                } else {
                    execute_body(case, saved, course, (depth - 1) as nat)
                },
                other => other,
            },
            None => execute_body(case, saved, bound, (depth - 1) as nat),
        }
    }
}

/// What the body of a case comes to: when it has yielded, the binding of
/// the case is given back what it held before.
pub open spec fn execute_body(case: CaseView, saved: Option<ValueView>, course: Course, depth: nat) -> Option<
    (Course, Finish),
>
    decreases depth, 1nat,
{
    if depth == 0 {
        None
    } else {
        match execute_statements(case.body, course, (depth - 1) as nat) {
            Some((course, Finish::Yield(condition))) => Some(
                (
                    course.with_world(course.world.restored(case.binding, saved)),
                    Finish::Yield(condition),
                ),
            ),
            other => other,
        }
    }
}

/// What the statements of a command line come to, one after the other:
/// what a statement yields is dropped.
pub open spec fn run_command(statements: Seq<StatementView>, course: Course, depth: nat) -> Option<
    (Course, Finish),
>
    decreases depth, 1nat,
{
    if depth == 0 {
        None
    } else if statements.len() == 0 {
        Some((course, Finish::Yield(Condition::NoOp)))
    } else {
        match execute_statement(statements[0], course, (depth - 1) as nat) {
            Some((course, Finish::Yield(_))) => run_command(
                statements.drop_first(),
                course,
                (depth - 1) as nat,
            ),
            other => other,
        }
    }
}

/// What a command line comes to: the interrupt latch is cleared, the line
/// is parsed, the statements that are complete are executed, and the
/// diagnostic is reported if the parsing ended with one.
pub open spec fn on_command(line: Seq<char>, course: Course, depth: nat) -> Option<(Course, Finish)>
    decreases depth, 2nat,
{
    if depth == 0 {
        None
    } else {
        match course.with_world(World { break_flow: false, ..course.world }).ask(
            RequestView::Parse(line),
        ) {
            Some((course, ReplyView::Parsed { statements, diagnostic })) => match run_command(
                statements,
                course,
                (depth - 1) as nat,
            ) {
                Some((course, Finish::Yield(_))) => match diagnostic {
                    Some(message) => match course.ask(RequestView::Report(message)) {
                        Some((course, ReplyView::Proceed)) => Some(
                            (course, Finish::Yield(Condition::NoOp)),
                        ),
                        _ => None,
                    },
                    None => Some((course, Finish::Yield(Condition::NoOp))),
                },
                other => other,
            },
            _ => None,
        }
    }
}

/// The machine, run by a driver that does what `events` say: while the
/// machine itself is at work it is stepped, and when it waits the driver
/// makes its next move. `fuel` bounds the number of moves and steps.
pub open spec fn drive(state: State, events: Seq<Move>, asked: Seq<RequestView>, fuel: nat) -> (
    State,
    Seq<Move>,
    Seq<RequestView>,
)
    decreases fuel,
{
    if fuel == 0 {
        (state, events, asked)
    } else {
        match state.control {
            ControlView::Run(_) | ControlView::Deliver(_) => match step(state, ReplyView::Proceed) {
                Some((next, request)) => drive(
                    next,
                    events,
                    logged(asked, request),
                    (fuel - 1) as nat,
                ),
                None => (state, events, asked),
            },
            ControlView::Wait => if events.len() == 0 {
                (state, events, asked)
            } else {
                match events[0] {
                    Move::Step(reply) => match step(state, reply) {
                        Some((next, request)) => drive(
                            next,
                            events.drop_first(),
                            logged(asked, request),
                            (fuel - 1) as nat,
                        ),
                        None => (state, events, asked),
                    },
                    other => drive(
                        after(state, other),
                        events.drop_first(),
                        asked,
                        (fuel - 1) as nat,
                    ),
                }
            },
            _ => (state, events, asked),
        }
    }
}

} // verus!
