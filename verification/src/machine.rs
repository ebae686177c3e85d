//! The executor as a mathematical machine.
//!
//! A [`State`] holds what the shell remembers and a stack of frames, one for
//! each construct that is under way. [`step`] says, for a state and the
//! driver's reply to the last request, what the next state is and what is
//! asked of the driver next. Nothing here is executable: the shell in
//! [`crate::shell`] is proved to make exactly these transitions.

use crate::clock::Instant;
use crate::condition::Condition;
use crate::statement::{CaseView, ElseIfView, StatementView};
use crate::text::{decimal, joined, lines_of, overlapping};
use crate::variables::{assigned, lookup, opened, FunctionView, ScopeView, ValueView};
use vstd::prelude::*;

verus! {

/// The status of a command that succeeded.
pub const SUCCESS: i32 = 0;

/// The status of a command that plainly failed.
pub const FAILURE: i32 = 1;

/// The flag that makes a failing pipeline end the process.
pub const ERR_EXIT: u8 = 1;

/// A signal that was delivered to the shell, as the driver saw it.
#[derive(Clone, Copy, Debug, PartialEq, Eq, Structural)]
pub struct Delivery {
    /// Whether the shell's handler decided that the process has to end.
    pub terminal: bool,
    /// The exit code that stands for the signal.
    pub code: i32,
}

/// How a statement that encloses another construct treats what the
/// construct yields.
#[derive(Clone, Copy, Debug, PartialEq, Eq, Structural)]
pub enum Wrapper {
    /// Around a loop: only an interrupt gets through.
    Loop,
    /// Around `if`, `match`, `and`, `or`: everything but
    /// [`Condition::NoOp`] gets through.
    Compound,
    /// Around the statement of `not`: nothing gets through, and the status
    /// is inverted.
    Not,
}

/// How far a command line has come.
#[derive(Clone, Copy, Debug, PartialEq, Eq, Structural)]
pub enum CommandStage {
    /// The driver is parsing the line.
    Parsing,
    /// The statements of the line are being executed.
    Running,
    /// The driver is printing the diagnostic.
    Reporting,
}

/// How far a `match` has come with its current case.
#[derive(Clone, Copy, Debug, PartialEq, Eq, Structural)]
pub enum MatchStage {
    /// The driver is expanding the subject.
    Subject,
    /// The driver is expanding the patterns of the case.
    Patterns,
    /// The guard of the case is being executed.
    Guard,
    /// The body of the case is being executed.
    Body,
}

/// How far a `time` statement has come.
pub enum TimeView {
    /// The driver is reading the clock; the statement runs next.
    Starting(StatementView),
    /// The statement is being executed; it was started at the instant.
    Running(Instant),
    /// The statement has yielded; the driver is reading the clock again.
    Stopping(Instant, Condition),
    /// The driver is printing the report.
    Printing(Condition),
}

/// The values that a `for` loop has still to go through.
pub enum ForIterView {
    /// The driver is expanding the words of the loop.
    Waiting,
    /// A list of strings.
    Items(Seq<Seq<char>>),
    /// The integers from the first up to, but without, the second.
    Range(i64, i64),
}

/// What the words of a `for` loop expand to.
pub enum ForExpressionView {
    /// An explicit list of strings.
    Multiple(Seq<Seq<char>>),
    /// One string, which is gone through line by line.
    Normal(Seq<char>),
    /// The integers from the first up to, but without, the second.
    Range(i64, i64),
}

/// One construct that is under way.
#[allow(inconsistent_fields)]
pub enum FrameView {
    /// A command line, with the statements of it that are still to run.
    Command { rest: Seq<StatementView>, diagnostic: Option<Seq<char>>, stage: CommandStage },
    /// A block in a scope of its own, with the statements of it that are
    /// still to run. The frame is the guard of the scope: the scope was
    /// opened when the frame was made, and however the block is left, the
    /// scope is closed when the frame goes.
    Block { rest: Seq<StatementView> },
    /// A statement has done its work; the driver is polling for signals.
    Probe,
    /// The driver is evaluating an assignment.
    Assign,
    /// The driver is running the pipeline of a pipeline statement.
    Pipeline,
    /// A statement that waits for the construct it encloses.
    After(Wrapper),
    /// A `time` statement.
    Time(TimeView),
    /// An `if`: the condition of an arm is under way; `success` is the body
    /// of that arm and `else_if` holds the arms behind it.
    If { success: Seq<StatementView>, else_if: Seq<ElseIfView>, failure: Seq<StatementView> },
    /// A `while` loop.
    While { expression: Seq<char>, statements: Seq<StatementView> },
    /// A `for` loop.
    For { variable: Seq<char>, statements: Seq<StatementView>, iter: ForIterView },
    /// A `match`; the first of `cases` is the current one. `saved` is what
    /// the binding of the current case held before the case bound it.
    Match {
        is_array: bool,
        subject: Seq<Seq<char>>,
        cases: Seq<CaseView>,
        stage: MatchStage,
        saved: Option<ValueView>,
    },
}

/// What the machine does next.
pub enum ControlView {
    /// Nothing is under way.
    Idle,
    /// The statement is executed next.
    Run(StatementView),
    /// A statement or a construct has yielded the condition; the innermost
    /// frame takes it next.
    Deliver(Condition),
    /// The driver is at work for the innermost frame.
    Wait,
    /// The process has to end with the status.
    Halted(i32),
}

/// What the machine asks of its driver.
pub enum RequestView {
    /// The command line is done; the machine is idle.
    Finished,
    /// Nothing: step again.
    Proceed,
    /// End the process with the status.
    Exit(i32),
    /// Take the next pending signal, if there is one, and handle it.
    PollSignal,
    /// Evaluate the assignment and perform it.
    Assign { export: bool, action: Seq<char> },
    /// Run the pipeline and record its status.
    RunPipeline(Seq<char>),
    /// Expand the words of a `for` loop.
    ExpandFor(Seq<Seq<char>>),
    /// Expand the subject of a `match`, and say whether it is an array.
    ExpandSubject(Seq<char>),
    /// Expand the patterns of a case into one list.
    ExpandPatterns(Seq<Seq<char>>),
    /// Parse the command line into complete statements.
    Parse(Seq<char>),
    /// Print the diagnostic to the error stream and reset the parser.
    Report(Seq<char>),
    /// Read the monotonic clock.
    ReadClock,
    /// Print the line to standard output.
    Print(Seq<char>),
}

/// What the driver answers.
pub enum ReplyView {
    /// The work is done and has no result.
    Proceed,
    /// The signal that was pending.
    Signal(Option<Delivery>),
    /// The status of the assignment.
    Status(i32),
    /// What running the pipeline returned: its status, or nothing where
    /// the pipeline could not be run.
    Pipeline(Option<i32>),
    /// What the words of a `for` loop expand to.
    Values(ForExpressionView),
    /// What the subject of a `match` expands to.
    Subject { is_array: bool, values: Seq<Seq<char>> },
    /// What the patterns of a case expand to.
    Expanded(Seq<Seq<char>>),
    /// The complete statements of a command line, and the diagnostic of the
    /// error that ended the parsing, if one did.
    Parsed { statements: Seq<StatementView>, diagnostic: Option<Seq<char>> },
    /// A reading of the clock.
    Clock(Instant),
}

/// The status that `not` makes of a status: success and plain failure
/// change places, every other status stays.
pub open spec fn inverted(status: i32) -> i32 {
    if status == SUCCESS {
        FAILURE
    } else if status == FAILURE {
        SUCCESS
    } else {
        status
    }
}

/// Whether the flags ask that a failing pipeline end the process.
pub open spec fn errexit(flags: u8) -> bool {
    flags & ERR_EXIT != 0
}

/// How many of the frames are blocks.
pub open spec fn blocks(stack: Seq<FrameView>) -> nat
    decreases stack.len(),
{
    if stack.len() == 0 {
        0
    } else {
        blocks(stack.drop_last()) + if stack.last() is Block {
            1nat
        } else {
            0nat
        }
    }
}

/// The invariant of a single frame: a `time` statement holds a reading
/// that the machine accepted.
pub open spec fn frame_wf(frame: FrameView) -> bool {
    match frame {
        FrameView::Time(TimeView::Running(start)) => start.valid(),
        FrameView::Time(TimeView::Stopping(start, _)) => start.valid(),
        _ => true,
    }
}

/// Whether a frame is ready for the condition that the construct above it
/// yields.
pub open spec fn takes_condition(frame: FrameView) -> bool {
    match frame {
        FrameView::Command { stage: CommandStage::Running, .. } => true,
        FrameView::Block { .. } => true,
        FrameView::After(_) => true,
        FrameView::Time(TimeView::Running(_)) => true,
        FrameView::If { .. } => true,
        FrameView::While { .. } => true,
        FrameView::For { iter, .. } => !(iter is Waiting),
        FrameView::Match { cases, stage: MatchStage::Guard, .. } => cases.len() > 0,
        FrameView::Match { cases, stage: MatchStage::Body, .. } => cases.len() > 0,
        _ => false,
    }
}

/// Whether a frame waits for a reply of the driver.
pub open spec fn takes_reply(frame: FrameView) -> bool {
    match frame {
        FrameView::Command { stage: CommandStage::Parsing, .. } => true,
        FrameView::Command { stage: CommandStage::Reporting, .. } => true,
        FrameView::Probe => true,
        FrameView::Assign => true,
        FrameView::Pipeline => true,
        FrameView::Time(TimeView::Starting(_)) => true,
        FrameView::Time(TimeView::Stopping(_, _)) => true,
        FrameView::Time(TimeView::Printing(_)) => true,
        FrameView::While { .. } => true,
        FrameView::For { iter, .. } => iter is Waiting,
        FrameView::Match { stage: MatchStage::Subject, .. } => true,
        FrameView::Match { cases, stage: MatchStage::Patterns, .. } => cases.len() > 0,
        _ => false,
    }
}

/// Whether every frame is ready for a condition.
pub open spec fn settled(stack: Seq<FrameView>) -> bool {
    forall|i: int| 0 <= i < stack.len() ==> takes_condition(#[trigger] stack[i])
}

/// The values that a loop goes through, given what its words expand to.
pub open spec fn iteration(values: ForExpressionView) -> ForIterView {
    match values {
        ForExpressionView::Multiple(list) => ForIterView::Items(list),
        ForExpressionView::Normal(text) => ForIterView::Items(lines_of(text)),
        ForExpressionView::Range(start, end) => ForIterView::Range(start, end),
    }
}

/// What the shell remembers from one statement to the next.
pub struct World {
    /// The status of the pipeline or assignment that completed last.
    pub status: i32,
    pub flags: u8,
    /// The latch that an interrupt from outside sets.
    pub break_flow: bool,
    /// The variables; the last scope is the innermost.
    pub scopes: Seq<ScopeView>,
}

impl World {
    /// The state of a machine that remembers this and has `stack` under way
    /// and `control` to do next.
    pub open spec fn at(self, stack: Seq<FrameView>, control: ControlView) -> State {
        State {
            status: self.status,
            flags: self.flags,
            break_flow: self.break_flow,
            scopes: self.scopes,
            control,
            stack,
        }
    }

    /// What a machine in `state` remembers.
    pub open spec fn of(state: State) -> World {
        World {
            status: state.status,
            flags: state.flags,
            break_flow: state.break_flow,
            scopes: state.scopes,
        }
    }

    /// The world with `status` as the last status.
    pub open spec fn with_status(self, status: i32) -> World {
        World { status, ..self }
    }

    /// The world with `name` given `value` in the innermost scope.
    pub open spec fn set(self, name: Seq<char>, value: ValueView) -> World {
        World { scopes: assigned(self.scopes, name, value), ..self }
    }

    /// The world with the status written to the variable `?`.
    pub open spec fn mirrored(self) -> World {
        self.set("?"@, ValueView::Str(decimal(self.status as int)))
    }

    /// The world with the loop variable bound, unless its name is `_`.
    pub open spec fn bound(self, variable: Seq<char>, value: Seq<char>) -> World {
        if variable == "_"@ {
            self
        } else {
            self.set(variable, ValueView::Str(value))
        }
    }

    /// What the binding of a case held before: a list where the subject is
    /// an array, a string where it is not, and nothing where the name held
    /// a value of another kind or none.
    pub open spec fn previous(self, is_array: bool, name: Seq<char>) -> Option<ValueView> {
        match lookup(self.scopes, name) {
            Some(ValueView::Array(list)) if is_array => Some(ValueView::Array(list)),
            Some(ValueView::Str(text)) if !is_array => Some(ValueView::Str(text)),
            _ => None,
        }
    }

    /// The world with the binding of a case given back what it held before
    /// the case bound it, where it held something.
    pub open spec fn restored(self, binding: Option<Seq<char>>, saved: Option<ValueView>) -> World {
        match (binding, saved) {
            (Some(name), Some(value)) => self.set(name, value),
            _ => self,
        }
    }
}

/// What the machine is: the state of the shell and the constructs under
/// way.
pub struct State {
    /// The status of the pipeline or assignment that completed last.
    pub status: i32,
    pub flags: u8,
    /// The latch that an interrupt from outside sets.
    pub break_flow: bool,
    /// The variables; the last scope is the innermost.
    pub scopes: Seq<ScopeView>,
    pub control: ControlView,
    /// The frames; the last is the innermost.
    pub stack: Seq<FrameView>,
}

impl State {
    /// Every block has its scope, and nothing else has one but the global
    /// scope.
    pub open spec fn balanced(self) -> bool {
        self.scopes.len() == 1 + blocks(self.stack)
    }

    /// The invariant of the machine.
    pub open spec fn wf(self) -> bool {
        &&& self.sound()
        &&& self.ordered()
    }

    /// The part of the invariant that speaks of the scopes and of each
    /// frame by itself.
    pub open spec fn sound(self) -> bool {
        &&& self.balanced()
        &&& forall|i: int| 0 <= i < self.stack.len() ==> frame_wf(#[trigger] self.stack[i])
    }

    /// The part of the invariant that speaks of who is at work. Every frame
    /// but the innermost waits for the frame above it. The innermost one
    /// waits for the driver while the driver is at work, and is ready for a
    /// condition while the machine is. An idle machine has no frame.
    pub open spec fn ordered(self) -> bool {
        match self.control {
            ControlView::Idle => self.stack.len() == 0,
            ControlView::Run(_) => settled(self.stack),
            ControlView::Deliver(_) => settled(self.stack),
            ControlView::Wait => self.stack.len() > 0 && settled(self.stack.drop_last())
                && takes_reply(self.stack.last()),
            ControlView::Halted(_) => true,
        }
    }

    /// What holds of a state from which a transition has taken the
    /// innermost frame, before it puts frames back.
    pub open spec fn steady(self) -> bool {
        &&& self.sound()
        &&& settled(self.stack)
    }

    /// A shell that has just been started.
    pub open spec fn initial() -> State {
        State {
            status: SUCCESS,
            flags: 0,
            break_flow: false,
            scopes: opened(Seq::empty(), false),
            control: ControlView::Idle,
            stack: Seq::empty(),
        }
    }

    /// The state with `frame` as the innermost frame.
    pub open spec fn pushed(self, frame: FrameView) -> State {
        State { stack: self.stack.push(frame), ..self }
    }

    /// The state without its innermost frame.
    pub open spec fn popped(self) -> State {
        State { stack: self.stack.drop_last(), ..self }
    }

    /// The state in which the shell remembers `world`.
    pub open spec fn with_world(self, world: World) -> State {
        world.at(self.stack, self.control)
    }

    /// The state with `status` as the last status.
    pub open spec fn with_status(self, status: i32) -> State {
        self.with_world(World::of(self).with_status(status))
    }

    /// The state with `name` given `value` in the innermost scope.
    pub open spec fn set(self, name: Seq<char>, value: ValueView) -> State {
        self.with_world(World::of(self).set(name, value))
    }

    /// The state with the status written to the variable `?`.
    pub open spec fn mirrored(self) -> State {
        self.with_world(World::of(self).mirrored())
    }

    /// Whether the variable `?` holds the status in decimal.
    pub open spec fn status_mirrored(self) -> bool {
        lookup(self.scopes, "?"@) == Some(ValueView::Str(decimal(self.status as int)))
    }

    /// The state with the loop variable bound, unless its name is `_`.
    pub open spec fn bound(self, variable: Seq<char>, value: Seq<char>) -> State {
        self.with_world(World::of(self).bound(variable, value))
    }

    /// The machine goes on by itself, with `control` to do next.
    pub open spec fn proceed(self, control: ControlView) -> (State, RequestView) {
        (State { control, ..self }, RequestView::Proceed)
    }

    /// The innermost frame is left with `condition`.
    pub open spec fn deliver(self, condition: Condition) -> (State, RequestView) {
        self.proceed(ControlView::Deliver(condition))
    }

    /// The statement is the next to be executed.
    pub open spec fn run(self, statement: StatementView) -> (State, RequestView) {
        self.proceed(ControlView::Run(statement))
    }

    /// The driver is asked for `request` on behalf of the innermost frame.
    pub open spec fn wait(self, request: RequestView) -> (State, RequestView) {
        (State { control: ControlView::Wait, ..self }, request)
    }

    /// A statement has done its work: what it yields is decided by the
    /// signals.
    pub open spec fn probe(self) -> (State, RequestView) {
        self.pushed(FrameView::Probe).wait(RequestView::PollSignal)
    }

    /// The process is asked to end with `code`.
    pub open spec fn halt(self, code: i32) -> (State, RequestView) {
        (State { control: ControlView::Halted(code), ..self }, RequestView::Exit(code))
    }

    /// A statement that encloses a construct goes on after the construct
    /// has yielded `condition`.
    pub open spec fn pass(self, condition: Condition) -> (State, RequestView) {
        if condition == Condition::NoOp {
            self.probe()
        } else {
            self.deliver(condition)
        }
    }

    /// A block is entered: it gets a scope of its own, and its first
    /// statement is fetched by the next step.
    pub open spec fn execute_statements(self, statements: Seq<StatementView>) -> (State, RequestView) {
        State { scopes: opened(self.scopes, false), ..self }.pushed(
            FrameView::Block { rest: statements },
        ).deliver(Condition::NoOp)
    }

    /// A block is left: its scope is closed. `self` is the state without
    /// the frame of the block.
    pub open spec fn leave_block(self, condition: Condition) -> (State, RequestView) {
        State { scopes: self.scopes.drop_last(), ..self }.deliver(condition)
    }

    /// A command line is taken up: the latch is cleared and the driver is
    /// asked to parse the line.
    pub open spec fn on_command(self, line: Seq<char>) -> (State, RequestView) {
        State { break_flow: false, ..self }.pushed(
            FrameView::Command {
                rest: Seq::empty(),
                diagnostic: None,
                stage: CommandStage::Parsing,
            },
        ).wait(RequestView::Parse(line))
    }

    /// The next statement of a command line is run; after the last one the
    /// diagnostic is reported, if there is one. `self` is the state without
    /// the frame of the command line.
    pub open spec fn advance_command(
        self,
        rest: Seq<StatementView>,
        diagnostic: Option<Seq<char>>,
    ) -> (State, RequestView) {
        if rest.len() > 0 {
            self.pushed(
                FrameView::Command {
                    rest: rest.drop_first(),
                    diagnostic,
                    stage: CommandStage::Running,
                },
            ).run(rest[0])
        } else {
            match diagnostic {
                Some(message) => self.pushed(
                    FrameView::Command { rest, diagnostic: None, stage: CommandStage::Reporting },
                ).wait(RequestView::Report(message)),
                None => self.leave_command(),
            }
        }
    }

    /// A command line is done. Where it was the guard of a case, the
    /// `match` goes on; else the machine is idle. `self` is the state
    /// without the frame of the command line.
    pub open spec fn leave_command(self) -> (State, RequestView) {
        if self.stack.len() == 0 {
            (State { control: ControlView::Idle, ..self }, RequestView::Finished)
        } else {
            self.deliver(Condition::NoOp)
        }
    }

    /// A loop takes its next value, binds it and enters its body; without a
    /// next value the loop is done. `self` is the state without the frame
    /// of the loop.
    pub open spec fn advance_for(
        self,
        variable: Seq<char>,
        statements: Seq<StatementView>,
        iter: ForIterView,
    ) -> (State, RequestView) {
        match iter {
            ForIterView::Items(items) if items.len() > 0 => self.pushed(
                FrameView::For { variable, statements, iter: ForIterView::Items(items.drop_first()) },
            ).bound(variable, items[0]).execute_statements(statements),
            ForIterView::Range(next, end) if next < end => self.pushed(
                FrameView::For {
                    variable,
                    statements,
                    iter: ForIterView::Range((next + 1) as i64, end),
                },
            ).bound(variable, decimal(next as int)).execute_statements(statements),
            _ => self.deliver(Condition::NoOp),
        }
    }

    /// What the binding of a case held before it was bound.
    pub open spec fn previous(self, is_array: bool, name: Seq<char>) -> Option<ValueView> {
        World::of(self).previous(is_array, name)
    }

    /// The state with the binding of a case given back what it held before
    /// the case bound it, where it held something.
    pub open spec fn restored(self, binding: Option<Seq<char>>, saved: Option<ValueView>) -> State {
        self.with_world(World::of(self).restored(binding, saved))
    }

    /// A `match` turns to the first of `cases`: a case without patterns is
    /// taken, the patterns of another are expanded first; without a case
    /// the `match` is done. `self` is the state without the frame of the
    /// `match`.
    pub open spec fn advance_match(
        self,
        is_array: bool,
        subject: Seq<Seq<char>>,
        cases: Seq<CaseView>,
    ) -> (State, RequestView) {
        if cases.len() == 0 {
            self.deliver(Condition::NoOp)
        } else {
            match cases[0].patterns {
                None => self.take_case(is_array, subject, cases),
                Some(patterns) => self.pushed(
                    FrameView::Match {
                        is_array,
                        subject,
                        cases,
                        stage: MatchStage::Patterns,
                        saved: None,
                    },
                ).wait(RequestView::ExpandPatterns(patterns)),
            }
        }
    }

    /// The value that a case binds the subject to: the list itself where
    /// the subject is an array, else its members joined by spaces.
    pub open spec fn binding_value(is_array: bool, subject: Seq<Seq<char>>) -> ValueView {
        if is_array {
            ValueView::Array(subject)
        } else {
            ValueView::Str(joined(subject, " "@))
        }
    }

    /// The first of `cases` has matched: its binding is made, and its guard
    /// is run as a command line of its own; without a guard its body is
    /// entered. `self` is the state without the frame of the `match`.
    pub open spec fn take_case(
        self,
        is_array: bool,
        subject: Seq<Seq<char>>,
        cases: Seq<CaseView>,
    ) -> (State, RequestView) {
        let case = cases[0];
        let saved = match case.binding {
            Some(name) => self.previous(is_array, name),
            None => None,
        };
        let bound = match case.binding {
            Some(name) => self.set(name, State::binding_value(is_array, subject)),
            None => self,
        };
        match case.guard {
            Some(guard) => bound.pushed(
                FrameView::Match { is_array, subject, cases, stage: MatchStage::Guard, saved },
            ).on_command(guard),
            None => bound.pushed(
                FrameView::Match { is_array, subject, cases, stage: MatchStage::Body, saved },
            ).execute_statements(case.body),
        }
    }

    /// An `if` is begun: the condition of its first arm is executed as a
    /// block of one statement.
    pub open spec fn execute_if(
        self,
        expression: StatementView,
        success: Seq<StatementView>,
        else_if: Seq<ElseIfView>,
        failure: Seq<StatementView>,
    ) -> (State, RequestView) {
        self.pushed(FrameView::If { success, else_if, failure }).execute_statements(
            seq![expression],
        )
    }

    /// A `while` loop is begun: its pipeline is run.
    pub open spec fn execute_while(self, expression: Seq<char>, statements: Seq<StatementView>) -> (
        State,
        RequestView,
    ) {
        self.pushed(FrameView::While { expression, statements }).wait(
            RequestView::RunPipeline(expression),
        )
    }

    /// A `for` loop is begun: its words are expanded.
    pub open spec fn execute_for(
        self,
        variable: Seq<char>,
        values: Seq<Seq<char>>,
        statements: Seq<StatementView>,
    ) -> (State, RequestView) {
        self.pushed(FrameView::For { variable, statements, iter: ForIterView::Waiting }).wait(
            RequestView::ExpandFor(values),
        )
    }

    /// A `match` is begun: its subject is expanded.
    pub open spec fn execute_match(self, expression: Seq<char>, cases: Seq<CaseView>) -> (
        State,
        RequestView,
    ) {
        self.pushed(
            FrameView::Match {
                is_array: false,
                subject: Seq::empty(),
                cases,
                stage: MatchStage::Subject,
                saved: None,
            },
        ).wait(RequestView::ExpandSubject(expression))
    }

    /// The statement is executed.
    pub open spec fn execute_statement(self, statement: StatementView) -> (State, RequestView) {
        match statement {
            StatementView::Error(number) => self.with_status(number).probe(),
            StatementView::Let(action) => self.pushed(FrameView::Assign).wait(
                RequestView::Assign { export: false, action },
            ),
            StatementView::Export(action) => self.pushed(FrameView::Assign).wait(
                RequestView::Assign { export: true, action },
            ),
            StatementView::Pipeline(pipeline) => self.pushed(FrameView::Pipeline).wait(
                RequestView::RunPipeline(pipeline),
            ),
            StatementView::If { expression, success, else_if, failure } => self.pushed(
                FrameView::After(Wrapper::Compound),
            ).execute_if(*expression, success, else_if, failure),
            StatementView::While { expression, statements } => self.pushed(
                FrameView::After(Wrapper::Loop),
            ).execute_while(expression, statements),
            StatementView::For { variable, values, statements } => self.pushed(
                FrameView::After(Wrapper::Loop),
            ).execute_for(variable, values, statements),
            StatementView::Match { expression, cases } => self.pushed(
                FrameView::After(Wrapper::Compound),
            ).execute_match(expression, cases),
            StatementView::Function { name, args, statements, description } => self.set(
                name,
                ValueView::Function(FunctionView { description, name, args, statements }),
            ).probe(),
            StatementView::Time(inner) => self.pushed(
                FrameView::Time(TimeView::Starting(*inner)),
            ).wait(RequestView::ReadClock),
            StatementView::And(inner) => if self.status == SUCCESS {
                self.pushed(FrameView::After(Wrapper::Compound)).run(*inner)
            } else {
                self.probe()
            },
            StatementView::Or(inner) => if self.status == FAILURE {
                self.pushed(FrameView::After(Wrapper::Compound)).run(*inner)
            } else {
                self.probe()
            },
            StatementView::Not(inner) => self.pushed(FrameView::After(Wrapper::Not)).run(*inner),
            StatementView::Break => self.deliver(Condition::Break),
            StatementView::Continue => self.deliver(Condition::Continue),
            StatementView::Default => self.probe(),
        }
    }

    /// A block goes on after one of its statements: with its next
    /// statement, or, after the last one and after every condition but
    /// [`Condition::NoOp`], by ending with that condition. `self` is the
    /// state without the frame of the block.
    pub open spec fn resume_block(self, rest: Seq<StatementView>, condition: Condition) -> (
        State,
        RequestView,
    ) {
        if condition == Condition::NoOp && rest.len() > 0 {
            self.pushed(FrameView::Block { rest: rest.drop_first() }).run(rest[0])
        } else {
            self.leave_block(condition)
        }
    }

    /// A statement goes on after the construct that it encloses. `self` is
    /// the state without the frame of the statement.
    pub open spec fn resume_after(self, wrapper: Wrapper, condition: Condition) -> (
        State,
        RequestView,
    ) {
        match wrapper {
            Wrapper::Loop => if condition == Condition::SigInt {
                self.deliver(Condition::SigInt)
            } else {
                self.probe()
            },
            Wrapper::Compound => self.pass(condition),
            Wrapper::Not => self.with_status(inverted(self.status)).mirrored().probe(),
        }
    }

    /// An `if` goes on after the condition of an arm: an interrupt ends
    /// it; after a success the body of the arm is entered; else the next
    /// arm is tried, and the `else` body is entered when there is none.
    /// `self` is the state without the frame of the `if`.
    pub open spec fn resume_if(
        self,
        success: Seq<StatementView>,
        else_if: Seq<ElseIfView>,
        failure: Seq<StatementView>,
        condition: Condition,
    ) -> (State, RequestView) {
        if condition == Condition::SigInt {
            self.deliver(Condition::SigInt)
        } else if self.status == SUCCESS {
            self.execute_statements(success)
        } else if else_if.len() > 0 {
            self.pushed(
                FrameView::If {
                    success: else_if[0].success,
                    else_if: else_if.drop_first(),
                    failure,
                },
            ).execute_statements(seq![else_if[0].expression])
        } else {
            self.execute_statements(failure)
        }
    }

    /// A `while` loop goes on after its body: it ends where the body asks
    /// for it, else its pipeline is run again. `self` is the state without
    /// the frame of the loop.
    pub open spec fn resume_while(
        self,
        expression: Seq<char>,
        statements: Seq<StatementView>,
        condition: Condition,
    ) -> (State, RequestView) {
        match condition.loop_exit() {
            Some(exit) => self.deliver(exit),
            None => self.pushed(FrameView::While { expression, statements }).wait(
                RequestView::RunPipeline(expression),
            ),
        }
    }

    /// A `for` loop goes on after its body: it ends where the body asks for
    /// it, else it takes its next value. `self` is the state without the
    /// frame of the loop.
    pub open spec fn resume_for(
        self,
        variable: Seq<char>,
        statements: Seq<StatementView>,
        iter: ForIterView,
        condition: Condition,
    ) -> (State, RequestView) {
        match condition.loop_exit() {
            Some(exit) => self.deliver(exit),
            None => self.advance_for(variable, statements, iter),
        }
    }

    /// A `match` goes on after the guard of its current case, the first of
    /// `cases`: after a success the body of the case is entered; else the
    /// binding is undone and the next case is tried. `self` is the state
    /// without the frame of the `match`.
    pub open spec fn resume_guard(
        self,
        is_array: bool,
        subject: Seq<Seq<char>>,
        cases: Seq<CaseView>,
        saved: Option<ValueView>,
    ) -> (State, RequestView) {
        if self.status != SUCCESS {
            self.restored(cases[0].binding, saved).advance_match(
                is_array,
                subject,
                cases.drop_first(),
            )
        } else {
            self.pushed(
                FrameView::Match { is_array, subject, cases, stage: MatchStage::Body, saved },
            ).execute_statements(cases[0].body)
        }
    }

    /// A `match` ends after the body of its current case, whatever the body
    /// yielded: the binding is undone and no other case is tried. `self` is
    /// the state without the frame of the `match`.
    pub open spec fn resume_body(
        self,
        binding: Option<Seq<char>>,
        saved: Option<ValueView>,
        condition: Condition,
    ) -> (State, RequestView) {
        self.restored(binding, saved).deliver(condition)
    }

    /// The innermost frame is taken off the stack and goes on with the
    /// condition that was yielded to it. `None` where that frame is waiting
    /// for the driver and not for a condition. Without a frame the machine
    /// becomes idle.
    pub open spec fn resume(self, condition: Condition) -> Option<(State, RequestView)> {
        if self.stack.len() == 0 {
            Some((State { control: ControlView::Idle, ..self }, RequestView::Finished))
        } else {
            let below = self.popped();
            match self.stack.last() {
                FrameView::Command { rest, diagnostic, stage: CommandStage::Running } => Some(
                    below.advance_command(rest, diagnostic),
                ),
                FrameView::Block { rest } => Some(below.resume_block(rest, condition)),
                FrameView::After(wrapper) => Some(below.resume_after(wrapper, condition)),
                FrameView::Time(TimeView::Running(start)) => Some(
                    below.pushed(FrameView::Time(TimeView::Stopping(start, condition))).wait(
                        RequestView::ReadClock,
                    ),
                ),
                FrameView::If { success, else_if, failure } => Some(
                    below.resume_if(success, else_if, failure, condition),
                ),
                FrameView::While { expression, statements } => Some(
                    below.resume_while(expression, statements, condition),
                ),
                FrameView::For { variable, statements, iter } => if iter is Waiting {
                    None
                } else {
                    Some(below.resume_for(variable, statements, iter, condition))
                },
                FrameView::Match { is_array, subject, cases, stage: MatchStage::Guard, saved } => {
                    if cases.len() == 0 {
                        None
                    } else {
                        Some(below.resume_guard(is_array, subject, cases, saved))
                    }
                },
                FrameView::Match { is_array: _, subject: _, cases, stage: MatchStage::Body, saved } => {
                    if cases.len() == 0 {
                        None
                    } else {
                        Some(below.resume_body(cases[0].binding, saved, condition))
                    }
                },
                _ => None,
            }
        }
    }

    /// The signal probe, which ends every statement that has done its work.
    /// A signal that the handler found to be terminal ends the process with
    /// the code of the signal; another signal interrupts what is under way;
    /// without a signal the interrupt latch does so if it is set, and is
    /// cleared by that; else the statement yields nothing. `self` is the
    /// state without the frame of the probe.
    pub open spec fn signal_probe(self, signal: Option<Delivery>) -> (State, RequestView) {
        match signal {
            Some(delivery) => if delivery.terminal {
                self.halt(delivery.code)
            } else {
                self.deliver(Condition::SigInt)
            },
            None => if self.break_flow {
                State { break_flow: false, ..self }.deliver(Condition::SigInt)
            } else {
                self.deliver(Condition::NoOp)
            },
        }
    }

    /// A pipeline statement goes on after its pipeline: where the flags ask
    /// for it and the status is no success, the process ends with the
    /// status. `self` is the state without the frame of the statement.
    pub open spec fn after_pipeline(self) -> (State, RequestView) {
        if errexit(self.flags) && self.status != SUCCESS {
            self.halt(self.status)
        } else {
            self.probe()
        }
    }

    /// A `while` loop goes on after its pipeline: the body is entered if
    /// the pipeline returned success, and the loop is done if it returned
    /// anything else or nothing. `self` is the state without the frame of
    /// the loop.
    pub open spec fn test_while(
        self,
        expression: Seq<char>,
        statements: Seq<StatementView>,
        returned: Option<i32>,
    ) -> (State, RequestView) {
        if returned == Some(SUCCESS) {
            self.pushed(FrameView::While { expression, statements }).execute_statements(statements)
        } else {
            self.deliver(Condition::NoOp)
        }
    }

    /// A `match` goes on after the patterns of its current case, the first
    /// of `cases`, have been expanded to `values`: the case is taken if
    /// some member of `values` is a member of the subject, else the next
    /// case is tried. `self` is the state without the frame of the `match`.
    pub open spec fn try_case(
        self,
        is_array: bool,
        subject: Seq<Seq<char>>,
        cases: Seq<CaseView>,
        values: Seq<Seq<char>>,
    ) -> (State, RequestView) {
        if overlapping(values, subject) {
            self.take_case(is_array, subject, cases)
        } else {
            self.advance_match(is_array, subject, cases.drop_first())
        }
    }

    /// The innermost frame is taken off the stack and goes on with the
    /// driver's reply. `None` where that frame did not ask for such a
    /// reply.
    pub open spec fn receive(self, reply: ReplyView) -> Option<(State, RequestView)> {
        if self.stack.len() == 0 {
            None
        } else {
            let below = self.popped();
            match (self.stack.last(), reply) {
                (FrameView::Probe, ReplyView::Signal(signal)) => Some(below.signal_probe(signal)),
                (FrameView::Assign, ReplyView::Status(status)) => Some(
                    below.with_status(status).mirrored().probe(),
                ),
                (FrameView::Pipeline, ReplyView::Pipeline(_)) => Some(below.after_pipeline()),
                (FrameView::While { expression, statements }, ReplyView::Pipeline(returned)) => Some(
                    below.test_while(expression, statements, returned),
                ),
                (
                    FrameView::For { variable, statements, iter: ForIterView::Waiting },
                    ReplyView::Values(values),
                ) => Some(below.advance_for(variable, statements, iteration(values))),
                (
                    FrameView::Match { is_array: _, subject: _, cases, stage: MatchStage::Subject, saved: _ },
                    ReplyView::Subject { is_array, values },
                ) => Some(below.advance_match(is_array, values, cases)),
                (
                    FrameView::Match { is_array, subject, cases, stage: MatchStage::Patterns, saved: _ },
                    ReplyView::Expanded(values),
                ) => if cases.len() == 0 {
                    None
                } else {
                    Some(below.try_case(is_array, subject, cases, values))
                },
                (
                    FrameView::Command { rest: _, diagnostic: _, stage: CommandStage::Parsing },
                    ReplyView::Parsed { statements, diagnostic },
                ) => Some(below.advance_command(statements, diagnostic)),
                (
                    FrameView::Command { rest: _, diagnostic: _, stage: CommandStage::Reporting },
                    ReplyView::Proceed,
                ) => Some(below.leave_command()),
                (FrameView::Time(TimeView::Starting(statement)), ReplyView::Clock(now)) => if now.valid() {
                    Some(below.pushed(FrameView::Time(TimeView::Running(now))).run(statement))
                } else {
                    None
                },
                (FrameView::Time(TimeView::Stopping(start, condition)), ReplyView::Clock(now)) => if now.valid() {
                    Some(
                        below.pushed(FrameView::Time(TimeView::Printing(condition))).wait(
                            RequestView::Print(start.until(now).line()),
                        ),
                    )
                } else {
                    None
                },
                (FrameView::Time(TimeView::Printing(condition)), ReplyView::Proceed) => Some(
                    below.pass(condition),
                ),
                _ => None,
            }
        }
    }
}

/// Whether `reply` is an answer to `request`: whether it is of the kind
/// that was asked for, and, for the clock, a reading with less than a
/// second of nanoseconds.
pub open spec fn answers(request: RequestView, reply: ReplyView) -> bool {
    match (request, reply) {
        (RequestView::Proceed, ReplyView::Proceed) => true,
        (RequestView::Report(_), ReplyView::Proceed) => true,
        (RequestView::Print(_), ReplyView::Proceed) => true,
        (RequestView::PollSignal, ReplyView::Signal(_)) => true,
        (RequestView::Assign { .. }, ReplyView::Status(_)) => true,
        (RequestView::RunPipeline(_), ReplyView::Pipeline(_)) => true,
        (RequestView::ExpandFor(_), ReplyView::Values(_)) => true,
        (RequestView::ExpandSubject(_), ReplyView::Subject { .. }) => true,
        (RequestView::ExpandPatterns(_), ReplyView::Expanded(_)) => true,
        (RequestView::Parse(_), ReplyView::Parsed { .. }) => true,
        (RequestView::ReadClock, ReplyView::Clock(now)) => now.valid(),
        _ => false,
    }
}

/// Whether `request` is what a machine in `state` has asked last.
pub open spec fn asks(state: State, request: RequestView) -> bool {
    match request {
        RequestView::Finished => state.control is Idle,
        RequestView::Proceed => state.control is Run || state.control is Deliver,
        RequestView::Exit(code) => state.control == ControlView::Halted(code),
        _ => state.control is Wait && state.stack.len() > 0 && match (
            request,
            state.stack.last(),
        ) {
            (RequestView::PollSignal, FrameView::Probe) => true,
            (RequestView::Assign { .. }, FrameView::Assign) => true,
            (RequestView::RunPipeline(_), FrameView::Pipeline) => true,
            (RequestView::RunPipeline(_), FrameView::While { .. }) => true,
            (RequestView::ExpandFor(_), FrameView::For { iter: ForIterView::Waiting, .. }) => true,
            (
                RequestView::ExpandSubject(_),
                FrameView::Match { stage: MatchStage::Subject, .. },
            ) => true,
            (
                RequestView::ExpandPatterns(_),
                FrameView::Match { stage: MatchStage::Patterns, .. },
            ) => true,
            (RequestView::Parse(_), FrameView::Command { stage: CommandStage::Parsing, .. }) => true,
            (
                RequestView::Report(_),
                FrameView::Command { stage: CommandStage::Reporting, .. },
            ) => true,
            (RequestView::ReadClock, FrameView::Time(TimeView::Starting(_))) => true,
            (RequestView::ReadClock, FrameView::Time(TimeView::Stopping(_, _))) => true,
            (RequestView::Print(_), FrameView::Time(TimeView::Printing(_))) => true,
            _ => false,
        },
    }
}

/// The transition that `state` makes on `reply`: the next state and what is
/// asked of the driver. `None` where the machine is not waiting for such a
/// reply; it then stays as it is.
pub open spec fn step(state: State, reply: ReplyView) -> Option<(State, RequestView)> {
    match state.control {
        ControlView::Idle => None,
        ControlView::Halted(_) => None,
        ControlView::Run(statement) => if reply is Proceed {
            Some(state.execute_statement(statement))
        } else {
            None
        },
        ControlView::Deliver(condition) => if reply is Proceed {
            state.resume(condition)
        } else {
            None
        },
        ControlView::Wait => state.receive(reply),
    }
}

/// What the driver can do to a shell between two requests.
pub enum Move {
    /// It answers the last request.
    Step(ReplyView),
    /// It records the status of a pipeline.
    Status(i32),
    /// It replaces the flags.
    Flags(u8),
    /// It sets the interrupt latch.
    Interrupt,
    /// It assigns a variable.
    Assign(Seq<char>, ValueView),
}

/// The state after one move. A reply that the machine did not ask for
/// leaves the state as it is.
pub open spec fn after(state: State, action: Move) -> State {
    match action {
        Move::Step(reply) => match step(state, reply) {
            Some((next, _)) => next,
            None => state,
        },
        other => state.with_world(World::of(state).moved(other)),
    }
}

impl World {
    /// The world after a move of the driver that is no answer.
    pub open spec fn moved(self, action: Move) -> World {
        match action {
            Move::Step(_) => self,
            Move::Status(status) => self.with_status(status).mirrored(),
            Move::Flags(flags) => World { flags, ..self },
            Move::Interrupt => World { break_flow: true, ..self },
            Move::Assign(name, value) => self.set(name, value),
        }
    }
}

/// The state after a sequence of moves.
pub open spec fn run(state: State, moves: Seq<Move>) -> State
    decreases moves.len(),
{
    if moves.len() == 0 {
        state
    } else {
        run(after(state, moves[0]), moves.drop_first())
    }
}

} // verus!
