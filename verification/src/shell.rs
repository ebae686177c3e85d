//! The shell: the state of the interpreter and the executor of its
//! statements.
//!
//! The shell is driven from outside. [`Shell::on_command`] takes up a
//! command line, [`Shell::step`] makes one transition of the machine in
//! [`crate::machine`], and [`Shell::answer`] makes as many as it takes for
//! the shell to ask something of its driver; each hands back the
//! [`Request`] that the driver has to serve before it goes on with its
//! [`Reply`].

use crate::condition::Condition;
use crate::frame::{frames_view, optional_value, Control, ForIter, Frame, TimeStage};
use crate::machine::{
    asks, inverted, step, CommandStage, ControlView, Delivery, MatchStage, State, Wrapper,
    ERR_EXIT, FAILURE, SUCCESS,
};
use crate::measure::{measure, until_asked};
use crate::protocol::{ForExpression, Reply, Request};
use crate::statement::{
    cases_view, clone_optional_text, clone_optional_texts, clone_statements, else_ifs_view,
    optional_text, statements_view, Case, ElseIf, Statement,
};
use crate::text::{decimal_string, join, lines, overlap, texts};
use crate::variables::{Function, Value, Variables};
use vstd::prelude::*;

verus! {

/// The state of the interpreter.
pub struct Shell {
    previous_status: i32,
    flags: u8,
    break_flow: bool,
    variables: Variables,
    control: Control,
    stack: Vec<Frame>,
}

impl View for Shell {
    type V = State;

    closed spec fn view(&self) -> State {
        State {
            status: self.previous_status,
            flags: self.flags,
            break_flow: self.break_flow,
            scopes: self.variables@,
            control: self.control@,
            stack: frames_view(self.stack@),
        }
    }
}

impl Shell {
    /// The invariant of the variable store.
    pub closed spec fn inv(&self) -> bool {
        self.variables.wf()
    }

    /// The invariant of the shell.
    pub closed spec fn wf(&self) -> bool {
        &&& self.inv()
        &&& self@.wf()
    }

    /// A shell that has just been started: no flag is set, the last status
    /// is success, there is the global scope and nothing in it, and nothing
    /// is under way.
    pub fn new() -> (shell: Shell)
        ensures
            shell.wf(),
            shell@ == State::initial(),
    {
        let shell = Shell {
            previous_status: SUCCESS,
            flags: 0,
            break_flow: false,
            variables: Variables::new(),
            control: Control::Idle,
            stack: Vec::new(),
        };
        assert(shell@.stack =~= Seq::empty());
        shell
    }

    /// The status of the pipeline or assignment that completed last.
    pub fn previous_status(&self) -> (status: i32)
        ensures
            status == self@.status,
    {
        self.previous_status
    }

    /// The flags of the shell.
    pub fn flags(&self) -> (flags: u8)
        ensures
            flags == self@.flags,
    {
        self.flags
    }

    /// Whether an interrupt from outside is waiting to be seen.
    pub fn break_flow(&self) -> (set: bool)
        ensures
            set == self@.break_flow,
    {
        self.break_flow
    }

    /// The variables of the shell.
    pub fn variables(&self) -> (variables: &Variables)
        requires
            self.wf(),
        ensures
            variables.wf(),
            variables@ == self@.scopes,
    {
        &self.variables
    }

    /// Whether nothing is under way, so that a command line can be taken
    /// up.
    pub fn is_idle(&self) -> (idle: bool)
        ensures
            idle == (self@.control is Idle),
    {
        match self.control {
            Control::Idle => true,
            _ => false,
        }
    }

    /// The status with which the process has to end, once the shell has
    /// asked for that.
    pub fn exit_status(&self) -> (status: Option<i32>)
        ensures
            status == match self@.control {
                ControlView::Halted(code) => Some(code),
                _ => None,
            },
    {
        match self.control {
            Control::Halted(code) => Some(code),
            _ => None,
        }
    }

    /// How many constructs are under way.
    pub fn depth(&self) -> (depth: usize)
        ensures
            depth == self@.stack.len(),
    {
        self.stack.len()
    }

    /// Records the status of a pipeline that the driver ran, and writes it
    /// to the variable `?`.
    pub fn set_status(&mut self, status: i32)
        requires
            old(self).wf(),
        ensures
            final(self).wf(),
            final(self)@ == old(self)@.with_status(status).mirrored(),
            final(self)@.status_mirrored(),
    {
        self.previous_status = status;
        self.mirror();
        proof {
            crate::variables::lemma_lookup_assigned(
                old(self)@.scopes,
                "?"@,
                crate::variables::ValueView::Str(crate::text::decimal(status as int)),
            );
        }
    }

    /// Replaces the flags of the shell.
    pub fn set_flags(&mut self, flags: u8)
        requires
            old(self).wf(),
        ensures
            final(self).wf(),
            final(self)@ == (State { flags, ..old(self)@ }),
    {
        self.flags = flags;
    }

    /// Sets the interrupt latch: the statement that completes next yields
    /// [`Condition::SigInt`].
    pub fn interrupt(&mut self)
        requires
            old(self).wf(),
        ensures
            final(self).wf(),
            final(self)@ == (State { break_flow: true, ..old(self)@ }),
    {
        self.break_flow = true;
    }

    /// Gives `name` the value `value` in the innermost scope.
    pub fn set(&mut self, name: &String, value: Value)
        requires
            old(self).wf(),
        ensures
            final(self).wf(),
            final(self)@ == old(self)@.set(name@, value@),
    {
        self.assign(name, value);
    }

    /// Takes up a command line: the interrupt latch is cleared and the
    /// driver is asked to parse the line.
    ///
    /// Where something is under way the line comes back as the error, and
    /// the shell is as it was.
    pub fn on_command(&mut self, command_string: String) -> (result: Result<Request, String>)
        requires
            old(self).wf(),
        ensures
            final(self).wf(),
            old(self)@.control is Idle ==> (result matches Ok(request) && (final(self)@, request@)
                == old(self)@.on_command(command_string@)),
            !(old(self)@.control is Idle) ==> (result matches Err(line) && line@
                == command_string@ && final(self)@ == old(self)@),
    {
        if !self.is_idle() {
            return Err(command_string);
        }
        let request = self.enter_command(command_string);
        proof {
            crate::preservation::lemma_on_command_wf(old(self)@, command_string@);
        }
        Ok(request)
    }

    /// Makes one transition with the driver's reply to the last request.
    ///
    /// Where the shell did not ask for such a reply the reply comes back
    /// as the error, and the shell is as it was.
    pub fn step(&mut self, reply: Reply) -> (result: Result<Request, Reply>)
        requires
            old(self).wf(),
        ensures
            final(self).wf(),
            match step(old(self)@, reply@) {
                Some((state, request)) => result matches Ok(asked) && asked@ == request
                    && final(self)@ == state,
                None => result matches Err(given) && given@ == reply@ && final(self)@ == old(
                    self,
                )@,
            },
    {
        let result = match self.control {
            Control::Idle => Err(reply),
            Control::Halted(_) => Err(reply),
            Control::Run(_) => {
                match reply {
                    Reply::Proceed => {
                        let mut control = Control::Idle;
                        core::mem::swap(&mut self.control, &mut control);
                        match control {
                            Control::Run(statement) => {
                                proof {
                                    crate::preservation::lemma_execute_statement_control(
                                        old(self)@,
                                        ControlView::Idle,
                                        statement@,
                                    );
                                }
                                Ok(self.execute_statement(statement))
                            },
                            _ => vstd::pervasive::unreached(),
                        }
                    },
                    other => Err(other),
                }
            },
            Control::Deliver(condition) => {
                match reply {
                    Reply::Proceed => self.resume(condition),
                    other => Err(other),
                }
            },
            Control::Wait => self.receive(reply),
        };
        proof {
            crate::preservation::lemma_step_wf(old(self)@, reply@);
        }
        result
    }

    /// Gives the shell the driver's reply to the last request and lets it
    /// go on by itself until it asks something of the driver again: what
    /// comes back is never [`Request::Proceed`].
    ///
    /// Where the shell did not ask for such a reply the reply comes back
    /// as the error, and the shell is as it was.
    pub fn answer(&mut self, reply: Reply) -> (result: Result<Request, Reply>)
        requires
            old(self).wf(),
        ensures
            final(self).wf(),
            match step(old(self)@, reply@) {
                Some((state, request)) => result matches Ok(asked) && (final(self)@, asked@)
                    == until_asked(state, request) && !(asked@ is Proceed),
                None => result matches Err(given) && given@ == reply@ && final(self)@ == old(
                    self,
                )@,
            },
    {
        let mut request = match self.step(reply) {
            Ok(request) => request,
            Err(reply) => {
                return Err(reply);
            },
        };
        proof {
            crate::laws::request_tells_state(old(self)@, reply@);
        }
        loop
            invariant
                self.wf(),
                asks(self@, request@),
                step(old(self)@, reply@) matches Some((state, first)) && until_asked(state, first)
                    == until_asked(self@, request@),
            decreases measure(self@),
        {
            if !request.is_proceed() {
                return Ok(request);
            }
            proof {
                crate::laws::never_stuck(self@);
                crate::measure::own_step_lowers_measure(self@);
                crate::laws::request_tells_state(self@, crate::machine::ReplyView::Proceed);
            }
            request = match self.step(Reply::Proceed) {
                Ok(next) => next,
                Err(_) => vstd::pervasive::unreached(),
            };
            if !request.is_proceed() {
                return Ok(request);
            }
        }
    }
}

impl Shell {
    /// Puts a frame on the stack.
    fn push(&mut self, frame: Frame)
        requires
            old(self).inv(),
        ensures
            final(self).inv(),
            final(self)@ == old(self)@.pushed(frame@),
    {
        self.stack.push(frame);
        assert(self@.stack =~= old(self)@.stack.push(frame@));
    }

    /// Takes the innermost frame off the stack.
    fn pop(&mut self) -> (frame: Frame)
        requires
            old(self).inv(),
            old(self)@.stack.len() > 0,
        ensures
            final(self).inv(),
            frame@ == old(self)@.stack.last(),
            final(self)@ == old(self)@.popped(),
    {
        let frame = self.stack.pop().unwrap();
        assert(self@.stack =~= old(self)@.stack.drop_last());
        frame
    }

    /// Gives a variable a value in the innermost scope.
    fn assign(&mut self, name: &String, value: Value)
        requires
            old(self).inv(),
        ensures
            final(self).inv(),
            final(self)@ == old(self)@.set(name@, value@),
    {
        self.variables.set(name, value);
    }

    /// Writes the last status to the variable `?`.
    fn mirror(&mut self)
        requires
            old(self).inv(),
        ensures
            final(self).inv(),
            final(self)@ == old(self)@.mirrored(),
    {
        let name = "?".to_owned();
        let value = Value::Str(decimal_string(self.previous_status as i64));
        self.assign(&name, value);
    }

    /// Sets what the shell does next; nothing is asked of the driver.
    fn proceed(&mut self, control: Control) -> (request: Request)
        requires
            old(self).inv(),
        ensures
            final(self).inv(),
            (final(self)@, request@) == old(self)@.proceed(control@),
    {
        self.control = control;
        Request::Proceed
    }

    /// Yields a condition to the innermost frame.
    fn deliver(&mut self, condition: Condition) -> (request: Request)
        requires
            old(self).inv(),
        ensures
            final(self).inv(),
            (final(self)@, request@) == old(self)@.deliver(condition),
    {
        self.proceed(Control::Deliver(condition))
    }

    /// Makes a statement the next to be executed.
    fn run(&mut self, statement: Statement) -> (request: Request)
        requires
            old(self).inv(),
        ensures
            final(self).inv(),
            (final(self)@, request@) == old(self)@.run(statement@),
    {
        self.proceed(Control::Run(statement))
    }

    /// Leaves the next move to the driver, which is asked for `request`.
    fn wait(&mut self, request: Request) -> (asked: Request)
        requires
            old(self).inv(),
        ensures
            final(self).inv(),
            (final(self)@, asked@) == old(self)@.wait(request@),
    {
        self.control = Control::Wait;
        request
    }

    /// Ends a statement that has done its work: the driver is asked to poll
    /// for signals.
    fn probe(&mut self) -> (request: Request)
        requires
            old(self).inv(),
        ensures
            final(self).inv(),
            (final(self)@, request@) == old(self)@.probe(),
    {
        self.push(Frame::Probe);
        self.wait(Request::PollSignal)
    }

    /// Asks for the process to end.
    fn halt(&mut self, code: i32) -> (request: Request)
        requires
            old(self).inv(),
        ensures
            final(self).inv(),
            (final(self)@, request@) == old(self)@.halt(code),
    {
        self.control = Control::Halted(code);
        Request::Exit(code)
    }

    /// Goes on after a construct has yielded to the statement around it.
    fn pass(&mut self, condition: Condition) -> (request: Request)
        requires
            old(self).inv(),
        ensures
            final(self).inv(),
            (final(self)@, request@) == old(self)@.pass(condition),
    {
        if condition.is_noop() {
            self.probe()
        } else {
            self.deliver(condition)
        }
    }

    /// Begins a block: the statements get a scope of their own.
    fn execute_statements(&mut self, statements: Vec<Statement>) -> (request: Request)
        requires
            old(self).inv(),
        ensures
            final(self).inv(),
            (final(self)@, request@) == old(self)@.execute_statements(statements_view(statements@)),
    {
        self.variables.new_scope(false);
        self.push(Frame::Block { rest: statements });
        self.deliver(Condition::NoOp)
    }

    /// Closes the scope of a block that is over.
    fn leave_block(&mut self, condition: Condition) -> (request: Request)
        requires
            old(self).inv(),
            old(self)@.scopes.len() > 1,
        ensures
            final(self).inv(),
            (final(self)@, request@) == old(self)@.leave_block(condition),
    {
        self.variables.pop_scope();
        self.deliver(condition)
    }

    /// Takes up a command line: the interrupt latch is cleared and the
    /// driver is asked to parse the line.
    fn enter_command(&mut self, line: String) -> (request: Request)
        requires
            old(self).inv(),
        ensures
            final(self).inv(),
            (final(self)@, request@) == old(self)@.on_command(line@),
    {
        self.break_flow = false;
        let rest: Vec<Statement> = Vec::new();
        assert(statements_view(rest@) =~= Seq::empty());
        self.push(Frame::Command { rest, diagnostic: None, stage: CommandStage::Parsing });
        self.wait(Request::Parse(line))
    }

    /// Ends a command line.
    fn leave_command(&mut self) -> (request: Request)
        requires
            old(self).inv(),
        ensures
            final(self).inv(),
            (final(self)@, request@) == old(self)@.leave_command(),
    {
        if self.stack.len() == 0 {
            self.control = Control::Idle;
            Request::Finished
        } else {
            self.deliver(Condition::NoOp)
        }
    }

    /// Executes the next statement of a command line, or reports the
    /// diagnostic after the last one.
    fn advance_command(&mut self, rest: Vec<Statement>, diagnostic: Option<String>) -> (request:
        Request)
        requires
            old(self).inv(),
        ensures
            final(self).inv(),
            (final(self)@, request@) == old(self)@.advance_command(
                statements_view(rest@),
                optional_text(diagnostic),
            ),
    {
        let mut rest = rest;
        if rest.len() > 0 {
            let ghost before = rest@;
            let statement = rest.remove(0);
            assert(statements_view(rest@) =~= statements_view(before).drop_first());
            self.push(Frame::Command { rest, diagnostic, stage: CommandStage::Running });
            self.run(statement)
        } else {
            match diagnostic {
                Some(message) => {
                    self.push(
                        Frame::Command { rest, diagnostic: None, stage: CommandStage::Reporting },
                    );
                    self.wait(Request::Report(message))
                },
                None => self.leave_command(),
            }
        }
    }

    /// Binds the variable of a loop, unless its name is `_`.
    fn bind(&mut self, variable: &String, value: String)
        requires
            old(self).inv(),
        ensures
            final(self).inv(),
            final(self)@ == old(self)@.bound(variable@, value@),
    {
        let ignored = "_".to_owned();
        if *variable == ignored {
        } else {
            self.assign(variable, Value::Str(value));
        }
    }

    /// Takes the next value of a `for` loop and enters the body with it.
    fn advance_for(&mut self, variable: String, statements: Vec<Statement>, iter: ForIter) -> (request:
        Request)
        requires
            old(self).inv(),
        ensures
            final(self).inv(),
            (final(self)@, request@) == old(self)@.advance_for(
                variable@,
                statements_view(statements@),
                iter@,
            ),
    {
        match iter {
            ForIter::Items(items) => {
                let mut items = items;
                if items.len() > 0 {
                    let ghost before = items@;
                    let value = items.remove(0);
                    assert(texts(items@) =~= texts(before).drop_first());
                    let name = variable.clone();
                    let body = clone_statements(&statements);
                    self.push(Frame::For { variable, statements, iter: ForIter::Items(items) });
                    self.bind(&name, value);
                    self.execute_statements(body)
                } else {
                    self.deliver(Condition::NoOp)
                }
            },
            ForIter::Range(next, end) => {
                if next < end {
                    let value = decimal_string(next);
                    let name = variable.clone();
                    let body = clone_statements(&statements);
                    self.push(
                        Frame::For { variable, statements, iter: ForIter::Range(next + 1, end) },
                    );
                    self.bind(&name, value);
                    self.execute_statements(body)
                } else {
                    self.deliver(Condition::NoOp)
                }
            },
            ForIter::Waiting => self.deliver(Condition::NoOp),
        }
    }

    /// What a name holds, if it is of the kind of the subject of a `match`.
    fn previous(&self, is_array: bool, name: &String) -> (saved: Option<Value>)
        requires
            self.inv(),
        ensures
            optional_value(saved) == self@.previous(is_array, name@),
    {
        match self.variables.get(name) {
            Some(Value::Array(list)) => {
                if is_array {
                    Some(Value::Array(list.clone()))
                } else {
                    None
                }
            },
            Some(Value::Str(text)) => {
                if is_array {
                    None
                } else {
                    Some(Value::Str(text.clone()))
                }
            },
            _ => None,
        }
    }

    /// Gives the binding of a case back what it held before.
    fn restore(&mut self, binding: &Option<String>, saved: Option<Value>)
        requires
            old(self).inv(),
        ensures
            final(self).inv(),
            final(self)@ == old(self)@.restored(optional_text(*binding), optional_value(saved)),
    {
        match binding {
            Some(name) => {
                match saved {
                    Some(value) => {
                        self.assign(name, value);
                    },
                    None => {},
                }
            },
            None => {},
        }
    }

    /// Takes the first of `cases`: binds the subject and goes on with the
    /// guard or the body.
    fn take_case(&mut self, is_array: bool, subject: Vec<String>, cases: Vec<Case>) -> (request:
        Request)
        requires
            old(self).inv(),
            cases@.len() > 0,
        ensures
            final(self).inv(),
            (final(self)@, request@) == old(self)@.take_case(
                is_array,
                texts(subject@),
                cases_view(cases@),
            ),
    {
        let binding = clone_optional_text(&cases[0].binding);
        let guard = clone_optional_text(&cases[0].guard);
        let body = clone_statements(&cases[0].body);
        let mut saved: Option<Value> = None;
        match &binding {
            Some(name) => {
                saved = self.previous(is_array, name);
                let value = if is_array {
                    Value::Array(subject.clone())
                } else {
                    Value::Str(join(&subject, " "))
                };
                self.assign(name, value);
            },
            None => {},
        }
        match guard {
            Some(guard) => {
                self.push(Frame::Match { is_array, subject, cases, stage: MatchStage::Guard, saved });
                self.enter_command(guard)
            },
            None => {
                self.push(Frame::Match { is_array, subject, cases, stage: MatchStage::Body, saved });
                self.execute_statements(body)
            },
        }
    }

    /// Turns to the first of `cases`.
    fn advance_match(&mut self, is_array: bool, subject: Vec<String>, cases: Vec<Case>) -> (request:
        Request)
        requires
            old(self).inv(),
        ensures
            final(self).inv(),
            (final(self)@, request@) == old(self)@.advance_match(
                is_array,
                texts(subject@),
                cases_view(cases@),
            ),
    {
        if cases.len() == 0 {
            self.deliver(Condition::NoOp)
        } else {
            match clone_optional_texts(&cases[0].patterns) {
                None => self.take_case(is_array, subject, cases),
                Some(patterns) => {
                    self.push(
                        Frame::Match {
                            is_array,
                            subject,
                            cases,
                            stage: MatchStage::Patterns,
                            saved: None,
                        },
                    );
                    self.wait(Request::ExpandPatterns(patterns))
                },
            }
        }
    }

    /// Begins an `if`: the condition of its first arm is executed.
    fn execute_if(
        &mut self,
        expression: Statement,
        success: Vec<Statement>,
        else_if: Vec<ElseIf>,
        failure: Vec<Statement>,
    ) -> (request: Request)
        requires
            old(self).inv(),
        ensures
            final(self).inv(),
            (final(self)@, request@) == old(self)@.execute_if(
                expression@,
                statements_view(success@),
                else_ifs_view(else_if@),
                statements_view(failure@),
            ),
    {
        let mut test: Vec<Statement> = Vec::new();
        test.push(expression);
        assert(statements_view(test@) =~= seq![expression@]);
        self.push(Frame::If { success, else_if, failure });
        self.execute_statements(test)
    }

    /// Begins a `while` loop: its pipeline is run.
    fn execute_while(&mut self, expression: String, statements: Vec<Statement>) -> (request:
        Request)
        requires
            old(self).inv(),
        ensures
            final(self).inv(),
            (final(self)@, request@) == old(self)@.execute_while(
                expression@,
                statements_view(statements@),
            ),
    {
        let pipeline = expression.clone();
        self.push(Frame::While { expression, statements });
        self.wait(Request::RunPipeline(pipeline))
    }

    /// Begins a `for` loop: its words are expanded.
    fn execute_for(&mut self, variable: String, values: Vec<String>, statements: Vec<Statement>) -> (request:
        Request)
        requires
            old(self).inv(),
        ensures
            final(self).inv(),
            (final(self)@, request@) == old(self)@.execute_for(
                variable@,
                texts(values@),
                statements_view(statements@),
            ),
    {
        self.push(Frame::For { variable, statements, iter: ForIter::Waiting });
        self.wait(Request::ExpandFor(values))
    }

    /// Begins a `match`: its subject is expanded.
    fn execute_match(&mut self, expression: String, cases: Vec<Case>) -> (request: Request)
        requires
            old(self).inv(),
        ensures
            final(self).inv(),
            (final(self)@, request@) == old(self)@.execute_match(expression@, cases_view(cases@)),
    {
        let subject: Vec<String> = Vec::new();
        assert(texts(subject@) =~= Seq::empty());
        self.push(
            Frame::Match {
                is_array: false,
                subject,
                cases,
                stage: MatchStage::Subject,
                saved: None,
            },
        );
        self.wait(Request::ExpandSubject(expression))
    }

    /// Executes a statement.
    fn execute_statement(&mut self, statement: Statement) -> (request: Request)
        requires
            old(self).inv(),
        ensures
            final(self).inv(),
            (final(self)@, request@) == old(self)@.execute_statement(statement@),
    {
        match statement {
            Statement::Error(number) => {
                self.previous_status = number;
                self.probe()
            },
            Statement::Let(action) => {
                self.push(Frame::Assign);
                self.wait(Request::Assign { export: false, action })
            },
            Statement::Export(action) => {
                self.push(Frame::Assign);
                self.wait(Request::Assign { export: true, action })
            },
            Statement::Pipeline(pipeline) => {
                self.push(Frame::Pipeline);
                self.wait(Request::RunPipeline(pipeline))
            },
            Statement::If { expression, success, else_if, failure } => {
                self.push(Frame::After(Wrapper::Compound));
                self.execute_if(*expression, success, else_if, failure)
            },
            Statement::While { expression, statements } => {
                self.push(Frame::After(Wrapper::Loop));
                self.execute_while(expression, statements)
            },
            Statement::For { variable, values, statements } => {
                self.push(Frame::After(Wrapper::Loop));
                self.execute_for(variable, values, statements)
            },
            Statement::Match { expression, cases } => {
                self.push(Frame::After(Wrapper::Compound));
                self.execute_match(expression, cases)
            },
            Statement::Function { name, args, statements, description } => {
                let key = name.clone();
                self.assign(
                    &key,
                    Value::Function(Function { description, name, args, statements }),
                );
                self.probe()
            },
            Statement::Time(inner) => {
                self.push(Frame::Time(TimeStage::Starting(*inner)));
                self.wait(Request::ReadClock)
            },
            Statement::And(inner) => {
                if self.previous_status == SUCCESS {
                    self.push(Frame::After(Wrapper::Compound));
                    self.run(*inner)
                } else {
                    self.probe()
                }
            },
            Statement::Or(inner) => {
                if self.previous_status == FAILURE {
                    self.push(Frame::After(Wrapper::Compound));
                    self.run(*inner)
                } else {
                    self.probe()
                }
            },
            Statement::Not(inner) => {
                self.push(Frame::After(Wrapper::Not));
                self.run(*inner)
            },
            Statement::Break => self.deliver(Condition::Break),
            Statement::Continue => self.deliver(Condition::Continue),
            Statement::Default => self.probe(),
        }
    }

    /// Goes on with a block after one of its statements.
    fn resume_block(&mut self, rest: Vec<Statement>, condition: Condition) -> (request: Request)
        requires
            old(self).inv(),
            old(self)@.scopes.len() > 1,
        ensures
            final(self).inv(),
            (final(self)@, request@) == old(self)@.resume_block(statements_view(rest@), condition),
    {
        let mut rest = rest;
        if condition.is_noop() && rest.len() > 0 {
            let ghost before = rest@;
            let statement = rest.remove(0);
            assert(statements_view(rest@) =~= statements_view(before).drop_first());
            self.push(Frame::Block { rest });
            self.run(statement)
        } else {
            self.leave_block(condition)
        }
    }

    /// Goes on with a statement after the construct that it encloses.
    fn resume_after(&mut self, wrapper: Wrapper, condition: Condition) -> (request: Request)
        requires
            old(self).inv(),
        ensures
            final(self).inv(),
            (final(self)@, request@) == old(self)@.resume_after(wrapper, condition),
    {
        match wrapper {
            Wrapper::Loop => {
                if condition.is_sigint() {
                    self.deliver(Condition::SigInt)
                } else {
                    self.probe()
                }
            },
            Wrapper::Compound => self.pass(condition),
            Wrapper::Not => {
                self.previous_status = invert(self.previous_status);
                self.mirror();
                self.probe()
            },
        }
    }

    /// Goes on with an `if` after the condition of an arm.
    fn resume_if(
        &mut self,
        success: Vec<Statement>,
        else_if: Vec<ElseIf>,
        failure: Vec<Statement>,
        condition: Condition,
    ) -> (request: Request)
        requires
            old(self).inv(),
        ensures
            final(self).inv(),
            (final(self)@, request@) == old(self)@.resume_if(
                statements_view(success@),
                else_ifs_view(else_if@),
                statements_view(failure@),
                condition,
            ),
    {
        let mut else_if = else_if;
        if condition.is_sigint() {
            self.deliver(Condition::SigInt)
        } else if self.previous_status == SUCCESS {
            self.execute_statements(success)
        } else if else_if.len() > 0 {
            let ghost before = else_if@;
            let arm = else_if.remove(0);
            assert(else_ifs_view(else_if@) =~= else_ifs_view(before).drop_first());
            let mut test: Vec<Statement> = Vec::new();
            test.push(arm.expression);
            assert(statements_view(test@) =~= seq![arm.expression@]);
            self.push(Frame::If { success: arm.success, else_if, failure });
            self.execute_statements(test)
        } else {
            self.execute_statements(failure)
        }
    }

    /// Goes on with a `while` loop after its body.
    fn resume_while(&mut self, expression: String, statements: Vec<Statement>, condition: Condition) -> (request:
        Request)
        requires
            old(self).inv(),
        ensures
            final(self).inv(),
            (final(self)@, request@) == old(self)@.resume_while(
                expression@,
                statements_view(statements@),
                condition,
            ),
    {
        match condition.leaves_loop() {
            Some(exit) => self.deliver(exit),
            None => {
                let pipeline = expression.clone();
                self.push(Frame::While { expression, statements });
                self.wait(Request::RunPipeline(pipeline))
            },
        }
    }

    /// Goes on with a `for` loop after its body.
    fn resume_for(
        &mut self,
        variable: String,
        statements: Vec<Statement>,
        iter: ForIter,
        condition: Condition,
    ) -> (request: Request)
        requires
            old(self).inv(),
        ensures
            final(self).inv(),
            (final(self)@, request@) == old(self)@.resume_for(
                variable@,
                statements_view(statements@),
                iter@,
                condition,
            ),
    {
        match condition.leaves_loop() {
            Some(exit) => self.deliver(exit),
            None => self.advance_for(variable, statements, iter),
        }
    }

    /// Goes on with a `match` after the guard of its current case.
    fn resume_guard(
        &mut self,
        is_array: bool,
        subject: Vec<String>,
        cases: Vec<Case>,
        saved: Option<Value>,
    ) -> (request: Request)
        requires
            old(self).inv(),
            cases@.len() > 0,
        ensures
            final(self).inv(),
            (final(self)@, request@) == old(self)@.resume_guard(
                is_array,
                texts(subject@),
                cases_view(cases@),
                optional_value(saved),
            ),
    {
        let mut cases = cases;
        if self.previous_status != SUCCESS {
            let ghost before = cases@;
            let case = cases.remove(0);
            assert(cases_view(cases@) =~= cases_view(before).drop_first());
            self.restore(&case.binding, saved);
            self.advance_match(is_array, subject, cases)
        } else {
            let body = clone_statements(&cases[0].body);
            self.push(Frame::Match { is_array, subject, cases, stage: MatchStage::Body, saved });
            self.execute_statements(body)
        }
    }

    /// Ends a `match` after the body of its current case.
    fn resume_body(&mut self, binding: &Option<String>, saved: Option<Value>, condition: Condition) -> (request:
        Request)
        requires
            old(self).inv(),
        ensures
            final(self).inv(),
            (final(self)@, request@) == old(self)@.resume_body(
                optional_text(*binding),
                optional_value(saved),
                condition,
            ),
    {
        self.restore(binding, saved);
        self.deliver(condition)
    }

    /// Takes the innermost frame off the stack and goes on with the
    /// condition that was yielded to it.
    fn resume(&mut self, condition: Condition) -> (result: Result<Request, Reply>)
        requires
            old(self).wf(),
        ensures
            final(self).inv(),
            match old(self)@.resume(condition) {
                Some((state, request)) => result matches Ok(asked) && asked@ == request
                    && final(self)@ == state,
                None => result matches Err(Reply::Proceed) && final(self)@ == old(self)@,
            },
    {
        if self.stack.len() == 0 {
            self.control = Control::Idle;
            return Ok(Request::Finished);
        }
        let ghost whole = self@;
        let frame = self.pop();
        match frame {
            Frame::Command { rest, diagnostic, stage: CommandStage::Running } => Ok(
                self.advance_command(rest, diagnostic),
            ),
            Frame::Block { rest } => Ok(self.resume_block(rest, condition)),
            Frame::After(wrapper) => Ok(self.resume_after(wrapper, condition)),
            Frame::Time(TimeStage::Running(start)) => {
                self.push(Frame::Time(TimeStage::Stopping(start, condition)));
                Ok(self.wait(Request::ReadClock))
            },
            Frame::If { success, else_if, failure } => Ok(
                self.resume_if(success, else_if, failure, condition),
            ),
            Frame::While { expression, statements } => Ok(
                self.resume_while(expression, statements, condition),
            ),
            Frame::For { variable, statements, iter } => {
                match iter {
                    ForIter::Waiting => {
                        self.push(Frame::For { variable, statements, iter: ForIter::Waiting });
                        assert(self@.stack =~= whole.stack);
                        Err(Reply::Proceed)
                    },
                    iter => Ok(self.resume_for(variable, statements, iter, condition)),
                }
            },
            Frame::Match { is_array, subject, cases, stage: MatchStage::Guard, saved } => {
                if cases.len() == 0 {
                    self.push(
                        Frame::Match { is_array, subject, cases, stage: MatchStage::Guard, saved },
                    );
                    assert(self@.stack =~= whole.stack);
                    Err(Reply::Proceed)
                } else {
                    Ok(self.resume_guard(is_array, subject, cases, saved))
                }
            },
            Frame::Match { is_array, subject, cases, stage: MatchStage::Body, saved } => {
                if cases.len() == 0 {
                    self.push(
                        Frame::Match { is_array, subject, cases, stage: MatchStage::Body, saved },
                    );
                    assert(self@.stack =~= whole.stack);
                    Err(Reply::Proceed)
                } else {
                    Ok(self.resume_body(&cases[0].binding, saved, condition))
                }
            },
            other => {
                self.push(other);
                assert(self@.stack =~= whole.stack);
                Err(Reply::Proceed)
            },
        }
    }

    /// Decides what a statement yields by the signal that was pending.
    fn signal_probe(&mut self, signal: Option<Delivery>) -> (request: Request)
        requires
            old(self).inv(),
        ensures
            final(self).inv(),
            (final(self)@, request@) == old(self)@.signal_probe(signal),
    {
        match signal {
            Some(delivery) => {
                if delivery.terminal {
                    self.halt(delivery.code)
                } else {
                    self.deliver(Condition::SigInt)
                }
            },
            None => {
                if self.break_flow {
                    self.break_flow = false;
                    self.deliver(Condition::SigInt)
                } else {
                    self.deliver(Condition::NoOp)
                }
            },
        }
    }

    /// Goes on with a pipeline statement after its pipeline.
    fn after_pipeline(&mut self) -> (request: Request)
        requires
            old(self).inv(),
        ensures
            final(self).inv(),
            (final(self)@, request@) == old(self)@.after_pipeline(),
    {
        if self.flags & ERR_EXIT != 0 && self.previous_status != SUCCESS {
            let status = self.previous_status;
            self.halt(status)
        } else {
            self.probe()
        }
    }

    /// Goes on with a `while` loop after its pipeline.
    fn test_while(&mut self, expression: String, statements: Vec<Statement>, returned: Option<i32>) -> (request:
        Request)
        requires
            old(self).inv(),
        ensures
            final(self).inv(),
            (final(self)@, request@) == old(self)@.test_while(
                expression@,
                statements_view(statements@),
                returned,
            ),
    {
        let succeeded = match returned {
            Some(code) => code == SUCCESS,
            None => false,
        };
        if succeeded {
            let body = clone_statements(&statements);
            self.push(Frame::While { expression, statements });
            self.execute_statements(body)
        } else {
            self.deliver(Condition::NoOp)
        }
    }

    /// Goes on with a `match` after the patterns of its current case.
    fn try_case(
        &mut self,
        is_array: bool,
        subject: Vec<String>,
        cases: Vec<Case>,
        values: Vec<String>,
    ) -> (request: Request)
        requires
            old(self).inv(),
            cases@.len() > 0,
        ensures
            final(self).inv(),
            (final(self)@, request@) == old(self)@.try_case(
                is_array,
                texts(subject@),
                cases_view(cases@),
                texts(values@),
            ),
    {
        let mut cases = cases;
        if overlap(&values, &subject) {
            self.take_case(is_array, subject, cases)
        } else {
            let ghost before = cases@;
            let _ = cases.remove(0);
            assert(cases_view(cases@) =~= cases_view(before).drop_first());
            self.advance_match(is_array, subject, cases)
        }
    }

    /// Takes the innermost frame off the stack and goes on with the reply
    /// of the driver.
    fn receive(&mut self, reply: Reply) -> (result: Result<Request, Reply>)
        requires
            old(self).wf(),
        ensures
            final(self).inv(),
            match old(self)@.receive(reply@) {
                Some((state, request)) => result matches Ok(asked) && asked@ == request
                    && final(self)@ == state,
                None => result matches Err(given) && given@ == reply@ && final(self)@ == old(
                    self,
                )@,
            },
    {
        if self.stack.len() == 0 {
            return Err(reply);
        }
        let ghost whole = self@;
        let frame = self.pop();
        match (frame, reply) {
            (Frame::Probe, Reply::Signal(signal)) => Ok(self.signal_probe(signal)),
            (Frame::Assign, Reply::Status(status)) => {
                self.previous_status = status;
                self.mirror();
                Ok(self.probe())
            },
            (Frame::Pipeline, Reply::Pipeline(_)) => Ok(self.after_pipeline()),
            (Frame::While { expression, statements }, Reply::Pipeline(returned)) => Ok(
                self.test_while(expression, statements, returned),
            ),
            (Frame::For { variable, statements, iter: ForIter::Waiting }, Reply::Values(values)) => {
                let iter = match values {
                    ForExpression::Multiple(list) => ForIter::Items(list),
                    ForExpression::Normal(text) => ForIter::Items(lines(text.as_str())),
                    ForExpression::Range(start, end) => ForIter::Range(start, end),
                };
                Ok(self.advance_for(variable, statements, iter))
            },
            (
                Frame::Match { is_array: _, subject: _, cases, stage: MatchStage::Subject, saved: _ },
                Reply::Subject { is_array, values },
            ) => Ok(self.advance_match(is_array, values, cases)),
            (
                Frame::Match { is_array, subject, cases, stage: MatchStage::Patterns, saved },
                Reply::Expanded(values),
            ) => {
                if cases.len() == 0 {
                    self.push(
                        Frame::Match { is_array, subject, cases, stage: MatchStage::Patterns, saved },
                    );
                    assert(self@.stack =~= whole.stack);
                    Err(Reply::Expanded(values))
                } else {
                    Ok(self.try_case(is_array, subject, cases, values))
                }
            },
            (
                Frame::Command { rest: _, diagnostic: _, stage: CommandStage::Parsing },
                Reply::Parsed { statements, diagnostic },
            ) => Ok(self.advance_command(statements, diagnostic)),
            (
                Frame::Command { rest: _, diagnostic: _, stage: CommandStage::Reporting },
                Reply::Proceed,
            ) => Ok(self.leave_command()),
            (Frame::Time(TimeStage::Starting(statement)), Reply::Clock(now)) => {
                if now.is_valid() {
                    self.push(Frame::Time(TimeStage::Running(now)));
                    Ok(self.run(statement))
                } else {
                    self.push(Frame::Time(TimeStage::Starting(statement)));
                    assert(self@.stack =~= whole.stack);
                    Err(Reply::Clock(now))
                }
            },
            (Frame::Time(TimeStage::Stopping(start, condition)), Reply::Clock(now)) => {
                if now.is_valid() {
                    assert(crate::machine::frame_wf(whole.stack[whole.stack.len() - 1]));
                    let line = start.elapsed(&now).report();
                    self.push(Frame::Time(TimeStage::Printing(condition)));
                    Ok(self.wait(Request::Print(line)))
                } else {
                    self.push(Frame::Time(TimeStage::Stopping(start, condition)));
                    assert(self@.stack =~= whole.stack);
                    Err(Reply::Clock(now))
                }
            },
            (Frame::Time(TimeStage::Printing(condition)), Reply::Proceed) => Ok(
                self.pass(condition),
            ),
            (other, reply) => {
                self.push(other);
                assert(self@.stack =~= whole.stack);
                Err(reply)
            },
        }
    }
}

/// The status that `not` makes of a status: success and plain failure
/// change places, every other status stays.
pub fn invert(status: i32) -> (result: i32)
    ensures
        result == inverted(status),
{
    if status == SUCCESS {
        FAILURE
    } else if status == FAILURE {
        SUCCESS
    } else {
        status
    }
}

} // verus!
