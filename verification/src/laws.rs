//! What holds of every execution.
//!
//! The laws are stated of the machine in [`crate::machine`] and of what the
//! statements come to in [`crate::semantics`]. The shell in [`crate::shell`]
//! makes the transitions of that machine and no others, and the machine
//! does what the statements come to, so the laws hold of every run of the
//! shell.

use crate::adequacy::{block_is_executed, command_line_is_executed, statement_is_executed};
use crate::condition::Condition;
use crate::machine::{
    after, answers, asks, blocks, inverted, run, settled, step, takes_condition, takes_reply,
    CommandStage, ControlView, Delivery, ForIterView, FrameView, MatchStage, Move, ReplyView,
    RequestView, State, TimeView, Wrapper, FAILURE, SUCCESS,
};
use crate::measure::{measure, own_step_lowers_measure, until_asked};
use crate::preservation::{lemma_on_command_wf, lemma_step_wf};
use crate::semantics::{
    drive, execute_body, execute_for, execute_if, execute_statement, execute_statements,
    execute_while, logged, run_command, run_statements, Course, Finish,
};
use crate::statement::{CaseView, StatementView};
use crate::text::overlapping;
use crate::variables::{lemma_lookup_assigned, lookup, opened, ValueView};
use vstd::prelude::*;

verus! {

/// The invariant of the machine holds after every move.
pub proof fn invariant_kept(state: State, action: Move)
    requires
        state.wf(),
    ensures
        after(state, action).wf(),
{
    match action {
        Move::Step(reply) => lemma_step_wf(state, reply),
        _ => {},
    }
}

/// The invariant of the machine holds after every sequence of moves.
pub proof fn invariant_kept_throughout(state: State, moves: Seq<Move>)
    requires
        state.wf(),
    ensures
        run(state, moves).wf(),
    decreases moves.len(),
{
    if moves.len() > 0 {
        invariant_kept(state, moves[0]);
        invariant_kept_throughout(after(state, moves[0]), moves.drop_first());
    }
}

/// Scope balance. Whatever command line an idle shell takes up and whatever
/// the driver does then, at every moment each open scope but the global one
/// belongs to a block that is under way; so once the shell is idle again,
/// every scope that was opened has been closed, also where an interrupt
/// ended the execution at some depth.
pub proof fn scope_balance(state: State, line: Seq<char>, moves: Seq<Move>)
    requires
        state.wf(),
        state.control is Idle,
    ensures
        ({
            let end = run(state.on_command(line).0, moves);
            &&& end.scopes.len() == state.scopes.len() + blocks(end.stack)
            &&& end.control is Idle ==> end.scopes.len() == state.scopes.len()
        }),
{
    lemma_on_command_wf(state, line);
    invariant_kept_throughout(state.on_command(line).0, moves);
    let end = run(state.on_command(line).0, moves);
    assert(blocks(state.stack) == 0);
    if end.control is Idle {
        assert(blocks(end.stack) == 0);
    }
}

/// Status mirror, for assignments. When the driver has evaluated a `let` or
/// an `export`, the last status is the status that it reported, and the
/// variable `?` holds it in decimal.
pub proof fn status_mirror_assignment(state: State, status: i32)
    requires
        state.wf(),
        state.control is Wait,
        state.stack.len() > 0,
        state.stack.last() is Assign,
    ensures
        step(state, ReplyView::Status(status)) matches Some((next, request)) && next.status
            == status && next.status_mirrored() && request == RequestView::PollSignal,
{
    lemma_lookup_assigned(
        state.scopes,
        "?"@,
        ValueView::Str(crate::text::decimal(status as int)),
    );
}

/// Status mirror, for `not`. When the statement of a `not` has yielded,
/// the last status is inverted, and the variable `?` holds the new status
/// in decimal.
pub proof fn status_mirror_not(state: State, condition: Condition)
    requires
        state.wf(),
        state.control == ControlView::Deliver(condition),
        state.stack.len() > 0,
        state.stack.last() == FrameView::After(Wrapper::Not),
    ensures
        step(state, ReplyView::Proceed) matches Some((next, request)) && next.status == inverted(
            state.status,
        ) && next.status_mirrored() && request == RequestView::PollSignal,
{
    lemma_lookup_assigned(
        state.scopes,
        "?"@,
        ValueView::Str(crate::text::decimal(inverted(state.status) as int)),
    );
}

/// Status mirror, for pipelines. When the driver records the status of a
/// pipeline, the variable `?` holds it in decimal.
pub proof fn status_mirror_pipeline(state: State, status: i32)
    requires
        state.wf(),
    ensures
        after(state, Move::Status(status)).status == status,
        after(state, Move::Status(status)).status_mirrored(),
{
    lemma_lookup_assigned(
        state.scopes,
        "?"@,
        ValueView::Str(crate::text::decimal(status as int)),
    );
}

/// The poll for signals that ends a statement changes neither the status
/// nor a variable: what a statement mirrored is still mirrored when the
/// statement has yielded.
pub proof fn status_mirror_kept(state: State, signal: Option<Delivery>)
    requires
        state.control is Wait,
        state.stack.len() > 0,
        state.stack.last() is Probe,
    ensures
        step(state, ReplyView::Signal(signal)) matches Some((next, _)) && next.status
            == state.status && next.scopes == state.scopes,
{
}

/// Break containment, at the top level. A command line goes on in the
/// same way whatever its statement yielded: `break`, `continue` and an
/// interrupt that reach the command line are dropped there, and the
/// statements behind are executed as after any other statement.
pub proof fn break_contained(state: State, first: Condition, second: Condition)
    requires
        state.stack.len() > 0,
        state.stack.last() is Command,
    ensures
        step(State { control: ControlView::Deliver(first), ..state }, ReplyView::Proceed) == step(
            State { control: ControlView::Deliver(second), ..state },
            ReplyView::Proceed,
        ),
{
}

/// Break containment, from the statement on. A `break` or a `continue`
/// that is a statement of the command line itself changes nothing: two
/// transitions lead to where the command line goes on with the statements
/// behind it, with the state as it was.
pub proof fn break_at_top_level(
    state: State,
    rest: Seq<StatementView>,
    diagnostic: Option<Seq<char>>,
)
    requires
        state.control == ControlView::Run(StatementView::Break) || state.control
            == ControlView::Run(StatementView::Continue),
        state.stack.len() > 0,
        state.stack.last() == (FrameView::Command {
            rest,
            diagnostic,
            stage: CommandStage::Running,
        }),
    ensures
        step(state, ReplyView::Proceed) matches Some((yielded, request)) && request
            == RequestView::Proceed && step(yielded, ReplyView::Proceed) == Some(
            state.popped().advance_command(rest, diagnostic),
        ),
{
}

/// Break containment, in loops. A loop whose body yields `break` ends
/// without passing it on; one whose body yields `continue` goes on; and
/// the statement around a loop passes nothing on but an interrupt.
pub proof fn break_contained_in_loops(state: State, condition: Condition)
    requires
        state.stack.len() > 0,
        state.control == ControlView::Deliver(condition),
    ensures
        state.stack.last() is While && condition == Condition::Break ==> step(
            state,
            ReplyView::Proceed,
        ) == Some(state.popped().deliver(Condition::NoOp)),
        state.stack.last() matches FrameView::For { iter, .. } && !(iter is Waiting) && condition
            == Condition::Break ==> step(state, ReplyView::Proceed) == Some(
            state.popped().deliver(Condition::NoOp),
        ),
        state.stack.last() == FrameView::After(Wrapper::Loop) && condition != Condition::SigInt
            ==> step(state, ReplyView::Proceed) == Some(state.popped().probe()),
{
}

/// Whether a frame passes an interrupt on to the frame below it at once.
/// The others are a `time` statement, which reports first; `not`, which
/// drops what its statement yields; and a command line, at which every
/// condition ends.
pub open spec fn unwinds(frame: FrameView) -> bool {
    match frame {
        FrameView::Block { .. } => true,
        FrameView::After(Wrapper::Loop) => true,
        FrameView::After(Wrapper::Compound) => true,
        FrameView::If { .. } => true,
        FrameView::While { .. } => true,
        FrameView::For { iter, .. } => !(iter is Waiting),
        FrameView::Match { cases, stage: MatchStage::Body, .. } => cases.len() > 0,
        _ => false,
    }
}

/// Interrupt monotonicity. Where a statement has yielded an interrupt, the
/// block, loop, `if` or `match` around it ends at once and yields the
/// interrupt in its turn: no further statement of the block is run, no
/// further iteration is begun, no further arm is tried. Nothing is left of
/// the frame, and nothing is put in its place.
pub proof fn sigint_unwinds(state: State)
    requires
        state.wf(),
        state.control == ControlView::Deliver(Condition::SigInt),
        state.stack.len() > 0,
        unwinds(state.stack.last()),
    ensures
        step(state, ReplyView::Proceed) matches Some((next, request)) && next.control
            == ControlView::Deliver(Condition::SigInt) && next.stack == state.stack.drop_last()
            && request == RequestView::Proceed,
{
}

/// Interrupt monotonicity, for `time`. A `time` statement whose statement
/// has yielded an interrupt reads the clock and prints its report, and
/// then yields the interrupt in its turn.
pub proof fn sigint_unwinds_time(state: State, start: crate::clock::Instant, now: crate::clock::Instant)
    requires
        now.valid(),
        state.stack.len() > 0,
        state.stack.last() == FrameView::Time(TimeView::Running(start)),
    ensures
        ({
            let yielded = State { control: ControlView::Deliver(Condition::SigInt), ..state };
            let below = state.popped();
            let stopping = below.pushed(
                FrameView::Time(TimeView::Stopping(start, Condition::SigInt)),
            ).wait(RequestView::ReadClock);
            let printing = below.pushed(FrameView::Time(TimeView::Printing(Condition::SigInt))).wait(
                RequestView::Print(start.until(now).line()),
            );
            &&& step(yielded, ReplyView::Proceed) == Some(stopping)
            &&& step(stopping.0, ReplyView::Clock(now)) == Some(printing)
            &&& step(printing.0, ReplyView::Proceed) == Some(below.deliver(Condition::SigInt))
        }),
{
    let below = state.popped();
    let stopping = below.pushed(FrameView::Time(TimeView::Stopping(start, Condition::SigInt)));
    let printing = below.pushed(FrameView::Time(TimeView::Printing(Condition::SigInt)));
    assert(stopping.popped().stack =~= below.stack);
    assert(printing.popped().stack =~= below.stack);
    assert(stopping.popped() == below);
    assert(printing.popped() == below);
}

/// A loop variable named `_` is not bound: when a `for` loop with that
/// variable takes its next value, no variable is written; the only change
/// to the scopes is the new, empty scope of the body.
pub proof fn for_underscore_binds_nothing(
    state: State,
    statements: Seq<StatementView>,
    iter: ForIterView,
    name: Seq<char>,
)
    ensures
        ({
            let next = state.advance_for("_"@, statements, iter).0;
            &&& next.scopes == state.scopes || next.scopes == opened(state.scopes, false)
            &&& lookup(next.scopes, name) == lookup(state.scopes, name)
        }),
{
    let next = state.advance_for("_"@, statements, iter).0;
    if next.scopes != state.scopes {
        assert(next.scopes == opened(state.scopes, false));
        assert(next.scopes.drop_last() =~= state.scopes);
    }
}

/// Match first hit. When the body of a case has yielded, the `match` ends
/// with what the body yielded: the cases behind the one that was taken are
/// not looked at, so that at most one body is run.
pub proof fn match_first_hit(state: State, condition: Condition)
    requires
        state.control == ControlView::Deliver(condition),
        state.stack.len() > 0,
        state.stack.last() matches FrameView::Match { cases, stage: MatchStage::Body, .. }
            && cases.len() > 0,
    ensures
        step(state, ReplyView::Proceed) matches Some((next, request)) && next.control
            == ControlView::Deliver(condition) && next.stack == state.stack.drop_last() && request
            == RequestView::Proceed,
{
}

/// Match first hit, for the cases in front. A case is passed over only if
/// its patterns do not hold the subject: where some member of the patterns
/// is a member of the subject the case is taken, and the cases behind it,
/// the case without patterns among them, are reached only where none is.
pub proof fn match_in_order(
    state: State,
    is_array: bool,
    subject: Seq<Seq<char>>,
    cases: Seq<CaseView>,
    values: Seq<Seq<char>>,
)
    requires
        state.control is Wait,
        state.stack.len() > 0,
        state.stack.last() == (FrameView::Match {
            is_array,
            subject,
            cases,
            stage: MatchStage::Patterns,
            saved: None,
        }),
        cases.len() > 0,
    ensures
        step(state, ReplyView::Expanded(values)) == Some(
            if overlapping(values, subject) {
                state.popped().take_case(is_array, subject, cases)
            } else {
                state.popped().advance_match(is_array, subject, cases.drop_first())
            },
        ),
{
}

/// Match binding restoration. When the body of a case has yielded, whatever
/// it yielded, the name that the case bound reads again as the value that
/// was saved when the case was taken.
pub proof fn match_binding_restored(state: State, condition: Condition)
    requires
        state.wf(),
        state.control == ControlView::Deliver(condition),
        state.stack.len() > 0,
        state.stack.last() matches FrameView::Match { cases, stage: MatchStage::Body, saved, .. }
            && cases.len() > 0 && cases[0].binding is Some && saved is Some,
    ensures
        step(state, ReplyView::Proceed) matches Some((next, _)) && (state.stack.last() matches FrameView::Match {
            cases,
            saved,
            ..
        } && lookup(next.scopes, cases[0].binding->0) == saved),
{
    match state.stack.last() {
        FrameView::Match { cases, saved, .. } => {
            lemma_lookup_assigned(state.scopes, cases[0].binding->0, saved->0);
        },
        _ => {},
    }
}

/// Match binding restoration, for a guard that fails. The name that the
/// case bound reads again as the value that was saved when the case was
/// taken, before the next case is looked at.
pub proof fn match_binding_restored_after_guard(state: State, condition: Condition)
    requires
        state.wf(),
        state.status != SUCCESS,
        state.stack.len() > 0,
        state.stack.last() matches FrameView::Match { cases, stage: MatchStage::Guard, saved, .. }
            && cases.len() > 0 && cases[0].binding is Some && saved is Some,
    ensures
        state.stack.last() matches FrameView::Match { is_array, subject, cases, saved, .. } && ({
            let restored = state.popped().restored(cases[0].binding, saved);
            &&& lookup(restored.scopes, cases[0].binding->0) == saved
            &&& state.resume(condition) == Some(
                restored.advance_match(is_array, subject, cases.drop_first()),
            )
        }),
{
    match state.stack.last() {
        FrameView::Match { cases, saved, .. } => {
            lemma_lookup_assigned(state.scopes, cases[0].binding->0, saved->0);
        },
        _ => {},
    }
}

/// What is saved when a case is taken is what its binding held before, if
/// that was of the kind of the subject: a list for an array, else a string.
pub proof fn match_binding_saved(
    state: State,
    is_array: bool,
    subject: Seq<Seq<char>>,
    cases: Seq<CaseView>,
)
    requires
        state.wf(),
        cases.len() > 0,
        cases[0].binding is Some,
    ensures
        ({
            let name = cases[0].binding->0;
            let next = state.take_case(is_array, subject, cases).0;
            let frame = next.stack[next.stack.len() - 2];
            &&& frame matches FrameView::Match { saved, .. } && saved == state.previous(
                is_array,
                name,
            )
            &&& state.previous(is_array, name) is Some ==> state.previous(is_array, name)
                == lookup(state.scopes, name)
        }),
{
}

/// Where the flags ask for it, a pipeline statement that leaves a status
/// that is no success ends the process with that status; without the flag,
/// and after a success, the statement goes on to the poll for signals.
pub proof fn errexit_ends_process(state: State, returned: Option<i32>)
    requires
        state.control is Wait,
        state.stack.len() > 0,
        state.stack.last() is Pipeline,
    ensures
        step(state, ReplyView::Pipeline(returned)) == Some(
            if crate::machine::errexit(state.flags) && state.status != SUCCESS {
                state.popped().halt(state.status)
            } else {
                state.popped().probe()
            },
        ),
{
}

/// A signal that the handler found to be terminal ends the process with
/// the code of the signal, whatever is under way.
pub proof fn terminal_signal_ends_process(state: State, code: i32)
    requires
        state.control is Wait,
        state.stack.len() > 0,
        state.stack.last() is Probe,
    ensures
        step(state, ReplyView::Signal(Some(Delivery { terminal: true, code }))) matches Some(
            (next, request),
        ) && next.control == ControlView::Halted(code) && request == RequestView::Exit(code),
{
}

/// A machine that has asked for the process to end takes no reply.
pub proof fn halted_for_good(state: State, reply: ReplyView)
    requires
        state.control is Halted,
    ensures
        step(state, reply) is None,
{
}

/// `not` turns success into plain failure and plain failure into success,
/// and leaves every other status as it is.
pub proof fn not_inverts_success_and_failure_only(status: i32)
    ensures
        inverted(SUCCESS) == FAILURE,
        inverted(FAILURE) == SUCCESS,
        status != SUCCESS && status != FAILURE ==> inverted(status) == status,
        inverted(inverted(status)) == status,
{
}

/// Progress. While the machine itself is at work it is never stuck: it
/// takes the reply that nothing was to be done.
pub proof fn never_stuck(state: State)
    requires
        state.wf(),
        state.control is Run || state.control is Deliver,
    ensures
        step(state, ReplyView::Proceed) is Some,
{
    if state.control is Deliver && state.stack.len() > 0 {
        assert(takes_condition(state.stack[state.stack.len() - 1]));
    }
}

/// Stack discipline. A transition looks at the innermost frame only: the
/// frames below it stay as they are and where they are.
pub proof fn frames_below_stay(state: State, reply: ReplyView)
    requires
        state.stack.len() > 0,
    ensures
        step(state, reply) matches Some((next, _)) ==> state.stack.drop_last().is_prefix_of(
            next.stack,
        ),
{
    let below = state.stack.drop_last();
    match step(state, reply) {
        Some((next, _)) => {
            match state.control {
                ControlView::Run(statement) => {
                    assert(below.is_prefix_of(state.stack));
                    lemma_statement_grows(state, statement);
                },
                ControlView::Deliver(condition) => {
                    lemma_resume_grows(state, condition);
                },
                ControlView::Wait => {
                    lemma_receive_grows(state, reply);
                },
                _ => {},
            }
        },
        None => {},
    }
}

/// A statement only adds frames.
proof fn lemma_statement_grows(state: State, statement: StatementView)
    ensures
        state.stack.is_prefix_of(state.execute_statement(statement).0.stack),
{
}

proof fn lemma_command_grows(state: State, rest: Seq<StatementView>, diagnostic: Option<Seq<char>>)
    ensures
        state.stack.is_prefix_of(state.advance_command(rest, diagnostic).0.stack),
{
}

proof fn lemma_for_grows(
    state: State,
    variable: Seq<char>,
    statements: Seq<StatementView>,
    iter: ForIterView,
)
    ensures
        state.stack.is_prefix_of(state.advance_for(variable, statements, iter).0.stack),
{
}

proof fn lemma_case_grows(state: State, is_array: bool, subject: Seq<Seq<char>>, cases: Seq<CaseView>)
    ensures
        state.stack.is_prefix_of(state.take_case(is_array, subject, cases).0.stack),
        state.stack.is_prefix_of(state.advance_match(is_array, subject, cases).0.stack),
{
}

proof fn lemma_resume_grows(state: State, condition: Condition)
    requires
        state.stack.len() > 0,
    ensures
        state.resume(condition) matches Some((next, _)) ==> state.stack.drop_last().is_prefix_of(
            next.stack,
        ),
{
    let below = state.popped();
    match state.stack.last() {
        FrameView::Command { rest, diagnostic, stage: CommandStage::Running } => {
            lemma_command_grows(below, rest, diagnostic);
        },
        FrameView::For { variable, statements, iter } => {
            lemma_for_grows(below, variable, statements, iter);
        },
        FrameView::Match { is_array, subject, cases, stage, saved } => {
            if cases.len() > 0 {
                lemma_case_grows(
                    below.restored(cases[0].binding, saved),
                    is_array,
                    subject,
                    cases.drop_first(),
                );
            }
        },
        _ => {},
    }
}

proof fn lemma_receive_grows(state: State, reply: ReplyView)
    requires
        state.stack.len() > 0,
    ensures
        state.receive(reply) matches Some((next, _)) ==> state.stack.drop_last().is_prefix_of(
            next.stack,
        ),
{
    let below = state.popped();
    match (state.stack.last(), reply) {
        (
            FrameView::For { variable, statements, iter: ForIterView::Waiting },
            ReplyView::Values(values),
        ) => {
            lemma_for_grows(below, variable, statements, crate::machine::iteration(values));
        },
        (
            FrameView::Match { is_array: _, subject: _, cases, stage: MatchStage::Subject, saved: _ },
            ReplyView::Subject { is_array, values },
        ) => {
            lemma_case_grows(below, is_array, values, cases);
        },
        (
            FrameView::Match { is_array, subject, cases, stage: MatchStage::Patterns, saved: _ },
            ReplyView::Expanded(values),
        ) => {
            lemma_case_grows(below, is_array, subject, cases);
            lemma_case_grows(below, is_array, subject, cases.drop_first());
        },
        (
            FrameView::Command { rest: _, diagnostic: _, stage: CommandStage::Parsing },
            ReplyView::Parsed { statements, diagnostic },
        ) => {
            lemma_command_grows(below, statements, diagnostic);
        },
        _ => {},
    }
}

/// Whether more than `depth` frames are on the stack before, between and
/// after the moves.
pub open spec fn deeper_throughout(state: State, moves: Seq<Move>, depth: nat) -> bool
    decreases moves.len(),
{
    &&& state.stack.len() > depth
    &&& moves.len() > 0 ==> deeper_throughout(after(state, moves[0]), moves.drop_first(), depth)
}

/// A move looks at the innermost frame only.
pub proof fn frames_below_stay_after(state: State, action: Move)
    requires
        state.stack.len() > 0,
    ensures
        state.stack.drop_last().is_prefix_of(after(state, action).stack),
{
    match action {
        Move::Step(reply) => {
            frames_below_stay(state, reply);
        },
        _ => {},
    }
}

/// Stack discipline, over time. As long as frames stand above it, a frame
/// stays as it is, whatever the driver does.
pub proof fn frame_stays(state: State, moves: Seq<Move>, at: nat)
    requires
        deeper_throughout(state, moves, at + 1),
    ensures
        run(state, moves).stack.len() > at + 1,
        run(state, moves).stack.take(at as int + 1) == state.stack.take(at as int + 1),
    decreases moves.len(),
{
    if moves.len() > 0 {
        let next = after(state, moves[0]);
        frames_below_stay_after(state, moves[0]);
        frame_stays(next, moves.drop_first(), at);
        assert(next.stack.take(at as int + 1) =~= state.stack.take(at as int + 1));
    }
}

/// Match first hit and binding restoration, over time. Once the body of a
/// case has been entered, the `match` stays as it is while the body runs,
/// whatever runs in it and whatever the driver does. When the body has
/// yielded, the `match` ends with what the body yielded and is gone from
/// the stack, so that no other case is tried; and if the case bound a name
/// that held a value before, the name reads as that value again.
pub proof fn match_ends_after_body(state: State, at: nat, moves: Seq<Move>, last: Move)
    requires
        state.wf(),
        at < state.stack.len(),
        state.stack[at as int] matches FrameView::Match { cases, stage: MatchStage::Body, .. }
            && cases.len() > 0,
        deeper_throughout(state, moves, at + 1),
        after(run(state, moves), last).stack.len() == at + 1,
        after(run(state, moves), last).control is Deliver,
    ensures
        ({
            let yielded = after(run(state, moves), last);
            &&& step(yielded, ReplyView::Proceed) matches Some((end, _)) && end.control
                == yielded.control && end.stack == state.stack.take(at as int) && (
            state.stack[at as int] matches FrameView::Match { cases, saved, .. } && (
            cases[0].binding is Some && saved is Some ==> lookup(
                end.scopes,
                cases[0].binding->0,
            ) == saved))
        }),
{
    let body = run(state, moves);
    let yielded = after(body, last);
    frame_stays(state, moves, at);
    frames_below_stay_after(body, last);
    invariant_kept_throughout(state, moves);
    invariant_kept(body, last);
    assert(body.stack.take(at as int + 1)[at as int] == body.stack[at as int]);
    assert(state.stack.take(at as int + 1)[at as int] == state.stack[at as int]);
    assert(yielded.stack[at as int] == body.stack.drop_last()[at as int]);
    assert(yielded.stack.last() == state.stack[at as int]);
    assert(yielded.stack.drop_last() =~= state.stack.take(at as int)) by {
        assert(yielded.stack =~= body.stack.take(at as int + 1));
    }
    match yielded.stack.last() {
        FrameView::Match { cases, saved, .. } => {
            if cases[0].binding is Some && saved is Some {
                lemma_lookup_assigned(yielded.scopes, cases[0].binding->0, saved->0);
            }
        },
        _ => {},
    }
}

/// Whether a frame passes an interrupt on to the frame below it at once.
pub open spec fn passes_interrupt(frame: FrameView) -> bool {
    match frame {
        FrameView::Block { .. } => true,
        FrameView::After(Wrapper::Loop) => true,
        FrameView::After(Wrapper::Compound) => true,
        FrameView::If { .. } => true,
        FrameView::While { .. } => true,
        FrameView::For { .. } => true,
        FrameView::Match { stage: MatchStage::Body, .. } => true,
        _ => false,
    }
}

/// `count` times the reply that nothing was to be done.
pub open spec fn proceeding(count: nat) -> Seq<Move> {
    Seq::new(count, |i: int| Move::Step(ReplyView::Proceed))
}

/// Interrupt monotonicity, over time. Where a statement has yielded an
/// interrupt, the blocks, loops, `if`s and `match`es around it end one
/// after the other, each with the interrupt: in all that time the machine
/// asks nothing of the driver, runs no statement and begins no iteration,
/// and all it does to the stack is to take these frames off.
pub proof fn sigint_unwinds_throughout(state: State, count: nat, within: nat)
    requires
        state.wf(),
        state.control == ControlView::Deliver(Condition::SigInt),
        within <= count <= state.stack.len(),
        forall|i: int|
            state.stack.len() - count <= i < state.stack.len() ==> passes_interrupt(
                #[trigger] state.stack[i],
            ),
    ensures
        run(state, proceeding(within)).control == ControlView::Deliver(Condition::SigInt),
        run(state, proceeding(within)).stack == state.stack.take(state.stack.len() - within),
        run(state, proceeding(within)).wf(),
    decreases within,
{
    if within == 0 {
        assert(state.stack.take(state.stack.len() as int) =~= state.stack);
    } else {
        let top = state.stack[state.stack.len() - 1];
        assert(passes_interrupt(top));
        assert(takes_condition(top));
        sigint_unwinds(state);
        invariant_kept(state, Move::Step(ReplyView::Proceed));
        let next = after(state, Move::Step(ReplyView::Proceed));
        assert(proceeding(within).drop_first() =~= proceeding((within - 1) as nat));
        assert forall|i: int| next.stack.len() - (count - 1) <= i < next.stack.len() implies passes_interrupt(
            #[trigger] next.stack[i],
        ) by {
            assert(next.stack[i] == state.stack[i]);
        }
        sigint_unwinds_throughout(next, (count - 1) as nat, (within - 1) as nat);
        assert(next.stack.take(next.stack.len() - (within - 1)) =~= state.stack.take(
            state.stack.len() - within,
        ));
    }
}

/// A request says what the machine waits for.
pub proof fn request_tells_state(state: State, reply: ReplyView)
    ensures
        step(state, reply) matches Some((next, request)) ==> asks(next, request),
{
    match state.control {
        ControlView::Run(statement) => lemma_statement_asks(state, statement),
        ControlView::Deliver(condition) => lemma_resume_asks(state, condition),
        ControlView::Wait => lemma_receive_asks(state, reply),
        _ => {},
    }
}

proof fn lemma_statement_asks(state: State, statement: StatementView)
    ensures
        asks(state.execute_statement(statement).0, state.execute_statement(statement).1),
{
}

proof fn lemma_command_asks(state: State, rest: Seq<StatementView>, diagnostic: Option<Seq<char>>)
    ensures
        asks(state.advance_command(rest, diagnostic).0, state.advance_command(rest, diagnostic).1),
{
}

proof fn lemma_for_asks(
    state: State,
    variable: Seq<char>,
    statements: Seq<StatementView>,
    iter: ForIterView,
)
    ensures
        asks(
            state.advance_for(variable, statements, iter).0,
            state.advance_for(variable, statements, iter).1,
        ),
{
}

proof fn lemma_case_asks(state: State, is_array: bool, subject: Seq<Seq<char>>, cases: Seq<CaseView>)
    ensures
        asks(
            state.take_case(is_array, subject, cases).0,
            state.take_case(is_array, subject, cases).1,
        ),
        asks(
            state.advance_match(is_array, subject, cases).0,
            state.advance_match(is_array, subject, cases).1,
        ),
{
}

proof fn lemma_resume_asks(state: State, condition: Condition)
    ensures
        state.resume(condition) matches Some((next, request)) ==> asks(next, request),
{
    if state.stack.len() > 0 {
        let below = state.popped();
        match state.stack.last() {
            FrameView::Command { rest, diagnostic, stage: CommandStage::Running } => {
                lemma_command_asks(below, rest, diagnostic);
            },
            FrameView::For { variable, statements, iter } => {
                lemma_for_asks(below, variable, statements, iter);
            },
            FrameView::Match { is_array, subject, cases, stage, saved } => {
                if cases.len() > 0 {
                    lemma_case_asks(
                        below.restored(cases[0].binding, saved),
                        is_array,
                        subject,
                        cases.drop_first(),
                    );
                }
            },
            _ => {},
        }
    }
}

proof fn lemma_receive_asks(state: State, reply: ReplyView)
    ensures
        state.receive(reply) matches Some((next, request)) ==> asks(next, request),
{
    if state.stack.len() > 0 {
        let below = state.popped();
        match (state.stack.last(), reply) {
            (
                FrameView::For { variable, statements, iter: ForIterView::Waiting },
                ReplyView::Values(values),
            ) => {
                lemma_for_asks(below, variable, statements, crate::machine::iteration(values));
            },
            (
                FrameView::Match { is_array: _, subject: _, cases, stage: MatchStage::Subject, saved: _ },
                ReplyView::Subject { is_array, values },
            ) => {
                lemma_case_asks(below, is_array, values, cases);
            },
            (
                FrameView::Match { is_array, subject, cases, stage: MatchStage::Patterns, saved: _ },
                ReplyView::Expanded(values),
            ) => {
                lemma_case_asks(below, is_array, subject, cases);
                lemma_case_asks(below, is_array, subject, cases.drop_first());
            },
            (
                FrameView::Command { rest: _, diagnostic: _, stage: CommandStage::Parsing },
                ReplyView::Parsed { statements, diagnostic },
            ) => {
                lemma_command_asks(below, statements, diagnostic);
            },
            _ => {},
        }
    }
}

/// The dialogue never breaks down. A driver that gives each request an
/// answer of its kind is never refused: the machine takes the answer to
/// the request that it made last, be it the request of a transition or the
/// one that taking up a command line made.
pub proof fn answer_is_taken(state: State, request: RequestView, reply: ReplyView)
    requires
        state.wf(),
        asks(state, request),
        answers(request, reply),
    ensures
        step(state, reply) is Some,
{
    if state.control is Wait {
        assert(takes_reply(state.stack[state.stack.len() - 1]));
    } else {
        never_stuck(state);
    }
}

/// The dialogue never breaks down, from one transition to the next.
pub proof fn answer_is_taken_after(state: State, first: ReplyView, reply: ReplyView)
    requires
        state.wf(),
    ensures
        step(state, first) matches Some((next, request)) ==> (answers(request, reply) ==> step(
            next,
            reply,
        ) is Some),
{
    match step(state, first) {
        Some((next, request)) => {
            lemma_step_wf(state, first);
            request_tells_state(state, first);
            if answers(request, reply) {
                answer_is_taken(next, request, reply);
            }
        },
        None => {},
    }
}

/// The dialogue never breaks down, from the first request on.
pub proof fn answer_is_taken_at_first(state: State, line: Seq<char>, reply: ReplyView)
    requires
        state.wf(),
        state.control is Idle,
        reply is Parsed,
    ensures
        step(state.on_command(line).0, reply) is Some,
{
    lemma_on_command_wf(state, line);
    let next = state.on_command(line).0;
    assert(next.stack.last() is Command);
}

/// The invariant of the machine holds however far the machine is driven.
pub proof fn invariant_kept_driving(
    state: State,
    events: Seq<Move>,
    asked: Seq<RequestView>,
    fuel: nat,
)
    requires
        state.wf(),
    ensures
        drive(state, events, asked, fuel).0.wf(),
    decreases fuel,
{
    if fuel > 0 {
        match state.control {
            ControlView::Run(_) | ControlView::Deliver(_) => {
                match step(state, ReplyView::Proceed) {
                    Some((next, request)) => {
                        lemma_step_wf(state, ReplyView::Proceed);
                        invariant_kept_driving(
                            next,
                            events,
                            logged(asked, request),
                            (fuel - 1) as nat,
                        );
                    },
                    None => {},
                }
            },
            ControlView::Wait => {
                if events.len() > 0 {
                    match events[0] {
                        Move::Step(reply) => {
                            match step(state, reply) {
                                Some((next, request)) => {
                                    lemma_step_wf(state, reply);
                                    invariant_kept_driving(
                                        next,
                                        events.drop_first(),
                                        logged(asked, request),
                                        (fuel - 1) as nat,
                                    );
                                },
                                None => {},
                            }
                        },
                        other => {
                            invariant_kept(state, other);
                            invariant_kept_driving(
                                after(state, other),
                                events.drop_first(),
                                asked,
                                (fuel - 1) as nat,
                            );
                        },
                    }
                }
            },
            _ => {},
        }
    }
}

/// A stack of as many blocks as there are scopes but the global one.
pub open spec fn scopes_as_blocks(count: nat) -> Seq<FrameView> {
    Seq::new(count, |i: int| FrameView::Block { rest: Seq::empty() })
}

/// A world with a scope is the world of a machine that has the invariant.
proof fn lemma_scopes_as_blocks(count: nat)
    ensures
        blocks(scopes_as_blocks(count)) == count,
        settled(scopes_as_blocks(count)),
        forall|i: int|
            0 <= i < count ==> crate::machine::frame_wf(#[trigger] scopes_as_blocks(count)[i]),
    decreases count,
{
    if count > 0 {
        lemma_scopes_as_blocks((count - 1) as nat);
        assert(scopes_as_blocks(count).drop_last() =~= scopes_as_blocks((count - 1) as nat));
    }
}

/// Scope balance, of a statement. A statement that yields, whatever it
/// yields and whatever was executed in it, leaves as many scopes open as
/// it found.
pub proof fn statement_balances_scopes(statement: StatementView, course: Course, depth: nat)
    requires
        course.world.scopes.len() > 0,
    ensures
        execute_statement(statement, course, depth) matches Some((end, Finish::Yield(_)))
            ==> end.world.scopes.len() == course.world.scopes.len(),
{
    match execute_statement(statement, course, depth) {
        Some((end, Finish::Yield(condition))) => {
            let below = scopes_as_blocks((course.world.scopes.len() - 1) as nat);
            lemma_scopes_as_blocks((course.world.scopes.len() - 1) as nat);
            let start = course.world.at(below, ControlView::Run(statement));
            let moves = statement_is_executed(statement, course, depth, below);
            invariant_kept_driving(start, course.events, course.asked, moves);
        },
        _ => {},
    }
}

/// Scope balance, of a block. A block that yields, whatever it yields,
/// has closed its scope and leaves as many scopes open as it found.
pub proof fn block_balances_scopes(statements: Seq<StatementView>, course: Course, depth: nat)
    requires
        course.world.scopes.len() > 0,
    ensures
        execute_statements(statements, course, depth) matches Some((end, Finish::Yield(_)))
            ==> end.world.scopes.len() == course.world.scopes.len(),
{
    match execute_statements(statements, course, depth) {
        Some((end, Finish::Yield(condition))) => {
            let below = scopes_as_blocks((course.world.scopes.len() - 1) as nat);
            lemma_scopes_as_blocks((course.world.scopes.len() - 1) as nat);
            let context = course.world.at(below, ControlView::Deliver(Condition::NoOp));
            crate::preservation::lemma_execute_statements(context, statements);
            let moves = block_is_executed(
                statements,
                course,
                depth,
                below,
                ControlView::Deliver(Condition::NoOp),
            );
            invariant_kept_driving(
                context.execute_statements(statements).0,
                course.events,
                course.asked,
                moves,
            );
        },
        _ => {},
    }
}

/// Scope balance, of a command line. A command line that comes to its end
/// in a shell that had the global scope open and no other leaves it so.
pub proof fn command_line_balances_scopes(line: Seq<char>, course: Course, depth: nat)
    requires
        course.world.scopes.len() == 1,
    ensures
        crate::semantics::on_command(line, course, depth) matches Some((end, Finish::Yield(_)))
            ==> end.world.scopes.len() == 1,
{
    match crate::semantics::on_command(line, course, depth) {
        Some((end, Finish::Yield(condition))) => {
            let idle = course.world.at(Seq::empty(), ControlView::Idle);
            let moves = command_line_is_executed(line, course, depth);
            lemma_on_command_wf(idle, line);
            invariant_kept_driving(
                idle.on_command(line).0,
                course.events,
                course.asked.push(RequestView::Parse(line)),
                moves,
            );
        },
        _ => {},
    }
}

/// Interrupt monotonicity, of a block. Where a statement of a block yields
/// anything but [`Condition::NoOp`], the block ends there and yields the
/// same: the statements behind are not executed, and the driver is asked
/// nothing more.
pub proof fn sigint_ends_block(statements: Seq<StatementView>, course: Course, depth: nat)
    requires
        statements.len() > 0,
        execute_statement(statements[0], course, depth) matches Some((_, Finish::Yield(yielded)))
            && yielded != Condition::NoOp,
    ensures
        run_statements(statements, course, depth + 1) == execute_statement(
            statements[0],
            course,
            depth,
        ),
{
}

/// Interrupt monotonicity, of a `while` loop. Where the body yields an
/// interrupt, the loop ends there and yields the interrupt: its pipeline is
/// not run again, and the driver is asked nothing more.
pub proof fn sigint_ends_while(
    expression: Seq<char>,
    statements: Seq<StatementView>,
    course: Course,
    depth: nat,
)
    requires
        course.ask(RequestView::RunPipeline(expression)) matches Some(
            (tested, ReplyView::Pipeline(Some(0))),
        ) && (execute_statements(statements, tested, depth) matches Some(
            (_, Finish::Yield(Condition::SigInt)),
        )),
    ensures
        execute_while(expression, statements, course, depth + 1) == execute_statements(
            statements,
            course.ask(RequestView::RunPipeline(expression)).unwrap().0,
            depth,
        ),
{
}

/// Interrupt monotonicity, of a `for` loop. Where the body yields an
/// interrupt, the loop ends there and yields the interrupt: the values
/// behind are not gone through, and the driver is asked nothing more.
pub proof fn sigint_ends_for(
    variable: Seq<char>,
    statements: Seq<StatementView>,
    items: Seq<Seq<char>>,
    course: Course,
    depth: nat,
)
    requires
        items.len() > 0,
        execute_statements(
            statements,
            course.with_world(course.world.bound(variable, items[0])),
            depth,
        ) matches Some((_, Finish::Yield(Condition::SigInt))),
    ensures
        execute_for(variable, statements, ForIterView::Items(items), course, depth + 1)
            == execute_statements(
            statements,
            course.with_world(course.world.bound(variable, items[0])),
            depth,
        ),
{
}

/// Interrupt monotonicity, of an `if`. Where the condition of an arm
/// yields an interrupt, the `if` ends there and yields the interrupt: no
/// body is executed and no further arm is tried.
pub proof fn sigint_ends_if(
    condition: StatementView,
    success: Seq<StatementView>,
    else_if: Seq<crate::statement::ElseIfView>,
    failure: Seq<StatementView>,
    course: Course,
    depth: nat,
)
    requires
        execute_statements(seq![condition], course, depth) matches Some(
            (_, Finish::Yield(Condition::SigInt)),
        ),
    ensures
        execute_if(condition, success, else_if, failure, course, depth + 1) == execute_statements(
            seq![condition],
            course,
            depth,
        ),
{
}

/// Break containment, of what a loop comes to. A loop whose body yields
/// `break` ends there and yields nothing.
pub proof fn break_ends_loop(
    expression: Seq<char>,
    statements: Seq<StatementView>,
    course: Course,
    depth: nat,
)
    requires
        course.ask(RequestView::RunPipeline(expression)) matches Some(
            (tested, ReplyView::Pipeline(Some(0))),
        ) && (execute_statements(statements, tested, depth) matches Some(
            (_, Finish::Yield(Condition::Break)),
        )),
    ensures
        execute_while(expression, statements, course, depth + 1) == Some(
            (
                execute_statements(
                    statements,
                    course.ask(RequestView::RunPipeline(expression)).unwrap().0,
                    depth,
                ).unwrap().0,
                Finish::Yield(Condition::NoOp),
            ),
        ),
{
}

/// Break containment, of what a command line comes to. What a statement
/// of a command line yields is dropped: the statements behind it are
/// executed whatever it was.
pub proof fn command_line_drops_conditions(
    statements: Seq<StatementView>,
    course: Course,
    depth: nat,
)
    requires
        statements.len() > 0,
        execute_statement(statements[0], course, depth) matches Some((_, Finish::Yield(_))),
    ensures
        run_command(statements, course, depth + 1) == run_command(
            statements.drop_first(),
            execute_statement(statements[0], course, depth).unwrap().0,
            depth,
        ),
{
}

/// A loop variable named `_` is not bound, of what a `for` loop comes to:
/// binding it to a value leaves the world as it is, so that the body of
/// each iteration is entered in the world as the iteration before left it.
pub proof fn for_underscore_leaves_world(world: crate::machine::World, value: Seq<char>)
    ensures
        world.bound("_"@, value) == world,
{
}

/// Match binding restoration, of what a case comes to. When the body of a
/// case has yielded, whatever it yielded, the binding of the case reads as
/// what was saved for it; and what is saved when a case is taken is what
/// the binding held before, if that was of the kind of the subject.
pub proof fn case_restores_binding(
    case: CaseView,
    saved: ValueView,
    course: Course,
    depth: nat,
)
    requires
        case.binding is Some,
        course.world.scopes.len() > 0,
    ensures
        execute_body(case, Some(saved), course, depth) matches Some((end, Finish::Yield(_)))
            ==> lookup(end.world.scopes, case.binding->0) == Some(saved),
{
    match execute_body(case, Some(saved), course, depth) {
        Some((end, Finish::Yield(_))) => {
            let (inner, _) = execute_statements(case.body, course, (depth - 1) as nat).unwrap();
            block_balances_scopes(case.body, course, (depth - 1) as nat);
            lemma_lookup_assigned(inner.world.scopes, case.binding->0, saved);
        },
        _ => {},
    }
}

/// The machine always comes to ask. Left to itself, a machine that has
/// asked nothing of its driver steps only finitely often before it asks
/// something, halts or is idle; and it has its invariant then.
pub proof fn asked_at_last(state: State, request: RequestView)
    requires
        state.wf(),
        asks(state, request),
    ensures
        !(until_asked(state, request).1 is Proceed),
        until_asked(state, request).0.wf(),
        asks(until_asked(state, request).0, until_asked(state, request).1),
    decreases measure(state),
{
    if request is Proceed {
        never_stuck(state);
        own_step_lowers_measure(state);
        request_tells_state(state, ReplyView::Proceed);
        lemma_step_wf(state, ReplyView::Proceed);
        let (next, asked) = step(state, ReplyView::Proceed).unwrap();
        if asked is Proceed {
            asked_at_last(next, asked);
        }
    }
}

} // verus!
