//! The proof that the depth does not matter.
//!
//! The functions of [`crate::semantics`] take the number of nested
//! executions that they may go through. Here it is shown that a greater
//! number changes nothing: once an execution comes to an end, it comes to
//! the same end however much deeper it may go.

use crate::condition::Condition;
use crate::machine::{iteration, ForIterView, ReplyView, RequestView, State, World, SUCCESS};
use crate::semantics::{
    execute_body, execute_for, execute_if, execute_match, execute_statement, execute_statements,
    execute_while, on_command, run_command, run_statements, take_case, Course, Finish,
};
use crate::statement::{CaseView, ElseIfView, StatementView};
use crate::text::{decimal, overlapping};
use crate::variables::{opened, ValueView};
use vstd::prelude::*;

verus! {

/// A statement comes to the same end at every depth at which it comes to
/// one.
pub proof fn statement_at_any_depth(
    statement: StatementView,
    course: Course,
    shallow: nat,
    deep: nat,
)
    requires
        execute_statement(statement, course, shallow) is Some,
        shallow <= deep,
    ensures
        execute_statement(statement, course, deep) == execute_statement(statement, course, shallow),
    decreases shallow, 0nat,
{
    let less = (shallow - 1) as nat;
    let more = (deep - 1) as nat;
    match statement {
        StatementView::If { expression, success, else_if, failure } => {
            if_at_any_depth(*expression, success, else_if, failure, course, less, more);
        },
        StatementView::While { expression, statements } => {
            while_at_any_depth(expression, statements, course, less, more);
        },
        StatementView::For { variable, values, statements } => {
            match course.ask(RequestView::ExpandFor(values)) {
                Some((course, ReplyView::Values(values))) => {
                    for_at_any_depth(variable, statements, iteration(values), course, less, more);
                },
                _ => {},
            }
        },
        StatementView::Match { expression, cases } => {
            match course.ask(RequestView::ExpandSubject(expression)) {
                Some((course, ReplyView::Subject { is_array, values })) => {
                    match_at_any_depth(is_array, values, cases, course, less, more);
                },
                _ => {},
            }
        },
        StatementView::Time(inner) => {
            match course.ask(RequestView::ReadClock) {
                Some((course, ReplyView::Clock(start))) => {
                    if start.valid() {
                        statement_at_any_depth(*inner, course, less, more);
                    }
                },
                _ => {},
            }
        },
        StatementView::And(inner) => {
            if course.world.status == SUCCESS {
                statement_at_any_depth(*inner, course, less, more);
            }
        },
        StatementView::Or(inner) => {
            if course.world.status == crate::machine::FAILURE {
                statement_at_any_depth(*inner, course, less, more);
            }
        },
        StatementView::Not(inner) => {
            statement_at_any_depth(*inner, course, less, more);
        },
        _ => {},
    }
}

/// The statements of a block come to the same end at every depth at which
/// they come to one.
pub proof fn run_statements_at_any_depth(
    statements: Seq<StatementView>,
    course: Course,
    shallow: nat,
    deep: nat,
)
    requires
        run_statements(statements, course, shallow) is Some,
        shallow <= deep,
    ensures
        run_statements(statements, course, deep) == run_statements(statements, course, shallow),
    decreases shallow, 1nat,
{
    let less = (shallow - 1) as nat;
    let more = (deep - 1) as nat;
    if statements.len() > 0 {
        statement_at_any_depth(statements[0], course, less, more);
        match execute_statement(statements[0], course, less) {
            Some((course, Finish::Yield(Condition::NoOp))) => {
                run_statements_at_any_depth(statements.drop_first(), course, less, more);
            },
            _ => {},
        }
    }
}

/// A block comes to the same end at every depth at which it comes to one.
pub proof fn block_at_any_depth(
    statements: Seq<StatementView>,
    course: Course,
    shallow: nat,
    deep: nat,
)
    requires
        execute_statements(statements, course, shallow) is Some,
        shallow <= deep,
    ensures
        execute_statements(statements, course, deep) == execute_statements(
            statements,
            course,
            shallow,
        ),
    decreases shallow, 2nat,
{
    let inside = course.with_world(
        World { scopes: opened(course.world.scopes, false), ..course.world },
    );
    run_statements_at_any_depth(statements, inside, (shallow - 1) as nat, (deep - 1) as nat);
}

/// An `if` comes to the same end at every depth at which it comes to one.
pub proof fn if_at_any_depth(
    expression: StatementView,
    success: Seq<StatementView>,
    else_if: Seq<ElseIfView>,
    failure: Seq<StatementView>,
    course: Course,
    shallow: nat,
    deep: nat,
)
    requires
        execute_if(expression, success, else_if, failure, course, shallow) is Some,
        shallow <= deep,
    ensures
        execute_if(expression, success, else_if, failure, course, deep) == execute_if(
            expression,
            success,
            else_if,
            failure,
            course,
            shallow,
        ),
    decreases shallow, 3nat,
{
    let less = (shallow - 1) as nat;
    let more = (deep - 1) as nat;
    block_at_any_depth(seq![expression], course, less, more);
    match execute_statements(seq![expression], course, less) {
        Some((course, Finish::Yield(condition))) => {
            if condition == Condition::SigInt {
            } else if course.world.status == SUCCESS {
                block_at_any_depth(success, course, less, more);
            } else if else_if.len() > 0 {
                if_at_any_depth(
                    else_if[0].expression,
                    else_if[0].success,
                    else_if.drop_first(),
                    failure,
                    course,
                    less,
                    more,
                );
            } else {
                block_at_any_depth(failure, course, less, more);
            }
        },
        _ => {},
    }
}

/// A `while` loop comes to the same end at every depth at which it comes to
/// one.
pub proof fn while_at_any_depth(
    expression: Seq<char>,
    statements: Seq<StatementView>,
    course: Course,
    shallow: nat,
    deep: nat,
)
    requires
        execute_while(expression, statements, course, shallow) is Some,
        shallow <= deep,
    ensures
        execute_while(expression, statements, course, deep) == execute_while(
            expression,
            statements,
            course,
            shallow,
        ),
    decreases shallow, 3nat,
{
    let less = (shallow - 1) as nat;
    let more = (deep - 1) as nat;
    match course.ask(RequestView::RunPipeline(expression)) {
        Some((course, ReplyView::Pipeline(returned))) => {
            if returned == Some(SUCCESS) {
                block_at_any_depth(statements, course, less, more);
                match execute_statements(statements, course, less) {
                    Some((course, Finish::Yield(condition))) => {
                        if condition.loop_exit() is None {
                            while_at_any_depth(expression, statements, course, less, more);
                        }
                    },
                    _ => {},
                }
            }
        },
        _ => {},
    }
}

/// A `for` loop comes to the same end at every depth at which it comes to
/// one.
pub proof fn for_at_any_depth(
    variable: Seq<char>,
    statements: Seq<StatementView>,
    iter: ForIterView,
    course: Course,
    shallow: nat,
    deep: nat,
)
    requires
        execute_for(variable, statements, iter, course, shallow) is Some,
        shallow <= deep,
    ensures
        execute_for(variable, statements, iter, course, deep) == execute_for(
            variable,
            statements,
            iter,
            course,
            shallow,
        ),
    decreases shallow, 3nat,
{
    let less = (shallow - 1) as nat;
    let more = (deep - 1) as nat;
    match iter {
        ForIterView::Items(items) if items.len() > 0 => {
            let bound = course.with_world(course.world.bound(variable, items[0]));
            block_at_any_depth(statements, bound, less, more);
            match execute_statements(statements, bound, less) {
                Some((course, Finish::Yield(condition))) => {
                    if condition.loop_exit() is None {
                        for_at_any_depth(
                            variable,
                            statements,
                            ForIterView::Items(items.drop_first()),
                            course,
                            less,
                            more,
                        );
                    }
                },
                _ => {},
            }
        },
        ForIterView::Range(next, end) if next < end => {
            let bound = course.with_world(course.world.bound(variable, decimal(next as int)));
            block_at_any_depth(statements, bound, less, more);
            match execute_statements(statements, bound, less) {
                Some((course, Finish::Yield(condition))) => {
                    if condition.loop_exit() is None {
                        for_at_any_depth(
                            variable,
                            statements,
                            ForIterView::Range((next + 1) as i64, end),
                            course,
                            less,
                            more,
                        );
                    }
                },
                _ => {},
            }
        },
        _ => {},
    }
}

/// A `match` comes to the same end at every depth at which it comes to one.
pub proof fn match_at_any_depth(
    is_array: bool,
    subject: Seq<Seq<char>>,
    cases: Seq<CaseView>,
    course: Course,
    shallow: nat,
    deep: nat,
)
    requires
        execute_match(is_array, subject, cases, course, shallow) is Some,
        shallow <= deep,
    ensures
        execute_match(is_array, subject, cases, course, deep) == execute_match(
            is_array,
            subject,
            cases,
            course,
            shallow,
        ),
    decreases shallow, 3nat,
{
    let less = (shallow - 1) as nat;
    let more = (deep - 1) as nat;
    if cases.len() > 0 {
        match cases[0].patterns {
            None => {
                case_at_any_depth(is_array, subject, cases, course, less, more);
            },
            Some(patterns) => {
                match course.ask(RequestView::ExpandPatterns(patterns)) {
                    Some((course, ReplyView::Expanded(values))) => {
                        if overlapping(values, subject) {
                            case_at_any_depth(is_array, subject, cases, course, less, more);
                        } else {
                            match_at_any_depth(
                                is_array,
                                subject,
                                cases.drop_first(),
                                course,
                                less,
                                more,
                            );
                        }
                    },
                    _ => {},
                }
            },
        }
    }
}

/// A case that matches comes to the same end at every depth at which it
/// comes to one.
pub proof fn case_at_any_depth(
    is_array: bool,
    subject: Seq<Seq<char>>,
    cases: Seq<CaseView>,
    course: Course,
    shallow: nat,
    deep: nat,
)
    requires
        take_case(is_array, subject, cases, course, shallow) is Some,
        shallow <= deep,
    ensures
        take_case(is_array, subject, cases, course, deep) == take_case(
            is_array,
            subject,
            cases,
            course,
            shallow,
        ),
    decreases shallow, 2nat,
{
    let less = (shallow - 1) as nat;
    let more = (deep - 1) as nat;
    let case = cases[0];
    let saved = match case.binding {
        Some(name) => course.world.previous(is_array, name),
        None => None,
    };
    let bound = match case.binding {
        Some(name) => course.with_world(
            course.world.set(name, State::binding_value(is_array, subject)),
        ),
        None => course,
    };
    match case.guard {
        Some(guard) => {
            command_line_at_any_depth(guard, bound, less, more);
            match on_command(guard, bound, less) {
                Some((course, Finish::Yield(_))) => {
                    if course.world.status != SUCCESS {
                        match_at_any_depth(
                            is_array,
                            subject,
                            cases.drop_first(),
                            course.with_world(course.world.restored(case.binding, saved)),
                            less,
                            more,
                        );
                    } else {
                        body_at_any_depth(case, saved, course, less, more);
                    }
                },
                _ => {},
            }
        },
        None => {
            body_at_any_depth(case, saved, bound, less, more);
        },
    }
}

/// The body of a case comes to the same end at every depth at which it
/// comes to one.
pub proof fn body_at_any_depth(
    case: CaseView,
    saved: Option<ValueView>,
    course: Course,
    shallow: nat,
    deep: nat,
)
    requires
        execute_body(case, saved, course, shallow) is Some,
        shallow <= deep,
    ensures
        execute_body(case, saved, course, deep) == execute_body(case, saved, course, shallow),
    decreases shallow, 1nat,
{
    block_at_any_depth(case.body, course, (shallow - 1) as nat, (deep - 1) as nat);
}

/// The statements of a command line come to the same end at every depth at
/// which they come to one.
pub proof fn run_command_at_any_depth(
    statements: Seq<StatementView>,
    course: Course,
    shallow: nat,
    deep: nat,
)
    requires
        run_command(statements, course, shallow) is Some,
        shallow <= deep,
    ensures
        run_command(statements, course, deep) == run_command(statements, course, shallow),
    decreases shallow, 1nat,
{
    let less = (shallow - 1) as nat;
    let more = (deep - 1) as nat;
    if statements.len() > 0 {
        statement_at_any_depth(statements[0], course, less, more);
        match execute_statement(statements[0], course, less) {
            Some((course, Finish::Yield(_))) => {
                run_command_at_any_depth(statements.drop_first(), course, less, more);
            },
            _ => {},
        }
    }
}

/// A command line comes to the same end at every depth at which it comes
/// to one.
pub proof fn command_line_at_any_depth(line: Seq<char>, course: Course, shallow: nat, deep: nat)
    requires
        on_command(line, course, shallow) is Some,
        shallow <= deep,
    ensures
        on_command(line, course, deep) == on_command(line, course, shallow),
    decreases shallow, 2nat,
{
    match course.with_world(World { break_flow: false, ..course.world }).ask(
        RequestView::Parse(line),
    ) {
        Some((course, ReplyView::Parsed { statements, diagnostic })) => {
            run_command_at_any_depth(statements, course, (shallow - 1) as nat, (deep - 1) as nat);
        },
        _ => {},
    }
}

} // verus!
