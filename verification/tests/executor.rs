use shell_flow::clock::Instant;
use shell_flow::machine::Delivery;
use shell_flow::protocol::{ForExpression, Reply, Request};
use shell_flow::shell::{invert, Shell};
use shell_flow::statement::{Case, ElseIf, Statement};
use shell_flow::variables::Value;

/// A driver for the tests: it answers every request from tables, runs a few
/// toy commands and records what was printed.
struct Host {
    programs: Vec<(String, Vec<Statement>, Option<String>)>,
    signals: Vec<Option<Delivery>>,
    signal_after: Option<(String, Delivery)>,
    clock: Vec<Instant>,
    stdout: Vec<String>,
    stderr: Vec<String>,
    pipelines: Vec<String>,
    assignments: Vec<(bool, String)>,
    polls: usize,
    exited: Option<i32>,
    max_depth: usize,
    max_scopes: usize,
    budget: usize,
}

fn host() -> Host {
    Host {
        programs: Vec::new(),
        signals: Vec::new(),
        signal_after: None,
        clock: Vec::new(),
        stdout: Vec::new(),
        stderr: Vec::new(),
        pipelines: Vec::new(),
        assignments: Vec::new(),
        polls: 0,
        exited: None,
        max_depth: 0,
        max_scopes: 0,
        budget: 0,
    }
}

fn text(s: &str) -> String {
    s.to_string()
}

fn words(list: &[&str]) -> Vec<String> {
    list.iter().map(|s| s.to_string()).collect()
}

fn pipeline(s: &str) -> Statement {
    Statement::Pipeline(text(s))
}

fn expand(shell: &Shell, word: &str) -> Vec<String> {
    if let Some(name) = word.strip_prefix('$') {
        match shell.variables().get(&text(name)) {
            Some(Value::Str(value)) => vec![value.clone()],
            Some(Value::Array(list)) => list.clone(),
            _ => vec![String::new()],
        }
    } else if let Some(name) = word.strip_prefix('@') {
        match shell.variables().get(&text(name)) {
            Some(Value::Array(list)) => list.clone(),
            Some(Value::Str(value)) => vec![value.clone()],
            _ => Vec::new(),
        }
    } else if word.starts_with('[') && word.ends_with(']') {
        word[1..word.len() - 1].split_whitespace().map(|s| s.to_string()).collect()
    } else {
        vec![word.to_string()]
    }
}

fn run_pipeline(shell: &mut Shell, host: &mut Host, line: &str) -> Option<i32> {
    host.pipelines.push(line.to_string());
    let parts: Vec<&str> = line.split_whitespace().collect();
    let status = match parts[0] {
        "true" => 0,
        "false" => 1,
        "status" => parts[1].parse::<i32>().unwrap(),
        "echo" => {
            let mut out: Vec<String> = Vec::new();
            for word in &parts[1..] {
                out.push(expand(shell, word).join(" "));
            }
            host.stdout.push(out.join(" "));
            0
        }
        "test" => {
            let left = expand(shell, parts[1]).join(" ");
            let right = expand(shell, parts[3]).join(" ");
            if left == right {
                0
            } else {
                1
            }
        }
        "sleep" => 0,
        "take" => {
            if host.budget > 0 {
                host.budget -= 1;
                0
            } else {
                1
            }
        }
        "interrupt" => {
            shell.interrupt();
            0
        }
        "errexit" => {
            shell.set_flags(1);
            0
        }
        "unrunnable" => return None,
        other => panic!("unknown command {}", other),
    };
    shell.set_status(status);
    if let Some((trigger, delivery)) = host.signal_after.clone() {
        if trigger == parts[0] {
            host.signals.push(Some(delivery));
            host.signal_after = None;
        }
    }
    Some(status)
}

fn assign(shell: &mut Shell, host: &mut Host, export: bool, action: &str) -> i32 {
    host.assignments.push((export, action.to_string()));
    let parts: Vec<&str> = action.split_whitespace().collect();
    if parts.len() >= 3 && parts[1] == "=" {
        let word = parts[2..].join(" ");
        let value = expand(shell, &word);
        if word.starts_with('[') {
            shell.set(&text(parts[0]), Value::Array(value));
        } else {
            shell.set(&text(parts[0]), Value::Str(value.join(" ")));
        }
        0
    } else {
        1
    }
}

fn serve(shell: &mut Shell, host: &mut Host, request: Request) -> Reply {
    match request {
        Request::Finished => panic!("nothing to serve"),
        Request::Proceed => Reply::Proceed,
        Request::Exit(_) => panic!("nothing to serve"),
        Request::PollSignal => {
            host.polls += 1;
            if host.signals.is_empty() {
                Reply::Signal(None)
            } else {
                Reply::Signal(host.signals.remove(0))
            }
        }
        Request::Assign { export, action } => Reply::Status(assign(shell, host, export, &action)),
        Request::RunPipeline(line) => Reply::Pipeline(run_pipeline(shell, host, &line)),
        Request::ExpandFor(values) => {
            if values.len() == 1 && values[0].contains("..") {
                let ends: Vec<&str> = values[0].split("..").collect();
                Reply::Values(ForExpression::Range(
                    ends[0].parse::<i64>().unwrap(),
                    ends[1].parse::<i64>().unwrap(),
                ))
            } else if values.len() == 1 && values[0].starts_with("lines:") {
                Reply::Values(ForExpression::Normal(values[0][6..].replace("\\n", "\n")))
            } else {
                let mut list: Vec<String> = Vec::new();
                for value in &values {
                    list.extend(expand(shell, value));
                }
                Reply::Values(ForExpression::Multiple(list))
            }
        }
        Request::ExpandSubject(expression) => Reply::Subject {
            is_array: expression.starts_with('@') || expression.starts_with('['),
            values: expand(shell, &expression),
        },
        Request::ExpandPatterns(patterns) => {
            let mut list: Vec<String> = Vec::new();
            for pattern in &patterns {
                list.extend(expand(shell, pattern));
            }
            Reply::Expanded(list)
        }
        Request::Parse(line) => {
            for (known, statements, diagnostic) in &host.programs {
                if *known == line {
                    return Reply::Parsed {
                        statements: statements.clone(),
                        diagnostic: diagnostic.clone(),
                    };
                }
            }
            panic!("unknown command line {}", line)
        }
        Request::Report(message) => {
            host.stderr.push(message);
            Reply::Proceed
        }
        Request::ReadClock => Reply::Clock(host.clock.remove(0)),
        Request::Print(line) => {
            host.stdout.push(line);
            Reply::Proceed
        }
    }
}

/// Runs one command line to its end; `true` if the shell became idle,
/// `false` if it asked for the process to end.
fn drive(shell: &mut Shell, host: &mut Host, line: &str) -> bool {
    assert!(shell.is_idle());
    let mut request = shell.on_command(text(line)).unwrap();
    let mut steps = 0;
    loop {
        steps += 1;
        assert!(steps < 100_000, "the command line does not end");
        host.max_depth = host.max_depth.max(shell.depth());
        host.max_scopes = host.max_scopes.max(shell.variables().depth());
        match request {
            Request::Finished => return true,
            Request::Exit(code) => {
                host.exited = Some(code);
                return false;
            }
            other => {
                let reply = serve(shell, host, other);
                request = match shell.step(reply) {
                    Ok(next) => next,
                    Err(reply) => panic!("the shell did not take {:?}", reply),
                };
            }
        }
    }
}

fn run(statements: Vec<Statement>) -> (Shell, Host) {
    let mut shell = Shell::new();
    let mut host = host();
    host.programs.push((text("line"), statements, None));
    assert!(drive(&mut shell, &mut host, "line"));
    (shell, host)
}

fn string_of(shell: &Shell, name: &str) -> Option<String> {
    shell.variables().get_str(&text(name))
}

fn for_loop(variable: &str, values: &[&str], statements: Vec<Statement>) -> Statement {
    Statement::For { variable: text(variable), values: words(values), statements }
}

fn while_loop(expression: &str, statements: Vec<Statement>) -> Statement {
    Statement::While { expression: text(expression), statements }
}

fn case(patterns: Option<&[&str]>, binding: Option<&str>, guard: Option<&str>, body: Vec<Statement>) -> Case {
    Case {
        patterns: patterns.map(words),
        binding: binding.map(text),
        guard: guard.map(text),
        body,
    }
}

#[test]
fn let_then_for_over_a_range_then_echo() {
    let (shell, host) = run(vec![
        Statement::Let(text("x = 3")),
        for_loop("i", &["1..3"], vec![pipeline("echo $i")]),
        pipeline("echo done"),
    ]);
    assert_eq!(host.stdout, words(&["1", "2", "done"]));
    assert_eq!(shell.previous_status(), 0);
    assert_eq!(string_of(&shell, "x"), Some(text("3")));
    assert_eq!(string_of(&shell, "?"), Some(text("0")));
    assert!(shell.is_idle());
    assert_eq!(shell.variables().depth(), 1);
}

#[test]
fn if_takes_the_first_arm_whose_condition_succeeds() {
    let (_, host) = run(vec![Statement::If {
        expression: Box::new(pipeline("test 0 -eq 1")),
        success: vec![pipeline("echo a")],
        else_if: vec![ElseIf {
            expression: pipeline("test 1 -eq 1"),
            success: vec![pipeline("echo b")],
        }],
        failure: vec![pipeline("echo c")],
    }]);
    assert_eq!(host.stdout, words(&["b"]));
}

#[test]
fn if_runs_the_else_body_when_no_arm_succeeds() {
    let (_, host) = run(vec![Statement::If {
        expression: Box::new(pipeline("false")),
        success: vec![pipeline("echo a")],
        else_if: vec![ElseIf { expression: pipeline("false"), success: vec![pipeline("echo b")] }],
        failure: vec![pipeline("echo c")],
    }]);
    assert_eq!(host.stdout, words(&["c"]));
    assert_eq!(host.pipelines, words(&["false", "false", "echo c"]));
}

#[test]
fn if_with_empty_else_yields_nothing() {
    let (shell, host) = run(vec![
        Statement::If {
            expression: Box::new(pipeline("false")),
            success: vec![pipeline("echo a")],
            else_if: Vec::new(),
            failure: Vec::new(),
        },
        pipeline("echo after"),
    ]);
    assert_eq!(host.stdout, words(&["after"]));
    assert!(shell.is_idle());
}

#[test]
fn if_does_not_try_later_arms_after_a_match() {
    let (_, host) = run(vec![Statement::If {
        expression: Box::new(pipeline("true")),
        success: vec![pipeline("echo a")],
        else_if: vec![ElseIf { expression: pipeline("true"), success: vec![pipeline("echo b")] }],
        failure: vec![pipeline("echo c")],
    }]);
    assert_eq!(host.stdout, words(&["a"]));
    assert_eq!(host.pipelines, words(&["true", "echo a"]));
}

#[test]
fn while_interrupted_by_a_signal_ends_the_command_line() {
    let mut shell = Shell::new();
    let mut host = host();
    host.programs.push((
        text("loop"),
        vec![while_loop("true", vec![pipeline("sleep 1"), pipeline("echo never")]), pipeline("echo after")],
        None,
    ));
    host.signal_after = Some((text("sleep"), Delivery { terminal: false, code: 130 }));
    assert!(drive(&mut shell, &mut host, "loop"));
    assert_eq!(host.pipelines, words(&["true", "sleep 1", "echo after"]));
    assert_eq!(host.stdout, words(&["after"]));
    assert!(!shell.break_flow());
    assert!(shell.is_idle());
    assert_eq!(shell.variables().depth(), 1);
    host.programs.push((text("next"), vec![pipeline("echo prompt")], None));
    assert!(drive(&mut shell, &mut host, "next"));
    assert_eq!(host.stdout, words(&["after", "prompt"]));
}

#[test]
fn match_runs_the_first_matching_case_only() {
    let (_, host) = run(vec![Statement::Match {
        expression: text("hello"),
        cases: vec![
            case(Some(&["hello"]), None, None, vec![pipeline("echo matched")]),
            case(None, None, None, vec![pipeline("echo default")]),
        ],
    }]);
    assert_eq!(host.stdout, words(&["matched"]));
}

#[test]
fn and_is_skipped_and_or_runs_after_a_failure() {
    let (shell, host) = run(vec![
        pipeline("false"),
        Statement::And(Box::new(pipeline("echo skipped"))),
        Statement::Or(Box::new(pipeline("echo ran"))),
    ]);
    assert_eq!(host.stdout, words(&["ran"]));
    assert_eq!(shell.previous_status(), 0);
}

#[test]
fn time_prints_the_report_after_the_statement() {
    let mut shell = Shell::new();
    let mut host = host();
    host.programs.push((text("time echo hi"), vec![Statement::Time(Box::new(pipeline("echo hi")))], None));
    host.clock.push(Instant { seconds: 10, nanoseconds: 999_999_999 });
    host.clock.push(Instant { seconds: 12, nanoseconds: 5 });
    assert!(drive(&mut shell, &mut host, "time echo hi"));
    assert_eq!(host.stdout.len(), 2);
    assert_eq!(host.stdout[0], "hi");
    assert_eq!(host.stdout[1], "real    1.000000006s");
    let line = &host.stdout[1];
    assert!(line.starts_with("real    "));
    assert!(line.ends_with('s'));
    let number = &line[8..line.len() - 1];
    let parts: Vec<&str> = number.split('.').collect();
    assert_eq!(parts.len(), 2);
    assert!(!parts[0].is_empty() && parts[0].chars().all(|c| c.is_ascii_digit()));
    assert!(parts[1].len() == 9 && parts[1].chars().all(|c| c.is_ascii_digit()));
    assert_eq!(shell.previous_status(), 0);
}

#[test]
fn time_reports_minutes_from_sixty_seconds_on() {
    let mut shell = Shell::new();
    let mut host = host();
    host.programs.push((text("a"), vec![Statement::Time(Box::new(pipeline("true")))], None));
    host.clock.push(Instant { seconds: 0, nanoseconds: 0 });
    host.clock.push(Instant { seconds: 60, nanoseconds: 0 });
    assert!(drive(&mut shell, &mut host, "a"));
    assert_eq!(host.stdout, words(&["real    1m 00.000000000s"]));
    host.clock.push(Instant { seconds: 100, nanoseconds: 1 });
    host.clock.push(Instant { seconds: 159, nanoseconds: 999_999_999 });
    assert!(drive(&mut shell, &mut host, "a"));
    assert_eq!(host.stdout[1], "real    59.999999998s");
    host.clock.push(Instant { seconds: 5, nanoseconds: 500 });
    host.clock.push(Instant { seconds: 3730, nanoseconds: 42_500 });
    assert!(drive(&mut shell, &mut host, "a"));
    assert_eq!(host.stdout[2], "real    62m 05.000042000s");
}

#[test]
fn time_passes_on_what_its_statement_yields() {
    let mut shell = Shell::new();
    let mut host = host();
    host.programs.push((
        text("a"),
        vec![for_loop(
            "i",
            &["1", "2"],
            vec![pipeline("echo $i"), Statement::Time(Box::new(Statement::Break)), pipeline("echo never")],
        )],
        None,
    ));
    host.clock.push(Instant { seconds: 1, nanoseconds: 0 });
    host.clock.push(Instant { seconds: 1, nanoseconds: 7 });
    assert!(drive(&mut shell, &mut host, "a"));
    assert_eq!(host.stdout, words(&["1", "real    0.000000007s"]));
}

#[test]
fn a_clock_that_runs_backwards_reports_no_time() {
    let mut shell = Shell::new();
    let mut host = host();
    host.programs.push((text("a"), vec![Statement::Time(Box::new(pipeline("true")))], None));
    host.clock.push(Instant { seconds: 9, nanoseconds: 1 });
    host.clock.push(Instant { seconds: 9, nanoseconds: 0 });
    assert!(drive(&mut shell, &mut host, "a"));
    assert_eq!(host.stdout, words(&["real    0.000000000s"]));
}

#[test]
fn a_reading_with_too_many_nanoseconds_is_refused() {
    let mut shell = Shell::new();
    let request = shell.on_command(text("a"));
    assert_eq!(request, Ok(Request::Parse(text("a"))));
    let request = shell
        .step(Reply::Parsed {
            statements: vec![Statement::Time(Box::new(Statement::Default))],
            diagnostic: None,
        })
        .unwrap();
    assert_eq!(request, Request::Proceed);
    assert_eq!(shell.step(Reply::Proceed), Ok(Request::ReadClock));
    let bad = Reply::Clock(Instant { seconds: 1, nanoseconds: 1_000_000_000 });
    assert_eq!(shell.step(bad), Err(Reply::Clock(Instant { seconds: 1, nanoseconds: 1_000_000_000 })));
    assert_eq!(
        shell.step(Reply::Clock(Instant { seconds: 1, nanoseconds: 999_999_999 })),
        Ok(Request::Proceed)
    );
}

#[test]
fn scopes_are_balanced_after_every_construct() {
    let mut shell = Shell::new();
    let mut host = host();
    host.budget = 3;
    host.programs.push((text("line"), vec![
        for_loop(
            "i",
            &["a", "b"],
            vec![
                Statement::If {
                    expression: Box::new(pipeline("true")),
                    success: vec![while_loop("take", vec![Statement::Let(text("i = z"))])],
                    else_if: Vec::new(),
                    failure: Vec::new(),
                },
                Statement::Match {
                    expression: text("$i"),
                    cases: vec![case(None, Some("v"), None, vec![pipeline("echo $v")])],
                },
            ],
        ),
    ], None));
    assert!(drive(&mut shell, &mut host, "line"));
    assert_eq!(shell.variables().depth(), 1);
    assert!(shell.is_idle());
    assert!(host.max_scopes >= 4);
    assert_eq!(host.stdout, words(&["a", "b"]));
}

#[test]
fn scopes_are_balanced_after_an_interrupt_at_depth() {
    let mut shell = Shell::new();
    let mut host = host();
    host.programs.push((
        text("deep"),
        vec![for_loop(
            "i",
            &["1", "2", "3"],
            vec![Statement::If {
                expression: Box::new(pipeline("true")),
                success: vec![while_loop(
                    "true",
                    vec![Statement::Match {
                        expression: text("x"),
                        cases: vec![case(None, None, None, vec![pipeline("sleep 1"), pipeline("echo never")])],
                    }],
                )],
                else_if: Vec::new(),
                failure: Vec::new(),
            }],
        )],
        None,
    ));
    host.signal_after = Some((text("sleep"), Delivery { terminal: false, code: 130 }));
    assert!(drive(&mut shell, &mut host, "deep"));
    assert_eq!(host.pipelines, words(&["true", "true", "sleep 1"]));
    assert_eq!(shell.variables().depth(), 1);
    assert_eq!(shell.depth(), 0);
    assert!(host.max_scopes >= 5);
}

#[test]
fn status_is_mirrored_after_let_export_pipeline_and_not() {
    let (shell, host) = run(vec![Statement::Let(text("broken"))]);
    assert_eq!(shell.previous_status(), 1);
    assert_eq!(string_of(&shell, "?"), Some(text("1")));
    assert_eq!(host.assignments, vec![(false, text("broken"))]);

    let (shell, host) = run(vec![pipeline("false"), Statement::Export(text("x = 1"))]);
    assert_eq!(shell.previous_status(), 0);
    assert_eq!(string_of(&shell, "?"), Some(text("0")));
    assert_eq!(host.assignments, vec![(true, text("x = 1"))]);

    let (shell, _) = run(vec![pipeline("status 42")]);
    assert_eq!(shell.previous_status(), 42);
    assert_eq!(string_of(&shell, "?"), Some(text("42")));

    let (shell, _) = run(vec![pipeline("status -7")]);
    assert_eq!(string_of(&shell, "?"), Some(text("-7")));

    let (shell, _) = run(vec![Statement::Not(Box::new(pipeline("true")))]);
    assert_eq!(shell.previous_status(), 1);
    assert_eq!(string_of(&shell, "?"), Some(text("1")));
}

#[test]
fn error_installs_its_number_without_writing_the_variable() {
    let (shell, host) = run(vec![pipeline("true"), Statement::Error(5)]);
    assert_eq!(shell.previous_status(), 5);
    assert_eq!(string_of(&shell, "?"), Some(text("0")));
    assert_eq!(host.polls, 2);
}

#[test]
fn break_and_continue_at_top_level_are_absorbed() {
    let (shell, host) = run(vec![
        pipeline("echo one"),
        Statement::Break,
        pipeline("echo two"),
        Statement::Continue,
        pipeline("echo three"),
    ]);
    assert_eq!(host.stdout, words(&["one", "two", "three"]));
    assert!(shell.is_idle());
    assert_eq!(shell.previous_status(), 0);
}

#[test]
fn break_leaves_the_nearest_loop_only() {
    let (_, host) = run(vec![
        for_loop(
            "i",
            &["1", "2"],
            vec![
                for_loop("j", &["a", "b", "c"], vec![pipeline("echo $i $j"), Statement::Break, pipeline("echo never")]),
                pipeline("echo end $i"),
            ],
        ),
        pipeline("echo after"),
    ]);
    assert_eq!(host.stdout, words(&["1 a", "end 1", "2 a", "end 2", "after"]));
}

#[test]
fn continue_goes_on_with_the_next_iteration() {
    let (_, host) = run(vec![for_loop(
        "i",
        &["1", "2", "3"],
        vec![pipeline("echo $i"), Statement::Continue, pipeline("echo never")],
    )]);
    assert_eq!(host.stdout, words(&["1", "2", "3"]));
}

#[test]
fn break_inside_if_leaves_the_loop() {
    let (_, host) = run(vec![while_loop(
        "true",
        vec![
            pipeline("echo once"),
            Statement::If {
                expression: Box::new(pipeline("true")),
                success: vec![Statement::Break],
                else_if: Vec::new(),
                failure: Vec::new(),
            },
            pipeline("echo never"),
        ],
    )]);
    assert_eq!(host.stdout, words(&["once"]));
}

#[test]
fn break_passes_through_a_match() {
    let (_, host) = run(vec![
        for_loop(
            "i",
            &["1", "2"],
            vec![
                Statement::Match {
                    expression: text("$i"),
                    cases: vec![case(Some(&["1"]), None, None, vec![Statement::Break])],
                },
                pipeline("echo never"),
            ],
        ),
        pipeline("echo after"),
    ]);
    assert_eq!(host.stdout, words(&["after"]));
}

#[test]
fn while_ends_when_its_pipeline_fails_or_cannot_be_run() {
    let (_, host) = run(vec![while_loop("false", vec![pipeline("echo never")]), pipeline("echo a")]);
    assert_eq!(host.stdout, words(&["a"]));
    let (_, host) = run(vec![while_loop("unrunnable", vec![pipeline("echo never")]), pipeline("echo b")]);
    assert_eq!(host.stdout, words(&["b"]));
    let (_, host) = run(vec![while_loop("status 2", vec![pipeline("echo never")]), pipeline("echo c")]);
    assert_eq!(host.stdout, words(&["c"]));
}

#[test]
fn while_runs_its_body_as_long_as_the_pipeline_succeeds() {
    let mut shell = Shell::new();
    let mut host = host();
    host.budget = 3;
    host.programs.push((
        text("w"),
        vec![
            Statement::Let(text("n = outer")),
            while_loop("take", vec![pipeline("echo $n"), Statement::Let(text("n = inner")), pipeline("echo $n")]),
            pipeline("echo $n"),
        ],
        None,
    ));
    assert!(drive(&mut shell, &mut host, "w"));
    // The body assigns in its own scope, which is gone when the body ends.
    assert_eq!(host.stdout, words(&["outer", "inner", "outer", "inner", "outer", "inner", "outer"]));
    assert_eq!(host.pipelines.iter().filter(|p| p.as_str() == "take").count(), 4);
    assert_eq!(string_of(&shell, "n"), Some(text("outer")));
}

#[test]
fn sigint_stops_siblings_and_iterations() {
    let mut shell = Shell::new();
    let mut host = host();
    host.programs.push((
        text("a"),
        vec![
            for_loop("i", &["1", "2", "3"], vec![pipeline("echo $i"), pipeline("interrupt"), pipeline("echo never")]),
            pipeline("echo next"),
        ],
        None,
    ));
    assert!(drive(&mut shell, &mut host, "a"));
    assert_eq!(host.stdout, words(&["1", "next"]));
    assert!(!shell.break_flow());
}

#[test]
fn sigint_in_an_if_condition_skips_every_arm() {
    let mut shell = Shell::new();
    let mut host = host();
    host.programs.push((
        text("a"),
        vec![Statement::If {
            expression: Box::new(pipeline("interrupt")),
            success: vec![pipeline("echo a")],
            else_if: vec![ElseIf { expression: pipeline("true"), success: vec![pipeline("echo b")] }],
            failure: vec![pipeline("echo c")],
        }],
        None,
    ));
    assert!(drive(&mut shell, &mut host, "a"));
    assert!(host.stdout.is_empty());
    assert_eq!(host.pipelines, words(&["interrupt"]));
}

#[test]
fn not_drops_what_its_statement_yields() {
    let (shell, host) = run(vec![
        for_loop("i", &["1", "2"], vec![Statement::Not(Box::new(Statement::Break)), pipeline("echo $i")]),
    ]);
    assert_eq!(host.stdout, words(&["1", "2"]));
    assert_eq!(shell.previous_status(), 0);
}

#[test]
fn not_inverts_success_and_failure_only() {
    assert_eq!(invert(0), 1);
    assert_eq!(invert(1), 0);
    assert_eq!(invert(2), 2);
    assert_eq!(invert(-1), -1);
    assert_eq!(invert(127), 127);
    assert_eq!(invert(i32::MAX), i32::MAX);
    assert_eq!(invert(i32::MIN), i32::MIN);
    let (shell, _) = run(vec![Statement::Not(Box::new(pipeline("false")))]);
    assert_eq!(shell.previous_status(), 0);
    let (shell, _) = run(vec![Statement::Not(Box::new(pipeline("status 3")))]);
    assert_eq!(shell.previous_status(), 3);
    assert_eq!(string_of(&shell, "?"), Some(text("3")));
}

#[test]
fn or_runs_after_a_plain_failure_only() {
    let (_, host) = run(vec![pipeline("status 2"), Statement::Or(Box::new(pipeline("echo ran")))]);
    assert!(host.stdout.is_empty());
    let (_, host) = run(vec![pipeline("true"), Statement::Or(Box::new(pipeline("echo ran")))]);
    assert!(host.stdout.is_empty());
    let (_, host) = run(vec![pipeline("status 1"), Statement::Or(Box::new(pipeline("echo ran")))]);
    assert_eq!(host.stdout, words(&["ran"]));
}

#[test]
fn and_runs_after_a_success_only() {
    let (_, host) = run(vec![pipeline("true"), Statement::And(Box::new(pipeline("echo ran")))]);
    assert_eq!(host.stdout, words(&["ran"]));
    let (_, host) = run(vec![pipeline("status 2"), Statement::And(Box::new(pipeline("echo ran")))]);
    assert!(host.stdout.is_empty());
}

#[test]
fn for_underscore_binds_nothing() {
    let (shell, host) = run(vec![for_loop("_", &["a", "b", "c"], vec![pipeline("echo x")])]);
    assert_eq!(host.stdout, words(&["x", "x", "x"]));
    assert!(shell.variables().get(&text("_")).is_none());
    let (shell, host) = run(vec![for_loop("_", &["0..2"], vec![pipeline("echo y")])]);
    assert_eq!(host.stdout, words(&["y", "y"]));
    assert!(shell.variables().get(&text("_")).is_none());
    let (shell, host) = run(vec![for_loop("_", &["lines:a\\nb"], vec![pipeline("echo z")])]);
    assert_eq!(host.stdout, words(&["z", "z"]));
    assert!(shell.variables().get(&text("_")).is_none());
}

#[test]
fn for_binds_each_value_in_turn() {
    let (shell, host) = run(vec![for_loop("v", &["a", "b"], vec![pipeline("echo $v")])]);
    assert_eq!(host.stdout, words(&["a", "b"]));
    assert_eq!(string_of(&shell, "v"), Some(text("b")));
}

#[test]
fn for_goes_through_the_lines_of_a_string() {
    let (_, host) = run(vec![for_loop("l", &["lines:one\\ntwo\\n\\nfour\\n"], vec![pipeline("echo <$l>")])]);
    assert_eq!(host.pipelines.len(), 4);
    let (shell, _) = run(vec![for_loop("l", &["lines:one\\ntwo"], vec![])]);
    assert_eq!(string_of(&shell, "l"), Some(text("two")));
}

#[test]
fn for_over_an_empty_or_descending_range_runs_nothing() {
    let (shell, host) = run(vec![for_loop("i", &["3..3"], vec![pipeline("echo never")])]);
    assert!(host.stdout.is_empty());
    assert!(shell.variables().get(&text("i")).is_none());
    let (_, host) = run(vec![for_loop("i", &["5..1"], vec![pipeline("echo never")])]);
    assert!(host.stdout.is_empty());
}

#[test]
fn for_over_a_range_binds_decimal_strings() {
    let (shell, host) = run(vec![for_loop("i", &["-2..1"], vec![pipeline("echo $i")])]);
    assert_eq!(host.stdout, words(&["-2", "-1", "0"]));
    assert_eq!(string_of(&shell, "i"), Some(text("0")));
}

#[test]
fn match_default_case_runs_when_nothing_else_matches() {
    let (_, host) = run(vec![Statement::Match {
        expression: text("other"),
        cases: vec![
            case(Some(&["hello"]), None, None, vec![pipeline("echo matched")]),
            case(Some(&["a", "b"]), None, None, vec![pipeline("echo ab")]),
            case(None, None, None, vec![pipeline("echo default")]),
            case(Some(&["other"]), None, None, vec![pipeline("echo late")]),
        ],
    }]);
    assert_eq!(host.stdout, words(&["default"]));
}

#[test]
fn match_without_a_matching_case_runs_nothing() {
    let (shell, host) = run(vec![
        Statement::Match {
            expression: text("x"),
            cases: vec![case(Some(&["y"]), None, None, vec![pipeline("echo never")])],
        },
        pipeline("echo after"),
    ]);
    assert_eq!(host.stdout, words(&["after"]));
    assert!(shell.is_idle());
}

#[test]
fn match_tests_overlap_of_patterns_and_subject() {
    let (_, host) = run(vec![Statement::Match {
        expression: text("[a b c]"),
        cases: vec![
            case(Some(&["x", "y"]), None, None, vec![pipeline("echo no")]),
            case(Some(&["z", "[q c]"]), None, None, vec![pipeline("echo yes")]),
            case(None, None, None, vec![pipeline("echo default")]),
        ],
    }]);
    assert_eq!(host.stdout, words(&["yes"]));
}

#[test]
fn match_binds_the_subject_and_restores_the_string() {
    let (shell, host) = run(vec![
        Statement::Let(text("v = before")),
        Statement::Match {
            expression: text("hello"),
            cases: vec![case(Some(&["hello"]), Some("v"), None, vec![pipeline("echo $v"), Statement::Let(text("v = inner"))])],
        },
        pipeline("echo $v"),
    ]);
    assert_eq!(host.stdout, words(&["hello", "before"]));
    assert_eq!(string_of(&shell, "v"), Some(text("before")));
}

#[test]
fn match_binds_an_array_subject_as_an_array_and_restores_it() {
    let (shell, host) = run(vec![
        Statement::Let(text("v = [x y]")),
        Statement::Match {
            expression: text("[a b]"),
            cases: vec![case(Some(&["b"]), Some("v"), None, vec![pipeline("echo @v")])],
        },
    ]);
    assert_eq!(host.stdout, words(&["a b"]));
    assert_eq!(shell.variables().get_array(&text("v")), Some(words(&["x", "y"])));
}

#[test]
fn match_joins_the_subject_with_spaces_for_a_string_binding() {
    let mut shell = Shell::new();
    let first = shell.on_command(text("m"));
    assert_eq!(first, Ok(Request::Parse(text("m"))));
    let request = shell
        .step(Reply::Parsed {
            statements: vec![Statement::Match {
                expression: text("subject"),
                cases: vec![case(None, Some("v"), None, vec![Statement::Default])],
            }],
            diagnostic: None,
        })
        .unwrap();
    assert_eq!(request, Request::Proceed);
    assert_eq!(shell.step(Reply::Proceed), Ok(Request::ExpandSubject(text("subject"))));
    let reply = Reply::Subject { is_array: false, values: words(&["a", "b", "c"]) };
    assert_eq!(shell.step(reply), Ok(Request::Proceed));
    assert_eq!(string_of(&shell, "v"), Some(text("a b c")));
}

#[test]
fn match_leaves_a_binding_of_another_kind_as_the_case_bound_it() {
    let (shell, _) = run(vec![
        Statement::Let(text("v = before")),
        Statement::Match {
            expression: text("[a b]"),
            cases: vec![case(None, Some("v"), None, vec![])],
        },
    ]);
    assert_eq!(shell.variables().get_array(&text("v")), Some(words(&["a", "b"])));
    assert_eq!(string_of(&shell, "v"), None);
}

#[test]
fn match_leaves_a_new_binding_in_place() {
    let (shell, _) = run(vec![Statement::Match {
        expression: text("hello"),
        cases: vec![case(None, Some("fresh"), None, vec![])],
    }]);
    assert_eq!(string_of(&shell, "fresh"), Some(text("hello")));
}

#[test]
fn match_restores_the_binding_after_an_interrupt() {
    let mut shell = Shell::new();
    let mut host = host();
    host.programs.push((
        text("a"),
        vec![
            Statement::Let(text("v = before")),
            Statement::Match {
                expression: text("hello"),
                cases: vec![case(None, Some("v"), None, vec![pipeline("interrupt"), pipeline("echo never")])],
            },
            pipeline("echo $v"),
        ],
        None,
    ));
    assert!(drive(&mut shell, &mut host, "a"));
    assert_eq!(host.stdout, words(&["before"]));
}

#[test]
fn match_guard_decides_whether_the_case_is_taken() {
    let mut shell = Shell::new();
    let mut host = host();
    host.programs.push((text("test $v -eq no"), vec![pipeline("test $v -eq no")], None));
    host.programs.push((text("test $w -eq yes"), vec![pipeline("test $w -eq yes")], None));
    host.programs.push((
        text("a"),
        vec![
            Statement::Let(text("v = before")),
            Statement::Match {
                expression: text("yes"),
                cases: vec![
                    case(Some(&["yes"]), Some("v"), Some("test $v -eq no"), vec![pipeline("echo first")]),
                    case(Some(&["yes"]), Some("w"), Some("test $w -eq yes"), vec![pipeline("echo second $v")]),
                    case(None, None, None, vec![pipeline("echo default")]),
                ],
            },
        ],
        None,
    ));
    assert!(drive(&mut shell, &mut host, "a"));
    assert_eq!(host.stdout, words(&["second before"]));
    assert_eq!(string_of(&shell, "v"), Some(text("before")));
    assert_eq!(shell.variables().depth(), 1);
}

#[test]
fn match_default_case_with_a_failing_guard_is_passed_over() {
    let mut shell = Shell::new();
    let mut host = host();
    host.programs.push((text("false"), vec![pipeline("false")], None));
    host.programs.push((
        text("a"),
        vec![Statement::Match {
            expression: text("x"),
            cases: vec![
                case(None, None, Some("false"), vec![pipeline("echo guarded")]),
                case(Some(&["x"]), None, None, vec![pipeline("echo next")]),
            ],
        }],
        None,
    ));
    assert!(drive(&mut shell, &mut host, "a"));
    assert_eq!(host.stdout, words(&["next"]));
}

#[test]
fn guard_clears_the_interrupt_latch_and_absorbs_conditions() {
    let mut shell = Shell::new();
    let mut host = host();
    host.programs.push((text("guard"), vec![Statement::Break, pipeline("true")], None));
    host.programs.push((
        text("a"),
        vec![for_loop(
            "i",
            &["1", "2"],
            vec![Statement::Match {
                expression: text("x"),
                cases: vec![case(None, None, Some("guard"), vec![pipeline("echo body $i")])],
            }],
        )],
        None,
    ));
    assert!(drive(&mut shell, &mut host, "a"));
    assert_eq!(host.stdout, words(&["body 1", "body 2"]));
}

#[test]
fn function_statement_defines_the_function() {
    let body = vec![pipeline("echo hi")];
    let (shell, host) = run(vec![Statement::Function {
        name: text("greet"),
        args: words(&["who"]),
        statements: body.clone(),
        description: Some(text("says hi")),
    }]);
    match shell.variables().get(&text("greet")) {
        Some(Value::Function(function)) => {
            assert_eq!(function.name, "greet");
            assert_eq!(function.args, words(&["who"]));
            assert_eq!(function.statements, body);
            assert_eq!(function.description, Some(text("says hi")));
        }
        other => panic!("no function: {:?}", other),
    }
    assert_eq!(host.polls, 1);
    assert!(host.stdout.is_empty());
}

#[test]
fn errexit_ends_the_process_with_the_failing_status() {
    let mut shell = Shell::new();
    let mut host = host();
    host.programs.push((text("a"), vec![pipeline("true"), pipeline("status 3"), pipeline("echo never")], None));
    shell.set_flags(1);
    assert!(!drive(&mut shell, &mut host, "a"));
    assert_eq!(host.exited, Some(3));
    assert_eq!(shell.exit_status(), Some(3));
    assert!(host.stdout.is_empty());
    assert_eq!(shell.step(Reply::Proceed), Err(Reply::Proceed));
    assert_eq!(shell.exit_status(), Some(3));
}

#[test]
fn errexit_does_not_follow_a_failing_loop_condition() {
    let mut shell = Shell::new();
    let mut host = host();
    host.programs.push((text("a"), vec![while_loop("false", vec![]), Statement::Let(text("bad")), pipeline("echo on")], None));
    shell.set_flags(1);
    // The loop's pipeline and the assignment fail without ending the
    // process: only a pipeline statement is held to the flag.
    assert!(drive(&mut shell, &mut host, "a"));
    assert_eq!(host.exited, None);
    assert_eq!(host.stdout, words(&["on"]));
}

#[test]
fn without_errexit_a_failing_pipeline_goes_on() {
    let (shell, host) = run(vec![pipeline("status 3"), pipeline("echo on")]);
    assert_eq!(host.stdout, words(&["on"]));
    assert_eq!(shell.exit_status(), None);
}

#[test]
fn a_terminal_signal_ends_the_process_with_its_code() {
    let mut shell = Shell::new();
    let mut host = host();
    host.programs.push((text("a"), vec![pipeline("echo one"), pipeline("echo never")], None));
    host.signals.push(Some(Delivery { terminal: true, code: 143 }));
    assert!(!drive(&mut shell, &mut host, "a"));
    assert_eq!(host.exited, Some(143));
    assert_eq!(host.stdout, words(&["one"]));
}

#[test]
fn a_handled_signal_interrupts_the_command_line() {
    let mut shell = Shell::new();
    let mut host = host();
    host.programs.push((
        text("a"),
        vec![while_loop("true", vec![pipeline("echo one"), pipeline("echo never")]), pipeline("echo next")],
        None,
    ));
    host.signals.push(Some(Delivery { terminal: false, code: 130 }));
    assert!(drive(&mut shell, &mut host, "a"));
    assert_eq!(host.stdout, words(&["one", "next"]));
}

#[test]
fn the_latch_is_cleared_on_entry_and_when_it_is_seen() {
    let mut shell = Shell::new();
    let mut host = host();
    shell.interrupt();
    assert!(shell.break_flow());
    host.programs.push((text("a"), vec![pipeline("echo one"), pipeline("echo two")], None));
    assert!(drive(&mut shell, &mut host, "a"));
    assert_eq!(host.stdout, words(&["one", "two"]));
    assert!(!shell.break_flow());
}

#[test]
fn signals_are_polled_after_every_statement() {
    let (_, host) = run(vec![
        pipeline("true"),
        Statement::Error(1),
        Statement::Default,
        Statement::Let(text("x = 1")),
        Statement::And(Box::new(pipeline("true"))),
    ]);
    // `and` polls once for the statement that it runs and once for itself.
    assert_eq!(host.polls, 6);
    let (_, host) = run(vec![pipeline("false"), Statement::And(Box::new(pipeline("true")))]);
    assert_eq!(host.polls, 2);
    let (_, host) = run(vec![while_loop("false", vec![])]);
    assert_eq!(host.polls, 1);
    let (_, host) = run(vec![Statement::Break, Statement::Continue]);
    assert_eq!(host.polls, 0);
}

#[test]
fn a_diagnostic_is_reported_after_the_statements_before_it() {
    let mut shell = Shell::new();
    let mut host = host();
    host.programs.push((text("bad"), vec![pipeline("echo first")], Some(text("syntax error"))));
    assert!(drive(&mut shell, &mut host, "bad"));
    assert_eq!(host.stdout, words(&["first"]));
    assert_eq!(host.stderr, vec![text("syntax error")]);
    assert!(shell.is_idle());
    host.programs.push((text("worse"), Vec::new(), Some(text("nothing parsed"))));
    assert!(drive(&mut shell, &mut host, "worse"));
    assert_eq!(host.stderr, vec![text("syntax error"), text("nothing parsed")]);
}

#[test]
fn an_empty_command_line_finishes_at_once() {
    let mut shell = Shell::new();
    assert_eq!(shell.on_command(text("")), Ok(Request::Parse(text(""))));
    assert!(!shell.is_idle());
    let reply = Reply::Parsed { statements: Vec::new(), diagnostic: None };
    assert_eq!(shell.step(reply), Ok(Request::Finished));
    assert!(shell.is_idle());
}

#[test]
fn a_reply_that_was_not_asked_for_comes_back() {
    let mut shell = Shell::new();
    assert_eq!(shell.step(Reply::Proceed), Err(Reply::Proceed));
    assert_eq!(shell.on_command(text("a")), Ok(Request::Parse(text("a"))));
    assert_eq!(shell.step(Reply::Status(3)), Err(Reply::Status(3)));
    assert_eq!(shell.step(Reply::Pipeline(Some(0))), Err(Reply::Pipeline(Some(0))));
    assert_eq!(shell.step(Reply::Signal(None)), Err(Reply::Signal(None)));
    assert_eq!(shell.step(Reply::Proceed), Err(Reply::Proceed));
    assert_eq!(shell.depth(), 1);
    let reply = Reply::Parsed { statements: vec![pipeline("true")], diagnostic: None };
    assert_eq!(shell.step(reply), Ok(Request::Proceed));
    assert_eq!(shell.step(Reply::Signal(None)), Err(Reply::Signal(None)));
    assert_eq!(shell.step(Reply::Proceed), Ok(Request::RunPipeline(text("true"))));
    assert_eq!(shell.step(Reply::Proceed), Err(Reply::Proceed));
    assert_eq!(shell.step(Reply::Expanded(Vec::new())), Err(Reply::Expanded(Vec::new())));
    assert_eq!(shell.step(Reply::Pipeline(Some(0))), Ok(Request::PollSignal));
    assert_eq!(shell.step(Reply::Signal(None)), Ok(Request::Proceed));
    assert_eq!(shell.step(Reply::Proceed), Ok(Request::Finished));
    assert!(shell.is_idle());
}

#[test]
fn the_requests_of_a_while_loop_come_in_order() {
    let mut shell = Shell::new();
    assert_eq!(shell.on_command(text("w")), Ok(Request::Parse(text("w"))));
    let reply = Reply::Parsed {
        statements: vec![while_loop("cond", vec![Statement::Let(text("a = b"))])],
        diagnostic: None,
    };
    assert_eq!(shell.step(reply), Ok(Request::Proceed));
    assert_eq!(shell.step(Reply::Proceed), Ok(Request::RunPipeline(text("cond"))));
    assert_eq!(shell.variables().depth(), 1);
    assert_eq!(shell.step(Reply::Pipeline(Some(0))), Ok(Request::Proceed));
    assert_eq!(shell.variables().depth(), 2);
    assert_eq!(shell.step(Reply::Proceed), Ok(Request::Proceed));
    assert_eq!(
        shell.step(Reply::Proceed),
        Ok(Request::Assign { export: false, action: text("a = b") })
    );
    assert_eq!(shell.step(Reply::Status(4)), Ok(Request::PollSignal));
    assert_eq!(shell.previous_status(), 4);
    assert_eq!(string_of(&shell, "?"), Some(text("4")));
    assert_eq!(shell.step(Reply::Signal(None)), Ok(Request::Proceed));
    assert_eq!(shell.step(Reply::Proceed), Ok(Request::Proceed));
    assert_eq!(shell.variables().depth(), 1);
    assert_eq!(string_of(&shell, "?"), None);
    assert_eq!(shell.step(Reply::Proceed), Ok(Request::RunPipeline(text("cond"))));
    assert_eq!(shell.step(Reply::Pipeline(Some(1))), Ok(Request::Proceed));
    assert_eq!(shell.step(Reply::Proceed), Ok(Request::PollSignal));
    assert_eq!(shell.step(Reply::Signal(None)), Ok(Request::Proceed));
    assert_eq!(shell.step(Reply::Proceed), Ok(Request::Finished));
    assert_eq!(shell.depth(), 0);
}

#[test]
fn the_requests_of_a_for_loop_carry_its_words() {
    let mut shell = Shell::new();
    assert!(shell.on_command(text("f")).is_ok());
    let reply = Reply::Parsed {
        statements: vec![for_loop("i", &["a", "$b"], vec![])],
        diagnostic: None,
    };
    assert_eq!(shell.step(reply), Ok(Request::Proceed));
    assert_eq!(shell.step(Reply::Proceed), Ok(Request::ExpandFor(words(&["a", "$b"]))));
    assert_eq!(shell.step(Reply::Values(ForExpression::Multiple(words(&["x"])))), Ok(Request::Proceed));
    assert_eq!(string_of(&shell, "i"), Some(text("x")));
}

#[test]
fn the_requests_of_a_match_carry_subject_and_patterns() {
    let mut shell = Shell::new();
    assert!(shell.on_command(text("m")).is_ok());
    let reply = Reply::Parsed {
        statements: vec![Statement::Match {
            expression: text("$s"),
            cases: vec![
                case(Some(&["p", "q"]), None, None, vec![]),
                case(Some(&[]), None, None, vec![]),
                case(Some(&["r"]), None, Some("guard"), vec![]),
            ],
        }],
        diagnostic: None,
    };
    assert_eq!(shell.step(reply), Ok(Request::Proceed));
    assert_eq!(shell.step(Reply::Proceed), Ok(Request::ExpandSubject(text("$s"))));
    let subject = Reply::Subject { is_array: false, values: words(&["r"]) };
    assert_eq!(shell.step(subject), Ok(Request::ExpandPatterns(words(&["p", "q"]))));
    assert_eq!(shell.step(Reply::Expanded(words(&["p", "q"]))), Ok(Request::ExpandPatterns(Vec::new())));
    assert_eq!(shell.step(Reply::Expanded(Vec::new())), Ok(Request::ExpandPatterns(words(&["r"]))));
    shell.interrupt();
    assert_eq!(shell.step(Reply::Expanded(words(&["x", "r"]))), Ok(Request::Parse(text("guard"))));
    assert!(!shell.break_flow());
}

#[test]
fn exported_assignments_are_marked() {
    let mut shell = Shell::new();
    assert!(shell.on_command(text("e")).is_ok());
    let reply = Reply::Parsed { statements: vec![Statement::Export(text("A = 1"))], diagnostic: None };
    assert_eq!(shell.step(reply), Ok(Request::Proceed));
    assert_eq!(shell.step(Reply::Proceed), Ok(Request::Assign { export: true, action: text("A = 1") }));
}

#[test]
fn the_driver_can_set_variables_and_status() {
    let mut shell = Shell::new();
    shell.set(&text("name"), Value::Str(text("value")));
    assert_eq!(string_of(&shell, "name"), Some(text("value")));
    shell.set_status(-12);
    assert_eq!(shell.previous_status(), -12);
    assert_eq!(string_of(&shell, "?"), Some(text("-12")));
    shell.set_status(i32::MIN);
    assert_eq!(string_of(&shell, "?"), Some(text("-2147483648")));
    shell.set_status(i32::MAX);
    assert_eq!(string_of(&shell, "?"), Some(text("2147483647")));
    shell.set_flags(5);
    assert_eq!(shell.flags(), 5);
}

#[test]
fn a_command_line_is_refused_while_another_is_under_way() {
    let mut shell = Shell::new();
    assert_eq!(shell.on_command(text("first")), Ok(Request::Parse(text("first"))));
    assert_eq!(shell.on_command(text("second")), Err(text("second")));
    assert_eq!(shell.depth(), 1);
    let reply = Reply::Parsed { statements: vec![pipeline("true")], diagnostic: None };
    assert_eq!(shell.step(reply), Ok(Request::Proceed));
    assert_eq!(shell.on_command(text("third")), Err(text("third")));
    assert_eq!(shell.step(Reply::Proceed), Ok(Request::RunPipeline(text("true"))));
    assert_eq!(shell.on_command(text("fourth")), Err(text("fourth")));
    assert_eq!(shell.step(Reply::Pipeline(Some(0))), Ok(Request::PollSignal));
    assert_eq!(shell.step(Reply::Signal(None)), Ok(Request::Proceed));
    assert_eq!(shell.step(Reply::Proceed), Ok(Request::Finished));
    assert_eq!(shell.on_command(text("fifth")), Ok(Request::Parse(text("fifth"))));
}

/// Runs one command line to its end with a driver that is never told to
/// step again.
fn drive_by_answers(shell: &mut Shell, host: &mut Host, line: &str) -> bool {
    let mut request = shell.on_command(text(line)).unwrap();
    let mut answers = 0;
    loop {
        answers += 1;
        assert!(answers < 100_000, "the command line does not end");
        match request {
            Request::Finished => return true,
            Request::Exit(code) => {
                host.exited = Some(code);
                return false;
            }
            Request::Proceed => panic!("asked to step again"),
            other => {
                let reply = serve(shell, host, other);
                request = match shell.answer(reply) {
                    Ok(next) => next,
                    Err(reply) => panic!("the shell did not take {:?}", reply),
                };
            }
        }
    }
}

fn nested_program() -> Vec<Statement> {
    vec![
        Statement::Let(text("x = 3")),
        for_loop(
            "i",
            &["1..4"],
            vec![
                Statement::If {
                    expression: Box::new(pipeline("test $i -eq 2")),
                    success: vec![Statement::Continue],
                    else_if: vec![ElseIf {
                        expression: pipeline("test $i -eq 3"),
                        success: vec![Statement::Break],
                    }],
                    failure: vec![pipeline("echo $i")],
                },
                Statement::Match {
                    expression: text("$i"),
                    cases: vec![
                        case(Some(&["7", "1"]), Some("m"), None, vec![pipeline("echo one $m")]),
                        case(None, None, None, vec![pipeline("echo other")]),
                    ],
                },
            ],
        ),
        Statement::Not(Box::new(pipeline("false"))),
        Statement::And(Box::new(pipeline("echo done"))),
    ]
}

#[test]
fn answering_comes_to_the_same_end_as_stepping() {
    let mut stepped = Shell::new();
    let mut first = host();
    first.programs.push((text("p"), nested_program(), Some(text("unexpected end"))));
    assert!(drive(&mut stepped, &mut first, "p"));

    let mut answered = Shell::new();
    let mut second = host();
    second.programs.push((text("p"), nested_program(), Some(text("unexpected end"))));
    assert!(drive_by_answers(&mut answered, &mut second, "p"));

    assert_eq!(first.stdout, words(&["1", "one 1", "done"]));
    assert_eq!(second.stdout, first.stdout);
    assert_eq!(second.stderr, first.stderr);
    assert_eq!(second.pipelines, first.pipelines);
    assert_eq!(second.assignments, first.assignments);
    assert_eq!(second.polls, first.polls);
    assert_eq!(answered.previous_status(), stepped.previous_status());
    assert_eq!(string_of(&answered, "x"), Some(text("3")));
    assert_eq!(string_of(&answered, "i"), string_of(&stepped, "i"));
    assert!(answered.is_idle());
    assert_eq!(answered.variables().depth(), 1);
}

#[test]
fn answering_goes_through_loops_that_ask_nothing() {
    let mut shell = Shell::new();
    let mut host = host();
    host.programs.push((
        text("p"),
        vec![
            for_loop("i", &["0..2000"], vec![Statement::Continue, pipeline("echo never")]),
            for_loop("_", &["0..2000"], vec![]),
            pipeline("echo after"),
        ],
        None,
    ));
    assert_eq!(shell.on_command(text("p")), Ok(Request::Parse(text("p"))));
    let parsed = serve(&mut shell, &mut host, Request::Parse(text("p")));
    assert_eq!(shell.answer(parsed), Ok(Request::ExpandFor(words(&["0..2000"]))));
    let values = Reply::Values(ForExpression::Range(0, 2000));
    assert_eq!(shell.answer(values), Ok(Request::PollSignal));
    assert_eq!(string_of(&shell, "i"), Some(text("1999")));
    assert_eq!(shell.answer(Reply::Signal(None)), Ok(Request::ExpandFor(words(&["0..2000"]))));
    let values = Reply::Values(ForExpression::Range(0, 2000));
    assert_eq!(shell.answer(values), Ok(Request::PollSignal));
    assert_eq!(shell.answer(Reply::Signal(None)), Ok(Request::RunPipeline(text("echo after"))));
    assert_eq!(shell.answer(Reply::Proceed), Err(Reply::Proceed));
    assert_eq!(shell.answer(Reply::Pipeline(Some(0))), Ok(Request::PollSignal));
    assert_eq!(shell.answer(Reply::Signal(None)), Ok(Request::Finished));
    assert!(shell.is_idle());
    assert_eq!(shell.variables().depth(), 1);
}

#[test]
fn answering_ends_with_the_process_under_errexit() {
    let mut shell = Shell::new();
    let mut host = host();
    host.programs.push((text("p"), vec![pipeline("errexit"), pipeline("status 9"), pipeline("echo never")], None));
    assert!(!drive_by_answers(&mut shell, &mut host, "p"));
    assert_eq!(host.exited, Some(9));
    assert!(host.stdout.is_empty());
    assert_eq!(shell.answer(Reply::Proceed), Err(Reply::Proceed));
}
