use shell_flow::protocol::Request;
use shell_flow::statement::{
    clone_cases, clone_else_ifs, clone_optional_text, clone_optional_texts, clone_statement,
    clone_statements, Case, ElseIf, Statement,
};
use shell_flow::variables::{Function, Value, Variables};

fn text(s: &str) -> String {
    s.to_string()
}

fn string(s: &str) -> Value {
    Value::Str(s.to_string())
}

#[test]
fn a_new_store_has_an_empty_global_scope() {
    let store = Variables::new();
    assert_eq!(store.depth(), 1);
    assert!(store.get(&text("x")).is_none());
    assert_eq!(store.get_str(&text("x")), None);
    assert_eq!(store.get_array(&text("x")), None);
}

#[test]
fn a_name_reads_as_the_value_it_was_last_given() {
    let mut store = Variables::new();
    store.set(&text("x"), string("1"));
    assert_eq!(store.get(&text("x")), Some(&string("1")));
    store.set(&text("x"), string("2"));
    assert_eq!(store.get(&text("x")), Some(&string("2")));
    store.set(&text("y"), string("3"));
    assert_eq!(store.get_str(&text("x")), Some(text("2")));
    assert_eq!(store.get_str(&text("y")), Some(text("3")));
    assert_eq!(store.depth(), 1);
}

#[test]
fn an_inner_definition_shadows_and_does_not_overwrite() {
    let mut store = Variables::new();
    store.set(&text("x"), string("outer"));
    store.new_scope(false);
    assert_eq!(store.depth(), 2);
    assert_eq!(store.get_str(&text("x")), Some(text("outer")));
    store.set(&text("x"), string("inner"));
    store.set(&text("y"), string("local"));
    assert_eq!(store.get_str(&text("x")), Some(text("inner")));
    assert!(!store.in_namespace());
    store.new_scope(true);
    assert!(store.in_namespace());
    assert_eq!(store.get_str(&text("x")), Some(text("inner")));
    assert_eq!(store.get_str(&text("y")), Some(text("local")));
    store.pop_scope();
    store.pop_scope();
    assert_eq!(store.depth(), 1);
    assert_eq!(store.get_str(&text("x")), Some(text("outer")));
    assert_eq!(store.get_str(&text("y")), None);
}

#[test]
fn typed_lookups_give_nothing_for_another_kind() {
    let mut store = Variables::new();
    store.set(&text("s"), string("a b"));
    store.set(&text("a"), Value::Array(vec![text("a"), text("b")]));
    store.set(
        &text("f"),
        Value::Function(Function {
            description: None,
            name: text("f"),
            args: Vec::new(),
            statements: vec![Statement::Break],
        }),
    );
    assert_eq!(store.get_str(&text("s")), Some(text("a b")));
    assert_eq!(store.get_array(&text("s")), None);
    assert_eq!(store.get_array(&text("a")), Some(vec![text("a"), text("b")]));
    assert_eq!(store.get_str(&text("a")), None);
    assert_eq!(store.get_str(&text("f")), None);
    assert_eq!(store.get_array(&text("f")), None);
    assert!(matches!(store.get(&text("f")), Some(Value::Function(_))));
}

#[test]
fn a_shadowing_value_of_another_kind_hides_the_outer_one() {
    let mut store = Variables::new();
    store.set(&text("v"), string("outer"));
    store.new_scope(false);
    store.set(&text("v"), Value::Array(vec![text("inner")]));
    assert_eq!(store.get_str(&text("v")), None);
    assert_eq!(store.get_array(&text("v")), Some(vec![text("inner")]));
    store.pop_scope();
    assert_eq!(store.get_str(&text("v")), Some(text("outer")));
}

#[test]
fn names_are_told_apart_exactly() {
    let mut store = Variables::new();
    store.set(&text(""), string("empty"));
    store.set(&text("a"), string("1"));
    store.set(&text("A"), string("2"));
    store.set(&text("a "), string("3"));
    assert_eq!(store.get_str(&text("")), Some(text("empty")));
    assert_eq!(store.get_str(&text("a")), Some(text("1")));
    assert_eq!(store.get_str(&text("A")), Some(text("2")));
    assert_eq!(store.get_str(&text("a ")), Some(text("3")));
    assert_eq!(store.get_str(&text(" a")), None);
}

#[test]
fn copies_of_statements_and_values_are_equal() {
    let statement = Statement::If {
        expression: Box::new(Statement::Pipeline(text("test"))),
        success: vec![Statement::While { expression: text("c"), statements: vec![Statement::Break] }],
        else_if: Vec::new(),
        failure: vec![Statement::Not(Box::new(Statement::Error(3)))],
    };
    assert_eq!(statement.clone(), statement);
    let value = Value::Function(Function {
        description: Some(text("d")),
        name: text("f"),
        args: vec![text("a")],
        statements: vec![statement],
    });
    assert_eq!(value.clone(), value);
    assert_eq!(Value::Array(vec![text("x")]).clone(), Value::Array(vec![text("x")]));
}

#[test]
fn copies_of_lists_are_equal() {
    let statements = vec![Statement::Let(text("a = b")), Statement::Continue, Statement::Default];
    assert_eq!(clone_statements(&statements), statements);
    assert_eq!(clone_statements(&Vec::new()), Vec::new());
    assert_eq!(clone_statement(&statements[0]), Statement::Let(text("a = b")));
    let arms = vec![ElseIf { expression: Statement::Pipeline(text("c")), success: statements.clone() }];
    assert_eq!(clone_else_ifs(&arms), arms);
    let cases = vec![
        Case {
            patterns: Some(vec![text("p"), text("q")]),
            binding: Some(text("b")),
            guard: Some(text("g")),
            body: statements.clone(),
        },
        Case { patterns: None, binding: None, guard: None, body: Vec::new() },
    ];
    assert_eq!(clone_cases(&cases), cases);
    assert_eq!(clone_optional_text(&Some(text("x"))), Some(text("x")));
    assert_eq!(clone_optional_text(&None), None);
    assert_eq!(clone_optional_texts(&Some(vec![text("x")])), Some(vec![text("x")]));
    assert_eq!(clone_optional_texts(&None), None);
}

#[test]
fn only_proceed_asks_to_step_again() {
    assert!(Request::Proceed.is_proceed());
    assert!(!Request::Finished.is_proceed());
    assert!(!Request::PollSignal.is_proceed());
    assert!(!Request::Exit(0).is_proceed());
    assert!(!Request::Print(text("line")).is_proceed());
}
