//! The statements that the executor runs, and what they are as mathematical
//! values.

use crate::text::texts;
use vstd::prelude::*;

verus! {

/// One executable construct of the shell language.
#[allow(inconsistent_fields)]
#[derive(Debug, PartialEq, Eq)]
pub enum Statement {
    /// A diagnostic that was already printed; it installs its number as the
    /// last status.
    Error(i32),
    /// A local assignment, as the text that the assignment routine evaluates.
    Let(String),
    /// An exported assignment.
    Export(String),
    /// One or more commands connected by pipes and redirections.
    Pipeline(String),
    /// `if` with its chain of `else if` arms and its `else` body.
    If {
        expression: Box<Statement>,
        success: Vec<Statement>,
        else_if: Vec<ElseIf>,
        failure: Vec<Statement>,
    },
    /// A loop that runs while its pipeline succeeds.
    While { expression: String, statements: Vec<Statement> },
    /// A loop over the values that its words expand to.
    For { variable: String, values: Vec<String>, statements: Vec<Statement> },
    /// A choice among cases by the value of an expression.
    Match { expression: String, cases: Vec<Case> },
    /// The definition of a function.
    Function {
        name: String,
        args: Vec<String>,
        statements: Vec<Statement>,
        description: Option<String>,
    },
    /// A statement whose running time is reported.
    Time(Box<Statement>),
    /// A statement that runs only after a success.
    And(Box<Statement>),
    /// A statement that runs only after a plain failure.
    Or(Box<Statement>),
    /// A statement whose status is inverted.
    Not(Box<Statement>),
    /// Leave the nearest enclosing loop.
    Break,
    /// Go on with the next iteration of the nearest enclosing loop.
    Continue,
    /// A statement with nothing to execute.
    Default,
}

/// One `else if` arm.
#[derive(Debug, PartialEq, Eq)]
pub struct ElseIf {
    pub expression: Statement,
    pub success: Vec<Statement>,
}

/// One arm of a `match`.
#[derive(Debug, PartialEq, Eq)]
pub struct Case {
    /// The patterns of the arm, unexpanded; `None` in the arm that matches
    /// everything.
    pub patterns: Option<Vec<String>>,
    /// The name that the matched value is bound to while the arm runs.
    pub binding: Option<String>,
    /// A command that has to succeed for the arm to be taken.
    pub guard: Option<String>,
    pub body: Vec<Statement>,
}

/// What a [`Statement`] is.
#[allow(inconsistent_fields)]
pub enum StatementView {
    Error(i32),
    Let(Seq<char>),
    Export(Seq<char>),
    Pipeline(Seq<char>),
    If {
        expression: Box<StatementView>,
        success: Seq<StatementView>,
        else_if: Seq<ElseIfView>,
        failure: Seq<StatementView>,
    },
    While { expression: Seq<char>, statements: Seq<StatementView> },
    For { variable: Seq<char>, values: Seq<Seq<char>>, statements: Seq<StatementView> },
    Match { expression: Seq<char>, cases: Seq<CaseView> },
    Function {
        name: Seq<char>,
        args: Seq<Seq<char>>,
        statements: Seq<StatementView>,
        description: Option<Seq<char>>,
    },
    Time(Box<StatementView>),
    And(Box<StatementView>),
    Or(Box<StatementView>),
    Not(Box<StatementView>),
    Break,
    Continue,
    Default,
}

/// What an [`ElseIf`] is.
pub struct ElseIfView {
    pub expression: StatementView,
    pub success: Seq<StatementView>,
}

/// What a [`Case`] is.
pub struct CaseView {
    pub patterns: Option<Seq<Seq<char>>>,
    pub binding: Option<Seq<char>>,
    pub guard: Option<Seq<char>>,
    pub body: Seq<StatementView>,
}

/// The contents of an optional string.
pub open spec fn optional_text(s: Option<String>) -> Option<Seq<char>> {
    match s {
        Some(s) => Some(s@),
        None => None,
    }
}

/// The contents of an optional list of strings.
pub open spec fn optional_texts(list: Option<Vec<String>>) -> Option<Seq<Seq<char>>> {
    match list {
        Some(list) => Some(texts(list@)),
        None => None,
    }
}

/// What a list of statements is.
pub open spec fn statements_view(list: Seq<Statement>) -> Seq<StatementView>
    decreases list, 0nat,
{
    Seq::new(
        list.len(),
        |i: int|
            if 0 <= i < list.len() {
                statement_view(list[i])
            } else {
                StatementView::Default
            },
    )
}

/// What a list of `else if` arms is.
pub open spec fn else_ifs_view(list: Seq<ElseIf>) -> Seq<ElseIfView>
    decreases list, 0nat,
{
    Seq::new(
        list.len(),
        |i: int|
            if 0 <= i < list.len() {
                else_if_view(list[i])
            } else {
                ElseIfView { expression: StatementView::Default, success: Seq::empty() }
            },
    )
}

/// What a list of cases is.
pub open spec fn cases_view(list: Seq<Case>) -> Seq<CaseView>
    decreases list, 0nat,
{
    Seq::new(
        list.len(),
        |i: int|
            if 0 <= i < list.len() {
                case_view(list[i])
            } else {
                CaseView { patterns: None, binding: None, guard: None, body: Seq::empty() }
            },
    )
}

/// What an `else if` arm is.
pub open spec fn else_if_view(arm: ElseIf) -> ElseIfView
    decreases arm, 1nat,
{
    ElseIfView {
        expression: statement_view(arm.expression),
        success: statements_view(arm.success@),
    }
}

/// What a case is.
pub open spec fn case_view(case: Case) -> CaseView
    decreases case, 1nat,
{
    CaseView {
        patterns: optional_texts(case.patterns),
        binding: optional_text(case.binding),
        guard: optional_text(case.guard),
        body: statements_view(case.body@),
    }
}

/// What a statement is.
pub open spec fn statement_view(statement: Statement) -> StatementView
    decreases statement, 1nat,
{
    match statement {
        Statement::Error(number) => StatementView::Error(number),
        Statement::Let(action) => StatementView::Let(action@),
        Statement::Export(action) => StatementView::Export(action@),
        Statement::Pipeline(pipeline) => StatementView::Pipeline(pipeline@),
        Statement::If { expression, success, else_if, failure } => StatementView::If {
            expression: Box::new(statement_view(*expression)),
            success: statements_view(success@),
            else_if: else_ifs_view(else_if@),
            failure: statements_view(failure@),
        },
        Statement::While { expression, statements } => StatementView::While {
            expression: expression@,
            statements: statements_view(statements@),
        },
        Statement::For { variable, values, statements } => StatementView::For {
            variable: variable@,
            values: texts(values@),
            statements: statements_view(statements@),
        },
        Statement::Match { expression, cases } => StatementView::Match {
            expression: expression@,
            cases: cases_view(cases@),
        },
        Statement::Function { name, args, statements, description } => StatementView::Function {
            name: name@,
            args: texts(args@),
            statements: statements_view(statements@),
            description: optional_text(description),
        },
        Statement::Time(inner) => StatementView::Time(Box::new(statement_view(*inner))),
        Statement::And(inner) => StatementView::And(Box::new(statement_view(*inner))),
        Statement::Or(inner) => StatementView::Or(Box::new(statement_view(*inner))),
        Statement::Not(inner) => StatementView::Not(Box::new(statement_view(*inner))),
        Statement::Break => StatementView::Break,
        Statement::Continue => StatementView::Continue,
        Statement::Default => StatementView::Default,
    }
}

impl View for Statement {
    type V = StatementView;

    open spec fn view(&self) -> StatementView {
        statement_view(*self)
    }
}

impl View for ElseIf {
    type V = ElseIfView;

    open spec fn view(&self) -> ElseIfView {
        else_if_view(*self)
    }
}

impl View for Case {
    type V = CaseView;

    open spec fn view(&self) -> CaseView {
        case_view(*self)
    }
}

/// A copy of an optional string.
pub fn clone_optional_text(s: &Option<String>) -> (copy: Option<String>)
    ensures
        copy == *s,
{
    match s {
        Some(s) => Some(s.clone()),
        None => None,
    }
}

/// A copy of an optional list of strings.
pub fn clone_optional_texts(list: &Option<Vec<String>>) -> (copy: Option<Vec<String>>)
    ensures
        optional_texts(copy) == optional_texts(*list),
{
    match list {
        Some(list) => Some(list.clone()),
        None => None,
    }
}

/// A copy of a list of statements.
pub fn clone_statements(list: &Vec<Statement>) -> (copy: Vec<Statement>)
    ensures
        statements_view(copy@) == statements_view(list@),
    decreases list, 0nat,
{
    let mut copy: Vec<Statement> = Vec::new();
    let mut i: usize = 0;
    while i < list.len()
        invariant
            i <= list.len(),
            copy@.len() == i,
            forall|k: int| 0 <= k < i ==> statement_view(#[trigger] copy@[k]) == statement_view(list@[k]),
        decreases list.len() - i,
    {
        copy.push(clone_statement(&list[i]));
        i = i + 1;
    }
    assert(statements_view(copy@) =~= statements_view(list@));
    copy
}

/// A copy of a list of `else if` arms.
pub fn clone_else_ifs(list: &Vec<ElseIf>) -> (copy: Vec<ElseIf>)
    ensures
        else_ifs_view(copy@) == else_ifs_view(list@),
    decreases list, 0nat,
{
    let mut copy: Vec<ElseIf> = Vec::new();
    let mut i: usize = 0;
    while i < list.len()
        invariant
            i <= list.len(),
            copy@.len() == i,
            forall|k: int| 0 <= k < i ==> else_if_view(#[trigger] copy@[k]) == else_if_view(list@[k]),
        decreases list.len() - i,
    {
        let arm = &list[i];
        copy.push(
            ElseIf {
                expression: clone_statement(&arm.expression),
                success: clone_statements(&arm.success),
            },
        );
        i = i + 1;
    }
    assert(else_ifs_view(copy@) =~= else_ifs_view(list@));
    copy
}

/// A copy of a list of cases.
pub fn clone_cases(list: &Vec<Case>) -> (copy: Vec<Case>)
    ensures
        cases_view(copy@) == cases_view(list@),
    decreases list, 0nat,
{
    let mut copy: Vec<Case> = Vec::new();
    let mut i: usize = 0;
    while i < list.len()
        invariant
            i <= list.len(),
            copy@.len() == i,
            forall|k: int| 0 <= k < i ==> case_view(#[trigger] copy@[k]) == case_view(list@[k]),
        decreases list.len() - i,
    {
        let case = &list[i];
        copy.push(
            Case {
                patterns: clone_optional_texts(&case.patterns),
                binding: clone_optional_text(&case.binding),
                guard: clone_optional_text(&case.guard),
                body: clone_statements(&case.body),
            },
        );
        i = i + 1;
    }
    assert(cases_view(copy@) =~= cases_view(list@));
    copy
}

/// A copy of a statement.
pub fn clone_statement(statement: &Statement) -> (copy: Statement)
    ensures
        copy@ == statement@,
    decreases statement, 1nat,
{
    match statement {
        Statement::Error(number) => Statement::Error(*number),
        Statement::Let(action) => Statement::Let(action.clone()),
        Statement::Export(action) => Statement::Export(action.clone()),
        Statement::Pipeline(pipeline) => Statement::Pipeline(pipeline.clone()),
        Statement::If { expression, success, else_if, failure } => Statement::If {
            expression: Box::new(clone_statement(expression)),
            success: clone_statements(success),
            else_if: clone_else_ifs(else_if),
            failure: clone_statements(failure),
        },
        Statement::While { expression, statements } => Statement::While {
            expression: expression.clone(),
            statements: clone_statements(statements),
        },
        Statement::For { variable, values, statements } => Statement::For {
            variable: variable.clone(),
            values: values.clone(),
            statements: clone_statements(statements),
        },
        Statement::Match { expression, cases } => Statement::Match {
            expression: expression.clone(),
            cases: clone_cases(cases),
        },
        Statement::Function { name, args, statements, description } => Statement::Function {
            name: name.clone(),
            args: args.clone(),
            statements: clone_statements(statements),
            description: clone_optional_text(description),
        },
        Statement::Time(inner) => Statement::Time(Box::new(clone_statement(inner))),
        Statement::And(inner) => Statement::And(Box::new(clone_statement(inner))),
        Statement::Or(inner) => Statement::Or(Box::new(clone_statement(inner))),
        Statement::Not(inner) => Statement::Not(Box::new(clone_statement(inner))),
        Statement::Break => Statement::Break,
        Statement::Continue => Statement::Continue,
        Statement::Default => Statement::Default,
    }
}

impl Clone for Statement {
    fn clone(&self) -> (copy: Self)
        ensures
            copy@ == self@,
    {
        clone_statement(self)
    }
}

impl Clone for ElseIf {
    fn clone(&self) -> (copy: Self)
        ensures
            copy@ == self@,
    {
        ElseIf {
            expression: clone_statement(&self.expression),
            success: clone_statements(&self.success),
        }
    }
}

impl Clone for Case {
    fn clone(&self) -> (copy: Self)
        ensures
            copy@ == self@,
    {
        Case {
            patterns: clone_optional_texts(&self.patterns),
            binding: clone_optional_text(&self.binding),
            guard: clone_optional_text(&self.guard),
            body: clone_statements(&self.body),
        }
    }
}

} // verus!
