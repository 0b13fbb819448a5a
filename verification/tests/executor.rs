use sh42::ast::SimpleCommand;
use sh42::builtins::Builtin;
use sh42::executor::{launch_error, plan_command, redirection_error, CommandPlan, Executor};
use sh42::lexer::{CharStream, Lexer};
use sh42::parser::Parser;

/// Outcome of a simple command: `true` is 0, `false` is 1, `code N` is N, `fail` is an
/// error, anything else 0.
fn outcome(c: &SimpleCommand) -> Result<i32, String> {
    match c.words.first().map(|s| s.as_str()) {
        Some("false") => Ok(1),
        Some("fail") => Err("boom".to_string()),
        Some("code") => Ok(c.words[1].parse().unwrap()),
        _ => Ok(0),
    }
}

fn run(input: &str) -> (Result<i32, String>, Vec<String>) {
    let list = Parser::new(Lexer::new(CharStream::new(input)))
        .parse_command_list()
        .unwrap();
    let executor = Executor::new();
    let mut execution = executor.execute(&list);
    let mut ran = Vec::new();
    while let Some(c) = execution.next_command() {
        ran.push(c.words.join(" "));
        let r = outcome(c);
        execution.resume(r);
    }
    (execution.into_result(), ran)
}

#[test]
fn empty_list_succeeds() {
    assert_eq!(run(""), (Ok(0), vec![]));
}

#[test]
fn status_of_last_command() {
    assert_eq!(run("true; code 3; code 5"), (Ok(5), vec!["true".into(), "code 3".into(), "code 5".into()]));
    assert_eq!(run("false"), (Ok(1), vec!["false".into()]));
}

#[test]
fn error_stops_the_list() {
    assert_eq!(run("a; fail; b"), (Err("boom".to_string()), vec!["a".into(), "fail".into()]));
}

#[test]
fn if_then() {
    assert_eq!(run("if true; then a; else b; fi"), (Ok(0), vec!["true".into(), "a".into()]));
    assert_eq!(run("if false; then a; else b; fi"), (Ok(0), vec!["false".into(), "b".into()]));
}

#[test]
fn if_without_branch_taken_is_zero() {
    assert_eq!(run("if false; then a; fi"), (Ok(0), vec!["false".into()]));
    assert_eq!(run("code 4; if code 2; then a; fi"), (Ok(0), vec!["code 4".into(), "code 2".into()]));
}

#[test]
fn elif_chain() {
    assert_eq!(
        run("if false; then a; elif code 1; then b; elif true; then code 7; else d; fi"),
        (Ok(7), vec!["false".into(), "code 1".into(), "true".into(), "code 7".into()])
    );
    assert_eq!(
        run("if false; then a; elif false; then b; else code 9; fi"),
        (Ok(9), vec!["false".into(), "false".into(), "code 9".into()])
    );
}

#[test]
fn error_in_condition() {
    assert_eq!(run("if fail; then a; fi; b"), (Err("boom".to_string()), vec!["fail".into()]));
}

#[test]
fn empty_condition_counts_as_true() {
    assert_eq!(run("if then a; fi"), (Ok(0), vec!["a".into()]));
}

#[test]
fn nested_ifs() {
    assert_eq!(
        run("if if false; then a; else true; fi; then code 2; fi; code 3"),
        (Ok(3), vec!["false".into(), "true".into(), "code 2".into(), "code 3".into()])
    );
}

#[test]
fn command_plans() {
    let list = Parser::new(Lexer::new(CharStream::new(">x; echo hi; ls -l")))
        .parse_command_list()
        .unwrap();
    let plans: Vec<CommandPlan> = list
        .commands
        .iter()
        .map(|c| match c {
            sh42::ast::Command::Simple(s) => plan_command(s),
            _ => panic!(),
        })
        .collect();
    assert_eq!(
        plans,
        vec![CommandPlan::Redirections, CommandPlan::Builtin(Builtin::Echo), CommandPlan::External]
    );
}

#[test]
fn messages() {
    assert_eq!(redirection_error("no such file"), "Redirection error: no such file");
    assert_eq!(launch_error("foo", "not found"), "Failed to execute 'foo': not found");
}

#[test]
fn if_runs_the_first_branch_whose_condition_is_zero() {
    assert_eq!(
        run("if false; then a; elif code 0; then b; elif true; then c; else d; fi"),
        (Ok(0), vec!["false".into(), "code 0".into(), "b".into()])
    );
    assert_eq!(
        run("if false; then a; elif code 3; then b; else code 7; fi"),
        (Ok(7), vec!["false".into(), "code 3".into(), "code 7".into()])
    );
    assert_eq!(
        run("if false; then a; elif fail; then b; else d; fi; e"),
        (Err("boom".to_string()), vec!["false".into(), "fail".into()])
    );
}
