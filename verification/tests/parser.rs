use sh42::ast::{Command, CommandList, RedirectionType};
use sh42::lexer::{CharStream, Lexer, Token};
use sh42::parser::Parser;

fn parser(input: &str) -> Parser<CharStream> {
    Parser::new(Lexer::new(CharStream::new(input)))
}

fn parse(input: &str) -> Result<CommandList, String> {
    parser(input).parse_command_list()
}

fn words(c: &Command) -> Vec<String> {
    match c {
        Command::Simple(s) => s.words.clone(),
        Command::If(_) => panic!("not a simple command"),
    }
}

#[test]
fn test_simple_command_parsing() {
    let input = "ls -la";
    let lexer = Lexer::new(CharStream::new(input));
    let mut parser = Parser::new(lexer);

    let result = parser.parse_command_list().unwrap();
    assert_eq!(result.commands.len(), 1);

    if let Command::Simple(cmd) = &result.commands[0] {
        assert_eq!(cmd.words, vec!["ls", "-la"]);
    } else {
        panic!("Expected SimpleCommand");
    }
}

#[test]
fn separators_split_commands() {
    let l = parse("a 1; b\n\n;c").unwrap();
    assert_eq!(l.commands.len(), 3);
    assert_eq!(words(&l.commands[0]), vec!["a", "1"]);
    assert_eq!(words(&l.commands[1]), vec!["b"]);
    assert_eq!(words(&l.commands[2]), vec!["c"]);
    assert!(!l.asynchronous);
}

#[test]
fn empty_input_is_an_empty_list() {
    assert_eq!(parse("").unwrap().commands.len(), 0);
    assert_eq!(parse(" ;\n; ").unwrap().commands.len(), 0);
}

#[test]
fn assignments_only_before_the_command_name() {
    let l = parse("A=1 B=2 cmd C=3").unwrap();
    match &l.commands[0] {
        Command::Simple(s) => {
            assert_eq!(s.assignments, vec!["A=1", "B=2"]);
            assert_eq!(s.words, vec!["cmd", "C=3"]);
        }
        _ => panic!(),
    }
}

#[test]
fn redirections_are_collected() {
    let l = parse("cat <in 2>>log >&- 3<>rw 1>|x").unwrap();
    match &l.commands[0] {
        Command::Simple(s) => {
            assert_eq!(s.words, vec!["cat"]);
            let r: Vec<(Option<u32>, RedirectionType, String)> = s
                .redirections
                .iter()
                .map(|r| (r.fd, r.redirection_type, r.target.clone()))
                .collect();
            assert_eq!(
                r,
                vec![
                    (None, RedirectionType::Input, "in".to_string()),
                    (Some(2), RedirectionType::Append, "log".to_string()),
                    (None, RedirectionType::DupOutput, "-".to_string()),
                    (Some(3), RedirectionType::ReadWrite, "rw".to_string()),
                    (Some(1), RedirectionType::CLobber, "x".to_string()),
                ]
            );
        }
        _ => panic!(),
    }
}

#[test]
fn io_number_too_large_gives_no_fd() {
    let l = parse("cmd 99999999999>x").unwrap();
    match &l.commands[0] {
        Command::Simple(s) => {
            assert_eq!(s.redirections[0].fd, None);
            assert_eq!(s.redirections[0].redirection_type, RedirectionType::Output);
        }
        _ => panic!(),
    }
}

#[test]
fn redirection_without_target_is_an_error() {
    assert_eq!(parse("cat >"), Err("Expected filename after redirection".to_string()));
    assert_eq!(parse("cat > ;"), Err("Expected filename after redirection".to_string()));
}

#[test]
fn redirection_only_command() {
    let l = parse(">file").unwrap();
    match &l.commands[0] {
        Command::Simple(s) => {
            assert!(s.words.is_empty());
            assert_eq!(s.redirections.len(), 1);
        }
        _ => panic!(),
    }
}

#[test]
fn if_elif_else() {
    let l = parse("if a; then b; elif c; then d; elif e\nthen f; else g; fi; h").unwrap();
    assert_eq!(l.commands.len(), 2);
    match &l.commands[0] {
        Command::If(i) => {
            assert_eq!(words(&i.condition.commands[0]), vec!["a"]);
            assert_eq!(words(&i.then_branch.commands[0]), vec!["b"]);
            assert_eq!(i.elif_branches.len(), 2);
            assert_eq!(words(&i.elif_branches[0].0.commands[0]), vec!["c"]);
            assert_eq!(words(&i.elif_branches[0].1.commands[0]), vec!["d"]);
            assert_eq!(words(&i.elif_branches[1].0.commands[0]), vec!["e"]);
            assert_eq!(words(&i.elif_branches[1].1.commands[0]), vec!["f"]);
            let e = i.else_branch.as_ref().unwrap();
            assert_eq!(words(&e.commands[0]), vec!["g"]);
        }
        _ => panic!(),
    }
    assert_eq!(words(&l.commands[1]), vec!["h"]);
}

#[test]
fn nested_if() {
    let l = parse("if if a; then b; fi; then c; fi").unwrap();
    match &l.commands[0] {
        Command::If(i) => match &i.condition.commands[0] {
            Command::If(inner) => assert_eq!(words(&inner.then_branch.commands[0]), vec!["b"]),
            _ => panic!(),
        },
        _ => panic!(),
    }
}

#[test]
fn if_errors() {
    assert_eq!(parse("if a; fi"), Err("Expected 'then'".to_string()));
    assert_eq!(parse("if a; then b"), Err("Expected 'fi', found EOF".to_string()));
    assert_eq!(
        parse("if a; then b; elif c; fi"),
        Err("Expected 'then' after elif condition".to_string())
    );
    assert_eq!(parse("if a; then b; else c; else d; fi"), Err("Expected 'fi', found Else".to_string()));
}

#[test]
fn unexpected_tokens() {
    assert_eq!(parse("a | b"), Err("Unexpected token: Pipe".to_string()));
    assert_eq!(parse("&"), Err("Unexpected token: And".to_string()));
}

#[test]
fn list_stops_at_reserved_words() {
    let mut p = parser("a; fi b");
    let l = p.parse_command_list().unwrap();
    assert_eq!(l.commands.len(), 1);
    assert_eq!(p.parse_next_command(), Err("Unexpected token: Fi".to_string()));
}

#[test]
fn next_command_one_at_a_time() {
    let mut p = parser("a; b\n\nif x; then y; fi\n");
    assert_eq!(words(&p.parse_next_command().unwrap().unwrap()), vec!["a"]);
    assert_eq!(words(&p.parse_next_command().unwrap().unwrap()), vec!["b"]);
    assert!(matches!(p.parse_next_command().unwrap(), Some(Command::If(_))));
    assert_eq!(p.parse_next_command(), Ok(None));
    assert_eq!(p.parse_next_command(), Ok(None));
}

#[test]
fn token_debug_text_matches_debug() {
    for t in [
        Token::Word("a\"b\\c\n".to_string()),
        Token::IoNumber("12".to_string()),
        Token::If,
        Token::EOF,
        Token::CLobber,
        Token::LessGreat,
    ] {
        assert_eq!(t.debug_text(), format!("{:?}", t));
    }
}

#[test]
fn token_debug_text_with_given_quoting() {
    assert_eq!(Token::Word("x".to_string()).debug_text_with("<x>"), "Word(<x>)");
    assert_eq!(Token::IoNumber("2".to_string()).debug_text_with("'2'"), "IoNumber('2')");
    assert_eq!(Token::Fi.debug_text_with("ignored"), "Fi");
}

#[test]
fn errors_name_the_token() {
    assert_eq!(parse("echo a | b").unwrap_err(), "Unexpected token: Pipe");
    assert_eq!(parse("if a; then b").unwrap_err(), "Expected 'fi', found EOF");
    assert_eq!(parse("> ;").unwrap_err(), "Expected filename after redirection");
}

#[test]
fn fed_text_continues_the_input() {
    let mut p = parser("");
    assert!(p.at_end());
    assert!(matches!(p.parse_next_command(), Ok(None)));
    p.feed("echo a\n");
    assert!(!p.at_end());
    let c = p.parse_next_command().unwrap().unwrap();
    assert_eq!(words(&c), vec!["echo", "a"]);
    assert!(matches!(p.parse_next_command(), Ok(None)));
}

#[test]
fn incomplete_if_completes_after_feed() {
    let mut p = parser("if true\n");
    let before = p.clone();
    assert!(p.parse_next_command().is_err());
    assert!(p.at_end());
    let mut p = before;
    p.feed("then echo yes\nfi\n");
    let c = p.parse_next_command().unwrap().unwrap();
    assert!(matches!(c, Command::If(_)));
    assert!(matches!(p.parse_next_command(), Ok(None)));
}

#[test]
fn commands_one_at_a_time_make_the_list() {
    let input = "a 1; if x; then y; elif z; then w; else v; fi\n\nb >out 2>&1; c";
    let list = parse(input).unwrap();
    let mut p = parser(input);
    let mut one_by_one = Vec::new();
    while let Some(c) = p.parse_next_command().unwrap() {
        one_by_one.push(c);
    }
    assert_eq!(list.commands.len(), 4);
    assert_eq!(list.commands, one_by_one);
}
