use sh42::lexer::{CharStream, Lexer, Token};

fn tokens(input: &str) -> Vec<Token> {
    let mut lexer = Lexer::new(CharStream::new(input));
    let mut out = Vec::new();
    loop {
        let t = lexer.next_token();
        let end = t == Token::EOF;
        out.push(t);
        if end {
            break;
        }
    }
    out
}

fn word(s: &str) -> Token {
    Token::Word(s.to_string())
}

#[test]
fn test_simple_tokens() {
    let input = "ls -l; echo hello";
    let mut lexer = Lexer::new(CharStream::new(input));
    assert_eq!(lexer.next_token(), Token::Word("ls".to_string()));
    assert_eq!(lexer.next_token(), Token::Word("-l".to_string()));
    assert_eq!(lexer.next_token(), Token::Semi);
    assert_eq!(lexer.next_token(), Token::Word("echo".to_string()));
    assert_eq!(lexer.next_token(), Token::Word("hello".to_string()));
    assert_eq!(lexer.next_token(), Token::EOF);
}

#[test]
fn eof_repeats() {
    let mut lexer = Lexer::new(CharStream::new("  "));
    assert_eq!(lexer.next_token(), Token::EOF);
    assert_eq!(lexer.next_token(), Token::EOF);
    assert_eq!(lexer.next_token(), Token::EOF);
}

#[test]
fn operators() {
    assert_eq!(
        tokens("< > >> << <> <& >& >| | & ;\n"),
        vec![
            Token::Less,
            Token::Great,
            Token::DGreat,
            Token::DLess,
            Token::LessGreat,
            Token::LessAnd,
            Token::GreatAnd,
            Token::CLobber,
            Token::Pipe,
            Token::And,
            Token::Semi,
            Token::NewLine,
            Token::EOF
        ]
    );
}

#[test]
fn operators_without_spaces() {
    assert_eq!(
        tokens("a>b<c"),
        vec![word("a"), Token::Great, word("b"), Token::Less, word("c"), Token::EOF]
    );
}

#[test]
fn keywords() {
    assert_eq!(
        tokens("if then else elif fi"),
        vec![Token::If, Token::Then, Token::Else, Token::Elif, Token::Fi, Token::EOF]
    );
}

#[test]
fn keywords_only_as_whole_words() {
    assert_eq!(tokens("iff fi2 xif"), vec![word("iff"), word("fi2"), word("xif"), Token::EOF]);
}

#[test]
fn io_numbers() {
    assert_eq!(
        tokens("2>err 10<in 3 >x 2x>y"),
        vec![
            Token::IoNumber("2".to_string()),
            Token::Great,
            word("err"),
            Token::IoNumber("10".to_string()),
            Token::Less,
            word("in"),
            word("3"),
            Token::Great,
            word("x"),
            word("2x"),
            Token::Great,
            word("y"),
            Token::EOF
        ]
    );
}

#[test]
fn digits_at_end_are_a_word() {
    assert_eq!(tokens("echo 2"), vec![word("echo"), word("2"), Token::EOF]);
}

#[test]
fn comments_run_to_end_of_line() {
    assert_eq!(
        tokens("echo a # comment ; fi\necho b"),
        vec![word("echo"), word("a"), Token::NewLine, word("echo"), word("b"), Token::EOF]
    );
    assert_eq!(tokens("# only a comment"), vec![Token::EOF]);
}

#[test]
fn hash_inside_a_word_is_not_a_comment() {
    assert_eq!(tokens("a#b"), vec![word("a#b"), Token::EOF]);
}

#[test]
fn operator_characters_end_words_but_can_start_them() {
    assert_eq!(tokens("(a)b"), vec![word("(a"), word(")b"), Token::EOF]);
}

#[test]
fn blanks_are_unicode_whitespace_but_not_newline() {
    assert_eq!(
        tokens("a\t\u{a0}b\u{3000}c\r\nd"),
        vec![word("a"), word("b"), word("c"), Token::NewLine, word("d"), Token::EOF]
    );
}

#[test]
fn non_ascii_words() {
    assert_eq!(tokens("héllo wörld"), vec![word("héllo"), word("wörld"), Token::EOF]);
}

#[test]
fn leading_blank_changes_nothing() {
    assert_eq!(tokens(" \t echo x"), tokens("echo x"));
}

#[test]
fn fed_text_is_read_after_the_rest() {
    let mut lexer = Lexer::new(CharStream::new("ec"));
    lexer.feed("ho hi\n");
    assert_eq!(lexer.next_token(), word("echo"));
    assert_eq!(lexer.next_token(), word("hi"));
    assert_eq!(lexer.next_token(), Token::NewLine);
    assert_eq!(lexer.next_token(), Token::EOF);
    lexer.feed("ls");
    assert_eq!(lexer.next_token(), word("ls"));
    assert_eq!(lexer.next_token(), Token::EOF);
}

fn render(t: &Token) -> String {
    match t {
        Token::Word(w) | Token::IoNumber(w) => w.clone(),
        Token::If => "if".into(),
        Token::Then => "then".into(),
        Token::Else => "else".into(),
        Token::Elif => "elif".into(),
        Token::Fi => "fi".into(),
        Token::Semi => ";".into(),
        Token::NewLine => "\n".into(),
        Token::Less => "<".into(),
        Token::Great => ">".into(),
        Token::DGreat => ">>".into(),
        Token::LessAnd => "<&".into(),
        Token::GreatAnd => ">&".into(),
        Token::LessGreat => "<>".into(),
        Token::DLess => "<<".into(),
        Token::CLobber => ">|".into(),
        Token::Pipe => "|".into(),
        Token::And => "&".into(),
        Token::EOF => String::new(),
    }
}

#[test]
fn tokens_render_the_input_without_blanks() {
    let input = "if x;then  ls -l\t2>&1 >>out <in|b & c<>d >|e <<f\n fi  ";
    let rendered: String = tokens(input).iter().map(render).collect();
    let expected: String = input
        .chars()
        .filter(|c| !(c.is_whitespace() && *c != '\n'))
        .collect();
    assert_eq!(rendered, expected);
}

#[test]
fn blank_runs_do_not_change_tokens() {
    assert_eq!(tokens("a  b\t\tc"), tokens("a b c"));
    assert_eq!(tokens("  \t2>x"), tokens("2>x"));
    assert_eq!(tokens("2 \t"), tokens("2"));
    assert_eq!(tokens("x # note  "), tokens("x # note"));
}

#[test]
fn end_of_input_exactly_after_blanks_or_a_last_comment() {
    assert_eq!(tokens(" \t"), vec![Token::EOF]);
    assert_eq!(tokens("  # no newline"), vec![Token::EOF]);
    assert_eq!(tokens(" # c\nx"), vec![Token::NewLine, word("x"), Token::EOF]);
}

#[test]
fn a_new_lexer_reads_nothing_yet() {
    let mut lexer = Lexer::new(CharStream::new(""));
    lexer.feed("x");
    assert_eq!(lexer.next_token(), word("x"));
}
