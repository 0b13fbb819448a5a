//! A recursive-descent parser from tokens to command trees.
use vstd::prelude::*;
use crate::ast::{
    Command, CommandList, CommandListV, CommandV, IfCommand, IfCommandV, Redirection,
    RedirectionType, RedirectionV, SimpleCommand, SimpleCommandV, command_view, commands_view,
    elifs_view, list_view, strings_view,
};
use crate::lexer::{CharSource, CharStream, Lexer, Token, TokenV, lex, lemma_lex_progress, render};
use crate::redirect::default_fd;
use crate::text::{debug_quote, debug_quoted, parse_u32, parse_u32_spec, str_contains_char};

verus! {

/// Where the parser stands: the current token and the characters not yet lexed.
pub struct PState {
    pub tok: TokenV,
    pub rest: Seq<char>,
}

/// The state after moving to the next token.
pub open spec fn adv(st: PState) -> PState {
    PState { tok: lex(st.rest).0, rest: st.rest.skip(lex(st.rest).1) }
}

/// The state after moving `n` tokens forward.
pub open spec fn adv_n(st: PState, n: nat) -> PState
    decreases n,
{
    if n == 0 {
        st
    } else {
        adv(adv_n(st, (n - 1) as nat))
    }
}

/// The state of a parser that has read the first token of `s`.
pub open spec fn start_state(s: Seq<char>) -> PState {
    adv(PState { tok: TokenV::EOF, rest: s })
}

/// How much input is left: it shrinks with every token read before the end.
pub open spec fn measure(st: PState) -> nat {
    st.rest.len() + if st.tok == TokenV::EOF {
        0nat
    } else {
        1nat
    }
}

/// The result of a parse step: a value and the number of tokens it took, or an
/// error message and the number of tokens read before the error.
pub type Parsed<T> = Result<(T, nat), (Seq<char>, nat)>;

/// Adds `k` to the count of tokens taken.
pub open spec fn shift<T>(k: nat, r: Parsed<T>) -> Parsed<T> {
    match r {
        Ok((v, n)) => Ok((v, k + n)),
        Err((e, n)) => Err((e, k + n)),
    }
}

/// The text a word or an I/O number holds; empty for the other tokens.
pub open spec fn token_text(t: TokenV) -> Seq<char> {
    match t {
        TokenV::Word(w) => w,
        TokenV::IoNumber(n) => n,
        _ => Seq::empty(),
    }
}

/// The text `{:?}` gives for a token.
pub open spec fn token_debug(t: TokenV) -> Seq<char> {
    token_debug_with(t, debug_quoted(token_text(t)))
}

/// The text `{:?}` gives for a token whose text, quoted and escaped, is `quoted`.
pub open spec fn token_debug_with(t: TokenV, quoted: Seq<char>) -> Seq<char> {
    match t {
        TokenV::Word(_) => "Word("@ + quoted + ")"@,
        TokenV::If => "If"@,
        TokenV::Then => "Then"@,
        TokenV::Else => "Else"@,
        TokenV::Elif => "Elif"@,
        TokenV::Fi => "Fi"@,
        TokenV::Semi => "Semi"@,
        TokenV::NewLine => "NewLine"@,
        TokenV::Less => "Less"@,
        TokenV::Great => "Great"@,
        TokenV::DGreat => "DGreat"@,
        TokenV::LessAnd => "LessAnd"@,
        TokenV::GreatAnd => "GreatAnd"@,
        TokenV::LessGreat => "LessGreat"@,
        TokenV::DLess => "DLess"@,
        TokenV::CLobber => "CLobber"@,
        TokenV::Pipe => "Pipe"@,
        TokenV::And => "And"@,
        TokenV::IoNumber(_) => "IoNumber("@ + quoted + ")"@,
        TokenV::EOF => "EOF"@,
    }
}

/// The redirection a token stands for, if it is a redirection operator.
pub open spec fn redirection_kind(t: TokenV) -> Option<RedirectionType> {
    match t {
        TokenV::Less => Some(RedirectionType::Input),
        TokenV::Great => Some(RedirectionType::Output),
        TokenV::DGreat => Some(RedirectionType::Append),
        TokenV::DLess => Some(RedirectionType::HereDoc),
        TokenV::LessGreat => Some(RedirectionType::ReadWrite),
        TokenV::LessAnd => Some(RedirectionType::DupInput),
        TokenV::GreatAnd => Some(RedirectionType::DupOutput),
        TokenV::CLobber => Some(RedirectionType::CLobber),
        _ => None,
    }
}

/// `;` and newline separate commands.
pub open spec fn is_delimiter(t: TokenV) -> bool {
    t == TokenV::Semi || t == TokenV::NewLine
}

/// The tokens at which a command list stops.
pub open spec fn ends_list(t: TokenV) -> bool {
    t == TokenV::EOF || t == TokenV::Fi || t == TokenV::Then || t == TokenV::Else || t
        == TokenV::Elif
}

/// The tokens that can start a simple command.
pub open spec fn starts_simple(t: TokenV) -> bool {
    t is Word || t is IoNumber || redirection_kind(t) is Some
}

/// `;` and newline, and only they, separate commands; a list ends at the end of input
/// and at `then`, `else`, `elif` and `fi`, and nowhere else; a simple command starts
/// with a word, a descriptor number or a redirection operator.
pub proof fn lemma_token_classes(t: TokenV)
    ensures
        is_delimiter(t) <==> (t == TokenV::Semi || t == TokenV::NewLine),
        ends_list(t) <==> (t == TokenV::EOF || t == TokenV::Then || t == TokenV::Else || t
            == TokenV::Elif || t == TokenV::Fi),
        starts_simple(t) <==> (t is Word || t is IoNumber || t == TokenV::Less || t
            == TokenV::Great || t == TokenV::DGreat || t == TokenV::DLess || t == TokenV::LessGreat
            || t == TokenV::LessAnd || t == TokenV::GreatAnd || t == TokenV::CLobber),
{
}

pub proof fn lemma_adv_measure(st: PState)
    ensures
        measure(adv(st)) <= measure(st),
        st.tok != TokenV::EOF ==> measure(adv(st)) < measure(st),
{
    lemma_lex_progress(st.rest);
}

pub proof fn lemma_adv_n_measure(st: PState, n: nat)
    ensures
        measure(adv_n(st, n)) <= measure(st),
        n > 0 && st.tok != TokenV::EOF ==> measure(adv_n(st, n)) < measure(st),
    decreases n,
{
    if n > 0 {
        lemma_adv_n_measure(st, (n - 1) as nat);
        lemma_adv_measure(adv_n(st, (n - 1) as nat));
        if n == 1 {
            lemma_adv_measure(st);
        }
    }
}

pub proof fn lemma_adv_n_add(st: PState, a: nat, b: nat)
    ensures
        adv_n(adv_n(st, a), b) == adv_n(st, a + b),
    decreases b,
{
    if b > 0 {
        lemma_adv_n_add(st, a, (b - 1) as nat);
    }
}

/// The number of `;` and newline tokens at the front.
pub open spec fn skip_delimiters(st: PState) -> nat
    decreases measure(st),
{
    if is_delimiter(st.tok) {
        proof {
            lemma_adv_measure(st);
        }
        1 + skip_delimiters(adv(st))
    } else {
        0
    }
}

pub proof fn lemma_skip_delimiters(st: PState)
    ensures
        !is_delimiter(adv_n(st, skip_delimiters(st)).tok),
        measure(adv_n(st, skip_delimiters(st))) <= measure(st),
    decreases measure(st),
{
    if is_delimiter(st.tok) {
        lemma_adv_measure(st);
        lemma_skip_delimiters(adv(st));
        lemma_adv_n_add(st, 1, skip_delimiters(adv(st)));
        assert(adv_n(st, 0) == st);
        assert(adv_n(st, 1) == adv(st));
    }
}

/// A redirection: the operator at `st`, then its target word.
pub open spec fn parse_redirection_spec(st: PState, fd: Option<u32>) -> Parsed<RedirectionV> {
    match redirection_kind(st.tok) {
        None => Err(("Expected redirection operator, found "@ + token_debug(st.tok), 0)),
        Some(kind) => match adv(st).tok {
            TokenV::Word(w) => Ok((RedirectionV { fd, redirection_type: kind, target: w }, 2)),
            _ => Err(("Expected filename after redirection"@, 1)),
        },
    }
}

pub open spec fn empty_simple() -> SimpleCommandV {
    SimpleCommandV { assignments: Seq::empty(), words: Seq::empty(), redirections: Seq::empty() }
}

/// Adds a word to a simple command: a `var=value` word before the command name is an
/// assignment, any other word is a command word.
pub open spec fn add_word(acc: SimpleCommandV, w: Seq<char>) -> SimpleCommandV {
    if w.contains('=') && acc.words.len() == 0 {
        SimpleCommandV { assignments: acc.assignments.push(w), ..acc }
    } else {
        SimpleCommandV { words: acc.words.push(w), ..acc }
    }
}

/// A word goes to the assignments when it holds `=` and no command word has come yet,
/// else to the command words; the other parts of the command do not change.
pub proof fn lemma_add_word(acc: SimpleCommandV, w: Seq<char>)
    ensures
        w.contains('=') && acc.words.len() == 0 ==> add_word(acc, w).assignments
            == acc.assignments.push(w) && add_word(acc, w).words == acc.words,
        !(w.contains('=') && acc.words.len() == 0) ==> add_word(acc, w).words == acc.words.push(w)
            && add_word(acc, w).assignments == acc.assignments,
        add_word(acc, w).redirections == acc.redirections,
        acc.words.len() > 0 ==> add_word(acc, w).words.len() > 0,
{
}

pub open spec fn add_redirection(acc: SimpleCommandV, r: RedirectionV) -> SimpleCommandV {
    SimpleCommandV { redirections: acc.redirections.push(r), ..acc }
}

/// The words and redirections of a simple command, added to `acc`, up to the first
/// token that is neither.
pub open spec fn parse_simple_spec(st: PState, acc: SimpleCommandV) -> Parsed<SimpleCommandV>
    decreases measure(st),
{
    match st.tok {
        TokenV::Word(w) => {
            proof {
                lemma_adv_measure(st);
            }
            shift(1, parse_simple_spec(adv(st), add_word(acc, w)))
        },
        TokenV::IoNumber(n) => {
            let st1 = adv(st);
            match parse_redirection_spec(st1, parse_u32_spec(n)) {
                Err((e, k)) => Err((e, 1 + k)),
                Ok((r, k)) => {
                    proof {
                        lemma_adv_measure(st);
                        lemma_adv_n_measure(st1, k);
                    }
                    shift(1 + k, parse_simple_spec(adv_n(st1, k), add_redirection(acc, r)))
                },
            }
        },
        _ => if redirection_kind(st.tok) is Some {
            match parse_redirection_spec(st, None) {
                Err((e, k)) => Err((e, k)),
                Ok((r, k)) => {
                    proof {
                        lemma_adv_n_measure(st, k);
                    }
                    shift(k, parse_simple_spec(adv_n(st, k), add_redirection(acc, r)))
                },
            }
        } else {
            Ok((acc, 0))
        },
    }
}

/// The commands of a list, added to `acc`: separators are skipped, and the list ends
/// at the end of input or at `then`, `else`, `elif` or `fi`.
pub open spec fn parse_list_spec(st: PState, acc: Seq<CommandV>) -> Parsed<Seq<CommandV>>
    decreases measure(st), 3nat,
{
    let d = skip_delimiters(st);
    let st1 = adv_n(st, d);
    proof {
        lemma_skip_delimiters(st);
    }
    if ends_list(st1.tok) {
        Ok((acc, d))
    } else {
        match parse_command_spec(st1) {
            Err((e, k)) => Err((e, d + k)),
            Ok((c, k)) => if k == 0 {
                // never taken: a command takes at least one token
                Err((Seq::empty(), d))
            } else {
                proof {
                    lemma_adv_n_measure(st1, k);
                }
                shift(d + k, parse_list_spec(adv_n(st1, k), acc.push(c)))
            },
        }
    }
}

/// A command list, as a value.
pub open spec fn parse_command_list_spec(st: PState) -> Parsed<CommandListV>
    decreases measure(st), 4nat,
{
    match parse_list_spec(st, Seq::empty()) {
        Ok((cs, k)) => Ok((CommandListV { commands: cs, asynchronous: false }, k)),
        Err(e) => Err(e),
    }
}

/// One command: an `if` command or a simple command.
pub open spec fn parse_command_spec(st: PState) -> Parsed<CommandV>
    decreases measure(st), 2nat,
{
    if st.tok == TokenV::If {
        proof {
            lemma_adv_measure(st);
        }
        match parse_if_spec(adv(st)) {
            Ok((i, k)) => Ok((CommandV::If(i), 1 + k)),
            Err((e, k)) => Err((e, 1 + k)),
        }
    } else if starts_simple(st.tok) {
        match parse_simple_spec(st, empty_simple()) {
            Ok((s, k)) => Ok((CommandV::Simple(s), k)),
            Err(e) => Err(e),
        }
    } else {
        Err(("Unexpected token: "@ + token_debug(st.tok), 0))
    }
}

/// One `elif` branch, after the `elif` token: a condition, `then`, and a body.
pub open spec fn elif_branch_spec(st: PState) -> Parsed<(CommandListV, CommandListV)>
    decreases measure(st), 5nat,
{
    match parse_command_list_spec(st) {
        Err(e) => Err(e),
        Ok((c, k1)) => {
            proof {
                lemma_adv_n_measure(st, k1);
            }
            shift(k1, elif_after_condition_spec(adv_n(st, k1), c))
        },
    }
}

/// An `elif` branch after its condition `c`: `then` and the body.
pub open spec fn elif_after_condition_spec(st: PState, c: CommandListV) -> Parsed<
    (CommandListV, CommandListV),
>
    decreases measure(st), 4nat,
{
    if st.tok != TokenV::Then {
        Err(("Expected 'then' after elif condition"@, 0))
    } else {
        proof {
            lemma_adv_measure(st);
        }
        match parse_command_list_spec(adv(st)) {
            Err((e, k)) => Err((e, 1 + k)),
            Ok((b, k)) => Ok(((c, b), 1 + k)),
        }
    }
}

/// The `elif` branches, added to `acc`.
pub open spec fn parse_elifs_spec(st: PState, acc: Seq<(CommandListV, CommandListV)>) -> Parsed<
    Seq<(CommandListV, CommandListV)>,
>
    decreases measure(st), 5nat,
{
    if st.tok != TokenV::Elif {
        Ok((acc, 0))
    } else {
        let st1 = adv(st);
        proof {
            lemma_adv_measure(st);
        }
        match elif_branch_spec(st1) {
            Err((e, k)) => Err((e, 1 + k)),
            Ok((b, k)) => {
                proof {
                    lemma_adv_n_measure(st1, k);
                }
                shift(1 + k, parse_elifs_spec(adv_n(st1, k), acc.push(b)))
            },
        }
    }
}

/// The rest of an `if` command, after the `if` token.
pub open spec fn parse_if_spec(st: PState) -> Parsed<IfCommandV>
    decreases measure(st), 8nat,
{
    match parse_command_list_spec(st) {
        Err(e) => Err(e),
        Ok((cond, k1)) => {
            proof {
                lemma_adv_n_measure(st, k1);
            }
            shift(k1, if_after_condition_spec(adv_n(st, k1), cond))
        },
    }
}

/// An `if` command after its condition: `then` and the body.
pub open spec fn if_after_condition_spec(st: PState, cond: CommandListV) -> Parsed<IfCommandV>
    decreases measure(st), 7nat,
{
    if st.tok != TokenV::Then {
        Err(("Expected 'then'"@, 0))
    } else {
        let st1 = adv(st);
        proof {
            lemma_adv_measure(st);
        }
        match parse_command_list_spec(st1) {
            Err((e, k)) => Err((e, 1 + k)),
            Ok((then_branch, k)) => {
                proof {
                    lemma_adv_n_measure(st1, k);
                }
                shift(1 + k, if_after_then_spec(adv_n(st1, k), cond, then_branch))
            },
        }
    }
}

/// An `if` command after its first body: the `elif` branches.
pub open spec fn if_after_then_spec(
    st: PState,
    cond: CommandListV,
    then_branch: CommandListV,
) -> Parsed<IfCommandV>
    decreases measure(st), 6nat,
{
    match parse_elifs_spec(st, Seq::empty()) {
        Err(e) => Err(e),
        Ok((elifs, k)) => {
            proof {
                lemma_adv_n_measure(st, k);
            }
            shift(k, if_after_elifs_spec(adv_n(st, k), cond, then_branch, elifs))
        },
    }
}

/// An `if` command after its `elif` branches: an optional `else` body, then `fi`.
pub open spec fn if_after_elifs_spec(
    st: PState,
    cond: CommandListV,
    then_branch: CommandListV,
    elifs: Seq<(CommandListV, CommandListV)>,
) -> Parsed<IfCommandV>
    decreases measure(st), 5nat,
{
    match else_part_spec(st) {
        Err(e) => Err(e),
        Ok((else_branch, k)) => {
            let st1 = adv_n(st, k);
            if st1.tok != TokenV::Fi {
                Err(("Expected 'fi', found "@ + token_debug(st1.tok), k))
            } else {
                Ok(
                    (
                        IfCommandV { condition: cond, then_branch, elif_branches: elifs, else_branch },
                        k + 1,
                    ),
                )
            }
        },
    }
}

/// The `else` body of an `if` command, if the current token is `else`.
pub open spec fn else_part_spec(st: PState) -> Parsed<Option<CommandListV>>
    decreases measure(st), 4nat,
{
    if st.tok == TokenV::Else {
        proof {
            lemma_adv_measure(st);
        }
        match parse_command_list_spec(adv(st)) {
            Err((e, k)) => Err((e, 1 + k)),
            Ok((l, k)) => Ok((Some(l), 1 + k)),
        }
    } else {
        Ok((None, 0))
    }
}

/// The next command, after any separators; `None` at the end of input.
pub open spec fn parse_next_command_spec(st: PState) -> Parsed<Option<CommandV>> {
    let d = skip_delimiters(st);
    let st1 = adv_n(st, d);
    if st1.tok == TokenV::EOF {
        Ok((None, d))
    } else {
        match parse_command_spec(st1) {
            Ok((c, k)) => Ok((Some(c), d + k)),
            Err((e, k)) => Err((e, d + k)),
        }
    }
}

/// Whether the exec result `r` and the parser's move from `before` to `after` are
/// what the spec result `p` says.
pub open spec fn parsed_list(
    r: Result<CommandList, String>,
    p: Parsed<CommandListV>,
    before: PState,
    after: PState,
) -> bool {
    match p {
        Ok((v, k)) => r matches Ok(x) && list_view(x) == v && after == adv_n(before, k),
        Err((e, k)) => r matches Err(m) && m@ == e && after == adv_n(before, k),
    }
}

pub open spec fn parsed_command(
    r: Result<Command, String>,
    p: Parsed<CommandV>,
    before: PState,
    after: PState,
) -> bool {
    match p {
        Ok((v, k)) => r matches Ok(x) && command_view(x) == v && after == adv_n(before, k),
        Err((e, k)) => r matches Err(m) && m@ == e && after == adv_n(before, k),
    }
}

pub open spec fn parsed_next(
    r: Result<Option<Command>, String>,
    p: Parsed<Option<CommandV>>,
    before: PState,
    after: PState,
) -> bool {
    match p {
        Ok((v, k)) => r matches Ok(x) && view_next(x) == v && after == adv_n(before, k),
        Err((e, k)) => r matches Err(m) && m@ == e && after == adv_n(before, k),
    }
}

pub open spec fn parsed_simple(
    r: Result<SimpleCommand, String>,
    p: Parsed<SimpleCommandV>,
    before: PState,
    after: PState,
) -> bool {
    match p {
        Ok((v, k)) => r matches Ok(x) && x@ == v && after == adv_n(before, k),
        Err((e, k)) => r matches Err(m) && m@ == e && after == adv_n(before, k),
    }
}

pub open spec fn parsed_if(
    r: Result<IfCommand, String>,
    p: Parsed<IfCommandV>,
    before: PState,
    after: PState,
) -> bool {
    match p {
        Ok((v, k)) => r matches Ok(x) && x@ == v && after == adv_n(before, k),
        Err((e, k)) => r matches Err(m) && m@ == e && after == adv_n(before, k),
    }
}

pub open spec fn parsed_branch(
    r: Result<(CommandList, CommandList), String>,
    p: Parsed<(CommandListV, CommandListV)>,
    before: PState,
    after: PState,
) -> bool {
    match p {
        Ok((v, k)) => r matches Ok(x) && (list_view(x.0), list_view(x.1)) == v && after == adv_n(
            before,
            k,
        ),
        Err((e, k)) => r matches Err(m) && m@ == e && after == adv_n(before, k),
    }
}

pub open spec fn view_next(c: Option<Command>) -> Option<CommandV> {
    match c {
        Some(c) => Some(command_view(c)),
        None => None,
    }
}

/// The simple command made of these parts, as a value.
pub open spec fn simple_parts_view(
    assignments: Seq<String>,
    words: Seq<String>,
    redirections: Seq<Redirection>,
) -> SimpleCommandV {
    SimpleCommandV {
        assignments: strings_view(assignments),
        words: strings_view(words),
        redirections: redirections.map_values(|r: Redirection| r@),
    }
}

/// A command never succeeds without taking a token.
pub proof fn lemma_command_takes_a_token(st: PState)
    ensures
        parse_command_spec(st) matches Ok((_, k)) ==> k >= 1,
{
    if st.tok != TokenV::If && starts_simple(st.tok) {
        let p = parse_simple_spec(st, empty_simple());
        assert(p matches Ok((_, k)) ==> k >= 1);
    }
}

/// A command list that parses stops at the end of input or at `then`, `else`, `elif`
/// or `fi`: whatever follows it is one of these.
pub proof fn lemma_list_stops_at_terminator(st: PState, acc: Seq<CommandV>)
    ensures
        parse_list_spec(st, acc) matches Ok((_, k)) ==> ends_list(adv_n(st, k).tok),
    decreases measure(st),
{
    let d = skip_delimiters(st);
    let st1 = adv_n(st, d);
    lemma_skip_delimiters(st);
    if !ends_list(st1.tok) {
        if let Ok((c, k)) = parse_command_spec(st1) {
            if k > 0 {
                let st2 = adv_n(st1, k);
                lemma_adv_n_measure(st1, k);
                lemma_list_stops_at_terminator(st2, acc.push(c));
                if let Ok((_, k2)) = parse_list_spec(st2, acc.push(c)) {
                    lemma_adv_n_add(st1, k, k2);
                    lemma_adv_n_add(st, d, k + k2);
                }
            }
        }
    }
}

/// The same, for the command list as a value.
pub proof fn lemma_command_list_stops_at_terminator(st: PState)
    ensures
        parse_command_list_spec(st) matches Ok((_, k)) ==> ends_list(adv_n(st, k).tok),
{
    lemma_list_stops_at_terminator(st, Seq::empty());
}

/// A redirection read at `st`, with its target word `w` and descriptor `fd`.
pub open spec fn redirection_read(fd: Option<u32>, kind: RedirectionType, w: Seq<char>) -> Parsed<
    RedirectionV,
> {
    Ok((RedirectionV { fd, redirection_type: kind, target: w }, 2))
}

/// Each redirection operator, followed by a word, reads as its own kind of redirection
/// with that word as target: `<` Input, `>` Output, `>>` Append, `<<` HereDoc, `<>`
/// ReadWrite, `<&` DupInput, `>&` DupOutput, `>|` CLobber. An operator that starts with
/// `<` changes standard input unless a descriptor is written, one that starts with `>`
/// standard output.
pub proof fn lemma_redirection_operators(st: PState, fd: Option<u32>, w: Seq<char>)
    requires
        adv(st).tok == TokenV::Word(w),
    ensures
        st.tok == TokenV::Less ==> parse_redirection_spec(st, fd) == redirection_read(
            fd,
            RedirectionType::Input,
            w,
        ),
        st.tok == TokenV::Great ==> parse_redirection_spec(st, fd) == redirection_read(
            fd,
            RedirectionType::Output,
            w,
        ),
        st.tok == TokenV::DGreat ==> parse_redirection_spec(st, fd) == redirection_read(
            fd,
            RedirectionType::Append,
            w,
        ),
        st.tok == TokenV::DLess ==> parse_redirection_spec(st, fd) == redirection_read(
            fd,
            RedirectionType::HereDoc,
            w,
        ),
        st.tok == TokenV::LessGreat ==> parse_redirection_spec(st, fd) == redirection_read(
            fd,
            RedirectionType::ReadWrite,
            w,
        ),
        st.tok == TokenV::LessAnd ==> parse_redirection_spec(st, fd) == redirection_read(
            fd,
            RedirectionType::DupInput,
            w,
        ),
        st.tok == TokenV::GreatAnd ==> parse_redirection_spec(st, fd) == redirection_read(
            fd,
            RedirectionType::DupOutput,
            w,
        ),
        st.tok == TokenV::CLobber ==> parse_redirection_spec(st, fd) == redirection_read(
            fd,
            RedirectionType::CLobber,
            w,
        ),
        redirection_kind(st.tok) is Some ==> (default_fd(redirection_kind(st.tok)->Some_0) == 0
            <==> render(st.tok)[0] == '<'),
{
}

/// The token after the separators at the front.
pub open spec fn after_separators(st: PState) -> TokenV {
    adv_n(st, skip_delimiters(st)).tok
}

/// A command list is read as its commands, one at a time: where the next command
/// reads as `c`, the list is `c` followed by the list after it; at the end of input
/// the list is over; and where the next command fails, so does the list, unless the
/// list ends there (at `then`, `else`, `elif` or `fi`).
pub proof fn lemma_list_is_next_commands(st: PState, acc: Seq<CommandV>)
    ensures
        parse_next_command_spec(st) matches Ok((None, k)) ==> parse_list_spec(st, acc) == Ok::<
            (Seq<CommandV>, nat),
            (Seq<char>, nat),
        >((acc, k)),
        parse_next_command_spec(st) matches Ok((Some(c), k)) ==> parse_list_spec(st, acc)
            == shift(k, parse_list_spec(adv_n(st, k), acc.push(c))),
        parse_next_command_spec(st) matches Err((e, k)) ==> parse_list_spec(st, acc) == if ends_list(
            after_separators(st),
        ) {
            Ok::<(Seq<CommandV>, nat), (Seq<char>, nat)>((acc, k))
        } else {
            Err::<(Seq<CommandV>, nat), (Seq<char>, nat)>((e, k))
        },
{
    let d = skip_delimiters(st);
    let st1 = adv_n(st, d);
    lemma_skip_delimiters(st);
    if !ends_list(st1.tok) {
        lemma_command_takes_a_token(st1);
        if let Ok((c, k)) = parse_command_spec(st1) {
            lemma_adv_n_add(st, d, k);
        }
    }
}

/// The commands read by calling `parse_next_command` again and again from `st`, until
/// it gives `None`, with the tokens taken in all; or the first error, with the tokens
/// taken up to it.
pub open spec fn next_commands(st: PState) -> Parsed<Seq<CommandV>>
    decreases measure(st),
{
    match parse_next_command_spec(st) {
        Ok((None, k)) => Ok((Seq::empty(), k)),
        Err(e) => Err(e),
        Ok((Some(c), k)) => {
            proof {
                lemma_next_command_progress(st);
            }
            match next_commands(adv_n(st, k)) {
                Ok((cs, k2)) => Ok((seq![c] + cs, k + k2)),
                Err((e, k2)) => Err((e, k + k2)),
            }
        },
    }
}

/// Reading a command takes tokens, so less input is left.
pub proof fn lemma_next_command_progress(st: PState)
    ensures
        parse_next_command_spec(st) matches Ok((Some(_), k)) ==> measure(adv_n(st, k)) < measure(
            st,
        ),
{
    let d = skip_delimiters(st);
    let st1 = adv_n(st, d);
    lemma_skip_delimiters(st);
    lemma_command_takes_a_token(st1);
    if st.tok == TokenV::EOF {
        assert(d == 0);
        assert(adv_n(st, 0) == st);
    }
    if let Ok((Some(_), k)) = parse_next_command_spec(st) {
        lemma_adv_n_measure(st, k);
    }
}

proof fn lemma_list_next_commands(st: PState, acc: Seq<CommandV>, cs: Seq<CommandV>, k: nat)
    requires
        parse_list_spec(st, acc) == Ok::<(Seq<CommandV>, nat), (Seq<char>, nat)>((cs, k)),
        adv_n(st, k).tok == TokenV::EOF,
    ensures
        next_commands(st) is Ok,
        next_commands(st)->Ok_0.1 == k,
        cs == acc + next_commands(st)->Ok_0.0,
    decreases measure(st),
{
    lemma_list_is_next_commands(st, acc);
    lemma_next_command_progress(st);
    lemma_skip_delimiters(st);
    match parse_next_command_spec(st) {
        Ok((None, k0)) => {
            assert(acc + Seq::<CommandV>::empty() =~= acc);
        },
        Ok((Some(c), k0)) => {
            let st2 = adv_n(st, k0);
            let k1 = parse_list_spec(st2, acc.push(c))->Ok_0.1;
            lemma_adv_n_add(st, k0, k1);
            lemma_list_next_commands(st2, acc.push(c), cs, k1);
            let ns = next_commands(st2)->Ok_0.0;
            assert(acc.push(c) + ns =~= acc + (seq![c] + ns));
        },
        Err((e, k0)) => {},
    }
}

/// A command list that runs to the end of input is what `parse_next_command` gives,
/// called again and again: its commands, one by one, then `None`, with the same tokens
/// taken in all.
pub proof fn lemma_list_is_all_next_commands(st: PState)
    ensures
        parse_command_list_spec(st) matches Ok((l, k)) ==> adv_n(st, k).tok != TokenV::EOF
            || next_commands(st) == Ok::<(Seq<CommandV>, nat), (Seq<char>, nat)>((l.commands, k)),
{
    if let Ok((cs, k)) = parse_list_spec(st, Seq::empty()) {
        if adv_n(st, k).tok == TokenV::EOF {
            lemma_list_next_commands(st, Seq::empty(), cs, k);
            assert(Seq::<CommandV>::empty() + next_commands(st)->Ok_0.0 =~= next_commands(
                st,
            )->Ok_0.0);
        }
    }
}

/// At the end of input, reading the next command says so and takes no token, however
/// often it is asked.
pub proof fn lemma_next_command_at_end(st: PState)
    ensures
        parse_next_command_spec(st) matches Ok((None, k)) ==> parse_next_command_spec(
            adv_n(st, k),
        ) == Ok::<(Option<CommandV>, nat), (Seq<char>, nat)>((None, 0)),
{
    lemma_skip_delimiters(st);
    let e = adv_n(st, skip_delimiters(st));
    assert(adv_n(e, 0) == e);
}

impl Token {
    /// The text `{:?}` gives for this token.
    pub fn debug_text(&self) -> (r: String)
        ensures
            r@ == token_debug(self@),
    {
        let quoted = match self {
            Token::Word(w) => debug_quote(w.as_str()),
            Token::IoNumber(n) => debug_quote(n.as_str()),
            _ => debug_quote(""),
        };
        self.debug_text_with(quoted.as_str())
    }

    /// The text `{:?}` gives for this token, where `quoted` is its text (of a word or an
    /// I/O number) quoted and escaped.
    pub fn debug_text_with(&self, quoted: &str) -> (r: String)
        ensures
            r@ == token_debug_with(self@, quoted@),
    {
        let name = match self {
            Token::Word(_) => "Word(",
            Token::IoNumber(_) => "IoNumber(",
            Token::If => "If",
            Token::Then => "Then",
            Token::Else => "Else",
            Token::Elif => "Elif",
            Token::Fi => "Fi",
            Token::Semi => "Semi",
            Token::NewLine => "NewLine",
            Token::Less => "Less",
            Token::Great => "Great",
            Token::DGreat => "DGreat",
            Token::LessAnd => "LessAnd",
            Token::GreatAnd => "GreatAnd",
            Token::LessGreat => "LessGreat",
            Token::DLess => "DLess",
            Token::CLobber => "CLobber",
            Token::Pipe => "Pipe",
            Token::And => "And",
            Token::EOF => "EOF",
        };
        let mut r = String::from_str(name);
        match self {
            Token::Word(_) | Token::IoNumber(_) => {
                r.append(quoted);
                r.append(")");
            },
            _ => {},
        }
        r
    }
}

fn redirection_type_of(t: &Token) -> (r: Option<RedirectionType>)
    ensures
        r == redirection_kind(t@),
{
    match t {
        Token::Less => Some(RedirectionType::Input),
        Token::Great => Some(RedirectionType::Output),
        Token::DGreat => Some(RedirectionType::Append),
        Token::DLess => Some(RedirectionType::HereDoc),
        Token::LessGreat => Some(RedirectionType::ReadWrite),
        Token::LessAnd => Some(RedirectionType::DupInput),
        Token::GreatAnd => Some(RedirectionType::DupOutput),
        Token::CLobber => Some(RedirectionType::CLobber),
        _ => None,
    }
}

/// A parser that reads tokens from a lexer, one token ahead.
#[derive(Clone)]
pub struct Parser<S: CharSource> {
    lexer: Lexer<S>,
    current_token: Token,
}

impl<S: CharSource> Parser<S> {
    /// The current token and the input after it.
    pub closed spec fn state(&self) -> PState {
        PState { tok: self.current_token@, rest: self.lexer.pending() }
    }

    /// A parser over `lexer`, which reads its first token.
    pub fn new(lexer: Lexer<S>) -> (r: Self)
        ensures
            r.state() == start_state(lexer.pending()),
    {
        let mut lexer = lexer;
        let current_token = lexer.next_token();
        Parser { lexer, current_token }
    }

    /// Advances to the next token.
    fn next_token(&mut self)
        ensures
            final(self).state() == adv(old(self).state()),
    {
        self.current_token = self.lexer.next_token();
    }

    fn skip_delimiters(&mut self)
        ensures
            final(self).state() == adv_n(old(self).state(), skip_delimiters(old(self).state())),
    {
        let ghost st0 = self.state();
        let ghost mut c: nat = 0;
        while matches!(self.current_token, Token::NewLine | Token::Semi)
            invariant
                self.state() == adv_n(st0, c),
                skip_delimiters(st0) == c + skip_delimiters(self.state()),
            decreases measure(self.state()),
        {
            let ghost st = self.state();
            proof {
                lemma_adv_measure(st);
            }
            self.next_token();
            proof {
                c = c + 1;
            }
        }
    }

    /// Reads a redirection operator and its target word, and adds the redirection.
    fn parse_redirection_body(&mut self, fd: Option<u32>, redirections: &mut Vec<Redirection>) -> (r:
        Result<(), String>)
        ensures
            match parse_redirection_spec(old(self).state(), fd) {
                Ok((v, k)) => r is Ok && final(self).state() == adv_n(old(self).state(), k)
                    && final(redirections)@.len() == old(redirections)@.len() + 1
                    && final(redirections)@.drop_last() == old(redirections)@
                    && final(redirections)@.last()@ == v,
                Err((e, k)) => r matches Err(m) && m@ == e && final(self).state() == adv_n(
                    old(self).state(),
                    k,
                ) && final(redirections)@ == old(redirections)@,
            },
    {
        let ghost st0 = self.state();
        assert(adv_n(st0, 0) == st0);
        match redirection_type_of(&self.current_token) {
            None => {
                let mut m = String::from_str("Expected redirection operator, found ");
                let d = self.current_token.debug_text();
                m.append(d.as_str());
                Err(m)
            },
            Some(op) => {
                self.next_token();
                assert(adv_n(st0, 1) == adv(st0));
                let target: Option<String> = match &self.current_token {
                    Token::Word(w) => Some(w.clone()),
                    _ => None,
                };
                match target {
                    Some(target) => {
                        redirections.push(Redirection { fd, redirection_type: op, target });
                        self.next_token();
                        assert(adv_n(st0, 2) == adv(adv(st0)));
                        assert(redirections@.drop_last() =~= old(redirections)@);
                        Ok(())
                    },
                    None => Err(String::from_str("Expected filename after redirection")),
                }
            },
        }
    }

    /// Reads one word or redirection of a simple command into its parts. `Ok(false)`
    /// when the current token is neither; the ghost count is the tokens read.
    fn parse_simple_part(
        &mut self,
        assignments: &mut Vec<String>,
        words: &mut Vec<String>,
        redirections: &mut Vec<Redirection>,
    ) -> (r: (Result<bool, String>, Ghost<nat>))
        ensures
            ({
                let before = simple_parts_view(
                    old(assignments)@,
                    old(words)@,
                    old(redirections)@,
                );
                let now = simple_parts_view(final(assignments)@, final(words)@, final(redirections)@);
                let k = r.1@;
                &&& final(self).state() == adv_n(old(self).state(), k)
                &&& match r.0 {
                    Ok(true) => k >= 1 && measure(final(self).state()) < measure(old(self).state())
                        && parse_simple_spec(old(self).state(), before) == shift(
                        k,
                        parse_simple_spec(final(self).state(), now),
                    ),
                    Ok(false) => k == 0 && parse_simple_spec(old(self).state(), before) == Parsed::<
                        SimpleCommandV,
                    >::Ok((before, 0)) && now == before,
                    Err(e) => parse_simple_spec(old(self).state(), before) == Parsed::<
                        SimpleCommandV,
                    >::Err((e@, k)),
                }
            }),
    {
        let ghost st = self.state();
        let ghost acc = simple_parts_view(assignments@, words@, redirections@);
        assert(adv_n(st, 0) == st);
        let word: Option<String> = match &self.current_token {
            Token::Word(w) => Some(w.clone()),
            _ => None,
        };
        let io: Option<String> = match &self.current_token {
            Token::IoNumber(n) => Some(n.clone()),
            _ => None,
        };
        if let Some(w) = word {
            if str_contains_char(w.as_str(), '=') && words.len() == 0 {
                assignments.push(w);
            } else {
                words.push(w);
            }
            proof {
                assert(simple_parts_view(assignments@, words@, redirections@) =~= add_word(
                    acc,
                    st.tok->Word_0,
                ));
                lemma_adv_measure(st);
                assert(adv_n(st, 1) == adv(st));
            }
            self.next_token();
            (Ok(true), Ghost(1))
        } else if let Some(n) = io {
            let fd = parse_u32(n.as_str());
            proof {
                assert(adv_n(st, 1) == adv(st));
            }
            self.next_token();
            let ghost st1 = self.state();
            match self.parse_redirection_body(fd, redirections) {
                Ok(()) => {
                    let ghost k = parse_redirection_spec(st1, fd)->Ok_0.1;
                    proof {
                        assert(simple_parts_view(assignments@, words@, redirections@)
                            =~= add_redirection(acc, redirections@.last()@));
                        lemma_adv_measure(st);
                        lemma_adv_n_measure(st1, k);
                        lemma_adv_n_add(st, 1, k);
                    }
                    (Ok(true), Ghost(1 + k))
                },
                Err(e) => {
                    let ghost k = parse_redirection_spec(st1, fd)->Err_0.1;
                    proof {
                        lemma_adv_n_add(st, 1, k);
                    }
                    (Err(e), Ghost(1 + k))
                },
            }
        } else if redirection_type_of(&self.current_token).is_some() {
            match self.parse_redirection_body(None, redirections) {
                Ok(()) => {
                    let ghost k = parse_redirection_spec(st, None)->Ok_0.1;
                    proof {
                        assert(simple_parts_view(assignments@, words@, redirections@)
                            =~= add_redirection(acc, redirections@.last()@));
                        lemma_adv_n_measure(st, k);
                    }
                    (Ok(true), Ghost(k))
                },
                Err(e) => {
                    let ghost k = parse_redirection_spec(st, None)->Err_0.1;
                    (Err(e), Ghost(k))
                },
            }
        } else {
            (Ok(false), Ghost(0))
        }
    }

    fn parse_simple_command(&mut self) -> (r: Result<SimpleCommand, String>)
        ensures
            parsed_simple(
                r,
                parse_simple_spec(old(self).state(), empty_simple()),
                old(self).state(),
                final(self).state(),
            ),
    {
        let mut assignments: Vec<String> = Vec::new();
        let mut words: Vec<String> = Vec::new();
        let mut redirections: Vec<Redirection> = Vec::new();
        let ghost st0 = self.state();
        let ghost mut consumed: nat = 0;
        assert(adv_n(st0, 0) == st0);
        assert(simple_parts_view(assignments@, words@, redirections@) =~= empty_simple());
        loop
            invariant
                st0 == old(self).state(),
                self.state() == adv_n(st0, consumed),
                parse_simple_spec(st0, empty_simple()) == shift(
                    consumed,
                    parse_simple_spec(
                        self.state(),
                        simple_parts_view(assignments@, words@, redirections@),
                    ),
                ),
            decreases measure(self.state()),
        {
            let (r, k) = self.parse_simple_part(&mut assignments, &mut words, &mut redirections);
            proof {
                lemma_adv_n_add(st0, consumed, k@);
            }
            match r {
                Ok(true) => {
                    proof {
                        consumed = consumed + k@;
                    }
                },
                Ok(false) => {
                    let c = SimpleCommand { assignments, words, redirections };
                    return Ok(c);
                },
                Err(e) => {
                    return Err(e);
                },
            }
        }
    }

    fn at_list_end(&self) -> (r: bool)
        ensures
            r == ends_list(self.state().tok),
    {
        matches!(
            self.current_token,
            Token::EOF | Token::Fi | Token::Then | Token::Else | Token::Elif
        )
    }

    /// Reads the separators and, unless the list ends there, one more command of a
    /// list. `Ok(false)` when the list ends; the ghost count is the tokens read.
    fn parse_list_part(&mut self, commands: &mut Vec<Command>) -> (r: (Result<bool, String>, Ghost<nat>))
        ensures
            ({
                let before = commands_view(old(commands)@);
                let now = commands_view(final(commands)@);
                let k = r.1@;
                &&& final(self).state() == adv_n(old(self).state(), k)
                &&& measure(final(self).state()) <= measure(old(self).state())
                &&& match r.0 {
                    Ok(true) => measure(final(self).state()) < measure(old(self).state())
                        && parse_list_spec(old(self).state(), before) == shift(
                        k,
                        parse_list_spec(final(self).state(), now),
                    ),
                    Ok(false) => parse_list_spec(old(self).state(), before) == Parsed::<
                        Seq<CommandV>,
                    >::Ok((before, k)) && now == before,
                    Err(e) => parse_list_spec(old(self).state(), before) == Parsed::<
                        Seq<CommandV>,
                    >::Err((e@, k)),
                }
            }),
        decreases measure(old(self).state()), 3nat,
    {
        let ghost st = self.state();
        proof {
            lemma_skip_delimiters(st);
        }
        self.skip_delimiters();
        let ghost d = skip_delimiters(st);
        let ghost st1 = self.state();
        if self.at_list_end() {
            return (Ok(false), Ghost(d));
        }
        match self.parse_command() {
            Ok(c) => {
                proof {
                    lemma_command_takes_a_token(st1);
                    let k = parse_command_spec(st1)->Ok_0.1;
                    lemma_adv_n_measure(st1, k);
                    lemma_adv_n_add(st, d, k);
                    assert(commands@.push(c).drop_last() =~= commands@);
                }
                let ghost before = commands@;
                commands.push(c);
                let ghost k = parse_command_spec(st1)->Ok_0.1;
                proof {
                    assert(commands@.drop_last() == before);
                    assert(commands_view(commands@) == commands_view(before).push(command_view(c)));
                    assert(parse_list_spec(st, commands_view(before)) == shift(
                        d + k,
                        parse_list_spec(self.state(), commands_view(commands@)),
                    ));
                }
                (Ok(true), Ghost(d + k))
            },
            Err(e) => {
                let ghost k = parse_command_spec(st1)->Err_0.1;
                proof {
                    lemma_adv_n_add(st, d, k);
                    lemma_adv_n_measure(st, d + k);
                }
                (Err(e), Ghost(d + k))
            },
        }
    }

    /// Parses a list of commands separated by newlines or semicolons, up to the end of
    /// input or to `then`, `else`, `elif` or `fi`.
    pub fn parse_command_list(&mut self) -> (r: Result<CommandList, String>)
        ensures
            parsed_list(
                r,
                parse_command_list_spec(old(self).state()),
                old(self).state(),
                final(self).state(),
            ),
        decreases measure(old(self).state()), 4nat,
    {
        let mut commands: Vec<Command> = Vec::new();
        let ghost st0 = self.state();
        let ghost mut consumed: nat = 0;
        assert(adv_n(st0, 0) == st0);
        assert(commands_view(commands@) =~= Seq::<CommandV>::empty());
        loop
            invariant
                st0 == old(self).state(),
                self.state() == adv_n(st0, consumed),
                measure(self.state()) <= measure(st0),
                parse_list_spec(st0, Seq::empty()) == shift(
                    consumed,
                    parse_list_spec(self.state(), commands_view(commands@)),
                ),
            decreases measure(self.state()),
        {
            let (r, k) = self.parse_list_part(&mut commands);
            proof {
                lemma_adv_n_add(st0, consumed, k@);
            }
            match r {
                Ok(true) => {
                    proof {
                        consumed = consumed + k@;
                    }
                },
                Ok(false) => {
                    let l = CommandList { commands, asynchronous: false };
                    return Ok(l);
                },
                Err(e) => {
                    return Err(e);
                },
            }
        }
    }

    /// Parses one command, after any separators, so that a command can run as soon as it
    /// is typed. `None` at the end of input.
    pub fn parse_next_command(&mut self) -> (r: Result<Option<Command>, String>)
        ensures
            parsed_next(
                r,
                parse_next_command_spec(old(self).state()),
                old(self).state(),
                final(self).state(),
            ),
    {
        let ghost st0 = self.state();
        proof {
            lemma_skip_delimiters(st0);
        }
        self.skip_delimiters();
        let ghost d = skip_delimiters(st0);
        let ghost st1 = self.state();
        if matches!(self.current_token, Token::EOF) {
            return Ok(None);
        }
        match self.parse_command() {
            Ok(c) => {
                proof {
                    lemma_adv_n_add(st0, d, parse_command_spec(st1)->Ok_0.1);
                }
                Ok(Some(c))
            },
            Err(e) => {
                proof {
                    lemma_adv_n_add(st0, d, parse_command_spec(st1)->Err_0.1);
                }
                Err(e)
            },
        }
    }

    fn parse_command(&mut self) -> (r: Result<Command, String>)
        ensures
            parsed_command(
                r,
                parse_command_spec(old(self).state()),
                old(self).state(),
                final(self).state(),
            ),
        decreases measure(old(self).state()), 2nat,
    {
        let is_if = matches!(self.current_token, Token::If);
        let simple = match &self.current_token {
            Token::Word(_) | Token::IoNumber(_) => true,
            t => redirection_type_of(t).is_some(),
        };
        if is_if {
            self.parse_if()
        } else if simple {
            match self.parse_simple_command() {
                Ok(s) => Ok(Command::Simple(s)),
                Err(e) => Err(e),
            }
        } else {
            let ghost st0 = self.state();
            assert(adv_n(st0, 0) == st0);
            let mut m = String::from_str("Unexpected token: ");
            let d = self.current_token.debug_text();
            m.append(d.as_str());
            Err(m)
        }
    }

    fn parse_if(&mut self) -> (r: Result<Command, String>)
        requires
            old(self).state().tok == TokenV::If,
        ensures
            parsed_command(
                r,
                parse_command_spec(old(self).state()),
                old(self).state(),
                final(self).state(),
            ),
        decreases measure(old(self).state()), 1nat,
    {
        let ghost st0 = self.state();
        proof {
            lemma_adv_measure(st0);
            assert(adv_n(st0, 0) == st0);
            assert(adv_n(st0, 1) == adv(st0));
        }
        self.next_token();
        let ghost s1 = self.state();
        let condition = match self.parse_command_list() {
            Ok(c) => c,
            Err(e) => {
                proof {
                    lemma_adv_n_add(st0, 1, parse_command_list_spec(s1)->Err_0.1);
                }
                return Err(e);
            },
        };
        let ghost k1 = parse_command_list_spec(s1)->Ok_0.1;
        let ghost s2 = self.state();
        proof {
            lemma_adv_n_add(st0, 1, k1);
            lemma_adv_n_measure(s1, k1);
        }
        match self.parse_if_after_condition(condition) {
            Ok(i) => {
                proof {
                    lemma_adv_n_add(st0, 1 + k1, if_after_condition_spec(s2, list_view(condition))->Ok_0.1);
                }
                Ok(Command::If(i))
            },
            Err(e) => {
                proof {
                    lemma_adv_n_add(st0, 1 + k1, if_after_condition_spec(s2, list_view(condition))->Err_0.1);
                }
                Err(e)
            },
        }
    }

    fn parse_if_after_condition(&mut self, condition: CommandList) -> (r: Result<IfCommand, String>)
        ensures
            parsed_if(
                r,
                if_after_condition_spec(old(self).state(), list_view(condition)),
                old(self).state(),
                final(self).state(),
            ),
        decreases measure(old(self).state()), 3nat,
    {
        let ghost s0 = self.state();
        assert(adv_n(s0, 0) == s0);
        if !matches!(self.current_token, Token::Then) {
            return Err(String::from_str("Expected 'then'"));
        }
        proof {
            lemma_adv_measure(s0);
            assert(adv_n(s0, 1) == adv(s0));
        }
        self.next_token();
        let ghost s1 = self.state();
        let then_branch = match self.parse_command_list() {
            Ok(c) => c,
            Err(e) => {
                proof {
                    lemma_adv_n_add(s0, 1, parse_command_list_spec(s1)->Err_0.1);
                }
                return Err(e);
            },
        };
        let ghost k = parse_command_list_spec(s1)->Ok_0.1;
        let ghost s2 = self.state();
        proof {
            lemma_adv_n_add(s0, 1, k);
            lemma_adv_n_measure(s1, k);
        }
        let r = self.parse_if_after_then(condition, then_branch);
        proof {
            let p = if_after_then_spec(s2, list_view(condition), list_view(then_branch));
            match p {
                Ok((_, j)) => lemma_adv_n_add(s0, 1 + k, j),
                Err((_, j)) => lemma_adv_n_add(s0, 1 + k, j),
            }
        }
        r
    }

    #[verifier::spinoff_prover]
    fn parse_if_after_then(&mut self, condition: CommandList, then_branch: CommandList) -> (r:
        Result<IfCommand, String>)
        ensures
            parsed_if(
                r,
                if_after_then_spec(old(self).state(), list_view(condition), list_view(then_branch)),
                old(self).state(),
                final(self).state(),
            ),
        decreases measure(old(self).state()), 3nat,
    {
        let ghost s4 = self.state();
        let mut elif_branches: Vec<(CommandList, CommandList)> = Vec::new();
        let ghost mut k3: nat = 0;
        assert(adv_n(s4, 0) == s4);
        assert(elifs_view(elif_branches@) =~= Seq::<(CommandListV, CommandListV)>::empty());
        while matches!(self.current_token, Token::Elif)
            invariant
                s4 == old(self).state(),
                self.state() == adv_n(s4, k3),
                measure(self.state()) <= measure(s4),
                parse_elifs_spec(s4, Seq::empty()) == shift(
                    k3,
                    parse_elifs_spec(self.state(), elifs_view(elif_branches@)),
                ),
            decreases measure(self.state()),
        {
            let (r, k) = self.parse_elif_part(&mut elif_branches);
            proof {
                lemma_adv_n_add(s4, k3, k@);
            }
            match r {
                Ok(()) => {
                    proof {
                        k3 = k3 + k@;
                    }
                },
                Err(e) => {
                    return Err(e);
                },
            }
        }
        let ghost s5 = self.state();
        let r = self.parse_if_after_elifs(condition, then_branch, elif_branches);
        proof {
            let p = if_after_elifs_spec(s5, list_view(condition), list_view(then_branch), elifs_view(elif_branches@));
            match p {
                Ok((_, j)) => lemma_adv_n_add(s4, k3, j),
                Err((_, j)) => lemma_adv_n_add(s4, k3, j),
            }
        }
        r
    }

    /// Reads an `elif` branch (the current token is `elif`) and adds it.
    #[verifier::spinoff_prover]
    fn parse_elif_part(&mut self, elif_branches: &mut Vec<(CommandList, CommandList)>) -> (r: (
        Result<(), String>,
        Ghost<nat>,
    ))
        requires
            old(self).state().tok == TokenV::Elif,
        ensures
            ({
                let before = elifs_view(old(elif_branches)@);
                let now = elifs_view(final(elif_branches)@);
                let k = r.1@;
                &&& final(self).state() == adv_n(old(self).state(), k)
                &&& match r.0 {
                    Ok(()) => measure(final(self).state()) < measure(old(self).state())
                        && parse_elifs_spec(old(self).state(), before) == shift(
                        k,
                        parse_elifs_spec(final(self).state(), now),
                    ),
                    Err(e) => parse_elifs_spec(old(self).state(), before) == Parsed::<
                        Seq<(CommandListV, CommandListV)>,
                    >::Err((e@, k)),
                }
            }),
        decreases measure(old(self).state()), 2nat,
    {
        let ghost e0 = self.state();
        proof {
            lemma_adv_measure(e0);
            assert(adv_n(e0, 0) == e0);
            assert(adv_n(e0, 1) == adv(e0));
        }
        self.next_token();
        let ghost e1 = self.state();
        match self.parse_elif_branch() {
            Ok(b) => {
                let ghost k = elif_branch_spec(e1)->Ok_0.1;
                proof {
                    lemma_adv_n_add(e0, 1, k);
                    lemma_adv_n_measure(e1, k);
                    assert(elif_branches@.push(b).drop_last() =~= elif_branches@);
                }
                elif_branches.push(b);
                (Ok(()), Ghost(1 + k))
            },
            Err(e) => {
                let ghost k = elif_branch_spec(e1)->Err_0.1;
                proof {
                    lemma_adv_n_add(e0, 1, k);
                }
                (Err(e), Ghost(1 + k))
            },
        }
    }

    fn parse_elif_branch(&mut self) -> (r: Result<(CommandList, CommandList), String>)
        ensures
            parsed_branch(
                r,
                elif_branch_spec(old(self).state()),
                old(self).state(),
                final(self).state(),
            ),
        decreases measure(old(self).state()), 5nat,
    {
        let ghost e1 = self.state();
        let cond = match self.parse_command_list() {
            Ok(c) => c,
            Err(e) => {
                return Err(e);
            },
        };
        let ghost c1 = parse_command_list_spec(e1)->Ok_0.1;
        let ghost e2 = self.state();
        proof {
            lemma_adv_n_measure(e1, c1);
        }
        let r = self.parse_elif_after_condition(cond);
        proof {
            match elif_after_condition_spec(e2, list_view(cond)) {
                Ok((_, j)) => lemma_adv_n_add(e1, c1, j),
                Err((_, j)) => lemma_adv_n_add(e1, c1, j),
            }
        }
        r
    }

    /// Reads the rest of an `elif` branch after its condition `cond`: `then` and the body.
    fn parse_elif_after_condition(&mut self, cond: CommandList) -> (r: Result<
        (CommandList, CommandList),
        String,
    >)
        ensures
            parsed_branch(
                r,
                elif_after_condition_spec(old(self).state(), list_view(cond)),
                old(self).state(),
                final(self).state(),
            ),
        decreases measure(old(self).state()), 4nat,
    {
        let ghost e2 = self.state();
        assert(adv_n(e2, 0) == e2);
        if !matches!(self.current_token, Token::Then) {
            return Err(String::from_str("Expected 'then' after elif condition"));
        }
        proof {
            lemma_adv_measure(e2);
            assert(adv_n(e2, 1) == adv(e2));
        }
        self.next_token();
        let ghost e3 = self.state();
        let body = match self.parse_command_list() {
            Ok(c) => c,
            Err(e) => {
                proof {
                    lemma_adv_n_add(e2, 1, parse_command_list_spec(e3)->Err_0.1);
                }
                return Err(e);
            },
        };
        proof {
            lemma_adv_n_add(e2, 1, parse_command_list_spec(e3)->Ok_0.1);
        }
        Ok((cond, body))
    }

    #[verifier::spinoff_prover]
    fn parse_if_after_elifs(
        &mut self,
        condition: CommandList,
        then_branch: CommandList,
        elif_branches: Vec<(CommandList, CommandList)>,
    ) -> (r: Result<IfCommand, String>)
        ensures
            parsed_if(
                r,
                if_after_elifs_spec(
                    old(self).state(),
                    list_view(condition),
                    list_view(then_branch),
                    elifs_view(elif_branches@),
                ),
                old(self).state(),
                final(self).state(),
            ),
        decreases measure(old(self).state()), 2nat,
    {
        let ghost s5 = self.state();
        let else_branch = match self.parse_else_part() {
            Ok(b) => b,
            Err(e) => {
                return Err(e);
            },
        };
        let ghost s7 = self.state();
        if !matches!(self.current_token, Token::Fi) {
            let mut m = String::from_str("Expected 'fi', found ");
            let d = self.current_token.debug_text();
            m.append(d.as_str());
            return Err(m);
        }
        self.next_token();
        proof {
            assert(adv_n(s7, 0) == s7);
            assert(adv_n(s7, 1) == adv(s7));
            let k = if_after_elifs_spec(
                s5,
                list_view(condition),
                list_view(then_branch),
                elifs_view(elif_branches@),
            )->Ok_0.1;
            lemma_adv_n_add(s5, (k - 1) as nat, 1);
        }
        let i = IfCommand {
            condition: Box::new(condition),
            then_branch: Box::new(then_branch),
            elif_branches,
            else_branch,
        };
        Ok(i)
    }

    /// Reads the `else` body of an `if` command, if the current token is `else`.
    fn parse_else_part(&mut self) -> (r: Result<Option<Box<CommandList>>, String>)
        ensures
            match else_part_spec(old(self).state()) {
                Ok((v, k)) => r matches Ok(x) && match x {
                    Some(b) => Some(list_view(*b)),
                    None => None,
                } == v && final(self).state() == adv_n(old(self).state(), k),
                Err((e, k)) => r matches Err(m) && m@ == e && final(self).state() == adv_n(
                    old(self).state(),
                    k,
                ),
            },
        decreases measure(old(self).state()), 1nat,
    {
        let ghost s5 = self.state();
        assert(adv_n(s5, 0) == s5);
        if matches!(self.current_token, Token::Else) {
            proof {
                lemma_adv_measure(s5);
                assert(adv_n(s5, 1) == adv(s5));
            }
            self.next_token();
            let ghost s6 = self.state();
            match self.parse_command_list() {
                Ok(l) => {
                    proof {
                        lemma_adv_n_add(s5, 1, parse_command_list_spec(s6)->Ok_0.1);
                    }
                    Ok(Some(Box::new(l)))
                },
                Err(e) => {
                    proof {
                        lemma_adv_n_add(s5, 1, parse_command_list_spec(s6)->Err_0.1);
                    }
                    Err(e)
                },
            }
        } else {
            Ok(None)
        }
    }
}

impl<S: CharSource> Parser<S> {
    /// Whether the parser has reached the end of its input.
    pub fn at_end(&self) -> (r: bool)
        ensures
            r == (self.state().tok == TokenV::EOF),
    {
        matches!(self.current_token, Token::EOF)
    }
}

impl Parser<CharStream> {
    /// Adds `text` to the input. A parser that had reached the end of its input reads
    /// its next token from the new text.
    pub fn feed(&mut self, text: &str)
        ensures
            old(self).state().tok == TokenV::EOF ==> final(self).state() == adv(
                (PState { tok: TokenV::EOF, rest: old(self).state().rest + text@ }),
            ),
            old(self).state().tok != TokenV::EOF ==> final(self).state() == (PState {
                tok: old(self).state().tok,
                rest: old(self).state().rest + text@,
            }),
    {
        self.lexer.feed(text);
        if matches!(self.current_token, Token::EOF) {
            self.next_token();
        }
    }
}

} // verus!
