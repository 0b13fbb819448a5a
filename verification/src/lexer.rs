//! The lexer: turns a stream of characters into shell tokens, one token per call.
use vstd::prelude::*;
use crate::text::{char_is_space, chars_of, is_space, lemma_span, lemma_span_unique, span, string_from_chars};

verus! {

/// A source of characters, read one at a time and in order.
///
/// An implementation gives the characters of `remaining` one by one, then `None`
/// for ever after.
pub trait CharSource {
    /// The characters this source has yet to give.
    spec fn remaining(&self) -> Seq<char>;

    /// The next character, or `None` once the source is exhausted.
    fn next_char(&mut self) -> (r: Option<char>)
        ensures
            old(self).remaining().len() > 0 ==> r == Some(old(self).remaining()[0])
                && final(self).remaining() == old(self).remaining().drop_first(),
            old(self).remaining().len() == 0 ==> r is None && final(self).remaining()
                == old(self).remaining(),
    ;
}

/// The characters of a string, as a `CharSource`; more text can be added at its end.
#[derive(Clone)]
pub struct CharStream {
    chars: Vec<char>,
    pos: usize,
}

impl CharStream {
    /// A source that gives the characters of `text`.
    pub fn new(text: &str) -> (r: CharStream)
        ensures
            r.remaining() == text@,
    {
        let chars = chars_of(text);
        let r = CharStream { chars, pos: 0 };
        assert(r.chars@.skip(0) == r.chars@);
        r
    }

    /// Adds `text` after the characters not yet given.
    pub fn push_str(&mut self, text: &str)
        ensures
            final(self).remaining() == old(self).remaining() + text@,
    {
        let more = chars_of(text);
        let mut i: usize = 0;
        if self.pos > self.chars.len() {
            self.pos = self.chars.len();
            assert(self.chars@.skip(self.pos as int) =~= Seq::<char>::empty());
        }
        while i < more.len()
            invariant
                i <= more.len(),
                more@ == text@,
                self.pos <= self.chars.len(),
                self.remaining() == old(self).remaining() + more@.take(i as int),
            decreases more.len() - i,
        {
            let ghost before = self.chars@;
            self.chars.push(more[i]);
            assert(self.chars@.skip(self.pos as int) =~= before.skip(self.pos as int).push(more[i as int]));
            assert(more@.take(i + 1) =~= more@.take(i as int).push(more[i as int]));
            i = i + 1;
        }
        assert(more@.take(more.len() as int) =~= more@);
    }
}

impl CharSource for CharStream {
    closed spec fn remaining(&self) -> Seq<char> {
        if self.pos <= self.chars.len() {
            self.chars@.skip(self.pos as int)
        } else {
            Seq::empty()
        }
    }

    fn next_char(&mut self) -> (r: Option<char>) {
        if self.pos < self.chars.len() {
            let c = self.chars[self.pos];
            self.pos = self.pos + 1;
            assert(self.chars@.skip(self.pos as int) == old(self).chars@.skip(
                old(self).pos as int,
            ).drop_first());
            Some(c)
        } else {
            None
        }
    }
}

/// A shell token.
#[derive(Debug, PartialEq, Clone)]
pub enum Token {
    Word(String),
    If,
    Then,
    Else,
    Elif,
    Fi,
    Semi,
    NewLine,
    Less,
    Great,
    DGreat,
    LessAnd,
    GreatAnd,
    LessGreat,
    DLess,
    CLobber,
    Pipe,
    And,
    IoNumber(String),
    EOF,
}

/// A token as a mathematical value: words are sequences of characters.
pub enum TokenV {
    Word(Seq<char>),
    If,
    Then,
    Else,
    Elif,
    Fi,
    Semi,
    NewLine,
    Less,
    Great,
    DGreat,
    LessAnd,
    GreatAnd,
    LessGreat,
    DLess,
    CLobber,
    Pipe,
    And,
    IoNumber(Seq<char>),
    EOF,
}

impl View for Token {
    type V = TokenV;

    open spec fn view(&self) -> TokenV {
        match self {
            Token::Word(w) => TokenV::Word(w@),
            Token::If => TokenV::If,
            Token::Then => TokenV::Then,
            Token::Else => TokenV::Else,
            Token::Elif => TokenV::Elif,
            Token::Fi => TokenV::Fi,
            Token::Semi => TokenV::Semi,
            Token::NewLine => TokenV::NewLine,
            Token::Less => TokenV::Less,
            Token::Great => TokenV::Great,
            Token::DGreat => TokenV::DGreat,
            Token::LessAnd => TokenV::LessAnd,
            Token::GreatAnd => TokenV::GreatAnd,
            Token::LessGreat => TokenV::LessGreat,
            Token::DLess => TokenV::DLess,
            Token::CLobber => TokenV::CLobber,
            Token::Pipe => TokenV::Pipe,
            Token::And => TokenV::And,
            Token::IoNumber(n) => TokenV::IoNumber(n@),
            Token::EOF => TokenV::EOF,
        }
    }
}

/// Whitespace that separates tokens on a line (a newline is a token of its own).
pub open spec fn is_blank(c: char) -> bool {
    is_space(c) && c != '\n'
}

/// The characters that end a word: `& | ; < > ( ) { }`.
pub open spec fn is_operator_char(c: char) -> bool {
    c == '&' || c == '|' || c == ';' || c == '<' || c == '>' || c == '(' || c == ')' || c
        == '{' || c == '}'
}

/// Characters that may continue a word.
pub open spec fn is_word_char(c: char) -> bool {
    !is_space(c) && !is_operator_char(c)
}

pub open spec fn is_digit_char(c: char) -> bool {
    '0' <= c && c <= '9'
}

pub open spec fn all_digits(s: Seq<char>) -> bool {
    forall|i: int| 0 <= i < s.len() ==> #[trigger] is_digit_char(s[i])
}

pub open spec fn blank_class() -> spec_fn(char) -> bool {
    |c: char| is_blank(c)
}

pub open spec fn word_class() -> spec_fn(char) -> bool {
    |c: char| is_word_char(c)
}

pub open spec fn line_class() -> spec_fn(char) -> bool {
    |c: char| c != '\n'
}

/// The reserved word spelled by `w`, if any.
pub open spec fn keyword(w: Seq<char>) -> Option<TokenV> {
    if w == seq!['i', 'f'] {
        Some(TokenV::If)
    } else if w == seq!['t', 'h', 'e', 'n'] {
        Some(TokenV::Then)
    } else if w == seq!['e', 'l', 's', 'e'] {
        Some(TokenV::Else)
    } else if w == seq!['e', 'l', 'i', 'f'] {
        Some(TokenV::Elif)
    } else if w == seq!['f', 'i'] {
        Some(TokenV::Fi)
    } else {
        None
    }
}

/// The token for the word `w`, given the character that follows it.
/// A word of digits right before `<` or `>` names a file descriptor.
pub open spec fn word_token(w: Seq<char>, next: Option<char>) -> TokenV {
    match keyword(w) {
        Some(t) => t,
        None => if all_digits(w) && (next == Some('<') || next == Some('>')) {
            TokenV::IoNumber(w)
        } else {
            TokenV::Word(w)
        },
    }
}

/// A word reads as the reserved word it spells (`if`, `then`, `else`, `elif`, `fi`); else
/// as a file descriptor number when it is all digits and `<` or `>` follows it; else as
/// a plain word. Either way its text is kept.
pub proof fn lemma_word_token(w: Seq<char>, next: Option<char>)
    ensures
        w == seq!['i', 'f'] ==> word_token(w, next) == TokenV::If,
        w == seq!['t', 'h', 'e', 'n'] ==> word_token(w, next) == TokenV::Then,
        w == seq!['e', 'l', 's', 'e'] ==> word_token(w, next) == TokenV::Else,
        w == seq!['e', 'l', 'i', 'f'] ==> word_token(w, next) == TokenV::Elif,
        w == seq!['f', 'i'] ==> word_token(w, next) == TokenV::Fi,
        w.len() > 0 && all_digits(w) && (next == Some('<') || next == Some('>')) ==> word_token(
            w,
            next,
        ) == TokenV::IoNumber(w),
        !all_digits(w) || !(next == Some('<') || next == Some('>')) ==> (word_token(w, next)
            == TokenV::Word(w) || keyword(w) is Some),
        keyword(w) is Some ==> render(keyword(w)->Some_0) == w,
        keyword(w) is None ==> render(word_token(w, next)) == w,
{
    if w.len() > 0 && all_digits(w) {
        assert(is_digit_char(w[0]));
    }
}

/// The next token of `s`, and how many characters it takes (blanks and comments
/// before it included). At the end of `s` the token is `EOF`.
pub open spec fn lex(s: Seq<char>) -> (TokenV, int)
    decreases s.len(),
{
    let k = span(s, blank_class()) as int;
    let r = s.skip(k);
    if r.len() == 0 {
        (TokenV::EOF, k)
    } else if r[0] == '\n' {
        (TokenV::NewLine, k + 1)
    } else if r[0] == ';' {
        (TokenV::Semi, k + 1)
    } else if r[0] == '|' {
        (TokenV::Pipe, k + 1)
    } else if r[0] == '&' {
        (TokenV::And, k + 1)
    } else if r[0] == '<' {
        if r.len() > 1 && r[1] == '<' {
            (TokenV::DLess, k + 2)
        } else if r.len() > 1 && r[1] == '&' {
            (TokenV::LessAnd, k + 2)
        } else if r.len() > 1 && r[1] == '>' {
            (TokenV::LessGreat, k + 2)
        } else {
            (TokenV::Less, k + 1)
        }
    } else if r[0] == '>' {
        if r.len() > 1 && r[1] == '>' {
            (TokenV::DGreat, k + 2)
        } else if r.len() > 1 && r[1] == '&' {
            (TokenV::GreatAnd, k + 2)
        } else if r.len() > 1 && r[1] == '|' {
            (TokenV::CLobber, k + 2)
        } else {
            (TokenV::Great, k + 1)
        }
    } else if r[0] == '#' {
        let m = span(r.drop_first(), line_class()) as int;
        proof {
            lemma_span(s, blank_class());
            lemma_span(r.drop_first(), line_class());
        }
        let (t, n) = lex(r.skip(1 + m));
        (t, k + 1 + m + n)
    } else {
        let w = 1 + span(r.drop_first(), word_class()) as int;
        let next = if w < r.len() {
            Some(r[w])
        } else {
            None
        };
        (word_token(r.take(w), next), k + w)
    }
}

/// Every token but `EOF` consumes at least one character, and `EOF` consumes
/// everything that is left (only blanks and comments can stand there).
pub proof fn lemma_lex_progress(s: Seq<char>)
    ensures
        0 <= lex(s).1 <= s.len(),
        lex(s).0 != TokenV::EOF ==> lex(s).1 >= 1,
        lex(s).0 == TokenV::EOF ==> lex(s).1 == s.len(),
    decreases s.len(),
{
    lemma_span(s, blank_class());
    let k = span(s, blank_class()) as int;
    let r = s.skip(k);
    if r.len() > 0 && r[0] == '#' {
        lemma_span(r.drop_first(), line_class());
        let m = span(r.drop_first(), line_class()) as int;
        lemma_lex_progress(r.skip(1 + m));
    } else if r.len() > 0 && r[0] != '\n' && r[0] != ';' && r[0] != '|' && r[0] != '&' && r[0]
        != '<' && r[0] != '>' {
        lemma_span(r.drop_first(), word_class());
    }
}

/// Once the lexer has returned `EOF`, it returns `EOF` again and consumes nothing.
pub proof fn lemma_lex_eof_stable(s: Seq<char>)
    requires
        lex(s).0 == TokenV::EOF,
    ensures
        lex(s.skip(lex(s).1)) == (TokenV::EOF, 0int),
{
    lemma_lex_progress(s);
    let e = s.skip(lex(s).1);
    assert(e.len() == 0);
    assert(span(e, blank_class()) == 0);
    assert(e.skip(0) =~= e);
}

/// A blank before a token changes nothing but the count of consumed characters.
pub proof fn lemma_lex_leading_blank(b: char, s: Seq<char>)
    requires
        is_blank(b),
    ensures
        lex(seq![b] + s) == (lex(s).0, lex(s).1 + 1),
{
    let t = seq![b] + s;
    assert(t.drop_first() =~= s);
    assert(blank_class()(t[0]));
    assert(span(t, blank_class()) == 1 + span(s, blank_class()));
    lemma_span(s, blank_class());
    let k = span(s, blank_class()) as int;
    assert(t.skip(1 + k) =~= s.skip(k));
}

/// A comment runs to the end of its line: `#` and the text after it are skipped, and
/// lexing goes on at the newline (or the end of input) that ends it.
pub proof fn lemma_lex_comment(line: Seq<char>, s: Seq<char>)
    requires
        forall|i: int| 0 <= i < line.len() ==> line[i] != '\n',
        s.len() == 0 || s[0] == '\n',
    ensures
        lex(seq!['#'] + line + s) == (lex(s).0, 1 + line.len() + lex(s).1),
{
    let t = seq!['#'] + line + s;
    assert(!is_space('#'));
    assert(!blank_class()(t[0]));
    assert(span(t, blank_class()) == 0);
    assert(t.skip(0) =~= t);
    let q = t.drop_first();
    assert(q =~= line + s);
    assert forall|j: int| 0 <= j < line.len() implies #[trigger] line_class()(q[j]) by {
        assert(q[j] == line[j]);
    }
    if line.len() < q.len() {
        assert(q[line.len() as int] == s[0]);
    }
    lemma_span_unique(q, line_class(), line.len() as int);
    assert(t.skip(1 + line.len() as int) =~= s);
}

/// What is left of `s` after the blanks at its front.
pub open spec fn after_blanks(s: Seq<char>) -> Seq<char> {
    s.skip(span(s, blank_class()) as int)
}

/// The lexer is at the end of its input exactly when only blanks are left, or blanks and
/// then a comment that no newline ends.
pub proof fn lemma_lex_eof_exactly(s: Seq<char>)
    ensures
        lex(s).0 == TokenV::EOF <==> (after_blanks(s).len() == 0 || (after_blanks(s)[0] == '#'
            && !after_blanks(s).contains('\n'))),
{
    lemma_span(s, blank_class());
    let r = after_blanks(s);
    if r.len() > 0 && r[0] == '#' {
        let q = r.drop_first();
        lemma_span(q, line_class());
        let m = span(q, line_class()) as int;
        let rest = r.skip(1 + m);
        if !r.contains('\n') {
            assert forall|j: int| 0 <= j < q.len() implies #[trigger] line_class()(q[j]) by {
                assert(q[j] == r[j + 1]);
            }
            lemma_span_unique(q, line_class(), q.len() as int);
            assert(rest.len() == 0);
            assert(span(rest, blank_class()) == 0);
            assert(rest.skip(0).len() == 0);
            assert(lex(rest).0 == TokenV::EOF);
            assert(lex(s).0 == lex(rest).0);
        } else {
            let i = choose|i: int| 0 <= i < r.len() && r[i] == '\n';
            if m == q.len() {
                assert(line_class()(q[i - 1]));
            }
            assert(rest[0] == q[m]);
            assert(!is_blank(rest[0]));
            assert(span(rest, blank_class()) == 0);
            assert(rest.skip(0) =~= rest);
            assert(lex(rest).0 == TokenV::NewLine);
            assert(lex(s).0 == lex(rest).0);
        }
    } else if r.len() > 0 {
        assert(lex(s).0 != TokenV::EOF);
    }
}

/// The source text of a token: a word or I/O number is its text, an operator its
/// characters, a newline `\n`, and the end of input nothing.
pub open spec fn render(t: TokenV) -> Seq<char> {
    match t {
        TokenV::Word(w) => w,
        TokenV::IoNumber(w) => w,
        TokenV::If => seq!['i', 'f'],
        TokenV::Then => seq!['t', 'h', 'e', 'n'],
        TokenV::Else => seq!['e', 'l', 's', 'e'],
        TokenV::Elif => seq!['e', 'l', 'i', 'f'],
        TokenV::Fi => seq!['f', 'i'],
        TokenV::Semi => seq![';'],
        TokenV::NewLine => seq!['\n'],
        TokenV::Less => seq!['<'],
        TokenV::Great => seq!['>'],
        TokenV::DGreat => seq!['>', '>'],
        TokenV::LessAnd => seq!['<', '&'],
        TokenV::GreatAnd => seq!['>', '&'],
        TokenV::LessGreat => seq!['<', '>'],
        TokenV::DLess => seq!['<', '<'],
        TokenV::CLobber => seq!['>', '|'],
        TokenV::Pipe => seq!['|'],
        TokenV::And => seq!['&'],
        TokenV::EOF => Seq::empty(),
    }
}

/// The tokens of `s`, one after the other, up to and including the first `EOF`.
pub open spec fn lex_all(s: Seq<char>) -> Seq<TokenV>
    decreases s.len(),
{
    if lex(s).0 == TokenV::EOF {
        seq![TokenV::EOF]
    } else {
        proof {
            lemma_lex_progress(s);
        }
        seq![lex(s).0] + lex_all(s.skip(lex(s).1))
    }
}

/// The source texts of the tokens `ts`, one after the other.
pub open spec fn render_all(ts: Seq<TokenV>) -> Seq<char>
    decreases ts.len(),
{
    if ts.len() == 0 {
        Seq::empty()
    } else {
        render(ts[0]) + render_all(ts.drop_first())
    }
}

pub open spec fn non_blank_class() -> spec_fn(char) -> bool {
    |c: char| !is_blank(c)
}

proof fn lemma_filter_keeps_all(s: Seq<char>, p: spec_fn(char) -> bool)
    requires
        forall|i: int| 0 <= i < s.len() ==> #[trigger] p(s[i]),
    ensures
        s.filter(p) == s,
    decreases s.len(),
{
    reveal(Seq::filter);
    if s.len() > 0 {
        lemma_filter_keeps_all(s.drop_last(), p);
        assert(s.drop_last().push(s.last()) =~= s);
    }
}

proof fn lemma_filter_drops_all(s: Seq<char>, p: spec_fn(char) -> bool)
    requires
        forall|i: int| 0 <= i < s.len() ==> !#[trigger] p(s[i]),
    ensures
        s.filter(p) == Seq::<char>::empty(),
    decreases s.len(),
{
    reveal(Seq::filter);
    if s.len() > 0 {
        lemma_filter_drops_all(s.drop_last(), p);
    }
}

/// Lexing skips the blanks at the front, then reads a token from what is left.
proof fn lemma_lex_after_blanks(s: Seq<char>)
    ensures
        lex(s) == (lex(after_blanks(s)).0, span(s, blank_class()) + lex(after_blanks(s)).1),
{
    lemma_span(s, blank_class());
    let r = after_blanks(s);
    if r.len() > 0 {
        assert(r[0] == s[span(s, blank_class()) as int]);
        assert(!blank_class()(r[0]));
    }
    assert(span(r, blank_class()) == 0);
    assert(r.skip(0) =~= r);
}

/// A token read where no blank or comment stands consists of the characters it
/// consumed, none of them blank.
proof fn lemma_token_chars(r: Seq<char>)
    requires
        r.len() > 0 ==> !is_blank(r[0]) && r[0] != '#',
    ensures
        0 <= lex(r).1 <= r.len(),
        forall|i: int| 0 <= i < lex(r).1 ==> #[trigger] non_blank_class()(r[i]),
        render(lex(r).0) == r.take(lex(r).1),
{
    lemma_lex_progress(r);
    if r.len() > 0 {
        assert(!blank_class()(r[0]));
    }
    assert(span(r, blank_class()) == 0);
    assert(r.skip(0) =~= r);
    if r.len() > 0 && r[0] != '\n' && r[0] != ';' && r[0] != '|' && r[0] != '&' && r[0] != '<'
        && r[0] != '>' {
        let q = r.drop_first();
        lemma_span(q, word_class());
        assert forall|i: int| 0 <= i < lex(r).1 implies #[trigger] non_blank_class()(r[i]) by {
            if i > 0 {
                assert(r[i] == q[i - 1]);
                assert(word_class()(q[i - 1]));
            }
        }
    } else if r.len() > 0 {
        assert(render(lex(r).0) =~= r.take(lex(r).1));
    } else {
        assert(r.take(lex(r).1) =~= Seq::<char>::empty());
    }
}

/// Without comments, one token's source text is what it consumed, less the blanks.
proof fn lemma_render_token(s: Seq<char>)
    requires
        !s.contains('#'),
    ensures
        0 <= lex(s).1 <= s.len(),
        render(lex(s).0) == s.take(lex(s).1).filter(non_blank_class()),
{
    lemma_lex_progress(s);
    lemma_span(s, blank_class());
    lemma_lex_after_blanks(s);
    let k = span(s, blank_class()) as int;
    let r = after_blanks(s);
    if r.len() > 0 {
        assert(r[0] == s[k]);
    }
    lemma_token_chars(r);
    let m = lex(r).1;
    let n = lex(s).1;
    assert(s.take(n) =~= s.take(k) + r.take(m));
    Seq::filter_distributes_over_add(s.take(k), r.take(m), non_blank_class());
    assert forall|i: int| 0 <= i < s.take(k).len() implies !#[trigger] non_blank_class()(
        s.take(k)[i],
    ) by {
        assert(blank_class()(s[i]));
    }
    lemma_filter_drops_all(s.take(k), non_blank_class());
    assert forall|i: int| 0 <= i < r.take(m).len() implies #[trigger] non_blank_class()(
        r.take(m)[i],
    ) by {
        assert(non_blank_class()(r[i]));
    }
    lemma_filter_keeps_all(r.take(m), non_blank_class());
    assert(Seq::<char>::empty() + r.take(m) =~= r.take(m));
}

/// Without comments, the source texts of all the tokens, one after the other, give
/// the input back without its blanks (the whitespace other than newlines).
pub proof fn lemma_tokens_render_input(s: Seq<char>)
    requires
        !s.contains('#'),
    ensures
        render_all(lex_all(s)) == s.filter(non_blank_class()),
    decreases s.len(),
{
    lemma_render_token(s);
    lemma_lex_progress(s);
    let (t, n) = lex(s);
    let rest = s.skip(n);
    assert(s =~= s.take(n) + rest);
    Seq::filter_distributes_over_add(s.take(n), rest, non_blank_class());
    if t == TokenV::EOF {
        assert(rest.len() == 0);
        assert(rest.filter(non_blank_class()) =~= Seq::<char>::empty()) by {
            reveal(Seq::filter);
        }
        let ts = seq![TokenV::EOF];
        assert(ts.drop_first().len() == 0);
        assert(render_all(ts.drop_first()) == Seq::<char>::empty());
        assert(render_all(ts) =~= render(t));
        assert(s.take(n).filter(non_blank_class()) + rest.filter(non_blank_class())
            =~= s.take(n).filter(non_blank_class()));
    } else {
        assert forall|i: int| 0 <= i < rest.len() implies rest[i] != '#' by {
            assert(rest[i] == s[n + i]);
        }
        lemma_tokens_render_input(rest);
        let ts = seq![t] + lex_all(rest);
        assert(ts[0] == t);
        assert(ts.drop_first() =~= lex_all(rest));
    }
}

/// Every character of `b` is a blank.
pub open spec fn all_blank(b: Seq<char>) -> bool {
    forall|i: int| 0 <= i < b.len() ==> #[trigger] is_blank(b[i])
}

proof fn lemma_span_in_prefix(x: Seq<char>, y: Seq<char>, p: spec_fn(char) -> bool)
    requires
        span(x, p) < x.len(),
    ensures
        span(x + y, p) == span(x, p),
{
    lemma_span(x, p);
    let k = span(x, p) as int;
    assert forall|j: int| 0 <= j < k implies #[trigger] p((x + y)[j]) by {
        assert((x + y)[j] == x[j]);
    }
    assert((x + y)[k] == x[k]);
    lemma_span_unique(x + y, p, k);
}

proof fn lemma_span_past_prefix(x: Seq<char>, y: Seq<char>, p: spec_fn(char) -> bool)
    requires
        forall|i: int| 0 <= i < x.len() ==> #[trigger] p(x[i]),
    ensures
        span(x + y, p) == x.len() + span(y, p),
{
    lemma_span(y, p);
    let k = (x.len() + span(y, p)) as int;
    assert forall|j: int| 0 <= j < k implies #[trigger] p((x + y)[j]) by {
        if j < x.len() {
            assert((x + y)[j] == x[j]);
        } else {
            assert((x + y)[j] == y[j - x.len()]);
        }
    }
    if k < (x + y).len() {
        assert((x + y)[k] == y[span(y, p) as int]);
    }
    lemma_span_unique(x + y, p, k);
}

/// What can follow the text `a` in the two inputs compared below: blanks, or nothing.
pub open spec fn blank_or_end(t: Seq<char>) -> bool {
    t.len() == 0 || is_blank(t[0])
}

proof fn lemma_no_blank_front(r: Seq<char>)
    requires
        r.len() > 0,
        !is_blank(r[0]),
    ensures
        span(r, blank_class()) == 0,
        r.skip(0) == r,
{
    assert(!blank_class()(r[0]));
    assert(r.skip(0) =~= r);
}

proof fn lemma_blank_or_end_after(b: Seq<char>, c: Seq<char>)
    requires
        all_blank(b),
        b.len() > 0 || c.len() == 0,
    ensures
        blank_or_end(b + c),
{
    if b.len() > 0 {
        assert((b + c)[0] == b[0]);
    }
}

/// An operator or a newline at the front of `a` reads the same whatever blanks (or
/// nothing) follow `a`.
proof fn lemma_token_op(a: Seq<char>, t1: Seq<char>, t2: Seq<char>)
    requires
        a.len() > 0,
        a[0] == '\n' || a[0] == ';' || a[0] == '|' || a[0] == '&' || a[0] == '<' || a[0] == '>',
        blank_or_end(t1),
        blank_or_end(t2),
    ensures
        lex(a + t1) == lex(a + t2),
        lex(a + t1).1 <= a.len(),
        lex(a + t1).0 != TokenV::EOF,
{
    let r1 = a + t1;
    let r2 = a + t2;
    assert(r1[0] == a[0]);
    assert(r2[0] == a[0]);
    lemma_no_blank_front(r1);
    lemma_no_blank_front(r2);
    if a.len() == 1 {
        if t1.len() > 0 {
            assert(r1[1] == t1[0]);
        }
        if t2.len() > 0 {
            assert(r2[1] == t2[0]);
        }
    } else {
        assert(r1[1] == a[1]);
        assert(r2[1] == a[1]);
    }
}

/// A word at the front of `a` ends within `a` and reads the same whatever blanks (or
/// nothing) follow `a`.
proof fn lemma_token_word(a: Seq<char>, t1: Seq<char>, t2: Seq<char>)
    requires
        a.len() > 0,
        !is_blank(a[0]),
        a[0] != '\n' && a[0] != ';' && a[0] != '|' && a[0] != '&' && a[0] != '<' && a[0] != '>'
            && a[0] != '#',
        blank_or_end(t1),
        blank_or_end(t2),
    ensures
        lex(a + t1) == lex(a + t2),
        lex(a + t1).1 <= a.len(),
        lex(a + t1).0 != TokenV::EOF,
{
    let r1 = a + t1;
    let r2 = a + t2;
    assert(r1[0] == a[0]);
    assert(r2[0] == a[0]);
    lemma_no_blank_front(r1);
    lemma_no_blank_front(r2);
    let x = a.drop_first();
    assert(r1.drop_first() =~= x + t1);
    assert(r2.drop_first() =~= x + t2);
    lemma_span(x, word_class());
    if span(x, word_class()) < x.len() {
        lemma_span_in_prefix(x, t1, word_class());
        lemma_span_in_prefix(x, t2, word_class());
        let w = 1 + span(x, word_class()) as int;
        assert(r1[w] == a[w]);
        assert(r2[w] == a[w]);
        assert(r1.take(w) =~= a.take(w));
        assert(r2.take(w) =~= a.take(w));
    } else {
        lemma_span_past_prefix(x, t1, word_class());
        lemma_span_past_prefix(x, t2, word_class());
        assert(span(t1, word_class()) == 0) by {
            if t1.len() > 0 {
                assert(!word_class()(t1[0]));
            }
        }
        assert(span(t2, word_class()) == 0) by {
            if t2.len() > 0 {
                assert(!word_class()(t2[0]));
            }
        }
        let w = a.len() as int;
        assert(r1.take(w) =~= a);
        assert(r2.take(w) =~= a);
        if t1.len() > 0 {
            assert(r1[w] == t1[0]);
        }
        if t2.len() > 0 {
            assert(r2[w] == t2[0]);
        }
    }
}

/// A comment at the front of `a` whose newline lies in `a`: the token is the one after
/// the newline.
proof fn lemma_token_comment_in(a: Seq<char>, t: Seq<char>)
    requires
        a.len() > 0,
        a[0] == '#',
        span(a.drop_first(), line_class()) < a.drop_first().len(),
    ensures
        ({
            let m = span(a.drop_first(), line_class()) as int;
            lex(a + t) == (lex(a.skip(1 + m) + t).0, 1 + m + lex(a.skip(1 + m) + t).1)
        }),
{
    let r = a + t;
    let x = a.drop_first();
    assert(r[0] == a[0]);
    assert(!is_space('#'));
    lemma_no_blank_front(r);
    assert(r.drop_first() =~= x + t);
    lemma_span_in_prefix(x, t, line_class());
    let m = span(x, line_class()) as int;
    assert(r.skip(1 + m) =~= a.skip(1 + m) + t);
}

/// A comment at the front of `a` with no newline in `a` runs on through the blanks and
/// into `c`: what is left after it does not depend on the blanks.
proof fn lemma_token_comment_out(a: Seq<char>, b: Seq<char>, c: Seq<char>)
    requires
        a.len() > 0,
        a[0] == '#',
        span(a.drop_first(), line_class()) == a.drop_first().len(),
        all_blank(b),
    ensures
        ({
            let j = span(c, line_class()) as int;
            lex(a + b + c) == (lex(c.skip(j)).0, a.len() + b.len() + j + lex(c.skip(j)).1)
        }),
{
    let r = a + b + c;
    let x = a.drop_first();
    assert(r[0] == a[0]);
    assert(!is_space('#'));
    lemma_no_blank_front(r);
    assert(r.drop_first() =~= x + (b + c));
    lemma_span(x, line_class());
    lemma_span_past_prefix(x, b + c, line_class());
    assert forall|i: int| 0 <= i < b.len() implies #[trigger] line_class()(b[i]) by {
        assert(is_blank(b[i]));
    }
    lemma_span_past_prefix(b, c, line_class());
    lemma_span(c, line_class());
    let j = span(c, line_class()) as int;
    assert(r.skip(1 + x.len() + b.len() + j) =~= c.skip(j));
}

/// Blanks at the front are skipped: `a` of blanks, then `b` of blanks, then `c`.
proof fn lemma_lex_blank_front(a: Seq<char>, b: Seq<char>, c: Seq<char>)
    requires
        all_blank(a),
        all_blank(b),
    ensures
        ({
            let j = span(c, blank_class()) as int;
            lex(a + b + c) == (lex(c.skip(j)).0, a.len() + b.len() + j + lex(c.skip(j)).1)
        }),
{
    lemma_lex_after_blanks(a + b + c);
    assert forall|i: int| 0 <= i < (a + b).len() implies #[trigger] blank_class()((a + b)[i]) by {
        if i >= a.len() {
            assert((a + b)[i] == b[i - a.len()]);
        }
    }
    lemma_span_past_prefix(a + b, c, blank_class());
    lemma_span(c, blank_class());
    let j = span(c, blank_class()) as int;
    assert(after_blanks(a + b + c) =~= c.skip(j));
    lemma_lex_after_blanks(c);
    let r = c.skip(j);
    if r.len() > 0 {
        assert(r[0] == c[j]);
        lemma_no_blank_front(r);
    } else {
        assert(span(r, blank_class()) == 0);
        assert(r.skip(0) =~= r);
    }
}

/// The next token of `a + b1 + c` and of `a + b2 + c` is the same, and either it lies
/// within `a` and takes as many characters in both, or what is left after it is the same.
pub open spec fn lex_agrees(a: Seq<char>, b1: Seq<char>, b2: Seq<char>, c: Seq<char>) -> bool {
    &&& lex(a + b1 + c).0 == lex(a + b2 + c).0
    &&& (lex(a + b1 + c).1 == lex(a + b2 + c).1 && lex(a + b1 + c).1 <= a.len() && lex(
        a + b1 + c,
    ).0 != TokenV::EOF) || (a + b1 + c).skip(lex(a + b1 + c).1) == (a + b2 + c).skip(
        lex(a + b2 + c).1,
    )
}

/// One token, where two inputs differ only in a run of blanks after `a` (or, at the
/// end, in trailing blanks): the token is the same, and either it lies within `a` and
/// takes as many characters in both, or what is left after it is the same.
proof fn lemma_lex_blank_step(a: Seq<char>, b1: Seq<char>, b2: Seq<char>, c: Seq<char>)
    requires
        all_blank(b1),
        all_blank(b2),
        (b1.len() > 0 && b2.len() > 0) || c.len() == 0 || all_blank(a),
    ensures
        lex_agrees(a, b1, b2, c),
    decreases a.len(), 2nat,
{
    let s1 = a + b1 + c;
    let s2 = a + b2 + c;
    lemma_span(a, blank_class());
    let k = span(a, blank_class()) as int;
    if k == a.len() {
        assert(all_blank(a)) by {
            assert forall|i: int| 0 <= i < a.len() implies #[trigger] is_blank(a[i]) by {
                assert(blank_class()(a[i]));
            }
        }
        lemma_lex_blank_front(a, b1, c);
        lemma_lex_blank_front(a, b2, c);
        let j = span(c, blank_class()) as int;
        let n = lex(c.skip(j)).1;
        lemma_lex_progress(c.skip(j));
        lemma_span(c, blank_class());
        assert(s1.skip(a.len() + b1.len() + j + n) =~= c.skip(j).skip(n));
        assert(s2.skip(a.len() + b2.len() + j + n) =~= c.skip(j).skip(n));
    } else {
        assert(!all_blank(a)) by {
            assert(!blank_class()(a[k]));
        }
        let a1 = a.skip(k);
        let pre = a.take(k);
        assert(all_blank(pre)) by {
            assert forall|i: int| 0 <= i < pre.len() implies #[trigger] is_blank(pre[i]) by {
                assert(blank_class()(a[i]));
            }
        }
        assert(a1[0] == a[k]);
        lemma_lex_token_blank_step(a1, b1, b2, c);
        assert(s1 =~= pre + Seq::<char>::empty() + (a1 + b1 + c));
        assert(s2 =~= pre + Seq::<char>::empty() + (a1 + b2 + c));
        lemma_lex_blank_front(pre, Seq::empty(), a1 + b1 + c);
        lemma_lex_blank_front(pre, Seq::empty(), a1 + b2 + c);
        lemma_no_blank_front(a1 + b1 + c);
        lemma_no_blank_front(a1 + b2 + c);
        assert((a1 + b1 + c)[0] == a1[0]);
        let m1 = lex(a1 + b1 + c).1;
        let m2 = lex(a1 + b2 + c).1;
        lemma_lex_progress(a1 + b1 + c);
        lemma_lex_progress(a1 + b2 + c);
        assert(s1.skip(k + m1) =~= (a1 + b1 + c).skip(m1));
        assert(s2.skip(k + m2) =~= (a1 + b2 + c).skip(m2));
    }
}

/// The same, for a token that starts right at the front of `a`.
proof fn lemma_lex_token_blank_step(a: Seq<char>, b1: Seq<char>, b2: Seq<char>, c: Seq<char>)
    requires
        a.len() > 0,
        !is_blank(a[0]),
        all_blank(b1),
        all_blank(b2),
        (b1.len() > 0 && b2.len() > 0) || c.len() == 0,
    ensures
        lex_agrees(a, b1, b2, c),
    decreases a.len(), 1nat,
{
    let t1 = b1 + c;
    let t2 = b2 + c;
    assert(a + b1 + c =~= a + t1);
    assert(a + b2 + c =~= a + t2);
    lemma_blank_or_end_after(b1, c);
    lemma_blank_or_end_after(b2, c);
    let ch = a[0];
    if ch == '#' {
        let x = a.drop_first();
        lemma_span(x, line_class());
        if span(x, line_class()) < x.len() {
            lemma_comment_in_blank_step(a, b1, b2, c);
        } else {
            lemma_comment_out_blank_step(a, b1, b2, c);
        }
    } else if ch == '\n' || ch == ';' || ch == '|' || ch == '&' || ch == '<' || ch == '>' {
        lemma_token_op(a, t1, t2);
    } else {
        lemma_token_word(a, t1, t2);
    }
}

proof fn lemma_comment_in_blank_step(a: Seq<char>, b1: Seq<char>, b2: Seq<char>, c: Seq<char>)
    requires
        a.len() > 0,
        a[0] == '#',
        span(a.drop_first(), line_class()) < a.drop_first().len(),
        all_blank(b1),
        all_blank(b2),
        (b1.len() > 0 && b2.len() > 0) || c.len() == 0,
    ensures
        lex_agrees(a, b1, b2, c),
    decreases a.len(), 0nat,
{
    let t1 = b1 + c;
    let t2 = b2 + c;
    assert(a + b1 + c =~= a + t1);
    assert(a + b2 + c =~= a + t2);
    lemma_token_comment_in(a, t1);
    lemma_token_comment_in(a, t2);
    let m = span(a.drop_first(), line_class()) as int;
    let a2 = a.skip(1 + m);
    assert(a2 + t1 =~= a2 + b1 + c);
    assert(a2 + t2 =~= a2 + b2 + c);
    lemma_lex_blank_step(a2, b1, b2, c);
    let n1 = lex(a2 + b1 + c).1;
    let n2 = lex(a2 + b2 + c).1;
    lemma_lex_progress(a2 + b1 + c);
    lemma_lex_progress(a2 + b2 + c);
    assert((a + t1).skip(1 + m + n1) =~= (a2 + b1 + c).skip(n1));
    assert((a + t2).skip(1 + m + n2) =~= (a2 + b2 + c).skip(n2));
}

proof fn lemma_comment_out_blank_step(a: Seq<char>, b1: Seq<char>, b2: Seq<char>, c: Seq<char>)
    requires
        a.len() > 0,
        a[0] == '#',
        span(a.drop_first(), line_class()) == a.drop_first().len(),
        all_blank(b1),
        all_blank(b2),
    ensures
        lex_agrees(a, b1, b2, c),
{
    lemma_token_comment_out(a, b1, c);
    lemma_token_comment_out(a, b2, c);
    let j = span(c, line_class()) as int;
    let n = lex(c.skip(j)).1;
    lemma_lex_progress(c.skip(j));
    lemma_span(c, line_class());
    assert((a + b1 + c).skip(a.len() + b1.len() + j + n) =~= c.skip(j).skip(n));
    assert((a + b2 + c).skip(a.len() + b2.len() + j + n) =~= c.skip(j).skip(n));
}

proof fn lemma_lex_all_blank_run(a: Seq<char>, b1: Seq<char>, b2: Seq<char>, c: Seq<char>)
    requires
        all_blank(b1),
        all_blank(b2),
        (b1.len() > 0 && b2.len() > 0) || c.len() == 0 || all_blank(a),
    ensures
        lex_all(a + b1 + c) == lex_all(a + b2 + c),
    decreases a.len(),
{
    let s1 = a + b1 + c;
    let s2 = a + b2 + c;
    lemma_lex_blank_step(a, b1, b2, c);
    if lex(s1).0 != TokenV::EOF {
        lemma_lex_progress(s1);
        lemma_lex_progress(s2);
        let n1 = lex(s1).1;
        let n2 = lex(s2).1;
        if s1.skip(n1) != s2.skip(n2) {
            let a2 = a.skip(n1);
            assert(s1.skip(n1) =~= a2 + b1 + c);
            assert(s2.skip(n2) =~= a2 + b2 + c);
            if all_blank(a) {
                assert forall|i: int| 0 <= i < a2.len() implies #[trigger] is_blank(a2[i]) by {
                    assert(a2[i] == a[n1 + i]);
                }
            }
            lemma_lex_all_blank_run(a2, b1, b2, c);
        }
    }
}

/// Replacing one run of blanks (whitespace other than newlines) by another leaves the
/// tokens unchanged.
pub proof fn lemma_tokens_ignore_blank_runs(a: Seq<char>, b1: Seq<char>, b2: Seq<char>, c: Seq<char>)
    requires
        all_blank(b1),
        all_blank(b2),
        b1.len() > 0,
        b2.len() > 0,
    ensures
        lex_all(a + b1 + c) == lex_all(a + b2 + c),
{
    lemma_lex_all_blank_run(a, b1, b2, c);
}

/// Blanks added at the start or at the end leave the tokens unchanged.
pub proof fn lemma_tokens_ignore_outer_blanks(b: Seq<char>, s: Seq<char>)
    requires
        all_blank(b),
    ensures
        lex_all(b + s) == lex_all(s),
        lex_all(s + b) == lex_all(s),
{
    let e = Seq::<char>::empty();
    lemma_lex_all_blank_run(e, b, e, s);
    assert(e + b + s =~= b + s);
    assert(e + e + s =~= s);
    lemma_lex_all_blank_run(s, b, e, e);
    assert(s + b + e =~= s + b);
    assert(s + e + e =~= s);
}

/// A lexer over any character source, with one character of lookahead.
#[derive(Clone)]
pub struct Lexer<S: CharSource> {
    input: S,
    peeked: Option<char>,
}

impl<S: CharSource> Lexer<S> {
    /// The characters the lexer has yet to consume.
    pub closed spec fn pending(&self) -> Seq<char> {
        match self.peeked {
            Some(c) => seq![c] + self.input.remaining(),
            None => self.input.remaining(),
        }
    }

    /// The source the lexer reads from.
    pub closed spec fn source(&self) -> S {
        self.input
    }

    /// The character the lexer has taken from its source and not yet used, if any.
    pub closed spec fn lookahead(&self) -> Option<char> {
        self.peeked
    }

    /// A lexer that reads `input` from its start. Building it reads no character: the
    /// source is `input` as it was given, and nothing is held ahead.
    pub fn new(input: S) -> (r: Self)
        ensures
            r.source() == input,
            r.lookahead() is None,
            r.pending() == input.remaining(),
    {
        Lexer { input, peeked: None }
    }

    fn peek(&mut self) -> (r: Option<char>)
        ensures
            final(self).pending() == old(self).pending(),
            old(self).pending().len() > 0 ==> r == Some(old(self).pending()[0]),
            old(self).pending().len() == 0 ==> r is None,
    {
        if self.peeked.is_none() {
            self.peeked = self.input.next_char();
            proof {
                if self.peeked is Some {
                    assert(self.pending() =~= old(self).pending());
                }
            }
        }
        self.peeked
    }

    fn bump(&mut self) -> (r: Option<char>)
        ensures
            old(self).pending().len() > 0 ==> r == Some(old(self).pending()[0])
                && final(self).pending() == old(self).pending().drop_first(),
            old(self).pending().len() == 0 ==> r is None && final(self).pending()
                == old(self).pending(),
    {
        match self.peeked {
            Some(c) => {
                self.peeked = None;
                assert(old(self).pending().drop_first() =~= self.pending());
                Some(c)
            },
            None => self.input.next_char(),
        }
    }

    /// Consumes the blanks at the front of the input.
    fn skip_while_blank(&mut self)
        ensures
            final(self).pending() == old(self).pending().skip(
                span(old(self).pending(), blank_class()) as int,
            ),
    {
        let ghost p = self.pending();
        let ghost mut j: int = 0;
        loop
            invariant
                p == old(self).pending(),
                0 <= j <= p.len(),
                self.pending() == p.skip(j),
                forall|i: int| 0 <= i < j ==> #[trigger] blank_class()(p[i]),
            decreases p.len() - j,
        {
            let c = self.peek();
            match c {
                Some(c) => {
                    if char_is_space(c) && c != '\n' {
                        self.bump();
                        proof {
                            assert(p.skip(j).drop_first() =~= p.skip(j + 1));
                            j = j + 1;
                        }
                    } else {
                        proof {
                            lemma_span_unique(p, blank_class(), j);
                        }
                        return;
                    }
                },
                None => {
                    proof {
                        lemma_span_unique(p, blank_class(), j);
                    }
                    return;
                },
            }
        }
    }

    /// Consumes the rest of a comment line, up to (not including) its newline.
    fn skip_line(&mut self)
        ensures
            final(self).pending() == old(self).pending().skip(
                span(old(self).pending(), line_class()) as int,
            ),
    {
        let ghost p = self.pending();
        let ghost mut j: int = 0;
        loop
            invariant
                p == old(self).pending(),
                0 <= j <= p.len(),
                self.pending() == p.skip(j),
                forall|i: int| 0 <= i < j ==> #[trigger] line_class()(p[i]),
            decreases p.len() - j,
        {
            let c = self.peek();
            match c {
                Some(c) => {
                    if c != '\n' {
                        self.bump();
                        proof {
                            assert(p.skip(j).drop_first() =~= p.skip(j + 1));
                            j = j + 1;
                        }
                    } else {
                        proof {
                            lemma_span_unique(p, line_class(), j);
                        }
                        return;
                    }
                },
                None => {
                    proof {
                        lemma_span_unique(p, line_class(), j);
                    }
                    return;
                },
            }
        }
    }

    /// Reads the rest of a word whose first character `first` was just consumed.
    fn read_word(&mut self, first: char) -> (w: Vec<char>)
        ensures
            w@ == seq![first] + old(self).pending().take(
                span(old(self).pending(), word_class()) as int,
            ),
            final(self).pending() == old(self).pending().skip(
                span(old(self).pending(), word_class()) as int,
            ),
    {
        let ghost p = self.pending();
        let mut word: Vec<char> = Vec::new();
        word.push(first);
        let ghost mut j: int = 0;
        loop
            invariant
                p == old(self).pending(),
                0 <= j <= p.len(),
                self.pending() == p.skip(j),
                word@ == seq![first] + p.take(j),
                forall|i: int| 0 <= i < j ==> #[trigger] word_class()(p[i]),
            decreases p.len() - j,
        {
            let c = self.peek();
            match c {
                Some(c) => {
                    if !char_is_space(c) && !is_operator(c) {
                        word.push(c);
                        self.bump();
                        proof {
                            assert(p.skip(j).drop_first() =~= p.skip(j + 1));
                            assert(p.take(j + 1) =~= p.take(j).push(c));
                            j = j + 1;
                        }
                    } else {
                        proof {
                            lemma_span_unique(p, word_class(), j);
                        }
                        return word;
                    }
                },
                None => {
                    proof {
                        lemma_span_unique(p, word_class(), j);
                    }
                    return word;
                },
            }
        }
    }

    /// Reads the next token. At the end of the input it returns `EOF`, and keeps
    /// returning it.
    pub fn next_token(&mut self) -> (t: Token)
        ensures
            t@ == lex(old(self).pending()).0,
            final(self).pending() == old(self).pending().skip(lex(old(self).pending()).1),
    {
        let ghost p0 = self.pending();
        let ghost mut consumed: int = 0;
        loop
            invariant
                p0 == old(self).pending(),
                0 <= consumed <= p0.len(),
                self.pending() == p0.skip(consumed),
                lex(p0).0 == lex(self.pending()).0,
                lex(p0).1 == consumed + lex(self.pending()).1,
            decreases p0.len() - consumed,
        {
            let ghost s = self.pending();
            proof {
                lemma_span(s, blank_class());
            }
            let ghost k = span(s, blank_class()) as int;
            self.skip_while_blank();
            let ghost r = self.pending();
            assert(r == s.skip(k));
            let c = self.bump();
            match c {
                None => {
                    assert(lex(s) == (TokenV::EOF, k));
                    proof {
                        assert(p0.skip(consumed).skip(k as int) =~= p0.skip(consumed + k));
                    }
                    return Token::EOF;
                },
                Some(c) => {
                    proof {
                        assert(r.drop_first() =~= s.skip(k + 1));
                        assert(p0.skip(consumed).skip(k + 1) =~= p0.skip(consumed + k + 1));
                    }
                    if c == '\n' {
                        return Token::NewLine;
                    } else if c == ';' {
                        return Token::Semi;
                    } else if c == '|' {
                        return Token::Pipe;
                    } else if c == '&' {
                        return Token::And;
                    } else if c == '<' {
                        let d = self.peek();
                        proof {
                            if r.len() > 1 {
                                assert(r.drop_first().drop_first() =~= s.skip(k + 2));
                                assert(p0.skip(consumed).skip(k + 2) =~= p0.skip(
                                    consumed + k + 2,
                                ));
                            }
                        }
                        if d == Some('<') {
                            self.bump();
                            return Token::DLess;
                        } else if d == Some('&') {
                            self.bump();
                            return Token::LessAnd;
                        } else if d == Some('>') {
                            self.bump();
                            return Token::LessGreat;
                        } else {
                            return Token::Less;
                        }
                    } else if c == '>' {
                        let d = self.peek();
                        proof {
                            if r.len() > 1 {
                                assert(r.drop_first().drop_first() =~= s.skip(k + 2));
                                assert(p0.skip(consumed).skip(k + 2) =~= p0.skip(
                                    consumed + k + 2,
                                ));
                            }
                        }
                        if d == Some('>') {
                            self.bump();
                            return Token::DGreat;
                        } else if d == Some('&') {
                            self.bump();
                            return Token::GreatAnd;
                        } else if d == Some('|') {
                            self.bump();
                            return Token::CLobber;
                        } else {
                            return Token::Great;
                        }
                    } else if c == '#' {
                        let ghost q = self.pending();
                        proof {
                            lemma_span(q, line_class());
                        }
                        self.skip_line();
                        proof {
                            let m = span(q, line_class()) as int;
                            assert(q == r.drop_first());
                            assert(r.skip(1 + m) =~= self.pending());
                            assert(s.skip(k + 1 + m) =~= self.pending());
                            assert(p0.skip(consumed).skip(k + 1 + m) =~= p0.skip(
                                consumed + k + 1 + m,
                            ));
                            consumed = consumed + k + 1 + m;
                        }
                    } else {
                        let w = self.read_word(c);
                        let ghost q = r.drop_first();
                        proof {
                            lemma_span(q, word_class());
                            let n = span(q, word_class()) as int;
                            assert(w@ =~= r.take(1 + n));
                            assert(q.skip(n) =~= r.skip(1 + n));
                            assert(s.skip(k + 1 + n) =~= r.skip(1 + n));
                            assert(p0.skip(consumed).skip(k + 1 + n) =~= p0.skip(
                                consumed + k + 1 + n,
                            ));
                        }
                        let next = self.peek();
                        return word_to_token(&w, next);
                    }
                },
            }
        }
    }
}

/// Whether `c` ends a word.
pub fn is_operator(c: char) -> (r: bool)
    ensures
        r == is_operator_char(c),
{
    c == '&' || c == '|' || c == ';' || c == '<' || c == '>' || c == '(' || c == ')' || c == '{'
        || c == '}'
}

fn is_all_digits(w: &Vec<char>) -> (r: bool)
    ensures
        r == all_digits(w@),
{
    let mut i: usize = 0;
    while i < w.len()
        invariant
            i <= w.len(),
            forall|j: int| 0 <= j < i ==> #[trigger] is_digit_char(w@[j]),
        decreases w.len() - i,
    {
        if !('0' <= w[i] && w[i] <= '9') {
            assert(!is_digit_char(w@[i as int]));
            return false;
        }
        i = i + 1;
    }
    true
}

fn matches_chars(w: &Vec<char>, lit: &[char]) -> (r: bool)
    ensures
        r == (w@ == lit@),
{
    if w.len() != lit.len() {
        return false;
    }
    let mut i: usize = 0;
    while i < w.len()
        invariant
            i <= w.len(),
            w.len() == lit.len(),
            forall|j: int| 0 <= j < i ==> w@[j] == lit@[j],
        decreases w.len() - i,
    {
        if w[i] != lit[i] {
            return false;
        }
        i = i + 1;
    }
    assert(w@ =~= lit@);
    true
}

/// The token for the word `w` followed by `next`.
fn word_to_token(w: &Vec<char>, next: Option<char>) -> (t: Token)
    ensures
        t@ == word_token(w@, next),
{
    if matches_chars(w, &['i', 'f']) {
        assert(w@ == seq!['i', 'f']);
        Token::If
    } else if matches_chars(w, &['t', 'h', 'e', 'n']) {
        assert(w@ == seq!['t', 'h', 'e', 'n']);
        Token::Then
    } else if matches_chars(w, &['e', 'l', 's', 'e']) {
        assert(w@ == seq!['e', 'l', 's', 'e']);
        Token::Else
    } else if matches_chars(w, &['e', 'l', 'i', 'f']) {
        assert(w@ == seq!['e', 'l', 'i', 'f']);
        Token::Elif
    } else if matches_chars(w, &['f', 'i']) {
        assert(w@ == seq!['f', 'i']);
        Token::Fi
    } else if is_all_digits(w) && (next == Some('<') || next == Some('>')) {
        Token::IoNumber(string_from_chars(w))
    } else {
        Token::Word(string_from_chars(w))
    }
}

impl Lexer<CharStream> {
    /// Adds `text` to the input, after what the lexer has yet to consume.
    pub fn feed(&mut self, text: &str)
        ensures
            final(self).pending() == old(self).pending() + text@,
    {
        self.input.push_str(text);
        proof {
            if self.peeked is Some {
                assert(self.pending() =~= old(self).pending() + text@);
            }
        }
    }
}

} // verus!
