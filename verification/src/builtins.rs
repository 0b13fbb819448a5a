//! The builtin commands. Each computes what the shell must do (what to write, which
//! directory to enter, which variables to set, which status to return); the shell
//! itself does the input and output.
use vstd::prelude::*;
use crate::ast::strings_view;
use crate::text::{
    decimal_text, lemma_parse_decimal, chars_of, str_contains_char, string_from_chars, lemma_span, lemma_span_unique, parse_i32, parse_i32_spec, push_char, span,
};

verus! {

/// The builtin commands.
#[derive(Debug, Clone, Copy, PartialEq, Eq)]
pub enum Builtin {
    Cd,
    Echo,
    Exit,
    Pwd,
    True,
    False,
    Export,
    Alias,
    Unalias,
    Type,
}

/// The builtin named `name`, if there is one.
pub open spec fn builtin_named(name: Seq<char>) -> Option<Builtin> {
    if name == seq!['c', 'd'] {
        Some(Builtin::Cd)
    } else if name == seq!['e', 'c', 'h', 'o'] {
        Some(Builtin::Echo)
    } else if name == seq!['e', 'x', 'i', 't'] {
        Some(Builtin::Exit)
    } else if name == seq!['p', 'w', 'd'] {
        Some(Builtin::Pwd)
    } else if name == seq!['t', 'r', 'u', 'e'] {
        Some(Builtin::True)
    } else if name == seq!['f', 'a', 'l', 's', 'e'] {
        Some(Builtin::False)
    } else if name == seq!['e', 'x', 'p', 'o', 'r', 't'] {
        Some(Builtin::Export)
    } else if name == seq!['a', 'l', 'i', 'a', 's'] {
        Some(Builtin::Alias)
    } else if name == seq!['u', 'n', 'a', 'l', 'i', 'a', 's'] {
        Some(Builtin::Unalias)
    } else if name == seq!['t', 'y', 'p', 'e'] {
        Some(Builtin::Type)
    } else {
        None
    }
}

/// The name each builtin is called by.
pub open spec fn builtin_name(b: Builtin) -> Seq<char> {
    match b {
        Builtin::Cd => seq!['c', 'd'],
        Builtin::Echo => seq!['e', 'c', 'h', 'o'],
        Builtin::Exit => seq!['e', 'x', 'i', 't'],
        Builtin::Pwd => seq!['p', 'w', 'd'],
        Builtin::True => seq!['t', 'r', 'u', 'e'],
        Builtin::False => seq!['f', 'a', 'l', 's', 'e'],
        Builtin::Export => seq!['e', 'x', 'p', 'o', 'r', 't'],
        Builtin::Alias => seq!['a', 'l', 'i', 'a', 's'],
        Builtin::Unalias => seq!['u', 'n', 'a', 'l', 'i', 'a', 's'],
        Builtin::Type => seq!['t', 'y', 'p', 'e'],
    }
}

/// A name finds the builtin called by it, and only that one: each builtin is found by
/// its own name, and a name that finds a builtin is that builtin's name.
pub proof fn lemma_builtin_named(name: Seq<char>, b: Builtin)
    ensures
        builtin_named(builtin_name(b)) == Some(b),
        builtin_named(name) == Some(b) ==> name == builtin_name(b),
{
    let n = builtin_name(b);
    assert(n[0] == builtin_name(b)[0]);
    if n.len() > 1 {
        assert(n[1] == builtin_name(b)[1]);
    }
}

fn chars_equal(w: &Vec<char>, lit: &[char]) -> (r: bool)
    ensures
        r == (w@ == lit@),
{
    if w.len() != lit.len() {
        return false;
    }
    let mut i: usize = 0;
    while i < w.len()
        invariant
            i <= w.len(),
            w.len() == lit.len(),
            forall|j: int| 0 <= j < i ==> w@[j] == lit@[j],
        decreases w.len() - i,
    {
        if w[i] != lit[i] {
            return false;
        }
        i = i + 1;
    }
    assert(w@ =~= lit@);
    true
}

/// Finds the builtin named `name`.
pub fn find_builtin(name: &str) -> (r: Option<Builtin>)
    ensures
        r == builtin_named(name@),
{
    let w = chars_of(name);
    if chars_equal(&w, &['c', 'd']) {
        Some(Builtin::Cd)
    } else if chars_equal(&w, &['e', 'c', 'h', 'o']) {
        Some(Builtin::Echo)
    } else if chars_equal(&w, &['e', 'x', 'i', 't']) {
        Some(Builtin::Exit)
    } else if chars_equal(&w, &['p', 'w', 'd']) {
        Some(Builtin::Pwd)
    } else if chars_equal(&w, &['t', 'r', 'u', 'e']) {
        Some(Builtin::True)
    } else if chars_equal(&w, &['f', 'a', 'l', 's', 'e']) {
        Some(Builtin::False)
    } else if chars_equal(&w, &['e', 'x', 'p', 'o', 'r', 't']) {
        Some(Builtin::Export)
    } else if chars_equal(&w, &['a', 'l', 'i', 'a', 's']) {
        Some(Builtin::Alias)
    } else if chars_equal(&w, &['u', 'n', 'a', 'l', 'i', 'a', 's']) {
        Some(Builtin::Unalias)
    } else if chars_equal(&w, &['t', 'y', 'p', 'e']) {
        Some(Builtin::Type)
    } else {
        None
    }
}

/// The words `ws` joined with the separator `sep` between them.
pub open spec fn join(ws: Seq<Seq<char>>, sep: Seq<char>) -> Seq<char>
    decreases ws.len(),
{
    if ws.len() == 0 {
        Seq::empty()
    } else if ws.len() == 1 {
        ws[0]
    } else {
        join(ws.drop_last(), sep) + sep + ws.last()
    }
}

/// Whether `echo` was asked, by a first argument `-n`, not to end with a newline.
pub open spec fn echo_no_newline(args: Seq<Seq<char>>) -> bool {
    args.len() > 0 && args[0] == seq!['-', 'n']
}

/// What `echo` writes: its arguments (after a leading `-n`) separated by spaces, and a
/// newline unless `-n` was given.
pub open spec fn echo_output(args: Seq<Seq<char>>) -> Seq<char> {
    if echo_no_newline(args) {
        join(args.drop_first(), seq![' '])
    } else {
        join(args, seq![' ']) + seq!['\n']
    }
}

/// The total length of the words `ws`.
pub open spec fn total_len(ws: Seq<Seq<char>>) -> nat
    decreases ws.len(),
{
    if ws.len() == 0 {
        0
    } else {
        total_len(ws.drop_last()) + ws.last().len()
    }
}

/// Joining no words gives nothing, one word gives that word, and one more word after
/// some adds exactly one separator and the word.
pub proof fn lemma_join_push(ws: Seq<Seq<char>>, w: Seq<char>, sep: Seq<char>)
    ensures
        join(Seq::empty(), sep) == Seq::<char>::empty(),
        join(seq![w], sep) == w,
        ws.len() > 0 ==> join(ws.push(w), sep) == join(ws, sep) + sep + w,
{
    assert(ws.push(w).drop_last() =~= ws);
    assert(ws.push(w).last() == w);
}

/// Joining two nonempty lists of words one after the other is joining each, with one
/// separator between them.
pub proof fn lemma_join_concat(ws1: Seq<Seq<char>>, ws2: Seq<Seq<char>>, sep: Seq<char>)
    requires
        ws1.len() > 0,
        ws2.len() > 0,
    ensures
        join(ws1 + ws2, sep) == join(ws1, sep) + sep + join(ws2, sep),
    decreases ws2.len(),
{
    if ws2.len() == 1 {
        assert(ws1 + ws2 =~= ws1.push(ws2[0]));
        lemma_join_push(ws1, ws2[0], sep);
    } else {
        let init = ws2.drop_last();
        assert(ws1 + ws2 =~= (ws1 + init).push(ws2.last()));
        lemma_join_push(ws1 + init, ws2.last(), sep);
        lemma_join_concat(ws1, init, sep);
        assert(join(ws1, sep) + sep + join(init, sep) + sep + ws2.last() =~= join(ws1, sep) + sep
            + (join(init, sep) + sep + ws2.last()));
    }
}

/// The joined text is as long as the words together, plus one separator between each
/// two of them.
pub proof fn lemma_join_len(ws: Seq<Seq<char>>, sep: Seq<char>)
    requires
        ws.len() > 0,
    ensures
        join(ws, sep).len() == total_len(ws) + (ws.len() - 1) * sep.len(),
    decreases ws.len(),
{
    let n = ws.len() as int;
    let l = sep.len() as int;
    if ws.len() > 1 {
        lemma_join_len(ws.drop_last(), sep);
        assert((n - 2) * l + l == (n - 1) * l) by (nonlinear_arith);
    } else {
        assert(ws.drop_last().len() == 0);
        assert(total_len(ws.drop_last()) == 0);
        assert(ws.last() == ws[0]);
        assert((n - 1) * l == 0) by (nonlinear_arith)
            requires
                n == 1,
        ;
    }
}

/// Without `-n`, `echo` writes its arguments with one space between each two, then a
/// newline: one more argument goes after a space, before the newline, and the output
/// is as long as the arguments together, plus one character per argument (a space
/// or the final newline).
pub proof fn lemma_echo_output(args: Seq<Seq<char>>, w: Seq<char>)
    requires
        !echo_no_newline(args),
    ensures
        echo_output(args).last() == '\n',
        args.len() > 0 ==> echo_output(args).len() == total_len(args) + args.len(),
        args.len() > 0 ==> echo_output(args.push(w)) == echo_output(args).drop_last() + seq![' ']
            + w + seq!['\n'],
{
    let sp = seq![' '];
    if args.len() > 0 {
        lemma_join_len(args, sp);
        assert(sp.len() == 1);
        assert((args.len() - 1) * 1 == args.len() - 1);
        assert(args.push(w)[0] == args[0]);
        assert(!echo_no_newline(args.push(w)));
        lemma_join_push(args, w, sp);
        assert((join(args, sp) + seq!['\n']).drop_last() =~= join(args, sp));
    }
}

/// The exit code `exit` asks for: its first argument as an `i32`, or 0.
pub open spec fn exit_code(args: Seq<Seq<char>>) -> i32 {
    if args.len() > 0 {
        match parse_i32_spec(args[0]) {
            Some(c) => c,
            None => 0,
        }
    } else {
        0
    }
}

/// A leading `-n` makes `echo` write the same as without it, less the final newline.
pub proof fn lemma_echo_no_newline(args: Seq<Seq<char>>)
    requires
        !echo_no_newline(args),
    ensures
        echo_output(seq![seq!['-', 'n']] + args) + seq!['\n'] == echo_output(args),
{
    let a = seq![seq!['-', 'n']] + args;
    assert(a[0] == seq!['-', 'n']);
    assert(a.drop_first() =~= args);
}

/// `exit` leaves with the number its first argument writes (in decimal, maybe signed),
/// and with 0 when there is no argument or it is no such number.
pub proof fn lemma_exit_code(n: nat, rest: Seq<Seq<char>>, w: Seq<char>)
    ensures
        exit_code(Seq::empty()) == 0,
        n <= i32::MAX ==> exit_code(seq![decimal_text(n)] + rest) == n as i32,
        n <= 0x8000_0000 ==> exit_code(seq![seq!['-'] + decimal_text(n)] + rest) == (0 - n) as i32,
        parse_i32_spec(w) is None ==> exit_code(seq![w] + rest) == 0,
{
    lemma_parse_decimal(n);
    assert((seq![decimal_text(n)] + rest)[0] == decimal_text(n));
    assert((seq![seq!['-'] + decimal_text(n)] + rest)[0] == seq!['-'] + decimal_text(n));
    assert((seq![w] + rest)[0] == w);
}

/// The directory `cd` enters: its first argument, or the home directory (`/` when
/// there is none) when that is missing or empty.
pub open spec fn cd_target(args: Seq<Seq<char>>, home: Option<Seq<char>>) -> Seq<char> {
    let path = if args.len() > 0 {
        args[0]
    } else {
        Seq::empty()
    };
    if path.len() == 0 {
        match home {
            Some(h) => h,
            None => seq!['/'],
        }
    } else {
        path
    }
}

pub open spec fn not_equals_sign() -> spec_fn(char) -> bool {
    |c: char| c != '='
}

/// A word `key=value` split at its first `=`.
pub open spec fn split_assignment(w: Seq<char>) -> Option<(Seq<char>, Seq<char>)> {
    let k = span(w, not_equals_sign()) as int;
    if k < w.len() {
        Some((w.take(k), w.skip(k + 1)))
    } else {
        None
    }
}

/// Splitting at the first `=`: the name holds no `=`, and the name, `=` and the
/// value give the word back; a word without `=` is not split.
pub proof fn lemma_split_assignment(w: Seq<char>)
    ensures
        split_assignment(w) matches Some((k, v)) ==> !k.contains('=') && k + seq!['='] + v == w,
        split_assignment(w) is None <==> !w.contains('='),
{
    lemma_span(w, not_equals_sign());
    let k = span(w, not_equals_sign()) as int;
    if k < w.len() {
        let key = w.take(k);
        assert(key + seq!['='] + w.skip(k + 1) =~= w);
        assert forall|i: int| 0 <= i < key.len() implies key[i] != '=' by {
            assert(not_equals_sign()(w[i]));
        }
        assert(w.contains('=')) by {
            assert(w[k] == '=');
        }
    } else {
        assert forall|i: int| 0 <= i < w.len() implies w[i] != '=' by {
            assert(not_equals_sign()(w[i]));
        }
    }
}

/// The variables `export` sets: each argument with an `=`, split at its first `=`,
/// in order.
pub open spec fn export_pairs(args: Seq<Seq<char>>) -> Seq<(Seq<char>, Seq<char>)>
    decreases args.len(),
{
    if args.len() == 0 {
        Seq::empty()
    } else {
        let rest = export_pairs(args.drop_last());
        match split_assignment(args.last()) {
            Some(p) => rest.push(p),
            None => rest,
        }
    }
}

/// `export` handles its arguments one by one and independently: the variables set by
/// two runs of arguments, one after the other, are those of each run, in order; an
/// argument with `=` sets one variable, one without sets none.
pub proof fn lemma_export_pairs(a1: Seq<Seq<char>>, a2: Seq<Seq<char>>, w: Seq<char>)
    ensures
        export_pairs(a1 + a2) == export_pairs(a1) + export_pairs(a2),
        w.contains('=') ==> export_pairs(seq![w]) == seq![split_assignment(w)->Some_0],
        !w.contains('=') ==> export_pairs(seq![w]) == Seq::<(Seq<char>, Seq<char>)>::empty(),
    decreases a2.len(),
{
    lemma_split_assignment(w);
    assert(seq![w].drop_last() =~= Seq::<Seq<char>>::empty());
    assert(seq![w].last() == w);
    assert(export_pairs(Seq::<Seq<char>>::empty()) =~= Seq::<(Seq<char>, Seq<char>)>::empty());
    if let Some(p) = split_assignment(w) {
        assert(Seq::<(Seq<char>, Seq<char>)>::empty().push(p) =~= seq![p]);
    }
    if a2.len() == 0 {
        assert(a1 + a2 =~= a1);
        assert(export_pairs(a2) =~= Seq::<(Seq<char>, Seq<char>)>::empty());
        assert(export_pairs(a1) + export_pairs(a2) =~= export_pairs(a1));
    } else {
        let init = a2.drop_last();
        lemma_export_pairs(a1, init, w);
        assert((a1 + a2).drop_last() =~= a1 + init);
        assert((a1 + a2).last() == a2.last());
        match split_assignment(a2.last()) {
            Some(p) => {
                assert(export_pairs(a1) + export_pairs(init).push(p) =~= (export_pairs(a1)
                    + export_pairs(init)).push(p));
            },
            None => {},
        }
    }
}

/// `cd` enters its first argument when it is not empty; else the home directory, and
/// `/` when there is none.
pub proof fn lemma_cd_target(args: Seq<Seq<char>>, home: Option<Seq<char>>)
    ensures
        args.len() > 0 && args[0].len() > 0 ==> cd_target(args, home) == args[0],
        !(args.len() > 0 && args[0].len() > 0) && home is Some ==> cd_target(args, home)
            == home->Some_0,
        !(args.len() > 0 && args[0].len() > 0) && home is None ==> cd_target(args, home)
            == seq!['/'],
{
}

/// The line `type` writes for `arg`, given where the executable of that name was
/// found (if anywhere).
pub open spec fn type_line(arg: Seq<char>, found: Option<Seq<char>>) -> Seq<char> {
    if builtin_named(arg) is Some {
        arg + " is a shell builtin\n"@
    } else {
        match found {
            Some(p) => arg + " is "@ + p + "\n"@,
            None => "42sh: type: "@ + arg + ": not found\n"@,
        }
    }
}

/// `type` writes the builtin line for an argument exactly when the argument names a
/// builtin (the builtin the executor would run), except where a program found for it
/// has the path `a shell builtin`, whose line reads the same.
pub proof fn lemma_type_line_builtin(arg: Seq<char>, found: Option<Seq<char>>)
    requires
        found != Some("a shell builtin"@),
    ensures
        (type_line(arg, found) == arg + " is a shell builtin\n"@) <==> builtin_named(arg) is Some,
{
    reveal_strlit(" is a shell builtin\n");
    reveal_strlit(" is ");
    reveal_strlit("\n");
    reveal_strlit("a shell builtin");
    reveal_strlit("42sh: type: ");
    reveal_strlit(": not found\n");
    assert(" is a shell builtin\n"@.len() == 20);
    assert(" is "@.len() == 4);
    assert("\n"@.len() == 1);
    assert("42sh: type: "@.len() == 12);
    assert(": not found\n"@.len() == 12);
    let b = arg + " is a shell builtin\n"@;
    if builtin_named(arg) is None {
        match found {
            Some(p) => {
                let l = arg + " is "@ + p + "\n"@;
                if l == b {
                    let n = arg.len() as int;
                    assert(l.len() == n + 4 + p.len() + 1);
                    assert(b.len() == n + 20);
                    assert(p.len() == 15);
                    assert forall|i: int| 0 <= i < 15 implies p[i] == "a shell builtin"@[i] by {
                        assert(l[n + 4 + i] == p[i]);
                        assert(b[n + 4 + i] == " is a shell builtin\n"@[4 + i]);
                    }
                    assert(p =~= "a shell builtin"@);
                }
            },
            None => {
                let l = "42sh: type: "@ + arg + ": not found\n"@;
                assert(l.len() != b.len());
            },
        }
    }
}

/// Whether `type` found `arg`.
pub open spec fn type_found(arg: Seq<char>, found: Option<Seq<char>>) -> bool {
    builtin_named(arg) is Some || found is Some
}

/// Where the executable for argument `i` was found: `found[i]`, and nowhere when
/// `found` has no entry for it.
pub open spec fn found_at(found: Seq<Option<Seq<char>>>, i: int) -> Option<Seq<char>> {
    if 0 <= i < found.len() {
        found[i]
    } else {
        None
    }
}

/// What `type` writes: one line per argument, in order.
pub open spec fn type_output(args: Seq<Seq<char>>, found: Seq<Option<Seq<char>>>) -> Seq<char>
    decreases args.len(),
{
    if args.len() == 0 {
        Seq::empty()
    } else {
        type_output(args.drop_last(), found) + type_line(
            args.last(),
            found_at(found, args.len() - 1),
        )
    }
}

/// `type` fails (status 1) when some argument was not found.
pub open spec fn type_status(args: Seq<Seq<char>>, found: Seq<Option<Seq<char>>>) -> i32 {
    if forall|i: int| 0 <= i < args.len() ==> #[trigger] type_found(args[i], found_at(found, i)) {
        0
    } else {
        1
    }
}

/// `type` succeeds (status 0) exactly when every argument names a builtin or was found,
/// and fails (status 1) as soon as any one argument, wherever it stands, is neither.
pub proof fn lemma_type_status(args: Seq<Seq<char>>, found: Seq<Option<Seq<char>>>, i: int)
    ensures
        type_status(args, found) == 0 || type_status(args, found) == 1,
        (type_status(args, found) == 0) <==> (forall|j: int|
            0 <= j < args.len() ==> builtin_named(args[j]) is Some || #[trigger] found_at(
                found,
                j,
            ) is Some),
        0 <= i < args.len() && builtin_named(args[i]) is None && found_at(found, i) is None
            ==> type_status(args, found) == 1,
{
    if 0 <= i < args.len() && builtin_named(args[i]) is None && found_at(found, i) is None {
        assert(!type_found(args[i], found_at(found, i)));
    }
    if type_status(args, found) != 0 {
        let j = choose|j: int|
            0 <= j < args.len() && !#[trigger] type_found(args[j], found_at(found, j));
        assert(!(builtin_named(args[j]) is Some || found_at(found, j) is Some));
    } else {
        assert forall|j: int| 0 <= j < args.len() implies builtin_named(args[j]) is Some
            || #[trigger] found_at(found, j) is Some by {
            assert(type_found(args[j], found_at(found, j)));
        }
    }
}

/// `type` writes one line per argument, in order: a builtin is reported as such, a
/// program found on the path by where it was found, and anything else as not found.
pub proof fn lemma_type_output(
    args: Seq<Seq<char>>,
    a: Seq<char>,
    found: Seq<Option<Seq<char>>>,
)
    ensures
        type_output(Seq::empty(), found) == Seq::<char>::empty(),
        type_output(args.push(a), found) == type_output(args, found) + type_line(
            a,
            found_at(found, args.len() as int),
        ),
        builtin_named(a) is Some ==> type_line(a, found_at(found, args.len() as int)) == a
            + " is a shell builtin\n"@,
        builtin_named(a) is None && found_at(found, args.len() as int) is Some ==> type_line(
            a,
            found_at(found, args.len() as int),
        ) == a + " is "@ + found_at(found, args.len() as int)->Some_0 + "\n"@,
        builtin_named(a) is None && found_at(found, args.len() as int) is None ==> type_line(
            a,
            found_at(found, args.len() as int),
        ) == "42sh: type: "@ + a + ": not found\n"@,
{
    assert(args.push(a).drop_last() =~= args);
    assert(args.push(a).last() == a);
}

pub open spec fn options_view(v: Seq<Option<String>>) -> Seq<Option<Seq<char>>> {
    v.map_values(
        |o: Option<String>|
            match o {
                Some(s) => Some(s@),
                None => None,
            },
    )
}

pub open spec fn pairs_view(v: Seq<(String, String)>) -> Seq<(Seq<char>, Seq<char>)> {
    v.map_values(|p: (String, String)| (p.0@, p.1@))
}

/// Where `type` looks for an executable called `name`: `name` itself when it holds a
/// `/`, else `name` in each directory of the `PATH` value `path`, in order.
pub open spec fn executable_candidates_spec(name: Seq<char>, path: Seq<char>) -> Seq<Seq<char>> {
    if name.contains('/') {
        seq![name]
    } else {
        split_path(path).map_values(|dir: Seq<char>| join_path(dir, name))
    }
}

pub open spec fn not_colon() -> spec_fn(char) -> bool {
    |c: char| c != ':'
}

/// The pieces of `s` between `:` separators (one piece when there is none).
pub open spec fn split_path(s: Seq<char>) -> Seq<Seq<char>>
    decreases s.len(),
{
    let k = span(s, not_colon()) as int;
    if k >= s.len() {
        seq![s]
    } else {
        proof {
            lemma_span(s, not_colon());
        }
        seq![s.take(k)] + split_path(s.skip(k + 1))
    }
}

/// `Path::new(dir).join(name)` for a `name` without `/`.
pub open spec fn join_path(dir: Seq<char>, name: Seq<char>) -> Seq<char> {
    if dir.len() == 0 {
        name
    } else if dir.last() == '/' {
        dir + name
    } else {
        dir + seq!['/'] + name
    }
}

/// Splitting a `PATH` value at its `:` separators gives back the value when the pieces
/// are joined with `:` again, and no piece holds a `:`.
pub proof fn lemma_split_path(p: Seq<char>)
    ensures
        split_path(p).len() > 0,
        join(split_path(p), seq![':']) == p,
        forall|i: int| 0 <= i < split_path(p).len() ==> !(#[trigger] split_path(p)[i]).contains(
            ':',
        ),
    decreases p.len(),
{
    lemma_span(p, not_colon());
    let k = span(p, not_colon()) as int;
    if k >= p.len() {
        assert forall|j: int| 0 <= j < p.len() implies p[j] != ':' by {
            assert(not_colon()(p[j]));
        }
        lemma_join_push(Seq::empty(), p, seq![':']);
    } else {
        let head = p.take(k);
        let rest = split_path(p.skip(k + 1));
        lemma_split_path(p.skip(k + 1));
        lemma_join_concat(seq![head], rest, seq![':']);
        lemma_join_push(Seq::empty(), head, seq![':']);
        assert(p[k] == ':');
        assert(head + seq![':'] + p.skip(k + 1) =~= p);
        assert forall|j: int| 0 <= j < head.len() implies head[j] != ':' by {
            assert(not_colon()(p[j]));
        }
        assert forall|i: int| 0 <= i < split_path(p).len() implies !(#[trigger] split_path(
            p,
        )[i]).contains(':') by {
            if i > 0 {
                assert(split_path(p)[i] == rest[i - 1]);
            }
        }
    }
}

fn append_chars(out: &mut String, s: &Vec<char>, from: usize, to: usize)
    requires
        from <= to <= s.len(),
    ensures
        final(out)@ == old(out)@ + s@.subrange(from as int, to as int),
{
    let mut i = from;
    while i < to
        invariant
            from <= i <= to <= s.len(),
            out@ == old(out)@ + s@.subrange(from as int, i as int),
        decreases to - i,
    {
        push_char(out, s[i]);
        assert(s@.subrange(from as int, i + 1) =~= s@.subrange(from as int, i as int).push(
            s@[i as int],
        ));
        i = i + 1;
    }
}

/// The builtin `cd`.
pub struct Cd;

impl Cd {
    /// The directory to enter, given the home directory.
    pub fn execute(&self, args: &[String], home: Option<String>) -> (target: String)
        ensures
            target@ == cd_target(
                strings_view(args@),
                match home {
                    Some(h) => Some(h@),
                    None => None,
                },
            ),
    {
        if args.len() > 0 && args[0].as_str().unicode_len() > 0 {
            args[0].clone()
        } else {
            match home {
                Some(h) => h,
                None => {
                    proof {
                        reveal_strlit("/");
                    }
                    String::from_str("/")
                },
            }
        }
    }

    /// The message for a directory that could not be entered.
    pub fn error_message(target: &str, reason: &str) -> (m: String)
        ensures
            m@ == "cd: "@ + target@ + ": "@ + reason@,
    {
        let mut m = String::from_str("cd: ");
        m.append(target);
        m.append(": ");
        m.append(reason);
        m
    }
}

/// The builtin `echo`.
pub struct Echo;

impl Echo {
    /// What `echo` writes.
    pub fn execute(&self, args: &[String]) -> (out: String)
        ensures
            out@ == echo_output(strings_view(args@)),
    {
        let ghost a = strings_view(args@);
        let mut start: usize = 0;
        let mut no_newline = false;
        if args.len() > 0 {
            let first = chars_of(args[0].as_str());
            if chars_equal(&first, &['-', 'n']) {
                no_newline = true;
                start = 1;
            }
        }
        let ghost rest = a.skip(start as int);
        let mut out = String::new();
        let mut i = start;
        while i < args.len()
            invariant
                start <= i <= args.len(),
                a == strings_view(args@),
                start <= 1,
                out@ == join(a.subrange(start as int, i as int), seq![' ']),
            decreases args.len() - i,
        {
            let ghost prev = a.subrange(start as int, i as int);
            if i > start {
                push_char(&mut out, ' ');
            }
            out.append(args[i].as_str());
            proof {
                let next = a.subrange(start as int, i + 1);
                assert(next.drop_last() =~= prev);
                assert(next.last() == args@[i as int]@);
                if i == start {
                    assert(prev.len() == 0);
                    assert(out@ =~= next[0]);
                }
            }
            i = i + 1;
        }
        proof {
            assert(a.subrange(start as int, args.len() as int) =~= if start == 1 {
                a.drop_first()
            } else {
                a
            });
        }
        if !no_newline {
            push_char(&mut out, '\n');
        }
        out
    }
}

/// The builtin `exit`.
pub struct Exit;

impl Exit {
    /// The exit code to leave the shell with.
    pub fn execute(&self, args: &[String]) -> (code: i32)
        ensures
            code == exit_code(strings_view(args@)),
    {
        if args.len() > 0 {
            match parse_i32(args[0].as_str()) {
                Some(c) => c,
                None => 0,
            }
        } else {
            0
        }
    }
}

/// The builtin `pwd`.
pub struct Pwd;

impl Pwd {
    /// What `pwd` writes, given the current directory (or why it is unknown).
    pub fn execute(&self, cwd: Result<String, String>) -> (r: Result<String, String>)
        ensures
            match (cwd, r) {
                (Ok(d), Ok(out)) => out@ == d@ + seq!['\n'],
                (Err(e), Err(m)) => m@ == "pwd: "@ + e@,
                _ => false,
            },
    {
        match cwd {
            Ok(d) => {
                let mut out = d;
                push_char(&mut out, '\n');
                Ok(out)
            },
            Err(e) => {
                let mut m = String::from_str("pwd: ");
                m.append(e.as_str());
                Err(m)
            },
        }
    }
}

/// The builtin `true`.
pub struct True;

impl True {
    pub fn execute(&self) -> (status: i32)
        ensures
            status == 0,
    {
        0
    }
}

/// The builtin `false`.
pub struct False;

impl False {
    pub fn execute(&self) -> (status: i32)
        ensures
            status == 1,
    {
        1
    }
}

/// The builtin `alias` (it accepts anything and does nothing yet).
pub struct Alias;

impl Alias {
    pub fn execute(&self) -> (status: i32)
        ensures
            status == 0,
    {
        0
    }
}

/// The builtin `unalias` (it accepts anything and does nothing yet).
pub struct Unalias;

impl Unalias {
    pub fn execute(&self) -> (status: i32)
        ensures
            status == 0,
    {
        0
    }
}

/// Splits `w` at its first `=`.
fn split_at_equals(w: &String) -> (r: Option<(String, String)>)
    ensures
        match (split_assignment(w@), r) {
            (Some((k, v)), Some((a, b))) => a@ == k && b@ == v,
            (None, None) => true,
            _ => false,
        },
{
    let cs = chars_of(w.as_str());
    let mut i: usize = 0;
    while i < cs.len()
        invariant
            i <= cs.len(),
            cs@ == w@,
            forall|j: int| 0 <= j < i ==> #[trigger] not_equals_sign()(cs@[j]),
        decreases cs.len() - i,
    {
        if cs[i] == '=' {
            proof {
                lemma_span_unique(cs@, not_equals_sign(), i as int);
            }
            let mut key = String::new();
            append_chars(&mut key, &cs, 0, i);
            let mut value = String::new();
            append_chars(&mut value, &cs, i + 1, cs.len());
            assert(cs@.subrange(0, i as int) =~= cs@.take(i as int));
            assert(cs@.subrange(i + 1, cs.len() as int) =~= cs@.skip(i + 1));
            return Some((key, value));
        }
        i = i + 1;
    }
    proof {
        lemma_span_unique(cs@, not_equals_sign(), i as int);
    }
    None
}

/// The builtin `export`.
pub struct Export;

impl Export {
    /// The variables to set, as (name, value) pairs.
    pub fn execute(&self, args: &[String]) -> (vars: Vec<(String, String)>)
        ensures
            pairs_view(vars@) == export_pairs(strings_view(args@)),
    {
        let ghost a = strings_view(args@);
        let mut vars: Vec<(String, String)> = Vec::new();
        let mut i: usize = 0;
        while i < args.len()
            invariant
                i <= args.len(),
                a == strings_view(args@),
                pairs_view(vars@) == export_pairs(a.take(i as int)),
            decreases args.len() - i,
        {
            let ghost before = vars@;
            proof {
                assert(a.take(i + 1).drop_last() =~= a.take(i as int));
                assert(a.take(i + 1).last() == args@[i as int]@);
            }
            match split_at_equals(&args[i]) {
                Some(p) => {
                    vars.push(p);
                    assert(pairs_view(vars@) =~= pairs_view(before).push((p.0@, p.1@)));
                },
                None => {},
            }
            i = i + 1;
        }
        assert(a.take(args.len() as int) =~= a);
        vars
    }
}

/// The builtin `type`.
pub struct Type;

fn append_line(out: &mut String, arg: &String, found: &Option<String>)
    ensures
        final(out)@ == old(out)@ + type_line(
            arg@,
            match found {
                Some(s) => Some(s@),
                None => None,
            },
        ),
{
    if find_builtin(arg.as_str()).is_some() {
        out.append(arg.as_str());
        out.append(" is a shell builtin\n");
    } else {
        match found {
            Some(p) => {
                out.append(arg.as_str());
                out.append(" is ");
                out.append(p.as_str());
                out.append("\n");
            },
            None => {
                out.append("42sh: type: ");
                out.append(arg.as_str());
                out.append(": not found\n");
            },
        }
    }
}

impl Type {
    /// What `type` writes and its status, given for each argument where its executable
    /// was found (when it names no builtin).
    pub fn execute(&self, args: &[String], found: &[Option<String>]) -> (r: (String, i32))
        ensures
            r.0@ == type_output(strings_view(args@), options_view(found@)),
            r.1 == type_status(strings_view(args@), options_view(found@)),
    {
        let ghost a = strings_view(args@);
        let ghost f = options_view(found@);
        let none: Option<String> = None;
        let mut out = String::new();
        let mut status: i32 = 0;
        let mut i: usize = 0;
        while i < args.len()
            invariant
                i <= args.len(),
                a == strings_view(args@),
                f == options_view(found@),
                none is None,
                out@ == type_output(a.take(i as int), f),
                status == 0 <==> forall|j: int|
                    0 <= j < i ==> #[trigger] type_found(a[j], found_at(f, j)),
                status == 0 || status == 1,
            decreases args.len() - i,
        {
            proof {
                assert(a.take(i + 1).drop_last() =~= a.take(i as int));
                assert(a.take(i + 1).last() == a[i as int]);
            }
            let here = if i < found.len() {
                &found[i]
            } else {
                &none
            };
            assert(found_at(f, i as int) == match here {
                Some(p) => Some(p@),
                None => None::<Seq<char>>,
            });
            append_line(&mut out, &args[i], here);
            let builtin = find_builtin(args[i].as_str()).is_some();
            assert(type_found(a[i as int], found_at(f, i as int)) == (builtin || here.is_some()));
            if !builtin && here.is_none() {
                status = 1;
            }
            proof {
                if status == 0 {
                    assert forall|j: int| 0 <= j < i + 1 implies #[trigger] type_found(
                        a[j],
                        found_at(f, j),
                    ) by {
                        if j == i {
                        }
                    }
                }
            }
            i = i + 1;
        }
        assert(a.take(args.len() as int) =~= a);
        (out, status)
    }
}

/// `dir` (the characters `d[from..to]`) joined with `name`, as `Path::join` does.
fn join_path_exec(d: &Vec<char>, from: usize, to: usize, name: &Vec<char>) -> (r: String)
    requires
        from <= to <= d.len(),
    ensures
        r@ == join_path(d@.subrange(from as int, to as int), name@),
{
    let ghost dir = d@.subrange(from as int, to as int);
    let mut r = String::new();
    append_chars(&mut r, d, from, to);
    if from < to && d[to - 1] != '/' {
        push_char(&mut r, '/');
    }
    append_chars(&mut r, name, 0, name.len());
    proof {
        assert(name@.subrange(0, name@.len() as int) =~= name@);
        if from < to {
            assert(dir.last() == d@[to - 1]);
        } else {
            assert(dir.len() == 0);
            assert(r@ =~= name@);
        }
    }
    r
}

/// The paths where `type` looks for an executable called `name`, given the value
/// of `PATH`.
pub fn executable_candidates(name: &str, path: &str) -> (r: Vec<String>)
    ensures
        strings_view(r@) == executable_candidates_spec(name@, path@),
{
    let nm = chars_of(name);
    if str_contains_char(name, '/') {
        let mut r: Vec<String> = Vec::new();
        r.push(string_from_chars(&nm));
        assert(strings_view(r@) =~= seq![name@]);
        return r;
    }
    let cs = chars_of(path);
    let ghost p = cs@;
    let ghost mut done: Seq<Seq<char>> = Seq::empty();
    let mut out: Vec<String> = Vec::new();
    let mut start: usize = 0;
    let mut i: usize = 0;
    assert(p.skip(0) =~= p);
    assert(done + split_path(p) =~= split_path(p));
    while i < cs.len()
        invariant
            start <= i <= cs.len(),
            p == cs@,
            p == path@,
            nm@ == name@,
            forall|j: int| start <= j < i ==> #[trigger] not_colon()(p[j]),
            split_path(p) == done + split_path(p.skip(start as int)),
            strings_view(out@) == done.map_values(|dir: Seq<char>| join_path(dir, name@)),
        decreases cs.len() - i,
    {
        if cs[i] == ':' {
            let piece = join_path_exec(&cs, start, i, &nm);
            proof {
                let q = p.skip(start as int);
                let k = (i - start) as int;
                assert forall|j: int| 0 <= j < k implies #[trigger] not_colon()(q[j]) by {
                    assert(q[j] == p[start + j]);
                }
                assert(q[k] == p[i as int]);
                lemma_span_unique(q, not_colon(), k);
                assert(q.take(k) =~= p.subrange(start as int, i as int));
                assert(q.skip(k + 1) =~= p.skip(i + 1));
                assert(split_path(q) == seq![q.take(k)] + split_path(q.skip(k + 1)));
                assert(done + split_path(q) =~= done.push(q.take(k)) + split_path(p.skip(i + 1)));
                assert(strings_view(out@.push(piece)) =~= strings_view(out@).push(piece@));
                assert(done.push(q.take(k)).map_values(|dir: Seq<char>| join_path(dir, name@))
                    =~= done.map_values(|dir: Seq<char>| join_path(dir, name@)).push(
                    join_path(q.take(k), name@),
                ));
                done = done.push(q.take(k));
            }
            out.push(piece);
            start = i + 1;
        }
        i = i + 1;
    }
    let piece = join_path_exec(&cs, start, cs.len(), &nm);
    proof {
        let q = p.skip(start as int);
        let k = q.len() as int;
        assert forall|j: int| 0 <= j < k implies #[trigger] not_colon()(q[j]) by {
            assert(q[j] == p[start + j]);
        }
        lemma_span_unique(q, not_colon(), k);
        assert(split_path(q) == seq![q]);
        assert(q =~= p.subrange(start as int, p.len() as int));
        assert(strings_view(out@.push(piece)) =~= strings_view(out@).push(piece@));
        assert(done + seq![q] =~= done.push(q));
        assert(done.push(q).map_values(|dir: Seq<char>| join_path(dir, name@)) =~= done.map_values(
            |dir: Seq<char>| join_path(dir, name@),
        ).push(join_path(q, name@)));
    }
    out.push(piece);
    out
}

} // verus!
