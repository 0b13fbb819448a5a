//! Running command lists: the control flow of lists and `if` commands.
//!
//! Running a simple command is outside work (a builtin or a child process), so the
//! executor is a machine: it names the next simple command to run, is handed back
//! that command's result, and decides what comes next, until the whole list is done.
use vstd::prelude::*;
use crate::ast::{
    Command, CommandList, CommandListV, CommandV, IfCommand, IfCommandV, SimpleCommand,
    SimpleCommandV, command_view, commands_view, elifs_view, lemma_commands_view, lemma_elifs_view,
    list_view,
};
use crate::builtins::{Builtin, builtin_named, find_builtin};

verus! {

/// The result of running a command: an exit status, or an error message.
pub type Status = Result<i32, Seq<char>>;

/// A run: the simple commands that ran, in order, and the final result. The result is
/// `None` when the given results ran out: the last command named is then the one that
/// waits for its result.
pub type Run = (Seq<SimpleCommandV>, Option<Status>);

/// The results left after the first `n` have been used (none if there were fewer).
pub open spec fn after(rs: Seq<Status>, n: nat) -> Seq<Status> {
    if n <= rs.len() {
        rs.skip(n as int)
    } else {
        Seq::empty()
    }
}

/// Leaving out `a` results, then `b` more, leaves out `a + b`; leaving out none
/// changes nothing.
pub proof fn lemma_after_after(rs: Seq<Status>, a: nat, b: nat)
    ensures
        after(after(rs, a), b) == after(rs, a + b),
        after(rs, 0) == rs,
{
    assert(rs.skip(0) =~= rs);
    if a + b <= rs.len() {
        assert(rs.skip(a as int).skip(b as int) =~= rs.skip((a + b) as int));
    }
}

/// A run that first ran the commands `c`, then went on as `r`.
pub open spec fn then_run(c: Seq<SimpleCommandV>, r: Run) -> Run {
    (c + r.0, r.1)
}

proof fn lemma_then_run_nothing(c: Seq<SimpleCommandV>, v: Option<Status>)
    ensures
        then_run(c, (Seq::empty(), v)) == (c, v),
        then_run(Seq::empty(), (c, v)) == (c, v),
{
    assert(c + Seq::empty() =~= c);
    assert(Seq::empty() + c =~= c);
}

pub open spec fn status_view(r: Result<i32, String>) -> Status {
    match r {
        Ok(s) => Ok(s),
        Err(e) => Err(e@),
    }
}

/// Runs the commands `cs` one after the other, given the results `rs` of the simple
/// commands in the order they run. The status of a list is that of its last
/// command (`last` if it has none left); an error stops the list.
pub open spec fn run_commands(cs: Seq<CommandV>, last: i32, rs: Seq<Status>) -> Run
    decreases cs, 0nat,
{
    if cs.len() == 0 {
        (Seq::empty(), Some(Ok(last)))
    } else {
        let r = run_command(cs[0], rs);
        match r.1 {
            Some(Ok(s)) => then_run(r.0, run_commands(cs.drop_first(), s, after(rs, r.0.len()))),
            _ => r,
        }
    }
}

/// Runs one command: a simple command runs, and its result is the next one given.
pub open spec fn run_command(c: CommandV, rs: Seq<Status>) -> Run
    decreases c, 0nat,
{
    match c {
        CommandV::Simple(sc) => (seq![sc], if rs.len() == 0 {
            None
        } else {
            Some(rs[0])
        }),
        CommandV::If(ic) => run_if(ic, rs),
    }
}

/// Runs an `if` command: the condition, then the first branch whose condition has
/// status 0, else the `else` branch; status 0 when no branch runs.
pub open spec fn run_if(ic: IfCommandV, rs: Seq<Status>) -> Run
    decreases ic, ic.elif_branches.len() + 1,
{
    let r = run_commands(ic.condition.commands, 0, rs);
    match r.1 {
        Some(Ok(s)) => if s == 0 {
            then_run(r.0, run_commands(ic.then_branch.commands, 0, after(rs, r.0.len())))
        } else {
            then_run(r.0, run_elifs(ic, 0, after(rs, r.0.len())))
        },
        _ => r,
    }
}

/// Runs the `elif` branches of `ic` from the `j`-th on, then the `else` branch.
pub open spec fn run_elifs(ic: IfCommandV, j: nat, rs: Seq<Status>) -> Run
    decreases ic, ic.elif_branches.len() - j,
{
    if j >= ic.elif_branches.len() {
        match ic.else_branch {
            Some(l) => run_commands(l.commands, 0, rs),
            None => (Seq::empty(), Some(Ok(0))),
        }
    } else {
        let r = run_commands(ic.elif_branches[j as int].0.commands, 0, rs);
        match r.1 {
            Some(Ok(s)) => if s == 0 {
                then_run(
                    r.0,
                    run_commands(ic.elif_branches[j as int].1.commands, 0, after(rs, r.0.len())),
                )
            } else {
                then_run(r.0, run_elifs(ic, j + 1, after(rs, r.0.len())))
            },
            _ => r,
        }
    }
}

/// Runs a command list, starting with status 0.
pub open spec fn run_list(l: CommandListV, rs: Seq<Status>) -> Run {
    run_commands(l.commands, 0, rs)
}


/// `rs` and `rs2` hold the same first `n` results.
pub open spec fn same_first(rs: Seq<Status>, rs2: Seq<Status>, n: nat) -> bool {
    n <= rs.len() && n <= rs2.len() && rs.take(n as int) == rs2.take(n as int)
}

proof fn lemma_same_first_after(rs: Seq<Status>, rs2: Seq<Status>, n: nat, m: nat)
    requires
        same_first(rs, rs2, n + m),
    ensures
        same_first(after(rs, n), after(rs2, n), m),
        same_first(rs, rs2, n),
{
    assert(after(rs, n).take(m as int) =~= rs.take((n + m) as int).skip(n as int));
    assert(after(rs2, n).take(m as int) =~= rs2.take((n + m) as int).skip(n as int));
    assert(rs.take(n as int) =~= rs.take((n + m) as int).take(n as int));
    assert(rs2.take(n as int) =~= rs2.take((n + m) as int).take(n as int));
}

/// A run of commands that comes to an end uses no more results than it is given, and
/// only the results it used matter: given any results that agree on those, the same
/// commands run and the run ends the same way.
pub proof fn lemma_run_commands_uses_prefix(cs: Seq<CommandV>, last: i32, rs: Seq<Status>, rs2: Seq<Status>)
    ensures
        run_commands(cs, last, rs) matches (ran, Some(_)) ==> ran.len() <= rs.len() && (
        same_first(rs, rs2, ran.len()) ==> run_commands(cs, last, rs2) == run_commands(
            cs,
            last,
            rs,
        )),
    decreases cs, 0nat,
{
    if cs.len() > 0 {
        lemma_run_command_uses_prefix(cs[0], rs, rs2);
        let r = run_command(cs[0], rs);
        if let Some(Ok(s)) = r.1 {
            let n = r.0.len();
            lemma_run_commands_uses_prefix(cs.drop_first(), s, after(rs, n), after(rs2, n));
            let r2 = run_commands(cs.drop_first(), s, after(rs, n));
            if r2.1 is Some && same_first(rs, rs2, n + r2.0.len()) {
                lemma_same_first_after(rs, rs2, n, r2.0.len());
            }
        }
    }
}

pub proof fn lemma_run_command_uses_prefix(c: CommandV, rs: Seq<Status>, rs2: Seq<Status>)
    ensures
        run_command(c, rs) matches (ran, Some(_)) ==> ran.len() <= rs.len() && (same_first(
            rs,
            rs2,
            ran.len(),
        ) ==> run_command(c, rs2) == run_command(c, rs)),
    decreases c, 0nat,
{
    match c {
        CommandV::Simple(_) => {
            if rs.len() > 0 && same_first(rs, rs2, 1) {
                assert(rs[0] == rs.take(1)[0]);
                assert(rs2[0] == rs2.take(1)[0]);
            }
        },
        CommandV::If(ic) => {
            lemma_run_if_uses_prefix(ic, rs, rs2);
        },
    }
}

pub proof fn lemma_run_if_uses_prefix(ic: IfCommandV, rs: Seq<Status>, rs2: Seq<Status>)
    ensures
        run_if(ic, rs) matches (ran, Some(_)) ==> ran.len() <= rs.len() && (same_first(
            rs,
            rs2,
            ran.len(),
        ) ==> run_if(ic, rs2) == run_if(ic, rs)),
    decreases ic, ic.elif_branches.len() + 1,
{
    lemma_run_commands_uses_prefix(ic.condition.commands, 0, rs, rs2);
    let r = run_commands(ic.condition.commands, 0, rs);
    if let Some(Ok(s)) = r.1 {
        let n = r.0.len();
        let rest = if s == 0 {
            lemma_run_commands_uses_prefix(
                ic.then_branch.commands,
                0,
                after(rs, n),
                after(rs2, n),
            );
            run_commands(ic.then_branch.commands, 0, after(rs, n))
        } else {
            lemma_run_elifs_uses_prefix(ic, 0, after(rs, n), after(rs2, n));
            run_elifs(ic, 0, after(rs, n))
        };
        if rest.1 is Some && same_first(rs, rs2, n + rest.0.len()) {
            lemma_same_first_after(rs, rs2, n, rest.0.len());
        }
    }
}

pub proof fn lemma_run_elifs_uses_prefix(ic: IfCommandV, j: nat, rs: Seq<Status>, rs2: Seq<Status>)
    ensures
        run_elifs(ic, j, rs) matches (ran, Some(_)) ==> ran.len() <= rs.len() && (same_first(
            rs,
            rs2,
            ran.len(),
        ) ==> run_elifs(ic, j, rs2) == run_elifs(ic, j, rs)),
    decreases ic, ic.elif_branches.len() - j,
{
    if j >= ic.elif_branches.len() {
        if let Some(l) = ic.else_branch {
            lemma_run_commands_uses_prefix(l.commands, 0, rs, rs2);
        }
    } else {
        let cond = ic.elif_branches[j as int].0.commands;
        lemma_run_commands_uses_prefix(cond, 0, rs, rs2);
        let r = run_commands(cond, 0, rs);
        if let Some(Ok(s)) = r.1 {
            let n = r.0.len();
            let rest = if s == 0 {
                lemma_run_commands_uses_prefix(
                    ic.elif_branches[j as int].1.commands,
                    0,
                    after(rs, n),
                    after(rs2, n),
                );
                run_commands(ic.elif_branches[j as int].1.commands, 0, after(rs, n))
            } else {
                lemma_run_elifs_uses_prefix(ic, j + 1, after(rs, n), after(rs2, n));
                run_elifs(ic, j + 1, after(rs, n))
            };
            if rest.1 is Some && same_first(rs, rs2, n + rest.0.len()) {
                lemma_same_first_after(rs, rs2, n, rest.0.len());
            }
        }
    }
}

/// An empty list runs nothing and has status 0. A list with one more command at its
/// end runs its other commands first; if they end with a status, that last command runs
/// on the results left and its result is the list's; if they end with an error (or the
/// results run out), the list ends there and the last command does not run.
pub proof fn lemma_list_ends_with_last_command(
    cs: Seq<CommandV>,
    c: CommandV,
    last: i32,
    rs: Seq<Status>,
)
    ensures
        run_commands(Seq::empty(), last, rs) == (Seq::<SimpleCommandV>::empty(), Some(
            Ok::<i32, Seq<char>>(last),
        )),
        run_commands(cs.push(c), last, rs) == match run_commands(cs, last, rs) {
            (ran, Some(Ok(_))) => then_run(ran, run_command(c, after(rs, ran.len()))),
            r => r,
        },
    decreases cs.len(),
{
    if cs.len() == 0 {
        assert(cs.push(c) =~= seq![c]);
        assert(seq![c].drop_first() =~= Seq::<CommandV>::empty());
        lemma_after_after(rs, 0, 0);
        let r = run_command(c, rs);
        lemma_then_run_nothing(r.0, r.1);
        if let Some(Ok(s)) = r.1 {
            assert(run_commands(Seq::<CommandV>::empty(), s, after(rs, r.0.len())) == (
                Seq::<SimpleCommandV>::empty(),
                Some(Ok::<i32, Seq<char>>(s)),
            ));
        }
        assert(run_commands(cs.push(c), last, rs) == r);
    } else {
        let t = cs.drop_first();
        assert(cs.push(c)[0] == cs[0]);
        assert(cs.push(c).drop_first() =~= t.push(c));
        let r0 = run_command(cs[0], rs);
        if let Some(Ok(s)) = r0.1 {
            let rs1 = after(rs, r0.0.len());
            lemma_list_ends_with_last_command(t, c, s, rs1);
            let r1 = run_commands(t, s, rs1);
            if let Some(Ok(_)) = r1.1 {
                lemma_after_after(rs, r0.0.len(), r1.0.len());
                let x = run_command(c, after(rs1, r1.0.len()));
                assert((r0.0 + r1.0) + x.0 =~= r0.0 + (r1.0 + x.0));
            }
        }
    }
}

/// Runs the branches `bs` (each a condition and a body) in order: the body of the first
/// branch whose condition gives status 0 runs, and no later condition or body; when no
/// condition gives 0, `els` runs, or the status is 0. An error in a condition (or a
/// missing result) ends the run there.
pub open spec fn run_branches(
    bs: Seq<(CommandListV, CommandListV)>,
    els: Option<CommandListV>,
    rs: Seq<Status>,
) -> Run
    decreases bs.len(),
{
    if bs.len() == 0 {
        match els {
            Some(l) => run_list(l, rs),
            None => (Seq::empty(), Some(Ok(0))),
        }
    } else {
        let r = run_list(bs[0].0, rs);
        match r.1 {
            Some(Ok(s)) => if s == 0 {
                then_run(r.0, run_list(bs[0].1, after(rs, r.0.len())))
            } else {
                then_run(r.0, run_branches(bs.drop_first(), els, after(rs, r.0.len())))
            },
            _ => r,
        }
    }
}

proof fn lemma_elifs_are_branches(ic: IfCommandV, j: nat, rs: Seq<Status>)
    requires
        j <= ic.elif_branches.len(),
    ensures
        run_elifs(ic, j, rs) == run_branches(
            ic.elif_branches.skip(j as int),
            ic.else_branch,
            rs,
        ),
    decreases ic.elif_branches.len() - j,
{
    let bs = ic.elif_branches.skip(j as int);
    if j < ic.elif_branches.len() {
        assert(bs[0] == ic.elif_branches[j as int]);
        assert(bs.drop_first() =~= ic.elif_branches.skip((j + 1) as int));
        let r = run_commands(ic.elif_branches[j as int].0.commands, 0, rs);
        if let Some(Ok(s)) = r.1 {
            lemma_elifs_are_branches(ic, j + 1, after(rs, r.0.len()));
        }
    }
}

/// An `if` command tries its condition, then each `elif` condition, in order, and runs
/// the body of the first whose status is 0; else its `else` branch, if any; else its
/// status is 0. Untaken bodies and the conditions after the first that gives 0 never run,
/// and the first error ends it.
pub proof fn lemma_if_runs_first_true_branch(ic: IfCommandV, rs: Seq<Status>)
    ensures
        run_if(ic, rs) == run_branches(
            seq![(ic.condition, ic.then_branch)] + ic.elif_branches,
            ic.else_branch,
            rs,
        ),
{
    let bs = seq![(ic.condition, ic.then_branch)] + ic.elif_branches;
    assert(bs[0] == (ic.condition, ic.then_branch));
    assert(bs.drop_first() =~= ic.elif_branches.skip(0));
    let r = run_commands(ic.condition.commands, 0, rs);
    if let Some(Ok(s)) = r.1 {
        lemma_elifs_are_branches(ic, 0, after(rs, r.0.len()));
    }
}

/// How much work is left in a command: it shrinks at every step of the executor.
pub open spec fn command_size(c: CommandV) -> nat
    decreases c, 0nat,
{
    match c {
        CommandV::Simple(_) => 1,
        CommandV::If(ic) => 2 + if_size(ic),
    }
}

pub open spec fn commands_size(cs: Seq<CommandV>) -> nat
    decreases cs, 0nat,
{
    if cs.len() == 0 {
        0
    } else {
        command_size(cs[0]) + commands_size(cs.drop_first())
    }
}

pub open spec fn if_size(ic: IfCommandV) -> nat
    decreases ic, ic.elif_branches.len() + 1,
{
    commands_size(ic.condition.commands) + commands_size(ic.then_branch.commands) + elifs_size(
        ic,
        0,
    )
}

pub open spec fn elifs_size(ic: IfCommandV, j: nat) -> nat
    decreases ic, ic.elif_branches.len() - j,
{
    if j >= ic.elif_branches.len() {
        match ic.else_branch {
            Some(l) => commands_size(l.commands),
            None => 0,
        }
    } else {
        1 + commands_size(ic.elif_branches[j as int].0.commands) + commands_size(
            ic.elif_branches[j as int].1.commands,
        ) + elifs_size(ic, j + 1)
    }
}

/// What is left to do in an enclosing construct once a command or list inside it
/// has a result.
pub enum FrameV {
    /// In a list, the commands from index `next` on are left.
    List(Seq<CommandV>, nat),
    /// In an `if` command, the condition is running.
    IfCond(IfCommandV),
    /// In an `if` command, the condition of `elif` branch `j` is running.
    Elif(IfCommandV, nat),
}

pub open spec fn frame_size(f: FrameV) -> nat {
    match f {
        FrameV::List(cs, next) => commands_size(cs.skip(next as int)),
        FrameV::IfCond(ic) => 1 + commands_size(ic.then_branch.commands) + elifs_size(ic, 0),
        FrameV::Elif(ic, j) => 1 + commands_size(ic.elif_branches[j as int].1.commands)
            + elifs_size(ic, j + 1),
    }
}

pub open spec fn frames_size(fs: Seq<FrameV>) -> nat
    decreases fs.len(),
{
    if fs.len() == 0 {
        0
    } else {
        frame_size(fs.last()) + frames_size(fs.drop_last())
    }
}

/// How the construct of frame `f` ends once the command inside it gave `v`: an error
/// goes up unchanged.
pub open spec fn finish_frame(f: FrameV, v: Status, rs: Seq<Status>) -> Run {
    match v {
        Err(e) => (Seq::empty(), Some(Err(e))),
        Ok(s) => match f {
            FrameV::List(cs, next) => run_commands(cs.skip(next as int), s, rs),
            FrameV::IfCond(ic) => if s == 0 {
                run_commands(ic.then_branch.commands, 0, rs)
            } else {
                run_elifs(ic, 0, rs)
            },
            FrameV::Elif(ic, j) => if s == 0 {
                run_commands(ic.elif_branches[j as int].1.commands, 0, rs)
            } else {
                run_elifs(ic, j + 1, rs)
            },
        },
    }
}

/// Goes on from a partial run `r` with the frames `fs`.
pub open spec fn continue_with(fs: Seq<FrameV>, r: Run, rs: Seq<Status>) -> Run
    decreases fs.len(), 2nat,
{
    match r.1 {
        Some(v) => then_run(r.0, finish(fs, v, after(rs, r.0.len()))),
        None => r,
    }
}

/// How the whole run ends once the innermost command gave `v`: each frame, from the
/// innermost (last) out, finishes its construct.
pub open spec fn finish(fs: Seq<FrameV>, v: Status, rs: Seq<Status>) -> Run
    decreases fs.len(), 1nat,
{
    if fs.len() == 0 {
        (Seq::empty(), Some(v))
    } else {
        continue_with(fs.drop_last(), finish_frame(fs.last(), v, rs), rs)
    }
}

/// Goes on from a partial run `r` with the one frame `f`.
pub open spec fn chain(f: FrameV, r: Run, rs: Seq<Status>) -> Run {
    match r.1 {
        Some(v) => then_run(r.0, finish_frame(f, v, after(rs, r.0.len()))),
        None => r,
    }
}

proof fn lemma_finish_push(fs: Seq<FrameV>, f: FrameV, v: Status, rs: Seq<Status>)
    ensures
        finish(fs.push(f), v, rs) == continue_with(fs, finish_frame(f, v, rs), rs),
        frames_size(fs.push(f)) == frame_size(f) + frames_size(fs),
{
    assert(fs.push(f).drop_last() =~= fs);
}

proof fn lemma_continue_then(fs: Seq<FrameV>, c: Seq<SimpleCommandV>, r: Run, rs: Seq<Status>)
    ensures
        continue_with(fs, then_run(c, r), rs) == then_run(
            c,
            continue_with(fs, r, after(rs, c.len())),
        ),
{
    if let Some(v) = r.1 {
        lemma_after_after(rs, c.len(), r.0.len());
        let x = finish(fs, v, after(rs, c.len() + r.0.len()));
        assert((c + r.0) + x.0 =~= c + (r.0 + x.0));
    }
}

proof fn lemma_chain(fs: Seq<FrameV>, f: FrameV, r: Run, rs: Seq<Status>)
    ensures
        continue_with(fs.push(f), r, rs) == continue_with(fs, chain(f, r, rs), rs),
{
    if let Some(v) = r.1 {
        let rs1 = after(rs, r.0.len());
        lemma_finish_push(fs, f, v, rs1);
        lemma_continue_then(fs, r.0, finish_frame(f, v, rs1), rs);
    }
}

/// An error goes up through every frame unchanged.
proof fn lemma_finish_error(fs: Seq<FrameV>, e: Seq<char>, rs: Seq<Status>)
    ensures
        finish(fs, Err(e), rs) == (Seq::<SimpleCommandV>::empty(), Some(
            Err::<i32, Seq<char>>(e),
        )),
    decreases fs.len(),
{
    if fs.len() > 0 {
        lemma_after_after(rs, 0, 0);
        lemma_finish_error(fs.drop_last(), e, rs);
        lemma_then_run_nothing(Seq::empty(), Some(Err(e)));
    }
}

/// The next command of a list, then the rest of the list.
proof fn lemma_run_commands_step(cs: Seq<CommandV>, n: nat, s: i32, rs: Seq<Status>)
    requires
        n < cs.len(),
    ensures
        run_commands(cs.skip(n as int), s, rs) == chain(
            FrameV::List(cs, n + 1),
            run_command(cs[n as int], rs),
            rs,
        ),
{
    let t = cs.skip(n as int);
    assert(t[0] == cs[n as int]);
    assert(t.drop_first() =~= cs.skip((n + 1) as int));
    let r = run_command(cs[n as int], rs);
    lemma_then_run_nothing(r.0, r.1);
}

/// The first `elif` branch left, as a frame over its condition.
proof fn lemma_run_elifs_step(ic: IfCommandV, j: nat, rs: Seq<Status>)
    requires
        j < ic.elif_branches.len(),
    ensures
        run_elifs(ic, j, rs) == chain(
            FrameV::Elif(ic, j),
            run_commands(ic.elif_branches[j as int].0.commands, 0, rs),
            rs,
        ),
{
    let r = run_commands(ic.elif_branches[j as int].0.commands, 0, rs);
    lemma_then_run_nothing(r.0, r.1);
}

proof fn lemma_run_if_step(ic: IfCommandV, rs: Seq<Status>)
    ensures
        run_if(ic, rs) == chain(FrameV::IfCond(ic), run_commands(ic.condition.commands, 0, rs), rs),
{
    let r = run_commands(ic.condition.commands, 0, rs);
    lemma_then_run_nothing(r.0, r.1);
}

/// Starting a list is finishing a fresh frame for it with status 0.
proof fn lemma_start_list(fs: Seq<FrameV>, cs: Seq<CommandV>, rs: Seq<Status>)
    ensures
        finish(fs.push(FrameV::List(cs, 0)), Ok(0), rs) == continue_with(
            fs,
            run_commands(cs, 0, rs),
            rs,
        ),
{
    lemma_finish_push(fs, FrameV::List(cs, 0), Ok(0), rs);
    assert(cs.skip(0) =~= cs);
}

/// `commands_size` of a suffix: its first command, then the rest.
proof fn lemma_commands_size_step(cs: Seq<CommandV>, n: nat)
    requires
        n < cs.len(),
    ensures
        commands_size(cs.skip(n as int)) == command_size(cs[n as int]) + commands_size(
            cs.skip((n + 1) as int),
        ),
{
    let t = cs.skip(n as int);
    assert(t[0] == cs[n as int]);
    assert(t.drop_first() =~= cs.skip((n + 1) as int));
}

/// A frame of the executor, over the command tree it runs.
#[derive(Clone, Copy)]
pub enum Frame<'a> {
    /// In a list, the commands from the index on are left.
    List(&'a Vec<Command>, usize),
    /// The condition of an `if` command is running.
    IfCond(&'a IfCommand),
    /// The condition of an `elif` branch is running.
    Elif(&'a IfCommand, usize),
}

impl<'a> View for Frame<'a> {
    type V = FrameV;

    open spec fn view(&self) -> FrameV {
        match *self {
            Frame::List(cs, n) => FrameV::List(commands_view(cs@), n as nat),
            Frame::IfCond(ic) => FrameV::IfCond(ic@),
            Frame::Elif(ic, j) => FrameV::Elif(ic@, j as nat),
        }
    }
}

pub open spec fn frame_wf(f: Frame) -> bool {
    match f {
        Frame::List(cs, n) => n <= cs.len(),
        Frame::IfCond(_) => true,
        Frame::Elif(ic, j) => j < ic.elif_branches.len(),
    }
}

pub open spec fn frames_wf(fs: Seq<Frame>) -> bool {
    forall|i: int| 0 <= i < fs.len() ==> #[trigger] frame_wf(fs[i])
}

pub open spec fn frames_view<'a>(fs: Seq<Frame<'a>>) -> Seq<FrameV> {
    fs.map_values(|f: Frame<'a>| f@)
}

/// What the executor waits for.
pub enum Step<'a> {
    /// The result of running this simple command.
    Run(&'a SimpleCommand),
    /// Nothing: the list has run, with this result.
    Done(Result<i32, String>),
}

/// The rest of a run, from frames and a step, given the results `rs` of the simple
/// commands still to run.
pub open spec fn outcome_of<'a>(fs: Seq<Frame<'a>>, step: Step<'a>, rs: Seq<Status>) -> Run {
    match step {
        Step::Done(r) => (Seq::empty(), Some(status_view(r))),
        Step::Run(sc) => then_run(
            seq![sc@],
            if rs.len() == 0 {
                (Seq::empty(), None)
            } else {
                finish(frames_view(fs), rs[0], after(rs, 1))
            },
        ),
    }
}

proof fn lemma_frames_view_push<'a>(fs: Seq<Frame<'a>>, f: Frame<'a>)
    ensures
        frames_view(fs.push(f)) == frames_view(fs).push(f@),
{
    assert(frames_view(fs.push(f)) =~= frames_view(fs).push(f@));
}

/// Adds the frames that run the `elif` branches of `ic` from the `j`-th on.
fn enter_elifs<'a>(frames: &mut Vec<Frame<'a>>, ic: &'a IfCommand, j: usize)
    requires
        frames_wf(old(frames)@),
    ensures
        frames_wf(final(frames)@),
        frames_size(frames_view(final(frames)@)) == frames_size(frames_view(old(frames)@))
            + elifs_size(ic@, j as nat),
        forall|rs: Seq<Status>|
            #![trigger run_elifs(ic@, j as nat, rs)]
            finish(frames_view(final(frames)@), Ok(0), rs) == continue_with(
                frames_view(old(frames)@),
                run_elifs(ic@, j as nat, rs),
                rs,
            ),
{
    let ghost fs = frames_view(frames@);
    proof {
        lemma_elifs_view(ic.elif_branches@);
    }
    if j < ic.elif_branches.len() {
        let f = Frame::Elif(ic, j);
        let l = Frame::List(&ic.elif_branches[j].0.commands, 0);
        proof {
            lemma_frames_view_push(frames@, f);
            lemma_frames_view_push(frames@.push(f), l);
            lemma_finish_push(fs, f@, Ok(0), Seq::empty());
            lemma_finish_push(fs.push(f@), l@, Ok(0), Seq::empty());
            assert(commands_view(ic.elif_branches@[j as int].0.commands@).skip(0) =~= commands_view(
                ic.elif_branches@[j as int].0.commands@,
            ));
            assert forall|rs: Seq<Status>|
                #![trigger run_elifs(ic@, j as nat, rs)]
                finish(fs.push(f@).push(l@), Ok(0), rs) == continue_with(
                    fs,
                    run_elifs(ic@, j as nat, rs),
                    rs,
                ) by {
                let c = ic@.elif_branches[j as int].0.commands;
                lemma_start_list(fs.push(f@), c, rs);
                lemma_chain(fs, f@, run_commands(c, 0, rs), rs);
                lemma_run_elifs_step(ic@, j as nat, rs);
            }
        }
        frames.push(f);
        frames.push(l);
    } else {
        match &ic.else_branch {
            Some(b) => {
                let l = Frame::List(&b.commands, 0);
                proof {
                    lemma_frames_view_push(frames@, l);
                    lemma_finish_push(fs, l@, Ok(0), Seq::empty());
                    assert(commands_view(b.commands@).skip(0) =~= commands_view(b.commands@));
                    assert forall|rs: Seq<Status>|
                        #![trigger run_elifs(ic@, j as nat, rs)]
                        finish(fs.push(l@), Ok(0), rs) == continue_with(
                            fs,
                            run_elifs(ic@, j as nat, rs),
                            rs,
                        ) by {
                        lemma_start_list(fs, commands_view(b.commands@), rs);
                    }
                }
                frames.push(l);
            },
            None => {
                proof {
                    assert forall|rs: Seq<Status>|
                        #![trigger run_elifs(ic@, j as nat, rs)]
                        finish(fs, Ok(0), rs) == continue_with(
                            fs,
                            run_elifs(ic@, j as nat, rs),
                            rs,
                        ) by {
                        lemma_after_after(rs, 0, 0);
                    }
                }
            },
        }
    }
}

/// What a frame does with a status: either it names the next simple command to run,
/// or it hands a status on.
pub enum Next<'a> {
    Run(&'a SimpleCommand),
    Value(i32),
}

/// `new` and `r` are what frame `f` (popped from `old`) makes of status `s`: the rest of
/// the run is unchanged, and the work left shrinks (or the frame just goes away).
pub open spec fn resumed<'a>(
    old: Seq<Frame<'a>>,
    new: Seq<Frame<'a>>,
    f: FrameV,
    s: i32,
    r: Next<'a>,
) -> bool {
    match r {
        Next::Run(sc) => forall|rs: Seq<Status>|
            #![trigger finish_frame(f, Ok(s), rs)]
            outcome_of(new, Step::Run(sc), rs) == continue_with(
                frames_view(old),
                finish_frame(f, Ok(s), rs),
                rs,
            ),
        Next::Value(t) => {
            &&& forall|rs: Seq<Status>|
                #![trigger finish_frame(f, Ok(s), rs)]
                finish(frames_view(new), Ok(t), rs) == continue_with(
                    frames_view(old),
                    finish_frame(f, Ok(s), rs),
                    rs,
                )
            &&& (frames_size(frames_view(new)) < frames_size(frames_view(old)) + frame_size(f)
                || new == old)
        },
    }
}

fn resume_list<'a>(frames: &mut Vec<Frame<'a>>, cs: &'a Vec<Command>, n: usize, s: i32) -> (r: Next<'a>)
    requires
        frames_wf(old(frames)@),
        n <= cs.len(),
    ensures
        frames_wf(final(frames)@),
        resumed(old(frames)@, final(frames)@, Frame::List(cs, n)@, s, r),
{
    let ghost fs = frames_view(frames@);
    let ghost f = Frame::List(cs, n)@;
    let ghost cv = commands_view(cs@);
    proof {
        lemma_commands_view(cs@);
    }
    if n == cs.len() {
        proof {
            assert forall|rs: Seq<Status>|
                #![trigger finish_frame(f, Ok(s), rs)]
                finish(fs, Ok(s), rs) == continue_with(fs, finish_frame(f, Ok(s), rs), rs) by {
                assert(cv.skip(n as int).len() == 0);
                lemma_after_after(rs, 0, 0);
            }
        }
        return Next::Value(s);
    }
    let next = Frame::List(cs, n + 1);
    proof {
        lemma_frames_view_push(frames@, next);
        lemma_commands_size_step(cv, n as nat);
    }
    frames.push(next);
    match &cs[n] {
        Command::Simple(sc) => {
            proof {
                assert forall|rs: Seq<Status>|
                    #![trigger finish_frame(f, Ok(s), rs)]
                    outcome_of(frames@, Step::Run(sc), rs) == continue_with(
                        fs,
                        finish_frame(f, Ok(s), rs),
                        rs,
                    ) by {
                    lemma_run_commands_step(cv, n as nat, s, rs);
                    lemma_chain(fs, next@, run_command(cv[n as int], rs), rs);
                    if rs.len() > 0 {
                        lemma_after_after(rs, 1, 0);
                    } else {
                        lemma_then_run_nothing(seq![sc@], None);
                    }
                }
            }
            Next::Run(sc)
        },
        Command::If(ic) => {
            let c = Frame::IfCond(ic);
            let l = Frame::List(&ic.condition.commands, 0);
            proof {
                let fs1 = fs.push(next@);
                lemma_frames_view_push(frames@, c);
                lemma_frames_view_push(frames@.push(c), l);
                lemma_finish_push(fs1, c@, Ok(0), Seq::empty());
                lemma_finish_push(fs1.push(c@), l@, Ok(0), Seq::empty());
                lemma_finish_push(fs, next@, Ok(0), Seq::empty());
                assert(commands_view(ic.condition.commands@).skip(0) =~= commands_view(
                    ic.condition.commands@,
                ));
                assert forall|rs: Seq<Status>|
                    #![trigger finish_frame(f, Ok(s), rs)]
                    finish(fs1.push(c@).push(l@), Ok(0), rs) == continue_with(
                        fs,
                        finish_frame(f, Ok(s), rs),
                        rs,
                    ) by {
                    let cond = ic@.condition.commands;
                    let cr = run_commands(cond, 0, rs);
                    lemma_start_list(fs1.push(c@), cond, rs);
                    lemma_chain(fs1, c@, cr, rs);
                    lemma_chain(fs, next@, chain(c@, cr, rs), rs);
                    lemma_run_if_step(ic@, rs);
                    lemma_run_commands_step(cv, n as nat, s, rs);
                }
            }
            frames.push(c);
            frames.push(l);
            Next::Value(0)
        },
    }
}

fn resume_if<'a>(frames: &mut Vec<Frame<'a>>, ic: &'a IfCommand, s: i32) -> (r: Next<'a>)
    requires
        frames_wf(old(frames)@),
    ensures
        frames_wf(final(frames)@),
        resumed(old(frames)@, final(frames)@, Frame::IfCond(ic)@, s, r),
{
    let ghost fs = frames_view(frames@);
    let ghost f = Frame::IfCond(ic)@;
    if s == 0 {
        let l = Frame::List(&ic.then_branch.commands, 0);
        proof {
            assert(commands_view(ic.then_branch.commands@).skip(0) =~= commands_view(
                ic.then_branch.commands@,
            ));
            lemma_frames_view_push(frames@, l);
            lemma_finish_push(fs, l@, Ok(0), Seq::empty());
            assert forall|rs: Seq<Status>|
                #![trigger finish_frame(f, Ok(s), rs)]
                finish(fs.push(l@), Ok(0), rs) == continue_with(fs, finish_frame(f, Ok(s), rs), rs) by {
                lemma_start_list(fs, ic@.then_branch.commands, rs);
            }
        }
        frames.push(l);
    } else {
        enter_elifs(frames, ic, 0);
        proof {
            assert forall|rs: Seq<Status>|
                #![trigger finish_frame(f, Ok(s), rs)]
                finish(frames_view(frames@), Ok(0), rs) == continue_with(
                    fs,
                    finish_frame(f, Ok(s), rs),
                    rs,
                ) by {
                assert(finish_frame(f, Ok(s), rs) == run_elifs(ic@, 0, rs));
            }
        }
    }
    Next::Value(0)
}

fn resume_elif<'a>(frames: &mut Vec<Frame<'a>>, ic: &'a IfCommand, j: usize, s: i32) -> (r: Next<'a>)
    requires
        frames_wf(old(frames)@),
        j < ic.elif_branches.len(),
    ensures
        frames_wf(final(frames)@),
        resumed(old(frames)@, final(frames)@, Frame::Elif(ic, j)@, s, r),
{
    let ghost fs = frames_view(frames@);
    let ghost f = Frame::Elif(ic, j)@;
    proof {
        lemma_elifs_view(ic.elif_branches@);
    }
    if s == 0 {
        let l = Frame::List(&ic.elif_branches[j].1.commands, 0);
        proof {
            assert(commands_view(ic.elif_branches@[j as int].1.commands@).skip(0) =~= commands_view(
                ic.elif_branches@[j as int].1.commands@,
            ));
            lemma_frames_view_push(frames@, l);
            lemma_finish_push(fs, l@, Ok(0), Seq::empty());
            assert forall|rs: Seq<Status>|
                #![trigger finish_frame(f, Ok(s), rs)]
                finish(fs.push(l@), Ok(0), rs) == continue_with(fs, finish_frame(f, Ok(s), rs), rs) by {
                lemma_start_list(fs, ic@.elif_branches[j as int].1.commands, rs);
            }
        }
        frames.push(l);
    } else {
        enter_elifs(frames, ic, j + 1);
        proof {
            assert forall|rs: Seq<Status>|
                #![trigger finish_frame(f, Ok(s), rs)]
                finish(frames_view(frames@), Ok(0), rs) == continue_with(
                    fs,
                    finish_frame(f, Ok(s), rs),
                    rs,
                ) by {
                assert(finish_frame(f, Ok(s), rs) == run_elifs(ic@, (j + 1) as nat, rs));
            }
        }
    }
    Next::Value(0)
}

/// Hands the result `value` to the innermost frame and goes on until the next simple
/// command to run, or until the whole run is done.
fn settle<'a>(start: Vec<Frame<'a>>, value: Result<i32, String>) -> (r: (Vec<Frame<'a>>, Step<'a>))
    requires
        frames_wf(start@),
    ensures
        frames_wf(r.0@),
        forall|rs: Seq<Status>|
            #![trigger outcome_of(r.0@, r.1, rs)]
            outcome_of(r.0@, r.1, rs) == finish(frames_view(start@), status_view(value), rs),
{
    let mut frames = start;
    let ghost fs0 = frames_view(start@);
    let ghost v0 = status_view(value);
    let mut v = value;
    loop
        invariant
            fs0 == frames_view(start@),
            v0 == status_view(value),
            frames_wf(frames@),
            forall|rs: Seq<Status>|
                #![trigger finish(fs0, v0, rs)]
                finish(frames_view(frames@), status_view(v), rs) == finish(fs0, v0, rs),
        decreases frames_size(frames_view(frames@)), frames@.len(),
    {
        let ghost before = frames@;
        let top = frames.pop();
        match top {
            None => {
                return (frames, Step::Done(v));
            },
            Some(f) => {
                let ghost fs = frames_view(frames@);
                let ghost popped = frames@;
                proof {
                    assert(before == frames@.push(f));
                    assert(frame_wf(before[before.len() - 1]));
                    lemma_frames_view_push(frames@, f);
                    lemma_finish_push(fs, f@, status_view(v), Seq::empty());
                    assert forall|rs: Seq<Status>|
                        #![trigger finish(fs0, v0, rs)]
                        continue_with(fs, finish_frame(f@, status_view(v), rs), rs) == finish(
                            fs0,
                            v0,
                            rs,
                        ) by {
                        lemma_finish_push(fs, f@, status_view(v), rs);
                    }
                }
                match v {
                    Err(e) => {
                        proof {
                            assert forall|rs: Seq<Status>|
                                #![trigger finish(fs0, v0, rs)]
                                finish(fs, Err(e@), rs) == finish(fs0, v0, rs) by {
                                lemma_finish_error(fs, e@, rs);
                                lemma_finish_error(fs.push(f@), e@, rs);
                            }
                        }
                        v = Err(e);
                    },
                    Ok(s) => {
                        let next = match f {
                            Frame::List(cs, n) => resume_list(&mut frames, cs, n, s),
                            Frame::IfCond(ic) => resume_if(&mut frames, ic, s),
                            Frame::Elif(ic, j) => resume_elif(&mut frames, ic, j, s),
                        };
                        match next {
                            Next::Run(sc) => {
                                proof {
                                    assert forall|rs: Seq<Status>|
                                        #![trigger outcome_of(frames@, Step::Run(sc), rs)]
                                        outcome_of(frames@, Step::Run(sc), rs) == finish(
                                            fs0,
                                            v0,
                                            rs,
                                        ) by {
                                        lemma_finish_push(fs, f@, Ok(s), rs);
                                    }
                                }
                                return (frames, Step::Run(sc));
                            },
                            Next::Value(t) => {
                                proof {
                                    assert forall|rs: Seq<Status>|
                                        #![trigger finish(fs0, v0, rs)]
                                        finish(frames_view(frames@), Ok(t), rs) == finish(
                                            fs0,
                                            v0,
                                            rs,
                                        ) by {
                                        lemma_finish_push(fs, f@, Ok(s), rs);
                                    }
                                }
                                v = Ok(t);
                            },
                        }
                    },
                }
            },
        }
    }
}

/// Runs command lists.
pub struct Executor;

/// A run of a command list, in progress.
pub struct Execution<'a> {
    frames: Vec<Frame<'a>>,
    step: Step<'a>,
}

impl Executor {
    pub fn new() -> Executor {
        Executor
    }

    /// Starts running `command_list`. Whatever results its simple commands give,
    /// the run goes as `run_list` says.
    pub fn execute<'a>(&self, command_list: &'a CommandList) -> (e: Execution<'a>)
        ensures
            forall|rs: Seq<Status>| #[trigger] e.outcome(rs) == run_list(command_list@, rs),
    {
        let mut frames: Vec<Frame<'a>> = Vec::new();
        let f = Frame::List(&command_list.commands, 0);
        proof {
            lemma_frames_view_push(frames@, f);
            assert(frames_view(frames@) =~= Seq::<FrameV>::empty());
        }
        frames.push(f);
        let (frames, step) = settle(frames, Ok(0));
        let e = Execution { frames, step };
        proof {
            assert forall|rs: Seq<Status>| #[trigger] e.outcome(rs) == run_list(command_list@, rs) by {
                assert(e.outcome(rs) == outcome_of(e.frames@, e.step, rs));
                let cs = commands_view(command_list.commands@);
                lemma_start_list(Seq::empty(), cs, rs);
                assert(Seq::<FrameV>::empty().push(FrameV::List(cs, 0)) =~= frames_view(
                    seq![f],
                ));
                let r = run_commands(cs, 0, rs);
                if let Some(v) = r.1 {
                    lemma_after_after(rs, r.0.len(), 0);
                    lemma_then_run_nothing(r.0, Some(v));
                }
            }
        }
        e
    }
}

impl<'a> Execution<'a> {
    #[verifier::type_invariant]
    spec fn well_formed(&self) -> bool {
        frames_wf(self.frames@)
    }

    /// The rest of the run, given the results `rs` of the simple commands still to run.
    pub closed spec fn outcome(&self, rs: Seq<Status>) -> Run {
        outcome_of(self.frames@, self.step, rs)
    }

    /// Whether the run is over.
    pub closed spec fn is_done(&self) -> bool {
        self.step is Done
    }

    /// The simple command to run next, or `None` once the run is over: with no more
    /// results, the run names this command and waits for its result.
    pub fn next_command(&self) -> (r: Option<&'a SimpleCommand>)
        ensures
            r is None <==> self.is_done(),
            r matches Some(sc) ==> self.outcome(Seq::empty()) == (seq![sc@], None::<Status>),
    {
        match &self.step {
            Step::Run(sc) => {
                proof {
                    lemma_then_run_nothing(seq![sc@], None);
                }
                Some(*sc)
            },
            Step::Done(_) => None,
        }
    }

    /// Hands over the result of the command that `next_command` named: that command
    /// has run, and the run goes on from there.
    pub fn resume(&mut self, status: Result<i32, String>)
        requires
            !old(self).is_done(),
        ensures
            forall|rs: Seq<Status>|
                #![trigger final(self).outcome(rs)]
                old(self).outcome(seq![status_view(status)] + rs) == then_run(
                    old(self).outcome(Seq::empty()).0,
                    final(self).outcome(rs),
                ),
    {
        proof {
            use_type_invariant(&*self);
        }
        let mut frames: Vec<Frame<'a>> = Vec::new();
        std::mem::swap(&mut frames, &mut self.frames);
        let ghost old_frames = frames@;
        let (new_frames, step) = settle(frames, status);
        self.frames = new_frames;
        self.step = step;
        proof {
            assert forall|rs: Seq<Status>|
                #![trigger self.outcome(rs)]
                old(self).outcome(seq![status_view(status)] + rs) == then_run(
                    old(self).outcome(Seq::empty()).0,
                    self.outcome(rs),
                ) by {
                if let Step::Run(sc) = old(self).step {
                    lemma_then_run_nothing(seq![sc@], None);
                }
                let all = seq![status_view(status)] + rs;
                assert(all[0] == status_view(status));
                assert(all.skip(1) =~= rs);
                assert(self.outcome(rs) == outcome_of(self.frames@, self.step, rs));
            }
        }
    }

    /// The result of the whole run, once it is over.
    pub fn into_result(self) -> (r: Result<i32, String>)
        requires
            self.is_done(),
        ensures
            forall|rs: Seq<Status>|
                #[trigger] self.outcome(rs) == (Seq::<SimpleCommandV>::empty(), Some(
                    status_view(r),
                )),
    {
        match self.step {
            Step::Done(r) => r,
            Step::Run(_) => Ok(0),
        }
    }
}

/// How a simple command runs.
#[derive(Debug, Clone, Copy, PartialEq, Eq)]
pub enum CommandPlan {
    /// No words: only its redirections are made (and undone), with status 0.
    Redirections,
    /// The first word names a builtin.
    Builtin(Builtin),
    /// The first word names a program to run as a child process.
    External,
}

pub open spec fn command_plan(sc: SimpleCommandV) -> CommandPlan {
    if sc.words.len() == 0 {
        CommandPlan::Redirections
    } else {
        match builtin_named(sc.words[0]) {
            Some(b) => CommandPlan::Builtin(b),
            None => CommandPlan::External,
        }
    }
}

/// A simple command with no words only makes its redirections; one whose first word
/// names a builtin runs that builtin, whatever other words follow; any other runs as a
/// program. So the plan depends on the first word alone.
pub proof fn lemma_command_plan(sc: SimpleCommandV, sc2: SimpleCommandV, b: Builtin)
    ensures
        sc.words.len() == 0 ==> command_plan(sc) == CommandPlan::Redirections,
        sc.words.len() > 0 && builtin_named(sc.words[0]) == Some(b) ==> command_plan(sc)
            == CommandPlan::Builtin(b),
        sc.words.len() > 0 && builtin_named(sc.words[0]) is None ==> command_plan(sc)
            == CommandPlan::External,
        sc.words.len() > 0 && sc2.words.len() > 0 && sc.words[0] == sc2.words[0] ==> command_plan(
            sc,
        ) == command_plan(sc2),
{
}

/// How the simple command `sc` runs.
pub fn plan_command(sc: &SimpleCommand) -> (p: CommandPlan)
    ensures
        p == command_plan(sc@),
{
    if sc.words.len() == 0 {
        CommandPlan::Redirections
    } else {
        match find_builtin(sc.words[0].as_str()) {
            Some(b) => CommandPlan::Builtin(b),
            None => CommandPlan::External,
        }
    }
}

/// The error for redirections that could not be made.
pub fn redirection_error(reason: &str) -> (m: String)
    ensures
        m@ == "Redirection error: "@ + reason@,
{
    let mut m = String::from_str("Redirection error: ");
    m.append(reason);
    m
}

/// The error for a program that could not be started.
pub fn launch_error(program: &str, reason: &str) -> (m: String)
    ensures
        m@ == "Failed to execute '"@ + program@ + "': "@ + reason@,
{
    let mut m = String::from_str("Failed to execute '");
    m.append(program);
    m.append("': ");
    m.append(reason);
    m
}

} // verus!
