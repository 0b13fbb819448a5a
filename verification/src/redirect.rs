//! What a redirection asks of the shell: which descriptor to change, and how.
use vstd::prelude::*;
use crate::ast::{Redirection, RedirectionType, RedirectionV};
use crate::text::{chars_of, parse_i32, parse_i32_spec};

verus! {

/// How a file is opened for a redirection.
#[derive(Debug, Clone, Copy, PartialEq, Eq)]
pub enum OpenMode {
    /// `<`: read an existing file.
    Read,
    /// `>` and `>|`: write, creating or truncating.
    Truncate,
    /// `>>`: write at the end, creating the file if needed.
    Append,
    /// `<>`: read and write, creating the file if needed.
    ReadWrite,
}

/// What to do to the descriptor.
#[derive(Debug, Clone, PartialEq, Eq)]
pub enum RedirectAction {
    /// Open this file in this mode onto the descriptor.
    Open(OpenMode, String),
    /// Close the descriptor (`<&-`, `>&-`).
    Close,
    /// Make the descriptor a copy of this one.
    Duplicate(i32),
    /// The redirection cannot be done, for this reason.
    Fail(String),
}

/// A redirection as the shell carries it out: the descriptor it changes, and how.
#[derive(Debug, Clone, PartialEq, Eq)]
pub struct RedirectPlan {
    pub fd: i32,
    pub action: RedirectAction,
}

pub enum RedirectActionV {
    Open(OpenMode, Seq<char>),
    Close,
    Duplicate(i32),
    Fail(Seq<char>),
}

impl View for RedirectAction {
    type V = RedirectActionV;

    open spec fn view(&self) -> RedirectActionV {
        match self {
            RedirectAction::Open(m, p) => RedirectActionV::Open(*m, p@),
            RedirectAction::Close => RedirectActionV::Close,
            RedirectAction::Duplicate(n) => RedirectActionV::Duplicate(*n),
            RedirectAction::Fail(e) => RedirectActionV::Fail(e@),
        }
    }
}

/// The descriptor a redirection changes when none is written: standard input for
/// `<`, `<<`, `<>` and `<&`, standard output otherwise.
pub open spec fn default_fd(kind: RedirectionType) -> u32 {
    match kind {
        RedirectionType::Input | RedirectionType::HereDoc | RedirectionType::ReadWrite
        | RedirectionType::DupInput => 0,
        _ => 1,
    }
}

/// The descriptor a redirection changes (a descriptor number read as a raw `i32`).
pub open spec fn target_fd(r: RedirectionV) -> i32 {
    match r.fd {
        Some(fd) => fd as i32,
        None => default_fd(r.redirection_type) as i32,
    }
}

/// What the redirection does to its descriptor.
pub open spec fn redirect_action(r: RedirectionV) -> RedirectActionV {
    match r.redirection_type {
        RedirectionType::Input => RedirectActionV::Open(OpenMode::Read, r.target),
        RedirectionType::Output | RedirectionType::CLobber => RedirectActionV::Open(
            OpenMode::Truncate,
            r.target,
        ),
        RedirectionType::Append => RedirectActionV::Open(OpenMode::Append, r.target),
        RedirectionType::ReadWrite => RedirectActionV::Open(OpenMode::ReadWrite, r.target),
        RedirectionType::DupInput | RedirectionType::DupOutput => if r.target == seq!['-'] {
            RedirectActionV::Close
        } else {
            match parse_i32_spec(r.target) {
                Some(n) => RedirectActionV::Duplicate(n),
                None => RedirectActionV::Fail("Invalid file descriptor for duplication"@),
            }
        },
        RedirectionType::HereDoc => RedirectActionV::Fail(
            "HereDoc not fully implemented in executor"@,
        ),
    }
}

/// Each redirection that opens a file opens it in the mode of its operator: `<` to
/// read, `>` and `>|` to write from empty, `>>` to write at the end, `<>` to read and
/// write. `<&` and `>&` close the descriptor for the target `-`, else copy the
/// descriptor the target names, and fail for a target that names none; `<<` fails. The
/// descriptor changed is the one written before the operator, else standard input for
/// `<`, `<<`, `<>` and `<&`, and standard output for `>`, `>>`, `>|` and `>&`.
pub proof fn lemma_redirection_actions(r: RedirectionV)
    ensures
        r.redirection_type == RedirectionType::Input ==> redirect_action(r) == RedirectActionV::Open(
            OpenMode::Read,
            r.target,
        ),
        r.redirection_type == RedirectionType::Output ==> redirect_action(r)
            == RedirectActionV::Open(OpenMode::Truncate, r.target),
        r.redirection_type == RedirectionType::CLobber ==> redirect_action(r)
            == RedirectActionV::Open(OpenMode::Truncate, r.target),
        r.redirection_type == RedirectionType::Append ==> redirect_action(r)
            == RedirectActionV::Open(OpenMode::Append, r.target),
        r.redirection_type == RedirectionType::ReadWrite ==> redirect_action(r)
            == RedirectActionV::Open(OpenMode::ReadWrite, r.target),
        (r.redirection_type == RedirectionType::DupInput || r.redirection_type
            == RedirectionType::DupOutput) ==> redirect_action(r) == if r.target == seq!['-'] {
            RedirectActionV::Close
        } else if parse_i32_spec(r.target) is Some {
            RedirectActionV::Duplicate(parse_i32_spec(r.target)->Some_0)
        } else {
            RedirectActionV::Fail("Invalid file descriptor for duplication"@)
        },
        r.redirection_type == RedirectionType::HereDoc ==> redirect_action(r) is Fail,
        r.fd is Some ==> target_fd(r) == r.fd->Some_0 as i32,
        r.fd is None ==> target_fd(r) == if r.redirection_type == RedirectionType::Input
            || r.redirection_type == RedirectionType::HereDoc || r.redirection_type
            == RedirectionType::ReadWrite || r.redirection_type == RedirectionType::DupInput {
            0i32
        } else {
            1i32
        },
{
}

fn is_dash(s: &String) -> (r: bool)
    ensures
        r == (s@ == seq!['-']),
{
    let cs = chars_of(s.as_str());
    if cs.len() == 1 && cs[0] == '-' {
        assert(cs@ =~= seq!['-']);
        true
    } else {
        false
    }
}

/// How the shell carries out redirection `r`.
pub fn plan_redirection(r: &Redirection) -> (p: RedirectPlan)
    ensures
        p.fd == target_fd(r@),
        p.action@ == redirect_action(r@),
{
    let fd: u32 = match r.fd {
        Some(fd) => fd,
        None => match r.redirection_type {
            RedirectionType::Input | RedirectionType::HereDoc | RedirectionType::ReadWrite
            | RedirectionType::DupInput => 0,
            _ => 1,
        },
    };
    let fd = fd as i32;
    let action = match r.redirection_type {
        RedirectionType::Input => RedirectAction::Open(OpenMode::Read, r.target.clone()),
        RedirectionType::Output | RedirectionType::CLobber => RedirectAction::Open(
            OpenMode::Truncate,
            r.target.clone(),
        ),
        RedirectionType::Append => RedirectAction::Open(OpenMode::Append, r.target.clone()),
        RedirectionType::ReadWrite => RedirectAction::Open(OpenMode::ReadWrite, r.target.clone()),
        RedirectionType::DupInput | RedirectionType::DupOutput => {
            if is_dash(&r.target) {
                RedirectAction::Close
            } else {
                match parse_i32(r.target.as_str()) {
                    Some(n) => RedirectAction::Duplicate(n),
                    None => RedirectAction::Fail(
                        String::from_str("Invalid file descriptor for duplication"),
                    ),
                }
            }
        },
        RedirectionType::HereDoc => RedirectAction::Fail(
            String::from_str("HereDoc not fully implemented in executor"),
        ),
    };
    RedirectPlan { fd, action }
}

/// The descriptors that redirections saved, so that they can be put back: each a pair
/// of the descriptor and the copy of what it was before, in the order they were saved.
pub struct FdBackups {
    saved: Vec<(i32, i32)>,
}

impl View for FdBackups {
    type V = Seq<(i32, i32)>;

    closed spec fn view(&self) -> Seq<(i32, i32)> {
        self.saved@
    }
}

impl FdBackups {
    /// Nothing saved yet.
    pub fn new() -> (r: FdBackups)
        ensures
            r@ == Seq::<(i32, i32)>::empty(),
    {
        FdBackups { saved: Vec::new() }
    }

    /// Records that descriptor `fd` was saved as `backup`.
    pub fn record(&mut self, fd: i32, backup: i32)
        ensures
            final(self)@ == old(self)@.push((fd, backup)),
    {
        self.saved.push((fd, backup));
    }

    /// Forgets what was saved: the redirections are to stay (as in a child process).
    pub fn forget(&mut self)
        ensures
            final(self)@ == Seq::<(i32, i32)>::empty(),
    {
        self.saved = Vec::new();
    }

    /// Takes what was saved, in the order to put it back: the last saved first, so that
    /// a descriptor redirected twice ends as it was before the first redirection.
    pub fn take_restore_order(&mut self) -> (r: Vec<(i32, i32)>)
        ensures
            r@ == old(self)@.reverse(),
            final(self)@ == Seq::<(i32, i32)>::empty(),
    {
        let ghost all = self.saved@;
        let mut out: Vec<(i32, i32)> = Vec::new();
        while self.saved.len() > 0
            invariant
                out.len() + self.saved.len() == all.len(),
                self.saved@ == all.take(self.saved.len() as int),
                forall|i: int| 0 <= i < out.len() ==> out@[i] == all[all.len() - 1 - i],
            decreases self.saved.len(),
        {
            let ghost before = self.saved@;
            let p = self.saved.pop().unwrap();
            assert(before.last() == all[self.saved.len() as int]);
            assert(self.saved@ =~= all.take(self.saved.len() as int));
            out.push(p);
        }
        assert(out@ =~= all.reverse());
        out
    }
}

} // verus!
