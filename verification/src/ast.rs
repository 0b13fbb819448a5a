//! The syntax tree of shell commands, and its mathematical view.
use vstd::prelude::*;

verus! {

/// The kind of a redirection operator.
#[derive(Debug, Clone, Copy, PartialEq)]
pub enum RedirectionType {
    /// `<`
    Input,
    /// `>`
    Output,
    /// `>>`
    Append,
    /// `<>`
    ReadWrite,
    /// `<&`
    DupInput,
    /// `>&`
    DupOutput,
    /// `<<`
    HereDoc,
    /// `>|`
    CLobber,
}

/// A redirection such as `2> file`.
#[derive(Debug, Clone, PartialEq)]
pub struct Redirection {
    /// The file descriptor written before the operator (the `2` in `2>`).
    pub fd: Option<u32>,
    pub redirection_type: RedirectionType,
    /// A file name, or a descriptor number for `<&` and `>&`.
    pub target: String,
}

/// A command with its variable assignments, words and redirections.
#[derive(Debug, Clone, PartialEq)]
pub struct SimpleCommand {
    /// Words of the form `var=value` before the command name.
    pub assignments: Vec<String>,
    /// The command name and its arguments.
    pub words: Vec<String>,
    pub redirections: Vec<Redirection>,
}

/// `if` ... `then` ... (`elif` ... `then` ...)* (`else` ...)? `fi`
#[derive(Debug, PartialEq)]
pub struct IfCommand {
    pub condition: Box<CommandList>,
    pub then_branch: Box<CommandList>,
    /// Pairs of (condition, body).
    pub elif_branches: Vec<(CommandList, CommandList)>,
    pub else_branch: Option<Box<CommandList>>,
}

#[derive(Debug, PartialEq)]
pub enum Command {
    Simple(SimpleCommand),
    If(IfCommand),
}

/// A sequence of commands run one after the other.
#[derive(Debug, PartialEq)]
pub struct CommandList {
    pub commands: Vec<Command>,
    pub asynchronous: bool,
}

/// A redirection as a mathematical value.
#[verifier::ext_equal]
pub struct RedirectionV {
    pub fd: Option<u32>,
    pub redirection_type: RedirectionType,
    pub target: Seq<char>,
}

#[verifier::ext_equal]
pub struct SimpleCommandV {
    pub assignments: Seq<Seq<char>>,
    pub words: Seq<Seq<char>>,
    pub redirections: Seq<RedirectionV>,
}

#[verifier::ext_equal]
pub struct IfCommandV {
    pub condition: CommandListV,
    pub then_branch: CommandListV,
    pub elif_branches: Seq<(CommandListV, CommandListV)>,
    pub else_branch: Option<CommandListV>,
}

#[verifier::ext_equal]
pub enum CommandV {
    Simple(SimpleCommandV),
    If(IfCommandV),
}

#[verifier::ext_equal]
pub struct CommandListV {
    pub commands: Seq<CommandV>,
    pub asynchronous: bool,
}

/// The characters of each string.
pub open spec fn strings_view(v: Seq<String>) -> Seq<Seq<char>> {
    v.map_values(|s: String| s@)
}

impl View for Redirection {
    type V = RedirectionV;

    open spec fn view(&self) -> RedirectionV {
        RedirectionV {
            fd: self.fd,
            redirection_type: self.redirection_type,
            target: self.target@,
        }
    }
}

impl View for SimpleCommand {
    type V = SimpleCommandV;

    open spec fn view(&self) -> SimpleCommandV {
        SimpleCommandV {
            assignments: strings_view(self.assignments@),
            words: strings_view(self.words@),
            redirections: self.redirections@.map_values(|r: Redirection| r@),
        }
    }
}

pub open spec fn command_view(c: Command) -> CommandV
    decreases c,
{
    match c {
        Command::Simple(s) => CommandV::Simple(s@),
        Command::If(i) => CommandV::If(
            IfCommandV {
                condition: list_view(*i.condition),
                then_branch: list_view(*i.then_branch),
                elif_branches: elifs_view(i.elif_branches@),
                else_branch: match i.else_branch {
                    Some(b) => Some(list_view(*b)),
                    None => None,
                },
            },
        ),
    }
}

pub open spec fn list_view(l: CommandList) -> CommandListV
    decreases l,
{
    CommandListV { commands: commands_view(l.commands@), asynchronous: l.asynchronous }
}

pub open spec fn commands_view(cs: Seq<Command>) -> Seq<CommandV>
    decreases cs,
{
    if cs.len() == 0 {
        Seq::empty()
    } else {
        commands_view(cs.drop_last()).push(command_view(cs.last()))
    }
}

pub open spec fn elifs_view(es: Seq<(CommandList, CommandList)>) -> Seq<(CommandListV, CommandListV)>
    decreases es,
{
    if es.len() == 0 {
        Seq::empty()
    } else {
        elifs_view(es.drop_last()).push((list_view(es.last().0), list_view(es.last().1)))
    }
}

impl View for Command {
    type V = CommandV;

    open spec fn view(&self) -> CommandV {
        command_view(*self)
    }
}

impl View for CommandList {
    type V = CommandListV;

    open spec fn view(&self) -> CommandListV {
        list_view(*self)
    }
}

impl View for IfCommand {
    type V = IfCommandV;

    open spec fn view(&self) -> IfCommandV {
        IfCommandV {
            condition: list_view(*self.condition),
            then_branch: list_view(*self.then_branch),
            elif_branches: elifs_view(self.elif_branches@),
            else_branch: match self.else_branch {
                Some(b) => Some(list_view(*b)),
                None => None,
            },
        }
    }
}

/// `commands_view` maps element by element.
pub proof fn lemma_commands_view(cs: Seq<Command>)
    ensures
        commands_view(cs).len() == cs.len(),
        forall|i: int| 0 <= i < cs.len() ==> #[trigger] commands_view(cs)[i] == command_view(cs[i]),
    decreases cs.len(),
{
    if cs.len() > 0 {
        lemma_commands_view(cs.drop_last());
    }
}

/// `elifs_view` maps element by element.
pub proof fn lemma_elifs_view(es: Seq<(CommandList, CommandList)>)
    ensures
        elifs_view(es).len() == es.len(),
        forall|i: int|
            0 <= i < es.len() ==> #[trigger] elifs_view(es)[i] == (
                list_view(es[i].0),
                list_view(es[i].1),
            ),
    decreases es.len(),
{
    if es.len() > 0 {
        lemma_elifs_view(es.drop_last());
    }
}

} // verus!
