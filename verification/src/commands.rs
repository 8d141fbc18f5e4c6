//! The commands that a parsed command line is made of.

use vstd::prelude::*;
use crate::lexer::Token;
use crate::parser::ParseError;
use crate::text::{NulError, check_no_nul, nul_byte_offset};

verus! {

/// The operator that joins a command group to the next one.
#[derive(Debug, Clone, Copy, PartialEq, Eq, Structural)]
pub enum CommandOperator {
    /// `||`
    Or,
    /// `&&`
    And,
    /// `;`
    Sequence,
}

/// Where a command reads its standard input from.
#[derive(Debug, PartialEq)]
pub enum Input {
    Inherit,
    File(String),
    Pipe,
}

/// Where a command writes its standard output to.
#[derive(Debug, PartialEq)]
pub enum Output {
    Inherit,
    File(String),
    AppendFile(String),
    Pipe,
}

/// How a command is run.
#[derive(Debug, Clone, Copy, PartialEq, Eq, Structural)]
pub enum CommandType {
    BuiltIn,
    Executable,
    Unknown,
}

/// One program with its arguments and redirections.
#[derive(Debug, PartialEq)]
pub struct InputCommand {
    pub kind: CommandType,
    pub program: String,
    pub args: Vec<String>,
    pub stdin: Input,
    pub stdout: Output,
}

/// Commands joined by pipes, and the operator that follows them.
#[derive(Debug, PartialEq)]
pub struct CommandGroup {
    pub command: Vec<InputCommand>,
    pub next: Option<CommandOperator>,
}

/// The value of an [`Input`].
pub enum SpecInput {
    Inherit,
    File(Seq<char>),
    Pipe,
}

/// The value of an [`Output`].
pub enum SpecOutput {
    Inherit,
    File(Seq<char>),
    AppendFile(Seq<char>),
    Pipe,
}

/// The value of an [`InputCommand`].
pub struct SpecCommand {
    pub kind: CommandType,
    pub program: Seq<char>,
    pub args: Seq<Seq<char>>,
    pub stdin: SpecInput,
    pub stdout: SpecOutput,
}

/// The value of a [`CommandGroup`].
pub struct SpecGroup {
    pub commands: Seq<SpecCommand>,
    pub next: Option<CommandOperator>,
}

impl View for Input {
    type V = SpecInput;

    open spec fn view(&self) -> SpecInput {
        match self {
            Input::Inherit => SpecInput::Inherit,
            Input::File(p) => SpecInput::File(p@),
            Input::Pipe => SpecInput::Pipe,
        }
    }
}

impl View for Output {
    type V = SpecOutput;

    open spec fn view(&self) -> SpecOutput {
        match self {
            Output::Inherit => SpecOutput::Inherit,
            Output::File(p) => SpecOutput::File(p@),
            Output::AppendFile(p) => SpecOutput::AppendFile(p@),
            Output::Pipe => SpecOutput::Pipe,
        }
    }
}

impl View for InputCommand {
    type V = SpecCommand;

    open spec fn view(&self) -> SpecCommand {
        SpecCommand {
            kind: self.kind,
            program: self.program@,
            args: self.args.deep_view(),
            stdin: self.stdin@,
            stdout: self.stdout@,
        }
    }
}

/// The values of a sequence of commands.
pub open spec fn commands_view(v: Seq<InputCommand>) -> Seq<SpecCommand> {
    v.map_values(|c: InputCommand| c@)
}

impl View for CommandGroup {
    type V = SpecGroup;

    open spec fn view(&self) -> SpecGroup {
        SpecGroup { commands: commands_view(self.command@), next: self.next }
    }
}

/// The values of a sequence of command groups.
pub open spec fn groups_view(v: Seq<CommandGroup>) -> Seq<SpecGroup> {
    v.map_values(|g: CommandGroup| g@)
}

/// The command that [`InputCommand::new`] makes.
pub open spec fn empty_command() -> SpecCommand {
    SpecCommand {
        kind: CommandType::Unknown,
        program: Seq::empty(),
        args: Seq::empty(),
        stdin: SpecInput::Inherit,
        stdout: SpecOutput::Inherit,
    }
}

/// The group that [`CommandGroup::new`] makes.
pub open spec fn empty_group() -> SpecGroup {
    SpecGroup { commands: Seq::empty(), next: None }
}

/// The operator that a token stands for, if any.
pub open spec fn operator_of(t: crate::lexer::SpecToken) -> Option<CommandOperator> {
    match t {
        crate::lexer::SpecToken::Or => Some(CommandOperator::Or),
        crate::lexer::SpecToken::And => Some(CommandOperator::And),
        crate::lexer::SpecToken::Sequence => Some(CommandOperator::Sequence),
        _ => None,
    }
}

impl CommandGroup {
    /// An empty group with no operator.
    pub fn new() -> (g: Self)
        ensures
            g@ == empty_group(),
    {
        let g = CommandGroup { command: Vec::new(), next: None };
        assert(commands_view(g.command@) =~= Seq::<SpecCommand>::empty());
        g
    }

    /// Sets the operator from an operator token; any other token is refused
    /// and leaves the group as it was.
    pub fn set_operator(&mut self, token: Token) -> (r: Result<(), ParseError>)
        ensures
            match operator_of(token@) {
                Some(op) => r is Ok && final(self)@ == (SpecGroup { next: Some(op), ..old(self)@ }),
                None => r == Err::<(), ParseError>(ParseError::UnexpectedToken) && final(self)@ == old(self)@,
            },
    {
        match token {
            Token::Or => self.next = Some(CommandOperator::Or),
            Token::And => self.next = Some(CommandOperator::And),
            Token::Sequence => self.next = Some(CommandOperator::Sequence),
            _ => return Err(ParseError::UnexpectedToken),
        }
        Ok(())
    }

    /// Appends a command to the group.
    pub fn add_command(&mut self, command: InputCommand)
        ensures
            final(self)@ == (SpecGroup { commands: old(self)@.commands.push(command@), ..old(self)@ }),
    {
        let ghost old_cmds = self.command@;
        self.command.push(command);
        assert(commands_view(self.command@) =~= commands_view(old_cmds).push(command@));
    }
}

/// The program followed by the arguments.
pub open spec fn argv_spec(c: SpecCommand) -> Seq<Seq<char>> {
    seq![c.program] + c.args
}

impl InputCommand {
    /// A command with no program, no arguments and inherited streams.
    pub fn new() -> (c: Self)
        ensures
            c@ == empty_command(),
    {
        let c = InputCommand {
            kind: CommandType::Unknown,
            program: String::new(),
            args: Vec::new(),
            stdin: Input::Inherit,
            stdout: Output::Inherit,
        };
        assert(c.args.deep_view() =~= Seq::<Seq<char>>::empty());
        c
    }

    /// The argument vector of the command: the program followed by its
    /// arguments, each of which must be free of NUL bytes to become a C
    /// string. On failure the error names the first offending entry and the
    /// byte offset of its first NUL byte.
    pub fn argv(&self) -> (r: Result<Vec<String>, NulError>)
        ensures
            r is Ok <==> forall|k: int| 0 <= k < argv_spec(self@).len() ==> nul_byte_offset(#[trigger] argv_spec(self@)[k]) is None,
            r matches Ok(v) ==> v.deep_view() == argv_spec(self@),
            r matches Err(e) ==> {
                &&& e.item < argv_spec(self@).len()
                &&& nul_byte_offset(argv_spec(self@)[e.item as int]) == Some(e.position as int)
                &&& forall|k: int| 0 <= k < e.item ==> nul_byte_offset(#[trigger] argv_spec(self@)[k]) is None
            },
    {
        let mut v: Vec<String> = Vec::new();
        v.push(self.program.clone());
        let mut i: usize = 0;
        while i < self.args.len()
            invariant
                i <= self.args@.len(),
                v.deep_view() == argv_spec(self@).take(i + 1),
            decreases self.args.len() - i,
        {
            let ghost old_v = v@;
            assert(self@.args.len() == self.args@.len());
            assert(argv_spec(self@).len() == self.args@.len() + 1);
            assert(v.deep_view().len() == v@.len());
            assert(old_v.len() == i + 1);
            let a = self.args[i].clone();
            assert(a@ == self.args.deep_view()[i as int]);
            v.push(a);
            assert forall|j: int| 0 <= j < i + 2 implies #[trigger] v.deep_view()[j] == argv_spec(self@).take(i + 2)[j] by {
                if j < i + 1 {
                    assert(v@[j] == old_v[j]);
                }
            }
            assert(v.deep_view() =~= argv_spec(self@).take(i + 2));
            i = i + 1;
        }
        assert(argv_spec(self@).take(i + 1) =~= argv_spec(self@));
        match check_no_nul(&v) {
            Ok(()) => {
                assert forall|k: int| 0 <= k < argv_spec(self@).len() implies nul_byte_offset(#[trigger] argv_spec(self@)[k]) is None by {
                    assert(v@[k]@ == v.deep_view()[k]);
                }
                Ok(v)
            },
            Err(e) => {
                assert(v@[e.item as int]@ == v.deep_view()[e.item as int]);
                assert forall|k: int| 0 <= k < e.item implies nul_byte_offset(#[trigger] argv_spec(self@)[k]) is None by {
                    assert(v@[k]@ == v.deep_view()[k]);
                }
                Err(e)
            },
        }
    }

    /// The first argument.
    pub fn get_exec(&self) -> (r: &String)
        requires
            self.args@.len() > 0,
        ensures
            r@ == self@.args[0],
    {
        &self.args[0]
    }
}

} // verus!
