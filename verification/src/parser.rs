//! The parser: turns the tokens of a command line into command groups.
//!
//! Parsing is a state machine over the tokens. The mathematical statement of
//! it is [`step`] (one token), [`run`] (all tokens) and [`finish`] (end of
//! input); [`parse_input`] puts them together with the lexer.

use vstd::prelude::*;
use crate::lexer::{ShellLexer, SpecToken, Token, tokenize, tokens_view};
use crate::commands::{CommandType, CommandGroup, InputCommand, Input, Output, SpecCommand, SpecGroup, SpecInput, SpecOutput, empty_command, empty_group, groups_view, operator_of};

verus! {

/// Why a command line was refused.
#[derive(Debug, Clone, Copy, PartialEq, Eq, Structural)]
pub enum ParseError {
    MissingRedirectTarget,
    UnexpectedToken,
    InvalidRedirection,
    PipeFromNoProgram,
    ProgramIsEmpty,
}

/// What the parser expects next.
#[derive(Debug, Clone, Copy, PartialEq, Eq, Structural)]
pub enum ParserState {
    /// A program name.
    Command,
    /// An argument, a redirection or an operator.
    Arg,
    /// The target of `>`.
    ExpectOut,
    /// The source of `<`.
    ExpectIn,
    /// The target of `>>`.
    ExpectAppend,
}

/// The parser.
pub struct ShellParser {
    state: ParserState,
}

/// Everything the parser holds between two tokens: its state, the finished
/// groups, the group being built and the command being built.
pub struct ParseCfg {
    pub state: ParserState,
    pub groups: Seq<SpecGroup>,
    pub group: SpecGroup,
    pub command: SpecCommand,
}

/// The configuration before the first token.
pub open spec fn initial_cfg(state: ParserState) -> ParseCfg {
    ParseCfg { state, groups: Seq::empty(), group: empty_group(), command: empty_command() }
}

/// The effect of one token.
pub open spec fn step(c: ParseCfg, t: SpecToken) -> Result<ParseCfg, ParseError> {
    let cmd = c.command;
    match (c.state, t) {
        (ParserState::Command, SpecToken::Word(w)) => Ok(
            ParseCfg { state: ParserState::Arg, command: SpecCommand { program: w, ..cmd }, ..c },
        ),
        (ParserState::Arg, SpecToken::Word(w)) => Ok(
            ParseCfg { command: SpecCommand { args: cmd.args.push(w), ..cmd }, ..c },
        ),
        (ParserState::Arg, SpecToken::FileIN) => Ok(ParseCfg { state: ParserState::ExpectIn, ..c }),
        (ParserState::ExpectIn, SpecToken::Word(w)) => if cmd.stdin is Inherit {
            Ok(
                ParseCfg {
                    state: ParserState::Arg,
                    command: SpecCommand { stdin: SpecInput::File(w), ..cmd },
                    ..c
                },
            )
        } else {
            Err(ParseError::InvalidRedirection)
        },
        (ParserState::Arg, SpecToken::FileOUT) => if cmd.stdout is Inherit {
            Ok(ParseCfg { state: ParserState::ExpectOut, ..c })
        } else {
            Err(ParseError::InvalidRedirection)
        },
        (ParserState::ExpectOut, SpecToken::Word(w)) => Ok(
            ParseCfg {
                state: ParserState::Arg,
                command: SpecCommand { stdout: SpecOutput::File(w), ..cmd },
                ..c
            },
        ),
        (ParserState::Arg, SpecToken::FileAppend) => if cmd.stdout is Inherit {
            Ok(ParseCfg { state: ParserState::ExpectAppend, ..c })
        } else {
            Err(ParseError::InvalidRedirection)
        },
        (ParserState::ExpectAppend, SpecToken::Word(w)) => Ok(
            ParseCfg {
                state: ParserState::Arg,
                command: SpecCommand { stdout: SpecOutput::AppendFile(w), ..cmd },
                ..c
            },
        ),
        (ParserState::Arg, SpecToken::Pipe) => if cmd.program.len() == 0 {
            Err(ParseError::PipeFromNoProgram)
        } else if !(cmd.stdout is Inherit) {
            Err(ParseError::InvalidRedirection)
        } else {
            Ok(
                ParseCfg {
                    state: ParserState::Command,
                    groups: c.groups,
                    group: SpecGroup {
                        commands: c.group.commands.push(
                            SpecCommand { stdout: SpecOutput::Pipe, ..cmd },
                        ),
                        ..c.group
                    },
                    command: SpecCommand { stdin: SpecInput::Pipe, ..empty_command() },
                },
            )
        },
        (ParserState::Arg, SpecToken::And)
        | (ParserState::Arg, SpecToken::Or)
        | (ParserState::Arg, SpecToken::Sequence) => if !(cmd.stdout is Inherit)
            || cmd.stdin is File {
            Err(ParseError::InvalidRedirection)
        } else {
            Ok(
                ParseCfg {
                    state: ParserState::Command,
                    groups: c.groups.push(
                        SpecGroup { commands: c.group.commands.push(cmd), next: operator_of(t) },
                    ),
                    group: empty_group(),
                    command: empty_command(),
                },
            )
        },
        _ => Err(ParseError::UnexpectedToken),
    }
}

/// The effect of a sequence of tokens, stopping at the first error.
pub open spec fn run(c: ParseCfg, toks: Seq<SpecToken>) -> Result<ParseCfg, ParseError>
    decreases toks.len(),
{
    if toks.len() == 0 {
        Ok(c)
    } else {
        match step(c, toks[0]) {
            Ok(c2) => run(c2, toks.drop_first()),
            Err(e) => Err(e),
        }
    }
}

/// The end of input: a pending redirection lacks its target, an empty
/// command is refused, and otherwise the command closes the last group.
pub open spec fn finish(c: ParseCfg) -> Result<Seq<SpecGroup>, ParseError> {
    match c.state {
        ParserState::ExpectIn | ParserState::ExpectOut | ParserState::ExpectAppend => Err(
            ParseError::MissingRedirectTarget,
        ),
        _ => if c.command.program.len() == 0 {
            Err(ParseError::ProgramIsEmpty)
        } else {
            Ok(c.groups.push(SpecGroup { commands: c.group.commands.push(c.command), ..c.group }))
        },
    }
}

/// The result of parsing a sequence of tokens from a given state.
pub open spec fn parse_tokens(state: ParserState, toks: Seq<SpecToken>) -> Result<
    Seq<SpecGroup>,
    ParseError,
> {
    match run(initial_cfg(state), toks) {
        Ok(c) => finish(c),
        Err(e) => Err(e),
    }
}

/// The result of parsing a command line from a given state.
pub open spec fn parse_input(state: ParserState, input: Seq<char>) -> Result<
    Seq<SpecGroup>,
    ParseError,
> {
    parse_tokens(state, tokenize(input))
}

/// The configuration that the parser's variables stand for.
pub open spec fn cfg_of(
    state: ParserState,
    lst: Seq<CommandGroup>,
    group: CommandGroup,
    command: InputCommand,
) -> ParseCfg {
    ParseCfg { state, groups: groups_view(lst), group: group@, command: command@ }
}

impl ShellParser {
    /// The state that the next parse starts from.
    pub closed spec fn spec_state(&self) -> ParserState {
        self.state
    }

    /// A parser that expects a program name first.
    pub fn new() -> (p: Self)
        ensures
            p.spec_state() == ParserState::Command,
    {
        ShellParser { state: ParserState::Command }
    }

    /// Parses a command line into command groups.
    pub fn parse_user_command(self, user_input: &str) -> (r: Result<Vec<CommandGroup>, ParseError>)
        ensures
            match r {
                Ok(v) => parse_input(self.spec_state(), user_input@) == Ok::<_, ParseError>(groups_view(v@)),
                Err(e) => parse_input(self.spec_state(), user_input@) == Err::<Seq<SpecGroup>, _>(e),
            },
    {
        let tokens = ShellLexer::tokenize_input(user_input);
        let ghost toks = tokens_view(tokens@);
        let mut state = self.state;
        let mut command_lst: Vec<CommandGroup> = Vec::new();
        let mut commandgroup = CommandGroup::new();
        let mut command = InputCommand::new();
        assert(groups_view(command_lst@) =~= Seq::<SpecGroup>::empty());
        assert(toks.skip(0) =~= toks);
        assert(cfg_of(state, command_lst@, commandgroup, command) == initial_cfg(self.state));
        let mut i: usize = 0;
        while i < tokens.len()
            invariant
                i <= tokens@.len(),
                toks == tokens_view(tokens@),
                toks == tokenize(user_input@),
                run(initial_cfg(self.state), toks) == run(
                    cfg_of(state, command_lst@, commandgroup, command),
                    toks.skip(i as int),
                ),
            decreases tokens.len() - i,
        {
            let ghost c = cfg_of(state, command_lst@, commandgroup, command);
            let ghost rest = toks.skip(i as int);
            assert(rest[0] == tokens@[i as int]@);
            assert(rest.drop_first() =~= toks.skip(i + 1));
            let ghost next = step(c, rest[0]);
            assert(run(c, rest) == match next {
                Ok(c2) => run(c2, toks.skip(i + 1)),
                Err(e) => Err(e),
            });
            match (state, &tokens[i]) {
                (ParserState::Command, Token::Word(word)) => {
                    command.program = word.clone();
                    state = ParserState::Arg;
                },
                (ParserState::Arg, Token::Word(word)) => {
                    let ghost old_args = command.args@;
                    command.args.push(word.clone());
                    assert(command.args.deep_view() =~= old_args.map_values(|s: String| s@).push(word@)) by {
                        assert forall|k: int| 0 <= k < old_args.len() implies #[trigger] command.args.deep_view()[k] == old_args[k]@ by {
                            assert(command.args@[k] == old_args[k]);
                        }
                    }
                    assert(command.args.deep_view() =~= c.command.args.push(word@)) by {
                        assert forall|k: int| 0 <= k < old_args.len() implies #[trigger] command.args.deep_view()[k] == c.command.args[k] by {
                            assert(command.args@[k] == old_args[k]);
                        }
                    }
                },
                (ParserState::Arg, Token::FileIN) => {
                    state = ParserState::ExpectIn;
                },
                (ParserState::ExpectIn, Token::Word(word)) => {
                    match command.stdin {
                        Input::Inherit => {},
                        _ => {
                            return Err(ParseError::InvalidRedirection);
                        },
                    }
                    command.stdin = Input::File(word.clone());
                    state = ParserState::Arg;
                },
                (ParserState::Arg, Token::FileOUT) => {
                    match command.stdout {
                        Output::Inherit => {},
                        _ => {
                            return Err(ParseError::InvalidRedirection);
                        },
                    }
                    state = ParserState::ExpectOut;
                },
                (ParserState::ExpectOut, Token::Word(word)) => {
                    command.stdout = Output::File(word.clone());
                    state = ParserState::Arg;
                },
                (ParserState::Arg, Token::FileAppend) => {
                    match command.stdout {
                        Output::Inherit => {},
                        _ => {
                            return Err(ParseError::InvalidRedirection);
                        },
                    }
                    state = ParserState::ExpectAppend;
                },
                (ParserState::ExpectAppend, Token::Word(word)) => {
                    command.stdout = Output::AppendFile(word.clone());
                    state = ParserState::Arg;
                },
                (ParserState::Arg, Token::Pipe) => {
                    if command.program.as_str().is_empty() {
                        return Err(ParseError::PipeFromNoProgram);
                    }
                    match command.stdout {
                        Output::Inherit => {},
                        _ => {
                            return Err(ParseError::InvalidRedirection);
                        },
                    }
                    command.stdout = Output::Pipe;
                    commandgroup.add_command(command);
                    command = InputCommand::new();
                    command.stdin = Input::Pipe;
                    state = ParserState::Command;
                },
                (ParserState::Arg, Token::And)
                | (ParserState::Arg, Token::Or)
                | (ParserState::Arg, Token::Sequence) => {
                    let bad_out = match command.stdout {
                        Output::Inherit => false,
                        _ => true,
                    };
                    let bad_in = match command.stdin {
                        Input::File(_) => true,
                        _ => false,
                    };
                    if bad_out || bad_in {
                        return Err(ParseError::InvalidRedirection);
                    }
                    let tok = match &tokens[i] {
                        Token::And => Token::And,
                        Token::Or => Token::Or,
                        _ => Token::Sequence,
                    };
                    commandgroup.add_command(command);
                    commandgroup.set_operator(tok)?;
                    let ghost old_lst = command_lst@;
                    command_lst.push(commandgroup);
                    assert(groups_view(command_lst@) =~= groups_view(old_lst).push(commandgroup@)) by {
                        assert forall|k: int| 0 <= k < old_lst.len() implies #[trigger] groups_view(command_lst@)[k] == groups_view(old_lst)[k] by {
                            assert(command_lst@[k] == old_lst[k]);
                        }
                    }
                    command = InputCommand::new();
                    commandgroup = CommandGroup::new();
                    state = ParserState::Command;
                },
                _ => {
                    return Err(ParseError::UnexpectedToken);
                },
            }
            i = i + 1;
        }
        assert(toks.skip(i as int) =~= Seq::<SpecToken>::empty());
        match state {
            ParserState::ExpectIn | ParserState::ExpectOut | ParserState::ExpectAppend => {
                return Err(ParseError::MissingRedirectTarget);
            },
            _ => {},
        }
        if command.program.as_str().is_empty() {
            return Err(ParseError::ProgramIsEmpty);
        }
        commandgroup.add_command(command);
        let ghost old_lst = command_lst@;
        command_lst.push(commandgroup);
        assert(groups_view(command_lst@) =~= groups_view(old_lst).push(commandgroup@)) by {
            assert forall|k: int| 0 <= k < old_lst.len() implies #[trigger] groups_view(command_lst@)[k] == groups_view(old_lst)[k] by {
                assert(command_lst@[k] == old_lst[k]);
            }
        }
        Ok(command_lst)
    }
}

} // verus!

verus! {

/// A command as the parser leaves it: a non-empty program name, no kind
/// decided yet, and its place in a pipe chain of `n` commands at index `j`
/// decides exactly which of its streams are pipes.
pub open spec fn command_in_chain(c: SpecCommand, j: int, n: int) -> bool {
    &&& c.kind == CommandType::Unknown
    &&& c.program.len() > 0
    &&& (c.stdout is Pipe <==> j < n - 1)
    &&& (c.stdin is Pipe <==> j > 0)
}

/// A well-formed group: a non-empty pipe chain. A group that another group
/// follows ends in a command whose output is inherited and whose input is
/// not a file.
pub open spec fn group_well_formed(g: SpecGroup, last: bool) -> bool {
    &&& g.commands.len() > 0
    &&& forall|j: int| 0 <= j < g.commands.len() ==> command_in_chain(#[trigger] g.commands[j], j, g.commands.len() as int)
    &&& (last <==> g.next is None)
    &&& !last ==> (g.commands.last().stdout is Inherit && !(g.commands.last().stdin is File))
}

/// A well-formed parse result: a non-empty list of well-formed groups in
/// which exactly the last one has no operator.
pub open spec fn groups_well_formed(gs: Seq<SpecGroup>) -> bool {
    &&& gs.len() > 0
    &&& forall|k: int| 0 <= k < gs.len() ==> group_well_formed(#[trigger] gs[k], k == gs.len() - 1)
}

/// What holds of the parser's configuration between two tokens when it
/// started in the `Command` state.
pub open spec fn cfg_inv(c: ParseCfg) -> bool {
    &&& forall|k: int| 0 <= k < c.groups.len() ==> group_well_formed(#[trigger] c.groups[k], false)
    &&& c.group.next is None
    &&& forall|j: int| 0 <= j < c.group.commands.len() ==> {
        &&& (#[trigger] c.group.commands[j]).kind == CommandType::Unknown
        &&& c.group.commands[j].program.len() > 0
        &&& c.group.commands[j].stdout is Pipe
        &&& (c.group.commands[j].stdin is Pipe <==> j > 0)
    }
    &&& c.command.kind == CommandType::Unknown
    &&& !(c.command.stdout is Pipe)
    &&& (c.command.stdin is Pipe <==> c.group.commands.len() > 0)
    &&& (c.state == ParserState::Command <==> c.command.program.len() == 0)
}

proof fn lemma_step_inv(c: ParseCfg, t: SpecToken)
    requires
        cfg_inv(c),
        t matches SpecToken::Word(w) ==> w.len() > 0,
    ensures
        step(c, t) matches Ok(c2) ==> cfg_inv(c2),
{
    match step(c, t) {
        Ok(c2) => {
            if c2.groups.len() > c.groups.len() {
                let g = c2.groups.last();
                assert(group_well_formed(g, false)) by {
                    assert forall|j: int| 0 <= j < g.commands.len() implies command_in_chain(#[trigger] g.commands[j], j, g.commands.len() as int) by {
                        if j < g.commands.len() - 1 {
                            assert(g.commands[j] == c.group.commands[j]);
                        }
                    }
                }
                assert forall|k: int| 0 <= k < c2.groups.len() implies group_well_formed(#[trigger] c2.groups[k], false) by {
                    if k < c.groups.len() {
                        assert(c2.groups[k] == c.groups[k]);
                    }
                }
            }
            if c2.group.commands.len() > c.group.commands.len() {
                assert forall|j: int| 0 <= j < c2.group.commands.len() implies {
                    &&& (#[trigger] c2.group.commands[j]).kind == CommandType::Unknown
                    &&& c2.group.commands[j].program.len() > 0
                    &&& c2.group.commands[j].stdout is Pipe
                    &&& (c2.group.commands[j].stdin is Pipe <==> j > 0)
                } by {
                    if j < c.group.commands.len() {
                        assert(c2.group.commands[j] == c.group.commands[j]);
                    }
                }
            }
        },
        Err(_) => {},
    }
}

proof fn lemma_run_inv(c: ParseCfg, toks: Seq<SpecToken>)
    requires
        cfg_inv(c),
        forall|k: int| 0 <= k < toks.len() ==> (#[trigger] toks[k] matches SpecToken::Word(w) ==> w.len() > 0),
    ensures
        run(c, toks) matches Ok(c2) ==> cfg_inv(c2),
    decreases toks.len(),
{
    if toks.len() > 0 {
        lemma_step_inv(c, toks[0]);
        match step(c, toks[0]) {
            Ok(c2) => {
                assert forall|k: int| 0 <= k < toks.drop_first().len() implies (#[trigger] toks.drop_first()[k] matches SpecToken::Word(w) ==> w.len() > 0) by {
                    assert(toks.drop_first()[k] == toks[k + 1]);
                }
                lemma_run_inv(c2, toks.drop_first())
            },
            Err(_) => {},
        }
    }
}

/// Every command list that a parser returns is well formed: groups are
/// non-empty pipe chains of named programs, pipes join exactly the adjacent
/// commands of a group, every group but the last carries an operator, and
/// no kind is decided yet.
pub proof fn lemma_parse_well_formed(input: Seq<char>)
    ensures
        parse_input(ParserState::Command, input) matches Ok(gs) ==> groups_well_formed(gs),
{
    let c0 = initial_cfg(ParserState::Command);
    assert(cfg_inv(c0));
    crate::lexer::lemma_tokenize_words_nonempty(input);
    lemma_run_inv(c0, tokenize(input));
    match run(c0, tokenize(input)) {
        Ok(c) => {
            match finish(c) {
                Ok(gs) => {
                    let g = gs.last();
                    assert(group_well_formed(g, true)) by {
                        assert forall|j: int| 0 <= j < g.commands.len() implies command_in_chain(#[trigger] g.commands[j], j, g.commands.len() as int) by {
                            if j < g.commands.len() - 1 {
                                assert(g.commands[j] == c.group.commands[j]);
                            }
                        }
                    }
                    assert forall|k: int| 0 <= k < gs.len() implies group_well_formed(#[trigger] gs[k], k == gs.len() - 1) by {
                        if k < gs.len() - 1 {
                            assert(gs[k] == c.groups[k]);
                        }
                    }
                },
                Err(_) => {},
            }
        },
        Err(_) => {},
    }
}


impl ParseError {
    /// The text that describes the error.
    pub open spec fn message_spec(&self) -> Seq<char> {
        match self {
            ParseError::InvalidRedirection => "Parser Error: Invalid stream I/O in command"@,
            ParseError::MissingRedirectTarget => "Parser Error: Missing target value for Stream Redirection"@,
            ParseError::UnexpectedToken => "Parser Error: UnexpectedToken found in command"@,
            ParseError::ProgramIsEmpty => "Parser Error: No program Extract from input"@,
            ParseError::PipeFromNoProgram => "Parser Error: Pipe has no valid target"@,
        }
    }

    /// The text that describes the error.
    pub fn message(&self) -> (r: String)
        ensures
            r@ == self.message_spec(),
    {
        match self {
            ParseError::InvalidRedirection => "Parser Error: Invalid stream I/O in command".to_owned(),
            ParseError::MissingRedirectTarget => "Parser Error: Missing target value for Stream Redirection".to_owned(),
            ParseError::UnexpectedToken => "Parser Error: UnexpectedToken found in command".to_owned(),
            ParseError::ProgramIsEmpty => "Parser Error: No program Extract from input".to_owned(),
            ParseError::PipeFromNoProgram => "Parser Error: Pipe has no valid target".to_owned(),
        }
    }
}

impl ShellParser {
    /// The program itself when `executables` lists it as an executable
    /// file, otherwise nothing.
    pub fn find_executable(self, program_name: String, executables: &Vec<String>) -> (r: Option<String>)
        ensures
            match r {
                Some(p) => p@ == program_name@ && crate::config::listed(program_name@, executables.deep_view()),
                None => !crate::config::listed(program_name@, executables.deep_view()),
            },
    {
        let mut k: usize = 0;
        while k < executables.len()
            invariant
                k <= executables@.len(),
                forall|m: int| 0 <= m < k ==> executables.deep_view()[m] != program_name@,
            decreases executables.len() - k,
        {
            if executables[k].eq(&program_name) {
                assert(executables.deep_view()[k as int] == program_name@);
                return Some(program_name);
            }
            k = k + 1;
        }
        None
    }
}

} // verus!
