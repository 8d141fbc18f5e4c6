//! The decisions of running command groups: which commands are built in,
//! where programs are found, which pipes a group needs, where each command's
//! streams go, and which groups run after which exit status.

use vstd::prelude::*;
use crate::commands::{CommandGroup, CommandOperator, CommandType, Input, InputCommand, Output, SpecCommand, SpecGroup, commands_view, groups_view};
use crate::config::{ConfigError, ShellConfig, SpecConfigError, build_path_spec};
use crate::file::{FileError, FileMode};
use crate::parser::{ParserState, command_in_chain, group_well_formed, lemma_parse_well_formed, parse_input};

verus! {

/// Why running a command line failed.
#[derive(Debug, PartialEq)]
pub enum ExecError {
    FailedPipeCreation,
    InvalidPipeline,
    UnknownCommand,
    /// A stream of the shell failed; the text is its description.
    IOError(String),
    FileError(FileError),
    ConfigError(ConfigError),
    /// A built-in command was given arguments it does not take.
    ArgError(String),
}

/// `nix::errno::Errno`, the error of the system calls that set up a
/// pipeline. Declared so that the conversion below can name it; nothing is
/// claimed of its values.
#[verifier::external_type_specification]
#[verifier::external_body]
pub struct ExErrno(nix::errno::Errno);

/// A failed system call while setting up a pipeline.
impl From<nix::errno::Errno> for ExecError {
    fn from(_e: nix::errno::Errno) -> (r: Self)
        ensures
            r == ExecError::FailedPipeCreation,
    {
        ExecError::FailedPipeCreation
    }
}

impl vstd::std_specs::convert::FromSpecImpl<nix::errno::Errno> for ExecError {
    open spec fn obeys_from_spec() -> bool {
        true
    }

    open spec fn from_spec(e: nix::errno::Errno) -> Self {
        ExecError::FailedPipeCreation
    }
}

/// An environment error is kept as it is.
impl From<ConfigError> for ExecError {
    fn from(e: ConfigError) -> (r: Self)
        ensures
            r == ExecError::ConfigError(e),
    {
        ExecError::ConfigError(e)
    }
}

impl vstd::std_specs::convert::FromSpecImpl<ConfigError> for ExecError {
    open spec fn obeys_from_spec() -> bool {
        true
    }

    open spec fn from_spec(e: ConfigError) -> Self {
        ExecError::ConfigError(e)
    }
}

/// A file error is reported as an invalid path, whatever it was.
impl From<FileError> for ExecError {
    fn from(_e: FileError) -> (r: Self)
        ensures
            r == ExecError::FileError(FileError::PathError),
    {
        ExecError::FileError(FileError::PathError)
    }
}

impl vstd::std_specs::convert::FromSpecImpl<FileError> for ExecError {
    open spec fn obeys_from_spec() -> bool {
        true
    }

    open spec fn from_spec(e: FileError) -> Self {
        ExecError::FileError(FileError::PathError)
    }
}

/// The names of the built-in commands.
pub open spec fn is_builtin_name(p: Seq<char>) -> bool {
    ||| p == seq!['c', 'd']
    ||| p == seq!['p', 'w', 'd']
    ||| p == seq!['e', 'x', 'p', 'o', 'r', 't']
    ||| p == seq!['u', 'n', 's', 'e', 't']
    ||| p == seq!['e', 'x', 'i', 't']
}

/// The kind that a program name gives before any lookup.
pub open spec fn builtin_kind(p: Seq<char>) -> CommandType {
    if is_builtin_name(p) {
        CommandType::BuiltIn
    } else {
        CommandType::Unknown
    }
}

/// Whether a string equals a literal.
fn is_literal(s: &str, lit: &str) -> (r: bool)
    ensures
        r == (s@ == lit@),
{
    let a = s.to_owned();
    let b = lit.to_owned();
    a.eq(&b)
}

/// `BuiltIn` for `cd`, `pwd`, `export`, `unset` and `exit`, otherwise
/// `Unknown`.
pub fn check_builtin(command: &str) -> (r: CommandType)
    ensures
        r == builtin_kind(command@),
{
    proof {
        reveal_strlit("cd");
        reveal_strlit("pwd");
        reveal_strlit("export");
        reveal_strlit("unset");
        reveal_strlit("exit");
        assert("cd"@ =~= seq!['c', 'd']);
        assert("pwd"@ =~= seq!['p', 'w', 'd']);
        assert("export"@ =~= seq!['e', 'x', 'p', 'o', 'r', 't']);
        assert("unset"@ =~= seq!['u', 'n', 's', 'e', 't']);
        assert("exit"@ =~= seq!['e', 'x', 'i', 't']);
    }
    if is_literal(command, "cd") || is_literal(command, "pwd") || is_literal(command, "export")
        || is_literal(command, "unset") || is_literal(command, "exit") {
        CommandType::BuiltIn
    } else {
        CommandType::Unknown
    }
}

/// Whether a command may be started as a program: an executable is
/// started, a command of unknown kind is refused. Built-in commands are not
/// run by this path.
pub fn check_launchable(kind: CommandType) -> (r: Result<(), ExecError>)
    requires
        kind != CommandType::BuiltIn,
    ensures
        kind == CommandType::Executable <==> r is Ok,
        kind == CommandType::Unknown <==> r matches Err(ExecError::UnknownCommand),
{
    match kind {
        CommandType::Executable => Ok(()),
        _ => Err(ExecError::UnknownCommand),
    }
}


/// Whether a pipe joins two adjacent commands of a group: both ends must
/// agree, a pipe on one side only is an invalid pipeline.
pub open spec fn stream_between_spec(current: crate::commands::SpecOutput, next: crate::commands::SpecInput) -> Result<bool, ()> {
    if current is Pipe && next is Pipe {
        Ok(true)
    } else if current is Pipe || next is Pipe {
        Err(())
    } else {
        Ok(false)
    }
}

/// Decides for two adjacent commands of a group whether a pipe is created
/// between them (`Ok(true)`), none is needed (`Ok(false)`), or the pipeline is
/// invalid.
pub fn stream_between(current: &Output, next: &Input) -> (r: Result<bool, ExecError>)
    ensures
        match stream_between_spec(current@, next@) {
            Ok(b) => r == Ok::<bool, ExecError>(b),
            Err(_) => r matches Err(ExecError::InvalidPipeline),
        },
{
    match (current, next) {
        (Output::Pipe, Input::Pipe) => Ok(true),
        (Output::Pipe, _) | (_, Input::Pipe) => Err(ExecError::InvalidPipeline),
        _ => Ok(false),
    }
}

/// The pipes of a group of commands: for each pair of adjacent commands
/// whether a pipe joins them; the pipeline is invalid when one pair has a
/// pipe on one side only.
pub open spec fn stream_plan_spec(cs: Seq<SpecCommand>) -> Result<Seq<bool>, ()> {
    if exists|j: int| 0 <= j < cs.len() - 1 && stream_between_spec(cs[j].stdout, cs[j + 1].stdin) is Err {
        Err(())
    } else {
        Ok(Seq::new((if cs.len() > 0 { cs.len() - 1 } else { 0 }) as nat, |j: int| cs[j].stdout is Pipe && cs[j + 1].stdin is Pipe))
    }
}

/// Decides the pipes of a group, pair by pair: `Ok` with one decision per
/// pair of adjacent commands (`true` where a pipe is created), or
/// `InvalidPipeline`.
pub fn stream_plan(group: &CommandGroup) -> (r: Result<Vec<bool>, ExecError>)
    ensures
        match stream_plan_spec(group@.commands) {
            Ok(p) => r matches Ok(v) && v@ == p,
            Err(_) => r matches Err(ExecError::InvalidPipeline),
        },
{
    let ghost cs = group@.commands;
    let n = group.command.len();
    let mut plan: Vec<bool> = Vec::new();
    if n == 0 {
        assert(plan@ =~= Seq::new(0nat, |j: int| cs[j].stdout is Pipe && cs[j + 1].stdin is Pipe));
        assert(!exists|k: int| 0 <= k < cs.len() - 1 && stream_between_spec(cs[k].stdout, cs[k + 1].stdin) is Err);
        assert(plan@ =~= stream_plan_spec(cs)->Ok_0);
        return Ok(plan);
    }
    let mut j: usize = 0;
    while j + 1 < n
        invariant
            n == group.command@.len(),
            cs == group@.commands,
            cs.len() == n,
            j + 1 <= n,
            plan@.len() == j,
            forall|k: int| 0 <= k < j ==> stream_between_spec(cs[k].stdout, cs[k + 1].stdin) is Ok,
            forall|k: int| 0 <= k < j ==> plan@[k] == (cs[k].stdout is Pipe && cs[k + 1].stdin is Pipe),
        decreases n - j,
    {
        assert(cs[j as int] == group.command@[j as int]@);
        assert(cs[j + 1] == group.command@[j + 1]@);
        match stream_between(&group.command[j].stdout, &group.command[j + 1].stdin) {
            Ok(b) => {
                plan.push(b);
            },
            Err(e) => {
                assert(0 <= j < cs.len() - 1 && stream_between_spec(cs[j as int].stdout, cs[j + 1].stdin) is Err);
                return Err(e);
            },
        }
        j = j + 1;
    }
    assert(plan@ =~= Seq::new((n - 1) as nat, |k: int| cs[k].stdout is Pipe && cs[k + 1].stdin is Pipe));
    assert(!exists|k: int| 0 <= k < cs.len() - 1 && stream_between_spec(cs[k].stdout, cs[k + 1].stdin) is Err) by {
        assert forall|k: int| 0 <= k < cs.len() - 1 implies stream_between_spec(cs[k].stdout, cs[k + 1].stdin) is Ok by {}
    }
    assert(plan@ =~= stream_plan_spec(cs)->Ok_0);
    Ok(plan)
}

/// Where a command's standard input comes from.
#[derive(Debug, PartialEq)]
pub enum StdinAction {
    /// The shell's own input.
    Keep,
    /// The read end of the pipe with this index.
    PipeRead(usize),
    /// The named file, opened for reading.
    File(String),
}

/// Where a command's standard output goes.
#[derive(Debug, PartialEq)]
pub enum StdoutAction {
    /// The shell's own output.
    Keep,
    /// The write end of the pipe with this index.
    PipeWrite(usize),
    /// The named file, opened in the given mode.
    File(String, FileMode),
}

/// The input of the command at `index`: a pipe is the one between it and
/// the previous command.
pub fn stdin_action(input: &Input, index: usize, n_streams: usize) -> (r: StdinAction)
    requires
        input is Pipe ==> 1 <= index <= n_streams,
    ensures
        match input@ {
            crate::commands::SpecInput::Inherit => r == StdinAction::Keep,
            crate::commands::SpecInput::Pipe => r == StdinAction::PipeRead((index - 1) as usize),
            crate::commands::SpecInput::File(p) => r matches StdinAction::File(q) && q@ == p,
        },
{
    match input {
        Input::Pipe => StdinAction::PipeRead(index - 1),
        Input::Inherit => StdinAction::Keep,
        Input::File(path) => StdinAction::File(path.clone()),
    }
}

/// The output of the command at `index`: a pipe is the one between it and
/// the next command; a file is written from its start, or appended to.
pub fn stdout_action(output: &Output, index: usize, n_streams: usize) -> (r: StdoutAction)
    requires
        output is Pipe ==> index < n_streams,
    ensures
        match output@ {
            crate::commands::SpecOutput::Inherit => r == StdoutAction::Keep,
            crate::commands::SpecOutput::Pipe => r == StdoutAction::PipeWrite(index),
            crate::commands::SpecOutput::File(p) => r matches StdoutAction::File(q, m) && q@ == p && m == FileMode::Write,
            crate::commands::SpecOutput::AppendFile(p) => r matches StdoutAction::File(q, m) && q@ == p && m == FileMode::Append,
        },
{
    match output {
        Output::Pipe => StdoutAction::PipeWrite(index),
        Output::Inherit => StdoutAction::Keep,
        Output::File(path) => StdoutAction::File(path.clone(), FileMode::Write),
        Output::AppendFile(path) => StdoutAction::File(path.clone(), FileMode::Append),
    }
}

/// How a child process ended, as far as the exit status goes.
#[derive(Debug, Clone, Copy, PartialEq, Eq, Structural)]
pub enum ChildStatus {
    /// It exited with this code.
    Exited(i32),
    /// A signal with this number ended it.
    Signaled(u8),
    /// Any other wait result.
    Other,
}

/// The status of a group: that of the last child that exited (its code) or
/// was ended by a signal (128 plus the signal number); 0 if there is none.
pub open spec fn group_status_spec(rs: Seq<ChildStatus>) -> int
    decreases rs.len(),
{
    if rs.len() == 0 {
        0
    } else {
        match rs.last() {
            ChildStatus::Exited(s) => s as int,
            ChildStatus::Signaled(sig) => 128 + sig as int,
            ChildStatus::Other => group_status_spec(rs.drop_last()),
        }
    }
}

/// The exit status of a group from the wait results of its children, in
/// the order they were started.
pub fn group_status(results: &Vec<ChildStatus>) -> (r: i32)
    ensures
        r == group_status_spec(results@),
{
    let mut last_status: i32 = 0;
    let mut k: usize = 0;
    assert(results@.take(0) =~= Seq::<ChildStatus>::empty());
    while k < results.len()
        invariant
            k <= results@.len(),
            last_status == group_status_spec(results@.take(k as int)),
        decreases results.len() - k,
    {
        assert(results@.take(k + 1).drop_last() =~= results@.take(k as int));
        assert(results@.take(k + 1).last() == results@[k as int]);
        match results[k] {
            ChildStatus::Exited(status) => {
                last_status = status;
            },
            ChildStatus::Signaled(signal) => {
                last_status = 128 + signal as i32;
            },
            ChildStatus::Other => {},
        }
        k = k + 1;
    }
    assert(results@.take(results@.len() as int) =~= results@);
    last_status
}

/// Whether a group runs, given its own operator and the status so far:
/// no operator and `;` always run, `||` runs after a failure, `&&` after a
/// success.
pub open spec fn should_exec(next: Option<CommandOperator>, last_status: i32) -> bool {
    match next {
        None => true,
        Some(CommandOperator::Sequence) => true,
        Some(CommandOperator::Or) => last_status != 0,
        Some(CommandOperator::And) => last_status == 0,
    }
}

/// Where the run of a command list stands: the next group to consider and
/// the status of the last group that ran.
#[derive(Debug, Clone, Copy, PartialEq, Eq, Structural)]
pub struct PipelineState {
    pub next_group: usize,
    pub last_status: i32,
}

/// What to do next: run a group, or finish with a status.
#[derive(Debug, Clone, Copy, PartialEq, Eq, Structural)]
pub enum PipelineAction {
    Run(usize),
    Finish(i32),
}

/// The first index from `from` on of a group that runs after `last_status`.
pub open spec fn next_runnable(ops: Seq<Option<CommandOperator>>, from: int, last_status: i32) -> Option<int> {
    if exists|i: int| from <= i < ops.len() && should_exec(ops[i], last_status) {
        Some(choose|i: int| from <= i < ops.len() && should_exec(ops[i], last_status) && forall|j: int| from <= j < i ==> !should_exec(#[trigger] ops[j], last_status))
    } else {
        None
    }
}

/// The operators of the groups.
pub open spec fn operators(gs: Seq<CommandGroup>) -> Seq<Option<CommandOperator>> {
    gs.map_values(|g: CommandGroup| g.next)
}

impl PipelineState {
    /// Nothing has run yet; the status starts at 0.
    pub fn new() -> (s: Self)
        ensures
            s == (PipelineState { next_group: 0, last_status: 0 }),
    {
        PipelineState { next_group: 0, last_status: 0 }
    }

    /// Skips the groups that do not run and names the next one that does,
    /// or finishes with the last status.
    pub fn next_action(&mut self, groups: &Vec<CommandGroup>) -> (a: PipelineAction)
        requires
            old(self).next_group <= groups@.len(),
        ensures
            final(self).last_status == old(self).last_status,
            match next_runnable(operators(groups@), old(self).next_group as int, old(self).last_status) {
                Some(i) => a == PipelineAction::Run(i as usize) && final(self).next_group == i + 1,
                None => a == PipelineAction::Finish(old(self).last_status) && final(self).next_group == groups@.len(),
            },
    {
        let ghost ops = operators(groups@);
        let from = self.next_group;
        let last = self.last_status;
        let mut i = from;
        while i < groups.len()
            invariant
                from <= i <= groups@.len(),
                *self == *old(self),
                last == old(self).last_status,
                from == old(self).next_group,
                ops == operators(groups@),
                ops.len() == groups@.len(),
                forall|j: int| from <= j < i ==> !should_exec(#[trigger] ops[j], last),
            decreases groups.len() - i,
        {
            assert(ops[i as int] == groups@[i as int].next);
            let run = match groups[i].next {
                None => true,
                Some(CommandOperator::Sequence) => true,
                Some(CommandOperator::Or) => last != 0,
                Some(CommandOperator::And) => last == 0,
            };
            if run {
                proof {
                    // group `i` is the first one from `from` on that runs
                    assert(from <= i < ops.len() && should_exec(ops[i as int], last) && forall|j: int| from <= j < i ==> !should_exec(#[trigger] ops[j], last));
                }
                self.next_group = i + 1;
                return PipelineAction::Run(i);
            }
            i = i + 1;
        }
        self.next_group = i;
        PipelineAction::Finish(last)
    }

    /// Records the status of the group that ran.
    pub fn record(&mut self, status: i32)
        ensures
            final(self).last_status == status,
            final(self).next_group == old(self).next_group,
    {
        self.last_status = status;
    }
}


/// What resolving does to one command. With `kinds`, a built-in name makes
/// it a built-in command, and any other name is looked up along `PATH` and
/// the command becomes an executable at the path found. Without `kinds`,
/// every name is looked up along `PATH` and only the program changes, to the
/// path found.
pub open spec fn resolve_cmd(vs: Seq<(Seq<char>, Seq<char>)>, c: SpecCommand, ex: Seq<Seq<char>>, kinds: bool) -> Result<SpecCommand, SpecConfigError> {
    if kinds && builtin_kind(c.program) == CommandType::BuiltIn {
        Ok(SpecCommand { kind: CommandType::BuiltIn, ..c })
    } else {
        match build_path_spec(vs, c.program, ex) {
            Ok(p) => if kinds {
                Ok(SpecCommand { kind: CommandType::Executable, program: p, ..c })
            } else {
                Ok(SpecCommand { program: p, ..c })
            },
            Err(e) => Err(e),
        }
    }
}

/// A command whose lookup failed: with `kinds` its kind becomes `Unknown`,
/// the rest is kept; without, it is kept whole.
pub open spec fn failed_cmd(c: SpecCommand, kinds: bool) -> SpecCommand {
    if kinds {
        SpecCommand { kind: CommandType::Unknown, ..c }
    } else {
        c
    }
}

/// Command `j` of group `k` comes before command `j0` of group `k0`.
pub open spec fn before(k: int, j: int, k0: int, j0: int) -> bool {
    k < k0 || (k == k0 && j < j0)
}

/// `new` has the groups of `old`, with the same operators and the same
/// numbers of commands.
pub open spec fn shape_kept(old: Seq<SpecGroup>, new: Seq<SpecGroup>) -> bool {
    &&& new.len() == old.len()
    &&& forall|k: int| 0 <= k < old.len() ==> (#[trigger] new[k]).next == old[k].next && new[k].commands.len() == old[k].commands.len()
}

/// Every command of `new` before position (`k0`, `j0`) is the resolved
/// command of `old`, resolved as `kinds` says.
pub open spec fn resolved_before(
    vs: Seq<(Seq<char>, Seq<char>)>,
    ex: Seq<Seq<char>>,
    old: Seq<SpecGroup>,
    new: Seq<SpecGroup>,
    k0: int,
    j0: int,
    kinds: bool,
) -> bool {
    forall|k: int, j: int| 0 <= k < old.len() && 0 <= j < old[k].commands.len() && before(k, j, k0, j0)
        ==> (resolve_cmd(vs, old[k].commands[j], ex, kinds) matches Ok(c) && #[trigger] new[k].commands[j] == c)
}

/// Every command of `new` from position (`k0`, `j0`) on, that position
/// included when `with_start` holds, is that of `old`.
pub open spec fn kept_from(old: Seq<SpecGroup>, new: Seq<SpecGroup>, k0: int, j0: int, with_start: bool) -> bool {
    forall|k: int, j: int| 0 <= k < old.len() && 0 <= j < old[k].commands.len() && !before(k, j, k0, j0)
        && (with_start || !(k == k0 && j == j0)) ==> #[trigger] new[k].commands[j] == old[k].commands[j]
}

proof fn lemma_commands_view_update(v: Seq<InputCommand>, j: int, c: InputCommand)
    requires
        0 <= j < v.len(),
    ensures
        commands_view(v.update(j, c)) == commands_view(v).update(j, c@),
{
    assert(commands_view(v.update(j, c)) =~= commands_view(v).update(j, c@));
}

proof fn lemma_groups_view_update(v: Seq<CommandGroup>, k: int, g: CommandGroup)
    requires
        0 <= k < v.len(),
    ensures
        groups_view(v.update(k, g)) == groups_view(v).update(k, g@),
{
    assert(groups_view(v.update(k, g)) =~= groups_view(v).update(k, g@));
}

/// One command of the logical list replaced: the shape stays, the commands
/// before keep being resolved and those after keep being untouched.
proof fn lemma_replace_command(
    vs: Seq<(Seq<char>, Seq<char>)>,
    ex: Seq<Seq<char>>,
    old: Seq<SpecGroup>,
    cur: Seq<SpecGroup>,
    k: int,
    j: int,
    c: SpecCommand,
    kinds: bool,
)
    requires
        0 <= k < old.len(),
        0 <= j < old[k].commands.len(),
        shape_kept(old, cur),
        resolved_before(vs, ex, old, cur, k, j, kinds),
        kept_from(old, cur, k, j, true),
    ensures
        ({
            let new = cur.update(k, SpecGroup { commands: cur[k].commands.update(j, c), next: cur[k].next });
            &&& shape_kept(old, new)
            &&& new[k].commands[j] == c
            &&& (resolve_cmd(vs, old[k].commands[j], ex, kinds) == Ok::<SpecCommand, SpecConfigError>(c) ==> resolved_before(vs, ex, old, new, k, j + 1, kinds))
            &&& resolved_before(vs, ex, old, new, k, j, kinds)
            &&& kept_from(old, new, k, j + 1, true)
            &&& kept_from(old, new, k, j, false)
        }),
{
    let new = cur.update(k, SpecGroup { commands: cur[k].commands.update(j, c), next: cur[k].next });
    assert forall|kk: int| 0 <= kk < old.len() implies (#[trigger] new[kk]).next == old[kk].next && new[kk].commands.len() == old[kk].commands.len() by {
        assert(cur[kk].next == old[kk].next);
    }
    assert forall|kk: int, jj: int| 0 <= kk < old.len() && 0 <= jj < old[kk].commands.len() && before(kk, jj, k, j)
        implies (resolve_cmd(vs, old[kk].commands[jj], ex, kinds) matches Ok(d) && #[trigger] new[kk].commands[jj] == d) by {
        assert(cur[kk].commands[jj] == new[kk].commands[jj]);
    }
    if resolve_cmd(vs, old[k].commands[j], ex, kinds) == Ok::<SpecCommand, SpecConfigError>(c) {
        assert forall|kk: int, jj: int| 0 <= kk < old.len() && 0 <= jj < old[kk].commands.len() && before(kk, jj, k, j + 1)
            implies (resolve_cmd(vs, old[kk].commands[jj], ex, kinds) matches Ok(d) && #[trigger] new[kk].commands[jj] == d) by {
            if !(kk == k && jj == j) {
                assert(cur[kk].commands[jj] == new[kk].commands[jj]);
            }
        }
    }
    assert forall|kk: int, jj: int| 0 <= kk < old.len() && 0 <= jj < old[kk].commands.len() && !before(kk, jj, k, j + 1)
        implies #[trigger] new[kk].commands[jj] == old[kk].commands[jj] by {
        assert(cur[kk].commands[jj] == new[kk].commands[jj]);
    }
    assert forall|kk: int, jj: int| 0 <= kk < old.len() && 0 <= jj < old[kk].commands.len() && !before(kk, jj, k, j)
        && !(kk == k && jj == j) implies #[trigger] new[kk].commands[jj] == old[kk].commands[jj] by {
        assert(cur[kk].commands[jj] == new[kk].commands[jj]);
    }
}

/// Decides the kind of every command and replaces the name of every program
/// that is not built in by the path at which it is found, in order, group by
/// group; `executables` lists the candidate paths that are executable files.
/// It stops at the first program that is not found, whose kind becomes
/// `Unknown`; the commands before it stay resolved and those after it
/// untouched.
pub fn resolve_path(shell_config: &ShellConfig, command_list: &mut Vec<CommandGroup>, executables: &Vec<String>) -> (r: Result<(), ConfigError>)
    ensures
        shape_kept(groups_view(old(command_list)@), groups_view(final(command_list)@)),
        r is Ok ==> resolved_before(shell_config.vars(), executables.deep_view(), groups_view(old(command_list)@), groups_view(final(command_list)@), old(command_list)@.len() as int, 0, true),
        r matches Err(e) ==> exists|k0: int, j0: int| {
            &&& 0 <= k0 < old(command_list)@.len()
            &&& 0 <= j0 < groups_view(old(command_list)@)[k0].commands.len()
            &&& resolve_cmd(shell_config.vars(), groups_view(old(command_list)@)[k0].commands[j0], executables.deep_view(), true) == Err::<SpecCommand, SpecConfigError>(e@)
            &&& #[trigger] groups_view(final(command_list)@)[k0].commands[j0] == failed_cmd(groups_view(old(command_list)@)[k0].commands[j0], true)
            &&& resolved_before(shell_config.vars(), executables.deep_view(), groups_view(old(command_list)@), groups_view(final(command_list)@), k0, j0, true)
            &&& kept_from(groups_view(old(command_list)@), groups_view(final(command_list)@), k0, j0, false)
        },
{
    resolve_programs(shell_config, command_list, executables, true)
}

/// Resolves the commands of a command list in order, group by group, as
/// [`resolve_cmd`] says for `kinds`, and stops at the first program that is
/// not found, which is left as [`failed_cmd`] says; the commands before it
/// stay resolved and those after it untouched.
pub(crate) fn resolve_programs(shell_config: &ShellConfig, command_list: &mut Vec<CommandGroup>, executables: &Vec<String>, kinds: bool) -> (r: Result<(), ConfigError>)
    ensures
        shape_kept(groups_view(old(command_list)@), groups_view(final(command_list)@)),
        r is Ok ==> resolved_before(shell_config.vars(), executables.deep_view(), groups_view(old(command_list)@), groups_view(final(command_list)@), old(command_list)@.len() as int, 0, kinds),
        r matches Err(e) ==> exists|k0: int, j0: int| {
            &&& 0 <= k0 < old(command_list)@.len()
            &&& 0 <= j0 < groups_view(old(command_list)@)[k0].commands.len()
            &&& resolve_cmd(shell_config.vars(), groups_view(old(command_list)@)[k0].commands[j0], executables.deep_view(), kinds) == Err::<SpecCommand, SpecConfigError>(e@)
            &&& #[trigger] groups_view(final(command_list)@)[k0].commands[j0] == failed_cmd(groups_view(old(command_list)@)[k0].commands[j0], kinds)
            &&& resolved_before(shell_config.vars(), executables.deep_view(), groups_view(old(command_list)@), groups_view(final(command_list)@), k0, j0, kinds)
            &&& kept_from(groups_view(old(command_list)@), groups_view(final(command_list)@), k0, j0, false)
        },
{
    let ghost vs = shell_config.vars();
    let ghost ex = executables.deep_view();
    let ghost old_gs = groups_view(command_list@);
    let n = command_list.len();
    let mut k: usize = 0;
    while k < n
        invariant
            n == old_gs.len(),
            old_gs == groups_view(old(command_list)@),
            command_list@.len() == n,
            vs == shell_config.vars(),
            ex == executables.deep_view(),
            k <= n,
            shape_kept(old_gs, groups_view(command_list@)),
            resolved_before(vs, ex, old_gs, groups_view(command_list@), k as int, 0, kinds),
            kept_from(old_gs, groups_view(command_list@), k as int, 0, true),
        decreases n - k,
    {
        let ghost before_swap = command_list@;
        let mut group = CommandGroup::new();
        command_list.set_and_swap(k, &mut group);
        let ghost rest_list = command_list@;
        proof {
            lemma_groups_view_update(rest_list, k as int, group);
            assert(rest_list.update(k as int, group) =~= before_swap);
            assert(groups_view(before_swap)[k as int] == group@);
            assert(groups_view(rest_list).update(k as int, group@) =~= groups_view(before_swap));
        }
        let m = group.command.len();
        let mut j: usize = 0;
        while j < m
            invariant
                j <= m,
                m == group.command@.len(),
                command_list@ == rest_list,
                rest_list.len() == n,
                n == old_gs.len(),
                old_gs == groups_view(old(command_list)@),
                k < n,
                vs == shell_config.vars(),
                ex == executables.deep_view(),
                group.next == old_gs[k as int].next,
                shape_kept(old_gs, groups_view(rest_list).update(k as int, group@)),
                resolved_before(vs, ex, old_gs, groups_view(rest_list).update(k as int, group@), k as int, j as int, kinds),
                kept_from(old_gs, groups_view(rest_list).update(k as int, group@), k as int, j as int, true),
            decreases m - j,
        {
            let ghost cur = groups_view(rest_list).update(k as int, group@);
            let ghost cmds_before = group.command@;
            assert(cur[k as int] == group@);
            let mut cmd = InputCommand::new();
            group.command.set_and_swap(j, &mut cmd);
            let ghost mid = group.command@;
            assert(cmd@ == old_gs[k as int].commands[j as int]) by {
                assert(cur[k as int].commands[j as int] == commands_view(cmds_before)[j as int]);
            }
            let lookup = if kinds {
                let kind = check_builtin(cmd.program.as_str());
                cmd.kind = kind;
                kind == CommandType::Unknown
            } else {
                true
            };
            if lookup {
                match shell_config.build_path(cmd.program.as_str(), executables) {
                    Ok(path) => {
                        cmd.program = path;
                        if kinds {
                            cmd.kind = CommandType::Executable;
                        }
                    },
                    Err(e) => {
                        let ghost failed = cmd@;
                        assert(failed == failed_cmd(old_gs[k as int].commands[j as int], kinds));
                        group.command.set(j, cmd);
                        proof {
                            assert(mid.update(j as int, cmd) =~= cmds_before.update(j as int, cmd));
                            lemma_commands_view_update(cmds_before, j as int, cmd);
                            lemma_replace_command(vs, ex, old_gs, cur, k as int, j as int, failed, kinds);
                            let newg = SpecGroup { commands: cur[k as int].commands.update(j as int, failed), next: cur[k as int].next };
                            assert(group@ == newg);
                            lemma_groups_view_update(rest_list, k as int, group);
                            assert(groups_view(rest_list).update(k as int, group@) =~= cur.update(k as int, newg));
                        }
                        command_list.set(k, group);
                        return Err(e);
                    },
                }
            }
            let ghost done = cmd@;
            assert(resolve_cmd(vs, old_gs[k as int].commands[j as int], ex, kinds) == Ok::<SpecCommand, SpecConfigError>(done));
            group.command.set(j, cmd);
            proof {
                assert(mid.update(j as int, cmd) =~= cmds_before.update(j as int, cmd));
                lemma_commands_view_update(cmds_before, j as int, cmd);
                lemma_replace_command(vs, ex, old_gs, cur, k as int, j as int, done, kinds);
                let newg = SpecGroup { commands: cur[k as int].commands.update(j as int, done), next: cur[k as int].next };
                assert(group@ == newg);
                assert(groups_view(rest_list).update(k as int, group@) =~= cur.update(k as int, newg));
            }
            j = j + 1;
        }
        proof {
            let cur = groups_view(rest_list).update(k as int, group@);
            assert forall|kk: int, jj: int| 0 <= kk < old_gs.len() && 0 <= jj < old_gs[kk].commands.len() && before(kk, jj, k + 1, 0)
                implies (resolve_cmd(vs, old_gs[kk].commands[jj], ex, kinds) matches Ok(d) && #[trigger] cur[kk].commands[jj] == d) by {
                assert(before(kk, jj, k as int, j as int));
            }
            lemma_groups_view_update(rest_list, k as int, group);
        }
        command_list.set(k, group);
        k = k + 1;
    }
    Ok(())
}

} // verus!

verus! {

/// The groups that the parser returns set up without error: adjacent
/// commands of a group are always joined by a pipe, so the plan of a group
/// of `n` commands is `n - 1` pipes, and the stream decisions of each
/// command find their pipe among them.
pub proof fn lemma_parsed_groups_stream(input: Seq<char>, k: int, j: int)
    requires
        parse_input(ParserState::Command, input) is Ok,
        0 <= k < parse_input(ParserState::Command, input)->Ok_0.len(),
        0 <= j < parse_input(ParserState::Command, input)->Ok_0[k].commands.len(),
    ensures
        ({
            let cs = parse_input(ParserState::Command, input)->Ok_0[k].commands;
            &&& stream_plan_spec(cs) == Ok::<Seq<bool>, ()>(Seq::new((cs.len() - 1) as nat, |i: int| true))
            &&& j + 1 < cs.len() ==> stream_between_spec(cs[j].stdout, cs[j + 1].stdin) == Ok::<bool, ()>(true)
            &&& cs[j].stdin is Pipe ==> 1 <= j <= cs.len() - 1
            &&& cs[j].stdout is Pipe ==> j < cs.len() - 1
        }),
{
    lemma_parse_well_formed(input);
    let gs = parse_input(ParserState::Command, input)->Ok_0;
    assert(group_well_formed(gs[k], k == gs.len() - 1));
    let cs = gs[k].commands;
    assert(command_in_chain(cs[j], j, cs.len() as int));
    if j + 1 < cs.len() {
        assert(command_in_chain(cs[j + 1], j + 1, cs.len() as int));
    }
    assert forall|i: int| 0 <= i < cs.len() - 1 implies stream_between_spec(cs[i].stdout, cs[i + 1].stdin) == Ok::<bool, ()>(true) by {
        assert(command_in_chain(cs[i], i, cs.len() as int));
        assert(command_in_chain(cs[i + 1], i + 1, cs.len() as int));
    }
    assert(Seq::new((cs.len() - 1) as nat, |i: int| cs[i].stdout is Pipe && cs[i + 1].stdin is Pipe) =~= Seq::new((cs.len() - 1) as nat, |i: int| true));
}

/// Groups joined by `;` (or the last group) always run, whatever the
/// status: the next group to run is the next one in the list.
pub proof fn lemma_sequence_always_runs(ops: Seq<Option<CommandOperator>>, from: int, last_status: i32)
    requires
        0 <= from < ops.len(),
        ops[from] is None || ops[from] == Some(CommandOperator::Sequence),
    ensures
        next_runnable(ops, from, last_status) == Some(from),
{
    assert(from <= from < ops.len() && should_exec(ops[from], last_status) && forall|j: int| from <= j < from ==> !should_exec(#[trigger] ops[j], last_status));
}


/// Where some group from `from` on runs, a first such group exists.
proof fn lemma_first_runnable_exists(ops: Seq<Option<CommandOperator>>, from: int, i0: int, last_status: i32)
    requires
        0 <= from <= i0 < ops.len(),
        should_exec(ops[i0], last_status),
    ensures
        exists|i: int| from <= i < ops.len() && should_exec(ops[i], last_status) && forall|j: int| from <= j < i ==> !should_exec(#[trigger] ops[j], last_status),
    decreases i0 - from,
{
    if should_exec(ops[from], last_status) {
        assert(from <= from < ops.len() && should_exec(ops[from], last_status) && forall|j: int| from <= j < from ==> !should_exec(#[trigger] ops[j], last_status));
    } else {
        lemma_first_runnable_exists(ops, from + 1, i0, last_status);
        let i = choose|i: int| from + 1 <= i < ops.len() && should_exec(ops[i], last_status) && forall|j: int| from + 1 <= j < i ==> !should_exec(#[trigger] ops[j], last_status);
        assert(from <= i < ops.len() && should_exec(ops[i], last_status) && forall|j: int| from <= j < i ==> !should_exec(#[trigger] ops[j], last_status));
    }
}

/// The operators decide what runs: the group chosen to run next after
/// `last_status` is an `&&` group only after a zero status and an `||` group
/// only after a non-zero one, and every group passed over on the way, or
/// every remaining group when none runs, is an `&&` group after a non-zero
/// status or an `||` group after a zero status.
pub proof fn lemma_operators_gate_groups(ops: Seq<Option<CommandOperator>>, from: int, last_status: i32)
    requires
        0 <= from,
    ensures
        next_runnable(ops, from, last_status) matches Some(i) ==> {
            &&& from <= i < ops.len()
            &&& ops[i] == Some(CommandOperator::And) ==> last_status == 0
            &&& ops[i] == Some(CommandOperator::Or) ==> last_status != 0
            &&& forall|j: int| from <= j < i ==> {
                ||| (#[trigger] ops[j] == Some(CommandOperator::And) && last_status != 0)
                ||| (ops[j] == Some(CommandOperator::Or) && last_status == 0)
            }
        },
        next_runnable(ops, from, last_status) is None ==> forall|j: int| from <= j < ops.len() ==> {
            ||| (#[trigger] ops[j] == Some(CommandOperator::And) && last_status != 0)
            ||| (ops[j] == Some(CommandOperator::Or) && last_status == 0)
        },
{
    if next_runnable(ops, from, last_status) is None {
        assert forall|j: int| from <= j < ops.len() implies {
            ||| (#[trigger] ops[j] == Some(CommandOperator::And) && last_status != 0)
            ||| (ops[j] == Some(CommandOperator::Or) && last_status == 0)
        } by {
            assert(!should_exec(ops[j], last_status));
        }
    } else {
        let i0 = choose|i: int| from <= i < ops.len() && should_exec(ops[i], last_status);
        lemma_first_runnable_exists(ops, from, i0, last_status);
        let i = choose|i: int| from <= i < ops.len() && should_exec(ops[i], last_status) && forall|j: int| from <= j < i ==> !should_exec(#[trigger] ops[j], last_status);
        assert(next_runnable(ops, from, last_status) == Some(i));
        assert(should_exec(ops[i], last_status));
        assert forall|j: int| from <= j < i implies {
            ||| (#[trigger] ops[j] == Some(CommandOperator::And) && last_status != 0)
            ||| (ops[j] == Some(CommandOperator::Or) && last_status == 0)
        } by {
            assert(!should_exec(ops[j], last_status));
        }
    }
}

/// Resolving with kinds never looks a built-in name up: whatever `PATH` and
/// the executable files hold, the command becomes a built-in command with
/// its program, arguments and streams unchanged.
pub proof fn lemma_builtins_not_looked_up(vs: Seq<(Seq<char>, Seq<char>)>, c: SpecCommand, ex: Seq<Seq<char>>)
    requires
        is_builtin_name(c.program),
    ensures
        resolve_cmd(vs, c, ex, true) == Ok::<SpecCommand, SpecConfigError>(SpecCommand { kind: CommandType::BuiltIn, ..c }),
{
}

/// Any other name is looked up along `PATH`: resolving succeeds exactly
/// when the lookup does, and then the program is the path found; with
/// kinds the command becomes an executable, without its kind is kept.
/// Arguments and streams never change.
pub proof fn lemma_other_names_looked_up(vs: Seq<(Seq<char>, Seq<char>)>, c: SpecCommand, ex: Seq<Seq<char>>, kinds: bool)
    requires
        !kinds || !is_builtin_name(c.program),
    ensures
        resolve_cmd(vs, c, ex, kinds) is Ok <==> build_path_spec(vs, c.program, ex) is Ok,
        resolve_cmd(vs, c, ex, kinds) matches Ok(r) ==> {
            &&& build_path_spec(vs, c.program, ex) == Ok::<Seq<char>, SpecConfigError>(r.program)
            &&& r.kind == (if kinds { CommandType::Executable } else { c.kind })
            &&& r.args == c.args
            &&& r.stdin == c.stdin
            &&& r.stdout == c.stdout
        },
        resolve_cmd(vs, c, ex, kinds) matches Err(e) ==> build_path_spec(vs, c.program, ex) == Err::<Seq<char>, SpecConfigError>(e),
{
}

impl ExecError {
    /// The text that describes the error.
    pub open spec fn message_spec(&self) -> Seq<char> {
        match self {
            ExecError::FailedPipeCreation => "Failed To Create Pipe"@,
            ExecError::InvalidPipeline => "Invalid Pipeline"@,
            ExecError::UnknownCommand => "Unknown Command Type"@,
            ExecError::IOError(e) => "StdIO Error during Execution: '"@ + e@ + "'"@,
            ExecError::FileError(e) => "FileError during execution: "@ + e.message_spec(),
            ExecError::ConfigError(e) => "ConfigError: '"@ + e@.message_spec() + "'"@,
            ExecError::ArgError(m) => m@,
        }
    }

    /// The text that describes the error.
    pub fn message(&self) -> (r: String)
        ensures
            r@ == self.message_spec(),
    {
        match self {
            ExecError::FailedPipeCreation => "Failed To Create Pipe".to_owned(),
            ExecError::InvalidPipeline => "Invalid Pipeline".to_owned(),
            ExecError::UnknownCommand => "Unknown Command Type".to_owned(),
            ExecError::IOError(e) => {
                let mut r = "StdIO Error during Execution: '".to_owned();
                r.append(e.as_str());
                r.append("'");
                r
            },
            ExecError::FileError(e) => {
                let mut r = "FileError during execution: ".to_owned();
                let m = e.message();
                r.append(m.as_str());
                r
            },
            ExecError::ConfigError(e) => {
                let mut r = "ConfigError: '".to_owned();
                let m = e.message();
                r.append(m.as_str());
                r.append("'");
                r
            },
            ExecError::ArgError(m) => m.clone(),
        }
    }
}

} // verus!
