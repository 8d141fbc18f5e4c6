use shell::builtin::{change_directory, set_home};
use shell::cat::{file_header, CatCommand};
use shell::commands::{CommandGroup, CommandOperator, CommandType, Input, InputCommand, Output};
use shell::config::{join_dir, split_path_value, ConfigError, ShellConfig};
use shell::executor::{
    check_builtin, check_launchable, group_status, resolve_path, stdin_action, stdout_action,
    stream_between, stream_plan, ChildStatus, ExecError, PipelineAction, PipelineState, StdinAction,
    StdoutAction,
};
use shell::file::{open_options, FileError, FileMode, OpenFlags};
use shell::lexer::{is_whitespace_char, ShellLexer, Token};
use shell::parser::{ParseError, ShellParser};
use shell::shell_core::ShellCore;
use shell::text::{find_nul, NulError};

fn words(tokens: &[Token]) -> Vec<String> {
    tokens
        .iter()
        .map(|t| match t {
            Token::Word(w) => w.clone(),
            Token::FileIN => "<".to_string(),
            Token::FileOUT => ">".to_string(),
            Token::FileAppend => ">>".to_string(),
            Token::Pipe => "|".to_string(),
            Token::And => "&&".to_string(),
            Token::Or => "||".to_string(),
            Token::Sequence => ";".to_string(),
        })
        .collect()
}

fn vars(pairs: &[(&str, &str)]) -> Vec<(String, String)> {
    pairs.iter().map(|(k, v)| (k.to_string(), v.to_string())).collect()
}

fn strings(v: &[&str]) -> Vec<String> {
    v.iter().map(|s| s.to_string()).collect()
}

fn parse(s: &str) -> Result<Vec<CommandGroup>, ParseError> {
    ShellParser::new().parse_user_command(s)
}

fn cat_opts() -> CatCommand {
    CatCommand {
        number: false,
        number_nonblank: false,
        squeeze_blank: false,
        show_end: false,
        show_tab: false,
        show_nonprint: false,
        show_all: false,
        files: vec![],
    }
}

// ---- lexer ----

#[test]
fn tokenize_classifies_operators() {
    let t = ShellLexer::tokenize_input("a > b >> c < d | e && f || g ; h");
    assert_eq!(
        words(&t),
        strings(&["a", ">", "b", ">>", "c", "<", "d", "|", "e", "&&", "f", "||", "g", ";", "h"])
    );
    assert!(matches!(t[1], Token::FileOUT));
    assert!(matches!(t[3], Token::FileAppend));
    assert!(matches!(t[5], Token::FileIN));
    assert!(matches!(t[7], Token::Pipe));
    assert!(matches!(t[9], Token::And));
    assert!(matches!(t[11], Token::Or));
    assert!(matches!(t[13], Token::Sequence));
}

#[test]
fn tokenize_operators_need_whitespace() {
    let t = ShellLexer::tokenize_input("a>b a;b >>> |&");
    assert_eq!(words(&t), strings(&["a>b", "a;b", ">>>", "|&"]));
    assert!(t.iter().all(|x| matches!(x, Token::Word(_))));
}

#[test]
fn tokenize_unicode_whitespace() {
    let t = ShellLexer::tokenize_input("\u{3000}ls\u{a0}-l\t\n\u{2028}x\u{85}");
    assert_eq!(words(&t), strings(&["ls", "-l", "x"]));
    assert!(ShellLexer::tokenize_input(" \t\r\n").is_empty());
    assert!(ShellLexer::tokenize_input("").is_empty());
}

#[test]
fn whitespace_char_matches_std() {
    for c in ['\t', '\n', '\u{b}', '\u{c}', '\r', ' ', '\u{85}', '\u{a0}', '\u{1680}', '\u{2000}', '\u{200a}', '\u{2028}', '\u{2029}', '\u{202f}', '\u{205f}', '\u{3000}', 'a', '\u{200b}', '\u{1f}', '\u{feff}', '_'] {
        assert_eq!(is_whitespace_char(c), c.is_whitespace(), "{:?}", c);
    }
}

#[test]
fn whitespace_runs_do_not_matter() {
    let a = parse("cat -e test | wc").unwrap();
    let c = parse("\tcat   -e\t\ttest   |    wc   \n").unwrap();
    assert_eq!(a, c);
}

// ---- parser ----

#[test]
fn parse_errors_name_their_cause() {
    assert_eq!(parse("cat |"), Err(ParseError::ProgramIsEmpty));
    assert_eq!(parse(""), Err(ParseError::ProgramIsEmpty));
    assert_eq!(parse("   "), Err(ParseError::ProgramIsEmpty));
    assert_eq!(parse("| cat"), Err(ParseError::UnexpectedToken));
    assert_eq!(parse("> out"), Err(ParseError::UnexpectedToken));
    assert_eq!(parse("cat | | wc"), Err(ParseError::UnexpectedToken));
    assert_eq!(parse("cat > >"), Err(ParseError::UnexpectedToken));
    assert_eq!(parse("cat <"), Err(ParseError::MissingRedirectTarget));
    assert_eq!(parse("cat >"), Err(ParseError::MissingRedirectTarget));
    assert_eq!(parse("cat >>"), Err(ParseError::MissingRedirectTarget));
    assert_eq!(parse("cat > a > b"), Err(ParseError::InvalidRedirection));
    assert_eq!(parse("cat > a >> b"), Err(ParseError::InvalidRedirection));
    assert_eq!(parse("cat < a < b"), Err(ParseError::InvalidRedirection));
    assert_eq!(parse("cat > a | wc"), Err(ParseError::InvalidRedirection));
    assert_eq!(parse("cat | wc < a"), Err(ParseError::InvalidRedirection));
    assert_eq!(parse("cat < a && ls"), Err(ParseError::InvalidRedirection));
    assert_eq!(parse("cat > a ; ls"), Err(ParseError::InvalidRedirection));
    assert_eq!(parse("cat && && ls"), Err(ParseError::UnexpectedToken));
}

#[test]
fn parse_pipe_then_group() {
    let r = parse("cat < in.txt | grep x ; ls -l >> log").unwrap();
    assert_eq!(r.len(), 2);
    assert_eq!(r[0].next, Some(CommandOperator::Sequence));
    assert_eq!(r[0].command.len(), 2);
    assert_eq!(r[0].command[0].stdin, Input::File("in.txt".to_string()));
    assert_eq!(r[0].command[0].stdout, Output::Pipe);
    assert_eq!(r[0].command[1].stdin, Input::Pipe);
    assert_eq!(r[0].command[1].stdout, Output::Inherit);
    assert_eq!(r[1].command[0].stdout, Output::AppendFile("log".to_string()));
    assert_eq!(r[1].next, None);
    assert_eq!(r[1].command[0].program, "ls");
    assert_eq!(r[1].command[0].args, strings(&["-l"]));
    assert!(r.iter().all(|g| g.command.iter().all(|c| c.kind == CommandType::Unknown)));
}

#[test]
fn parse_error_messages() {
    assert_eq!(ParseError::InvalidRedirection.message(), "Parser Error: Invalid stream I/O in command");
    assert_eq!(ParseError::MissingRedirectTarget.message(), "Parser Error: Missing target value for Stream Redirection");
    assert_eq!(ParseError::UnexpectedToken.message(), "Parser Error: UnexpectedToken found in command");
    assert_eq!(ParseError::ProgramIsEmpty.message(), "Parser Error: No program Extract from input");
    assert_eq!(ParseError::PipeFromNoProgram.message(), "Parser Error: Pipe has no valid target");
}

#[test]
fn find_executable_checks_the_list() {
    let ex = strings(&["/bin/ls"]);
    assert_eq!(ShellParser::new().find_executable("/bin/ls".to_string(), &ex), Some("/bin/ls".to_string()));
    assert_eq!(ShellParser::new().find_executable("/bin/cat".to_string(), &ex), None);
}

// ---- commands ----

#[test]
fn command_group_operators() {
    let mut g = CommandGroup::new();
    assert_eq!(g.set_operator(Token::And), Ok(()));
    assert_eq!(g.next, Some(CommandOperator::And));
    assert_eq!(g.set_operator(Token::Or), Ok(()));
    assert_eq!(g.next, Some(CommandOperator::Or));
    assert_eq!(g.set_operator(Token::Sequence), Ok(()));
    assert_eq!(g.next, Some(CommandOperator::Sequence));
    assert_eq!(g.set_operator(Token::Pipe), Err(ParseError::UnexpectedToken));
    assert_eq!(g.set_operator(Token::Word("x".to_string())), Err(ParseError::UnexpectedToken));
    assert_eq!(g.next, Some(CommandOperator::Sequence));
    g.add_command(InputCommand::new());
    assert_eq!(g.command.len(), 1);
}

#[test]
fn argv_is_program_then_arguments() {
    let mut c = InputCommand::new();
    c.program = "grep".to_string();
    c.args = strings(&["-n", "x"]);
    assert_eq!(c.argv(), Ok(strings(&["grep", "-n", "x"])));
    assert_eq!(c.get_exec(), "-n");
    c.args = strings(&["ok", "a\0b"]);
    assert_eq!(c.argv(), Err(NulError { item: 2, position: 1 }));
    c.program = "\0".to_string();
    assert_eq!(c.argv(), Err(NulError { item: 0, position: 0 }));
    assert_eq!(find_nul(&"é\0".to_string()), Some(2));
    assert_eq!(find_nul(&"ab".to_string()), None);
    c.program = "grep".to_string();
    c.args = strings(&["ü\0"]);
    assert_eq!(c.argv(), Err(NulError { item: 1, position: 2 }));
}

// ---- config ----

#[test]
fn config_keeps_last_value_of_a_name() {
    let c = ShellConfig::new(vars(&[("A", "1"), ("B", "2"), ("A", "3")]));
    assert_eq!(c.get_env(), &vars(&[("A", "3"), ("B", "2")]));
    assert_eq!(c.var(&"A".to_string()), Some(&"3".to_string()));
    assert_eq!(c.var(&"C".to_string()), None);
}

#[test]
fn config_set_env_replaces_in_place() {
    let mut c = ShellConfig::new(vars(&[("A", "1"), ("B", "2")]));
    c.set_env("A".to_string(), "9".to_string());
    c.set_env("C".to_string(), "3".to_string());
    assert_eq!(c.get_env(), &vars(&[("A", "9"), ("B", "2"), ("C", "3")]));
}

#[test]
fn path_pieces_and_joins() {
    assert_eq!(split_path_value(&"/bin:/usr/bin::x:".to_string()), strings(&["/bin", "/usr/bin", "", "x", ""]));
    assert_eq!(split_path_value(&"".to_string()), strings(&[""]));
    assert_eq!(join_dir(&"/bin".to_string(), "ls"), "/bin/ls");
    assert_eq!(join_dir(&"/bin/".to_string(), "ls"), "/bin/ls");
    assert_eq!(join_dir(&"".to_string(), "ls"), "ls");
    assert_eq!(join_dir(&"/bin".to_string(), "/usr/bin/ls"), "/usr/bin/ls");
}

#[test]
fn build_path_takes_first_executable() {
    let c = ShellConfig::new(vars(&[("PATH", "/usr/local/bin:/bin:/usr/bin")]));
    assert_eq!(
        c.candidate_paths("ls"),
        Ok(strings(&["/usr/local/bin/ls", "/bin/ls", "/usr/bin/ls"]))
    );
    let ex = strings(&["/usr/bin/ls", "/bin/ls"]);
    assert_eq!(c.build_path("ls", &ex), Ok("/bin/ls".to_string()));
    assert_eq!(c.build_path("cat", &ex), Err(ConfigError::CommandNotFound));
    assert_eq!(c.return_exec_path(), Ok(&"/usr/local/bin:/bin:/usr/bin".to_string()));
    let empty = ShellConfig::new(vec![]);
    assert_eq!(empty.build_path("ls", &ex), Err(ConfigError::EnvKeyNotFound("PATH".to_string())));
    assert_eq!(empty.return_exec_path(), Err(ConfigError::EnvKeyNotFound("PATH".to_string())));
}

#[test]
fn c_env_entries() {
    let c = ShellConfig::new(vars(&[("A", "1"), ("PATH", "/bin")]));
    assert_eq!(c.get_c_env(), Ok(strings(&["A=1", "PATH=/bin"])));
    let bad = ShellConfig::new(vars(&[("A", "1"), ("B", "x\0")]));
    assert_eq!(bad.get_c_env(), Err(NulError { item: 1, position: 3 }));
    let wide = ShellConfig::new(vars(&[("B", "é\0")]));
    assert_eq!(wide.get_c_env(), Err(NulError { item: 0, position: 4 }));
}

#[test]
fn config_error_messages() {
    assert_eq!(ConfigError::EnvKeyNotFound("HOME".to_string()).message(), "Config Error: 'HOME' not found in Env");
    assert_eq!(ConfigError::CommandNotFound.message(), "Config Error: Command Not Found in Path");
}

// ---- builtin ----

#[test]
fn cd_without_arguments_goes_home() {
    let mut c = ShellConfig::new(vars(&[("HOME", "/home/u"), ("PWD", "/tmp")]));
    assert_eq!(set_home(&mut c), Ok(()));
    assert_eq!(c.var(&"PWD".to_string()), Some(&"/home/u".to_string()));
    assert_eq!(c.var(&"OLDPWD".to_string()), Some(&"/tmp".to_string()));
    assert_eq!(c.var(&"HOME".to_string()), Some(&"/home/u".to_string()));
}

#[test]
fn cd_errors() {
    let mut c = ShellConfig::new(vars(&[("PWD", "/tmp")]));
    assert_eq!(
        change_directory(&mut c, vec![]),
        Err(ExecError::ConfigError(ConfigError::EnvKeyNotFound("HOME".to_string())))
    );
    let mut d = ShellConfig::new(vars(&[("HOME", "/h")]));
    assert_eq!(
        set_home(&mut d),
        Err(ExecError::ConfigError(ConfigError::EnvKeyNotFound("PWD".to_string())))
    );
    assert_eq!(d.get_env(), &vars(&[("HOME", "/h")]));
    assert_eq!(
        change_directory(&mut c, strings(&["a", "b"])),
        Err(ExecError::ArgError("cd: Too many arguments".to_string()))
    );
    assert_eq!(c.get_env(), &vars(&[("PWD", "/tmp")]));
}

#[test]
fn cd_with_a_directory() {
    let mut c = ShellConfig::new(vars(&[("PWD", "/tmp"), ("OLDPWD", "/")]));
    assert_eq!(change_directory(&mut c, strings(&["/var"])), Ok(()));
    assert_eq!(c.get_env(), &vars(&[("PWD", "/var"), ("OLDPWD", "/tmp")]));
}

// ---- executor ----

#[test]
fn builtins_are_recognized() {
    for b in ["cd", "pwd", "export", "unset", "exit"] {
        assert_eq!(check_builtin(b), CommandType::BuiltIn);
    }
    for o in ["ls", "cdd", "", "EXIT"] {
        assert_eq!(check_builtin(o), CommandType::Unknown);
    }
    assert_eq!(check_launchable(CommandType::Executable), Ok(()));
    assert_eq!(check_launchable(CommandType::Unknown), Err(ExecError::UnknownCommand));
}

#[test]
fn resolve_path_sets_kinds_and_paths() {
    let c = ShellConfig::new(vars(&[("PATH", "/bin:/usr/bin")]));
    let mut list = parse("ls -l | wc ; cd x").unwrap();
    let ex = strings(&["/usr/bin/wc", "/bin/ls"]);
    assert_eq!(resolve_path(&c, &mut list, &ex), Ok(()));
    assert_eq!(list[0].command[0].program, "/bin/ls");
    assert_eq!(list[0].command[0].kind, CommandType::Executable);
    assert_eq!(list[0].command[1].program, "/usr/bin/wc");
    assert_eq!(list[1].command[0].program, "cd");
    assert_eq!(list[1].command[0].kind, CommandType::BuiltIn);
}

#[test]
fn resolve_path_stops_at_unknown_program() {
    let c = ShellConfig::new(vars(&[("PATH", "/bin")]));
    let mut list = parse("ls | nope | wc").unwrap();
    let ex = strings(&["/bin/ls", "/bin/wc"]);
    assert_eq!(resolve_path(&c, &mut list, &ex), Err(ConfigError::CommandNotFound));
    assert_eq!(list[0].command[0].program, "/bin/ls");
    assert_eq!(list[0].command[1].program, "nope");
    assert_eq!(list[0].command[1].kind, CommandType::Unknown);
    assert_eq!(list[0].command[2].program, "wc");
    let mut core = ShellCore::new(vars(&[("PATH", "/bin")]));
    let mut list2 = parse("wc").unwrap();
    assert_eq!(core.resolve_path(&mut list2, &ex), Ok(()));
    assert_eq!(list2[0].command[0].program, "/bin/wc");
}

#[test]
fn shell_core_looks_every_program_up() {
    let mut core = ShellCore::new(vars(&[("PATH", "/usr/bin:/bin")]));
    let ex = strings(&["/bin/cd", "/bin/ls", "/bin/wc"]);
    let mut list = parse("cd x ; ls | wc ; nope ; wc").unwrap();
    let kinds_before: Vec<CommandType> = list.iter().flat_map(|g| g.command.iter().map(|c| c.kind)).collect();
    assert_eq!(core.resolve_path(&mut list, &ex), Err(ConfigError::CommandNotFound));
    assert_eq!(list[0].command[0].program, "/bin/cd");
    assert_eq!(list[0].command[0].args, strings(&["x"]));
    assert_eq!(list[1].command[0].program, "/bin/ls");
    assert_eq!(list[1].command[1].program, "/bin/wc");
    assert_eq!(list[2].command[0].program, "nope");
    assert_eq!(list[3].command[0].program, "wc");
    let kinds_after: Vec<CommandType> = list.iter().flat_map(|g| g.command.iter().map(|c| c.kind)).collect();
    assert_eq!(kinds_after, kinds_before);
    let mut builtin_only = parse("cd /tmp").unwrap();
    assert_eq!(core.resolve_path(&mut builtin_only, &strings(&["/bin/ls"])), Err(ConfigError::CommandNotFound));
    assert_eq!(builtin_only[0].command[0].program, "cd");
    let mut no_path = ShellCore::new(vec![]);
    let mut one = parse("ls").unwrap();
    assert_eq!(no_path.resolve_path(&mut one, &ex), Err(ConfigError::EnvKeyNotFound("PATH".to_string())));
    assert_eq!(one[0].command[0].program, "ls");
}

#[test]
fn streams_between_commands() {
    assert_eq!(stream_between(&Output::Pipe, &Input::Pipe), Ok(true));
    assert_eq!(stream_between(&Output::Inherit, &Input::Inherit), Ok(false));
    assert_eq!(stream_between(&Output::Pipe, &Input::Inherit), Err(ExecError::InvalidPipeline));
    assert_eq!(stream_between(&Output::File("f".to_string()), &Input::Pipe), Err(ExecError::InvalidPipeline));
    assert_eq!(stdin_action(&Input::Pipe, 2, 2), StdinAction::PipeRead(1));
    assert_eq!(stdin_action(&Input::Inherit, 0, 0), StdinAction::Keep);
    assert_eq!(stdin_action(&Input::File("a".to_string()), 0, 0), StdinAction::File("a".to_string()));
    assert_eq!(stdout_action(&Output::Pipe, 0, 1), StdoutAction::PipeWrite(0));
    assert_eq!(stdout_action(&Output::File("o".to_string()), 0, 0), StdoutAction::File("o".to_string(), FileMode::Write));
    assert_eq!(stdout_action(&Output::AppendFile("o".to_string()), 0, 0), StdoutAction::File("o".to_string(), FileMode::Append));
    assert_eq!(stdout_action(&Output::Inherit, 3, 0), StdoutAction::Keep);
}

#[test]
fn group_status_is_last_reported() {
    assert_eq!(group_status(&vec![]), 0);
    assert_eq!(group_status(&vec![ChildStatus::Exited(3), ChildStatus::Exited(0)]), 0);
    assert_eq!(group_status(&vec![ChildStatus::Exited(3), ChildStatus::Other]), 3);
    assert_eq!(group_status(&vec![ChildStatus::Exited(0), ChildStatus::Signaled(9)]), 137);
}

#[test]
fn pipeline_decisions_follow_operators() {
    let list = parse("a || b && c ; d").unwrap();
    let mut st = PipelineState::new();
    // the first group carries `||`: with status 0 it is skipped
    assert_eq!(st.next_action(&list), PipelineAction::Run(1));
    st.record(1);
    assert_eq!(st.next_action(&list), PipelineAction::Run(2));
    st.record(5);
    assert_eq!(st.next_action(&list), PipelineAction::Run(3));
    st.record(7);
    assert_eq!(st.next_action(&list), PipelineAction::Finish(7));
    let seq = parse("a ; b").unwrap();
    let mut s2 = PipelineState::new();
    assert_eq!(s2.next_action(&seq), PipelineAction::Run(0));
    s2.record(4);
    assert_eq!(s2.next_action(&seq), PipelineAction::Run(1));
}

#[test]
fn error_conversions_and_messages() {
    assert_eq!(ExecError::from(ConfigError::CommandNotFound), ExecError::ConfigError(ConfigError::CommandNotFound));
    assert_eq!(ExecError::from(FileError::FileNotFound), ExecError::FileError(FileError::PathError));
    assert_eq!(ExecError::from(nix::errno::Errno::EMFILE), ExecError::FailedPipeCreation);
    assert_eq!(ExecError::FailedPipeCreation.message(), "Failed To Create Pipe");
    assert_eq!(ExecError::InvalidPipeline.message(), "Invalid Pipeline");
    assert_eq!(ExecError::UnknownCommand.message(), "Unknown Command Type");
    assert_eq!(ExecError::IOError("boom".to_string()).message(), "StdIO Error during Execution: 'boom'");
    assert_eq!(ExecError::FileError(FileError::PathError).message(), "FileError during execution: PathError: Invalid Path");
    assert_eq!(ExecError::ConfigError(ConfigError::CommandNotFound).message(), "ConfigError: 'Config Error: Command Not Found in Path'");
    assert_eq!(FileError::UnknownFileMode.message(), "UnknownFileMode provided");
    assert_eq!(FileError::FileNotFound.message(), "FileNotFound: verify Path");
    assert_eq!(FileError::IOError("x".to_string()).message(), "File IOError: x");
}

#[test]
fn file_modes_open_options() {
    assert_eq!(open_options(FileMode::Write), Ok(OpenFlags { read: false, write: true, create: true, append: false }));
    assert_eq!(open_options(FileMode::Append), Ok(OpenFlags { read: false, write: true, create: true, append: true }));
    assert_eq!(open_options(FileMode::Read), Ok(OpenFlags { read: true, write: false, create: false, append: false }));
    assert_eq!(open_options(FileMode::Open), Err(FileError::UnknownFileMode));
}

// ---- cat ----

#[test]
fn cat_line_numbers_and_marks() {
    let mut o = cat_opts();
    assert_eq!(o.process_line("hello\n", 1, false), "hello\n");
    o.number = true;
    assert_eq!(o.process_line("hello\n", 1, false), "     1   hello\n");
    assert_eq!(o.process_line("x", 1234567, false), "1234567   x");
    assert_eq!(o.process_line("x", 123456, false), "123456   x");
    o.show_tab = true;
    o.show_end = true;
    assert_eq!(o.process_line("a\tb\n", 10, false), "    10   a^Ib$\n");
    let mut b = cat_opts();
    b.number_nonblank = true;
    assert_eq!(b.process_line("\n", 3, true), "\n");
    assert_eq!(b.process_line("z\n", 3, false), "     3   z\n");
}

#[test]
fn cat_content_numbering() {
    let mut b = cat_opts();
    b.number_nonblank = true;
    assert_eq!(
        b.process_content("a\n\nb"),
        strings(&["     1   a\n", "\n", "     2   b"])
    );
    let mut n = cat_opts();
    n.number = true;
    assert_eq!(
        n.process_content("a\n\nb\n"),
        strings(&["     1   a\n", "     2   \n", "     3   b\n"])
    );
    assert!(n.process_content("").is_empty());
}

#[test]
fn plain_cat_reproduces_text() {
    let o = cat_opts();
    for text in ["", "a", "a\n", "a\n\n\tb\nlast", "\n\n"] {
        assert_eq!(o.process_content(text).concat(), text);
    }
}

#[test]
fn cat_show_all_and_header() {
    let mut o = cat_opts();
    o.show_all = true;
    o.normalize_opt();
    assert!(o.show_tab && o.show_end && o.show_nonprint);
    let mut p = cat_opts();
    p.normalize_opt();
    assert!(!p.show_tab && !p.show_end && !p.show_nonprint);
    assert_eq!(file_header("f.txt", 2), "'f.txt'");
    assert_eq!(file_header("f.txt", 1), "");
}

#[test]
fn parsed_groups_need_no_invalid_pipe() {
    let list = parse("a | b < x | c > y && d | e").map(|_| ());
    assert_eq!(list, Err(ParseError::InvalidRedirection));
    let list = parse("a < x | b | c || d | e >> y").unwrap();
    for group in &list {
        let n = group.command.len();
        assert_eq!(stream_plan(group), Ok(vec![true; n - 1]));
        for (j, pair) in group.command.windows(2).enumerate() {
            assert_eq!(stream_between(&pair[0].stdout, &pair[1].stdin), Ok(true), "pair {j}");
        }
        for (j, c) in group.command.iter().enumerate() {
            if c.stdin == Input::Pipe {
                assert_eq!(stdin_action(&c.stdin, j, n - 1), StdinAction::PipeRead(j - 1));
            }
            if c.stdout == Output::Pipe {
                assert_eq!(stdout_action(&c.stdout, j, n - 1), StdoutAction::PipeWrite(j));
            }
        }
    }
}

#[test]
fn cat_show_nonprinting() {
    let mut v = cat_opts();
    v.show_nonprint = true;
    assert_eq!(v.process_line("a\u{1}b\u{7f}\n", 1, false), "a^Ab^?\n");
    assert_eq!(v.process_line("\u{0}\u{1b}\u{1f}\t\n", 1, false), "^@^[^_\t\n");
    assert_eq!(v.process_line("é~ ", 1, false), "é~ ");
    let mut all = cat_opts();
    all.show_all = true;
    all.normalize_opt();
    assert_eq!(all.process_line("x\t\u{2}\n", 1, false), "x^I^B$\n");
}

#[test]
fn cat_squeeze_blank() {
    let mut s = cat_opts();
    s.squeeze_blank = true;
    assert_eq!(s.process_content("a\n\n\n\nb\n"), strings(&["a\n", "\n", "b\n"]));
    assert_eq!(s.process_content("\n\n"), strings(&["\n"]));
    s.number = true;
    assert_eq!(
        s.process_content("a\n\n\nb\n\n"),
        strings(&["     1   a\n", "     2   \n", "     3   b\n", "     4   \n"])
    );
}

#[test]
fn stream_plan_per_group() {
    let mut g = CommandGroup::new();
    assert_eq!(stream_plan(&g), Ok(vec![]));
    let mut a = InputCommand::new();
    a.stdout = Output::Pipe;
    let mut b = InputCommand::new();
    b.stdin = Input::Pipe;
    let c = InputCommand::new();
    g.add_command(a);
    g.add_command(b);
    g.add_command(c);
    assert_eq!(stream_plan(&g), Ok(vec![true, false]));
    let mut h = CommandGroup::new();
    let mut x = InputCommand::new();
    x.stdout = Output::Pipe;
    h.add_command(x);
    h.add_command(InputCommand::new());
    assert_eq!(stream_plan(&h), Err(ExecError::InvalidPipeline));
}

#[test]
fn parse_keeps_fields_and_redirects() {
    let line = "cat -n < in.txt a | wc -l && ls > out.txt x";
    let list = parse(line).unwrap();
    let mut words = Vec::new();
    for g in &list {
        for c in &g.command {
            words.push(c.program.clone());
            words.extend(c.args.iter().cloned());
        }
    }
    assert_eq!(words, strings(&["cat", "-n", "a", "wc", "-l", "ls", "x"]));
    let flat: Vec<&InputCommand> = list.iter().flat_map(|g| g.command.iter()).collect();
    assert_eq!(flat[0].stdin, Input::File("in.txt".to_string()));
    assert_eq!(flat[0].stdout, Output::Pipe);
    assert_eq!(flat[1].stdin, Input::Pipe);
    assert_eq!(flat[1].stdout, Output::Inherit);
    assert_eq!(flat[2].stdin, Input::Inherit);
    assert_eq!(flat[2].stdout, Output::File("out.txt".to_string()));
}
