use shell::commands::{CommandGroup, CommandOperator, CommandType, Input, InputCommand, Output};
use shell::parser::ShellParser;


#[test]
fn basic_test_01() {
    let parser = ShellParser::new();
    let input = vec![
        InputCommand{
            kind: CommandType::Unknown,
            program: String::from("cat"),
            args: Vec::from(["-e".to_string(), "test".to_string()]),
            stdin: Input::Inherit,
            stdout: Output::Inherit
        }
    ];
    let expected = vec![
        CommandGroup {
            command: input,
            next: None,
        }
    ];
    let result = parser
        .parse_user_command("cat -e test")
        .unwrap(); 
    assert_eq!(result, expected);
}
#[test]
fn basic_test_02() {
    let parser = ShellParser::new();
    let input = vec![
        InputCommand {
            kind: CommandType::Unknown,
            program: String::from("cat"),
            args: vec![],
            stdin: Input::Inherit,
            stdout: Output::Inherit,
        }
    ];
    let expected = vec![
        CommandGroup {
            command: input,
            next: None,
        }
    ];
    let result = parser
        .parse_user_command("cat")
        .unwrap();
    assert_eq!(result, expected);
}
#[test]
fn basic_test_03() {
    let parser = ShellParser::new();
    let input = vec![
        InputCommand {
            kind: CommandType::Unknown,
            program: String::from("echo"),
            args: vec![
                "hello".to_string(),
                "world".to_string(),
            ],
            stdin: Input::Inherit,
            stdout: Output::Inherit,
        }
    ];
    let expected = vec![
        CommandGroup {
            command: input,
            next: None,
        }
    ];
    let result = parser
        .parse_user_command("echo hello world")
        .unwrap();
    assert_eq!(result, expected);
}
#[test]
fn redirect_input_01() {
    let parser = ShellParser::new();

    let input = vec![
        InputCommand {
            kind: CommandType::Unknown,
            program: String::from("cat"),
            args: vec![],
            stdin: Input::File("input.txt".into()),
            stdout: Output::Inherit,
        }
    ];
    let expected = vec![
        CommandGroup {
            command: input,
            next: None,
        }
    ];
    let result = parser
        .parse_user_command("cat < input.txt")
        .unwrap();

    assert_eq!(result, expected);
}
#[test]
fn redirect_output_01() {
    let parser = ShellParser::new();

    let input = vec![
        InputCommand {
            kind: CommandType::Unknown,
            program: String::from("cat"),
            args: vec![],
            stdin: Input::Inherit,
            stdout: Output::File("output.txt".into()),
        }
    ];
    let expected = vec![
        CommandGroup {
            command: input,
            next: None,
        }
    ];
    let result = parser
        .parse_user_command("cat > output.txt")
        .unwrap();

    assert_eq!(result, expected);
}
#[test]
fn redirect_append_01() {
    let parser = ShellParser::new();

    let input = vec![
        InputCommand {
            kind: CommandType::Unknown,
            program: String::from("cat"),
            args: vec![],
            stdin: Input::Inherit,
            stdout: Output::AppendFile("output.txt".into()),
        }
    ];
    let expected = vec![
        CommandGroup {
            command: input,
            next: None,
        }
    ];
    let result = parser
        .parse_user_command("cat >> output.txt")
        .unwrap();

    assert_eq!(result, expected);
}
#[test]
fn redirect_output_02() {
    let parser = ShellParser::new();

    let input = vec![
        InputCommand {
            kind: CommandType::Unknown,
            program: String::from("cat"),
            args: vec![
                "-n".to_string(),
                "input.txt".to_string(),
            ],
            stdin: Input::Inherit,
            stdout: Output::File("output.txt".into()),
        }
    ];
    let expected = vec![
        CommandGroup {
            command: input,
            next: None,
        }
    ];
    let result = parser
        .parse_user_command(
            "cat -n input.txt > output.txt"
        )
        .unwrap();

    assert_eq!(result, expected);
}
#[test]
fn pipe_01() {
    let parser = ShellParser::new();

    let input = vec![
        InputCommand {
            kind: CommandType::Unknown,
            program: String::from("cat"),
            args: vec![
                "file.txt".to_string(),
            ],
            stdin: Input::Inherit,
            stdout: Output::Pipe,
        },
        InputCommand {
            kind: CommandType::Unknown,
            program: String::from("grep"),
            args: vec![
                "hello".to_string(),
            ],
            stdin: Input::Pipe,
            stdout: Output::Inherit,
        },
    ];
    let expected = vec![
        CommandGroup {
            command: input,
            next: None,
        }
    ];
    let result = parser
        .parse_user_command(
            "cat file.txt | grep hello"
        )
        .unwrap();

    assert_eq!(result, expected);
}
#[test]
fn pipe_02() {
    let parser = ShellParser::new();

    let input = vec![
        InputCommand {
            kind: CommandType::Unknown,
            program: String::from("cat"),
            args: vec!["file.txt".to_string()],
            stdin: Input::Inherit,
            stdout: Output::Pipe,
        },
        InputCommand {
            kind: CommandType::Unknown,
            program: String::from("grep"),
            args: vec!["hello".to_string()],
            stdin: Input::Pipe,
            stdout: Output::Pipe,
        },
        InputCommand {
            kind: CommandType::Unknown,
            program: String::from("wc"),
            args: vec!["-l".to_string()],
            stdin: Input::Pipe,
            stdout: Output::Inherit,
        },
    ];
    let expected = vec![
        CommandGroup {
            command: input,
            next: None,
        }
    ];
    let result = parser
        .parse_user_command(
            "cat file.txt | grep hello | wc -l"
        )
        .unwrap();

    assert_eq!(result, expected);
}
#[test]
fn pipe_redirect_01() {
    let parser = ShellParser::new();

    let input = vec![
        InputCommand {
            kind: CommandType::Unknown,
            program: String::from("cat"),
            args: vec!["file.txt".to_string()],
            stdin: Input::Inherit,
            stdout: Output::Pipe,
        },
        InputCommand {
            kind: CommandType::Unknown,
            program: String::from("grep"),
            args: vec!["hello".to_string()],
            stdin: Input::Pipe,
            stdout: Output::File(
                "result.txt".into()
            ),
        },
    ];
    let expected = vec![
        CommandGroup {
            command: input,
            next: None,
        }
    ];
    let result = parser
        .parse_user_command(
            "cat file.txt | grep hello > result.txt"
        )
        .unwrap();

    assert_eq!(result, expected);
}
#[test]
fn basic_group_01() {
    let parser = ShellParser::new();
    let input_1 = vec![
        InputCommand{
            kind: CommandType::Unknown,
            program: String::from("cat"),
            args: Vec::from(["-e".to_string(), "test".to_string()]),
            stdin: Input::Inherit,
            stdout: Output::Inherit
        }
    ];
    let input_2 = vec![
        InputCommand {
            kind: CommandType::Unknown,
            program: String::from("echo"),
            args: vec![
                "hello".to_string(),
                "world".to_string(),
            ],
            stdin: Input::Inherit,
            stdout: Output::Inherit,
        }
    ];
    let expected = vec![
        CommandGroup {
            command: input_1,
            next: Some(CommandOperator::Or),
        },
        CommandGroup {
            command: input_2,
            next: None,
        }
    ];
    let result = parser
        .parse_user_command("cat -e test || echo hello world")
        .unwrap(); 
    assert_eq!(result, expected);
}
#[test]
fn basic_group_02() {
    let parser = ShellParser::new();
    let input_1 = vec![
        InputCommand{
            kind: CommandType::Unknown,
            program: String::from("cat"),
            args: Vec::from(["-e".to_string(), "test".to_string()]),
            stdin: Input::Inherit,
            stdout: Output::Inherit
        }
    ];
    let input_2 = vec![
        InputCommand {
            kind: CommandType::Unknown,
            program: String::from("echo"),
            args: vec![
                "hello".to_string(),
                "world".to_string(),
            ],
            stdin: Input::Inherit,
            stdout: Output::Inherit,
        }
    ];
    let expected = vec![
        CommandGroup {
            command: input_1,
            next: Some(CommandOperator::And),
        },
        CommandGroup {
            command: input_2,
            next: None,
        }
    ];
    let result = parser
        .parse_user_command("cat -e test && echo hello world")
        .unwrap(); 
    assert_eq!(result, expected);
}
#[test]
fn basic_group_03() {
    let parser = ShellParser::new();
    let input_1 = vec![
        InputCommand{
            kind: CommandType::Unknown,
            program: String::from("cat"),
            args: Vec::from(["-e".to_string(), "test".to_string()]),
            stdin: Input::Inherit,
            stdout: Output::Inherit
        }
    ];
    let input_2 = vec![
        InputCommand {
            kind: CommandType::Unknown,
            program: String::from("echo"),
            args: vec![
                "hello".to_string(),
                "world".to_string(),
            ],
            stdin: Input::Inherit,
            stdout: Output::Inherit,
        }
    ];
    let expected = vec![
        CommandGroup {
            command: input_1,
            next: Some(CommandOperator::Sequence),
        },
        CommandGroup {
            command: input_2,
            next: None,
        }
    ];
    let result = parser
        .parse_user_command("cat -e test ; echo hello world")
        .unwrap(); 
    assert_eq!(result, expected);
}
#[test]
fn syntax_error_01() {
    let parser = ShellParser::new();

    let result = parser
        .parse_user_command("cat |");

    assert!(result.is_err());
}
#[test]
fn syntax_error_02() {
    let parser = ShellParser::new();

    let result = parser
        .parse_user_command("| cat");

    assert!(result.is_err());
}
#[test]
fn syntax_error_03() {
    let parser = ShellParser::new();

    let result = parser
        .parse_user_command("cat <");

    assert!(result.is_err());
}
#[test]
fn syntax_error_04() {
    let parser = ShellParser::new();

    let result = parser
        .parse_user_command("cat >");

    assert!(result.is_err());
}
#[test]
fn syntax_error_05() {
    let parser = ShellParser::new();

    let result = parser
        .parse_user_command(
            "cat > file1 > file2"
        );

    assert!(result.is_err());
}
#[test]
fn syntax_error_06() {
    let parser = ShellParser::new();

    let result = parser
        .parse_user_command(
            "cat < file1 < file2"
        );

    assert!(result.is_err());
}
#[test]
fn syntax_error_07() {
    let parser = ShellParser::new();

    let result = parser
        .parse_user_command(
            "cat > file1 | grep hello"
        );

    assert!(result.is_err());
}
#[test]
fn whitespace_01() {
    let parser = ShellParser::new();

    let input = InputCommand {
        kind: CommandType::Unknown,
        program: String::from("cat"),
        args: vec![
            "-e".to_string(),
            "test".to_string(),
        ],
        stdin: Input::Inherit,
        stdout: Output::Inherit,
    };
    let expected = vec![CommandGroup {
        command: vec![input],
        next: None,
    },
    ];

    let result = parser
        .parse_user_command(
            "   cat    -e     test   "
        )
        .unwrap();

    assert_eq!(result, expected);
}
