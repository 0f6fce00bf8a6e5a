use polyshell::process::{argv, env_entry};
use polyshell::shell::eval::{eval, Action, EvalError, Progress};
use polyshell::shell::lexer::LexError;
use polyshell::shell::parser::{Modifier, ParseError};
use polyshell::shell::path_table::{split_path, PathEntry};
use polyshell::shell::{parse_line, Error, Shell};
use string_cache::DefaultAtom as Atom;

fn entry(name: &str, path: &str) -> PathEntry {
    PathEntry { name: name.to_string(), path: path.to_string() }
}

fn session() -> Shell {
    let mut shell = Shell::default();
    shell.path_table.cache(&vec![
        Some(vec![entry("ls", "/bin/ls"), entry("echo", "/bin/echo")]),
        Some(vec![entry("echo", "/usr/bin/echo")]),
    ]);
    shell
}

/// Runs a line to its end, as if every action had been done, and gathers
/// the actions.
fn line(shell: &mut Shell, source: &str) -> (Vec<Action>, Result<(), Error>) {
    let mut actions = Vec::new();
    let mut line = match parse_line(source) {
        Ok(line) => line,
        Err(error) => return (actions, Err(error)),
    };
    loop {
        match eval(&mut line, shell) {
            Progress::Action(action) => actions.push(action),
            Progress::Failed(error) => return (actions, Err(Error::Eval(error))),
            Progress::Done => return (actions, Ok(())),
        }
    }
}

fn spawn(path: &str, args: &[&str]) -> Action {
    Action::Spawn { path: Atom::from(path), args: args.iter().map(|a| Atom::from(*a)).collect() }
}

#[test]
fn new_session_is_empty() {
    let shell = Shell::default();
    assert!(shell.aliases.get("ls").is_none());
    assert_eq!(shell.variables.get("PATH"), None);
    assert_eq!(shell.path_table.lookup("ls"), None);
}

#[test]
fn empty_line_does_nothing() {
    let mut shell = session();
    assert_eq!(line(&mut shell, ""), (vec![], Ok(())));
    assert_eq!(line(&mut shell, "  ;\n"), (vec![], Ok(())));
}

#[test]
fn command_line_asks_for_the_program() {
    let mut shell = session();
    let (actions, result) = line(&mut shell, "echo hi");
    assert_eq!(result, Ok(()));
    assert_eq!(actions, vec![spawn("/bin/echo", &["hi"])]);
    match &actions[0] {
        Action::Spawn { path, args } => {
            assert_eq!(argv(path, args), vec!["/bin/echo".to_string(), "hi".to_string()]);
        }
        _ => unreachable!(),
    }
}

#[test]
fn exported_variable_becomes_an_environment_entry() {
    let mut shell = session();
    let (actions, result) = line(&mut shell, "export GREETING=hi; ls");
    assert_eq!(result, Ok(()));
    assert_eq!(actions.len(), 2);
    match &actions[0] {
        Action::Export { name, value } => assert_eq!(env_entry(name, value), "GREETING=hi"),
        _ => unreachable!(),
    }
    assert_eq!(actions[1], spawn("/bin/ls", &[]));
}

#[test]
fn let_is_not_exported() {
    let mut shell = session();
    assert_eq!(line(&mut shell, "let X=5; echo X"), (vec![spawn("/bin/echo", &["X"])], Ok(())));
}

#[test]
fn alias_then_call() {
    let mut shell = session();
    assert_eq!(line(&mut shell, "alias ll=ls -la"), (vec![], Ok(())));
    assert_eq!(line(&mut shell, "ll extra"), (vec![spawn("/bin/ls", &["-la", "extra"])], Ok(())));
}

#[test]
fn exit_line() {
    let mut shell = session();
    assert_eq!(line(&mut shell, "exit; ls; let"), (vec![], Err(Error::Parse(
        ParseError::ExpectedIdentifier(Modifier::Let)
    ))));
    assert_eq!(line(&mut shell, "exit; ls"), (vec![Action::Exit], Ok(())));
}

#[test]
fn lex_error_ends_the_line_before_anything_is_done() {
    let mut shell = session();
    assert_eq!(
        line(&mut shell, "let A=1; echo \"abc"),
        (vec![], Err(Error::Lex(LexError::UnterminatedString)))
    );
    assert_eq!(shell.variables.get("A"), None);
    assert_eq!(
        line(&mut shell, "echo \"a\nb\""),
        (vec![], Err(Error::Lex(LexError::NewlineInString)))
    );
}

#[test]
fn parse_error_ends_the_line_before_anything_is_done() {
    let mut shell = session();
    assert_eq!(
        line(&mut shell, "let A=1; ls; export B"),
        (vec![], Err(Error::Parse(ParseError::ExpectedEq("B".to_string()))))
    );
    assert_eq!(shell.variables.get("A"), None);
}

#[test]
fn eval_error_keeps_what_was_done() {
    let mut shell = session();
    assert_eq!(
        line(&mut shell, "let A=1; ls; nosuchcommand a b; ls"),
        (
            vec![spawn("/bin/ls", &[])],
            Err(Error::Eval(EvalError::CommandNotFound("nosuchcommand".to_string())))
        )
    );
    assert_eq!(shell.variables.get("A"), Some(&Atom::from("1")));
    assert_eq!(line(&mut shell, "ls"), (vec![spawn("/bin/ls", &[])], Ok(())));
}

#[test]
fn self_alias_line() {
    let mut shell = session();
    assert_eq!(
        line(&mut shell, "alias foo=foo; foo"),
        (vec![], Err(Error::Eval(EvalError::AliasCycle)))
    );
}

#[test]
fn report_is_prefix_colon_message() {
    let error = Error::Eval(EvalError::CommandNotFound("nosuchcommand".to_string()));
    assert_eq!(error.message(), "command 'nosuchcommand' not found");
    assert_eq!(error.report("polyshell"), "polyshell: command 'nosuchcommand' not found");
    assert_eq!(
        Error::Lex(LexError::UnterminatedString).report("polyshell"),
        "polyshell: unterminated string"
    );
    assert_eq!(
        Error::Parse(ParseError::ExpectedIdentifier(Modifier::Alias)).report("sh"),
        "sh: expected identifier after `alias`"
    );
    assert_eq!(Error::Eval(EvalError::AliasCycle).report(""), ": alias cycle");
}

#[test]
fn search_path_gives_the_first_directory() {
    let dirs = split_path("/a:/b");
    assert_eq!(dirs, vec!["/a", "/b"]);
    let listings: Vec<Option<Vec<PathEntry>>> = dirs
        .iter()
        .map(|dir| Some(vec![entry("cmd", &format!("{}/cmd", dir))]))
        .collect();
    let mut shell = Shell::default();
    shell.path_table.cache(&listings);
    assert_eq!(line(&mut shell, "cmd"), (vec![spawn("/a/cmd", &[])], Ok(())));
}

#[test]
fn parsed_line_has_its_statements_left() {
    assert_eq!(parse_line("").unwrap().remaining(), 0);
    assert_eq!(parse_line("ls; let A=1\nalias l=ls").unwrap().remaining(), 3);
    assert!(parse_line("ls; let").is_err());
    assert!(parse_line("ls \"").is_err());
}
