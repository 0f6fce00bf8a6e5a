use polyshell::shell::eval::{
    compute_expr, eval, unwrap_alias, Action, EvalError, Line, Progress,
};
use polyshell::shell::lexer::Lexer;
use polyshell::shell::parser::{AssignExpr, CommandExpr, Expr, Modifier, Parser};
use polyshell::shell::path_table::PathEntry;
use polyshell::shell::Shell;
use string_cache::DefaultAtom as Atom;

fn parse(source: &str) -> Vec<Expr> {
    let tokens = Lexer::new(source).tokenize().unwrap();
    Parser::new(source, tokens).parse().unwrap()
}

fn entry(name: &str, path: &str) -> PathEntry {
    PathEntry { name: name.to_string(), path: path.to_string() }
}

/// A session whose path table knows `ls`, `echo` and `cat`.
fn session() -> Shell {
    let mut shell = Shell::default();
    shell.path_table.cache(&vec![
        Some(vec![entry("ls", "/bin/ls"), entry("echo", "/bin/echo")]),
        Some(vec![entry("cat", "/usr/bin/cat")]),
    ]);
    shell
}

/// Evaluates a line to its end, as if every action had been done, and
/// gathers the actions.
fn line(shell: &mut Shell, source: &str) -> (Vec<Action>, Result<(), EvalError>) {
    let mut line = Line::new(parse(source));
    let mut actions = Vec::new();
    loop {
        match eval(&mut line, shell) {
            Progress::Action(action) => actions.push(action),
            Progress::Failed(error) => return (actions, Err(error)),
            Progress::Done => return (actions, Ok(())),
        }
    }
}

fn atoms(texts: &[&str]) -> Vec<Atom> {
    texts.iter().map(|t| Atom::from(*t)).collect()
}

fn spawn(path: &str, args: &[&str]) -> Action {
    Action::Spawn { path: Atom::from(path), args: atoms(args) }
}

fn export(name: &str, value: &str) -> Action {
    Action::Export { name: Atom::from(name), value: Atom::from(value) }
}

fn command(name: &str, args: &[&str], canonical: bool) -> CommandExpr {
    CommandExpr { command: Atom::from(name), args: atoms(args), canonical }
}

#[test]
fn command_is_resolved_through_the_path_table() {
    let mut shell = session();
    assert_eq!(line(&mut shell, "echo hi"), (vec![spawn("/bin/echo", &["hi"])], Ok(())));
    assert_eq!(line(&mut shell, "cat"), (vec![spawn("/usr/bin/cat", &[])], Ok(())));
}

#[test]
fn unknown_command_is_not_found() {
    let mut shell = session();
    assert_eq!(
        line(&mut shell, "nosuchcommand a b"),
        (vec![], Err(EvalError::CommandNotFound("nosuchcommand".to_string())))
    );
    assert_eq!(line(&mut shell, "echo ok"), (vec![spawn("/bin/echo", &["ok"])], Ok(())));
}

#[test]
fn path_is_taken_as_it_is() {
    let mut shell = Shell::default();
    assert_eq!(line(&mut shell, "./run a"), (vec![spawn("./run", &["a"])], Ok(())));
    assert_eq!(line(&mut shell, "/opt/tool"), (vec![spawn("/opt/tool", &[])], Ok(())));
}

#[test]
fn let_binds_a_variable_and_nothing_else() {
    let mut shell = session();
    assert_eq!(line(&mut shell, "let X=5"), (vec![], Ok(())));
    assert_eq!(shell.variables.get("X"), Some(&Atom::from("5")));
    assert_eq!(shell.variables.get("Y"), None);
    assert!(shell.aliases.get("X").is_none());
}

#[test]
fn let_overwrites() {
    let mut shell = session();
    line(&mut shell, "let X=5; let X=6");
    assert_eq!(shell.variables.get("X"), Some(&Atom::from("6")));
}

#[test]
fn variables_are_not_substituted() {
    let mut shell = session();
    assert_eq!(line(&mut shell, "let X=5; echo X"), (vec![spawn("/bin/echo", &["X"])], Ok(())));
    assert_eq!(shell.variables.get("X"), Some(&Atom::from("5")));
}

#[test]
fn variable_named_like_a_command_changes_nothing() {
    let mut shell = session();
    assert_eq!(line(&mut shell, "let echo=cat; echo a"), (vec![spawn("/bin/echo", &["a"])], Ok(())));
}

#[test]
fn export_asks_for_the_environment_variable() {
    let mut shell = session();
    assert_eq!(line(&mut shell, "export GREETING=hi"), (vec![export("GREETING", "hi")], Ok(())));
    assert_eq!(shell.variables.get("GREETING"), None);
}

#[test]
fn export_comes_before_the_program_that_follows() {
    let mut shell = session();
    assert_eq!(
        line(&mut shell, "export GREETING=hi; echo"),
        (vec![export("GREETING", "hi"), spawn("/bin/echo", &[])], Ok(()))
    );
}

#[test]
fn alias_arguments_come_first() {
    let mut shell = session();
    assert_eq!(line(&mut shell, "alias ll=ls -la"), (vec![], Ok(())));
    assert_eq!(shell.aliases.get("ll"), Some(&command("ls", &["-la"], true)));
    assert_eq!(line(&mut shell, "ll extra"), (vec![spawn("/bin/ls", &["-la", "extra"])], Ok(())));
}

#[test]
fn alias_in_the_same_line() {
    let mut shell = session();
    assert_eq!(
        line(&mut shell, "alias ll=ls -la; ll extra"),
        (vec![spawn("/bin/ls", &["-la", "extra"])], Ok(()))
    );
}

#[test]
fn alias_overwrites() {
    let mut shell = session();
    line(&mut shell, "alias l=ls; alias l=cat -n");
    assert_eq!(line(&mut shell, "l f"), (vec![spawn("/usr/bin/cat", &["-n", "f"])], Ok(())));
}

#[test]
fn alias_chain_puts_inner_arguments_first() {
    let mut shell = session();
    line(&mut shell, "alias a=b x; alias b=echo y");
    assert_eq!(line(&mut shell, "a z"), (vec![spawn("/bin/echo", &["y", "x", "z"])], Ok(())));
}

#[test]
fn alias_of_a_path_needs_no_table() {
    let mut shell = Shell::default();
    line(&mut shell, "alias run=./run.sh now");
    assert_eq!(line(&mut shell, "run fast"), (vec![spawn("./run.sh", &["now", "fast"])], Ok(())));
}

#[test]
fn alias_of_an_unknown_command_is_not_found_under_its_name() {
    let mut shell = session();
    line(&mut shell, "alias x=nosuch -a");
    assert_eq!(
        line(&mut shell, "x"),
        (vec![], Err(EvalError::CommandNotFound("nosuch".to_string())))
    );
}

#[test]
fn alias_of_itself_is_a_cycle() {
    let mut shell = session();
    assert_eq!(line(&mut shell, "alias foo=foo"), (vec![], Ok(())));
    assert_eq!(line(&mut shell, "foo"), (vec![], Err(EvalError::AliasCycle)));
}

#[test]
fn alias_of_itself_with_arguments_is_a_cycle() {
    let mut shell = session();
    line(&mut shell, "alias ls=ls -la");
    assert_eq!(line(&mut shell, "ls"), (vec![], Err(EvalError::AliasCycle)));
}

#[test]
fn aliases_of_each_other_are_a_cycle() {
    let mut shell = session();
    line(&mut shell, "alias a=b; alias b=c; alias c=a");
    assert_eq!(line(&mut shell, "a"), (vec![], Err(EvalError::AliasCycle)));
    assert_eq!(line(&mut shell, "c 1"), (vec![], Err(EvalError::AliasCycle)));
    assert_eq!(line(&mut shell, "echo ok"), (vec![spawn("/bin/echo", &["ok"])], Ok(())));
}

#[test]
fn long_alias_names_are_told_apart() {
    let mut shell = session();
    line(&mut shell, "alias a-rather-long-alias-name=another-long-alias-name 1");
    line(&mut shell, "alias another-long-alias-name=echo 2");
    assert_eq!(
        line(&mut shell, "a-rather-long-alias-name 3"),
        (vec![spawn("/bin/echo", &["2", "1", "3"])], Ok(()))
    );
    line(&mut shell, "alias another-long-alias-name=a-rather-long-alias-name");
    assert_eq!(line(&mut shell, "a-rather-long-alias-name"), (vec![], Err(EvalError::AliasCycle)));
}

#[test]
fn exit_ends_the_line() {
    let mut shell = session();
    assert_eq!(line(&mut shell, "exit"), (vec![Action::Exit], Ok(())));
    assert_eq!(line(&mut shell, "exit; echo a; nosuch"), (vec![Action::Exit], Ok(())));
    assert_eq!(line(&mut shell, "exit; let X=1"), (vec![Action::Exit], Ok(())));
    assert_eq!(shell.variables.get("X"), None);
}

#[test]
fn statements_before_exit_are_done() {
    let mut shell = session();
    assert_eq!(
        line(&mut shell, "let X=1; echo a; exit; echo b"),
        (vec![spawn("/bin/echo", &["a"]), Action::Exit], Ok(()))
    );
    assert_eq!(shell.variables.get("X"), Some(&Atom::from("1")));
}

#[test]
fn exit_is_looked_for_before_aliases() {
    let mut shell = session();
    line(&mut shell, "alias exit=echo no");
    assert_eq!(line(&mut shell, "exit"), (vec![Action::Exit], Ok(())));
}

#[test]
fn alias_that_stands_for_exit_is_looked_up_as_a_command() {
    let mut shell = session();
    line(&mut shell, "alias q=exit");
    assert_eq!(line(&mut shell, "q"), (vec![], Err(EvalError::CommandNotFound("exit".to_string()))));
}

#[test]
fn error_keeps_what_was_done_before() {
    let mut shell = session();
    assert_eq!(
        line(&mut shell, "let A=1; echo a; nosuch; let B=2; echo b"),
        (vec![spawn("/bin/echo", &["a"])], Err(EvalError::CommandNotFound("nosuch".to_string())))
    );
    assert_eq!(shell.variables.get("A"), Some(&Atom::from("1")));
    assert_eq!(shell.variables.get("B"), None);
}

#[test]
fn statements_wait_for_the_action_before_them() {
    let mut shell = session();
    let mut line = Line::new(parse("let A=1; echo a; let B=2; ls; let C=3"));
    assert_eq!(line.remaining(), 5);
    assert_eq!(eval(&mut line, &mut shell), Progress::Action(spawn("/bin/echo", &["a"])));
    assert_eq!(line.remaining(), 3);
    assert_eq!(shell.variables.get("A"), Some(&Atom::from("1")));
    assert_eq!(shell.variables.get("B"), None);
    assert_eq!(eval(&mut line, &mut shell), Progress::Action(spawn("/bin/ls", &[])));
    assert_eq!(line.remaining(), 1);
    assert_eq!(shell.variables.get("B"), Some(&Atom::from("2")));
    assert_eq!(shell.variables.get("C"), None);
    assert_eq!(eval(&mut line, &mut shell), Progress::Done);
    assert_eq!(line.remaining(), 0);
    assert_eq!(shell.variables.get("C"), Some(&Atom::from("3")));
    assert_eq!(eval(&mut line, &mut shell), Progress::Done);
}

#[test]
fn line_that_is_given_up_changes_nothing_more() {
    let mut shell = session();
    let mut line = Line::new(parse("ls; let B=2; alias l=ls"));
    assert_eq!(eval(&mut line, &mut shell), Progress::Action(spawn("/bin/ls", &[])));
    drop(line);
    assert_eq!(shell.variables.get("B"), None);
    assert!(shell.aliases.get("l").is_none());
}

#[test]
fn nothing_is_left_after_an_error() {
    let mut shell = session();
    let mut line = Line::new(parse("nosuch; let B=2; ls"));
    assert_eq!(
        eval(&mut line, &mut shell),
        Progress::Failed(EvalError::CommandNotFound("nosuch".to_string()))
    );
    assert_eq!(line.remaining(), 0);
    assert_eq!(eval(&mut line, &mut shell), Progress::Done);
    assert_eq!(shell.variables.get("B"), None);
}

#[test]
fn nothing_is_left_after_exit() {
    let mut shell = session();
    let mut line = Line::new(parse("let A=1; exit; let B=2; ls"));
    assert_eq!(eval(&mut line, &mut shell), Progress::Action(Action::Exit));
    assert_eq!(line.remaining(), 0);
    assert_eq!(eval(&mut line, &mut shell), Progress::Done);
    assert_eq!(shell.variables.get("A"), Some(&Atom::from("1")));
    assert_eq!(shell.variables.get("B"), None);
}

#[test]
fn empty_line_is_done_at_once() {
    let mut shell = session();
    let mut line = Line::new(vec![]);
    assert_eq!(line.remaining(), 0);
    assert_eq!(eval(&mut line, &mut shell), Progress::Done);
}

#[test]
fn assignment_with_the_alias_word_does_nothing() {
    let mut shell = session();
    let expr = Expr::Assign(Box::new(AssignExpr {
        modifier: Modifier::Alias,
        lhs: Atom::from("a"),
        rhs: Atom::from("b"),
    }));
    assert_eq!(compute_expr(&expr, &mut shell), Ok(None));
    assert!(shell.aliases.get("a").is_none());
    assert_eq!(shell.variables.get("a"), None);
}

#[test]
fn eof_does_nothing() {
    let mut shell = session();
    assert_eq!(compute_expr(&Expr::Eof, &mut shell), Ok(None));
    let mut line = Line::new(vec![Expr::Eof, Expr::Eof]);
    assert_eq!(eval(&mut line, &mut shell), Progress::Done);
    assert_eq!(line.remaining(), 0);
}

#[test]
fn compute_expr_gives_one_action() {
    let mut shell = session();
    let call = Expr::Command(Box::new(command("ls", &["-l"], true)));
    assert_eq!(compute_expr(&call, &mut shell), Ok(Some(spawn("/bin/ls", &["-l"]))));
    let exit = Expr::Command(Box::new(command("exit", &["1"], true)));
    assert_eq!(compute_expr(&exit, &mut shell), Ok(Some(Action::Exit)));
}

#[test]
fn unwrap_alias_without_alias_gives_the_command_back() {
    let shell = session();
    let call = command("ls", &["a"], true);
    assert_eq!(unwrap_alias(&call, &shell), Ok(command("ls", &["a"], true)));
}

#[test]
fn unwrap_alias_takes_the_flag_of_the_alias() {
    let mut shell = session();
    line(&mut shell, "alias t=/bin/true x");
    let call = command("t", &["y"], true);
    assert_eq!(unwrap_alias(&call, &shell), Ok(command("/bin/true", &["x", "y"], false)));
}

#[test]
fn eval_error_messages() {
    assert_eq!(EvalError::AliasCycle.message(), "alias cycle");
    assert_eq!(
        EvalError::CommandNotFound("nosuchcommand".to_string()).message(),
        "command 'nosuchcommand' not found"
    );
}
