//! The evaluator: statements against a session.
//!
//! The evaluator changes the session and decides what is to be done outside
//! it: an environment variable to set, a program to run, the shell to end.
//! It does none of these itself: it hands each back as an [`Action`] and
//! goes on with the line when it is called again.

use super::parser::{
    texts, views, AssignView, CommandExpr, CommandView, Expr, ExprView, Modifier,
};
use super::{Shell, ShellView};
use crate::atom::{atom_clone, atom_str, atom_text};
use crate::text::str_eq;
use string_cache::DefaultAtom as Atom;
use vstd::prelude::*;
use vstd::string::StringExecFns;

verus! {

/// Why a statement could not be evaluated.
#[derive(Clone, Debug, PartialEq, Eq)]
pub enum EvalError {
    /// An alias led back to an alias that had been taken before.
    AliasCycle,
    /// The path table has no executable of this name.
    CommandNotFound(String),
}

/// An evaluation error as plain text.
#[verifier::ext_equal]
pub enum EvalErrorView {
    AliasCycle,
    CommandNotFound(Seq<char>),
}

impl View for EvalError {
    type V = EvalErrorView;

    open spec fn view(&self) -> EvalErrorView {
        match self {
            EvalError::AliasCycle => EvalErrorView::AliasCycle,
            EvalError::CommandNotFound(name) => EvalErrorView::CommandNotFound(name@),
        }
    }
}

impl EvalErrorView {
    /// The text that tells a user of the error.
    pub open spec fn message(self) -> Seq<char> {
        match self {
            EvalErrorView::AliasCycle => "alias cycle"@,
            EvalErrorView::CommandNotFound(name) => "command '"@ + name + "' not found"@,
        }
    }
}

impl EvalError {
    /// The text that tells a user of the error.
    pub fn message(&self) -> (text: String)
        ensures
            text@ == self@.message(),
    {
        match self {
            EvalError::AliasCycle => String::from_str("alias cycle"),
            EvalError::CommandNotFound(name) => {
                let mut text = String::from_str("command '");
                text.append(name.as_str());
                text.append("' not found");
                text
            },
        }
    }
}

/// What a statement asks to be done outside the session.
#[derive(Debug, PartialEq, Eq)]
pub enum Action {
    /// Set an environment variable of the shell's own process, so that
    /// every program run later has it.
    Export { name: Atom, value: Atom },
    /// Run the program at `path` with these arguments, and wait for it to
    /// end.
    Spawn { path: Atom, args: Vec<Atom> },
    /// End the shell, with status 0.
    Exit,
}

/// An action as plain text.
#[verifier::ext_equal]
pub enum ActionView {
    Export { name: Seq<char>, value: Seq<char> },
    Spawn { path: Seq<char>, args: Seq<Seq<char>> },
    Exit,
}

impl View for Action {
    type V = ActionView;

    open spec fn view(&self) -> ActionView {
        match self {
            Action::Export { name, value } => ActionView::Export {
                name: atom_text(*name),
                value: atom_text(*value),
            },
            Action::Spawn { path, args } => ActionView::Spawn {
                path: atom_text(*path),
                args: texts(args@),
            },
            Action::Exit => ActionView::Exit,
        }
    }
}

/// The command that stands for the invocation `call` of an alias bound to
/// `target`: the alias's command, with the alias's arguments before those of
/// the invocation.
pub open spec fn expand(target: CommandView, call: CommandView) -> CommandView {
    CommandView {
        command: target.command,
        args: target.args + call.args,
        canonical: target.canonical,
    }
}

/// The command that `call` stands for once every alias is taken: as long
/// as the command's name is an alias, the alias is expanded. `visited` holds
/// the aliases taken so far; to come to one of them again is an error.
pub open spec fn resolve(
    aliases: Map<Seq<char>, CommandView>,
    call: CommandView,
    visited: Set<Seq<char>>,
) -> Result<CommandView, EvalErrorView>
    decreases aliases.dom().difference(visited).len(),
    when aliases.dom().finite()
    via resolve_terminates
{
    if !aliases.contains_key(call.command) {
        Ok(call)
    } else if visited.contains(call.command) {
        Err(EvalErrorView::AliasCycle)
    } else {
        resolve(aliases, expand(aliases[call.command], call), visited.insert(call.command))
    }
}

#[via_fn]
proof fn resolve_terminates(
    aliases: Map<Seq<char>, CommandView>,
    call: CommandView,
    visited: Set<Seq<char>>,
) {
    if aliases.contains_key(call.command) && !visited.contains(call.command) {
        lemma_fewer_left(aliases.dom(), visited, call.command);
    }
}

/// Of a finite set, fewer members are left unvisited once one more is
/// visited.
pub proof fn lemma_fewer_left(all: Set<Seq<char>>, visited: Set<Seq<char>>, name: Seq<char>)
    requires
        all.finite(),
        all.contains(name),
        !visited.contains(name),
    ensures
        all.difference(visited.insert(name)).len() < all.difference(visited).len(),
{
    let left = all.difference(visited);
    assert(left.contains(name));
    assert(all.difference(visited.insert(name)) =~= left.remove(name));
}

/// What a command invocation asks for: the shell to end, where its name is
/// `exit`; else a program to run, under the path that the path table holds
/// for the resolved command's name, or under that name itself where it is
/// a path already.
pub open spec fn command_action(shell: ShellView, call: CommandView) -> Result<
    ActionView,
    EvalErrorView,
> {
    if call.command == "exit"@ {
        Ok(ActionView::Exit)
    } else {
        match resolve(shell.aliases, call, Set::empty()) {
            Err(e) => Err(e),
            Ok(command) => if !command.canonical {
                Ok(ActionView::Spawn { path: command.command, args: command.args })
            } else if shell.paths.contains_key(command.command) {
                Ok(ActionView::Spawn { path: shell.paths[command.command], args: command.args })
            } else {
                Err(EvalErrorView::CommandNotFound(command.command))
            },
        }
    }
}

/// What one statement does: the session after it, and the action that it
/// asks for, if any, or the error.
pub struct Step {
    pub shell: ShellView,
    pub result: Result<Option<ActionView>, EvalErrorView>,
}

/// What one statement does to a session.
pub open spec fn step(shell: ShellView, statement: ExprView) -> Step {
    match statement {
        ExprView::Assign(assign) => match assign.modifier {
            Modifier::Let => Step {
                shell: ShellView {
                    variables: shell.variables.insert(assign.lhs, assign.rhs),
                    ..shell
                },
                result: Ok(None),
            },
            Modifier::Export => Step {
                shell,
                result: Ok(Some(ActionView::Export { name: assign.lhs, value: assign.rhs })),
            },
            Modifier::Alias => Step { shell, result: Ok(None) },
        },
        ExprView::Alias(alias) => Step {
            shell: ShellView { aliases: shell.aliases.insert(alias.alias, alias.command), ..shell },
            result: Ok(None),
        },
        ExprView::Command(call) => Step {
            shell,
            result: match command_action(shell, call) {
                Ok(action) => Ok(Some(action)),
                Err(e) => Err(e),
            },
        },
        ExprView::Eof => Step { shell, result: Ok(None) },
    }
}

/// What a line of statements does: the session after it, the actions that
/// it asks for, in their order, and the error that ended it, if any.
pub struct Outcome {
    pub shell: ShellView,
    pub actions: Seq<ActionView>,
    pub error: Option<EvalErrorView>,
}

/// What the statements from `i` on do to a session if every action that
/// they ask for is done. They are taken one after the other. An error ends
/// the line, and so does `Exit`; what the statements before have done stays
/// done.
pub open spec fn eval_from(shell: ShellView, statements: Seq<ExprView>, i: int) -> Outcome
    decreases statements.len() - i,
{
    if i < 0 || i >= statements.len() {
        Outcome { shell, actions: Seq::empty(), error: None }
    } else {
        let now = step(shell, statements[i]);
        match now.result {
            Err(e) => Outcome { shell: now.shell, actions: Seq::empty(), error: Some(e) },
            Ok(Some(ActionView::Exit)) => Outcome {
                shell: now.shell,
                actions: seq![ActionView::Exit],
                error: None,
            },
            Ok(Some(action)) => {
                let rest = eval_from(now.shell, statements, i + 1);
                Outcome { actions: seq![action] + rest.actions, ..rest }
            },
            Ok(None) => eval_from(now.shell, statements, i + 1),
        }
    }
}

/// A copy of each of `atoms`.
pub fn clone_atoms(atoms: &Vec<Atom>) -> (copy: Vec<Atom>)
    ensures
        texts(copy@) == texts(atoms@),
{
    let mut copy: Vec<Atom> = Vec::new();
    let mut i: usize = 0;
    while i < atoms.len()
        invariant
            i <= atoms.len(),
            copy@.len() == i,
            forall|k: int| 0 <= k < i ==> atom_text(copy@[k]) == atom_text(atoms@[k]),
        decreases atoms.len() - i,
    {
        copy.push(atom_clone(&atoms[i]));
        i += 1;
    }
    assert(texts(copy@) =~= texts(atoms@));
    copy
}

impl Clone for CommandExpr {
    fn clone(&self) -> (copy: Self)
        ensures
            copy@ == self@,
    {
        CommandExpr {
            command: atom_clone(&self.command),
            args: clone_atoms(&self.args),
            canonical: self.canonical,
        }
    }
}

/// Whether one of `atoms` stands for the text of `atom`.
fn has_atom(atoms: &Vec<Atom>, atom: &Atom) -> (found: bool)
    ensures
        found == texts(atoms@).contains(atom_text(*atom)),
{
    let mut i: usize = 0;
    while i < atoms.len()
        invariant
            i <= atoms.len(),
            forall|k: int| 0 <= k < i ==> atom_text(atoms@[k]) != atom_text(*atom),
        decreases atoms.len() - i,
    {
        if str_eq(atom_str(&atoms[i]), atom_str(atom)) {
            assert(texts(atoms@)[i as int] == atom_text(*atom));
            return true;
        }
        i += 1;
    }
    assert forall|k: int| 0 <= k < texts(atoms@).len() implies texts(atoms@)[k] != atom_text(
        *atom,
    ) by {
        assert(texts(atoms@)[k] == atom_text(atoms@[k]));
    }
    false
}

/// The command that `expr` stands for once every alias of the session is
/// taken. Each alias is taken once at most: to come to one a second time is
/// `AliasCycle`.
pub fn unwrap_alias(expr: &CommandExpr, shell: &Shell) -> (r: Result<CommandExpr, EvalError>)
    ensures
        shell@.aliases.dom().finite(),
        match r {
            Ok(command) => resolve(shell@.aliases, expr@, Set::empty()) == Ok::<
                CommandView,
                EvalErrorView,
            >(command@),
            Err(e) => resolve(shell@.aliases, expr@, Set::empty()) == Err::<
                CommandView,
                EvalErrorView,
            >(e@),
        },
{
    let mut current = expr.clone();
    let mut visited: Vec<Atom> = Vec::new();
    assert(texts(visited@).to_set() =~= Set::<Seq<char>>::empty());
    loop
        invariant
            resolve(shell@.aliases, expr@, Set::empty()) == resolve(
                shell@.aliases,
                current@,
                texts(visited@).to_set(),
            ),
        decreases shell@.aliases.dom().difference(texts(visited@).to_set()).len(),
    {
        let ghost seen = texts(visited@).to_set();
        let ghost old_visited = visited@;
        let ghost call = current@;
        match shell.aliases.get(atom_str(&current.command)) {
            None => {
                return Ok(current);
            },
            Some(target) => {
                if has_atom(&visited, &current.command) {
                    return Err(EvalError::AliasCycle);
                }
                let mut args = clone_atoms(&target.args);
                let mut own = clone_atoms(&current.args);
                args.append(&mut own);
                visited.push(atom_clone(&current.command));
                current = CommandExpr {
                    command: atom_clone(&target.command),
                    args,
                    canonical: target.canonical,
                };
                proof {
                    assert(texts(visited@).to_set() =~= seen.insert(call.command)) by {
                        let before = texts(visited@.drop_last());
                        assert(texts(visited@) =~= before.push(call.command));
                        before.lemma_push_to_set_commute(call.command);
                        assert(visited@.drop_last() =~= old_visited);
                    }
                    assert(current@ =~= expand(shell@.aliases[call.command], call));
                    lemma_fewer_left(shell@.aliases.dom(), seen, call.command);
                }
            },
        }
    }
}

/// Evaluates a command invocation: the action that it asks for.
fn compute_command(call: &CommandExpr, shell: &Shell) -> (r: Result<Action, EvalError>)
    ensures
        match r {
            Ok(action) => command_action(shell@, call@) == Ok::<ActionView, EvalErrorView>(
                action@,
            ),
            Err(e) => command_action(shell@, call@) == Err::<ActionView, EvalErrorView>(e@),
        },
{
    if str_eq(atom_str(&call.command), "exit") {
        return Ok(Action::Exit);
    }
    match unwrap_alias(call, shell) {
        Err(e) => Err(e),
        Ok(command) => {
            if !command.canonical {
                Ok(Action::Spawn { path: command.command, args: command.args })
            } else {
                match shell.path_table.lookup(atom_str(&command.command)) {
                    Some(path) => Ok(Action::Spawn { path: atom_clone(path), args: command.args }),
                    None => Err(
                        EvalError::CommandNotFound(String::from_str(atom_str(&command.command))),
                    ),
                }
            }
        },
    }
}

/// Evaluates one statement: changes the session as the statement says and
/// returns the action that it asks for, if any.
pub fn compute_expr(ex: &Expr, shell: &mut Shell) -> (r: Result<Option<Action>, EvalError>)
    ensures
        final(shell)@ == step(old(shell)@, ex@).shell,
        match r {
            Ok(Some(action)) => step(old(shell)@, ex@).result == Ok::<
                Option<ActionView>,
                EvalErrorView,
            >(Some(action@)),
            Ok(None) => step(old(shell)@, ex@).result == Ok::<Option<ActionView>, EvalErrorView>(
                None,
            ),
            Err(e) => step(old(shell)@, ex@).result == Err::<Option<ActionView>, EvalErrorView>(
                e@,
            ),
        },
{
    match ex {
        Expr::Alias(expr) => {
            shell.aliases.insert(atom_str(&expr.alias), expr.command.clone());
            assert(shell@ =~= step(old(shell)@, ex@).shell);
            Ok(None)
        },
        Expr::Assign(expr) => match expr.modifier {
            Modifier::Let => {
                shell.variables.insert(
                    String::from_str(atom_str(&expr.lhs)),
                    atom_clone(&expr.rhs),
                );
                assert(shell@ =~= step(old(shell)@, ex@).shell);
                Ok(None)
            },
            Modifier::Export => Ok(
                Some(Action::Export { name: atom_clone(&expr.lhs), value: atom_clone(&expr.rhs) }),
            ),
            Modifier::Alias => Ok(None),
        },
        Expr::Command(expr) => match compute_command(expr, shell) {
            Ok(action) => Ok(Some(action)),
            Err(e) => Err(e),
        },
        Expr::Eof => Ok(None),
    }
}

/// What the evaluation of a line has come to.
#[derive(Debug, PartialEq, Eq)]
pub enum Progress {
    /// A statement asks for this action. It is to be done before the line
    /// goes on; if it cannot be done, the line is over.
    Action(Action),
    /// A statement has failed. The line is over.
    Failed(EvalError),
    /// No statement is left. The line is over.
    Done,
}

/// What the evaluation of a line has come to, as plain text.
#[verifier::ext_equal]
pub enum ProgressView {
    Action(ActionView),
    Failed(EvalErrorView),
    Done,
}

impl View for Progress {
    type V = ProgressView;

    open spec fn view(&self) -> ProgressView {
        match self {
            Progress::Action(action) => ProgressView::Action(action@),
            Progress::Failed(e) => ProgressView::Failed(e@),
            Progress::Done => ProgressView::Done,
        }
    }
}

/// How far the evaluation of a line gets in one go: the session then, the
/// position of the next statement to evaluate, and what it has come to.
pub struct Advance {
    pub shell: ShellView,
    pub next: int,
    pub progress: ProgressView,
}

/// How far the evaluation gets from statement `i` on. The statements are
/// taken one after the other up to the first that asks for an action or
/// fails. After an error, and after `Exit`, no statement is left.
pub open spec fn next_action(shell: ShellView, statements: Seq<ExprView>, i: int) -> Advance
    decreases statements.len() - i,
{
    if i < 0 || i >= statements.len() {
        Advance { shell, next: statements.len() as int, progress: ProgressView::Done }
    } else {
        let now = step(shell, statements[i]);
        match now.result {
            Err(e) => Advance {
                shell: now.shell,
                next: statements.len() as int,
                progress: ProgressView::Failed(e),
            },
            Ok(Some(ActionView::Exit)) => Advance {
                shell: now.shell,
                next: statements.len() as int,
                progress: ProgressView::Action(ActionView::Exit),
            },
            Ok(Some(action)) => Advance {
                shell: now.shell,
                next: i + 1,
                progress: ProgressView::Action(action),
            },
            Ok(None) => next_action(now.shell, statements, i + 1),
        }
    }
}

/// The statements of one line, and how many of them are evaluated.
pub struct Line {
    exprs: Vec<Expr>,
    next: usize,
}

impl Line {
    #[verifier::type_invariant]
    spec fn inv(self) -> bool {
        self.next <= self.exprs@.len()
    }

    /// The statements of the line.
    pub closed spec fn statements(&self) -> Seq<ExprView> {
        views(self.exprs@)
    }

    /// The position of the next statement to evaluate.
    pub closed spec fn position(&self) -> int {
        self.next as int
    }

    /// A line of which nothing is evaluated yet.
    pub fn new(exprs: Vec<Expr>) -> (line: Self)
        ensures
            line.statements() == views(exprs@),
            line.position() == 0,
    {
        Line { exprs, next: 0 }
    }

    /// How many statements are left to evaluate.
    pub fn remaining(&self) -> (left: usize)
        ensures
            left == self.statements().len() - self.position(),
            0 <= self.position() <= self.statements().len(),
    {
        proof {
            use_type_invariant(self);
        }
        self.exprs.len() - self.next
    }
}

/// Evaluates the statements of a line that are left, one after the other,
/// against the session, up to the first that asks for an action or fails.
/// The caller does what is asked for and calls again; so no statement is
/// evaluated before the action of the one before it is done. After an error,
/// and after `Exit`, no statement is left.
pub fn eval(line: &mut Line, shell: &mut Shell) -> (progress: Progress)
    ensures
        final(line).statements() == old(line).statements(),
        final(shell)@ == next_action(
            old(shell)@,
            old(line).statements(),
            old(line).position(),
        ).shell,
        final(line).position() == next_action(
            old(shell)@,
            old(line).statements(),
            old(line).position(),
        ).next,
        progress@ == next_action(
            old(shell)@,
            old(line).statements(),
            old(line).position(),
        ).progress,
        old(line).position() <= final(line).position() <= old(line).statements().len(),
{
    let ghost statements = line.statements();
    let ghost whole = next_action(shell@, statements, line.position());
    proof {
        use_type_invariant(&*line);
    }
    loop
        invariant
            line.statements() == statements,
            statements == old(line).statements(),
            old(line).position() <= line.position() <= statements.len(),
            whole == next_action(old(shell)@, statements, old(line).position()),
            whole == next_action(shell@, statements, line.position()),
        decreases statements.len() - line.position(),
    {
        proof {
            use_type_invariant(&*line);
        }
        if line.next >= line.exprs.len() {
            return Progress::Done;
        }
        assert(statements[line.position()] == line.exprs@[line.position()]@);
        let result = compute_expr(&line.exprs[line.next], shell);
        match result {
            Err(e) => {
                line.next = line.exprs.len();
                return Progress::Failed(e);
            },
            Ok(Some(action)) => {
                let exit = match action {
                    Action::Exit => true,
                    _ => false,
                };
                if exit {
                    line.next = line.exprs.len();
                } else {
                    line.next = line.next + 1;
                }
                return Progress::Action(action);
            },
            Ok(None) => {
                line.next = line.next + 1;
            },
        }
    }
}

/// A line is its actions in turn: what the statements from `i` on do if
/// every action is done is what they do up to the first action, and then
/// what the statements behind it do.
pub proof fn lemma_line_is_its_actions_in_turn(
    shell: ShellView,
    statements: Seq<ExprView>,
    i: int,
)
    requires
        0 <= i,
    ensures
        ({
            let first = next_action(shell, statements, i);
            let whole = eval_from(shell, statements, i);
            let rest = eval_from(first.shell, statements, first.next);
            match first.progress {
                ProgressView::Done => whole == (Outcome {
                    shell: first.shell,
                    actions: Seq::empty(),
                    error: None,
                }),
                ProgressView::Failed(e) => whole == (Outcome {
                    shell: first.shell,
                    actions: Seq::empty(),
                    error: Some(e),
                }),
                ProgressView::Action(action) => whole == (Outcome {
                    actions: seq![action] + rest.actions,
                    ..rest
                }),
            }
        }),
    decreases statements.len() - i,
{
    if i < statements.len() {
        let now = step(shell, statements[i]);
        match now.result {
            Ok(None) => {
                lemma_line_is_its_actions_in_turn(now.shell, statements, i + 1);
            },
            Ok(Some(ActionView::Exit)) => {
                let rest = eval_from(now.shell, statements, statements.len() as int);
                assert(seq![ActionView::Exit] + rest.actions =~= seq![ActionView::Exit]);
            },
            _ => {},
        }
    }
}

/// An alias that stands for a command of its own name is a cycle.
pub proof fn lemma_self_alias_is_cycle(aliases: Map<Seq<char>, CommandView>, call: CommandView)
    requires
        aliases.dom().finite(),
        aliases.contains_key(call.command),
        aliases[call.command].command == call.command,
    ensures
        resolve(aliases, call, Set::empty()) == Err::<CommandView, EvalErrorView>(
            EvalErrorView::AliasCycle,
        ),
{
    let next = expand(aliases[call.command], call);
    let visited = Set::<Seq<char>>::empty().insert(call.command);
    assert(resolve(aliases, call, Set::empty()) == resolve(aliases, next, visited));
    assert(visited.contains(next.command));
}

/// The name of a resolved command is no alias.
pub proof fn lemma_resolved_is_no_alias(
    aliases: Map<Seq<char>, CommandView>,
    call: CommandView,
    visited: Set<Seq<char>>,
)
    requires
        aliases.dom().finite(),
    ensures
        resolve(aliases, call, visited) matches Ok(command) ==> !aliases.contains_key(
            command.command,
        ),
    decreases aliases.dom().difference(visited).len(),
{
    if aliases.contains_key(call.command) && !visited.contains(call.command) {
        lemma_fewer_left(aliases.dom(), visited, call.command);
        lemma_resolved_is_no_alias(
            aliases,
            expand(aliases[call.command], call),
            visited.insert(call.command),
        );
    }
}

/// The name that stands `n` aliases behind `name`: each alias on the way
/// is replaced by the name of its command. A name that is no alias stays.
pub open spec fn name_after(aliases: Map<Seq<char>, CommandView>, name: Seq<char>, n: nat) -> Seq<
    char,
>
    decreases n,
{
    if n == 0 {
        name
    } else if aliases.contains_key(name) {
        name_after(aliases, aliases[name].command, (n - 1) as nat)
    } else {
        name
    }
}

/// Whether the aliases behind `name` come to an end: some name behind it is
/// no alias.
pub open spec fn chain_ends(aliases: Map<Seq<char>, CommandView>, name: Seq<char>) -> bool {
    exists|n: nat| !aliases.contains_key(#[trigger] name_after(aliases, name, n))
}

/// To go `a` aliases on and then `b` is to go `a + b` on.
proof fn lemma_name_after_add(
    aliases: Map<Seq<char>, CommandView>,
    name: Seq<char>,
    a: nat,
    b: nat,
)
    ensures
        name_after(aliases, name_after(aliases, name, a), b) == name_after(aliases, name, a + b),
    decreases a,
{
    if a > 0 {
        if aliases.contains_key(name) {
            lemma_name_after_add(aliases, aliases[name].command, (a - 1) as nat, b);
        } else {
            lemma_stays(aliases, name, b);
            lemma_stays(aliases, name, a + b);
        }
    }
}

/// A name that is no alias stays what it is.
proof fn lemma_stays(aliases: Map<Seq<char>, CommandView>, name: Seq<char>, n: nat)
    requires
        !aliases.contains_key(name),
    ensures
        name_after(aliases, name, n) == name,
{
}

/// Where the aliases behind `call` end after `n` and not before, and none
/// of them has been visited, `call` is resolved.
proof fn lemma_ending_chain_is_resolved(
    aliases: Map<Seq<char>, CommandView>,
    call: CommandView,
    visited: Set<Seq<char>>,
    n: nat,
)
    requires
        aliases.dom().finite(),
        !aliases.contains_key(name_after(aliases, call.command, n)),
        forall|k: nat| k < n ==> aliases.contains_key(#[trigger] name_after(aliases, call.command, k)),
        forall|k: nat| k < n ==> !visited.contains(#[trigger] name_after(aliases, call.command, k)),
    ensures
        resolve(aliases, call, visited) is Ok,
    decreases n,
{
    let name = call.command;
    if n == 0 {
        assert(name_after(aliases, name, 0) == name);
    } else {
        assert(name_after(aliases, name, 0) == name);
        let next = expand(aliases[name], call);
        let seen = visited.insert(name);
        assert forall|k: nat| k < n - 1 implies aliases.contains_key(
            #[trigger] name_after(aliases, next.command, k),
        ) && !seen.contains(name_after(aliases, next.command, k)) by {
            assert(name_after(aliases, next.command, k) == name_after(aliases, name, k + 1));
            if name_after(aliases, name, k + 1) == name {
                // The chain would come back to `name` and go round for ever.
                lemma_name_after_add(aliases, name, k + 1, (n - 1 - k) as nat);
                assert(name_after(aliases, name, (n - 1 - k) as nat) == name_after(
                    aliases,
                    name,
                    n,
                ));
            }
        }
        assert(name_after(aliases, next.command, (n - 1) as nat) == name_after(aliases, name, n));
        lemma_fewer_left(aliases.dom(), visited, name);
        lemma_ending_chain_is_resolved(aliases, next, seen, (n - 1) as nat);
    }
}

/// Of the positions at which the aliases behind `name` have ended, the
/// first.
proof fn lemma_first_end(aliases: Map<Seq<char>, CommandView>, name: Seq<char>, n: nat) -> (first:
    nat)
    requires
        !aliases.contains_key(name_after(aliases, name, n)),
    ensures
        first <= n,
        !aliases.contains_key(name_after(aliases, name, first)),
        forall|k: nat| k < first ==> aliases.contains_key(#[trigger] name_after(aliases, name, k)),
    decreases n,
{
    if n == 0 {
        0
    } else if !aliases.contains_key(name_after(aliases, name, (n - 1) as nat)) {
        lemma_first_end(aliases, name, (n - 1) as nat)
    } else {
        let before = (n - 1) as nat;
        assert forall|k: nat| k < n implies aliases.contains_key(
            #[trigger] name_after(aliases, name, k),
        ) by {
            if !aliases.contains_key(name_after(aliases, name, k)) {
                // Behind a name that is no alias nothing changes any more.
                lemma_name_after_add(aliases, name, k, (before - k) as nat);
                lemma_stays(aliases, name_after(aliases, name, k), (before - k) as nat);
            }
        }
        n
    }
}

/// A resolved command's name stands some aliases behind the invocation's
/// name.
proof fn lemma_resolved_is_on_the_chain(
    aliases: Map<Seq<char>, CommandView>,
    call: CommandView,
    visited: Set<Seq<char>>,
) -> (n: nat)
    requires
        aliases.dom().finite(),
        resolve(aliases, call, visited) is Ok,
    ensures
        name_after(aliases, call.command, n) == resolve(aliases, call, visited)->Ok_0.command,
        !aliases.contains_key(name_after(aliases, call.command, n)),
    decreases aliases.dom().difference(visited).len(),
{
    if !aliases.contains_key(call.command) {
        0
    } else {
        lemma_fewer_left(aliases.dom(), visited, call.command);
        let next = expand(aliases[call.command], call);
        let n = lemma_resolved_is_on_the_chain(aliases, next, visited.insert(call.command));
        (n + 1) as nat
    }
}

/// A command is resolved exactly when the aliases behind its name come to
/// an end. So `AliasCycle`, the one error of the resolution, is raised for
/// the invocations whose aliases go round in a circle, and for no other.
pub proof fn lemma_cycle_exactly_when_chain_never_ends(
    aliases: Map<Seq<char>, CommandView>,
    call: CommandView,
)
    requires
        aliases.dom().finite(),
    ensures
        resolve(aliases, call, Set::empty()) is Ok <==> chain_ends(aliases, call.command),
        resolve(aliases, call, Set::empty()) is Err ==> resolve(
            aliases,
            call,
            Set::empty(),
        )->Err_0 == EvalErrorView::AliasCycle,
{
    if chain_ends(aliases, call.command) {
        let n = choose|n: nat| !aliases.contains_key(#[trigger] name_after(aliases, call.command, n));
        let first = lemma_first_end(aliases, call.command, n);
        lemma_ending_chain_is_resolved(aliases, call, Set::empty(), first);
    }
    if resolve(aliases, call, Set::empty()) is Ok {
        let n = lemma_resolved_is_on_the_chain(aliases, call, Set::empty());
    }
    lemma_only_error_is_cycle(aliases, call, Set::empty());
}

/// The resolution knows one error only.
proof fn lemma_only_error_is_cycle(
    aliases: Map<Seq<char>, CommandView>,
    call: CommandView,
    visited: Set<Seq<char>>,
)
    requires
        aliases.dom().finite(),
    ensures
        resolve(aliases, call, visited) is Err ==> resolve(aliases, call, visited)->Err_0
            == EvalErrorView::AliasCycle,
    decreases aliases.dom().difference(visited).len(),
{
    if aliases.contains_key(call.command) && !visited.contains(call.command) {
        lemma_fewer_left(aliases.dom(), visited, call.command);
        lemma_only_error_is_cycle(
            aliases,
            expand(aliases[call.command], call),
            visited.insert(call.command),
        );
    }
}

/// An alias whose command is no alias itself is taken once: the command
/// that is run is the alias's command, with the alias's arguments before
/// those of the invocation.
pub proof fn lemma_alias_arguments_come_first(
    aliases: Map<Seq<char>, CommandView>,
    call: CommandView,
)
    requires
        aliases.dom().finite(),
        aliases.contains_key(call.command),
        !aliases.contains_key(aliases[call.command].command),
    ensures
        resolve(aliases, call, Set::empty()) == Ok::<CommandView, EvalErrorView>(
            CommandView {
                command: aliases[call.command].command,
                args: aliases[call.command].args + call.args,
                canonical: aliases[call.command].canonical,
            },
        ),
{
    let next = expand(aliases[call.command], call);
    let visited = Set::<Seq<char>>::empty().insert(call.command);
    assert(resolve(aliases, call, Set::empty()) == resolve(aliases, next, visited));
}

/// A bare command that is no alias and that the path table knows is run
/// under the path that the table holds, with its own arguments.
pub proof fn lemma_known_command_is_run(shell: ShellView, call: CommandView)
    requires
        shell.aliases.dom().finite(),
        call.command != "exit"@,
        call.canonical,
        !shell.aliases.contains_key(call.command),
        shell.paths.contains_key(call.command),
    ensures
        command_action(shell, call) == Ok::<ActionView, EvalErrorView>(
            ActionView::Spawn { path: shell.paths[call.command], args: call.args },
        ),
{
}

/// A bare command that is no alias and that the path table does not know
/// is not found, under its own name, and leaves the session as it was.
pub proof fn lemma_unknown_command_is_not_found(shell: ShellView, call: CommandView)
    requires
        shell.aliases.dom().finite(),
        call.command != "exit"@,
        call.canonical,
        !shell.aliases.contains_key(call.command),
        !shell.paths.contains_key(call.command),
    ensures
        step(shell, ExprView::Command(call)) == (Step {
            shell,
            result: Err(EvalErrorView::CommandNotFound(call.command)),
        }),
{
}

/// `exit` ends the line: whatever follows it, nothing more is done and no
/// error is raised.
pub proof fn lemma_exit_ends_the_line(shell: ShellView, statements: Seq<ExprView>, i: int)
    requires
        0 <= i < statements.len(),
        statements[i] matches ExprView::Command(call) && call.command == "exit"@,
    ensures
        eval_from(shell, statements, i) == (Outcome {
            shell,
            actions: seq![ActionView::Exit],
            error: None,
        }),
{
}

/// An exported variable is handed out to be set, and the session stays as
/// it was.
pub proof fn lemma_export_asks_for_the_variable(shell: ShellView, name: Seq<char>, value: Seq<char>)
    ensures
        step(
            shell,
            ExprView::Assign(AssignView { modifier: Modifier::Export, lhs: name, rhs: value }),
        ) == (Step {
            shell,
            result: Ok(Some(ActionView::Export { name, value })),
        }),
{
}

/// Variables are never put into a command: what a command invocation asks
/// for is the same whatever the variables hold.
pub proof fn lemma_variables_are_inert(
    shell: ShellView,
    variables: Map<Seq<char>, Seq<char>>,
    call: CommandView,
)
    ensures
        command_action(ShellView { variables, ..shell }, call) == command_action(shell, call),
{
}

} // verus!
