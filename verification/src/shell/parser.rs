//! The parser: tokens to statements.

use super::token::{all_within, Kind, Token};
use crate::atom::{atom_text, intern};
use crate::text::{slice, str_eq};
use string_cache::DefaultAtom as Atom;
use vstd::prelude::*;
use vstd::string::{StringExecFns, StringSliceAdditionalSpecFns, StrSliceExecFns};

verus! {

/// The reserved word that opens an assignment or an alias definition.
#[derive(Clone, Copy, Debug, PartialEq, Eq, Structural)]
pub enum Modifier {
    Let,
    Export,
    Alias,
}

/// A command invocation: the command's name, its arguments in order, and
/// whether the name has to be looked up in the path table.
#[derive(Debug, PartialEq, Eq)]
pub struct CommandExpr {
    pub command: Atom,
    pub args: Vec<Atom>,
    pub canonical: bool,
}

/// An assignment `modifier lhs=rhs`.
#[derive(Debug, PartialEq, Eq)]
pub struct AssignExpr {
    pub modifier: Modifier,
    pub lhs: Atom,
    pub rhs: Atom,
}

/// An alias definition: a name bound to a command with its arguments.
#[derive(Debug, PartialEq, Eq)]
pub struct AliasExpr {
    pub alias: Atom,
    pub command: CommandExpr,
}

/// One statement of a line.
#[derive(Debug, PartialEq, Eq)]
pub enum Expr {
    Assign(Box<AssignExpr>),
    Alias(Box<AliasExpr>),
    Command(Box<CommandExpr>),
    /// No statement: the tokens are used up.
    Eof,
}

/// Why a line of tokens is no sequence of statements.
#[derive(Clone, Debug, PartialEq, Eq)]
pub enum ParseError {
    /// No name follows the reserved word.
    ExpectedIdentifier(Modifier),
    /// No `=` follows the name, which the error holds.
    ExpectedEq(String),
    /// No value follows the `=`.
    ExpectedValue,
}

/// A command invocation as plain text.
#[verifier::ext_equal]
pub struct CommandView {
    pub command: Seq<char>,
    pub args: Seq<Seq<char>>,
    pub canonical: bool,
}

/// An assignment as plain text.
#[verifier::ext_equal]
pub struct AssignView {
    pub modifier: Modifier,
    pub lhs: Seq<char>,
    pub rhs: Seq<char>,
}

/// An alias definition as plain text.
#[verifier::ext_equal]
pub struct AliasView {
    pub alias: Seq<char>,
    pub command: CommandView,
}

/// A statement as plain text.
#[verifier::ext_equal]
pub enum ExprView {
    Assign(AssignView),
    Alias(AliasView),
    Command(CommandView),
    Eof,
}

/// A parse error as plain text.
#[verifier::ext_equal]
pub enum ParseErrorView {
    ExpectedIdentifier(Modifier),
    ExpectedEq(Seq<char>),
    ExpectedValue,
}

/// The texts that a sequence of atoms stands for.
pub open spec fn texts(atoms: Seq<Atom>) -> Seq<Seq<char>> {
    atoms.map_values(|a: Atom| atom_text(a))
}

impl View for CommandExpr {
    type V = CommandView;

    open spec fn view(&self) -> CommandView {
        CommandView {
            command: atom_text(self.command),
            args: texts(self.args@),
            canonical: self.canonical,
        }
    }
}

impl View for AssignExpr {
    type V = AssignView;

    open spec fn view(&self) -> AssignView {
        AssignView {
            modifier: self.modifier,
            lhs: atom_text(self.lhs),
            rhs: atom_text(self.rhs),
        }
    }
}

impl View for AliasExpr {
    type V = AliasView;

    open spec fn view(&self) -> AliasView {
        AliasView { alias: atom_text(self.alias), command: self.command@ }
    }
}

impl View for Expr {
    type V = ExprView;

    open spec fn view(&self) -> ExprView {
        match self {
            Expr::Assign(assign) => ExprView::Assign(assign@),
            Expr::Alias(alias) => ExprView::Alias(alias@),
            Expr::Command(command) => ExprView::Command(command@),
            Expr::Eof => ExprView::Eof,
        }
    }
}

impl View for ParseError {
    type V = ParseErrorView;

    open spec fn view(&self) -> ParseErrorView {
        match self {
            ParseError::ExpectedIdentifier(modifier) => ParseErrorView::ExpectedIdentifier(
                *modifier,
            ),
            ParseError::ExpectedEq(name) => ParseErrorView::ExpectedEq(name@),
            ParseError::ExpectedValue => ParseErrorView::ExpectedValue,
        }
    }
}

/// The statements that a sequence of parsed statements stands for.
pub open spec fn views(exprs: Seq<Expr>) -> Seq<ExprView> {
    exprs.map_values(|e: Expr| e@)
}

impl Modifier {
    /// The reserved word as it is written.
    pub open spec fn word(self) -> Seq<char> {
        match self {
            Modifier::Let => "let"@,
            Modifier::Export => "export"@,
            Modifier::Alias => "alias"@,
        }
    }

    /// The reserved word as it is written.
    pub fn keyword(&self) -> (word: &'static str)
        ensures
            word@ == self.word(),
    {
        match self {
            Modifier::Let => "let",
            Modifier::Export => "export",
            Modifier::Alias => "alias",
        }
    }
}

impl ParseErrorView {
    /// The text that tells a user of the error.
    pub open spec fn message(self) -> Seq<char> {
        match self {
            ParseErrorView::ExpectedIdentifier(modifier) => "expected identifier after `"@
                + modifier.word() + "`"@,
            ParseErrorView::ExpectedEq(name) => "expected `=` after `"@ + name + "`"@,
            ParseErrorView::ExpectedValue => "expected string literal"@,
        }
    }
}

impl ParseError {
    /// The text that tells a user of the error.
    pub fn message(&self) -> (text: String)
        ensures
            text@ == self@.message(),
    {
        match self {
            ParseError::ExpectedIdentifier(modifier) => {
                let mut text = String::from_str("expected identifier after `");
                text.append(modifier.keyword());
                text.append("`");
                text
            },
            ParseError::ExpectedEq(name) => {
                let mut text = String::from_str("expected `=` after `");
                text.append(name.as_str());
                text.append("`");
                text
            },
            ParseError::ExpectedValue => String::from_str("expected string literal"),
        }
    }
}

/// Which reserved word, if any, `word` is.
pub open spec fn modifier_of(word: Seq<char>) -> Option<Modifier> {
    if word == "let"@ {
        Some(Modifier::Let)
    } else if word == "export"@ {
        Some(Modifier::Export)
    } else if word == "alias"@ {
        Some(Modifier::Alias)
    } else {
        None
    }
}

/// Whether a command of this name is looked up in the path table: it is,
/// unless the name starts with `/` or `.`.
pub open spec fn canonical(name: Seq<char>) -> bool {
    name.len() == 0 || (name[0] != '/' && name[0] != '.')
}

/// Whether a command of this name is looked up in the path table: it is,
/// unless the name starts with `/` or `.`.
pub fn is_canonical(path: &str) -> (bare: bool)
    ensures
        bare == canonical(path@),
{
    if path.is_empty() {
        true
    } else {
        let first = path.get_char(0);
        first != '/' && first != '.'
    }
}

/// The first position at or after `i` that holds no string literal.
pub open spec fn literal_run_end(tokens: Seq<Token>, i: int) -> int
    decreases tokens.len() - i,
{
    if 0 <= i < tokens.len() && tokens[i].kind == Kind::StringLiteral {
        literal_run_end(tokens, i + 1)
    } else {
        i
    }
}

/// Whether a token of this kind ends a statement.
pub open spec fn ends_statement(kind: Kind) -> bool {
    kind == Kind::EndStmt || kind == Kind::Eof
}

/// The first position at or after `i` that holds a token which ends a
/// statement, or the number of tokens where none does.
pub open spec fn statement_end(tokens: Seq<Token>, i: int) -> int
    decreases tokens.len() - i,
{
    if 0 <= i < tokens.len() && !ends_statement(tokens[i].kind) {
        statement_end(tokens, i + 1)
    } else {
        i
    }
}

/// The texts of the tokens from `from` up to `to`, one by one.
pub open spec fn texts_of(s: Seq<u8>, tokens: Seq<Token>, from: int, to: int) -> Seq<Seq<char>> {
    Seq::new((to - from) as nat, |k: int| tokens[from + k].text(s))
}

/// The texts of the tokens from `from` up to `to`, one after the other
/// with nothing between them.
pub open spec fn joined(s: Seq<u8>, tokens: Seq<Token>, from: int, to: int) -> Seq<char>
    decreases to - from,
{
    if to <= from {
        Seq::empty()
    } else {
        joined(s, tokens, from, to - 1) + tokens[to - 1].text(s)
    }
}

/// The command whose name is the token at `i` and whose arguments are the
/// tokens behind it up to `end`.
pub open spec fn command_of(s: Seq<u8>, tokens: Seq<Token>, i: int, end: int) -> CommandView {
    CommandView {
        command: tokens[i].text(s),
        args: texts_of(s, tokens, i + 1, end),
        canonical: canonical(tokens[i].text(s)),
    }
}

/// The assignment or alias definition whose reserved word, `modifier`, is
/// the token at `i`, and the position behind it: the name, `=`, and as value all
/// the tokens up to the one that ends the statement. The value starts with a
/// string literal. An assignment takes the texts of the value's tokens
/// together as its right-hand side; an alias definition takes the first as
/// the command and the others as its arguments.
pub open spec fn assignment_at(s: Seq<u8>, tokens: Seq<Token>, i: int, modifier: Modifier) -> Result<
    (ExprView, int),
    ParseErrorView,
> {
    if !(i + 1 < tokens.len() && tokens[i + 1].kind == Kind::StringLiteral) {
        Err(ParseErrorView::ExpectedIdentifier(modifier))
    } else if !(i + 2 < tokens.len() && tokens[i + 2].kind == Kind::Eq) {
        Err(ParseErrorView::ExpectedEq(tokens[i + 1].text(s)))
    } else if !(i + 3 < tokens.len() && tokens[i + 3].kind == Kind::StringLiteral) {
        Err(ParseErrorView::ExpectedValue)
    } else {
        let end = statement_end(tokens, i + 4);
        let lhs = tokens[i + 1].text(s);
        if modifier == Modifier::Alias {
            Ok(
                (
                    ExprView::Alias(
                        AliasView { alias: lhs, command: command_of(s, tokens, i + 3, end) },
                    ),
                    end,
                ),
            )
        } else {
            Ok(
                (
                    ExprView::Assign(
                        AssignView { modifier, lhs, rhs: joined(s, tokens, i + 3, end) },
                    ),
                    end,
                ),
            )
        }
    }
}

/// The statement that starts with the string literal at `i`, and the
/// position behind it.
pub open spec fn statement_at(s: Seq<u8>, tokens: Seq<Token>, i: int) -> Result<
    (ExprView, int),
    ParseErrorView,
> {
    match modifier_of(tokens[i].text(s)) {
        Some(modifier) => assignment_at(s, tokens, i, modifier),
        None => {
            let end = literal_run_end(tokens, i + 1);
            Ok((ExprView::Command(command_of(s, tokens, i, end)), end))
        },
    }
}

/// The first statement at or after `i`, and the position behind it. Tokens
/// that are no string literal are passed over; where no string literal is
/// left, the statement is `Eof`.
pub open spec fn next_statement(s: Seq<u8>, tokens: Seq<Token>, i: int) -> Result<
    (ExprView, int),
    ParseErrorView,
>
    decreases tokens.len() - i,
{
    if i < 0 || i >= tokens.len() {
        Ok((ExprView::Eof, tokens.len() as int))
    } else if tokens[i].kind != Kind::StringLiteral {
        next_statement(s, tokens, i + 1)
    } else {
        statement_at(s, tokens, i)
    }
}

/// The position behind the token at `i`, or behind the last token where
/// there is none at `i`.
pub open spec fn behind(tokens: Seq<Token>, i: int) -> int {
    if i < tokens.len() {
        i + 1
    } else {
        tokens.len() as int
    }
}

/// The position up to which the parser has read when it has taken the
/// assignment or alias definition whose reserved word is the token at `i`:
/// behind the statement, or, where the statement fails, behind the token
/// that is not what was due, if there is one.
pub open spec fn assignment_end(s: Seq<u8>, tokens: Seq<Token>, i: int, modifier: Modifier) -> int {
    match assignment_at(s, tokens, i, modifier) {
        Ok((_, next)) => next,
        Err(_) => if !(i + 1 < tokens.len() && tokens[i + 1].kind == Kind::StringLiteral) {
            behind(tokens, i + 1)
        } else if !(i + 2 < tokens.len() && tokens[i + 2].kind == Kind::Eq) {
            behind(tokens, i + 2)
        } else {
            behind(tokens, i + 3)
        },
    }
}

/// The position up to which the parser has read when it has looked for the
/// first statement at or after `i`, whether it has found one or failed.
pub open spec fn next_statement_end(s: Seq<u8>, tokens: Seq<Token>, i: int) -> int
    decreases tokens.len() - i,
{
    if i < 0 || i >= tokens.len() {
        tokens.len() as int
    } else if tokens[i].kind != Kind::StringLiteral {
        next_statement_end(s, tokens, i + 1)
    } else {
        match modifier_of(tokens[i].text(s)) {
            Some(modifier) => assignment_end(s, tokens, i, modifier),
            None => literal_run_end(tokens, i + 1),
        }
    }
}

/// `first` put in front of the statements of `rest`, where there are any.
pub open spec fn prepend(first: Seq<ExprView>, rest: Result<Seq<ExprView>, ParseErrorView>) -> Result<
    Seq<ExprView>,
    ParseErrorView,
> {
    match rest {
        Ok(statements) => Ok(first + statements),
        Err(e) => Err(e),
    }
}

/// The statements of the tokens from `i` on: all of them, or the first
/// error.
pub open spec fn statements_from(s: Seq<u8>, tokens: Seq<Token>, i: int) -> Result<
    Seq<ExprView>,
    ParseErrorView,
>
    decreases tokens.len() - i,
    via statements_from_terminates
{
    match next_statement(s, tokens, i) {
        Err(e) => Err(e),
        Ok((statement, next)) => if statement is Eof {
            Ok(Seq::empty())
        } else {
            prepend(seq![statement], statements_from(s, tokens, next))
        },
    }
}

#[via_fn]
proof fn statements_from_terminates(s: Seq<u8>, tokens: Seq<Token>, i: int) {
    lemma_next_statement_advances(s, tokens, i);
}

/// The statements of a whole line of tokens.
pub open spec fn statements_of(s: Seq<u8>, tokens: Seq<Token>) -> Result<
    Seq<ExprView>,
    ParseErrorView,
> {
    statements_from(s, tokens, 0)
}

/// The position up to which the parser has read when it has parsed the
/// tokens from `i` on: behind the last token, or, where a statement fails,
/// where that statement has stopped.
pub open spec fn statements_end(s: Seq<u8>, tokens: Seq<Token>, i: int) -> int
    decreases tokens.len() - i,
    via statements_end_terminates
{
    match next_statement(s, tokens, i) {
        Err(_) => next_statement_end(s, tokens, i),
        Ok((statement, next)) => if statement is Eof {
            next
        } else {
            statements_end(s, tokens, next)
        },
    }
}

#[via_fn]
proof fn statements_end_terminates(s: Seq<u8>, tokens: Seq<Token>, i: int) {
    lemma_next_statement_advances(s, tokens, i);
}

/// A run of string literals ends at or behind its start, inside the tokens.
pub proof fn lemma_literal_run_end(tokens: Seq<Token>, i: int)
    ensures
        i <= literal_run_end(tokens, i),
        i <= tokens.len() ==> literal_run_end(tokens, i) <= tokens.len(),
    decreases tokens.len() - i,
{
    if 0 <= i < tokens.len() && tokens[i].kind == Kind::StringLiteral {
        lemma_literal_run_end(tokens, i + 1);
    }
}

/// A statement ends at or behind its start, inside the tokens.
pub proof fn lemma_statement_end(tokens: Seq<Token>, i: int)
    ensures
        i <= statement_end(tokens, i),
        i <= tokens.len() ==> statement_end(tokens, i) <= tokens.len(),
    decreases tokens.len() - i,
{
    if 0 <= i < tokens.len() && !ends_statement(tokens[i].kind) {
        lemma_statement_end(tokens, i + 1);
    }
}

/// A statement that is not `Eof` ends behind the position from which it was
/// looked for, and inside the tokens.
pub proof fn lemma_next_statement_advances(s: Seq<u8>, tokens: Seq<Token>, i: int)
    ensures
        next_statement(s, tokens, i) matches Ok((statement, next)) ==> {
            &&& !(statement is Eof) ==> i < next <= tokens.len()
            &&& statement is Eof ==> next == tokens.len()
        },
    decreases tokens.len() - i,
{
    if 0 <= i < tokens.len() {
        if tokens[i].kind != Kind::StringLiteral {
            lemma_next_statement_advances(s, tokens, i + 1);
        } else {
            lemma_literal_run_end(tokens, i + 1);
            lemma_statement_end(tokens, i + 4);
        }
    }
}

/// To look for a statement is to read on: where a token is left, the
/// parser stands behind at least one more token afterwards, whether it has
/// found a statement or failed, and never behind more tokens than there
/// are. Where it has found a statement, it stands behind it.
pub proof fn lemma_next_statement_reads_on(s: Seq<u8>, tokens: Seq<Token>, i: int)
    requires
        0 <= i,
    ensures
        i < tokens.len() ==> i < next_statement_end(s, tokens, i),
        i <= tokens.len() ==> i <= next_statement_end(s, tokens, i) <= tokens.len(),
        next_statement(s, tokens, i) matches Ok((_, next)) ==> next_statement_end(s, tokens, i)
            == next,
    decreases tokens.len() - i,
{
    if i < tokens.len() {
        if tokens[i].kind != Kind::StringLiteral {
            lemma_next_statement_reads_on(s, tokens, i + 1);
        } else {
            lemma_literal_run_end(tokens, i + 1);
            lemma_statement_end(tokens, i + 4);
        }
    }
}

/// To parse is to read on: the parser never goes back, and after a parse
/// without error it stands behind the last token.
pub proof fn lemma_statements_read_on(s: Seq<u8>, tokens: Seq<Token>, i: int)
    requires
        0 <= i <= tokens.len(),
    ensures
        i <= statements_end(s, tokens, i) <= tokens.len(),
        i < tokens.len() ==> i < statements_end(s, tokens, i),
        statements_from(s, tokens, i) is Ok ==> statements_end(s, tokens, i) == tokens.len(),
    decreases tokens.len() - i,
{
    lemma_next_statement_reads_on(s, tokens, i);
    lemma_next_statement_advances(s, tokens, i);
    match next_statement(s, tokens, i) {
        Ok((statement, next)) => {
            if !(statement is Eof) {
                lemma_statements_read_on(s, tokens, next);
            }
        },
        Err(_) => {},
    }
}

/// What holds of every statement that the parser makes: a command is
/// looked up in the path table exactly when its name is no path; an
/// assignment is made with `let` or `export`; and `Eof` is no statement.
pub open spec fn is_statement(statement: ExprView) -> bool {
    match statement {
        ExprView::Command(command) => command.canonical == canonical(command.command),
        ExprView::Alias(alias) => alias.command.canonical == canonical(alias.command.command),
        ExprView::Assign(assign) => assign.modifier != Modifier::Alias,
        ExprView::Eof => false,
    }
}

/// What the parser reads as one statement is a statement or `Eof`.
pub proof fn lemma_next_statement_is_statement(s: Seq<u8>, tokens: Seq<Token>, i: int)
    ensures
        next_statement(s, tokens, i) matches Ok((statement, _)) ==> statement is Eof
            || is_statement(statement),
    decreases tokens.len() - i,
{
    if 0 <= i < tokens.len() && tokens[i].kind != Kind::StringLiteral {
        lemma_next_statement_is_statement(s, tokens, i + 1);
    }
}

/// Every statement of a line is a statement.
pub proof fn lemma_statements_are_statements(s: Seq<u8>, tokens: Seq<Token>, i: int)
    ensures
        statements_from(s, tokens, i) matches Ok(statements) ==> forall|k: int|
            0 <= k < statements.len() ==> is_statement(#[trigger] statements[k]),
    decreases tokens.len() - i,
{
    lemma_next_statement_is_statement(s, tokens, i);
    lemma_next_statement_advances(s, tokens, i);
    match next_statement(s, tokens, i) {
        Ok((statement, next)) => {
            if !(statement is Eof) {
                lemma_statements_are_statements(s, tokens, next);
                match statements_from(s, tokens, next) {
                    Ok(rest) => {
                        let statements = seq![statement] + rest;
                        assert forall|k: int| 0 <= k < statements.len() implies is_statement(
                            #[trigger] statements[k],
                        ) by {
                            if k > 0 {
                                assert(statements[k] == rest[k - 1]);
                            }
                        }
                    },
                    Err(_) => {},
                }
            }
        },
        Err(_) => {},
    }
}

/// A parser over one source text and its tokens.
pub struct Parser<'a> {
    source: &'a str,
    tokens: Vec<Token>,
    pos: usize,
}

impl<'a> Parser<'a> {
    #[verifier::type_invariant]
    spec fn inv(self) -> bool {
        self.pos <= self.tokens@.len() && all_within(self.source.spec_bytes(), self.tokens@)
    }

    /// The bytes of the source text.
    pub closed spec fn source(&self) -> Seq<u8> {
        self.source.spec_bytes()
    }

    /// The tokens that are parsed.
    pub closed spec fn tokens(&self) -> Seq<Token> {
        self.tokens@
    }

    /// The position of the next token to read.
    pub closed spec fn position(&self) -> int {
        self.pos as int
    }

    /// A parser at the first of `tokens`, which are spans of `source`.
    pub fn new(source: &'a str, tokens: Vec<Token>) -> (parser: Self)
        requires
            all_within(source.spec_bytes(), tokens@),
        ensures
            parser.source() == source.spec_bytes(),
            parser.tokens() == tokens@,
            parser.position() == 0,
    {
        Parser { source, tokens, pos: 0 }
    }

    /// Reads the next token.
    fn next_token(&mut self) -> (next: Option<Token>)
        ensures
            final(self).source() == old(self).source(),
            final(self).tokens() == old(self).tokens(),
            next == if old(self).position() < old(self).tokens().len() {
                Some(old(self).tokens()[old(self).position()])
            } else {
                None
            },
            final(self).position() == if next is Some {
                old(self).position() + 1
            } else {
                old(self).position()
            },
            next matches Some(token) ==> token.within(old(self).source()),
            final(self).position() <= old(self).tokens().len(),
    {
        proof {
            use_type_invariant(&*self);
        }
        if self.pos < self.tokens.len() {
            let token = self.tokens[self.pos];
            self.pos = self.pos + 1;
            Some(token)
        } else {
            None
        }
    }

    /// The next token, which stays unread.
    fn peek(&self) -> (next: Option<Token>)
        ensures
            next == if self.position() < self.tokens().len() {
                Some(self.tokens()[self.position()])
            } else {
                None
            },
            next matches Some(token) ==> token.within(self.source()),
            self.position() <= self.tokens().len(),
    {
        proof {
            use_type_invariant(self);
        }
        if self.pos < self.tokens.len() {
            Some(self.tokens[self.pos])
        } else {
            None
        }
    }

    /// The text that a token covers.
    fn token_value(&self, token: &Token) -> (text: &'a str)
        requires
            token.within(self.source()),
        ensures
            text@ == token.text(self.source()),
    {
        slice(self.source, token.start, token.end)
    }

    /// Which reserved word, if any, a token is.
    fn modifier(&self, token: &Token) -> (found: Option<Modifier>)
        requires
            token.within(self.source()),
        ensures
            found == modifier_of(token.text(self.source())),
    {
        let word = self.token_value(token);
        if str_eq(word, "let") {
            Some(Modifier::Let)
        } else if str_eq(word, "export") {
            Some(Modifier::Export)
        } else if str_eq(word, "alias") {
            Some(Modifier::Alias)
        } else {
            None
        }
    }

    /// Reads the string literals that follow as atoms.
    fn literals(&mut self) -> (args: Vec<Atom>)
        ensures
            final(self).source() == old(self).source(),
            final(self).tokens() == old(self).tokens(),
            final(self).position() == literal_run_end(old(self).tokens(), old(self).position()),
            texts(args@) == texts_of(
                old(self).source(),
                old(self).tokens(),
                old(self).position(),
                final(self).position(),
            ),
    {
        let ghost s = self.source();
        let ghost t = self.tokens();
        let ghost from = self.position();
        let mut args: Vec<Atom> = Vec::new();
        assert(texts(args@) =~= texts_of(s, t, from, from));
        loop
            invariant
                self.source() == s,
                self.tokens() == t,
                from <= self.position(),
                literal_run_end(t, from) == literal_run_end(t, self.position()),
                texts(args@) == texts_of(s, t, from, self.position()),
            ensures
                self.source() == s,
                self.tokens() == t,
                self.position() == literal_run_end(t, from),
                texts(args@) == texts_of(s, t, from, self.position()),
            decreases t.len() - self.position(),
        {
            match self.peek() {
                Some(token) => {
                    if token.kind == Kind::StringLiteral {
                        let ghost at = self.position();
                        let ghost before = args@;
                        let arg = intern(self.token_value(&token));
                        self.next_token();
                        args.push(arg);
                        proof {
                            lemma_texts_push(s, t, from, at, before, arg);
                        }
                    } else {
                        break ;
                    }
                },
                None => {
                    break ;
                },
            }
        }
        args
    }

    /// Reads the tokens up to the one that ends the statement as atoms.
    fn values(&mut self) -> (args: Vec<Atom>)
        ensures
            final(self).source() == old(self).source(),
            final(self).tokens() == old(self).tokens(),
            final(self).position() == statement_end(old(self).tokens(), old(self).position()),
            texts(args@) == texts_of(
                old(self).source(),
                old(self).tokens(),
                old(self).position(),
                final(self).position(),
            ),
    {
        let ghost s = self.source();
        let ghost t = self.tokens();
        let ghost from = self.position();
        let mut args: Vec<Atom> = Vec::new();
        assert(texts(args@) =~= texts_of(s, t, from, from));
        loop
            invariant
                self.source() == s,
                self.tokens() == t,
                from <= self.position(),
                statement_end(t, from) == statement_end(t, self.position()),
                texts(args@) == texts_of(s, t, from, self.position()),
            ensures
                self.source() == s,
                self.tokens() == t,
                self.position() == statement_end(t, from),
                texts(args@) == texts_of(s, t, from, self.position()),
            decreases t.len() - self.position(),
        {
            match self.peek() {
                Some(token) => {
                    if token.kind == Kind::EndStmt || token.kind == Kind::Eof {
                        break ;
                    } else {
                        let ghost at = self.position();
                        let ghost before = args@;
                        let arg = intern(self.token_value(&token));
                        self.next_token();
                        args.push(arg);
                        proof {
                            lemma_texts_push(s, t, from, at, before, arg);
                        }
                    }
                },
                None => {
                    break ;
                },
            }
        }
        args
    }

    /// Reads the tokens up to the one that ends the statement and puts their
    /// texts behind `first`.
    fn value(&mut self, first: &str) -> (text: String)
        ensures
            final(self).source() == old(self).source(),
            final(self).tokens() == old(self).tokens(),
            final(self).position() == statement_end(old(self).tokens(), old(self).position()),
            text@ == first@ + joined(
                old(self).source(),
                old(self).tokens(),
                old(self).position(),
                final(self).position(),
            ),
    {
        let ghost s = self.source();
        let ghost t = self.tokens();
        let ghost from = self.position();
        let mut text = String::from_str(first);
        assert(text@ =~= first@ + joined(s, t, from, from));
        loop
            invariant
                self.source() == s,
                self.tokens() == t,
                from <= self.position(),
                statement_end(t, from) == statement_end(t, self.position()),
                text@ == first@ + joined(s, t, from, self.position()),
            ensures
                self.source() == s,
                self.tokens() == t,
                self.position() == statement_end(t, from),
                text@ == first@ + joined(s, t, from, self.position()),
            decreases t.len() - self.position(),
        {
            match self.peek() {
                Some(token) => {
                    if token.kind == Kind::EndStmt || token.kind == Kind::Eof {
                        break ;
                    } else {
                        let ghost at = self.position();
                        text.append(self.token_value(&token));
                        self.next_token();
                        assert(text@ =~= first@ + joined(s, t, from, at + 1));
                    }
                },
                None => {
                    break ;
                },
            }
        }
        text
    }

    /// Reads the rest of an assignment or an alias definition whose
    /// reserved word, `modifier`, has just been read. On an error the parser
    /// stays behind the last token that it has read.
    fn assignment(&mut self, modifier: Modifier) -> (r: Result<Expr, ParseError>)
        requires
            0 < old(self).position(),
        ensures
            final(self).source() == old(self).source(),
            final(self).tokens() == old(self).tokens(),
            match r {
                Ok(expr) => assignment_at(
                    old(self).source(),
                    old(self).tokens(),
                    old(self).position() - 1,
                    modifier,
                ) == Ok::<(ExprView, int), ParseErrorView>((expr@, final(self).position())),
                Err(e) => assignment_at(
                    old(self).source(),
                    old(self).tokens(),
                    old(self).position() - 1,
                    modifier,
                ) == Err::<(ExprView, int), ParseErrorView>(e@) && final(self).position()
                    == assignment_end(
                    old(self).source(),
                    old(self).tokens(),
                    old(self).position() - 1,
                    modifier,
                ),
            },
    {
        let ghost s = self.source();
        let ghost t = self.tokens();
        let ghost i = self.position() - 1;
        let lhs = match self.next_token() {
            Some(token) => {
                if token.kind == Kind::StringLiteral {
                    self.token_value(&token)
                } else {
                    return Err(ParseError::ExpectedIdentifier(modifier));
                }
            },
            None => {
                return Err(ParseError::ExpectedIdentifier(modifier));
            },
        };
        let eq = match self.next_token() {
            Some(token) => token.kind == Kind::Eq,
            None => false,
        };
        if !eq {
            return Err(ParseError::ExpectedEq(String::from_str(lhs)));
        }
        let first = match self.next_token() {
            Some(token) => {
                if token.kind == Kind::StringLiteral {
                    self.token_value(&token)
                } else {
                    return Err(ParseError::ExpectedValue);
                }
            },
            None => {
                return Err(ParseError::ExpectedValue);
            },
        };
        match modifier {
            Modifier::Alias => {
                let args = self.values();
                let command = CommandExpr {
                    command: intern(first),
                    args,
                    canonical: is_canonical(first),
                };
                let expr = Expr::Alias(Box::new(AliasExpr { alias: intern(lhs), command }));
                assert(expr@ =~= assignment_at(s, t, i, modifier)->Ok_0.0);
                Ok(expr)
            },
            _ => {
                let rhs = self.value(first);
                proof {
                    lemma_statement_end(t, i + 4);
                    lemma_joined_first(s, t, i + 3, self.position());
                }
                let expr = Expr::Assign(
                    Box::new(AssignExpr { modifier, lhs: intern(lhs), rhs: intern(rhs.as_str()) }),
                );
                assert(expr@ =~= assignment_at(s, t, i, modifier)->Ok_0.0);
                Ok(expr)
            },
        }
    }

    /// Reads the next statement. Where no string literal is left the
    /// statement is `Eof`. The parser reads on in any case: on an error it
    /// stays behind the last token that it has read.
    pub fn next_expr(&mut self) -> (r: Result<Expr, ParseError>)
        ensures
            final(self).source() == old(self).source(),
            final(self).tokens() == old(self).tokens(),
            match r {
                Ok(expr) => next_statement(
                    old(self).source(),
                    old(self).tokens(),
                    old(self).position(),
                ) == Ok::<(ExprView, int), ParseErrorView>((expr@, final(self).position())),
                Err(e) => next_statement(
                    old(self).source(),
                    old(self).tokens(),
                    old(self).position(),
                ) == Err::<(ExprView, int), ParseErrorView>(e@),
            },
            final(self).position() == next_statement_end(
                old(self).source(),
                old(self).tokens(),
                old(self).position(),
            ),
            old(self).position() <= final(self).position() <= old(self).tokens().len(),
            old(self).position() < old(self).tokens().len() ==> old(self).position()
                < final(self).position(),
    {
        let ghost s = self.source();
        let ghost t = self.tokens();
        proof {
            use_type_invariant(&*self);
        }
        proof {
            lemma_next_statement_reads_on(s, t, self.position());
        }
        let origin = self.pos;
        loop
            invariant
                self.source() == s,
                self.tokens() == t,
                s == old(self).source(),
                t == old(self).tokens(),
                origin == old(self).position(),
                origin <= self.position(),
                next_statement(s, t, origin as int) == next_statement(s, t, self.position()),
                next_statement_end(s, t, origin as int) == next_statement_end(
                    s,
                    t,
                    self.position(),
                ),
                origin <= next_statement_end(s, t, origin as int) <= t.len(),
                origin < t.len() ==> origin < next_statement_end(s, t, origin as int),
            decreases t.len() - self.position(),
        {
            match self.next_token() {
                None => {
                    return Ok(Expr::Eof);
                },
                Some(token) => {
                    let ghost at = self.position() - 1;
                    if token.kind == Kind::StringLiteral {
                        match self.modifier(&token) {
                            Some(modifier) => {
                                return self.assignment(modifier);
                            },
                            None => {
                                let name = self.token_value(&token);
                                let args = self.literals();
                                let expr = Expr::Command(
                                    Box::new(
                                        CommandExpr {
                                            command: intern(name),
                                            args,
                                            canonical: is_canonical(name),
                                        },
                                    ),
                                );
                                assert(expr@ =~= statement_at(s, t, at)->Ok_0.0);
                                return Ok(expr);
                            },
                        }
                    }
                },
            }
        }
    }

    /// Reads all the statements that are left. One error ends the parse,
    /// with no statement; the parser then stays where the failing statement
    /// has stopped.
    pub fn parse(&mut self) -> (r: Result<Vec<Expr>, ParseError>)
        ensures
            final(self).source() == old(self).source(),
            final(self).tokens() == old(self).tokens(),
            match r {
                Ok(exprs) => {
                    &&& statements_from(
                        old(self).source(),
                        old(self).tokens(),
                        old(self).position(),
                    ) == Ok::<Seq<ExprView>, ParseErrorView>(views(exprs@))
                    &&& forall|k: int|
                        0 <= k < exprs@.len() ==> is_statement(#[trigger] views(exprs@)[k])
                    &&& final(self).position() == old(self).tokens().len()
                },
                Err(e) => {
                    &&& statements_from(
                        old(self).source(),
                        old(self).tokens(),
                        old(self).position(),
                    ) == Err::<Seq<ExprView>, ParseErrorView>(e@)
                },
            },
            final(self).position() == statements_end(
                old(self).source(),
                old(self).tokens(),
                old(self).position(),
            ),
            old(self).position() <= final(self).position() <= old(self).tokens().len(),
    {
        let ghost s = self.source();
        let ghost t = self.tokens();
        proof {
            use_type_invariant(&*self);
        }
        let origin = self.pos;
        let mut exprs: Vec<Expr> = Vec::new();
        proof {
            assert(views(exprs@) =~= Seq::empty());
            assert(Seq::<ExprView>::empty() + statements_from(s, t, origin as int)->Ok_0
                =~= statements_from(s, t, origin as int)->Ok_0);
        }
        loop
            invariant
                self.source() == s,
                self.tokens() == t,
                s == old(self).source(),
                t == old(self).tokens(),
                origin == old(self).position(),
                origin <= self.position(),
                statements_from(s, t, origin as int) == prepend(
                    views(exprs@),
                    statements_from(s, t, self.position()),
                ),
                statements_end(s, t, origin as int) == statements_end(s, t, self.position()),
                self.position() <= t.len(),
            decreases t.len() - self.position(),
        {
            let ghost at = self.position();
            let ghost before = exprs@;
            proof {
                lemma_next_statement_advances(s, t, at);
                lemma_next_statement_reads_on(s, t, at);
            }
            match self.next_expr() {
                Err(e) => {
                    return Err(e);
                },
                Ok(expr) => {
                    match expr {
                        Expr::Eof => {
                            proof {
                                assert(views(exprs@) + Seq::<ExprView>::empty() =~= views(exprs@));
                                lemma_statements_are_statements(s, t, origin as int);
                                assert(statements_from(s, t, origin as int) == Ok::<
                                    Seq<ExprView>,
                                    ParseErrorView,
                                >(views(exprs@)));
                                let statements = statements_from(s, t, origin as int)->Ok_0;
                                assert forall|k: int| 0 <= k < exprs@.len() implies is_statement(
                                    #[trigger] views(exprs@)[k],
                                ) by {
                                    assert(is_statement(statements[k]));
                                }
                            }
                            return Ok(exprs);
                        },
                        _ => {
                            let ghost statement = expr@;
                            exprs.push(expr);
                            proof {
                                let rest = statements_from(s, t, self.position());
                                assert(views(exprs@) =~= views(before) + seq![statement]) by {
                                    assert(exprs@ =~= before.push(expr));
                                }
                                if rest is Ok {
                                    assert(views(exprs@) + rest->Ok_0 =~= views(before) + (
                                    seq![statement] + rest->Ok_0));
                                }
                            }
                        },
                    }
                },
            }
        }
    }
}

/// Atoms that stand for the texts of the tokens from `from` up to `at`,
/// and behind them one that stands for the text of the token at `at`, stand
/// for the texts of the tokens from `from` up to `at + 1`.
proof fn lemma_texts_push(
    s: Seq<u8>,
    tokens: Seq<Token>,
    from: int,
    at: int,
    atoms: Seq<Atom>,
    last: Atom,
)
    requires
        from <= at,
        texts(atoms) == texts_of(s, tokens, from, at),
        atom_text(last) == tokens[at].text(s),
    ensures
        texts(atoms.push(last)) == texts_of(s, tokens, from, at + 1),
{
    let a = texts(atoms.push(last));
    let b = texts_of(s, tokens, from, at + 1);
    assert(texts(atoms).len() == at - from);
    assert forall|k: int| 0 <= k < a.len() implies a[k] == b[k] by {
        if k < atoms.len() {
            assert(a[k] == texts(atoms)[k]);
            assert(texts_of(s, tokens, from, at)[k] == b[k]);
        }
    }
    assert(a =~= b);
}

/// The texts of a run of tokens, taken together, start with the text of the
/// first.
pub proof fn lemma_joined_first(s: Seq<u8>, tokens: Seq<Token>, from: int, to: int)
    requires
        from < to,
    ensures
        joined(s, tokens, from, to) == tokens[from].text(s) + joined(s, tokens, from + 1, to),
    decreases to - from,
{
    if from + 1 < to {
        lemma_joined_first(s, tokens, from, to - 1);
        assert(joined(s, tokens, from, to) =~= tokens[from].text(s) + joined(
            s,
            tokens,
            from + 1,
            to,
        ));
    } else {
        assert(joined(s, tokens, from, from) =~= Seq::<char>::empty());
        assert(joined(s, tokens, from + 1, to) =~= Seq::<char>::empty());
        assert(joined(s, tokens, from, to) =~= tokens[from].text(s) + joined(
            s,
            tokens,
            from + 1,
            to,
        ));
    }
}

} // verus!
