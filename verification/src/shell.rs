//! The shell language: tokens, the lexer, the parser and the evaluator, and
//! the session that the evaluator works on.

pub mod alias_table;
pub mod eval;
pub mod lexer;
pub mod parser;
pub mod path_table;
pub mod token;

use crate::atom::atom_text;
use crate::text::lemma_boundary_by_byte;
use alias_table::AliasTable;
use eval::{EvalError, EvalErrorView, Line};
use lexer::{tokens_of, LexError, Lexer};
use parser::{statements_of, CommandView, ExprView, ParseError, ParseErrorView, Parser};
use path_table::PathTable;
use string_cache::DefaultAtom as Atom;
use vstd::hash_map::StringHashMap;
use vstd::prelude::*;
use vstd::string::{StringExecFns, StringSliceAdditionalSpecFns};
use vstd::utf8::encode_utf8_valid_utf8;

verus! {

/// The state of a session: the aliases, the variables and the path table.
/// It lasts from line to line.
pub struct Shell {
    pub aliases: AliasTable,
    pub variables: StringHashMap<Atom>,
    pub path_table: PathTable,
}

/// A session as plain text.
#[verifier::ext_equal]
pub struct ShellView {
    /// Alias name to the command that it stands for.
    pub aliases: Map<Seq<char>, CommandView>,
    /// Variable name to value.
    pub variables: Map<Seq<char>, Seq<char>>,
    /// Base name of an executable to its full path.
    pub paths: Map<Seq<char>, Seq<char>>,
}

impl ShellView {
    /// The session in which nothing is defined.
    pub open spec fn empty() -> ShellView {
        ShellView { aliases: Map::empty(), variables: Map::empty(), paths: Map::empty() }
    }
}

impl View for Shell {
    type V = ShellView;

    open spec fn view(&self) -> ShellView {
        ShellView {
            aliases: self.aliases@,
            variables: self.variables@.map_values(|value: Atom| atom_text(value)),
            paths: self.path_table@,
        }
    }
}

impl Default for Shell {
    /// The session in which nothing is defined.
    fn default() -> (shell: Self)
        ensures
            shell@ == ShellView::empty(),
    {
        let shell = Shell {
            aliases: AliasTable::new(),
            variables: StringHashMap::new(),
            path_table: PathTable::new(),
        };
        assert(shell@ =~= ShellView::empty());
        shell
    }
}

/// Why a line could not be run.
#[derive(Clone, Debug, PartialEq, Eq)]
pub enum Error {
    /// The line is no sequence of tokens.
    Lex(LexError),
    /// The tokens are no sequence of statements.
    Parse(ParseError),
    /// A statement could not be evaluated.
    Eval(EvalError),
}

/// An error as plain text.
#[verifier::ext_equal]
pub enum ErrorView {
    Lex(LexError),
    Parse(ParseErrorView),
    Eval(EvalErrorView),
}

impl View for Error {
    type V = ErrorView;

    open spec fn view(&self) -> ErrorView {
        match self {
            Error::Lex(e) => ErrorView::Lex(*e),
            Error::Parse(e) => ErrorView::Parse(e@),
            Error::Eval(e) => ErrorView::Eval(e@),
        }
    }
}

impl ErrorView {
    /// The text that tells a user of the error.
    pub open spec fn message(self) -> Seq<char> {
        match self {
            ErrorView::Lex(e) => e.message_text(),
            ErrorView::Parse(e) => e.message(),
            ErrorView::Eval(e) => e.message(),
        }
    }

    /// The one line that a user is shown: the prefix, a colon and a space,
    /// and the message.
    pub open spec fn report(self, prefix: Seq<char>) -> Seq<char> {
        prefix + ": "@ + self.message()
    }
}

impl Error {
    /// The text that tells a user of the error.
    pub fn message(&self) -> (text: String)
        ensures
            text@ == self@.message(),
    {
        match self {
            Error::Lex(e) => e.message(),
            Error::Parse(e) => e.message(),
            Error::Eval(e) => e.message(),
        }
    }

    /// The one line that a user is shown: the prefix, a colon and a space,
    /// and the message.
    pub fn report(&self, prefix: &str) -> (line: String)
        ensures
            line@ == self@.report(prefix@),
    {
        let mut line = String::from_str(prefix);
        line.append(": ");
        line.append(self.message().as_str());
        line
    }
}

/// The statements of the line `source`, or why it has none: it is no
/// sequence of tokens, or its tokens are no sequence of statements.
pub open spec fn line_statements(source: Seq<u8>) -> Result<Seq<ExprView>, ErrorView> {
    match tokens_of(source) {
        Err(e) => Err(ErrorView::Lex(e)),
        Ok(tokens) => match statements_of(source, tokens) {
            Err(e) => Err(ErrorView::Parse(e)),
            Ok(statements) => Ok(statements),
        },
    }
}

/// Splits a line into tokens and parses them. The line that comes back is
/// evaluated statement by statement with [`eval::eval`]; one error, and the
/// line has no statement at all.
pub fn parse_line(source: &str) -> (r: Result<Line, Error>)
    ensures
        match r {
            Ok(line) => line_statements(source.spec_bytes()) == Ok::<Seq<ExprView>, ErrorView>(
                line.statements(),
            ) && line.position() == 0,
            Err(e) => line_statements(source.spec_bytes()) == Err::<Seq<ExprView>, ErrorView>(e@),
        },
{
    proof {
        encode_utf8_valid_utf8(source@);
        lemma_boundary_by_byte(source.spec_bytes(), 0);
    }
    let mut lexer = Lexer::new(source);
    let tokens = match lexer.tokenize() {
        Ok(tokens) => tokens,
        Err(e) => {
            return Err(Error::Lex(e));
        },
    };
    let mut parser = Parser::new(source, tokens);
    match parser.parse() {
        Ok(exprs) => Ok(Line::new(exprs)),
        Err(e) => Err(Error::Parse(e)),
    }
}

} // verus!
