//! The lexer: source text to tokens.
//!
//! The grammar is stated over the bytes of the source. Every character that
//! the grammar gives a meaning to is ASCII, so a byte of a longer character
//! is always part of a word or of a quoted text.

use super::token::{all_within, Kind, Token};
use crate::text::{is_boundary, lemma_boundary_after_ascii};
use vstd::prelude::*;
use vstd::string::{StringExecFns, StringSliceAdditionalSpecFns};
use vstd::utf8::{encode_utf8_valid_utf8, valid_utf8};

verus! {

/// `\n`
pub const NEWLINE: u8 = 0x0a;

/// `"`
pub const QUOTE: u8 = 0x22;

/// `;`
pub const SEMICOLON: u8 = 0x3b;

/// `=`
pub const EQUALS: u8 = 0x3d;

/// Why a line could not be split into tokens.
#[derive(Clone, Copy, Debug, PartialEq, Eq, Structural)]
pub enum LexError {
    /// The input ended inside a quoted text.
    UnterminatedString,
    /// A newline stood inside a quoted text.
    NewlineInString,
}

impl LexError {
    /// The text that tells a user of the error.
    pub open spec fn message_text(self) -> Seq<char> {
        match self {
            LexError::UnterminatedString => "unterminated string"@,
            LexError::NewlineInString => "newlines forbidden in strings"@,
        }
    }

    /// The text that tells a user of the error.
    pub fn message(&self) -> (text: String)
        ensures
            text@ == self.message_text(),
    {
        match self {
            LexError::UnterminatedString => String::from_str("unterminated string"),
            LexError::NewlineInString => String::from_str("newlines forbidden in strings"),
        }
    }
}

/// Whitespace that separates tokens and is no token itself: space, tab,
/// form feed and carriage return.
pub open spec fn is_blank(b: u8) -> bool {
    b == 0x20 || b == 0x09 || b == 0x0c || b == 0x0d
}

/// Whether a byte is a blank.
fn blank(b: u8) -> (r: bool)
    ensures
        r == is_blank(b),
{
    b == 0x20 || b == 0x09 || b == 0x0c || b == 0x0d
}

/// The bytes at which a word ends: whitespace, `;` and `=`.
pub open spec fn ends_word(b: u8) -> bool {
    is_blank(b) || b == NEWLINE || b == SEMICOLON || b == EQUALS
}

/// The first position at or after `i` that holds no blank.
pub open spec fn skip_blanks(s: Seq<u8>, i: int) -> int
    decreases s.len() - i,
{
    if 0 <= i < s.len() && is_blank(s[i]) {
        skip_blanks(s, i + 1)
    } else {
        i
    }
}

/// The first position at or after `i` at which a word ends.
pub open spec fn word_end(s: Seq<u8>, i: int) -> int
    decreases s.len() - i,
{
    if 0 <= i < s.len() && !ends_word(s[i]) {
        word_end(s, i + 1)
    } else {
        i
    }
}

/// The position of the quote that closes a quoted text whose content starts
/// at `i`.
pub open spec fn closing_quote(s: Seq<u8>, i: int) -> Result<int, LexError>
    decreases s.len() - i,
{
    if i < 0 || i >= s.len() {
        Err(LexError::UnterminatedString)
    } else if s[i] == QUOTE {
        Ok(i)
    } else if s[i] == NEWLINE {
        Err(LexError::NewlineInString)
    } else {
        closing_quote(s, i + 1)
    }
}

/// The first token at or after `i`, and the position behind it.
pub open spec fn next_token(s: Seq<u8>, i: int) -> Result<(Token, int), LexError> {
    let j = skip_blanks(s, i);
    if j >= s.len() {
        Ok(
            (
                Token { kind: Kind::Eof, start: s.len() as usize, end: s.len() as usize },
                s.len() as int,
            ),
        )
    } else if s[j] == SEMICOLON || s[j] == NEWLINE {
        Ok((Token { kind: Kind::EndStmt, start: j as usize, end: (j + 1) as usize }, j + 1))
    } else if s[j] == EQUALS {
        if j + 1 < s.len() && s[j + 1] == EQUALS {
            Ok((Token { kind: Kind::EqCmp, start: j as usize, end: (j + 2) as usize }, j + 2))
        } else {
            Ok((Token { kind: Kind::Eq, start: j as usize, end: (j + 1) as usize }, j + 1))
        }
    } else if s[j] == QUOTE {
        match closing_quote(s, j + 1) {
            Ok(k) => Ok(
                (Token { kind: Kind::StringLiteral, start: (j + 1) as usize, end: k as usize }, k + 1),
            ),
            Err(e) => Err(e),
        }
    } else {
        let k = word_end(s, j + 1);
        Ok((Token { kind: Kind::StringLiteral, start: j as usize, end: k as usize }, k))
    }
}

/// The first position at or after `i` that holds a quote or a newline, or
/// the length of `s` where none does: how far the lexer reads into a quoted
/// text whose content starts at `i`.
pub open spec fn quote_stop(s: Seq<u8>, i: int) -> int
    decreases s.len() - i,
{
    if 0 <= i < s.len() && s[i] != QUOTE && s[i] != NEWLINE {
        quote_stop(s, i + 1)
    } else {
        i
    }
}

/// The position up to which the lexer has read when it has looked for the
/// first token at or after `i`: behind the token, or, where a quoted text
/// is not closed, the end of the text or the newline in it.
pub open spec fn next_token_end(s: Seq<u8>, i: int) -> int {
    match next_token(s, i) {
        Ok((_, next)) => next,
        Err(_) => quote_stop(s, skip_blanks(s, i) + 1),
    }
}

/// `first` put in front of the tokens of `rest`, where there are any.
pub open spec fn prepend(first: Seq<Token>, rest: Result<Seq<Token>, LexError>) -> Result<
    Seq<Token>,
    LexError,
> {
    match rest {
        Ok(tokens) => Ok(first + tokens),
        Err(e) => Err(e),
    }
}

/// The tokens of `s` from position `i` on. The last of them is the one
/// `Eof`.
pub open spec fn tokens_from(s: Seq<u8>, i: int) -> Result<Seq<Token>, LexError>
    decreases s.len() - i,
    via tokens_from_terminates
{
    match next_token(s, i) {
        Err(e) => Err(e),
        Ok((token, next)) => if token.kind == Kind::Eof {
            Ok(seq![token])
        } else {
            prepend(seq![token], tokens_from(s, next))
        },
    }
}

#[via_fn]
proof fn tokens_from_terminates(s: Seq<u8>, i: int) {
    lemma_next_token_advances(s, i);
}

/// The tokens of a whole source text.
pub open spec fn tokens_of(s: Seq<u8>) -> Result<Seq<Token>, LexError> {
    tokens_from(s, 0)
}

/// The position up to which the lexer has read when it has split `s` from
/// `i` on: the end of the text, or, where a token fails, where the lexer has
/// stopped in it.
pub open spec fn tokens_end(s: Seq<u8>, i: int) -> int
    decreases s.len() - i,
    via tokens_end_terminates
{
    match next_token(s, i) {
        Err(_) => next_token_end(s, i),
        Ok((token, next)) => if token.kind == Kind::Eof {
            next
        } else {
            tokens_end(s, next)
        },
    }
}

#[via_fn]
proof fn tokens_end_terminates(s: Seq<u8>, i: int) {
    lemma_next_token_advances(s, i);
}

/// Blanks are skipped forwards, over blanks only, up to the first byte that
/// is none.
pub proof fn lemma_skip_blanks(s: Seq<u8>, i: int)
    ensures
        i <= skip_blanks(s, i),
        i <= s.len() ==> skip_blanks(s, i) <= s.len(),
        forall|k: int| i <= k < skip_blanks(s, i) ==> 0 <= k < s.len() && is_blank(#[trigger] s[k]),
        0 <= skip_blanks(s, i) < s.len() ==> !is_blank(s[skip_blanks(s, i)]),
    decreases s.len() - i,
{
    if 0 <= i < s.len() && is_blank(s[i]) {
        lemma_skip_blanks(s, i + 1);
    }
}

/// A word runs forwards, over bytes that do not end it, up to the first byte
/// that does.
pub proof fn lemma_word_end(s: Seq<u8>, i: int)
    ensures
        i <= word_end(s, i),
        i <= s.len() ==> word_end(s, i) <= s.len(),
        forall|k: int| i <= k < word_end(s, i) ==> 0 <= k < s.len() && !ends_word(#[trigger] s[k]),
        0 <= word_end(s, i) < s.len() ==> ends_word(s[word_end(s, i)]),
    decreases s.len() - i,
{
    if 0 <= i < s.len() && !ends_word(s[i]) {
        lemma_word_end(s, i + 1);
    }
}

/// The closing quote is the first quote at or after `i`, and no newline
/// stands before it.
pub proof fn lemma_closing_quote(s: Seq<u8>, i: int)
    ensures
        closing_quote(s, i) matches Ok(k) ==> {
            &&& 0 <= i <= k < s.len()
            &&& s[k] == QUOTE
            &&& forall|m: int| i <= m < k ==> #[trigger] s[m] != QUOTE && s[m] != NEWLINE
        },
    decreases s.len() - i,
{
    if 0 <= i < s.len() && s[i] != QUOTE && s[i] != NEWLINE {
        lemma_closing_quote(s, i + 1);
    }
}

/// The lexer stops in a quoted text at or behind its start, inside the
/// text.
pub proof fn lemma_quote_stop(s: Seq<u8>, i: int)
    ensures
        i <= quote_stop(s, i),
        i <= s.len() ==> quote_stop(s, i) <= s.len(),
    decreases s.len() - i,
{
    if 0 <= i < s.len() && s[i] != QUOTE && s[i] != NEWLINE {
        lemma_quote_stop(s, i + 1);
    }
}

/// To look for a token is to read on: the lexer never goes back, whether
/// it has found a token or failed, and never reads beyond the text.
pub proof fn lemma_next_token_reads_on(s: Seq<u8>, i: int)
    requires
        0 <= i <= s.len(),
    ensures
        i <= next_token_end(s, i) <= s.len(),
        next_token(s, i) is Err ==> i < next_token_end(s, i),
{
    lemma_skip_blanks(s, i);
    let j = skip_blanks(s, i);
    if j < s.len() {
        lemma_quote_stop(s, j + 1);
        lemma_closing_quote(s, j + 1);
        lemma_word_end(s, j + 1);
    }
}

/// To split a text is to read on: the lexer never goes back, and after a
/// split without error it stands at the end of the text.
pub proof fn lemma_tokens_read_on(s: Seq<u8>, i: int)
    requires
        0 <= i <= s.len(),
    ensures
        i <= tokens_end(s, i) <= s.len(),
        tokens_from(s, i) is Ok ==> tokens_end(s, i) == s.len(),
    decreases s.len() - i,
{
    lemma_next_token_reads_on(s, i);
    lemma_next_token_advances(s, i);
    match next_token(s, i) {
        Ok((token, next)) => {
            if token.kind != Kind::Eof {
                lemma_tokens_read_on(s, next);
            }
        },
        Err(_) => {},
    }
}

/// A token that is not `Eof` ends behind the position from which it was
/// looked for, and inside the text.
pub proof fn lemma_next_token_advances(s: Seq<u8>, i: int)
    ensures
        next_token(s, i) matches Ok((token, next)) ==> {
            &&& token.kind != Kind::Eof ==> i < next <= s.len()
            &&& token.kind == Kind::Eof ==> next == s.len()
        },
{
    let j = skip_blanks(s, i);
    lemma_skip_blanks(s, i);
    if j < s.len() {
        if s[j] == QUOTE {
            lemma_closing_quote(s, j + 1);
        } else {
            lemma_word_end(s, j + 1);
        }
    }
}

/// The state of a scan over one source text.
pub struct Lexer<'a> {
    bytes: &'a [u8],
    cursor: usize,
}

impl<'a> Lexer<'a> {
    #[verifier::type_invariant]
    spec fn inv(self) -> bool {
        self.cursor <= self.bytes@.len() && valid_utf8(self.bytes@)
    }

    /// The bytes of the text that is scanned.
    pub closed spec fn source(&self) -> Seq<u8> {
        self.bytes@
    }

    /// The position of the next byte to read.
    pub closed spec fn position(&self) -> int {
        self.cursor as int
    }

    /// A lexer at the start of `source`.
    pub fn new(source: &'a str) -> (lexer: Self)
        ensures
            lexer.source() == source.spec_bytes(),
            lexer.position() == 0,
    {
        proof {
            encode_utf8_valid_utf8(source@);
        }
        Lexer { bytes: source.as_bytes(), cursor: 0 }
    }

    /// The byte offset of the next byte to read.
    pub fn offset(&self) -> (at: usize)
        ensures
            at == self.position(),
            at <= self.source().len(),
    {
        proof {
            use_type_invariant(self);
        }
        self.cursor
    }

    /// Whether the whole text has been read.
    pub fn eof(&self) -> (done: bool)
        ensures
            done == (self.position() == self.source().len()),
    {
        proof {
            use_type_invariant(self);
        }
        self.cursor == self.bytes.len()
    }

    /// The next byte, which stays unread.
    pub fn peek(&self) -> (next: Option<u8>)
        ensures
            next == if self.position() < self.source().len() {
                Some(self.source()[self.position()])
            } else {
                None
            },
    {
        proof {
            use_type_invariant(self);
        }
        if self.cursor < self.bytes.len() {
            Some(self.bytes[self.cursor])
        } else {
            None
        }
    }

    /// Reads the next byte. At the end of the text nothing changes.
    pub fn advance(&mut self) -> (next: Option<u8>)
        ensures
            final(self).source() == old(self).source(),
            next == if old(self).position() < old(self).source().len() {
                Some(old(self).source()[old(self).position()])
            } else {
                None
            },
            final(self).position() == if next is Some {
                old(self).position() + 1
            } else {
                old(self).position()
            },
    {
        proof {
            use_type_invariant(&*self);
        }
        if self.cursor < self.bytes.len() {
            let b = self.bytes[self.cursor];
            self.cursor = self.cursor + 1;
            Some(b)
        } else {
            None
        }
    }

    /// Reads blanks up to the first byte that is none.
    fn blanks(&mut self)
        ensures
            final(self).source() == old(self).source(),
            final(self).position() == skip_blanks(old(self).source(), old(self).position()),
            old(self).position() <= final(self).position() <= old(self).source().len(),
    {
        let ghost s = self.source();
        let ghost from = self.position();
        loop
            invariant
                self.source() == s,
                from <= self.position(),
                skip_blanks(s, from) == skip_blanks(s, self.position()),
            ensures
                self.source() == s,
                from <= self.position() <= s.len(),
                self.position() == skip_blanks(s, from),
            decreases s.len() - self.position(),
        {
            match self.peek() {
                Some(b) => {
                    if blank(b) {
                        self.advance();
                    } else {
                        break ;
                    }
                },
                None => {
                    proof {
                        use_type_invariant(&*self);
                    }
                    break ;
                },
            }
        }
    }

    /// Skips blanks and reads one token. At the end of the text the token is
    /// `Eof`. The lexer reads on in any case: where a quoted text is not
    /// closed, it stays at the end of the text or at the newline in it.
    pub fn next_tk(&mut self) -> (r: Result<Token, LexError>)
        ensures
            final(self).source() == old(self).source(),
            match r {
                Ok(token) => next_token(old(self).source(), old(self).position()) == Ok::<
                    (Token, int),
                    LexError,
                >((token, final(self).position())),
                Err(e) => next_token(old(self).source(), old(self).position()) == Err::<
                    (Token, int),
                    LexError,
                >(e),
            },
            final(self).position() == next_token_end(old(self).source(), old(self).position()),
            old(self).position() <= final(self).position() <= old(self).source().len(),
    {
        proof {
            use_type_invariant(&*self);
            lemma_next_token_reads_on(self.source(), self.position());
        }
        self.blanks();
        let start = self.offset();
        match self.advance() {
            None => Ok(Token { kind: Kind::Eof, start, end: start }),
            Some(b) => {
                if b == SEMICOLON || b == NEWLINE {
                    Ok(Token { kind: Kind::EndStmt, start, end: start + 1 })
                } else if b == EQUALS {
                    match self.peek() {
                        Some(EQUALS) => {
                            self.advance();
                            Ok(Token { kind: Kind::EqCmp, start, end: start + 2 })
                        },
                        _ => Ok(Token { kind: Kind::Eq, start, end: start + 1 }),
                    }
                } else if b == QUOTE {
                    self.quoted()
                } else {
                    Ok(self.word(start))
                }
            },
        }
    }

    /// Reads a quoted text whose opening quote has just been read, up to and
    /// including the closing quote. Where the text is not closed, the lexer
    /// stays at the end of the text or at the newline in it.
    fn quoted(&mut self) -> (r: Result<Token, LexError>)
        ensures
            final(self).source() == old(self).source(),
            match r {
                Ok(token) => {
                    &&& closing_quote(old(self).source(), old(self).position()) == Ok::<
                        int,
                        LexError,
                    >(token.end as int)
                    &&& token.kind == Kind::StringLiteral
                    &&& token.start == old(self).position()
                    &&& final(self).position() == token.end + 1
                },
                Err(e) => {
                    &&& closing_quote(old(self).source(), old(self).position()) == Err::<
                        int,
                        LexError,
                    >(e)
                    &&& final(self).position() == quote_stop(
                        old(self).source(),
                        old(self).position(),
                    )
                },
            },
    {
        let ghost s = self.source();
        let start = self.offset();
        loop
            invariant
                self.source() == s,
                s == old(self).source(),
                start == old(self).position(),
                start <= self.position(),
                closing_quote(s, start as int) == closing_quote(s, self.position()),
                quote_stop(s, start as int) == quote_stop(s, self.position()),
            decreases s.len() - self.position(),
        {
            let end = self.offset();
            match self.peek() {
                None => {
                    return Err(LexError::UnterminatedString);
                },
                Some(b) => {
                    if b == QUOTE {
                        self.advance();
                        return Ok(Token { kind: Kind::StringLiteral, start, end });
                    } else if b == NEWLINE {
                        return Err(LexError::NewlineInString);
                    } else {
                        self.advance();
                    }
                },
            }
        }
    }

    /// Reads the rest of a word whose first byte, at `start`, has just been
    /// read.
    fn word(&mut self, start: usize) -> (token: Token)
        requires
            start + 1 == old(self).position(),
        ensures
            final(self).source() == old(self).source(),
            token == (Token {
                kind: Kind::StringLiteral,
                start,
                end: word_end(old(self).source(), old(self).position()) as usize,
            }),
            final(self).position() == word_end(old(self).source(), old(self).position()),
            final(self).position() <= old(self).source().len(),
    {
        let ghost s = self.source();
        let ghost from = self.position();
        loop
            invariant
                self.source() == s,
                from <= self.position(),
                word_end(s, from) == word_end(s, self.position()),
            ensures
                self.source() == s,
                self.position() == word_end(s, from),
            decreases s.len() - self.position(),
        {
            match self.peek() {
                Some(b) => {
                    if blank(b) || b == NEWLINE || b == SEMICOLON || b == EQUALS {
                        break ;
                    } else {
                        self.advance();
                    }
                },
                None => {
                    proof {
                        use_type_invariant(&*self);
                    }
                    break ;
                },
            }
        }
        Token { kind: Kind::StringLiteral, start, end: self.offset() }
    }

    /// Reads all the tokens that are left, the closing `Eof` included. On an
    /// error the lexer stays where it has stopped in the token that failed.
    pub fn tokenize(&mut self) -> (r: Result<Vec<Token>, LexError>)
        ensures
            final(self).source() == old(self).source(),
            match r {
                Ok(tokens) => {
                    &&& tokens_from(old(self).source(), old(self).position()) == Ok::<
                        Seq<Token>,
                        LexError,
                    >(tokens@)
                    &&& final(self).position() == old(self).source().len()
                    &&& forall|k: int|
                        0 <= k < tokens@.len() ==> fits(old(self).source(), #[trigger] tokens@[k])
                    &&& is_boundary(old(self).source(), old(self).position()) ==> well_formed(
                        old(self).source(),
                        old(self).position(),
                        tokens@,
                    )
                },
                Err(e) => {
                    &&& tokens_from(old(self).source(), old(self).position()) == Err::<
                        Seq<Token>,
                        LexError,
                    >(e)
                },
            },
            final(self).position() == tokens_end(old(self).source(), old(self).position()),
            old(self).position() <= final(self).position() <= old(self).source().len(),
    {
        let ghost s = self.source();
        let origin = self.offset();
        let mut tokens: Vec<Token> = Vec::new();
        proof {
            assert(seq![] + tokens_from(s, origin as int)->Ok_0 =~= tokens_from(
                s,
                origin as int,
            )->Ok_0);
        }
        loop
            invariant
                self.source() == s,
                s == old(self).source(),
                origin == old(self).position(),
                origin <= self.position(),
                tokens_from(s, origin as int) == prepend(tokens@, tokens_from(s, self.position())),
                tokens_end(s, origin as int) == tokens_end(s, self.position()),
                self.position() <= s.len(),
            decreases s.len() - self.position(),
        {
            let ghost at = self.position();
            let ghost before = tokens@;
            proof {
                lemma_next_token_advances(s, at);
            }
            match self.next_tk() {
                Err(e) => {
                    return Err(e);
                },
                Ok(token) => {
                    tokens.push(token);
                    proof {
                        let rest = tokens_from(s, self.position());
                        assert(tokens@ =~= before + seq![token]);
                        if token.kind != Kind::Eof && rest is Ok {
                            assert(tokens@ + rest->Ok_0 =~= before + (seq![token] + rest->Ok_0));
                        }
                    }
                    if token.kind == Kind::Eof {
                        proof {
                            use_type_invariant(&*self);
                            lemma_tokens_fit(s, origin as int);
                            if is_boundary(s, origin as int) {
                                lemma_tokens_well_formed(s, origin as int);
                            }
                        }
                        return Ok(tokens);
                    }
                },
            }
        }
    }
}

/// Whether every byte of `s` from `from` up to `to` is a blank or a quote:
/// what the lexer passes over between two tokens.
pub open spec fn only_separators(s: Seq<u8>, from: int, to: int) -> bool {
    forall|k: int| from <= k < to ==> is_blank(#[trigger] s[k]) || s[k] == QUOTE
}

/// Token `k` of `tokens` is no `Eof`, the next token starts at or behind its
/// end, and only separators lie between the two.
pub open spec fn followed(s: Seq<u8>, tokens: Seq<Token>, k: int) -> bool {
    &&& tokens[k].kind != Kind::Eof
    &&& tokens[k].end <= tokens[k + 1].start
    &&& only_separators(s, tokens[k].end as int, tokens[k + 1].start as int)
}

/// The spans of `tokens` lie in `s` in their order, none before `from`, none
/// overlapping another, none cutting a character in two; only blanks and
/// quotes lie between them; and the last token, and no other, is the `Eof`
/// at the end of `s`.
pub open spec fn well_formed(s: Seq<u8>, from: int, tokens: Seq<Token>) -> bool {
    &&& tokens.len() > 0
    &&& all_within(s, tokens)
    &&& from <= tokens[0].start
    &&& only_separators(s, from, tokens[0].start as int)
    &&& forall|k: int| 0 <= k < tokens.len() - 1 ==> #[trigger] followed(s, tokens, k)
    &&& tokens.last() == (Token { kind: Kind::Eof, start: s.len() as usize, end: s.len() as usize })
}

/// Behind a run of blanks that starts at a boundary stands a boundary.
proof fn lemma_blanks_keep_boundary(s: Seq<u8>, i: int, j: int)
    requires
        valid_utf8(s),
        0 <= i <= j <= s.len(),
        is_boundary(s, i),
        forall|k: int| i <= k < j ==> is_blank(#[trigger] s[k]),
    ensures
        is_boundary(s, j),
    decreases j - i,
{
    if i < j {
        assert(is_blank(s[i]));
        lemma_boundary_after_ascii(s, i);
        lemma_blanks_keep_boundary(s, i + 1, j);
    }
}

/// A token read from a boundary lies inside the text, only separators lie
/// before it and between it and the position behind it, and that position
/// is a boundary again.
pub proof fn lemma_next_token_within(s: Seq<u8>, i: int)
    requires
        valid_utf8(s),
        s.len() <= usize::MAX,
        is_boundary(s, i),
    ensures
        next_token(s, i) matches Ok((token, next)) ==> {
            &&& token.within(s)
            &&& i <= token.start
            &&& token.end <= next <= s.len()
            &&& only_separators(s, i, token.start as int)
            &&& only_separators(s, token.end as int, next)
            &&& is_boundary(s, next)
            &&& token.kind == Kind::Eof ==> token.start == s.len()
        },
{
    let j = skip_blanks(s, i);
    lemma_skip_blanks(s, i);
    lemma_blanks_keep_boundary(s, i, j);
    if j < s.len() {
        if s[j] == SEMICOLON || s[j] == NEWLINE {
            lemma_boundary_after_ascii(s, j);
        } else if s[j] == EQUALS {
            lemma_boundary_after_ascii(s, j);
            if j + 1 < s.len() && s[j + 1] == EQUALS {
                lemma_boundary_after_ascii(s, j + 1);
            }
        } else if s[j] == QUOTE {
            lemma_boundary_after_ascii(s, j);
            lemma_closing_quote(s, j + 1);
            match closing_quote(s, j + 1) {
                Ok(k) => {
                    lemma_boundary_after_ascii(s, k);
                },
                Err(_) => {},
            }
        } else {
            lemma_word_end(s, j + 1);
        }
    }
}

/// The tokens of a text, read from a boundary, are well formed.
pub proof fn lemma_tokens_well_formed(s: Seq<u8>, i: int)
    requires
        valid_utf8(s),
        s.len() <= usize::MAX,
        is_boundary(s, i),
    ensures
        tokens_from(s, i) matches Ok(tokens) ==> well_formed(s, i, tokens),
    decreases s.len() - i,
{
    lemma_next_token_within(s, i);
    lemma_next_token_advances(s, i);
    match next_token(s, i) {
        Ok((token, next)) => {
            if token.kind != Kind::Eof {
                lemma_tokens_well_formed(s, next);
                match tokens_from(s, next) {
                    Ok(rest) => {
                        let tokens = seq![token] + rest;
                        assert(tokens_from(s, i) == Ok::<Seq<Token>, LexError>(tokens));
                        assert(tokens[0] == token);
                        assert forall|k: int| 0 <= k < tokens.len() implies (
                        #[trigger] tokens[k]).within(s) by {
                            if k > 0 {
                                assert(tokens[k] == rest[k - 1]);
                            }
                        }
                        assert forall|k: int| 0 <= k < tokens.len() - 1 implies #[trigger] followed(
                            s,
                            tokens,
                            k,
                        ) by {
                            assert(tokens[k + 1] == rest[k]);
                            if k > 0 {
                                assert(tokens[k] == rest[k - 1]);
                                assert(followed(s, rest, k - 1));
                            } else {
                                assert forall|m: int| token.end <= m < rest[0].start implies is_blank(
                                    #[trigger] s[m],
                                ) || s[m] == QUOTE by {
                                    if m < next {
                                    } else {
                                    }
                                }
                            }
                        }
                        assert(tokens.last() == rest.last());
                    },
                    Err(_) => {},
                }
            } else {
                let tokens = seq![token];
                assert(tokens[0] == token);
                assert(tokens.last() == token);
            }
        },
        Err(_) => {},
    }
}

/// Whether the bytes from `start` up to `end` are a word: at least one
/// byte, the first no quote, none a byte that ends a word, and behind them
/// the end of the text or a byte that does.
pub open spec fn is_word(s: Seq<u8>, start: int, end: int) -> bool {
    &&& 0 <= start < end <= s.len()
    &&& s[start] != QUOTE
    &&& forall|k: int| start <= k < end ==> !ends_word(#[trigger] s[k])
    &&& end < s.len() ==> ends_word(s[end])
}

/// Whether the bytes from `start` up to `end` are what a quoted text holds:
/// a quote stands before them and one behind them, and none of them is a
/// quote or a newline.
pub open spec fn is_quoted(s: Seq<u8>, start: int, end: int) -> bool {
    &&& 0 < start <= end < s.len()
    &&& s[start - 1] == QUOTE
    &&& s[end] == QUOTE
    &&& forall|k: int| start <= k < end ==> #[trigger] s[k] != QUOTE && s[k] != NEWLINE
}

/// Whether the span of a token holds what the token's kind says.
pub open spec fn fits(s: Seq<u8>, token: Token) -> bool {
    let start = token.start as int;
    let end = token.end as int;
    match token.kind {
        Kind::StringLiteral => is_word(s, start, end) || is_quoted(s, start, end),
        Kind::Eq => {
            &&& 0 <= start < s.len()
            &&& end == start + 1
            &&& s[start] == EQUALS
            &&& end < s.len() ==> s[end] != EQUALS
        },
        Kind::EqCmp => {
            &&& 0 <= start
            &&& end == start + 2
            &&& end <= s.len()
            &&& s[start] == EQUALS
            &&& s[start + 1] == EQUALS
        },
        Kind::EndStmt => {
            &&& 0 <= start < s.len()
            &&& end == start + 1
            &&& (s[start] == SEMICOLON || s[start] == NEWLINE)
        },
        Kind::Eof => start == s.len() && end == s.len(),
    }
}

/// The span of a token holds what the token's kind says.
pub proof fn lemma_next_token_fits(s: Seq<u8>, i: int)
    requires
        s.len() <= usize::MAX,
        0 <= i,
    ensures
        next_token(s, i) matches Ok((token, _)) ==> fits(s, token),
{
    let j = skip_blanks(s, i);
    lemma_skip_blanks(s, i);
    if j < s.len() {
        if s[j] == QUOTE {
            lemma_closing_quote(s, j + 1);
        } else {
            lemma_word_end(s, j + 1);
        }
    }
}

/// The span of each token of a text holds what the token's kind says.
pub proof fn lemma_tokens_fit(s: Seq<u8>, i: int)
    requires
        s.len() <= usize::MAX,
        0 <= i,
    ensures
        tokens_from(s, i) matches Ok(tokens) ==> forall|k: int|
            0 <= k < tokens.len() ==> fits(s, #[trigger] tokens[k]),
    decreases s.len() - i,
{
    lemma_next_token_fits(s, i);
    lemma_next_token_advances(s, i);
    match next_token(s, i) {
        Ok((token, next)) => {
            if token.kind != Kind::Eof {
                lemma_tokens_fit(s, next);
                match tokens_from(s, next) {
                    Ok(rest) => {
                        let tokens = seq![token] + rest;
                        assert forall|k: int| 0 <= k < tokens.len() implies fits(
                            s,
                            #[trigger] tokens[k],
                        ) by {
                            if k > 0 {
                                assert(tokens[k] == rest[k - 1]);
                            }
                        }
                    },
                    Err(_) => {},
                }
            } else {
                assert(seq![token][0] == token);
            }
        },
        Err(_) => {},
    }
}

/// A quoted text is one token, whatever it holds besides a quote and a
/// newline: its span is what stands between the two quotes, and the lexer
/// goes on behind the closing quote.
pub proof fn lemma_quoted_text_is_one_token(s: Seq<u8>, open: int, close: int)
    requires
        s.len() <= usize::MAX,
        0 <= open < close < s.len(),
        s[open] == QUOTE,
        s[close] == QUOTE,
        forall|k: int| open < k < close ==> #[trigger] s[k] != QUOTE && s[k] != NEWLINE,
    ensures
        next_token(s, open) == Ok::<(Token, int), LexError>(
            (
                Token { kind: Kind::StringLiteral, start: (open + 1) as usize, end: close as usize },
                close + 1,
            ),
        ),
{
    lemma_first_quote_closes(s, open + 1, close);
}

/// The first quote behind `i`, with no newline before it, closes the text
/// that starts at `i`.
proof fn lemma_first_quote_closes(s: Seq<u8>, i: int, close: int)
    requires
        0 <= i <= close < s.len(),
        s[close] == QUOTE,
        forall|k: int| i <= k < close ==> #[trigger] s[k] != QUOTE && s[k] != NEWLINE,
    ensures
        closing_quote(s, i) == Ok::<int, LexError>(close),
    decreases close - i,
{
    if i < close {
        lemma_first_quote_closes(s, i + 1, close);
    }
}

/// The bytes of `s` from `from` up to the end of the first `n` tokens, put
/// together piece by piece: before each token what lies between it and the
/// token before it, then what the token's own span covers.
pub open spec fn rebuilt(s: Seq<u8>, from: int, tokens: Seq<Token>, n: int) -> Seq<u8>
    decreases n,
{
    if n <= 0 {
        Seq::empty()
    } else {
        let token = tokens[n - 1];
        let gap_start = if n == 1 {
            from
        } else {
            tokens[n - 2].end as int
        };
        rebuilt(s, from, tokens, n - 1) + s.subrange(gap_start, token.start as int) + s.subrange(
            token.start as int,
            token.end as int,
        )
    }
}

/// The spans of well-formed tokens and what lies between them, one after
/// the other, are the text up to the end of the last of them.
proof fn lemma_rebuilt_prefix(s: Seq<u8>, from: int, tokens: Seq<Token>, n: int)
    requires
        0 <= from,
        well_formed(s, from, tokens),
        1 <= n <= tokens.len(),
    ensures
        from <= tokens[n - 1].start,
        rebuilt(s, from, tokens, n) == s.subrange(from, tokens[n - 1].end as int),
    decreases n,
{
    let token = tokens[n - 1];
    assert(token.within(s));
    if n == 1 {
        assert(rebuilt(s, from, tokens, 0) =~= Seq::<u8>::empty());
        assert(rebuilt(s, from, tokens, 1) =~= s.subrange(from, token.end as int));
    } else {
        lemma_rebuilt_prefix(s, from, tokens, n - 1);
        assert(followed(s, tokens, n - 2));
        assert(tokens[n - 2].within(s));
        assert(rebuilt(s, from, tokens, n) =~= s.subrange(from, token.end as int));
    }
}

/// The text is made of its tokens and of separators, and of nothing else.
/// Where a text has tokens, they are well formed, so that only blanks and
/// quotes lie before, between and behind their spans; and the spans and what
/// lies between them, one after the other, are the text.
pub proof fn lemma_tokens_cover_source(s: Seq<u8>)
    requires
        valid_utf8(s),
        s.len() <= usize::MAX,
        tokens_of(s) is Ok,
    ensures
        well_formed(s, 0, tokens_of(s)->Ok_0),
        rebuilt(s, 0, tokens_of(s)->Ok_0, tokens_of(s)->Ok_0.len() as int) == s,
{
    let tokens = tokens_of(s)->Ok_0;
    lemma_tokens_well_formed(s, 0);
    lemma_rebuilt_prefix(s, 0, tokens, tokens.len() as int);
    assert(s.subrange(0, s.len() as int) =~= s);
}

} // verus!
