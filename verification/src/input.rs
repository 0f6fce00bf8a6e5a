//! The line buffer: the text that a user is typing, and the place of the
//! cursor in it.
//!
//! Reading keys and drawing on the terminal are the caller's work. What a
//! key does to the text is decided here: the caller reports each key and is
//! told what has changed.

use vstd::prelude::*;

verus! {

/// A key that a user has pressed.
#[derive(Clone, Copy, Debug, PartialEq, Eq, Structural)]
pub enum Key {
    /// A character. The newline is the enter key.
    Char(char),
    Backspace,
    Left,
    Right,
    /// Any other key.
    Other,
}

/// What a key has changed.
#[derive(Clone, Debug, PartialEq, Eq)]
pub enum Update {
    /// Nothing.
    Nothing,
    /// The text: it is to be drawn again.
    Text,
    /// The cursor, which has moved one place to the left.
    CursorLeft,
    /// The cursor, which has moved one place to the right.
    CursorRight,
    /// The line is complete. These are its characters; the buffer is empty
    /// again.
    Submit(Vec<char>),
    /// Enter was pressed on an empty line: only the prompt is due again.
    Prompt,
}

/// What a key has changed, as plain text.
#[verifier::ext_equal]
pub enum UpdateView {
    Nothing,
    Text,
    CursorLeft,
    CursorRight,
    Submit(Seq<char>),
    Prompt,
}

impl View for Update {
    type V = UpdateView;

    open spec fn view(&self) -> UpdateView {
        match self {
            Update::Nothing => UpdateView::Nothing,
            Update::Text => UpdateView::Text,
            Update::CursorLeft => UpdateView::CursorLeft,
            Update::CursorRight => UpdateView::CursorRight,
            Update::Submit(line) => UpdateView::Submit(line@),
            Update::Prompt => UpdateView::Prompt,
        }
    }
}

/// A line buffer as plain text: the characters, and how many of them stand
/// before the cursor.
#[verifier::ext_equal]
pub struct LineView {
    pub text: Seq<char>,
    pub cursor: int,
}

impl LineView {
    /// The cursor stands in the text or at its end.
    pub open spec fn wf(self) -> bool {
        0 <= self.cursor <= self.text.len()
    }

    /// The empty line.
    pub open spec fn empty() -> LineView {
        LineView { text: Seq::empty(), cursor: 0 }
    }

    /// The line after a key. Enter empties it. A character goes in at the
    /// cursor, which moves behind it. Backspace takes out the character
    /// before the cursor. Left and right move the cursor by one place, as far
    /// as the text goes.
    pub open spec fn pressed(self, key: Key) -> LineView {
        match key {
            Key::Char(c) => if c == '\n' {
                LineView::empty()
            } else {
                LineView { text: self.text.insert(self.cursor, c), cursor: self.cursor + 1 }
            },
            Key::Backspace => if self.cursor > 0 {
                LineView { text: self.text.remove(self.cursor - 1), cursor: self.cursor - 1 }
            } else {
                self
            },
            Key::Left => if self.cursor > 0 {
                LineView { cursor: self.cursor - 1, ..self }
            } else {
                self
            },
            Key::Right => if self.cursor < self.text.len() {
                LineView { cursor: self.cursor + 1, ..self }
            } else {
                self
            },
            Key::Other => self,
        }
    }

    /// What a key changes.
    pub open spec fn update(self, key: Key) -> UpdateView {
        match key {
            Key::Char(c) => if c != '\n' {
                UpdateView::Text
            } else if self.text.len() > 0 {
                UpdateView::Submit(self.text)
            } else {
                UpdateView::Prompt
            },
            Key::Backspace => if self.cursor > 0 {
                UpdateView::Text
            } else {
                UpdateView::Nothing
            },
            Key::Left => if self.cursor > 0 {
                UpdateView::CursorLeft
            } else {
                UpdateView::Nothing
            },
            Key::Right => if self.cursor < self.text.len() {
                UpdateView::CursorRight
            } else {
                UpdateView::Nothing
            },
            Key::Other => UpdateView::Nothing,
        }
    }
}

/// The text that a user is typing, and the place of the cursor in it.
pub struct LineBuffer {
    chars: Vec<char>,
    cursor: usize,
}

impl View for LineBuffer {
    type V = LineView;

    closed spec fn view(&self) -> LineView {
        LineView { text: self.chars@, cursor: self.cursor as int }
    }
}

impl LineBuffer {
    #[verifier::type_invariant]
    spec fn inv(self) -> bool {
        self.cursor <= self.chars@.len()
    }

    /// The empty line.
    pub fn new() -> (line: Self)
        ensures
            line@ == LineView::empty(),
    {
        LineBuffer { chars: Vec::new(), cursor: 0 }
    }

    /// The characters of the line.
    pub fn text(&self) -> (text: &Vec<char>)
        ensures
            text@ == self@.text,
    {
        &self.chars
    }

    /// How many characters stand before the cursor.
    pub fn cursor(&self) -> (cursor: usize)
        ensures
            cursor == self@.cursor,
            self@.wf(),
    {
        proof {
            use_type_invariant(self);
        }
        self.cursor
    }

    /// Takes the characters out, which leaves the empty line.
    fn take(&mut self) -> (chars: Vec<char>)
        ensures
            chars@ == old(self)@.text,
            final(self)@ == LineView::empty(),
    {
        let mut chars: Vec<char> = Vec::new();
        self.cursor = 0;
        core::mem::swap(&mut self.chars, &mut chars);
        chars
    }

    /// Puts characters and cursor into the empty line.
    fn put(&mut self, chars: Vec<char>, cursor: usize)
        requires
            old(self)@ == LineView::empty(),
            cursor <= chars@.len(),
        ensures
            final(self)@ == (LineView { text: chars@, cursor: cursor as int }),
    {
        let mut chars = chars;
        core::mem::swap(&mut self.chars, &mut chars);
        self.cursor = cursor;
    }

    /// Takes a key and says what has changed.
    pub fn press(&mut self, key: Key) -> (update: Update)
        ensures
            old(self)@.wf(),
            final(self)@.wf(),
            final(self)@ == old(self)@.pressed(key),
            update@ == old(self)@.update(key),
    {
        let cursor = self.cursor();
        match key {
            Key::Char(c) => {
                if c == '\n' {
                    let line = self.take();
                    if line.len() > 0 {
                        Update::Submit(line)
                    } else {
                        Update::Prompt
                    }
                } else {
                    let mut chars = self.take();
                    chars.insert(cursor, c);
                    let len = chars.len();
                    assert(cursor < len);
                    self.put(chars, cursor + 1);
                    Update::Text
                }
            },
            Key::Backspace => {
                if cursor > 0 {
                    let mut chars = self.take();
                    chars.remove(cursor - 1);
                    self.put(chars, cursor - 1);
                    Update::Text
                } else {
                    Update::Nothing
                }
            },
            Key::Left => {
                if cursor > 0 {
                    self.cursor = cursor - 1;
                    Update::CursorLeft
                } else {
                    Update::Nothing
                }
            },
            Key::Right => {
                proof {
                    use_type_invariant(&*self);
                }
                if cursor < self.chars.len() {
                    self.cursor = cursor + 1;
                    Update::CursorRight
                } else {
                    Update::Nothing
                }
            },
            Key::Other => Update::Nothing,
        }
    }
}

} // verus!
