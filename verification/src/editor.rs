//! The line-editor state behind interactive share entry: a character buffer
//! and a cursor. Every editing decision is made here; reading key events and
//! painting the terminal stay outside.

use vstd::prelude::*;

verus! {

/// The buffer can always grow by one character and its byte length fits the
/// platform.
pub const TEXT_CAPACITY: usize = 0x3fffffff;

/// One editing keystroke, as the decision layer sees it.
#[derive(Debug, Clone, Copy, PartialEq, Eq, Structural)]
pub enum KeyInput {
    /// Insert a character at the cursor.
    Char(char),
    /// Move the cursor one place left.
    Left,
    /// Move the cursor one place right.
    Right,
    /// Move the cursor to the start.
    Home,
    /// Move the cursor past the end.
    End,
    /// Delete the character before the cursor.
    Backspace,
}

/// Editor state: the text and the cursor's character index.
pub struct Input {
    /// The characters entered so far.
    pub text: Vec<char>,
    /// Where the next character lands, between zero and the text length.
    pub char_index: usize,
}

/// The cursor sits inside the text, and the text stays small enough that
/// byte indices cannot overflow.
pub open spec fn input_wf(inp: Input) -> bool {
    inp.char_index <= inp.text@.len() && inp.text@.len() <= TEXT_CAPACITY
}

/// How many bytes a character occupies in eight-bit transfer encoding.
pub open spec fn utf8_char_len(c: char) -> nat {
    if (c as u32) < 0x80 {
        1
    } else if (c as u32) < 0x800 {
        2
    } else if (c as u32) < 0x10000 {
        3
    } else {
        4
    }
}

/// The byte length of the first `k` characters.
pub open spec fn utf8_prefix_len(s: Seq<char>, k: int) -> nat
    decreases k,
{
    if k <= 0 {
        0
    } else {
        utf8_prefix_len(s, k - 1) + utf8_char_len(s[k - 1])
    }
}

/// A prefix of `k` characters occupies at most four bytes each.
proof fn lemma_utf8_prefix_bound(s: Seq<char>, k: int)
    requires
        0 <= k,
    ensures
        utf8_prefix_len(s, k) <= 4 * k,
    decreases k,
{
    if k > 0 {
        lemma_utf8_prefix_bound(s, k - 1);
    }
}

impl Input {
    /// A fresh, empty editor.
    pub fn new() -> (r: Input)
        ensures
            r.text@.len() == 0,
            r.char_index == 0,
            input_wf(r),
    {
        Input { text: Vec::new(), char_index: 0 }
    }

    /// The byte offset of the cursor within the text's eight-bit transfer
    /// encoding.
    pub fn byte_index(&self) -> (r: usize)
        requires
            input_wf(*self),
        ensures
            r as nat == utf8_prefix_len(self.text@, self.char_index as int),
    {
        let mut total: usize = 0;
        let mut i: usize = 0;
        while i < self.char_index
            invariant
                input_wf(*self),
                i <= self.char_index,
                total as nat == utf8_prefix_len(self.text@, i as int),
                total <= 4 * i,
            decreases self.char_index - i,
        {
            let c = self.text[i];
            let u = c as u32;
            let w: usize = if u < 0x80 {
                1
            } else if u < 0x800 {
                2
            } else if u < 0x10000 {
                3
            } else {
                4
            };
            proof {
                lemma_utf8_prefix_bound(self.text@, i as int + 1);
            }
            total = total + w;
            i = i + 1;
        }
        total
    }

    /// Moves the cursor one place right, clamped to the text's end.
    pub fn cursor_right(&mut self)
        requires
            input_wf(*old(self)),
        ensures
            input_wf(*final(self)),
            final(self).text == old(self).text,
            final(self).char_index == if old(self).char_index + 1 <= old(self).text@.len() {
                old(self).char_index + 1
            } else {
                old(self).text@.len() as int
            },
    {
        if self.char_index < self.text.len() {
            self.char_index = self.char_index + 1;
        }
    }

    /// Moves the cursor one place left, clamped to the start.
    pub fn cursor_left(&mut self)
        requires
            input_wf(*old(self)),
        ensures
            input_wf(*final(self)),
            final(self).text == old(self).text,
            final(self).char_index == if old(self).char_index > 0 {
                old(self).char_index - 1
            } else {
                0int
            },
    {
        if self.char_index > 0 {
            self.char_index = self.char_index - 1;
        }
    }

    /// Applies one keystroke: inserting at the cursor (dropped when the
    /// buffer is at capacity), moving, or deleting before the cursor.
    pub fn apply_key(&mut self, key: KeyInput)
        requires
            input_wf(*old(self)),
        ensures
            input_wf(*final(self)),
            match key {
                KeyInput::Char(c) => if old(self).text@.len() < TEXT_CAPACITY {
                    final(self).text@ == old(self).text@.insert(old(self).char_index as int, c)
                        && final(self).char_index == old(self).char_index + 1
                } else {
                    *final(self) == *old(self)
                },
                KeyInput::Left => final(self).text == old(self).text && final(self).char_index
                    == if old(self).char_index > 0 {
                    old(self).char_index - 1
                } else {
                    0int
                },
                KeyInput::Right => final(self).text == old(self).text && final(self).char_index
                    == if old(self).char_index + 1 <= old(self).text@.len() {
                    old(self).char_index + 1
                } else {
                    old(self).text@.len() as int
                },
                KeyInput::Home => final(self).text == old(self).text && final(self).char_index
                    == 0,
                KeyInput::End => final(self).text == old(self).text && final(self).char_index
                    == old(self).text@.len(),
                KeyInput::Backspace => if old(self).char_index > 0 {
                    final(self).text@ == old(self).text@.remove(old(self).char_index - 1)
                        && final(self).char_index == old(self).char_index - 1
                } else {
                    *final(self) == *old(self)
                },
            },
    {
        match key {
            KeyInput::Char(c) => {
                if self.text.len() < TEXT_CAPACITY {
                    self.text.insert(self.char_index, c);
                    self.char_index = self.char_index + 1;
                }
            },
            KeyInput::Left => {
                self.cursor_left();
            },
            KeyInput::Right => {
                self.cursor_right();
            },
            KeyInput::Home => {
                self.char_index = 0;
            },
            KeyInput::End => {
                self.char_index = self.text.len();
            },
            KeyInput::Backspace => {
                if self.char_index > 0 {
                    self.text.remove(self.char_index - 1);
                    self.char_index = self.char_index - 1;
                }
            },
        }
    }
}

} // verus!
