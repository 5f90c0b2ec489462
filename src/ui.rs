use vstd::prelude::*;
use crate::filter::is_boundary;
use crate::filter::is_start_of_word;

verus! {

/// Text attributes of the SGR escape sequence.
#[derive(Debug, Clone, Copy, PartialEq, Eq, Structural)]
pub enum Attributes {
    Reset,
    Reverse,
    FgCyan,
    FgDefault,
}

impl Attributes {
    /// The SGR code of the attribute.
    pub fn tou8(&self) -> (r: u8)
        ensures
            r == match *self {
                Attributes::Reset => 0u8,
                Attributes::Reverse => 7u8,
                Attributes::FgCyan => 36u8,
                Attributes::FgDefault => 39u8,
            },
    {
        match self {
            Attributes::Reset => 0,
            Attributes::Reverse => 7,
            Attributes::FgCyan => 36,
            Attributes::FgDefault => 39,
        }
    }
}

/// A decoded key press.
#[derive(Clone, Copy, Debug, PartialEq, Eq, Structural)]
pub enum Key {
    Character(u8),
    Control(u8),
    Esc,
    Up,
    Down,
    Left,
    Right,
    Backspace,
    Delete,
    Enter,
}

/// What a key press asks of the session.
#[derive(Clone, Copy, Debug, PartialEq, Eq, Structural)]
pub enum Action {
    Byte(u8),
    LineUp,
    LineDown,
    CursorLeft,
    CursorLeftMost,
    CursorRight,
    CursorRightMost,
    Backspace,
    Delete,
    DeleteWord,
    DeleteLine,
    Select,
    Close,
    Pass,
}

pub open spec fn ctrl_of(ch: u8) -> u8 {
    ch & 0x1f
}

/// The byte that Ctrl together with the letter `ch` sends.
pub fn ctrl(ch: u8) -> (r: u8)
    ensures
        r == ctrl_of(ch),
{
    ch & 0x1f
}

/// The action bound to a control byte.
pub open spec fn ctrl_action(key: u8) -> Action {
    if key == ctrl_of(99) {
        Action::Close
    } else if key == ctrl_of(119) {
        Action::DeleteWord
    } else if key == ctrl_of(117) {
        Action::DeleteLine
    } else if key == ctrl_of(104) {
        Action::Backspace
    } else if key == ctrl_of(97) {
        Action::CursorLeftMost
    } else if key == ctrl_of(101) {
        Action::CursorRightMost
    } else if key == ctrl_of(100) {
        Action::Delete
    } else if key == ctrl_of(102) {
        Action::CursorRight
    } else if key == ctrl_of(98) {
        Action::CursorLeft
    } else if key == ctrl_of(112) || key == ctrl_of(107) {
        Action::LineUp
    } else if key == ctrl_of(110) || key == ctrl_of(106) {
        Action::LineDown
    } else {
        Action::Pass
    }
}

/// Maps a control byte to its action: Ctrl-C closes, Ctrl-W deletes a word,
/// Ctrl-U the line, Ctrl-H a byte back, Ctrl-A/E go to the start/end,
/// Ctrl-D deletes forward, Ctrl-F/B move the caret, Ctrl-P/K and Ctrl-N/J
/// move the selection; any other byte does nothing.
pub fn ctrl_to_action(key: u8) -> (r: Action)
    ensures
        r == ctrl_action(key),
{
    if key == ctrl(99) {
        Action::Close
    } else if key == ctrl(119) {
        Action::DeleteWord
    } else if key == ctrl(117) {
        Action::DeleteLine
    } else if key == ctrl(104) {
        Action::Backspace
    } else if key == ctrl(97) {
        Action::CursorLeftMost
    } else if key == ctrl(101) {
        Action::CursorRightMost
    } else if key == ctrl(100) {
        Action::Delete
    } else if key == ctrl(102) {
        Action::CursorRight
    } else if key == ctrl(98) {
        Action::CursorLeft
    } else if key == ctrl(112) || key == ctrl(107) {
        Action::LineUp
    } else if key == ctrl(110) || key == ctrl(106) {
        Action::LineDown
    } else {
        Action::Pass
    }
}

/// The action bound to a key.
pub open spec fn key_action(key: Key) -> Action {
    match key {
        Key::Character(c) => Action::Byte(c),
        Key::Control(c) => ctrl_action(c),
        Key::Backspace => Action::Backspace,
        Key::Delete => Action::Delete,
        Key::Up => Action::LineUp,
        Key::Down => Action::LineDown,
        Key::Left => Action::CursorLeft,
        Key::Right => Action::CursorRight,
        Key::Enter => Action::Select,
        Key::Esc => Action::Close,
    }
}

pub fn key_to_action(key: Key) -> (r: Action)
    ensures
        r == key_action(key),
{
    match key {
        Key::Character(c) => Action::Byte(c),
        Key::Control(c) => ctrl_to_action(c),
        Key::Backspace => Action::Backspace,
        Key::Delete => Action::Delete,
        Key::Up => Action::LineUp,
        Key::Down => Action::LineDown,
        Key::Left => Action::CursorLeft,
        Key::Right => Action::CursorRight,
        Key::Enter => Action::Select,
        Key::Esc => Action::Close,
    }
}

/// A control character in the C locale.
pub open spec fn is_cntrl(b: u8) -> bool {
    b < 32 || b == 127
}

/// A printable character in the C locale.
pub open spec fn is_print(b: u8) -> bool {
    32 <= b <= 126
}

/// The key that a single byte read from the terminal stands for; `None` for
/// the escape byte, which needs the bytes after it.
pub open spec fn key_of(b: u8) -> Option<Key> {
    if b == 27 {
        None
    } else if b == 13 {
        Some(Key::Enter)
    } else if b == 127 {
        Some(Key::Backspace)
    } else if is_cntrl(b) {
        Some(Key::Control(b))
    } else if is_print(b) {
        Some(Key::Character(b))
    } else {
        Some(Key::Esc)
    }
}

/// Classifies one byte read from the terminal.
pub fn key_of_byte(b: u8) -> (r: Option<Key>)
    ensures
        r == key_of(b),
{
    if b == 27 {
        None
    } else if b == 13 {
        Some(Key::Enter)
    } else if b == 127 {
        Some(Key::Backspace)
    } else if b < 32 || b == 127 {
        Some(Key::Control(b))
    } else if 32 <= b && b <= 126 {
        Some(Key::Character(b))
    } else {
        Some(Key::Esc)
    }
}

/// The key for the bytes that followed an escape byte; `None` while
/// `ESC [ 3` (or `ESC O 3`) waits for its closing `~`. Arrow keys come as
/// `ESC [` or `ESC O` and a letter A to D; anything else is a plain Escape.
pub open spec fn escape_key(seq: Seq<u8>) -> Option<Key> {
    if seq.len() >= 2 && (seq[0] == 79 || seq[0] == 91) {
        if seq[1] == 65 {
            Some(Key::Up)
        } else if seq[1] == 66 {
            Some(Key::Down)
        } else if seq[1] == 67 {
            Some(Key::Right)
        } else if seq[1] == 68 {
            Some(Key::Left)
        } else if seq[1] == 51 {
            if seq.len() == 2 {
                None
            } else if seq[2] == 126 {
                Some(Key::Delete)
            } else {
                Some(Key::Esc)
            }
        } else {
            Some(Key::Esc)
        }
    } else {
        Some(Key::Esc)
    }
}

/// Decodes the bytes read after an escape byte.
pub fn decode_escape(seq: &[u8]) -> (r: Option<Key>)
    ensures
        r == escape_key(seq@),
{
    if seq.len() >= 2 && (seq[0] == 79 || seq[0] == 91) {
        if seq[1] == 65 {
            Some(Key::Up)
        } else if seq[1] == 66 {
            Some(Key::Down)
        } else if seq[1] == 67 {
            Some(Key::Right)
        } else if seq[1] == 68 {
            Some(Key::Left)
        } else if seq[1] == 51 {
            read_delete(seq)
        } else {
            Some(Key::Esc)
        }
    } else {
        Some(Key::Esc)
    }
}

/// The end of a Delete sequence: `~` after `ESC [ 3`.
fn read_delete(seq: &[u8]) -> (r: Option<Key>)
    requires
        seq@.len() >= 2,
    ensures
        r == (if seq@.len() == 2 {
            None
        } else if seq@[2] == 126 {
            Some(Key::Delete)
        } else {
            Some(Key::Esc)
        }),
{
    if seq.len() == 2 {
        None
    } else if seq[2] == 126 {
        Some(Key::Delete)
    } else {
        Some(Key::Esc)
    }
}


/// What the session asks of its caller after an action.
#[derive(Clone, Copy, Debug, PartialEq, Eq, Structural)]
pub enum Outcome {
    /// Keep reading keys.
    Continue,
    /// End without a selection.
    Close,
    /// End with the given row of the filtered list selected.
    Commit(usize),
}

/// The edit state of an interactive session: the query typed so far, the
/// caret as a byte offset into it, and the selected row.
#[derive(Clone, Debug)]
pub struct Session {
    pub query: Vec<u8>,
    pub cursor: usize,
    pub selected: usize,
}

/// A session as mathematical values.
pub struct SessionView {
    pub query: Seq<u8>,
    pub cursor: int,
    pub selected: int,
}

/// Start of the run of bytes before `i` whose boundary status is `b`.
pub open spec fn skip_back(q: Seq<u8>, i: int, b: bool) -> int
    decreases i,
{
    if i <= 0 {
        0
    } else if is_boundary(q[i - 1]) == b {
        skip_back(q, i - 1, b)
    } else {
        i
    }
}

/// Where deleting the word before the caret stops: back over boundary bytes,
/// then over the word before them.
pub open spec fn word_start(q: Seq<u8>, cursor: int) -> int {
    skip_back(q, skip_back(q, cursor, true), false)
}

/// The session after `a`, with `rows` rows in the filtered list, and what
/// the caller is to do. The selection goes back to the first row whenever
/// the query changes.
pub open spec fn step(s: SessionView, a: Action, rows: int) -> (SessionView, Outcome) {
    let q = s.query;
    let c = s.cursor;
    let edited = |nq: Seq<u8>, nc: int| (SessionView { query: nq, cursor: nc, selected: if nq == q { s.selected } else { 0 } }, Outcome::Continue);
    let moved = |nc: int| (SessionView { cursor: nc, ..s }, Outcome::Continue);
    let row = |ns: int| (SessionView { selected: ns, ..s }, Outcome::Continue);
    match a {
        Action::Byte(b) => if q.len() + 1 < usize::MAX { edited(q.insert(c, b), c + 1) } else { (s, Outcome::Continue) },
        Action::Backspace => if c > 0 { edited(q.remove(c - 1), c - 1) } else { (s, Outcome::Continue) },
        Action::Delete => if c < q.len() { edited(q.remove(c), c) } else { (s, Outcome::Continue) },
        Action::DeleteWord => edited(q.subrange(0, word_start(q, c)) + q.subrange(c, q.len() as int), word_start(q, c)),
        Action::DeleteLine => edited(seq![], 0),
        Action::CursorLeft => moved(if c > 0 { c - 1 } else { c }),
        Action::CursorRight => moved(if c < q.len() { c + 1 } else { c }),
        Action::CursorLeftMost => moved(0),
        Action::CursorRightMost => moved(q.len() as int),
        Action::LineUp => row(if s.selected > 0 { s.selected - 1 } else { s.selected }),
        Action::LineDown => row(if s.selected + 1 < rows { s.selected + 1 } else { s.selected }),
        Action::Select => (s, if 0 <= s.selected < rows { Outcome::Commit(s.selected as usize) } else { Outcome::Continue }),
        Action::Close => (s, Outcome::Close),
        Action::Pass => (s, Outcome::Continue),
    }
}

impl Session {
    pub open spec fn view(&self) -> SessionView {
        SessionView { query: self.query@, cursor: self.cursor as int, selected: self.selected as int }
    }

    /// The caret lies within the query, whose length leaves room to grow.
    pub open spec fn wf(&self) -> bool {
        &&& self.cursor <= self.query@.len()
        &&& self.query@.len() < usize::MAX
    }

    /// An empty query with the first row selected.
    pub fn new() -> (r: Session)
        ensures
            r.wf(),
            r.query@.len() == 0,
            r.cursor == 0,
            r.selected == 0,
    {
        Session { query: Vec::new(), cursor: 0, selected: 0 }
    }

    /// Applies one action with `rows` rows in the filtered list.
    pub fn apply(&mut self, action: Action, rows: usize) -> (r: Outcome)
        requires
            old(self).wf(),
        ensures
            final(self).wf(),
            (final(self).view(), r) == step(old(self).view(), action, rows as int),
    {
        let ghost s0 = self.view();
        match action {
            Action::Byte(b) => {
                if self.query.len() + 1 < usize::MAX {
                    self.query.insert(self.cursor, b);
                    self.cursor = self.cursor + 1;
                    self.selected = 0;
                    assert(self.query@.len() == s0.query.len() + 1);
                }
                Outcome::Continue
            },
            Action::Backspace => {
                if self.cursor > 0 {
                    self.query.remove(self.cursor - 1);
                    self.cursor = self.cursor - 1;
                    self.selected = 0;
                    assert(self.query@.len() == s0.query.len() - 1);
                }
                Outcome::Continue
            },
            Action::Delete => {
                if self.cursor < self.query.len() {
                    self.query.remove(self.cursor);
                    self.selected = 0;
                    assert(self.query@.len() == s0.query.len() - 1);
                }
                Outcome::Continue
            },
            Action::DeleteWord => {
                let before = self.cursor;
                action_delete_word(&mut self.query, &mut self.cursor);
                if self.cursor != before {
                    self.selected = 0;
                    assert(self.query@.len() < s0.query.len());
                } else {
                    assert(self.query@ =~= s0.query);
                }
                Outcome::Continue
            },
            Action::DeleteLine => {
                if self.query.len() > 0 {
                    self.selected = 0;
                }
                self.query.clear();
                self.cursor = 0;
                assert(s0.query.len() == 0 ==> self.query@ =~= s0.query);
                Outcome::Continue
            },
            Action::CursorLeft => {
                if self.cursor > 0 {
                    self.cursor = self.cursor - 1;
                }
                Outcome::Continue
            },
            Action::CursorRight => {
                if self.cursor < self.query.len() {
                    self.cursor = self.cursor + 1;
                }
                Outcome::Continue
            },
            Action::CursorLeftMost => {
                self.cursor = 0;
                Outcome::Continue
            },
            Action::CursorRightMost => {
                self.cursor = self.query.len();
                Outcome::Continue
            },
            Action::LineUp => {
                if self.selected > 0 {
                    self.selected = self.selected - 1;
                }
                Outcome::Continue
            },
            Action::LineDown => {
                if self.selected < rows && self.selected + 1 < rows {
                    self.selected = self.selected + 1;
                }
                Outcome::Continue
            },
            Action::Select => {
                if self.selected < rows {
                    Outcome::Commit(self.selected)
                } else {
                    Outcome::Continue
                }
            },
            Action::Close => Outcome::Close,
            Action::Pass => Outcome::Continue,
        }
    }
}


fn skip_back_exec(q: &Vec<u8>, i: usize, b: bool) -> (r: usize)
    requires
        i <= q@.len(),
    ensures
        r == skip_back(q@, i as int, b),
        r <= i,
{
    let mut j: usize = i;
    while j > 0 && is_start_of_word(q[j - 1]) == b
        invariant
            j <= i <= q@.len(),
            skip_back(q@, i as int, b) == skip_back(q@, j as int, b),
        decreases j,
    {
        j = j - 1;
    }
    j
}

/// Deletes the word before the caret: first the boundary bytes right before
/// it, then the run of other bytes before those. The caret moves to where the
/// deletion began.
pub fn action_delete_word(query: &mut Vec<u8>, cursor: &mut usize)
    requires
        *old(cursor) <= old(query)@.len(),
    ensures
        *final(cursor) == word_start(old(query)@, *old(cursor) as int),
        *final(cursor) <= *old(cursor),
        final(query)@ == old(query)@.subrange(0, *final(cursor) as int)
            + old(query)@.subrange(*old(cursor) as int, old(query)@.len() as int),
{
    let end = *cursor;
    let mid = skip_back_exec(query, end, true);
    let start = skip_back_exec(query, mid, false);
    let ghost q0 = query@;
    let mut k: usize = 0;
    while k < end - start
        invariant
            start <= end <= q0.len(),
            k <= end - start,
            query@ == q0.subrange(0, start as int) + q0.subrange(start + k, q0.len() as int),
        decreases end - start - k,
    {
        query.remove(start);
        k = k + 1;
        proof {
            assert(query@ =~= q0.subrange(0, start as int) + q0.subrange(start + k, q0.len() as int));
        }
    }
    *cursor = start;
}

} // verus!
