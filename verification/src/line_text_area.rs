//! A one-line text input with a cursor.

use vstd::prelude::*;
use vstd::string::StringSliceAdditionalSpecFns;
use vstd::utf8::{encode_utf8, encode_utf8_valid_utf8, is_char_boundary, valid_utf8};

use crate::keys::{InputEvent, KeyCode, KeyEvent, KeyEventKind};
use crate::strings::{byte_len, insert_char_at, remove_char_at, string_insert, string_remove, utf8};

verus! {

/// What a text area holds: whether it is selected, the UTF-8 bytes of its text, and the
/// byte position of its cursor.
pub struct LineTextAreaView {
    pub selected: bool,
    pub bytes: Seq<u8>,
    pub pos: int,
}

/// A one-line text input. The cursor is a byte position in the text.
#[derive(Debug)]
pub struct LineTextArea {
    selected: bool,
    buf: String,
    pos: usize,
}

/// The text before the cursor, the character under it (a space past the end) and the text
/// after it, as a renderer shows them; `highlight` tells whether the cursor is drawn
/// highlighted.
pub struct CursorLine<'a> {
    pub before: &'a str,
    pub cursor: &'a str,
    pub after: &'a str,
    pub highlight: bool,
}

impl View for LineTextArea {
    type V = LineTextAreaView;

    closed spec fn view(&self) -> LineTextAreaView {
        LineTextAreaView { selected: self.selected, bytes: utf8(self.buf@), pos: self.pos as int }
    }
}

impl LineTextAreaView {
    /// The cursor lies within the text.
    pub open spec fn wf(self) -> bool {
        0 <= self.pos <= self.bytes.len()
    }

    /// Whether the key can be handled without a character edit at a byte inside a character.
    pub open spec fn key_ok(self, key: KeyEvent) -> bool {
        key.kind == KeyEventKind::Press ==> match key.code {
            KeyCode::Char(_) => is_char_boundary(self.bytes, self.pos),
            KeyCode::Backspace => 0 < self.pos ==> is_char_boundary(self.bytes, self.pos - 1),
            KeyCode::Delete => self.pos < self.bytes.len() ==> is_char_boundary(
                self.bytes,
                self.pos,
            ),
            _ => true,
        }
    }

    /// Whether the event can be handled (see [`LineTextAreaView::key_ok`]).
    pub open spec fn event_ok(self, event: InputEvent) -> bool {
        match event {
            InputEvent::Key(key) => self.key_ok(key),
            InputEvent::Other => true,
        }
    }

    /// The text area after a key event.
    pub open spec fn after_key(self, key: KeyEvent) -> LineTextAreaView {
        if key.kind != KeyEventKind::Press {
            self
        } else {
            match key.code {
                KeyCode::Char(ch) => LineTextAreaView {
                    bytes: insert_char_at(self.bytes, self.pos, ch),
                    pos: self.pos + 1,
                    ..self
                },
                KeyCode::Backspace => if 0 < self.pos {
                    LineTextAreaView {
                        bytes: remove_char_at(self.bytes, self.pos - 1),
                        pos: self.pos - 1,
                        ..self
                    }
                } else {
                    self
                },
                KeyCode::Delete => if self.pos < self.bytes.len() {
                    LineTextAreaView { bytes: remove_char_at(self.bytes, self.pos), ..self }
                } else {
                    self
                },
                KeyCode::Left => if self.pos > 0 {
                    LineTextAreaView { pos: self.pos - 1, ..self }
                } else {
                    self
                },
                KeyCode::Right => if self.pos < self.bytes.len() {
                    LineTextAreaView { pos: self.pos + 1, ..self }
                } else {
                    self
                },
                KeyCode::Up | KeyCode::PageUp | KeyCode::Home => LineTextAreaView {
                    pos: 0,
                    ..self
                },
                KeyCode::Down | KeyCode::PageDown | KeyCode::End => LineTextAreaView {
                    pos: self.bytes.len() as int,
                    ..self
                },
                KeyCode::Esc => LineTextAreaView { selected: false, ..self },
                _ => self,
            }
        }
    }

    /// The cursor and the character after it lie on character boundaries, so the text can
    /// be cut around the cursor.
    pub open spec fn renderable(self) -> bool {
        self.bytes.len() > 0 ==> {
            &&& is_char_boundary(self.bytes, self.pos)
            &&& self.pos < self.bytes.len() ==> is_char_boundary(self.bytes, self.pos + 1)
        }
    }

    /// The text area after an event.
    pub open spec fn after_event(self, event: InputEvent) -> LineTextAreaView {
        match event {
            InputEvent::Key(key) => self.after_key(key),
            InputEvent::Other => self,
        }
    }
}

/// The UTF-8 encoding of one character is one to four bytes long.
proof fn lemma_encode_char_len(ch: char)
    ensures
        1 <= encode_utf8(seq![ch]).len() <= 4,
{
    reveal_with_fuel(encode_utf8, 2);
    assert(seq![ch].drop_first() =~= Seq::<char>::empty());
}

/// Taking out the character at a character boundary leaves at least the bytes before it.
proof fn lemma_remove_len(bytes: Seq<u8>, idx: int)
    requires
        valid_utf8(bytes),
        0 <= idx < bytes.len(),
        is_char_boundary(bytes, idx),
    ensures
        remove_char_at(bytes, idx).len() >= idx,
        remove_char_at(bytes, idx).len() < bytes.len(),
{
    vstd::utf8::valid_utf8_split(bytes, idx);
    let rest = bytes.subrange(idx, bytes.len() as int);
    assert(valid_utf8(rest));
    assert(rest.len() != 0);
    assert(vstd::utf8::valid_first_scalar(rest));
    assert(1 <= vstd::utf8::length_of_first_scalar(rest) <= rest.len());
}

/// The press of key `code`.
pub open spec fn press(code: KeyCode) -> KeyEvent {
    KeyEvent { code, kind: KeyEventKind::Press }
}

/// Typing a character and then pressing Backspace gives back the text area as it was:
/// the text, the cursor and the selection.
pub proof fn lemma_type_then_backspace(v: LineTextAreaView, ch: char)
    requires
        v.wf(),
    ensures
        v.after_key(press(KeyCode::Char(ch))).after_key(press(KeyCode::Backspace)) == v,
{
    let e = encode_utf8(seq![ch]);
    let n = v.bytes;
    let p = v.pos;
    let r = n.subrange(p, n.len() as int);
    let typed = insert_char_at(n, p, ch);
    vstd::utf8::encode_utf8_first_scalar(seq![ch]);
    assert(seq![ch].drop_first() =~= Seq::<char>::empty());
    assert(e == vstd::utf8::encode_scalar(ch as u32) + encode_utf8(Seq::<char>::empty()));
    assert(e =~= vstd::utf8::encode_scalar(ch as u32));
    lemma_encode_char_len(ch);
    let tail = typed.subrange(p, typed.len() as int);
    assert(tail =~= e + r);
    assert(tail[0] == e[0]);
    assert(vstd::utf8::length_of_first_scalar(tail) == vstd::utf8::length_of_first_scalar(e));
    assert(vstd::utf8::pop_first_scalar(tail) =~= r);
    assert(typed.subrange(0, p) =~= n.subrange(0, p));
    assert(remove_char_at(typed, p) =~= n);
}

/// Right moves the cursor one byte on, where it is not at the end of the text, and
/// changes nothing else; at the end it changes nothing. Left moves it one byte back, where
/// it is not at the start.
pub proof fn lemma_arrows_step_one(v: LineTextAreaView)
    requires
        v.wf(),
    ensures
        v.pos < v.bytes.len() ==> {
            let w = v.after_key(press(KeyCode::Right));
            w.pos == v.pos + 1 && w.bytes == v.bytes && w.selected == v.selected
        },
        v.pos == v.bytes.len() ==> v.after_key(press(KeyCode::Right)) == v,
        0 < v.pos ==> {
            let w = v.after_key(press(KeyCode::Left));
            w.pos == v.pos - 1 && w.bytes == v.bytes && w.selected == v.selected
        },
        v.pos == 0 ==> v.after_key(press(KeyCode::Left)) == v,
{
}

/// Left undoes Right, and Right undoes Left, away from the ends of the text.
pub proof fn lemma_arrows_undo(v: LineTextAreaView)
    requires
        v.wf(),
    ensures
        v.pos < v.bytes.len() ==> v.after_key(press(KeyCode::Right)).after_key(
            press(KeyCode::Left),
        ) == v,
        0 < v.pos ==> v.after_key(press(KeyCode::Left)).after_key(press(KeyCode::Right)) == v,
{
}

/// The cursor keys move the cursor only: the text and the selection stay, and the cursor
/// stays within the text. Home and Up go to the start, End and Down to the end.
pub proof fn lemma_cursor_keys_keep_text(v: LineTextAreaView, code: KeyCode)
    requires
        v.wf(),
        code == KeyCode::Left || code == KeyCode::Right || code == KeyCode::Up || code
            == KeyCode::Down || code == KeyCode::Home || code == KeyCode::End || code
            == KeyCode::PageUp || code == KeyCode::PageDown,
    ensures
        v.after_key(press(code)).bytes == v.bytes,
        v.after_key(press(code)).selected == v.selected,
        v.after_key(press(code)).wf(),
        (code == KeyCode::Home || code == KeyCode::Up) ==> v.after_key(press(code)).pos == 0,
        (code == KeyCode::End || code == KeyCode::Down) ==> v.after_key(press(code)).pos
            == v.bytes.len(),
{
}

impl LineTextArea {
    /// A text area holding `buf`, its cursor at byte `pos`, not selected.
    pub fn new(buf: String, pos: usize) -> (t: LineTextArea)
        requires
            pos <= utf8(buf@).len(),
        ensures
            t@ == (LineTextAreaView { selected: false, bytes: utf8(buf@), pos: pos as int }),
            t@.wf(),
    {
        LineTextArea { selected: false, buf, pos }
    }

    /// The text.
    pub fn get_buf(&self) -> (s: &str)
        ensures
            utf8(s@) == self@.bytes,
    {
        self.buf.as_str()
    }

    /// Return the selection status.
    pub fn selected(&self) -> (b: bool)
        ensures
            b == self@.selected,
    {
        self.selected
    }

    /// The byte position of the cursor.
    pub fn pos(&self) -> (p: usize)
        ensures
            p == self@.pos,
    {
        self.pos
    }

    /// The text around the cursor, as drawn: the bytes before it, the one-byte character
    /// under it (a space at the end of the text), and the bytes after that character. An
    /// empty text area shows a highlighted space; otherwise the cursor is highlighted
    /// exactly where the area is selected.
    pub fn cursor_line(&self) -> (line: CursorLine)
        requires
            self@.wf(),
            self@.renderable(),
        ensures
            self@.bytes.len() == 0 ==> utf8(line.before@) == Seq::<u8>::empty() && line.cursor@
                == " "@ && utf8(line.after@) == Seq::<u8>::empty() && line.highlight,
            self@.bytes.len() > 0 ==> {
                &&& utf8(line.before@) == self@.bytes.subrange(0, self@.pos)
                &&& self@.pos < self@.bytes.len() ==> utf8(line.cursor@) == self@.bytes.subrange(
                    self@.pos,
                    self@.pos + 1,
                ) && utf8(line.after@) == self@.bytes.subrange(
                    self@.pos + 1,
                    self@.bytes.len() as int,
                )
                &&& self@.pos == self@.bytes.len() ==> line.cursor@ == " "@ && utf8(line.after@)
                    == Seq::<u8>::empty()
                &&& line.highlight == self@.selected
            },
    {
        let s = self.buf.as_str();
        assert(s.spec_bytes() == self@.bytes);
        let len = byte_len(s);
        if len == 0 {
            let (before, after) = s.split_at(0);
            proof {
                reveal_strlit(" ");
            }
            return CursorLine { before, cursor: " ", after, highlight: true };
        }
        if self.pos == len {
            let (before, after) = s.split_at(self.pos);
            assert(after.spec_bytes() =~= Seq::<u8>::empty());
            return CursorLine { before, cursor: " ", after, highlight: self.selected };
        }
        let (head, after) = s.split_at(self.pos + 1);
        proof {
            let b = self@.bytes;
            encode_utf8_valid_utf8(s@);
            vstd::utf8::valid_utf8_split(b, self.pos + 1);
            let hb = b.subrange(0, self.pos + 1);
            assert(head.spec_bytes() == hb);
            vstd::utf8::is_char_boundary_iff_not_is_continuation_byte(b, self.pos as int);
            vstd::utf8::is_char_boundary_iff_not_is_continuation_byte(hb, self.pos as int);
        }
        let (before, cursor) = head.split_at(self.pos);
        assert(before.spec_bytes() =~= self@.bytes.subrange(0, self@.pos));
        assert(cursor.spec_bytes() =~= self@.bytes.subrange(self@.pos, self@.pos + 1));
        CursorLine { before, cursor, after, highlight: self.selected }
    }

    /// Whether the text can be cut around the cursor (see [`LineTextArea::cursor_line`]).
    pub fn can_render(&self) -> (b: bool)
        requires
            self@.wf(),
        ensures
            b == self@.renderable(),
    {
        let s = self.buf.as_str();
        assert(s.spec_bytes() == self@.bytes);
        let len = byte_len(s);
        len == 0 || (s.is_char_boundary(self.pos) && (self.pos == len || s.is_char_boundary(
            self.pos + 1,
        )))
    }

    /// Switches between `true` and `false` on every call.
    ///
    /// Returns the new selection state.
    pub fn toggle_selection(&mut self) -> (b: bool)
        ensures
            b == !old(self)@.selected,
            final(self)@ == (LineTextAreaView { selected: b, ..old(self)@ }),
    {
        self.selected = !self.selected;
        self.selected
    }

    /// Select the Widget.
    pub fn select(&mut self)
        ensures
            final(self)@ == (LineTextAreaView { selected: true, ..old(self)@ }),
    {
        self.selected = true;
    }

    /// Deselect the Widget.
    pub fn deselect(&mut self)
        ensures
            final(self)@ == (LineTextAreaView { selected: false, ..old(self)@ }),
    {
        self.selected = false;
    }

    /// Empties the text and puts the cursor at its start.
    pub fn clear(&mut self)
        ensures
            final(self)@ == (LineTextAreaView {
                bytes: Seq::<u8>::empty(),
                pos: 0,
                ..old(self)@
            }),
    {
        self.buf = String::new();
        self.pos = 0;
        assert(utf8(self.buf@) =~= Seq::<u8>::empty());
    }

    /// Whether `event` can be handled; where it cannot, handling it would edit inside a
    /// character.
    pub fn can_handle(&self, event: &InputEvent) -> (b: bool)
        ensures
            b == self@.event_ok(*event),
    {
        match event {
            InputEvent::Key(key) => self.can_handle_key(key),
            InputEvent::Other => true,
        }
    }

    fn can_handle_key(&self, key: &KeyEvent) -> (b: bool)
        ensures
            b == self@.key_ok(*key),
    {
        if !key.is_press() {
            return true;
        }
        let s = self.buf.as_str();
        assert(s.spec_bytes() == self@.bytes);
        match key.code {
            KeyCode::Char(_) => s.is_char_boundary(self.pos),
            KeyCode::Backspace => self.pos == 0 || s.is_char_boundary(self.pos - 1),
            KeyCode::Delete => self.pos >= byte_len(s) || s.is_char_boundary(self.pos),
            _ => true,
        }
    }

    /// Handles a terminal event: key presses edit the text or move the cursor.
    pub fn handle_event(&mut self, event: &InputEvent)
        requires
            old(self)@.wf(),
            old(self)@.event_ok(*event),
        ensures
            final(self)@ == old(self)@.after_event(*event),
            final(self)@.wf(),
    {
        match event {
            InputEvent::Key(key) => self.handle_key_event(key),
            InputEvent::Other => {},
        }
    }

    fn handle_key_event(&mut self, key: &KeyEvent)
        requires
            old(self)@.wf(),
            old(self)@.key_ok(*key),
        ensures
            final(self)@ == old(self)@.after_key(*key),
            final(self)@.wf(),
    {
        proof {
            encode_utf8_valid_utf8(self.buf@);
        }
        if !key.is_press() {
            return ;
        }
        let ghost old_view = self@;
        match key.code {
            KeyCode::Char(ch) => {
                proof {
                    lemma_encode_char_len(ch);
                }
                string_insert(&mut self.buf, self.pos, ch);
                self.pos = self.pos + 1;
                assert(self@.bytes == insert_char_at(old_view.bytes, old_view.pos, ch));
                assert(self@.pos == old_view.pos + 1);
                assert(old_view.after_key(*key).bytes == insert_char_at(old_view.bytes, old_view.pos, ch));
            },
            KeyCode::Backspace => {
                if 0 < self.pos {
                    proof {
                        lemma_remove_len(utf8(self.buf@), self.pos - 1);
                    }
                    let _ = string_remove(&mut self.buf, self.pos - 1);
                    self.pos = self.pos - 1;
                }
            },
            KeyCode::Delete => {
                if self.pos < byte_len(self.buf.as_str()) {
                    proof {
                        lemma_remove_len(utf8(self.buf@), self.pos as int);
                    }
                    let _ = string_remove(&mut self.buf, self.pos);
                }
            },
            KeyCode::Left => {
                if self.pos > 0 {
                    self.pos = self.pos - 1;
                }
            },
            KeyCode::Right => {
                if self.pos < byte_len(self.buf.as_str()) {
                    self.pos = self.pos + 1;
                }
            },
            KeyCode::Up | KeyCode::PageUp | KeyCode::Home => {
                self.pos = 0;
            },
            KeyCode::Down | KeyCode::PageDown | KeyCode::End => {
                self.pos = byte_len(self.buf.as_str());
            },
            KeyCode::Esc => self.deselect(),
            _ => {},
        }
    }
}

} // verus!
