//! A one-line text field: it takes the focus when clicked, moves its cursor with the arrow
//! keys, and inserts or erases characters at the cursor. The cursor is a byte position in
//! the UTF-8 encoding of the content.

use vstd::prelude::*;
use vstd::utf8::{
    decode_utf8, encode_utf8, encode_utf8_decode_utf8, encode_utf8_valid_utf8, is_ascii_chars,
    is_ascii_chars_encode_utf8, is_char_boundary, is_char_boundary_iff_not_is_continuation_byte,
    is_char_boundary_start_end_of_seq,
};
use crate::event::{ButtonState, Event, EventData, KeyCode, KeyEvent, MouseButton};

verus! {

/// `String::insert`: puts `ch` into `s` at byte position `idx`, which must be a character
/// boundary of `s`; the characters before that position keep their place, and those from
/// it on follow `ch`.
#[verifier::external_body]
fn string_insert(s: &mut String, idx: usize, ch: char)
    requires
        is_char_boundary(encode_utf8(old(s)@), idx as int),
    ensures
        final(s)@ == chars_before(old(s)@, idx as int) + seq![ch] + chars_after(old(s)@, idx as int),
{
    s.insert(idx, ch)
}

/// `String::remove`: takes out of `s` the character that starts at byte position `idx`,
/// which must be a character boundary before the end of `s`, and returns it.
#[verifier::external_body]
fn string_remove(s: &mut String, idx: usize) -> (r: char)
    requires
        is_char_boundary(encode_utf8(old(s)@), idx as int),
        idx < encode_utf8(old(s)@).len(),
    ensures
        r == chars_after(old(s)@, idx as int)[0],
        final(s)@ == chars_before(old(s)@, idx as int) + chars_after(old(s)@, idx as int).drop_first(),
{
    s.remove(idx)
}

/// `String::len`: the number of bytes in the UTF-8 encoding of `s`.
#[verifier::external_body]
fn string_len(s: &String) -> (r: usize)
    ensures
        r == encode_utf8(s@).len(),
{
    s.len()
}

/// The characters of `s` whose encoding lies before byte position `i`.
pub open spec fn chars_before(s: Seq<char>, i: int) -> Seq<char> {
    decode_utf8(encode_utf8(s).take(i))
}

/// The characters of `s` whose encoding lies from byte position `i` on.
pub open spec fn chars_after(s: Seq<char>, i: int) -> Seq<char> {
    decode_utf8(encode_utf8(s).skip(i))
}

/// The encoding of an ASCII text splits where its characters do: the bytes before (and
/// from) byte position `i` encode the characters before (and from) position `i`, and every
/// position up to the end is a character boundary.
pub proof fn lemma_ascii_split(s: Seq<char>, i: int)
    requires
        is_ascii_chars(s),
        0 <= i <= s.len(),
    ensures
        encode_utf8(s).len() == s.len(),
        is_char_boundary(encode_utf8(s), i),
        chars_before(s, i) == s.take(i),
        chars_after(s, i) == s.skip(i),
{
    let bytes = encode_utf8(s);
    is_ascii_chars_encode_utf8(s);
    assert(is_ascii_chars(s.take(i)));
    assert(is_ascii_chars(s.skip(i)));
    is_ascii_chars_encode_utf8(s.take(i));
    is_ascii_chars_encode_utf8(s.skip(i));
    assert(bytes.take(i) =~= encode_utf8(s.take(i))) by {
        assert forall|k: int| 0 <= k < i implies bytes.take(i)[k] == encode_utf8(s.take(i))[k] by {
            assert(s.take(i)[k] == s[k]);
        }
    }
    assert(bytes.skip(i) =~= encode_utf8(s.skip(i))) by {
        assert forall|k: int| 0 <= k < s.len() - i implies bytes.skip(i)[k] == encode_utf8(s.skip(i))[k] by {
            assert(s.skip(i)[k] == s[i + k]);
        }
    }
    encode_utf8_decode_utf8(s.take(i));
    encode_utf8_decode_utf8(s.skip(i));
    encode_utf8_valid_utf8(s);
    if i < s.len() {
        is_char_boundary_iff_not_is_continuation_byte(bytes, i);
        assert(bytes[i] == s[i] as u8);
    } else {
        is_char_boundary_start_end_of_seq(bytes);
    }
}

/// A text field whose content is ASCII text, with the cursor within it.
pub open spec fn ascii_textbox(t: &TextBox) -> bool {
    is_ascii_chars(t.content@) && t.cursor <= t.content@.len()
}

/// The event types no character outside ASCII.
pub open spec fn typed_ascii(event: Event) -> bool {
    match event.data {
        EventData::Character(ch) => '\0' <= ch <= '\u{7f}',
        _ => true,
    }
}

/// The backspace character, which erases the character before the cursor.
pub const BACKSPACE: char = '\x08';

/// A text field: its content, the cursor's byte position, and whether it has the focus.
pub struct TextBox {
    pub content: String,
    pub cursor: usize,
    pub focused: bool,
}

/// What handling an event did to a text field.
#[derive(Clone, Copy, PartialEq, Eq, Structural, Debug)]
pub enum TextBoxUpdate {
    Unchanged,
    NeedRender,
    Modified,
}

/// The inputs on which handling `event` does not fail: erasing needs a character boundary
/// just before the cursor, and inserting needs one at the cursor.
pub open spec fn textbox_can_handle(t: &TextBox, event: Event) -> bool {
    match event.data {
        EventData::Character(ch) => t.focused ==> if ch == BACKSPACE {
            t.cursor > 0 ==> is_char_boundary(encode_utf8(t.content@), t.cursor - 1)
                && t.cursor - 1 < encode_utf8(t.content@).len()
        } else {
            is_char_boundary(encode_utf8(t.content@), t.cursor as int) && t.cursor < usize::MAX
        },
        _ => true,
    }
}

/// Where a key event leaves the cursor, in content of `len` bytes: a pressed Left key
/// moves it one byte back and a pressed Right key one byte forward, within the content.
pub open spec fn key_cursor(cursor: int, len: int, kev: KeyEvent) -> int {
    if kev.state == ButtonState::Pressed && kev.code == KeyCode::Left && cursor > 0 {
        cursor - 1
    } else if kev.state == ButtonState::Pressed && kev.code == KeyCode::Right && cursor < len {
        cursor + 1
    } else {
        cursor
    }
}

impl TextBox {
    /// A text field with the given content, the cursor at the start, without focus.
    pub fn new(content: String) -> (t: TextBox)
        ensures
            t.content == content,
            t.cursor == 0,
            !t.focused,
    {
        TextBox { content, cursor: 0, focused: false }
    }

    /// Replaces the content.
    pub fn set_content(&mut self, content: String)
        ensures
            final(self).content == content,
            final(self).cursor == old(self).cursor,
            final(self).focused == old(self).focused,
    {
        self.content = content;
    }

    /// Gives or takes the focus.
    pub fn set_focused(&mut self, focused: bool)
        ensures
            final(self).focused == focused,
            final(self).content == old(self).content,
            final(self).cursor == old(self).cursor,
    {
        self.focused = focused;
    }

    /// Handles an event. A press of the left button sets the focus to the event's focus.
    /// With the focus: a pressed Left or Right key moves the cursor one byte back or
    /// forward, staying within the content; a character is inserted at the cursor, which
    /// moves past it; backspace erases the character before the cursor. All of these ask
    /// for a redraw; anything else changes nothing.
    pub fn handle(&mut self, event: &Event) -> (r: TextBoxUpdate)
        requires
            textbox_can_handle(old(self), *event),
        ensures
            ascii_textbox(old(self)) && typed_ascii(*event) ==> ascii_textbox(final(self)),
            match event.data {
                EventData::Click { inside: _, button, state } => if button == MouseButton::Left
                    && state == ButtonState::Pressed {
                    &&& r == TextBoxUpdate::NeedRender
                    &&& final(self).focused == event.focus
                    &&& final(self).content == old(self).content
                    &&& final(self).cursor == old(self).cursor
                } else {
                    r == TextBoxUpdate::Unchanged && *final(self) == *old(self)
                },
                EventData::Key(kev) => if old(self).focused {
                    &&& r == TextBoxUpdate::NeedRender
                    &&& final(self).focused == old(self).focused
                    &&& final(self).content == old(self).content
                    &&& final(self).cursor == key_cursor(
                        old(self).cursor as int,
                        encode_utf8(old(self).content@).len() as int,
                        kev,
                    )
                } else {
                    r == TextBoxUpdate::Unchanged && *final(self) == *old(self)
                },
                EventData::Character(ch) => if old(self).focused {
                    &&& r == TextBoxUpdate::NeedRender
                    &&& final(self).focused == old(self).focused
                    &&& if ch == BACKSPACE {
                        if old(self).cursor > 0 {
                            &&& final(self).cursor == old(self).cursor - 1
                            &&& final(self).content@ == chars_before(old(self).content@, old(self).cursor - 1)
                                + chars_after(old(self).content@, old(self).cursor - 1).drop_first()
                        } else {
                            final(self).content == old(self).content && final(self).cursor == old(self).cursor
                        }
                    } else {
                        &&& final(self).cursor == old(self).cursor + 1
                        &&& final(self).content@ == chars_before(old(self).content@, old(self).cursor as int)
                            + seq![ch] + chars_after(old(self).content@, old(self).cursor as int)
                    }
                } else {
                    r == TextBoxUpdate::Unchanged && *final(self) == *old(self)
                },
                EventData::MouseMove { .. } => r == TextBoxUpdate::Unchanged && *final(self) == *old(self),
            },
    {
        let ghost t0 = *self;
        let r = match event.data {
            EventData::Click { inside: _, button, state } => {
                if button == MouseButton::Left && state == ButtonState::Pressed {
                    self.focused = event.focus;
                    TextBoxUpdate::NeedRender
                } else {
                    TextBoxUpdate::Unchanged
                }
            },
            EventData::Key(kev) => {
                if self.focused {
                    if kev.state == ButtonState::Pressed {
                        match kev.code {
                            KeyCode::Left => {
                                if self.cursor > 0 {
                                    self.cursor = self.cursor - 1;
                                }
                            },
                            KeyCode::Right => {
                                if self.cursor < string_len(&self.content) {
                                    self.cursor = self.cursor + 1;
                                }
                            },
                            _ => {},
                        }
                    }
                    TextBoxUpdate::NeedRender
                } else {
                    TextBoxUpdate::Unchanged
                }
            },
            EventData::Character(ch) => {
                if self.focused {
                    if ch == BACKSPACE {
                        if self.cursor > 0 {
                            self.cursor = self.cursor - 1;
                            let _removed = string_remove(&mut self.content, self.cursor);
                        }
                    } else {
                        string_insert(&mut self.content, self.cursor, ch);
                        self.cursor = self.cursor + 1;
                    }
                    TextBoxUpdate::NeedRender
                } else {
                    TextBoxUpdate::Unchanged
                }
            },
            EventData::MouseMove { .. } => TextBoxUpdate::Unchanged,
        };
        proof {
            if ascii_textbox(&t0) && typed_ascii(*event) {
                let c = t0.content@;
                lemma_ascii_split(c, t0.cursor as int);
                match event.data {
                    EventData::Character(ch) => if t0.focused {
                        if ch == BACKSPACE {
                            if t0.cursor > 0 {
                                lemma_ascii_split(c, t0.cursor - 1);
                                let rest = c.skip(t0.cursor - 1).drop_first();
                                assert(self.content@ == c.take(t0.cursor - 1) + rest);
                                assert(is_ascii_chars(self.content@)) by {
                                    assert forall|k: int| 0 <= k < self.content@.len() implies '\0' <= #[trigger] self.content@[k] <= '\u{7f}' by {
                                        if k < t0.cursor - 1 {
                                            assert(self.content@[k] == c[k]);
                                        } else {
                                            assert(self.content@[k] == c[k + 1]);
                                        }
                                    }
                                }
                            }
                        } else {
                            assert(self.content@ == c.take(t0.cursor as int) + seq![ch] + c.skip(t0.cursor as int));
                            assert(is_ascii_chars(self.content@)) by {
                                assert forall|k: int| 0 <= k < self.content@.len() implies '\0' <= #[trigger] self.content@[k] <= '\u{7f}' by {
                                    if k < t0.cursor {
                                        assert(self.content@[k] == c[k]);
                                    } else if k == t0.cursor {
                                        assert(self.content@[k] == ch);
                                    } else {
                                        assert(self.content@[k] == c[k - 1]);
                                    }
                                }
                            }
                        }
                    },
                    _ => {},
                }
            }
        }
        r
    }
}

/// A text field of ASCII text, with its cursor within the text, handles every ASCII
/// event: no character or backspace typed into it can fail.
pub proof fn law_ascii_typing_accepted(t: TextBox, event: Event)
    requires
        ascii_textbox(&t),
        t.content@.len() < usize::MAX,
        typed_ascii(event),
    ensures
        textbox_can_handle(&t, event),
{
    lemma_ascii_split(t.content@, t.cursor as int);
    if t.cursor > 0 {
        lemma_ascii_split(t.content@, t.cursor - 1);
    }
}

/// Typing a character at position `i` of ASCII text and then erasing the character before
/// the cursor, which then stands at `i + 1`, gives back the text as it was.
pub proof fn law_insert_then_erase(s: Seq<char>, i: int, ch: char)
    requires
        is_ascii_chars(s),
        0 <= i <= s.len(),
        '\0' <= ch <= '\u{7f}',
    ensures
        ({
            let typed = chars_before(s, i) + seq![ch] + chars_after(s, i);
            chars_before(typed, i) + chars_after(typed, i).drop_first() == s
        }),
{
    lemma_ascii_split(s, i);
    let typed = chars_before(s, i) + seq![ch] + chars_after(s, i);
    assert(typed == s.take(i) + seq![ch] + s.skip(i));
    assert(is_ascii_chars(typed)) by {
        assert forall|k: int| 0 <= k < typed.len() implies '\0' <= #[trigger] typed[k] <= '\u{7f}' by {
            if k < i {
                assert(typed[k] == s[k]);
            } else if k > i {
                assert(typed[k] == s[k - 1]);
            }
        }
    }
    lemma_ascii_split(typed, i);
    assert(typed.take(i) == s.take(i));
    assert(typed.skip(i).drop_first() == s.skip(i));
    assert(s.take(i) + s.skip(i) == s);
}

} // verus!
